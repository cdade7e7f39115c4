//! The in-memory flight model: entities, features, events and callsigns.
//!
//! Floating-point fields hold IEEE-754 bit patterns (see [`crate::float_bits`]).
use std::collections::BTreeMap;
use vstd::prelude::*;

verus! {

pub const ENTITY_FLAG_MISSILE: u32 = 0x0000_0001;

/// Written by the tape writer for every feature.
pub const ENTITY_FLAG_FEATURE: u32 = 0x0000_0002;

pub const ENTITY_FLAG_AIRCRAFT: u32 = 0x0000_0004;

pub const ENTITY_FLAG_CHAFF: u32 = 0x0000_0008;

pub const ENTITY_FLAG_FLARE: u32 = 0x0000_0010;

/// One pose sample of an entity.
#[derive(Debug, Clone, Copy, PartialEq, Eq)]
pub struct EntityPositionUpdate {
    pub time: u32,
    pub x: u32,
    pub y: u32,
    pub z: u32,
    pub pitch: u32,
    pub roll: u32,
    pub yaw: u32,
    /// UID of the current radar target, or -1 if the entity has none.
    pub radar_target: i32,
}

#[derive(Debug, Clone, Copy, PartialEq, Eq)]
pub struct SwitchEvent {
    pub switch_number: i32,
    pub new_switch_value: i32,
    pub previous_switch_value: i32,
}

#[derive(Debug, Clone, Copy, PartialEq, Eq)]
pub struct DofEvent {
    pub dof_number: i32,
    pub new_dof_value: u32,
    pub previous_dof_value: u32,
}

#[derive(Debug, Clone, Copy, PartialEq, Eq)]
pub enum EntityEventPayload {
    SwitchEvent(SwitchEvent),
    DofEvent(DofEvent),
}

#[derive(Debug, Clone, Copy, PartialEq, Eq)]
pub struct EntityEvent {
    pub time: u32,
    pub payload: EntityEventPayload,
}

/// What an entity's first position record says about it, and its trail.
#[derive(Debug, Clone, PartialEq, Eq)]
pub struct EntityPositionData {
    pub kind: i32,
    /// One of the `ENTITY_FLAG_...` values, or 0 for a general entity.
    pub flags: u32,
    pub position_updates: Vec<EntityPositionUpdate>,
}

pub struct PositionDataView {
    pub kind: i32,
    pub flags: u32,
    pub updates: Seq<EntityPositionUpdate>,
}

impl View for EntityPositionData {
    type V = PositionDataView;

    open spec fn view(&self) -> PositionDataView {
        PositionDataView { kind: self.kind, flags: self.flags, updates: self.position_updates@ }
    }
}

/// A moving object: its trail (once a position record has arrived) and its
/// discrete events.
#[derive(Debug, Clone, PartialEq, Eq)]
pub struct EntityData {
    pub position_data: Option<EntityPositionData>,
    pub events: Vec<EntityEvent>,
}

pub struct EntityView {
    pub position: Option<PositionDataView>,
    pub events: Seq<EntityEvent>,
}

impl View for EntityData {
    type V = EntityView;

    open spec fn view(&self) -> EntityView {
        EntityView {
            position: match self.position_data {
                Some(p) => Some(p@),
                None => None,
            },
            events: self.events@,
        }
    }
}

impl EntityData {
    pub fn new() -> (r: EntityData)
        ensures
            r@.position is None,
            r@.events == Seq::<EntityEvent>::empty(),
    {
        EntityData { position_data: None, events: Vec::new() }
    }
}

/// A status change of a feature.
#[derive(Debug, Clone, Copy, PartialEq, Eq)]
pub struct FeatureEvent {
    pub time: u32,
    pub feature_uid: i32,
    pub new_status: i32,
    pub previous_status: i32,
}

/// A static object, defined by its first position record.
#[derive(Debug, Clone, Copy, PartialEq, Eq)]
pub struct FeatureData {
    pub kind: i32,
    pub lead_uid: i32,
    pub slot: i32,
    pub special_flags: u32,
    pub time: u32,
    pub x: u32,
    pub y: u32,
    pub z: u32,
    pub pitch: u32,
    pub roll: u32,
    pub yaw: u32,
}

/// A world-level event: a tracer, a stationary sound or a moving sound.
#[derive(Debug, Clone, Copy, PartialEq, Eq)]
pub struct GeneralEvent {
    pub type_byte: u8,
    pub start: u32,
    pub stop: u32,
    pub kind: i32,
    pub user: i32,
    pub flags: u32,
    pub scale: u32,
    pub x: u32,
    pub y: u32,
    pub z: u32,
    pub dx: u32,
    pub dy: u32,
    pub dz: u32,
    pub roll: u32,
    pub pitch: u32,
    pub yaw: u32,
}

/// A fixed-width label and a team color. All zeros means "no callsign".
#[derive(Debug, Clone, Copy, PartialEq, Eq)]
pub struct CallsignRecord {
    pub label: [u8; 16],
    pub team_color: i32,
}

pub struct CallsignView {
    pub label: Seq<u8>,
    pub team_color: i32,
}

impl View for CallsignRecord {
    type V = CallsignView;

    open spec fn view(&self) -> CallsignView {
        CallsignView { label: self.label@, team_color: self.team_color }
    }
}

pub open spec fn is_blank(c: CallsignView) -> bool {
    c.team_color == 0 && forall|i: int| 0 <= i < c.label.len() ==> c.label[i] == 0
}

impl CallsignRecord {
    /// True for the all-zero record, which stands for "no callsign".
    pub fn is_blank(&self) -> (r: bool)
        ensures
            r == is_blank(self@),
    {
        if self.team_color != 0 {
            return false;
        }
        let mut i: usize = 0;
        while i < 16
            invariant
                i <= 16,
                self.label@.len() == 16,
                forall|j: int| 0 <= j < i ==> self.label@[j] == 0,
            decreases 16 - i,
        {
            if self.label[i] != 0 {
                assert(self@.label[i as int] != 0);
                return false;
            }
            i = i + 1;
        }
        true
    }
}

/// One logical recording.
#[derive(Debug, Clone, PartialEq)]
pub struct Flight {
    /// Set when reading stopped early.
    pub corrupted: bool,
    pub tod_offset: u32,
    pub start_time: u32,
    pub end_time: u32,
    pub callsigns: BTreeMap<i32, CallsignRecord>,
    pub entities: BTreeMap<i32, EntityData>,
    pub features: BTreeMap<i32, FeatureData>,
    pub general_events: Vec<GeneralEvent>,
    pub feature_events: Vec<FeatureEvent>,
}

pub struct FlightView {
    pub corrupted: bool,
    pub tod_offset: u32,
    pub start_time: u32,
    pub end_time: u32,
    pub callsigns: Map<i32, CallsignView>,
    pub entities: Map<i32, EntityView>,
    pub features: Map<i32, FeatureData>,
    pub general_events: Seq<GeneralEvent>,
    pub feature_events: Seq<FeatureEvent>,
}

impl View for Flight {
    type V = FlightView;

    open spec fn view(&self) -> FlightView {
        FlightView {
            corrupted: self.corrupted,
            tod_offset: self.tod_offset,
            start_time: self.start_time,
            end_time: self.end_time,
            callsigns: self.callsigns@.map_values(|c: CallsignRecord| c@),
            entities: self.entities@.map_values(|e: EntityData| e@),
            features: self.features@,
            general_events: self.general_events@,
            feature_events: self.feature_events@,
        }
    }
}

/// A point in the world, as three float bit patterns.
#[derive(Debug, Clone, Copy, PartialEq, Eq)]
pub struct Point {
    pub x: u32,
    pub y: u32,
    pub z: u32,
}

/// Every feature event refers to a known feature.
pub open spec fn feature_events_known(f: FlightView) -> bool {
    forall|i: int|
        0 <= i < f.feature_events.len() ==> f.features.contains_key(
            #[trigger] f.feature_events[i].feature_uid,
        )
}

/// What the merge engine and the tape writer rely on.
pub open spec fn well_formed(f: FlightView) -> bool {
    entities_positioned(f) && feature_events_known(f)
}

/// Every entity and feature id is below `bound`.
pub open spec fn ids_below(f: FlightView, bound: int) -> bool {
    forall|k: i32|
        #![trigger f.entities.contains_key(k)]
        #![trigger f.features.contains_key(k)]
        (f.entities.contains_key(k) || f.features.contains_key(k)) ==> k < bound
}

/// The keys of a map in increasing order.
pub fn sorted_keys<V>(m: &BTreeMap<i32, V>) -> (r: Vec<i32>)
    ensures
        r@.len() == m@.dom().len(),
        forall|i: int| 0 <= i < r@.len() ==> m@.contains_key(#[trigger] r@[i]),
        forall|k: i32| m@.contains_key(k) ==> r@.contains(k),
        forall|i: int, j: int| 0 <= i < j < r@.len() ==> r@[i] < r@[j],
{
    let mut out: Vec<i32> = Vec::new();
    let ghost ks: Seq<i32> = vstd::std_specs::iter::IteratorSpec::remaining(&vstd::std_specs::btree::spec_keys_iter(m)).unref();
    for k in it: m.keys()
        invariant
            out@.len() == it.index(),
            forall|i: int| 0 <= i < it.index() ==> out@[i] == *it.seq()[i],
            it.seq().unref().to_set() == m@.dom(),
            it.seq().len() == m@.dom().len(),
            ks == it.seq().unref(),
    {
        out.push(*k);
    }
    proof {
        let rem = vstd::std_specs::iter::IteratorSpec::remaining(
            &vstd::std_specs::btree::spec_keys_iter(m),
        );
        assert(vstd::std_specs::btree::increasing_seq(rem));
        assert forall|i: int, j: int| 0 <= i < j < out@.len() implies out@[i] < out@[j] by {
            assert(vstd::std_specs::cmp::OrdSpec::cmp_spec(&rem[i], &rem[j]) is Less);
        }
        if out@.len() > 0 {
            assert(out@ =~= ks);
            assert forall|i: int| 0 <= i < out@.len() implies m@.contains_key(
                #[trigger] out@[i],
            ) by {
                assert(ks.to_set().contains(ks[i]));
            }
            assert forall|k: i32| m@.contains_key(k) implies out@.contains(k) by {
                assert(ks.to_set().contains(k));
            }
        } else {
            assert(m@.dom() =~= Set::empty()) by {
                m@.dom().lemma_len0_is_empty();
            }
        }
    }
    out
}

/// Every entity has a non-empty trail.
pub open spec fn entities_positioned(f: FlightView) -> bool {
    forall|k: i32| #[trigger]
        f.entities.contains_key(k) ==> f.entities[k].position is Some
            && f.entities[k].position->Some_0.updates.len() > 0
}

} // verus!
