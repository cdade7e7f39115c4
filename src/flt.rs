//! The FLT reader: a flat stream of records, each a discriminant byte, a
//! timestamp and a body whose layout the discriminant fixes.
//!
//! [`parse_model`] states what a whole stream yields; [`Flight::parse`]
//! computes it.
use crate::flight::{
    is_blank, CallsignRecord, CallsignView, DofEvent, EntityData, EntityEvent, EntityEventPayload,
    EntityPositionData, EntityPositionUpdate, EntityView, FeatureData, FeatureEvent, Flight,
    FlightView, GeneralEvent, PositionDataView, SwitchEvent, ENTITY_FLAG_AIRCRAFT,
    ENTITY_FLAG_CHAFF, ENTITY_FLAG_FLARE, ENTITY_FLAG_MISSILE,
};
use crate::float_bits::{is_nan, less_than, lt, ordinal, FIVE, NEG_INFINITY, ZERO};
use crate::flight::{entities_positioned, feature_events_known, sorted_keys, well_formed};
use crate::primitives::{i32_at, le_i32, le_u32, read_i32, u32_at, ShortRead};
use std::collections::BTreeMap;
use vstd::prelude::*;

verus! {

pub const REC_TYPE_GENERAL_POSITION: u8 = 0;

pub const REC_TYPE_MISSILE_POSITION: u8 = 1;

pub const REC_TYPE_FEATURE_POSITION: u8 = 2;

pub const REC_TYPE_AIRCRAFT_POSITION: u8 = 3;

pub const REC_TYPE_TRACER_START: u8 = 4;

pub const REC_TYPE_STATIONARY_SFX: u8 = 5;

pub const REC_TYPE_MOVING_SFX: u8 = 6;

pub const REC_TYPE_SWITCH: u8 = 7;

pub const REC_TYPE_DOF: u8 = 8;

pub const REC_TYPE_CHAFF_POSITION: u8 = 9;

pub const REC_TYPE_FLARE_POSITION: u8 = 10;

pub const REC_TYPE_TOD_OFFSET: u8 = 11;

pub const REC_TYPE_FEATURE_STATUS: u8 = 12;

pub const REC_TYPE_CALLSIGN_LIST: u8 = 13;

/// Why reading stopped before the end of the stream.
#[derive(Debug, Clone, Copy, PartialEq, Eq)]
pub enum FltError {
    /// The stream ended in the middle of a record.
    ShortRead,
    /// A discriminant outside 0..=13.
    UnknownRecord(u8),
    /// A callsign list announced a negative count.
    NegativeCallsignCount(i32),
}

impl FltError {
    pub fn from_short_read(e: ShortRead) -> (r: FltError)
        ensures
            r == FltError::ShortRead,
    {
        FltError::ShortRead
    }
}

// ---------------------------------------------------------------------------
// What a stream means.

/// A caller-supplied float operation on bit patterns, read as a function.
pub open spec fn op_of<F: Fn(u32, u32) -> u32>(op: F) -> spec_fn(u32, u32) -> u32 {
    |a: u32, b: u32| choose|r: u32| call_ensures(op, (a, b), r)
}

/// The operation can always be called and gives one answer per input.
pub open spec fn is_function<F: Fn(u32, u32) -> u32>(op: F) -> bool {
    &&& forall|a: u32, b: u32| call_requires(op, (a, b))
    &&& forall|a: u32, b: u32, r: u32, q: u32|
        #[trigger] call_ensures(op, (a, b), r) && #[trigger] call_ensures(op, (a, b), q) ==> r == q
}

/// Length of the body that follows the timestamp, for every discriminant
/// but the callsign list.
pub open spec fn body_len(disc: u8) -> int {
    if disc == 0 || disc == 1 || disc == 9 || disc == 10 {
        32
    } else if disc == 3 {
        36
    } else if disc == 2 || disc == 6 {
        44
    } else if disc == 4 || disc == 5 {
        24
    } else if disc == 7 || disc == 8 {
        20
    } else if disc == 12 {
        12
    } else {
        0
    }
}

pub open spec fn is_position_disc(disc: u8) -> bool {
    disc == 0 || disc == 1 || disc == 3 || disc == 9 || disc == 10
}

pub open spec fn position_flags(disc: u8) -> u32 {
    if disc == 1 {
        ENTITY_FLAG_MISSILE
    } else if disc == 3 {
        ENTITY_FLAG_AIRCRAFT
    } else if disc == 9 {
        ENTITY_FLAG_CHAFF
    } else if disc == 10 {
        ENTITY_FLAG_FLARE
    } else {
        0
    }
}

pub open spec fn empty_flight() -> FlightView {
    FlightView {
        corrupted: false,
        tod_offset: 0,
        start_time: NEG_INFINITY,
        end_time: NEG_INFINITY,
        callsigns: Map::empty(),
        entities: Map::empty(),
        features: Map::empty(),
        general_events: Seq::empty(),
        feature_events: Seq::empty(),
    }
}

/// Time bounds after a record stamped `time` (time-of-day records excluded).
pub open spec fn observe(f: FlightView, time: u32) -> FlightView {
    FlightView {
        start_time: if lt(f.start_time, ZERO) {
            time
        } else {
            f.start_time
        },
        end_time: if lt(f.end_time, time) {
            time
        } else {
            f.end_time
        },
        ..f
    }
}

pub open spec fn entity_or_new(m: Map<i32, EntityView>, uid: i32) -> EntityView {
    if m.contains_key(uid) {
        m[uid]
    } else {
        EntityView { position: None, events: Seq::empty() }
    }
}

/// An entity after a position record: the first one fixes kind and flags.
pub open spec fn with_position(
    e: EntityView,
    kind: i32,
    flags: u32,
    u: EntityPositionUpdate,
) -> EntityView {
    let p = match e.position {
        Some(p) => p,
        None => PositionDataView { kind, flags, updates: Seq::empty() },
    };
    EntityView {
        position: Some(PositionDataView { kind: p.kind, flags: p.flags, updates: p.updates.push(u) }),
        events: e.events,
    }
}

pub open spec fn with_event(e: EntityView, ev: EntityEvent) -> EntityView {
    EntityView { position: e.position, events: e.events.push(ev) }
}

pub open spec fn general_event(
    type_byte: u8,
    start: u32,
    stop: u32,
    kind: i32,
    user: i32,
    flags: u32,
    scale: u32,
    x: u32,
    y: u32,
    z: u32,
    dx: u32,
    dy: u32,
    dz: u32,
) -> GeneralEvent {
    GeneralEvent {
        type_byte,
        start,
        stop,
        kind,
        user,
        flags,
        scale,
        x,
        y,
        z,
        dx,
        dy,
        dz,
        roll: 0,
        pitch: 0,
        yaw: 0,
    }
}

/// The effect of a record with a fixed-size body starting at byte `b`.
pub open spec fn apply_body(
    f: FlightView,
    disc: u8,
    time: u32,
    s: Seq<u8>,
    b: int,
    sum: spec_fn(u32, u32) -> u32,
) -> FlightView {
    if is_position_disc(disc) {
        let uid = le_i32(s, b + 4);
        let u = EntityPositionUpdate {
            time,
            x: le_u32(s, b + 8),
            y: le_u32(s, b + 12),
            z: le_u32(s, b + 16),
            yaw: le_u32(s, b + 20),
            pitch: le_u32(s, b + 24),
            roll: le_u32(s, b + 28),
            radar_target: if disc == 3 {
                le_i32(s, b + 32)
            } else {
                -1i32
            },
        };
        FlightView {
            entities: f.entities.insert(
                uid,
                with_position(entity_or_new(f.entities, uid), le_i32(s, b), position_flags(disc), u),
            ),
            ..f
        }
    } else if disc == 2 {
        let uid = le_i32(s, b + 4);
        let feature = FeatureData {
            kind: le_i32(s, b),
            lead_uid: le_i32(s, b + 8),
            slot: le_i32(s, b + 12),
            special_flags: le_u32(s, b + 16),
            time,
            x: le_u32(s, b + 20),
            y: le_u32(s, b + 24),
            z: le_u32(s, b + 28),
            yaw: le_u32(s, b + 32),
            pitch: le_u32(s, b + 36),
            roll: le_u32(s, b + 40),
        };
        if f.features.contains_key(uid) {
            f
        } else {
            FlightView { features: f.features.insert(uid, feature), ..f }
        }
    } else if disc == 4 {
        let ev = general_event(
            disc,
            time,
            sum(time, FIVE),
            0,
            0,
            0,
            0,
            le_u32(s, b),
            le_u32(s, b + 4),
            le_u32(s, b + 8),
            le_u32(s, b + 12),
            le_u32(s, b + 16),
            le_u32(s, b + 20),
        );
        FlightView { general_events: f.general_events.push(ev), ..f }
    } else if disc == 5 {
        let ev = general_event(
            disc,
            time,
            sum(time, le_u32(s, b + 16)),
            le_i32(s, b),
            0,
            0,
            le_u32(s, b + 20),
            le_u32(s, b + 4),
            le_u32(s, b + 8),
            le_u32(s, b + 12),
            0,
            0,
            0,
        );
        FlightView { general_events: f.general_events.push(ev), ..f }
    } else if disc == 6 {
        let ev = general_event(
            disc,
            time,
            sum(time, le_u32(s, b + 36)),
            le_i32(s, b),
            le_i32(s, b + 4),
            le_u32(s, b + 8),
            le_u32(s, b + 40),
            le_u32(s, b + 12),
            le_u32(s, b + 16),
            le_u32(s, b + 20),
            le_u32(s, b + 24),
            le_u32(s, b + 28),
            le_u32(s, b + 32),
        );
        FlightView { general_events: f.general_events.push(ev), ..f }
    } else if disc == 7 || disc == 8 {
        let uid = le_i32(s, b + 4);
        let payload = if disc == 7 {
            EntityEventPayload::SwitchEvent(
                SwitchEvent {
                    switch_number: le_i32(s, b + 8),
                    new_switch_value: le_i32(s, b + 12),
                    previous_switch_value: le_i32(s, b + 16),
                },
            )
        } else {
            EntityEventPayload::DofEvent(
                DofEvent {
                    dof_number: le_i32(s, b + 8),
                    new_dof_value: le_u32(s, b + 12),
                    previous_dof_value: le_u32(s, b + 16),
                },
            )
        };
        FlightView {
            entities: f.entities.insert(
                uid,
                with_event(entity_or_new(f.entities, uid), EntityEvent { time, payload }),
            ),
            ..f
        }
    } else if disc == 11 {
        FlightView { tod_offset: time, ..f }
    } else if disc == 12 {
        let uid = le_i32(s, b);
        if f.features.contains_key(uid) {
            let ev = FeatureEvent {
                time,
                feature_uid: uid,
                new_status: le_i32(s, b + 4),
                previous_status: le_i32(s, b + 8),
            };
            FlightView { feature_events: f.feature_events.push(ev), ..f }
        } else {
            f
        }
    } else {
        f
    }
}

/// The callsign record at byte `p`.
pub open spec fn callsign_at(s: Seq<u8>, p: int) -> CallsignView {
    CallsignView { label: s.subrange(p, p + 16), team_color: le_i32(s, p + 16) }
}

/// The callsigns a list of `count` records at byte `b` gives the known ids.
pub open spec fn callsign_table(f: FlightView, s: Seq<u8>, b: int, count: int) -> Map<
    i32,
    CallsignView,
> {
    Map::new(
        |k: i32|
            (f.entities.contains_key(k) || f.features.contains_key(k)) && 0 <= k < count
                && !is_blank(callsign_at(s, b + 4 + 20 * k)),
        |k: i32| callsign_at(s, b + 4 + 20 * k),
    )
}

/// How reading one record ends.
pub enum Step {
    /// The next record starts at this byte.
    Continue(int),
    /// The stream ended cleanly before a discriminant.
    End,
    /// Reading stopped.
    Fail(FltError),
}

/// One record at byte `pos`: the flight after it, and how reading goes on.
pub open spec fn step(
    f: FlightView,
    s: Seq<u8>,
    pos: int,
    sum: spec_fn(u32, u32) -> u32,
) -> (FlightView, Step) {
    if pos >= s.len() {
        (f, Step::End)
    } else if pos + 5 > s.len() {
        (f, Step::Fail(FltError::ShortRead))
    } else {
        let disc = s[pos];
        let time = le_u32(s, pos + 1);
        let f1 = if disc != REC_TYPE_TOD_OFFSET {
            observe(f, time)
        } else {
            f
        };
        let b = pos + 5;
        if disc > 13 {
            (f1, Step::Fail(FltError::UnknownRecord(disc)))
        } else if disc == REC_TYPE_CALLSIGN_LIST {
            let f2 = FlightView { callsigns: Map::empty(), ..f1 };
            if b + 4 > s.len() {
                (f2, Step::Fail(FltError::ShortRead))
            } else {
                let count = le_i32(s, b);
                if count < 0 {
                    (f2, Step::Fail(FltError::NegativeCallsignCount(count)))
                } else if b + 4 + 20 * count > s.len() {
                    (f2, Step::Fail(FltError::ShortRead))
                } else {
                    (
                        FlightView { callsigns: callsign_table(f2, s, b, count as int), ..f2 },
                        Step::Continue(b + 4 + 20 * count),
                    )
                }
            }
        } else if b + body_len(disc) > s.len() {
            (f1, Step::Fail(FltError::ShortRead))
        } else {
            (apply_body(f1, disc, time, s, b, sum), Step::Continue(b + body_len(disc)))
        }
    }
}

/// Reads records from byte `pos` until the stream ends or a record fails.
pub open spec fn run(f: FlightView, s: Seq<u8>, pos: int, sum: spec_fn(u32, u32) -> u32) -> FlightView
    decreases s.len() - pos,
{
    let (g, st) = step(f, s, pos, sum);
    match st {
        Step::Continue(p) => if pos < p <= s.len() {
            run(g, s, p, sum)
        } else {
            g
        },
        Step::End => g,
        Step::Fail(_) => FlightView { corrupted: true, ..g },
    }
}

/// Drops the entities that never received a position.
pub open spec fn cleanup(f: FlightView) -> FlightView {
    FlightView {
        entities: Map::new(
            |k: i32| f.entities.contains_key(k) && f.entities[k].position is Some,
            |k: i32| f.entities[k],
        ),
        ..f
    }
}

/// The flight a whole stream describes.
pub open spec fn parse_model(s: Seq<u8>, sum: spec_fn(u32, u32) -> u32) -> FlightView {
    cleanup(run(empty_flight(), s, 0, sum))
}

// ---------------------------------------------------------------------------
// Record bodies.

struct PositionRecord {
    kind: i32,
    uid: i32,
    x: u32,
    y: u32,
    z: u32,
    yaw: u32,
    pitch: u32,
    roll: u32,
}

spec fn position_record_at(s: Seq<u8>, b: int) -> PositionRecord {
    PositionRecord {
        kind: le_i32(s, b),
        uid: le_i32(s, b + 4),
        x: le_u32(s, b + 8),
        y: le_u32(s, b + 12),
        z: le_u32(s, b + 16),
        yaw: le_u32(s, b + 20),
        pitch: le_u32(s, b + 24),
        roll: le_u32(s, b + 28),
    }
}

/// Fails unless `n` bytes remain from `pos`.
fn need(r: &[u8], pos: usize, n: usize) -> (res: Result<(), FltError>)
    ensures
        pos + n <= r@.len() <==> res is Ok,
        res is Err ==> res == Err::<(), FltError>(FltError::ShortRead),
        r@.len() <= usize::MAX,
{
    if pos <= r.len() && r.len() - pos >= n {
        Ok(())
    } else {
        Err(FltError::ShortRead)
    }
}

impl PositionRecord {
    fn parse(r: &[u8], pos: &mut usize) -> (res: Result<PositionRecord, FltError>)
        ensures
            *old(pos) + 32 <= r@.len() ==> res == Ok::<PositionRecord, FltError>(
                position_record_at(r@, *old(pos) as int),
            ) && *final(pos) == *old(pos) + 32,
            *old(pos) + 32 > r@.len() ==> res == Err::<PositionRecord, FltError>(
                FltError::ShortRead,
            ),
    {
        let p = *pos;
        if need(r, p, 32).is_err() {
            return Err(FltError::ShortRead);
        }
        *pos = p + 32;
        Ok(
            PositionRecord {
                kind: i32_at(r, p),
                uid: i32_at(r, p + 4),
                x: u32_at(r, p + 8),
                y: u32_at(r, p + 12),
                z: u32_at(r, p + 16),
                yaw: u32_at(r, p + 20),
                pitch: u32_at(r, p + 24),
                roll: u32_at(r, p + 28),
            },
        )
    }
}

struct FeaturePositionRecord {
    kind: i32,
    uid: i32,
    lead_uid: i32,
    slot: i32,
    special_flags: u32,
    x: u32,
    y: u32,
    z: u32,
    yaw: u32,
    pitch: u32,
    roll: u32,
}

spec fn feature_position_record_at(s: Seq<u8>, b: int) -> FeaturePositionRecord {
    FeaturePositionRecord {
        kind: le_i32(s, b),
        uid: le_i32(s, b + 4),
        lead_uid: le_i32(s, b + 8),
        slot: le_i32(s, b + 12),
        special_flags: le_u32(s, b + 16),
        x: le_u32(s, b + 20),
        y: le_u32(s, b + 24),
        z: le_u32(s, b + 28),
        yaw: le_u32(s, b + 32),
        pitch: le_u32(s, b + 36),
        roll: le_u32(s, b + 40),
    }
}

impl FeaturePositionRecord {
    fn parse(r: &[u8], pos: &mut usize) -> (res: Result<FeaturePositionRecord, FltError>)
        ensures
            *old(pos) + 44 <= r@.len() ==> res == Ok::<FeaturePositionRecord, FltError>(
                feature_position_record_at(r@, *old(pos) as int),
            ) && *final(pos) == *old(pos) + 44,
            *old(pos) + 44 > r@.len() ==> res == Err::<FeaturePositionRecord, FltError>(
                FltError::ShortRead,
            ),
    {
        let p = *pos;
        if need(r, p, 44).is_err() {
            return Err(FltError::ShortRead);
        }
        *pos = p + 44;
        Ok(
            FeaturePositionRecord {
                kind: i32_at(r, p),
                uid: i32_at(r, p + 4),
                lead_uid: i32_at(r, p + 8),
                slot: i32_at(r, p + 12),
                special_flags: u32_at(r, p + 16),
                x: u32_at(r, p + 20),
                y: u32_at(r, p + 24),
                z: u32_at(r, p + 28),
                yaw: u32_at(r, p + 32),
                pitch: u32_at(r, p + 36),
                roll: u32_at(r, p + 40),
            },
        )
    }
}

struct TracerStartRecord {
    x: u32,
    y: u32,
    z: u32,
    dx: u32,
    dy: u32,
    dz: u32,
}

spec fn tracer_start_record_at(s: Seq<u8>, b: int) -> TracerStartRecord {
    TracerStartRecord {
        x: le_u32(s, b),
        y: le_u32(s, b + 4),
        z: le_u32(s, b + 8),
        dx: le_u32(s, b + 12),
        dy: le_u32(s, b + 16),
        dz: le_u32(s, b + 20),
    }
}

impl TracerStartRecord {
    fn parse(r: &[u8], pos: &mut usize) -> (res: Result<TracerStartRecord, FltError>)
        ensures
            *old(pos) + 24 <= r@.len() ==> res == Ok::<TracerStartRecord, FltError>(
                tracer_start_record_at(r@, *old(pos) as int),
            ) && *final(pos) == *old(pos) + 24,
            *old(pos) + 24 > r@.len() ==> res == Err::<TracerStartRecord, FltError>(
                FltError::ShortRead,
            ),
    {
        let p = *pos;
        if need(r, p, 24).is_err() {
            return Err(FltError::ShortRead);
        }
        *pos = p + 24;
        Ok(
            TracerStartRecord {
                x: u32_at(r, p),
                y: u32_at(r, p + 4),
                z: u32_at(r, p + 8),
                dx: u32_at(r, p + 12),
                dy: u32_at(r, p + 16),
                dz: u32_at(r, p + 20),
            },
        )
    }
}

struct StationarySoundRecord {
    kind: i32,
    x: u32,
    y: u32,
    z: u32,
    ttl: u32,
    scale: u32,
}

spec fn stationary_sound_record_at(s: Seq<u8>, b: int) -> StationarySoundRecord {
    StationarySoundRecord {
        kind: le_i32(s, b),
        x: le_u32(s, b + 4),
        y: le_u32(s, b + 8),
        z: le_u32(s, b + 12),
        ttl: le_u32(s, b + 16),
        scale: le_u32(s, b + 20),
    }
}

impl StationarySoundRecord {
    fn parse(r: &[u8], pos: &mut usize) -> (res: Result<StationarySoundRecord, FltError>)
        ensures
            *old(pos) + 24 <= r@.len() ==> res == Ok::<StationarySoundRecord, FltError>(
                stationary_sound_record_at(r@, *old(pos) as int),
            ) && *final(pos) == *old(pos) + 24,
            *old(pos) + 24 > r@.len() ==> res == Err::<StationarySoundRecord, FltError>(
                FltError::ShortRead,
            ),
    {
        let p = *pos;
        if need(r, p, 24).is_err() {
            return Err(FltError::ShortRead);
        }
        *pos = p + 24;
        Ok(
            StationarySoundRecord {
                kind: i32_at(r, p),
                x: u32_at(r, p + 4),
                y: u32_at(r, p + 8),
                z: u32_at(r, p + 12),
                ttl: u32_at(r, p + 16),
                scale: u32_at(r, p + 20),
            },
        )
    }
}

struct MovingSoundRecord {
    kind: i32,
    user: i32,
    flags: u32,
    x: u32,
    y: u32,
    z: u32,
    dx: u32,
    dy: u32,
    dz: u32,
    ttl: u32,
    scale: u32,
}

spec fn moving_sound_record_at(s: Seq<u8>, b: int) -> MovingSoundRecord {
    MovingSoundRecord {
        kind: le_i32(s, b),
        user: le_i32(s, b + 4),
        flags: le_u32(s, b + 8),
        x: le_u32(s, b + 12),
        y: le_u32(s, b + 16),
        z: le_u32(s, b + 20),
        dx: le_u32(s, b + 24),
        dy: le_u32(s, b + 28),
        dz: le_u32(s, b + 32),
        ttl: le_u32(s, b + 36),
        scale: le_u32(s, b + 40),
    }
}

impl MovingSoundRecord {
    fn parse(r: &[u8], pos: &mut usize) -> (res: Result<MovingSoundRecord, FltError>)
        ensures
            *old(pos) + 44 <= r@.len() ==> res == Ok::<MovingSoundRecord, FltError>(
                moving_sound_record_at(r@, *old(pos) as int),
            ) && *final(pos) == *old(pos) + 44,
            *old(pos) + 44 > r@.len() ==> res == Err::<MovingSoundRecord, FltError>(
                FltError::ShortRead,
            ),
    {
        let p = *pos;
        if need(r, p, 44).is_err() {
            return Err(FltError::ShortRead);
        }
        *pos = p + 44;
        Ok(
            MovingSoundRecord {
                kind: i32_at(r, p),
                user: i32_at(r, p + 4),
                flags: u32_at(r, p + 8),
                x: u32_at(r, p + 12),
                y: u32_at(r, p + 16),
                z: u32_at(r, p + 20),
                dx: u32_at(r, p + 24),
                dy: u32_at(r, p + 28),
                dz: u32_at(r, p + 32),
                ttl: u32_at(r, p + 36),
                scale: u32_at(r, p + 40),
            },
        )
    }
}

struct FeatureEventRecord {
    uid: i32,
    new_status: i32,
    previous_status: i32,
}

spec fn feature_event_record_at(s: Seq<u8>, b: int) -> FeatureEventRecord {
    FeatureEventRecord {
        uid: le_i32(s, b),
        new_status: le_i32(s, b + 4),
        previous_status: le_i32(s, b + 8),
    }
}

impl FeatureEventRecord {
    fn read(r: &[u8], pos: &mut usize) -> (res: Result<FeatureEventRecord, FltError>)
        ensures
            *old(pos) + 12 <= r@.len() ==> res == Ok::<FeatureEventRecord, FltError>(
                feature_event_record_at(r@, *old(pos) as int),
            ) && *final(pos) == *old(pos) + 12,
            *old(pos) + 12 > r@.len() ==> res == Err::<FeatureEventRecord, FltError>(
                FltError::ShortRead,
            ),
    {
        let p = *pos;
        if need(r, p, 12).is_err() {
            return Err(FltError::ShortRead);
        }
        *pos = p + 12;
        Ok(
            FeatureEventRecord {
                uid: i32_at(r, p),
                new_status: i32_at(r, p + 4),
                previous_status: i32_at(r, p + 8),
            },
        )
    }
}

struct SwitchRecord {
    kind: i32,
    uid: i32,
    switch_number: i32,
    new_switch_value: i32,
    previous_switch_value: i32,
}

spec fn switch_record_at(s: Seq<u8>, b: int) -> SwitchRecord {
    SwitchRecord {
        kind: le_i32(s, b),
        uid: le_i32(s, b + 4),
        switch_number: le_i32(s, b + 8),
        new_switch_value: le_i32(s, b + 12),
        previous_switch_value: le_i32(s, b + 16),
    }
}

impl SwitchRecord {
    fn parse(r: &[u8], pos: &mut usize) -> (res: Result<SwitchRecord, FltError>)
        ensures
            *old(pos) + 20 <= r@.len() ==> res == Ok::<SwitchRecord, FltError>(
                switch_record_at(r@, *old(pos) as int),
            ) && *final(pos) == *old(pos) + 20,
            *old(pos) + 20 > r@.len() ==> res == Err::<SwitchRecord, FltError>(
                FltError::ShortRead,
            ),
    {
        let p = *pos;
        if need(r, p, 20).is_err() {
            return Err(FltError::ShortRead);
        }
        *pos = p + 20;
        Ok(
            SwitchRecord {
                kind: i32_at(r, p),
                uid: i32_at(r, p + 4),
                switch_number: i32_at(r, p + 8),
                new_switch_value: i32_at(r, p + 12),
                previous_switch_value: i32_at(r, p + 16),
            },
        )
    }
}

struct DofRecord {
    kind: i32,
    uid: i32,
    dof_number: i32,
    new_dof_value: u32,
    previous_dof_value: u32,
}

spec fn dof_record_at(s: Seq<u8>, b: int) -> DofRecord {
    DofRecord {
        kind: le_i32(s, b),
        uid: le_i32(s, b + 4),
        dof_number: le_i32(s, b + 8),
        new_dof_value: le_u32(s, b + 12),
        previous_dof_value: le_u32(s, b + 16),
    }
}

impl DofRecord {
    fn parse(r: &[u8], pos: &mut usize) -> (res: Result<DofRecord, FltError>)
        ensures
            *old(pos) + 20 <= r@.len() ==> res == Ok::<DofRecord, FltError>(
                dof_record_at(r@, *old(pos) as int),
            ) && *final(pos) == *old(pos) + 20,
            *old(pos) + 20 > r@.len() ==> res == Err::<DofRecord, FltError>(FltError::ShortRead),
    {
        let p = *pos;
        if need(r, p, 20).is_err() {
            return Err(FltError::ShortRead);
        }
        *pos = p + 20;
        Ok(
            DofRecord {
                kind: i32_at(r, p),
                uid: i32_at(r, p + 4),
                dof_number: i32_at(r, p + 8),
                new_dof_value: u32_at(r, p + 12),
                previous_dof_value: u32_at(r, p + 16),
            },
        )
    }
}

impl CallsignRecord {
    /// Reads a 16-byte label and a team color.
    pub fn read(r: &[u8], pos: &mut usize) -> (res: Result<CallsignRecord, FltError>)
        ensures
            *old(pos) + 20 <= r@.len() ==> res is Ok && res->Ok_0@ == callsign_at(
                r@,
                *old(pos) as int,
            ) && *final(pos) == *old(pos) + 20,
            *old(pos) + 20 > r@.len() ==> res == Err::<CallsignRecord, FltError>(
                FltError::ShortRead,
            ),
    {
        let p = *pos;
        if need(r, p, 20).is_err() {
            return Err(FltError::ShortRead);
        }
        let label: [u8; 16] = [
            r[p],
            r[p + 1],
            r[p + 2],
            r[p + 3],
            r[p + 4],
            r[p + 5],
            r[p + 6],
            r[p + 7],
            r[p + 8],
            r[p + 9],
            r[p + 10],
            r[p + 11],
            r[p + 12],
            r[p + 13],
            r[p + 14],
            r[p + 15],
        ];
        let team_color = i32_at(r, p + 16);
        *pos = p + 20;
        let c = CallsignRecord { label, team_color };
        assert(c@.label =~= r@.subrange(p as int, p + 16));
        Ok(c)
    }
}

fn parse_callsigns(r: &[u8], pos: &mut usize) -> (res: Result<Vec<CallsignRecord>, FltError>)
    ensures
        *old(pos) + 4 > r@.len() ==> res == Err::<Vec<CallsignRecord>, FltError>(
            FltError::ShortRead,
        ),
        *old(pos) + 4 <= r@.len() ==> {
            let b = *old(pos) as int;
            let count = le_i32(r@, b);
            &&& count < 0 ==> res == Err::<Vec<CallsignRecord>, FltError>(
                FltError::NegativeCallsignCount(count),
            )
            &&& count >= 0 && b + 4 + 20 * count > r@.len() ==> res == Err::<
                Vec<CallsignRecord>,
                FltError,
            >(FltError::ShortRead)
            &&& count >= 0 && b + 4 + 20 * count <= r@.len() ==> {
                &&& res is Ok
                &&& res->Ok_0@.len() == count
                &&& forall|i: int|
                    0 <= i < count ==> (#[trigger] res->Ok_0@[i])@ == callsign_at(
                        r@,
                        b + 4 + 20 * i,
                    )
                &&& *final(pos) == b + 4 + 20 * count
            }
        },
{
    let b = *pos;
    if need(r, b, 4).is_err() {
        return Err(FltError::ShortRead);
    }
    let count = i32_at(r, b);
    if count < 0 {
        return Err(FltError::NegativeCallsignCount(count));
    }
    let n = count as usize;
    let avail = r.len() - b - 4;
    if n > avail / 20 {
        assert(20 * n > avail) by (nonlinear_arith)
            requires
                n > avail / 20,
        ;
        return Err(FltError::ShortRead);
    }
    assert(20 * n <= avail) by (nonlinear_arith)
        requires
            n <= avail / 20,
    ;
    let mut out: Vec<CallsignRecord> = Vec::new();
    let mut p: usize = b + 4;
    let mut i: usize = 0;
    while i < n
        invariant
            i <= n,
            n == count,
            b + 4 + 20 * n <= r@.len(),
            p == b + 4 + 20 * i,
            out@.len() == i,
            forall|j: int| 0 <= j < i ==> (#[trigger] out@[j])@ == callsign_at(r@, b + 4 + 20 * j),
        decreases n - i,
    {
        match CallsignRecord::read(r, &mut p) {
            Ok(c) => out.push(c),
            Err(e) => return Err(e),
        }
        i = i + 1;
    }
    *pos = p;
    Ok(out)
}

/// Calls a caller-supplied float operation.
pub fn apply_op<F: Fn(u32, u32) -> u32>(op: &F, a: u32, b: u32) -> (r: u32)
    requires
        is_function(*op),
    ensures
        r == (op_of(*op))(a, b),
{
    op(a, b)
}

impl Flight {
    /// A flight before any record: empty, with unset time bounds.
    pub fn empty() -> (f: Flight)
        ensures
            f@ == empty_flight(),
    {
        let f = Flight {
            corrupted: false,
            tod_offset: 0,
            start_time: NEG_INFINITY,
            end_time: NEG_INFINITY,
            callsigns: BTreeMap::new(),
            entities: BTreeMap::new(),
            features: BTreeMap::new(),
            general_events: Vec::new(),
            feature_events: Vec::new(),
        };
        assert(f@.callsigns =~= Map::empty());
        assert(f@.entities =~= Map::empty());
        f
    }

    fn note_time(&mut self, time: u32)
        ensures
            final(self)@ == observe(old(self)@, time),
    {
        if less_than(self.start_time, ZERO) {
            self.start_time = time;
        }
        if less_than(self.end_time, time) {
            self.end_time = time;
        }
    }

    fn push_position(&mut self, uid: i32, kind: i32, flags: u32, u: EntityPositionUpdate)
        ensures
            final(self)@ == (FlightView {
                entities: old(self)@.entities.insert(
                    uid,
                    with_position(entity_or_new(old(self)@.entities, uid), kind, flags, u),
                ),
                ..old(self)@
            }),
    {
        let e = match self.entities.remove(&uid) {
            Some(e) => e,
            None => EntityData::new(),
        };
        let EntityData { position_data, events } = e;
        let mut pd = match position_data {
            Some(pd) => pd,
            None => EntityPositionData { kind, flags, position_updates: Vec::new() },
        };
        pd.position_updates.push(u);
        let ne = EntityData { position_data: Some(pd), events };
        self.entities.insert(uid, ne);
        proof {
            let want = with_position(entity_or_new(old(self)@.entities, uid), kind, flags, u);
            assert(ne@.position->Some_0.updates =~= want.position->Some_0.updates);
            assert(self@.entities =~= old(self)@.entities.insert(uid, want));
        }
    }

    fn push_entity_event(&mut self, uid: i32, ev: EntityEvent)
        ensures
            final(self)@ == (FlightView {
                entities: old(self)@.entities.insert(
                    uid,
                    with_event(entity_or_new(old(self)@.entities, uid), ev),
                ),
                ..old(self)@
            }),
    {
        let e = match self.entities.remove(&uid) {
            Some(e) => e,
            None => EntityData::new(),
        };
        let EntityData { position_data, events } = e;
        let mut events = events;
        events.push(ev);
        let ne = EntityData { position_data, events };
        self.entities.insert(uid, ne);
        proof {
            let want = with_event(entity_or_new(old(self)@.entities, uid), ev);
            assert(ne@.events =~= want.events);
            assert(self@.entities =~= old(self)@.entities.insert(uid, want));
        }
    }

    /// Installs the callsigns of a list for the ids this flight knows.
    fn install_callsigns(&mut self, list: &Vec<CallsignRecord>)
        requires
            old(self).callsigns@ == Map::<i32, CallsignRecord>::empty(),
            list@.len() <= i32::MAX,
        ensures
            final(self)@ == (FlightView {
                callsigns: Map::new(
                    |k: i32|
                        (old(self)@.entities.contains_key(k) || old(self)@.features.contains_key(k))
                            && 0 <= k < list@.len() && !is_blank(list@[k as int]@),
                    |k: i32| list@[k as int]@,
                ),
                ..old(self)@
            }),
    {
        let mut i: usize = 0;
        while i < list.len()
            invariant
                i <= list@.len() <= i32::MAX,
                self.entities@ == old(self).entities@,
                self.features@ == old(self).features@,
                self.corrupted == old(self).corrupted,
                self.tod_offset == old(self).tod_offset,
                self.start_time == old(self).start_time,
                self.end_time == old(self).end_time,
                self.general_events@ == old(self).general_events@,
                self.feature_events@ == old(self).feature_events@,
                forall|k: i32|
                    #[trigger] self.callsigns@.contains_key(k) <==> (self.entities@.contains_key(k)
                        || self.features@.contains_key(k)) && 0 <= k < i && !is_blank(
                        list@[k as int]@,
                    ),
                forall|k: i32|
                    #[trigger] self.callsigns@.contains_key(k) ==> self.callsigns@[k]@
                        == list@[k as int]@,
            decreases list@.len() - i,
        {
            let k = i as i32;
            let c = list[i];
            if (self.entities.contains_key(&k) || self.features.contains_key(&k)) && !c.is_blank() {
                self.callsigns.insert(k, c);
            }
            i = i + 1;
        }
        proof {
            let want = Map::new(
                |k: i32|
                    (old(self)@.entities.contains_key(k) || old(self)@.features.contains_key(k))
                        && 0 <= k < list@.len() && !is_blank(list@[k as int]@),
                |k: i32| list@[k as int]@,
            );
            assert(self@.callsigns =~= want);
            assert(self@.entities == old(self)@.entities);
        }
    }
}

/// Reads a fixed-size body at `*pos` and applies it.
fn apply_fixed<F: Fn(u32, u32) -> u32>(
    flight: &mut Flight,
    type_byte: u8,
    time: u32,
    r: &[u8],
    pos: &mut usize,
    plus: &F,
) -> (res: Result<(), FltError>)
    requires
        is_function(*plus),
        type_byte <= 12,
        *old(pos) <= r@.len(),
    ensures
        *old(pos) + body_len(type_byte) <= r@.len() ==> res is Ok && final(flight)@ == apply_body(
            old(flight)@,
            type_byte,
            time,
            r@,
            *old(pos) as int,
            op_of(*plus),
        ) && *final(pos) == *old(pos) + body_len(type_byte),
        *old(pos) + body_len(type_byte) > r@.len() ==> res == Err::<(), FltError>(
            FltError::ShortRead,
        ) && final(flight)@ == old(flight)@,
{
    if type_byte == REC_TYPE_GENERAL_POSITION || type_byte == REC_TYPE_MISSILE_POSITION
        || type_byte == REC_TYPE_AIRCRAFT_POSITION || type_byte == REC_TYPE_CHAFF_POSITION
        || type_byte == REC_TYPE_FLARE_POSITION {
        let rec = match PositionRecord::parse(r, pos) {
            Ok(rec) => rec,
            Err(e) => return Err(e),
        };
        let radar_target = if type_byte == REC_TYPE_AIRCRAFT_POSITION {
            match read_i32(r, pos) {
                Ok(v) => v,
                Err(e) => return Err(FltError::from_short_read(e)),
            }
        } else {
            -1
        };
        let flags = if type_byte == REC_TYPE_MISSILE_POSITION {
            ENTITY_FLAG_MISSILE
        } else if type_byte == REC_TYPE_AIRCRAFT_POSITION {
            ENTITY_FLAG_AIRCRAFT
        } else if type_byte == REC_TYPE_CHAFF_POSITION {
            ENTITY_FLAG_CHAFF
        } else if type_byte == REC_TYPE_FLARE_POSITION {
            ENTITY_FLAG_FLARE
        } else {
            0
        };
        let u = EntityPositionUpdate {
            time,
            x: rec.x,
            y: rec.y,
            z: rec.z,
            pitch: rec.pitch,
            roll: rec.roll,
            yaw: rec.yaw,
            radar_target,
        };
        flight.push_position(rec.uid, rec.kind, flags, u);
        Ok(())
    } else if type_byte == REC_TYPE_FEATURE_POSITION {
        let rec = match FeaturePositionRecord::parse(r, pos) {
            Ok(rec) => rec,
            Err(e) => return Err(e),
        };
        let feature = FeatureData {
            kind: rec.kind,
            lead_uid: rec.lead_uid,
            slot: rec.slot,
            special_flags: rec.special_flags,
            time,
            x: rec.x,
            y: rec.y,
            z: rec.z,
            pitch: rec.pitch,
            roll: rec.roll,
            yaw: rec.yaw,
        };
        // The first definition wins; later ones are ignored.
        if !flight.features.contains_key(&rec.uid) {
            flight.features.insert(rec.uid, feature);
        }
        Ok(())
    } else if type_byte == REC_TYPE_TRACER_START {
        let rec = match TracerStartRecord::parse(r, pos) {
            Ok(rec) => rec,
            Err(e) => return Err(e),
        };
        let ev = GeneralEvent {
            type_byte,
            start: time,
            stop: apply_op(plus, time, FIVE),
            kind: 0,
            user: 0,
            flags: 0,
            scale: 0,
            x: rec.x,
            y: rec.y,
            z: rec.z,
            dx: rec.dx,
            dy: rec.dy,
            dz: rec.dz,
            roll: 0,
            pitch: 0,
            yaw: 0,
        };
        flight.general_events.push(ev);
        Ok(())
    } else if type_byte == REC_TYPE_STATIONARY_SFX {
        let rec = match StationarySoundRecord::parse(r, pos) {
            Ok(rec) => rec,
            Err(e) => return Err(e),
        };
        let ev = GeneralEvent {
            type_byte,
            start: time,
            stop: apply_op(plus, time, rec.ttl),
            kind: rec.kind,
            user: 0,
            flags: 0,
            scale: rec.scale,
            x: rec.x,
            y: rec.y,
            z: rec.z,
            dx: 0,
            dy: 0,
            dz: 0,
            roll: 0,
            pitch: 0,
            yaw: 0,
        };
        flight.general_events.push(ev);
        Ok(())
    } else if type_byte == REC_TYPE_MOVING_SFX {
        let rec = match MovingSoundRecord::parse(r, pos) {
            Ok(rec) => rec,
            Err(e) => return Err(e),
        };
        let ev = GeneralEvent {
            type_byte,
            start: time,
            stop: apply_op(plus, time, rec.ttl),
            kind: rec.kind,
            user: rec.user,
            flags: rec.flags,
            scale: rec.scale,
            x: rec.x,
            y: rec.y,
            z: rec.z,
            dx: rec.dx,
            dy: rec.dy,
            dz: rec.dz,
            roll: 0,
            pitch: 0,
            yaw: 0,
        };
        flight.general_events.push(ev);
        Ok(())
    } else if type_byte == REC_TYPE_SWITCH {
        let rec = match SwitchRecord::parse(r, pos) {
            Ok(rec) => rec,
            Err(e) => return Err(e),
        };
        let payload = EntityEventPayload::SwitchEvent(
            SwitchEvent {
                switch_number: rec.switch_number,
                new_switch_value: rec.new_switch_value,
                previous_switch_value: rec.previous_switch_value,
            },
        );
        flight.push_entity_event(rec.uid, EntityEvent { time, payload });
        Ok(())
    } else if type_byte == REC_TYPE_DOF {
        let rec = match DofRecord::parse(r, pos) {
            Ok(rec) => rec,
            Err(e) => return Err(e),
        };
        let payload = EntityEventPayload::DofEvent(
            DofEvent {
                dof_number: rec.dof_number,
                new_dof_value: rec.new_dof_value,
                previous_dof_value: rec.previous_dof_value,
            },
        );
        flight.push_entity_event(rec.uid, EntityEvent { time, payload });
        Ok(())
    } else if type_byte == REC_TYPE_TOD_OFFSET {
        flight.tod_offset = time;
        Ok(())
    } else {
        let rec = match FeatureEventRecord::read(r, pos) {
            Ok(rec) => rec,
            Err(e) => return Err(e),
        };
        // Events of features that were never defined are dropped.
        if flight.features.contains_key(&rec.uid) {
            flight.feature_events.push(
                FeatureEvent {
                    time,
                    feature_uid: rec.uid,
                    new_status: rec.new_status,
                    previous_status: rec.previous_status,
                },
            );
        }
        Ok(())
    }
}

/// Reads one record at `*pos` into `flight`. `Ok(false)` is a clean end of
/// the stream.
fn read_record<F: Fn(u32, u32) -> u32>(
    flight: &mut Flight,
    r: &[u8],
    pos: &mut usize,
    plus: &F,
) -> (res: Result<bool, FltError>)
    requires
        is_function(*plus),
        *old(pos) <= r@.len(),
    ensures
        ({
            let (g, st) = step(old(flight)@, r@, *old(pos) as int, op_of(*plus));
            &&& final(flight)@ == g
            &&& match st {
                Step::Continue(p) => res == Ok::<bool, FltError>(true) && *final(pos) == p,
                Step::End => res == Ok::<bool, FltError>(false),
                Step::Fail(e) => res == Err::<bool, FltError>(e),
            }
        }),
{
    let start = *pos;
    if start >= r.len() {
        return Ok(false);
    }
    if r.len() - start < 5 {
        return Err(FltError::ShortRead);
    }
    let type_byte = r[start];
    let time = u32_at(r, start + 1);
    if type_byte != REC_TYPE_TOD_OFFSET {
        flight.note_time(time);
    }
    let ghost f1 = flight@;
    *pos = start + 5;
    if type_byte > REC_TYPE_CALLSIGN_LIST {
        return Err(FltError::UnknownRecord(type_byte));
    }
    if type_byte == REC_TYPE_CALLSIGN_LIST {
        flight.callsigns.clear();
        let ghost f2 = flight@;
        assert(f2 == (FlightView { callsigns: Map::empty(), ..f1 })) by {
            assert(f2.callsigns =~= Map::empty());
        }
        let list = match parse_callsigns(r, pos) {
            Ok(list) => list,
            Err(e) => return Err(e),
        };
        flight.install_callsigns(&list);
        proof {
            let b = start + 5;
            let count = le_i32(r@, b as int);
            assert(flight@.callsigns =~= callsign_table(f2, r@, b as int, count as int));
        }
        return Ok(true);
    }
    match apply_fixed(flight, type_byte, time, r, pos, plus) {
        Ok(()) => Ok(true),
        Err(e) => Err(e),
    }
}

impl Flight {
    /// Reads a whole FLT stream. A short tail or a bad record stops reading
    /// and marks the flight corrupted; what came before is kept. Entities
    /// that never received a position are dropped.
    ///
    /// `plus` adds two floats given as bit patterns (event stop times are
    /// start plus duration).
    pub fn parse<F: Fn(u32, u32) -> u32>(r: &[u8], plus: &F) -> (flight: Flight)
        requires
            is_function(*plus),
        ensures
            flight@ == parse_model(r@, op_of(*plus)),
            well_formed(flight@),
    {
        proof {
            lemma_parsed_flight_well_formed(r@, op_of(*plus));
        }
        let mut flight = Flight::empty();
        let mut pos: usize = 0;
        loop
            invariant_except_break
                is_function(*plus),
                pos <= r@.len(),
                run(flight@, r@, pos as int, op_of(*plus)) == run(
                    empty_flight(),
                    r@,
                    0,
                    op_of(*plus),
                ),
            ensures
                flight@ == run(empty_flight(), r@, 0, op_of(*plus)),
            decreases r@.len() - pos,
        {
            match read_record(&mut flight, r, &mut pos, plus) {
                Ok(true) => {},
                Ok(false) => {
                    break ;
                },
                Err(_) => {
                    flight.corrupted = true;
                    break ;
                },
            }
        }
        flight.drop_unpositioned();
        flight
    }

    /// Removes the entities that have no position data.
    fn drop_unpositioned(&mut self)
        ensures
            final(self)@ == cleanup(old(self)@),
    {
        let ids = sorted_keys(&self.entities);
        let mut i: usize = 0;
        while i < ids.len()
            invariant
                i <= ids@.len(),
                forall|j: int| 0 <= j < ids@.len() ==> old(self).entities@.contains_key(
                    #[trigger] ids@[j],
                ),
                forall|k: i32| old(self).entities@.contains_key(k) ==> ids@.contains(k),
                forall|a: int, b: int| 0 <= a < b < ids@.len() ==> ids@[a] < ids@[b],
                self.entities@ == Map::new(
                    |k: i32|
                        old(self).entities@.contains_key(k) && (old(
                            self,
                        ).entities@[k].position_data is Some || !seen(ids@, i as int, k)),
                    |k: i32| old(self).entities@[k],
                ),
                self.callsigns == old(self).callsigns,
                self.features == old(self).features,
                self.corrupted == old(self).corrupted,
                self.tod_offset == old(self).tod_offset,
                self.start_time == old(self).start_time,
                self.end_time == old(self).end_time,
                self.general_events == old(self).general_events,
                self.feature_events == old(self).feature_events,
            decreases ids@.len() - i,
        {
            let k = ids[i];
            proof {
                assert(!seen(ids@, i as int, k)) by {
                    if seen(ids@, i as int, k) {
                        let j = choose|j: int| 0 <= j < i && #[trigger] ids@[j] == k;
                        assert(ids@[j] < ids@[i as int]);
                    }
                }
                assert forall|k2: i32| #[trigger]
                    seen(ids@, i + 1, k2) <==> (seen(ids@, i as int, k2) || k2 == k) by {
                    if k2 == k {
                        assert(ids@[i as int] == k2);
                    }
                }
            }
            let drop = match self.entities.get(&k) {
                Some(e) => e.position_data.is_none(),
                None => false,
            };
            if drop {
                self.entities.remove(&k);
            }
            proof {
                assert(self.entities@ =~= Map::new(
                    |k2: i32|
                        old(self).entities@.contains_key(k2) && (old(
                            self,
                        ).entities@[k2].position_data is Some || !seen(ids@, i + 1, k2)),
                    |k2: i32| old(self).entities@[k2],
                ));
            }
            i = i + 1;
        }
        proof {
            assert forall|k: i32| old(self).entities@.contains_key(k) implies seen(
                ids@,
                ids@.len() as int,
                k,
            ) by {
                assert(ids@.contains(k));
            }
            assert(self@.entities =~= cleanup(old(self)@).entities);
        }
    }
}

/// `k` is among the first `n` entries of `ids`.
spec fn seen(ids: Seq<i32>, n: int, k: i32) -> bool {
    exists|j: int| 0 <= j < n && #[trigger] ids[j] == k
}

// ---------------------------------------------------------------------------
// Laws of the reader.

/// Entities that have a position have a non-empty trail, and feature events
/// name known features.
pub open spec fn reading_invariant(f: FlightView) -> bool {
    &&& forall|k: i32| #[trigger]
        f.entities.contains_key(k) && f.entities[k].position is Some ==> f.entities[k].position->Some_0.updates.len()
            > 0
    &&& feature_events_known(f)
}

proof fn lemma_step_invariant(f: FlightView, s: Seq<u8>, pos: int, sum: spec_fn(u32, u32) -> u32)
    requires
        reading_invariant(f),
    ensures
        reading_invariant(step(f, s, pos, sum).0),
{
    if pos < s.len() && pos + 5 <= s.len() {
        let disc = s[pos];
        let time = le_u32(s, pos + 1);
        let f1 = if disc != REC_TYPE_TOD_OFFSET {
            observe(f, time)
        } else {
            f
        };
        let b = pos + 5;
        if disc <= 12 && b + body_len(disc) <= s.len() {
            let g = apply_body(f1, disc, time, s, b, sum);
            assert forall|i: int| 0 <= i < g.feature_events.len() implies g.features.contains_key(
                #[trigger] g.feature_events[i].feature_uid,
            ) by {
                if i < f1.feature_events.len() {
                    assert(f1.features.contains_key(f1.feature_events[i].feature_uid));
                }
            }
        }
    }
}

proof fn lemma_run_invariant(f: FlightView, s: Seq<u8>, pos: int, sum: spec_fn(u32, u32) -> u32)
    requires
        reading_invariant(f),
    ensures
        reading_invariant(run(f, s, pos, sum)),
    decreases s.len() - pos,
{
    lemma_step_invariant(f, s, pos, sum);
    let (g, st) = step(f, s, pos, sum);
    match st {
        Step::Continue(p) => {
            if pos < p <= s.len() {
                lemma_run_invariant(g, s, p, sum);
            }
        },
        _ => {},
    }
}

/// Every flight the reader produces satisfies what merging and writing rely
/// on: each entity has a non-empty trail, and every feature event names a
/// known feature.
pub proof fn lemma_parsed_flight_well_formed(s: Seq<u8>, sum: spec_fn(u32, u32) -> u32)
    ensures
        well_formed(parse_model(s, sum)),
        entities_positioned(parse_model(s, sum)),
{
    let e = empty_flight();
    assert(reading_invariant(e));
    lemma_run_invariant(e, s, 0, sum);
}

/// Reading is a function of the bytes: equal inputs give equal flights.
pub proof fn lemma_parse_deterministic(s1: Seq<u8>, s2: Seq<u8>, sum: spec_fn(u32, u32) -> u32)
    requires
        s1 == s2,
    ensures
        parse_model(s1, sum) == parse_model(s2, sum),
{
}

/// A feature record for a uid that is already defined leaves the feature
/// table as it was: the first definition wins.
pub proof fn lemma_feature_definition_idempotent(
    f: FlightView,
    time: u32,
    s: Seq<u8>,
    b: int,
    sum: spec_fn(u32, u32) -> u32,
)
    requires
        f.features.contains_key(le_i32(s, b + 4)),
    ensures
        apply_body(f, REC_TYPE_FEATURE_POSITION, time, s, b, sum).features == f.features,
        apply_body(f, REC_TYPE_FEATURE_POSITION, time, s, b, sum) == f,
{
}

/// The time bounds are ordered or both unset.
pub open spec fn time_bounds_ordered(f: FlightView) -> bool {
    ||| (f.start_time == NEG_INFINITY && f.end_time == NEG_INFINITY)
    ||| (!is_nan(f.start_time) && !is_nan(f.end_time) && ordinal(f.start_time) <= ordinal(
        f.end_time,
    ))
}

/// Observing a timestamp that is not NaN keeps `start_time <= end_time`, and
/// after it the bounds are set.
pub proof fn lemma_time_bounds(f: FlightView, time: u32)
    requires
        time_bounds_ordered(f),
        !is_nan(time),
    ensures
        !is_nan(observe(f, time).start_time),
        !is_nan(observe(f, time).end_time),
        ordinal(observe(f, time).start_time) <= ordinal(observe(f, time).end_time),
{
}

} // verus!
