//! The tape (VHS) writer: a header of offsets computed in advance, then
//! seven sections laid out back to back.
//!
//! Each section is produced as its own byte vector, so that a caller can
//! write them into disjoint parts of the output in parallel; their lengths
//! are exactly the differences of the planned offsets.
use crate::flight::{
    entities_positioned, well_formed, EntityEventPayload, Flight,
    FlightView, ENTITY_FLAG_FEATURE,
};
use crate::float_bits::{lemma_total_key_respects_lt, lt, total_key, total_order_key};
use crate::primitives::{i32_bytes, le_i32, le_u32, u32_bytes, write_f32, write_i32, write_u32, write_u8};
use crate::remap::{covers, IdMapping, IdRemap};
use rayon::slice::ParallelSliceMut;
use std::collections::BTreeMap;
use vstd::prelude::*;

verus! {

/// The header is 80 bytes long; entities start after it.
pub const ENTITY_OFFSET: u32 = 80;

pub const ENTITY_SIZE: u32 = 36;

/// Position updates and entity events share this record size.
pub const ENTITY_UPDATE_SIZE: u32 = 41;

pub const GENERAL_EVENT_SIZE: u32 = 65;

pub const GENERAL_EVENT_TRAILER_SIZE: u32 = 8;

pub const FEATURE_EVENT_SIZE: u32 = 16;

pub const CALLSIGN_RECORD_SIZE: u32 = 20;

pub open spec fn updates_of(f: FlightView, id: i32) -> int {
    f.entities[id].position->Some_0.updates.len() as int
}

pub open spec fn events_of(f: FlightView, id: i32) -> int {
    f.entities[id].events.len() as int
}

/// Position updates of the first `n` entities in output order.
pub open spec fn updates_before(f: FlightView, rs: Seq<IdRemap>, n: int) -> int
    decreases n,
{
    if n <= 0 {
        0
    } else {
        updates_before(f, rs, n - 1) + updates_of(f, rs[n - 1].original)
    }
}

/// Events of the first `n` entities in output order.
pub open spec fn events_before(f: FlightView, rs: Seq<IdRemap>, n: int) -> int
    decreases n,
{
    if n <= 0 {
        0
    } else {
        events_before(f, rs, n - 1) + events_of(f, rs[n - 1].original)
    }
}

proof fn lemma_before_monotone(f: FlightView, rs: Seq<IdRemap>, a: int, b: int)
    requires
        0 <= a <= b,
    ensures
        updates_before(f, rs, a) <= updates_before(f, rs, b),
        events_before(f, rs, a) <= events_before(f, rs, b),
    decreases b - a,
{
    if a < b {
        lemma_before_monotone(f, rs, a, b - 1);
    }
}

/// Sizes and offsets of every section, from counts alone.
pub struct Layout {
    pub entity_count: int,
    pub feature_count: int,
    pub position_count: int,
    pub entity_event_count: int,
    pub general_event_count: int,
    pub feature_event_count: int,
    pub callsign_count: int,
    pub feature_offset: int,
    pub position_offset: int,
    pub entity_event_offset: int,
    pub general_event_offset: int,
    pub general_event_trailer_offset: int,
    pub feature_event_offset: int,
    pub text_event_offset: int,
    pub file_length: int,
}

pub open spec fn layout(f: FlightView, m_entities: Seq<IdRemap>, m_features: Seq<IdRemap>, callsigns: int) -> Layout {
    let ec = m_entities.len() as int;
    let fc = m_features.len() as int;
    let pc = updates_before(f, m_entities, ec) + fc;
    let eec = events_before(f, m_entities, ec);
    let gc = f.general_events.len() as int;
    let fec = f.feature_events.len() as int;
    let feature_offset = 80 + 36 * ec;
    let position_offset = feature_offset + 36 * fc;
    let entity_event_offset = position_offset + 41 * pc;
    let general_event_offset = entity_event_offset + 41 * eec;
    let general_event_trailer_offset = general_event_offset + 65 * gc;
    let feature_event_offset = general_event_trailer_offset + 8 * gc;
    let text_event_offset = feature_event_offset + 16 * fec;
    Layout {
        entity_count: ec,
        feature_count: fc,
        position_count: pc,
        entity_event_count: eec,
        general_event_count: gc,
        feature_event_count: fec,
        callsign_count: callsigns,
        feature_offset,
        position_offset,
        entity_event_offset,
        general_event_offset,
        general_event_trailer_offset,
        feature_event_offset,
        text_event_offset,
        file_length: text_event_offset + 4 + 20 * callsigns,
    }
}

/// The sizes and offsets written to the header, and a couple that are only
/// checked against.
#[derive(Debug, Clone, Copy, PartialEq, Eq)]
pub struct Header {
    pub entity_count: u32,
    pub feature_count: u32,
    pub position_count: u32,
    pub entity_event_count: u32,
    pub feature_offset: u32,
    pub position_offset: u32,
    pub entity_event_offset: u32,
    pub general_event_offset: u32,
    pub general_event_trailer_offset: u32,
    pub feature_event_offset: u32,
    pub text_event_offset: u32,
    pub file_length: u32,
}

/// The header holds exactly the layout.
pub open spec fn header_is(h: Header, l: Layout) -> bool {
    &&& h.entity_count == l.entity_count
    &&& h.feature_count == l.feature_count
    &&& h.position_count == l.position_count
    &&& h.entity_event_count == l.entity_event_count
    &&& h.feature_offset == l.feature_offset
    &&& h.position_offset == l.position_offset
    &&& h.entity_event_offset == l.entity_event_offset
    &&& h.general_event_offset == l.general_event_offset
    &&& h.general_event_trailer_offset == l.general_event_trailer_offset
    &&& h.feature_event_offset == l.feature_event_offset
    &&& h.text_event_offset == l.text_event_offset
    &&& h.file_length == l.file_length
}

/// The id remaps that the writer relies on.
pub open spec fn mapping_ok(f: FlightView, m: IdMapping, cs: Map<i32, crate::flight::CallsignRecord>) -> bool {
    &&& covers(m.entities@, f.entities.dom(), cs, m.callsign_ids@)
    &&& covers(m.features@, f.features.dom(), cs, m.callsign_ids@)
    &&& forall|j: int| 0 <= j < m.callsign_ids@.len() ==> cs.contains_key(#[trigger] m.callsign_ids@[j])
}

impl Header {
    /// Plans the file: `None` when it would not fit the format's 32-bit
    /// offsets.
    pub fn new(flight: &Flight, mapping: &IdMapping) -> (r: Option<Header>)
        requires
            well_formed(flight@),
            mapping_ok(flight@, *mapping, flight.callsigns@),
        ensures
            ({
                let l = layout(
                    flight@,
                    mapping.entities@,
                    mapping.features@,
                    mapping.callsign_ids@.len() as int,
                );
                &&& (r is Some) == (l.file_length <= u32::MAX)
                &&& r is Some ==> header_is(r->Some_0, l)
            }),
    {
        let ghost f = flight@;
        let ghost es = mapping.entities@;
        let ghost l = layout(f, es, mapping.features@, mapping.callsign_ids@.len() as int);
        let limit: u64 = 0xFFFF_FFFF;
        let mut updates: u64 = 0;
        let mut events: u64 = 0;
        let mut over = false;
        let mut j: usize = 0;
        while j < mapping.entities.len()
            invariant
                well_formed(f),
                f == flight@,
                es == mapping.entities@,
                mapping_ok(f, *mapping, flight.callsigns@),
                j <= es.len(),
                !over ==> updates == updates_before(f, es, j as int),
                !over ==> events == events_before(f, es, j as int),
                over ==> updates_before(f, es, es.len() as int) > limit || events_before(
                    f,
                    es,
                    es.len() as int,
                ) > limit,
                updates <= limit,
                events <= limit,
            decreases es.len() - j,
        {
            let id = mapping.entities[j].original;
            assert(f.entities.contains_key(id));
            let e = flight.entities.get(&id).unwrap();
            assert(e@ == f.entities[id]);
            let pd = e.position_data.as_ref().unwrap();
            let nu = pd.position_updates.len() as u64;
            let ne = e.events.len() as u64;
            if !over {
                assert(updates_before(f, es, j + 1) == updates + nu);
                assert(events_before(f, es, j + 1) == events + ne);
                if nu > limit - updates || ne > limit - events {
                    proof {
                        lemma_before_monotone(f, es, j + 1, es.len() as int);
                    }
                    over = true;
                } else {
                    updates = updates + nu;
                    events = events + ne;
                }
            }
            j = j + 1;
        }
        if over {
            proof {
                lemma_before_monotone(f, es, 0, es.len() as int);
            }
            return None;
        }
        let ec = mapping.entities.len() as u64;
        let fc = mapping.features.len() as u64;
        let gc = flight.general_events.len() as u64;
        let fec = flight.feature_events.len() as u64;
        let kc = mapping.callsign_ids.len() as u64;
        if ec > limit || fc > limit || gc > limit || fec > limit || kc > limit || fc > limit - updates {
            return None;
        }
        let pc = updates + fc;
        let feature_offset = 80 + 36 * ec;
        let position_offset = feature_offset + 36 * fc;
        let entity_event_offset = position_offset + 41 * pc;
        let general_event_offset = entity_event_offset + 41 * events;
        let general_event_trailer_offset = general_event_offset + 65 * gc;
        let feature_event_offset = general_event_trailer_offset + 8 * gc;
        let text_event_offset = feature_event_offset + 16 * fec;
        let file_length = text_event_offset + 4 + 20 * kc;
        if file_length > limit {
            return None;
        }
        Some(
            Header {
                entity_count: ec as u32,
                feature_count: fc as u32,
                position_count: pc as u32,
                entity_event_count: events as u32,
                feature_offset: feature_offset as u32,
                position_offset: position_offset as u32,
                entity_event_offset: entity_event_offset as u32,
                general_event_offset: general_event_offset as u32,
                general_event_trailer_offset: general_event_trailer_offset as u32,
                feature_event_offset: feature_event_offset as u32,
                text_event_offset: text_event_offset as u32,
                file_length: file_length as u32,
            },
        )
    }
}

/// A 41-byte timeline record: time, tag, then 28 bytes of payload, then the
/// two links.
pub open spec fn timeline_record(
    time: u32,
    tag: u8,
    payload: Seq<u8>,
    next: u32,
    prev: u32,
) -> Seq<u8> {
    u32_bytes(time) + seq![tag] + payload + u32_bytes(next) + u32_bytes(prev)
}

/// The payload of a position: six coordinates and the radar target.
pub open spec fn position_payload(
    x: u32,
    y: u32,
    z: u32,
    pitch: u32,
    roll: u32,
    yaw: u32,
    radar: i32,
) -> Seq<u8> {
    u32_bytes(x) + u32_bytes(y) + u32_bytes(z) + u32_bytes(pitch) + u32_bytes(roll) + u32_bytes(
        yaw,
    ) + i32_bytes(radar)
}

proof fn lemma_le_u32_append(s: Seq<u8>, t: Seq<u8>, i: int)
    requires
        0 <= i,
        i + 4 <= s.len(),
    ensures
        le_u32(s + t, i) == le_u32(s, i),
{
    assert((s + t)[i] == s[i]);
    assert((s + t)[i + 1] == s[i + 1]);
    assert((s + t)[i + 2] == s[i + 2]);
    assert((s + t)[i + 3] == s[i + 3]);
}

proof fn lemma_subrange_append(s: Seq<u8>, t: Seq<u8>, a: int, b: int)
    requires
        0 <= a <= b <= s.len(),
    ensures
        (s + t).subrange(a, b) == s.subrange(a, b),
{
    assert((s + t).subrange(a, b) =~= s.subrange(a, b));
}

proof fn lemma_le_u32_of_bytes(s: Seq<u8>, v: u32, t: Seq<u8>)
    ensures
        le_u32(s + u32_bytes(v) + t, s.len() as int) == v,
{
    crate::primitives::lemma_u32_round_trip(v);
    let w = s + u32_bytes(v) + t;
    let n = s.len() as int;
    assert(w[n] == u32_bytes(v)[0]);
    assert(w[n + 1] == u32_bytes(v)[1]);
    assert(w[n + 2] == u32_bytes(v)[2]);
    assert(w[n + 3] == u32_bytes(v)[3]);
}

/// Time, tag and links of a timeline record appended to `s` read back.
proof fn lemma_timeline_fields(s: Seq<u8>, time: u32, tag: u8, payload: Seq<u8>, next: u32, prev: u32)
    requires
        payload.len() == 28,
    ensures
        ({
            let w = s + timeline_record(time, tag, payload, next, prev);
            let o = s.len() as int;
            &&& w.len() == o + 41
            &&& le_u32(w, o) == time
            &&& w[o + 4] == tag
            &&& le_u32(w, o + 33) == next
            &&& le_u32(w, o + 37) == prev
        }),
{
    let r = timeline_record(time, tag, payload, next, prev);
    let o = s.len() as int;
    crate::primitives::lemma_u32_round_trip(time);
    crate::primitives::lemma_u32_round_trip(next);
    crate::primitives::lemma_u32_round_trip(prev);
    assert(s + r =~= s + u32_bytes(time) + (seq![tag] + payload + u32_bytes(next) + u32_bytes(prev)));
    lemma_le_u32_of_bytes(s, time, seq![tag] + payload + u32_bytes(next) + u32_bytes(prev));
    assert(s + r =~= (s + u32_bytes(time) + seq![tag] + payload) + u32_bytes(next) + u32_bytes(prev));
    lemma_le_u32_of_bytes(s + u32_bytes(time) + seq![tag] + payload, next, u32_bytes(prev));
    assert(s + r =~= (s + u32_bytes(time) + seq![tag] + payload + u32_bytes(next)) + u32_bytes(prev)
        + Seq::<u8>::empty());
    lemma_le_u32_of_bytes(
        s + u32_bytes(time) + seq![tag] + payload + u32_bytes(next),
        prev,
        Seq::<u8>::empty(),
    );
}

/// The payload of a timeline record appended to `s` reads back.
proof fn lemma_timeline_payload(
    s: Seq<u8>,
    time: u32,
    tag: u8,
    payload: Seq<u8>,
    next: u32,
    prev: u32,
)
    requires
        payload.len() == 28,
    ensures
        (s + timeline_record(time, tag, payload, next, prev)).subrange(
            s.len() as int + 5,
            s.len() as int + 33,
        ) == payload,
{
    let r = timeline_record(time, tag, payload, next, prev);
    assert((s + r).subrange(s.len() as int + 5, s.len() as int + 33) =~= payload);
}

fn write_timeline_record(
    w: &mut Vec<u8>,
    time: u32,
    tag: u8,
    payload: &Vec<u8>,
    next: u32,
    prev: u32,
)
    requires
        payload@.len() == 28,
    ensures
        final(w)@ == old(w)@ + timeline_record(time, tag, payload@, next, prev),
{
    write_f32(time, w);
    write_u8(tag, w);
    let mut i: usize = 0;
    let ghost w0 = w@;
    while i < payload.len()
        invariant
            i <= payload@.len(),
            w@ == w0 + payload@.subrange(0, i as int),
        decreases payload@.len() - i,
    {
        w.push(payload[i]);
        proof {
            assert(payload@.subrange(0, i + 1) =~= payload@.subrange(0, i as int).push(payload@[i as int]));
        }
        i = i + 1;
    }
    assert(payload@.subrange(0, payload@.len() as int) =~= payload@);
    write_u32(next, w);
    write_u32(prev, w);
    assert(w@ =~= old(w)@ + timeline_record(time, tag, payload@, next, prev));
}

fn position_payload_exec(
    x: u32,
    y: u32,
    z: u32,
    pitch: u32,
    roll: u32,
    yaw: u32,
    radar: i32,
) -> (r: Vec<u8>)
    ensures
        r@ == position_payload(x, y, z, pitch, roll, yaw, radar),
        r@.len() == 28,
{
    let mut r: Vec<u8> = Vec::new();
    write_f32(x, &mut r);
    write_f32(y, &mut r);
    write_f32(z, &mut r);
    write_f32(pitch, &mut r);
    write_f32(roll, &mut r);
    write_f32(yaw, &mut r);
    write_i32(radar, &mut r);
    assert(r@ =~= position_payload(x, y, z, pitch, roll, yaw, radar));
    r
}

/// The link to the next record of a run, 0 after the last one.
pub open spec fn next_link(base: int, g: int, i: int, n: int) -> int {
    if i + 1 < n {
        base + 41 * (g + 1)
    } else {
        0
    }
}

/// The link to the previous record of a run, 0 before the first one.
pub open spec fn prev_link(base: int, g: int, i: int) -> int {
    if i > 0 {
        base + 41 * (g - 1)
    } else {
        0
    }
}

/// Record `i` of entity `j` of a run section sits at record slot
/// `first(j) + i`, and reads back `time`, `next` and `prev` links.
pub open spec fn run_record_ok(
    w: Seq<u8>,
    start: int,
    base: int,
    first: int,
    i: int,
    n: int,
    time: u32,
) -> bool {
    let g = first + i;
    let o = start + 41 * g;
    &&& le_u32(w, o) == time
    &&& le_u32(w, o + 33) == next_link(base, g, i, n)
    &&& le_u32(w, o + 37) == prev_link(base, g, i)
}

/// `r` is how a reference to `target` is written: its output id, or -1 when
/// it has none.
pub open spec fn output_id_or_none(es: Seq<IdRemap>, target: i32, r: i32) -> bool {
    ||| is_output_id(es, target, r)
    ||| (r == -1 && forall|j: int| 0 <= j < es.len() ==> #[trigger] es[j].original != target)
}

/// The body of position record `i` of entity `j`: its coordinates and its
/// radar target.
pub open spec fn position_body_ok(
    w: Seq<u8>,
    start: int,
    first: int,
    i: int,
    u: crate::flight::EntityPositionUpdate,
    es: Seq<IdRemap>,
) -> bool {
    let o = start + 41 * (first + i);
    w[o + 4] == 0 && exists|r: i32|
        output_id_or_none(es, u.radar_target, r) && w.subrange(o + 5, o + 33) == position_payload(
            u.x,
            u.y,
            u.z,
            u.pitch,
            u.roll,
            u.yaw,
            r,
        )
}

pub open spec fn update_at(f: FlightView, id: i32, i: int) -> crate::flight::EntityPositionUpdate {
    f.entities[id].position->Some_0.updates[i]
}

pub open spec fn update_time(f: FlightView, id: i32, i: int) -> u32 {
    f.entities[id].position->Some_0.updates[i].time
}

/// The position runs of every entity, in output order, starting at byte
/// offset `base` of the file.
#[verifier::rlimit(100)]
fn write_entity_positions(
    flight: &Flight,
    entities: &Vec<IdRemap>,
    entity_index: &BTreeMap<i32, i32>,
    base: u32,
    w: &mut Vec<u8>,
)
    requires
        entities_positioned(flight@),
        forall|j: int| 0 <= j < entities@.len() ==> flight@.entities.contains_key(#[trigger] entities@[j].original),
        base + 41 * updates_before(flight@, entities@, entities@.len() as int) <= u32::MAX,
        forall|k: i32| #[trigger]
            entity_index@.contains_key(k) ==> is_output_id(entities@, k, entity_index@[k]),
        forall|j: int| 0 <= j < entities@.len() ==> entity_index@.contains_key(#[trigger] entities@[j].original),
    ensures
        final(w)@.len() == old(w)@.len() + 41 * updates_before(flight@, entities@, entities@.len() as int),
        final(w)@.subrange(0, old(w)@.len() as int) == old(w)@,
        forall|j: int, i: int|
            0 <= j < entities@.len() && 0 <= i < updates_of(flight@, entities@[j].original) ==> #[trigger] run_record_ok(
                final(w)@,
                old(w)@.len() as int,
                base as int,
                updates_before(flight@, entities@, j),
                i,
                updates_of(flight@, entities@[j].original),
                update_time(flight@, entities@[j].original, i),
            ),
        forall|j: int, i: int|
            0 <= j < entities@.len() && 0 <= i < updates_of(flight@, entities@[j].original) ==> #[trigger] position_body_ok(
                final(w)@,
                old(w)@.len() as int,
                updates_before(flight@, entities@, j),
                i,
                update_at(flight@, entities@[j].original, i),
                entities@,
            ),
{
    let ghost f = flight@;
    let ghost es = entities@;
    let ghost start = old(w)@.len() as int;
    let ghost total = updates_before(f, es, es.len() as int);
    let mut g: u32 = 0;
    let mut j: usize = 0;
    proof {
        lemma_before_monotone(f, es, 0, es.len() as int);
    }
    while j < entities.len()
        invariant
            f == flight@,
            es == entities@,
            start == old(w)@.len(),
            total == updates_before(f, es, es.len() as int),
            entities_positioned(f),
            forall|x: int| 0 <= x < es.len() ==> f.entities.contains_key(#[trigger] es[x].original),
            base + 41 * total <= u32::MAX,
            j <= es.len(),
            g == updates_before(f, es, j as int),
            g <= total,
            w@.len() == start + 41 * g,
            w@.subrange(0, start) == old(w)@,
            forall|a: int, i: int|
                0 <= a < j && 0 <= i < updates_of(f, es[a].original) ==> #[trigger] run_record_ok(
                    w@,
                    start,
                    base as int,
                    updates_before(f, es, a),
                    i,
                    updates_of(f, es[a].original),
                    update_time(f, es[a].original, i),
                ),
            forall|k: i32| #[trigger]
                entity_index@.contains_key(k) ==> is_output_id(es, k, entity_index@[k]),
            forall|x: int| 0 <= x < es.len() ==> entity_index@.contains_key(#[trigger] es[x].original),
            forall|a: int, i: int|
                0 <= a < j && 0 <= i < updates_of(f, es[a].original) ==> #[trigger] position_body_ok(
                    w@,
                    start,
                    updates_before(f, es, a),
                    i,
                    update_at(f, es[a].original, i),
                    es,
                ),
        decreases es.len() - j,
    {
        let id = entities[j].original;
        let e = flight.entities.get(&id).unwrap();
        assert(e@ == f.entities[id]);
        let pd = e.position_data.as_ref().unwrap();
        let n = pd.position_updates.len();
        proof {
            lemma_before_monotone(f, es, j + 1, es.len() as int);
        }
        let first = g;
        let mut i: usize = 0;
        while i < n
            invariant
                f == flight@,
                es == entities@,
                start == old(w)@.len(),
                total == updates_before(f, es, es.len() as int),
                entities_positioned(f),
                forall|x: int| 0 <= x < es.len() ==> f.entities.contains_key(#[trigger] es[x].original),
                base + 41 * total <= u32::MAX,
                j < es.len(),
                id == es[j as int].original,
                n == updates_of(f, id),
                pd.position_updates@ == f.entities[id].position->Some_0.updates,
                first == updates_before(f, es, j as int),
                updates_before(f, es, j + 1) <= total,
                i <= n,
                g == first + i,
                w@.len() == start + 41 * g,
                w@.subrange(0, start) == old(w)@,
                forall|a: int, ii: int|
                    ((0 <= a < j && 0 <= ii < updates_of(f, es[a].original)) || (a == j && 0 <= ii
                        < i)) ==> #[trigger] run_record_ok(
                        w@,
                        start,
                        base as int,
                        updates_before(f, es, a),
                        ii,
                        updates_of(f, es[a].original),
                        update_time(f, es[a].original, ii),
                    ),
                forall|k: i32| #[trigger]
                    entity_index@.contains_key(k) ==> is_output_id(es, k, entity_index@[k]),
                forall|x: int| 0 <= x < es.len() ==> entity_index@.contains_key(#[trigger] es[x].original),
                forall|a: int, ii: int|
                    ((0 <= a < j && 0 <= ii < updates_of(f, es[a].original)) || (a == j && 0 <= ii
                        < i)) ==> #[trigger] position_body_ok(
                        w@,
                        start,
                        updates_before(f, es, a),
                        ii,
                        update_at(f, es[a].original, ii),
                        es,
                    ),
            decreases n - i,
        {
            let u = pd.position_updates[i];
            let current = base + 41 * g;
            let next = if i + 1 < n {
                current + 41
            } else {
                0
            };
            let prev = if i > 0 {
                current - 41
            } else {
                0
            };
            let radar = match entity_index.get(&u.radar_target) {
                Some(v) => *v,
                None => -1,
            };
            proof {
                if !entity_index@.contains_key(u.radar_target) {
                    assert forall|x: int| 0 <= x < es.len() implies #[trigger] es[x].original
                        != u.radar_target by {
                        assert(entity_index@.contains_key(es[x].original));
                    }
                }
                assert(output_id_or_none(es, u.radar_target, radar));
                assert(u == update_at(f, id, i as int));
            }
            let payload = position_payload_exec(u.x, u.y, u.z, u.pitch, u.roll, u.yaw, radar);
            let ghost before = w@;
            write_timeline_record(w, u.time, 0, &payload, next, prev);
            proof {
                lemma_timeline_fields(before, u.time, 0, payload@, next, prev);
                let rec = timeline_record(u.time, 0, payload@, next, prev);
                assert(w@ == before + rec);
                assert(w@.subrange(0, start) =~= before.subrange(0, start));
                assert forall|a: int, ii: int|
                    ((0 <= a < j && 0 <= ii < updates_of(f, es[a].original)) || (a == j && 0 <= ii
                        < i + 1)) implies #[trigger] run_record_ok(
                    w@,
                    start,
                    base as int,
                    updates_before(f, es, a),
                    ii,
                    updates_of(f, es[a].original),
                    update_time(f, es[a].original, ii),
                ) by {
                    if a == j && ii == i {
                        assert(before.len() == start + 41 * (updates_before(f, es, a) + ii));
                        assert(u.time == update_time(f, es[a].original, ii));
                    } else {
                        assert(position_body_ok(
                            before,
                            start,
                            updates_before(f, es, a),
                            ii,
                            update_at(f, es[a].original, ii),
                            es,
                        ));
                        assert(run_record_ok(
                            before,
                            start,
                            base as int,
                            updates_before(f, es, a),
                            ii,
                            updates_of(f, es[a].original),
                            update_time(f, es[a].original, ii),
                        ));
                        let ga = updates_before(f, es, a) + ii;
                        if a < j {
                            lemma_before_monotone(f, es, a + 1, j as int);
                        }
                        lemma_before_monotone(f, es, 0, a);
                        let o = start + 41 * ga;
                        lemma_le_u32_append(before, rec, o);
                        lemma_le_u32_append(before, rec, o + 33);
                        lemma_le_u32_append(before, rec, o + 37);
                    }
                }
            }
            proof {
                let rec = timeline_record(u.time, 0, payload@, next, prev);
                assert forall|a: int, ii: int|
                    ((0 <= a < j && 0 <= ii < updates_of(f, es[a].original)) || (a == j && 0 <= ii
                        < i + 1)) implies #[trigger] position_body_ok(
                    w@,
                    start,
                    updates_before(f, es, a),
                    ii,
                    update_at(f, es[a].original, ii),
                    es,
                ) by {
                    let o = start + 41 * (updates_before(f, es, a) + ii);
                    if a == j && ii == i {
                        assert(before.len() == o);
                        lemma_timeline_payload(before, u.time, 0, payload@, next, prev);
                        lemma_timeline_fields(before, u.time, 0, payload@, next, prev);
                        assert(w@.subrange(o + 5, o + 33) == payload@);
                    } else {
                        if a < j {
                            lemma_before_monotone(f, es, a + 1, j as int);
                        }
                        lemma_before_monotone(f, es, 0, a);
                        assert(position_body_ok(
                            before,
                            start,
                            updates_before(f, es, a),
                            ii,
                            update_at(f, es[a].original, ii),
                            es,
                        ));
                        lemma_subrange_append(before, rec, o + 5, o + 33);
                        assert(w@[o + 4] == before[o + 4]);
                    }
                }
            }
            g = g + 1;
            i = i + 1;
        }
        j = j + 1;
    }
}


pub open spec fn event_time(f: FlightView, id: i32, i: int) -> u32 {
    f.entities[id].events[i].time
}

pub open spec fn event_tag(p: EntityEventPayload) -> u8 {
    match p {
        EntityEventPayload::SwitchEvent(_) => 1u8,
        EntityEventPayload::DofEvent(_) => 2u8,
    }
}

/// Three fields of an entity event, then zeros up to the size of a position
/// payload.
pub open spec fn event_payload(p: EntityEventPayload) -> Seq<u8> {
    let zeros = u32_bytes(0) + u32_bytes(0) + u32_bytes(0) + u32_bytes(0);
    match p {
        EntityEventPayload::SwitchEvent(sw) => i32_bytes(sw.switch_number) + i32_bytes(
            sw.new_switch_value,
        ) + i32_bytes(sw.previous_switch_value) + zeros,
        EntityEventPayload::DofEvent(d) => i32_bytes(d.dof_number) + u32_bytes(d.new_dof_value)
            + u32_bytes(d.previous_dof_value) + zeros,
    }
}

/// Tag and payload of an entity event.
fn event_payload_exec(p: EntityEventPayload) -> (r: (u8, Vec<u8>))
    ensures
        r.1@.len() == 28,
        r.1@ == event_payload(p),
        r.0 == event_tag(p),
{
    let mut v: Vec<u8> = Vec::new();
    let tag: u8 = match p {
        EntityEventPayload::SwitchEvent(sw) => {
            write_i32(sw.switch_number, &mut v);
            write_i32(sw.new_switch_value, &mut v);
            write_i32(sw.previous_switch_value, &mut v);
            1
        },
        EntityEventPayload::DofEvent(d) => {
            write_i32(d.dof_number, &mut v);
            write_f32(d.new_dof_value, &mut v);
            write_f32(d.previous_dof_value, &mut v);
            2
        },
    };
    write_u32(0, &mut v);
    write_u32(0, &mut v);
    write_u32(0, &mut v);
    write_u32(0, &mut v);
    assert(v@ =~= event_payload(p));
    (tag, v)
}

/// The body of event record `i` of an entity: its tag and fields.
pub open spec fn event_body_ok(w: Seq<u8>, start: int, first: int, i: int, ev: crate::flight::EntityEvent) -> bool {
    let o = start + 41 * (first + i);
    &&& w[o + 4] == event_tag(ev.payload)
    &&& w.subrange(o + 5, o + 33) == event_payload(ev.payload)
}

pub open spec fn event_at(f: FlightView, id: i32, i: int) -> crate::flight::EntityEvent {
    f.entities[id].events[i]
}

/// The event runs of every entity, in output order, starting at byte offset
/// `base` of the file.
fn write_entity_events(
    flight: &Flight,
    entities: &Vec<IdRemap>,
    base: u32,
    w: &mut Vec<u8>,
)
    requires
        entities_positioned(flight@),
        forall|j: int| 0 <= j < entities@.len() ==> flight@.entities.contains_key(#[trigger] entities@[j].original),
        base + 41 * events_before(flight@, entities@, entities@.len() as int) <= u32::MAX,
    ensures
        final(w)@.len() == old(w)@.len() + 41 * events_before(flight@, entities@, entities@.len() as int),
        final(w)@.subrange(0, old(w)@.len() as int) == old(w)@,
        forall|j: int, i: int|
            0 <= j < entities@.len() && 0 <= i < events_of(flight@, entities@[j].original) ==> #[trigger] run_record_ok(
                final(w)@,
                old(w)@.len() as int,
                base as int,
                events_before(flight@, entities@, j),
                i,
                events_of(flight@, entities@[j].original),
                event_time(flight@, entities@[j].original, i),
            ),
        forall|j: int, i: int|
            0 <= j < entities@.len() && 0 <= i < events_of(flight@, entities@[j].original) ==> #[trigger] event_body_ok(
                final(w)@,
                old(w)@.len() as int,
                events_before(flight@, entities@, j),
                i,
                event_at(flight@, entities@[j].original, i),
            ),
{
    let ghost f = flight@;
    let ghost es = entities@;
    let ghost start = old(w)@.len() as int;
    let ghost total = events_before(f, es, es.len() as int);
    let mut g: u32 = 0;
    let mut j: usize = 0;
    proof {
        lemma_before_monotone(f, es, 0, es.len() as int);
    }
    while j < entities.len()
        invariant
            f == flight@,
            es == entities@,
            start == old(w)@.len(),
            total == events_before(f, es, es.len() as int),
            entities_positioned(f),
            forall|x: int| 0 <= x < es.len() ==> f.entities.contains_key(#[trigger] es[x].original),
            base + 41 * total <= u32::MAX,
            j <= es.len(),
            g == events_before(f, es, j as int),
            g <= total,
            w@.len() == start + 41 * g,
            w@.subrange(0, start) == old(w)@,
            forall|a: int, i: int|
                0 <= a < j && 0 <= i < events_of(f, es[a].original) ==> #[trigger] run_record_ok(
                    w@,
                    start,
                    base as int,
                    events_before(f, es, a),
                    i,
                    events_of(f, es[a].original),
                    event_time(f, es[a].original, i),
                ),
            forall|a: int, i: int|
                0 <= a < j && 0 <= i < events_of(f, es[a].original) ==> #[trigger] event_body_ok(
                    w@,
                    start,
                    events_before(f, es, a),
                    i,
                    event_at(f, es[a].original, i),
                ),
        decreases es.len() - j,
    {
        let id = entities[j].original;
        let e = flight.entities.get(&id).unwrap();
        assert(e@ == f.entities[id]);
        let n = e.events.len();
        proof {
            lemma_before_monotone(f, es, j + 1, es.len() as int);
        }
        let first = g;
        let mut i: usize = 0;
        while i < n
            invariant
                f == flight@,
                es == entities@,
                start == old(w)@.len(),
                total == events_before(f, es, es.len() as int),
                entities_positioned(f),
                forall|x: int| 0 <= x < es.len() ==> f.entities.contains_key(#[trigger] es[x].original),
                base + 41 * total <= u32::MAX,
                j < es.len(),
                id == es[j as int].original,
                n == events_of(f, id),
                e.events@ == f.entities[id].events,
                first == events_before(f, es, j as int),
                events_before(f, es, j + 1) <= total,
                i <= n,
                g == first + i,
                w@.len() == start + 41 * g,
                w@.subrange(0, start) == old(w)@,
                forall|a: int, ii: int|
                    ((0 <= a < j && 0 <= ii < events_of(f, es[a].original)) || (a == j && 0 <= ii
                        < i)) ==> #[trigger] run_record_ok(
                        w@,
                        start,
                        base as int,
                        events_before(f, es, a),
                        ii,
                        events_of(f, es[a].original),
                        event_time(f, es[a].original, ii),
                    ),
                forall|a: int, ii: int|
                    ((0 <= a < j && 0 <= ii < events_of(f, es[a].original)) || (a == j && 0 <= ii
                        < i)) ==> #[trigger] event_body_ok(
                        w@,
                        start,
                        events_before(f, es, a),
                        ii,
                        event_at(f, es[a].original, ii),
                    ),
            decreases n - i,
        {
            let u = e.events[i];
            let current = base + 41 * g;
            let next = if i + 1 < n {
                current + 41
            } else {
                0
            };
            let prev = if i > 0 {
                current - 41
            } else {
                0
            };
            let (tag, payload) = event_payload_exec(u.payload);
            let ghost before = w@;
            write_timeline_record(w, u.time, tag, &payload, next, prev);
            proof {
                lemma_timeline_fields(before, u.time, tag, payload@, next, prev);
                let rec = timeline_record(u.time, tag, payload@, next, prev);
                assert(w@ == before + rec);
                assert(w@.subrange(0, start) =~= before.subrange(0, start));
                assert forall|a: int, ii: int|
                    ((0 <= a < j && 0 <= ii < events_of(f, es[a].original)) || (a == j && 0 <= ii
                        < i + 1)) implies #[trigger] run_record_ok(
                    w@,
                    start,
                    base as int,
                    events_before(f, es, a),
                    ii,
                    events_of(f, es[a].original),
                    event_time(f, es[a].original, ii),
                ) by {
                    if a == j && ii == i {
                        assert(before.len() == start + 41 * (events_before(f, es, a) + ii));
                        assert(u.time == event_time(f, es[a].original, ii));
                    } else {
                        assert(run_record_ok(
                            before,
                            start,
                            base as int,
                            events_before(f, es, a),
                            ii,
                            events_of(f, es[a].original),
                            event_time(f, es[a].original, ii),
                        ));
                        let ga = events_before(f, es, a) + ii;
                        if a < j {
                            lemma_before_monotone(f, es, a + 1, j as int);
                        }
                        lemma_before_monotone(f, es, 0, a);
                        let o = start + 41 * ga;
                        lemma_le_u32_append(before, rec, o);
                        lemma_le_u32_append(before, rec, o + 33);
                        lemma_le_u32_append(before, rec, o + 37);
                    }
                }
            }
            proof {
                let rec = timeline_record(u.time, tag, payload@, next, prev);
                assert(u == event_at(f, id, i as int));
                assert forall|a: int, ii: int|
                    ((0 <= a < j && 0 <= ii < events_of(f, es[a].original)) || (a == j && 0 <= ii
                        < i + 1)) implies #[trigger] event_body_ok(
                    w@,
                    start,
                    events_before(f, es, a),
                    ii,
                    event_at(f, es[a].original, ii),
                ) by {
                    let o = start + 41 * (events_before(f, es, a) + ii);
                    if a == j && ii == i {
                        assert(before.len() == o);
                        lemma_timeline_payload(before, u.time, tag, payload@, next, prev);
                        lemma_timeline_fields(before, u.time, tag, payload@, next, prev);
                    } else {
                        if a < j {
                            lemma_before_monotone(f, es, a + 1, j as int);
                        }
                        lemma_before_monotone(f, es, 0, a);
                        assert(event_body_ok(before, start, events_before(f, es, a), ii, event_at(f, es[a].original, ii)));
                        lemma_subrange_append(before, rec, o + 5, o + 33);
                        assert(w@[o + 4] == before[o + 4]);
                    }
                }
            }
            g = g + 1;
            i = i + 1;
        }
        j = j + 1;
    }
}

/// The magic bytes: "TAPE", little-endian.
pub open spec fn magic() -> Seq<u8> {
    seq![0x45u8, 0x50u8, 0x41u8, 0x54u8]
}

/// The 80 header bytes. The "file size" slot holds the text event offset,
/// as consumers expect.
pub open spec fn header_bytes(h: Header, f: FlightView, play_time: u32) -> Seq<u8> {
    magic() + u32_bytes(h.text_event_offset) + u32_bytes(h.entity_count) + u32_bytes(
        h.feature_count,
    ) + u32_bytes(80) + u32_bytes(h.feature_offset) + u32_bytes(h.position_count) + u32_bytes(
        h.position_offset,
    ) + u32_bytes(h.entity_event_offset) + u32_bytes(h.general_event_offset) + u32_bytes(
        h.general_event_trailer_offset,
    ) + u32_bytes(h.text_event_offset) + u32_bytes(h.feature_event_offset) + u32_bytes(
        f.general_events.len() as u32,
    ) + u32_bytes(h.entity_event_count) + u32_bytes(0) + u32_bytes(f.feature_events.len() as u32)
        + u32_bytes(f.start_time) + u32_bytes(play_time) + u32_bytes(f.tod_offset)
}

impl Header {
    /// Writes the 80-byte header; `play_time` is the end time minus the
    /// start time.
    pub fn write(&self, flight: &Flight, play_time: u32, w: &mut Vec<u8>)
        requires
            flight@.general_events.len() <= u32::MAX,
            flight@.feature_events.len() <= u32::MAX,
        ensures
            final(w)@ == old(w)@ + header_bytes(*self, flight@, play_time),
            header_bytes(*self, flight@, play_time).len() == 80,
    {
        write_u8(0x45, w);
        write_u8(0x50, w);
        write_u8(0x41, w);
        write_u8(0x54, w);
        write_u32(self.text_event_offset, w);
        write_u32(self.entity_count, w);
        write_u32(self.feature_count, w);
        write_u32(ENTITY_OFFSET, w);
        write_u32(self.feature_offset, w);
        write_u32(self.position_count, w);
        write_u32(self.position_offset, w);
        write_u32(self.entity_event_offset, w);
        write_u32(self.general_event_offset, w);
        write_u32(self.general_event_trailer_offset, w);
        write_u32(self.text_event_offset, w);
        write_u32(self.feature_event_offset, w);
        write_u32(flight.general_events.len() as u32, w);
        write_u32(self.entity_event_count, w);
        // Callsigns are not text events: there are none.
        write_u32(0, w);
        write_u32(flight.feature_events.len() as u32, w);
        write_f32(flight.start_time, w);
        write_f32(play_time, w);
        write_f32(flight.tod_offset, w);
        assert(w@ =~= old(w)@ + header_bytes(*self, flight@, play_time));
    }
}

/// Maps each original id of `remaps` to its output id.
fn index_of(remaps: &Vec<IdRemap>) -> (m: BTreeMap<i32, i32>)
    ensures
        forall|k: i32| #[trigger]
            m@.contains_key(k) ==> exists|j: int|
                0 <= j < remaps@.len() && remaps@[j].original == k && remaps@[j].new == m@[k],
        forall|j: int| 0 <= j < remaps@.len() ==> m@.contains_key(#[trigger] remaps@[j].original),
{
    let mut m: BTreeMap<i32, i32> = BTreeMap::new();
    let mut i: usize = 0;
    while i < remaps.len()
        invariant
            i <= remaps@.len(),
            forall|k: i32| #[trigger]
                m@.contains_key(k) ==> exists|j: int|
                    0 <= j < i && remaps@[j].original == k && remaps@[j].new == m@[k],
            forall|j: int| 0 <= j < i ==> m@.contains_key(#[trigger] remaps@[j].original),
        decreases remaps@.len() - i,
    {
        let r = remaps[i];
        m.insert(r.original, r.new);
        proof {
            assert forall|k: i32| #[trigger] m@.contains_key(k) implies exists|j: int|
                0 <= j < i + 1 && remaps@[j].original == k && remaps@[j].new == m@[k] by {
                if k == r.original {
                    assert(remaps@[i as int].original == k);
                }
            }
        }
        i = i + 1;
    }
    m
}

/// A 36-byte entity or feature record.
pub open spec fn object_record(
    id: i32,
    kind: i32,
    ordinal: i32,
    flags: u32,
    lead: i32,
    slot: i32,
    special: u32,
    first_position: u32,
    first_event: u32,
) -> Seq<u8> {
    i32_bytes(id) + i32_bytes(kind) + i32_bytes(ordinal) + u32_bytes(flags) + i32_bytes(lead)
        + i32_bytes(slot) + u32_bytes(special) + u32_bytes(first_position) + u32_bytes(first_event)
}

proof fn lemma_object_fields(
    s: Seq<u8>,
    id: i32,
    kind: i32,
    ordinal: i32,
    flags: u32,
    lead: i32,
    slot: i32,
    special: u32,
    first_position: u32,
    first_event: u32,
)
    ensures
        ({
            let w = s + object_record(
                id,
                kind,
                ordinal,
                flags,
                lead,
                slot,
                special,
                first_position,
                first_event,
            );
            let o = s.len() as int;
            &&& w.len() == o + 36
            &&& le_u32(w, o + 28) == first_position
            &&& le_u32(w, o + 32) == first_event
        }),
{
    let head = s + i32_bytes(id) + i32_bytes(kind) + i32_bytes(ordinal) + u32_bytes(flags)
        + i32_bytes(lead) + i32_bytes(slot) + u32_bytes(special);
    crate::primitives::lemma_u32_round_trip(first_position);
    crate::primitives::lemma_u32_round_trip(first_event);
    crate::primitives::lemma_i32_round_trip(id);
    crate::primitives::lemma_i32_round_trip(kind);
    crate::primitives::lemma_i32_round_trip(ordinal);
    crate::primitives::lemma_u32_round_trip(flags);
    crate::primitives::lemma_i32_round_trip(lead);
    crate::primitives::lemma_i32_round_trip(slot);
    crate::primitives::lemma_u32_round_trip(special);
    let w = s + object_record(
        id,
        kind,
        ordinal,
        flags,
        lead,
        slot,
        special,
        first_position,
        first_event,
    );
    assert(head.len() == s.len() + 28);
    assert(w =~= head + u32_bytes(first_position) + u32_bytes(first_event));
    lemma_le_u32_of_bytes(head, first_position, u32_bytes(first_event));
    assert(w =~= (head + u32_bytes(first_position)) + u32_bytes(first_event) + Seq::<u8>::empty());
    lemma_le_u32_of_bytes(head + u32_bytes(first_position), first_event, Seq::<u8>::empty());
}

fn write_object_record(
    w: &mut Vec<u8>,
    id: i32,
    kind: i32,
    ordinal: i32,
    flags: u32,
    lead: i32,
    slot: i32,
    special: u32,
    first_position: u32,
    first_event: u32,
)
    ensures
        final(w)@ == old(w)@ + object_record(
            id,
            kind,
            ordinal,
            flags,
            lead,
            slot,
            special,
            first_position,
            first_event,
        ),
{
    write_i32(id, w);
    write_i32(kind, w);
    write_i32(ordinal, w);
    write_u32(flags, w);
    write_i32(lead, w);
    write_i32(slot, w);
    write_u32(special, w);
    write_u32(first_position, w);
    write_u32(first_event, w);
    assert(w@ =~= old(w)@ + object_record(
        id,
        kind,
        ordinal,
        flags,
        lead,
        slot,
        special,
        first_position,
        first_event,
    ));
}

/// Entities before the `n`-th (in output order) that have kind `kind`.
pub open spec fn kind_count(f: FlightView, es: Seq<IdRemap>, n: int, kind: i32) -> int
    decreases n,
{
    if n <= 0 {
        0
    } else {
        kind_count(f, es, n - 1, kind) + if f.entities[es[n - 1].original].position->Some_0.kind
            == kind {
            1int
        } else {
            0int
        }
    }
}

proof fn lemma_kind_count_bound(f: FlightView, es: Seq<IdRemap>, n: int, kind: i32)
    requires
        n >= 0,
    ensures
        0 <= kind_count(f, es, n, kind) <= n,
    decreases n,
{
    if n > 0 {
        lemma_kind_count_bound(f, es, n - 1, kind);
    }
}

/// The record of the `j`-th entity in output order.
pub open spec fn entity_record(
    f: FlightView,
    es: Seq<IdRemap>,
    j: int,
    position_offset: int,
    entity_event_offset: int,
) -> Seq<u8> {
    let p = f.entities[es[j].original].position->Some_0;
    object_record(
        es[j].new,
        p.kind,
        (kind_count(f, es, j, p.kind) + 1) as i32,
        p.flags,
        0,
        0,
        0,
        (position_offset + 41 * updates_before(f, es, j)) as u32,
        first_event_offset(f, es, j, entity_event_offset) as u32,
    )
}

/// Where entity `j`'s event run starts, or 0 when it has no events.
pub open spec fn first_event_offset(f: FlightView, es: Seq<IdRemap>, j: int, base: int) -> int {
    if events_of(f, es[j].original) == 0 {
        0
    } else {
        base + 41 * events_before(f, es, j)
    }
}

/// The entity records, in output order. Each carries the heads of its
/// position and event runs; its per-kind ordinal counts from 1.
fn write_entities(
    flight: &Flight,
    entities: &Vec<IdRemap>,
    position_offset: u32,
    entity_event_offset: u32,
    w: &mut Vec<u8>,
)
    requires
        entities_positioned(flight@),
        forall|j: int| 0 <= j < entities@.len() ==> flight@.entities.contains_key(#[trigger] entities@[j].original),
        entities@.len() < i32::MAX,
        position_offset + 41 * updates_before(flight@, entities@, entities@.len() as int) <= u32::MAX,
        entity_event_offset + 41 * events_before(flight@, entities@, entities@.len() as int) <= u32::MAX,
    ensures
        final(w)@.len() == old(w)@.len() + 36 * entities@.len(),
        final(w)@.subrange(0, old(w)@.len() as int) == old(w)@,
        forall|j: int|
            0 <= j < entities@.len() ==> #[trigger] le_u32(final(w)@, old(w)@.len() + 36 * j + 28)
                == position_offset + 41 * updates_before(flight@, entities@, j) && le_u32(
                final(w)@,
                old(w)@.len() + 36 * j + 32,
            ) == first_event_offset(flight@, entities@, j, entity_event_offset as int),
        forall|j: int|
            0 <= j < entities@.len() ==> #[trigger] final(w)@.subrange(
                old(w)@.len() + 36 * j,
                old(w)@.len() + 36 * j + 36,
            ) == entity_record(
                flight@,
                entities@,
                j,
                position_offset as int,
                entity_event_offset as int,
            ),
{
    let ghost f = flight@;
    let ghost es = entities@;
    let ghost start = old(w)@.len() as int;
    let mut ordinals: BTreeMap<i32, i32> = BTreeMap::new();
    let mut positions: u32 = 0;
    let mut events: u32 = 0;
    let mut j: usize = 0;
    proof {
        lemma_before_monotone(f, es, 0, es.len() as int);
    }
    while j < entities.len()
        invariant
            f == flight@,
            es == entities@,
            start == old(w)@.len(),
            entities_positioned(f),
            forall|x: int| 0 <= x < es.len() ==> f.entities.contains_key(#[trigger] es[x].original),
            es.len() < i32::MAX,
            position_offset + 41 * updates_before(f, es, es.len() as int) <= u32::MAX,
            entity_event_offset + 41 * events_before(f, es, es.len() as int) <= u32::MAX,
            j <= es.len(),
            positions == updates_before(f, es, j as int),
            events == events_before(f, es, j as int),
            forall|k: i32| #[trigger]
                ordinals@.contains_key(k) ==> ordinals@[k] == kind_count(f, es, j as int, k),
            forall|k: i32|
                !ordinals@.contains_key(k) ==> #[trigger] kind_count(f, es, j as int, k) == 0,
            forall|a: int|
                0 <= a < j ==> #[trigger] w@.subrange(start + 36 * a, start + 36 * a + 36)
                    == entity_record(f, es, a, position_offset as int, entity_event_offset as int),
            w@.len() == start + 36 * j,
            w@.subrange(0, start) == old(w)@,
            forall|a: int|
                0 <= a < j ==> #[trigger] le_u32(w@, start + 36 * a + 28) == position_offset + 41
                    * updates_before(f, es, a) && le_u32(w@, start + 36 * a + 32)
                    == first_event_offset(f, es, a, entity_event_offset as int),
        decreases es.len() - j,
    {
        let r = entities[j];
        let e = flight.entities.get(&r.original).unwrap();
        assert(e@ == f.entities[r.original]);
        let pd = e.position_data.as_ref().unwrap();
        proof {
            lemma_kind_count_bound(f, es, j as int, pd.kind);
        }
        let seen: i32 = match ordinals.get(&pd.kind) {
            Some(n) => *n,
            None => 0,
        };
        assert(seen == kind_count(f, es, j as int, pd.kind));
        assert(f.entities[es[j as int].original].position->Some_0.kind == pd.kind);
        let ghost ord_before = ordinals@;
        let ordinal = seen + 1;
        ordinals.insert(pd.kind, ordinal);
        proof {
            lemma_before_monotone(f, es, j + 1, es.len() as int);
            assert forall|k: i32| #[trigger]
                ordinals@.contains_key(k) implies ordinals@[k] == kind_count(f, es, j + 1, k) by {
                if k != pd.kind {
                    assert(ord_before.contains_key(k));
                }
            }
            assert forall|k: i32| !ordinals@.contains_key(k) implies #[trigger] kind_count(
                f,
                es,
                j + 1,
                k,
            ) == 0 by {
                assert(k != pd.kind);
                assert(!ord_before.contains_key(k));
                assert(kind_count(f, es, j as int, k) == 0);
                assert(f.entities[es[j as int].original].position->Some_0.kind == pd.kind);
            }
        }
        let first_position = position_offset + 41 * positions;
        let first_event = if e.events.len() == 0 {
            0
        } else {
            entity_event_offset + 41 * events
        };
        let ghost before = w@;
        write_object_record(w, r.new, pd.kind, ordinal, pd.flags, 0, 0, 0, first_position, first_event);
        proof {
            lemma_object_fields(before, r.new, pd.kind, ordinal, pd.flags, 0, 0, 0, first_position, first_event);
            let rec = object_record(r.new, pd.kind, ordinal, pd.flags, 0, 0, 0, first_position, first_event);
            assert(w@.subrange(0, start) =~= before.subrange(0, start));
            assert forall|a: int| 0 <= a < j + 1 implies #[trigger] w@.subrange(
                start + 36 * a,
                start + 36 * a + 36,
            ) == entity_record(f, es, a, position_offset as int, entity_event_offset as int) by {
                if a < j {
                    lemma_subrange_append(before, rec, start + 36 * a, start + 36 * a + 36);
                } else {
                    assert(w@.subrange(start + 36 * a, start + 36 * a + 36) =~= rec);
                }
            }
            assert forall|a: int|
                0 <= a < j + 1 implies #[trigger] le_u32(w@, start + 36 * a + 28) == position_offset + 41
                    * updates_before(f, es, a) && le_u32(w@, start + 36 * a + 32)
                    == first_event_offset(f, es, a, entity_event_offset as int) by {
                if a < j {
                    assert(le_u32(before, start + 36 * a + 28) == position_offset + 41 * updates_before(f, es, a));
                    lemma_le_u32_append(before, rec, start + 36 * a + 28);
                    lemma_le_u32_append(before, rec, start + 36 * a + 32);
                }
            }
        }
        positions = positions + pd.position_updates.len() as u32;
        events = events + e.events.len() as u32;
        j = j + 1;
    }
}

/// The record of the `j`-th feature in output order, its lead written as
/// an output id.
pub open spec fn feature_record_ok(
    w: Seq<u8>,
    start: int,
    j: int,
    f: FlightView,
    fs: Seq<IdRemap>,
    feature_positions: int,
) -> bool {
    let ft = f.features[fs[j].original];
    exists|lead: i32|
        output_id_or_none(fs, ft.lead_uid, lead) && w.subrange(start + 36 * j, start + 36 * j + 36)
            == object_record(
            fs[j].new,
            ft.kind,
            0,
            ENTITY_FLAG_FEATURE,
            lead,
            ft.slot,
            ft.special_flags,
            (feature_positions + 41 * j) as u32,
            0,
        )
}

/// The feature records, in output order. A feature's lead is written as
/// the output id of the feature it names, or -1.
fn write_features(
    flight: &Flight,
    features: &Vec<IdRemap>,
    feature_index: &BTreeMap<i32, i32>,
    feature_positions: u32,
    w: &mut Vec<u8>,
)
    requires
        forall|j: int| 0 <= j < features@.len() ==> flight@.features.contains_key(#[trigger] features@[j].original),
        feature_positions + 41 * features@.len() <= u32::MAX,
        forall|k: i32| #[trigger]
            feature_index@.contains_key(k) ==> is_output_id(features@, k, feature_index@[k]),
        forall|j: int| 0 <= j < features@.len() ==> feature_index@.contains_key(#[trigger] features@[j].original),
    ensures
        final(w)@.len() == old(w)@.len() + 36 * features@.len(),
        forall|j: int|
            0 <= j < features@.len() ==> #[trigger] le_u32(final(w)@, old(w)@.len() + 36 * j + 28)
                == feature_positions + 41 * j,
        forall|j: int|
            0 <= j < features@.len() ==> #[trigger] feature_record_ok(
                final(w)@,
                old(w)@.len() as int,
                j,
                flight@,
                features@,
                feature_positions as int,
            ),
{
    let ghost start = old(w)@.len() as int;
    let mut j: usize = 0;
    while j < features.len()
        invariant
            forall|x: int| 0 <= x < features@.len() ==> flight@.features.contains_key(#[trigger] features@[x].original),
            feature_positions + 41 * features@.len() <= u32::MAX,
            start == old(w)@.len(),
            j <= features@.len(),
            w@.len() == start + 36 * j,
            forall|a: int|
                0 <= a < j ==> #[trigger] le_u32(w@, start + 36 * a + 28) == feature_positions + 41 * a,
            forall|k: i32| #[trigger]
                feature_index@.contains_key(k) ==> is_output_id(features@, k, feature_index@[k]),
            forall|x: int| 0 <= x < features@.len() ==> feature_index@.contains_key(#[trigger] features@[x].original),
            forall|a: int|
                0 <= a < j ==> #[trigger] feature_record_ok(
                    w@,
                    start,
                    a,
                    flight@,
                    features@,
                    feature_positions as int,
                ),
        decreases features@.len() - j,
    {
        let r = features[j];
        let ft = *flight.features.get(&r.original).unwrap();
        let lead = match feature_index.get(&ft.lead_uid) {
            Some(v) => *v,
            None => -1,
        };
        let first_position = feature_positions + 41 * (j as u32);
        proof {
            if !feature_index@.contains_key(ft.lead_uid) {
                assert forall|x: int| 0 <= x < features@.len() implies #[trigger] features@[x].original
                    != ft.lead_uid by {
                    assert(feature_index@.contains_key(features@[x].original));
                }
            }
            assert(output_id_or_none(features@, ft.lead_uid, lead));
        }
        let ghost before = w@;
        // Feature events are stored apart, so the first event offset is 0.
        write_object_record(
            w,
            r.new,
            ft.kind,
            0,
            ENTITY_FLAG_FEATURE,
            lead,
            ft.slot,
            ft.special_flags,
            first_position,
            0,
        );
        proof {
            lemma_object_fields(
                before,
                r.new,
                ft.kind,
                0,
                ENTITY_FLAG_FEATURE,
                lead,
                ft.slot,
                ft.special_flags,
                first_position,
                0,
            );
            let rec = object_record(
                r.new,
                ft.kind,
                0,
                ENTITY_FLAG_FEATURE,
                lead,
                ft.slot,
                ft.special_flags,
                first_position,
                0,
            );
            assert forall|a: int| 0 <= a < j + 1 implies #[trigger] feature_record_ok(
                w@,
                start,
                a,
                flight@,
                features@,
                feature_positions as int,
            ) by {
                if a < j {
                    assert(feature_record_ok(before, start, a, flight@, features@, feature_positions as int));
                    lemma_subrange_append(before, rec, start + 36 * a, start + 36 * a + 36);
                } else {
                    assert(w@.subrange(start + 36 * a, start + 36 * a + 36) =~= rec);
                    assert(ft == flight@.features[features@[a].original]);
                }
            }
            assert forall|a: int| 0 <= a < j + 1 implies #[trigger] le_u32(w@, start + 36 * a + 28)
                == feature_positions + 41 * a by {
                if a < j {
                    assert(le_u32(before, start + 36 * a + 28) == feature_positions + 41 * a);
                    lemma_le_u32_append(before, rec, start + 36 * a + 28);
                }
            }
        }
        j = j + 1;
    }
}

/// The position record of feature `ft`: a run of one, with no radar target.
pub open spec fn feature_position_record(ft: crate::flight::FeatureData) -> Seq<u8> {
    timeline_record(
        ft.time,
        0,
        position_payload(ft.x, ft.y, ft.z, ft.pitch, ft.roll, ft.yaw, -1i32),
        0,
        0,
    )
}

/// One position per feature, each a run of one record.
fn write_feature_positions(flight: &Flight, features: &Vec<IdRemap>, w: &mut Vec<u8>)
    requires
        forall|j: int| 0 <= j < features@.len() ==> flight@.features.contains_key(#[trigger] features@[j].original),
    ensures
        final(w)@.len() == old(w)@.len() + 41 * features@.len(),
        final(w)@.subrange(0, old(w)@.len() as int) == old(w)@,
        forall|j: int|
            0 <= j < features@.len() ==> #[trigger] final(w)@.subrange(
                old(w)@.len() + 41 * j,
                old(w)@.len() + 41 * j + 41,
            ) == feature_position_record(flight@.features[features@[j].original]),
{
    let mut j: usize = 0;
    while j < features.len()
        invariant
            forall|x: int| 0 <= x < features@.len() ==> flight@.features.contains_key(#[trigger] features@[x].original),
            j <= features@.len(),
            w@.len() == old(w)@.len() + 41 * j,
            w@.subrange(0, old(w)@.len() as int) == old(w)@,
            forall|a: int|
                0 <= a < j ==> #[trigger] w@.subrange(old(w)@.len() + 41 * a, old(w)@.len() + 41 * a + 41)
                    == feature_position_record(flight@.features[features@[a].original]),
        decreases features@.len() - j,
    {
        let ft = *flight.features.get(&features[j].original).unwrap();
        let payload = position_payload_exec(ft.x, ft.y, ft.z, ft.pitch, ft.roll, ft.yaw, -1);
        let ghost before = w@;
        write_timeline_record(w, ft.time, 0, &payload, 0, 0);
        assert(w@.subrange(0, old(w)@.len() as int) =~= before.subrange(0, old(w)@.len() as int));
        proof {
            let rec = timeline_record(ft.time, 0, payload@, 0, 0);
            assert(rec == feature_position_record(flight@.features[features@[j as int].original]));
            assert forall|a: int| 0 <= a < j + 1 implies #[trigger] w@.subrange(
                old(w)@.len() + 41 * a,
                old(w)@.len() + 41 * a + 41,
            ) == feature_position_record(flight@.features[features@[a].original]) by {
                if a < j {
                    lemma_subrange_append(before, rec, old(w)@.len() + 41 * a, old(w)@.len() + 41 * a + 41);
                } else {
                    assert(w@.subrange(old(w)@.len() + 41 * a, old(w)@.len() + 41 * a + 41) =~= rec);
                }
            }
        }
        j = j + 1;
    }
}

/// Relies on rayon's `ParallelSliceMut::par_sort_unstable`: the slice ends
/// up in ascending order and holds the same elements.
#[verifier::external_body]
fn sort_keys(v: &mut Vec<u64>)
    ensures
        final(v)@.len() == old(v)@.len(),
        final(v)@.to_multiset() == old(v)@.to_multiset(),
        forall|i: int, j: int| 0 <= i < j < final(v)@.len() ==> final(v)@[i] <= final(v)@[j],
{
    v.par_sort_unstable();
}

/// A trailer sort key: the stop time's total-order key above the event's
/// index.
pub open spec fn trailer_key(stop: u32, index: u32) -> u64 {
    ((total_key(stop) as u64) << 32u64) | (index as u64)
}

proof fn lemma_trailer_key(stop_key: u32, index: u32)
    ensures
        (((stop_key as u64) << 32u64) | (index as u64)) >> 32u64 == stop_key as u64,
        (((stop_key as u64) << 32u64) | (index as u64)) & 0xFFFF_FFFFu64 == index as u64,
{
    assert((((stop_key as u64) << 32u64) | (index as u64)) >> 32u64 == stop_key as u64) by (bit_vector);
    assert((((stop_key as u64) << 32u64) | (index as u64)) & 0xFFFF_FFFFu64 == index as u64) by (bit_vector);
}

proof fn lemma_high_monotone(a: u64, b: u64)
    requires
        a <= b,
    ensures
        a >> 32u64 <= b >> 32u64,
{
    assert(a <= b ==> a >> 32u64 <= b >> 32u64) by (bit_vector);
}

/// The 65-byte record of general event `ev`, the `index`-th of the flight.
pub open spec fn general_event_record(ev: crate::flight::GeneralEvent, index: u32) -> Seq<u8> {
    seq![ev.type_byte] + u32_bytes(index) + u32_bytes(ev.start) + u32_bytes(ev.stop) + i32_bytes(
        ev.kind,
    ) + i32_bytes(ev.user) + u32_bytes(ev.flags) + u32_bytes(ev.scale) + u32_bytes(ev.x)
        + u32_bytes(ev.y) + u32_bytes(ev.z) + u32_bytes(ev.dx) + u32_bytes(ev.dy) + u32_bytes(ev.dz)
        + u32_bytes(ev.roll) + u32_bytes(ev.pitch) + u32_bytes(ev.yaw)
}

fn write_general_event(ev: &crate::flight::GeneralEvent, index: u32, w: &mut Vec<u8>)
    ensures
        final(w)@ == old(w)@ + general_event_record(*ev, index),
        general_event_record(*ev, index).len() == 65,
{
    write_u8(ev.type_byte, w);
    write_u32(index, w);
    write_f32(ev.start, w);
    write_f32(ev.stop, w);
    write_i32(ev.kind, w);
    write_i32(ev.user, w);
    write_u32(ev.flags, w);
    write_f32(ev.scale, w);
    write_f32(ev.x, w);
    write_f32(ev.y, w);
    write_f32(ev.z, w);
    write_f32(ev.dx, w);
    write_f32(ev.dy, w);
    write_f32(ev.dz, w);
    write_f32(ev.roll, w);
    write_f32(ev.pitch, w);
    write_f32(ev.yaw, w);
    assert(w@ =~= old(w)@ + general_event_record(*ev, index));
}

/// The event index that trailer `t` names.
pub open spec fn trailer_index(w: Seq<u8>, start: int, n: int, t: int) -> u32 {
    le_u32(w, start + 65 * n + 8 * t + 4)
}

/// The stop time of trailer `t` in a general-event section of `n` events.
pub open spec fn trailer_stop(w: Seq<u8>, start: int, n: int, t: int) -> u32 {
    le_u32(w, start + 65 * n + 8 * t)
}

/// The general events in input order, then their trailers sorted by stop
/// time.
#[verifier::rlimit(100)]
fn write_general_events(flight: &Flight, w: &mut Vec<u8>)
    requires
        flight@.general_events.len() <= u32::MAX,
    ensures
        final(w)@.len() == old(w)@.len() + 73 * flight@.general_events.len(),
        forall|i: int|
            0 <= i < flight@.general_events.len() ==> #[trigger] final(w)@.subrange(
                old(w)@.len() + 65 * i,
                old(w)@.len() + 65 * i + 65,
            ) == general_event_record(flight@.general_events[i], i as u32),
        forall|t: int|
            0 <= t < flight@.general_events.len() ==> #[trigger] trailer_index(
                final(w)@,
                old(w)@.len() as int,
                flight@.general_events.len() as int,
                t,
            ) < flight@.general_events.len() && trailer_stop(
                final(w)@,
                old(w)@.len() as int,
                flight@.general_events.len() as int,
                t,
            ) == flight@.general_events[trailer_index(
                final(w)@,
                old(w)@.len() as int,
                flight@.general_events.len() as int,
                t,
            ) as int].stop,
        forall|t: int|
            0 <= t < flight@.general_events.len() - 1 ==> !lt(
                #[trigger] trailer_stop(final(w)@, old(w)@.len() as int, flight@.general_events.len() as int, t + 1),
                trailer_stop(final(w)@, old(w)@.len() as int, flight@.general_events.len() as int, t),
            ),
        forall|t: int, u: int|
            0 <= t < u < flight@.general_events.len() ==> #[trigger] trailer_index(
                final(w)@,
                old(w)@.len() as int,
                flight@.general_events.len() as int,
                t,
            ) != #[trigger] trailer_index(
                final(w)@,
                old(w)@.len() as int,
                flight@.general_events.len() as int,
                u,
            ),
{
    let n = flight.general_events.len();
    let ghost start = old(w)@.len() as int;
    let mut keys: Vec<u64> = Vec::new();
    let mut i: usize = 0;
    while i < n
        invariant
            n == flight@.general_events.len(),
            n <= u32::MAX,
            start == old(w)@.len(),
            i <= n,
            w@.len() == start + 65 * i,
            keys@.len() == i,
            forall|x: int| 0 <= x < i ==> #[trigger] keys@[x] == trailer_key(flight@.general_events[x].stop, x as u32),
            forall|x: int|
                0 <= x < i ==> #[trigger] w@.subrange(start + 65 * x, start + 65 * x + 65)
                    == general_event_record(flight@.general_events[x], x as u32),
        decreases n - i,
    {
        let ev = flight.general_events[i];
        let ghost before = w@;
        let key_high = total_order_key(ev.stop);
        keys.push(((key_high as u64) << 32u64) | (i as u64));
        write_general_event(&ev, i as u32, w);
        proof {
            let rec = general_event_record(ev, i as u32);
            assert forall|x: int| 0 <= x < i + 1 implies #[trigger] w@.subrange(
                start + 65 * x,
                start + 65 * x + 65,
            ) == general_event_record(flight@.general_events[x], x as u32) by {
                if x < i {
                    lemma_subrange_append(before, rec, start + 65 * x, start + 65 * x + 65);
                } else {
                    assert(w@.subrange(start + 65 * x, start + 65 * x + 65) =~= rec);
                }
            }
        }
        i = i + 1;
    }
    let ghost unsorted = keys@;
    proof {
        assert forall|x: int, y: int| 0 <= x < y < n implies unsorted[x] != unsorted[y] by {
            lemma_trailer_key(total_key(flight@.general_events[x].stop), x as u32);
            lemma_trailer_key(total_key(flight@.general_events[y].stop), y as u32);
        }
        assert(unsorted.no_duplicates());
        unsorted.lemma_multiset_has_no_duplicates();
    }
    sort_keys(&mut keys);
    proof {
        keys@.lemma_multiset_has_no_duplicates_conv();
    }
    let ghost trailer_base = start + 65 * n;
    let mut t: usize = 0;
    while t < n
        invariant
            n == flight@.general_events.len(),
            n <= u32::MAX,
            start == old(w)@.len(),
            trailer_base == start + 65 * n,
            keys@.len() == n,
            unsorted.len() == n,
            keys@.to_multiset() == unsorted.to_multiset(),
            forall|x: int| 0 <= x < n ==> #[trigger] unsorted[x] == trailer_key(flight@.general_events[x].stop, x as u32),
            forall|a: int, b: int| 0 <= a < b < n ==> keys@[a] <= keys@[b],
            t <= n,
            w@.len() == trailer_base + 8 * t,
            forall|x: int|
                0 <= x < t ==> total_key(#[trigger] trailer_stop(w@, start, n as int, x)) as u64 == keys@[x] >> 32u64,
            forall|x: int|
                0 <= x < n ==> #[trigger] w@.subrange(start + 65 * x, start + 65 * x + 65)
                    == general_event_record(flight@.general_events[x], x as u32),
            keys@.no_duplicates(),
            forall|x: int|
                0 <= x < t ==> keys@[x] == unsorted[#[trigger] trailer_index(w@, start, n as int, x) as int],
            forall|x: int|
                0 <= x < t ==> #[trigger] trailer_index(w@, start, n as int, x) < n && trailer_stop(
                    w@,
                    start,
                    n as int,
                    x,
                ) == flight@.general_events[trailer_index(w@, start, n as int, x) as int].stop,
        decreases n - t,
    {
        let key = keys[t];
        proof {
            assert(keys@.contains(key));
            vstd::seq_lib::to_multiset_contains(keys@, key);
            vstd::seq_lib::to_multiset_contains(unsorted, key);
            assert(unsorted.contains(key));
        }
        let index = (key & 0xFFFF_FFFF) as usize;
        proof {
            let x = choose|x: int| 0 <= x < n && unsorted[x] == key;
            lemma_trailer_key(total_key(flight@.general_events[x].stop), x as u32);
            assert(index == x);
            assert(keys@[t as int] == unsorted[index as int]);
        }
        let stop = flight.general_events[index].stop;
        let ghost before = w@;
        write_f32(stop, w);
        write_u32(index as u32, w);
        proof {
            let x = index as int;
            lemma_trailer_key(total_key(stop), x as u32);
            assert(w@ =~= before + u32_bytes(stop) + u32_bytes(index as u32));
            lemma_le_u32_of_bytes(before, stop, u32_bytes(index as u32));
            assert(w@ =~= (before + u32_bytes(stop)) + u32_bytes(index as u32) + Seq::<u8>::empty());
            lemma_le_u32_of_bytes(before + u32_bytes(stop), index as u32, Seq::<u8>::empty());
            let tail = u32_bytes(stop) + u32_bytes(index as u32);
            assert forall|y: int| 0 <= y < n implies #[trigger] w@.subrange(
                start + 65 * y,
                start + 65 * y + 65,
            ) == general_event_record(flight@.general_events[y], y as u32) by {
                assert(w@ =~= before + tail);
                lemma_subrange_append(before, tail, start + 65 * y, start + 65 * y + 65);
            }
            assert forall|y: int| 0 <= y < t + 1 implies #[trigger] trailer_index(w@, start, n as int, y)
                < n && trailer_stop(w@, start, n as int, y)
                == flight@.general_events[trailer_index(w@, start, n as int, y) as int].stop by {
                if y < t {
                    assert(w@ =~= before + tail);
                    assert(trailer_index(before, start, n as int, y) < n);
                    lemma_le_u32_append(before, tail, start + 65 * n + 8 * y);
                    lemma_le_u32_append(before, tail, start + 65 * n + 8 * y + 4);
                } else {
                    assert(before.len() == start + 65 * n + 8 * y);
                }
            }
            assert forall|y: int| 0 <= y < t + 1 implies keys@[y] == unsorted[#[trigger] trailer_index(
                w@,
                start,
                n as int,
                y,
            ) as int] by {
                if y < t {
                    assert(w@ =~= before + tail);
                    assert(keys@[y] == unsorted[trailer_index(before, start, n as int, y) as int]);
                    lemma_le_u32_append(before, tail, start + 65 * n + 8 * y + 4);
                } else {
                    assert(before.len() == start + 65 * n + 8 * y);
                }
            }
            assert forall|y: int|
                0 <= y < t + 1 implies total_key(#[trigger] trailer_stop(w@, start, n as int, y)) as u64
                == keys@[y] >> 32u64 by {
                if y < t {
                    assert(total_key(trailer_stop(before, start, n as int, y)) as u64 == keys@[y] >> 32u64);
                    lemma_le_u32_append(before, u32_bytes(stop) + u32_bytes(index as u32), start + 65 * n + 8 * y);
                    assert(w@ =~= before + (u32_bytes(stop) + u32_bytes(index as u32)));
                }
            }
        }
        t = t + 1;
    }
    proof {
        assert forall|t1: int, u1: int| 0 <= t1 < u1 < n implies #[trigger] trailer_index(
            w@,
            start,
            n as int,
            t1,
        ) != #[trigger] trailer_index(w@, start, n as int, u1) by {
            if trailer_index(w@, start, n as int, t1) == trailer_index(w@, start, n as int, u1) {
                assert(keys@[t1] == keys@[u1]);
            }
        }
        assert forall|x: int| 0 <= x < n - 1 implies !lt(
            #[trigger] trailer_stop(w@, start, n as int, x + 1),
            trailer_stop(w@, start, n as int, x),
        ) by {
            lemma_high_monotone(keys@[x], keys@[x + 1]);
            lemma_total_key_respects_lt(trailer_stop(w@, start, n as int, x), trailer_stop(w@, start, n as int, x + 1));
        }
    }
}

/// `new` is the output id given to `original`.
pub open spec fn is_output_id(remaps: Seq<IdRemap>, original: i32, new: i32) -> bool {
    exists|j: int| 0 <= j < remaps.len() && remaps[j].original == original && remaps[j].new == new
}

/// Feature event `i` of a section starting at byte `start`: its time, and
/// its feature by output id.
pub open spec fn feature_event_ok(
    w: Seq<u8>,
    start: int,
    i: int,
    ev: crate::flight::FeatureEvent,
    features: Seq<IdRemap>,
) -> bool {
    &&& le_u32(w, start + 16 * i) == ev.time
    &&& is_output_id(features, ev.feature_uid, le_i32(w, start + 16 * i + 4))
    &&& le_i32(w, start + 16 * i + 8) == ev.new_status
    &&& le_i32(w, start + 16 * i + 12) == ev.previous_status
}

/// Feature events in order, each naming its feature by output id.
fn write_feature_events(
    flight: &Flight,
    features: &Vec<IdRemap>,
    feature_index: &BTreeMap<i32, i32>,
    w: &mut Vec<u8>,
)
    requires
        crate::flight::feature_events_known(flight@),
        forall|k: i32| #[trigger]
            feature_index@.contains_key(k) ==> is_output_id(features@, k, feature_index@[k]),
        forall|k: i32|
            flight@.features.contains_key(k) ==> #[trigger] feature_index@.contains_key(k),
    ensures
        final(w)@.len() == old(w)@.len() + 16 * flight@.feature_events.len(),
        forall|i: int|
            0 <= i < flight@.feature_events.len() ==> #[trigger] feature_event_ok(
                final(w)@,
                old(w)@.len() as int,
                i,
                flight@.feature_events[i],
                features@,
            ),
{
    let ghost start = old(w)@.len() as int;
    let ghost evs = flight@.feature_events;
    let mut i: usize = 0;
    while i < flight.feature_events.len()
        invariant
            evs == flight@.feature_events,
            crate::flight::feature_events_known(flight@),
            forall|k: i32| #[trigger]
                feature_index@.contains_key(k) ==> is_output_id(features@, k, feature_index@[k]),
            forall|k: i32|
                flight@.features.contains_key(k) ==> #[trigger] feature_index@.contains_key(k),
            start == old(w)@.len(),
            i <= evs.len(),
            w@.len() == start + 16 * i,
            forall|a: int| 0 <= a < i ==> #[trigger] feature_event_ok(w@, start, a, evs[a], features@),
        decreases evs.len() - i,
    {
        let ev = flight.feature_events[i];
        assert(flight@.features.contains_key(evs[i as int].feature_uid));
        assert(feature_index@.contains_key(ev.feature_uid));
        let index = match feature_index.get(&ev.feature_uid) {
            Some(v) => *v,
            None => -1,
        };
        let ghost before = w@;
        write_f32(ev.time, w);
        write_i32(index, w);
        write_i32(ev.new_status, w);
        write_i32(ev.previous_status, w);
        proof {
            let rest = i32_bytes(index) + i32_bytes(ev.new_status) + i32_bytes(ev.previous_status);
            assert(w@ =~= before + u32_bytes(ev.time) + rest);
            lemma_le_u32_of_bytes(before, ev.time, rest);
            let tail = i32_bytes(ev.new_status) + i32_bytes(ev.previous_status);
            assert(w@ =~= (before + u32_bytes(ev.time)) + i32_bytes(index) + tail);
            lemma_le_u32_of_bytes(before + u32_bytes(ev.time), #[verifier::truncate] (index as u32), tail);
            assert(#[verifier::truncate] ((#[verifier::truncate] (index as u32)) as i32) == index) by (bit_vector);
            let ns = ev.new_status;
            let ps = ev.previous_status;
            assert(w@ =~= (before + u32_bytes(ev.time) + i32_bytes(index)) + u32_bytes(#[verifier::truncate] (ns as u32)) + i32_bytes(ps));
            lemma_le_u32_of_bytes(before + u32_bytes(ev.time) + i32_bytes(index), #[verifier::truncate] (ns as u32), i32_bytes(ps));
            assert(w@ =~= (before + u32_bytes(ev.time) + i32_bytes(index) + i32_bytes(ns)) + u32_bytes(#[verifier::truncate] (ps as u32)) + Seq::<u8>::empty());
            lemma_le_u32_of_bytes(before + u32_bytes(ev.time) + i32_bytes(index) + i32_bytes(ns), #[verifier::truncate] (ps as u32), Seq::<u8>::empty());
            assert(#[verifier::truncate] ((#[verifier::truncate] (ns as u32)) as i32) == ns) by (bit_vector);
            assert(#[verifier::truncate] ((#[verifier::truncate] (ps as u32)) as i32) == ps) by (bit_vector);
            let rec = u32_bytes(ev.time) + rest;
            assert(w@ =~= before + rec);
            assert forall|a: int| 0 <= a < i + 1 implies #[trigger] feature_event_ok(w@, start, a, evs[a], features@) by {
                if a < i {
                    assert(feature_event_ok(before, start, a, evs[a], features@));
                    lemma_le_u32_append(before, rec, start + 16 * a);
                    lemma_le_u32_append(before, rec, start + 16 * a + 4);
                    lemma_le_u32_append(before, rec, start + 16 * a + 8);
                    lemma_le_u32_append(before, rec, start + 16 * a + 12);
                } else {
                    assert(before.len() == start + 16 * a);
                    assert(le_u32(w@, start + 16 * a + 4) == #[verifier::truncate] (index as u32));
                    assert(le_i32(w@, start + 16 * a + 4) == index);
                }
            }
        }
        i = i + 1;
    }
}

/// Callsign record `j` of a section starting at byte `start`.
pub open spec fn callsign_record_ok(
    w: Seq<u8>,
    start: int,
    j: int,
    c: crate::flight::CallsignView,
) -> bool {
    &&& w.subrange(start + 4 + 20 * j, start + 20 + 20 * j) == c.label
    &&& le_i32(w, start + 20 + 20 * j) == c.team_color
}

/// The callsign count, then a label and team color for each output id
/// below it.
fn write_callsigns(flight: &Flight, callsign_ids: &Vec<i32>, w: &mut Vec<u8>)
    requires
        callsign_ids@.len() <= u32::MAX,
        forall|j: int|
            0 <= j < callsign_ids@.len() ==> flight.callsigns@.contains_key(
                #[trigger] callsign_ids@[j],
            ),
    ensures
        final(w)@.len() == old(w)@.len() + 4 + 20 * callsign_ids@.len(),
        final(w)@.subrange(old(w)@.len() as int, (old(w)@.len() + 4) as int) == u32_bytes(
            callsign_ids@.len() as u32,
        ),
        forall|j: int|
            0 <= j < callsign_ids@.len() ==> #[trigger] callsign_record_ok(
                final(w)@,
                old(w)@.len() as int,
                j,
                flight@.callsigns[callsign_ids@[j]],
            ),
{
    let ghost start = old(w)@.len() as int;
    write_u32(callsign_ids.len() as u32, w);
    let ghost head = w@;
    let mut i: usize = 0;
    while i < callsign_ids.len()
        invariant
            callsign_ids@.len() <= u32::MAX,
            forall|j: int|
                0 <= j < callsign_ids@.len() ==> flight.callsigns@.contains_key(
                    #[trigger] callsign_ids@[j],
                ),
            start == old(w)@.len(),
            head == old(w)@ + u32_bytes(callsign_ids@.len() as u32),
            i <= callsign_ids@.len(),
            w@.len() == start + 4 + 20 * i,
            w@.subrange(0, head.len() as int) == head,
            forall|j: int|
                0 <= j < i ==> #[trigger] callsign_record_ok(
                    w@,
                    start,
                    j,
                    flight@.callsigns[callsign_ids@[j]],
                ),
        decreases callsign_ids@.len() - i,
    {
        let ghost before = w@;
        let id = callsign_ids[i];
        let c = *flight.callsigns.get(&id).unwrap();
        assert(c@ == flight@.callsigns[id]);
        let mut j: usize = 0;
        while j < 16
            invariant
                j <= 16,
                c.label@.len() == 16,
                w@ == before + c.label@.subrange(0, j as int),
            decreases 16 - j,
        {
            w.push(c.label[j]);
            assert(c.label@.subrange(0, j + 1) =~= c.label@.subrange(0, j as int).push(c.label@[j as int]));
            j = j + 1;
        }
        assert(c.label@.subrange(0, 16) =~= c.label@);
        write_i32(c.team_color, w);
        proof {
            let rec = c.label@ + i32_bytes(c.team_color);
            assert(w@ =~= before + rec);
            assert(w@ =~= (before + c.label@) + u32_bytes(#[verifier::truncate] (c.team_color as u32))
                + Seq::<u8>::empty());
            lemma_le_u32_of_bytes(
                before + c.label@,
                #[verifier::truncate] (c.team_color as u32),
                Seq::<u8>::empty(),
            );
            let tc = c.team_color;
            assert(#[verifier::truncate] ((#[verifier::truncate] (tc as u32)) as i32) == tc) by (bit_vector);
            assert(w@.subrange(0, head.len() as int) =~= before.subrange(0, head.len() as int));
            assert forall|a: int| 0 <= a < i + 1 implies #[trigger] callsign_record_ok(
                w@,
                start,
                a,
                flight@.callsigns[callsign_ids@[a]],
            ) by {
                if a < i {
                    assert(callsign_record_ok(before, start, a, flight@.callsigns[callsign_ids@[a]]));
                    assert(w@.subrange(start + 4 + 20 * a, start + 20 + 20 * a) =~= before.subrange(
                        start + 4 + 20 * a,
                        start + 20 + 20 * a,
                    ));
                    lemma_le_u32_append(before, rec, start + 20 + 20 * a);
                } else {
                    assert(before.len() == start + 4 + 20 * a);
                    assert(w@.subrange(start + 4 + 20 * a, start + 20 + 20 * a) =~= c.label@);
                }
            }
        }
        i = i + 1;
    }
    assert(w@.subrange(start, start + 4) =~= head.subrange(start, start + 4));
    assert(head.subrange(start, start + 4) =~= u32_bytes(callsign_ids@.len() as u32));
}

/// The bytes of a tape file, one vector per section.
#[derive(Debug, Clone, PartialEq, Eq)]
pub struct Sections {
    pub header: Vec<u8>,
    pub entities: Vec<u8>,
    pub features: Vec<u8>,
    pub positions: Vec<u8>,
    pub entity_events: Vec<u8>,
    pub general_events: Vec<u8>,
    pub feature_events: Vec<u8>,
    pub callsigns: Vec<u8>,
}

/// Each section is exactly as long as the layout planned.
pub open spec fn sections_match(s: Sections, l: Layout) -> bool {
    &&& s.header@.len() == 80
    &&& s.entities@.len() == l.feature_offset - 80
    &&& s.features@.len() == l.position_offset - l.feature_offset
    &&& s.positions@.len() == l.entity_event_offset - l.position_offset
    &&& s.entity_events@.len() == l.general_event_offset - l.entity_event_offset
    &&& s.general_events@.len() == l.feature_event_offset - l.general_event_offset
    &&& s.feature_events@.len() == l.text_event_offset - l.feature_event_offset
    &&& s.callsigns@.len() == l.file_length - l.text_event_offset
}

#[verifier::rlimit(60)]
/// Produces every section of the tape file for `flight`, laid out as
/// `header` plans. `minus` subtracts two floats given as bit patterns (the
/// header holds the play time, end minus start).
pub fn write_sections<S: Fn(u32, u32) -> u32>(
    flight: &Flight,
    mapping: &IdMapping,
    header: &Header,
    minus: &S,
) -> (s: Sections)
    requires
        well_formed(flight@),
        mapping_ok(flight@, *mapping, flight.callsigns@),
        flight@.entities.dom().len() + flight@.features.dom().len() <= i32::MAX,
        header_is(
            *header,
            layout(flight@, mapping.entities@, mapping.features@, mapping.callsign_ids@.len() as int),
        ),
        header.file_length <= u32::MAX,
        crate::flt::is_function(*minus),
    ensures
        ({
            let f = flight@;
            let es = mapping.entities@;
            let l = layout(f, es, mapping.features@, mapping.callsign_ids@.len() as int);
            &&& sections_match(s, l)
            &&& s.header@ == header_bytes(
                *header,
                f,
                (crate::flt::op_of(*minus))(f.end_time, f.start_time),
            )
            &&& s.header@.subrange(0, 4) == magic()
            &&& forall|j: int|
                0 <= j < es.len() ==> #[trigger] le_u32(s.entities@, 36 * j + 28)
                    == l.position_offset + 41 * updates_before(f, es, j) && le_u32(
                    s.entities@,
                    36 * j + 32,
                ) == first_event_offset(f, es, j, l.entity_event_offset)
            &&& forall|j: int|
                0 <= j < es.len() ==> #[trigger] s.entities@.subrange(36 * j, 36 * j + 36)
                    == entity_record(f, es, j, l.position_offset, l.entity_event_offset)
            &&& forall|j: int|
                0 <= j < mapping.features@.len() ==> #[trigger] feature_record_ok(
                    s.features@,
                    0,
                    j,
                    f,
                    mapping.features@,
                    l.position_offset + 41 * updates_before(f, es, es.len() as int),
                )
            &&& forall|j: int, i: int|
                0 <= j < es.len() && 0 <= i < updates_of(f, es[j].original) ==> #[trigger] run_record_ok(
                    s.positions@,
                    0,
                    l.position_offset,
                    updates_before(f, es, j),
                    i,
                    updates_of(f, es[j].original),
                    update_time(f, es[j].original, i),
                )
            &&& forall|j: int, i: int|
                0 <= j < es.len() && 0 <= i < updates_of(f, es[j].original) ==> #[trigger] position_body_ok(
                    s.positions@,
                    0,
                    updates_before(f, es, j),
                    i,
                    update_at(f, es[j].original, i),
                    es,
                )
            &&& forall|j: int, i: int|
                0 <= j < es.len() && 0 <= i < events_of(f, es[j].original) ==> #[trigger] run_record_ok(
                    s.entity_events@,
                    0,
                    l.entity_event_offset,
                    events_before(f, es, j),
                    i,
                    events_of(f, es[j].original),
                    event_time(f, es[j].original, i),
                )
            &&& forall|j: int|
                0 <= j < mapping.features@.len() ==> #[trigger] s.positions@.subrange(
                    41 * updates_before(f, es, es.len() as int) + 41 * j,
                    41 * updates_before(f, es, es.len() as int) + 41 * j + 41,
                ) == feature_position_record(f.features[mapping.features@[j].original])
            &&& forall|j: int, i: int|
                0 <= j < es.len() && 0 <= i < events_of(f, es[j].original) ==> #[trigger] event_body_ok(
                    s.entity_events@,
                    0,
                    events_before(f, es, j),
                    i,
                    event_at(f, es[j].original, i),
                )
            &&& forall|t: int|
                0 <= t < f.general_events.len() - 1 ==> !lt(
                    #[trigger] trailer_stop(s.general_events@, 0, f.general_events.len() as int, t + 1),
                    trailer_stop(s.general_events@, 0, f.general_events.len() as int, t),
                )
            &&& forall|i: int|
                0 <= i < f.general_events.len() ==> #[trigger] s.general_events@.subrange(
                    65 * i,
                    65 * i + 65,
                ) == general_event_record(f.general_events[i], i as u32)
            &&& forall|t: int|
                0 <= t < f.general_events.len() ==> #[trigger] trailer_index(
                    s.general_events@,
                    0,
                    f.general_events.len() as int,
                    t,
                ) < f.general_events.len() && trailer_stop(
                    s.general_events@,
                    0,
                    f.general_events.len() as int,
                    t,
                ) == f.general_events[trailer_index(
                    s.general_events@,
                    0,
                    f.general_events.len() as int,
                    t,
                ) as int].stop
            &&& forall|t: int, u: int|
                0 <= t < u < f.general_events.len() ==> #[trigger] trailer_index(
                    s.general_events@,
                    0,
                    f.general_events.len() as int,
                    t,
                ) != #[trigger] trailer_index(s.general_events@, 0, f.general_events.len() as int, u)
            &&& le_u32(s.callsigns@, 0) == mapping.callsign_ids@.len()
            &&& forall|j: int|
                0 <= j < mapping.callsign_ids@.len() ==> #[trigger] callsign_record_ok(
                    s.callsigns@,
                    0,
                    j,
                    f.callsigns[mapping.callsign_ids@[j]],
                )
            &&& forall|i: int|
                0 <= i < f.feature_events.len() ==> #[trigger] feature_event_ok(
                    s.feature_events@,
                    0,
                    i,
                    f.feature_events[i],
                    mapping.features@,
                )
        }),
{
    let ghost f = flight@;
    let ghost es = mapping.entities@;
    let ghost l = layout(f, es, mapping.features@, mapping.callsign_ids@.len() as int);
    proof {
        lemma_before_monotone(f, es, 0, es.len() as int);
        assert forall|j: int| 0 <= j < es.len() implies f.entities.contains_key(#[trigger] es[j].original) by {
        }
    }
    let entity_index = index_of(&mapping.entities);
    let feature_index = index_of(&mapping.features);
    let play_time = crate::flt::apply_op(minus, flight.end_time, flight.start_time);

    let mut head: Vec<u8> = Vec::new();
    header.write(flight, play_time, &mut head);
    assert(head@.subrange(0, 4) =~= magic());

    let mut entities: Vec<u8> = Vec::new();
    let ghost e0 = entities@;
    write_entities(
        flight,
        &mapping.entities,
        header.position_offset,
        header.entity_event_offset,
        &mut entities,
    );

    let entity_positions_len = header.position_count - header.feature_count;
    let feature_positions = header.position_offset + 41 * entity_positions_len;
    let mut features: Vec<u8> = Vec::new();
    let ghost fs0 = features@;
    write_features(flight, &mapping.features, &feature_index, feature_positions, &mut features);
    proof {
        assert(fs0.len() == 0);
        assert forall|j: int| 0 <= j < mapping.features@.len() implies #[trigger] feature_record_ok(
            features@,
            0,
            j,
            f,
            mapping.features@,
            l.position_offset + 41 * updates_before(f, es, es.len() as int),
        ) by {
            assert(feature_record_ok(features@, fs0.len() as int, j, f, mapping.features@, feature_positions as int));
        }
    }

    let mut positions: Vec<u8> = Vec::new();
    write_entity_positions(
        flight,
        &mapping.entities,
        &entity_index,
        header.position_offset,
        &mut positions,
    );
    let ghost p1 = positions@;
    write_feature_positions(flight, &mapping.features, &mut positions);

    let mut entity_events: Vec<u8> = Vec::new();
    let ghost ee0 = entity_events@;
    write_entity_events(flight, &mapping.entities, header.entity_event_offset, &mut entity_events);
    proof {
        assert(ee0.len() == 0);
        assert forall|j: int, i: int|
            0 <= j < es.len() && 0 <= i < events_of(f, es[j].original) implies #[trigger] event_body_ok(
            entity_events@,
            0,
            events_before(f, es, j),
            i,
            event_at(f, es[j].original, i),
        ) by {
            assert(event_body_ok(entity_events@, ee0.len() as int, events_before(f, es, j), i, event_at(f, es[j].original, i)));
        }
        assert forall|j: int, i: int|
            0 <= j < es.len() && 0 <= i < events_of(f, es[j].original) implies #[trigger] run_record_ok(
            entity_events@,
            0,
            l.entity_event_offset,
            events_before(f, es, j),
            i,
            events_of(f, es[j].original),
            event_time(f, es[j].original, i),
        ) by {
            assert(run_record_ok(
                entity_events@,
                ee0.len() as int,
                l.entity_event_offset,
                events_before(f, es, j),
                i,
                events_of(f, es[j].original),
                event_time(f, es[j].original, i),
            ));
        }
    }

    let mut general_events: Vec<u8> = Vec::new();
    let ghost g0 = general_events@;
    write_general_events(flight, &mut general_events);
    proof {
        assert(g0.len() == 0);
        assert forall|i: int| 0 <= i < f.general_events.len() implies #[trigger] general_events@.subrange(
            65 * i,
            65 * i + 65,
        ) == general_event_record(f.general_events[i], i as u32) by {
            assert(general_events@.subrange(g0.len() + 65 * i, g0.len() + 65 * i + 65)
                == general_event_record(f.general_events[i], i as u32));
        }
        assert forall|t: int| 0 <= t < f.general_events.len() implies #[trigger] trailer_index(
            general_events@,
            0,
            f.general_events.len() as int,
            t,
        ) < f.general_events.len() && trailer_stop(general_events@, 0, f.general_events.len() as int, t)
            == f.general_events[trailer_index(general_events@, 0, f.general_events.len() as int, t) as int].stop by {
            assert(trailer_index(general_events@, g0.len() as int, f.general_events.len() as int, t)
                < f.general_events.len());
        }
        assert forall|t: int, u: int|
            0 <= t < u < f.general_events.len() implies #[trigger] trailer_index(
            general_events@,
            0,
            f.general_events.len() as int,
            t,
        ) != #[trigger] trailer_index(general_events@, 0, f.general_events.len() as int, u) by {
            assert(trailer_index(general_events@, g0.len() as int, f.general_events.len() as int, t)
                != trailer_index(general_events@, g0.len() as int, f.general_events.len() as int, u));
        }
        assert forall|t: int| 0 <= t < f.general_events.len() - 1 implies !lt(
            #[trigger] trailer_stop(general_events@, 0, f.general_events.len() as int, t + 1),
            trailer_stop(general_events@, 0, f.general_events.len() as int, t),
        ) by {
            assert(!lt(
                trailer_stop(general_events@, g0.len() as int, f.general_events.len() as int, t + 1),
                trailer_stop(general_events@, g0.len() as int, f.general_events.len() as int, t),
            ));
        }
    }

    let mut feature_events: Vec<u8> = Vec::new();
    let ghost fe0 = feature_events@;
    proof {
        assert forall|k: i32| flight@.features.contains_key(k) implies #[trigger] feature_index@.contains_key(k) by {
            assert(flight@.features.dom().contains(k));
            let j = choose|j: int| 0 <= j < mapping.features@.len() && #[trigger] mapping.features@[j].original == k;
            assert(feature_index@.contains_key(mapping.features@[j].original));
        }
    }
    write_feature_events(flight, &mapping.features, &feature_index, &mut feature_events);

    let mut callsigns: Vec<u8> = Vec::new();
    let ghost c0 = callsigns@;
    write_callsigns(flight, &mapping.callsign_ids, &mut callsigns);
    proof {
        assert(c0.len() == 0);
        assert forall|j: int| 0 <= j < mapping.callsign_ids@.len() implies #[trigger] callsign_record_ok(
            callsigns@,
            0,
            j,
            f.callsigns[mapping.callsign_ids@[j]],
        ) by {
            assert(callsign_record_ok(callsigns@, c0.len() as int, j, f.callsigns[mapping.callsign_ids@[j]]));
        }
        let k = mapping.callsign_ids@.len() as u32;
        crate::primitives::lemma_u32_round_trip(k);
        assert(callsigns@ =~= callsigns@.subrange(0, 4) + callsigns@.subrange(4, callsigns@.len() as int));
        lemma_le_u32_append(callsigns@.subrange(0, 4), callsigns@.subrange(4, callsigns@.len() as int), 0);
    }

    proof {
        assert forall|i: int| 0 <= i < f.feature_events.len() implies #[trigger] feature_event_ok(
            feature_events@,
            0,
            i,
            f.feature_events[i],
            mapping.features@,
        ) by {
            assert(fe0.len() == 0);
            assert(feature_event_ok(feature_events@, fe0.len() as int, i, f.feature_events[i], mapping.features@));
        }
        assert forall|j: int| 0 <= j < es.len() implies #[trigger] entities@.subrange(36 * j, 36 * j + 36)
            == entity_record(f, es, j, l.position_offset, l.entity_event_offset) by {
            assert(entities@.subrange(e0.len() + 36 * j, e0.len() + 36 * j + 36) == entity_record(
                f,
                es,
                j,
                header.position_offset as int,
                header.entity_event_offset as int,
            ));
        }
        assert forall|j: int| 0 <= j < es.len() implies #[trigger] le_u32(entities@, 36 * j + 28)
            == l.position_offset + 41 * updates_before(f, es, j) && le_u32(entities@, 36 * j + 32)
            == first_event_offset(f, es, j, l.entity_event_offset) by {
            assert(e0.len() == 0);
            assert(le_u32(entities@, e0.len() + 36 * j + 28) == l.position_offset + 41 * updates_before(f, es, j));
        }
        assert forall|j: int, i: int|
            0 <= j < es.len() && 0 <= i < updates_of(f, es[j].original) implies #[trigger] run_record_ok(
            positions@,
            0,
            l.position_offset,
            updates_before(f, es, j),
            i,
            updates_of(f, es[j].original),
            update_time(f, es[j].original, i),
        ) by {
            lemma_before_monotone(f, es, j + 1, es.len() as int);
            lemma_before_monotone(f, es, 0, j);
            let o = 41 * (updates_before(f, es, j) + i);
            let ent = p1;
            assert(p1.len() == 41 * updates_before(f, es, es.len() as int));
            assert(run_record_ok(
                ent,
                0,
                l.position_offset,
                updates_before(f, es, j),
                i,
                updates_of(f, es[j].original),
                update_time(f, es[j].original, i),
            ));
            assert(positions@ =~= ent + positions@.subrange(ent.len() as int, positions@.len() as int));
            lemma_le_u32_append(ent, positions@.subrange(ent.len() as int, positions@.len() as int), o);
            lemma_le_u32_append(ent, positions@.subrange(ent.len() as int, positions@.len() as int), o + 33);
            lemma_le_u32_append(ent, positions@.subrange(ent.len() as int, positions@.len() as int), o + 37);
        }
        assert forall|j: int, i: int|
            0 <= j < es.len() && 0 <= i < updates_of(f, es[j].original) implies #[trigger] position_body_ok(
            positions@,
            0,
            updates_before(f, es, j),
            i,
            update_at(f, es[j].original, i),
            es,
        ) by {
            lemma_before_monotone(f, es, j + 1, es.len() as int);
            lemma_before_monotone(f, es, 0, j);
            let o = 41 * (updates_before(f, es, j) + i);
            assert(position_body_ok(p1, 0, updates_before(f, es, j), i, update_at(f, es[j].original, i), es));
            assert(positions@ =~= p1 + positions@.subrange(p1.len() as int, positions@.len() as int));
            lemma_subrange_append(p1, positions@.subrange(p1.len() as int, positions@.len() as int), o + 5, o + 33);
            assert(positions@[o + 4] == p1[o + 4]);
        }
    }
    Sections {
        header: head,
        entities,
        features,
        positions,
        entity_events,
        general_events,
        feature_events,
        callsigns,
    }
}

/// Laid end to end, the sections reach each planned offset in turn and end
/// at the planned file length.
pub proof fn lemma_layout_consistent(s: Sections, l: Layout)
    requires
        sections_match(s, l),
    ensures
        80 + s.entities@.len() == l.feature_offset,
        l.feature_offset + s.features@.len() == l.position_offset,
        l.position_offset + s.positions@.len() == l.entity_event_offset,
        l.entity_event_offset + s.entity_events@.len() == l.general_event_offset,
        l.general_event_offset + s.general_events@.len() == l.feature_event_offset,
        l.feature_event_offset + s.feature_events@.len() == l.text_event_offset,
        l.text_event_offset + s.callsigns@.len() == l.file_length,
        s.header@.len() + s.entities@.len() + s.features@.len() + s.positions@.len()
            + s.entity_events@.len() + s.general_events@.len() + s.feature_events@.len()
            + s.callsigns@.len() == l.file_length,
{
}

/// Following next links from the record at absolute offset `off` of a
/// section that starts at absolute offset `base` visits `n` records, the
/// last of which links to 0.
pub open spec fn follows_next(w: Seq<u8>, base: int, off: int, n: nat) -> bool
    decreases n,
{
    if n == 0 {
        false
    } else if n == 1 {
        le_u32(w, off - base + 33) == 0
    } else {
        le_u32(w, off - base + 33) == off + 41 && follows_next(w, base, off + 41, (n - 1) as nat)
    }
}

/// Following previous links from the record at absolute offset `off` visits
/// `n` records, the last of which links to 0.
pub open spec fn follows_prev(w: Seq<u8>, base: int, off: int, n: nat) -> bool
    decreases n,
{
    if n == 0 {
        false
    } else if n == 1 {
        le_u32(w, off - base + 37) == 0
    } else {
        le_u32(w, off - base + 37) == off - 41 && follows_prev(w, base, off - 41, (n - 1) as nat)
    }
}

/// The links of record `i` of a run of `n` starting at record slot `first`.
pub open spec fn links_ok(w: Seq<u8>, base: int, first: int, i: int, n: int) -> bool {
    let g = first + i;
    &&& le_u32(w, 41 * g + 33) == next_link(base, g, i, n)
    &&& le_u32(w, 41 * g + 37) == prev_link(base, g, i)
}

proof fn lemma_follows_next_from(w: Seq<u8>, base: int, first: int, n: int, i: int)
    requires
        0 <= i < n,
        forall|x: int| 0 <= x < n ==> #[trigger] links_ok(w, base, first, x, n),
    ensures
        follows_next(w, base, base + 41 * (first + i), (n - i) as nat),
    decreases n - i,
{
    assert(links_ok(w, base, first, i, n));
    if i + 1 < n {
        lemma_follows_next_from(w, base, first, n, i + 1);
        assert(base + 41 * (first + i) + 41 == base + 41 * (first + i + 1));
    }
}

proof fn lemma_follows_prev_from(w: Seq<u8>, base: int, first: int, n: int, i: int)
    requires
        0 <= i < n,
        forall|x: int| 0 <= x < n ==> #[trigger] links_ok(w, base, first, x, n),
    ensures
        follows_prev(w, base, base + 41 * (first + i), (i + 1) as nat),
    decreases i,
{
    assert(links_ok(w, base, first, i, n));
    if i > 0 {
        lemma_follows_prev_from(w, base, first, n, i - 1);
        assert(base + 41 * (first + i) - 41 == base + 41 * (first + i - 1));
    }
}

/// A run of `n >= 1` linked records: from its head, next links visit all `n`
/// and end at 0; from its last record, previous links visit the same `n`
/// and end at 0.
pub proof fn lemma_doubly_linked(w: Seq<u8>, base: int, first: int, n: int)
    requires
        n >= 1,
        forall|x: int| 0 <= x < n ==> #[trigger] links_ok(w, base, first, x, n),
    ensures
        follows_next(w, base, base + 41 * first, n as nat),
        follows_prev(w, base, base + 41 * (first + n - 1), n as nat),
{
    lemma_follows_next_from(w, base, first, n, 0);
    lemma_follows_prev_from(w, base, first, n, n - 1);
}

/// The position run of every entity of a written file is doubly linked,
/// starting at the head its entity record names.
pub proof fn lemma_position_runs_linked(
    f: FlightView,
    es: Seq<IdRemap>,
    l: Layout,
    positions: Seq<u8>,
    entities: Seq<u8>,
    j: int,
)
    requires
        0 <= j < es.len(),
        updates_of(f, es[j].original) >= 1,
        le_u32(entities, 36 * j + 28) == l.position_offset + 41 * updates_before(f, es, j),
        forall|jj: int, i: int|
            0 <= jj < es.len() && 0 <= i < updates_of(f, es[jj].original) ==> #[trigger] run_record_ok(
                positions,
                0,
                l.position_offset,
                updates_before(f, es, jj),
                i,
                updates_of(f, es[jj].original),
                update_time(f, es[jj].original, i),
            ),
    ensures
        follows_next(
            positions,
            l.position_offset,
            le_u32(entities, 36 * j + 28) as int,
            updates_of(f, es[j].original) as nat,
        ),
        follows_prev(
            positions,
            l.position_offset,
            l.position_offset + 41 * (updates_before(f, es, j) + updates_of(f, es[j].original) - 1),
            updates_of(f, es[j].original) as nat,
        ),
{
    let n = updates_of(f, es[j].original);
    let first = updates_before(f, es, j);
    assert forall|x: int| 0 <= x < n implies #[trigger] links_ok(
        positions,
        l.position_offset,
        first,
        x,
        n,
    ) by {
        assert(run_record_ok(
            positions,
            0,
            l.position_offset,
            first,
            x,
            n,
            update_time(f, es[j].original, x),
        ));
    }
    lemma_doubly_linked(positions, l.position_offset, first, n);
}

/// Callsign packing in a written file: an entity or feature whose output id
/// is below the number of callsign records finds its own callsign at that
/// index; one whose output id is not below it has no callsign.
pub proof fn lemma_callsign_packing(
    f: FlightView,
    cs: Map<i32, crate::flight::CallsignRecord>,
    remaps: Seq<IdRemap>,
    dom: Set<i32>,
    callsign_ids: Seq<i32>,
    callsign_section: Seq<u8>,
)
    requires
        covers(remaps, dom, cs, callsign_ids),
        f.callsigns == cs.map_values(|c: crate::flight::CallsignRecord| c@),
        forall|j: int|
            0 <= j < callsign_ids.len() ==> #[trigger] callsign_record_ok(
                callsign_section,
                0,
                j,
                f.callsigns[callsign_ids[j]],
            ),
    ensures
        forall|x: int|
            0 <= x < remaps.len() && #[trigger] remaps[x].new < callsign_ids.len() ==> callsign_record_ok(
                callsign_section,
                0,
                remaps[x].new as int,
                f.callsigns[remaps[x].original],
            ) && f.callsigns.contains_key(remaps[x].original),
        forall|x: int|
            0 <= x < remaps.len() && #[trigger] remaps[x].new >= callsign_ids.len()
                ==> !f.callsigns.contains_key(remaps[x].original),
{
    assert forall|x: int|
        0 <= x < remaps.len() && #[trigger] remaps[x].new < callsign_ids.len() implies callsign_record_ok(
        callsign_section,
        0,
        remaps[x].new as int,
        f.callsigns[remaps[x].original],
    ) && f.callsigns.contains_key(remaps[x].original) by {
        let j = remaps[x].new as int;
        assert(callsign_ids[j] == remaps[x].original);
        assert(callsign_record_ok(callsign_section, 0, j, f.callsigns[callsign_ids[j]]));
    }
}

} // verus!
