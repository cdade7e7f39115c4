use flt2vhs::flight::{CallsignRecord, EntityEventPayload, Flight, Point};
use flt2vhs::naming::output_name;
use flt2vhs::primitives::{read_f32, read_i32, read_u32, read_u8, write_f32, write_i32, write_u32, write_u8, ShortRead};
use flt2vhs::remap::IdMapping;
use flt2vhs::vhs::{write_sections, Header, Sections};

fn plus(a: u32, b: u32) -> u32 {
    (f32::from_bits(a) + f32::from_bits(b)).to_bits()
}

fn minus(a: u32, b: u32) -> u32 {
    (f32::from_bits(a) - f32::from_bits(b)).to_bits()
}

fn distance(p: Point, q: Point) -> u32 {
    let dx = f32::from_bits(p.x) - f32::from_bits(q.x);
    let dy = f32::from_bits(p.y) - f32::from_bits(q.y);
    let dz = f32::from_bits(p.z) - f32::from_bits(q.z);
    (dx * dx + dy * dy + dz * dz).sqrt().to_bits()
}

fn bits(f: f32) -> u32 {
    f.to_bits()
}

fn push_i32(v: &mut Vec<u8>, x: i32) {
    v.extend_from_slice(&x.to_le_bytes());
}

fn push_u32(v: &mut Vec<u8>, x: u32) {
    v.extend_from_slice(&x.to_le_bytes());
}

fn push_f32(v: &mut Vec<u8>, x: f32) {
    v.extend_from_slice(&x.to_le_bytes());
}

fn header(v: &mut Vec<u8>, disc: u8, time: f32) {
    v.push(disc);
    push_f32(v, time);
}

/// A position record of discriminant `disc` (3 adds the radar target).
fn position(v: &mut Vec<u8>, disc: u8, time: f32, kind: i32, uid: i32, xyz: (f32, f32, f32), radar: i32) {
    header(v, disc, time);
    push_i32(v, kind);
    push_i32(v, uid);
    push_f32(v, xyz.0);
    push_f32(v, xyz.1);
    push_f32(v, xyz.2);
    push_f32(v, 0.0);
    push_f32(v, 0.0);
    push_f32(v, 0.0);
    if disc == 3 {
        push_i32(v, radar);
    }
}

fn feature(v: &mut Vec<u8>, time: f32, kind: i32, uid: i32, lead: i32, x: f32) {
    header(v, 2, time);
    push_i32(v, kind);
    push_i32(v, uid);
    push_i32(v, lead);
    push_i32(v, 0);
    push_u32(v, 0);
    push_f32(v, x);
    push_f32(v, 0.0);
    push_f32(v, 0.0);
    push_f32(v, 0.0);
    push_f32(v, 0.0);
    push_f32(v, 0.0);
}

fn callsign_list(v: &mut Vec<u8>, time: f32, records: &[([u8; 16], i32)]) {
    header(v, 13, time);
    push_i32(v, records.len() as i32);
    for (label, team) in records {
        v.extend_from_slice(label);
        push_i32(v, *team);
    }
}

fn label(s: &str) -> [u8; 16] {
    let mut l = [0u8; 16];
    l[..s.len()].copy_from_slice(s.as_bytes());
    l
}

fn parse(bytes: &[u8]) -> Flight {
    Flight::parse(bytes, &plus)
}

fn convert(f: &Flight) -> (IdMapping, Header, Sections) {
    let m = IdMapping::new(f);
    let h = Header::new(f, &m).expect("fits in 32 bits");
    let s = write_sections(f, &m, &h, &minus);
    (m, h, s)
}

fn file(s: &Sections) -> Vec<u8> {
    let mut out = Vec::new();
    for part in [
        &s.header,
        &s.entities,
        &s.features,
        &s.positions,
        &s.entity_events,
        &s.general_events,
        &s.feature_events,
        &s.callsigns,
    ] {
        out.extend_from_slice(part);
    }
    out
}

fn u32_at(b: &[u8], at: usize) -> u32 {
    u32::from_le_bytes([b[at], b[at + 1], b[at + 2], b[at + 3]])
}

fn i32_at(b: &[u8], at: usize) -> i32 {
    u32_at(b, at) as i32
}

#[test]
fn empty_input() {
    let f = parse(&[]);
    assert!(f.entities.is_empty());
    assert!(f.features.is_empty());
    assert!(!f.corrupted);
    let (_m, h, s) = convert(&f);
    assert_eq!(h.file_length, 84);
    let bytes = file(&s);
    assert_eq!(bytes.len(), 84);
    assert_eq!(&bytes[0..4], &[0x45, 0x50, 0x41, 0x54]);
    assert_eq!(u32_at(&bytes, 8), 0);
    assert_eq!(u32_at(&bytes, 12), 0);
    assert_eq!(u32_at(&bytes, 80), 0);
}

#[test]
fn single_aircraft_position() {
    let mut v = Vec::new();
    position(&mut v, 3, 10.0, 1, 42, (0.0, 0.0, 0.0), -1);
    let f = parse(&v);
    assert!(!f.corrupted);
    assert_eq!(f.entities.len(), 1);
    let e = &f.entities[&42];
    let pd = e.position_data.as_ref().unwrap();
    assert_eq!(pd.position_updates.len(), 1);
    assert_eq!(pd.flags, 4);
    assert_eq!(pd.position_updates[0].time, bits(10.0));
    assert_eq!(pd.position_updates[0].radar_target, -1);
    let (_m, h, s) = convert(&f);
    assert_eq!(h.file_length, 80 + 36 + 41 + 4);
    assert_eq!(file(&s).len(), 80 + 36 + 41 + 4);
}

#[test]
fn two_positions_and_callsign() {
    let mut v = Vec::new();
    position(&mut v, 3, 10.0, 1, 42, (0.0, 0.0, 0.0), -1);
    position(&mut v, 3, 11.0, 1, 42, (1.0, 0.0, 0.0), -1);
    let mut records = vec![([0u8; 16], 0); 43];
    records[42] = (label("FOO"), 2);
    callsign_list(&mut v, 11.0, &records);
    let f = parse(&v);
    assert!(!f.corrupted);
    assert_eq!(f.callsigns.len(), 1);
    assert_eq!(f.callsigns[&42].team_color, 2);
    let (m, h, s) = convert(&f);
    assert_eq!(m.entities[0].original, 42);
    assert_eq!(m.entities[0].new, 0);
    assert_eq!(m.callsign_ids, vec![42]);
    // entity record: id 0, head of its two positions
    assert_eq!(i32_at(&s.entities, 0), 0);
    assert_eq!(u32_at(&s.entities, 28), h.position_offset);
    // chained positions
    assert_eq!(u32_at(&s.positions, 33), h.position_offset + 41);
    assert_eq!(u32_at(&s.positions, 37), 0);
    assert_eq!(u32_at(&s.positions, 41 + 33), 0);
    assert_eq!(u32_at(&s.positions, 41 + 37), h.position_offset);
    // one callsign record
    assert_eq!(u32_at(&s.callsigns, 0), 1);
    assert_eq!(&s.callsigns[4..7], b"FOO");
    assert_eq!(i32_at(&s.callsigns, 20), 2);
    assert_eq!(s.callsigns.len(), 24);
}

#[test]
fn truncated_second_record() {
    let mut v = Vec::new();
    position(&mut v, 3, 10.0, 1, 42, (0.0, 0.0, 0.0), -1);
    header(&mut v, 3, 11.0);
    v.push(0);
    let f = parse(&v);
    assert!(f.corrupted);
    assert_eq!(f.entities.len(), 1);
    assert_eq!(f.entities[&42].position_data.as_ref().unwrap().position_updates.len(), 1);
    let (_m, h, s) = convert(&f);
    assert_eq!(file(&s).len() as u32, h.file_length);
}

fn flight_with_aircraft(uid: i32, times: &[f32], xyz: (f32, f32, f32)) -> Flight {
    let mut v = Vec::new();
    header(&mut v, 11, 5.0);
    for t in times {
        position(&mut v, 3, *t, 1, uid, xyz, -1);
    }
    parse(&v)
}

#[test]
fn merge_matches_nearby_entity() {
    let mut a = flight_with_aircraft(7, &[90.0, 100.0], (0.0, 0.0, 0.0));
    let b = flight_with_aircraft(9, &[100.5, 101.0], (100.0, 0.0, 0.0));
    assert_eq!(a.end_time, bits(100.0));
    assert_eq!(b.start_time, bits(100.5));
    assert!(a.merge(&b, &minus, &distance));
    assert_eq!(a.entities.len(), 1);
    assert!(!a.entities.contains_key(&9));
    let updates = &a.entities[&7].position_data.as_ref().unwrap().position_updates;
    assert_eq!(updates.len(), 4);
    assert_eq!(updates[2].x, bits(100.0));
    assert_eq!(a.end_time, bits(101.0));
}

#[test]
fn merge_far_entity_gets_fresh_id() {
    let mut a = flight_with_aircraft(7, &[90.0, 100.0], (0.0, 0.0, 0.0));
    let b = flight_with_aircraft(9, &[100.5], (10000.0, 0.0, 0.0));
    assert!(a.merge(&b, &minus, &distance));
    assert_eq!(a.entities.len(), 2);
    assert!(a.entities.contains_key(&7));
    assert!(a.entities.contains_key(&8));
    assert_eq!(a.entities[&7].position_data.as_ref().unwrap().position_updates.len(), 2);
}

#[test]
fn merge_refused_when_gap_too_wide() {
    let mut a = flight_with_aircraft(7, &[90.0, 100.0], (0.0, 0.0, 0.0));
    let before = a.clone();
    let b = flight_with_aircraft(9, &[102.0], (0.0, 0.0, 0.0));
    assert!(!a.merge(&b, &minus, &distance));
    assert_eq!(a, before);
}

#[test]
fn merge_refused_when_left_corrupted() {
    let mut a = flight_with_aircraft(7, &[90.0, 100.0], (0.0, 0.0, 0.0));
    a.corrupted = true;
    let before = a.clone();
    let b = flight_with_aircraft(9, &[100.5], (0.0, 0.0, 0.0));
    assert!(!a.merge(&b, &minus, &distance));
    assert_eq!(a, before);
}

#[test]
fn tracer_and_sound_trailers() {
    let mut v = Vec::new();
    header(&mut v, 4, 3.0);
    for _ in 0..6 {
        push_f32(&mut v, 0.0);
    }
    header(&mut v, 5, 4.0);
    push_i32(&mut v, 7);
    push_f32(&mut v, 0.0);
    push_f32(&mut v, 0.0);
    push_f32(&mut v, 0.0);
    push_f32(&mut v, 2.0);
    push_f32(&mut v, 1.0);
    let f = parse(&v);
    assert_eq!(f.general_events.len(), 2);
    assert_eq!(f.general_events[0].stop, bits(8.0));
    assert_eq!(f.general_events[1].stop, bits(6.0));
    let (_m, _h, s) = convert(&f);
    assert_eq!(s.general_events.len(), 2 * 65 + 2 * 8);
    let t = 2 * 65;
    assert_eq!(u32_at(&s.general_events, t), bits(6.0));
    assert_eq!(u32_at(&s.general_events, t + 4), 1);
    assert_eq!(u32_at(&s.general_events, t + 8), bits(8.0));
    assert_eq!(u32_at(&s.general_events, t + 12), 0);
}

#[test]
fn primitives_round_trip() {
    let mut w = Vec::new();
    write_u32(0xDEAD_BEEF, &mut w);
    write_i32(-123456, &mut w);
    write_f32(bits(-1.5), &mut w);
    write_u8(7, &mut w);
    assert_eq!(w.len(), 13);
    let mut pos = 0usize;
    assert_eq!(read_u32(&w, &mut pos), Ok(0xDEAD_BEEF));
    assert_eq!(read_i32(&w, &mut pos), Ok(-123456));
    assert_eq!(read_f32(&w, &mut pos), Ok(bits(-1.5)));
    assert_eq!(read_u8(&w, &mut pos), Ok(7));
    assert_eq!(pos, 13);
    assert_eq!(read_u8(&w, &mut pos), Err(ShortRead));
    let mut p2 = 11usize;
    assert_eq!(read_u32(&w, &mut p2), Err(ShortRead));
    assert_eq!(p2, 11);
}

#[test]
fn parse_is_deterministic() {
    let mut v = Vec::new();
    position(&mut v, 1, 1.0, 3, 5, (1.0, 2.0, 3.0), -1);
    feature(&mut v, 1.5, 4, 6, -1, 9.0);
    position(&mut v, 0, 2.0, 3, 5, (2.0, 2.0, 3.0), -1);
    assert_eq!(parse(&v), parse(&v));
}

#[test]
fn entities_without_positions_are_dropped() {
    let mut v = Vec::new();
    header(&mut v, 7, 1.0);
    for x in [1, 77, 3, 1, 0] {
        push_i32(&mut v, x);
    }
    position(&mut v, 0, 2.0, 3, 5, (0.0, 0.0, 0.0), -1);
    header(&mut v, 8, 3.0);
    push_i32(&mut v, 1);
    push_i32(&mut v, 5);
    push_i32(&mut v, 9);
    push_f32(&mut v, 0.5);
    push_f32(&mut v, 0.25);
    let f = parse(&v);
    assert_eq!(f.entities.len(), 1);
    assert!(!f.entities.contains_key(&77));
    let e = &f.entities[&5];
    assert_eq!(e.events.len(), 1);
    match e.events[0].payload {
        EntityEventPayload::DofEvent(d) => {
            assert_eq!(d.dof_number, 9);
            assert_eq!(d.new_dof_value, bits(0.5));
        }
        _ => panic!("expected a DOF event"),
    }
    for (_, e) in &f.entities {
        assert!(!e.position_data.as_ref().unwrap().position_updates.is_empty());
    }
}

#[test]
fn time_bounds_ordered() {
    let mut v = Vec::new();
    header(&mut v, 11, 50.0);
    position(&mut v, 0, 7.0, 3, 5, (0.0, 0.0, 0.0), -1);
    position(&mut v, 0, 3.0, 3, 5, (0.0, 0.0, 0.0), -1);
    position(&mut v, 0, 9.0, 3, 5, (0.0, 0.0, 0.0), -1);
    let f = parse(&v);
    assert_eq!(f.tod_offset, bits(50.0));
    assert_eq!(f.start_time, bits(7.0));
    assert_eq!(f.end_time, bits(9.0));
    assert!(f32::from_bits(f.start_time) <= f32::from_bits(f.end_time));
}

#[test]
fn duplicate_feature_keeps_first_definition() {
    let mut v = Vec::new();
    feature(&mut v, 1.0, 4, 6, -1, 9.0);
    let first = parse(&v);
    feature(&mut v, 2.0, 4, 6, -1, 9.0);
    feature(&mut v, 3.0, 4, 6, -1, 12.0);
    let f = parse(&v);
    assert_eq!(f.features, first.features);
    assert_eq!(f.features[&6].time, bits(1.0));
}

#[test]
fn feature_status_for_unknown_feature_is_dropped() {
    let mut v = Vec::new();
    feature(&mut v, 1.0, 4, 6, -1, 9.0);
    header(&mut v, 12, 2.0);
    push_i32(&mut v, 6);
    push_i32(&mut v, 1);
    push_i32(&mut v, 0);
    header(&mut v, 12, 3.0);
    push_i32(&mut v, 99);
    push_i32(&mut v, 1);
    push_i32(&mut v, 0);
    let f = parse(&v);
    assert_eq!(f.feature_events.len(), 1);
    assert_eq!(f.feature_events[0].feature_uid, 6);
    let (_m, h, s) = convert(&f);
    assert_eq!(s.feature_events.len(), 16);
    assert_eq!(i32_at(&s.feature_events, 4), 0);
    assert_eq!(file(&s).len() as u32, h.file_length);
}

#[test]
fn unknown_discriminant_marks_corrupted() {
    let mut v = Vec::new();
    position(&mut v, 0, 2.0, 3, 5, (0.0, 0.0, 0.0), -1);
    header(&mut v, 14, 8.0);
    position(&mut v, 0, 9.0, 3, 6, (0.0, 0.0, 0.0), -1);
    let f = parse(&v);
    assert!(f.corrupted);
    assert_eq!(f.entities.len(), 1);
    assert_eq!(f.end_time, bits(8.0));
}

#[test]
fn negative_callsign_count_marks_corrupted() {
    let mut v = Vec::new();
    position(&mut v, 0, 2.0, 3, 5, (0.0, 0.0, 0.0), -1);
    header(&mut v, 13, 3.0);
    push_i32(&mut v, -1);
    let f = parse(&v);
    assert!(f.corrupted);
    assert!(f.callsigns.is_empty());
    assert_eq!(f.entities.len(), 1);
}

#[test]
fn short_timestamp_marks_corrupted() {
    let v = vec![0u8, 1, 2];
    let f = parse(&v);
    assert!(f.corrupted);
    assert_eq!(f.start_time, 0xFF80_0000);
}

#[test]
fn merge_with_empty_flight_keeps_content() {
    let mut a = flight_with_aircraft(7, &[90.0, 100.0], (0.0, 0.0, 0.0));
    let before = a.clone();
    let b = parse(&[]);
    assert!(a.merge(&b, &minus, &distance));
    assert_eq!(a.entities, before.entities);
    assert_eq!(a.features, before.features);
    assert_eq!(a.callsigns, before.callsigns);
    assert_eq!(a.general_events, before.general_events);
}

#[test]
fn merge_keeps_left_ids() {
    let mut v = Vec::new();
    position(&mut v, 3, 99.0, 1, 3, (0.0, 0.0, 0.0), -1);
    position(&mut v, 1, 100.0, 2, 4, (50.0, 0.0, 0.0), 3);
    feature(&mut v, 100.0, 8, 20, -1, 1.0);
    let mut a = parse(&v);
    let mut w = Vec::new();
    position(&mut w, 3, 100.2, 1, 11, (20.0, 0.0, 0.0), 12);
    position(&mut w, 3, 100.3, 1, 12, (0.0, 0.0, 5.0), -1);
    feature(&mut w, 100.3, 8, 30, -1, 1.0);
    feature(&mut w, 100.3, 8, 31, 30, 2.0);
    header(&mut w, 12, 100.4);
    push_i32(&mut w, 31);
    push_i32(&mut w, 2);
    push_i32(&mut w, 1);
    let b = parse(&w);
    assert!(a.merge(&b, &minus, &distance));
    for id in [3, 4] {
        assert!(a.entities.contains_key(&id));
    }
    assert!(a.features.contains_key(&20));
    // 11 is bound first (key order) and takes 3; 12 finds no unused
    // aircraft and gets a fresh id.
    assert_eq!(a.entities.len(), 3);
    // feature 30 matches 20; feature 31 is new and leads to 20
    assert_eq!(a.features.len(), 2);
    let new_feature = a.features.iter().find(|(k, _)| **k != 20).unwrap().1;
    assert_eq!(new_feature.lead_uid, 20);
    assert_eq!(a.feature_events.len(), 1);
    assert!(a.features.contains_key(&a.feature_events[0].feature_uid));
}

#[test]
fn sections_fill_planned_layout() {
    let mut v = Vec::new();
    position(&mut v, 3, 1.0, 1, 42, (0.0, 0.0, 0.0), 43);
    position(&mut v, 9, 1.0, 2, 43, (0.0, 0.0, 0.0), -1);
    position(&mut v, 3, 2.0, 1, 42, (0.0, 0.0, 0.0), 43);
    feature(&mut v, 1.0, 4, 6, -1, 9.0);
    header(&mut v, 7, 2.0);
    for x in [1, 42, 3, 1, 0] {
        push_i32(&mut v, x);
    }
    let f = parse(&v);
    let (_m, h, s) = convert(&f);
    assert_eq!(80 + s.entities.len() as u32, h.feature_offset);
    assert_eq!(h.feature_offset + s.features.len() as u32, h.position_offset);
    assert_eq!(h.position_offset + s.positions.len() as u32, h.entity_event_offset);
    assert_eq!(h.entity_event_offset + s.entity_events.len() as u32, h.general_event_offset);
    assert_eq!(h.general_event_offset + s.general_events.len() as u32, h.feature_event_offset);
    assert_eq!(h.feature_event_offset + s.feature_events.len() as u32, h.text_event_offset);
    assert_eq!(h.text_event_offset + s.callsigns.len() as u32, h.file_length);
    let bytes = file(&s);
    assert_eq!(bytes.len() as u32, h.file_length);
    assert_eq!(u32_at(&bytes, 4), h.text_event_offset);
    assert_eq!(h.position_count, 4);
    // entity 42 has one event, 43 none
    assert_eq!(u32_at(&s.entities, 32), h.entity_event_offset);
    assert_eq!(u32_at(&s.entities, 36 + 32), 0);
    // per-kind ordinals count from 1
    assert_eq!(i32_at(&s.entities, 8), 1);
    // radar target 43 written as its output id
    assert_eq!(i32_at(&s.positions, 29), 1);
    // the feature's position comes after the three entity positions
    assert_eq!(u32_at(&s.features, 28), h.position_offset + 3 * 41);
    assert_eq!(u32_at(&s.features, 12), 2);
    assert_eq!(i32_at(&s.features, 16), -1);
}

#[test]
fn callsign_ids_come_first() {
    let mut v = Vec::new();
    position(&mut v, 0, 1.0, 1, 1, (0.0, 0.0, 0.0), -1);
    position(&mut v, 0, 1.0, 1, 2, (0.0, 0.0, 0.0), -1);
    feature(&mut v, 1.0, 4, 0, -1, 9.0);
    let mut records = vec![([0u8; 16], 0); 3];
    records[2] = (label("B"), 1);
    records[0] = (label("F"), 2);
    callsign_list(&mut v, 2.0, &records);
    let f = parse(&v);
    let m = IdMapping::new(&f);
    assert_eq!(m.callsign_ids, vec![2, 0]);
    let k = m.callsign_ids.len() as i32;
    for r in m.entities.iter().chain(m.features.iter()) {
        assert_eq!(r.new < k, f.callsigns.contains_key(&r.original));
    }
    assert_eq!(m.entities[0].original, 2);
    assert_eq!(m.entities[0].new, 0);
    assert_eq!(m.features[0].new, 1);
    assert_eq!(m.entities[1].original, 1);
    assert_eq!(m.entities[1].new, 2);
}

#[test]
fn callsign_record_reads_label_and_color() {
    let mut v = Vec::new();
    v.extend_from_slice(&label("VIPER1"));
    push_i32(&mut v, 3);
    let mut pos = 0usize;
    let c = CallsignRecord::read(&v, &mut pos).unwrap();
    assert_eq!(&c.label[..6], b"VIPER1");
    assert_eq!(c.team_color, 3);
    assert_eq!(pos, 20);
    assert!(!c.is_blank());
    let blank = CallsignRecord { label: [0; 16], team_color: 0 };
    assert!(blank.is_blank());
}

#[test]
fn output_name_replaces_all_extensions() {
    assert_eq!(output_name(b"acmi0001.flt"), b"acmi0001.vhs".to_vec());
    assert_eq!(output_name(b"a.b.flt"), b"a.vhs".to_vec());
    assert_eq!(output_name(b"noext"), b"noext.vhs".to_vec());
}

#[test]
fn header_play_time_uses_subtraction() {
    let mut v = Vec::new();
    position(&mut v, 0, 2.0, 3, 5, (0.0, 0.0, 0.0), -1);
    position(&mut v, 0, 7.5, 3, 5, (0.0, 0.0, 0.0), -1);
    let f = parse(&v);
    let (_m, _h, s) = convert(&f);
    assert_eq!(u32_at(&s.header, 68), bits(2.0));
    assert_eq!(u32_at(&s.header, 72), bits(5.5));
}

#[test]
fn unknown_radar_target_written_as_minus_one() {
    let mut v = Vec::new();
    position(&mut v, 3, 1.0, 1, 42, (0.0, 0.0, 0.0), 77);
    let f = parse(&v);
    assert_eq!(f.entities[&42].position_data.as_ref().unwrap().position_updates[0].radar_target, 77);
    let (_m, _h, s) = convert(&f);
    assert_eq!(i32_at(&s.positions, 29), -1);
}

#[test]
fn feature_lead_written_as_output_id() {
    let mut v = Vec::new();
    feature(&mut v, 1.0, 4, 5, -1, 1.0);
    feature(&mut v, 1.0, 4, 6, 5, 2.0);
    position(&mut v, 0, 1.0, 1, 3, (0.0, 0.0, 0.0), -1);
    let f = parse(&v);
    let (m, h, s) = convert(&f);
    // entity 3 takes output id 0; features 5 and 6 take 1 and 2
    assert_eq!(m.features[0].original, 5);
    assert_eq!(m.features[0].new, 1);
    assert_eq!(i32_at(&s.features, 0), 1);
    assert_eq!(i32_at(&s.features, 16), -1);
    assert_eq!(i32_at(&s.features, 36), 2);
    assert_eq!(i32_at(&s.features, 36 + 16), 1);
    // feature positions follow the single entity position
    assert_eq!(u32_at(&s.features, 36 + 28), h.position_offset + 2 * 41);
    assert_eq!(i32_at(&s.positions, 41 + 29), -1);
}

#[test]
fn merge_moves_callsign_and_events_to_fresh_entity() {
    let mut a = flight_with_aircraft(7, &[90.0, 100.0], (0.0, 0.0, 0.0));
    let mut w = Vec::new();
    position(&mut w, 3, 100.5, 1, 2, (9000.0, 0.0, 0.0), 2);
    header(&mut w, 7, 100.6);
    for x in [1, 2, 4, 1, 0] {
        push_i32(&mut w, x);
    }
    let mut records = vec![([0u8; 16], 0); 3];
    records[2] = (label("BANDIT"), 3);
    callsign_list(&mut w, 100.7, &records);
    let b = parse(&w);
    assert!(a.merge(&b, &minus, &distance));
    // fresh id: one more than the largest id of the earlier flight
    let e = &a.entities[&8];
    assert_eq!(e.events.len(), 1);
    let pd = e.position_data.as_ref().unwrap();
    assert_eq!(pd.flags, 4);
    // its radar target (itself, uid 2) is rebound to its new id
    assert_eq!(pd.position_updates[0].radar_target, 8);
    assert_eq!(a.callsigns[&8].team_color, 3);
    assert_eq!(a.entities[&7].events.len(), 0);
}
