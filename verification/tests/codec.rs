use canmatrix::arxml_bean::{Frame, Pdu, Signal};
use canmatrix::bits::bytearray_to_binary_string;
use canmatrix::codec::{last_values, Fault};

fn signal(name: &str, start: i32, size: i32) -> Signal {
    Signal {
        name: Some(name.to_string()),
        start_bit: Some(start),
        size: Some(size),
        is_little_endian: None,
        is_ascii: None,
        is_float: None,
        is_multiplexer: None,
        max: None,
        min: None,
        initial_value: None,
        values: None,
        cycle_time: None,
        comment: None,
        comments: None,
        offset: None,
        factor: None,
        unit: None,
    }
}

fn pdu(name: &str, id: i32, size: i32, signals: Vec<Signal>) -> Pdu {
    Pdu {
        name: Some(name.to_string()),
        cycle_time: None,
        id: Some(id),
        size: Some(size),
        triggering_name: None,
        pdu_type: None,
        port_type: None,
        signals: Some(signals),
    }
}

fn plain_frame(length: i32, signals: Vec<Signal>) -> Frame {
    Frame {
        name: Some("F".to_string()),
        id: Some(0x100),
        extended: Some(false),
        length: Some(length),
        cycle_time: Some(100),
        is_fd: Some(false),
        is_multiplexed: Some(false),
        is_pdu_container: Some(false),
        is_j1939: Some(false),
        pdu_name: None,
        pdus: None,
        signals: Some(signals),
    }
}

fn container_frame(pdus: Vec<Pdu>) -> Frame {
    Frame {
        name: Some("C".to_string()),
        id: Some(0x200),
        extended: Some(false),
        length: Some(64),
        cycle_time: Some(10),
        is_fd: Some(true),
        is_multiplexed: Some(false),
        is_pdu_container: Some(true),
        is_j1939: Some(false),
        pdu_name: None,
        pdus: Some(pdus),
        signals: None,
    }
}

fn entries(v: &[(String, i32)]) -> Vec<(&str, i32)> {
    v.iter().map(|(n, x)| (n.as_str(), *x)).collect()
}

#[test]
fn binary_string_of_bytes() {
    assert_eq!(bytearray_to_binary_string(&[0xA5, 0x01]), "1010010100000001");
    assert_eq!(bytearray_to_binary_string(&[]), "");
    assert_eq!(bytearray_to_binary_string(&[0xFF]), "11111111");
}

#[test]
fn decode_plain_frame() {
    let f = plain_frame(2, vec![signal("A", 0, 8), signal("B", 8, 4), signal("C", 12, 4)]);
    let r = f.decode(&[0x12, 0x34]).unwrap();
    assert_eq!(entries(&r), vec![("A", 0x12), ("B", 3), ("C", 4)]);
}

#[test]
fn decode_field_past_end_is_none() {
    let f = plain_frame(1, vec![signal("A", 0, 8), signal("B", 4, 8)]);
    assert_eq!(f.decode(&[0xFF]), None);
    assert_eq!(f.try_decode(&[0xFF]), Ok(None));
}

#[test]
fn decode_without_container_flag_is_empty() {
    let mut f = plain_frame(1, vec![signal("A", 0, 8)]);
    f.is_pdu_container = None;
    assert_eq!(f.decode(&[0xFF]), Some(vec![]));
}

#[test]
fn decode_faults() {
    let f = plain_frame(1, vec![signal("A", 0, 0)]);
    assert_eq!(f.try_decode(&[0xFF]), Err(Fault));
    let mut s = signal("A", 0, 8);
    s.name = None;
    assert_eq!(plain_frame(1, vec![s]).try_decode(&[1]), Err(Fault));
    let big = plain_frame(5, vec![signal("A", 0, 32)]);
    assert_eq!(big.try_decode(&[0x80, 0, 0, 0, 0]), Err(Fault));
    assert_eq!(
        entries(&big.try_decode(&[0x7F, 0xFF, 0xFF, 0xFF, 0]).unwrap().unwrap()),
        vec![("A", i32::MAX)]
    );
}

#[test]
fn encode_plain_frame() {
    let f = plain_frame(2, vec![signal("A", 0, 8), signal("B", 8, 4), signal("C", 12, 4)]);
    let out = f.encode(vec![("A".to_string(), 0x12), ("B".to_string(), 3)]);
    assert_eq!(out, Some(vec![0x12, 0x30]));
}

#[test]
fn encode_wide_value_spills_over() {
    let f = plain_frame(1, vec![signal("A", 0, 2)]);
    // 5 is "101": three digits written from bit 0 though the field has two.
    assert_eq!(f.encode(vec![("A".to_string(), 5)]), Some(vec![0b1010_0000]));
}

#[test]
fn encode_skips_field_outside_frame() {
    let f = plain_frame(1, vec![signal("A", 4, 8), signal("B", 0, 4)]);
    assert_eq!(f.encode(vec![("A".to_string(), 0xFF), ("B".to_string(), 1)]), Some(vec![0x10]));
}

#[test]
fn encode_faults_and_none() {
    let mut f = plain_frame(1, vec![signal("A", 0, 8)]);
    f.is_pdu_container = None;
    assert_eq!(f.encode(vec![("A".to_string(), 1)]), None);
    let g = plain_frame(1, vec![signal("A", 0, -1)]);
    assert_eq!(g.try_encode(vec![("A".to_string(), 1)]), Err(Fault));
    let mut h = plain_frame(1, vec![signal("A", 0, 8)]);
    h.length = None;
    assert_eq!(h.try_encode(vec![]), Err(Fault));
}

#[test]
fn plain_roundtrip() {
    let f = plain_frame(3, vec![signal("A", 0, 5), signal("B", 5, 11), signal("C", 16, 8)]);
    let bytes = f.encode(vec![("A".to_string(), 17), ("C".to_string(), 200)]).unwrap();
    assert_eq!(bytes.len(), 3);
    let r = f.decode(&bytes).unwrap();
    assert_eq!(entries(&r), vec![("A", 17), ("B", 0), ("C", 200)]);
}

#[test]
fn unpack_pdu_reads_binary_string() {
    let f = container_frame(vec![pdu("P", 7, 1, vec![signal("X", 0, 3), signal("Y", 3, 5)])]);
    let r = f.unpack_pdu(&7, &"10100001".to_string()).unwrap();
    assert_eq!(entries(&r), vec![("X", 5), ("Y", 1)]);
    assert_eq!(f.unpack_pdu(&8, &"10100001".to_string()), None);
    assert_eq!(f.unpack_pdu(&7, &"1010x001".to_string()), None);
    assert_eq!(f.unpack_pdu(&7, &"101".to_string()), None);
}

#[test]
fn unpack_pdu_without_pdus_is_empty() {
    let f = plain_frame(1, vec![]);
    assert_eq!(f.unpack_pdu(&1, &"1".to_string()), Some(vec![]));
}

#[test]
fn unpack_pdu_not_on_char_boundary_faults() {
    let f = container_frame(vec![pdu("P", 7, 1, vec![signal("X", 1, 1)])]);
    assert_eq!(f.try_unpack_pdu(&7, &"é1".to_string()), Err(Fault));
    let g = container_frame(vec![pdu("P", 7, 1, vec![signal("X", 2, 1)])]);
    assert_eq!(entries(&g.try_unpack_pdu(&7, &"é1".to_string()).unwrap().unwrap()), vec![("X", 1)]);
}

#[test]
fn pdu_lookup_by_id() {
    let f = container_frame(vec![pdu("P", 1, 1, vec![]), pdu("Q", 2, 1, vec![]), pdu("R", 2, 1, vec![])]);
    assert_eq!(f.pdu_by_id(2).unwrap().name.as_deref(), Some("Q"));
    assert!(f.pdu_by_id(3).is_none());
    let mut g = container_frame(vec![pdu("P", 1, 1, vec![]), pdu("Q", 2, 1, vec![])]);
    g.pdus.as_mut().unwrap()[0].id = None;
    assert!(g.try_pdu_by_id(2).is_err());
}

#[test]
fn encode_pdu_signals_layout() {
    let f = container_frame(vec![]);
    let p = pdu("P", 0x123456, 2, vec![signal("X", 0, 8), signal("Y", 8, 4)]);
    let out = f.encode_pdu_signals(&p, &vec![("Y".to_string(), 9), ("Z".to_string(), 1)]);
    assert_eq!(out, vec![0x12, 0x34, 0x56, 0x02, 0x00, 0x90]);
}

#[test]
fn encode_pdu_signals_faults() {
    let f = container_frame(vec![]);
    let mut p = pdu("P", 1, 1, vec![]);
    p.size = None;
    assert_eq!(f.try_encode_pdu_signals(&p, &vec![]), Err(Fault));
}

#[test]
fn container_roundtrip() {
    let f = container_frame(vec![
        pdu("P", 0x10, 1, vec![signal("X", 0, 4), signal("Y", 4, 4)]),
        pdu("Q", 0x20, 2, vec![signal("Z", 0, 16)]),
    ]);
    let bytes = f.encode(vec![("Z".to_string(), 0xBEEF), ("X".to_string(), 3)]).unwrap();
    assert_eq!(bytes, vec![0, 0, 0x20, 2, 0xBE, 0xEF, 0, 0, 0x10, 1, 0x30]);
    let r = f.decode(&bytes).unwrap();
    assert_eq!(entries(&r), vec![("Z", 0xBEEF), ("X", 3), ("Y", 0)]);
}

#[test]
fn container_decode_truncated_pdu_voids_result() {
    let f = container_frame(vec![pdu("P", 1, 1, vec![signal("X", 0, 8)])]);
    assert_eq!(f.decode(&[0, 0, 1, 1, 0xAA, 0, 0, 1, 5, 1]), Some(vec![]));
    assert_eq!(entries(&f.decode(&[0, 0, 1, 1, 0xAA, 0, 0]).unwrap()), vec![("X", 0xAA)]);
}

#[test]
fn container_decode_unknown_pdu_faults() {
    let f = container_frame(vec![pdu("P", 1, 1, vec![signal("X", 0, 8)])]);
    assert_eq!(f.try_decode(&[0, 0, 2, 1, 0xAA]), Err(Fault));
}

#[test]
fn container_encode_without_values_is_empty() {
    let mut f = container_frame(vec![]);
    f.pdus = None;
    assert_eq!(f.encode(vec![]), Some(vec![]));
    assert_eq!(f.try_encode(vec![("A".to_string(), 1)]), Err(Fault));
}

#[test]
fn binary_string_of_joined_bytes_is_joined() {
    let a = [0x0F, 0x80];
    let b = [0x01];
    let joined = [0x0F, 0x80, 0x01];
    assert_eq!(
        bytearray_to_binary_string(&joined),
        bytearray_to_binary_string(&a) + &bytearray_to_binary_string(&b)
    );
}

#[test]
fn encode_drops_signal_past_end_entirely() {
    let with = plain_frame(1, vec![signal("A", 4, 8), signal("B", 0, 4)]);
    let without = plain_frame(1, vec![signal("B", 0, 4)]);
    let data = vec![("A".to_string(), 0xFF), ("B".to_string(), 2)];
    assert_eq!(with.encode(data.clone()), without.encode(data));
    assert_eq!(with.encode(vec![("A".to_string(), 0xFF)]), Some(vec![0]));
}

#[test]
fn encode_ignores_unknown_name() {
    let f = plain_frame(1, vec![signal("A", 0, 4)]);
    let plain = vec![("A".to_string(), 9)];
    let extra = vec![("Q".to_string(), 255), ("A".to_string(), 9)];
    assert_eq!(f.encode(plain), f.encode(extra));
}

#[test]
fn encode_pdu_later_value_wins() {
    let f = container_frame(vec![]);
    let p = pdu("P", 1, 1, vec![signal("X", 0, 4)]);
    let twice = f.encode_pdu_signals(&p, &vec![("X".to_string(), 15), ("X".to_string(), 2)]);
    let once = f.encode_pdu_signals(&p, &vec![("X".to_string(), 2)]);
    assert_eq!(twice, once);
    assert_eq!(once, vec![0, 0, 1, 1, 0x20]);
}

#[test]
fn encode_pdu_ignores_value_past_end() {
    let f = container_frame(vec![]);
    let p = pdu("P", 1, 1, vec![signal("X", 0, 4), signal("Y", 6, 4)]);
    let base = vec![("X".to_string(), 1)];
    let extra = vec![("Y".to_string(), 3), ("X".to_string(), 1), ("W".to_string(), 7)];
    assert_eq!(f.encode_pdu_signals(&p, &base), f.encode_pdu_signals(&p, &extra));
}

#[test]
fn container_decode_ignores_short_tail() {
    let f = container_frame(vec![pdu("P", 1, 1, vec![signal("X", 0, 8)])]);
    let whole = [0, 0, 1, 1, 0xAA];
    let with_tail = [0, 0, 1, 1, 0xAA, 9, 9, 9];
    assert_eq!(f.decode(&whole), f.decode(&with_tail));
    assert_eq!(entries(&f.decode(&with_tail).unwrap()), vec![("X", 0xAA)]);
}

#[test]
fn last_values_keep_last_of_each_name() {
    let es = vec![("A".to_string(), 1), ("B".to_string(), 2), ("A".to_string(), 3), ("C".to_string(), 4)];
    assert_eq!(entries(&last_values(&es)), vec![("B", 2), ("A", 3), ("C", 4)]);
    assert_eq!(last_values(&vec![]), vec![]);
}

#[test]
fn decoded_repeated_name_reads_last_value() {
    let f = plain_frame(2, vec![signal("A", 0, 8), signal("A", 8, 8)]);
    let r = f.decode(&[0x01, 0x02]).unwrap();
    assert_eq!(entries(&r), vec![("A", 1), ("A", 2)]);
    assert_eq!(entries(&last_values(&r)), vec![("A", 2)]);
}

#[test]
fn container_values_read_back_by_name() {
    let f = container_frame(vec![
        pdu("P", 0x10, 1, vec![signal("X", 0, 4), signal("Y", 4, 4)]),
        pdu("Q", 0x20, 2, vec![signal("Z", 0, 16)]),
        pdu("R", 0x30, 1, vec![signal("W", 0, 8)]),
    ]);
    let data = vec![("Y".to_string(), 7), ("W".to_string(), 200), ("Z".to_string(), 1)];
    let bytes = f.encode(data.clone()).unwrap();
    let decoded = last_values(&f.decode(&bytes).unwrap());
    for (name, value) in &data {
        assert!(decoded.contains(&(name.clone(), *value as i32)));
    }
    assert!(decoded.contains(&("X".to_string(), 0)));
    assert_eq!(decoded.len(), 4);
}
