use canmatrix::arxml_bean::{Frame, Signal};
use canmatrix::can_matrix::{CanMatrix, Cluster};
use canmatrix::can_module::{CanMessage, PeriodicTable};
use canmatrix::codec::Fault;

fn signal(name: &str, start: i32, size: i32) -> Signal {
    Signal {
        name: Some(name.to_string()),
        start_bit: Some(start),
        size: Some(size),
        is_little_endian: None,
        is_ascii: None,
        is_float: None,
        is_multiplexer: None,
        max: None,
        min: None,
        initial_value: None,
        values: None,
        cycle_time: None,
        comment: None,
        comments: None,
        offset: None,
        factor: None,
        unit: None,
    }
}

fn frame(id: i32, length: i32, signals: Vec<Signal>) -> Frame {
    Frame {
        name: Some(format!("F{}", id)),
        id: Some(id),
        extended: Some(false),
        length: Some(length),
        cycle_time: Some(50),
        is_fd: Some(false),
        is_multiplexed: Some(false),
        is_pdu_container: Some(false),
        is_j1939: Some(false),
        pdu_name: None,
        pdus: None,
        signals: Some(signals),
    }
}

fn matrix() -> CanMatrix {
    let mut m = CanMatrix::new();
    m.load_clusters(vec![
        ("body".to_string(), vec![frame(0x10, 8, vec![signal("Speed", 0, 16)]), frame(0x11, 1, vec![])]),
        ("chassis".to_string(), vec![frame(0x20, 2, vec![signal("Gear", 4, 4)])]),
    ]);
    m
}

#[test]
fn new_matrix_is_empty() {
    let m = CanMatrix::new();
    assert!(m.clusters.is_empty());
    assert!(m.signals.is_empty());
}

#[test]
fn cluster_indexes_frames_by_id() {
    let mut no_id = frame(0x30, 1, vec![]);
    no_id.id = None;
    let c = Cluster::new("c".to_string(), vec![frame(1, 1, vec![]), frame(1, 2, vec![]), no_id]);
    assert_eq!(c.name, "c");
    assert_eq!(c.frame_by_id.len(), 1);
    assert_eq!(c.frame_by_id[&1].length, Some(2));
}

#[test]
fn load_clusters_replaces_clusters() {
    let m = matrix();
    assert_eq!(m.clusters.len(), 2);
    assert_eq!(m.clusters[0].name, "body");
    assert_eq!(m.clusters[1].frame_by_id.len(), 1);
}

#[test]
fn message_by_signals_pads_to_frame_length() {
    let m = matrix();
    let msg = m.get_message_by_signals("body".to_string(), 0x10, vec![("Speed".to_string(), 0x1234)]).unwrap();
    assert_eq!(msg.id, 0x10);
    assert_eq!(msg.data, vec![0x12, 0x34, 0, 0, 0, 0, 0, 0]);
    assert_eq!(msg.period_ms, 50);
    assert!(!msg.is_fd);
    assert_eq!(msg.next_send_time, None);
}

#[test]
fn message_by_signals_faults() {
    let m = matrix();
    assert!(m.try_get_message_by_signals("none".to_string(), 0x10, vec![]).is_err());
    assert!(m.try_get_message_by_signals("body".to_string(), 0x99, vec![]).is_err());
}

#[test]
fn message_without_fd_flag_is_none() {
    let mut m = CanMatrix::new();
    let mut f = frame(0x10, 1, vec![]);
    f.is_fd = None;
    m.load_clusters(vec![("x".to_string(), vec![f])]);
    assert!(m.get_message_by_signals("x".to_string(), 0x10, vec![]).is_none());
}

#[test]
fn signals_by_message_decodes() {
    let m = matrix();
    let r = m.get_signals_by_message("chassis".to_string(), 0x20, &[0x0A, 0]).unwrap();
    assert_eq!(r, vec![("Gear".to_string(), 0xA)]);
    assert_eq!(m.try_get_signals_by_message("chassis".to_string(), 0x21, &[0]), Err(Fault));
}

#[test]
fn message_roundtrip_through_matrix() {
    let m = matrix();
    let msg = m.get_message_by_signals("chassis".to_string(), 0x20, vec![("Gear".to_string(), 5)]).unwrap();
    assert_eq!(msg.data, vec![0x05, 0]);
    let r = m.get_signals_by_message("chassis".to_string(), 0x20, &msg.data).unwrap();
    assert_eq!(r, vec![("Gear".to_string(), 5)]);
}

fn msg(id: u32, period: i64) -> CanMessage {
    CanMessage { id, data: vec![id as u8], period_ms: period, is_fd: false, next_send_time: None }
}

#[test]
fn periodic_table_ignores_one_shot_messages() {
    let mut t = PeriodicTable::new();
    t.add_periodic_message(msg(1, -1), 0);
    t.add_periodic_message(msg(2, 0), 0);
    assert_eq!(t.len(), 0);
}

#[test]
fn periodic_table_sends_when_due() {
    let mut t = PeriodicTable::new();
    t.add_periodic_message(msg(1, 100), 5);
    t.add_periodic_message(msg(2, 30), 10);
    assert_eq!(t.len(), 2);
    assert!(t.due_messages(4).is_empty());
    assert_eq!(t.due_messages(10), vec![(1, vec![1]), (2, vec![2])]);
    assert!(t.due_messages(39).is_empty());
    assert_eq!(t.due_messages(40), vec![(2, vec![2])]);
    assert_eq!(t.due_messages(105), vec![(2, vec![2])]);
    assert_eq!(t.due_messages(110), vec![(1, vec![1])]);
    assert!(t.due_messages(110).is_empty());
}

#[test]
fn periodic_table_replaces_same_id() {
    let mut t = PeriodicTable::new();
    t.add_periodic_message(msg(1, 100), 0);
    let mut m = msg(1, 10);
    m.data = vec![9];
    t.add_periodic_message(m, 50);
    assert_eq!(t.len(), 1);
    assert!(t.due_messages(49).is_empty());
    assert_eq!(t.due_messages(50), vec![(1, vec![9])]);
}

#[test]
fn tick_range_guard() {
    let mut t = PeriodicTable::new();
    t.add_periodic_message(msg(1, 100), 0);
    assert!(t.tick_in_range(10));
    assert!(!t.tick_in_range(u64::MAX - 5));
}
