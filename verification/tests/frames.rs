use canmatrix::can_module::{message_frame, FrameFault};
use socketcan::{EmbeddedFrame, Id, StandardId};

#[test]
fn frame_carries_identifier_and_payload() {
    let frame = message_frame(0x100, &[0x01, 0x02, 0x03]).expect("frame");
    assert_eq!(frame.data(), &[0x01, 0x02, 0x03]);
    assert_eq!(frame.id(), Id::Standard(StandardId::new(0x100).unwrap()));
    assert!(!frame.is_extended());
}

#[test]
fn frame_with_largest_standard_identifier_and_full_payload() {
    let frame = message_frame(0x7FF, &[0xFF; 8]).expect("frame");
    assert_eq!(frame.data(), &[0xFF; 8]);
    assert_eq!(frame.id(), Id::Standard(StandardId::new(0x7FF).unwrap()));
}

#[test]
fn frame_with_empty_payload() {
    let frame = message_frame(0x201, &[]).expect("frame");
    assert_eq!(frame.data().len(), 0);
}

#[test]
fn frame_identifier_over_eleven_bits_is_refused() {
    assert_eq!(message_frame(0x800, &[1]).err(), Some(FrameFault::InvalidId));
}

#[test]
fn frame_identifier_is_taken_to_sixteen_bits() {
    let frame = message_frame(0x1_0100, &[7]).expect("frame");
    assert_eq!(frame.id(), Id::Standard(StandardId::new(0x100).unwrap()));
    assert_eq!(message_frame(0x1_0800, &[7]).err(), Some(FrameFault::InvalidId));
}

#[test]
fn frame_payload_over_eight_bytes_is_refused() {
    assert_eq!(message_frame(0x100, &[0; 9]).err(), Some(FrameFault::TooMuchData));
}

#[test]
fn frame_identifier_is_checked_before_payload() {
    assert_eq!(message_frame(0xFFFF, &[0; 9]).err(), Some(FrameFault::InvalidId));
}
