//! Encoding and decoding of CAN frames described by an ARXML-derived matrix.

pub mod arxml_bean;
pub mod bits;
pub mod can_matrix;
pub mod can_module;
pub mod codec;
pub mod container_names;
pub mod container_roundtrip;
pub mod encoder;
pub mod encoder_laws;
pub mod roundtrip;
