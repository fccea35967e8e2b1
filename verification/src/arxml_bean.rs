//! The CAN matrix data model: frames, the PDUs they carry and the signals inside them.
//! Every field is optional, as in the exported description the model is read from.

use std::collections::HashMap;
use vstd::prelude::*;

verus! {

/// A signal: a field of `size` bits starting at bit `start_bit` of a frame or PDU payload.
/// Bits are numbered from the most significant bit of the first byte.
#[derive(Debug, Clone)]
pub struct Signal {
    pub name: Option<String>,
    pub start_bit: Option<i32>,
    pub size: Option<i32>,
    pub is_little_endian: Option<bool>,
    pub is_ascii: Option<bool>,
    pub is_float: Option<bool>,
    pub is_multiplexer: Option<bool>,
    pub max: Option<i128>,
    pub min: Option<i128>,
    pub initial_value: Option<i32>,
    pub values: Option<HashMap<String, String>>,
    pub cycle_time: Option<i32>,
    pub comment: Option<String>,
    pub comments: Option<HashMap<String, String>>,
    pub offset: Option<i32>,
    pub factor: Option<i32>,
    pub unit: Option<String>,
}

/// A protocol data unit carried inside a container frame.
#[derive(Debug, Clone)]
pub struct Pdu {
    pub name: Option<String>,
    pub cycle_time: Option<i32>,
    pub id: Option<i32>,
    pub size: Option<i32>,
    pub triggering_name: Option<String>,
    pub pdu_type: Option<String>,
    pub port_type: Option<String>,
    pub signals: Option<Vec<Signal>>,
}

/// A CAN frame. A container frame (`is_pdu_container`) carries PDUs, each behind a
/// four-byte header; any other frame carries its `signals` directly.
#[derive(Debug, Clone)]
pub struct Frame {
    pub name: Option<String>,
    pub id: Option<i32>,
    pub extended: Option<bool>,
    pub length: Option<i32>,
    pub cycle_time: Option<i32>,
    pub is_fd: Option<bool>,
    pub is_multiplexed: Option<bool>,
    pub is_pdu_container: Option<bool>,
    pub is_j1939: Option<bool>,
    pub pdu_name: Option<String>,
    pub pdus: Option<Vec<Pdu>>,
    pub signals: Option<Vec<Signal>>,
}

/// The frames of each cluster, by cluster name.
#[derive(Debug, Clone)]
pub struct Root {
    pub clusters: Option<HashMap<String, Vec<Frame>>>,
}

} // verus!
