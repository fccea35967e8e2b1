//! Encoding of signal values into frame payloads.
//!
//! A value is written in binary, most significant digit first, into its signal's bit
//! field: left-padded with zeros to the signal's size, and with all its digits when it
//! is wider than that (the excess spills over the following bits, up to the end of the
//! payload). Bits that no signal writes are zero.

use crate::arxml_bean::{Frame, Pdu, Signal};
use crate::bits::{pack_bits, pack_spec, padded_binary, write_bits, write_padded};
use crate::codec::{pdu_lookup, Fault};
use vstd::prelude::*;

verus! {

/// A value to encode, under the name of its signal.
pub type SignalValue = (String, u64);

/// What a list of values to encode stands for.
pub open spec fn values_view(v: Seq<SignalValue>) -> Seq<(Seq<char>, u64)> {
    v.map_values(|e: SignalValue| (e.0@, e.1))
}

/// The value given for `name`: the first one listed under that name.
pub open spec fn lookup(data: Seq<(Seq<char>, u64)>, name: Seq<char>) -> Option<u64>
    decreases data.len(),
{
    if data.len() == 0 {
        None
    } else if data[0].0 == name {
        Some(data[0].1)
    } else {
        lookup(data.drop_first(), name)
    }
}

/// A buffer of `n` zero bits.
pub open spec fn zero_bits(n: nat) -> Seq<bool> {
    Seq::new(n, |i: int| false)
}

/// Writing `v` into the field of `sig` in `buf`: a negative size, or a field whose end
/// cannot be addressed, is a fault; a field that does not fit in the buffer is left out.
pub open spec fn place_value_spec(buf: Seq<bool>, sig: Signal, v: u64) -> Result<Seq<bool>, Fault> {
    match (sig.start_bit, sig.size) {
        (Some(st), Some(sz)) => {
            let s = st as usize;
            if sz < 0 {
                Err(Fault)
            } else if s + sz > usize::MAX {
                Err(Fault)
            } else if s + sz > buf.len() {
                Ok(buf)
            } else {
                Ok(write_bits(buf, s as int, padded_binary(v as nat, sz as nat)))
            }
        },
        _ => Err(Fault),
    }
}

/// Writing the value given for `sig`, if any, into `buf`; a signal without a name is a fault.
pub open spec fn place_signal_spec(buf: Seq<bool>, sig: Signal, data: Seq<(Seq<char>, u64)>) -> Result<
    Seq<bool>,
    Fault,
> {
    match sig.name {
        None => Err(Fault),
        Some(n) => match lookup(data, n@) {
            None => Ok(buf),
            Some(v) => place_value_spec(buf, sig, v),
        },
    }
}

/// Writing the values of the signals, in the order of the signals, into `len8` zero bits.
pub open spec fn fill_signals_spec(sigs: Seq<Signal>, data: Seq<(Seq<char>, u64)>, len8: nat) -> Result<
    Seq<bool>,
    Fault,
>
    decreases sigs.len(),
{
    if sigs.len() == 0 {
        Ok(zero_bits(len8))
    } else {
        match fill_signals_spec(sigs.drop_last(), data, len8) {
            Ok(buf) => place_signal_spec(buf, sigs.last(), data),
            Err(f) => Err(f),
        }
    }
}

/// Encoding the values of a frame that carries its signals directly: its `length`
/// bytes, made of the bits that the signals' values fill in.
pub open spec fn plain_encode_spec(frame: Frame, data: Seq<(Seq<char>, u64)>) -> Result<
    Option<Seq<u8>>,
    Fault,
> {
    match frame.length {
        None => Err(Fault),
        Some(l) => if l < 0 || l * 8 > i32::MAX {
            Err(Fault)
        } else {
            match frame.signals {
                None => Err(Fault),
                Some(sigs) => match fill_signals_spec(sigs@, data, (l * 8) as nat) {
                    Ok(buf) => Ok(Some(pack_spec(buf, l as nat))),
                    Err(f) => Err(f),
                },
            }
        },
    }
}

/// A buffer of zero bits.
fn zero_buffer(n: usize) -> (r: Vec<bool>)
    ensures
        r@ == zero_bits(n as nat),
{
    let mut v: Vec<bool> = Vec::new();
    for i in 0..n
        invariant
            v@ == zero_bits(i as nat),
    {
        v.push(false);
        assert(v@ =~= zero_bits((i + 1) as nat));
    }
    v
}

/// The value given for `name`.
fn lookup_value(data: &Vec<SignalValue>, name: &String) -> (r: Option<u64>)
    ensures
        r == lookup(values_view(data@), name@),
{
    let n = data.len();
    assert(values_view(data@).skip(0) =~= values_view(data@));
    for i in 0..n
        invariant
            n == data@.len(),
            lookup(values_view(data@), name@) == lookup(values_view(data@).skip(i as int), name@),
    {
        let ghost rest = values_view(data@).skip(i as int);
        assert(rest.drop_first() =~= values_view(data@).skip(i + 1));
        if data[i].0 == *name {
            return Some(data[i].1);
        }
    }
    assert(values_view(data@).skip(n as int) =~= Seq::<(Seq<char>, u64)>::empty());
    None
}

/// Writes `v` into the field of `sig`.
fn place_value(buf: &mut Vec<bool>, sig: &Signal, v: u64) -> (r: Result<(), Fault>)
    ensures
        match r {
            Ok(()) => place_value_spec(old(buf)@, *sig, v) == Ok::<_, Fault>(final(buf)@),
            Err(_) => place_value_spec(old(buf)@, *sig, v) is Err,
        },
        final(buf)@.len() == old(buf)@.len(),
{
    let st = match sig.start_bit {
        Some(x) => x,
        None => return Err(Fault),
    };
    let sz = match sig.size {
        Some(x) => x,
        None => return Err(Fault),
    };
    if sz < 0 {
        return Err(Fault);
    }
    let s = #[verifier::truncate] (st as usize);
    let z = sz as usize;
    let e = match s.checked_add(z) {
        Some(e) => e,
        None => return Err(Fault),
    };
    if e > buf.len() {
        return Ok(());
    }
    write_padded(buf, s, v, z);
    Ok(())
}

/// Writes the value given for `sig`, if any.
fn place_signal(buf: &mut Vec<bool>, sig: &Signal, data: &Vec<SignalValue>) -> (r: Result<(), Fault>)
    ensures
        match r {
            Ok(()) => place_signal_spec(old(buf)@, *sig, values_view(data@)) == Ok::<_, Fault>(
                final(buf)@,
            ),
            Err(_) => place_signal_spec(old(buf)@, *sig, values_view(data@)) is Err,
        },
        final(buf)@.len() == old(buf)@.len(),
{
    let name = match &sig.name {
        Some(n) => n,
        None => return Err(Fault),
    };
    match lookup_value(data, name) {
        None => Ok(()),
        Some(v) => place_value(buf, sig, v),
    }
}

/// Fills `len8` zero bits with the values of the signals.
fn fill_signals(sigs: &Vec<Signal>, data: &Vec<SignalValue>, len8: usize) -> (r: Result<Vec<bool>, Fault>)
    ensures
        match r {
            Ok(b) => fill_signals_spec(sigs@, values_view(data@), len8 as nat) == Ok::<_, Fault>(b@),
            Err(_) => fill_signals_spec(sigs@, values_view(data@), len8 as nat) is Err,
        },
        r matches Ok(b) ==> b@.len() == len8,
{
    let mut buf = zero_buffer(len8);
    let n = sigs.len();
    proof {
        assert(sigs@.take(0) =~= Seq::<Signal>::empty());
    }
    for i in 0..n
        invariant
            n == sigs@.len(),
            buf@.len() == len8,
            fill_signals_spec(sigs@.take(i as int), values_view(data@), len8 as nat) == Ok::<_, Fault>(buf@),
    {
        proof {
            assert(sigs@.take(i + 1).drop_last() =~= sigs@.take(i as int));
            assert(sigs@.take(i + 1).last() == sigs@[i as int]);
        }
        match place_signal(&mut buf, &sigs[i], data) {
            Ok(()) => {},
            Err(f) => {
                proof {
                    lemma_fill_signals_fault(sigs@, values_view(data@), len8 as nat, i + 1);
                }
                return Err(f);
            },
        }
    }
    proof {
        assert(sigs@.take(n as int) =~= sigs@);
    }
    Ok(buf)
}

/// A fault while filling some of the signals is a fault of filling all of them.
proof fn lemma_fill_signals_fault(sigs: Seq<Signal>, data: Seq<(Seq<char>, u64)>, len8: nat, k: int)
    requires
        0 <= k <= sigs.len(),
        fill_signals_spec(sigs.take(k), data, len8) is Err,
    ensures
        fill_signals_spec(sigs, data, len8) is Err,
    decreases sigs.len() - k,
{
    if k < sigs.len() {
        assert(sigs.take(k + 1).drop_last() =~= sigs.take(k));
        lemma_fill_signals_fault(sigs, data, len8, k + 1);
    } else {
        assert(sigs.take(k) =~= sigs);
    }
}

impl Frame {
    /// Encodes the values of a frame that carries its signals directly.
    fn encode_plain(&self, data: &Vec<SignalValue>) -> (r: Result<Option<Vec<u8>>, Fault>)
        ensures
            match r {
                Ok(Some(b)) => plain_encode_spec(*self, values_view(data@)) == Ok::<_, Fault>(Some(b@)),
                Ok(None) => plain_encode_spec(*self, values_view(data@)) == Ok::<_, Fault>(None::<Seq<u8>>),
                Err(_) => plain_encode_spec(*self, values_view(data@)) is Err,
            },
    {
        let l = match self.length {
            Some(l) => l,
            None => return Err(Fault),
        };
        if l < 0 || l > i32::MAX / 8 {
            return Err(Fault);
        }
        let len8 = (l * 8) as usize;
        let sigs = match &self.signals {
            Some(s) => s,
            None => return Err(Fault),
        };
        let buf = match fill_signals(sigs, data, len8) {
            Ok(b) => b,
            Err(f) => return Err(f),
        };
        Ok(Some(pack_bits(&buf, l as usize)))
    }
}

/// Position of the first signal named `name`.
pub open spec fn signal_index(sigs: Seq<Signal>, name: Seq<char>) -> Option<int>
    decreases sigs.len(),
{
    if sigs.len() == 0 {
        None
    } else {
        match signal_index(sigs.drop_last(), name) {
            Some(i) => Some(i),
            None => if sigs.last().name matches Some(n) && n@ == name {
                Some(sigs.len() - 1)
            } else {
                None
            },
        }
    }
}

/// Writing one listed value into a PDU buffer: into the field of the first signal of
/// the PDU with that name; a name the PDU does not list is left out.
pub open spec fn place_pdu_value_spec(buf: Seq<bool>, sigs: Option<Vec<Signal>>, e: (Seq<char>, u64)) -> Result<
    Seq<bool>,
    Fault,
> {
    match sigs {
        None => Ok(buf),
        Some(sigs) => match signal_index(sigs@, e.0) {
            None => Ok(buf),
            Some(k) => place_value_spec(buf, sigs@[k], e.1),
        },
    }
}

/// Writing the listed values, in list order, into `len8` zero bits of a PDU.
pub open spec fn fill_pdu_spec(sigs: Option<Vec<Signal>>, list: Seq<(Seq<char>, u64)>, len8: nat) -> Result<
    Seq<bool>,
    Fault,
>
    decreases list.len(),
{
    if list.len() == 0 {
        Ok(zero_bits(len8))
    } else {
        match fill_pdu_spec(sigs, list.drop_last(), len8) {
            Ok(buf) => place_pdu_value_spec(buf, sigs, list.last()),
            Err(f) => Err(f),
        }
    }
}

/// The three low bytes of a PDU id, most significant first.
pub open spec fn header_bytes(id: i32) -> Seq<u8> {
    let u = id as u32;
    seq![((u >> 16u32) & 0xff) as u8, ((u >> 8u32) & 0xff) as u8, (u & 0xff) as u8]
}

/// Encoding one PDU: its header (three-byte id, then its size modulo 256) and its
/// `size` payload bytes, filled with the listed values.
pub open spec fn pdu_encode_spec(pdu: Pdu, list: Seq<(Seq<char>, u64)>) -> Result<Seq<u8>, Fault> {
    match pdu.size {
        None => Err(Fault),
        Some(sz) => if sz < 0 {
            Err(Fault)
        } else {
            match pdu.id {
                None => Err(Fault),
                Some(id) => if sz * 8 > usize::MAX {
                    Err(Fault)
                } else {
                    match fill_pdu_spec(pdu.signals, list, (sz * 8) as nat) {
                        Ok(buf) => Ok(
                            header_bytes(id) + seq![(sz % 256) as u8] + pack_spec(buf, sz as nat),
                        ),
                        Err(f) => Err(f),
                    }
                },
            }
        },
    }
}

/// The index of the signal named `name`.
fn find_signal(sigs: &Vec<Signal>, name: &String) -> (r: Option<usize>)
    ensures
        match r {
            Some(i) => signal_index(sigs@, name@) == Some(i as int) && i < sigs@.len(),
            None => signal_index(sigs@, name@) is None,
        },
{
    let n = sigs.len();
    proof {
        assert(sigs@.take(0) =~= Seq::<Signal>::empty());
    }
    for i in 0..n
        invariant
            n == sigs@.len(),
            signal_index(sigs@.take(i as int), name@) is None,
    {
        proof {
            assert(sigs@.take(i + 1).drop_last() =~= sigs@.take(i as int));
        }
        let hit = match &sigs[i].name {
            Some(x) => *x == *name,
            None => false,
        };
        if hit {
            proof {
                lemma_signal_index_prefix(sigs@, name@, i + 1);
            }
            return Some(i);
        }
    }
    proof {
        assert(sigs@.take(n as int) =~= sigs@);
    }
    None
}

/// The first signal with a name lies in every prefix that reaches past it.
proof fn lemma_signal_index_prefix(sigs: Seq<Signal>, name: Seq<char>, k: int)
    requires
        0 <= k <= sigs.len(),
        signal_index(sigs.take(k), name) is Some,
    ensures
        signal_index(sigs, name) == signal_index(sigs.take(k), name),
    decreases sigs.len() - k,
{
    if k < sigs.len() {
        assert(sigs.take(k + 1).drop_last() =~= sigs.take(k));
        lemma_signal_index_prefix(sigs, name, k + 1);
    } else {
        assert(sigs.take(k) =~= sigs);
    }
}

/// A fault while filling some listed values is a fault of filling them all.
proof fn lemma_fill_pdu_fault(sigs: Option<Vec<Signal>>, list: Seq<(Seq<char>, u64)>, len8: nat, k: int)
    requires
        0 <= k <= list.len(),
        fill_pdu_spec(sigs, list.take(k), len8) is Err,
    ensures
        fill_pdu_spec(sigs, list, len8) is Err,
    decreases list.len() - k,
{
    if k < list.len() {
        assert(list.take(k + 1).drop_last() =~= list.take(k));
        lemma_fill_pdu_fault(sigs, list, len8, k + 1);
    } else {
        assert(list.take(k) =~= list);
    }
}

/// Fills `len8` zero bits with the listed values, each in the first signal of its name.
fn fill_pdu(sigs: &Option<Vec<Signal>>, list: &Vec<SignalValue>, len8: usize) -> (r: Result<Vec<bool>, Fault>)
    ensures
        match r {
            Ok(b) => fill_pdu_spec(*sigs, values_view(list@), len8 as nat) == Ok::<_, Fault>(b@),
            Err(_) => fill_pdu_spec(*sigs, values_view(list@), len8 as nat) is Err,
        },
        r matches Ok(b) ==> b@.len() == len8,
{
    let mut buf = zero_buffer(len8);
    let n = list.len();
    proof {
        assert(values_view(list@).take(0) =~= Seq::<(Seq<char>, u64)>::empty());
    }
    for i in 0..n
        invariant
            n == list@.len(),
            buf@.len() == len8,
            fill_pdu_spec(*sigs, values_view(list@).take(i as int), len8 as nat) == Ok::<_, Fault>(buf@),
    {
        let ghost lv = values_view(list@);
        proof {
            assert(lv.take(i + 1).drop_last() =~= lv.take(i as int));
            assert(lv.take(i + 1).last() == lv[i as int]);
        }
        match sigs {
            None => {},
            Some(ss) => match find_signal(ss, &list[i].0) {
                None => {},
                Some(k) => match place_value(&mut buf, &ss[k], list[i].1) {
                    Ok(()) => {},
                    Err(f) => {
                        proof {
                            lemma_fill_pdu_fault(*sigs, lv, len8 as nat, i + 1);
                        }
                        return Err(f);
                    },
                },
            },
        }
    }
    proof {
        assert(values_view(list@).take(n as int) =~= values_view(list@));
    }
    Ok(buf)
}

impl Frame {
    /// Encodes one PDU of a container frame with the listed values, reporting a fault
    /// where encoding cannot proceed.
    pub fn try_encode_pdu_signals(&self, pdu: &Pdu, signals: &Vec<SignalValue>) -> (r: Result<
        Vec<u8>,
        Fault,
    >)
        ensures
            match r {
                Ok(b) => pdu_encode_spec(*pdu, values_view(signals@)) == Ok::<_, Fault>(b@),
                Err(_) => pdu_encode_spec(*pdu, values_view(signals@)) is Err,
            },
    {
        let sz = match pdu.size {
            Some(x) => x,
            None => return Err(Fault),
        };
        if sz < 0 {
            return Err(Fault);
        }
        let id = match pdu.id {
            Some(x) => x,
            None => return Err(Fault),
        };
        let pdu_size = sz as usize;
        let bit_length = match pdu_size.checked_mul(8) {
            Some(b) => b,
            None => return Err(Fault),
        };
        let buf = match fill_pdu(&pdu.signals, signals, bit_length) {
            Ok(b) => b,
            Err(f) => return Err(f),
        };
        let u = #[verifier::truncate] (id as u32);
        let mut data: Vec<u8> = Vec::new();
        data.push(((u >> 16u32) & 0xff) as u8);
        data.push(((u >> 8u32) & 0xff) as u8);
        data.push((u & 0xff) as u8);
        data.push((pdu_size % 256) as u8);
        let mut payload = pack_bits(&buf, pdu_size);
        let ghost head = data@;
        let ghost body = payload@;
        data.append(&mut payload);
        proof {
            assert(head =~= header_bytes(id) + seq![(sz % 256) as u8]);
        }
        Ok(data)
    }

    /// Encodes one PDU of a container frame: a header of its id (three bytes, most
    /// significant first) and its size (one byte), then its payload with each listed
    /// value written into the first signal of its name.
    pub fn encode_pdu_signals(&self, pdu: &Pdu, signals: &Vec<SignalValue>) -> (r: Vec<u8>)
        requires
            pdu_encode_spec(*pdu, values_view(signals@)) is Ok,
        ensures
            pdu_encode_spec(*pdu, values_view(signals@)) == Ok::<_, Fault>(r@),
    {
        match self.try_encode_pdu_signals(pdu, signals) {
            Ok(b) => b,
            Err(_) => Vec::new(),
        }
    }
}

/// A value routed to a PDU, under that PDU's id.
pub type Routed = (i32, SignalValue);

/// What a list of routed values stands for.
pub open spec fn routed_view(v: Seq<Routed>) -> Seq<(i32, (Seq<char>, u64))> {
    v.map_values(|p: Routed| (p.0, (p.1.0@, p.1.1)))
}

/// What a list of value groups stands for.
pub open spec fn groups_view(v: Seq<(i32, Vec<SignalValue>)>) -> Seq<(i32, Seq<(Seq<char>, u64)>)> {
    v.map_values(|g: (i32, Vec<SignalValue>)| (g.0, values_view(g.1@)))
}

/// Routing a value through the signals of a PDU: one copy under the PDU's id for each
/// signal of the value's name. A signal without a name, or a match in a PDU without an
/// id, is a fault.
pub open spec fn route_signals_spec(sigs: Seq<Signal>, id: Option<i32>, e: (Seq<char>, u64)) -> Result<
    Seq<(i32, (Seq<char>, u64))>,
    Fault,
>
    decreases sigs.len(),
{
    if sigs.len() == 0 {
        Ok(seq![])
    } else {
        match route_signals_spec(sigs.drop_last(), id, e) {
            Err(f) => Err(f),
            Ok(prev) => match sigs.last().name {
                None => Err(Fault),
                Some(n) => if n@ == e.0 {
                    match id {
                        None => Err(Fault),
                        Some(x) => Ok(prev.push((x, e))),
                    }
                } else {
                    Ok(prev)
                },
            },
        }
    }
}

/// Routing a value through every PDU in order; a PDU without a signal list is a fault.
pub open spec fn route_pdus_spec(pdus: Seq<Pdu>, e: (Seq<char>, u64)) -> Result<
    Seq<(i32, (Seq<char>, u64))>,
    Fault,
>
    decreases pdus.len(),
{
    if pdus.len() == 0 {
        Ok(seq![])
    } else {
        match route_pdus_spec(pdus.drop_last(), e) {
            Err(f) => Err(f),
            Ok(prev) => match pdus.last().signals {
                None => Err(Fault),
                Some(sigs) => match route_signals_spec(sigs@, pdus.last().id, e) {
                    Err(f) => Err(f),
                    Ok(m) => Ok(prev + m),
                },
            },
        }
    }
}

/// Routing every value in order; values for a frame without PDUs are a fault.
pub open spec fn route_spec(pdus: Option<Vec<Pdu>>, data: Seq<(Seq<char>, u64)>) -> Result<
    Seq<(i32, (Seq<char>, u64))>,
    Fault,
>
    decreases data.len(),
{
    if data.len() == 0 {
        Ok(seq![])
    } else {
        match route_spec(pdus, data.drop_last()) {
            Err(f) => Err(f),
            Ok(prev) => match pdus {
                None => Err(Fault),
                Some(p) => match route_pdus_spec(p@, data.last()) {
                    Err(f) => Err(f),
                    Ok(m) => Ok(prev + m),
                },
            },
        }
    }
}

/// Position of the group of PDU `id`.
pub open spec fn group_index(groups: Seq<(i32, Seq<(Seq<char>, u64)>)>, id: i32) -> Option<int>
    decreases groups.len(),
{
    if groups.len() == 0 {
        None
    } else {
        match group_index(groups.drop_last(), id) {
            Some(i) => Some(i),
            None => if groups.last().0 == id {
                Some(groups.len() - 1)
            } else {
                None
            },
        }
    }
}

/// Adding a routed value to its PDU's group, opening the group if it is new.
pub open spec fn insert_routed(
    groups: Seq<(i32, Seq<(Seq<char>, u64)>)>,
    p: (i32, (Seq<char>, u64)),
) -> Seq<(i32, Seq<(Seq<char>, u64)>)> {
    match group_index(groups, p.0) {
        Some(k) => groups.update(k, (p.0, groups[k].1.push(p.1))),
        None => groups.push((p.0, seq![p.1])),
    }
}

/// Routed values grouped by PDU id: groups in the order their ids first appear, values
/// of a group in routing order.
pub open spec fn group_spec(pairs: Seq<(i32, (Seq<char>, u64))>) -> Seq<(i32, Seq<(Seq<char>, u64)>)>
    decreases pairs.len(),
{
    if pairs.len() == 0 {
        seq![]
    } else {
        insert_routed(group_spec(pairs.drop_last()), pairs.last())
    }
}

/// Encoding each group into the first PDU with its id, and joining the results.
pub open spec fn emit_spec(pdus: Seq<Pdu>, groups: Seq<(i32, Seq<(Seq<char>, u64)>)>) -> Result<
    Seq<u8>,
    Fault,
>
    decreases groups.len(),
{
    if groups.len() == 0 {
        Ok(seq![])
    } else {
        match emit_spec(pdus, groups.drop_last()) {
            Err(f) => Err(f),
            Ok(prev) => match pdu_lookup(pdus, groups.last().0) {
                Err(f) => Err(f),
                Ok(None) => Ok(prev),
                Ok(Some(i)) => match pdu_encode_spec(pdus[i], groups.last().1) {
                    Err(f) => Err(f),
                    Ok(b) => Ok(prev + b),
                },
            },
        }
    }
}

/// Encoding the values of a container frame: each value goes to every PDU with a signal
/// of its name, and each PDU that receives values is encoded with them.
pub open spec fn container_encode_spec(frame: Frame, data: Seq<(Seq<char>, u64)>) -> Result<
    Option<Seq<u8>>,
    Fault,
> {
    match route_spec(frame.pdus, data) {
        Err(f) => Err(f),
        Ok(pairs) => match frame.pdus {
            None => Ok(Some(seq![])),
            Some(p) => match emit_spec(p@, group_spec(pairs)) {
                Err(f) => Err(f),
                Ok(b) => Ok(Some(b)),
            },
        },
    }
}

/// Encoding values into a frame's payload: by PDU for a container frame, by signal for
/// any other frame, and nothing when the frame does not say whether it is a container.
pub open spec fn encode_spec(frame: Frame, data: Seq<(Seq<char>, u64)>) -> Result<
    Option<Seq<u8>>,
    Fault,
> {
    match frame.is_pdu_container {
        None => Ok(None),
        Some(true) => container_encode_spec(frame, data),
        Some(false) => plain_encode_spec(frame, data),
    }
}

/// What an encoding outcome stands for.
pub open spec fn encoded_view(r: Result<Option<Vec<u8>>, Fault>) -> Result<Option<Seq<u8>>, Fault> {
    match r {
        Ok(Some(v)) => Ok(Some(v@)),
        Ok(None) => Ok(None),
        Err(f) => Err(f),
    }
}

/// A copy of a value to encode.
fn copy_value(e: &SignalValue) -> (r: SignalValue)
    ensures
        r.0@ == e.0@,
        r.1 == e.1,
{
    (e.0.clone(), e.1)
}

/// Routes a value through the signals of one PDU.
fn route_signals(sigs: &Vec<Signal>, id: Option<i32>, e: &SignalValue, out: &mut Vec<Routed>) -> (r: Result<(), Fault>)
    ensures
        match r {
            Ok(()) => route_signals_spec(sigs@, id, (e.0@, e.1)) matches Ok(m) && routed_view(final(out)@)
                == routed_view(old(out)@) + m,
            Err(_) => route_signals_spec(sigs@, id, (e.0@, e.1)) is Err,
        },
{
    let ghost ev = (e.0@, e.1);
    let ghost start = routed_view(out@);
    let n = sigs.len();
    proof {
        assert(sigs@.take(0) =~= Seq::<Signal>::empty());
        assert(start + Seq::<(i32, (Seq<char>, u64))>::empty() =~= start);
    }
    for i in 0..n
        invariant
            n == sigs@.len(),
            ev == (e.0@, e.1),
            route_signals_spec(sigs@.take(i as int), id, ev) matches Ok(m) && routed_view(out@) == start + m,
    {
        proof {
            assert(sigs@.take(i + 1).drop_last() =~= sigs@.take(i as int));
            assert(sigs@.take(i + 1).last() == sigs@[i as int]);
        }
        let ghost m = route_signals_spec(sigs@.take(i as int), id, ev)->Ok_0;
        match &sigs[i].name {
            None => {
                proof {
                    lemma_route_signals_fault(sigs@, id, ev, i + 1);
                }
                return Err(Fault);
            },
            Some(nm) => {
                if *nm == e.0 {
                    match id {
                        None => {
                            proof {
                                lemma_route_signals_fault(sigs@, id, ev, i + 1);
                            }
                            return Err(Fault);
                        },
                        Some(x) => {
                            let c = copy_value(e);
                            let ghost prior = out@;
                            out.push((x, c));
                            proof {
                                assert(out@ == prior.push((x, c)));
                                assert(routed_view(out@) =~= routed_view(prior).push((x, ev)));
                                assert(routed_view(out@) =~= start + m.push((x, ev)));
                            }
                        },
                    }
                }
            },
        }
    }
    proof {
        assert(sigs@.take(n as int) =~= sigs@);
    }
    Ok(())
}

/// A fault while routing through some signals is a fault of routing through them all.
proof fn lemma_route_signals_fault(sigs: Seq<Signal>, id: Option<i32>, e: (Seq<char>, u64), k: int)
    requires
        0 <= k <= sigs.len(),
        route_signals_spec(sigs.take(k), id, e) is Err,
    ensures
        route_signals_spec(sigs, id, e) is Err,
    decreases sigs.len() - k,
{
    if k < sigs.len() {
        assert(sigs.take(k + 1).drop_last() =~= sigs.take(k));
        lemma_route_signals_fault(sigs, id, e, k + 1);
    } else {
        assert(sigs.take(k) =~= sigs);
    }
}

/// A fault while routing through some PDUs is a fault of routing through them all.
proof fn lemma_route_pdus_fault(pdus: Seq<Pdu>, e: (Seq<char>, u64), k: int)
    requires
        0 <= k <= pdus.len(),
        route_pdus_spec(pdus.take(k), e) is Err,
    ensures
        route_pdus_spec(pdus, e) is Err,
    decreases pdus.len() - k,
{
    if k < pdus.len() {
        assert(pdus.take(k + 1).drop_last() =~= pdus.take(k));
        lemma_route_pdus_fault(pdus, e, k + 1);
    } else {
        assert(pdus.take(k) =~= pdus);
    }
}

/// A fault while routing some values is a fault of routing them all.
proof fn lemma_route_fault(pdus: Option<Vec<Pdu>>, data: Seq<(Seq<char>, u64)>, k: int)
    requires
        0 <= k <= data.len(),
        route_spec(pdus, data.take(k)) is Err,
    ensures
        route_spec(pdus, data) is Err,
    decreases data.len() - k,
{
    if k < data.len() {
        assert(data.take(k + 1).drop_last() =~= data.take(k));
        lemma_route_fault(pdus, data, k + 1);
    } else {
        assert(data.take(k) =~= data);
    }
}

/// Routes a value through every PDU.
fn route_pdus(pdus: &Vec<Pdu>, e: &SignalValue, out: &mut Vec<Routed>) -> (r: Result<(), Fault>)
    ensures
        match r {
            Ok(()) => route_pdus_spec(pdus@, (e.0@, e.1)) matches Ok(m) && routed_view(final(out)@)
                == routed_view(old(out)@) + m,
            Err(_) => route_pdus_spec(pdus@, (e.0@, e.1)) is Err,
        },
{
    let ghost ev = (e.0@, e.1);
    let ghost start = routed_view(out@);
    let n = pdus.len();
    proof {
        assert(pdus@.take(0) =~= Seq::<Pdu>::empty());
        assert(start + Seq::<(i32, (Seq<char>, u64))>::empty() =~= start);
    }
    for i in 0..n
        invariant
            n == pdus@.len(),
            ev == (e.0@, e.1),
            route_pdus_spec(pdus@.take(i as int), ev) matches Ok(m) && routed_view(out@) == start + m,
    {
        proof {
            assert(pdus@.take(i + 1).drop_last() =~= pdus@.take(i as int));
            assert(pdus@.take(i + 1).last() == pdus@[i as int]);
        }
        let ghost m = route_pdus_spec(pdus@.take(i as int), ev)->Ok_0;
        let ghost before = routed_view(out@);
        match &pdus[i].signals {
            None => {
                proof {
                    lemma_route_pdus_fault(pdus@, ev, i + 1);
                }
                return Err(Fault);
            },
            Some(sigs) => match route_signals(sigs, pdus[i].id, e, out) {
                Ok(()) => {
                    proof {
                        let m2 = route_signals_spec(sigs@, pdus@[i as int].id, ev)->Ok_0;
                        assert(routed_view(out@) =~= start + (m + m2));
                    }
                },
                Err(f) => {
                    proof {
                        lemma_route_pdus_fault(pdus@, ev, i + 1);
                    }
                    return Err(f);
                },
            },
        }
    }
    proof {
        assert(pdus@.take(n as int) =~= pdus@);
    }
    Ok(())
}

/// Routes every value to the PDUs with a signal of its name.
fn route(pdus: &Option<Vec<Pdu>>, data: &Vec<SignalValue>) -> (r: Result<Vec<Routed>, Fault>)
    ensures
        match r {
            Ok(v) => route_spec(*pdus, values_view(data@)) == Ok::<_, Fault>(routed_view(v@)),
            Err(_) => route_spec(*pdus, values_view(data@)) is Err,
        },
{
    let mut out: Vec<Routed> = Vec::new();
    let n = data.len();
    let ghost dv = values_view(data@);
    proof {
        assert(dv.take(0) =~= Seq::<(Seq<char>, u64)>::empty());
        assert(routed_view(out@) =~= Seq::<(i32, (Seq<char>, u64))>::empty());
    }
    for i in 0..n
        invariant
            n == data@.len(),
            dv == values_view(data@),
            route_spec(*pdus, dv.take(i as int)) == Ok::<_, Fault>(routed_view(out@)),
    {
        proof {
            assert(dv.take(i + 1).drop_last() =~= dv.take(i as int));
            assert(dv.take(i + 1).last() == dv[i as int]);
        }
        let ghost before = routed_view(out@);
        match pdus {
            None => {
                proof {
                    lemma_route_fault(*pdus, dv, i + 1);
                }
                return Err(Fault);
            },
            Some(p) => match route_pdus(p, &data[i], &mut out) {
                Ok(()) => {},
                Err(f) => {
                    proof {
                        lemma_route_fault(*pdus, dv, i + 1);
                    }
                    return Err(f);
                },
            },
        }
    }
    proof {
        assert(dv.take(n as int) =~= dv);
    }
    Ok(out)
}

/// The position of PDU `id`'s group.
fn find_group(groups: &Vec<(i32, Vec<SignalValue>)>, id: i32) -> (r: Option<usize>)
    ensures
        match r {
            Some(k) => group_index(groups_view(groups@), id) == Some(k as int) && k < groups@.len(),
            None => group_index(groups_view(groups@), id) is None,
        },
{
    let n = groups.len();
    let ghost gv = groups_view(groups@);
    proof {
        assert(gv.take(0) =~= Seq::<(i32, Seq<(Seq<char>, u64)>)>::empty());
    }
    for i in 0..n
        invariant
            n == groups@.len(),
            gv == groups_view(groups@),
            group_index(gv.take(i as int), id) is None,
    {
        proof {
            assert(gv.take(i + 1).drop_last() =~= gv.take(i as int));
            assert(gv.take(i + 1).last() == gv[i as int]);
        }
        if groups[i].0 == id {
            proof {
                lemma_group_index_prefix(gv, id, i + 1);
            }
            return Some(i);
        }
    }
    proof {
        assert(gv.take(n as int) =~= gv);
    }
    None
}

/// The first group with an id lies in every prefix that reaches past it.
proof fn lemma_group_index_prefix(groups: Seq<(i32, Seq<(Seq<char>, u64)>)>, id: i32, k: int)
    requires
        0 <= k <= groups.len(),
        group_index(groups.take(k), id) is Some,
    ensures
        group_index(groups, id) == group_index(groups.take(k), id),
    decreases groups.len() - k,
{
    if k < groups.len() {
        assert(groups.take(k + 1).drop_last() =~= groups.take(k));
        lemma_group_index_prefix(groups, id, k + 1);
    } else {
        assert(groups.take(k) =~= groups);
    }
}

/// The group found for an id carries that id.
pub proof fn lemma_group_index_hit(groups: Seq<(i32, Seq<(Seq<char>, u64)>)>, id: i32)
    ensures
        group_index(groups, id) matches Some(k) ==> 0 <= k < groups.len() && groups[k].0 == id,
    decreases groups.len(),
{
    if groups.len() > 0 {
        lemma_group_index_hit(groups.drop_last(), id);
    }
}

/// Groups routed values by PDU id.
fn group(pairs: &Vec<Routed>) -> (r: Vec<(i32, Vec<SignalValue>)>)
    ensures
        groups_view(r@) == group_spec(routed_view(pairs@)),
{
    let mut groups: Vec<(i32, Vec<SignalValue>)> = Vec::new();
    let n = pairs.len();
    let ghost pv = routed_view(pairs@);
    proof {
        assert(pv.take(0) =~= Seq::<(i32, (Seq<char>, u64))>::empty());
        assert(groups_view(groups@) =~= Seq::<(i32, Seq<(Seq<char>, u64)>)>::empty());
    }
    for i in 0..n
        invariant
            n == pairs@.len(),
            pv == routed_view(pairs@),
            groups_view(groups@) == group_spec(pv.take(i as int)),
    {
        proof {
            assert(pv.take(i + 1).drop_last() =~= pv.take(i as int));
            assert(pv.take(i + 1).last() == pv[i as int]);
        }
        let id = pairs[i].0;
        let c = copy_value(&pairs[i].1);
        let ghost prior = groups_view(groups@);
        match find_group(&groups, id) {
            Some(k) => {
                let ghost old_list = groups@[k as int].1@;
                let ghost old_groups = groups@;
                groups[k].1.push(c);
                proof {
                    assert(groups@.len() == old_groups.len());
                    assert(forall|j: int| 0 <= j < groups@.len() && j != k ==> groups@[j] == old_groups[j]);
                    assert(groups@[k as int].0 == old_groups[k as int].0);
                    lemma_group_index_hit(prior, id);
                    assert(prior[k as int].0 == id);
                    assert(values_view(groups@[k as int].1@) =~= values_view(old_list).push(pv[i as int].1));
                    assert(groups_view(groups@) =~= insert_routed(prior, pv[i as int]));
                }
            },
            None => {
                let mut list: Vec<SignalValue> = Vec::new();
                list.push(c);
                groups.push((id, list));
                proof {
                    assert(values_view(list@) =~= seq![pv[i as int].1]);
                    assert(groups_view(groups@) =~= insert_routed(prior, pv[i as int]));
                }
            },
        }
    }
    proof {
        assert(pv.take(n as int) =~= pv);
    }
    groups
}

/// A fault while encoding some groups is a fault of encoding them all.
proof fn lemma_emit_fault(pdus: Seq<Pdu>, groups: Seq<(i32, Seq<(Seq<char>, u64)>)>, k: int)
    requires
        0 <= k <= groups.len(),
        emit_spec(pdus, groups.take(k)) is Err,
    ensures
        emit_spec(pdus, groups) is Err,
    decreases groups.len() - k,
{
    if k < groups.len() {
        assert(groups.take(k + 1).drop_last() =~= groups.take(k));
        lemma_emit_fault(pdus, groups, k + 1);
    } else {
        assert(groups.take(k) =~= groups);
    }
}

impl Frame {
    /// Encodes each group into the first PDU with its id.
    fn emit(&self, groups: &Vec<(i32, Vec<SignalValue>)>) -> (r: Result<Vec<u8>, Fault>)
        requires
            self.pdus is Some,
        ensures
            match r {
                Ok(b) => emit_spec(self.pdus.unwrap()@, groups_view(groups@)) == Ok::<_, Fault>(b@),
                Err(_) => emit_spec(self.pdus.unwrap()@, groups_view(groups@)) is Err,
            },
    {
        let ghost pdus = self.pdus.unwrap()@;
        let ghost gv = groups_view(groups@);
        let mut out: Vec<u8> = Vec::new();
        let n = groups.len();
        proof {
            assert(gv.take(0) =~= Seq::<(i32, Seq<(Seq<char>, u64)>)>::empty());
        }
        for i in 0..n
            invariant
                n == groups@.len(),
                self.pdus is Some,
                pdus == self.pdus.unwrap()@,
                gv == groups_view(groups@),
                emit_spec(pdus, gv.take(i as int)) == Ok::<_, Fault>(out@),
        {
            proof {
                assert(gv.take(i + 1).drop_last() =~= gv.take(i as int));
                assert(gv.take(i + 1).last() == gv[i as int]);
            }
            match self.try_pdu_by_id(groups[i].0) {
                Err(f) => {
                    proof {
                        lemma_emit_fault(pdus, gv, i + 1);
                    }
                    return Err(f);
                },
                Ok(None) => {},
                Ok(Some(pdu)) => match self.try_encode_pdu_signals(pdu, &groups[i].1) {
                    Err(f) => {
                        proof {
                            lemma_emit_fault(pdus, gv, i + 1);
                        }
                        return Err(f);
                    },
                    Ok(mut b) => {
                        out.append(&mut b);
                    },
                },
            }
        }
        proof {
            assert(gv.take(n as int) =~= gv);
        }
        Ok(out)
    }

    /// Encodes signal values into a frame's payload, reporting a fault where encoding
    /// cannot proceed.
    pub fn try_encode(&self, data: Vec<SignalValue>) -> (r: Result<Option<Vec<u8>>, Fault>)
        ensures
            encoded_view(r) == encode_spec(*self, values_view(data@)),
    {
        match self.is_pdu_container {
            None => Ok(None),
            Some(false) => self.encode_plain(&data),
            Some(true) => {
                let pairs = match route(&self.pdus, &data) {
                    Ok(p) => p,
                    Err(f) => return Err(f),
                };
                match &self.pdus {
                    None => {
                        let v: Vec<u8> = Vec::new();
                        proof {
                            assert(v@ =~= Seq::<u8>::empty());
                        }
                        Ok(Some(v))
                    },
                    Some(_) => {
                        let groups = group(&pairs);
                        match self.emit(&groups) {
                            Ok(b) => Ok(Some(b)),
                            Err(f) => Err(f),
                        }
                    },
                }
            },
        }
    }

    /// Encodes signal values into a frame's payload. A container frame yields its PDUs
    /// that receive values, one after another; any other frame yields `length` bytes.
    /// `None` when the frame does not say whether it is a container.
    pub fn encode(&self, data: Vec<SignalValue>) -> (r: Option<Vec<u8>>)
        requires
            encode_spec(*self, values_view(data@)) is Ok,
        ensures
            encoded_view(Ok(r)) == encode_spec(*self, values_view(data@)),
    {
        let ghost dv = values_view(data@);
        match self.try_encode(data) {
            Ok(r) => r,
            Err(_) => None,
        }
    }
}

} // verus!
