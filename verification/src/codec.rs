//! Decoding of frame payloads into signal values and encoding of signal values
//! into frame payloads.
//!
//! Signal values cross this module as integers: a decoded signal is the unsigned
//! binary number found in its bits, and a value to encode is written in binary.

use crate::arxml_bean::{Frame, Pdu, Signal};
use crate::bits::{binary_chars, bit_text, bits_value, bytearray_to_binary_string, bytes_bits};
use vstd::prelude::*;
use vstd::utf8::{encode_utf8, is_ascii_chars, is_ascii_chars_encode_utf8};

verus! {

/// An input on which the codec cannot proceed: a field it needs is missing, a bit
/// range cannot be addressed, a signal field is empty or its value exceeds `i32::MAX`,
/// or a container payload names a PDU the frame does not describe.
#[derive(Debug, Clone, Copy, PartialEq, Eq, Structural)]
pub struct Fault;

/// A decoded signal, as a name and a value.
pub type Entry = (String, i32);

/// What a list of decoded signals stands for.
pub open spec fn entries_view(v: Seq<Entry>) -> Seq<(Seq<char>, i32)> {
    v.map_values(|e: Entry| (e.0@, e.1))
}

/// What a decoding outcome stands for.
pub open spec fn decoded_view(r: Result<Option<Vec<Entry>>, Fault>) -> Result<
    Option<Seq<(Seq<char>, i32)>>,
    Fault,
> {
    match r {
        Ok(Some(v)) => Ok(Some(entries_view(v@))),
        Ok(None) => Ok(None),
        Err(f) => Err(f),
    }
}

/// `i` is where a character's encoding starts in the UTF-8 text, or its end.
pub open spec fn starts_char(text: Seq<u8>, i: int) -> bool {
    i == text.len() || (0 <= i < text.len() && !(0x80 <= text[i] <= 0xbf))
}

/// Every byte of the text is the digit `'0'` or `'1'`.
pub open spec fn all_binary(text: Seq<u8>) -> bool {
    forall|k: int| 0 <= k < text.len() ==> text[k] == 48 || text[k] == 49
}

/// The bits that a text of binary digits spells.
pub open spec fn text_bits(text: Seq<u8>) -> Seq<bool> {
    text.map_values(|c: u8| c == 49)
}

/// Reading one signal from a binary string given by its UTF-8 bytes: `Ok(None)` when
/// its field lies past the end or holds a character other than a binary digit,
/// otherwise the unsigned value of the field's digits under the signal's name.
pub open spec fn read_signal_spec(sig: Signal, text: Seq<u8>) -> Result<
    Option<(Seq<char>, i32)>,
    Fault,
> {
    match (sig.start_bit, sig.size) {
        (Some(st), Some(sz)) => {
            let s = #[verifier::truncate] (st as usize);
            let z = #[verifier::truncate] (sz as usize);
            if s + z > usize::MAX {
                Err(Fault)
            } else if s + z > text.len() {
                Ok(None)
            } else if !starts_char(text, s as int) || !starts_char(text, s + z) {
                Err(Fault)
            } else {
                let field = text.subrange(s as int, s + z);
                if !all_binary(field) {
                    Ok(None)
                } else if z == 0 || bits_value(text_bits(field)) > i32::MAX {
                    Err(Fault)
                } else {
                    match sig.name {
                        Some(n) => Ok(Some((n@, bits_value(text_bits(field)) as i32))),
                        None => Err(Fault),
                    }
                }
            }
        },
        _ => Err(Fault),
    }
}

/// Reading the signals in order; the first signal that cannot be read ends the reading.
pub open spec fn read_signals_spec(sigs: Seq<Signal>, text: Seq<u8>) -> Result<
    Option<Seq<(Seq<char>, i32)>>,
    Fault,
>
    decreases sigs.len(),
{
    if sigs.len() == 0 {
        Ok(Some(seq![]))
    } else {
        match read_signals_spec(sigs.drop_last(), text) {
            Ok(Some(prev)) => match read_signal_spec(sigs.last(), text) {
                Ok(Some(e)) => Ok(Some(prev.push(e))),
                Ok(None) => Ok(None),
                Err(f) => Err(f),
            },
            other => other,
        }
    }
}

/// Appending a digit doubles the value and adds the digit.
pub proof fn lemma_bits_value_push(bs: Seq<bool>, b: bool)
    ensures
        bits_value(bs.push(b)) == 2 * bits_value(bs) + (if b { 1nat } else { 0nat }),
{
    assert(bs.push(b).drop_last() =~= bs);
}

/// A prefix of a digit string never has a larger value than the whole string.
pub proof fn lemma_bits_value_prefix(bs: Seq<bool>, k: int)
    requires
        0 <= k <= bs.len(),
    ensures
        bits_value(bs.take(k)) <= bits_value(bs),
    decreases bs.len() - k,
{
    if k < bs.len() {
        lemma_bits_value_prefix(bs, k + 1);
        assert(bs.take(k + 1).drop_last() =~= bs.take(k));
        assert(bits_value(bs.take(k + 1)) == 2 * bits_value(bs.take(k)) + (if bs.take(k + 1).last() { 1nat } else { 0nat }));
    } else {
        assert(bs.take(k) =~= bs);
    }
}

/// Is `i` where a character starts in `text` (or its end)?
fn starts_char_at(text: &[u8], i: usize) -> (r: bool)
    requires
        i <= text@.len(),
    ensures
        r == starts_char(text@, i as int),
{
    i == text.len() || !(0x80 <= text[i] && text[i] <= 0xbf)
}

/// Reads one signal's value from a binary string given by its UTF-8 bytes.
#[verifier::loop_isolation(false)]
pub fn read_signal(sig: &Signal, text: &[u8]) -> (r: Result<Option<Entry>, Fault>)
    ensures
        match r {
            Ok(Some(e)) => read_signal_spec(*sig, text@) == Ok::<_, Fault>(Some((e.0@, e.1))),
            Ok(None) => read_signal_spec(*sig, text@) == Ok::<_, Fault>(None::<(Seq<char>, i32)>),
            Err(_) => read_signal_spec(*sig, text@) is Err,
        },
{
    let st = match sig.start_bit {
        Some(x) => x,
        None => return Err(Fault),
    };
    let sz = match sig.size {
        Some(x) => x,
        None => return Err(Fault),
    };
    let s = #[verifier::truncate] (st as usize);
    let z = #[verifier::truncate] (sz as usize);
    let e = match s.checked_add(z) {
        Some(e) => e,
        None => return Err(Fault),
    };
    if e > text.len() {
        return Ok(None);
    }
    if !starts_char_at(text, s) || !starts_char_at(text, e) {
        return Err(Fault);
    }
    let ghost field = text@.subrange(s as int, e as int);
    let mut k = s;
    while k < e
        invariant
            s <= k <= e,
            e <= text@.len(),
            field == text@.subrange(s as int, e as int),
            forall|j: int| 0 <= j < k - s ==> field[j] == 48 || field[j] == 49,
        decreases e - k,
    {
        if text[k] != 48 && text[k] != 49 {
            assert(field[k - s] == text@[k as int]);
            assert(!all_binary(field));
            return Ok(None);
        }
        k = k + 1;
    }
    assert(all_binary(field));
    if z == 0 {
        return Err(Fault);
    }
    let ghost bits = text_bits(field);
    let mut acc: u64 = 0;
    let mut k = s;
    proof {
        assert(bits.take(0) =~= Seq::<bool>::empty());
    }
    while k < e
        invariant
            s <= k <= e,
            e <= text@.len(),
            field == text@.subrange(s as int, e as int),
            bits == text_bits(field),
            bits.len() == e - s,
            acc == bits_value(bits.take(k - s)),
            acc <= i32::MAX,
        decreases e - k,
    {
        let d: u64 = if text[k] == 49 { 1 } else { 0 };
        proof {
            assert(bits.take(k - s + 1) =~= bits.take(k - s).push(bits[k - s]));
            lemma_bits_value_push(bits.take(k - s), bits[k - s]);
            assert(field[k - s] == text@[k as int]);
            assert(bits[k - s] == (text@[k as int] == 49));
        }
        acc = acc * 2 + d;
        if acc > i32::MAX as u64 {
            proof {
                lemma_bits_value_prefix(bits, k - s + 1);
            }
            return Err(Fault);
        }
        k = k + 1;
    }
    proof {
        assert(bits.take(e - s) =~= bits);
    }
    let name = match &sig.name {
        Some(n) => n.clone(),
        None => return Err(Fault),
    };
    Ok(Some((name, acc as i32)))
}

/// Reads the signals in order from a binary string given by its UTF-8 bytes.
pub fn read_signals(sigs: &Vec<Signal>, text: &[u8]) -> (r: Result<Option<Vec<Entry>>, Fault>)
    ensures
        decoded_view(r) == read_signals_spec(sigs@, text@),
{
    let mut out: Vec<Entry> = Vec::new();
    let n = sigs.len();
    proof {
        assert(sigs@.take(0) =~= Seq::<Signal>::empty());
        assert(entries_view(out@) =~= Seq::<(Seq<char>, i32)>::empty());
    }
    for i in 0..n
        invariant
            n == sigs@.len(),
            read_signals_spec(sigs@.take(i as int), text@) == Ok::<_, Fault>(
                Some(entries_view(out@)),
            ),
    {
        proof {
            assert(sigs@.take(i + 1).drop_last() =~= sigs@.take(i as int));
            assert(sigs@.take(i + 1).last() == sigs@[i as int]);
        }
        match read_signal(&sigs[i], text) {
            Ok(Some(e)) => {
                let ghost ev = (e.0@, e.1);
                let ghost before = out@;
                out.push(e);
                proof {
                    assert(entries_view(out@) =~= entries_view(before).push(ev));
                }
            },
            Ok(None) => {
                proof {
                    lemma_read_signals_stops(sigs@, text@, i + 1);
                    assert(sigs@.take(n as int) =~= sigs@);
                }
                return Ok(None);
            },
            Err(f) => {
                proof {
                    lemma_read_signals_stops(sigs@, text@, i + 1);
                    assert(sigs@.take(n as int) =~= sigs@);
                }
                return Err(f);
            },
        }
    }
    proof {
        assert(sigs@.take(n as int) =~= sigs@);
    }
    Ok(Some(out))
}

/// Once reading a prefix of the signals stops, reading all of them stops the same way.
pub proof fn lemma_read_signals_stops(sigs: Seq<Signal>, text: Seq<u8>, k: int)
    requires
        0 <= k <= sigs.len(),
        !(read_signals_spec(sigs.take(k), text) is Ok && read_signals_spec(sigs.take(k), text)->Ok_0 is Some),
    ensures
        read_signals_spec(sigs, text) == read_signals_spec(sigs.take(k), text),
    decreases sigs.len() - k,
{
    if k < sigs.len() {
        assert(sigs.take(k + 1).drop_last() =~= sigs.take(k));
        lemma_read_signals_stops(sigs, text, k + 1);
    } else {
        assert(sigs.take(k) =~= sigs);
    }
}

/// Position of the first PDU whose id is `id`.
pub open spec fn pdu_index(pdus: Seq<Pdu>, id: i32) -> Option<int>
    decreases pdus.len(),
{
    if pdus.len() == 0 {
        None
    } else {
        match pdu_index(pdus.drop_last(), id) {
            Some(i) => Some(i),
            None => if pdus.last().id == Some(id) {
                Some(pdus.len() - 1)
            } else {
                None
            },
        }
    }
}

/// Looking a PDU up by id, reading each PDU's id in turn: a PDU without an id that is
/// met before the first match is a fault.
pub open spec fn pdu_lookup(pdus: Seq<Pdu>, id: i32) -> Result<Option<int>, Fault>
    decreases pdus.len(),
{
    if pdus.len() == 0 {
        Ok(None)
    } else {
        match pdu_lookup(pdus.drop_last(), id) {
            Ok(None) => match pdus.last().id {
                None => Err(Fault),
                Some(x) => if x == id {
                    Ok(Some(pdus.len() - 1))
                } else {
                    Ok(None)
                },
            },
            other => other,
        }
    }
}

/// Decoding the payload of PDU `pdu_id`, given as the UTF-8 bytes of its binary string:
/// nothing when the frame lists no PDUs, `Ok(None)` when it lists none with that id,
/// otherwise the signals of the first PDU with that id, read in order.
pub open spec fn unpack_spec(frame: Frame, pdu_id: u32, text: Seq<u8>) -> Result<
    Option<Seq<(Seq<char>, i32)>>,
    Fault,
> {
    match frame.pdus {
        None => Ok(Some(seq![])),
        Some(pdus) => match pdu_index(pdus@, pdu_id as i32) {
            None => Ok(None),
            Some(i) => match pdus@[i].signals {
                None => Ok(Some(seq![])),
                Some(sigs) => read_signals_spec(sigs@, text),
            },
        },
    }
}

/// The first position with a matching id lies in every prefix that reaches past it.
proof fn lemma_pdu_index_prefix(pdus: Seq<Pdu>, id: i32, k: int)
    requires
        0 <= k <= pdus.len(),
        pdu_index(pdus.take(k), id) is Some,
    ensures
        pdu_index(pdus, id) == pdu_index(pdus.take(k), id),
    decreases pdus.len() - k,
{
    if k < pdus.len() {
        assert(pdus.take(k + 1).drop_last() =~= pdus.take(k));
        lemma_pdu_index_prefix(pdus, id, k + 1);
    } else {
        assert(pdus.take(k) =~= pdus);
    }
}

/// A lookup that settles on a prefix settles the same way on the whole list.
proof fn lemma_pdu_lookup_prefix(pdus: Seq<Pdu>, id: i32, k: int)
    requires
        0 <= k <= pdus.len(),
        pdu_lookup(pdus.take(k), id) != Ok::<Option<int>, Fault>(None),
    ensures
        pdu_lookup(pdus, id) == pdu_lookup(pdus.take(k), id),
    decreases pdus.len() - k,
{
    if k < pdus.len() {
        assert(pdus.take(k + 1).drop_last() =~= pdus.take(k));
        lemma_pdu_lookup_prefix(pdus, id, k + 1);
    } else {
        assert(pdus.take(k) =~= pdus);
    }
}

/// Position of the first PDU with the given id.
fn find_pdu(pdus: &Vec<Pdu>, id: i32) -> (r: Option<usize>)
    ensures
        match r {
            Some(i) => pdu_index(pdus@, id) == Some(i as int) && i < pdus@.len(),
            None => pdu_index(pdus@, id) is None,
        },
{
    let n = pdus.len();
    proof {
        assert(pdus@.take(0) =~= Seq::<Pdu>::empty());
    }
    for i in 0..n
        invariant
            n == pdus@.len(),
            pdu_index(pdus@.take(i as int), id) is None,
    {
        proof {
            assert(pdus@.take(i + 1).drop_last() =~= pdus@.take(i as int));
        }
        let hit = match pdus[i].id {
            Some(x) => x == id,
            None => false,
        };
        if hit {
            proof {
                lemma_pdu_index_prefix(pdus@, id, i + 1);
            }
            return Some(i);
        }
    }
    proof {
        assert(pdus@.take(n as int) =~= pdus@);
    }
    None
}

impl Frame {
    /// Looks up the first PDU with the given id; every PDU met on the way must carry an id.
    pub fn try_pdu_by_id(&self, id: i32) -> (r: Result<Option<&Pdu>, Fault>)
        ensures
            match self.pdus {
                None => r is Err,
                Some(pdus) => match pdu_lookup(pdus@, id) {
                    Err(_) => r is Err,
                    Ok(None) => r == Ok::<Option<&Pdu>, Fault>(None),
                    Ok(Some(i)) => r matches Ok(Some(p)) && *p == pdus@[i],
                },
            },
    {
        let pdus = match &self.pdus {
            Some(p) => p,
            None => return Err(Fault),
        };
        let n = pdus.len();
        proof {
            assert(pdus@.take(0) =~= Seq::<Pdu>::empty());
        }
        for i in 0..n
            invariant
                n == pdus@.len(),
                self.pdus == Some(*pdus),
                pdu_lookup(pdus@.take(i as int), id) == Ok::<Option<int>, Fault>(None),
        {
            proof {
                assert(pdus@.take(i + 1).drop_last() =~= pdus@.take(i as int));
                assert(pdus@.take(i + 1).last() == pdus@[i as int]);
            }
            match pdus[i].id {
                None => {
                    proof {
                        lemma_pdu_lookup_prefix(pdus@, id, i + 1);
                    }
                    return Err(Fault);
                },
                Some(x) => {
                    if x == id {
                        proof {
                            lemma_pdu_lookup_prefix(pdus@, id, i + 1);
                        }
                        return Ok(Some(&pdus[i]));
                    }
                },
            }
        }
        proof {
            assert(pdus@.take(n as int) =~= pdus@);
        }
        Ok(None)
    }

    /// Returns the first PDU with the given id, or `None` when no PDU has it.
    pub fn pdu_by_id(&self, id: i32) -> (r: Option<&Pdu>)
        requires
            self.pdus matches Some(pdus) && pdu_lookup(pdus@, id) is Ok,
        ensures
            match pdu_lookup(self.pdus.unwrap()@, id) {
                Ok(Some(i)) => r matches Some(p) && *p == self.pdus.unwrap()@[i],
                _ => r is None,
            },
    {
        match self.try_pdu_by_id(id) {
            Ok(r) => r,
            Err(_) => None,
        }
    }

    /// Decodes the payload of PDU `pdu_id`, given as the UTF-8 bytes of its binary string.
    pub fn unpack_text(&self, pdu_id: u32, text: &[u8]) -> (r: Result<Option<Vec<Entry>>, Fault>)
        ensures
            decoded_view(r) == unpack_spec(*self, pdu_id, text@),
    {
        match &self.pdus {
            None => {
                let v: Vec<Entry> = Vec::new();
                proof {
                    assert(entries_view(v@) =~= Seq::<(Seq<char>, i32)>::empty());
                }
                Ok(Some(v))
            },
            Some(pdus) => {
                let wanted = #[verifier::truncate] (pdu_id as i32);
                match find_pdu(pdus, wanted) {
                    None => Ok(None),
                    Some(i) => match &pdus[i].signals {
                        None => {
                            let v: Vec<Entry> = Vec::new();
                            proof {
                                assert(entries_view(v@) =~= Seq::<(Seq<char>, i32)>::empty());
                            }
                            Ok(Some(v))
                        },
                        Some(sigs) => read_signals(sigs, text),
                    },
                }
            },
        }
    }

    /// Decodes the signals of PDU `pdu_id` from its payload given as a binary string,
    /// reporting a fault where decoding cannot proceed.
    pub fn try_unpack_pdu(&self, pdu_id: &u32, data: &String) -> (r: Result<
        Option<Vec<Entry>>,
        Fault,
    >)
        ensures
            decoded_view(r) == unpack_spec(*self, *pdu_id, encode_utf8(data@)),
    {
        let text = data.as_str().as_bytes();
        self.unpack_text(*pdu_id, text)
    }

    /// Decodes the signals of PDU `pdu_id` from its payload given as a binary string:
    /// `None` when the frame describes no PDU with that id, or when a signal's field lies
    /// past the end of the string or holds a character other than `'0'`/`'1'`.
    pub fn unpack_pdu(&self, pdu_id: &u32, data: &String) -> (r: Option<Vec<Entry>>)
        requires
            unpack_spec(*self, *pdu_id, encode_utf8(data@)) is Ok,
        ensures
            decoded_view(Ok(r)) == unpack_spec(*self, *pdu_id, encode_utf8(data@)),
    {
        match self.try_unpack_pdu(pdu_id, data) {
            Ok(r) => r,
            Err(_) => None,
        }
    }
}

/// The id in the PDU header at `i`: three bytes, most significant first.
pub open spec fn header_id(data: Seq<u8>, i: int) -> u32 {
    (data[i] as int * 65536 + data[i + 1] as int * 256 + data[i + 2] as int) as u32
}

/// Decoding the PDUs of a container payload from position `index` on, after `acc` has
/// been decoded. Each PDU is a header (three-byte id, one-byte size) and `size` payload
/// bytes. A PDU cut short by the end of the data voids the whole result, and a PDU that
/// the frame does not describe is a fault.
pub open spec fn container_spec(
    frame: Frame,
    data: Seq<u8>,
    index: int,
    acc: Seq<(Seq<char>, i32)>,
) -> Result<Option<Seq<(Seq<char>, i32)>>, Fault>
    decreases data.len() - index,
{
    if index + 4 > data.len() {
        Ok(Some(acc))
    } else {
        let size = data[index + 3] as int;
        let j = index + 4;
        if j + size > data.len() {
            Ok(Some(seq![]))
        } else {
            match unpack_spec(
                frame,
                header_id(data, index),
                bit_text(bytes_bits(data.subrange(j, j + size))),
            ) {
                Ok(Some(es)) => container_spec(frame, data, j + size, acc + es),
                Ok(None) => Err(Fault),
                Err(f) => Err(f),
            }
        }
    }
}

/// Decoding a frame's payload: the PDUs of a container frame, the signals of any other
/// frame (read from the payload's bits), and nothing when the frame does not say whether
/// it is a container.
pub open spec fn decode_spec(frame: Frame, data: Seq<u8>) -> Result<
    Option<Seq<(Seq<char>, i32)>>,
    Fault,
> {
    match frame.is_pdu_container {
        None => Ok(Some(seq![])),
        Some(true) => container_spec(frame, data, 0, seq![]),
        Some(false) => match frame.signals {
            None => Ok(Some(seq![])),
            Some(sigs) => read_signals_spec(sigs@, bit_text(bytes_bits(data))),
        },
    }
}

/// The binary string of some bytes, as UTF-8, is one ASCII digit per bit.
pub proof fn lemma_binary_string_bytes(bytes: Seq<u8>)
    ensures
        encode_utf8(binary_chars(bytes)) == bit_text(bytes_bits(bytes)),
{
    let chars = binary_chars(bytes);
    assert(is_ascii_chars(chars));
    is_ascii_chars_encode_utf8(chars);
    assert(encode_utf8(chars) =~= bit_text(bytes_bits(bytes)));
}

impl Frame {
    /// Decodes a frame's payload into signal values, reporting a fault where decoding
    /// cannot proceed.
    pub fn try_decode(&self, data: &[u8]) -> (r: Result<Option<Vec<Entry>>, Fault>)
        ensures
            decoded_view(r) == decode_spec(*self, data@),
    {
        match self.is_pdu_container {
            None => {
                let v: Vec<Entry> = Vec::new();
                proof {
                    assert(entries_view(v@) =~= Seq::<(Seq<char>, i32)>::empty());
                }
                Ok(Some(v))
            },
            Some(true) => self.decode_container(data),
            Some(false) => match &self.signals {
                None => {
                    let v: Vec<Entry> = Vec::new();
                    proof {
                        assert(entries_view(v@) =~= Seq::<(Seq<char>, i32)>::empty());
                    }
                    Ok(Some(v))
                },
                Some(sigs) => {
                    let binary_data = bytearray_to_binary_string(data);
                    proof {
                        lemma_binary_string_bytes(data@);
                    }
                    read_signals(sigs, binary_data.as_str().as_bytes())
                },
            },
        }
    }

    /// Decodes the PDUs of a container frame's payload.
    fn decode_container(&self, data: &[u8]) -> (r: Result<Option<Vec<Entry>>, Fault>)
        ensures
            decoded_view(r) == container_spec(*self, data@, 0, seq![]),
    {
        let mut values: Vec<Entry> = Vec::new();
        let mut index: usize = 0;
        proof {
            assert(entries_view(values@) =~= Seq::<(Seq<char>, i32)>::empty());
        }
        while data.len() - index >= 4
            invariant
                index <= data@.len(),
                container_spec(*self, data@, 0, seq![]) == container_spec(
                    *self,
                    data@,
                    index as int,
                    entries_view(values@),
                ),
            decreases data@.len() - index,
        {
            let pdu_id: u32 = (data[index] as u32) * 65536 + (data[index + 1] as u32) * 256
                + (data[index + 2] as u32);
            let pdu_size = data[index + 3] as usize;
            let j = index + 4;
            if pdu_size > data.len() - j {
                let v: Vec<Entry> = Vec::new();
                proof {
                    assert(entries_view(v@) =~= Seq::<(Seq<char>, i32)>::empty());
                }
                return Ok(Some(v));
            }
            let pdu_data = &data[j..j + pdu_size];
            let pdu_data_str = bytearray_to_binary_string(pdu_data);
            proof {
                lemma_binary_string_bytes(pdu_data@);
            }
            match self.try_unpack_pdu(&pdu_id, &pdu_data_str) {
                Err(f) => return Err(f),
                Ok(None) => return Err(Fault),
                Ok(Some(mut found)) => {
                    let ghost before = values@;
                    let ghost more = found@;
                    values.append(&mut found);
                    proof {
                        assert(entries_view(values@) =~= entries_view(before) + entries_view(
                            more,
                        ));
                    }
                },
            }
            index = j + pdu_size;
        }
        Ok(Some(values))
    }

    /// Decodes a frame's payload into signal values, by signal name in decoding order
    /// (where a name comes twice, the later entry is its value: see `last_values`).
    /// `None` when a signal's field lies past the end of the payload; an empty result when
    /// the frame does not say whether it carries PDUs, or when a PDU is cut short.
    pub fn decode(&self, data: &[u8]) -> (r: Option<Vec<Entry>>)
        requires
            decode_spec(*self, data@) is Ok,
        ensures
            decoded_view(Ok(r)) == decode_spec(*self, data@),
    {
        match self.try_decode(data) {
            Ok(r) => r,
            Err(_) => None,
        }
    }
}


/// The entries of a list whose name is not `n`, in list order.
pub open spec fn without_name(es: Seq<(Seq<char>, i32)>, n: Seq<char>) -> Seq<(Seq<char>, i32)>
    decreases es.len(),
{
    if es.len() == 0 {
        seq![]
    } else if es.last().0 == n {
        without_name(es.drop_last(), n)
    } else {
        without_name(es.drop_last(), n).push(es.last())
    }
}

/// Decoded values read by name, a later entry replacing an earlier one of the same name:
/// the last entry of each name, in list order.
pub open spec fn last_values_spec(es: Seq<(Seq<char>, i32)>) -> Seq<(Seq<char>, i32)>
    decreases es.len(),
{
    if es.len() == 0 {
        seq![]
    } else {
        without_name(last_values_spec(es.drop_last()), es.last().0).push(es.last())
    }
}

/// No name occurs twice in a list of decoded values.
pub open spec fn distinct_entry_names(es: Seq<(Seq<char>, i32)>) -> bool {
    forall|i: int, j: int| 0 <= i < j < es.len() ==> es[i].0 != es[j].0
}

/// Dropping the entries named `n` leaves no entry named `n`, brings in no name, and
/// keeps the names distinct.
pub proof fn lemma_without_name(es: Seq<(Seq<char>, i32)>, n: Seq<char>, m: Seq<char>)
    ensures
        forall|k: int| 0 <= k < without_name(es, n).len() ==> #[trigger] without_name(es, n)[k].0 != n,
        (forall|j: int| 0 <= j < es.len() ==> #[trigger] es[j].0 != m) ==> forall|k: int|
            0 <= k < without_name(es, n).len() ==> #[trigger] without_name(es, n)[k].0 != m,
        distinct_entry_names(es) ==> distinct_entry_names(without_name(es, n)),
    decreases es.len(),
{
    if es.len() > 0 {
        let init = es.drop_last();
        lemma_without_name(init, n, m);
        lemma_without_name(init, n, es.last().0);
        assert(forall|j: int| 0 <= j < init.len() ==> init[j] == es[j]);
        let w0 = without_name(init, n);
        let w = without_name(es, n);
        if es.last().0 != n {
            assert(w == w0.push(es.last()));
            assert(forall|k: int| 0 <= k < w0.len() ==> w[k] == w0[k]);
            assert forall|k: int| 0 <= k < w.len() implies #[trigger] w[k].0 != n by {
                if k < w0.len() {
                    assert(w[k] == w0[k]);
                }
            }
            if forall|j: int| 0 <= j < es.len() ==> #[trigger] es[j].0 != m {
                assert(es[es.len() - 1].0 != m);
                assert forall|j: int| 0 <= j < init.len() implies #[trigger] init[j].0 != m by {
                    assert(es[j].0 != m);
                }
                assert forall|k: int| 0 <= k < w.len() implies #[trigger] w[k].0 != m by {
                    if k < w0.len() {
                        assert(w[k] == w0[k]);
                    }
                }
            }
            if distinct_entry_names(es) {
                assert forall|j: int| 0 <= j < init.len() implies #[trigger] init[j].0 != es.last().0 by {
                    assert(es[j].0 != es[es.len() - 1].0);
                }
                assert forall|i: int, j: int| 0 <= i < j < w.len() implies w[i].0 != w[j].0 by {
                    assert(w[i] == w0[i]);
                    if j < w0.len() {
                        assert(w[j] == w0[j]);
                    } else {
                        assert(w0[i].0 != es.last().0);
                    }
                }
            }
        } else {
            assert(w == w0);
            if forall|j: int| 0 <= j < es.len() ==> #[trigger] es[j].0 != m {
                assert forall|j: int| 0 <= j < init.len() implies #[trigger] init[j].0 != m by {
                    assert(es[j].0 != m);
                }
            }
        }
    }
}

/// Keeps the entries of `v` whose name is not `name`.
fn drop_name(v: &Vec<Entry>, name: &String) -> (r: Vec<Entry>)
    ensures
        entries_view(r@) == without_name(entries_view(v@), name@),
{
    let mut out: Vec<Entry> = Vec::new();
    let n = v.len();
    proof {
        assert(entries_view(v@).take(0) =~= Seq::<(Seq<char>, i32)>::empty());
        assert(entries_view(out@) =~= Seq::<(Seq<char>, i32)>::empty());
    }
    for i in 0..n
        invariant
            n == v@.len(),
            entries_view(out@) == without_name(entries_view(v@).take(i as int), name@),
    {
        let ghost ev = entries_view(v@);
        proof {
            assert(ev.take(i + 1).drop_last() =~= ev.take(i as int));
            assert(ev.take(i + 1).last() == ev[i as int]);
        }
        if v[i].0 != *name {
            let e = (v[i].0.clone(), v[i].1);
            let ghost before = entries_view(out@);
            out.push(e);
            proof {
                assert(entries_view(out@) =~= before.push(ev[i as int]));
            }
        }
    }
    proof {
        assert(entries_view(v@).take(n as int) =~= entries_view(v@));
    }
    out
}

/// Decoded values read by name: for each name only its last entry, in list order, so
/// that no name occurs twice.
pub fn last_values(entries: &Vec<Entry>) -> (r: Vec<Entry>)
    ensures
        entries_view(r@) == last_values_spec(entries_view(entries@)),
        distinct_entry_names(entries_view(r@)),
{
    let mut out: Vec<Entry> = Vec::new();
    let n = entries.len();
    proof {
        assert(entries_view(entries@).take(0) =~= Seq::<(Seq<char>, i32)>::empty());
        assert(entries_view(out@) =~= Seq::<(Seq<char>, i32)>::empty());
    }
    for i in 0..n
        invariant
            n == entries@.len(),
            entries_view(out@) == last_values_spec(entries_view(entries@).take(i as int)),
            distinct_entry_names(entries_view(out@)),
    {
        let ghost ev = entries_view(entries@);
        proof {
            assert(ev.take(i + 1).drop_last() =~= ev.take(i as int));
            assert(ev.take(i + 1).last() == ev[i as int]);
        }
        let mut kept = drop_name(&out, &entries[i].0);
        let e = (entries[i].0.clone(), entries[i].1);
        let ghost w = entries_view(kept@);
        proof {
            lemma_without_name(entries_view(out@), ev[i as int].0, ev[i as int].0);
        }
        kept.push(e);
        proof {
            assert(entries_view(kept@) =~= w.push(ev[i as int]));
        }
        out = kept;
    }
    proof {
        assert(entries_view(entries@).take(n as int) =~= entries_view(entries@));
    }
    out
}


/// The container payload from `index` on is whole PDUs: each header is followed by all
/// the payload bytes its size gives, and the last one ends at the end of the data.
pub open spec fn whole_pdus(data: Seq<u8>, index: int) -> bool
    decreases data.len() - index,
{
    if index == data.len() {
        true
    } else if 0 <= index && index + 4 <= data.len() {
        let j = index + 4 + data[index + 3] as int;
        j <= data.len() && whole_pdus(data, j)
    } else {
        false
    }
}

/// Decoding from a position of whole PDUs reads the same with fewer than four bytes
/// after the end.
proof fn lemma_container_short_tail(
    frame: Frame,
    data: Seq<u8>,
    t: Seq<u8>,
    index: int,
    acc: Seq<(Seq<char>, i32)>,
)
    requires
        whole_pdus(data, index),
        0 <= index <= data.len(),
        t.len() < 4,
    ensures
        container_spec(frame, data + t, index, acc) == container_spec(frame, data, index, acc),
    decreases data.len() - index,
{
    let d = data + t;
    if index < data.len() {
        let size = data[index + 3] as int;
        let j = index + 4 + size;
        assert(d[index + 3] == data[index + 3]);
        assert(header_id(d, index) == header_id(data, index));
        assert(d.subrange(index + 4, j) =~= data.subrange(index + 4, j));
        match unpack_spec(frame, header_id(data, index), bit_text(bytes_bits(data.subrange(index + 4, j)))) {
            Ok(Some(es)) => {
                lemma_container_short_tail(frame, data, t, j, acc + es);
            },
            _ => {},
        }
    }
}

/// A container payload of whole PDUs decodes the same when fewer than four bytes follow
/// it: a trailing piece too short to hold a PDU header is ignored.
pub proof fn law_decode_ignores_short_tail(frame: Frame, data: Seq<u8>, t: Seq<u8>)
    requires
        frame.is_pdu_container == Some(true),
        whole_pdus(data, 0),
        t.len() < 4,
    ensures
        decode_spec(frame, data + t) == decode_spec(frame, data),
{
    lemma_container_short_tail(frame, data, t, 0, seq![]);
}

} // verus!
