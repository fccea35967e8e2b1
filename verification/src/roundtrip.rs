//! What decoding gives back of an encoding.

use crate::arxml_bean::{Frame, Signal};
use crate::bits::{
    bit_at, bit_text, bits_value, bytes_bits, digits, lemma_bits_of_pack, lemma_digits_value,
    lemma_padded_binary_fits, lemma_zero_digits, pack_spec, pow2, shr, write_bits,
};
use crate::codec::{
    all_binary, decode_spec, read_signal_spec, read_signals_spec, starts_char, text_bits,
};
use crate::encoder::{
    encode_spec, fill_signals_spec, lookup, place_signal_spec, place_value_spec, plain_encode_spec,
    zero_bits,
};
use vstd::prelude::*;

verus! {

/// First bit of a signal's field.
pub open spec fn sig_start(s: Signal) -> int {
    s.start_bit.unwrap() as int
}

/// Number of bits of a signal's field.
pub open spec fn sig_size(s: Signal) -> int {
    s.size.unwrap() as int
}

/// Bit `k` lies in the field of `s`.
pub open spec fn in_field(s: Signal, k: int) -> bool {
    sig_start(s) <= k < sig_start(s) + sig_size(s)
}

/// The signals are named, their fields are non-empty, lie within `nbits` bits, and do
/// not overlap.
pub open spec fn laid_out(sigs: Seq<Signal>, nbits: int) -> bool {
    &&& forall|i: int|
        #![trigger sigs[i]]
        0 <= i < sigs.len() ==> {
            &&& sigs[i].name is Some
            &&& sigs[i].start_bit is Some
            &&& sigs[i].size is Some
            &&& 0 <= sig_start(sigs[i])
            &&& 1 <= sig_size(sigs[i])
            &&& sig_start(sigs[i]) + sig_size(sigs[i]) <= nbits
        }
    &&& forall|i: int, j: int|
        #![trigger sigs[i], sigs[j]]
        0 <= i < j < sigs.len() ==> sig_start(sigs[i]) + sig_size(sigs[i]) <= sig_start(sigs[j])
            || sig_start(sigs[j]) + sig_size(sigs[j]) <= sig_start(sigs[i])
}

/// The value encoded for a signal: the one given under its name, zero when none is.
pub open spec fn value_for(data: Seq<(Seq<char>, u64)>, s: Signal) -> nat {
    match lookup(data, s.name.unwrap()@) {
        Some(v) => v as nat,
        None => 0,
    }
}

/// Each signal's value fits in its field and in an `i32`.
pub open spec fn values_fit(sigs: Seq<Signal>, data: Seq<(Seq<char>, u64)>) -> bool {
    forall|i: int|
        #![trigger sigs[i]]
        0 <= i < sigs.len() ==> value_for(data, sigs[i]) < pow2(sig_size(sigs[i]) as nat)
            && value_for(data, sigs[i]) <= i32::MAX
}

/// What decoding should give: each signal's name with its value, in signal order.
pub open spec fn expected_entries(sigs: Seq<Signal>, data: Seq<(Seq<char>, u64)>) -> Seq<
    (Seq<char>, i32),
> {
    Seq::new(sigs.len(), |i: int| (sigs[i].name.unwrap()@, value_for(data, sigs[i]) as i32))
}

/// The buffer after the first `m` signals are written: each of their fields holds its
/// value's digits and every other bit is clear.
pub open spec fn filled_as(buf: Seq<bool>, sigs: Seq<Signal>, data: Seq<(Seq<char>, u64)>, m: int) -> bool {
    &&& forall|i: int, k: int|
        #![trigger sigs[i], buf[k]]
        0 <= i < m && in_field(sigs[i], k) ==> buf[k] == digits(
            value_for(data, sigs[i]),
            sig_size(sigs[i]) as nat,
        )[k - sig_start(sigs[i])]
    &&& forall|k: int|
        0 <= k < buf.len() && (forall|i: int| 0 <= i < m ==> !in_field(#[trigger] sigs[i], k)) ==> !buf[k]
}

/// Writing the first `m` signals fills their fields with their digits.
proof fn lemma_fill(sigs: Seq<Signal>, data: Seq<(Seq<char>, u64)>, nbits: int, m: int)
    requires
        0 <= m <= sigs.len(),
        0 <= nbits <= i32::MAX,
        laid_out(sigs, nbits),
        values_fit(sigs, data),
    ensures
        fill_signals_spec(sigs.take(m), data, nbits as nat) matches Ok(buf) && buf.len() == nbits
            && filled_as(buf, sigs, data, m),
    decreases m,
{
    if m == 0 {
        assert(sigs.take(0) =~= Seq::<Signal>::empty());
    } else {
        let p = m - 1;
        lemma_fill(sigs, data, nbits, p);
        assert(sigs.take(m).drop_last() =~= sigs.take(p));
        assert(sigs.take(m).last() == sigs[p]);
        let buf = fill_signals_spec(sigs.take(p), data, nbits as nat)->Ok_0;
        let s = sigs[p];
        let st = s.start_bit.unwrap();
        let sz = s.size.unwrap();
        let v = value_for(data, s);
        let dg = digits(v, sz as nat);
        assert(fill_signals_spec(sigs.take(m), data, nbits as nat) == place_signal_spec(buf, s, data));
        match lookup(data, s.name.unwrap()@) {
            None => {
                lemma_zero_digits(sz as nat);
                assert(place_signal_spec(buf, s, data) == Ok::<_, crate::codec::Fault>(buf));
                assert forall|i: int, k: int|
                    #![trigger sigs[i], buf[k]]
                    0 <= i < m && in_field(sigs[i], k) implies buf[k] == digits(
                        value_for(data, sigs[i]),
                        sig_size(sigs[i]) as nat,
                    )[k - sig_start(sigs[i])] by {
                    if i == p {
                        assert forall|i2: int| 0 <= i2 < p implies !in_field(#[trigger] sigs[i2], k) by {
                            assert(sigs[i2] == sigs[i2]);
                        }
                        assert(!digits(0, sz as nat)[k - st]);
                    }
                }
                assert forall|k: int|
                    0 <= k < buf.len() && (forall|i: int| 0 <= i < m ==> !in_field(#[trigger] sigs[i], k))
                    implies !buf[k] by {
                    assert forall|i: int| 0 <= i < p implies !in_field(#[trigger] sigs[i], k) by {
                        assert(0 <= i < m);
                    }
                }
            },
            Some(w) => {
                assert(v == w);
                lemma_padded_binary_fits(v, sz as nat);
                assert(place_value_spec(buf, s, w) == Ok::<_, crate::codec::Fault>(
                    write_bits(buf, st as int, dg),
                ));
                let nb = write_bits(buf, st as int, dg);
                assert forall|i: int, k: int|
                    #![trigger sigs[i], nb[k]]
                    0 <= i < m && in_field(sigs[i], k) implies nb[k] == digits(
                        value_for(data, sigs[i]),
                        sig_size(sigs[i]) as nat,
                    )[k - sig_start(sigs[i])] by {
                    if i < p {
                        assert(!in_field(s, k));
                        assert(buf[k] == nb[k]);
                    }
                }
                assert forall|k: int|
                    0 <= k < nb.len() && (forall|i: int| 0 <= i < m ==> !in_field(#[trigger] sigs[i], k))
                    implies !nb[k] by {
                    assert(!in_field(sigs[p], k));
                    assert forall|i: int| 0 <= i < p implies !in_field(#[trigger] sigs[i], k) by {
                        assert(0 <= i < m);
                    }
                }
            },
        }
    }
}

/// The buffer holds each signal's value (`vals[i]` for signal `i`) in its field, and
/// every other bit is clear.
pub open spec fn holds_values(buf: Seq<bool>, sigs: Seq<Signal>, vals: Seq<nat>) -> bool {
    &&& vals.len() == sigs.len()
    &&& forall|i: int, k: int|
        #![trigger sigs[i], buf[k]]
        0 <= i < sigs.len() && in_field(sigs[i], k) ==> buf[k] == digits(
            vals[i],
            sig_size(sigs[i]) as nat,
        )[k - sig_start(sigs[i])]
}

/// Each value fits in its signal's field and in an `i32`.
pub open spec fn vals_fit(sigs: Seq<Signal>, vals: Seq<nat>) -> bool {
    forall|i: int|
        #![trigger sigs[i]]
        0 <= i < sigs.len() ==> vals[i] < pow2(sig_size(sigs[i]) as nat) && vals[i] <= i32::MAX
}

/// Each signal's name with its value, in signal order.
pub open spec fn named_values(sigs: Seq<Signal>, vals: Seq<nat>) -> Seq<(Seq<char>, i32)> {
    Seq::new(sigs.len(), |i: int| (sigs[i].name.unwrap()@, vals[i] as i32))
}

/// Reading the first `m` signals from the binary text of a buffer that holds their
/// values gives each signal's name with its value.
pub proof fn lemma_read(sigs: Seq<Signal>, vals: Seq<nat>, buf: Seq<bool>, m: int)
    requires
        0 <= m <= sigs.len(),
        buf.len() <= i32::MAX,
        laid_out(sigs, buf.len() as int),
        vals_fit(sigs, vals),
        holds_values(buf, sigs, vals),
    ensures
        read_signals_spec(sigs.take(m), bit_text(buf)) == Ok::<_, crate::codec::Fault>(
            Some(named_values(sigs, vals).take(m)),
        ),
    decreases m,
{
    let text = bit_text(buf);
    if m == 0 {
        assert(sigs.take(0) =~= Seq::<Signal>::empty());
        assert(named_values(sigs, vals).take(0) =~= Seq::<(Seq<char>, i32)>::empty());
    } else {
        let p = m - 1;
        lemma_read(sigs, vals, buf, p);
        assert(sigs.take(m).drop_last() =~= sigs.take(p));
        assert(sigs.take(m).last() == sigs[p]);
        let s = sigs[p];
        let st = s.start_bit.unwrap();
        let sz = s.size.unwrap();
        let v = vals[p];
        let field = text.subrange(st as int, st + sz);
        assert(starts_char(text, st as int));
        assert(starts_char(text, st + sz));
        assert(all_binary(field));
        assert forall|j: int| 0 <= j < sz implies #[trigger] text_bits(field)[j] == digits(v, sz as nat)[j] by {
            assert(in_field(sigs[p], st + j));
            assert(buf[st + j] == digits(v, sz as nat)[j]);
        }
        assert(text_bits(field) =~= digits(v, sz as nat));
        lemma_digits_value(v, sz as nat);
        assert(read_signal_spec(s, text) == Ok::<_, crate::codec::Fault>(
            Some((s.name.unwrap()@, v as i32)),
        ));
        assert(named_values(sigs, vals).take(m) =~= named_values(sigs, vals).take(p).push(
            (s.name.unwrap()@, v as i32),
        ));
    }
}

/// The value of each signal of a frame that carries its signals directly.
pub open spec fn plain_values(sigs: Seq<Signal>, data: Seq<(Seq<char>, u64)>) -> Seq<nat> {
    Seq::new(sigs.len(), |i: int| value_for(data, sigs[i]))
}

/// Decoding what a frame encodes gives back each signal's value: for a frame that
/// carries its signals directly in `length` bytes, as named, non-empty and non-overlapping
/// fields of its payload, encoding values that fit their fields yields `length` bytes,
/// and decoding those bytes yields every signal with the value given for it (zero for a
/// signal given no value), in signal order.
pub proof fn law_decode_inverts_encode(frame: Frame, data: Seq<(Seq<char>, u64)>)
    requires
        frame.is_pdu_container == Some(false),
        frame.length matches Some(l) && 0 <= l && l * 8 <= i32::MAX,
        frame.signals matches Some(sigs) && laid_out(sigs@, frame.length.unwrap() * 8) && values_fit(
            sigs@,
            data,
        ),
    ensures
        encode_spec(frame, data) matches Ok(Some(bytes)) && bytes.len() == frame.length.unwrap()
            && decode_spec(frame, bytes) == Ok::<_, crate::codec::Fault>(
            Some(expected_entries(frame.signals.unwrap()@, data)),
        ),
{
    let l = frame.length.unwrap();
    let sigs = frame.signals.unwrap()@;
    let nbits = l * 8;
    lemma_fill(sigs, data, nbits as int, sigs.len() as int);
    assert(sigs.take(sigs.len() as int) =~= sigs);
    let buf = fill_signals_spec(sigs, data, nbits as nat)->Ok_0;
    assert(plain_encode_spec(frame, data) == Ok::<_, crate::codec::Fault>(
        Some(pack_spec(buf, l as nat)),
    ));
    let bytes = pack_spec(buf, l as nat);
    lemma_bits_of_pack(buf, l as nat);
    assert(buf.take(8 * l) =~= buf);
    let vals = plain_values(sigs, data);
    assert(holds_values(buf, sigs, vals));
    lemma_read(sigs, vals, buf, sigs.len() as int);
    assert(named_values(sigs, vals).take(sigs.len() as int) =~= expected_entries(sigs, data));
}

} // verus!
