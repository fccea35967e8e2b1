//! What encoding leaves out and what it overwrites.

use crate::arxml_bean::{Frame, Pdu, Signal};
use crate::bits::{lemma_padded_binary_fits, pow2, write_bits};
use crate::container_roundtrip::lemma_signal_index_hit;
use crate::encoder::{
    encode_spec, fill_pdu_spec, fill_signals_spec, lookup, pdu_encode_spec, place_pdu_value_spec,
    place_signal_spec, place_value_spec, signal_index,
};
use vstd::prelude::*;

verus! {

/// The field of `s` has a start and a size, both non-negative, and ends past bit `len8`.
pub open spec fn field_past(s: Signal, len8: int) -> bool {
    s.start_bit matches Some(st) && s.size matches Some(sz) && st >= 0 && sz >= 0 && st + sz > len8
}

/// Filling signals gives `len8` bits.
proof fn lemma_fill_signals_len(sigs: Seq<Signal>, data: Seq<(Seq<char>, u64)>, len8: nat)
    ensures
        fill_signals_spec(sigs, data, len8) matches Ok(b) ==> b.len() == len8,
    decreases sigs.len(),
{
    if sigs.len() > 0 {
        lemma_fill_signals_len(sigs.drop_last(), data, len8);
    }
}

/// Filling listed PDU values gives `len8` bits.
proof fn lemma_fill_pdu_len(sigs: Option<Vec<Signal>>, list: Seq<(Seq<char>, u64)>, len8: nat)
    ensures
        fill_pdu_spec(sigs, list, len8) matches Ok(b) ==> b.len() == len8,
    decreases list.len(),
{
    if list.len() > 0 {
        lemma_fill_pdu_len(sigs, list.drop_last(), len8);
    }
}

/// A signal whose field ends past the buffer writes nothing.
proof fn lemma_fill_skips_signal(sigs: Seq<Signal>, k: int, data: Seq<(Seq<char>, u64)>, len8: nat)
    requires
        0 <= k < sigs.len(),
        sigs[k].name is Some,
        field_past(sigs[k], len8 as int),
    ensures
        fill_signals_spec(sigs, data, len8) == fill_signals_spec(sigs.remove(k), data, len8),
    decreases sigs.len(),
{
    let init = sigs.drop_last();
    lemma_fill_signals_len(init, data, len8);
    if k == sigs.len() - 1 {
        assert(sigs.remove(k) =~= init);
    } else {
        lemma_fill_skips_signal(init, k, data, len8);
        assert(sigs.remove(k).drop_last() =~= init.remove(k));
        assert(sigs.remove(k).last() == sigs.last());
    }
}

/// Encoding leaves out a signal whose field ends past the payload: a plain frame encodes
/// the same bytes with that signal removed from its list.
pub proof fn law_encode_skips_signal_past_end(
    f: Frame,
    g: Frame,
    sv: Vec<Signal>,
    gv: Vec<Signal>,
    k: int,
    l: i32,
    data: Seq<(Seq<char>, u64)>,
)
    requires
        f.is_pdu_container == Some(false),
        f.length == Some(l),
        0 <= l,
        f.signals == Some(sv),
        g == (Frame { signals: Some(gv), ..f }),
        0 <= k < sv@.len(),
        gv@ == sv@.remove(k),
        sv@[k].name is Some,
        field_past(sv@[k], 8 * l),
    ensures
        encode_spec(g, data) == encode_spec(f, data),
{
    if l * 8 <= i32::MAX {
        lemma_fill_skips_signal(sv@, k, data, (l * 8) as nat);
    }
}

/// The value listed for a name is not changed by a value listed under another name.
proof fn lemma_lookup_insert(data: Seq<(Seq<char>, u64)>, p: int, e: (Seq<char>, u64), n: Seq<char>)
    requires
        0 <= p <= data.len(),
        e.0 != n,
    ensures
        lookup(data.insert(p, e), n) == lookup(data, n),
    decreases data.len(),
{
    let d2 = data.insert(p, e);
    if p == 0 {
        assert(d2.drop_first() =~= data);
    } else {
        assert(d2[0] == data[0]);
        if data[0].0 != n {
            assert(d2.drop_first() =~= data.drop_first().insert(p - 1, e));
            lemma_lookup_insert(data.drop_first(), p - 1, e, n);
        }
    }
}

/// Filling signals ignores a value listed under a name that no signal has.
proof fn lemma_fill_ignores_name(
    sigs: Seq<Signal>,
    data: Seq<(Seq<char>, u64)>,
    p: int,
    e: (Seq<char>, u64),
    len8: nat,
)
    requires
        0 <= p <= data.len(),
        forall|i: int| 0 <= i < sigs.len() ==> (#[trigger] sigs[i].name matches Some(n) ==> n@ != e.0),
    ensures
        fill_signals_spec(sigs, data.insert(p, e), len8) == fill_signals_spec(sigs, data, len8),
    decreases sigs.len(),
{
    if sigs.len() > 0 {
        let init = sigs.drop_last();
        assert forall|i: int| 0 <= i < init.len() implies (#[trigger] init[i].name matches Some(n) ==> n@ != e.0) by {
            assert(init[i] == sigs[i]);
        }
        lemma_fill_ignores_name(init, data, p, e, len8);
        assert(sigs.last() == sigs[sigs.len() - 1]);
        if let Some(n) = sigs.last().name {
            lemma_lookup_insert(data, p, e, n@);
        }
    }
}

/// Encoding a plain frame ignores a value listed under a name that none of its signals
/// has.
pub proof fn law_encode_ignores_unknown_name(
    f: Frame,
    sv: Vec<Signal>,
    data: Seq<(Seq<char>, u64)>,
    p: int,
    e: (Seq<char>, u64),
)
    requires
        f.is_pdu_container == Some(false),
        f.signals == Some(sv),
        0 <= p <= data.len(),
        forall|i: int| 0 <= i < sv@.len() ==> (#[trigger] sv@[i].name matches Some(n) ==> n@ != e.0),
    ensures
        encode_spec(f, data.insert(p, e)) == encode_spec(f, data),
{
    if let Some(l) = f.length {
        if l >= 0 && l * 8 <= i32::MAX {
            lemma_fill_ignores_name(sv@, data, p, e, (l * 8) as nat);
        }
    }
}

/// A listed value writes nothing into a PDU buffer of `len8` bits when the PDU has no
/// signal of its name, or the first such signal's field ends past the buffer.
pub open spec fn writes_nothing(sigs: Option<Vec<Signal>>, e: (Seq<char>, u64), len8: int) -> bool {
    match sigs {
        None => true,
        Some(sv) => match signal_index(sv@, e.0) {
            None => true,
            Some(i) => field_past(sv@[i], len8),
        },
    }
}

/// Filling a PDU ignores a listed value that writes nothing, wherever it is listed.
proof fn lemma_fill_pdu_ignores(
    sigs: Option<Vec<Signal>>,
    list: Seq<(Seq<char>, u64)>,
    p: int,
    e: (Seq<char>, u64),
    len8: nat,
)
    requires
        0 <= p <= list.len(),
        writes_nothing(sigs, e, len8 as int),
    ensures
        fill_pdu_spec(sigs, list.insert(p, e), len8) == fill_pdu_spec(sigs, list, len8),
    decreases list.len(),
{
    let l2 = list.insert(p, e);
    if p == list.len() {
        assert(l2.drop_last() =~= list);
        assert(l2.last() == e);
        lemma_fill_pdu_len(sigs, list, len8);
    } else {
        lemma_fill_pdu_ignores(sigs, list.drop_last(), p, e, len8);
        assert(l2.drop_last() =~= list.drop_last().insert(p, e));
        assert(l2.last() == list.last());
    }
}

/// Encoding a PDU ignores a listed value that writes nothing: one under a name that
/// none of its signals has, or whose first signal of that name ends past the payload.
pub proof fn law_pdu_encode_ignores_value(
    pdu: Pdu,
    list: Seq<(Seq<char>, u64)>,
    p: int,
    e: (Seq<char>, u64),
    n: i32,
)
    requires
        pdu.size == Some(n),
        n >= 0,
        0 <= p <= list.len(),
        writes_nothing(pdu.signals, e, 8 * n),
    ensures
        pdu_encode_spec(pdu, list.insert(p, e)) == pdu_encode_spec(pdu, list),
{
    if n * 8 <= usize::MAX {
        lemma_fill_pdu_ignores(pdu.signals, list, p, e, (n * 8) as nat);
    }
}

/// Two values written one after the other into the same field of a signal leave the
/// second.
proof fn lemma_place_twice(buf: Seq<bool>, sig: Signal, v1: u64, v2: u64)
    requires
        sig.start_bit matches Some(st) && st >= 0,
        sig.size matches Some(sz) && sz >= 1 && v1 < pow2(sz as nat) && v2 < pow2(sz as nat),
    ensures
        (place_value_spec(buf, sig, v1) matches Ok(b1) && place_value_spec(b1, sig, v2)
            == place_value_spec(buf, sig, v2)),
{
    let st = sig.start_bit->0;
    let sz = sig.size->0;
    lemma_padded_binary_fits(v1 as nat, sz as nat);
    lemma_padded_binary_fits(v2 as nat, sz as nat);
    if st + sz <= buf.len() {
        let b1 = write_bits(buf, st as int, crate::bits::padded_binary(v1 as nat, sz as nat));
        assert(write_bits(b1, st as int, crate::bits::padded_binary(v2 as nat, sz as nat)) =~= write_bits(
            buf,
            st as int,
            crate::bits::padded_binary(v2 as nat, sz as nat),
        ));
    }
}

/// A later value listed for a name replaces an earlier one: listing two values for a
/// signal's name in a row encodes the PDU as listing only the second.
pub proof fn law_pdu_encode_later_value_wins(
    pdu: Pdu,
    sv: Vec<Signal>,
    list: Seq<(Seq<char>, u64)>,
    name: Seq<char>,
    i: int,
    v1: u64,
    v2: u64,
)
    requires
        pdu.signals == Some(sv),
        signal_index(sv@, name) == Some(i),
        sv@[i].start_bit matches Some(st) && st >= 0,
        sv@[i].size matches Some(sz) && sz >= 1 && v1 < pow2(sz as nat) && v2 < pow2(sz as nat),
    ensures
        pdu_encode_spec(pdu, list + seq![(name, v1), (name, v2)]) == pdu_encode_spec(
            pdu,
            list + seq![(name, v2)],
        ),
{
    lemma_signal_index_hit(sv@, name);
    let l2 = list + seq![(name, v1), (name, v2)];
    let l1 = list + seq![(name, v2)];
    assert(l2.drop_last().drop_last() =~= list);
    assert(l1.drop_last() =~= list);
    assert(l2.drop_last().last() == (name, v1));
    assert(l2.last() == (name, v2));
    assert(l1.last() == (name, v2));
    if let Some(n) = pdu.size {
        if n >= 0 && n * 8 <= usize::MAX {
            let len8 = (n * 8) as nat;
            assert(fill_pdu_spec(pdu.signals, l2.drop_last(), len8) == match fill_pdu_spec(
                pdu.signals,
                list,
                len8,
            ) {
                Ok(buf) => place_pdu_value_spec(buf, pdu.signals, (name, v1)),
                Err(f) => Err(f),
            });
            if let Ok(buf) = fill_pdu_spec(pdu.signals, list, len8) {
                lemma_place_twice(buf, sv@[i], v1, v2);
                assert(place_pdu_value_spec(buf, pdu.signals, (name, v1)) == place_value_spec(
                    buf,
                    sv@[i],
                    v1,
                ));
                let b1 = place_value_spec(buf, sv@[i], v1)->Ok_0;
                assert(place_pdu_value_spec(b1, pdu.signals, (name, v2)) == place_value_spec(
                    b1,
                    sv@[i],
                    v2,
                ));
                assert(fill_pdu_spec(pdu.signals, l2, len8) == fill_pdu_spec(pdu.signals, l1, len8));
            }
        }
    }
}

} // verus!
