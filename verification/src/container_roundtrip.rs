//! What decoding gives back of a container frame's encoding.

use crate::arxml_bean::{Frame, Pdu, Signal};
use crate::bits::{
    bit_text, bytes_bits, digits, lemma_bits_of_pack, lemma_padded_binary_fits, lemma_zero_digits,
    pack_spec, pow2, write_bits,
};
use crate::codec::{
    container_spec, decode_spec, header_id, pdu_index, pdu_lookup, unpack_spec, Fault,
};
use crate::encoder::{
    emit_spec, encode_spec, fill_pdu_spec, group_index, group_spec, header_bytes, insert_routed,
    lemma_group_index_hit,
    pdu_encode_spec, place_pdu_value_spec, place_value_spec, route_pdus_spec, route_signals_spec,
    route_spec, signal_index, zero_bits,
};
use crate::roundtrip::{
    holds_values, in_field, laid_out, lemma_read, named_values, sig_size, sig_start, vals_fit,
};
use vstd::prelude::*;

verus! {

/// The last value listed under `name`.
pub open spec fn last_value(list: Seq<(Seq<char>, u64)>, name: Seq<char>) -> Option<u64>
    decreases list.len(),
{
    if list.len() == 0 {
        None
    } else if list.last().0 == name {
        Some(list.last().1)
    } else {
        last_value(list.drop_last(), name)
    }
}

/// The value a PDU's signal holds after the listed values are written: the last value
/// listed under its name if it is the first signal of that name, zero otherwise.
pub open spec fn pdu_vals(sigs: Seq<Signal>, list: Seq<(Seq<char>, u64)>) -> Seq<nat> {
    Seq::new(
        sigs.len(),
        |i: int|
            if signal_index(sigs, sigs[i].name.unwrap()@) == Some(i) {
                match last_value(list, sigs[i].name.unwrap()@) {
                    Some(v) => v as nat,
                    None => 0nat,
                }
            } else {
                0nat
            },
    )
}

/// Every listed value fits in the field it is written to, and in an `i32`.
pub open spec fn list_fits(sigs: Seq<Signal>, list: Seq<(Seq<char>, u64)>) -> bool {
    forall|j: int|
        #![trigger list[j]]
        0 <= j < list.len() ==> (signal_index(sigs, list[j].0) matches Some(k) ==> list[j].1 < pow2(
            sig_size(sigs[k]) as nat,
        ) && list[j].1 <= i32::MAX)
}

/// Bits outside every signal's field are clear.
pub open spec fn clear_outside(buf: Seq<bool>, sigs: Seq<Signal>) -> bool {
    forall|k: int|
        0 <= k < buf.len() && (forall|i: int| 0 <= i < sigs.len() ==> !in_field(#[trigger] sigs[i], k))
            ==> !buf[k]
}

/// The signal found for a name carries that name.
pub proof fn lemma_signal_index_hit(sigs: Seq<Signal>, name: Seq<char>)
    ensures
        signal_index(sigs, name) matches Some(k) ==> (0 <= k < sigs.len() && sigs[k].name is Some
            && sigs[k].name.unwrap()@ == name),
    decreases sigs.len(),
{
    if sigs.len() > 0 {
        lemma_signal_index_hit(sigs.drop_last(), name);
    }
}

/// Writing the first `m` listed values into a PDU's bits leaves each signal holding its
/// value and every other bit clear.
proof fn lemma_fill_pdu(sigs: Vec<Signal>, list: Seq<(Seq<char>, u64)>, nbits: int, m: int)
    requires
        0 <= m <= list.len(),
        0 <= nbits <= i32::MAX,
        laid_out(sigs@, nbits),
        list_fits(sigs@, list),
    ensures
        fill_pdu_spec(Some(sigs), list.take(m), nbits as nat) matches Ok(buf) && buf.len() == nbits
            && holds_values(buf, sigs@, pdu_vals(sigs@, list.take(m))) && clear_outside(buf, sigs@),
    decreases m,
{
    let ss = sigs@;
    if m == 0 {
        assert(list.take(0) =~= Seq::<(Seq<char>, u64)>::empty());
        let buf = zero_bits(nbits as nat);
        let vals = pdu_vals(ss, list.take(0));
        assert forall|i: int, k: int|
            #![trigger ss[i], buf[k]]
            0 <= i < ss.len() && in_field(ss[i], k) implies buf[k] == digits(
                vals[i],
                sig_size(ss[i]) as nat,
            )[k - sig_start(ss[i])] by {
            lemma_zero_digits(sig_size(ss[i]) as nat);
        }
    } else {
        let p = m - 1;
        lemma_fill_pdu(sigs, list, nbits, p);
        let pre = list.take(p);
        let cur = list.take(m);
        assert(cur.drop_last() =~= pre);
        assert(cur.last() == list[p]);
        let buf = fill_pdu_spec(Some(sigs), pre, nbits as nat)->Ok_0;
        let e = list[p];
        let old_vals = pdu_vals(ss, pre);
        let new_vals = pdu_vals(ss, cur);
        assert(fill_pdu_spec(Some(sigs), cur, nbits as nat) == place_pdu_value_spec(buf, Some(sigs), e));
        lemma_signal_index_hit(ss, e.0);
        match signal_index(ss, e.0) {
            None => {
                assert forall|i: int| 0 <= i < ss.len() implies #[trigger] new_vals[i] == old_vals[i] by {
                    if signal_index(ss, ss[i].name.unwrap()@) == Some(i) {
                        assert(ss[i].name.unwrap()@ != e.0);
                    }
                }
                assert(new_vals =~= old_vals);
            },
            Some(k) => {
                let s = ss[k];
                let st = s.start_bit.unwrap();
                let sz = s.size.unwrap();
                assert(list_fits(ss, list));
                assert(e.1 < pow2(sz as nat));
                lemma_padded_binary_fits(e.1 as nat, sz as nat);
                let dg = digits(e.1 as nat, sz as nat);
                assert(place_value_spec(buf, s, e.1) == Ok::<_, Fault>(write_bits(buf, st as int, dg)));
                let nb = write_bits(buf, st as int, dg);
                assert forall|i: int| 0 <= i < ss.len() && i != k implies #[trigger] new_vals[i] == old_vals[i] by {
                    if signal_index(ss, ss[i].name.unwrap()@) == Some(i) {
                        assert(ss[i].name.unwrap()@ != e.0);
                    }
                }
                assert(new_vals[k] == e.1 as nat);
                assert forall|i: int, q: int|
                    #![trigger ss[i], nb[q]]
                    0 <= i < ss.len() && in_field(ss[i], q) implies nb[q] == digits(
                        new_vals[i],
                        sig_size(ss[i]) as nat,
                    )[q - sig_start(ss[i])] by {
                    if i != k {
                        assert(!in_field(s, q));
                        assert(nb[q] == buf[q]);
                    }
                }
                assert forall|q: int|
                    0 <= q < nb.len() && (forall|i: int| 0 <= i < ss.len() ==> !in_field(#[trigger] ss[i], q))
                    implies !nb[q] by {
                    assert(!in_field(ss[k], q));
                }
            },
        }
    }
}

/// A PDU that encodes as described: an id of three bytes, a size of one byte, and named
/// non-overlapping signal fields within its payload.
pub open spec fn pdu_well_formed(p: Pdu) -> bool {
    &&& p.id matches Some(x) && 0 <= x < 0x100_0000
    &&& p.size matches Some(z) && 0 <= z <= 255
    &&& p.signals matches Some(sigs) && laid_out(sigs@, p.size.unwrap() * 8)
}

/// The last value listed under a name is one of the listed entries.
pub proof fn lemma_last_value_member(list: Seq<(Seq<char>, u64)>, name: Seq<char>)
    ensures
        last_value(list, name) matches Some(v) ==> exists|j: int| 0 <= j < list.len() && #[trigger] list[j] == (name, v),
    decreases list.len(),
{
    if list.len() > 0 {
        lemma_last_value_member(list.drop_last(), name);
        if list.last().0 == name {
            assert(list[list.len() - 1] == (name, list.last().1));
        } else if last_value(list.drop_last(), name) is Some {
            let v = last_value(list.drop_last(), name).unwrap();
            let j = choose|j: int| 0 <= j < list.drop_last().len() && #[trigger] list.drop_last()[j] == (name, v);
            assert(list[j] == (name, v));
        }
    }
}

/// The values a PDU's signals hold fit their fields when every listed value does.
proof fn lemma_pdu_vals_fit(sigs: Seq<Signal>, list: Seq<(Seq<char>, u64)>)
    requires
        list_fits(sigs, list),
    ensures
        vals_fit(sigs, pdu_vals(sigs, list)),
{
    assert forall|i: int| #![trigger sigs[i]] 0 <= i < sigs.len() implies pdu_vals(sigs, list)[i] < pow2(
        sig_size(sigs[i]) as nat,
    ) && pdu_vals(sigs, list)[i] <= i32::MAX by {
        let n = sigs[i].name.unwrap()@;
        lemma_last_value_member(list, n);
        if signal_index(sigs, n) == Some(i) {
            if last_value(list, n) is Some {
                let v = last_value(list, n).unwrap();
                let j = choose|j: int| 0 <= j < list.len() && #[trigger] list[j] == (n, v);
                assert(list[j] == (n, v));
            }
        }
        crate::bits::lemma_pow2_positive(sig_size(sigs[i]) as nat);
    }
}

/// The id in an encoded PDU header reads back as the PDU's id.
proof fn lemma_header_roundtrip(id: i32)
    requires
        0 <= id < 0x100_0000,
    ensures
        ({
            let h = header_bytes(id);
            (h[0] as int * 65536 + h[1] as int * 256 + h[2] as int) == id
        }),
{
    let u = id as u32;
    assert(u == id);
    assert(((u >> 16u32) & 0xff) <= 0xff && ((u >> 8u32) & 0xff) <= 0xff && (u & 0xff) <= 0xff)
        by (bit_vector);
    assert(u < 0x100_0000 ==> ((u >> 16u32) & 0xff) * 65536 + ((u >> 8u32) & 0xff) * 256 + (u & 0xff)
        == u) by (bit_vector);
}

/// Decoding an encoded PDU found at `index` of a container payload moves past it and
/// adds its signals, each with the value it holds.
proof fn lemma_decode_chunk(
    frame: Frame,
    data: Seq<u8>,
    index: int,
    pi: int,
    list: Seq<(Seq<char>, u64)>,
    acc: Seq<(Seq<char>, i32)>,
)
    requires
        frame.pdus matches Some(pdus) && 0 <= pi < pdus@.len() && pdu_well_formed(pdus@[pi])
            && pdu_index(pdus@, pdus@[pi].id.unwrap()) == Some(pi),
        list_fits(frame.pdus.unwrap()@[pi].signals.unwrap()@, list),
        pdu_encode_spec(frame.pdus.unwrap()@[pi], list) matches Ok(c) && 0 <= index && index + c.len()
            <= data.len() && data.subrange(index, index + c.len()) == c,
    ensures
        ({
            let p = frame.pdus.unwrap()@[pi];
            let c = pdu_encode_spec(p, list)->Ok_0;
            let sigs = p.signals.unwrap()@;
            c.len() == 4 + p.size.unwrap() && container_spec(frame, data, index, acc) == container_spec(
                frame,
                data,
                index + c.len(),
                acc + named_values(sigs, pdu_vals(sigs, list)),
            )
        }),
{
    let pdus = frame.pdus.unwrap()@;
    let p = pdus[pi];
    let id = p.id.unwrap();
    let sz = p.size.unwrap();
    let sv = p.signals.unwrap();
    let sigs = sv@;
    let nbits = sz * 8;
    lemma_fill_pdu(sv, list, nbits as int, list.len() as int);
    assert(list.take(list.len() as int) =~= list);
    let buf = fill_pdu_spec(p.signals, list, nbits as nat)->Ok_0;
    let c = pdu_encode_spec(p, list)->Ok_0;
    assert(c == header_bytes(id) + seq![(sz % 256) as u8] + pack_spec(buf, sz as nat));
    assert(c.len() == 4 + sz);
    lemma_header_roundtrip(id);
    assert(data[index] == c[0] && data[index + 1] == c[1] && data[index + 2] == c[2] && data[index + 3] == c[3]);
    assert(header_id(data, index) == id as u32);
    assert(data[index + 3] as int == sz);
    let j = index + 4;
    assert forall|t: int| 0 <= t < sz implies #[trigger] data.subrange(j, j + sz)[t] == pack_spec(buf, sz as nat)[t] by {
        assert(data.subrange(index, index + c.len())[4 + t] == c[4 + t]);
        assert(c[4 + t] == pack_spec(buf, sz as nat)[t]);
    }
    assert(data.subrange(j, j + sz) =~= pack_spec(buf, sz as nat));
    lemma_bits_of_pack(buf, sz as nat);
    assert(buf.take(8 * sz) =~= buf);
    assert((header_id(data, index) as i32) == id);
    let vals = pdu_vals(sigs, list);
    lemma_pdu_vals_fit(sigs, list);
    lemma_read(sigs, vals, buf, sigs.len() as int);
    assert(sigs.take(sigs.len() as int) =~= sigs);
    assert(named_values(sigs, vals).take(sigs.len() as int) =~= named_values(sigs, vals));
    assert(unpack_spec(frame, header_id(data, index), bit_text(bytes_bits(data.subrange(j, j + sz))))
        == Ok::<_, Fault>(Some(named_values(sigs, vals))));
}

/// Every PDU of the list encodes as described.
pub open spec fn pdus_well_formed(pdus: Seq<Pdu>) -> bool {
    forall|i: int| #![trigger pdus[i]] 0 <= i < pdus.len() ==> pdu_well_formed(pdus[i])
}

/// Every value fits, and fits an `i32`, in each field of its name, in every PDU.
pub open spec fn data_fits(pdus: Seq<Pdu>, data: Seq<(Seq<char>, u64)>) -> bool {
    forall|d: int, i: int, s: int|
        #![trigger data[d], pdus[i].signals.unwrap()@[s]]
        0 <= d < data.len() && 0 <= i < pdus.len() && 0 <= s < pdus[i].signals.unwrap()@.len()
            && pdus[i].signals.unwrap()@[s].name.unwrap()@ == data[d].0 ==> data[d].1 < pow2(
            sig_size(pdus[i].signals.unwrap()@[s]) as nat,
        ) && data[d].1 <= i32::MAX
}

/// What decoding the encoding of some groups gives: the signals of each group's PDU, in
/// group order, each holding the value it was given.
pub open spec fn container_expected(pdus: Seq<Pdu>, groups: Seq<(i32, Seq<(Seq<char>, u64)>)>) -> Seq<
    (Seq<char>, i32),
>
    decreases groups.len(),
{
    if groups.len() == 0 {
        seq![]
    } else {
        let g = groups.last();
        let sigs = pdus[pdu_index(pdus, g.0).unwrap()].signals.unwrap()@;
        container_expected(pdus, groups.drop_last()) + named_values(sigs, pdu_vals(sigs, g.1))
    }
}

/// Each group goes to a PDU of the list, and its values fit that PDU's fields.
pub open spec fn groups_ok(pdus: Seq<Pdu>, groups: Seq<(i32, Seq<(Seq<char>, u64)>)>) -> bool {
    forall|k: int|
        #![trigger groups[k]]
        0 <= k < groups.len() ==> pdu_index(pdus, groups[k].0) is Some && list_fits(
            pdus[pdu_index(pdus, groups[k].0).unwrap()].signals.unwrap()@,
            groups[k].1,
        )
}

/// The PDU found for an id carries that id; a PDU with the id exists exactly when one is
/// found.
pub proof fn lemma_pdu_index_hit(pdus: Seq<Pdu>, id: i32)
    ensures
        pdu_index(pdus, id) matches Some(i) ==> 0 <= i < pdus.len() && pdus[i].id == Some(id),
        pdu_index(pdus, id) is None ==> forall|i: int| 0 <= i < pdus.len() ==> pdus[i].id != Some(id),
    decreases pdus.len(),
{
    if pdus.len() > 0 {
        lemma_pdu_index_hit(pdus.drop_last(), id);
        assert(forall|i: int| 0 <= i < pdus.len() - 1 ==> pdus.drop_last()[i] == pdus[i]);
    }
}

/// When every PDU has an id, looking one up never faults and finds the first match.
proof fn lemma_lookup_is_index(pdus: Seq<Pdu>, id: i32)
    requires
        forall|i: int| 0 <= i < pdus.len() ==> (#[trigger] pdus[i]).id is Some,
    ensures
        pdu_lookup(pdus, id) == Ok::<_, Fault>(pdu_index(pdus, id)),
    decreases pdus.len(),
{
    if pdus.len() > 0 {
        assert(forall|i: int| 0 <= i < pdus.len() - 1 ==> pdus.drop_last()[i] == pdus[i]);
        lemma_lookup_is_index(pdus.drop_last(), id);
        assert(pdus[pdus.len() - 1].id is Some);
    }
}

/// Encoding groups that each go to a well-formed PDU succeeds, one PDU after another.
proof fn lemma_emit_ok(pdus: Seq<Pdu>, groups: Seq<(i32, Seq<(Seq<char>, u64)>)>)
    requires
        pdus_well_formed(pdus),
        groups_ok(pdus, groups),
    ensures
        emit_spec(pdus, groups) is Ok,
        groups.len() > 0 ==> pdu_encode_spec(pdus[pdu_index(pdus, groups.last().0).unwrap()], groups.last().1) is Ok,
        groups.len() > 0 ==> emit_spec(pdus, groups)->Ok_0 == emit_spec(pdus, groups.drop_last())->Ok_0
            + pdu_encode_spec(pdus[pdu_index(pdus, groups.last().0).unwrap()], groups.last().1)->Ok_0,
    decreases groups.len(),
{
    if groups.len() > 0 {
        let init = groups.drop_last();
        assert(forall|k: int| 0 <= k < init.len() ==> init[k] == groups[k]);
        assert(groups_ok(pdus, init));
        lemma_emit_ok(pdus, init);
        let g = groups.last();
        assert(groups[groups.len() - 1] == g);
        assert(forall|i: int| 0 <= i < pdus.len() ==> (#[trigger] pdus[i]).id is Some) by {
            assert forall|i: int| 0 <= i < pdus.len() implies (#[trigger] pdus[i]).id is Some by {
                assert(pdu_well_formed(pdus[i]));
            }
        }
        lemma_lookup_is_index(pdus, g.0);
        let pi = pdu_index(pdus, g.0).unwrap();
        lemma_pdu_index_hit(pdus, g.0);
        let p = pdus[pi];
        assert(pdu_well_formed(p));
        let sz = p.size.unwrap();
        lemma_fill_pdu(p.signals.unwrap(), g.1, sz * 8, g.1.len() as int);
        assert(g.1.take(g.1.len() as int) =~= g.1);
    }
}

/// The encoding of the first groups begins the encoding of all of them.
proof fn lemma_emit_prefix(pdus: Seq<Pdu>, groups: Seq<(i32, Seq<(Seq<char>, u64)>)>, k: int)
    requires
        pdus_well_formed(pdus),
        groups_ok(pdus, groups),
        0 <= k <= groups.len(),
    ensures
        emit_spec(pdus, groups.take(k)) is Ok,
        emit_spec(pdus, groups) is Ok,
        emit_spec(pdus, groups.take(k))->Ok_0.len() <= emit_spec(pdus, groups)->Ok_0.len(),
        emit_spec(pdus, groups)->Ok_0.subrange(0, emit_spec(pdus, groups.take(k))->Ok_0.len() as int)
            == emit_spec(pdus, groups.take(k))->Ok_0,
    decreases groups.len() - k,
{
    assert(forall|j: int| 0 <= j < k ==> groups.take(k)[j] == groups[j]);
    assert(groups_ok(pdus, groups.take(k)));
    lemma_emit_ok(pdus, groups.take(k));
    lemma_emit_ok(pdus, groups);
    if k == groups.len() {
        assert(groups.take(k) =~= groups);
        let d = emit_spec(pdus, groups)->Ok_0;
        assert(d.subrange(0, d.len() as int) =~= d);
    } else {
        lemma_emit_prefix(pdus, groups, k + 1);
        let t1 = groups.take(k + 1);
        assert(forall|j: int| 0 <= j < k + 1 ==> t1[j] == groups[j]);
        assert(groups_ok(pdus, t1));
        lemma_emit_ok(pdus, t1);
        assert(t1.drop_last() =~= groups.take(k));
        let dk = emit_spec(pdus, groups.take(k))->Ok_0;
        let dk1 = emit_spec(pdus, t1)->Ok_0;
        let d = emit_spec(pdus, groups)->Ok_0;
        assert(dk1.subrange(0, dk.len() as int) =~= dk);
        assert(d.subrange(0, dk.len() as int) =~= dk1.subrange(0, dk.len() as int));
    }
}

/// Decoding the encoding of the groups from the end of the first `k` of them gives the
/// rest of the expected signals.
proof fn lemma_walk(frame: Frame, groups: Seq<(i32, Seq<(Seq<char>, u64)>)>, k: int)
    requires
        frame.pdus matches Some(pdus) && pdus_well_formed(pdus@) && groups_ok(pdus@, groups),
        0 <= k <= groups.len(),
    ensures
        ({
            let pdus = frame.pdus.unwrap()@;
            emit_spec(pdus, groups) is Ok && container_spec(
                frame,
                emit_spec(pdus, groups)->Ok_0,
                emit_spec(pdus, groups.take(k))->Ok_0.len() as int,
                container_expected(pdus, groups.take(k)),
            ) == Ok::<_, Fault>(Some(container_expected(pdus, groups)))
        }),
    decreases groups.len() - k,
{
    let pdus = frame.pdus.unwrap()@;
    lemma_emit_prefix(pdus, groups, k);
    let d = emit_spec(pdus, groups)->Ok_0;
    let dk = emit_spec(pdus, groups.take(k))->Ok_0;
    if k == groups.len() {
        assert(groups.take(k) =~= groups);
    } else {
        lemma_walk(frame, groups, k + 1);
        lemma_emit_prefix(pdus, groups, k + 1);
        let t1 = groups.take(k + 1);
        assert(forall|j: int| 0 <= j < k + 1 ==> t1[j] == groups[j]);
        assert(groups_ok(pdus, t1));
        lemma_emit_ok(pdus, t1);
        assert(t1.drop_last() =~= groups.take(k));
        assert(t1.last() == groups[k]);
        let g = groups[k];
        let pi = pdu_index(pdus, g.0).unwrap();
        lemma_pdu_index_hit(pdus, g.0);
        assert(pdu_well_formed(pdus[pi]));
        let c = pdu_encode_spec(pdus[pi], g.1)->Ok_0;
        let dk1 = emit_spec(pdus, t1)->Ok_0;
        assert(dk1 == dk + c);
        assert(d.subrange(dk.len() as int, dk.len() + c.len() as int) =~= c) by {
            assert(d.subrange(0, dk1.len() as int) == dk1);
            assert forall|t: int| 0 <= t < c.len() implies #[trigger] d.subrange(
                dk.len() as int,
                dk.len() + c.len() as int,
            )[t] == c[t] by {
                assert(d[dk.len() + t] == d.subrange(0, dk1.len() as int)[dk.len() + t]);
                assert(dk1[dk.len() + t] == c[t]);
            }
        }
        lemma_decode_chunk(frame, d, dk.len() as int, pi, g.1, container_expected(pdus, groups.take(k)));
        assert(container_expected(pdus, t1) == container_expected(pdus, groups.take(k)) + named_values(
            pdus[pi].signals.unwrap()@,
            pdu_vals(pdus[pi].signals.unwrap()@, g.1),
        ));
    }
}

/// `e` is one of the listed values.
pub open spec fn listed_in(data: Seq<(Seq<char>, u64)>, e: (Seq<char>, u64)) -> bool {
    exists|d: int| 0 <= d < data.len() && #[trigger] data[d] == e
}

/// A routed value comes from the listed values and goes to a PDU of the list.
pub open spec fn routed_from(pdus: Seq<Pdu>, data: Seq<(Seq<char>, u64)>, pr: (i32, (Seq<char>, u64))) -> bool {
    &&& listed_in(data, pr.1)
    &&& exists|i: int| 0 <= i < pdus.len() && #[trigger] pdus[i].id == Some(pr.0)
}

/// Routing through signals that all have names, in a PDU with an id, yields copies of
/// the value under that id.
pub proof fn lemma_route_signals_ok(sigs: Seq<Signal>, id: i32, e: (Seq<char>, u64))
    requires
        forall|s: int| 0 <= s < sigs.len() ==> (#[trigger] sigs[s]).name is Some,
    ensures
        route_signals_spec(sigs, Some(id), e) matches Ok(m) && forall|t: int| 0 <= t < m.len() ==> #[trigger] m[t]
            == (id, e),
    decreases sigs.len(),
{
    if sigs.len() > 0 {
        assert(forall|s: int| 0 <= s < sigs.len() - 1 ==> sigs.drop_last()[s] == sigs[s]);
        lemma_route_signals_ok(sigs.drop_last(), id, e);
        assert(sigs[sigs.len() - 1].name is Some);
    }
}

/// Routing a value through well-formed PDUs yields copies of it under ids of those PDUs.
pub proof fn lemma_route_pdus_ok(pdus: Seq<Pdu>, e: (Seq<char>, u64))
    requires
        pdus_well_formed(pdus),
    ensures
        route_pdus_spec(pdus, e) matches Ok(m) && forall|t: int|
            #![trigger m[t]]
            0 <= t < m.len() ==> m[t].1 == e && exists|i: int| 0 <= i < pdus.len() && #[trigger] pdus[i].id == Some(
                m[t].0,
            ),
    decreases pdus.len(),
{
    if pdus.len() > 0 {
        let init = pdus.drop_last();
        assert(forall|i: int| 0 <= i < init.len() ==> init[i] == pdus[i]);
        assert(pdus_well_formed(init));
        lemma_route_pdus_ok(init, e);
        let p = pdus[pdus.len() - 1];
        assert(pdu_well_formed(p));
        let sigs = p.signals.unwrap()@;
        assert(laid_out(sigs, p.size.unwrap() * 8));
        assert forall|s: int| 0 <= s < sigs.len() implies (#[trigger] sigs[s]).name is Some by {
            assert(sigs[s] == sigs[s]);
        }
        lemma_route_signals_ok(sigs, p.id.unwrap(), e);
        let prev = route_pdus_spec(init, e)->Ok_0;
        let m2 = route_signals_spec(sigs, p.id, e)->Ok_0;
        let m = prev + m2;
        assert forall|t: int| #![trigger m[t]] 0 <= t < m.len() implies m[t].1 == e && exists|i: int|
            0 <= i < pdus.len() && #[trigger] pdus[i].id == Some(m[t].0) by {
            if t < prev.len() {
                assert(m[t] == prev[t]);
                let i = choose|i: int| 0 <= i < init.len() && #[trigger] init[i].id == Some(prev[t].0);
                assert(pdus[i].id == Some(m[t].0));
            } else {
                assert(m[t] == m2[t - prev.len()]);
                assert(pdus[pdus.len() - 1].id == Some(m[t].0));
            }
        }
    }
}

/// Routing listed values through well-formed PDUs succeeds, and each routed value comes
/// from the list and goes to one of the PDUs.
pub proof fn lemma_route_ok(pv: Vec<Pdu>, data: Seq<(Seq<char>, u64)>)
    requires
        pdus_well_formed(pv@),
    ensures
        route_spec(Some(pv), data) matches Ok(pairs) && forall|t: int|
            0 <= t < pairs.len() ==> routed_from(pv@, data, #[trigger] pairs[t]),
    decreases data.len(),
{
    if data.len() > 0 {
        let init = data.drop_last();
        lemma_route_ok(pv, init);
        lemma_route_pdus_ok(pv@, data.last());
        let prev = route_spec(Some(pv), init)->Ok_0;
        let m = route_pdus_spec(pv@, data.last())->Ok_0;
        let pairs = prev + m;
        assert forall|t: int| 0 <= t < pairs.len() implies routed_from(pv@, data, #[trigger] pairs[t]) by {
            if t < prev.len() {
                assert(pairs[t] == prev[t]);
                assert(routed_from(pv@, init, prev[t]));
                let d = choose|d: int| 0 <= d < init.len() && #[trigger] init[d] == prev[t].1;
                assert(data[d] == pairs[t].1);
            } else {
                assert(pairs[t] == m[t - prev.len()]);
                assert(data[data.len() - 1] == pairs[t].1);
            }
        }
    }
}

/// Grouping routed values keeps, for each group, an id of a PDU and values from the list.
pub proof fn lemma_group_from(pdus: Seq<Pdu>, data: Seq<(Seq<char>, u64)>, pairs: Seq<(i32, (Seq<char>, u64))>)
    requires
        forall|t: int| 0 <= t < pairs.len() ==> routed_from(pdus, data, #[trigger] pairs[t]),
    ensures
        forall|k: int|
            #![trigger group_spec(pairs)[k]]
            0 <= k < group_spec(pairs).len() ==> (exists|i: int| 0 <= i < pdus.len() && #[trigger] pdus[i].id == Some(
                group_spec(pairs)[k].0,
            )) && forall|j: int|
                0 <= j < group_spec(pairs)[k].1.len() ==> listed_in(data, #[trigger] group_spec(pairs)[k].1[j]),
    decreases pairs.len(),
{
    if pairs.len() > 0 {
        let init = pairs.drop_last();
        assert(forall|t: int| 0 <= t < init.len() ==> init[t] == pairs[t]);
        lemma_group_from(pdus, data, init);
        let g0 = group_spec(init);
        let pr = pairs.last();
        assert(routed_from(pdus, data, pairs[pairs.len() - 1]));
        let g = group_spec(pairs);
        assert(g == insert_routed(g0, pr));
        lemma_group_index_hit(g0, pr.0);
        assert forall|k: int| #![trigger g[k]] 0 <= k < g.len() implies (exists|i: int| 0 <= i < pdus.len() && #[trigger] pdus[i].id == Some(
            g[k].0,
        )) && forall|j: int| 0 <= j < g[k].1.len() ==> listed_in(data, #[trigger] g[k].1[j]) by {
            match group_index(g0, pr.0) {
                Some(q) => {
                    if k == q {
                        assert(g[k] == (pr.0, g0[k].1.push(pr.1)));
                        assert forall|j: int| 0 <= j < g[k].1.len() implies listed_in(data, #[trigger] g[k].1[j]) by {
                            if j < g0[k].1.len() {
                                assert(g[k].1[j] == g0[k].1[j]);
                            } else {
                                assert(g[k].1[j] == pr.1);
                            }
                        }
                    } else {
                        assert(g[k] == g0[k]);
                    }
                },
                None => {
                    if k < g0.len() {
                        assert(g[k] == g0[k]);
                    } else {
                        assert(g[k] == (pr.0, seq![pr.1]));
                        assert forall|j: int| 0 <= j < g[k].1.len() implies listed_in(data, #[trigger] g[k].1[j]) by {
                            assert(g[k].1[j] == pr.1);
                        }
                    }
                },
            }
        }
    }
}

/// Decoding what a container frame encodes gives back, PDU by PDU, the values written:
/// for a container frame whose PDUs are well-formed (an id of three bytes, a one-byte
/// size, named non-overlapping signal fields within the payload) and values that fit
/// every field of their name, encoding succeeds, and decoding the bytes yields, for each
/// PDU that received values (in the order the encoding lists them), its signals in order,
/// each with the last value it was given (zero if none).
pub proof fn law_container_decode_inverts_encode(frame: Frame, data: Seq<(Seq<char>, u64)>)
    requires
        frame.is_pdu_container == Some(true),
        frame.pdus matches Some(pdus) && pdus_well_formed(pdus@) && data_fits(pdus@, data),
    ensures
        route_spec(frame.pdus, data) is Ok,
        encode_spec(frame, data) matches Ok(Some(bytes)) && decode_spec(frame, bytes) == Ok::<_, Fault>(
            Some(container_expected(frame.pdus.unwrap()@, group_spec(route_spec(frame.pdus, data)->Ok_0))),
        ),
{
    let pv = frame.pdus.unwrap();
    let pdus = pv@;
    lemma_route_ok(pv, data);
    let pairs = route_spec(frame.pdus, data)->Ok_0;
    let groups = group_spec(pairs);
    lemma_group_from(pdus, data, pairs);
    assert forall|k: int| #![trigger groups[k]] 0 <= k < groups.len() implies pdu_index(pdus, groups[k].0) is Some
        && list_fits(pdus[pdu_index(pdus, groups[k].0).unwrap()].signals.unwrap()@, groups[k].1) by {
        let i0 = choose|i: int| 0 <= i < pdus.len() && #[trigger] pdus[i].id == Some(groups[k].0);
        lemma_pdu_index_hit(pdus, groups[k].0);
        let pi = pdu_index(pdus, groups[k].0).unwrap();
        let sigs = pdus[pi].signals.unwrap()@;
        let list = groups[k].1;
        assert forall|j: int| #![trigger list[j]] 0 <= j < list.len() implies (signal_index(sigs, list[j].0) matches Some(s)
            ==> list[j].1 < pow2(sig_size(sigs[s]) as nat) && list[j].1 <= i32::MAX) by {
            let d = choose|d: int| 0 <= d < data.len() && #[trigger] data[d] == list[j];
            lemma_signal_index_hit(sigs, list[j].0);
            if signal_index(sigs, list[j].0) is Some {
                let s = signal_index(sigs, list[j].0).unwrap();
                assert(data_fits(pdus, data));
                assert(pdus[pi].signals.unwrap()@[s] == sigs[s]);
                assert(data[d] == list[j]);
            }
        }
    }
    assert(groups_ok(pdus, groups));
    lemma_emit_ok(pdus, groups);
    lemma_walk(frame, groups, 0);
    assert(groups.take(0) =~= Seq::<(i32, Seq<(Seq<char>, u64)>)>::empty());
    assert(emit_spec(pdus, groups.take(0)) == Ok::<_, Fault>(Seq::<u8>::empty()));
}

} // verus!
