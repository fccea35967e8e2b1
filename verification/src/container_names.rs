//! What decoding gives back of a container frame's encoding, read by signal name.

use crate::arxml_bean::{Frame, Pdu, Signal};
use crate::codec::{decode_spec, pdu_index};
use crate::container_roundtrip::{
    container_expected, data_fits, lemma_group_from, lemma_last_value_member, lemma_pdu_index_hit,
    lemma_route_ok, lemma_signal_index_hit, last_value, law_container_decode_inverts_encode,
    listed_in, pdu_vals, pdu_well_formed, pdus_well_formed,
};
use crate::roundtrip::named_values;
use crate::encoder::{
    encode_spec, group_index, group_spec, insert_routed, lemma_group_index_hit, route_pdus_spec,
    route_signals_spec, route_spec, signal_index,
};
use crate::roundtrip::laid_out;
use vstd::prelude::*;

verus! {

/// `p` is one of the entries of `m`.
pub open spec fn has_pair(m: Seq<(i32, (Seq<char>, u64))>, p: (i32, (Seq<char>, u64))) -> bool {
    exists|t: int| 0 <= t < m.len() && #[trigger] m[t] == p
}

/// Routing a value through signals one of which has its name yields it under the PDU's id.
proof fn lemma_route_signals_has(sigs: Seq<Signal>, id: i32, e: (Seq<char>, u64), s: int)
    requires
        forall|j: int| 0 <= j < sigs.len() ==> (#[trigger] sigs[j]).name is Some,
        0 <= s < sigs.len(),
        sigs[s].name.unwrap()@ == e.0,
    ensures
        route_signals_spec(sigs, Some(id), e) matches Ok(m) && has_pair(m, (id, e)),
    decreases sigs.len(),
{
    let init = sigs.drop_last();
    assert(forall|j: int| 0 <= j < init.len() ==> init[j] == sigs[j]);
    if s < sigs.len() - 1 {
        lemma_route_signals_has(init, id, e, s);
        let m0 = route_signals_spec(init, Some(id), e)->Ok_0;
        let t = choose|t: int| 0 <= t < m0.len() && #[trigger] m0[t] == (id, e);
        assert(sigs[sigs.len() - 1].name is Some);
        let m = route_signals_spec(sigs, Some(id), e)->Ok_0;
        assert(m[t] == (id, e));
    } else {
        crate::container_roundtrip::lemma_route_signals_ok(init, id, e);
        let m0 = route_signals_spec(init, Some(id), e)->Ok_0;
        let m = m0.push((id, e));
        assert(m[m0.len() as int] == (id, e));
    }
}

/// The signals of a well-formed PDU are named.
proof fn lemma_named(p: Pdu)
    requires
        pdu_well_formed(p),
    ensures
        forall|j: int| 0 <= j < p.signals.unwrap()@.len() ==> (#[trigger] p.signals.unwrap()@[j]).name is Some,
{
    let sigs = p.signals.unwrap()@;
    assert(laid_out(sigs, p.size.unwrap() * 8));
    assert forall|j: int| 0 <= j < sigs.len() implies (#[trigger] sigs[j]).name is Some by {
        assert(sigs[j] == sigs[j]);
    }
}

/// Routing a value through well-formed PDUs yields it under the id of each PDU with a
/// signal of its name.
proof fn lemma_route_pdus_has(pdus: Seq<Pdu>, e: (Seq<char>, u64), i: int, s: int)
    requires
        pdus_well_formed(pdus),
        0 <= i < pdus.len(),
        0 <= s < pdus[i].signals.unwrap()@.len(),
        pdus[i].signals.unwrap()@[s].name.unwrap()@ == e.0,
    ensures
        route_pdus_spec(pdus, e) matches Ok(m) && has_pair(m, (pdus[i].id.unwrap(), e)),
    decreases pdus.len(),
{
    let init = pdus.drop_last();
    assert(forall|j: int| 0 <= j < init.len() ==> init[j] == pdus[j]);
    assert(pdus_well_formed(init));
    crate::container_roundtrip::lemma_route_pdus_ok(init, e);
    let last = pdus[pdus.len() - 1];
    assert(pdu_well_formed(last));
    lemma_named(last);
    crate::container_roundtrip::lemma_route_signals_ok(last.signals.unwrap()@, last.id.unwrap(), e);
    let prev = route_pdus_spec(init, e)->Ok_0;
    let m2 = route_signals_spec(last.signals.unwrap()@, last.id, e)->Ok_0;
    let m = prev + m2;
    if i < pdus.len() - 1 {
        lemma_route_pdus_has(init, e, i, s);
        let t = choose|t: int| 0 <= t < prev.len() && #[trigger] prev[t] == (pdus[i].id.unwrap(), e);
        assert(m[t] == prev[t]);
    } else {
        lemma_route_signals_has(last.signals.unwrap()@, last.id.unwrap(), e, s);
        let t = choose|t: int| 0 <= t < m2.len() && #[trigger] m2[t] == (pdus[i].id.unwrap(), e);
        assert(m[prev.len() + t] == m2[t]);
    }
}

/// Routing listed values through well-formed PDUs yields each under the id of each PDU
/// with a signal of its name.
proof fn lemma_route_has(pv: Vec<Pdu>, data: Seq<(Seq<char>, u64)>, d: int, i: int, s: int)
    requires
        pdus_well_formed(pv@),
        0 <= d < data.len(),
        0 <= i < pv@.len(),
        0 <= s < pv@[i].signals.unwrap()@.len(),
        pv@[i].signals.unwrap()@[s].name.unwrap()@ == data[d].0,
    ensures
        route_spec(Some(pv), data) matches Ok(pairs) && has_pair(pairs, (pv@[i].id.unwrap(), data[d])),
    decreases data.len(),
{
    let init = data.drop_last();
    lemma_route_ok(pv, init);
    crate::container_roundtrip::lemma_route_pdus_ok(pv@, data.last());
    let prev = route_spec(Some(pv), init)->Ok_0;
    let m = route_pdus_spec(pv@, data.last())->Ok_0;
    let pairs = prev + m;
    if d < data.len() - 1 {
        assert(init[d] == data[d]);
        lemma_route_has(pv, init, d, i, s);
        let t = choose|t: int| 0 <= t < prev.len() && #[trigger] prev[t] == (pv@[i].id.unwrap(), data[d]);
        assert(pairs[t] == prev[t]);
    } else {
        lemma_route_pdus_has(pv@, data.last(), i, s);
        let t = choose|t: int| 0 <= t < m.len() && #[trigger] m[t] == (pv@[i].id.unwrap(), data[d]);
        assert(pairs[prev.len() + t] == m[t]);
    }
}

/// Finding a group by id looks at the ids alone.
proof fn lemma_group_index_ids(
    a: Seq<(i32, Seq<(Seq<char>, u64)>)>,
    b: Seq<(i32, Seq<(Seq<char>, u64)>)>,
    id: i32,
)
    requires
        a.len() == b.len(),
        forall|q: int| 0 <= q < a.len() ==> #[trigger] a[q].0 == b[q].0,
    ensures
        group_index(a, id) == group_index(b, id),
    decreases a.len(),
{
    if a.len() > 0 {
        assert(forall|q: int| 0 <= q < a.len() - 1 ==> a.drop_last()[q] == a[q] && b.drop_last()[q] == b[q]);
        lemma_group_index_ids(a.drop_last(), b.drop_last(), id);
        assert(a[a.len() - 1].0 == b[b.len() - 1].0);
    }
}

/// No group has an id that is not found.
proof fn lemma_group_index_none(groups: Seq<(i32, Seq<(Seq<char>, u64)>)>, id: i32)
    ensures
        group_index(groups, id) is None ==> forall|q: int| 0 <= q < groups.len() ==> groups[q].0 != id,
    decreases groups.len(),
{
    if groups.len() > 0 {
        lemma_group_index_none(groups.drop_last(), id);
        assert(forall|q: int| 0 <= q < groups.len() - 1 ==> groups.drop_last()[q] == groups[q]);
    }
}

/// Grouping gives each id one group, and puts each routed value in the group of its id.
proof fn lemma_group_has(pairs: Seq<(i32, (Seq<char>, u64))>)
    ensures
        forall|q1: int, q2: int|
            0 <= q1 < q2 < group_spec(pairs).len() ==> #[trigger] group_spec(pairs)[q1].0 != #[trigger] group_spec(
                pairs,
            )[q2].0,
        forall|t: int|
            #![trigger pairs[t]]
            0 <= t < pairs.len() ==> (group_index(group_spec(pairs), pairs[t].0) matches Some(q) && 0 <= q
                < group_spec(pairs).len() && group_spec(pairs)[q].0 == pairs[t].0 && exists|j: int|
                0 <= j < group_spec(pairs)[q].1.len() && #[trigger] group_spec(pairs)[q].1[j] == pairs[t].1),
    decreases pairs.len(),
{
    if pairs.len() > 0 {
        let init = pairs.drop_last();
        lemma_group_has(init);
        let g0 = group_spec(init);
        let p = pairs.last();
        let g = group_spec(pairs);
        assert(g == insert_routed(g0, p));
        lemma_group_index_hit(g0, p.0);
        lemma_group_index_none(g0, p.0);
        match group_index(g0, p.0) {
            Some(k0) => {
                assert(g == g0.update(k0, (p.0, g0[k0].1.push(p.1))));
                assert forall|q: int| 0 <= q < g0.len() implies #[trigger] g0[q].0 == g[q].0 by {}
                assert forall|y: i32| group_index(g, y) == group_index(g0, y) by {
                    lemma_group_index_ids(g0, g, y);
                }
                assert forall|t: int| #![trigger pairs[t]] 0 <= t < pairs.len() implies (group_index(g, pairs[t].0)
                    matches Some(q) && 0 <= q < g.len() && g[q].0 == pairs[t].0 && exists|j: int|
                    0 <= j < g[q].1.len() && #[trigger] g[q].1[j] == pairs[t].1) by {
                    if t < pairs.len() - 1 {
                        assert(init[t] == pairs[t]);
                        let q = group_index(g0, init[t].0)->Some_0;
                        let j = choose|j: int| 0 <= j < g0[q].1.len() && #[trigger] g0[q].1[j] == init[t].1;
                        assert(g[q].1[j] == pairs[t].1);
                    } else {
                        assert(g[k0].1[g0[k0].1.len() as int] == p.1);
                    }
                }
            },
            None => {
                assert(g == g0.push((p.0, seq![p.1])));
                assert(g.drop_last() == g0);
                assert forall|t: int| #![trigger pairs[t]] 0 <= t < pairs.len() implies (group_index(g, pairs[t].0)
                    matches Some(q) && 0 <= q < g.len() && g[q].0 == pairs[t].0 && exists|j: int|
                    0 <= j < g[q].1.len() && #[trigger] g[q].1[j] == pairs[t].1) by {
                    if t < pairs.len() - 1 {
                        assert(init[t] == pairs[t]);
                        let q = group_index(g0, init[t].0)->Some_0;
                        let j = choose|j: int| 0 <= j < g0[q].1.len() && #[trigger] g0[q].1[j] == init[t].1;
                        assert(g[q] == g0[q]);
                        assert(g[q].1[j] == pairs[t].1);
                    } else {
                        assert(g[g0.len() as int].1[0] == p.1);
                    }
                }
            },
        }
    }
}


/// The signals of the PDU that a group goes to.
pub open spec fn block_sigs(pdus: Seq<Pdu>, g: (i32, Seq<(Seq<char>, u64)>)) -> Seq<Signal> {
    pdus[pdu_index(pdus, g.0).unwrap()].signals.unwrap()@
}

/// Entry `s` of what decoding a group's PDU gives: the name of its signal `s` with the
/// value that signal holds.
pub open spec fn block_entry(pdus: Seq<Pdu>, g: (i32, Seq<(Seq<char>, u64)>), s: int) -> (Seq<char>, i32) {
    named_values(block_sigs(pdus, g), pdu_vals(block_sigs(pdus, g), g.1))[s]
}

/// `e` is an entry of the PDU of one of the groups.
pub open spec fn in_blocks(pdus: Seq<Pdu>, groups: Seq<(i32, Seq<(Seq<char>, u64)>)>, e: (Seq<char>, i32)) -> bool {
    exists|q: int, s: int|
        0 <= q < groups.len() && 0 <= s < block_sigs(pdus, groups[q]).len() && #[trigger] block_entry(
            pdus,
            groups[q],
            s,
        ) == e
}

/// `e` is one of the decoded entries.
pub open spec fn has_entry(es: Seq<(Seq<char>, i32)>, e: (Seq<char>, i32)) -> bool {
    exists|k: int| 0 <= k < es.len() && #[trigger] es[k] == e
}

/// The entries of what decoding gives back for some groups are exactly the entries of
/// the groups' PDUs.
proof fn lemma_expected_members(pdus: Seq<Pdu>, groups: Seq<(i32, Seq<(Seq<char>, u64)>)>)
    ensures
        forall|k: int|
            0 <= k < container_expected(pdus, groups).len() ==> in_blocks(
                pdus,
                groups,
                #[trigger] container_expected(pdus, groups)[k],
            ),
        forall|q: int, s: int|
            0 <= q < groups.len() && 0 <= s < block_sigs(pdus, groups[q]).len() ==> has_entry(
                container_expected(pdus, groups),
                #[trigger] block_entry(pdus, groups[q], s),
            ),
    decreases groups.len(),
{
    if groups.len() > 0 {
        let init = groups.drop_last();
        lemma_expected_members(pdus, init);
        let e0 = container_expected(pdus, init);
        let g = groups.last();
        let blk = named_values(block_sigs(pdus, g), pdu_vals(block_sigs(pdus, g), g.1));
        let es = container_expected(pdus, groups);
        assert(es == e0 + blk);
        let ql = groups.len() - 1;
        assert(groups[ql] == g);
        assert forall|k: int| 0 <= k < es.len() implies in_blocks(pdus, groups, #[trigger] es[k]) by {
            if k < e0.len() {
                assert(es[k] == e0[k]);
                assert(in_blocks(pdus, init, e0[k]));
                let (q, s) = choose|q: int, s: int|
                    0 <= q < init.len() && 0 <= s < block_sigs(pdus, init[q]).len() && #[trigger] block_entry(
                        pdus,
                        init[q],
                        s,
                    ) == e0[k];
                assert(init[q] == groups[q]);
                assert(block_entry(pdus, groups[q], s) == es[k]);
            } else {
                let s = k - e0.len();
                assert(es[k] == blk[s]);
                assert(block_entry(pdus, groups[ql], s) == es[k]);
            }
        }
        assert forall|q: int, s: int|
            0 <= q < groups.len() && 0 <= s < block_sigs(pdus, groups[q]).len() implies has_entry(
                es,
                #[trigger] block_entry(pdus, groups[q], s),
            ) by {
            if q < ql {
                assert(init[q] == groups[q]);
                assert(has_entry(e0, block_entry(pdus, init[q], s)));
                let k = choose|k: int| 0 <= k < e0.len() && #[trigger] e0[k] == block_entry(pdus, init[q], s);
                assert(es[k] == e0[k]);
            } else {
                assert(es[e0.len() + s] == blk[s]);
            }
        }
    }
}


/// The first signal with a name no other signal has is that signal.
proof fn lemma_signal_index_exact(sigs: Seq<Signal>, s: int)
    requires
        0 <= s < sigs.len(),
        sigs[s].name is Some,
        forall|t: int| 0 <= t < sigs.len() && t != s ==> (#[trigger] sigs[t]).name is Some && sigs[t].name.unwrap()@
            != sigs[s].name.unwrap()@,
    ensures
        signal_index(sigs, sigs[s].name.unwrap()@) == Some(s),
    decreases sigs.len(),
{
    let n = sigs[s].name.unwrap()@;
    let init = sigs.drop_last();
    assert(forall|t: int| 0 <= t < init.len() ==> init[t] == sigs[t]);
    if s < sigs.len() - 1 {
        assert(init[s] == sigs[s]);
        lemma_signal_index_exact(init, s);
    } else {
        lemma_signal_index_hit(init, n);
        if signal_index(init, n) is Some {
            let k = signal_index(init, n).unwrap();
            assert(sigs[k].name.unwrap()@ == n);
        }
    }
}

/// A list with an entry named `n` has a last value under `n`.
proof fn lemma_last_value_some(list: Seq<(Seq<char>, u64)>, n: Seq<char>, j: int)
    requires
        0 <= j < list.len(),
        list[j].0 == n,
    ensures
        last_value(list, n) is Some,
    decreases list.len(),
{
    if list.last().0 != n {
        assert(j < list.len() - 1);
        assert(list.drop_last()[j] == list[j]);
        lemma_last_value_some(list.drop_last(), n, j);
    }
}

/// Every signal of every PDU has a name that no other signal of any PDU has.
pub open spec fn names_unique(pdus: Seq<Pdu>) -> bool {
    forall|i: int, s: int, j: int, t: int|
        #![trigger pdus[i].signals.unwrap()@[s], pdus[j].signals.unwrap()@[t]]
        0 <= i < pdus.len() && 0 <= j < pdus.len() && 0 <= s < pdus[i].signals.unwrap()@.len() && 0 <= t
            < pdus[j].signals.unwrap()@.len() && (i != j || s != t) ==> pdus[i].signals.unwrap()@[s].name.unwrap()@
            != pdus[j].signals.unwrap()@[t].name.unwrap()@
}

/// No two PDUs share an id.
pub open spec fn ids_unique(pdus: Seq<Pdu>) -> bool {
    forall|i: int, j: int| 0 <= i < j < pdus.len() ==> #[trigger] pdus[i].id != #[trigger] pdus[j].id
}

/// No name is given two values.
pub open spec fn data_names_unique(data: Seq<(Seq<char>, u64)>) -> bool {
    forall|d: int, e: int| 0 <= d < e < data.len() ==> #[trigger] data[d].0 != #[trigger] data[e].0
}

/// Every value is given under the name of a signal of some PDU.
pub open spec fn data_named(pdus: Seq<Pdu>, data: Seq<(Seq<char>, u64)>) -> bool {
    forall|d: int|
        #![trigger data[d]]
        0 <= d < data.len() ==> exists|i: int, s: int|
            0 <= i < pdus.len() && 0 <= s < pdus[i].signals.unwrap()@.len()
                && #[trigger] pdus[i].signals.unwrap()@[s].name.unwrap()@ == data[d].0
}

/// The value a decoded entry of a group's PDU holds: the value given under its name,
/// or zero when no value is.
proof fn lemma_block_value(
    pv: Vec<Pdu>,
    data: Seq<(Seq<char>, u64)>,
    groups: Seq<(i32, Seq<(Seq<char>, u64)>)>,
    q: int,
    s: int,
)
    requires
        pdus_well_formed(pv@),
        names_unique(pv@),
        data_fits(pv@, data),
        data_names_unique(data),
        route_spec(Some(pv), data) is Ok,
        groups == group_spec(route_spec(Some(pv), data)->Ok_0),
        forall|t: int|
            0 <= t < route_spec(Some(pv), data)->Ok_0.len() ==> crate::container_roundtrip::routed_from(
                pv@,
                data,
                #[trigger] route_spec(Some(pv), data)->Ok_0[t],
            ),
        0 <= q < groups.len(),
        0 <= s < block_sigs(pv@, groups[q]).len(),
    ensures
        ({
            let e = block_entry(pv@, groups[q], s);
            &&& forall|d: int| 0 <= d < data.len() && data[d].0 == e.0 ==> e.1 == data[d].1 as i32
            &&& (forall|d: int| 0 <= d < data.len() ==> data[d].0 != e.0) ==> e.1 == 0
        }),
{
    let pdus = pv@;
    let pairs = route_spec(Some(pv), data)->Ok_0;
    lemma_group_from(pdus, data, pairs);
    lemma_group_has(pairs);
    let gq = groups[q];
    assert(exists|i: int| 0 <= i < pdus.len() && #[trigger] pdus[i].id == Some(gq.0));
    lemma_pdu_index_hit(pdus, gq.0);
    let pi = pdu_index(pdus, gq.0).unwrap();
    assert(pdus[pi].id == Some(gq.0));
    assert(pdu_well_formed(pdus[pi]));
    let sigs = pdus[pi].signals.unwrap()@;
    assert(sigs == block_sigs(pdus, gq));
    assert(laid_out(sigs, pdus[pi].size.unwrap() * 8));
    assert(sigs[s].name is Some);
    let n = sigs[s].name.unwrap()@;
    assert forall|t: int| 0 <= t < sigs.len() && t != s implies (#[trigger] sigs[t]).name is Some
        && sigs[t].name.unwrap()@ != n by {
        assert(sigs[t] == pdus[pi].signals.unwrap()@[t]);
        assert(pdus[pi].signals.unwrap()@[s] == sigs[s]);
    }
    lemma_signal_index_exact(sigs, s);
    let e = block_entry(pdus, gq, s);
    assert(e.0 == n);
    lemma_last_value_member(gq.1, n);
    assert forall|d: int| 0 <= d < data.len() && data[d].0 == e.0 implies e.1 == data[d].1 as i32 by {
        assert(pdus[pi].signals.unwrap()@[s] == sigs[s]);
        lemma_route_has(pv, data, d, pi, s);
        let x = pdus[pi].id.unwrap();
        let t = choose|t: int| 0 <= t < pairs.len() && #[trigger] pairs[t] == (x, data[d]);
        assert(pairs[t] == (x, data[d]));
        let q2 = group_index(groups, x).unwrap();
        assert(groups[q2].0 == x);
        assert(q2 == q) by {
            if q2 != q {
                if q2 < q {
                    assert(groups[q2].0 != groups[q].0);
                } else {
                    assert(groups[q].0 != groups[q2].0);
                }
            }
        }
        let j = choose|j: int| 0 <= j < groups[q2].1.len() && #[trigger] groups[q2].1[j] == pairs[t].1;
        lemma_last_value_some(gq.1, n, j);
        let v = last_value(gq.1, n).unwrap();
        let j2 = choose|j2: int| 0 <= j2 < gq.1.len() && #[trigger] gq.1[j2] == (n, v);
        assert(listed_in(data, groups[q].1[j2]));
        let d2 = choose|d2: int| 0 <= d2 < data.len() && #[trigger] data[d2] == gq.1[j2];
        assert(d2 == d) by {
            if d2 < d {
                assert(data[d2].0 != data[d].0);
            } else if d < d2 {
                assert(data[d].0 != data[d2].0);
            }
        }
        assert(data[d].1 <= i32::MAX);
        assert(e.1 == (pdu_vals(sigs, gq.1)[s]) as i32);
    }
    if forall|d: int| 0 <= d < data.len() ==> data[d].0 != e.0 {
        if last_value(gq.1, n) is Some {
            let v = last_value(gq.1, n).unwrap();
            let j2 = choose|j2: int| 0 <= j2 < gq.1.len() && #[trigger] gq.1[j2] == (n, v);
            assert(listed_in(data, groups[q].1[j2]));
            let d2 = choose|d2: int| 0 <= d2 < data.len() && #[trigger] data[d2] == gq.1[j2];
            assert(data[d2].0 != e.0);
        }
        assert(e.1 == (pdu_vals(sigs, gq.1)[s]) as i32);
    }
}


/// Decoding what a container frame encodes gives back every value by its name: for a
/// container frame whose PDUs are well-formed, have distinct ids and signals with
/// distinct names, and values given once per name, each under the name of a signal and
/// fitting its field, encoding succeeds and the decoded entries hold each given value
/// under its name, while every other decoded signal holds zero.
pub proof fn law_container_values_by_name(frame: Frame, data: Seq<(Seq<char>, u64)>)
    requires
        frame.is_pdu_container == Some(true),
        frame.pdus matches Some(pdus) && pdus_well_formed(pdus@) && names_unique(pdus@) && ids_unique(pdus@)
            && data_fits(pdus@, data) && data_named(pdus@, data),
        data_names_unique(data),
    ensures
        encode_spec(frame, data) matches Ok(Some(bytes)) && decode_spec(frame, bytes) matches Ok(Some(es)) && ({
            &&& forall|d: int| #![trigger data[d]] 0 <= d < data.len() ==> has_entry(es, (data[d].0, data[d].1 as i32))
            &&& forall|k: int, d: int|
                0 <= k < es.len() && 0 <= d < data.len() && #[trigger] es[k].0 == #[trigger] data[d].0 ==> es[k].1
                    == data[d].1 as i32
            &&& forall|k: int|
                0 <= k < es.len() && (forall|d: int| 0 <= d < data.len() ==> data[d].0 != (#[trigger] es[k]).0)
                    ==> es[k].1 == 0
        }),
{
    let pv = frame.pdus.unwrap();
    let pdus = pv@;
    law_container_decode_inverts_encode(frame, data);
    lemma_route_ok(pv, data);
    let pairs = route_spec(frame.pdus, data)->Ok_0;
    let groups = group_spec(pairs);
    lemma_group_from(pdus, data, pairs);
    lemma_group_has(pairs);
    lemma_expected_members(pdus, groups);
    let es = container_expected(pdus, groups);
    assert forall|k: int| 0 <= k < es.len() implies ({
        &&& forall|d: int| 0 <= d < data.len() && data[d].0 == es[k].0 ==> es[k].1 == data[d].1 as i32
        &&& (forall|d: int| 0 <= d < data.len() ==> data[d].0 != es[k].0) ==> es[k].1 == 0
    }) by {
        assert(in_blocks(pdus, groups, es[k]));
        let (q, s) = choose|q: int, s: int|
            0 <= q < groups.len() && 0 <= s < block_sigs(pdus, groups[q]).len() && #[trigger] block_entry(
                pdus,
                groups[q],
                s,
            ) == es[k];
        lemma_block_value(pv, data, groups, q, s);
    }
    assert forall|d: int| #![trigger data[d]] 0 <= d < data.len() implies has_entry(es, (data[d].0, data[d].1 as i32)) by {
        assert(data_named(pdus, data));
        let (i, s) = choose|i: int, s: int|
            0 <= i < pdus.len() && 0 <= s < pdus[i].signals.unwrap()@.len()
                && #[trigger] pdus[i].signals.unwrap()@[s].name.unwrap()@ == data[d].0;
        assert(pdu_well_formed(pdus[i]));
        let x = pdus[i].id.unwrap();
        lemma_route_has(pv, data, d, i, s);
        let t = choose|t: int| 0 <= t < pairs.len() && #[trigger] pairs[t] == (x, data[d]);
        assert(pairs[t].0 == x);
        let q = group_index(groups, x).unwrap();
        assert(groups[q].0 == x);
        lemma_pdu_index_hit(pdus, x);
        let pi = pdu_index(pdus, x).unwrap();
        assert(pi == i) by {
            if pi < i {
                assert(pdus[pi].id != pdus[i].id);
            } else if i < pi {
                assert(pdus[i].id != pdus[pi].id);
            }
        }
        assert(block_sigs(pdus, groups[q]) == pdus[i].signals.unwrap()@);
        let e = block_entry(pdus, groups[q], s);
        assert(has_entry(es, e));
        let k = choose|k: int| 0 <= k < es.len() && #[trigger] es[k] == e;
        assert(e.0 == data[d].0);
        assert(es[k].1 == data[d].1 as i32);
        assert(es[k] == (data[d].0, data[d].1 as i32));
    }
}

} // verus!
