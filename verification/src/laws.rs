//! Properties of the merge engine, proved once over the specification
//! functions that the executable phases are pinned to.

use vstd::prelude::*;
use crate::neighbors::{EntryV, Method, entries_wf};
use crate::inventory::{
    RecV, ProbeV, records_wf, find_rec, lemma_find_rec, spec_seed, spec_record_probes,
    spec_merge, spec_merge_one, spec_apply_reach, spec_csv, rec_of_entry, rec_of_ping, merge_rec,
    insert_sorted, sort_by_ip,
};
use crate::text::{lex_le, lemma_lex_le_total, lemma_lex_le_trans};

verus! {

/// The record set an active run holds after seeding from the first
/// neighbor read, folding in the probe verdicts, merging the second
/// neighbor read, and applying reachability.
pub open spec fn spec_pipeline(
    e1: Seq<EntryV>,
    ps: Seq<ProbeV>,
    e2: Seq<EntryV>,
    ts: Seq<char>,
) -> Seq<RecV> {
    spec_apply_reach(spec_merge(spec_record_probes(spec_seed(e1, ts), ps, ts), e2, ts), ps)
}

/// Merging an empty second neighbor read leaves every record — hardware
/// address and discovery method included — exactly as it was.
pub proof fn lemma_merge_empty(m: Seq<RecV>, ts: Seq<char>)
    ensures
        spec_merge(m, Seq::<EntryV>::empty(), ts) == m,
{
}

/// A merge never shrinks the set, never erases a hardware address once
/// populated, never demotes a method that is not provisional `ping`,
/// and never touches identity, timestamp or reachability.
pub proof fn lemma_merge_monotone(m: Seq<RecV>, es: Seq<EntryV>, ts: Seq<char>, i: int)
    requires
        0 <= i < m.len(),
    ensures
        spec_merge(m, es, ts).len() >= m.len(),
        spec_merge(m, es, ts)[i].ip == m[i].ip,
        spec_merge(m, es, ts)[i].ts == m[i].ts,
        spec_merge(m, es, ts)[i].reachable == m[i].reachable,
        m[i].mac.len() > 0 ==> spec_merge(m, es, ts)[i].mac == m[i].mac,
        m[i].via != Method::Ping ==> spec_merge(m, es, ts)[i].via == m[i].via,
    decreases es.len(),
{
    if es.len() > 0 {
        lemma_merge_monotone(m, es.drop_last(), ts, i);
        let prev = spec_merge(m, es.drop_last(), ts);
        let e = es.last();
        lemma_find_rec(prev, e.ip);
    }
}

/// The merged set stays deduplicated; existing records keep their
/// place; appended records come from the observations, with
/// reachability unknown.
pub proof fn lemma_merge_frame(m: Seq<RecV>, es: Seq<EntryV>, ts: Seq<char>)
    requires
        records_wf(m),
    ensures
        spec_merge(m, es, ts).len() >= m.len(),
        records_wf(spec_merge(m, es, ts)),
        forall|i: int| 0 <= i < m.len() ==> #[trigger] spec_merge(m, es, ts)[i].ip == m[i].ip,
        forall|i: int|
            m.len() <= i < spec_merge(m, es, ts).len() ==> #[trigger] spec_merge(
                m,
                es,
                ts,
            )[i].reachable is None,
    decreases es.len(),
{
    if es.len() > 0 {
        lemma_merge_frame(m, es.drop_last(), ts);
        let prev = spec_merge(m, es.drop_last(), ts);
        let e = es.last();
        lemma_find_rec(prev, e.ip);
        let f = find_rec(prev, e.ip) as int;
        let res = spec_merge(m, es, ts);
        assert(res == spec_merge_one(prev, e, ts));
        if f == prev.len() {
            assert forall|a: int, b: int| 0 <= a < b < res.len() implies res[a].ip != res[b].ip by {
                if b < prev.len() {
                    assert(prev[a].ip != prev[b].ip);
                } else {
                    assert(prev[a].ip != e.ip);
                }
            }
        } else {
            assert(prev[f].ip == e.ip);
            assert forall|a: int, b: int| 0 <= a < b < res.len() implies res[a].ip != res[b].ip by {
                assert(res[a].ip == prev[a].ip && res[b].ip == prev[b].ip);
            }
        }
    }
}

/// A record whose address no observation mentions is not changed by the
/// merge at all.
pub proof fn lemma_merge_untouched(m: Seq<RecV>, es: Seq<EntryV>, ts: Seq<char>, i: int)
    requires
        records_wf(m),
        0 <= i < m.len(),
        forall|k: int| 0 <= k < es.len() ==> #[trigger] es[k].ip != m[i].ip,
    ensures
        spec_merge(m, es, ts)[i] == m[i],
    decreases es.len(),
{
    if es.len() > 0 {
        assert forall|k: int| 0 <= k < es.drop_last().len() implies #[trigger] es.drop_last()[k].ip
            != m[i].ip by {
            assert(es[k].ip != m[i].ip);
        }
        lemma_merge_untouched(m, es.drop_last(), ts, i);
        lemma_merge_frame(m, es.drop_last(), ts);
        let prev = spec_merge(m, es.drop_last(), ts);
        let e = es.last();
        assert(e.ip != m[i].ip);
        lemma_find_rec(prev, e.ip);
        let f = find_rec(prev, e.ip) as int;
        if f < prev.len() {
            assert(prev[f].ip == e.ip);
            assert(prev[i].ip == m[i].ip);
            assert(f != i);
        }
    }
}

/// A record seeded provisionally by a probe (`ping`, no hardware
/// address) that the second neighbor read matches ends with the
/// observation's method and hardware address — it never stays `ping`.
pub proof fn lemma_method_upgrade(m: Seq<RecV>, es: Seq<EntryV>, ts: Seq<char>, i: int, j: int)
    requires
        records_wf(m),
        entries_wf(es),
        0 <= i < m.len(),
        0 <= j < es.len(),
        es[j].ip == m[i].ip,
        m[i].via == Method::Ping,
        m[i].mac.len() == 0,
        es[j].mac.len() > 0,
        es[j].via != Method::Ping,
    ensures
        spec_merge(m, es, ts)[i].via == es[j].via,
        spec_merge(m, es, ts)[i].mac == es[j].mac,
    decreases es.len(),
{
    let prev = spec_merge(m, es.drop_last(), ts);
    lemma_merge_frame(m, es.drop_last(), ts);
    let e = es.last();
    lemma_find_rec(prev, e.ip);
    let f = find_rec(prev, e.ip) as int;
    if j == es.len() - 1 {
        assert forall|k: int| 0 <= k < es.drop_last().len() implies #[trigger] es.drop_last()[k].ip
            != m[i].ip by {
            assert(es[k].ip != es[j].ip);
        }
        lemma_merge_untouched(m, es.drop_last(), ts, i);
        assert(prev[i] == m[i]);
        assert(prev[i].ip == e.ip);
        assert(f == i) by {
            if f < i {
                assert(prev[f].ip == e.ip && prev[i].ip == e.ip);
            }
        }
        assert(spec_merge(m, es, ts) == prev.update(i, merge_rec(prev[i], e)));
    } else {
        assert(es.drop_last()[j] == es[j]);
        assert forall|a: int, b: int|
            0 <= a < b < es.drop_last().len() implies es.drop_last()[a].ip != es.drop_last()[
            b].ip by {
            assert(es[a].ip != es[b].ip);
        }
        lemma_method_upgrade(m, es.drop_last(), ts, i, j);
        assert(e.ip != es[j].ip) by {
            assert(es[j].ip == es.drop_last()[j].ip);
        }
        assert(prev[i].ip == m[i].ip);
        if f < prev.len() {
            assert(prev[f].ip == e.ip);
            assert(f != i);
        }
    }
}

/// Applying reachability touches only probed addresses: lengths,
/// identities and all other fields are kept, and a record whose address
/// was never probed is untouched.
pub proof fn lemma_apply_frame(m: Seq<RecV>, ps: Seq<ProbeV>)
    ensures
        spec_apply_reach(m, ps).len() == m.len(),
        forall|i: int| 0 <= i < m.len() ==> #[trigger] spec_apply_reach(m, ps)[i].ip == m[i].ip,
        forall|i: int| 0 <= i < m.len() ==> #[trigger] spec_apply_reach(m, ps)[i].mac == m[i].mac,
        forall|i: int| 0 <= i < m.len() ==> #[trigger] spec_apply_reach(m, ps)[i].via == m[i].via,
        forall|i: int| 0 <= i < m.len() ==> #[trigger] spec_apply_reach(m, ps)[i].ts == m[i].ts,
        forall|i: int|
            0 <= i < m.len() && (forall|k: int|
                0 <= k < ps.len() ==> #[trigger] ps[k].ip != m[i].ip) ==> #[trigger] spec_apply_reach(
                m,
                ps,
            )[i] == m[i],
    decreases ps.len(),
{
    if ps.len() > 0 {
        lemma_apply_frame(m, ps.drop_last());
        let prev = spec_apply_reach(m, ps.drop_last());
        let p = ps.last();
        lemma_find_rec(prev, p.ip);
        let f = find_rec(prev, p.ip) as int;
        let res = spec_apply_reach(m, ps);
        assert forall|i: int|
            0 <= i < m.len() implies #[trigger] res[i].ip == m[i].ip && res[i].mac == m[i].mac
            && res[i].via == m[i].via && res[i].ts == m[i].ts by {
            assert(prev[i].ip == m[i].ip && prev[i].mac == m[i].mac && prev[i].via == m[i].via
                && prev[i].ts == m[i].ts);
            if !(f < prev.len() && i == f) {
                assert(res[i] == prev[i]);
            }
        }
        assert forall|i: int|
            0 <= i < m.len() && (forall|k: int|
                0 <= k < ps.len() ==> #[trigger] ps[k].ip != m[i].ip) implies #[trigger] spec_apply_reach(
            m,
            ps,
        )[i] == m[i] by {
            assert forall|k: int| 0 <= k < ps.drop_last().len() implies #[trigger] ps.drop_last()[
                k].ip != m[i].ip by {
                assert(ps[k].ip != m[i].ip);
            }
            assert(prev[i] == m[i]);
            if f < prev.len() {
                assert(prev[f].ip == p.ip);
                assert(ps[ps.len() - 1].ip != m[i].ip);
                assert(f != i);
            }
        }
    }
}

/// Before reachability is applied, every record of a run — seeded,
/// probe-created, or merged in — still has reachability unknown.
proof fn lemma_pre_apply_all_unknown(
    e1: Seq<EntryV>,
    ps: Seq<ProbeV>,
    e2: Seq<EntryV>,
    ts: Seq<char>,
    i: int,
)
    requires
        entries_wf(e1),
        0 <= i < spec_merge(spec_record_probes(spec_seed(e1, ts), ps, ts), e2, ts).len(),
    ensures
        spec_merge(spec_record_probes(spec_seed(e1, ts), ps, ts), e2, ts)[i].reachable is None,
{
    let m0 = spec_seed(e1, ts);
    let m1 = spec_record_probes(m0, ps, ts);
    assert forall|k: int| 0 <= k < m0.len() implies #[trigger] m0[k].reachable is None by {
        assert(m0[k] == rec_of_entry(e1[k], ts));
    }
    lemma_record_probes_unknown(m0, ps, ts);
    assert forall|a: int, b: int| 0 <= a < b < m0.len() implies m0[a].ip != m0[b].ip by {
        assert(m0[a].ip == e1[a].ip && m0[b].ip == e1[b].ip);
    }
    lemma_record_probes_frame(m0, ps, ts);
    lemma_merge_all_unknown(m1, e2, ts, i);
}

/// Folding probe verdicts keeps the set deduplicated and keeps every
/// record's reachability unknown.
pub proof fn lemma_record_probes_frame(m: Seq<RecV>, ps: Seq<ProbeV>, ts: Seq<char>)
    requires
        records_wf(m),
    ensures
        spec_record_probes(m, ps, ts).len() >= m.len(),
        records_wf(spec_record_probes(m, ps, ts)),
        forall|i: int|
            0 <= i < m.len() ==> #[trigger] spec_record_probes(m, ps, ts)[i] == m[i],
    decreases ps.len(),
{
    if ps.len() > 0 {
        lemma_record_probes_frame(m, ps.drop_last(), ts);
        let prev = spec_record_probes(m, ps.drop_last(), ts);
        let p = ps.last();
        lemma_find_rec(prev, p.ip);
        let res = spec_record_probes(m, ps, ts);
        if p.ok && find_rec(prev, p.ip) == prev.len() {
            assert forall|a: int, b: int| 0 <= a < b < res.len() implies res[a].ip != res[b].ip by {
                if b < prev.len() {
                    assert(prev[a].ip != prev[b].ip);
                } else {
                    assert(prev[a].ip != p.ip);
                }
            }
        }
    }
}

proof fn lemma_record_probes_unknown(m: Seq<RecV>, ps: Seq<ProbeV>, ts: Seq<char>)
    requires
        forall|k: int| 0 <= k < m.len() ==> #[trigger] m[k].reachable is None,
    ensures
        forall|k: int|
            0 <= k < spec_record_probes(m, ps, ts).len() ==> #[trigger] spec_record_probes(
                m,
                ps,
                ts,
            )[k].reachable is None,
    decreases ps.len(),
{
    if ps.len() > 0 {
        lemma_record_probes_unknown(m, ps.drop_last(), ts);
    }
}

proof fn lemma_merge_all_unknown(m: Seq<RecV>, es: Seq<EntryV>, ts: Seq<char>, i: int)
    requires
        forall|k: int| 0 <= k < m.len() ==> #[trigger] m[k].reachable is None,
        0 <= i < spec_merge(m, es, ts).len(),
    ensures
        spec_merge(m, es, ts)[i].reachable is None,
    decreases es.len(),
{
    if es.len() == 0 {
    } else {
        let prev = spec_merge(m, es.drop_last(), ts);
        let e = es.last();
        lemma_find_rec(prev, e.ip);
        let f = find_rec(prev, e.ip) as int;
        if f == prev.len() {
            if i < prev.len() {
                lemma_merge_all_unknown(m, es.drop_last(), ts, i);
            }
        } else {
            if i != f {
                lemma_merge_all_unknown(m, es.drop_last(), ts, i);
            } else {
                lemma_merge_all_unknown(m, es.drop_last(), ts, f);
            }
        }
    }
}

/// A record whose address lay outside everything that was probed — for
/// example outside the scanned subnet — reports reachability unknown
/// even after a full active run.
pub proof fn lemma_unprobed_unknown(
    e1: Seq<EntryV>,
    ps: Seq<ProbeV>,
    e2: Seq<EntryV>,
    ts: Seq<char>,
    i: int,
)
    requires
        entries_wf(e1),
        0 <= i < spec_pipeline(e1, ps, e2, ts).len(),
        forall|k: int|
            0 <= k < ps.len() ==> #[trigger] ps[k].ip != spec_pipeline(e1, ps, e2, ts)[i].ip,
    ensures
        spec_pipeline(e1, ps, e2, ts)[i].reachable is None,
{
    let m3 = spec_merge(spec_record_probes(spec_seed(e1, ts), ps, ts), e2, ts);
    lemma_apply_frame(m3, ps);
    assert(spec_pipeline(e1, ps, e2, ts) == spec_apply_reach(m3, ps));
    assert(spec_pipeline(e1, ps, e2, ts)[i].ip == m3[i].ip);
    assert forall|k: int| 0 <= k < ps.len() implies #[trigger] ps[k].ip != m3[i].ip by {
        assert(ps[k].ip != spec_pipeline(e1, ps, e2, ts)[i].ip);
    }
    assert(spec_apply_reach(m3, ps)[i] == m3[i]);
    lemma_pre_apply_all_unknown(e1, ps, e2, ts, i);
}

/// Rows appear in ascending lexicographic order of their address.
pub open spec fn sorted_by_ip_order(s: Seq<RecV>) -> bool {
    forall|i: int, j: int| 0 <= i < j < s.len() ==> lex_le(#[trigger] s[i].ip, #[trigger] s[j].ip)
}

proof fn lemma_insert_sorted_props(s: Seq<RecV>, r: RecV)
    ensures
        insert_sorted(s, r).len() == s.len() + 1,
        insert_sorted(s, r).to_multiset() == s.to_multiset().insert(r),
        forall|k: int|
            0 <= k < insert_sorted(s, r).len() ==> (#[trigger] insert_sorted(s, r)[k] == r
                || exists|j: int| 0 <= j < s.len() && insert_sorted(s, r)[k] == s[j]),
        sorted_by_ip_order(s) ==> sorted_by_ip_order(insert_sorted(s, r)),
    decreases s.len(),
{
    broadcast use vstd::seq_lib::group_to_multiset_ensures;

    let res = insert_sorted(s, r);
    if s.len() == 0 {
        assert(res == seq![r]);
        assert(Seq::<RecV>::empty().push(r) =~= seq![r]);
        assert(seq![r].to_multiset() =~= s.to_multiset().insert(r));
    } else if lex_le(s.last().ip, r.ip) {
        assert(res == s.push(r));
        if sorted_by_ip_order(s) {
            assert forall|i: int, j: int| 0 <= i < j < res.len() implies lex_le(
                #[trigger] res[i].ip,
                #[trigger] res[j].ip,
            ) by {
                if j == res.len() - 1 {
                    if i < s.len() - 1 {
                        assert(lex_le(s[i].ip, s.last().ip));
                        lemma_lex_le_trans(s[i].ip, s.last().ip, r.ip);
                    }
                } else {
                    assert(lex_le(s[i].ip, s[j].ip));
                }
            }
        }
    } else {
        lemma_insert_sorted_props(s.drop_last(), r);
        let w = insert_sorted(s.drop_last(), r);
        assert(res == w.push(s.last()));
        assert(s.drop_last().push(s.last()) =~= s);
        assert(s.to_multiset() == s.drop_last().to_multiset().insert(s.last()));
        assert(res.to_multiset() =~= s.to_multiset().insert(r)) by {
            assert(res.to_multiset() == w.to_multiset().insert(s.last()));
            assert(w.to_multiset() == s.drop_last().to_multiset().insert(r));
        }
        assert forall|k: int|
            0 <= k < res.len() implies (#[trigger] res[k] == r || exists|j: int|
            0 <= j < s.len() && res[k] == s[j]) by {
            if k < w.len() {
                assert(w[k] == r || exists|j: int| 0 <= j < s.drop_last().len() && w[k] == s
                    .drop_last()[j]);
                if w[k] != r {
                    let j = choose|j: int| 0 <= j < s.drop_last().len() && w[k] == s.drop_last()[j];
                    assert(res[k] == s[j]);
                }
            } else {
                assert(res[k] == s[s.len() - 1]);
            }
        }
        if sorted_by_ip_order(s) {
            assert(sorted_by_ip_order(s.drop_last())) by {
                assert forall|i: int, j: int|
                    0 <= i < j < s.drop_last().len() implies lex_le(
                    #[trigger] s.drop_last()[i].ip,
                    #[trigger] s.drop_last()[j].ip,
                ) by {
                    assert(lex_le(s[i].ip, s[j].ip));
                }
            }
            lemma_lex_le_total(s.last().ip, r.ip);
            assert forall|i: int, j: int| 0 <= i < j < res.len() implies lex_le(
                #[trigger] res[i].ip,
                #[trigger] res[j].ip,
            ) by {
                if j == res.len() - 1 {
                    if res[i] == r {
                        assert(lex_le(r.ip, s.last().ip));
                    } else {
                        let q = choose|q: int|
                            0 <= q < s.drop_last().len() && res[i] == s.drop_last()[q];
                        assert(lex_le(s[q].ip, s.last().ip));
                    }
                } else {
                    assert(lex_le(w[i].ip, w[j].ip));
                }
            }
        }
    }
}

/// What the exporter sorts is a permutation of the record set, ordered
/// by ascending lexicographic address sort.
pub proof fn lemma_export_order(m: Seq<RecV>)
    ensures
        sort_by_ip(m).len() == m.len(),
        sort_by_ip(m).to_multiset() == m.to_multiset(),
        sorted_by_ip_order(sort_by_ip(m)),
    decreases m.len(),
{
    broadcast use vstd::seq_lib::group_to_multiset_ensures;

    if m.len() > 0 {
        lemma_export_order(m.drop_last());
        lemma_insert_sorted_props(sort_by_ip(m.drop_last()), m.last());
        assert(m.drop_last().push(m.last()) =~= m);
        assert(m.to_multiset() == m.drop_last().to_multiset().insert(m.last()));
    }
}

/// Two runs over identical parsed inputs and the same timestamp export
/// byte-identical text.
pub proof fn lemma_run_deterministic(
    e1a: Seq<EntryV>,
    psa: Seq<ProbeV>,
    e2a: Seq<EntryV>,
    tsa: Seq<char>,
    e1b: Seq<EntryV>,
    psb: Seq<ProbeV>,
    e2b: Seq<EntryV>,
    tsb: Seq<char>,
)
    requires
        e1a == e1b,
        psa == psb,
        e2a == e2b,
        tsa == tsb,
    ensures
        spec_csv(spec_pipeline(e1a, psa, e2a, tsa)) == spec_csv(spec_pipeline(e1b, psb, e2b, tsb)),
{
}

} // verus!
