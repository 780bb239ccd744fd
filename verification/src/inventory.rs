//! The record set: seeding from neighbor observations, folding in probe
//! verdicts and a second neighbor read, and exporting stable CSV.

use vstd::prelude::*;
use vstd::string::StrSliceExecFns;
use vstd::string::StringExecFns;
use crate::neighbors::{Entry, EntryV, Method, Neighbors, spec_method_label};
use crate::text::{str_eq, str_le, lex_le};

verus! {

/// One inventory record.
pub struct Rec {
    /// The address, the record's identity key.
    pub ip: String,
    /// Lowercase hardware address, or empty when unknown.
    pub mac: String,
    /// Probe verdict; `None` when the address was never probed.
    pub reachable: Option<bool>,
    /// The source that established (or last upgraded) the record.
    pub seen_via: Method,
    /// The run's shared timestamp text.
    pub timestamp: String,
}

/// The mathematical value of a [`Rec`].
pub struct RecV {
    pub ip: Seq<char>,
    pub mac: Seq<char>,
    pub reachable: Option<bool>,
    pub via: Method,
    pub ts: Seq<char>,
}

impl View for Rec {
    type V = RecV;

    open spec fn view(&self) -> RecV {
        RecV {
            ip: self.ip@,
            mac: self.mac@,
            reachable: self.reachable,
            via: self.seen_via,
            ts: self.timestamp@,
        }
    }
}

impl Clone for Rec {
    fn clone(&self) -> (r: Self)
        ensures
            r@ == self@,
    {
        Rec {
            ip: self.ip.clone(),
            mac: self.mac.clone(),
            reachable: self.reachable,
            seen_via: self.seen_via,
            timestamp: self.timestamp.clone(),
        }
    }
}

pub open spec fn rec_views(v: Seq<Rec>) -> Seq<RecV> {
    v.map_values(|r: Rec| r@)
}

/// One probe outcome.
pub struct Probe {
    pub ip: String,
    pub ok: bool,
}

pub struct ProbeV {
    pub ip: Seq<char>,
    pub ok: bool,
}

impl View for Probe {
    type V = ProbeV;

    open spec fn view(&self) -> ProbeV {
        ProbeV { ip: self.ip@, ok: self.ok }
    }
}

pub open spec fn probe_views(v: Seq<Probe>) -> Seq<ProbeV> {
    v.map_values(|p: Probe| p@)
}

/// No two verdicts concern the same address.
pub open spec fn probes_wf(ps: Seq<ProbeV>) -> bool {
    forall|i: int, j: int| 0 <= i < j < ps.len() ==> ps[i].ip != ps[j].ip
}

pub open spec fn find_probe(ps: Seq<ProbeV>, ip: Seq<char>) -> nat
    decreases ps.len(),
{
    if ps.len() == 0 {
        0
    } else if ps[0].ip == ip {
        0
    } else {
        1 + find_probe(ps.drop_first(), ip)
    }
}

pub proof fn lemma_find_probe(ps: Seq<ProbeV>, ip: Seq<char>)
    ensures
        find_probe(ps, ip) <= ps.len(),
        forall|k: int| 0 <= k < find_probe(ps, ip) ==> ps[k].ip != ip,
        find_probe(ps, ip) < ps.len() ==> ps[find_probe(ps, ip) as int].ip == ip,
    decreases ps.len(),
{
    if ps.len() > 0 && ps[0].ip != ip {
        lemma_find_probe(ps.drop_first(), ip);
        assert forall|k: int| 0 <= k < find_probe(ps, ip) implies ps[k].ip != ip by {
            if k > 0 {
                assert(ps.drop_first()[k - 1].ip != ip);
            }
        }
    }
}

pub proof fn lemma_find_probe_at(ps: Seq<ProbeV>, ip: Seq<char>, j: int)
    requires
        0 <= j <= ps.len(),
        forall|k: int| 0 <= k < j ==> ps[k].ip != ip,
        j < ps.len() ==> ps[j].ip == ip,
        j == ps.len() ==> forall|k: int| 0 <= k < ps.len() ==> ps[k].ip != ip,
    ensures
        find_probe(ps, ip) == j,
{
    lemma_find_probe(ps, ip);
    let f = find_probe(ps, ip) as int;
    if f < j {
        assert(ps[f].ip != ip);
    }
    if f > j {
        assert(ps[j].ip != ip);
    }
}

/// Record one verdict, replacing any earlier one for the same address.
pub open spec fn upsert_probe(ps: Seq<ProbeV>, p: ProbeV) -> Seq<ProbeV> {
    let i = find_probe(ps, p.ip) as int;
    if i == ps.len() {
        ps.push(p)
    } else {
        ps.update(i, p)
    }
}

/// The probe verdicts of one run, one per probed address.
pub struct ProbeLog {
    probes: Vec<Probe>,
}

impl View for ProbeLog {
    type V = Seq<ProbeV>;

    closed spec fn view(&self) -> Seq<ProbeV> {
        probe_views(self.probes@)
    }
}

impl ProbeLog {
    pub open spec fn wf(&self) -> bool {
        probes_wf(self@)
    }

    pub fn new() -> (r: Self)
        ensures
            r@ == Seq::<ProbeV>::empty(),
            r.wf(),
    {
        let r = ProbeLog { probes: Vec::new() };
        proof {
            assert(r@ =~= Seq::<ProbeV>::empty());
        }
        r
    }

    pub fn len(&self) -> (n: usize)
        ensures
            n == self@.len(),
    {
        self.probes.len()
    }

    pub fn probe_at(&self, i: usize) -> (p: &Probe)
        requires
            i < self@.len(),
        ensures
            p@ == self@[i as int],
    {
        &self.probes[i]
    }

    /// Record a verdict for one address.
    pub fn add(&mut self, ip: String, ok: bool)
        requires
            old(self).wf(),
        ensures
            final(self)@ == upsert_probe(old(self)@, ProbeV { ip: ip@, ok }),
            final(self).wf(),
    {
        let p = Probe { ip, ok };
        let n = self.probes.len();
        let mut i: usize = 0;
        while i < n
            invariant
                0 <= i <= n,
                n == self@.len(),
                self@ == old(self)@,
                probes_wf(self@),
                p@ == (ProbeV { ip: ip@, ok }),
                forall|k: int| 0 <= k < i ==> self@[k].ip != p@.ip,
            decreases n - i,
        {
            if str_eq(self.probes[i].ip.as_str(), p.ip.as_str()) {
                let ghost prev = self@;
                proof {
                    lemma_find_probe_at(prev, p@.ip, i as int);
                }
                self.probes.remove(i);
                self.probes.insert(i, p);
                proof {
                    assert(self@ =~= prev.update(i as int, p@));
                    assert forall|a: int, b: int| 0 <= a < b < self@.len() implies self@[a].ip
                        != self@[b].ip by {
                        assert(self@[a].ip == prev[a].ip && self@[b].ip == prev[b].ip);
                    }
                }
                return ;
            }
            i = i + 1;
        }
        let ghost prev = self@;
        proof {
            lemma_find_probe_at(prev, p@.ip, n as int);
        }
        self.probes.push(p);
        proof {
            assert(self@ =~= prev.push(p@));
            assert forall|a: int, b: int| 0 <= a < b < self@.len() implies self@[a].ip
                != self@[b].ip by {
                if b < self@.len() - 1 {
                    assert(self@[a].ip == prev[a].ip && self@[b].ip == prev[b].ip);
                } else {
                    assert(self@[a].ip == prev[a].ip && self@[b].ip == p@.ip);
                }
            }
        }
    }
}

/// No two records share an address.
pub open spec fn records_wf(m: Seq<RecV>) -> bool {
    forall|i: int, j: int| 0 <= i < j < m.len() ==> m[i].ip != m[j].ip
}

pub open spec fn find_rec(m: Seq<RecV>, ip: Seq<char>) -> nat
    decreases m.len(),
{
    if m.len() == 0 {
        0
    } else if m[0].ip == ip {
        0
    } else {
        1 + find_rec(m.drop_first(), ip)
    }
}

pub proof fn lemma_find_rec(m: Seq<RecV>, ip: Seq<char>)
    ensures
        find_rec(m, ip) <= m.len(),
        forall|k: int| 0 <= k < find_rec(m, ip) ==> m[k].ip != ip,
        find_rec(m, ip) < m.len() ==> m[find_rec(m, ip) as int].ip == ip,
    decreases m.len(),
{
    if m.len() > 0 && m[0].ip != ip {
        lemma_find_rec(m.drop_first(), ip);
        assert forall|k: int| 0 <= k < find_rec(m, ip) implies m[k].ip != ip by {
            if k > 0 {
                assert(m.drop_first()[k - 1].ip != ip);
            }
        }
    }
}

pub proof fn lemma_find_rec_at(m: Seq<RecV>, ip: Seq<char>, j: int)
    requires
        0 <= j <= m.len(),
        forall|k: int| 0 <= k < j ==> m[k].ip != ip,
        j < m.len() ==> m[j].ip == ip,
        j == m.len() ==> forall|k: int| 0 <= k < m.len() ==> m[k].ip != ip,
    ensures
        find_rec(m, ip) == j,
{
    lemma_find_rec(m, ip);
    let f = find_rec(m, ip) as int;
    if f < j {
        assert(m[f].ip != ip);
    }
    if f > j {
        assert(m[j].ip != ip);
    }
}

/// The record a fresh neighbor observation creates.
pub open spec fn rec_of_entry(e: EntryV, ts: Seq<char>) -> RecV {
    RecV { ip: e.ip, mac: e.mac, reachable: None, via: e.via, ts }
}

/// Seeding: one record per observation, reachability unknown.
pub open spec fn spec_seed(es: Seq<EntryV>, ts: Seq<char>) -> Seq<RecV> {
    es.map_values(|e: EntryV| rec_of_entry(e, ts))
}

/// The record a reachable, previously unknown probed host creates.
pub open spec fn rec_of_ping(ip: Seq<char>, ts: Seq<char>) -> RecV {
    RecV { ip, mac: Seq::empty(), reachable: None, via: Method::Ping, ts }
}

/// Folding probe verdicts into the set: every host that answered and
/// has no record yet gets a provisional `ping` record with no hardware
/// address; nothing else changes.
pub open spec fn spec_record_probes(m: Seq<RecV>, ps: Seq<ProbeV>, ts: Seq<char>) -> Seq<RecV>
    decreases ps.len(),
{
    if ps.len() == 0 {
        m
    } else {
        let prev = spec_record_probes(m, ps.drop_last(), ts);
        let p = ps.last();
        if p.ok && find_rec(prev, p.ip) == prev.len() {
            prev.push(rec_of_ping(p.ip, ts))
        } else {
            prev
        }
    }
}

/// How a second neighbor observation updates an existing record: fill
/// an empty hardware address, upgrade a provisional `ping` method;
/// never touch reachability or the timestamp.
pub open spec fn merge_rec(r: RecV, e: EntryV) -> RecV {
    RecV {
        ip: r.ip,
        mac: if r.mac.len() == 0 && e.mac.len() > 0 {
            e.mac
        } else {
            r.mac
        },
        reachable: r.reachable,
        via: if r.via == Method::Ping {
            e.via
        } else {
            r.via
        },
        ts: r.ts,
    }
}

/// Merge one observation into the set.
pub open spec fn spec_merge_one(m: Seq<RecV>, e: EntryV, ts: Seq<char>) -> Seq<RecV> {
    let i = find_rec(m, e.ip) as int;
    if i == m.len() {
        m.push(rec_of_entry(e, ts))
    } else {
        m.update(i, merge_rec(m[i], e))
    }
}

/// Merging a whole second neighbor read, observation by observation.
pub open spec fn spec_merge(m: Seq<RecV>, es: Seq<EntryV>, ts: Seq<char>) -> Seq<RecV>
    decreases es.len(),
{
    if es.len() == 0 {
        m
    } else {
        spec_merge_one(spec_merge(m, es.drop_last(), ts), es.last(), ts)
    }
}

/// Setting each probed address's verdict on its final record; addresses
/// without a record are ignored.
pub open spec fn spec_apply_reach(m: Seq<RecV>, ps: Seq<ProbeV>) -> Seq<RecV>
    decreases ps.len(),
{
    if ps.len() == 0 {
        m
    } else {
        let prev = spec_apply_reach(m, ps.drop_last());
        let p = ps.last();
        let i = find_rec(prev, p.ip) as int;
        if i == prev.len() {
            prev
        } else {
            prev.update(
                i,
                RecV {
                    ip: prev[i].ip,
                    mac: prev[i].mac,
                    reachable: Some(p.ok),
                    via: prev[i].via,
                    ts: prev[i].ts,
                },
            )
        }
    }
}

/// Insert a record into a run of records sorted by address.
pub open spec fn insert_sorted(s: Seq<RecV>, r: RecV) -> Seq<RecV>
    decreases s.len(),
{
    if s.len() == 0 {
        seq![r]
    } else if lex_le(s.last().ip, r.ip) {
        s.push(r)
    } else {
        insert_sorted(s.drop_last(), r).push(s.last())
    }
}

/// The records ordered by ascending lexicographic address sort.
pub open spec fn sort_by_ip(m: Seq<RecV>) -> Seq<RecV>
    decreases m.len(),
{
    if m.len() == 0 {
        Seq::empty()
    } else {
        insert_sorted(sort_by_ip(m.drop_last()), m.last())
    }
}

/// The reachability column: `1`, `0`, or empty for unknown.
pub open spec fn reach_str(r: Option<bool>) -> Seq<char> {
    match r {
        Some(true) => "1"@,
        Some(false) => "0"@,
        None => Seq::empty(),
    }
}

/// One exported row.
pub open spec fn spec_row(r: RecV) -> Seq<char> {
    r.ip + ","@ + r.mac + ","@ + reach_str(r.reachable) + ","@ + spec_method_label(r.via) + ","@
        + r.ts + "\n"@
}

pub open spec fn spec_rows(m: Seq<RecV>) -> Seq<char>
    decreases m.len(),
{
    if m.len() == 0 {
        Seq::empty()
    } else {
        spec_rows(m.drop_last()) + spec_row(m.last())
    }
}

/// The full export: header line, then the sorted rows.
pub open spec fn spec_csv(m: Seq<RecV>) -> Seq<char> {
    "ip,mac,reachable,seen_via,timestamp\n"@ + spec_rows(sort_by_ip(m))
}

/// Insert a record into an address-sorted vector of records.
fn insert_sorted_exec(v: Vec<Rec>, r: Rec) -> (out: Vec<Rec>)
    ensures
        rec_views(out@) == insert_sorted(rec_views(v@), r@),
    decreases v@.len(),
{
    let mut v = v;
    let n = v.len();
    if n == 0 {
        proof {
            assert(rec_views(v@).len() == 0);
        }
        v.push(r);
        proof {
            assert(rec_views(v@) =~= seq![r@]);
        }
        v
    } else {
        proof {
            assert(v@[n - 1]@ == rec_views(v@)[n - 1]);
            assert(rec_views(v@).last() == v@[n - 1]@);
        }
        if str_le(v[n - 1].ip.as_str(), r.ip.as_str()) {
            let ghost pre = rec_views(v@);
            v.push(r);
            proof {
                assert(rec_views(v@) =~= pre.push(r@));
            }
            v
        } else {
            let ghost pre = rec_views(v@);
            let last = match v.pop() {
                Some(x) => x,
                None => { return v; },
            };
            proof {
                assert(rec_views(v@) =~= pre.drop_last());
                assert(last@ == pre.last());
            }
            let mut w = insert_sorted_exec(v, r);
            let ghost wpre = rec_views(w@);
            w.push(last);
            proof {
                assert(rec_views(w@) =~= wpre.push(last@));
            }
            w
        }
    }
}

/// The deduplicated record set of one run.
pub struct Inventory {
    recs: Vec<Rec>,
}

impl View for Inventory {
    type V = Seq<RecV>;

    closed spec fn view(&self) -> Seq<RecV> {
        rec_views(self.recs@)
    }
}

impl Inventory {
    pub open spec fn wf(&self) -> bool {
        records_wf(self@)
    }

    pub fn len(&self) -> (n: usize)
        ensures
            n == self@.len(),
    {
        self.recs.len()
    }

    pub fn rec_at(&self, i: usize) -> (r: &Rec)
        requires
            i < self@.len(),
        ensures
            r@ == self@[i as int],
    {
        &self.recs[i]
    }

    /// Seed the set from the first neighbor-table read.
    pub fn from_neighbors(nbrs: &Neighbors, ts: &String) -> (r: Inventory)
        requires
            nbrs.wf(),
        ensures
            r@ == spec_seed(nbrs@, ts@),
            r.wf(),
    {
        let mut recs: Vec<Rec> = Vec::new();
        let n = nbrs.len();
        let mut i: usize = 0;
        proof {
            assert(rec_views(recs@) =~= spec_seed(nbrs@, ts@).take(0));
        }
        while i < n
            invariant
                0 <= i <= n,
                n == nbrs@.len(),
                nbrs.wf(),
                rec_views(recs@) == spec_seed(nbrs@, ts@).take(i as int),
            decreases n - i,
        {
            let e = nbrs.entry_at(i);
            let rec = Rec {
                ip: e.ip.clone(),
                mac: e.mac.clone(),
                reachable: None,
                seen_via: e.via,
                timestamp: ts.clone(),
            };
            proof {
                assert(rec@ == rec_of_entry(nbrs@[i as int], ts@));
                assert(rec_views(recs@.push(rec)) =~= rec_views(recs@).push(rec@));
                assert(spec_seed(nbrs@, ts@).take(i + 1) =~= spec_seed(nbrs@, ts@).take(
                    i as int,
                ).push(spec_seed(nbrs@, ts@)[i as int]));
            }
            recs.push(rec);
            i = i + 1;
        }
        let r = Inventory { recs };
        proof {
            assert(spec_seed(nbrs@, ts@).take(n as int) =~= spec_seed(nbrs@, ts@));
            assert forall|a: int, b: int| 0 <= a < b < r@.len() implies r@[a].ip != r@[b].ip by {
                assert(r@[a].ip == nbrs@[a].ip && r@[b].ip == nbrs@[b].ip);
            }
        }
        r
    }

    /// Whether a record for `ip` exists, and its index.
    fn find_index(&self, ip: &str) -> (r: Option<usize>)
        ensures
            match r {
                Some(i) => i < self@.len() && find_rec(self@, ip@) == i,
                None => find_rec(self@, ip@) == self@.len(),
            },
    {
        let n = self.recs.len();
        let mut i: usize = 0;
        while i < n
            invariant
                0 <= i <= n,
                n == self@.len(),
                forall|k: int| 0 <= k < i ==> self@[k].ip != ip@,
            decreases n - i,
        {
            if str_eq(self.recs[i].ip.as_str(), ip) {
                proof {
                    lemma_find_rec_at(self@, ip@, i as int);
                }
                return Some(i);
            }
            i = i + 1;
        }
        proof {
            lemma_find_rec_at(self@, ip@, n as int);
        }
        None
    }

    /// Create provisional `ping` records for reachable hosts that have
    /// no record yet.
    pub fn record_probes(&mut self, probes: &ProbeLog, ts: &String)
        requires
            old(self).wf(),
        ensures
            final(self)@ == spec_record_probes(old(self)@, probes@, ts@),
            final(self).wf(),
    {
        let n = probes.len();
        let mut i: usize = 0;
        proof {
            assert(probes@.take(0) =~= Seq::<ProbeV>::empty());
        }
        while i < n
            invariant
                0 <= i <= n,
                n == probes@.len(),
                self@ == spec_record_probes(old(self)@, probes@.take(i as int), ts@),
                records_wf(self@),
            decreases n - i,
        {
            let p = probes.probe_at(i);
            proof {
                assert(probes@.take(i + 1).drop_last() =~= probes@.take(i as int));
                assert(probes@.take(i + 1).last() == probes@[i as int]);
            }
            if p.ok {
                match self.find_index(p.ip.as_str()) {
                    Some(_) => {},
                    None => {
                        proof {
                            lemma_find_rec(self@, p@.ip);
                        }
                        let rec = Rec {
                            ip: p.ip.clone(),
                            mac: String::new(),
                            reachable: None,
                            seen_via: Method::Ping,
                            timestamp: ts.clone(),
                        };
                        proof {
                            assert(rec@ == rec_of_ping(p@.ip, ts@));
                        }
                        let ghost pre = self@;
                        self.recs.push(rec);
                        proof {
                            assert(self@ =~= pre.push(rec_of_ping(p@.ip, ts@)));
                        }
                    },
                }
            }
            i = i + 1;
        }
        proof {
            assert(probes@.take(n as int) =~= probes@);
        }
    }

    /// Merge one neighbor observation into the set.
    fn merge_one(&mut self, e: &Entry, ts: &String)
        requires
            old(self).wf(),
        ensures
            final(self)@ == spec_merge_one(old(self)@, e@, ts@),
            final(self).wf(),
    {
        match self.find_index(e.ip.as_str()) {
            Some(i) => {
                let old_rec = self.recs.remove(i);
                proof {
                    lemma_find_rec(old(self)@, e@.ip);
                }
                let mac = if old_rec.mac.as_str().is_empty() && !e.mac.as_str().is_empty() {
                    e.mac.clone()
                } else {
                    old_rec.mac
                };
                let seen_via = if old_rec.seen_via == Method::Ping {
                    e.via
                } else {
                    old_rec.seen_via
                };
                let merged = Rec {
                    ip: old_rec.ip,
                    mac,
                    reachable: old_rec.reachable,
                    seen_via,
                    timestamp: old_rec.timestamp,
                };
                proof {
                    assert(merged@ == merge_rec(old(self)@[i as int], e@));
                }
                self.recs.insert(i, merged);
                proof {
                    assert(self@ =~= old(self)@.update(i as int, merge_rec(old(self)@[i as int], e@)));
                }
            },
            None => {
                let rec = Rec {
                    ip: e.ip.clone(),
                    mac: e.mac.clone(),
                    reachable: None,
                    seen_via: e.via,
                    timestamp: ts.clone(),
                };
                proof {
                    lemma_find_rec(old(self)@, e@.ip);
                    assert(rec@ == rec_of_entry(e@, ts@));
                }
                self.recs.push(rec);
                proof {
                    assert(self@ =~= old(self)@.push(rec_of_entry(e@, ts@)));
                }
            },
        }
    }

    /// Fold the second neighbor-table read into the set.
    pub fn merge_neighbors(&mut self, nbrs: &Neighbors, ts: &String)
        requires
            old(self).wf(),
        ensures
            final(self)@ == spec_merge(old(self)@, nbrs@, ts@),
            final(self).wf(),
    {
        let n = nbrs.len();
        let mut i: usize = 0;
        proof {
            assert(nbrs@.take(0) =~= Seq::<EntryV>::empty());
        }
        while i < n
            invariant
                0 <= i <= n,
                n == nbrs@.len(),
                self@ == spec_merge(old(self)@, nbrs@.take(i as int), ts@),
                records_wf(self@),
            decreases n - i,
        {
            let e = nbrs.entry_at(i);
            proof {
                assert(nbrs@.take(i + 1).drop_last() =~= nbrs@.take(i as int));
                assert(nbrs@.take(i + 1).last() == nbrs@[i as int]);
            }
            self.merge_one(e, ts);
            i = i + 1;
        }
        proof {
            assert(nbrs@.take(n as int) =~= nbrs@);
        }
    }

    /// Serialize the set: header, then one row per record, rows ordered
    /// by ascending lexicographic (string) sort of the address.
    pub fn export_csv(&self) -> (out: String)
        ensures
            out@ == spec_csv(self@),
    {
        let mut sorted: Vec<Rec> = Vec::new();
        let n = self.recs.len();
        let mut i: usize = 0;
        proof {
            assert(self@.take(0) =~= Seq::<RecV>::empty());
            assert(rec_views(sorted@) =~= Seq::<RecV>::empty());
        }
        while i < n
            invariant
                0 <= i <= n,
                n == self@.len(),
                rec_views(sorted@) == sort_by_ip(self@.take(i as int)),
            decreases n - i,
        {
            proof {
                assert(self@.take(i + 1).drop_last() =~= self@.take(i as int));
                assert(self@.take(i + 1).last() == self@[i as int]);
                assert(self.recs@[i as int]@ == self@[i as int]);
            }
            let r = self.recs[i].clone();
            sorted = insert_sorted_exec(sorted, r);
            i = i + 1;
        }
        proof {
            assert(self@.take(n as int) =~= self@);
        }
        let ghost sv = sort_by_ip(self@);
        let mut out = String::from_str("ip,mac,reachable,seen_via,timestamp\n");
        let mut k: usize = 0;
        proof {
            assert(spec_rows(sv.take(0)) =~= Seq::<char>::empty());
            assert(out@ =~= ("ip,mac,reachable,seen_via,timestamp\n")@ + spec_rows(sv.take(0)));
        }
        while k < sorted.len()
            invariant
                0 <= k <= sorted@.len(),
                rec_views(sorted@) == sv,
                out@ == ("ip,mac,reachable,seen_via,timestamp\n")@ + spec_rows(sv.take(k as int)),
            decreases sorted@.len() - k,
        {
            proof {
                assert(sorted@[k as int]@ == sv[k as int]);
            }
            out.append(sorted[k].ip.as_str());
            out.append(",");
            out.append(sorted[k].mac.as_str());
            out.append(",");
            match sorted[k].reachable {
                Some(true) => out.append("1"),
                Some(false) => out.append("0"),
                None => {},
            }
            out.append(",");
            out.append(sorted[k].seen_via.label());
            out.append(",");
            out.append(sorted[k].timestamp.as_str());
            out.append("\n");
            proof {
                assert(sv.take(k + 1).drop_last() =~= sv.take(k as int));
                assert(sv.take(k + 1).last() == sv[k as int]);
                assert(spec_rows(sv.take(k + 1)) == spec_rows(sv.take(k as int)) + spec_row(
                    sv[k as int],
                ));
                assert(out@ =~= ("ip,mac,reachable,seen_via,timestamp\n")@ + spec_rows(
                    sv.take(k + 1),
                ));
            }
            k = k + 1;
        }
        proof {
            assert(sv.take(sv.len() as int) =~= sv);
        }
        out
    }

    /// Set each probed address's verdict on its final record.
    pub fn apply_reachability(&mut self, probes: &ProbeLog)
        requires
            old(self).wf(),
        ensures
            final(self)@ == spec_apply_reach(old(self)@, probes@),
            final(self).wf(),
    {
        let n = probes.len();
        let mut i: usize = 0;
        proof {
            assert(probes@.take(0) =~= Seq::<ProbeV>::empty());
        }
        while i < n
            invariant
                0 <= i <= n,
                n == probes@.len(),
                self@ == spec_apply_reach(old(self)@, probes@.take(i as int)),
                records_wf(self@),
            decreases n - i,
        {
            let p = probes.probe_at(i);
            proof {
                assert(probes@.take(i + 1).drop_last() =~= probes@.take(i as int));
                assert(probes@.take(i + 1).last() == probes@[i as int]);
            }
            match self.find_index(p.ip.as_str()) {
                Some(j) => {
                    let ghost pre = self@;
                    let mut rec = self.recs.remove(j);
                    rec.reachable = Some(p.ok);
                    self.recs.insert(j, rec);
                    proof {
                        assert(self@ =~= pre.update(
                            j as int,
                            RecV {
                                ip: pre[j as int].ip,
                                mac: pre[j as int].mac,
                                reachable: Some(p@.ok),
                                via: pre[j as int].via,
                                ts: pre[j as int].ts,
                            },
                        ));
                    }
                },
                None => {},
            }
            i = i + 1;
        }
        proof {
            assert(probes@.take(n as int) =~= probes@);
        }
    }
}

} // verus!
