//! Parsing the text printed by the OS neighbor-table and ARP commands
//! into deduplicated (address, hardware address, method) observations.

use vstd::prelude::*;
use vstd::string::StrSliceExecFns;
use crate::text::{
    is_blank, str_is_blank, str_eq, to_lower, lower_seq, tokens, tokens_of, split_on, split_char,
    str_views, find_char, lemma_find_char, lemma_find_char_at, lemma_split_on_props,
};

verus! {

/// How an observation was established.
#[derive(Clone, Copy, Debug, PartialEq, Eq, Structural)]
pub enum Method {
    /// Read from the primary neighbor-table command.
    NeighborTable,
    /// Read from the legacy ARP display command.
    ArpFallback,
    /// Created because an address answered an echo probe.
    Ping,
}

/// The short tag each method carries in exported rows.
pub open spec fn spec_method_label(m: Method) -> Seq<char> {
    match m {
        Method::NeighborTable => "neigh"@,
        Method::ArpFallback => "arp"@,
        Method::Ping => "ping"@,
    }
}

impl Method {
    /// The short tag used in exported rows.
    pub fn label(&self) -> (r: &'static str)
        ensures
            r@ == spec_method_label(*self),
    {
        match self {
            Method::NeighborTable => "neigh",
            Method::ArpFallback => "arp",
            Method::Ping => "ping",
        }
    }
}

/// One neighbor observation: an address, the hardware address reported
/// for it (possibly empty), and the source that reported it.
pub struct Entry {
    pub ip: String,
    pub mac: String,
    pub via: Method,
}

/// The mathematical value of an [`Entry`].
pub struct EntryV {
    pub ip: Seq<char>,
    pub mac: Seq<char>,
    pub via: Method,
}

impl View for Entry {
    type V = EntryV;

    open spec fn view(&self) -> EntryV {
        EntryV { ip: self.ip@, mac: self.mac@, via: self.via }
    }
}

pub open spec fn entry_views(v: Seq<Entry>) -> Seq<EntryV> {
    v.map_values(|e: Entry| e@)
}

/// No two observations share an address.
pub open spec fn entries_wf(es: Seq<EntryV>) -> bool {
    forall|i: int, j: int| 0 <= i < j < es.len() ==> es[i].ip != es[j].ip
}

/// First index whose entry holds `ip`, or `es.len()` when absent.
pub open spec fn find_entry(es: Seq<EntryV>, ip: Seq<char>) -> nat
    decreases es.len(),
{
    if es.len() == 0 {
        0
    } else if es[0].ip == ip {
        0
    } else {
        1 + find_entry(es.drop_first(), ip)
    }
}

pub proof fn lemma_find_entry(es: Seq<EntryV>, ip: Seq<char>)
    ensures
        find_entry(es, ip) <= es.len(),
        forall|k: int| 0 <= k < find_entry(es, ip) ==> es[k].ip != ip,
        find_entry(es, ip) < es.len() ==> es[find_entry(es, ip) as int].ip == ip,
    decreases es.len(),
{
    if es.len() > 0 && es[0].ip != ip {
        lemma_find_entry(es.drop_first(), ip);
        assert forall|k: int| 0 <= k < find_entry(es, ip) implies es[k].ip != ip by {
            if k > 0 {
                assert(es.drop_first()[k - 1].ip != ip);
            }
        }
    }
}

pub proof fn lemma_find_entry_at(es: Seq<EntryV>, ip: Seq<char>, j: int)
    requires
        0 <= j <= es.len(),
        forall|k: int| 0 <= k < j ==> es[k].ip != ip,
        j < es.len() ==> es[j].ip == ip,
        j == es.len() ==> forall|k: int| 0 <= k < es.len() ==> es[k].ip != ip,
    ensures
        find_entry(es, ip) == j,
{
    lemma_find_entry(es, ip);
    let f = find_entry(es, ip) as int;
    if f < j {
        assert(es[f].ip != ip);
    }
    if f > j {
        assert(es[j].ip != ip);
    }
}

/// Record an observation: replace the entry with the same address, or
/// append when the address is new.
pub open spec fn upsert(es: Seq<EntryV>, e: EntryV) -> Seq<EntryV> {
    let i = find_entry(es, e.ip) as int;
    if i == es.len() {
        es.push(e)
    } else {
        es.update(i, e)
    }
}

pub proof fn lemma_upsert_wf(es: Seq<EntryV>, e: EntryV)
    requires
        entries_wf(es),
    ensures
        entries_wf(upsert(es, e)),
{
    lemma_find_entry(es, e.ip);
}

/// `lines` of a command's output: split on newlines, drop a final empty
/// segment, and strip one trailing carriage return from each line.
pub open spec fn strip_cr(l: Seq<char>) -> Seq<char> {
    if l.len() > 0 && l.last() == '\r' {
        l.drop_last()
    } else {
        l
    }
}

pub open spec fn spec_lines(s: Seq<char>) -> Seq<Seq<char>> {
    let raw = split_on(s, '\n');
    let trimmed = if raw.last().len() == 0 {
        raw.drop_last()
    } else {
        raw
    };
    trimmed.map_values(|l: Seq<char>| strip_cr(l))
}

/// Split text into its lines.
pub fn lines_of(s: &str) -> (r: Vec<String>)
    ensures
        str_views(r@) == spec_lines(s@),
{
    let mut raw = split_char(s, '\n');
    proof {
        assert(str_views(raw@).len() == raw@.len());
        assert(split_on(s@, '\n').len() >= 1) by {
            lemma_split_on_props(s@, '\n');
        }
        assert(raw@.last()@ == split_on(s@, '\n').last());
    }
    let last_idx = raw.len() - 1;
    if raw[last_idx].as_str().unicode_len() == 0 {
        let _ = raw.pop();
        proof {
            assert(str_views(raw@) =~= split_on(s@, '\n').drop_last());
        }
    }
    let ghost trimmed: Seq<Seq<char>> = str_views(raw@);
    let mut out: Vec<String> = Vec::new();
    let mut i: usize = 0;
    proof {
        assert(str_views(out@) =~= trimmed.map_values(|l: Seq<char>| strip_cr(l)).take(0));
    }
    while i < raw.len()
        invariant
            0 <= i <= raw.len(),
            trimmed == str_views(raw@),
            str_views(out@) == trimmed.map_values(|l: Seq<char>| strip_cr(l)).take(i as int),
        decreases raw.len() - i,
    {
        let n = raw[i].as_str().unicode_len();
        proof {
            assert(raw@[i as int]@ == trimmed[i as int]);
        }
        if n > 0 && raw[i].as_str().get_char(n - 1) == '\r' {
            let stripped = raw[i].as_str().substring_char(0, n - 1).to_owned();
            proof {
                assert(stripped@ =~= strip_cr(trimmed[i as int]));
                assert(str_views(out@.push(stripped)) =~= str_views(out@).push(stripped@));
                assert(trimmed.map_values(|l: Seq<char>| strip_cr(l)).take(i + 1) =~= trimmed
                    .map_values(|l: Seq<char>| strip_cr(l)).take(i as int).push(
                    strip_cr(trimmed[i as int]),
                ));
            }
            out.push(stripped);
        } else {
            let kept = raw[i].clone();
            proof {
                assert(kept@ == strip_cr(trimmed[i as int]));
                assert(str_views(out@.push(kept)) =~= str_views(out@).push(kept@));
                assert(trimmed.map_values(|l: Seq<char>| strip_cr(l)).take(i + 1) =~= trimmed
                    .map_values(|l: Seq<char>| strip_cr(l)).take(i as int).push(
                    strip_cr(trimmed[i as int]),
                ));
            }
            out.push(kept);
        }
        i = i + 1;
    }
    proof {
        assert(trimmed.map_values(|l: Seq<char>| strip_cr(l)).take(raw@.len() as int) =~= trimmed
            .map_values(|l: Seq<char>| strip_cr(l)));
        if split_on(s@, '\n').last().len() == 0 {
            assert(spec_lines(s@) == trimmed.map_values(|l: Seq<char>| strip_cr(l)));
        } else {
            assert(trimmed == split_on(s@, '\n'));
            assert(spec_lines(s@) == trimmed.map_values(|l: Seq<char>| strip_cr(l)));
        }
    }
    out
}

/// The hardware-address token of a neighbor-table line: the token after
/// the last `lladdr` marker that has one, or nothing.
pub open spec fn lladdr_tok(ts: Seq<Seq<char>>) -> Seq<char>
    decreases ts.len(),
{
    if ts.len() < 2 {
        Seq::empty()
    } else if ts[ts.len() - 2] == "lladdr"@ {
        ts[ts.len() - 1]
    } else {
        lladdr_tok(ts.drop_last())
    }
}

/// What one line of the primary command yields: lines with fewer than
/// two tokens are skipped; the first token is the address.
pub open spec fn spec_neigh_line(l: Seq<char>) -> Option<EntryV> {
    let ts = tokens(l);
    if ts.len() < 2 {
        None
    } else {
        Some(EntryV { ip: ts[0], mac: lower_seq(lladdr_tok(ts)), via: Method::NeighborTable })
    }
}

/// Parse one line of the primary neighbor-table command.
pub fn parse_neigh_line(l: &str) -> (r: Option<Entry>)
    ensures
        (r is Some) == (spec_neigh_line(l@) is Some),
        r is Some ==> r->Some_0@ == spec_neigh_line(l@)->Some_0,
{
    let toks = tokens_of(l);
    let ghost tv = tokens(l@);
    proof {
        assert(str_views(toks@).len() == toks@.len());
    }
    if toks.len() < 2 {
        return None;
    }
    proof {
        assert(toks@[0]@ == tv[0]);
    }
    let ip = toks[0].clone();
    let mut mac_src = String::new();
    let mut i: usize = 1;
    proof {
        assert(lladdr_tok(tv.take(1)) =~= Seq::<char>::empty());
        assert(mac_src@ =~= lladdr_tok(tv.take(1)));
    }
    while i < toks.len()
        invariant
            1 <= i <= toks@.len(),
            str_views(toks@) == tv,
            tv.len() >= 2,
            mac_src@ == lladdr_tok(tv.take(i as int)),
        decreases toks@.len() - i,
    {
        proof {
            assert(toks@[i - 1]@ == tv[i - 1] && toks@[i as int]@ == tv[i as int]);
        }
        if str_eq(toks[i - 1].as_str(), "lladdr") {
            mac_src = toks[i].clone();
        }
        proof {
            let t = tv.take(i + 1);
            assert(t.len() == i + 1 >= 2);
            assert(t[t.len() - 2] == tv[i - 1] && t[t.len() - 1] == tv[i as int]);
            assert(t.drop_last() =~= tv.take(i as int));
        }
        i = i + 1;
    }
    proof {
        assert(tv.take(tv.len() as int) =~= tv);
    }
    let mac = to_lower(mac_src.as_str());
    Some(Entry { ip, mac, via: Method::NeighborTable })
}

/// The literal ` at ` separator starts at position `i`.
pub open spec fn at_sep_at(s: Seq<char>, i: int) -> bool {
    s[i] == ' ' && s[i + 1] == 'a' && s[i + 2] == 't' && s[i + 3] == ' '
}

/// First position of the ` at ` separator, or `s.len()` when absent.
pub open spec fn find_at(s: Seq<char>) -> nat
    decreases s.len(),
{
    if s.len() < 4 {
        s.len()
    } else if at_sep_at(s, 0) {
        0
    } else {
        1 + find_at(s.drop_first())
    }
}

pub proof fn lemma_find_at(s: Seq<char>)
    ensures
        find_at(s) <= s.len(),
        forall|k: int| 0 <= k < find_at(s) ==> !(k + 4 <= s.len() && at_sep_at(s, k)),
        find_at(s) < s.len() ==> find_at(s) + 4 <= s.len() && at_sep_at(s, find_at(s) as int),
    decreases s.len(),
{
    if s.len() >= 4 && !at_sep_at(s, 0) {
        lemma_find_at(s.drop_first());
        assert forall|k: int| 0 <= k < find_at(s) implies !(k + 4 <= s.len() && at_sep_at(
            s,
            k,
        )) by {
            if k > 0 {
                assert(!(k - 1 + 4 <= s.drop_first().len() && at_sep_at(s.drop_first(), k - 1)));
            }
        }
    }
}

pub proof fn lemma_find_at_at(s: Seq<char>, j: int)
    requires
        0 <= j <= s.len(),
        forall|k: int| 0 <= k < j ==> !(k + 4 <= s.len() && at_sep_at(s, k)),
        j < s.len() ==> j + 4 <= s.len() && at_sep_at(s, j),
        j == s.len() ==> forall|k: int|
            0 <= k < s.len() ==> !(k + 4 <= s.len() && at_sep_at(s, k)),
    ensures
        find_at(s) == j,
{
    lemma_find_at(s);
    let f = find_at(s) as int;
    if f < j {
        assert(!(f + 4 <= s.len() && at_sep_at(s, f)));
    }
    if f > j {
        assert(!(j + 4 <= s.len() && at_sep_at(s, j)));
    }
}

/// Find the first occurrence of a character in a string.
pub fn find_char_str(s: &str, c: char) -> (j: usize)
    ensures
        j == find_char(s@, c),
{
    let n = s.unicode_len();
    let mut i: usize = 0;
    while i < n
        invariant
            0 <= i <= n,
            n == s@.len(),
            forall|k: int| 0 <= k < i ==> s@[k] != c,
        decreases n - i,
    {
        if s.get_char(i) == c {
            proof {
                lemma_find_char_at(s@, c, i as int);
            }
            return i;
        }
        i = i + 1;
    }
    proof {
        lemma_find_char_at(s@, c, n as int);
    }
    n
}

/// Find the first ` at ` separator in a string.
fn find_at_str(l: &str) -> (j: usize)
    ensures
        j == find_at(l@),
{
    let n = l.unicode_len();
    if n < 4 {
        proof {
            lemma_find_at_at(l@, n as int);
        }
        return n;
    }
    let mut i: usize = 0;
    while i <= n - 4
        invariant
            0 <= i,
            i <= n,
            4 <= n,
            n == l@.len(),
            forall|k: int| 0 <= k < i ==> !(k + 4 <= l@.len() && at_sep_at(l@, k)),
        decreases n - i,
    {
        if l.get_char(i) == ' ' && l.get_char(i + 1) == 'a' && l.get_char(i + 2) == 't'
            && l.get_char(i + 3) == ' ' {
            proof {
                lemma_find_at_at(l@, i as int);
            }
            return i;
        }
        i = i + 1;
    }
    proof {
        assert forall|k: int| 0 <= k < n implies !(k + 4 <= l@.len() && at_sep_at(l@, k)) by {
            if k < i {
            } else {
                assert(k + 4 > n);
            }
        }
        lemma_find_at_at(l@, n as int);
    }
    n
}

/// What one line of the ARP fallback yields: the address between the
/// first parentheses and the token after the ` at ` separator; lines
/// not of that shape are skipped.
pub open spec fn spec_arp_line(l: Seq<char>) -> Option<EntryV> {
    let i1 = find_char(l, '(') as int;
    let i2 = find_char(l, ')') as int;
    let i3 = find_at(l) as int;
    if i1 < l.len() && i2 < l.len() && i3 < l.len() && i1 + 1 <= i2 {
        let ip = l.subrange(i1 + 1, i2);
        let fields = tokens(l.skip(i3 + 4));
        let mac = if fields.len() > 0 {
            lower_seq(fields[0])
        } else {
            Seq::empty()
        };
        Some(EntryV { ip, mac, via: Method::ArpFallback })
    } else {
        None
    }
}

/// Parse one line of the ARP fallback command.
pub fn parse_arp_line(l: &str) -> (r: Option<Entry>)
    ensures
        (r is Some) == (spec_arp_line(l@) is Some),
        r is Some ==> r->Some_0@ == spec_arp_line(l@)->Some_0,
{
    let n = l.unicode_len();
    let i1 = find_char_str(l, '(');
    let i2 = find_char_str(l, ')');
    let i3 = find_at_str(l);
    proof {
        lemma_find_char(l@, '(');
        lemma_find_char(l@, ')');
        lemma_find_at(l@);
    }
    if i1 < n && i2 < n && i3 < n && i1 + 1 <= i2 {
        let ip = l.substring_char(i1 + 1, i2).to_owned();
        let rest = l.substring_char(i3 + 4, n);
        proof {
            assert(rest@ =~= l@.skip(i3 + 4));
        }
        let fields = tokens_of(rest);
        proof {
            assert(str_views(fields@).len() == fields@.len());
            if fields@.len() > 0 {
                assert(fields@[0]@ == tokens(l@.skip(i3 + 4))[0]);
            }
        }
        let mac = if fields.len() > 0 {
            to_lower(fields[0].as_str())
        } else {
            String::new()
        };
        proof {
            if tokens(l@.skip(i3 + 4)).len() == 0 {
                assert(mac@ =~= Seq::<char>::empty());
            }
        }
        Some(Entry { ip, mac, via: Method::ArpFallback })
    } else {
        None
    }
}

/// Fold the primary command's lines into observations.
pub open spec fn fold_neigh(ls: Seq<Seq<char>>) -> Seq<EntryV>
    decreases ls.len(),
{
    if ls.len() == 0 {
        Seq::empty()
    } else {
        let prev = fold_neigh(ls.drop_last());
        match spec_neigh_line(ls.last()) {
            Some(e) => upsert(prev, e),
            None => prev,
        }
    }
}

/// Fold the fallback command's lines into observations.
pub open spec fn fold_arp(ls: Seq<Seq<char>>) -> Seq<EntryV>
    decreases ls.len(),
{
    if ls.len() == 0 {
        Seq::empty()
    } else {
        let prev = fold_arp(ls.drop_last());
        match spec_arp_line(ls.last()) {
            Some(e) => upsert(prev, e),
            None => prev,
        }
    }
}

/// What reading the neighbor cache yields: the primary command's lines
/// when its output is not blank, else the fallback's lines.
pub open spec fn spec_parse_neighbors(neigh: Seq<char>, arp: Seq<char>) -> Seq<EntryV> {
    if !is_blank(neigh) {
        fold_neigh(spec_lines(neigh))
    } else {
        fold_arp(spec_lines(arp))
    }
}

/// A deduplicated set of neighbor observations, keyed by address.
pub struct Neighbors {
    entries: Vec<Entry>,
}

impl View for Neighbors {
    type V = Seq<EntryV>;

    closed spec fn view(&self) -> Seq<EntryV> {
        entry_views(self.entries@)
    }
}

impl Neighbors {
    /// No two observations share an address.
    pub open spec fn wf(&self) -> bool {
        entries_wf(self@)
    }

    pub fn new() -> (r: Self)
        ensures
            r@ == Seq::<EntryV>::empty(),
            r.wf(),
    {
        let r = Neighbors { entries: Vec::new() };
        proof {
            assert(r@ =~= Seq::<EntryV>::empty());
        }
        r
    }

    pub fn len(&self) -> (n: usize)
        ensures
            n == self@.len(),
    {
        self.entries.len()
    }

    pub fn entry_at(&self, i: usize) -> (e: &Entry)
        requires
            i < self@.len(),
        ensures
            e@ == self@[i as int],
    {
        &self.entries[i]
    }

    /// Record one observation, replacing any entry with the same address.
    pub fn add(&mut self, e: Entry)
        requires
            old(self).wf(),
        ensures
            final(self)@ == upsert(old(self)@, e@),
            final(self).wf(),
    {
        let n = self.entries.len();
        let mut i: usize = 0;
        while i < n
            invariant
                0 <= i <= n,
                n == self@.len(),
                self@ == old(self)@,
                entries_wf(self@),
                forall|k: int| 0 <= k < i ==> self@[k].ip != e@.ip,
            decreases n - i,
        {
            if str_eq(self.entries[i].ip.as_str(), e.ip.as_str()) {
                proof {
                    assert(entries_wf(self@));
                    lemma_find_entry_at(self@, e@.ip, i as int);
                    lemma_upsert_wf(self@, e@);
                }
                self.entries.remove(i);
                self.entries.insert(i, e);
                proof {
                    assert(entry_views(old(self).entries@.remove(i as int).insert(i as int, e))
                        =~= old(self)@.update(i as int, e@));
                }
                return ;
            }
            i = i + 1;
        }
        proof {
            assert(entries_wf(self@));
            lemma_find_entry_at(self@, e@.ip, n as int);
            lemma_upsert_wf(self@, e@);
        }
        self.entries.push(e);
        proof {
            assert(entry_views(old(self).entries@.push(e)) =~= old(self)@.push(e@));
        }
    }
}

/// Parse the neighbor cache from the two commands' captured output,
/// falling back to the ARP text only when the primary text is blank.
pub fn parse_neighbors(neigh: &str, arp: &str) -> (r: Neighbors)
    ensures
        r@ == spec_parse_neighbors(neigh@, arp@),
        r.wf(),
{
    let mut nb = Neighbors::new();
    if !str_is_blank(neigh) {
        let ls = lines_of(neigh);
        let ghost lv = spec_lines(neigh@);
        proof {
            assert(str_views(ls@).len() == ls@.len());
            assert(nb@ =~= fold_neigh(lv.take(0)));
        }
        let mut i: usize = 0;
        while i < ls.len()
            invariant
                0 <= i <= ls@.len(),
                str_views(ls@) == lv,
                nb@ == fold_neigh(lv.take(i as int)),
                nb.wf(),
            decreases ls@.len() - i,
        {
            proof {
                assert(ls@[i as int]@ == lv[i as int]);
                assert(lv.take(i + 1).drop_last() =~= lv.take(i as int));
                assert(lv.take(i + 1).last() == lv[i as int]);
            }
            match parse_neigh_line(ls[i].as_str()) {
                Some(e) => {
                    nb.add(e);
                },
                None => {},
            }
            i = i + 1;
        }
        proof {
            assert(lv.take(lv.len() as int) =~= lv);
        }
    } else {
        let ls = lines_of(arp);
        let ghost lv = spec_lines(arp@);
        proof {
            assert(str_views(ls@).len() == ls@.len());
            assert(nb@ =~= fold_arp(lv.take(0)));
        }
        let mut i: usize = 0;
        while i < ls.len()
            invariant
                0 <= i <= ls@.len(),
                str_views(ls@) == lv,
                nb@ == fold_arp(lv.take(i as int)),
                nb.wf(),
            decreases ls@.len() - i,
        {
            proof {
                assert(ls@[i as int]@ == lv[i as int]);
                assert(lv.take(i + 1).drop_last() =~= lv.take(i as int));
                assert(lv.take(i + 1).last() == lv[i as int]);
            }
            match parse_arp_line(ls[i].as_str()) {
                Some(e) => {
                    nb.add(e);
                },
                None => {},
            }
            i = i + 1;
        }
        proof {
            assert(lv.take(lv.len() as int) =~= lv);
        }
    }
    nb
}

} // verus!
