//! Character predicates and small string utilities shared by the parsers.

use vstd::prelude::*;
use vstd::string::StrSliceExecFns;

verus! {

/// ASCII whitespace, the characters the tool-output parsers treat as
/// token separators.
pub open spec fn is_space_char(c: char) -> bool {
    c == ' ' || c == '\t' || c == '\n' || c == '\r' || c == '\u{b}' || c == '\u{c}'
}

pub open spec fn is_digit_char(c: char) -> bool {
    '0' <= c && c <= '9'
}

pub open spec fn digit_val(c: char) -> nat {
    (c as int - '0' as int) as nat
}

/// Lowercase for ASCII letters; all other characters are unchanged.
pub open spec fn lower_char(c: char) -> char {
    if 'A' <= c && c <= 'Z' {
        ((c as u32) + 32) as char
    } else {
        c
    }
}

pub open spec fn lower_seq(s: Seq<char>) -> Seq<char> {
    s.map_values(|c: char| lower_char(c))
}

/// Every character is whitespace (what trimming to emptiness means).
pub open spec fn is_blank(s: Seq<char>) -> bool {
    forall|i: int| 0 <= i < s.len() ==> is_space_char(s[i])
}

fn is_space(c: char) -> (b: bool)
    ensures
        b == is_space_char(c),
{
    c == ' ' || c == '\t' || c == '\n' || c == '\r' || c == '\u{b}' || c == '\u{c}'
}

/// Whether the string is empty or entirely whitespace.
pub fn str_is_blank(s: &str) -> (b: bool)
    ensures
        b == is_blank(s@),
{
    let n = s.unicode_len();
    let mut i: usize = 0;
    while i < n
        invariant
            0 <= i <= n,
            n == s@.len(),
            forall|k: int| 0 <= k < i ==> is_space_char(s@[k]),
        decreases n - i,
    {
        if !is_space(s.get_char(i)) {
            return false;
        }
        i = i + 1;
    }
    true
}

/// Index of the first occurrence of `c` in `s`, or `s.len()` when absent.
pub open spec fn find_char(s: Seq<char>, c: char) -> nat
    decreases s.len(),
{
    if s.len() == 0 {
        0
    } else if s[0] == c {
        0
    } else {
        1 + find_char(s.drop_first(), c)
    }
}

pub proof fn lemma_find_char(s: Seq<char>, c: char)
    ensures
        find_char(s, c) <= s.len(),
        forall|k: int| 0 <= k < find_char(s, c) ==> s[k] != c,
        find_char(s, c) < s.len() ==> s[find_char(s, c) as int] == c,
    decreases s.len(),
{
    if s.len() > 0 && s[0] != c {
        lemma_find_char(s.drop_first(), c);
        assert forall|k: int| 0 <= k < find_char(s, c) implies s[k] != c by {
            if k > 0 {
                assert(s.drop_first()[k - 1] != c);
            }
        }
    }
}

/// The first index at which a character satisfying the given decision
/// would be found is pinned by pointwise facts.
pub proof fn lemma_find_char_at(s: Seq<char>, c: char, j: int)
    requires
        0 <= j <= s.len(),
        forall|k: int| 0 <= k < j ==> s[k] != c,
        j < s.len() ==> s[j] == c,
        j == s.len() ==> forall|k: int| 0 <= k < s.len() ==> s[k] != c,
    ensures
        find_char(s, c) == j,
{
    lemma_find_char(s, c);
    let f = find_char(s, c) as int;
    if f < j {
        assert(s[f] != c);
    }
    if f > j {
        assert(s[j] != c);
    }
}

/// The segments of `s` between occurrences of `c`, in order; mirrors how
/// `split` on a single character behaves, including empty segments.
pub open spec fn split_on(s: Seq<char>, c: char) -> Seq<Seq<char>>
    decreases s.len() via split_on_dec
{
    let i = find_char(s, c) as int;
    if i == s.len() {
        seq![s]
    } else {
        seq![s.take(i)] + split_on(s.skip(i + 1), c)
    }
}

#[via_fn]
proof fn split_on_dec(s: Seq<char>, c: char) {
    lemma_find_char(s, c);
}

/// The segments rejoined with `c` give back the original sequence, no
/// segment contains `c`, and there is always at least one segment.
pub open spec fn join_with(parts: Seq<Seq<char>>, c: char) -> Seq<char>
    decreases parts.len(),
{
    if parts.len() == 0 {
        Seq::empty()
    } else if parts.len() == 1 {
        parts[0]
    } else {
        parts[0] + seq![c] + join_with(parts.drop_first(), c)
    }
}

pub proof fn lemma_split_on_props(s: Seq<char>, c: char)
    ensures
        split_on(s, c).len() >= 1,
        forall|i: int, k: int|
            0 <= i < split_on(s, c).len() && 0 <= k < split_on(s, c)[i].len() ==> split_on(
                s,
                c,
            )[i][k] != c,
        join_with(split_on(s, c), c) == s,
    decreases s.len(),
{
    lemma_find_char(s, c);
    let f = find_char(s, c) as int;
    if f == s.len() {
        assert(split_on(s, c) == seq![s]);
    } else {
        let rest = s.skip(f + 1);
        lemma_split_on_props(rest, c);
        let ps = split_on(s, c);
        assert(ps == seq![s.take(f)] + split_on(rest, c));
        assert forall|i: int, k: int|
            0 <= i < ps.len() && 0 <= k < ps[i].len() implies ps[i][k] != c by {
            if i > 0 {
                assert(ps[i] == split_on(rest, c)[i - 1]);
            }
        }
        assert(ps.drop_first() =~= split_on(rest, c));
        assert(ps.len() >= 2);
        assert(join_with(ps, c) == ps[0] + seq![c] + join_with(ps.drop_first(), c));
        assert(ps[0] == s.take(f));
        assert(join_with(ps, c) =~= s);
    }
}

/// Splitting a sequence that is a dot-free part, the separator, and a
/// remainder peels off exactly that first part.
pub proof fn lemma_split_on_prepend(a: Seq<char>, rest: Seq<char>, c: char)
    requires
        forall|k: int| 0 <= k < a.len() ==> a[k] != c,
    ensures
        split_on(a + seq![c] + rest, c) == seq![a] + split_on(rest, c),
{
    let s = a + seq![c] + rest;
    assert(s[a.len() as int] == c);
    lemma_find_char_at(s, c, a.len() as int);
    assert(s.take(a.len() as int) =~= a);
    assert(s.skip(a.len() as int + 1) =~= rest);
    assert(split_on(s, c) == seq![s.take(a.len() as int)] + split_on(s.skip(a.len() as int + 1), c));
}

/// When the separator does not occur, the whole sequence is the only part.
pub proof fn lemma_split_on_absent(s: Seq<char>, c: char)
    requires
        forall|k: int| 0 <= k < s.len() ==> s[k] != c,
    ensures
        split_on(s, c) == seq![s],
{
    lemma_find_char_at(s, c, s.len() as int);
}

/// The views of a vector of owned strings.
pub open spec fn str_views(v: Seq<String>) -> Seq<Seq<char>> {
    v.map_values(|x: String| x@)
}

/// Split a string on every occurrence of one character.
pub fn split_char(s: &str, c: char) -> (parts: Vec<String>)
    ensures
        str_views(parts@) == split_on(s@, c),
{
    let n = s.unicode_len();
    let mut parts: Vec<String> = Vec::new();
    let mut start: usize = 0;
    let mut i: usize = 0;
    proof {
        assert(str_views(parts@) =~= Seq::<Seq<char>>::empty());
        assert(s@.skip(0) =~= s@);
        assert(str_views(parts@) + split_on(s@, c) =~= split_on(s@, c));
    }
    while i < n
        invariant
            0 <= start <= i <= n,
            n == s@.len(),
            forall|k: int| start <= k < i ==> s@[k] != c,
            split_on(s@, c) == str_views(parts@) + split_on(s@.skip(start as int), c),
        decreases n - i,
    {
        if s.get_char(i) == c {
            let part = s.substring_char(start, i).to_owned();
            proof {
                let t = s@.skip(start as int);
                let a = s@.subrange(start as int, i as int);
                assert(t =~= a + seq![c] + s@.skip(i + 1));
                lemma_split_on_prepend(a, s@.skip(i + 1), c);
                assert(str_views(parts@.push(part)) =~= str_views(parts@) + seq![a]);
                assert(str_views(parts@) + (seq![a] + split_on(s@.skip(i + 1), c))
                    =~= (str_views(parts@) + seq![a]) + split_on(s@.skip(i + 1), c));
            }
            parts.push(part);
            start = i + 1;
        }
        i = i + 1;
    }
    let last = s.substring_char(start, n).to_owned();
    proof {
        let t = s@.skip(start as int);
        assert(t =~= s@.subrange(start as int, n as int));
        lemma_split_on_absent(t, c);
        assert(str_views(parts@.push(last)) =~= str_views(parts@) + seq![t]);
    }
    parts.push(last);
    parts
}

/// Index of the first whitespace character, or `s.len()` when absent.
pub open spec fn find_space(s: Seq<char>) -> nat
    decreases s.len(),
{
    if s.len() == 0 {
        0
    } else if is_space_char(s[0]) {
        0
    } else {
        1 + find_space(s.drop_first())
    }
}

pub proof fn lemma_find_space(s: Seq<char>)
    ensures
        find_space(s) <= s.len(),
        forall|k: int| 0 <= k < find_space(s) ==> !is_space_char(s[k]),
        find_space(s) < s.len() ==> is_space_char(s[find_space(s) as int]),
    decreases s.len(),
{
    if s.len() > 0 && !is_space_char(s[0]) {
        lemma_find_space(s.drop_first());
        assert forall|k: int| 0 <= k < find_space(s) implies !is_space_char(s[k]) by {
            if k > 0 {
                assert(!is_space_char(s.drop_first()[k - 1]));
            }
        }
    }
}

pub proof fn lemma_find_space_at(s: Seq<char>, j: int)
    requires
        0 <= j <= s.len(),
        forall|k: int| 0 <= k < j ==> !is_space_char(s[k]),
        j < s.len() ==> is_space_char(s[j]),
        j == s.len() ==> forall|k: int| 0 <= k < s.len() ==> !is_space_char(s[k]),
    ensures
        find_space(s) == j,
{
    lemma_find_space(s);
    let f = find_space(s) as int;
    if f < j {
        assert(!is_space_char(s[f]));
    }
    if f > j {
        assert(!is_space_char(s[j]));
    }
}

/// The maximal whitespace-free runs of `s`, in order: what splitting on
/// whitespace yields, with empty runs dropped.
pub open spec fn tokens(s: Seq<char>) -> Seq<Seq<char>>
    decreases s.len() via tokens_dec
{
    if s.len() == 0 {
        Seq::empty()
    } else if is_space_char(s[0]) {
        tokens(s.drop_first())
    } else {
        let j = find_space(s) as int;
        seq![s.take(j)] + tokens(s.skip(j))
    }
}

#[via_fn]
proof fn tokens_dec(s: Seq<char>) {
    lemma_find_space(s);
}

/// Advance from a non-space position to the next whitespace character
/// (or the end of the string).
fn scan_token(s: &str, start: usize, n: usize) -> (j: usize)
    requires
        n == s@.len(),
        start < n,
        !is_space_char(s@[start as int]),
    ensures
        start < j <= n,
        forall|k: int| start <= k < j ==> !is_space_char(s@[k]),
        j < n ==> is_space_char(s@[j as int]),
{
    let mut j = start + 1;
    loop
        invariant
            start < j <= n,
            n == s@.len(),
            forall|k: int| start <= k < j ==> !is_space_char(s@[k]),
        decreases n - j,
    {
        if j >= n {
            return j;
        }
        if is_space(s.get_char(j)) {
            return j;
        }
        j = j + 1;
    }
}

/// Split a string into its whitespace-separated tokens.
pub fn tokens_of(s: &str) -> (toks: Vec<String>)
    ensures
        str_views(toks@) == tokens(s@),
{
    let n = s.unicode_len();
    let mut toks: Vec<String> = Vec::new();
    let mut i: usize = 0;
    proof {
        assert(str_views(toks@) =~= Seq::<Seq<char>>::empty());
        assert(s@.skip(0) =~= s@);
        assert(str_views(toks@) + tokens(s@) =~= tokens(s@));
    }
    while i < n
        invariant
            0 <= i <= n,
            n == s@.len(),
            tokens(s@) == str_views(toks@) + tokens(s@.skip(i as int)),
        decreases n - i,
    {
        if is_space(s.get_char(i)) {
            proof {
                assert(s@.skip(i as int).drop_first() =~= s@.skip(i + 1));
            }
            i = i + 1;
        } else {
            let start = i;
            let j = scan_token(s, start, n);
            let tok = s.substring_char(start, j).to_owned();
            proof {
                let t = s@.skip(start as int);
                lemma_find_space_at(t, j - start);
                assert(t.take(j - start) =~= s@.subrange(start as int, j as int));
                assert(t.skip(j - start) =~= s@.skip(j as int));
                assert(tokens(t) == seq![tok@] + tokens(s@.skip(j as int)));
                assert(str_views(toks@.push(tok)) =~= str_views(toks@) + seq![tok@]);
                assert(str_views(toks@) + (seq![tok@] + tokens(s@.skip(j as int))) =~= (str_views(
                    toks@,
                ) + seq![tok@]) + tokens(s@.skip(j as int)));
            }
            toks.push(tok);
            i = j;
        }
    }
    proof {
        assert(s@.skip(n as int) =~= Seq::<char>::empty());
        assert(str_views(toks@) + tokens(s@.skip(n as int)) =~= str_views(toks@));
    }
    toks
}

/// One lowered ASCII letter as a string slice.
fn lower_letter_str(c: char) -> (r: &'static str)
    requires
        'A' <= c && c <= 'Z',
    ensures
        r@ =~= seq![lower_char(c)],
{
    match c {
        'A' => { proof { reveal_strlit("a"); } "a" },
        'B' => { proof { reveal_strlit("b"); } "b" },
        'C' => { proof { reveal_strlit("c"); } "c" },
        'D' => { proof { reveal_strlit("d"); } "d" },
        'E' => { proof { reveal_strlit("e"); } "e" },
        'F' => { proof { reveal_strlit("f"); } "f" },
        'G' => { proof { reveal_strlit("g"); } "g" },
        'H' => { proof { reveal_strlit("h"); } "h" },
        'I' => { proof { reveal_strlit("i"); } "i" },
        'J' => { proof { reveal_strlit("j"); } "j" },
        'K' => { proof { reveal_strlit("k"); } "k" },
        'L' => { proof { reveal_strlit("l"); } "l" },
        'M' => { proof { reveal_strlit("m"); } "m" },
        'N' => { proof { reveal_strlit("n"); } "n" },
        'O' => { proof { reveal_strlit("o"); } "o" },
        'P' => { proof { reveal_strlit("p"); } "p" },
        'Q' => { proof { reveal_strlit("q"); } "q" },
        'R' => { proof { reveal_strlit("r"); } "r" },
        'S' => { proof { reveal_strlit("s"); } "s" },
        'T' => { proof { reveal_strlit("t"); } "t" },
        'U' => { proof { reveal_strlit("u"); } "u" },
        'V' => { proof { reveal_strlit("v"); } "v" },
        'W' => { proof { reveal_strlit("w"); } "w" },
        'X' => { proof { reveal_strlit("x"); } "x" },
        'Y' => { proof { reveal_strlit("y"); } "y" },
        _ => { proof { reveal_strlit("z"); } "z" },
    }
}

/// Lowercase the ASCII letters of a string.
pub fn to_lower(s: &str) -> (r: String)
    ensures
        r@ == lower_seq(s@),
{
    let n = s.unicode_len();
    let mut out = String::new();
    let mut i: usize = 0;
    proof {
        assert(out@ =~= lower_seq(s@.take(0)));
    }
    while i < n
        invariant
            0 <= i <= n,
            n == s@.len(),
            out@ == lower_seq(s@.take(i as int)),
        decreases n - i,
    {
        let c = s.get_char(i);
        if 'A' <= c && c <= 'Z' {
            out.append(lower_letter_str(c));
        } else {
            out.append(s.substring_char(i, i + 1));
            proof {
                assert(s@.subrange(i as int, i + 1) =~= seq![s@[i as int]]);
            }
        }
        proof {
            assert(lower_seq(s@.take(i + 1)) =~= lower_seq(s@.take(i as int)) + seq![
                lower_char(s@[i as int]),
            ]);
        }
        i = i + 1;
    }
    proof {
        assert(s@.take(n as int) =~= s@);
    }
    out
}

/// Lexicographic order on character sequences by code point, the order in
/// which exported rows are sorted.
pub open spec fn lex_le(a: Seq<char>, b: Seq<char>) -> bool
    decreases a.len(),
{
    if a.len() == 0 {
        true
    } else if b.len() == 0 {
        false
    } else if a[0] != b[0] {
        (a[0] as u32) < (b[0] as u32)
    } else {
        lex_le(a.drop_first(), b.drop_first())
    }
}

/// The order is total: of any two sequences one precedes the other.
pub proof fn lemma_lex_le_total(a: Seq<char>, b: Seq<char>)
    ensures
        lex_le(a, b) || lex_le(b, a),
    decreases a.len(),
{
    if a.len() > 0 && b.len() > 0 {
        if a[0] == b[0] {
            lemma_lex_le_total(a.drop_first(), b.drop_first());
        } else {
            vstd::utf8::char_u32_cast(a[0], a[0] as u32);
            vstd::utf8::char_u32_cast(b[0], b[0] as u32);
        }
    }
}

/// The order is transitive.
pub proof fn lemma_lex_le_trans(a: Seq<char>, b: Seq<char>, c: Seq<char>)
    requires
        lex_le(a, b),
        lex_le(b, c),
    ensures
        lex_le(a, c),
    decreases a.len(),
{
    if a.len() > 0 && b.len() > 0 && c.len() > 0 {
        if a[0] == b[0] && b[0] == c[0] {
            lemma_lex_le_trans(a.drop_first(), b.drop_first(), c.drop_first());
        }
    }
}

/// Decide the lexicographic order of two strings.
pub fn str_le(a: &str, b: &str) -> (r: bool)
    ensures
        r == lex_le(a@, b@),
{
    let na = a.unicode_len();
    let nb = b.unicode_len();
    let mut i: usize = 0;
    proof {
        assert(a@.skip(0) =~= a@);
        assert(b@.skip(0) =~= b@);
    }
    loop
        invariant
            0 <= i,
            i <= na,
            i <= nb,
            na == a@.len(),
            nb == b@.len(),
            lex_le(a@, b@) == lex_le(a@.skip(i as int), b@.skip(i as int)),
        decreases na - i,
    {
        if i >= na {
            return true;
        }
        if i >= nb {
            return false;
        }
        let ca = a.get_char(i);
        let cb = b.get_char(i);
        if ca != cb {
            return (ca as u32) < (cb as u32);
        }
        proof {
            assert(a@.skip(i as int).drop_first() =~= a@.skip(i + 1));
            assert(b@.skip(i as int).drop_first() =~= b@.skip(i + 1));
        }
        i = i + 1;
    }
}

/// Character-wise string equality.
pub fn str_eq(a: &str, b: &str) -> (r: bool)
    ensures
        r == (a@ == b@),
{
    let na = a.unicode_len();
    let nb = b.unicode_len();
    if na != nb {
        return false;
    }
    let mut i: usize = 0;
    while i < na
        invariant
            0 <= i <= na,
            na == a@.len(),
            na == b@.len(),
            forall|k: int| 0 <= k < i ==> a@[k] == b@[k],
        decreases na - i,
    {
        if a.get_char(i) != b.get_char(i) {
            return false;
        }
        i = i + 1;
    }
    proof {
        assert(a@ =~= b@);
    }
    true
}

} // verus!
