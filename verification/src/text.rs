//! Character-sequence helpers: prefixes, suffixes, ordering, joining and
//! decimal rendering, each with the spec function it is proved against.
use vstd::prelude::*;

verus! {

/// `p` is a prefix of `s`.
pub open spec fn starts_with(s: Seq<char>, p: Seq<char>) -> bool {
    p.len() <= s.len() && s.subrange(0, p.len() as int) == p
}

/// `p` is a suffix of `s`.
pub open spec fn ends_with(s: Seq<char>, p: Seq<char>) -> bool {
    p.len() <= s.len() && s.subrange(s.len() - p.len(), s.len() as int) == p
}

/// `p` occurs in `s`.
pub open spec fn contains_seq(s: Seq<char>, p: Seq<char>) -> bool {
    exists|i: int| 0 <= i && i + p.len() <= s.len() && #[trigger] s.subrange(i, i + p.len()) == p
}

/// `s` with every trailing copy of a non-empty `p` removed.
pub open spec fn trim_suffix_all(s: Seq<char>, p: Seq<char>) -> Seq<char>
    decreases s.len(),
{
    if p.len() > 0 && ends_with(s, p) {
        trim_suffix_all(s.subrange(0, s.len() - p.len()), p)
    } else {
        s
    }
}

/// Lexicographic order on byte sequences (the order of `[u8]`, `str` and,
/// on Unix, `OsStr`).
pub open spec fn lex_le(a: Seq<u8>, b: Seq<u8>) -> bool
    decreases a.len(),
{
    if a.len() == 0 {
        true
    } else if b.len() == 0 {
        false
    } else if a[0] != b[0] {
        a[0] < b[0]
    } else {
        lex_le(a.drop_first(), b.drop_first())
    }
}

/// `parts` separated by `sep`.
pub open spec fn join(parts: Seq<Seq<char>>, sep: Seq<char>) -> Seq<char>
    decreases parts.len(),
{
    if parts.len() == 0 {
        Seq::empty()
    } else if parts.len() == 1 {
        parts[0]
    } else {
        join(parts.drop_last(), sep) + sep + parts.last()
    }
}

/// The decimal digit for `d < 10`.
pub open spec fn digit_char(d: nat) -> char {
    seq!['0', '1', '2', '3', '4', '5', '6', '7', '8', '9'][d as int]
}

/// The decimal representation of `n`, without leading zeros.
pub open spec fn decimal(n: nat) -> Seq<char>
    decreases n,
{
    if n < 10 {
        seq![digit_char(n)]
    } else {
        decimal(n / 10).push(digit_char(n % 10))
    }
}

/// Whether `a` and `b` hold the same characters.
pub fn str_eq(a: &str, b: &str) -> (r: bool)
    ensures
        r == (a@ == b@),
{
    let n = a.unicode_len();
    let m = b.unicode_len();
    if n != m {
        return false;
    }
    let mut i: usize = 0;
    while i < n
        invariant
            n == a@.len(),
            m == b@.len(),
            n == m,
            i <= n,
            forall|j: int| 0 <= j < i ==> a@[j] == b@[j],
        decreases n - i,
    {
        if a.get_char(i) != b.get_char(i) {
            return false;
        }
        i = i + 1;
    }
    assert(a@ =~= b@);
    true
}


/// Whether the characters of `s` at `start..start + p.len()` are those of `p`.
fn matches_at(s: &str, p: &str, start: usize) -> (r: bool)
    requires
        start + p@.len() <= s@.len(),
        s@.len() <= usize::MAX,
    ensures
        r == (s@.subrange(start as int, start + p@.len()) == p@),
{
    let m = p.unicode_len();
    let mut i: usize = 0;
    while i < m
        invariant
            m == p@.len(),
            start + m <= s@.len(),
            s@.len() <= usize::MAX,
            i <= m,
            forall|j: int| 0 <= j < i ==> s@[start + j] == p@[j],
        decreases m - i,
    {
        if s.get_char(start + i) != p.get_char(i) {
            assert(s@.subrange(start as int, start + p@.len())[i as int] != p@[i as int]);
            return false;
        }
        i = i + 1;
    }
    assert(s@.subrange(start as int, start + p@.len()) =~= p@);
    true
}

/// Whether `s` begins with `p`.
pub fn has_prefix(s: &str, p: &str) -> (r: bool)
    ensures
        r == starts_with(s@, p@),
{
    let n = s.unicode_len();
    let m = p.unicode_len();
    if m > n {
        return false;
    }
    matches_at(s, p, 0)
}

/// Whether `s` ends with `p`.
pub fn has_suffix(s: &str, p: &str) -> (r: bool)
    ensures
        r == ends_with(s@, p@),
{
    let n = s.unicode_len();
    let m = p.unicode_len();
    if m > n {
        return false;
    }
    matches_at(s, p, n - m)
}

proof fn lemma_trim_step(s: Seq<char>, p: Seq<char>, end: int)
    requires
        0 <= end <= s.len(),
        p.len() > 0,
        p.len() <= end,
        ends_with(s.subrange(0, end), p),
    ensures
        trim_suffix_all(s.subrange(0, end), p) == trim_suffix_all(s.subrange(0, end - p.len()), p),
{
    assert(s.subrange(0, end).subrange(0, end - p.len()) =~= s.subrange(0, end - p.len()));
}

/// `s` with every trailing copy of `p` removed (all of `s` when `p` is empty).
pub fn trim_end_matches(s: &str, p: &str) -> (r: String)
    ensures
        r@ == trim_suffix_all(s@, p@),
{
    let n = s.unicode_len();
    let m = p.unicode_len();
    if m == 0 {
        return String::from_str(s);
    }
    let mut end: usize = n;
    assert(s@.subrange(0, n as int) =~= s@);
    while m <= end && matches_at(s, p, end - m)
        invariant
            n == s@.len(),
            m == p@.len(),
            m > 0,
            end <= n,
            trim_suffix_all(s@, p@) == trim_suffix_all(s@.subrange(0, end as int), p@),
        decreases end,
    {
        assert(s@.subrange(0, end as int).subrange(end - m, end as int) =~= s@.subrange(end - m, end as int));
        proof {
            lemma_trim_step(s@, p@, end as int);
        }
        end = end - m;
    }
    proof {
        let t = s@.subrange(0, end as int);
        if m <= end {
            assert(t.subrange(end - m, end as int) =~= s@.subrange(end - m, end as int));
        }
        assert(!ends_with(t, p@));
    }
    String::from_str(s.substring_char(0, end))
}


proof fn lemma_lex_le_skip(a: Seq<u8>, b: Seq<u8>, i: int)
    requires
        0 <= i < a.len(),
        i < b.len(),
        a[i] == b[i],
    ensures
        lex_le(a.skip(i), b.skip(i)) == lex_le(a.skip(i + 1), b.skip(i + 1)),
{
    assert(a.skip(i).drop_first() =~= a.skip(i + 1));
    assert(b.skip(i).drop_first() =~= b.skip(i + 1));
}

/// Whether `a` comes no later than `b` in byte order.
pub fn lex_le_bytes(a: &[u8], b: &[u8]) -> (r: bool)
    ensures
        r == lex_le(a@, b@),
{
    let n = a.len();
    let m = b.len();
    let mut i: usize = 0;
    assert(a@.skip(0) =~= a@);
    assert(b@.skip(0) =~= b@);
    while i < n && i < m
        invariant
            n == a@.len(),
            m == b@.len(),
            i <= n,
            i <= m,
            lex_le(a@, b@) == lex_le(a@.skip(i as int), b@.skip(i as int)),
        decreases n - i,
    {
        if a[i] != b[i] {
            assert(a@.skip(i as int)[0] == a@[i as int]);
            assert(b@.skip(i as int)[0] == b@[i as int]);
            return a[i] < b[i];
        }
        proof {
            lemma_lex_le_skip(a@, b@, i as int);
        }
        i = i + 1;
    }
    i == n
}

/// A one-character string holding the digit `d`.
fn digit_str(d: usize) -> (r: &'static str)
    requires
        d < 10,
    ensures
        r@ == seq![digit_char(d as nat)],
{
    proof {
        reveal_strlit("0");
        reveal_strlit("1");
        reveal_strlit("2");
        reveal_strlit("3");
        reveal_strlit("4");
        reveal_strlit("5");
        reveal_strlit("6");
        reveal_strlit("7");
        reveal_strlit("8");
        reveal_strlit("9");
    }
    let r = match d {
        0 => "0",
        1 => "1",
        2 => "2",
        3 => "3",
        4 => "4",
        5 => "5",
        6 => "6",
        7 => "7",
        8 => "8",
        _ => "9",
    };
    assert(r@ =~= seq![digit_char(d as nat)]);
    r
}

/// The decimal representation of `n`.
pub fn decimal_string(n: usize) -> (r: String)
    ensures
        r@ == decimal(n as nat),
    decreases n,
{
    if n < 10 {
        String::from_str(digit_str(n))
    } else {
        let mut s = decimal_string(n / 10);
        s.append(digit_str(n % 10));
        s
    }
}


/// Every sequence comes no later than itself.
pub proof fn lemma_lex_le_reflexive(a: Seq<u8>)
    ensures
        lex_le(a, a),
    decreases a.len(),
{
    if a.len() > 0 {
        lemma_lex_le_reflexive(a.drop_first());
    }
}

/// Any two sequences are ordered one way or the other.
pub proof fn lemma_lex_le_total(a: Seq<u8>, b: Seq<u8>)
    ensures
        lex_le(a, b) || lex_le(b, a),
    decreases a.len(),
{
    if a.len() > 0 && b.len() > 0 {
        if a[0] == b[0] {
            lemma_lex_le_total(a.drop_first(), b.drop_first());
        } else {
        }
    }
}

/// Sequences ordered both ways are equal.
pub proof fn lemma_lex_le_antisymmetric(a: Seq<u8>, b: Seq<u8>)
    requires
        lex_le(a, b),
        lex_le(b, a),
    ensures
        a == b,
    decreases a.len(),
{
    if a.len() > 0 && b.len() > 0 {
        lemma_lex_le_antisymmetric(a.drop_first(), b.drop_first());
        assert(a =~= seq![a[0]] + a.drop_first());
        assert(b =~= seq![b[0]] + b.drop_first());
    } else {
        assert(a =~= b);
    }
}

/// The order is transitive.
pub proof fn lemma_lex_le_transitive(a: Seq<u8>, b: Seq<u8>, c: Seq<u8>)
    requires
        lex_le(a, b),
        lex_le(b, c),
    ensures
        lex_le(a, c),
    decreases a.len(),
{
    if a.len() > 0 && b.len() > 0 && c.len() > 0 && a[0] == b[0] && b[0] == c[0] {
        lemma_lex_le_transitive(a.drop_first(), b.drop_first(), c.drop_first());
    }
}


/// Removing every trailing copy of a non-empty `p` leaves a prefix of `s`
/// that no longer ends with `p`.
pub proof fn lemma_trim_suffix_all(s: Seq<char>, p: Seq<char>)
    requires
        p.len() > 0,
    ensures
        !ends_with(trim_suffix_all(s, p), p),
        starts_with(s, trim_suffix_all(s, p)),
    decreases s.len(),
{
    if ends_with(s, p) {
        let t = s.subrange(0, s.len() - p.len());
        lemma_trim_suffix_all(t, p);
        let r = trim_suffix_all(t, p);
        assert(s.subrange(0, r.len() as int) =~= t.subrange(0, r.len() as int));
    } else {
        assert(s.subrange(0, s.len() as int) =~= s);
    }
}


/// The characters of `s`.
pub fn chars_of(s: &str) -> (r: Vec<char>)
    ensures
        r@ == s@,
{
    let mut v: Vec<char> = Vec::new();
    for c in it: s.chars()
        invariant
            v@ == it.seq().take(it.index() as int),
            it.seq() == s@,
    {
        v.push(c);
    }
    v
}


/// A sequence occurs in itself.
pub proof fn lemma_contains_self(x: Seq<char>)
    ensures
        contains_seq(x, x),
{
    assert(x.subrange(0, 0int + x.len()) =~= x);
}

/// What occurs in `t` occurs in `y + t + z`.
pub proof fn lemma_contains_extend(y: Seq<char>, t: Seq<char>, z: Seq<char>, x: Seq<char>)
    requires
        contains_seq(t, x),
    ensures
        contains_seq(y + t + z, x),
{
    let i = choose|i: int| 0 <= i && i + x.len() <= t.len() && #[trigger] t.subrange(i, i + x.len()) == x;
    let j = y.len() + i;
    assert((y + t + z).subrange(j, j + x.len()) =~= t.subrange(i, i + x.len()));
}


/// Each of `names` on a line of its own, between `pre` and `post`.
pub open spec fn items(names: Seq<Seq<char>>, pre: Seq<char>, post: Seq<char>) -> Seq<char>
    decreases names.len(),
{
    if names.len() == 0 {
        Seq::empty()
    } else {
        items(names.drop_last(), pre, post) + (pre + names.last() + post)
    }
}

/// Every name of a list appears in it, between `pre` and `post`.
pub proof fn lemma_items_hold(names: Seq<Seq<char>>, pre: Seq<char>, post: Seq<char>, k: int)
    requires
        0 <= k < names.len(),
    ensures
        contains_seq(items(names, pre, post), pre + names[k] + post),
    decreases names.len(),
{
    let d = names.drop_last();
    let x = pre + names[k] + post;
    let a = items(d, pre, post);
    let b = pre + names.last() + post;
    if k == names.len() - 1 {
        lemma_contains_self(x);
        lemma_contains_extend(a, x, Seq::empty(), x);
        assert(a + x + Seq::<char>::empty() =~= a + x);
    } else {
        assert(d[k] == names[k]);
        lemma_items_hold(d, pre, post, k);
        lemma_contains_extend(Seq::empty(), a, b, x);
        assert(Seq::<char>::empty() + a + b =~= a + b);
    }
}

} // verus!
