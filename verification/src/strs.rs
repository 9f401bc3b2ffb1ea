//! Character-level string operations with their specifications: views of
//! strings as `Seq<char>`, the lexicographic order of keys, whitespace,
//! trimming, splitting into words and lines, and decimal numbers.
use vstd::prelude::*;

verus! {

// ---------------------------------------------------------------------
// Conversions between strings and character vectors
// ---------------------------------------------------------------------

/// `String::push`: the string afterwards is the string before with `c`
/// added at its end.
#[verifier::external_body]
pub(crate) fn push_char(s: &mut String, c: char)
    ensures
        final(s)@ == old(s)@.push(c),
{
    s.push(c)
}

/// The characters of `s`, in order.
pub fn to_chars(s: &str) -> (v: Vec<char>)
    ensures
        v@ == s@,
{
    let mut v: Vec<char> = Vec::new();
    for c in it: s.chars()
        invariant
            v@ == it.seq().take(it.index() as int),
    {
        v.push(c);
    }
    proof {
        broadcast use vstd::string::axiom_spec_iter;
    }
    assert(v@ =~= s@);
    v
}

/// Appends the characters `cs[from..to]` to `out`.
pub fn append_chars(out: &mut String, cs: &Vec<char>, from: usize, to: usize)
    requires
        from <= to <= cs@.len(),
    ensures
        final(out)@ == old(out)@ + cs@.subrange(from as int, to as int),
{
    let mut i: usize = from;
    while i < to
        invariant
            from <= i <= to <= cs@.len(),
            out@ == old(out)@ + cs@.subrange(from as int, i as int),
        decreases to - i,
    {
        push_char(out, cs[i]);
        i = i + 1;
        assert(cs@.subrange(from as int, i as int) =~= cs@.subrange(from as int, (i - 1) as int).push(
            cs@[i - 1],
        ));
    }
}

/// A string holding the characters `cs[from..to]`.
pub fn string_of(cs: &Vec<char>, from: usize, to: usize) -> (s: String)
    requires
        from <= to <= cs@.len(),
    ensures
        s@ == cs@.subrange(from as int, to as int),
{
    let mut s = String::new();
    append_chars(&mut s, cs, from, to);
    s
}

/// Whether two strings hold the same characters.
pub fn str_equal(a: &str, b: &str) -> (r: bool)
    ensures
        r == (a@ == b@),
{
    let x = to_chars(a);
    let y = to_chars(b);
    if x.len() != y.len() {
        return false;
    }
    let mut i: usize = 0;
    while i < x.len()
        invariant
            x@ == a@,
            y@ == b@,
            x@.len() == y@.len(),
            i <= x@.len(),
            forall|j: int| 0 <= j < i ==> x@[j] == y@[j],
        decreases x@.len() - i,
    {
        if x[i] != y[i] {
            return false;
        }
        i = i + 1;
    }
    assert(x@ =~= y@);
    true
}

// ---------------------------------------------------------------------
// Lexicographic order (the order of `String`'s `Ord`)
// ---------------------------------------------------------------------

/// `a` comes strictly before `b`, comparing characters by code point.
/// UTF-8 preserves code point order, so this is the byte order of `str`.
pub open spec fn lex_lt(a: Seq<char>, b: Seq<char>) -> bool
    decreases a.len(),
{
    if a.len() == 0 {
        b.len() > 0
    } else if b.len() == 0 {
        false
    } else if a[0] != b[0] {
        (a[0] as u32) < (b[0] as u32)
    } else {
        lex_lt(a.drop_first(), b.drop_first())
    }
}

pub proof fn lemma_lex_irreflexive(a: Seq<char>)
    ensures
        !lex_lt(a, a),
    decreases a.len(),
{
    if a.len() > 0 {
        lemma_lex_irreflexive(a.drop_first());
    }
}

pub proof fn lemma_lex_asymmetric(a: Seq<char>, b: Seq<char>)
    requires
        lex_lt(a, b),
    ensures
        !lex_lt(b, a),
    decreases a.len(),
{
    if a.len() > 0 && b.len() > 0 && a[0] == b[0] {
        lemma_lex_asymmetric(a.drop_first(), b.drop_first());
    }
}

pub proof fn lemma_lex_transitive(a: Seq<char>, b: Seq<char>, c: Seq<char>)
    requires
        lex_lt(a, b),
        lex_lt(b, c),
    ensures
        lex_lt(a, c),
    decreases a.len(),
{
    if a.len() > 0 && b.len() > 0 && c.len() > 0 && a[0] == b[0] && b[0] == c[0] {
        lemma_lex_transitive(a.drop_first(), b.drop_first(), c.drop_first());
    }
}

pub proof fn lemma_lex_total(a: Seq<char>, b: Seq<char>)
    ensures
        a == b || lex_lt(a, b) || lex_lt(b, a),
    decreases a.len(),
{
    if a.len() > 0 && b.len() > 0 {
        if a[0] == b[0] {
            lemma_lex_total(a.drop_first(), b.drop_first());
            if a.drop_first() == b.drop_first() {
                assert(a =~= seq![a[0]] + a.drop_first());
                assert(b =~= seq![b[0]] + b.drop_first());
            }
        } else {
            lemma_char_code_injective(a[0], b[0]);
        }
    } else if a.len() == 0 && b.len() == 0 {
        assert(a =~= b);
    }
}

proof fn lemma_char_code_injective(a: char, b: char)
    requires
        a != b,
    ensures
        a as u32 != b as u32,
{
    assert(a as int != b as int);
}

/// How two keys are ordered.
#[derive(Debug, Clone, Copy, PartialEq, Eq, Structural)]
pub enum KeyOrder {
    Less,
    Equal,
    Greater,
}

/// Compares two character sequences lexicographically.
pub fn compare_chars(a: &Vec<char>, b: &Vec<char>) -> (r: KeyOrder)
    ensures
        r == KeyOrder::Less <==> lex_lt(a@, b@),
        r == KeyOrder::Equal <==> a@ == b@,
        r == KeyOrder::Greater <==> lex_lt(b@, a@),
{
    let mut i: usize = 0;
    proof {
        assert(a@.skip(0) =~= a@);
        assert(b@.skip(0) =~= b@);
    }
    while i < a.len() && i < b.len()
        invariant
            i <= a@.len(),
            i <= b@.len(),
            a@.take(i as int) == b@.take(i as int),
            lex_lt(a@, b@) == lex_lt(a@.skip(i as int), b@.skip(i as int)),
            lex_lt(b@, a@) == lex_lt(b@.skip(i as int), a@.skip(i as int)),
        decreases a@.len() - i,
    {
        let x = a[i];
        let y = b[i];
        if x != y {
            proof {
                assert(a@.skip(i as int)[0] == x);
                assert(b@.skip(i as int)[0] == y);
                lemma_lex_total(a@.skip(i as int), b@.skip(i as int));
                lemma_lex_asymmetric_both(a@.skip(i as int), b@.skip(i as int));
                if a@ == b@ {
                    assert(a@[i as int] == b@[i as int]);
                }
            }
            if (x as u32) < (y as u32) {
                return KeyOrder::Less;
            } else {
                return KeyOrder::Greater;
            }
        }
        proof {
            assert(a@.skip(i as int).drop_first() =~= a@.skip(i + 1));
            assert(b@.skip(i as int).drop_first() =~= b@.skip(i + 1));
            assert(a@.take(i + 1) =~= a@.take(i as int).push(x));
            assert(b@.take(i + 1) =~= b@.take(i as int).push(y));
        }
        i = i + 1;
    }
    proof {
        assert(a@.take(i as int) =~= a@.subrange(0, i as int));
    }
    if a.len() == b.len() {
        proof {
            assert(a@ =~= a@.take(i as int));
            assert(b@ =~= b@.take(i as int));
            lemma_lex_irreflexive(a@);
        }
        KeyOrder::Equal
    } else if i == a.len() {
        proof {
            assert(a@.skip(i as int).len() == 0);
            if a@ == b@ {
                assert(a@.len() == b@.len());
            }
        }
        KeyOrder::Less
    } else {
        proof {
            assert(b@.skip(i as int).len() == 0);
            if a@ == b@ {
                assert(a@.len() == b@.len());
            }
        }
        KeyOrder::Greater
    }
}

proof fn lemma_lex_asymmetric_both(a: Seq<char>, b: Seq<char>)
    ensures
        !(lex_lt(a, b) && lex_lt(b, a)),
{
    if lex_lt(a, b) {
        lemma_lex_asymmetric(a, b);
    }
}

} // verus!

verus! {

// ---------------------------------------------------------------------
// Searching and trimming single characters
// ---------------------------------------------------------------------

/// `s` without its trailing run of `c` (`str::trim_end_matches` with a char).
pub open spec fn trim_end_char(s: Seq<char>, c: char) -> Seq<char>
    decreases s.len(),
{
    if s.len() > 0 && s.last() == c {
        trim_end_char(s.drop_last(), c)
    } else {
        s
    }
}

/// The index of the last `c` in `s` (`str::rfind` with a char).
pub open spec fn rfind_char(s: Seq<char>, c: char) -> Option<int>
    decreases s.len(),
{
    if s.len() == 0 {
        None
    } else if s.last() == c {
        Some(s.len() - 1)
    } else {
        rfind_char(s.drop_last(), c)
    }
}

/// The index of the first `c` in `s` (`str::find` with a char).
pub open spec fn find_char(s: Seq<char>, c: char) -> Option<int>
    decreases s.len(),
{
    if s.len() == 0 {
        None
    } else if s[0] == c {
        Some(0)
    } else {
        match find_char(s.drop_first(), c) {
            Some(i) => Some(i + 1),
            None => None,
        }
    }
}

/// The index of the first occurrence of the two-character pattern `a b`
/// in `s` (`str::find` with a two-character string).
pub open spec fn find_pair(s: Seq<char>, a: char, b: char) -> Option<int>
    decreases s.len(),
{
    if s.len() < 2 {
        None
    } else if s[0] == a && s[1] == b {
        Some(0)
    } else {
        match find_pair(s.drop_first(), a, b) {
            Some(i) => Some(i + 1),
            None => None,
        }
    }
}

pub proof fn lemma_trim_end_char(s: Seq<char>, c: char)
    ensures
        trim_end_char(s, c).len() <= s.len(),
        trim_end_char(s, c) == s.take(trim_end_char(s, c).len() as int),
        trim_end_char(s, c).len() == 0 || trim_end_char(s, c).last() != c,
        forall|j: int| trim_end_char(s, c).len() <= j < s.len() ==> s[j] == c,
    decreases s.len(),
{
    if s.len() > 0 && s.last() == c {
        lemma_trim_end_char(s.drop_last(), c);
        let t = trim_end_char(s.drop_last(), c);
        assert(s.take(t.len() as int) =~= s.drop_last().take(t.len() as int));
        assert forall|j: int| t.len() <= j < s.len() implies s[j] == c by {
            if j < s.len() - 1 {
                assert(s[j] == s.drop_last()[j]);
            }
        }
    } else {
        assert(s.take(s.len() as int) =~= s);
    }
}

pub proof fn lemma_rfind_char(s: Seq<char>, c: char)
    ensures
        match rfind_char(s, c) {
            Some(i) => 0 <= i < s.len() && s[i] == c && forall|j: int| i < j < s.len() ==> s[j] != c,
            None => forall|j: int| 0 <= j < s.len() ==> s[j] != c,
        },
    decreases s.len(),
{
    if s.len() > 0 && s.last() != c {
        lemma_rfind_char(s.drop_last(), c);
        assert forall|j: int| 0 <= j < s.len() - 1 implies s[j] == s.drop_last()[j] by {}
    }
}

pub proof fn lemma_find_char(s: Seq<char>, c: char)
    ensures
        match find_char(s, c) {
            Some(i) => 0 <= i < s.len() && s[i] == c && forall|j: int| 0 <= j < i ==> s[j] != c,
            None => forall|j: int| 0 <= j < s.len() ==> s[j] != c,
        },
    decreases s.len(),
{
    if s.len() > 0 && s[0] != c {
        lemma_find_char(s.drop_first(), c);
        assert forall|j: int| 1 <= j < s.len() implies s[j] == s.drop_first()[j - 1] by {}
    }
}

pub proof fn lemma_find_pair(s: Seq<char>, a: char, b: char)
    ensures
        match find_pair(s, a, b) {
            Some(i) => 0 <= i && i + 1 < s.len() && s[i] == a && s[i + 1] == b && forall|j: int|
                0 <= j < i ==> !(#[trigger] s[j] == a && s[j + 1] == b),
            None => forall|j: int|
                0 <= j && j + 1 < s.len() ==> !(#[trigger] s[j] == a && s[j + 1] == b),
        },
    decreases s.len(),
{
    if s.len() >= 2 && !(s[0] == a && s[1] == b) {
        lemma_find_pair(s.drop_first(), a, b);
        assert forall|j: int| 1 <= j < s.len() implies s[j] == s.drop_first()[j - 1] by {}
    }
}

/// The length of `cs[..n]` once its trailing run of `c` is removed.
pub fn trim_end_len(cs: &Vec<char>, n: usize, c: char) -> (m: usize)
    requires
        n <= cs@.len(),
    ensures
        m <= n,
        cs@.take(m as int) == trim_end_char(cs@.take(n as int), c),
{
    let mut m: usize = n;
    proof {
        lemma_trim_end_char(cs@.take(n as int), c);
    }
    while m > 0 && cs[m - 1] == c
        invariant
            m <= n <= cs@.len(),
            forall|j: int| m <= j < n ==> cs@[j] == c,
        decreases m,
    {
        m = m - 1;
    }
    proof {
        let s0 = cs@.take(n as int);
        let t = trim_end_char(s0, c);
        let k = t.len() as int;
        assert(forall|j: int| 0 <= j < n ==> s0[j] == cs@[j]);
        if k < m {
            assert(s0[m - 1] == c);
        }
        if m < k {
            assert(s0[k - 1] == c);
            assert(t[k - 1] == s0.take(k)[k - 1]);
        }
        assert(m == k);
        assert(cs@.take(m as int) =~= t);
    }
    m
}

/// The index of the last `c` in `cs[..n]`.
pub fn rfind_in(cs: &Vec<char>, n: usize, c: char) -> (r: Option<usize>)
    requires
        n <= cs@.len(),
    ensures
        match r {
            Some(i) => i < n && cs@[i as int] == c && rfind_char(cs@.take(n as int), c) == Some(
                i as int,
            ),
            None => rfind_char(cs@.take(n as int), c) is None,
        },
{
    proof {
        lemma_rfind_char(cs@.take(n as int), c);
    }
    let mut i: usize = n;
    assert(cs@.take(n as int) =~= cs@.take(i as int));
    while i > 0
        invariant
            i <= n <= cs@.len(),
            rfind_char(cs@.take(n as int), c) == rfind_char(cs@.take(i as int), c),
        decreases i,
    {
        if cs[i - 1] == c {
            return Some(i - 1);
        }
        assert(cs@.take(i as int).drop_last() =~= cs@.take(i - 1));
        i = i - 1;
    }
    None
}

/// The index of the first `c` in `cs`.
pub fn find_in(cs: &Vec<char>, c: char) -> (r: Option<usize>)
    ensures
        match r {
            Some(i) => find_char(cs@, c) == Some(i as int),
            None => find_char(cs@, c) is None,
        },
{
    proof {
        lemma_find_char(cs@, c);
    }
    let mut i: usize = 0;
    while i < cs.len()
        invariant
            i <= cs@.len(),
            forall|j: int| 0 <= j < i ==> cs@[j] != c,
        decreases cs@.len() - i,
    {
        if cs[i] == c {
            proof {
                lemma_find_char(cs@, c);
                match find_char(cs@, c) {
                    Some(k) => {
                        if k > i {
                            assert(cs@[i as int] != c);
                        }
                    },
                    None => {
                        assert(cs@[i as int] != c);
                    },
                }
            }
            return Some(i);
        }
        i = i + 1;
    }
    None
}

/// The index of the first occurrence of `a b` in `cs`.
pub fn find_pair_in(cs: &Vec<char>, a: char, b: char) -> (r: Option<usize>)
    ensures
        match r {
            Some(i) => find_pair(cs@, a, b) == Some(i as int),
            None => find_pair(cs@, a, b) is None,
        },
{
    proof {
        lemma_find_pair(cs@, a, b);
    }
    let mut i: usize = 0;
    while i < cs.len() && i + 1 < cs.len()
        invariant
            i <= cs@.len(),
            forall|j: int|
                0 <= j < i && j + 1 < cs@.len() ==> !(#[trigger] cs@[j] == a && cs@[j + 1] == b),
        decreases cs@.len() - i,
    {
        if cs[i] == a && cs[i + 1] == b {
            proof {
                lemma_find_pair(cs@, a, b);
                match find_pair(cs@, a, b) {
                    Some(k) => {
                        if k > i {
                            assert(!(cs@[i as int] == a && cs@[i + 1] == b));
                        }
                    },
                    None => {
                        assert(!(cs@[i as int] == a && cs@[i + 1] == b));
                    },
                }
            }
            return Some(i);
        }
        i = i + 1;
    }
    None
}

} // verus!

verus! {

// ---------------------------------------------------------------------
// Whitespace, trimming and splitting into words
// ---------------------------------------------------------------------

/// Unicode `White_Space` (`char::is_whitespace`).
pub open spec fn is_ws(c: char) -> bool {
    let u = c as u32;
    ||| 9 <= u <= 13
    ||| u == 32
    ||| u == 0x85
    ||| u == 0xA0
    ||| u == 0x1680
    ||| 0x2000 <= u <= 0x200A
    ||| u == 0x2028
    ||| u == 0x2029
    ||| u == 0x202F
    ||| u == 0x205F
    ||| u == 0x3000
}

pub fn is_whitespace(c: char) -> (r: bool)
    ensures
        r == is_ws(c),
{
    let u = c as u32;
    (9 <= u && u <= 13) || u == 32 || u == 0x85 || u == 0xA0 || u == 0x1680 || (0x2000 <= u && u
        <= 0x200A) || u == 0x2028 || u == 0x2029 || u == 0x202F || u == 0x205F || u == 0x3000
}

pub open spec fn trim_start_ws(s: Seq<char>) -> Seq<char>
    decreases s.len(),
{
    if s.len() > 0 && is_ws(s[0]) {
        trim_start_ws(s.drop_first())
    } else {
        s
    }
}

pub open spec fn trim_end_ws(s: Seq<char>) -> Seq<char>
    decreases s.len(),
{
    if s.len() > 0 && is_ws(s.last()) {
        trim_end_ws(s.drop_last())
    } else {
        s
    }
}

/// `str::trim`: leading and trailing whitespace removed.
pub open spec fn trim(s: Seq<char>) -> Seq<char> {
    trim_start_ws(trim_end_ws(s))
}

pub proof fn lemma_trim_end_ws(s: Seq<char>)
    ensures
        trim_end_ws(s).len() <= s.len(),
        trim_end_ws(s) == s.take(trim_end_ws(s).len() as int),
        trim_end_ws(s).len() == 0 || !is_ws(s[trim_end_ws(s).len() - 1]),
        forall|j: int| trim_end_ws(s).len() <= j < s.len() ==> is_ws(#[trigger] s[j]),
    decreases s.len(),
{
    if s.len() > 0 && is_ws(s.last()) {
        lemma_trim_end_ws(s.drop_last());
        let t = trim_end_ws(s.drop_last());
        assert(s.take(t.len() as int) =~= s.drop_last().take(t.len() as int));
        assert forall|j: int| t.len() <= j < s.len() implies is_ws(#[trigger] s[j]) by {
            if j < s.len() - 1 {
                assert(s[j] == s.drop_last()[j]);
            }
        }
        if t.len() > 0 {
            assert(s[t.len() - 1] == s.drop_last()[t.len() - 1]);
        }
    } else {
        assert(s.take(s.len() as int) =~= s);
    }
}

pub proof fn lemma_trim_start_ws(s: Seq<char>)
    ensures
        trim_start_ws(s).len() <= s.len(),
        trim_start_ws(s) == s.skip(s.len() - trim_start_ws(s).len()),
        trim_start_ws(s).len() == 0 || !is_ws(trim_start_ws(s)[0]),
        forall|j: int| 0 <= j < s.len() - trim_start_ws(s).len() ==> is_ws(#[trigger] s[j]),
    decreases s.len(),
{
    if s.len() > 0 && is_ws(s[0]) {
        lemma_trim_start_ws(s.drop_first());
        let t = trim_start_ws(s.drop_first());
        assert(s.skip(s.len() - t.len()) =~= s.drop_first().skip(s.drop_first().len() - t.len()));
        assert forall|j: int| 0 <= j < s.len() - t.len() implies is_ws(#[trigger] s[j]) by {
            if j > 0 {
                assert(s[j] == s.drop_first()[j - 1]);
            }
        }
    } else {
        assert(s.skip(0) =~= s);
    }
}

/// The bounds `(a, b)` of `cs` with whitespace trimmed from both ends.
pub fn trim_bounds(cs: &Vec<char>) -> (r: (usize, usize))
    ensures
        r.0 <= r.1 <= cs@.len(),
        cs@.subrange(r.0 as int, r.1 as int) == trim(cs@),
{
    let mut b: usize = cs.len();
    while b > 0 && is_whitespace(cs[b - 1])
        invariant
            b <= cs@.len(),
            forall|j: int| b <= j < cs@.len() ==> is_ws(#[trigger] cs@[j]),
        decreases b,
    {
        b = b - 1;
    }
    proof {
        lemma_trim_end_ws(cs@);
        let k = trim_end_ws(cs@).len() as int;
        if k < b {
            assert(is_ws(cs@[b - 1]));
        }
        if b < k {
            assert(is_ws(cs@[k - 1]));
        }
        assert(cs@.take(b as int) =~= trim_end_ws(cs@));
    }
    let mut a: usize = 0;
    while a < b && is_whitespace(cs[a])
        invariant
            a <= b <= cs@.len(),
            forall|j: int| 0 <= j < a ==> is_ws(#[trigger] cs@[j]),
        decreases b - a,
    {
        a = a + 1;
    }
    proof {
        let e = cs@.take(b as int);
        lemma_trim_start_ws(e);
        let t = trim_start_ws(e);
        let k = e.len() - t.len();
        if k < a {
            assert(is_ws(e[k]));
            assert(e[k] == t[0]);
        }
        if a < k {
            assert(is_ws(e[a as int]));
        }
        assert(cs@.subrange(a as int, b as int) =~= e.skip(a as int));
    }
    (a, b)
}

/// The length of the leading run of non-whitespace in `s`.
pub open spec fn word_len(s: Seq<char>) -> nat
    decreases s.len(),
{
    if s.len() == 0 || is_ws(s[0]) {
        0
    } else {
        1 + word_len(s.drop_first())
    }
}

/// `str::split_whitespace`: the maximal runs of non-whitespace, in order.
pub open spec fn split_ws(s: Seq<char>) -> Seq<Seq<char>>
    decreases s.len(),
{
    if s.len() == 0 {
        seq![]
    } else if is_ws(s[0]) {
        split_ws(s.drop_first())
    } else {
        let n = word_len(s);
        proof {
            lemma_word_len_bound(s);
        }
        seq![s.take(n as int)] + split_ws(s.skip(n as int))
    }
}

pub proof fn lemma_word_len_bound(s: Seq<char>)
    ensures
        word_len(s) <= s.len(),
    decreases s.len(),
{
    if s.len() > 0 && !is_ws(s[0]) {
        lemma_word_len_bound(s.drop_first());
    }
}

proof fn lemma_word_len(s: Seq<char>, t: int)
    requires
        0 <= t <= s.len(),
        forall|j: int| 0 <= j < t ==> !is_ws(#[trigger] s[j]),
        t == s.len() || is_ws(s[t]),
    ensures
        word_len(s) == t,
    decreases s.len(),
{
    if t > 0 {
        assert forall|j: int| 0 <= j < t - 1 implies !is_ws(#[trigger] s.drop_first()[j]) by {
            assert(s.drop_first()[j] == s[j + 1]);
        }
        if t < s.len() {
            assert(s.drop_first()[t - 1] == s[t]);
        }
        lemma_word_len(s.drop_first(), t - 1);
    }
}

/// The words of `cs[from..to]`, in order.
pub fn split_words(cs: &Vec<char>, from: usize, to: usize) -> (words: Vec<String>)
    requires
        from <= to <= cs@.len(),
    ensures
        words@.map_values(|w: String| w@) == split_ws(cs@.subrange(from as int, to as int)),
{
    let ghost s = cs@.subrange(from as int, to as int);
    let mut words: Vec<String> = Vec::new();
    let mut i: usize = from;
    proof {
        assert(s.skip(0) =~= s);
    }
    while i < to
        invariant
            from <= i <= to <= cs@.len(),
            s == cs@.subrange(from as int, to as int),
            words@.map_values(|w: String| w@) + split_ws(s.skip(i - from)) == split_ws(s),
        decreases to - i,
    {
        let ghost r = s.skip(i - from);
        if is_whitespace(cs[i]) {
            proof {
                assert(r[0] == cs@[i as int]);
                assert(r.drop_first() =~= s.skip(i + 1 - from));
            }
            i = i + 1;
        } else {
            let mut j: usize = i;
            while j < to && !is_whitespace(cs[j])
                invariant
                    i <= j <= to <= cs@.len(),
                    forall|k: int| i <= k < j ==> !is_ws(#[trigger] cs@[k]),
                decreases to - j,
            {
                j = j + 1;
            }
            let w = string_of(cs, i, j);
            let ghost old_words = words@.map_values(|w: String| w@);
            words.push(w);
            proof {
                assert forall|k: int| 0 <= k < j - i implies !is_ws(#[trigger] r[k]) by {
                    assert(r[k] == cs@[i + k]);
                }
                if j < to {
                    assert(r[j - i] == cs@[j as int]);
                }
                lemma_word_len(r, j - i);
                assert(r[0] == cs@[i as int]);
                assert(r.take(j - i) =~= cs@.subrange(i as int, j as int));
                assert(r.skip(j - i) =~= s.skip(j - from));
                assert(words@.map_values(|w: String| w@) =~= old_words.push(
                    cs@.subrange(i as int, j as int),
                ));
                assert(split_ws(r) == seq![r.take(j - i)] + split_ws(r.skip(j - i)));
                assert(words@.map_values(|w: String| w@) + split_ws(s.skip(j - from)) =~= old_words
                    + split_ws(r));
            }
            i = j;
        }
    }
    proof {
        assert(s.skip(i - from).len() == 0);
        assert(words@.map_values(|w: String| w@) + split_ws(s.skip(i - from)) =~= words@.map_values(
            |w: String| w@,
        ));
    }
    words
}

} // verus!

verus! {

// ---------------------------------------------------------------------
// Lines
// ---------------------------------------------------------------------

/// A line without the `'\r'` of a `"\r\n"` ending.
pub open spec fn strip_cr(l: Seq<char>) -> Seq<char> {
    if l.len() > 0 && l.last() == '\r' {
        l.drop_last()
    } else {
        l
    }
}

/// `str::lines`: the text split at `"\n"` or `"\r\n"`; a final line
/// ending is optional and gives no empty last line.
pub open spec fn lines(s: Seq<char>) -> Seq<Seq<char>>
    decreases s.len(),
{
    if s.len() == 0 {
        seq![]
    } else {
        match find_char(s, '\n') {
            None => seq![s],
            Some(i) => {
                proof {
                    lemma_find_char(s, '\n');
                }
                seq![strip_cr(s.take(i))] + lines(s.skip(i + 1))
            },
        }
    }
}

/// The lines of `cs`.
pub fn split_lines(cs: &Vec<char>) -> (ls: Vec<String>)
    ensures
        ls@.map_values(|l: String| l@) == lines(cs@),
{
    let mut ls: Vec<String> = Vec::new();
    let mut i: usize = 0;
    proof {
        assert(cs@.skip(0) =~= cs@);
    }
    while i < cs.len()
        invariant
            i <= cs@.len(),
            ls@.map_values(|l: String| l@) + lines(cs@.skip(i as int)) == lines(cs@),
        decreases cs@.len() - i,
    {
        let ghost r = cs@.skip(i as int);
        let ghost old_ls = ls@.map_values(|l: String| l@);
        let mut j: usize = i;
        while j < cs.len() && cs[j] != '\n'
            invariant
                i <= j <= cs@.len(),
                forall|k: int| i <= k < j ==> cs@[k] != '\n',
            decreases cs@.len() - j,
        {
            j = j + 1;
        }
        proof {
            lemma_find_char(r, '\n');
            assert(forall|k: int| 0 <= k < r.len() ==> r[k] == cs@[i + k]);
        }
        if j == cs.len() {
            ls.push(string_of(cs, i, j));
            proof {
                match find_char(r, '\n') {
                    Some(k) => {
                        assert(cs@[i + k] != '\n');
                    },
                    None => {},
                }
                assert(r =~= cs@.subrange(i as int, j as int));
                assert(cs@.skip(j as int).len() == 0);
                assert(ls@.map_values(|l: String| l@) =~= old_ls.push(r));
                assert(ls@.map_values(|l: String| l@) + lines(cs@.skip(j as int)) =~= old_ls
                    + lines(r));
            }
            i = j;
        } else {
            let e: usize = if j > i && cs[j - 1] == '\r' {
                j - 1
            } else {
                j
            };
            ls.push(string_of(cs, i, e));
            proof {
                match find_char(r, '\n') {
                    Some(k) => {
                        if k < j - i {
                            assert(cs@[i + k] != '\n');
                        }
                        if k > j - i {
                            assert(r[j - i] == '\n');
                        }
                        assert(k == j - i);
                    },
                    None => {
                        assert(r[j - i] == '\n');
                    },
                }
                let l = r.take(j - i);
                assert(l =~= cs@.subrange(i as int, j as int));
                assert(strip_cr(l) =~= cs@.subrange(i as int, e as int));
                assert(r.skip(j - i + 1) =~= cs@.skip(j + 1));
                assert(ls@.map_values(|l: String| l@) =~= old_ls.push(strip_cr(l)));
                assert(ls@.map_values(|l: String| l@) + lines(cs@.skip(j + 1)) =~= old_ls
                    + lines(r));
            }
            i = j + 1;
        }
    }
    proof {
        assert(cs@.skip(i as int).len() == 0);
        assert(ls@.map_values(|l: String| l@) + lines(cs@.skip(i as int)) =~= ls@.map_values(
            |l: String| l@,
        ));
    }
    ls
}

// ---------------------------------------------------------------------
// Decimal numbers
// ---------------------------------------------------------------------

pub open spec fn digit_char(d: nat) -> char {
    if d == 0 {
        '0'
    } else if d == 1 {
        '1'
    } else if d == 2 {
        '2'
    } else if d == 3 {
        '3'
    } else if d == 4 {
        '4'
    } else if d == 5 {
        '5'
    } else if d == 6 {
        '6'
    } else if d == 7 {
        '7'
    } else if d == 8 {
        '8'
    } else {
        '9'
    }
}

/// The decimal representation of `n`, without leading zeros.
pub open spec fn dec(n: nat) -> Seq<char>
    decreases n,
{
    if n < 10 {
        seq![digit_char(n)]
    } else {
        dec(n / 10).push(digit_char(n % 10))
    }
}

fn digit_of(d: usize) -> (c: char)
    requires
        d < 10,
    ensures
        c == digit_char(d as nat),
{
    if d == 0 {
        '0'
    } else if d == 1 {
        '1'
    } else if d == 2 {
        '2'
    } else if d == 3 {
        '3'
    } else if d == 4 {
        '4'
    } else if d == 5 {
        '5'
    } else if d == 6 {
        '6'
    } else if d == 7 {
        '7'
    } else if d == 8 {
        '8'
    } else {
        '9'
    }
}

/// The decimal digits of `n`.
pub fn decimal_chars(n: usize) -> (cs: Vec<char>)
    ensures
        cs@ == dec(n as nat),
{
    let mut acc: Vec<char> = Vec::new();
    let mut x: usize = n;
    while x >= 10
        invariant
            dec(n as nat) == dec(x as nat) + acc@,
        decreases x,
    {
        let c = digit_of(x % 10);
        let ghost prev = acc@;
        acc.insert(0, c);
        proof {
            assert(dec(x as nat) == dec((x / 10) as nat).push(digit_char((x % 10) as nat)));
            assert(acc@ =~= seq![c] + prev);
            assert(dec(x as nat) + prev =~= dec((x / 10) as nat) + acc@);
        }
        x = x / 10;
    }
    let ghost prev = acc@;
    acc.insert(0, digit_of(x));
    assert(acc@ =~= seq![digit_char(x as nat)] + prev);
    assert(acc@ =~= dec(x as nat) + prev);
    acc
}

/// `s` padded on the left with spaces to at least `width` characters
/// (`{:>width}`).
pub open spec fn pad_left(s: Seq<char>, width: nat) -> Seq<char> {
    if s.len() >= width {
        s
    } else {
        Seq::new((width - s.len()) as nat, |i: int| ' ') + s
    }
}

/// Appends `n` in decimal, right-aligned in a field of `width`.
pub fn append_padded_decimal(out: &mut String, n: usize, width: usize)
    ensures
        final(out)@ == old(out)@ + pad_left(dec(n as nat), width as nat),
{
    let cs = decimal_chars(n);
    let mut k: usize = cs.len();
    let ghost start = out@;
    while k < width
        invariant
            cs@ == dec(n as nat),
            cs@.len() <= k <= width || (k == cs@.len() && k >= width),
            out@ == start + Seq::new((k - cs@.len()) as nat, |i: int| ' '),
        decreases width - k,
    {
        push_char(out, ' ');
        k = k + 1;
        assert(out@ =~= start + Seq::new((k - cs@.len()) as nat, |i: int| ' '));
    }
    append_chars(out, &cs, 0, cs.len());
    proof {
        assert(cs@.subrange(0, cs@.len() as int) =~= cs@);
        if cs@.len() >= width {
            assert(Seq::new((k - cs@.len()) as nat, |i: int| ' ') =~= Seq::<char>::empty());
            assert(out@ =~= start + cs@);
        } else {
            assert(out@ =~= start + pad_left(dec(n as nat), width as nat));
        }
    }
}

pub open spec fn digit_value(c: char) -> Option<nat> {
    if c == '0' {
        Some(0)
    } else if c == '1' {
        Some(1)
    } else if c == '2' {
        Some(2)
    } else if c == '3' {
        Some(3)
    } else if c == '4' {
        Some(4)
    } else if c == '5' {
        Some(5)
    } else if c == '6' {
        Some(6)
    } else if c == '7' {
        Some(7)
    } else if c == '8' {
        Some(8)
    } else if c == '9' {
        Some(9)
    } else {
        None
    }
}

pub open spec fn all_digits(d: Seq<char>) -> bool {
    forall|i: int| 0 <= i < d.len() ==> (#[trigger] digit_value(d[i])) is Some
}

/// The number written by the decimal digits `d`.
pub open spec fn digits_value(d: Seq<char>) -> nat
    decreases d.len(),
{
    if d.len() == 0 {
        0
    } else {
        digits_value(d.drop_last()) * 10 + digit_value(d.last()).unwrap_or(0)
    }
}

/// `str::parse::<usize>`: an optional `'+'` and at least one decimal
/// digit, of a value that fits in `usize`.
pub open spec fn parse_usize(s: Seq<char>) -> Option<usize> {
    let d = if s.len() > 0 && s[0] == '+' {
        s.drop_first()
    } else {
        s
    };
    if d.len() == 0 || !all_digits(d) || digits_value(d) > usize::MAX {
        None
    } else {
        Some(digits_value(d) as usize)
    }
}

proof fn lemma_digits_value_monotone(d: Seq<char>, k: int)
    requires
        0 <= k <= d.len(),
    ensures
        digits_value(d.take(k)) <= digits_value(d),
    decreases d.len() - k,
{
    if k < d.len() {
        lemma_digits_value_monotone(d, k + 1);
        assert(d.take(k + 1).drop_last() =~= d.take(k));
    } else {
        assert(d.take(k) =~= d);
    }
}

fn digit_value_of(c: char) -> (r: Option<usize>)
    ensures
        match r {
            Some(v) => digit_value(c) == Some(v as nat) && v < 10,
            None => digit_value(c) is None,
        },
{
    if c == '0' {
        Some(0)
    } else if c == '1' {
        Some(1)
    } else if c == '2' {
        Some(2)
    } else if c == '3' {
        Some(3)
    } else if c == '4' {
        Some(4)
    } else if c == '5' {
        Some(5)
    } else if c == '6' {
        Some(6)
    } else if c == '7' {
        Some(7)
    } else if c == '8' {
        Some(8)
    } else if c == '9' {
        Some(9)
    } else {
        None
    }
}

/// Parses a decimal `usize` as `str::parse::<usize>` does.
pub fn parse_decimal(s: &str) -> (r: Option<usize>)
    ensures
        r == parse_usize(s@),
{
    let cs = to_chars(s);
    let start: usize = if cs.len() > 0 && cs[0] == '+' {
        1
    } else {
        0
    };
    let ghost d = cs@.skip(start as int);
    proof {
        if start == 1 {
            assert(d =~= s@.drop_first());
        } else {
            assert(d =~= s@);
        }
    }
    if start == cs.len() {
        return None;
    }
    let mut acc: usize = 0;
    let mut i: usize = start;
    while i < cs.len()
        invariant
            start <= i <= cs@.len(),
            start < cs@.len(),
            cs@ == s@,
            d == cs@.skip(start as int),
            d == (if s@.len() > 0 && s@[0] == '+' {
                s@.drop_first()
            } else {
                s@
            }),
            all_digits(d.take(i - start)),
            acc as nat == digits_value(d.take(i - start)),
        decreases cs@.len() - i,
    {
        let ghost p = d.take(i - start);
        let ghost q = d.take(i + 1 - start);
        assert(q.drop_last() =~= p);
        assert(q.last() == cs@[i as int]);
        match digit_value_of(cs[i]) {
            None => {
                assert(!all_digits(d)) by {
                    assert(d[i - start] == cs@[i as int]);
                }
                return None;
            },
            Some(v) => {
                match acc.checked_mul(10) {
                    None => {
                        proof {
                            assert(digits_value(q) == digits_value(p) * 10 + v);
                            lemma_digits_value_monotone(d, i + 1 - start);
                        }
                        return None;
                    },
                    Some(m) => match m.checked_add(v) {
                        None => {
                            proof {
                                assert(digits_value(q) == digits_value(p) * 10 + v);
                                lemma_digits_value_monotone(d, i + 1 - start);
                            }
                            return None;
                        },
                        Some(a) => {
                            acc = a;
                            proof {
                                assert(digits_value(q) == digits_value(p) * 10 + v);
                                assert forall|k: int| 0 <= k < q.len() implies (#[trigger] digit_value(
                                    q[k],
                                )) is Some by {
                                    if k < p.len() {
                                        assert(q[k] == p[k]);
                                    }
                                }
                            }
                        },
                    },
                }
            },
        }
        i = i + 1;
    }
    assert(d.take(i - start) =~= d);
    Some(acc)
}

// ---------------------------------------------------------------------
// Joining
// ---------------------------------------------------------------------

/// The pieces of `list` with `sep` between each two (`[T]::join`).
pub open spec fn join_with(list: Seq<Seq<char>>, sep: Seq<char>) -> Seq<char>
    decreases list.len(),
{
    if list.len() == 0 {
        seq![]
    } else if list.len() == 1 {
        list[0]
    } else {
        join_with(list.drop_last(), sep) + sep + list.last()
    }
}

/// Appends the strings of `list` joined by `sep`.
pub fn append_joined(out: &mut String, list: &[String], sep: &str)
    ensures
        final(out)@ == old(out)@ + join_with(list@.map_values(|v: String| v@), sep@),
{
    let ghost views = list@.map_values(|v: String| v@);
    let ghost start = out@;
    let mut i: usize = 0;
    while i < list.len()
        invariant
            i <= list@.len(),
            views == list@.map_values(|v: String| v@),
            out@ == start + join_with(views.take(i as int), sep@),
        decreases list@.len() - i,
    {
        if i != 0 {
            out.append(sep);
        }
        out.append(list[i].as_str());
        proof {
            assert(views.take(i + 1).drop_last() =~= views.take(i as int));
            if i == 0 {
                assert(views.take(0) =~= Seq::<Seq<char>>::empty());
            }
            assert(out@ =~= start + join_with(views.take(i + 1), sep@));
        }
        i = i + 1;
    }
    assert(views.take(list@.len() as int) =~= views);
}

} // verus!

verus! {

/// A copy of `cs[from..to]`.
pub fn sub_chars(cs: &Vec<char>, from: usize, to: usize) -> (r: Vec<char>)
    requires
        from <= to <= cs@.len(),
    ensures
        r@ == cs@.subrange(from as int, to as int),
{
    let mut r: Vec<char> = Vec::new();
    let mut i: usize = from;
    while i < to
        invariant
            from <= i <= to <= cs@.len(),
            r@ == cs@.subrange(from as int, i as int),
        decreases to - i,
    {
        r.push(cs[i]);
        i = i + 1;
        assert(r@ =~= cs@.subrange(from as int, i as int));
    }
    r
}

} // verus!

verus! {

/// The characters that `String::from_utf8_lossy` decodes from `bytes`.
pub uninterp spec fn utf8_lossy(bytes: Seq<u8>) -> Seq<char>;

/// `String::from_utf8_lossy`: the text that `bytes` encode in UTF-8, each
/// invalid sequence replaced by U+FFFD. Only that the result is a function
/// of the bytes is stated; the decoding itself is not.
#[verifier::external_body]
pub(crate) fn decode_lossy(bytes: &[u8]) -> (s: String)
    ensures
        s@ == utf8_lossy(bytes@),
{
    String::from_utf8_lossy(bytes).into_owned()
}

} // verus!
