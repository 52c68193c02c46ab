//! Character-level text helpers: whitespace trimming, character search,
//! delimiter splitting, and decimal rendering of line numbers.

use vstd::prelude::*;

verus! {

/// The characters with the Unicode `White_Space` property, i.e. the
/// characters that trimming removes.
pub open spec fn is_space(c: char) -> bool {
    c == ' ' || c == '\t' || c == '\n' || c == '\r' || c == '\u{b}' || c == '\u{c}'
        || c == '\u{85}' || c == '\u{a0}' || c == '\u{1680}' || c == '\u{2000}' || c == '\u{2001}'
        || c == '\u{2002}' || c == '\u{2003}' || c == '\u{2004}' || c == '\u{2005}'
        || c == '\u{2006}' || c == '\u{2007}' || c == '\u{2008}' || c == '\u{2009}'
        || c == '\u{200a}' || c == '\u{2028}' || c == '\u{2029}' || c == '\u{202f}'
        || c == '\u{205f}' || c == '\u{3000}'
}

/// Whether some character of `s` is whitespace.
pub open spec fn has_space(s: Seq<char>) -> bool {
    exists|j: int| 0 <= j < s.len() && is_space(s[j])
}

/// `s` without its leading whitespace.
pub open spec fn trim_start(s: Seq<char>) -> Seq<char>
    decreases s.len(),
{
    if s.len() > 0 && is_space(s[0]) {
        trim_start(s.drop_first())
    } else {
        s
    }
}

/// `s` without its trailing whitespace.
pub open spec fn trim_end(s: Seq<char>) -> Seq<char>
    decreases s.len(),
{
    if s.len() > 0 && is_space(s.last()) {
        trim_end(s.drop_last())
    } else {
        s
    }
}

/// `s` without leading and trailing whitespace.
pub open spec fn trim(s: Seq<char>) -> Seq<char> {
    trim_end(trim_start(s))
}

/// Decides whitespace exactly as `is_space` describes it.
pub fn is_space_char(c: char) -> (r: bool)
    ensures
        r == is_space(c),
{
    c == ' ' || c == '\t' || c == '\n' || c == '\r' || c == '\u{b}' || c == '\u{c}'
        || c == '\u{85}' || c == '\u{a0}' || c == '\u{1680}' || c == '\u{2000}' || c == '\u{2001}'
        || c == '\u{2002}' || c == '\u{2003}' || c == '\u{2004}' || c == '\u{2005}'
        || c == '\u{2006}' || c == '\u{2007}' || c == '\u{2008}' || c == '\u{2009}'
        || c == '\u{200a}' || c == '\u{2028}' || c == '\u{2029}' || c == '\u{202f}'
        || c == '\u{205f}' || c == '\u{3000}'
}

/// When the first `a` characters of `s` are whitespace and the character at
/// `a` (if any) is not, trimming from the start keeps exactly `s[a..]`.
proof fn lemma_trim_start_subrange(s: Seq<char>, a: int)
    requires
        0 <= a <= s.len(),
        forall|j: int| 0 <= j < a ==> is_space(s[j]),
        a < s.len() ==> !is_space(s[a]),
    ensures
        trim_start(s) == s.subrange(a, s.len() as int),
    decreases a,
{
    if a == 0 {
        assert(s.subrange(0, s.len() as int) =~= s);
    } else {
        let s2 = s.drop_first();
        lemma_trim_start_subrange(s2, a - 1);
        assert(s2.subrange(a - 1, s2.len() as int) =~= s.subrange(a, s.len() as int));
    }
}

/// When the characters of `s` from `b` on are whitespace and the character
/// at `b - 1` (if any) is not, trimming from the end keeps exactly `s[..b]`.
proof fn lemma_trim_end_subrange(s: Seq<char>, b: int)
    requires
        0 <= b <= s.len(),
        forall|j: int| b <= j < s.len() ==> is_space(s[j]),
        b > 0 ==> !is_space(s[b - 1]),
    ensures
        trim_end(s) == s.subrange(0, b),
    decreases s.len(),
{
    if b == s.len() {
        assert(s.subrange(0, b) =~= s);
    } else {
        let s2 = s.drop_last();
        lemma_trim_end_subrange(s2, b);
        assert(s2.subrange(0, b) =~= s.subrange(0, b));
    }
}

/// Returns `s` with leading and trailing whitespace removed, as an owned
/// string.
pub fn trim_str(s: &str) -> (r: String)
    ensures
        r@ == trim(s@),
{
    let n = s.unicode_len();
    let mut a: usize = 0;
    while a < n && is_space_char(s.get_char(a))
        invariant
            n == s@.len(),
            0 <= a <= n,
            forall|j: int| 0 <= j < a ==> is_space(s@[j]),
        decreases n - a,
    {
        a = a + 1;
    }
    if a == n {
        proof {
            lemma_trim_start_subrange(s@, a as int);
            assert(s@.subrange(n as int, n as int) =~= Seq::<char>::empty());
        }
        return String::new();
    }
    let mut b: usize = n;
    while b > a && is_space_char(s.get_char(b - 1))
        invariant
            n == s@.len(),
            a <= b <= n,
            a < n && !is_space(s@[a as int]),
            forall|j: int| b <= j < n ==> is_space(s@[j]),
        decreases b,
    {
        b = b - 1;
    }
    proof {
        assert(b > a);
        lemma_trim_start_subrange(s@, a as int);
        lemma_trim_end_subrange(s@.subrange(a as int, n as int), (b - a) as int);
        assert(s@.subrange(a as int, n as int).subrange(0, (b - a) as int) =~= s@.subrange(
            a as int,
            b as int,
        ));
    }
    String::from_str(s.substring_char(a, b))
}

/// The index of the first occurrence of `c` in `s`, if any.
pub open spec fn find_char(s: Seq<char>, c: char) -> Option<int>
    decreases s.len(),
{
    if s.len() == 0 {
        None
    } else if s[0] == c {
        Some(0)
    } else {
        match find_char(s.drop_first(), c) {
            None => None,
            Some(i) => Some(i + 1),
        }
    }
}

/// What `find_char` returns: the found index is the first position holding
/// `c`, and a `None` means `c` occurs nowhere in `s`.
pub proof fn lemma_find_char_props(s: Seq<char>, c: char)
    ensures
        match find_char(s, c) {
            Some(i) => 0 <= i < s.len() && s[i] == c && forall|j: int| 0 <= j < i ==> s[j] != c,
            None => forall|j: int| 0 <= j < s.len() ==> s[j] != c,
        },
    decreases s.len(),
{
    if s.len() > 0 && s[0] != c {
        let s2 = s.drop_first();
        lemma_find_char_props(s2, c);
        assert(forall|j: int| 1 <= j < s.len() ==> s[j] == s2[j - 1]);
    }
}

/// If `c` stands at `i` and nowhere earlier, then `find_char` finds `i`.
proof fn lemma_find_char_some(s: Seq<char>, c: char, i: int)
    requires
        0 <= i < s.len(),
        s[i] == c,
        forall|j: int| 0 <= j < i ==> s[j] != c,
    ensures
        find_char(s, c) == Some(i),
    decreases i,
{
    if i > 0 {
        lemma_find_char_some(s.drop_first(), c, i - 1);
    }
}

/// If `c` occurs nowhere in `s`, then `find_char` finds nothing.
proof fn lemma_find_char_none(s: Seq<char>, c: char)
    requires
        forall|j: int| 0 <= j < s.len() ==> s[j] != c,
    ensures
        find_char(s, c) is None,
    decreases s.len(),
{
    if s.len() > 0 {
        lemma_find_char_none(s.drop_first(), c);
    }
}

/// Returns the index of the first occurrence of `c` in `s`, if any.
pub fn find_in_str(s: &str, c: char) -> (r: Option<usize>)
    ensures
        match r {
            Some(i) => find_char(s@, c) == Some(i as int),
            None => find_char(s@, c) is None,
        },
{
    let n = s.unicode_len();
    let mut k: usize = 0;
    while k < n
        invariant
            n == s@.len(),
            0 <= k <= n,
            forall|j: int| 0 <= j < k ==> s@[j] != c,
        decreases n - k,
    {
        if s.get_char(k) == c {
            proof {
                lemma_find_char_some(s@, c, k as int);
            }
            return Some(k);
        }
        k = k + 1;
    }
    proof {
        lemma_find_char_none(s@, c);
    }
    None
}

/// How many times `c` occurs in `s`.
pub open spec fn count_char(s: Seq<char>, c: char) -> nat
    decreases s.len(),
{
    if s.len() == 0 {
        0
    } else {
        (if s[0] == c {
            1nat
        } else {
            0nat
        }) + count_char(s.drop_first(), c)
    }
}

/// Counting occurrences distributes over splitting `s` at any position.
proof fn lemma_count_char_parts(s: Seq<char>, c: char, k: int)
    requires
        0 <= k <= s.len(),
    ensures
        count_char(s, c) == count_char(s.subrange(0, k), c) + count_char(
            s.subrange(k, s.len() as int),
            c,
        ),
    decreases k,
{
    if k == 0 {
        assert(s.subrange(0, 0) =~= Seq::<char>::empty());
        assert(s.subrange(0, s.len() as int) =~= s);
    } else {
        let s2 = s.drop_first();
        lemma_count_char_parts(s2, c, k - 1);
        assert(s2.subrange(k - 1, s2.len() as int) =~= s.subrange(k, s.len() as int));
        assert(s.subrange(0, k).drop_first() =~= s2.subrange(0, k - 1));
        assert(s.subrange(0, k).len() > 0);
        assert(s.subrange(0, k)[0] == s[0]);
    }
}

/// A sequence in which `c` does not occur has an occurrence count of zero.
proof fn lemma_count_char_absent(s: Seq<char>, c: char)
    requires
        forall|j: int| 0 <= j < s.len() ==> s[j] != c,
    ensures
        count_char(s, c) == 0,
    decreases s.len(),
{
    if s.len() > 0 {
        lemma_count_char_absent(s.drop_first(), c);
    }
}

/// The tokens of `s` split on delimiter `d`, each trimmed.  A sequence
/// without the delimiter yields one token; every delimiter starts a new
/// token, so adjacent delimiters contribute empty tokens.
pub open spec fn split_trimmed(s: Seq<char>, d: char) -> Seq<Seq<char>>
    decreases s.len(),
    via split_trimmed_decreases
{
    match find_char(s, d) {
        None => seq![trim(s)],
        Some(i) => seq![trim(s.subrange(0, i))] + split_trimmed(
            s.subrange(i + 1, s.len() as int),
            d,
        ),
    }
}

#[via_fn]
proof fn split_trimmed_decreases(s: Seq<char>, d: char) {
    lemma_find_char_props(s, d);
}

/// Splitting yields exactly one token more than there are delimiters.
pub proof fn lemma_split_trimmed_count(s: Seq<char>, d: char)
    ensures
        split_trimmed(s, d).len() == count_char(s, d) + 1,
    decreases s.len(),
{
    lemma_find_char_props(s, d);
    match find_char(s, d) {
        None => {
            lemma_count_char_absent(s, d);
        },
        Some(i) => {
            let tail = s.subrange(i + 1, s.len() as int);
            lemma_split_trimmed_count(tail, d);
            lemma_count_char_parts(s, d, i);
            lemma_count_char_absent(s.subrange(0, i), d);
            let right = s.subrange(i, s.len() as int);
            assert(right[0] == d);
            assert(right.drop_first() =~= tail);
        },
    }
}

/// Returns the trimmed tokens of `s` split on delimiter `d`.
pub fn split_trimmed_str(s: &str, d: char) -> (r: Vec<String>)
    ensures
        r.deep_view() == split_trimmed(s@, d),
    decreases s@.len(),
{
    proof {
        lemma_find_char_props(s@, d);
    }
    match find_in_str(s, d) {
        None => {
            let mut v: Vec<String> = Vec::new();
            v.push(trim_str(s));
            proof {
                assert(v.deep_view() =~= split_trimmed(s@, d));
            }
            v
        },
        Some(i) => {
            let n = s.unicode_len();
            let first = trim_str(s.substring_char(0, i));
            let mut v = split_trimmed_str(s.substring_char(i + 1, n), d);
            v.insert(0, first);
            proof {
                assert(v.deep_view() =~= split_trimmed(s@, d));
            }
            v
        },
    }
}

/// The digit character for a value below ten.
pub open spec fn dec_digit(n: nat) -> char {
    if n == 0 {
        '0'
    } else if n == 1 {
        '1'
    } else if n == 2 {
        '2'
    } else if n == 3 {
        '3'
    } else if n == 4 {
        '4'
    } else if n == 5 {
        '5'
    } else if n == 6 {
        '6'
    } else if n == 7 {
        '7'
    } else if n == 8 {
        '8'
    } else {
        '9'
    }
}

/// The decimal rendering of `n`, most significant digit first, with no
/// leading zeros (a lone `'0'` for zero).
pub open spec fn dec_str(n: nat) -> Seq<char>
    decreases n,
{
    if n < 10 {
        seq![dec_digit(n)]
    } else {
        dec_str(n / 10) + seq![dec_digit(n % 10)]
    }
}

/// Returns the digit character of a value below ten.
fn digit_literal(n: usize) -> (r: &'static str)
    requires
        n < 10,
    ensures
        r@ == seq![dec_digit(n as nat)],
{
    let r: &'static str = if n == 0 {
        "0"
    } else if n == 1 {
        "1"
    } else if n == 2 {
        "2"
    } else if n == 3 {
        "3"
    } else if n == 4 {
        "4"
    } else if n == 5 {
        "5"
    } else if n == 6 {
        "6"
    } else if n == 7 {
        "7"
    } else if n == 8 {
        "8"
    } else {
        "9"
    };
    proof {
        reveal_strlit("0");
        reveal_strlit("1");
        reveal_strlit("2");
        reveal_strlit("3");
        reveal_strlit("4");
        reveal_strlit("5");
        reveal_strlit("6");
        reveal_strlit("7");
        reveal_strlit("8");
        reveal_strlit("9");
        assert(r@ =~= seq![dec_digit(n as nat)]);
    }
    r
}

/// Returns the decimal rendering of `n`.
pub fn usize_to_string(n: usize) -> (r: String)
    ensures
        r@ == dec_str(n as nat),
    decreases n,
{
    if n < 10 {
        String::from_str(digit_literal(n))
    } else {
        assert(n / 10 < n && n % 10 < 10) by (nonlinear_arith)
            requires
                n >= 10,
        ;
        let mut r = usize_to_string(n / 10);
        r.append(digit_literal(n % 10));
        r
    }
}

} // verus!
