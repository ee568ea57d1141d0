//! Characters of a text: white space, trimming, and prefixes.
//!
//! Every position in this module counts characters, never bytes.

use vstd::prelude::*;
use vstd::std_specs::iter::IteratorSpec;

verus! {

/// Whether `c` has the Unicode property `White_Space`.
pub open spec fn is_space(c: char) -> bool {
    let n = c as u32;
    ||| 0x09 <= n <= 0x0D
    ||| n == 0x20
    ||| n == 0x85
    ||| n == 0xA0
    ||| n == 0x1680
    ||| 0x2000 <= n <= 0x200A
    ||| n == 0x2028
    ||| n == 0x2029
    ||| n == 0x202F
    ||| n == 0x205F
    ||| n == 0x3000
}

/// The first position at or after `i` that holds no white space, or the
/// length of `s` where only white space follows.
pub open spec fn skip_space(s: Seq<char>, i: int) -> int
    decreases s.len() - i,
{
    if 0 <= i < s.len() && is_space(s[i]) {
        skip_space(s, i + 1)
    } else {
        i
    }
}

/// The end of `s[lo..j]` once the white space at its end is taken away.
pub open spec fn drop_space(s: Seq<char>, lo: int, j: int) -> int
    decreases j,
{
    if lo < j <= s.len() && 0 < j && is_space(s[j - 1]) {
        drop_space(s, lo, j - 1)
    } else {
        j
    }
}

/// `s` without the white space at its two ends.
pub open spec fn trimmed(s: Seq<char>) -> Seq<char> {
    let a = skip_space(s, 0);
    s.subrange(a, drop_space(s, a, s.len() as int))
}

/// Whether `pat` stands in `s` at position `i`.
pub open spec fn occurs_at(s: Seq<char>, pat: Seq<char>, i: int) -> bool {
    &&& 0 <= i
    &&& i + pat.len() <= s.len()
    &&& s.subrange(i, i + pat.len()) == pat
}

/// Whether `c` is a white space character.
pub fn is_whitespace(c: char) -> (b: bool)
    ensures
        b == is_space(c),
{
    let n: u32 = c as u32;
    (0x09 <= n && n <= 0x0D) || n == 0x20 || n == 0x85 || n == 0xA0 || n == 0x1680 || (0x2000 <= n
        && n <= 0x200A) || n == 0x2028 || n == 0x2029 || n == 0x202F || n == 0x205F || n == 0x3000
}

/// The characters of `text`, in order.
pub fn chars_of(text: &str) -> (chars: Vec<char>)
    ensures
        chars@ == text@,
{
    broadcast use vstd::string::group_string_axioms;

    let mut chars: Vec<char> = Vec::new();
    let mut rest = text.chars();
    loop
        invariant
            chars@ + rest.remaining() == text@,
            rest.decrease() is Some,
        ensures
            chars@ == text@,
        decreases rest.decrease()->0,
    {
        match rest.next() {
            Some(c) => {
                chars.push(c);
            },
            None => {
                break ;
            },
        }
    }
    chars
}

/// The first position at or after `from` that holds no white space.
pub fn skip_whitespace(chars: &Vec<char>, from: usize) -> (i: usize)
    ensures
        i == skip_space(chars@, from as int),
        from <= i,
        from <= chars.len() ==> i <= chars.len(),
{
    let n = chars.len();
    let mut i = from;
    while i < n && is_whitespace(chars[i])
        invariant
            n == chars.len(),
            from <= i,
            from <= n ==> i <= n,
            skip_space(chars@, i as int) == skip_space(chars@, from as int),
        decreases n - i,
    {
        i += 1;
    }
    i
}

/// The end of `chars[lo..hi]` once the white space at its end is taken away.
pub fn drop_whitespace(chars: &Vec<char>, lo: usize, hi: usize) -> (j: usize)
    ensures
        j == drop_space(chars@, lo as int, hi as int),
        j <= hi,
        lo <= hi ==> lo <= j,
{
    let n = chars.len();
    let mut j = hi;
    while lo < j && j <= n && is_whitespace(chars[j - 1])
        invariant
            n == chars.len(),
            j <= hi,
            lo <= hi ==> lo <= j,
            drop_space(chars@, lo as int, j as int) == drop_space(chars@, lo as int, hi as int),
        decreases j,
    {
        j -= 1;
    }
    j
}

/// `text` without the white space at its two ends.
pub fn trim<'a>(text: &'a str) -> (r: &'a str)
    ensures
        r@ == trimmed(text@),
{
    let chars = chars_of(text);
    let a = skip_whitespace(&chars, 0);
    let b = drop_whitespace(&chars, a, chars.len());
    text.substring_char(a, b)
}

/// Whether `pat` stands in `chars` at position `at`.
pub fn matches_at(chars: &Vec<char>, pat: &Vec<char>, at: usize) -> (b: bool)
    ensures
        b == occurs_at(chars@, pat@, at as int),
{
    let n = chars.len();
    let m = pat.len();
    if at > n || m > n - at {
        return false;
    }
    let mut k: usize = 0;
    while k < m
        invariant
            n == chars.len(),
            m == pat.len(),
            at + m <= n,
            k <= m,
            forall|x: int| 0 <= x < k ==> chars@[at + x] == pat@[x],
        decreases m - k,
    {
        if chars[at + k] != pat[k] {
            return false;
        }
        k += 1;
    }
    assert(chars@.subrange(at as int, at + m) =~= pat@);
    true
}

/// What trimming keeps and what it takes away: `trimmed(s)` is the part of
/// `s` between two runs of white space that reach the ends of `s`, and it
/// neither begins nor ends with white space.
pub proof fn lemma_trimmed(s: Seq<char>)
    ensures
        ({
            let a = skip_space(s, 0);
            let b = drop_space(s, a, s.len() as int);
            &&& 0 <= a <= b <= s.len()
            &&& trimmed(s) == s.subrange(a, b)
            &&& forall|i: int| 0 <= i < a ==> is_space(#[trigger] s[i])
            &&& forall|i: int| b <= i < s.len() ==> is_space(#[trigger] s[i])
            &&& a < b ==> !is_space(s[a]) && !is_space(s[b - 1])
        }),
{
    lemma_skip_space(s, 0);
    let a = skip_space(s, 0);
    lemma_drop_space(s, a, s.len() as int);
}

/// `skip_space` steps over white space only, and stops at the first
/// character that is none.
pub proof fn lemma_skip_space(s: Seq<char>, i: int)
    requires
        0 <= i <= s.len(),
    ensures
        i <= skip_space(s, i) <= s.len(),
        forall|k: int| i <= k < skip_space(s, i) ==> is_space(#[trigger] s[k]),
        skip_space(s, i) < s.len() ==> !is_space(s[skip_space(s, i)]),
    decreases s.len() - i,
{
    if i < s.len() && is_space(s[i]) {
        lemma_skip_space(s, i + 1);
    }
}

/// `drop_space` steps back over white space only, never below `lo`, and
/// stops behind the last character that is none.
pub proof fn lemma_drop_space(s: Seq<char>, lo: int, j: int)
    requires
        0 <= lo <= j <= s.len(),
    ensures
        lo <= drop_space(s, lo, j) <= j,
        forall|k: int| drop_space(s, lo, j) <= k < j ==> is_space(#[trigger] s[k]),
        lo < drop_space(s, lo, j) ==> !is_space(s[drop_space(s, lo, j) - 1]),
    decreases j,
{
    if lo < j && is_space(s[j - 1]) {
        lemma_drop_space(s, lo, j - 1);
    }
}

} // verus!
