//! The text of an annotation: the marker that makes a documentation comment
//! an annotation, the label, and the block of fields that may close it.
//!
//! An annotation reads `SPANDOC: label {fields}`. The block of fields is
//! found from the end of the text by counting braces, so that fields may
//! hold braces of their own. Every position counts characters.

use crate::text::{chars_of, matches_at, occurs_at, trim, trimmed};
use core::ops::Range;
use vstd::prelude::*;

verus! {

/// What a closing brace adds to the depth, and what an opening one takes.
pub open spec fn brace_weight(c: char) -> int {
    if c == '}' {
        1
    } else if c == '{' {
        -1
    } else {
        0
    }
}

/// The closing braces of `s[i..]` minus its opening braces.
pub open spec fn depth_from(s: Seq<char>, i: int) -> int
    decreases s.len() - i,
{
    if 0 <= i < s.len() {
        brace_weight(s[i]) + depth_from(s, i + 1)
    } else {
        0
    }
}

/// The last position at or before `i` from which the braces of `s` balance.
pub open spec fn balance_before(s: Seq<char>, i: int) -> Option<int>
    decreases i + 1,
{
    if i < 0 || i >= s.len() {
        None
    } else if depth_from(s, i) == 0 {
        Some(i)
    } else {
        balance_before(s, i - 1)
    }
}

/// Where the block of fields that closes `s` begins: `s` ends in a closing
/// brace, and this is the last position from which the braces balance.
pub open spec fn block_start(s: Seq<char>) -> Option<int> {
    if s.len() > 0 && s.last() == '}' {
        balance_before(s, s.len() - 1)
    } else {
        None
    }
}

/// The label and the fields of `s`. Without a closing block of fields the
/// label is all of `s`; with one, the label is what stands before the block,
/// trimmed, and the fields are what stands between its outer braces.
pub open spec fn split_text(s: Seq<char>) -> (Seq<char>, Option<Seq<char>>) {
    match block_start(s) {
        Some(i) => (trimmed(s.subrange(0, i)), Some(s.subrange(i + 1, s.len() - 1))),
        None => (s, None),
    }
}

/// The marker that opens an annotation, its one space included.
pub open spec fn marker() -> Seq<char> {
    seq!['S', 'P', 'A', 'N', 'D', 'O', 'C', ':', ' ']
}

/// What an annotation asks for.
#[derive(Debug, PartialEq, Eq)]
pub struct Directive {
    /// The text that names what the statement does.
    pub label: String,
    /// The fields to record with the scope, as source text.
    pub fields: Option<String>,
}

/// A [`Directive`] as plain values.
pub struct DirectiveView {
    pub label: Seq<char>,
    pub fields: Option<Seq<char>>,
}

/// The view of an optional text.
pub open spec fn text_view(text: Option<String>) -> Option<Seq<char>> {
    match text {
        Some(t) => Some(t@),
        None => None,
    }
}

impl View for Directive {
    type V = DirectiveView;

    open spec fn view(&self) -> DirectiveView {
        DirectiveView { label: self.label@, fields: text_view(self.fields) }
    }
}

impl Clone for Directive {
    fn clone(&self) -> (r: Self)
        ensures
            r@ == self@,
    {
        let fields = match &self.fields {
            Some(f) => Some(f.clone()),
            None => None,
        };
        Directive { label: self.label.clone(), fields }
    }
}

/// What the text of a documentation comment asks for. The text is trimmed;
/// it is an annotation where the marker then opens it. The marker is taken
/// away, once, and what follows it is split into label and fields as it
/// stands.
pub open spec fn directive_of(raw: Seq<char>) -> Option<DirectiveView> {
    let t = trimmed(raw);
    if occurs_at(t, marker(), 0) {
        let rest = t.subrange(marker().len() as int, t.len() as int);
        Some(DirectiveView { label: split_text(rest).0, fields: split_text(rest).1 })
    } else {
        None
    }
}

/// What the search for the start of the block finds: a position from which
/// the braces balance, with none such behind it up to `i`; or that there is
/// no such position up to `i`.
pub proof fn lemma_balance_before(s: Seq<char>, i: int)
    requires
        i < s.len(),
    ensures
        match balance_before(s, i) {
            Some(k) => {
                &&& 0 <= k <= i
                &&& depth_from(s, k) == 0
                &&& forall|j: int| k < j <= i ==> depth_from(s, j) != 0
            },
            None => forall|j: int| 0 <= j <= i ==> depth_from(s, j) != 0,
        },
    decreases i + 1,
{
    if 0 <= i && depth_from(s, i) != 0 {
        lemma_balance_before(s, i - 1);
    }
}

/// The block of fields of a text is its shortest end whose braces balance:
/// it begins with an opening brace, ends with the closing brace that ends
/// the text, and inside it every closing brace has its opening one.
pub proof fn lemma_block_start(s: Seq<char>)
    ensures
        match block_start(s) {
            Some(k) => {
                &&& 0 <= k < s.len() - 1
                &&& s[k] == '{'
                &&& s.last() == '}'
                &&& depth_from(s, k) == 0
                &&& forall|j: int| k < j < s.len() ==> depth_from(s, j) > 0
            },
            None => s.len() == 0 || s.last() != '}' || forall|j: int|
                0 <= j < s.len() ==> depth_from(s, j) > 0,
        },
{
    if s.len() > 0 && s.last() == '}' {
        let n = s.len() as int;
        lemma_balance_before(s, n - 1);
        assert(depth_from(s, n) == 0);
        let lo = match balance_before(s, n - 1) {
            Some(k) => k,
            None => -1,
        };
        lemma_depth_positive(s, lo, n - 1);
        if lo >= 0 {
            assert(depth_from(s, lo + 1) > 0);
        }
    }
}

/// Splitting loses nothing but the outer braces of the block of fields and
/// the white space around the label: a text with fields is what stands
/// before the block, an opening brace, the fields and a closing brace; a
/// text without fields is its label.
pub proof fn lemma_split_text(s: Seq<char>)
    ensures
        match split_text(s).1 {
            Some(fields) => exists|before: Seq<char>|
                {
                    &&& s == before + seq!['{'] + fields + seq!['}']
                    &&& split_text(s).0 == trimmed(before)
                },
            None => split_text(s).0 == s,
        },
{
    lemma_block_start(s);
    match block_start(s) {
        Some(k) => {
            let before = s.subrange(0, k);
            let fields = s.subrange(k + 1, s.len() - 1);
            assert(s =~= before + seq!['{'] + fields + seq!['}']);
        },
        None => {},
    }
}

/// Depths change by one at most from one position to the next, so a run of
/// depths that starts above zero and never is zero stays above zero.
proof fn lemma_depth_positive(s: Seq<char>, lo: int, hi: int)
    requires
        -1 <= lo <= hi < s.len(),
        depth_from(s, hi) > 0,
        forall|j: int| lo < j <= hi ==> depth_from(s, j) != 0,
    ensures
        forall|j: int| lo < j <= hi ==> depth_from(s, j) > 0,
    decreases hi - lo,
{
    if lo < hi - 1 {
        lemma_depth_positive(s, lo, hi - 1);
    }
}

/// The characters of the label and of the fields of `text`, where it closes
/// with a block of fields: the label's characters stand before the block,
/// the fields' between its outer braces.
pub fn get_ranges(text: &str) -> (r: Option<(Range<usize>, Range<usize>)>)
    ensures
        match r {
            Some((label, fields)) => {
                &&& block_start(text@) == Some(label.end as int)
                &&& label.start == 0
                &&& fields.start == label.end + 1
                &&& fields.end == text@.len() - 1
            },
            None => block_start(text@) is None,
        },
{
    let chars = chars_of(text);
    let n = chars.len();
    if n == 0 || chars[n - 1] != '}' {
        return None;
    }
    let mut ind: usize = n - 1;
    let mut depth: usize = 0;
    loop
        invariant
            n == chars.len(),
            chars@ == text@,
            chars@.last() == '}',
            ind < n,
            depth == depth_from(chars@, ind + 1),
            depth <= n - 1 - ind,
            forall|j: int| ind < j < n ==> depth_from(chars@, j) > 0,
        decreases ind,
    {
        let c = chars[ind];
        if c == '}' {
            depth += 1;
        } else if c == '{' {
            depth -= 1;
        }
        if depth == 0 {
            proof {
                lemma_balance_before(chars@, n - 1);
                assert(depth_from(chars@, ind as int) == 0);
            }
            return Some((0..ind, ind + 1..n - 1));
        }
        if ind == 0 {
            proof {
                lemma_balance_before(chars@, n - 1);
            }
            return None;
        }
        ind -= 1;
    }
}

/// The label of `text` and its fields.
pub fn split_str(text: &str) -> (r: (&str, Option<&str>))
    ensures
        r.0@ == split_text(text@).0,
        match r.1 {
            Some(fields) => split_text(text@).1 == Some(fields@),
            None => split_text(text@).1 is None,
        },
{
    match get_ranges(text) {
        Some((text_range, args_range)) => {
            proof {
                lemma_block_start(text@);
            }
            let args = text.substring_char(args_range.start, args_range.end);
            let label = trim(text.substring_char(text_range.start, text_range.end));
            (label, Some(args))
        },
        None => (text, None),
    }
}

/// What the text of a documentation comment asks for, if it is an
/// annotation.
pub fn split(text: &str) -> (r: Option<Directive>)
    ensures
        match r {
            Some(d) => directive_of(text@) == Some(d@),
            None => directive_of(text@) is None,
        },
{
    let body = trim(text);
    let chars = chars_of(body);
    let mark = chars_of("SPANDOC: ");
    proof {
        reveal_strlit("SPANDOC: ");
        assert(mark@ =~= marker());
    }
    if !matches_at(&chars, &mark, 0) {
        return None;
    }
    let (label, fields) = split_str(body.substring_char(mark.len(), chars.len()));
    let fields = match fields {
        Some(f) => Some(f.to_owned()),
        None => None,
    };
    Some(Directive { label: label.to_owned(), fields })
}

} // verus!
