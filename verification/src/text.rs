//! Text primitives for matching file names: case folding, substring
//! containment and file stems.

use vstd::prelude::*;
use vstd::string::{StrSliceExecFns, StringSliceAdditionalSpecFns};
use vstd::utf8::{decode_utf8, encode_utf8, encode_utf8_decode_utf8};

verus! {

/// The lowercase form of a non-empty text, as `str::to_lowercase` computes it.
pub uninterp spec fn lowercase(text: Seq<char>) -> Seq<char>;

/// The lowercase form of `text`. The empty text is its own lowercase form.
pub open spec fn lowered(text: Seq<char>) -> Seq<char> {
    if text.len() == 0 {
        Seq::empty()
    } else {
        lowercase(text)
    }
}

/// Whether `needle` occurs in `haystack` as a contiguous run of characters.
pub open spec fn occurs_in(needle: Seq<char>, haystack: Seq<char>) -> bool {
    exists|start: int|
        0 <= start <= haystack.len() - needle.len() && #[trigger] haystack.subrange(
            start,
            start + needle.len(),
        ) == needle
}

/// The position of the last `.` in `name`, or -1 where it holds none.
pub open spec fn last_dot(name: Seq<char>) -> int
    decreases name.len(),
{
    if name.len() == 0 {
        -1
    } else if name.last() == '.' {
        name.len() - 1
    } else {
        last_dot(name.drop_last())
    }
}

/// The stem of a file name: the name without its final extension.
///
/// The extension is what follows the last `.` of the name, and it goes
/// together with that `.`. A name without a `.` is its own stem.
pub open spec fn stem(name: Seq<char>) -> Seq<char> {
    if last_dot(name) >= 0 {
        name.take(last_dot(name))
    } else {
        name
    }
}

/// `last_dot` is the position of a `.` after which no other `.` follows.
pub proof fn lemma_last_dot(name: Seq<char>)
    ensures
        -1 <= last_dot(name) < name.len(),
        last_dot(name) >= 0 ==> name[last_dot(name)] == '.',
        forall|i: int| last_dot(name) < i < name.len() ==> name[i] != '.',
    decreases name.len(),
{
    if name.len() > 0 && name.last() != '.' {
        lemma_last_dot(name.drop_last());
        assert forall|i: int| last_dot(name) < i < name.len() implies name[i] != '.' by {
            if i < name.len() - 1 {
                assert(name.drop_last()[i] != '.');
            }
        }
    }
}

/// The stem of the file name `name`.
pub fn file_stem(name: &str) -> (stem_text: &str)
    ensures
        stem_text@ == stem(name@),
{
    let total = name.unicode_len();
    let mut seen: usize = 0;
    let mut dot: Option<usize> = None;
    assert(name@.take(0) =~= Seq::<char>::empty());
    for c in it: name.chars()
        invariant
            it.seq() == name@,
            total == name@.len(),
            seen == it.index(),
            seen <= total,
            match dot {
                Some(at) => at == last_dot(name@.take(seen as int)),
                None => last_dot(name@.take(seen as int)) == -1,
            },
    {
        assert(name@.take(seen + 1).drop_last() =~= name@.take(seen as int));
        if c == '.' {
            dot = Some(seen);
        }
        seen += 1;
    }
    assert(name@.take(total as int) =~= name@);
    match dot {
        Some(at) => {
            proof {
                lemma_last_dot(name@);
            }
            name.substring_char(0, at)
        },
        None => name,
    }
}

/// Whether the two texts are the same sequence of characters.
pub fn same_text(first: &str, second: &str) -> (same: bool)
    ensures
        same == (first@ == second@),
{
    let left = first.as_bytes();
    let right = second.as_bytes();
    proof {
        encode_utf8_decode_utf8(first@);
        encode_utf8_decode_utf8(second@);
    }
    if left.len() != right.len() {
        return false;
    }
    let mut i: usize = 0;
    while i < left.len()
        invariant
            i <= left.len(),
            left.len() == right.len(),
            left@ == encode_utf8(first@),
            right@ == encode_utf8(second@),
            decode_utf8(encode_utf8(first@)) == first@,
            decode_utf8(encode_utf8(second@)) == second@,
            forall|j: int| 0 <= j < i ==> left@[j] == right@[j],
        decreases left.len() - i,
    {
        if left[i] != right[i] {
            return false;
        }
        i += 1;
    }
    assert(left@ =~= right@);
    true
}

/// Whether the two texts have the same lowercase form.
pub fn same_ignoring_case(first: &str, second: &str) -> (same: bool)
    ensures
        same == (lowered(first@) == lowered(second@)),
{
    let left = to_lowercase(first);
    let right = to_lowercase(second);
    same_text(left.as_str(), right.as_str())
}

/// Wraps `str::to_lowercase`, which maps every character to its Unicode
/// lowercase equivalent. The mapping is not spelled out here: the result on
/// a non-empty text is only named, as `lowercase`, so two calls on equal
/// texts agree. The lowercase form of the empty text is empty.
#[verifier::external_body]
pub(crate) fn to_lowercase(text: &str) -> (folded: String)
    ensures
        text@.len() == 0 ==> folded@ == Seq::<char>::empty(),
        text@.len() > 0 ==> folded@ == lowercase(text@),
{
    text.to_lowercase()
}

/// Wraps `str::contains` for a string pattern: true exactly when the pattern
/// is a substring of the haystack.
#[verifier::external_body]
pub(crate) fn contains(haystack: &str, needle: &str) -> (found: bool)
    ensures
        found == occurs_in(needle@, haystack@),
{
    haystack.contains(needle)
}

} // verus!
