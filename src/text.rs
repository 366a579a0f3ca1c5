//! Text comparison used by the engine: exact equality of identifiers and the
//! case-insensitive substring match used to find items by name.
use vstd::prelude::*;
use vstd::string::StrSliceExecFns;

verus! {

/// `needle` occurs in `hay` as a contiguous run of characters.
pub open spec fn seq_contains(hay: Seq<char>, needle: Seq<char>) -> bool {
    exists|i: int|
        0 <= i && i + needle.len() <= hay.len() && #[trigger] hay.subrange(i, i + needle.len())
            == needle
}

/// The lower-case form of a text, as Rust's Unicode case mapping gives it.
pub uninterp spec fn lower_of(s: Seq<char>) -> Seq<char>;

/// A name matches a query when the lower-cased query occurs in the
/// lower-cased name.
pub open spec fn name_matches(name: Seq<char>, query: Seq<char>) -> bool {
    seq_contains(lower_of(name), lower_of(query))
}

/// Relies on `str::to_lowercase`: its result depends on the characters alone.
#[verifier::external_body]
pub(crate) fn lowercase(s: &str) -> (r: String)
    ensures
        r@ == lower_of(s@),
{
    s.to_lowercase()
}

/// Character-by-character equality of two texts.
pub fn text_eq(a: &str, b: &str) -> (r: bool)
    ensures
        r == (a@ == b@),
{
    let n = a.unicode_len();
    if n != b.unicode_len() {
        return false;
    }
    let mut i: usize = 0;
    while i < n
        invariant
            n == a@.len(),
            n == b@.len(),
            i <= n,
            forall|j: int| 0 <= j < i ==> a@[j] == b@[j],
        decreases n - i,
    {
        if a.get_char(i) != b.get_char(i) {
            return false;
        }
        i = i + 1;
    }
    assert(a@ =~= b@);
    true
}

/// Whether `needle` occurs in `hay`, both taken exactly as given.
pub fn contains_text(hay: &str, needle: &str) -> (r: bool)
    ensures
        r == seq_contains(hay@, needle@),
{
    let n = hay.unicode_len();
    let m = needle.unicode_len();
    if m > n {
        assert forall|i: int|
            0 <= i && i + needle@.len() <= hay@.len() implies #[trigger] hay@.subrange(
            i,
            i + needle@.len(),
        ) != needle@ by {}
        return false;
    }
    let mut start: usize = 0;
    while start <= n - m
        invariant
            n == hay@.len(),
            m == needle@.len(),
            m <= n,
            start <= n - m + 1,
            forall|i: int|
                0 <= i < start ==> #[trigger] hay@.subrange(i, i + m as int) != needle@,
        decreases n - m + 1 - start,
    {
        let mut k: usize = 0;
        let mut same = true;
        while k < m
            invariant
                n == hay@.len(),
                m == needle@.len(),
                start + m <= n,
                k <= m,
                same == (forall|j: int| 0 <= j < k ==> hay@[start + j] == needle@[j]),
            decreases m - k,
        {
            if hay.get_char(start + k) != needle.get_char(k) {
                same = false;
            }
            k = k + 1;
        }
        if same {
            assert(hay@.subrange(start as int, start + m as int) =~= needle@);
            return true;
        }
        assert(hay@.subrange(start as int, start + m as int)[k as int - 1] == hay@[start + k - 1]) by {
            if m == 0 {
                assert(false);
            }
        };
        start = start + 1;
    }
    false
}

/// Case-insensitive substring match of a query against a name.
pub fn name_contains(name: &str, query: &str) -> (r: bool)
    ensures
        r == name_matches(name@, query@),
{
    let lname = lowercase(name);
    let lquery = lowercase(query);
    contains_text(lname.as_str(), lquery.as_str())
}

} // verus!
