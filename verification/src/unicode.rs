//! Character-level Unicode case conversion, wrapped so that the casing engine
//! can be specified over names for the case mappings.

use vstd::prelude::*;
use vstd::string::StrSliceExecFns;

verus! {

/// The full lowercase mapping of a character: the characters that
/// `char::to_lowercase` yields for it.
pub uninterp spec fn lower_char_of(c: char) -> Seq<char>;

/// The full uppercase mapping of a character: the characters that
/// `char::to_uppercase` yields for it.
pub uninterp spec fn upper_char_of(c: char) -> Seq<char>;

/// Whether a character has the Unicode property `Lowercase`.
pub uninterp spec fn is_lower_char(c: char) -> bool;

/// Whether a character has the Unicode property `Uppercase`.
pub uninterp spec fn is_upper_char(c: char) -> bool;

/// Relies on `char::to_lowercase`: the mapping depends on the character alone
/// and yields at least one character. Per the Unicode case tables, lowercasing
/// is idempotent: each character the mapping yields is its own lowercase
/// mapping.
#[verifier::external_body]
pub(crate) fn char_to_lower(c: char) -> (r: Vec<char>)
    ensures
        r@ == lower_char_of(c),
        r@.len() >= 1,
        forall|i: int| 0 <= i < r@.len() ==> #[trigger] lower_char_of(r@[i]) == seq![r@[i]],
{
    c.to_lowercase().collect()
}

/// Relies on `char::to_uppercase`: the mapping depends on the character alone
/// and yields at least one character. Per the Unicode case tables, uppercasing
/// is idempotent: each character the mapping yields is its own uppercase
/// mapping.
#[verifier::external_body]
pub(crate) fn char_to_upper(c: char) -> (r: Vec<char>)
    ensures
        r@ == upper_char_of(c),
        r@.len() >= 1,
        forall|i: int| 0 <= i < r@.len() ==> #[trigger] upper_char_of(r@[i]) == seq![r@[i]],
{
    c.to_uppercase().collect()
}

/// Relies on `char::is_lowercase`. Per the Unicode case tables, a lowercase
/// character is its own lowercase mapping.
#[verifier::external_body]
pub(crate) fn char_is_lower(c: char) -> (r: bool)
    ensures
        r == is_lower_char(c),
        r ==> lower_char_of(c) == seq![c],
{
    c.is_lowercase()
}

/// Relies on `char::is_uppercase`. Per the Unicode case tables, an uppercase
/// character is its own uppercase mapping.
#[verifier::external_body]
pub(crate) fn char_is_upper(c: char) -> (r: bool)
    ensures
        r == is_upper_char(c),
        r ==> upper_char_of(c) == seq![c],
{
    c.is_uppercase()
}

/// Relies on `String`'s `FromIterator` impl: collecting characters yields the
/// string of exactly those characters, in order.
#[verifier::external_body]
pub(crate) fn string_from_chars(v: &Vec<char>) -> (r: String)
    ensures
        r@ == v@,
{
    v.iter().collect()
}

/// The characters of a string slice, as a vector.
pub(crate) fn chars_of(s: &str) -> (r: Vec<char>)
    ensures
        r@ == s@,
{
    let n = s.unicode_len();
    let mut v: Vec<char> = Vec::new();
    let mut i: usize = 0;
    while i < n
        invariant
            n == s@.len(),
            i <= n,
            v@ == s@.take(i as int),
        decreases n - i,
    {
        let c = s.get_char(i);
        v.push(c);
        proof {
            assert(s@.take(i + 1 as int) =~= s@.take(i as int).push(s@[i as int]));
        }
        i = i + 1;
    }
    proof {
        assert(s@.take(n as int) =~= s@);
    }
    v
}

/// Character-by-character string equality.
pub(crate) fn str_eq(a: &str, b: &str) -> (r: bool)
    ensures
        r == (a@ == b@),
{
    let an = a.unicode_len();
    let bn = b.unicode_len();
    if an != bn {
        return false;
    }
    let mut i: usize = 0;
    while i < an
        invariant
            an == a@.len(),
            bn == b@.len(),
            an == bn,
            i <= an,
            forall|j: int| 0 <= j < i ==> a@[j] == b@[j],
        decreases an - i,
    {
        if a.get_char(i) != b.get_char(i) {
            return false;
        }
        i = i + 1;
    }
    proof {
        assert(a@ =~= b@);
    }
    true
}

} // verus!
