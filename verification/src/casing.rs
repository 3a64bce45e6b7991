//! Casing for output.
//!
//! Note that this has no effect on separators. This only applies to casing
//! conventions. The `CamelCase` variant will cause the first letter of the
//! first word to be lowercase, then the first letter of all remaining words to
//! be uppercase, regardless of separator.
//!
//! This means that choosing a separator of `"-"` and a casing of `CamelCase`
//! will result in `this-Is-An-Example`.

use vstd::prelude::*;

use crate::unicode::char_is_lower;
use crate::unicode::char_is_upper;
use crate::unicode::char_to_lower;
use crate::unicode::char_to_upper;
use crate::unicode::chars_of;
use crate::unicode::is_lower_char;
use crate::unicode::is_upper_char;
use crate::unicode::lower_char_of;
use crate::unicode::str_eq;
use crate::unicode::string_from_chars;
use crate::unicode::upper_char_of;

verus! {

/// Casing for output: one of five fixed transformations applied uniformly to
/// every word of a generated passphrase.
#[derive(Clone, Copy, Debug, PartialEq, Eq, Structural)]
pub enum Casing {
    /// Do not specially format output.
    Standard,
    /// Format output in lowercase.
    Lowercase,
    /// Format output in UPPERCASE.
    Uppercase,
    /// Format output in PascalCase.
    PascalCase,
    /// Format output in camelCase.
    CamelCase,
}

/// Every character of a word folded to lowercase.
pub open spec fn lower_seq(s: Seq<char>) -> Seq<char>
    decreases s.len(),
{
    if s.len() == 0 {
        Seq::empty()
    } else {
        lower_char_of(s[0]) + lower_seq(s.drop_first())
    }
}

/// Every character of a word folded to uppercase.
pub open spec fn upper_seq(s: Seq<char>) -> Seq<char>
    decreases s.len(),
{
    if s.len() == 0 {
        Seq::empty()
    } else {
        upper_char_of(s[0]) + upper_seq(s.drop_first())
    }
}

/// The first character folded to uppercase, the rest folded to lowercase.
pub open spec fn pascal_seq(s: Seq<char>) -> Seq<char> {
    if s.len() == 0 {
        Seq::empty()
    } else {
        upper_char_of(s[0]) + lower_seq(s.drop_first())
    }
}

/// The first character folded to lowercase, the rest folded to lowercase too:
/// the form CamelCase gives the word at position zero.
pub open spec fn camel_first_seq(s: Seq<char>) -> Seq<char> {
    if s.len() == 0 {
        Seq::empty()
    } else {
        lower_char_of(s[0]) + lower_seq(s.drop_first())
    }
}

impl Casing {
    /// What applying this casing to the word `s` at zero-based position `n`
    /// yields.
    pub open spec fn spec_apply(self, s: Seq<char>, n: int) -> Seq<char> {
        match self {
            Casing::Standard => s,
            Casing::Lowercase => lower_seq(s),
            Casing::Uppercase => upper_seq(s),
            Casing::PascalCase => pascal_seq(s),
            Casing::CamelCase => if n == 0 {
                camel_first_seq(s)
            } else {
                pascal_seq(s)
            },
        }
    }

    /// The canonical selection token of this casing mode.
    pub open spec fn spec_token(self) -> Seq<char> {
        match self {
            Casing::Standard => "standard"@,
            Casing::Lowercase => "lowercase"@,
            Casing::Uppercase => "uppercase"@,
            Casing::PascalCase => "pascalcase"@,
            Casing::CamelCase => "camelcase"@,
        }
    }

    /// Which casing mode, if any, a selection token names.
    pub open spec fn spec_from_str(s: Seq<char>) -> Option<Casing> {
        if s == "standard"@ {
            Some(Casing::Standard)
        } else if s == "lowercase"@ {
            Some(Casing::Lowercase)
        } else if s == "uppercase"@ {
            Some(Casing::Uppercase)
        } else if s == "pascalcase"@ {
            Some(Casing::PascalCase)
        } else if s == "camelcase"@ {
            Some(Casing::CamelCase)
        } else {
            None
        }
    }

    /// Parse a casing mode from its selection token; tokens are matched
    /// case-sensitively, and any unrecognized token yields `None`.
    pub fn from_str(s: &str) -> (r: Option<Self>)
        ensures
            r == Self::spec_from_str(s@),
    {
        if str_eq(s, "standard") {
            Some(Casing::Standard)
        } else if str_eq(s, "lowercase") {
            Some(Casing::Lowercase)
        } else if str_eq(s, "uppercase") {
            Some(Casing::Uppercase)
        } else if str_eq(s, "pascalcase") {
            Some(Casing::PascalCase)
        } else if str_eq(s, "camelcase") {
            Some(Casing::CamelCase)
        } else {
            None
        }
    }

    /// The canonical token of this casing mode, as `from_str` accepts it.
    pub fn token(&self) -> (r: &'static str)
        ensures
            r@ == self.spec_token(),
    {
        match *self {
            Casing::Standard => "standard",
            Casing::Lowercase => "lowercase",
            Casing::Uppercase => "uppercase",
            Casing::PascalCase => "pascalcase",
            Casing::CamelCase => "camelcase",
        }
    }

    /// Apply casing to a single word.
    ///
    /// Takes the string slice containing just the word and the zero-based
    /// index of the word. Applying Standard, Lowercase or Uppercase casing a
    /// second time leaves the word unchanged.
    pub fn apply_word(&self, s: &str, n: usize) -> (r: String)
        ensures
            r@ == self.spec_apply(s@, n as int),
            (*self == Casing::Standard || *self == Casing::Lowercase || *self
                == Casing::Uppercase) ==> self.spec_apply(r@, n as int) == r@,
    {
        match *self {
            Casing::Standard => s.to_owned(),
            Casing::Lowercase => {
                if Casing::all_lower(s) {
                    proof {
                        lemma_lower_seq_fixed(s@);
                    }
                    s.to_owned()
                } else {
                    let r = lower_string(s);
                    proof {
                        lemma_lower_seq_fixed(r@);
                    }
                    r
                }
            },
            Casing::Uppercase => {
                if Casing::all_upper(s) {
                    proof {
                        lemma_upper_seq_fixed(s@);
                    }
                    s.to_owned()
                } else {
                    let r = upper_string(s);
                    proof {
                        lemma_upper_seq_fixed(r@);
                    }
                    r
                }
            },
            Casing::PascalCase => Casing::case_word(s, None),
            Casing::CamelCase => Casing::case_word(s, Some(n)),
        }
    }

    /// Whether every character of the word is lowercase; when so, folding the
    /// word to lowercase leaves it unchanged.
    fn all_lower(s: &str) -> (r: bool)
        ensures
            r == (forall|i: int| 0 <= i < s@.len() ==> #[trigger] is_lower_char(s@[i])),
            r ==> (forall|i: int|
                0 <= i < s@.len() ==> #[trigger] lower_char_of(s@[i]) == seq![s@[i]]),
    {
        let cs = chars_of(s);
        all_lower_from(&cs, 0)
    }

    /// Whether every character of the word is uppercase; when so, folding the
    /// word to uppercase leaves it unchanged.
    fn all_upper(s: &str) -> (r: bool)
        ensures
            r == (forall|i: int| 0 <= i < s@.len() ==> #[trigger] is_upper_char(s@[i])),
            r ==> (forall|i: int|
                0 <= i < s@.len() ==> #[trigger] upper_char_of(s@[i]) == seq![s@[i]]),
    {
        let cs = chars_of(s);
        all_upper_from(&cs, 0)
    }

    /// Specify `n` as `Some` word index to indicate that this is camelCase.
    fn case_word(s: &str, n: Option<usize>) -> (r: String)
        ensures
            r@ == (match n {
                Some(k) => if k == 0 {
                    camel_first_seq(s@)
                } else {
                    pascal_seq(s@)
                },
                None => pascal_seq(s@),
            }),
    {
        let should_be_lower = match n {
            Some(k) => k == 0,
            None => false,
        };
        let cs = chars_of(s);
        if should_be_lower && all_lower_from(&cs, 0) {
            proof {
                if s@.len() > 0 {
                    lemma_lower_seq_fixed(s@);
                    assert(lower_char_of(s@[0]) + s@.drop_first() =~= s@);
                    assert(camel_first_seq(s@) == lower_char_of(s@[0]) + lower_seq(
                        s@.drop_first(),
                    ));
                    lemma_lower_seq_fixed_drop(s@);
                }
            }
            return s.to_owned();
        }
        if !should_be_lower && cs.len() >= 1 {
            let first_upper = char_is_upper(cs[0]);
            if first_upper && all_lower_from(&cs, 1) {
                proof {
                    lemma_lower_seq_fixed_drop(s@);
                    assert(pascal_seq(s@) == upper_char_of(s@[0]) + lower_seq(s@.drop_first()));
                    assert(seq![s@[0]] + s@.drop_first() =~= s@);
                }
                return s.to_owned();
            }
        }
        let mut out: Vec<char> = Vec::new();
        if cs.len() >= 1 {
            let mapped = if should_be_lower {
                char_to_lower(cs[0])
            } else {
                char_to_upper(cs[0])
            };
            push_all(&mut out, &mapped);
            proof {
                assert(out@ + lower_seq(s@.subrange(1, 1)) =~= out@);
            }
            let ghost head: Seq<char> = out@;
            let mut i: usize = 1;
            while i < cs.len()
                invariant
                    cs@ == s@,
                    1 <= i <= s@.len(),
                    out@ == head + lower_seq(s@.subrange(1, i as int)),
                decreases s@.len() - i,
            {
                let ds = char_to_lower(cs[i]);
                push_all(&mut out, &ds);
                proof {
                    lemma_lower_seq_push(s@.subrange(1, i as int), s@[i as int]);
                    assert(s@.subrange(1, i as int + 1) =~= s@.subrange(1, i as int).push(
                        s@[i as int],
                    ));
                    assert((head + lower_seq(s@.subrange(1, i as int))) + lower_char_of(
                        s@[i as int],
                    ) =~= head + (lower_seq(s@.subrange(1, i as int)) + lower_char_of(
                        s@[i as int],
                    )));
                }
                i = i + 1;
            }
            proof {
                assert(s@.subrange(1, s@.len() as int) =~= s@.drop_first());
            }
        }
        string_from_chars(&out)
    }
}

/// Whether every character of `v` from position `start` on is lowercase,
/// together with the fact that those characters are their own lowercase
/// mappings.
fn all_lower_from(v: &Vec<char>, start: usize) -> (r: bool)
    requires
        start <= v@.len(),
    ensures
        r == (forall|i: int| start <= i < v@.len() ==> #[trigger] is_lower_char(v@[i])),
        r ==> (forall|i: int|
            start <= i < v@.len() ==> #[trigger] lower_char_of(v@[i]) == seq![v@[i]]),
{
    let mut i: usize = start;
    while i < v.len()
        invariant
            start <= i <= v@.len(),
            forall|j: int| start <= j < i ==> #[trigger] is_lower_char(v@[j]),
            forall|j: int| start <= j < i ==> #[trigger] lower_char_of(v@[j]) == seq![v@[j]],
        decreases v@.len() - i,
    {
        if !char_is_lower(v[i]) {
            proof {
                assert(!is_lower_char(v@[i as int]));
            }
            return false;
        }
        i = i + 1;
    }
    true
}

/// Whether every character of `v` from position `start` on is uppercase,
/// together with the fact that those characters are their own uppercase
/// mappings.
fn all_upper_from(v: &Vec<char>, start: usize) -> (r: bool)
    requires
        start <= v@.len(),
    ensures
        r == (forall|i: int| start <= i < v@.len() ==> #[trigger] is_upper_char(v@[i])),
        r ==> (forall|i: int|
            start <= i < v@.len() ==> #[trigger] upper_char_of(v@[i]) == seq![v@[i]]),
{
    let mut i: usize = start;
    while i < v.len()
        invariant
            start <= i <= v@.len(),
            forall|j: int| start <= j < i ==> #[trigger] is_upper_char(v@[j]),
            forall|j: int| start <= j < i ==> #[trigger] upper_char_of(v@[j]) == seq![v@[j]],
        decreases v@.len() - i,
    {
        if !char_is_upper(v[i]) {
            proof {
                assert(!is_upper_char(v@[i as int]));
            }
            return false;
        }
        i = i + 1;
    }
    true
}

/// Append all characters of `add` to `out`.
fn push_all(out: &mut Vec<char>, add: &Vec<char>)
    ensures
        final(out)@ == old(out)@ + add@,
{
    proof {
        assert(out@ + add@.take(0) =~= out@);
    }
    let mut i: usize = 0;
    while i < add.len()
        invariant
            i <= add@.len(),
            out@ == old(out)@ + add@.take(i as int),
        decreases add@.len() - i,
    {
        out.push(add[i]);
        proof {
            assert(old(out)@ + add@.take(i as int + 1) =~= (old(out)@ + add@.take(i as int)).push(
                add@[i as int],
            ));
        }
        i = i + 1;
    }
    proof {
        assert(add@.take(add@.len() as int) =~= add@);
    }
}

/// Fold every character of `s` to lowercase; the result is fixed under a
/// further character-wise fold.
fn lower_string(s: &str) -> (r: String)
    ensures
        r@ == lower_seq(s@),
        forall|i: int| 0 <= i < r@.len() ==> #[trigger] lower_char_of(r@[i]) == seq![r@[i]],
{
    let cs = chars_of(s);
    let mut out: Vec<char> = Vec::new();
    proof {
        assert(lower_seq(s@.take(0)) =~= Seq::<char>::empty());
    }
    let mut i: usize = 0;
    while i < cs.len()
        invariant
            cs@ == s@,
            i <= s@.len(),
            out@ == lower_seq(s@.take(i as int)),
            forall|j: int| 0 <= j < out@.len() ==> #[trigger] lower_char_of(out@[j]) == seq![
                out@[j],
            ],
        decreases s@.len() - i,
    {
        let ds = char_to_lower(cs[i]);
        let ghost prev: Seq<char> = out@;
        push_all(&mut out, &ds);
        proof {
            lemma_lower_seq_push(s@.take(i as int), s@[i as int]);
            assert(s@.take(i as int + 1) =~= s@.take(i as int).push(s@[i as int]));
            assert forall|j: int| 0 <= j < out@.len() implies #[trigger] lower_char_of(out@[j])
                == seq![out@[j]] by {
                if j >= prev.len() {
                    assert(out@[j] == ds@[j - prev.len()]);
                }
            }
        }
        i = i + 1;
    }
    proof {
        assert(s@.take(s@.len() as int) =~= s@);
    }
    string_from_chars(&out)
}

/// Fold every character of `s` to uppercase; the result is fixed under a
/// further character-wise fold.
fn upper_string(s: &str) -> (r: String)
    ensures
        r@ == upper_seq(s@),
        forall|i: int| 0 <= i < r@.len() ==> #[trigger] upper_char_of(r@[i]) == seq![r@[i]],
{
    let cs = chars_of(s);
    let mut out: Vec<char> = Vec::new();
    proof {
        assert(upper_seq(s@.take(0)) =~= Seq::<char>::empty());
    }
    let mut i: usize = 0;
    while i < cs.len()
        invariant
            cs@ == s@,
            i <= s@.len(),
            out@ == upper_seq(s@.take(i as int)),
            forall|j: int| 0 <= j < out@.len() ==> #[trigger] upper_char_of(out@[j]) == seq![
                out@[j],
            ],
        decreases s@.len() - i,
    {
        let ds = char_to_upper(cs[i]);
        let ghost prev: Seq<char> = out@;
        push_all(&mut out, &ds);
        proof {
            lemma_upper_seq_push(s@.take(i as int), s@[i as int]);
            assert(s@.take(i as int + 1) =~= s@.take(i as int).push(s@[i as int]));
            assert forall|j: int| 0 <= j < out@.len() implies #[trigger] upper_char_of(out@[j])
                == seq![out@[j]] by {
                if j >= prev.len() {
                    assert(out@[j] == ds@[j - prev.len()]);
                }
            }
        }
        i = i + 1;
    }
    proof {
        assert(s@.take(s@.len() as int) =~= s@);
    }
    string_from_chars(&out)
}

/// Folding distributes over appending one character at the end of a word.
proof fn lemma_lower_seq_push(s: Seq<char>, c: char)
    ensures
        lower_seq(s.push(c)) == lower_seq(s) + lower_char_of(c),
    decreases s.len(),
{
    if s.len() == 0 {
        assert(s.push(c).drop_first() =~= Seq::<char>::empty());
        assert(lower_seq(s.push(c)) == lower_char_of(c) + lower_seq(Seq::<char>::empty()));
        assert(lower_char_of(c) + Seq::<char>::empty() =~= lower_char_of(c));
        assert(Seq::<char>::empty() + lower_char_of(c) =~= lower_char_of(c));
    } else {
        assert(s.push(c).drop_first() =~= s.drop_first().push(c));
        lemma_lower_seq_push(s.drop_first(), c);
        assert(s.push(c)[0] == s[0]);
        assert((lower_char_of(s[0]) + lower_seq(s.drop_first())) + lower_char_of(c)
            =~= lower_char_of(s[0]) + (lower_seq(s.drop_first()) + lower_char_of(c)));
    }
}

/// Folding distributes over appending one character at the end of a word.
proof fn lemma_upper_seq_push(s: Seq<char>, c: char)
    ensures
        upper_seq(s.push(c)) == upper_seq(s) + upper_char_of(c),
    decreases s.len(),
{
    if s.len() == 0 {
        assert(s.push(c).drop_first() =~= Seq::<char>::empty());
        assert(upper_seq(s.push(c)) == upper_char_of(c) + upper_seq(Seq::<char>::empty()));
        assert(upper_char_of(c) + Seq::<char>::empty() =~= upper_char_of(c));
        assert(Seq::<char>::empty() + upper_char_of(c) =~= upper_char_of(c));
    } else {
        assert(s.push(c).drop_first() =~= s.drop_first().push(c));
        lemma_upper_seq_push(s.drop_first(), c);
        assert(s.push(c)[0] == s[0]);
        assert((upper_char_of(s[0]) + upper_seq(s.drop_first())) + upper_char_of(c)
            =~= upper_char_of(s[0]) + (upper_seq(s.drop_first()) + upper_char_of(c)));
    }
}

/// A word whose every character is its own lowercase mapping is unchanged by a
/// lowercase fold.
proof fn lemma_lower_seq_fixed(s: Seq<char>)
    requires
        forall|i: int| 0 <= i < s.len() ==> #[trigger] lower_char_of(s[i]) == seq![s[i]],
    ensures
        lower_seq(s) == s,
    decreases s.len(),
{
    if s.len() == 0 {
        assert(lower_seq(s) =~= s);
    } else {
        assert forall|i: int|
            0 <= i < s.drop_first().len() implies #[trigger] lower_char_of(s.drop_first()[i])
            == seq![s.drop_first()[i]] by {
            assert(s.drop_first()[i] == s[i + 1]);
        }
        lemma_lower_seq_fixed(s.drop_first());
        assert(lower_char_of(s[0]) == seq![s[0]]);
        assert(seq![s[0]] + s.drop_first() =~= s);
    }
}

/// A word whose every character is its own uppercase mapping is unchanged by
/// an uppercase fold.
proof fn lemma_upper_seq_fixed(s: Seq<char>)
    requires
        forall|i: int| 0 <= i < s.len() ==> #[trigger] upper_char_of(s[i]) == seq![s[i]],
    ensures
        upper_seq(s) == s,
    decreases s.len(),
{
    if s.len() == 0 {
        assert(upper_seq(s) =~= s);
    } else {
        assert forall|i: int|
            0 <= i < s.drop_first().len() implies #[trigger] upper_char_of(s.drop_first()[i])
            == seq![s.drop_first()[i]] by {
            assert(s.drop_first()[i] == s[i + 1]);
        }
        lemma_upper_seq_fixed(s.drop_first());
        assert(upper_char_of(s[0]) == seq![s[0]]);
        assert(seq![s[0]] + s.drop_first() =~= s);
    }
}

/// The tail of a word whose characters are all their own lowercase mappings is
/// unchanged by a lowercase fold.
proof fn lemma_lower_seq_fixed_drop(s: Seq<char>)
    requires
        forall|i: int| 1 <= i < s.len() ==> #[trigger] lower_char_of(s[i]) == seq![s[i]],
        s.len() >= 1,
    ensures
        lower_seq(s.drop_first()) == s.drop_first(),
{
    assert forall|i: int|
        0 <= i < s.drop_first().len() implies #[trigger] lower_char_of(s.drop_first()[i]) == seq![
        s.drop_first()[i],
    ] by {
        assert(s.drop_first()[i] == s[i + 1]);
    }
    lemma_lower_seq_fixed(s.drop_first());
}

/// CamelCase and PascalCase agree on every word at every position after the
/// first; only the word at position zero is cased differently.
pub proof fn lemma_camel_pascal_agree(s: Seq<char>, n: int)
    requires
        n >= 1,
    ensures
        Casing::CamelCase.spec_apply(s, n) == Casing::PascalCase.spec_apply(s, n),
{
}

/// Parsing a casing mode's canonical token yields that mode back.
pub proof fn lemma_token_round_trip(c: Casing)
    ensures
        Casing::spec_from_str(c.spec_token()) == Some(c),
{
    reveal_strlit("standard");
    reveal_strlit("lowercase");
    reveal_strlit("uppercase");
    reveal_strlit("pascalcase");
    reveal_strlit("camelcase");
    assert("standard"@.len() == 8);
    assert("lowercase"@.len() == 9);
    assert("uppercase"@.len() == 9);
    assert("pascalcase"@.len() == 10);
    assert("camelcase"@.len() == 9);
    assert("lowercase"@[0] == 'l');
    assert("uppercase"@[0] == 'u');
    assert("camelcase"@[0] == 'c');
}

/// A token that parses to a casing mode is that mode's canonical token; every
/// other token yields no mode at all.
pub proof fn lemma_from_str_token(s: Seq<char>, c: Casing)
    requires
        Casing::spec_from_str(s) == Some(c),
    ensures
        c.spec_token() == s,
{
}

} // verus!
