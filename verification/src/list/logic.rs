//! Rolling dice, resolving roll keys to words, and generating passphrases.

use vstd::prelude::*;
use vstd::arithmetic::div_mod::lemma_fundamental_div_mod;
use vstd::string::StringExecFns;

use crate::casing::Casing;
use crate::dice::DieSource;
use crate::list::model::valid_key;
use crate::list::model::WordList;
use crate::unicode::str_eq;

verus! {

/// Ten raised to `n`: the number of `n`-digit decimal strings.
pub open spec fn pow10(n: nat) -> nat
    decreases n,
{
    if n == 0 {
        1
    } else {
        10 * pow10((n - 1) as nat)
    }
}

proof fn lemma_pow10_mono(a: nat, b: nat)
    requires
        a <= b,
    ensures
        pow10(a) <= pow10(b),
    decreases b,
{
    if a < b {
        lemma_pow10_mono(a, (b - 1) as nat);
    }
}

proof fn lemma_pow10_eight()
    ensures
        pow10(8) == 100000000,
{
    assert(pow10(0) == 1);
    assert(pow10(1) == 10);
    assert(pow10(2) == 100);
    assert(pow10(3) == 1000);
    assert(pow10(4) == 10000);
    assert(pow10(5) == 100000);
    assert(pow10(6) == 1000000);
    assert(pow10(7) == 10000000);
    assert(pow10(8) == 100000000);
}

/// The left-to-right fold of die faces into one roll key: each face appends
/// one decimal digit, `acc = acc * 10 + face`.
pub open spec fn spec_key_from_faces(faces: Seq<u8>) -> int
    decreases faces.len(),
{
    if faces.len() == 0 {
        0
    } else {
        10 * spec_key_from_faces(faces.drop_last()) + faces.last()
    }
}

/// Fold die faces, left to right, into one roll key: the faces read, in roll
/// order, as the key's decimal digits.
pub fn key_from_faces(faces: &Vec<u8>) -> (key: u32)
    requires
        faces@.len() <= 9,
        forall|i: int| 0 <= i < faces@.len() ==> 1 <= #[trigger] faces@[i] <= 6,
    ensures
        key as int == spec_key_from_faces(faces@),
        valid_key(key as int, faces@.len() as nat),
{
    let n = faces.len();
    let mut acc: u32 = 0;
    let mut i: usize = 0;
    while i < n
        invariant
            n == faces@.len(),
            n <= 9,
            forall|j: int| 0 <= j < faces@.len() ==> 1 <= #[trigger] faces@[j] <= 6,
            i <= n,
            acc as int == spec_key_from_faces(faces@.take(i as int)),
            valid_key(acc as int, i as nat),
            acc < pow10(i as nat),
        decreases n - i,
    {
        let f = faces[i];
        proof {
            lemma_pow10_mono(i as nat, 8);
            lemma_pow10_eight();
        }
        let ghost prev: int = acc as int;
        acc = 10 * acc + (f as u32);
        proof {
            assert(acc as int == 10 * prev + f as int);
            assert((10 * prev + f as int) % 10 == f as int && (10 * prev + f as int) / 10 == prev)
                by (nonlinear_arith)
                requires
                    0 <= prev,
                    1 <= f as int <= 6,
            ;
            assert(valid_key(acc as int, (i + 1) as nat));
            assert(faces@.take(i as int + 1).drop_last() =~= faces@.take(i as int));
            assert(faces@.take(i as int + 1).last() == faces@[i as int]);
        }
        i = i + 1;
    }
    proof {
        assert(faces@.take(n as int) =~= faces@);
    }
    acc
}

/// The roll keys a stretch of drawn faces folds into: one key per `rolls`
/// consecutive faces, in draw order.
pub open spec fn spec_keys_from_faces(faces: Seq<u8>, rolls: nat, count: nat) -> Seq<u32> {
    Seq::new(
        count,
        |i: int|
            spec_key_from_faces(
                faces.subrange(i * (rolls as int), (i + 1) * (rolls as int)),
            ) as u32,
    )
}

/// A key built from `r` die faces has exactly `r` decimal digits.
pub proof fn lemma_valid_key_digits(k: int, r: nat)
    requires
        valid_key(k, r),
        r >= 1,
    ensures
        pow10((r - 1) as nat) <= k < pow10(r),
    decreases r,
{
    lemma_fundamental_div_mod(k, 10);
    if r == 1 {
        assert(valid_key(k / 10, 0));
        assert(k / 10 == 0);
    } else {
        lemma_valid_key_digits(k / 10, (r - 1) as nat);
        assert(pow10(r) == 10 * pow10((r - 1) as nat));
    }
}

/// The words joined with the separator between consecutive words: never before
/// the first word nor after the last.
pub open spec fn spec_join(words: Seq<Seq<char>>, sep: Seq<char>) -> Seq<char>
    decreases words.len(),
{
    if words.len() == 0 {
        Seq::empty()
    } else if words.len() == 1 {
        words[0]
    } else {
        words[0] + sep + spec_join(words.drop_first(), sep)
    }
}

/// Joining one more word appends one separator and that word.
proof fn lemma_spec_join_push(ws: Seq<Seq<char>>, w: Seq<char>, sep: Seq<char>)
    requires
        ws.len() >= 1,
    ensures
        spec_join(ws.push(w), sep) == spec_join(ws, sep) + sep + w,
    decreases ws.len(),
{
    if ws.len() == 1 {
        assert(ws.push(w)[0] == ws[0]);
        assert(ws.push(w).drop_first() =~= seq![w]);
        assert(spec_join(seq![w], sep) == w);
    } else {
        assert(ws.push(w)[0] == ws[0]);
        assert(ws.push(w).drop_first() =~= ws.drop_first().push(w));
        lemma_spec_join_push(ws.drop_first(), w, sep);
        assert(ws[0] + sep + (spec_join(ws.drop_first(), sep) + sep + w) =~= (ws[0] + sep
            + spec_join(ws.drop_first(), sep)) + sep + w);
    }
}

/// Whether the pattern occurs in `s` at position `i`.
pub open spec fn occurs_at(s: Seq<char>, pat: Seq<char>, i: int) -> bool {
    0 <= i && i + pat.len() <= s.len() && s.subrange(i, i + pat.len()) == pat
}

/// At how many positions at or after `i` the pattern occurs in `s`.
pub open spec fn occ_count_from(s: Seq<char>, pat: Seq<char>, i: int) -> nat
    decreases s.len() - i,
{
    if 0 <= i && i < s.len() {
        (if occurs_at(s, pat, i) {
            1nat
        } else {
            0nat
        }) + occ_count_from(s, pat, i + 1)
    } else {
        0
    }
}

/// At how many positions a non-empty pattern occurs in `s`.
pub open spec fn occ_count(s: Seq<char>, pat: Seq<char>) -> nat {
    occ_count_from(s, pat, 0)
}

proof fn lemma_occ_count_skip(s: Seq<char>, pat: Seq<char>, a: int, b: int)
    requires
        0 <= a <= b <= s.len(),
        forall|k: int| a <= k < b ==> !occurs_at(s, pat, k),
    ensures
        occ_count_from(s, pat, a) == occ_count_from(s, pat, b),
    decreases b - a,
{
    if a < b {
        assert(!occurs_at(s, pat, a));
        lemma_occ_count_skip(s, pat, a + 1, b);
    }
}

proof fn lemma_occ_count_suffix(s: Seq<char>, pat: Seq<char>, d: int, i: int)
    requires
        0 <= d <= i <= s.len(),
    ensures
        occ_count_from(s, pat, i) == occ_count_from(s.subrange(d, s.len() as int), pat, i - d),
    decreases s.len() - i,
{
    let t = s.subrange(d, s.len() as int);
    if i < s.len() {
        assert(occurs_at(s, pat, i) == occurs_at(t, pat, i - d)) by {
            if i + pat.len() <= s.len() {
                assert(s.subrange(i, i + pat.len()) =~= t.subrange(i - d, i - d + pat.len()));
            }
        }
        lemma_occ_count_suffix(s, pat, d, i + 1);
    }
}

proof fn lemma_join_first(words: Seq<Seq<char>>, sep: Seq<char>)
    requires
        words.len() >= 1,
        words[0].len() >= 1,
    ensures
        spec_join(words, sep).len() >= 1,
        spec_join(words, sep)[0] == words[0][0],
{
}

proof fn lemma_join_last(words: Seq<Seq<char>>, sep: Seq<char>)
    requires
        words.len() >= 1,
        forall|i: int| 0 <= i < words.len() ==> #[trigger] words[i].len() >= 1,
    ensures
        spec_join(words, sep).len() >= 1,
        spec_join(words, sep).last() == words.last().last(),
    decreases words.len(),
{
    if words.len() > 1 {
        let rest = words.drop_first();
        assert forall|i: int| 0 <= i < rest.len() implies #[trigger] rest[i].len() >= 1 by {
            assert(rest[i] == words[i + 1]);
        }
        lemma_join_last(rest, sep);
        assert(rest.last() == words.last());
    }
}

/// In a joined passphrase whose words are non-empty and share no character
/// with the non-empty separator, the separator occurs exactly once between
/// each pair of consecutive words: one occurrence fewer than there are words,
/// never leading, never trailing.
pub proof fn lemma_join_separator(words: Seq<Seq<char>>, sep: Seq<char>)
    requires
        words.len() >= 1,
        sep.len() >= 1,
        forall|i: int| 0 <= i < words.len() ==> #[trigger] words[i].len() >= 1,
        forall|i: int, j: int, k: int|
            0 <= i < words.len() && 0 <= j < words[i].len() && 0 <= k < sep.len()
                ==> #[trigger] words[i][j] != #[trigger] sep[k],
    ensures
        occ_count(spec_join(words, sep), sep) == words.len() - 1,
        !occurs_at(spec_join(words, sep), sep, 0),
        !occurs_at(spec_join(words, sep), sep, spec_join(words, sep).len() - sep.len()),
    decreases words.len(),
{
    let s = spec_join(words, sep);
    let l = sep.len() as int;
    if words.len() == 1 {
        assert forall|k: int| 0 <= k < s.len() implies !occurs_at(s, sep, k) by {
            if occurs_at(s, sep, k) {
                assert(s.subrange(k, k + l)[0] == s[k]);
                assert(words[0][k] != sep[0]);
            }
        }
        lemma_occ_count_skip(s, sep, 0, s.len() as int);
        if occurs_at(s, sep, s.len() - l) {
            assert(!occurs_at(s, sep, s.len() - l));
        }
    } else {
        let w0 = words[0];
        let rest = words.drop_first();
        let t = spec_join(rest, sep);
        let m = w0.len() as int;
        assert(s == w0 + sep + t);
        assert forall|i: int| 0 <= i < rest.len() implies #[trigger] rest[i].len() >= 1 by {
            assert(rest[i] == words[i + 1]);
        }
        assert forall|i: int, j: int, k: int|
            0 <= i < rest.len() && 0 <= j < rest[i].len() && 0 <= k < sep.len()
                implies #[trigger] rest[i][j] != #[trigger] sep[k] by {
            assert(rest[i] == words[i + 1]);
            assert(words[i + 1][j] != sep[k]);
        }
        lemma_join_separator(rest, sep);
        lemma_join_first(rest, sep);
        // no occurrence inside the first word
        assert forall|k: int| 0 <= k < m implies !occurs_at(s, sep, k) by {
            if occurs_at(s, sep, k) {
                assert(s.subrange(k, k + l)[0] == s[k]);
                assert(s[k] == w0[k]);
                assert(words[0][k] != sep[0]);
            }
        }
        lemma_occ_count_skip(s, sep, 0, m);
        // exactly one occurrence where the separator was put
        assert(s.subrange(m, m + l) =~= sep);
        assert(occurs_at(s, sep, m));
        // no occurrence straddling the separator and the rest
        assert forall|k: int| m + 1 <= k < m + l implies !occurs_at(s, sep, k) by {
            if occurs_at(s, sep, k) {
                let q = m + l;
                assert(s.subrange(k, k + l)[q - k] == s[q]);
                assert(s[q] == t[0]);
                assert(t[0] == rest[0][0]);
                assert(rest[0] == words[1]);
                assert(words[1][0] != sep[q - k]);
            }
        }
        lemma_occ_count_skip(s, sep, m + 1, m + l);
        // the rest of the phrase holds the remaining occurrences
        lemma_occ_count_suffix(s, sep, m + l, m + l);
        assert(s.subrange(m + l, s.len() as int) =~= t);
        assert(occ_count_from(s, sep, m) == 1 + occ_count_from(s, sep, m + 1));
        // never trailing: the phrase ends with a word character
        lemma_join_last(words, sep);
        let e = s.len() - l;
        if occurs_at(s, sep, e) {
            assert(s.subrange(e, e + l)[l - 1] == s[s.len() - 1]);
            assert(s.last() == words.last().last());
            assert(words.last() == words[words.len() - 1]);
            assert(words[words.len() - 1][words[words.len() - 1].len() - 1] != sep[l - 1]);
            assert(false);
        }
    }
}

/// In a generated passphrase whose cased words are non-empty and share no
/// character with the non-empty separator, the separator occurs exactly one
/// time fewer than there are words, never leading, never trailing.
pub proof fn lemma_passphrase_separator(
    wl: &WordList,
    keys: Seq<u32>,
    sep: Seq<char>,
    casing: Casing,
)
    requires
        keys.len() >= 1,
        sep.len() >= 1,
        forall|i: int|
            0 <= i < keys.len() ==> #[trigger] casing.spec_apply(wl.list@[keys[i]]@, i).len() >= 1,
        forall|i: int, j: int, k: int|
            0 <= i < keys.len() && 0 <= j < casing.spec_apply(wl.list@[keys[i]]@, i).len() && 0 <= k
                < sep.len() ==> #[trigger] casing.spec_apply(wl.list@[keys[i]]@, i)[j]
                != #[trigger] sep[k],
    ensures
        occ_count(wl.spec_passphrase(keys, sep, casing), sep) == keys.len() - 1,
        !occurs_at(wl.spec_passphrase(keys, sep, casing), sep, 0),
        !occurs_at(
            wl.spec_passphrase(keys, sep, casing),
            sep,
            wl.spec_passphrase(keys, sep, casing).len() - sep.len(),
        ),
{
    let ws = wl.cased_words(keys, casing);
    assert forall|i: int| 0 <= i < ws.len() implies #[trigger] ws[i].len() >= 1 by {
        assert(ws[i] == casing.spec_apply(wl.list@[keys[i]]@, i));
    }
    assert forall|i: int, j: int, k: int|
        0 <= i < ws.len() && 0 <= j < ws[i].len() && 0 <= k < sep.len() implies #[trigger] ws[i][j]
        != #[trigger] sep[k] by {
        assert(ws[i] == casing.spec_apply(wl.list@[keys[i]]@, i));
        assert(casing.spec_apply(wl.list@[keys[i]]@, i)[j] != sep[k]);
    }
    lemma_join_separator(ws, sep);
}

/// Whether `name` is one of the list's selection tokens.
pub open spec fn has_short_name(l: WordList, name: Seq<char>) -> bool {
    exists|j: int| 0 <= j < l.short_names@.len() && l.short_names@[j]@ == name
}

/// Whether `name` is one of this list's selection tokens.
fn has_name(l: &WordList, name: &str) -> (r: bool)
    ensures
        r == has_short_name(*l, name@),
{
    let n = l.short_names.len();
    let mut i: usize = 0;
    while i < n
        invariant
            n == l.short_names@.len(),
            i <= n,
            forall|j: int| 0 <= j < i ==> l.short_names@[j]@ != name@,
        decreases n - i,
    {
        if str_eq(l.short_names[i].as_str(), name) {
            return true;
        }
        i = i + 1;
    }
    false
}

/// Select the first list one of whose short names is `name`; `None` when no
/// loaded list carries that name.
pub fn word_list<'a>(lists: &'a Vec<WordList>, name: &str) -> (r: Option<&'a WordList>)
    ensures
        match r {
            Some(l) => exists|i: int|
                #![auto]
                0 <= i < lists@.len() && *l == lists@[i] && has_short_name(lists@[i], name@) && (
                forall|j: int| 0 <= j < i ==> !has_short_name(lists@[j], name@)),
            None => forall|i: int| 0 <= i < lists@.len() ==> !has_short_name(lists@[i], name@),
        },
{
    let n = lists.len();
    let mut i: usize = 0;
    while i < n
        invariant
            n == lists@.len(),
            i <= n,
            forall|j: int| 0 <= j < i ==> !has_short_name(lists@[j], name@),
        decreases n - i,
    {
        if has_name(&lists[i], name) {
            return Some(&lists[i]);
        }
        i = i + 1;
    }
    None
}

impl WordList {
    /// The words the keys select, each cased for its position.
    pub open spec fn cased_words(&self, keys: Seq<u32>, casing: Casing) -> Seq<Seq<char>> {
        Seq::new(keys.len(), |i: int| casing.spec_apply(self.list@[keys[i]]@, i))
    }

    /// The passphrase the keys select: the cased words joined by the
    /// separator.
    pub open spec fn spec_passphrase(&self, keys: Seq<u32>, sep: Seq<char>, casing: Casing) -> Seq<
        char,
    > {
        spec_join(self.cased_words(keys, casing), sep)
    }

    /// Roll `rolls` dice and fold the faces, left to right, into one roll key:
    /// the key is exactly the fold of the faces this call draws, and always
    /// reads as `rolls` decimal digits, each a die face. A scripted source
    /// yields the front of its upcoming cycle, so the drawn faces are the
    /// first `rolls` of that cycle.
    pub fn roll<R: DieSource>(&self, rng: &mut R) -> (key: u32)
        requires
            self.rolls_in_range(),
            old(rng).inv(),
        ensures
            final(rng).inv(),
            final(rng).drawn().len() == old(rng).drawn().len() + self.rolls as int,
            old(rng).drawn() == final(rng).drawn().take(old(rng).drawn().len() as int),
            key as int == spec_key_from_faces(
                final(rng).drawn().skip(old(rng).drawn().len() as int),
            ),
            valid_key(key as int, self.rolls as nat),
            old(rng).scripted() ==> final(rng).scripted(),
            old(rng).scripted() && old(rng).upcoming().len() >= self.rolls as int ==> {
                &&& final(rng).drawn().skip(old(rng).drawn().len() as int) == old(
                    rng).upcoming().take(self.rolls as int)
                &&& final(rng).upcoming() == old(rng).upcoming().skip(self.rolls as int) + old(
                    rng).upcoming().take(self.rolls as int)
            },
    {
        let mut faces: Vec<u8> = Vec::new();
        proof {
            assert(old(rng).drawn() + faces@ =~= old(rng).drawn());
            if old(rng).scripted() {
                assert(old(rng).upcoming().take(0) =~= faces@);
                assert(old(rng).upcoming().skip(0) + old(rng).upcoming().take(0) =~= old(
                    rng,
                ).upcoming());
            }
        }
        let mut i: u8 = 0;
        while i < self.rolls
            invariant
                self.rolls <= 9,
                i <= self.rolls,
                rng.inv(),
                faces@.len() == i as int,
                forall|j: int| 0 <= j < faces@.len() ==> 1 <= #[trigger] faces@[j] <= 6,
                rng.drawn() == old(rng).drawn() + faces@,
                old(rng).scripted() ==> rng.scripted(),
                old(rng).scripted() && old(rng).upcoming().len() >= self.rolls as int ==> faces@
                    == old(rng).upcoming().take(i as int) && rng.upcoming() == old(
                rng).upcoming().skip(i as int) + old(rng).upcoming().take(i as int),
            decreases self.rolls - i,
        {
            let ghost before: Seq<u8> = faces@;
            let ghost preup: Seq<u8> = rng.upcoming();
            let f = rng.roll_face();
            faces.push(f);
            proof {
                assert(old(rng).drawn() + faces@ =~= (old(rng).drawn() + before).push(f));
                if old(rng).scripted() && old(rng).upcoming().len() >= self.rolls as int {
                    let up0 = old(rng).upcoming();
                    let k = i as int;
                    assert(preup == up0.skip(k) + up0.take(k));
                    assert(preup[0] == up0.skip(k)[0]);
                    assert(up0.skip(k)[0] == up0[k]);
                    assert(faces@ =~= up0.take(k + 1));
                    assert(preup.drop_first() =~= up0.skip(k + 1) + up0.take(k));
                    assert((up0.skip(k + 1) + up0.take(k)).push(up0[k]) =~= up0.skip(k + 1)
                        + up0.take(k + 1));
                }
            }
            i = i + 1;
        }
        proof {
            assert(old(rng).drawn() == (old(rng).drawn() + faces@).take(
                old(rng).drawn().len() as int,
            ));
            assert((old(rng).drawn() + faces@).skip(old(rng).drawn().len() as int) =~= faces@);
        }
        key_from_faces(&faces)
    }

    /// Resolve each key to its word, case each word for its position, and join
    /// the words with the separator. `Err(k)` is the data-integrity fault: the
    /// dataset has no word for the roll key `k`.
    pub fn passphrase_from_keys(&self, keys: &Vec<u32>, separator: &str, casing: &Casing) -> (r:
        Result<String, u32>)
        ensures
            match r {
                Ok(s) => (forall|i: int|
                    0 <= i < keys@.len() ==> self.list@.contains_key(#[trigger] keys@[i])) && s@
                    == self.spec_passphrase(keys@, separator@, *casing),
                Err(k) => keys@.contains(k) && !self.list@.contains_key(k),
            },
            (forall|i: int| 0 <= i < keys@.len() ==> self.list@.contains_key(#[trigger] keys@[i]))
                ==> r is Ok,
    {
        let n = keys.len();
        let mut out = String::new();
        let mut i: usize = 0;
        while i < n
            invariant
                n == keys@.len(),
                i <= n,
                forall|j: int| 0 <= j < i ==> self.list@.contains_key(#[trigger] keys@[j]),
                out@ == (if i == 0 {
                    Seq::<char>::empty()
                } else {
                    self.spec_passphrase(keys@.take(i as int), separator@, *casing) + (if i < n {
                        separator@
                    } else {
                        Seq::<char>::empty()
                    })
                }),
            decreases n - i,
        {
            let key = keys[i];
            let w = match self.get(key) {
                Some(w) => w,
                None => {
                    proof {
                        assert(keys@[i as int] == key);
                    }
                    return Err(key);
                },
            };
            let cased = casing.apply_word(w.as_str(), i);
            out.append(cased.as_str());
            if i + 1 < n {
                out.append(separator);
            }
            proof {
                let cw = self.cased_words(keys@.take(i as int + 1), *casing);
                assert(cw[i as int] == cased@);
                if i == 0 {
                    assert(cw =~= seq![cased@]);
                    assert(spec_join(cw, separator@) == cased@);
                    assert(Seq::<char>::empty() + cased@ =~= cased@);
                } else {
                    assert(cw =~= self.cased_words(keys@.take(i as int), *casing).push(cased@));
                    lemma_spec_join_push(
                        self.cased_words(keys@.take(i as int), *casing),
                        cased@,
                        separator@,
                    );
                }
                if i + 1 == n {
                    assert(out@ + Seq::<char>::empty() =~= out@);
                }
            }
            i = i + 1;
        }
        proof {
            if n == 0 {
                assert(self.cased_words(keys@, *casing) =~= Seq::<Seq<char>>::empty());
                assert(out@ == self.spec_passphrase(keys@, separator@, *casing));
            } else {
                assert(keys@.take(n as int) =~= keys@);
            }
        }
        Ok(out)
    }

    /// Generate a passphrase of `words` words: roll a key for each position,
    /// resolve it to a word, case the word for its position, and join the
    /// words with the separator. The call draws exactly `words * rolls` die
    /// faces, and each key is exactly the fold of its `rolls` faces, in draw
    /// order. `Err(k)` is the data-integrity fault: the dataset has no word
    /// for the roll key `k`, which a complete dataset never lacks.
    pub fn generate<R: DieSource>(
        &self,
        rng: &mut R,
        words: u8,
        separator: &str,
        casing: &Casing,
    ) -> (r: Result<String, u32>)
        requires
            self.rolls_in_range(),
            words >= 1,
            old(rng).inv(),
        ensures
            final(rng).inv(),
            final(rng).drawn().len() == old(rng).drawn().len() + (words as int) * (
            self.rolls as int),
            old(rng).drawn() == final(rng).drawn().take(old(rng).drawn().len() as int),
            match r {
                Ok(s) => ({
                    let ks = spec_keys_from_faces(
                        final(rng).drawn().skip(old(rng).drawn().len() as int),
                        self.rolls as nat,
                        words as nat,
                    );
                    &&& (forall|i: int|
                        0 <= i < ks.len() ==> valid_key(#[trigger] ks[i] as int,
                            self.rolls as nat))
                    &&& (forall|i: int|
                        0 <= i < ks.len() ==> self.list@.contains_key(#[trigger] ks[i]))
                    &&& s@ == self.spec_passphrase(ks, separator@, *casing)
                }),
                Err(k) => valid_key(k as int, self.rolls as nat) && !self.list@.contains_key(k),
            },
            self.complete() ==> r is Ok,
            old(rng).scripted() ==> final(rng).scripted(),
            old(rng).scripted() && old(rng).upcoming().len() >= (words as int) * (
            self.rolls as int) ==> {
                &&& final(rng).drawn().skip(old(rng).drawn().len() as int) == old(
                    rng).upcoming().take((words as int) * (self.rolls as int))
                &&& final(rng).upcoming() == old(rng).upcoming().skip(
                    (words as int) * (self.rolls as int),
                ) + old(rng).upcoming().take((words as int) * (self.rolls as int))
            },
    {
        proof {
            if old(rng).scripted() {
                assert(old(rng).upcoming().take(0) =~= Seq::<u8>::empty());
                assert(old(rng).upcoming().skip(0) + old(rng).upcoming().take(0) =~= old(
                    rng).upcoming());
                assert(rng.drawn().skip(old(rng).drawn().len() as int) =~= Seq::<u8>::empty());
            }
        }
        let mut keys: Vec<u32> = Vec::new();
        let mut i: u8 = 0;
        while i < words
            invariant
                self.rolls_in_range(),
                rng.inv(),
                i <= words,
                keys@.len() == i as int,
                rng.drawn().len() == old(rng).drawn().len() + (i as int) * (self.rolls as int),
                old(rng).drawn() == rng.drawn().take(old(rng).drawn().len() as int),
                old(rng).scripted() ==> rng.scripted(),
                old(rng).scripted() && old(rng).upcoming().len() >= (words as int) * (
                self.rolls as int) ==> {
                    &&& rng.drawn().skip(old(rng).drawn().len() as int) == old(
                        rng).upcoming().take((i as int) * (self.rolls as int))
                    &&& rng.upcoming() == old(rng).upcoming().skip(
                        (i as int) * (self.rolls as int),
                    ) + old(rng).upcoming().take((i as int) * (self.rolls as int))
                },
                forall|j: int|
                    0 <= j < keys@.len() ==> #[trigger] keys@[j] as int == spec_key_from_faces(
                        rng.drawn().subrange(
                            old(rng).drawn().len() + j * (self.rolls as int),
                            old(rng).drawn().len() + (j + 1) * (self.rolls as int),
                        ),
                    ),
                forall|j: int|
                    0 <= j < keys@.len() ==> valid_key(#[trigger] keys@[j] as int,
                        self.rolls as nat),
            decreases words - i,
        {
            let ghost base: int = old(rng).drawn().len() as int;
            let ghost pre: Seq<u8> = rng.drawn();
            let ghost preup: Seq<u8> = rng.upcoming();
            let key = self.roll(rng);
            keys.push(key);
            proof {
                let r = self.rolls as int;
                let ii = i as int;
                assert((ii + 1) * r == ii * r + r) by (nonlinear_arith);
                assert(pre.len() == base + ii * r);
                // earlier segments are unchanged: the old record is a prefix
                assert(pre =~= rng.drawn().take(pre.len() as int));
                assert(old(rng).drawn() =~= rng.drawn().take(base));
                assert forall|j: int| 0 <= j < ii implies #[trigger] rng.drawn().subrange(
                    base + j * r,
                    base + (j + 1) * r,
                ) =~= pre.subrange(base + j * r, base + (j + 1) * r) by {
                    assert(0 <= j * r && j * r + r == (j + 1) * r && (j + 1) * r <= ii * r)
                        by (nonlinear_arith)
                        requires
                            0 <= j < ii,
                            r >= 1,
                    ;
                    assert(base + (j + 1) * r <= pre.len());
                    assert forall|m: int|
                        0 <= m < r implies #[trigger] rng.drawn()[base + j * r + m] == pre[base + j
                        * r + m] by {
                        assert(pre[base + j * r + m] == rng.drawn().take(pre.len() as int)[base + j
                            * r + m]);
                    }
                }
                // the new key folds exactly the segment this roll drew
                assert(rng.drawn().skip(pre.len() as int) =~= rng.drawn().subrange(
                    base + ii * r,
                    base + (ii + 1) * r,
                ));
                if old(rng).scripted() && old(rng).upcoming().len() >= (words as int) * r {
                    let up0 = old(rng).upcoming();
                    assert(0 <= ii * r && ii * r + r == (ii + 1) * r && (ii + 1) * r <= (
                    words as int) * r) by (nonlinear_arith)
                        requires
                            0 <= ii < words as int,
                            r >= 1,
                    ;
                    assert(preup == up0.skip(ii * r) + up0.take(ii * r));
                    assert(preup.len() >= r);
                    assert(rng.drawn().skip(pre.len() as int) == preup.take(r));
                    assert(rng.upcoming() == preup.skip(r) + preup.take(r));
                    // the drawn stretch extends by one key's worth of the cycle
                    assert(preup.take(r) =~= up0.subrange(ii * r, (ii + 1) * r));
                    assert(pre.skip(base) == up0.take(ii * r));
                    assert(rng.drawn().skip(base) =~= up0.take(ii * r) + preup.take(r));
                    assert(up0.take(ii * r) + up0.subrange(ii * r, (ii + 1) * r) =~= up0.take(
                        (ii + 1) * r,
                    ));
                    // the upcoming cycle rotates by one key's worth
                    assert(preup.skip(r) =~= up0.skip((ii + 1) * r) + up0.take(ii * r));
                    assert((up0.skip((ii + 1) * r) + up0.take(ii * r)) + up0.subrange(
                        ii * r,
                        (ii + 1) * r,
                    ) =~= up0.skip((ii + 1) * r) + up0.take((ii + 1) * r));
                }
            }
            i = i + 1;
        }
        proof {
            if self.complete() {
                assert(forall|j: int|
                    0 <= j < keys@.len() ==> self.list@.contains_key(#[trigger] keys@[j]));
            }
            // the rolled keys are exactly the folds of the drawn face stretches
            let r_ = self.rolls as int;
            let base = old(rng).drawn().len() as int;
            let faces = rng.drawn().skip(base);
            let ks = spec_keys_from_faces(faces, self.rolls as nat, words as nat);
            assert forall|j: int| 0 <= j < words as int implies #[trigger] ks[j] == keys@[j] by {
                assert(0 <= j * r_ && j * r_ + r_ == (j + 1) * r_ && (j + 1) * r_ <= (
                words as int) * r_) by (nonlinear_arith)
                    requires
                        0 <= j < words as int,
                        r_ >= 1,
                ;
                assert(faces.subrange(j * r_, (j + 1) * r_) =~= rng.drawn().subrange(
                    base + j * r_,
                    base + (j + 1) * r_,
                ));
            }
            assert(ks =~= keys@);
        }
        match self.passphrase_from_keys(&keys, separator, casing) {
            Ok(s) => Ok(s),
            Err(k) => {
                proof {
                    let j = choose|j: int| 0 <= j < keys@.len() && keys@[j] == k;
                    assert(valid_key(keys@[j] as int, self.rolls as nat));
                }
                Err(k)
            },
        }
    }
}

} // verus!
