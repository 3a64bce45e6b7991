//! Sources of die faces. The random source is an injected capability, so a
//! deterministic sequence can stand in for real dice. Every source keeps a
//! ghost record of the faces it has yielded, so that callers can relate what
//! they computed to the faces actually drawn.

use vstd::prelude::*;
use rand::RngExt;

verus! {

/// A source of die faces: each draw yields a face of a six-sided die.
pub trait DieSource {
    /// What this source requires of itself between draws.
    spec fn inv(&self) -> bool;

    /// Every face this source has yielded so far, in order.
    spec fn drawn(&self) -> Seq<u8>;

    /// Whether this source is scripted: the faces it will yield are a function
    /// of its state.
    spec fn scripted(&self) -> bool;

    /// For a scripted source, the faces it will yield next, in order, one full
    /// cycle; a drawn face moves from the front to the back.
    spec fn upcoming(&self) -> Seq<u8>;

    /// Draw one die face, uniform over the six faces for a random source; the
    /// face is appended to the record of drawn faces. A scripted source yields
    /// exactly the face at the front of its upcoming cycle.
    fn roll_face(&mut self) -> (f: u8)
        requires
            old(self).inv(),
        ensures
            final(self).inv(),
            1 <= f <= 6,
            final(self).drawn() == old(self).drawn().push(f),
            old(self).scripted() ==> final(self).scripted() && old(self).upcoming().len() >= 1 && f
                == old(self).upcoming()[0] && final(self).upcoming() == old(
                self,
            ).upcoming().drop_first().push(f),
    ;
}

/// Relies on `rand::rng` and `RngExt::random_range`: a sample from the
/// inclusive range of one through six lies within it.
#[verifier::external_body]
fn random_face() -> (f: u8)
    ensures
        1 <= f <= 6,
{
    rand::rng().random_range(1..=6)
}

/// Die faces drawn from the thread-local random generator.
pub struct RandomDice {
    drawn: Ghost<Seq<u8>>,
}

impl RandomDice {
    /// A fresh random source with an empty record of drawn faces.
    pub fn new() -> (r: RandomDice)
        ensures
            r.inv(),
            r.drawn() == Seq::<u8>::empty(),
    {
        RandomDice { drawn: Ghost(Seq::empty()) }
    }
}

impl DieSource for RandomDice {
    closed spec fn inv(&self) -> bool {
        true
    }

    closed spec fn drawn(&self) -> Seq<u8> {
        self.drawn@
    }

    closed spec fn scripted(&self) -> bool {
        false
    }

    closed spec fn upcoming(&self) -> Seq<u8> {
        Seq::empty()
    }

    fn roll_face(&mut self) -> (f: u8) {
        let f = random_face();
        proof {
            self.drawn@ = self.drawn@.push(f);
        }
        f
    }
}

/// A deterministic source: yields its faces in order and starts over when they
/// run out.
pub struct FixedDice {
    faces: Vec<u8>,
    next: usize,
    drawn: Ghost<Seq<u8>>,
}

impl FixedDice {
    /// The faces this source cycles through.
    pub closed spec fn spec_faces(&self) -> Seq<u8> {
        self.faces@
    }

    /// The position of the face the next draw yields.
    pub closed spec fn spec_next(&self) -> nat {
        self.next as nat
    }

    /// Build a source from a non-empty sequence of die faces; any face outside
    /// one through six is rejected. A fresh source starts at its first face
    /// with an empty record of drawn faces.
    pub fn new(faces: Vec<u8>) -> (r: Option<FixedDice>)
        ensures
            (r is Some) <==> (faces@.len() >= 1 && (forall|i: int|
                0 <= i < faces@.len() ==> 1 <= #[trigger] faces@[i] <= 6)),
            r is Some ==> r->0.inv() && r->0.spec_faces() == faces@ && r->0.spec_next() == 0
                && r->0.drawn() == Seq::<u8>::empty() && r->0.scripted() && r->0.upcoming()
                == faces@,
    {
        if faces.len() == 0 {
            return None;
        }
        let mut i: usize = 0;
        while i < faces.len()
            invariant
                i <= faces@.len(),
                forall|j: int| 0 <= j < i ==> 1 <= #[trigger] faces@[j] <= 6,
            decreases faces@.len() - i,
        {
            let f = faces[i];
            if f < 1 || f > 6 {
                proof {
                    assert(!(1 <= faces@[i as int] <= 6));
                }
                return None;
            }
            i = i + 1;
        }
        let d = FixedDice { faces, next: 0, drawn: Ghost(Seq::empty()) };
        proof {
            assert(d.faces@.skip(0) + d.faces@.take(0) =~= d.faces@);
        }
        Some(d)
    }
}

impl DieSource for FixedDice {
    closed spec fn inv(&self) -> bool {
        &&& self.faces@.len() >= 1
        &&& self.next < self.faces@.len()
        &&& forall|i: int| 0 <= i < self.faces@.len() ==> 1 <= #[trigger] self.faces@[i] <= 6
    }

    closed spec fn drawn(&self) -> Seq<u8> {
        self.drawn@
    }

    closed spec fn scripted(&self) -> bool {
        true
    }

    closed spec fn upcoming(&self) -> Seq<u8> {
        self.faces@.skip(self.next as int) + self.faces@.take(self.next as int)
    }

    /// Yields exactly the scripted face at the cursor and advances the cursor,
    /// starting over past the last face.
    fn roll_face(&mut self) -> (f: u8)
        ensures
            f == old(self).spec_faces()[old(self).spec_next() as int],
            final(self).spec_faces() == old(self).spec_faces(),
            final(self).spec_next() == (if old(self).spec_next() + 1
                == old(self).spec_faces().len() {
                0nat
            } else {
                old(self).spec_next() + 1
            }),
    {
        let len = self.faces.len();
        let f = self.faces[self.next];
        self.next = if self.next + 1 == len {
            0
        } else {
            self.next + 1
        };
        proof {
            self.drawn@ = self.drawn@.push(f);
            let fs = old(self).faces@;
            let k = old(self).next as int;
            let up0 = fs.skip(k) + fs.take(k);
            assert(up0[0] == fs[k]);
            if k + 1 == fs.len() {
                assert(self.next == 0);
                assert(up0.drop_first() =~= fs.take(k));
                assert(fs.take(k).push(fs[k]) =~= fs.skip(0) + fs.take(0));
            } else {
                assert(up0.drop_first() =~= fs.skip(k + 1) + fs.take(k));
                assert((fs.skip(k + 1) + fs.take(k)).push(fs[k]) =~= fs.skip(k + 1) + fs.take(
                    k + 1,
                ));
            }
        }
        f
    }
}

} // verus!
