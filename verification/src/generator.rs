//! The handle generator: it walks through the pairs of an adjective and an
//! animal in an order that is shuffled once, and gives the pairs of 8 to 12
//! letters.
use vstd::prelude::*;
use compact_str::CompactString;
use crate::names::is_name;
use crate::random::{random_below, shuffle};
use crate::words::{
    is_plain_word, lemma_adjectives_plain, lemma_animals_plain, lemma_first_pair, ADJECTIVES,
    ANIMALS,
};

verus! {

/// The compact string of the crate `compact_str`. Nothing of what is
/// inside it is known here but the characters that it holds.
#[verifier::external_type_specification]
#[verifier::external_body]
pub struct ExCompactString(compact_str::CompactString);

/// The characters that a `CompactString` holds.
pub uninterp spec fn compact_text(s: CompactString) -> Seq<char>;

/// `CompactString::new`: a compact string that holds the characters of
/// `text`.
#[verifier::external_body]
fn compact_from(text: &str) -> (s: CompactString)
    ensures
        compact_text(s) == text@,
{
    CompactString::new(text)
}

/// `CompactString::push_str`: the characters of `text` are appended.
#[verifier::external_body]
fn compact_push(s: &mut CompactString, text: &str)
    ensures
        compact_text(*final(s)) == compact_text(*old(s)) + text@,
{
    s.push_str(text)
}

/// `CompactString::as_str`: the characters held, as a string slice.
#[verifier::external_body]
pub(crate) fn compact_as_str(s: &CompactString) -> (text: &str)
    ensures
        text@ == compact_text(*s),
{
    s.as_str()
}

/// How many adjectives and how many animals there are.
pub const ADJECTIVE_COUNT: usize = 24;

pub const ANIMAL_COUNT: usize = 24;

/// The least and the greatest length of a generated handle.
pub const SHORTEST: usize = 8;

pub const LONGEST: usize = 12;

/// Whether `shift` is an entry of `shifts`.
pub open spec fn holds(shifts: Seq<usize>, shift: int) -> bool {
    exists|k: int| 0 <= k < shifts.len() && #[trigger] shifts[k] == shift
}

/// Two wheels, one of adjectives and one of animals, that turn together.
/// The adjective wheel starts at a random word. Each full turn of it is a
/// round, and each round shifts the animal wheel by the next entry of a
/// shuffled list of all shifts.
pub struct NameGenerator {
    adj_idx: usize,
    adj_offset: usize,
    an_idx: usize,
    an_offset_idx: usize,
    an_offsets: Vec<usize>,
}

impl NameGenerator {
    /// The positions are within the wheels, the wheels are in step, and the
    /// list of shifts holds every shift.
    pub closed spec fn wf(&self) -> bool {
        &&& self.adj_idx < ADJECTIVE_COUNT
        &&& self.adj_offset < ADJECTIVE_COUNT
        &&& self.an_idx == self.adj_idx % ANIMAL_COUNT
        &&& self.an_offset_idx < ANIMAL_COUNT
        &&& self.an_offsets@.len() == ANIMAL_COUNT
        &&& forall|k: int| 0 <= k < ANIMAL_COUNT ==> #[trigger] self.an_offsets@[k] < ANIMAL_COUNT
        &&& forall|shift: int| 0 <= shift < ANIMAL_COUNT ==> #[trigger] holds(self.an_offsets@, shift)
    }

    /// Whether the generator stands at the start of its first round.
    pub closed spec fn at_start(&self) -> bool {
        self.adj_idx == 0 && self.an_idx == 0 && self.an_offset_idx == 0
    }

    /// The index of the adjective under the pointer.
    pub closed spec fn adjective(&self) -> int {
        (self.adj_idx + self.adj_offset) % (ADJECTIVE_COUNT as int)
    }

    /// The index of the animal under the pointer.
    pub closed spec fn animal(&self) -> int {
        (self.an_idx + self.an_offsets@[self.an_offset_idx as int]) % (ANIMAL_COUNT as int)
    }

    /// The pair under the pointer, written as one word.
    pub closed spec fn pair(&self) -> Seq<char> {
        ADJECTIVES[self.adjective()]@ + ANIMALS[self.animal()]@
    }

    /// Whether the pair under the pointer has a length that is given out.
    pub closed spec fn fits(&self) -> bool {
        SHORTEST <= self.pair().len() <= LONGEST
    }

    /// The generator after both wheels have moved on by one word. When the
    /// adjective wheel completes its turn, the next round begins.
    pub closed spec fn turned(self) -> Self {
        if self.adj_idx + 1 == ADJECTIVE_COUNT {
            NameGenerator {
                adj_idx: 0,
                an_idx: 0,
                an_offset_idx: ((self.an_offset_idx + 1) % (ANIMAL_COUNT as int)) as usize,
                ..self
            }
        } else {
            NameGenerator {
                adj_idx: (self.adj_idx + 1) as usize,
                an_idx: ((self.an_idx + 1) % (ANIMAL_COUNT as int)) as usize,
                ..self
            }
        }
    }

    /// The generator after `k` moves.
    pub open spec fn turned_by(self, k: nat) -> Self
        decreases k,
    {
        if k == 0 {
            self
        } else {
            self.turned_by((k - 1) as nat).turned()
        }
    }

    /// Whether the pair reached after `k` moves is the first one that fits.
    pub open spec fn first_fit(self, k: nat) -> bool {
        &&& self.turned_by(k).fits()
        &&& forall|j: nat| j < k ==> !(#[trigger] self.turned_by(j)).fits()
    }

    /// How many pairs are passed over before the next one that fits.
    pub open spec fn skips(self) -> nat {
        choose|k: nat| self.first_fit(k)
    }

    /// The handle that the next call of `next` gives.
    pub open spec fn upcoming(self) -> Seq<char> {
        self.turned_by(self.skips()).pair()
    }

    /// The generator as the next call of `next` leaves it.
    pub open spec fn advanced(self) -> Self {
        self.turned_by(self.skips() + 1)
    }

    /// The generator after `n` calls of `next`.
    pub open spec fn ahead(self, n: nat) -> Self
        decreases n,
    {
        if n == 0 {
            self
        } else {
            self.ahead((n - 1) as nat).advanced()
        }
    }

    /// The handle that call number `n` of `next` gives, counted from 0.
    pub open spec fn name_ahead(self, n: nat) -> Seq<char> {
        self.ahead(n).upcoming()
    }

    /// How many moves separate the pointer from the place `goal_adj` of
    /// round `goal_round`.
    closed spec fn distance(&self, goal_adj: int, goal_round: int) -> int {
        let here = self.an_offset_idx * ADJECTIVE_COUNT + self.adj_idx;
        let goal = goal_round * ADJECTIVE_COUNT + goal_adj;
        if goal >= here {
            goal - here
        } else {
            goal - here + ADJECTIVE_COUNT * ANIMAL_COUNT
        }
    }

    /// A generator at the start of its first round, with a random first
    /// adjective and a random order of shifts.
    pub fn new() -> (generator: Self)
        ensures
            generator.wf(),
            generator.at_start(),
    {
        let mut an_offsets: Vec<usize> = Vec::new();
        let mut k: usize = 0;
        while k < ANIMAL_COUNT
            invariant
                k <= ANIMAL_COUNT,
                an_offsets@.len() == k,
                forall|i: int| 0 <= i < k ==> an_offsets@[i] == i,
            decreases ANIMAL_COUNT - k,
        {
            an_offsets.push(k);
            k += 1;
        }
        let ghost ordered = an_offsets@;
        shuffle(&mut an_offsets);
        proof {
            broadcast use vstd::seq_lib::group_to_multiset_ensures;

            an_offsets@.to_multiset_ensures();
            ordered.to_multiset_ensures();
            assert(an_offsets@.len() == ordered.len());
            assert forall|i: int| 0 <= i < ANIMAL_COUNT implies #[trigger] an_offsets@[i]
                < ANIMAL_COUNT by {
                let v = an_offsets@[i];
                assert(an_offsets@.contains(v));
                assert(ordered.to_multiset().count(v) > 0);
                assert(ordered.contains(v));
            }
            assert forall|shift: int| 0 <= shift < ANIMAL_COUNT implies #[trigger] holds(
                an_offsets@,
                shift,
            ) by {
                let v = shift as usize;
                assert(ordered[shift] == v);
                assert(ordered.contains(v));
                assert(an_offsets@.to_multiset().count(v) > 0);
                assert(an_offsets@.contains(v));
                let i = choose|i: int| 0 <= i < an_offsets@.len() && an_offsets@[i] == v;
                assert(an_offsets@[i] == shift);
            }
        }
        NameGenerator {
            adj_idx: 0,
            adj_offset: random_below(ADJECTIVE_COUNT),
            an_idx: 0,
            an_offset_idx: 0,
            an_offsets,
        }
    }

    /// The place on the wheels where the first adjective meets the second
    /// animal, a pair of ten letters.
    closed spec fn is_goal(&self, goal_adj: int, goal_round: int) -> bool {
        &&& 0 <= goal_adj < ADJECTIVE_COUNT
        &&& 0 <= goal_round < ANIMAL_COUNT
        &&& (goal_adj + self.adj_offset) % (ADJECTIVE_COUNT as int) == 0
        &&& (goal_adj % (ANIMAL_COUNT as int) + self.an_offsets@[goal_round]) % (
        ANIMAL_COUNT as int) == 1
    }

    /// Such a place exists.
    proof fn lemma_goal_exists(&self) -> (goal: (int, int))
        requires
            self.wf(),
        ensures
            self.is_goal(goal.0, goal.1),
    {
        let goal_adj: int = (ADJECTIVE_COUNT - self.adj_offset) % (ADJECTIVE_COUNT as int);
        let goal_shift: int = (ANIMAL_COUNT + 1 - goal_adj % (ANIMAL_COUNT as int)) % (
        ANIMAL_COUNT as int);
        assert(holds(self.an_offsets@, goal_shift));
        let goal_round: int = choose|k: int|
            0 <= k < self.an_offsets@.len() && #[trigger] self.an_offsets@[k] == goal_shift;
        (goal_adj, goal_round)
    }

    /// At that place the pair fits.
    proof fn lemma_goal_fits(&self, goal_adj: int, goal_round: int)
        requires
            self.wf(),
            self.is_goal(goal_adj, goal_round),
            self.adj_idx == goal_adj,
            self.an_offset_idx == goal_round,
        ensures
            self.fits(),
    {
        lemma_first_pair();
        assert(self.adjective() == 0);
        assert(self.animal() == 1);
    }

    /// A move keeps the generator well formed and, away from that place,
    /// brings the pointer one step nearer to it.
    proof fn lemma_turned(&self, goal_adj: int, goal_round: int)
        requires
            self.wf(),
            self.is_goal(goal_adj, goal_round),
        ensures
            self.turned().wf(),
            self.turned().is_goal(goal_adj, goal_round),
            self.distance(goal_adj, goal_round) >= 0,
            !(self.adj_idx == goal_adj && self.an_offset_idx == goal_round)
                ==> self.turned().distance(goal_adj, goal_round) < self.distance(
                goal_adj,
                goal_round,
            ),
    {
        let next = self.turned();
        assert(next.an_offsets == self.an_offsets);
        assert(next.adj_offset == self.adj_offset);
        assert forall|shift: int| 0 <= shift < ANIMAL_COUNT implies #[trigger] holds(
            next.an_offsets@,
            shift,
        ) by {
            assert(holds(self.an_offsets@, shift));
        }
    }

    /// The pair under the pointer is made of two plain words, and its
    /// length in bytes is its length in characters.
    proof fn lemma_pair_plain(&self)
        requires
            self.wf(),
        ensures
            0 <= self.adjective() < ADJECTIVE_COUNT,
            0 <= self.animal() < ANIMAL_COUNT,
            is_plain_word(ADJECTIVES[self.adjective()]@),
            is_plain_word(ANIMALS[self.animal()]@),
            self.fits() ==> is_name(self.pair()),
    {
        lemma_adjectives_plain();
        lemma_animals_plain();
        let a = ADJECTIVES[self.adjective()]@;
        let b = ANIMALS[self.animal()]@;
        assert forall|k: int| 0 <= k < (a + b).len() implies 'a' <= #[trigger] (a + b)[k]
            <= 'z' by {
            if k < a.len() {
                assert((a + b)[k] == a[k]);
            } else {
                assert((a + b)[k] == b[k - a.len()]);
            }
        }
    }

    /// The next handle: the first pair from the pointer on that has 8 to 12
    /// letters. The pointer is left behind that pair.
    pub fn next(&mut self) -> (name: CompactString)
        requires
            old(self).wf(),
        ensures
            final(self).wf(),
            old(self).first_fit(old(self).skips()),
            compact_text(name) == old(self).upcoming(),
            *final(self) == old(self).advanced(),
            is_name(compact_text(name)),
    {
        let ghost goal = self.lemma_goal_exists();
        let ghost mut turns: nat = 0;
        loop
            invariant
                self.wf(),
                self.is_goal(goal.0, goal.1),
                *self == old(self).turned_by(turns),
                forall|j: nat| j < turns ==> !(#[trigger] old(self).turned_by(j)).fits(),
            decreases self.distance(goal.0, goal.1),
        {
            let ghost here = *self;
            proof {
                here.lemma_pair_plain();
                here.lemma_turned(goal.0, goal.1);
            }
            let adjective: &'static str = ADJECTIVES[(self.adj_idx + self.adj_offset)
                % ADJECTIVE_COUNT];
            let animal: &'static str = ANIMALS[(self.an_idx
                + self.an_offsets[self.an_offset_idx]) % ANIMAL_COUNT];
            assert(adjective@ == ADJECTIVES[here.adjective()]@);
            assert(animal@ == ANIMALS[here.animal()]@);

            self.adj_idx += 1;
            self.adj_idx %= ADJECTIVE_COUNT;
            self.an_idx += 1;
            self.an_idx %= ANIMAL_COUNT;
            if self.adj_idx == 0 {
                self.an_idx = 0;
                self.an_offset_idx += 1;
                self.an_offset_idx %= ANIMAL_COUNT;
            }
            assert(*self == here.turned());

            let length: usize = byte_length(adjective) + byte_length(animal);
            if SHORTEST <= length && length <= LONGEST {
                let mut name = compact_from(adjective);
                compact_push(&mut name, animal);
                proof {
                    assert(here.fits());
                    assert(old(self).first_fit(turns));
                    let least = old(self).skips();
                    if least < turns {
                        assert(!old(self).turned_by(least).fits());
                    }
                    if turns < least {
                        assert(!old(self).turned_by(turns).fits());
                    }
                    assert(old(self).turned_by(turns + 1) == *self);
                }
                return name;
            }
            proof {
                assert(!here.fits());
                if here.adj_idx == goal.0 && here.an_offset_idx == goal.1 {
                    here.lemma_goal_fits(goal.0, goal.1);
                }
                turns = turns + 1;
            }
        }
    }
}

/// The length of a plain word in bytes, which is its length in characters.
fn byte_length(word: &str) -> (n: usize)
    requires
        is_plain_word(word@),
    ensures
        n == word@.len(),
{
    broadcast use vstd::string::is_ascii_spec_bytes;

    assert(vstd::string::is_ascii(word));
    word.len()
}

} // verus!
