//! Handles and room names: which texts are names, and sets of names.
use vstd::prelude::*;
use crate::text::chars_of;

verus! {

/// Whether `c` may occur in a name: an ASCII letter, a digit, `-` or `_`.
pub open spec fn is_name_char(c: char) -> bool {
    ||| ('a' <= c && c <= 'z')
    ||| ('A' <= c && c <= 'Z')
    ||| ('0' <= c && c <= '9')
    ||| c == '-'
    ||| c == '_'
}

/// A name holds 2 to 20 characters, each of them a name character.
pub open spec fn is_name(s: Seq<char>) -> bool {
    &&& 2 <= s.len() <= 20
    &&& forall|k: int| 0 <= k < s.len() ==> is_name_char(#[trigger] s[k])
}

fn name_char(c: char) -> (ok: bool)
    ensures
        ok == is_name_char(c),
{
    ('a' <= c && c <= 'z') || ('A' <= c && c <= 'Z') || ('0' <= c && c <= '9') || c == '-'
        || c == '_'
}

/// Whether `name` is there and is a name: the test for a handle and for a
/// room name alike.
pub fn valid_name(name: Option<&str>) -> (ok: bool)
    ensures
        ok == match name {
            Some(text) => is_name(text@),
            None => false,
        },
{
    match name {
        None => false,
        Some(text) => {
            let chars = chars_of(text);
            if chars.len() < 2 {
                return false;
            }
            if chars.len() > 20 {
                return false;
            }
            let mut i: usize = 0;
            while i < chars.len()
                invariant
                    i <= chars.len(),
                    chars@ == text@,
                    name == Some(text),
                    2 <= chars.len() <= 20,
                    forall|k: int| 0 <= k < i ==> is_name_char(#[trigger] chars@[k]),
                decreases chars.len() - i,
            {
                if !name_char(chars[i]) {
                    assert(!is_name_char(text@[i as int]));
                    return false;
                }
                i += 1;
            }
            true
        },
    }
}

/// The texts of a sequence of strings, in order.
pub open spec fn texts(v: Seq<String>) -> Seq<Seq<char>> {
    v.map_values(|s: String| s@)
}

/// A finite set of texts, none held twice.
pub struct NameSet {
    items: Vec<String>,
}

impl View for NameSet {
    type V = Set<Seq<char>>;

    closed spec fn view(&self) -> Set<Seq<char>> {
        texts(self.items@).to_set()
    }
}

impl NameSet {
    /// No text is held twice.
    pub closed spec fn wf(&self) -> bool {
        texts(self.items@).no_duplicates()
    }

    /// How many texts the set holds.
    pub closed spec fn count(&self) -> nat {
        self.items@.len()
    }

    /// The set is finite, and `count` is its size.
    pub proof fn lemma_count(&self)
        requires
            self.wf(),
        ensures
            self@.finite(),
            self@.len() == self.count(),
    {
        texts(self.items@).unique_seq_to_set();
        vstd::seq_lib::seq_to_set_is_finite(texts(self.items@));
    }

    /// The empty set.
    pub fn new() -> (s: Self)
        ensures
            s.wf(),
            s@ == Set::<Seq<char>>::empty(),
    {
        let s = NameSet { items: Vec::new() };
        assert(texts(s.items@) =~= Seq::<Seq<char>>::empty());
        assert(s@ =~= Set::<Seq<char>>::empty());
        s
    }

    fn position(&self, name: &str) -> (at: Option<usize>)
        ensures
            at is Some == self@.contains(name@),
            at is Some ==> at.unwrap() < self.items.len() && self.items@[at.unwrap() as int]@
                == name@,
    {
        let wanted = String::from_str(name);
        let mut i: usize = 0;
        while i < self.items.len()
            invariant
                i <= self.items.len(),
                wanted@ == name@,
                forall|k: int| 0 <= k < i ==> texts(self.items@)[k] != name@,
            decreases self.items.len() - i,
        {
            if self.items[i] == wanted {
                assert(texts(self.items@)[i as int] == name@);
                return Some(i);
            }
            i += 1;
        }
        None
    }

    /// Whether `name` is in the set.
    pub fn contains(&self, name: &str) -> (found: bool)
        ensures
            found == self@.contains(name@),
    {
        self.position(name).is_some()
    }

    /// How many texts the set holds.
    pub fn len(&self) -> (n: usize)
        requires
            self.wf(),
        ensures
            n == self@.len(),
            n == self.count(),
    {
        proof {
            self.lemma_count();
        }
        self.items.len()
    }

    /// Puts `name` into the set and says whether it was new.
    pub fn insert(&mut self, name: String) -> (inserted: bool)
        requires
            old(self).wf(),
        ensures
            final(self).wf(),
            inserted == !old(self)@.contains(name@),
            final(self)@ == old(self)@.insert(name@),
    {
        if self.position(name.as_str()).is_some() {
            assert(self@.insert(name@) =~= self@);
            return false;
        }
        proof {
            let before = texts(self.items@);
            assert(texts(self.items@.push(name)) =~= before.push(name@));
            before.lemma_push_to_set_commute(name@);
            assert(!before.contains(name@));
        }
        self.items.push(name);
        true
    }

    /// Takes `name` out of the set and says whether it was there.
    pub fn remove(&mut self, name: &str) -> (removed: bool)
        requires
            old(self).wf(),
        ensures
            final(self).wf(),
            removed == old(self)@.contains(name@),
            final(self)@ == old(self)@.remove(name@),
    {
        match self.position(name) {
            None => {
                assert(self@.remove(name@) =~= self@);
                false
            },
            Some(at) => {
                proof {
                    let before = texts(self.items@);
                    let after = texts(self.items@.remove(at as int));
                    assert(after =~= before.remove(at as int));
                    assert forall|t: Seq<char>| after.to_set().contains(t) <==> before.to_set().remove(
                        name@,
                    ).contains(t) by {
                        assert(before[at as int] == name@);
                        if after.contains(t) {
                            let k = choose|k: int| 0 <= k < after.len() && after[k] == t;
                            if k < at {
                                assert(before[k] == t);
                            } else {
                                assert(before[k + 1] == t);
                            }
                            assert(before.contains(t));
                        }
                        if before.contains(t) && t != name@ {
                            let k = choose|k: int| 0 <= k < before.len() && before[k] == t;
                            if k < at {
                                assert(after[k] == t);
                            } else {
                                assert(after[k - 1] == t);
                            }
                            assert(after.contains(t));
                        }
                    }
                    assert(after.no_duplicates()) by {
                        assert forall|i: int, j: int|
                            0 <= i < after.len() && 0 <= j < after.len() && i != j implies after[i]
                            != after[j] by {
                            let bi = if i < at { i } else { i + 1 };
                            let bj = if j < at { j } else { j + 1 };
                            assert(after[i] == before[bi]);
                            assert(after[j] == before[bj]);
                        }
                    }
                    assert(after.to_set() =~= before.to_set().remove(name@));
                }
                self.items.remove(at);
                true
            },
        }
    }

    /// The texts of the set, each once, in no particular order.
    pub fn to_vec(&self) -> (v: Vec<String>)
        requires
            self.wf(),
        ensures
            texts(v@).no_duplicates(),
            texts(v@).to_set() == self@,
    {
        let v = self.items.clone();
        assert(texts(v@) =~= texts(self.items@)) by {
            assert(v@.len() == self.items@.len());
            assert forall|k: int| 0 <= k < v@.len() implies v@[k]@ == self.items@[k]@ by {
            }
        }
        v
    }
}

} // verus!
