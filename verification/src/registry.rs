//! The registry of the handles in use.
use vstd::prelude::*;
use crate::generator::{compact_as_str, NameGenerator, ADJECTIVE_COUNT, ANIMAL_COUNT};
use crate::names::{is_name, NameSet};

verus! {

/// How many handles `reserve_unique` asks the generator for before it gives
/// up: as many as there are pairs.
pub const TRIES: usize = ADJECTIVE_COUNT * ANIMAL_COUNT;

/// Whether call number `n` of the generator is the first that gives a handle
/// which `taken` does not hold.
pub open spec fn first_free(taken: Set<Seq<char>>, generator: NameGenerator, n: nat) -> bool {
    &&& !taken.contains(generator.name_ahead(n))
    &&& forall|m: nat| m < n ==> taken.contains(#[trigger] generator.name_ahead(m))
}

/// The handles in use. A handle is in the registry from the moment it is
/// reserved or taken by a rename until it is released.
pub struct HandleRegistry {
    names: NameSet,
}

impl View for HandleRegistry {
    type V = Set<Seq<char>>;

    closed spec fn view(&self) -> Set<Seq<char>> {
        self.names@
    }
}

impl HandleRegistry {
    pub closed spec fn wf(&self) -> bool {
        self.names.wf()
    }

    /// The registry is finite.
    pub proof fn lemma_finite(&self)
        requires
            self.wf(),
        ensures
            self@.finite(),
    {
        self.names.lemma_count();
    }

    /// A registry without handles.
    pub fn new() -> (registry: Self)
        ensures
            registry.wf(),
            registry@ == Set::<Seq<char>>::empty(),
    {
        HandleRegistry { names: NameSet::new() }
    }

    /// How many handles are in use.
    pub fn len(&self) -> (n: usize)
        requires
            self.wf(),
        ensures
            n == self@.len(),
    {
        self.names.len()
    }

    /// Whether `name` is in use.
    pub fn contains(&self, name: &str) -> (found: bool)
        ensures
            found == self@.contains(name@),
    {
        self.names.contains(name)
    }

    /// Takes `name` where it is free, and says whether it did.
    pub fn try_insert(&mut self, name: String) -> (inserted: bool)
        requires
            old(self).wf(),
        ensures
            final(self).wf(),
            inserted == !old(self)@.contains(name@),
            final(self)@ == old(self)@.insert(name@),
    {
        self.names.insert(name)
    }

    /// Frees `name`, and says whether it was in use.
    pub fn release(&mut self, name: &str) -> (removed: bool)
        requires
            old(self).wf(),
        ensures
            final(self).wf(),
            removed == old(self)@.contains(name@),
            final(self)@ == old(self)@.remove(name@),
    {
        self.names.remove(name)
    }

    /// Asks the generator for handles until one is free, and takes it. After
    /// `TRIES` handles that were all in use it gives up and leaves the
    /// registry as it was.
    pub fn reserve_unique(&mut self, generator: &mut NameGenerator) -> (handle: Option<String>)
        requires
            old(self).wf(),
            old(generator).wf(),
        ensures
            final(self).wf(),
            final(generator).wf(),
            match handle {
                Some(h) => exists|n: nat|
                    {
                        &&& n < TRIES
                        &&& #[trigger] first_free(old(self)@, *old(generator), n)
                        &&& h@ == old(generator).name_ahead(n)
                        &&& *final(generator) == old(generator).ahead(n + 1)
                        &&& final(self)@ == old(self)@.insert(h@)
                        &&& is_name(h@)
                    },
                None => {
                    &&& forall|n: nat|
                        n < TRIES ==> old(self)@.contains(#[trigger] old(generator).name_ahead(n))
                    &&& final(self)@ == old(self)@
                    &&& *final(generator) == old(generator).ahead(TRIES as nat)
                },
            },
    {
        let mut tried: usize = 0;
        while tried < TRIES
            invariant
                tried <= TRIES,
                self.wf(),
                generator.wf(),
                self@ == old(self)@,
                *generator == old(generator).ahead(tried as nat),
                forall|m: nat|
                    m < tried ==> old(self)@.contains(#[trigger] old(generator).name_ahead(m)),
            decreases TRIES - tried,
        {
            let candidate = generator.next();
            let name = String::from_str(compact_as_str(&candidate));
            assert(name@ == old(generator).name_ahead(tried as nat));
            assert(*generator == old(generator).ahead((tried + 1) as nat));
            if self.names.insert(name.clone()) {
                assert(first_free(old(self)@, *old(generator), tried as nat));
                return Some(name);
            }
            tried += 1;
        }
        None
    }
}

} // verus!
