//! Listings: names with a count, ordered by falling count and, where counts
//! are equal, by name.
use vstd::prelude::*;
use crate::text::{lemma_text_order_total, lemma_text_order_transitive, text_before, text_less};

verus! {

/// What an entry of a listing stands for: a name and a count.
pub open spec fn entry_view(e: (String, usize)) -> (Seq<char>, nat) {
    (e.0@, e.1 as nat)
}

/// What the entries of a listing stand for, in order.
pub open spec fn entry_views(v: Seq<(String, usize)>) -> Seq<(Seq<char>, nat)> {
    v.map_values(|e: (String, usize)| entry_view(e))
}

/// The names of a listing, in order.
pub open spec fn entry_names(v: Seq<(Seq<char>, nat)>) -> Seq<Seq<char>> {
    v.map_values(|e: (Seq<char>, nat)| e.0)
}

/// `a` is listed strictly before `b`: it has the greater count, or the same
/// count and the name that comes first.
pub open spec fn listed_before(a: (Seq<char>, nat), b: (Seq<char>, nat)) -> bool {
    a.1 > b.1 || (a.1 == b.1 && text_before(a.0, b.0))
}

/// No entry is listed strictly before an earlier one.
pub open spec fn in_listing_order(s: Seq<(Seq<char>, nat)>) -> bool {
    forall|i: int, j: int| 0 <= i < j < s.len() ==> !listed_before(#[trigger] s[j], #[trigger] s[i])
}

/// Each name comes strictly before the names after it.
pub open spec fn ascending(s: Seq<Seq<char>>) -> bool {
    forall|i: int, j: int| 0 <= i < j < s.len() ==> text_before(#[trigger] s[i], #[trigger] s[j])
}

/// The order of listings is transitive and never holds both ways.
pub proof fn lemma_listed_before_order(
    a: (Seq<char>, nat),
    b: (Seq<char>, nat),
    c: (Seq<char>, nat),
)
    ensures
        listed_before(a, b) && listed_before(b, c) ==> listed_before(a, c),
        !(listed_before(a, b) && listed_before(b, a)),
        a == b || listed_before(a, b) || listed_before(b, a),
{
    lemma_text_order_total(a.0, b.0);
    if text_before(a.0, b.0) && text_before(b.0, c.0) {
        lemma_text_order_transitive(a.0, b.0, c.0);
    }
}

/// Putting `x` into a sequence adds it to what the sequence holds.
pub proof fn lemma_insert_to_multiset<A>(s: Seq<A>, at: int, x: A)
    requires
        0 <= at <= s.len(),
    ensures
        s.insert(at, x).to_multiset() == s.to_multiset().insert(x),
{
    broadcast use vstd::seq_lib::group_to_multiset_ensures;

    let t = s.insert(at, x);
    assert(t.remove(at) =~= s);
    assert(t[at] == x);
    assert(t.remove(at).to_multiset() =~= t.to_multiset().remove(x));
    assert(t.contains(x));
    assert(t.to_multiset().count(x) > 0);
    assert(t.to_multiset() =~= s.to_multiset().insert(x));
}

fn comes_before(a: &(String, usize), b: &(String, usize)) -> (before: bool)
    ensures
        before == listed_before(entry_view(*a), entry_view(*b)),
{
    if a.1 > b.1 {
        true
    } else if a.1 < b.1 {
        false
    } else {
        text_less(a.0.as_str(), b.0.as_str())
    }
}

/// Puts `entry` into `sorted` at its place.
fn place(sorted: &mut Vec<(String, usize)>, entry: (String, usize))
    requires
        in_listing_order(entry_views(old(sorted)@)),
    ensures
        in_listing_order(entry_views(final(sorted)@)),
        entry_views(final(sorted)@).to_multiset() == entry_views(old(sorted)@).to_multiset().insert(
            entry_view(entry),
        ),
{
    let ghost before = entry_views(sorted@);
    let ghost x = entry_view(entry);
    let mut at: usize = 0;
    while at < sorted.len() && !comes_before(&entry, &sorted[at])
        invariant
            at <= sorted.len(),
            before == entry_views(sorted@),
            x == entry_view(entry),
            forall|q: int| 0 <= q < at ==> !listed_before(x, #[trigger] before[q]),
        decreases sorted.len() - at,
    {
        assert(before[at as int] == entry_view(sorted@[at as int]));
        at += 1;
    }
    proof {
        let after = before.insert(at as int, x);
        assert(entry_views(sorted@.insert(at as int, entry)) =~= after);
        lemma_insert_to_multiset(before, at as int, x);
        assert forall|i: int, j: int| 0 <= i < j < after.len() implies !listed_before(
            #[trigger] after[j],
            #[trigger] after[i],
        ) by {
            if j == at {
                assert(after[i] == before[i]);
            } else if i == at {
                assert(after[j] == before[j - 1]);
                assert(before[at as int] == entry_view(sorted@[at as int]));
                lemma_listed_before_order(after[j], x, before[at as int]);
                lemma_listed_before_order(x, before[at as int], x);
                if j - 1 > at {
                    assert(!listed_before(before[j - 1], before[at as int]));
                }
            } else {
                let bi = if i < at { i } else { i - 1 };
                let bj = if j < at { j } else { j - 1 };
                assert(after[i] == before[bi]);
                assert(after[j] == before[bj]);
            }
        }
    }
    sorted.insert(at, entry);
}

/// The entries in listing order.
pub fn sort_listing(entries: Vec<(String, usize)>) -> (sorted: Vec<(String, usize)>)
    ensures
        in_listing_order(entry_views(sorted@)),
        entry_views(sorted@).to_multiset() == entry_views(entries@).to_multiset(),
{
    let mut rest = entries;
    let mut sorted: Vec<(String, usize)> = Vec::new();
    assert(entry_views(sorted@) =~= Seq::<(Seq<char>, nat)>::empty());
    proof {
        broadcast use vstd::seq_lib::group_to_multiset_ensures;

        assert(entry_views(sorted@).to_multiset() =~= vstd::multiset::Multiset::empty());
    }
    while rest.len() > 0
        invariant
            in_listing_order(entry_views(sorted@)),
            entry_views(sorted@).to_multiset().add(entry_views(rest@).to_multiset())
                == entry_views(entries@).to_multiset(),
        decreases rest.len(),
    {
        let ghost had = entry_views(rest@);
        let ghost done = entry_views(sorted@);
        let entry = rest.pop().unwrap();
        proof {
            broadcast use vstd::seq_lib::group_to_multiset_ensures;

            assert(entry_views(rest@) =~= had.drop_last());
            assert(had =~= had.drop_last().push(entry_view(entry)));
            assert(had.to_multiset() =~= had.drop_last().to_multiset().insert(entry_view(entry)));
            assert(done.to_multiset().insert(entry_view(entry)).add(
                had.drop_last().to_multiset(),
            ) =~= done.to_multiset().add(had.to_multiset()));
        }
        place(&mut sorted, entry);
    }
    proof {
        broadcast use vstd::seq_lib::group_to_multiset_ensures;

        assert(entry_views(rest@) =~= Seq::<(Seq<char>, nat)>::empty());
        assert(entry_views(rest@).to_multiset() =~= vstd::multiset::Multiset::empty());
        assert(entry_views(sorted@).to_multiset().add(entry_views(rest@).to_multiset())
            =~= entry_views(sorted@).to_multiset());
    }
    sorted
}

/// The position of `name` among `names`.
pub open spec fn place_of(names: Seq<Seq<char>>, name: Seq<char>) -> int {
    choose|i: int| 0 <= i < names.len() && names[i] == name
}

/// Whether `listing` lists the rooms of `census`, each once with its count,
/// in listing order.
pub open spec fn is_listing_of(listing: Seq<(Seq<char>, nat)>, census: Map<Seq<char>, nat>) -> bool {
    &&& in_listing_order(listing)
    &&& entry_names(listing).no_duplicates()
    &&& forall|i: int|
        0 <= i < listing.len() ==> census.contains_key((#[trigger] listing[i]).0) && census[listing[i].0]
            == listing[i].1
    &&& forall|name: Seq<char>| #[trigger]
        census.contains_key(name) ==> entry_names(listing).contains(name)
}

/// The counts of a listing, by name.
pub open spec fn census_of(entries: Seq<(Seq<char>, nat)>) -> Map<Seq<char>, nat> {
    Map::new(
        |name: Seq<char>| entry_names(entries).contains(name),
        |name: Seq<char>| entries[place_of(entry_names(entries), name)].1,
    )
}

/// Entries with distinct names, put in listing order, list each name once
/// with its count.
pub proof fn lemma_sorted_is_listing(entries: Seq<(Seq<char>, nat)>, sorted: Seq<(Seq<char>, nat)>)
    requires
        entry_names(entries).no_duplicates(),
        sorted.to_multiset() == entries.to_multiset(),
        in_listing_order(sorted),
    ensures
        is_listing_of(sorted, census_of(entries)),
        census_of(entries).dom() == entry_names(entries).to_set(),
        sorted.len() == entries.len(),
{
    broadcast use vstd::seq_lib::group_to_multiset_ensures;

    let census = census_of(entries);
    assert(census.dom() =~= entry_names(entries).to_set());
    assert(sorted.len() == entries.len()) by {
        sorted.to_multiset_ensures();
        entries.to_multiset_ensures();
    }
    assert forall|i: int| 0 <= i < sorted.len() implies census.contains_key(
        (#[trigger] sorted[i]).0,
    ) && census[sorted[i].0] == sorted[i].1 by {
        let e = sorted[i];
        assert(sorted.contains(e));
        assert(entries.to_multiset().count(e) > 0);
        assert(entries.contains(e));
        let k = choose|k: int| 0 <= k < entries.len() && entries[k] == e;
        assert(entry_names(entries)[k] == e.0);
        assert(entry_names(entries).contains(e.0));
        let p = place_of(entry_names(entries), e.0);
        assert(entry_names(entries)[p] == e.0);
        assert(p == k);
    }
    assert forall|name: Seq<char>| #[trigger] census.contains_key(name) implies entry_names(
        sorted,
    ).contains(name) by {
        let k = place_of(entry_names(entries), name);
        assert(entry_names(entries)[k] == name);
        let e = entries[k];
        assert(entries.contains(e));
        assert(sorted.to_multiset().count(e) > 0);
        assert(sorted.contains(e));
        let i = choose|i: int| 0 <= i < sorted.len() && sorted[i] == e;
        assert(entry_names(sorted)[i] == name);
    }
    assert forall|i: int, j: int|
        0 <= i < sorted.len() && 0 <= j < sorted.len() && i != j implies entry_names(sorted)[i]
        != entry_names(sorted)[j] by {
        if sorted[i].0 == sorted[j].0 {
            assert(census[sorted[i].0] == sorted[i].1);
            assert(census[sorted[j].0] == sorted[j].1);
            assert(sorted[i] == sorted[j]);
            assert(entries.no_duplicates()) by {
                assert forall|a: int, b: int|
                    0 <= a < entries.len() && 0 <= b < entries.len() && a != b implies entries[a]
                    != entries[b] by {
                    assert(entry_names(entries)[a] != entry_names(entries)[b]);
                }
            }
            entries.lemma_multiset_has_no_duplicates();
            sorted.lemma_multiset_has_no_duplicates_conv();
        }
    }
}

/// The names in ascending order.
pub fn sort_names(names: Vec<String>) -> (sorted: Vec<String>)
    requires
        crate::names::texts(names@).no_duplicates(),
    ensures
        ascending(crate::names::texts(sorted@)),
        crate::names::texts(sorted@).to_set() == crate::names::texts(names@).to_set(),
{
    let mut entries: Vec<(String, usize)> = Vec::new();
    let mut i: usize = 0;
    while i < names.len()
        invariant
            i <= names.len(),
            entries@.len() == i,
            forall|k: int| 0 <= k < i ==> (#[trigger] entries@[k]).0@ == names@[k]@ && entries@[k].1 == 0,
        decreases names.len() - i,
    {
        entries.push((names[i].clone(), 0));
        i += 1;
    }
    let listed = sort_listing(entries);
    let ghost views = entry_views(listed@);
    proof {
        assert(entry_names(entry_views(entries@)) =~= crate::names::texts(names@));
        lemma_sorted_is_listing(entry_views(entries@), views);
    }
    let mut sorted: Vec<String> = Vec::new();
    let mut k: usize = 0;
    while k < listed.len()
        invariant
            k <= listed.len(),
            sorted@.len() == k,
            forall|q: int| 0 <= q < k ==> (#[trigger] sorted@[q])@ == listed@[q].0@,
        decreases listed.len() - k,
    {
        sorted.push(listed[k].0.clone());
        k += 1;
    }
    proof {
        let out = crate::names::texts(sorted@);
        let census = census_of(entry_views(entries@));
        assert(out =~= entry_names(views));
        assert forall|a: int, b: int| 0 <= a < b < out.len() implies text_before(
            #[trigger] out[a],
            #[trigger] out[b],
        ) by {
            assert(!listed_before(views[b], views[a]));
            assert(census[views[a].0] == views[a].1);
            assert(census[views[b].0] == views[b].1);
            let pa = place_of(entry_names(entry_views(entries@)), views[a].0);
            let pb = place_of(entry_names(entry_views(entries@)), views[b].0);
            assert(entry_views(entries@)[pa].1 == 0);
            assert(entry_views(entries@)[pb].1 == 0);
            lemma_text_order_total(out[a], out[b]);
        }
        assert forall|name: Seq<char>| out.contains(name) implies census.contains_key(name) by {
            let q = choose|q: int| 0 <= q < out.len() && out[q] == name;
            assert(census.contains_key(views[q].0));
        }
        assert(out.to_set() =~= crate::names::texts(names@).to_set());
    }
    sorted
}

/// Names in ascending order are all different.
pub proof fn lemma_ascending_distinct(a: Seq<Seq<char>>)
    requires
        ascending(a),
    ensures
        a.no_duplicates(),
{
    assert forall|i: int, j: int| 0 <= i < a.len() && 0 <= j < a.len() && i != j implies a[i]
        != a[j] by {
        lemma_text_order_total(a[i], a[j]);
        if i < j {
            assert(text_before(a[i], a[j]));
        } else {
            assert(text_before(a[j], a[i]));
        }
    }
}

/// A set of names has one ascending order only.
pub proof fn lemma_ascending_unique(a: Seq<Seq<char>>, b: Seq<Seq<char>>)
    requires
        ascending(a),
        ascending(b),
        a.to_set() == b.to_set(),
    ensures
        a == b,
    decreases a.len(),
{
    lemma_ascending_distinct(a);
    lemma_ascending_distinct(b);
    a.unique_seq_to_set();
    b.unique_seq_to_set();
    if a.len() == 0 {
        assert(a =~= b);
    } else {
        let x = a.last();
        let y = b.last();
        assert(a.contains(x));
        assert(b.to_set().contains(x));
        assert(b.contains(x));
        let j = choose|j: int| 0 <= j < b.len() && b[j] == x;
        assert(b.contains(y));
        assert(a.to_set().contains(y));
        assert(a.contains(y));
        let i = choose|i: int| 0 <= i < a.len() && a[i] == y;
        lemma_text_order_total(x, y);
        if x != y {
            assert(text_before(b[j], b[b.len() - 1]));
            assert(text_before(a[i], a[a.len() - 1]));
        }
        let a_front = a.drop_last();
        let b_front = b.drop_last();
        assert forall|t: Seq<char>| a_front.to_set().contains(t) <==> b_front.to_set().contains(t) by {
            if a_front.contains(t) {
                let k = choose|k: int| 0 <= k < a_front.len() && a_front[k] == t;
                assert(a[k] == t);
                assert(a.contains(t));
                assert(b.to_set().contains(t));
                assert(b.contains(t));
                let m = choose|m: int| 0 <= m < b.len() && b[m] == t;
                assert(b_front[m] == t);
            }
            if b_front.contains(t) {
                let k = choose|k: int| 0 <= k < b_front.len() && b_front[k] == t;
                assert(b[k] == t);
                assert(b.contains(t));
                assert(a.to_set().contains(t));
                assert(a.contains(t));
                let m = choose|m: int| 0 <= m < a.len() && a[m] == t;
                assert(a_front[m] == t);
            }
        }
        assert(a_front.to_set() =~= b_front.to_set());
        assert(ascending(a_front)) by {
            assert forall|p: int, q: int| 0 <= p < q < a_front.len() implies text_before(
                #[trigger] a_front[p],
                #[trigger] a_front[q],
            ) by {
                assert(text_before(a[p], a[q]));
            }
        }
        assert(ascending(b_front)) by {
            assert forall|p: int, q: int| 0 <= p < q < b_front.len() implies text_before(
                #[trigger] b_front[p],
                #[trigger] b_front[q],
            ) by {
                assert(text_before(b[p], b[q]));
            }
        }
        lemma_ascending_unique(a_front, b_front);
        assert(a =~= a_front.push(x));
        assert(b =~= b_front.push(y));
    }
}

/// The names of `set` in ascending order.
pub open spec fn in_order(set: Set<Seq<char>>) -> Seq<Seq<char>> {
    choose|a: Seq<Seq<char>>| ascending(a) && a.to_set() == set
}

/// An ascending sequence is the order of its set.
pub proof fn lemma_in_order(a: Seq<Seq<char>>)
    requires
        ascending(a),
    ensures
        in_order(a.to_set()) == a,
{
    let b = in_order(a.to_set());
    lemma_ascending_unique(a, b);
}

/// How many names of `a` come before `x`, where `a` is in ascending
/// order: the place at which `x` belongs.
pub open spec fn rank(a: Seq<Seq<char>>, x: Seq<char>) -> int
    decreases a.len(),
{
    if a.len() == 0 {
        0
    } else if text_before(a.last(), x) {
        a.len() as int
    } else {
        rank(a.drop_last(), x)
    }
}

/// In ascending names without `x`, the names before the place of `x` come
/// before `x`, and `x` comes before the others.
pub proof fn lemma_rank(a: Seq<Seq<char>>, x: Seq<char>)
    requires
        ascending(a),
        !a.contains(x),
    ensures
        0 <= rank(a, x) <= a.len(),
        forall|i: int| 0 <= i < rank(a, x) ==> text_before(#[trigger] a[i], x),
        forall|i: int| rank(a, x) <= i < a.len() ==> text_before(x, #[trigger] a[i]),
    decreases a.len(),
{
    if a.len() > 0 {
        let last = a.len() - 1;
        assert(a.contains(a[last]));
        lemma_text_order_total(a[last], x);
        if text_before(a.last(), x) {
            assert forall|i: int| 0 <= i < a.len() implies text_before(#[trigger] a[i], x) by {
                if i < last {
                    assert(text_before(a[i], a[last]));
                    lemma_text_order_transitive(a[i], a[last], x);
                }
            }
        } else {
            let front = a.drop_last();
            assert(ascending(front)) by {
                assert forall|p: int, q: int| 0 <= p < q < front.len() implies text_before(
                    #[trigger] front[p],
                    #[trigger] front[q],
                ) by {
                    assert(text_before(a[p], a[q]));
                }
            }
            if front.contains(x) {
                let j = choose|j: int| 0 <= j < front.len() && front[j] == x;
                assert(a[j] == x);
            }
            lemma_rank(front, x);
            assert forall|i: int| 0 <= i < rank(a, x) implies text_before(#[trigger] a[i], x) by {
                assert(a[i] == front[i]);
            }
            assert forall|i: int| rank(a, x) <= i < a.len() implies text_before(
                x,
                #[trigger] a[i],
            ) by {
                if i < last {
                    assert(a[i] == front[i]);
                }
            }
        }
    }
}

/// Every finite set of names has an ascending order.
pub proof fn lemma_order_exists(set: Set<Seq<char>>)
    requires
        set.finite(),
    ensures
        ascending(in_order(set)),
        in_order(set).to_set() == set,
    decreases set.len(),
{
    if set.len() == 0 {
        let a = Seq::<Seq<char>>::empty();
        assert(a.to_set() =~= set);
        assert(ascending(a));
    } else {
        let x = set.choose();
        let rest = set.remove(x);
        lemma_order_exists(rest);
        let a = in_order(rest);
        if a.contains(x) {
            assert(a.to_set().contains(x));
        }
        lemma_rank(a, x);
        let at = rank(a, x);
        let b = a.insert(at, x);
        assert forall|p: int, q: int| 0 <= p < q < b.len() implies text_before(
            #[trigger] b[p],
            #[trigger] b[q],
        ) by {
            if p == at {
                assert(b[q] == a[q - 1]);
            } else if q == at {
                assert(b[p] == a[p]);
            } else {
                let ap = if p < at { p } else { p - 1 };
                let aq = if q < at { q } else { q - 1 };
                assert(b[p] == a[ap]);
                assert(b[q] == a[aq]);
            }
        }
        assert forall|t: Seq<char>| b.to_set().contains(t) <==> set.contains(t) by {
            if b.contains(t) {
                let k = choose|k: int| 0 <= k < b.len() && b[k] == t;
                if k < at {
                    assert(a[k] == t);
                    assert(a.contains(t));
                } else if k > at {
                    assert(a[k - 1] == t);
                    assert(a.contains(t));
                }
                assert(t == x || a.to_set().contains(t));
            }
            if set.contains(t) {
                if t == x {
                    assert(b[at] == t);
                } else {
                    assert(rest.contains(t));
                    assert(a.to_set().contains(t));
                    assert(a.contains(t));
                    let k = choose|k: int| 0 <= k < a.len() && a[k] == t;
                    if k < at {
                        assert(b[k] == t);
                    } else {
                        assert(b[k + 1] == t);
                    }
                }
            }
        }
        assert(b.to_set() =~= set);
    }
}

} // verus!
