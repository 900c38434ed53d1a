//! Random picks: a handle, and lines of chatter for the bots.
use vstd::prelude::*;
use crate::words::{ADJECTIVES, ANIMALS, ENGLISH, ENGLISH_EMOJIS, RUST, RUST_EMOJIS};

verus! {

/// `fastrand::usize` on the range `..n`: some number below `n`. The range
/// must not be empty.
#[verifier::external_body]
pub(crate) fn random_below(n: usize) -> (r: usize)
    requires
        n > 0,
    ensures
        r < n,
{
    fastrand::usize(..n)
}

/// `fastrand::u8` on the range `low..=high`: some number within the bounds.
/// The range must not be empty.
#[verifier::external_body]
fn random_between(low: u8, high: u8) -> (r: u8)
    requires
        low <= high,
    ensures
        low <= r <= high,
{
    fastrand::u8(low..=high)
}

/// `fastrand::bool`: either truth value.
#[verifier::external_body]
fn random_bool() -> bool {
    fastrand::bool()
}

/// `fastrand::shuffle`: the items are reordered, none is lost or added.
#[verifier::external_body]
pub(crate) fn shuffle(items: &mut Vec<usize>)
    ensures
        final(items)@.to_multiset() == old(items)@.to_multiset(),
{
    fastrand::shuffle(items)
}

/// One item of `array`, picked at random.
pub fn pick<T: Copy>(array: &[T]) -> (item: T)
    requires
        array@.len() > 0,
    ensures
        array@.contains(item),
{
    let at: usize = random_below(array.len());
    array[at]
}

/// Whether `s` is an adjective followed by an animal.
pub open spec fn is_pair(s: Seq<char>) -> bool {
    exists|i: int, j: int|
        0 <= i < ADJECTIVES@.len() && 0 <= j < ANIMALS@.len() && s == #[trigger] ADJECTIVES[i]@
            + #[trigger] ANIMALS[j]@
}

/// A handle made of an adjective and an animal, both picked at random.
pub fn random_name() -> (name: String)
    ensures
        is_pair(name@),
{
    let adjective = pick(&ADJECTIVES);
    let animal = pick(&ANIMALS);
    let mut name = String::from_str(adjective);
    name.append(animal);
    name
}

/// The texts of `words`, joined by single spaces.
pub open spec fn spaced(words: Seq<&'static str>) -> Seq<char>
    decreases words.len(),
{
    if words.len() == 0 {
        Seq::<char>::empty()
    } else if words.len() == 1 {
        words[0]@
    } else {
        spaced(words.drop_last()) + seq![' '] + words.last()@
    }
}

/// A line of chatter: the words joined by single spaces, then, where there
/// is a closing sign, a space and the sign.
pub open spec fn chatter(words: Seq<&'static str>, closer: Option<&'static str>) -> Seq<char> {
    match closer {
        Some(sign) => spaced(words) + seq![' '] + sign@,
        None => spaced(words),
    }
}

/// Builds the line of chatter that `words` and `closer` make.
pub fn compose(words: &Vec<&'static str>, closer: Option<&'static str>) -> (line: String)
    ensures
        line@ == chatter(words@, closer),
{
    let mut line = String::new();
    let mut i: usize = 0;
    while i < words.len()
        invariant
            i <= words.len(),
            line@ == spaced(words@.take(i as int)),
        decreases words.len() - i,
    {
        proof {
            let now = words@.take(i + 1);
            assert(now.drop_last() == words@.take(i as int));
            assert(now.last() == words@[i as int]);
            if i > 0 {
                assert(spaced(now) == spaced(now.drop_last()) + seq![' '] + now.last()@);
            } else {
                assert(spaced(now) == now[0]@);
                assert(line@ + words@[0]@ == words@[0]@);
            }
        }
        if i > 0 {
            line.push(' ');
        }
        line.append(words[i]);
        i += 1;
    }
    assert(words@.take(words.len() as int) == words@);
    match closer {
        Some(sign) => {
            line.push(' ');
            line.append(sign);
        },
        None => {},
    }
    line
}

/// Whether `line` is chatter of 2 to `most` words of `lexicon`, closed or
/// not by a sign of `signs`.
pub open spec fn is_chatter(
    line: Seq<char>,
    lexicon: Seq<&'static str>,
    signs: Seq<&'static str>,
    most: nat,
) -> bool {
    exists|words: Seq<&'static str>, closer: Option<&'static str>|
        {
            &&& 2 <= words.len() <= most
            &&& forall|k: int| 0 <= k < words.len() ==> lexicon.contains(#[trigger] words[k])
            &&& closer is Some ==> signs.contains(closer.unwrap())
            &&& line == #[trigger] chatter(words, closer)
        }
}

/// A random line of 2 to `most` words of `lexicon`, closed by a sign of
/// `signs` in some cases.
fn random_chatter(lexicon: &[&'static str], signs: &[&'static str], most: u8) -> (line: String)
    requires
        lexicon@.len() > 0,
        signs@.len() > 0,
        most >= 2,
    ensures
        is_chatter(line@, lexicon@, signs@, most as nat),
{
    let count: u8 = random_between(2, most);
    let mut words: Vec<&'static str> = Vec::new();
    let mut n: u8 = 0;
    while n < count
        invariant
            n <= count,
            lexicon@.len() > 0,
            words@.len() == n,
            forall|k: int| 0 <= k < words@.len() ==> lexicon@.contains(#[trigger] words@[k]),
        decreases count - n,
    {
        words.push(pick(lexicon));
        n += 1;
    }
    let closer: Option<&'static str> = if random_bool() {
        Some(pick(signs))
    } else {
        None
    };
    compose(&words, closer)
}

/// A random line of small talk: 2 to 10 words, closed by a face in some
/// cases.
pub fn random_english_msg() -> (line: String)
    ensures
        is_chatter(line@, ENGLISH@, ENGLISH_EMOJIS@, 10),
{
    random_chatter(&ENGLISH, &ENGLISH_EMOJIS, 10)
}

/// A random line of shop talk: 2 to 8 words, closed by a sign in some
/// cases.
pub fn random_rust_msg() -> (line: String)
    ensures
        is_chatter(line@, RUST@, RUST_EMOJIS@, 8),
{
    random_chatter(&RUST, &RUST_EMOJIS, 8)
}

} // verus!
