//! The word lists from which handles and chatter are drawn.
use vstd::prelude::*;

verus! {

/// The first halves of generated handles.
pub const ADJECTIVES: [&'static str; 24] = [
    "able",
    "bold",
    "brave",
    "bright",
    "calm",
    "clever",
    "daring",
    "eager",
    "fancy",
    "gentle",
    "happy",
    "jolly",
    "keen",
    "lively",
    "merry",
    "noble",
    "proud",
    "quick",
    "quiet",
    "shiny",
    "swift",
    "tidy",
    "witty",
    "zesty",
];

/// The second halves of generated handles.
pub const ANIMALS: [&'static str; 24] = [
    "ant",
    "badger",
    "bear",
    "beaver",
    "bison",
    "camel",
    "cobra",
    "crane",
    "eagle",
    "falcon",
    "ferret",
    "gecko",
    "heron",
    "koala",
    "lemur",
    "llama",
    "moose",
    "otter",
    "panda",
    "raven",
    "tiger",
    "walrus",
    "wombat",
    "zebra",
];

/// Words of small talk.
pub const ENGLISH: [&'static str; 16] = [
    "hello",
    "there",
    "maybe",
    "today",
    "the",
    "weather",
    "is",
    "nice",
    "coffee",
    "sounds",
    "good",
    "thanks",
    "really",
    "great",
    "idea",
    "later",
];

/// Words of shop talk.
pub const RUST: [&'static str; 16] = [
    "borrow",
    "compiler",
    "trait",
    "lifetime",
    "crate",
    "cargo",
    "macro",
    "closure",
    "iterator",
    "pattern",
    "ownership",
    "generic",
    "module",
    "enum",
    "struct",
    "slice",
];

/// Faces that may close a line of small talk.
pub const ENGLISH_EMOJIS: [&'static str; 4] = ["\u{1F600}", "\u{1F609}", "\u{1F60E}", "\u{1F642}"];

/// Signs that may close a line of shop talk.
pub const RUST_EMOJIS: [&'static str; 3] = ["\u{1F980}", "\u{2699}\u{FE0F}", "\u{1F680}"];

/// A plain word: 1 to 9 lower-case ASCII letters.
pub open spec fn is_plain_word(s: Seq<char>) -> bool {
    &&& 1 <= s.len() <= 9
    &&& forall|k: int| 0 <= k < s.len() ==> 'a' <= #[trigger] s[k] <= 'z'
}

/// Every adjective is a plain word.
pub proof fn lemma_adjectives_plain()
    ensures
        forall|i: int| 0 <= i < 24 ==> is_plain_word(#[trigger] ADJECTIVES[i]@),
{
    reveal_strlit("able");
    reveal_strlit("bold");
    reveal_strlit("brave");
    reveal_strlit("bright");
    reveal_strlit("calm");
    reveal_strlit("clever");
    reveal_strlit("daring");
    reveal_strlit("eager");
    reveal_strlit("fancy");
    reveal_strlit("gentle");
    reveal_strlit("happy");
    reveal_strlit("jolly");
    reveal_strlit("keen");
    reveal_strlit("lively");
    reveal_strlit("merry");
    reveal_strlit("noble");
    reveal_strlit("proud");
    reveal_strlit("quick");
    reveal_strlit("quiet");
    reveal_strlit("shiny");
    reveal_strlit("swift");
    reveal_strlit("tidy");
    reveal_strlit("witty");
    reveal_strlit("zesty");
    assert(is_plain_word("able"@));
    assert(is_plain_word("bold"@));
    assert(is_plain_word("brave"@));
    assert(is_plain_word("bright"@));
    assert(is_plain_word("calm"@));
    assert(is_plain_word("clever"@));
    assert(is_plain_word("daring"@));
    assert(is_plain_word("eager"@));
    assert(is_plain_word("fancy"@));
    assert(is_plain_word("gentle"@));
    assert(is_plain_word("happy"@));
    assert(is_plain_word("jolly"@));
    assert(is_plain_word("keen"@));
    assert(is_plain_word("lively"@));
    assert(is_plain_word("merry"@));
    assert(is_plain_word("noble"@));
    assert(is_plain_word("proud"@));
    assert(is_plain_word("quick"@));
    assert(is_plain_word("quiet"@));
    assert(is_plain_word("shiny"@));
    assert(is_plain_word("swift"@));
    assert(is_plain_word("tidy"@));
    assert(is_plain_word("witty"@));
    assert(is_plain_word("zesty"@));
}

/// Every animal is a plain word.
pub proof fn lemma_animals_plain()
    ensures
        forall|i: int| 0 <= i < 24 ==> is_plain_word(#[trigger] ANIMALS[i]@),
{
    reveal_strlit("ant");
    reveal_strlit("badger");
    reveal_strlit("bear");
    reveal_strlit("beaver");
    reveal_strlit("bison");
    reveal_strlit("camel");
    reveal_strlit("cobra");
    reveal_strlit("crane");
    reveal_strlit("eagle");
    reveal_strlit("falcon");
    reveal_strlit("ferret");
    reveal_strlit("gecko");
    reveal_strlit("heron");
    reveal_strlit("koala");
    reveal_strlit("lemur");
    reveal_strlit("llama");
    reveal_strlit("moose");
    reveal_strlit("otter");
    reveal_strlit("panda");
    reveal_strlit("raven");
    reveal_strlit("tiger");
    reveal_strlit("walrus");
    reveal_strlit("wombat");
    reveal_strlit("zebra");
    assert(is_plain_word("ant"@));
    assert(is_plain_word("badger"@));
    assert(is_plain_word("bear"@));
    assert(is_plain_word("beaver"@));
    assert(is_plain_word("bison"@));
    assert(is_plain_word("camel"@));
    assert(is_plain_word("cobra"@));
    assert(is_plain_word("crane"@));
    assert(is_plain_word("eagle"@));
    assert(is_plain_word("falcon"@));
    assert(is_plain_word("ferret"@));
    assert(is_plain_word("gecko"@));
    assert(is_plain_word("heron"@));
    assert(is_plain_word("koala"@));
    assert(is_plain_word("lemur"@));
    assert(is_plain_word("llama"@));
    assert(is_plain_word("moose"@));
    assert(is_plain_word("otter"@));
    assert(is_plain_word("panda"@));
    assert(is_plain_word("raven"@));
    assert(is_plain_word("tiger"@));
    assert(is_plain_word("walrus"@));
    assert(is_plain_word("wombat"@));
    assert(is_plain_word("zebra"@));
}

/// The first adjective and the second animal make a handle of ten letters.
pub proof fn lemma_first_pair()
    ensures
        ADJECTIVES[0]@.len() == 4,
        ANIMALS[1]@.len() == 6,
{
    reveal_strlit("able");
    reveal_strlit("badger");
}

} // verus!
