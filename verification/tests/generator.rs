use chat_server::generator::NameGenerator;
use chat_server::names::valid_name;
use chat_server::random::{compose, pick, random_english_msg, random_name, random_rust_msg};
use chat_server::words::{ADJECTIVES, ANIMALS, ENGLISH, ENGLISH_EMOJIS, RUST, RUST_EMOJIS};

fn is_pair(name: &str) -> bool {
    ADJECTIVES.iter().any(|adjective| {
        name.starts_with(adjective) && ANIMALS.contains(&&name[adjective.len()..])
    })
}

#[test]
fn generated_names_have_eight_to_twelve_letters() {
    let mut generator = NameGenerator::new();
    for _ in 0..2000 {
        let name = generator.next();
        assert!(name.len() >= 8 && name.len() <= 12, "{}", name);
        assert!(valid_name(Some(name.as_str())));
        assert!(is_pair(name.as_str()), "{}", name);
    }
}

#[test]
fn generator_gives_every_fitting_pair_once_in_a_cycle() {
    let mut fitting = 0;
    for adjective in ADJECTIVES.iter() {
        for animal in ANIMALS.iter() {
            let length = adjective.len() + animal.len();
            if (8..=12).contains(&length) {
                fitting += 1;
            }
        }
    }
    let mut generator = NameGenerator::new();
    let mut seen: Vec<String> = Vec::new();
    for _ in 0..fitting {
        let name = generator.next().to_string();
        assert!(!seen.contains(&name), "{} twice", name);
        seen.push(name);
    }
    let again = generator.next().to_string();
    assert_eq!(again, seen[0]);
}

#[test]
fn random_name_is_an_adjective_and_an_animal() {
    for _ in 0..200 {
        let name = random_name();
        assert!(is_pair(&name), "{}", name);
    }
}

#[test]
fn pick_gives_an_item_of_the_array() {
    let items = [3u8, 5, 8];
    for _ in 0..100 {
        assert!(items.contains(&pick(&items)));
    }
    assert_eq!(pick(&[7u8]), 7);
}

fn check_chatter(line: &str, lexicon: &[&str], signs: &[&str], most: usize) {
    let mut words: Vec<&str> = line.split(' ').collect();
    if signs.contains(words.last().unwrap()) {
        words.pop();
    }
    assert!(words.len() >= 2 && words.len() <= most, "{}", line);
    for word in words {
        assert!(lexicon.contains(&word), "{}", line);
    }
}

#[test]
fn english_messages_have_two_to_ten_words() {
    for _ in 0..500 {
        check_chatter(&random_english_msg(), &ENGLISH, &ENGLISH_EMOJIS, 10);
    }
}

#[test]
fn rust_messages_have_two_to_eight_words() {
    for _ in 0..500 {
        check_chatter(&random_rust_msg(), &RUST, &RUST_EMOJIS, 8);
    }
}

#[test]
fn compose_joins_words_with_spaces() {
    assert_eq!(compose(&vec!["a", "bc", "d"], None), "a bc d");
    assert_eq!(compose(&vec!["a", "bc"], Some("!")), "a bc !");
    assert_eq!(compose(&vec!["solo"], None), "solo");
    assert_eq!(compose(&Vec::new(), None), "");
}

fn number_of_words(line: &str, signs: &[&str]) -> usize {
    let mut words: Vec<&str> = line.split(' ').collect();
    if signs.contains(words.last().unwrap()) {
        words.pop();
    }
    words.len()
}

#[test]
fn messages_vary_in_length_and_in_their_end() {
    let lines: Vec<String> = (0..500).map(|_| random_english_msg()).collect();
    let counts: Vec<usize> =
        lines.iter().map(|line| number_of_words(line, &ENGLISH_EMOJIS)).collect();
    assert!(counts.contains(&2));
    assert!(counts.contains(&10));
    assert!(counts.iter().any(|&count| count > 2 && count < 10));
    let closed = lines
        .iter()
        .filter(|line| ENGLISH_EMOJIS.contains(&line.split(' ').last().unwrap()))
        .count();
    assert!(closed > 100 && closed < 400);
}

fn places_of(name: &str) -> (usize, usize) {
    let mut found = Vec::new();
    for (i, adjective) in ADJECTIVES.iter().enumerate() {
        for (j, animal) in ANIMALS.iter().enumerate() {
            if name.len() == adjective.len() + animal.len()
                && name.starts_with(adjective)
                && name.ends_with(animal)
            {
                found.push((i, j));
            }
        }
    }
    assert_eq!(found.len(), 1, "{}", name);
    found[0]
}

#[test]
fn rounds_shift_the_animals_in_a_shuffled_order() {
    let mut generator = NameGenerator::new();
    let mut shifts: Vec<usize> = Vec::new();
    for _ in 0..2000 {
        let name = generator.next();
        let (adjective, animal) = places_of(name.as_str());
        let shift = (animal + 24 - adjective) % 24;
        if shifts.last() != Some(&shift) {
            shifts.push(shift);
        }
    }
    assert!(shifts.len() >= 48);
    let round: Vec<usize> = shifts[..24].to_vec();
    for shift in 0..24 {
        assert!(round.contains(&shift));
    }
    assert_eq!(shifts[24..48], round[..]);
    let in_step = (1..24).all(|k| round[k] == (round[0] + k) % 24);
    assert!(!in_step);
}

#[test]
fn generators_start_at_different_places() {
    let firsts: Vec<String> = (0..40).map(|_| NameGenerator::new().next().to_string()).collect();
    assert!(firsts.iter().any(|name| name != &firsts[0]));
}
