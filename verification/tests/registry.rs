use chat_server::generator::NameGenerator;
use chat_server::names::{valid_name, NameSet};
use chat_server::registry::{HandleRegistry, TRIES};

#[test]
fn new_registry_is_empty() {
    let names = HandleRegistry::new();
    assert_eq!(names.len(), 0);
    assert!(!names.contains("alpha"));
}

#[test]
fn try_insert_takes_a_free_handle_once() {
    let mut names = HandleRegistry::new();
    assert!(names.try_insert("alpha".to_string()));
    assert!(!names.try_insert("alpha".to_string()));
    assert!(names.try_insert("beta".to_string()));
    assert_eq!(names.len(), 2);
    assert!(names.contains("alpha"));
    assert!(names.contains("beta"));
    assert!(!names.contains("gamma"));
}

#[test]
fn release_is_idempotent() {
    let mut names = HandleRegistry::new();
    assert!(names.try_insert("alpha".to_string()));
    assert!(names.release("alpha"));
    assert!(!names.release("alpha"));
    assert!(!names.release("never"));
    assert_eq!(names.len(), 0);
    assert!(names.try_insert("alpha".to_string()));
}

#[test]
fn reserve_unique_gives_different_names() {
    let mut names = HandleRegistry::new();
    let mut generator = NameGenerator::new();
    let mut got: Vec<String> = Vec::new();
    for _ in 0..100 {
        let handle = names.reserve_unique(&mut generator).unwrap();
        assert!(valid_name(Some(&handle)));
        assert!(names.contains(&handle));
        assert!(!got.contains(&handle));
        got.push(handle);
    }
    assert_eq!(names.len(), 100);
}

#[test]
fn reserve_unique_passes_over_a_taken_name() {
    let mut first = NameGenerator::new();
    let mut names = HandleRegistry::new();
    let taken = names.reserve_unique(&mut first).unwrap();
    let next = names.reserve_unique(&mut first).unwrap();
    assert_ne!(taken, next);
    assert!(names.release(&next));
    assert!(names.contains(&taken));
    assert!(!names.contains(&next));
}

#[test]
fn reserve_unique_gives_up_when_every_name_is_taken() {
    let mut names = HandleRegistry::new();
    let mut generator = NameGenerator::new();
    let mut count = 0;
    while let Some(handle) = names.reserve_unique(&mut generator) {
        assert!(valid_name(Some(&handle)));
        count += 1;
        assert!(count <= TRIES);
    }
    assert!(count > 100);
    assert_eq!(names.len(), count);
    assert!(names.reserve_unique(&mut generator).is_none());
    assert_eq!(names.len(), count);
}

#[test]
fn name_set_holds_each_text_once() {
    let mut set = NameSet::new();
    assert!(set.insert("b".to_string()));
    assert!(set.insert("a".to_string()));
    assert!(!set.insert("b".to_string()));
    assert_eq!(set.len(), 2);
    let mut all = set.to_vec();
    all.sort();
    assert_eq!(all, vec!["a".to_string(), "b".to_string()]);
    assert!(set.remove("a"));
    assert!(!set.remove("a"));
    assert!(!set.contains("a"));
    assert!(set.contains("b"));
    assert_eq!(set.len(), 1);
}
