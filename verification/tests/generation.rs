//! Wordlist selection, dice rolls, and whole-passphrase generation.

use std::collections::HashMap;

use dicepass::Casing;
use dicepass::DieSource;
use dicepass::FixedDice;
use dicepass::RandomDice;
use dicepass::WordList;
use dicepass::word_list;

fn sample_list() -> WordList {
    let mut map: HashMap<u32, String> = HashMap::new();
    map.insert(31445, "example".to_string());
    map.insert(11111, "this".to_string());
    map.insert(22222, "is".to_string());
    map.insert(33333, "an".to_string());
    WordList {
        name: "Sample".to_string(),
        description: "A four-word sample list".to_string(),
        short_names: vec!["s".to_string(), "sample".to_string()],
        rolls: 5,
        list: map,
    }
}

fn scripted(faces: &[u8]) -> FixedDice {
    FixedDice::new(faces.to_vec()).expect("faces must be die faces")
}

const SCENARIO_FACES: [u8; 20] = [1, 1, 1, 1, 1, 2, 2, 2, 2, 2, 3, 3, 3, 3, 3, 3, 1, 4, 4, 5];

#[test]
fn generate_camel_case_scenario() {
    let list = sample_list();
    let mut rng = scripted(&SCENARIO_FACES);
    let passphrase = list.generate(&mut rng, 4, "-", &Casing::CamelCase).unwrap();
    assert_eq!("this-Is-An-Example", passphrase);
}

#[test]
fn generate_uppercase_scenario() {
    let list = sample_list();
    let mut rng = scripted(&SCENARIO_FACES);
    let passphrase = list.generate(&mut rng, 4, "-", &Casing::Uppercase).unwrap();
    assert_eq!("THIS-IS-AN-EXAMPLE", passphrase);
}

#[test]
fn generate_pascal_case_scenario() {
    let list = sample_list();
    let mut rng = scripted(&SCENARIO_FACES);
    let passphrase = list.generate(&mut rng, 4, "", &Casing::PascalCase).unwrap();
    assert_eq!("ThisIsAnExample", passphrase);
}

#[test]
fn lookup_outside_keyspace_signals_fault() {
    let list = sample_list();
    assert!(list.get(44444).is_none());
    assert_eq!(Some(&"example".to_string()), list.get(31445));
}

#[test]
fn generate_reports_missing_key() {
    let list = sample_list();
    // the sample list is deliberately incomplete: key 44444 has no word
    let mut rng = scripted(&[4, 4, 4, 4, 4]);
    assert_eq!(Err(44444), list.generate(&mut rng, 1, "-", &Casing::Standard));
}

#[test]
fn fixed_dice_fold_into_key() {
    let list = sample_list();
    let mut rng = scripted(&[3, 1, 4, 4, 5]);
    assert_eq!(31445, list.roll(&mut rng));
}

#[test]
fn key_from_faces_folds_left_to_right() {
    assert_eq!(31445, dicepass::key_from_faces(&vec![3, 1, 4, 4, 5]));
    assert_eq!(6, dicepass::key_from_faces(&vec![6]));
    assert_eq!(111111111, dicepass::key_from_faces(&vec![1; 9]));
    assert_eq!(666666666, dicepass::key_from_faces(&vec![6; 9]));
}

#[test]
fn equal_scripts_give_equal_passphrases() {
    let list = sample_list();
    let mut first = scripted(&SCENARIO_FACES);
    let mut second = scripted(&SCENARIO_FACES);
    let a = list.generate(&mut first, 4, "-", &Casing::CamelCase).unwrap();
    let b = list.generate(&mut second, 4, "-", &Casing::CamelCase).unwrap();
    assert_eq!(a, b);
}

#[test]
fn fixed_dice_reject_bad_faces() {
    assert!(FixedDice::new(vec![]).is_none());
    assert!(FixedDice::new(vec![1, 2, 0]).is_none());
    assert!(FixedDice::new(vec![7]).is_none());
    assert!(FixedDice::new(vec![1, 6]).is_some());
}

#[test]
fn random_roll_reads_as_die_faces() {
    let list = sample_list();
    let mut rng = RandomDice::new();
    for _ in 0..50 {
        let key = list.roll(&mut rng);
        let digits = format!("{}", key);
        assert_eq!(5, digits.len());
        for d in digits.chars() {
            assert!(('1'..='6').contains(&d));
        }
    }
}

#[test]
fn random_faces_stay_on_the_die() {
    let mut rng = RandomDice::new();
    for _ in 0..100 {
        let f = rng.roll_face();
        assert!((1..=6).contains(&f));
    }
}

#[test]
fn separator_joins_words_exactly() {
    let list = sample_list();
    let mut rng = scripted(&[1, 1, 1, 1, 1]);
    let passphrase = list.generate(&mut rng, 3, "-", &Casing::Standard).unwrap();
    assert_eq!("this-this-this", passphrase);
    assert_eq!(2, passphrase.matches('-').count());
    assert!(!passphrase.starts_with('-'));
    assert!(!passphrase.ends_with('-'));
    let mut rng = scripted(&[1, 1, 1, 1, 1]);
    let spaced = list.generate(&mut rng, 2, " :: ", &Casing::Standard).unwrap();
    assert_eq!("this :: this", spaced);
}

#[test]
fn single_word_passphrase_has_no_separator() {
    let list = sample_list();
    let mut rng = scripted(&[3, 1, 4, 4, 5]);
    let passphrase = list.generate(&mut rng, 1, "-", &Casing::Standard).unwrap();
    assert_eq!("example", passphrase);
}

#[test]
fn fixed_dice_start_over_when_exhausted() {
    let list = {
        let mut list = sample_list();
        list.rolls = 3;
        list.list.insert(123, "abc".to_string());
        list.list.insert(456, "def".to_string());
        list
    };
    let mut rng = scripted(&[1, 2, 3, 4, 5, 6]);
    assert_eq!(123, list.roll(&mut rng));
    assert_eq!(456, list.roll(&mut rng));
    assert_eq!(123, list.roll(&mut rng));
}

#[test]
fn passphrase_from_keys_is_deterministic() {
    let list = sample_list();
    let keys = vec![11111, 33333, 31445];
    let passphrase = list.passphrase_from_keys(&keys, "_", &Casing::Uppercase).unwrap();
    assert_eq!("THIS_AN_EXAMPLE", passphrase);
    let bad = vec![11111, 55555];
    assert_eq!(Err(55555), list.passphrase_from_keys(&bad, "_", &Casing::Standard));
}

#[test]
fn word_list_selects_by_short_name() {
    let mut other = sample_list();
    other.name = "Other".to_string();
    other.short_names = vec!["o".to_string(), "other".to_string()];
    let lists = vec![sample_list(), other];
    assert_eq!("Sample", word_list(&lists, "sample").unwrap().name);
    assert_eq!("Other", word_list(&lists, "o").unwrap().name);
    assert!(word_list(&lists, "missing").is_none());
    assert!(word_list(&lists, "").is_none());
}

#[test]
fn query_surface_reports_list_shape() {
    let list = sample_list();
    assert_eq!(4, list.word_count());
    assert_eq!(5, list.rolls);
    assert_eq!("Sample", list.name);
    assert_eq!("A four-word sample list", list.description);
    assert_eq!(vec!["s".to_string(), "sample".to_string()], list.short_names);
}
