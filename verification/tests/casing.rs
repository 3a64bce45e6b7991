//! The casing engine, word by word: both historical variants of the suite.

use dicepass::Casing;

#[test]
fn casing_standard() {
    let casing = Casing::Standard;
    assert_eq!("henlo", casing.apply_word("henlo", 0));
    assert_eq!("u", casing.apply_word("u", 1));
    assert_eq!("stinky", casing.apply_word("stinky", 2));
    assert_eq!("biRb", casing.apply_word("biRb", 4));
}

#[test]
fn casing_lowercase() {
    let casing = Casing::Lowercase;
    assert_eq!("henlo", casing.apply_word("henlo", 0));
    assert_eq!("u", casing.apply_word("u", 1));
    assert_eq!("stinky", casing.apply_word("stinky", 2));
    assert_eq!("birb", casing.apply_word("biRb", 4));
}

#[test]
fn casing_uppercase() {
    let casing = Casing::Uppercase;
    assert_eq!("HENLO", casing.apply_word("HENLO", 0));
    assert_eq!("U", casing.apply_word("u", 1));
    assert_eq!("STINKY", casing.apply_word("stinky", 2));
    assert_eq!("BIRB", casing.apply_word("biRb", 4));
}

#[test]
fn casing_pascal_case() {
    let casing = Casing::PascalCase;
    assert_eq!("Henlo", casing.apply_word("Henlo", 0));
    assert_eq!("U", casing.apply_word("u", 1));
    assert_eq!("Stinky", casing.apply_word("Stinky", 2));
    assert_eq!("Birb", casing.apply_word("BiRb", 4));
}

#[test]
fn casing_camel_case() {
    let casing = Casing::CamelCase;
    assert_eq!("henlo", casing.apply_word("henlo", 0));
    assert_eq!("henlo", casing.apply_word("hEnlo", 0));
    assert_eq!("U", casing.apply_word("u", 1));
    assert_eq!("Stinky", casing.apply_word("Stinky", 2));
    assert_eq!("Birb", casing.apply_word("biRb", 4));
}

#[test]
fn main_standard() {
    let casing = Casing::Standard;
    assert_eq!("henlo", casing.apply_word("henlo", 0));
    assert_eq!("u", casing.apply_word("u", 1));
    assert_eq!("stinky", casing.apply_word("stinky", 2));
    assert_eq!("biRb", casing.apply_word("biRb", 4));
}

#[test]
fn main_lowercase() {
    let casing = Casing::Lowercase;
    assert_eq!("henlo", casing.apply_word("henlo", 0));
    assert_eq!("u", casing.apply_word("u", 1));
    assert_eq!("stinky", casing.apply_word("stinky", 2));
    assert_eq!("birb", casing.apply_word("biRb", 4));
}

#[test]
fn main_uppercase() {
    let casing = Casing::Uppercase;
    assert_eq!("HENLO", casing.apply_word("HENLO", 0));
    assert_eq!("U", casing.apply_word("u", 1));
    assert_eq!("STINKY", casing.apply_word("stinky", 2));
    assert_eq!("BIRB", casing.apply_word("biRb", 4));
}

#[test]
fn main_pascal_case() {
    let casing = Casing::PascalCase;
    assert_eq!("Henlo", casing.apply_word("Henlo", 0));
    assert_eq!("U", casing.apply_word("u", 1));
    assert_eq!("Stinky", casing.apply_word("Stinky", 2));
    assert_eq!("Birb", casing.apply_word("BiRb", 4));
}

#[test]
fn main_camel_case() {
    let casing = Casing::CamelCase;
    assert_eq!("henlo", casing.apply_word("henlo", 0));
    assert_eq!("henlo", casing.apply_word("hEnlo", 0));
    assert_eq!("U", casing.apply_word("u", 1));
    assert_eq!("Stinky", casing.apply_word("Stinky", 2));
    assert_eq!("Birb", casing.apply_word("biRb", 4));
}

#[test]
fn casing_idempotent_per_word() {
    let words = ["biRb", "Stinky", "HENLO", "u", "", "mIxEdCaSe"];
    let modes = [Casing::Standard, Casing::Lowercase, Casing::Uppercase];
    for casing in modes {
        for word in words {
            let once = casing.apply_word(word, 3);
            let twice = casing.apply_word(once.as_str(), 3);
            assert_eq!(once, twice);
        }
    }
}

#[test]
fn camel_and_pascal_agree_after_first_word() {
    let words = ["biRb", "Stinky", "henlo", "u"];
    for word in words {
        for n in 1..5usize {
            assert_eq!(
                Casing::CamelCase.apply_word(word, n),
                Casing::PascalCase.apply_word(word, n)
            );
        }
    }
    // they differ only at position zero
    assert_eq!("this", Casing::CamelCase.apply_word("this", 0));
    assert_eq!("This", Casing::PascalCase.apply_word("this", 0));
}

#[test]
fn token_round_trip() {
    for token in ["standard", "lowercase", "uppercase", "pascalcase", "camelcase"] {
        let casing = Casing::from_str(token).expect("canonical token must parse");
        assert_eq!(token, casing.token());
    }
}

#[test]
fn unknown_tokens_yield_no_mode() {
    for token in ["Standard", "STANDARD", "camel", "pascal", "", "snake_case"] {
        assert!(Casing::from_str(token).is_none());
    }
}

#[test]
fn casing_handles_multibyte_words() {
    assert_eq!("über", Casing::Lowercase.apply_word("ÜBER", 0));
    assert_eq!("ÜBER", Casing::Uppercase.apply_word("über", 0));
    assert_eq!("Über", Casing::PascalCase.apply_word("über", 0));
    assert_eq!("über", Casing::CamelCase.apply_word("Über", 0));
}
