use pino::ingest::WordPattern;
use pino::store::FrequencyStore;

const WORDS: &str = "^[a-zA-ZàáèéìíòóùúÀÁÈÉÌÍÒÓÙÚ']+$";

fn word(text: &str) -> String {
    text.to_string()
}

fn pattern(source: &str) -> WordPattern {
    match WordPattern::new(source) {
        Ok(p) => p,
        Err(e) => panic!("pattern refused: {}", e.message),
    }
}

#[test]
fn recording_ciao_twice_gives_one_entry() {
    let p = pattern(WORDS);
    let mut store = FrequencyStore::new();
    store.observe(&p, "Ciao", 1);
    store.observe(&p, "ciao", 2);
    assert_eq!(1, store.len());
    assert!(store.contains(&word("ciao")));
    assert!(!store.contains(&word("Ciao")));
    assert_eq!(vec![1, 2], store.history(&word("ciao")));
}

#[test]
fn unparsable_pattern_is_refused() {
    match WordPattern::new("([a-z]+") {
        Ok(_) => panic!("accepted"),
        Err(e) => assert!(!e.message.is_empty()),
    }
    assert!(WordPattern::new("[").is_err());
    assert!(WordPattern::new("").is_ok());
}

#[test]
fn accepts_is_a_match_of_the_pattern() {
    let p = pattern(WORDS);
    assert!(p.accepts("ciao"));
    assert!(p.accepts("perché"));
    assert!(p.accepts("l'amico"));
    assert!(!p.accepts("abc1"));
    assert!(!p.accepts(""));
    assert!(!p.accepts("due parole"));
    let anywhere = pattern("b+");
    assert!(anywhere.accepts("abba"));
    assert!(!anywhere.accepts("acca"));
}

#[test]
fn tokens_are_the_accepted_words_in_lower_case() {
    let p = pattern(WORDS);
    assert_eq!(vec![word("ciao"), word("come"), word("stai")], p.tokens("  Ciao PINO,\tcome\n stai 42 ;-) ?"));
    assert_eq!(Vec::<String>::new(), p.tokens(""));
    assert_eq!(Vec::<String>::new(), p.tokens(" \t\n "));
    assert_eq!(vec![word("è"), word("à")], p.tokens("È À"));
}

#[test]
fn observe_records_every_accepted_word_at_the_arrival_time() {
    let p = pattern(WORDS);
    let mut store = FrequencyStore::new();
    store.observe(&p, "Pino pino 123 PINO parrot", 50);
    store.observe(&p, "parrot :)", 40);
    assert_eq!(2, store.len());
    assert_eq!(vec![50, 50, 50], store.history(&word("pino")));
    assert_eq!(vec![40, 50], store.history(&word("parrot")));
    assert_eq!(Some(word("pino")), store.select_with_boosts(&vec![0, 0], &None));
}

#[test]
fn observe_without_accepted_word_changes_nothing() {
    let p = pattern(WORDS);
    let mut store = FrequencyStore::new();
    store.observe(&p, "123 456 ...", 1);
    store.observe(&p, "", 2);
    assert!(store.is_empty());
}
