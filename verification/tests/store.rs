use pino::store::FrequencyStore;
use rand::rngs::StdRng;
use rand::SeedableRng;

fn word(text: &str) -> String {
    text.to_string()
}

fn store_of(entries: &[(&str, &[i64])]) -> FrequencyStore {
    let mut store = FrequencyStore::new();
    for (token, times) in entries {
        for time in times.iter() {
            store.record(token, *time);
        }
    }
    store
}

#[test]
fn new_store_is_empty() {
    let store = FrequencyStore::new();
    assert!(store.is_empty());
    assert_eq!(0, store.len());
    assert!(!store.contains(&word("a")));
    assert_eq!(0, store.count(&word("a")));
    assert_eq!(Vec::<i64>::new(), store.history(&word("a")));
}

#[test]
fn record_creates_an_entry_then_extends_it() {
    let mut store = FrequencyStore::new();
    store.record("a", 30);
    assert_eq!(1, store.len());
    assert_eq!(vec![30], store.history(&word("a")));
    store.record("b", 10);
    store.record("a", 20);
    store.record("a", 30);
    store.record("a", 40);
    assert_eq!(2, store.len());
    assert_eq!(vec![20, 30, 30, 40], store.history(&word("a")));
    assert_eq!(4, store.count(&word("a")));
    assert_eq!(vec![10], store.history(&word("b")));
    assert!(store.contains(&word("b")));
    assert!(!store.contains(&word("c")));
}

#[test]
fn record_puts_the_token_in_lower_case() {
    let mut store = FrequencyStore::new();
    store.record("Ciao", 1);
    store.record("ciao", 2);
    assert_eq!(1, store.len());
    assert!(store.contains(&word("ciao")));
    assert!(!store.contains(&word("Ciao")));
    assert_eq!(vec![1, 2], store.history(&word("ciao")));
    store.record("CIAO", 0);
    assert_eq!(vec![0, 1, 2], store.history(&word("ciao")));
}

#[test]
fn record_token_takes_the_token_as_it_is() {
    let mut store = FrequencyStore::new();
    store.record_token(word("Ciao"), 1);
    store.record_token(word("ciao"), 2);
    assert_eq!(2, store.len());
    assert_eq!(vec![1], store.history(&word("Ciao")));
    assert_eq!(vec![2], store.history(&word("ciao")));
}

#[test]
fn record_tokens_records_from_left_to_right() {
    let mut store = FrequencyStore::new();
    store.record_tokens(vec![word("x"), word("y"), word("x")], 7);
    assert_eq!(2, store.len());
    assert_eq!(vec![7, 7], store.history(&word("x")));
    assert_eq!(vec![7], store.history(&word("y")));
    let boosts = vec![0, 1];
    assert_eq!(Some(word("x")), store.select_with_boosts(&boosts, &None));
}

#[test]
fn evict_leaves_no_instant_at_or_before_the_cutoff() {
    let mut store = store_of(&[("a", &[1, 5, 9]), ("b", &[2, 3]), ("c", &[5, 6])]);
    store.evict(5);
    assert_eq!(3, store.len());
    assert_eq!(vec![9], store.history(&word("a")));
    assert_eq!(Vec::<i64>::new(), store.history(&word("b")));
    assert!(store.contains(&word("b")));
    assert_eq!(vec![6], store.history(&word("c")));
}

#[test]
fn evict_then_compact_removes_stale_tokens() {
    let mut store = store_of(&[("old", &[1, 2, 3]), ("mixed", &[3, 4]), ("fresh", &[10])]);
    store.evict(3);
    store.compact();
    assert_eq!(2, store.len());
    assert!(!store.contains(&word("old")));
    assert_eq!(vec![4], store.history(&word("mixed")));
    assert_eq!(vec![10], store.history(&word("fresh")));
}

#[test]
fn compact_keeps_the_order_of_the_entries() {
    let mut store = store_of(&[("a", &[1]), ("b", &[9]), ("c", &[1]), ("d", &[9]), ("e", &[1])]);
    store.evict(1);
    store.compact();
    assert_eq!(2, store.len());
    let level = vec![0, 0];
    assert_eq!(Some(word("b")), store.select_with_boosts(&level, &None));
    let second = vec![0, 1];
    assert_eq!(Some(word("d")), store.select_with_boosts(&second, &None));
}

#[test]
fn compact_without_empty_entries_changes_nothing() {
    let mut store = store_of(&[("a", &[1]), ("b", &[2, 3])]);
    store.compact();
    assert_eq!(2, store.len());
    assert_eq!(vec![1], store.history(&word("a")));
    assert_eq!(vec![2, 3], store.history(&word("b")));
}

#[test]
fn cutoff_is_inclusive() {
    let t: i64 = 1_700_000_000_000;
    let mut at = FrequencyStore::new();
    at.record("w", t);
    at.evict(t);
    at.compact();
    assert!(!at.contains(&word("w")));
    assert!(at.is_empty());

    let mut after = FrequencyStore::new();
    after.record("w", t + 1);
    after.evict(t);
    after.compact();
    assert!(after.contains(&word("w")));
    assert_eq!(vec![t + 1], after.history(&word("w")));
}

#[test]
fn select_on_empty_store_returns_default() {
    let store = FrequencyStore::new();
    let mut rng = StdRng::seed_from_u64(69);
    assert_eq!(Some(word("pino")), store.select_weighted_max(&mut rng, 10, &Some(word("pino"))));
    assert_eq!(Some(word("pino")), store.select_with_boosts(&vec![], &Some(word("pino"))));
}

#[test]
fn select_on_empty_store_without_default_returns_none() {
    let store = FrequencyStore::new();
    let mut rng = StdRng::seed_from_u64(69);
    assert_eq!(None, store.select_weighted_max(&mut rng, 10, &None));
    assert_eq!(None, store.select_with_boosts(&vec![], &None));
}

#[test]
fn select_without_boost_returns_most_frequent() {
    let store = store_of(&[("a", &[1, 2, 3]), ("b", &[4])]);
    for seed in 0..20 {
        let mut rng = StdRng::seed_from_u64(seed);
        assert_eq!(Some(word("a")), store.select_weighted_max(&mut rng, 0, &None));
        assert_eq!(Some(word("a")), store.select_weighted_max(&mut rng, 0, &Some(word("z"))));
    }
    let reversed = store_of(&[("b", &[4]), ("a", &[1, 2, 3])]);
    let mut rng = StdRng::seed_from_u64(69);
    assert_eq!(Some(word("a")), reversed.select_weighted_max(&mut rng, 0, &None));
}

#[test]
fn select_ignores_default_on_a_store_with_entries() {
    let store = store_of(&[("only", &[1])]);
    let mut rng = StdRng::seed_from_u64(1);
    assert_eq!(Some(word("only")), store.select_weighted_max(&mut rng, 3, &Some(word("z"))));
}

#[test]
fn select_with_boosts_adds_boost_to_length() {
    let store = store_of(&[("a", &[1, 2, 3]), ("b", &[4]), ("c", &[5, 6])]);
    assert_eq!(Some(word("a")), store.select_with_boosts(&vec![0, 0, 0], &None));
    assert_eq!(Some(word("b")), store.select_with_boosts(&vec![0, 3, 0], &None));
    assert_eq!(Some(word("c")), store.select_with_boosts(&vec![0, 3, 3], &None));
    assert_eq!(Some(word("c")), store.select_with_boosts(&vec![1, 0, u64::MAX], &None));
}

#[test]
fn select_with_boosts_prefers_the_first_recorded_on_a_tie() {
    let store = store_of(&[("a", &[1, 2]), ("b", &[3, 4]), ("c", &[5])]);
    assert_eq!(Some(word("a")), store.select_with_boosts(&vec![0, 0, 0], &None));
    assert_eq!(Some(word("a")), store.select_with_boosts(&vec![0, 0, 1], &None));
    assert_eq!(Some(word("b")), store.select_with_boosts(&vec![0, 1, 2], &None));
    assert_eq!(Some(word("a")), store.select_with_boosts(&vec![u64::MAX, u64::MAX, u64::MAX], &None));
}

#[test]
fn select_with_small_boost_cannot_overtake_a_clear_leader() {
    let store = store_of(&[("a", &[1, 2, 3, 4]), ("b", &[5])]);
    for seed in 0..50 {
        let mut rng = StdRng::seed_from_u64(seed);
        assert_eq!(Some(word("a")), store.select_weighted_max(&mut rng, 2, &None));
    }
}

#[test]
fn select_with_boost_yields_a_stored_token() {
    let store = store_of(&[("a", &[1, 2]), ("b", &[3])]);
    let mut seen_a = false;
    let mut seen_b = false;
    for seed in 0..200 {
        let mut rng = StdRng::seed_from_u64(seed);
        match store.select_weighted_max(&mut rng, 10, &None) {
            Some(token) if token == "a" => seen_a = true,
            Some(token) if token == "b" => seen_b = true,
            other => panic!("not a stored token: {:?}", other),
        }
    }
    assert!(seen_a);
    assert!(seen_b);
}

#[test]
fn expire_evicts_what_is_max_age_seconds_old() {
    let mut store = store_of(&[("a", &[1000, 1001]), ("b", &[999, 1000])]);
    store.expire(3000, 2);
    assert_eq!(1, store.len());
    assert_eq!(vec![1001], store.history(&word("a")));
    assert!(!store.contains(&word("b")));
}

#[test]
fn expire_with_zero_age_evicts_up_to_now() {
    let mut store = store_of(&[("a", &[49, 50, 51])]);
    store.expire(50, 0);
    assert_eq!(vec![51], store.history(&word("a")));
}

#[test]
fn expire_before_every_instant_evicts_nothing() {
    let mut store = store_of(&[("a", &[i64::MIN, 0]), ("b", &[i64::MIN])]);
    store.expire(i64::MIN + 5, u64::MAX);
    assert_eq!(2, store.len());
    assert_eq!(vec![i64::MIN, 0], store.history(&word("a")));
    assert_eq!(vec![i64::MIN], store.history(&word("b")));
    store.expire(i64::MIN + 999, 1);
    assert_eq!(2, store.len());
    store.expire(i64::MIN + 1000, 1);
    assert_eq!(1, store.len());
    assert_eq!(vec![0], store.history(&word("a")));
}
