use pino::cycle::{emission, Action, ConfigError, Cycle, CycleConfig, Destination, Phase};
use pino::store::FrequencyStore;
use rand::rngs::StdRng;
use rand::SeedableRng;

fn word(text: &str) -> String {
    text.to_string()
}

fn config(low: u64, high: u64, max_age: u64, max_boost: u64, default_token: Option<&str>) -> CycleConfig {
    match CycleConfig::new(low, high, max_age, max_boost, default_token.map(word)) {
        Ok(c) => c,
        Err(e) => panic!("configuration refused: {:?}", e),
    }
}

#[test]
fn inverted_interval_is_refused() {
    match CycleConfig::new(1200, 600, 1800, 10, None) {
        Ok(_) => panic!("accepted"),
        Err(e) => assert_eq!(ConfigError::InvertedInterval, e),
    }
    assert!(CycleConfig::new(601, 600, 0, 0, None).is_err());
}

#[test]
fn configuration_keeps_its_values() {
    let c = config(600, 1200, 1800, 10, Some("pino"));
    assert_eq!(600, c.interval_low());
    assert_eq!(1200, c.interval_high());
    assert_eq!(1800, c.max_age());
    assert_eq!(10, c.max_boost());
    assert_eq!(&Some(word("pino")), c.default_token());
    let d = config(7, 7, 0, 0, None);
    assert_eq!(7, d.interval_low());
    assert_eq!(7, d.interval_high());
    assert_eq!(&None, d.default_token());
}

#[test]
fn destination_is_overwritten() {
    let mut d = Destination::new();
    assert_eq!(None, d.get());
    d.set(11);
    assert_eq!(Some(11), d.get());
    d.set(22);
    assert_eq!(Some(22), d.get());
}

#[test]
fn emission_sends_only_with_token_and_destination() {
    assert_eq!(Action::Send { text: word("ciao"), destination: 9 }, emission(Some(word("ciao")), Some(9)));
    assert_eq!(Action::NoDestination, emission(Some(word("ciao")), None));
    assert_eq!(Action::NothingSelected, emission(None, Some(9)));
    assert_eq!(Action::NothingSelected, emission(None, None));
}

#[test]
fn cycle_runs_through_its_phases() {
    let mut cycle = Cycle::new(config(3, 8, 2, 0, Some("pino")));
    let mut store = FrequencyStore::new();
    store.record("a", 1000);
    store.record("b", 2500);
    store.record("a", 3000);
    let mut destination = Destination::new();
    destination.set(77);
    let mut rng = StdRng::seed_from_u64(69);

    assert_eq!(Phase::Waiting, cycle.current_phase());
    match cycle.step(&mut store, &destination, 0, &mut rng) {
        Action::Sleep { seconds } => assert!(3 <= seconds && seconds <= 8),
        other => panic!("{:?}", other),
    }
    assert_eq!(Phase::Selecting, cycle.current_phase());
    assert_eq!(Action::Proceed, cycle.step(&mut store, &destination, 0, &mut rng));
    assert_eq!(Phase::Emitting, cycle.current_phase());
    assert_eq!(
        Action::Send { text: word("a"), destination: 77 },
        cycle.step(&mut store, &destination, 0, &mut rng)
    );
    assert_eq!(Phase::Evicting, cycle.current_phase());
    assert_eq!(2, store.len());
    assert_eq!(Action::Proceed, cycle.step(&mut store, &destination, 4500, &mut rng));
    assert_eq!(Phase::Waiting, cycle.current_phase());
    assert_eq!(1, store.len());
    assert!(!store.contains(&word("b")));
    assert_eq!(vec![3000], store.history(&word("a")));
}

#[test]
fn cycle_without_destination_gives_notice() {
    let mut cycle = Cycle::new(config(1, 1, 10, 0, None));
    let mut store = FrequencyStore::new();
    store.record("a", 5);
    let destination = Destination::new();
    let mut rng = StdRng::seed_from_u64(69);
    assert_eq!(Action::Sleep { seconds: 1 }, cycle.step(&mut store, &destination, 0, &mut rng));
    assert_eq!(Action::Proceed, cycle.step(&mut store, &destination, 0, &mut rng));
    assert_eq!(Action::NoDestination, cycle.step(&mut store, &destination, 0, &mut rng));
    assert_eq!(Action::Proceed, cycle.step(&mut store, &destination, 6, &mut rng));
    assert_eq!(vec![5], store.history(&word("a")));
}

#[test]
fn cycle_on_empty_store_sends_the_default() {
    let mut cycle = Cycle::new(config(0, 0, 10, 5, Some("pino")));
    let mut store = FrequencyStore::new();
    let mut destination = Destination::new();
    destination.set(3);
    let mut rng = StdRng::seed_from_u64(69);
    assert_eq!(Action::Sleep { seconds: 0 }, cycle.step(&mut store, &destination, 0, &mut rng));
    assert_eq!(Action::Proceed, cycle.step(&mut store, &destination, 0, &mut rng));
    assert_eq!(
        Action::Send { text: word("pino"), destination: 3 },
        cycle.step(&mut store, &destination, 0, &mut rng)
    );
    assert_eq!(Action::Proceed, cycle.step(&mut store, &destination, 0, &mut rng));
    assert!(store.is_empty());
}

#[test]
fn cycle_on_empty_store_without_default_sends_nothing() {
    let mut cycle = Cycle::new(config(0, 0, 10, 5, None));
    let mut store = FrequencyStore::new();
    let mut destination = Destination::new();
    destination.set(3);
    let mut rng = StdRng::seed_from_u64(69);
    cycle.step(&mut store, &destination, 0, &mut rng);
    assert_eq!(Action::Proceed, cycle.step(&mut store, &destination, 0, &mut rng));
    assert_eq!(Action::NothingSelected, cycle.step(&mut store, &destination, 0, &mut rng));
    assert_eq!(Phase::Evicting, cycle.current_phase());
}

#[test]
fn chosen_token_is_emitted_once() {
    let mut cycle = Cycle::new(config(0, 0, 1000, 0, None));
    let mut store = FrequencyStore::new();
    store.record("a", 5);
    let mut destination = Destination::new();
    destination.set(1);
    let mut rng = StdRng::seed_from_u64(69);
    for round in 0..3 {
        cycle.step(&mut store, &destination, 0, &mut rng);
        cycle.step(&mut store, &destination, 0, &mut rng);
        destination.set(round);
        assert_eq!(
            Action::Send { text: word("a"), destination: round },
            cycle.step(&mut store, &destination, 0, &mut rng)
        );
        cycle.step(&mut store, &destination, 10, &mut rng);
    }
}

#[test]
fn waits_are_drawn_from_the_whole_interval() {
    let mut store = FrequencyStore::new();
    let destination = Destination::new();
    let mut rng = StdRng::seed_from_u64(69);
    let mut seen: Vec<u64> = Vec::new();
    for _ in 0..200 {
        let mut cycle = Cycle::new(config(10, 13, 0, 0, None));
        match cycle.step(&mut store, &destination, 0, &mut rng) {
            Action::Sleep { seconds } => {
                assert!(10 <= seconds && seconds <= 13);
                if !seen.contains(&seconds) {
                    seen.push(seconds);
                }
            }
            other => panic!("{:?}", other),
        }
    }
    seen.sort();
    assert_eq!(vec![10, 11, 12, 13], seen);
}
