use reachcheck::{CheckerBuilder, Expectation, Model, Path, Property};

#[derive(Clone)]
struct LinearEquation {
    a: u8,
    b: u8,
    c: u8,
}

#[derive(Clone, Debug, PartialEq, Eq)]
enum Guess {
    IncreaseX,
    IncreaseY,
}

impl Model for LinearEquation {
    type State = (u8, u8);
    type Action = Guess;

    fn init_states(&self) -> Vec<(u8, u8)> {
        vec![(0, 0)]
    }

    fn actions(&self, _s: &(u8, u8), acts: &mut Vec<Guess>) {
        acts.push(Guess::IncreaseX);
        acts.push(Guess::IncreaseY);
    }

    fn next_state(&self, s: &(u8, u8), a: &Guess) -> Option<(u8, u8)> {
        let (x, y) = *s;
        match a {
            Guess::IncreaseX => x.checked_add(1).map(|x2| (x2, y)),
            Guess::IncreaseY => y.checked_add(1).map(|y2| (x, y2)),
        }
    }

    fn within_boundary(&self, _s: &(u8, u8)) -> bool {
        true
    }

    fn fingerprint(&self, s: &(u8, u8)) -> u64 {
        1 + ((s.0 as u64) << 8) + s.1 as u64
    }

    fn properties(&self) -> Vec<Property> {
        vec![Property { name: "solvable".to_string(), expectation: Expectation::Sometimes }]
    }

    fn prop_holds(&self, _i: usize, s: &(u8, u8)) -> bool {
        self.a.wrapping_mul(s.0).wrapping_add(self.b.wrapping_mul(s.1)) == self.c
    }

    fn clone_state(&self, s: &(u8, u8)) -> (u8, u8) {
        *s
    }

    fn clone_action(&self, a: &Guess) -> Guess {
        a.clone()
    }

    fn state_eq(&self, a: &(u8, u8), b: &(u8, u8)) -> bool {
        a == b
    }

    fn action_eq(&self, a: &Guess, b: &Guess) -> bool {
        a == b
    }
}

#[test]
fn can_build_path_from_fingerprints() {
    let model = LinearEquation { a: 2, b: 10, c: 14 };
    let fp = |a: u8, b: u8| model.fingerprint(&(a, b));
    let fingerprints = vec![
        fp(0, 0),
        fp(0, 1),
        fp(1, 1),
        fp(2, 1), // final state
    ];
    let path = Path::from_fingerprints(&model, &fingerprints);
    assert_eq!(path.last_state(), &(2, 1));
    assert_eq!(path.last_state(), &Path::final_state(&model, &fingerprints).unwrap());
}

#[test]
fn final_state_rejects_unreplayable_sequences() {
    let model = LinearEquation { a: 2, b: 10, c: 14 };
    assert_eq!(Path::final_state(&model, &vec![]), None);
    assert_eq!(Path::final_state(&model, &vec![9999]), None);
    let fp = |a: u8, b: u8| model.fingerprint(&(a, b));
    assert_eq!(Path::final_state(&model, &vec![fp(0, 0), fp(2, 2)]), None);
}

#[test]
fn from_actions_replays_and_rejects() {
    let model = LinearEquation { a: 2, b: 10, c: 14 };
    let acts = vec![Guess::IncreaseX, Guess::IncreaseX, Guess::IncreaseY];
    let path = Path::from_actions(&model, (0, 0), &acts).unwrap();
    assert_eq!(path.last_state(), &(2, 1));
    assert_eq!(path.into_actions(), acts);
    // A state that is not initial yields no path.
    assert_eq!(Path::from_actions(&model, (1, 1), &acts), None);
}

#[test]
fn path_accessors_expose_states_actions_and_pairs() {
    let model = LinearEquation { a: 2, b: 10, c: 14 };
    let acts = vec![Guess::IncreaseY, Guess::IncreaseX];
    let path = Path::from_actions(&model, (0, 0), &acts).unwrap();
    assert_eq!(path.into_vec(), vec![
        ((0, 0), Some(Guess::IncreaseY)),
        ((0, 1), Some(Guess::IncreaseX)),
        ((1, 1), None),
    ]);
    let path = Path::from_actions(&model, (0, 0), &acts).unwrap();
    assert_eq!(path.into_states(), vec![(0, 0), (0, 1), (1, 1)]);
    let path = Path::from_actions(&model, (0, 0), &acts).unwrap();
    assert_eq!(path.into_actions(), vec![Guess::IncreaseY, Guess::IncreaseX]);
}

#[test]
fn encode_joins_decimal_fingerprints_with_slashes() {
    let model = LinearEquation { a: 2, b: 10, c: 14 };
    let acts = vec![Guess::IncreaseY, Guess::IncreaseY];
    let path = Path::from_actions(&model, (0, 0), &acts).unwrap();
    // Fingerprints: (0,0) -> 1, (0,1) -> 2, (0,2) -> 3.
    assert_eq!(path.encode(&model), "1/2/3");
    let single = Path::from_actions(&model, (0, 0), &vec![]).unwrap();
    assert_eq!(single.encode(&model), "1");
    // A multi-digit fingerprint: (1, 0) -> 257.
    let step = Path::from_actions(&model, (0, 0), &vec![Guess::IncreaseX]).unwrap();
    assert_eq!(step.encode(&model), "1/257");
}

#[test]
fn target_generated_count_stops_early() {
    let model = LinearEquation { a: 2, b: 2, c: 1 }; // no solution: sums stay even
    let checker = CheckerBuilder::new(model).target_generated_count(10).spawn_bfs().join();
    assert!(checker.is_done());
    assert!(checker.generated_count() >= 10);
    assert_eq!(checker.discovery("solvable"), None);
}

#[test]
fn generated_count_is_monotone_across_joins() {
    let model = LinearEquation { a: 2, b: 2, c: 1 }; // no solution: sums stay even
    let checker = CheckerBuilder::new(model).target_generated_count(5).spawn_bfs();
    let before = checker.generated_count();
    let checker = checker.join();
    let after = checker.generated_count();
    assert!(after >= before);
    let final_count = checker.join().generated_count();
    assert!(final_count >= after);
}

#[test]
fn sometimes_discovery_ends_in_satisfying_state() {
    let model = LinearEquation { a: 2, b: 10, c: 14 };
    let checker = CheckerBuilder::new(model.clone()).spawn_bfs().join();
    let path = checker.discovery("solvable").unwrap();
    let (x, y) = *path.last_state();
    assert_eq!(2u8.wrapping_mul(x).wrapping_add(10u8.wrapping_mul(y)), 14);
    assert_eq!(checker.discovery_classification("solvable"), "example");
    assert!(checker.assert_properties());
    assert!(checker.assert_discovery(
        "solvable",
        &vec![Guess::IncreaseX, Guess::IncreaseX, Guess::IncreaseY]
    ));
    assert!(!checker.assert_discovery("solvable", &vec![Guess::IncreaseX]));
    let pairs = checker.discoveries();
    assert_eq!(pairs.len(), 1);
    assert_eq!(pairs[0].0, "solvable");
    assert_eq!(pairs[0].1.last_state(), &(2, 1));
    assert!(checker.assert_any_discovery("solvable").is_some());
}

#[test]
fn fingerprint_round_trip_recovers_last_state() {
    let model = LinearEquation { a: 2, b: 10, c: 14 };
    let acts = vec![Guess::IncreaseX, Guess::IncreaseY, Guess::IncreaseY];
    let path = Path::from_actions(&model, (0, 0), &acts).unwrap();
    let fps: Vec<u64> = vec![
        model.fingerprint(&(0, 0)),
        model.fingerprint(&(1, 0)),
        model.fingerprint(&(1, 1)),
        model.fingerprint(&(1, 2)),
    ];
    let replayed = Path::from_fingerprints(&model, &fps);
    assert_eq!(replayed.last_state(), path.last_state());
}

#[test]
fn action_round_trip_recovers_actions() {
    let model = LinearEquation { a: 2, b: 10, c: 14 };
    let acts = vec![Guess::IncreaseY, Guess::IncreaseX, Guess::IncreaseY];
    let path = Path::from_actions(&model, (0, 0), &acts).unwrap();
    let round = Path::from_actions(&model, (0, 0), &path.into_actions()).unwrap();
    assert_eq!(round.into_actions(), acts);
}

#[test]
fn absence_is_not_verified_before_checking_completes() {
    let model = LinearEquation { a: 2, b: 10, c: 14 };
    // Freshly spawned: the frontier holds the initial state and nothing is
    // discovered, so absence of a discovery proves nothing yet.
    let checker = CheckerBuilder::new(model).spawn_bfs();
    assert!(!checker.is_done());
    assert!(!checker.assert_no_discovery("solvable"));
    assert!(!checker.assert_properties());
    let checker = checker.join();
    assert!(checker.is_done());
    assert!(checker.assert_properties());
}

#[test]
fn assert_properties_reports_missing_example() {
    let model = LinearEquation { a: 2, b: 2, c: 1 }; // no solution: sums stay even
    let checker = CheckerBuilder::new(model)
        .target_generated_count(100)
        .spawn_bfs()
        .join();
    // The sometimes property has no example, so the assertion fails.
    assert!(!checker.assert_properties());
    assert!(checker.assert_no_discovery("solvable"));
    assert!(checker.discoveries().is_empty());
}
