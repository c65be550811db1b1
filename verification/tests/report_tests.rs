use reachcheck::{Checker, CheckerBuilder, Expectation, Model, Property};

#[derive(Clone)]
struct LinearEquation {
    a: u8,
    b: u8,
    c: u8,
}

#[derive(Clone, Debug, PartialEq, Eq)]
enum Guess {
    IncreaseX,
    IncreaseY,
}

impl Model for LinearEquation {
    type State = (u8, u8);
    type Action = Guess;

    fn init_states(&self) -> Vec<(u8, u8)> {
        vec![(0, 0)]
    }

    fn actions(&self, _s: &(u8, u8), acts: &mut Vec<Guess>) {
        acts.push(Guess::IncreaseX);
        acts.push(Guess::IncreaseY);
    }

    fn next_state(&self, s: &(u8, u8), a: &Guess) -> Option<(u8, u8)> {
        let (x, y) = *s;
        match a {
            Guess::IncreaseX => x.checked_add(1).map(|x2| (x2, y)),
            Guess::IncreaseY => y.checked_add(1).map(|y2| (x, y2)),
        }
    }

    fn within_boundary(&self, _s: &(u8, u8)) -> bool {
        true
    }

    fn fingerprint(&self, s: &(u8, u8)) -> u64 {
        1 + ((s.0 as u64) << 8) + s.1 as u64
    }

    fn properties(&self) -> Vec<Property> {
        vec![Property { name: "solvable".to_string(), expectation: Expectation::Sometimes }]
    }

    fn prop_holds(&self, _i: usize, s: &(u8, u8)) -> bool {
        self.a.wrapping_mul(s.0).wrapping_add(self.b.wrapping_mul(s.1)) == self.c
    }

    fn clone_state(&self, s: &(u8, u8)) -> (u8, u8) {
        *s
    }

    fn clone_action(&self, a: &Guess) -> Guess {
        a.clone()
    }

    fn state_eq(&self, a: &(u8, u8), b: &(u8, u8)) -> bool {
        a == b
    }

    fn action_eq(&self, a: &Guess, b: &Guess) -> bool {
        a == b
    }
}

/// Mirrors the reporting loop: status lines while checking, a done line, and
/// one block per discovery.
fn transcript(checker: Checker<LinearEquation>) -> String {
    let mut c = checker;
    let mut out = String::new();
    while !c.is_done() {
        out.push_str(&format!("Checking. generated={}\n", c.generated_count()));
        c = c.join();
    }
    out.push_str(&format!("Done. generated={}, sec=0\n", c.generated_count()));
    if let Some(path) = c.discovery("solvable") {
        let actions = path.into_actions();
        out.push_str(&format!(
            "Discovered \"solvable\" {} Path[{}]:\n",
            c.discovery_classification("solvable"),
            actions.len()
        ));
        for a in &actions {
            out.push_str(&format!("- {:?}\n", a));
        }
    }
    out
}

#[test]
fn report_includes_property_names_and_paths() {
    // The assertions use `starts_with` to omit timing since it varies.

    // BFS
    let output = transcript(CheckerBuilder::new(LinearEquation { a: 2, b: 10, c: 14 }).spawn_bfs());
    assert!(
        output.starts_with(
            "\
                Checking. generated=1\n\
                Done. generated=12, sec="
        ),
        "Output did not start as expected (see test). output={:?}`",
        output
    );
    assert!(
        output.ends_with(
            "\
                Discovered \"solvable\" example Path[3]:\n\
                - IncreaseX\n\
                - IncreaseX\n\
                - IncreaseY\n"
        ),
        "Output did not end as expected (see test). output={:?}`",
        output
    );

    // DFS
    let output = transcript(CheckerBuilder::new(LinearEquation { a: 2, b: 10, c: 14 }).spawn_dfs());
    assert!(
        output.starts_with(
            "\
                Checking. generated=1\n\
                Done. generated=55, sec="
        ),
        "Output did not start as expected (see test). output={:?}`",
        output
    );
    assert!(
        output.ends_with(
            "\
                Discovered \"solvable\" example Path[27]:\n\
                - IncreaseY\n\
                - IncreaseY\n\
                - IncreaseY\n\
                - IncreaseY\n\
                - IncreaseY\n\
                - IncreaseY\n\
                - IncreaseY\n\
                - IncreaseY\n\
                - IncreaseY\n\
                - IncreaseY\n\
                - IncreaseY\n\
                - IncreaseY\n\
                - IncreaseY\n\
                - IncreaseY\n\
                - IncreaseY\n\
                - IncreaseY\n\
                - IncreaseY\n\
                - IncreaseY\n\
                - IncreaseY\n\
                - IncreaseY\n\
                - IncreaseY\n\
                - IncreaseY\n\
                - IncreaseY\n\
                - IncreaseY\n\
                - IncreaseY\n\
                - IncreaseY\n\
                - IncreaseY\n"
        ),
        "Output did not end as expected (see test). output={:?}`",
        output
    );
}
