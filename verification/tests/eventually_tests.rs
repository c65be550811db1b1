use reachcheck::{Checker, CheckerBuilder, Expectation, Model, Property};

/// A directed graph model: states are node values, an action is the value of
/// the node an edge leads to, and following an edge moves to that node.
#[derive(Clone)]
struct DGraph {
    inits: Vec<u64>,
    edges: Vec<(u64, u64)>,
    props: Vec<Property>,
}

impl DGraph {
    fn with_property(p: Property) -> DGraph {
        DGraph { inits: Vec::new(), edges: Vec::new(), props: vec![p] }
    }

    fn with_path(mut self, path: Vec<u64>) -> DGraph {
        if let Some(first) = path.first() {
            self.inits.push(*first);
        }
        for w in path.windows(2) {
            self.edges.push((w[0], w[1]));
        }
        self
    }

    fn check(self) -> Checker<DGraph> {
        CheckerBuilder::new(self).spawn_bfs().join()
    }
}

impl Model for DGraph {
    type State = u64;
    type Action = u64;

    fn init_states(&self) -> Vec<u64> {
        self.inits.clone()
    }

    fn actions(&self, s: &u64, acts: &mut Vec<u64>) {
        for (from, to) in &self.edges {
            if from == s {
                acts.push(*to);
            }
        }
    }

    fn next_state(&self, _s: &u64, a: &u64) -> Option<u64> {
        Some(*a)
    }

    fn within_boundary(&self, _s: &u64) -> bool {
        true
    }

    fn fingerprint(&self, s: &u64) -> u64 {
        s + 1
    }

    fn properties(&self) -> Vec<Property> {
        self.props
            .iter()
            .map(|p| Property { name: p.name.clone(), expectation: p.expectation })
            .collect()
    }

    fn prop_holds(&self, _i: usize, s: &u64) -> bool {
        s % 2 == 1
    }

    fn clone_state(&self, s: &u64) -> u64 {
        *s
    }

    fn clone_action(&self, a: &u64) -> u64 {
        *a
    }

    fn state_eq(&self, a: &u64, b: &u64) -> bool {
        a == b
    }

    fn action_eq(&self, a: &u64, b: &u64) -> bool {
        a == b
    }
}

fn eventually_odd() -> Property {
    Property { name: "odd".to_string(), expectation: Expectation::Eventually }
}

#[test]
fn can_validate() {
    assert!(DGraph::with_property(eventually_odd())
        .with_path(vec![1]) // satisfied at terminal init
        .with_path(vec![2, 3]) // satisfied at nonterminal init
        .with_path(vec![2, 6, 7]) // satisfied at terminal next
        .with_path(vec![4, 9, 10]) // satisfied at nonterminal next
        .check()
        .assert_properties());
    // Repeat with distinct state spaces since stateful checking skips visited states (which we
    // don't expect here, but this is defense in depth).
    assert!(DGraph::with_property(eventually_odd()).with_path(vec![1]).check().assert_properties());
    assert!(DGraph::with_property(eventually_odd())
        .with_path(vec![2, 3])
        .check()
        .assert_properties());
    assert!(DGraph::with_property(eventually_odd())
        .with_path(vec![2, 6, 7])
        .check()
        .assert_properties());
    assert!(DGraph::with_property(eventually_odd())
        .with_path(vec![4, 9, 10])
        .check()
        .assert_properties());
}

#[test]
fn can_discover_counterexample() {
    // i.e. can falsify
    assert_eq!(
        DGraph::with_property(eventually_odd())
            .with_path(vec![0, 1])
            .with_path(vec![0, 2])
            .check()
            .discovery("odd")
            .unwrap()
            .into_states(),
        vec![0, 2]
    );
    assert_eq!(
        DGraph::with_property(eventually_odd())
            .with_path(vec![0, 1])
            .with_path(vec![2, 4])
            .check()
            .discovery("odd")
            .unwrap()
            .into_states(),
        vec![2, 4]
    );
    assert_eq!(
        DGraph::with_property(eventually_odd())
            .with_path(vec![0, 1, 4, 6])
            .with_path(vec![2, 4, 8])
            .check()
            .discovery("odd")
            .unwrap()
            .into_states(),
        vec![2, 4, 6]
    );
}

#[test]
fn fixme_can_miss_counterexample_when_revisiting_a_state() {
    // i.e. incorrectly verify
    assert_eq!(
        DGraph::with_property(eventually_odd())
            .with_path(vec![0, 2, 4, 2]) // cycle
            .check()
            .discovery("odd"),
        None
    ); // FIXME: `unwrap().into_states()` should be [0, 2, 4, 2]
    assert_eq!(
        DGraph::with_property(eventually_odd())
            .with_path(vec![0, 2, 4])
            .with_path(vec![1, 4, 6]) // revisiting 4
            .check()
            .discovery("odd"),
        None
    ); // FIXME: `unwrap().into_states()` should be [0, 2, 4, 6]
}
