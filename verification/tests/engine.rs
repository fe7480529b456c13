use storecheck::actor::Actor;
use storecheck::checker::{Checker, Cond, Rule};
use storecheck::config::Config;
use storecheck::planner::{Op, Planner, Step};
use storecheck::runner::{Runner, RunnerScenario, Scenario, TestResult};
use storecheck::store::Store;

fn write(key: &str, value: char) -> Op<char> {
    Op::Write(key.to_string(), value)
}

fn remove(key: &str) -> Op<char> {
    Op::Remove(key.to_string())
}

fn read(key: &str) -> Op<char> {
    Op::Read(key.to_string())
}

fn no_checks() -> Checker<char> {
    Checker { rules: Vec::new() }
}

/// Replays one plan against a clone of the baseline, returning the final
/// store and each dispatch's acknowledgement.
fn replay(baseline: &Store<char>, planner: &Planner<char>, plan: &[Step]) -> (Store<char>, Vec<bool>) {
    let mut store = baseline.clone();
    let mut actors: Vec<Actor<char>> = Vec::new();
    let mut cursors: Vec<usize> = Vec::new();
    for _ in 0..planner.client_count() {
        actors.push(Actor::new(Config { id: 0 }));
        cursors.push(0);
    }
    let mut acks = Vec::new();
    for step in plan {
        let op = planner.op_at(step.client, cursors[step.client], step.alt);
        let mut actor = actors.remove(step.client);
        acks.push(actor.dispatch(&mut store, op));
        actors.insert(step.client, actor);
        cursors[step.client] += 1;
    }
    (store, acks)
}

#[test]
fn empty_scenario_passes_with_one_ordering() {
    let mut planner = Planner::new();
    planner.client("a");
    assert_eq!(planner.orderings().len(), 1);

    let scenario = Scenario {
        name: "empty".to_string(),
        setup: Vec::new(),
        plan: planner,
        checker: no_checks(),
    };
    let rs = RunnerScenario::new(Config { id: 0 }, &scenario);
    let result = rs.check_execution();
    assert!(result.is_pass());
    assert_eq!(result.count(), 1);
}

#[test]
fn single_client_three_acts_ends_at_a_tombstone() {
    let mut planner = Planner::new();
    let a = planner.client("a");
    // The client first reads the key its cache has never observed, then
    // writes twice and removes; each mutation presents the locally
    // remembered revision.
    planner.act(a, read("x"));
    planner.act(a, write("x", 'b'));
    planner.act(a, write("x", 'c'));
    planner.act(a, remove("x"));
    assert_eq!(planner.orderings().len(), 1);

    let scenario = Scenario {
        name: "single".to_string(),
        setup: vec![write("x", 'a')],
        plan: planner,
        checker: no_checks(),
    };
    let rs = RunnerScenario::new(Config { id: 0 }, &scenario);

    let baseline = rs.create_store();
    assert_eq!(baseline.read("x"), Some((1, 'a')));

    let result = rs.check_execution();
    assert!(result.is_pass());
    assert_eq!(result.count(), 1);

    let plans = scenario.plan.orderings();
    let (mut state, acks) = replay(&baseline, &scenario.plan, &plans[0]);
    assert_eq!(acks, vec![true, true, true, true]);
    // The key is tombstoned at revision 4: it reads as nothing, yet only a
    // write presenting revision 4 succeeds.
    assert_eq!(state.read("x"), None);
    assert_eq!(state.keys(), ["x"]);
    assert_eq!(state.write("x", Some(3), 'z'), None);
    assert_eq!(state.write("x", Some(4), 'z'), Some(5));
}

#[test]
fn commutative_writes_reach_the_same_store() {
    let mut planner = Planner::new();
    let a = planner.client("a");
    let b = planner.client("b");
    planner.act(a, write("x", 'a'));
    planner.act(b, write("y", 'b'));

    let scenario = Scenario {
        name: "commutative".to_string(),
        setup: Vec::new(),
        plan: planner,
        checker: no_checks(),
    };
    let rs = RunnerScenario::new(Config { id: 0 }, &scenario);
    let baseline = rs.create_store();

    let plans = scenario.plan.orderings();
    assert_eq!(plans.len(), 2);
    for plan in &plans {
        let (state, acks) = replay(&baseline, &scenario.plan, plan);
        assert_eq!(acks, vec![true, true]);
        assert_eq!(state.read("x"), Some((1, 'a')));
        assert_eq!(state.read("y"), Some((1, 'b')));
    }

    let result = rs.check_execution();
    assert!(result.is_pass());
    assert_eq!(result.count(), 2);
}

#[test]
fn conflicting_writes_keep_the_first_and_conflict_the_second() {
    let mut planner = Planner::new();
    let a = planner.client("a");
    let b = planner.client("b");
    planner.act(a, write("x", 'a'));
    planner.act(b, write("x", 'b'));

    let scenario = Scenario {
        name: "conflict".to_string(),
        setup: Vec::new(),
        plan: planner,
        checker: no_checks(),
    };
    let rs = RunnerScenario::new(Config { id: 0 }, &scenario);
    let baseline = rs.create_store();

    let plans = scenario.plan.orderings();
    assert_eq!(plans.len(), 2);
    for plan in &plans {
        let (state, acks) = replay(&baseline, &scenario.plan, plan);
        // Exactly one write is acknowledged; the other observes a conflict.
        assert_eq!(acks.iter().filter(|ok| **ok).count(), 1);
        // The store holds whichever write came first.
        let first = plan[0].client;
        let expected = if first == a { 'a' } else { 'b' };
        assert_eq!(state.read("x"), Some((1, expected)));
    }

    let result = rs.check_execution();
    assert!(result.is_pass());
    assert_eq!(result.count(), 2);
}

#[test]
fn failing_checker_reports_the_step_and_the_message() {
    let mut planner = Planner::new();
    let a = planner.client("a");
    planner.act(a, write("x", 'z'));

    let checker = Checker {
        rules: vec![Rule {
            cond: Cond::KeyIsNot("x".to_string(), 'z'),
            message: "\"x\" must not hold 'z'".to_string(),
        }],
    };
    let scenario =
        Scenario { name: "failing".to_string(), setup: Vec::new(), plan: planner, checker };
    let rs = RunnerScenario::new(Config { id: 0 }, &scenario);
    let result = rs.check_execution();

    assert!(!result.is_pass());
    assert_eq!(result.count(), 1);
    match result {
        TestResult::Fail { count, errors, state, plan, step } => {
            assert_eq!(count, 1);
            assert_eq!(step, 0);
            assert_eq!(errors, vec!["\"x\" must not hold 'z'".to_string()]);
            assert_eq!(plan.len(), 1);
            assert_eq!(state.read("x"), Some((1, 'z')));
        },
        TestResult::Pass { .. } => panic!("expected a failure"),
    }
}

#[test]
fn branching_choice_yields_one_plan_per_alternative() {
    let mut planner = Planner::new();
    let a = planner.client("a");
    planner.choice(a, vec![write("x", 'l'), write("x", 'r')]);

    let plans = planner.orderings();
    assert_eq!(plans.len(), 2);
    assert_eq!(plans[0], vec![Step { client: 0, alt: 0 }]);
    assert_eq!(plans[1], vec![Step { client: 0, alt: 1 }]);

    let scenario = Scenario {
        name: "branching".to_string(),
        setup: Vec::new(),
        plan: planner,
        checker: no_checks(),
    };
    let rs = RunnerScenario::new(Config { id: 0 }, &scenario);
    let result = rs.check_execution();
    assert!(result.is_pass());
    assert_eq!(result.count(), 2);
}

#[test]
fn orderings_count_matches_the_multinomial() {
    // Two clients with 2 and 1 acts: 3! / (2! * 1!) = 3 merges.
    let mut planner = Planner::new();
    let a = planner.client("a");
    let b = planner.client("b");
    planner.act(a, write("x", 'p'));
    planner.act(a, write("x", 'q'));
    planner.act(b, write("y", 'r'));
    assert_eq!(planner.orderings().len(), 3);

    // Three clients with 2, 1 and 1 acts: 4! / (2! * 1! * 1!) = 12 merges.
    let mut planner2 = Planner::new();
    let a2 = planner2.client("a");
    let b2 = planner2.client("b");
    let c2 = planner2.client("c");
    planner2.act(a2, write("x", 'p'));
    planner2.act(a2, write("x", 'q'));
    planner2.act(b2, write("y", 'r'));
    planner2.act(c2, write("z", 's'));
    assert_eq!(planner2.orderings().len(), 12);
}

#[test]
fn orderings_preserve_client_order() {
    let mut planner = Planner::new();
    let a = planner.client("a");
    let b = planner.client("b");
    planner.act(a, write("x", 'p'));
    planner.act(a, write("x", 'q'));
    planner.act(b, write("y", 'r'));

    for plan in planner.orderings() {
        assert_eq!(plan.len(), 3);
        let a_positions: Vec<usize> =
            (0..plan.len()).filter(|i| plan[*i].client == a).collect();
        assert_eq!(a_positions.len(), 2);
        assert!(a_positions[0] < a_positions[1]);
        assert_eq!((0..plan.len()).filter(|i| plan[*i].client == b).count(), 1);
    }
}

#[test]
fn orderings_are_deterministic_across_runs() {
    let build = || {
        let mut planner = Planner::new();
        let a = planner.client("a");
        let b = planner.client("b");
        planner.act(a, write("x", 'p'));
        planner.choice(a, vec![write("x", 'q'), remove("x")]);
        planner.act(b, write("y", 'r'));
        planner
    };
    let first = build().orderings();
    let second = build().orderings();
    assert_eq!(first, second);
    assert_eq!(first, build().orderings());
}

#[test]
fn runner_summary_totals_the_per_scenario_counts() {
    let mut runner: Runner<char> = Runner::new();
    runner.configs(&[Config { id: 7 }]);

    let mut one = Planner::new();
    let a = one.client("a");
    one.act(a, write("x", 'b'));
    runner.add("one", vec![write("x", 'a')], one, no_checks());

    let mut two = Planner::new();
    let a2 = two.client("a");
    let b2 = two.client("b");
    two.act(a2, write("x", 'a'));
    two.act(b2, write("y", 'b'));
    runner.add("two", Vec::new(), two, no_checks());

    runner.run();

    assert_eq!(runner.results.len(), 1);
    let (config, row) = &runner.results[0];
    assert_eq!(config.id, 7);
    assert_eq!(row.len(), 2);
    assert_eq!(row[0], ("one".to_string(), true, 1));
    assert_eq!(row[1], ("two".to_string(), true, 2));
    assert_eq!(runner.total_checked(), 3);
    assert!(runner.all_passed());
}

#[test]
fn runner_reports_a_failing_scenario() {
    let mut runner: Runner<char> = Runner::new();
    runner.configs(&[Config { id: 0 }]);

    let mut plan = Planner::new();
    let a = plan.client("a");
    plan.act(a, write("x", 'z'));
    let checker = Checker {
        rules: vec![Rule {
            cond: Cond::KeyAbsent("x".to_string()),
            message: "\"x\" must stay absent".to_string(),
        }],
    };
    runner.add("bad", Vec::new(), plan, checker);

    let mut good = Planner::new();
    let b = good.client("b");
    good.act(b, write("y", 'g'));
    runner.add("good", Vec::new(), good, no_checks());

    runner.run();

    let (_, row) = &runner.results[0];
    assert_eq!(row[0], ("bad".to_string(), false, 1));
    assert_eq!(row[1], ("good".to_string(), true, 1));
    assert!(!runner.all_passed());
    assert_eq!(runner.total_checked(), 2);
}

#[test]
fn revision_counts_successful_mutations_of_each_key() {
    let mut store = Store::new();
    assert_eq!(store.write("k", None, 'a'), Some(1));
    assert_eq!(store.write("k", Some(1), 'b'), Some(2));
    assert_eq!(store.write("k", Some(7), 'c'), None);
    assert_eq!(store.remove("k", Some(2)), Some(3));
    assert_eq!(store.write("k", Some(3), 'd'), Some(4));
    assert_eq!(store.write("m", None, 'e'), Some(1));
    // Four successful mutations of "k", one of "m"; seq counts them all.
    assert_eq!(store.read("k"), Some((4, 'd')));
    assert_eq!(store.read("m"), Some((1, 'e')));
    assert_eq!(store.seq, 5);
}

#[test]
fn removing_a_never_written_key_installs_a_tombstone() {
    let mut store: Store<char> = Store::new();
    assert_eq!(store.remove("ghostly", None), Some(1));
    assert_eq!(store.seq, 1);
    assert_eq!(store.read("ghostly"), None);
    assert_eq!(store.keys(), ["ghostly"]);
    // Overwriting the tombstone requires presenting its revision.
    assert_eq!(store.write("ghostly", None, 'v'), None);
    assert_eq!(store.write("ghostly", Some(1), 'v'), Some(2));
}

#[test]
fn keys_are_sorted_even_when_written_out_of_order() {
    let mut store = Store::new();
    store.write("zeta", None, 'z');
    store.write("alpha", None, 'a');
    store.write("mid", None, 'm');
    store.remove("beta", None);
    assert_eq!(store.keys(), ["alpha", "beta", "mid", "zeta"]);
}

#[test]
fn a_tombstoned_key_cannot_be_recovered_through_a_read() {
    // A cache read cannot observe a tombstone's revision, so after a
    // conflict on a tombstoned key the retried write conflicts again.
    let mut store = Store::new();
    store.write("x", None, 'a');
    store.remove("x", Some(1));

    let mut cache = storecheck::store::Cache::new();
    assert_eq!(cache.write(&mut store, "x", 'b'), false);
    assert_eq!(cache.read(&store, "x"), None);
    assert_eq!(cache.write(&mut store, "x", 'b'), false);

    // Presenting the tombstone's revision directly does succeed.
    assert_eq!(store.write("x", Some(2), 'b'), Some(3));
}

#[test]
fn clients_are_registered_once_in_insertion_order() {
    let mut planner: Planner<char> = Planner::new();
    let a = planner.client("a");
    let b = planner.client("b");
    assert_eq!((a, b), (0, 1));
    // Asking again for a known name returns the same client.
    assert_eq!(planner.client("a"), a);
    assert_eq!(planner.client("b"), b);
    assert_eq!(planner.clients(), ["a", "b"]);
    assert_eq!(planner.client_count(), 2);
    assert_eq!(planner.act_count(), 0);
}

#[test]
fn a_plan_can_remove_and_rewrite_through_one_client() {
    let mut planner = Planner::new();
    let a = planner.client("a");
    planner.act(a, read("x"));
    planner.act(a, remove("x"));
    planner.act(a, write("x", 'c'));

    let scenario = Scenario {
        name: "remove and rewrite".to_string(),
        setup: vec![write("x", 'a')],
        plan: planner,
        checker: no_checks(),
    };
    let rs = RunnerScenario::new(Config { id: 0 }, &scenario);
    let baseline = rs.create_store();

    let plans = scenario.plan.orderings();
    assert_eq!(plans.len(), 1);
    let (state, acks) = replay(&baseline, &scenario.plan, &plans[0]);
    // The remove is acknowledged and its tombstone's revision is
    // remembered, so the rewrite presents it and succeeds.
    assert_eq!(acks, vec![true, true, true]);
    assert_eq!(state.read("x"), Some((3, 'c')));

    let result = rs.check_execution();
    assert!(result.is_pass());
    assert_eq!(result.count(), 1);
}
