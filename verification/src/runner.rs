//! The runner: builds the baseline store from a scenario's setup, replays
//! every enumerated plan against a clone of it through per-client caches,
//! evaluates the invariant checker after every step, and reports either a
//! pass with the number of checked executions or the first failure with a
//! full reproducer (the plan, the failing step and the store at that
//! moment).
//!
//! Plans are claimed strictly in enumeration order, so the reported failure
//! is the failing plan of least ordinal and, within it, the least failing
//! step.

use crate::actor::{dispatch_step, Actor};
use crate::checker::{violations, Checker, Rule};
use crate::clone_exact;
use crate::config::Config;
use crate::planner::{
    advance, lemma_plan_wf_len, lemma_plans_wf, lemma_remaining_zero, lemma_view_bounded, plan_wf,
    plans_from, plans_of, total_steps, zero_cursors, ClientView, Op, Planner, Step,
};
use crate::store::{CacheMap, Store, StoreView};
use vstd::prelude::*;
use vstd::std_specs::cmp::PartialEqSpec;

verus! {

/// The premise under which replaying is exact: values survive cloning
/// unchanged and `==` on them agrees with its specification.  It holds for
/// the primitive payload types the scenarios use.
pub open spec fn faithful<T: Clone + PartialEq>() -> bool {
    clone_exact::<T>() && T::obeys_eq_spec()
}

/// The state of one plan execution: the shared store and each client's
/// cache.
#[verifier::ext_equal]
pub struct ExecState<T> {
    pub store: StoreView<T>,
    pub caches: Seq<CacheMap<T>>,
}

/// The state a plan starts from: a copy of the baseline store and one
/// fresh cache per client.
pub open spec fn start_state<T>(base: StoreView<T>, nclients: nat) -> ExecState<T> {
    ExecState {
        store: base,
        caches: Seq::new(nclients, |i: int| Map::<Seq<char>, Option<(usize, Option<T>)>>::empty()),
    }
}

/// The operation behind a plan step, given how many steps each client has
/// already taken.
pub open spec fn op_of<T>(pv: Seq<ClientView<T>>, cur: Seq<usize>, s: Step) -> Op<T> {
    pv[s.client as int].steps[cur[s.client as int] as int][s.alt as int]
}

/// One plan step: the named client dispatches its next operation against
/// the shared store through its own cache.
pub open spec fn replay_step<T: Clone>(
    pv: Seq<ClientView<T>>,
    st: ExecState<T>,
    cur: Seq<usize>,
    s: Step,
) -> (ExecState<T>, Seq<usize>) {
    let op = op_of(pv, cur, s);
    let (s2, c2, ok) = dispatch_step(st.store, st.caches[s.client as int], op);
    (
        ExecState { store: s2, caches: st.caches.update(s.client as int, c2) },
        advance(pv, cur, s.client as int),
    )
}

/// A whole plan replayed in order, single-threaded.
pub open spec fn replay<T: Clone>(
    pv: Seq<ClientView<T>>,
    st: ExecState<T>,
    cur: Seq<usize>,
    plan: Seq<Step>,
) -> (ExecState<T>, Seq<usize>)
    decreases plan.len(),
{
    if plan.len() == 0 {
        (st, cur)
    } else {
        let (st2, cur2) = replay_step(pv, st, cur, plan[0]);
        replay(pv, st2, cur2, plan.drop_first())
    }
}

proof fn lemma_replay_push<T: Clone>(
    pv: Seq<ClientView<T>>,
    st: ExecState<T>,
    cur: Seq<usize>,
    p: Seq<Step>,
    s: Step,
)
    ensures
        replay(pv, st, cur, p.push(s)) == ({
            let (st2, cur2) = replay(pv, st, cur, p);
            replay_step(pv, st2, cur2, s)
        }),
    decreases p.len(),
{
    if p.len() == 0 {
        let q = p.push(s);
        assert(q[0] == s);
        assert(q.drop_first() =~= Seq::<Step>::empty());
        let (st2, cur2) = replay_step(pv, st, cur, s);
        assert(replay(pv, st2, cur2, q.drop_first()) == (st2, cur2));
        assert(replay(pv, st, cur, q) == replay(pv, st2, cur2, q.drop_first()));
        assert(replay(pv, st, cur, p) == (st, cur));
    } else {
        assert(p.push(s)[0] == p[0]);
        assert(p.push(s).drop_first() =~= p.drop_first().push(s));
        let (st2, cur2) = replay_step(pv, st, cur, p[0]);
        lemma_replay_push(pv, st2, cur2, p.drop_first(), s);
    }
}

/// The least step index of a plan after which the checker reports a
/// violation, if there is one.
pub open spec fn fail_step<T: Clone + PartialEq>(
    rules: Seq<Rule<T>>,
    pv: Seq<ClientView<T>>,
    st: ExecState<T>,
    cur: Seq<usize>,
    plan: Seq<Step>,
) -> Option<int>
    decreases plan.len(),
{
    if plan.len() == 0 {
        None
    } else {
        let (st2, cur2) = replay_step(pv, st, cur, plan[0]);
        if violations(rules, st2.store).len() > 0 {
            Some(0int)
        } else {
            match fail_step(rules, pv, st2, cur2, plan.drop_first()) {
                Some(t) => Some(t + 1),
                None => None,
            }
        }
    }
}

/// The least ordinal of a failing plan, if any plan fails.
pub open spec fn first_fail<T: Clone + PartialEq>(
    rules: Seq<Rule<T>>,
    pv: Seq<ClientView<T>>,
    base: ExecState<T>,
    cur0: Seq<usize>,
    plans: Seq<Seq<Step>>,
) -> Option<int>
    decreases plans.len(),
{
    if plans.len() == 0 {
        None
    } else if fail_step(rules, pv, base, cur0, plans[0]) is Some {
        Some(0int)
    } else {
        match first_fail(rules, pv, base, cur0, plans.drop_first()) {
            Some(n) => Some(n + 1),
            None => None,
        }
    }
}

/// The store that holds nothing and has seen no mutation.
pub open spec fn empty_store_view<T>() -> StoreView<T> {
    StoreView { map: Map::empty(), seq: 0 }
}

/// The setup acts replayed by a single temporary client against a fresh
/// store.
pub open spec fn setup_run<T: Clone>(s: StoreView<T>, c: CacheMap<T>, ops: Seq<Op<T>>) -> (
    StoreView<T>,
    CacheMap<T>,
)
    decreases ops.len(),
{
    if ops.len() == 0 {
        (s, c)
    } else {
        let (s2, c2, ok) = dispatch_step(s, c, ops[0]);
        setup_run(s2, c2, ops.drop_first())
    }
}

proof fn lemma_setup_push<T: Clone>(s: StoreView<T>, c: CacheMap<T>, ops: Seq<Op<T>>, op: Op<T>)
    ensures
        setup_run(s, c, ops.push(op)) == ({
            let (s2, c2) = setup_run(s, c, ops);
            let (s3, c3, ok) = dispatch_step(s2, c2, op);
            (s3, c3)
        }),
    decreases ops.len(),
{
    if ops.len() == 0 {
        let q = ops.push(op);
        assert(q[0] == op);
        assert(q.drop_first() =~= Seq::<Op<T>>::empty());
        let (s2, c2, ok) = dispatch_step(s, c, op);
        assert(setup_run(s2, c2, q.drop_first()) == (s2, c2));
        assert(setup_run(s, c, q) == setup_run(s2, c2, q.drop_first()));
        assert(setup_run(s, c, ops) == (s, c));
    } else {
        assert(ops.push(op)[0] == ops[0]);
        assert(ops.push(op).drop_first() =~= ops.drop_first().push(op));
        let (s2, c2, ok) = dispatch_step(s, c, ops[0]);
        lemma_setup_push(s2, c2, ops.drop_first(), op);
    }
}

/// The baseline store: what the setup acts leave behind.
pub open spec fn baseline_of<T: Clone>(ops: Seq<Op<T>>) -> StoreView<T> {
    setup_run(empty_store_view(), Map::empty(), ops).0
}

/// A registered scenario: its name, the setup acts that build the baseline
/// store, the multi-client plan, and the invariant checker evaluated after
/// every step.
pub struct Scenario<T> {
    pub name: String,
    pub setup: Vec<Op<T>>,
    pub plan: Planner<T>,
    pub checker: Checker<T>,
}

impl<T> Scenario<T> {
    /// The plan is well-formed and a full execution cannot overflow the
    /// store's mutation counter.
    pub open spec fn wf(&self) -> bool {
        &&& self.plan.wf()
        &&& self.setup@.len() + total_steps(self.plan@) <= usize::MAX
    }
}

/// The enumerated plans of a scenario.
pub open spec fn scenario_plans<T>(sc: Scenario<T>) -> Seq<Seq<Step>> {
    plans_from(sc.plan@, zero_cursors(sc.plan@.len()))
}

/// Where a scenario first fails, replayed plan by plan in enumeration
/// order: the least failing plan ordinal, or nothing when every plan
/// passes every check.
pub open spec fn scenario_first_fail<T: Clone + PartialEq>(sc: Scenario<T>) -> Option<int> {
    first_fail(
        sc.checker.rules@,
        sc.plan@,
        start_state(baseline_of(sc.setup@), sc.plan@.len()),
        zero_cursors(sc.plan@.len()),
        scenario_plans(sc),
    )
}

/// Whether every plan of the scenario passes every check.
pub open spec fn scenario_passes<T: Clone + PartialEq>(sc: Scenario<T>) -> bool {
    scenario_first_fail(sc) is None
}

/// How many executions the scenario reports as checked: all of them on a
/// pass, the failing ordinal plus one on a failure.
pub open spec fn scenario_count<T: Clone + PartialEq>(sc: Scenario<T>) -> int {
    match scenario_first_fail(sc) {
        None => scenario_plans(sc).len() as int,
        Some(n) => n + 1,
    }
}

/// The outcome of one scenario under one configuration.
pub enum TestResult<T> {
    Pass { count: usize },
    Fail { count: usize, errors: Vec<String>, state: Store<T>, plan: Vec<Step>, step: usize },
}

impl<T> TestResult<T> {
    pub open spec fn spec_count(&self) -> usize {
        match self {
            TestResult::Pass { count } => *count,
            TestResult::Fail { count, .. } => *count,
        }
    }

    pub fn is_pass(&self) -> (r: bool)
        ensures
            r == (self is Pass),
    {
        match self {
            TestResult::Pass { .. } => true,
            TestResult::Fail { .. } => false,
        }
    }

    /// How many executions were checked, the failing one included.
    pub fn count(&self) -> (r: usize)
        ensures
            r == self.spec_count(),
    {
        match self {
            TestResult::Pass { count } => *count,
            TestResult::Fail { count, .. } => *count,
        }
    }
}

/// The caches of a row of actors.
pub open spec fn actor_caches<T>(actors: Seq<Actor<T>>) -> Seq<CacheMap<T>> {
    actors.map_values(|a: Actor<T>| a@)
}

fn copy_plan(p: &Vec<Step>) -> (r: Vec<Step>)
    ensures
        r@ == p@,
{
    let n = p.len();
    let mut r: Vec<Step> = Vec::new();
    let mut i: usize = 0;
    while i < n
        invariant
            n == p@.len(),
            i <= n,
            r@.len() == i,
            forall|j: int| 0 <= j < i ==> r@[j] == p@[j],
        decreases n - i,
    {
        r.push(p[i]);
        i += 1;
    }
    proof {
        assert(r@ =~= p@);
    }
    r
}

/// One scenario bound to one configuration, ready to run.
pub struct RunnerScenario<'s, T> {
    pub config: Config,
    pub scenario: &'s Scenario<T>,
}

impl<'s, T: Clone + PartialEq> RunnerScenario<'s, T> {
    pub fn new(config: Config, scenario: &'s Scenario<T>) -> (r: RunnerScenario<'s, T>)
        ensures
            r.scenario == scenario,
            r.config == config,
    {
        RunnerScenario { config, scenario }
    }

    pub open spec fn spec_scenario(&self) -> Scenario<T> {
        *self.scenario
    }

    /// Build the baseline store: a fresh store with the setup acts
    /// dispatched in program order by a single temporary client.
    pub fn create_store(&self) -> (r: Store<T>)
        ensures
            r.wf(),
            r@.seq <= self.scenario.setup@.len(),
            clone_exact::<T>() ==> r@ == baseline_of(self.scenario.setup@),
    {
        let mut store = Store::<T>::new();
        let mut actor = Actor::<T>::new(self.config);
        let n = self.scenario.setup.len();
        let mut i: usize = 0;
        proof {
            assert(self.scenario.setup@.take(0) =~= Seq::<Op<T>>::empty());
        }
        while i < n
            invariant
                n == self.scenario.setup@.len(),
                i <= n,
                store.wf(),
                actor.wf(),
                store@.seq <= i,
                clone_exact::<T>() ==> store@ == setup_run(
                    empty_store_view(),
                    Map::<Seq<char>, Option<(usize, Option<T>)>>::empty(),
                    self.scenario.setup@.take(i as int),
                ).0 && actor@ == setup_run(
                    empty_store_view(),
                    Map::<Seq<char>, Option<(usize, Option<T>)>>::empty(),
                    self.scenario.setup@.take(i as int),
                ).1,
            decreases n - i,
        {
            let op = &self.scenario.setup[i];
            let _ = actor.dispatch(&mut store, op);
            proof {
                lemma_setup_push(
                    empty_store_view(),
                    Map::<Seq<char>, Option<(usize, Option<T>)>>::empty(),
                    self.scenario.setup@.take(i as int),
                    self.scenario.setup@[i as int],
                );
                assert(self.scenario.setup@.take(i as int).push(self.scenario.setup@[i as int])
                    =~= self.scenario.setup@.take(i as int + 1));
            }
            i += 1;
        }
        proof {
            assert(self.scenario.setup@.take(n as int) =~= self.scenario.setup@);
        }
        store
    }

    /// Replay one plan against a clone of the baseline store, checking the
    /// invariants after every step; the first violation ends the plan with
    /// its step index, the checker's messages and the store at that moment.
    fn run_plan(&self, store0: &Store<T>, plan: &Vec<Step>) -> (r: Option<
        (usize, Vec<String>, Store<T>),
    >)
        requires
            self.scenario.wf(),
            store0.wf(),
            store0@.seq + plan@.len() <= usize::MAX,
            plan_wf(self.scenario.plan@, zero_cursors(self.scenario.plan@.len()), plan@),
        ensures
            r matches Some((step, errors, state)) ==> (step as int) < plan@.len() && errors@.len()
                >= 1,
            faithful::<T>() ==> ({
                let pv = self.scenario.plan@;
                let rules = self.scenario.checker.rules@;
                let st0 = start_state(store0@, pv.len());
                let zc = zero_cursors(pv.len());
                match fail_step(rules, pv, st0, zc, plan@) {
                    None => r is None,
                    Some(t) => r matches Some((step, errors, state)) && step == t && ({
                        let (stf, curf) = replay(pv, st0, zc, plan@.take(t + 1));
                        state@ == stf.store && errors.deep_view() == violations(rules, stf.store)
                    }),
                }
            }),
    {
        let ghost pv = self.scenario.plan@;
        let ghost rules = self.scenario.checker.rules@;
        let ghost st0 = start_state(store0@, pv.len());
        let ghost zc = zero_cursors(pv.len());
        let nclients = self.scenario.plan.client_count();
        let mut state = store0.clone();
        let mut actors: Vec<Actor<T>> = Vec::new();
        let mut c: usize = 0;
        while c < nclients
            invariant
                c <= nclients,
                actors@.len() == c,
                forall|j: int| 0 <= j < c ==> (#[trigger] actors@[j]).wf(),
                forall|j: int|
                    0 <= j < c ==> (#[trigger] actors@[j])@ == Map::<
                        Seq<char>,
                        Option<(usize, Option<T>)>,
                    >::empty(),
            decreases nclients - c,
        {
            actors.push(Actor::new(self.config));
            c += 1;
        }
        let mut cursors: Vec<usize> = Vec::new();
        let mut z: usize = 0;
        while z < nclients
            invariant
                z <= nclients,
                cursors@.len() == z,
                forall|j: int| 0 <= j < z ==> cursors@[j] == 0usize,
            decreases nclients - z,
        {
            cursors.push(0);
            z += 1;
        }
        proof {
            assert(nclients == pv.len());
            assert(cursors@ =~= zc);
            assert(actor_caches(actors@) =~= st0.caches);
            assert(plan@.take(0) =~= Seq::<Step>::empty());
            assert(plan@.skip(0) =~= plan@);
            assert(replay(pv, st0, zc, plan@.take(0)) == (st0, zc));
            lemma_view_bounded(&self.scenario.plan);
        }
        let n = plan.len();
        let mut i: usize = 0;
        while i < n
            invariant
                self.scenario.wf(),
                pv == self.scenario.plan@,
                rules == self.scenario.checker.rules@,
                st0 == start_state(store0@, pv.len()),
                zc == zero_cursors(pv.len()),
                n == plan@.len(),
                i <= n,
                state.wf(),
                state@.seq <= store0@.seq + i,
                store0@.seq + plan@.len() <= usize::MAX,
                actors@.len() == pv.len(),
                cursors@.len() == pv.len(),
                forall|j: int| 0 <= j < actors@.len() ==> (#[trigger] actors@[j]).wf(),
                plan_wf(pv, cursors@, plan@.skip(i as int)),
                cursors@ == replay(pv, st0, zc, plan@.take(i as int)).1,
                faithful::<T>() ==> ({
                    let (sti, curi) = replay(pv, st0, zc, plan@.take(i as int));
                    &&& state@ == sti.store
                    &&& actor_caches(actors@) == sti.caches
                    &&& fail_step(rules, pv, st0, zc, plan@) == (match fail_step(
                        rules,
                        pv,
                        sti,
                        curi,
                        plan@.skip(i as int),
                    ) {
                        Some(t) => Some(t + i),
                        None => None,
                    })
                }),
            decreases n - i,
        {
            let step = plan[i];
            proof {
                assert(plan@.skip(i as int)[0] == plan@[i as int]);
            }
            let ci = cursors[step.client];
            let op_ref = self.scenario.plan.op_at(step.client, ci, step.alt);
            let mut actor = actors.remove(step.client);
            let _ = actor.dispatch(&mut state, op_ref);
            actors.insert(step.client, actor);
            cursors.set(step.client, ci + 1);
            let viol = self.scenario.checker.check(&state);
            proof {
                lemma_replay_push(pv, st0, zc, plan@.take(i as int), plan@[i as int]);
                assert(plan@.take(i as int).push(plan@[i as int]) =~= plan@.take(i as int + 1));
                assert(plan@.skip(i as int).drop_first() =~= plan@.skip(i as int + 1));
                let (sti, curi) = replay(pv, st0, zc, plan@.take(i as int));
                let (stn, curn) = replay(pv, st0, zc, plan@.take(i as int + 1));
                assert(cursors@ =~= curn);
                if faithful::<T>() {
                    assert(op_of(pv, curi, plan@[i as int]) == self.scenario.plan@[step.client as int].steps[ci as int][step.alt as int]);
                    assert(actor_caches(actors@) =~= stn.caches);
                    assert(state@ == stn.store);
                    assert(viol.deep_view() == violations(rules, stn.store));
                    assert(viol@.len() == viol.deep_view().len());
                }
            }
            if viol.len() > 0 {
                proof {
                    if faithful::<T>() {
                        let (sti, curi) = replay(pv, st0, zc, plan@.take(i as int));
                        assert(fail_step(rules, pv, sti, curi, plan@.skip(i as int)) == Some(
                            0int,
                        ));
                    }
                }
                return Some((i, viol, state));
            }
            i += 1;
        }
        proof {
            assert(plan@.skip(n as int) =~= Seq::<Step>::empty());
            assert(plan@.take(n as int) =~= plan@);
        }
        None
    }
}

} // verus!

verus! {

impl<'s, T: Clone + PartialEq> RunnerScenario<'s, T> {
    /// Replay every enumerated plan, in enumeration order, against a clone
    /// of the baseline store, checking the invariants after every step.
    /// On a pass the count is the number of plans; on a failure it is the
    /// failing ordinal plus one, and the reported plan, step index, errors
    /// and store state reproduce the violation exactly.
    pub fn check_execution(&self) -> (r: TestResult<T>)
        requires
            self.scenario.wf(),
        ensures
            r is Pass ==> r.spec_count() == scenario_plans(*self.scenario).len(),
            r matches TestResult::Fail { errors, .. } ==> errors@.len() >= 1,
            faithful::<T>() ==> ({
                let sc = *self.scenario;
                let pv = sc.plan@;
                let zc = zero_cursors(pv.len());
                let base = start_state(baseline_of(sc.setup@), pv.len());
                match scenario_first_fail(sc) {
                    None => r is Pass && r.spec_count() == scenario_plans(sc).len(),
                    Some(n) => r matches TestResult::Fail { count, errors, state, plan, step }
                        && count == n + 1 && plan@ == scenario_plans(sc)[n] && fail_step(
                        sc.checker.rules@,
                        pv,
                        base,
                        zc,
                        scenario_plans(sc)[n],
                    ) == Some(step as int) && ({
                        let (stf, curf) = replay(
                            pv,
                            base,
                            zc,
                            scenario_plans(sc)[n].take(step + 1),
                        );
                        state@ == stf.store && errors.deep_view() == violations(
                            sc.checker.rules@,
                            stf.store,
                        )
                    }),
                }
            }),
    {
        let ghost sc = *self.scenario;
        let ghost pv = self.scenario.plan@;
        let ghost rules = self.scenario.checker.rules@;
        let ghost zc = zero_cursors(pv.len());
        let ghost base = start_state(baseline_of(sc.setup@), pv.len());
        let store0 = self.create_store();
        let plans = self.scenario.plan.orderings();
        proof {
            lemma_view_bounded(&self.scenario.plan);
            lemma_plans_wf(pv, zc);
            lemma_remaining_zero(pv);
            assert(plans_of(plans@) == scenario_plans(sc));
            assert(plans_of(plans@).skip(0) =~= plans_of(plans@));
        }
        let n_plans = plans.len();
        let mut n: usize = 0;
        while n < n_plans
            invariant
                self.scenario.wf(),
                sc == *self.scenario,
                pv == self.scenario.plan@,
                rules == self.scenario.checker.rules@,
                zc == zero_cursors(pv.len()),
                base == start_state(baseline_of(sc.setup@), pv.len()),
                store0.wf(),
                store0@.seq <= sc.setup@.len(),
                clone_exact::<T>() ==> store0@ == baseline_of(sc.setup@),
                n_plans == plans@.len(),
                n <= n_plans,
                plans_of(plans@) == scenario_plans(sc),
                forall|m: int|
                    0 <= m < plans@.len() ==> plan_wf(pv, zc, #[trigger] plans_of(plans@)[m]),
                faithful::<T>() ==> scenario_first_fail(sc) == (match first_fail(
                    rules,
                    pv,
                    base,
                    zc,
                    plans_of(plans@).skip(n as int),
                ) {
                    Some(m) => Some(m + n),
                    None => None,
                }),
            decreases n_plans - n,
        {
            let plan = &plans[n];
            proof {
                assert(plans_of(plans@)[n as int] == plan@);
                lemma_plan_wf_len(pv, zc, plan@);
                lemma_remaining_zero(pv);
            }
            let outcome = self.run_plan(&store0, plan);
            proof {
                assert(plans_of(plans@).skip(n as int)[0] == plan@);
                assert(plans_of(plans@).skip(n as int).drop_first() =~= plans_of(
                    plans@,
                ).skip(n as int + 1));
                if faithful::<T>() {
                    assert(start_state(store0@, pv.len()) == base);
                }
            }
            match outcome {
                Some((step, errors, state)) => {
                    let plan_copy = copy_plan(plan);
                    proof {
                        if faithful::<T>() {
                            assert(fail_step(rules, pv, base, zc, plan@) == Some(step as int));
                            assert(first_fail(rules, pv, base, zc, plans_of(plans@).skip(
                                n as int,
                            )) == Some(0int));
                            assert(scenario_first_fail(sc) == Some(n as int));
                        }
                    }
                    return TestResult::Fail {
                        count: n + 1,
                        errors,
                        state,
                        plan: plan_copy,
                        step,
                    };
                },
                None => {
                    proof {
                        if faithful::<T>() {
                            assert(fail_step(rules, pv, base, zc, plan@) is None);
                        }
                    }
                },
            }
            n += 1;
        }
        proof {
            assert(plans_of(plans@).skip(n_plans as int) =~= Seq::<Seq<Step>>::empty());
        }
        TestResult::Pass { count: n_plans }
    }
}

/// Orchestrates scenarios across configurations: every scenario is run
/// under every configuration, and the per-scenario outcomes are recorded
/// as `(name, passed, checked executions)` rows, one row per
/// configuration.
pub struct Runner<T> {
    pub configs: Vec<Config>,
    pub scenarios: Vec<Scenario<T>>,
    pub results: Vec<(Config, Vec<(String, bool, usize)>)>,
}

/// The sum of the checked-execution counts of one row of results.
pub open spec fn row_total(row: Seq<(String, bool, usize)>) -> int
    decreases row.len(),
{
    if row.len() == 0 {
        0
    } else {
        row_total(row.drop_last()) + row.last().2
    }
}

/// The total number of checked executions over all recorded results.
pub open spec fn results_total(rs: Seq<(Config, Vec<(String, bool, usize)>)>) -> int
    decreases rs.len(),
{
    if rs.len() == 0 {
        0
    } else {
        results_total(rs.drop_last()) + row_total(rs.last().1@)
    }
}

proof fn lemma_row_total_nonneg(row: Seq<(String, bool, usize)>)
    ensures
        row_total(row) >= 0,
    decreases row.len(),
{
    if row.len() > 0 {
        lemma_row_total_nonneg(row.drop_last());
    }
}

proof fn lemma_row_total_mono(row: Seq<(String, bool, usize)>, j: int)
    requires
        0 <= j <= row.len(),
    ensures
        row_total(row.take(j)) <= row_total(row),
    decreases row.len() - j,
{
    if j < row.len() {
        assert(row.take(j + 1).drop_last() =~= row.take(j));
        assert(row.take(j + 1).last() == row[j]);
        lemma_row_total_mono(row, j + 1);
    } else {
        assert(row.take(j) =~= row);
    }
}

proof fn lemma_results_total_mono(rs: Seq<(Config, Vec<(String, bool, usize)>)>, i: int)
    requires
        0 <= i <= rs.len(),
    ensures
        results_total(rs.take(i)) <= results_total(rs),
    decreases rs.len() - i,
{
    if i < rs.len() {
        assert(rs.take(i + 1).drop_last() =~= rs.take(i));
        assert(rs.take(i + 1).last() == rs[i]);
        lemma_row_total_nonneg(rs[i].1@);
        lemma_results_total_mono(rs, i + 1);
    } else {
        assert(rs.take(i) =~= rs);
    }
}

impl<T: Clone + PartialEq> Runner<T> {
    pub fn new() -> (r: Runner<T>)
        ensures
            r.configs@.len() == 0,
            r.scenarios@.len() == 0,
            r.results@.len() == 0,
    {
        Runner { configs: Vec::new(), scenarios: Vec::new(), results: Vec::new() }
    }

    /// Register the configurations to run every scenario under.
    pub fn configs(&mut self, configs: &[Config])
        ensures
            final(self).configs@ == old(self).configs@ + configs@,
            final(self).scenarios == old(self).scenarios,
            final(self).results == old(self).results,
    {
        let n = configs.len();
        let mut i: usize = 0;
        while i < n
            invariant
                n == configs@.len(),
                i <= n,
                self.configs@ == old(self).configs@ + configs@.take(i as int),
                self.scenarios == old(self).scenarios,
                self.results == old(self).results,
            decreases n - i,
        {
            self.configs.push(configs[i]);
            proof {
                assert(old(self).configs@ + configs@.take(i as int + 1) =~= (old(
                    self,
                ).configs@ + configs@.take(i as int)).push(configs@[i as int]));
            }
            i += 1;
        }
        proof {
            assert(configs@.take(n as int) =~= configs@);
        }
    }

    /// Register a scenario: its name, the setup acts, the multi-client
    /// plan and the checker evaluated after every step.
    pub fn add(&mut self, name: &str, setup: Vec<Op<T>>, plan: Planner<T>, checker: Checker<T>)
        requires
            plan.wf(),
            setup@.len() + total_steps(plan@) <= usize::MAX,
        ensures
            final(self).scenarios@.len() == old(self).scenarios@.len() + 1,
            final(self).scenarios@.last().name@ == name@,
            final(self).scenarios@.last().setup == setup,
            final(self).scenarios@.last().plan == plan,
            final(self).scenarios@.last().checker == checker,
            final(self).scenarios@.last().wf(),
            forall|i: int|
                0 <= i < old(self).scenarios@.len() ==> final(self).scenarios@[i] == old(
                    self,
                ).scenarios@[i],
            final(self).configs == old(self).configs,
            final(self).results == old(self).results,
    {
        self.scenarios.push(Scenario { name: name.to_owned(), setup, plan, checker });
    }

    /// Run every scenario under every configuration, appending one row of
    /// `(name, passed, checked executions)` per configuration.
    pub fn run(&mut self)
        requires
            forall|si: int|
                0 <= si < old(self).scenarios@.len() ==> (#[trigger] old(
                    self,
                ).scenarios@[si]).wf(),
        ensures
            final(self).configs == old(self).configs,
            final(self).scenarios == old(self).scenarios,
            final(self).results@.len() == old(self).results@.len() + old(self).configs@.len(),
            forall|i: int|
                0 <= i < old(self).results@.len() ==> final(self).results@[i] == old(
                    self,
                ).results@[i],
            forall|ci: int|
                0 <= ci < old(self).configs@.len() ==> {
                    let row = #[trigger] final(self).results@[old(self).results@.len() + ci];
                    &&& row.0 == old(self).configs@[ci]
                    &&& row.1@.len() == old(self).scenarios@.len()
                    &&& forall|si: int|
                        0 <= si < old(self).scenarios@.len() ==> {
                            let cell = #[trigger] row.1@[si];
                            &&& cell.0@ == old(self).scenarios@[si].name@
                            &&& (faithful::<T>() ==> cell.1 == scenario_passes(
                                old(self).scenarios@[si],
                            ) && cell.2 == scenario_count(old(self).scenarios@[si]))
                        }
                },
    {
        let ncfg = self.configs.len();
        let nsc = self.scenarios.len();
        let mut ci: usize = 0;
        while ci < ncfg
            invariant
                forall|si: int|
                    0 <= si < self.scenarios@.len() ==> (#[trigger] self.scenarios@[si]).wf(),
                ncfg == self.configs@.len(),
                nsc == self.scenarios@.len(),
                ci <= ncfg,
                self.configs == old(self).configs,
                self.scenarios == old(self).scenarios,
                self.results@.len() == old(self).results@.len() + ci,
                forall|i: int|
                    0 <= i < old(self).results@.len() ==> self.results@[i] == old(
                        self,
                    ).results@[i],
                forall|c2: int|
                    0 <= c2 < ci ==> {
                        let row = #[trigger] self.results@[old(self).results@.len() + c2];
                        &&& row.0 == old(self).configs@[c2]
                        &&& row.1@.len() == old(self).scenarios@.len()
                        &&& forall|si: int|
                            0 <= si < old(self).scenarios@.len() ==> {
                                let cell = #[trigger] row.1@[si];
                                &&& cell.0@ == old(self).scenarios@[si].name@
                                &&& (faithful::<T>() ==> cell.1 == scenario_passes(
                                    old(self).scenarios@[si],
                                ) && cell.2 == scenario_count(old(self).scenarios@[si]))
                            }
                    },
            decreases ncfg - ci,
        {
            let config = self.configs[ci];
            let mut row: Vec<(String, bool, usize)> = Vec::new();
            let mut si: usize = 0;
            while si < nsc
                invariant
                    forall|s2: int|
                        0 <= s2 < self.scenarios@.len() ==> (#[trigger] self.scenarios@[s2]).wf(),
                    nsc == self.scenarios@.len(),
                    si <= nsc,
                    row@.len() == si,
                    forall|s2: int|
                        0 <= s2 < si ==> {
                            let cell = #[trigger] row@[s2];
                            &&& cell.0@ == self.scenarios@[s2].name@
                            &&& (faithful::<T>() ==> cell.1 == scenario_passes(
                                self.scenarios@[s2],
                            ) && cell.2 == scenario_count(self.scenarios@[s2]))
                        },
                decreases nsc - si,
            {
                let rs = RunnerScenario::new(config, &self.scenarios[si]);
                let result = rs.check_execution();
                let passed = result.is_pass();
                let count = result.count();
                row.push((self.scenarios[si].name.clone(), passed, count));
                proof {
                    if faithful::<T>() {
                        assert(scenario_first_fail(self.scenarios@[si as int]) is None
                            ==> result is Pass);
                    }
                }
                si += 1;
            }
            self.results.push((config, row));
            ci += 1;
        }
    }

    /// The total number of checked executions over everything recorded,
    /// which is exactly the sum of the per-scenario counts.
    pub fn total_checked(&self) -> (r: usize)
        requires
            results_total(self.results@) <= usize::MAX,
        ensures
            r == results_total(self.results@),
    {
        let nr = self.results.len();
        let mut total: usize = 0;
        let mut i: usize = 0;
        proof {
            assert(self.results@.take(0) =~= Seq::<(Config, Vec<(String, bool, usize)>)>::empty());
        }
        while i < nr
            invariant
                nr == self.results@.len(),
                i <= nr,
                results_total(self.results@) <= usize::MAX,
                total == results_total(self.results@.take(i as int)),
            decreases nr - i,
        {
            let row = &self.results[i].1;
            let nc = row.len();
            let mut j: usize = 0;
            proof {
                assert(row@.take(0) =~= Seq::<(String, bool, usize)>::empty());
            }
            while j < nc
                invariant
                    nr == self.results@.len(),
                    i < nr,
                    row == &self.results@[i as int].1,
                    nc == row@.len(),
                    j <= nc,
                    results_total(self.results@) <= usize::MAX,
                    total == results_total(self.results@.take(i as int)) + row_total(
                        row@.take(j as int),
                    ),
                decreases nc - j,
            {
                proof {
                    assert(row@.take(j as int + 1).drop_last() =~= row@.take(j as int));
                    assert(row@.take(j as int + 1).last() == row@[j as int]);
                    lemma_row_total_mono(row@, j as int + 1);
                    assert(self.results@.take(i as int + 1).drop_last() =~= self.results@.take(
                        i as int,
                    ));
                    assert(self.results@.take(i as int + 1).last() == self.results@[i as int]);
                    lemma_results_total_mono(self.results@, i as int + 1);
                }
                total = total + row[j].2;
                j += 1;
            }
            proof {
                assert(row@.take(nc as int) =~= row@);
                assert(self.results@.take(i as int + 1).drop_last() =~= self.results@.take(
                    i as int,
                ));
                assert(self.results@.take(i as int + 1).last() == self.results@[i as int]);
            }
            i += 1;
        }
        proof {
            assert(self.results@.take(nr as int) =~= self.results@);
        }
        total
    }

    /// Whether every recorded scenario outcome passed; the process exit
    /// status follows from this.
    pub fn all_passed(&self) -> (r: bool)
        ensures
            r == (forall|i: int, j: int|
                0 <= i < self.results@.len() && 0 <= j < self.results@[i].1@.len()
                    ==> (#[trigger] self.results@[i].1@[j]).1),
    {
        let nr = self.results.len();
        let mut i: usize = 0;
        while i < nr
            invariant
                nr == self.results@.len(),
                i <= nr,
                forall|i2: int, j: int|
                    0 <= i2 < i && 0 <= j < self.results@[i2].1@.len()
                        ==> (#[trigger] self.results@[i2].1@[j]).1,
            decreases nr - i,
        {
            let row = &self.results[i].1;
            let nc = row.len();
            let mut j: usize = 0;
            while j < nc
                invariant
                    nr == self.results@.len(),
                    i < nr,
                    row == &self.results@[i as int].1,
                    nc == row@.len(),
                    j <= nc,
                    forall|j2: int| 0 <= j2 < j ==> (#[trigger] row@[j2]).1,
                decreases nc - j,
            {
                if !row[j].1 {
                    return false;
                }
                j += 1;
            }
            i += 1;
        }
        true
    }
}

} // verus!

verus! {

/// The replay premise is not vacuous: it holds for the integer payload
/// types, whose `Clone` returns the value itself and whose `==` agrees
/// with its specification.
pub proof fn lemma_integer_payloads_faithful()
    ensures
        faithful::<u64>(),
{
    assert forall|a: u64, b: u64| vstd::pervasive::cloned::<u64>(a, b) implies b == a by {
    }
}

} // verus!
