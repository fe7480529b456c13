//! The planner: per-client action sequences with branching choice points,
//! and the enumeration of every linearization that preserves each client's
//! program order.
//!
//! A plan is a sequence of [`Step`]s.  The step at position `t` names the
//! client that moves and which alternative of that client's current choice
//! point it takes; which program step that is follows from how many earlier
//! plan positions belong to the same client.  Enumeration is deterministic:
//! candidates are visited in client order, and a client's alternatives in
//! order.

use crate::lex::{str_cmp, KeyOrder};
use vstd::prelude::*;

verus! {

/// One client operation against the shared store.
#[derive(Debug)]
pub enum Op<T> {
    Read(String),
    Write(String, T),
    Remove(String),
}

/// One position of a plan: which client moves, and which alternative of its
/// current choice point it takes.
#[derive(Clone, Copy, PartialEq, Eq, Structural, Debug)]
pub struct Step {
    pub client: usize,
    pub alt: usize,
}

/// The mathematical content of one client: its name and its program order,
/// a sequence of choice points each holding one or more alternative
/// operations.
pub struct ClientView<T> {
    pub name: Seq<char>,
    pub steps: Seq<Seq<Op<T>>>,
}

/// Every choice point offers at least one alternative.
pub open spec fn planner_view_wf<T>(pv: Seq<ClientView<T>>) -> bool {
    forall|i: int, j: int|
        0 <= i < pv.len() && 0 <= j < pv[i].steps.len() ==> (#[trigger] pv[i].steps[j]).len() >= 1
}

/// A planner view that an executable planner can hold: every count fits a
/// machine word.
pub open spec fn view_bounded<T>(pv: Seq<ClientView<T>>) -> bool {
    &&& pv.len() <= usize::MAX
    &&& forall|i: int| 0 <= i < pv.len() ==> (#[trigger] pv[i].steps).len() <= usize::MAX
    &&& forall|i: int, j: int|
        0 <= i < pv.len() && 0 <= j < pv[i].steps.len() ==> (#[trigger] pv[i].steps[j]).len()
            <= usize::MAX
}

/// The cursors name, for each client, how many of its program steps have
/// been consumed.
pub open spec fn cursors_ok<T>(pv: Seq<ClientView<T>>, cur: Seq<usize>) -> bool {
    &&& view_bounded(pv)
    &&& cur.len() == pv.len()
    &&& forall|i: int| 0 <= i < cur.len() ==> cur[i] <= (#[trigger] pv[i].steps).len()
}

/// How many program steps client `i` still has before it.
pub open spec fn client_remaining<T>(pv: Seq<ClientView<T>>, cur: Seq<usize>, i: int) -> nat {
    if 0 <= i < pv.len() && i < cur.len() && cur[i] <= pv[i].steps.len() {
        (pv[i].steps.len() - cur[i]) as nat
    } else {
        0
    }
}

pub open spec fn rem_from<T>(pv: Seq<ClientView<T>>, cur: Seq<usize>, i: int) -> nat
    decreases pv.len() - i,
{
    if i >= pv.len() {
        0
    } else {
        client_remaining(pv, cur, i) + rem_from(pv, cur, i + 1)
    }
}

/// How many plan positions are still to be filled.
pub open spec fn remaining<T>(pv: Seq<ClientView<T>>, cur: Seq<usize>) -> nat {
    rem_from(pv, cur, 0)
}

/// The cursors after client `c` takes one step.
pub open spec fn advance<T>(pv: Seq<ClientView<T>>, cur: Seq<usize>, c: int) -> Seq<usize> {
    cur.update(c, (cur[c] + 1) as usize)
}

proof fn lemma_rem_from_advance<T>(pv: Seq<ClientView<T>>, cur: Seq<usize>, c: int, i: int)
    requires
        cursors_ok(pv, cur),
        0 <= c < pv.len(),
        cur[c] < pv[c].steps.len(),
    ensures
        i <= c ==> rem_from(pv, advance(pv, cur, c), i) + 1 == rem_from(pv, cur, i),
        i > c ==> rem_from(pv, advance(pv, cur, c), i) == rem_from(pv, cur, i),
    decreases pv.len() - i,
{
    if i < pv.len() {
        lemma_rem_from_advance(pv, cur, c, i + 1)
    }
}

/// Taking one step with a ready client leaves one position fewer to fill.
pub proof fn lemma_remaining_advance<T>(pv: Seq<ClientView<T>>, cur: Seq<usize>, c: int)
    requires
        cursors_ok(pv, cur),
        0 <= c < pv.len(),
        cur[c] < pv[c].steps.len(),
    ensures
        remaining(pv, advance(pv, cur, c)) + 1 == remaining(pv, cur),
        cursors_ok(pv, advance(pv, cur, c)),
    decreases pv.len(),
{
    lemma_rem_from_advance(pv, cur, c, 0);
}

/// The alternatives client `i` can take next, in order.
pub open spec fn client_candidates<T>(pv: Seq<ClientView<T>>, cur: Seq<usize>, i: int) -> Seq<
    Step,
> {
    if 0 <= i < pv.len() && i < cur.len() && cur[i] < pv[i].steps.len() {
        Seq::new(
            pv[i].steps[cur[i] as int].len(),
            |a: int| Step { client: i as usize, alt: a as usize },
        )
    } else {
        Seq::empty()
    }
}

pub open spec fn cands_from<T>(pv: Seq<ClientView<T>>, cur: Seq<usize>, i: int) -> Seq<Step>
    decreases pv.len() - i,
{
    if i >= pv.len() {
        Seq::empty()
    } else {
        client_candidates(pv, cur, i) + cands_from(pv, cur, i + 1)
    }
}

/// Every step some client could take next, candidates ordered by client and
/// then by alternative.
pub open spec fn step_candidates<T>(pv: Seq<ClientView<T>>, cur: Seq<usize>) -> Seq<Step> {
    cands_from(pv, cur, 0)
}

/// Whether `s` is a step that can be taken at the cursors `cur`.
pub open spec fn step_ok<T>(pv: Seq<ClientView<T>>, cur: Seq<usize>, s: Step) -> bool {
    &&& cursors_ok(pv, cur)
    &&& (s.client as int) < pv.len()
    &&& (cur[s.client as int] as int) < pv[s.client as int].steps.len()
    &&& (s.alt as int) < pv[s.client as int].steps[cur[s.client as int] as int].len()
}

/// All plans that complete the scenario from the cursors `cur`: one empty
/// plan when nothing is left, otherwise every candidate step followed by
/// every completion from the advanced cursors.
pub open spec fn plans_from<T>(pv: Seq<ClientView<T>>, cur: Seq<usize>) -> Seq<Seq<Step>>
    decreases remaining(pv, cur), step_candidates(pv, cur).len() + 1,
{
    if remaining(pv, cur) == 0 {
        seq![Seq::<Step>::empty()]
    } else {
        expand(pv, cur, step_candidates(pv, cur))
    }
}

/// The plans beginning with each of the steps in `cands`, in order.
pub open spec fn expand<T>(pv: Seq<ClientView<T>>, cur: Seq<usize>, cands: Seq<Step>) -> Seq<
    Seq<Step>,
>
    decreases remaining(pv, cur), cands.len(),
    via expand_decreases::<T>
{
    if cands.len() == 0 {
        Seq::empty()
    } else if step_ok(pv, cur, cands[0]) {
        plans_from(pv, advance(pv, cur, cands[0].client as int)).map_values(
            |p: Seq<Step>| seq![cands[0]] + p,
        ) + expand(pv, cur, cands.drop_first())
    } else {
        expand(pv, cur, cands.drop_first())
    }
}

#[via_fn]
proof fn expand_decreases<T>(pv: Seq<ClientView<T>>, cur: Seq<usize>, cands: Seq<Step>) {
    if cands.len() > 0 && step_ok(pv, cur, cands[0]) {
        lemma_remaining_advance(pv, cur, cands[0].client as int);
    }
}

} // verus!

verus! {

/// A plan is well-formed when each of its steps can be taken in turn: every
/// position names a ready client and a real alternative, and at the end no
/// client has program steps left.  This is exactly "a linear merge of the
/// per-client sequences that preserves each sequence's order".
pub open spec fn plan_wf<T>(pv: Seq<ClientView<T>>, cur: Seq<usize>, p: Seq<Step>) -> bool
    decreases p.len(),
{
    if p.len() == 0 {
        remaining(pv, cur) == 0
    } else {
        step_ok(pv, cur, p[0]) && plan_wf(pv, advance(pv, cur, p[0].client as int), p.drop_first())
    }
}

/// A well-formed plan schedules every outstanding program step exactly
/// once.
pub proof fn lemma_plan_wf_len<T>(pv: Seq<ClientView<T>>, cur: Seq<usize>, p: Seq<Step>)
    requires
        plan_wf(pv, cur, p),
    ensures
        p.len() == remaining(pv, cur),
    decreases p.len(),
{
    if p.len() > 0 {
        lemma_remaining_advance(pv, cur, p[0].client as int);
        lemma_plan_wf_len(pv, advance(pv, cur, p[0].client as int), p.drop_first());
    }
}

/// Every enumerated plan is a well-formed merge: it takes only ready steps
/// and schedules each client's program steps in program order, all of them.
pub proof fn lemma_plans_wf<T>(pv: Seq<ClientView<T>>, cur: Seq<usize>)
    requires
        cursors_ok(pv, cur),
    ensures
        forall|n: int|
            0 <= n < plans_from(pv, cur).len() ==> plan_wf(
                pv,
                cur,
                #[trigger] plans_from(pv, cur)[n],
            ),
    decreases remaining(pv, cur), step_candidates(pv, cur).len() + 1,
{
    if remaining(pv, cur) == 0 {
        assert(plans_from(pv, cur)[0] == Seq::<Step>::empty());
    } else {
        lemma_expand_wf(pv, cur, step_candidates(pv, cur));
        assert forall|n: int| 0 <= n < plans_from(pv, cur).len() implies plan_wf(
            pv,
            cur,
            #[trigger] plans_from(pv, cur)[n],
        ) by {
            assert(plans_from(pv, cur)[n] == expand(pv, cur, step_candidates(pv, cur))[n]);
        }
    }
}

proof fn lemma_expand_wf<T>(pv: Seq<ClientView<T>>, cur: Seq<usize>, cands: Seq<Step>)
    requires
        cursors_ok(pv, cur),
    ensures
        forall|n: int|
            0 <= n < expand(pv, cur, cands).len() ==> plan_wf(
                pv,
                cur,
                #[trigger] expand(pv, cur, cands)[n],
            ),
    decreases remaining(pv, cur), cands.len(),
{
    if cands.len() == 0 {
    } else if step_ok(pv, cur, cands[0]) {
        let c = cands[0].client as int;
        lemma_remaining_advance(pv, cur, c);
        lemma_plans_wf(pv, advance(pv, cur, c));
        lemma_expand_wf(pv, cur, cands.drop_first());
        let sub = plans_from(pv, advance(pv, cur, c));
        let mapped = sub.map_values(|p: Seq<Step>| seq![cands[0]] + p);
        assert forall|n: int| 0 <= n < expand(pv, cur, cands).len() implies plan_wf(
            pv,
            cur,
            #[trigger] expand(pv, cur, cands)[n],
        ) by {
            if n < mapped.len() {
                assert(expand(pv, cur, cands)[n] == mapped[n]);
                assert(mapped[n] == seq![cands[0]] + sub[n]);
                assert(plan_wf(pv, advance(pv, cur, c), sub[n]));
                assert((seq![cands[0]] + sub[n])[0] == cands[0]);
                assert((seq![cands[0]] + sub[n]).drop_first() =~= sub[n]);
            } else {
                assert(expand(pv, cur, cands)[n] == expand(pv, cur, cands.drop_first())[n
                    - mapped.len()]);
            }
        }
    } else {
        lemma_expand_wf(pv, cur, cands.drop_first());
        assert forall|n: int| 0 <= n < expand(pv, cur, cands).len() implies plan_wf(
            pv,
            cur,
            #[trigger] expand(pv, cur, cands)[n],
        ) by {
            assert(expand(pv, cur, cands)[n] == expand(pv, cur, cands.drop_first())[n]);
        }
    }
}

/// When nothing is left to schedule there are no candidate steps.
pub proof fn lemma_done_no_candidates<T>(pv: Seq<ClientView<T>>, cur: Seq<usize>)
    requires
        cursors_ok(pv, cur),
        remaining(pv, cur) == 0,
    ensures
        step_candidates(pv, cur).len() == 0,
{
    lemma_cands_rem_from(pv, cur, 0);
}

/// With every choice point nonempty, no candidates means nothing is left.
pub proof fn lemma_no_candidates_done<T>(pv: Seq<ClientView<T>>, cur: Seq<usize>)
    requires
        planner_view_wf(pv),
        cursors_ok(pv, cur),
        step_candidates(pv, cur).len() == 0,
    ensures
        remaining(pv, cur) == 0,
{
    lemma_cands_rem_from(pv, cur, 0);
}

proof fn lemma_cands_rem_from<T>(pv: Seq<ClientView<T>>, cur: Seq<usize>, i: int)
    requires
        cursors_ok(pv, cur),
    ensures
        rem_from(pv, cur, i) == 0 ==> cands_from(pv, cur, i).len() == 0,
        planner_view_wf(pv) && cands_from(pv, cur, i).len() == 0 ==> rem_from(pv, cur, i) == 0,
    decreases pv.len() - i,
{
    if i < pv.len() {
        lemma_cands_rem_from(pv, cur, i + 1);
    }
}

/// Every candidate is a step that can actually be taken.
pub proof fn lemma_candidates_ok<T>(pv: Seq<ClientView<T>>, cur: Seq<usize>)
    requires
        cursors_ok(pv, cur),
    ensures
        forall|n: int|
            0 <= n < step_candidates(pv, cur).len() ==> step_ok(
                pv,
                cur,
                #[trigger] step_candidates(pv, cur)[n],
            ),
{
    lemma_cands_ok_from(pv, cur, 0);
}

proof fn lemma_cands_ok_from<T>(pv: Seq<ClientView<T>>, cur: Seq<usize>, i: int)
    requires
        cursors_ok(pv, cur),
    ensures
        forall|n: int|
            0 <= n < cands_from(pv, cur, i).len() ==> step_ok(
                pv,
                cur,
                #[trigger] cands_from(pv, cur, i)[n],
            ),
    decreases pv.len() - i,
{
    if i < pv.len() {
        lemma_cands_ok_from(pv, cur, i + 1);
        assert forall|n: int| 0 <= n < cands_from(pv, cur, i).len() implies step_ok(
            pv,
            cur,
            #[trigger] cands_from(pv, cur, i)[n],
        ) by {
            let left = client_candidates(pv, cur, i);
            if n < left.len() {
                assert(cands_from(pv, cur, i)[n] == left[n]);
                assert(left[n] == Step { client: i as usize, alt: n as usize });
            } else {
                assert(cands_from(pv, cur, i)[n] == cands_from(pv, cur, i + 1)[n - left.len()]);
            }
        }
    }
}

} // verus!

verus! {

struct ClientPlan<T> {
    name: String,
    steps: Vec<Vec<Op<T>>>,
}

/// The planner: owns the per-client action sequences of one scenario and
/// enumerates their linearizations.
pub struct Planner<T> {
    clients: Vec<ClientPlan<T>>,
    total: usize,
}

spec fn client_view_of<T>(c: ClientPlan<T>) -> ClientView<T> {
    ClientView { name: c.name@, steps: c.steps@.map_values(|st: Vec<Op<T>>| st@) }
}

impl<T> View for Planner<T> {
    type V = Seq<ClientView<T>>;

    closed spec fn view(&self) -> Seq<ClientView<T>> {
        self.clients@.map_values(|c: ClientPlan<T>| client_view_of(c))
    }
}

pub open spec fn steps_from<T>(pv: Seq<ClientView<T>>, i: int) -> nat
    decreases pv.len() - i,
{
    if i >= pv.len() {
        0
    } else {
        pv[i].steps.len() + steps_from(pv, i + 1)
    }
}

/// How many plan positions a full scenario has: the sum of the clients'
/// program lengths.
pub open spec fn total_steps<T>(pv: Seq<ClientView<T>>) -> nat {
    steps_from(pv, 0)
}

/// The cursors of a scenario none of whose steps has been taken.
pub open spec fn zero_cursors(n: nat) -> Seq<usize> {
    Seq::new(n, |i: int| 0usize)
}

/// The plans of a vector of steps, as sequences.
pub open spec fn plans_of(r: Seq<Vec<Step>>) -> Seq<Seq<Step>> {
    r.map_values(|p: Vec<Step>| p@)
}

pub proof fn lemma_view_bounded<T>(p: &Planner<T>)
    ensures
        view_bounded(p@),
{
    assert(p.clients@.len() == vstd::std_specs::vec::spec_vec_len(&p.clients));
    assert forall|i: int| 0 <= i < p@.len() implies (#[trigger] p@[i].steps).len()
        <= usize::MAX by {
        assert(p@[i].steps.len() == p.clients@[i].steps@.len());
        assert(p.clients@[i].steps@.len() == vstd::std_specs::vec::spec_vec_len(
            &p.clients@[i].steps,
        ));
    }
    assert forall|i: int, j: int|
        0 <= i < p@.len() && 0 <= j < p@[i].steps.len() implies (#[trigger] p@[i].steps[j]).len()
        <= usize::MAX by {
        assert(p@[i].steps[j] == p.clients@[i].steps@[j]@);
        assert(p.clients@[i].steps@[j]@.len() == vstd::std_specs::vec::spec_vec_len(
            &p.clients@[i].steps@[j],
        ));
    }
}

/// With no steps taken yet, everything is left to schedule.
pub proof fn lemma_remaining_zero<T>(pv: Seq<ClientView<T>>)
    ensures
        remaining(pv, zero_cursors(pv.len())) == total_steps(pv),
{
    lemma_rem_zero_from(pv, 0);
}

proof fn lemma_rem_zero_from<T>(pv: Seq<ClientView<T>>, i: int)
    requires
        0 <= i,
    ensures
        rem_from(pv, zero_cursors(pv.len()), i) == steps_from(pv, i),
    decreases pv.len() - i,
{
    if i < pv.len() {
        lemma_rem_zero_from(pv, i + 1);
    }
}

/// The first index holding a client of this name, or -1.
pub open spec fn client_index<T>(pv: Seq<ClientView<T>>, name: Seq<char>) -> int
    decreases pv.len(),
{
    if pv.len() == 0 {
        -1
    } else if pv[0].name == name {
        0
    } else {
        let r = client_index(pv.drop_first(), name);
        if r < 0 {
            -1
        } else {
            r + 1
        }
    }
}

proof fn lemma_client_index_at<T>(pv: Seq<ClientView<T>>, name: Seq<char>, i: int)
    requires
        0 <= i <= pv.len(),
        forall|j: int| 0 <= j < i ==> pv[j].name != name,
        i < pv.len() ==> pv[i].name == name,
    ensures
        i < pv.len() ==> client_index(pv, name) == i,
        i == pv.len() ==> client_index(pv, name) == -1,
    decreases pv.len(),
{
    if pv.len() > 0 && pv[0].name != name {
        assert(forall|j: int| 0 <= j < i - 1 ==> pv.drop_first()[j].name != name);
        lemma_client_index_at(pv.drop_first(), name, i - 1);
    }
}

proof fn lemma_steps_from_update<T>(pv: Seq<ClientView<T>>, c: int, cv: ClientView<T>, i: int)
    requires
        0 <= i,
        0 <= c < pv.len(),
    ensures
        i <= c ==> steps_from(pv.update(c, cv), i) == steps_from(pv, i) + cv.steps.len()
            - pv[c].steps.len(),
        i > c ==> steps_from(pv.update(c, cv), i) == steps_from(pv, i),
    decreases pv.len() - i,
{
    if i < pv.len() {
        lemma_steps_from_update(pv, c, cv, i + 1);
        if i == c {
            assert(pv.update(c, cv)[i] == cv);
        } else {
            assert(pv.update(c, cv)[i] == pv[i]);
        }
    }
}

proof fn lemma_steps_from_push<T>(pv: Seq<ClientView<T>>, cv: ClientView<T>, i: int)
    requires
        0 <= i <= pv.len(),
    ensures
        steps_from(pv.push(cv), i) == steps_from(pv, i) + cv.steps.len(),
    decreases pv.len() - i,
{
    if i < pv.len() {
        assert(pv.push(cv)[i] == pv[i]);
        lemma_steps_from_push(pv, cv, i + 1);
    } else {
        assert(pv.push(cv)[i] == cv);
        assert(steps_from(pv.push(cv), i + 1) == 0);
    }
}

proof fn lemma_client_steps_bound<T>(pv: Seq<ClientView<T>>, i: int, c: int)
    requires
        0 <= i <= c < pv.len(),
    ensures
        steps_from(pv, i) >= pv[c].steps.len(),
    decreases pv.len() - i,
{
    if i < c {
        lemma_client_steps_bound(pv, i + 1, c);
    }
}

impl<T> Planner<T> {
    /// The stored total matches the clients' program lengths, and every
    /// choice point offers at least one alternative.
    pub closed spec fn wf(&self) -> bool {
        self.total == total_steps(self@) && planner_view_wf(self@)
    }

    pub fn new() -> (r: Planner<T>)
        ensures
            r.wf(),
            r@ == Seq::<ClientView<T>>::empty(),
    {
        let r = Planner { clients: Vec::new(), total: 0 };
        proof {
            assert(r@ =~= Seq::<ClientView<T>>::empty());
        }
        r
    }

    /// The index of the named client, registering it with an empty program
    /// when it is new.
    pub fn client(&mut self, name: &str) -> (i: usize)
        requires
            old(self).wf(),
        ensures
            final(self).wf(),
            client_index(old(self)@, name@) >= 0 ==> *final(self) == *old(self) && i
                == client_index(old(self)@, name@),
            client_index(old(self)@, name@) < 0 ==> final(self)@ == old(self)@.push(
                ClientView { name: name@, steps: Seq::empty() },
            ) && i == old(self)@.len(),
            (i as int) < final(self)@.len(),
            final(self)@[i as int].name == name@,
    {
        let k = self.clients.len();
        let mut i: usize = 0;
        while i < k
            invariant
                *self == *old(self),
                self.wf(),
                k == self.clients@.len(),
                i <= k,
                self@.len() == k,
                forall|j: int| 0 <= j < i ==> self@[j].name != name@,
            decreases k - i,
        {
            let same = match str_cmp(self.clients[i].name.as_str(), name) {
                KeyOrder::Same => true,
                _ => false,
            };
            if same {
                proof {
                    lemma_client_index_at(self@, name@, i as int);
                }
                return i;
            }
            i += 1;
        }
        proof {
            lemma_client_index_at(self@, name@, k as int);
        }
        let cp = ClientPlan { name: name.to_owned(), steps: Vec::new() };
        self.clients.push(cp);
        proof {
            let cvnew = ClientView { name: name@, steps: Seq::<Seq<Op<T>>>::empty() };
            assert(client_view_of(self.clients@[k as int]).steps =~= cvnew.steps);
            assert(self@ =~= old(self)@.push(cvnew));
            lemma_steps_from_push(old(self)@, cvnew, 0);
            assert(self.wf());
        }
        k
    }

    /// Append a choice point for this client: one of the alternatives will
    /// be taken, a different one in different plans.
    pub fn choice(&mut self, client: usize, alts: Vec<Op<T>>)
        requires
            old(self).wf(),
            (client as int) < old(self)@.len(),
            alts@.len() >= 1,
            total_steps(old(self)@) < usize::MAX,
        ensures
            final(self).wf(),
            final(self)@ == old(self)@.update(
                client as int,
                ClientView {
                    name: old(self)@[client as int].name,
                    steps: old(self)@[client as int].steps.push(alts@),
                },
            ),
    {
        let mut cp = self.clients.remove(client);
        cp.steps.push(alts);
        self.clients.insert(client, cp);
        self.total = self.total + 1;
        proof {
            let cv = ClientView {
                name: old(self)@[client as int].name,
                steps: old(self)@[client as int].steps.push(alts@),
            };
            assert(client_view_of(self.clients@[client as int]).steps =~= cv.steps);
            assert(self@ =~= old(self)@.update(client as int, cv));
            lemma_steps_from_update(old(self)@, client as int, cv, 0);
            assert(self.wf());
        }
    }

    /// Append one unconditional act to this client's program.
    pub fn act(&mut self, client: usize, op: Op<T>)
        requires
            old(self).wf(),
            (client as int) < old(self)@.len(),
            total_steps(old(self)@) < usize::MAX,
        ensures
            final(self).wf(),
            final(self)@ == old(self)@.update(
                client as int,
                ClientView {
                    name: old(self)@[client as int].name,
                    steps: old(self)@[client as int].steps.push(seq![op]),
                },
            ),
    {
        let mut alts: Vec<Op<T>> = Vec::new();
        alts.push(op);
        proof {
            assert(alts@ =~= seq![op]);
        }
        self.choice(client, alts);
    }

    /// The known client names, in insertion order.
    pub fn clients(&self) -> (r: Vec<String>)
        ensures
            r@.len() == self@.len(),
            forall|i: int| 0 <= i < r@.len() ==> (#[trigger] r@[i])@ == self@[i].name,
    {
        let k = self.clients.len();
        let mut r: Vec<String> = Vec::new();
        let mut i: usize = 0;
        while i < k
            invariant
                k == self.clients@.len(),
                self@.len() == k,
                i <= k,
                r@.len() == i,
                forall|j: int| 0 <= j < i ==> (#[trigger] r@[j])@ == self@[j].name,
            decreases k - i,
        {
            r.push(self.clients[i].name.clone());
            i += 1;
        }
        r
    }

    pub fn client_count(&self) -> (r: usize)
        ensures
            r == self@.len(),
    {
        self.clients.len()
    }

    /// How many plan positions a full scenario has.
    pub fn act_count(&self) -> (r: usize)
        requires
            self.wf(),
        ensures
            r == total_steps(self@),
    {
        self.total
    }

    /// The operation behind one plan position: the client's `step_idx`-th
    /// choice point, alternative `alt`.
    pub fn op_at(&self, client: usize, step_idx: usize, alt: usize) -> (r: &Op<T>)
        requires
            (client as int) < self@.len(),
            (step_idx as int) < self@[client as int].steps.len(),
            (alt as int) < self@[client as int].steps[step_idx as int].len(),
        ensures
            *r == self@[client as int].steps[step_idx as int][alt as int],
    {
        &self.clients[client].steps[step_idx][alt]
    }
}

} // verus!

verus! {

fn advance_cursors(cursors: &Vec<usize>, c: usize) -> (r: Vec<usize>)
    requires
        (c as int) < cursors@.len(),
        cursors@[c as int] < usize::MAX,
    ensures
        r@ == cursors@.update(c as int, (cursors@[c as int] + 1) as usize),
{
    let n = cursors.len();
    let mut r: Vec<usize> = Vec::new();
    let mut i: usize = 0;
    while i < n
        invariant
            n == cursors@.len(),
            (c as int) < n,
            cursors@[c as int] < usize::MAX,
            i <= n,
            r@.len() == i,
            forall|j: int|
                0 <= j < i ==> r@[j] == (if j == c {
                    (cursors@[c as int] + 1) as usize
                } else {
                    cursors@[j]
                }),
        decreases n - i,
    {
        if i == c {
            r.push(cursors[i] + 1);
        } else {
            r.push(cursors[i]);
        }
        i += 1;
    }
    proof {
        assert(r@ =~= cursors@.update(c as int, (cursors@[c as int] + 1) as usize));
    }
    r
}

impl<T> Planner<T> {
    fn candidates(&self, cursors: &Vec<usize>) -> (r: Vec<Step>)
        requires
            self.wf(),
            cursors_ok(self@, cursors@),
        ensures
            r@ == step_candidates(self@, cursors@),
    {
        let k = self.clients.len();
        let mut r: Vec<Step> = Vec::new();
        let mut i: usize = 0;
        proof {
            assert(self@.len() == k);
            assert(step_candidates(self@, cursors@) =~= r@ + cands_from(self@, cursors@, 0));
        }
        while i < k
            invariant
                self.wf(),
                cursors_ok(self@, cursors@),
                k == self.clients@.len(),
                self@.len() == k,
                i <= k,
                step_candidates(self@, cursors@) == r@ + cands_from(self@, cursors@, i as int),
            decreases k - i,
        {
            let ci = cursors[i];
            if ci < self.clients[i].steps.len() {
                let nalts = self.clients[i].steps[ci].len();
                proof {
                    assert(client_candidates(self@, cursors@, i as int).len() == nalts);
                }
                let mut a: usize = 0;
                while a < nalts
                    invariant
                        self.wf(),
                        cursors_ok(self@, cursors@),
                        k == self.clients@.len(),
                        self@.len() == k,
                        i < k,
                        a <= nalts,
                        client_candidates(self@, cursors@, i as int).len() == nalts,
                        step_candidates(self@, cursors@) == r@ + client_candidates(
                            self@,
                            cursors@,
                            i as int,
                        ).skip(a as int) + cands_from(self@, cursors@, i as int + 1),
                    decreases nalts - a,
                {
                    let ghost cc = client_candidates(self@, cursors@, i as int);
                    r.push(Step { client: i, alt: a });
                    proof {
                        assert(cc.skip(a as int).drop_first() =~= cc.skip(a as int + 1));
                        assert(cc.skip(a as int)[0] == Step { client: i, alt: a });
                        assert(cc.skip(a as int) =~= seq![Step { client: i, alt: a }] + cc.skip(
                            a as int + 1,
                        ));
                        assert(step_candidates(self@, cursors@) =~= r@ + cc.skip(a as int + 1)
                            + cands_from(self@, cursors@, i as int + 1));
                    }
                    a += 1;
                }
                proof {
                    assert(client_candidates(self@, cursors@, i as int).skip(nalts as int)
                        =~= Seq::<Step>::empty());
                    assert(step_candidates(self@, cursors@) =~= r@ + cands_from(
                        self@,
                        cursors@,
                        i as int + 1,
                    ));
                }
            } else {
                proof {
                    assert(client_candidates(self@, cursors@, i as int) =~= Seq::<Step>::empty());
                    assert(step_candidates(self@, cursors@) =~= r@ + cands_from(
                        self@,
                        cursors@,
                        i as int + 1,
                    ));
                }
            }
            i += 1;
        }
        proof {
            assert(cands_from(self@, cursors@, k as int) =~= Seq::<Step>::empty());
            assert(r@ =~= step_candidates(self@, cursors@));
        }
        r
    }

    fn plans_rec(&self, cursors: Vec<usize>) -> (r: Vec<Vec<Step>>)
        requires
            self.wf(),
            cursors_ok(self@, cursors@),
        ensures
            plans_of(r@) == plans_from(self@, cursors@),
        decreases remaining(self@, cursors@),
    {
        let cands = self.candidates(&cursors);
        if cands.len() == 0 {
            proof {
                lemma_no_candidates_done(self@, cursors@);
            }
            let mut r: Vec<Vec<Step>> = Vec::new();
            let inner: Vec<Step> = Vec::new();
            r.push(inner);
            proof {
                assert(plans_of(r@) =~= plans_from(self@, cursors@));
            }
            return r;
        }
        proof {
            if remaining(self@, cursors@) == 0 {
                lemma_done_no_candidates(self@, cursors@);
                assert(false);
            }
            lemma_candidates_ok(self@, cursors@);
            assert(plans_from(self@, cursors@) == expand(self@, cursors@, cands@));
            assert(expand(self@, cursors@, cands@.skip(0)) == expand(self@, cursors@, cands@))
                by {
                assert(cands@.skip(0) =~= cands@);
            }
        }
        let mut acc: Vec<Vec<Step>> = Vec::new();
        let mut j: usize = 0;
        while j < cands.len()
            invariant
                self.wf(),
                cursors_ok(self@, cursors@),
                cands@ == step_candidates(self@, cursors@),
                remaining(self@, cursors@) > 0,
                j <= cands@.len(),
                forall|n: int|
                    0 <= n < cands@.len() ==> step_ok(self@, cursors@, #[trigger] cands@[n]),
                expand(self@, cursors@, cands@) == plans_of(acc@) + expand(
                    self@,
                    cursors@,
                    cands@.skip(j as int),
                ),
            decreases cands@.len() - j,
        {
            let step = cands[j];
            proof {
                lemma_remaining_advance(self@, cursors@, step.client as int);
            }
            let cur2 = advance_cursors(&cursors, step.client);
            let sub = self.plans_rec(cur2);
            let ghost adv = advance(self@, cursors@, step.client as int);
            let ghost mapped = plans_from(self@, adv).map_values(|p: Seq<Step>| seq![step] + p);
            let ghost acc0 = acc@;
            let mut m: usize = 0;
            while m < sub.len()
                invariant
                    m <= sub@.len(),
                    plans_of(sub@) == plans_from(self@, adv),
                    mapped == plans_from(self@, adv).map_values(|p: Seq<Step>| seq![step] + p),
                    acc@.len() == acc0.len() + m,
                    forall|n: int| 0 <= n < acc0.len() ==> acc@[n] == acc0[n],
                    forall|n: int|
                        0 <= n < m ==> (#[trigger] acc@[acc0.len() + n])@ == mapped[n],
                decreases sub@.len() - m,
            {
                let p = &sub[m];
                let mut q: Vec<Step> = Vec::new();
                q.push(step);
                let mut t: usize = 0;
                while t < p.len()
                    invariant
                        t <= p@.len(),
                        q@ == seq![step] + p@.take(t as int),
                    decreases p@.len() - t,
                {
                    q.push(p[t]);
                    proof {
                        assert(p@.take(t as int).push(p@[t as int]) =~= p@.take(t as int + 1));
                        assert(q@ =~= seq![step] + p@.take(t as int + 1));
                    }
                    t += 1;
                }
                proof {
                    assert(p@.take(p@.len() as int) =~= p@);
                    assert(q@ == seq![step] + p@);
                    assert(mapped[m as int] == seq![step] + plans_of(sub@)[m as int]);
                }
                acc.push(q);
                m += 1;
            }
            proof {
                assert forall|n: int| 0 <= n < acc@.len() implies plans_of(acc@)[n] == (plans_of(
                    acc0,
                ) + mapped)[n] by {
                    if n < acc0.len() {
                        assert(acc@[n] == acc0[n]);
                    } else {
                        let nn = n - acc0.len();
                        assert((#[trigger] acc@[acc0.len() + nn])@ == mapped[nn]);
                        assert(acc@[n] == acc@[acc0.len() + nn]);
                    }
                }
                assert(plans_of(acc@) =~= plans_of(acc0) + mapped);
                assert(cands@.skip(j as int)[0] == cands@[j as int]);
                assert(cands@.skip(j as int).drop_first() =~= cands@.skip(j as int + 1));
                assert(expand(self@, cursors@, cands@.skip(j as int)) == mapped + expand(
                    self@,
                    cursors@,
                    cands@.skip(j as int + 1),
                ));
            }
            j += 1;
        }
        proof {
            assert(cands@.skip(cands@.len() as int) =~= Seq::<Step>::empty());
            assert(plans_of(acc@) =~= expand(self@, cursors@, cands@));
        }
        acc
    }

    /// Every linearization of the clients' program orders, over every
    /// combination of choices: a deterministic function of the planner's
    /// contents.  Plans are ordered by their first differing position, the
    /// earlier client (and the earlier alternative) first.
    pub fn orderings(&self) -> (r: Vec<Vec<Step>>)
        requires
            self.wf(),
        ensures
            plans_of(r@) == plans_from(self@, zero_cursors(self@.len())),
    {
        let k = self.clients.len();
        let mut cursors: Vec<usize> = Vec::new();
        let mut i: usize = 0;
        while i < k
            invariant
                i <= k,
                cursors@.len() == i,
                forall|j: int| 0 <= j < i ==> cursors@[j] == 0usize,
            decreases k - i,
        {
            cursors.push(0);
            i += 1;
        }
        proof {
            assert(self@.len() == k);
            assert(cursors@ =~= zero_cursors(self@.len()));
            lemma_view_bounded(self);
        }
        self.plans_rec(cursors)
    }
}

} // verus!

verus! {

pub open spec fn fact(n: nat) -> nat
    decreases n,
{
    if n == 0 {
        1
    } else {
        n * fact((n - 1) as nat)
    }
}

/// The product, over the clients from `i` on, of the factorials of their
/// outstanding step counts.
pub open spec fn rem_fact_prod<T>(pv: Seq<ClientView<T>>, cur: Seq<usize>, i: int) -> nat
    decreases pv.len() - i,
{
    if i >= pv.len() {
        1
    } else {
        fact(client_remaining(pv, cur, i)) * rem_fact_prod(pv, cur, i + 1)
    }
}

/// No client has a branching choice point: every step offers exactly one
/// alternative.
pub open spec fn no_branching<T>(pv: Seq<ClientView<T>>) -> bool {
    forall|i: int, j: int|
        0 <= i < pv.len() && 0 <= j < pv[i].steps.len() ==> (#[trigger] pv[i].steps[j]).len() == 1
}

proof fn lemma_prod_done<T>(pv: Seq<ClientView<T>>, cur: Seq<usize>, i: int)
    requires
        rem_from(pv, cur, i) == 0,
    ensures
        rem_fact_prod(pv, cur, i) == 1,
    decreases pv.len() - i,
{
    if i < pv.len() {
        assert(client_remaining(pv, cur, i) + rem_from(pv, cur, i + 1) == 0);
        lemma_prod_done(pv, cur, i + 1);
        assert(client_remaining(pv, cur, i) == 0);
        assert(fact(0) == 1);
        assert(rem_fact_prod(pv, cur, i) == fact(client_remaining(pv, cur, i)) * rem_fact_prod(
            pv,
            cur,
            i + 1,
        ));
    }
}

proof fn lemma_prod_advance<T>(pv: Seq<ClientView<T>>, cur: Seq<usize>, c: int, i: int)
    requires
        cursors_ok(pv, cur),
        0 <= c < pv.len(),
        cur[c] < pv[c].steps.len(),
        0 <= i,
    ensures
        i <= c ==> rem_fact_prod(pv, cur, i) == rem_fact_prod(pv, advance(pv, cur, c), i)
            * client_remaining(pv, cur, c),
        i > c ==> rem_fact_prod(pv, cur, i) == rem_fact_prod(pv, advance(pv, cur, c), i),
    decreases pv.len() - i,
{
    if i < pv.len() {
        lemma_prod_advance(pv, cur, c, i + 1);
        let adv = advance(pv, cur, c);
        if i == c {
            let rc = client_remaining(pv, cur, c);
            assert(client_remaining(pv, adv, c) == (rc - 1) as nat);
            assert(fact(rc) == rc * fact((rc - 1) as nat));
            assert(fact(rc) * rem_fact_prod(pv, cur, i + 1) == (fact((rc - 1) as nat)
                * rem_fact_prod(pv, adv, i + 1)) * rc) by (nonlinear_arith)
                requires
                    rem_fact_prod(pv, cur, i + 1) == rem_fact_prod(pv, adv, i + 1),
                    fact(rc) == rc * fact((rc - 1) as nat),
            ;
        } else if i < c {
            assert(client_remaining(pv, adv, i) == client_remaining(pv, cur, i));
            let fi = fact(client_remaining(pv, cur, i));
            assert(fi * rem_fact_prod(pv, cur, i + 1) == (fi * rem_fact_prod(pv, adv, i + 1))
                * client_remaining(pv, cur, c)) by (nonlinear_arith)
                requires
                    rem_fact_prod(pv, cur, i + 1) == rem_fact_prod(pv, adv, i + 1)
                        * client_remaining(pv, cur, c),
            ;
        } else {
            assert(client_remaining(pv, adv, i) == client_remaining(pv, cur, i));
        }
    }
}

/// Without branching, the number of enumerated plans is the multinomial
/// coefficient: the factorial of the total outstanding step count, divided
/// by the product of the factorials of the per-client counts.  Stated
/// multiplicatively: `count * (n_1! * ... * n_k!) == (n_1 + ... + n_k)!`.
pub proof fn lemma_orderings_multinomial<T>(pv: Seq<ClientView<T>>, cur: Seq<usize>)
    requires
        cursors_ok(pv, cur),
        no_branching(pv),
    ensures
        plans_from(pv, cur).len() * rem_fact_prod(pv, cur, 0) == fact(remaining(pv, cur)),
    decreases remaining(pv, cur), 1int, 0int,
{
    if remaining(pv, cur) == 0 {
        lemma_prod_done(pv, cur, 0);
    } else {
        lemma_count_clients(pv, cur, 0);
        let rem = remaining(pv, cur);
        assert(fact(rem) == rem * fact((rem - 1) as nat));
        assert(plans_from(pv, cur).len() * rem_fact_prod(pv, cur, 0) == fact(rem)) by (
        nonlinear_arith)
            requires
                plans_from(pv, cur).len() == expand(pv, cur, cands_from(pv, cur, 0)).len(),
                expand(pv, cur, cands_from(pv, cur, 0)).len() * rem_fact_prod(pv, cur, 0) == fact(
                    (rem - 1) as nat,
                ) * rem_from(pv, cur, 0),
                rem_from(pv, cur, 0) == rem,
                fact(rem) == rem * fact((rem - 1) as nat),
        ;
    }
}

proof fn lemma_count_clients<T>(pv: Seq<ClientView<T>>, cur: Seq<usize>, i: int)
    requires
        cursors_ok(pv, cur),
        no_branching(pv),
        remaining(pv, cur) > 0,
        0 <= i,
    ensures
        expand(pv, cur, cands_from(pv, cur, i)).len() * rem_fact_prod(pv, cur, 0) == fact(
            (remaining(pv, cur) - 1) as nat,
        ) * rem_from(pv, cur, i),
    decreases remaining(pv, cur), 0int, pv.len() - i,
{
    let rem = remaining(pv, cur);
    if i >= pv.len() {
        assert(cands_from(pv, cur, i) =~= Seq::<Step>::empty());
        assert(expand(pv, cur, cands_from(pv, cur, i)).len() == 0);
        assert(rem_from(pv, cur, i) == 0);
    } else if cur[i] >= pv[i].steps.len() {
        lemma_count_clients(pv, cur, i + 1);
        assert(client_candidates(pv, cur, i) =~= Seq::<Step>::empty());
        assert(cands_from(pv, cur, i) =~= cands_from(pv, cur, i + 1));
        assert(client_remaining(pv, cur, i) == 0);
        assert(rem_from(pv, cur, i) == rem_from(pv, cur, i + 1));
        assert(expand(pv, cur, cands_from(pv, cur, i)) == expand(pv, cur, cands_from(pv, cur, i + 1)));
    } else {
        lemma_count_clients(pv, cur, i + 1);
        let step = Step { client: i as usize, alt: 0usize };
        assert(client_candidates(pv, cur, i).len() == 1);
        assert(client_candidates(pv, cur, i)[0] == step);
        let cands = cands_from(pv, cur, i);
        assert(cands[0] == step);
        assert(cands.drop_first() =~= cands_from(pv, cur, i + 1));
        assert(step_ok(pv, cur, step));
        let adv = advance(pv, cur, i);
        lemma_remaining_advance(pv, cur, i);
        lemma_orderings_multinomial(pv, adv);
        lemma_prod_advance(pv, cur, i, 0);
        let li = plans_from(pv, adv).len();
        let ei = expand(pv, cur, cands_from(pv, cur, i + 1)).len();
        let ri = client_remaining(pv, cur, i);
        assert(expand(pv, cur, cands).len() == li + ei);
        assert(remaining(pv, adv) == (rem - 1) as nat);
        assert((li + ei) * rem_fact_prod(pv, cur, 0) == fact((rem - 1) as nat) * rem_from(
            pv,
            cur,
            i,
        )) by (nonlinear_arith)
            requires
                li * rem_fact_prod(pv, adv, 0) == fact((rem - 1) as nat),
                rem_fact_prod(pv, cur, 0) == rem_fact_prod(pv, adv, 0) * ri,
                ei * rem_fact_prod(pv, cur, 0) == fact((rem - 1) as nat) * rem_from(pv, cur, i + 1),
                rem_from(pv, cur, i) == ri + rem_from(pv, cur, i + 1),
        ;
    }
}

} // verus!

verus! {

/// The enumeration laws, stated at the planner itself: every plan of
/// `orderings()` is a well-formed merge that schedules each client's whole
/// program in program order, and, when no choice point branches, the
/// number of plans is the multinomial coefficient
/// `(n_1 + ... + n_k)! / (n_1! * ... * n_k!)` of the program lengths.
pub proof fn lemma_orderings_laws<T>(p: &Planner<T>)
    requires
        p.wf(),
    ensures
        ({
            let zc = zero_cursors(p@.len());
            let plans = plans_from(p@, zc);
            &&& forall|n: int|
                0 <= n < plans.len() ==> plan_wf(p@, zc, #[trigger] plans[n]) && plans[n].len()
                    == total_steps(p@)
            &&& no_branching(p@) ==> plans.len() * rem_fact_prod(p@, zc, 0) == fact(
                total_steps(p@),
            )
        }),
{
    let zc = zero_cursors(p@.len());
    let plans = plans_from(p@, zc);
    lemma_view_bounded(p);
    lemma_remaining_zero(p@);
    lemma_plans_wf(p@, zc);
    assert forall|n: int| 0 <= n < plans.len() implies plan_wf(p@, zc, #[trigger] plans[n])
        && plans[n].len() == total_steps(p@) by {
        lemma_plan_wf_len(p@, zc, plans[n]);
    }
    if no_branching(p@) {
        lemma_orderings_multinomial(p@, zc);
    }
}

} // verus!
