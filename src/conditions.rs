use vstd::prelude::*;

use crate::environment::{EnvView, Environment};
use crate::errors::TaskError;
use crate::evaluator::RunningTreeState;
use crate::types::{StateType, StateValue};

verus! {

/// A predicate that holds unless a delay since its rearming has not elapsed,
/// or, in edge mode, it has already fired since its rearming.
#[derive(Clone, Copy, Debug, PartialEq, Eq, Structural)]
pub struct AllwaysTrue {
    /// Milliseconds that must pass after the rearming; zero for none.
    pub with_delay: u64,
    /// Edge mode: fire at most once per rearming.
    pub with_flank: bool,
    pub has_flanked: bool,
    /// Time of the last rearming, if any.
    pub first_exec_at: Option<u64>,
}

/// A predicate that holds when a key of the application state holds a value.
pub struct AppCondition {
    pub key: String,
    pub value: StateType,
}

/// A predicate on the state of a digital pin, with an optional delay and edge mode.
#[derive(Clone, Copy, Debug, PartialEq, Eq, Structural)]
pub struct DigitalGpioCondition {
    pub pin: u8,
    /// The state the pin must be in.
    pub state: bool,
    /// Whether the pin is an output pin rather than an input pin.
    pub is_output: bool,
    /// Milliseconds that must pass after the later of the rearming and the
    /// last change of the pin.
    pub delay: u64,
    /// Edge mode: fire at most once per rearming.
    pub use_flank: bool,
    pub has_flanked: bool,
    /// Time of the rearming from which the delay counts, if any.
    pub first_eval_at: Option<u64>,
}

/// A predicate on the direction in which the node was entered.
#[derive(Clone, Copy, Debug, PartialEq, Eq, Structural)]
pub struct TreeCondition {
    /// Hold when the node was entered from above; when `false`, hold when
    /// control came back to the node from a child.
    pub when_moving_up: bool,
}

/// Boolean composition of predicates.
pub enum Gates {
    And(Vec<Condition>),
    Or(Vec<Condition>),
    Not(Box<Condition>),
}

/// A predicate of the task tree.
pub enum Condition {
    AllwaysTrue(AllwaysTrue),
    App(AppCondition),
    Gpio(DigitalGpioCondition),
    Tree(TreeCondition),
    Gates(Gates),
}

/// The mathematical value of a [`Condition`], with its bookkeeping.
pub enum CondView {
    AllwaysTrue(AllwaysTrue),
    App(Seq<char>, StateValue),
    Gpio(DigitalGpioCondition),
    Tree(TreeCondition),
    And(Seq<CondView>),
    Or(Seq<CondView>),
    Not(Box<CondView>),
}

pub open spec fn cond_view(c: Condition) -> CondView
    decreases c,
{
    match c {
        Condition::AllwaysTrue(a) => CondView::AllwaysTrue(a),
        Condition::App(a) => CondView::App(a.key@, a.value@),
        Condition::Gpio(g) => CondView::Gpio(g),
        Condition::Tree(t) => CondView::Tree(t),
        Condition::Gates(Gates::And(v)) => CondView::And(cond_views(v@)),
        Condition::Gates(Gates::Or(v)) => CondView::Or(cond_views(v@)),
        Condition::Gates(Gates::Not(b)) => CondView::Not(Box::new(cond_view(*b))),
    }
}

pub open spec fn cond_views(s: Seq<Condition>) -> Seq<CondView>
    decreases s,
{
    if s.len() == 0 {
        Seq::empty()
    } else {
        seq![cond_view(s[0])] + cond_views(s.subrange(1, s.len() as int))
    }
}

impl View for Condition {
    type V = CondView;

    open spec fn view(&self) -> CondView {
        cond_view(*self)
    }
}

impl View for Gates {
    type V = CondView;

    open spec fn view(&self) -> CondView {
        cond_view(Condition::Gates(*self))
    }
}

/// `cond_views` maps each element on its own.
pub proof fn lemma_cond_views(s: Seq<Condition>)
    ensures
        cond_views(s).len() == s.len(),
        forall|i: int| 0 <= i < s.len() ==> #[trigger] cond_views(s)[i] == cond_view(s[i]),
    decreases s.len(),
{
    if s.len() > 0 {
        lemma_cond_views(s.subrange(1, s.len() as int));
        assert forall|i: int| 0 <= i < s.len() implies #[trigger] cond_views(s)[i] == cond_view(
            s[i],
        ) by {
            if i > 0 {
                assert(s.subrange(1, s.len() as int)[i - 1] == s[i]);
            }
        }
    }
}

pub proof fn lemma_cond_views_ext(s: Seq<Condition>, t: Seq<CondView>)
    requires
        t.len() == s.len(),
        forall|i: int| 0 <= i < s.len() ==> t[i] == cond_view(s[i]),
    ensures
        cond_views(s) == t,
{
    lemma_cond_views(s);
    assert(cond_views(s) =~= t);
}

impl AllwaysTrue {
    /// A predicate that always holds.
    pub fn new() -> (r: AllwaysTrue)
        ensures
            r == AllwaysTrue::new_spec(),
    {
        AllwaysTrue { with_delay: 0, with_flank: false, has_flanked: false, first_exec_at: None }
    }

    /// Holds only once `delay` milliseconds have passed since the rearming.
    pub fn after_delay(self, delay: u64) -> (r: AllwaysTrue)
        ensures
            r == (AllwaysTrue { with_delay: delay, ..self }),
    {
        AllwaysTrue { with_delay: delay, ..self }
    }

    /// Holds at most once per rearming.
    pub fn on_flank(self) -> (r: AllwaysTrue)
        ensures
            r == (AllwaysTrue { with_flank: true, ..self }),
    {
        AllwaysTrue { with_flank: true, ..self }
    }

    pub fn into_condition(self) -> (r: Condition)
        ensures
            r@ == CondView::AllwaysTrue(self),
    {
        Condition::AllwaysTrue(self)
    }
}

impl AppCondition {
    /// Holds when `key` is present and holds `value`, of the same variant.
    pub fn new(key: String, value: StateType) -> (r: AppCondition)
        ensures
            r.key == key,
            r.value == value,
    {
        AppCondition { key, value }
    }

    pub fn into_condition(self) -> (r: Condition)
        ensures
            r@ == CondView::App(self.key@, self.value@),
    {
        Condition::App(self)
    }
}

impl DigitalGpioCondition {
    pub open spec fn fresh(pin: u8, is_output: bool) -> DigitalGpioCondition {
        DigitalGpioCondition {
            pin,
            state: true,
            is_output,
            delay: 0,
            use_flank: false,
            has_flanked: false,
            first_eval_at: None,
        }
    }

    /// Holds while the output pin `pin` is on.
    pub fn new_output(pin: u8) -> (r: DigitalGpioCondition)
        ensures
            r == DigitalGpioCondition::fresh(pin, true),
    {
        DigitalGpioCondition {
            pin,
            state: true,
            is_output: true,
            delay: 0,
            use_flank: false,
            has_flanked: false,
            first_eval_at: None,
        }
    }

    /// Holds while the input pin `pin` is on.
    pub fn new_input(pin: u8) -> (r: DigitalGpioCondition)
        ensures
            r == DigitalGpioCondition::fresh(pin, false),
    {
        DigitalGpioCondition {
            pin,
            state: true,
            is_output: false,
            delay: 0,
            use_flank: false,
            has_flanked: false,
            first_eval_at: None,
        }
    }

    /// Holds while the pin is off instead.
    pub fn when_false(self) -> (r: DigitalGpioCondition)
        ensures
            r == (DigitalGpioCondition { state: false, ..self }),
    {
        DigitalGpioCondition { state: false, ..self }
    }

    /// Holds only once the pin has been in its state for `delay` milliseconds,
    /// counted from the later of its last change and the rearming.
    pub fn after_delay(self, delay: u64) -> (r: DigitalGpioCondition)
        ensures
            r == (DigitalGpioCondition { delay, ..self }),
    {
        DigitalGpioCondition { delay, ..self }
    }

    /// Holds at most once per rearming while the pin stays in its state.
    pub fn on_flank(self) -> (r: DigitalGpioCondition)
        ensures
            r == (DigitalGpioCondition { use_flank: true, ..self }),
    {
        DigitalGpioCondition { use_flank: true, ..self }
    }

    pub fn into_condition(self) -> (r: Condition)
        ensures
            r@ == CondView::Gpio(self),
    {
        Condition::Gpio(self)
    }
}

impl TreeCondition {
    /// Holds when the node was entered from above, not on return from a child.
    pub fn new_when_moving_up() -> (r: TreeCondition)
        ensures
            r.when_moving_up,
    {
        TreeCondition { when_moving_up: true }
    }

    /// Holds when control came back to the node from a child it left.
    pub fn new_when_moving_down() -> (r: TreeCondition)
        ensures
            !r.when_moving_up,
    {
        TreeCondition { when_moving_up: false }
    }

    pub fn into_condition(self) -> (r: Condition)
        ensures
            r@ == CondView::Tree(self),
    {
        Condition::Tree(self)
    }
}

impl Gates {
    /// A conjunction of no predicates yet.
    pub fn and() -> (r: Gates)
        ensures
            r@ == CondView::And(Seq::empty()),
    {
        let r = Gates::And(Vec::new());
        proof {
            lemma_cond_views_ext(Seq::<Condition>::empty(), Seq::empty());
        }
        r
    }

    /// A disjunction of no predicates yet.
    pub fn or() -> (r: Gates)
        ensures
            r@ == CondView::Or(Seq::empty()),
    {
        let r = Gates::Or(Vec::new());
        proof {
            lemma_cond_views_ext(Seq::<Condition>::empty(), Seq::empty());
        }
        r
    }

    /// A negation of the predicate that always holds, until another is given.
    pub fn not() -> (r: Gates)
        ensures
            r@ == CondView::Not(Box::new(CondView::AllwaysTrue(AllwaysTrue::new_spec()))),
    {
        let inner = Condition::AllwaysTrue(AllwaysTrue::new());
        assert(inner@ == CondView::AllwaysTrue(AllwaysTrue::new_spec()));
        Gates::Not(Box::new(inner))
    }

    /// Adds `condition` to a conjunction or disjunction, or makes it the
    /// negated predicate.
    pub fn condition(self, condition: Condition) -> (r: Gates)
        ensures
            r@ == match self@ {
                CondView::And(cs) => CondView::And(cs.push(condition@)),
                CondView::Or(cs) => CondView::Or(cs.push(condition@)),
                _ => CondView::Not(Box::new(condition@)),
            },
    {
        match self {
            Gates::And(mut v) => {
                let ghost old_v = v@;
                v.push(condition);
                proof {
                    lemma_cond_views(old_v);
                    lemma_cond_views_ext(v@, cond_views(old_v).push(cond_view(v@.last())));
                }
                Gates::And(v)
            },
            Gates::Or(mut v) => {
                let ghost old_v = v@;
                v.push(condition);
                proof {
                    lemma_cond_views(old_v);
                    lemma_cond_views_ext(v@, cond_views(old_v).push(cond_view(v@.last())));
                }
                Gates::Or(v)
            },
            Gates::Not(_) => Gates::Not(Box::new(condition)),
        }
    }

    /// Adds `conditions` to a conjunction or disjunction, or makes the first
    /// of them the negated predicate.
    pub fn multiple_conditions(self, conditions: Vec<Condition>) -> (r: Gates)
        ensures
            r@ == match self@ {
                CondView::And(cs) => CondView::And(cs + cond_views(conditions@)),
                CondView::Or(cs) => CondView::Or(cs + cond_views(conditions@)),
                _ => if conditions@.len() >= 1 {
                    CondView::Not(Box::new(cond_view(conditions@[0])))
                } else {
                    self@
                },
            },
    {
        let mut conditions = conditions;
        let ghost added = conditions@;
        proof {
            lemma_cond_views(added);
        }
        match self {
            Gates::And(mut v) => {
                let ghost old_v = v@;
                v.append(&mut conditions);
                proof {
                    lemma_cond_views(old_v);
                    lemma_cond_views_ext(v@, cond_views(old_v) + cond_views(added));
                }
                Gates::And(v)
            },
            Gates::Or(mut v) => {
                let ghost old_v = v@;
                v.append(&mut conditions);
                proof {
                    lemma_cond_views(old_v);
                    lemma_cond_views_ext(v@, cond_views(old_v) + cond_views(added));
                }
                Gates::Or(v)
            },
            Gates::Not(inner) => {
                if conditions.len() >= 1 {
                    Gates::Not(Box::new(conditions.remove(0)))
                } else {
                    Gates::Not(inner)
                }
            },
        }
    }

    pub fn into_condition(self) -> (r: Condition)
        ensures
            r@ == self@,
    {
        Condition::Gates(self)
    }
}

impl AllwaysTrue {
    pub open spec fn new_spec() -> AllwaysTrue {
        AllwaysTrue { with_delay: 0, with_flank: false, has_flanked: false, first_exec_at: None }
    }
}

/// Whether an evaluation result agrees with its model: a fault where the
/// model has one, else the same truth value. The only fault, a pin that is
/// not registered, is an I/O error; the evaluation functions state so.
pub open spec fn agrees(r: Result<bool, TaskError>, m: Result<bool, ()>) -> bool {
    match m {
        Ok(b) => r == Ok::<bool, TaskError>(b),
        Err(_) => r is Err,
    }
}

impl AllwaysTrue {
    /// The bookkeeping after a rearming, which happens exactly on the first
    /// evaluation after a move.
    pub open spec fn rearmed(self, rts: RunningTreeState, now: u64) -> AllwaysTrue {
        if rts.first_iteration_after_move {
            AllwaysTrue { first_exec_at: Some(now), has_flanked: false, ..self }
        } else {
            self
        }
    }

    /// The delay since the rearming has not elapsed at `now`.
    pub open spec fn waiting(self, now: u64) -> bool {
        self.with_delay > 0 && match self.first_exec_at {
            Some(t) => now < t + self.with_delay,
            None => false,
        }
    }

    /// The verdict at `now` and the bookkeeping after it.
    pub open spec fn eval_spec(self, rts: RunningTreeState, now: u64) -> (bool, AllwaysTrue) {
        let a = self.rearmed(rts, now);
        if a.waiting(now) {
            (false, a)
        } else if a.with_flank && a.has_flanked {
            (false, a)
        } else {
            (true, AllwaysTrue { has_flanked: true, ..a })
        }
    }

    pub fn eval(&mut self, rts: &RunningTreeState, now: u64) -> (r: bool)
        ensures
            (r, *final(self)) == old(self).eval_spec(*rts, now),
    {
        if rts.first_iteration_after_move {
            self.first_exec_at = Some(now);
            self.has_flanked = false;
        }
        if self.with_delay > 0 {
            if let Some(t) = self.first_exec_at {
                if now < t || now - t < self.with_delay {
                    return false;
                }
            }
        }
        if self.with_flank && self.has_flanked {
            return false;
        }
        self.has_flanked = true;
        true
    }
}

impl DigitalGpioCondition {
    /// The bookkeeping after a rearming. The delay restarts from now unless
    /// the node is the active one, entered from above, with a time already kept.
    pub open spec fn rearmed(self, rts: RunningTreeState, now: u64) -> DigitalGpioCondition {
        if rts.first_iteration_after_move {
            DigitalGpioCondition {
                has_flanked: false,
                first_eval_at: if !rts.currently_active || rts.moved_in_from_back
                    || self.first_eval_at is None {
                    Some(now)
                } else {
                    self.first_eval_at
                },
                ..self
            }
        } else {
            self
        }
    }

    /// The state and the time of the last change of the watched pin, if registered.
    pub open spec fn pin_snapshot(self, env: EnvView) -> Option<(bool, u64)> {
        if self.is_output {
            match env.outputs[self.pin as int] {
                Some(h) => Some((h.current_state, h.last_change)),
                None => None,
            }
        } else {
            match env.inputs[self.pin as int] {
                Some(h) => Some((h.current_state, h.last_change)),
                None => None,
            }
        }
    }

    /// The time from which the delay counts: the later of the rearming and
    /// the pin's last change.
    pub open spec fn since(self, changed_at: u64) -> int {
        match self.first_eval_at {
            Some(t) => if t > changed_at { t as int } else { changed_at as int },
            None => changed_at as int,
        }
    }

    /// The verdict at `now` and the bookkeeping after it; a fault where the
    /// pin is not registered.
    pub open spec fn eval_spec(self, env: EnvView, rts: RunningTreeState, now: u64) -> (
        Result<bool, ()>,
        DigitalGpioCondition,
    ) {
        match self.pin_snapshot(env) {
            None => (Err(()), self),
            Some((level, changed_at)) => {
                let a = self.rearmed(rts, now);
                if level != a.state || now - a.since(changed_at) < a.delay {
                    (Ok(false), DigitalGpioCondition { has_flanked: false, ..a })
                } else if a.use_flank && a.has_flanked {
                    (Ok(false), a)
                } else {
                    (Ok(true), DigitalGpioCondition { has_flanked: true, ..a })
                }
            },
        }
    }

    pub fn eval(&mut self, env: &Environment, rts: &RunningTreeState, now: u64) -> (r: Result<
        bool,
        TaskError,
    >)
        ensures
            agrees(r, old(self).eval_spec(env@, *rts, now).0),
            *final(self) == old(self).eval_spec(env@, *rts, now).1,
            r is Err ==> r->Err_0 is IoError,
    {
        let snapshot = if self.is_output {
            match env.output_pin(self.pin) {
                Some(h) => Some((h.current_state, h.last_change)),
                None => None,
            }
        } else {
            match env.input_pin(self.pin) {
                Some(h) => Some((h.current_state, h.last_change)),
                None => None,
            }
        };
        let (level, changed_at) = match snapshot {
            Some(s) => s,
            None => {
                return Err(TaskError::IoError { comment: String::from_str("pin not registered") });
            },
        };
        if rts.first_iteration_after_move {
            self.has_flanked = false;
            if !rts.currently_active || rts.moved_in_from_back || self.first_eval_at.is_none() {
                self.first_eval_at = Some(now);
            }
        }
        let since = match self.first_eval_at {
            Some(t) => if t > changed_at { t } else { changed_at },
            None => changed_at,
        };
        let too_early = now < since || now - since < self.delay;
        if level != self.state || too_early {
            self.has_flanked = false;
            return Ok(false);
        }
        if self.use_flank && self.has_flanked {
            return Ok(false);
        }
        self.has_flanked = true;
        Ok(true)
    }
}

/// The verdict of a predicate at `now`, and the predicate's bookkeeping after it.
pub open spec fn eval_view(c: CondView, env: EnvView, rts: RunningTreeState, now: u64) -> (
    Result<bool, ()>,
    CondView,
)
    decreases c,
{
    match c {
        CondView::AllwaysTrue(a) => {
            let (b, a2) = a.eval_spec(rts, now);
            (Ok(b), CondView::AllwaysTrue(a2))
        },
        CondView::App(k, v) => (Ok(env.app.contains_key(k) && env.app[k] == v), c),
        CondView::Gpio(g) => {
            let (r, g2) = g.eval_spec(env, rts, now);
            (r, CondView::Gpio(g2))
        },
        CondView::Tree(t) => (Ok(rts.moved_in_from_back != t.when_moving_up), c),
        CondView::And(cs) => {
            let (r, cs2) = eval_views(cs, true, env, rts, now);
            (r, CondView::And(cs2))
        },
        CondView::Or(cs) => {
            let (r, cs2) = eval_views(cs, false, env, rts, now);
            (r, CondView::Or(cs2))
        },
        CondView::Not(b) => {
            let (r, b2) = eval_view(*b, env, rts, now);
            (
                match r {
                    Ok(x) => Ok(!x),
                    Err(e) => Err(e),
                },
                CondView::Not(Box::new(b2)),
            )
        },
    }
}

/// Evaluates `cs` in order, stopping at the first fault or at the first
/// verdict other than `all`: a conjunction for `all == true`, a disjunction
/// for `all == false`.
pub open spec fn eval_views(
    cs: Seq<CondView>,
    all: bool,
    env: EnvView,
    rts: RunningTreeState,
    now: u64,
) -> (Result<bool, ()>, Seq<CondView>)
    decreases cs,
{
    if cs.len() == 0 {
        (Ok(all), cs)
    } else {
        let (r, c0) = eval_view(cs[0], env, rts, now);
        match r {
            Err(e) => (Err(e), cs.update(0, c0)),
            Ok(b) => if b != all {
                (Ok(b), cs.update(0, c0))
            } else {
                let (r2, rest) = eval_views(cs.subrange(1, cs.len() as int), all, env, rts, now);
                (r2, seq![c0] + rest)
            },
        }
    }
}

impl Condition {
    /// Evaluates the predicate against the world state and the node's
    /// transition flags at time `now`, updating its edge and delay bookkeeping.
    pub fn eval(&mut self, env: &Environment, rts: &RunningTreeState, now: u64) -> (r: Result<
        bool,
        TaskError,
    >)
        ensures
            agrees(r, eval_view(old(self)@, env@, *rts, now).0),
            final(self)@ == eval_view(old(self)@, env@, *rts, now).1,
            r is Err ==> r->Err_0 is IoError,
        decreases *old(self),
    {
        match self {
            Condition::AllwaysTrue(a) => Ok(a.eval(rts, now)),
            Condition::App(a) => match env.app_state().get(&a.key) {
                Some(v) => Ok(*v == a.value),
                None => Ok(false),
            },
            Condition::Gpio(g) => g.eval(env, rts, now),
            Condition::Tree(t) => Ok(rts.moved_in_from_back != t.when_moving_up),
            Condition::Gates(Gates::And(v)) => eval_all(v, true, env, rts, now),
            Condition::Gates(Gates::Or(v)) => eval_all(v, false, env, rts, now),
            Condition::Gates(Gates::Not(b)) => match b.eval(env, rts, now) {
                Ok(x) => Ok(!x),
                Err(e) => Err(e),
            },
        }
    }
}

fn eval_all(
    v: &mut Vec<Condition>,
    all: bool,
    env: &Environment,
    rts: &RunningTreeState,
    now: u64,
) -> (r: Result<bool, TaskError>)
    ensures
        agrees(r, eval_views(cond_views(old(v)@), all, env@, *rts, now).0),
        cond_views(final(v)@) == eval_views(cond_views(old(v)@), all, env@, *rts, now).1,
        r is Err ==> r->Err_0 is IoError,
    decreases *old(v),
{
    let ghost ov = v@;
    let ghost ovs = cond_views(ov);
    let ghost n = ov.len() as int;
    let ghost target = eval_views(ovs, all, env@, *rts, now);
    proof {
        lemma_cond_views(ov);
        assert(ovs.subrange(0, n) =~= ovs);
        assert(cond_views(v@).subrange(0, 0) =~= Seq::<CondView>::empty());
    }
    let mut i: usize = 0;
    while i < v.len()
        invariant
            v@.len() == n,
            0 <= i <= n,
            ovs == cond_views(ov),
            ovs.len() == n,
            forall|j: int| i <= j < n ==> v@[j] == ov[j],
            ov == old(v)@,
            target == eval_views(ovs, all, env@, *rts, now),
            target == ({
                let (r, rest) = eval_views(ovs.subrange(i as int, n), all, env@, *rts, now);
                (r, cond_views(v@).subrange(0, i as int) + rest)
            }),
        decreases n - i,
    {
        let ghost before = v@;
        let ghost s = ovs.subrange(i as int, n);
        proof {
            lemma_cond_views(before);
            lemma_cond_views(ov);
            vstd::std_specs::vec::axiom_vec_index_decreases(*old(v), i as int);
            assert(decreases_to!(*old(v) => v@[i as int]));
            assert(s[0] == ovs[i as int]);
            assert(s.subrange(1, s.len() as int) =~= ovs.subrange(i + 1, n));
        }
        let r = v[i].eval(env, rts, now);
        let ghost c0 = eval_view(s[0], env@, *rts, now).1;
        proof {
            lemma_cond_views(v@);
            assert(v@ == before.update(i as int, v@[i as int]));
            assert(cond_views(v@)[i as int] == c0);
            assert(cond_views(v@).subrange(0, i as int) =~= cond_views(before).subrange(0, i as int));
        }
        match r {
            Err(e) => {
                proof {
                    assert(cond_views(v@) =~= cond_views(before).subrange(0, i as int) + s.update(0, c0));
                }
                return Err(e);
            },
            Ok(b) => {
                if b != all {
                    proof {
                        assert(cond_views(v@) =~= cond_views(before).subrange(0, i as int) + s.update(0, c0));
                    }
                    return Ok(b);
                }
            },
        }
        proof {
            assert(cond_views(v@).subrange(0, i + 1) =~= cond_views(before).subrange(0, i as int) + seq![c0]);
            let (r2, rest) = eval_views(ovs.subrange(i + 1, n), all, env@, *rts, now);
            assert(cond_views(before).subrange(0, i as int) + (seq![c0] + rest) =~= cond_views(v@).subrange(0, i + 1) + rest);
        }
        i += 1;
    }
    proof {
        lemma_cond_views(v@);
        assert(cond_views(v@).subrange(0, n) =~= cond_views(v@));
        assert(ovs.subrange(n, n) =~= Seq::<CondView>::empty());
        assert(cond_views(v@).subrange(0, n) + Seq::<CondView>::empty() =~= cond_views(v@));
    }
    Ok(all)
}

/// A resource that a predicate needs registered in the world state before
/// the scheduler runs.
pub enum AutomaticltInitializable {
    /// An application-state key, seeded with the default of the variant of
    /// the value the predicate compares with.
    AppCondition(String, StateType),
    /// A digital pin, and whether it is an output pin.
    DigitalGpioCondition(u8, bool),
}

/// The mathematical value of an [`AutomaticltInitializable`].
pub enum RequirementView {
    App(Seq<char>, StateValue),
    Pin(u8, bool),
}

impl View for AutomaticltInitializable {
    type V = RequirementView;

    open spec fn view(&self) -> RequirementView {
        match self {
            AutomaticltInitializable::AppCondition(k, v) => RequirementView::App(k@, v@),
            AutomaticltInitializable::DigitalGpioCondition(p, o) => RequirementView::Pin(*p, *o),
        }
    }
}

pub open spec fn requirement_views(r: Seq<AutomaticltInitializable>) -> Seq<RequirementView> {
    r.map_values(|q: AutomaticltInitializable| q@)
}

/// The resources that a predicate needs, in the order of its leaves.
pub open spec fn requirements(c: CondView) -> Seq<RequirementView>
    decreases c,
{
    match c {
        CondView::App(k, v) => seq![RequirementView::App(k, v)],
        CondView::Gpio(g) => seq![RequirementView::Pin(g.pin, g.is_output)],
        CondView::AllwaysTrue(_) => Seq::empty(),
        CondView::Tree(_) => Seq::empty(),
        CondView::And(cs) => requirements_all(cs),
        CondView::Or(cs) => requirements_all(cs),
        CondView::Not(b) => requirements(*b),
    }
}

/// The resources that a list of predicates needs, in order.
pub open spec fn requirements_all(cs: Seq<CondView>) -> Seq<RequirementView>
    decreases cs,
{
    if cs.len() == 0 {
        Seq::empty()
    } else {
        requirements_all(cs.subrange(0, cs.len() - 1)) + requirements(cs[cs.len() - 1])
    }
}

impl Condition {
    /// The resources this predicate needs: the union of those of its parts.
    pub fn as_automaticlt_initializable(&self) -> (r: Vec<AutomaticltInitializable>)
        ensures
            requirement_views(r@) == requirements(self@),
        decreases self,
    {
        match self {
            Condition::App(a) => {
                let r = vec![AutomaticltInitializable::AppCondition(a.key.clone(), a.value.duplicate())];
                assert(requirement_views(r@) =~= requirements(self@));
                r
            },
            Condition::Gpio(g) => {
                let r = vec![AutomaticltInitializable::DigitalGpioCondition(g.pin, g.is_output)];
                assert(requirement_views(r@) =~= requirements(self@));
                r
            },
            Condition::AllwaysTrue(_) => {
                let r = Vec::new();
                assert(requirement_views(r@) =~= requirements(self@));
                r
            },
            Condition::Tree(_) => {
                let r = Vec::new();
                assert(requirement_views(r@) =~= requirements(self@));
                r
            },
            Condition::Gates(Gates::And(v)) => requirements_of_all(self, v),
            Condition::Gates(Gates::Or(v)) => requirements_of_all(self, v),
            Condition::Gates(Gates::Not(b)) => b.as_automaticlt_initializable(),
        }
    }
}

fn requirements_of_all(parent: &Condition, v: &Vec<Condition>) -> (r: Vec<AutomaticltInitializable>)
    requires
        decreases_to!(*parent => *v),
    ensures
        requirement_views(r@) == requirements_all(cond_views(v@)),
    decreases *parent, 0nat,
{
    let ghost cvs = cond_views(v@);
    proof {
        lemma_cond_views(v@);
        assert(cvs.subrange(0, 0) =~= Seq::<CondView>::empty());
    }
    let mut acc: Vec<AutomaticltInitializable> = Vec::new();
    assert(requirement_views(acc@) =~= Seq::<RequirementView>::empty());
    let mut i: usize = 0;
    while i < v.len()
        invariant
            i <= v.len(),
            cvs == cond_views(v@),
            cvs.len() == v.len(),
            forall|j: int| 0 <= j < v.len() ==> cvs[j] == cond_view(v@[j]),
            decreases_to!(*parent => *v),
            requirement_views(acc@) == requirements_all(cvs.subrange(0, i as int)),
        decreases v.len() - i,
    {
        proof {
            vstd::std_specs::vec::axiom_vec_index_decreases(*v, i as int);
        }
        let mut sub = v[i].as_automaticlt_initializable();
        let ghost a0 = acc@;
        let ghost s0 = sub@;
        acc.append(&mut sub);
        proof {
            let p = cvs.subrange(0, i + 1);
            assert(p.subrange(0, p.len() - 1) =~= cvs.subrange(0, i as int));
            assert(p[p.len() - 1] == cond_view(v@[i as int]));
            assert(requirement_views(acc@) =~= requirement_views(a0) + requirement_views(s0));
        }
        i += 1;
    }
    proof {
        assert(cvs.subrange(0, v.len() as int) =~= cvs);
    }
    acc
}

} // verus!
