use vstd::prelude::*;

use crate::conditions::{eval_view, CondView};
use crate::environment::{EnvView, Environment};
use crate::errors::TaskError;
use crate::evaluator::RunningTreeState;
use crate::tasks::{
    lemma_node_views, lemma_node_views_ext, node_view, node_views, ConditionalTypes, NodeView, TaskView,
};
use crate::types::{number_of, StateType, StateValue};

verus! {

/// The names of the actions that run in the background.
pub struct InFlight {
    names: Vec<String>,
}

impl View for InFlight {
    type V = Set<Seq<char>>;

    closed spec fn view(&self) -> Set<Seq<char>> {
        Set::new(|k: Seq<char>| exists|i: int| 0 <= i < self.names.len() && self.names@[i]@ == k)
    }
}

impl InFlight {
    pub fn new() -> (r: InFlight)
        ensures
            r@ == Set::<Seq<char>>::empty(),
    {
        let r = InFlight { names: Vec::new() };
        assert(r@ =~= Set::<Seq<char>>::empty());
        r
    }

    pub fn contains(&self, name: &String) -> (r: bool)
        ensures
            r == self@.contains(name@),
    {
        let mut i: usize = 0;
        while i < self.names.len()
            invariant
                i <= self.names.len(),
                forall|j: int| 0 <= j < i ==> self.names@[j]@ != name@,
            decreases self.names.len() - i,
        {
            if self.names[i].eq(name) {
                return true;
            }
            i += 1;
        }
        false
    }

    pub fn insert(&mut self, name: String)
        ensures
            final(self)@ == old(self)@.insert(name@),
    {
        let ghost k = name@;
        self.names.push(name);
        proof {
            assert forall|q: Seq<char>| #[trigger] self@.contains(q) == old(self)@.insert(k).contains(
                q,
            ) by {
                if old(self)@.contains(q) {
                    let j = choose|j: int| 0 <= j < old(self).names.len() && old(self).names@[j]@ == q;
                    assert(self.names@[j] == old(self).names@[j]);
                }
                if self@.contains(q) && q != k {
                    let j = choose|j: int| 0 <= j < self.names.len() && self.names@[j]@ == q;
                    assert(j < old(self).names.len());
                    assert(self.names@[j] == old(self).names@[j]);
                }
                if q == k {
                    assert(self.names@[self.names.len() - 1]@ == k);
                }
            }
            assert(self@ =~= old(self)@.insert(k));
        }
    }

    pub fn remove(&mut self, name: &String)
        ensures
            final(self)@ == old(self)@.remove(name@),
    {
        let mut kept: Vec<String> = Vec::new();
        let mut i: usize = 0;
        while i < self.names.len()
            invariant
                i <= self.names.len(),
                forall|j: int| 0 <= j < kept.len() ==> kept@[j]@ != name@,
                forall|j: int|
                    0 <= j < kept.len() ==> exists|m: int|
                        0 <= m < i && self.names@[m]@ == (#[trigger] kept@[j])@,
                forall|m: int|
                    0 <= m < i && self.names@[m]@ != name@ ==> exists|j: int|
                        0 <= j < kept.len() && (#[trigger] kept@[j])@ == self.names@[m]@,
            decreases self.names.len() - i,
        {
            let ghost k0 = kept@;
            if !self.names[i].eq(name) {
                kept.push(self.names[i].clone());
                assert(kept@[kept.len() - 1]@ == self.names@[i as int]@);
            }
            proof {
                assert forall|m: int|
                    0 <= m < i + 1 && self.names@[m]@ != name@ implies exists|j: int|
                    0 <= j < kept.len() && (#[trigger] kept@[j])@ == self.names@[m]@ by {
                    if m < i {
                        let j = choose|j: int| 0 <= j < k0.len() && (#[trigger] k0[j])@ == self.names@[m]@;
                        assert(kept@[j] == k0[j]);
                    } else {
                        assert(kept@[kept.len() - 1]@ == self.names@[i as int]@);
                    }
                }
                assert forall|j: int| 0 <= j < kept.len() implies exists|m: int|
                    0 <= m < i + 1 && self.names@[m]@ == (#[trigger] kept@[j])@ by {
                    if j < k0.len() {
                        assert(kept@[j] == k0[j]);
                        let m = choose|m: int| 0 <= m < i && self.names@[m]@ == (#[trigger] k0[j])@;
                        assert(0 <= m < i + 1 && self.names@[m]@ == kept@[j]@);
                    } else {
                        assert(self.names@[i as int]@ == kept@[j]@);
                    }
                }
            }
            i += 1;
        }
        let ghost before = self@;
        self.names = kept;
        proof {
            assert forall|q: Seq<char>| #[trigger] self@.contains(q) == before.remove(name@).contains(q) by {
                if self@.contains(q) {
                    let j = choose|j: int| 0 <= j < self.names.len() && self.names@[j]@ == q;
                    assert(self.names@[j] == kept@[j]);
                }
            }
            assert(self@ =~= before.remove(name@));
        }
    }
}

/// What the evaluation of a node asks of the active path.
#[derive(Clone, Copy, Debug, PartialEq, Eq, Structural)]
pub enum EvalResult {
    /// Keep the active path as it is.
    Stay,
    /// Leave the node: pop it from the active path.
    MoveOut,
    /// Enter the child at this position: push it on the active path.
    MoveTo(usize),
    /// The evaluated node, not active, asks to be entered.
    Enter,
}

/// Work that the dispatcher hands to its caller.
pub enum Effect<A> {
    /// Run the action of the leaf `name` in the background.
    Spawn { name: String, action: Option<A> },
    /// Run the exit action of a context that is left, in place.
    RunExit { name: String, action: Option<A> },
    /// The predicate of `name` could not be evaluated.
    Fault { name: String, error: TaskError },
}

/// The mathematical value of an [`Effect`].
pub enum EffectView<A> {
    Spawn(Seq<char>, Option<A>),
    RunExit(Seq<char>, Option<A>),
    Fault(Seq<char>),
}

impl<A> View for Effect<A> {
    type V = EffectView<A>;

    open spec fn view(&self) -> EffectView<A> {
        match self {
            Effect::Spawn { name, action } => EffectView::Spawn(name@, *action),
            Effect::RunExit { name, action } => EffectView::RunExit(name@, *action),
            Effect::Fault { name, .. } => EffectView::Fault(name@),
        }
    }
}

pub open spec fn effect_views<A>(s: Seq<Effect<A>>) -> Seq<EffectView<A>> {
    s.map_values(|e: Effect<A>| e@)
}

/// What an evaluation reads and changes besides the tree: the world state,
/// the names of the actions in flight, and the work handed out so far.
pub struct EvalState<A> {
    pub env: EnvView,
    pub running: Set<Seq<char>>,
    pub effects: Seq<EffectView<A>>,
}

/// The application-state key under which a node's last execution time is kept.
pub open spec fn executed_key(name: Seq<char>) -> Seq<char> {
    name + "_executed"@
}

/// The execution time stored for `now`, saturated to the range of the stored number.
pub open spec fn stamp_of(now: u64) -> int {
    if now <= i64::MAX {
        now as int
    } else {
        i64::MAX as int
    }
}

/// The last execution time recorded for `name`, zero where none is.
pub open spec fn last_executed(app: Map<Seq<char>, StateValue>, name: Seq<char>) -> int {
    if app.contains_key(executed_key(name)) {
        number_of(app[executed_key(name)])
    } else {
        0
    }
}

/// The re-fire gate: the node's action is in flight, or its least delay
/// since the last execution has not passed.
pub open spec fn gate_blocks<A>(
    n: NodeView<A>,
    app: Map<Seq<char>, StateValue>,
    running: Set<Seq<char>>,
    now: u64,
) -> bool {
    running.contains(n.name()) || now - last_executed(app, n.name()) < n.min_delay()
}

pub open spec fn eval_opt(c: Option<CondView>, env: EnvView, rts: RunningTreeState, now: u64) -> (
    Result<bool, ()>,
    Option<CondView>,
) {
    match c {
        None => (Ok(false), None),
        Some(c) => {
            let (r, c2) = eval_view(c, env, rts, now);
            (r, Some(c2))
        },
    }
}

/// Evaluates the predicate that decides for `n`: the stay predicate of an
/// active context that has one, else the entry predicate; none is `false`.
pub open spec fn eval_predicate<A>(n: NodeView<A>, env: EnvView, rts: RunningTreeState, now: u64) -> (
    Result<bool, ()>,
    NodeView<A>,
) {
    match n {
        NodeView::Task(t) => {
            let (r, c2) = eval_opt(t.cond, env, rts, now);
            (r, NodeView::Task(TaskView { cond: c2, ..t }))
        },
        NodeView::Unit { name, cond, stay, children, on_exit } => if rts.currently_active
            && stay is Some {
            let (r, s2) = eval_opt(stay, env, rts, now);
            (r, NodeView::Unit { name, cond, stay: s2, children, on_exit })
        } else {
            let (r, c2) = eval_opt(cond, env, rts, now);
            (r, NodeView::Unit { name, cond: c2, stay, children, on_exit })
        },
    }
}

/// A leaf fires: its execution time is stamped, its name is in flight, and
/// its action is handed out.
pub open spec fn fired<A>(st: EvalState<A>, t: TaskView<A>, now: u64) -> EvalState<A> {
    EvalState {
        env: EnvView {
            app: st.env.app.insert(executed_key(t.name), StateValue::Int(stamp_of(now))),
            ..st.env
        },
        running: st.running.insert(t.name),
        effects: st.effects.push(EffectView::Spawn(t.name, t.action)),
    }
}

pub open spec fn exited<A>(st: EvalState<A>, on_exit: Option<TaskView<A>>) -> EvalState<A> {
    match on_exit {
        Some(t) => EvalState { effects: st.effects.push(EffectView::RunExit(t.name, t.action)), ..st },
        None => st,
    }
}

/// One evaluation of the node `n` under the flags `rts` at time `now`: what
/// it asks of the active path, the node afterwards, and the state afterwards.
pub open spec fn eval_node<A>(n: NodeView<A>, st: EvalState<A>, rts: RunningTreeState, now: u64) -> (
    EvalResult,
    NodeView<A>,
    EvalState<A>,
)
    decreases n,
{
    if gate_blocks(n, st.env.app, st.running, now) {
        (EvalResult::Stay, n, st)
    } else {
        let (r, n1) = eval_predicate(n, st.env, rts, now);
        match r {
            Err(_) => (
                EvalResult::Stay,
                n1,
                EvalState { effects: st.effects.push(EffectView::Fault(n.name())), ..st },
            ),
            Ok(true) => match n1 {
                NodeView::Task(t) => (EvalResult::Stay, n1, fired(st, t, now)),
                NodeView::Unit { name, cond, stay, children, on_exit } => if !rts.currently_active {
                    (EvalResult::Enter, n1, st)
                } else {
                    let (k, cs2, st2) = eval_children(children, st, rts.for_subtask(), now);
                    (
                        match k {
                            Some(k) => EvalResult::MoveTo(k as usize),
                            None => EvalResult::Stay,
                        },
                        NodeView::Unit { name, cond, stay, children: cs2, on_exit },
                        st2,
                    )
                },
            },
            Ok(false) => match n1 {
                NodeView::Unit { on_exit, .. } => if rts.currently_active {
                    (EvalResult::MoveOut, n1, exited(st, on_exit))
                } else {
                    (EvalResult::Stay, n1, st)
                },
                NodeView::Task(_) => (EvalResult::Stay, n1, st),
            },
        }
    }
}

/// Evaluates the children `cs` in order until one asks to be entered; gives
/// its position, if any, the children afterwards and the state afterwards.
pub open spec fn eval_children<A>(
    cs: Seq<NodeView<A>>,
    st: EvalState<A>,
    rts: RunningTreeState,
    now: u64,
) -> (Option<int>, Seq<NodeView<A>>, EvalState<A>)
    decreases cs,
{
    if cs.len() == 0 {
        (None, cs, st)
    } else {
        let (o, c0, st1) = eval_node(cs[0], st, rts, now);
        if o is Enter {
            (Some(0), cs.update(0, c0), st1)
        } else {
            let (k, rest, st2) = eval_children(cs.subrange(1, cs.len() as int), st1, rts, now);
            (
                match k {
                    Some(k) => Some(k + 1),
                    None => None,
                },
                seq![c0] + rest,
                st2,
            )
        }
    }
}

pub open spec fn st_of<A>(env: EnvView, running: Set<Seq<char>>, effects: Seq<Effect<A>>) -> EvalState<A> {
    EvalState { env, running, effects: effect_views(effects) }
}

pub open spec fn opt_int(k: Option<usize>) -> Option<int> {
    match k {
        Some(k) => Some(k as int),
        None => None,
    }
}

fn push_effect<A>(effects: &mut Vec<Effect<A>>, e: Effect<A>)
    ensures
        effect_views(final(effects)@) == effect_views(old(effects)@).push(e@),
{
    let ghost ev = e@;
    effects.push(e);
    assert(effect_views(effects@) =~= effect_views(old(effects)@).push(ev));
}

/// Evaluates the predicate that decides for `node`.
fn evaluate_predicate<A>(
    node: &mut ConditionalTypes<A>,
    env: &Environment,
    rts: &RunningTreeState,
    now: u64,
) -> (r: Result<bool, TaskError>)
    ensures
        crate::conditions::agrees(r, eval_predicate(old(node)@, env@, *rts, now).0),
        final(node)@ == eval_predicate(old(node)@, env@, *rts, now).1,
        *old(node) is TaskContext ==> *final(node) is TaskContext
            && final(node)->TaskContext_0.subunits == old(node)->TaskContext_0.subunits,
{
    match node {
        ConditionalTypes::Task(t) => match &mut t.conditions {
            Some(c) => c.eval(env, rts, now),
            None => Ok(false),
        },
        ConditionalTypes::TaskContext(u) => {
            if rts.currently_active && u.stay_condition.is_some() {
                match &mut u.stay_condition {
                    Some(c) => c.eval(env, rts, now),
                    None => Ok(false),
                }
            } else {
                match &mut u.condition {
                    Some(c) => c.eval(env, rts, now),
                    None => Ok(false),
                }
            }
        },
    }
}

/// One evaluation of `node`: the re-fire gate, its predicate, and then
/// running a leaf, entering or walking a context, or leaving it.
pub fn evaluate<A: Copy>(
    node: &mut ConditionalTypes<A>,
    env: &mut Environment,
    running: &mut InFlight,
    effects: &mut Vec<Effect<A>>,
    rts: &RunningTreeState,
    now: u64,
) -> (o: EvalResult)
    ensures
        eval_node(old(node)@, st_of(old(env)@, old(running)@, old(effects)@), *rts, now) == (
            o,
            final(node)@,
            st_of(final(env)@, final(running)@, final(effects)@),
        ),
        o matches EvalResult::MoveTo(k) ==> *final(node) is TaskContext && k
            < final(node)->TaskContext_0.subunits@.len() && node_views(
            final(node)->TaskContext_0.subunits@,
        )[k as int] is Unit,
        o is Enter ==> final(node)@ is Unit,
    decreases *old(node),
{
    let name = node.get_name().clone();
    if running.contains(&name) {
        return EvalResult::Stay;
    }
    let key = name.clone().concat("_executed");
    let last: i64 = match env.app_state().get(&key) {
        Some(v) => v.as_int(),
        None => 0,
    };
    if (now as i128) - (last as i128) < (node.min_delay_between_exec() as i128) {
        return EvalResult::Stay;
    }
    let r = evaluate_predicate(node, env, rts, now);
    match r {
        Err(error) => {
            push_effect(effects, Effect::Fault { name, error });
            EvalResult::Stay
        },
        Ok(true) => match node {
            ConditionalTypes::Task(t) => {
                let stamp: i64 = if now <= i64::MAX as u64 {
                    now as i64
                } else {
                    i64::MAX
                };
                env.set_state(key, StateType::Int(stamp));
                running.insert(name.clone());
                push_effect(effects, Effect::Spawn { name, action: t.action });
                EvalResult::Stay
            },
            ConditionalTypes::TaskContext(u) => {
                if !rts.currently_active {
                    EvalResult::Enter
                } else {
                    let sub = rts.get_running_tree_for_subtask();
                    assert(decreases_to!(*old(node) => old(node)->TaskContext_0.subunits));
                    let k = evaluate_children(&mut u.subunits, env, running, effects, &sub, now);
                    match k {
                        Some(k) => EvalResult::MoveTo(k),
                        None => EvalResult::Stay,
                    }
                }
            },
        },
        Ok(false) => match node {
            ConditionalTypes::TaskContext(u) => {
                if rts.currently_active {
                    if let Some(t) = &u.on_exit {
                        push_effect(effects, Effect::RunExit { name: t.name.clone(), action: t.action });
                    }
                    EvalResult::MoveOut
                } else {
                    EvalResult::Stay
                }
            },
            ConditionalTypes::Task(_) => EvalResult::Stay,
        },
    }
}

/// Evaluates the children of an active context in order, and gives the
/// position of the first that asks to be entered.
fn evaluate_children<A: Copy>(
    v: &mut Vec<ConditionalTypes<A>>,
    env: &mut Environment,
    running: &mut InFlight,
    effects: &mut Vec<Effect<A>>,
    rts: &RunningTreeState,
    now: u64,
) -> (r: Option<usize>)
    ensures
        eval_children(node_views(old(v)@), st_of(old(env)@, old(running)@, old(effects)@), *rts, now)
            == (opt_int(r), node_views(final(v)@), st_of(final(env)@, final(running)@, final(effects)@)),
        r matches Some(k) ==> k < final(v)@.len() && node_views(final(v)@)[k as int] is Unit,
        final(v)@.len() == old(v)@.len(),
    decreases *old(v),
{
    let ghost ov = v@;
    let ghost ovs = node_views(ov);
    let ghost n = ov.len() as int;
    let ghost target = eval_children(ovs, st_of(env@, running@, effects@), *rts, now);
    proof {
        lemma_node_views(ov);
        assert(ovs.subrange(0, n) =~= ovs);
        assert(node_views(v@).subrange(0, 0) + ovs =~= ovs);
    }
    let mut i: usize = 0;
    while i < v.len()
        invariant
            v@.len() == n,
            0 <= i <= n,
            ov == old(v)@,
            ovs == node_views(ov),
            ovs.len() == n,
            forall|j: int| i <= j < n ==> v@[j] == ov[j],
            target == eval_children(ovs, st_of(old(env)@, old(running)@, old(effects)@), *rts, now),
            target == ({
                let (k, rest, st2) = eval_children(
                    ovs.subrange(i as int, n),
                    st_of(env@, running@, effects@),
                    *rts,
                    now,
                );
                (
                    match k {
                        Some(k) => Some(k + i),
                        None => None,
                    },
                    node_views(v@).subrange(0, i as int) + rest,
                    st2,
                )
            }),
        decreases n - i,
    {
        let ghost before = v@;
        let ghost s = ovs.subrange(i as int, n);
        let ghost st1 = st_of(env@, running@, effects@);
        proof {
            lemma_node_views(before);
            lemma_node_views(ov);
            vstd::std_specs::vec::axiom_vec_index_decreases(*old(v), i as int);
            assert(decreases_to!(*old(v) => v@[i as int]));
            assert(s[0] == ovs[i as int]);
            assert(s.subrange(1, s.len() as int) =~= ovs.subrange(i + 1, n));
        }
        let o = evaluate(&mut v[i], env, running, effects, rts, now);
        let ghost c0 = eval_node(s[0], st1, *rts, now).1;
        proof {
            lemma_node_views(v@);
            assert(v@ == before.update(i as int, v@[i as int]));
            assert(node_views(v@)[i as int] == c0);
            assert(node_views(v@).subrange(0, i as int) =~= node_views(before).subrange(0, i as int));
        }
        if matches!(o, EvalResult::Enter) {
            proof {
                assert(node_views(v@) =~= node_views(before).subrange(0, i as int) + s.update(0, c0));
            }
            return Some(i);
        }
        proof {
            assert(node_views(v@).subrange(0, i + 1) =~= node_views(before).subrange(0, i as int) + seq![c0]);
            let (k2, rest, st2) = eval_children(ovs.subrange(i + 1, n), st_of(env@, running@, effects@), *rts, now);
            assert(node_views(before).subrange(0, i as int) + (seq![c0] + rest) =~= node_views(v@).subrange(0, i + 1) + rest);
        }
        i += 1;
    }
    proof {
        lemma_node_views(v@);
        assert(node_views(v@).subrange(0, n) =~= node_views(v@));
        assert(ovs.subrange(n, n) =~= Seq::<NodeView<A>>::empty());
        assert(node_views(v@).subrange(0, n) + Seq::<NodeView<A>>::empty() =~= node_views(v@));
    }
    None
}

/// The path `p` of child positions leads from `n` through contexts.
pub open spec fn valid_path<A>(n: NodeView<A>, p: Seq<usize>) -> bool
    decreases p.len(),
{
    if p.len() == 0 {
        true
    } else {
        match n {
            NodeView::Unit { children, .. } => p[0] < children.len() && valid_path(
                children[p[0] as int],
                p.subrange(1, p.len() as int),
            ),
            NodeView::Task(_) => false,
        }
    }
}

/// The node that the path `p` leads to from `n`.
pub open spec fn node_at<A>(n: NodeView<A>, p: Seq<usize>) -> NodeView<A>
    decreases p.len(),
{
    if p.len() == 0 {
        n
    } else {
        match n {
            NodeView::Unit { children, .. } => node_at(
                children[p[0] as int],
                p.subrange(1, p.len() as int),
            ),
            NodeView::Task(_) => n,
        }
    }
}

/// `n` with the node that `p` leads to replaced by `m`.
pub open spec fn replace_at<A>(n: NodeView<A>, p: Seq<usize>, m: NodeView<A>) -> NodeView<A>
    decreases p.len(),
{
    if p.len() == 0 {
        m
    } else {
        match n {
            NodeView::Unit { name, cond, stay, children, on_exit } => NodeView::Unit {
                name,
                cond,
                stay,
                children: children.update(
                    p[0] as int,
                    replace_at(children[p[0] as int], p.subrange(1, p.len() as int), m),
                ),
                on_exit,
            },
            NodeView::Task(_) => n,
        }
    }
}

pub proof fn lemma_replace_at<A>(n: NodeView<A>, p: Seq<usize>, m: NodeView<A>)
    requires
        valid_path(n, p),
    ensures
        valid_path(replace_at(n, p, m), p),
        node_at(replace_at(n, p, m), p) == m,
    decreases p.len(),
{
    if p.len() > 0 {
        if let NodeView::Unit { children, .. } = n {
            lemma_replace_at(children[p[0] as int], p.subrange(1, p.len() as int), m);
        }
    }
}

pub proof fn lemma_path_prefix<A>(n: NodeView<A>, p: Seq<usize>)
    requires
        valid_path(n, p),
        p.len() > 0,
    ensures
        valid_path(n, p.drop_last()),
    decreases p.len(),
{
    if p.len() > 1 {
        if let NodeView::Unit { children, .. } = n {
            let rest = p.subrange(1, p.len() as int);
            lemma_path_prefix(children[p[0] as int], rest);
            assert(p.drop_last().subrange(1, p.len() as int - 1) =~= rest.drop_last());
        }
    }
}

pub proof fn lemma_path_extend<A>(n: NodeView<A>, p: Seq<usize>, k: usize)
    requires
        valid_path(n, p),
        node_at(n, p) matches NodeView::Unit { children, .. } && k < children.len(),
    ensures
        valid_path(n, p.push(k)),
    decreases p.len(),
{
    if p.len() > 0 {
        if let NodeView::Unit { children, .. } = n {
            let rest = p.subrange(1, p.len() as int);
            lemma_path_extend(children[p[0] as int], rest, k);
            assert(p.push(k).subrange(1, p.len() as int + 1) =~= rest.push(k));
            assert(p.push(k)[0] == p[0]);
        }
    } else {
        assert(p.push(k).subrange(1, 1) =~= Seq::<usize>::empty());
        if let NodeView::Unit { children, .. } = n {
            assert(valid_path(children[k as int], Seq::<usize>::empty()));
            assert(p.push(k)[0] == k);
        }
    }
}

/// An evaluation keeps a node a context or a leaf.
pub proof fn lemma_eval_node_variant<A>(n: NodeView<A>, st: EvalState<A>, rts: RunningTreeState, now: u64)
    ensures
        eval_node(n, st, rts, now).1 is Unit <==> n is Unit,
{
}

/// The nodes a valid path passes through are contexts.
pub proof fn lemma_path_parent_unit<A>(n: NodeView<A>, p: Seq<usize>)
    requires
        valid_path(n, p),
        p.len() > 0,
    ensures
        node_at(n, p.drop_last()) is Unit,
    decreases p.len(),
{
    if p.len() > 1 {
        if let NodeView::Unit { children, .. } = n {
            let rest = p.subrange(1, p.len() as int);
            lemma_path_parent_unit(children[p[0] as int], rest);
            assert(p.drop_last().subrange(1, p.len() as int - 1) =~= rest.drop_last());
            assert(p.drop_last()[0] == p[0]);
        }
    } else {
        assert(p.drop_last() =~= Seq::<usize>::empty());
    }
}

pub proof fn lemma_node_at_push<A>(n: NodeView<A>, p: Seq<usize>, k: usize)
    requires
        valid_path(n, p),
        node_at(n, p) matches NodeView::Unit { children, .. } && k < children.len(),
    ensures
        node_at(n, p.push(k)) == node_at(n, p)->children[k as int],
    decreases p.len(),
{
    if p.len() > 0 {
        if let NodeView::Unit { children, .. } = n {
            let rest = p.subrange(1, p.len() as int);
            lemma_node_at_push(children[p[0] as int], rest, k);
            assert(p.push(k).subrange(1, p.len() as int + 1) =~= rest.push(k));
            assert(p.push(k)[0] == p[0]);
        }
    } else {
        assert(p.push(k).subrange(1, 1) =~= Seq::<usize>::empty());
        assert(p.push(k)[0] == k);
        if let NodeView::Unit { children, .. } = n {
            assert(node_at(children[k as int], Seq::<usize>::empty()) == children[k as int]);
            assert(node_at(n, p.push(k)) == node_at(children[k as int], p.push(k).subrange(1, 1)));
        }
    }
}

/// Walks the active path from `node` down and evaluates the node it leads to.
fn step_at<A: Copy>(
    node: &mut ConditionalTypes<A>,
    path: &Vec<usize>,
    depth: usize,
    env: &mut Environment,
    running: &mut InFlight,
    effects: &mut Vec<Effect<A>>,
    rts: &RunningTreeState,
    now: u64,
) -> (o: EvalResult)
    requires
        depth <= path.len(),
        valid_path(old(node)@, path@.subrange(depth as int, path.len() as int)),
    ensures
        ({
            let sub = path@.subrange(depth as int, path.len() as int);
            let (o2, n2, st2) = eval_node(
                node_at(old(node)@, sub),
                st_of(old(env)@, old(running)@, old(effects)@),
                *rts,
                now,
            );
            o == o2 && final(node)@ == replace_at(old(node)@, sub, n2) && st_of(
                final(env)@,
                final(running)@,
                final(effects)@,
            ) == st2
        }),
        o matches EvalResult::MoveTo(k) ==> node_at(
            final(node)@,
            path@.subrange(depth as int, path.len() as int),
        ) matches NodeView::Unit { children, .. } && k < children.len() && children[k as int] is Unit,
    decreases path.len() - depth,
{
    let ghost sub = path@.subrange(depth as int, path.len() as int);
    if depth == path.len() {
        let o = evaluate(node, env, running, effects, rts, now);
        proof {
            if *node is TaskContext {
                lemma_node_views(node->TaskContext_0.subunits@);
            }
        }
        return o;
    }
    match node {
        ConditionalTypes::TaskContext(u) => {
            let k = path[depth];
            proof {
                lemma_node_views(u.subunits@);
                assert(sub.subrange(1, sub.len() as int) =~= path@.subrange(
                    depth + 1,
                    path.len() as int,
                ));
            }
            let ghost before = u.subunits@;
            let o = step_at(&mut u.subunits[k], path, depth + 1, env, running, effects, rts, now);
            proof {
                lemma_node_views(before);
                lemma_node_views_ext(
                    u.subunits@,
                    node_views(before).update(k as int, node_view(u.subunits@[k as int])),
                );
            }
            o
        },
        ConditionalTypes::Task(_) => {
            proof {
                assert(false);
            }
            EvalResult::Stay
        },
    }
}

/// The name of the node that the rest of `path` from `depth` leads to.
fn name_at<'a, A>(node: &'a ConditionalTypes<A>, path: &Vec<usize>, depth: usize) -> (r: &'a String)
    requires
        depth <= path.len(),
        valid_path(node@, path@.subrange(depth as int, path.len() as int)),
    ensures
        r@ == node_at(node@, path@.subrange(depth as int, path.len() as int)).name(),
    decreases path.len() - depth,
{
    if depth == path.len() {
        return node.get_name();
    }
    match node {
        ConditionalTypes::TaskContext(u) => {
            let ghost sub = path@.subrange(depth as int, path.len() as int);
            proof {
                lemma_node_views(u.subunits@);
                assert(sub.subrange(1, sub.len() as int) =~= path@.subrange(depth + 1, path.len() as int));
            }
            name_at(&u.subunits[path[depth]], path, depth + 1)
        },
        ConditionalTypes::Task(t) => {
            proof {
                assert(false);
            }
            &t.name
        },
    }
}

/// The mathematical value of one task tree under the dispatcher: the tree,
/// the active path below its root, and the flags of the active node.
pub struct TreeView<A> {
    pub root: NodeView<A>,
    pub path: Seq<usize>,
    pub state: RunningTreeState,
}

/// One step of the dispatcher on a tree: evaluate the top of the active path
/// and apply what it asks. Staying clears both transition flags, so a node
/// is marked as entered, from above or from below, for one step only; leaving
/// pops the path and marks the new top as entered from below; entering a
/// child pushes it and marks it as entered from above.
pub open spec fn step_tree<A>(t: TreeView<A>, env: EnvView, running: Set<Seq<char>>, now: u64) -> (
    EvalResult,
    TreeView<A>,
    EvalState<A>,
) {
    let st = EvalState { env, running, effects: Seq::empty() };
    let (o, n2, st2) = eval_node(node_at(t.root, t.path), st, t.state, now);
    let root = replace_at(t.root, t.path, n2);
    match o {
        EvalResult::MoveOut => (
            EvalResult::MoveOut,
            TreeView {
                root,
                path: if t.path.len() > 0 {
                    t.path.drop_last()
                } else {
                    t.path
                },
                state: RunningTreeState {
                    moved_in_from_back: true,
                    first_iteration_after_move: true,
                    ..t.state
                },
            },
            st2,
        ),
        EvalResult::MoveTo(k) => (
            o,
            TreeView {
                root,
                path: t.path.push(k),
                state: RunningTreeState {
                    moved_in_from_back: false,
                    first_iteration_after_move: true,
                    ..t.state
                },
            },
            st2,
        ),
        _ => (
            EvalResult::Stay,
            TreeView {
                root,
                path: t.path,
                state: RunningTreeState {
                    moved_in_from_back: false,
                    first_iteration_after_move: false,
                    ..t.state
                },
            },
            st2,
        ),
    }
}

/// One tick on a tree: steps until one stays, at most `fuel` of them. Gives
/// the transitions in order, the tree afterwards, and the state afterwards
/// with the work of all steps in order.
pub open spec fn tick_spec<A>(
    t: TreeView<A>,
    env: EnvView,
    running: Set<Seq<char>>,
    now: u64,
    fuel: nat,
) -> (Seq<EvalResult>, TreeView<A>, EvalState<A>)
    decreases fuel,
{
    if fuel == 0 {
        (Seq::empty(), t, EvalState { env, running, effects: Seq::empty() })
    } else {
        let (o, t1, st1) = step_tree(t, env, running, now);
        if o is Stay {
            (seq![o], t1, st1)
        } else {
            let (os, t2, st2) = tick_spec(t1, st1.env, st1.running, now, (fuel - 1) as nat);
            (seq![o] + os, t2, EvalState { effects: st1.effects + st2.effects, ..st2 })
        }
    }
}

/// What one tick of the dispatcher yields: the transitions applied, in order,
/// and the work for the caller, in order.
pub struct TickOutcome<A> {
    pub transitions: Vec<EvalResult>,
    pub effects: Vec<Effect<A>>,
}

/// A task tree under the dispatcher.
pub struct ActiveTree<A> {
    root: ConditionalTypes<A>,
    path: Vec<usize>,
    state: RunningTreeState,
}

impl<A> View for ActiveTree<A> {
    type V = TreeView<A>;

    closed spec fn view(&self) -> TreeView<A> {
        TreeView { root: self.root@, path: self.path@, state: self.state }
    }
}

/// The mathematical value of a [`Dispatcher`].
pub struct DispatcherView<A> {
    pub trees: Seq<TreeView<A>>,
    pub running: Set<Seq<char>>,
}

/// The scheduler: a set of task trees, each with its active path, and the
/// names of the actions in flight.
pub struct Dispatcher<A> {
    trees: Vec<ActiveTree<A>>,
    running: InFlight,
}

impl<A> View for Dispatcher<A> {
    type V = DispatcherView<A>;

    closed spec fn view(&self) -> DispatcherView<A> {
        DispatcherView { trees: self.trees@.map_values(|t: ActiveTree<A>| t@), running: self.running@ }
    }
}

/// A tree at rest: its active path leads through contexts to a context, or
/// is empty, and its top is active.
pub open spec fn tree_ok<A>(t: TreeView<A>) -> bool {
    &&& valid_path(t.root, t.path)
    &&& t.state.currently_active
    &&& (t.path.len() > 0 ==> node_at(t.root, t.path) is Unit)
}

/// What one step of the dispatcher yields: the transition it applied and the
/// work for the caller, in order.
pub struct StepOutcome<A> {
    pub transition: EvalResult,
    pub effects: Vec<Effect<A>>,
}

impl<A> Dispatcher<A> {
    #[verifier::type_invariant]
    spec fn trees_ok(&self) -> bool {
        forall|i: int| 0 <= i < self.trees.len() ==> tree_ok(#[trigger] self.trees@[i]@)
    }
}

impl<A: Copy> Dispatcher<A> {

    /// A dispatcher over `roots`, each with the root alone on its active
    /// path, freshly entered, and no action in flight.
    pub fn new(roots: Vec<ConditionalTypes<A>>) -> (r: Dispatcher<A>)
        ensures
            r@.running == Set::<Seq<char>>::empty(),
            forall|i: int| 0 <= i < r@.trees.len() ==> tree_ok(#[trigger] r@.trees[i]),
            r@.trees.len() == roots@.len(),
            forall|i: int|
                0 <= i < roots@.len() ==> #[trigger] r@.trees[i] == (TreeView {
                    root: roots@[i]@,
                    path: Seq::empty(),
                    state: RunningTreeState {
                        moved_in_from_back: false,
                        first_iteration_after_move: true,
                        currently_active: true,
                    },
                }),
    {
        let mut roots = roots;
        let ghost all = roots@;
        let mut trees: Vec<ActiveTree<A>> = Vec::new();
        while roots.len() > 0
            invariant
                trees.len() + roots.len() == all.len(),
                roots@ == all.subrange(trees.len() as int, all.len() as int),
                forall|i: int|
                    0 <= i < trees.len() ==> (#[trigger] trees@[i])@ == (TreeView {
                        root: all[i]@,
                        path: Seq::empty(),
                        state: RunningTreeState {
                            moved_in_from_back: false,
                            first_iteration_after_move: true,
                            currently_active: true,
                        },
                    }),
            decreases roots.len(),
        {
            let root = roots.remove(0);
            let path: Vec<usize> = Vec::new();
            let t = ActiveTree { root, path, state: RunningTreeState::new() };
            assert(t@.path =~= Seq::<usize>::empty());
            trees.push(t);
            assert(roots@ =~= all.subrange(trees.len() as int, all.len() as int));
        }
        let r = Dispatcher { trees, running: InFlight::new() };
        proof {
            assert forall|i: int| 0 <= i < r@.trees.len() implies tree_ok(#[trigger] r@.trees[i]) by {
                assert(r@.trees[i] == r.trees@[i]@);
            }
        }
        r
    }

    /// The number of trees.
    pub fn len(&self) -> (r: usize)
        ensures
            r == self@.trees.len(),
    {
        self.trees.len()
    }

    /// One step on the tree at position `tree`, if there is one: evaluate the
    /// top of its active path against `env` at time `now`, apply the
    /// transition, and hand back the work for the caller. A caller repeats
    /// steps on a tree until one yields [`EvalResult::Stay`].
    pub fn step(&mut self, tree: usize, env: &mut Environment, now: u64) -> (r: Option<StepOutcome<A>>)
        ensures
            forall|i: int| 0 <= i < final(self)@.trees.len() ==> tree_ok(#[trigger] final(self)@.trees[i]),
            tree >= old(self)@.trees.len() ==> r is None && *final(self) == *old(self) && *final(env)
                == *old(env),
            tree < old(self)@.trees.len() ==> (r matches Some(out) && ({
                let (o, t2, st2) = step_tree(
                    old(self)@.trees[tree as int],
                    old(env)@,
                    old(self)@.running,
                    now,
                );
                &&& out.transition == o
                &&& effect_views(out.effects@) == st2.effects
                &&& final(env)@ == st2.env
                &&& final(self)@ == DispatcherView {
                    trees: old(self)@.trees.update(tree as int, t2),
                    running: st2.running,
                }
            })),
    {
        proof {
            use_type_invariant(&*self);
            assert forall|i: int| 0 <= i < self@.trees.len() implies tree_ok(#[trigger] self@.trees[i]) by {
                assert(self@.trees[i] == self.trees@[i]@);
            }
        }
        if tree >= self.trees.len() {
            return None;
        }
        let ghost old_view = self@;
        let mut trees: Vec<ActiveTree<A>> = Vec::new();
        std::mem::swap(&mut trees, &mut self.trees);
        let mut running = InFlight::new();
        std::mem::swap(&mut running, &mut self.running);
        let ghost t0 = trees@[tree as int]@;
        assert(t0 == old_view.trees[tree as int]);
        assert(tree_ok(t0));
        let mut effects: Vec<Effect<A>> = Vec::new();
        assert(effect_views(effects@) =~= Seq::<EffectView<A>>::empty());
        let t = &mut trees[tree];
        assert(t.path@.subrange(0, t.path.len() as int) =~= t.path@);
        let ghost root0 = t.root@;
        let state = t.state;
        let o = step_at(&mut t.root, &t.path, 0, env, &mut running, &mut effects, &state, now);
        let ghost n2 = eval_node(node_at(root0, t.path@), st_of(old(env)@, old_view.running, Seq::empty()), state, now).1;
        proof {
            lemma_replace_at(root0, t.path@, n2);
        }
        match o {
            EvalResult::MoveOut => {
                proof {
                    if t.path@.len() > 0 {
                        lemma_path_prefix(t.root@, t.path@);
                        lemma_path_parent_unit(t.root@, t.path@);
                    }
                }
                t.path.pop();
                t.state.moved_in_from_back = true;
                t.state.first_iteration_after_move = true;
            },
            EvalResult::MoveTo(k) => {
                proof {
                    lemma_path_extend(t.root@, t.path@, k);
                    lemma_node_at_push(t.root@, t.path@, k);
                }
                t.path.push(k);
                t.state.moved_in_from_back = false;
                t.state.first_iteration_after_move = true;
            },
            _ => {
                proof {
                    lemma_eval_node_variant(
                        node_at(root0, t.path@),
                        st_of(old(env)@, old_view.running, Seq::empty()),
                        state,
                        now,
                    );
                }
                t.state.moved_in_from_back = false;
                t.state.first_iteration_after_move = false;
            },
        }
        let ghost t2 = trees@[tree as int]@;
        proof {
            assert(tree_ok(t2));
            assert forall|i: int| 0 <= i < trees.len() implies tree_ok(#[trigger] trees@[i]@) by {
                if i != tree {
                    assert(trees@[i]@ == old_view.trees[i]);
                }
            }
        }
        self.trees = trees;
        self.running = running;
        proof {
            assert(self@.trees =~= old_view.trees.update(tree as int, t2));
            assert forall|i: int| 0 <= i < self@.trees.len() implies tree_ok(#[trigger] self@.trees[i]) by {
                assert(self@.trees[i] == self.trees@[i]@);
            }
        }
        Some(StepOutcome { transition: o, effects })
    }

    /// One tick on the tree at position `tree`, if there is one: steps until
    /// one stays, so that several levels are entered or left within the tick,
    /// and at most `max_steps` steps. Exit actions handed out by the tick are
    /// for the caller to run before the next tick.
    pub fn tick(&mut self, tree: usize, env: &mut Environment, now: u64, max_steps: usize) -> (r: Option<
        TickOutcome<A>,
    >)
        ensures
            forall|i: int| 0 <= i < final(self)@.trees.len() ==> tree_ok(#[trigger] final(self)@.trees[i]),
            tree >= old(self)@.trees.len() ==> r is None && *final(self) == *old(self) && *final(env)
                == *old(env),
            tree < old(self)@.trees.len() ==> (r matches Some(out) && ({
                let (os, t2, st2) = tick_spec(
                    old(self)@.trees[tree as int],
                    old(env)@,
                    old(self)@.running,
                    now,
                    max_steps as nat,
                );
                &&& out.transitions@ == os
                &&& effect_views(out.effects@) == st2.effects
                &&& final(env)@ == st2.env
                &&& final(self)@ == DispatcherView {
                    trees: old(self)@.trees.update(tree as int, t2),
                    running: st2.running,
                }
            })),
    {
        proof {
            use_type_invariant(&*self);
            assert forall|i: int| 0 <= i < self@.trees.len() implies tree_ok(#[trigger] self@.trees[i]) by {
                assert(self@.trees[i] == self.trees@[i]@);
            }
        }
        if tree >= self.trees.len() {
            return None;
        }
        let ghost target = tick_spec(self@.trees[tree as int], env@, self@.running, now, max_steps as nat);
        let ghost trees0 = self@.trees;
        let mut transitions: Vec<EvalResult> = Vec::new();
        let mut effects: Vec<Effect<A>> = Vec::new();
        let mut done = false;
        let mut i: usize = 0;
        proof {
            assert(transitions@ + target.0 =~= target.0);
            assert(effect_views(effects@) + target.2.effects =~= target.2.effects);
        }
        while i < max_steps && !done
            invariant
                i <= max_steps,
                tree < self@.trees.len(),
                self@.trees.len() == trees0.len(),
                forall|j: int| 0 <= j < self@.trees.len() ==> tree_ok(#[trigger] self@.trees[j]),
                forall|j: int| 0 <= j < trees0.len() && j != tree ==> self@.trees[j] == trees0[j],
                done ==> target == (
                    transitions@,
                    self@.trees[tree as int],
                    EvalState { env: env@, running: self@.running, effects: effect_views(effects@) },
                ),
                !done ==> ({
                    let (os, t2, st2) = tick_spec(
                        self@.trees[tree as int],
                        env@,
                        self@.running,
                        now,
                        (max_steps - i) as nat,
                    );
                    target == (
                        transitions@ + os,
                        t2,
                        EvalState { effects: effect_views(effects@) + st2.effects, ..st2 },
                    )
                }),
            decreases max_steps - i,
        {
            let ghost e0 = effect_views(effects@);
            let ghost tr0 = transitions@;
            let ghost cur = self@.trees[tree as int];
            let ghost (o1, t1, st1) = step_tree(cur, env@, self@.running, now);
            let ghost fuel = (max_steps - i) as nat;
            let out = self.step(tree, env, now);
            let StepOutcome { transition, effects: mut more } = match out {
                Some(o) => o,
                None => {
                    proof {
                        assert(false);
                    }
                    return None;
                },
            };
            let ghost m = effect_views(more@);
            transitions.push(transition);
            let ghost prev = effects@;
            effects.append(&mut more);
            proof {
                assert(effect_views(effects@) =~= e0 + m);
                assert(self@.trees[tree as int] == t1);
            }
            if matches!(transition, EvalResult::Stay) {
                done = true;
                proof {
                    assert(o1 is Stay);
                    assert(transitions@ =~= tr0 + seq![o1]);
                    assert(st1.effects == m);
                }
            } else {
                proof {
                    let (os, t2, st2) = tick_spec(t1, st1.env, st1.running, now, (fuel - 1) as nat);
                    assert(transitions@ + os =~= tr0 + (seq![o1] + os));
                    assert(effect_views(effects@) + st2.effects =~= e0 + (m + st2.effects));
                }
            }
            i += 1;
        }
        proof {
            if !done {
                assert(transitions@ + Seq::<EvalResult>::empty() =~= transitions@);
                assert(effect_views(effects@) + Seq::<EffectView<A>>::empty() =~= effect_views(effects@));
            }
            assert(self@.trees =~= trees0.update(tree as int, self@.trees[tree as int]));
        }
        Some(TickOutcome { transitions, effects })
    }

    /// Records that the background action of `name` has finished, so that
    /// the name is eligible again.
    pub fn action_finished(&mut self, name: &String)
        ensures
            final(self)@ == (DispatcherView { running: old(self)@.running.remove(name@), ..old(self)@ }),
    {
        proof {
            use_type_invariant(&*self);
        }
        let mut running = InFlight::new();
        std::mem::swap(&mut running, &mut self.running);
        running.remove(name);
        self.running = running;
    }

    /// The active path of the tree at position `tree`, as child positions
    /// below its root.
    pub fn active_path(&self, tree: usize) -> (r: Option<Vec<usize>>)
        ensures
            tree < self@.trees.len() ==> (r matches Some(p) && p@ == self@.trees[tree as int].path),
            tree >= self@.trees.len() ==> r is None,
    {
        if tree >= self.trees.len() {
            return None;
        }
        let path = &self.trees[tree].path;
        let mut r: Vec<usize> = Vec::new();
        let mut i: usize = 0;
        while i < path.len()
            invariant
                i <= path.len(),
                r@ == path@.subrange(0, i as int),
            decreases path.len() - i,
        {
            r.push(path[i]);
            assert(r@ =~= path@.subrange(0, i + 1));
            i += 1;
        }
        assert(r@ =~= path@);
        Some(r)
    }

    /// The name of the active node of the tree at position `tree`.
    pub fn active_name(&self, tree: usize) -> (r: Option<String>)
        ensures
            tree < self@.trees.len() ==> (r matches Some(n) && n@ == node_at(
                self@.trees[tree as int].root,
                self@.trees[tree as int].path,
            ).name()),
            tree >= self@.trees.len() ==> r is None,
    {
        proof {
            use_type_invariant(self);
        }
        if tree >= self.trees.len() {
            return None;
        }
        let t = &self.trees[tree];
        assert(tree_ok(t@));
        assert(t.path@.subrange(0, t.path.len() as int) =~= t.path@);
        Some(name_at(&t.root, &t.path, 0).clone())
    }

    /// The flags of the active node of the tree at position `tree`.
    pub fn tree_state(&self, tree: usize) -> (r: Option<RunningTreeState>)
        ensures
            tree < self@.trees.len() ==> r == Some(self@.trees[tree as int].state),
            tree >= self@.trees.len() ==> r is None,
    {
        if tree >= self.trees.len() {
            return None;
        }
        Some(self.trees[tree].state)
    }

    /// Whether an action of `name` is in flight.
    pub fn is_running(&self, name: &String) -> (r: bool)
        ensures
            r == self@.running.contains(name@),
    {
        self.running.contains(name)
    }
}

} // verus!
