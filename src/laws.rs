use vstd::prelude::*;

use crate::conditions::{eval_view, eval_views, AllwaysTrue, CondView, DigitalGpioCondition};
use crate::dispatcher::{
    lemma_eval_node_variant, lemma_node_at_push, lemma_path_extend, lemma_path_parent_unit,
    lemma_path_prefix, lemma_replace_at,
    eval_children, eval_node, eval_predicate, executed_key, gate_blocks, last_executed, node_at,
    replace_at, step_tree, tick_spec, tree_ok, valid_path, EffectView, EvalResult, EvalState,
    TreeView,
};
use crate::environment::EnvView;
use crate::evaluator::RunningTreeState;
use crate::tasks::{lemma_node_views, node_view, node_views, ConditionalTypes, NodeView};
use crate::types::StateValue;

verus! {

/// A predicate is a function of its bookkeeping, the world state, the
/// transition flags and the time: equal inputs give equal verdicts and equal
/// bookkeeping afterwards.
pub proof fn lemma_eval_deterministic(
    c1: CondView,
    c2: CondView,
    e1: EnvView,
    e2: EnvView,
    rts: RunningTreeState,
    now: u64,
)
    requires
        c1 == c2,
        e1 == e2,
    ensures
        eval_view(c1, e1, rts, now) == eval_view(c2, e2, rts, now),
{
}

/// The predicate has no leaf in edge mode.
pub open spec fn edge_free(c: CondView) -> bool
    decreases c,
{
    match c {
        CondView::AllwaysTrue(a) => !a.with_flank,
        CondView::Gpio(g) => !g.use_flank,
        CondView::App(_, _) => true,
        CondView::Tree(_) => true,
        CondView::And(cs) => edge_free_all(cs),
        CondView::Or(cs) => edge_free_all(cs),
        CondView::Not(b) => edge_free(*b),
    }
}

pub open spec fn edge_free_all(cs: Seq<CondView>) -> bool
    decreases cs,
{
    cs.len() == 0 || (edge_free(cs[0]) && edge_free_all(cs.subrange(1, cs.len() as int)))
}

/// Once settled, a predicate without edge mode gives the same verdict when
/// evaluated again with the same inputs outside a rearming, and its
/// bookkeeping no longer changes.
pub proof fn lemma_eval_settled(c: CondView, env: EnvView, rts: RunningTreeState, now: u64)
    requires
        edge_free(c),
        !rts.first_iteration_after_move,
    ensures
        eval_view(eval_view(c, env, rts, now).1, env, rts, now) == eval_view(c, env, rts, now),
        edge_free(eval_view(c, env, rts, now).1),
    decreases c,
{
    match c {
        CondView::And(cs) => {
            lemma_eval_all_settled(cs, true, env, rts, now);
        },
        CondView::Or(cs) => {
            lemma_eval_all_settled(cs, false, env, rts, now);
        },
        CondView::Not(b) => {
            lemma_eval_settled(*b, env, rts, now);
        },
        _ => {},
    }
}

pub proof fn lemma_eval_all_settled(
    cs: Seq<CondView>,
    all: bool,
    env: EnvView,
    rts: RunningTreeState,
    now: u64,
)
    requires
        edge_free_all(cs),
        !rts.first_iteration_after_move,
    ensures
        eval_views(eval_views(cs, all, env, rts, now).1, all, env, rts, now) == eval_views(
            cs,
            all,
            env,
            rts,
            now,
        ),
        edge_free_all(eval_views(cs, all, env, rts, now).1),
    decreases cs,
{
    if cs.len() > 0 {
        let (r, c0) = eval_view(cs[0], env, rts, now);
        lemma_eval_settled(cs[0], env, rts, now);
        let rest = cs.subrange(1, cs.len() as int);
        let out = eval_views(cs, all, env, rts, now).1;
        match r {
            Err(_) => {
                assert(out == cs.update(0, c0));
                assert(out[0] == c0);
                assert(out.update(0, c0) =~= out);
                assert(out.subrange(1, out.len() as int) =~= rest);
            },
            Ok(b) => {
                if b != all {
                    assert(out.update(0, c0) =~= out);
                    assert(out.subrange(1, out.len() as int) =~= rest);
                } else {
                    lemma_eval_all_settled(rest, all, env, rts, now);
                    let (r2, rest2) = eval_views(rest, all, env, rts, now);
                    assert(out == seq![c0] + rest2);
                    assert(out[0] == c0);
                    assert(out.subrange(1, out.len() as int) =~= rest2);
                }
            },
        }
    }
}

/// A conjunction of no predicate holds, and so does one whose parts all hold;
/// a disjunction of no predicate fails.
pub proof fn lemma_gates_identities(cs: Seq<CondView>, env: EnvView, rts: RunningTreeState, now: u64)
    ensures
        eval_view(CondView::And(Seq::empty()), env, rts, now).0 == Ok::<bool, ()>(true),
        eval_view(CondView::Or(Seq::empty()), env, rts, now).0 == Ok::<bool, ()>(false),
        (forall|i: int| 0 <= i < cs.len() ==> (#[trigger] eval_view(cs[i], env, rts, now)).0 == Ok::<bool, ()>(true))
            ==> eval_view(CondView::And(cs), env, rts, now).0 == Ok::<bool, ()>(true),
{
    assert(eval_views(Seq::empty(), true, env, rts, now).0 == Ok::<bool, ()>(true));
    assert(eval_views(Seq::empty(), false, env, rts, now).0 == Ok::<bool, ()>(false));
    if forall|i: int| 0 <= i < cs.len() ==> (#[trigger] eval_view(cs[i], env, rts, now)).0 == Ok::<bool, ()>(true) {
        lemma_and_all_true(cs, env, rts, now);
    }
}

proof fn lemma_and_all_true(cs: Seq<CondView>, env: EnvView, rts: RunningTreeState, now: u64)
    requires
        forall|i: int| 0 <= i < cs.len() ==> (#[trigger] eval_view(cs[i], env, rts, now)).0 == Ok::<bool, ()>(true),
    ensures
        eval_views(cs, true, env, rts, now).0 == Ok::<bool, ()>(true),
    decreases cs.len(),
{
    if cs.len() > 0 {
        let rest = cs.subrange(1, cs.len() as int);
        assert forall|i: int| 0 <= i < rest.len() implies (#[trigger] eval_view(rest[i], env, rts, now)).0 == Ok::<bool, ()>(true) by {
            assert(rest[i] == cs[i + 1]);
        }
        assert(eval_view(cs[0], env, rts, now).0 == Ok::<bool, ()>(true));
        lemma_and_all_true(rest, env, rts, now);
    }
}

/// The negation of the predicate that always holds, without delay or edge
/// mode, fails, and stays such a negation afterwards.
pub proof fn lemma_not_always_true(a: AllwaysTrue, env: EnvView, rts: RunningTreeState, now: u64)
    requires
        a.with_delay == 0,
        !a.with_flank,
    ensures
        ({
            let (r, c2) = eval_view(CondView::Not(Box::new(CondView::AllwaysTrue(a))), env, rts, now);
            &&& r == Ok::<bool, ()>(false)
            &&& c2 matches CondView::Not(b) && *b matches CondView::AllwaysTrue(a2) && a2.with_delay == 0
                && !a2.with_flank
        }),
{
    let (b, a2) = a.eval_spec(rts, now);
    assert(eval_view(CondView::AllwaysTrue(a), env, rts, now) == (Ok::<bool, ()>(true), CondView::AllwaysTrue(a2)));
}

/// The verdicts of a literal predicate evaluated under the flags `rs` at the
/// times `ts`, in order, each starting from the bookkeeping the previous left.
pub open spec fn literal_series(a: AllwaysTrue, rs: Seq<RunningTreeState>, ts: Seq<u64>) -> Seq<bool>
    decreases rs.len(),
{
    if rs.len() == 0 || ts.len() == 0 {
        Seq::empty()
    } else {
        let (b, a2) = a.eval_spec(rs[0], ts[0]);
        seq![b] + literal_series(a2, rs.subrange(1, rs.len() as int), ts.subrange(1, ts.len() as int))
    }
}

proof fn lemma_literal_series_len(a: AllwaysTrue, rs: Seq<RunningTreeState>, ts: Seq<u64>)
    requires
        rs.len() == ts.len(),
    ensures
        literal_series(a, rs, ts).len() == rs.len(),
    decreases rs.len(),
{
    if rs.len() > 0 {
        let (b, a2) = a.eval_spec(rs[0], ts[0]);
        lemma_literal_series_len(a2, rs.subrange(1, rs.len() as int), ts.subrange(1, ts.len() as int));
    }
}

proof fn lemma_flanked_stays_false(a: AllwaysTrue, rs: Seq<RunningTreeState>, ts: Seq<u64>)
    requires
        a.with_flank,
        a.has_flanked,
        rs.len() == ts.len(),
        forall|i: int| 0 <= i < rs.len() ==> !(#[trigger] rs[i]).first_iteration_after_move,
    ensures
        forall|i: int| 0 <= i < rs.len() ==> !(#[trigger] literal_series(a, rs, ts)[i]),
    decreases rs.len(),
{
    lemma_literal_series_len(a, rs, ts);
    if rs.len() > 0 {
        let rs1 = rs.subrange(1, rs.len() as int);
        let ts1 = ts.subrange(1, ts.len() as int);
        assert(!rs[0].first_iteration_after_move);
        assert forall|i: int| 0 <= i < rs1.len() implies !(#[trigger] rs1[i]).first_iteration_after_move by {
            assert(rs1[i] == rs[i + 1]);
        }
        lemma_flanked_stays_false(a, rs1, ts1);
        let s = literal_series(a, rs, ts);
        assert forall|i: int| 0 <= i < rs.len() implies !(#[trigger] s[i]) by {
            if i > 0 {
                assert(s[i] == literal_series(a, rs1, ts1)[i - 1]);
            }
        }
    }
}

/// A literal predicate rearmed at `t0` is past its delay at time `t`.
pub open spec fn literal_due(a: AllwaysTrue, t0: u64, t: u64) -> bool {
    !(a.with_delay > 0 && t < t0 + a.with_delay)
}

proof fn lemma_edge_armed(a: AllwaysTrue, t0: u64, rs: Seq<RunningTreeState>, ts: Seq<u64>)
    requires
        a.with_flank,
        !a.has_flanked,
        a.first_exec_at == Some(t0),
        rs.len() == ts.len(),
        forall|i: int| 0 <= i < rs.len() ==> !(#[trigger] rs[i]).first_iteration_after_move,
    ensures
        literal_series(a, rs, ts).len() == rs.len(),
        forall|i: int|
            0 <= i < rs.len() ==> #[trigger] literal_series(a, rs, ts)[i] == (literal_due(a, t0, ts[i])
                && forall|j: int| 0 <= j < i ==> !literal_due(a, t0, #[trigger] ts[j])),
    decreases rs.len(),
{
    lemma_literal_series_len(a, rs, ts);
    if rs.len() > 0 {
        let (b, a2) = a.eval_spec(rs[0], ts[0]);
        let rs1 = rs.subrange(1, rs.len() as int);
        let ts1 = ts.subrange(1, ts.len() as int);
        assert(!rs[0].first_iteration_after_move);
        assert forall|i: int| 0 <= i < rs1.len() implies !(#[trigger] rs1[i]).first_iteration_after_move by {
            assert(rs1[i] == rs[i + 1]);
        }
        let s = literal_series(a, rs, ts);
        if literal_due(a, t0, ts[0]) {
            lemma_flanked_stays_false(a2, rs1, ts1);
            assert forall|i: int| 0 <= i < rs.len() implies #[trigger] s[i] == (literal_due(a, t0, ts[i])
                && forall|j: int| 0 <= j < i ==> !literal_due(a, t0, #[trigger] ts[j])) by {
                if i > 0 {
                    assert(s[i] == literal_series(a2, rs1, ts1)[i - 1]);
                    assert(literal_due(a, t0, ts[0]));
                }
            }
        } else {
            assert(a2 == a);
            lemma_edge_armed(a2, t0, rs1, ts1);
            assert forall|i: int| 0 <= i < rs.len() implies #[trigger] s[i] == (literal_due(a, t0, ts[i])
                && forall|j: int| 0 <= j < i ==> !literal_due(a, t0, #[trigger] ts[j])) by {
                if i > 0 {
                    assert(s[i] == literal_series(a2, rs1, ts1)[i - 1]);
                    assert(ts1[i - 1] == ts[i]);
                    if forall|k: int| 0 <= k < i - 1 ==> !literal_due(a, t0, #[trigger] ts1[k]) {
                        assert forall|j: int| 0 <= j < i implies !literal_due(a, t0, #[trigger] ts[j]) by {
                            if j > 0 {
                                assert(ts1[j - 1] == ts[j]);
                            }
                        }
                    }
                    if exists|k: int| 0 <= k < i - 1 && literal_due(a, t0, #[trigger] ts1[k]) {
                        let k = choose|k: int| 0 <= k < i - 1 && literal_due(a, t0, #[trigger] ts1[k]);
                        assert(ts1[k] == ts[k + 1]);
                    }
                }
            }
        }
    }
}

/// Edge mode: after a rearming at time `T`, a literal predicate fires exactly
/// once until the next rearming, however many evaluations follow: on the
/// first evaluation past its delay since `T` (the rearming one itself when it
/// has no delay), and on no other.
pub proof fn lemma_edge_fires_once(a: AllwaysTrue, rs: Seq<RunningTreeState>, ts: Seq<u64>)
    requires
        a.with_flank,
        rs.len() == ts.len(),
        rs.len() > 0,
        rs[0].first_iteration_after_move,
        forall|i: int| 1 <= i < rs.len() ==> !(#[trigger] rs[i]).first_iteration_after_move,
    ensures
        literal_series(a, rs, ts).len() == rs.len(),
        forall|i: int|
            0 <= i < rs.len() ==> #[trigger] literal_series(a, rs, ts)[i] == (literal_due(a, ts[0], ts[i])
                && forall|j: int| 0 <= j < i ==> !literal_due(a, ts[0], #[trigger] ts[j])),
        a.with_delay == 0 ==> literal_series(a, rs, ts)[0],
        a.with_delay == 0 ==> forall|i: int| 1 <= i < rs.len() ==> !(#[trigger] literal_series(a, rs, ts)[i]),
{
    let a1 = a.rearmed(rs[0], ts[0]);
    let r0 = RunningTreeState { first_iteration_after_move: false, ..rs[0] };
    let rs2 = rs.update(0, r0);
    assert(a.eval_spec(rs[0], ts[0]) == a1.eval_spec(r0, ts[0]));
    assert(rs2.subrange(1, rs2.len() as int) =~= rs.subrange(1, rs.len() as int));
    assert(literal_series(a, rs, ts) == literal_series(a1, rs2, ts));
    assert forall|i: int| 0 <= i < rs2.len() implies !(#[trigger] rs2[i]).first_iteration_after_move by {}
    lemma_edge_armed(a1, ts[0], rs2, ts);
    let s = literal_series(a, rs, ts);
    assert forall|i: int| 0 <= i < rs.len() implies #[trigger] s[i] == (literal_due(a, ts[0], ts[i])
        && forall|j: int| 0 <= j < i ==> !literal_due(a, ts[0], #[trigger] ts[j])) by {
        assert(literal_due(a, ts[0], ts[i]) == literal_due(a1, ts[0], ts[i]));
        assert forall|j: int| 0 <= j < i implies literal_due(a, ts[0], #[trigger] ts[j]) == literal_due(a1, ts[0], ts[j]) by {}
    }
    if a.with_delay == 0 {
        assert(literal_due(a, ts[0], ts[0]));
        assert forall|i: int| 1 <= i < rs.len() implies !(#[trigger] s[i]) by {
            assert(literal_due(a, ts[0], ts[0]));
        }
    }
}

proof fn lemma_delay_armed(a: AllwaysTrue, t0: u64, rs: Seq<RunningTreeState>, ts: Seq<u64>)
    requires
        !a.with_flank,
        a.with_delay > 0,
        a.first_exec_at == Some(t0),
        rs.len() == ts.len(),
        forall|i: int| 0 <= i < rs.len() ==> !(#[trigger] rs[i]).first_iteration_after_move,
    ensures
        literal_series(a, rs, ts).len() == rs.len(),
        forall|i: int|
            0 <= i < rs.len() ==> #[trigger] literal_series(a, rs, ts)[i] == (ts[i] >= t0 + a.with_delay),
    decreases rs.len(),
{
    lemma_literal_series_len(a, rs, ts);
    if rs.len() > 0 {
        let (b, a2) = a.eval_spec(rs[0], ts[0]);
        let rs1 = rs.subrange(1, rs.len() as int);
        let ts1 = ts.subrange(1, ts.len() as int);
        assert(!rs[0].first_iteration_after_move);
        assert forall|i: int| 0 <= i < rs1.len() implies !(#[trigger] rs1[i]).first_iteration_after_move by {
            assert(rs1[i] == rs[i + 1]);
        }
        lemma_delay_armed(a2, t0, rs1, ts1);
        let s = literal_series(a, rs, ts);
        assert forall|i: int| 0 <= i < rs.len() implies #[trigger] s[i] == (ts[i] >= t0 + a.with_delay) by {
            if i > 0 {
                assert(s[i] == literal_series(a2, rs1, ts1)[i - 1]);
                assert(ts1[i - 1] == ts[i]);
            }
        }
    }
}

/// Delay: a literal predicate with delay `D`, rearmed at time `T`, fails on
/// every evaluation until the next rearming at a time before `T + D`, and
/// holds at every later one.
pub proof fn lemma_delay(a: AllwaysTrue, rs: Seq<RunningTreeState>, ts: Seq<u64>)
    requires
        !a.with_flank,
        a.with_delay > 0,
        rs.len() == ts.len(),
        rs.len() > 0,
        rs[0].first_iteration_after_move,
        forall|i: int| 1 <= i < rs.len() ==> !(#[trigger] rs[i]).first_iteration_after_move,
    ensures
        literal_series(a, rs, ts).len() == rs.len(),
        forall|i: int|
            0 <= i < rs.len() ==> #[trigger] literal_series(a, rs, ts)[i] == (ts[i] - ts[0] >= a.with_delay),
{
    lemma_literal_series_len(a, rs, ts);
    let (b, a2) = a.eval_spec(rs[0], ts[0]);
    let rs1 = rs.subrange(1, rs.len() as int);
    let ts1 = ts.subrange(1, ts.len() as int);
    assert forall|i: int| 0 <= i < rs1.len() implies !(#[trigger] rs1[i]).first_iteration_after_move by {
        assert(rs1[i] == rs[i + 1]);
    }
    lemma_delay_armed(a2, ts[0], rs1, ts1);
    let s = literal_series(a, rs, ts);
    assert forall|i: int| 0 <= i < rs.len() implies #[trigger] s[i] == (ts[i] - ts[0] >= a.with_delay) by {
        if i > 0 {
            assert(s[i] == literal_series(a2, rs1, ts1)[i - 1]);
            assert(ts1[i - 1] == ts[i]);
        }
    }
}

/// A pin predicate is rearmed at the time of the rearming when its node is
/// not the active one or is entered from below.
pub proof fn lemma_gpio_rearm(g: DigitalGpioCondition, rts: RunningTreeState, now: u64)
    requires
        rts.first_iteration_after_move,
        !rts.currently_active || rts.moved_in_from_back,
    ensures
        g.rearmed(rts, now).first_eval_at == Some(now),
        !g.rearmed(rts, now).has_flanked,
{
}

/// Delay of a pin predicate: rearmed at time `t`, with the pin in its state
/// since no later than `t`, it fails while less than its delay has passed
/// since `t` and holds afterwards; outside a rearming the time `t` is kept.
pub proof fn lemma_gpio_delay(
    g: DigitalGpioCondition,
    env: EnvView,
    rts: RunningTreeState,
    now: u64,
    t: u64,
    changed_at: u64,
)
    requires
        !g.use_flank,
        g.first_eval_at == Some(t),
        g.pin_snapshot(env) == Some((g.state, changed_at)),
        changed_at <= t,
        !rts.first_iteration_after_move,
    ensures
        g.eval_spec(env, rts, now).0 == Ok::<bool, ()>(now - t >= g.delay),
        g.eval_spec(env, rts, now).1.first_eval_at == Some(t),
{
}

/// Minimum re-fire interval: a node whose last execution is recorded at `t`
/// is left untouched by any evaluation before `t` plus its least delay.
pub proof fn lemma_min_refire_interval<A>(
    n: NodeView<A>,
    st: EvalState<A>,
    rts: RunningTreeState,
    now: u64,
    t: int,
)
    requires
        st.env.app.contains_key(executed_key(n.name())),
        st.env.app[executed_key(n.name())] == StateValue::Int(t),
        now < t + n.min_delay(),
    ensures
        eval_node(n, st, rts, now) == (EvalResult::Stay, n, st),
{
}

/// Every node named `x` in the tree `n` has a least delay of at least `m`.
pub open spec fn delay_at_least<A>(n: NodeView<A>, x: Seq<char>, m: u64) -> bool
    decreases n,
{
    &&& (n.name() == x ==> n.min_delay() >= m)
    &&& match n {
        NodeView::Unit { children, .. } => delays_at_least(children, x, m),
        NodeView::Task(_) => true,
    }
}

pub open spec fn delays_at_least<A>(cs: Seq<NodeView<A>>, x: Seq<char>, m: u64) -> bool
    decreases cs,
{
    cs.len() == 0 || (delay_at_least(cs[0], x, m) && delays_at_least(
        cs.subrange(1, cs.len() as int),
        x,
        m,
    ))
}

/// The last execution of `x` is recorded at `t`.
pub open spec fn stamped<A>(st: EvalState<A>, x: Seq<char>, t: int) -> bool {
    st.env.app.contains_key(executed_key(x)) && st.env.app[executed_key(x)] == StateValue::Int(t)
}

/// From `st` to `st2`, earlier work is kept and no action of `x` is handed out.
pub open spec fn no_spawn_of<A>(st: EvalState<A>, st2: EvalState<A>, x: Seq<char>) -> bool {
    &&& st.effects.len() <= st2.effects.len()
    &&& st2.effects.subrange(0, st.effects.len() as int) == st.effects
    &&& forall|i: int|
        st.effects.len() <= i < st2.effects.len() ==> !((#[trigger] st2.effects[i]) matches EffectView::Spawn(
            y,
            _,
        ) && y == x)
}

proof fn lemma_executed_key_injective(x: Seq<char>, y: Seq<char>)
    requires
        executed_key(x) == executed_key(y),
    ensures
        x == y,
{
    let s = "_executed"@;
    assert((x + s).len() == (y + s).len());
    assert forall|i: int| 0 <= i < x.len() implies x[i] == y[i] by {
        assert((x + s)[i] == x[i]);
        assert((y + s)[i] == y[i]);
    }
    assert(x =~= y);
}

proof fn lemma_no_spawn_trans<A>(s1: EvalState<A>, s2: EvalState<A>, s3: EvalState<A>, x: Seq<char>)
    requires
        no_spawn_of(s1, s2, x),
        no_spawn_of(s2, s3, x),
    ensures
        no_spawn_of(s1, s3, x),
{
    let n1 = s1.effects.len() as int;
    let n2 = s2.effects.len() as int;
    assert(s3.effects.subrange(0, n1) =~= s3.effects.subrange(0, n2).subrange(0, n1));
    assert forall|i: int| n1 <= i < s3.effects.len() implies !((#[trigger] s3.effects[i]) matches EffectView::Spawn(
        y,
        _,
    ) && y == x) by {
        if i < n2 {
            assert(s3.effects.subrange(0, n2)[i] == s3.effects[i]);
        }
    }
}

proof fn lemma_no_spawn_push<A>(st: EvalState<A>, st2: EvalState<A>, e: EffectView<A>, x: Seq<char>)
    requires
        st2.effects == st.effects.push(e),
        !(e matches EffectView::Spawn(y, _) && y == x),
    ensures
        no_spawn_of(st, st2, x),
{
    assert(st2.effects.subrange(0, st.effects.len() as int) =~= st.effects);
}

/// Minimum re-fire interval, at any depth: while `now` is before the recorded
/// last execution `t` of `x` plus `m`, and every node named `x` has a least
/// delay of at least `m`, an evaluation hands out no action of `x` and keeps
/// the record.
pub proof fn lemma_refire_gate_in_tree<A>(
    n: NodeView<A>,
    st: EvalState<A>,
    rts: RunningTreeState,
    now: u64,
    x: Seq<char>,
    m: u64,
    t: int,
)
    requires
        delay_at_least(n, x, m),
        stamped(st, x, t),
        now < t + m,
    ensures
        stamped(eval_node(n, st, rts, now).2, x, t),
        no_spawn_of(st, eval_node(n, st, rts, now).2, x),
    decreases n,
{
    let out = eval_node(n, st, rts, now).2;
    if gate_blocks(n, st.env.app, st.running, now) {
        assert(out.effects.subrange(0, st.effects.len() as int) =~= st.effects);
    } else {
        assert(last_executed(st.env.app, x) == t);
        assert(n.name() != x);
        let (r, n1) = eval_predicate(n, st.env, rts, now);
        match r {
            Err(_) => {
                lemma_no_spawn_push(st, out, EffectView::Fault(n.name()), x);
            },
            Ok(true) => match n1 {
                NodeView::Task(tk) => {
                    lemma_no_spawn_push(st, out, EffectView::Spawn(tk.name, tk.action), x);
                    if executed_key(tk.name) == executed_key(x) {
                        lemma_executed_key_injective(tk.name, x);
                    }
                },
                NodeView::Unit { children, .. } => {
                    if !rts.currently_active {
                        assert(out.effects.subrange(0, st.effects.len() as int) =~= st.effects);
                    } else {
                        lemma_refire_gate_in_children(children, st, rts.for_subtask(), now, x, m, t);
                    }
                },
            },
            Ok(false) => match n1 {
                NodeView::Unit { on_exit, .. } => {
                    if rts.currently_active && on_exit is Some {
                        let tk = on_exit->0;
                        lemma_no_spawn_push(st, out, EffectView::RunExit(tk.name, tk.action), x);
                    } else {
                        assert(out.effects.subrange(0, st.effects.len() as int) =~= st.effects);
                    }
                },
                NodeView::Task(_) => {
                    assert(out.effects.subrange(0, st.effects.len() as int) =~= st.effects);
                },
            },
        }
    }
}

pub proof fn lemma_refire_gate_in_children<A>(
    cs: Seq<NodeView<A>>,
    st: EvalState<A>,
    rts: RunningTreeState,
    now: u64,
    x: Seq<char>,
    m: u64,
    t: int,
)
    requires
        delays_at_least(cs, x, m),
        stamped(st, x, t),
        now < t + m,
    ensures
        stamped(eval_children(cs, st, rts, now).2, x, t),
        no_spawn_of(st, eval_children(cs, st, rts, now).2, x),
    decreases cs,
{
    if cs.len() == 0 {
        assert(st.effects.subrange(0, st.effects.len() as int) =~= st.effects);
    } else {
        let (o, c0, st1) = eval_node(cs[0], st, rts, now);
        lemma_refire_gate_in_tree(cs[0], st, rts, now, x, m, t);
        if !(o is Enter) {
            let rest = cs.subrange(1, cs.len() as int);
            lemma_refire_gate_in_children(rest, st1, rts, now, x, m, t);
            lemma_no_spawn_trans(st, st1, eval_children(rest, st1, rts, now).2, x);
        }
    }
}

proof fn lemma_delays_index<A>(cs: Seq<NodeView<A>>, x: Seq<char>, m: u64, k: int)
    requires
        delays_at_least(cs, x, m),
        0 <= k < cs.len(),
    ensures
        delay_at_least(cs[k], x, m),
    decreases cs.len(),
{
    if k > 0 {
        let rest = cs.subrange(1, cs.len() as int);
        lemma_delays_index(rest, x, m, k - 1);
        assert(rest[k - 1] == cs[k]);
    }
}

proof fn lemma_delay_at_path<A>(n: NodeView<A>, p: Seq<usize>, x: Seq<char>, m: u64)
    requires
        delay_at_least(n, x, m),
        valid_path(n, p),
    ensures
        delay_at_least(node_at(n, p), x, m),
    decreases p.len(),
{
    if p.len() > 0 {
        if let NodeView::Unit { children, .. } = n {
            lemma_delays_index(children, x, m, p[0] as int);
            lemma_delay_at_path(children[p[0] as int], p.subrange(1, p.len() as int), x, m);
        }
    }
}

/// Minimum re-fire interval over a whole step of the scheduler: while `now`
/// is before the recorded last execution `t` of `x` plus `m`, and every node
/// named `x` in the tree has a least delay of at least `m`, the step hands out
/// no action of `x` and keeps the record, wherever `x` stands in the tree.
pub proof fn lemma_step_refire_gate<A>(
    tr: TreeView<A>,
    env: EnvView,
    running: Set<Seq<char>>,
    now: u64,
    x: Seq<char>,
    m: u64,
    t: int,
)
    requires
        tree_ok(tr),
        delay_at_least(tr.root, x, m),
        env.app.contains_key(executed_key(x)),
        env.app[executed_key(x)] == StateValue::Int(t),
        now < t + m,
    ensures
        ({
            let (o, t2, st2) = step_tree(tr, env, running, now);
            &&& st2.env.app.contains_key(executed_key(x))
            &&& st2.env.app[executed_key(x)] == StateValue::Int(t)
            &&& forall|i: int| 0 <= i < st2.effects.len() ==> !((#[trigger] st2.effects[i]) matches EffectView::Spawn(
                y,
                _,
            ) && y == x)
        }),
{
    let st = EvalState { env, running, effects: Seq::<EffectView<A>>::empty() };
    lemma_delay_at_path(tr.root, tr.path, x, m);
    lemma_refire_gate_in_tree(node_at(tr.root, tr.path), st, tr.state, now, x, m, t);
}

proof fn lemma_delays_update<A>(cs: Seq<NodeView<A>>, k: int, c: NodeView<A>, x: Seq<char>, m: u64)
    requires
        delays_at_least(cs, x, m),
        delay_at_least(c, x, m),
        0 <= k < cs.len(),
    ensures
        delays_at_least(cs.update(k, c), x, m),
    decreases cs.len(),
{
    let u = cs.update(k, c);
    if k == 0 {
        assert(u.subrange(1, u.len() as int) =~= cs.subrange(1, cs.len() as int));
    } else {
        let rest = cs.subrange(1, cs.len() as int);
        lemma_delays_update(rest, k - 1, c, x, m);
        assert(u.subrange(1, u.len() as int) =~= rest.update(k - 1, c));
    }
}

proof fn lemma_eval_keeps_delays<A>(n: NodeView<A>, st: EvalState<A>, rts: RunningTreeState, now: u64, x: Seq<char>, m: u64)
    requires
        delay_at_least(n, x, m),
    ensures
        delay_at_least(eval_node(n, st, rts, now).1, x, m),
    decreases n,
{
    if !gate_blocks(n, st.env.app, st.running, now) {
        let (r, n1) = eval_predicate(n, st.env, rts, now);
        if r == Ok::<bool, ()>(true) && rts.currently_active {
            if let NodeView::Unit { children, .. } = n1 {
                lemma_children_keep_delays(children, st, rts.for_subtask(), now, x, m);
            }
        }
    }
}

proof fn lemma_children_keep_delays<A>(
    cs: Seq<NodeView<A>>,
    st: EvalState<A>,
    rts: RunningTreeState,
    now: u64,
    x: Seq<char>,
    m: u64,
)
    requires
        delays_at_least(cs, x, m),
    ensures
        delays_at_least(eval_children(cs, st, rts, now).1, x, m),
    decreases cs,
{
    if cs.len() > 0 {
        let (o, c0, st1) = eval_node(cs[0], st, rts, now);
        lemma_eval_keeps_delays(cs[0], st, rts, now, x, m);
        let rest = cs.subrange(1, cs.len() as int);
        if o is Enter {
            lemma_delays_update(cs, 0, c0, x, m);
        } else {
            lemma_children_keep_delays(rest, st1, rts, now, x, m);
            let r2 = eval_children(rest, st1, rts, now).1;
            let out = seq![c0] + r2;
            assert(out[0] == c0);
            assert(out.subrange(1, out.len() as int) =~= r2);
        }
    }
}

proof fn lemma_replace_keeps_delays<A>(n: NodeView<A>, p: Seq<usize>, c: NodeView<A>, x: Seq<char>, m: u64)
    requires
        delay_at_least(n, x, m),
        delay_at_least(c, x, m),
        valid_path(n, p),
    ensures
        delay_at_least(replace_at(n, p, c), x, m),
    decreases p.len(),
{
    if p.len() > 0 {
        if let NodeView::Unit { children, .. } = n {
            let k = p[0] as int;
            lemma_delays_index(children, x, m, k);
            lemma_replace_keeps_delays(children[k], p.subrange(1, p.len() as int), c, x, m);
            lemma_delays_update(children, k, replace_at(children[k], p.subrange(1, p.len() as int), c), x, m);
        }
    }
}

/// A step keeps the least delays of the nodes named `x`, so the re-fire gate
/// holds on every later step too, as long as the record of `x` stays.
pub proof fn lemma_step_keeps_delays<A>(tr: TreeView<A>, env: EnvView, running: Set<Seq<char>>, now: u64, x: Seq<char>, m: u64)
    requires
        tree_ok(tr),
        delay_at_least(tr.root, x, m),
    ensures
        delay_at_least(step_tree(tr, env, running, now).1.root, x, m),
{
    let st = EvalState { env, running, effects: Seq::<EffectView<A>>::empty() };
    let top = node_at(tr.root, tr.path);
    lemma_delay_at_path(tr.root, tr.path, x, m);
    lemma_eval_keeps_delays(top, st, tr.state, now, x, m);
    lemma_replace_keeps_delays(tr.root, tr.path, eval_node(top, st, tr.state, now).1, x, m);
}

/// Every list of children in the tree `n` has a length that fits a `usize`,
/// as every tree built from vectors has.
pub open spec fn bounded<A>(n: NodeView<A>) -> bool
    decreases n,
{
    match n {
        NodeView::Unit { children, .. } => children.len() <= usize::MAX && all_bounded(children),
        NodeView::Task(_) => true,
    }
}

pub open spec fn all_bounded<A>(cs: Seq<NodeView<A>>) -> bool
    decreases cs,
{
    cs.len() == 0 || (bounded(cs[0]) && all_bounded(cs.subrange(1, cs.len() as int)))
}

proof fn lemma_bounded_index<A>(cs: Seq<NodeView<A>>, k: int)
    requires
        all_bounded(cs),
        0 <= k < cs.len(),
    ensures
        bounded(cs[k]),
    decreases cs.len(),
{
    if k > 0 {
        let rest = cs.subrange(1, cs.len() as int);
        lemma_bounded_index(rest, k - 1);
        assert(rest[k - 1] == cs[k]);
    }
}

proof fn lemma_bounded_update<A>(cs: Seq<NodeView<A>>, k: int, c: NodeView<A>)
    requires
        all_bounded(cs),
        bounded(c),
        0 <= k < cs.len(),
    ensures
        all_bounded(cs.update(k, c)),
    decreases cs.len(),
{
    let u = cs.update(k, c);
    if k == 0 {
        assert(u.subrange(1, u.len() as int) =~= cs.subrange(1, cs.len() as int));
    } else {
        let rest = cs.subrange(1, cs.len() as int);
        lemma_bounded_update(rest, k - 1, c);
        assert(u.subrange(1, u.len() as int) =~= rest.update(k - 1, c));
    }
}

/// An evaluation keeps a tree bounded and, for a context that asks to move
/// to a child, names a child that is a context.
proof fn lemma_eval_shape<A>(n: NodeView<A>, st: EvalState<A>, rts: RunningTreeState, now: u64)
    requires
        bounded(n),
    ensures
        bounded(eval_node(n, st, rts, now).1),
        eval_node(n, st, rts, now).0 is Enter ==> eval_node(n, st, rts, now).1 is Unit,
        eval_node(n, st, rts, now).0 matches EvalResult::MoveTo(k) ==> eval_node(n, st, rts, now).1 matches NodeView::Unit { children, .. } && k
            < children.len() && children[k as int] is Unit,
    decreases n,
{
    if !gate_blocks(n, st.env.app, st.running, now) {
        let (r, n1) = eval_predicate(n, st.env, rts, now);
        if r == Ok::<bool, ()>(true) && rts.currently_active {
            if let NodeView::Unit { children, .. } = n1 {
                lemma_children_shape(children, st, rts.for_subtask(), now);
            }
        }
    }
}

proof fn lemma_children_shape<A>(cs: Seq<NodeView<A>>, st: EvalState<A>, rts: RunningTreeState, now: u64)
    requires
        all_bounded(cs),
    ensures
        all_bounded(eval_children(cs, st, rts, now).1),
        eval_children(cs, st, rts, now).1.len() == cs.len(),
        eval_children(cs, st, rts, now).0 matches Some(k) ==> 0 <= k < cs.len()
            && eval_children(cs, st, rts, now).1[k] is Unit,
    decreases cs,
{
    if cs.len() > 0 {
        let (o, c0, st1) = eval_node(cs[0], st, rts, now);
        lemma_eval_shape(cs[0], st, rts, now);
        let rest = cs.subrange(1, cs.len() as int);
        if o is Enter {
            lemma_bounded_update(cs, 0, c0);
        } else {
            lemma_children_shape(rest, st1, rts, now);
            let r2 = eval_children(rest, st1, rts, now);
            let out = seq![c0] + r2.1;
            assert(out[0] == c0);
            assert(out.subrange(1, out.len() as int) =~= r2.1);
            if r2.0 is Some {
                assert(out[r2.0->0 + 1] == r2.1[r2.0->0]);
            }
        }
    }
}

proof fn lemma_replace_bounded<A>(n: NodeView<A>, p: Seq<usize>, c: NodeView<A>)
    requires
        bounded(n),
        bounded(c),
        valid_path(n, p),
    ensures
        bounded(replace_at(n, p, c)),
    decreases p.len(),
{
    if p.len() > 0 {
        if let NodeView::Unit { children, .. } = n {
            let k = p[0] as int;
            lemma_bounded_index(children, k);
            lemma_replace_bounded(children[k], p.subrange(1, p.len() as int), c);
            lemma_bounded_update(children, k, replace_at(children[k], p.subrange(1, p.len() as int), c));
        }
    }
}

proof fn lemma_bounded_at_path<A>(n: NodeView<A>, p: Seq<usize>)
    requires
        bounded(n),
        valid_path(n, p),
    ensures
        bounded(node_at(n, p)),
    decreases p.len(),
{
    if p.len() > 0 {
        if let NodeView::Unit { children, .. } = n {
            lemma_bounded_index(children, p[0] as int);
            lemma_bounded_at_path(children[p[0] as int], p.subrange(1, p.len() as int));
        }
    }
}

/// Every tree built from vectors is bounded.
pub proof fn lemma_view_bounded<A>(n: ConditionalTypes<A>)
    ensures
        bounded(node_view(n)),
    decreases n,
{
    if let ConditionalTypes::TaskContext(u) = n {
        assert(decreases_to!(n => u.subunits@));
        lemma_views_bounded(u.subunits@);
        lemma_node_views(u.subunits@);
        vstd::std_specs::vec::axiom_spec_len(&u.subunits);
        assert(node_views(u.subunits@).len() <= usize::MAX);
    }
}

pub proof fn lemma_views_bounded<A>(s: Seq<ConditionalTypes<A>>)
    ensures
        all_bounded(node_views(s)),
    decreases s,
{
    if s.len() > 0 {
        let rest = s.subrange(1, s.len() as int);
        lemma_view_bounded(s[0]);
        lemma_views_bounded(rest);
        let v = node_views(s);
        assert(v[0] == node_view(s[0]));
        assert(v.subrange(1, v.len() as int) =~= node_views(rest));
    }
}

/// A step keeps a bounded tree bounded and at rest.
pub proof fn lemma_step_keeps_tree_ok<A>(tr: TreeView<A>, env: EnvView, running: Set<Seq<char>>, now: u64)
    requires
        tree_ok(tr),
        bounded(tr.root),
    ensures
        tree_ok(step_tree(tr, env, running, now).1),
        bounded(step_tree(tr, env, running, now).1.root),
{
    let st = EvalState { env, running, effects: Seq::<EffectView<A>>::empty() };
    let top = node_at(tr.root, tr.path);
    lemma_bounded_at_path(tr.root, tr.path);
    lemma_eval_shape(top, st, tr.state, now);
    lemma_eval_node_variant(top, st, tr.state, now);
    let (o, n2, st2) = eval_node(top, st, tr.state, now);
    let root2 = replace_at(tr.root, tr.path, n2);
    lemma_replace_at(tr.root, tr.path, n2);
    lemma_replace_bounded(tr.root, tr.path, n2);
    match o {
        EvalResult::MoveOut => {
            if tr.path.len() > 0 {
                lemma_path_prefix(root2, tr.path);
                lemma_path_parent_unit(root2, tr.path);
            }
        },
        EvalResult::MoveTo(k) => {
            lemma_path_extend(root2, tr.path, k);
            lemma_node_at_push(root2, tr.path, k);
        },
        _ => {},
    }
}

/// Minimum re-fire interval over a whole tick: while `now` is before the
/// recorded last execution `t` of `x` plus `m`, and every node named `x` in
/// the tree has a least delay of at least `m`, no step of the tick hands out
/// an action of `x`, and the record stays. Every tree the dispatcher holds is
/// at rest and bounded (see `lemma_view_bounded`), so this holds tick after
/// tick until the record changes.
pub proof fn lemma_tick_refire_gate<A>(
    tr: TreeView<A>,
    env: EnvView,
    running: Set<Seq<char>>,
    now: u64,
    fuel: nat,
    x: Seq<char>,
    m: u64,
    t: int,
)
    requires
        tree_ok(tr),
        bounded(tr.root),
        delay_at_least(tr.root, x, m),
        env.app.contains_key(executed_key(x)),
        env.app[executed_key(x)] == StateValue::Int(t),
        now < t + m,
    ensures
        ({
            let (os, t2, st2) = tick_spec(tr, env, running, now, fuel);
            &&& st2.env.app.contains_key(executed_key(x))
            &&& st2.env.app[executed_key(x)] == StateValue::Int(t)
            &&& forall|i: int| 0 <= i < st2.effects.len() ==> !((#[trigger] st2.effects[i]) matches EffectView::Spawn(
                y,
                _,
            ) && y == x)
        }),
    decreases fuel,
{
    if fuel > 0 {
        let (o, t1, st1) = step_tree(tr, env, running, now);
        lemma_step_refire_gate(tr, env, running, now, x, m, t);
        if !(o is Stay) {
            let f = (fuel - 1) as nat;
            lemma_step_keeps_tree_ok(tr, env, running, now);
            lemma_step_keeps_delays(tr, env, running, now, x, m);
            lemma_tick_refire_gate(t1, st1.env, st1.running, now, f, x, m, t);
            let st2 = tick_spec(t1, st1.env, st1.running, now, f).2;
            let all = st1.effects + st2.effects;
            assert forall|i: int| 0 <= i < all.len() implies !((#[trigger] all[i]) matches EffectView::Spawn(
                y,
                _,
            ) && y == x) by {
                if i >= st1.effects.len() {
                    assert(all[i] == st2.effects[i - st1.effects.len()]);
                }
            }
        }
    }
}

/// The run of an evaluation from `st` to `st2` hands out no action twice:
/// the names in flight only grow, earlier work is kept, and each action
/// handed out is under a name that was not in flight before and is in
/// flight after, and differs from that of every other action handed out.
pub open spec fn spawns_fresh<A>(st: EvalState<A>, st2: EvalState<A>) -> bool {
    &&& st.running.subset_of(st2.running)
    &&& st.effects.len() <= st2.effects.len()
    &&& st2.effects.subrange(0, st.effects.len() as int) == st.effects
    &&& forall|i: int|
        st.effects.len() <= i < st2.effects.len() ==> ((#[trigger] st2.effects[i]) matches EffectView::Spawn(x, _)
            ==> !st.running.contains(x) && st2.running.contains(x))
    &&& forall|i: int, j: int|
        st.effects.len() <= i < j < st2.effects.len() ==> ((#[trigger] st2.effects[i]) matches EffectView::Spawn(x, _)
            ==> ((#[trigger] st2.effects[j]) matches EffectView::Spawn(y, _) ==> x != y))
}

proof fn lemma_spawns_fresh_trans<A>(s1: EvalState<A>, s2: EvalState<A>, s3: EvalState<A>)
    requires
        spawns_fresh(s1, s2),
        spawns_fresh(s2, s3),
    ensures
        spawns_fresh(s1, s3),
{
    let n1 = s1.effects.len() as int;
    let n2 = s2.effects.len() as int;
    assert(s3.effects.subrange(0, n1) =~= s3.effects.subrange(0, n2).subrange(0, n1));
    assert forall|i: int| n1 <= i < n2 implies s3.effects[i] == s2.effects[i] by {
        assert(s3.effects.subrange(0, n2)[i] == s3.effects[i]);
    }
    assert forall|i: int|
        n1 <= i < s3.effects.len() implies ((#[trigger] s3.effects[i]) matches EffectView::Spawn(x, _)
            ==> !s1.running.contains(x) && s3.running.contains(x)) by {
        if i < n2 {
            assert(s3.effects[i] == s2.effects[i]);
        }
    }
    assert forall|i: int, j: int|
        n1 <= i < j < s3.effects.len() implies ((#[trigger] s3.effects[i]) matches EffectView::Spawn(x, _)
            ==> ((#[trigger] s3.effects[j]) matches EffectView::Spawn(y, _) ==> x != y)) by {
        if i < n2 {
            assert(s3.effects[i] == s2.effects[i]);
        }
        if j < n2 {
            assert(s3.effects[j] == s2.effects[j]);
        }
    }
}

proof fn lemma_spawns_fresh_push<A>(st: EvalState<A>, st2: EvalState<A>, e: EffectView<A>)
    requires
        st2.running == st.running,
        st2.effects == st.effects.push(e),
        !(e is Spawn),
    ensures
        spawns_fresh(st, st2),
{
    assert(st2.effects.subrange(0, st.effects.len() as int) =~= st.effects);
}

/// De-duplication: no evaluation of a node, at any depth of its tree, hands
/// out an action whose name is in flight, nor two actions of one name.
pub proof fn lemma_no_duplicate_spawn<A>(n: NodeView<A>, st: EvalState<A>, rts: RunningTreeState, now: u64)
    ensures
        spawns_fresh(st, eval_node(n, st, rts, now).2),
    decreases n,
{
    let out = eval_node(n, st, rts, now).2;
    if gate_blocks(n, st.env.app, st.running, now) {
        assert(out.effects.subrange(0, st.effects.len() as int) =~= st.effects);
    } else {
        let (r, n1) = eval_predicate(n, st.env, rts, now);
        match r {
            Err(_) => {
                lemma_spawns_fresh_push(st, out, EffectView::Fault(n.name()));
            },
            Ok(true) => match n1 {
                NodeView::Task(t) => {
                    assert(out.effects.subrange(0, st.effects.len() as int) =~= st.effects);
                    assert(!st.running.contains(n.name()));
                },
                NodeView::Unit { children, .. } => {
                    if !rts.currently_active {
                        assert(out.effects.subrange(0, st.effects.len() as int) =~= st.effects);
                    } else {
                        lemma_children_no_duplicate_spawn(children, st, rts.for_subtask(), now);
                    }
                },
            },
            Ok(false) => match n1 {
                NodeView::Unit { on_exit, .. } => {
                    if rts.currently_active && on_exit is Some {
                        let t = on_exit->0;
                        lemma_spawns_fresh_push(st, out, EffectView::RunExit(t.name, t.action));
                    } else {
                        assert(out.effects.subrange(0, st.effects.len() as int) =~= st.effects);
                    }
                },
                NodeView::Task(_) => {
                    assert(out.effects.subrange(0, st.effects.len() as int) =~= st.effects);
                },
            },
        }
    }
}

pub proof fn lemma_children_no_duplicate_spawn<A>(
    cs: Seq<NodeView<A>>,
    st: EvalState<A>,
    rts: RunningTreeState,
    now: u64,
)
    ensures
        spawns_fresh(st, eval_children(cs, st, rts, now).2),
    decreases cs,
{
    if cs.len() == 0 {
        assert(st.effects.subrange(0, st.effects.len() as int) =~= st.effects);
    } else {
        let (o, c0, st1) = eval_node(cs[0], st, rts, now);
        lemma_no_duplicate_spawn(cs[0], st, rts, now);
        if !(o is Enter) {
            let rest = cs.subrange(1, cs.len() as int);
            lemma_children_no_duplicate_spawn(rest, st1, rts, now);
            lemma_spawns_fresh_trans(st, st1, eval_children(rest, st1, rts, now).2);
        }
    }
}

/// De-duplication over a whole step of the scheduler on one tree.
pub proof fn lemma_step_no_duplicate_spawn<A>(t: TreeView<A>, env: EnvView, running: Set<Seq<char>>, now: u64)
    ensures
        ({
            let (o, t2, st2) = step_tree(t, env, running, now);
            spawns_fresh(EvalState { env, running, effects: Seq::empty() }, st2)
        }),
{
    lemma_no_duplicate_spawn(
        node_at(t.root, t.path),
        EvalState { env, running, effects: Seq::<EffectView<A>>::empty() },
        t.state,
        now,
    );
}

proof fn lemma_spawns_fresh_shift<A>(s: EvalState<A>, t: EvalState<A>)
    requires
        spawns_fresh(EvalState { effects: Seq::empty(), ..s }, t),
    ensures
        spawns_fresh(s, EvalState { effects: s.effects + t.effects, ..t }),
{
    let n = s.effects.len() as int;
    let u = EvalState { effects: s.effects + t.effects, ..t };
    let z = EvalState { effects: Seq::<EffectView<A>>::empty(), ..s };
    assert(u.effects.subrange(0, n) =~= s.effects);
    assert forall|i: int| n <= i < u.effects.len() implies ((#[trigger] u.effects[i]) matches EffectView::Spawn(
        x,
        _,
    ) ==> !s.running.contains(x) && u.running.contains(x)) by {
        assert(u.effects[i] == t.effects[i - n]);
        assert(z.effects.len() <= i - n < t.effects.len());
    }
    assert forall|i: int, j: int|
        n <= i < j < u.effects.len() implies ((#[trigger] u.effects[i]) matches EffectView::Spawn(x, _)
            ==> ((#[trigger] u.effects[j]) matches EffectView::Spawn(y, _) ==> x != y)) by {
        assert(u.effects[i] == t.effects[i - n]);
        assert(u.effects[j] == t.effects[j - n]);
        assert(z.effects.len() <= i - n < j - n < t.effects.len());
    }
}

/// De-duplication over a whole tick: no action is handed out under a name in
/// flight, nor twice under one name, and the names in flight only grow. The
/// dispatcher drops a name only in `action_finished`, so across ticks an
/// action is handed out again only after its previous run was reported done.
pub proof fn lemma_tick_no_duplicate_spawn<A>(
    t: TreeView<A>,
    env: EnvView,
    running: Set<Seq<char>>,
    now: u64,
    fuel: nat,
)
    ensures
        spawns_fresh(
            EvalState { env, running, effects: Seq::empty() },
            tick_spec(t, env, running, now, fuel).2,
        ),
    decreases fuel,
{
    let st0 = EvalState { env, running, effects: Seq::<EffectView<A>>::empty() };
    if fuel == 0 {
        assert(st0.effects.subrange(0, 0) =~= st0.effects);
    } else {
        let (o, t1, st1) = step_tree(t, env, running, now);
        lemma_step_no_duplicate_spawn(t, env, running, now);
        if !(o is Stay) {
            let f = (fuel - 1) as nat;
            lemma_tick_no_duplicate_spawn(t1, st1.env, st1.running, now, f);
            let st2 = tick_spec(t1, st1.env, st1.running, now, f).2;
            assert(EvalState { effects: Seq::<EffectView<A>>::empty(), ..st1 } == EvalState {
                env: st1.env,
                running: st1.running,
                effects: Seq::<EffectView<A>>::empty(),
            });
            lemma_spawns_fresh_shift(st1, st2);
            lemma_spawns_fresh_trans(st0, st1, EvalState { effects: st1.effects + st2.effects, ..st2 });
        }
    }
}

/// Exit round trip: when the active context at the top of a path below the
/// root finds its stay predicate false, the step pops it, hands out its exit
/// action once, and marks the new top as entered from below, on its first
/// iteration.
pub proof fn lemma_exit_round_trip<A>(t: TreeView<A>, env: EnvView, running: Set<Seq<char>>, now: u64)
    requires
        tree_ok(t),
        t.path.len() > 0,
        node_at(t.root, t.path) is Unit,
        !gate_blocks(node_at(t.root, t.path), env.app, running, now),
        eval_predicate(node_at(t.root, t.path), env, t.state, now).0 == Ok::<bool, ()>(false),
    ensures
        ({
            let (o, t2, st2) = step_tree(t, env, running, now);
            let top = node_at(t.root, t.path);
            &&& o == EvalResult::MoveOut
            &&& t2.path == t.path.drop_last()
            &&& t2.state.moved_in_from_back
            &&& t2.state.first_iteration_after_move
            &&& t2.state.currently_active
            &&& t2.root == replace_at(t.root, t.path, eval_predicate(top, env, t.state, now).1)
            &&& st2.env == env
            &&& st2.running == running
            &&& st2.effects == match top->on_exit {
                Some(x) => seq![EffectView::RunExit(x.name, x.action)],
                None => Seq::<EffectView<A>>::empty(),
            }
        }),
{
    let top = node_at(t.root, t.path);
    let st = EvalState { env, running, effects: Seq::<EffectView<A>>::empty() };
    assert(Seq::<EffectView<A>>::empty().push(EffectView::RunExit(top->on_exit->0.name, top->on_exit->0.action))
        =~= seq![EffectView::RunExit(top->on_exit->0.name, top->on_exit->0.action)]);
}

/// The transition flags last one step: a step that stays clears the
/// first-iteration flag and the returned-from-a-child flag, and keeps the path.
pub proof fn lemma_stay_clears_first<A>(t: TreeView<A>, env: EnvView, running: Set<Seq<char>>, now: u64)
    ensures
        ({
            let (o, t2, st2) = step_tree(t, env, running, now);
            o == EvalResult::Stay ==> {
                &&& !t2.state.first_iteration_after_move
                &&& !t2.state.moved_in_from_back
                &&& t2.path == t.path
            }
        }),
{
}

/// The active top of `tr` stays, and its first child is a context that is
/// not held back and whose entry predicate holds.
pub open spec fn enters_first_child<A>(tr: TreeView<A>, env: EnvView, running: Set<Seq<char>>, now: u64) -> bool {
    let top = node_at(tr.root, tr.path);
    let (r, top1) = eval_predicate(top, env, tr.state, now);
    &&& tr.state.currently_active
    &&& !gate_blocks(top, env.app, running, now)
    &&& r == Ok::<bool, ()>(true)
    &&& top1 matches NodeView::Unit { children, .. } && children.len() > 0 && children[0] is Unit
        && !gate_blocks(children[0], env.app, running, now) && eval_predicate(
        children[0],
        env,
        tr.state.for_subtask(),
        now,
    ).0 == Ok::<bool, ()>(true)
}

/// The active top of `tr` stays, and its child at position `k` is the first
/// of its children to ask to be entered.
pub open spec fn enters_child<A>(
    tr: TreeView<A>,
    env: EnvView,
    running: Set<Seq<char>>,
    now: u64,
    k: usize,
) -> bool {
    let top = node_at(tr.root, tr.path);
    let (r, top1) = eval_predicate(top, env, tr.state, now);
    &&& tr.state.currently_active
    &&& !gate_blocks(top, env.app, running, now)
    &&& r == Ok::<bool, ()>(true)
    &&& top1 matches NodeView::Unit { children, .. } && eval_children(
        children,
        EvalState { env, running, effects: Seq::empty() },
        tr.state.for_subtask(),
        now,
    ).0 == Some(k as int)
}

/// The active top of `tr` stays, and none of its children asks to be entered.
pub open spec fn stays_put<A>(tr: TreeView<A>, env: EnvView, running: Set<Seq<char>>, now: u64) -> bool {
    let top = node_at(tr.root, tr.path);
    let (r, top1) = eval_predicate(top, env, tr.state, now);
    &&& tr.state.currently_active
    &&& !gate_blocks(top, env.app, running, now)
    &&& r == Ok::<bool, ()>(true)
    &&& top1 matches NodeView::Unit { children, .. } && eval_children(
        children,
        EvalState { env, running, effects: Seq::empty() },
        tr.state.for_subtask(),
        now,
    ).0 is None
}

/// A first child that is a context, not held back, whose entry predicate
/// holds, is the first child to ask to be entered.
pub proof fn lemma_enters_first_child<A>(tr: TreeView<A>, env: EnvView, running: Set<Seq<char>>, now: u64)
    requires
        enters_first_child(tr, env, running, now),
    ensures
        enters_child(tr, env, running, now, 0),
{
    let top = node_at(tr.root, tr.path);
    let (r, top1) = eval_predicate(top, env, tr.state, now);
    let st = EvalState { env, running, effects: Seq::<EffectView<A>>::empty() };
    let children = top1->children;
    let sub = tr.state.for_subtask();
    assert(eval_node(children[0], st, sub, now).0 == EvalResult::Enter);
    assert(eval_children(children, st, sub, now).0 == Some(0int));
}

proof fn lemma_enters_child<A>(tr: TreeView<A>, env: EnvView, running: Set<Seq<char>>, now: u64, k: usize)
    requires
        enters_child(tr, env, running, now, k),
    ensures
        step_tree(tr, env, running, now).0 == EvalResult::MoveTo(k),
        step_tree(tr, env, running, now).1.path == tr.path.push(k),
{
    let top = node_at(tr.root, tr.path);
    let st = EvalState { env, running, effects: Seq::<EffectView<A>>::empty() };
    assert(eval_node(top, st, tr.state, now).0 == EvalResult::MoveTo(k));
}

proof fn lemma_stays_put<A>(tr: TreeView<A>, env: EnvView, running: Set<Seq<char>>, now: u64)
    requires
        stays_put(tr, env, running, now),
    ensures
        step_tree(tr, env, running, now).0 == EvalResult::Stay,
        step_tree(tr, env, running, now).1.path == tr.path,
{
    let top = node_at(tr.root, tr.path);
    let st = EvalState { env, running, effects: Seq::<EffectView<A>>::empty() };
    assert(eval_node(top, st, tr.state, now).0 == EvalResult::Stay);
}

/// Several levels in one tick: when the active context stays and enters its
/// child at position `a`, which once active stays and enters its own child at
/// position `b`, which once active stays with no child to enter, one tick
/// moves the active path two levels down, from the context to its grandchild.
pub proof fn lemma_two_levels_in_one_tick<A>(
    tr: TreeView<A>,
    env: EnvView,
    running: Set<Seq<char>>,
    now: u64,
    fuel: nat,
    a: usize,
    b: usize,
)
    requires
        fuel >= 3,
        enters_child(tr, env, running, now, a),
        ({
            let (_, t1, s1) = step_tree(tr, env, running, now);
            &&& enters_child(t1, s1.env, s1.running, now, b)
            &&& ({
                let (_, t2, s2) = step_tree(t1, s1.env, s1.running, now);
                stays_put(t2, s2.env, s2.running, now)
            })
        }),
    ensures
        tick_spec(tr, env, running, now, fuel).0 == seq![
            EvalResult::MoveTo(a),
            EvalResult::MoveTo(b),
            EvalResult::Stay,
        ],
        tick_spec(tr, env, running, now, fuel).1.path == tr.path.push(a).push(b),
{
    let (o1, t1, s1) = step_tree(tr, env, running, now);
    let (o2, t2, s2) = step_tree(t1, s1.env, s1.running, now);
    lemma_enters_child(tr, env, running, now, a);
    lemma_enters_child(t1, s1.env, s1.running, now, b);
    lemma_stays_put(t2, s2.env, s2.running, now);
    let f1 = (fuel - 1) as nat;
    let f2 = (f1 - 1) as nat;
    assert(tick_spec(t2, s2.env, s2.running, now, f2).0 == seq![EvalResult::Stay]);
    assert(tick_spec(t1, s1.env, s1.running, now, f1).0 =~= seq![EvalResult::MoveTo(b), EvalResult::Stay]);
    assert(tick_spec(tr, env, running, now, fuel).0 =~= seq![
        EvalResult::MoveTo(a),
        EvalResult::MoveTo(b),
        EvalResult::Stay,
    ]);
}

/// Named-state comparison on a key that is not there fails, without a fault.
pub proof fn lemma_missing_key(
    key: Seq<char>,
    value: StateValue,
    env: EnvView,
    rts: RunningTreeState,
    now: u64,
)
    requires
        !env.app.contains_key(key),
    ensures
        eval_view(CondView::App(key, value), env, rts, now) == (
            Ok::<bool, ()>(false),
            CondView::App(key, value),
        ),
{
}

} // verus!
