use vstd::prelude::*;

use crate::conditions::{
    requirement_views, requirements, AllwaysTrue, AutomaticltInitializable, CondView, Condition,
    RequirementView,
};
use crate::dispatcher::executed_key;
use crate::environment::{empty_env, EnvView, Environment};
use crate::errors::TaskError;
use crate::logger::LogLevel;
use crate::tasks::{lemma_node_views, node_views, ConditionalTypes, NodeView, Task, TaskView, Unit};
use crate::types::{default_of, InputPinHandler, OutputPinHandler, StateType, StateValue};

verus! {

/// Registers one requirement unless it is registered already: an
/// application-state key gets the default of its variant, a pin a fresh snapshot.
pub open spec fn init_req(e: EnvView, r: RequirementView, now: u64) -> EnvView {
    match r {
        RequirementView::App(k, v) => if e.app.contains_key(k) {
            e
        } else {
            EnvView { app: e.app.insert(k, default_of(v)), ..e }
        },
        RequirementView::Pin(p, is_output) => if is_output {
            if e.outputs[p as int] is Some {
                e
            } else {
                EnvView {
                    outputs: e.outputs.update(p as int, Some(OutputPinHandler::new_spec(now))),
                    ..e
                }
            }
        } else {
            if e.inputs[p as int] is Some {
                e
            } else {
                EnvView {
                    inputs: e.inputs.update(p as int, Some(InputPinHandler::new_spec(now))),
                    ..e
                }
            }
        },
    }
}

/// Registers the requirements `rs` in order.
pub open spec fn init_reqs(e: EnvView, rs: Seq<RequirementView>, now: u64) -> EnvView
    decreases rs.len(),
{
    if rs.len() == 0 {
        e
    } else {
        init_req(init_reqs(e, rs.drop_last(), now), rs.last(), now)
    }
}

pub open spec fn opt_requirements(c: Option<CondView>) -> Seq<RequirementView> {
    match c {
        Some(c) => requirements(c),
        None => Seq::empty(),
    }
}

/// What the predicates of a node need: those of its entry predicate, then
/// those of its stay predicate.
pub open spec fn node_requirements<A>(n: NodeView<A>) -> Seq<RequirementView> {
    match n {
        NodeView::Task(t) => opt_requirements(t.cond),
        NodeView::Unit { cond, stay, .. } => opt_requirements(cond) + opt_requirements(stay),
    }
}

/// The sentinel execution time of a node that never ran.
pub open spec fn never_executed() -> StateValue {
    StateValue::Int(-1)
}

/// Prepares the world state for a tree, depth first: the node's requirements,
/// the sentinel execution time under its name, then its children in order.
pub open spec fn init_node<A>(e: EnvView, n: NodeView<A>, now: u64) -> EnvView
    decreases n,
{
    let e1 = init_reqs(e, node_requirements(n), now);
    let e2 = EnvView { app: e1.app.insert(executed_key(n.name()), never_executed()), ..e1 };
    match n {
        NodeView::Unit { children, .. } => init_nodes(e2, children, now),
        NodeView::Task(_) => e2,
    }
}

/// Prepares the world state for the trees `cs`, in order.
pub open spec fn init_nodes<A>(e: EnvView, cs: Seq<NodeView<A>>, now: u64) -> EnvView
    decreases cs,
{
    if cs.len() == 0 {
        e
    } else {
        init_nodes(init_node(e, cs[0], now), cs.subrange(1, cs.len() as int), now)
    }
}

fn apply_requirements(env: &mut Environment, reqs: &Vec<AutomaticltInitializable>, now: u64)
    ensures
        final(env)@ == init_reqs(old(env)@, requirement_views(reqs@), now),
{
    let ghost rv = requirement_views(reqs@);
    let mut i: usize = 0;
    proof {
        assert(rv.subrange(0, 0) =~= Seq::<RequirementView>::empty());
    }
    while i < reqs.len()
        invariant
            i <= reqs.len(),
            rv == requirement_views(reqs@),
            env@ == init_reqs(old(env)@, rv.subrange(0, i as int), now),
        decreases reqs.len() - i,
    {
        let ghost e0 = env@;
        match &reqs[i] {
            AutomaticltInitializable::AppCondition(key, value) => {
                if !env.app_state().contains_key(key) {
                    env.set_state(key.clone(), value.as_default());
                }
            },
            AutomaticltInitializable::DigitalGpioCondition(pin, is_output) => {
                if *is_output {
                    env.add_output_gpio(*pin, now);
                } else {
                    env.add_input_gpio(*pin, now);
                }
            },
        }
        proof {
            let p = rv.subrange(0, i + 1);
            assert(p.drop_last() =~= rv.subrange(0, i as int));
            assert(p.last() == reqs@[i as int]@);
            assert(env@ == init_req(e0, reqs@[i as int]@, now));
        }
        i += 1;
    }
    proof {
        assert(rv.subrange(0, reqs.len() as int) =~= rv);
    }
}

pub proof fn lemma_init_reqs_append(e: EnvView, a: Seq<RequirementView>, b: Seq<RequirementView>, now: u64)
    ensures
        init_reqs(e, a + b, now) == init_reqs(init_reqs(e, a, now), b, now),
    decreases b.len(),
{
    if b.len() == 0 {
        assert(a + b =~= a);
    } else {
        lemma_init_reqs_append(e, a, b.drop_last(), now);
        assert((a + b).drop_last() =~= a + b.drop_last());
        assert((a + b).last() == b.last());
    }
}

fn condition_requirements(c: &Option<Condition>) -> (r: Vec<AutomaticltInitializable>)
    ensures
        requirement_views(r@) == opt_requirements(crate::tasks::opt_cond_view(*c)),
{
    match c {
        Some(c) => c.as_automaticlt_initializable(),
        None => {
            let r = Vec::new();
            assert(requirement_views(r@) =~= Seq::<RequirementView>::empty());
            r
        },
    }
}

/// Prepares `env` for the tree `node`; see [`init_node`].
pub fn initialize_node<A>(env: &mut Environment, node: &ConditionalTypes<A>, now: u64)
    ensures
        final(env)@ == init_node(old(env)@, node@, now),
    decreases node,
{
    let ghost e0 = env@;
    match node {
        ConditionalTypes::Task(t) => {
            let reqs = condition_requirements(&t.conditions);
            apply_requirements(env, &reqs, now);
        },
        ConditionalTypes::TaskContext(u) => {
            let entry = condition_requirements(&u.condition);
            let stay = condition_requirements(&u.stay_condition);
            apply_requirements(env, &entry, now);
            apply_requirements(env, &stay, now);
            proof {
                lemma_init_reqs_append(e0, requirement_views(entry@), requirement_views(stay@), now);
            }
        },
    }
    let key = node.get_name().clone().concat("_executed");
    env.set_state(key, StateType::Int(-1));
    if let ConditionalTypes::TaskContext(u) = node {
        initialize_nodes(env, &u.subunits, now);
    }
}

/// Prepares `env` for the trees `nodes`, in order; see [`init_nodes`].
pub fn initialize_nodes<A>(env: &mut Environment, nodes: &Vec<ConditionalTypes<A>>, now: u64)
    ensures
        final(env)@ == init_nodes(old(env)@, node_views(nodes@), now),
    decreases nodes,
{
    let ghost vs = node_views(nodes@);
    let ghost n = nodes.len() as int;
    proof {
        lemma_node_views(nodes@);
        assert(vs.subrange(0, n) =~= vs);
    }
    let mut i: usize = 0;
    while i < nodes.len()
        invariant
            i <= nodes.len(),
            n == nodes.len(),
            vs == node_views(nodes@),
            vs.len() == n,
            forall|j: int| 0 <= j < n ==> vs[j] == (#[trigger] nodes@[j])@,
            init_nodes(old(env)@, vs, now) == init_nodes(env@, vs.subrange(i as int, n), now),
        decreases nodes.len() - i,
    {
        proof {
            vstd::std_specs::vec::axiom_vec_index_decreases(*nodes, i as int);
            let s = vs.subrange(i as int, n);
            assert(s[0] == vs[i as int]);
            assert(s.subrange(1, s.len() as int) =~= vs.subrange(i + 1, n));
        }
        initialize_node(env, &nodes[i], now);
        i += 1;
    }
}

/// Registers the output pins `pins` in order, each unless registered already.
pub open spec fn add_outputs(e: EnvView, pins: Seq<u8>, now: u64) -> EnvView
    decreases pins.len(),
{
    if pins.len() == 0 {
        e
    } else {
        init_req(add_outputs(e, pins.drop_last(), now), RequirementView::Pin(pins.last(), true), now)
    }
}

/// The options of a suite.
pub struct SutieOptions {
    /// Milliseconds between two dumps of the world state, if dumps are wanted.
    pub periodicly_print_state_to_file: Option<u64>,
    /// Nanoseconds to sleep between two ticks.
    pub sleep_time: Option<u64>,
    pub log_file: Option<String>,
    pub log_level: LogLevel,
    /// Reserved; has no effect.
    pub ignore_errors_when_possible: bool,
    pub config_file: Option<String>,
    pub lcd_driver: Option<String>,
}

/// The default options: ticks every 250 ms, `Info` messages and above, no
/// dump, no log file, no configuration file and no display.
pub open spec fn default_options(o: SutieOptions) -> bool {
    &&& o.periodicly_print_state_to_file is None
    &&& o.sleep_time == Some(250_000_000u64)
    &&& o.log_file is None
    &&& o.log_level == LogLevel::Info
    &&& !o.ignore_errors_when_possible
    &&& o.config_file is None
    &&& o.lcd_driver is None
}

impl SutieOptions {
    pub fn new() -> (r: SutieOptions)
        ensures
            default_options(r),
    {
        SutieOptions {
            periodicly_print_state_to_file: None,
            sleep_time: Some(250_000_000),
            log_file: None,
            log_level: LogLevel::Info,
            ignore_errors_when_possible: false,
            config_file: None,
            lcd_driver: None,
        }
    }
}

/// The name of the task that dumps the world state.
pub open spec fn state_writer_name() -> Seq<char> {
    "periodic_print_state_to_file"@
}

/// The root context that a suite puts above the trees of one name: always
/// entered and never left.
pub open spec fn root_unit<A>(children: Seq<NodeView<A>>) -> NodeView<A> {
    NodeView::Unit {
        name: "root"@,
        cond: Some(CondView::AllwaysTrue(AllwaysTrue::new_spec())),
        stay: Some(CondView::AllwaysTrue(AllwaysTrue::new_spec())),
        children,
        on_exit: None,
    }
}

/// The task that dumps the world state every `delay` milliseconds.
pub open spec fn state_writer_task<A>(action: A, delay: u64) -> NodeView<A> {
    NodeView::Task(
        TaskView {
            name: state_writer_name(),
            cond: Some(CondView::AllwaysTrue(AllwaysTrue::new_spec())),
            action: Some(action),
            min_delay: delay,
        },
    )
}

/// A set of named task trees with the world state prepared for them.
pub struct Suite<A> {
    pub structure: Environment,
    pub tasks: Vec<(String, ConditionalTypes<A>)>,
    pub config_path: Option<String>,
    pub suite_options: SutieOptions,
}

pub open spec fn root_views<A>(tasks: Seq<(String, ConditionalTypes<A>)>) -> Seq<NodeView<A>> {
    tasks.map_values(|t: (String, ConditionalTypes<A>)| t.1@)
}

impl<A> Suite<A> {
    /// Builds a suite at time `now`: the trees of each name go under a root
    /// context of their own; with periodic dumps, the task that runs
    /// `state_writer` is added under its own name; the world state is then
    /// prepared for every tree, and the pins of `output_gpio` are registered.
    pub fn new(
        tasks: Vec<(String, Vec<ConditionalTypes<A>>)>,
        output_gpio: Option<Vec<u8>>,
        options: Option<SutieOptions>,
        state_writer: A,
        now: u64,
    ) -> (r: Suite<A>)
        ensures
            r.tasks@.len() == tasks@.len() + if r.suite_options.periodicly_print_state_to_file is Some {
                1int
            } else {
                0
            },
            forall|i: int|
                0 <= i < tasks@.len() ==> (#[trigger] r.tasks@[i]).0 == tasks@[i].0 && r.tasks@[i].1@
                    == root_unit(node_views(tasks@[i].1@)),
            r.suite_options.periodicly_print_state_to_file matches Some(d) ==> r.tasks@.last().0@
                == state_writer_name() && r.tasks@.last().1@ == state_writer_task(state_writer, d),
            options matches Some(o) ==> r.suite_options == o,
            options is None ==> default_options(r.suite_options),
            r.config_path == r.suite_options.config_file,
            r.structure@ == add_outputs(
                init_nodes(empty_env(), root_views(r.tasks@), now),
                match output_gpio {
                    Some(v) => v@,
                    None => Seq::empty(),
                },
                now,
            ),
    {
        let options = match options {
            Some(o) => o,
            None => SutieOptions::new(),
        };
        let mut tasks = tasks;
        let ghost all = tasks@;
        let mut layers: Vec<(String, ConditionalTypes<A>)> = Vec::new();
        while tasks.len() > 0
            invariant
                layers.len() + tasks.len() == all.len(),
                tasks@ == all.subrange(layers.len() as int, all.len() as int),
                forall|i: int|
                    0 <= i < layers.len() ==> (#[trigger] layers@[i]).0 == all[i].0 && layers@[i].1@
                        == root_unit(node_views(all[i].1@)),
            decreases tasks.len(),
        {
            let (key, value) = tasks.remove(0);
            let root = Unit::new(String::from_str("root"))
                .when_condition(AllwaysTrue::new().into_condition())
                .stay_while_condition(AllwaysTrue::new().into_condition())
                .subunits(value)
                .to_eveluatable();
            proof {
                reveal_strlit("root");
                assert(Seq::<NodeView<A>>::empty() + node_views(value@) =~= node_views(value@));
            }
            layers.push((key, root));
            assert(tasks@ =~= all.subrange(layers.len() as int, all.len() as int));
        }
        if let Some(delay) = options.periodicly_print_state_to_file {
            let writer = Task::new(String::from_str("periodic_print_state_to_file"))
                .when_condition(AllwaysTrue::new().into_condition())
                .with_action(state_writer)
                .with_min_delay_between_exec(delay);
            layers.push((String::from_str("periodic_print_state_to_file"), writer.to_eveluatable()));
        }
        let mut env = Environment::new();
        let ghost roots = root_views(layers@);
        let ghost n = layers.len() as int;
        proof {
            assert(roots.subrange(0, n) =~= roots);
        }
        let mut i: usize = 0;
        while i < layers.len()
            invariant
                i <= layers.len(),
                n == layers.len(),
                roots == root_views(layers@),
                init_nodes(empty_env(), roots, now) == init_nodes(env@, roots.subrange(i as int, n), now),
            decreases layers.len() - i,
        {
            proof {
                let s = roots.subrange(i as int, n);
                assert(s[0] == roots[i as int]);
                assert(s.subrange(1, s.len() as int) =~= roots.subrange(i + 1, n));
            }
            initialize_node(&mut env, &layers[i].1, now);
            i += 1;
        }
        proof {
            assert(roots.subrange(n, n) =~= Seq::<NodeView<A>>::empty());
        }
        let ghost base = env@;
        if let Some(pins) = output_gpio {
            let mut j: usize = 0;
            proof {
                assert(pins@.subrange(0, 0) =~= Seq::<u8>::empty());
            }
            while j < pins.len()
                invariant
                    j <= pins.len(),
                    env@ == add_outputs(base, pins@.subrange(0, j as int), now),
                decreases pins.len() - j,
            {
                env.add_output_gpio(pins[j], now);
                proof {
                    let p = pins@.subrange(0, j + 1);
                    assert(p.drop_last() =~= pins@.subrange(0, j as int));
                }
                j += 1;
            }
            proof {
                assert(pins@.subrange(0, pins.len() as int) =~= pins@);
            }
        }
        let config_path = match &options.config_file {
            Some(p) => Some(p.clone()),
            None => None,
        };
        Suite { structure: env, tasks: layers, config_path, suite_options: options }
    }
}

/// A value of a configuration file.
pub enum ConfigValue {
    Str(String),
    Number(i64),
    Bool(bool),
    /// An array, an object or null: no value of the application state.
    Unsupported,
}

/// A parsed configuration file.
pub enum ConfigDocument {
    /// An object: its keys and values in order.
    Object(Vec<(String, ConfigValue)>),
    /// Any other JSON value.
    NotObject,
}

pub open spec fn config_state_value(v: ConfigValue) -> StateValue {
    match v {
        ConfigValue::Str(s) => StateValue::Str(s@),
        ConfigValue::Number(n) => StateValue::Int(n as int),
        ConfigValue::Bool(b) => StateValue::Bool(b),
        ConfigValue::Unsupported => StateValue::Int(0),
    }
}

/// The configuration can be merged: an object of strings, numbers and booleans.
pub open spec fn config_ok(doc: ConfigDocument) -> bool {
    match doc {
        ConfigDocument::Object(entries) => forall|i: int|
            0 <= i < entries@.len() ==> !((#[trigger] entries@[i]).1 is Unsupported),
        ConfigDocument::NotObject => false,
    }
}

/// The application state with the entries stored in order.
pub open spec fn merged(app: Map<Seq<char>, StateValue>, entries: Seq<(String, ConfigValue)>) -> Map<
    Seq<char>,
    StateValue,
>
    decreases entries.len(),
{
    if entries.len() == 0 {
        app
    } else {
        merged(app, entries.drop_last()).insert(
            entries.last().0@,
            config_state_value(entries.last().1),
        )
    }
}

fn state_value_of(v: &ConfigValue) -> (r: StateType)
    requires
        !(*v is Unsupported),
    ensures
        r@ == config_state_value(*v),
{
    match v {
        ConfigValue::Str(s) => StateType::Str(s.clone()),
        ConfigValue::Number(n) => StateType::Int(*n),
        ConfigValue::Bool(b) => StateType::Bool(*b),
        ConfigValue::Unsupported => StateType::Int(0),
    }
}

/// Merges a configuration into the application state. Fails, leaving the
/// world state as it was, unless the configuration is an object whose values
/// are strings, numbers and booleans.
pub fn json_config_loader(env: &mut Environment, config: &ConfigDocument) -> (r: Result<(), TaskError>)
    ensures
        r is Ok == config_ok(*config),
        r is Ok ==> final(env)@ == (EnvView {
            app: merged(old(env)@.app, config->Object_0@),
            ..old(env)@
        }),
        r is Err ==> final(env)@ == old(env)@,
        r is Err ==> r->Err_0 is SystemError,
{
    match config {
        ConfigDocument::Object(entries) => {
            let mut i: usize = 0;
            while i < entries.len()
                invariant
                    i <= entries.len(),
                    forall|j: int| 0 <= j < i ==> !((#[trigger] entries@[j]).1 is Unsupported),
                    *config == ConfigDocument::Object(*entries),
                decreases entries.len() - i,
            {
                if let ConfigValue::Unsupported = entries[i].1 {
                    assert(entries@[i as int].1 is Unsupported);
                    assert(!config_ok(*config));
                    return Err(TaskError::SystemError { comment: String::from_str("Unsupported JSON value type") });
                }
                i += 1;
            }
            let mut k: usize = 0;
            let ghost e0 = env@;
            proof {
                assert(entries@.subrange(0, 0) =~= Seq::<(String, ConfigValue)>::empty());
                assert(e0 == EnvView { app: merged(e0.app, entries@.subrange(0, 0)), ..e0 });
            }
            while k < entries.len()
                invariant
                    k <= entries.len(),
                    config_ok(*config),
                    *config == ConfigDocument::Object(*entries),
                    env@ == (EnvView { app: merged(e0.app, entries@.subrange(0, k as int)), ..e0 }),
                decreases entries.len() - k,
            {
                assert(!(entries@[k as int].1 is Unsupported));
                let value = state_value_of(&entries[k].1);
                env.set_state(entries[k].0.clone(), value);
                proof {
                    let p = entries@.subrange(0, k + 1);
                    assert(p.drop_last() =~= entries@.subrange(0, k as int));
                }
                k += 1;
            }
            proof {
                assert(entries@.subrange(0, entries.len() as int) =~= entries@);
            }
            Ok(())
        },
        ConfigDocument::NotObject => Err(
            TaskError::SystemError {
                comment: String::from_str("Invalid JSON format; Only OBJECT.<key> = str|int|bool"),
            },
        ),
    }
}

} // verus!
