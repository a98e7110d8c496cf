use embedded_task_dispatcher::conditions::{AllwaysTrue, AppCondition, TreeCondition};
use embedded_task_dispatcher::dispatcher::{evaluate, Dispatcher, Effect, EvalResult, InFlight};
use embedded_task_dispatcher::environment::Environment;
use embedded_task_dispatcher::evaluator::RunningTreeState;
use embedded_task_dispatcher::tasks::{ConditionalTypes, Task, Unit};
use embedded_task_dispatcher::types::StateType;

fn always() -> embedded_task_dispatcher::conditions::Condition {
    AllwaysTrue::new().into_condition()
}

fn root_with(children: Vec<ConditionalTypes<u32>>) -> ConditionalTypes<u32> {
    Unit::new("root".to_string())
        .when_condition(always())
        .stay_while_condition(always())
        .subunits(children)
        .to_eveluatable()
}

/// Steps the tree until a step stays, as one tick does; returns the transitions and the effects.
fn tick(d: &mut Dispatcher<u32>, env: &mut Environment, now: u64) -> (Vec<EvalResult>, Vec<Effect<u32>>) {
    let mut transitions = Vec::new();
    let mut effects = Vec::new();
    for _ in 0..20 {
        let out = d.step(0, env, now).expect("tree 0 exists");
        transitions.push(out.transition);
        effects.extend(out.effects);
        if out.transition == EvalResult::Stay {
            break;
        }
    }
    (transitions, effects)
}

fn spawned(effects: &[Effect<u32>]) -> Vec<String> {
    effects
        .iter()
        .filter_map(|e| match e {
            Effect::Spawn { name, .. } => Some(name.clone()),
            _ => None,
        })
        .collect()
}

#[test]
fn two_levels_are_entered_in_one_tick() {
    let b = Unit::new("B".to_string()).when_condition(always()).to_eveluatable();
    let a = Unit::new("A".to_string()).when_condition(always()).subunit(b).to_eveluatable();
    let mut d = Dispatcher::new(vec![root_with(vec![a])]);
    let mut env = Environment::new();
    assert_eq!(d.active_path(0), Some(vec![]));
    let (transitions, _) = tick(&mut d, &mut env, 1000);
    assert_eq!(transitions, vec![EvalResult::MoveTo(0), EvalResult::MoveTo(0), EvalResult::Stay]);
    assert_eq!(d.active_path(0), Some(vec![0, 0]));
    let state = d.tree_state(0).unwrap();
    assert!(!state.first_iteration_after_move);
    assert!(!state.moved_in_from_back);
}

#[test]
fn leaving_a_context_runs_its_exit_action_once() {
    let leaf = Task::new("work".to_string()).with_action(1u32).to_eveluatable();
    let a = Unit::new("A".to_string())
        .when_condition(AppCondition::new("mode".to_string(), StateType::Str("on".to_string())).into_condition())
        .stay_while_condition(AppCondition::new("mode".to_string(), StateType::Str("on".to_string())).into_condition())
        .subunit(leaf)
        .on_exit(Task::new("bye".to_string()).with_action(7u32))
        .to_eveluatable();
    let mut d = Dispatcher::new(vec![root_with(vec![a])]);
    let mut env = Environment::new();
    env.set_state("mode".to_string(), StateType::Str("on".to_string()));
    let (t1, _) = tick(&mut d, &mut env, 1000);
    assert_eq!(t1, vec![EvalResult::MoveTo(0), EvalResult::Stay]);
    assert_eq!(d.active_path(0), Some(vec![0]));

    env.set_state("mode".to_string(), StateType::Str("off".to_string()));
    let out = d.step(0, &mut env, 2000).unwrap();
    assert_eq!(out.transition, EvalResult::MoveOut);
    assert_eq!(out.effects.len(), 1);
    match &out.effects[0] {
        Effect::RunExit { name, action } => {
            assert_eq!(name, "bye");
            assert_eq!(*action, Some(7));
        }
        _ => panic!("expected the exit action"),
    }
    assert_eq!(d.active_path(0), Some(vec![]));
    let s = d.tree_state(0).unwrap();
    assert!(s.moved_in_from_back && s.first_iteration_after_move);

    let next = d.step(0, &mut env, 2000).unwrap();
    assert_eq!(next.transition, EvalResult::Stay);
    assert!(next.effects.is_empty());
    let s = d.tree_state(0).unwrap();
    assert!(!s.first_iteration_after_move);
    assert!(!s.moved_in_from_back);
}

#[test]
fn leaf_is_not_refired_before_its_least_delay() {
    let leaf = Task::new("blink".to_string())
        .when_condition(always())
        .with_action(3u32)
        .with_min_delay_between_exec(1000)
        .to_eveluatable();
    let mut d = Dispatcher::new(vec![root_with(vec![leaf])]);
    let mut env = Environment::new();
    let (_, e1) = tick(&mut d, &mut env, 10_000);
    assert_eq!(spawned(&e1), vec!["blink".to_string()]);
    assert!(*env.app_state().get(&"blink_executed".to_string()).unwrap() == StateType::Int(10_000));
    d.action_finished(&"blink".to_string());
    let (_, e2) = tick(&mut d, &mut env, 10_500);
    assert!(spawned(&e2).is_empty());
    let (_, e3) = tick(&mut d, &mut env, 10_999);
    assert!(spawned(&e3).is_empty());
    let (_, e4) = tick(&mut d, &mut env, 11_000);
    assert_eq!(spawned(&e4), vec!["blink".to_string()]);
}

#[test]
fn running_action_is_not_spawned_twice() {
    let leaf = Task::new("pump".to_string()).when_condition(always()).with_action(5u32).to_eveluatable();
    let twin = Task::new("pump".to_string()).when_condition(always()).with_action(6u32).to_eveluatable();
    let mut d = Dispatcher::new(vec![root_with(vec![leaf, twin])]);
    let mut env = Environment::new();
    let (_, e1) = tick(&mut d, &mut env, 100);
    assert_eq!(spawned(&e1), vec!["pump".to_string()]);
    assert!(d.is_running(&"pump".to_string()));
    let (_, e2) = tick(&mut d, &mut env, 5000);
    assert!(spawned(&e2).is_empty());
    d.action_finished(&"pump".to_string());
    assert!(!d.is_running(&"pump".to_string()));
    let (_, e3) = tick(&mut d, &mut env, 6000);
    assert_eq!(spawned(&e3), vec!["pump".to_string()]);
}

#[test]
fn leaf_without_predicate_never_fires() {
    let leaf = Task::new("idle".to_string()).with_action(1u32).to_eveluatable();
    let mut d = Dispatcher::new(vec![root_with(vec![leaf])]);
    let mut env = Environment::new();
    let (t, e) = tick(&mut d, &mut env, 100);
    assert_eq!(t, vec![EvalResult::Stay]);
    assert!(e.is_empty());
}

#[test]
fn predicate_fault_is_reported_and_stays() {
    let leaf = Task::new("sensor".to_string())
        .when_condition(embedded_task_dispatcher::conditions::DigitalGpioCondition::new_input(9).into_condition())
        .with_action(1u32)
        .to_eveluatable();
    let mut d = Dispatcher::new(vec![root_with(vec![leaf])]);
    let mut env = Environment::new();
    let (t, e) = tick(&mut d, &mut env, 100);
    assert_eq!(t, vec![EvalResult::Stay]);
    assert_eq!(e.len(), 1);
    assert!(matches!(&e[0], Effect::Fault { name, .. } if name == "sensor"));
}

#[test]
fn direction_predicate_sees_the_return_from_a_child() {
    let leave_at_once = Unit::new("C".to_string())
        .when_condition(AllwaysTrue::new().on_flank().into_condition())
        .stay_while_condition(TreeCondition::new_when_moving_up().into_condition())
        .to_eveluatable();
    let mut d = Dispatcher::new(vec![root_with(vec![leave_at_once])]);
    let mut env = Environment::new();
    let out = d.step(0, &mut env, 1).unwrap();
    assert_eq!(out.transition, EvalResult::MoveTo(0));
    let out = d.step(0, &mut env, 1).unwrap();
    assert_eq!(out.transition, EvalResult::Stay);
    assert_eq!(d.active_path(0), Some(vec![0]));
}

#[test]
fn evaluate_runs_a_leaf_directly() {
    let mut leaf = Task::new("x".to_string()).when_condition(always()).with_action(9u32).to_eveluatable();
    let mut env = Environment::new();
    let mut running = InFlight::new();
    let mut effects = Vec::new();
    let o = evaluate(&mut leaf, &mut env, &mut running, &mut effects, &RunningTreeState::new(), 42);
    assert_eq!(o, EvalResult::Stay);
    assert!(running.contains(&"x".to_string()));
    assert_eq!(effects.len(), 1);
    assert!(*env.app_state().get(&"x_executed".to_string()).unwrap() == StateType::Int(42));
    running.remove(&"x".to_string());
    assert!(!running.contains(&"x".to_string()));
}

#[test]
fn step_on_a_missing_tree_is_none() {
    let mut d: Dispatcher<u32> = Dispatcher::new(vec![]);
    let mut env = Environment::new();
    assert!(d.step(0, &mut env, 0).is_none());
    assert_eq!(d.len(), 0);
    assert_eq!(d.active_path(3), None);
}

#[test]
fn one_tick_enters_two_levels() {
    let b = Unit::new("B".to_string()).when_condition(always()).to_eveluatable();
    let a = Unit::new("A".to_string()).when_condition(always()).subunit(b).to_eveluatable();
    let mut d = Dispatcher::new(vec![root_with(vec![a])]);
    let mut env = Environment::new();
    let out = d.tick(0, &mut env, 1000, 50).unwrap();
    assert_eq!(out.transitions, vec![EvalResult::MoveTo(0), EvalResult::MoveTo(0), EvalResult::Stay]);
    assert!(out.effects.is_empty());
    assert_eq!(d.active_path(0), Some(vec![0, 0]));
    assert_eq!(d.active_name(0), Some("B".to_string()));
    assert!(d.tick(1, &mut env, 1000, 50).is_none());
}

#[test]
fn tick_stops_after_its_step_budget() {
    let b = Unit::new("B".to_string()).when_condition(always()).to_eveluatable();
    let a = Unit::new("A".to_string()).when_condition(always()).subunit(b).to_eveluatable();
    let mut d = Dispatcher::new(vec![root_with(vec![a])]);
    let mut env = Environment::new();
    let out = d.tick(0, &mut env, 1000, 1).unwrap();
    assert_eq!(out.transitions, vec![EvalResult::MoveTo(0)]);
    assert_eq!(d.active_name(0), Some("A".to_string()));
}

#[test]
fn return_from_a_child_is_seen_for_one_tick_only() {
    let on_return = Task::new("returned".to_string())
        .when_condition(TreeCondition::new_when_moving_down().into_condition())
        .with_action(2u32)
        .to_eveluatable();
    let child = Unit::new("child".to_string())
        .when_condition(AppCondition::new("go".to_string(), StateType::Bool(true)).into_condition())
        .to_eveluatable();
    let mut d = Dispatcher::new(vec![root_with(vec![child, on_return])]);
    let mut env = Environment::new();
    env.set_state("go".to_string(), StateType::Bool(true));
    let (t1, _) = tick(&mut d, &mut env, 10);
    assert_eq!(t1, vec![EvalResult::MoveTo(0), EvalResult::Stay]);
    env.set_state("go".to_string(), StateType::Bool(false));
    let (t2, _) = tick(&mut d, &mut env, 20);
    assert_eq!(t2, vec![EvalResult::MoveOut, EvalResult::Stay]);
    let s = d.tree_state(0).unwrap();
    assert!(!s.moved_in_from_back && !s.first_iteration_after_move);
    let (t3, e3) = tick(&mut d, &mut env, 30);
    assert_eq!(t3, vec![EvalResult::Stay]);
    assert!(spawned(&e3).is_empty());
}
