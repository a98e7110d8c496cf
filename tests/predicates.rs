use embedded_task_dispatcher::conditions::{
    AllwaysTrue, AppCondition, AutomaticltInitializable, Condition, DigitalGpioCondition, Gates,
    TreeCondition,
};
use embedded_task_dispatcher::environment::Environment;
use embedded_task_dispatcher::errors::TaskError;
use embedded_task_dispatcher::evaluator::RunningTreeState;
use embedded_task_dispatcher::types::StateType;

fn rearm() -> RunningTreeState {
    RunningTreeState { moved_in_from_back: false, first_iteration_after_move: true, currently_active: true }
}

fn settled() -> RunningTreeState {
    RunningTreeState { moved_in_from_back: false, first_iteration_after_move: false, currently_active: true }
}

#[test]
fn edge_literal_fires_once_per_rearm() {
    let env = Environment::new();
    let mut c = AllwaysTrue::new().on_flank().into_condition();
    assert_eq!(c.eval(&env, &rearm(), 100).ok(), Some(true));
    for t in 101..150u64 {
        assert_eq!(c.eval(&env, &settled(), t).ok(), Some(false));
    }
    assert_eq!(c.eval(&env, &rearm(), 200).ok(), Some(true));
    assert_eq!(c.eval(&env, &settled(), 201).ok(), Some(false));
}

#[test]
fn delayed_literal_waits_from_rearm() {
    let env = Environment::new();
    let mut c = AllwaysTrue::new().after_delay(1000).into_condition();
    assert_eq!(c.eval(&env, &rearm(), 5000).ok(), Some(false));
    assert_eq!(c.eval(&env, &settled(), 5999).ok(), Some(false));
    assert_eq!(c.eval(&env, &settled(), 6000).ok(), Some(true));
    assert_eq!(c.eval(&env, &settled(), 9000).ok(), Some(true));
    assert_eq!(c.eval(&env, &rearm(), 9500).ok(), Some(false));
}

#[test]
fn plain_literal_evaluates_the_same_twice() {
    let env = Environment::new();
    let mut c = AllwaysTrue::new().into_condition();
    assert_eq!(c.eval(&env, &settled(), 1).ok(), Some(true));
    assert_eq!(c.eval(&env, &settled(), 1).ok(), Some(true));
    let mut app = AppCondition::new("k".to_string(), StateType::Int(3)).into_condition();
    let mut env2 = Environment::new();
    env2.set_state("k".to_string(), StateType::Int(3));
    assert_eq!(app.eval(&env2, &settled(), 1).ok(), Some(true));
    assert_eq!(app.eval(&env2, &settled(), 1).ok(), Some(true));
}

#[test]
fn gates_identities() {
    let env = Environment::new();
    let mut and = Gates::and().into_condition();
    assert_eq!(and.eval(&env, &settled(), 0).ok(), Some(true));
    let mut or = Gates::or().into_condition();
    assert_eq!(or.eval(&env, &settled(), 0).ok(), Some(false));
    let mut not = Gates::not().into_condition();
    assert_eq!(not.eval(&env, &rearm(), 0).ok(), Some(false));
    assert_eq!(not.eval(&env, &settled(), 1).ok(), Some(false));
    let mut both = Gates::and()
        .condition(AllwaysTrue::new().into_condition())
        .condition(AllwaysTrue::new().into_condition())
        .into_condition();
    assert_eq!(both.eval(&env, &settled(), 0).ok(), Some(true));
    let mut one_false = Gates::or()
        .multiple_conditions(vec![Gates::not().into_condition(), AllwaysTrue::new().into_condition()])
        .into_condition();
    assert_eq!(one_false.eval(&env, &settled(), 0).ok(), Some(true));
}

#[test]
fn not_takes_the_given_predicate() {
    let env = Environment::new();
    let mut c = Gates::not().condition(Gates::or().into_condition()).into_condition();
    assert_eq!(c.eval(&env, &settled(), 0).ok(), Some(true));
    let mut d = Gates::not().multiple_conditions(vec![]).into_condition();
    assert_eq!(d.eval(&env, &settled(), 0).ok(), Some(false));
}

#[test]
fn named_state_missing_key_is_false() {
    let env = Environment::new();
    let mut c = AppCondition::new("absent".to_string(), StateType::Bool(true)).into_condition();
    assert_eq!(c.eval(&env, &settled(), 0).ok(), Some(false));
}

#[test]
fn named_state_equality_is_variant_sensitive() {
    let mut env = Environment::new();
    env.set_state("x".to_string(), StateType::Str("1".to_string()));
    let mut c = AppCondition::new("x".to_string(), StateType::Int(1)).into_condition();
    assert_eq!(c.eval(&env, &settled(), 0).ok(), Some(false));
    let mut d = AppCondition::new("x".to_string(), StateType::Str("1".to_string())).into_condition();
    assert_eq!(d.eval(&env, &settled(), 0).ok(), Some(true));
}

#[test]
fn tree_condition_follows_direction() {
    let env = Environment::new();
    let up = RunningTreeState { moved_in_from_back: true, first_iteration_after_move: true, currently_active: true };
    let mut on_descent = TreeCondition::new_when_moving_up().into_condition();
    let mut on_return = TreeCondition::new_when_moving_down().into_condition();
    assert_eq!(on_return.eval(&env, &up, 0).ok(), Some(true));
    assert_eq!(on_descent.eval(&env, &up, 0).ok(), Some(false));
    assert_eq!(on_return.eval(&env, &rearm(), 0).ok(), Some(false));
    assert_eq!(on_descent.eval(&env, &rearm(), 0).ok(), Some(true));
}

#[test]
fn gpio_condition_on_unregistered_pin_is_a_fault() {
    let env = Environment::new();
    let mut c = DigitalGpioCondition::new_input(4).into_condition();
    assert!(matches!(c.eval(&env, &settled(), 0), Err(TaskError::IoError { .. })));
    let mut o = DigitalGpioCondition::new_output(4).into_condition();
    assert!(o.eval(&env, &settled(), 0).is_err());
}

#[test]
fn gpio_condition_with_delay_and_edge() {
    let mut env = Environment::new();
    assert!(env.add_input_gpio(4, 0));
    env.refresh_input(4, true, 1000);
    let mut c = DigitalGpioCondition::new_input(4).after_delay(500).on_flank().into_condition();
    // rearmed at 1200: the delay counts from the later of 1200 and the change at 1000
    assert_eq!(c.eval(&env, &rearm(), 1200).ok(), Some(false));
    assert_eq!(c.eval(&env, &settled(), 1699).ok(), Some(false));
    assert_eq!(c.eval(&env, &settled(), 1700).ok(), Some(true));
    assert_eq!(c.eval(&env, &settled(), 1800).ok(), Some(false));
    env.refresh_input(4, false, 1900);
    let mut low = DigitalGpioCondition::new_input(4).when_false().into_condition();
    assert_eq!(low.eval(&env, &settled(), 1900).ok(), Some(true));
    assert_eq!(c.eval(&env, &settled(), 1950).ok(), Some(false));
}

#[test]
fn requirements_are_gathered_from_all_parts() {
    let c = Gates::and()
        .condition(AppCondition::new("mode".to_string(), StateType::Str("on".to_string())).into_condition())
        .condition(Gates::not().condition(DigitalGpioCondition::new_output(17).into_condition()).into_condition())
        .condition(AllwaysTrue::new().into_condition())
        .into_condition();
    let reqs = c.as_automaticlt_initializable();
    assert_eq!(reqs.len(), 2);
    match &reqs[0] {
        AutomaticltInitializable::AppCondition(k, v) => {
            assert_eq!(k, "mode");
            assert!(*v == StateType::Str("on".to_string()));
        }
        _ => panic!("expected an application-state key"),
    }
    match &reqs[1] {
        AutomaticltInitializable::DigitalGpioCondition(p, out) => {
            assert_eq!(*p, 17);
            assert!(*out);
        }
        _ => panic!("expected a pin"),
    }
    let empty: Condition = TreeCondition::new_when_moving_up().into_condition();
    assert!(empty.as_automaticlt_initializable().is_empty());
}

#[test]
fn delayed_edge_literal_fires_once_after_its_delay() {
    let env = Environment::new();
    let mut c = AllwaysTrue::new().after_delay(100).on_flank().into_condition();
    assert_eq!(c.eval(&env, &rearm(), 1000).ok(), Some(false));
    assert_eq!(c.eval(&env, &settled(), 1099).ok(), Some(false));
    assert_eq!(c.eval(&env, &settled(), 1100).ok(), Some(true));
    for t in 1101..1200u64 {
        assert_eq!(c.eval(&env, &settled(), t).ok(), Some(false));
    }
}
