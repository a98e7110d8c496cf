use embedded_task_dispatcher::conditions::{AppCondition, DigitalGpioCondition};
use embedded_task_dispatcher::environment::{AppState, Environment};
use embedded_task_dispatcher::errors::TaskError;
use embedded_task_dispatcher::lcd_driver::{
    clears_on_connect, connect_commands, next_send_action, prepare_lcd_commands, LCDArg, LCDProgramm,
    LCDcommand, SendAction, SendEvent,
};
use embedded_task_dispatcher::logger::{needs_truncation, LogLevel, Logger, LoggerCommand};
use embedded_task_dispatcher::suite::{json_config_loader, ConfigDocument, ConfigValue, Suite, SutieOptions};
use embedded_task_dispatcher::tasks::{ConditionalTypes, Task, Unit};
use embedded_task_dispatcher::types::{InputPinHandler, OutputPinHandler, StateType};

#[test]
fn state_value_coercions() {
    assert!(StateType::Str("a".to_string()).as_bool());
    assert!(!StateType::Str(String::new()).as_bool());
    assert!(!StateType::Int(0).as_bool());
    assert!(StateType::Int(-2).as_bool());
    assert!(StateType::Bool(true).as_bool());
    assert_eq!(StateType::Str("42".to_string()).as_int(), 42);
    assert_eq!(StateType::Str("-7".to_string()).as_int(), -7);
    assert_eq!(StateType::Str("x1".to_string()).as_int(), 0);
    assert_eq!(StateType::Str(String::new()).as_int(), 0);
    assert_eq!(StateType::Bool(true).as_int(), 1);
    assert_eq!(StateType::Int(9).as_int(), 9);
    assert!(StateType::Str("q".to_string()).as_default() == StateType::Str(String::new()));
    assert!(StateType::Bool(true).as_default() == StateType::Bool(false));
    assert!(StateType::Int(5).as_default() == StateType::Int(0));
    assert!(StateType::Str("1".to_string()) != StateType::Int(1));
    assert!(StateType::Int(1).duplicate() == StateType::Int(1));
}

#[test]
fn app_state_keeps_one_value_per_key() {
    let mut s = AppState::new();
    s.insert("a".to_string(), StateType::Int(1));
    s.insert("b".to_string(), StateType::Bool(true));
    s.insert("a".to_string(), StateType::Int(2));
    assert_eq!(s.entries().len(), 2);
    assert!(*s.get(&"a".to_string()).unwrap() == StateType::Int(2));
    assert!(s.contains_key(&"b".to_string()));
    assert!(s.get(&"c".to_string()).is_none());
}

#[test]
fn pins_record_changes() {
    let mut p = InputPinHandler::new(5);
    p.record_sample(false, 10);
    assert_eq!(p.last_change, 5);
    p.record_sample(true, 20);
    assert_eq!((p.current_state, p.last_state, p.last_change), (true, false, 20));
    let mut o = OutputPinHandler::new(0);
    assert!(o.change_state(true, 30));
    assert!(!o.change_state(true, 40));
    assert_eq!((o.current_state, o.last_state, o.last_change), (true, false, 30));
    let mut env = Environment::new();
    assert_eq!(env.command_output(3, true, 1), None);
    assert!(env.add_output_gpio(3, 1));
    assert!(!env.add_output_gpio(3, 2));
    assert_eq!(env.command_output(3, true, 5), Some(true));
    assert_eq!(env.output_pin(3).unwrap().last_change, 5);
    assert!(env.input_pin(3).is_none());
}

#[test]
fn log_levels_by_name() {
    assert_eq!(LogLevel::from_str("warning"), Some(LogLevel::Warning));
    assert_eq!(LogLevel::from_str("Debug"), Some(LogLevel::Debug));
    assert_eq!(LogLevel::from_str("ERROR"), Some(LogLevel::Error));
    assert_eq!(LogLevel::from_str("info"), Some(LogLevel::Info));
    assert_eq!(LogLevel::from_str("verbose"), None);
    assert_eq!(LogLevel::Warning.name(), "WARNING");
    assert!(LogLevel::Error.passes(LogLevel::Info));
    assert!(!LogLevel::Debug.passes(LogLevel::Info));
}

#[test]
fn logger_filters_by_level() {
    let mut l = Logger::new();
    assert_eq!(l.handle(LoggerCommand::Log("start".to_string(), LogLevel::Debug)), Some("DEBUG: start".to_string()));
    assert_eq!(l.handle(LoggerCommand::ChangeLogLevel(LogLevel::Info)), Some("Log level changed to: INFO".to_string()));
    assert_eq!(l.handle(LoggerCommand::Log("hidden".to_string(), LogLevel::Debug)), None);
    assert_eq!(l.handle(LoggerCommand::Log("shown".to_string(), LogLevel::Error)), Some("ERROR: shown".to_string()));
    assert_eq!(l.handle(LoggerCommand::ChangeLogLevel(LogLevel::Error)), None);
    assert_eq!(l.log_level, LogLevel::Error);
    assert!(!needs_truncation(1000));
    assert!(needs_truncation(1001));
}

fn arg_names(c: &LCDcommand) -> Vec<String> {
    c.args.as_ref().map(|a| a.iter().map(|(k, _)| k.clone()).collect()).unwrap_or_default()
}

#[test]
fn display_commands() {
    let cmds = prepare_lcd_commands(Some(&"hi".to_string()), Some(true));
    assert_eq!(cmds.iter().map(|c| c.cmd).collect::<Vec<_>>(), vec![LCDProgramm::Clear, LCDProgramm::Move, LCDProgramm::Buffer]);
    assert_eq!(arg_names(&cmds[1]), vec!["x".to_string(), "y".to_string()]);
    assert_eq!(arg_names(&cmds[2]), vec!["text".to_string(), "directly".to_string()]);
    match &cmds[2].args.as_ref().unwrap()[0].1 {
        LCDArg::String(s) => assert_eq!(s, "hi"),
        _ => panic!("expected text"),
    }
    assert!(prepare_lcd_commands(None, Some(false)).is_empty());
    assert_eq!(prepare_lcd_commands(None, Some(true)).len(), 1);
    assert_eq!(connect_commands(true).iter().map(|c| c.cmd).collect::<Vec<_>>(), vec![LCDProgramm::Clear, LCDProgramm::Home]);
    assert!(connect_commands(false).is_empty());
    assert!(clears_on_connect(None));
    assert!(!clears_on_connect(Some(false)));
    assert!(matches!(LCDcommand::backlight(true).args.unwrap()[0].1, LCDArg::Bool(true)));
}

#[test]
fn config_merges_flat_objects_only() {
    let mut env = Environment::new();
    env.set_state("keep".to_string(), StateType::Int(1));
    let doc = ConfigDocument::Object(vec![
        ("name".to_string(), ConfigValue::Str("unit".to_string())),
        ("count".to_string(), ConfigValue::Number(3)),
        ("on".to_string(), ConfigValue::Bool(true)),
    ]);
    assert!(json_config_loader(&mut env, &doc).is_ok());
    assert!(*env.app_state().get(&"count".to_string()).unwrap() == StateType::Int(3));
    assert!(*env.app_state().get(&"name".to_string()).unwrap() == StateType::Str("unit".to_string()));
    assert!(*env.app_state().get(&"keep".to_string()).unwrap() == StateType::Int(1));

    let bad = ConfigDocument::Object(vec![
        ("late".to_string(), ConfigValue::Bool(false)),
        ("list".to_string(), ConfigValue::Unsupported),
    ]);
    assert!(matches!(json_config_loader(&mut env, &bad), Err(TaskError::SystemError { .. })));
    assert!(env.app_state().get(&"late".to_string()).is_none());
    assert!(matches!(json_config_loader(&mut env, &ConfigDocument::NotObject), Err(TaskError::SystemError { .. })));
    assert_eq!(env.app_state().entries().len(), 4);
}

#[test]
fn suite_prepares_the_world_state() {
    let leaf: ConditionalTypes<u32> = Task::new("blink".to_string())
        .when_condition(DigitalGpioCondition::new_input(4).into_condition())
        .with_action(1)
        .to_eveluatable();
    let ctx = Unit::new("night".to_string())
        .when_condition(AppCondition::new("mode".to_string(), StateType::Str("night".to_string())).into_condition())
        .stay_while_condition(DigitalGpioCondition::new_output(18).into_condition())
        .subunit(leaf)
        .to_eveluatable();
    let mut options = SutieOptions::new();
    options.periodicly_print_state_to_file = Some(60_000);
    options.config_file = Some("/etc/cfg.json".to_string());
    let suite = Suite::new(vec![("main".to_string(), vec![ctx])], Some(vec![22]), Some(options), 99u32, 500);
    assert_eq!(suite.tasks.len(), 2);
    assert_eq!(suite.tasks[0].0, "main");
    assert_eq!(suite.tasks[0].1.get_name(), "root");
    assert_eq!(suite.tasks[1].0, "periodic_print_state_to_file");
    assert_eq!(suite.tasks[1].1.min_delay_between_exec(), 60_000);
    assert_eq!(suite.config_path, Some("/etc/cfg.json".to_string()));
    let env = &suite.structure;
    assert!(*env.app_state().get(&"mode".to_string()).unwrap() == StateType::Str(String::new()));
    assert!(*env.app_state().get(&"night_executed".to_string()).unwrap() == StateType::Int(-1));
    assert!(*env.app_state().get(&"blink_executed".to_string()).unwrap() == StateType::Int(-1));
    assert!(*env.app_state().get(&"root_executed".to_string()).unwrap() == StateType::Int(-1));
    assert_eq!(env.input_pin(4).unwrap().last_change, 500);
    assert!(env.output_pin(18).is_some());
    assert!(env.output_pin(22).is_some());
    assert!(env.output_pin(4).is_none());

    let plain: Suite<u32> = Suite::new(vec![], None, None, 0, 0);
    assert!(plain.tasks.is_empty());
    assert_eq!(plain.suite_options.sleep_time, Some(250_000_000));
    assert_eq!(plain.suite_options.log_level, LogLevel::Info);
}

#[test]
fn display_send_retries_once() {
    assert_eq!(next_send_action(1, SendEvent::Written), SendAction::Flush);
    assert_eq!(next_send_action(1, SendEvent::WriteFailed), SendAction::Reconnect);
    assert_eq!(next_send_action(2, SendEvent::WriteFailed), SendAction::Fail);
    assert_eq!(next_send_action(2, SendEvent::Written), SendAction::Flush);
    assert_eq!(next_send_action(1, SendEvent::SocketError), SendAction::Fail);
}
