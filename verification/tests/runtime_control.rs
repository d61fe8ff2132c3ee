use aera::runtime::runtime_main::{command_after_planning, RuntimeAction, RuntimeControl};
use aera::types::runtime::RuntimeCommand;

fn command(name: &str) -> RuntimeCommand<i64> {
    RuntimeCommand { name: name.to_string(), entity_id: "h".to_string(), params: vec![1] }
}

#[test]
fn babble_commands_come_first_and_do_not_advance_the_goal() {
    let mut control = RuntimeControl::new(vec![command("left"), command("right")]);
    match control.decide(true, 1) {
        RuntimeAction::Execute(c) => assert_eq!(c.name, "left"),
        RuntimeAction::Plan(_) => panic!("a babble command is left"),
    }
    assert_eq!(control.current_goal_index, 0);
    assert_eq!(control.babble_command.len(), 1);
    assert!(control.last_was_babble_command);
}

#[test]
fn planning_starts_once_babbling_is_over_and_a_matched_goal_advances() {
    let mut control: RuntimeControl<i64> = RuntimeControl::new(Vec::new());
    assert!(matches!(control.decide(true, 2), RuntimeAction::Plan(0)));
    assert_eq!(control.current_goal_index, 0);
    assert!(!control.last_was_babble_command);
    assert!(matches!(control.decide(true, 2), RuntimeAction::Plan(0)));
    assert_eq!(control.current_goal_index, 1);
    assert!(matches!(control.decide(false, 1), RuntimeAction::Plan(1)));
    assert_eq!(control.current_goal_index, 1);
}

#[test]
fn an_empty_goal_keeps_the_babble_flag() {
    let mut control: RuntimeControl<i64> = RuntimeControl::new(Vec::new());
    assert!(matches!(control.decide(false, 0), RuntimeAction::Plan(0)));
    assert!(control.last_was_babble_command);
}

#[test]
fn after_planning_the_first_command_or_no_action() {
    let first = command_after_planning(vec![command("grab"), command("lift")]);
    assert_eq!(first.name, "grab");
    let none = command_after_planning::<i64>(Vec::new());
    assert_eq!(none.name, "no_action");
    assert_eq!(none.entity_id, "sys");
    assert!(none.params.is_empty());
}
