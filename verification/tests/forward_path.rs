use aera::runtime::simulation::forward::{commit_to_path, ForwardChainNode};
use aera::types::runtime::RuntimeCommand;

fn command(name: &str) -> RuntimeCommand<i64> {
    RuntimeCommand { name: name.to_string(), entity_id: "h".to_string(), params: vec![] }
}

fn node(name: &str, children: Vec<ForwardChainNode<i64>>, on_goal_path: bool, depth: u64) -> ForwardChainNode<i64> {
    ForwardChainNode { command: command(name), children, is_in_goal_path: on_goal_path, min_goal_depth: depth }
}

fn names(path: &[RuntimeCommand<i64>]) -> Vec<String> {
    path.iter().map(|c| c.name.clone()).collect()
}

#[test]
fn no_goal_path_gives_no_commands() {
    assert!(commit_to_path::<i64>(vec![]).is_empty());
    let path = commit_to_path(vec![node("a", vec![], false, u64::MAX), node("b", vec![], false, 3)]);
    assert!(path.is_empty());
}

#[test]
fn the_shortest_goal_path_is_followed() {
    let tree = vec![
        node("long", vec![node("x", vec![], true, 1), node("y", vec![], true, 1)], true, 3),
        node("off", vec![], false, 0),
        node("short", vec![node("z", vec![], false, 9), node("w", vec![], true, 1)], true, 2),
    ];
    assert_eq!(names(&commit_to_path(tree)), vec!["short", "w"]);
}

#[test]
fn ties_go_to_the_first_node() {
    let tree = vec![
        node("first", vec![node("p", vec![], true, 1), node("q", vec![], true, 1)], true, 2),
        node("second", vec![], true, 2),
    ];
    assert_eq!(names(&commit_to_path(tree)), vec!["first", "p"]);
}

#[test]
fn a_goal_node_whose_children_miss_the_goal_ends_the_path() {
    let tree = vec![node("only", vec![node("dead", vec![], false, 5)], true, 1)];
    assert_eq!(names(&commit_to_path(tree)), vec!["only"]);
}
