use hp_solver::beginning::create_problem;
use hp_solver::datastructures::node::{AppliedFunctions, SubtaskTypes};
use hp_solver::solution::{plan_is_ready, plan_text_of};

#[test]
fn example_problem_has_three_boxes_to_open() {
    let (problem, domain) = create_problem();
    assert_eq!(problem.name, "box_opener");
    assert_eq!(problem.domain, "box_opener_domain");
    assert_eq!(problem.objects.len(), 5);
    assert_eq!(problem.objects[2].0, "box0");
    assert_eq!(problem.objects[2].1, "box");
    assert_eq!(problem.htn.subtasks.len(), 3);
    assert_eq!(problem.htn.subtasks[1].2, vec!["box1".to_string()]);
    assert!(problem.state.is_empty());
    assert!(problem.goal.is_none());
    assert_eq!(domain.name, "box_opener_domain");
    assert_eq!(domain.tasks.len(), 1);
    assert_eq!(domain.tasks[0].name, "opened_box");
    assert_eq!(domain.methods.len(), 1);
    assert_eq!(domain.methods[0].0, "opened_box");
    assert_eq!(domain.methods[0].1[0].name, "opened_box_method");
    assert_eq!(domain.methods[0].1[0].subtasks.len(), 2);
    assert_eq!(domain.actions.len(), 2);
    assert_eq!(domain.actions[0].name, "insert_key");
    assert_eq!(domain.actions[1].name, "open_box");
    assert_eq!(domain.actions[1].effect.as_ref().unwrap().len(), 2);
    assert_eq!(domain.predicates.len(), 2);
}

fn one(s: &str) -> Vec<String> {
    vec![s.to_string()]
}

fn small_plan() -> AppliedFunctions {
    let (_, domain) = create_problem();
    let insert = domain.actions[0].clone();
    let open = domain.actions[1].clone();
    let method = domain.methods[0].1[0].clone();
    let key = ("?key_arg".to_string(), "key".to_string(), one("key0"));
    let bx = ("?box_arg".to_string(), "box".to_string(), one("box0"));
    (
        ("root".to_string(), vec![12]),
        vec![
            (SubtaskTypes::Action(insert), 0, vec![], vec![key.clone(), bx.clone()]),
            (SubtaskTypes::Action(open), 1, vec![], vec![key.clone(), bx.clone()]),
            (SubtaskTypes::Method(method), 12, vec![0, 1], vec![bx.clone()]),
        ],
    )
}

#[test]
fn plan_text_lists_actions_root_and_methods() {
    let af = small_plan();
    assert!(plan_is_ready(&af));
    let text = plan_text_of(&"box_opener".to_string(), &af);
    let expected = "Solution for problem: {box_opener} by Ajess19 & Andla19\n==>\n\
0 insert_key key0 box0 \n\
1 open_box key0 box0 \n\
root 12 \n\
12 opened_box box0 -> opened_box_method 0 1 \n\
<==";
    assert_eq!(text, expected);
}

#[test]
fn plan_with_unsettled_method_variable_is_not_ready() {
    let mut af = small_plan();
    af.1[2].3[0].2 = vec!["box0".to_string(), "box1".to_string()];
    assert!(!plan_is_ready(&af));
}

#[test]
fn plan_with_valueless_action_parameter_is_not_ready() {
    let mut af = small_plan();
    af.1[0].3[1].2 = vec![];
    assert!(!plan_is_ready(&af));
}
