use hp_solver::beginning::create_problem;
use hp_solver::datastructures::node::{Node, SubtaskTypes};
use hp_solver::perform::action::{perform_action, perform_action_cdcl};
use hp_solver::perform::htn::perform_htn_task;
use hp_solver::perform::method::perform_method;
use hp_solver::readiness::{htn_ready, names_distinct_exec, all_variables_exec, hashable_exec, table_is_filed, goal_fits_exec};
use hp_solver::search::{stoppable_depth_first, stoppable_depth_first_partial};
use hp_solver::toolbox::partial_hash_state;

fn s(x: &str) -> String {
    x.to_string()
}

/// The first node of the totally ordered search of the example, with the top
/// entry of its queue taken off.
fn start() -> (Node, SubtaskTypes, Vec<(String, String, Vec<String>)>, hp_solver::datastructures::domain::Domain) {
    let (problem, domain) = create_problem();
    let (mut queue, search_domain) = stoppable_depth_first(&problem, &domain);
    let mut node = queue.pop().unwrap();
    let (entry, rv) = node.subtask_queue.pop().unwrap();
    (node, entry, rv, search_domain)
}

#[test]
fn task_of_the_network_expands_into_its_method() {
    let (node, entry, rv, domain) = start();
    let htn = match entry {
        SubtaskTypes::HtnTask(h) => h,
        _ => panic!("expected a task of the initial network"),
    };
    assert_eq!(htn.2, vec![s("box0")]);
    let mut queue = Vec::new();
    perform_htn_task(&mut queue, &domain, node, htn, rv);
    assert_eq!(queue.len(), 1);
    let n = &queue[0];
    assert_eq!(n.subtask_queue.len(), 3);
    match &n.subtask_queue[2].0 {
        SubtaskTypes::Method(m) => {
            assert_eq!(m.name, "opened_box_method");
            assert_eq!(m.id, 0);
        }
        _ => panic!("expected the method on top"),
    }
    let box_var = n.subtask_queue[2].1.iter().find(|v| v.0 == "?box_arg").unwrap();
    assert_eq!(box_var.2, vec![s("box0")]);
    assert_eq!(n.applied_functions.0 .1, vec![0]);
    assert_eq!(n.applied_functions.1.len(), 1);
    assert_eq!(n.called.0, vec![false]);
    assert_eq!(n.called.2, vec![0]);
}

fn method_node() -> (Node, hp_solver::datastructures::domain::Domain) {
    let (node, entry, rv, domain) = start();
    let htn = match entry {
        SubtaskTypes::HtnTask(h) => h,
        _ => panic!(),
    };
    let mut queue = Vec::new();
    perform_htn_task(&mut queue, &domain, node, htn, rv);
    (queue.pop().unwrap(), domain)
}

#[test]
fn method_moves_on_to_its_first_subtask() {
    let (mut node, domain) = method_node();
    let (entry, rv) = node.subtask_queue.pop().unwrap();
    let method = match entry {
        SubtaskTypes::Method(m) => m,
        _ => panic!(),
    };
    let objects_before = node.problem.objects.clone();
    let mut queue = Vec::new();
    perform_method(&mut queue, &domain, node, method, rv);
    assert_eq!(queue.len(), 1);
    let n = &queue[0];
    assert_eq!(n.problem.objects, objects_before);
    match &n.subtask_queue.last().unwrap().0 {
        SubtaskTypes::Action(a) => assert_eq!(a.name, "insert_key"),
        _ => panic!("expected the first subtask on top"),
    }
    assert_eq!(n.called.1.len(), 1);
    assert_eq!(n.called.2, vec![1]);
    assert_eq!(n.called.0, vec![false, true]);
    assert_eq!(n.applied_functions.1[0].2, vec![1]);
}

fn action_node() -> (Node, hp_solver::datastructures::domain::Domain) {
    let (mut node, domain) = method_node();
    let (entry, rv) = node.subtask_queue.pop().unwrap();
    let method = match entry {
        SubtaskTypes::Method(m) => m,
        _ => panic!(),
    };
    let mut queue = Vec::new();
    perform_method(&mut queue, &domain, node, method, rv);
    (queue.pop().unwrap(), domain)
}

#[test]
fn action_with_open_choices_branches_on_each_value() {
    let (mut node, _) = action_node();
    let (entry, rv) = node.subtask_queue.pop().unwrap();
    let action = match entry {
        SubtaskTypes::Action(a) => a,
        _ => panic!(),
    };
    let key = rv.iter().find(|v| v.0 == "?key_arg").unwrap().2.clone();
    assert_eq!(key.len(), 2);
    let mut queue = Vec::new();
    perform_action_cdcl(&mut queue, node, action, rv);
    assert_eq!(queue.len(), 2);
    for (i, n) in queue.iter().enumerate() {
        let (e, vars) = n.subtask_queue.last().unwrap();
        match e {
            SubtaskTypes::Action(a) => assert_eq!(a.name, "insert_key"),
            _ => panic!("expected the action again"),
        }
        let k = vars.iter().find(|v| v.0 == "?key_arg").unwrap();
        assert_eq!(k.2, vec![key[i].clone()]);
        assert!(n.problem.state.is_empty());
    }
}

#[test]
fn settled_action_applies_its_effects_and_returns_to_the_method() {
    let (mut node, _) = action_node();
    let (entry, rv) = node.subtask_queue.pop().unwrap();
    let action = match entry {
        SubtaskTypes::Action(a) => a,
        _ => panic!(),
    };
    let mut branches = Vec::new();
    perform_action_cdcl(&mut branches, node, action, rv);
    let mut first = branches.remove(0);
    let (entry, rv) = first.subtask_queue.pop().unwrap();
    let action = match entry {
        SubtaskTypes::Action(a) => a,
        _ => panic!(),
    };
    let mut queue = Vec::new();
    perform_action_cdcl(&mut queue, first, action, rv);
    assert_eq!(queue.len(), 1);
    let n = &queue[0];
    assert_eq!(n.problem.state, vec![(s("in"), vec![s("key0"), s("box0")])]);
    match &n.subtask_queue.last().unwrap().0 {
        SubtaskTypes::Method(m) => assert_eq!(m.name, "opened_box_method"),
        _ => panic!("expected the calling method on top"),
    }
    assert!(n.called.1.is_empty());
    let last = n.applied_functions.1.last().unwrap();
    match &last.0 {
        SubtaskTypes::Action(a) => assert_eq!(a.name, "insert_key"),
        _ => panic!("expected the action to be recorded"),
    }
}

#[test]
fn action_is_applied_with_every_clearing_permutation() {
    let (mut node, _) = action_node();
    let (entry, rv) = node.subtask_queue.pop().unwrap();
    let action = match entry {
        SubtaskTypes::Action(a) => a,
        _ => panic!(),
    };
    let mut queue = Vec::new();
    perform_action(&mut queue, node, action, rv);
    assert_eq!(queue.len(), 2);
    let mut keys: Vec<String> = queue.iter().map(|n| n.problem.state[0].1[0].clone()).collect();
    keys.sort();
    assert_eq!(keys, vec![s("key0"), s("key1")]);
    for n in &queue {
        assert_eq!(n.problem.state.len(), 1);
        assert_eq!(n.problem.state[0].1[1], "box0");
        match &n.subtask_queue.last().unwrap().0 {
            SubtaskTypes::Method(m) => assert_eq!(m.name, "opened_box_method"),
            _ => panic!("expected the calling method on top"),
        }
    }
}

#[test]
fn readiness_checks_on_the_example() {
    let (problem, domain) = create_problem();
    assert!(table_is_filed(&domain));
    let (queue, search_domain) = stoppable_depth_first_partial(&problem, &domain);
    let node = &queue[0];
    assert!(hashable_exec(&node.subtask_queue));
    let (entry, rv, _, _) = &node.subtask_queue[2];
    match entry {
        SubtaskTypes::HtnTask(h) => {
            assert!(htn_ready(node, &search_domain, h, rv, 2));
            assert!(!htn_ready(node, &search_domain, h, rv, 3));
        }
        _ => panic!(),
    }
    assert!(goal_fits_exec(&node.problem.state, &node.problem.goal));
    let distinct = vec![(s("?a"), s("t"), vec![]), (s("?b"), s("t"), vec![])];
    assert!(names_distinct_exec(&distinct));
    assert!(all_variables_exec(&distinct));
    let twice = vec![(s("?a"), s("t"), vec![]), (s("?a"), s("t"), vec![])];
    assert!(!names_distinct_exec(&twice));
    let constant = vec![(s("box0"), s("box"), vec![])];
    assert!(!all_variables_exec(&constant));
}

#[test]
fn partial_hash_state_counts_repeated_states() {
    let (problem, domain) = create_problem();
    let (queue, _) = stoppable_depth_first_partial(&problem, &domain);
    // a node with a task of the initial network in its queue is never a duplicate
    let mut node = queue[0].clone();
    assert!(!partial_hash_state(&mut node, 0, 0));
    assert!(!partial_hash_state(&mut node, 0, 0));
    assert!(node.hash_table.is_empty());
    // a node with only a method entry is recorded, and with limit 0 seen again
    let (mut q2, search_domain) = stoppable_depth_first_partial(&problem, &domain);
    let mut tried = 2usize;
    let _ = hp_solver::search::partial_df_step(&mut q2, &search_domain, &mut tried, 0);
    let mut expanded = q2.pop().unwrap();
    expanded.subtask_queue.truncate(3);
    expanded.subtask_queue.remove(0);
    expanded.subtask_queue.remove(0);
    match &expanded.subtask_queue[0].0 {
        SubtaskTypes::Method(_) => {}
        _ => panic!("expected the method entry"),
    }
    assert!(!partial_hash_state(&mut expanded, 0, 0));
    assert_eq!(expanded.hash_table.len(), 1);
    assert!(partial_hash_state(&mut expanded, 0, 0));
    let mut with_limit = expanded.clone();
    assert!(!partial_hash_state(&mut with_limit, 0, 1));
}
