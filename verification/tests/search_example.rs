use hp_solver::beginning::create_problem;
use hp_solver::search::{df_step, next_hash_limit, partial_df_step, stoppable_depth_first, stoppable_depth_first_partial, StepKind};
use hp_solver::solution::{plan_is_ready, plan_text_of};
use hp_solver::datastructures::node::SubtaskTypes;

#[test]
fn partial_search_prepares_one_node_with_the_tasks_reversed() {
    let (problem, domain) = create_problem();
    let (queue, search_domain) = stoppable_depth_first_partial(&problem, &domain);
    assert_eq!(queue.len(), 1);
    let node = &queue[0];
    assert_eq!(node.subtask_queue.len(), 3);
    match &node.subtask_queue[0].0 {
        SubtaskTypes::HtnTask(h) => assert_eq!(h.2, vec!["box2".to_string()]),
        _ => panic!("expected a task of the initial network"),
    }
    match &node.subtask_queue[2].0 {
        SubtaskTypes::HtnTask(h) => assert_eq!(h.2, vec!["box0".to_string()]),
        _ => panic!("expected a task of the initial network"),
    }
    assert_eq!(node.applied_functions.0 .0, "root");
    assert!(node.applied_functions.1.is_empty());
    assert!(node.goal_functions.is_empty());
    assert_eq!(search_domain.actions.len(), 2);
    assert_eq!(search_domain.methods.len(), 1);
}

#[test]
fn total_search_prepares_one_node() {
    let (problem, domain) = create_problem();
    let (queue, _) = stoppable_depth_first(&problem, &domain);
    assert_eq!(queue.len(), 1);
    assert_eq!(queue[0].subtask_queue.len(), 3);
    assert!(queue[0].called.0.is_empty());
    // every object learned its own type
    assert!(queue[0].problem.objects[0].2.contains(&"key".to_string()));
}

#[test]
fn example_is_solved_by_the_partial_search() {
    let (problem, domain) = create_problem();
    let (initial, search_domain) = stoppable_depth_first_partial(&problem, &domain);
    let mut queue = initial;
    let mut tried = 0usize;
    let mut steps = 0;
    let solved = loop {
        steps += 1;
        assert!(steps < 100_000, "the search did not finish");
        let (kind, node) = partial_df_step(&mut queue, &search_domain, &mut tried, 0);
        match kind {
            StepKind::Continue => {}
            StepKind::Solved => break node.unwrap(),
            other => panic!("search ended with {:?}", other),
        }
    };
    let actions: Vec<String> = solved
        .applied_functions
        .1
        .iter()
        .filter_map(|e| match &e.0 {
            SubtaskTypes::Action(a) => Some(format!("{} {}", a.name, e.3.iter().map(|v| v.2[0].clone()).collect::<Vec<_>>().join(" "))),
            _ => None,
        })
        .collect();
    assert_eq!(actions.len(), 6);
    for b in ["box0", "box1", "box2"] {
        assert!(solved.problem.state.contains(&("open".to_string(), vec![b.to_string()])));
    }
    assert!(plan_is_ready(&solved.applied_functions));
    let text = plan_text_of(&solved.problem.name, &solved.applied_functions);
    assert!(text.starts_with("Solution for problem: {box_opener}"));
    assert!(text.ends_with("<=="));
}

#[test]
fn empty_queue_is_exhausted() {
    let (problem, domain) = create_problem();
    let (_, search_domain) = stoppable_depth_first_partial(&problem, &domain);
    let mut queue = Vec::new();
    let mut tried = 3usize;
    let (kind, node) = partial_df_step(&mut queue, &search_domain, &mut tried, 0);
    assert_eq!(kind, StepKind::Exhausted);
    assert!(node.is_none());
    assert_eq!(tried, 3);
}

#[test]
fn example_is_solved_by_the_total_search() {
    use_total_search();
}

fn use_total_search() {
    let (problem, domain) = create_problem();
    let (initial, search_domain) = stoppable_depth_first(&problem, &domain);
    let mut queue = initial;
    let mut steps = 0;
    let solved = loop {
        steps += 1;
        assert!(steps < 100_000, "the search did not finish");
        let (kind, node) = df_step(&mut queue, &search_domain);
        match kind {
            StepKind::Continue => {}
            StepKind::Solved => break node.unwrap(),
            other => panic!("search ended with {:?}", other),
        }
    };
    for b in ["box0", "box1", "box2"] {
        assert!(solved.problem.state.contains(&("open".to_string(), vec![b.to_string()])));
    }
    assert!(solved.subtask_queue.is_empty());
}

#[test]
fn restart_raises_the_hash_limit_only_after_an_empty_queue() {
    assert_eq!(next_hash_limit(StepKind::Exhausted, 0), Some(1));
    assert_eq!(next_hash_limit(StepKind::Exhausted, 41), Some(42));
    assert_eq!(next_hash_limit(StepKind::Solved, 3), None);
    assert_eq!(next_hash_limit(StepKind::Exhausted, usize::MAX - 1), None);
}
