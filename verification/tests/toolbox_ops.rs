use hp_solver::beginning::create_problem;
use hp_solver::datastructures::domain::{Precondition, MethodSubtask};
use hp_solver::datastructures::node::{RelVars, SubtaskTypes};
use hp_solver::toolbox::constraints::check_constraints;
use hp_solver::toolbox::effect::apply_effect;
use hp_solver::toolbox::lists::{compare_lists, intersection};
use hp_solver::toolbox::methods::generate_method_subtask_perm;
use hp_solver::toolbox::precondition::{
    check_precondition, perm_count, permutation_tool, precon_trim_one, precon_trim_three, precon_trim_two, precon_trim_zero,
    pre_permutation_cleanup, precon_trim_forall, precon_trimmer,
};
use hp_solver::toolbox::update::update_objects;
use hp_solver::toolbox::{check_goal_condition, hash_state, method_calls_method};
use hp_solver::search::stoppable_depth_first;

fn s(x: &str) -> String {
    x.to_string()
}

fn vs(xs: &[&str]) -> Vec<String> {
    xs.iter().map(|x| x.to_string()).collect()
}

fn var(name: &str, t: &str, values: &[&str]) -> (String, String, Vec<String>) {
    (s(name), s(t), vs(values))
}

fn lit(kind: i32, name: &str, args: &[&str]) -> Precondition {
    (kind, s(name), vs(args), None)
}

fn key_box() -> RelVars {
    vec![var("?k", "key", &["key0", "key1"]), var("?b", "box", &["box0", "box1"])]
}

#[test]
fn positive_literal_keeps_values_of_matching_facts() {
    let state = vec![(s("in"), vs(&["key1", "box0"]))];
    let (rv, trimmed, found) = precon_trim_zero(&key_box(), &lit(0, "in", &["?k", "?b"]), &state);
    assert_eq!(rv, vec![var("?k", "key", &["key1"]), var("?b", "box", &["box0"])]);
    assert!(trimmed);
    assert!(found);
}

#[test]
fn negative_literal_keeps_values_without_facts() {
    let state = vec![(s("in"), vs(&["key0", "box1"])), (s("in"), vs(&["key1", "box1"]))];
    let (rv, trimmed) = precon_trim_one(&key_box(), &lit(1, "in", &["?k", "?b"]), &state);
    assert_eq!(rv, vec![var("?k", "key", &["key0", "key1"]), var("?b", "box", &["box0"])]);
    assert!(trimmed);
}

#[test]
fn equality_keeps_shared_values() {
    let rv = vec![var("?a", "box", &["box0", "box1"]), var("?c", "box", &["box1", "box2"])];
    let (out, trimmed) = precon_trim_two(&rv, &lit(2, "=", &["?a", "?c"]));
    assert_eq!(out, vec![var("?a", "box", &["box1"]), var("?c", "box", &["box1"])]);
    assert!(trimmed);
}

#[test]
fn inequality_removes_a_settled_value() {
    let rv = vec![var("?a", "box", &["box0"]), var("?c", "box", &["box0", "box1"])];
    let (out, trimmed) = precon_trim_three(&rv, &lit(3, "!=", &["?a", "?c"]));
    assert_eq!(out, vec![var("?a", "box", &["box0"]), var("?c", "box", &["box1"])]);
    assert!(trimmed);
}

#[test]
fn check_precondition_reads_the_state() {
    let (mut problem, _) = create_problem();
    problem.state = vec![(s("open"), vs(&["box0"]))];
    let rv = vec![var("?b", "box", &["box0"])];
    assert!(check_precondition(&lit(0, "open", &["?b"]), &rv, &problem));
    assert!(!check_precondition(&lit(1, "open", &["?b"]), &rv, &problem));
    let rv1 = vec![var("?b", "box", &["box1"])];
    assert!(!check_precondition(&lit(0, "open", &["?b"]), &rv1, &problem));
    assert!(check_precondition(&lit(1, "open", &["?b"]), &rv1, &problem));
}

#[test]
fn trimmer_keeps_names_and_drops_values() {
    let (mut problem, _) = create_problem();
    problem.state = vec![(s("open"), vs(&["box0"]))];
    let rv = vec![var("?k", "key", &["key0"]), var("?b", "box", &["box0", "box1", "box2"])];
    let (out, cleared) = precon_trimmer(rv, &vec![lit(1, "open", &["?b"])], &problem, &problem.state.clone());
    assert!(cleared);
    assert_eq!(out, vec![var("?k", "key", &["key0"]), var("?b", "box", &["box1", "box2"])]);
}

#[test]
fn trimmer_fails_when_nothing_is_left() {
    let (mut problem, _) = create_problem();
    problem.state = vec![(s("open"), vs(&["box0"]))];
    let rv = vec![var("?b", "box", &["box0"])];
    let (_, cleared) = precon_trimmer(rv, &vec![lit(1, "open", &["?b"])], &problem, &problem.state.clone());
    assert!(!cleared);
}

#[test]
fn perm_count_is_the_product_of_lengths() {
    assert_eq!(perm_count(&vec![vec![0, 1], vec![0, 1, 2]]), 6);
    assert_eq!(perm_count(&vec![vec![0, 1, 2, 3]]), 4);
}

#[test]
fn permutations_clear_all_preconditions() {
    let (mut problem, _) = create_problem();
    problem.state = vec![(s("in"), vs(&["key0", "box0"]))];
    let pres = vec![lit(1, "in", &["?k", "?b"]), lit(1, "open", &["?b"])];
    let rv = vec![var("?k", "key", &["key0", "key1"]), var("?b", "box", &["box0", "box1"])];
    let state = problem.state.clone();
    let (perms, cleaned, cleared) = permutation_tool(rv, pres.clone(), &state, &problem);
    assert!(cleared);
    assert_eq!(perms.len(), 3);
    for p in &perms {
        let picked: RelVars = cleaned.iter().enumerate().map(|(i, v)| (v.0.clone(), v.1.clone(), vec![v.2[p[i]].clone()])).collect();
        for pre in &pres {
            assert!(check_precondition(pre, &picked, &problem));
        }
        assert!(!(picked[0].2[0] == "key0" && picked[1].2[0] == "box0"));
    }
}

#[test]
fn subtask_orders_are_all_permutations() {
    let (_, domain) = create_problem();
    let subtasks = &domain.methods[0].1[0].subtasks;
    let orders = generate_method_subtask_perm(subtasks);
    assert_eq!(orders.len(), 2);
    let names: Vec<Vec<String>> = orders
        .iter()
        .map(|o| {
            o.iter()
                .map(|st| match &st.0 {
                    MethodSubtask::Action(a) => a.name.clone(),
                    MethodSubtask::Task(t) => t.name.clone(),
                })
                .collect()
        })
        .collect();
    assert_eq!(names[0], vs(&["insert_key", "open_box"]));
    assert_eq!(names[1], vs(&["open_box", "insert_key"]));
}

#[test]
fn hash_state_remembers_a_state() {
    let (problem, domain) = create_problem();
    let (mut queue, _) = stoppable_depth_first(&problem, &domain);
    let mut node = queue.pop().unwrap();
    assert!(!hash_state(&mut node));
    assert_eq!(node.hash_table.len(), 1);
    assert!(hash_state(&mut node));
    let mut copy = node.clone();
    assert!(hash_state(&mut copy));
    copy.problem.state.push((s("open"), vs(&["box0"])));
    assert!(!hash_state(&mut copy));
    assert_eq!(copy.hash_table.len(), 2);
}

#[test]
fn effects_add_and_delete_facts() {
    let (mut problem, domain) = create_problem();
    let rv = vec![var("?key_arg", "key", &["key0"]), var("?box_arg", "box", &["box1"])];
    let insert = &domain.actions[0].effect.as_ref().unwrap()[0];
    apply_effect(insert, &mut problem, &rv);
    assert_eq!(problem.state, vec![(s("in"), vs(&["key0", "box1"]))]);
    let open = domain.actions[1].effect.as_ref().unwrap();
    apply_effect(&open[0], &mut problem, &rv);
    apply_effect(&open[1], &mut problem, &rv);
    assert_eq!(problem.state, vec![(s("open"), vs(&["box1"]))]);
    apply_effect(&open[1], &mut problem, &rv);
    assert_eq!(problem.state, vec![(s("open"), vs(&["box1"]))]);
}

#[test]
fn lists_compare_and_intersect() {
    assert!(compare_lists(&vs(&["a", "b"]), &vs(&["a", "b"])));
    assert!(!compare_lists(&vs(&["a", "b"]), &vs(&["b", "a"])));
    assert!(!compare_lists(&vs(&["a"]), &vs(&["a", "b"])));
    assert_eq!(intersection(vec![vs(&["a", "b", "c"]), vs(&["b", "c", "d"]), vs(&["c", "b"])]), vs(&["b", "c"]));
}

#[test]
fn inequality_constraint_splits_the_values() {
    let rv = vec![var("?a", "box", &["box0", "box1"]), var("?c", "box", &["box0", "box1"])];
    let lists = check_constraints(&rv, &vec![(false, s("?a"), s("?c"))]);
    assert!(!lists.is_empty());
    for l in &lists {
        assert_eq!(l.len(), 2);
        assert_eq!(l[0].0, "?a");
        assert_eq!(l[1].0, "?c");
    }
    assert!(check_constraints(&rv, &vec![]).is_empty());
}

#[test]
fn objects_learn_their_supertypes() {
    let (problem, domain) = create_problem();
    let updated = update_objects(problem, &domain);
    assert_eq!(updated.objects.len(), 5);
    for o in &updated.objects {
        assert!(o.2.contains(&o.1));
        assert!(o.2.contains(&s("object")));
    }
}

#[test]
fn goal_condition_checks_every_goal_fact() {
    let state = vec![(s("open"), vs(&["box0"]))];
    assert!(check_goal_condition(&state, &None));
    assert!(check_goal_condition(&state, &Some(vec![(s("open"), vs(&["box0"]))])));
    assert!(!check_goal_condition(&state, &Some(vec![(s("open"), vs(&["box1"]))])));
}

#[test]
fn example_methods_call_only_actions() {
    let (_, domain) = create_problem();
    assert!(!method_calls_method(&domain.methods));
    match &domain.methods[0].1[0].subtasks[0].0 {
        MethodSubtask::Action(a) => assert_eq!(a.name, "insert_key"),
        _ => panic!("expected an action"),
    }
    let _ = SubtaskTypes::HtnTask((s("t"), s("t"), vec![]));
}

#[test]
fn inequality_with_a_settled_second_variable_drops_its_value() {
    let rv = vec![var("?a", "t", &["x", "w"]), var("?b", "t", &["w"])];
    let lists = check_constraints(&rv, &vec![(false, s("?a"), s("?b"))]);
    assert_eq!(lists, vec![vec![var("?a", "t", &["x"]), var("?b", "t", &["w"])]]);
}

#[test]
fn forall_fails_as_a_whole_when_a_tuple_matches() {
    let (mut problem, _) = create_problem();
    problem.objects = vec![(s("o1"), s("obj"), vec![])];
    problem.state = vec![(s("on"), vs(&["x", "o1"]))];
    let rv = vec![var("?a", "t", &["x", "y"])];
    let pre: Precondition = (4, s("forall"), vec![], Some(((s("?o"), s("obj")), vec![(false, s("on"), vs(&["?a", "?o"]))])));
    let state = problem.state.clone();
    let (trimmed, changed, cleared) = precon_trim_forall(&rv, &pre, &problem, &state);
    assert_eq!(trimmed, vec![var("?a", "t", &[])]);
    assert!(changed);
    assert!(!cleared);
    assert_eq!(check_precondition(&pre, &rv, &problem), cleared);
    let (out, cleared) = precon_trimmer(rv, &vec![pre], &problem, &state);
    assert!(!cleared);
    assert_eq!(out, vec![var("?a", "t", &[])]);
}

#[test]
fn forall_without_a_matching_tuple_keeps_every_value() {
    let (mut problem, _) = create_problem();
    problem.objects = vec![(s("o1"), s("obj"), vec![])];
    problem.state = vec![(s("on"), vs(&["z", "o1"]))];
    let rv = vec![var("?a", "t", &["x", "y"])];
    let pre: Precondition = (4, s("forall"), vec![], Some(((s("?o"), s("obj")), vec![(false, s("on"), vs(&["?a", "?o"]))])));
    let state = problem.state.clone();
    let (trimmed, changed, cleared) = precon_trim_forall(&rv, &pre, &problem, &state);
    assert_eq!(trimmed, rv);
    assert!(!changed);
    assert!(cleared);
    assert_eq!(check_precondition(&pre, &rv, &problem), cleared);
}

#[test]
fn cleanup_removes_the_values_that_a_negated_fact_names() {
    let rv = vec![var("?a", "t", &["x", "y", "z"])];
    let state = vec![(s("busy"), vs(&["y"]))];
    let out = pre_permutation_cleanup(&vec![lit(1, "busy", &["?a"])], &rv, &state);
    assert_eq!(out, vec![var("?a", "t", &["x", "z"])]);
}

#[test]
fn cleanup_removes_a_position_once_per_fact() {
    let rv = vec![var("?a", "t", &["x", "y"])];
    let state = vec![(s("busy"), vs(&["x"])), (s("busy"), vs(&["x"]))];
    let out = pre_permutation_cleanup(&vec![lit(1, "busy", &["?a"])], &rv, &state);
    assert_eq!(out, vec![var("?a", "t", &[])]);
}

#[test]
fn every_constraint_holds_after_all_are_applied() {
    let rv = vec![var("?a", "t", &["x", "w"]), var("?b", "t", &["w"]), var("?c", "t", &["x", "w"])];
    let lists = check_constraints(&rv, &vec![(false, s("?a"), s("?b")), (true, s("?a"), s("?c"))]);
    assert_eq!(lists, vec![vec![var("?a", "t", &["x"]), var("?b", "t", &["w"]), var("?c", "t", &["x"])]]);
}

#[test]
fn trimmer_keeps_a_choice_that_satisfies_every_literal() {
    let (mut problem, _) = create_problem();
    problem.state = vec![
        (s("in"), vs(&["key1", "box0"])),
        (s("in"), vs(&["key0", "box2"])),
        (s("open"), vs(&["box2"])),
    ];
    let rv = vec![var("?k", "key", &["key0", "key1"]), var("?b", "box", &["box0", "box1", "box2"])];
    let pres = vec![lit(0, "in", &["?k", "?b"]), lit(1, "open", &["?b"])];
    let single = vec![var("?k", "key", &["key1"]), var("?b", "box", &["box0"])];
    assert!(pres.iter().all(|p| check_precondition(p, &single, &problem)));
    let (out, cleared) = precon_trimmer(rv, &pres, &problem, &problem.state.clone());
    assert!(cleared);
    assert_eq!(out, vec![var("?k", "key", &["key1"]), var("?b", "box", &["box0"])]);
}
