use hp_solver::hddl::domain_text::{parse_hddl, read_domain, HddlError};
use hp_solver::hddl::domain_reader::{get_action_effects, get_action_precondition, get_domain_constants};
use hp_solver::hddl::lexing::{chars_of, strip_comments};
use hp_solver::hddl::method_reader::read_method_texts;
use hp_solver::hddl::precondition_reader::{get_forall, get_method_preconditions};
use hp_solver::hddl::problem_reader::{read_problem, ReadError};
use hp_solver::hddl::subtask_order::order_subtasks;

fn s(x: &str) -> String {
    x.to_string()
}

fn vs(xs: &[&str]) -> Vec<String> {
    xs.iter().map(|x| x.to_string()).collect()
}

fn text(v: &[char]) -> String {
    v.iter().collect()
}

const TRANSPORT_PROBLEM: &str = "; a small transport problem\n(define\n\t(problem pfile01)\n\t(:domain  domain_htn)\n\t(:objects\n\t\tpackage-0 - package\n\t\tcapacity-0 capacity-1 - capacity-number\n\t\tcity-loc-0 city-loc-1 - location\n\t\ttruck-0 - vehicle\n\t)\n\t(:htn\n\t\t:parameters ()\n\t\t:subtasks (and\n\t\t (task0 (deliver package-0 city-loc-0)) ; the only task\n\t\t)\n\t\t:ordering (and\n\t\t)\n\t)\n\t(:init\n\t\t(capacity-predecessor capacity-0 capacity-1)\n\t\t(road city-loc-0 city-loc-1)\n\t\t(at package-0 city-loc-1)\n\t)\n)\n";

#[test]
fn comments_run_to_the_end_of_the_line() {
    let chars = chars_of("(a) ; note\n(b)\n");
    let clean = strip_comments(&chars).unwrap();
    assert_eq!(text(&clean), "(a) \n(b)\n");
}

#[test]
fn a_comment_without_a_line_feed_is_refused() {
    let chars = chars_of("(a) ; note");
    assert!(strip_comments(&chars).is_none());
    assert!(matches!(read_problem("(define ; open"), Err(ReadError::UnclosedComment)));
}

#[test]
fn transport_problem_is_read() {
    let p = match read_problem(TRANSPORT_PROBLEM) {
        Ok(p) => p,
        Err(_) => panic!("the problem was not read"),
    };
    assert_eq!(p.name, "pfile01");
    assert_eq!(p.domain, "domain_htn");
    assert_eq!(
        p.objects,
        vec![
            (s("package-0"), s("package"), vec![]),
            (s("capacity-0"), s("capacity-number"), vec![]),
            (s("capacity-1"), s("capacity-number"), vec![]),
            (s("city-loc-0"), s("location"), vec![]),
            (s("city-loc-1"), s("location"), vec![]),
            (s("truck-0"), s("vehicle"), vec![]),
        ]
    );
    assert!(p.htn.parameters.is_empty());
    assert_eq!(p.htn.subtasks, vec![(s("deliver"), s("task0"), vs(&["package-0", "city-loc-0"]))]);
    assert_eq!(
        p.state,
        vec![
            (s("capacity-predecessor"), vs(&["capacity-0", "capacity-1"])),
            (s("road"), vs(&["city-loc-0", "city-loc-1"])),
            (s("at"), vs(&["package-0", "city-loc-1"])),
        ]
    );
    assert!(p.goal.is_none());
}

#[test]
fn problem_with_parameters_ordering_and_goal_is_read() {
    let t = "(define (problem p2) (:domain d)\n(:htn :parameters (?x - obj)\n:subtasks (and (t1 (move ?x)) (t2 (stay)))\n:ordering (and (< t2 t1))\n)\n(:init (at a))\n(:goal (and (at b) (free a))))\n";
    let p = match read_problem(t) {
        Ok(p) => p,
        Err(_) => panic!("the problem was not read"),
    };
    assert_eq!(p.htn.parameters, vec![(s("?x"), s("obj"))]);
    assert_eq!(
        p.htn.subtasks,
        vec![(s("stay"), s("t2"), vec![]), (s("move"), s("t1"), vs(&["?x"]))]
    );
    assert!(p.objects.is_empty());
    assert_eq!(p.state, vec![(s("at"), vs(&["a"]))]);
    assert_eq!(p.goal, Some(vec![(s("at"), vs(&["b"])), (s("free"), vs(&["a"]))]));
}

#[test]
fn a_text_without_a_problem_is_malformed() {
    assert!(matches!(read_problem("(define (domain d))\n"), Err(ReadError::Malformed)));
    assert!(matches!(read_problem(""), Err(ReadError::Malformed)));
}

#[test]
fn subtasks_follow_their_ordering() {
    let subs = vec![(s("a"), s("t1"), vec![]), (s("b"), s("t2"), vec![])];
    let ordering = Some(vec![(s("<"), s("t2"), s("t1"))]);
    let res = order_subtasks(subs, &ordering).unwrap();
    assert_eq!(res, vec![(s("b"), s("t2"), vec![]), (s("a"), s("t1"), vec![])]);
}

#[test]
fn subtasks_without_constraints_keep_their_order() {
    let subs = vec![(s("a"), s("t1"), vec![]), (s("b"), s("t2"), vec![])];
    let res = order_subtasks(subs.clone(), &Some(vec![])).unwrap();
    assert_eq!(res, subs);
    let res = order_subtasks(subs.clone(), &None).unwrap();
    assert_eq!(res, subs);
}

#[test]
fn an_ordering_that_cannot_be_followed_gives_none() {
    let subs = vec![(s("a"), s("t1"), vec![])];
    assert!(order_subtasks(subs, &Some(vec![(s("<"), s("t0"), s("t1"))])).is_none());
    let subs = vec![(s("a"), s("t1"), vec![]), (s("b"), s("t2"), vec![])];
    assert!(order_subtasks(subs, &Some(vec![(s("<"), s("t3"), s("t2"))])).is_none());
}

#[test]
fn method_preconditions_of_every_kind_are_read() {
    let t = ":precondition (and (at ?p ?l) (not (road ?l ?l2)) (= ?a ?b) (not (= ?x ?y)) (forall (?o - obj) (not (on ?a ?o)))))\n:ordered-subtasks";
    let chars = chars_of(t);
    let (pres, used) = get_method_preconditions(&chars, 0).unwrap();
    assert_eq!(
        pres,
        vec![
            (0, s("at"), vs(&["?p", "?l"]), None),
            (1, s("road"), vs(&["?l", "?l2"]), None),
            (2, s("="), vs(&["?b", "?a"]), None),
            (3, s("!="), vs(&["?y", "?x"]), None),
            (4, s("forall"), vec![], Some(((s("?o"), s("obj")), vec![(false, s("on"), vs(&["?a", "?o"]))]))),
        ]
    );
    assert_eq!(text(&chars[used..]), ":ordered-subtasks");
}

#[test]
fn an_equality_without_names_has_no_preconditions() {
    let chars = chars_of(":precondition (= )");
    assert!(get_method_preconditions(&chars, 0).is_none());
    let chars = chars_of(":subtasks (and)");
    assert!(get_method_preconditions(&chars, 0).is_none());
}

#[test]
fn a_condition_without_a_name_is_left_out() {
    let chars = chars_of(":precondition (and ( ) (at ?x))");
    let (pres, _) = get_method_preconditions(&chars, 0).unwrap();
    assert_eq!(pres, vec![(0, s("at"), vs(&["?x"]), None)]);
}

#[test]
fn forall_reads_its_variable_and_literals() {
    let chars = chars_of("forall (?o - obj) (on ?a ?o) (not (in ?o ?a)))  rest");
    let (f, used) = get_forall(&chars, 0).unwrap();
    assert_eq!(
        f,
        ((s("?o"), s("obj")), vec![(true, s("on"), vs(&["?a", "?o"])), (false, s("in"), vs(&["?o", "?a"]))])
    );
    assert_eq!(text(&chars[used..]), "rest");
}

const TRANSPORT_DOMAIN: &str = "(define (domain transport)\n (:requirements :negative-preconditions :hierarchy :typing)\n (:types\n  location target locatable - object\n  vehicle package - locatable\n )\n (:predicates\n  (road ?l1 ?l2 - location)\n  (at ?x - locatable ?v - location)\n )\n (:task deliver :parameters (?p - package ?l - location))\n (:method m-deliver\n  :parameters (?p - package ?l1 ?l2 - location ?v - vehicle)\n  :task (deliver ?p ?l2)\n  :ordered-subtasks (and\n   (task0 (drive ?v ?l1 ?l2)))\n )\n (:action drive\n  :parameters (?v - vehicle ?l1 ?l2 - location)\n  :precondition (and\n    (at ?v ?l1)\n    (road ?l1 ?l2))\n  :effect (and\n    (not (at ?v ?l1))\n    (at ?v ?l2))\n )\n)\n";

#[test]
fn transport_domain_and_problem_are_read_together() {
    let (problem, domain) = match parse_hddl(TRANSPORT_PROBLEM, TRANSPORT_DOMAIN) {
        Ok(pd) => pd,
        Err(_) => panic!("the texts were not read"),
    };
    assert_eq!(problem.name, "pfile01");
    assert_eq!(domain.name, "transport");
    assert_eq!(
        domain.types,
        vec![
            (s("location"), s("object")),
            (s("target"), s("object")),
            (s("locatable"), s("object")),
            (s("vehicle"), s("locatable")),
            (s("package"), s("locatable")),
        ]
    );
    assert!(domain.constants.is_none());
    assert_eq!(domain.predicates.len(), 2);
    assert_eq!(domain.predicates[1].name, "at");
    assert_eq!(domain.predicates[1].args[1].name, "?v");
    assert_eq!(domain.predicates[1].args[1].object_type, "location");
    assert_eq!(domain.tasks.len(), 1);
    assert_eq!(domain.tasks[0].name, "deliver");
    assert_eq!(domain.tasks[0].id, 1000);
    assert_eq!(domain.tasks[0].alias, "alias");
    assert_eq!(domain.tasks[0].parameters[1].name, "?l");
    assert_eq!(domain.actions.len(), 1);
    let drive = &domain.actions[0];
    assert_eq!(drive.id, 0);
    assert_eq!(drive.parameters.len(), 3);
    assert_eq!(
        drive.precondition,
        Some(vec![(0, s("at"), vs(&["?v", "?l1"]), None), (0, s("road"), vs(&["?l1", "?l2"]), None)])
    );
    assert_eq!(
        drive.effect,
        Some(vec![(false, s("at"), vs(&["?v", "?l1"])), (true, s("at"), vs(&["?v", "?l2"]))])
    );
    assert_eq!(domain.methods.len(), 1);
    assert_eq!(domain.methods[0].0, "deliver");
    let m = &domain.methods[0].1[0];
    assert_eq!(m.name, "m-deliver");
    assert_eq!(m.id, 100);
    assert!(m.ordering);
    assert_eq!(m.task, (s("deliver"), vs(&["?p", "?l2"])));
    assert_eq!(m.parameters.len(), 4);
    assert_eq!(m.subtasks.len(), 1);
    assert_eq!(m.subtasks[0].1.len(), 3);
}

#[test]
fn a_malformed_domain_is_reported() {
    assert!(matches!(parse_hddl(TRANSPORT_PROBLEM, "(define (domain d))\n"), Err(HddlError::DomainMalformed)));
    assert!(matches!(parse_hddl("(x)", "(y)"), Err(HddlError::BothMalformed)));
    assert!(matches!(parse_hddl("(x)", TRANSPORT_DOMAIN), Err(HddlError::ProblemMalformed)));
    assert!(matches!(parse_hddl("; open", TRANSPORT_DOMAIN), Err(HddlError::ProblemComment)));
    assert!(matches!(parse_hddl(TRANSPORT_PROBLEM, "; open"), Err(HddlError::DomainComment)));
}

#[test]
fn a_subtask_with_too_few_arguments_makes_the_domain_unreadable() {
    let short = TRANSPORT_DOMAIN.replace("(drive ?v ?l1 ?l2)", "(drive ?v ?l1)");
    assert!(read_domain(&short).is_err());
    assert!(read_domain(TRANSPORT_DOMAIN).is_ok());
}

#[test]
fn constants_are_read_with_their_types() {
    let chars = chars_of("(:constants truck-0 truck-1 - vehicle\n depot - location)\n(:predicates");
    let (cs, used) = get_domain_constants(&chars, 0).unwrap();
    assert_eq!(
        cs,
        vec![(s("truck-0"), s("vehicle")), (s("truck-1"), s("vehicle")), (s("depot"), s("location"))]
    );
    assert_eq!(text(&chars[used..]), "(:predicates");
}

#[test]
fn an_action_precondition_may_stand_alone() {
    let chars = chars_of(":precondition (at ?v ?l)\n :effect");
    let (ps, used) = get_action_precondition(&chars, 0).unwrap();
    assert_eq!(ps, vec![(0, s("at"), vs(&["?v", "?l"]), None)]);
    assert_eq!(text(&chars[used..]), ":effect");
}

#[test]
fn an_action_precondition_may_hold_forall_and_equality() {
    let chars = chars_of(":precondition (and (forall (?o - obj) (not (on ?o ?a)) (clear ?o)) (= ?a ?b))");
    let (ps, _) = get_action_precondition(&chars, 0).unwrap();
    assert_eq!(
        ps,
        vec![
            (
                4,
                s("forall"),
                vec![],
                Some(((s("?o"), s("obj")), vec![(false, s("on"), vs(&["?o", "?a"])), (true, s("clear"), vs(&["?o"]))]))
            ),
            (2, s("no name"), vs(&["?a", "?b"]), None),
        ]
    );
}

#[test]
fn a_single_effect_needs_no_and() {
    let chars = chars_of(":effect (at ?v ?l)\n)");
    let (es, used) = get_action_effects(&chars, 0).unwrap();
    assert_eq!(es, vec![(true, s("at"), vs(&["?v", "?l"]))]);
    assert_eq!(text(&chars[used..]), ")");
}

#[test]
fn a_method_text_holds_subtasks_ordering_and_constraints() {
    let chars = chars_of("(:method m1 :parameters (?a ?b - obj) :task (t ?a) :subtasks (and (s1 (go ?a)) (s2 (go ?b))) :ordering (and (< s1 s2)) :constraints (and (not (= ?a ?b))))\n");
    let (texts, _) = read_method_texts(&chars, 0);
    assert_eq!(texts.len(), 1);
    let m = &texts[0];
    assert_eq!(m.0, "m1");
    assert_eq!(m.1.len(), 2);
    assert_eq!(m.1[1].name, "?b");
    assert_eq!(m.1[1].object_type, "obj");
    assert_eq!(m.2, (s("t"), vs(&["?a"])));
    assert!(m.3.is_none());
    assert_eq!(
        m.4,
        Some((vec![(s("go"), s("s1"), vs(&["?a"])), (s("go"), s("s2"), vs(&["?b"]))], s(":subtasks")))
    );
    assert_eq!(m.5, Some(vec![(s("<"), s("s1"), s("s2"))]));
    assert_eq!(m.6, Some(vec![Some((false, s("?a"), s("?b")))]));
}
