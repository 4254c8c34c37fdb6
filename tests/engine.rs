use csp::constraint::{build_arcs, Constraint};
use csp::filter::{filter_domain, is_consistent, revise_arc};
use csp::relation::Relation;
use csp::solver::solution;
use csp::store::Variables;
use csp::value::{Record, VariableType};

fn scalars_of(vars: &Variables<i32>, name: &str) -> Vec<i32> {
    vars.get(name)
        .unwrap()
        .iter()
        .map(|v| *v.value().unwrap())
        .collect()
}

fn bound(asg: &csp::solver::Assignment<'_, i32>, name: &str) -> i32 {
    *asg.get(name).unwrap().value().unwrap()
}

fn xy_store() -> Variables<i32> {
    let mut vars = Variables::new();
    assert!(vars.insert("X", vec![1, 2, 3]));
    assert!(vars.insert("Y", vec![1, 2, 3]));
    vars
}

#[test]
fn distinct_then_less_filters_and_solves() {
    let mut vars = xy_store();
    let cs = vec![
        Constraint::binary("X", "Y", Relation::Distinct),
        Constraint::binary("X", "Y", Relation::Less),
    ];
    filter_domain(&mut vars, &cs);
    let dx = scalars_of(&vars, "X");
    let dy = scalars_of(&vars, "Y");
    assert!(dx.iter().all(|x| *x == 1 || *x == 2));
    assert!(dy.iter().all(|y| *y == 2 || *y == 3));
    let asg = solution(&vars, &cs).unwrap();
    let pair = (bound(&asg, "X"), bound(&asg, "Y"));
    assert!(pair == (1, 2) || pair == (1, 3) || pair == (2, 3));
}

#[test]
fn zero_constraint_fixes_value() {
    let mut vars = Variables::new();
    assert!(vars.insert("Z", (0..=9).collect()));
    let cs = vec![Constraint::unary("Z", Relation::Zero)];
    filter_domain(&mut vars, &cs);
    assert_eq!(scalars_of(&vars, "Z"), vec![0]);
    let asg = solution(&vars, &cs).unwrap();
    assert_eq!(bound(&asg, "Z"), 0);
}

#[test]
fn filtering_only_removes_values() {
    let mut vars = xy_store();
    let cs = vec![Constraint::binary("X", "Y", Relation::Less)];
    filter_domain(&mut vars, &cs);
    assert_eq!(scalars_of(&vars, "X"), vec![1, 2]);
    assert_eq!(scalars_of(&vars, "Y"), vec![2, 3]);
}

#[test]
fn filtering_twice_matches_once() {
    let cs = vec![
        Constraint::binary("X", "Y", Relation::Distinct),
        Constraint::binary("X", "Y", Relation::Less),
    ];
    let mut once = xy_store();
    filter_domain(&mut once, &cs);
    let mut twice = xy_store();
    filter_domain(&mut twice, &cs);
    filter_domain(&mut twice, &cs);
    assert_eq!(scalars_of(&once, "X"), scalars_of(&twice, "X"));
    assert_eq!(scalars_of(&once, "Y"), scalars_of(&twice, "Y"));
}

#[test]
fn second_filter_can_prune_further() {
    // The unary arc removes 0 from X after Y was pruned against it; the
    // domains are then consistent, so the first filter stops, and only a
    // second one prunes Y again.
    let mut vars = Variables::new();
    assert!(vars.insert("X", vec![0, 2]));
    assert!(vars.insert("Y", vec![1, 2, 3]));
    let cs = vec![
        Constraint::binary("X", "Y", Relation::Less),
        Constraint::unary("X", Relation::NonZero),
    ];
    filter_domain(&mut vars, &cs);
    assert_eq!(scalars_of(&vars, "X"), vec![2]);
    assert_eq!(scalars_of(&vars, "Y"), vec![1, 2, 3]);
    filter_domain(&mut vars, &cs);
    assert_eq!(scalars_of(&vars, "Y"), vec![3]);
}

#[test]
fn solution_satisfies_every_constraint() {
    let mut vars = Variables::new();
    assert!(vars.insert("A", vec![3, 2, 1]));
    assert!(vars.insert("B", vec![3, 2, 1]));
    assert!(vars.insert("C", vec![3, 2, 1]));
    let cs = vec![
        Constraint::binary("A", "B", Relation::Less),
        Constraint::binary("B", "C", Relation::Less),
    ];
    let asg = solution(&vars, &cs).unwrap();
    assert_eq!((bound(&asg, "A"), bound(&asg, "B"), bound(&asg, "C")), (1, 2, 3));
}

#[test]
fn solution_found_without_filtering() {
    let mut vars = Variables::new();
    assert!(vars.insert("P", vec![5, 4, 3]));
    assert!(vars.insert("Q", vec![5, 4, 3]));
    let cs = vec![Constraint::binary("Q", "P", Relation::Less)];
    let asg = solution(&vars, &cs).unwrap();
    assert!(bound(&asg, "Q") < bound(&asg, "P"));
}

#[test]
fn unsatisfiable_gives_none() {
    let mut vars = Variables::new();
    assert!(vars.insert("P", vec![1]));
    assert!(vars.insert("Q", vec![1]));
    let cs = vec![Constraint::binary("P", "Q", Relation::Distinct)];
    assert!(solution(&vars, &cs).is_none());
    filter_domain(&mut vars, &cs);
    assert!(scalars_of(&vars, "P").is_empty());
}

#[test]
fn unknown_variable_fails_search_and_consistency() {
    let vars = xy_store();
    let cs = vec![Constraint::binary("X", "W", Relation::Less)];
    assert!(!is_consistent(&vars, &cs));
    assert!(solution(&vars, &cs).is_none());
}

#[test]
fn forward_and_reversed_arcs() {
    let mut vars = xy_store();
    let c = Constraint::binary("X", "Y", Relation::Less);
    assert!(revise_arc(&mut vars, &c, false));
    assert_eq!(scalars_of(&vars, "X"), vec![1, 2]);
    assert_eq!(scalars_of(&vars, "Y"), vec![1, 2, 3]);
    assert!(revise_arc(&mut vars, &c, true));
    assert_eq!(scalars_of(&vars, "Y"), vec![2, 3]);
    assert!(!revise_arc(&mut vars, &c, true));
}

#[test]
fn arcs_double_binary_constraints() {
    let cs = vec![
        Constraint::unary("X", Relation::Zero),
        Constraint::binary("X", "Y", Relation::Less),
    ];
    let arcs = build_arcs(&cs);
    let got: Vec<(usize, bool)> = arcs.iter().map(|a| (a.constraint, a.reversed)).collect();
    assert_eq!(got, vec![(0, false), (1, false), (1, true)]);
}

#[test]
fn variant_is_fixed_at_insertion() {
    let mut vars: Variables<i32> = Variables::new();
    assert!(vars.insert("S", vec![1, 2]));
    assert!(!vars.insert_hidden("S", vec![Record::new()]));
    assert_eq!(scalars_of(&vars, "S"), vec![1, 2]);
    let mut r = Record::new();
    r.insert("k".to_string(), 4);
    assert!(vars.insert_hidden("H", vec![r]));
    assert!(!vars.insert("H", vec![7]));
    assert!(vars.get("H").unwrap()[0].hidden().is_some());
    assert!(vars.get("H").unwrap()[0].value().is_none());
    assert!(vars.insert("S", vec![9]));
    assert_eq!(scalars_of(&vars, "S"), vec![9]);
}

#[test]
fn store_names_and_lookup() {
    let vars = xy_store();
    let names = vars.names();
    assert_eq!(names, vec!["X".to_string(), "Y".to_string()]);
    assert!(vars.get("Q").is_none());
    assert_eq!(vars.len(), 2);
}

#[test]
fn record_later_binding_wins() {
    let mut r = Record::new();
    r.insert("A".to_string(), 1);
    r.insert("B".to_string(), 2);
    r.insert("A".to_string(), 3);
    assert_eq!(r.get("A"), Some(&3));
    assert_eq!(r.get("B"), Some(&2));
    assert_eq!(r.get("C"), None);
}

#[test]
fn value_accessors() {
    let v: VariableType<i32> = VariableType::Value(5);
    assert_eq!(v.value(), Some(&5));
    assert_eq!(v.value_ref(), Some(5));
    assert!(v.hidden().is_none());
    let h: VariableType<i32> = VariableType::Hidden(Record::new());
    assert!(h.value().is_none());
    assert!(h.value_ref().is_none());
}

#[test]
fn scalar_and_record_listings() {
    let mut vars: Variables<i32> = Variables::new();
    assert!(vars.insert("S", vec![4, 5]));
    let mut r = Record::new();
    r.insert("S".to_string(), 4);
    assert!(vars.insert_hidden("H", vec![r]));
    let scalars = vars.iter();
    assert_eq!(scalars.len(), 1);
    assert_eq!(scalars[0].0, "S");
    let records = vars.iter_hidden();
    assert_eq!(records.len(), 1);
    assert_eq!(records[0].0, "H");
    let values = vars.values();
    assert_eq!(values[0].1, vec![&4, &5]);
    let hidden = vars.hidden_values();
    assert_eq!(hidden[0].1[0].get("S"), Some(&4));
    let copy = vars.get("H").unwrap()[0].hidden_ref().unwrap();
    assert_eq!(copy.get("S"), Some(&4));
    assert!(vars.get("S").unwrap()[0].hidden_ref().is_none());
}

#[test]
fn replace_checks_variant() {
    let mut vars: Variables<i32> = Variables::new();
    assert!(vars.insert("S", vec![4, 5]));
    assert!(!vars.replace("S", vec![VariableType::Hidden(Record::new())]));
    assert_eq!(scalars_of(&vars, "S"), vec![4, 5]);
    assert!(vars.replace("S", vec![VariableType::Value(7)]));
    assert_eq!(scalars_of(&vars, "S"), vec![7]);
    assert!(!vars.replace("T", vec![]));
}
