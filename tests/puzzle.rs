use csp::puzzle::solve_puzzle;

fn chars(s: &str) -> Vec<char> {
    s.chars().collect()
}

fn digit(m: &[(char, i32)], c: char) -> i64 {
    m.iter().find(|(l, _)| *l == c).unwrap().1 as i64
}

fn number(m: &[(char, i32)], w: &str) -> i64 {
    w.chars().fold(0, |acc, c| acc * 10 + digit(m, c))
}

fn check(m: &[(char, i32)], a: &str, b: &str, c: &str) {
    assert_eq!(number(m, a) + number(m, b), number(m, c));
    for (i, (_, x)) in m.iter().enumerate() {
        assert!((0..=9).contains(x));
        for (_, y) in m.iter().skip(i + 1) {
            assert_ne!(x, y);
        }
    }
    for w in [a, b, c] {
        assert_ne!(digit(m, w.chars().next().unwrap()), 0);
    }
}

#[test]
fn send_more_money() {
    let m = solve_puzzle(&chars("SEND"), &chars("MORE"), &chars("MONEY")).unwrap();
    let expected = [('S', 9), ('E', 5), ('N', 6), ('D', 7), ('M', 1), ('O', 0), ('R', 8), ('Y', 2)];
    assert_eq!(m.len(), 8);
    for (c, d) in expected {
        assert_eq!(digit(&m, c), d);
    }
}

#[test]
fn isa_roa_telo() {
    let m = solve_puzzle(&chars("ISA"), &chars("ROA"), &chars("TELO")).unwrap();
    check(&m, "ISA", "ROA", "TELO");
}

#[test]
fn a_plus_a_is_a_has_no_solution() {
    assert!(solve_puzzle(&chars("A"), &chars("A"), &chars("A")).is_none());
}

#[test]
fn a_plus_b_is_ba() {
    // A + B = 10 * B + A forces B = 0, which the leading-digit rule forbids,
    // so any mapping returned must satisfy the sum; none exists here.
    let r = solve_puzzle(&chars("A"), &chars("B"), &chars("BA"));
    if let Some(m) = &r {
        check(m, "A", "B", "BA");
    }
    assert!(r.is_none());
}

#[test]
fn lower_case_letters_are_folded() {
    let m = solve_puzzle(&chars("a"), &chars("b"), &chars("c")).unwrap();
    check(&m, "A", "B", "C");
}

#[test]
fn check_accepts_a_true_sum() {
    let m = vec![('A', 1), ('B', 9), ('C', 0)];
    assert!(csp::puzzle::check_solution(&chars("A"), &chars("B"), &chars("AC"), &m));
}

#[test]
fn check_rejects_wrong_sums_and_repeats() {
    let m = vec![('A', 1), ('B', 8), ('C', 0)];
    assert!(!csp::puzzle::check_solution(&chars("A"), &chars("B"), &chars("AC"), &m));
    let repeated = vec![('A', 1), ('B', 1)];
    assert!(!csp::puzzle::check_solution(&chars("A"), &chars("A"), &chars("B"), &repeated));
    let leading_zero = vec![('A', 0)];
    assert!(!csp::puzzle::check_solution(&chars("A"), &chars("A"), &chars("A"), &leading_zero));
    let missing = vec![('A', 1)];
    assert!(!csp::puzzle::check_solution(&chars("A"), &chars("A"), &chars("B"), &missing));
    let out_of_range = vec![('A', 5), ('B', 10)];
    assert!(!csp::puzzle::check_solution(&chars("A"), &chars("A"), &chars("B"), &out_of_range));
}

#[test]
fn encoding_registers_letters_once() {
    let p = csp::puzzle::encode_puzzle(&chars("SEND"), &chars("MORE"), &chars("MONEY"));
    let mut letters = p.letters.clone();
    letters.sort();
    assert_eq!(letters, vec!['D', 'E', 'M', 'N', 'O', 'R', 'S', 'Y']);
    assert_eq!(p.variables.get("#").unwrap().len(), 1);
    assert_eq!(p.variables.get("CARRY_4").unwrap().len(), 2);
    assert!(p.variables.get("HIDDEN_0").unwrap()[0].hidden().is_some());
}

#[test]
fn encoding_constrains_letters() {
    let p = csp::puzzle::encode_puzzle(&chars("ab"), &chars("c"), &chars("ab"));
    assert_eq!(p.letters.len(), 3);
    assert!(p.letters.iter().all(|c| c.is_ascii_uppercase()));
    let mut distinct = 0;
    let mut nonzero = Vec::new();
    for c in p.constraints.iter() {
        match c {
            csp::constraint::Constraint::Binary(_, _, csp::relation::Relation::Distinct) => distinct += 1,
            csp::constraint::Constraint::Unary(x, csp::relation::Relation::NonZero) => nonzero.push(x.clone()),
            _ => {}
        }
    }
    assert_eq!(distinct, 6);
    nonzero.sort();
    assert_eq!(nonzero, vec!["A".to_string(), "A".to_string(), "C".to_string()]);
}
