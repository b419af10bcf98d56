use crys::Assignment;
use crys::Puzzle;

fn chars(s: &str) -> Vec<char> {
    s.chars().collect()
}

fn build(a: &str, b: &str, c: &str) -> Puzzle {
    Puzzle::new(&chars(a), &chars(b), &chars(c)).expect("well-formed puzzle")
}

fn digit(env: &Assignment, c: char) -> u8 {
    env.get(c).expect("letter should be assigned")
}

fn term_value(env: &Assignment, term: &str) -> u64 {
    let mut v: u64 = 0;
    for c in term.chars() {
        v = v * 10 + digit(env, c) as u64;
    }
    v
}

#[test]
fn send_more_money_unique_solution() {
    let p = build("SEND", "MORE", "MONEY");
    let env = p.solve_puzzle().expect("classic puzzle is solvable");
    assert_eq!(digit(&env, 'O'), 0);
    assert_eq!(digit(&env, 'M'), 1);
    assert_eq!(digit(&env, 'Y'), 2);
    assert_eq!(digit(&env, 'E'), 5);
    assert_eq!(digit(&env, 'N'), 6);
    assert_eq!(digit(&env, 'D'), 7);
    assert_eq!(digit(&env, 'R'), 8);
    assert_eq!(digit(&env, 'S'), 9);
    assert_eq!(term_value(&env, "SEND"), 9567);
    assert_eq!(term_value(&env, "MORE"), 1085);
    assert_eq!(term_value(&env, "MONEY"), 10652);
    assert_eq!(9567 + 1085, 10652);
}

#[test]
fn solved_digits_are_unique_and_sum_holds() {
    let p = build("SEND", "MORE", "MONEY");
    let env = p.solve_puzzle().expect("solvable");
    let letters = ['S', 'E', 'N', 'D', 'M', 'O', 'R', 'Y'];
    for (i, &a) in letters.iter().enumerate() {
        let da = digit(&env, a);
        assert!(da <= 9);
        for &b in letters.iter().skip(i + 1) {
            assert_ne!(da, digit(&env, b), "letters {} and {} share a digit", a, b);
        }
    }
    assert_eq!(
        term_value(&env, "SEND") + term_value(&env, "MORE"),
        term_value(&env, "MONEY")
    );
}

#[test]
fn no_leading_zero_in_solution() {
    let p = build("SEND", "MORE", "MONEY");
    let env = p.solve_puzzle().expect("solvable");
    assert_ne!(digit(&env, 'S'), 0);
    assert_ne!(digit(&env, 'M'), 0);
}

#[test]
fn solve_is_deterministic() {
    let p = build("AB", "BA", "CC");
    let first = p.solve_puzzle().expect("solvable");
    let second = p.solve_puzzle().expect("solvable");
    for c in ['A', 'B', 'C'] {
        assert_eq!(first.get(c), second.get(c));
    }
}

#[test]
fn a_plus_a_equals_a_is_unsatisfiable() {
    let p = build("A", "A", "A");
    assert!(p.solve_puzzle().is_none());
}

#[test]
fn ab_plus_ba_equals_cc_solves_by_substitution() {
    let p = build("AB", "BA", "CC");
    let env = p.solve_puzzle().expect("solvable");
    let a = digit(&env, 'A') as u64;
    let b = digit(&env, 'B') as u64;
    let c = digit(&env, 'C') as u64;
    assert_ne!(a, b);
    assert_ne!(a, c);
    assert_ne!(b, c);
    assert_ne!(a, 0);
    assert_ne!(b, 0);
    assert_ne!(c, 0);
    assert_eq!((10 * a + b) + (10 * b + a), 11 * c);
}

#[test]
fn eleven_distinct_letters_unsatisfiable() {
    let p = build("ABCDEFGHIJK", "A", "B");
    assert!(p.solve_puzzle().is_none());
}

#[test]
fn sum_shorter_than_addends_unsatisfiable() {
    // AA + BB = C needs 11*A + 11*B == C with A and B nonzero: impossible.
    let p = build("AA", "BB", "C");
    assert!(p.solve_puzzle().is_none());
}

#[test]
fn single_column_puzzle_solves() {
    // a + b = c over single letters: first solution in search order.
    let p = build("a", "b", "c");
    let env = p.solve_puzzle().expect("solvable");
    let a = env.get('a').unwrap() as u32;
    let b = env.get('b').unwrap() as u32;
    let c = env.get('c').unwrap() as u32;
    assert_ne!(a, 0);
    assert_ne!(b, 0);
    assert_ne!(c, 0);
    assert_ne!(a, b);
    assert_ne!(a, c);
    assert_ne!(b, c);
    assert_eq!(a + b, c);
}

#[test]
fn solve_restores_state_on_failure() {
    let p = build("A", "A", "A");
    let mut pvars = p.pvars.clone();
    let mut vals = Assignment::new();
    let before = pvars.clone();
    assert!(p.solve(&mut pvars, &mut vals).is_none());
    assert_eq!(pvars, before);
    assert_eq!(vals.get('A'), None);
}

#[test]
fn ok_accepts_partial_and_rejects_leading_zero() {
    let p = build("A", "A", "A");
    let empty = Assignment::new();
    assert!(p.ok(&empty));
    let mut zeroed = Assignment::new();
    zeroed.insert('A', 0);
    assert!(!p.ok(&zeroed));
}

#[test]
fn ok_rejects_contradicted_column() {
    // B + B = B with B = 1 fails the units column: 1 + 1 != 1 (mod 10).
    let p = build("B", "B", "B");
    let mut env = Assignment::new();
    env.insert('B', 1);
    assert!(!p.ok(&env));
}
