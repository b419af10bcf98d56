use crys::Assignment;
use crys::MalformedPuzzle;
use crys::Puzzle;

fn chars(s: &str) -> Vec<char> {
    s.chars().collect()
}

fn text(v: Vec<char>) -> String {
    v.into_iter().collect()
}

#[test]
fn digit_in_term_is_malformed() {
    let r = Puzzle::new(&chars("A1B"), &chars("X"), &chars("Y"));
    assert_eq!(r.err(), Some(MalformedPuzzle::NonLetter));
}

#[test]
fn punctuation_in_term_is_malformed() {
    let r = Puzzle::new(&chars("AB"), &chars("C!"), &chars("DE"));
    assert_eq!(r.err(), Some(MalformedPuzzle::NonLetter));
}

#[test]
fn empty_term_is_malformed() {
    let r = Puzzle::new(&chars("AB"), &chars(""), &chars("CD"));
    assert_eq!(r.err(), Some(MalformedPuzzle::EmptyTerm));
    let r = Puzzle::new(&chars(""), &chars(""), &chars(""));
    assert_eq!(r.err(), Some(MalformedPuzzle::EmptyTerm));
}

#[test]
fn empty_term_reported_before_bad_symbol() {
    let r = Puzzle::new(&chars("A1B"), &chars(""), &chars("Y"));
    assert_eq!(r.err(), Some(MalformedPuzzle::EmptyTerm));
}

#[test]
fn lowercase_letters_are_accepted() {
    let p = Puzzle::new(&chars("ab"), &chars("ba"), &chars("cc"));
    assert!(p.is_ok());
}

#[test]
fn construction_pads_and_orders_variables() {
    let p = Puzzle::new(&chars("SEND"), &chars("MORE"), &chars("MONEY")).unwrap();
    // All three lines share the width of the longest term.
    assert_eq!(p.lines.len(), 3);
    for line in &p.lines {
        assert_eq!(line.len(), 5);
    }
    assert_eq!(p.lines[0], chars("0SEND"));
    assert_eq!(p.lines[1], chars("0MORE"));
    assert_eq!(p.lines[2], chars("MONEY"));
    // Rightmost column first, rows top to bottom, first occurrence only.
    assert_eq!(p.pvars, chars("DEYNROSM"));
    // Columns run least-significant first.
    assert_eq!(p.tuples[0], ('D', 'E', 'Y'));
    assert_eq!(p.tuples[4], ('0', '0', 'M'));
    // The leading letter of each term, in term order.
    assert_eq!(p.leading, chars("SMM"));
}

#[test]
fn render_without_assignment_shows_letters() {
    let p = Puzzle::new(&chars("SEND"), &chars("MORE"), &chars("MONEY")).unwrap();
    assert_eq!(text(p.render(None)), " SEND\n MORE\nMONEY\n");
}

#[test]
fn render_with_assignment_substitutes_digits() {
    let p = Puzzle::new(&chars("SEND"), &chars("MORE"), &chars("MONEY")).unwrap();
    let env = p.solve_puzzle().expect("solvable");
    assert_eq!(text(p.render(Some(&env))), " 9567\n 1085\n10652\n");
}

#[test]
fn render_leaves_unassigned_letters() {
    let p = Puzzle::new(&chars("AB"), &chars("BA"), &chars("CC")).unwrap();
    let mut env = Assignment::new();
    env.insert('A', 3);
    assert_eq!(text(p.render(Some(&env))), "3B\nB3\nCC\n");
}

#[test]
fn assignment_insert_get_remove() {
    let mut env = Assignment::new();
    assert_eq!(env.get('A'), None);
    env.insert('A', 4);
    env.insert('B', 7);
    assert_eq!(env.get('A'), Some(4));
    assert_eq!(env.get('B'), Some(7));
    env.insert('A', 5);
    assert_eq!(env.get('A'), Some(5));
    assert!(env.digit_used(5));
    assert!(env.digit_used(7));
    assert!(!env.digit_used(4));
    env.remove('A');
    assert_eq!(env.get('A'), None);
    assert_eq!(env.get('B'), Some(7));
}

#[test]
fn assignment_snapshot_is_independent() {
    let mut env = Assignment::new();
    env.insert('A', 1);
    let copy = env.snapshot();
    env.remove('A');
    assert_eq!(copy.get('A'), Some(1));
    assert_eq!(env.get('A'), None);
}
