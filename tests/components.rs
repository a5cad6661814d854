use sea_canal::pattern::PatternElem::{Const, Cube, CubeRoot, Custom, Div, Meta, Mult, Plus, Square, SquareRoot};
use sea_canal::seq::SeqElem;
use sea_canal::{
    is_repeating, is_repeating_with_predicate, Analyzer, CustomPatternElem, MetaAnalyzer, NoRelation,
    OpSequence, Pattern, PatternElem, PatternElemChoice, Stepper,
};

fn choice(x: i32, y: i32) -> Vec<PatternElem> {
    PatternElemChoice::<NoRelation>::from_i32_pair(x, y, Vec::new()).elems
}

#[test]
fn stepper_yields_progression() {
    let mut s = Stepper::new(1, 8, 3);
    assert_eq!(Some(1), s.next());
    assert_eq!(Some(4), s.next());
    assert_eq!(Some(7), s.next());
    assert_eq!(None, s.next());
    assert_eq!(None, s.next());
}

#[test]
fn stepper_empty_and_near_limit() {
    let mut s = Stepper::new(5, 5, 1);
    assert_eq!(None, s.next());
    let mut t = Stepper::new(usize::MAX - 2, usize::MAX, 10);
    assert_eq!(Some(usize::MAX - 2), t.next());
    assert_eq!(None, t.next());
}

#[test]
fn repetition_with_blocks() {
    assert!(is_repeating(&[1, 2, 1, 2]));
    assert!(is_repeating(&[1, 2, 3, 1, 2, 3]));
    assert!(!is_repeating(&[1, 2, 3, 1, 2, 4]));
    assert!(!is_repeating(&[7, 7, 7]));
    assert!(!is_repeating::<i32>(&[]));
    assert!(!is_repeating(&[5]));
    assert!(is_repeating_with_predicate(&[1, 3, 5, 7], |a: &i32, b: &i32| a % 2 == b % 2));
    assert!(!is_repeating_with_predicate(&[1, 2, 5, 7], |a: &i32, b: &i32| a % 2 == b % 2));
}

#[test]
fn choice_set_of_a_step() {
    assert_eq!(vec![Const(4), Mult(2), Plus(2), Square], choice(2, 4));
    assert_eq!(vec![Const(2), Div(2), Plus(-2), SquareRoot], choice(4, 2));
    assert_eq!(vec![Const(8), Cube, Mult(4), Plus(6)], choice(2, 8));
    assert_eq!(vec![Const(2), CubeRoot, Div(4), Plus(-6)], choice(8, 2));
    assert_eq!(vec![Const(1), Cube, CubeRoot, Div(1), Mult(1), Plus(0), Square, SquareRoot], choice(1, 1));
    assert_eq!(vec![Const(5), Div(0), Plus(5)], choice(0, 5));
    assert_eq!(vec![Const(0), Mult(0), Plus(-3)], choice(3, 0));
}

#[test]
fn choice_set_at_the_limits() {
    assert_eq!(vec![Const(i32::MIN), Div(1), Mult(1), Plus(0)], choice(i32::MIN, i32::MIN));
    assert_eq!(vec![Const(i32::MIN), Plus(i32::MIN + 1)], choice(-1, i32::MIN));
    assert_eq!(vec![Const(i32::MAX)], choice(i32::MIN, i32::MAX));
    assert_eq!(vec![Const(-1), Div(-1), Mult(-1), Plus(-2), SquareRoot], choice(1, -1));
}

fn pow4(i: i32, j: i32) -> bool {
    i64::from(i).pow(4) == i64::from(j)
}

#[test]
fn custom_relation_in_choice_set() {
    let rel: CustomPatternElem<fn(i32, i32) -> bool> = CustomPatternElem::new(pow4, "^4");
    assert!(rel.check(2, 16));
    assert!(!rel.check(2, 15));
    let c = PatternElemChoice::from_i32_pair(2, 16, vec![rel.clone()]);
    assert_eq!(vec![Const(16), Custom(rel.clone()), Mult(8), Plus(14)], c.elems);
    assert_eq!("^4", Custom(rel).render());
}

#[test]
fn pattern_extend_each() {
    let p: Pattern = Pattern::new(vec![Plus(3), Mult(2)]);
    let ps = p.extend_each(&vec![Div(2), Div(3)]);
    assert_eq!(vec![Pattern::new(vec![Plus(3), Mult(2), Div(2)]), Pattern::new(vec![Plus(3), Mult(2), Div(3)])], ps);
    assert_eq!(Vec::<Pattern>::new(), p.extend_each(&Vec::new()));
}

#[test]
fn op_sequence_extend_each() {
    let s = OpSequence::new(vec![SeqElem::Plus(3), SeqElem::Mult(2)]);
    let ss = s.extend_each(&vec![SeqElem::Div(2), SeqElem::Div(3)]);
    assert_eq!(
        vec![
            OpSequence::new(vec![SeqElem::Plus(3), SeqElem::Mult(2), SeqElem::Div(2)]),
            OpSequence::new(vec![SeqElem::Plus(3), SeqElem::Mult(2), SeqElem::Div(3)])
        ],
        ss
    );
}

#[test]
fn meta_analyzer_on_choice_sets() {
    let sets: Vec<PatternElemChoice<NoRelation>> = vec![
        PatternElemChoice::from_i32_pair(1, 2, Vec::new()),
        PatternElemChoice::from_i32_pair(2, 4, Vec::new()),
        PatternElemChoice::from_i32_pair(4, 7, Vec::new()),
        PatternElemChoice::from_i32_pair(7, 11, Vec::new()),
    ];
    let found = MetaAnalyzer::new(sets).find_patterns();
    assert_eq!(vec![Pattern::new(vec![Plus(1), Plus(2), Plus(3), Plus(4)])], found);
    assert_eq!(Vec::<Pattern>::new(), MetaAnalyzer::<NoRelation>::new(Vec::new()).find_patterns());
}

#[test]
fn found_patterns_regenerate_sequence() {
    let s = [3, 6, 12, 24, 48];
    let analyzer = Analyzer::from_slice(&s);
    let found = analyzer.find_patterns_of_length(1);
    assert_eq!(vec![Pattern::new(vec![Mult(2)])], found);
    let seq = [5, 8, 11, 14];
    let found = Analyzer::from_slice(&seq).find_patterns_of_length(1);
    assert_eq!(vec![Pattern::new(vec![Plus(3)])], found);
}

#[test]
fn repeated_searches_agree() {
    let analyzer = Analyzer::with_meta(&[10, 11, 10, 12, 10, 13, 10]);
    let first = analyzer.find_patterns_of_length(2);
    let second = analyzer.find_patterns_of_length(2);
    assert_eq!(first, second);
    assert_eq!(2, first.len());
}

#[test]
fn any_pattern_is_last_found() {
    let analyzer = Analyzer::from_slice(&[2, 4, 2, 4, 2]);
    let all = analyzer.find_patterns_of_length(2);
    assert_eq!(Some(Pattern::new(vec![Square, SquareRoot])), analyzer.find_any_pattern_of_length(2));
    assert!(all.contains(&analyzer.find_any_pattern_of_length(2).unwrap()));
    assert_eq!(Some(Pattern::new(vec![Square, SquareRoot])), analyzer.find_any_pattern(5));
}

#[test]
fn smallest_length_wins() {
    let analyzer = Analyzer::from_slice(&[1, 4, 3, 6, 5]);
    assert_eq!(Vec::<Pattern>::new(), analyzer.find_patterns(1));
    assert_eq!(vec![Pattern::new(vec![Plus(3), Plus(-1)])], analyzer.find_patterns(2));
    assert_eq!(vec![Pattern::new(vec![Plus(3), Plus(-1)])], analyzer.find_patterns(9));
    assert_eq!(Vec::<Pattern>::new(), analyzer.find_patterns(0));
}

#[test]
fn meta_single_nested_element() {
    let analyzer = Analyzer::with_meta(&[1, 2, 4, 7, 11]);
    assert_eq!(
        vec![Pattern::new(vec![Meta(Pattern::new(vec![Plus(1), Plus(2), Plus(3), Plus(4)]))])],
        analyzer.find_patterns_of_length(1)
    );
    assert_eq!(Vec::<Pattern>::new(), Analyzer::from_slice(&[1, 2, 4, 7, 11]).find_patterns_of_length(1));
}

#[test]
fn short_sequences_have_no_pattern() {
    for n in 0..5 {
        assert_eq!(Vec::<Pattern>::new(), Analyzer::from_slice(&[7]).find_patterns_of_length(n));
        assert_eq!(Vec::<Pattern>::new(), Analyzer::with_meta(&[7]).find_patterns_of_length(n));
        assert_eq!(Vec::<Pattern>::new(), Analyzer::from_slice(&[]).find_patterns_of_length(n));
    }
    assert_eq!(None, Analyzer::from_slice(&[7]).find_any_pattern(4));
}

#[test]
fn zero_length_has_no_pattern() {
    assert_eq!(Vec::<Pattern>::new(), Analyzer::from_slice(&[1, 2, 3]).find_patterns_of_length(0));
    assert_eq!(None, Analyzer::from_slice(&[1, 2, 3]).find_any_pattern_of_length(0));
}

#[test]
fn longer_cycle_than_steps_has_no_pattern() {
    assert_eq!(Vec::<Pattern>::new(), Analyzer::from_slice(&[1, 2, 3]).find_patterns_of_length(3));
    assert_eq!(6, Analyzer::from_slice(&[1, 2, 3]).find_patterns_of_length(2).len());
}

fn apply(e: &PatternElem, x: i32) -> Option<i64> {
    let x = i64::from(x);
    match e {
        Const(v) => Some(i64::from(*v)),
        Plus(d) => Some(x + i64::from(*d)),
        Mult(m) => Some(x * i64::from(*m)),
        Div(d) if *d != 0 && x % i64::from(*d) == 0 => Some(x / i64::from(*d)),
        Square => Some(x * x),
        Cube => Some(x * x * x),
        _ => None,
    }
}

fn takes_step(e: &PatternElem, x: i32, y: i32) -> bool {
    match e {
        SquareRoot => i64::from(y) * i64::from(y) == i64::from(x),
        CubeRoot => i64::from(y).pow(3) == i64::from(x),
        _ => apply(e, x) == Some(i64::from(y)),
    }
}

fn regenerates(p: &Pattern, s: &[i32]) -> bool {
    let n = p.0.len();
    (0..s.len() - 1).all(|i| match &p.0[i % n] {
        Meta(sub) => sub.0.get(i / n).map_or(false, |e| takes_step(e, s[i], s[i + 1])),
        e => takes_step(e, s[i], s[i + 1]),
    })
}

#[test]
fn every_found_pattern_regenerates_its_sequence() {
    let cases: Vec<(Vec<i32>, bool)> = vec![
        (vec![2, 4, 2, 4, 2], false),
        (vec![1, 4, 3, 6, 5], false),
        (vec![1, 2, 4, 7, 11], true),
        (vec![10, 11, 10, 12, 10, 13, 10], true),
        (vec![10, 11, 10, 20, 10, 13, 10, 40], true),
        (vec![-3, 9, -27, 81], false),
        (vec![64, 8, 2], false),
    ];
    let mut total = 0;
    for (s, meta) in cases {
        let analyzer = if meta { Analyzer::with_meta(&s) } else { Analyzer::from_slice(&s) };
        for n in 1..5 {
            for p in analyzer.find_patterns_of_length(n) {
                assert_eq!(n, p.0.len());
                assert!(regenerates(&p, &s), "{:?} on {:?}", p, s);
                total += 1;
            }
        }
    }
    assert!(total > 30);
}
