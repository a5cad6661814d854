use sea_canal::pattern::PatternElem::{Const, Custom, Div, Meta, Mult, Plus, Square, SquareRoot};
use sea_canal::{Analyzer, CustomPatternElem, Pattern};

#[test]
fn find_any_pattern_of_length() {
    let slice = &[1, 4, 3, 6, 5];
    let analyzer = Analyzer::from_slice(slice);

    assert_eq!(None, analyzer.find_any_pattern_of_length(3));
    assert_eq!(Some(Pattern::new(vec![Plus(3), Plus(-1)])), analyzer.find_any_pattern_of_length(2));
}

#[test]
fn lib_find_any_pattern() {
    let slice = &[1, 4, 3, 6, 5];
    let analyzer = Analyzer::from_slice(slice);

    assert_eq!(None, analyzer.find_any_pattern(1));
    assert_eq!(Some(Pattern::new(vec![Plus(3), Plus(-1)])), analyzer.find_any_pattern(4));
}

fn alternating_patterns() -> Vec<Pattern> {
    vec![
        Pattern::new(vec![Const(4), Const(2)]),
        Pattern::new(vec![Const(4), Div(2)]),
        Pattern::new(vec![Const(4), Plus(-2)]),
        Pattern::new(vec![Const(4), SquareRoot]),
        Pattern::new(vec![Mult(2), Const(2)]),
        Pattern::new(vec![Mult(2), Div(2)]),
        Pattern::new(vec![Mult(2), Plus(-2)]),
        Pattern::new(vec![Mult(2), SquareRoot]),
        Pattern::new(vec![Plus(2), Const(2)]),
        Pattern::new(vec![Plus(2), Div(2)]),
        Pattern::new(vec![Plus(2), Plus(-2)]),
        Pattern::new(vec![Plus(2), SquareRoot]),
        Pattern::new(vec![Square, Const(2)]),
        Pattern::new(vec![Square, Div(2)]),
        Pattern::new(vec![Square, Plus(-2)]),
        Pattern::new(vec![Square, SquareRoot]),
    ]
}

#[test]
fn find_patterns_of_length() {
    let slice = &[2, 4, 2, 4, 2];
    let analyzer = Analyzer::from_slice(slice);

    assert_eq!(Vec::<Pattern>::new(), analyzer.find_patterns_of_length(3));
    assert_eq!(alternating_patterns(), analyzer.find_patterns_of_length(2));
}

#[test]
fn find_patterns() {
    let slice = &[2, 4, 2, 4, 2];
    let analyzer = Analyzer::from_slice(slice);

    assert_eq!(Vec::<Pattern>::new(), analyzer.find_patterns(1));
    assert_eq!(alternating_patterns(), analyzer.find_patterns(4));
}

fn pow4(i: i32, j: i32) -> bool {
    i * i * i * i == j
}

fn root4(i: i32, j: i32) -> bool {
    j * j * j * j == i
}

#[test]
fn mod_find_any_pattern() {
    let pow4_pattern: CustomPatternElem<fn(i32, i32) -> bool> = CustomPatternElem::new(pow4, "^4");
    let root4_pattern: CustomPatternElem<fn(i32, i32) -> bool> = CustomPatternElem::new(root4, "root 4");

    let slice = &[1, 2, 16, 2, 3, 81, 3];
    let analyzer =
        Analyzer::with_custom_patterns(slice, false, vec![pow4_pattern.clone(), root4_pattern.clone()]);

    assert_eq!(None, analyzer.find_any_pattern(1));
    assert_eq!(
        Some(Pattern::new(vec![Plus(1), Custom(pow4_pattern), Custom(root4_pattern)])),
        analyzer.find_any_pattern(4)
    );
}

#[test]
fn meta_find_any_pattern() {
    let slice = &[1, 2, 4, 7, 11];
    let analyzer = Analyzer::with_meta(slice);

    assert_eq!(
        Some(Pattern::new(vec![Meta(Pattern::new(vec![Plus(1), Plus(2), Plus(3), Plus(4)]))])),
        analyzer.find_any_pattern(1)
    );
}

#[test]
fn meta_find_patterns_of_length() {
    let slice = &[10, 11, 10, 12, 10, 13, 10];
    let analyzer = Analyzer::with_meta(slice);

    assert_eq!(Vec::<Pattern>::new(), analyzer.find_patterns_of_length(1));
    assert_eq!(
        vec![
            Pattern::new(vec![Meta(Pattern::new(vec![Plus(1), Plus(2), Plus(3)])), Const(10)]),
            Pattern::new(vec![
                Meta(Pattern::new(vec![Plus(1), Plus(2), Plus(3)])),
                Meta(Pattern::new(vec![Plus(-1), Plus(-2), Plus(-3)]))
            ])
        ],
        analyzer.find_patterns_of_length(2)
    );
}

#[test]
fn mixed_operand_meta_pattern() {
    let slice = &[10, 11, 10, 20, 10, 13, 10, 40];
    let analyzer = Analyzer::with_meta(slice);

    assert_eq!(None, analyzer.find_any_pattern(1));
    assert_eq!(
        Some(Pattern::new(vec![
            Meta(Pattern::new(vec![Plus(1), Mult(2), Plus(3), Mult(4)])),
            Const(10)
        ])),
        analyzer.find_any_pattern(4)
    );
}
