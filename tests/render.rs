use sea_canal::pattern::PatternElem::{Const, Cube, CubeRoot, Div, Meta, Mod, Mult, Plus, Square, SquareRoot};
use sea_canal::seq::SeqElem;
use sea_canal::{OpSequence, Pattern, PatternElem};

fn text(e: PatternElem) -> String {
    e.render()
}

fn pattern_text(p: Pattern) -> String {
    p.render()
}

#[test]
fn fmt_pat_elem_plus() {
    assert_eq!("+0", text(Plus(0)));
    assert_eq!("+4", text(Plus(4)));
}

#[test]
fn fmt_pat_elem_minus() {
    assert_eq!("-1", text(Plus(-1)));
    assert_eq!("-4", text(Plus(-4)));
}

#[test]
fn fmt_pat_elem_mult() {
    assert_eq!("*-4", text(Mult(-4)));
    assert_eq!("*4", text(Mult(4)));
}

#[test]
fn fmt_pat_elem_div() {
    assert_eq!("/-4", text(Div(-4)));
    assert_eq!("/4", text(Div(4)));
}

#[test]
fn fmt_pat_elem_mod() {
    assert_eq!("%-4", text(Mod(-4)));
    assert_eq!("%4", text(Mod(4)));
}

#[test]
fn fmt_pat_elem_const() {
    assert_eq!("=-4", text(Const(-4)));
    assert_eq!("=4", text(Const(4)));
}

#[test]
fn fmt_pat_elem_square() {
    assert_eq!("^2", text(Square));
}

#[test]
fn fmt_pat_elem_cube() {
    assert_eq!("^3", text(Cube));
}

#[test]
fn fmt_pat_elem_square_root() {
    assert_eq!("root 2", text(SquareRoot));
}

#[test]
fn fmt_pat_elem_cube_root() {
    assert_eq!("root 3", text(CubeRoot));
}

#[test]
fn fmt_pat() {
    assert_eq!("", pattern_text(Pattern::empty()));
    assert_eq!("+4", pattern_text(Pattern::new(vec![Plus(4)])));
    assert_eq!("+4, %-6", pattern_text(Pattern::new(vec![Plus(4), Mod(-6)])));
    assert_eq!(
        "+4, %-6, -12, *42, /3, =9",
        pattern_text(Pattern::new(vec![Plus(4), Mod(-6), Plus(-12), Mult(42), Div(3), Const(9)]))
    );
    assert_eq!(
        "^2, root 2, ^3, root 3",
        pattern_text(Pattern::new(vec![Square, SquareRoot, Cube, CubeRoot]))
    );
}

#[test]
fn fmt_seq_elem_plus() {
    assert_eq!("+0", SeqElem::Plus(0).render());
    assert_eq!("+4", SeqElem::Plus(4).render());
}

#[test]
fn fmt_seq_elem_minus() {
    assert_eq!("-1", SeqElem::Plus(-1).render());
    assert_eq!("-4", SeqElem::Plus(-4).render());
}

#[test]
fn fmt_seq_elem_mult() {
    assert_eq!("*-4", SeqElem::Mult(-4).render());
    assert_eq!("*4", SeqElem::Mult(4).render());
}

#[test]
fn fmt_seq_elem_div() {
    assert_eq!("/-4", SeqElem::Div(-4).render());
    assert_eq!("/4", SeqElem::Div(4).render());
}

#[test]
fn fmt_seq_elem_mod() {
    assert_eq!("%-4", SeqElem::Mod(-4).render());
    assert_eq!("%4", SeqElem::Mod(4).render());
}

#[test]
fn fmt_seq_elem_const() {
    assert_eq!("=-4", SeqElem::Const(-4).render());
    assert_eq!("=4", SeqElem::Const(4).render());
}

#[test]
fn fmt_seq_elem_square() {
    assert_eq!("^2", SeqElem::Square.render());
}

#[test]
fn fmt_seq_elem_cube() {
    assert_eq!("^3", SeqElem::Cube.render());
}

#[test]
fn fmt_seq_elem_square_root() {
    assert_eq!("root 2", SeqElem::SquareRoot.render());
}

#[test]
fn fmt_seq_elem_cube_root() {
    assert_eq!("root 3", SeqElem::CubeRoot.render());
}

#[test]
fn fmt_seq() {
    assert_eq!("", OpSequence::empty().render());
    assert_eq!("+4", OpSequence::new(vec![SeqElem::Plus(4)]).render());
    assert_eq!("+4, %-6", OpSequence::new(vec![SeqElem::Plus(4), SeqElem::Mod(-6)]).render());
    assert_eq!(
        "+4, %-6, -12, *42, /3, =9",
        OpSequence::new(vec![
            SeqElem::Plus(4),
            SeqElem::Mod(-6),
            SeqElem::Plus(-12),
            SeqElem::Mult(42),
            SeqElem::Div(3),
            SeqElem::Const(9)
        ])
        .render()
    );
    assert_eq!(
        "^2, root 2, ^3, root 3",
        OpSequence::new(vec![SeqElem::Square, SeqElem::SquareRoot, SeqElem::Cube, SeqElem::CubeRoot])
            .render()
    );
}

#[test]
fn render_extremes_and_nesting() {
    assert_eq!("=-2147483648", text(Const(i32::MIN)));
    assert_eq!("-2147483648", text(Plus(i32::MIN)));
    assert_eq!("+2147483647", text(Plus(i32::MAX)));
    assert_eq!("*1234567890", text(Mult(1234567890)));
    assert_eq!("[+1, *2]", text(Meta(Pattern::new(vec![Plus(1), Mult(2)]))));
    assert_eq!("[]", text(Meta(Pattern::empty())));
}
