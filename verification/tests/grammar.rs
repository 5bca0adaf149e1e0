use lax::grammar::{BuildError, Builder, Step, Symbol};
use lax::tokenize::Tok;

#[test]
fn steps_are_laid_out_in_order() {
    let program = Builder::new()
        .begin_rule(Symbol::Expression)
        .begin_sequence()
        .reference(Symbol::Nullary)
        .begin_repeat()
        .skip_space()
        .literal(Tok::Plus)
        .end()
        .end()
        .begin_rule(Symbol::Nullary)
        .begin_choice()
        .literal(Tok::Digits)
        .begin_optional()
        .indentation(2)
        .end_of_input()
        .end()
        .end()
        .build()
        .unwrap();
    let expected = vec![
        Step::RuleStart(Symbol::Expression),
        Step::Sequence(6),
        Step::Reference(Symbol::Nullary),
        Step::Repeat(6),
        Step::SkipSpace,
        Step::Literal(Tok::Plus),
        Step::RuleStart(Symbol::Nullary),
        Step::Choice(12),
        Step::Literal(Tok::Digits),
        Step::Optional(12),
        Step::Indentation(2),
        Step::EndOfInput,
    ];
    assert_eq!(program.len(), expected.len());
    for (i, step) in expected.iter().enumerate() {
        assert_eq!(program.step(i), Some(*step));
        assert_eq!(program.at(i), *step);
    }
    assert_eq!(program.step(expected.len()), None);
    assert_eq!(program.entry(Symbol::Expression), Some(0));
    assert_eq!(program.entry(Symbol::Nullary), Some(6));
    assert_eq!(program.entry(Symbol::Module), None);
}

/// The children of the block at `at`, by the indices at which blocks end.
fn children(steps: &[Step], at: usize) -> Vec<usize> {
    let end = match steps[at] {
        Step::Sequence(end) | Step::Choice(end) | Step::Optional(end) | Step::Repeat(end) => end,
        _ => return Vec::new(),
    };
    let mut out = Vec::new();
    let mut child = at + 1;
    while child < end {
        out.push(child);
        child = match steps[child] {
            Step::Sequence(e) | Step::Choice(e) | Step::Optional(e) | Step::Repeat(e) => e,
            _ => child + 1,
        };
    }
    assert_eq!(child, end);
    out
}

#[test]
fn blocks_own_exactly_their_children() {
    let program = Builder::new()
        .begin_rule(Symbol::Number)
        .begin_choice()
        .begin_sequence()
        .literal(Tok::Digits)
        .begin_optional()
        .literal(Tok::FullStop)
        .begin_optional()
        .literal(Tok::Digits)
        .end()
        .end()
        .end()
        .begin_sequence()
        .literal(Tok::FullStop)
        .literal(Tok::Digits)
        .end()
        .end()
        .build()
        .unwrap();
    let steps: Vec<Step> = (0..program.len()).map(|i| program.at(i)).collect();
    assert_eq!(children(&steps, 1), vec![2, 8]);
    assert_eq!(children(&steps, 2), vec![3, 4]);
    assert_eq!(children(&steps, 4), vec![5, 6]);
    assert_eq!(children(&steps, 6), vec![7]);
    assert_eq!(children(&steps, 8), vec![9, 10]);
    assert_eq!(steps[1], Step::Choice(11));
}

#[test]
fn symbols_have_their_places() {
    assert_eq!(Symbol::Module.index(), 0);
    assert_eq!(Symbol::Block.index(), 2);
    assert_eq!(Symbol::Number.index(), 12);
    assert!(Symbol::Block.opens_level());
    assert!(!Symbol::Module.opens_level());
}

#[test]
fn an_empty_grammar_is_a_program() {
    let program = Builder::new().build().unwrap();
    assert_eq!(program.len(), 0);
    assert_eq!(program.entry(Symbol::Module), None);
}

#[test]
fn a_rule_begun_again_is_entered_at_the_later_one() {
    let program = Builder::new()
        .begin_rule(Symbol::Not)
        .literal(Tok::Not)
        .begin_rule(Symbol::Not)
        .literal(Tok::Minus)
        .build()
        .unwrap();
    assert_eq!(program.entry(Symbol::Not), Some(2));
}

#[test]
fn end_without_block() {
    let built = Builder::new()
        .begin_rule(Symbol::Module)
        .literal(Tok::If)
        .end()
        .build();
    assert_eq!(built.err(), Some(BuildError::EndWithoutBlock));
}

#[test]
fn empty_block() {
    let built = Builder::new()
        .begin_rule(Symbol::Module)
        .begin_sequence()
        .end()
        .build();
    assert_eq!(built.err(), Some(BuildError::EmptyBlock));
}

#[test]
fn step_outside_rule() {
    let built = Builder::new().literal(Tok::If).build();
    assert_eq!(built.err(), Some(BuildError::StepOutsideRule));
    let built = Builder::new()
        .begin_rule(Symbol::Module)
        .literal(Tok::If)
        .literal(Tok::El)
        .build();
    assert_eq!(built.err(), Some(BuildError::StepOutsideRule));
    let built = Builder::new()
        .begin_rule(Symbol::Module)
        .begin_choice()
        .literal(Tok::If)
        .end()
        .begin_choice()
        .build();
    assert_eq!(built.err(), Some(BuildError::StepOutsideRule));
}

#[test]
fn rule_inside_block() {
    let built = Builder::new()
        .begin_rule(Symbol::Module)
        .begin_sequence()
        .begin_rule(Symbol::If)
        .build();
    assert_eq!(built.err(), Some(BuildError::RuleInsideBlock));
}

#[test]
fn empty_rule() {
    let built = Builder::new()
        .begin_rule(Symbol::Module)
        .begin_rule(Symbol::If)
        .literal(Tok::If)
        .build();
    assert_eq!(built.err(), Some(BuildError::EmptyRule));
    let built = Builder::new().begin_rule(Symbol::Module).build();
    assert_eq!(built.err(), Some(BuildError::EmptyRule));
}

#[test]
fn unterminated_block() {
    let built = Builder::new()
        .begin_rule(Symbol::Module)
        .begin_repeat()
        .literal(Tok::LineEnd)
        .build();
    assert_eq!(built.err(), Some(BuildError::UnterminatedBlock));
}

#[test]
fn undefined_reference() {
    let built = Builder::new()
        .begin_rule(Symbol::Module)
        .begin_sequence()
        .reference(Symbol::Module)
        .reference(Symbol::Parens)
        .reference(Symbol::Not)
        .end()
        .build();
    assert_eq!(
        built.err(),
        Some(BuildError::UndefinedReference(Symbol::Parens))
    );
}

#[test]
fn the_first_defect_stays() {
    let built = Builder::new()
        .end()
        .begin_rule(Symbol::Module)
        .begin_sequence()
        .end()
        .build();
    assert_eq!(built.err(), Some(BuildError::EndWithoutBlock));
}

#[test]
fn a_reference_may_come_before_its_rule() {
    let built = Builder::new()
        .begin_rule(Symbol::Module)
        .reference(Symbol::Statement)
        .begin_rule(Symbol::Statement)
        .reference(Symbol::Module)
        .build();
    assert!(built.is_ok());
}
