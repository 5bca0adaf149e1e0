use lax::indentation::{estimate_indentation, IndentationEstimator};
use lax::tokenize::{tokenize, Tok, TokMeta};

fn estimated(source: &str) -> usize {
    let chars: Vec<char> = source.chars().collect();
    let (toks, toks_meta) = tokenize(&chars);
    IndentationEstimator::new().count(&toks, &toks_meta).estimate()
}

/// Lines that hold one `x` each after the given numbers of spaces.
fn lines(indents: &[usize]) -> String {
    let mut source = String::new();
    for indent in indents {
        source.push_str(&" ".repeat(*indent));
        source.push_str("x\n");
    }
    source
}

#[test]
fn test_continuation() {
    assert_eq!(
        estimated("x\n      x\n   x\n         x\n      x\n            x\n"),
        3
    );
}

#[test]
fn test_no_indentation() {
    assert_eq!(estimated("x\nx\nx\nx\n"), 0);
}

#[test]
fn test_no_inner_spaces() {
    assert_eq!(
        estimated("x x x x x x\n   x x x x x x\n      x x x x x x\n"),
        3
    );
}

#[test]
fn test_mixed_bigger() {
    assert_eq!(estimated("x\n   x\n     x\n"), 3);
}

#[test]
fn test_mixed_more() {
    assert_eq!(estimated("x\n   x\n     x\n   x\n"), 2);
}

#[test]
fn test_mixed_block() {
    assert_eq!(estimated("x\n  x\n  x\n  x\n  x\n     x\n"), 3);
}

#[test]
fn test_primes() {
    assert_eq!(
        estimated("x\n  x\n     x\n          x\n                 x\n           x\n"),
        3
    );
}

#[test]
fn test_one_off() {
    assert_eq!(estimated("x\n   x\n      x\n         x\n          x\n"), 3);
}

#[test]
fn test_triple() {
    assert_eq!(
        estimated("x\n   x\n            x\n      x\n        x\n      x\n"),
        2
    );
}

#[test]
fn lines_built_by_hand_agree_with_the_literals() {
    assert_eq!(lines(&[0, 3, 5, 3]), "x\n   x\n     x\n   x\n");
    assert_eq!(estimated(&lines(&[0, 2, 5, 10, 17, 11])), 3);
}

#[test]
fn continuation_lines_of_one_space_less() {
    // Changes +3, -1, +4, -3, +6: the width 3 fits three of them.
    assert_eq!(estimated(&lines(&[0, 3, 2, 6, 3, 9])), 3);
}

#[test]
fn a_width_that_only_a_step_back_shows() {
    // Changes +8 and -4: 4 fits both, 8 only the first.
    assert_eq!(estimated(&lines(&[8, 4])), 4);
}

#[test]
fn equal_scores_go_to_the_greater_change() {
    // Changes +2 and +3 vote against each other: both widths score 0.
    assert_eq!(estimated(&lines(&[0, 2, 5])), 3);
}

#[test]
fn exact_score_of_two_levels_at_once() {
    // Changes +2, +4, -6: the width 2 fits all three, 4 and 6 one each.
    assert_eq!(estimated(&lines(&[0, 2, 6, 0])), 2);
}

#[test]
fn no_tokens_no_indentation() {
    assert_eq!(estimate_indentation(&[], &[]), 0);
}

#[test]
fn spaces_inside_a_line_are_not_counted() {
    let toks = vec![Tok::Identifier, Tok::Space, Tok::Identifier, Tok::LineEnd];
    let metas = vec![
        TokMeta { span: 1, end: 1, line: 1, col: 1 },
        TokMeta { span: 4, end: 5, line: 1, col: 2 },
        TokMeta { span: 1, end: 6, line: 1, col: 6 },
        TokMeta { span: 1, end: 7, line: 1, col: 7 },
    ];
    assert_eq!(estimate_indentation(&toks, &metas), 0);
}

#[test]
fn the_longer_slice_is_cut() {
    let toks = vec![Tok::Space, Tok::Identifier, Tok::LineEnd, Tok::Space];
    let metas = vec![
        TokMeta { span: 4, end: 4, line: 1, col: 1 },
        TokMeta { span: 1, end: 5, line: 1, col: 5 },
        TokMeta { span: 1, end: 6, line: 1, col: 6 },
    ];
    assert_eq!(estimate_indentation(&toks, &metas), 4);
}

#[test]
fn counting_twice_goes_on_from_what_was_counted() {
    let chars: Vec<char> = "   x\n".chars().collect();
    let (toks, toks_meta) = tokenize(&chars);
    let estimator = IndentationEstimator::new()
        .count(&toks, &toks_meta)
        .count(&toks, &toks_meta);
    assert_eq!(estimator.estimate(), 3);
}
