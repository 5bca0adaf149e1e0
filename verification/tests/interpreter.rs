use lax::grammar::{Builder, Program, Symbol};
use lax::indentation::estimate_indentation;
use lax::interpreter::{parse, Interpreter};
use lax::tokenize::{tokenize, Tok, TokMeta};

/// Places for tokens that span one character each.
fn metas(toks: &[Tok]) -> Vec<TokMeta> {
    let mut out = Vec::new();
    let mut end = 0;
    for _ in toks {
        end += 1;
        out.push(TokMeta { span: 1, end, line: 1, col: end });
    }
    out
}

fn run(program: &Program, toks: &[Tok], entry: Symbol) -> Option<usize> {
    parse(program, toks, &metas(toks), 0, entry)
}

fn expression_grammar() -> Program {
    Builder::new()
        .begin_rule(Symbol::Expression)
        .begin_sequence()
        .reference(Symbol::Nullary)
        .begin_repeat()
        .reference(Symbol::NaryRight)
        .end()
        .end()
        .begin_rule(Symbol::NaryRight)
        .begin_sequence()
        .skip_space()
        .reference(Symbol::NaryOperator)
        .skip_space()
        .reference(Symbol::Nullary)
        .end()
        .begin_rule(Symbol::NaryOperator)
        .begin_choice()
        .literal(Tok::Plus)
        .literal(Tok::Minus)
        .end()
        .begin_rule(Symbol::Nullary)
        .literal(Tok::Digits)
        .build()
        .unwrap()
}

#[test]
fn expression_takes_all_five_tokens() {
    let program = expression_grammar();
    let toks = vec![Tok::Digits, Tok::Space, Tok::Plus, Tok::Space, Tok::Digits];
    assert_eq!(run(&program, &toks, Symbol::Expression), Some(5));
}

#[test]
fn trailing_operator_is_left_unconsumed() {
    let program = expression_grammar();
    let toks = vec![Tok::Digits, Tok::Space, Tok::Plus];
    assert_eq!(run(&program, &toks, Symbol::Expression), Some(1));
}

#[test]
fn expression_of_tokenized_text() {
    let program = expression_grammar();
    let chars: Vec<char> = "10 + 10".chars().collect();
    let (toks, toks_meta) = tokenize(&chars);
    assert_eq!(toks.len(), 6);
    assert_eq!(parse(&program, &toks, &toks_meta, 0, Symbol::Expression), Some(5));
    let chars: Vec<char> = "10 +".chars().collect();
    let (toks, toks_meta) = tokenize(&chars);
    assert_eq!(parse(&program, &toks, &toks_meta, 0, Symbol::Expression), Some(1));
}

#[test]
fn parsing_twice_gives_the_same() {
    let program = expression_grammar();
    let toks = vec![Tok::Digits, Tok::Minus, Tok::Digits, Tok::Plus];
    let first = run(&program, &toks, Symbol::Expression);
    assert_eq!(first, Some(3));
    assert_eq!(run(&program, &toks, Symbol::Expression), first);
}

#[test]
fn undefined_entry_matches_nothing() {
    let program = expression_grammar();
    assert_eq!(run(&program, &[Tok::Digits], Symbol::Module), None);
}

#[test]
fn failure_is_none() {
    let program = expression_grammar();
    assert_eq!(run(&program, &[Tok::Plus], Symbol::Expression), None);
    assert_eq!(run(&program, &[], Symbol::Expression), None);
}

#[test]
fn the_first_alternative_wins() {
    // Both alternatives match; the second would take more.
    let program = Builder::new()
        .begin_rule(Symbol::Module)
        .begin_choice()
        .literal(Tok::Digits)
        .begin_sequence()
        .literal(Tok::Digits)
        .literal(Tok::Plus)
        .end()
        .end()
        .build()
        .unwrap();
    assert_eq!(run(&program, &[Tok::Digits, Tok::Plus], Symbol::Module), Some(1));
}

#[test]
fn a_failed_alternative_gives_way_to_the_next() {
    let program = Builder::new()
        .begin_rule(Symbol::Module)
        .begin_choice()
        .literal(Tok::Identifier)
        .literal(Tok::Digits)
        .literal(Tok::True)
        .end()
        .build()
        .unwrap();
    assert_eq!(run(&program, &[Tok::Digits], Symbol::Module), Some(1));
    assert_eq!(run(&program, &[Tok::True], Symbol::Module), Some(1));
    assert_eq!(run(&program, &[Tok::False], Symbol::Module), None);
}

#[test]
fn a_failed_sequence_gives_back_what_it_took() {
    let program = Builder::new()
        .begin_rule(Symbol::Module)
        .begin_choice()
        .begin_sequence()
        .literal(Tok::Digits)
        .literal(Tok::Plus)
        .literal(Tok::Digits)
        .end()
        .begin_sequence()
        .literal(Tok::Digits)
        .literal(Tok::Plus)
        .literal(Tok::Identifier)
        .end()
        .end()
        .build()
        .unwrap();
    let toks = vec![Tok::Digits, Tok::Plus, Tok::Identifier];
    assert_eq!(run(&program, &toks, Symbol::Module), Some(3));
}

fn repeated_plus() -> Program {
    Builder::new()
        .begin_rule(Symbol::Module)
        .begin_repeat()
        .literal(Tok::Plus)
        .end()
        .build()
        .unwrap()
}

#[test]
fn a_repetition_takes_every_round_that_matches() {
    let program = repeated_plus();
    let toks = vec![Tok::Plus, Tok::Plus, Tok::Plus, Tok::Minus];
    assert_eq!(run(&program, &toks, Symbol::Module), Some(3));
    assert_eq!(run(&program, &[Tok::Plus, Tok::Plus], Symbol::Module), Some(2));
}

#[test]
fn a_repetition_of_no_round_matches() {
    let program = repeated_plus();
    assert_eq!(run(&program, &[Tok::Minus], Symbol::Module), Some(0));
    assert_eq!(run(&program, &[], Symbol::Module), Some(0));
}

#[test]
fn a_failed_round_gives_back_what_it_took() {
    let program = Builder::new()
        .begin_rule(Symbol::Module)
        .begin_repeat()
        .literal(Tok::Plus)
        .literal(Tok::Minus)
        .end()
        .build()
        .unwrap();
    let toks = vec![Tok::Plus, Tok::Minus, Tok::Plus, Tok::Plus];
    assert_eq!(run(&program, &toks, Symbol::Module), Some(2));
}

#[test]
fn a_round_that_takes_nothing_ends_the_repetition() {
    let program = Builder::new()
        .begin_rule(Symbol::Module)
        .begin_sequence()
        .begin_repeat()
        .begin_optional()
        .literal(Tok::Plus)
        .end()
        .end()
        .literal(Tok::Minus)
        .end()
        .build()
        .unwrap();
    let toks = vec![Tok::Plus, Tok::Plus, Tok::Minus];
    assert_eq!(run(&program, &toks, Symbol::Module), Some(3));
    let program = Builder::new()
        .begin_rule(Symbol::Module)
        .begin_repeat()
        .skip_space()
        .end()
        .build()
        .unwrap();
    assert_eq!(run(&program, &[Tok::Space, Tok::Space, Tok::If], Symbol::Module), Some(2));
}

#[test]
fn an_optional_part_never_fails() {
    let program = Builder::new()
        .begin_rule(Symbol::Module)
        .begin_optional()
        .literal(Tok::Plus)
        .literal(Tok::Minus)
        .end()
        .build()
        .unwrap();
    assert_eq!(run(&program, &[Tok::Plus, Tok::Minus], Symbol::Module), Some(2));
    assert_eq!(run(&program, &[Tok::Plus, Tok::Plus], Symbol::Module), Some(0));
    assert_eq!(run(&program, &[], Symbol::Module), Some(0));
}

#[test]
fn skip_space_takes_one_space_or_nothing() {
    let program = Builder::new()
        .begin_rule(Symbol::Module)
        .begin_sequence()
        .skip_space()
        .literal(Tok::If)
        .end()
        .build()
        .unwrap();
    assert_eq!(run(&program, &[Tok::Space, Tok::If], Symbol::Module), Some(2));
    assert_eq!(run(&program, &[Tok::If], Symbol::Module), Some(1));
    assert_eq!(run(&program, &[Tok::Space, Tok::Space, Tok::If], Symbol::Module), None);
}

#[test]
fn end_of_input_matches_at_the_end_only() {
    let program = Builder::new()
        .begin_rule(Symbol::Module)
        .begin_sequence()
        .literal(Tok::Digits)
        .end_of_input()
        .end()
        .build()
        .unwrap();
    assert_eq!(run(&program, &[Tok::Digits], Symbol::Module), Some(1));
    assert_eq!(run(&program, &[Tok::Digits, Tok::Plus], Symbol::Module), None);
    let program = Builder::new()
        .begin_rule(Symbol::Module)
        .end_of_input()
        .build()
        .unwrap();
    assert_eq!(run(&program, &[], Symbol::Module), Some(0));
}

#[test]
fn a_reference_fails_where_the_tokens_end() {
    // The rule would match nothing, but it is not entered after the last
    // token.
    let program = Builder::new()
        .begin_rule(Symbol::Module)
        .begin_sequence()
        .literal(Tok::Digits)
        .reference(Symbol::Not)
        .end()
        .begin_rule(Symbol::Not)
        .begin_optional()
        .literal(Tok::Not)
        .end()
        .build()
        .unwrap();
    assert_eq!(run(&program, &[Tok::Digits], Symbol::Module), None);
    assert_eq!(run(&program, &[Tok::Digits, Tok::If], Symbol::Module), Some(1));
    assert_eq!(run(&program, &[Tok::Digits, Tok::Not], Symbol::Module), Some(2));
}

#[test]
fn rules_may_call_each_other() {
    let program = Builder::new()
        .begin_rule(Symbol::Expression)
        .begin_choice()
        .reference(Symbol::Parens)
        .literal(Tok::Digits)
        .end()
        .begin_rule(Symbol::Parens)
        .begin_sequence()
        .literal(Tok::ParenLeft)
        .reference(Symbol::Expression)
        .literal(Tok::ParenRight)
        .end()
        .build()
        .unwrap();
    let toks = vec![
        Tok::ParenLeft,
        Tok::ParenLeft,
        Tok::Digits,
        Tok::ParenRight,
        Tok::ParenRight,
    ];
    assert_eq!(run(&program, &toks, Symbol::Expression), Some(5));
    assert_eq!(run(&program, &toks[..4], Symbol::Expression), None);
}

#[test]
fn a_rule_that_calls_itself_first_is_abandoned() {
    let program = Builder::new()
        .begin_rule(Symbol::Expression)
        .begin_choice()
        .begin_sequence()
        .reference(Symbol::Expression)
        .literal(Tok::Plus)
        .literal(Tok::Digits)
        .end()
        .literal(Tok::Digits)
        .end()
        .build()
        .unwrap();
    let toks = vec![Tok::Digits, Tok::Plus, Tok::Digits];
    assert_eq!(run(&program, &toks, Symbol::Expression), None);
}

#[test]
fn every_rule_may_be_called_at_one_position() {
    // Twelve calls at one position, each of another rule.
    let program = Builder::new()
        .begin_rule(Symbol::Module)
        .reference(Symbol::If)
        .begin_rule(Symbol::If)
        .reference(Symbol::Block)
        .begin_rule(Symbol::Block)
        .reference(Symbol::Statement)
        .begin_rule(Symbol::Statement)
        .reference(Symbol::Expression)
        .begin_rule(Symbol::Expression)
        .reference(Symbol::NaryRight)
        .begin_rule(Symbol::NaryRight)
        .reference(Symbol::NaryOperator)
        .begin_rule(Symbol::NaryOperator)
        .reference(Symbol::Nullary)
        .begin_rule(Symbol::Nullary)
        .reference(Symbol::Parens)
        .begin_rule(Symbol::Parens)
        .reference(Symbol::Not)
        .begin_rule(Symbol::Not)
        .reference(Symbol::Identifier)
        .begin_rule(Symbol::Identifier)
        .reference(Symbol::Boolean)
        .begin_rule(Symbol::Boolean)
        .reference(Symbol::Number)
        .begin_rule(Symbol::Number)
        .literal(Tok::Digits)
        .build()
        .unwrap();
    assert_eq!(run(&program, &[Tok::Digits], Symbol::Module), Some(1));
}

fn indented_line() -> Program {
    Builder::new()
        .begin_rule(Symbol::Module)
        .reference(Symbol::Block)
        .begin_rule(Symbol::Block)
        .begin_sequence()
        .indentation(1)
        .literal(Tok::Identifier)
        .end()
        .begin_rule(Symbol::Statement)
        .begin_sequence()
        .indentation(0)
        .literal(Tok::Identifier)
        .end()
        .build()
        .unwrap()
}

#[test]
fn indentation_is_levels_times_unit() {
    let program = indented_line();
    let toks = vec![Tok::Space, Tok::Identifier];
    let at = |span: usize| {
        vec![
            TokMeta { span, end: span, line: 1, col: 1 },
            TokMeta { span: 1, end: span + 1, line: 1, col: span + 1 },
        ]
    };
    // One open block and one level more, three spaces each.
    assert_eq!(parse(&program, &toks, &at(6), 3, Symbol::Module), Some(2));
    assert_eq!(parse(&program, &toks, &at(3), 3, Symbol::Module), None);
    assert_eq!(parse(&program, &toks, &at(7), 3, Symbol::Module), None);
    assert_eq!(parse(&program, &toks, &at(4), 2, Symbol::Module), Some(2));
}

#[test]
fn no_indentation_takes_nothing() {
    let program = indented_line();
    let toks = vec![Tok::Identifier];
    // A unit of 0: every level is no spaces wide.
    assert_eq!(parse(&program, &toks, &metas(&toks), 0, Symbol::Module), Some(1));
    // No open block and no level more.
    assert_eq!(parse(&program, &toks, &metas(&toks), 3, Symbol::Statement), Some(1));
    let toks = vec![Tok::Space, Tok::Identifier];
    assert_eq!(parse(&program, &toks, &metas(&toks), 0, Symbol::Module), None);
}

#[test]
fn indentation_needs_a_space_token() {
    let program = indented_line();
    let toks = vec![Tok::Identifier, Tok::Identifier];
    let places = vec![
        TokMeta { span: 6, end: 6, line: 1, col: 1 },
        TokMeta { span: 1, end: 7, line: 1, col: 7 },
    ];
    assert_eq!(parse(&program, &toks, &places, 3, Symbol::Module), None);
    assert_eq!(parse(&program, &[], &[], 3, Symbol::Module), None);
}

fn skip_space(b: Builder) -> Builder {
    b.begin_optional()
        .begin_choice()
        .literal(Tok::Space)
        .begin_sequence()
        .literal(Tok::LineEnd)
        .indentation(2)
        .end()
        .end()
        .end()
}

fn statements(b: Builder) -> Builder {
    b.begin_repeat()
        .begin_choice()
        .reference(Symbol::Statement)
        .literal(Tok::LineEnd)
        .end()
        .end()
}

fn language() -> Program {
    let b = Builder::new().begin_rule(Symbol::Module);
    let b = statements(b);
    let b = b.begin_rule(Symbol::If).begin_sequence().literal(Tok::If);
    let b = skip_space(b)
        .reference(Symbol::Expression)
        .literal(Tok::LineEnd)
        .reference(Symbol::Block)
        .end();
    let b = b
        .begin_rule(Symbol::Block)
        .begin_sequence()
        .begin_repeat()
        .literal(Tok::LineEnd)
        .end()
        .reference(Symbol::Statement);
    let b = statements(b).end();
    let b = b
        .begin_rule(Symbol::Statement)
        .begin_sequence()
        .indentation(0)
        .begin_choice()
        .reference(Symbol::If)
        .begin_sequence()
        .reference(Symbol::Expression)
        .literal(Tok::LineEnd)
        .end()
        .end()
        .end();
    let b = b
        .begin_rule(Symbol::Expression)
        .begin_sequence()
        .reference(Symbol::Nullary)
        .begin_repeat()
        .reference(Symbol::NaryRight)
        .end()
        .end();
    let b = b.begin_rule(Symbol::NaryRight).begin_sequence();
    let b = skip_space(b).reference(Symbol::NaryOperator);
    let b = skip_space(b).reference(Symbol::Nullary).end();
    let b = b
        .begin_rule(Symbol::NaryOperator)
        .begin_choice()
        .literal(Tok::Plus)
        .literal(Tok::Minus)
        .literal(Tok::Asterisk)
        .literal(Tok::Slash)
        .literal(Tok::And)
        .literal(Tok::Or)
        .end();
    let b = b
        .begin_rule(Symbol::Nullary)
        .begin_choice()
        .reference(Symbol::Parens)
        .reference(Symbol::Not)
        .reference(Symbol::Identifier)
        .reference(Symbol::Boolean)
        .reference(Symbol::Number)
        .end();
    let b = b.begin_rule(Symbol::Not).begin_sequence().literal(Tok::Not);
    let b = skip_space(b).reference(Symbol::Nullary).end();
    let b = b
        .begin_rule(Symbol::Parens)
        .begin_sequence()
        .literal(Tok::ParenLeft);
    let b = skip_space(b).reference(Symbol::Expression);
    let b = skip_space(b).literal(Tok::ParenRight).end();
    let b = b
        .begin_rule(Symbol::Identifier)
        .begin_sequence()
        .literal(Tok::Identifier)
        .end();
    let b = b
        .begin_rule(Symbol::Boolean)
        .begin_choice()
        .literal(Tok::True)
        .literal(Tok::False)
        .end();
    let b = b
        .begin_rule(Symbol::Number)
        .begin_choice()
        .begin_sequence()
        .literal(Tok::Digits)
        .begin_optional()
        .literal(Tok::FullStop)
        .begin_optional()
        .literal(Tok::Digits)
        .end()
        .end()
        .end()
        .begin_sequence()
        .literal(Tok::FullStop)
        .literal(Tok::Digits)
        .end()
        .end();
    b.build().unwrap()
}

fn parsed(source: &str) -> (Option<usize>, usize) {
    let chars: Vec<char> = source.chars().collect();
    let (toks, toks_meta) = tokenize(&chars);
    let unit = estimate_indentation(&toks, &toks_meta);
    (
        parse(&language(), &toks, &toks_meta, unit, Symbol::Module),
        toks.len(),
    )
}

#[test]
fn a_module_of_nested_blocks() {
    assert_eq!(parsed("if a\n   b + 1\n   not c\n"), (Some(16), 16));
    assert_eq!(
        parsed("a\nif (a or b) and true\n   if c\n      1.5 * .5\n   d\ne\n"),
        (Some(36), 36)
    );
}

#[test]
fn a_block_ends_where_the_indentation_does() {
    // The third line is one space short of a level, so the module ends
    // before it.
    assert_eq!(parsed("if a\n   b\n  c\n"), (Some(7), 10));
}

#[test]
fn an_expression_goes_on_two_levels_deeper() {
    assert_eq!(parsed("a +\n      b\nif c\n   d\n"), (Some(14), 14));
}

#[test]
fn the_machine_moves_step_by_step() {
    let program = Builder::new()
        .begin_rule(Symbol::Module)
        .begin_choice()
        .begin_sequence()
        .literal(Tok::Digits)
        .literal(Tok::Plus)
        .end()
        .literal(Tok::Digits)
        .end()
        .build()
        .unwrap();
    let toks = vec![Tok::Digits, Tok::Minus];
    let places = metas(&toks);
    let mut machine = Interpreter::new(&program, &toks, &places, 0, Symbol::Module).unwrap();
    // Where the machine stands before each move: the step at hand and the
    // position in the tokens.
    let mut seen = Vec::new();
    while !machine.finished() {
        seen.push((machine.pc(), machine.token_pos()));
        assert_eq!(machine.result(), None);
        assert!(machine.step());
    }
    assert_eq!(
        seen,
        vec![
            (0, 0), // enters the rule
            (1, 0), // opens the choice
            (2, 0), // opens the sequence
            (3, 0), // matches the digits
            (4, 1), // the sequence goes on
            (4, 1), // the plus fails
            (5, 1), // the sequence fails and gives the token back
            (5, 0), // the choice goes on with its next child
            (5, 0), // matches the digits
            (6, 1), // the choice is done
            (6, 1), // the rule is done
        ]
    );
    assert!(machine.matched());
    assert_eq!(machine.result(), Some(1));
    assert_eq!(parse(&program, &toks, &places, 0, Symbol::Module), Some(1));
}

#[test]
fn the_machine_stops_where_the_parse_is_abandoned() {
    let program = Builder::new()
        .begin_rule(Symbol::Expression)
        .reference(Symbol::Expression)
        .build()
        .unwrap();
    let toks = vec![Tok::Digits];
    let places = metas(&toks);
    let mut machine = Interpreter::new(&program, &toks, &places, 0, Symbol::Expression).unwrap();
    let mut moves = 0;
    while machine.step() {
        moves += 1;
        assert!(!machine.finished());
    }
    // One token of span 1 can be met by thirteen rules at three classes
    // of levels: the rule is entered, then called and entered 39 times.
    assert_eq!(moves, 79);
    assert_eq!(machine.pc(), 1);
    assert_eq!(machine.token_pos(), 0);
    assert!(!machine.step());
    assert_eq!(machine.result(), None);
}

#[test]
fn no_machine_for_an_undefined_rule() {
    let program = Builder::new().build().unwrap();
    assert!(Interpreter::new(&program, &[], &[], 0, Symbol::Module).is_none());
}

fn deeper_and_deeper(optional: bool) -> Program {
    let b = Builder::new().begin_rule(Symbol::Module);
    let b = if optional {
        b.begin_optional()
    } else {
        b.begin_repeat()
    };
    b.reference(Symbol::Block)
        .end()
        .begin_rule(Symbol::Block)
        .begin_choice()
        .indentation(0)
        .reference(Symbol::Block)
        .end()
        .build()
        .unwrap()
}

#[test]
fn a_block_may_open_until_the_level_fits() {
    // The block calls itself, one level deeper each time, until fifteen
    // levels of one space are the fifteen spaces of the token.
    let toks = vec![Tok::Space];
    let places = vec![TokMeta { span: 15, end: 15, line: 1, col: 1 }];
    let program = deeper_and_deeper(true);
    assert_eq!(parse(&program, &toks, &places, 1, Symbol::Block), Some(1));
    assert_eq!(parse(&program, &toks, &places, 1, Symbol::Module), Some(1));
    let program = deeper_and_deeper(false);
    assert_eq!(parse(&program, &toks, &places, 1, Symbol::Module), Some(1));
    // Five levels of three spaces.
    assert_eq!(parse(&program, &toks, &places, 3, Symbol::Module), Some(1));
}

#[test]
fn a_level_that_never_fits_is_abandoned() {
    // No number of levels of two spaces is fifteen spaces wide: the block
    // would call itself for ever.
    let toks = vec![Tok::Space];
    let places = vec![TokMeta { span: 15, end: 15, line: 1, col: 1 }];
    let program = deeper_and_deeper(true);
    assert_eq!(parse(&program, &toks, &places, 2, Symbol::Block), None);
    assert_eq!(parse(&program, &toks, &places, 2, Symbol::Module), None);
}

#[test]
fn a_line_far_to_the_right() {
    let toks = vec![Tok::Space, Tok::Identifier];
    let places = vec![
        TokMeta { span: 1000, end: 1000, line: 1, col: 1 },
        TokMeta { span: 1, end: 1001, line: 1, col: 1001 },
    ];
    let program = Builder::new()
        .begin_rule(Symbol::Module)
        .reference(Symbol::Block)
        .begin_rule(Symbol::Block)
        .begin_choice()
        .begin_sequence()
        .indentation(0)
        .literal(Tok::Identifier)
        .end()
        .reference(Symbol::Block)
        .end()
        .build()
        .unwrap();
    assert_eq!(parse(&program, &toks, &places, 4, Symbol::Module), Some(2));
    assert_eq!(parse(&program, &toks, &places, 1, Symbol::Module), Some(2));
    assert_eq!(parse(&program, &toks, &places, 3, Symbol::Module), None);
}
