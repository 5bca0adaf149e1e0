use lax::tokenize::{
    asterisk, digits, double_asterisk, identifier, run_matchers, space_line_end, tokenize,
    try_tokenize, CharAdvancer, LexError, Tok, TokMatch, TokMeta, Tokenizer,
};

fn as_chars(source: &str) -> Vec<char> {
    source.chars().collect()
}

fn none(matcher: fn(&mut CharAdvancer) -> TokMatch, input: &str) {
    let chars = as_chars(input);
    let mut advancer = CharAdvancer::new(&chars);
    assert_eq!(matcher(&mut advancer), None);
}

fn some(matcher: fn(&mut CharAdvancer) -> TokMatch, input: &str, tok: Tok, end: usize) {
    let chars = as_chars(input);
    let mut advancer = CharAdvancer::new(&chars);
    assert_eq!(matcher(&mut advancer), Some((tok, end)));
}

fn no_string(input: &str) {
    let chars = as_chars(input);
    let mut tokenizer = Tokenizer::new(&chars);
    assert!(tokenizer.match_string().is_none());
}

fn string(input: &str, span: usize) {
    let chars = as_chars(input);
    let mut tokenizer = Tokenizer::new(&chars);
    assert!(tokenizer.match_string().is_some());
    let (toks, toks_meta) = tokenizer.destructure();
    if span == 0 {
        assert_eq!(toks.len(), 2);
        assert_eq!(toks[0], Tok::Apostrophe);
        assert_eq!(toks[1], Tok::Apostrophe);
        assert_eq!(toks_meta[0].end, 1);
        assert_eq!(toks_meta[0].span, 1);
        assert_eq!(toks_meta[1].end, 2);
        assert_eq!(toks_meta[1].span, 1);
    } else {
        assert_eq!(toks.len(), 3);
        assert_eq!(toks[0], Tok::Apostrophe);
        assert_eq!(toks[1], Tok::Text);
        assert_eq!(toks[2], Tok::Apostrophe);
        assert_eq!(toks_meta[0].end, 1);
        assert_eq!(toks_meta[0].span, 1);
        assert_eq!(toks_meta[1].end, span + 1);
        assert_eq!(toks_meta[1].span, span);
        assert_eq!(toks_meta[2].end, span + 2);
        assert_eq!(toks_meta[2].span, 1);
    }
}

#[test]
fn test_exact() {
    none(double_asterisk, "*");
    none(double_asterisk, "-**");
    some(asterisk, "*", Tok::Asterisk, 1);
    some(double_asterisk, "**", Tok::DoubleAsterisk, 2);
    some(double_asterisk, "****", Tok::DoubleAsterisk, 2);
}

#[test]
fn test_space_line_end() {
    none(space_line_end, "");
    some(space_line_end, "  \n", Tok::LineEnd, 3);
    some(space_line_end, "\n  ", Tok::LineEnd, 1);
    some(space_line_end, "\n\n", Tok::LineEnd, 1);
    some(space_line_end, "\r\n", Tok::LineEnd, 2);
    some(space_line_end, "\r\r", Tok::LineEnd, 1);
    some(space_line_end, "\r\n", Tok::LineEnd, 2);
    some(space_line_end, "  \n    ", Tok::LineEnd, 3);
    some(space_line_end, "  \r\n\n", Tok::LineEnd, 4);
    none(space_line_end, "-");
    none(space_line_end, "- ");
    some(space_line_end, " ", Tok::LineEnd, 1);
    some(space_line_end, " -", Tok::Space, 1);
    some(space_line_end, "   ", Tok::LineEnd, 3);
    some(space_line_end, "   -", Tok::Space, 3);
}

#[test]
fn test_identifier() {
    none(identifier, "-");
    none(identifier, "-name");
    none(identifier, "012abc");
    some(identifier, "_", Tok::Identifier, 1);
    some(identifier, "__", Tok::Identifier, 2);
    some(identifier, "_.", Tok::Identifier, 1);
    some(identifier, "_name", Tok::Identifier, 5);
    some(identifier, "name", Tok::Identifier, 4);
    some(identifier, "_NAME.", Tok::Identifier, 5);
    some(identifier, "NAME.", Tok::Identifier, 4);
    some(identifier, "a100", Tok::Identifier, 4);
    some(identifier, "a100.", Tok::Identifier, 4);
    some(identifier, "a_a_a.", Tok::Identifier, 5);
    some(identifier, "aЯ", Tok::Identifier, 1);
    some(identifier, "efx", Tok::Identifier, 3);
    some(identifier, "ef ", Tok::Ef, 2);
    some(identifier, "ef/", Tok::Ef, 2);
    some(identifier, "ef", Tok::Ef, 2);
    some(identifier, "el", Tok::El, 2);
    some(identifier, "if", Tok::If, 2);
    some(identifier, "in", Tok::In, 2);
    some(identifier, "fn", Tok::Fn, 2);
    some(identifier, "or", Tok::Or, 2);
    some(identifier, "and", Tok::And, 3);
    some(identifier, "for", Tok::For, 3);
    some(identifier, "not", Tok::Not, 3);
    some(identifier, "ret", Tok::Ret, 3);
    some(identifier, "loop", Tok::Loop, 4);
    some(identifier, "true", Tok::True, 4);
    some(identifier, "break", Tok::Break, 5);
    some(identifier, "false", Tok::False, 5);
    some(identifier, "match", Tok::Match, 5);
}

#[test]
fn test_digits() {
    none(digits, "");
    none(digits, " 1");
    some(digits, "0", Tok::Digits, 1);
    some(digits, "1", Tok::Digits, 1);
    some(digits, "0000000000.", Tok::Digits, 10);
    some(digits, "0123456789.", Tok::Digits, 10);
    some(digits, "9876543210.", Tok::Digits, 10);
}

#[test]
fn test_string() {
    no_string("-");
    no_string("-''");
    no_string("'");
    no_string("'a");
    no_string("'ЯaЯaЯ");
    no_string("'a\\'");
    no_string("'a\\ '");
    no_string("'aaa\\abbb'");
    no_string("'aaa\\\"bbb'");
    string("''", 0);
    string("'a'", 1);
    string("'Я'", 1);
    string("'y̆'", 2);
    string("'ЯaЯaЯ'", 5);
    string("'''", 0);
    string("'aaa bbb'", 7);
    string("'aaa bbb' ", 7);
    string("'aaa bbb'ccc", 7);
    string("'aaa\\nbbb'", 8);
    string("'aaa\\rbbb'", 8);
    string("'aaa\\tbbb'", 8);
    string("'aaa\\\\bbb'", 8);
    string("'aaa\\\'bbb'", 8);
    string("'aaa\\0bbb'", 8);
}

#[test]
fn matchers_on_nothing_find_nothing() {
    none(double_asterisk, "");
    none(asterisk, "");
    none(identifier, "");
    none(run_matchers, "");
}

#[test]
fn keywords_are_whole_words() {
    some(identifier, "iff", Tok::Identifier, 3);
    some(identifier, "i", Tok::Identifier, 1);
    some(identifier, "matches", Tok::Identifier, 7);
    some(identifier, "If", Tok::Identifier, 2);
}

#[test]
fn two_characters_go_before_one() {
    some(run_matchers, "**=", Tok::DoubleAsterisk, 2);
    some(run_matchers, "*=", Tok::AsteriskEquals, 2);
    some(run_matchers, "*", Tok::Asterisk, 1);
    some(run_matchers, "..", Tok::DoubleFullStop, 2);
    some(run_matchers, ".5", Tok::FullStop, 1);
    some(run_matchers, "!=", Tok::ExclamationEquals, 2);
    none(run_matchers, "!");
    none(run_matchers, "'");
    none(run_matchers, "#");
    some(run_matchers, "<=", Tok::LessThanEquals, 2);
    some(run_matchers, "<", Tok::LessThan, 1);
    some(run_matchers, ">=", Tok::GreaterThanEquals, 2);
    some(run_matchers, "}", Tok::CurlyBracketRight, 1);
    some(run_matchers, "{", Tok::CurlyBracketLeft, 1);
    some(run_matchers, "[", Tok::SquareBracketLeft, 1);
    some(run_matchers, "]", Tok::SquareBracketRight, 1);
    some(run_matchers, "(", Tok::ParenLeft, 1);
    some(run_matchers, ")", Tok::ParenRight, 1);
    some(run_matchers, "|", Tok::VerticalBar, 1);
    some(run_matchers, ":", Tok::Colon, 1);
    some(run_matchers, "^", Tok::Caret, 1);
    some(run_matchers, "+=", Tok::PlusEquals, 2);
    some(run_matchers, "-=", Tok::MinusEquals, 2);
    some(run_matchers, "/=", Tok::SlashEquals, 2);
    some(run_matchers, "==", Tok::DoubleEquals, 2);
    some(run_matchers, "=", Tok::Equals, 1);
    some(run_matchers, "+", Tok::Plus, 1);
    some(run_matchers, "-", Tok::Minus, 1);
    some(run_matchers, "/", Tok::Slash, 1);
    some(run_matchers, "12ab", Tok::Digits, 2);
    some(run_matchers, "ab12", Tok::Identifier, 4);
}

#[test]
fn tokens_cover_the_characters() {
    let chars = as_chars("if a\n   b = 'c d'\n");
    let (toks, metas) = tokenize(&chars);
    assert_eq!(
        toks,
        vec![
            Tok::If,
            Tok::Space,
            Tok::Identifier,
            Tok::LineEnd,
            Tok::Space,
            Tok::Identifier,
            Tok::Space,
            Tok::Equals,
            Tok::Space,
            Tok::Apostrophe,
            Tok::Text,
            Tok::Apostrophe,
            Tok::LineEnd,
        ]
    );
    assert_eq!(metas.len(), toks.len());
    let mut end = 0;
    for meta in &metas {
        assert_eq!(meta.end - meta.span, end);
        end = meta.end;
    }
    assert_eq!(end, chars.len());
    assert_eq!(metas[0], TokMeta { span: 2, end: 2, line: 1, col: 1 });
    assert_eq!(metas[3], TokMeta { span: 1, end: 5, line: 1, col: 5 });
    assert_eq!(metas[4], TokMeta { span: 3, end: 8, line: 2, col: 1 });
    assert_eq!(metas[10], TokMeta { span: 3, end: 16, line: 2, col: 9 });
    assert_eq!(metas[12], TokMeta { span: 1, end: 18, line: 2, col: 13 });
}

#[test]
fn a_missing_line_end_is_added() {
    let chars = as_chars("10 + 10");
    let (toks, metas) = tokenize(&chars);
    assert_eq!(
        toks,
        vec![Tok::Digits, Tok::Space, Tok::Plus, Tok::Space, Tok::Digits, Tok::LineEnd]
    );
    assert_eq!(metas[5], TokMeta { span: 0, end: 7, line: 1, col: 8 });
    let (toks, metas) = tokenize(&[]);
    assert_eq!(toks, vec![Tok::LineEnd]);
    assert_eq!(metas, vec![TokMeta { span: 0, end: 0, line: 1, col: 1 }]);
}

#[test]
fn spaces_at_the_end_are_a_line_end() {
    let chars = as_chars("a  ");
    let (toks, _) = tokenize(&chars);
    assert_eq!(toks, vec![Tok::Identifier, Tok::LineEnd]);
}

#[test]
fn unrecognized_character() {
    let chars = as_chars("a\n  #");
    assert_eq!(
        try_tokenize(&chars),
        Err(LexError::Unrecognized { line: 2, col: 3 })
    );
    let chars = as_chars("a !b");
    assert_eq!(
        try_tokenize(&chars),
        Err(LexError::Unrecognized { line: 1, col: 3 })
    );
}

#[test]
fn string_that_breaks_off() {
    let chars = as_chars("a 'b");
    assert_eq!(
        try_tokenize(&chars),
        Err(LexError::Unrecognized { line: 1, col: 4 })
    );
}

#[test]
fn new_line_in_string() {
    let chars = as_chars("a 'bc\nd'");
    assert_eq!(
        try_tokenize(&chars),
        Err(LexError::NewLineInString { line: 1, col: 7 })
    );
}

#[test]
fn try_tokenize_agrees_with_tokenize() {
    let chars = as_chars("fn f(a b)\n   ret a ** 2\n");
    assert_eq!(try_tokenize(&chars), Ok(tokenize(&chars)));
}
