use lax::advancer::{Advancer, Matcher};
use lax::tokenize::{CharClass, Tok};

struct Vowel;

impl Matcher<char> for Vowel {
    fn accepts(&self, item: &char) -> bool {
        "aeiou".contains(*item)
    }

    fn matches(&self, item: &char) -> bool {
        self.accepts(item)
    }
}

fn chars(source: &str) -> Vec<char> {
    source.chars().collect()
}

#[test]
fn new_cursor_is_at_the_beginning() {
    let items = chars("abcd");
    let advancer = Advancer::new(&items);
    assert_eq!(advancer.pos(), 0);
    assert!(advancer.current().is_empty());
    assert!(!advancer.completed());
    assert!(!advancer.cannot_peek());
}

#[test]
fn empty_cursor_is_completed() {
    let items: Vec<char> = Vec::new();
    let advancer = Advancer::new(&items);
    assert!(advancer.completed());
    assert!(advancer.cannot_peek());
}

#[test]
fn one_steps_over_a_match_and_returns_it() {
    let items = chars("abcd");
    let mut advancer = Advancer::new(&items);
    assert_eq!(advancer.one('a'), Some(&'a'));
    assert_eq!(advancer.pos(), 1);
    assert_eq!(advancer.current(), &['a']);
}

#[test]
fn one_gives_up_what_was_pending() {
    let items = chars("abcd");
    let mut advancer = Advancer::new(&items);
    assert_eq!(advancer.one('a'), Some(&'a'));
    assert_eq!(advancer.one('b'), Some(&'b'));
    assert_eq!(advancer.one('x'), None);
    assert_eq!(advancer.pos(), 0);
}

#[test]
fn one_fails_at_the_end() {
    let items = chars("a");
    let mut advancer = Advancer::new(&items);
    assert_eq!(advancer.one('a'), Some(&'a'));
    assert_eq!(advancer.consume(), 1);
    assert_eq!(advancer.one('a'), None);
    assert_eq!(advancer.pos(), 1);
    assert!(advancer.completed());
}

#[test]
fn zero_or_one_never_resets() {
    let items = chars("abcd");
    let mut advancer = Advancer::new(&items);
    advancer.zero_or_one('a');
    assert_eq!(advancer.pos(), 1);
    advancer.zero_or_one('x');
    assert_eq!(advancer.pos(), 1);
    advancer.zero_or_one('b');
    assert_eq!(advancer.pos(), 2);
}

#[test]
fn one_or_more_takes_the_longest_run() {
    let items = chars("aaab");
    let mut advancer = Advancer::new(&items);
    assert_eq!(advancer.one_or_more('a'), Some(()));
    assert_eq!(advancer.pos(), 3);
    assert_eq!(advancer.one_or_more('a'), None);
    assert_eq!(advancer.pos(), 0);
}

#[test]
fn one_or_more_runs_to_the_end() {
    let items = chars("aaa");
    let mut advancer = Advancer::new(&items);
    assert_eq!(advancer.one_or_more('a'), Some(()));
    assert_eq!(advancer.pos(), 3);
    assert!(advancer.cannot_peek());
    assert!(!advancer.completed());
}

#[test]
fn zero_or_more_takes_the_longest_run_and_never_resets() {
    let items = chars("abbbc");
    let mut advancer = Advancer::new(&items);
    advancer.zero_or_one('a');
    advancer.zero_or_more('b');
    assert_eq!(advancer.pos(), 4);
    advancer.zero_or_more('b');
    assert_eq!(advancer.pos(), 4);
}

#[test]
fn consume_commits_and_returns_the_number_of_items() {
    let items = chars("abcd");
    let mut advancer = Advancer::new(&items);
    advancer.zero_or_more(CharClass::Any);
    assert_eq!(advancer.consume(), 4);
    assert!(advancer.completed());
    assert!(advancer.current().is_empty());
}

#[test]
fn consume_counts_from_the_last_commit() {
    let items = chars("abcd");
    let mut advancer = Advancer::new(&items);
    assert_eq!(advancer.one('a'), Some(&'a'));
    assert_eq!(advancer.consume(), 1);
    assert_eq!(advancer.one('b'), Some(&'b'));
    assert_eq!(advancer.one('c'), Some(&'c'));
    assert_eq!(advancer.consume(), 2);
    assert_eq!(advancer.pos(), 3);
    assert_eq!(advancer.one('d'), Some(&'d'));
    assert_eq!(advancer.consume(), 1);
    assert!(advancer.completed());
}

#[test]
fn reset_goes_back_to_the_commit() {
    let items = chars("abcd");
    let mut advancer = Advancer::new(&items);
    assert_eq!(advancer.one('a'), Some(&'a'));
    assert_eq!(advancer.consume(), 1);
    advancer.zero_or_more(CharClass::Any);
    assert_eq!(advancer.pos(), 4);
    advancer.reset();
    assert_eq!(advancer.pos(), 1);
}

#[test]
fn advance_moves_both_positions() {
    let items = chars("abcd");
    let mut advancer = Advancer::new(&items);
    advancer.advance(3);
    assert_eq!(advancer.pos(), 3);
    assert!(advancer.current().is_empty());
    advancer.advance(4);
    assert!(advancer.completed());
}

#[test]
fn a_clone_moves_alone() {
    let items = chars("abcd");
    let mut advancer = Advancer::new(&items);
    let mut clone = advancer.clone();
    clone.zero_or_more(CharClass::Any);
    assert_eq!(clone.pos(), 4);
    assert_eq!(advancer.pos(), 0);
    assert_eq!(clone.consume(), 4);
    advancer.advance(clone.pos());
    assert!(advancer.completed());
}

#[test]
fn a_slice_matches_what_it_holds() {
    let items = chars("+-x");
    let operators: &[char] = &['+', '-', '*'];
    let mut advancer = Advancer::new(&items);
    advancer.zero_or_more(operators);
    assert_eq!(advancer.pos(), 2);
    assert_eq!(advancer.one(operators), None);
}

#[test]
fn a_matcher_of_the_caller() {
    let items = chars("aeixo");
    let mut advancer = Advancer::new(&items);
    assert_eq!(advancer.one_or_more(Vowel), Some(()));
    assert_eq!(advancer.pos(), 3);
}

#[test]
fn classes_of_characters() {
    assert!(CharClass::IdentifierStart.matches(&'_'));
    assert!(CharClass::IdentifierStart.matches(&'z'));
    assert!(CharClass::IdentifierStart.matches(&'A'));
    assert!(!CharClass::IdentifierStart.matches(&'0'));
    assert!(!CharClass::IdentifierStart.matches(&'Я'));
    assert!(CharClass::IdentifierPart.matches(&'9'));
    assert!(!CharClass::IdentifierPart.matches(&'-'));
    assert!(CharClass::Digit.matches(&'0'));
    assert!(!CharClass::Digit.matches(&'a'));
    assert!(CharClass::Any.matches(&'\n'));
}

#[test]
fn a_cursor_over_tokens() {
    let toks = vec![Tok::ParenLeft, Tok::Digits, Tok::ParenRight];
    let mut advancer = Advancer::new(&toks);
    assert_eq!(advancer.one(Tok::ParenLeft), Some(&Tok::ParenLeft));
    advancer.zero_or_one(Tok::Digits);
    assert_eq!(advancer.one(Tok::ParenRight), Some(&Tok::ParenRight));
    assert_eq!(advancer.consume(), 3);
    assert!(advancer.completed());
}

#[test]
fn a_slice_of_tokens_matches_what_it_holds() {
    let toks = vec![Tok::Digits, Tok::Plus, Tok::Digits, Tok::Caret];
    let operators: &[Tok] = &[Tok::Plus, Tok::Minus, Tok::Asterisk, Tok::Slash];
    let mut advancer = Advancer::new(&toks);
    assert_eq!(advancer.one(Tok::Digits), Some(&Tok::Digits));
    assert_eq!(advancer.one(operators), Some(&Tok::Plus));
    assert_eq!(advancer.one(Tok::Digits), Some(&Tok::Digits));
    advancer.zero_or_one(operators);
    assert_eq!(advancer.consume(), 3);
}
