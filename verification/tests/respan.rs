use pmutil::respan::{FirstLast, Respan};
use pmutil::token::{lex, Token};
use proc_macro2::Span;
use std::ops::Range;

fn tokens(text: &str) -> Vec<Token> {
    match lex(text) {
        Ok(tokens) => tokens,
        Err(failure) => panic!("{}", failure.message()),
    }
}

fn range(span: Span) -> Range<usize> {
    span.byte_range()
}

#[test]
fn first_span_is_handed_out_exactly_once() {
    let source = tokens("alpha beta gamma");
    assert_eq!(source.len(), 3);
    let first = range(source[0].span());
    let last = range(source[2].span());
    assert_ne!(first, last);

    let mut policy = Respan::FirstThenLast(FirstLast::from_tokens(&source, Span::call_site()));
    assert_eq!(range(policy.next_span()), first);
    for _ in 0..5 {
        assert_eq!(range(policy.next_span()), last);
    }
}

#[test]
fn single_token_is_both_first_and_last() {
    let source = tokens("alpha");
    assert_eq!(source.len(), 1);
    let only = range(source[0].span());
    assert_ne!(only, range(Span::call_site()));

    let mut policy = FirstLast::from_tokens(&source, Span::call_site());
    assert_eq!(range(policy.next_span()), only);
    assert_eq!(range(policy.next_span()), only);
    assert_eq!(range(policy.next_span()), only);
}

#[test]
fn no_tokens_fall_back_to_the_default_span() {
    let default_span = tokens("zeta")[0].span();
    let mut policy = FirstLast::from_tokens(&Vec::new(), default_span);
    assert_eq!(range(policy.next_span()), range(default_span));
    assert_eq!(range(policy.next_span()), range(default_span));
}

#[test]
fn first_and_last_are_read_off_the_top_level() {
    // The group is one token; what it contains does not count.
    let source = tokens("(alpha beta) gamma");
    assert_eq!(source.len(), 2);
    let policy = FirstLast::from_tokens(&source, Span::call_site());
    assert_eq!(policy.first.map(range), Some(range(source[0].span())));
    assert_eq!(range(policy.last), range(source[1].span()));
}

#[test]
fn fixed_policy_repeats_its_span() {
    let span = tokens("alpha")[0].span();
    let mut policy = Respan::Fixed(span);
    for _ in 0..4 {
        assert_eq!(range(policy.next_span()), range(span));
    }
}

#[test]
fn boxed_policy_behaves_as_the_policy_inside() {
    let source = tokens("alpha beta");
    let first = range(source[0].span());
    let last = range(source[1].span());
    let inner = Respan::FirstThenLast(FirstLast::from_tokens(&source, Span::call_site()));
    let mut policy = Respan::Boxed(Box::new(Respan::Boxed(Box::new(inner))));
    assert_eq!(range(policy.peek()), first);
    assert_eq!(range(policy.next_span()), first);
    assert_eq!(range(policy.peek()), last);
    assert_eq!(range(policy.next_span()), last);
}

#[test]
fn peek_does_not_move_the_policy_on() {
    let source = tokens("alpha beta");
    let first = range(source[0].span());
    let mut policy = Respan::FirstThenLast(FirstLast::from_tokens(&source, Span::call_site()));
    assert_eq!(range(policy.peek()), first);
    assert_eq!(range(policy.peek()), first);
    assert_eq!(range(policy.next_span()), first);
}

#[test]
fn respan_stamps_the_token_and_moves_on() {
    let source = tokens("alpha beta");
    let first = range(source[0].span());
    let last = range(source[1].span());
    let mut policy = Respan::FirstThenLast(FirstLast::from_tokens(&source, Span::call_site()));

    let mut fresh = tokens("gamma delta");
    let delta = fresh.pop().expect("two tokens");
    let gamma = fresh.pop().expect("two tokens");
    let gamma = policy.respan(gamma);
    let delta = policy.respan(delta);
    assert_eq!(range(gamma.span()), first);
    assert_eq!(range(delta.span()), last);
    assert_eq!(gamma.to_tree().to_string(), "gamma");
    assert_eq!(range(gamma.to_tree().span()), first);
    assert_eq!(range(delta.to_tree().span()), last);
}
