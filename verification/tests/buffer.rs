use pmutil::respan::{FirstLast, Respan};
use pmutil::spanned_quote::Location;
use pmutil::token::{lex, Delimiter, Token};
use pmutil::Quote;
use proc_macro2::{Ident, Span, TokenTree};
use std::ops::Range;

fn tokens(text: &str) -> Vec<Token> {
    match lex(text) {
        Ok(tokens) => tokens,
        Err(failure) => panic!("{}", failure.message()),
    }
}

fn range(span: Span) -> Range<usize> {
    span.byte_range()
}

fn text_of(token: &Token) -> String {
    token.to_tree().to_string()
}

fn spans_of(tokens: &[Token]) -> Vec<Range<usize>> {
    tokens.iter().map(|token| range(token.span())).collect()
}

fn site(line: u32, col: u32) -> Location {
    Location { file_name: "src/gen.rs", line, col }
}

/// A policy that hands out the span of `first` once and that of `last` after.
fn first_then_last(source: &[Token]) -> Respan {
    Respan::FirstThenLast(FirstLast {
        first: Some(source[0].span()),
        last: source[source.len() - 1].span(),
    })
}

#[test]
fn new_buffer_is_empty() {
    let quote = Quote::new(Respan::Fixed(Span::call_site()));
    assert!(quote.recorded_locations().is_empty());
    assert!(quote.into_tokens().is_empty());
}

#[test]
fn reporting_a_location_twice_records_it_once() {
    let mut quote = Quote::new_call_site();
    quote.report_loc(site(3, 9));
    assert_eq!(quote.recorded_locations().len(), 1);
    quote.report_loc(site(3, 9));
    assert_eq!(quote.recorded_locations().len(), 1);
    quote.report_loc(site(3, 10));
    quote.report_loc(site(4, 9));
    quote.report_loc(Location { file_name: "src/other.rs", line: 3, col: 9 });
    quote.report_loc(site(3, 9));
    assert_eq!(
        quote.recorded_locations(),
        vec![
            site(3, 9),
            site(3, 10),
            site(4, 9),
            Location { file_name: "src/other.rs", line: 3, col: 9 },
        ]
    );
}

#[test]
fn verbatim_tokens_keep_their_spans_and_parsed_ones_do_not() {
    let source = tokens("first last");
    let value = tokens("a + b");
    let given = spans_of(&value);

    let mut verbatim = Quote::new(first_then_last(&source));
    verbatim.push_tokens(&value);
    let kept = verbatim.into_tokens();
    assert_eq!(spans_of(&kept), given);
    assert_eq!(kept.iter().map(text_of).collect::<Vec<_>>(), vec!["a", "+", "b"]);

    let mut parsed = Quote::new(first_then_last(&source));
    assert!(parsed.push_parsed("a + b").is_ok());
    let stamped = parsed.into_tokens();
    assert_eq!(stamped.iter().map(text_of).collect::<Vec<_>>(), vec!["a", "+", "b"]);
    assert_eq!(
        spans_of(&stamped),
        vec![range(source[0].span()), range(source[1].span()), range(source[1].span())]
    );
    assert_ne!(spans_of(&stamped), given);
}

#[test]
fn verbatim_tokens_do_not_use_up_the_policy() {
    let source = tokens("first last");
    let mut quote = Quote::new(first_then_last(&source));
    quote.push_tokens(&tokens("a b c"));
    assert_eq!(range(quote.next_span()), range(source[0].span()));
}

#[test]
fn push_tt_appends_the_token_unchanged() {
    let source = tokens("first last");
    let extra = tokens("x");
    let span = range(extra[0].span());
    let mut quote = Quote::new(first_then_last(&source));
    for token in extra {
        quote.push_tt(token);
    }
    assert_eq!(range(quote.next_span()), range(source[0].span()));
    let built = quote.into_tokens();
    assert_eq!(built.len(), 1);
    assert_eq!(range(built[0].span()), span);
}

#[test]
fn push_sym_stamps_the_symbol() {
    let source = tokens("first last");
    let mut quote = Quote::new(first_then_last(&source));
    quote.push_sym(TokenTree::Ident(Ident::new("one", Span::call_site())));
    quote.push_sym(TokenTree::Ident(Ident::new("two", Span::call_site())));
    let built = quote.into_tokens();
    assert_eq!(built.iter().map(text_of).collect::<Vec<_>>(), vec!["one", "two"]);
    assert_eq!(spans_of(&built), vec![range(source[0].span()), range(source[1].span())]);
}

#[test]
fn push_respanned_calls_the_policy_once_per_token() {
    let source = tokens("first last");
    let mut quote = Quote::new(first_then_last(&source));
    quote.push_respanned(&tokens("(a b) c"));
    let built = quote.into_tokens();
    assert_eq!(spans_of(&built), vec![range(source[0].span()), range(source[1].span())]);
    assert_eq!(text_of(&built[0]), "(a b)");
}

#[test]
fn push_parsed_that_fails_changes_nothing() {
    let source = tokens("first last");
    let mut quote = Quote::new(first_then_last(&source));
    assert!(quote.push_parsed("x").is_ok());
    match quote.push_parsed("]") {
        Ok(()) => panic!("a lone bracket must not lex"),
        Err(failure) => assert_eq!(failure.fragment, "]"),
    }
    assert_eq!(range(quote.next_span()), range(source[1].span()));
    assert_eq!(quote.into_tokens().len(), 1);
}

#[test]
fn group_round_trip() {
    let mut quote = Quote::new_call_site();
    quote.report_loc(site(1, 1));
    quote.push_group(Delimiter::Parenthesis, |child: &mut Quote| {
        child.report_loc(site(2, 2));
        child.report_loc(site(1, 1));
        assert!(child.push_parsed("1").is_ok());
        assert!(child.push_parsed("2").is_ok());
    });
    assert_eq!(quote.recorded_locations(), vec![site(1, 1), site(2, 2)]);
    let built = quote.into_tokens();
    assert_eq!(built.len(), 1);
    match &built[0] {
        Token::Group { delimiter, tokens, .. } => {
            assert!(matches!(delimiter, Delimiter::Parenthesis));
            assert_eq!(tokens.len(), 2);
            assert!(tokens.iter().all(|token| matches!(token, Token::Leaf { .. })));
            assert_eq!(tokens.iter().map(text_of).collect::<Vec<_>>(), vec!["1", "2"]);
        }
        Token::Leaf { .. } => panic!("the one token must be a group"),
    }
    assert_eq!(text_of(&built[0]), "(1 2)");
}

#[test]
fn group_of_each_delimiter() {
    for (delimiter, expected) in [
        (Delimiter::Parenthesis, "()"),
        (Delimiter::Brace, "{}"),
        (Delimiter::Bracket, "[]"),
    ] {
        let mut quote = Quote::new_call_site();
        quote.push_group(delimiter, |_child: &mut Quote| {});
        assert_eq!(quote.into_token_stream().to_string().replace(' ', ""), expected);
    }
}

#[test]
fn policy_comes_back_as_the_group_left_it() {
    let source = tokens("first last");
    let (first, last) = (range(source[0].span()), range(source[1].span()));

    // The group uses up the first span; the parent goes on with the last.
    let mut quote = Quote::new(first_then_last(&source));
    quote.push_group(Delimiter::Brace, |child: &mut Quote| {
        assert!(child.push_parsed("a").is_ok());
    });
    assert!(quote.push_parsed("b").is_ok());
    let built = quote.into_tokens();
    match &built[0] {
        Token::Group { tokens, .. } => assert_eq!(spans_of(tokens), vec![first.clone()]),
        Token::Leaf { .. } => panic!("the first token must be a group"),
    }
    assert_eq!(range(built[1].span()), last);

    // A group that stamps nothing leaves the first span for the parent.
    let mut quote = Quote::new(first_then_last(&source));
    quote.push_group(Delimiter::Brace, |_child: &mut Quote| {});
    assert_eq!(range(quote.next_span()), first);
}

#[test]
fn policy_comes_back_through_nested_groups() {
    let source = tokens("first last");
    let (first, last) = (range(source[0].span()), range(source[1].span()));
    let mut quote = Quote::new(first_then_last(&source));
    quote.push_group(Delimiter::Brace, |outer: &mut Quote| {
        outer.push_group(Delimiter::Bracket, |inner: &mut Quote| {
            assert!(inner.push_parsed("deep").is_ok());
        });
        assert!(outer.push_parsed("shallow").is_ok());
    });
    assert_eq!(range(quote.next_span()), last);
    let built = quote.into_tokens();
    match &built[0] {
        Token::Group { tokens, .. } => {
            assert_eq!(range(tokens[1].span()), last);
            match &tokens[0] {
                Token::Group { tokens, .. } => assert_eq!(spans_of(tokens), vec![first]),
                Token::Leaf { .. } => panic!("the inner token must be a group"),
            }
        }
        Token::Leaf { .. } => panic!("the outer token must be a group"),
    }
}

#[test]
fn group_gets_the_span_that_was_next_when_it_opened() {
    let source = tokens("first last");
    let (first, last) = (range(source[0].span()), range(source[1].span()));
    let mut quote = Quote::new(first_then_last(&source));
    quote.push_group(Delimiter::Parenthesis, |child: &mut Quote| {
        assert!(child.push_parsed("a").is_ok());
    });
    quote.push_group(Delimiter::Parenthesis, |_child: &mut Quote| {});
    let built = quote.into_tokens();
    assert_eq!(spans_of(&built), vec![first.clone(), last.clone()]);
    let stream_spans: Vec<Range<usize>> = pmutil::token::tokens_to_stream(&built)
        .into_iter()
        .map(|tree| range(tree.span()))
        .collect();
    assert_eq!(stream_spans, vec![first, last]);
}

#[test]
fn quote_with_hands_the_buffer_through() {
    let quote = Quote::new_call_site().quote_with(|quote: &mut Quote| {
        quote.report_loc(site(7, 7));
        assert!(quote.push_parsed("x y").is_ok());
    });
    assert_eq!(quote.recorded_locations(), vec![site(7, 7)]);
    assert_eq!(quote.into_tokens().len(), 2);
}

#[test]
fn from_tokens_reads_first_and_last() {
    let source = tokens("alpha beta gamma");
    let mut quote = Quote::from_tokens(&source);
    assert!(quote.push_parsed("a b c").is_ok());
    assert_eq!(
        spans_of(&quote.into_tokens()),
        vec![
            range(source[0].span()),
            range(source[2].span()),
            range(source[2].span()),
        ]
    );
}

#[test]
fn from_tokens_of_nothing_uses_the_call_site() {
    let mut quote = Quote::from_tokens(&Vec::new());
    assert_eq!(range(quote.next_span()), range(Span::call_site()));
    assert_eq!(range(quote.next_span()), range(Span::call_site()));
}

#[test]
fn from_tokens_or_falls_back_to_the_default_span() {
    let source = tokens("alpha beta");
    let default_span = tokens("zeta")[0].span();

    let mut some = Quote::from_tokens_or(&Some(tokens_copy(&source)), default_span);
    assert_eq!(range(some.next_span()), range(source[0].span()));
    assert_eq!(range(some.next_span()), range(source[1].span()));

    let mut none = Quote::from_tokens_or(&None, default_span);
    assert_eq!(range(none.next_span()), range(default_span));
    assert_eq!(range(none.next_span()), range(default_span));

    let mut empty = Quote::from_tokens_or(&Some(Vec::new()), default_span);
    assert_eq!(range(empty.next_span()), range(default_span));
    assert_eq!(range(empty.next_span()), range(default_span));
}

fn tokens_copy(tokens: &[Token]) -> Vec<Token> {
    tokens.iter().map(Token::duplicate).collect()
}

#[test]
fn to_tokens_appends_a_copy() {
    let mut quote = Quote::new_call_site();
    assert!(quote.push_parsed("b c").is_ok());
    let mut dst = tokens("a");
    quote.to_tokens(&mut dst);
    assert_eq!(dst.iter().map(text_of).collect::<Vec<_>>(), vec!["a", "b", "c"]);
    assert_eq!(quote.into_tokens().len(), 2);
}

#[test]
fn token_stream_holds_the_tokens_in_order() {
    let mut quote = Quote::new_call_site();
    assert!(quote.push_parsed("struct").is_ok());
    assert!(quote.push_parsed("Unit").is_ok());
    assert!(quote.push_parsed(";").is_ok());
    assert_eq!(quote.to_token_stream().to_string(), "struct Unit ;");
    let item: syn::ItemStruct = syn::parse2(quote.into_token_stream()).expect("a struct");
    assert_eq!(item.ident.to_string(), "Unit");
}

#[test]
fn location_text() {
    assert_eq!(site(12, 7).text(), "src/gen.rs:12:7");
    assert_eq!(site(0, 0).text(), "src/gen.rs:0:0");
    assert_eq!(site(10, 100).text(), "src/gen.rs:10:100");
    assert_eq!(site(u32::MAX, 909).text(), "src/gen.rs:4294967295:909");
    assert_eq!(Location { file_name: "", line: 1, col: 2 }.text(), ":1:2");
}

#[test]
fn location_same() {
    assert!(site(1, 2).same(&site(1, 2)));
    assert!(!site(1, 2).same(&site(2, 1)));
    assert!(!site(1, 2).same(&site(1, 3)));
    assert!(!site(1, 2).same(&Location { file_name: "src/gen.rt", line: 1, col: 2 }));
    assert!(!site(1, 2).same(&Location { file_name: "src/gen", line: 1, col: 2 }));
    assert!(Location { file_name: "", line: 0, col: 0 }
        .same(&Location { file_name: "", line: 0, col: 0 }));
}

#[test]
fn notes_list_the_call_sites() {
    let mut quote = Quote::new_call_site();
    assert_eq!(quote.notes(), "Note: quasi quotting was invoked from:\n");
    quote.report_loc(site(3, 9));
    quote.report_loc(site(14, 1));
    assert_eq!(
        quote.notes(),
        "Note: quasi quotting was invoked from:\n       src/gen.rs:3:9\n       src/gen.rs:14:1\n"
    );
}

#[test]
fn parse_failure_names_call_sites_error_and_hint() {
    let mut quote = Quote::new_call_site();
    quote.report_loc(site(3, 9));
    quote.push_group(Delimiter::Brace, |child: &mut Quote| {
        child.report_loc(site(14, 1));
        assert!(child.push_parsed("not a function").is_ok());
    });
    let error = match syn::parse2::<syn::ItemFn>(quote.to_token_stream()) {
        Ok(_) => panic!("a block is no function"),
        Err(error) => error.to_string(),
    };
    assert!(!error.is_empty());

    let hinted = quote.parse_failure(&error, false);
    assert!(hinted.contains("       src/gen.rs:3:9\n"));
    assert!(hinted.contains("       src/gen.rs:14:1\n"));
    assert!(hinted.contains(&error));
    assert!(hinted.contains("please set environment variable `DBG_DUMP`"));
    assert!(!hinted.contains("not a function"));
    assert_eq!(
        hinted,
        format!(
            "Quote::parse() failed.\n                Note: quasi quotting was invoked from:\n       src/gen.rs:3:9\n       src/gen.rs:14:1\n\nError from syn: {}\n    >>>>>\n        To get code failed to parse,\n please set environment variable `DBG_DUMP` and run in again\n    <<<<<",
            error
        )
    );

    let dumped = quote.parse_failure(&error, true);
    assert!(dumped.contains("       src/gen.rs:3:9\n"));
    assert!(dumped.contains("       src/gen.rs:14:1\n"));
    assert!(dumped.contains(&error));
    assert!(dumped.contains("{ not a function }"));
    assert!(!dumped.contains("DBG_DUMP"));
    assert_eq!(
        dumped,
        format!(
            "Quote::parse() failed.\n                Note: quasi quotting was invoked from:\n       src/gen.rs:3:9\n       src/gen.rs:14:1\n\nError from syn: {}\n    >>>>>\n        {{ not a function }}\n    <<<<<",
            error
        )
    );
}

#[test]
fn parse_failure_without_call_sites() {
    let quote = Quote::new_call_site();
    assert_eq!(
        quote.parse_failure("boom", true),
        "Quote::parse() failed.\n                Note: quasi quotting was invoked from:\n\nError from syn: boom\n    >>>>>\n        \n    <<<<<"
    );
}

#[test]
fn end_to_end_function_from_a_fixed_span() {
    let site_span = tokens("site")[0].span();
    let mut quote = Quote::new(Respan::Fixed(site_span));
    quote.report_loc(site(1, 1));
    for text in ["fn", "output"] {
        assert!(quote.push_parsed(text).is_ok());
    }
    quote.push_group(Delimiter::Parenthesis, |_child: &mut Quote| {});
    for text in ["->", "&", "'static", "str"] {
        assert!(quote.push_parsed(text).is_ok());
    }
    quote.push_group(Delimiter::Brace, |child: &mut Quote| {
        assert!(child.push_parsed("\"foo\"").is_ok());
    });
    let stream = quote.into_token_stream();
    assert!(stream.clone().into_iter().all(|tree| range(tree.span()) == range(site_span)));
    let item: syn::ItemFn = syn::parse2(stream).expect("a function");
    assert_eq!(item.sig.ident.to_string(), "output");
    assert!(item.sig.inputs.is_empty());
    match &item.block.stmts[..] {
        [syn::Stmt::Expr(syn::Expr::Lit(lit), None)] => match &lit.lit {
            syn::Lit::Str(text) => assert_eq!(text.value(), "foo"),
            _ => panic!("the body is no string literal"),
        },
        _ => panic!("the body is no single literal"),
    }
}

fn parse_item(stream: proc_macro2::TokenStream) -> Result<syn::ItemFn, String> {
    syn::parse2::<syn::ItemFn>(stream).map_err(|err| err.to_string())
}

#[test]
fn parse_hands_on_what_the_parser_makes() {
    let mut quote = Quote::new_call_site();
    quote.report_loc(site(5, 5));
    assert!(quote.push_parsed("fn answer() -> u8").is_ok());
    quote.push_group(Delimiter::Brace, |child: &mut Quote| {
        assert!(child.push_parsed("42").is_ok());
    });
    match quote.parse(parse_item, false) {
        Ok(item) => assert_eq!(item.sig.ident.to_string(), "answer"),
        Err(text) => panic!("{}", text),
    }
}

#[test]
fn parse_turns_a_parser_error_into_the_diagnostic() {
    let build = || {
        let mut quote = Quote::new_call_site();
        quote.report_loc(site(5, 5));
        quote.report_loc(site(6, 1));
        assert!(quote.push_parsed("fn 1").is_ok());
        quote
    };
    let error = match parse_item(build().into_token_stream()) {
        Ok(_) => panic!("a number is no name"),
        Err(error) => error,
    };

    match build().parse(parse_item, false) {
        Ok(_) => panic!("a number is no name"),
        Err(text) => {
            assert_eq!(text, build().parse_failure(&error, false));
            assert!(text.starts_with("Quote::parse() failed.\n"));
            assert!(text.contains("src/gen.rs:5:5"));
            assert!(text.contains("src/gen.rs:6:1"));
            assert!(text.contains(&format!("Error from syn: {}", error)));
            assert!(text.contains("To get code failed to parse,"));
        }
    }
    match build().parse(parse_item, true) {
        Ok(_) => panic!("a number is no name"),
        Err(text) => {
            assert_eq!(text, build().parse_failure(&error, true));
            assert!(text.contains("    >>>>>\n        fn 1\n    <<<<<"));
        }
    }
}

#[test]
fn parse_uses_whatever_parser_it_is_given() {
    let mut quote = Quote::new_call_site();
    assert!(quote.push_parsed("a b c").is_ok());
    let count = quote.parse(|stream| Ok::<usize, String>(stream.into_iter().count()), true);
    assert_eq!(count, Ok(3));

    let quote = Quote::new_call_site();
    let refused = quote.parse(|_| Err::<u8, String>("no".to_string()), false);
    assert_eq!(
        refused,
        Err("Quote::parse() failed.\n                Note: quasi quotting was invoked from:\n\nError from syn: no\n    >>>>>\n        To get code failed to parse,\n please set environment variable `DBG_DUMP` and run in again\n    <<<<<".to_string())
    );
}

#[test]
fn buffers_are_well_formed() {
    let mut quote = Quote::new_call_site();
    assert!(quote.is_well_formed());
    quote.report_loc(site(1, 1));
    quote.report_loc(site(1, 1));
    quote.report_loc(site(2, 1));
    quote.push_group(Delimiter::Brace, |child: &mut Quote| {
        assert!(child.is_well_formed());
        child.report_loc(site(2, 1));
        child.report_loc(site(3, 1));
    });
    assert!(quote.is_well_formed());
    assert_eq!(quote.recorded_locations().len(), 3);
}
