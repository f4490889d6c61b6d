use pmutil::spanned_quote::template::{Template, Var};
use pmutil::spanned_quote::Location;
use pmutil::token::Delimiter;
use pmutil::Quote;

fn word(text: &str) -> Template {
    Template::Word(text.to_string())
}

/// The template `fn <name>() -> &'static str { <body> }`.
fn function_template(name: &str, body: Template) -> Vec<Template> {
    vec![
        word("fn"),
        word(name),
        Template::Group(Delimiter::Parenthesis, vec![]),
        word("->"),
        word("&"),
        word("'static"),
        word("str"),
        Template::Group(Delimiter::Brace, vec![body]),
    ]
}

fn here(line: u32) -> Location {
    Location { file_name: "src/generate.rs", line, col: 5 }
}

/// Expands the template as a call-site quote and parses it as a function.
fn expand(vars: Vec<Var>, template: Vec<Template>, loc: Location) -> syn::ItemFn {
    let mut quote = Quote::new_call_site();
    assert!(quote.quote_template(&vars, &template, loc).is_ok());
    match syn::parse2::<syn::ItemFn>(quote.into_token_stream()) {
        Ok(item) => item,
        Err(err) => panic!("{}", err),
    }
}

/// What the function returns, if its body is one string literal.
fn output(item: &syn::ItemFn) -> String {
    assert_eq!(item.block.stmts.len(), 1);
    match &item.block.stmts[0] {
        syn::Stmt::Expr(syn::Expr::Lit(lit), None) => match &lit.lit {
            syn::Lit::Str(text) => text.value(),
            _ => panic!("the body is no string literal"),
        },
        _ => panic!("the body is no literal"),
    }
}

#[test]
fn test_fn_like() {
    let item = expand(vec![], function_template("output_fn_like", word("\"foo\"")), here(53));
    assert_eq!(item.sig.ident.to_string(), "output_fn_like");
    assert_eq!(output(&item), "foo");
}

#[test]
fn test_omit_vars() {
    let item = expand(vec![], function_template("output_omit_vars", word("\"foo\"")), here(60));
    assert_eq!(item.sig.ident.to_string(), "output_omit_vars");
    assert_eq!(output(&item), "foo");
}

#[test]
fn test_expanded_omit_vars() {
    let template = function_template("output_expanded_omit_vars", word("\"foo\""));
    let loc = here(68);
    let quote = Quote::new_call_site().quote_with(move |quote: &mut Quote| {
        assert!(quote.quote_template(&vec![], &template, loc).is_ok());
    });
    let item: syn::ItemFn = syn::parse2(quote.into_token_stream()).expect("a function");
    assert_eq!(item.sig.ident.to_string(), "output_expanded_omit_vars");
    assert_eq!(output(&item), "foo");
}

#[test]
fn test_expanded_fn_like() {
    let template = function_template("output_expanded_fn_like", word("\"foo\""));
    let loc = here(81);
    let quote = Quote::new_call_site().quote_with(move |quote: &mut Quote| {
        assert!(quote.quote_template(&vec![], &template, loc).is_ok());
    });
    let item: syn::ItemFn = syn::parse2(quote.into_token_stream()).expect("a function");
    assert_eq!(item.sig.ident.to_string(), "output_expanded_fn_like");
    assert_eq!(output(&item), "foo");
}
