//! Tokens as the builder sees them, and the passage to and from the token
//! trees of `proc_macro2`.

use proc_macro2::{LexError, Span, TokenStream, TokenTree};
use quote::TokenStreamExt;
use vstd::prelude::*;
use vstd::string::StringExecFns;

verus! {

/// `proc_macro2::Span`: an opaque source position, only ever carried along.
#[verifier::external_type_specification]
#[verifier::external_body]
pub struct ExSpan(Span);

/// `proc_macro2::TokenTree`: one token tree of the outside crate.
#[verifier::external_type_specification]
#[verifier::external_body]
pub struct ExTokenTree(TokenTree);

/// `proc_macro2::TokenStream`: a sequence of token trees of the outside crate.
#[verifier::external_type_specification]
#[verifier::external_body]
pub struct ExTokenStream(TokenStream);

/// `proc_macro2::LexError`: why a text could not be split into tokens.
#[verifier::external_type_specification]
#[verifier::external_body]
pub struct ExLexError(LexError);

/// The token trees that a stream holds, in order.
pub uninterp spec fn stream_trees(stream: TokenStream) -> Seq<TokenTree>;

/// The span that a token tree reports for itself.
pub uninterp spec fn tree_span(tree: TokenTree) -> Span;

/// The token tree that results from giving `tree` the span `span`.
pub uninterp spec fn tree_with_span(tree: TokenTree, span: Span) -> TokenTree;

/// The group tree with the given delimiter, contents and span.
pub uninterp spec fn group_tree(delimiter: Delimiter, trees: Seq<TokenTree>, span: Span) -> TokenTree;

/// What a stream holds once `trees` have been collected into it: the trees in
/// order, except that the outside crate stores a negative literal as its sign
/// followed by its magnitude.
pub uninterp spec fn collected(trees: Seq<TokenTree>) -> Seq<TokenTree>;

/// `TokenTree::span`.
#[verifier::external_body]
fn span_of_tree(tree: &TokenTree) -> (s: Span)
    ensures
        s == tree_span(*tree),
{
    tree.span()
}

/// `TokenTree::set_span`: `tree`, carrying `span`. For a group only the
/// delimiters are respanned, not what the group contains.
#[verifier::external_body]
fn tree_carrying(tree: TokenTree, span: Span) -> (t: TokenTree)
    ensures
        t == tree_with_span(tree, span),
{
    let mut tree = tree;
    tree.set_span(span);
    tree
}

/// `TokenTree::clone`: an equal token tree.
#[verifier::external_body]
fn tree_copy(tree: &TokenTree) -> (t: TokenTree)
    ensures
        t == *tree,
{
    tree.clone()
}

/// `Group::new` followed by `Group::set_span`: the group with this delimiter
/// around what `stream` holds, carrying `span` in place of the call site span
/// that a new group starts with.
#[verifier::external_body]
fn tree_of_group(delimiter: Delimiter, stream: TokenStream, span: Span) -> (t: TokenTree)
    ensures
        t == group_tree(delimiter, stream_trees(stream), span),
{
    let outside = match delimiter {
        Delimiter::Parenthesis => proc_macro2::Delimiter::Parenthesis,
        Delimiter::Brace => proc_macro2::Delimiter::Brace,
        Delimiter::Bracket => proc_macro2::Delimiter::Bracket,
    };
    let mut group = proc_macro2::Group::new(outside, stream);
    group.set_span(span);
    TokenTree::Group(group)
}

/// `TokenStream::new` filled by `TokenStreamExt::append_all`, which appends a
/// copy of each tree in turn.
#[verifier::external_body]
fn stream_of_trees(trees: &Vec<TokenTree>) -> (stream: TokenStream)
    ensures
        stream_trees(stream) == collected(trees@),
{
    let mut stream = TokenStream::new();
    stream.append_all(trees);
    stream
}

/// `TokenStream::into_iter`, collected: the trees that the stream holds.
#[verifier::external_body]
fn trees_of_stream(stream: TokenStream) -> (trees: Vec<TokenTree>)
    ensures
        trees@ == stream_trees(stream),
{
    stream.into_iter().collect()
}

/// `TokenStream::from_str`: splits `text` into tokens, or reports that it
/// cannot. Nothing is claimed about which texts lex, nor about the trees.
#[verifier::external_body]
fn lex_stream(text: &str) -> (r: Result<TokenStream, LexError>)
{
    text.parse::<TokenStream>()
}

/// The text that a stream holding `trees` is written as.
pub uninterp spec fn rendered(trees: Seq<TokenTree>) -> Seq<char>;

/// `TokenStream::to_string`, which goes by the stream's `Display`: the source
/// text of the tokens that the stream holds.
#[verifier::external_body]
pub(crate) fn stream_text(stream: &TokenStream) -> (text: String)
    ensures
        text@ == rendered(stream_trees(*stream)),
{
    stream.to_string()
}

/// `Span::call_site`: the span of the running macro invocation. Which span
/// that is depends on where the code runs, so nothing is claimed about it.
#[verifier::external_body]
pub(crate) fn call_site_span() -> (s: Span)
{
    Span::call_site()
}

/// How a group is delimited.
#[derive(Clone, Copy, Debug, PartialEq, Eq, Structural)]
pub enum Delimiter {
    /// `( ... )`
    Parenthesis,
    /// `{ ... }`
    Brace,
    /// `[ ... ]`
    Bracket,
}

/// One token of a sequence under construction.
pub enum Token {
    /// A token tree that came from outside the builder (an identifier, a
    /// literal, a punctuation mark, or a whole tree handed in), carried as it
    /// is. `span` is the span the token has in the sequence; the one stored
    /// inside `tree` is replaced by it when the token leaves the library.
    Leaf { tree: TokenTree, span: Span },
    /// A delimited group that the builder assembled.
    Group { delimiter: Delimiter, span: Span, tokens: Vec<Token> },
}

/// The mathematical value of a [`Token`]: the same tree with sequences in
/// place of vectors.
pub enum TokenView {
    Leaf { tree: TokenTree, span: Span },
    Group { delimiter: Delimiter, span: Span, tokens: Seq<TokenView> },
}

impl View for Token {
    type V = TokenView;

    open spec fn view(&self) -> TokenView
        decreases self,
    {
        match *self {
            Token::Leaf { tree, span } => TokenView::Leaf { tree, span },
            Token::Group { delimiter, span, tokens } => TokenView::Group {
                delimiter,
                span,
                tokens: views_of(tokens@),
            },
        }
    }
}

/// The values of a sequence of tokens, one by one.
pub open spec fn views_of(tokens: Seq<Token>) -> Seq<TokenView>
    decreases tokens,
{
    if tokens.len() == 0 {
        Seq::empty()
    } else {
        views_of(tokens.drop_last()).push(tokens.last()@)
    }
}

/// `views_of` keeps the length and maps each position to the value of the
/// token there.
pub proof fn lemma_views_of(tokens: Seq<Token>)
    ensures
        views_of(tokens).len() == tokens.len(),
        forall|i: int| 0 <= i < tokens.len() ==> (#[trigger] views_of(tokens)[i]) == tokens[i]@,
    decreases tokens.len(),
{
    if tokens.len() > 0 {
        lemma_views_of(tokens.drop_last());
        assert(views_of(tokens) == views_of(tokens.drop_last()).push(tokens.last()@));
    }
}

/// Appending one token appends its value.
pub proof fn lemma_views_of_push(tokens: Seq<Token>, token: Token)
    ensures
        views_of(tokens.push(token)) == views_of(tokens).push(token@),
{
    assert(tokens.push(token).drop_last() =~= tokens);
}

/// The values of two runs of tokens joined are the values of each, joined.
pub proof fn lemma_views_of_concat(a: Seq<Token>, b: Seq<Token>)
    ensures
        views_of(a + b) == views_of(a) + views_of(b),
{
    lemma_views_of(a);
    lemma_views_of(b);
    lemma_views_of(a + b);
    assert(views_of(a + b) =~= views_of(a) + views_of(b));
}

impl TokenView {
    /// The span the token carries.
    pub open spec fn span_of(self) -> Span {
        match self {
            TokenView::Leaf { span, .. } => span,
            TokenView::Group { span, .. } => span,
        }
    }

    /// The same token carrying `span`; what a group contains is untouched.
    pub open spec fn with_span(self, span: Span) -> TokenView {
        match self {
            TokenView::Leaf { tree, .. } => TokenView::Leaf { tree, span },
            TokenView::Group { delimiter, tokens, .. } => TokenView::Group { delimiter, span, tokens },
        }
    }

    /// The outside token tree that stands for this token.
    pub open spec fn tree_of(self) -> TokenTree
        decreases self,
    {
        match self {
            TokenView::Leaf { tree, span } => tree_with_span(tree, span),
            TokenView::Group { delimiter, span, tokens } => group_tree(
                delimiter,
                collected(trees_of(tokens)),
                span,
            ),
        }
    }
}

/// The outside token trees that stand for a sequence of tokens.
pub open spec fn trees_of(tokens: Seq<TokenView>) -> Seq<TokenTree>
    decreases tokens,
{
    if tokens.len() == 0 {
        Seq::empty()
    } else {
        trees_of(tokens.drop_last()).push(tokens.last().tree_of())
    }
}

/// The tokens that stand for outside token trees taken as they are: one leaf
/// per tree, with the span the tree reports.
pub open spec fn leaves_of(trees: Seq<TokenTree>) -> Seq<TokenView> {
    Seq::new(trees.len(), |i: int| TokenView::Leaf { tree: trees[i], span: tree_span(trees[i]) })
}

impl Token {
    /// The span the token carries.
    pub fn span(&self) -> (s: Span)
        ensures
            s == self@.span_of(),
    {
        match self {
            Token::Leaf { span, .. } => *span,
            Token::Group { span, .. } => *span,
        }
    }

    /// Replaces the span the token carries.
    pub fn respanned(self, span: Span) -> (t: Token)
        ensures
            t@ == self@.with_span(span),
    {
        match self {
            Token::Leaf { tree, .. } => Token::Leaf { tree, span },
            Token::Group { delimiter, tokens, .. } => Token::Group { delimiter, span, tokens },
        }
    }

    /// Takes an outside token tree as a leaf, with the span it reports.
    pub fn from_tree(tree: TokenTree) -> (t: Token)
        ensures
            t@ == (TokenView::Leaf { tree, span: tree_span(tree) }),
    {
        let span = span_of_tree(&tree);
        Token::Leaf { tree, span }
    }

    /// The outside token tree that stands for this token.
    pub fn to_tree(&self) -> (t: TokenTree)
        ensures
            t == self@.tree_of(),
        decreases self,
    {
        match self {
            Token::Leaf { tree, span } => tree_carrying(tree_copy(tree), *span),
            Token::Group { delimiter, span, tokens } => {
                let stream = tokens_to_stream(tokens);
                tree_of_group(*delimiter, stream, *span)
            },
        }
    }

    /// An equal token.
    pub fn duplicate(&self) -> (t: Token)
        ensures
            t@ == self@,
        decreases self,
    {
        match self {
            Token::Leaf { tree, span } => Token::Leaf { tree: tree_copy(tree), span: *span },
            Token::Group { delimiter, span, tokens } => Token::Group {
                delimiter: *delimiter,
                span: *span,
                tokens: duplicate_tokens(tokens),
            },
        }
    }
}

/// An equal sequence of tokens.
pub fn duplicate_tokens(tokens: &Vec<Token>) -> (copy: Vec<Token>)
    ensures
        views_of(copy@) == views_of(tokens@),
    decreases tokens,
{
    let mut copy: Vec<Token> = Vec::new();
    let mut i: usize = 0;
    while i < tokens.len()
        invariant
            i <= tokens.len(),
            views_of(copy@) == views_of(tokens@.take(i as int)),
        decreases tokens.len() - i,
    {
        let token = tokens[i].duplicate();
        proof {
            lemma_views_of_push(copy@, token);
            lemma_views_of_push(tokens@.take(i as int), tokens@[i as int]);
            assert(tokens@.take(i as int).push(tokens@[i as int]) =~= tokens@.take(i + 1));
        }
        copy.push(token);
        i = i + 1;
    }
    assert(tokens@.take(tokens.len() as int) =~= tokens@);
    copy
}

/// The outside stream that stands for a sequence of tokens.
pub fn tokens_to_stream(tokens: &Vec<Token>) -> (stream: TokenStream)
    ensures
        stream_trees(stream) == collected(trees_of(views_of(tokens@))),
    decreases tokens,
{
    let mut trees: Vec<TokenTree> = Vec::new();
    let mut i: usize = 0;
    while i < tokens.len()
        invariant
            i <= tokens.len(),
            trees@ == trees_of(views_of(tokens@.take(i as int))),
        decreases tokens.len() - i,
    {
        let tree = tokens[i].to_tree();
        proof {
            lemma_views_of_push(tokens@.take(i as int), tokens@[i as int]);
            assert(tokens@.take(i as int).push(tokens@[i as int]) =~= tokens@.take(i + 1));
            let before = views_of(tokens@.take(i as int));
            assert(before.push(tokens@[i as int]@).drop_last() =~= before);
        }
        trees.push(tree);
        i = i + 1;
    }
    assert(tokens@.take(tokens.len() as int) =~= tokens@);
    stream_of_trees(&trees)
}

/// The tokens of an outside stream: each of its trees as a leaf.
pub fn tokens_from_stream(stream: TokenStream) -> (tokens: Vec<Token>)
    ensures
        views_of(tokens@) == leaves_of(stream_trees(stream)),
{
    let trees = trees_of_stream(stream);
    let mut tokens: Vec<Token> = Vec::new();
    let mut i: usize = 0;
    while i < trees.len()
        invariant
            i <= trees.len(),
            views_of(tokens@) == leaves_of(trees@.take(i as int)),
        decreases trees.len() - i,
    {
        let token = Token::from_tree(tree_copy(&trees[i]));
        proof {
            lemma_views_of_push(tokens@, token);
            assert(leaves_of(trees@.take(i as int)).push(token@) =~= leaves_of(trees@.take(i + 1)));
        }
        tokens.push(token);
        i = i + 1;
    }
    assert(trees@.take(trees.len() as int) =~= trees@);
    tokens
}

/// A text that could not be split into tokens.
pub struct LexFailure {
    /// The text as it was handed in.
    pub fragment: String,
}

impl LexFailure {
    /// The diagnostic for this failure; it names the text.
    pub fn message(&self) -> (m: String)
        ensures
            m@ == "Failed to parse token to quote: "@ + self.fragment@,
    {
        let mut m = String::from_str("Failed to parse token to quote: ");
        m.append(self.fragment.as_str());
        m
    }
}

/// Whether a token is an outside tree taken as it came, span included.
pub open spec fn is_fresh_leaf(token: TokenView) -> bool {
    token matches TokenView::Leaf { tree, span } && span == tree_span(tree)
}

/// Splits `text` into tokens. Whether a text can be split is for the outside
/// lexer to say; when it can, every token is a leaf as the lexer made it, and
/// when it cannot, the failure holds the text.
pub fn lex(text: &str) -> (r: Result<Vec<Token>, LexFailure>)
    ensures
        r matches Ok(tokens) ==> forall|i: int|
            0 <= i < tokens@.len() ==> is_fresh_leaf(#[trigger] views_of(tokens@)[i]),
        r matches Err(failure) ==> failure.fragment@ == text@,
{
    match lex_stream(text) {
        Ok(stream) => {
            let tokens = tokens_from_stream(stream);
            proof {
                lemma_views_of(tokens@);
            }
            Ok(tokens)
        },
        Err(_) => Err(LexFailure { fragment: String::from_str(text) }),
    }
}

} // verus!
