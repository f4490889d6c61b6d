//! The builder: tokens, the span policy that stamps them, and the call sites
//! that contributed.

use crate::respan::{FirstLast, Respan};
use crate::spanned_quote::location::{
    lemma_to_set_push, location_text, recorded, Location, LocationView,
};
use crate::spanned_quote::ops::{
    any_wants_lexed, applied, applied_one, closed, lemma_op_views_push, merged, op_views, opened,
    resolve, resolves_all, Op, OpView, QuoteState,
};
use crate::spanned_quote::template::{
    classify, smart_quote, template_views, var_views, Template, Var,
};
use crate::token::{
    call_site_span, collected, duplicate_tokens, is_fresh_leaf, lemma_views_of,
    lemma_views_of_concat, lemma_views_of_push, lex, rendered, stream_text, stream_trees, tokens_to_stream, trees_of,
    views_of, Delimiter, LexFailure, Token, TokenView,
};
use proc_macro2::{Span, TokenStream, TokenTree};
use vstd::prelude::*;
use vstd::string::StringExecFns;

verus! {

/// Buffer for building a token sequence piece by piece.
pub struct Quote {
    tts: Vec<Token>,
    /// The span policy. It is away only while a group is being built.
    span: Option<Respan>,
    /// The call sites that fed this buffer, each once, in the order in which
    /// they were first reported.
    sources: Vec<Location>,
}

/// `tokens`, each stamped with the span that `policy` hands out for it: the
/// token at position `i` gets the span of call number `i`.
pub open spec fn respanned_run(tokens: Seq<TokenView>, policy: Respan) -> Seq<TokenView> {
    Seq::new(tokens.len(), |i: int| tokens[i].with_span(policy.nth_span(i as nat)))
}

/// The note that lists the call sites, one to a line.
pub open spec fn notes_text(sources: Seq<LocationView>) -> Seq<char>
    decreases sources.len(),
{
    if sources.len() == 0 {
        "Note: quasi quotting was invoked from:\n"@
    } else {
        notes_text(sources.drop_last()) + "       "@ + location_text(sources.last()) + "\n"@
    }
}

/// What stands in for the code when the code is not to be shown.
pub open spec fn dump_hint() -> Seq<char> {
    "To get code failed to parse,\n please set environment variable `DBG_DUMP` and run in again"@
}

/// The diagnostic for tokens that did not parse: the call sites, what the
/// parser said, and `code` between its markers.
pub open spec fn failure_text(
    sources: Seq<LocationView>,
    error: Seq<char>,
    code: Seq<char>,
) -> Seq<char> {
    "Quote::parse() failed.\n                "@ + notes_text(sources) + "\nError from syn: "@
        + error + "\n    >>>>>\n        "@ + code + "\n    <<<<<"@
}

impl Quote {
    /// The tokens gathered so far.
    pub closed spec fn tokens(&self) -> Seq<TokenView> {
        views_of(self.tts@)
    }

    /// The span policy, if the buffer holds it.
    pub closed spec fn policy(&self) -> Option<Respan> {
        self.span
    }

    /// The recorded call sites in the order of their first report.
    pub closed spec fn sources(&self) -> Seq<LocationView> {
        self.sources@.map_values(|loc: Location| loc@)
    }

    /// The recorded call sites as a set.
    pub open spec fn locations(&self) -> Set<LocationView> {
        self.sources().to_set()
    }

    /// What the buffer holds, taken together. For a buffer without its policy
    /// the policy of the state is arbitrary.
    pub open spec fn state(&self) -> QuoteState {
        QuoteState { tokens: self.tokens(), policy: self.policy()->0, sources: self.sources() }
    }

    /// A buffer is well formed when it holds its span policy and has recorded
    /// no call site twice.
    pub open spec fn wf(&self) -> bool {
        &&& self.policy() is Some
        &&& self.sources().no_duplicates()
    }

    /// Whether the buffer is well formed. Every buffer that this library
    /// hands out is, but for the one that waits for a group it is building.
    pub fn is_well_formed(&self) -> (well: bool)
        ensures
            well == self.wf(),
    {
        if self.span.is_none() {
            return false;
        }
        let mut i: usize = 0;
        while i < self.sources.len()
            invariant
                i <= self.sources.len(),
                forall|a: int, b: int|
                    0 <= a < i && 0 <= b < self.sources.len() && a != b ==> self.sources()[a]
                        != self.sources()[b],
            decreases self.sources.len() - i,
        {
            let mut j: usize = 0;
            while j < self.sources.len()
                invariant
                    i < self.sources.len(),
                    j <= self.sources.len(),
                    forall|b: int| 0 <= b < j && b != i ==> self.sources()[i as int] != self.sources()[b],
                decreases self.sources.len() - j,
            {
                if j != i && self.sources[i].same(&self.sources[j]) {
                    assert(self.sources()[i as int] == self.sources()[j as int]);
                    return false;
                }
                j = j + 1;
            }
            i = i + 1;
        }
        true
    }

    /// An empty buffer that stamps its tokens as `span` says.
    pub fn new(span: Respan) -> (quote: Quote)
        ensures
            quote.wf(),
            quote.tokens() == Seq::<TokenView>::empty(),
            quote.policy() == Some(span),
            quote.sources() == Seq::<LocationView>::empty(),
    {
        let quote = Quote { tts: Vec::new(), span: Some(span), sources: Vec::new() };
        assert(quote.sources() =~= Seq::<LocationView>::empty());
        quote
    }

    /// An empty buffer that stamps every token with the span of the running
    /// macro invocation.
    pub fn new_call_site() -> (quote: Quote)
        ensures
            quote.wf(),
            quote.tokens() == Seq::<TokenView>::empty(),
            quote.policy() matches Some(Respan::Fixed(_)),
            quote.sources() == Seq::<LocationView>::empty(),
    {
        Quote::new(Respan::Fixed(call_site_span()))
    }

    /// An empty buffer whose first token gets the span of the first of
    /// `tokens` and whose later tokens get the span of the last. If `tokens`
    /// is empty, all get the span of the running macro invocation.
    pub fn from_tokens(tokens: &Vec<Token>) -> (quote: Quote)
        ensures
            quote.wf(),
            quote.tokens() == Seq::<TokenView>::empty(),
            quote.sources() == Seq::<LocationView>::empty(),
            exists|fallback: Span|
                quote.policy() == Some(
                    Respan::FirstThenLast(
                        #[trigger] FirstLast::spanning(views_of(tokens@), fallback),
                    ),
                ),
    {
        let fallback = call_site_span();
        Quote::new(Respan::FirstThenLast(FirstLast::from_tokens(tokens, fallback)))
    }

    /// As `from_tokens` where there are tokens to go by, with `default_span`
    /// where there are none to read a span from.
    pub fn from_tokens_or(tokens: &Option<Vec<Token>>, default_span: Span) -> (quote: Quote)
        ensures
            quote.wf(),
            quote.tokens() == Seq::<TokenView>::empty(),
            quote.sources() == Seq::<LocationView>::empty(),
            quote.policy() == Some(
                match *tokens {
                    Some(tokens) => Respan::FirstThenLast(
                        FirstLast::spanning(views_of(tokens@), default_span),
                    ),
                    None => Respan::Fixed(default_span),
                },
            ),
    {
        match tokens {
            Some(tokens) => Quote::new(
                Respan::FirstThenLast(FirstLast::from_tokens(tokens, default_span)),
            ),
            None => Quote::new(Respan::Fixed(default_span)),
        }
    }

    /// Records the call site `loc`. Reporting a call site again changes
    /// nothing.
    pub fn report_loc(&mut self, loc: Location)
        ensures
            final(self).sources() == recorded(old(self).sources(), loc@),
            final(self).locations() == old(self).locations().insert(loc@),
            old(self).sources().no_duplicates() ==> final(self).sources().no_duplicates(),
            final(self).tokens() == old(self).tokens(),
            final(self).policy() == old(self).policy(),
    {
        let mut i: usize = 0;
        while i < self.sources.len()
            invariant
                i <= self.sources.len(),
                *self == *old(self),
                forall|j: int| 0 <= j < i ==> self.sources()[j] != loc@,
            decreases self.sources.len() - i,
        {
            if self.sources[i].same(&loc) {
                assert(self.sources()[i as int] == loc@);
                assert(self.sources().to_set().insert(loc@) =~= self.sources().to_set());
                return ;
            }
            i = i + 1;
        }
        assert(!old(self).sources().contains(loc@));
        self.sources.push(loc);
        assert(self.sources() =~= old(self).sources().push(loc@));
        proof {
            lemma_to_set_push(old(self).sources(), loc@);
        }
    }

    /// The recorded call sites in the order of their first report.
    pub fn recorded_locations(&self) -> (locations: Vec<Location>)
        ensures
            locations@.map_values(|loc: Location| loc@) == self.sources(),
    {
        let mut locations: Vec<Location> = Vec::new();
        let mut i: usize = 0;
        while i < self.sources.len()
            invariant
                i <= self.sources.len(),
                locations@ == self.sources@.take(i as int),
            decreases self.sources.len() - i,
        {
            locations.push(self.sources[i]);
            assert(locations@ =~= self.sources@.take(i + 1));
            i = i + 1;
        }
        assert(self.sources@.take(self.sources.len() as int) =~= self.sources@);
        locations
    }

    /// Append `tt` to `self`, as it is.
    pub fn push_tt(&mut self, tt: Token)
        ensures
            final(self).tokens() == old(self).tokens().push(tt@),
            final(self).policy() == old(self).policy(),
            final(self).sources() == old(self).sources(),
    {
        proof {
            lemma_views_of_push(self.tts@, tt);
        }
        self.tts.push(tt);
    }

    /// The span for the next token; the policy moves on.
    pub fn next_span(&mut self) -> (span: Span)
        requires
            old(self).wf(),
        ensures
            final(self).wf(),
            span == old(self).policy()->0.upcoming(),
            final(self).policy() == Some(old(self).policy()->0.advanced()),
            final(self).tokens() == old(self).tokens(),
            final(self).sources() == old(self).sources(),
    {
        let mut policy = self.span.take().unwrap();
        let span = policy.next_span();
        self.span = Some(policy);
        span
    }

    /// Respan the symbol `sym` and append it to `self`.
    pub fn push_sym(&mut self, sym: TokenTree)
        requires
            old(self).wf(),
        ensures
            final(self).wf(),
            final(self).tokens() == old(self).tokens().push(
                TokenView::Leaf { tree: sym, span: old(self).policy()->0.upcoming() },
            ),
            final(self).policy() == Some(old(self).policy()->0.advanced()),
            final(self).sources() == old(self).sources(),
    {
        let span = self.next_span();
        self.push_tt(Token::Leaf { tree: sym, span });
    }

    /// Appends a copy of `node` to `self` **without respanning**: every token
    /// keeps the span it has.
    pub fn push_tokens(&mut self, node: &Vec<Token>)
        ensures
            final(self).tokens() == old(self).tokens() + views_of(node@),
            final(self).policy() == old(self).policy(),
            final(self).sources() == old(self).sources(),
    {
        let mut copy = duplicate_tokens(node);
        proof {
            lemma_views_of_concat(self.tts@, copy@);
        }
        self.tts.append(&mut copy);
    }

    /// Appends `tokens`, each stamped with the next span of the policy, one
    /// call of the policy per token, from left to right. What a group among
    /// them contains keeps its spans.
    pub fn push_respanned(&mut self, tokens: &Vec<Token>)
        requires
            old(self).wf(),
        ensures
            final(self).wf(),
            final(self).tokens() == old(self).tokens() + respanned_run(
                views_of(tokens@),
                old(self).policy()->0,
            ),
            final(self).policy() == Some(old(self).policy()->0.after(tokens@.len())),
            final(self).sources() == old(self).sources(),
    {
        let ghost start = old(self).policy()->0;
        let ghost given = views_of(tokens@);
        proof {
            lemma_views_of(tokens@);
        }
        let mut i: usize = 0;
        assert(self.tokens() =~= old(self).tokens() + respanned_run(given.take(0), start));
        while i < tokens.len()
            invariant
                i <= tokens.len(),
                self.wf(),
                given == views_of(tokens@),
                given.len() == tokens.len(),
                forall|j: int| 0 <= j < tokens.len() ==> given[j] == tokens@[j]@,
                self.tokens() == old(self).tokens() + respanned_run(given.take(i as int), start),
                self.policy() == Some(start.after(i as nat)),
                self.sources() == old(self).sources(),
            decreases tokens.len() - i,
        {
            let span = self.next_span();
            let token = tokens[i].duplicate().respanned(span);
            self.push_tt(token);
            assert(self.tokens() =~= old(self).tokens() + respanned_run(
                given.take(i + 1),
                start,
            ));
            i = i + 1;
        }
        assert(given.take(tokens.len() as int) =~= given);
    }

    /// Parse `token` and append it to `self`: the text is split into tokens,
    /// and each of them is stamped with the next span of the policy.
    ///
    /// Whether the text can be split is for the outside lexer to say. If it
    /// cannot, nothing changes and the failure names the text.
    pub fn push_parsed(&mut self, token: &str) -> (r: Result<(), LexFailure>)
        requires
            old(self).wf(),
        ensures
            final(self).wf(),
            final(self).sources() == old(self).sources(),
            r matches Err(failure) ==> {
                &&& failure.fragment@ == token@
                &&& final(self).tokens() == old(self).tokens()
                &&& final(self).policy() == old(self).policy()
            },
            r is Ok ==> exists|lexed: Seq<TokenView>|
                {
                    &&& forall|i: int| 0 <= i < lexed.len() ==> is_fresh_leaf(#[trigger] lexed[i])
                    &&& final(self).tokens() == old(self).tokens() + #[trigger] respanned_run(
                        lexed,
                        old(self).policy()->0,
                    )
                    &&& final(self).policy() == Some(old(self).policy()->0.after(lexed.len()))
                },
    {
        match lex(token) {
            Ok(tokens) => {
                proof {
                    lemma_views_of(tokens@);
                }
                let ghost lexed = views_of(tokens@);
                self.push_respanned(&tokens);
                assert(forall|i: int| 0 <= i < lexed.len() ==> is_fresh_leaf(#[trigger] lexed[i]));
                Ok(())
            },
            Err(failure) => Err(failure),
        }
    }

    /// Lets `quote` work on the buffer and returns the buffer as `quote` left
    /// it.
    pub fn quote_with<F: FnOnce(&mut Quote)>(self, quote: F) -> (built: Quote)
        requires
            forall|buffer: &mut Quote| *buffer == self ==> call_requires(quote, (buffer,)),
        ensures
            exists|buffer: &mut Quote|
                {
                    &&& *buffer == self
                    &&& #[trigger] call_ensures(quote, (buffer,), ())
                    &&& *final(buffer) == built
                },
    {
        let mut buffer = self;
        quote(&mut buffer);
        buffer
    }

    /// Whether `self` is the buffer that a group opened in `parent` starts
    /// from: empty, and holding the span policy of `parent`.
    pub open spec fn opens_in(&self, parent: Quote) -> bool {
        &&& self.wf()
        &&& self.tokens() == Seq::<TokenView>::empty()
        &&& self.policy() == parent.policy()
        &&& self.sources() == Seq::<LocationView>::empty()
    }

    /// Whether `self` is `parent` after a group was closed in it: `built` is
    /// what the group's contents were built to. The group is the one new
    /// token, its span is the one the policy of `parent` had next when the
    /// group was opened, the policy is back as `built` left it, and the call
    /// sites of both are recorded.
    pub open spec fn closes(&self, parent: Quote, delim: Delimiter, built: Quote) -> bool {
        &&& self.tokens() == parent.tokens().push(
            TokenView::Group {
                delimiter: delim,
                span: parent.policy()->0.upcoming(),
                tokens: built.tokens(),
            },
        )
        &&& self.policy() == built.policy()
        &&& self.sources() == merged(parent.sources(), built.sources())
        &&& self.locations() == parent.locations().union(built.locations())
    }

    /// Appends a group delimited by `delim` whose contents `child` builds.
    ///
    /// `child` gets an empty buffer that holds the span policy of `self`, and
    /// must leave it holding a policy. The policy then returns to `self` in
    /// the state in which `child` left it.
    pub fn push_group<F: FnOnce(&mut Quote)>(&mut self, delim: Delimiter, child: F)
        requires
            old(self).wf(),
            forall|sub: &mut Quote| sub.opens_in(*old(self)) ==> call_requires(child, (sub,)),
            forall|sub: &mut Quote|
                sub.opens_in(*old(self)) && call_ensures(child, (sub,), ()) ==> final(sub).wf(),
        ensures
            final(self).wf(),
            exists|sub: &mut Quote|
                {
                    &&& sub.opens_in(*old(self))
                    &&& #[trigger] call_ensures(child, (sub,), ())
                    &&& final(self).closes(*old(self), delim, *final(sub))
                },
    {
        let policy = self.span.take().unwrap();
        let span = policy.peek();
        let mut sub = Quote::new(policy);
        assert(sub.opens_in(*old(self)));
        child(&mut sub);
        self.close_group(delim, span, sub);
    }

    /// Folds a finished group back into `self`, which is waiting for it
    /// without its policy.
    fn close_group(&mut self, delim: Delimiter, span: Span, built: Quote)
        requires
            old(self).sources().no_duplicates(),
            built.wf(),
        ensures
            final(self).wf(),
            final(self).tokens() == old(self).tokens().push(
                TokenView::Group { delimiter: delim, span, tokens: built.tokens() },
            ),
            final(self).policy() == built.policy(),
            final(self).sources() == merged(old(self).sources(), built.sources()),
            final(self).locations() == old(self).locations().union(built.locations()),
    {
        let Quote { tts, span: policy, sources } = built;
        let mut i: usize = 0;
        assert(built.sources().take(0).to_set() =~= Set::<LocationView>::empty());
        assert(self.locations() =~= old(self).locations().union(Set::<LocationView>::empty()));
        while i < sources.len()
            invariant
                i <= sources.len(),
                sources == built.sources,
                self.sources().no_duplicates(),
                self.tokens() == old(self).tokens(),
                self.sources() == merged(old(self).sources(), built.sources().take(i as int)),
                self.locations() == old(self).locations().union(
                    built.sources().take(i as int).to_set(),
                ),
            decreases sources.len() - i,
        {
            let loc = sources[i];
            self.report_loc(loc);
            assert(built.sources().take(i + 1) =~= built.sources().take(i as int).push(loc@));
            assert(built.sources().take(i + 1).drop_last() =~= built.sources().take(i as int));
            assert(built.sources().take(i + 1).to_set() =~= built.sources().take(
                i as int,
            ).to_set().insert(loc@)) by {
                lemma_to_set_push(built.sources().take(i as int), loc@);
            }
            assert(self.locations() =~= old(self).locations().union(
                built.sources().take(i + 1).to_set(),
            ));
            i = i + 1;
        }
        assert(built.sources().take(sources.len() as int) =~= built.sources());
        self.span = policy;
        self.push_tt(Token::Group { delimiter: delim, span, tokens: tts });
    }

    /// The outside stream that stands for the gathered tokens.
    pub fn to_token_stream(&self) -> (stream: TokenStream)
        ensures
            stream_trees(stream) == collected(trees_of(self.tokens())),
    {
        tokens_to_stream(&self.tts)
    }

    /// Gives up the buffer for the outside stream that stands for its tokens.
    pub fn into_token_stream(self) -> (stream: TokenStream)
        ensures
            stream_trees(stream) == collected(trees_of(self.tokens())),
    {
        tokens_to_stream(&self.tts)
    }

    /// The note that lists every recorded call site as `file:line:col`, one
    /// to a line.
    pub fn notes(&self) -> (notes: String)
        ensures
            notes@ == notes_text(self.sources()),
    {
        let mut notes = String::from_str("Note: quasi quotting was invoked from:\n");
        let mut i: usize = 0;
        assert(self.sources().take(0) =~= Seq::<LocationView>::empty());
        while i < self.sources.len()
            invariant
                i <= self.sources.len(),
                notes@ == notes_text(self.sources().take(i as int)),
            decreases self.sources.len() - i,
        {
            let ghost before = notes@;
            notes.append("       ");
            self.sources[i].append_to(&mut notes);
            notes.append("\n");
            proof {
                let next = self.sources().take(i + 1);
                assert(next.drop_last() =~= self.sources().take(i as int));
                assert(next.last() == self.sources[i as int]@);
                assert(notes@ =~= before + "       "@ + location_text(next.last()) + "\n"@);
            }
            i = i + 1;
        }
        assert(self.sources().take(self.sources.len() as int) =~= self.sources());
        notes
    }

    /// The diagnostic for the case that the gathered tokens did not parse.
    ///
    /// It lists every recorded call site, gives `error`, which is what the
    /// parser said, and then, between markers, the gathered tokens written out
    /// as source text if `dump` is set, and else a hint at how to get them.
    pub fn parse_failure(&self, error: &str, dump: bool) -> (text: String)
        ensures
            text@ == failure_text(
                self.sources(),
                error@,
                if dump {
                    rendered(collected(trees_of(self.tokens())))
                } else {
                    dump_hint()
                },
            ),
    {
        let mut text = String::from_str("Quote::parse() failed.\n                ");
        let notes = self.notes();
        text.append(notes.as_str());
        text.append("\nError from syn: ");
        text.append(error);
        text.append("\n    >>>>>\n        ");
        if dump {
            let code = stream_text(&self.to_token_stream());
            text.append(code.as_str());
        } else {
            text.append(
                "To get code failed to parse,\n please set environment variable `DBG_DUMP` and run in again",
            );
        }
        text.append("\n    <<<<<");
        text
    }

    /// Makes the calls `ops` on `self`, one after another. A group is built
    /// in a buffer of its own, which holds the span policy while it is built
    /// and gives it back when the group closes.
    pub fn apply(&mut self, ops: &Vec<Op>)
        requires
            old(self).wf(),
        ensures
            final(self).wf(),
            final(self).state() == applied(old(self).state(), op_views(ops@)),
        decreases ops,
    {
        let mut i: usize = 0;
        assert(ops@.take(0) =~= Seq::<Op>::empty());
        while i < ops.len()
            invariant
                i <= ops.len(),
                self.wf(),
                self.state() == applied(old(self).state(), op_views(ops@.take(i as int))),
            decreases ops.len() - i,
        {
            let ghost before = self.state();
            match &ops[i] {
                Op::ReportLoc(loc) => {
                    self.report_loc(*loc);
                    assert(self.state() == applied_one(before, ops@[i as int]@));
                },
                Op::Respan(tokens) => {
                    self.push_respanned(tokens);
                    proof {
                        lemma_views_of(tokens@);
                    }
                    assert(self.state() == applied_one(before, ops@[i as int]@));
                },
                Op::Verbatim(tokens) => {
                    self.push_tokens(tokens);
                    assert(self.state() == applied_one(before, ops@[i as int]@));
                },
                Op::Group(delimiter, inner) => {
                    let policy = self.span.take().unwrap();
                    let span = policy.peek();
                    let mut sub = Quote::new(policy);
                    assert(sub.state() == opened(before));
                    sub.apply(inner);
                    self.close_group(*delimiter, span, sub);
                    assert(self.state() == closed(before, *delimiter, sub.state()));
                    assert(self.state() == applied_one(before, ops@[i as int]@));
                },
            }
            proof {
                let done = ops@.take(i as int);
                let next = ops@.take(i + 1);
                assert(next =~= done.push(ops@[i as int]));
                lemma_op_views_push(done, ops@[i as int]);
                assert(op_views(next).drop_last() =~= op_views(done));
            }
            i = i + 1;
        }
        assert(ops@.take(ops.len() as int) =~= ops@);
    }

    /// Expands `template` into `self`: classifies it with `vars` as its
    /// variables and `loc` as its call site, splits its texts into tokens, and
    /// makes the calls.
    ///
    /// Nothing is built by halves. If a text of the template cannot be split,
    /// `self` is left as it was and the failure names that text.
    pub fn quote_template(
        &mut self,
        vars: &Vec<Var>,
        template: &Vec<Template>,
        loc: Location,
    ) -> (r: Result<(), LexFailure>)
        requires
            old(self).wf(),
        ensures
            final(self).wf(),
            r matches Err(failure) ==> {
                &&& final(self).state() == old(self).state()
                &&& any_wants_lexed(
                    classify(var_views(vars@), loc@, template_views(template@)),
                    failure.fragment@,
                )
            },
            r is Ok ==> exists|ops: Seq<OpView>|
                {
                    &&& resolves_all(
                        classify(var_views(vars@), loc@, template_views(template@)),
                        ops,
                    )
                    &&& final(self).state() == #[trigger] applied(old(self).state(), ops)
                },
    {
        let steps = smart_quote(vars, template, loc);
        match resolve(&steps) {
            Ok(ops) => {
                self.apply(&ops);
                Ok(())
            },
            Err(failure) => Err(failure),
        }
    }

    /// Parse the gathered tokens with `parser`, which stands for the outside
    /// parser: it is handed the stream of the tokens and says what it makes of
    /// them, or why it can make nothing of them.
    ///
    /// What the parser makes is handed on. What it cannot parse comes back as
    /// the diagnostic of `parse_failure`, with the parser's own words in it.
    pub fn parse<Node, P: FnOnce(TokenStream) -> Result<Node, String>>(
        self,
        parser: P,
        dump: bool,
    ) -> (r: Result<Node, String>)
        requires
            forall|stream: TokenStream|
                stream_trees(stream) == collected(trees_of(self.tokens())) ==> call_requires(
                    parser,
                    (stream,),
                ),
        ensures
            r matches Ok(node) ==> exists|stream: TokenStream|
                {
                    &&& stream_trees(stream) == collected(trees_of(self.tokens()))
                    &&& #[trigger] call_ensures(parser, (stream,), Ok(node))
                },
            r matches Err(text) ==> exists|stream: TokenStream, error: String|
                {
                    &&& stream_trees(stream) == collected(trees_of(self.tokens()))
                    &&& #[trigger] call_ensures(parser, (stream,), Err(error))
                    &&& text@ == failure_text(
                        self.sources(),
                        error@,
                        if dump {
                            rendered(collected(trees_of(self.tokens())))
                        } else {
                            dump_hint()
                        },
                    )
                },
    {
        let stream = self.to_token_stream();
        match parser(stream) {
            Ok(node) => Ok(node),
            Err(error) => Err(self.parse_failure(error.as_str(), dump)),
        }
    }

    /// Appends a copy of the gathered tokens to `dst`.
    pub fn to_tokens(&self, dst: &mut Vec<Token>)
        ensures
            views_of(final(dst)@) == views_of(old(dst)@) + self.tokens(),
    {
        let mut copy = duplicate_tokens(&self.tts);
        proof {
            lemma_views_of_concat(dst@, copy@);
        }
        dst.append(&mut copy);
    }

    /// Gives up the buffer for the tokens it gathered.
    pub fn into_tokens(self) -> (tokens: Vec<Token>)
        ensures
            views_of(tokens@) == self.tokens(),
    {
        self.tts
    }
}

} // verus!
