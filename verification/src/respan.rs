//! Span policies: which span the next generated token is stamped with.

use crate::token::{lemma_views_of, views_of, Token, TokenView};
use proc_macro2::Span;
use vstd::prelude::*;

verus! {

/// Yields one span once and another span ever after.
///
/// Made from an existing run of tokens, it lets generated code start where
/// that run started and continue where it ended.
pub struct FirstLast {
    /// The span for the next call, while it has not been handed out.
    pub first: Option<Span>,
    /// The span for every call after that.
    pub last: Span,
}

impl FirstLast {
    /// The span that the next call of `next_span` returns.
    pub open spec fn upcoming(self) -> Span {
        match self.first {
            Some(first) => first,
            None => self.last,
        }
    }

    /// The policy after one call of `next_span`.
    pub open spec fn advanced(self) -> FirstLast {
        FirstLast { first: None, last: self.last }
    }

    /// The policy that spans `tokens`: first the span of the first token, then
    /// that of the last one. For an empty sequence both are `default_span`.
    pub open spec fn spanning(tokens: Seq<TokenView>, default_span: Span) -> FirstLast {
        if tokens.len() == 0 {
            FirstLast { first: Some(default_span), last: default_span }
        } else {
            FirstLast { first: Some(tokens.first().span_of()), last: tokens.last().span_of() }
        }
    }

    /// Hands out the first span if it is still there, and the last span
    /// otherwise; the first span is gone afterwards.
    pub fn next_span(&mut self) -> (span: Span)
        ensures
            span == old(self).upcoming(),
            *final(self) == old(self).advanced(),
    {
        match self.first.take() {
            Some(first) => first,
            None => self.last,
        }
    }

    /// Reads the first and the last span off `tokens`, top level only.
    pub fn from_tokens(tokens: &Vec<Token>, default_span: Span) -> (policy: FirstLast)
        ensures
            policy == FirstLast::spanning(views_of(tokens@), default_span),
    {
        proof {
            lemma_views_of(tokens@);
        }
        let n = tokens.len();
        if n == 0 {
            FirstLast { first: Some(default_span), last: default_span }
        } else {
            FirstLast { first: Some(tokens[0].span()), last: tokens[n - 1].span() }
        }
    }
}

/// The span policy of a builder.
pub enum Respan {
    /// The same span for every token.
    Fixed(Span),
    /// One span for the first token and another for all later ones.
    FirstThenLast(FirstLast),
    /// A policy behind an owning pointer; it behaves as the policy inside.
    Boxed(Box<Respan>),
}

impl Respan {
    /// The span that the next call of `next_span` returns.
    pub open spec fn upcoming(self) -> Span
        decreases self,
    {
        match self {
            Respan::Fixed(span) => span,
            Respan::FirstThenLast(inner) => inner.upcoming(),
            Respan::Boxed(inner) => inner.upcoming(),
        }
    }

    /// The policy after one call of `next_span`.
    pub open spec fn advanced(self) -> Respan
        decreases self,
    {
        match self {
            Respan::Fixed(span) => Respan::Fixed(span),
            Respan::FirstThenLast(inner) => Respan::FirstThenLast(inner.advanced()),
            Respan::Boxed(inner) => Respan::Boxed(Box::new(inner.advanced())),
        }
    }

    /// The policy after `n` calls of `next_span`.
    pub open spec fn after(self, n: nat) -> Respan
        decreases n,
    {
        if n == 0 {
            self
        } else {
            self.after((n - 1) as nat).advanced()
        }
    }

    /// The span that call number `n` of `next_span` returns, counting from 0.
    pub open spec fn nth_span(self, n: nat) -> Span {
        self.after(n).upcoming()
    }

    /// The span for the next token. Calling it moves the policy on.
    pub fn next_span(&mut self) -> (span: Span)
        ensures
            span == old(self).upcoming(),
            *final(self) == old(self).advanced(),
        decreases *old(self),
    {
        match self {
            Respan::Fixed(span) => *span,
            Respan::FirstThenLast(inner) => inner.next_span(),
            Respan::Boxed(inner) => inner.next_span(),
        }
    }

    /// The span that `next_span` would hand out, without moving the policy on.
    pub fn peek(&self) -> (span: Span)
        ensures
            span == self.upcoming(),
        decreases self,
    {
        match self {
            Respan::Fixed(span) => *span,
            Respan::FirstThenLast(inner) => match inner.first {
                Some(first) => first,
                None => inner.last,
            },
            Respan::Boxed(inner) => inner.peek(),
        }
    }

    /// Stamps `tt` with the next span.
    pub fn respan(&mut self, tt: Token) -> (token: Token)
        ensures
            token@ == tt@.with_span(old(self).upcoming()),
            *final(self) == old(self).advanced(),
    {
        let span = self.next_span();
        tt.respanned(span)
    }
}

/// Moving a policy on by `a` calls and then by `b` calls moves it on by
/// `a + b` calls.
pub proof fn lemma_after_add(policy: Respan, a: nat, b: nat)
    ensures
        policy.after(a).after(b) == policy.after(a + b),
    decreases b,
{
    if b > 0 {
        lemma_after_add(policy, a, (b - 1) as nat);
    }
}

/// A fixed policy hands out its one span on every call.
pub proof fn lemma_fixed(span: Span, n: nat)
    ensures
        Respan::Fixed(span).after(n) == Respan::Fixed(span),
        Respan::Fixed(span).nth_span(n) == span,
    decreases n,
{
    if n > 0 {
        lemma_fixed(span, (n - 1) as nat);
    }
}

/// A first-then-last policy has handed out its first span after the first
/// call, whatever it started with.
pub proof fn lemma_first_is_spent(policy: FirstLast, n: nat)
    requires
        n > 0,
    ensures
        Respan::FirstThenLast(policy).after(n) == Respan::FirstThenLast(policy.advanced()),
    decreases n,
{
    let start = Respan::FirstThenLast(policy);
    assert(start.after(n) == start.after((n - 1) as nat).advanced());
    if n > 1 {
        lemma_first_is_spent(policy, (n - 1) as nat);
    } else {
        assert(start.after(0) == start);
    }
}

/// A policy read off a run of tokens hands out the span of the first token on
/// the first call and the span of the last token on every later call. So,
/// where the two spans differ, the first span is handed out exactly once.
pub proof fn lemma_first_then_last(tokens: Seq<TokenView>, default_span: Span, n: nat)
    requires
        tokens.len() > 0,
    ensures
        Respan::FirstThenLast(FirstLast::spanning(tokens, default_span)).nth_span(n) == (if n == 0 {
            tokens.first().span_of()
        } else {
            tokens.last().span_of()
        }),
        tokens.first().span_of() != tokens.last().span_of() ==> (Respan::FirstThenLast(
            FirstLast::spanning(tokens, default_span),
        ).nth_span(n) == tokens.first().span_of() <==> n == 0),
{
    if n > 0 {
        lemma_first_is_spent(FirstLast::spanning(tokens, default_span), n);
    }
}

/// A policy read off a single token hands out the span of that token on every
/// call: first and last are the same span.
pub proof fn lemma_single_token(token: TokenView, default_span: Span, n: nat)
    ensures
        Respan::FirstThenLast(FirstLast::spanning(seq![token], default_span)).nth_span(n)
            == token.span_of(),
{
    lemma_first_then_last(seq![token], default_span, n);
}

/// A policy read off no tokens at all hands out the default span on every
/// call.
pub proof fn lemma_no_tokens(default_span: Span, n: nat)
    ensures
        Respan::FirstThenLast(
            FirstLast::spanning(Seq::<TokenView>::empty(), default_span),
        ).nth_span(n) == default_span,
{
    if n > 0 {
        lemma_first_is_spent(FirstLast::spanning(Seq::<TokenView>::empty(), default_span), n);
    }
}

/// A boxed policy hands out what the policy inside hands out.
pub proof fn lemma_boxed(inner: Respan, n: nat)
    ensures
        Respan::Boxed(Box::new(inner)).after(n) == Respan::Boxed(Box::new(inner.after(n))),
        Respan::Boxed(Box::new(inner)).nth_span(n) == inner.nth_span(n),
    decreases n,
{
    if n > 0 {
        lemma_boxed(inner, (n - 1) as nat);
    }
}

} // verus!
