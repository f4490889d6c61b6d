//! Builder calls whose texts have been split into tokens, and what making
//! them does to a builder.

use crate::respan::{lemma_after_add, Respan};
use crate::spanned_quote::buffer::respanned_run;
use crate::spanned_quote::location::{lemma_to_set_push, recorded, Location, LocationView};
use crate::spanned_quote::template::{lemma_step_views_push, step_views, Step, StepView};
use crate::token::{
    duplicate_tokens, is_fresh_leaf, lemma_views_of, lex, views_of, Delimiter, LexFailure, Token,
    TokenView,
};
use vstd::prelude::*;

verus! {

/// One call on a builder, ready to be made: it holds the tokens it appends.
pub enum Op {
    /// Record the call site.
    ReportLoc(Location),
    /// Append the tokens, each stamped with the next span of the policy.
    Respan(Vec<Token>),
    /// Append the tokens as they are.
    Verbatim(Vec<Token>),
    /// Append a group whose contents the inner calls build.
    Group(Delimiter, Vec<Op>),
}

/// The value of an [`Op`].
pub enum OpView {
    ReportLoc(LocationView),
    Respan(Seq<TokenView>),
    Verbatim(Seq<TokenView>),
    Group(Delimiter, Seq<OpView>),
}

impl View for Op {
    type V = OpView;

    open spec fn view(&self) -> OpView
        decreases self,
    {
        match *self {
            Op::ReportLoc(loc) => OpView::ReportLoc(loc@),
            Op::Respan(tokens) => OpView::Respan(views_of(tokens@)),
            Op::Verbatim(tokens) => OpView::Verbatim(views_of(tokens@)),
            Op::Group(delimiter, inner) => OpView::Group(delimiter, op_views(inner@)),
        }
    }
}

/// The values of a run of calls, one by one.
pub open spec fn op_views(run: Seq<Op>) -> Seq<OpView>
    decreases run,
{
    if run.len() == 0 {
        Seq::empty()
    } else {
        op_views(run.drop_last()).push(run.last()@)
    }
}

/// Appending one call appends its value.
pub proof fn lemma_op_views_push(run: Seq<Op>, op: Op)
    ensures
        op_views(run.push(op)) == op_views(run).push(op@),
{
    assert(run.push(op).drop_last() =~= run);
}

/// What a builder holds: its tokens, its span policy and its call sites.
pub struct QuoteState {
    pub tokens: Seq<TokenView>,
    pub policy: Respan,
    pub sources: Seq<LocationView>,
}

/// The call sites `sources` with those of `more` recorded one after another.
pub open spec fn merged(sources: Seq<LocationView>, more: Seq<LocationView>) -> Seq<LocationView>
    decreases more.len(),
{
    if more.len() == 0 {
        sources
    } else {
        recorded(merged(sources, more.drop_last()), more.last())
    }
}

/// The state in which a group opened in `state` starts: nothing gathered,
/// nothing recorded, and the policy of `state`.
pub open spec fn opened(state: QuoteState) -> QuoteState {
    QuoteState { tokens: Seq::empty(), policy: state.policy, sources: Seq::empty() }
}

/// The state after a group, opened in `state` and built to `built`, is
/// closed: the group is the one new token, with the span that the policy of
/// `state` had next when the group was opened; the policy is as `built` left
/// it; the call sites of `built` are recorded.
pub open spec fn closed(state: QuoteState, delimiter: Delimiter, built: QuoteState) -> QuoteState {
    QuoteState {
        tokens: state.tokens.push(
            TokenView::Group { delimiter, span: state.policy.upcoming(), tokens: built.tokens },
        ),
        policy: built.policy,
        sources: merged(state.sources, built.sources),
    }
}

/// The state after one call is made in `state`.
pub open spec fn applied_one(state: QuoteState, op: OpView) -> QuoteState
    decreases op,
{
    match op {
        OpView::ReportLoc(loc) => QuoteState { sources: recorded(state.sources, loc), ..state },
        OpView::Respan(tokens) => QuoteState {
            tokens: state.tokens + respanned_run(tokens, state.policy),
            policy: state.policy.after(tokens.len()),
            ..state
        },
        OpView::Verbatim(tokens) => QuoteState { tokens: state.tokens + tokens, ..state },
        OpView::Group(delimiter, inner) => closed(state, delimiter, applied(opened(state), inner)),
    }
}

/// The state after the calls are made in `state`, one after another.
pub open spec fn applied(state: QuoteState, ops: Seq<OpView>) -> QuoteState
    decreases ops,
{
    if ops.len() == 0 {
        state
    } else {
        applied_one(applied(state, ops.drop_last()), ops.last())
    }
}

/// Whether `op` is the call `step` made ready: the same call, with tokens as
/// the lexer made them in place of a text.
pub open spec fn resolves(step: StepView, op: OpView) -> bool
    decreases step,
{
    match step {
        StepView::ReportLoc(loc) => op == OpView::ReportLoc(loc),
        StepView::PushParsed(_) => op matches OpView::Respan(tokens) && forall|i: int|
            0 <= i < tokens.len() ==> is_fresh_leaf(#[trigger] tokens[i]),
        StepView::PushTokens(tokens) => op == OpView::Verbatim(tokens),
        StepView::PushGroup(delimiter, inner) => op matches OpView::Group(d, ops) && d == delimiter
            && resolves_all(inner, ops),
    }
}

/// Whether `ops` are the calls `steps` made ready, one for one.
pub open spec fn resolves_all(steps: Seq<StepView>, ops: Seq<OpView>) -> bool
    decreases steps,
{
    if steps.len() == 0 {
        ops.len() == 0
    } else {
        ops.len() > 0 && resolves_all(steps.drop_last(), ops.drop_last()) && resolves(
            steps.last(),
            ops.last(),
        )
    }
}

/// Whether `text` is one of the texts that `step` wants split into tokens.
pub open spec fn wants_lexed(step: StepView, text: Seq<char>) -> bool
    decreases step,
{
    match step {
        StepView::PushParsed(wanted) => wanted == text,
        StepView::PushGroup(_, inner) => any_wants_lexed(inner, text),
        _ => false,
    }
}

/// Whether `text` is one of the texts that `steps` want split into tokens.
pub open spec fn any_wants_lexed(steps: Seq<StepView>, text: Seq<char>) -> bool
    decreases steps,
{
    if steps.len() == 0 {
        false
    } else {
        any_wants_lexed(steps.drop_last(), text) || wants_lexed(steps.last(), text)
    }
}

/// Makes one call ready.
pub fn resolve_one(step: &Step) -> (r: Result<Op, LexFailure>)
    ensures
        r matches Ok(op) ==> resolves(step@, op@),
        r matches Err(failure) ==> wants_lexed(step@, failure.fragment@),
    decreases step,
{
    match step {
        Step::ReportLoc(loc) => Ok(Op::ReportLoc(*loc)),
        Step::PushParsed(text) => match lex(text.as_str()) {
            Ok(tokens) => {
                proof {
                    lemma_views_of(tokens@);
                }
                Ok(Op::Respan(tokens))
            },
            Err(failure) => Err(failure),
        },
        Step::PushTokens(tokens) => Ok(Op::Verbatim(duplicate_tokens(tokens))),
        Step::PushGroup(delimiter, inner) => match resolve(inner) {
            Ok(ops) => Ok(Op::Group(*delimiter, ops)),
            Err(failure) => Err(failure),
        },
    }
}

/// Makes the calls ready: every text among them is split into tokens.
///
/// Whether a text can be split is for the outside lexer to say. If all can,
/// the result holds the same calls, one for one, with tokens in place of
/// texts. If one cannot, the failure names a text that the calls hold; calls
/// that hold no text always succeed.
pub fn resolve(steps: &Vec<Step>) -> (r: Result<Vec<Op>, LexFailure>)
    ensures
        r matches Ok(ops) ==> resolves_all(step_views(steps@), op_views(ops@)),
        r matches Err(failure) ==> any_wants_lexed(step_views(steps@), failure.fragment@),
        (forall|text: Seq<char>| !any_wants_lexed(step_views(steps@), text)) ==> r is Ok,
    decreases steps,
{
    let mut ops: Vec<Op> = Vec::new();
    let mut i: usize = 0;
    assert(steps@.take(0) =~= Seq::<Step>::empty());
    while i < steps.len()
        invariant
            i <= steps.len(),
            resolves_all(step_views(steps@.take(i as int)), op_views(ops@)),
            forall|text: Seq<char>|
                any_wants_lexed(step_views(steps@.take(i as int)), text) ==> any_wants_lexed(
                    step_views(steps@),
                    text,
                ),
        decreases steps.len() - i,
    {
        proof {
            lemma_wanted_prefix(steps@, i as int);
        }
        match resolve_one(&steps[i]) {
            Ok(op) => {
                proof {
                    let before = steps@.take(i as int);
                    let next = steps@.take(i + 1);
                    assert(next =~= before.push(steps@[i as int]));
                    lemma_step_views_push(before, steps@[i as int]);
                    lemma_op_views_push(ops@, op);
                    assert(step_views(next).drop_last() =~= step_views(before));
                    assert(op_views(ops@.push(op)).drop_last() =~= op_views(ops@));
                }
                ops.push(op);
            },
            Err(failure) => {
                return Err(failure);
            },
        }
        i = i + 1;
    }
    assert(steps@.take(steps.len() as int) =~= steps@);
    Ok(ops)
}

/// A text wanted by the first `n + 1` steps is wanted by all of them, and so
/// is one wanted by step `n`.
proof fn lemma_wanted_prefix(steps: Seq<Step>, n: int)
    requires
        0 <= n < steps.len(),
        forall|text: Seq<char>|
            any_wants_lexed(step_views(steps.take(n)), text) ==> any_wants_lexed(
                step_views(steps),
                text,
            ),
    ensures
        forall|text: Seq<char>|
            any_wants_lexed(step_views(steps.take(n + 1)), text) ==> any_wants_lexed(
                step_views(steps),
                text,
            ),
        forall|text: Seq<char>|
            wants_lexed(steps[n]@, text) ==> any_wants_lexed(step_views(steps), text),
{
    assert forall|text: Seq<char>| wants_lexed(steps[n]@, text) implies any_wants_lexed(
        step_views(steps),
        text,
    ) by {
        lemma_wanted_at(steps, n, text);
    }
    assert forall|text: Seq<char>|
        any_wants_lexed(step_views(steps.take(n + 1)), text) implies any_wants_lexed(
        step_views(steps),
        text,
    ) by {
        let before = steps.take(n);
        let next = steps.take(n + 1);
        assert(next =~= before.push(steps[n]));
        lemma_step_views_push(before, steps[n]);
        assert(step_views(next).drop_last() =~= step_views(before));
    }
}

/// A text wanted by one step of a run is wanted by the run.
proof fn lemma_wanted_at(steps: Seq<Step>, n: int, text: Seq<char>)
    requires
        0 <= n < steps.len(),
        wants_lexed(steps[n]@, text),
    ensures
        any_wants_lexed(step_views(steps), text),
    decreases steps.len(),
{
    let views = step_views(steps);
    assert(views == step_views(steps.drop_last()).push(steps.last()@));
    assert(views.drop_last() =~= step_views(steps.drop_last()));
    assert(views.last() == steps.last()@);
    if n < steps.len() - 1 {
        lemma_wanted_at(steps.drop_last(), n, text);
    }
}

/// How many tokens a call has the policy stamp, groups looked into.
pub open spec fn stamps(op: OpView) -> nat
    decreases op,
{
    match op {
        OpView::Respan(tokens) => tokens.len(),
        OpView::Group(_, inner) => stamps_all(inner),
        _ => 0,
    }
}

/// How many tokens a run of calls has the policy stamp, groups looked into.
pub open spec fn stamps_all(ops: Seq<OpView>) -> nat
    decreases ops,
{
    if ops.len() == 0 {
        0
    } else {
        stamps_all(ops.drop_last()) + stamps(ops.last())
    }
}

/// Recording a call site a second time changes nothing: the call sites
/// stay the same, and so does their number.
pub proof fn lemma_report_twice(state: QuoteState, loc: LocationView)
    ensures
        recorded(recorded(state.sources, loc), loc) == recorded(state.sources, loc),
        applied_one(applied_one(state, OpView::ReportLoc(loc)), OpView::ReportLoc(loc))
            == applied_one(state, OpView::ReportLoc(loc)),
        applied_one(
            applied_one(state, OpView::ReportLoc(loc)),
            OpView::ReportLoc(loc),
        ).sources.to_set().len() == applied_one(
            state,
            OpView::ReportLoc(loc),
        ).sources.to_set().len(),
{
    if !state.sources.contains(loc) {
        assert(state.sources.push(loc)[state.sources.len() as int] == loc);
    }
}

/// Recording keeps call sites apart: where none was there twice, none is.
pub proof fn lemma_recorded_no_duplicates(sources: Seq<LocationView>, loc: LocationView)
    requires
        sources.no_duplicates(),
    ensures
        recorded(sources, loc).no_duplicates(),
        recorded(sources, loc).to_set() == sources.to_set().insert(loc),
{
    if sources.contains(loc) {
        assert(sources.to_set().insert(loc) =~= sources.to_set());
    } else {
        lemma_to_set_push(sources, loc);
    }
}

/// When a group closes, the call sites recorded afterwards are those recorded
/// before the group was opened together with those recorded while it was
/// built, and none of them twice.
pub proof fn lemma_merged(sources: Seq<LocationView>, more: Seq<LocationView>)
    requires
        sources.no_duplicates(),
    ensures
        merged(sources, more).to_set() == sources.to_set().union(more.to_set()),
        merged(sources, more).no_duplicates(),
    decreases more.len(),
{
    if more.len() == 0 {
        assert(more.to_set() =~= Set::<LocationView>::empty());
        assert(sources.to_set().union(more.to_set()) =~= sources.to_set());
    } else {
        lemma_merged(sources, more.drop_last());
        lemma_recorded_no_duplicates(merged(sources, more.drop_last()), more.last());
        lemma_to_set_push(more.drop_last(), more.last());
        assert(more.drop_last().push(more.last()) =~= more);
        assert(merged(sources, more).to_set() =~= sources.to_set().union(more.to_set()));
    }
}

/// Tokens appended verbatim are in the sequence exactly as they were handed
/// in, spans included, and the policy is not touched; tokens appended through
/// the policy are the same tokens carrying the spans the policy handed out,
/// one call per token, from left to right.
pub proof fn lemma_verbatim_and_respanned(state: QuoteState, tokens: Seq<TokenView>, i: int)
    requires
        0 <= i < tokens.len(),
    ensures
        applied_one(state, OpView::Verbatim(tokens)).tokens[state.tokens.len() + i] == tokens[i],
        applied_one(state, OpView::Verbatim(tokens)).policy == state.policy,
        applied_one(state, OpView::Respan(tokens)).tokens[state.tokens.len() + i]
            == tokens[i].with_span(state.policy.nth_span(i as nat)),
        applied_one(state, OpView::Respan(tokens)).tokens[state.tokens.len() + i].span_of()
            == state.policy.nth_span(i as nat),
        applied_one(state, OpView::Respan(tokens)).policy == state.policy.after(tokens.len()),
{
}

/// Whatever a call does, the policy afterwards is the policy before, moved on
/// once for each token that the call stamped. What a group does to the policy
/// while it is built is there when the group has closed.
pub proof fn lemma_policy_after_one(state: QuoteState, op: OpView)
    ensures
        applied_one(state, op).policy == state.policy.after(stamps(op)),
    decreases op,
{
    match op {
        OpView::Group(_, inner) => {
            lemma_policy_after(opened(state), inner);
        },
        _ => {},
    }
}

/// Whatever a run of calls does, the policy afterwards is the policy before,
/// moved on once for each token that the calls stamped, inside groups or not.
pub proof fn lemma_policy_after(state: QuoteState, ops: Seq<OpView>)
    ensures
        applied(state, ops).policy == state.policy.after(stamps_all(ops)),
    decreases ops,
{
    if ops.len() > 0 {
        lemma_policy_after(state, ops.drop_last());
        lemma_policy_after_one(applied(state, ops.drop_last()), ops.last());
        lemma_after_add(state.policy, stamps_all(ops.drop_last()), stamps(ops.last()));
    }
}

} // verus!
