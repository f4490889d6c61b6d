//! Templates: token skeletons with named holes, and their classification into
//! builder calls.

use crate::spanned_quote::location::{same_text, Location, LocationView};
use crate::token::{duplicate_tokens, views_of, Delimiter, Token, TokenView};
use vstd::prelude::*;
use vstd::string::StringExecFns;

verus! {

/// One token of a template.
pub enum Template {
    /// A single token, given as its source text.
    Word(String),
    /// A delimited run of template tokens.
    Group(Delimiter, Vec<Template>),
}

/// The value of a [`Template`] token.
pub enum TemplateView {
    Word(Seq<char>),
    Group(Delimiter, Seq<TemplateView>),
}

impl View for Template {
    type V = TemplateView;

    open spec fn view(&self) -> TemplateView
        decreases self,
    {
        match *self {
            Template::Word(text) => TemplateView::Word(text@),
            Template::Group(delimiter, inner) => TemplateView::Group(
                delimiter,
                template_views(inner@),
            ),
        }
    }
}

/// The values of a run of template tokens, one by one.
pub open spec fn template_views(run: Seq<Template>) -> Seq<TemplateView>
    decreases run,
{
    if run.len() == 0 {
        Seq::empty()
    } else {
        template_views(run.drop_last()).push(run.last()@)
    }
}

/// A variable of a template: a name, and the tokens that stand in for it.
pub struct Var {
    pub name: String,
    pub value: Vec<Token>,
}

/// The value of a [`Var`].
pub struct VarView {
    pub name: Seq<char>,
    pub value: Seq<TokenView>,
}

impl View for Var {
    type V = VarView;

    open spec fn view(&self) -> VarView {
        VarView { name: self.name@, value: views_of(self.value@) }
    }
}

/// The values of the variables, in the order of their declaration.
pub open spec fn var_views(vars: Seq<Var>) -> Seq<VarView> {
    vars.map_values(|var: Var| var@)
}

/// One call on a builder.
pub enum Step {
    /// Record the call site.
    ReportLoc(Location),
    /// Split the text into tokens and append them, respanned.
    PushParsed(String),
    /// Append the tokens as they are.
    PushTokens(Vec<Token>),
    /// Append a group whose contents the inner calls build.
    PushGroup(Delimiter, Vec<Step>),
}

/// The value of a [`Step`].
pub enum StepView {
    ReportLoc(LocationView),
    PushParsed(Seq<char>),
    PushTokens(Seq<TokenView>),
    PushGroup(Delimiter, Seq<StepView>),
}

impl View for Step {
    type V = StepView;

    open spec fn view(&self) -> StepView
        decreases self,
    {
        match *self {
            Step::ReportLoc(loc) => StepView::ReportLoc(loc@),
            Step::PushParsed(text) => StepView::PushParsed(text@),
            Step::PushTokens(tokens) => StepView::PushTokens(views_of(tokens@)),
            Step::PushGroup(delimiter, inner) => StepView::PushGroup(delimiter, step_views(inner@)),
        }
    }
}

/// The values of a run of steps, one by one.
pub open spec fn step_views(run: Seq<Step>) -> Seq<StepView>
    decreases run,
{
    if run.len() == 0 {
        Seq::empty()
    } else {
        step_views(run.drop_last()).push(run.last()@)
    }
}

/// Appending one step appends its value.
pub proof fn lemma_step_views_push(run: Seq<Step>, step: Step)
    ensures
        step_views(run.push(step)) == step_views(run).push(step@),
{
    assert(run.push(step).drop_last() =~= run);
}

/// Appending one template token appends its value.
pub proof fn lemma_template_views_push(run: Seq<Template>, token: Template)
    ensures
        template_views(run.push(token)) == template_views(run).push(token@),
{
    assert(run.push(token).drop_last() =~= run);
}

/// The variable that `text` refers to: the last one declared under that name.
/// A name declared again rebinds.
pub open spec fn binding(vars: Seq<VarView>, text: Seq<char>) -> Option<int>
    decreases vars.len(),
{
    if vars.len() == 0 {
        None
    } else if vars.last().name == text {
        Some(vars.len() - 1)
    } else {
        binding(vars.drop_last(), text)
    }
}

/// The call that one template token stands for. A group becomes a group whose
/// contents are classified in turn, a word that names a variable becomes the
/// verbatim value of that variable, and any other word becomes its text, to
/// be split into tokens when the call is made.
pub open spec fn classify_one(vars: Seq<VarView>, loc: LocationView, token: TemplateView) -> StepView
    decreases token,
{
    match token {
        TemplateView::Word(text) => match binding(vars, text) {
            Some(index) => StepView::PushTokens(vars[index].value),
            None => StepView::PushParsed(text),
        },
        TemplateView::Group(delimiter, inner) => StepView::PushGroup(
            delimiter,
            seq![StepView::ReportLoc(loc)] + classify_run(vars, loc, inner),
        ),
    }
}

/// The calls that a run of template tokens stands for, in order.
pub open spec fn classify_run(
    vars: Seq<VarView>,
    loc: LocationView,
    run: Seq<TemplateView>,
) -> Seq<StepView>
    decreases run,
{
    if run.len() == 0 {
        Seq::empty()
    } else {
        classify_run(vars, loc, run.drop_last()).push(classify_one(vars, loc, run.last()))
    }
}

/// The calls that a template stands for: first the report of the call site,
/// then the calls for its tokens.
pub open spec fn classify(
    vars: Seq<VarView>,
    loc: LocationView,
    run: Seq<TemplateView>,
) -> Seq<StepView> {
    seq![StepView::ReportLoc(loc)] + classify_run(vars, loc, run)
}

/// Looks `text` up among the variables.
pub fn find_binding(vars: &Vec<Var>, text: &str) -> (found: Option<usize>)
    ensures
        found matches Some(index) ==> binding(var_views(vars@), text@) == Some(index as int)
            && index < vars@.len(),
        found is None ==> binding(var_views(vars@), text@) is None,
{
    let mut i: usize = vars.len();
    assert(var_views(vars@).take(vars@.len() as int) =~= var_views(vars@));
    while i > 0
        invariant
            i <= vars.len(),
            binding(var_views(vars@), text@) == binding(var_views(vars@).take(i as int), text@),
        decreases i,
    {
        let ghost declared = var_views(vars@).take(i as int);
        assert(declared.last() == vars@[i - 1]@);
        assert(declared.drop_last() =~= var_views(vars@).take(i - 1));
        if same_text(vars[i - 1].name.as_str(), text) {
            return Some(i - 1);
        }
        i = i - 1;
    }
    None
}

/// The builder call that one template token stands for.
pub fn classify_token(vars: &Vec<Var>, token: &Template, loc: Location) -> (step: Step)
    ensures
        step@ == classify_one(var_views(vars@), loc@, token@),
    decreases token,
{
    match token {
        Template::Word(text) => match find_binding(vars, text.as_str()) {
            Some(index) => Step::PushTokens(duplicate_tokens(&vars[index].value)),
            None => Step::PushParsed(String::from_str(text.as_str())),
        },
        Template::Group(delimiter, inner) => Step::PushGroup(
            *delimiter,
            smart_quote(vars, inner, loc),
        ),
    }
}

/// The builder calls that `template` stands for, with `vars` as its variables
/// and `loc` as the call site to record.
pub fn smart_quote(vars: &Vec<Var>, template: &Vec<Template>, loc: Location) -> (steps: Vec<Step>)
    ensures
        step_views(steps@) == classify(var_views(vars@), loc@, template_views(template@)),
    decreases template,
{
    let mut steps: Vec<Step> = Vec::new();
    let ghost declared = var_views(vars@);
    proof {
        lemma_step_views_push(steps@, Step::ReportLoc(loc));
        assert(template@.take(0) =~= Seq::<Template>::empty());
        assert(Seq::<StepView>::empty().push(StepView::ReportLoc(loc@)) =~= seq![
            StepView::ReportLoc(loc@),
        ] + Seq::<StepView>::empty());
    }
    steps.push(Step::ReportLoc(loc));
    let mut i: usize = 0;
    while i < template.len()
        invariant
            i <= template.len(),
            declared == var_views(vars@),
            step_views(steps@) == classify(
                declared,
                loc@,
                template_views(template@.take(i as int)),
            ),
        decreases template.len() - i,
    {
        let step = classify_token(vars, &template[i], loc);
        proof {
            let before = template@.take(i as int);
            let next = template@.take(i + 1);
            assert(next =~= before.push(template@[i as int]));
            lemma_template_views_push(before, template@[i as int]);
            lemma_step_views_push(steps@, step);
            let done = classify_run(declared, loc@, template_views(before));
            assert(template_views(next).drop_last() =~= template_views(before));
            assert((seq![StepView::ReportLoc(loc@)] + done).push(step@) =~= seq![
                StepView::ReportLoc(loc@),
            ] + done.push(step@));
        }
        steps.push(step);
        i = i + 1;
    }
    assert(template@.take(template.len() as int) =~= template@);
    steps
}

} // verus!
