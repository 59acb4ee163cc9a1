//! Syntax definitions as the parser interprets them: contexts, their patterns
//! and the sets of syntaxes they live in.

use crate::regex::Expression;
use crate::scope::{ClearAmount, Scope};
use crate::views;
use vstd::prelude::*;

verus! {

/// Identifies a context by the index of its syntax in the set and its own index
/// in that syntax.
#[derive(Clone, Copy, Debug, PartialEq, Eq, Hash, Structural)]
pub struct ContextId {
    pub syntax_index: usize,
    pub context_index: usize,
}

/// How a pattern names a context. Only `Direct` references can be followed;
/// the others are what a syntax file holds before it is linked.
#[derive(Debug, PartialEq, Eq)]
pub enum ContextReference {
    Named(String),
    ByScope { scope: Scope, sub_context: Option<String> },
    File { name: String, sub_context: Option<String> },
    Inline(String),
    Direct(ContextId),
}

/// The model of a [`ContextReference`].
pub enum ReferenceV {
    Named(Seq<char>),
    ByScope { scope: Scope, sub_context: Option<Seq<char>> },
    File { name: Seq<char>, sub_context: Option<Seq<char>> },
    Inline(Seq<char>),
    Direct(ContextId),
}

impl View for ContextReference {
    type V = ReferenceV;

    open spec fn view(&self) -> ReferenceV {
        match *self {
            ContextReference::Named(name) => ReferenceV::Named(name@),
            ContextReference::ByScope { scope, sub_context } => ReferenceV::ByScope {
                scope,
                sub_context: views::opt(sub_context),
            },
            ContextReference::File { name, sub_context } => ReferenceV::File {
                name: name@,
                sub_context: views::opt(sub_context),
            },
            ContextReference::Inline(name) => ReferenceV::Inline(name@),
            ContextReference::Direct(id) => ReferenceV::Direct(id),
        }
    }
}

impl Clone for ContextReference {
    fn clone(&self) -> (r: Self)
        ensures
            r@ == self@,
    {
        match self {
            ContextReference::Named(name) => ContextReference::Named(name.clone()),
            ContextReference::ByScope { scope, sub_context } => ContextReference::ByScope {
                scope: *scope,
                sub_context: clone_opt_string(sub_context),
            },
            ContextReference::File { name, sub_context } => ContextReference::File {
                name: name.clone(),
                sub_context: clone_opt_string(sub_context),
            },
            ContextReference::Inline(name) => ContextReference::Inline(name.clone()),
            ContextReference::Direct(id) => ContextReference::Direct(*id),
        }
    }
}

fn clone_opt_string(s: &Option<String>) -> (r: Option<String>)
    ensures
        r == *s,
{
    match s {
        Some(t) => Some(t.clone()),
        None => None,
    }
}

/// Errors that can occur while parsing.
#[derive(Debug)]
#[non_exhaustive]
pub enum ParsingError {
    /// The main context was popped from the stack.
    MissingMainContext,
    /// A context is missing, usually because a syntax refers to one that is not
    /// in the set.
    MissingContext(ContextId),
    /// There is no match pattern at this index.
    BadMatchIndex(usize),
    /// A reference was followed that has not been linked.
    UnresolvedContextReference(ContextReference),
}

/// The model of a [`ParsingError`].
pub enum ErrorV {
    MissingMainContext,
    MissingContext(ContextId),
    BadMatchIndex(usize),
    UnresolvedContextReference(ReferenceV),
}

impl View for ParsingError {
    type V = ErrorV;

    open spec fn view(&self) -> ErrorV {
        match *self {
            ParsingError::MissingMainContext => ErrorV::MissingMainContext,
            ParsingError::MissingContext(id) => ErrorV::MissingContext(id),
            ParsingError::BadMatchIndex(index) => ErrorV::BadMatchIndex(index),
            ParsingError::UnresolvedContextReference(r) => ErrorV::UnresolvedContextReference(r@),
        }
    }
}

/// The id that a reference stands for.
pub open spec fn reference_id(r: ReferenceV) -> Result<ContextId, ErrorV> {
    match r {
        ReferenceV::Direct(id) => Ok(id),
        _ => Err(ErrorV::UnresolvedContextReference(r)),
    }
}

impl ContextReference {
    /// The context that a linked reference stands for. An error comes exactly
    /// for a reference that is not `Direct`, and holds it.
    pub fn id(&self) -> (r: Result<ContextId, ParsingError>)
        ensures
            match r {
                Ok(id) => reference_id(self@) == Ok::<ContextId, ErrorV>(id),
                Err(e) => reference_id(self@) == Err::<ContextId, ErrorV>(e@),
            },
    {
        match self {
            ContextReference::Direct(id) => Ok(*id),
            _ => Err(ParsingError::UnresolvedContextReference(self.clone())),
        }
    }
}

/// Which scopes the groups of a match get.
pub type CaptureMapping = Vec<(usize, Vec<Scope>)>;

/// How an `embed` ends.
#[derive(Debug)]
pub struct EmbedEscape {
    pub escape_regex: Expression,
    /// Whether the expression refers back to groups of the match that embeds.
    pub has_captures: bool,
    pub escape_captures: Option<CaptureMapping>,
}

/// What a match does to the stack of contexts.
#[derive(Debug)]
pub enum MatchOperation {
    Push { ctx_refs: Vec<ContextReference>, pop_count: usize },
    SetTo { ctx_refs: Vec<ContextReference>, pop_count: usize },
    Pop(usize),
    Branch { name: String, alternatives: Vec<ContextReference>, pop_count: usize },
    Fail(String),
    Embed { contexts: Vec<ContextReference>, escape: EmbedEscape, pop_count: usize },
    Nothing,
}

/// A match rule of a context.
#[derive(Debug)]
pub struct MatchPattern {
    /// Whether the expression refers back to groups of the match that pushed
    /// the context.
    pub has_captures: bool,
    pub regex: Expression,
    pub scope: Vec<Scope>,
    pub captures: Option<CaptureMapping>,
    pub operation: MatchOperation,
    pub with_prototype: Option<ContextReference>,
}

impl MatchPattern {
    /// A rule. Only a rule that does something else than match may match empty.
    pub fn new(
        has_captures: bool,
        regex_str: String,
        scope: Vec<Scope>,
        captures: Option<CaptureMapping>,
        operation: MatchOperation,
        with_prototype: Option<ContextReference>,
    ) -> (r: MatchPattern)
        ensures
            r.has_captures == has_captures,
            r.regex@.pattern == regex_str@,
            r.regex@.allow_empty == !(operation is Nothing),
            r.scope == scope,
            r.captures == captures,
            r.operation == operation,
            r.with_prototype == with_prototype,
    {
        let allow_empty = match &operation {
            MatchOperation::Nothing => false,
            _ => true,
        };
        let regex = Expression::new(regex_str, allow_empty);
        MatchPattern { has_captures, regex, scope, captures, operation, with_prototype }
    }
}

/// An entry of a context: a rule, or the rules of another context.
#[derive(Debug)]
pub enum Pattern {
    Match(MatchPattern),
    Include(ContextReference),
}

/// A context of a syntax.
#[derive(Debug)]
pub struct Context {
    pub meta_scope: Vec<Scope>,
    pub meta_content_scope: Vec<Scope>,
    pub clear_scopes: Option<ClearAmount>,
    /// The context whose rules come before this one's, if any.
    pub prototype: Option<ContextId>,
    /// Whether a rule of this context refers back to the match that pushed it.
    pub uses_backrefs: bool,
    pub patterns: Vec<Pattern>,
    /// Whether the scope of the syntax embedded above this context is replaced
    /// by this context's own content scope.
    pub embed_scope_replaces: bool,
}

/// A linked syntax.
#[derive(Debug)]
pub struct SyntaxReference {
    pub name: String,
    pub scope: Scope,
    pub version: u32,
    /// The context in which a file of this syntax starts.
    pub start: ContextId,
    pub contexts: Vec<Context>,
}

/// A set of linked syntaxes.
#[derive(Debug)]
pub struct SyntaxSet {
    syntaxes: Vec<SyntaxReference>,
}

impl View for SyntaxSet {
    type V = Seq<SyntaxReference>;

    closed spec fn view(&self) -> Seq<SyntaxReference> {
        self.syntaxes@
    }
}

/// The context with the given id.
pub open spec fn context_of(ss: Seq<SyntaxReference>, id: ContextId) -> Result<Context, ErrorV> {
    if id.syntax_index < ss.len() && id.context_index < ss[id.syntax_index as int].contexts@.len() {
        Ok(ss[id.syntax_index as int].contexts@[id.context_index as int])
    } else {
        Err(ErrorV::MissingContext(id))
    }
}

/// The context that a reference stands for.
pub open spec fn resolved(ss: Seq<SyntaxReference>, r: ReferenceV) -> Result<Context, ErrorV> {
    match reference_id(r) {
        Ok(id) => context_of(ss, id),
        Err(e) => Err(e),
    }
}

/// The rule at the given index of a context.
pub open spec fn rule_at(context: Context, index: usize) -> Result<MatchPattern, ErrorV> {
    if index < context.patterns@.len() {
        match context.patterns@[index as int] {
            Pattern::Match(pattern) => Ok(pattern),
            Pattern::Include(_) => Err(ErrorV::BadMatchIndex(index)),
        }
    } else {
        Err(ErrorV::BadMatchIndex(index))
    }
}

impl Context {
    /// The rule at `index`; an error exactly where there is none.
    pub fn match_at(&self, index: usize) -> (r: Result<&MatchPattern, ParsingError>)
        ensures
            match r {
                Ok(pattern) => rule_at(*self, index) == Ok::<MatchPattern, ErrorV>(*pattern),
                Err(e) => rule_at(*self, index) == Err::<MatchPattern, ErrorV>(e@),
            },
    {
        if index < self.patterns.len() {
            match &self.patterns[index] {
                Pattern::Match(pattern) => Ok(pattern),
                Pattern::Include(_) => Err(ParsingError::BadMatchIndex(index)),
            }
        } else {
            Err(ParsingError::BadMatchIndex(index))
        }
    }
}

/// A rule, by its context and its index there.
pub type RuleId = (ContextId, usize);

/// How many steps a bounded computation may take: `None` is no bound. `fuel`
/// is the same number in the model.
pub open spec fn covers(limit: Option<u64>, fuel: nat) -> bool {
    limit matches Some(n) ==> n == fuel
}

/// The number of entries of a context; 0 if it is missing.
pub open spec fn entry_count(ss: Seq<SyntaxReference>, id: ContextId) -> nat {
    match context_of(ss, id) {
        Ok(context) => context.patterns@.len(),
        Err(_) => 0,
    }
}

/// `acc`, then the rules of the entries `i..` of a context, those of included
/// contexts in place of their `Include`. Includes that are not linked are
/// skipped. `None` where includes nest deeper than `fuel`, as they do for every
/// `fuel` in a context that includes itself.
pub open spec fn rules_onto(
    fuel: nat,
    ss: Seq<SyntaxReference>,
    id: ContextId,
    i: nat,
    acc: Seq<RuleId>,
) -> Option<Result<Seq<RuleId>, ErrorV>>
    decreases fuel, entry_count(ss, id) - i,
{
    match context_of(ss, id) {
        Err(e) => Some(Err(e)),
        Ok(context) => if i >= context.patterns@.len() {
            Some(Ok(acc))
        } else {
            match context.patterns@[i as int] {
                Pattern::Match(_) => rules_onto(fuel, ss, id, i + 1, acc.push((id, i as usize))),
                Pattern::Include(r) => match r@ {
                    ReferenceV::Direct(inner) => if fuel == 0 {
                        None
                    } else {
                        match rules_onto((fuel - 1) as nat, ss, inner, 0, acc) {
                            Some(Ok(rules)) => rules_onto(fuel, ss, id, i + 1, rules),
                            other => other,
                        }
                    },
                    _ => rules_onto(fuel, ss, id, i + 1, acc),
                },
            }
        },
    }
}

impl SyntaxSet {
    /// The set of the given syntaxes.
    pub fn new(syntaxes: Vec<SyntaxReference>) -> (r: SyntaxSet)
        ensures
            r@ == syntaxes@,
    {
        SyntaxSet { syntaxes }
    }

    /// The syntaxes of the set.
    pub fn syntaxes(&self) -> (r: &[SyntaxReference])
        ensures
            r@ == self@,
    {
        self.syntaxes.as_slice()
    }

    /// The context with the given id; an error exactly where there is none.
    pub fn get_context(&self, id: &ContextId) -> (r: Result<&Context, ParsingError>)
        ensures
            match r {
                Ok(context) => context_of(self@, *id) == Ok::<Context, ErrorV>(*context),
                Err(e) => context_of(self@, *id) == Err::<Context, ErrorV>(e@),
            },
    {
        if id.syntax_index < self.syntaxes.len() {
            let syntax = &self.syntaxes[id.syntax_index];
            if id.context_index < syntax.contexts.len() {
                return Ok(&syntax.contexts[id.context_index]);
            }
        }
        Err(ParsingError::MissingContext(*id))
    }

    /// Appends the rules of a context, in the order in which they are tried.
    /// `None` where includes nest deeper than `limit`.
    pub(crate) fn rules_of(
        &self,
        id: ContextId,
        limit: Option<u64>,
        Ghost(fuel): Ghost<nat>,
        acc: &mut Vec<RuleId>,
    ) -> (r: Option<Result<(), ParsingError>>)
        requires
            covers(limit, fuel),
            limit is None ==> rules_onto(fuel, self@, id, 0, old(acc)@) is Some,
        ensures
            match r {
                None => rules_onto(fuel, self@, id, 0, old(acc)@) is None,
                Some(Ok(_)) => rules_onto(fuel, self@, id, 0, old(acc)@) == Some(
                    Ok::<Seq<RuleId>, ErrorV>(final(acc)@),
                ),
                Some(Err(e)) => rules_onto(fuel, self@, id, 0, old(acc)@) == Some(
                    Err::<Seq<RuleId>, ErrorV>(e@),
                ),
            },
        decreases fuel,
    {
        let context = match self.get_context(&id) {
            Ok(context) => context,
            Err(e) => {
                return Some(Err(e));
            },
        };
        let mut i: usize = 0;
        while i < context.patterns.len()
            invariant
                i <= context.patterns@.len(),
                context_of(self@, id) == Ok::<Context, ErrorV>(*context),
                covers(limit, fuel),
                rules_onto(fuel, self@, id, i as nat, acc@) == rules_onto(
                    fuel,
                    self@,
                    id,
                    0,
                    old(acc)@,
                ),
                limit is None ==> rules_onto(fuel, self@, id, 0, old(acc)@) is Some,
            decreases context.patterns@.len() - i,
        {
            match &context.patterns[i] {
                Pattern::Match(_) => {
                    acc.push((id, i));
                },
                Pattern::Include(r) => match r {
                    ContextReference::Direct(inner) => {
                        let inner_limit = match limit {
                            Some(n) => {
                                if n == 0 {
                                    return None;
                                }
                                Some(n - 1)
                            },
                            None => None,
                        };
                        let inner_result = self.rules_of(
                            *inner,
                            inner_limit,
                            Ghost((fuel - 1) as nat),
                            acc,
                        );
                        match inner_result {
                            Some(Ok(_)) => {},
                            other => {
                                return other;
                            },
                        }
                    },
                    _ => {},
                },
            }
            i += 1;
        }
        Some(Ok(()))
    }
}

/// A context is found exactly where its syntax has it.
pub proof fn law_contexts_are_found(ss: Seq<SyntaxReference>, id: ContextId)
    ensures
        match context_of(ss, id) {
            Ok(context) => (id.syntax_index as int) < ss.len() && (id.context_index as int)
                < ss[id.syntax_index as int].contexts@.len()
                && ss[id.syntax_index as int].contexts@[id.context_index as int] == context,
            Err(e) => e == ErrorV::MissingContext(id) && (id.syntax_index >= ss.len()
                || id.context_index >= ss[id.syntax_index as int].contexts@.len()),
        },
        context_of(ss, id) is Ok ==> resolved(ss, ReferenceV::Direct(id)) == context_of(ss, id),
{
}

/// A rule is found exactly where the context has one, and not an inclusion.
pub proof fn law_rules_are_found(context: Context, index: usize)
    ensures
        match rule_at(context, index) {
            Ok(pattern) => (index as int) < context.patterns@.len() && context.patterns@[index as int]
                == Pattern::Match(pattern),
            Err(e) => e == ErrorV::BadMatchIndex(index) && (index >= context.patterns@.len()
                || context.patterns@[index as int] is Include),
        },
{
}

} // verus!
