//! The interpreter state of the parser, and its model.

use crate::regex::{Expression, ExpressionV, Region};
use crate::scope::{Op, Scope, ScopeStack, StackV};
use crate::syntax::{CaptureMapping, ContextId, ContextReference, ReferenceV};
use crate::views;
use std::collections::HashMap;
use vstd::prelude::*;
use vstd::string::*;

verus! {

broadcast use crate::views::group_views;

/// The spans of the groups of a match.
pub type RegionV = Seq<Option<(usize, usize)>>;

/// The model of a [`StateLevel`].
#[verifier::ext_equal]
pub struct LevelV {
    pub context: ContextId,
    pub prototypes: Seq<ContextId>,
    pub captures: Option<(RegionV, Seq<char>)>,
}

/// A frame of the stack of contexts.
#[derive(Debug, PartialEq, Eq)]
pub(crate) struct StateLevel {
    pub(crate) context: ContextId,
    /// Contexts whose rules come first while this frame is on the stack.
    pub(crate) prototypes: Vec<ContextId>,
    /// The match that pushed the frame, where a rule refers back to it.
    pub(crate) captures: Option<(Region, String)>,
}

impl View for StateLevel {
    type V = LevelV;

    open(crate) spec fn view(&self) -> LevelV {
        LevelV {
            context: self.context,
            prototypes: self.prototypes@,
            captures: views::opt(self.captures),
        }
    }
}

/// The model of an [`EscapeEntry`].
#[verifier::ext_equal]
pub struct EscapeV {
    pub regex: ExpressionV,
    pub captures: Option<Seq<(usize, Seq<Scope>)>>,
    pub stack_depth: usize,
}

/// The pattern that ends an `embed`.
#[derive(Debug, PartialEq, Eq)]
pub(crate) struct EscapeEntry {
    /// The expression, its back-references substituted.
    pub(crate) regex: Expression,
    pub(crate) captures: Option<CaptureMapping>,
    /// The depth of the stack before the embed pushed its contexts.
    pub(crate) stack_depth: usize,
}

/// The model of an optional capture mapping.
pub open spec fn mapping_view(m: Option<CaptureMapping>) -> Option<Seq<(usize, Seq<Scope>)>> {
    match m {
        Some(m) => Some(views::of(m@)),
        None => None,
    }
}

impl View for EscapeEntry {
    type V = EscapeV;

    open(crate) spec fn view(&self) -> EscapeV {
        EscapeV {
            regex: self.regex@,
            captures: mapping_view(self.captures),
            stack_depth: self.stack_depth,
        }
    }
}

/// A record of a push that consumed nothing: its position, the depth of the
/// stack before it and after it.
pub type PushMark = (usize, usize, usize);

/// The model of a [`BranchPoint`].
#[verifier::ext_equal]
pub struct BranchV {
    pub name: Seq<char>,
    pub next_alternative: usize,
    pub alternatives: Seq<ReferenceV>,
    pub stack_snapshot: Seq<LevelV>,
    pub proto_starts_snapshot: Seq<usize>,
    pub match_start: usize,
    pub trigger_match_start: usize,
    pub pat_scope: Seq<Scope>,
    pub line_number: usize,
    pub ops_snapshot_len: usize,
    pub stack_depth: usize,
    pub non_consuming_push_at_snapshot: PushMark,
    pub first_line_snapshot: bool,
    pub with_prototype: Option<ReferenceV>,
    pub pending_lines_snapshot_len: usize,
    pub escape_stack_snapshot: Seq<EscapeV>,
    pub pop_count: usize,
    pub prefix_ops: Seq<Op>,
    pub capture_ops: Seq<Op>,
}

/// Everything needed to go back to a `branch_point` and take another
/// alternative.
#[derive(Debug, PartialEq, Eq)]
pub(crate) struct BranchPoint {
    pub(crate) name: String,
    /// The alternative that the next `fail` takes.
    pub(crate) next_alternative: usize,
    pub(crate) alternatives: Vec<ContextReference>,
    pub(crate) stack_snapshot: Vec<StateLevel>,
    pub(crate) proto_starts_snapshot: Vec<usize>,
    /// Where parsing resumes: the end of the branch match.
    pub(crate) match_start: usize,
    /// Where the branch match starts.
    pub(crate) trigger_match_start: usize,
    /// The scopes of the branch match.
    pub(crate) pat_scope: Vec<Scope>,
    /// The line of the branch match.
    pub(crate) line_number: usize,
    /// How many operations of the line came before the branch match.
    pub(crate) ops_snapshot_len: usize,
    /// The depth of the stack before the branch match.
    pub(crate) stack_depth: usize,
    pub(crate) non_consuming_push_at_snapshot: PushMark,
    pub(crate) first_line_snapshot: bool,
    pub(crate) with_prototype: Option<ContextReference>,
    /// How many lines were buffered at the branch match.
    pub(crate) pending_lines_snapshot_len: usize,
    pub(crate) escape_stack_snapshot: Vec<EscapeEntry>,
    /// How many frames the branch pops before it pushes an alternative.
    pub(crate) pop_count: usize,
    /// The operations of the line before the branch match.
    pub(crate) prefix_ops: Vec<Op>,
    /// The operations of the branch match's captures.
    pub(crate) capture_ops: Vec<Op>,
}

impl View for BranchPoint {
    type V = BranchV;

    open(crate) spec fn view(&self) -> BranchV {
        BranchV {
            name: self.name@,
            next_alternative: self.next_alternative,
            alternatives: views::of(self.alternatives@),
            stack_snapshot: views::of(self.stack_snapshot@),
            proto_starts_snapshot: self.proto_starts_snapshot@,
            match_start: self.match_start,
            trigger_match_start: self.trigger_match_start,
            pat_scope: self.pat_scope@,
            line_number: self.line_number,
            ops_snapshot_len: self.ops_snapshot_len,
            stack_depth: self.stack_depth,
            non_consuming_push_at_snapshot: self.non_consuming_push_at_snapshot,
            first_line_snapshot: self.first_line_snapshot,
            with_prototype: views::opt(self.with_prototype),
            pending_lines_snapshot_len: self.pending_lines_snapshot_len,
            escape_stack_snapshot: views::of(self.escape_stack_snapshot@),
            pop_count: self.pop_count,
            prefix_ops: self.prefix_ops@,
            capture_ops: self.capture_ops@,
        }
    }
}

/// Whether the frame of the alternative is still on a stack of depth
/// `stack_len`: the stack is deeper than before the branch, less what the branch
/// itself popped.
pub open spec fn alive(bp: BranchV, stack_len: int) -> bool {
    stack_len > bp.stack_depth - bp.pop_count && stack_len > 0
}

/// The model of a [`BpInfo`].
pub struct BpInfoV {
    pub name: Seq<char>,
    pub stack_depth: usize,
    pub line_number: usize,
    pub inner_producer: Option<Box<BpInfoV>>,
}

/// Which branch point's replay produced a corrected line.
#[derive(Debug, PartialEq, Eq)]
pub(crate) struct BpInfo {
    pub(crate) name: String,
    pub(crate) stack_depth: usize,
    pub(crate) line_number: usize,
    /// The branch point nested in the replay that wrote the line, if the line
    /// was taken over from it.
    pub(crate) inner_producer: Option<Box<BpInfo>>,
}

pub(crate) open(crate) spec fn bp_info_view(bp: BpInfo) -> BpInfoV
    decreases bp,
{
    BpInfoV {
        name: bp.name@,
        stack_depth: bp.stack_depth,
        line_number: bp.line_number,
        inner_producer: match bp.inner_producer {
            Some(inner) => Some(Box::new(bp_info_view(*inner))),
            None => None,
        },
    }
}

impl View for BpInfo {
    type V = BpInfoV;

    open(crate) spec fn view(&self) -> BpInfoV {
        bp_info_view(*self)
    }
}

/// The model of a [`MaxDepthSeen`].
pub struct MaxDepthV {
    pub depth: usize,
    pub bp: Option<BpInfoV>,
}

/// The deepest branch point created during a replay.
#[derive(Debug, PartialEq, Eq)]
pub(crate) struct MaxDepthSeen {
    pub(crate) depth: usize,
    pub(crate) bp: Option<BpInfo>,
}

impl View for MaxDepthSeen {
    type V = MaxDepthV;

    open(crate) spec fn view(&self) -> MaxDepthV {
        MaxDepthV { depth: self.depth, bp: views::opt(self.bp) }
    }
}

/// The line that a replay stands on, in place of the current line.
#[derive(Clone, Copy, Debug, PartialEq, Eq, Structural)]
pub struct ReplayCtx {
    pub line_number: usize,
    /// The index of that line among the buffered lines.
    pub pending_lines_snapshot_offset: usize,
}

/// The model of a [`ParseWarning`].
pub enum WarningV {
    BranchPointExpired { name: Seq<char> },
    SpeculationBudgetExhausted { name: Seq<char> },
}

/// A problem that does not stop the parse. The result is still usable; a
/// `branch_point` was resolved by force rather than by its syntax's own `fail`,
/// so some scopes may not be what the syntax intends.
#[derive(Debug, PartialEq, Eq)]
#[non_exhaustive]
pub enum ParseWarning {
    /// A `branch_point` stayed unresolved for more than 128 lines and keeps its
    /// current alternative; a later `fail` naming it is ignored.
    BranchPointExpired {
        /// The name of the `branch_point`.
        name: String,
    },
    /// A single call exceeded its backtracking budget and committed the current
    /// parse instead of exploring further alternatives. This parser has no such
    /// budget and never reports it; the variant is for engines that do.
    SpeculationBudgetExhausted {
        /// The `branch_point` whose `fail` would have exceeded the budget.
        name: String,
    },
}

impl View for ParseWarning {
    type V = WarningV;

    open spec fn view(&self) -> WarningV {
        match *self {
            ParseWarning::BranchPointExpired { name } => WarningV::BranchPointExpired { name: name@ },
            ParseWarning::SpeculationBudgetExhausted { name } => WarningV::SpeculationBudgetExhausted {
                name: name@,
            },
        }
    }
}

/// The text of a warning.
pub open spec fn warning_text(w: WarningV) -> Seq<char> {
    match w {
        WarningV::BranchPointExpired { name } => "branch point '"@ + name
            + "' expired (exceeded 128-line rewind limit)"@,
        WarningV::SpeculationBudgetExhausted { name } => "speculation budget exhausted at branch point '"@
            + name + "'; committing current parse"@,
    }
}

impl ParseWarning {
    /// The warning as a text for people.
    pub fn message(&self) -> (r: String)
        ensures
            r@ == warning_text(self@),
    {
        match self {
            ParseWarning::BranchPointExpired { name } => {
                let mut r: String = "branch point '".to_owned();
                r.append(name.as_str());
                r.append("' expired (exceeded 128-line rewind limit)");
                r
            },
            ParseWarning::SpeculationBudgetExhausted { name } => {
                let mut r: String = "speculation budget exhausted at branch point '".to_owned();
                r.append(name.as_str());
                r.append("'; committing current parse");
                r
            },
        }
    }
}

/// The model of a parser state.
#[verifier::ext_equal]
pub struct StateV {
    /// The stack of contexts, bottom first.
    pub stack: Seq<LevelV>,
    /// Whether no line has been parsed yet.
    pub first_line: bool,
    /// Depths at which the `with_prototype`s below stop to apply.
    pub proto_starts: Seq<usize>,
    /// How many lines have been parsed.
    pub line_number: usize,
    /// The patterns that end the open embeds, outermost first.
    pub escape_stack: Seq<EscapeV>,
    /// The unresolved branch points, oldest first.
    pub branch_points: Seq<BranchV>,
    /// The lines that may still be revised.
    pub pending_lines: Seq<Seq<char>>,
    /// The consumer's scope stack before each of these lines.
    pub pending_line_start_shadows: Seq<StackV>,
    /// The operations last returned for each of these lines.
    pub pending_line_ops: Seq<Seq<Op>>,
    /// The corrected operations of the latest pending lines.
    pub flushed_ops: Seq<Seq<Op>>,
    /// The pending line that the first of them corrects.
    pub flushed_ops_start: Option<usize>,
    /// The branch point whose replay wrote each of them.
    pub flushed_ops_bp_per_slot: Seq<BpInfoV>,
    /// Warnings not yet handed out.
    pub warnings: Seq<WarningV>,
    /// The consumer's scope stack.
    pub shadow: StackV,
    /// The line that a replay stands on, while there is one.
    pub replay_ctx: Option<ReplayCtx>,
    /// The operations that the replay already has for its first line.
    pub replay_prefix_ops: Option<Seq<Op>>,
    /// Branch points that are exhausted at a position of the line.
    pub skipped_branches: Seq<(usize, Seq<char>)>,
    /// The deepest branch point of the running replay, while there is one.
    pub inner_replay_max_depth: Option<MaxDepthV>,
    /// How often an empty escape match ended an embed at a position of the line.
    pub zero_width_escape_fires: Map<usize, u32>,
}

/// Keeps the current parser state (the stack of contexts and what is needed to
/// revise recent lines) between lines.
#[derive(Debug, PartialEq, Eq)]
pub struct ParseState {
    pub(crate) stack: Vec<StateLevel>,
    pub(crate) first_line: bool,
    pub(crate) proto_starts: Vec<usize>,
    pub(crate) line_number: usize,
    pub(crate) escape_stack: Vec<EscapeEntry>,
    pub(crate) branch_points: Vec<BranchPoint>,
    pub(crate) pending_lines: Vec<String>,
    pub(crate) pending_line_start_shadows: Vec<ScopeStack>,
    pub(crate) pending_line_ops: Vec<Vec<Op>>,
    pub(crate) flushed_ops: Vec<Vec<Op>>,
    pub(crate) flushed_ops_start: Option<usize>,
    pub(crate) flushed_ops_bp_per_slot: Vec<BpInfo>,
    pub(crate) warnings: Vec<ParseWarning>,
    pub(crate) shadow: ScopeStack,
    pub(crate) replay_ctx: Option<ReplayCtx>,
    pub(crate) replay_prefix_ops: Option<Vec<Op>>,
    pub(crate) skipped_branches: Vec<(usize, String)>,
    pub(crate) inner_replay_max_depth: Option<MaxDepthSeen>,
    pub(crate) zero_width_escape_fires: HashMap<usize, u32>,
}

impl View for ParseState {
    type V = StateV;

    open(crate) spec fn view(&self) -> StateV {
        StateV {
            stack: views::of(self.stack@),
            first_line: self.first_line,
            proto_starts: self.proto_starts@,
            line_number: self.line_number,
            escape_stack: views::of(self.escape_stack@),
            branch_points: views::of(self.branch_points@),
            pending_lines: views::of(self.pending_lines@),
            pending_line_start_shadows: views::of(self.pending_line_start_shadows@),
            pending_line_ops: views::of(self.pending_line_ops@),
            flushed_ops: views::of(self.flushed_ops@),
            flushed_ops_start: self.flushed_ops_start,
            flushed_ops_bp_per_slot: views::of(self.flushed_ops_bp_per_slot@),
            warnings: views::of(self.warnings@),
            shadow: self.shadow@,
            replay_ctx: self.replay_ctx,
            replay_prefix_ops: views::opt(self.replay_prefix_ops),
            skipped_branches: views::of(self.skipped_branches@),
            inner_replay_max_depth: views::opt(self.inner_replay_max_depth),
            zero_width_escape_fires: self.zero_width_escape_fires@,
        }
    }
}

/// A copy of a list of operations.
pub(crate) fn clone_ops(ops: &Vec<Op>) -> (r: Vec<Op>)
    ensures
        r@ == ops@,
{
    let mut r: Vec<Op> = Vec::with_capacity(ops.len());
    for i in 0..ops.len()
        invariant
            r@ == ops@.subrange(0, i as int),
    {
        r.push(ops[i]);
        assert(r@ =~= ops@.subrange(0, i + 1));
    }
    assert(r@ =~= ops@);
    r
}

/// A copy of the operations of several lines.
pub(crate) fn clone_lines(lines: &Vec<Vec<Op>>) -> (r: Vec<Vec<Op>>)
    ensures
        views::of(r@) == views::of(lines@),
{
    let mut r: Vec<Vec<Op>> = Vec::with_capacity(lines.len());
    for i in 0..lines.len()
        invariant
            r@.len() == i,
            forall|k: int| 0 <= k < i ==> #[trigger] r@[k]@ == lines@[k]@,
    {
        r.push(clone_ops(&lines[i]));
    }
    assert(views::of(r@) =~= views::of(lines@));
    r
}

/// A copy of a capture mapping.
pub(crate) fn clone_mapping(m: &Option<CaptureMapping>) -> (r: Option<CaptureMapping>)
    ensures
        mapping_view(r) == mapping_view(*m),
{
    match m {
        None => None,
        Some(m) => {
            let mut r: CaptureMapping = Vec::with_capacity(m.len());
            for i in 0..m.len()
                invariant
                    r@.len() == i,
                    forall|k: int| 0 <= k < i ==> #[trigger] r@[k]@ == m@[k]@,
            {
                let scopes = m[i].1.clone();
                assert(scopes@ =~= m@[i as int].1@);
                r.push((m[i].0, scopes));
            }
            assert(views::of(r@) =~= views::of(m@));
            Some(r)
        },
    }
}

impl Clone for StateLevel {
    fn clone(&self) -> (r: Self)
        ensures
            r@ == self@,
    {
        let prototypes = self.prototypes.clone();
        assert(prototypes@ =~= self.prototypes@);
        let captures = match &self.captures {
            Some((region, text)) => Some((region.clone(), text.clone())),
            None => None,
        };
        StateLevel { context: self.context, prototypes, captures }
    }
}

impl Clone for EscapeEntry {
    fn clone(&self) -> (r: Self)
        ensures
            r@ == self@,
    {
        EscapeEntry {
            regex: self.regex.clone(),
            captures: clone_mapping(&self.captures),
            stack_depth: self.stack_depth,
        }
    }
}

/// A copy of a stack of contexts.
pub(crate) fn clone_stack(v: &Vec<StateLevel>) -> (r: Vec<StateLevel>)
    ensures
        views::of(r@) == views::of(v@),
{
    let r = v.clone();
    assert(views::of(r@) =~= views::of(v@));
    r
}

/// A copy of a stack of escapes.
pub(crate) fn clone_escapes(v: &Vec<EscapeEntry>) -> (r: Vec<EscapeEntry>)
    ensures
        views::of(r@) == views::of(v@),
{
    let r = v.clone();
    assert(views::of(r@) =~= views::of(v@));
    r
}

/// A copy of a list of references.
pub(crate) fn clone_references(v: &Vec<ContextReference>) -> (r: Vec<ContextReference>)
    ensures
        views::of(r@) == views::of(v@),
{
    let r = v.clone();
    assert(views::of(r@) =~= views::of(v@));
    r
}

/// A copy of an optional reference.
pub(crate) fn clone_reference(v: &Option<ContextReference>) -> (r: Option<ContextReference>)
    ensures
        views::opt(r) == views::opt(*v),
{
    match v {
        Some(x) => Some(x.clone()),
        None => None,
    }
}

/// A copy of a list of scopes.
pub(crate) fn clone_scopes(v: &Vec<Scope>) -> (r: Vec<Scope>)
    ensures
        r@ == v@,
{
    let r = v.clone();
    assert(r@ =~= v@);
    r
}

/// A copy of a list of depths.
pub(crate) fn clone_depths(v: &Vec<usize>) -> (r: Vec<usize>)
    ensures
        r@ == v@,
{
    let r = v.clone();
    assert(r@ =~= v@);
    r
}

impl Clone for BranchPoint {
    fn clone(&self) -> (r: Self)
        ensures
            r@ == self@,
    {
        BranchPoint {
            name: self.name.clone(),
            next_alternative: self.next_alternative,
            alternatives: clone_references(&self.alternatives),
            stack_snapshot: clone_stack(&self.stack_snapshot),
            proto_starts_snapshot: clone_depths(&self.proto_starts_snapshot),
            match_start: self.match_start,
            trigger_match_start: self.trigger_match_start,
            pat_scope: clone_scopes(&self.pat_scope),
            line_number: self.line_number,
            ops_snapshot_len: self.ops_snapshot_len,
            stack_depth: self.stack_depth,
            non_consuming_push_at_snapshot: self.non_consuming_push_at_snapshot,
            first_line_snapshot: self.first_line_snapshot,
            with_prototype: clone_reference(&self.with_prototype),
            pending_lines_snapshot_len: self.pending_lines_snapshot_len,
            escape_stack_snapshot: clone_escapes(&self.escape_stack_snapshot),
            pop_count: self.pop_count,
            prefix_ops: clone_ops(&self.prefix_ops),
            capture_ops: clone_ops(&self.capture_ops),
        }
    }
}

impl BranchPoint {
    /// See [`alive`].
    pub(crate) fn is_alive(&self, stack_len: usize) -> (r: bool)
        ensures
            r == alive(self@, stack_len as int),
    {
        stack_len > self.stack_depth.saturating_sub(self.pop_count)
    }
}

/// A copy of the branch points.
pub(crate) fn clone_branch_points(v: &Vec<BranchPoint>) -> (r: Vec<BranchPoint>)
    ensures
        views::of(r@) == views::of(v@),
{
    let r = v.clone();
    assert(views::of(r@) =~= views::of(v@));
    r
}

impl Clone for BpInfo {
    fn clone(&self) -> (r: Self)
        ensures
            r@ == self@,
        decreases self,
    {
        BpInfo {
            name: self.name.clone(),
            stack_depth: self.stack_depth,
            line_number: self.line_number,
            inner_producer: match &self.inner_producer {
                Some(inner) => Some(Box::new((&**inner).clone())),
                None => None,
            },
        }
    }
}

/// A copy of a list of attributions.
pub(crate) fn clone_bp_infos(v: &Vec<BpInfo>) -> (r: Vec<BpInfo>)
    ensures
        views::of(r@) == views::of(v@),
{
    let r = v.clone();
    assert(views::of(r@) =~= views::of(v@));
    r
}

impl Clone for MaxDepthSeen {
    fn clone(&self) -> (r: Self)
        ensures
            r@ == self@,
    {
        MaxDepthSeen {
            depth: self.depth,
            bp: match &self.bp {
                Some(bp) => Some(bp.clone()),
                None => None,
            },
        }
    }
}

/// A copy of the buffered lines.
pub(crate) fn clone_texts(v: &Vec<String>) -> (r: Vec<String>)
    ensures
        views::of(r@) == views::of(v@),
{
    let r = v.clone();
    assert(views::of(r@) =~= views::of(v@));
    r
}

fn clone_shadows(v: &Vec<ScopeStack>) -> (r: Vec<ScopeStack>)
    ensures
        views::of(r@) == views::of(v@),
{
    let r = v.clone();
    assert(views::of(r@) =~= views::of(v@));
    r
}

impl Clone for ParseWarning {
    fn clone(&self) -> (r: Self)
        ensures
            r@ == self@,
    {
        match self {
            ParseWarning::BranchPointExpired { name } => ParseWarning::BranchPointExpired {
                name: name.clone(),
            },
            ParseWarning::SpeculationBudgetExhausted {
                name,
            } => ParseWarning::SpeculationBudgetExhausted { name: name.clone() },
        }
    }
}

/// A copy of a list of warnings.
pub(crate) fn clone_warnings(v: &Vec<ParseWarning>) -> (r: Vec<ParseWarning>)
    ensures
        views::of(r@) == views::of(v@),
{
    let mut r: Vec<ParseWarning> = Vec::with_capacity(v.len());
    for i in 0..v.len()
        invariant
            r@.len() == i,
            forall|k: int| 0 <= k < i ==> #[trigger] r@[k]@ == v@[k]@,
    {
        r.push(v[i].clone());
    }
    assert(views::of(r@) =~= views::of(v@));
    r
}

fn clone_skipped(v: &Vec<(usize, String)>) -> (r: Vec<(usize, String)>)
    ensures
        views::of(r@) == views::of(v@),
{
    let mut r: Vec<(usize, String)> = Vec::with_capacity(v.len());
    for i in 0..v.len()
        invariant
            r@.len() == i,
            forall|k: int| 0 <= k < i ==> #[trigger] r@[k]@ == v@[k]@,
    {
        r.push((v[i].0, v[i].1.clone()));
    }
    assert(views::of(r@) =~= views::of(v@));
    r
}

impl Clone for ParseState {
    /// A copy that goes on exactly as this state would.
    fn clone(&self) -> (r: Self)
        ensures
            r@ == self@,
    {
        ParseState {
            stack: clone_stack(&self.stack),
            first_line: self.first_line,
            proto_starts: clone_depths(&self.proto_starts),
            line_number: self.line_number,
            escape_stack: clone_escapes(&self.escape_stack),
            branch_points: clone_branch_points(&self.branch_points),
            pending_lines: clone_texts(&self.pending_lines),
            pending_line_start_shadows: clone_shadows(&self.pending_line_start_shadows),
            pending_line_ops: clone_lines(&self.pending_line_ops),
            flushed_ops: clone_lines(&self.flushed_ops),
            flushed_ops_start: self.flushed_ops_start,
            flushed_ops_bp_per_slot: clone_bp_infos(&self.flushed_ops_bp_per_slot),
            warnings: clone_warnings(&self.warnings),
            shadow: self.shadow.clone(),
            replay_ctx: self.replay_ctx,
            replay_prefix_ops: match &self.replay_prefix_ops {
                Some(ops) => Some(clone_ops(ops)),
                None => None,
            },
            skipped_branches: clone_skipped(&self.skipped_branches),
            inner_replay_max_depth: match &self.inner_replay_max_depth {
                Some(seen) => Some(seen.clone()),
                None => None,
            },
            zero_width_escape_fires: self.zero_width_escape_fires.clone(),
        }
    }
}

} // verus!
