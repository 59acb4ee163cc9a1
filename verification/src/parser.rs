//! Parsing line by line: the public face of [`ParseState`].

use crate::emit;
use crate::engine;
use crate::lines;
use crate::order;
use crate::scope;
use crate::scope::{Op, ScopeStack, StackV};
use crate::state::{
    clone_lines, clone_ops, clone_warnings, BranchPoint, BranchV, LevelV, ParseState, ParseWarning,
    StateLevel, StateV, WarningV,
};
use crate::steps;
use crate::syntax;
use crate::syntax::{ErrorV, ParsingError, SyntaxReference, SyntaxSet};
use crate::text;
use crate::views;
use crate::window;
use std::collections::HashMap;
use vstd::prelude::*;
use vstd::string::*;

verus! {

broadcast use crate::views::group_views;

/// The model of a [`ParseLineOutput`].
#[verifier::ext_equal]
pub struct OutputV {
    pub ops: Seq<Op>,
    pub revised: Option<Seq<Seq<Op>>>,
    pub warnings: Seq<WarningV>,
}

/// Output of [`ParseState::parse_line`].
///
/// `ops` holds the scope-stack operations of the current line. They are final
/// unless [`ParseState::speculative_lines`] returns non-zero, in which case a
/// later call may deliver corrections through `revised`.
#[derive(Debug)]
#[must_use]
pub struct ParseLineOutput {
    /// The operations of the current line.
    pub ops: Vec<Op>,
    /// Present iff a `fail` during this call revised lines before the current
    /// one. It then replaces the whole window of lines that were not final:
    /// corrected operations for the last `revised.len()` lines before the current
    /// one, in input order.
    ///
    /// What lies before the window can never be corrected by a later call. A
    /// consumer therefore resets its scope stack once, to the snapshot that it
    /// took there, and applies `revised` and then `ops`.
    pub revised: Option<Vec<Vec<Op>>>,
    /// Warnings collected while parsing, such as the expiry of a branch point.
    pub warnings: Vec<ParseWarning>,
}

impl View for ParseLineOutput {
    type V = OutputV;

    open spec fn view(&self) -> OutputV {
        OutputV {
            ops: self.ops@,
            revised: match self.revised {
                Some(lines) => Some(views::of(lines@)),
                None => None,
            },
            warnings: views::of(self.warnings@),
        }
    }
}

impl Clone for ParseLineOutput {
    fn clone(&self) -> (r: Self)
        ensures
            r@ == self@,
    {
        let r = ParseLineOutput {
            ops: clone_ops(&self.ops),
            revised: match &self.revised {
                Some(lines) => Some(clone_lines(lines)),
                None => None,
            },
            warnings: clone_warnings(&self.warnings),
        };
        assert(r@ =~= self@);
        r
    }
}

impl Default for ParseLineOutput {
    /// The output of a line without operations.
    fn default() -> (r: Self)
        ensures
            r@ == (OutputV { ops: Seq::empty(), revised: None, warnings: Seq::empty() }),
    {
        let r = ParseLineOutput { ops: Vec::new(), revised: None, warnings: Vec::new() };
        assert(views::of(r.warnings@) =~= Seq::empty());
        r
    }
}

/// The state in which the parse of a file starts.
pub open spec fn initial(start: LevelV) -> StateV {
    StateV {
        stack: seq![start],
        first_line: true,
        proto_starts: Seq::empty(),
        line_number: 0,
        escape_stack: Seq::empty(),
        branch_points: Seq::empty(),
        pending_lines: Seq::empty(),
        pending_line_start_shadows: Seq::empty(),
        pending_line_ops: Seq::empty(),
        flushed_ops: Seq::empty(),
        flushed_ops_start: None,
        flushed_ops_bp_per_slot: Seq::empty(),
        warnings: Seq::empty(),
        shadow: StackV { scopes: Seq::empty(), cleared: Seq::empty() },
        replay_ctx: None,
        replay_prefix_ops: None,
        skipped_branches: Seq::empty(),
        inner_replay_max_depth: None,
        zero_width_escape_fires: Map::empty(),
    }
}

/// The bottom frame of a file of the given syntax.
pub open spec fn start_level(syntax: SyntaxReference) -> LevelV {
    LevelV { context: syntax.start, prototypes: Seq::empty(), captures: None }
}

/// Whether a branch point may still be gone back to from line `line_number`.
pub open spec fn is_young(bp: BranchV, line_number: usize) -> bool {
    line_number.saturating_sub(bp.line_number) <= engine::MAX_BRANCH_AGE
}

/// The branch points that may still be gone back to.
pub open spec fn young_branches(bps: Seq<BranchV>, line_number: usize) -> Seq<BranchV> {
    bps.filter(|bp: BranchV| is_young(bp, line_number))
}

/// `acc`, then a warning for each of `bps[i..]` that is too old.
pub open spec fn expiry_warnings(
    acc: Seq<WarningV>,
    bps: Seq<BranchV>,
    i: int,
    line_number: usize,
) -> Seq<WarningV>
    decreases bps.len() - i,
{
    if i < 0 || i >= bps.len() {
        acc
    } else {
        expiry_warnings(
            if is_young(bps[i], line_number) {
                acc
            } else {
                acc.push(WarningV::BranchPointExpired { name: bps[i].name })
            },
            bps,
            i + 1,
            line_number,
        )
    }
}

/// The state in which the next line is parsed: old branch points have expired.
pub open spec fn entered(st: StateV) -> StateV {
    StateV {
        skipped_branches: Seq::empty(),
        branch_points: young_branches(st.branch_points, st.line_number),
        warnings: expiry_warnings(st.warnings, st.branch_points, 0, st.line_number),
        line_number: st.line_number.saturating_add(1),
        ..st
    }
}

/// The consumer's stacks before each pending line, and now, once it has applied
/// the corrections `lines[i..]` of the pending lines from `first + i` on.
pub open spec fn resettled(
    stacks: Seq<StackV>,
    now: StackV,
    lines: Seq<Seq<Op>>,
    first: int,
    i: int,
) -> (Seq<StackV>, StackV)
    decreases lines.len() - i,
{
    if i < 0 || i >= lines.len() {
        (stacks, now)
    } else {
        let after = scope::applied_all(now, lines[i]);
        resettled(
            if 0 <= first + i + 1 < stacks.len() {
                stacks.update(first + i + 1, after)
            } else {
                stacks
            },
            after,
            lines,
            first,
            i + 1,
        )
    }
}

/// `window` with `lines[i..]` in place of the lines from `first + i` on.
pub open spec fn replaced(window: Seq<Seq<Op>>, lines: Seq<Seq<Op>>, first: int, i: int) -> Seq<
    Seq<Op>,
>
    decreases lines.len() - i,
{
    if i < 0 || i >= lines.len() {
        window
    } else {
        replaced(
            if 0 <= first + i < window.len() {
                window.update(first + i, lines[i])
            } else {
                window
            },
            lines,
            first,
            i + 1,
        )
    }
}

/// The corrections of the pending lines from `first` on, each placed within its
/// line.
pub open spec fn placed(lines: Seq<Seq<Op>>, pending: Seq<Seq<char>>, first: int) -> Seq<Seq<Op>> {
    Seq::new(
        lines.len(),
        |i: int|
            emit::levelled(
                lines[i],
                if 0 <= first + i < pending.len() {
                    text::byte_len(pending[first + i])
                } else {
                    0
                },
            ),
    )
}

/// Where the corrections of pending lines start.
pub open spec fn first_corrected(st: StateV) -> int {
    (st.pending_lines.len() as usize).saturating_sub(st.flushed_ops.len() as usize) as int
}

/// The state after the corrections of pending lines are taken in: the consumer
/// goes back to where they start.
pub open spec fn corrected(st: StateV) -> StateV {
    let first = first_corrected(st);
    let lines = placed(st.flushed_ops, st.pending_lines, first);
    let base = StateV {
        flushed_ops: Seq::empty(),
        flushed_ops_start: None,
        flushed_ops_bp_per_slot: Seq::empty(),
        ..st
    };
    if lines.len() == 0 {
        base
    } else {
        let stacks = st.pending_line_start_shadows;
        let reset = if first < stacks.len() {
            stacks[first]
        } else {
            st.shadow
        };
        let (stacks, now) = resettled(stacks, reset, lines, first, 0);
        StateV {
            pending_line_start_shadows: stacks,
            shadow: now,
            pending_line_ops: replaced(st.pending_line_ops, lines, first, 0),
            ..base
        }
    }
}

/// What the consumer is told of earlier lines: with corrections, the whole window.
pub open spec fn revision(st: StateV) -> Option<Seq<Seq<Op>>> {
    if st.flushed_ops.len() == 0 {
        None
    } else {
        let window = corrected(st).pending_line_ops;
        Some(
            window.subrange(
                0,
                scope::least(st.pending_lines.len() as int, window.len() as int),
            ),
        )
    }
}

/// The state after a line is over: it joins the window while there are branch
/// points, else everything is final.
pub open spec fn closed_line(st: StateV, line: Seq<char>, ops: Seq<Op>) -> StateV {
    let mid = corrected(st);
    let open = st.branch_points.len() > 0;
    StateV {
        shadow: scope::applied_all(mid.shadow, ops),
        pending_lines: if open {
            mid.pending_lines.push(line)
        } else {
            Seq::empty()
        },
        pending_line_start_shadows: if open {
            mid.pending_line_start_shadows.push(mid.shadow)
        } else {
            Seq::empty()
        },
        pending_line_ops: if open {
            mid.pending_line_ops.push(ops)
        } else {
            Seq::empty()
        },
        warnings: Seq::empty(),
        ..mid
    }
}

/// The state and the operations after the next line is parsed from its beginning,
/// see [`engine::line_parsed`]. `None` where `fuel` steps are not enough.
#[verifier::opaque]
pub open spec fn parsed(fuel: nat, ss: Seq<SyntaxReference>, st: StateV, line: Seq<char>) -> Option<
    (StateV, Result<Seq<Op>, ErrorV>),
> {
    engine::line_parsed(fuel, ss, entered(st), line, 0)
}

/// The state after a call of `parse_line`, and its output. `None` where `fuel`
/// steps are not enough.
pub open spec fn output_within(fuel: nat, ss: Seq<SyntaxReference>, st: StateV, line: Seq<char>) -> Option<
    (StateV, Result<OutputV, ErrorV>),
> {
    if st.stack.len() == 0 {
        Some((st, Err(ErrorV::MissingMainContext)))
    } else {
        match parsed(fuel, ss, st, line) {
            None => None,
            Some((st1, Err(e))) => Some((st1, Err(e))),
            Some((st1, Ok(raw))) => {
                let ops = emit::levelled(raw, text::byte_len(line));
                Some(
                    (
                        closed_line(st1, line, ops),
                        Ok(OutputV { ops, revised: revision(st1), warnings: st1.warnings }),
                    ),
                )
            },
        }
    }
}

/// Whether the parse of the line comes to an end.
pub open spec fn terminates(ss: Seq<SyntaxReference>, st: StateV, line: Seq<char>) -> bool {
    exists|fuel: nat| #[trigger] output_within(fuel, ss, st, line) is Some
}

/// Some number of steps that the parse of the line does not exceed.
pub open spec fn enough(ss: Seq<SyntaxReference>, st: StateV, line: Seq<char>) -> nat {
    choose|fuel: nat| #[trigger] output_within(fuel, ss, st, line) is Some
}

/// The state after a call of `parse_line` that comes to an end, and its output.
pub open spec fn output_of(ss: Seq<SyntaxReference>, st: StateV, line: Seq<char>) -> (
    StateV,
    Result<OutputV, ErrorV>,
) {
    output_within(enough(ss, st, line), ss, st, line)->0
}

/// How many of the latest lines may still be revised.
pub open spec fn open_lines(st: StateV) -> nat {
    if st.branch_points.len() == 0 {
        0
    } else {
        st.pending_lines.len()
    }
}

/// Whether a call came out as the model says.
pub open spec fn output_agrees(
    r: Result<ParseLineOutput, ParsingError>,
    model: Result<OutputV, ErrorV>,
) -> bool {
    match r {
        Ok(out) => model == Ok::<OutputV, ErrorV>(out@),
        Err(e) => model == Err::<OutputV, ErrorV>(e@),
    }
}

impl ParseState {
    /// Creates a state at the beginning of a file of the given syntax.
    pub fn new(syntax: &SyntaxReference) -> (r: ParseState)
        ensures
            r@ == initial(start_level(*syntax)),
    {
        let level = StateLevel { context: syntax.start, prototypes: Vec::new(), captures: None };
        assert(level@ =~= start_level(*syntax));
        let mut stack: Vec<StateLevel> = Vec::new();
        stack.push(level);
        let r = ParseState {
            stack,
            first_line: true,
            proto_starts: Vec::new(),
            line_number: 0,
            escape_stack: Vec::new(),
            branch_points: Vec::new(),
            pending_lines: Vec::new(),
            pending_line_start_shadows: Vec::new(),
            pending_line_ops: Vec::new(),
            flushed_ops: Vec::new(),
            flushed_ops_start: None,
            flushed_ops_bp_per_slot: Vec::new(),
            warnings: Vec::new(),
            shadow: ScopeStack::new(),
            replay_ctx: None,
            replay_prefix_ops: None,
            skipped_branches: Vec::new(),
            inner_replay_max_depth: None,
            zero_width_escape_fires: HashMap::new(),
        };
        assert(r@ =~= initial(start_level(*syntax)));
        r
    }

    /// Drops the branch points that are too old, with a warning for each, see
    /// [`entered`].
    #[verifier::rlimit(40)]
    fn enter_line(&mut self)
        ensures
            final(self)@ == entered(old(self)@),
    {
        let ghost before = self@;
        let line_number: usize = self.line_number;
        let ghost young = |bp: BranchV| is_young(bp, line_number);
        let mut old_points: Vec<BranchPoint> = Vec::new();
        std::mem::swap(&mut old_points, &mut self.branch_points);
        proof {
            reveal(Seq::filter);
            assert(before.branch_points.subrange(0, 0) =~= Seq::empty());
        }
        let n: usize = old_points.len();
        let mut k: usize = 0;
        while k < n
            invariant
                before == old(self)@,
                k <= n,
                n == before.branch_points.len(),
                line_number == before.line_number,
                young == (|bp: BranchV| is_young(bp, line_number)),
                views::of(old_points@) == before.branch_points,
                self@ == (StateV {
                    branch_points: before.branch_points.subrange(0, k as int).filter(young),
                    warnings: self@.warnings,
                    ..before
                }),
                expiry_warnings(self@.warnings, before.branch_points, k as int, line_number)
                    == expiry_warnings(before.warnings, before.branch_points, 0, line_number),
            decreases n - k,
        {
            proof {
                views::lemma_filter_step(before.branch_points, k as int, young);
            }
            assert(before.branch_points[k as int] == old_points@[k as int]@);
            let bp = old_points[k].clone();
            if line_number.saturating_sub(bp.line_number) <= engine::MAX_BRANCH_AGE {
                self.branch_points.push(bp);
            } else {
                self.warnings.push(ParseWarning::BranchPointExpired { name: bp.name });
            }
            k += 1;
        }
        assert(before.branch_points.subrange(0, n as int) =~= before.branch_points);
        self.skipped_branches.clear();
        self.line_number = line_number.saturating_add(1);
        assert(self@ =~= entered(before));
    }

    /// Takes in the corrections of pending lines, see [`corrected`], and returns
    /// what the consumer is told, see [`revision`].
    #[verifier::rlimit(40)]
    fn take_corrections(&mut self) -> (r: Option<Vec<Vec<Op>>>)
        ensures
            final(self)@ == corrected(old(self)@),
            match r {
                Some(lines) => revision(old(self)@) == Some(views::of(lines@)),
                None => revision(old(self)@) is None,
            },
    {
        let ghost before = self@;
        let mut lines: Vec<Vec<Op>> = Vec::new();
        std::mem::swap(&mut lines, &mut self.flushed_ops);
        self.flushed_ops_start = None;
        self.flushed_ops_bp_per_slot.clear();
        let ghost base = StateV {
            flushed_ops: Seq::empty(),
            flushed_ops_start: None,
            flushed_ops_bp_per_slot: Seq::empty(),
            ..before
        };
        assert(self@ =~= base);
        if lines.len() == 0 {
            return None;
        }
        let first: usize = self.pending_lines.len().saturating_sub(lines.len());
        let ghost corrections = placed(before.flushed_ops, before.pending_lines, first as int);
        if first < self.pending_line_start_shadows.len() {
            assert(base.pending_line_start_shadows[first as int]
                == self.pending_line_start_shadows@[first as int]@);
            self.shadow = self.pending_line_start_shadows[first].clone();
        }
        let ghost reset = self@.shadow;
        let ghost goal = resettled(
            base.pending_line_start_shadows,
            reset,
            corrections,
            first as int,
            0,
        );
        let ghost window = replaced(
            base.pending_line_ops,
            corrections,
            first as int,
            0,
        );
        let mut i: usize = 0;
        while i < lines.len()
            invariant
                i <= lines@.len(),
                first <= self.pending_lines@.len(),
                lines@.len() == before.flushed_ops.len(),
                forall|k: int| i <= k < lines@.len() ==> (#[trigger] lines@[k])@ == before.flushed_ops[k],
                corrections == placed(before.flushed_ops, before.pending_lines, first as int),
                base.pending_lines == before.pending_lines,
                self@ == (StateV {
                    pending_line_start_shadows: self@.pending_line_start_shadows,
                    shadow: self@.shadow,
                    pending_line_ops: self@.pending_line_ops,
                    ..base
                }),
                resettled(
                    self@.pending_line_start_shadows,
                    self@.shadow,
                    corrections,
                    first as int,
                    i as int,
                ) == goal,
                replaced(
                    self@.pending_line_ops,
                    corrections,
                    first as int,
                    i as int,
                ) == window,
            decreases lines@.len() - i,
        {
            let ghost st = self@;
            let slot: usize = first.saturating_add(i);
            let mut line_ops = clone_ops(&lines[i]);
            let end: usize = if slot < self.pending_lines.len() {
                assert(self@.pending_lines[slot as int] == self.pending_lines@[slot as int]@);
                self.pending_lines[slot].as_str().len()
            } else {
                0
            };
            emit::level_ops(&mut line_ops, end);
            assert(line_ops@ == corrections[i as int]);
            self.shadow.apply_all(&line_ops);
            let next: usize = slot.saturating_add(1);
            if next < self.pending_line_start_shadows.len() {
                let snapshot = self.shadow.clone();
                self.pending_line_start_shadows.set(next, snapshot);
            }
            if slot < self.pending_line_ops.len() {
                self.pending_line_ops.set(slot, line_ops);
            }
            i += 1;
        }
        assert(self@ =~= corrected(before));
        let mut revised = clone_lines(&self.pending_line_ops);
        let n: usize = self.pending_lines.len();
        revised.truncate(n);
        assert(views::of(revised@) =~= revision(before)->0);
        Some(revised)
    }

    /// Closes a line, see [`closed_line`]; the warnings are handed out.
    #[verifier::rlimit(40)]
    fn close_line(&mut self, line: &str, ops: &Vec<Op>) -> (r: (Option<Vec<Vec<Op>>>, Vec<ParseWarning>))
        ensures
            final(self)@ == closed_line(old(self)@, line@, ops@),
            match r.0 {
                Some(lines) => revision(old(self)@) == Some(views::of(lines@)),
                None => revision(old(self)@) is None,
            },
            views::of(r.1@) == old(self)@.warnings,
    {
        let ghost before = self@;
        let revised = self.take_corrections();
        let base = self.shadow.clone();
        self.shadow.apply_all(ops);
        if self.branch_points.len() > 0 {
            self.pending_lines.push(line.to_owned());
            self.pending_line_start_shadows.push(base);
            self.pending_line_ops.push(clone_ops(ops));
        } else {
            self.pending_lines.clear();
            self.pending_line_start_shadows.clear();
            self.pending_line_ops.clear();
        }
        let mut warnings: Vec<ParseWarning> = Vec::new();
        std::mem::swap(&mut warnings, &mut self.warnings);
        assert(self@ =~= closed_line(before, line@, ops@));
        (revised, warnings)
    }

    /// `parse_line` within a number of steps, see [`output_within`].
    #[verifier::rlimit(40)]
    pub(crate) fn parse_line_limited(
        &mut self,
        line: &str,
        syntax_set: &SyntaxSet,
        limit: Option<u64>,
        Ghost(fuel): Ghost<nat>,
    ) -> (r: Option<Result<ParseLineOutput, ParsingError>>)
        requires
            syntax::covers(limit, fuel),
            limit is None ==> output_within(fuel, syntax_set@, old(self)@, line@) is Some,
        ensures
            ({
                let model = output_within(fuel, syntax_set@, old(self)@, line@);
                match r {
                    None => model is None,
                    Some(out) => model is Some && (model->0).0 == final(self)@ && output_agrees(
                        out,
                        (model->0).1,
                    ),
                }
            }),
    {
        if self.stack.len() == 0 {
            return Some(Err(ParsingError::MissingMainContext));
        }
        reveal(parsed);
        self.enter_line();
        match self.parse_line_inner_from(line, syntax_set, 0, limit, Ghost(fuel)) {
            None => None,
            Some(Err(e)) => Some(Err(e)),
            Some(Ok(ops)) => {
                let mut ops = ops;
                emit::level_ops(&mut ops, line.len());
                let (revised, warnings) = self.close_line(line, &ops);
                Some(Ok(ParseLineOutput { ops, revised, warnings }))
            },
        }
    }

    /// Parses a single line of the file.
    ///
    /// The result holds the changes to the scope stack, each with the byte of the
    /// line at which it applies, in the order in which they are to be applied. That
    /// is also the order of those bytes, and none lies after the end of the line: an
    /// operation that would, or that would lie after the next one, is placed earlier,
    /// see [`emit::levelled`]. The same holds of revised lines, see
    /// [`lines::proper_output`].
    ///
    /// The [`SyntaxSet`] has to be the one that holds the syntax with which this
    /// state was made, or an extended version of it: contexts are referred to by
    /// their index.
    ///
    /// Rules of a syntax can send the parser round in circles for ever; such a
    /// line must not be passed. See [`ParseState::parse_line_within`] for a parse
    /// that gives up.
    pub fn parse_line(&mut self, line: &str, syntax_set: &SyntaxSet) -> (r: Result<
        ParseLineOutput,
        ParsingError,
    >)
        requires
            terminates(syntax_set@, old(self)@, line@),
        ensures
            final(self)@ == output_of(syntax_set@, old(self)@, line@).0,
            output_agrees(r, output_of(syntax_set@, old(self)@, line@).1),
            r matches Ok(out) ==> order::in_order(out.ops@) && order::up_to(
                out.ops@,
                text::byte_len(line@),
            ),
            lines::settled(syntax_set@, old(self)@) ==> (r matches Ok(out) ==> lines::proper_output(
                syntax_set@,
                old(self)@,
                line@,
                out@,
            )),
    {
        let ghost fuel = enough(syntax_set@, self@, line@);
        proof {
            if let Some((_, Ok(raw))) = parsed(fuel, syntax_set@, self@, line@) {
                order::law_levelled_in_order(raw, text::byte_len(line@));
            }
            if lines::settled(syntax_set@, self@) {
                lines::lemma_output(fuel, syntax_set@, self@, line@);
            }
        }
        match self.parse_line_limited(line, syntax_set, None, Ghost(fuel)) {
            Some(r) => r,
            None => vstd::pervasive::unreached(),
        }
    }

    /// [`ParseState::parse_line`], if it takes at most `max_steps` steps. Else the
    /// state stays as it is, and the result is `None`.
    pub fn parse_line_within(&mut self, line: &str, syntax_set: &SyntaxSet, max_steps: u64) -> (r:
        Option<Result<ParseLineOutput, ParsingError>>)
        ensures
            match r {
                None => output_within(max_steps as nat, syntax_set@, old(self)@, line@) is None
                    && final(self)@ == old(self)@,
                Some(out) => {
                    &&& output_within(max_steps as nat, syntax_set@, old(self)@, line@) is Some
                    &&& terminates(syntax_set@, old(self)@, line@)
                    &&& final(self)@ == output_of(syntax_set@, old(self)@, line@).0
                    &&& output_agrees(out, output_of(syntax_set@, old(self)@, line@).1)
                },
            },
    {
        let mut probe = self.clone();
        match probe.parse_line_limited(
            line,
            syntax_set,
            Some(max_steps),
            Ghost(max_steps as nat),
        ) {
            None => None,
            Some(_) => {
                proof {
                    steps::law_output_is_unique(max_steps as nat, syntax_set@, self@, line@);
                }
                Some(self.parse_line(line, syntax_set))
            },
        }
    }

    /// Whether the operations of recent lines may still be revised, because the
    /// parser is inside a `branch_point`.
    pub fn is_speculative(&self) -> (r: bool)
        ensures
            r == (self@.branch_points.len() > 0),
            window::between_lines(self@) ==> (r <==> open_lines(self@) > 0),
    {
        self.branch_points.len() > 0
    }

    /// How many of the latest lines may still be revised by a later call. With
    /// `0` every operation returned so far is final, which makes this the time to
    /// keep a clone of this state.
    pub fn speculative_lines(&self) -> (r: usize)
        ensures
            r == open_lines(self@),
    {
        if self.branch_points.len() == 0 {
            0
        } else {
            self.pending_lines.len()
        }
    }
}

} // verus!
