//! A wrapper around [`ParseState`] for batch consumers that only want lines whose
//! operations can no longer be revised.

use crate::parser;
use crate::parser::{OutputV, ParseLineOutput};
use crate::scope::Op;
use crate::state::{clone_lines, clone_warnings, ParseState, ParseWarning, StateV, WarningV};
use crate::steps;
use crate::syntax::{ErrorV, ParsingError, SyntaxReference, SyntaxSet};
use crate::views;
use crate::window;
use vstd::prelude::*;
use vstd::string::*;

verus! {

broadcast use crate::views::group_views;

/// The model of a [`CommittedParser`].
#[verifier::ext_equal]
pub struct CommittedV {
    pub state: StateV,
    pub buffered: Seq<Seq<Op>>,
    pub warnings: Seq<WarningV>,
}

/// Batch-friendly wrapper around [`ParseState`] that hands back lines only once
/// they are final.
///
/// `parse_line` returns operations eagerly, so a line parsed inside an unresolved
/// `branch_point` may later be revised through [`ParseLineOutput::revised`]. This
/// wrapper absorbs that: [`feed`](CommittedParser::feed) returns the operations of
/// every line that just became final, which is usually the line itself, nothing
/// while a window is open, and several lines at once when one closes. Call
/// [`finish`](CommittedParser::finish) after the last line: no `fail` can come
/// any more then, so whatever is still buffered is final.
#[derive(Debug)]
pub struct CommittedParser {
    state: ParseState,
    /// Operations of fed lines that were not handed back yet, oldest first.
    buffered: Vec<Vec<Op>>,
    warnings: Vec<ParseWarning>,
}

impl View for CommittedParser {
    type V = CommittedV;

    closed spec fn view(&self) -> CommittedV {
        CommittedV {
            state: self.state@,
            buffered: views::of(self.buffered@),
            warnings: views::of(self.warnings@),
        }
    }
}

impl Clone for CommittedParser {
    fn clone(&self) -> (r: Self)
        ensures
            r@ == self@,
    {
        CommittedParser {
            state: self.state.clone(),
            buffered: clone_lines(&self.buffered),
            warnings: clone_warnings(&self.warnings),
        }
    }
}

/// Whether what is buffered is exactly the window of the parser.
pub open spec fn in_step(cp: CommittedV) -> bool {
    window::between_lines(cp.state) && cp.buffered == cp.state.pending_line_ops
}

/// Whether a result revises no more lines than are buffered.
pub open spec fn fits(buffered: Seq<Seq<Op>>, r: Result<OutputV, ErrorV>) -> bool {
    r matches Ok(out) ==> (out.revised matches Some(lines) ==> lines.len() <= buffered.len())
}

/// The lines so far, once the latest of them are revised and a new one is there.
pub open spec fn extended(lines: Seq<Seq<Op>>, out: OutputV) -> Seq<Seq<Op>> {
    match out.revised {
        Some(revised) => (lines.subrange(0, lines.len() - revised.len()) + revised).push(out.ops),
        None => lines.push(out.ops),
    }
}

/// The parser after a line whose parse led to the state `next` with the result
/// `r`, and what is handed back.
pub open spec fn absorbed(cp: CommittedV, next: StateV, r: Result<OutputV, ErrorV>) -> (
    CommittedV,
    Result<Seq<Seq<Op>>, ErrorV>,
) {
    match r {
        Err(e) => (CommittedV { state: next, ..cp }, Err(e)),
        Ok(out) => {
            let lines = extended(cp.buffered, out);
            let warnings = cp.warnings + out.warnings;
            if parser::open_lines(next) == 0 {
                (CommittedV { state: next, buffered: Seq::empty(), warnings }, Ok(lines))
            } else {
                (CommittedV { state: next, buffered: lines, warnings }, Ok(Seq::empty()))
            }
        },
    }
}

/// What a call of `feed` that led from `cp` to `next` hands back: nothing while
/// lines are open; else all lines that were, as revised, and the new one.
pub open spec fn hands_back(
    cp: CommittedV,
    next: CommittedV,
    out: OutputV,
    batch: Seq<Seq<Op>>,
) -> bool {
    &&& batch.len() == 0 <==> parser::open_lines(next.state) > 0
    &&& batch.len() > 0 ==> {
        &&& batch.len() == parser::open_lines(cp.state) + 1
        &&& batch.last() == out.ops
        &&& batch.drop_last() == match out.revised {
            Some(lines) => lines,
            None => cp.buffered,
        }
    }
}

/// The parser after a call of `feed`, and its result.
pub open spec fn fed(ss: Seq<SyntaxReference>, cp: CommittedV, line: Seq<char>) -> (
    CommittedV,
    Result<Seq<Seq<Op>>, ErrorV>,
) {
    let (next, r) = parser::output_of(ss, cp.state, line);
    absorbed(cp, next, r)
}

/// Whether a call came out as the model says.
pub open spec fn lines_agree(
    r: Result<Vec<Vec<Op>>, ParsingError>,
    model: Result<Seq<Seq<Op>>, ErrorV>,
) -> bool {
    match r {
        Ok(lines) => model == Ok::<Seq<Seq<Op>>, ErrorV>(views::of(lines@)),
        Err(e) => model == Err::<Seq<Seq<Op>>, ErrorV>(e@),
    }
}

impl CommittedParser {
    /// Creates a parser for the given syntax. See [`ParseState::new`].
    pub fn new(syntax: &SyntaxReference) -> (r: CommittedParser)
        ensures
            r@ == (CommittedV {
                state: parser::initial(parser::start_level(*syntax)),
                buffered: Seq::empty(),
                warnings: Seq::empty(),
            }),
            in_step(r@),
    {
        proof {
            law_fresh_parser(*syntax);
        }
        CommittedParser {
            state: ParseState::new(syntax),
            buffered: Vec::new(),
            warnings: Vec::new(),
        }
    }

    /// Parses one line and returns the operations of every line that became final
    /// through this call, oldest first. Nothing comes back while a `branch_point`
    /// is open.
    ///
    /// The arguments follow the same rules as those of
    /// [`ParseState::parse_line`]. After [`finish`](CommittedParser::finish) a
    /// line must not be fed if it revises lines that were handed back then.
    #[verifier::rlimit(40)]
    pub fn feed(&mut self, line: &str, syntax_set: &SyntaxSet) -> (r: Result<
        Vec<Vec<Op>>,
        ParsingError,
    >)
        requires
            parser::terminates(syntax_set@, old(self)@.state, line@),
            fits(
                old(self)@.buffered,
                parser::output_of(syntax_set@, old(self)@.state, line@).1,
            ),
        ensures
            final(self)@ == fed(syntax_set@, old(self)@, line@).0,
            lines_agree(r, fed(syntax_set@, old(self)@, line@).1),
            in_step(old(self)@) && old(self)@.buffered.len() < usize::MAX ==> (r matches Ok(
                batch,
            ) ==> in_step(final(self)@) && hands_back(
                old(self)@,
                final(self)@,
                parser::output_of(syntax_set@, old(self)@.state, line@).1->Ok_0,
                views::of(batch@),
            )),
    {
        let ghost before = self@;
        proof {
            if in_step(before) && before.buffered.len() < usize::MAX {
                law_feed_keeps_step(syntax_set@, before, line@);
                law_feed_hands_back(syntax_set@, before, line@);
            }
        }
        let ParseLineOutput { ops, revised, warnings } = match self.state.parse_line(
            line,
            syntax_set,
        ) {
            Ok(out) => out,
            Err(e) => {
                return Err(e);
            },
        };
        let mut warnings = warnings;
        self.warnings.append(&mut warnings);
        if let Some(revised) = revised {
            let mut revised = revised;
            let start: usize = self.buffered.len() - revised.len();
            self.buffered.truncate(start);
            self.buffered.append(&mut revised);
        }
        self.buffered.push(ops);
        assert(self@.buffered =~= extended(
            before.buffered,
            parser::output_of(syntax_set@, before.state, line@).1->Ok_0,
        ));
        assert(self@.warnings =~= before.warnings + parser::output_of(
            syntax_set@,
            before.state,
            line@,
        ).1->Ok_0.warnings);
        if self.state.speculative_lines() == 0 {
            let mut lines: Vec<Vec<Op>> = Vec::new();
            std::mem::swap(&mut lines, &mut self.buffered);
            Ok(lines)
        } else {
            Ok(Vec::new())
        }
    }

    /// [`CommittedParser::feed`], if it takes at most `max_steps` steps and does
    /// not revise lines that were handed back already. Else the parser stays as it
    /// is, and the result is `None`.
    #[verifier::rlimit(40)]
    pub fn feed_within(&mut self, line: &str, syntax_set: &SyntaxSet, max_steps: u64) -> (r: Option<
        Result<Vec<Vec<Op>>, ParsingError>,
    >)
        ensures
            match r {
                None => {
                    &&& final(self)@ == old(self)@
                    &&& parser::output_within(
                        max_steps as nat,
                        syntax_set@,
                        old(self)@.state,
                        line@,
                    ) is None || !fits(
                        old(self)@.buffered,
                        parser::output_of(syntax_set@, old(self)@.state, line@).1,
                    )
                },
                Some(out) => {
                    &&& parser::output_within(
                        max_steps as nat,
                        syntax_set@,
                        old(self)@.state,
                        line@,
                    ) is Some
                    &&& fits(
                        old(self)@.buffered,
                        parser::output_of(syntax_set@, old(self)@.state, line@).1,
                    )
                    &&& final(self)@ == fed(syntax_set@, old(self)@, line@).0
                    &&& lines_agree(out, fed(syntax_set@, old(self)@, line@).1)
                },
            },
    {
        let mut probe = self.state.clone();
        let r = match probe.parse_line_limited(
            line,
            syntax_set,
            Some(max_steps),
            Ghost(max_steps as nat),
        ) {
            None => {
                return None;
            },
            Some(r) => r,
        };
        proof {
            steps::law_output_is_unique(max_steps as nat, syntax_set@, self@.state, line@);
        }
        if let Ok(out) = r {
            if let Some(revised) = out.revised {
                if revised.len() > self.buffered.len() {
                    return None;
                }
            }
        }
        Some(self.feed(line, syntax_set))
    }

    /// Drains the lines that are still buffered at the end of the input, oldest
    /// first. Without further input no `fail` can revise them.
    pub fn finish(&mut self) -> (r: Vec<Vec<Op>>)
        ensures
            views::of(r@) == old(self)@.buffered,
            final(self)@ == (CommittedV { buffered: Seq::empty(), ..old(self)@ }),
            in_step(old(self)@) && parser::open_lines(old(self)@.state) == 0 ==> in_step(
                final(self)@,
            ),
    {
        let mut lines: Vec<Vec<Op>> = Vec::new();
        std::mem::swap(&mut lines, &mut self.buffered);
        lines
    }

    /// The warnings of [`feed`](CommittedParser::feed) calls since the last time.
    pub fn take_warnings(&mut self) -> (r: Vec<ParseWarning>)
        ensures
            views::of(r@) == old(self)@.warnings,
            final(self)@ == (CommittedV { warnings: Seq::empty(), ..old(self)@ }),
            in_step(old(self)@) ==> in_step(final(self)@),
    {
        let mut warnings: Vec<ParseWarning> = Vec::new();
        std::mem::swap(&mut warnings, &mut self.warnings);
        warnings
    }

    /// The wrapped [`ParseState`]. Whenever its
    /// [`speculative_lines`](ParseState::speculative_lines) are `0`, a clone of it,
    /// along with the scope stack so far, is all that is needed to parse on from
    /// here later.
    pub fn state(&self) -> (r: &ParseState)
        ensures
            r@ == self@.state,
    {
        &self.state
    }
}

/// A fresh parser is in step.
pub proof fn law_fresh_parser(syntax: SyntaxReference)
    ensures
        in_step(
            CommittedV {
                state: parser::initial(parser::start_level(syntax)),
                buffered: Seq::empty(),
                warnings: Seq::empty(),
            },
        ),
{
    window::law_fresh_state(syntax);
    assert(parser::initial(parser::start_level(syntax)).pending_line_ops =~= Seq::<
        Seq<Op>,
    >::empty());
}

/// A parser that is in step can be fed any line whose parse comes to an end, and
/// stays in step, as long as no error comes: a revision replaces all that is
/// buffered, and nothing that was handed back.
pub proof fn law_feed_keeps_step(ss: Seq<SyntaxReference>, cp: CommittedV, line: Seq<char>)
    requires
        in_step(cp),
        cp.buffered.len() < usize::MAX,
        parser::terminates(ss, cp.state, line),
    ensures
        ({
            let (next, r) = parser::output_of(ss, cp.state, line);
            &&& fits(cp.buffered, r)
            &&& r matches Ok(out) ==> {
                &&& in_step(fed(ss, cp, line).0)
                &&& out.revised matches Some(lines) ==> lines.len() == cp.buffered.len()
            }
        }),
{
    let fuel = parser::enough(ss, cp.state, line);
    let (next, r) = parser::output_of(ss, cp.state, line);
    if r is Ok {
        window::law_revision_covers_window(fuel, ss, cp.state, line);
        window::lemma_window_ops(fuel, ss, cp.state, line);
        let out = r->Ok_0;
        if let Some(lines) = out.revised {
            assert(cp.buffered.subrange(0, 0) + lines =~= lines);
        }
    }
}

/// A parser that is in step hands back nothing while lines are open, and all of
/// them, with the new line, once none is.
pub proof fn law_feed_hands_back(ss: Seq<SyntaxReference>, cp: CommittedV, line: Seq<char>)
    requires
        in_step(cp),
        cp.buffered.len() < usize::MAX,
        parser::terminates(ss, cp.state, line),
    ensures
        fed(ss, cp, line).1 matches Ok(batch) ==> hands_back(
            cp,
            fed(ss, cp, line).0,
            parser::output_of(ss, cp.state, line).1->Ok_0,
            batch,
        ),
{
    law_feed_keeps_step(ss, cp, line);
    let (next, r) = parser::output_of(ss, cp.state, line);
    if let Ok(out) = r {
        let lines = extended(cp.buffered, out);
        assert(lines.drop_last() =~= match out.revised {
            Some(revised) => revised,
            None => cp.buffered,
        });
    }
}

/// What a consumer of `parse_line` has once it has parsed `lines[i..]`: the state
/// and, starting from `log`, the operations of every line, revised as it was
/// told. `None` where a line fails or its parse does not come to an end.
#[verifier::opaque]
pub open spec fn parsed_eagerly(
    ss: Seq<SyntaxReference>,
    st: StateV,
    lines: Seq<Seq<char>>,
    i: int,
    log: Seq<Seq<Op>>,
) -> Option<(StateV, Seq<Seq<Op>>)>
    decreases lines.len() - i,
{
    if i < 0 || i >= lines.len() {
        Some((st, log))
    } else if !parser::terminates(ss, st, lines[i]) {
        None
    } else {
        match parser::output_of(ss, st, lines[i]) {
            (_, Err(_)) => None,
            (next, Ok(out)) => parsed_eagerly(ss, next, lines, i + 1, extended(log, out)),
        }
    }
}

/// One line of [`parsed_eagerly`].
pub(crate) proof fn lemma_eager_step(
    ss: Seq<SyntaxReference>,
    st: StateV,
    lines: Seq<Seq<char>>,
    i: int,
    log: Seq<Seq<Op>>,
)
    requires
        0 <= i <= lines.len(),
    ensures
        parsed_eagerly(ss, st, lines, i, log) == if i == lines.len() {
            Some((st, log))
        } else if !parser::terminates(ss, st, lines[i]) {
            None
        } else {
            match parser::output_of(ss, st, lines[i]) {
                (_, Err(_)) => None,
                (next, Ok(out)) => parsed_eagerly(ss, next, lines, i + 1, extended(log, out)),
            }
        },
{
    reveal(parsed_eagerly);
}

/// What a consumer of `feed` has once it has fed `lines[i..]`: the parser and,
/// starting from `handed`, the operations that were handed back.
#[verifier::opaque]
pub open spec fn parsed_committed(
    ss: Seq<SyntaxReference>,
    cp: CommittedV,
    lines: Seq<Seq<char>>,
    i: int,
    handed: Seq<Seq<Op>>,
) -> Option<(CommittedV, Seq<Seq<Op>>)>
    decreases lines.len() - i,
{
    if i < 0 || i >= lines.len() {
        Some((cp, handed))
    } else if !parser::terminates(ss, cp.state, lines[i]) {
        None
    } else {
        match fed(ss, cp, lines[i]) {
            (_, Err(_)) => None,
            (next, Ok(batch)) => parsed_committed(ss, next, lines, i + 1, handed + batch),
        }
    }
}

/// What `feed` hands back, with what `finish` then drains, is what a consumer of
/// `parse_line` ends up with after all revisions: every line once, in order. What
/// was handed back before is never touched again.
#[verifier::rlimit(40)]
pub proof fn law_every_line_once(
    ss: Seq<SyntaxReference>,
    cp: CommittedV,
    lines: Seq<Seq<char>>,
    i: int,
    handed: Seq<Seq<Op>>,
)
    requires
        in_step(cp),
        0 <= i <= lines.len(),
        cp.buffered.len() + lines.len() - i < usize::MAX,
    ensures
        ({
            let eager = parsed_eagerly(ss, cp.state, lines, i, handed + cp.buffered);
            let late = parsed_committed(ss, cp, lines, i, handed);
            &&& eager is Some <==> late is Some
            &&& late matches Some((end, all)) ==> {
                &&& eager == Some((end.state, all + end.buffered))
                &&& in_step(end)
                &&& (all + end.buffered).len() == handed.len() + cp.buffered.len() + lines.len() - i
                &&& handed.is_prefix_of(all)
            }
        }),
    decreases lines.len() - i,
{
    reveal(parsed_eagerly);
    reveal(parsed_committed);
    if i < lines.len() && parser::terminates(ss, cp.state, lines[i]) {
        law_feed_keeps_step(ss, cp, lines[i]);
        let (next, r) = parser::output_of(ss, cp.state, lines[i]);
        if let Ok(out) = r {
            let log = handed + cp.buffered;
            let (cp1, batch) = fed(ss, cp, lines[i]);
            let handed1 = handed + batch->Ok_0;
            if let Some(revised) = out.revised {
                assert(log.subrange(0, log.len() - revised.len()) =~= handed);
            }
            assert(handed1 + cp1.buffered =~= extended(log, out));
            law_every_line_once(ss, cp1, lines, i + 1, handed1);
            if let Some((end, all)) = parsed_committed(ss, cp1, lines, i + 1, handed1) {
                assert(handed1.subrange(0, handed.len() as int) =~= handed);
                assert(handed.is_prefix_of(all));
            }
        }
    }
}

/// A parser from its first line on: whatever `feed` hands back for `lines`, followed
/// by what `finish` drains, is one list for every line, the one that a consumer of
/// `parse_line` ends up with; and the wrapped state is the one that it has.
pub proof fn law_committed_matches_raw(
    ss: Seq<SyntaxReference>,
    syntax: SyntaxReference,
    lines: Seq<Seq<char>>,
)
    requires
        lines.len() < usize::MAX,
    ensures
        ({
            let st = parser::initial(parser::start_level(syntax));
            let cp = CommittedV { state: st, buffered: Seq::empty(), warnings: Seq::empty() };
            let eager = parsed_eagerly(ss, st, lines, 0, Seq::empty());
            let late = parsed_committed(ss, cp, lines, 0, Seq::empty());
            &&& eager is Some <==> late is Some
            &&& late matches Some((end, all)) ==> {
                &&& eager == Some((end.state, all + end.buffered))
                &&& (all + end.buffered).len() == lines.len()
            }
        }),
{
    let st = parser::initial(parser::start_level(syntax));
    let cp = CommittedV { state: st, buffered: Seq::empty(), warnings: Seq::empty() };
    law_fresh_parser(syntax);
    let none = Seq::<Seq<Op>>::empty();
    assert(none + cp.buffered =~= none);
    law_every_line_once(ss, cp, lines, 0, none);
}

/// The wrapped state goes the way of a state that parses the same lines, whatever
/// is buffered.
pub proof fn law_state_is_the_raw_state(
    ss: Seq<SyntaxReference>,
    cp: CommittedV,
    lines: Seq<Seq<char>>,
    i: int,
    handed: Seq<Seq<Op>>,
    log: Seq<Seq<Op>>,
)
    requires
        0 <= i <= lines.len(),
    ensures
        match parsed_committed(ss, cp, lines, i, handed) {
            None => parsed_eagerly(ss, cp.state, lines, i, log) is None,
            Some((end, _)) => parsed_eagerly(ss, cp.state, lines, i, log) matches Some((st, _))
                && st == end.state,
        },
    decreases lines.len() - i,
{
    reveal(parsed_eagerly);
    reveal(parsed_committed);
    if i < lines.len() && parser::terminates(ss, cp.state, lines[i]) {
        if let (next, Ok(out)) = parser::output_of(ss, cp.state, lines[i]) {
            let (cp1, batch) = fed(ss, cp, lines[i]);
            law_state_is_the_raw_state(
                ss,
                cp1,
                lines,
                i + 1,
                handed + batch->Ok_0,
                extended(log, out),
            );
        }
    }
}

/// The warnings that `parse_line` reports for `lines[i..]`, one after the other.
#[verifier::opaque]
pub open spec fn warned(ss: Seq<SyntaxReference>, st: StateV, lines: Seq<Seq<char>>, i: int) -> Seq<
    WarningV,
>
    decreases lines.len() - i,
{
    if i < 0 || i >= lines.len() || !parser::terminates(ss, st, lines[i]) {
        Seq::empty()
    } else {
        match parser::output_of(ss, st, lines[i]) {
            (_, Err(_)) => Seq::empty(),
            (next, Ok(out)) => out.warnings + warned(ss, next, lines, i + 1),
        }
    }
}

/// The warnings that are kept are those that `parse_line` reported, in order, none
/// lost and none twice: what was kept before, then those of the lines fed since.
pub proof fn law_warnings_are_kept_in_order(
    ss: Seq<SyntaxReference>,
    cp: CommittedV,
    lines: Seq<Seq<char>>,
    i: int,
    handed: Seq<Seq<Op>>,
)
    requires
        0 <= i <= lines.len(),
    ensures
        parsed_committed(ss, cp, lines, i, handed) matches Some((end, _)) ==> end.warnings
            == cp.warnings + warned(ss, cp.state, lines, i),
    decreases lines.len() - i,
{
    reveal(parsed_committed);
    reveal(warned);
    if i < lines.len() && parser::terminates(ss, cp.state, lines[i]) {
        if let (next, Ok(out)) = parser::output_of(ss, cp.state, lines[i]) {
            let (cp1, batch) = fed(ss, cp, lines[i]);
            law_warnings_are_kept_in_order(ss, cp1, lines, i + 1, handed + batch->Ok_0);
            assert((cp.warnings + out.warnings) + warned(ss, next, lines, i + 1) =~= cp.warnings + (
            out.warnings + warned(ss, next, lines, i + 1)));
        }
    } else {
        assert(cp.warnings + Seq::<WarningV>::empty() =~= cp.warnings);
    }
}

/// Between two lines the parser is speculative exactly if lines are open. If it is
/// not, the next call revises nothing, and no later call revises a line parsed so
/// far.
pub proof fn law_speculation_is_what_is_open(
    ss: Seq<SyntaxReference>,
    st: StateV,
    lines: Seq<Seq<char>>,
    log: Seq<Seq<Op>>,
)
    requires
        window::between_lines(st),
        lines.len() < usize::MAX,
    ensures
        st.branch_points.len() > 0 <==> parser::open_lines(st) > 0,
        st.branch_points.len() == 0 ==> {
            &&& lines.len() > 0 && parser::terminates(ss, st, lines[0]) ==> (parser::output_of(
                ss,
                st,
                lines[0],
            ).1 matches Ok(out) ==> out.revised is None)
            &&& parsed_eagerly(ss, st, lines, 0, log) matches Some((_, all)) ==> log.is_prefix_of(
                all,
            )
        },
{
    window::law_speculative_means_open(st);
    if st.branch_points.len() == 0 {
        law_closed_lines_are_final(ss, st, lines, log);
        if lines.len() > 0 && parser::terminates(ss, st, lines[0]) {
            let fuel = parser::enough(ss, st, lines[0]);
            if parser::output_of(ss, st, lines[0]).1 is Ok {
                window::law_revision_covers_window(fuel, ss, st, lines[0]);
            }
        }
    }
}

/// Whenever no lines are open, what a consumer of `parse_line` has so far is
/// final: no later line revises it.
pub proof fn law_closed_lines_are_final(
    ss: Seq<SyntaxReference>,
    st: StateV,
    lines: Seq<Seq<char>>,
    log: Seq<Seq<Op>>,
)
    requires
        window::between_lines(st),
        parser::open_lines(st) == 0,
        lines.len() < usize::MAX,
    ensures
        parsed_eagerly(ss, st, lines, 0, log) matches Some((_, all)) ==> log.is_prefix_of(all)
            && all.len() == log.len() + lines.len(),
{
    let cp = CommittedV { state: st, buffered: Seq::empty(), warnings: Seq::empty() };
    assert(st.pending_line_ops =~= Seq::<Seq<Op>>::empty());
    assert(log + cp.buffered =~= log);
    law_every_line_once(ss, cp, lines, 0, log);
}

proof fn lemma_handed_in_front(
    ss: Seq<SyntaxReference>,
    cp: CommittedV,
    lines: Seq<Seq<char>>,
    i: int,
    before: Seq<Seq<Op>>,
    handed: Seq<Seq<Op>>,
)
    ensures
        match parsed_committed(ss, cp, lines, i, handed) {
            None => parsed_committed(ss, cp, lines, i, before + handed) is None,
            Some((end, all)) => parsed_committed(ss, cp, lines, i, before + handed) == Some(
                (end, before + all),
            ),
        },
    decreases lines.len() - i,
{
    reveal(parsed_committed);
    if 0 <= i < lines.len() && parser::terminates(ss, cp.state, lines[i]) {
        if let (next, Ok(batch)) = fed(ss, cp, lines[i]) {
            assert((before + handed) + batch =~= before + (handed + batch));
            lemma_handed_in_front(ss, next, lines, i + 1, before, handed + batch);
        }
    }
}

proof fn lemma_same_log(
    ss: Seq<SyntaxReference>,
    cp: CommittedV,
    lines: Seq<Seq<char>>,
    handed: Seq<Seq<Op>>,
)
    requires
        in_step(cp),
        cp.buffered.len() == 0,
        lines.len() < usize::MAX,
    ensures
        match parsed_committed(ss, cp, lines, 0, handed) {
            None => parsed_eagerly(ss, cp.state, lines, 0, handed) is None,
            Some((end, all)) => parsed_eagerly(ss, cp.state, lines, 0, handed) == Some(
                (end.state, all + end.buffered),
            ),
        },
{
    assert(handed + cp.buffered =~= handed);
    law_every_line_once(ss, cp, lines, 0, handed);
}

/// A copy of the state, taken while no lines are open, is all that is needed to
/// parse on: from there the same lines lead to the same state and the same
/// operations, whatever the lines before had.
pub proof fn law_snapshot_resumes(
    ss: Seq<SyntaxReference>,
    st: StateV,
    lines: Seq<Seq<char>>,
    log: Seq<Seq<Op>>,
)
    requires
        window::between_lines(st),
        parser::open_lines(st) == 0,
        lines.len() < usize::MAX,
    ensures
        match parsed_eagerly(ss, st, lines, 0, Seq::empty()) {
            None => parsed_eagerly(ss, st, lines, 0, log) is None,
            Some((end, tail)) => parsed_eagerly(ss, st, lines, 0, log) == Some((end, log + tail)),
        },
{
    let cp = CommittedV { state: st, buffered: Seq::empty(), warnings: Seq::empty() };
    let none = Seq::<Seq<Op>>::empty();
    assert(st.pending_line_ops =~= none);
    assert(in_step(cp));
    lemma_same_log(ss, cp, lines, none);
    lemma_same_log(ss, cp, lines, log);
    assert(log + none =~= log);
    lemma_handed_in_front(ss, cp, lines, 0, log, none);
    if let Some((end, all)) = parsed_committed(ss, cp, lines, 0, none) {
        assert((log + all) + end.buffered =~= log + (all + end.buffered));
    }
}

} // verus!
