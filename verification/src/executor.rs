//! The token loop: pattern search and match execution.

use crate::cache;
use crate::captures;
use crate::emit;
use crate::engine;
use crate::engine::{Cursor, CursorV};
use crate::regex::Region;
use crate::scope::{Op, ScopeStackOp};
use crate::search::RegexMatch;
use crate::state;
use crate::state::{ParseState, StateV};
use crate::syntax;
use crate::syntax::{ContextReference, MatchOperation, MatchPattern, ParsingError, SyntaxSet};
use crate::text;
use crate::views;
use vstd::prelude::*;
use vstd::string::*;

verus! {

broadcast use crate::views::group_views;

fn is_branch(op: &MatchOperation) -> (r: bool)
    ensures
        r == (*op is Branch),
{
    match op {
        MatchOperation::Branch { .. } => true,
        _ => false,
    }
}

impl ParseState {
    /// Parses `line` from the byte `start_at` on, see [`engine::line_parsed`].
    #[verifier::rlimit(40)]
    pub(crate) fn parse_line_inner_from(
        &mut self,
        line: &str,
        syntax_set: &SyntaxSet,
        start_at: usize,
        limit: Option<u64>,
        Ghost(fuel): Ghost<nat>,
    ) -> (r: Option<Result<Vec<Op>, ParsingError>>)
        requires
            syntax::covers(limit, fuel),
            limit is None ==> engine::line_parsed(
                fuel,
                syntax_set@,
                old(self)@,
                line@,
                start_at,
            ) is Some,
        ensures
            engine::line_agrees(
                r,
                final(self)@,
                engine::line_parsed(fuel, syntax_set@, old(self)@, line@, start_at),
            ),
        decreases fuel, 1int, 0int,
    {
        let ghost before = self@;
        let mut cursor = Cursor::at(start_at);
        if start_at == 0 && self.first_line {
            if self.stack.len() == 0 {
                return Some(Err(ParsingError::MissingMainContext));
            }
            let top: usize = self.stack.len() - 1;
            assert(self@.stack.last() == self.stack@[top as int]@);
            let context = match syntax_set.get_context(&self.stack[top].context) {
                Ok(context) => context,
                Err(e) => {
                    return Some(Err(e));
                },
            };
            if context.meta_content_scope.len() > 0 {
                cursor.ops.push((0, ScopeStackOp::Push(context.meta_content_scope[0])));
                assert(cursor.ops@ =~= seq![
                    (0usize, ScopeStackOp::Push(context.meta_content_scope@[0])),
                ]);
            }
            self.first_line = false;
        }
        self.zero_width_escape_fires.clear();
        assert(self@ =~= StateV {
            first_line: before.first_line && start_at != 0,
            zero_width_escape_fires: Map::empty(),
            ..before
        });
        self.parse_tokens(line, cursor, syntax_set, limit, Ghost(fuel))
    }

    /// Steps until the line is over, see [`engine::tokens_parsed`].
    fn parse_tokens(
        &mut self,
        line: &str,
        from: Cursor,
        syntax_set: &SyntaxSet,
        limit: Option<u64>,
        Ghost(fuel): Ghost<nat>,
    ) -> (r: Option<Result<Vec<Op>, ParsingError>>)
        requires
            syntax::covers(limit, fuel),
            limit is None ==> engine::tokens_parsed(
                fuel,
                syntax_set@,
                line@,
                old(self)@,
                from@,
            ) is Some,
        ensures
            engine::line_agrees(
                r,
                final(self)@,
                engine::tokens_parsed(fuel, syntax_set@, line@, old(self)@, from@),
            ),
        decreases fuel, 0int, 0int,
    {
        let ghost goal = engine::tokens_parsed(fuel, syntax_set@, line@, self@, from@);
        let mut cursor = from;
        let mut left = limit;
        let ghost mut rest = fuel;
        loop
            invariant
                rest <= fuel,
                syntax::covers(left, rest),
                left is None ==> goal is Some,
                goal == engine::tokens_parsed(fuel, syntax_set@, line@, old(self)@, from@),
                goal == engine::tokens_parsed(rest, syntax_set@, line@, self@, cursor@),
            decreases rest,
        {
            if let Some(n) = left {
                if n == 0 {
                    return None;
                }
                left = Some(n - 1);
            }
            proof {
                rest = (rest - 1) as nat;
            }
            match self.parse_next_token(line, &mut cursor, syntax_set, left, Ghost(rest)) {
                None => {
                    return None;
                },
                Some(Err(e)) => {
                    return Some(Err(e));
                },
                Some(Ok(more)) => {
                    if !more {
                        return Some(Ok(cursor.ops));
                    }
                },
            }
        }
    }

    /// Drops the starts that no longer lie below the top, see
    /// [`engine::trimmed`].
    fn trim_proto_starts(&mut self)
        ensures
            final(self)@ == (StateV {
                proto_starts: engine::trimmed(
                    old(self)@.proto_starts,
                    old(self)@.stack.len() as int,
                ),
                ..old(self)@
            }),
    {
        let ghost before = self@;
        while self.proto_starts.len() > 0 && self.proto_starts[self.proto_starts.len() - 1]
            >= self.stack.len()
            invariant
                before == old(self)@,
                self@ == (StateV { proto_starts: self@.proto_starts, ..before }),
                engine::trimmed(self@.proto_starts, before.stack.len() as int)
                    == engine::trimmed(before.proto_starts, before.stack.len() as int),
            decreases self.proto_starts@.len(),
        {
            let ghost starts = self@.proto_starts;
            self.proto_starts.pop();
            assert(self.proto_starts@ =~= starts.drop_last());
        }
    }

    /// Keeps the exhausted branch points at `pos` or later, or those elsewhere.
    fn retain_skipped(&mut self, pos: usize, elsewhere: bool)
        ensures
            final(self)@ == (StateV {
                skipped_branches: old(self)@.skipped_branches.filter(
                    engine::skip_stays(pos, elsewhere),
                ),
                ..old(self)@
            }),
    {
        let ghost before = self@;
        let ghost keep = engine::skip_stays(pos, elsewhere);
        let mut kept: Vec<(usize, String)> = Vec::new();
        proof {
            reveal(Seq::filter);
            assert(before.skipped_branches.subrange(0, 0) =~= Seq::empty());
        }
        for i in 0..self.skipped_branches.len()
            invariant
                self@ == before,
                before.skipped_branches == views::of(self.skipped_branches@),
                keep == engine::skip_stays(pos, elsewhere),
                views::of(kept@) == before.skipped_branches.subrange(0, i as int).filter(keep),
        {
            proof {
                views::lemma_filter_step(before.skipped_branches, i as int, keep);
            }
            let entry = &self.skipped_branches[i];
            assert(before.skipped_branches[i as int] == (entry.0, entry.1@));
            let stays = if elsewhere {
                entry.0 != pos
            } else {
                entry.0 >= pos
            };
            if stays {
                kept.push((entry.0, entry.1.clone()));
            }
        }
        assert(before.skipped_branches.subrange(0, before.skipped_branches.len() as int)
            =~= before.skipped_branches);
        self.skipped_branches = kept;
    }

    /// Whether a branch point is exhausted at `pos`.
    fn skips_at(&self, pos: usize) -> (r: bool)
        ensures
            r == exists|i: int|
                0 <= i < self@.skipped_branches.len() && (#[trigger] self@.skipped_branches[i]).0
                    == pos,
    {
        for i in 0..self.skipped_branches.len()
            invariant
                forall|k: int|
                    0 <= k < i ==> (#[trigger] self@.skipped_branches[k]).0 != pos,
        {
            assert(self@.skipped_branches[i as int].0 == self.skipped_branches@[i as int].0);
            if self.skipped_branches[i].0 == pos {
                return true;
            }
        }
        false
    }

    /// What happens where no rule matches, see [`engine::nothing_found`].
    fn pass_over(&mut self, line: &str, cursor: &mut Cursor) -> (r: bool)
        ensures
            engine::step_agrees(
                Some(Ok(r)),
                final(self)@,
                final(cursor)@,
                Some(engine::nothing_found(line@, old(self)@, old(cursor)@)),
            ),
    {
        if self.skips_at(cursor.start) {
            self.retain_skipped(cursor.start, true);
            match text::next_char_start(line, cursor.start) {
                Some(n) => {
                    cursor.start = n;
                    cache::clear(&mut cursor.search_cache);
                    true
                },
                None => false,
            }
        } else {
            false
        }
    }

    /// Executes an escape match, see [`engine::escape_step`].
    #[verifier::rlimit(40)]
    fn take_escape(
        &mut self,
        line: &str,
        cursor: &mut Cursor,
        found: &RegexMatch,
        syntax_set: &SyntaxSet,
    ) -> (r: Result<bool, ParsingError>)
        ensures
            engine::step_agrees(
                Some(r),
                final(self)@,
                final(cursor)@,
                Some(
                    engine::escape_step(
                        syntax_set@,
                        line@,
                        old(self)@,
                        old(cursor)@,
                        found@,
                    ),
                ),
            ),
    {
        broadcast use vstd::std_specs::hash::group_hash_axioms;

        let (first, last) = found.regions.whole_match();
        if first == last && self.fires(first) >= engine::ZERO_WIDTH_ESCAPE_FIRE_LIMIT {
            return Ok(cursor.advance(line));
        }
        cursor.start = last;
        match self.exec_escape(
            found.escape_index,
            first,
            &found.regions,
            syntax_set,
            &mut cursor.ops,
        ) {
            Ok(_) => {},
            Err(e) => {
                return Err(e);
            },
        }
        if first == last {
            let n: u32 = self.fires(first);
            self.zero_width_escape_fires.insert(first, n.saturating_add(1));
        }
        cache::clear(&mut cursor.search_cache);
        Ok(true)
    }

    /// See [`engine::fires_at`].
    fn fires(&self, pos: usize) -> (r: u32)
        ensures
            r == engine::fires_at(self@, pos),
    {
        broadcast use vstd::std_specs::hash::group_hash_axioms;

        match self.zero_width_escape_fires.get(&pos) {
            Some(n) => *n,
            None => 0,
        }
    }

    /// Executes a match of a rule, see [`engine::executed`].
    fn exec_pattern(
        &mut self,
        line: &str,
        cursor: &mut Cursor,
        pat: &MatchPattern,
        region: &Region,
        syntax_set: &SyntaxSet,
        limit: Option<u64>,
        Ghost(fuel): Ghost<nat>,
    ) -> (r: Option<Result<bool, ParsingError>>)
        requires
            syntax::covers(limit, fuel),
            limit is None ==> engine::executed(
                fuel,
                syntax_set@,
                line@,
                old(self)@,
                old(cursor)@,
                *pat,
                region@,
            ) is Some,
        ensures
            engine::step_agrees(
                r,
                final(self)@,
                final(cursor)@,
                engine::executed(
                    fuel,
                    syntax_set@,
                    line@,
                    old(self)@,
                    old(cursor)@,
                    *pat,
                    region@,
                ),
            ),
        decreases fuel, 6int, 0int,
    {
        match &pat.operation {
            MatchOperation::Fail(name) => {
                self.handle_fail(name, line, cursor, syntax_set, limit, Ghost(fuel))
            },
            MatchOperation::Branch { name, alternatives, pop_count } => {
                Some(
                    self.exec_branch(
                        line,
                        cursor,
                        pat,
                        name,
                        alternatives,
                        *pop_count,
                        region,
                        syntax_set,
                    ),
                )
            },
            _ => Some(self.exec_rule(line, cursor, pat, region, syntax_set)),
        }
    }

    /// Executes a match of a branch point: records it and takes its first
    /// alternative.
    #[verifier::rlimit(40)]
    fn exec_branch(
        &mut self,
        line: &str,
        cursor: &mut Cursor,
        pat: &MatchPattern,
        name: &String,
        alternatives: &Vec<ContextReference>,
        pop_count: usize,
        region: &Region,
        syntax_set: &SyntaxSet,
    ) -> (r: Result<bool, ParsingError>)
        requires
            pat.operation == (MatchOperation::Branch {
                name: *name,
                alternatives: *alternatives,
                pop_count,
            }),
        ensures
            engine::step_agrees(
                Some(r),
                final(self)@,
                final(cursor)@,
                engine::executed(
                    0,
                    syntax_set@,
                    line@,
                    old(self)@,
                    old(cursor)@,
                    *pat,
                    region@,
                ),
            ),
    {
        let ghost before = self@;
        let bp = self.snapshot_branch(cursor, pat, name, alternatives, pop_count, region);
        let capture_ops = state::clone_ops(&bp.capture_ops);
        self.add_branch(bp);
        let mut refs: Vec<ContextReference> = Vec::new();
        if alternatives.len() > 0 {
            refs.push(alternatives[0].clone());
        }
        assert(views::of(refs@) =~= engine::first_alternative(views::of(alternatives@)));
        let (first, last) = region.whole_match();
        match self.emit_branch(
            first,
            last,
            &pat.scope,
            &capture_ops,
            &refs,
            pop_count,
            syntax_set,
            &mut cursor.ops,
        ) {
            Ok(_) => {},
            Err(e) => {
                return Err(e);
            },
        }
        self.perform_push(line, region, &refs, pop_count, &pat.with_prototype, syntax_set)
    }

    /// Executes a match of a rule that is no `fail` and no branch.
    #[verifier::rlimit(40)]
    fn exec_rule(
        &mut self,
        line: &str,
        cursor: &mut Cursor,
        pat: &MatchPattern,
        region: &Region,
        syntax_set: &SyntaxSet,
    ) -> (r: Result<bool, ParsingError>)
        requires
            !(pat.operation is Fail),
            !(pat.operation is Branch),
        ensures
            engine::step_agrees(
                Some(r),
                final(self)@,
                final(cursor)@,
                engine::executed(
                    0,
                    syntax_set@,
                    line@,
                    old(self)@,
                    old(cursor)@,
                    *pat,
                    region@,
                ),
            ),
    {
        if self.stack.len() == 0 {
            return Err(ParsingError::MissingMainContext);
        }
        let top: usize = self.stack.len() - 1;
        assert(self@.stack.last() == self.stack@[top as int]@);
        let context = match syntax_set.get_context(&self.stack[top].context) {
            Ok(context) => context,
            Err(e) => {
                return Err(e);
            },
        };
        let (first, last) = region.whole_match();
        match self.push_meta_ops(
            true,
            first,
            context,
            &pat.operation,
            syntax_set,
            &mut cursor.ops,
        ) {
            Ok(_) => {},
            Err(e) => {
                return Err(e);
            },
        }
        emit::emit_pushes(&mut cursor.ops, first, &pat.scope);
        let capture_ops = captures::build_capture_ops(&pat.captures, region, true);
        emit::emit_all(&mut cursor.ops, &capture_ops);
        emit::emit_pop(&mut cursor.ops, last, pat.scope.len());
        match self.push_meta_ops(
            false,
            last,
            context,
            &pat.operation,
            syntax_set,
            &mut cursor.ops,
        ) {
            Ok(_) => {},
            Err(e) => {
                return Err(e);
            },
        }
        self.perform_op(line, region, &pat.operation, &pat.with_prototype, syntax_set)
    }

    /// Remembers a push that consumes nothing, see [`engine::marked`].
    fn mark_push(&self, cursor: &mut Cursor, op: &MatchOperation, last: usize)
        ensures
            final(cursor)@ == (CursorV {
                push_mark: engine::marked(old(cursor)@, *op, last, self@.stack.len()),
                ..old(cursor)@
            }),
    {
        if last <= cursor.start {
            let width: usize = match op {
                MatchOperation::Push { ctx_refs, pop_count: _ } => ctx_refs.len(),
                MatchOperation::Branch { name: _, alternatives: _, pop_count: _ } => 1,
                MatchOperation::Embed { contexts, escape: _, pop_count: _ } => contexts.len(),
                _ => 0,
            };
            if width > 0 {
                let depth: usize = self.stack.len();
                cursor.push_mark = (last, depth, depth.saturating_add(width));
            }
        }
    }

    /// See [`engine::rule_entry`].
    fn enter_rule(&mut self, found: &RegexMatch)
        ensures
            final(self)@ == engine::rule_entry(old(self)@, found@),
    {
        let last: usize = found.regions.whole_match().1;
        self.retain_skipped(last, false);
        if found.from_with_prototype {
            let depth: usize = self.stack.len();
            self.proto_starts.push(depth);
        }
    }

    /// Executes a match that would not loop, see [`engine::rule_step`].
    #[verifier::rlimit(40)]
    fn take_rule(
        &mut self,
        line: &str,
        cursor: &mut Cursor,
        pat: &MatchPattern,
        found: &RegexMatch,
        syntax_set: &SyntaxSet,
        limit: Option<u64>,
        Ghost(fuel): Ghost<nat>,
    ) -> (r: Option<Result<bool, ParsingError>>)
        requires
            syntax::covers(limit, fuel),
            limit is None ==> engine::rule_step(
                fuel,
                syntax_set@,
                line@,
                old(self)@,
                old(cursor)@,
                *pat,
                found@,
            ) is Some,
        ensures
            engine::step_agrees(
                r,
                final(self)@,
                final(cursor)@,
                engine::rule_step(
                    fuel,
                    syntax_set@,
                    line@,
                    old(self)@,
                    old(cursor)@,
                    *pat,
                    found@,
                ),
            ),
        decreases fuel, 7int, 0int,
    {
        if let MatchOperation::Fail(_) = &pat.operation {
            return self.exec_pattern(
                line,
                cursor,
                pat,
                &found.regions,
                syntax_set,
                limit,
                Ghost(fuel),
            );
        }
        let last: usize = found.regions.whole_match().1;
        let consuming = last > cursor.start;
        self.mark_push(cursor, &pat.operation, last);
        if !consuming && is_branch(&pat.operation) && self.replay_ctx.is_some() && last
            >= line.len() {
            return Some(Ok(false));
        }
        cursor.start = last;
        self.enter_rule(found);
        match self.exec_pattern(
            line,
            cursor,
            pat,
            &found.regions,
            syntax_set,
            limit,
            Ghost(fuel),
        ) {
            None => None,
            Some(Err(e)) => Some(Err(e)),
            Some(Ok(_)) => Some(Ok(true)),
        }
    }

    /// One step of the token loop, see [`engine::stepped`].
    #[verifier::rlimit(40)]
    fn parse_next_token(
        &mut self,
        line: &str,
        cursor: &mut Cursor,
        syntax_set: &SyntaxSet,
        limit: Option<u64>,
        Ghost(fuel): Ghost<nat>,
    ) -> (r: Option<Result<bool, ParsingError>>)
        requires
            syntax::covers(limit, fuel),
            limit is None ==> engine::stepped(
                fuel,
                syntax_set@,
                line@,
                old(self)@,
                old(cursor)@,
            ) is Some,
        ensures
            engine::step_agrees(
                r,
                final(self)@,
                final(cursor)@,
                engine::stepped(fuel, syntax_set@, line@, old(self)@, old(cursor)@),
            ),
        decreases fuel, 8int, 0int,
    {
        let (pos, pre, post) = cursor.push_mark;
        let armed = pos == cursor.start && pre < self.stack.len() && self.stack.len() <= post;
        self.trim_proto_starts();
        let best = match self.find_best_match(
            line,
            cursor.start,
            syntax_set,
            &mut cursor.search_cache,
            armed,
            pre,
            limit,
            Ghost(fuel),
        ) {
            None => {
                return None;
            },
            Some(Err(e)) => {
                return Some(Err(e));
            },
            Some(Ok(best)) => best,
        };
        let found = match best {
            Some(found) => found,
            None => {
                return Some(Ok(self.pass_over(line, cursor)));
            },
        };
        let (context_id, index) = match found.rule {
            Some(rule) => rule,
            None => {
                return Some(self.take_escape(line, cursor, &found, syntax_set));
            },
        };
        if found.would_loop {
            return Some(Ok(cursor.advance(line)));
        }
        let context = match syntax_set.get_context(&context_id) {
            Ok(context) => context,
            Err(e) => {
                return Some(Err(e));
            },
        };
        let pat = match context.match_at(index) {
            Ok(pat) => pat,
            Err(e) => {
                return Some(Err(e));
            },
        };
        self.take_rule(line, cursor, pat, &found, syntax_set, limit, Ghost(fuel))
    }
}

} // verus!
