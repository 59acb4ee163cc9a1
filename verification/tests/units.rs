//! The parts of the parser, on syntaxes built by hand.

use syntect::captures::build_capture_ops;
use syntect::regex::{substitute_backrefs_in_regex, Expression, Region};
use syntect::repository::{ScopeRepository, ScopeTextError};
use syntect::scope::{ClearAmount, Op, ScopeError};
use syntect::syntax::{
    Context, ContextId, ContextReference, EmbedEscape, MatchOperation, MatchPattern, Pattern,
};
use syntect::text::{is_blank_line, next_char_start, slice_of};
use syntect::{
    CommittedParser, ParseLineOutput, ParseState, ParseWarning, ParsingError, Scope, ScopeStack,
    ScopeStackOp, SyntaxReference, SyntaxSet,
};

fn id(context_index: usize) -> ContextId {
    ContextId {
        syntax_index: 0,
        context_index,
    }
}

fn to(context_index: usize) -> ContextReference {
    ContextReference::Direct(id(context_index))
}

fn push(context_index: usize) -> MatchOperation {
    MatchOperation::Push {
        ctx_refs: vec![to(context_index)],
        pop_count: 0,
    }
}

fn rule(regex: &str, scopes: Vec<Scope>, operation: MatchOperation) -> Pattern {
    Pattern::Match(MatchPattern::new(
        false,
        regex.to_owned(),
        scopes,
        None,
        operation,
        None,
    ))
}

fn context(patterns: Vec<Pattern>) -> Context {
    Context {
        meta_scope: Vec::new(),
        meta_content_scope: Vec::new(),
        clear_scopes: None,
        prototype: None,
        uses_backrefs: false,
        patterns,
        embed_scope_replaces: false,
    }
}

/// A set of one syntax that starts in its first context.
fn set(scope: Scope, contexts: Vec<Context>) -> SyntaxSet {
    SyntaxSet::new(vec![SyntaxReference {
        name: "test".to_owned(),
        scope,
        version: 1,
        start: id(0),
        contexts,
    }])
}

fn no_scope() -> Scope {
    ScopeRepository::new().build("").unwrap()
}

fn fresh(ss: &SyntaxSet) -> ParseState {
    ParseState::new(&ss.syntaxes()[0])
}

/// `TRY` opens a branch point; a `FAIL`, possibly on a later line, refutes its
/// first alternative.
fn speculating() -> (SyntaxSet, Scope, Scope) {
    let mut scopes = ScopeRepository::new();
    let tried = scopes.build("tried.word").unwrap();
    let other = scopes.build("other.content").unwrap();
    let ss = set(
        no_scope(),
        vec![
            context(vec![rule(
                "TRY",
                Vec::new(),
                MatchOperation::Branch {
                    name: "bp".to_owned(),
                    alternatives: vec![to(1), to(2)],
                    pop_count: 0,
                },
            )]),
            context(vec![
                rule(r"\n", Vec::new(), MatchOperation::Nothing),
                rule("FAIL", Vec::new(), MatchOperation::Fail("bp".to_owned())),
                rule(r"\w+", vec![tried], MatchOperation::Nothing),
            ]),
            context(vec![rule(".*", vec![other], MatchOperation::Pop(1))]),
        ],
    );
    (ss, tried, other)
}

#[test]
fn popping_everything_is_an_error() {
    let ss = set(
        no_scope(),
        vec![context(vec![rule("x", Vec::new(), MatchOperation::Pop(1))])],
    );
    let mut state = fresh(&ss);
    assert!(matches!(
        state.parse_line("x\n", &ss),
        Err(ParsingError::MissingMainContext)
    ));
    assert!(matches!(
        state.parse_line("x\n", &ss),
        Err(ParsingError::MissingMainContext)
    ));
}

#[test]
fn a_missing_context_is_an_error() {
    let ss = set(
        no_scope(),
        vec![context(vec![rule("x", Vec::new(), push(7))])],
    );
    let mut state = fresh(&ss);
    match state.parse_line("x\n", &ss) {
        Err(ParsingError::MissingContext(missing)) => assert_eq!(missing, id(7)),
        other => panic!("{:?}", other.map(|out| out.ops)),
    }
    assert!(ss.get_context(&id(7)).is_err());
    assert!(ss.get_context(&id(0)).is_ok());
}

#[test]
fn an_unlinked_reference_is_an_error() {
    let nowhere = ContextReference::Named("nowhere".to_owned());
    let ss = set(
        no_scope(),
        vec![context(vec![rule(
            "x",
            Vec::new(),
            MatchOperation::Push {
                ctx_refs: vec![nowhere.clone()],
                pop_count: 0,
            },
        )])],
    );
    let mut state = fresh(&ss);
    match state.parse_line("x\n", &ss) {
        Err(ParsingError::UnresolvedContextReference(r)) => assert_eq!(r, nowhere),
        other => panic!("{:?}", other.map(|out| out.ops)),
    }
    assert!(nowhere.id().is_err());
    assert_eq!(to(3).id().unwrap(), id(3));
}

#[test]
fn only_rules_have_a_match_index() {
    let c = context(vec![
        rule("x", Vec::new(), MatchOperation::Nothing),
        Pattern::Include(to(0)),
    ]);
    assert_eq!(c.match_at(0).unwrap().regex.regex_str(), "x");
    assert!(matches!(
        c.match_at(1),
        Err(ParsingError::BadMatchIndex(1))
    ));
    assert!(matches!(
        c.match_at(2),
        Err(ParsingError::BadMatchIndex(2))
    ));
}

#[test]
fn a_parse_that_takes_too_long_changes_nothing() {
    let endless = set(no_scope(), vec![context(vec![Pattern::Include(to(0))])]);
    let mut state = fresh(&endless);
    let before = state.clone();
    assert!(state.parse_line_within("x\n", &endless, 1000).is_none());
    assert_eq!(state, before);

    let mut committed = CommittedParser::new(&endless.syntaxes()[0]);
    assert!(committed.feed_within("x\n", &endless, 1000).is_none());
    assert_eq!(*committed.state(), before);

    let (ss, _, _) = speculating();
    let mut state = fresh(&ss);
    assert!(state.parse_line_within("TRY ok\n", &ss, 0).is_none());
    let mut twin = state.clone();
    let within = state
        .parse_line_within("TRY ok\n", &ss, 100)
        .unwrap()
        .unwrap();
    let plain = twin.parse_line("TRY ok\n", &ss).unwrap();
    assert_eq!(within.ops, plain.ops);
    assert_eq!(state, twin);
}

#[test]
fn more_steps_change_nothing() {
    let (ss, _, _) = speculating();
    let mut few = 0;
    while fresh(&ss).parse_line_within("TRY a b FAIL\n", &ss, few).is_none() {
        few += 1;
    }
    let mut exact = fresh(&ss);
    let expected = exact
        .parse_line_within("TRY a b FAIL\n", &ss, few)
        .unwrap()
        .unwrap();
    for more in few..few + 20 {
        let mut state = fresh(&ss);
        let out = state
            .parse_line_within("TRY a b FAIL\n", &ss, more)
            .unwrap()
            .unwrap();
        assert_eq!(out.ops, expected.ops);
        assert_eq!(state, exact);
    }
}

#[test]
fn a_revision_replaces_the_open_lines() {
    let (ss, tried, other) = speculating();
    let mut state = fresh(&ss);
    let first = state.parse_line("TRY one\n", &ss).unwrap();
    assert_eq!(
        first.ops,
        vec![(4, ScopeStackOp::Push(tried)), (7, ScopeStackOp::Pop(1))]
    );
    assert!(state.is_speculative());
    assert_eq!(state.speculative_lines(), 1);
    let second = state.parse_line("two\n", &ss).unwrap();
    assert_eq!(second.revised, None);
    assert_eq!(state.speculative_lines(), 2);
    let third = state.parse_line("FAIL\n", &ss).unwrap();
    let revised = third.revised.unwrap();
    assert_eq!(revised.len(), 2);
    assert_eq!(
        revised[0],
        vec![(3, ScopeStackOp::Push(other)), (7, ScopeStackOp::Pop(1))]
    );
    assert_eq!(revised[1], Vec::<Op>::new());
    assert_eq!(third.ops, Vec::<Op>::new());
    assert!(!state.is_speculative());
    assert_eq!(state.speculative_lines(), 0);
}

#[test]
fn operations_come_in_the_order_of_their_positions() {
    let (ss, _, _) = speculating();
    let mut state = fresh(&ss);
    for line in ["a TRY b c d\n", "e TRY f\n", "g FAIL h\n", "TRY i FAIL j\n"] {
        let out = state.parse_line(line, &ss).unwrap();
        let mut lines = out.revised.clone().unwrap_or_default();
        lines.push(out.clone().ops);
        for ops in lines {
            assert!(ops.windows(2).all(|w| w[0].0 <= w[1].0), "{:?}", ops);
        }
    }
}

/// `<` embeds a context that `[` embeds another one in. The escape of the inner one
/// has a group that lies ahead of its match, that of the outer one is `outer_escape`.
fn looking_ahead(outer_escape: &str) -> (SyntaxSet, Scope, Scope) {
    let mut scopes = ScopeRepository::new();
    let inner = scopes.build("inner").unwrap();
    let outer = scopes.build("outer").unwrap();
    let embed = |context: usize, escape: &str, group: usize, scope: Scope| MatchOperation::Embed {
        contexts: vec![to(context)],
        escape: EmbedEscape {
            escape_regex: Expression::new(escape.to_owned(), true),
            has_captures: false,
            escape_captures: Some(vec![(group, vec![scope])]),
        },
        pop_count: 0,
    };
    let ss = set(
        no_scope(),
        vec![
            context(vec![rule("<", Vec::new(), embed(1, outer_escape, 0, outer))]),
            context(vec![rule(r"\[", Vec::new(), embed(2, "a(?=(b))", 1, inner))]),
            context(Vec::new()),
        ],
    );
    (ss, inner, outer)
}

#[test]
fn an_escape_may_colour_what_lies_ahead() {
    let (ss, inner, outer) = looking_ahead("c");
    let mut state = fresh(&ss);
    assert_eq!(state.parse_line("<[", &ss).unwrap().ops, Vec::<Op>::new());
    assert_eq!(
        state.parse_line("abc", &ss).unwrap().ops,
        vec![
            (1, ScopeStackOp::Push(inner)),
            (2, ScopeStackOp::Pop(1)),
            (2, ScopeStackOp::Push(outer)),
            (3, ScopeStackOp::Pop(1)),
        ]
    );
}

#[test]
fn an_operation_is_placed_no_later_than_those_after_it() {
    let (ss, inner, outer) = looking_ahead("b");
    let mut state = fresh(&ss);
    assert_eq!(state.parse_line("<[", &ss).unwrap().ops, Vec::<Op>::new());
    assert_eq!(
        state.parse_line("ab", &ss).unwrap().ops,
        vec![
            (1, ScopeStackOp::Push(inner)),
            (1, ScopeStackOp::Pop(1)),
            (1, ScopeStackOp::Push(outer)),
            (2, ScopeStackOp::Pop(1)),
        ]
    );
}

/// Branch points that refute each other, on one line and across lines, and stay
/// behind when an outer one is taken back.
fn entangled() -> SyntaxSet {
    let mut scopes = ScopeRepository::new();
    let mut scope = |text: &str| scopes.build(text).unwrap();
    let fail = |name: &str| MatchOperation::Fail(name.to_owned());
    let branch = |name: &str, a: usize, b: usize| MatchOperation::Branch {
        name: name.to_owned(),
        alternatives: vec![to(a), to(b)],
        pop_count: 0,
    };
    let mut deeper = context(vec![
        rule("GO", vec![scope("deeper.go")], push(6)),
        rule("KILL", vec![scope("deeper.kill")], fail("inner")),
        rule("FAIL", vec![scope("deeper.fail")], fail("outer")),
        rule("UP", vec![scope("deeper.up")], MatchOperation::Pop(1)),
        rule(r"\w+", vec![scope("deeper.word")], MatchOperation::Nothing),
    ]);
    deeper.meta_scope = vec![scope("meta.deeper")];
    let mut alternative = |word: &str, content: &str| {
        let mut c = context(vec![
            rule("INNER", vec![scope(word)], branch("inner", 3, 4)),
            rule("GO", vec![scope(word)], push(6)),
            rule("KILL", vec![scope(word)], fail("inner")),
            rule("FAIL", vec![scope(word)], fail("outer")),
            rule("UP", vec![scope(word)], MatchOperation::Pop(1)),
            rule(r"\w+", vec![scope(word)], MatchOperation::Nothing),
        ]);
        c.meta_content_scope = vec![scope(content)];
        c
    };
    let contexts = vec![
        context(vec![rule("TRY", Vec::new(), branch("outer", 1, 2))]),
        alternative("outer-a.word", "outer-a"),
        alternative("outer-b.word", "outer-b"),
        alternative("inner-a.word", "inner-a"),
        alternative("inner-b.word", "inner-b"),
        context(Vec::new()),
        deeper,
    ];
    set(no_scope(), contexts)
}

#[test]
fn lines_are_in_order_within_bounds_and_apply() {
    let ss = entangled();
    let words = ["INNER", "GO", "FAIL", "KILL", "UP", "w"];
    let mut revisions = 0;
    for n in 0..words.len().pow(5) * 32 {
        let mut text = "TRY".to_owned();
        let mut rest = n;
        for _ in 0..5 {
            text.push(if rest % 2 == 0 { ' ' } else { '\n' });
            rest /= 2;
            text.push_str(words[rest % words.len()]);
            rest /= words.len();
        }
        let lines: Vec<&str> = text.split_inclusive('\n').collect();
        let mut state = fresh(&ss);
        let mut log: Vec<Vec<Op>> = Vec::new();
        for line in &lines {
            let out = state.parse_line(line, &ss).unwrap();
            if let Some(revised) = out.revised {
                revisions += 1;
                let start = log.len() - revised.len();
                log.truncate(start);
                log.extend(revised);
            }
            log.push(out.ops);
        }
        assert_eq!(log.len(), lines.len());
        let mut stack = ScopeStack::new();
        for (line, ops) in lines.iter().zip(&log) {
            assert!(ops.windows(2).all(|w| w[0].0 <= w[1].0), "{:?} {:?}", text, ops);
            assert!(ops.iter().all(|op| op.0 <= line.len()), "{:?} {:?}", text, ops);
            for (_, op) in ops {
                assert_eq!(stack.apply(op), Ok(()));
            }
        }
    }
    assert!(revisions > 0);
}

/// Contexts that clear scopes, entered and left in every way but by a `fail`.
fn clearing() -> SyntaxSet {
    let mut scopes = ScopeRepository::new();
    let mut scope = |text: &str| scopes.build(text).unwrap();
    let set_to = |context_index: usize, pop_count: usize| MatchOperation::SetTo {
        ctx_refs: vec![to(context_index)],
        pop_count,
    };
    let both = || MatchOperation::Push {
        ctx_refs: vec![to(1), to(2)],
        pop_count: 0,
    };
    let embed = MatchOperation::Embed {
        contexts: vec![to(1)],
        escape: EmbedEscape {
            escape_regex: Expression::new("END".to_owned(), true),
            has_captures: false,
            escape_captures: None,
        },
        pop_count: 0,
    };
    let mut clears = |word: &str, amount: ClearAmount| {
        let mut c = context(vec![
            rule("PUSH", vec![scope(word)], push(1)),
            rule("BOTH", vec![scope(word)], both()),
            rule("SET", vec![scope(word)], set_to(2, 0)),
            rule("DEEP", vec![scope(word)], set_to(1, 2)),
            rule("UP2", vec![scope(word)], MatchOperation::Pop(2)),
            rule("UP", vec![scope(word)], MatchOperation::Pop(1)),
            rule(r"\w+", vec![scope(word)], MatchOperation::Nothing),
        ]);
        c.meta_scope = vec![scope("meta.clearing")];
        c.meta_content_scope = vec![scope("content.clearing")];
        c.clear_scopes = Some(amount);
        c
    };
    let contexts = vec![
        context(vec![
            rule("EMBED", Vec::new(), embed),
            rule("PUSH", Vec::new(), push(1)),
            rule("BOTH", Vec::new(), both()),
        ]),
        clears("one.word", ClearAmount::TopN(1)),
        clears("all.word", ClearAmount::All),
    ];
    set(scope_of_source(), contexts)
}

fn scope_of_source() -> Scope {
    ScopeRepository::new().build("source.test").unwrap()
}

#[test]
fn every_restore_finds_what_was_cleared() {
    let ss = clearing();
    let words = ["EMBED", "PUSH", "BOTH", "SET", "DEEP", "UP2", "UP", "END", "w"];
    let mut restored = 0;
    let mut parsed = 0;
    for n in 0..words.len().pow(5) {
        let mut state = fresh(&ss);
        let mut stack = ScopeStack::new();
        let mut rest = n;
        for _ in 0..5 {
            let line = format!("{}\n", words[rest % words.len()]);
            rest /= words.len();
            let Ok(out) = state.parse_line(&line, &ss) else {
                break;
            };
            parsed += 1;
            assert!(out.revised.is_none());
            for (_, op) in &out.ops {
                assert_eq!(stack.apply(op), Ok(()), "{} {:?}", n, out.ops);
                restored += usize::from(*op == ScopeStackOp::Restore);
            }
        }
    }
    assert!(parsed > 0 && restored > 0);
}

#[test]
fn an_output_can_be_empty_or_copied() {
    let empty = ParseLineOutput::default();
    assert_eq!(empty.ops, Vec::<Op>::new());
    assert_eq!(empty.revised, None);
    assert_eq!(empty.warnings, Vec::new());

    let (ss, tried, _) = speculating();
    let out = fresh(&ss).parse_line("TRY a\n", &ss).unwrap();
    let copy = out.clone();
    assert_eq!(
        copy.ops,
        vec![(4, ScopeStackOp::Push(tried)), (5, ScopeStackOp::Pop(1))]
    );
    assert_eq!(copy.ops, out.ops);
    assert_eq!(copy.revised, out.revised);
}

#[test]
fn a_consumer_can_follow_the_revisions() {
    let (ss, _, _) = speculating();
    let mut state = fresh(&ss);
    let mut stack = ScopeStack::new();
    let mut base = stack.clone();
    for line in ["TRY one\n", "two\n", "FAIL\n", "TRY x\n", "FAIL\n", "z\n"] {
        if state.speculative_lines() == 0 {
            base = stack.clone();
        }
        let out = state.parse_line(line, &ss).unwrap();
        if let Some(revised) = out.revised {
            stack = base.clone();
            for ops in &revised {
                stack.apply_all(ops);
            }
        }
        stack.apply_all(&out.ops);
        assert!(stack.as_slice().is_empty());
    }
}

#[test]
fn committed_lines_come_once_and_revised() {
    let (ss, _, other) = speculating();
    let mut parser = CommittedParser::new(&ss.syntaxes()[0]);
    assert_eq!(parser.feed("TRY one\n", &ss).unwrap().len(), 0);
    let copy = parser.clone();
    let lines = parser.feed("FAIL\n", &ss).unwrap();
    assert_eq!(lines.len(), 2);
    assert_eq!(
        lines[0],
        vec![(3, ScopeStackOp::Push(other)), (7, ScopeStackOp::Pop(1))]
    );
    assert_eq!(parser.finish().len(), 0);

    let mut again = copy;
    assert_eq!(again.feed("FAIL\n", &ss).unwrap(), lines);
}

#[test]
fn a_committed_parser_follows_the_raw_state() {
    let (ss, _, _) = speculating();
    let mut lines = vec!["TRY one\n", "two\n", "FAIL\n", "plain\n", "TRY\n"];
    lines.extend(vec!["\n"; 129]);
    lines.extend(["TRY x\n", "y\n"]);
    let mut state = fresh(&ss);
    let mut parser = CommittedParser::new(&ss.syntaxes()[0]);
    let mut log: Vec<Vec<Op>> = Vec::new();
    let mut handed: Vec<Vec<Op>> = Vec::new();
    let mut warnings = Vec::new();
    for line in &lines {
        let open = state.speculative_lines();
        let out = state.parse_line(line, &ss).unwrap();
        let ops = out.ops.clone();
        if let Some(revised) = out.revised {
            assert_eq!(revised.len(), open);
            log.truncate(log.len() - open);
            log.extend(revised);
        }
        log.push(out.ops);
        warnings.extend(out.warnings);
        let batch = parser.feed(line, &ss).unwrap();
        assert_eq!(parser.state(), &state);
        assert_eq!(state.is_speculative(), state.speculative_lines() > 0);
        assert_eq!(batch.is_empty(), state.speculative_lines() > 0);
        if !batch.is_empty() {
            assert_eq!(batch.len(), open + 1);
            assert_eq!(batch.last(), Some(&ops));
        }
        handed.extend(batch);
    }
    handed.extend(parser.finish());
    assert_eq!(handed, log);
    assert_eq!(log.len(), lines.len());
    assert_eq!(warnings.len(), 1);
    assert_eq!(parser.take_warnings(), warnings);
}

#[test]
fn a_snapshot_without_open_lines_resumes() {
    let (ss, _, _) = speculating();
    let lines = ["TRY one\n", "FAIL\n", "TRY two\n", "three\n", "FAIL\n"];
    let mut state = fresh(&ss);
    let mut snapshots = Vec::new();
    let mut outputs = Vec::new();
    for line in lines {
        if state.speculative_lines() == 0 {
            snapshots.push((outputs.len(), state.clone()));
        }
        let out = state.parse_line(line, &ss).unwrap();
        outputs.push((out.ops, out.revised));
    }
    assert_eq!(
        snapshots.iter().map(|s| s.0).collect::<Vec<usize>>(),
        vec![0, 2]
    );
    for (at, mut copy) in snapshots {
        for (line, expected) in lines[at..].iter().zip(&outputs[at..]) {
            let out = copy.parse_line(line, &ss).unwrap();
            assert_eq!((out.ops, out.revised), *expected);
        }
        assert_eq!(copy, state);
    }
}

#[test]
fn lines_that_were_handed_back_are_not_revised() {
    let (ss, _, _) = speculating();
    let mut parser = CommittedParser::new(&ss.syntaxes()[0]);
    assert_eq!(parser.feed("TRY one\n", &ss).unwrap().len(), 0);
    assert_eq!(parser.finish().len(), 1);
    assert!(parser.feed_within("FAIL\n", &ss, 1000).is_none());
    let rest = parser.feed_within("two\n", &ss, 1000).unwrap().unwrap();
    assert_eq!(rest.len(), 0);
    assert_eq!(parser.finish().len(), 1);
}

#[test]
fn branch_points_expire_with_a_warning() {
    let (ss, _, _) = speculating();
    let mut parser = CommittedParser::new(&ss.syntaxes()[0]);
    parser.feed("TRY\n", &ss).unwrap();
    let mut handed = 0;
    for _ in 0..128 {
        handed += parser.feed("\n", &ss).unwrap().len();
    }
    assert_eq!(handed, 0);
    assert_eq!(parser.take_warnings(), Vec::new());
    assert_eq!(parser.feed("\n", &ss).unwrap().len(), 130);
    let warnings = parser.take_warnings();
    assert_eq!(
        warnings,
        vec![ParseWarning::BranchPointExpired {
            name: "bp".to_owned()
        }]
    );
    assert_eq!(
        warnings[0].message(),
        "branch point 'bp' expired (exceeded 128-line rewind limit)"
    );
    assert_eq!(parser.take_warnings(), Vec::new());
    assert_eq!(
        ParseWarning::SpeculationBudgetExhausted {
            name: "bp".to_owned()
        }
        .message(),
        "speculation budget exhausted at branch point 'bp'; committing current parse"
    );
}

#[test]
fn the_stack_of_contexts_does_not_grow_for_ever() {
    let mut scopes = ScopeRepository::new();
    let end = scopes.build("end").unwrap();
    let ss = set(
        no_scope(),
        vec![context(vec![
            rule("x", Vec::new(), push(0)),
            rule("y", vec![end], MatchOperation::Nothing),
        ])],
    );
    let mut state = fresh(&ss);
    let line = format!("{}y\n", "x".repeat(98));
    let out = state.parse_line(&line, &ss).unwrap();
    assert_eq!(
        out.ops,
        vec![(98, ScopeStackOp::Push(end)), (99, ScopeStackOp::Pop(1))]
    );
    let mut state = fresh(&ss);
    let line = format!("{}y\n", "x".repeat(200));
    let out = state.parse_line(&line, &ss).unwrap();
    assert_eq!(
        out.ops,
        vec![(200, ScopeStackOp::Push(end)), (201, ScopeStackOp::Pop(1))]
    );
}

#[test]
fn the_first_line_starts_with_the_scope_of_the_syntax() {
    let mut scopes = ScopeRepository::new();
    let source = scopes.build("source.test").unwrap();
    let mut main = context(Vec::new());
    main.meta_content_scope = vec![source];
    let ss = set(source, vec![main]);
    let mut state = fresh(&ss);
    assert_eq!(
        state.parse_line("a\n", &ss).unwrap().ops,
        vec![(0, ScopeStackOp::Push(source))]
    );
    assert_eq!(state.parse_line("a\n", &ss).unwrap().ops, Vec::<Op>::new());
}

#[test]
fn meta_scopes_cover_the_match_and_content_scopes_do_not() {
    let mut scopes = ScopeRepository::new();
    let meta = scopes.build("meta.block").unwrap();
    let content = scopes.build("content.block").unwrap();
    let mut inner = context(vec![rule(r"\}", Vec::new(), MatchOperation::Pop(1))]);
    inner.meta_scope = vec![meta];
    inner.meta_content_scope = vec![content];
    let ss = set(
        no_scope(),
        vec![context(vec![rule(r"\{", Vec::new(), push(1))]), inner],
    );
    let mut state = fresh(&ss);
    assert_eq!(
        state.parse_line("a{b}c\n", &ss).unwrap().ops,
        vec![
            (1, ScopeStackOp::Push(meta)),
            (2, ScopeStackOp::Pop(1)),
            (2, ScopeStackOp::Push(meta)),
            (2, ScopeStackOp::Push(content)),
            (3, ScopeStackOp::Pop(1)),
            (4, ScopeStackOp::Pop(1)),
        ]
    );
}

#[test]
fn meta_operations_stay_where_the_match_starts_or_ends() {
    let mut scopes = ScopeRepository::new();
    let meta = scopes.build("meta.block").unwrap();
    let mut inner = context(Vec::new());
    inner.meta_scope = vec![meta];
    let ss = set(no_scope(), vec![context(Vec::new()), inner]);
    let state = fresh(&ss);
    let mut ops: Vec<Op> = Vec::new();
    let outer = ss.get_context(&id(0)).unwrap();
    state
        .push_meta_ops(true, 3, outer, &push(1), &ss, &mut ops)
        .unwrap();
    assert_eq!(ops, vec![(3, ScopeStackOp::Push(meta))]);
    state
        .push_meta_ops(
            false,
            5,
            ss.get_context(&id(1)).unwrap(),
            &MatchOperation::Pop(1),
            &ss,
            &mut ops,
        )
        .unwrap();
    assert_eq!(
        ops,
        vec![(3, ScopeStackOp::Push(meta)), (5, ScopeStackOp::Pop(1))]
    );
}

#[test]
fn operations_of_a_match_change_the_stack_of_contexts() {
    let ss = set(no_scope(), vec![context(Vec::new()), context(Vec::new())]);
    let mut state = fresh(&ss);
    let before = state.clone();
    let region = Region::new(vec![Some((0, 1))]);
    assert!(state.perform_op("x", &region, &push(1), &None, &ss).unwrap());
    assert_ne!(state, before);
    assert!(state
        .perform_op("x", &region, &MatchOperation::Pop(1), &None, &ss)
        .unwrap());
    assert_eq!(state, before);
    assert!(!state
        .perform_op("x", &region, &MatchOperation::Nothing, &None, &ss)
        .unwrap());
    assert!(state
        .perform_op("x", &region, &push(9), &None, &ss)
        .is_err());
}

#[test]
fn an_escape_ends_an_embed_wherever_it_stands() {
    let mut scopes = ScopeRepository::new();
    let word = scopes.build("word").unwrap();
    let end = scopes.build("end").unwrap();
    let ss = set(
        no_scope(),
        vec![
            context(vec![rule(
                "<",
                Vec::new(),
                MatchOperation::Embed {
                    contexts: vec![to(1)],
                    escape: EmbedEscape {
                        escape_regex: Expression::new(">".to_owned(), true),
                        has_captures: false,
                        escape_captures: Some(vec![(0, vec![end])]),
                    },
                    pop_count: 0,
                },
            )]),
            context(vec![rule(".+", vec![word], MatchOperation::Nothing)]),
        ],
    );
    let mut state = fresh(&ss);
    let before = state.clone();
    let out = state.parse_line("a<bc>d", &ss).unwrap();
    assert_eq!(
        out.ops,
        vec![
            (2, ScopeStackOp::Push(word)),
            (4, ScopeStackOp::Pop(1)),
            (4, ScopeStackOp::Push(end)),
            (5, ScopeStackOp::Pop(1)),
        ]
    );
    let mut twin = before;
    twin.parse_line("a", &ss).unwrap();
    assert_eq!(
        twin.parse_line("x", &ss).unwrap().ops,
        state.parse_line("x", &ss).unwrap().ops
    );
}

#[test]
fn back_references_are_substituted_when_the_context_is_pushed() {
    let mut scopes = ScopeRepository::new();
    let end = scopes.build("end").unwrap();
    let mut inner = context(vec![Pattern::Match(MatchPattern::new(
        true,
        r"\1".to_owned(),
        vec![end],
        None,
        MatchOperation::Pop(1),
        None,
    ))]);
    inner.uses_backrefs = true;
    let ss = set(
        no_scope(),
        vec![context(vec![rule(r"<(\S+)>", Vec::new(), push(1))]), inner],
    );
    let mut state = fresh(&ss);
    assert_eq!(
        state.parse_line("<a.b> axb a.b\n", &ss).unwrap().ops,
        vec![(10, ScopeStackOp::Push(end)), (13, ScopeStackOp::Pop(1))]
    );
}

#[test]
fn a_scope_stack_hides_and_restores() {
    let mut scopes = ScopeRepository::new();
    let a = scopes.build("a").unwrap();
    let b = scopes.build("b").unwrap();
    let c = scopes.build("c").unwrap();
    let mut stack = ScopeStack::new();
    for s in [a, b, c] {
        stack.apply(&ScopeStackOp::Push(s)).unwrap();
    }
    let full = stack.clone();
    stack
        .apply(&ScopeStackOp::Clear(ClearAmount::TopN(2)))
        .unwrap();
    assert_eq!(stack.as_slice(), &[a]);
    stack.apply(&ScopeStackOp::Restore).unwrap();
    assert_eq!(stack, full);
    stack.apply(&ScopeStackOp::Clear(ClearAmount::All)).unwrap();
    assert!(stack.as_slice().is_empty());
    stack.apply(&ScopeStackOp::Restore).unwrap();
    assert_eq!(stack, full);
    stack.apply(&ScopeStackOp::Noop).unwrap();
    stack.apply(&ScopeStackOp::Push(a)).unwrap();
    stack.apply(&ScopeStackOp::Pop(1)).unwrap();
    assert_eq!(stack, full);
    assert_eq!(
        stack.apply(&ScopeStackOp::Restore),
        Err(ScopeError::NoClearedScopesToRestore)
    );
    stack.apply(&ScopeStackOp::Pop(9)).unwrap();
    assert!(stack.as_slice().is_empty());
}

#[test]
fn scopes_keep_their_texts() {
    let mut scopes = ScopeRepository::new();
    let s = scopes.build("meta.function.return-type.java").unwrap();
    assert_eq!((s.a0, s.a1, s.a2, s.a3, s.a4), (1, 2, 3, 4, 0));
    assert_eq!(scopes.text(s), "meta.function.return-type.java");
    let t = scopes.build("source.rust..").unwrap();
    assert_eq!(scopes.text(t), "source.rust");
    assert_eq!(scopes.build("source.rust").unwrap(), t);
    let empty = scopes.build("").unwrap();
    assert_eq!(scopes.text(empty), "");
    assert!(scopes.build("a.b.c.d.e.f.g.h").is_ok());
    assert_eq!(
        scopes.build("a.b.c.d.e.f.g.h.i"),
        Err(ScopeTextError::TooManyAtoms)
    );
}

#[test]
fn scopes_have_prefixes() {
    let mut scopes = ScopeRepository::new();
    let meta = scopes.build("meta").unwrap();
    let block = scopes.build("meta.block").unwrap();
    let other = scopes.build("metaphor.block").unwrap();
    assert!(meta.is_prefix_of(block));
    assert!(block.is_prefix_of(block));
    assert!(!block.is_prefix_of(meta));
    assert!(!meta.is_prefix_of(other));
    assert!(block.is_meta_scope());
    assert!(!meta.is_meta_scope());
    assert!(!other.is_meta_scope());
}

#[test]
fn a_full_repository_takes_no_more_atoms() {
    let mut scopes = ScopeRepository::new();
    let mut n = 4;
    let mut next = 0;
    while n + 8 <= 0xffff {
        let parts: Vec<String> = (next..next + 8)
            .map(|i| format!("{}{}", "x".repeat(i % 251), i))
            .collect();
        scopes.build(&parts.join(".")).unwrap();
        next += 8;
        n += 8;
    }
    assert_eq!(
        scopes.build("p.q.r.s.t.u.v.w"),
        Err(ScopeTextError::RepositoryFull)
    );
}

#[test]
fn searches_see_the_line_up_to_their_end() {
    let re = Expression::new(r"(b+)(c)?".to_owned(), true);
    assert_eq!(re.regex_str(), r"(b+)(c)?");
    let region = re.search("abbcb", 0, 5, true).unwrap();
    assert_eq!(region.pos(0), Some((1, 4)));
    assert_eq!(region.pos(1), Some((1, 3)));
    assert_eq!(region.pos(2), Some((3, 4)));
    assert_eq!(region.pos(3), None);
    assert_eq!(region.whole_match(), (1, 4));
    let cut = re.search("abbcb", 0, 2, true).unwrap();
    assert_eq!(cut.pos(0), Some((1, 2)));
    assert_eq!(cut.pos(2), None);
    let later = re.search("abbcb", 3, 5, true).unwrap();
    assert_eq!(later.pos(0), Some((4, 5)));
    assert!(re.search("abbcb", 0, 1, true).is_none());
    assert!(re.search("abbcb", 6, 5, true).is_none());
    assert!(re.search("\u{e9}b", 1, 3, true).is_none());
    assert_eq!(re.search("\u{e9}b", 2, 3, true).unwrap().pos(0), Some((2, 3)));
}

#[test]
fn empty_matches_can_be_refused() {
    let re = Expression::new("x*".to_owned(), true);
    assert_eq!(re.search("axx", 0, 3, true).unwrap().pos(0), Some((0, 0)));
    assert_eq!(re.search("axx", 0, 3, false).unwrap().pos(0), Some((1, 3)));
    assert!(re.search("a", 0, 1, false).is_none());
}

#[test]
fn matches_do_not_go_backward() {
    let kept = Expression::new(r"a\Kb".to_owned(), true);
    assert_eq!(kept.search("ab", 0, 2, true).unwrap().pos(0), Some((1, 2)));
    let ahead = Expression::new(r"(?=ab\K)a".to_owned(), true);
    assert_eq!(ahead.search("ab", 0, 2, true).unwrap().pos(0), Some((1, 1)));
    let behind = Expression::new(r"(?<=\Ka)b".to_owned(), true);
    assert!(behind.search("ab", 1, 2, true).is_none());
}

#[test]
fn a_pattern_that_is_not_accepted_matches_nowhere() {
    let re = Expression::new("(".to_owned(), true);
    assert!(re.search("(", 0, 1, true).is_none());
    assert_eq!(re.clone().regex_str(), "(");
    let other = Expression::new("[(]".to_owned(), true);
    assert!(other.clone().search("(", 0, 1, true).is_some());
    assert!(re != other);
}

#[test]
fn back_references_become_escaped_texts() {
    let region = Region::new(vec![Some((0, 5)), Some((0, 3)), None]);
    assert_eq!(
        substitute_backrefs_in_regex(r"x\1y", &region, "a.b-c"),
        r"xa\.by"
    );
    assert_eq!(
        substitute_backrefs_in_regex(r"\2\w\\1[\]]", &region, "a.b-c"),
        r"\w\\1[\]]"
    );
    assert_eq!(substitute_backrefs_in_regex(r"\7$", &region, "a.b-c"), "$");
}

#[test]
fn groups_are_coloured_in_order_and_clipped() {
    let mut scopes = ScopeRepository::new();
    let a = scopes.build("a").unwrap();
    let b = scopes.build("b").unwrap();
    let c = scopes.build("c").unwrap();
    let mapping = Some(vec![(2, vec![b]), (1, vec![a]), (3, vec![c]), (9, vec![c])]);
    let region = Region::new(vec![
        Some((1, 4)),
        Some((1, 4)),
        Some((1, 2)),
        Some((3, 8)),
    ]);
    let clipped = build_capture_ops(&mapping, &region, true);
    assert_eq!(
        clipped,
        vec![
            (1, ScopeStackOp::Push(a)),
            (1, ScopeStackOp::Push(b)),
            (2, ScopeStackOp::Pop(1)),
            (3, ScopeStackOp::Push(c)),
            (4, ScopeStackOp::Pop(1)),
            (4, ScopeStackOp::Pop(1)),
        ]
    );
    let whole = build_capture_ops(&mapping, &region, false);
    assert_eq!(whole[5], (8, ScopeStackOp::Pop(1)));
    assert!(whole.windows(2).all(|w| w[0].0 <= w[1].0));
    assert_eq!(build_capture_ops(&None, &region, true), Vec::<Op>::new());
}

#[test]
fn positions_in_a_line_count_bytes() {
    let line = "a\u{3c0}b";
    assert_eq!(next_char_start(line, 0), Some(1));
    assert_eq!(next_char_start(line, 1), Some(3));
    assert_eq!(next_char_start(line, 3), None);
    assert_eq!(next_char_start(line, 9), None);
    assert_eq!(slice_of(line, 1, 3), Some("\u{3c0}"));
    assert_eq!(slice_of(line, 2, 3), None);
    assert_eq!(slice_of(line, 3, 1), None);
    assert_eq!(slice_of(line, 0, 9), None);
    assert!(is_blank_line(""));
    assert!(is_blank_line("\n"));
    assert!(!is_blank_line("x"));
    assert!(!is_blank_line(" \n"));
}
