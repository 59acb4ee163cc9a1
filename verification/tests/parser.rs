//! The parser on syntaxes written down as YAML, through the public interface.
//!
//! The first part of this file loads and links syntaxes and shows scopes as
//! texts; the tests follow.

use std::cell::RefCell;
use std::collections::HashSet;
use std::rc::Rc;
use syntect::regex::Expression;
use syntect::repository::ScopeRepository;
use syntect::scope::{ClearAmount, ScopeError};
use syntect::state::ParseWarning;
use syntect::syntax::{
    CaptureMapping, Context, ContextId, ContextReference, EmbedEscape, MatchOperation,
    MatchPattern, ParsingError, Pattern,
};
use yaml_rust::{Yaml, YamlLoader};

type Scopes = Rc<RefCell<ScopeRepository>>;

/// A scope by its text.
#[derive(Clone, Copy, PartialEq, Eq, Hash)]
struct Scope(&'static str);

impl Scope {
    fn new(text: &str) -> Option<Scope> {
        Some(Scope(Box::leak(text.to_owned().into_boxed_str())))
    }
}

impl std::fmt::Debug for Scope {
    fn fmt(&self, f: &mut std::fmt::Formatter<'_>) -> std::fmt::Result {
        f.write_str(&format!("<{}>", self.0))
    }
}

/// A change to the scope stack, its scope as a text.
#[derive(Clone, Debug, PartialEq, Eq)]
enum ScopeStackOp {
    Push(Scope),
    Pop(usize),
    Clear(ClearAmount),
    Restore,
    Noop,
}

type Op = (usize, ScopeStackOp);

fn shown(scopes: &Scopes, ops: Vec<syntect::scope::Op>) -> Vec<Op> {
    ops.into_iter()
        .map(|(at, op)| {
            let op = match op {
                syntect::scope::ScopeStackOp::Push(s) => {
                    ScopeStackOp::Push(Scope::new(&scopes.borrow().text(s)).unwrap())
                }
                syntect::scope::ScopeStackOp::Pop(n) => ScopeStackOp::Pop(n),
                syntect::scope::ScopeStackOp::Clear(amount) => ScopeStackOp::Clear(amount),
                syntect::scope::ScopeStackOp::Restore => ScopeStackOp::Restore,
                syntect::scope::ScopeStackOp::Noop => ScopeStackOp::Noop,
            };
            (at, op)
        })
        .collect()
}

fn shown_lines(scopes: &Scopes, lines: Vec<Vec<syntect::scope::Op>>) -> Vec<Vec<Op>> {
    lines.into_iter().map(|ops| shown(scopes, ops)).collect()
}

/// A scope stack that shows its scopes as texts.
#[derive(Clone)]
struct ScopeStack {
    scopes: Scopes,
    stack: syntect::scope::ScopeStack,
    shown: Vec<Scope>,
}

impl std::fmt::Debug for ScopeStack {
    fn fmt(&self, f: &mut std::fmt::Formatter<'_>) -> std::fmt::Result {
        f.write_str(&format!("{:?}", self.shown))
    }
}

impl ScopeStack {
    fn new() -> ScopeStack {
        ScopeStack {
            scopes: Rc::new(RefCell::new(ScopeRepository::new())),
            stack: syntect::scope::ScopeStack::new(),
            shown: Vec::new(),
        }
    }

    fn apply(&mut self, op: &ScopeStackOp) -> Result<(), ScopeError> {
        let op = match op {
            ScopeStackOp::Push(s) => {
                syntect::scope::ScopeStackOp::Push(self.scopes.borrow_mut().build(s.0).unwrap())
            }
            ScopeStackOp::Pop(n) => syntect::scope::ScopeStackOp::Pop(*n),
            ScopeStackOp::Clear(amount) => syntect::scope::ScopeStackOp::Clear(*amount),
            ScopeStackOp::Restore => syntect::scope::ScopeStackOp::Restore,
            ScopeStackOp::Noop => syntect::scope::ScopeStackOp::Noop,
        };
        let result = self.stack.apply(&op);
        self.shown = self
            .stack
            .as_slice()
            .iter()
            .map(|s| Scope::new(&self.scopes.borrow().text(*s)).unwrap())
            .collect();
        result
    }

    fn as_slice(&self) -> &[Scope] {
        &self.shown
    }
}

/// A linked set, with the repository of its scopes.
struct Linked {
    set: syntect::syntax::SyntaxSet,
    scopes: Scopes,
}

#[derive(Clone)]
struct SyntaxReference {
    linked: Rc<Linked>,
    index: usize,
    name: String,
    scope: Scope,
}

struct SyntaxSet {
    linked: Rc<Linked>,
    references: Vec<SyntaxReference>,
}

impl SyntaxSet {
    fn syntaxes(&self) -> &[SyntaxReference] {
        &self.references
    }

    fn find_syntax_by_name(&self, name: &str) -> Option<&SyntaxReference> {
        self.references.iter().rev().find(|s| s.name == name)
    }

    fn find_syntax_by_scope(&self, scope: Scope) -> Option<&SyntaxReference> {
        self.references.iter().rev().find(|s| s.scope == scope)
    }
}

#[derive(Clone, Debug)]
struct ParseLineOutput {
    ops: Vec<Op>,
    revised: Option<Vec<Vec<Op>>>,
    warnings: Vec<ParseWarning>,
}

#[derive(Clone)]
struct ParseState {
    linked: Rc<Linked>,
    state: syntect::state::ParseState,
}

impl PartialEq for ParseState {
    fn eq(&self, other: &ParseState) -> bool {
        self.state == other.state
    }
}

impl std::fmt::Debug for ParseState {
    fn fmt(&self, f: &mut std::fmt::Formatter<'_>) -> std::fmt::Result {
        f.write_str(&format!("{:?}", self.state))
    }
}

impl ParseState {
    fn new(syntax: &SyntaxReference) -> ParseState {
        let state = syntect::state::ParseState::new(&syntax.linked.set.syntaxes()[syntax.index]);
        ParseState {
            linked: syntax.linked.clone(),
            state,
        }
    }

    fn parse_line(&mut self, line: &str, set: &SyntaxSet) -> Result<ParseLineOutput, ParsingError> {
        let out = self.state.parse_line(line, &set.linked.set)?;
        let scopes = &self.linked.scopes;
        Ok(ParseLineOutput {
            ops: shown(scopes, out.ops),
            revised: out.revised.map(|lines| shown_lines(scopes, lines)),
            warnings: out.warnings,
        })
    }

    fn is_speculative(&self) -> bool {
        self.state.is_speculative()
    }

    fn speculative_lines(&self) -> usize {
        self.state.speculative_lines()
    }
}

struct CommittedParser {
    linked: Rc<Linked>,
    parser: syntect::committed::CommittedParser,
}

impl CommittedParser {
    fn new(syntax: &SyntaxReference) -> CommittedParser {
        let parser =
            syntect::committed::CommittedParser::new(&syntax.linked.set.syntaxes()[syntax.index]);
        CommittedParser {
            linked: syntax.linked.clone(),
            parser,
        }
    }

    fn feed(&mut self, line: &str, set: &SyntaxSet) -> Result<Vec<Vec<Op>>, ParsingError> {
        let lines = self.parser.feed(line, &set.linked.set)?;
        Ok(shown_lines(&self.linked.scopes, lines))
    }

    fn finish(&mut self) -> Vec<Vec<Op>> {
        let lines = self.parser.finish();
        shown_lines(&self.linked.scopes, lines)
    }

    fn take_warnings(&mut self) -> Vec<ParseWarning> {
        self.parser.take_warnings()
    }
}

#[derive(Clone)]
enum Reference {
    Named(String),
    ByScope(String, Option<String>),
}

#[derive(Clone)]
struct Escape {
    regex: String,
    captures: Option<Vec<(usize, Vec<String>)>>,
}

#[derive(Clone)]
enum Action {
    Push(Vec<Reference>, usize),
    SetTo(Vec<Reference>, usize),
    Pop(usize),
    Branch(String, Vec<Reference>, usize),
    Fail(String),
    Embed(Vec<Reference>, Escape, usize),
    Nothing,
}

#[derive(Clone)]
struct Rule {
    has_captures: bool,
    regex: String,
    scope: Vec<String>,
    captures: Option<Vec<(usize, Vec<String>)>>,
    action: Action,
    with_prototype: Option<Reference>,
}

#[derive(Clone)]
enum Entry {
    Rule(Rule),
    Other(Reference),
}

#[derive(Clone)]
struct Draft {
    name: String,
    meta_scope: Vec<String>,
    meta_content_scope: Vec<String>,
    clear_scopes: Option<ClearAmount>,
    takes_prototype: bool,
    uses_backrefs: bool,
    embed_scope_replaces: bool,
    entries: Vec<Entry>,
}

/// A syntax before it is linked.
#[derive(Clone)]
struct SyntaxDefinition {
    name: String,
    scope: String,
    version: u32,
    contexts: Vec<Draft>,
}

/// What the loader carries along.
struct Loader {
    variables: Vec<(String, String)>,
    newlines: bool,
    version: u32,
    contexts: Vec<Draft>,
    anonymous: usize,
}

fn words(text: &str) -> Vec<String> {
    text.split_whitespace().map(|w| w.to_owned()).collect()
}

fn has_backref(regex: &str) -> bool {
    let chars: Vec<char> = regex.chars().collect();
    let mut i = 0;
    while i + 1 < chars.len() {
        if chars[i] == '\\' {
            if chars[i + 1].is_ascii_digit() {
                return true;
            }
            i += 1;
        }
        i += 1;
    }
    false
}

/// Copies a character class that starts at `i`; returns what follows it, and
/// whether it can match a newline.
fn copy_class(chars: &[char], i: usize, out: &mut String) -> (usize, bool) {
    let mut i = i;
    let mut nesting = 0;
    let mut negated = false;
    let mut newline = false;
    out.push('[');
    i += 1;
    if i < chars.len() && chars[i] == '^' {
        negated = true;
        out.push('^');
        i += 1;
    }
    if i < chars.len() && chars[i] == ']' {
        out.push(']');
        i += 1;
    }
    while i < chars.len() {
        let c = chars[i];
        out.push(c);
        i += 1;
        if c == '\\' && i < chars.len() {
            if chars[i] == 'n' && !negated && nesting == 0 {
                newline = true;
            }
            out.push(chars[i]);
            i += 1;
        } else if c == '[' {
            nesting += 1;
        } else if c == ']' {
            if nesting == 0 {
                break;
            }
            nesting -= 1;
        }
    }
    (i, newline)
}

/// A pattern as the engine wants it: `$` may stand before a newline, and where
/// lines come without one, `\n` means the end of the line.
fn rewritten(regex: &str, newlines: bool) -> String {
    let chars: Vec<char> = regex.chars().collect();
    let mut out = String::new();
    let mut i = 0;
    while i < chars.len() {
        let c = chars[i];
        if c == '\\' && i + 1 < chars.len() {
            let next = chars[i + 1];
            let after = chars.get(i + 2).copied();
            if !newlines
                && next == 'n'
                && after != Some('?')
                && after != Some('+')
                && after != Some('*')
            {
                out.push('$');
            } else {
                out.push(c);
                out.push(next);
            }
            i += 2;
        } else if c == '[' {
            let mut class = String::new();
            let (end, newline) = copy_class(&chars, i, &mut class);
            i = end;
            if !newlines && newline && chars.get(i) != Some(&'?') {
                out.push_str(&format!("(?:{}|$)", class));
            } else {
                out.push_str(&class);
            }
        } else if c == '$' && newlines {
            out.push_str("(?m:$)");
            i += 1;
        } else {
            out.push(c);
            i += 1;
        }
    }
    out
}

impl Loader {
    fn regex(&self, raw: &str) -> String {
        let mut text = raw.to_owned();
        let mut changed = true;
        while changed {
            changed = false;
            for (name, value) in &self.variables {
                let hole = format!("{{{{{}}}}}", name);
                if text.contains(&hole) {
                    text = text.replace(&hole, value);
                    changed = true;
                }
            }
        }
        rewritten(&text, self.newlines)
    }

    fn context(&mut self, name: &str, items: &[Yaml], takes_prototype: bool) -> String {
        let mut draft = Draft {
            name: name.to_owned(),
            meta_scope: Vec::new(),
            meta_content_scope: Vec::new(),
            clear_scopes: None,
            takes_prototype,
            uses_backrefs: false,
            embed_scope_replaces: false,
            entries: Vec::new(),
        };
        for item in items {
            let mut special = false;
            if let Some(text) = item["meta_scope"].as_str() {
                draft.meta_scope = words(text);
                special = true;
            }
            if let Some(text) = item["meta_content_scope"].as_str() {
                draft.meta_content_scope = words(text);
                special = true;
            }
            if let Some(yes) = item["meta_include_prototype"].as_bool() {
                draft.takes_prototype = yes;
                special = true;
            }
            if item["clear_scopes"].as_bool() == Some(true) {
                draft.clear_scopes = Some(ClearAmount::All);
                special = true;
            }
            if let Some(n) = item["clear_scopes"].as_i64() {
                draft.clear_scopes = Some(ClearAmount::TopN(n as usize));
                special = true;
            }
            if special {
                continue;
            }
            if !item["include"].is_badvalue() {
                let reference = self.reference(name, &item["include"]);
                draft.entries.push(Entry::Other(reference));
            } else {
                let rule = self.rule(name, item);
                draft.uses_backrefs = draft.uses_backrefs || rule.has_captures;
                draft.entries.push(Entry::Rule(rule));
            }
        }
        self.contexts.push(draft);
        name.to_owned()
    }

    fn inline(&mut self, parent: &str, items: &[Yaml], takes_prototype: bool) -> Reference {
        self.anonymous += 1;
        let name = format!("#anon_{}_{}", parent, self.anonymous);
        Reference::Named(self.context(&name, items, takes_prototype))
    }

    fn reference(&mut self, parent: &str, item: &Yaml) -> Reference {
        if let Some(text) = item.as_str() {
            let mut parts = text.split('#');
            let first = parts.next().unwrap();
            let fragment = parts.next().map(|s| s.to_owned());
            match first.strip_prefix("scope:") {
                Some(scope) => Reference::ByScope(scope.to_owned(), fragment),
                None => Reference::Named(first.to_owned()),
            }
        } else {
            let items = item.as_vec().expect("a context").clone();
            self.inline(parent, &items, true)
        }
    }

    fn references(&mut self, parent: &str, item: &Yaml) -> Vec<Reference> {
        let several = match item.as_vec() {
            Some(items) => match items.first() {
                Some(first) => match first.as_vec() {
                    Some(inner) => inner.first().map_or(false, |y| y.as_hash().is_some()),
                    None => first.as_str().is_some(),
                },
                None => false,
            },
            None => false,
        };
        if several {
            let items = item.as_vec().unwrap().clone();
            items.iter().map(|y| self.reference(parent, y)).collect()
        } else {
            vec![self.reference(parent, item)]
        }
    }

    fn captures(&self, item: &Yaml) -> Option<Vec<(usize, Vec<String>)>> {
        item.as_hash().map(|map| {
            map.iter()
                .filter_map(|(k, v)| match (k.as_i64(), v.as_str()) {
                    (Some(k), Some(v)) => Some((k as usize, words(v))),
                    _ => None,
                })
                .collect()
        })
    }

    fn rule(&mut self, parent: &str, item: &Yaml) -> Rule {
        let regex = self.regex(item["match"].as_str().expect("a match"));
        let pops = match &item["pop"] {
            Yaml::Boolean(true) => 1,
            Yaml::Integer(n) => *n as usize,
            _ => 0,
        };
        let has_captures = !item["pop"].is_badvalue() && has_backref(&regex);
        let action = if !item["push"].is_badvalue() {
            Action::Push(self.references(parent, &item["push"]), pops)
        } else if !item["set"].is_badvalue() {
            Action::SetTo(self.references(parent, &item["set"]), pops)
        } else if let Some(name) = item["branch_point"].as_str() {
            let name = name.to_owned();
            let alternatives = item["branch"].as_vec().expect("alternatives").clone();
            let alternatives = alternatives
                .iter()
                .map(|y| self.reference(parent, y))
                .collect();
            Action::Branch(name, alternatives, pops)
        } else if let Some(name) = item["fail"].as_str() {
            Action::Fail(name.to_owned())
        } else if !item["embed"].is_badvalue() {
            self.embed(parent, item, pops)
        } else if pops > 0 {
            Action::Pop(pops)
        } else {
            Action::Nothing
        };
        let with_prototype = item["with_prototype"]
            .as_vec()
            .cloned()
            .map(|items| self.inline(parent, &items, false));
        Rule {
            has_captures,
            regex,
            scope: item["scope"].as_str().map(words).unwrap_or_default(),
            captures: self.captures(&item["captures"]),
            action,
            with_prototype,
        }
    }

    /// An embed pushes a context that carries `embed_scope`, and the embedded
    /// context on top of it.
    fn embed(&mut self, parent: &str, item: &Yaml, pops: usize) -> Action {
        let wrapper = self.inline(parent, &[], false);
        let at = self.contexts.len() - 1;
        if let Some(text) = item["embed_scope"].as_str() {
            let fragment = item["embed"].as_str().map_or(false, |s| s.contains('#'));
            self.contexts[at].meta_content_scope = words(text);
            self.contexts[at].embed_scope_replaces = self.version >= 2 && !fragment;
        }
        let target = self.reference(parent, &item["embed"]);
        let escape = Escape {
            regex: self.regex(item["escape"].as_str().expect("an escape")),
            captures: self.captures(&item["escape_captures"]),
        };
        Action::Embed(vec![wrapper, target], escape, pops)
    }
}

impl SyntaxDefinition {
    fn load_from_str(
        text: &str,
        newlines: bool,
        fallback_name: Option<&str>,
    ) -> Option<SyntaxDefinition> {
        let doc = YamlLoader::load_from_str(text).ok()?.into_iter().next()?;
        let version = doc["version"].as_i64().unwrap_or(1) as u32;
        let mut variables = Vec::new();
        if let Some(map) = doc["variables"].as_hash() {
            for (k, v) in map {
                variables.push((k.as_str()?.to_owned(), v.as_str()?.to_owned()));
            }
        }
        let mut loader = Loader {
            variables,
            newlines,
            version,
            contexts: Vec::new(),
            anonymous: 0,
        };
        for (k, v) in doc["contexts"].as_hash()? {
            let name = k.as_str()?;
            loader.context(name, v.as_vec()?, name != "prototype");
        }
        let scope = doc["scope"].as_str()?.to_owned();
        let main = loader.contexts.iter().position(|c| c.name == "main")?;
        loader.contexts.push(Draft {
            name: "__start".to_owned(),
            meta_scope: Vec::new(),
            meta_content_scope: vec![scope.clone()],
            clear_scopes: None,
            takes_prototype: false,
            uses_backrefs: false,
            embed_scope_replaces: false,
            entries: vec![Entry::Rule(Rule {
                has_captures: false,
                regex: String::new(),
                scope: Vec::new(),
                captures: None,
                action: Action::Push(vec![Reference::Named("__main".to_owned())], 0),
                with_prototype: None,
            })],
        });
        let mut outer = loader.contexts[main].clone();
        outer.name = "__main".to_owned();
        outer.clear_scopes = None;
        outer.uses_backrefs = false;
        outer.entries = vec![Entry::Other(Reference::Named("main".to_owned()))];
        loader.contexts.push(outer);
        loader.contexts[main]
            .meta_content_scope
            .insert(0, scope.clone());
        let name = doc["name"]
            .as_str()
            .or(fallback_name)
            .unwrap_or("Unnamed")
            .to_owned();
        Some(SyntaxDefinition {
            name,
            scope,
            version,
            contexts: loader.contexts,
        })
    }

    fn position(&self, name: &str) -> Option<usize> {
        self.contexts.iter().position(|c| c.name == name)
    }

    /// The contexts that the prototype reaches; they do not take it themselves.
    fn reached(&self, name: &str, seen: &mut HashSet<usize>) {
        let at = match self.position(name) {
            Some(at) => at,
            None => return,
        };
        if !seen.insert(at) {
            return;
        }
        for entry in &self.contexts[at].entries {
            let references: Vec<&Reference> = match entry {
                Entry::Other(reference) => vec![reference],
                Entry::Rule(rule) => match &rule.action {
                    Action::Push(refs, _)
                    | Action::SetTo(refs, _)
                    | Action::Branch(_, refs, _)
                    | Action::Embed(refs, _, _) => refs.iter().collect(),
                    _ => Vec::new(),
                },
            };
            for reference in references {
                if let Reference::Named(name) = reference {
                    self.reached(name, seen);
                }
            }
        }
    }
}

struct SyntaxSetBuilder {
    definitions: Vec<SyntaxDefinition>,
}

impl SyntaxSetBuilder {
    fn new() -> SyntaxSetBuilder {
        SyntaxSetBuilder {
            definitions: Vec::new(),
        }
    }

    fn add(&mut self, definition: SyntaxDefinition) {
        self.definitions.push(definition);
    }

    fn resolve(&self, syntax: usize, reference: &Reference) -> Option<ContextId> {
        let (syntax, name) = match reference {
            Reference::Named(name) => (syntax, name.as_str()),
            Reference::ByScope(scope, fragment) => {
                let found = self.definitions.iter().rposition(|d| d.scope == *scope)?;
                (found, fragment.as_deref().unwrap_or("main"))
            }
        };
        let context_index = self.definitions[syntax].position(name)?;
        Some(ContextId {
            syntax_index: syntax,
            context_index,
        })
    }

    fn link(&self, syntax: usize, reference: &Reference) -> ContextReference {
        match self.resolve(syntax, reference) {
            Some(id) => ContextReference::Direct(id),
            None => match reference {
                Reference::Named(name) => ContextReference::Named(name.clone()),
                Reference::ByScope(scope, _) => ContextReference::Named(scope.clone()),
            },
        }
    }

    fn link_all(&self, syntax: usize, references: &[Reference]) -> Vec<ContextReference> {
        references.iter().map(|r| self.link(syntax, r)).collect()
    }

    /// Marks the contexts whose rules, or those that they take from others, refer
    /// back to the match that pushed them.
    fn spread_backrefs(&mut self) {
        let mut changed = true;
        while changed {
            changed = false;
            for s in 0..self.definitions.len() {
                for c in 0..self.definitions[s].contexts.len() {
                    let context = &self.definitions[s].contexts[c];
                    if context.uses_backrefs {
                        continue;
                    }
                    let found = context.entries.iter().any(|entry| match entry {
                        Entry::Other(reference) => match self.resolve(s, reference) {
                            Some(id) => {
                                self.definitions[id.syntax_index].contexts[id.context_index]
                                    .uses_backrefs
                            }
                            None => false,
                        },
                        Entry::Rule(_) => false,
                    });
                    if found {
                        self.definitions[s].contexts[c].uses_backrefs = true;
                        changed = true;
                    }
                }
            }
        }
    }

    fn build(mut self) -> SyntaxSet {
        self.spread_backrefs();
        let scopes: Scopes = Rc::new(RefCell::new(ScopeRepository::new()));
        let built = |texts: &[String]| -> Vec<syntect::scope::Scope> {
            texts
                .iter()
                .map(|t| scopes.borrow_mut().build(t).unwrap())
                .collect()
        };
        let mapped = |captures: &Option<Vec<(usize, Vec<String>)>>| -> Option<CaptureMapping> {
            captures
                .as_ref()
                .map(|c| c.iter().map(|(n, texts)| (*n, built(texts))).collect())
        };
        let mut syntaxes = Vec::new();
        for (s, definition) in self.definitions.iter().enumerate() {
            let mut bare = HashSet::new();
            definition.reached("prototype", &mut bare);
            let prototype = definition.position("prototype").map(|p| ContextId {
                syntax_index: s,
                context_index: p,
            });
            let mut contexts = Vec::new();
            for (c, draft) in definition.contexts.iter().enumerate() {
                let mut patterns = Vec::new();
                for entry in &draft.entries {
                    patterns.push(match entry {
                        Entry::Other(reference) => Pattern::Include(self.link(s, reference)),
                        Entry::Rule(rule) => {
                            let operation = match &rule.action {
                                Action::Push(refs, n) => MatchOperation::Push {
                                    ctx_refs: self.link_all(s, refs),
                                    pop_count: *n,
                                },
                                Action::SetTo(refs, n) => MatchOperation::SetTo {
                                    ctx_refs: self.link_all(s, refs),
                                    pop_count: *n,
                                },
                                Action::Pop(n) => MatchOperation::Pop(*n),
                                Action::Branch(name, refs, n) => MatchOperation::Branch {
                                    name: name.clone(),
                                    alternatives: self.link_all(s, refs),
                                    pop_count: *n,
                                },
                                Action::Fail(name) => MatchOperation::Fail(name.clone()),
                                Action::Embed(refs, escape, n) => MatchOperation::Embed {
                                    contexts: self.link_all(s, refs),
                                    escape: EmbedEscape {
                                        escape_regex: Expression::new(escape.regex.clone(), true),
                                        has_captures: has_backref(&escape.regex),
                                        escape_captures: mapped(&escape.captures),
                                    },
                                    pop_count: *n,
                                },
                                Action::Nothing => MatchOperation::Nothing,
                            };
                            Pattern::Match(MatchPattern::new(
                                rule.has_captures,
                                rule.regex.clone(),
                                built(&rule.scope),
                                mapped(&rule.captures),
                                operation,
                                rule.with_prototype.as_ref().map(|r| self.link(s, r)),
                            ))
                        }
                    });
                }
                contexts.push(Context {
                    meta_scope: built(&draft.meta_scope),
                    meta_content_scope: built(&draft.meta_content_scope),
                    clear_scopes: draft.clear_scopes,
                    prototype: if draft.takes_prototype && !bare.contains(&c) {
                        prototype
                    } else {
                        None
                    },
                    uses_backrefs: draft.uses_backrefs,
                    patterns,
                    embed_scope_replaces: draft.embed_scope_replaces,
                });
            }
            syntaxes.push(syntect::syntax::SyntaxReference {
                name: definition.name.clone(),
                scope: scopes.borrow_mut().build(&definition.scope).unwrap(),
                version: definition.version,
                start: ContextId {
                    syntax_index: s,
                    context_index: definition.position("__start").unwrap(),
                },
                contexts,
            });
        }
        let linked = Rc::new(Linked {
            set: syntect::syntax::SyntaxSet::new(syntaxes),
            scopes: scopes.clone(),
        });
        let references = self
            .definitions
            .iter()
            .enumerate()
            .map(|(index, d)| SyntaxReference {
                linked: linked.clone(),
                index,
                name: d.name.clone(),
                scope: Scope::new(&d.scope).unwrap(),
            })
            .collect();
        SyntaxSet { linked, references }
    }
}

/// The ranges of a line between its operations, each with the operation before
/// it.
struct ScopeRangeIterator<'a> {
    ops: &'a [Op],
    line: &'a str,
    index: usize,
    last: usize,
}

impl<'a> ScopeRangeIterator<'a> {
    fn new(ops: &'a [Op], line: &'a str) -> ScopeRangeIterator<'a> {
        ScopeRangeIterator {
            ops,
            line,
            index: 0,
            last: 0,
        }
    }
}

impl<'a> Iterator for ScopeRangeIterator<'a> {
    type Item = (std::ops::Range<usize>, &'a ScopeStackOp);

    fn next(&mut self) -> Option<(std::ops::Range<usize>, &'a ScopeStackOp)> {
        if self.index > self.ops.len() {
            return None;
        }
        let end = if self.index == self.ops.len() {
            self.line.len()
        } else {
            self.ops[self.index].0
        };
        let range = self.last..end;
        let op = if self.index == 0 {
            &ScopeStackOp::Noop
        } else {
            &self.ops[self.index - 1].1
        };
        self.index += 1;
        self.last = end;
        Some((range, op))
    }
}

fn revised_lines(out: &ParseLineOutput) -> &[Vec<Op>] {
    out.revised.as_deref().unwrap_or(&[])
}

fn expect_scope_stacks(line_without_newline: &str, expect: &[&str], syntax: &str) {
    let line_with_newline = format!("{}\n", line_without_newline);
    let syntax_newlines = SyntaxDefinition::load_from_str(syntax, true, None).unwrap();
    expect_scope_stacks_with_syntax(&line_with_newline, expect, syntax_newlines);

    let syntax_nonewlines = SyntaxDefinition::load_from_str(syntax, false, None).unwrap();
    expect_scope_stacks_with_syntax(line_without_newline, expect, syntax_nonewlines);
}

fn expect_scope_stacks_with_syntax(line: &str, expect: &[&str], syntax: SyntaxDefinition) {
    let syntax_set = link(syntax);
    let mut state = ParseState::new(&syntax_set.syntaxes()[0]);
    let ops = ops(&mut state, line, &syntax_set);
    expect_scope_stacks_for_ops(ops, expect);
}

fn expect_scope_stacks_for_ops(ops: Vec<Op>, expect: &[&str]) {
    let mut criteria_met = Vec::new();
    for stack_str in stack_states(ops) {
        println!("{}", stack_str);
        for expectation in expect.iter() {
            if stack_str.contains(expectation) {
                criteria_met.push(expectation);
            }
        }
    }
    if let Some(missing) = expect.iter().find(|e| !criteria_met.contains(e)) {
        panic!("expected scope stack '{}' missing", missing);
    }
}

fn parse(line: &str, syntax: &str) -> Vec<Op> {
    let syntax = SyntaxDefinition::load_from_str(syntax, true, None).unwrap();
    let syntax_set = link(syntax);

    let mut state = ParseState::new(&syntax_set.syntaxes()[0]);
    ops(&mut state, line, &syntax_set)
}

fn link(syntax: SyntaxDefinition) -> SyntaxSet {
    let mut builder = SyntaxSetBuilder::new();
    builder.add(syntax);
    builder.build()
}

fn ops(state: &mut ParseState, line: &str, syntax_set: &SyntaxSet) -> Vec<Op> {
    let output = state.parse_line(line, syntax_set).expect("a parse");
    println!("{:?}: {:?}", line, output.ops);
    output.ops
}

fn stack_states(ops: Vec<Op>) -> Vec<String> {
    let mut states = Vec::new();
    let mut stack = ScopeStack::new();
    for (_, op) in ops.iter() {
        stack.apply(op).expect("an operation that applies");
        let scopes: Vec<String> = stack
            .as_slice()
            .iter()
            .map(|s| format!("{:?}", s))
            .collect();
        let stack_str = scopes.join(", ");
        states.push(stack_str);
    }
    states
}

const BRANCH_SYNTAX: &str = r#"
scope: source.branch-test
contexts:
  main:
    - match: '(?=\S)'
      branch_point: stmt
      branch: [let-stmt, generic-stmt]

  let-stmt:
    - match: 'let'
      scope: keyword.declaration.branch-test
      set: let-assign
    - match: '(?=\S)'
      fail: stmt

  let-assign:
    - match: '='
      scope: keyword.operator.assignment.branch-test
      set: let-value
    - match: '(?=\S)'
      fail: stmt

  let-value:
    - match: '\w+'
      scope: constant.other.branch-test
    - match: ';'
      scope: punctuation.terminator.branch-test
      pop: true

  generic-stmt:
    - match: '[^;]+'
      scope: string.unquoted.branch-test
    - match: ';'
      scope: punctuation.terminator.branch-test
      pop: true
"#;

#[test]
fn can_parse_syntax_with_newline_in_character_class() {
    let syntax = r#"
name: test
scope: source.test
contexts:
  main:
    - match: foo[\n]
      scope: foo.end
    - match: foo
      scope: foo.any
"#;

    let line = "foo";
    let expect = ["<source.test>, <foo.end>"];
    expect_scope_stacks(line, &expect, syntax);

    let line = "foofoofoo";
    let expect = [
        "<source.test>, <foo.any>",
        "<source.test>, <foo.any>",
        "<source.test>, <foo.end>",
    ];
    expect_scope_stacks(line, &expect, syntax);
}

#[test]
fn can_parse_non_consuming_pop_that_would_loop() {
    let syntax = r#"
name: test
scope: source.test
contexts:
  main:
    # This makes us go into "test" without consuming any characters
    - match: (?=hello)
      push: test
  test:
    # If we used this match, we'd go back to "main" without consuming anything,
    # and then back into "test", infinitely looping. ST detects this at this
    # point and ignores this match until at least one character matched.
    - match: (?!world)
      pop: true
    - match: \w+
      scope: test.matched
"#;

    let line = "hello";
    let expect = ["<source.test>, <test.matched>"];
    expect_scope_stacks(line, &expect, syntax);
}

#[test]
fn can_parse_non_consuming_set_and_pop_that_would_loop() {
    let syntax = r#"
name: test
scope: source.test
contexts:
  main:
    # This makes us go into "a" without advancing
    - match: (?=test)
      push: a
  a:
    # This makes us go into "b" without advancing
    - match: (?=t)
      set: b
  b:
    # If we used this match, we'd go back to "main" without having advanced,
    # which means we'd have an infinite loop like with the previous test.
    # So even for a "set", we have to check if we're advancing or not.
    - match: (?=t)
      pop: true
    - match: \w+
      scope: test.matched
"#;

    let line = "test";
    let expect = ["<source.test>, <test.matched>"];
    expect_scope_stacks(line, &expect, syntax);
}

#[test]
fn can_parse_non_consuming_set_after_consuming_push_that_does_not_loop() {
    let syntax = r#"
name: test
scope: source.test
contexts:
  main:
    # This makes us go into "a", but we consumed a character
    - match: t
      push: a
    - match: \w+
      scope: test.matched
  a:
    # This makes us go into "b" without consuming
    - match: (?=e)
      set: b
  b:
    # This match does not result in an infinite loop because we already consumed
    # a character to get into "a", so it's ok to pop back into "main".
    - match: (?=e)
      pop: true
"#;

    let line = "test";
    let expect = ["<source.test>, <test.matched>"];
    expect_scope_stacks(line, &expect, syntax);
}

#[test]
fn can_parse_non_consuming_set_after_consuming_set_that_does_not_loop() {
    let syntax = r#"
name: test
scope: source.test
contexts:
  main:
    - match: (?=hello)
      push: a
    - match: \w+
      scope: test.matched
  a:
    - match: h
      set: b
  b:
    - match: (?=e)
      set: c
  c:
    # This is not an infinite loop because "a" consumed a character, so we can
    # actually pop back into main and then match the rest of the input.
    - match: (?=e)
      pop: true
"#;

    let line = "hello";
    let expect = ["<source.test>, <test.matched>"];
    expect_scope_stacks(line, &expect, syntax);
}

#[test]
fn can_parse_non_consuming_pop_that_would_loop_at_end_of_line() {
    let syntax = r#"
name: test
scope: source.test
contexts:
  main:
    # This makes us go into "test" without consuming, even at the end of line
    - match: ""
      push: test
  test:
    - match: ""
      pop: true
    - match: \w+
      scope: test.matched
"#;

    let line = "hello";
    let expect = ["<source.test>, <test.matched>"];
    expect_scope_stacks(line, &expect, syntax);
}

#[test]
fn non_consuming_pop_n_below_pre_push_depth_is_not_a_loop() {
    let syntax = r#"
name: test
scope: source.test
contexts:
  main:
    - match: open
      scope: test.open
      push: wrapper
    - match: y
      scope: test.main.y
    - match: z
      scope: test.main.z
  wrapper:
    - meta_scope: test.wrapper
    - match: ""
      branch_point: fallback
      branch:
        - try
        - give-up
  try:
    - match: x
      scope: test.try.match
    - match: (?=y)
      fail: fallback
  give-up:
    - match: ""
      pop: 2
"#;
    expect_scope_stacks("openyz", &["<source.test>, <test.main.y>"], syntax);
}

#[test]
fn non_consuming_multi_push_with_skip_unwind_does_not_loop() {
    let syntax = r#"
name: test
scope: source.test
contexts:
  main:
    - match: z
      scope: test.main.z
    - match: ""
      push: [a, b, c]
  a: []
  b:
    - match: ""
      pop: 2
  c:
    - match: ""
      pop: 1
"#;
    expect_scope_stacks("z", &["<source.test>, <test.main.z>"], syntax);
}

#[test]
fn can_parse_empty_but_consuming_set_that_does_not_loop() {
    let syntax = r#"
name: test
scope: source.test
contexts:
  main:
    - match: (?=hello)
      push: a
    - match: ello
      scope: test.good
  a:
    # This is an empty match, but it consumed a character (the "h")
    - match: (?=e)
      set: b
  b:
    # .. so it's ok to pop back to main from here
    - match: ""
      pop: true
    - match: ello
      scope: test.bad
"#;

    let line = "hello";
    let expect = ["<source.test>, <test.good>"];
    expect_scope_stacks(line, &expect, syntax);
}

#[test]
fn can_parse_non_consuming_pop_that_does_not_loop() {
    let syntax = r#"
name: test
scope: source.test
contexts:
  main:
    # This is a non-consuming push, so "b" will need to check for a
    # non-consuming pop
    - match: (?=hello)
      push: [b, a]
    - match: ello
      scope: test.good
  a:
    # This pop is ok, it consumed "h"
    - match: (?=e)
      pop: true
  b:
    # This is non-consuming, and we set to "c"
    - match: (?=e)
      set: c
  c:
    # It's ok to pop back to "main" here because we consumed a character in the
    # meantime.
    - match: ""
      pop: true
    - match: ello
      scope: test.bad
"#;

    let line = "hello";
    let expect = ["<source.test>, <test.good>"];
    expect_scope_stacks(line, &expect, syntax);
}

#[test]
fn can_parse_non_consuming_pop_with_multi_push_that_does_not_loop() {
    let syntax = r#"
name: test
scope: source.test
contexts:
  main:
    - match: (?=hello)
      push: [b, a]
    - match: ello
      scope: test.good
  a:
    # This pop is ok, as we're not popping back to "main" yet (which would loop),
    # we're popping to "b"
    - match: ""
      pop: true
    - match: \w+
      scope: test.bad
  b:
    - match: \w+
      scope: test.good
"#;

    let line = "hello";
    let expect = ["<source.test>, <test.good>"];
    expect_scope_stacks(line, &expect, syntax);
}

#[test]
fn can_parse_non_consuming_pop_of_recursive_context_that_does_not_loop() {
    let syntax = r#"
name: test
scope: source.test
contexts:
  main:
    - match: xxx
      scope: test.good
    - include: basic-identifiers

  basic-identifiers:
    - match: '\w+::'
      scope: test.matched
      push: no-type-names

  no-type-names:
      - include: basic-identifiers
      - match: \w+
        scope: test.matched.inside
      # This is a tricky one because when this is the best match,
      # we have two instances of "no-type-names" on the stack, so we're popping
      # back from "no-type-names" to another "no-type-names".
      - match: ''
        pop: true
"#;

    let line = "foo::bar::* xxx";
    let expect = ["<source.test>, <test.good>"];
    expect_scope_stacks(line, &expect, syntax);
}

#[test]
fn scope_only_pattern_that_matches_zero_width_finds_later_non_empty() {
    let syntax = r#"
name: test
scope: source.test
contexts:
  main:
    - match: \h{0,6}
      scope: number.hex
    - match: \S
      scope: invalid.illegal
"#;

    let line = "012ACF 0gxs";
    let expect = [
        "<source.test>, <number.hex>",
        "<source.test>, <invalid.illegal>",
    ];
    expect_scope_stacks(line, &expect, syntax);
}

#[test]
fn scope_only_pattern_with_middle_empty_alt_matches_bang() {
    let syntax = r#"
name: test
scope: source.test
contexts:
  main:
    - match: \|\||&&||!
      scope: keyword.operator
"#;
    let line = "!";
    let expect = ["<source.test>, <keyword.operator>"];
    expect_scope_stacks(line, &expect, syntax);
}

#[test]
fn scope_only_pattern_with_leading_empty_alt_in_group_matches_name() {
    let syntax = r#"
name: test
scope: source.test
contexts:
  main:
    - match: \b(?x:|Box|Vec)\b
      scope: support.type
"#;
    let line = "Vec";
    let expect = ["<source.test>, <support.type>"];
    expect_scope_stacks(line, &expect, syntax);
}

#[test]
fn can_parse_non_consuming_pop_order() {
    let syntax = r#"
name: test
scope: source.test
contexts:
  main:
    - match: (?=hello)
      push: test
  test:
    # This matches first
    - match: (?=e)
      push: good
    # But this (looping) match replaces it, because it's an earlier match
    - match: (?=h)
      pop: true
    # And this should not replace it, as it's a later match (only matches at
    # the same position can replace looping pops).
    - match: (?=o)
      push: bad
  good:
    - match: \w+
      scope: test.good
  bad:
    - match: \w+
      scope: test.bad
"#;

    let line = "hello";
    let expect = ["<source.test>, <test.good>"];
    expect_scope_stacks(line, &expect, syntax);
}

#[test]
fn can_parse_syntax_with_eol_and_newline() {
    let syntax = r#"
name: test
scope: source.test
contexts:
  main:
    - match: foo$\n
      scope: foo.newline
"#;

    let line = "foo";
    let expect = ["<source.test>, <foo.newline>"];
    expect_scope_stacks(line, &expect, syntax);
}

#[test]
fn can_parse_syntax_with_eol_only() {
    let syntax = r#"
name: test
scope: source.test
contexts:
  main:
    - match: foo$
      scope: foo.newline
"#;

    let line = "foo";
    let expect = ["<source.test>, <foo.newline>"];
    expect_scope_stacks(line, &expect, syntax);
}

#[test]
fn can_parse_syntax_with_beginning_of_line() {
    let syntax = r#"
name: test
scope: source.test
contexts:
  main:
    - match: \w+
      scope: word
      push:
        # this should not match at the end of the line
        - match: ^\s*$
          pop: true
        - match: =+
          scope: heading
          pop: true
    - match: .*
      scope: other
"#;

    let syntax_newlines = SyntaxDefinition::load_from_str(syntax, true, None).unwrap();
    let syntax_set = link(syntax_newlines);

    let mut state = ParseState::new(&syntax_set.syntaxes()[0]);
    assert_eq!(
        ops(&mut state, "foo\n", &syntax_set),
        vec![
            (0, ScopeStackOp::Push(Scope::new("source.test").unwrap())),
            (0, ScopeStackOp::Push(Scope::new("word").unwrap())),
            (3, ScopeStackOp::Pop(1))
        ]
    );
    assert_eq!(
        ops(&mut state, "===\n", &syntax_set),
        vec![(0, ScopeStackOp::Push(Scope::new("heading").unwrap())), (3, ScopeStackOp::Pop(1))]
    );

    assert_eq!(
        ops(&mut state, "bar\n", &syntax_set),
        vec![(0, ScopeStackOp::Push(Scope::new("word").unwrap())), (3, ScopeStackOp::Pop(1))]
    );
    assert_eq!(ops(&mut state, "\n", &syntax_set), vec![]);
    assert_eq!(
        ops(&mut state, "====\n", &syntax_set),
        vec![(0, ScopeStackOp::Push(Scope::new("other").unwrap())), (4, ScopeStackOp::Pop(1))]
    );
}

#[test]
fn can_parse_syntax_with_comment_and_eol() {
    let syntax = r#"
name: test
scope: source.test
contexts:
  main:
    - match: (//).*$
      scope: comment.line.double-slash
"#;

    let syntax_newlines = SyntaxDefinition::load_from_str(syntax, true, None).unwrap();
    let syntax_set = link(syntax_newlines);

    let mut state = ParseState::new(&syntax_set.syntaxes()[0]);
    assert_eq!(
        ops(&mut state, "// foo\n", &syntax_set),
        vec![
            (0, ScopeStackOp::Push(Scope::new("source.test").unwrap())),
            (0, ScopeStackOp::Push(Scope::new("comment.line.double-slash").unwrap())),
            (6, ScopeStackOp::Pop(1))
        ]
    );
}

#[test]
fn can_parse_text_with_unicode_to_skip() {
    let syntax = r#"
name: test
scope: source.test
contexts:
  main:
    - match: (?=.)
      push: test
  test:
    - match: (?=.)
      pop: true
    - match: x
      scope: test.good
"#;

    expect_scope_stacks("\u{03C0}x", &["<source.test>, <test.good>"], syntax);
    expect_scope_stacks("\u{0800}x", &["<source.test>, <test.good>"], syntax);
    expect_scope_stacks("\u{1F600}x", &["<source.test>, <test.good>"], syntax);
}

#[test]
fn can_include_backrefs() {
    let syntax = SyntaxDefinition::load_from_str(
        r#"
                name: Backref Include Test
                scope: source.backrefinc
                contexts:
                  main:
                    - match: (a)
                      scope: a
                      push: context1
                  context1:
                    - include: context2
                  context2:
                    - match: \1
                      scope: b
                      pop: true
                "#,
        true,
        None,
    )
    .unwrap();

    expect_scope_stacks_with_syntax("aa", &["<a>", "<b>"], syntax);
}

#[test]
fn can_include_nested_backrefs() {
    let syntax = SyntaxDefinition::load_from_str(
        r#"
                name: Backref Include Test
                scope: source.backrefinc
                contexts:
                  main:
                    - match: (a)
                      scope: a
                      push: context1
                  context1:
                    - include: context3
                  context3:
                    - include: context2
                  context2:
                    - match: \1
                      scope: b
                      pop: true
                "#,
        true,
        None,
    )
    .unwrap();

    expect_scope_stacks_with_syntax("aa", &["<a>", "<b>"], syntax);
}

#[test]
fn can_avoid_infinite_stack_depth() {
    let syntax = SyntaxDefinition::load_from_str(
        r#"
                name: Stack Depth Test
                scope: source.stack_depth
                contexts:
                  main:
                    - match: (a)
                      scope: a
                      push: context1

                    
                  context1:
                    - match: b
                      scope: b
                    - match: ''
                      push: context1
                    - match: ''
                      pop: 1
                    - match: c
                      scope: c
                "#,
        true,
        None,
    )
    .unwrap();

    let syntax_set = link(syntax);
    let mut state = ParseState::new(&syntax_set.syntaxes()[0]);
    expect_scope_stacks_for_ops(ops(&mut state, "a bc\n", &syntax_set), &["<a>"]);
    expect_scope_stacks_for_ops(ops(&mut state, "bc\n", &syntax_set), &["<b>"]);
}

#[test]
fn consuming_match_not_treated_as_loop() {
    let syntax_str = r#"
name: ConsumingTest
scope: source.consuming
contexts:
  main:
    - match: '(?=\S)'
      push: inner
    - match: '\n'
  inner:
    - match: '\w+'
      scope: word.consuming
      pop: true
"#;
    let syntax = SyntaxDefinition::load_from_str(syntax_str, true, None).unwrap();
    let ss = link(syntax);
    let mut state = ParseState::new(&ss.syntaxes()[0]);

    let raw_ops = ops(&mut state, "hello world\n", &ss);
    let first_word_pos = raw_ops
        .iter()
        .find_map(|(pos, op)| match op {
            ScopeStackOp::Push(s) if format!("{:?}", s).contains("word.consuming") => Some(*pos),
            _ => None,
        })
        .expect("expected at least one word.consuming push");
    assert_eq!(
        first_word_pos, 0,
        "word.consuming must start at position 0 (consuming pop should not be treated as loop)"
    );
}

#[test]
fn captures_clipped_to_match_bounds_when_group_extends_past_match_end() {
    let syntax_str = r#"
name: CapturesClip
scope: source.capclip
contexts:
  main:
    - match: '(foo)(?=(barrr)baz)(bar)'
      captures:
        1: captured-foo.capclip
        2: lookahead-group.capclip
        3: consumed-bar.capclip
"#;
    let syntax = SyntaxDefinition::load_from_str(syntax_str, true, None).unwrap();
    let ss = link(syntax);
    let mut state = ParseState::new(&ss.syntaxes()[0]);
    let raw_ops = ops(&mut state, "foobarrrbaz\n", &ss);

    let lookahead_pushes: Vec<usize> = raw_ops
        .iter()
        .filter_map(|(pos, op)| match op {
            ScopeStackOp::Push(s) if format!("{:?}", s).contains("lookahead-group") => Some(*pos),
            _ => None,
        })
        .collect();
    assert_eq!(
        lookahead_pushes,
        vec![3],
        "`captures: 2:` (lookahead-internal group) must Push the \
             clipped scope at match_start=3; raw_ops={:?}",
        raw_ops
    );
    let match_end = 6;
    let past_match: Vec<_> = raw_ops.iter().filter(|(pos, _)| *pos > match_end).collect();
    assert!(
        past_match.is_empty(),
        "No capture op should sit past match_end={}; found {:?}",
        match_end,
        past_match
    );
}

#[test]
fn capture_sort_by_span_length() {
    let syntax_str = r#"
name: CaptureSort
scope: source.capsort
contexts:
  main:
    - match: '((a)(b))'
      captures:
        1: outer.capsort
        2: inner-a.capsort
        3: inner-b.capsort
"#;
    let syntax = SyntaxDefinition::load_from_str(syntax_str, true, None).unwrap();
    let ss = link(syntax);
    let mut state = ParseState::new(&ss.syntaxes()[0]);
    let raw_ops = ops(&mut state, "ab\n", &ss);

    let push_order: Vec<&str> = raw_ops
        .iter()
        .filter_map(|(_, op)| match op {
            ScopeStackOp::Push(s) => {
                let name = format!("{:?}", s);
                if name.contains("outer.capsort") {
                    Some("outer")
                } else if name.contains("inner-a.capsort") {
                    Some("inner-a")
                } else if name.contains("inner-b.capsort") {
                    Some("inner-b")
                } else {
                    None
                }
            }
            _ => None,
        })
        .collect();
    assert_eq!(
        push_order,
        vec!["outer", "inner-a", "inner-b"],
        "captures must push in longest-span-first order, got: {:?}",
        push_order
    );
}

#[test]
fn can_parse_prototype_that_pops_main() {
    let syntax = r#"
name: test
scope: source.test
contexts:
  prototype:
    # This causes us to pop out of the main context. Sublime Text handles that
    # by pushing main back automatically.
    - match: (?=!)
      pop: true
  main:
    - match: foo
      scope: test.good
"#;

    let line = "foo!";
    let expect = ["<source.test>, <test.good>"];
    expect_scope_stacks(line, &expect, syntax);
}

#[test]
fn can_parse_prototype_that_pops_multiple_context() {
    let syntax = r#"
name: test
scope: source.test
contexts:
  prototype:
    - match: "!"
      pop: 2
  bar:
    - match: \bbaz\b
      push: baz
      scope: main.baz
  foo:
    - match: \bbar\b
      push: bar
      scope: test.bar
    - match: \bgood\b
      push: baz
      scope: test.good
  baz: []
    
  main:
    - match: \bfoo\b
      push: foo
      scope: test.foo
"#;

    let line = "foo bar baz ! good";
    let expect = ["<source.test>, <test.good>"];
    expect_scope_stacks(line, &expect, syntax);
}

#[test]
fn can_parse_context_included_in_prototype_via_named_reference() {
    let syntax = r#"
scope: source.test
contexts:
  prototype:
    - match: a
      push: a
    - match: b
      scope: test.bad
  main:
    - match: unused
  # This context is included in the prototype (see `push: a`).
  # Because of that, ST doesn't apply the prototype to this context, so if
  # we're in here the "b" shouldn't match.
  a:
    - match: a
      scope: test.good
"#;

    let stack_states = stack_states(parse("aa b", syntax));
    assert_eq!(
        stack_states,
        vec![
            "<source.test>",
            "<source.test>, <test.good>",
            "<source.test>",
        ],
        "Expected test.bad to not match"
    );
}

#[test]
fn can_parse_with_prototype_set() {
    let syntax = r#"%YAML 1.2
---
scope: source.test-set-with-proto
contexts:
  main:
    - match: a
      scope: a
      set: next1
      with_prototype:
        - match: '1'
          scope: '1'
        - match: '2'
          scope: '2'
        - match: '3'
          scope: '3'
        - match: '4'
          scope: '4'
    - match: '5'
      scope: '5'
      set: [next3, next2]
      with_prototype:
        - match: c
          scope: cwith
  next1:
    - match: b
      scope: b
      set: next2
  next2:
    - match: c
      scope: c
      push: next3
    - match: e
      scope: e
      pop: true
    - match: f
      scope: f
      set: [next1, next2]
  next3:
    - match: d
      scope: d
    - match: (?=e)
      pop: true
    - match: c
      scope: cwithout
"#;

    expect_scope_stacks_with_syntax(
        "a1b2c3d4e5",
        &[
            "<a>", "<1>", "<b>", "<2>", "<c>", "<3>", "<d>", "<4>", "<e>", "<5>",
        ],
        SyntaxDefinition::load_from_str(syntax, true, None).unwrap(),
    );
    expect_scope_stacks_with_syntax(
        "5cfcecbedcdea",
        &[
            "<5>",
            "<cwith>",
            "<f>",
            "<e>",
            "<b>",
            "<d>",
            "<cwithout>",
            "<a>",
        ],
        SyntaxDefinition::load_from_str(syntax, true, None).unwrap(),
    );
}

#[test]
fn can_parse_two_with_prototypes_at_same_stack_level() {
    let syntax_yamlstr = r#"
%YAML 1.2
---
# See http://www.sublimetext.com/docs/3/syntax.html
scope: source.example-wp
contexts:
  main:
    - match: a
      scope: a
      push:
        - match: b
          scope: b
          set:
            - match: c
              scope: c
          with_prototype:
            - match: '2'
              scope: '2'
      with_prototype:
        - match: '1'
          scope: '1'
"#;

    let syntax = SyntaxDefinition::load_from_str(syntax_yamlstr, true, None).unwrap();
    expect_scope_stacks_with_syntax("abc12", &["<1>", "<2>"], syntax);
}

#[test]
fn can_parse_two_with_prototypes_at_same_stack_level_set_multiple() {
    let syntax_yamlstr = r#"
%YAML 1.2
---
# See http://www.sublimetext.com/docs/3/syntax.html
scope: source.example-wp
contexts:
  main:
    - match: a
      scope: a
      push:
        - match: b
          scope: b
          set: [context1, context2, context3]
          with_prototype:
            - match: '2'
              scope: '2'
      with_prototype:
        - match: '1'
          scope: '1'
    - match: '1'
      scope: digit1
    - match: '2'
      scope: digit2
  context1:
    - match: e
      scope: e
      pop: true
    - match: '2'
      scope: digit2
  context2:
    - match: d
      scope: d
      pop: true
    - match: '2'
      scope: digit2
  context3:
    - match: c
      scope: c
      pop: true
"#;

    let syntax = SyntaxDefinition::load_from_str(syntax_yamlstr, true, None).unwrap();
    expect_scope_stacks_with_syntax("ab12", &["<1>", "<2>"], syntax.clone());
    expect_scope_stacks_with_syntax("abc12", &["<1>", "<digit2>"], syntax.clone());
    expect_scope_stacks_with_syntax("abcd12", &["<1>", "<digit2>"], syntax.clone());
    expect_scope_stacks_with_syntax("abcde12", &["<digit1>", "<digit2>"], syntax);
}

#[test]
fn can_parse_two_with_prototypes_at_same_stack_level_updated_captures() {
    let syntax_yamlstr = r#"
%YAML 1.2
---
# See http://www.sublimetext.com/docs/3/syntax.html
scope: source.example-wp
contexts:
  main:
    - match: (a)
      scope: a
      push:
        - match: (b)
          scope: b
          set:
            - match: c
              scope: c
          with_prototype:
            - match: d
              scope: d
      with_prototype:
        - match: \1
          scope: '1'
          pop: true
"#;

    let syntax = SyntaxDefinition::load_from_str(syntax_yamlstr, true, None).unwrap();
    expect_scope_stacks_with_syntax("aa", &["<a>", "<1>"], syntax.clone());
    expect_scope_stacks_with_syntax("abcdb", &["<a>", "<b>", "<c>", "<d>", "<1>"], syntax);
}

#[test]
fn can_parse_two_with_prototypes_at_same_stack_level_updated_captures_ignore_unexisting() {
    let syntax_yamlstr = r#"
%YAML 1.2
---
# See http://www.sublimetext.com/docs/3/syntax.html
scope: source.example-wp
contexts:
  main:
    - match: (a)(-)
      scope: a
      push:
        - match: (b)
          scope: b
          set:
            - match: c
              scope: c
          with_prototype:
            - match: d
              scope: d
      with_prototype:
        - match: \2
          scope: '2'
          pop: true
        - match: \1
          scope: '1'
          pop: true
"#;

    let syntax = SyntaxDefinition::load_from_str(syntax_yamlstr, true, None).unwrap();
    expect_scope_stacks_with_syntax("a--", &["<a>", "<2>"], syntax.clone());
    expect_scope_stacks_with_syntax("a-bcdba-", &["<a>", "<b>"], syntax);
}

#[test]
fn pop_n_unwinds_all_n_contexts_meta_scopes() {
    let syntax = SyntaxDefinition::load_from_str(
        r#"
                name: Pop N Test
                scope: source.test
                contexts:
                  main:
                    - match: \(
                      scope: open
                      push: [outer, inner]
                  outer:
                    - meta_scope: outer.test
                  inner:
                    - meta_content_scope: inner.test
                    - match: \)
                      scope: close
                      pop: 2
                "#,
        true,
        None,
    )
    .unwrap();

    let syntax_set = link(syntax);
    let mut state = ParseState::new(&syntax_set.syntaxes()[0]);
    let o = ops(&mut state, "(x)\n", &syntax_set);
    let mut stack = ScopeStack::new();
    for (_, op) in &o {
        stack.apply(op).unwrap();
    }
    let final_scopes: Vec<String> = stack
        .as_slice()
        .iter()
        .map(|s| format!("{:?}", s))
        .collect();
    assert!(
        !final_scopes.iter().any(|s| s.contains("outer.test")),
        "outer.test meta_scope leaked past pop: 2; final stack: {:?}",
        final_scopes
    );
    assert!(
        !final_scopes.iter().any(|s| s.contains("inner.test")),
        "inner.test meta_content_scope leaked past pop: 2; final stack: {:?}",
        final_scopes
    );
}

#[test]
fn chained_set_with_included_eol_popper_pops_at_line_boundary() {
    let syntax = SyntaxDefinition::load_from_str(
        r#"
                name: EOL Pop Chained Test
                scope: source.test
                contexts:
                  main:
                    - match: (?=\S)
                      push: outer
                  outer:
                    - match: ''
                      set: [value-body, eat-whitespace-then-pop]
                  eat-whitespace-then-pop:
                    - match: \s*
                      pop: 1
                  value-body:
                    - match: ''
                      set: value-content
                  value-content:
                    - meta_content_scope: meta.string.test
                    - include: pop-on-eol
                  pop-on-eol:
                    - match: $
                      pop: 1
                "#,
        true,
        None,
    )
    .unwrap();

    let syntax_set = link(syntax);
    let mut state = ParseState::new(&syntax_set.syntaxes()[0]);
    let o = ops(&mut state, "bar\n", &syntax_set);

    let mut stack = ScopeStack::new();
    for (_, op) in &o {
        stack.apply(op).unwrap();
    }
    let final_scopes: Vec<String> = stack
        .as_slice()
        .iter()
        .map(|s| format!("{:?}", s))
        .collect();
    assert!(
        !final_scopes.iter().any(|s| s.contains("meta.string.test")),
        "meta.string.test leaked past EOL; final scope stack: {:?}",
        final_scopes
    );
}

#[test]
fn v2_set_pops_meta_content_scope_from_matched_text() {
    let syntax_str = r#"
name: V2SetMeta
scope: source.v2setmeta
version: 2
contexts:
  main:
    - match: '(?=\S)'
      push: ctx-a
  ctx-a:
    - meta_scope: meta.a.v2setmeta
    - match: 'GO'
      scope: keyword.go.v2setmeta
      set: ctx-b
    - match: '\w+'
      scope: word.a.v2setmeta
  ctx-b:
    - meta_scope: meta.b.v2setmeta
    - match: '\w+'
      scope: word.b.v2setmeta
      pop: true
"#;
    let syntax = SyntaxDefinition::load_from_str(syntax_str, true, None).unwrap();
    let ss = link(syntax);
    let mut state = ParseState::new(&ss.syntaxes()[0]);
    let raw_ops = ops(&mut state, "GO hello\n", &ss);
    let states = stack_states(raw_ops);

    let last_state = states.last().expect("expected some states");
    assert!(
        !last_state.contains("meta.a.v2setmeta"),
        "meta.a should have been popped after set, got: {:?}",
        last_state
    );
}

#[test]
fn v2_set_from_context_with_clear_scopes_restores_cleared_atoms() {
    let syntax_str = r#"
name: V2SetRestore
scope: source.v2setrestore
version: 2
contexts:
  main:
    - meta_scope: meta.outer.v2setrestore
    - match: '\{'
      push: value-body

  value-body:
    - clear_scopes: 1
    - meta_scope: meta.value.v2setrestore
    - match: 'x'
      scope: keyword.x.v2setrestore
      set: follow-up

  follow-up:
    - match: '\w+'
      scope: word.follow.v2setrestore
"#;
    let syntax = SyntaxDefinition::load_from_str(syntax_str, true, None).unwrap();
    let ss = link(syntax);
    let mut state = ParseState::new(&ss.syntaxes()[0]);
    let raw_ops = ops(&mut state, "{xhello\n", &ss);

    let states = stack_states(raw_ops);
    let follow_states: Vec<_> = states
        .iter()
        .filter(|s| s.contains("word.follow.v2setrestore"))
        .collect();
    assert!(
        !follow_states.is_empty(),
        "expected to enter follow-up context, got states: {:?}",
        states
    );
    assert!(
        follow_states
            .iter()
            .any(|s| s.contains("meta.outer.v2setrestore")),
        "meta.outer must be restored after leaving value-body (which cleared it): {:?}",
        follow_states
    );
    assert!(
        !follow_states
            .iter()
            .any(|s| s.contains("meta.value.v2setrestore")),
        "meta.value (from the exited context) must not leak into follow-up: {:?}",
        follow_states
    );
}

#[test]
fn v2_set_to_target_with_clear_scopes_clears_parent_meta_content_scope() {
    let syntax_str = r#"
name: V2SetTargetClear
scope: source.v2settargetclear
version: 2
contexts:
  main:
    - match: '\('
      scope: punctuation.section.parens.begin.v2settargetclear
      push: [body, params-open]

  body:
    - meta_content_scope: meta.function.v2settargetclear
    - match: '\)'
      scope: punctuation.section.parens.end.v2settargetclear
      pop: 1

  params-open:
    - match: '\('
      scope: punctuation.section.parameters.begin.v2settargetclear
      set: params-body
    - include: else-pop

  params-body:
    - clear_scopes: 1
    - meta_scope: meta.function.parameters.v2settargetclear
    - match: '\)'
      scope: punctuation.section.parameters.end.v2settargetclear
      pop: 1
    - match: '\w+'
      scope: variable.parameter.v2settargetclear
"#;
    let syntax = SyntaxDefinition::load_from_str(syntax_str, true, None).unwrap();
    let ss = link(syntax);
    let mut state = ParseState::new(&ss.syntaxes()[0]);
    let raw_ops = ops(&mut state, "( (n1 n2))\n", &ss);

    let states = stack_states(raw_ops);

    let param_states: Vec<_> = states
        .iter()
        .filter(|s| s.contains("meta.function.parameters.v2settargetclear"))
        .collect();
    assert!(
        !param_states.is_empty(),
        "expected to enter params-body context, got states: {:?}",
        states
    );
    let outer = "<meta.function.v2settargetclear>";
    for s in &param_states {
        assert!(
            !s.contains(outer),
            "outer meta.function must be cleared under params-body, \
                 but found it alongside meta.function.parameters: {:?}",
            s
        );
    }

    let after_inner_close: Vec<_> = states
        .iter()
        .rev()
        .take_while(|s| !s.contains("meta.function.parameters.v2settargetclear"))
        .collect();
    assert!(
        after_inner_close
            .iter()
            .any(|s| s.contains("meta.function.v2settargetclear")),
        "meta.function must be restored after params-body pops, got trailing states: {:?}",
        after_inner_close
    );
}

#[test]
fn pop_n_set_with_cur_clear_scopes_restores_before_popping_deeper_frames() {
    let syntax_str = r#"
name: PopNSetClear
scope: source.popnsetclear
version: 2
contexts:
  main:
    - match: 'a'
      scope: p.a
      push: [outer, middle]

  outer:
    - meta_scope: outer.test
    - match: 'z'
      pop: 1

  middle:
    - meta_content_scope: mid1.test mid2.test
    - match: 'b'
      scope: p.b
      push: top

  top:
    - clear_scopes: 1
    - match: 'c'
      scope: p.c
      pop: 2
      set: target

  target:
    - meta_scope: target.test
    - match: 'd'
      scope: p.d
"#;
    let syntax = SyntaxDefinition::load_from_str(syntax_str, true, None).unwrap();
    let ss = link(syntax);
    let mut state = ParseState::new(&ss.syntaxes()[0]);
    let raw_ops = ops(&mut state, "abcd", &ss);
    let states = stack_states(raw_ops);

    let d_state = states
        .iter()
        .find(|s| s.contains("p.d"))
        .unwrap_or_else(|| panic!("expected a state containing `p.d`, got: {:?}", states));
    assert!(
        d_state.contains("outer.test"),
        "outer.test must survive pop:2+set: (it sits below the popped range): {}",
        d_state
    );
    assert!(
        d_state.contains("target.test"),
        "target.test must be on the stack (target was pushed by set:): {}",
        d_state
    );
    assert!(
        !d_state.contains("mid1.test") && !d_state.contains("mid2.test"),
        "middle's meta_content_scope atoms must not linger after pop:2+set:, \
             including the atom that was in clear_stack: {}",
        d_state
    );
}

#[test]
fn pop_n_set_restores_deeper_frame_clear_scopes() {
    let syntax_str = r#"
name: PopNSetDeeperClear
scope: source.popnsetdeepclear
version: 2
contexts:
  main:
    - match: 'a'
      scope: p.a
      push: outer

  outer:
    - meta_content_scope: keep-me.test
    - match: 'b'
      scope: p.b
      push: lit

  lit:
    - meta_scope: clear-me.test
    - match: 'c'
      scope: p.c
      push: [frame, inner]

  frame:
    - clear_scopes: 1
    - meta_scope: fra.test frb.test
    - match: 'z'
      pop: 1

  inner:
    - match: 'd'
      scope: p.d
      pop: 2
      set: [target, popper]

  target:
    - clear_scopes: 1
    - meta_scope: tgt.test
    - match: 'e'
      scope: p.e
      pop: 1

  popper:
    - match: ''
      pop: 1
"#;
    let syntax = SyntaxDefinition::load_from_str(syntax_str, true, None).unwrap();
    let ss = link(syntax);
    let mut state = ParseState::new(&ss.syntaxes()[0]);
    let raw_ops = ops(&mut state, "abcde", &ss);
    let states = stack_states(raw_ops);

    let e_state = states
        .iter()
        .find(|s| s.contains("p.e"))
        .unwrap_or_else(|| panic!("expected a state containing `p.e`, got: {:?}", states));
    assert!(
        e_state.contains("keep-me.test"),
        "keep-me.test must survive pop:3+set: with deeper clear_scopes \
             (without per-depth Restore, target's clear ate this atom): {}",
        e_state
    );
    assert!(
        e_state.contains("tgt.test"),
        "tgt.test must be on the stack (target was pushed by set:): {}",
        e_state
    );
    assert!(
        !e_state.contains("fra.test") && !e_state.contains("frb.test"),
        "frame's meta_scope must not linger after pop:3+set:: {}",
        e_state
    );
    assert!(
        !e_state.contains("clear-me.test"),
        "clear-me.test must be cleared by target's clear_scopes:1 \
             (it was first cleared by frame on entry, restored by the \
             deeper-clear unwind, then cleared again by target): {}",
        e_state
    );
}

#[test]
fn pop_n_set_with_stacked_meta_scopes_keeps_deeper_meta_scope_at_trigger() {
    let syntax_str = r#"
name: PopNSetStacked
scope: source.popnsetstacked
version: 2
contexts:
  main:
    - match: 'a'
      scope: p.a
      push: mid

  mid:
    - meta_scope: meta.mid
    - match: 'b'
      scope: p.b
      push: inner

  inner:
    - meta_scope: meta.inner
    - match: 'c'
      scope: p.c
      pop: 2
      set: target

  target:
    - meta_scope: meta.target
    - match: 'd'
      scope: p.d
      pop: 1
"#;
    let syntax = SyntaxDefinition::load_from_str(syntax_str, true, None).unwrap();
    let ss = link(syntax);
    let mut state = ParseState::new(&ss.syntaxes()[0]);
    let raw_ops = ops(&mut state, "abcd", &ss);
    let states = stack_states(raw_ops);

    let c_state = states
        .iter()
        .find(|s| s.contains("p.c"))
        .unwrap_or_else(|| panic!("expected a state containing `p.c`, got: {:?}", states));
    assert!(
        c_state.contains("meta.mid"),
        "meta.mid (deeper popped frame's meta_scope) must remain visible \
             at the `c` trigger of `pop: 2 + set:` (ST stacking semantics): {}",
        c_state
    );
    assert!(
        c_state.contains("meta.inner"),
        "meta.inner (cur context's meta_scope) must remain visible at \
             the `c` trigger of `pop: 2 + set:`: {}",
        c_state
    );
    assert!(
        c_state.contains("meta.target"),
        "meta.target (pushed target's meta_scope) must be visible at \
             the `c` trigger of `pop: 2 + set:`: {}",
        c_state
    );

    let d_state = states
        .iter()
        .find(|s| s.contains("p.d"))
        .unwrap_or_else(|| panic!("expected a state containing `p.d`, got: {:?}", states));
    assert!(
        !d_state.contains("meta.mid") && !d_state.contains("meta.inner"),
        "popped frames' meta_scope must not linger past the trigger: {}",
        d_state
    );
    assert!(
        d_state.contains("meta.target"),
        "meta.target must remain on the stack for subsequent tokens: {}",
        d_state
    );
}

#[test]
fn pop_n_set_with_leading_atom_keeps_duplicate_at_trigger() {
    let syntax_str = r#"
name: SetDedupProbe
scope: source.setdedupprobe
version: 2
contexts:
  main:
    - match: 'a'
      scope: p.a
      push: outer

  outer:
    - meta_scope: meta.outer
    - match: ';'
      scope: meta.outer punctuation.semi
      set: target

  target:
    - meta_scope: meta.target
    - match: 'd'
      scope: p.d
      pop: 1
"#;
    let syntax = SyntaxDefinition::load_from_str(syntax_str, true, None).unwrap();
    let ss = link(syntax);
    let mut state = ParseState::new(&ss.syntaxes()[0]);
    let raw_ops = ops(&mut state, "a;d", &ss);
    let states = stack_states(raw_ops);

    let semi_state = states
        .iter()
        .find(|s| s.contains("punctuation.semi"))
        .unwrap_or_else(|| {
            panic!(
                "expected a state containing `punctuation.semi`, got: {:?}",
                states
            )
        });
    let outer_count = semi_state.matches("meta.outer").count();
    assert_eq!(
        outer_count, 2,
        "meta.outer must appear twice on the `;` trigger of \
             `pop: 1 + set:` whose rule scope leads with the popped \
             frame's meta_scope (ST stacking — no leading-atom collapse): {}",
        semi_state
    );
    assert!(
        semi_state.contains("meta.target"),
        "meta.target (pushed target's meta_scope) must be visible \
             at the `;` trigger: {}",
        semi_state
    );
    assert!(
        semi_state.contains("punctuation.semi"),
        "punctuation.semi (rule's last scope atom) must be visible \
             at the `;` trigger: {}",
        semi_state
    );
}

#[test]
fn pop_n_set_without_deeper_clear_scopes_unaffected() {
    let syntax_str = r#"
name: PopNSetNoDeeperClear
scope: source.popnsetnodeepclear
version: 2
contexts:
  main:
    - match: 'a'
      scope: p.a
      push: outer

  outer:
    - meta_scope: outer.test
    - match: 'b'
      scope: p.b
      push: [frame, inner]

  frame:
    - meta_scope: fra.test frb.test
    - match: 'z'
      pop: 1

  inner:
    - match: 'c'
      scope: p.c
      pop: 2
      set: target

  target:
    - meta_scope: tgt.test
    - match: 'd'
      scope: p.d
      pop: 1
"#;
    let syntax = SyntaxDefinition::load_from_str(syntax_str, true, None).unwrap();
    let ss = link(syntax);
    let mut state = ParseState::new(&ss.syntaxes()[0]);
    let raw_ops = ops(&mut state, "abcd", &ss);
    let states = stack_states(raw_ops);

    let d_state = states
        .iter()
        .find(|s| s.contains("p.d"))
        .unwrap_or_else(|| panic!("expected a state containing `p.d`, got: {:?}", states));
    assert!(
        d_state.contains("outer.test"),
        "outer.test must survive pop:2+set: (sits below the popped range): {}",
        d_state
    );
    assert!(
        d_state.contains("tgt.test"),
        "tgt.test must be on the stack (target was pushed by set:): {}",
        d_state
    );
    assert!(
        !d_state.contains("fra.test") && !d_state.contains("frb.test"),
        "frame's meta_scope must not linger after pop:2+set:: {}",
        d_state
    );
}

#[test]
fn cur_meta_scope_set_to_target_with_clear_scopes() {
    let syntax_str = r#"
name: CurMsSetTargetClear
scope: source.curmssettargetclear
version: 2
contexts:
  main:
    - match: 'p'
      scope: p.p
      push: parent

  parent:
    - meta_scope: parent1.test parent2.test
    - match: '~'
      scope: keyword.tilde
      set: cur

  cur:
    - clear_scopes: 1
    - meta_scope: cur.test
    - match: ''
      set: target

  target:
    - clear_scopes: 1
    - meta_content_scope: target.mcs1.test target.mcs2.test
    - match: '(?=/)'
      pop: 1
"#;
    let syntax = SyntaxDefinition::load_from_str(syntax_str, true, None).unwrap();
    let ss = link(syntax);
    let mut state = ParseState::new(&ss.syntaxes()[0]);
    let raw_ops = ops(&mut state, "p~/x\n", &ss);
    let states = stack_states(raw_ops);

    let leaked: Vec<_> = states.iter().filter(|s| s.contains("cur.test")).collect();
    let target_first = states.iter().position(|s| s.contains("target.mcs1.test"));
    if let Some(idx) = target_first {
        for (i, s) in states.iter().enumerate().skip(idx) {
            assert!(
                !s.contains("cur.test"),
                "cur.test must not linger from index {} onward (target entered at {}): {}",
                i,
                idx,
                s
            );
        }
    } else {
        assert!(
            leaked.is_empty(),
            "cur.test leaked into recorded states after the SET chain: {:?}",
            leaked
        );
    }
}

#[test]
fn multi_set_target_clear_with_target_mcs_only_does_not_extra_drop() {
    let syntax_str = r#"
name: ZshLikeMultiSetTargetMcsOnly
scope: source.zshlikemulti
version: 2
contexts:
  main:
    - match: '(?=\S)'
      push: outer

  outer:
    - meta_content_scope: outer.mcs.test
    - match: 'F'
      scope: keyword.f.test
      push: parent

  parent:
    - meta_content_scope: parent.mcs.test
    - match: '\('
      scope: parent.lparen.test
      push: cur

  cur:
    - match: ':'
      scope: trigger.colon.test
      set: [body, helper]
    - match: '(?=\S)'
      pop: 1

  body:
    - clear_scopes: 1
    - meta_content_scope: body.mcs.test
    - match: '\w+'
      scope: body.word.test
      pop: 1

  helper:
    - match: '(?=\S)'
      pop: 1
"#;
    let syntax = SyntaxDefinition::load_from_str(syntax_str, true, None).unwrap();
    let ss = link(syntax);
    let mut state = ParseState::new(&ss.syntaxes()[0]);
    let raw_ops = ops(&mut state, "F(:foo\n", &ss);
    let states = stack_states(raw_ops);

    let colon_state = states
        .iter()
        .find(|s| s.contains("trigger.colon.test"))
        .unwrap_or_else(|| {
            panic!(
                "expected a state containing trigger.colon.test, got: {:?}",
                states
            )
        });
    assert!(
        colon_state.contains("parent.mcs.test"),
        "trigger must keep parent.mcs (target has no meta_scope, no extra-drop): {}",
        colon_state
    );
    assert!(
        colon_state.contains("outer.mcs.test"),
        "trigger must keep outer.mcs (target has no meta_scope, no extra-drop): {}",
        colon_state
    );
}

#[test]
fn v2_set_clear_scopes_applies_from_every_context() {
    let syntax_str = r#"
name: V2ClearMid
scope: source.v2clear
version: 2
contexts:
  main:
    - meta_scope: meta.main.v2clear
    - match: 'GO'
      set: [ctx-bottom, ctx-middle, ctx-top]
  ctx-bottom:
    - meta_content_scope: mcs.bottom.v2clear
  ctx-middle:
    - clear_scopes: 1
    - meta_content_scope: mcs.middle.v2clear
  ctx-top:
    - meta_content_scope: mcs.top.v2clear
    - match: '\w+'
      scope: word.top.v2clear
      pop: true
"#;
    let syntax = SyntaxDefinition::load_from_str(syntax_str, true, None).unwrap();
    let ss = link(syntax);
    let mut state = ParseState::new(&ss.syntaxes()[0]);
    let raw_ops = ops(&mut state, "GO hello\n", &ss);
    let states = stack_states(raw_ops);

    let hello_states: Vec<_> = states
        .iter()
        .filter(|s| s.contains("word.top.v2clear"))
        .collect();
    assert!(
        !hello_states.is_empty(),
        "expected word.top.v2clear, got states: {:?}",
        states
    );
    for s in &hello_states {
        assert!(
            !s.contains("mcs.bottom.v2clear"),
            "ctx-bottom's mcs should have been cleared by ctx-middle's \
                 clear_scopes: 1 before ctx-top's match, got: {:?}",
            s
        );
        assert!(
            s.contains("mcs.middle.v2clear"),
            "ctx-middle's mcs should be on the stack during ctx-top's match, \
                 got: {:?}",
            s
        );
    }

}

#[test]
fn v2_multi_set_non_topmost_clear_scopes_strips_preceding_meta_scope_at_trigger() {
    let syntax_str = r#"
name: V2MultiSetNonTopClear
scope: source.v2mscstrigger
version: 2
contexts:
  main:
    - match: '\['
      scope: punctuation.section.brackets.begin
      set: middle
  middle:
    - meta_include_prototype: false
    - match: '(<)'
      captures:
        1: meta.range.begin punctuation.definition.range.begin
      set:
        - body
        - end
        - top
  body:
    - meta_include_prototype: false
    - meta_scope: meta.glob string.unquoted
    - match: '\]'
      scope: punctuation.section.brackets.end
      pop: true
  end:
    - clear_scopes: 1
    - meta_include_prototype: false
    - meta_content_scope: meta.range
    - match: '>'
      scope: punctuation.definition.range.end
      pop: 1
  top:
    - meta_include_prototype: false
    - match: '\d+'
      scope: constant.numeric
"#;
    let syntax = SyntaxDefinition::load_from_str(syntax_str, true, None).unwrap();
    let ss = link(syntax);
    let mut state = ParseState::new(&ss.syntaxes()[0]);
    let raw_ops = ops(&mut state, "[<1>x]\n", &ss);
    let states = stack_states(raw_ops);

    let begin_states: Vec<_> = states
        .iter()
        .filter(|s| s.contains("punctuation.definition.range.begin"))
        .collect();
    assert!(
        !begin_states.is_empty(),
        "expected punctuation.definition.range.begin in some state, got: {:?}",
        states
    );
    for s in &begin_states {
        assert!(
            s.contains("meta.glob"),
            "meta.glob should remain on the stack at the `<` token, got: {:?}",
            s
        );
        assert!(
            !s.contains("string.unquoted"),
            "string.unquoted should have been cleared by end's \
                 `clear_scopes: 1` on entry, got: {:?}",
            s
        );
        assert!(
            s.contains("meta.range.begin"),
            "meta.range.begin (capture scope) must be on the stack at the \
                 `<` token, got: {:?}",
            s
        );
    }

    let digit_states: Vec<_> = states
        .iter()
        .filter(|s| s.contains("constant.numeric"))
        .collect();
    assert!(
        !digit_states.is_empty(),
        "expected constant.numeric in some state, got: {:?}",
        states
    );
    for s in &digit_states {
        assert!(
            !s.contains("string.unquoted"),
            "string.unquoted must stay cleared while inside the range body, \
                 got: {:?}",
            s
        );
        assert!(
            s.contains("meta.range"),
            "end's meta_content_scope (meta.range) must be on the body \
                 content's stack, got: {:?}",
            s
        );
    }
}

#[test]
fn can_parse_prototype_with_embed() {
    let syntax = r#"
name: Javadoc
scope: text.html.javadoc
contexts:
  prototype:
    - match: \*
      scope: punctuation.definition.comment.javadoc

  main:
    - meta_include_prototype: false
    - match: /\*\*
      scope: comment.block.documentation.javadoc punctuation.definition.comment.begin.javadoc
      embed: contents
      embed_scope: comment.block.documentation.javadoc text.html.javadoc
      escape: \*/
      escape_captures:
        0: comment.block.documentation.javadoc punctuation.definition.comment.end.javadoc

  contents:
    - match: ''
"#;

    let syntax = SyntaxDefinition::load_from_str(syntax, true, None).unwrap();
    expect_scope_stacks_with_syntax("/** * */", &["<comment.block.documentation.javadoc>, <punctuation.definition.comment.begin.javadoc>", "<comment.block.documentation.javadoc>, <text.html.javadoc>, <punctuation.definition.comment.javadoc>", "<comment.block.documentation.javadoc>, <punctuation.definition.comment.end.javadoc>"], syntax);
}

#[test]
fn v2_embed_scope_replaces_skips_meta_content_pop_on_exit() {

    let host = SyntaxDefinition::load_from_str(
        r#"
name: V2SkipHost
scope: source.v2skip
file_extensions: [v2skip]
version: 2
contexts:
  main:
    - match: '(?=<)'
      push: wrapper-a
    - match: '\w+'
      scope: word.v2skip
  wrapper-a:
    - match: '(?=<)'
      push: wrapper-b
  wrapper-b:
    - match: '<<'
      embed: scope:source.v2skipemb
      embed_scope: meta.embedded.v2skip
      escape: '>>'
      escape_captures:
        0: punctuation.end.v2skip
"#,
        true,
        None,
    )
    .unwrap();

    let embedded = SyntaxDefinition::load_from_str(
        r#"
name: V2SkipEmb
scope: source.v2skipemb
file_extensions: [v2skipemb]
version: 2
contexts:
  main:
    - meta_content_scope: content.v2skipemb
    - match: '\w+'
      scope: keyword.v2skipemb
"#,
        true,
        None,
    )
    .unwrap();

    let mut builder = SyntaxSetBuilder::new();
    builder.add(host);
    builder.add(embedded);
    let ss = builder.build();

    let syntax = ss.find_syntax_by_name("V2SkipHost").unwrap();
    let mut state = ParseState::new(syntax);
    let raw_ops = state.parse_line("<<x>> hello\n", &ss).unwrap().ops;

    let mut scope_stack = ScopeStack::new();
    for (_, op) in &raw_ops {
        scope_stack
            .apply(op)
            .expect("applying op should not fail — extra Pop means the skip logic is broken");
    }
    let final_scopes: Vec<String> = scope_stack
        .as_slice()
        .iter()
        .map(|s| format!("{:?}", s))
        .collect();
    assert!(
        final_scopes.iter().any(|s| s.contains("source.v2skip")),
        "source.v2skip should remain on stack after all ops, got: {:?}",
        final_scopes
    );
}

#[test]
fn v2_host_embedding_v1_guest_skips_meta_content_pop_on_escape() {

    let host = SyntaxDefinition::load_from_str(
        r#"
name: V2HostV1Guest
scope: source.v2host
file_extensions: [v2host]
version: 2
contexts:
  main:
    - match: '<<'
      embed: scope:source.v1guest
      embed_scope: meta.embedded.v2host
      escape: '>>'
      escape_captures:
        0: punctuation.end.v2host
    - match: '\w+'
      scope: word.v2host
"#,
        true,
        None,
    )
    .unwrap();

    let guest = SyntaxDefinition::load_from_str(
        r#"
name: V1Guest
scope: source.v1guest
file_extensions: [v1guest]
contexts:
  main:
    - match: '\w+'
      scope: keyword.v1guest
"#,
        true,
        None,
    )
    .unwrap();

    let mut builder = SyntaxSetBuilder::new();
    builder.add(host);
    builder.add(guest);
    let ss = builder.build();

    let syntax = ss.find_syntax_by_name("V2HostV1Guest").unwrap();
    let mut state = ParseState::new(syntax);
    let raw_ops = state.parse_line("<<x>> hello\n", &ss).unwrap().ops;

    let mut scope_stack = ScopeStack::new();
    for (_, op) in &raw_ops {
        scope_stack.apply(op).expect(
            "applying op stream must succeed — a spurious Pop indicates the skip was gated \
                 on the guest's syntax version instead of the embed_scope_replaces flag",
        );
    }
    let final_scopes: Vec<String> = scope_stack
        .as_slice()
        .iter()
        .map(|s| format!("{:?}", s))
        .collect();
    assert!(
        final_scopes.iter().any(|s| s.contains("source.v2host")),
        "source.v2host should remain after escape; got: {:?}",
        final_scopes
    );
}

#[test]
fn nested_embed_outer_escape_wins() {
    let syntax = r#"
name: NestedEmbed
scope: source.nested-embed
contexts:
  main:
    - match: 'OUTER'
      embed: mid
      escape: 'END'
      escape_captures:
        0: keyword.escape.outer
    - match: '.'
      scope: main.char

  mid:
    - match: 'INNER'
      embed: deep
      escape: 'zzz'
      escape_captures:
        0: keyword.escape.inner
    - match: '.'
      scope: mid.char

  deep:
    - match: '.'
      scope: deep.char
"#;
    let syntax = SyntaxDefinition::load_from_str(syntax, true, None).unwrap();
    let ss = link(syntax);
    let mut state = ParseState::new(&ss.syntaxes()[0]);

    let out1 = state.parse_line("OUTERINNER\n", &ss).expect("line 1");

    let out2 = state.parse_line("xxENDzzzAFTER\n", &ss).expect("line 2");
    let states = stack_states(out2.ops);
    println!("states: {:?}", states);

    assert!(
        states.iter().any(|s| s.contains("keyword.escape.outer")),
        "outer escape must fire, got: {:?}",
        states
    );
    assert!(
        !states.iter().any(|s| s.contains("keyword.escape.inner")),
        "inner escape must not fire when outer escape is earlier, got: {:?}",
        states
    );
    assert!(
        states.iter().any(|s| s.contains("main.char")),
        "after outer escape we should be in main, got: {:?}",
        states
    );
}

#[test]
fn embed_escape_with_backref_at_parse_time() {
    let syntax = r#"
name: BackrefEscape
scope: source.backref-escape
contexts:
  main:
    - match: '(<<|>>)'
      scope: punctuation.open
      embed: inner
      escape: '\1'
      escape_captures:
        0: punctuation.close
    - match: '.'
      scope: main.char

  inner:
    - match: '.'
      scope: inner.char
"#;
    let syntax = SyntaxDefinition::load_from_str(syntax, true, None).unwrap();
    let ss = link(syntax);

    let mut state = ParseState::new(&ss.syntaxes()[0]);
    let out1 = state.parse_line("<<>>stuff<<after\n", &ss).expect("line 1");
    let states = stack_states(out1.ops);
    println!("backref states: {:?}", states);

    assert!(
        states.iter().any(|s| s.contains("punctuation.open")),
        "expected punctuation.open, got: {:?}",
        states
    );
    assert!(
        states.iter().any(|s| s.contains("inner.char")),
        ">> should be inner.char since escape is <<, got: {:?}",
        states
    );
    assert!(
        states.iter().any(|s| s.contains("punctuation.close")),
        "matching << should trigger escape, got: {:?}",
        states
    );
    assert!(
        states.iter().any(|s| s.contains("main.char")),
        "after escape we should be in main, got: {:?}",
        states
    );
}

#[test]
fn embed_escape_cross_line() {
    let syntax = r#"
name: CrossLineEscape
scope: source.cross-line-escape
contexts:
  main:
    - match: 'BEGIN'
      scope: keyword.begin
      embed: body
      escape: 'STOP'
      escape_captures:
        0: keyword.stop
    - match: '.'
      scope: main.char

  body:
    - match: '.'
      scope: body.char
"#;
    let syntax = SyntaxDefinition::load_from_str(syntax, true, None).unwrap();
    let ss = link(syntax);
    let mut state = ParseState::new(&ss.syntaxes()[0]);

    let out1 = state.parse_line("BEGIN\n", &ss).expect("line 1");
    let states1 = stack_states(out1.ops);
    assert!(
        states1.iter().any(|s| s.contains("keyword.begin")),
        "line 1 should have keyword.begin, got: {:?}",
        states1
    );

    let out2 = state.parse_line("hello\n", &ss).expect("line 2");
    let states2 = stack_states(out2.ops);
    assert!(
        states2.iter().any(|s| s.contains("body.char")),
        "line 2 should be body content, got: {:?}",
        states2
    );

    let out3 = state.parse_line("STOPafter\n", &ss).expect("line 3");
    let states3 = stack_states(out3.ops);
    assert!(
        states3.iter().any(|s| s.contains("keyword.stop")),
        "line 3 should have escape keyword.stop, got: {:?}",
        states3
    );
    assert!(
        states3.iter().any(|s| s.contains("main.char")),
        "after escape on line 3, should be in main, got: {:?}",
        states3
    );
}

#[test]
fn embed_inside_branch_then_fail_restores_escape_stack() {
    let syntax = r#"
name: EmbedBranchFail
scope: source.embed-branch
contexts:
  main:
    - match: 'START'
      branch_point: bp
      branch: [try-embed, fallback]
    - match: '.'
      scope: main.char

  try-embed:
    - match: 'EMB'
      embed: embedded
      escape: 'ESC'
      escape_captures:
        0: keyword.escape

  fallback:
    # No pop — stays on the stack so a stale escape entry would persist
    - match: '\w+'
      scope: fallback.matched
    - match: '\n'

  embedded:
    - match: 'FAIL'
      fail: bp
    - match: '.'
      scope: embedded.char
"#;
    let syntax = SyntaxDefinition::load_from_str(syntax, true, None).unwrap();
    let ss = link(syntax);
    let mut state = ParseState::new(&ss.syntaxes()[0]);

    let out = state
        .parse_line("STARTEMBFAIL\n", &ss)
        .expect("parse failed");
    let states = stack_states(out.ops);
    println!("embed+branch+fail states: {:?}", states);

    assert!(
        states.iter().any(|s| s.contains("fallback.matched")),
        "fallback should match after fail, got: {:?}",
        states
    );

    let out2 = state.parse_line("xESCy\n", &ss).expect("line 2");
    let states2 = stack_states(out2.ops);
    assert!(
        !states2.iter().any(|s| s.contains("keyword.escape")),
        "stale escape must not fire after branch revert, got: {:?}",
        states2
    );
}

#[test]
fn zero_width_escape_at_branch_fail_terminates() {
    let syntax = r#"
name: ZeroWidthEscapeLoop
scope: source.zwe
contexts:
  main:
    - match: 'BEGIN'
      scope: keyword.begin
      embed: body
      escape: '(?=END)'
    - match: '.'
      scope: main.char

  body:
    - match: 'X'
      branch_point: bp
      branch: [try-fail, fallback]
    - match: '.'
      scope: body.char

  try-fail:
    - match: 'F'
      fail: bp

  fallback:
    - match: '\w+'
      scope: fallback.matched
"#;
    let syntax = SyntaxDefinition::load_from_str(syntax, true, None).unwrap();
    let ss = link(syntax);
    let mut state = ParseState::new(&ss.syntaxes()[0]);

    let out = state.parse_line("BEGINXFEND\n", &ss).expect("parse failed");
    let states = stack_states(out.ops);
    assert!(
        states.iter().any(|s| s.contains("fallback.matched")),
        "fallback alt should match after escape-induced cycle is broken; got: {:?}",
        states
    );
}

#[test]
fn v2_pop_embed_suppresses_cur_meta_scope_on_match() {
    let host = SyntaxDefinition::load_from_str(
        r#"
name: PopEmbedHost
scope: source.popembed
file_extensions: [popembed]
version: 2
contexts:
  main:
    - match: '<tag'
      scope: begin.scope
      push: tag-attrs
  tag-attrs:
    - meta_include_prototype: false
    - meta_scope: meta.a
    - match: '>'
      scope: meta.a end.scope
      pop: 1
      embed: scope:source.popembedguest
      embed_scope: embed.scope
      escape: '(?=</tag)'
"#,
        true,
        None,
    )
    .unwrap();
    let guest = SyntaxDefinition::load_from_str(
        r#"
name: PopEmbedGuest
scope: source.popembedguest
version: 2
hidden: true
contexts:
  main:
    - meta_scope: guest.meta
    - match: '\w+'
      scope: word.guest
"#,
        true,
        None,
    )
    .unwrap();

    let mut builder = SyntaxSetBuilder::new();
    builder.add(host);
    builder.add(guest);
    let ss = builder.build();
    let syntax = ss.find_syntax_by_name("PopEmbedHost").unwrap();
    let mut state = ParseState::new(syntax);
    let ops = state.parse_line("<tag>hi</tag>\n", &ss).unwrap().ops;

    let line = "<tag>hi</tag>\n";
    let mut stack = ScopeStack::new();
    let mut at_gt: Option<Vec<String>> = None;
    for (range, op) in ScopeRangeIterator::new(&ops, line) {
        stack.apply(op).expect("op stream must apply cleanly");
        if range.start <= 4 && 4 < range.end {
            at_gt = Some(
                stack
                    .as_slice()
                    .iter()
                    .map(|s| format!("{:?}", s))
                    .collect(),
            );
        }
    }
    let at_gt = at_gt.expect("range covering `>` must exist in op stream");
    let meta_a_count = at_gt.iter().filter(|s| s.contains("meta.a")).count();
    assert_eq!(
        meta_a_count, 1,
        "match text of pop+embed must carry exactly one `meta.a` atom \
             (from the rule's explicit scope); cur_context.meta_scope must \
             not stack a second copy on top. Got stack: {:?}",
        at_gt
    );
    assert!(
        at_gt
            .last()
            .map(|s| s.contains("end.scope"))
            .unwrap_or(false),
        "stack top on `>` must be `end.scope`, got: {:?}",
        at_gt
    );
}

#[test]
fn pop_n_embed_drops_deeper_meta_scope_at_trigger() {
    let host = SyntaxDefinition::load_from_str(
        r#"
name: PopEmbedDeep
scope: source.popembeddeep
file_extensions: [popembeddeep]
version: 2
contexts:
  main:
    - match: 'a'
      scope: p.a
      push: mid

  mid:
    - meta_scope: meta.mid
    - match: 'b'
      scope: p.b
      push: inner

  inner:
    - meta_include_prototype: false
    - meta_scope: meta.inner
    - match: 'c'
      scope: p.c
      pop: 2
      embed: scope:source.popembeddeepguest
      escape: '(?=$)'
"#,
        true,
        None,
    )
    .unwrap();
    let guest = SyntaxDefinition::load_from_str(
        r#"
name: PopEmbedDeepGuest
scope: source.popembeddeepguest
hidden: true
version: 2
contexts:
  main:
    - meta_scope: meta.guest
    - match: '\w+'
      scope: word.guest
"#,
        true,
        None,
    )
    .unwrap();

    let mut builder = SyntaxSetBuilder::new();
    builder.add(host);
    builder.add(guest);
    let ss = builder.build();
    let syntax = ss.find_syntax_by_name("PopEmbedDeep").unwrap();
    let mut state = ParseState::new(syntax);
    let line = "abc\n";
    let ops = state.parse_line(line, &ss).unwrap().ops;

    let mut stack = ScopeStack::new();
    let mut at_c: Option<Vec<String>> = None;
    for (range, op) in ScopeRangeIterator::new(&ops, line) {
        stack.apply(op).expect("op stream must apply cleanly");
        if range.start <= 2 && 2 < range.end {
            at_c = Some(
                stack
                    .as_slice()
                    .iter()
                    .map(|s| format!("{:?}", s))
                    .collect(),
            );
        }
    }
    let at_c = at_c.expect("range covering `c` must exist in op stream");
    assert!(
        !at_c.iter().any(|s| s.contains("meta.mid")),
        "deeper popped frame's meta_scope (meta.mid) must be \
             excluded from the `c` trigger of `pop: 2 + embed:` (ST \
             lookahead semantics): {:?}",
        at_c
    );
    assert!(
        !at_c.iter().any(|s| s.contains("meta.inner")),
        "cur context's meta_scope (meta.inner) must be excluded \
             from the `c` trigger of `pop: 2 + embed:` (ST embed \
             quirk + lookahead): {:?}",
        at_c
    );
    assert!(
        at_c.iter().any(|s| s.contains("p.c")),
        "rule's explicit scope (p.c) must be present at the `c` \
             trigger: {:?}",
        at_c
    );
}

#[test]
fn escape_prune_keeps_pop_n_branch_point_so_fail_still_rewinds() {
    let syntax_str = r#"
name: EscapePrunePopN
scope: source.escprunepopn
version: 2
contexts:
  main:
    - match: 'a'
      scope: p.a
      push: outer

  outer:
    - meta_scope: outer.test
    - match: 'b'
      scope: p.b
      push: inner

  inner:
    - match: 'X'
      pop: 2
      branch_point: bp
      branch: [alt0, alt1]
    - match: '.'
      scope: inner.char

  alt0:
    - meta_content_scope: leak.meta
    - match: 'BEGIN'
      embed: body
      escape: 'END'
    - match: 'F'
      fail: bp
    - match: '.'
      scope: alt0.char

  alt1:
    - match: '\w+'
      scope: alt1.matched
    - match: '.'
      scope: alt1.char

  body:
    - match: '.'
      scope: body.char
"#;
    let syntax = SyntaxDefinition::load_from_str(syntax_str, true, None).unwrap();
    let ss = link(syntax);
    let mut state = ParseState::new(&ss.syntaxes()[0]);

    let line_ops = ops(&mut state, "abXBEGINyENDF\n", &ss);
    let states = stack_states(line_ops);
    assert!(
        states.iter().any(|s| s.contains("alt1.matched")),
        "fail: bp after the embed escape must rewind onto alt1 \
             (bp falsely pruned by exec_escape?); got: {:?}",
        states
    );
    assert!(
        !states.iter().any(|s| s.contains("leak.meta")),
        "alt0's meta_content_scope leaked past the fail rewind; got: {:?}",
        states
    );
}

#[test]
fn fragment_embed_preserves_target_meta_content_scope() {

    let host = SyntaxDefinition::load_from_str(
        r#"
name: FragHost
scope: source.fraghost
file_extensions: [fraghost]
version: 2
contexts:
  main:
    - match: '<<'
      embed: scope:source.fragguest#leaf
      embed_scope: wrapper.atom
      escape: '>>'
"#,
        true,
        None,
    )
    .unwrap();

    let guest = SyntaxDefinition::load_from_str(
        r#"
name: FragGuest
scope: source.fragguest
file_extensions: [fragguest]
version: 2
hidden: true
contexts:
  main:
    - match: ''
      pop: true
  leaf:
    - meta_content_scope: leaf.mcs.atom
    - match: '\w+'
      scope: keyword.fragguest
"#,
        true,
        None,
    )
    .unwrap();

    let mut builder = SyntaxSetBuilder::new();
    builder.add(host);
    builder.add(guest);
    let ss = builder.build();

    let syntax = ss.find_syntax_by_name("FragHost").unwrap();
    let mut state = ParseState::new(syntax);
    let mut stack = ScopeStack::new();
    let out = state.parse_line("<<word\n", &ss).expect("parse");
    for (_, op) in &out.ops {
        stack.apply(op).expect("apply");
    }

    let scopes: Vec<String> = stack
        .as_slice()
        .iter()
        .map(|s| format!("{:?}", s))
        .collect();
    let wrapper = Scope::new("wrapper.atom").unwrap();
    let leaf = Scope::new("leaf.mcs.atom").unwrap();
    assert!(
        stack.as_slice().contains(&wrapper),
        "wrapper.atom must remain visible inside fragment embed; got: {:?}",
        scopes
    );
    assert!(
        stack.as_slice().contains(&leaf),
        "leaf.mcs.atom (fragment target's meta_content_scope) must be \
             pushed and visible; got: {:?}",
        scopes
    );
}

#[test]
fn non_fragment_embed_still_suppresses_main_mcs() {

    let host = SyntaxDefinition::load_from_str(
        r#"
name: NonFragHost
scope: source.nonfraghost
file_extensions: [nonfraghost]
version: 2
contexts:
  main:
    - match: '<<'
      embed: scope:source.nonfragguest
      embed_scope: wrapper2.atom source.nonfragguest
      escape: '>>'
"#,
        true,
        None,
    )
    .unwrap();

    let guest = SyntaxDefinition::load_from_str(
        r#"
name: NonFragGuest
scope: source.nonfragguest
file_extensions: [nonfragguest]
version: 2
hidden: true
contexts:
  main:
    - match: '\w+'
      scope: keyword.nonfragguest
"#,
        true,
        None,
    )
    .unwrap();

    let mut builder = SyntaxSetBuilder::new();
    builder.add(host);
    builder.add(guest);
    let ss = builder.build();

    let syntax = ss.find_syntax_by_name("NonFragHost").unwrap();
    let mut state = ParseState::new(syntax);
    let mut stack = ScopeStack::new();
    let out = state.parse_line("<<word\n", &ss).expect("parse");
    for (_, op) in &out.ops {
        stack.apply(op).expect("apply");
    }

    let guest_scope = Scope::new("source.nonfragguest").unwrap();
    let count = stack
        .as_slice()
        .iter()
        .filter(|s| **s == guest_scope)
        .count();
    assert_eq!(
        count, 1,
        "source.nonfragguest must appear exactly once (wrapper's last \
             embed_scope atom; guest main's auto-inserted top-level scope \
             must be suppressed); stack: {:?}",
        stack
    );
}

#[test]
fn branch_point_match_scope_survives_fail_retry() {
    expect_scope_stacks(
        "trigger yes",
        &["<keyword.operator.test>", "<ok.test>"],
        r#"
                name: Branch Pat Scope Test
                scope: source.test
                contexts:
                  main:
                    - match: \btrigger\b
                      scope: keyword.operator.test
                      branch_point: t
                      branch:
                        - alt-fails
                        - alt-succeeds
                    - match: \S+
                      scope: text.test
                  alt-fails:
                    - match: (?=\S)
                      fail: t
                  alt-succeeds:
                    - match: \S+
                      scope: ok.test
                      pop: 1
                "#,
    );
}

#[test]
fn branch_point_capture_scopes_survive_fail_retry() {
    expect_scope_stacks(
        "word !",
        &["<outer.match>, <inner.capture>"],
        r#"
                name: Branch Capture Re-emit Test
                scope: source.test
                contexts:
                  main:
                    - match: (word)\s
                      scope: outer.match
                      captures:
                        1: inner.capture
                      branch_point: bp
                      branch:
                        - alt-fails
                        - alt-succeeds
                  alt-fails:
                    - match: (?=!)
                      fail: bp
                  alt-succeeds:
                    - match: \S+
                      scope: ok.test
                      pop: 1
                "#,
    );
}

#[test]
fn branch_point_fail_retry_applies_meta_scope_to_trigger() {
    expect_scope_stacks(
        "(x",
        &["<meta.group.test>, <punctuation.test>"],
        r#"
                name: Branch Meta Scope Test
                scope: source.test
                contexts:
                  main:
                    - match: ''
                      push: trigger
                  trigger:
                    - match: \(
                      scope: punctuation.test
                      branch_point: g
                      branch:
                        - alt-fails
                        - alt-succeeds
                      pop: 1
                  alt-fails:
                    - meta_scope: meta.group.test
                    - match: (?=\S)
                      fail: g
                  alt-succeeds:
                    - meta_scope: meta.group.test
                    - match: \S+
                      scope: ok.test
                      pop: 1
                "#,
    );
}

#[test]
fn branch_point_with_all_alternatives_failing_unwinds_state() {
    let syntax = SyntaxDefinition::load_from_str(
        r#"
                name: All Alternatives Fail Test
                scope: source.test
                contexts:
                  main:
                    - match: (?=\{)
                      branch_point: brace
                      branch:
                        - brace-strict
                        - brace-numeric
                    - match: \w+
                      scope: plain.test
                  brace-strict:
                    - meta_scope: meta.interpolation.brace.test
                    - match: \{
                      scope: punctuation.begin.test
                      push: brace-strict-body
                  brace-strict-body:
                    - meta_content_scope: inside-strict.test
                    - match: foo
                      scope: keyword.test
                    - match: \}
                      scope: punctuation.end.test
                      pop: 2
                    - match: (?=\S)
                      fail: brace
                  brace-numeric:
                    - meta_scope: meta.interpolation.brace.test
                    - match: \{
                      scope: punctuation.begin.test
                      push: brace-numeric-body
                  brace-numeric-body:
                    - meta_content_scope: inside-numeric.test
                    - match: \d+
                      scope: constant.numeric.test
                    - match: \}
                      scope: punctuation.end.test
                      pop: 2
                    - match: (?=\S)
                      fail: brace
                "#,
        true,
        None,
    )
    .unwrap();

    let syntax_set = link(syntax);
    let mut state = ParseState::new(&syntax_set.syntaxes()[0]);
    let o = ops(&mut state, "{no}\n", &syntax_set);
    let mut stack = ScopeStack::new();
    for (_, op) in &o {
        stack.apply(op).unwrap();
    }
    let final_scopes: Vec<String> = stack
        .as_slice()
        .iter()
        .map(|s| format!("{:?}", s))
        .collect();
    assert!(
        !final_scopes
            .iter()
            .any(|s| s.contains("meta.interpolation.brace")),
        "meta.interpolation.brace leaked past end of line; stack: {:?}",
        final_scopes
    );
    assert!(
        !final_scopes
            .iter()
            .any(|s| s.contains("inside-strict") || s.contains("inside-numeric")),
        "inside-* meta_content_scope leaked past end of line; stack: {:?}",
        final_scopes
    );
}

#[test]
fn branch_first_alternative_succeeds() {
    let syntax = SyntaxDefinition::load_from_str(BRANCH_SYNTAX, true, None).unwrap();
    let ss = link(syntax);
    let mut state = ParseState::new(&ss.syntaxes()[0]);
    let ops = ops(&mut state, "let = foo;", &ss);
    let states = stack_states(ops);
    assert!(
        states.iter().any(|s| s.contains("keyword.declaration")),
        "Expected keyword.declaration scope, got: {:?}",
        states
    );
    assert!(
        states
            .iter()
            .any(|s| s.contains("keyword.operator.assignment")),
        "Expected keyword.operator.assignment scope, got: {:?}",
        states
    );
    assert!(
        states.iter().any(|s| s.contains("constant.other")),
        "Expected constant.other scope, got: {:?}",
        states
    );
}

#[test]
fn branch_fail_backtracks_to_second_alternative() {
    let syntax = SyntaxDefinition::load_from_str(BRANCH_SYNTAX, true, None).unwrap();
    let ss = link(syntax);
    let mut state = ParseState::new(&ss.syntaxes()[0]);
    let ops = ops(&mut state, "hello;", &ss);
    let states = stack_states(ops);
    assert!(
        states.iter().any(|s| s.contains("string.unquoted")),
        "Expected string.unquoted scope, got: {:?}",
        states
    );
    assert!(
        !states.iter().any(|s| s.contains("keyword.declaration")),
        "Should NOT contain keyword.declaration scope, got: {:?}",
        states
    );
}

#[test]
fn branch_fail_after_partial_match() {
    let syntax = SyntaxDefinition::load_from_str(BRANCH_SYNTAX, true, None).unwrap();
    let ss = link(syntax);
    let mut state = ParseState::new(&ss.syntaxes()[0]);
    let raw_ops = ops(&mut state, "let hello;", &ss);

    let states = stack_states(raw_ops.clone());
    assert!(
        !states.iter().any(|s| s.contains("keyword.declaration")),
        "keyword.declaration should be absent after backtrack, got: {:?}",
        states
    );

    assert!(
        states.iter().any(|s| s.contains("string.unquoted")),
        "Expected string.unquoted scope after backtrack, got: {:?}",
        states
    );

    let unquoted_pos = raw_ops.iter().find_map(|(pos, op)| match op {
        ScopeStackOp::Push(s) if format!("{:?}", s).contains("string.unquoted") => Some(*pos),
        _ => None,
    });
    assert_eq!(
        unquoted_pos,
        Some(0),
        "string.unquoted should start at position 0 after rewind, got: {:?}",
        unquoted_pos
    );
}

#[test]
fn branch_all_alternatives_exhausted() {
    let syntax_str = r#"
scope: source.exhaust-test
contexts:
  main:
    - match: '(?=\S)'
      branch_point: bp
      branch: [alt-a, alt-b]
    - match: '\S+'
      scope: fallback.exhaust-test

  alt-a:
    - match: 'AAA'
      scope: alt-a.exhaust-test
      pop: true
    - match: '(?=\S)'
      fail: bp

  alt-b:
    - match: 'BBB'
      scope: alt-b.exhaust-test
      pop: true
    - match: '(?=\S)'
      fail: bp
"#;
    let syntax = SyntaxDefinition::load_from_str(syntax_str, true, None).unwrap();
    let ss = link(syntax);
    let mut state = ParseState::new(&ss.syntaxes()[0]);
    let ops = ops(&mut state, "xyz", &ss);
    assert!(!ops.is_empty(), "Expected some ops, got empty");
}

#[test]
fn branch_fail_emits_meta_content_scope() {
    let syntax_str = r#"
scope: source.meta-test
contexts:
  main:
    - match: '(?=\S)'
      branch_point: bp
      branch: [try-special, fallback-ctx]

  try-special:
    - match: 'SPECIAL'
      scope: keyword.meta-test
      pop: true
    - match: '(?=\S)'
      fail: bp

  fallback-ctx:
    - meta_content_scope: meta.fallback.meta-test
    - match: '\w+'
      scope: variable.meta-test
      pop: true
"#;
    let syntax = SyntaxDefinition::load_from_str(syntax_str, true, None).unwrap();
    let ss = link(syntax);
    let mut state = ParseState::new(&ss.syntaxes()[0]);
    let ops = ops(&mut state, "hello", &ss);
    let states = stack_states(ops);
    assert!(
        states.iter().any(|s| s.contains("meta.fallback")),
        "Expected meta.fallback.meta-test scope after backtrack, got: {:?}",
        states
    );
    assert!(
        states.iter().any(|s| s.contains("variable.meta-test")),
        "Expected variable.meta-test scope, got: {:?}",
        states
    );
}

#[test]
fn branch_fail_applies_with_prototype() {
    let syntax_str = r#"
scope: source.proto-test
contexts:
  main:
    - match: '(?=\S)'
      branch_point: bp
      branch: [try-num, fallback-word]
      with_prototype:
        - match: '#'
          scope: comment.proto-test
          pop: true

  try-num:
    - match: '\d+'
      scope: constant.numeric.proto-test
      pop: true
    - match: '(?=\S)'
      fail: bp

  fallback-word:
    - match: '\w+'
      scope: variable.proto-test
    - match: ';'
      pop: true
"#;
    let syntax = SyntaxDefinition::load_from_str(syntax_str, true, None).unwrap();
    let ss = link(syntax);
    let mut state = ParseState::new(&ss.syntaxes()[0]);
    let ops = ops(&mut state, "abc#", &ss);
    let states = stack_states(ops);
    assert!(
        states.iter().any(|s| s.contains("variable.proto-test")),
        "Expected variable.proto-test scope, got: {:?}",
        states
    );
    assert!(
        states.iter().any(|s| s.contains("comment.proto-test")),
        "Expected comment.proto-test from with_prototype after backtrack, got: {:?}",
        states
    );
}

#[test]
fn branch_stack_depth_invalidation() {
    let syntax_str = r#"
name: DepthTest
scope: source.depth-test
contexts:
  main:
    - match: '(?=\S)'
      branch_point: bp
      branch: [try-ctx, fallback-ctx]
  try-ctx:
    - match: 'OK'
      scope: try.ok
      set: post-try
    - match: '(?=\S)'
      fail: bp
  post-try:
    - match: 'FAIL'
      fail: bp
    - match: '\w+'
      scope: post.word
      pop: true
  fallback-ctx:
    - match: '.*'
      scope: fallback.content
      pop: true
"#;
    let syntax = SyntaxDefinition::load_from_str(syntax_str, true, None).unwrap();
    let ss = link(syntax);

    let mut state = ParseState::new(&ss.syntaxes()[0]);
    let line_ops = ops(&mut state, "OK FAIL\n", &ss);
    let states = stack_states(line_ops);
    assert!(
        states.iter().any(|s| s.contains("fallback.content")),
        "fail at equal depth should trigger backtrack to fallback, got: {:?}",
        states
    );
    assert!(
        !states.iter().any(|s| s.contains("try.ok")),
        "try.ok should be absent after backtrack, got: {:?}",
        states
    );

    let syntax_str2 = r#"
name: DepthTest2
scope: source.depth-test2
contexts:
  main:
    - match: 'GO'
      branch_point: bp
      branch: [try-ctx2, fallback-ctx2]
    - match: 'FAIL'
      fail: bp
    - match: '.*'
      scope: main.other
  try-ctx2:
    - match: 'OK'
      scope: try.ok2
      pop: true
    - match: '(?=\S)'
      fail: bp
  fallback-ctx2:
    - match: '.*'
      scope: fallback.content2
      pop: true
"#;
    let syntax2 = SyntaxDefinition::load_from_str(syntax_str2, true, None).unwrap();
    let ss2 = link(syntax2);
    let mut state2 = ParseState::new(&ss2.syntaxes()[0]);
    let line_ops2 = ops(&mut state2, "GO OK FAIL\n", &ss2);
    let states2 = stack_states(line_ops2);
    assert!(
        !states2.iter().any(|s| s.contains("fallback.content2")),
        "fail should be a no-op when stack is shallower than branch point, got: {:?}",
        states2
    );
    assert!(
        states2.iter().any(|s| s.contains("try.ok2")),
        "expected try.ok2 from first alternative, got: {:?}",
        states2
    );
}

#[test]
fn branch_nested_overlapping_branch_points() {
    let syntax_str = r#"
name: NestedTest
scope: source.nested-test
contexts:
  main:
    - match: '(?=\S)'
      branch_point: outer
      branch: [outer-try, outer-fallback]
  outer-try:
    - match: 'A'
      scope: outer.a
      set: inner-branch
    - match: '(?=\S)'
      fail: outer
  inner-branch:
    - match: '(?=\S)'
      branch_point: inner
      branch: [inner-try, inner-fallback]
  inner-try:
    - match: 'X'
      scope: inner.x
      pop: true
    - match: '(?=\S)'
      fail: inner
  inner-fallback:
    - match: '\w+'
      scope: inner.fallback
      pop: true
  outer-fallback:
    - match: '.*'
      scope: outer.fallback
      pop: true
"#;
    let syntax = SyntaxDefinition::load_from_str(syntax_str, true, None).unwrap();
    let ss = link(syntax);
    let mut state = ParseState::new(&ss.syntaxes()[0]);

    let line_ops = ops(&mut state, "A B\n", &ss);
    let states = stack_states(line_ops);
    assert!(
        states.iter().any(|s| s.contains("inner.fallback")),
        "expected inner.fallback after inner branch fail, got: {:?}",
        states
    );
    assert!(
        !states.iter().any(|s| s.contains("outer.fallback")),
        "outer branch should not have failed, got: {:?}",
        states
    );
}

#[test]
fn branch_fail_nonexistent_name() {
    let syntax_str = r#"
name: NoNameTest
scope: source.noname-test
contexts:
  main:
    - match: '\w+'
      scope: word.noname-test
    - match: '(?=;)'
      fail: nonexistent
"#;
    let syntax = SyntaxDefinition::load_from_str(syntax_str, true, None).unwrap();
    let ss = link(syntax);
    let mut state = ParseState::new(&ss.syntaxes()[0]);

    let line_ops = ops(&mut state, "hello;\n", &ss);
    let states = stack_states(line_ops);
    assert!(
        states.iter().any(|s| s.contains("word.noname-test")),
        "expected word.noname-test, got: {:?}",
        states
    );
}

#[test]
fn is_speculative_reflects_branch_state() {
    let syntax_str = r#"
name: SpeculativeTest
scope: source.spec-test
contexts:
  main:
    - match: '(?=\S)'
      branch_point: bp
      branch: [alt-a, alt-b]
    - match: '\S+'
      scope: fallback.spec-test

  alt-a:
    - match: 'AAA'
      scope: alt-a.spec-test
      pop: true
    - match: '(?=\S)'
      fail: bp

  alt-b:
    - match: 'BBB'
      scope: alt-b.spec-test
      pop: true
    - match: '(?=\S)'
      fail: bp
"#;
    let syntax = SyntaxDefinition::load_from_str(syntax_str, true, None).unwrap();
    let ss = link(syntax);
    let mut state = ParseState::new(&ss.syntaxes()[0]);

    assert!(
        !state.is_speculative(),
        "should not be speculative before branch_point is created"
    );

    let _ = state.parse_line("AAA\n", &ss).unwrap();
    let mut state2 = ParseState::new(&ss.syntaxes()[0]);
    assert!(!state2.is_speculative());

    let _ = state2.parse_line("xyz\n", &ss).unwrap();
    assert!(
        !state2.is_speculative(),
        "should not be speculative after all alternatives exhausted"
    );

    let syntax_str2 = r#"
name: SpecCross
scope: source.spec-cross
contexts:
  main:
    - match: 'TRY'
      branch_point: bp
      branch: [try-ctx, fallback-ctx]
    - match: '.*'
      scope: main.other
  try-ctx:
    - match: '\n'
    - match: 'FAIL'
      fail: bp
    - match: '\w+'
      scope: try.word
      pop: true
  fallback-ctx:
    - match: '.*'
      scope: fallback.content
      pop: true
"#;
    let syntax2 = SyntaxDefinition::load_from_str(syntax_str2, true, None).unwrap();
    let ss2 = link(syntax2);
    let mut state3 = ParseState::new(&ss2.syntaxes()[0]);
    assert!(!state3.is_speculative());

    let _ = state3.parse_line("TRY\n", &ss2).unwrap();
    assert!(
        state3.is_speculative(),
        "should be speculative after branch_point creation"
    );
}

#[test]
fn cross_line_branch_exhaustion_unwinds_state() {
    let syntax_str = r#"
name: CrossLineExhaustion
scope: source.cle
contexts:
  main:
    - match: 'TRY'
      scope: trigger.cle
      branch_point: bp
      branch: [alpha, beta]
    - match: '\w+'
      scope: main.word.cle
  alpha:
    - meta_scope: meta.alpha.cle
    - match: '\n'
    - match: 'FAIL'
      fail: bp
    - match: '\w+'
      scope: alpha.word.cle
  beta:
    - meta_scope: meta.beta.cle
    - match: '\n'
    - match: 'FAIL'
      fail: bp
    - match: '\w+'
      scope: beta.word.cle
"#;
    let syntax = SyntaxDefinition::load_from_str(syntax_str, true, None).unwrap();
    let ss = link(syntax);
    let mut state = ParseState::new(&ss.syntaxes()[0]);

    let _out1 = state.parse_line("TRY\n", &ss).expect("parse line 1");

    let out2 = state.parse_line("FAIL\n", &ss).expect("parse line 2");

    assert!(
        !state.is_speculative(),
        "cross-line exhaustion must drop all branch_point records"
    );

    assert!(
        out2.revised.is_some(),
        "cross-line exhaustion must emit replayed ops for the pre-branch state"
    );

    let out3 = state.parse_line("benign\n", &ss).expect("parse line 3");
    let pushed: Vec<String> = out3
        .ops
        .iter()
        .filter_map(|(_, op)| match op {
            ScopeStackOp::Push(s) => Some(format!("{:?}", s)),
            _ => None,
        })
        .collect();

    assert!(
        pushed.iter().any(|s| s.contains("main.word.cle")),
        "post-exhaustion line must be scoped under main; got pushes: {:?}",
        pushed
    );
    for leaked in [
        "meta.alpha.cle",
        "meta.beta.cle",
        "alpha.word.cle",
        "beta.word.cle",
    ] {
        assert!(
            !pushed.iter().any(|s| s.contains(leaked)),
            "{} leaked into post-exhaustion line; got pushes: {:?}",
            leaked,
            pushed
        );
    }
}

#[test]
fn branch_cross_line_backtrack() {
    let syntax_str = r#"
name: CrossLineTest
scope: source.clt
contexts:
  main:
    - match: 'TRY'
      branch_point: bp
      branch: [try-ctx, fallback-ctx]
    - match: '.*'
      scope: main.other
  try-ctx:
    - match: '\n'
      # consume newline, stay in context for the next line
    - match: 'FAIL'
      fail: bp
    - match: '\w+'
      scope: try.word
      pop: true
  fallback-ctx:
    - match: '.*'
      scope: fallback.content
      pop: true
"#;
    let syntax = SyntaxDefinition::load_from_str(syntax_str, true, None).unwrap();
    let ss = link(syntax);
    let mut state = ParseState::new(&ss.syntaxes()[0]);

    let out1 = state.parse_line("TRY\n", &ss).expect("parse line 1 failed");
    assert!(
        out1.revised.is_none(),
        "line 1: expected no replayed ops, got {:?}",
        out1.revised
    );

    let out2 = state
        .parse_line("FAIL\n", &ss)
        .expect("parse line 2 failed");
    assert_eq!(
        revised_lines(&out2).len(),
        1,
        "expected exactly one replayed line, got {:?}",
        out2.revised
    );
    let has_fallback = revised_lines(&out2)[0].iter().any(|(_, op)| {
            matches!(op, ScopeStackOp::Push(s) if format!("{:?}", s).contains("fallback.content"))
        });
    assert!(
        has_fallback,
        "expected fallback.content scope in replayed line 1 ops, got: {:?}",
        revised_lines(&out2)[0]
    );
    let has_try_word = revised_lines(&out2)[0].iter().any(
        |(_, op)| matches!(op, ScopeStackOp::Push(s) if format!("{:?}", s).contains("try.word")),
    );
    assert!(
        !has_try_word,
        "try.word must not appear in replayed ops after backtrack, got: {:?}",
        revised_lines(&out2)[0]
    );
    let current_has_try = out2
        .ops
        .iter()
        .any(|(_, op)| matches!(op, ScopeStackOp::Push(s) if format!("{:?}", s).contains("try")));
    assert!(
        !current_has_try,
        "current-line ops should not contain try.* scopes after cross-line fail, got: {:?}",
        out2.ops
    );
}

#[test]
fn cross_line_fail_preserves_pre_branch_prefix_ops() {
    let syntax_str = r#"
name: CrossLinePrefix
scope: source.clp
contexts:
  main:
    - match: 'prefix'
      scope: prefix.word.clp
    - match: 'TRY'
      branch_point: bp
      branch: [try-ctx, fallback-ctx]
    - match: '\s+'
  try-ctx:
    - match: 'END'
      pop: true
    - match: 'FAIL'
      fail: bp
    - match: '\w+'
      scope: try.word.clp
    - match: '\s+'
  fallback-ctx:
    - match: 'END'
      pop: true
    - match: '\w+'
      scope: fallback.content.clp
    - match: '\s+'
"#;
    let syntax = SyntaxDefinition::load_from_str(syntax_str, true, None).unwrap();
    let ss = link(syntax);
    let mut state = ParseState::new(&ss.syntaxes()[0]);

    let _out1 = state
        .parse_line("prefix TRY post\n", &ss)
        .expect("parse line 1 failed");

    let out2 = state
        .parse_line("FAIL\n", &ss)
        .expect("parse line 2 failed");
    assert_eq!(
        revised_lines(&out2).len(),
        1,
        "expected one replayed line, got {:?}",
        out2.revised
    );
    let replayed_has_prefix = revised_lines(&out2)[0].iter().any(
        |(_, op)| matches!(op, ScopeStackOp::Push(s) if format!("{:?}", s).contains("prefix.word")),
    );
    assert!(
        replayed_has_prefix,
        "replayed line must preserve prefix.word from pre-branch parse, got: {:?}",
        revised_lines(&out2)[0]
    );
    let replayed_has_fallback = revised_lines(&out2)[0].iter().any(|(_, op)| {
            matches!(op, ScopeStackOp::Push(s) if format!("{:?}", s).contains("fallback.content"))
        });
    assert!(
        replayed_has_fallback,
        "replayed line must apply fallback.content for post-branch remainder, got: {:?}",
        revised_lines(&out2)[0]
    );
}

#[test]
fn branch_point_expiry_after_128_lines() {
    let syntax_str = r#"
name: ExpiryTest
scope: source.expiry-test
contexts:
  main:
    - match: 'START'
      branch_point: bp
      branch: [try-ctx, fallback-ctx]
    - match: '.*'
      scope: filler.expiry-test
  try-ctx:
    - match: '\n'
      # consume newlines, staying in context
    - match: 'FAIL'
      fail: bp
    - match: '\w+'
      scope: try.matched
      pop: true
  fallback-ctx:
    - match: '.*'
      scope: fallback.content
      pop: true
"#;
    let syntax = SyntaxDefinition::load_from_str(syntax_str, true, None).unwrap();
    let ss = link(syntax);
    let mut state = ParseState::new(&ss.syntaxes()[0]);

    let out0 = state.parse_line("START\n", &ss).expect("parse START");
    assert!(out0.revised.is_none());

    let mut all_warnings: Vec<ParseWarning> = Vec::new();
    for _ in 0..129 {
        let out = state.parse_line("\n", &ss).expect("parse filler");
        all_warnings.extend(out.warnings);
    }

    let out_fail = state.parse_line("FAIL\n", &ss).expect("parse FAIL");
    all_warnings.extend(out_fail.warnings);
    assert!(
        out_fail.revised.is_none(),
        "branch point should have expired, but got replayed ops: {:?}",
        out_fail.revised
    );
    assert!(
        all_warnings
            .iter()
            .any(|w| matches!(w, ParseWarning::BranchPointExpired { name } if name == "bp")),
        "expected a warning about branch point expiry, got: {:?}",
        all_warnings
    );
}

#[test]
fn branch_point_still_valid_at_128_lines() {
    let syntax_str = r#"
name: ExpiryTest
scope: source.expiry-test
contexts:
  main:
    - match: 'START'
      branch_point: bp
      branch: [try-ctx, fallback-ctx]
    - match: '.*'
      scope: filler.expiry-test
  try-ctx:
    - match: '\n'
      # consume newlines, staying in context
    - match: 'FAIL'
      fail: bp
    - match: '\w+'
      scope: try.matched
      pop: true
  fallback-ctx:
    - match: '.*'
      scope: fallback.content
      pop: true
"#;
    let syntax = SyntaxDefinition::load_from_str(syntax_str, true, None).unwrap();
    let ss = link(syntax);
    let mut state = ParseState::new(&ss.syntaxes()[0]);

    let out0 = state.parse_line("START\n", &ss).expect("parse START");
    assert!(out0.revised.is_none());

    let mut all_warnings: Vec<ParseWarning> = Vec::new();
    for _ in 0..127 {
        let out = state.parse_line("\n", &ss).expect("parse filler");
        all_warnings.extend(out.warnings);
    }

    let out_fail = state.parse_line("FAIL\n", &ss).expect("parse FAIL");
    all_warnings.extend(out_fail.warnings.clone());
    assert!(
        out_fail.revised.is_some(),
        "branch point should still be valid at exactly 128 lines, but got no replayed ops"
    );
    assert!(
        all_warnings.is_empty(),
        "expected no warnings at the 128-line boundary, got: {:?}",
        all_warnings
    );
    let has_fallback = revised_lines(&out_fail)[0].iter().any(|(_, op)| {
            matches!(op, ScopeStackOp::Push(s) if format!("{:?}", s).contains("fallback.content"))
        });
    assert!(
        has_fallback,
        "expected fallback.content in replayed ops, got: {:?}",
        revised_lines(&out_fail)[0]
    );
}

#[test]
fn nested_same_name_branch_point_outer_fail_replays_outer() {
    let syntax_str = r#"
name: NestedSameNameBranch
scope: source.nested-same-name-branch
contexts:
  main:
    - include: brackets

  brackets:
    - match: '(?=\[)'
      branch_point: bp
      branch: [list, quasi]

  list:
    - match: '\['
      scope: list.open
      set: list-body

  list-body:
    - meta_scope: list.body
    - match: '\|\]'
      fail: bp
    - match: '\]'
      scope: list.close
      pop: true
    - include: brackets
    - match: '\w+'
      scope: list.word

  quasi:
    - match: '\['
      scope: quasi.open
      set: quasi-body

  quasi-body:
    - meta_scope: quasi.body
    - match: '\|\]'
      scope: quasi.close
      pop: true
    - match: '.'
      scope: quasi.char
"#;
    let syntax = SyntaxDefinition::load_from_str(syntax_str, true, None).unwrap();
    let ss = link(syntax);
    let mut state = ParseState::new(&ss.syntaxes()[0]);

    let line_ops = ops(&mut state, "[x[y]|]\n", &ss);
    let states = stack_states(line_ops);
    assert!(
        states.iter().any(|s| s.contains("quasi.body")),
        "expected quasi.body after outer fail replay, got: {:?}",
        states
    );
    assert!(
        !states.iter().any(|s| s.contains("list.body")),
        "list.body meta_scope leaked past outer fail replay, got: {:?}",
        states
    );
}

#[test]
fn branch_cross_line_multi_replay() {
    let syntax_str = r#"
name: MultiReplayTest
scope: source.multi-replay
contexts:
  main:
    - match: 'TRY'
      branch_point: bp
      branch: [try-ctx, fallback-ctx]
    - match: '.*'
      scope: main.other
  try-ctx:
    - match: '\n'
      # stay in context
    - match: 'FAIL'
      fail: bp
    - match: '\w+'
      scope: try.word
  fallback-ctx:
    - match: '.*'
      scope: fallback.content
      pop: true
"#;
    let syntax = SyntaxDefinition::load_from_str(syntax_str, true, None).unwrap();
    let ss = link(syntax);
    let mut state = ParseState::new(&ss.syntaxes()[0]);

    let out1 = state.parse_line("TRY\n", &ss).expect("line 1");
    assert!(out1.revised.is_none());

    let out2 = state.parse_line("aaa\n", &ss).expect("line 2");
    assert!(out2.revised.is_none());

    let out3 = state.parse_line("bbb\n", &ss).expect("line 3");
    assert!(out3.revised.is_none());

    let out4 = state.parse_line("FAIL\n", &ss).expect("line 4");
    assert_eq!(
        revised_lines(&out4).len(),
        3,
        "expected 3 replayed lines (lines 1-3), got {:?}",
        out4.revised
    );

    let has_fallback = revised_lines(&out4)[0].iter().any(|(_, op)| {
            matches!(op, ScopeStackOp::Push(s) if format!("{:?}", s).contains("fallback.content"))
        });
    assert!(
        has_fallback,
        "replayed line 0 missing fallback.content, got: {:?}",
        revised_lines(&out4)[0]
    );

    for (i, line_ops) in revised_lines(&out4).iter().enumerate() {
        let has_try_word = line_ops.iter().any(|(_, op)| {
                matches!(op, ScopeStackOp::Push(s) if format!("{:?}", s).contains("try.word"))
            });
        assert!(
            !has_try_word,
            "replayed line {} should not have try.word, got: {:?}",
            i, line_ops
        );
    }
    let current_has_try = out4
        .ops
        .iter()
        .any(|(_, op)| matches!(op, ScopeStackOp::Push(s) if format!("{:?}", s).contains("try")));
    assert!(
        !current_has_try,
        "current-line ops should not contain try.* scopes after cross-line fail, got: {:?}",
        out4.ops
    );
}

#[test]
fn branch_cross_line_fail_with_preceding_ops() {
    let syntax_str = r#"
name: PrecedingOpsTest
scope: source.preceding-ops
contexts:
  main:
    - match: 'TRY'
      branch_point: bp
      branch: [try-ctx, fallback-ctx]
    - match: '.*'
      scope: main.other
  try-ctx:
    - match: '\n'
      # stay in context across lines
    - match: 'FAIL'
      fail: bp
    - match: '\w+'
      scope: try.word
  fallback-ctx:
    - match: '.*'
      scope: fallback.content
      pop: true
"#;
    let syntax = SyntaxDefinition::load_from_str(syntax_str, true, None).unwrap();
    let ss = link(syntax);
    let mut state = ParseState::new(&ss.syntaxes()[0]);

    let out1 = state.parse_line("TRY\n", &ss).expect("line 1");
    assert!(out1.revised.is_none());

    let out2 = state.parse_line("stuff FAIL\n", &ss).expect("line 2");

    assert_eq!(
        revised_lines(&out2).len(),
        1,
        "expected 1 replayed line, got {}",
        revised_lines(&out2).len()
    );

    let replay_has_fallback = revised_lines(&out2)[0].iter().any(|(_, op)| {
            matches!(op, ScopeStackOp::Push(s) if format!("{:?}", s).contains("fallback.content"))
        });
    assert!(
        replay_has_fallback,
        "replayed line should have fallback.content, got: {:?}",
        revised_lines(&out2)[0]
    );

    let current_has_try = out2.ops.iter().any(
        |(_, op)| matches!(op, ScopeStackOp::Push(s) if format!("{:?}", s).contains("try.word")),
    );
    assert!(
        !current_has_try,
        "current-line ops should not contain try.word after cross-line fail, got: {:?}",
        out2.ops
    );

    let current_has_main = out2.ops.iter().any(
        |(_, op)| matches!(op, ScopeStackOp::Push(s) if format!("{:?}", s).contains("main.other")),
    );
    assert!(
        current_has_main,
        "current-line should be re-parsed as main.other from position 0, got: {:?}",
        out2.ops
    );
}

#[test]
fn cross_line_multi_fail_deduplicates_flushed_ops() {
    let syntax_str = r#"
name: DedupCrossLine
scope: source.dup
contexts:
  main:
    - match: 'A'
      branch_point: bp1
      branch: [a1, a2]
  a1:
    - match: 'B'
      branch_point: bp2
      branch: [b1, b2]
    - match: '(?=FAIL)'
      fail: bp1
  a2:
    - match: '.*'
      scope: a2.fallback
      pop: true
  b1:
    - match: '\n'
    - match: '(?=FAIL)'
      fail: bp2
    - match: 'XYZ'
      pop: true
  b2:
    - match: '\n'
    - match: '(?=FAIL)'
      fail: bp2
    - match: 'XYZ'
      pop: true
"#;
    let syntax = SyntaxDefinition::load_from_str(syntax_str, true, None).unwrap();
    let ss = link(syntax);
    let mut state = ParseState::new(&ss.syntaxes()[0]);

    let out1 = state.parse_line("AB\n", &ss).expect("line 1");
    assert!(out1.revised.is_none());

    let out2 = state.parse_line("FOO\n", &ss).expect("line 2");
    assert!(out2.revised.is_none());

    let out3 = state.parse_line("FAIL\n", &ss).expect("line 3");

    assert_eq!(
        revised_lines(&out3).len(),
        2,
        "expected exactly 2 replayed lines (one per buffered pending line), got {}: {:?}",
        revised_lines(&out3).len(),
        out3.revised,
    );

    let line_lens = ["AB\n".len(), "FOO\n".len()];
    for (i, line_ops) in revised_lines(&out3).iter().enumerate() {
        for (pos, op) in line_ops {
            assert!(
                *pos <= line_lens[i],
                "replayed[{}] op past EOL: pos={} line_len={} op={:?}",
                i,
                pos,
                line_lens[i],
                op,
            );
        }
    }
}

#[test]
fn replay_born_branch_routes_as_cross_line_on_later_fail() {
    let syntax_str = r#"
name: ReplayBornBranch
scope: source.rbb
contexts:
  main:
    - match: 'A'
      branch_point: bp1
      branch: [a1, a2]
  a1:
    - match: '(?=FAIL1)'
      fail: bp1
    - match: '.'
  a2:
    - match: 'B'
      branch_point: bp2
      branch: [b1, b2]
    - match: '.'
  b1:
    - match: '(?=FAIL2)'
      fail: bp2
    - match: '.'
  b2:
    - match: '.*'
      scope: b2.fallback
      pop: true
"#;
    let syntax = SyntaxDefinition::load_from_str(syntax_str, true, None).unwrap();
    let ss = link(syntax);
    let mut state = ParseState::new(&ss.syntaxes()[0]);

    let line1 = "A pad pad pad pad pad pad pad pad pad pad B tail\n";
    assert!(line1.find('B').unwrap() > "FAIL2\n".len());

    let out1 = state.parse_line(line1, &ss).expect("line 1 parses");
    assert!(out1.revised.is_none());

    let out2 = state.parse_line("FAIL1\n", &ss).expect("line 2 parses");
    assert_eq!(revised_lines(&out2).len(), 1, "bp1 replay covers line 1");

    let outer = "FAIL2\n";
    let out3 = state.parse_line(outer, &ss).expect("line 3 parses");

    assert_eq!(
        revised_lines(&out3).len(),
        2,
        "expected replay from bp2's cross-line fail to cover both buffered lines, got {}: {:?}",
        revised_lines(&out3).len(),
        out3.revised,
    );

    for (pos, op) in &out3.ops {
        assert!(
            *pos <= outer.len(),
            "outer op past EOL: pos={} len={} op={:?}",
            pos,
            outer.len(),
            op,
        );
    }
    let replay_lines = [line1, "FAIL1\n"];
    for (i, line_ops) in revised_lines(&out3).iter().enumerate() {
        for (pos, op) in line_ops {
            assert!(
                *pos <= replay_lines[i].len(),
                "replayed[{}] op past EOL: pos={} len={} op={:?}",
                i,
                pos,
                replay_lines[i].len(),
                op,
            );
        }
    }
}

#[test]
fn replay_born_branch_inherits_outer_prefix_ops() {
    let syntax_str = r#"
name: ReplayPrefix
scope: source.rp
contexts:
  main:
    - match: '(K)(EY)'
      captures:
        1: keyword.k.rp
        2: variable.k.rp
      push: outer
  outer:
    - match: '$'
      branch_point: bp1
      branch: [a1, a2]
  a1:
    - meta_include_prototype: false
    - match: '(?=FAIL1)'
      fail: bp1
    - match: '.'
  a2:
    - meta_include_prototype: false
    - match: '$'
      branch_point: bp2
      branch: [b1, b2]
    - match: '.'
  b1:
    - meta_include_prototype: false
    - match: '(?=FAIL2)'
      fail: bp2
    - match: '.'
  b2:
    - meta_include_prototype: false
    - match: '\n'
      scope: support.fallback.rp
      pop: 2
"#;
    let syntax = SyntaxDefinition::load_from_str(syntax_str, true, None).unwrap();
    let ss = link(syntax);
    let mut state = ParseState::new(&ss.syntaxes()[0]);

    let line1 = "KEY\n";
    let _ = state.parse_line(line1, &ss).expect("line 1 parses");

    let line2 = "FAIL1\n";
    let _ = state.parse_line(line2, &ss).expect("line 2 parses");

    let line3 = "FAIL2\n";
    let out3 = state.parse_line(line3, &ss).expect("line 3 parses");

    assert_eq!(
        revised_lines(&out3).len(),
        2,
        "bp2 cross-line replay should cover line1 + line2, got {:?}",
        out3.revised,
    );
    let line1_ops = &revised_lines(&out3)[0];

    let pushes_keyword = line1_ops.iter().any(
        |(_, op)| matches!(op, ScopeStackOp::Push(s) if *s == Scope::new("keyword.k.rp").unwrap()),
    );
    let pushes_variable = line1_ops.iter().any(
        |(_, op)| matches!(op, ScopeStackOp::Push(s) if *s == Scope::new("variable.k.rp").unwrap()),
    );
    assert!(
        pushes_keyword,
        "line 1 replayed ops should still push keyword.k.rp; got {:?}",
        line1_ops,
    );
    assert!(
        pushes_variable,
        "line 1 replayed ops should still push variable.k.rp; got {:?}",
        line1_ops,
    );
}

#[test]
fn can_parse_issue176() {
    let syntax = r#"
scope: source.dummy
contexts:
  main:
    - match: (test)(?=(foo))(f)
      captures:
        1: test
        2: ignored
        3: f
      push:
        - match: (oo)
          captures:
            1: keyword
"#;

    let syntax = SyntaxDefinition::load_from_str(syntax, true, None).unwrap();
    expect_scope_stacks_with_syntax(
        "testfoo",
        &["<test>",  "<f>", "<keyword>"],
        syntax,
    );
}

#[test]
fn php_multi_set_target_clear_drops_extra_parent_mcs_on_trigger() {
    let syntax_str = r#"
name: PhpMultiSetClear
scope: source.phpmultisetclear
version: 2
contexts:
  main:
    - match: '(?=\S)'
      push: outer

  outer:
    - meta_content_scope: outer.mcs.test
    - match: 'F'
      scope: keyword.f.test
      push: parent

  parent:
    - meta_content_scope: parent.mcs.test
    - match: '\('
      scope: parent.lparen.test
      push: cur

  cur:
    - match: ':'
      scope: trigger.colon.test
      set: [body, helper]
    - match: '(?=\S)'
      pop: 1

  body:
    - clear_scopes: 1
    - meta_scope: body.ms.test
    - match: '\w+'
      scope: body.word.test
      pop: 1

  helper:
    - match: '(?=\S)'
      pop: 1
"#;
    let syntax = SyntaxDefinition::load_from_str(syntax_str, true, None).unwrap();
    let ss = link(syntax);
    let mut state = ParseState::new(&ss.syntaxes()[0]);
    let raw_ops = ops(&mut state, "F(:foo\n", &ss);
    let states = stack_states(raw_ops);

    let colon_state = states
        .iter()
        .find(|s| s.contains("trigger.colon.test"))
        .unwrap_or_else(|| {
            panic!(
                "expected a state containing trigger.colon.test, got: {:?}",
                states
            )
        });
    assert!(
        !colon_state.contains("parent.mcs.test"),
        "trigger must drop parent.mcs (Clear(1) target): {}",
        colon_state
    );
    assert!(
        !colon_state.contains("outer.mcs.test"),
        "trigger must drop outer.mcs (the EXTRA atom anchored by body.ms): {}",
        colon_state
    );
    assert!(
        colon_state.contains("body.ms.test"),
        "trigger must carry body.ms (target's meta_scope): {}",
        colon_state
    );

    let body_state = states
        .iter()
        .find(|s| s.contains("body.word.test"))
        .unwrap_or_else(|| {
            panic!(
                "expected a state containing body.word.test, got: {:?}",
                states
            )
        });
    assert!(
        !body_state.contains("parent.mcs.test"),
        "body must drop parent.mcs (Clear(1) target): {}",
        body_state
    );
    assert!(
        body_state.contains("outer.mcs.test"),
        "body must keep outer.mcs (the extra-drop is trigger-only): {}",
        body_state
    );
    assert!(
        body_state.contains("body.ms.test"),
        "body must carry body.ms: {}",
        body_state
    );
}

const CROSS_LINE_SYNTAX: &str = r#"
name: CommittedTest
scope: source.ct
contexts:
  main:
    - match: 'TRY'
      branch_point: bp
      branch: [try-ctx, fallback-ctx]
    - match: '\w+'
      scope: main.word.ct
  try-ctx:
    - match: '\n'
    - match: 'FAIL'
      fail: bp
    - match: '\w+'
      scope: try.word.ct
  fallback-ctx:
    - match: '.*'
      scope: fallback.content.ct
      pop: true
"#;

fn load(syntax_str: &str) -> SyntaxSet {
    let syntax = SyntaxDefinition::load_from_str(syntax_str, true, None).unwrap();
    link(syntax)
}

fn effective_ops(lines: &[&str], ss: &SyntaxSet) -> Vec<Vec<Op>> {
    let mut state = ParseState::new(&ss.syntaxes()[0]);
    let mut effective: Vec<Vec<Op>> = Vec::new();
    for line in lines {
        let out = state.parse_line(line, ss).expect("parse");
        if let Some(revised) = out.revised {
            let start = effective.len() - revised.len();
            effective.truncate(start);
            effective.extend(revised);
        }
        effective.push(out.ops);
    }
    effective
}

#[test]
fn committed_lines_match_raw_protocol_and_arrive_once_in_order() {
    let ss = load(CROSS_LINE_SYNTAX);
    let lines = ["TRY\n", "FAIL\n", "benign\n", "TRY\n", "ok\n"];

    let mut committed = CommittedParser::new(&ss.syntaxes()[0]);
    let mut collected: Vec<Vec<Op>> = Vec::new();
    let mut batch_sizes = Vec::new();
    for line in lines {
        let batch = committed.feed(line, &ss).expect("feed");
        batch_sizes.push(batch.len());
        collected.extend(batch);
    }
    collected.extend(committed.finish());

    assert_eq!(
        batch_sizes[0], 0,
        "line 1 opens a speculation window; nothing is final yet"
    );
    assert_eq!(
        batch_sizes[1], 2,
        "the cross-line fail resolves the window; lines 1-2 come out together"
    );

    assert_eq!(collected.len(), lines.len());
    assert_eq!(collected, effective_ops(&lines, &ss));

    let line1_scopes: Vec<String> = collected[0]
        .iter()
        .filter_map(|(_, op)| match op {
            ScopeStackOp::Push(s) => Some(format!("{:?}", s)),
            _ => None,
        })
        .collect();
    assert!(
        line1_scopes.iter().any(|s| s.contains("fallback.content")),
        "committed line 1 must carry the revised fallback scope; got {:?}",
        line1_scopes
    );
    assert!(
        !line1_scopes.iter().any(|s| s.contains("try.word")),
        "committed line 1 must not leak the failed alternative; got {:?}",
        line1_scopes
    );
}

#[test]
fn finish_drains_an_unresolved_window() {
    let ss = load(CROSS_LINE_SYNTAX);
    let mut committed = CommittedParser::new(&ss.syntaxes()[0]);

    let batch = committed.feed("TRY\n", &ss).expect("feed");
    assert!(
        batch.is_empty(),
        "speculation window is open at end of line 1"
    );

    let rest = committed.finish();
    assert_eq!(rest.len(), 1, "finish drains the one buffered line");
    assert!(committed.finish().is_empty(), "finish is idempotent");
}

#[test]
fn take_warnings_surfaces_parse_warnings() {
    let ss = load(CROSS_LINE_SYNTAX);
    let mut committed = CommittedParser::new(&ss.syntaxes()[0]);
    let _ = committed.feed("TRY\n", &ss).expect("feed");
    for _ in 0..129 {
        let _ = committed.feed("\n", &ss).expect("feed");
    }
    let warnings = committed.take_warnings();
    assert!(
        warnings
            .iter()
            .any(|w| matches!(w, ParseWarning::BranchPointExpired { name } if name == "bp")),
        "expected the expiry warning, got {:?}",
        warnings
    );
    assert!(committed.take_warnings().is_empty(), "take_warnings drains");
}

const PROPERTY_SYNTAX: &str = r#"
name: PropertyTest
scope: source.prop
contexts:
  main:
    - match: 'TRY'
      branch_point: outer
      branch: [outer-a, outer-b]
    - match: '\w+'
      scope: main.word.prop
  outer-a:
    - match: '\n'
    - match: 'INNER'
      branch_point: inner
      branch: [inner-a, inner-b]
    - match: 'FAIL'
      fail: outer
    - match: '\w+'
      scope: outer-a.word.prop
  outer-b:
    - match: '.*'
      scope: outer-b.content.prop
      pop: true
  inner-a:
    - match: '\n'
    - match: 'KILL'
      fail: inner
    - match: '\w+'
      scope: inner-a.word.prop
  inner-b:
    - match: '\n'
    - match: 'KILL'
      fail: inner
    - match: '\w+'
      scope: inner-b.word.prop
"#;

const ALPHABET: &[&str] = &["TRY\n", "INNER\n", "FAIL\n", "KILL\n", "ok\n", "\n"];

const MAX_LEN: usize = 4;

type RecordedOutput = (Vec<Op>, Option<usize>);

fn property_syntax_set() -> SyntaxSet {
    let syntax = SyntaxDefinition::load_from_str(PROPERTY_SYNTAX, true, None).unwrap();
    link(syntax)
}

fn all_sequences() -> Vec<Vec<&'static str>> {
    let mut seqs: Vec<Vec<&'static str>> = vec![Vec::new()];
    let mut out = Vec::new();
    for _ in 0..MAX_LEN {
        let mut next = Vec::new();
        for seq in &seqs {
            for line in ALPHABET {
                let mut s = seq.clone();
                s.push(*line);
                out.push(s.clone());
                next.push(s);
            }
        }
        seqs = next;
    }
    out
}

fn run_effective(
    state: &mut ParseState,
    lines: &[&str],
    ss: &SyntaxSet,
) -> Vec<Vec<Op>> {
    let mut effective: Vec<Vec<Op>> = Vec::new();
    for line in lines {
        let out = state.parse_line(line, ss).expect("parse");
        if let Some(revised) = out.revised {
            assert!(
                revised.len() <= effective.len(),
                "revision covers {} lines but only {} were returned",
                revised.len(),
                effective.len()
            );
            assert!(revised.len() <= 130, "revision exceeds the expiry window");
            let start = effective.len() - revised.len();
            effective.truncate(start);
            effective.extend(revised);
        }
        assert!(
            state.speculative_lines() <= 130,
            "speculation window exceeds the expiry bound"
        );
        effective.push(out.ops);
    }
    let mut stack = ScopeStack::new();
    for line_ops in &effective {
        for (_, op) in line_ops {
            stack.apply(op).expect("effective ops must apply cleanly");
        }
    }
    effective
}

#[test]
fn clone_at_commit_boundaries_resumes_deterministically() {
    let ss = property_syntax_set();
    for seq in all_sequences() {
        let mut primary = ParseState::new(&ss.syntaxes()[0]);
        let mut clones: Vec<(usize, ParseState)> = Vec::new();
        let mut outputs: Vec<RecordedOutput> = Vec::new();
        for (i, line) in seq.iter().enumerate() {
            let out = primary.parse_line(line, &ss).expect("parse");
            outputs.push((out.ops, out.revised.map(|r| r.len())));
            if primary.speculative_lines() == 0 {
                clones.push((i + 1, primary.clone()));
            }
        }
        for (resume_at, mut clone) in clones {
            for (j, line) in seq[resume_at..].iter().enumerate() {
                let out = clone.parse_line(line, &ss).expect("parse");
                let (ref ops, revised_len) = outputs[resume_at + j];
                assert_eq!(
                    &out.ops,
                    ops,
                    "clone resumed at line {} diverged on line {} of {:?}",
                    resume_at,
                    resume_at + j,
                    seq
                );
                assert_eq!(
                    out.revised.map(|r| r.len()),
                    revised_len,
                    "clone resumed at line {} revised differently on line {} of {:?}",
                    resume_at,
                    resume_at + j,
                    seq
                );
            }
            assert_eq!(
                clone, primary,
                "clone resumed at line {} ended in a different state for {:?}",
                resume_at, seq
            );
        }
    }
}

#[test]
fn committed_parser_is_exactly_once_and_matches_raw_protocol() {
    let ss = property_syntax_set();
    for seq in all_sequences() {
        let mut state = ParseState::new(&ss.syntaxes()[0]);
        let effective = run_effective(&mut state, &seq, &ss);

        let mut committed = CommittedParser::new(&ss.syntaxes()[0]);
        let mut collected = Vec::new();
        for line in &seq {
            collected.extend(committed.feed(line, &ss).expect("feed"));
        }
        collected.extend(committed.finish());
        assert_eq!(
            collected.len(),
            seq.len(),
            "exactly one committed entry per input line for {:?}",
            seq
        );
        assert_eq!(
            collected, effective,
            "committed stream diverged from the raw protocol for {:?}",
            seq
        );
    }
}
