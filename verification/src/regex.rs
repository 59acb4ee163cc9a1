//! Regular expressions: search through an outside engine, escaping, and the
//! substitution of back-references.

use crate::text;
use vstd::prelude::*;
use vstd::string::*;
use vstd::utf8::*;

verus! {

/// A compiled program of the `fancy-regex` engine.
#[verifier::external_type_specification]
#[verifier::external_body]
pub struct ExProgram(fancy_regex::Regex);

/// The groups of the first match of a pattern in `text` at or after the byte
/// `begin`: for each group, the bytes it spans, if it took part. A pattern that
/// the engine does not accept matches nowhere, and neither does one on which it
/// gives up.
pub uninterp spec fn regex_captures(
    pattern: Seq<char>,
    allow_empty: bool,
    text: Seq<char>,
    begin: usize,
) -> Option<Seq<Option<(usize, usize)>>>;

/// `fancy_regex::RegexBuilder::build`, in Oniguruma mode, refusing empty
/// matches unless `allow_empty`. Claimed: the expression is the one of that
/// pattern and flag; its program is what the engine makes of them.
#[verifier::external_body]
fn compile(regex_str: String, allow_empty: bool) -> (r: Expression)
    ensures
        r@ == (ExpressionV { pattern: regex_str@, allow_empty }),
{
    let program = fancy_regex::RegexBuilder::new(&regex_str)
        .oniguruma_mode(true)
        .find_not_empty(!allow_empty)
        .build()
        .ok();
    Expression { regex_str, allow_empty, program }
}

/// `fancy_regex::Regex::clone`. Claimed: the copy is of the same pattern and flag,
/// and its program is the same.
#[verifier::external_body]
fn clone_expression(re: &Expression) -> (r: Expression)
    ensures
        r@ == re@,
{
    Expression {
        regex_str: re.regex_str.clone(),
        allow_empty: re.allow_empty,
        program: re.program.clone(),
    }
}

/// `fancy_regex::Regex::captures_from_pos`. Claimed: the result depends on the
/// pattern, the flag, the text and the start alone.
#[verifier::external_body]
fn captures(re: &Expression, text: &str, begin: usize) -> (r: Option<Vec<Option<(usize, usize)>>>)
    requires
        text::is_boundary(text@, begin),
    ensures
        match r {
            Some(spans) => regex_captures(re@.pattern, re@.allow_empty, text@, begin) == Some(
                spans@,
            ),
            None => regex_captures(re@.pattern, re@.allow_empty, text@, begin) is None,
        },
{
    match re.program.as_ref()?.captures_from_pos(text, begin) {
        Ok(Some(groups)) => Some(
            groups.iter().map(|g| g.map(|m| (m.start(), m.end()))).collect(),
        ),
        _ => None,
    }
}

/// `String::push`. Claimed: the character is appended.
pub assume_specification[ String::push ](s: &mut String, ch: char)
    ensures
        final(s)@ == old(s)@.push(ch),
;

/// The spans of the groups of a match; group 0 is the whole match.
#[derive(Debug, PartialEq, Eq)]
pub struct Region {
    spans: Vec<Option<(usize, usize)>>,
}

impl View for Region {
    type V = Seq<Option<(usize, usize)>>;

    closed spec fn view(&self) -> Seq<Option<(usize, usize)>> {
        self.spans@
    }
}

/// The span of group `i`, if there is such a group and it took part.
pub open spec fn span(region: Seq<Option<(usize, usize)>>, i: int) -> Option<(usize, usize)> {
    if 0 <= i < region.len() {
        region[i]
    } else {
        None
    }
}

/// The span of the whole match.
pub open spec fn whole(region: Seq<Option<(usize, usize)>>) -> (usize, usize) {
    match span(region, 0) {
        Some(s) => s,
        None => (0, 0),
    }
}

impl Clone for Region {
    fn clone(&self) -> (r: Self)
        ensures
            r@ == self@,
    {
        let mut spans: Vec<Option<(usize, usize)>> = Vec::new();
        for i in 0..self.spans.len()
            invariant
                spans@ == self.spans@.subrange(0, i as int),
        {
            spans.push(self.spans[i]);
            assert(spans@ =~= self.spans@.subrange(0, i + 1));
        }
        assert(spans@ =~= self.spans@);
        Region { spans }
    }
}

impl Region {
    /// A region with the given spans.
    pub fn new(spans: Vec<Option<(usize, usize)>>) -> (r: Region)
        ensures
            r@ == spans@,
    {
        Region { spans }
    }

    /// See [`span`].
    pub fn pos(&self, i: usize) -> (r: Option<(usize, usize)>)
        ensures
            r == span(self@, i as int),
    {
        if i < self.spans.len() {
            self.spans[i]
        } else {
            None
        }
    }

    /// See [`whole`].
    pub fn whole_match(&self) -> (r: (usize, usize))
        ensures
            r == whole(self@),
    {
        match self.pos(0) {
            Some(s) => s,
            None => (0, 0),
        }
    }
}

/// What a search with a [`Expression`] depends on.
pub struct ExpressionV {
    pub pattern: Seq<char>,
    pub allow_empty: bool,
}

/// A regular expression, with what the engine made of it: nothing if it does not
/// accept the pattern.
#[derive(Debug)]
pub struct Expression {
    regex_str: String,
    allow_empty: bool,
    program: Option<fancy_regex::Regex>,
}

/// Expressions are equal if they have the same pattern and the same flag.
impl PartialEq for Expression {
    fn eq(&self, other: &Self) -> (r: bool) {
        self.regex_str == other.regex_str && self.allow_empty == other.allow_empty
    }
}

impl vstd::std_specs::cmp::PartialEqSpecImpl for Expression {
    open spec fn obeys_eq_spec() -> bool {
        true
    }

    open spec fn eq_spec(&self, other: &Self) -> bool {
        self@.pattern == other@.pattern && self@.allow_empty == other@.allow_empty
    }
}

impl Eq for Expression {

}

impl View for Expression {
    type V = ExpressionV;

    closed spec fn view(&self) -> ExpressionV {
        ExpressionV { pattern: self.regex_str@, allow_empty: self.allow_empty }
    }
}

/// Whether a match lies in the bytes `begin..end` and does not end before it
/// starts. This is tested of every match, and not taken from the engine.
pub open spec fn goes_forward(region: Seq<Option<(usize, usize)>>, begin: usize, end: usize) -> bool {
    span(region, 0) matches Some((s, e)) && begin <= s <= e <= end
}

/// The groups of the first match of `re` in the bytes `begin..end` of `line`,
/// where `end` bounds all that the engine sees. Nothing matches outside the line
/// or between the bytes of a character, and a match that goes backward counts as
/// none.
pub open spec fn search(re: ExpressionV, line: Seq<char>, begin: usize, end: usize) -> Option<
    Seq<Option<(usize, usize)>>,
> {
    let text = text::slice(line, 0, end);
    if begin <= end && text is Some && text::is_boundary(text->0, begin) {
        match regex_captures(re.pattern, re.allow_empty, text->0, begin) {
            Some(region) => if goes_forward(region, begin, end) {
                Some(region)
            } else {
                None
            },
            None => None,
        }
    } else {
        None
    }
}

impl Clone for Expression {
    fn clone(&self) -> (r: Self)
        ensures
            r@ == self@,
    {
        clone_expression(self)
    }
}

impl Expression {
    /// The expression with the given pattern. Its matches are never empty
    /// unless `allow_empty`.
    pub fn new(regex_str: String, allow_empty: bool) -> (r: Expression)
        ensures
            r@ == (ExpressionV { pattern: regex_str@, allow_empty }),
    {
        compile(regex_str, allow_empty)
    }

    /// The pattern.
    pub fn regex_str(&self) -> (r: &str)
        ensures
            r@ == self@.pattern,
    {
        self.regex_str.as_str()
    }

    /// See [`search`]; whether an empty match counts is up to the caller.
    pub fn search(&self, line: &str, begin: usize, end: usize, allow_empty: bool) -> (r: Option<
        Region,
    >)
        ensures
            ({
                let model = search(
                    ExpressionV { pattern: self@.pattern, allow_empty },
                    line@,
                    begin,
                    end,
                );
                match r {
                    Some(region) => model == Some(region@),
                    None => model is None,
                }
            }),
    {
        if allow_empty != self.allow_empty {
            let other = Expression::new(self.regex_str.clone(), allow_empty);
            return other.search_own(line, begin, end);
        }
        self.search_own(line, begin, end)
    }

    /// See [`search`].
    fn search_own(&self, line: &str, begin: usize, end: usize) -> (r: Option<Region>)
        ensures
            match r {
                Some(region) => search(self@, line@, begin, end) == Some(region@),
                None => search(self@, line@, begin, end) is None,
            },
    {
        let text = match text::slice_of(line, 0, end) {
            Some(text) => text,
            None => {
                return None;
            },
        };
        if begin > end || !text.is_char_boundary(begin) {
            return None;
        }
        match captures(self, text, begin) {
            Some(spans) => {
                let region = Region { spans };
                match region.pos(0) {
                    Some((s, e)) if begin <= s && s <= e && e <= end => Some(region),
                    _ => None,
                }
            },
            None => None,
        }
    }
}

/// Whether a character has a meaning of its own in a regular expression.
pub open spec fn is_meta(c: char) -> bool {
    c == '\\' || c == '.' || c == '+' || c == '*' || c == '?' || c == '(' || c == ')' || c == '|'
        || c == '[' || c == ']' || c == '{' || c == '}' || c == '^' || c == '$' || c == '#' || c
        == '&' || c == '-' || c == '~'
}

/// `text` with a backslash before each character that [`is_meta`].
pub open spec fn escaped(text: Seq<char>) -> Seq<char>
    decreases text.len(),
{
    if text.len() == 0 {
        Seq::empty()
    } else {
        let rest = escaped(text.drop_last());
        if is_meta(text.last()) {
            rest.push('\\').push(text.last())
        } else {
            rest.push(text.last())
        }
    }
}

/// `regex_syntax::escape`. Claimed: every character is kept, and a backslash
/// comes before each of the eighteen meta characters.
#[verifier::external_body]
pub(crate) fn escape_str(s: &str) -> (r: String)
    ensures
        r@ == escaped(s@),
{
    regex_syntax::escape(s)
}

/// The escaped text that group `n` of a match spans in `text`, if it took part.
pub open spec fn group_text(
    region: Seq<Option<(usize, usize)>>,
    text: Seq<char>,
    n: int,
) -> Option<Seq<char>> {
    match span(region, n) {
        Some((s, e)) => match text::slice(text, s, e) {
            Some(t) => Some(escaped(t)),
            None => None,
        },
        None => None,
    }
}

/// What the character `c` of a pattern becomes, `esc` telling whether it is
/// preceded by a backslash that escapes it: `\N` becomes the text of group `N`.
pub open spec fn substituted_char(
    c: char,
    esc: bool,
    region: Seq<Option<(usize, usize)>>,
    text: Seq<char>,
) -> Seq<char> {
    if esc && '0' <= c <= '9' {
        match group_text(region, text, c as int - '0' as int) {
            Some(t) => t,
            None => Seq::empty(),
        }
    } else if esc {
        seq!['\\', c]
    } else if c != '\\' {
        seq![c]
    } else {
        Seq::empty()
    }
}

/// The pattern from its character `i` on, each back-reference replaced by the
/// text of its group.
pub open spec fn substituted(
    pattern: Seq<char>,
    i: int,
    esc: bool,
    region: Seq<Option<(usize, usize)>>,
    text: Seq<char>,
) -> Seq<char>
    decreases pattern.len() - i,
{
    if i < 0 || i >= pattern.len() {
        Seq::empty()
    } else {
        substituted_char(pattern[i], esc, region, text) + substituted(
            pattern,
            i + 1,
            pattern[i] == '\\' && !esc,
            region,
            text,
        )
    }
}

fn escaped_group(region: &Region, text: &str, n: usize) -> (r: Option<String>)
    ensures
        match r {
            Some(t) => group_text(region@, text@, n as int) == Some(t@),
            None => group_text(region@, text@, n as int) is None,
        },
{
    match region.pos(n) {
        Some((s, e)) => match text::slice_of(text, s, e) {
            Some(t) => Some(escape_str(t)),
            None => None,
        },
        None => None,
    }
}

/// The pattern with each back-reference `\N` replaced by the escaped text that
/// group `N` of `region` spans in `text`, or by nothing.
pub fn substitute_backrefs_in_regex(regex_str: &str, region: &Region, text: &str) -> (r: String)
    ensures
        r@ == substituted(regex_str@, 0, false, region@, text@),
{
    let mut out = String::new();
    let mut esc = false;
    for c in it: regex_str.chars()
        invariant
            it.seq() == regex_str@,
            out@ + substituted(regex_str@, it.index() as int, esc, region@, text@) == substituted(
                regex_str@,
                0,
                false,
                region@,
                text@,
            ),
    {
        let ghost before = out@;
        let ghost rest = substituted(
            regex_str@,
            it.index() + 1,
            c == '\\' && !esc,
            region@,
            text@,
        );
        if esc && '0' <= c && c <= '9' {
            let n: usize = (c as u32 - '0' as u32) as usize;
            match escaped_group(region, text, n) {
                Some(t) => {
                    out.append(t.as_str());
                },
                None => {},
            }
        } else if esc {
            out.push('\\');
            out.push(c);
        } else if c != '\\' {
            out.push(c);
        }
        proof {
            let piece = substituted_char(c, esc, region@, text@);
            assert(out@ =~= before + piece);
            assert((before + piece) + rest =~= before + (piece + rest));
        }
        esc = c == '\\' && !esc;
    }
    proof {
        assert(out@ + Seq::<char>::empty() =~= out@);
    }
    out
}

/// Whether a pattern ends within an escape: after an odd number of backslashes.
pub open spec fn ends_escaping(pattern: Seq<char>) -> bool
    decreases pattern.len(),
{
    pattern.len() > 0 && pattern.last() == '\\' && !ends_escaping(pattern.drop_last())
}

spec fn escaping_after(pattern: Seq<char>, i: int, esc: bool) -> bool
    decreases pattern.len() - i,
{
    if i < 0 || i >= pattern.len() {
        esc
    } else {
        escaping_after(pattern, i + 1, pattern[i] == '\\' && !esc)
    }
}

proof fn lemma_escaping_after(p: Seq<char>, c: char, i: int, esc: bool)
    requires
        0 <= i <= p.len(),
    ensures
        escaping_after(p.push(c), i, esc) == (c == '\\' && !escaping_after(p, i, esc)),
    decreases p.len() - i,
{
    reveal_with_fuel(escaping_after, 2);
    if i < p.len() {
        assert(p.push(c)[i] == p[i]);
        lemma_escaping_after(p, c, i + 1, p[i] == '\\' && !esc);
    }
}

proof fn lemma_ends_escaping(p: Seq<char>)
    ensures
        escaping_after(p, 0, false) == ends_escaping(p),
    decreases p.len(),
{
    if p.len() > 0 {
        lemma_ends_escaping(p.drop_last());
        lemma_escaping_after(p.drop_last(), p.last(), 0, false);
        assert(p.drop_last().push(p.last()) =~= p);
    }
}

proof fn lemma_shifted(
    p: Seq<char>,
    q: Seq<char>,
    k: int,
    esc: bool,
    region: Seq<Option<(usize, usize)>>,
    text: Seq<char>,
)
    requires
        0 <= k <= q.len(),
    ensures
        substituted(p + q, p.len() + k, esc, region, text) == substituted(q, k, esc, region, text),
    decreases q.len() - k,
{
    if k < q.len() {
        assert((p + q)[p.len() + k] == q[k]);
        lemma_shifted(p, q, k + 1, q[k] == '\\' && !esc, region, text);
    }
}

proof fn lemma_substituted_parts(
    p: Seq<char>,
    q: Seq<char>,
    i: int,
    esc: bool,
    region: Seq<Option<(usize, usize)>>,
    text: Seq<char>,
)
    requires
        0 <= i <= p.len(),
    ensures
        substituted(p + q, i, esc, region, text) == substituted(p, i, esc, region, text)
            + substituted(q, 0, escaping_after(p, i, esc), region, text),
    decreases p.len() - i,
{
    if i < p.len() {
        assert((p + q)[i] == p[i]);
        let next = p[i] == '\\' && !esc;
        lemma_substituted_parts(p, q, i + 1, next, region, text);
        let c = substituted_char(p[i], esc, region, text);
        let a = substituted(p, i + 1, next, region, text);
        let b = substituted(q, 0, escaping_after(p, i, esc), region, text);
        assert(c + (a + b) =~= (c + a) + b);
    } else {
        lemma_shifted(p, q, 0, esc, region, text);
        let b = substituted(q, 0, esc, region, text);
        assert(Seq::<char>::empty() + b =~= b);
    }
}

/// Whether `t` is what a back-reference to group `n` stands for: the text of its bytes,
/// or nothing if it took no part.
pub open spec fn refers_to(
    region: Seq<Option<(usize, usize)>>,
    line: Seq<char>,
    n: int,
    t: Seq<char>,
) -> bool {
    if 0 <= n < region.len() && region[n] is Some {
        let (s, e) = region[n]->0;
        &&& s <= e <= encode_utf8(line).len()
        &&& is_char_boundary(encode_utf8(line), s as int)
        &&& is_char_boundary(encode_utf8(line), e as int)
        &&& encode_utf8(t) == encode_utf8(line).subrange(s as int, e as int)
    } else {
        t.len() == 0
    }
}

/// A back-reference in a pattern is replaced by the text of its group, escaped, and what
/// comes before and behind it is replaced on its own. An escape that is no
/// back-reference stays as it is.
pub proof fn law_back_references_are_replaced(
    p: Seq<char>,
    c: char,
    q: Seq<char>,
    region: Seq<Option<(usize, usize)>>,
    line: Seq<char>,
    t: Seq<char>,
)
    requires
        !ends_escaping(p),
        '0' <= c <= '9' ==> refers_to(region, line, c as int - '0' as int, t),
    ensures
        substituted(p + seq!['\\', c] + q, 0, false, region, line) == substituted(
            p,
            0,
            false,
            region,
            line,
        ) + (if '0' <= c <= '9' {
            escaped(t)
        } else {
            seq!['\\', c]
        }) + substituted(q, 0, false, region, line),
{
    let mid = seq!['\\', c];
    let piece = if '0' <= c <= '9' {
        escaped(t)
    } else {
        mid
    };
    lemma_ends_escaping(p);
    assert(p + mid + q =~= p + (mid + q));
    lemma_substituted_parts(p, mid + q, 0, false, region, line);
    lemma_substituted_parts(mid, q, 0, false, region, line);
    reveal_with_fuel(substituted, 3);
    reveal_with_fuel(escaping_after, 3);
    if '0' <= c <= '9' {
        encode_utf8_decode_utf8(t);
        if t.len() == 0 {
            reveal_with_fuel(encode_utf8, 1);
        }
    }
    assert(substituted(mid, 0, false, region, line) =~= piece);
    let a = substituted(p, 0, false, region, line);
    let b = substituted(q, 0, false, region, line);
    assert(a + (piece + b) =~= a + piece + b);
}

/// Any other character of a pattern stays where it is.
pub proof fn law_other_characters_stay(
    p: Seq<char>,
    c: char,
    q: Seq<char>,
    region: Seq<Option<(usize, usize)>>,
    line: Seq<char>,
)
    requires
        !ends_escaping(p),
        c != '\\',
    ensures
        substituted(p + seq![c] + q, 0, false, region, line) == substituted(
            p,
            0,
            false,
            region,
            line,
        ) + seq![c] + substituted(q, 0, false, region, line),
        substituted(Seq::empty(), 0, false, region, line) == Seq::<char>::empty(),
{
    let mid = seq![c];
    lemma_ends_escaping(p);
    assert(p + mid + q =~= p + (mid + q));
    lemma_substituted_parts(p, mid + q, 0, false, region, line);
    lemma_substituted_parts(mid, q, 0, false, region, line);
    reveal_with_fuel(substituted, 2);
    reveal_with_fuel(escaping_after, 2);
    assert(substituted(mid, 0, false, region, line) =~= mid);
    let a = substituted(p, 0, false, region, line);
    let b = substituted(q, 0, false, region, line);
    assert(a + (mid + b) =~= a + mid + b);
}

/// A search sees the text up to `end` alone and starts at `begin`, both at characters of
/// the line. It finds what the engine finds there, if that lies between them.
pub proof fn law_search_is_bounded(re: ExpressionV, line: Seq<char>, begin: usize, end: usize, seen: Seq<char>)
    requires
        begin <= end <= encode_utf8(line).len(),
        is_char_boundary(encode_utf8(line), end as int),
        encode_utf8(seen) == encode_utf8(line).subrange(0, end as int),
        is_char_boundary(encode_utf8(seen), begin as int),
    ensures
        ({
            let there = regex_captures(re.pattern, re.allow_empty, seen, begin);
            match search(re, line, begin, end) {
                Some(region) => there == Some(region) && region.len() > 0 && (region[0] matches Some(
                    (s, e),
                ) && begin <= s <= e <= end),
                None => there matches Some(region) ==> (region.len() > 0 && region[0] is Some
                    ==> !(begin <= (region[0]->0).0 <= (region[0]->0).1 <= end)),
            }
        }),
{
    encode_utf8_valid_utf8(line);
    is_char_boundary_start_end_of_seq(encode_utf8(line));
    encode_utf8_decode_utf8(seen);
}

} // verus!
