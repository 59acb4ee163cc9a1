//! The texts of scopes: a repository gives every atom a number.

use crate::scope;
use crate::scope::Scope;
use crate::views;
use vstd::prelude::*;
use vstd::string::*;

verus! {

broadcast use crate::views::group_views;

/// How many atoms a scope can have.
pub const MAX_ATOMS: usize = 8;

/// An error of [`ScopeRepository::build`].
#[derive(Clone, Copy, Debug, PartialEq, Eq, Structural)]
pub enum ScopeTextError {
    /// The text has more than eight atoms.
    TooManyAtoms,
    /// The repository has no numbers left.
    RepositoryFull,
}

/// `text` without the dots at its end.
pub open spec fn trimmed(text: Seq<char>) -> Seq<char>
    decreases text.len(),
{
    if text.len() > 0 && text.last() == '.' {
        trimmed(text.drop_last())
    } else {
        text
    }
}

/// `acc`, then the parts between the dots of `part` and `text[i..]`.
pub open spec fn split_onto(text: Seq<char>, i: int, part: Seq<char>, acc: Seq<Seq<char>>) -> Seq<
    Seq<char>,
>
    decreases text.len() - i,
{
    if i < 0 || i >= text.len() {
        acc.push(part)
    } else if text[i] == '.' {
        split_onto(text, i + 1, Seq::empty(), acc.push(part))
    } else {
        split_onto(text, i + 1, part.push(text[i]), acc)
    }
}

/// The atoms of the text of a scope: none for an empty text, else what stands
/// between its dots, those at its end left out.
pub open spec fn atoms_in(text: Seq<char>) -> Seq<Seq<char>> {
    if text.len() == 0 {
        Seq::empty()
    } else {
        split_onto(trimmed(text), 0, Seq::empty(), Seq::empty())
    }
}

/// The first place of `atom` among `atoms[i..]`; the end if there is none.
pub open spec fn place_of(atoms: Seq<Seq<char>>, atom: Seq<char>, i: int) -> int
    decreases atoms.len() - i,
{
    if i < 0 || i >= atoms.len() || atoms[i] == atom {
        i
    } else {
        place_of(atoms, atom, i + 1)
    }
}

/// `atoms` with those of `parts[i..]` that it lacks, in order.
pub open spec fn registered(atoms: Seq<Seq<char>>, parts: Seq<Seq<char>>, i: int) -> Seq<Seq<char>>
    decreases parts.len() - i,
{
    if i < 0 || i >= parts.len() {
        atoms
    } else if place_of(atoms, parts[i], 0) < atoms.len() {
        registered(atoms, parts, i + 1)
    } else {
        registered(atoms.push(parts[i]), parts, i + 1)
    }
}

/// The number of part `i`; 0 if there is no such part.
pub open spec fn number_of(atoms: Seq<Seq<char>>, parts: Seq<Seq<char>>, i: int) -> u16 {
    if 0 <= i < parts.len() {
        (place_of(atoms, parts[i], 0) + 1) as u16
    } else {
        0
    }
}

/// The scope whose atoms are the parts.
pub open spec fn scope_of(atoms: Seq<Seq<char>>, parts: Seq<Seq<char>>) -> Scope {
    Scope {
        a0: number_of(atoms, parts, 0),
        a1: number_of(atoms, parts, 1),
        a2: number_of(atoms, parts, 2),
        a3: number_of(atoms, parts, 3),
        a4: number_of(atoms, parts, 4),
        a5: number_of(atoms, parts, 5),
        a6: number_of(atoms, parts, 6),
        a7: number_of(atoms, parts, 7),
    }
}

/// The text of the atom with the given number; empty if there is none.
pub open spec fn atom_text(atoms: Seq<Seq<char>>, number: u16) -> Seq<char> {
    if 1 <= number <= atoms.len() {
        atoms[number - 1]
    } else {
        Seq::empty()
    }
}

/// The atoms of a scope, in order.
pub open spec fn numbers(s: Scope) -> Seq<u16> {
    seq![s.a0, s.a1, s.a2, s.a3, s.a4, s.a5, s.a6, s.a7]
}

/// `acc`, then the texts of `numbers[i..]` up to the first 0, with dots between.
pub open spec fn joined(acc: Seq<char>, atoms: Seq<Seq<char>>, numbers: Seq<u16>, i: int) -> Seq<char>
    decreases numbers.len() - i,
{
    if i < 0 || i >= numbers.len() || numbers[i] == 0 {
        acc
    } else {
        let start = if i == 0 {
            acc
        } else {
            acc.push('.')
        };
        joined(start + atom_text(atoms, numbers[i]), atoms, numbers, i + 1)
    }
}

/// The text of a scope.
pub open spec fn text_of(atoms: Seq<Seq<char>>, s: Scope) -> Seq<char> {
    joined(Seq::empty(), atoms, numbers(s), 0)
}

/// Gives numbers to the atoms of scopes, and texts to scopes.
#[derive(Debug)]
pub struct ScopeRepository {
    atoms: Vec<String>,
}

impl View for ScopeRepository {
    type V = Seq<Seq<char>>;

    closed spec fn view(&self) -> Seq<Seq<char>> {
        views::of(self.atoms@)
    }
}

/// What holds of the atoms of a repository: they are distinct, none has a dot,
/// and the first ones are those whose numbers are fixed.
pub open spec fn well_formed(atoms: Seq<Seq<char>>) -> bool {
    &&& 4 <= atoms.len() <= 0xffff
    &&& atoms[scope::META_ATOM - 1] == "meta"@
    &&& atoms[scope::FUNCTION_ATOM - 1] == "function"@
    &&& atoms[scope::RETURN_TYPE_ATOM - 1] == "return-type"@
    &&& atoms[scope::JAVA_ATOM - 1] == "java"@
    &&& forall|i: int, j: int|
        0 <= i < j < atoms.len() ==> #[trigger] atoms[i] != #[trigger] atoms[j]
    &&& dotless(atoms)
}

proof fn lemma_place(atoms: Seq<Seq<char>>, atom: Seq<char>, i: int)
    requires
        0 <= i <= atoms.len(),
    ensures
        i <= place_of(atoms, atom, i) <= atoms.len(),
        place_of(atoms, atom, i) < atoms.len() ==> atoms[place_of(atoms, atom, i)] == atom,
        forall|k: int| i <= k < place_of(atoms, atom, i) ==> #[trigger] atoms[k] != atom,
    decreases atoms.len() - i,
{
    if i < atoms.len() && atoms[i] != atom {
        lemma_place(atoms, atom, i + 1);
    }
}

/// Whether none of the texts has a dot.
pub open spec fn dotless(parts: Seq<Seq<char>>) -> bool {
    forall|k: int| 0 <= k < parts.len() ==> !(#[trigger] parts[k]).contains('.')
}

proof fn lemma_split(text: Seq<char>, i: int, part: Seq<char>, acc: Seq<Seq<char>>)
    requires
        !part.contains('.'),
        dotless(acc),
    ensures
        dotless(split_onto(text, i, part, acc)),
    decreases text.len() - i,
{
    let more = acc.push(part);
    assert(dotless(more)) by {
        assert forall|k: int| 0 <= k < more.len() implies !(#[trigger] more[k]).contains('.') by {
            if k < acc.len() {
                assert(more[k] == acc[k]);
            }
        }
    }
    if 0 <= i < text.len() {
        if text[i] == '.' {
            lemma_split(text, i + 1, Seq::empty(), more);
        } else {
            let longer = part.push(text[i]);
            assert(!longer.contains('.')) by {
                assert forall|k: int| 0 <= k < longer.len() implies longer[k] != '.' by {
                    if k < part.len() {
                        assert(longer[k] == part[k]);
                        assert(part.contains(part[k]));
                    }
                }
            }
            lemma_split(text, i + 1, longer, acc);
        }
    }
}

proof fn lemma_registered(atoms: Seq<Seq<char>>, parts: Seq<Seq<char>>, i: int)
    requires
        0 <= i <= parts.len(),
        forall|a: int, b: int|
            0 <= a < b < atoms.len() ==> #[trigger] atoms[a] != #[trigger] atoms[b],
        dotless(atoms),
        dotless(parts),
    ensures
        ({
            let r = registered(atoms, parts, i);
            &&& atoms.len() <= r.len() <= atoms.len() + parts.len() - i
            &&& forall|k: int| 0 <= k < atoms.len() ==> #[trigger] r[k] == atoms[k]
            &&& forall|a: int, b: int| 0 <= a < b < r.len() ==> #[trigger] r[a] != #[trigger] r[b]
            &&& dotless(r)
            &&& forall|k: int|
                i <= k < parts.len() ==> place_of(r, #[trigger] parts[k], 0) < r.len()
        }),
    decreases parts.len() - i,
{
    if i < parts.len() {
        lemma_place(atoms, parts[i], 0);
        let next = if place_of(atoms, parts[i], 0) < atoms.len() {
            atoms
        } else {
            atoms.push(parts[i])
        };
        lemma_registered(next, parts, i + 1);
        let r = registered(atoms, parts, i);
        let p = if place_of(atoms, parts[i], 0) < atoms.len() {
            place_of(atoms, parts[i], 0)
        } else {
            atoms.len() as int
        };
        assert(next[p] == parts[i]);
        assert(r[p] == parts[i]);
        lemma_place(r, parts[i], 0);
        assert forall|k: int| 0 <= k < atoms.len() implies #[trigger] r[k] == atoms[k] by {
            assert(r[k] == next[k]);
        }
    }
}

/// The characters of a text.
fn characters(text: &str) -> (r: Vec<char>)
    ensures
        r@ == text@,
{
    let mut r: Vec<char> = Vec::new();
    for c in it: text.chars()
        invariant
            it.seq() == text@,
            r@ == text@.subrange(0, it.index() as int),
    {
        r.push(c);
        assert(r@ =~= text@.subrange(0, it.index() + 1));
    }
    assert(text@.subrange(0, text@.len() as int) =~= text@);
    r
}

/// See [`atoms_in`].
fn split_atoms(text: &str) -> (r: Vec<String>)
    ensures
        views::of(r@) == atoms_in(text@),
{
    let mut chars = characters(text);
    let mut parts: Vec<String> = Vec::new();
    if chars.len() == 0 {
        return parts;
    }
    while chars.len() > 0 && chars[chars.len() - 1] == '.'
        invariant
            trimmed(chars@) == trimmed(text@),
        decreases chars@.len(),
    {
        let ghost before = chars@;
        chars.pop();
        assert(chars@ =~= before.drop_last());
    }
    let mut part = String::new();
    let mut i: usize = 0;
    while i < chars.len()
        invariant
            i <= chars@.len(),
            split_onto(chars@, i as int, part@, views::of(parts@)) == split_onto(
                chars@,
                0,
                Seq::empty(),
                Seq::empty(),
            ),
        decreases chars@.len() - i,
    {
        if chars[i] == '.' {
            parts.push(part);
            part = String::new();
            assert(part@ =~= Seq::<char>::empty());
        } else {
            part.push(chars[i]);
        }
        i += 1;
    }
    parts.push(part);
    parts
}

/// The place of an atom; the number of atoms if it is unknown. New atoms are
/// looked up most, so the search starts at the end.
fn find(atoms: &Vec<String>, atom: &String) -> (r: usize)
    requires
        well_formed(views::of(atoms@)),
    ensures
        r == place_of(views::of(atoms@), atom@, 0),
        r <= atoms@.len(),
{
    let ghost known = views::of(atoms@);
    let ghost place = place_of(known, atom@, 0);
    proof {
        lemma_place(known, atom@, 0);
    }
    let mut i: usize = atoms.len();
    while i > 0
        invariant
            i <= atoms@.len(),
            known == views::of(atoms@),
            well_formed(known),
            place == place_of(known, atom@, 0),
            0 <= place < i || place == known.len(),
            place < known.len() ==> known[place] == atom@,
            forall|k: int| 0 <= k < place ==> #[trigger] known[k] != atom@,
        decreases i,
    {
        i -= 1;
        assert(known[i as int] == atoms@[i as int]@);
        if atoms[i] == *atom {
            return i;
        }
    }
    atoms.len()
}

impl ScopeRepository {
    #[verifier::type_invariant]
    spec fn inv(self) -> bool {
        well_formed(self@)
    }

    /// A repository of the atoms whose numbers are fixed.
    pub fn new() -> (r: ScopeRepository)
        ensures
            r@ == seq!["meta"@, "function"@, "return-type"@, "java"@],
            well_formed(r@),
    {
        let mut atoms: Vec<String> = Vec::new();
        atoms.push("meta".to_owned());
        atoms.push("function".to_owned());
        atoms.push("return-type".to_owned());
        atoms.push("java".to_owned());
        proof {
            reveal_strlit("meta");
            reveal_strlit("function");
            reveal_strlit("return-type");
            reveal_strlit("java");
            let v = views::of(atoms@);
            assert(v =~= seq!["meta"@, "function"@, "return-type"@, "java"@]);
            assert(v[0].len() == 4 && v[1].len() == 8 && v[2].len() == 11 && v[3].len() == 4);
            assert(v[0][0] == 'm' && v[3][0] == 'j');
            assert forall|i: int| 0 <= i < v.len() implies !(#[trigger] v[i]).contains('.') by {
                assert(i == 0 || i == 1 || i == 2 || i == 3);
            }
            assert(well_formed(v));
        }
        ScopeRepository { atoms }
    }

    /// Makes the atoms known.
    fn register(&mut self, parts: &Vec<String>)
        requires
            old(self)@.len() + parts@.len() <= 0xffff,
            dotless(views::of(parts@)),
        ensures
            final(self)@ == registered(old(self)@, views::of(parts@), 0),
    {
        let mut taken = ScopeRepository::new();
        std::mem::swap(&mut taken, self);
        proof {
            use_type_invariant(&taken);
        }
        let mut atoms = taken.atoms;
        let mut i: usize = 0;
        while i < parts.len()
            invariant
                i <= parts@.len(),
                well_formed(views::of(atoms@)),
                atoms@.len() + parts@.len() - i <= 0xffff,
                dotless(views::of(parts@)),
                registered(views::of(atoms@), views::of(parts@), i as int) == registered(
                    old(self)@,
                    views::of(parts@),
                    0,
                ),
            decreases parts@.len() - i,
        {
            assert(views::of(parts@)[i as int] == parts@[i as int]@);
            let place: usize = find(&atoms, &parts[i]);
            if place >= atoms.len() {
                let ghost before = views::of(atoms@);
                proof {
                    lemma_place(before, parts@[i as int]@, 0);
                }
                atoms.push(parts[i].clone());
                proof {
                    let v = views::of(atoms@);
                    assert(v =~= before.push(parts@[i as int]@));
                    assert(well_formed(v));
                }
            }
            i += 1;
        }
        *self = ScopeRepository { atoms };
    }

    /// The scope with the given text. Unknown atoms become known. It fails exactly
    /// for a text of more than eight atoms, and where there are no numbers left
    /// for so many atoms.
    pub fn build(&mut self, text: &str) -> (r: Result<Scope, ScopeTextError>)
        ensures
            ({
                let parts = atoms_in(text@);
                match r {
                    Err(ScopeTextError::TooManyAtoms) => parts.len() > MAX_ATOMS && final(self)@
                        == old(self)@,
                    Err(ScopeTextError::RepositoryFull) => parts.len() <= MAX_ATOMS && old(
                        self,
                    )@.len() + parts.len() > 0xffff && final(self)@ == old(self)@,
                    Ok(s) => {
                        &&& parts.len() <= MAX_ATOMS
                        &&& old(self)@.len() + parts.len() <= 0xffff
                        &&& final(self)@ == registered(old(self)@, parts, 0)
                        &&& s == scope_of(final(self)@, parts)
                    },
                }
            }),
    {
        let parts = split_atoms(text);
        if parts.len() > MAX_ATOMS {
            return Err(ScopeTextError::TooManyAtoms);
        }
        proof {
            use_type_invariant(&*self);
            lemma_split(trimmed(text@), 0, Seq::empty(), Seq::empty());
        }
        if self.atoms.len() + parts.len() > 0xffff {
            return Err(ScopeTextError::RepositoryFull);
        }
        proof {
            lemma_registered(self@, views::of(parts@), 0);
        }
        self.register(&parts);
        Ok(
            Scope {
                a0: self.number(&parts, 0),
                a1: self.number(&parts, 1),
                a2: self.number(&parts, 2),
                a3: self.number(&parts, 3),
                a4: self.number(&parts, 4),
                a5: self.number(&parts, 5),
                a6: self.number(&parts, 6),
                a7: self.number(&parts, 7),
            },
        )
    }

    /// See [`number_of`].
    fn number(&self, parts: &Vec<String>, i: usize) -> (r: u16)
        requires
            i < parts@.len() ==> place_of(self@, views::of(parts@)[i as int], 0) < self@.len(),
        ensures
            r == number_of(self@, views::of(parts@), i as int),
    {
        proof {
            use_type_invariant(self);
        }
        if i < parts.len() {
            assert(views::of(parts@)[i as int] == parts@[i as int]@);
            let place: usize = find(&self.atoms, &parts[i]);
            (place + 1) as u16
        } else {
            0
        }
    }

    /// The text of a scope.
    pub fn text(&self, s: Scope) -> (r: String)
        ensures
            r@ == text_of(self@, s),
    {
        let all: [u16; 8] = [s.a0, s.a1, s.a2, s.a3, s.a4, s.a5, s.a6, s.a7];
        assert(all@ =~= numbers(s));
        let mut r = String::new();
        assert(r@ =~= Seq::<char>::empty());
        let mut i: usize = 0;
        while i < 8 && all[i] != 0
            invariant
                i <= 8,
                all@ == numbers(s),
                joined(r@, self@, numbers(s), i as int) == text_of(self@, s),
            decreases 8 - i,
        {
            if i > 0 {
                r.push('.');
            }
            let place: usize = all[i] as usize - 1;
            let ghost start = r@;
            if place < self.atoms.len() {
                r.append(self.atoms[place].as_str());
                assert(self@[place as int] == self.atoms@[place as int]@);
            }
            assert(r@ =~= start + atom_text(self@, all@[i as int]));
            i += 1;
        }
        r
    }
}

/// The parts with dots between them.
pub open spec fn unsplit(parts: Seq<Seq<char>>) -> Seq<char>
    decreases parts.len(),
{
    if parts.len() == 0 {
        Seq::empty()
    } else if parts.len() == 1 {
        parts[0]
    } else {
        unsplit(parts.drop_last()).push('.') + parts.last()
    }
}

proof fn lemma_unsplit(text: Seq<char>, i: int, part: Seq<char>, acc: Seq<Seq<char>>)
    requires
        0 <= i <= text.len(),
    ensures
        unsplit(split_onto(text, i, part, acc)) == unsplit(acc.push(part)) + text.subrange(
            i,
            text.len() as int,
        ),
        split_onto(text, i, part, acc).len() > 0,
    decreases text.len() - i,
{
    let rest = text.subrange(i, text.len() as int);
    let more = acc.push(part);
    assert(more.drop_last() =~= acc);
    if i < text.len() {
        let after = text.subrange(i + 1, text.len() as int);
        assert(rest =~= seq![text[i]] + after);
        if text[i] == '.' {
            lemma_unsplit(text, i + 1, Seq::empty(), more);
            let again = more.push(Seq::empty());
            assert(again.drop_last() =~= more);
            assert(unsplit(again) =~= unsplit(more).push('.'));
            assert(unsplit(again) + after =~= unsplit(more) + rest);
        } else {
            let longer = part.push(text[i]);
            let again = acc.push(longer);
            assert(again.drop_last() =~= acc);
            lemma_unsplit(text, i + 1, longer, acc);
            assert(unsplit(again) =~= unsplit(more).push(text[i]));
            assert(unsplit(again) + after =~= unsplit(more) + rest);
        }
    } else {
        assert(unsplit(more) + rest =~= unsplit(more));
    }
}

proof fn lemma_joined(atoms: Seq<Seq<char>>, parts: Seq<Seq<char>>, i: int)
    requires
        0 <= i <= parts.len() <= MAX_ATOMS,
        atoms.len() <= 0xffff,
        forall|k: int| 0 <= k < parts.len() ==> place_of(atoms, #[trigger] parts[k], 0) < atoms.len(),
    ensures
        joined(
            unsplit(parts.subrange(0, i)),
            atoms,
            numbers(scope_of(atoms, parts)),
            i,
        ) == unsplit(parts),
    decreases parts.len() - i,
{
    let all = numbers(scope_of(atoms, parts));
    assert forall|k: int| 0 <= k < 8 implies #[trigger] all[k] == number_of(atoms, parts, k) by {
        assert(k == 0 || k == 1 || k == 2 || k == 3 || k == 4 || k == 5 || k == 6 || k == 7);
    }
    let head = parts.subrange(0, i);
    if i < parts.len() {
        lemma_place(atoms, parts[i], 0);
        let next = parts.subrange(0, i + 1);
        assert(next.drop_last() =~= head);
        assert(next.last() == parts[i]);
        assert(all[i] == number_of(atoms, parts, i));
        assert(atom_text(atoms, all[i]) == parts[i]);
        if i == 0 {
            assert(unsplit(head) + parts[i] =~= unsplit(next));
        } else {
            assert(unsplit(next) == unsplit(head).push('.') + parts[i]);
        }
        lemma_joined(atoms, parts, i + 1);
    } else {
        assert(head =~= parts);
        if i < 8 {
            assert(all[i] == number_of(atoms, parts, i));
        }
    }
}

/// The text of a scope is the text that it was built from, without the dots at
/// its end.
pub proof fn law_text_of_built_scope(atoms: Seq<Seq<char>>, text: Seq<char>)
    requires
        well_formed(atoms),
        atoms_in(text).len() <= MAX_ATOMS,
        atoms.len() + atoms_in(text).len() <= 0xffff,
    ensures
        ({
            let known = registered(atoms, atoms_in(text), 0);
            &&& well_formed(known)
            &&& text_of(known, scope_of(known, atoms_in(text))) == trimmed(text)
        }),
{
    let parts = atoms_in(text);
    let clean = trimmed(text);
    lemma_split(clean, 0, Seq::empty(), Seq::empty());
    lemma_registered(atoms, parts, 0);
    let known = registered(atoms, parts, 0);
    lemma_joined(known, parts, 0);
    assert(parts.subrange(0, 0) =~= Seq::empty());
    if text.len() > 0 {
        lemma_unsplit(clean, 0, Seq::empty(), Seq::empty());
        let one = Seq::<Seq<char>>::empty().push(Seq::empty());
        assert(unsplit(one) + clean.subrange(0, clean.len() as int) =~= clean);
    }
}

proof fn lemma_joined_extends(acc: Seq<char>, atoms: Seq<Seq<char>>, numbers: Seq<u16>, i: int)
    ensures
        acc.is_prefix_of(joined(acc, atoms, numbers, i)),
    decreases numbers.len() - i,
{
    if !(i < 0 || i >= numbers.len() || numbers[i] == 0) {
        let start = if i == 0 {
            acc
        } else {
            acc.push('.')
        };
        let next = start + atom_text(atoms, numbers[i]);
        lemma_joined_extends(next, atoms, numbers, i + 1);
        let end = joined(next, atoms, numbers, i + 1);
        assert(end.subrange(0, acc.len() as int) =~= acc) by {
            assert(end.subrange(0, next.len() as int) == next);
            assert forall|k: int| 0 <= k < acc.len() implies end[k] == acc[k] by {
                assert(end.subrange(0, next.len() as int)[k] == next[k]);
            }
        }
    } else {
        assert(acc.subrange(0, acc.len() as int) =~= acc);
    }
}

/// A scope counts as a meta scope exactly if its text starts with `meta.`.
pub proof fn law_meta_scopes(atoms: Seq<Seq<char>>, s: Scope)
    requires
        well_formed(atoms),
        s.a0 <= atoms.len(),
    ensures
        scope::is_meta(s) <==> "meta."@.is_prefix_of(text_of(atoms, s)),
{
    reveal_strlit("meta");
    reveal_strlit("meta.");
    reveal_with_fuel(joined, 3);
    let all = numbers(s);
    let prefix = "meta."@;
    let text = text_of(atoms, s);
    assert(all[0] == s.a0 && all[1] == s.a1);
    if s.a0 != 0 {
        let first = Seq::<char>::empty() + atom_text(atoms, s.a0);
        assert(first =~= atoms[s.a0 - 1]);
        if s.a1 != 0 {
            let second = first.push('.') + atom_text(atoms, s.a1);
            lemma_joined_extends(second, atoms, all, 2);
            assert(text == joined(second, atoms, all, 2));
            assert(text.subrange(0, second.len() as int) == second);
            assert forall|k: int| 0 <= k < second.len() implies #[trigger] text[k] == second[k] by {
                assert(text.subrange(0, second.len() as int)[k] == second[k]);
            }
            if s.a0 == scope::META_ATOM {
                assert(first == "meta"@);
                assert(text.subrange(0, 5) =~= prefix);
            }
            if prefix.is_prefix_of(text) {
                assert forall|k: int| 0 <= k < 5 implies #[trigger] text[k] == prefix[k] by {
                    assert(text.subrange(0, 5)[k] == prefix[k]);
                }
                if first.len() < 4 {
                    assert(text[first.len() as int] == second[first.len() as int]);
                    assert(second[first.len() as int] == '.');
                    assert(prefix[first.len() as int] != '.');
                } else if first.len() > 4 {
                    assert(second[4] == first[4]);
                    assert(text[4] == second[4]);
                    assert(prefix[4] == '.');
                    assert(first.contains(first[4]));
                } else {
                    assert forall|k: int| 0 <= k < 4 implies first[k] == "meta"@[k] by {
                        assert(second[k] == first[k]);
                        assert(text[k] == second[k]);
                        assert(prefix[k] == "meta"@[k]);
                    }
                    assert(first =~= "meta"@);
                    assert(atoms[0] == atoms[s.a0 - 1]);
                }
            }
        } else {
            assert(text == first);
            if prefix.is_prefix_of(text) {
                assert(text.subrange(0, 5)[4] == '.');
                assert(first.contains(first[4]));
            }
        }
    } else {
        assert(text.len() == 0);
    }
}

/// The scope that the jump to the field alternative looks for has the text
/// `meta.function.return-type.java`.
pub proof fn law_return_type_text(atoms: Seq<Seq<char>>)
    requires
        well_formed(atoms),
    ensures
        text_of(atoms, crate::engine::return_type_scope()) == "meta.function.return-type.java"@,
{
    reveal_strlit("meta");
    reveal_strlit("function");
    reveal_strlit("return-type");
    reveal_strlit("java");
    reveal_strlit("meta.function.return-type.java");
    reveal_with_fuel(joined, 6);
    let all = numbers(crate::engine::return_type_scope());
    assert(all[0] == 1 && all[1] == 2 && all[2] == 3 && all[3] == 4 && all[4] == 0);
    assert(text_of(atoms, crate::engine::return_type_scope())
        =~= "meta.function.return-type.java"@);
}

/// A scope of `n` atoms is a prefix of the scopes that start with the same atoms.
pub proof fn law_prefix_has_the_same_atoms(p: Scope, s: Scope, n: int)
    requires
        0 <= n <= 8,
        forall|i: int| 0 <= i < n ==> #[trigger] numbers(p)[i] != 0,
        forall|i: int| n <= i < 8 ==> #[trigger] numbers(p)[i] == 0,
    ensures
        scope::prefix_of(p, s) <==> forall|i: int|
            0 <= i < n ==> #[trigger] numbers(p)[i] == numbers(s)[i],
{
    let a = numbers(p);
    let b = numbers(s);
    assert(a[0] == p.a0 && a[1] == p.a1 && a[2] == p.a2 && a[3] == p.a3);
    assert(a[4] == p.a4 && a[5] == p.a5 && a[6] == p.a6 && a[7] == p.a7);
    assert(b[0] == s.a0 && b[1] == s.a1 && b[2] == s.a2 && b[3] == s.a3);
    assert(b[4] == s.a4 && b[5] == s.a5 && b[6] == s.a6 && b[7] == s.a7);
}

/// The dots at the end of a text go, all of them and nothing else.
pub proof fn law_dots_at_the_end_go(text: Seq<char>)
    ensures
        trimmed(text).is_prefix_of(text),
        trimmed(text).len() > 0 ==> trimmed(text).last() != '.',
        forall|k: int| trimmed(text).len() <= k < text.len() ==> #[trigger] text[k] == '.',
    decreases text.len(),
{
    if text.len() > 0 && text.last() == '.' {
        let front = text.drop_last();
        law_dots_at_the_end_go(front);
        assert(trimmed(text).is_prefix_of(text)) by {
            assert(front.subrange(0, trimmed(text).len() as int) =~= text.subrange(
                0,
                trimmed(text).len() as int,
            ));
        }
        assert forall|k: int| trimmed(text).len() <= k < text.len() implies #[trigger] text[k]
            == '.' by {
            if k < front.len() {
                assert(front[k] == text[k]);
            }
        }
    } else {
        assert(text.subrange(0, text.len() as int) =~= text);
    }
}

/// The atoms of a text are what stands between its dots: none has a dot, and with dots
/// between them they make up the text, up to the dots at its end.
pub proof fn law_atoms_are_between_dots(text: Seq<char>)
    ensures
        dotless(atoms_in(text)),
        atoms_in(text).len() == 0 <==> text.len() == 0,
        unsplit(atoms_in(text)) == trimmed(text),
{
    let clean = trimmed(text);
    lemma_split(clean, 0, Seq::empty(), Seq::empty());
    if text.len() > 0 {
        lemma_unsplit(clean, 0, Seq::empty(), Seq::empty());
        let one = Seq::<Seq<char>>::empty().push(Seq::empty());
        assert(unsplit(one) + clean.subrange(0, clean.len() as int) =~= clean);
    }
}

/// A scope keeps its atoms when others become known: the text that it was built from
/// gives the same scope again, and known atoms keep their numbers.
pub proof fn law_built_scopes_stay(
    atoms: Seq<Seq<char>>,
    parts: Seq<Seq<char>>,
    more: Seq<Seq<char>>,
)
    requires
        well_formed(atoms),
        dotless(parts),
        dotless(more),
    ensures
        ({
            let known = registered(atoms, parts, 0);
            let later = registered(known, more, 0);
            &&& atoms.is_prefix_of(known)
            &&& known.is_prefix_of(later)
            &&& scope_of(later, parts) == scope_of(known, parts)
            &&& registered(later, parts, 0) == later
        }),
{
    let known = registered(atoms, parts, 0);
    let later = registered(known, more, 0);
    lemma_registered(atoms, parts, 0);
    lemma_registered(known, more, 0);
    assert(known.subrange(0, atoms.len() as int) =~= atoms);
    assert(later.subrange(0, known.len() as int) =~= known);
    assert forall|k: int| 0 <= k < parts.len() implies place_of(later, #[trigger] parts[k], 0)
        == place_of(known, parts[k], 0) by {
        lemma_place(known, parts[k], 0);
        lemma_place(later, parts[k], 0);
        let p = place_of(known, parts[k], 0);
        let q = place_of(later, parts[k], 0);
        assert(later[p] == known[p]);
        if q < p {
            assert(later[q] == known[q]);
        }
    }
    lemma_all_known(later, parts, 0);
}

proof fn lemma_all_known(atoms: Seq<Seq<char>>, parts: Seq<Seq<char>>, i: int)
    requires
        0 <= i <= parts.len(),
        forall|k: int|
            0 <= k < parts.len() ==> place_of(atoms, #[trigger] parts[k], 0) < atoms.len(),
    ensures
        registered(atoms, parts, i) == atoms,
    decreases parts.len() - i,
{
    if i < parts.len() {
        assert(place_of(atoms, parts[i], 0) < atoms.len());
        lemma_all_known(atoms, parts, i + 1);
    }
}

} // verus!
