//! The semantic atom registry: atoms are identified by a stable id that is
//! never their spelling, and can be found by id, by SLP1 spelling or by a
//! legacy alias.
use vstd::prelude::*;
use crate::text::str_eq;

verus! {

#[derive(Debug, Clone, Copy, PartialEq, Eq)]
pub enum AtomCategory {
    Dhatu,
    Karaka,
}

#[derive(Debug, Clone, Copy, PartialEq, Eq)]
pub enum AtomStatus {
    /// Registered for pipeline validation, its semantics not yet vetted.
    Experimental,
    Stable,
    Deprecated,
}

/// One semantic atom.
#[derive(Debug, Clone, Copy)]
pub struct Atom {
    /// Stable identity, independent of spelling; never equal to `slp1`.
    pub id: &'static str,
    /// Canonical ASCII storage spelling.
    pub slp1: &'static str,
    /// Presentation-only romanization.
    pub iast: &'static str,
    /// Presentation-only Devanagari spelling.
    pub devanagari: &'static str,
    pub category: AtomCategory,
    /// A one-word hint, never the formal semantics.
    pub gloss: &'static str,
    /// The formal operational semantics.
    pub semantics: &'static str,
    /// Legacy names the atom subsumes.
    pub aliases: &'static [&'static str],
    pub status: AtomStatus,
}

pub struct AtomSpec {
    pub id: Seq<char>,
    pub slp1: Seq<char>,
    pub iast: Seq<char>,
    pub devanagari: Seq<char>,
    pub category: AtomCategory,
    pub gloss: Seq<char>,
    pub semantics: Seq<char>,
    pub aliases: Seq<Seq<char>>,
    pub status: AtomStatus,
}

impl Atom {
    pub open spec fn view(&self) -> AtomSpec {
        AtomSpec {
            id: self.id@,
            slp1: self.slp1@,
            iast: self.iast@,
            devanagari: self.devanagari@,
            category: self.category,
            gloss: self.gloss@,
            semantics: self.semantics@,
            aliases: Seq::new(self.aliases@.len(), |i: int| self.aliases@[i]@),
            status: self.status,
        }
    }
}

/// The registry's atoms, in order.
pub open spec fn registry_spec() -> Seq<AtomSpec> {
    seq![
        AtomSpec {
            id: "DHATU_DA"@,
            slp1: "dA"@,
            iast: "dā"@,
            devanagari: "दा"@,
            category: AtomCategory::Dhatu,
            gloss: "give"@,
            semantics: "transfer an entity from an agent (kartṛ) toward a recipient (sampradāna); required role karman, optional kartṛ/sampradāna — see spec §18 for the full field shape once SANSKRIT-P3 vets this beyond the worked example"@,
            aliases: seq!["give"@, "transfer"@, "send"@],
            status: AtomStatus::Experimental,
        },
    ]
}

/// The registry.
pub fn registry() -> (r: Vec<Atom>)
    ensures
        Seq::new(r@.len(), |i: int| r@[i]@) == registry_spec(),
{
    let aliases: &'static [&'static str] = &["give", "transfer", "send"];
    let r = vec![
        Atom {
            id: "DHATU_DA",
            slp1: "dA",
            iast: "dā",
            devanagari: "दा",
            category: AtomCategory::Dhatu,
            gloss: "give",
            semantics: "transfer an entity from an agent (kartṛ) toward a recipient (sampradāna); required role karman, optional kartṛ/sampradāna — see spec §18 for the full field shape once SANSKRIT-P3 vets this beyond the worked example",
            aliases,
            status: AtomStatus::Experimental,
        },
    ];
    proof {
        assert(Seq::new(aliases@.len(), |i: int| aliases@[i]@) =~= seq!["give"@, "transfer"@, "send"@]);
        assert(Seq::new(r@.len(), |i: int| r@[i]@) =~= registry_spec());
    }
    r
}

/// The first atom whose field (as `key` picks it) satisfies `matches`.
pub open spec fn first_where(atoms: Seq<AtomSpec>, p: spec_fn(AtomSpec) -> bool) -> Option<AtomSpec>
    decreases atoms.len(),
{
    if atoms.len() == 0 {
        None
    } else if p(atoms[0]) {
        Some(atoms[0])
    } else {
        first_where(atoms.drop_first(), p)
    }
}

pub open spec fn has_id(id: Seq<char>) -> spec_fn(AtomSpec) -> bool {
    |a: AtomSpec| a.id == id
}

pub open spec fn has_slp1(s: Seq<char>) -> spec_fn(AtomSpec) -> bool {
    |a: AtomSpec| a.slp1 == s
}

pub open spec fn has_alias(s: Seq<char>) -> spec_fn(AtomSpec) -> bool {
    |a: AtomSpec| a.aliases.contains(s)
}

fn aliases_contain(aliases: &'static [&'static str], alias: &str) -> (r: bool)
    ensures
        r == Seq::new(aliases@.len(), |i: int| aliases@[i]@).contains(alias@),
{
    let ghost v = Seq::new(aliases@.len(), |i: int| aliases@[i]@);
    let mut i: usize = 0;
    while i < aliases.len()
        invariant
            i <= aliases@.len(),
            v == Seq::new(aliases@.len(), |i: int| aliases@[i]@),
            forall|k: int| 0 <= k < i ==> v[k] != alias@,
        decreases aliases.len() - i,
    {
        if str_eq(aliases[i], alias) {
            proof {
                assert(v[i as int] == alias@);
            }
            return true;
        }
        i += 1;
    }
    false
}

/// Which field of an atom a lookup compares.
enum Key {
    Id,
    Slp1,
    Alias,
}

spec fn key_pred(k: Key, v: Seq<char>) -> spec_fn(AtomSpec) -> bool {
    match k {
        Key::Id => has_id(v),
        Key::Slp1 => has_slp1(v),
        Key::Alias => has_alias(v),
    }
}

fn find_atom(k: Key, v: &str) -> (r: Option<Atom>)
    ensures
        match r {
            Some(a) => first_where(registry_spec(), key_pred(k, v@)) == Some(a@),
            None => first_where(registry_spec(), key_pred(k, v@)) is None,
        },
{
    let atoms = registry();
    let ghost reg = registry_spec();
    let mut i: usize = 0;
    proof {
        assert(reg.skip(0) =~= reg);
    }
    while i < atoms.len()
        invariant
            i <= atoms@.len(),
            reg == registry_spec(),
            Seq::new(atoms@.len(), |j: int| atoms@[j]@) == reg,
            first_where(reg.skip(i as int), key_pred(k, v@)) == first_where(reg, key_pred(k, v@)),
        decreases atoms.len() - i,
    {
        let a = atoms[i];
        let hit = match k {
            Key::Id => str_eq(a.id, v),
            Key::Slp1 => str_eq(a.slp1, v),
            Key::Alias => aliases_contain(a.aliases, v),
        };
        proof {
            assert(reg.skip(i as int)[0] == a@);
            assert(reg.skip(i as int).drop_first() =~= reg.skip(i + 1));
        }
        if hit {
            return Some(a);
        }
        i += 1;
    }
    None
}

/// The atom with identity `id`.
pub fn by_id(id: &str) -> (r: Option<Atom>)
    ensures
        match r {
            Some(a) => first_where(registry_spec(), has_id(id@)) == Some(a@),
            None => first_where(registry_spec(), has_id(id@)) is None,
        },
{
    find_atom(Key::Id, id)
}

/// The atom spelled `slp1`.
pub fn by_slp1(slp1: &str) -> (r: Option<Atom>)
    ensures
        match r {
            Some(a) => first_where(registry_spec(), has_slp1(slp1@)) == Some(a@),
            None => first_where(registry_spec(), has_slp1(slp1@)) is None,
        },
{
    find_atom(Key::Slp1, slp1)
}

/// The atom with legacy alias `alias`.
pub fn by_alias(alias: &str) -> (r: Option<Atom>)
    ensures
        match r {
            Some(a) => first_where(registry_spec(), has_alias(alias@)) == Some(a@),
            None => first_where(registry_spec(), has_alias(alias@)) is None,
        },
{
    find_atom(Key::Alias, alias)
}

} // verus!
