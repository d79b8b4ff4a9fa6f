//! The symbol model: named entities, overload sets, member regions and the
//! symbol table (arena) that owns every declaration of the analyzed design.
//!
//! Entities are built once by the declaration pass and are read-only during
//! name resolution; the resolver refers to them by their index in the table.
//! The one late-bound piece of state is the forward link of an incomplete
//! type, which is written exactly once, when the full type declaration is
//! seen, and never reverts.

use vstd::prelude::*;
use crate::diagnostics::{Diagnostic, DiagnosticCode};

verus! {

broadcast use {vstd::std_specs::vec::group_vec_axioms, vstd::seq::group_seq_axioms};

/// The textual key a declaration is looked up by (an interned identifier or
/// operator symbol).
pub type Designator = u64;

/// A source position (an interned source-range token).
pub type Pos = u64;

/// A syntax item together with its source position.
pub struct WithPos<T> {
    pub item: T,
    pub pos: Pos,
}

/// A designator bound to more than one subprogram declaration at once.  The
/// members of the set are shared between every lookup that returns it, so the
/// set itself lives in the symbol table and is referred to by its index.
#[derive(Clone, Copy, PartialEq, Eq, Structural, Debug)]
pub struct OverloadedName {
    pub designator: Designator,
    pub set: usize,
}

/// The result of a successful lookup: one entity, or an overload set.
#[derive(Clone, Copy, PartialEq, Eq, Structural, Debug)]
pub enum NamedEntities {
    Single(usize),
    Overloaded(OverloadedName),
}

impl NamedEntities {
    /// A single entity is accepted; an overload set is handed back whole, as
    /// the error, so the caller can report every candidate.
    pub fn into_non_overloaded(self) -> (r: Result<usize, OverloadedName>)
        ensures
            match self {
                NamedEntities::Single(e) => r == Ok::<usize, OverloadedName>(e),
                NamedEntities::Overloaded(o) => r == Err::<usize, OverloadedName>(o),
            },
    {
        match self {
            NamedEntities::Single(e) => Ok(e),
            NamedEntities::Overloaded(o) => Err(o),
        }
    }
}

/// A designator in the syntax tree together with its reference slot: the
/// binding output of the resolver, consumed by downstream tooling.
#[derive(Clone, Copy, PartialEq, Eq, Structural, Debug)]
pub struct WithRef {
    pub designator: Designator,
    pub reference: Option<NamedEntities>,
}

impl WithRef {
    /// The same designator with an empty slot.
    pub open spec fn cleared(self) -> WithRef {
        WithRef { designator: self.designator, reference: None }
    }

    /// The same designator with the slot committed to `value`.
    pub open spec fn with_reference(self, value: NamedEntities) -> WithRef {
        WithRef { designator: self.designator, reference: Some(value) }
    }

    /// Reset the slot, so that a failed resolution never leaves a stale
    /// binding from an earlier pass.
    pub fn clear_reference(&mut self)
        ensures
            *final(self) == old(self).cleared(),
    {
        self.reference = None;
    }

    /// Commit the resolution outcome to the slot.
    pub fn set_reference(&mut self, value: &NamedEntities)
        ensures
            *final(self) == old(self).with_reference(*value),
    {
        self.reference = Some(value.clone());
    }
}

/// A lexical or member scope: designators mapped to their visible entities.
/// Earlier entries shadow later ones; the declaration pass keeps designators
/// distinct, so the order is immaterial for well-formed input.
pub struct Region {
    pub entries: Vec<(Designator, NamedEntities)>,
}

impl Region {
    /// First entry for `des`, if any.
    pub open spec fn lookup_spec(self, des: Designator) -> Option<NamedEntities> {
        Region::entries_lookup(self.entries@, des)
    }

    pub open spec fn entries_lookup(s: Seq<(Designator, NamedEntities)>, des: Designator) -> Option<
        NamedEntities,
    >
        decreases s.len(),
    {
        if s.len() == 0 {
            None
        } else if s[0].0 == des {
            Some(s[0].1)
        } else {
            Region::entries_lookup(s.subrange(1, s.len() as int), des)
        }
    }

    pub fn new() -> (r: Region)
        ensures
            r.entries@ =~= Seq::<(Designator, NamedEntities)>::empty(),
    {
        Region { entries: Vec::new() }
    }

    /// Used by the declaration pass (and tests) to populate a scope.
    pub fn add(&mut self, des: Designator, ents: NamedEntities)
        ensures
            final(self).entries@ == old(self).entries@.push((des, ents)),
    {
        self.entries.push((des, ents));
    }

    proof fn lemma_entries_lookup_at(s: Seq<(Designator, NamedEntities)>, des: Designator, i: int)
        requires
            0 <= i < s.len(),
            s[i].0 == des,
            forall|j: int| 0 <= j < i ==> s[j].0 != des,
        ensures
            Region::entries_lookup(s, des) == Some(s[i].1),
        decreases s.len(),
    {
        if i > 0 {
            Region::lemma_entries_lookup_at(s.subrange(1, s.len() as int), des, i - 1);
        }
    }

    proof fn lemma_entries_lookup_none(s: Seq<(Designator, NamedEntities)>, des: Designator)
        requires
            forall|j: int| 0 <= j < s.len() ==> s[j].0 != des,
        ensures
            Region::entries_lookup(s, des) is None,
        decreases s.len(),
    {
        if s.len() > 0 {
            Region::lemma_entries_lookup_none(s.subrange(1, s.len() as int), des);
        }
    }

    /// Lookup of a designator inside this entity's member scope, e.g. package
    /// contents or record fields.
    pub fn lookup_selected(&self, des: Designator) -> (r: Option<NamedEntities>)
        ensures
            r == self.lookup_spec(des),
    {
        let n = self.entries.len();
        let mut i: usize = 0;
        while i < n
            invariant
                n == self.entries@.len(),
                i <= n,
                forall|j: int| 0 <= j < i ==> self.entries@[j].0 != des,
            decreases n - i,
        {
            if self.entries[i].0 == des {
                let found = self.entries[i].1.clone();
                proof {
                    Region::lemma_entries_lookup_at(self.entries@, des, i as int);
                }
                return Some(found);
            }
            i = i + 1;
        }
        proof {
            Region::lemma_entries_lookup_none(self.entries@, des);
        }
        None
    }

    /// Plain identifier lookup in a lexical scope: one-or-overloaded entities,
    /// or a "not visible" finding anchored at the name's position.
    pub fn lookup_within(&self, pos: Pos, des: Designator) -> (r: Result<NamedEntities, Diagnostic>)
        ensures
            match self.lookup_spec(des) {
                Some(e) => r == Ok::<NamedEntities, Diagnostic>(e),
                None => r is Err && (r matches Err(d) ==> d@ == crate::diagnostics::DiagnosticV {
                    pos,
                    code: crate::diagnostics::DiagnosticCodeV::NotVisible { designator: des },
                    related: Seq::<Pos>::empty(),
                }),
            },
    {
        match self.lookup_selected(des) {
            Some(e) => Ok(e),
            None => Err(Diagnostic::error(pos, DiagnosticCode::NotVisible { designator: des })),
        }
    }
}

/// The kind tag of a named entity, with its variant payload.  Member scopes
/// are held inline; type indirections refer to other entities by index, and
/// an incomplete type refers to its forward link by link index.
pub enum NamedEntityKind {
    Library(Region),
    /// An uninstantiated generic package: illegal as a selected-name prefix.
    UninstPackage,
    Object { subtype: usize },
    ElementDeclaration { subtype: usize },
    Package(Region),
    PackageInstance(Region),
    LocalPackageInstance(Region),
    RecordType(Region),
    ProtectedType(Region),
    /// A forward-declared type; the payload indexes the table's link cells.
    IncompleteType(usize),
    Subtype(usize),
    AccessType(usize),
    /// An alias whose target is not tracked precisely enough to judge a
    /// prefix: lookup through it is deliberately permissive.
    OtherAlias,
    /// A subprogram or operator: participates in overloading.
    Subprogram,
    /// A type without a member scope (scalar, array, ...).
    OtherType,
    /// Any other declaration kind.
    Other,
}

impl NamedEntityKind {
    pub open spec fn is_type_spec(self) -> bool {
        match self {
            NamedEntityKind::RecordType(_) => true,
            NamedEntityKind::ProtectedType(_) => true,
            NamedEntityKind::IncompleteType(_) => true,
            NamedEntityKind::Subtype(_) => true,
            NamedEntityKind::AccessType(_) => true,
            NamedEntityKind::OtherType => true,
            _ => false,
        }
    }

    pub fn is_type(&self) -> (r: bool)
        ensures
            r == self.is_type_spec(),
    {
        match self {
            NamedEntityKind::RecordType(_) => true,
            NamedEntityKind::ProtectedType(_) => true,
            NamedEntityKind::IncompleteType(_) => true,
            NamedEntityKind::Subtype(_) => true,
            NamedEntityKind::AccessType(_) => true,
            NamedEntityKind::OtherType => true,
            _ => false,
        }
    }
}

/// One declaration: its designator, where it was declared (if known), and its
/// kind.
pub struct NamedEntity {
    pub designator: Designator,
    pub decl_pos: Option<Pos>,
    pub kind: NamedEntityKind,
}

/// The arena of all entities, the shared overload sets, and the write-once
/// forward links of the incomplete types.
pub struct SymbolTable {
    pub ents: Vec<NamedEntity>,
    pub osets: Vec<Vec<usize>>,
    pub links: Vec<Option<usize>>,
}

impl SymbolTable {
    pub open spec fn valid_ent(self, i: int) -> bool {
        0 <= i < self.ents@.len()
    }

    pub open spec fn kind_of(self, i: int) -> NamedEntityKind {
        self.ents@[i].kind
    }

    pub open spec fn valid_link(self, l: int) -> bool {
        0 <= l < self.links@.len()
    }

    pub open spec fn link_of(self, l: int) -> Option<usize> {
        self.links@[l]
    }

    pub open spec fn valid_oset(self, s: int) -> bool {
        0 <= s < self.osets@.len()
    }

    pub open spec fn oset_of(self, s: int) -> Seq<usize> {
        self.osets@[s]@
    }

    pub fn new() -> (r: SymbolTable)
        ensures
            r.ents@ =~= Seq::<NamedEntity>::empty(),
            r.osets@ =~= Seq::<Vec<usize>>::empty(),
            r.links@ =~= Seq::<Option<usize>>::empty(),
    {
        SymbolTable { ents: Vec::new(), osets: Vec::new(), links: Vec::new() }
    }

    /// Record the members of one overload set; lookups that return the set
    /// share it by this index.
    pub fn add_overload_set(&mut self, members: Vec<usize>) -> (s: usize)
        ensures
            final(self).osets@ == old(self).osets@.push(members),
            final(self).ents@ == old(self).ents@,
            final(self).links@ == old(self).links@,
            s == old(self).osets@.len(),
    {
        let s = self.osets.len();
        self.osets.push(members);
        s
    }

    /// Add one declaration; its index is the handle every reference uses.
    pub fn add(&mut self, ent: NamedEntity) -> (i: usize)
        ensures
            final(self).ents@ == old(self).ents@.push(ent),
            final(self).links@ == old(self).links@,
            final(self).osets@ == old(self).osets@,
            i == old(self).ents@.len(),
    {
        let i = self.ents.len();
        self.ents.push(ent);
        i
    }

    /// Allocate the forward-link cell of an incomplete type, still unlinked.
    pub fn new_incomplete_link(&mut self) -> (l: usize)
        ensures
            final(self).links@ == old(self).links@.push(None),
            final(self).ents@ == old(self).ents@,
            final(self).osets@ == old(self).osets@,
            l == old(self).links@.len(),
    {
        let l = self.links.len();
        self.links.push(None);
        l
    }

    /// Connect an incomplete type to its full declaration.  The cell
    /// transitions exactly once, from unlinked to linked, and never reverts.
    pub fn link_incomplete(&mut self, link: usize, full: usize)
        requires
            old(self).valid_link(link as int),
            old(self).link_of(link as int) is None,
        ensures
            final(self).links@ == old(self).links@.update(link as int, Some(full)),
            final(self).ents@ == old(self).ents@,
            final(self).osets@ == old(self).osets@,
    {
        self.links[link] = Some(full);
    }
}

/// The analysis context: the resolver's read-only view of the symbol graph.
pub struct AnalyzeContext {
    pub table: SymbolTable,
}

impl AnalyzeContext {
    pub fn new(table: SymbolTable) -> (r: AnalyzeContext)
        ensures
            r.table == table,
    {
        AnalyzeContext { table }
    }
}

} // verus!
