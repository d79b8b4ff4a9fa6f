//! Selected-name suffix lookup: what a dotted name's suffix denotes inside a
//! given prefix entity, dispatched on the prefix's kind, and — once the
//! prefix's type is known — on the kind of that type, unwrapping subtype,
//! access-type and incomplete-type indirections transparently.
//!
//! The indirection walk is specified with an explicit fuel.  A chain in a
//! well-formed symbol graph never revisits an entity, so the number of
//! entities in the table always suffices; running out of fuel therefore
//! means the graph contains an indirection cycle, which is reported as the
//! fatal `CircularDependency`.

use vstd::prelude::*;
use crate::diagnostics::{
    invalid_selected_name_prefix, invalid_selected_name_prefix_spec, no_declaration_within,
    no_declaration_within_spec, AnalysisError, AnalysisResult, DiagnosticV, FatalError,
};
use crate::symbols::{
    AnalyzeContext, NamedEntities, NamedEntityKind, Pos, SymbolTable, WithPos, WithRef,
};

verus! {

broadcast use {vstd::std_specs::vec::group_vec_axioms, vstd::seq::group_seq_axioms};

/// The outcome of a selected-name lookup against one prefix entity.
pub ghost enum SelectedLookup {
    /// The suffix denotes these entities.
    Found(NamedEntities),
    /// Nothing can be said (permissive alias, unlinked incomplete type):
    /// no binding and no finding.
    Silent,
    /// A local finding: reported, analysis continues.
    Local(DiagnosticV),
    /// A structural defect of the symbol graph.
    Fatal(FatalError),
}

/// Fuel that suffices for every acyclic indirection chain: a chain that takes
/// more steps than there are entities must have revisited one.
pub open spec fn chain_fuel(tbl: SymbolTable) -> nat {
    tbl.ents@.len()
}

/// Lookup of `suffix` when the prefix denotes a value or field whose type is
/// the entity `t`, with `fuel` indirection steps left.
#[verifier::opaque]
pub open spec fn lookup_type_selected_spec(
    tbl: SymbolTable,
    prefix_pos: Pos,
    t: usize,
    suffix: WithPos<WithRef>,
    fuel: nat,
) -> SelectedLookup
    decreases fuel,
{
    if !tbl.valid_ent(t as int) {
        SelectedLookup::Fatal(FatalError::DanglingEntityReference)
    } else {
        match tbl.kind_of(t as int) {
            NamedEntityKind::RecordType(region) => match region.lookup_spec(
                suffix.item.designator,
            ) {
                Some(e) => SelectedLookup::Found(e),
                None => SelectedLookup::Local(no_declaration_within_spec(t, suffix)),
            },
            NamedEntityKind::ProtectedType(region) => match region.lookup_spec(
                suffix.item.designator,
            ) {
                Some(e) => SelectedLookup::Found(e),
                None => SelectedLookup::Local(no_declaration_within_spec(t, suffix)),
            },
            NamedEntityKind::OtherAlias => SelectedLookup::Silent,
            NamedEntityKind::IncompleteType(l) => if !tbl.valid_link(l as int) {
                SelectedLookup::Fatal(FatalError::DanglingEntityReference)
            } else {
                match tbl.link_of(l as int) {
                    Some(full) => if fuel == 0 {
                        SelectedLookup::Fatal(FatalError::CircularDependency)
                    } else {
                        lookup_type_selected_spec(tbl, prefix_pos, full, suffix, (fuel - 1) as nat)
                    },
                    None => SelectedLookup::Silent,
                }
            },
            NamedEntityKind::Subtype(base) => if fuel == 0 {
                SelectedLookup::Fatal(FatalError::CircularDependency)
            } else {
                lookup_type_selected_spec(tbl, prefix_pos, base, suffix, (fuel - 1) as nat)
            },
            NamedEntityKind::AccessType(base) => if fuel == 0 {
                SelectedLookup::Fatal(FatalError::CircularDependency)
            } else {
                lookup_type_selected_spec(tbl, prefix_pos, base, suffix, (fuel - 1) as nat)
            },
            _ => SelectedLookup::Local(invalid_selected_name_prefix_spec(t, prefix_pos)),
        }
    }
}

/// The indirection walk with all the fuel an acyclic graph can use.
pub open spec fn lookup_type_selected_full(
    tbl: SymbolTable,
    prefix_pos: Pos,
    t: usize,
    suffix: WithPos<WithRef>,
) -> SelectedLookup {
    lookup_type_selected_spec(tbl, prefix_pos, t, suffix, chain_fuel(tbl))
}

/// Lookup of `suffix` inside the prefix entity `p`, dispatched on `p`'s kind.
#[verifier::opaque]
pub open spec fn lookup_selected_spec(
    tbl: SymbolTable,
    prefix_pos: Pos,
    p: usize,
    suffix: WithPos<WithRef>,
) -> SelectedLookup {
    if !tbl.valid_ent(p as int) {
        SelectedLookup::Fatal(FatalError::DanglingEntityReference)
    } else {
        match tbl.kind_of(p as int) {
            NamedEntityKind::Library(region) => match region.lookup_spec(suffix.item.designator) {
                Some(e) => SelectedLookup::Found(e),
                None => SelectedLookup::Local(no_declaration_within_spec(p, suffix)),
            },
            NamedEntityKind::UninstPackage => SelectedLookup::Local(
                invalid_selected_name_prefix_spec(p, prefix_pos),
            ),
            NamedEntityKind::Object { subtype } => lookup_type_selected_full(
                tbl,
                prefix_pos,
                subtype,
                suffix,
            ),
            NamedEntityKind::ElementDeclaration { subtype } => lookup_type_selected_full(
                tbl,
                prefix_pos,
                subtype,
                suffix,
            ),
            NamedEntityKind::Package(region) => match region.lookup_spec(suffix.item.designator) {
                Some(e) => SelectedLookup::Found(e),
                None => SelectedLookup::Local(no_declaration_within_spec(p, suffix)),
            },
            NamedEntityKind::PackageInstance(region) => match region.lookup_spec(
                suffix.item.designator,
            ) {
                Some(e) => SelectedLookup::Found(e),
                None => SelectedLookup::Local(no_declaration_within_spec(p, suffix)),
            },
            NamedEntityKind::LocalPackageInstance(region) => match region.lookup_spec(
                suffix.item.designator,
            ) {
                Some(e) => SelectedLookup::Found(e),
                None => SelectedLookup::Local(no_declaration_within_spec(p, suffix)),
            },
            NamedEntityKind::OtherAlias => SelectedLookup::Silent,
            _ => SelectedLookup::Local(invalid_selected_name_prefix_spec(p, prefix_pos)),
        }
    }
}

/// How an executable lookup result realizes a lookup outcome.
pub open spec fn lookup_matches(
    o: SelectedLookup,
    r: AnalysisResult<Option<NamedEntities>>,
) -> bool {
    match o {
        SelectedLookup::Found(e) => r == Ok::<Option<NamedEntities>, AnalysisError>(Some(e)),
        SelectedLookup::Silent => r == Ok::<Option<NamedEntities>, AnalysisError>(None),
        SelectedLookup::Local(dv) => r matches Err(AnalysisError::NotFatal(d)) && d@ == dv,
        SelectedLookup::Fatal(f) => r matches Err(AnalysisError::Fatal(g)) && g == f,
    }
}

/// Adding fuel never changes an outcome that was reached without running out.
pub proof fn lemma_lookup_type_fuel_mono(
    tbl: SymbolTable,
    prefix_pos: Pos,
    t: usize,
    suffix: WithPos<WithRef>,
    f1: nat,
    f2: nat,
)
    requires
        f1 <= f2,
        lookup_type_selected_spec(tbl, prefix_pos, t, suffix, f1) != SelectedLookup::Fatal(
            FatalError::CircularDependency,
        ),
    ensures
        lookup_type_selected_spec(tbl, prefix_pos, t, suffix, f2) == lookup_type_selected_spec(
            tbl,
            prefix_pos,
            t,
            suffix,
            f1,
        ),
    decreases f1,
{
    reveal(lookup_type_selected_spec);
    if tbl.valid_ent(t as int) {
        match tbl.kind_of(t as int) {
            NamedEntityKind::IncompleteType(l) => {
                if tbl.valid_link(l as int) {
                    match tbl.link_of(l as int) {
                        Some(full) => {
                            lemma_lookup_type_fuel_mono(
                                tbl,
                                prefix_pos,
                                full,
                                suffix,
                                (f1 - 1) as nat,
                                (f2 - 1) as nat,
                            );
                        },
                        None => {},
                    }
                }
            },
            NamedEntityKind::Subtype(base) => {
                lemma_lookup_type_fuel_mono(
                    tbl,
                    prefix_pos,
                    base,
                    suffix,
                    (f1 - 1) as nat,
                    (f2 - 1) as nat,
                );
            },
            NamedEntityKind::AccessType(base) => {
                lemma_lookup_type_fuel_mono(
                    tbl,
                    prefix_pos,
                    base,
                    suffix,
                    (f1 - 1) as nat,
                    (f2 - 1) as nat,
                );
            },
            _ => {},
        }
    }
}

impl AnalyzeContext {
    /// Lookup a selected name's suffix when the prefix has a type: record
    /// fields and protected-type operations, reached through any finite chain
    /// of subtype, access-type and linked incomplete-type indirections.  An
    /// alias that cannot be judged, or an incomplete type whose full
    /// declaration never appeared, resolves to nothing, silently.
    #[verifier::rlimit(60)]
    pub fn lookup_type_selected(
        &self,
        prefix_pos: Pos,
        prefix_type: usize,
        suffix: &WithPos<WithRef>,
    ) -> (r: AnalysisResult<Option<NamedEntities>>)
        ensures
            lookup_matches(
                lookup_type_selected_full(self.table, prefix_pos, prefix_type, *suffix),
                r,
            ),
    {
        proof {
            reveal(lookup_type_selected_spec);
        }
        let mut t = prefix_type;
        let mut fuel = self.table.ents.len();
        loop
            invariant
                lookup_type_selected_spec(self.table, prefix_pos, t, *suffix, fuel as nat)
                    == lookup_type_selected_full(self.table, prefix_pos, prefix_type, *suffix),
            decreases fuel,
        {
            proof {
                reveal(lookup_type_selected_spec);
            }
            let ghost here = lookup_type_selected_spec(self.table, prefix_pos, t, *suffix, fuel as nat);
            if t >= self.table.ents.len() {
                proof {
                    assert(here == SelectedLookup::Fatal(FatalError::DanglingEntityReference));
                }
                return Err(AnalysisError::Fatal(FatalError::DanglingEntityReference));
            }
            match &self.table.ents[t].kind {
                NamedEntityKind::RecordType(region) | NamedEntityKind::ProtectedType(region) => {
                    let r = match region.lookup_selected(suffix.item.designator) {
                        Some(decl) => Ok(Some(decl)),
                        None => Err(AnalysisError::NotFatal(no_declaration_within(t, suffix))),
                    };
                    proof {
                        assert(lookup_matches(here, r));
                    }
                    return r;
                },
                NamedEntityKind::OtherAlias => {
                    proof {
                        assert(here == SelectedLookup::Silent);
                    }
                    return Ok(None);
                },
                NamedEntityKind::IncompleteType(l) => {
                    if *l >= self.table.links.len() {
                        proof {
                            assert(here == SelectedLookup::Fatal(
                                FatalError::DanglingEntityReference,
                            ));
                        }
                        return Err(AnalysisError::Fatal(FatalError::DanglingEntityReference));
                    }
                    match self.table.links[*l] {
                        Some(full_type) => {
                            if fuel == 0 {
                                proof {
                                    assert(here == SelectedLookup::Fatal(
                                        FatalError::CircularDependency,
                                    ));
                                }
                                return Err(AnalysisError::Fatal(FatalError::CircularDependency));
                            }
                            t = full_type;
                            fuel = fuel - 1;
                        },
                        None => {
                            proof {
                                assert(here == SelectedLookup::Silent);
                            }
                            return Ok(None);
                        },
                    }
                },
                NamedEntityKind::Subtype(base) | NamedEntityKind::AccessType(base) => {
                    if fuel == 0 {
                        proof {
                            assert(here == SelectedLookup::Fatal(FatalError::CircularDependency));
                        }
                        return Err(AnalysisError::Fatal(FatalError::CircularDependency));
                    }
                    t = *base;
                    fuel = fuel - 1;
                },
                _ => {
                    let r = Err(AnalysisError::NotFatal(invalid_selected_name_prefix(
                        t,
                        prefix_pos,
                    )));
                    proof {
                        assert(lookup_matches(here, r));
                    }
                    return r;
                },
            }
        }
    }

    /// Lookup a selected name's suffix inside the prefix entity: library
    /// units by cross-unit lookup, package members by the package's own
    /// region, objects and record elements by their type, with every other
    /// kind rejected as a prefix.
    #[verifier::rlimit(60)]
    pub fn lookup_selected(
        &self,
        prefix_pos: Pos,
        prefix: usize,
        suffix: &WithPos<WithRef>,
    ) -> (r: AnalysisResult<Option<NamedEntities>>)
        ensures
            lookup_matches(lookup_selected_spec(self.table, prefix_pos, prefix, *suffix), r),
    {
        proof {
            reveal(lookup_selected_spec);
            reveal(lookup_type_selected_spec);
        }
        if prefix >= self.table.ents.len() {
            return Err(AnalysisError::Fatal(FatalError::DanglingEntityReference));
        }
        match &self.table.ents[prefix].kind {
            NamedEntityKind::Library(region) => match region.lookup_selected(
                suffix.item.designator,
            ) {
                Some(decl) => Ok(Some(decl)),
                None => Err(AnalysisError::NotFatal(no_declaration_within(prefix, suffix))),
            },
            NamedEntityKind::UninstPackage => Err(AnalysisError::NotFatal(
                invalid_selected_name_prefix(prefix, prefix_pos),
            )),
            NamedEntityKind::Object { subtype } => self.lookup_type_selected(
                prefix_pos,
                *subtype,
                suffix,
            ),
            NamedEntityKind::ElementDeclaration { subtype } => self.lookup_type_selected(
                prefix_pos,
                *subtype,
                suffix,
            ),
            NamedEntityKind::Package(region)
            | NamedEntityKind::PackageInstance(region)
            | NamedEntityKind::LocalPackageInstance(region) => match region.lookup_selected(
                suffix.item.designator,
            ) {
                Some(decl) => Ok(Some(decl)),
                None => Err(AnalysisError::NotFatal(no_declaration_within(prefix, suffix))),
            },
            NamedEntityKind::OtherAlias => Ok(None),
            _ => Err(AnalysisError::NotFatal(invalid_selected_name_prefix(prefix, prefix_pos))),
        }
    }
}

} // verus!
