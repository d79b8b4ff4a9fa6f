//! Resolution of selected names (`prefix.suffix` chains), of names required
//! to denote one non-overloaded entity, and of type marks and signatures.
//!
//! This layer is specified functionally: for every input name the
//! specification gives the resolved name (its reference slots cleared or
//! committed) and the outcome, and the executable functions return exactly
//! that.

use vstd::prelude::*;
use crate::ast::{SelectedName, Signature, SubtypeIndication};
use crate::diagnostics::{
    AnalysisError, AnalysisResult, Diagnostic, DiagnosticCode, DiagnosticCodeV, DiagnosticV,
    FatalError, FatalNullResult,
};
use crate::lookup::{lookup_selected_spec, SelectedLookup};
use crate::symbols::{
    AnalyzeContext, NamedEntities, NamedEntityKind, OverloadedName, Pos, Region, SymbolTable,
    WithPos, WithRef,
};

verus! {

broadcast use {vstd::std_specs::vec::group_vec_axioms, vstd::seq::group_seq_axioms};

/// The outcome of resolving a name that is expected to denote entities.
pub ghost enum NameOutcome {
    Resolved(NamedEntities),
    Local(DiagnosticV),
    Fatal(FatalError),
}

/// The outcome of resolving a name down to one single entity.
pub ghost enum EntityOutcome {
    Resolved(usize),
    Local(DiagnosticV),
    Fatal(FatalError),
}

pub open spec fn name_outcome_matches(o: NameOutcome, r: AnalysisResult<NamedEntities>) -> bool {
    match o {
        NameOutcome::Resolved(e) => r == Ok::<NamedEntities, AnalysisError>(e),
        NameOutcome::Local(dv) => r matches Err(AnalysisError::NotFatal(d)) && d@ == dv,
        NameOutcome::Fatal(f) => r matches Err(AnalysisError::Fatal(g)) && g == f,
    }
}

pub open spec fn entity_outcome_matches(o: EntityOutcome, r: AnalysisResult<usize>) -> bool {
    match o {
        EntityOutcome::Resolved(e) => r == Ok::<usize, AnalysisError>(e),
        EntityOutcome::Local(dv) => r matches Err(AnalysisError::NotFatal(d)) && d@ == dv,
        EntityOutcome::Fatal(f) => r matches Err(AnalysisError::Fatal(g)) && g == f,
    }
}

/// A selected name rebuilt around a resolved prefix and suffix.
pub open spec fn selected_of(
    prefix: WithPos<SelectedName>,
    suffix: WithPos<WithRef>,
    pos: Pos,
) -> WithPos<SelectedName> {
    WithPos { item: SelectedName::Selected(Box::new(prefix), suffix), pos }
}

/// The "Invalid prefix for selected name" finding, anchored at the prefix.
pub open spec fn invalid_prefix_for_selected_name_spec(prefix_pos: Pos) -> DiagnosticV {
    DiagnosticV {
        pos: prefix_pos,
        code: DiagnosticCodeV::InvalidPrefixForSelectedName,
        related: Seq::<Pos>::empty(),
    }
}

/// What resolving a selected name does: the suffix slot is cleared first, the
/// prefix is resolved recursively, and only a single non-overloaded prefix is
/// consulted for the suffix.  A prefix that resolved but gave nothing to bind
/// is reported as an invalid prefix.
#[verifier::opaque]
pub open spec fn resolve_selected_name_spec(
    tbl: SymbolTable,
    region: Region,
    name: WithPos<SelectedName>,
) -> (WithPos<SelectedName>, NameOutcome)
    decreases name,
{
    match name.item {
        SelectedName::Designator(wref) => match region.lookup_spec(wref.designator) {
            Some(e) => (
                WithPos {
                    item: SelectedName::Designator(wref.with_reference(e)),
                    pos: name.pos,
                },
                NameOutcome::Resolved(e),
            ),
            None => (
                WithPos { item: SelectedName::Designator(wref.cleared()), pos: name.pos },
                NameOutcome::Local(
                    DiagnosticV {
                        pos: name.pos,
                        code: DiagnosticCodeV::NotVisible { designator: wref.designator },
                        related: Seq::<Pos>::empty(),
                    },
                ),
            ),
        },
        SelectedName::Selected(prefix, suffix) => {
            let (new_prefix, pres) = resolve_selected_name_spec(tbl, region, *prefix);
            let cleared = WithPos { item: suffix.item.cleared(), pos: suffix.pos };
            match pres {
                NameOutcome::Resolved(ents) => match ents {
                    NamedEntities::Single(p) => match lookup_selected_spec(
                        tbl,
                        prefix.pos,
                        p,
                        cleared,
                    ) {
                        SelectedLookup::Found(visible) => (
                            selected_of(
                                new_prefix,
                                WithPos {
                                    item: suffix.item.with_reference(visible),
                                    pos: suffix.pos,
                                },
                                name.pos,
                            ),
                            NameOutcome::Resolved(visible),
                        ),
                        SelectedLookup::Silent => (
                            selected_of(new_prefix, cleared, name.pos),
                            NameOutcome::Local(invalid_prefix_for_selected_name_spec(prefix.pos)),
                        ),
                        SelectedLookup::Local(d) => (
                            selected_of(new_prefix, cleared, name.pos),
                            NameOutcome::Local(d),
                        ),
                        SelectedLookup::Fatal(f) => (
                            selected_of(new_prefix, cleared, name.pos),
                            NameOutcome::Fatal(f),
                        ),
                    },
                    NamedEntities::Overloaded(_) => (
                        selected_of(new_prefix, cleared, name.pos),
                        NameOutcome::Local(invalid_prefix_for_selected_name_spec(prefix.pos)),
                    ),
                },
                NameOutcome::Local(d) => (
                    selected_of(new_prefix, cleared, name.pos),
                    NameOutcome::Local(d),
                ),
                NameOutcome::Fatal(f) => (
                    selected_of(new_prefix, cleared, name.pos),
                    NameOutcome::Fatal(f),
                ),
            }
        },
    }
}

/// The "defined here" positions of the given overload-set members, in order.
pub open spec fn related_of(tbl: SymbolTable, members: Seq<usize>) -> Seq<Pos>
    decreases members.len(),
{
    if members.len() == 0 {
        Seq::<Pos>::empty()
    } else {
        related_of(tbl, members.drop_last()) + {
            let m = members.last();
            if tbl.valid_ent(m as int) {
                match tbl.ents@[m as int].decl_pos {
                    Some(p) => seq![p],
                    None => Seq::<Pos>::empty(),
                }
            } else {
                Seq::<Pos>::empty()
            }
        }
    }
}

/// "Expected `expected`, got <entity>", anchored at the name's rightmost
/// designator, with the entity's declaration as the related position.
pub open spec fn mismatched_kind_spec(
    tbl: SymbolTable,
    ent: usize,
    expected: Seq<char>,
    pos: Pos,
) -> DiagnosticV {
    DiagnosticV {
        pos,
        code: DiagnosticCodeV::MismatchedKind { entity: ent, expected },
        related: match tbl.ents@[ent as int].decl_pos {
            Some(p) => seq![p],
            None => Seq::<Pos>::empty(),
        },
    }
}

/// "Expected `expected`, got overloaded name", with one related position per
/// candidate declaration.
pub open spec fn mismatched_overloaded_spec(
    tbl: SymbolTable,
    ov: OverloadedName,
    expected: Seq<char>,
    pos: Pos,
) -> DiagnosticV {
    DiagnosticV {
        pos,
        code: DiagnosticCodeV::MismatchedKindOverloaded { expected },
        related: related_of(tbl, tbl.oset_of(ov.set as int).map_values(|m: usize| m)),
    }
}

/// Resolving a name that must denote a single entity of a type kind.
#[verifier::opaque]
pub open spec fn type_mark_spec(
    tbl: SymbolTable,
    region: Region,
    mark: WithPos<SelectedName>,
) -> (WithPos<SelectedName>, EntityOutcome) {
    let (n2, o) = resolve_selected_name_spec(tbl, region, mark);
    let pos = n2.suffix_pos_spec();
    let outcome = match o {
        NameOutcome::Resolved(ents) => match ents {
            NamedEntities::Single(ent) => if !tbl.valid_ent(ent as int) {
                EntityOutcome::Fatal(FatalError::DanglingEntityReference)
            } else if tbl.kind_of(ent as int).is_type_spec() {
                EntityOutcome::Resolved(ent)
            } else {
                EntityOutcome::Local(mismatched_kind_spec(tbl, ent, "type"@, pos))
            },
            NamedEntities::Overloaded(ov) => if !tbl.valid_oset(ov.set as int) {
                EntityOutcome::Fatal(FatalError::DanglingEntityReference)
            } else {
                EntityOutcome::Local(mismatched_overloaded_spec(tbl, ov, "type"@, pos))
            },
        },
        NameOutcome::Local(d) => EntityOutcome::Local(d),
        NameOutcome::Fatal(f) => EntityOutcome::Fatal(f),
    };
    (n2, outcome)
}

/// The outcome of resolving a list of type marks, stopping at the first
/// failure; marks after the failing one are left untouched.
pub ghost enum SignatureOutcome {
    Done,
    Local(DiagnosticV),
    Fatal(FatalError),
}

#[verifier::opaque]
pub open spec fn signature_marks_spec(
    tbl: SymbolTable,
    region: Region,
    marks: Seq<WithPos<SelectedName>>,
) -> (Seq<WithPos<SelectedName>>, SignatureOutcome)
    decreases marks.len(),
{
    if marks.len() == 0 {
        (marks, SignatureOutcome::Done)
    } else {
        let (m2, o) = type_mark_spec(tbl, region, marks[0]);
        match o {
            EntityOutcome::Resolved(_) => {
                let (rest, so) = signature_marks_spec(
                    tbl,
                    region,
                    marks.subrange(1, marks.len() as int),
                );
                (seq![m2] + rest, so)
            },
            EntityOutcome::Local(d) => (
                seq![m2] + marks.subrange(1, marks.len() as int),
                SignatureOutcome::Local(d),
            ),
            EntityOutcome::Fatal(f) => (
                seq![m2] + marks.subrange(1, marks.len() as int),
                SignatureOutcome::Fatal(f),
            ),
        }
    }
}

pub open spec fn signature_outcome_matches(o: SignatureOutcome, r: AnalysisResult<()>) -> bool {
    match o {
        SignatureOutcome::Done => r == Ok::<(), AnalysisError>(()),
        SignatureOutcome::Local(dv) => r matches Err(AnalysisError::NotFatal(d)) && d@ == dv,
        SignatureOutcome::Fatal(f) => r matches Err(AnalysisError::Fatal(g)) && g == f,
    }
}

impl AnalyzeContext {
    /// Resolve a selected name to the entities it denotes, committing the
    /// binding of every designator on the way.  The suffix's slot is cleared
    /// before anything else, so a failure never leaves a stale binding.
    pub fn resolve_selected_name(
        &self,
        region: &Region,
        name: &mut WithPos<SelectedName>,
    ) -> (r: AnalysisResult<NamedEntities>)
        ensures
            ({
                let (n2, o) = resolve_selected_name_spec(self.table, *region, *old(name));
                *final(name) == n2 && name_outcome_matches(o, r)
            }),
        decreases *old(name),
    {
        proof {
            reveal(resolve_selected_name_spec);
        }
        match &mut name.item {
            SelectedName::Designator(designator) => {
                designator.clear_reference();
                match region.lookup_within(name.pos, designator.designator) {
                    Ok(visible) => {
                        designator.set_reference(&visible);
                        Ok(visible)
                    },
                    Err(diagnostic) => Err(AnalysisError::NotFatal(diagnostic)),
                }
            },
            SelectedName::Selected(prefix, suffix) => {
                suffix.item.clear_reference();
                let prefix_pos = prefix.pos;
                match self.resolve_selected_name(region, &mut **prefix) {
                    Ok(ents) => match ents.into_non_overloaded() {
                        Ok(prefix_ent) => match self.lookup_selected(
                            prefix_pos,
                            prefix_ent,
                            &*suffix,
                        ) {
                            Ok(Some(visible)) => {
                                suffix.item.set_reference(&visible);
                                Ok(visible)
                            },
                            Ok(None) => Err(AnalysisError::NotFatal(Diagnostic::error(
                                prefix_pos,
                                DiagnosticCode::InvalidPrefixForSelectedName,
                            ))),
                            Err(err) => Err(err),
                        },
                        Err(_) => Err(AnalysisError::NotFatal(Diagnostic::error(
                            prefix_pos,
                            DiagnosticCode::InvalidPrefixForSelectedName,
                        ))),
                    },
                    Err(err) => Err(err),
                }
            },
        }
    }

    /// Resolve a selected name that must denote one non-overloaded entity
    /// whose kind satisfies `kind_ok`; `expected` names the expected kind in
    /// the finding when it does not.
    pub fn resolve_non_overloaded<F: Fn(&NamedEntityKind) -> bool>(
        &self,
        region: &Region,
        name: &mut WithPos<SelectedName>,
        kind_ok: &F,
        expected: &str,
    ) -> (r: AnalysisResult<usize>)
        requires
            forall|k: &NamedEntityKind| #[trigger] call_requires(*kind_ok, (k,)),
        ensures
            ({
                let (n2, o) = resolve_selected_name_spec(self.table, *region, *old(name));
                let pos = n2.suffix_pos_spec();
                *final(name) == n2 && match o {
                    NameOutcome::Resolved(ents) => match ents {
                        NamedEntities::Single(ent) => if !self.table.valid_ent(ent as int) {
                            r matches Err(AnalysisError::Fatal(g)) && g
                                == FatalError::DanglingEntityReference
                        } else {
                            (r == Ok::<usize, AnalysisError>(ent) && call_ensures(
                                *kind_ok,
                                (&self.table.ents@[ent as int].kind,),
                                true,
                            )) || (r matches Err(AnalysisError::NotFatal(d)) && d@
                                == mismatched_kind_spec(self.table, ent, expected@, pos)
                                && call_ensures(
                                *kind_ok,
                                (&self.table.ents@[ent as int].kind,),
                                false,
                            ))
                        },
                        NamedEntities::Overloaded(ov) => if !self.table.valid_oset(ov.set as int) {
                            r matches Err(AnalysisError::Fatal(g)) && g
                                == FatalError::DanglingEntityReference
                        } else {
                            r matches Err(AnalysisError::NotFatal(d)) && d@
                                == mismatched_overloaded_spec(self.table, ov, expected@, pos)
                        },
                    },
                    NameOutcome::Local(dv) => r matches Err(AnalysisError::NotFatal(d)) && d@
                        == dv,
                    NameOutcome::Fatal(f) => r matches Err(AnalysisError::Fatal(g)) && g == f,
                }
            }),
    {
        proof {
            reveal(resolve_selected_name_spec);
        }
        let resolved = self.resolve_selected_name(region, name)?;
        let suffix_pos = name.suffix_pos();
        match resolved.into_non_overloaded() {
            Ok(ent) => {
                if ent >= self.table.ents.len() {
                    return Err(AnalysisError::Fatal(FatalError::DanglingEntityReference));
                }
                if kind_ok(&self.table.ents[ent].kind) {
                    Ok(ent)
                } else {
                    let mut error = Diagnostic::error(
                        suffix_pos,
                        DiagnosticCode::MismatchedKind {
                            entity: ent,
                            expected: expected.to_owned(),
                        },
                    );
                    match self.table.ents[ent].decl_pos {
                        Some(p) => {
                            error.add_related(p);
                        },
                        None => {},
                    }
                    proof {
                        assert(error@.related =~= mismatched_kind_spec(
                            self.table,
                            ent,
                            expected@,
                            suffix_pos,
                        ).related);
                    }
                    Err(AnalysisError::NotFatal(error))
                }
            },
            Err(overloaded) => {
                if overloaded.set >= self.table.osets.len() {
                    return Err(AnalysisError::Fatal(FatalError::DanglingEntityReference));
                }
                let members = &self.table.osets[overloaded.set];
                let mut related: Vec<Pos> = Vec::new();
                let n = members.len();
                let mut i: usize = 0;
                while i < n
                    invariant
                        n == members@.len(),
                        i <= n,
                        members == self.table.osets@[overloaded.set as int],
                        related@ == related_of(
                            self.table,
                            members@.subrange(0, i as int).map_values(|m: usize| m),
                        ),
                    decreases n - i,
                {
                    let m = members[i];
                    if m < self.table.ents.len() {
                        match self.table.ents[m].decl_pos {
                            Some(p) => {
                                related.push(p);
                            },
                            None => {},
                        }
                    }
                    i = i + 1;
                    proof {
                        let cur = members@.subrange(0, i as int).map_values(|m: usize| m);
                        assert(cur.drop_last() =~= members@.subrange(0, i - 1 as int).map_values(
                            |m: usize| m,
                        ));
                        assert(cur.last() == members@[i - 1 as int]);
                    }
                }
                proof {
                    assert(members@.subrange(0, n as int) =~= members@);
                }
                let error = Diagnostic {
                    pos: suffix_pos,
                    code: DiagnosticCode::MismatchedKindOverloaded {
                        expected: expected.to_owned(),
                    },
                    related,
                };
                proof {
                    assert(members@.map_values(|m: usize| m) =~= self.table.oset_of(
                        overloaded.set as int,
                    ).map_values(|m: usize| m));
                }
                Err(AnalysisError::NotFatal(error))
            },
        }
    }

    /// Resolve a name that must denote a type.
    pub fn resolve_type_mark(
        &self,
        region: &Region,
        type_mark: &mut WithPos<SelectedName>,
    ) -> (r: AnalysisResult<usize>)
        ensures
            ({
                let (n2, o) = type_mark_spec(self.table, *region, *old(type_mark));
                *final(type_mark) == n2 && entity_outcome_matches(o, r)
            }),
    {
        proof {
            reveal(type_mark_spec);
        }
        self.resolve_non_overloaded(
            region,
            type_mark,
            &(|k: &NamedEntityKind| -> (b: bool)
                ensures
                    b == k.is_type_spec(),
                { k.is_type() }),
            "type",
        )
    }

    /// Resolve the type marks of a signature, in order, stopping at the first
    /// failure.
    pub fn resolve_signature(&self, region: &Region, signature: &mut Signature) -> (r:
        AnalysisResult<()>)
        ensures
            ({
                let (marks2, o) = signature_marks_spec(
                    self.table,
                    *region,
                    old(signature).type_marks@,
                );
                final(signature).type_marks@ == marks2 && signature_outcome_matches(o, r)
            }),
    {
        proof {
            reveal(signature_marks_spec);
            reveal(type_mark_spec);
        }
        let n = signature.type_marks.len();
        proof {
            assert(old(signature).type_marks@.subrange(0, n as int) =~= old(
                signature,
            ).type_marks@);
            let (rest, so) = signature_marks_spec(self.table, *region, old(signature).type_marks@);
            assert(signature.type_marks@.subrange(0, 0) + rest =~= rest);
        }
        let mut i: usize = 0;
        while i < n
            invariant
                n == signature.type_marks@.len(),
                i <= n,
                n == old(signature).type_marks@.len(),
                forall|j: int| i <= j < n ==> signature.type_marks@[j] == old(
                    signature,
                ).type_marks@[j],
                signature_marks_spec(self.table, *region, old(signature).type_marks@) == {
                    let (rest, so) = signature_marks_spec(
                        self.table,
                        *region,
                        old(signature).type_marks@.subrange(i as int, n as int),
                    );
                    (signature.type_marks@.subrange(0, i as int) + rest, so)
                },
            decreases n - i,
        {
            proof {
                reveal(signature_marks_spec);
                reveal(type_mark_spec);
            }
            let ghost pre = signature.type_marks@;
            let r = self.resolve_type_mark(region, &mut signature.type_marks[i]);
            i = i + 1;
            proof {
                assert(old(signature).type_marks@.subrange(i - 1, n as int).subrange(
                    1,
                    n - (i - 1),
                ) =~= old(signature).type_marks@.subrange(i as int, n as int));
                assert(old(signature).type_marks@.subrange(i - 1, n as int)[0] == old(
                    signature,
                ).type_marks@[i - 1]);
                assert(signature.type_marks@.subrange(0, i as int) =~= pre.subrange(0, i - 1).push(
                    signature.type_marks@[i - 1],
                ));
            }
            match r {
                Ok(_) => {},
                Err(err) => {
                    proof {
                        assert(signature.type_marks@.subrange(0, i as int) + old(
                            signature,
                        ).type_marks@.subrange(i as int, n as int) =~= signature.type_marks@);
                    }
                    return Err(err);
                },
            }
        }
        proof {
            assert(old(signature).type_marks@.subrange(n as int, n as int)
                =~= Seq::<WithPos<SelectedName>>::empty());
            assert(signature.type_marks@.subrange(0, n as int) + Seq::<
                WithPos<SelectedName>,
            >::empty() =~= signature.type_marks@);
        }
        Ok(())
    }

    /// Analyze a subtype indication: its type mark must denote a type; a
    /// failure is reported locally.
    pub fn analyze_subtype_indication(
        &self,
        region: &Region,
        subtype: &mut SubtypeIndication,
        diagnostics: &mut Vec<Diagnostic>,
    ) -> (r: FatalNullResult)
        ensures
            ({
                let (n2, o) = type_mark_spec(self.table, *region, old(subtype).type_mark);
                final(subtype).type_mark == n2 && match o {
                    EntityOutcome::Resolved(_) => final(diagnostics)@ == old(diagnostics)@ && r
                        is Ok,
                    EntityOutcome::Local(dv) => final(diagnostics)@.len() == old(
                        diagnostics,
                    )@.len() + 1 && final(diagnostics)@.subrange(0, old(diagnostics)@.len() as int)
                        == old(diagnostics)@ && final(diagnostics)@.last()@ == dv && r is Ok,
                    EntityOutcome::Fatal(f) => final(diagnostics)@ == old(diagnostics)@ && r
                        == Err::<(), FatalError>(f),
                }
            }),
    {
        proof {
            reveal(type_mark_spec);
        }
        match self.resolve_type_mark(region, &mut subtype.type_mark) {
            Ok(_) => Ok(()),
            Err(err) => {
                let r = err.add_to(diagnostics);
                proof {
                    if r is Ok {
                        assert(final(diagnostics)@.subrange(0, old(diagnostics)@.len() as int)
                            =~= old(diagnostics)@);
                    }
                }
                r
            },
        }
    }
}

} // verus!
