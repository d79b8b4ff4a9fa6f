//! The expression/statement analyzer and the general name resolver: a
//! recursive descent over every syntax shape in which a name can occur,
//! handing each name to the resolution machinery, committing reference slots
//! and pushing local findings, and propagating only fatal errors.
//!
//! Each executable function is specified by a relation that mirrors its
//! traversal exactly: it connects the subtree before and after the walk, the
//! views of the findings pushed (in order), and the result.  A local failure
//! never escapes the name that produced it; a fatal error aborts the walk in
//! place, leaving everything not yet visited untouched.

use vstd::prelude::*;
use crate::ast::{
    ActualPart, Allocator, Alternative, AssignmentRightHand, AssignmentType, AssociationElement,
    AttributeName, Choice, Conditional, Conditionals, DiscreteRange, ElementAssociation,
    Expression, ExternalName, FunctionCall, Name, QualifiedExpression, Range, RangeConstraint,
    SelectedName, Selection, Signature, SubtypeIndication, Target, Waveform, WaveformElement,
};
use crate::diagnostics::{
    AnalysisError, AnalysisResult, Diagnostic, DiagnosticCode, DiagnosticCodeV, DiagnosticV,
    FatalError, FatalNullResult, FatalResult,
};
use crate::lookup::{lookup_selected_spec, SelectedLookup};
use crate::resolve::{signature_marks_spec, type_mark_spec, EntityOutcome, SignatureOutcome};
use crate::symbols::{
    AnalyzeContext, Designator, NamedEntities, Pos, Region, SymbolTable, WithPos, WithRef,
};

verus! {

broadcast use {vstd::std_specs::vec::group_vec_axioms, vstd::seq::group_seq_axioms};

/// "Name is not visible", for a plain designator that no scope declares.
pub open spec fn dv_not_visible(pos: Pos, des: Designator) -> DiagnosticV {
    DiagnosticV {
        pos,
        code: DiagnosticCodeV::NotVisible { designator: des },
        related: Seq::<Pos>::empty(),
    }
}

/// "Overloaded name may not be the prefix of selected name".
pub open spec fn dv_overloaded_prefix(pos: Pos, des: Designator) -> DiagnosticV {
    DiagnosticV {
        pos,
        code: DiagnosticCodeV::OverloadedNamePrefix { designator: des },
        related: Seq::<Pos>::empty(),
    }
}

/// What analyzing a subtype indication does: the type mark is resolved as a
/// type, and a local failure becomes one finding.
pub open spec fn subtype_indication_step(
    tbl: SymbolTable,
    reg: Region,
    o: SubtypeIndication,
) -> (SubtypeIndication, Seq<DiagnosticV>, Option<FatalError>) {
    let (m2, tmo) = type_mark_spec(tbl, reg, o.type_mark);
    let n = SubtypeIndication { type_mark: m2 };
    match tmo {
        EntityOutcome::Resolved(_) => (n, Seq::<DiagnosticV>::empty(), None),
        EntityOutcome::Local(d) => (n, seq![d], None),
        EntityOutcome::Fatal(f) => (n, Seq::<DiagnosticV>::empty(), Some(f)),
    }
}

/// The optional argument expression of an attribute name.
#[verifier::opaque]
pub open spec fn attr_expr_resolves(
    tbl: SymbolTable,
    reg: Region,
    o_expr: Option<Box<WithPos<Expression>>>,
    n_expr: Option<Box<WithPos<Expression>>>,
    ds: Seq<DiagnosticV>,
    r: FatalResult<()>,
) -> bool
    decreases o_expr, 0int,
{
    match o_expr {
        Some(e) => n_expr matches Some(e2) && wexpr_resolves(tbl, reg, *e, *e2, ds, r),
        None => n_expr is None && ds == Seq::<DiagnosticV>::empty() && r == Ok::<
            (),
            FatalError,
        >(()),
    }
}


/// Trigger marker for one quantified analysis step.
pub open spec fn step_split<T>(ds: Seq<DiagnosticV>, r: T) -> bool {
    true
}

/// Trigger marker for quantified diagnostic splits.
pub open spec fn diag_split(d1: Seq<DiagnosticV>, d2: Seq<DiagnosticV>) -> bool {
    true
}

/// Trigger marker for quantified diagnostic splits at a list position.
pub open spec fn diag_split_at(k: int, d1: Seq<DiagnosticV>, d2: Seq<DiagnosticV>) -> bool {
    true
}

/// Resolution of one general name node.
#[verifier::opaque]
pub open spec fn name_resolves(
    tbl: SymbolTable,
    reg: Region,
    name_pos: Pos,
    o: Name,
    n: Name,
    ds: Seq<DiagnosticV>,
    r: FatalResult<Option<NamedEntities>>,
) -> bool
    decreases o, 1int,
{
    match o {
        Name::Designator(wref) => n matches Name::Designator(w2) && match reg.lookup_spec(
            wref.designator,
        ) {
            Some(e) => w2 == wref.with_reference(e) && ds == Seq::<DiagnosticV>::empty() && r
                == Ok::<Option<NamedEntities>, FatalError>(Some(e)),
            None => w2 == wref.cleared() && ds == seq![dv_not_visible(name_pos, wref.designator)]
                && r == Ok::<Option<NamedEntities>, FatalError>(None),
        },
        Name::Selected(prefix, suffix) => n matches Name::Selected(p2, s2) && p2.pos == prefix.pos
            && {
            let cleared = WithPos { item: suffix.item.cleared(), pos: suffix.pos };
            exists|d1: Seq<DiagnosticV>, r1: FatalResult<Option<usize>>|
                {
                    &&& #[trigger] step_split(d1, r1)
                    &&& prefix_resolves(
                        tbl,
                        reg,
                        prefix.pos,
                        prefix.item,
                        p2.item,
                        d1,
                        r1,
                    )
                    &&& match r1 {
                        Err(f) => s2 == cleared && ds == d1 && r == Err::<
                            Option<NamedEntities>,
                            FatalError,
                        >(f),
                        Ok(None) => s2 == cleared && ds == d1 && r == Ok::<
                            Option<NamedEntities>,
                            FatalError,
                        >(None),
                        Ok(Some(ent)) => match lookup_selected_spec(tbl, prefix.pos, ent, cleared) {
                            SelectedLookup::Found(visible) => s2 == (WithPos {
                                item: suffix.item.with_reference(visible),
                                pos: suffix.pos,
                            }) && ds == d1 && r == Ok::<Option<NamedEntities>, FatalError>(
                                Some(visible),
                            ),
                            SelectedLookup::Silent => s2 == cleared && ds == d1 && r == Ok::<
                                Option<NamedEntities>,
                                FatalError,
                            >(None),
                            SelectedLookup::Local(d) => s2 == cleared && ds == d1.push(d) && r
                                == Ok::<Option<NamedEntities>, FatalError>(None),
                            SelectedLookup::Fatal(f) => s2 == cleared && ds == d1 && r == Err::<
                                Option<NamedEntities>,
                                FatalError,
                            >(f),
                        },
                    }
                }
        },
        Name::SelectedAll(prefix) => n matches Name::SelectedAll(p2) && p2.pos == prefix.pos
            && exists|d1: Seq<DiagnosticV>, r1: FatalResult<Option<usize>>|
            {
                &&& #[trigger] step_split(d1, r1)
                &&& prefix_resolves(tbl, reg, prefix.pos, prefix.item, p2.item, d1, r1)
                &&& ds == d1
                &&& match r1 {
                    Err(f) => r == Err::<Option<NamedEntities>, FatalError>(f),
                    Ok(_) => r == Ok::<Option<NamedEntities>, FatalError>(None),
                }
            },
        Name::Indexed(prefix, exprs) => n matches Name::Indexed(p2, ex2) && p2.pos == prefix.pos
            && exists|d1: Seq<DiagnosticV>, r1: FatalResult<Option<NamedEntities>>|
            {
                &&& #[trigger] step_split(d1, r1)
                &&& name_resolves(
                    tbl,
                    reg,
                    prefix.pos,
                    prefix.item,
                    p2.item,
                    d1,
                    r1,
                )
                &&& match r1 {
                    Err(f) => ex2@ == exprs@ && ds == d1 && r == Err::<
                        Option<NamedEntities>,
                        FatalError,
                    >(f),
                    Ok(_) => exists|d2: Seq<DiagnosticV>, r2: FatalResult<()>|
                        {
                            &&& #[trigger] step_split(d2, r2)
                            &&& exprs_resolve(tbl, reg, exprs@, ex2@, d2, r2)
                            &&& ds == d1 + d2
                            &&& match r2 {
                                Err(f) => r == Err::<Option<NamedEntities>, FatalError>(f),
                                Ok(_) => r == Ok::<Option<NamedEntities>, FatalError>(None),
                            }
                        },
                }
            },
        Name::Slice(prefix, drange) => n matches Name::Slice(p2, dr2) && p2.pos == prefix.pos
            && exists|d1: Seq<DiagnosticV>, r1: FatalResult<Option<NamedEntities>>|
            {
                &&& #[trigger] step_split(d1, r1)
                &&& name_resolves(
                    tbl,
                    reg,
                    prefix.pos,
                    prefix.item,
                    p2.item,
                    d1,
                    r1,
                )
                &&& match r1 {
                    Err(f) => *dr2 == *drange && ds == d1 && r == Err::<
                        Option<NamedEntities>,
                        FatalError,
                    >(f),
                    Ok(_) => exists|d2: Seq<DiagnosticV>, r2: FatalResult<()>|
                        {
                            &&& #[trigger] step_split(d2, r2)
                            &&& drange_resolves(tbl, reg, *drange, *dr2, d2, r2)
                            &&& ds == d1 + d2
                            &&& match r2 {
                                Err(f) => r == Err::<Option<NamedEntities>, FatalError>(f),
                                Ok(_) => r == Ok::<Option<NamedEntities>, FatalError>(None),
                            }
                        },
                }
            },
        Name::Attribute(attr) => n matches Name::Attribute(a2) && exists|
            d1: Seq<DiagnosticV>,
            r1: FatalResult<()>,
        |
            {
                &&& #[trigger] step_split(d1, r1)
                &&& attr_resolves(tbl, reg, *attr, *a2, d1, r1)
                &&& ds == d1
                &&& match r1 {
                    Err(f) => r == Err::<Option<NamedEntities>, FatalError>(f),
                    Ok(_) => r == Ok::<Option<NamedEntities>, FatalError>(None),
                }
            },
        Name::FunctionCall(fcall) => n matches Name::FunctionCall(f2) && exists|
            d1: Seq<DiagnosticV>,
            r1: FatalResult<()>,
        |
            {
                &&& #[trigger] step_split(d1, r1)
                &&& fcall_resolves(tbl, reg, *fcall, *f2, d1, r1)
                &&& ds == d1
                &&& match r1 {
                    Err(f) => r == Err::<Option<NamedEntities>, FatalError>(f),
                    Ok(_) => r == Ok::<Option<NamedEntities>, FatalError>(None),
                }
            },
        Name::External(ename) => n matches Name::External(e2) && {
            let (st2, d1, fat) = subtype_indication_step(tbl, reg, ename.subtype);
            e2.subtype == st2 && ds == d1 && match fat {
                Some(f) => r == Err::<Option<NamedEntities>, FatalError>(f),
                None => r == Ok::<Option<NamedEntities>, FatalError>(None),
            }
        },
    }
}

/// Resolution of a name standing as the prefix of a selected name: it must
/// denote one non-overloaded entity; an overloaded set is reported and the
/// prefix yields nothing.
#[verifier::opaque]
pub open spec fn prefix_resolves(
    tbl: SymbolTable,
    reg: Region,
    prefix_pos: Pos,
    o: Name,
    n: Name,
    ds: Seq<DiagnosticV>,
    r: FatalResult<Option<usize>>,
) -> bool
    decreases o, 2int,
{
    exists|d1: Seq<DiagnosticV>, r1: FatalResult<Option<NamedEntities>>|
        {
            &&& #[trigger] step_split(d1, r1)
            &&& name_resolves(tbl, reg, prefix_pos, o, n, d1, r1)
            &&& match r1 {
                Err(f) => ds == d1 && r == Err::<Option<usize>, FatalError>(f),
                Ok(None) => ds == d1 && r == Ok::<Option<usize>, FatalError>(None),
                Ok(Some(ents)) => match ents {
                    NamedEntities::Single(ent) => ds == d1 && r == Ok::<Option<usize>, FatalError>(
                        Some(ent),
                    ),
                    NamedEntities::Overloaded(ov) => ds == d1.push(
                        dv_overloaded_prefix(prefix_pos, ov.designator),
                    ) && r == Ok::<Option<usize>, FatalError>(None),
                },
            }
        }
}

/// Analysis of one expression (with the position of its node).
#[verifier::opaque]
pub open spec fn expr_resolves(
    tbl: SymbolTable,
    reg: Region,
    pos: Pos,
    o: Expression,
    n: Expression,
    ds: Seq<DiagnosticV>,
    r: FatalResult<()>,
) -> bool
    decreases o, 1int,
{
    match o {
        Expression::Binary(op, left, right) => n matches Expression::Binary(op2, l2, r2) && op2
            == op && exists|d1: Seq<DiagnosticV>, r1: FatalResult<()>|
            {
                &&& #[trigger] step_split(d1, r1)
                &&& wexpr_resolves(tbl, reg, *left, *l2, d1, r1)
                &&& match r1 {
                    Err(f) => *r2 == *right && ds == d1 && r == Err::<(), FatalError>(f),
                    Ok(_) => exists|d2: Seq<DiagnosticV>, r2r: FatalResult<()>|
                        {
                            &&& #[trigger] step_split(d2, r2r)
                            &&& wexpr_resolves(tbl, reg, *right, *r2, d2, r2r)
                            &&& ds == d1 + d2
                            &&& r == r2r
                        },
                }
            },
        Expression::Unary(op, inner) => n matches Expression::Unary(op2, i2) && op2 == op && exists|
            d1: Seq<DiagnosticV>,
            r1: FatalResult<()>,
        |
            {
                &&& #[trigger] step_split(d1, r1)
                &&& wexpr_resolves(tbl, reg, *inner, *i2, d1, r1)
                &&& ds == d1
                &&& r == r1
            },
        Expression::Name(nm) => n matches Expression::Name(n2) && exists|
            d1: Seq<DiagnosticV>,
            r1: FatalResult<Option<NamedEntities>>,
        |
            {
                &&& #[trigger] step_split(d1, r1)
                &&& name_resolves(tbl, reg, pos, *nm, *n2, d1, r1)
                &&& ds == d1
                &&& match r1 {
                    Err(f) => r == Err::<(), FatalError>(f),
                    Ok(_) => r == Ok::<(), FatalError>(()),
                }
            },
        Expression::Aggregate(assocs) => n matches Expression::Aggregate(a2) && aggregate_resolves(
            tbl,
            reg,
            assocs@,
            a2@,
            ds,
            r,
        ),
        Expression::Qualified(q) => n matches Expression::Qualified(q2) && qexpr_resolves(
            tbl,
            reg,
            *q,
            *q2,
            ds,
            r,
        ),
        Expression::New(alloc) => n matches Expression::New(al2) && al2.pos == alloc.pos && match (
        alloc.item) {
            Allocator::Qualified(q) => al2.item matches Allocator::Qualified(q2) && qexpr_resolves(
                tbl,
                reg,
                q,
                q2,
                ds,
                r,
            ),
            Allocator::Subtype(st) => al2.item matches Allocator::Subtype(st2) && {
                let (st_n, d1, fat) = subtype_indication_step(tbl, reg, st);
                st2 == st_n && ds == d1 && match fat {
                    Some(f) => r == Err::<(), FatalError>(f),
                    None => r == Ok::<(), FatalError>(()),
                }
            },
        },
        Expression::Literal(_) => n == o && ds == Seq::<DiagnosticV>::empty() && r == Ok::<
            (),
            FatalError,
        >(()),
    }
}

/// Analysis of a positioned expression.
#[verifier::opaque]
pub open spec fn wexpr_resolves(
    tbl: SymbolTable,
    reg: Region,
    o: WithPos<Expression>,
    n: WithPos<Expression>,
    ds: Seq<DiagnosticV>,
    r: FatalResult<()>,
) -> bool
    decreases o, 2int,
{
    n.pos == o.pos && expr_resolves(tbl, reg, o.pos, o.item, n.item, ds, r)
}

/// All expressions of a list analyzed, in order, none fatally.
#[verifier::opaque]
pub open spec fn exprs_resolve_ok(
    tbl: SymbolTable,
    reg: Region,
    s_o: Seq<WithPos<Expression>>,
    s_n: Seq<WithPos<Expression>>,
    ds: Seq<DiagnosticV>,
) -> bool
    decreases s_o, 0int,
{
    if s_o.len() == 0 {
        s_n.len() == 0 && ds == Seq::<DiagnosticV>::empty()
    } else {
        s_n.len() == s_o.len() && exists|d1: Seq<DiagnosticV>, d2: Seq<DiagnosticV>|
            {
                &&& #[trigger] diag_split(d1, d2)
                &&& exprs_resolve_ok(tbl, reg, s_o.drop_last(), s_n.drop_last(), d1)
                &&& wexpr_resolves(tbl, reg, s_o.last(), s_n.last(), d2, Ok::<(), FatalError>(()))
                &&& ds == d1 + d2
            }
    }
}

/// A list walk that stopped at the first fatal element.
#[verifier::opaque]
pub open spec fn exprs_resolve(
    tbl: SymbolTable,
    reg: Region,
    s_o: Seq<WithPos<Expression>>,
    s_n: Seq<WithPos<Expression>>,
    ds: Seq<DiagnosticV>,
    r: FatalResult<()>,
) -> bool
    decreases s_o, 1int,
{
    match r {
        Ok(_) => exprs_resolve_ok(tbl, reg, s_o, s_n, ds),
        Err(f) => exists|k: int, d1: Seq<DiagnosticV>, d2: Seq<DiagnosticV>|
            {
                &&& #[trigger] diag_split_at(k, d1, d2)
                &&& 0 <= k < s_o.len()
                &&& s_n.len() == s_o.len()
                &&& exprs_resolve_ok(
                    tbl,
                    reg,
                    s_o.subrange(0, k),
                    s_n.subrange(0, k),
                    d1,
                )
                &&& wexpr_resolves(tbl, reg, s_o[k], s_n[k], d2, Err::<(), FatalError>(f))
                &&& ds == d1 + d2
                &&& forall|j: int| k < j < s_o.len() ==> s_n[j] == s_o[j]
            },
    }
}

/// One aggregate element association: named choices are analyzed only where
/// they are discrete ranges (an expression choice may be a record field name,
/// deferred), then the associated expression.
#[verifier::opaque]
pub open spec fn agg_choice_resolves(
    tbl: SymbolTable,
    reg: Region,
    o: Choice,
    n: Choice,
    ds: Seq<DiagnosticV>,
    r: FatalResult<()>,
) -> bool
    decreases o, 1int,
{
    match o {
        Choice::Expression(_) => n == o && ds == Seq::<DiagnosticV>::empty() && r == Ok::<
            (),
            FatalError,
        >(()),
        Choice::DiscreteRange(dr) => n matches Choice::DiscreteRange(dr2) && drange_resolves(
            tbl,
            reg,
            dr,
            dr2,
            ds,
            r,
        ),
        Choice::Others => n == o && ds == Seq::<DiagnosticV>::empty() && r == Ok::<
            (),
            FatalError,
        >(()),
    }
}

#[verifier::opaque]
pub open spec fn agg_choices_resolve_ok(
    tbl: SymbolTable,
    reg: Region,
    s_o: Seq<Choice>,
    s_n: Seq<Choice>,
    ds: Seq<DiagnosticV>,
) -> bool
    decreases s_o, 2int,
{
    if s_o.len() == 0 {
        s_n.len() == 0 && ds == Seq::<DiagnosticV>::empty()
    } else {
        s_n.len() == s_o.len() && exists|d1: Seq<DiagnosticV>, d2: Seq<DiagnosticV>|
            {
                &&& #[trigger] diag_split(d1, d2)
                &&& agg_choices_resolve_ok(
                    tbl,
                    reg,
                    s_o.drop_last(),
                    s_n.drop_last(),
                    d1,
                )
                &&& agg_choice_resolves(
                    tbl,
                    reg,
                    s_o.last(),
                    s_n.last(),
                    d2,
                    Ok::<(), FatalError>(()),
                )
                &&& ds == d1 + d2
            }
    }
}

#[verifier::opaque]
pub open spec fn agg_choices_resolve(
    tbl: SymbolTable,
    reg: Region,
    s_o: Seq<Choice>,
    s_n: Seq<Choice>,
    ds: Seq<DiagnosticV>,
    r: FatalResult<()>,
) -> bool
    decreases s_o, 3int,
{
    match r {
        Ok(_) => agg_choices_resolve_ok(tbl, reg, s_o, s_n, ds),
        Err(f) => exists|k: int, d1: Seq<DiagnosticV>, d2: Seq<DiagnosticV>|
            {
                &&& #[trigger] diag_split_at(k, d1, d2)
                &&& 0 <= k < s_o.len()
                &&& s_n.len() == s_o.len()
                &&& agg_choices_resolve_ok(
                    tbl,
                    reg,
                    s_o.subrange(0, k),
                    s_n.subrange(0, k),
                    d1,
                )
                &&& agg_choice_resolves(tbl, reg, s_o[k], s_n[k], d2, Err::<(), FatalError>(f))
                &&& ds == d1 + d2
                &&& forall|j: int| k < j < s_o.len() ==> s_n[j] == s_o[j]
            },
    }
}

/// One element association of an aggregate.
#[verifier::opaque]
pub open spec fn assoc_resolves(
    tbl: SymbolTable,
    reg: Region,
    o: ElementAssociation,
    n: ElementAssociation,
    ds: Seq<DiagnosticV>,
    r: FatalResult<()>,
) -> bool
    decreases o, 4int,
{
    match o {
        ElementAssociation::Positional(e) => n matches ElementAssociation::Positional(e2)
            && wexpr_resolves(tbl, reg, e, e2, ds, r),
        ElementAssociation::Named(choices, e) => n matches ElementAssociation::Named(c2, e2)
            && exists|d1: Seq<DiagnosticV>, r1: FatalResult<()>|
            {
                &&& #[trigger] step_split(d1, r1)
                &&& agg_choices_resolve(tbl, reg, choices@, c2@, d1, r1)
                &&& match r1 {
                    Err(f) => e2 == e && ds == d1 && r == Err::<(), FatalError>(f),
                    Ok(_) => exists|d2: Seq<DiagnosticV>, r2: FatalResult<()>|
                        {
                            &&& #[trigger] step_split(d2, r2)
                            &&& wexpr_resolves(tbl, reg, e, e2, d2, r2)
                            &&& ds == d1 + d2
                            &&& r == r2
                        },
                }
            },
    }
}

#[verifier::opaque]
pub open spec fn aggregate_resolves_ok(
    tbl: SymbolTable,
    reg: Region,
    s_o: Seq<ElementAssociation>,
    s_n: Seq<ElementAssociation>,
    ds: Seq<DiagnosticV>,
) -> bool
    decreases s_o, 5int,
{
    if s_o.len() == 0 {
        s_n.len() == 0 && ds == Seq::<DiagnosticV>::empty()
    } else {
        s_n.len() == s_o.len() && exists|d1: Seq<DiagnosticV>, d2: Seq<DiagnosticV>|
            {
                &&& #[trigger] diag_split(d1, d2)
                &&& aggregate_resolves_ok(tbl, reg, s_o.drop_last(), s_n.drop_last(), d1)
                &&& assoc_resolves(tbl, reg, s_o.last(), s_n.last(), d2, Ok::<(), FatalError>(()))
                &&& ds == d1 + d2
            }
    }
}

/// Analysis of a whole aggregate.
#[verifier::opaque]
pub open spec fn aggregate_resolves(
    tbl: SymbolTable,
    reg: Region,
    s_o: Seq<ElementAssociation>,
    s_n: Seq<ElementAssociation>,
    ds: Seq<DiagnosticV>,
    r: FatalResult<()>,
) -> bool
    decreases s_o, 6int,
{
    match r {
        Ok(_) => aggregate_resolves_ok(tbl, reg, s_o, s_n, ds),
        Err(f) => exists|k: int, d1: Seq<DiagnosticV>, d2: Seq<DiagnosticV>|
            {
                &&& #[trigger] diag_split_at(k, d1, d2)
                &&& 0 <= k < s_o.len()
                &&& s_n.len() == s_o.len()
                &&& aggregate_resolves_ok(
                    tbl,
                    reg,
                    s_o.subrange(0, k),
                    s_n.subrange(0, k),
                    d1,
                )
                &&& assoc_resolves(tbl, reg, s_o[k], s_n[k], d2, Err::<(), FatalError>(f))
                &&& ds == d1 + d2
                &&& forall|j: int| k < j < s_o.len() ==> s_n[j] == s_o[j]
            },
    }
}

/// A qualified expression: the type-mark name, then the inner expression.
#[verifier::opaque]
pub open spec fn qexpr_resolves(
    tbl: SymbolTable,
    reg: Region,
    o: QualifiedExpression,
    n: QualifiedExpression,
    ds: Seq<DiagnosticV>,
    r: FatalResult<()>,
) -> bool
    decreases o, 7int,
{
    n.name.pos == o.name.pos && exists|d1: Seq<DiagnosticV>, r1: FatalResult<Option<NamedEntities>>|
        {
            &&& #[trigger] step_split(d1, r1)
            &&& name_resolves(
                tbl,
                reg,
                o.name.pos,
                o.name.item,
                n.name.item,
                d1,
                r1,
            )
            &&& match r1 {
                Err(f) => n.expr == o.expr && ds == d1 && r == Err::<(), FatalError>(f),
                Ok(_) => exists|d2: Seq<DiagnosticV>, r2: FatalResult<()>|
                    {
                        &&& #[trigger] step_split(d2, r2)
                        &&& wexpr_resolves(tbl, reg, o.expr, n.expr, d2, r2)
                        &&& ds == d1 + d2
                        &&& r == r2
                    },
            }
        }
}

/// A range: both bounds, or an attribute name.
#[verifier::opaque]
pub open spec fn range_resolves(
    tbl: SymbolTable,
    reg: Region,
    o: Range,
    n: Range,
    ds: Seq<DiagnosticV>,
    r: FatalResult<()>,
) -> bool
    decreases o, 8int,
{
    match o {
        Range::Range(constraint) => n matches Range::Range(c2) && exists|
            d1: Seq<DiagnosticV>,
            r1: FatalResult<()>,
        |
            {
                &&& #[trigger] step_split(d1, r1)
                &&& wexpr_resolves(tbl, reg, *constraint.left_expr, *c2.left_expr, d1, r1)
                &&& match r1 {
                    Err(f) => *c2.right_expr == *constraint.right_expr && ds == d1 && r == Err::<
                        (),
                        FatalError,
                    >(f),
                    Ok(_) => exists|d2: Seq<DiagnosticV>, r2: FatalResult<()>|
                        {
                            &&& #[trigger] step_split(d2, r2)
                            &&& wexpr_resolves(
                                tbl,
                                reg,
                                *constraint.right_expr,
                                *c2.right_expr,
                                d2,
                                r2,
                            )
                            &&& ds == d1 + d2
                            &&& r == r2
                        },
                }
            },
        Range::Attribute(attr) => n matches Range::Attribute(a2) && attr_resolves(
            tbl,
            reg,
            *attr,
            *a2,
            ds,
            r,
        ),
    }
}

/// A discrete range: a type mark (resolved locally, failures reported in
/// place) with an optional range, or a plain range.
#[verifier::opaque]
pub open spec fn drange_resolves(
    tbl: SymbolTable,
    reg: Region,
    o: DiscreteRange,
    n: DiscreteRange,
    ds: Seq<DiagnosticV>,
    r: FatalResult<()>,
) -> bool
    decreases o, 9int,
{
    match o {
        DiscreteRange::Discrete(mark, orange) => n matches DiscreteRange::Discrete(m2, or2) && {
            let (mark2, tmo) = type_mark_spec(tbl, reg, mark);
            m2 == mark2 && match tmo {
                EntityOutcome::Fatal(f) => or2 == orange && ds == Seq::<DiagnosticV>::empty() && r
                    == Err::<(), FatalError>(f),
                _ => {
                    let d1: Seq<DiagnosticV> = match tmo {
                        EntityOutcome::Local(d) => seq![d],
                        _ => Seq::<DiagnosticV>::empty(),
                    };
                    match orange {
                        Some(rg) => or2 matches Some(rg2) && exists|
                            d2: Seq<DiagnosticV>,
                            r2: FatalResult<()>,
                        |
                            {
                                &&& #[trigger] step_split(d2, r2)
                                &&& range_resolves(tbl, reg, rg, rg2, d2, r2)
                                &&& ds == d1 + d2
                                &&& r == r2
                            },
                        None => or2 is None && ds == d1 && r == Ok::<(), FatalError>(()),
                    }
                },
            }
        },
        DiscreteRange::Range(rg) => n matches DiscreteRange::Range(rg2) && range_resolves(
            tbl,
            reg,
            rg,
            rg2,
            ds,
            r,
        ),
    }
}

/// An attribute name: its name is resolved with the full selected-name
/// machinery; a signature failure is absorbed locally; the optional argument
/// expression is analyzed as an ordinary expression.  Whether the attribute
/// itself is legal for the prefix is deliberately not checked.
#[verifier::opaque]
pub open spec fn attr_resolves(
    tbl: SymbolTable,
    reg: Region,
    o: AttributeName,
    n: AttributeName,
    ds: Seq<DiagnosticV>,
    r: FatalResult<()>,
) -> bool
    decreases o, 10int,
{
    n.name.pos == o.name.pos && n.attr == o.attr && exists|
        d1: Seq<DiagnosticV>,
        r1: FatalResult<Option<NamedEntities>>,
    |
        {
            &&& #[trigger] step_split(d1, r1)
            &&& name_resolves(tbl, reg, o.name.pos, o.name.item, n.name.item, d1, r1)
            &&& match r1 {
                Err(f) => n.signature == o.signature && n.expr == o.expr && ds == d1 && r == Err::<
                    (),
                    FatalError,
                >(f),
                Ok(_) => match o.signature {
                    Some(sig) => n.signature matches Some(sig2) && {
                        let (marks2, so) = signature_marks_spec(tbl, reg, sig.type_marks@);
                        sig2.type_marks@ == marks2 && match so {
                            SignatureOutcome::Fatal(f) => n.expr == o.expr && ds == d1 && r
                                == Err::<(), FatalError>(f),
                            _ => {
                                let d2: Seq<DiagnosticV> = match so {
                                    SignatureOutcome::Local(d) => seq![d],
                                    _ => Seq::<DiagnosticV>::empty(),
                                };
                                exists|d3: Seq<DiagnosticV>, r3: FatalResult<()>|
                                    {
                                        &&& #[trigger] step_split(d3, r3)
                                        &&& attr_expr_resolves(tbl, reg, o.expr, n.expr, d3, r3)
                                        &&& ds == d1 + d2 + d3
                                        &&& r == r3
                                    }
                            },
                        }
                    },
                    None => n.signature is None && exists|d3: Seq<DiagnosticV>, r3: FatalResult<()>|
                        {
                            &&& #[trigger] step_split(d3, r3)
                            &&& attr_expr_resolves(tbl, reg, o.expr, n.expr, d3, r3)
                            &&& ds == d1 + d3
                            &&& r == r3
                        },
                },
            }
        }
}

/// One association-list actual: a non-open actual's expression is analyzed at
/// the actual's position; an open actual is a no-op.  Formals are untouched.
#[verifier::opaque]
pub open spec fn assoc_el_resolves(
    tbl: SymbolTable,
    reg: Region,
    o: AssociationElement,
    n: AssociationElement,
    ds: Seq<DiagnosticV>,
    r: FatalResult<()>,
) -> bool
    decreases o, 11int,
{
    n.formal == o.formal && n.actual.pos == o.actual.pos && match o.actual.item {
        ActualPart::Expression(e) => n.actual.item matches ActualPart::Expression(e2)
            && expr_resolves(tbl, reg, o.actual.pos, e, e2, ds, r),
        ActualPart::Open => n.actual.item is Open && ds == Seq::<DiagnosticV>::empty() && r
            == Ok::<(), FatalError>(()),
    }
}

#[verifier::opaque]
pub open spec fn assocs_resolve_ok(
    tbl: SymbolTable,
    reg: Region,
    s_o: Seq<AssociationElement>,
    s_n: Seq<AssociationElement>,
    ds: Seq<DiagnosticV>,
) -> bool
    decreases s_o, 12int,
{
    if s_o.len() == 0 {
        s_n.len() == 0 && ds == Seq::<DiagnosticV>::empty()
    } else {
        s_n.len() == s_o.len() && exists|d1: Seq<DiagnosticV>, d2: Seq<DiagnosticV>|
            {
                &&& #[trigger] diag_split(d1, d2)
                &&& assocs_resolve_ok(tbl, reg, s_o.drop_last(), s_n.drop_last(), d1)
                &&& assoc_el_resolves(
                    tbl,
                    reg,
                    s_o.last(),
                    s_n.last(),
                    d2,
                    Ok::<(), FatalError>(()),
                )
                &&& ds == d1 + d2
            }
    }
}

#[verifier::opaque]
pub open spec fn assocs_resolve(
    tbl: SymbolTable,
    reg: Region,
    s_o: Seq<AssociationElement>,
    s_n: Seq<AssociationElement>,
    ds: Seq<DiagnosticV>,
    r: FatalResult<()>,
) -> bool
    decreases s_o, 13int,
{
    match r {
        Ok(_) => assocs_resolve_ok(tbl, reg, s_o, s_n, ds),
        Err(f) => exists|k: int, d1: Seq<DiagnosticV>, d2: Seq<DiagnosticV>|
            {
                &&& #[trigger] diag_split_at(k, d1, d2)
                &&& 0 <= k < s_o.len()
                &&& s_n.len() == s_o.len()
                &&& assocs_resolve_ok(
                    tbl,
                    reg,
                    s_o.subrange(0, k),
                    s_n.subrange(0, k),
                    d1,
                )
                &&& assoc_el_resolves(tbl, reg, s_o[k], s_n[k], d2, Err::<(), FatalError>(f))
                &&& ds == d1 + d2
                &&& forall|j: int| k < j < s_o.len() ==> s_n[j] == s_o[j]
            },
    }
}

/// A function call: the callee name, then the actuals.
#[verifier::opaque]
pub open spec fn fcall_resolves(
    tbl: SymbolTable,
    reg: Region,
    o: FunctionCall,
    n: FunctionCall,
    ds: Seq<DiagnosticV>,
    r: FatalResult<()>,
) -> bool
    decreases o, 14int,
{
    n.name.pos == o.name.pos && exists|d1: Seq<DiagnosticV>, r1: FatalResult<Option<NamedEntities>>|
        {
            &&& #[trigger] step_split(d1, r1)
            &&& name_resolves(tbl, reg, o.name.pos, o.name.item, n.name.item, d1, r1)
            &&& match r1 {
                Err(f) => n.parameters@ == o.parameters@ && ds == d1 && r == Err::<
                    (),
                    FatalError,
                >(f),
                Ok(_) => exists|d2: Seq<DiagnosticV>, r2: FatalResult<()>|
                    {
                        &&& #[trigger] step_split(d2, r2)
                        &&& assocs_resolve(tbl, reg, o.parameters@, n.parameters@, d2, r2)
                        &&& ds == d1 + d2
                        &&& r == r2
                    },
            }
        }
}

/// One waveform element: the value, then the optional delay.
#[verifier::opaque]
pub open spec fn welem_resolves(
    tbl: SymbolTable,
    reg: Region,
    o: WaveformElement,
    n: WaveformElement,
    ds: Seq<DiagnosticV>,
    r: FatalResult<()>,
) -> bool
    decreases o, 15int,
{
    exists|d1: Seq<DiagnosticV>, r1: FatalResult<()>|
        {
            &&& #[trigger] step_split(d1, r1)
            &&& wexpr_resolves(tbl, reg, o.value, n.value, d1, r1)
            &&& match r1 {
                Err(f) => n.after == o.after && ds == d1 && r == Err::<(), FatalError>(f),
                Ok(_) => match o.after {
                    Some(a) => n.after matches Some(a2) && exists|
                        d2: Seq<DiagnosticV>,
                        r2: FatalResult<()>,
                    |
                        {
                            &&& #[trigger] step_split(d2, r2)
                            &&& wexpr_resolves(tbl, reg, a, a2, d2, r2)
                            &&& ds == d1 + d2
                            &&& r == r2
                        },
                    None => n.after is None && ds == d1 && r == Ok::<(), FatalError>(()),
                },
            }
        }
}

#[verifier::opaque]
pub open spec fn welems_resolve_ok(
    tbl: SymbolTable,
    reg: Region,
    s_o: Seq<WaveformElement>,
    s_n: Seq<WaveformElement>,
    ds: Seq<DiagnosticV>,
) -> bool
    decreases s_o, 16int,
{
    if s_o.len() == 0 {
        s_n.len() == 0 && ds == Seq::<DiagnosticV>::empty()
    } else {
        s_n.len() == s_o.len() && exists|d1: Seq<DiagnosticV>, d2: Seq<DiagnosticV>|
            {
                &&& #[trigger] diag_split(d1, d2)
                &&& welems_resolve_ok(tbl, reg, s_o.drop_last(), s_n.drop_last(), d1)
                &&& welem_resolves(tbl, reg, s_o.last(), s_n.last(), d2, Ok::<(), FatalError>(()))
                &&& ds == d1 + d2
            }
    }
}

#[verifier::opaque]
pub open spec fn welems_resolve(
    tbl: SymbolTable,
    reg: Region,
    s_o: Seq<WaveformElement>,
    s_n: Seq<WaveformElement>,
    ds: Seq<DiagnosticV>,
    r: FatalResult<()>,
) -> bool
    decreases s_o, 17int,
{
    match r {
        Ok(_) => welems_resolve_ok(tbl, reg, s_o, s_n, ds),
        Err(f) => exists|k: int, d1: Seq<DiagnosticV>, d2: Seq<DiagnosticV>|
            {
                &&& #[trigger] diag_split_at(k, d1, d2)
                &&& 0 <= k < s_o.len()
                &&& s_n.len() == s_o.len()
                &&& welems_resolve_ok(
                    tbl,
                    reg,
                    s_o.subrange(0, k),
                    s_n.subrange(0, k),
                    d1,
                )
                &&& welem_resolves(tbl, reg, s_o[k], s_n[k], d2, Err::<(), FatalError>(f))
                &&& ds == d1 + d2
                &&& forall|j: int| k < j < s_o.len() ==> s_n[j] == s_o[j]
            },
    }
}

/// A waveform: each element analyzed in order; `unaffected` is a no-op.
#[verifier::opaque]
pub open spec fn waveform_resolves(
    tbl: SymbolTable,
    reg: Region,
    o: Waveform,
    n: Waveform,
    ds: Seq<DiagnosticV>,
    r: FatalResult<()>,
) -> bool
    decreases o, 18int,
{
    match o {
        Waveform::Elements(elems) => n matches Waveform::Elements(e2) && welems_resolve(
            tbl,
            reg,
            elems@,
            e2@,
            ds,
            r,
        ),
        Waveform::Unaffected => n == o && ds == Seq::<DiagnosticV>::empty() && r == Ok::<
            (),
            FatalError,
        >(()),
    }
}

/// One choice in a context with full type information: an expression choice
/// is analyzed as an expression.
#[verifier::opaque]
pub open spec fn choice_resolves(
    tbl: SymbolTable,
    reg: Region,
    o: Choice,
    n: Choice,
    ds: Seq<DiagnosticV>,
    r: FatalResult<()>,
) -> bool
    decreases o, 19int,
{
    match o {
        Choice::Expression(e) => n matches Choice::Expression(e2) && wexpr_resolves(
            tbl,
            reg,
            e,
            e2,
            ds,
            r,
        ),
        Choice::DiscreteRange(dr) => n matches Choice::DiscreteRange(dr2) && drange_resolves(
            tbl,
            reg,
            dr,
            dr2,
            ds,
            r,
        ),
        Choice::Others => n == o && ds == Seq::<DiagnosticV>::empty() && r == Ok::<
            (),
            FatalError,
        >(()),
    }
}

#[verifier::opaque]
pub open spec fn choices_resolve_ok(
    tbl: SymbolTable,
    reg: Region,
    s_o: Seq<Choice>,
    s_n: Seq<Choice>,
    ds: Seq<DiagnosticV>,
) -> bool
    decreases s_o, 20int,
{
    if s_o.len() == 0 {
        s_n.len() == 0 && ds == Seq::<DiagnosticV>::empty()
    } else {
        s_n.len() == s_o.len() && exists|d1: Seq<DiagnosticV>, d2: Seq<DiagnosticV>|
            {
                &&& #[trigger] diag_split(d1, d2)
                &&& choices_resolve_ok(tbl, reg, s_o.drop_last(), s_n.drop_last(), d1)
                &&& choice_resolves(tbl, reg, s_o.last(), s_n.last(), d2, Ok::<(), FatalError>(()))
                &&& ds == d1 + d2
            }
    }
}

#[verifier::opaque]
pub open spec fn choices_resolve(
    tbl: SymbolTable,
    reg: Region,
    s_o: Seq<Choice>,
    s_n: Seq<Choice>,
    ds: Seq<DiagnosticV>,
    r: FatalResult<()>,
) -> bool
    decreases s_o, 21int,
{
    match r {
        Ok(_) => choices_resolve_ok(tbl, reg, s_o, s_n, ds),
        Err(f) => exists|k: int, d1: Seq<DiagnosticV>, d2: Seq<DiagnosticV>|
            {
                &&& #[trigger] diag_split_at(k, d1, d2)
                &&& 0 <= k < s_o.len()
                &&& s_n.len() == s_o.len()
                &&& choices_resolve_ok(
                    tbl,
                    reg,
                    s_o.subrange(0, k),
                    s_n.subrange(0, k),
                    d1,
                )
                &&& choice_resolves(tbl, reg, s_o[k], s_n[k], d2, Err::<(), FatalError>(f))
                &&& ds == d1 + d2
                &&& forall|j: int| k < j < s_o.len() ==> s_n[j] == s_o[j]
            },
    }
}

/// An assignment target: a name is resolved for its binding; an aggregate
/// target is analyzed as an aggregate.
#[verifier::opaque]
pub open spec fn target_resolves(
    tbl: SymbolTable,
    reg: Region,
    o: WithPos<Target>,
    n: WithPos<Target>,
    ds: Seq<DiagnosticV>,
    r: FatalResult<()>,
) -> bool
    decreases o, 22int,
{
    n.pos == o.pos && match o.item {
        Target::Name(nm) => n.item matches Target::Name(nm2) && exists|
            d1: Seq<DiagnosticV>,
            r1: FatalResult<Option<NamedEntities>>,
        |
            {
                &&& #[trigger] step_split(d1, r1)
                &&& name_resolves(tbl, reg, o.pos, nm, nm2, d1, r1)
                &&& ds == d1
                &&& match r1 {
                    Err(f) => r == Err::<(), FatalError>(f),
                    Ok(_) => r == Ok::<(), FatalError>(()),
                }
            },
        Target::Aggregate(assocs) => n.item matches Target::Aggregate(a2) && aggregate_resolves(
            tbl,
            reg,
            assocs@,
            a2@,
            ds,
            r,
        ),
    }
}

/// One conditional of an expression assignment: the value is analyzed before
/// the condition, matching their order in the source.
#[verifier::opaque]
pub open spec fn cond_expr_resolves(
    tbl: SymbolTable,
    reg: Region,
    o: Conditional<WithPos<Expression>>,
    n: Conditional<WithPos<Expression>>,
    ds: Seq<DiagnosticV>,
    r: FatalResult<()>,
) -> bool
    decreases o, 23int,
{
    exists|d1: Seq<DiagnosticV>, r1: FatalResult<()>|
        {
            &&& #[trigger] step_split(d1, r1)
            &&& wexpr_resolves(tbl, reg, o.item, n.item, d1, r1)
            &&& match r1 {
                Err(f) => n.condition == o.condition && ds == d1 && r == Err::<(), FatalError>(f),
                Ok(_) => exists|d2: Seq<DiagnosticV>, r2: FatalResult<()>|
                    {
                        &&& #[trigger] step_split(d2, r2)
                        &&& wexpr_resolves(tbl, reg, o.condition, n.condition, d2, r2)
                        &&& ds == d1 + d2
                        &&& r == r2
                    },
            }
        }
}

#[verifier::opaque]
pub open spec fn conds_expr_resolve_ok(
    tbl: SymbolTable,
    reg: Region,
    s_o: Seq<Conditional<WithPos<Expression>>>,
    s_n: Seq<Conditional<WithPos<Expression>>>,
    ds: Seq<DiagnosticV>,
) -> bool
    decreases s_o, 24int,
{
    if s_o.len() == 0 {
        s_n.len() == 0 && ds == Seq::<DiagnosticV>::empty()
    } else {
        s_n.len() == s_o.len() && exists|d1: Seq<DiagnosticV>, d2: Seq<DiagnosticV>|
            {
                &&& #[trigger] diag_split(d1, d2)
                &&& conds_expr_resolve_ok(tbl, reg, s_o.drop_last(), s_n.drop_last(), d1)
                &&& cond_expr_resolves(
                    tbl,
                    reg,
                    s_o.last(),
                    s_n.last(),
                    d2,
                    Ok::<(), FatalError>(()),
                )
                &&& ds == d1 + d2
            }
    }
}

#[verifier::opaque]
pub open spec fn conds_expr_resolve(
    tbl: SymbolTable,
    reg: Region,
    s_o: Seq<Conditional<WithPos<Expression>>>,
    s_n: Seq<Conditional<WithPos<Expression>>>,
    ds: Seq<DiagnosticV>,
    r: FatalResult<()>,
) -> bool
    decreases s_o, 25int,
{
    match r {
        Ok(_) => conds_expr_resolve_ok(tbl, reg, s_o, s_n, ds),
        Err(f) => exists|k: int, d1: Seq<DiagnosticV>, d2: Seq<DiagnosticV>|
            {
                &&& #[trigger] diag_split_at(k, d1, d2)
                &&& 0 <= k < s_o.len()
                &&& s_n.len() == s_o.len()
                &&& conds_expr_resolve_ok(
                    tbl,
                    reg,
                    s_o.subrange(0, k),
                    s_n.subrange(0, k),
                    d1,
                )
                &&& cond_expr_resolves(tbl, reg, s_o[k], s_n[k], d2, Err::<(), FatalError>(f))
                &&& ds == d1 + d2
                &&& forall|j: int| k < j < s_o.len() ==> s_n[j] == s_o[j]
            },
    }
}

/// One alternative of a selected expression assignment: the value before its
/// choices.
#[verifier::opaque]
pub open spec fn alt_expr_resolves(
    tbl: SymbolTable,
    reg: Region,
    o: Alternative<WithPos<Expression>>,
    n: Alternative<WithPos<Expression>>,
    ds: Seq<DiagnosticV>,
    r: FatalResult<()>,
) -> bool
    decreases o, 26int,
{
    exists|d1: Seq<DiagnosticV>, r1: FatalResult<()>|
        {
            &&& #[trigger] step_split(d1, r1)
            &&& wexpr_resolves(tbl, reg, o.item, n.item, d1, r1)
            &&& match r1 {
                Err(f) => n.choices@ == o.choices@ && ds == d1 && r == Err::<(), FatalError>(f),
                Ok(_) => exists|d2: Seq<DiagnosticV>, r2: FatalResult<()>|
                    {
                        &&& #[trigger] step_split(d2, r2)
                        &&& choices_resolve(tbl, reg, o.choices@, n.choices@, d2, r2)
                        &&& ds == d1 + d2
                        &&& r == r2
                    },
            }
        }
}

#[verifier::opaque]
pub open spec fn alts_expr_resolve_ok(
    tbl: SymbolTable,
    reg: Region,
    s_o: Seq<Alternative<WithPos<Expression>>>,
    s_n: Seq<Alternative<WithPos<Expression>>>,
    ds: Seq<DiagnosticV>,
) -> bool
    decreases s_o, 27int,
{
    if s_o.len() == 0 {
        s_n.len() == 0 && ds == Seq::<DiagnosticV>::empty()
    } else {
        s_n.len() == s_o.len() && exists|d1: Seq<DiagnosticV>, d2: Seq<DiagnosticV>|
            {
                &&& #[trigger] diag_split(d1, d2)
                &&& alts_expr_resolve_ok(tbl, reg, s_o.drop_last(), s_n.drop_last(), d1)
                &&& alt_expr_resolves(
                    tbl,
                    reg,
                    s_o.last(),
                    s_n.last(),
                    d2,
                    Ok::<(), FatalError>(()),
                )
                &&& ds == d1 + d2
            }
    }
}

#[verifier::opaque]
pub open spec fn alts_expr_resolve(
    tbl: SymbolTable,
    reg: Region,
    s_o: Seq<Alternative<WithPos<Expression>>>,
    s_n: Seq<Alternative<WithPos<Expression>>>,
    ds: Seq<DiagnosticV>,
    r: FatalResult<()>,
) -> bool
    decreases s_o, 28int,
{
    match r {
        Ok(_) => alts_expr_resolve_ok(tbl, reg, s_o, s_n, ds),
        Err(f) => exists|k: int, d1: Seq<DiagnosticV>, d2: Seq<DiagnosticV>|
            {
                &&& #[trigger] diag_split_at(k, d1, d2)
                &&& 0 <= k < s_o.len()
                &&& s_n.len() == s_o.len()
                &&& alts_expr_resolve_ok(
                    tbl,
                    reg,
                    s_o.subrange(0, k),
                    s_n.subrange(0, k),
                    d1,
                )
                &&& alt_expr_resolves(tbl, reg, s_o[k], s_n[k], d2, Err::<(), FatalError>(f))
                &&& ds == d1 + d2
                &&& forall|j: int| k < j < s_o.len() ==> s_n[j] == s_o[j]
            },
    }
}

/// One conditional of a waveform assignment.
#[verifier::opaque]
pub open spec fn cond_wave_resolves(
    tbl: SymbolTable,
    reg: Region,
    o: Conditional<Waveform>,
    n: Conditional<Waveform>,
    ds: Seq<DiagnosticV>,
    r: FatalResult<()>,
) -> bool
    decreases o, 29int,
{
    exists|d1: Seq<DiagnosticV>, r1: FatalResult<()>|
        {
            &&& #[trigger] step_split(d1, r1)
            &&& waveform_resolves(tbl, reg, o.item, n.item, d1, r1)
            &&& match r1 {
                Err(f) => n.condition == o.condition && ds == d1 && r == Err::<(), FatalError>(f),
                Ok(_) => exists|d2: Seq<DiagnosticV>, r2: FatalResult<()>|
                    {
                        &&& #[trigger] step_split(d2, r2)
                        &&& wexpr_resolves(tbl, reg, o.condition, n.condition, d2, r2)
                        &&& ds == d1 + d2
                        &&& r == r2
                    },
            }
        }
}

#[verifier::opaque]
pub open spec fn conds_wave_resolve_ok(
    tbl: SymbolTable,
    reg: Region,
    s_o: Seq<Conditional<Waveform>>,
    s_n: Seq<Conditional<Waveform>>,
    ds: Seq<DiagnosticV>,
) -> bool
    decreases s_o, 30int,
{
    if s_o.len() == 0 {
        s_n.len() == 0 && ds == Seq::<DiagnosticV>::empty()
    } else {
        s_n.len() == s_o.len() && exists|d1: Seq<DiagnosticV>, d2: Seq<DiagnosticV>|
            {
                &&& #[trigger] diag_split(d1, d2)
                &&& conds_wave_resolve_ok(tbl, reg, s_o.drop_last(), s_n.drop_last(), d1)
                &&& cond_wave_resolves(
                    tbl,
                    reg,
                    s_o.last(),
                    s_n.last(),
                    d2,
                    Ok::<(), FatalError>(()),
                )
                &&& ds == d1 + d2
            }
    }
}

#[verifier::opaque]
pub open spec fn conds_wave_resolve(
    tbl: SymbolTable,
    reg: Region,
    s_o: Seq<Conditional<Waveform>>,
    s_n: Seq<Conditional<Waveform>>,
    ds: Seq<DiagnosticV>,
    r: FatalResult<()>,
) -> bool
    decreases s_o, 31int,
{
    match r {
        Ok(_) => conds_wave_resolve_ok(tbl, reg, s_o, s_n, ds),
        Err(f) => exists|k: int, d1: Seq<DiagnosticV>, d2: Seq<DiagnosticV>|
            {
                &&& #[trigger] diag_split_at(k, d1, d2)
                &&& 0 <= k < s_o.len()
                &&& s_n.len() == s_o.len()
                &&& conds_wave_resolve_ok(
                    tbl,
                    reg,
                    s_o.subrange(0, k),
                    s_n.subrange(0, k),
                    d1,
                )
                &&& cond_wave_resolves(tbl, reg, s_o[k], s_n[k], d2, Err::<(), FatalError>(f))
                &&& ds == d1 + d2
                &&& forall|j: int| k < j < s_o.len() ==> s_n[j] == s_o[j]
            },
    }
}

/// One alternative of a selected waveform assignment.
#[verifier::opaque]
pub open spec fn alt_wave_resolves(
    tbl: SymbolTable,
    reg: Region,
    o: Alternative<Waveform>,
    n: Alternative<Waveform>,
    ds: Seq<DiagnosticV>,
    r: FatalResult<()>,
) -> bool
    decreases o, 32int,
{
    exists|d1: Seq<DiagnosticV>, r1: FatalResult<()>|
        {
            &&& #[trigger] step_split(d1, r1)
            &&& waveform_resolves(tbl, reg, o.item, n.item, d1, r1)
            &&& match r1 {
                Err(f) => n.choices@ == o.choices@ && ds == d1 && r == Err::<(), FatalError>(f),
                Ok(_) => exists|d2: Seq<DiagnosticV>, r2: FatalResult<()>|
                    {
                        &&& #[trigger] step_split(d2, r2)
                        &&& choices_resolve(tbl, reg, o.choices@, n.choices@, d2, r2)
                        &&& ds == d1 + d2
                        &&& r == r2
                    },
            }
        }
}

#[verifier::opaque]
pub open spec fn alts_wave_resolve_ok(
    tbl: SymbolTable,
    reg: Region,
    s_o: Seq<Alternative<Waveform>>,
    s_n: Seq<Alternative<Waveform>>,
    ds: Seq<DiagnosticV>,
) -> bool
    decreases s_o, 33int,
{
    if s_o.len() == 0 {
        s_n.len() == 0 && ds == Seq::<DiagnosticV>::empty()
    } else {
        s_n.len() == s_o.len() && exists|d1: Seq<DiagnosticV>, d2: Seq<DiagnosticV>|
            {
                &&& #[trigger] diag_split(d1, d2)
                &&& alts_wave_resolve_ok(tbl, reg, s_o.drop_last(), s_n.drop_last(), d1)
                &&& alt_wave_resolves(
                    tbl,
                    reg,
                    s_o.last(),
                    s_n.last(),
                    d2,
                    Ok::<(), FatalError>(()),
                )
                &&& ds == d1 + d2
            }
    }
}

#[verifier::opaque]
pub open spec fn alts_wave_resolve(
    tbl: SymbolTable,
    reg: Region,
    s_o: Seq<Alternative<Waveform>>,
    s_n: Seq<Alternative<Waveform>>,
    ds: Seq<DiagnosticV>,
    r: FatalResult<()>,
) -> bool
    decreases s_o, 34int,
{
    match r {
        Ok(_) => alts_wave_resolve_ok(tbl, reg, s_o, s_n, ds),
        Err(f) => exists|k: int, d1: Seq<DiagnosticV>, d2: Seq<DiagnosticV>|
            {
                &&& #[trigger] diag_split_at(k, d1, d2)
                &&& 0 <= k < s_o.len()
                &&& s_n.len() == s_o.len()
                &&& alts_wave_resolve_ok(
                    tbl,
                    reg,
                    s_o.subrange(0, k),
                    s_n.subrange(0, k),
                    d1,
                )
                &&& alt_wave_resolves(tbl, reg, s_o[k], s_n[k], d2, Err::<(), FatalError>(f))
                &&& ds == d1 + d2
                &&& forall|j: int| k < j < s_o.len() ==> s_n[j] == s_o[j]
            },
    }
}

/// An expression-valued assignment: target and right-hand side, with the
/// traversal order of each right-hand shape (the selector expression of a
/// selected assignment is analyzed before the target, which follows it in the
/// source).
#[verifier::opaque]
pub open spec fn expr_assignment_resolves(
    tbl: SymbolTable,
    reg: Region,
    target_o: WithPos<Target>,
    target_n: WithPos<Target>,
    rhs_o: AssignmentRightHand<WithPos<Expression>>,
    rhs_n: AssignmentRightHand<WithPos<Expression>>,
    ds: Seq<DiagnosticV>,
    r: FatalResult<()>,
) -> bool {
    match rhs_o {
        AssignmentRightHand::Simple(e) => rhs_n matches AssignmentRightHand::Simple(e2) && exists|
            d1: Seq<DiagnosticV>,
            r1: FatalResult<()>,
        |
            {
                &&& #[trigger] step_split(d1, r1)
                &&& target_resolves(tbl, reg, target_o, target_n, d1, r1)
                &&& match r1 {
                    Err(f) => e2 == e && ds == d1 && r == Err::<(), FatalError>(f),
                    Ok(_) => exists|d2: Seq<DiagnosticV>, r2: FatalResult<()>|
                        {
                            &&& #[trigger] step_split(d2, r2)
                            &&& wexpr_resolves(tbl, reg, e, e2, d2, r2)
                            &&& ds == d1 + d2
                            &&& r == r2
                        },
                }
            },
        AssignmentRightHand::Conditional(conds) => rhs_n matches AssignmentRightHand::Conditional(
            c2,
        ) && exists|d1: Seq<DiagnosticV>, r1: FatalResult<()>|
            {
                &&& #[trigger] step_split(d1, r1)
                &&& target_resolves(tbl, reg, target_o, target_n, d1, r1)
                &&& match r1 {
                    Err(f) => c2.conditionals@ == conds.conditionals@ && c2.else_item
                        == conds.else_item && ds == d1 && r == Err::<(), FatalError>(f),
                    Ok(_) => exists|d2: Seq<DiagnosticV>, r2: FatalResult<()>|
                        {
                            &&& #[trigger] step_split(d2, r2)
                            &&& conds_expr_resolve(
                                tbl,
                                reg,
                                conds.conditionals@,
                                c2.conditionals@,
                                d2,
                                r2,
                            )
                            &&& match r2 {
                                Err(f) => c2.else_item == conds.else_item && ds == d1 + d2 && r
                                    == Err::<(), FatalError>(f),
                                Ok(_) => match conds.else_item {
                                    Some(e) => c2.else_item matches Some(e2) && exists|
                                        d3: Seq<DiagnosticV>,
                                        r3: FatalResult<()>,
                                    |
                                        {
                                            &&& #[trigger] step_split(d3, r3)
                                            &&& wexpr_resolves(tbl, reg, e, e2, d3, r3)
                                            &&& ds == d1 + d2 + d3
                                            &&& r == r3
                                        },
                                    None => c2.else_item is None && ds == d1 + d2 && r == Ok::<
                                        (),
                                        FatalError,
                                    >(()),
                                },
                            }
                        },
                }
            },
        AssignmentRightHand::Selected(sel) => rhs_n matches AssignmentRightHand::Selected(s2)
            && exists|d1: Seq<DiagnosticV>, r1: FatalResult<()>|
            {
                &&& #[trigger] step_split(d1, r1)
                &&& wexpr_resolves(tbl, reg, sel.expression, s2.expression, d1, r1)
                &&& match r1 {
                    Err(f) => target_n == target_o && s2.alternatives@ == sel.alternatives@ && ds
                        == d1 && r == Err::<(), FatalError>(f),
                    Ok(_) => exists|d2: Seq<DiagnosticV>, r2: FatalResult<()>|
                        {
                            &&& #[trigger] step_split(d2, r2)
                            &&& target_resolves(tbl, reg, target_o, target_n, d2, r2)
                            &&& match r2 {
                                Err(f) => s2.alternatives@ == sel.alternatives@ && ds == d1 + d2
                                    && r == Err::<(), FatalError>(f),
                                Ok(_) => exists|d3: Seq<DiagnosticV>, r3: FatalResult<()>|
                                    {
                                        &&& #[trigger] step_split(d3, r3)
                                        &&& alts_expr_resolve(
                                            tbl,
                                            reg,
                                            sel.alternatives@,
                                            s2.alternatives@,
                                            d3,
                                            r3,
                                        )
                                        &&& ds == d1 + d2 + d3
                                        &&& r == r3
                                    },
                            }
                        },
                }
            },
    }
}

/// A waveform-valued assignment, with the same shapes and order.
#[verifier::opaque]
pub open spec fn waveform_assignment_resolves(
    tbl: SymbolTable,
    reg: Region,
    target_o: WithPos<Target>,
    target_n: WithPos<Target>,
    rhs_o: AssignmentRightHand<Waveform>,
    rhs_n: AssignmentRightHand<Waveform>,
    ds: Seq<DiagnosticV>,
    r: FatalResult<()>,
) -> bool {
    match rhs_o {
        AssignmentRightHand::Simple(w) => rhs_n matches AssignmentRightHand::Simple(w2) && exists|
            d1: Seq<DiagnosticV>,
            r1: FatalResult<()>,
        |
            {
                &&& #[trigger] step_split(d1, r1)
                &&& target_resolves(tbl, reg, target_o, target_n, d1, r1)
                &&& match r1 {
                    Err(f) => w2 == w && ds == d1 && r == Err::<(), FatalError>(f),
                    Ok(_) => exists|d2: Seq<DiagnosticV>, r2: FatalResult<()>|
                        {
                            &&& #[trigger] step_split(d2, r2)
                            &&& waveform_resolves(tbl, reg, w, w2, d2, r2)
                            &&& ds == d1 + d2
                            &&& r == r2
                        },
                }
            },
        AssignmentRightHand::Conditional(conds) => rhs_n matches AssignmentRightHand::Conditional(
            c2,
        ) && exists|d1: Seq<DiagnosticV>, r1: FatalResult<()>|
            {
                &&& #[trigger] step_split(d1, r1)
                &&& target_resolves(tbl, reg, target_o, target_n, d1, r1)
                &&& match r1 {
                    Err(f) => c2.conditionals@ == conds.conditionals@ && c2.else_item
                        == conds.else_item && ds == d1 && r == Err::<(), FatalError>(f),
                    Ok(_) => exists|d2: Seq<DiagnosticV>, r2: FatalResult<()>|
                        {
                            &&& #[trigger] step_split(d2, r2)
                            &&& conds_wave_resolve(
                                tbl,
                                reg,
                                conds.conditionals@,
                                c2.conditionals@,
                                d2,
                                r2,
                            )
                            &&& match r2 {
                                Err(f) => c2.else_item == conds.else_item && ds == d1 + d2 && r
                                    == Err::<(), FatalError>(f),
                                Ok(_) => match conds.else_item {
                                    Some(w) => c2.else_item matches Some(w2) && exists|
                                        d3: Seq<DiagnosticV>,
                                        r3: FatalResult<()>,
                                    |
                                        {
                                            &&& #[trigger] step_split(d3, r3)
                                            &&& waveform_resolves(
                                                tbl,
                                                reg,
                                                w,
                                                w2,
                                                d3,
                                                r3,
                                            )
                                            &&& ds == d1 + d2 + d3
                                            &&& r == r3
                                        },
                                    None => c2.else_item is None && ds == d1 + d2 && r == Ok::<
                                        (),
                                        FatalError,
                                    >(()),
                                },
                            }
                        },
                }
            },
        AssignmentRightHand::Selected(sel) => rhs_n matches AssignmentRightHand::Selected(s2)
            && exists|d1: Seq<DiagnosticV>, r1: FatalResult<()>|
            {
                &&& #[trigger] step_split(d1, r1)
                &&& wexpr_resolves(tbl, reg, sel.expression, s2.expression, d1, r1)
                &&& match r1 {
                    Err(f) => target_n == target_o && s2.alternatives@ == sel.alternatives@ && ds
                        == d1 && r == Err::<(), FatalError>(f),
                    Ok(_) => exists|d2: Seq<DiagnosticV>, r2: FatalResult<()>|
                        {
                            &&& #[trigger] step_split(d2, r2)
                            &&& target_resolves(tbl, reg, target_o, target_n, d2, r2)
                            &&& match r2 {
                                Err(f) => s2.alternatives@ == sel.alternatives@ && ds == d1 + d2
                                    && r == Err::<(), FatalError>(f),
                                Ok(_) => exists|d3: Seq<DiagnosticV>, r3: FatalResult<()>|
                                    {
                                        &&& #[trigger] step_split(d3, r3)
                                        &&& alts_wave_resolve(
                                            tbl,
                                            reg,
                                            sel.alternatives@,
                                            s2.alternatives@,
                                            d3,
                                            r3,
                                        )
                                        &&& ds == d1 + d2 + d3
                                        &&& r == r3
                                    },
                            }
                        },
                }
            },
    }
}

proof fn lemma_assocs_resolve_snoc(
    tbl: SymbolTable,
    reg: Region,
    s_o: Seq<AssociationElement>,
    s_n: Seq<AssociationElement>,
    d1: Seq<DiagnosticV>,
    o: AssociationElement,
    n: AssociationElement,
    d2: Seq<DiagnosticV>,
)
    requires
        assocs_resolve_ok(tbl, reg, s_o, s_n, d1),
        assoc_el_resolves(tbl, reg, o, n, d2, Ok::<(), FatalError>(())),
    ensures
        assocs_resolve_ok(tbl, reg, s_o.push(o), s_n.push(n), d1 + d2),
{
    reveal(assoc_el_resolves);
    reveal(assocs_resolve_ok);
    assert(s_o.push(o).drop_last() =~= s_o);
    assert(s_n.push(n).drop_last() =~= s_n);
    assert(s_o.push(o).last() == o);
    assert(s_n.push(n).last() == n);
    assert(diag_split(d1, d2));
    assert(assocs_resolve_ok(tbl, reg, s_o.push(o).drop_last(), s_n.push(n).drop_last(), d1));
    assert(assoc_el_resolves(tbl, reg, s_o.push(o).last(), s_n.push(n).last(), d2, Ok::<(), FatalError>(())));
    assert(s_o.push(o).len() == s_o.len() + 1);
    assert(assocs_resolve_ok(tbl, reg, s_o.push(o), s_n.push(n), d1 + d2));
}

proof fn lemma_assocs_resolve_fatal(
    tbl: SymbolTable,
    reg: Region,
    s_o: Seq<AssociationElement>,
    s_n: Seq<AssociationElement>,
    i: int,
    d1: Seq<DiagnosticV>,
    d2: Seq<DiagnosticV>,
    f: FatalError,
)
    requires
        0 <= i < s_o.len(),
        s_n.len() == s_o.len(),
        assocs_resolve_ok(tbl, reg, s_o.subrange(0, i), s_n.subrange(0, i), d1),
        assoc_el_resolves(tbl, reg, s_o[i], s_n[i], d2, Err::<(), FatalError>(f)),
        forall|j: int| i < j < s_o.len() ==> s_n[j] == s_o[j],
    ensures
        assocs_resolve(tbl, reg, s_o, s_n, d1 + d2, Err::<(), FatalError>(f)),
{
    reveal(assoc_el_resolves);
    reveal(assocs_resolve);
    reveal(assocs_resolve_ok);
    assert(diag_split_at(i, d1, d2));
}

proof fn lemma_aggregate_resolves_snoc(
    tbl: SymbolTable,
    reg: Region,
    s_o: Seq<ElementAssociation>,
    s_n: Seq<ElementAssociation>,
    d1: Seq<DiagnosticV>,
    o: ElementAssociation,
    n: ElementAssociation,
    d2: Seq<DiagnosticV>,
)
    requires
        aggregate_resolves_ok(tbl, reg, s_o, s_n, d1),
        assoc_resolves(tbl, reg, o, n, d2, Ok::<(), FatalError>(())),
    ensures
        aggregate_resolves_ok(tbl, reg, s_o.push(o), s_n.push(n), d1 + d2),
{
    reveal(assoc_resolves);
    reveal(aggregate_resolves_ok);
    assert(s_o.push(o).drop_last() =~= s_o);
    assert(s_n.push(n).drop_last() =~= s_n);
    assert(s_o.push(o).last() == o);
    assert(s_n.push(n).last() == n);
    assert(diag_split(d1, d2));
    assert(aggregate_resolves_ok(tbl, reg, s_o.push(o).drop_last(), s_n.push(n).drop_last(), d1));
    assert(assoc_resolves(tbl, reg, s_o.push(o).last(), s_n.push(n).last(), d2, Ok::<(), FatalError>(())));
}

proof fn lemma_aggregate_resolves_fatal(
    tbl: SymbolTable,
    reg: Region,
    s_o: Seq<ElementAssociation>,
    s_n: Seq<ElementAssociation>,
    i: int,
    d1: Seq<DiagnosticV>,
    d2: Seq<DiagnosticV>,
    f: FatalError,
)
    requires
        0 <= i < s_o.len(),
        s_n.len() == s_o.len(),
        aggregate_resolves_ok(tbl, reg, s_o.subrange(0, i), s_n.subrange(0, i), d1),
        assoc_resolves(tbl, reg, s_o[i], s_n[i], d2, Err::<(), FatalError>(f)),
        forall|j: int| i < j < s_o.len() ==> s_n[j] == s_o[j],
    ensures
        aggregate_resolves(tbl, reg, s_o, s_n, d1 + d2, Err::<(), FatalError>(f)),
{
    reveal(assoc_resolves);
    reveal(aggregate_resolves);
    reveal(aggregate_resolves_ok);
    assert(diag_split_at(i, d1, d2));
}

proof fn lemma_welems_resolve_snoc(
    tbl: SymbolTable,
    reg: Region,
    s_o: Seq<WaveformElement>,
    s_n: Seq<WaveformElement>,
    d1: Seq<DiagnosticV>,
    o: WaveformElement,
    n: WaveformElement,
    d2: Seq<DiagnosticV>,
)
    requires
        welems_resolve_ok(tbl, reg, s_o, s_n, d1),
        welem_resolves(tbl, reg, o, n, d2, Ok::<(), FatalError>(())),
    ensures
        welems_resolve_ok(tbl, reg, s_o.push(o), s_n.push(n), d1 + d2),
{
    reveal(welems_resolve_ok);
    assert(s_o.push(o).drop_last() =~= s_o);
    assert(s_n.push(n).drop_last() =~= s_n);
    assert(s_o.push(o).last() == o);
    assert(s_n.push(n).last() == n);
    assert(diag_split(d1, d2));
    assert(welems_resolve_ok(tbl, reg, s_o.push(o).drop_last(), s_n.push(n).drop_last(), d1));
    assert(welem_resolves(tbl, reg, s_o.push(o).last(), s_n.push(n).last(), d2, Ok::<(), FatalError>(())));
}

proof fn lemma_welems_resolve_fatal(
    tbl: SymbolTable,
    reg: Region,
    s_o: Seq<WaveformElement>,
    s_n: Seq<WaveformElement>,
    i: int,
    d1: Seq<DiagnosticV>,
    d2: Seq<DiagnosticV>,
    f: FatalError,
)
    requires
        0 <= i < s_o.len(),
        s_n.len() == s_o.len(),
        welems_resolve_ok(tbl, reg, s_o.subrange(0, i), s_n.subrange(0, i), d1),
        welem_resolves(tbl, reg, s_o[i], s_n[i], d2, Err::<(), FatalError>(f)),
        forall|j: int| i < j < s_o.len() ==> s_n[j] == s_o[j],
    ensures
        welems_resolve(tbl, reg, s_o, s_n, d1 + d2, Err::<(), FatalError>(f)),
{
    reveal(welems_resolve);
    reveal(welems_resolve_ok);
    assert(diag_split_at(i, d1, d2));
}

proof fn lemma_agg_choices_resolve_snoc(
    tbl: SymbolTable,
    reg: Region,
    s_o: Seq<Choice>,
    s_n: Seq<Choice>,
    d1: Seq<DiagnosticV>,
    o: Choice,
    n: Choice,
    d2: Seq<DiagnosticV>,
)
    requires
        agg_choices_resolve_ok(tbl, reg, s_o, s_n, d1),
        agg_choice_resolves(tbl, reg, o, n, d2, Ok::<(), FatalError>(())),
    ensures
        agg_choices_resolve_ok(tbl, reg, s_o.push(o), s_n.push(n), d1 + d2),
{
    reveal(agg_choice_resolves);
    reveal(agg_choices_resolve_ok);
    assert(s_o.push(o).drop_last() =~= s_o);
    assert(s_n.push(n).drop_last() =~= s_n);
    assert(s_o.push(o).last() == o);
    assert(s_n.push(n).last() == n);
    assert(diag_split(d1, d2));
    assert(agg_choices_resolve_ok(tbl, reg, s_o.push(o).drop_last(), s_n.push(n).drop_last(), d1));
    assert(agg_choice_resolves(tbl, reg, s_o.push(o).last(), s_n.push(n).last(), d2, Ok::<(), FatalError>(())));
}

proof fn lemma_agg_choices_resolve_fatal(
    tbl: SymbolTable,
    reg: Region,
    s_o: Seq<Choice>,
    s_n: Seq<Choice>,
    i: int,
    d1: Seq<DiagnosticV>,
    d2: Seq<DiagnosticV>,
    f: FatalError,
)
    requires
        0 <= i < s_o.len(),
        s_n.len() == s_o.len(),
        agg_choices_resolve_ok(tbl, reg, s_o.subrange(0, i), s_n.subrange(0, i), d1),
        agg_choice_resolves(tbl, reg, s_o[i], s_n[i], d2, Err::<(), FatalError>(f)),
        forall|j: int| i < j < s_o.len() ==> s_n[j] == s_o[j],
    ensures
        agg_choices_resolve(tbl, reg, s_o, s_n, d1 + d2, Err::<(), FatalError>(f)),
{
    reveal(agg_choice_resolves);
    reveal(agg_choices_resolve);
    reveal(agg_choices_resolve_ok);
    assert(diag_split_at(i, d1, d2));
}

proof fn lemma_conds_expr_resolve_snoc(
    tbl: SymbolTable,
    reg: Region,
    s_o: Seq<Conditional<WithPos<Expression>>>,
    s_n: Seq<Conditional<WithPos<Expression>>>,
    d1: Seq<DiagnosticV>,
    o: Conditional<WithPos<Expression>>,
    n: Conditional<WithPos<Expression>>,
    d2: Seq<DiagnosticV>,
)
    requires
        conds_expr_resolve_ok(tbl, reg, s_o, s_n, d1),
        cond_expr_resolves(tbl, reg, o, n, d2, Ok::<(), FatalError>(())),
    ensures
        conds_expr_resolve_ok(tbl, reg, s_o.push(o), s_n.push(n), d1 + d2),
{
    reveal(conds_expr_resolve_ok);
    assert(s_o.push(o).drop_last() =~= s_o);
    assert(s_n.push(n).drop_last() =~= s_n);
    assert(s_o.push(o).last() == o);
    assert(s_n.push(n).last() == n);
    assert(diag_split(d1, d2));
    assert(conds_expr_resolve_ok(tbl, reg, s_o.push(o).drop_last(), s_n.push(n).drop_last(), d1));
    assert(cond_expr_resolves(tbl, reg, s_o.push(o).last(), s_n.push(n).last(), d2, Ok::<(), FatalError>(())));
}

proof fn lemma_conds_expr_resolve_fatal(
    tbl: SymbolTable,
    reg: Region,
    s_o: Seq<Conditional<WithPos<Expression>>>,
    s_n: Seq<Conditional<WithPos<Expression>>>,
    i: int,
    d1: Seq<DiagnosticV>,
    d2: Seq<DiagnosticV>,
    f: FatalError,
)
    requires
        0 <= i < s_o.len(),
        s_n.len() == s_o.len(),
        conds_expr_resolve_ok(tbl, reg, s_o.subrange(0, i), s_n.subrange(0, i), d1),
        cond_expr_resolves(tbl, reg, s_o[i], s_n[i], d2, Err::<(), FatalError>(f)),
        forall|j: int| i < j < s_o.len() ==> s_n[j] == s_o[j],
    ensures
        conds_expr_resolve(tbl, reg, s_o, s_n, d1 + d2, Err::<(), FatalError>(f)),
{
    reveal(conds_expr_resolve);
    reveal(conds_expr_resolve_ok);
    assert(diag_split_at(i, d1, d2));
}

proof fn lemma_alts_expr_resolve_snoc(
    tbl: SymbolTable,
    reg: Region,
    s_o: Seq<Alternative<WithPos<Expression>>>,
    s_n: Seq<Alternative<WithPos<Expression>>>,
    d1: Seq<DiagnosticV>,
    o: Alternative<WithPos<Expression>>,
    n: Alternative<WithPos<Expression>>,
    d2: Seq<DiagnosticV>,
)
    requires
        alts_expr_resolve_ok(tbl, reg, s_o, s_n, d1),
        alt_expr_resolves(tbl, reg, o, n, d2, Ok::<(), FatalError>(())),
    ensures
        alts_expr_resolve_ok(tbl, reg, s_o.push(o), s_n.push(n), d1 + d2),
{
    reveal(alts_expr_resolve_ok);
    assert(s_o.push(o).drop_last() =~= s_o);
    assert(s_n.push(n).drop_last() =~= s_n);
    assert(s_o.push(o).last() == o);
    assert(s_n.push(n).last() == n);
    assert(diag_split(d1, d2));
    assert(alts_expr_resolve_ok(tbl, reg, s_o.push(o).drop_last(), s_n.push(n).drop_last(), d1));
    assert(alt_expr_resolves(tbl, reg, s_o.push(o).last(), s_n.push(n).last(), d2, Ok::<(), FatalError>(())));
}

proof fn lemma_alts_expr_resolve_fatal(
    tbl: SymbolTable,
    reg: Region,
    s_o: Seq<Alternative<WithPos<Expression>>>,
    s_n: Seq<Alternative<WithPos<Expression>>>,
    i: int,
    d1: Seq<DiagnosticV>,
    d2: Seq<DiagnosticV>,
    f: FatalError,
)
    requires
        0 <= i < s_o.len(),
        s_n.len() == s_o.len(),
        alts_expr_resolve_ok(tbl, reg, s_o.subrange(0, i), s_n.subrange(0, i), d1),
        alt_expr_resolves(tbl, reg, s_o[i], s_n[i], d2, Err::<(), FatalError>(f)),
        forall|j: int| i < j < s_o.len() ==> s_n[j] == s_o[j],
    ensures
        alts_expr_resolve(tbl, reg, s_o, s_n, d1 + d2, Err::<(), FatalError>(f)),
{
    reveal(alts_expr_resolve);
    reveal(alts_expr_resolve_ok);
    assert(diag_split_at(i, d1, d2));
}

proof fn lemma_conds_wave_resolve_snoc(
    tbl: SymbolTable,
    reg: Region,
    s_o: Seq<Conditional<Waveform>>,
    s_n: Seq<Conditional<Waveform>>,
    d1: Seq<DiagnosticV>,
    o: Conditional<Waveform>,
    n: Conditional<Waveform>,
    d2: Seq<DiagnosticV>,
)
    requires
        conds_wave_resolve_ok(tbl, reg, s_o, s_n, d1),
        cond_wave_resolves(tbl, reg, o, n, d2, Ok::<(), FatalError>(())),
    ensures
        conds_wave_resolve_ok(tbl, reg, s_o.push(o), s_n.push(n), d1 + d2),
{
    reveal(conds_wave_resolve_ok);
    assert(s_o.push(o).drop_last() =~= s_o);
    assert(s_n.push(n).drop_last() =~= s_n);
    assert(s_o.push(o).last() == o);
    assert(s_n.push(n).last() == n);
    assert(diag_split(d1, d2));
    assert(conds_wave_resolve_ok(tbl, reg, s_o.push(o).drop_last(), s_n.push(n).drop_last(), d1));
    assert(cond_wave_resolves(tbl, reg, s_o.push(o).last(), s_n.push(n).last(), d2, Ok::<(), FatalError>(())));
}

proof fn lemma_conds_wave_resolve_fatal(
    tbl: SymbolTable,
    reg: Region,
    s_o: Seq<Conditional<Waveform>>,
    s_n: Seq<Conditional<Waveform>>,
    i: int,
    d1: Seq<DiagnosticV>,
    d2: Seq<DiagnosticV>,
    f: FatalError,
)
    requires
        0 <= i < s_o.len(),
        s_n.len() == s_o.len(),
        conds_wave_resolve_ok(tbl, reg, s_o.subrange(0, i), s_n.subrange(0, i), d1),
        cond_wave_resolves(tbl, reg, s_o[i], s_n[i], d2, Err::<(), FatalError>(f)),
        forall|j: int| i < j < s_o.len() ==> s_n[j] == s_o[j],
    ensures
        conds_wave_resolve(tbl, reg, s_o, s_n, d1 + d2, Err::<(), FatalError>(f)),
{
    reveal(conds_wave_resolve);
    reveal(conds_wave_resolve_ok);
    assert(diag_split_at(i, d1, d2));
}

proof fn lemma_alts_wave_resolve_snoc(
    tbl: SymbolTable,
    reg: Region,
    s_o: Seq<Alternative<Waveform>>,
    s_n: Seq<Alternative<Waveform>>,
    d1: Seq<DiagnosticV>,
    o: Alternative<Waveform>,
    n: Alternative<Waveform>,
    d2: Seq<DiagnosticV>,
)
    requires
        alts_wave_resolve_ok(tbl, reg, s_o, s_n, d1),
        alt_wave_resolves(tbl, reg, o, n, d2, Ok::<(), FatalError>(())),
    ensures
        alts_wave_resolve_ok(tbl, reg, s_o.push(o), s_n.push(n), d1 + d2),
{
    reveal(alts_wave_resolve_ok);
    assert(s_o.push(o).drop_last() =~= s_o);
    assert(s_n.push(n).drop_last() =~= s_n);
    assert(s_o.push(o).last() == o);
    assert(s_n.push(n).last() == n);
    assert(diag_split(d1, d2));
    assert(alts_wave_resolve_ok(tbl, reg, s_o.push(o).drop_last(), s_n.push(n).drop_last(), d1));
    assert(alt_wave_resolves(tbl, reg, s_o.push(o).last(), s_n.push(n).last(), d2, Ok::<(), FatalError>(())));
}

proof fn lemma_alts_wave_resolve_fatal(
    tbl: SymbolTable,
    reg: Region,
    s_o: Seq<Alternative<Waveform>>,
    s_n: Seq<Alternative<Waveform>>,
    i: int,
    d1: Seq<DiagnosticV>,
    d2: Seq<DiagnosticV>,
    f: FatalError,
)
    requires
        0 <= i < s_o.len(),
        s_n.len() == s_o.len(),
        alts_wave_resolve_ok(tbl, reg, s_o.subrange(0, i), s_n.subrange(0, i), d1),
        alt_wave_resolves(tbl, reg, s_o[i], s_n[i], d2, Err::<(), FatalError>(f)),
        forall|j: int| i < j < s_o.len() ==> s_n[j] == s_o[j],
    ensures
        alts_wave_resolve(tbl, reg, s_o, s_n, d1 + d2, Err::<(), FatalError>(f)),
{
    reveal(alts_wave_resolve);
    reveal(alts_wave_resolve_ok);
    assert(diag_split_at(i, d1, d2));
}

proof fn lemma_choices_resolve_snoc(
    tbl: SymbolTable,
    reg: Region,
    s_o: Seq<Choice>,
    s_n: Seq<Choice>,
    d1: Seq<DiagnosticV>,
    o: Choice,
    n: Choice,
    d2: Seq<DiagnosticV>,
)
    requires
        choices_resolve_ok(tbl, reg, s_o, s_n, d1),
        choice_resolves(tbl, reg, o, n, d2, Ok::<(), FatalError>(())),
    ensures
        choices_resolve_ok(tbl, reg, s_o.push(o), s_n.push(n), d1 + d2),
{
    reveal(choice_resolves);
    reveal(choices_resolve_ok);
    assert(s_o.push(o).drop_last() =~= s_o);
    assert(s_n.push(n).drop_last() =~= s_n);
    assert(s_o.push(o).last() == o);
    assert(s_n.push(n).last() == n);
    assert(diag_split(d1, d2));
    assert(choices_resolve_ok(tbl, reg, s_o.push(o).drop_last(), s_n.push(n).drop_last(), d1));
    assert(choice_resolves(tbl, reg, s_o.push(o).last(), s_n.push(n).last(), d2, Ok::<(), FatalError>(())));
}

proof fn lemma_choices_resolve_fatal(
    tbl: SymbolTable,
    reg: Region,
    s_o: Seq<Choice>,
    s_n: Seq<Choice>,
    i: int,
    d1: Seq<DiagnosticV>,
    d2: Seq<DiagnosticV>,
    f: FatalError,
)
    requires
        0 <= i < s_o.len(),
        s_n.len() == s_o.len(),
        choices_resolve_ok(tbl, reg, s_o.subrange(0, i), s_n.subrange(0, i), d1),
        choice_resolves(tbl, reg, s_o[i], s_n[i], d2, Err::<(), FatalError>(f)),
        forall|j: int| i < j < s_o.len() ==> s_n[j] == s_o[j],
    ensures
        choices_resolve(tbl, reg, s_o, s_n, d1 + d2, Err::<(), FatalError>(f)),
{
    reveal(choice_resolves);
    reveal(choices_resolve);
    reveal(choices_resolve_ok);
    assert(diag_split_at(i, d1, d2));
}

proof fn lemma_exprs_resolve_snoc(
    tbl: SymbolTable,
    reg: Region,
    s_o: Seq<WithPos<Expression>>,
    s_n: Seq<WithPos<Expression>>,
    d1: Seq<DiagnosticV>,
    o: WithPos<Expression>,
    n: WithPos<Expression>,
    d2: Seq<DiagnosticV>,
)
    requires
        exprs_resolve_ok(tbl, reg, s_o, s_n, d1),
        wexpr_resolves(tbl, reg, o, n, d2, Ok::<(), FatalError>(())),
    ensures
        exprs_resolve_ok(tbl, reg, s_o.push(o), s_n.push(n), d1 + d2),
{
    reveal(wexpr_resolves);
    reveal(exprs_resolve_ok);
    assert(s_o.push(o).drop_last() =~= s_o);
    assert(s_n.push(n).drop_last() =~= s_n);
    assert(s_o.push(o).last() == o);
    assert(s_n.push(n).last() == n);
    assert(diag_split(d1, d2));
    assert(exprs_resolve_ok(tbl, reg, s_o.push(o).drop_last(), s_n.push(n).drop_last(), d1));
    assert(wexpr_resolves(tbl, reg, s_o.push(o).last(), s_n.push(n).last(), d2, Ok::<(), FatalError>(())));
}

proof fn lemma_exprs_resolve_fatal(
    tbl: SymbolTable,
    reg: Region,
    s_o: Seq<WithPos<Expression>>,
    s_n: Seq<WithPos<Expression>>,
    i: int,
    d1: Seq<DiagnosticV>,
    d2: Seq<DiagnosticV>,
    f: FatalError,
)
    requires
        0 <= i < s_o.len(),
        s_n.len() == s_o.len(),
        exprs_resolve_ok(tbl, reg, s_o.subrange(0, i), s_n.subrange(0, i), d1),
        wexpr_resolves(tbl, reg, s_o[i], s_n[i], d2, Err::<(), FatalError>(f)),
        forall|j: int| i < j < s_o.len() ==> s_n[j] == s_o[j],
    ensures
        exprs_resolve(tbl, reg, s_o, s_n, d1 + d2, Err::<(), FatalError>(f)),
{
    reveal(wexpr_resolves);
    reveal(exprs_resolve);
    reveal(exprs_resolve_ok);
    assert(diag_split_at(i, d1, d2));
}

/// The sink only grows: what was reported stays, in place.
pub open spec fn sink_grew(old_sink: Seq<Diagnostic>, new_sink: Seq<Diagnostic>) -> bool {
    old_sink.len() <= new_sink.len() && new_sink.subrange(0, old_sink.len() as int) == old_sink
}

/// The views of the findings a call appended to the sink, in order.
#[verifier::opaque]
pub open spec fn sink_delta(old_sink: Seq<Diagnostic>, new_sink: Seq<Diagnostic>) -> Seq<
    DiagnosticV,
> {
    crate::diagnostics::diag_views(new_sink.subrange(old_sink.len() as int, new_sink.len() as int))
}

/// Two successive extensions of the sink compose.
pub proof fn lemma_sink_compose(a: Seq<Diagnostic>, b: Seq<Diagnostic>, c: Seq<Diagnostic>)
    requires
        sink_grew(a, b),
        sink_grew(b, c),
    ensures
        sink_grew(a, c),
        sink_delta(a, c) == sink_delta(a, b) + sink_delta(b, c),
{
    reveal(sink_delta);
    reveal(crate::diagnostics::diag_views);
    assert(c.subrange(0, a.len() as int) =~= a);
    assert(sink_delta(a, c) =~= sink_delta(a, b) + sink_delta(b, c));
}

/// An unchanged sink is an extension by nothing.
pub proof fn lemma_sink_same(a: Seq<Diagnostic>)
    ensures
        sink_grew(a, a),
        sink_delta(a, a) =~= Seq::<DiagnosticV>::empty(),
{
    reveal(sink_delta);
    reveal(crate::diagnostics::diag_views);
    assert(a.subrange(0, a.len() as int) =~= a);
}

/// Pushing one finding extends the sink by exactly its view.
pub proof fn lemma_sink_push(a: Seq<Diagnostic>, d: Diagnostic)
    ensures
        sink_grew(a, a.push(d)),
        sink_delta(a, a.push(d)) =~= seq![d@],
{
    reveal(sink_delta);
    reveal(crate::diagnostics::diag_views);
    assert(a.push(d).subrange(0, a.len() as int) =~= a);
}

impl AnalyzeContext {
    /// Analyze every expression of a list, stopping at a fatal error.
    #[verifier::spinoff_prover]
    #[verifier::rlimit(100)]
    fn analyze_expressions(
        &self,
        region: &Region,
        exprs: &mut Vec<WithPos<Expression>>,
        diagnostics: &mut Vec<Diagnostic>,
    ) -> (r: FatalNullResult)
        ensures
            sink_grew(old(diagnostics)@, final(diagnostics)@),
            exprs_resolve(
                self.table,
                *region,
                old(exprs)@,
                final(exprs)@,
                sink_delta(old(diagnostics)@, final(diagnostics)@),
                r,
            ),
        decreases *old(exprs), 3int,
    {        proof {
            reveal(exprs_resolve);
            reveal(exprs_resolve_ok);
        }

        let n = exprs.len();
        proof {
            lemma_sink_same(diagnostics@);
            assert(exprs@.subrange(0, 0) =~= Seq::<WithPos<Expression>>::empty());
        }
        let mut i: usize = 0;
        while i < n
            invariant
                n == exprs@.len(),
                old(exprs)@.len() == n,
                i <= n,
                forall|j: int| i <= j < n ==> exprs@[j] == old(exprs)@[j],
                sink_grew(old(diagnostics)@, diagnostics@),
                exprs_resolve_ok(
                    self.table,
                    *region,
                    old(exprs)@.subrange(0, i as int),
                    exprs@.subrange(0, i as int),
                    sink_delta(old(diagnostics)@, diagnostics@),
                ),
            decreases n - i,
        {
            proof {
                reveal(exprs_resolve);
                reveal(exprs_resolve_ok);
            }
            let ghost dpre = diagnostics@;
            let ghost vpre = exprs@;
            proof {
                assert(decreases_to!(*old(exprs) => old(exprs)@[i as int]));
            }
            let r = self.analyze_expression(region, &mut exprs[i], diagnostics);
            proof {
                lemma_sink_compose(old(diagnostics)@, dpre, diagnostics@);
                assert(exprs@.subrange(0, i as int) =~= vpre.subrange(0, i as int));
            }
            match r {
                Ok(_) => {
                    proof {
                        assert(r is Ok);
                        assert(r->Ok_0 == ());
                        assert(r == Ok::<(), FatalError>(()));
                        assert(old(exprs)@.subrange(0, (i + 1) as int) =~= old(exprs)@.subrange(
                            0,
                            i as int,
                        ).push(old(exprs)@[i as int]));
                        assert(exprs@.subrange(0, (i + 1) as int) =~= exprs@.subrange(
                            0,
                            i as int,
                        ).push(exprs@[i as int]));
                        lemma_exprs_resolve_snoc(
                            self.table,
                            *region,
                            old(exprs)@.subrange(0, i as int),
                            exprs@.subrange(0, i as int),
                            sink_delta(old(diagnostics)@, dpre),
                            old(exprs)@[i as int],
                            exprs@[i as int],
                            sink_delta(dpre, diagnostics@),
                        );
                    }
                },
                Err(f) => {
                    proof {
                        assert(forall|j: int| i < j < n ==> exprs@[j] == old(exprs)@[j]);
                        lemma_exprs_resolve_fatal(
                            self.table,
                            *region,
                            old(exprs)@,
                            exprs@,
                            i as int,
                            sink_delta(old(diagnostics)@, dpre),
                            sink_delta(dpre, diagnostics@),
                            f,
                        );
                        assert(sink_delta(old(diagnostics)@, diagnostics@) == sink_delta(
                            old(diagnostics)@,
                            dpre,
                        ) + sink_delta(dpre, diagnostics@));
                    }
                    return Err(f);
                },
            }
            i = i + 1;
        }
        proof {
            assert(old(exprs)@.subrange(0, n as int) =~= old(exprs)@);
            assert(exprs@.subrange(0, n as int) =~= exprs@);
        }
        Ok(())
    }

    /// Resolve a name that must denote a single, non-overloaded entity,
    /// because only such an entity can be the prefix of a selected name.  An
    /// overloaded set is reported and the prefix yields nothing, rather than
    /// failing the whole statement.
    #[verifier::spinoff_prover]
    #[verifier::rlimit(100)]
    fn resolve_prefix(
        &self,
        region: &Region,
        prefix_pos: Pos,
        prefix: &mut Name,
        diagnostics: &mut Vec<Diagnostic>,
    ) -> (r: FatalResult<Option<usize>>)
        ensures
            sink_grew(old(diagnostics)@, final(diagnostics)@),
            prefix_resolves(
                self.table,
                *region,
                prefix_pos,
                *old(prefix),
                *final(prefix),
                sink_delta(old(diagnostics)@, final(diagnostics)@),
                r,
            ),
        decreases *old(prefix), 4int,
    {        proof {
            reveal(prefix_resolves);
        }

        let ghost d0 = diagnostics@;
        let resolved = self.resolve_name(region, prefix_pos, prefix, diagnostics);
        proof {
            assert(name_resolves(
                self.table,
                *region,
                prefix_pos,
                *old(prefix),
                *prefix,
                sink_delta(d0, diagnostics@),
                resolved,
            ));
            assert(step_split(sink_delta(d0, diagnostics@), resolved));
        }
        match resolved {
            Err(f) => Err(f),
            Ok(None) => Ok(None),
            Ok(Some(NamedEntities::Single(ent))) => Ok(Some(ent)),
            Ok(Some(NamedEntities::Overloaded(overloaded))) => {
                let ghost dmid = diagnostics@;
                diagnostics.push(Diagnostic::error(
                    prefix_pos,
                    DiagnosticCode::OverloadedNamePrefix { designator: overloaded.designator },
                ));
                proof {
                    lemma_sink_push(dmid, diagnostics@.last());
                    lemma_sink_compose(d0, dmid, diagnostics@);
                    assert(sink_delta(d0, diagnostics@) =~= sink_delta(d0, dmid).push(
                        dv_overloaded_prefix(prefix_pos, overloaded.designator),
                    ));
                }
                Ok(None)
            },
        }
    }

    /// Resolve one name node: bind what can be bound, report what cannot, and
    /// analyze every subordinate expression and range.  Only indexed, sliced,
    /// attribute, call and external forms return no binding of their own.
    #[verifier::spinoff_prover]
    #[verifier::rlimit(100)]
    pub fn resolve_name(
        &self,
        region: &Region,
        name_pos: Pos,
        name: &mut Name,
        diagnostics: &mut Vec<Diagnostic>,
    ) -> (r: FatalResult<Option<NamedEntities>>)
        ensures
            sink_grew(old(diagnostics)@, final(diagnostics)@),
            name_resolves(
                self.table,
                *region,
                name_pos,
                *old(name),
                *final(name),
                sink_delta(old(diagnostics)@, final(diagnostics)@),
                r,
            ),
        decreases *old(name), 3int,
    {        proof {
            reveal(prefix_resolves);
            reveal(exprs_resolve);
            reveal(drange_resolves);
            reveal(attr_resolves);
            reveal(fcall_resolves);
            reveal(name_resolves);
        }

        let ghost d0 = diagnostics@;
        match name {
            Name::Selected(prefix, suffix) => {
                suffix.item.clear_reference();
                proof {
                    assert(*suffix == (WithPos {
                        item: (*old(name))->Selected_1.item.cleared(),
                        pos: (*old(name))->Selected_1.pos,
                    }));
                }
                let prefix_pos = prefix.pos;
                let rp = self.resolve_prefix(region, prefix_pos, &mut prefix.item, diagnostics);
                let ghost dmid = diagnostics@;
                proof {
                    assert(prefix_resolves(
                        self.table,
                        *region,
                        prefix_pos,
                        (*old(name))->Selected_0.item,
                        prefix.item,
                        sink_delta(d0, diagnostics@),
                        rp,
                    ));
                    assert(step_split(sink_delta(d0, diagnostics@), rp));
                }
                match rp {
                    Err(f) => Err(f),
                    Ok(None) => Ok(None),
                    Ok(Some(ent)) => match self.lookup_selected(prefix_pos, ent, &*suffix) {
                        Ok(Some(visible)) => {
                            suffix.item.set_reference(&visible);
                            Ok(Some(visible))
                        },
                        Ok(None) => Ok(None),
                        Err(err) => match err.add_to(diagnostics) {
                            Ok(_) => {
                                proof {
                                    lemma_sink_push(dmid, diagnostics@.last());
                                    lemma_sink_compose(d0, dmid, diagnostics@);
                                    assert(sink_delta(d0, diagnostics@) =~= sink_delta(
                                        d0,
                                        dmid,
                                    ).push(diagnostics@.last()@));
                                }
                                Ok(None)
                            },
                            Err(f) => Err(f),
                        },
                    },
                }
            },
            Name::SelectedAll(prefix) => {
                let prefix_pos = prefix.pos;
                let rp = self.resolve_prefix(region, prefix_pos, &mut prefix.item, diagnostics);
                proof {
                    assert(prefix_resolves(
                        self.table,
                        *region,
                        prefix_pos,
                        (*old(name))->SelectedAll_0.item,
                        prefix.item,
                        sink_delta(d0, diagnostics@),
                        rp,
                    ));
                    assert(step_split(sink_delta(d0, diagnostics@), rp));
                }
                match rp {
                    Err(f) => Err(f),
                    Ok(_) => Ok(None),
                }
            },
            Name::Designator(designator) => {
                designator.clear_reference();
                match region.lookup_within(name_pos, designator.designator) {
                    Ok(visible) => {
                        designator.set_reference(&visible);
                        proof {
                            lemma_sink_same(diagnostics@);
                        }
                        Ok(Some(visible))
                    },
                    Err(diagnostic) => {
                        let ghost dmid = diagnostics@;
                        diagnostics.push(diagnostic);
                        proof {
                            lemma_sink_push(dmid, diagnostics@.last());
                        }
                        Ok(None)
                    },
                }
            },
            Name::Indexed(prefix, exprs) => {
                let prefix_pos = prefix.pos;
                let rp = self.resolve_name(region, prefix_pos, &mut prefix.item, diagnostics);
                let ghost dmid = diagnostics@;
                proof {
                    assert(name_resolves(
                        self.table,
                        *region,
                        prefix_pos,
                        (*old(name))->Indexed_0.item,
                        prefix.item,
                        sink_delta(d0, diagnostics@),
                        rp,
                    ));
                    assert(step_split(sink_delta(d0, diagnostics@), rp));
                }
                match rp {
                    Err(f) => {
                        proof {
                            assert(exprs@ == (*old(name))->Indexed_1@);
                        }
                        return Err(f);
                    },
                    Ok(_) => {},
                }
                let r2 = self.analyze_expressions(region, exprs, diagnostics);
                proof {
                    lemma_sink_compose(d0, dmid, diagnostics@);
                    assert(exprs_resolve(
                        self.table,
                        *region,
                        (*old(name))->Indexed_1@,
                        exprs@,
                        sink_delta(dmid, diagnostics@),
                        r2,
                    ));
                    assert(step_split(sink_delta(dmid, diagnostics@), r2));
                }
                match r2 {
                    Err(f) => Err(f),
                    Ok(_) => Ok(None),
                }
            },
            Name::Slice(prefix, drange) => {
                let prefix_pos = prefix.pos;
                let rp = self.resolve_name(region, prefix_pos, &mut prefix.item, diagnostics);
                let ghost dmid = diagnostics@;
                proof {
                    assert(name_resolves(
                        self.table,
                        *region,
                        prefix_pos,
                        (*old(name))->Slice_0.item,
                        prefix.item,
                        sink_delta(d0, diagnostics@),
                        rp,
                    ));
                    assert(step_split(sink_delta(d0, diagnostics@), rp));
                }
                match rp {
                    Err(f) => {
                        return Err(f);
                    },
                    Ok(_) => {},
                }
                let r2 = self.analyze_discrete_range(region, &mut **drange, diagnostics);
                proof {
                    lemma_sink_compose(d0, dmid, diagnostics@);
                    assert(drange_resolves(
                        self.table,
                        *region,
                        *(*old(name))->Slice_1,
                        **drange,
                        sink_delta(dmid, diagnostics@),
                        r2,
                    ));
                    assert(step_split(sink_delta(dmid, diagnostics@), r2));
                }
                match r2 {
                    Err(f) => Err(f),
                    Ok(_) => Ok(None),
                }
            },
            Name::Attribute(attr) => {
                let r1 = self.analyze_attribute_name(region, &mut **attr, diagnostics);
                proof {
                    assert(attr_resolves(
                        self.table,
                        *region,
                        *(*old(name))->Attribute_0,
                        **attr,
                        sink_delta(d0, diagnostics@),
                        r1,
                    ));
                    assert(step_split(sink_delta(d0, diagnostics@), r1));
                }
                match r1 {
                    Err(f) => Err(f),
                    Ok(_) => Ok(None),
                }
            },
            Name::FunctionCall(fcall) => {
                let r1 = self.analyze_function_call(region, &mut **fcall, diagnostics);
                proof {
                    assert(fcall_resolves(
                        self.table,
                        *region,
                        *(*old(name))->FunctionCall_0,
                        **fcall,
                        sink_delta(d0, diagnostics@),
                        r1,
                    ));
                    assert(step_split(sink_delta(d0, diagnostics@), r1));
                }
                match r1 {
                    Err(f) => Err(f),
                    Ok(_) => Ok(None),
                }
            },
            Name::External(ename) => {
                let r1 = self.analyze_subtype_indication(region, &mut ename.subtype, diagnostics);
                proof {
                    let (m2, tmo) = type_mark_spec(
                        self.table,
                        *region,
                        (*old(name))->External_0.subtype.type_mark,
                    );
                    match tmo {
                        EntityOutcome::Local(dv) => {
                            assert(diagnostics@ =~= d0.push(diagnostics@.last()));
                            lemma_sink_push(d0, diagnostics@.last());
                        },
                        _ => {
                            lemma_sink_same(d0);
                        },
                    }
                }
                match r1 {
                    Err(f) => Err(f),
                    Ok(_) => Ok(None),
                }
            },
        }
    }

    /// Analyze the name of an attribute name with the full machinery, resolve
    /// its signature if one is present (reporting a local failure in place),
    /// and analyze its argument expression.  Whether the attribute is legal
    /// for the prefix's kind is deliberately not yet checked.
    #[verifier::spinoff_prover]
    #[verifier::rlimit(100)]
    fn analyze_attribute_name(
        &self,
        region: &Region,
        attr: &mut AttributeName,
        diagnostics: &mut Vec<Diagnostic>,
    ) -> (r: FatalNullResult)
        ensures
            sink_grew(old(diagnostics)@, final(diagnostics)@),
            attr_resolves(
                self.table,
                *region,
                *old(attr),
                *final(attr),
                sink_delta(old(diagnostics)@, final(diagnostics)@),
                r,
            ),
        decreases *old(attr), 3int,
    {        proof {
            reveal(name_resolves);
            reveal(wexpr_resolves);
            reveal(attr_resolves);
            reveal(attr_expr_resolves);
        }

        let ghost d0 = diagnostics@;
        let name_pos = attr.name.pos;
        let r1 = self.resolve_name(region, name_pos, &mut attr.name.item, diagnostics);
        let ghost dmid1 = diagnostics@;
        proof {
            assert(name_resolves(
                self.table,
                *region,
                old(attr).name.pos,
                old(attr).name.item,
                attr.name.item,
                sink_delta(d0, diagnostics@),
                r1,
            ));
            assert(step_split(sink_delta(d0, diagnostics@), r1));
        }
        let r: FatalNullResult = match r1 {
            Err(f) => {
                proof {
                    assert(attr_resolves(
                        self.table,
                        *region,
                        *old(attr),
                        *attr,
                        sink_delta(old(diagnostics)@, diagnostics@),
                        Err::<(), FatalError>(f),
                    ));
                }
                Err(f)
            },
            Ok(_) => {
                let sig_r: Option<AnalysisResult<()>> = match &mut attr.signature {
                    Some(signature) => Some(self.resolve_signature(region, signature)),
                    None => None,
                };
                let sig_step: FatalNullResult = match sig_r {
                    Some(Err(err)) => match err.add_to(diagnostics) {
                        Ok(_) => {
                            proof {
                                lemma_sink_push(dmid1, diagnostics@.last());
                            }
                            Ok(())
                        },
                        Err(f) => {
                            proof {
                                lemma_sink_same(diagnostics@);
                            }
                            Err(f)
                        },
                    },
                    _ => {
                        proof {
                            lemma_sink_same(diagnostics@);
                        }
                        Ok(())
                    },
                };
                match sig_step {
                    Err(f) => {
                        proof {
                            lemma_sink_compose(d0, dmid1, diagnostics@);
                            assert(attr_resolves(
                                self.table,
                                *region,
                                *old(attr),
                                *attr,
                                sink_delta(old(diagnostics)@, diagnostics@),
                                Err::<(), FatalError>(f),
                            ));
                        }
                        Err(f)
                    },
                    Ok(_) => {
                        let ghost dmid2 = diagnostics@;
                        let r3 = match &mut attr.expr {
                            Some(expr) => self.analyze_expression(region, &mut **expr, diagnostics),
                            None => {
                                proof {
                                    lemma_sink_same(diagnostics@);
                                }
                                Ok(())
                            },
                        };
                        proof {
                            lemma_sink_compose(dmid1, dmid2, diagnostics@);
                            lemma_sink_compose(d0, dmid1, diagnostics@);
                            assert(attr_expr_resolves(
                                self.table,
                                *region,
                                old(attr).expr,
                                attr.expr,
                                sink_delta(dmid2, diagnostics@),
                                r3,
                            ));
                            assert(step_split(sink_delta(dmid2, diagnostics@), r3));
                            assert(sink_delta(d0, diagnostics@) =~= sink_delta(d0, dmid1)
                                + sink_delta(dmid1, dmid2) + sink_delta(dmid2, diagnostics@));
                            assert(attr_resolves(
                                self.table,
                                *region,
                                *old(attr),
                                *attr,
                                sink_delta(old(diagnostics)@, diagnostics@),
                                r3,
                            ));
                        }
                        r3
                    },
                }
            },
        };
        proof {
            reveal_with_fuel(attr_resolves, 2);
            reveal_with_fuel(name_resolves, 2);
            reveal_with_fuel(attr_expr_resolves, 2);
            assert(attr_resolves(
                self.table,
                *region,
                *old(attr),
                *attr,
                sink_delta(old(diagnostics)@, diagnostics@),
                r,
            ));
        }
        r
    }

    /// Analyze a range: both bounds of a plain range, or an attribute name.
    #[verifier::spinoff_prover]
    #[verifier::rlimit(100)]
    pub fn analyze_range(
        &self,
        region: &Region,
        range: &mut Range,
        diagnostics: &mut Vec<Diagnostic>,
    ) -> (r: FatalNullResult)
        ensures
            sink_grew(old(diagnostics)@, final(diagnostics)@),
            range_resolves(
                self.table,
                *region,
                *old(range),
                *final(range),
                sink_delta(old(diagnostics)@, final(diagnostics)@),
                r,
            ),
        decreases *old(range), 3int,
    {        proof {
            reveal(range_resolves);
        }

        let ghost d0 = diagnostics@;
        match range {
            Range::Range(constraint) => {
                let r1 = self.analyze_expression(region, &mut *constraint.left_expr, diagnostics);
                let ghost dmid = diagnostics@;
                proof {
                    assert(wexpr_resolves(
                        self.table,
                        *region,
                        *(*old(range))->Range_0.left_expr,
                        *constraint.left_expr,
                        sink_delta(d0, diagnostics@),
                        r1,
                    ));
                    assert(step_split(sink_delta(d0, diagnostics@), r1));
                }
                match r1 {
                    Err(f) => {
                        return Err(f);
                    },
                    Ok(_) => {},
                }
                let r2 = self.analyze_expression(region, &mut *constraint.right_expr, diagnostics);
                proof {
                    lemma_sink_compose(d0, dmid, diagnostics@);
                    assert(wexpr_resolves(
                        self.table,
                        *region,
                        *(*old(range))->Range_0.right_expr,
                        *constraint.right_expr,
                        sink_delta(dmid, diagnostics@),
                        r2,
                    ));
                    assert(step_split(sink_delta(dmid, diagnostics@), r2));
                }
                r2
            },
            Range::Attribute(attr) => self.analyze_attribute_name(region, &mut **attr, diagnostics),
        }
    }

    /// Analyze a discrete range: resolve the type mark locally (a failure is
    /// reported, not propagated), then the optional range.
    #[verifier::spinoff_prover]
    #[verifier::rlimit(100)]
    pub fn analyze_discrete_range(
        &self,
        region: &Region,
        drange: &mut DiscreteRange,
        diagnostics: &mut Vec<Diagnostic>,
    ) -> (r: FatalNullResult)
        ensures
            sink_grew(old(diagnostics)@, final(diagnostics)@),
            drange_resolves(
                self.table,
                *region,
                *old(drange),
                *final(drange),
                sink_delta(old(diagnostics)@, final(diagnostics)@),
                r,
            ),
        decreases *old(drange), 3int,
    {        proof {
            reveal(drange_resolves);
        }

        let ghost d0 = diagnostics@;
        match drange {
            DiscreteRange::Discrete(type_mark, range) => {
                match self.resolve_type_mark(region, type_mark) {
                    Ok(_) => {
                        proof {
                            lemma_sink_same(diagnostics@);
                        }
                    },
                    Err(err) => match err.add_to(diagnostics) {
                        Ok(_) => {
                            proof {
                                lemma_sink_push(d0, diagnostics@.last());
                            }
                        },
                        Err(f) => {
                            proof {
                                lemma_sink_same(diagnostics@);
                            }
                            return Err(f);
                        },
                    },
                }
                let ghost dmid = diagnostics@;
                proof {
                    let (mark2, tmo) = type_mark_spec(
                        self.table,
                        *region,
                        (*old(drange))->Discrete_0,
                    );
                    match tmo {
                        EntityOutcome::Local(dv) => {
                            assert(dmid =~= d0.push(dmid.last()));
                            lemma_sink_push(d0, dmid.last());
                        },
                        _ => {
                            lemma_sink_same(d0);
                        },
                    }
                }
                let r2 = match range {
                    Some(range) => {
                        let rr = self.analyze_range(region, range, diagnostics);
                        proof {
                            assert((*old(drange))->Discrete_1 matches Some(org) && range_resolves(
                                self.table,
                                *region,
                                org,
                                *range,
                                sink_delta(dmid, diagnostics@),
                                rr,
                            ));
                            assert(step_split(sink_delta(dmid, diagnostics@), rr));
                        }
                        rr
                    },
                    None => {
                        proof {
                            lemma_sink_same(diagnostics@);
                        }
                        Ok(())
                    },
                };
                proof {
                    lemma_sink_compose(d0, dmid, diagnostics@);
                }
                r2
            },
            DiscreteRange::Range(range) => self.analyze_range(region, range, diagnostics),
        }
    }

    /// Analyze each choice: expressions and discrete ranges are analyzed,
    /// `others` is a no-op.
    #[verifier::spinoff_prover]
    #[verifier::rlimit(100)]
    pub fn analyze_choices(
        &self,
        region: &Region,
        choices: &mut Vec<Choice>,
        diagnostics: &mut Vec<Diagnostic>,
    ) -> (r: FatalNullResult)
        ensures
            sink_grew(old(diagnostics)@, final(diagnostics)@),
            choices_resolve(
                self.table,
                *region,
                old(choices)@,
                final(choices)@,
                sink_delta(old(diagnostics)@, final(diagnostics)@),
                r,
            ),
        decreases *old(choices), 3int,
    {        proof {
            reveal(choice_resolves);
            reveal(choices_resolve);
            reveal(choices_resolve_ok);
        }

        let n = choices.len();
        proof {
            lemma_sink_same(diagnostics@);
        }
        let mut i: usize = 0;
        while i < n
            invariant
                n == choices@.len(),
                old(choices)@.len() == n,
                i <= n,
                forall|j: int| i <= j < n ==> choices@[j] == old(choices)@[j],
                sink_grew(old(diagnostics)@, diagnostics@),
                choices_resolve_ok(
                    self.table,
                    *region,
                    old(choices)@.subrange(0, i as int),
                    choices@.subrange(0, i as int),
                    sink_delta(old(diagnostics)@, diagnostics@),
                ),
            decreases n - i,
        {
            proof {
                reveal(choices_resolve);
                reveal(choices_resolve_ok);
                reveal(choice_resolves);
            }
            let ghost dpre = diagnostics@;
            let ghost vpre = choices@;
            proof {
                assert(decreases_to!(*old(choices) => old(choices)@[i as int]));
            }
            let r = self.analyze_one_choice(region, &mut choices[i], diagnostics);
            proof {
                lemma_sink_compose(old(diagnostics)@, dpre, diagnostics@);
                assert(choices@.subrange(0, i as int) =~= vpre.subrange(0, i as int));
            }
            match r {
                Ok(_) => {
                    proof {
                        assert(r is Ok);
                        assert(r->Ok_0 == ());
                        assert(r == Ok::<(), FatalError>(()));
                        assert(old(choices)@.subrange(0, (i + 1) as int) =~= old(choices)@.subrange(
                            0,
                            i as int,
                        ).push(old(choices)@[i as int]));
                        assert(choices@.subrange(0, (i + 1) as int) =~= choices@.subrange(
                            0,
                            i as int,
                        ).push(choices@[i as int]));
                        lemma_choices_resolve_snoc(
                            self.table,
                            *region,
                            old(choices)@.subrange(0, i as int),
                            choices@.subrange(0, i as int),
                            sink_delta(old(diagnostics)@, dpre),
                            old(choices)@[i as int],
                            choices@[i as int],
                            sink_delta(dpre, diagnostics@),
                        );
                    }
                },
                Err(f) => {
                    proof {
                        assert(forall|j: int| i < j < n ==> choices@[j] == old(choices)@[j]);
                        lemma_choices_resolve_fatal(
                            self.table,
                            *region,
                            old(choices)@,
                            choices@,
                            i as int,
                            sink_delta(old(diagnostics)@, dpre),
                            sink_delta(dpre, diagnostics@),
                            f,
                        );
                        assert(sink_delta(old(diagnostics)@, diagnostics@) == sink_delta(
                            old(diagnostics)@,
                            dpre,
                        ) + sink_delta(dpre, diagnostics@));
                    }
                    return Err(f);
                },
            }
            i = i + 1;
        }
        proof {
            assert(old(choices)@.subrange(0, n as int) =~= old(choices)@);
            assert(choices@.subrange(0, n as int) =~= choices@);
        }
        Ok(())
    }

    /// One choice of `analyze_choices`.
    #[verifier::spinoff_prover]
    #[verifier::rlimit(100)]
    fn analyze_one_choice(
        &self,
        region: &Region,
        choice: &mut Choice,
        diagnostics: &mut Vec<Diagnostic>,
    ) -> (r: FatalNullResult)
        ensures
            sink_grew(old(diagnostics)@, final(diagnostics)@),
            choice_resolves(
                self.table,
                *region,
                *old(choice),
                *final(choice),
                sink_delta(old(diagnostics)@, final(diagnostics)@),
                r,
            ),
        decreases *old(choice), 4int,
    {        proof {
            reveal(choice_resolves);
        }

        match choice {
            Choice::Expression(expr) => self.analyze_expression(region, expr, diagnostics),
            Choice::DiscreteRange(drange) => self.analyze_discrete_range(
                region,
                drange,
                diagnostics,
            ),
            Choice::Others => {
                proof {
                    lemma_sink_same(diagnostics@);
                }
                Ok(())
            },
        }
    }

    /// Analyze an expression.
    #[verifier::spinoff_prover]
    #[verifier::rlimit(100)]
    pub fn analyze_expression(
        &self,
        region: &Region,
        expr: &mut WithPos<Expression>,
        diagnostics: &mut Vec<Diagnostic>,
    ) -> (r: FatalNullResult)
        ensures
            sink_grew(old(diagnostics)@, final(diagnostics)@),
            wexpr_resolves(
                self.table,
                *region,
                *old(expr),
                *final(expr),
                sink_delta(old(diagnostics)@, final(diagnostics)@),
                r,
            ),
        decreases *old(expr), 4int,
    {        proof {
            reveal(wexpr_resolves);
        }

        let pos = expr.pos;
        self.analyze_expression_pos(region, pos, &mut expr.item, diagnostics)
    }

    /// Analyze each waveform element: its value, then its optional delay;
    /// `unaffected` is a no-op.
    #[verifier::spinoff_prover]
    #[verifier::rlimit(100)]
    #[verifier::loop_isolation(false)]
    pub fn analyze_waveform(
        &self,
        region: &Region,
        wavf: &mut Waveform,
        diagnostics: &mut Vec<Diagnostic>,
    ) -> (r: FatalNullResult)
        ensures
            sink_grew(old(diagnostics)@, final(diagnostics)@),
            waveform_resolves(
                self.table,
                *region,
                *old(wavf),
                *final(wavf),
                sink_delta(old(diagnostics)@, final(diagnostics)@),
                r,
            ),
    {        proof {
            reveal(waveform_resolves);
            reveal(welems_resolve);
            reveal(welems_resolve_ok);
        }

        match wavf {
            Waveform::Elements(elems) => {
                let n = elems.len();
                proof {
                    lemma_sink_same(diagnostics@);
                }
                let mut i: usize = 0;
                while i < n
                    invariant
                        n == elems@.len(),
                        (*old(wavf)) is Elements,
                        (*old(wavf))->Elements_0@.len() == n,
                        forall|j: int| i <= j < n ==> elems@[j] == (*old(wavf))->Elements_0@[j],
                        i <= n,
                        sink_grew(old(diagnostics)@, diagnostics@),
                        welems_resolve_ok(
                            self.table,
                            *region,
                            (*old(wavf))->Elements_0@.subrange(0, i as int),
                            elems@.subrange(0, i as int),
                            sink_delta(old(diagnostics)@, diagnostics@),
                        ),
                    decreases n - i,
                {
                    proof {
                        reveal(waveform_resolves);
                        reveal(welems_resolve);
                        reveal(welems_resolve_ok);
                    }
                    let ghost oe = (*old(wavf))->Elements_0@;
                    let ghost dpre = diagnostics@;
                    let ghost vpre = elems@;
                    let r = self.analyze_waveform_element(region, &mut elems[i], diagnostics);
                    proof {
                        lemma_sink_compose(old(diagnostics)@, dpre, diagnostics@);
                        assert(elems@.subrange(0, i as int) =~= vpre.subrange(0, i as int));
                        assert(oe.subrange(0, (i + 1) as int).drop_last() =~= oe.subrange(
                            0,
                            i as int,
                        ));
                        assert(elems@.subrange(0, (i + 1) as int).drop_last() =~= elems@.subrange(
                            0,
                            i as int,
                        ));
                        assert(oe.subrange(0, (i + 1) as int).last() == oe[i as int]);
                        assert(elems@.subrange(0, (i + 1) as int).last() == elems@[i as int]);
                        assert(welem_resolves(
                            self.table,
                            *region,
                            oe[i as int],
                            elems@[i as int],
                            sink_delta(dpre, diagnostics@),
                            r,
                        ));
                    }
                    match r {
                        Ok(_) => {
                            proof {
                        assert(r is Ok);
                        assert(r->Ok_0 == ());
                        assert(r == Ok::<(), FatalError>(()));
                        assert(oe.subrange(0, (i + 1) as int) =~= oe.subrange(0, i as int).push(oe[i as int]));
                        assert(elems@.subrange(0, (i + 1) as int) =~= elems@.subrange(0, i as int).push(elems@[i as int]));
                        lemma_welems_resolve_snoc(
                            self.table,
                            *region,
                            oe.subrange(0, i as int),
                            elems@.subrange(0, i as int),
                            sink_delta(old(diagnostics)@, dpre),
                            oe[i as int],
                            elems@[i as int],
                            sink_delta(dpre, diagnostics@),
                        )
                    }
                        },
                        Err(f) => {
                            proof {
                                assert(forall|j: int| i < j < n ==> elems@[j] == oe[j]);
                        assert(welem_resolves(
                            self.table,
                            *region,
                            oe[i as int],
                            elems@[i as int],
                            sink_delta(dpre, diagnostics@),
                            Err::<(), FatalError>(f),
                        ));
                                lemma_welems_resolve_fatal(
                            self.table,
                            *region,
                            oe,
                            elems@,
                            i as int,
                            sink_delta(old(diagnostics)@, dpre),
                            sink_delta(dpre, diagnostics@),
                            f,
                        );
                        assert(sink_delta(old(diagnostics)@, diagnostics@) == sink_delta(
                            old(diagnostics)@,
                            dpre,
                        ) + sink_delta(dpre, diagnostics@));
                        assert(diag_split_at(
                            i as int,
                            sink_delta(old(diagnostics)@, dpre),
                            sink_delta(dpre, diagnostics@),
                        ));
                        assert(welems_resolve(
                            self.table,
                            *region,
                            oe,
                            elems@,
                            sink_delta(old(diagnostics)@, diagnostics@),
                            Err::<(), FatalError>(f),
                        ));
                            }
                            return Err(f);
                        },
                    }
                    i = i + 1;
                }
                proof {
                    let oe = (*old(wavf))->Elements_0@;
                    assert(oe.subrange(0, n as int) =~= oe);
                    assert(elems@.subrange(0, n as int) =~= elems@);
                }
                Ok(())
            },
            Waveform::Unaffected => {
                proof {
                    lemma_sink_same(diagnostics@);
                }
                Ok(())
            },
        }
    }

    /// One element of a waveform.
    #[verifier::spinoff_prover]
    #[verifier::rlimit(100)]
    fn analyze_waveform_element(
        &self,
        region: &Region,
        elem: &mut WaveformElement,
        diagnostics: &mut Vec<Diagnostic>,
    ) -> (r: FatalNullResult)
        ensures
            sink_grew(old(diagnostics)@, final(diagnostics)@),
            welem_resolves(
                self.table,
                *region,
                *old(elem),
                *final(elem),
                sink_delta(old(diagnostics)@, final(diagnostics)@),
                r,
            ),
    {        proof {
            reveal(welem_resolves);
        }

        let ghost d0 = diagnostics@;
        let r1 = self.analyze_expression(region, &mut elem.value, diagnostics);
        let ghost dmid = diagnostics@;
        proof {
            assert(step_split(sink_delta(d0, diagnostics@), r1));
        }
        match r1 {
            Err(f) => {
                return Err(f);
            },
            Ok(_) => {},
        }
        let r2 = match &mut elem.after {
            Some(expr) => self.analyze_expression(region, expr, diagnostics),
            None => {
                proof {
                    lemma_sink_same(diagnostics@);
                }
                Ok(())
            },
        };
        proof {
            lemma_sink_compose(d0, dmid, diagnostics@);
            assert(step_split(sink_delta(dmid, diagnostics@), r2));
        }
        r2
    }

    /// Analyze the expression of each non-open actual.
    #[verifier::spinoff_prover]
    #[verifier::rlimit(100)]
    pub fn analyze_assoc_elems(
        &self,
        region: &Region,
        elems: &mut Vec<AssociationElement>,
        diagnostics: &mut Vec<Diagnostic>,
    ) -> (r: FatalNullResult)
        ensures
            sink_grew(old(diagnostics)@, final(diagnostics)@),
            assocs_resolve(
                self.table,
                *region,
                old(elems)@,
                final(elems)@,
                sink_delta(old(diagnostics)@, final(diagnostics)@),
                r,
            ),
        decreases *old(elems), 3int,
    {        proof {
            reveal(assocs_resolve);
            reveal(assocs_resolve_ok);
        }

        let n = elems.len();
        proof {
            lemma_sink_same(diagnostics@);
        }
        let mut i: usize = 0;
        while i < n
            invariant
                n == elems@.len(),
                old(elems)@.len() == n,
                i <= n,
                forall|j: int| i <= j < n ==> elems@[j] == old(elems)@[j],
                sink_grew(old(diagnostics)@, diagnostics@),
                assocs_resolve_ok(
                    self.table,
                    *region,
                    old(elems)@.subrange(0, i as int),
                    elems@.subrange(0, i as int),
                    sink_delta(old(diagnostics)@, diagnostics@),
                ),
            decreases n - i,
        {
            proof {
                reveal(assocs_resolve);
                reveal(assocs_resolve_ok);
            }
            let ghost dpre = diagnostics@;
            let ghost vpre = elems@;
            proof {
                assert(decreases_to!(*old(elems) => old(elems)@[i as int]));
            }
            let r = self.analyze_assoc_elem(region, &mut elems[i], diagnostics);
            proof {
                lemma_sink_compose(old(diagnostics)@, dpre, diagnostics@);
                assert(elems@.subrange(0, i as int) =~= vpre.subrange(0, i as int));
                assert(old(elems)@.subrange(0, (i + 1) as int).drop_last() =~= old(
                    elems,
                )@.subrange(0, i as int));
                assert(elems@.subrange(0, (i + 1) as int).drop_last() =~= elems@.subrange(
                    0,
                    i as int,
                ));
                assert(old(elems)@.subrange(0, (i + 1) as int).last() == old(elems)@[i as int]);
                assert(elems@.subrange(0, (i + 1) as int).last() == elems@[i as int]);
                assert(assoc_el_resolves(
                    self.table,
                    *region,
                    old(elems)@[i as int],
                    elems@[i as int],
                    sink_delta(dpre, diagnostics@),
                    r,
                ));
            }
            match r {
                Ok(_) => {
                    proof {
                        assert(r is Ok);
                        assert(r->Ok_0 == ());
                        assert(r == Ok::<(), FatalError>(()));
                        assert(old(elems)@.subrange(0, (i + 1) as int) =~= old(elems)@.subrange(0, i as int).push(old(elems)@[i as int]));
                        assert(elems@.subrange(0, (i + 1) as int) =~= elems@.subrange(0, i as int).push(elems@[i as int]));
                        lemma_assocs_resolve_snoc(
                            self.table,
                            *region,
                            old(elems)@.subrange(0, i as int),
                            elems@.subrange(0, i as int),
                            sink_delta(old(diagnostics)@, dpre),
                            old(elems)@[i as int],
                            elems@[i as int],
                            sink_delta(dpre, diagnostics@),
                        )
                    }
                },
                Err(f) => {
                    proof {
                        assert(forall|j: int| i < j < n ==> elems@[j] == old(elems)@[j]);
                        assert(assoc_el_resolves(
                            self.table,
                            *region,
                            old(elems)@[i as int],
                            elems@[i as int],
                            sink_delta(dpre, diagnostics@),
                            Err::<(), FatalError>(f),
                        ));
                        lemma_assocs_resolve_fatal(
                            self.table,
                            *region,
                            old(elems)@,
                            elems@,
                            i as int,
                            sink_delta(old(diagnostics)@, dpre),
                            sink_delta(dpre, diagnostics@),
                            f,
                        );
                        assert(sink_delta(old(diagnostics)@, diagnostics@) == sink_delta(
                            old(diagnostics)@,
                            dpre,
                        ) + sink_delta(dpre, diagnostics@));
                    }
                    return Err(f);
                },
            }
            i = i + 1;
        }
        proof {
            assert(old(elems)@.subrange(0, n as int) =~= old(elems)@);
            assert(elems@.subrange(0, n as int) =~= elems@);
        }
        Ok(())
    }

    /// One association element: the actual's expression, at the actual's own
    /// position; an open actual is a no-op.
    #[verifier::spinoff_prover]
    #[verifier::rlimit(100)]
    fn analyze_assoc_elem(
        &self,
        region: &Region,
        elem: &mut AssociationElement,
        diagnostics: &mut Vec<Diagnostic>,
    ) -> (r: FatalNullResult)
        ensures
            sink_grew(old(diagnostics)@, final(diagnostics)@),
            assoc_el_resolves(
                self.table,
                *region,
                *old(elem),
                *final(elem),
                sink_delta(old(diagnostics)@, final(diagnostics)@),
                r,
            ),
        decreases *old(elem), 4int,
    {        proof {
            reveal(assoc_el_resolves);
        }

        let actual_pos = elem.actual.pos;
        match &mut elem.actual.item {
            ActualPart::Expression(expr) => self.analyze_expression_pos(
                region,
                actual_pos,
                expr,
                diagnostics,
            ),
            ActualPart::Open => {
                proof {
                    lemma_sink_same(diagnostics@);
                }
                Ok(())
            },
        }
    }

    /// Analyze a function call: the callee name, then every actual.
    #[verifier::spinoff_prover]
    #[verifier::rlimit(100)]
    pub fn analyze_function_call(
        &self,
        region: &Region,
        fcall: &mut FunctionCall,
        diagnostics: &mut Vec<Diagnostic>,
    ) -> (r: FatalNullResult)
        ensures
            sink_grew(old(diagnostics)@, final(diagnostics)@),
            fcall_resolves(
                self.table,
                *region,
                *old(fcall),
                *final(fcall),
                sink_delta(old(diagnostics)@, final(diagnostics)@),
                r,
            ),
        decreases *old(fcall), 3int,
    {        proof {
            reveal(fcall_resolves);
        }

        let ghost d0 = diagnostics@;
        let name_pos = fcall.name.pos;
        let r1 = self.resolve_name(region, name_pos, &mut fcall.name.item, diagnostics);
        let ghost dmid = diagnostics@;
        proof {
            assert(name_resolves(
                self.table,
                *region,
                old(fcall).name.pos,
                old(fcall).name.item,
                fcall.name.item,
                sink_delta(d0, diagnostics@),
                r1,
            ));
            assert(step_split(sink_delta(d0, diagnostics@), r1));
        }
        match r1 {
            Err(f) => {
                return Err(f);
            },
            Ok(_) => {},
        }
        let r2 = self.analyze_assoc_elems(region, &mut fcall.parameters, diagnostics);
        proof {
            lemma_sink_compose(d0, dmid, diagnostics@);
            assert(assocs_resolve(
                self.table,
                *region,
                old(fcall).parameters@,
                fcall.parameters@,
                sink_delta(dmid, diagnostics@),
                r2,
            ));
            assert(step_split(sink_delta(dmid, diagnostics@), r2));
        }
        r2
    }

    /// Analyze an aggregate: for each association, the discrete-range choices
    /// (an expression choice may be a record field name and is deferred) and
    /// the associated expression.
    #[verifier::spinoff_prover]
    #[verifier::rlimit(100)]
    pub fn analyze_aggregate(
        &self,
        region: &Region,
        assocs: &mut Vec<ElementAssociation>,
        diagnostics: &mut Vec<Diagnostic>,
    ) -> (r: FatalNullResult)
        ensures
            sink_grew(old(diagnostics)@, final(diagnostics)@),
            aggregate_resolves(
                self.table,
                *region,
                old(assocs)@,
                final(assocs)@,
                sink_delta(old(diagnostics)@, final(diagnostics)@),
                r,
            ),
        decreases *old(assocs), 3int,
    {        proof {
            reveal(aggregate_resolves);
            reveal(aggregate_resolves_ok);
        }

        let n = assocs.len();
        proof {
            lemma_sink_same(diagnostics@);
        }
        let mut i: usize = 0;
        while i < n
            invariant
                n == assocs@.len(),
                old(assocs)@.len() == n,
                i <= n,
                forall|j: int| i <= j < n ==> assocs@[j] == old(assocs)@[j],
                sink_grew(old(diagnostics)@, diagnostics@),
                aggregate_resolves_ok(
                    self.table,
                    *region,
                    old(assocs)@.subrange(0, i as int),
                    assocs@.subrange(0, i as int),
                    sink_delta(old(diagnostics)@, diagnostics@),
                ),
            decreases n - i,
        {
            proof {
                reveal(aggregate_resolves);
                reveal(aggregate_resolves_ok);
            }
            let ghost dpre = diagnostics@;
            let ghost vpre = assocs@;
            proof {
                assert(decreases_to!(*old(assocs) => old(assocs)@[i as int]));
            }
            let r = self.analyze_element_association(region, &mut assocs[i], diagnostics);
            proof {
                lemma_sink_compose(old(diagnostics)@, dpre, diagnostics@);
                assert(assocs@.subrange(0, i as int) =~= vpre.subrange(0, i as int));
                assert(old(assocs)@.subrange(0, (i + 1) as int).drop_last() =~= old(
                    assocs,
                )@.subrange(0, i as int));
                assert(assocs@.subrange(0, (i + 1) as int).drop_last() =~= assocs@.subrange(
                    0,
                    i as int,
                ));
                assert(old(assocs)@.subrange(0, (i + 1) as int).last() == old(assocs)@[i as int]);
                assert(assocs@.subrange(0, (i + 1) as int).last() == assocs@[i as int]);
                assert(assoc_resolves(
                    self.table,
                    *region,
                    old(assocs)@[i as int],
                    assocs@[i as int],
                    sink_delta(dpre, diagnostics@),
                    r,
                ));
            }
            match r {
                Ok(_) => {
                    proof {
                        assert(r is Ok);
                        assert(r->Ok_0 == ());
                        assert(r == Ok::<(), FatalError>(()));
                        assert(old(assocs)@.subrange(0, (i + 1) as int) =~= old(assocs)@.subrange(0, i as int).push(old(assocs)@[i as int]));
                        assert(assocs@.subrange(0, (i + 1) as int) =~= assocs@.subrange(0, i as int).push(assocs@[i as int]));
                        lemma_aggregate_resolves_snoc(
                            self.table,
                            *region,
                            old(assocs)@.subrange(0, i as int),
                            assocs@.subrange(0, i as int),
                            sink_delta(old(diagnostics)@, dpre),
                            old(assocs)@[i as int],
                            assocs@[i as int],
                            sink_delta(dpre, diagnostics@),
                        )
                    }
                },
                Err(f) => {
                    proof {
                        assert(forall|j: int| i < j < n ==> assocs@[j] == old(assocs)@[j]);
                        assert(assoc_resolves(
                            self.table,
                            *region,
                            old(assocs)@[i as int],
                            assocs@[i as int],
                            sink_delta(dpre, diagnostics@),
                            Err::<(), FatalError>(f),
                        ));
                        lemma_aggregate_resolves_fatal(
                            self.table,
                            *region,
                            old(assocs)@,
                            assocs@,
                            i as int,
                            sink_delta(old(diagnostics)@, dpre),
                            sink_delta(dpre, diagnostics@),
                            f,
                        );
                        assert(sink_delta(old(diagnostics)@, diagnostics@) == sink_delta(
                            old(diagnostics)@,
                            dpre,
                        ) + sink_delta(dpre, diagnostics@));
                    }
                    return Err(f);
                },
            }
            i = i + 1;
        }
        proof {
            assert(old(assocs)@.subrange(0, n as int) =~= old(assocs)@);
            assert(assocs@.subrange(0, n as int) =~= assocs@);
        }
        Ok(())
    }

    /// Analyze the discrete-range choices of one aggregate association, in
    /// order, stopping at a fatal error.
    #[verifier::spinoff_prover]
    #[verifier::rlimit(100)]
    fn analyze_aggregate_choices(
        &self,
        region: &Region,
        choices: &mut Vec<Choice>,
        diagnostics: &mut Vec<Diagnostic>,
    ) -> (r: FatalNullResult)
        ensures
            sink_grew(old(diagnostics)@, final(diagnostics)@),
            agg_choices_resolve(
                self.table,
                *region,
                old(choices)@,
                final(choices)@,
                sink_delta(old(diagnostics)@, final(diagnostics)@),
                r,
            ),
        decreases *old(choices), 3int,
    {
        proof {
            reveal(agg_choices_resolve);
            reveal(agg_choices_resolve_ok);
        }
        let n = choices.len();
        proof {
            lemma_sink_same(diagnostics@);
            assert(choices@.subrange(0, 0) =~= Seq::<Choice>::empty());
        }
        let mut i: usize = 0;
        while i < n
            invariant
                n == choices@.len(),
                old(choices)@.len() == n,
                i <= n,
                forall|j: int| i <= j < n ==> choices@[j] == old(choices)@[j],
                sink_grew(old(diagnostics)@, diagnostics@),
                agg_choices_resolve_ok(
                    self.table,
                    *region,
                    old(choices)@.subrange(0, i as int),
                    choices@.subrange(0, i as int),
                    sink_delta(old(diagnostics)@, diagnostics@),
                ),
            decreases n - i,
        {
            proof {
                reveal(agg_choices_resolve);
                reveal(agg_choices_resolve_ok);
            }
            let ghost dpre = diagnostics@;
            let ghost vpre = choices@;
            proof {
                assert(decreases_to!(*old(choices) => old(choices)@[i as int]));
            }
            let r = self.analyze_aggregate_choice(region, &mut choices[i], diagnostics);
            proof {
                lemma_sink_compose(old(diagnostics)@, dpre, diagnostics@);
                assert(choices@.subrange(0, i as int) =~= vpre.subrange(0, i as int));
            }
            match r {
                Ok(_) => {
                    proof {
                        assert(r is Ok);
                        assert(r->Ok_0 == ());
                        assert(r == Ok::<(), FatalError>(()));
                        assert(old(choices)@.subrange(0, (i + 1) as int) =~= old(choices)@.subrange(
                            0,
                            i as int,
                        ).push(old(choices)@[i as int]));
                        assert(choices@.subrange(0, (i + 1) as int) =~= choices@.subrange(
                            0,
                            i as int,
                        ).push(choices@[i as int]));
                        lemma_agg_choices_resolve_snoc(
                            self.table,
                            *region,
                            old(choices)@.subrange(0, i as int),
                            choices@.subrange(0, i as int),
                            sink_delta(old(diagnostics)@, dpre),
                            old(choices)@[i as int],
                            choices@[i as int],
                            sink_delta(dpre, diagnostics@),
                        );
                    }
                },
                Err(f) => {
                    proof {
                        assert(forall|j: int| i < j < n ==> choices@[j] == old(choices)@[j]);
                        lemma_agg_choices_resolve_fatal(
                            self.table,
                            *region,
                            old(choices)@,
                            choices@,
                            i as int,
                            sink_delta(old(diagnostics)@, dpre),
                            sink_delta(dpre, diagnostics@),
                            f,
                        );
                        assert(sink_delta(old(diagnostics)@, diagnostics@) == sink_delta(
                            old(diagnostics)@,
                            dpre,
                        ) + sink_delta(dpre, diagnostics@));
                    }
                    return Err(f);
                },
            }
            i = i + 1;
        }
        proof {
            assert(old(choices)@.subrange(0, n as int) =~= old(choices)@);
            assert(choices@.subrange(0, n as int) =~= choices@);
        }
        Ok(())
    }

    /// One element association of an aggregate: the analyzable choices, then
    /// the associated expression.
    #[verifier::spinoff_prover]
    #[verifier::rlimit(100)]
    fn analyze_element_association(
        &self,
        region: &Region,
        assoc: &mut ElementAssociation,
        diagnostics: &mut Vec<Diagnostic>,
    ) -> (r: FatalNullResult)
        ensures
            sink_grew(old(diagnostics)@, final(diagnostics)@),
            assoc_resolves(
                self.table,
                *region,
                *old(assoc),
                *final(assoc),
                sink_delta(old(diagnostics)@, final(diagnostics)@),
                r,
            ),
        decreases *old(assoc), 4int,
    {
        proof {
            reveal(assoc_resolves);
            reveal(wexpr_resolves);
        }
        let ghost d0 = diagnostics@;
        match assoc {
            ElementAssociation::Named(choices, expr) => {
                let r1 = self.analyze_aggregate_choices(region, choices, diagnostics);
                let ghost dmid = diagnostics@;
                proof {
                    assert(agg_choices_resolve(
                        self.table,
                        *region,
                        (*old(assoc))->Named_0@,
                        choices@,
                        sink_delta(d0, diagnostics@),
                        r1,
                    ));
                    assert(step_split(sink_delta(d0, diagnostics@), r1));
                }
                match r1 {
                    Err(f) => {
                        return Err(f);
                    },
                    Ok(_) => {},
                }
                let r2 = self.analyze_expression(region, expr, diagnostics);
                proof {
                    lemma_sink_compose(d0, dmid, diagnostics@);
                    assert(wexpr_resolves(
                        self.table,
                        *region,
                        (*old(assoc))->Named_1,
                        *expr,
                        sink_delta(dmid, diagnostics@),
                        r2,
                    ));
                    assert(step_split(sink_delta(dmid, diagnostics@), r2));
                }
                r2
            },
            ElementAssociation::Positional(expr) => self.analyze_expression(
                region,
                expr,
                diagnostics,
            ),
        }
    }

    /// One choice of an aggregate association: only a discrete range is
    /// analyzed here.
    #[verifier::spinoff_prover]
    #[verifier::rlimit(100)]
    fn analyze_aggregate_choice(
        &self,
        region: &Region,
        choice: &mut Choice,
        diagnostics: &mut Vec<Diagnostic>,
    ) -> (r: FatalNullResult)
        ensures
            sink_grew(old(diagnostics)@, final(diagnostics)@),
            agg_choice_resolves(
                self.table,
                *region,
                *old(choice),
                *final(choice),
                sink_delta(old(diagnostics)@, final(diagnostics)@),
                r,
            ),
        decreases *old(choice), 5int,
    {        proof {
            reveal(agg_choice_resolves);
        }

        match choice {
            Choice::Expression(_) => {
                proof {
                    lemma_sink_same(diagnostics@);
                }
                Ok(())
            },
            Choice::DiscreteRange(drange) => self.analyze_discrete_range(
                region,
                drange,
                diagnostics,
            ),
            Choice::Others => {
                proof {
                    lemma_sink_same(diagnostics@);
                }
                Ok(())
            },
        }
    }

    /// Analyze a qualified expression: the type-mark name, then the inner
    /// expression.
    #[verifier::spinoff_prover]
    #[verifier::rlimit(100)]
    fn analyze_qualified_expression(
        &self,
        region: &Region,
        qexpr: &mut QualifiedExpression,
        diagnostics: &mut Vec<Diagnostic>,
    ) -> (r: FatalNullResult)
        ensures
            sink_grew(old(diagnostics)@, final(diagnostics)@),
            qexpr_resolves(
                self.table,
                *region,
                *old(qexpr),
                *final(qexpr),
                sink_delta(old(diagnostics)@, final(diagnostics)@),
                r,
            ),
        decreases *old(qexpr), 3int,
    {        proof {
            reveal(qexpr_resolves);
        }

        let ghost d0 = diagnostics@;
        let name_pos = qexpr.name.pos;
        let r1 = self.resolve_name(region, name_pos, &mut qexpr.name.item, diagnostics);
        let ghost dmid = diagnostics@;
        match r1 {
            Err(f) => {
                proof {
                    assert(name_resolves(
                        self.table,
                        *region,
                        old(qexpr).name.pos,
                        old(qexpr).name.item,
                        qexpr.name.item,
                        sink_delta(d0, diagnostics@),
                        r1,
                    ));
                    assert(step_split(sink_delta(d0, diagnostics@), r1));
                }
                return Err(f);
            },
            Ok(_) => {},
        }
        let r2 = self.analyze_expression(region, &mut qexpr.expr, diagnostics);
        proof {
            lemma_sink_compose(d0, dmid, diagnostics@);
            assert(name_resolves(
                self.table,
                *region,
                old(qexpr).name.pos,
                old(qexpr).name.item,
                qexpr.name.item,
                sink_delta(d0, dmid),
                r1,
            ));
            assert(step_split(sink_delta(d0, dmid), r1));
            assert(wexpr_resolves(
                self.table,
                *region,
                old(qexpr).expr,
                qexpr.expr,
                sink_delta(dmid, diagnostics@),
                r2,
            ));
            assert(step_split(sink_delta(dmid, diagnostics@), r2));
            assert(sink_delta(d0, diagnostics@) == sink_delta(d0, dmid) + sink_delta(
                dmid,
                diagnostics@,
            ));
        }
        r2
    }

    /// Analyze one expression shape at a given position.
    #[verifier::spinoff_prover]
    #[verifier::rlimit(100)]
    fn analyze_expression_pos(
        &self,
        region: &Region,
        pos: Pos,
        expr: &mut Expression,
        diagnostics: &mut Vec<Diagnostic>,
    ) -> (r: FatalNullResult)
        ensures
            sink_grew(old(diagnostics)@, final(diagnostics)@),
            expr_resolves(
                self.table,
                *region,
                pos,
                *old(expr),
                *final(expr),
                sink_delta(old(diagnostics)@, final(diagnostics)@),
                r,
            ),
        decreases *old(expr), 3int,
    {        proof {
            reveal(expr_resolves);
        }

        let ghost d0 = diagnostics@;
        match expr {
            Expression::Binary(_, left, right) => {
                let r1 = self.analyze_expression(region, &mut **left, diagnostics);
                let ghost dmid = diagnostics@;
                proof {
                    assert(step_split(sink_delta(d0, diagnostics@), r1));
                }
                match r1 {
                    Err(f) => {
                        return Err(f);
                    },
                    Ok(_) => {},
                }
                let r2 = self.analyze_expression(region, &mut **right, diagnostics);
                proof {
                    lemma_sink_compose(d0, dmid, diagnostics@);
                    assert(step_split(sink_delta(dmid, diagnostics@), r2));
                }
                r2
            },
            Expression::Unary(_, inner) => {
                let r1 = self.analyze_expression(region, &mut **inner, diagnostics);
                proof {
                    assert(step_split(sink_delta(d0, diagnostics@), r1));
                }
                r1
            },
            Expression::Name(name) => {
                let r1 = self.resolve_name(region, pos, &mut **name, diagnostics);
                proof {
                    assert(step_split(sink_delta(d0, diagnostics@), r1));
                }
                match r1 {
                    Err(f) => Err(f),
                    Ok(_) => Ok(()),
                }
            },
            Expression::Aggregate(assocs) => {
                let r1 = self.analyze_aggregate(region, assocs, diagnostics);
                proof {
                    assert(aggregate_resolves(
                        self.table,
                        *region,
                        (*old(expr))->Aggregate_0@,
                        assocs@,
                        sink_delta(d0, diagnostics@),
                        r1,
                    ));
                }
                r1
            },
            Expression::Qualified(qexpr) => {
                let r1 = self.analyze_qualified_expression(region, &mut **qexpr, diagnostics);
                proof {
                    assert(qexpr_resolves(
                        self.table,
                        *region,
                        *(*old(expr))->Qualified_0,
                        **qexpr,
                        sink_delta(d0, diagnostics@),
                        r1,
                    ));
                }
                r1
            },
            Expression::New(alloc) => match &mut alloc.item {
                Allocator::Qualified(qexpr) => {
                    let r1 = self.analyze_qualified_expression(region, qexpr, diagnostics);
                    proof {
                        assert(qexpr_resolves(
                            self.table,
                            *region,
                            (*old(expr))->New_0.item->Qualified_0,
                            *qexpr,
                            sink_delta(d0, diagnostics@),
                            r1,
                        ));
                    }
                    r1
                },
                Allocator::Subtype(subtype) => {
                    let r1 = self.analyze_subtype_indication(region, subtype, diagnostics);
                    proof {
                        if r1 is Ok {
                            assert(r1->Ok_0 == ());
                            assert(r1 == Ok::<(), FatalError>(()));
                        }
                        let (m2, tmo) = type_mark_spec(
                            self.table,
                            *region,
                            (*old(expr))->New_0.item->Subtype_0.type_mark,
                        );
                        match tmo {
                            EntityOutcome::Local(dv) => {
                                assert(diagnostics@ =~= d0.push(diagnostics@.last()));
                                lemma_sink_push(d0, diagnostics@.last());
                            },
                            _ => {
                                lemma_sink_same(d0);
                            },
                        }
                    }
                    r1
                },
            },
            Expression::Literal(_) => {
                proof {
                    lemma_sink_same(diagnostics@);
                }
                Ok(())
            },
        }
    }

    /// Analyze an assignment target, in signal or variable context.
    #[verifier::spinoff_prover]
    #[verifier::rlimit(100)]
    fn analyze_target(
        &self,
        region: &Region,
        target: &mut WithPos<Target>,
        _assignment_type: AssignmentType,
        diagnostics: &mut Vec<Diagnostic>,
    ) -> (r: FatalNullResult)
        ensures
            sink_grew(old(diagnostics)@, final(diagnostics)@),
            target_resolves(
                self.table,
                *region,
                *old(target),
                *final(target),
                sink_delta(old(diagnostics)@, final(diagnostics)@),
                r,
            ),
    {        proof {
            reveal(target_resolves);
        }

        let pos = target.pos;
        match &mut target.item {
            Target::Name(name) => {
                let r1 = self.resolve_name(region, pos, name, diagnostics);
                proof {
                    assert(step_split(sink_delta(old(diagnostics)@, diagnostics@), r1));
                }
                match r1 {
                    Err(f) => Err(f),
                    Ok(_) => Ok(()),
                }
            },
            Target::Aggregate(assocs) => self.analyze_aggregate(region, assocs, diagnostics),
        }
    }
    /// One conditional of an expression assignment: value, then condition.
    fn analyze_expr_conditional(
        &self,
        region: &Region,
        cond: &mut Conditional<WithPos<Expression>>,
        diagnostics: &mut Vec<Diagnostic>,
    ) -> (r: FatalNullResult)
        ensures
            sink_grew(old(diagnostics)@, final(diagnostics)@),
            cond_expr_resolves(
                self.table,
                *region,
                *old(cond),
                *final(cond),
                sink_delta(old(diagnostics)@, final(diagnostics)@),
                r,
            ),
    {        proof {
            reveal(cond_expr_resolves);
        }

        let ghost d0 = diagnostics@;
        let r1 = self.analyze_expression(region, &mut cond.item, diagnostics);
        let ghost dmid = diagnostics@;
        proof {
            assert(wexpr_resolves(
                self.table,
                *region,
                old(cond).item,
                cond.item,
                sink_delta(d0, diagnostics@),
                r1,
            ));
            assert(step_split(sink_delta(d0, diagnostics@), r1));
        }
        match r1 {
            Err(f) => {
                return Err(f);
            },
            Ok(_) => {},
        }
        let r2 = self.analyze_expression(region, &mut cond.condition, diagnostics);
        proof {
            lemma_sink_compose(d0, dmid, diagnostics@);
            assert(wexpr_resolves(
                self.table,
                *region,
                old(cond).condition,
                cond.condition,
                sink_delta(dmid, diagnostics@),
                r2,
            ));
        }
        proof {
            assert(cond_expr_resolves(
                self.table,
                *region,
                *old(cond),
                *cond,
                sink_delta(old(diagnostics)@, diagnostics@),
                r2,
            )) by {
                assert(wexpr_resolves(
                    self.table,
                    *region,
                    old(cond).item,
                    cond.item,
                    sink_delta(old(diagnostics)@, dmid),
                    r1,
                ));
                assert(step_split(sink_delta(old(diagnostics)@, dmid), r1));
                assert(wexpr_resolves(
                    self.table,
                    *region,
                    old(cond).condition,
                    cond.condition,
                    sink_delta(dmid, diagnostics@),
                    r2,
                ));
                assert(step_split(sink_delta(dmid, diagnostics@), r2));
                assert(sink_delta(old(diagnostics)@, diagnostics@) == sink_delta(
                    old(diagnostics)@,
                    dmid,
                ) + sink_delta(dmid, diagnostics@));
            }
        }
        r2
    }

    /// One alternative of a selected expression assignment: value, then
    /// choices.
    fn analyze_expr_alternative(
        &self,
        region: &Region,
        alt: &mut Alternative<WithPos<Expression>>,
        diagnostics: &mut Vec<Diagnostic>,
    ) -> (r: FatalNullResult)
        ensures
            sink_grew(old(diagnostics)@, final(diagnostics)@),
            alt_expr_resolves(
                self.table,
                *region,
                *old(alt),
                *final(alt),
                sink_delta(old(diagnostics)@, final(diagnostics)@),
                r,
            ),
    {        proof {
            reveal(alt_expr_resolves);
            reveal(choices_resolve);
        }

        let ghost d0 = diagnostics@;
        let r1 = self.analyze_expression(region, &mut alt.item, diagnostics);
        let ghost dmid = diagnostics@;
        proof {
            assert(wexpr_resolves(
                self.table,
                *region,
                old(alt).item,
                alt.item,
                sink_delta(d0, diagnostics@),
                r1,
            ));
            assert(step_split(sink_delta(d0, diagnostics@), r1));
        }
        match r1 {
            Err(f) => {
                return Err(f);
            },
            Ok(_) => {},
        }
        let r2 = self.analyze_choices(region, &mut alt.choices, diagnostics);
        proof {
            lemma_sink_compose(d0, dmid, diagnostics@);
            assert(choices_resolve(
                self.table,
                *region,
                old(alt).choices@,
                alt.choices@,
                sink_delta(dmid, diagnostics@),
                r2,
            ));
        }
        proof {
            assert(alt_expr_resolves(
                self.table,
                *region,
                *old(alt),
                *alt,
                sink_delta(old(diagnostics)@, diagnostics@),
                r2,
            )) by {
                assert(wexpr_resolves(
                    self.table,
                    *region,
                    old(alt).item,
                    alt.item,
                    sink_delta(old(diagnostics)@, dmid),
                    r1,
                ));
                assert(step_split(sink_delta(old(diagnostics)@, dmid), r1));
                assert(choices_resolve(
                    self.table,
                    *region,
                    old(alt).choices@,
                    alt.choices@,
                    sink_delta(dmid, diagnostics@),
                    r2,
                ));
                assert(step_split(sink_delta(dmid, diagnostics@), r2));
                assert(sink_delta(old(diagnostics)@, diagnostics@) == sink_delta(
                    old(diagnostics)@,
                    dmid,
                ) + sink_delta(dmid, diagnostics@));
            }
        }
        r2
    }

    /// One conditional of a waveform assignment: waveform, then condition.
    fn analyze_waveform_conditional(
        &self,
        region: &Region,
        cond: &mut Conditional<Waveform>,
        diagnostics: &mut Vec<Diagnostic>,
    ) -> (r: FatalNullResult)
        ensures
            sink_grew(old(diagnostics)@, final(diagnostics)@),
            cond_wave_resolves(
                self.table,
                *region,
                *old(cond),
                *final(cond),
                sink_delta(old(diagnostics)@, final(diagnostics)@),
                r,
            ),
    {        proof {
            reveal(cond_wave_resolves);
        }

        let ghost d0 = diagnostics@;
        let r1 = self.analyze_waveform(region, &mut cond.item, diagnostics);
        let ghost dmid = diagnostics@;
        proof {
            assert(waveform_resolves(
                self.table,
                *region,
                old(cond).item,
                cond.item,
                sink_delta(d0, diagnostics@),
                r1,
            ));
            assert(step_split(sink_delta(d0, diagnostics@), r1));
        }
        match r1 {
            Err(f) => {
                return Err(f);
            },
            Ok(_) => {},
        }
        let r2 = self.analyze_expression(region, &mut cond.condition, diagnostics);
        proof {
            lemma_sink_compose(d0, dmid, diagnostics@);
            assert(wexpr_resolves(
                self.table,
                *region,
                old(cond).condition,
                cond.condition,
                sink_delta(dmid, diagnostics@),
                r2,
            ));
        }
        proof {
            assert(cond_wave_resolves(
                self.table,
                *region,
                *old(cond),
                *cond,
                sink_delta(old(diagnostics)@, diagnostics@),
                r2,
            )) by {
                assert(waveform_resolves(
                    self.table,
                    *region,
                    old(cond).item,
                    cond.item,
                    sink_delta(old(diagnostics)@, dmid),
                    r1,
                ));
                assert(step_split(sink_delta(old(diagnostics)@, dmid), r1));
                assert(wexpr_resolves(
                    self.table,
                    *region,
                    old(cond).condition,
                    cond.condition,
                    sink_delta(dmid, diagnostics@),
                    r2,
                ));
                assert(step_split(sink_delta(dmid, diagnostics@), r2));
                assert(sink_delta(old(diagnostics)@, diagnostics@) == sink_delta(
                    old(diagnostics)@,
                    dmid,
                ) + sink_delta(dmid, diagnostics@));
            }
        }
        r2
    }

    /// One alternative of a selected waveform assignment.
    fn analyze_waveform_alternative(
        &self,
        region: &Region,
        alt: &mut Alternative<Waveform>,
        diagnostics: &mut Vec<Diagnostic>,
    ) -> (r: FatalNullResult)
        ensures
            sink_grew(old(diagnostics)@, final(diagnostics)@),
            alt_wave_resolves(
                self.table,
                *region,
                *old(alt),
                *final(alt),
                sink_delta(old(diagnostics)@, final(diagnostics)@),
                r,
            ),
    {        proof {
            reveal(alt_wave_resolves);
            reveal(choices_resolve);
        }

        let ghost d0 = diagnostics@;
        let r1 = self.analyze_waveform(region, &mut alt.item, diagnostics);
        let ghost dmid = diagnostics@;
        proof {
            assert(waveform_resolves(
                self.table,
                *region,
                old(alt).item,
                alt.item,
                sink_delta(d0, diagnostics@),
                r1,
            ));
            assert(step_split(sink_delta(d0, diagnostics@), r1));
        }
        match r1 {
            Err(f) => {
                return Err(f);
            },
            Ok(_) => {},
        }
        let r2 = self.analyze_choices(region, &mut alt.choices, diagnostics);
        proof {
            lemma_sink_compose(d0, dmid, diagnostics@);
            assert(choices_resolve(
                self.table,
                *region,
                old(alt).choices@,
                alt.choices@,
                sink_delta(dmid, diagnostics@),
                r2,
            ));
        }
        proof {
            assert(alt_wave_resolves(
                self.table,
                *region,
                *old(alt),
                *alt,
                sink_delta(old(diagnostics)@, diagnostics@),
                r2,
            )) by {
                assert(waveform_resolves(
                    self.table,
                    *region,
                    old(alt).item,
                    alt.item,
                    sink_delta(old(diagnostics)@, dmid),
                    r1,
                ));
                assert(step_split(sink_delta(old(diagnostics)@, dmid), r1));
                assert(choices_resolve(
                    self.table,
                    *region,
                    old(alt).choices@,
                    alt.choices@,
                    sink_delta(dmid, diagnostics@),
                    r2,
                ));
                assert(step_split(sink_delta(dmid, diagnostics@), r2));
                assert(sink_delta(old(diagnostics)@, diagnostics@) == sink_delta(
                    old(diagnostics)@,
                    dmid,
                ) + sink_delta(dmid, diagnostics@));
            }
        }
        r2
    }

    /// Analyze each element of the list, stopping at a fatal error.
    fn analyze_expr_conditionals(
        &self,
        region: &Region,
        items: &mut Vec<Conditional<WithPos<Expression>>>,
        diagnostics: &mut Vec<Diagnostic>,
    ) -> (r: FatalNullResult)
        ensures
            sink_grew(old(diagnostics)@, final(diagnostics)@),
            conds_expr_resolve(
                self.table,
                *region,
                old(items)@,
                final(items)@,
                sink_delta(old(diagnostics)@, final(diagnostics)@),
                r,
            ),
    {        proof {
            reveal(conds_expr_resolve);
            reveal(conds_expr_resolve_ok);
        }

        let n = items.len();
        proof {
            lemma_sink_same(diagnostics@);
            assert(items@.subrange(0, 0) =~= Seq::<Conditional<WithPos<Expression>>>::empty());
        }
        let mut i: usize = 0;
        while i < n
            invariant
                n == items@.len(),
                old(items)@.len() == n,
                i <= n,
                forall|j: int| i <= j < n ==> items@[j] == old(items)@[j],
                sink_grew(old(diagnostics)@, diagnostics@),
                conds_expr_resolve_ok(
                    self.table,
                    *region,
                    old(items)@.subrange(0, i as int),
                    items@.subrange(0, i as int),
                    sink_delta(old(diagnostics)@, diagnostics@),
                ),
            decreases n - i,
        {
            proof {
                reveal(conds_expr_resolve);
                reveal(conds_expr_resolve_ok);
            }
            let ghost dpre = diagnostics@;
            let ghost vpre = items@;
            let r = self.analyze_expr_conditional(region, &mut items[i], diagnostics);
            proof {
                lemma_sink_compose(old(diagnostics)@, dpre, diagnostics@);
                assert(items@.subrange(0, i as int) =~= vpre.subrange(0, i as int));
            }
            match r {
                Ok(_) => {
                    proof {
                        assert(r is Ok);
                        assert(r->Ok_0 == ());
                        assert(r == Ok::<(), FatalError>(()));
                        assert(old(items)@.subrange(0, (i + 1) as int) =~= old(items)@.subrange(
                            0,
                            i as int,
                        ).push(old(items)@[i as int]));
                        assert(items@.subrange(0, (i + 1) as int) =~= items@.subrange(
                            0,
                            i as int,
                        ).push(items@[i as int]));
                        lemma_conds_expr_resolve_snoc(
                            self.table,
                            *region,
                            old(items)@.subrange(0, i as int),
                            items@.subrange(0, i as int),
                            sink_delta(old(diagnostics)@, dpre),
                            old(items)@[i as int],
                            items@[i as int],
                            sink_delta(dpre, diagnostics@),
                        );
                    }
                },
                Err(f) => {
                    proof {
                        assert(forall|j: int| i < j < n ==> items@[j] == old(items)@[j]);
                        lemma_conds_expr_resolve_fatal(
                            self.table,
                            *region,
                            old(items)@,
                            items@,
                            i as int,
                            sink_delta(old(diagnostics)@, dpre),
                            sink_delta(dpre, diagnostics@),
                            f,
                        );
                        assert(sink_delta(old(diagnostics)@, diagnostics@) == sink_delta(
                            old(diagnostics)@,
                            dpre,
                        ) + sink_delta(dpre, diagnostics@));
                    }
                    return Err(f);
                },
            }
            i = i + 1;
        }
        proof {
            assert(old(items)@.subrange(0, n as int) =~= old(items)@);
            assert(items@.subrange(0, n as int) =~= items@);
        }
        Ok(())
    }

    /// Analyze each element of the list, stopping at a fatal error.
    fn analyze_expr_alternatives(
        &self,
        region: &Region,
        items: &mut Vec<Alternative<WithPos<Expression>>>,
        diagnostics: &mut Vec<Diagnostic>,
    ) -> (r: FatalNullResult)
        ensures
            sink_grew(old(diagnostics)@, final(diagnostics)@),
            alts_expr_resolve(
                self.table,
                *region,
                old(items)@,
                final(items)@,
                sink_delta(old(diagnostics)@, final(diagnostics)@),
                r,
            ),
    {        proof {
            reveal(alts_expr_resolve);
            reveal(alts_expr_resolve_ok);
        }

        let n = items.len();
        proof {
            lemma_sink_same(diagnostics@);
            assert(items@.subrange(0, 0) =~= Seq::<Alternative<WithPos<Expression>>>::empty());
        }
        let mut i: usize = 0;
        while i < n
            invariant
                n == items@.len(),
                old(items)@.len() == n,
                i <= n,
                forall|j: int| i <= j < n ==> items@[j] == old(items)@[j],
                sink_grew(old(diagnostics)@, diagnostics@),
                alts_expr_resolve_ok(
                    self.table,
                    *region,
                    old(items)@.subrange(0, i as int),
                    items@.subrange(0, i as int),
                    sink_delta(old(diagnostics)@, diagnostics@),
                ),
            decreases n - i,
        {
            proof {
                reveal(alts_expr_resolve);
                reveal(alts_expr_resolve_ok);
            }
            let ghost dpre = diagnostics@;
            let ghost vpre = items@;
            let r = self.analyze_expr_alternative(region, &mut items[i], diagnostics);
            proof {
                lemma_sink_compose(old(diagnostics)@, dpre, diagnostics@);
                assert(items@.subrange(0, i as int) =~= vpre.subrange(0, i as int));
            }
            match r {
                Ok(_) => {
                    proof {
                        assert(r is Ok);
                        assert(r->Ok_0 == ());
                        assert(r == Ok::<(), FatalError>(()));
                        assert(old(items)@.subrange(0, (i + 1) as int) =~= old(items)@.subrange(
                            0,
                            i as int,
                        ).push(old(items)@[i as int]));
                        assert(items@.subrange(0, (i + 1) as int) =~= items@.subrange(
                            0,
                            i as int,
                        ).push(items@[i as int]));
                        lemma_alts_expr_resolve_snoc(
                            self.table,
                            *region,
                            old(items)@.subrange(0, i as int),
                            items@.subrange(0, i as int),
                            sink_delta(old(diagnostics)@, dpre),
                            old(items)@[i as int],
                            items@[i as int],
                            sink_delta(dpre, diagnostics@),
                        );
                    }
                },
                Err(f) => {
                    proof {
                        assert(forall|j: int| i < j < n ==> items@[j] == old(items)@[j]);
                        lemma_alts_expr_resolve_fatal(
                            self.table,
                            *region,
                            old(items)@,
                            items@,
                            i as int,
                            sink_delta(old(diagnostics)@, dpre),
                            sink_delta(dpre, diagnostics@),
                            f,
                        );
                        assert(sink_delta(old(diagnostics)@, diagnostics@) == sink_delta(
                            old(diagnostics)@,
                            dpre,
                        ) + sink_delta(dpre, diagnostics@));
                    }
                    return Err(f);
                },
            }
            i = i + 1;
        }
        proof {
            assert(old(items)@.subrange(0, n as int) =~= old(items)@);
            assert(items@.subrange(0, n as int) =~= items@);
        }
        Ok(())
    }

    /// Analyze each element of the list, stopping at a fatal error.
    fn analyze_waveform_conditionals(
        &self,
        region: &Region,
        items: &mut Vec<Conditional<Waveform>>,
        diagnostics: &mut Vec<Diagnostic>,
    ) -> (r: FatalNullResult)
        ensures
            sink_grew(old(diagnostics)@, final(diagnostics)@),
            conds_wave_resolve(
                self.table,
                *region,
                old(items)@,
                final(items)@,
                sink_delta(old(diagnostics)@, final(diagnostics)@),
                r,
            ),
    {        proof {
            reveal(conds_wave_resolve);
            reveal(conds_wave_resolve_ok);
        }

        let n = items.len();
        proof {
            lemma_sink_same(diagnostics@);
            assert(items@.subrange(0, 0) =~= Seq::<Conditional<Waveform>>::empty());
        }
        let mut i: usize = 0;
        while i < n
            invariant
                n == items@.len(),
                old(items)@.len() == n,
                i <= n,
                forall|j: int| i <= j < n ==> items@[j] == old(items)@[j],
                sink_grew(old(diagnostics)@, diagnostics@),
                conds_wave_resolve_ok(
                    self.table,
                    *region,
                    old(items)@.subrange(0, i as int),
                    items@.subrange(0, i as int),
                    sink_delta(old(diagnostics)@, diagnostics@),
                ),
            decreases n - i,
        {
            proof {
                reveal(conds_wave_resolve);
                reveal(conds_wave_resolve_ok);
            }
            let ghost dpre = diagnostics@;
            let ghost vpre = items@;
            let r = self.analyze_waveform_conditional(region, &mut items[i], diagnostics);
            proof {
                lemma_sink_compose(old(diagnostics)@, dpre, diagnostics@);
                assert(items@.subrange(0, i as int) =~= vpre.subrange(0, i as int));
            }
            match r {
                Ok(_) => {
                    proof {
                        assert(r is Ok);
                        assert(r->Ok_0 == ());
                        assert(r == Ok::<(), FatalError>(()));
                        assert(old(items)@.subrange(0, (i + 1) as int) =~= old(items)@.subrange(
                            0,
                            i as int,
                        ).push(old(items)@[i as int]));
                        assert(items@.subrange(0, (i + 1) as int) =~= items@.subrange(
                            0,
                            i as int,
                        ).push(items@[i as int]));
                        lemma_conds_wave_resolve_snoc(
                            self.table,
                            *region,
                            old(items)@.subrange(0, i as int),
                            items@.subrange(0, i as int),
                            sink_delta(old(diagnostics)@, dpre),
                            old(items)@[i as int],
                            items@[i as int],
                            sink_delta(dpre, diagnostics@),
                        );
                    }
                },
                Err(f) => {
                    proof {
                        assert(forall|j: int| i < j < n ==> items@[j] == old(items)@[j]);
                        lemma_conds_wave_resolve_fatal(
                            self.table,
                            *region,
                            old(items)@,
                            items@,
                            i as int,
                            sink_delta(old(diagnostics)@, dpre),
                            sink_delta(dpre, diagnostics@),
                            f,
                        );
                        assert(sink_delta(old(diagnostics)@, diagnostics@) == sink_delta(
                            old(diagnostics)@,
                            dpre,
                        ) + sink_delta(dpre, diagnostics@));
                    }
                    return Err(f);
                },
            }
            i = i + 1;
        }
        proof {
            assert(old(items)@.subrange(0, n as int) =~= old(items)@);
            assert(items@.subrange(0, n as int) =~= items@);
        }
        Ok(())
    }

    /// Analyze each element of the list, stopping at a fatal error.
    fn analyze_waveform_alternatives(
        &self,
        region: &Region,
        items: &mut Vec<Alternative<Waveform>>,
        diagnostics: &mut Vec<Diagnostic>,
    ) -> (r: FatalNullResult)
        ensures
            sink_grew(old(diagnostics)@, final(diagnostics)@),
            alts_wave_resolve(
                self.table,
                *region,
                old(items)@,
                final(items)@,
                sink_delta(old(diagnostics)@, final(diagnostics)@),
                r,
            ),
    {        proof {
            reveal(alts_wave_resolve);
            reveal(alts_wave_resolve_ok);
        }

        let n = items.len();
        proof {
            lemma_sink_same(diagnostics@);
            assert(items@.subrange(0, 0) =~= Seq::<Alternative<Waveform>>::empty());
        }
        let mut i: usize = 0;
        while i < n
            invariant
                n == items@.len(),
                old(items)@.len() == n,
                i <= n,
                forall|j: int| i <= j < n ==> items@[j] == old(items)@[j],
                sink_grew(old(diagnostics)@, diagnostics@),
                alts_wave_resolve_ok(
                    self.table,
                    *region,
                    old(items)@.subrange(0, i as int),
                    items@.subrange(0, i as int),
                    sink_delta(old(diagnostics)@, diagnostics@),
                ),
            decreases n - i,
        {
            proof {
                reveal(alts_wave_resolve);
                reveal(alts_wave_resolve_ok);
            }
            let ghost dpre = diagnostics@;
            let ghost vpre = items@;
            let r = self.analyze_waveform_alternative(region, &mut items[i], diagnostics);
            proof {
                lemma_sink_compose(old(diagnostics)@, dpre, diagnostics@);
                assert(items@.subrange(0, i as int) =~= vpre.subrange(0, i as int));
            }
            match r {
                Ok(_) => {
                    proof {
                        assert(r is Ok);
                        assert(r->Ok_0 == ());
                        assert(r == Ok::<(), FatalError>(()));
                        assert(old(items)@.subrange(0, (i + 1) as int) =~= old(items)@.subrange(
                            0,
                            i as int,
                        ).push(old(items)@[i as int]));
                        assert(items@.subrange(0, (i + 1) as int) =~= items@.subrange(
                            0,
                            i as int,
                        ).push(items@[i as int]));
                        lemma_alts_wave_resolve_snoc(
                            self.table,
                            *region,
                            old(items)@.subrange(0, i as int),
                            items@.subrange(0, i as int),
                            sink_delta(old(diagnostics)@, dpre),
                            old(items)@[i as int],
                            items@[i as int],
                            sink_delta(dpre, diagnostics@),
                        );
                    }
                },
                Err(f) => {
                    proof {
                        assert(forall|j: int| i < j < n ==> items@[j] == old(items)@[j]);
                        lemma_alts_wave_resolve_fatal(
                            self.table,
                            *region,
                            old(items)@,
                            items@,
                            i as int,
                            sink_delta(old(diagnostics)@, dpre),
                            sink_delta(dpre, diagnostics@),
                            f,
                        );
                        assert(sink_delta(old(diagnostics)@, diagnostics@) == sink_delta(
                            old(diagnostics)@,
                            dpre,
                        ) + sink_delta(dpre, diagnostics@));
                    }
                    return Err(f);
                },
            }
            i = i + 1;
        }
        proof {
            assert(old(items)@.subrange(0, n as int) =~= old(items)@);
            assert(items@.subrange(0, n as int) =~= items@);
        }
        Ok(())
    }

    /// Analyze an expression-valued assignment: the target and every value
    /// and condition of the right-hand side, in source order (the selector
    /// of a selected assignment comes before the target).
    pub fn analyze_expr_assignment(
        &self,
        region: &Region,
        target: &mut WithPos<Target>,
        assignment_type: AssignmentType,
        rhs: &mut AssignmentRightHand<WithPos<Expression>>,
        diagnostics: &mut Vec<Diagnostic>,
    ) -> (r: FatalNullResult)
        ensures
            sink_grew(old(diagnostics)@, final(diagnostics)@),
            expr_assignment_resolves(
                self.table,
                *region,
                *old(target),
                *final(target),
                *old(rhs),
                *final(rhs),
                sink_delta(old(diagnostics)@, final(diagnostics)@),
                r,
            ),
    {        proof {
            reveal(wexpr_resolves);
            reveal(target_resolves);
            reveal(conds_expr_resolve);
            reveal(alts_expr_resolve);
            reveal(expr_assignment_resolves);
        }

        let ghost d0 = diagnostics@;
        match rhs {
            AssignmentRightHand::Simple(expr) => {
                let r1 = self.analyze_target(region, target, assignment_type, diagnostics);
                let ghost dmid = diagnostics@;
                proof {
                    assert(step_split(sink_delta(d0, diagnostics@), r1));
                }
                match r1 {
                    Err(f) => {
                        return Err(f);
                    },
                    Ok(_) => {},
                }
                let r2 = self.analyze_expression(region, expr, diagnostics);
                proof {
                    lemma_sink_compose(d0, dmid, diagnostics@);
                    assert(step_split(sink_delta(dmid, diagnostics@), r2));
                }
                r2
            },
            AssignmentRightHand::Conditional(conditionals) => {
                let r1 = self.analyze_target(region, target, assignment_type, diagnostics);
                let ghost dmid1 = diagnostics@;
                proof {
                    assert(step_split(sink_delta(d0, diagnostics@), r1));
                }
                match r1 {
                    Err(f) => {
                        return Err(f);
                    },
                    Ok(_) => {},
                }
                let r2 = self.analyze_expr_conditionals(
                    region,
                    &mut conditionals.conditionals,
                    diagnostics,
                );
                let ghost dmid2 = diagnostics@;
                proof {
                    lemma_sink_compose(d0, dmid1, diagnostics@);
                    assert(step_split(sink_delta(dmid1, diagnostics@), r2));
                }
                match r2 {
                    Err(f) => {
                        return Err(f);
                    },
                    Ok(_) => {},
                }
                let r3 = match &mut conditionals.else_item {
                    Some(expr) => self.analyze_expression(region, expr, diagnostics),
                    None => {
                        proof {
                            lemma_sink_same(diagnostics@);
                        }
                        Ok(())
                    },
                };
                proof {
                    lemma_sink_compose(dmid1, dmid2, diagnostics@);
                    lemma_sink_compose(d0, dmid1, diagnostics@);
                    assert(sink_delta(d0, diagnostics@) =~= sink_delta(d0, dmid1) + sink_delta(
                        dmid1,
                        dmid2,
                    ) + sink_delta(dmid2, diagnostics@));
                    assert(step_split(sink_delta(dmid2, diagnostics@), r3));
                }
                r3
            },
            AssignmentRightHand::Selected(selection) => {
                let r1 = self.analyze_expression(region, &mut selection.expression, diagnostics);
                let ghost dmid1 = diagnostics@;
                proof {
                    assert(step_split(sink_delta(d0, diagnostics@), r1));
                }
                match r1 {
                    Err(f) => {
                        return Err(f);
                    },
                    Ok(_) => {},
                }
                let r2 = self.analyze_target(region, target, assignment_type, diagnostics);
                let ghost dmid2 = diagnostics@;
                proof {
                    lemma_sink_compose(d0, dmid1, diagnostics@);
                    assert(step_split(sink_delta(dmid1, diagnostics@), r2));
                }
                match r2 {
                    Err(f) => {
                        return Err(f);
                    },
                    Ok(_) => {},
                }
                let r3 = self.analyze_expr_alternatives(
                    region,
                    &mut selection.alternatives,
                    diagnostics,
                );
                proof {
                    lemma_sink_compose(dmid1, dmid2, diagnostics@);
                    lemma_sink_compose(d0, dmid1, diagnostics@);
                    assert(sink_delta(d0, diagnostics@) =~= sink_delta(d0, dmid1) + sink_delta(
                        dmid1,
                        dmid2,
                    ) + sink_delta(dmid2, diagnostics@));
                    assert(step_split(sink_delta(dmid2, diagnostics@), r3));
                }
                r3
            },
        }
    }

    /// Analyze a waveform-valued assignment, with the same shapes and order.
    pub fn analyze_waveform_assignment(
        &self,
        region: &Region,
        target: &mut WithPos<Target>,
        assignment_type: AssignmentType,
        rhs: &mut AssignmentRightHand<Waveform>,
        diagnostics: &mut Vec<Diagnostic>,
    ) -> (r: FatalNullResult)
        ensures
            sink_grew(old(diagnostics)@, final(diagnostics)@),
            waveform_assignment_resolves(
                self.table,
                *region,
                *old(target),
                *final(target),
                *old(rhs),
                *final(rhs),
                sink_delta(old(diagnostics)@, final(diagnostics)@),
                r,
            ),
    {        proof {
            reveal(wexpr_resolves);
            reveal(target_resolves);
            reveal(waveform_resolves);
            reveal(conds_wave_resolve);
            reveal(alts_wave_resolve);
            reveal(waveform_assignment_resolves);
        }

        let ghost d0 = diagnostics@;
        match rhs {
            AssignmentRightHand::Simple(wavf) => {
                let r1 = self.analyze_target(region, target, assignment_type, diagnostics);
                let ghost dmid = diagnostics@;
                proof {
                    assert(step_split(sink_delta(d0, diagnostics@), r1));
                }
                match r1 {
                    Err(f) => {
                        return Err(f);
                    },
                    Ok(_) => {},
                }
                let r2 = self.analyze_waveform(region, wavf, diagnostics);
                proof {
                    lemma_sink_compose(d0, dmid, diagnostics@);
                    assert(step_split(sink_delta(dmid, diagnostics@), r2));
                }
                r2
            },
            AssignmentRightHand::Conditional(conditionals) => {
                let r1 = self.analyze_target(region, target, assignment_type, diagnostics);
                let ghost dmid1 = diagnostics@;
                proof {
                    assert(step_split(sink_delta(d0, diagnostics@), r1));
                }
                match r1 {
                    Err(f) => {
                        return Err(f);
                    },
                    Ok(_) => {},
                }
                let r2 = self.analyze_waveform_conditionals(
                    region,
                    &mut conditionals.conditionals,
                    diagnostics,
                );
                let ghost dmid2 = diagnostics@;
                proof {
                    lemma_sink_compose(d0, dmid1, diagnostics@);
                    assert(step_split(sink_delta(dmid1, diagnostics@), r2));
                }
                match r2 {
                    Err(f) => {
                        return Err(f);
                    },
                    Ok(_) => {},
                }
                let r3 = match &mut conditionals.else_item {
                    Some(wavf) => self.analyze_waveform(region, wavf, diagnostics),
                    None => {
                        proof {
                            lemma_sink_same(diagnostics@);
                        }
                        Ok(())
                    },
                };
                proof {
                    lemma_sink_compose(dmid1, dmid2, diagnostics@);
                    lemma_sink_compose(d0, dmid1, diagnostics@);
                    assert(sink_delta(d0, diagnostics@) =~= sink_delta(d0, dmid1) + sink_delta(
                        dmid1,
                        dmid2,
                    ) + sink_delta(dmid2, diagnostics@));
                    assert(step_split(sink_delta(dmid2, diagnostics@), r3));
                }
                r3
            },
            AssignmentRightHand::Selected(selection) => {
                let r1 = self.analyze_expression(region, &mut selection.expression, diagnostics);
                let ghost dmid1 = diagnostics@;
                proof {
                    assert(step_split(sink_delta(d0, diagnostics@), r1));
                }
                match r1 {
                    Err(f) => {
                        return Err(f);
                    },
                    Ok(_) => {},
                }
                let r2 = self.analyze_target(region, target, assignment_type, diagnostics);
                let ghost dmid2 = diagnostics@;
                proof {
                    lemma_sink_compose(d0, dmid1, diagnostics@);
                    assert(step_split(sink_delta(dmid1, diagnostics@), r2));
                }
                match r2 {
                    Err(f) => {
                        return Err(f);
                    },
                    Ok(_) => {},
                }
                let r3 = self.analyze_waveform_alternatives(
                    region,
                    &mut selection.alternatives,
                    diagnostics,
                );
                proof {
                    lemma_sink_compose(dmid1, dmid2, diagnostics@);
                    lemma_sink_compose(d0, dmid1, diagnostics@);
                    assert(sink_delta(d0, diagnostics@) =~= sink_delta(d0, dmid1) + sink_delta(
                        dmid1,
                        dmid2,
                    ) + sink_delta(dmid2, diagnostics@));
                    assert(step_split(sink_delta(dmid2, diagnostics@), r3));
                }
                r3
            },
        }
    }

}

} // verus!
