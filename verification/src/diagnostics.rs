//! The diagnostic value type and the two-tier error model of the resolver.
//!
//! A `Diagnostic` records one finding that is local to a single name: the
//! analysis reports it and goes on.  A `FatalError` marks a structural
//! condition in the symbol graph that makes further analysis of the unit
//! unreliable; it propagates out of every resolver entry point unchanged.

use vstd::prelude::*;
use crate::symbols::{Designator, Pos, WithPos, WithRef};

verus! {

broadcast use {vstd::std_specs::vec::group_vec_axioms, vstd::seq::group_seq_axioms};

/// The classification of a local (non-fatal) finding.  Message rendering is
/// left to the consumer; each variant carries the data the message needs.
#[derive(Debug)]
pub enum DiagnosticCode {
    /// A plain designator was not visible in the enclosing scope.
    NotVisible { designator: Designator },
    /// A selected-name suffix has no declaration inside the prefix entity.
    NoDeclarationWithin { entity: usize, designator: Designator },
    /// The prefix entity's kind can never be the prefix of a selected name.
    InvalidSelectedNamePrefix { entity: usize },
    /// An overloaded name was used as the prefix of a selected name.
    OverloadedNamePrefix { designator: Designator },
    /// A selected name whose prefix did not denote a usable entity.
    InvalidPrefixForSelectedName,
    /// A name denoted a single entity, but not of the expected kind.
    MismatchedKind { entity: usize, expected: String },
    /// A name was expected to denote a single entity but was overloaded.
    MismatchedKindOverloaded { expected: String },
}

/// Ghost mirror of `DiagnosticCode`, with the message text as a sequence.
pub ghost enum DiagnosticCodeV {
    NotVisible { designator: Designator },
    NoDeclarationWithin { entity: usize, designator: Designator },
    InvalidSelectedNamePrefix { entity: usize },
    OverloadedNamePrefix { designator: Designator },
    InvalidPrefixForSelectedName,
    MismatchedKind { entity: usize, expected: Seq<char> },
    MismatchedKindOverloaded { expected: Seq<char> },
}

impl View for DiagnosticCode {
    type V = DiagnosticCodeV;

    open spec fn view(&self) -> DiagnosticCodeV {
        match self {
            DiagnosticCode::NotVisible { designator } => DiagnosticCodeV::NotVisible {
                designator: *designator,
            },
            DiagnosticCode::NoDeclarationWithin { entity, designator } =>
                DiagnosticCodeV::NoDeclarationWithin {
                entity: *entity,
                designator: *designator,
            },
            DiagnosticCode::InvalidSelectedNamePrefix { entity } =>
                DiagnosticCodeV::InvalidSelectedNamePrefix { entity: *entity },
            DiagnosticCode::OverloadedNamePrefix { designator } =>
                DiagnosticCodeV::OverloadedNamePrefix { designator: *designator },
            DiagnosticCode::InvalidPrefixForSelectedName =>
                DiagnosticCodeV::InvalidPrefixForSelectedName,
            DiagnosticCode::MismatchedKind { entity, expected } => DiagnosticCodeV::MismatchedKind {
                entity: *entity,
                expected: expected@,
            },
            DiagnosticCode::MismatchedKindOverloaded { expected } =>
                DiagnosticCodeV::MismatchedKindOverloaded { expected: expected@ },
        }
    }
}

/// One finding: a classification, the primary source position it is anchored
/// at, and zero or more "defined here" cross-reference positions.
#[derive(Debug)]
pub struct Diagnostic {
    pub pos: Pos,
    pub code: DiagnosticCode,
    pub related: Vec<Pos>,
}

/// Ghost mirror of `Diagnostic`.
pub ghost struct DiagnosticV {
    pub pos: Pos,
    pub code: DiagnosticCodeV,
    pub related: Seq<Pos>,
}

impl View for Diagnostic {
    type V = DiagnosticV;

    open spec fn view(&self) -> DiagnosticV {
        DiagnosticV { pos: self.pos, code: self.code@, related: self.related@ }
    }
}

/// The views of a sink's contents, in order.
#[verifier::opaque]
pub open spec fn diag_views(s: Seq<Diagnostic>) -> Seq<DiagnosticV> {
    s.map_values(|d: Diagnostic| d@)
}

impl Diagnostic {
    /// A finding with no related positions.
    pub fn error(pos: Pos, code: DiagnosticCode) -> (d: Diagnostic)
        ensures
            d@ == (DiagnosticV { pos, code: code@, related: Seq::<Pos>::empty() }),
    {
        let d = Diagnostic { pos, code, related: Vec::new() };
        proof {
            assert(d@.related =~= Seq::<Pos>::empty());
        }
        d
    }

    /// Append one "defined here" note.
    pub fn add_related(&mut self, pos: Pos)
        ensures
            final(self)@ == (DiagnosticV {
                pos: old(self)@.pos,
                code: old(self)@.code,
                related: old(self)@.related.push(pos),
            }),
    {
        self.related.push(pos);
    }
}

/// A structural defect of the symbol graph.  Analysis of the enclosing unit
/// stops; other units are unaffected.
#[derive(Clone, Copy, PartialEq, Eq, Structural, Debug)]
pub enum FatalError {
    /// An entity or forward-link index pointed outside the symbol table.
    DanglingEntityReference,
    /// A type-indirection chain longer than the symbol table itself: the
    /// subtype/access/incomplete graph contains a cycle.
    CircularDependency,
}

/// Either a local finding, safe to report and continue, or a fatal error.
#[derive(Debug)]
pub enum AnalysisError {
    NotFatal(Diagnostic),
    Fatal(FatalError),
}

pub type AnalysisResult<T> = Result<T, AnalysisError>;

pub type FatalResult<T> = Result<T, FatalError>;

pub type FatalNullResult = Result<(), FatalError>;

impl AnalysisError {
    /// The absorbing combinator of the two-tier model: a local finding is
    /// pushed into the sink and analysis continues, a fatal error propagates.
    pub fn add_to(self, diagnostics: &mut Vec<Diagnostic>) -> (r: FatalNullResult)
        ensures
            match self {
                AnalysisError::NotFatal(d) => final(diagnostics)@ == old(diagnostics)@.push(d)
                    && r is Ok,
                AnalysisError::Fatal(f) => final(diagnostics)@ == old(diagnostics)@ && r == Err::<
                    (),
                    FatalError,
                >(f),
            },
    {
        match self {
            AnalysisError::NotFatal(d) => {
                diagnostics.push(d);
                Ok(())
            }
            AnalysisError::Fatal(f) => Err(f),
        }
    }
}

/// The finding for an entity whose kind can never stand before the dot of a
/// selected name, anchored at the prefix's position.
pub open spec fn invalid_selected_name_prefix_spec(named_entity: usize, prefix: Pos) -> DiagnosticV {
    DiagnosticV {
        pos: prefix,
        code: DiagnosticCodeV::InvalidSelectedNamePrefix { entity: named_entity },
        related: Seq::<Pos>::empty(),
    }
}

pub fn invalid_selected_name_prefix(named_entity: usize, prefix: Pos) -> (d: Diagnostic)
    ensures
        d@ == invalid_selected_name_prefix_spec(named_entity, prefix),
{
    Diagnostic::error(prefix, DiagnosticCode::InvalidSelectedNamePrefix { entity: named_entity })
}

/// The finding for a suffix that has no declaration inside the prefix entity,
/// anchored at the suffix's position.
pub open spec fn no_declaration_within_spec(named_entity: usize, suffix: WithPos<WithRef>) -> DiagnosticV {
    DiagnosticV {
        pos: suffix.pos,
        code: DiagnosticCodeV::NoDeclarationWithin {
            entity: named_entity,
            designator: suffix.item.designator,
        },
        related: Seq::<Pos>::empty(),
    }
}

pub fn no_declaration_within(named_entity: usize, suffix: &WithPos<WithRef>) -> (d: Diagnostic)
    ensures
        d@ == no_declaration_within_spec(named_entity, *suffix),
{
    Diagnostic::error(
        suffix.pos,
        DiagnosticCode::NoDeclarationWithin {
            entity: named_entity,
            designator: suffix.item.designator,
        },
    )
}

} // verus!
