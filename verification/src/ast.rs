//! The name, expression and statement shapes of the syntax tree that the
//! resolver walks.  The tree is produced by the parser; the resolver only
//! writes the reference slots of the `WithRef` designators inside it.

use vstd::prelude::*;
use crate::symbols::{Designator, Pos, WithPos, WithRef};

verus! {

/// A dotted name in a context where only declared entities can appear
/// (use clauses, type marks): a designator, or a prefix and a suffix.
pub enum SelectedName {
    Designator(WithRef),
    Selected(Box<WithPos<SelectedName>>, WithPos<WithRef>),
}

impl WithPos<SelectedName> {
    /// The position of the rightmost designator of the name.
    pub open spec fn suffix_pos_spec(self) -> Pos {
        match self.item {
            SelectedName::Designator(_) => self.pos,
            SelectedName::Selected(_, suffix) => suffix.pos,
        }
    }

    pub fn suffix_pos(&self) -> (p: Pos)
        ensures
            p == self.suffix_pos_spec(),
    {
        match &self.item {
            SelectedName::Designator(_) => self.pos,
            SelectedName::Selected(_, suffix) => suffix.pos,
        }
    }
}

/// A subtype indication: the type mark that names the base type.
pub struct SubtypeIndication {
    pub type_mark: WithPos<SelectedName>,
}

/// The signature qualifying an attribute name: the type marks of the
/// parameter and result profile.
pub struct Signature {
    pub type_marks: Vec<WithPos<SelectedName>>,
}

/// A name in a general expression context.
pub enum Name {
    Designator(WithRef),
    Selected(Box<WithPos<Name>>, WithPos<WithRef>),
    SelectedAll(Box<WithPos<Name>>),
    Indexed(Box<WithPos<Name>>, Vec<WithPos<Expression>>),
    Slice(Box<WithPos<Name>>, Box<DiscreteRange>),
    Attribute(Box<AttributeName>),
    FunctionCall(Box<FunctionCall>),
    External(Box<ExternalName>),
}

/// `prefix'attr`, optionally with a signature and an argument expression.
pub struct AttributeName {
    pub name: WithPos<Name>,
    pub attr: Designator,
    pub signature: Option<Signature>,
    pub expr: Option<Box<WithPos<Expression>>>,
}

/// An external name: only its declared subtype indication is analyzed.
pub struct ExternalName {
    pub subtype: SubtypeIndication,
}

pub struct FunctionCall {
    pub name: WithPos<Name>,
    pub parameters: Vec<AssociationElement>,
}

pub enum ActualPart {
    Expression(Expression),
    Open,
}

pub struct AssociationElement {
    pub formal: Option<WithPos<Designator>>,
    pub actual: WithPos<ActualPart>,
}

pub enum Expression {
    Binary(Designator, Box<WithPos<Expression>>, Box<WithPos<Expression>>),
    Unary(Designator, Box<WithPos<Expression>>),
    Name(Box<Name>),
    Aggregate(Vec<ElementAssociation>),
    Qualified(Box<QualifiedExpression>),
    New(Box<WithPos<Allocator>>),
    Literal(u64),
}

/// `type_mark'(expr)`.
pub struct QualifiedExpression {
    pub name: WithPos<Name>,
    pub expr: WithPos<Expression>,
}

pub enum Allocator {
    Qualified(QualifiedExpression),
    Subtype(SubtypeIndication),
}

pub enum ElementAssociation {
    Positional(WithPos<Expression>),
    Named(Vec<Choice>, WithPos<Expression>),
}

pub enum Choice {
    Expression(WithPos<Expression>),
    DiscreteRange(DiscreteRange),
    Others,
}

pub struct RangeConstraint {
    pub left_expr: Box<WithPos<Expression>>,
    pub right_expr: Box<WithPos<Expression>>,
}

pub enum Range {
    Range(RangeConstraint),
    Attribute(Box<AttributeName>),
}

pub enum DiscreteRange {
    Discrete(WithPos<SelectedName>, Option<Range>),
    Range(Range),
}

pub enum Waveform {
    Elements(Vec<WaveformElement>),
    Unaffected,
}

pub struct WaveformElement {
    pub value: WithPos<Expression>,
    pub after: Option<WithPos<Expression>>,
}

/// The left-hand side of an assignment.
pub enum Target {
    Name(Name),
    Aggregate(Vec<ElementAssociation>),
}

/// Whether an assignment assigns a signal or a variable.
#[derive(Clone, Copy, PartialEq, Eq, Structural, Debug)]
pub enum AssignmentType {
    Signal,
    Variable,
}

pub struct Conditional<T> {
    pub condition: WithPos<Expression>,
    pub item: T,
}

pub struct Conditionals<T> {
    pub conditionals: Vec<Conditional<T>>,
    pub else_item: Option<T>,
}

pub struct Alternative<T> {
    pub choices: Vec<Choice>,
    pub item: T,
}

pub struct Selection<T> {
    pub expression: WithPos<Expression>,
    pub alternatives: Vec<Alternative<T>>,
}

pub enum AssignmentRightHand<T> {
    Simple(T),
    Conditional(Conditionals<T>),
    Selected(Selection<T>),
}

} // verus!
