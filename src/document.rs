use vstd::prelude::*;

use crate::number::Number;

verus! {

/// A configuration document: a flat list of dotted-path field definitions.
/// `A` is the reference to an unevaluated sub-expression of the source language.
pub struct Document<A> {
    pub field_defs: Vec<FieldDef<A>>,
}

/// A record literal, itself written as field definitions.
pub struct Record<A> {
    pub field_defs: Vec<FieldDef<A>>,
}

/// A path of names bound to an authored value.
pub struct FieldDef<A> {
    pub path: Vec<String>,
    pub value: Term<A>,
}

/// A value as authored, before merging.
pub enum Term<A> {
    Null,
    Bool(bool),
    Number(Number),
    String(String),
    EnumVariant(String),
    Record(Record<A>),
    Array(Vec<Term<A>>),
    NickelTerm(A),
}

} // verus!
