use vstd::prelude::*;
use vstd::string::StringExecFns;

use crate::merge::{copy_path, path_of};

verus! {

/// A shape that a consumer asks a value to take.
#[derive(PartialEq, Eq, Structural, Clone, Copy, Debug)]
pub enum Shape {
    Bool,
    Integer,
    Text,
    Optional,
    Mapping,
    Sequence,
    Opaque,
}

/// The shape that a decoded value actually has.
#[derive(PartialEq, Eq, Structural, Clone, Copy, Debug)]
pub enum Kind {
    Null,
    Bool,
    Number,
    String,
    EnumVariant,
    Record,
    Array,
    Opaque,
}

#[derive(Debug)]
pub enum Error {
    /// A message raised by the consumer of the value protocol.
    Message(String),
    /// Two field definitions name the same full path.
    DuplicateField(Vec<String>),
    /// A path descends through a leaf, ends on a nested record, or is empty.
    PathConflict(Vec<String>),
    /// A field definition's path is longer than the merge descends.
    PathTooDeep(Vec<String>),
    /// The requested shape does not fit the value.
    TypeMismatch(Shape, Kind),
    /// A number cannot be represented exactly in the requested width.
    NumericPrecisionLoss,
    /// An opaque handle was requested where the session holds none.
    MissingOpaqueSentinel,
    /// An error met while decoding the field at the given path.
    InField(Vec<String>, Box<Error>),
}

/// The names of a path joined by dots.
pub open spec fn dotted(p: Seq<Seq<char>>) -> Seq<char>
    decreases p.len(),
{
    if p.len() == 0 {
        Seq::empty()
    } else if p.len() == 1 {
        p[0]
    } else {
        dotted(p.drop_last()) + seq!['.'] + p.last()
    }
}

pub open spec fn shape_name(s: Shape) -> Seq<char> {
    match s {
        Shape::Bool => "boolean"@,
        Shape::Integer => "integer"@,
        Shape::Text => "text"@,
        Shape::Optional => "optional"@,
        Shape::Mapping => "map"@,
        Shape::Sequence => "sequence"@,
        Shape::Opaque => "opaque term"@,
    }
}

pub open spec fn kind_name(k: Kind) -> Seq<char> {
    match k {
        Kind::Null => "null"@,
        Kind::Bool => "boolean"@,
        Kind::Number => "number"@,
        Kind::String => "string"@,
        Kind::EnumVariant => "enum tag"@,
        Kind::Record => "record"@,
        Kind::Array => "array"@,
        Kind::Opaque => "opaque term"@,
    }
}

/// The text that describes an error: its kind, and the field path where it has one.
pub open spec fn error_text(e: Error) -> Seq<char>
    decreases e,
{
    match e {
        Error::Message(m) => if m@.len() == 0 {
            "unspecified error"@
        } else {
            m@
        },
        Error::DuplicateField(p) => "duplicate field: "@ + dotted(path_of(p@)),
        Error::PathConflict(p) => "conflicting field path: "@ + dotted(path_of(p@)),
        Error::PathTooDeep(p) => "field path too long: "@ + dotted(path_of(p@)),
        Error::TypeMismatch(s, k) => "type mismatch: expected "@ + shape_name(s) + ", found "@ + kind_name(k),
        Error::NumericPrecisionLoss => "number cannot be represented exactly"@,
        Error::MissingOpaqueSentinel => "no opaque term at this place"@,
        Error::InField(p, inner) => "in field "@ + dotted(path_of(p@)) + ": "@ + error_text(*inner),
    }
}

fn shape_str(s: Shape) -> (r: &'static str)
    ensures
        r@ == shape_name(s),
{
    match s {
        Shape::Bool => "boolean",
        Shape::Integer => "integer",
        Shape::Text => "text",
        Shape::Optional => "optional",
        Shape::Mapping => "map",
        Shape::Sequence => "sequence",
        Shape::Opaque => "opaque term",
    }
}

fn kind_str(k: Kind) -> (r: &'static str)
    ensures
        r@ == kind_name(k),
{
    match k {
        Kind::Null => "null",
        Kind::Bool => "boolean",
        Kind::Number => "number",
        Kind::String => "string",
        Kind::EnumVariant => "enum tag",
        Kind::Record => "record",
        Kind::Array => "array",
        Kind::Opaque => "opaque term",
    }
}

/// Appends the names of `p` joined by dots to `out`.
fn append_dotted(out: &mut String, p: &Vec<String>)
    ensures
        final(out)@ == old(out)@ + dotted(path_of(p@)),
{
    let ghost start = out@;
    let mut i: usize = 0;
    while i < p.len()
        invariant
            i <= p@.len(),
            out@ == start + dotted(path_of(p@).take(i as int)),
        decreases p@.len() - i,
    {
        let ghost before = out@;
        proof { reveal_strlit("."); }
        if i > 0 {
            out.append(".");
        }
        out.append(p[i].as_str());
        proof {
            let q = path_of(p@).take(i + 1);
            assert(q.drop_last() =~= path_of(p@).take(i as int));
            assert(q.last() == p@[i as int]@);
            if i == 0 {
                assert(path_of(p@).take(0) =~= Seq::<Seq<char>>::empty());
                assert(dotted(q) == q[0]);
            }
            assert(out@ =~= start + dotted(q));
        }
        i = i + 1;
    }
    assert(path_of(p@).take(p@.len() as int) =~= path_of(p@));
}

impl Error {
    /// A non-empty description of the error that names its kind, and the field path
    /// where the error has one.
    pub fn message(&self) -> (r: String)
        ensures
            r@ == error_text(*self),
            r@.len() > 0,
        decreases self,
    {
        proof {
            reveal_strlit("unspecified error");
            reveal_strlit("duplicate field: ");
            reveal_strlit("conflicting field path: ");
            reveal_strlit("field path too long: ");
            reveal_strlit("type mismatch: expected ");
            reveal_strlit("number cannot be represented exactly");
            reveal_strlit("no opaque term at this place");
            reveal_strlit("in field ");
        }
        match self {
            Error::Message(m) => if m.as_str().is_empty() {
                "unspecified error".to_owned()
            } else {
                m.clone()
            },
            Error::DuplicateField(p) => {
                let mut s = "duplicate field: ".to_owned();
                append_dotted(&mut s, p);
                s
            },
            Error::PathConflict(p) => {
                let mut s = "conflicting field path: ".to_owned();
                append_dotted(&mut s, p);
                s
            },
            Error::PathTooDeep(p) => {
                let mut s = "field path too long: ".to_owned();
                append_dotted(&mut s, p);
                s
            },
            Error::TypeMismatch(shape, kind) => {
                let mut s = "type mismatch: expected ".to_owned();
                s.append(shape_str(*shape));
                s.append(", found ");
                s.append(kind_str(*kind));
                s
            },
            Error::NumericPrecisionLoss => "number cannot be represented exactly".to_owned(),
            Error::MissingOpaqueSentinel => "no opaque term at this place".to_owned(),
            Error::InField(p, inner) => {
                let mut s = "in field ".to_owned();
                append_dotted(&mut s, p);
                s.append(": ");
                let m = inner.message();
                s.append(m.as_str());
                s
            },
        }
    }

    /// Annotates an error with the path of the field whose decoding raised it.
    pub fn in_field(self, path: &Vec<String>) -> (r: Error)
        ensures
            r is InField,
            path_of(r->InField_0@) == path_of(path@),
            *r->InField_1 == self,
    {
        Error::InField(copy_path(path), Box::new(self))
    }
}

pub type Result<T> = core::result::Result<T, Error>;

} // verus!
