use vstd::prelude::*;

use crate::error::{Error, Kind, Shape};
use crate::merge::find_key;
use crate::number::{fits_i64, integer_value, is_integral};
use crate::session::NICKEL_TERM_SENTINEL;
use crate::value::{lemma_fields_tree, list_tree, record_tree, Tree, Value};

verus! {

pub open spec fn kind_of<H>(t: Tree<H>) -> Kind {
    match t {
        Tree::Null => Kind::Null,
        Tree::Bool(_) => Kind::Bool,
        Tree::Number(_) => Kind::Number,
        Tree::Text(_) => Kind::String,
        Tree::Tag(_) => Kind::EnumVariant,
        Tree::Record(_, _) => Kind::Record,
        Tree::List(_) => Kind::Array,
        Tree::Opaque(_) => Kind::Opaque,
    }
}

/// The error for asking `t` to take the shape `s` that it does not have.
pub open spec fn mismatch<H>(s: Shape, t: Tree<H>) -> Error {
    Error::TypeMismatch(s, kind_of(t))
}

/// What an "optional" request yields: nothing for `Null`, else the value itself.
pub open spec fn optional_of<H>(t: Tree<H>) -> Option<Tree<H>> {
    if t is Null {
        None
    } else {
        Some(t)
    }
}

/// What a "boolean" request yields.
pub open spec fn bool_of<H>(t: Tree<H>) -> Result<bool, Error> {
    match t {
        Tree::Bool(b) => Ok(b),
        _ => Err(mismatch(Shape::Bool, t)),
    }
}

/// What a "text" request yields: a string or an enum tag.
pub open spec fn text_of<H>(t: Tree<H>) -> Result<Seq<char>, Error> {
    match t {
        Tree::Text(s) => Ok(s),
        Tree::Tag(s) => Ok(s),
        _ => Err(mismatch(Shape::Text, t)),
    }
}

/// What an "integer" request yields.
pub open spec fn integer_of<H>(t: Tree<H>) -> Result<int, Error> {
    match t {
        Tree::Number(n) => if is_integral(n) && fits_i64(integer_value(n)) {
            Ok(integer_value(n))
        } else {
            Err(Error::NumericPrecisionLoss)
        },
        _ => Err(mismatch(Shape::Integer, t)),
    }
}

/// The integer that a number denotes exactly, whatever its width.
pub open spec fn exact_integer_of<H>(t: Tree<H>) -> Result<int, Error> {
    match t {
        Tree::Number(n) => if is_integral(n) {
            Ok(integer_value(n))
        } else {
            Err(Error::NumericPrecisionLoss)
        },
        _ => Err(mismatch(Shape::Integer, t)),
    }
}

/// What an integer request of the range `lo..=hi` yields.
pub open spec fn integer_in<H>(t: Tree<H>, lo: int, hi: int) -> Result<int, Error> {
    match exact_integer_of(t) {
        Ok(x) => if lo <= x <= hi {
            Ok(x)
        } else {
            Err(Error::NumericPrecisionLoss)
        },
        Err(e) => Err(e),
    }
}

/// What an "opaque handle" request yields: the index of the handle.
pub open spec fn opaque_of(t: Tree<usize>) -> Result<usize, Error> {
    match t {
        Tree::Opaque(i) => Ok(i),
        _ => Err(Error::MissingOpaqueSentinel),
    }
}

/// The shape of a value.
pub fn kind<H>(v: &Value<H>) -> (r: Kind)
    ensures
        r == kind_of(v.tree()),
{
    match v {
        Value::Null => Kind::Null,
        Value::Bool(_) => Kind::Bool,
        Value::Number(_) => Kind::Number,
        Value::String(_) => Kind::String,
        Value::EnumVariant(_) => Kind::EnumVariant,
        Value::Record(_, _) => Kind::Record,
        Value::Array(_) => Kind::Array,
        Value::NickelTerm(_) => Kind::Opaque,
    }
}

/// Answers an "optional" request: `None` for `Null`, else the same value to adapt further.
pub fn as_option<H>(v: &Value<H>) -> (r: Option<&Value<H>>)
    ensures
        r is None <==> optional_of(v.tree()) is None,
        r is Some ==> r->Some_0 == v && optional_of(v.tree()) == Some(r->Some_0.tree()),
{
    match v {
        Value::Null => None,
        _ => Some(v),
    }
}

/// Answers a "boolean" request.
pub fn as_bool<H>(v: &Value<H>) -> (r: Result<bool, Error>)
    ensures
        r == bool_of(v.tree()),
{
    match v {
        Value::Bool(b) => Ok(*b),
        _ => Err(Error::TypeMismatch(Shape::Bool, kind(v))),
    }
}

/// Answers an "integer" request; the number must be exact in 64 bits.
pub fn as_i64<H>(v: &Value<H>) -> (r: Result<i64, Error>)
    ensures
        match integer_of(v.tree()) {
            Ok(x) => r is Ok && r->Ok_0 as int == x,
            Err(e) => r == Err::<i64, Error>(e),
        },
{
    match v {
        Value::Number(n) => match n.to_i64() {
            Ok(x) => Ok(x),
            Err(_) => Err(Error::NumericPrecisionLoss),
        },
        _ => Err(Error::TypeMismatch(Shape::Integer, kind(v))),
    }
}

/// Answers an unsigned 64-bit integer request; the number must be exact in that width.
pub fn as_u64<H>(v: &Value<H>) -> (r: Result<u64, Error>)
    ensures
        match integer_in(v.tree(), 0, u64::MAX as int) {
            Ok(x) => r is Ok && r->Ok_0 as int == x,
            Err(e) => r == Err::<u64, Error>(e),
        },
{
    match v {
        Value::Number(n) => match n.to_u64() {
            Ok(x) => Ok(x),
            Err(_) => Err(Error::NumericPrecisionLoss),
        },
        _ => Err(Error::TypeMismatch(Shape::Integer, kind(v))),
    }
}

/// Answers a signed 128-bit integer request; the number must be exact in that width.
pub fn as_i128<H>(v: &Value<H>) -> (r: Result<i128, Error>)
    ensures
        match integer_in(v.tree(), i128::MIN as int, i128::MAX as int) {
            Ok(x) => r is Ok && r->Ok_0 as int == x,
            Err(e) => r == Err::<i128, Error>(e),
        },
{
    match v {
        Value::Number(n) => match n.to_i128() {
            Ok(x) => Ok(x),
            Err(_) => Err(Error::NumericPrecisionLoss),
        },
        _ => Err(Error::TypeMismatch(Shape::Integer, kind(v))),
    }
}

/// Answers an unsigned 128-bit integer request; the number must be exact in that width.
pub fn as_u128<H>(v: &Value<H>) -> (r: Result<u128, Error>)
    ensures
        match integer_in(v.tree(), 0, u128::MAX as int) {
            Ok(x) => r is Ok && r->Ok_0 as int == x,
            Err(e) => r == Err::<u128, Error>(e),
        },
{
    match v {
        Value::Number(n) => match n.to_u128() {
            Ok(x) => Ok(x),
            Err(_) => Err(Error::NumericPrecisionLoss),
        },
        _ => Err(Error::TypeMismatch(Shape::Integer, kind(v))),
    }
}

/// Answers a signed 32-bit integer request; the number must be exact in that width.
pub fn as_i32<H>(v: &Value<H>) -> (r: Result<i32, Error>)
    ensures
        match integer_in(v.tree(), i32::MIN as int, i32::MAX as int) {
            Ok(x) => r is Ok && r->Ok_0 as int == x,
            Err(e) => r == Err::<i32, Error>(e),
        },
{
    match as_i64(v) {
        Ok(x) => if i32::MIN as i64 <= x && x <= i32::MAX as i64 {
            Ok(x as i32)
        } else {
            Err(Error::NumericPrecisionLoss)
        },
        Err(e) => Err(e),
    }
}

/// Answers a unsigned 32-bit integer request; the number must be exact in that width.
pub fn as_u32<H>(v: &Value<H>) -> (r: Result<u32, Error>)
    ensures
        match integer_in(v.tree(), u32::MIN as int, u32::MAX as int) {
            Ok(x) => r is Ok && r->Ok_0 as int == x,
            Err(e) => r == Err::<u32, Error>(e),
        },
{
    match as_i64(v) {
        Ok(x) => if u32::MIN as i64 <= x && x <= u32::MAX as i64 {
            Ok(x as u32)
        } else {
            Err(Error::NumericPrecisionLoss)
        },
        Err(e) => Err(e),
    }
}

/// Answers a signed 16-bit integer request; the number must be exact in that width.
pub fn as_i16<H>(v: &Value<H>) -> (r: Result<i16, Error>)
    ensures
        match integer_in(v.tree(), i16::MIN as int, i16::MAX as int) {
            Ok(x) => r is Ok && r->Ok_0 as int == x,
            Err(e) => r == Err::<i16, Error>(e),
        },
{
    match as_i64(v) {
        Ok(x) => if i16::MIN as i64 <= x && x <= i16::MAX as i64 {
            Ok(x as i16)
        } else {
            Err(Error::NumericPrecisionLoss)
        },
        Err(e) => Err(e),
    }
}

/// Answers a unsigned 16-bit integer request; the number must be exact in that width.
pub fn as_u16<H>(v: &Value<H>) -> (r: Result<u16, Error>)
    ensures
        match integer_in(v.tree(), u16::MIN as int, u16::MAX as int) {
            Ok(x) => r is Ok && r->Ok_0 as int == x,
            Err(e) => r == Err::<u16, Error>(e),
        },
{
    match as_i64(v) {
        Ok(x) => if u16::MIN as i64 <= x && x <= u16::MAX as i64 {
            Ok(x as u16)
        } else {
            Err(Error::NumericPrecisionLoss)
        },
        Err(e) => Err(e),
    }
}

/// Answers a signed 8-bit integer request; the number must be exact in that width.
pub fn as_i8<H>(v: &Value<H>) -> (r: Result<i8, Error>)
    ensures
        match integer_in(v.tree(), i8::MIN as int, i8::MAX as int) {
            Ok(x) => r is Ok && r->Ok_0 as int == x,
            Err(e) => r == Err::<i8, Error>(e),
        },
{
    match as_i64(v) {
        Ok(x) => if i8::MIN as i64 <= x && x <= i8::MAX as i64 {
            Ok(x as i8)
        } else {
            Err(Error::NumericPrecisionLoss)
        },
        Err(e) => Err(e),
    }
}

/// Answers a unsigned 8-bit integer request; the number must be exact in that width.
pub fn as_u8<H>(v: &Value<H>) -> (r: Result<u8, Error>)
    ensures
        match integer_in(v.tree(), u8::MIN as int, u8::MAX as int) {
            Ok(x) => r is Ok && r->Ok_0 as int == x,
            Err(e) => r == Err::<u8, Error>(e),
        },
{
    match as_i64(v) {
        Ok(x) => if u8::MIN as i64 <= x && x <= u8::MAX as i64 {
            Ok(x as u8)
        } else {
            Err(Error::NumericPrecisionLoss)
        },
        Err(e) => Err(e),
    }
}

/// Answers a "text" request with a string or an enum tag.
pub fn as_text<H>(v: &Value<H>) -> (r: Result<&String, Error>)
    ensures
        match text_of(v.tree()) {
            Ok(s) => r is Ok && r->Ok_0@ == s,
            Err(e) => r == Err::<&String, Error>(e),
        },
{
    match v {
        Value::String(s) => Ok(s),
        Value::EnumVariant(s) => Ok(s),
        _ => Err(Error::TypeMismatch(Shape::Text, kind(v))),
    }
}

/// Answers a "map" request with the record's entries, in order.
pub fn as_map<H>(v: &Value<H>) -> (r: Result<&Vec<(String, Value<H>)>, Error>)
    ensures
        match v.tree() {
            Tree::Record(fs, _) => r is Ok && record_tree(r->Ok_0@) == fs,
            _ => r == Err::<&Vec<(String, Value<H>)>, Error>(mismatch(Shape::Mapping, v.tree())),
        },
{
    match v {
        Value::Record(fs, _) => Ok(fs),
        _ => Err(Error::TypeMismatch(Shape::Mapping, kind(v))),
    }
}

/// Answers a "sequence" request with all elements of the array. The value is not
/// consumed, so the same request can be made again from the start.
pub fn as_seq<H>(v: &Value<H>) -> (r: Result<&Vec<Value<H>>, Error>)
    ensures
        match v.tree() {
            Tree::List(vs) => r is Ok && list_tree(r->Ok_0@, r->Ok_0@.len()) == vs,
            _ => r == Err::<&Vec<Value<H>>, Error>(mismatch(Shape::Sequence, v.tree())),
        },
{
    match v {
        Value::Array(vs) => Ok(vs),
        _ => Err(Error::TypeMismatch(Shape::Sequence, kind(v))),
    }
}

/// Answers an "opaque handle" request with the single entry that carries it:
/// the sentinel key and the index of the handle in the session's side table.
pub fn as_opaque(v: &Value<usize>) -> (r: Result<(String, u64), Error>)
    ensures
        match opaque_of(v.tree()) {
            Ok(i) => r is Ok && r->Ok_0.0@ == NICKEL_TERM_SENTINEL@ && r->Ok_0.1 as int == i as int,
            Err(e) => r == Err::<(String, u64), Error>(e),
        },
{
    match v {
        Value::NickelTerm(i) => Ok((NICKEL_TERM_SENTINEL.to_owned(), *i as u64)),
        _ => Err(Error::MissingOpaqueSentinel),
    }
}

/// The value stored under `key` in a record.
pub fn get<'a, H>(fields: &'a Vec<(String, Value<H>)>, key: &str) -> (r: Option<&'a Value<H>>)
    ensures
        find_key(record_tree(fields@), key@) == -1 ==> r is None,
        find_key(record_tree(fields@), key@) >= 0 ==> r is Some
            && record_tree(fields@)[find_key(record_tree(fields@), key@)].1 == r->Some_0.tree(),
{
    let k = key.to_owned();
    let ghost fs = record_tree(fields@);
    proof { lemma_fields_tree(fields@, fields@.len()); }
    let mut i: usize = 0;
    while i < fields.len()
        invariant
            i <= fields@.len(),
            k@ == key@,
            fs == record_tree(fields@),
            fs.len() == fields@.len(),
            forall|q: int| 0 <= q < fields@.len() ==> #[trigger] fs[q] == (fields@[q].0@, fields@[q].1.tree()),
            find_key(fs, key@) == crate::merge::find_from(fs, key@, i as int),
        decreases fields@.len() - i,
    {
        if fields[i].0 == k {
            return Some(&fields[i].1);
        }
        i = i + 1;
    }
    None
}

} // verus!
