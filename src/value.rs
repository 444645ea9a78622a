use vstd::prelude::*;

use crate::number::Number;

verus! {

/// A decoded value: records hold each key once.
/// `H` is what stands for an unevaluated sub-expression.
pub enum Value<H> {
    Null,
    Bool(bool),
    Number(Number),
    String(String),
    EnumVariant(String),
    /// A record and whether it was written as a literal (else a path made it).
    Record(Vec<(String, Value<H>)>, bool),
    Array(Vec<Value<H>>),
    NickelTerm(H),
}

/// The mathematical model of a decoded value.
pub enum Tree<H> {
    Null,
    Bool(bool),
    Number((bool, Seq<u8>, u32)),
    Text(Seq<char>),
    Tag(Seq<char>),
    Record(Seq<(Seq<char>, Tree<H>)>, bool),
    List(Seq<Tree<H>>),
    Opaque(H),
}

impl<H> Value<H> {
    pub open spec fn tree(self) -> Tree<H>
        decreases self, 0nat,
    {
        match self {
            Value::Null => Tree::Null,
            Value::Bool(b) => Tree::Bool(b),
            Value::Number(n) => Tree::Number(n@),
            Value::String(s) => Tree::Text(s@),
            Value::EnumVariant(s) => Tree::Tag(s@),
            Value::Record(fs, lit) => Tree::Record(fields_tree(fs@, fs@.len()), lit),
            Value::Array(vs) => Tree::List(list_tree(vs@, vs@.len())),
            Value::NickelTerm(h) => Tree::Opaque(h),
        }
    }
}

/// The model of the first `n` entries of a record.
pub open spec fn fields_tree<H>(fs: Seq<(String, Value<H>)>, n: nat) -> Seq<(Seq<char>, Tree<H>)>
    decreases fs, n,
{
    if n == 0 || n > fs.len() {
        Seq::empty()
    } else {
        fields_tree(fs, (n - 1) as nat).push((fs[n - 1].0@, fs[n - 1].1.tree()))
    }
}

/// The model of the first `n` elements of an array.
pub open spec fn list_tree<H>(vs: Seq<Value<H>>, n: nat) -> Seq<Tree<H>>
    decreases vs, n,
{
    if n == 0 || n > vs.len() {
        Seq::empty()
    } else {
        list_tree(vs, (n - 1) as nat).push(vs[n - 1].tree())
    }
}

pub open spec fn record_tree<H>(fs: Seq<(String, Value<H>)>) -> Seq<(Seq<char>, Tree<H>)> {
    fields_tree(fs, fs.len())
}

pub proof fn lemma_fields_tree<H>(fs: Seq<(String, Value<H>)>, n: nat)
    requires
        n <= fs.len(),
    ensures
        fields_tree(fs, n).len() == n,
        forall|i: int| 0 <= i < n ==> #[trigger] fields_tree(fs, n)[i] == (fs[i].0@, fs[i].1.tree()),
    decreases n,
{
    if n > 0 {
        lemma_fields_tree(fs, (n - 1) as nat);
    }
}

pub proof fn lemma_list_tree<H>(vs: Seq<Value<H>>, n: nat)
    requires
        n <= vs.len(),
    ensures
        list_tree(vs, n).len() == n,
        forall|i: int| 0 <= i < n ==> #[trigger] list_tree(vs, n)[i] == vs[i].tree(),
    decreases n,
{
    if n > 0 {
        lemma_list_tree(vs, (n - 1) as nat);
    }
}

} // verus!
