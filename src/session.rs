use vstd::prelude::*;

use crate::document::Document;
use crate::error::Error;
use crate::merge::{error_is, merge_fields, merged, Fail, Fields};
use crate::value::{fields_tree, lemma_fields_tree, lemma_list_tree, list_tree, record_tree, Tree, Value};

verus! {

/// The reserved map key under which an opaque term's index crosses the value protocol.
/// It is not a legal field name of the source language.
pub const NICKEL_TERM_SENTINEL: &'static str = "$nickel-lang-document::private::NickelTerm";

/// Replaces each opaque index of `t` by the handle that `table` holds there.
pub open spec fn resolve<A>(t: Tree<usize>, table: Seq<A>) -> Tree<A>
    decreases t, 0nat,
{
    match t {
        Tree::Null => Tree::Null,
        Tree::Bool(b) => Tree::Bool(b),
        Tree::Number(n) => Tree::Number(n),
        Tree::Text(s) => Tree::Text(s),
        Tree::Tag(s) => Tree::Tag(s),
        Tree::Record(fs, lit) => Tree::Record(resolve_fields(fs, table, fs.len()), lit),
        Tree::List(vs) => Tree::List(resolve_list(vs, table, vs.len())),
        Tree::Opaque(i) => Tree::Opaque(table[i as int]),
    }
}

pub open spec fn resolve_fields<A>(fs: Fields<usize>, table: Seq<A>, n: nat) -> Fields<A>
    decreases fs, n,
{
    if n == 0 || n > fs.len() {
        Seq::empty()
    } else {
        resolve_fields(fs, table, (n - 1) as nat).push((fs[n - 1].0, resolve(fs[n - 1].1, table)))
    }
}

pub open spec fn resolve_list<A>(vs: Seq<Tree<usize>>, table: Seq<A>, n: nat) -> Seq<Tree<A>>
    decreases vs, n,
{
    if n == 0 || n > vs.len() {
        Seq::empty()
    } else {
        resolve_list(vs, table, (n - 1) as nat).push(resolve(vs[n - 1], table))
    }
}

/// The opaque nodes of a tree, in document order.
pub open spec fn opaques<H>(t: Tree<H>) -> Seq<H>
    decreases t, 0nat,
{
    match t {
        Tree::Record(fs, _) => opaques_fields(fs, fs.len()),
        Tree::List(vs) => opaques_list(vs, vs.len()),
        Tree::Opaque(h) => seq![h],
        _ => Seq::empty(),
    }
}

pub open spec fn opaques_fields<H>(fs: Seq<(Seq<char>, Tree<H>)>, n: nat) -> Seq<H>
    decreases fs, n,
{
    if n == 0 || n > fs.len() {
        Seq::empty()
    } else {
        opaques_fields(fs, (n - 1) as nat) + opaques(fs[n - 1].1)
    }
}

pub open spec fn opaques_list<H>(vs: Seq<Tree<H>>, n: nat) -> Seq<H>
    decreases vs, n,
{
    if n == 0 || n > vs.len() {
        Seq::empty()
    } else {
        opaques_list(vs, (n - 1) as nat) + opaques(vs[n - 1])
    }
}

/// The indices `from`, `from + 1`, ..., below `to`.
pub open spec fn index_range(from: nat, to: nat) -> Seq<usize> {
    Seq::new((to - from) as nat, |q: int| (from + q) as usize)
}

proof fn lemma_opaques_fields_prefix<H>(f1: Seq<(Seq<char>, Tree<H>)>, f2: Seq<(Seq<char>, Tree<H>)>, n: nat)
    requires
        n <= f1.len(),
        n <= f2.len(),
        forall|i: int| 0 <= i < n ==> f1[i] == f2[i],
    ensures
        opaques_fields(f1, n) == opaques_fields(f2, n),
    decreases n,
{
    if n > 0 {
        lemma_opaques_fields_prefix(f1, f2, (n - 1) as nat);
    }
}

proof fn lemma_opaques_list_prefix<H>(v1: Seq<Tree<H>>, v2: Seq<Tree<H>>, n: nat)
    requires
        n <= v1.len(),
        n <= v2.len(),
        forall|i: int| 0 <= i < n ==> v1[i] == v2[i],
    ensures
        opaques_list(v1, n) == opaques_list(v2, n),
    decreases n,
{
    if n > 0 {
        lemma_opaques_list_prefix(v1, v2, (n - 1) as nat);
    }
}

/// Every opaque index in `t` is below `m`.
pub open spec fn below(t: Tree<usize>, m: nat) -> bool
    decreases t, 0nat,
{
    match t {
        Tree::Record(fs, _) => below_fields(fs, m, fs.len()),
        Tree::List(vs) => below_list(vs, m, vs.len()),
        Tree::Opaque(i) => i < m,
        _ => true,
    }
}

pub open spec fn below_fields(fs: Fields<usize>, m: nat, n: nat) -> bool
    decreases fs, n,
{
    if n == 0 || n > fs.len() {
        true
    } else {
        below_fields(fs, m, (n - 1) as nat) && below(fs[n - 1].1, m)
    }
}

pub open spec fn below_list(vs: Seq<Tree<usize>>, m: nat, n: nat) -> bool
    decreases vs, n,
{
    if n == 0 || n > vs.len() {
        true
    } else {
        below_list(vs, m, (n - 1) as nat) && below(vs[n - 1], m)
    }
}

proof fn lemma_resolve_fields_index<A>(fs: Fields<usize>, table: Seq<A>, m: nat, n: nat)
    requires
        n <= fs.len(),
    ensures
        resolve_fields(fs, table, n).len() == n,
        forall|i: int| 0 <= i < n ==> #[trigger] resolve_fields(fs, table, n)[i] == (fs[i].0, resolve(fs[i].1, table)),
        below_fields(fs, m, n) <==> forall|i: int| 0 <= i < n ==> below(#[trigger] fs[i].1, m),
    decreases n,
{
    if n > 0 {
        lemma_resolve_fields_index(fs, table, m, (n - 1) as nat);
    }
}

proof fn lemma_resolve_list_index<A>(vs: Seq<Tree<usize>>, table: Seq<A>, m: nat, n: nat)
    requires
        n <= vs.len(),
    ensures
        resolve_list(vs, table, n).len() == n,
        forall|i: int| 0 <= i < n ==> #[trigger] resolve_list(vs, table, n)[i] == resolve(vs[i], table),
        below_list(vs, m, n) <==> forall|i: int| 0 <= i < n ==> below(#[trigger] vs[i], m),
    decreases n,
{
    if n > 0 {
        lemma_resolve_list_index(vs, table, m, (n - 1) as nat);
    }
}

/// Growing the table keeps what an already indexed tree resolves to.
proof fn lemma_resolve_extend<A>(t: Tree<usize>, t1: Seq<A>, t2: Seq<A>, m: nat)
    requires
        below(t, t1.len()),
        t1.len() <= t2.len(),
        t1 == t2.take(t1.len() as int),
        t1.len() <= m,
    ensures
        resolve(t, t1) == resolve(t, t2),
        below(t, m),
    decreases t,
{
    match t {
        Tree::Record(fs, _) => {
            lemma_resolve_fields_index(fs, t1, t1.len(), fs.len());
            lemma_resolve_fields_index(fs, t2, m, fs.len());
            assert forall|i: int| 0 <= i < fs.len() implies resolve(fs[i].1, t1) == resolve(fs[i].1, t2)
                && below(#[trigger] fs[i].1, m) by {
                lemma_resolve_extend(fs[i].1, t1, t2, m);
            }
            assert(resolve_fields(fs, t1, fs.len()) =~= resolve_fields(fs, t2, fs.len()));
        },
        Tree::List(vs) => {
            lemma_resolve_list_index(vs, t1, t1.len(), vs.len());
            lemma_resolve_list_index(vs, t2, m, vs.len());
            assert forall|i: int| 0 <= i < vs.len() implies resolve(vs[i], t1) == resolve(vs[i], t2)
                && below(#[trigger] vs[i], m) by {
                lemma_resolve_extend(vs[i], t1, t2, m);
            }
            assert(resolve_list(vs, t1, vs.len()) =~= resolve_list(vs, t2, vs.len()));
        },
        Tree::Opaque(i) => {
            assert(t1[i as int] == t2.take(t1.len() as int)[i as int]);
        },
        _ => {},
    }
}

/// Moves every opaque handle of `v` into `table`, leaving its index in the tree.
fn index_handles<A>(v: Value<A>, table: &mut Vec<A>) -> (r: Value<usize>)
    ensures
        old(table)@ == final(table)@.take(old(table)@.len() as int),
        old(table)@.len() <= final(table)@.len(),
        below(r.tree(), final(table)@.len() as nat),
        resolve(r.tree(), final(table)@) == v.tree(),
        opaques(r.tree()) == index_range(old(table)@.len(), final(table)@.len()),
    decreases v, 0nat,
{
    match v {
        Value::Null => Value::Null,
        Value::Bool(b) => Value::Bool(b),
        Value::Number(n) => Value::Number(n),
        Value::String(s) => Value::String(s),
        Value::EnumVariant(s) => Value::EnumVariant(s),
        Value::NickelTerm(a) => {
            let i = table.len();
            table.push(a);
            assert(old(table)@ =~= table@.take(old(table)@.len() as int));
            assert(index_range(old(table)@.len(), table@.len()) =~= seq![i]);
            Value::NickelTerm(i)
        },
        Value::Record(fs, lit) => Value::Record(index_fields(fs, table), lit),
        Value::Array(vs) => Value::Array(index_list(vs, table)),
    }
}

fn index_fields<A>(fs: Vec<(String, Value<A>)>, table: &mut Vec<A>) -> (r: Vec<(String, Value<usize>)>)
    ensures
        old(table)@ == final(table)@.take(old(table)@.len() as int),
        old(table)@.len() <= final(table)@.len(),
        below(Tree::Record(record_tree(r@), false), final(table)@.len() as nat),
        resolve(Tree::Record(record_tree(r@), false), final(table)@) == Tree::<A>::Record(record_tree(fs@), false),
        opaques(Tree::Record(record_tree(r@), false)) == index_range(old(table)@.len(), final(table)@.len()),
    decreases fs, 1nat,
{
    let ghost all = fs@;
    let ghost t0 = table@;
    let n: usize = fs.len();
    let mut rest = fs;
    let mut out: Vec<(String, Value<usize>)> = Vec::new();
    let mut i: usize = 0;
    while rest.len() > 0
        invariant
            n == all.len(),
            i + rest@.len() == all.len(),
            rest@ == all.skip(i as int),
            out@.len() == i,
            all == fs@,
            t0 == old(table)@,
            t0 == table@.take(t0.len() as int),
            t0.len() <= table@.len(),
            opaques_fields(record_tree(out@), i as nat) == index_range(t0.len(), table@.len()),
            forall|k: int| 0 <= k < i ==> #[trigger] out@[k].0@ == all[k].0@
                && below(out@[k].1.tree(), table@.len() as nat)
                && resolve(out@[k].1.tree(), table@) == all[k].1.tree(),
        decreases rest@.len(),
    {
        let (key, x) = rest.remove(0);
        assert((key, x) == all[i as int]);
        assert(decreases_to!(fs => all[i as int].1));
        let ghost before = table@;
        let y = index_handles(x, table);
        proof {
            assert forall|k: int| 0 <= k < i implies #[trigger] out@[k].0@ == all[k].0@
                && below(out@[k].1.tree(), table@.len() as nat)
                && resolve(out@[k].1.tree(), table@) == all[k].1.tree() by {
                assert(out@[k].0@ == all[k].0@);
                lemma_resolve_extend(out@[k].1.tree(), before, table@, table@.len() as nat);
            }
            assert(t0 =~= table@.take(t0.len() as int));
        }
        let ghost out0 = out@;
        let ghost prev = record_tree(out@);
        let ghost before_len = before.len();
        out.push((key, y));
        proof {
            lemma_fields_tree(out@, out@.len());
            lemma_fields_tree(out0, out0.len());
            let cur = record_tree(out@);
            assert forall|q: int| 0 <= q < i implies cur[q] == prev[q] by {
                assert(out@[q] == out0[q]);
            }
            lemma_opaques_fields_prefix(cur, prev, i as nat);
            assert(opaques_fields(cur, (i + 1) as nat) == opaques_fields(cur, i as nat) + opaques(y.tree()));
            assert(index_range(t0.len(), before_len) + index_range(before_len, table@.len())
                =~= index_range(t0.len(), table@.len()));
        }
        i = i + 1;
        proof { assert(rest@ =~= all.skip(i as int)); }
    }
    proof {
        lemma_fields_tree(out@, out@.len());
        lemma_fields_tree(all, all.len());
        let ft = fields_tree(out@, out@.len());
        lemma_resolve_fields_index(ft, table@, table@.len() as nat, ft.len());
        assert(resolve_fields(ft, table@, ft.len()) =~= fields_tree(all, all.len()));
    }
    out
}

fn index_list<A>(vs: Vec<Value<A>>, table: &mut Vec<A>) -> (r: Vec<Value<usize>>)
    ensures
        old(table)@ == final(table)@.take(old(table)@.len() as int),
        old(table)@.len() <= final(table)@.len(),
        below(Tree::List(list_tree(r@, r@.len())), final(table)@.len() as nat),
        resolve(Tree::List(list_tree(r@, r@.len())), final(table)@) == Tree::<A>::List(list_tree(vs@, vs@.len())),
        opaques(Tree::List(list_tree(r@, r@.len()))) == index_range(old(table)@.len(), final(table)@.len()),
    decreases vs, 1nat,
{
    let ghost all = vs@;
    let ghost t0 = table@;
    let n: usize = vs.len();
    let mut rest = vs;
    let mut out: Vec<Value<usize>> = Vec::new();
    let mut i: usize = 0;
    while rest.len() > 0
        invariant
            n == all.len(),
            i + rest@.len() == all.len(),
            rest@ == all.skip(i as int),
            out@.len() == i,
            all == vs@,
            t0 == old(table)@,
            t0 == table@.take(t0.len() as int),
            t0.len() <= table@.len(),
            opaques_list(list_tree(out@, out@.len()), i as nat) == index_range(t0.len(), table@.len()),
            forall|k: int| 0 <= k < i ==> below(#[trigger] out@[k].tree(), table@.len() as nat)
                && resolve(out@[k].tree(), table@) == all[k].tree(),
        decreases rest@.len(),
    {
        let x = rest.remove(0);
        assert(x == all[i as int]);
        assert(decreases_to!(vs => all[i as int]));
        let ghost before = table@;
        let y = index_handles(x, table);
        proof {
            assert forall|k: int| 0 <= k < i implies below(#[trigger] out@[k].tree(), table@.len() as nat)
                && resolve(out@[k].tree(), table@) == all[k].tree() by {
                lemma_resolve_extend(out@[k].tree(), before, table@, table@.len() as nat);
            }
            assert(t0 =~= table@.take(t0.len() as int));
        }
        let ghost out0 = out@;
        let ghost prev = list_tree(out@, out@.len());
        let ghost before_len = before.len();
        out.push(y);
        proof {
            lemma_list_tree(out@, out@.len());
            lemma_list_tree(out0, out0.len());
            let cur = list_tree(out@, out@.len());
            assert forall|q: int| 0 <= q < i implies cur[q] == prev[q] by {
                assert(out@[q] == out0[q]);
            }
            lemma_opaques_list_prefix(cur, prev, i as nat);
            assert(opaques_list(cur, (i + 1) as nat) == opaques_list(cur, i as nat) + opaques(y.tree()));
            assert(index_range(t0.len(), before_len) + index_range(before_len, table@.len())
                =~= index_range(t0.len(), table@.len()));
        }
        i = i + 1;
        proof { assert(rest@ =~= all.skip(i as int)); }
    }
    proof {
        lemma_list_tree(out@, out@.len());
        lemma_list_tree(all, all.len());
        let lt = list_tree(out@, out@.len());
        lemma_resolve_list_index(lt, table@, table@.len() as nat, lt.len());
        assert(resolve_list(lt, table@, lt.len()) =~= list_tree(all, all.len()));
    }
    out
}

/// One decode session: the merged record and the side table of opaque handles.
pub struct Deserializer<A> {
    fields: Vec<(String, Value<usize>)>,
    handles: Vec<A>,
}

impl<A> View for Deserializer<A> {
    type V = (Fields<usize>, Seq<A>);

    closed spec fn view(&self) -> (Fields<usize>, Seq<A>) {
        (record_tree(self.fields@), self.handles@)
    }
}

/// The record that a session stands for, with each opaque index replaced by its handle.
pub open spec fn session_tree<A>(d: (Fields<usize>, Seq<A>)) -> Tree<A> {
    resolve(Tree::Record(d.0, false), d.1)
}

/// Every opaque index of the session's record has an entry in its side table, and the
/// record's opaque nodes, in document order, hold the indices 0, 1, ... of the table:
/// one entry per node and no other.
pub open spec fn session_ok<A>(d: (Fields<usize>, Seq<A>)) -> bool {
    &&& below(Tree::Record(d.0, false), d.1.len() as nat)
    &&& opaques(Tree::Record(d.0, false)) == index_range(0, d.1.len())
}

impl<A> Deserializer<A> {
    /// Merges the document and fills the side table with its opaque terms.
    pub fn new(document: Document<A>) -> (r: Result<Deserializer<A>, Error>)
        ensures
            match r {
                Ok(d) => merged(document.field_defs@) == Ok::<Fields<A>, Fail>(record_of(session_tree(d@)))
                    && session_ok(d@),
                Err(e) => merged(document.field_defs@) is Err && error_is(e, merged(document.field_defs@)->Err_0),
            },
    {
        match merge_fields(document.field_defs) {
            Ok(fs) => {
                let mut handles: Vec<A> = Vec::new();
                let fields = index_fields(fs, &mut handles);
                Ok(Deserializer { fields, handles })
            },
            Err(e) => Err(e),
        }
    }

    /// The merged top-level fields, in order of first definition.
    pub fn fields(&self) -> (r: &Vec<(String, Value<usize>)>)
        ensures
            record_tree(r@) == self@.0,
    {
        &self.fields
    }

    /// The handle that the side table holds at `index`.
    pub fn handle(&self, index: usize) -> (r: Result<&A, Error>)
        ensures
            r is Ok <==> index < self@.1.len(),
            r is Ok ==> *r->Ok_0 == self@.1[index as int],
            r is Err ==> r->Err_0 is MissingOpaqueSentinel,
    {
        if index < self.handles.len() {
            Ok(&self.handles[index])
        } else {
            Err(Error::MissingOpaqueSentinel)
        }
    }

    /// Recovers the handle from a sentinel-keyed entry of the value protocol.
    pub fn recover(&self, key: &String, index: u64) -> (r: Result<&A, Error>)
        ensures
            r is Ok <==> key@ == NICKEL_TERM_SENTINEL@ && index < self@.1.len(),
            r is Ok ==> *r->Ok_0 == self@.1[index as int],
            r is Err ==> r->Err_0 is MissingOpaqueSentinel,
    {
        let sentinel = NICKEL_TERM_SENTINEL.to_owned();
        if *key != sentinel || index >= self.handles.len() as u64 {
            Err(Error::MissingOpaqueSentinel)
        } else {
            Ok(&self.handles[index as usize])
        }
    }
}

/// The fields of a record tree; empty for any other tree.
pub open spec fn record_of<A>(t: Tree<A>) -> Fields<A> {
    match t {
        Tree::Record(fs, _) => fs,
        _ => Seq::empty(),
    }
}

} // verus!
