use vstd::prelude::*;

use crate::adapter::{bool_of, integer_of, kind_of, mismatch, opaque_of, optional_of, text_of};
use crate::document::{FieldDef, Term};
use crate::error::Shape;
use crate::merge::{
    find_from, find_key, insert_field, lemma_find_from, merge_defs, merged, path_of, term_tree,
    Fail, Fields,
    MAX_PATH_DEPTH,
};
use crate::session::{below, resolve};
use crate::value::Tree;

verus! {

/// `p` is a proper or improper prefix of `q`.
pub open spec fn is_prefix(p: Seq<Seq<char>>, q: Seq<Seq<char>>) -> bool {
    p.len() <= q.len() && p == q.take(p.len() as int)
}

proof fn lemma_second_insert_fails<A>(
    r1: Seq<Seq<char>>,
    full1: Seq<Seq<char>>,
    t1: Term<A>,
    r2: Seq<Seq<char>>,
    full2: Seq<Seq<char>>,
    t2: Term<A>,
)
    requires
        insert_field(Seq::<(Seq<char>, Tree<A>)>::empty(), r1, full1, t1) is Ok,
        (r2.len() > 0 && is_prefix(r2, r1))
            || (r1.len() < r2.len() && is_prefix(r1, r2) && !(t1 is Record)),
    ensures
        insert_field(insert_field(Seq::<(Seq<char>, Tree<A>)>::empty(), r1, full1, t1)->Ok_0, r2, full2, t2)
            == Err::<Fields<A>, Fail>(if r1 == r2 { Fail::Duplicate(full2) } else { Fail::Conflict(full2) }),
    decreases r1.len(),
{
    let e = Seq::<(Seq<char>, Tree<A>)>::empty();
    assert(r1.len() > 0);
    assert(find_key(e, r1[0]) == -1);
    let fs1 = insert_field(e, r1, full1, t1)->Ok_0;
    assert(r2[0] == r1[0]) by {
        if r2.len() > 0 && is_prefix(r2, r1) {
            assert(r2[0] == r1.take(r2.len() as int)[0]);
        } else {
            assert(r1[0] == r2.take(r1.len() as int)[0]);
        }
    }
    assert(fs1.len() == 1 && fs1[0].0 == r1[0]);
    assert(find_from(fs1, r2[0], 1) == -1);
    assert(find_key(fs1, r2[0]) == 0);
    if r2.len() > 1 {
        if r1.len() == 1 {
            assert(term_tree(t1) is Ok && fs1[0].1 == term_tree(t1)->Ok_0);
            assert(!(term_tree(t1)->Ok_0 is Record));
        } else {
            let sub1 = insert_field(e, r1.drop_first(), full1, t1)->Ok_0;
            assert(fs1[0].1 == Tree::Record(sub1, false));
            if r2.len() > 0 && is_prefix(r2, r1) {
                assert(r2.drop_first() =~= r1.drop_first().take(r2.len() - 1));
            } else {
                assert(r1.drop_first() =~= r2.drop_first().take(r1.len() - 1));
            }
            lemma_second_insert_fails(r1.drop_first(), full1, t1, r2.drop_first(), full2, t2);
            if r1 != r2 {
                assert(r1.drop_first() != r2.drop_first()) by {
                    if r1.drop_first() == r2.drop_first() {
                        assert(r1 =~= seq![r1[0]] + r1.drop_first());
                        assert(r2 =~= seq![r2[0]] + r2.drop_first());
                    }
                }
            } else {
                assert(r1.drop_first() == r2.drop_first());
            }
        }
    } else {
        if r1.len() == 1 {
            assert(r1 =~= r2) by {
                assert(r2 =~= r1.take(1));
            }
            assert(term_tree(t1) is Ok && fs1[0].1 == term_tree(t1)->Ok_0);
            if t1 is Record {
                assert(fs1[0].1->Record_1);
            }
        } else {
            assert(r1 != r2);
            let sub1 = insert_field(e, r1.drop_first(), full1, t1)->Ok_0;
            assert(fs1[0].1 == Tree::Record(sub1, false));
        }
    }
}

/// Two field definitions clash when one path is a prefix of the other or the paths are
/// the same: merging them fails and yields no record. Where the first definition merges
/// on its own and the second path is within the depth that merging accepts, the error is
/// `DuplicateField` for the same path and `PathConflict` for a strict prefix. A definition
/// whose value is a record literal is the one exception for a strict prefix, as a longer
/// path then extends that record.
pub proof fn law_conflict_determinism<A>(d1: FieldDef<A>, d2: FieldDef<A>)
    requires
        (d2.path@.len() > 0 && is_prefix(path_of(d2.path@), path_of(d1.path@)))
            || (d1.path@.len() < d2.path@.len() && is_prefix(path_of(d1.path@), path_of(d2.path@))
                && !(d1.value is Record)),
    ensures
        merged(seq![d1, d2]) is Err,
        merge_defs(seq![d1, d2], 1) is Ok && d2.path@.len() <= MAX_PATH_DEPTH ==> merged(seq![d1, d2])
            == Err::<Fields<A>, Fail>(if path_of(d1.path@) == path_of(d2.path@) {
                Fail::Duplicate(path_of(d2.path@))
            } else {
                Fail::Conflict(path_of(d2.path@))
            }),
{
    let s = seq![d1, d2];
    let e = Seq::<(Seq<char>, Tree<A>)>::empty();
    assert(s[0] == d1 && s[1] == d2);
    assert(merge_defs(s, 0) == Ok::<Fields<A>, Fail>(e));
    let first = merge_defs(s, 1);
    if first is Ok && d2.path@.len() <= MAX_PATH_DEPTH {
        assert(first == insert_field(e, path_of(d1.path@), path_of(d1.path@), d1.value));
        lemma_second_insert_fails(
            path_of(d1.path@),
            path_of(d1.path@),
            d1.value,
            path_of(d2.path@),
            path_of(d2.path@),
            d2.value,
        );
    }
}

/// An "optional" request on `Null` yields nothing; on any other value it yields that same
/// value, so that adapting it further gives what the plain request gives.
pub proof fn law_optional_symmetry<H>(t: Tree<H>)
    ensures
        t is Null ==> optional_of(t) is None,
        !(t is Null) ==> optional_of(t) == Some(t)
            && bool_of(optional_of(t)->Some_0) == bool_of(t)
            && text_of(optional_of(t)->Some_0) == text_of(t)
            && integer_of(optional_of(t)->Some_0) == integer_of(t),
{
}

/// Within a session, a place whose authored value is an opaque term answers an "opaque
/// handle" request with an index at which the side table holds that very term, and
/// answers every other request with a type mismatch.
pub proof fn law_opaque_round_trip<A>(t: Tree<usize>, table: Seq<A>, a: A)
    requires
        below(t, table.len() as nat),
        resolve(t, table) == Tree::<A>::Opaque(a),
    ensures
        opaque_of(t) is Ok,
        0 <= opaque_of(t)->Ok_0 < table.len(),
        table[opaque_of(t)->Ok_0 as int] == a,
        bool_of(t) == Err::<bool, crate::error::Error>(mismatch(Shape::Bool, t)),
        text_of(t) == Err::<Seq<char>, crate::error::Error>(mismatch(Shape::Text, t)),
        integer_of(t) == Err::<int, crate::error::Error>(mismatch(Shape::Integer, t)),
        kind_of(t) == crate::error::Kind::Opaque,
        !(t is Record) && !(t is List),
{
}

/// A path paired with its authored value.
pub type Leaf<A> = (Seq<Seq<char>>, Term<A>);

/// Inserts each leaf in turn, the way merging does.
pub open spec fn insert_all<A>(acc: Fields<A>, es: Seq<Leaf<A>>) -> Result<Fields<A>, Fail>
    decreases es.len(),
{
    if es.len() == 0 {
        Ok(acc)
    } else {
        match insert_all(acc, es.drop_last()) {
            Ok(a) => insert_field(a, es.last().0, es.last().0, es.last().1),
            Err(e) => Err(e),
        }
    }
}

/// The dotted-path leaves of the first `n` entries of a record, in order.
pub open spec fn flat_fields<A>(fs: Fields<A>, n: nat) -> Seq<(Seq<Seq<char>>, Tree<A>)>
    decreases fs, n,
{
    if n == 0 || n > fs.len() {
        Seq::empty()
    } else {
        flat_fields(fs, (n - 1) as nat) + flat_entry(fs[n - 1].0, fs[n - 1].1)
    }
}

/// The dotted-path leaves of one entry: a non-empty record is opened up, anything else
/// is a leaf.
pub open spec fn flat_entry<A>(k: Seq<char>, t: Tree<A>) -> Seq<(Seq<Seq<char>>, Tree<A>)>
    decreases t, 0nat,
{
    match t {
        Tree::Record(sub, _) => if sub.len() > 0 {
            flat_fields(sub, sub.len()).map_values(|e: (Seq<Seq<char>>, Tree<A>)| (seq![k] + e.0, e.1))
        } else {
            seq![(seq![k], t)]
        },
        _ => seq![(seq![k], t)],
    }
}

pub open spec fn flatten<A>(fs: Fields<A>) -> Seq<(Seq<Seq<char>>, Tree<A>)> {
    flat_fields(fs, fs.len())
}

/// Keys are distinct within every record level.
pub open spec fn wf_fields<A>(fs: Fields<A>, n: nat) -> bool
    decreases fs, n,
{
    if n == 0 || n > fs.len() {
        true
    } else {
        wf_fields(fs, (n - 1) as nat) && wf_tree(fs[n - 1].1)
            && forall|i: int| 0 <= i < n - 1 ==> (#[trigger] fs[i]).0 != fs[n - 1].0
    }
}

pub open spec fn wf_tree<A>(t: Tree<A>) -> bool
    decreases t, 0nat,
{
    match t {
        Tree::Record(sub, _) => wf_fields(sub, sub.len()),
        _ => true,
    }
}

/// Every non-empty record among the first `n` entries, at any depth, was made by paths
/// rather than written as a literal.
pub open spec fn made_fields<A>(fs: Fields<A>, n: nat) -> bool
    decreases fs, n,
{
    if n == 0 || n > fs.len() {
        true
    } else {
        made_fields(fs, (n - 1) as nat) && made_tree(fs[n - 1].1)
    }
}

pub open spec fn made_tree<A>(t: Tree<A>) -> bool
    decreases t, 0nat,
{
    match t {
        Tree::Record(sub, lit) => (sub.len() > 0 ==> !lit) && made_fields(sub, sub.len()),
        _ => true,
    }
}

/// Each leaf has the path of its model and an authored value that converts to it.
pub open spec fn authors<A>(es: Seq<Leaf<A>>, ls: Seq<(Seq<Seq<char>>, Tree<A>)>) -> bool {
    es.len() == ls.len() && forall|i: int| 0 <= i < es.len() ==> (#[trigger] es[i]).0 == ls[i].0
        && term_tree(es[i].1) == Ok::<Tree<A>, Fail>(ls[i].1)
}

proof fn lemma_full_irrelevant<A>(fs: Fields<A>, rest: Seq<Seq<char>>, f1: Seq<Seq<char>>, f2: Seq<Seq<char>>, t: Term<A>)
    requires
        insert_field(fs, rest, f1, t) is Ok,
    ensures
        insert_field(fs, rest, f2, t) == insert_field(fs, rest, f1, t),
    decreases rest.len(),
{
    if rest.len() > 1 {
        let j = find_key(fs, rest[0]);
        if j >= 0 {
            if let Tree::Record(sub, _) = fs[j].1 {
                lemma_full_irrelevant(sub, rest.drop_first(), f1, f2, t);
            }
        } else {
            lemma_full_irrelevant(Seq::empty(), rest.drop_first(), f1, f2, t);
        }
    }
}

proof fn lemma_insert_all_split<A>(acc: Fields<A>, a: Seq<Leaf<A>>, b: Seq<Leaf<A>>)
    ensures
        insert_all(acc, a + b) == match insert_all(acc, a) {
            Ok(x) => insert_all(x, b),
            Err(e) => Err(e),
        },
    decreases b.len(),
{
    if b.len() == 0 {
        assert(a + b =~= a);
    } else {
        assert((a + b).drop_last() =~= a + b.drop_last());
        lemma_insert_all_split(acc, a, b.drop_last());
    }
}

proof fn lemma_find_absent<A>(fs: Fields<A>, k: Seq<char>, i: int)
    requires
        0 <= i,
        forall|q: int| 0 <= q < fs.len() ==> fs[q].0 != k,
    ensures
        find_from(fs, k, i) == -1,
    decreases fs.len() - i,
{
    if i < fs.len() {
        lemma_find_absent(fs, k, i + 1);
    }
}

proof fn lemma_find_pushed<A>(fs: Fields<A>, k: Seq<char>, x: Tree<A>, i: int)
    requires
        0 <= i <= fs.len(),
        find_from(fs, k, i) == -1,
    ensures
        find_from(fs.push((k, x)), k, i) == fs.len(),
    decreases fs.len() - i,
{
    if i < fs.len() {
        lemma_find_pushed(fs, k, x, i + 1);
    }
}

/// Leaves that all start with `k`, inserted into a record without `k`, add one entry `k`
/// holding what the same leaves without `k` build from nothing.
proof fn lemma_prefixed<A>(acc: Fields<A>, k: Seq<char>, es: Seq<Leaf<A>>, inner: Seq<Leaf<A>>)
    requires
        find_key(acc, k) == -1,
        inner.len() > 0,
        es.len() == inner.len(),
        forall|i: int| 0 <= i < es.len() ==> (#[trigger] es[i]).0 == seq![k] + inner[i].0 && es[i].1 == inner[i].1,
        insert_all(Seq::empty(), inner) is Ok,
    ensures
        insert_all(acc, es) == Ok::<Fields<A>, Fail>(acc.push((k, Tree::Record(insert_all(Seq::empty(), inner)->Ok_0, false)))),
    decreases es.len(),
{
    let e = Seq::<(Seq<char>, Tree<A>)>::empty();
    let last = es.last();
    let p = inner.last().0;
    assert(last.0 == seq![k] + p);
    assert(last.0[0] == k);
    assert((seq![k] + p).drop_first() =~= p);
    let prev = insert_all(e, inner.drop_last());
    assert(prev is Ok);
    lemma_full_irrelevant(prev->Ok_0, p, p, last.0, last.1);
    if p.len() == 0 {
        assert(insert_field(prev->Ok_0, p, p, last.1) is Err);
    }
    if es.len() == 1 {
        assert(es.drop_last().len() == 0);
        assert(inner.drop_last().len() == 0);
        assert(insert_all(acc, es.drop_last()) == Ok::<Fields<A>, Fail>(acc));
    } else {
        lemma_prefixed(acc, k, es.drop_last(), inner.drop_last());
        let s1 = prev->Ok_0;
        lemma_find_pushed(acc, k, Tree::Record(s1, false), 0);
        let a1 = acc.push((k, Tree::Record(s1, false)));
        assert(find_key(a1, k) == acc.len());
        assert(a1[acc.len() as int].1 == Tree::<A>::Record(s1, false));
        assert(a1.update(acc.len() as int, (k, Tree::Record(insert_all(e, inner)->Ok_0, false)))
            =~= acc.push((k, Tree::Record(insert_all(e, inner)->Ok_0, false))));
    }
}

/// Leaves that author the first `n` entries of a well-formed record build exactly those
/// entries.
proof fn lemma_rebuild_fields<A>(fs: Fields<A>, n: nat, es: Seq<Leaf<A>>)
    requires
        n <= fs.len(),
        wf_fields(fs, n),
        made_fields(fs, n),
        authors(es, flat_fields(fs, n)),
    ensures
        insert_all(Seq::empty(), es) == Ok::<Fields<A>, Fail>(fs.take(n as int)),
    decreases fs, n,
{
    if n == 0 {
        assert(fs.take(0) =~= Seq::<(Seq<char>, Tree<A>)>::empty());
    } else {
        let l1 = flat_fields(fs, (n - 1) as nat);
        let l2 = flat_entry(fs[n - 1].0, fs[n - 1].1);
        let a = es.take(l1.len() as int);
        let b = es.skip(l1.len() as int);
        assert(es =~= a + b);
        assert(authors(a, l1)) by {
            assert forall|i: int| 0 <= i < a.len() implies (#[trigger] a[i]).0 == l1[i].0
                && term_tree(a[i].1) == Ok::<Tree<A>, Fail>(l1[i].1) by {
                assert(a[i] == es[i]);
                assert((l1 + l2)[i] == l1[i]);
            }
        }
        assert(authors(b, l2)) by {
            assert forall|i: int| 0 <= i < b.len() implies (#[trigger] b[i]).0 == l2[i].0
                && term_tree(b[i].1) == Ok::<Tree<A>, Fail>(l2[i].1) by {
                assert(b[i] == es[i + l1.len()]);
                assert((l1 + l2)[i + l1.len()] == l2[i]);
            }
        }
        lemma_rebuild_fields(fs, (n - 1) as nat, a);
        lemma_insert_all_split(Seq::empty(), a, b);
        let acc = fs.take(n - 1);
        assert forall|q: int| 0 <= q < acc.len() implies acc[q].0 != fs[n - 1].0 by {}
        lemma_find_absent(acc, fs[n - 1].0, 0);
        lemma_rebuild_entry(acc, fs[n - 1].0, fs[n - 1].1, b);
        assert(acc.push((fs[n - 1].0, fs[n - 1].1)) =~= fs.take(n as int));
    }
}

/// Leaves that author one entry `k` of a well-formed tree, inserted into a record
/// without `k`, append that entry.
proof fn lemma_rebuild_entry<A>(acc: Fields<A>, k: Seq<char>, t: Tree<A>, es: Seq<Leaf<A>>)
    requires
        find_key(acc, k) == -1,
        wf_tree(t),
        made_tree(t),
        authors(es, flat_entry(k, t)),
    ensures
        insert_all(acc, es) == Ok::<Fields<A>, Fail>(acc.push((k, t))),
    decreases t, 1nat,
{
    let e = Seq::<(Seq<char>, Tree<A>)>::empty();
    match t {
        Tree::Record(sub, _) => {
            if sub.len() > 0 {
                let ls = flat_fields(sub, sub.len());
                let inner = Seq::new(es.len(), |i: int| (es[i].0.drop_first(), es[i].1));
                assert forall|i: int| 0 <= i < es.len() implies (#[trigger] es[i]).0 == seq![k] + inner[i].0
                    && es[i].1 == inner[i].1 by {
                    assert(flat_entry(k, t)[i] == (seq![k] + ls[i].0, ls[i].1));
                    assert(es[i].0.drop_first() =~= ls[i].0);
                    assert(es[i].0 =~= seq![k] + inner[i].0);
                }
                assert(authors(inner, ls)) by {
                    assert forall|i: int| 0 <= i < inner.len() implies (#[trigger] inner[i]).0 == ls[i].0
                        && term_tree(inner[i].1) == Ok::<Tree<A>, Fail>(ls[i].1) by {
                        assert(flat_entry(k, t)[i] == (seq![k] + ls[i].0, ls[i].1));
                        assert(es[i].0.drop_first() =~= ls[i].0);
                    }
                }
                lemma_rebuild_fields(sub, sub.len(), inner);
                assert(sub.take(sub.len() as int) =~= sub);
                lemma_prefixed(acc, k, es, inner);
                return;
            }
        },
        _ => {},
    }
    assert(es.len() == 1);
    assert(es.drop_last().len() == 0);
    assert(es[0].0 == seq![k]);
    assert(insert_all(acc, es.drop_last()) == Ok::<Fields<A>, Fail>(acc));
}

proof fn lemma_merge_is_insert_all<A>(defs: Seq<FieldDef<A>>, n: nat)
    requires
        n <= defs.len(),
        forall|i: int| 0 <= i < defs.len() ==> (#[trigger] defs[i]).path@.len() <= MAX_PATH_DEPTH,
    ensures
        merge_defs(defs, n) == insert_all(
            Seq::empty(),
            Seq::new(n, |i: int| (path_of(defs[i].path@), defs[i].value)),
        ),
    decreases n,
{
    if n > 0 {
        lemma_merge_is_insert_all(defs, (n - 1) as nat);
        let s = Seq::new(n, |i: int| (path_of(defs[i].path@), defs[i].value));
        assert(s.drop_last() =~= Seq::new((n - 1) as nat, |i: int| (path_of(defs[i].path@), defs[i].value)));
    }
}

/// Flattening a well-formed record into one field definition per leaf path, in order,
/// and merging those definitions gives back the record, where no path exceeds the depth
/// that merging accepts. Its non-empty records are the ones that paths make, not literals.
pub proof fn law_flatten_round_trip<A>(fs: Fields<A>, defs: Seq<FieldDef<A>>)
    requires
        wf_fields(fs, fs.len()),
        made_fields(fs, fs.len()),
        forall|i: int| 0 <= i < defs.len() ==> (#[trigger] defs[i]).path@.len() <= MAX_PATH_DEPTH,
        defs.len() == flatten(fs).len(),
        forall|i: int| 0 <= i < defs.len() ==> path_of((#[trigger] defs[i]).path@) == flatten(fs)[i].0
            && term_tree(defs[i].value) == Ok::<Tree<A>, Fail>(flatten(fs)[i].1),
    ensures
        merged(defs) == Ok::<Fields<A>, Fail>(fs),
{
    let es = Seq::new(defs.len(), |i: int| (path_of(defs[i].path@), defs[i].value));
    lemma_merge_is_insert_all(defs, defs.len());
    assert(authors(es, flatten(fs))) by {
        assert forall|i: int| 0 <= i < es.len() implies (#[trigger] es[i]).0 == flatten(fs)[i].0
            && term_tree(es[i].1) == Ok::<Tree<A>, Fail>(flatten(fs)[i].1) by {
            assert(defs[i] == defs[i]);
        }
    }
    lemma_rebuild_fields(fs, fs.len(), es);
    assert(fs.take(fs.len() as int) =~= fs);
}

/// What one definition alone merges to: the record entry under its first segment.
pub open spec fn lone_entry<A>(d: FieldDef<A>) -> Result<Fields<A>, Fail> {
    insert_field(Seq::empty(), path_of(d.path@), path_of(d.path@), d.value)
}

/// Each definition merges on its own, and no two start with the same name.
pub open spec fn independent<A>(defs: Seq<FieldDef<A>>) -> bool {
    &&& forall|i: int| 0 <= i < defs.len() ==> (#[trigger] defs[i]).path@.len() > 0
        && defs[i].path@.len() <= MAX_PATH_DEPTH && lone_entry(defs[i]) is Ok
    &&& forall|i: int, j: int| 0 <= i < j < defs.len() ==> (#[trigger] defs[i]).path@[0]@ != (#[trigger] defs[j]).path@[0]@
}

/// `perm` lists each index below `n` exactly once.
pub open spec fn is_permutation(perm: Seq<int>, n: nat) -> bool {
    &&& perm.len() == n
    &&& forall|i: int| 0 <= i < n ==> 0 <= #[trigger] perm[i] < n
    &&& forall|i: int, j: int| 0 <= i < j < n ==> #[trigger] perm[i] != #[trigger] perm[j]
    &&& forall|k: int| 0 <= k < n ==> #[trigger] perm.contains(k)
}

/// Inserting at a new first name behaves as inserting into an empty record, then appending.
proof fn lemma_insert_new_key<A>(acc: Fields<A>, r: Seq<Seq<char>>, f: Seq<Seq<char>>, t: Term<A>)
    requires
        r.len() > 0,
        find_key(acc, r[0]) == -1,
        insert_field(Seq::empty(), r, f, t) is Ok,
    ensures
        insert_field(Seq::empty(), r, f, t)->Ok_0.len() == 1,
        insert_field(Seq::empty(), r, f, t)->Ok_0[0].0 == r[0],
        insert_field(acc, r, f, t) == Ok::<Fields<A>, Fail>(acc.push(insert_field(Seq::empty(), r, f, t)->Ok_0[0])),
{
    assert(find_key(Seq::<(Seq<char>, Tree<A>)>::empty(), r[0]) == -1);
}

proof fn lemma_find_unique<A>(fs: Fields<A>, k: Seq<char>, i: int, from: int)
    requires
        0 <= from <= i < fs.len(),
        fs[i].0 == k,
        forall|q: int| 0 <= q < fs.len() && q != i ==> fs[q].0 != k,
    ensures
        find_from(fs, k, from) == i,
    decreases i - from,
{
    if from < i {
        lemma_find_unique(fs, k, i, from + 1);
    }
}

proof fn lemma_merge_independent<A>(defs: Seq<FieldDef<A>>, n: nat)
    requires
        n <= defs.len(),
        independent(defs),
    ensures
        merge_defs(defs, n) == Ok::<Fields<A>, Fail>(Seq::new(n, |i: int| lone_entry(defs[i])->Ok_0[0])),
        forall|i: int| 0 <= i < n ==> (#[trigger] lone_entry(defs[i])->Ok_0[0]).0 == defs[i].path@[0]@,
    decreases n,
{
    if n > 0 {
        lemma_merge_independent(defs, (n - 1) as nat);
        let acc = Seq::new((n - 1) as nat, |i: int| lone_entry(defs[i])->Ok_0[0]);
        let d = defs[n - 1];
        let p = path_of(d.path@);
        assert(d.path@.len() > 0 && d.path@.len() <= MAX_PATH_DEPTH && lone_entry(d) is Ok);
        assert(p[0] == d.path@[0]@);
        assert forall|q: int| 0 <= q < acc.len() implies acc[q].0 != p[0] by {
            assert(acc[q].0 == defs[q].path@[0]@);
        }
        lemma_find_absent(acc, p[0], 0);
        lemma_insert_new_key(acc, p, p, d.value);
        assert(acc.push(lone_entry(d)->Ok_0[0]) =~= Seq::new(n, |i: int| lone_entry(defs[i])->Ok_0[0]));
    } else {
        assert(Seq::new(n, |i: int| lone_entry(defs[i])->Ok_0[0]) =~= Seq::<(Seq<char>, Tree<A>)>::empty());
    }
}

/// Two records have the same names, each holding the same value, in whatever order.
pub open spec fn same_entries<A>(r1: Fields<A>, r2: Fields<A>) -> bool {
    &&& r1.len() == r2.len()
    &&& forall|k: Seq<char>| (#[trigger] find_key(r1, k) == -1) == (find_key(r2, k) == -1)
    &&& forall|k: Seq<char>| #[trigger] find_key(r1, k) >= 0 ==> r1[find_key(r1, k)].1 == r2[find_key(r2, k)].1
}

/// Definitions that start with distinct names and merge each on its own merge in any
/// order to records with the same names, each holding the same value.
pub proof fn law_order_independence<A>(defs: Seq<FieldDef<A>>, perm: Seq<int>)
    requires
        independent(defs),
        is_permutation(perm, defs.len()),
    ensures
        merged(defs) is Ok,
        merged(Seq::new(defs.len(), |i: int| defs[perm[i]])) is Ok,
        same_entries(merged(defs)->Ok_0, merged(Seq::new(defs.len(), |i: int| defs[perm[i]]))->Ok_0),
{
    let n = defs.len();
    let other = Seq::new(n, |i: int| defs[perm[i]]);
    assert(independent(other)) by {
        assert forall|i: int| 0 <= i < n implies (#[trigger] other[i]).path@.len() > 0
            && other[i].path@.len() <= MAX_PATH_DEPTH && lone_entry(other[i]) is Ok by {
            assert(other[i] == defs[perm[i]]);
        }
        assert forall|i: int, j: int| 0 <= i < j < n implies (#[trigger] other[i]).path@[0]@ != (#[trigger] other[j]).path@[0]@ by {
            if perm[i] < perm[j] {
                assert(defs[perm[i]].path@[0]@ != defs[perm[j]].path@[0]@);
            } else {
                assert(defs[perm[j]].path@[0]@ != defs[perm[i]].path@[0]@);
            }
        }
    }
    lemma_merge_independent(defs, n);
    lemma_merge_independent(other, n);
    let r1 = merged(defs)->Ok_0;
    let r2 = merged(other)->Ok_0;
    assert forall|k: Seq<char>|
        (#[trigger] find_key(r1, k) == -1) == (find_key(r2, k) == -1)
        && (find_key(r1, k) >= 0 ==> r1[find_key(r1, k)].1 == r2[find_key(r2, k)].1) by {
        if exists|i: int| 0 <= i < n && r1[i].0 == k {
            let i = choose|i: int| 0 <= i < n && r1[i].0 == k;
            assert(perm.contains(i));
            let j = choose|j: int| 0 <= j < perm.len() && perm[j] == i;
            assert(r1[i] == lone_entry(defs[i])->Ok_0[0]);
            assert(r2[j] == lone_entry(other[j])->Ok_0[0]);
            assert(other[j] == defs[i]);
            assert forall|q: int| 0 <= q < n && q != i implies r1[q].0 != k by {
                assert(r1[q].0 == defs[q].path@[0]@);
                assert(r1[i].0 == defs[i].path@[0]@);
            }
            assert forall|q: int| 0 <= q < n && q != j implies r2[q].0 != k by {
                assert(r2[q].0 == other[q].path@[0]@);
                assert(r2[j].0 == other[j].path@[0]@);
            }
            lemma_find_unique(r1, k, i, 0);
            lemma_find_unique(r2, k, j, 0);
        } else {
            assert forall|q: int| 0 <= q < n implies r2[q].0 != k by {
                let i = perm[q];
                assert(r2[q] == lone_entry(other[q])->Ok_0[0]);
                assert(other[q] == defs[i]);
                assert(r1[i] == lone_entry(defs[i])->Ok_0[0]);
            }
            lemma_find_absent(r1, k, 0);
            lemma_find_absent(r2, k, 0);
        }
    }
}

proof fn lemma_wf_fields_index<A>(fs: Fields<A>, n: nat)
    requires
        n <= fs.len(),
    ensures
        wf_fields(fs, n) <==> (forall|i: int| 0 <= i < n ==> wf_tree(#[trigger] fs[i].1))
            && (forall|i: int, j: int| 0 <= i < j < n ==> (#[trigger] fs[i]).0 != (#[trigger] fs[j]).0),
    decreases n,
{
    if n > 0 {
        lemma_wf_fields_index(fs, (n - 1) as nat);
        if (forall|i: int| 0 <= i < n ==> wf_tree(#[trigger] fs[i].1))
            && (forall|i: int, j: int| 0 <= i < j < n ==> (#[trigger] fs[i]).0 != (#[trigger] fs[j]).0) {
            assert forall|i: int| 0 <= i < n - 1 implies (#[trigger] fs[i]).0 != fs[n - 1].0 by {
                assert(fs[i].0 != fs[n - 1].0);
            }
        }
        if wf_fields(fs, n) {
            assert forall|i: int, j: int| 0 <= i < j < n implies (#[trigger] fs[i]).0 != (#[trigger] fs[j]).0 by {
                if j == n - 1 {
                    assert(fs[i].0 != fs[n - 1].0);
                }
            }
        }
    }
}

proof fn lemma_find_missing<A>(fs: Fields<A>, k: Seq<char>, i: int)
    requires
        0 <= i,
        find_from(fs, k, i) == -1,
    ensures
        forall|q: int| i <= q < fs.len() ==> fs[q].0 != k,
    decreases fs.len() - i,
{
    if i < fs.len() {
        lemma_find_missing(fs, k, i + 1);
    }
}

proof fn lemma_term_wf<A>(t: Term<A>)
    requires
        term_tree(t) is Ok,
    ensures
        wf_tree(term_tree(t)->Ok_0),
    decreases t, 0nat,
{
    if let Term::Record(r) = t {
        lemma_merge_wf(r.field_defs@, r.field_defs@.len());
    }
}

proof fn lemma_merge_wf<A>(defs: Seq<FieldDef<A>>, n: nat)
    requires
        merge_defs(defs, n) is Ok,
    ensures
        wf_fields(merge_defs(defs, n)->Ok_0, merge_defs(defs, n)->Ok_0.len()),
    decreases defs, n,
{
    if n > 0 && n <= defs.len() {
        lemma_merge_wf(defs, (n - 1) as nat);
        let acc = merge_defs(defs, (n - 1) as nat)->Ok_0;
        lemma_insert_wf(acc, path_of(defs[n - 1].path@), path_of(defs[n - 1].path@), defs[n - 1].value);
    }
}

proof fn lemma_insert_wf<A>(fs: Fields<A>, rest: Seq<Seq<char>>, full: Seq<Seq<char>>, t: Term<A>)
    requires
        wf_fields(fs, fs.len()),
        insert_field(fs, rest, full, t) is Ok,
    ensures
        wf_fields(insert_field(fs, rest, full, t)->Ok_0, insert_field(fs, rest, full, t)->Ok_0.len()),
    decreases t, rest.len(),
{
    let out = insert_field(fs, rest, full, t)->Ok_0;
    let key = rest[0];
    let j = find_key(fs, key);
    lemma_wf_fields_index(fs, fs.len());
    lemma_wf_fields_index(out, out.len());
    lemma_find_from(fs, key, 0);
    if j < 0 {
        lemma_find_missing(fs, key, 0);
        let x = out[fs.len() as int].1;
        if rest.len() == 1 {
            lemma_term_wf(t);
        } else {
            let e = Seq::<(Seq<char>, Tree<A>)>::empty();
            assert(wf_fields(e, 0));
            lemma_insert_wf(e, rest.drop_first(), full, t);
        }
        assert(out == fs.push((key, x)));
        assert forall|i: int| 0 <= i < out.len() implies wf_tree(#[trigger] out[i].1) by {
            if i < fs.len() {
                assert(out[i] == fs[i]);
            }
        }
        assert forall|a: int, b: int| 0 <= a < b < out.len() implies (#[trigger] out[a]).0 != (#[trigger] out[b]).0 by {
            if b < fs.len() {
                assert(out[a] == fs[a] && out[b] == fs[b]);
            } else {
                assert(out[a] == fs[a]);
            }
        }
    } else {
        lemma_find_from(fs, key, 0);
        if let Tree::Record(sub, _) = fs[j].1 {
            assert(wf_tree(fs[j].1));
            lemma_insert_wf(sub, rest.drop_first(), full, t);
            assert forall|i: int| 0 <= i < out.len() implies wf_tree(#[trigger] out[i].1) by {
                if i != j {
                    assert(out[i] == fs[i]);
                }
            }
            assert forall|a: int, b: int| 0 <= a < b < out.len() implies (#[trigger] out[a]).0 != (#[trigger] out[b]).0 by {
                assert(out[a].0 == fs[a].0 && out[b].0 == fs[b].0);
            }
        }
    }
}

/// Merging keeps keys distinct: when it succeeds, no record level reached through records
/// holds the same key twice.
pub proof fn law_merged_keys_unique<A>(defs: Seq<FieldDef<A>>)
    requires
        merged(defs) is Ok,
    ensures
        wf_fields(merged(defs)->Ok_0, merged(defs)->Ok_0.len()),
{
    lemma_merge_wf(defs, defs.len());
}

/// What the path `p` leads to in a record, if anything.
pub open spec fn reach<A>(fs: Fields<A>, p: Seq<Seq<char>>) -> Option<Tree<A>>
    decreases p.len(),
{
    if p.len() == 0 {
        None
    } else {
        let j = find_key(fs, p[0]);
        if j < 0 || j >= fs.len() {
            None
        } else if p.len() == 1 {
            Some(fs[j].1)
        } else {
            match fs[j].1 {
                Tree::Record(sub, _) => reach(sub, p.drop_first()),
                _ => None,
            }
        }
    }
}

proof fn lemma_find_same_keys<A>(fs: Fields<A>, gs: Fields<A>, k: Seq<char>, i: int)
    requires
        0 <= i,
        fs.len() == gs.len(),
        forall|q: int| 0 <= q < fs.len() ==> fs[q].0 == gs[q].0,
    ensures
        find_from(fs, k, i) == find_from(gs, k, i),
    decreases fs.len() - i,
{
    if i < fs.len() {
        lemma_find_same_keys(fs, gs, k, i + 1);
    }
}

proof fn lemma_find_push_found<A>(fs: Fields<A>, e: (Seq<char>, Tree<A>), k: Seq<char>, i: int)
    requires
        0 <= i,
        find_from(fs, k, i) >= 0,
    ensures
        find_from(fs.push(e), k, i) == find_from(fs, k, i),
    decreases fs.len() - i,
{
    if i < fs.len() && fs[i].0 != k {
        lemma_find_push_found(fs, e, k, i + 1);
    }
}

/// A successful insert puts the converted value at its own path.
proof fn lemma_insert_reaches<A>(fs: Fields<A>, r: Seq<Seq<char>>, f: Seq<Seq<char>>, t: Term<A>)
    requires
        insert_field(fs, r, f, t) is Ok,
    ensures
        term_tree(t) is Ok,
        reach(insert_field(fs, r, f, t)->Ok_0, r) == Some(term_tree(t)->Ok_0),
    decreases r.len(),
{
    let out = insert_field(fs, r, f, t)->Ok_0;
    let k = r[0];
    let j = find_key(fs, k);
    lemma_find_from(fs, k, 0);
    if j < 0 {
        lemma_find_pushed(fs, k, out[fs.len() as int].1, 0);
        assert(out == fs.push((k, out[fs.len() as int].1)));
        if r.len() > 1 {
            lemma_insert_reaches(Seq::empty(), r.drop_first(), f, t);
        }
    } else if let Tree::Record(sub, _) = fs[j].1 {
        lemma_insert_reaches(sub, r.drop_first(), f, t);
        lemma_find_same_keys(fs, out, k, 0);
    }
}

/// A successful insert keeps every non-record value that a path already led to.
proof fn lemma_insert_keeps<A>(fs: Fields<A>, r: Seq<Seq<char>>, f: Seq<Seq<char>>, t: Term<A>, p: Seq<Seq<char>>)
    requires
        insert_field(fs, r, f, t) is Ok,
        reach(fs, p) is Some,
        !(reach(fs, p)->Some_0 is Record),
    ensures
        reach(insert_field(fs, r, f, t)->Ok_0, p) == reach(fs, p),
    decreases r.len(),
{
    let out = insert_field(fs, r, f, t)->Ok_0;
    let k = r[0];
    let j = find_key(fs, k);
    let jp = find_key(fs, p[0]);
    lemma_find_from(fs, k, 0);
    lemma_find_from(fs, p[0], 0);
    if j < 0 {
        lemma_find_push_found(fs, out[fs.len() as int], p[0], 0);
        assert(out == fs.push(out[fs.len() as int]));
        assert(out[jp] == fs[jp]);
    } else if let Tree::Record(sub, _) = fs[j].1 {
        lemma_find_same_keys(fs, out, p[0], 0);
        if jp != j {
            assert(out[jp] == fs[jp]);
        } else {
            lemma_insert_keeps(sub, r.drop_first(), f, t, p.drop_first());
        }
    }
}

proof fn lemma_merge_reaches<A>(defs: Seq<FieldDef<A>>, n: nat, i: int)
    requires
        n <= defs.len(),
        0 <= i < n,
        merge_defs(defs, n) is Ok,
        !(defs[i].value is Record),
    ensures
        term_tree(defs[i].value) is Ok,
        reach(merge_defs(defs, n)->Ok_0, path_of(defs[i].path@)) == Some(term_tree(defs[i].value)->Ok_0),
    decreases n,
{
    let acc = merge_defs(defs, (n - 1) as nat)->Ok_0;
    let d = defs[n - 1];
    if i == n - 1 {
        lemma_insert_reaches(acc, path_of(d.path@), path_of(d.path@), d.value);
    } else {
        lemma_merge_reaches(defs, (n - 1) as nat, i);
        lemma_insert_keeps(acc, path_of(d.path@), path_of(d.path@), d.value, path_of(defs[i].path@));
    }
}

/// When merging succeeds, the path of each definition whose value is not a record literal
/// leads to that value, converted. (A record literal may be extended by later paths.)
pub proof fn law_merged_paths_hold_values<A>(defs: Seq<FieldDef<A>>, i: int)
    requires
        merged(defs) is Ok,
        0 <= i < defs.len(),
        !(defs[i].value is Record),
    ensures
        term_tree(defs[i].value) is Ok,
        reach(merged(defs)->Ok_0, path_of(defs[i].path@)) == Some(term_tree(defs[i].value)->Ok_0),
{
    lemma_merge_reaches(defs, defs.len(), i);
}

} // verus!
