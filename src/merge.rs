use vstd::prelude::*;

use crate::document::{FieldDef, Term};
use crate::error::Error;
use crate::value::{
    fields_tree, lemma_fields_tree, lemma_list_tree, list_tree, record_tree, Tree, Value,
};

verus! {

/// Why a merge fails, with the path of the offending field definition.
pub enum Fail {
    Duplicate(Seq<Seq<char>>),
    Conflict(Seq<Seq<char>>),
    TooDeep(Seq<Seq<char>>),
}

/// The longest path that a field definition may have; descent along a path recurses
/// once per name.
pub const MAX_PATH_DEPTH: usize = 1024;

pub type Fields<H> = Seq<(Seq<char>, Tree<H>)>;

pub open spec fn path_of(p: Seq<String>) -> Seq<Seq<char>> {
    p.map_values(|s: String| s@)
}

/// `e` is the library error that reports `f`.
pub open spec fn error_is(e: Error, f: Fail) -> bool {
    match f {
        Fail::Duplicate(p) => e is DuplicateField && path_of(e->DuplicateField_0@) == p,
        Fail::Conflict(p) => e is PathConflict && path_of(e->PathConflict_0@) == p,
        Fail::TooDeep(p) => e is PathTooDeep && path_of(e->PathTooDeep_0@) == p,
    }
}

/// The first index at or after `i` whose key is `key`, or -1.
pub open spec fn find_from<H>(fs: Fields<H>, key: Seq<char>, i: int) -> int
    decreases fs.len() - i,
{
    if i < 0 || i >= fs.len() {
        -1
    } else if fs[i].0 == key {
        i
    } else {
        find_from(fs, key, i + 1)
    }
}

pub(crate) proof fn lemma_find_from<H>(fs: Fields<H>, key: Seq<char>, i: int)
    ensures
        find_from(fs, key, i) == -1 || (0 <= find_from(fs, key, i) < fs.len() && fs[find_from(fs, key, i)].0 == key),
    decreases fs.len() - i,
{
    if 0 <= i < fs.len() && fs[i].0 != key {
        lemma_find_from(fs, key, i + 1);
    }
}

pub open spec fn find_key<H>(fs: Fields<H>, key: Seq<char>) -> int {
    find_from(fs, key, 0)
}

/// The model of an authored term after merging its records.
pub open spec fn term_tree<A>(t: Term<A>) -> Result<Tree<A>, Fail>
    decreases t, 0nat,
{
    match t {
        Term::Null => Ok(Tree::Null),
        Term::Bool(b) => Ok(Tree::Bool(b)),
        Term::Number(n) => Ok(Tree::Number(n@)),
        Term::String(s) => Ok(Tree::Text(s@)),
        Term::EnumVariant(s) => Ok(Tree::Tag(s@)),
        Term::Record(r) => match merge_defs(r.field_defs@, r.field_defs@.len()) {
            Ok(fs) => Ok(Tree::Record(fs, true)),
            Err(e) => Err(e),
        },
        Term::Array(ts) => match list_terms(ts@, ts@.len()) {
            Ok(vs) => Ok(Tree::List(vs)),
            Err(e) => Err(e),
        },
        Term::NickelTerm(a) => Ok(Tree::Opaque(a)),
    }
}

/// The models of the first `n` terms of an array.
pub open spec fn list_terms<A>(ts: Seq<Term<A>>, n: nat) -> Result<Seq<Tree<A>>, Fail>
    decreases ts, n,
{
    if n == 0 || n > ts.len() {
        Ok(Seq::empty())
    } else {
        match list_terms(ts, (n - 1) as nat) {
            Ok(vs) => match term_tree(ts[n - 1]) {
                Ok(v) => Ok(vs.push(v)),
                Err(e) => Err(e),
            },
            Err(e) => Err(e),
        }
    }
}

/// The record that the first `n` field definitions merge to, in order.
pub open spec fn merge_defs<A>(defs: Seq<FieldDef<A>>, n: nat) -> Result<Fields<A>, Fail>
    decreases defs, n,
{
    if n == 0 || n > defs.len() {
        Ok(Seq::empty())
    } else {
        match merge_defs(defs, (n - 1) as nat) {
            Ok(acc) => if defs[n - 1].path@.len() > MAX_PATH_DEPTH {
                Err(Fail::TooDeep(path_of(defs[n - 1].path@)))
            } else {
                insert_field(
                    acc,
                    path_of(defs[n - 1].path@),
                    path_of(defs[n - 1].path@),
                    defs[n - 1].value,
                )
            },
            Err(e) => Err(e),
        }
    }
}

/// Inserts `t` into `fs` at the path `rest`; `full` is the path reported on failure.
pub open spec fn insert_field<A>(fs: Fields<A>, rest: Seq<Seq<char>>, full: Seq<Seq<char>>, t: Term<A>) -> Result<Fields<A>, Fail>
    decreases t, rest.len(),
{
    if rest.len() == 0 {
        Err(Fail::Conflict(full))
    } else {
        let key = rest[0];
        let j = find_key(fs, key);
        if rest.len() == 1 {
            if j >= 0 {
                if fs[j].1 is Record && !fs[j].1->Record_1 {
                    Err(Fail::Conflict(full))
                } else {
                    Err(Fail::Duplicate(full))
                }
            } else {
                match term_tree(t) {
                    Ok(v) => Ok(fs.push((key, v))),
                    Err(e) => Err(e),
                }
            }
        } else if j >= 0 {
            match fs[j].1 {
                Tree::Record(sub, lit) => match insert_field(sub, rest.drop_first(), full, t) {
                    Ok(sub2) => Ok(fs.update(j, (key, Tree::Record(sub2, lit)))),
                    Err(e) => Err(e),
                },
                _ => Err(Fail::Conflict(full)),
            }
        } else {
            match insert_field(Seq::empty(), rest.drop_first(), full, t) {
                Ok(sub2) => Ok(fs.push((key, Tree::Record(sub2, false)))),
                Err(e) => Err(e),
            }
        }
    }
}

/// The model of merging a whole list of field definitions.
pub open spec fn merged<A>(defs: Seq<FieldDef<A>>) -> Result<Fields<A>, Fail> {
    merge_defs(defs, defs.len())
}

pub(crate) fn copy_path(p: &Vec<String>) -> (r: Vec<String>)
    ensures
        path_of(r@) == path_of(p@),
{
    let mut r: Vec<String> = Vec::new();
    let mut i: usize = 0;
    while i < p.len()
        invariant
            i <= p@.len(),
            r@.len() == i,
            forall|k: int| 0 <= k < i ==> r@[k]@ == p@[k]@,
        decreases p@.len() - i,
    {
        r.push(p[i].clone());
        i = i + 1;
    }
    assert(path_of(r@) =~= path_of(p@));
    r
}

fn find_field<A>(fields: &Vec<(String, Value<A>)>, key: &String) -> (r: Option<usize>)
    ensures
        match r {
            Some(j) => find_key(record_tree(fields@), key@) == j as int && j < fields@.len(),
            None => find_key(record_tree(fields@), key@) == -1,
        },
{
    let ghost fs = record_tree(fields@);
    proof { lemma_fields_tree(fields@, fields@.len()); }
    let mut i: usize = 0;
    while i < fields.len()
        invariant
            i <= fields@.len(),
            fs == record_tree(fields@),
            fs.len() == fields@.len(),
            forall|k: int| 0 <= k < fields@.len() ==> #[trigger] fs[k] == (fields@[k].0@, fields@[k].1.tree()),
            find_key(fs, key@) == find_from(fs, key@, i as int),
        decreases fields@.len() - i,
    {
        if fields[i].0 == *key {
            return Some(i);
        }
        i = i + 1;
    }
    None
}

/// Converts an authored term into a decoded value, merging the records inside it.
pub fn convert_term<A>(t: Term<A>) -> (r: Result<Value<A>, Error>)
    ensures
        match r {
            Ok(v) => term_tree(t) == Ok::<Tree<A>, Fail>(v.tree()),
            Err(e) => term_tree(t) is Err && error_is(e, term_tree(t)->Err_0),
        },
    decreases t, 0nat,
{
    match t {
        Term::Null => Ok(Value::Null),
        Term::Bool(b) => Ok(Value::Bool(b)),
        Term::Number(n) => Ok(Value::Number(n)),
        Term::String(s) => Ok(Value::String(s)),
        Term::EnumVariant(s) => Ok(Value::EnumVariant(s)),
        Term::Record(rec) => {
            match merge_fields(rec.field_defs) {
                Ok(fs) => Ok(Value::Record(fs, true)),
                Err(e) => Err(e),
            }
        },
        Term::Array(ts) => {
            match convert_list(ts) {
                Ok(vs) => Ok(Value::Array(vs)),
                Err(e) => Err(e),
            }
        },
        Term::NickelTerm(a) => Ok(Value::NickelTerm(a)),
    }
}

fn convert_list<A>(ts: Vec<Term<A>>) -> (r: Result<Vec<Value<A>>, Error>)
    ensures
        match r {
            Ok(vs) => list_terms(ts@, ts@.len()) == Ok::<Seq<Tree<A>>, Fail>(list_tree(vs@, vs@.len())),
            Err(e) => list_terms(ts@, ts@.len()) is Err && error_is(e, list_terms(ts@, ts@.len())->Err_0),
        },
    decreases ts, 1nat,
{
    let ghost all = ts@;
    let n: usize = ts.len();
    let mut rest = ts;
    let mut out: Vec<Value<A>> = Vec::new();
    let mut i: usize = 0;
    while rest.len() > 0
        invariant
            n == all.len(),
            i + rest@.len() == all.len(),
            rest@ == all.skip(i as int),
            all == ts@,
            out@.len() == i,
            list_terms(all, i as nat) == Ok::<Seq<Tree<A>>, Fail>(list_tree(out@, out@.len())),
        decreases rest@.len(),
    {
        let x = rest.remove(0);
        assert(x == all[i as int]);
        assert(decreases_to!(ts => all[i as int]));
        let v = convert_term(x);
        match v {
            Ok(v) => {
                proof {
                    lemma_list_tree(out@, out@.len());
                    lemma_list_tree(out@.push(v), out@.len() + 1);
                    assert(list_tree(out@.push(v), out@.len() + 1) =~= list_tree(out@, out@.len()).push(v.tree()));
                }
                out.push(v);
                i = i + 1;
                proof { assert(rest@ =~= all.skip(i as int)); }
            },
            Err(e) => {
                proof { lemma_list_terms_err(all, (i + 1) as nat, all.len()); }
                return Err(e);
            },
        }
    }
    Ok(out)
}

proof fn lemma_list_terms_err<A>(ts: Seq<Term<A>>, n: nat, m: nat)
    requires
        0 < n <= m <= ts.len(),
        list_terms(ts, n) is Err,
    ensures
        list_terms(ts, m) == list_terms(ts, n),
    decreases m - n,
{
    if m > n {
        lemma_list_terms_err(ts, n, (m - 1) as nat);
    }
}

proof fn lemma_merge_defs_err<A>(defs: Seq<FieldDef<A>>, n: nat, m: nat)
    requires
        0 < n <= m <= defs.len(),
        merge_defs(defs, n) is Err,
    ensures
        merge_defs(defs, m) == merge_defs(defs, n),
    decreases m - n,
{
    if m > n {
        lemma_merge_defs_err(defs, n, (m - 1) as nat);
    }
}

/// Merges field definitions, in order, into a record with unique keys.
pub fn merge_fields<A>(defs: Vec<FieldDef<A>>) -> (r: Result<Vec<(String, Value<A>)>, Error>)
    ensures
        match r {
            Ok(fs) => merged(defs@) == Ok::<Fields<A>, Fail>(record_tree(fs@)),
            Err(e) => merged(defs@) is Err && error_is(e, merged(defs@)->Err_0),
        },
    decreases defs, 1nat,
{
    let ghost all = defs@;
    let n: usize = defs.len();
    let mut rest = defs;
    let mut out: Vec<(String, Value<A>)> = Vec::new();
    let mut i: usize = 0;
    while rest.len() > 0
        invariant
            n == all.len(),
            i + rest@.len() == all.len(),
            rest@ == all.skip(i as int),
            all == defs@,
            merge_defs(all, i as nat) == Ok::<Fields<A>, Fail>(record_tree(out@)),
        decreases rest@.len(),
    {
        let d = rest.remove(0);
        assert(d == all[i as int]);
        assert(decreases_to!(defs => all[i as int].value));
        let FieldDef { path, value } = d;
        if path.len() > MAX_PATH_DEPTH {
            proof { lemma_merge_defs_err(all, (i + 1) as nat, all.len()); }
            return Err(Error::PathTooDeep(copy_path(&path)));
        }
        let r = insert_path(&mut out, &path, 0, value);
        match r {
            Ok(()) => {
                i = i + 1;
                proof {
                    assert(rest@ =~= all.skip(i as int));
                    assert(path_of(path@).skip(0) =~= path_of(path@));
                }
            },
            Err(e) => {
                proof {
                    assert(path_of(path@).skip(0) =~= path_of(path@));
                    lemma_merge_defs_err(all, (i + 1) as nat, all.len());
                }
                return Err(e);
            },
        }
    }
    Ok(out)
}

/// Inserts `t` under `path[k..]` into `fields`.
fn insert_path<A>(fields: &mut Vec<(String, Value<A>)>, path: &Vec<String>, k: usize, t: Term<A>) -> (r: Result<(), Error>)
    requires
        k <= path@.len(),
    ensures
        match r {
            Ok(()) => insert_field(record_tree(old(fields)@), path_of(path@).skip(k as int), path_of(path@), t)
                == Ok::<Fields<A>, Fail>(record_tree(final(fields)@)),
            Err(e) => insert_field(record_tree(old(fields)@), path_of(path@).skip(k as int), path_of(path@), t) is Err
                && error_is(e, insert_field(record_tree(old(fields)@), path_of(path@).skip(k as int), path_of(path@), t)->Err_0)
                && record_tree(final(fields)@) == record_tree(old(fields)@),
        },
    decreases t, path@.len() - k,
{
    let ghost fs0 = record_tree(fields@);
    let ghost rest = path_of(path@).skip(k as int);
    proof { lemma_fields_tree(fields@, fields@.len()); }
    if k >= path.len() {
        return Err(Error::PathConflict(copy_path(path)));
    }
    assert(rest[0] == path@[k as int]@);
    let key = &path[k];
    let j = find_field(fields, key);
    if k + 1 == path.len() {
        match j {
            Some(j) => {
                if matches!(fields[j].1, Value::Record(_, false)) {
                    Err(Error::PathConflict(copy_path(path)))
                } else {
                    Err(Error::DuplicateField(copy_path(path)))
                }
            },
            None => {
                match convert_term(t) {
                    Ok(v) => {
                        fields.push((key.clone(), v));
                        proof {
                            lemma_fields_tree(fields@, fields@.len());
                            assert(record_tree(fields@) =~= fs0.push((rest[0], v.tree())));
                        }
                        Ok(())
                    },
                    Err(e) => Err(e),
                }
            },
        }
    } else {
        proof { assert(rest.drop_first() =~= path_of(path@).skip(k + 1)); }
        match j {
            Some(j) => {
                if !matches!(fields[j].1, Value::Record(_, _)) {
                    return Err(Error::PathConflict(copy_path(path)));
                }
                let ghost before = fields@;
                let (name, old_value) = fields.remove(j);
                match old_value {
                    Value::Record(mut sub, lit) => {
                        let ghost sub0 = sub@;
                        proof { lemma_find_from(fs0, rest[0], 0); }
                        assert(name@ == rest[0]);
                        assert(fs0[j as int].1 == Tree::Record(record_tree(sub0), lit));
                        let r = insert_path(&mut sub, path, k + 1, t);
                        fields.insert(j, (name, Value::Record(sub, lit)));
                        proof {
                            assert(fields@ =~= before.update(j as int, fields@[j as int]));
                            lemma_fields_tree(fields@, fields@.len());
                            assert(record_tree(fields@) =~= fs0.update(
                                j as int,
                                (rest[0], Tree::Record(record_tree(sub@), lit)),
                            ));
                            if r is Err {
                                assert(record_tree(fields@) =~= fs0);
                            }
                        }
                        r
                    },
                    _ => Err(Error::PathConflict(copy_path(path))),
                }
            },
            None => {
                let mut sub: Vec<(String, Value<A>)> = Vec::new();
                proof { assert(record_tree(sub@) =~= Seq::<(Seq<char>, Tree<A>)>::empty()); }
                match insert_path(&mut sub, path, k + 1, t) {
                    Ok(()) => {
                        fields.push((key.clone(), Value::Record(sub, false)));
                        proof {
                            lemma_fields_tree(fields@, fields@.len());
                            assert(record_tree(fields@) =~= fs0.push((rest[0], Tree::Record(record_tree(sub@), false))));
                        }
                        Ok(())
                    },
                    Err(e) => Err(e),
                }
            },
        }
    }
}

} // verus!
