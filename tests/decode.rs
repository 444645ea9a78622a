use nickel_lang_document::{
    as_bool, as_i64, as_map, as_opaque, as_option, as_seq, as_text, convert_term, get, kind,
    merge_fields, Deserializer,
    Document, Error, FieldDef, Kind, Number, Record, Shape, Term, Value, MAX_PATH_DEPTH,
    NICKEL_TERM_SENTINEL,
};

fn path(names: &[&str]) -> Vec<String> {
    names.iter().map(|s| s.to_string()).collect()
}

fn num_term(x: u8) -> Term<u32> {
    Term::Number(Number::new(false, vec![x], 0).unwrap())
}

fn def(names: &[&str], value: Term<u32>) -> FieldDef<u32> {
    FieldDef { path: path(names), value }
}

fn session(defs: Vec<FieldDef<u32>>) -> Result<Deserializer<u32>, Error> {
    Deserializer::new(Document { field_defs: defs })
}

#[test]
fn merges_shared_prefix_into_one_record() {
    let d = session(vec![
        def(&["a", "b"], num_term(1)),
        def(&["a", "c"], Term::String("x".to_string())),
    ])
    .unwrap();
    assert_eq!(d.fields().len(), 1);
    assert_eq!(d.fields()[0].0, "a");
    let a = as_map(get(d.fields(), "a").unwrap()).unwrap();
    assert_eq!(a.len(), 2);
    assert_eq!(a[0].0, "b");
    assert_eq!(a[1].0, "c");
    assert_eq!(as_i64(get(a, "b").unwrap()).unwrap(), 1);
    assert_eq!(as_text(get(a, "c").unwrap()).unwrap(), "x");
}

#[test]
fn leaf_then_longer_path_conflicts() {
    let r = session(vec![def(&["a"], num_term(1)), def(&["a", "b"], num_term(2))]);
    match r {
        Err(Error::PathConflict(p)) => assert_eq!(p, path(&["a", "b"])),
        _ => panic!("expected a path conflict"),
    }
}

#[test]
fn longer_path_then_leaf_conflicts() {
    let r = session(vec![def(&["a", "b"], num_term(2)), def(&["a"], num_term(1))]);
    match r {
        Err(Error::PathConflict(p)) => assert_eq!(p, path(&["a"])),
        _ => panic!("expected a path conflict"),
    }
}

#[test]
fn same_path_twice_is_duplicate() {
    let r = session(vec![def(&["a", "b"], num_term(1)), def(&["a", "b"], num_term(2))]);
    match r {
        Err(Error::DuplicateField(p)) => assert_eq!(p, path(&["a", "b"])),
        _ => panic!("expected a duplicate field"),
    }
}

#[test]
fn empty_path_is_rejected() {
    let r = session(vec![def(&[], num_term(1))]);
    assert!(matches!(r, Err(Error::PathConflict(p)) if p.is_empty()));
}

#[test]
fn record_literal_is_extended_by_longer_path() {
    let rec = Term::Record(Record { field_defs: vec![def(&["b"], num_term(1))] });
    let d = session(vec![def(&["a"], rec), def(&["a", "c"], num_term(2))]).unwrap();
    let a = as_map(get(d.fields(), "a").unwrap()).unwrap();
    assert_eq!(a.len(), 2);
    assert_eq!(as_i64(get(a, "c").unwrap()).unwrap(), 2);
}

#[test]
fn conflict_inside_record_literal_fails_whole_decode() {
    let rec = Term::Record(Record { field_defs: vec![def(&["b"], num_term(1)), def(&["b"], num_term(1))] });
    let r = session(vec![def(&["ok"], num_term(3)), def(&["a"], rec)]);
    assert!(matches!(r, Err(Error::DuplicateField(_))));
}

#[test]
fn order_of_definitions_does_not_change_content() {
    let one = session(vec![def(&["x", "y"], num_term(1)), def(&["z"], num_term(2))]).unwrap();
    let two = session(vec![def(&["z"], num_term(2)), def(&["x", "y"], num_term(1))]).unwrap();
    for d in [&one, &two] {
        let x = as_map(get(d.fields(), "x").unwrap()).unwrap();
        assert_eq!(as_i64(get(x, "y").unwrap()).unwrap(), 1);
        assert_eq!(as_i64(get(d.fields(), "z").unwrap()).unwrap(), 2);
    }
    assert_eq!(one.fields()[0].0, "x");
    assert_eq!(two.fields()[0].0, "z");
}

#[test]
fn nested_record_flattened_merges_to_same_tree() {
    let nested = Term::Record(Record {
        field_defs: vec![def(&["b"], num_term(1)), def(&["c"], num_term(2))],
    });
    let d1 = session(vec![def(&["a"], nested)]).unwrap();
    let d2 = session(vec![def(&["a", "b"], num_term(1)), def(&["a", "c"], num_term(2))]).unwrap();
    for d in [&d1, &d2] {
        let a = as_map(get(d.fields(), "a").unwrap()).unwrap();
        assert_eq!(a.len(), 2);
        assert_eq!(a[0].0, "b");
        assert_eq!(as_i64(&a[0].1).unwrap(), 1);
        assert_eq!(a[1].0, "c");
        assert_eq!(as_i64(&a[1].1).unwrap(), 2);
    }
}

#[test]
fn sequence_request_is_restartable() {
    let arr = Term::Array(vec![num_term(1), num_term(2), num_term(3)]);
    let d = session(vec![def(&["xs"], arr)]).unwrap();
    let v = get(d.fields(), "xs").unwrap();
    let first = as_seq(v).unwrap();
    assert_eq!(as_i64(&first[0]).unwrap(), 1);
    assert!(as_bool(&first[1]).is_err());
    let again = as_seq(v).unwrap();
    assert_eq!(again.len(), 3);
    let got: Vec<i64> = again.iter().map(|e| as_i64(e).unwrap()).collect();
    assert_eq!(got, vec![1, 2, 3]);
}

#[test]
fn optional_of_null_and_of_value() {
    let d = session(vec![def(&["n"], Term::Null), def(&["b"], Term::Bool(true))]).unwrap();
    assert!(as_option(get(d.fields(), "n").unwrap()).is_none());
    let b = get(d.fields(), "b").unwrap();
    let inner = as_option(b).unwrap();
    assert_eq!(as_bool(inner).unwrap(), as_bool(b).unwrap());
    assert!(as_bool(inner).unwrap());
}

#[test]
fn opaque_term_round_trips_through_side_table() {
    let d = session(vec![
        def(&["e"], Term::NickelTerm(7)),
        def(&["f", "g"], Term::NickelTerm(9)),
    ])
    .unwrap();
    let e = get(d.fields(), "e").unwrap();
    let (key, index) = as_opaque(e).unwrap();
    assert_eq!(key, NICKEL_TERM_SENTINEL);
    assert_eq!(*d.recover(&key, index).unwrap(), 7);
    let g = get(as_map(get(d.fields(), "f").unwrap()).unwrap(), "g").unwrap();
    let (key, index) = as_opaque(g).unwrap();
    assert_eq!(*d.recover(&key, index).unwrap(), 9);
    assert_eq!(*d.handle(index as usize).unwrap(), 9);
    assert!(matches!(as_bool(e), Err(Error::TypeMismatch(Shape::Bool, Kind::Opaque))));
    assert!(matches!(as_map(e), Err(Error::TypeMismatch(Shape::Mapping, Kind::Opaque))));
    assert!(matches!(as_seq(e), Err(Error::TypeMismatch(Shape::Sequence, Kind::Opaque))));
    assert!(matches!(as_text(e), Err(Error::TypeMismatch(Shape::Text, Kind::Opaque))));
}

#[test]
fn recover_rejects_wrong_key_or_index() {
    let d = session(vec![def(&["e"], Term::NickelTerm(7))]).unwrap();
    assert!(matches!(d.recover(&"other".to_string(), 0), Err(Error::MissingOpaqueSentinel)));
    let key = NICKEL_TERM_SENTINEL.to_string();
    assert!(matches!(d.recover(&key, 1), Err(Error::MissingOpaqueSentinel)));
    assert!(matches!(d.handle(5), Err(Error::MissingOpaqueSentinel)));
}

#[test]
fn opaque_request_on_plain_value_fails() {
    let d = session(vec![def(&["n"], num_term(4))]).unwrap();
    let n = get(d.fields(), "n").unwrap();
    assert!(matches!(as_opaque(n), Err(Error::MissingOpaqueSentinel)));
    assert_eq!(kind(n), Kind::Number);
}

#[test]
fn mismatched_shapes_report_both_sides() {
    let d = session(vec![def(&["s"], Term::String("hi".to_string()))]).unwrap();
    let s = get(d.fields(), "s").unwrap();
    assert!(matches!(as_map(s), Err(Error::TypeMismatch(Shape::Mapping, Kind::String))));
    assert!(matches!(as_i64(s), Err(Error::TypeMismatch(Shape::Integer, Kind::String))));
    assert!(matches!(as_bool(s), Err(Error::TypeMismatch(Shape::Bool, Kind::String))));
}

#[test]
fn enum_tag_reads_as_text() {
    let d = session(vec![def(&["t"], Term::EnumVariant("Foo".to_string()))]).unwrap();
    let t = get(d.fields(), "t").unwrap();
    assert_eq!(as_text(t).unwrap(), "Foo");
    assert_eq!(kind(t), Kind::EnumVariant);
}

#[test]
fn missing_key_is_none() {
    let d = session(vec![def(&["a"], num_term(1))]).unwrap();
    assert!(get(d.fields(), "b").is_none());
}

#[test]
fn direct_value_access() {
    let v: Value<u32> = Value::Bool(false);
    assert!(!as_bool(&v).unwrap());
}

#[test]
fn overly_long_path_is_refused() {
    let names: Vec<String> = (0..MAX_PATH_DEPTH + 1).map(|i| format!("k{}", i)).collect();
    let refs: Vec<&str> = names.iter().map(|s| s.as_str()).collect();
    let r = session(vec![def(&refs, num_term(1))]);
    assert!(matches!(r, Err(Error::PathTooDeep(p)) if p.len() == MAX_PATH_DEPTH + 1));
    let ok: Vec<&str> = refs[..MAX_PATH_DEPTH].to_vec();
    assert!(session(vec![def(&ok, num_term(1))]).is_ok());
}

#[test]
fn merge_fields_and_convert_term_directly() {
    let fs = merge_fields(vec![def(&["a"], Term::Bool(true))]).unwrap();
    assert_eq!(fs.len(), 1);
    let v = convert_term(Term::Record(Record { field_defs: vec![def(&["x", "y"], Term::Null)] })).unwrap();
    let x = as_map(get(as_map(&v).unwrap(), "x").unwrap()).unwrap();
    assert!(as_option(get(x, "y").unwrap()).is_none());
    let opaque: Value<u32> = convert_term(Term::NickelTerm(3)).unwrap();
    assert!(matches!(opaque, Value::NickelTerm(3)));
}

#[test]
fn side_table_holds_each_opaque_term_once_in_order() {
    let arr = Term::Array(vec![Term::NickelTerm(5), num_term(1), Term::NickelTerm(6)]);
    let d = session(vec![
        def(&["a"], Term::NickelTerm(4)),
        def(&["b"], arr),
        def(&["c", "d"], Term::NickelTerm(7)),
    ])
    .unwrap();
    let mut seen = Vec::new();
    for i in 0..4 {
        seen.push(*d.handle(i).unwrap());
    }
    assert_eq!(seen, vec![4, 5, 6, 7]);
    assert!(d.handle(4).is_err());
    let b = as_seq(get(d.fields(), "b").unwrap()).unwrap();
    assert_eq!(as_opaque(&b[2]).unwrap().1, 2);
}

#[test]
fn same_path_after_record_literal_is_duplicate() {
    let rec = Term::Record(Record { field_defs: vec![def(&["b"], Term::Null)] });
    let r = session(vec![def(&["a"], rec), def(&["a"], Term::Null)]);
    match r {
        Err(Error::DuplicateField(p)) => assert_eq!(p, path(&["a"])),
        _ => panic!("expected a duplicate field"),
    }
}

#[test]
fn record_literal_inner_path_redefined_is_duplicate() {
    let inner = Term::Record(Record { field_defs: vec![def(&["c"], num_term(1))] });
    let rec = Term::Record(Record { field_defs: vec![def(&["b"], inner)] });
    let r = session(vec![def(&["a"], rec), def(&["a", "b"], num_term(5))]);
    assert!(matches!(r, Err(Error::DuplicateField(p)) if p == path(&["a", "b"])));
}

#[test]
fn record_made_by_longer_path_then_literal_conflicts() {
    let rec = Term::Record(Record { field_defs: vec![] });
    let r = session(vec![def(&["a", "b"], num_term(1)), def(&["a"], rec)]);
    assert!(matches!(r, Err(Error::PathConflict(p)) if p == path(&["a"])));
}
