use queryscript::ast::Ident;
use queryscript::error::CompileError;
use queryscript::inference::{mkcref, CRef, Cells, Constraint, Polled};
use queryscript::types::{AtomicType, Constrainable, Field, MType};

fn int64() -> MType {
    MType::Atom(AtomicType::Int64)
}

fn text() -> MType {
    MType::Atom(AtomicType::Utf8)
}

fn record(fields: &[(&str, MType)]) -> MType {
    MType::Record(
        fields
            .iter()
            .map(|(n, t)| Field { name: n.to_string(), type_: t.duplicate() })
            .collect(),
    )
}

fn no_such(name: &str) -> CompileError {
    CompileError::no_such_entry(vec![Ident::without_location(name.to_string())])
}

#[test]
fn new_cells_have_their_state() {
    let mut cells: Cells<MType> = Cells::new();
    let u = CRef::new_unknown(&mut cells, "u");
    let k = CRef::new_known(&mut cells, int64());
    let e = CRef::new_error(&mut cells, no_such("t"));
    assert_eq!(u.index, 0);
    assert_eq!(k.index, 1);
    assert_eq!(e.index, 2);
    assert!(!u.is_known(&cells));
    assert!(k.is_known(&cells));
    assert!(!e.is_known(&cells));
    assert_eq!(k.must(&cells).unwrap(), &int64());
    assert!(u.poison(&cells).is_none());
    assert!(matches!(e.poison(&cells), Some(CompileError::NoSuchEntry { .. })));
}

#[test]
fn must_on_unknown_is_internal_error() {
    let mut cells: Cells<MType> = Cells::new();
    let u = CRef::new_unknown(&mut cells, "u");
    assert!(matches!(u.must(&cells), Err(CompileError::InternalError { .. })));
}

#[test]
fn new_result_is_known_or_poisoned() {
    let mut cells: Cells<MType> = Cells::new();
    let ok = CRef::new_result(&mut cells, Ok(text()));
    let err = CRef::new_result(&mut cells, Err(no_such("x")));
    assert_eq!(ok.must(&cells).unwrap(), &text());
    assert!(err.poison(&cells).is_some());
    let m = mkcref(&mut cells, int64());
    assert_eq!(m.must(&cells).unwrap(), &int64());
}

#[test]
fn unify_self_is_noop_in_every_state() {
    let mut cells: Cells<MType> = Cells::new();
    let u = CRef::new_unknown(&mut cells, "u");
    let k = CRef::new_known(&mut cells, int64());
    let e = CRef::new_error(&mut cells, no_such("t"));
    assert_eq!(u.constrain(&mut cells, Constraint::Callback(1)).unwrap(), vec![]);
    for c in [u, k, e] {
        assert_eq!(c.unify(&c, &mut cells).unwrap(), vec![]);
    }
    assert!(!u.is_known(&cells));
    assert_eq!(k.must(&cells).unwrap(), &int64());
    assert!(e.poison(&cells).is_some());
    let fired = u.unify(&k, &mut cells).unwrap();
    assert_eq!(fired, vec![Constraint::Callback(1)]);
}

#[test]
fn unify_is_symmetric() {
    for swap in [false, true] {
        let mut cells: Cells<MType> = Cells::new();
        let a = CRef::new_unknown(&mut cells, "a");
        let b = CRef::new_unknown(&mut cells, "b");
        let k = CRef::new_known(&mut cells, int64());
        a.constrain(&mut cells, Constraint::Callback(1)).unwrap();
        b.constrain(&mut cells, Constraint::Callback(2)).unwrap();
        let r = if swap { b.unify(&a, &mut cells) } else { a.unify(&b, &mut cells) };
        assert_eq!(r.unwrap(), vec![]);
        assert_eq!(a.find(&mut cells), b.find(&mut cells));
        let mut fired = k.unify(&a, &mut cells).unwrap();
        fired.sort_by_key(|c| match c {
            Constraint::Callback(n) => *n,
            _ => 0,
        });
        assert_eq!(fired, vec![Constraint::Callback(1), Constraint::Callback(2)]);
        assert_eq!(a.must(&cells).unwrap(), &int64());
        assert_eq!(b.must(&cells).unwrap(), &int64());
    }
}

#[test]
fn unify_known_with_unknown_either_way() {
    for swap in [false, true] {
        let mut cells: Cells<MType> = Cells::new();
        let u = CRef::new_unknown(&mut cells, "u");
        let k = CRef::new_known(&mut cells, text());
        u.constrain(&mut cells, Constraint::Callback(7)).unwrap();
        let r = if swap { k.unify(&u, &mut cells) } else { u.unify(&k, &mut cells) };
        assert_eq!(r.unwrap(), vec![Constraint::Callback(7)]);
        assert_eq!(u.must(&cells).unwrap(), &text());
        assert_eq!(u.find(&mut cells), k);
    }
}

#[test]
fn known_value_never_changes() {
    let mut cells: Cells<MType> = Cells::new();
    let a = CRef::new_known(&mut cells, record(&[("x", int64())]));
    let same = CRef::new_known(&mut cells, record(&[("x", int64())]));
    let other = CRef::new_known(&mut cells, record(&[("x", text())]));
    assert_eq!(a.unify(&same, &mut cells).unwrap(), vec![]);
    let err = a.unify(&other, &mut cells).unwrap_err();
    assert!(matches!(err, CompileError::TypesystemError { ref lhs, ref rhs }
        if *lhs == record(&[("x", int64())]) && *rhs == record(&[("x", text())])));
    let err = other.unify(&a, &mut cells).unwrap_err();
    assert!(matches!(err, CompileError::TypesystemError { .. }));
    assert_eq!(a.must(&cells).unwrap(), &record(&[("x", int64())]));
    assert_eq!(other.must(&cells).unwrap(), &record(&[("x", text())]));
    let u = CRef::new_unknown(&mut cells, "u");
    u.unify(&a, &mut cells).unwrap();
    assert_eq!(a.must(&cells).unwrap(), &record(&[("x", int64())]));
}

#[test]
fn constraints_run_in_registration_order() {
    let mut cells: Cells<MType> = Cells::new();
    let a = CRef::new_unknown(&mut cells, "a");
    for n in [1, 2, 3] {
        assert_eq!(a.constrain(&mut cells, Constraint::Callback(n)).unwrap(), vec![]);
    }
    let k = CRef::new_known(&mut cells, int64());
    let fired = a.unify(&k, &mut cells).unwrap();
    assert_eq!(
        fired,
        vec![Constraint::Callback(1), Constraint::Callback(2), Constraint::Callback(3)]
    );
    assert_eq!(a.constrain(&mut cells, Constraint::Callback(4)).unwrap(), vec![Constraint::Callback(4)]);
}

#[test]
fn merged_unknowns_keep_both_orders_of_work() {
    let mut cells: Cells<MType> = Cells::new();
    let a = CRef::new_unknown(&mut cells, "a");
    let b = CRef::new_unknown(&mut cells, "b");
    a.constrain(&mut cells, Constraint::Callback(1)).unwrap();
    b.constrain(&mut cells, Constraint::Callback(2)).unwrap();
    a.constrain(&mut cells, Constraint::Callback(3)).unwrap();
    a.unify(&b, &mut cells).unwrap();
    let k = CRef::new_known(&mut cells, int64());
    let fired = b.unify(&k, &mut cells).unwrap();
    assert_eq!(
        fired,
        vec![Constraint::Callback(1), Constraint::Callback(3), Constraint::Callback(2)]
    );
}

#[test]
fn chain_of_unifications_has_one_root() {
    let mut cells: Cells<MType> = Cells::new();
    let cs: Vec<CRef> = (0..6).map(|i| CRef::new_unknown(&mut cells, &format!("c{}", i))).collect();
    for i in 0..5 {
        assert_eq!(cs[i].unify(&cs[i + 1], &mut cells).unwrap(), vec![]);
    }
    let root = cs[0].find(&mut cells);
    for c in &cs {
        assert_eq!(c.find(&mut cells), root);
    }
    let k = CRef::new_known(&mut cells, int64());
    cs[3].unify(&k, &mut cells).unwrap();
    for c in &cs {
        assert_eq!(c.must(&cells).unwrap(), &int64());
    }
}

#[test]
fn poisoned_cell_forwards_its_error() {
    let mut cells: Cells<MType> = Cells::new();
    let e = CRef::new_error(&mut cells, no_such("gone"));
    let err = e.constrain(&mut cells, Constraint::Callback(1)).unwrap_err();
    assert!(matches!(err, CompileError::NoSuchEntry { ref path } if path.len() == 1 && path[0].value == "gone"));
    match e.poll(&mut cells, 9) {
        Polled::Failed(CompileError::NoSuchEntry { path }) => assert_eq!(path[0].value, "gone"),
        _ => panic!("poisoned cell must fail"),
    }
    let k = CRef::new_known(&mut cells, int64());
    assert!(matches!(e.unify(&k, &mut cells), Err(CompileError::NoSuchEntry { .. })));
    assert_eq!(k.must(&cells).unwrap(), &int64());
    assert!(e.poison(&cells).is_some());
}

#[test]
fn poison_spreads_to_unified_unknown_cells() {
    for swap in [false, true] {
        let mut cells: Cells<MType> = Cells::new();
        let e = CRef::new_error(&mut cells, no_such("gone"));
        let u = CRef::new_unknown(&mut cells, "u");
        assert!(matches!(u.poll(&mut cells, 3), Polled::Pending));
        let r = if swap { e.unify(&u, &mut cells) } else { u.unify(&e, &mut cells) };
        assert!(matches!(r, Err(CompileError::NoSuchEntry { .. })));
        assert_eq!(u.find(&mut cells), e);
        match u.poll(&mut cells, 4) {
            Polled::Failed(CompileError::NoSuchEntry { path }) => assert_eq!(path[0].value, "gone"),
            _ => panic!("the merged cell must be poisoned"),
        }
        assert!(u.constrain(&mut cells, Constraint::Callback(1)).is_err());
        let k = CRef::new_known(&mut cells, int64());
        assert!(u.unify(&k, &mut cells).is_err());
        assert!(!u.is_known(&cells));
    }
}

#[test]
fn poll_parks_once_and_then_is_ready() {
    let mut cells: Cells<MType> = Cells::new();
    let u = CRef::new_unknown(&mut cells, "u");
    assert!(matches!(u.poll(&mut cells, 5), Polled::Pending));
    let k = CRef::new_known(&mut cells, int64());
    assert_eq!(u.unify(&k, &mut cells).unwrap(), vec![Constraint::Wake(5)]);
    assert!(matches!(u.poll(&mut cells, 5), Polled::Ready));
    let other = CRef::new_known(&mut cells, int64());
    assert_eq!(u.unify(&other, &mut cells).unwrap(), vec![]);
}

#[test]
fn then_derives_a_cell_of_another_store() {
    let mut cells: Cells<MType> = Cells::new();
    let mut names: Cells<String> = Cells::new();
    let u = CRef::new_unknown(&mut cells, "u");
    let (slot, due) = u.then(&mut cells, &mut names, 11);
    assert!(due.is_empty());
    assert!(!slot.is_known(&names));
    let k = CRef::new_known(&mut cells, int64());
    assert_eq!(
        u.unify(&k, &mut cells).unwrap(),
        vec![Constraint::Derive { token: 11, slot }]
    );
    let (slot2, due2) = k.then(&mut cells, &mut names, 12);
    assert_eq!(due2, vec![Constraint::Derive { token: 12, slot: slot2 }]);
    let e = CRef::new_error(&mut cells, no_such("t"));
    let (slot3, due3) = e.then(&mut cells, &mut names, 13);
    assert!(due3.is_empty());
    assert!(matches!(slot3.poison(&names), Some(CompileError::NoSuchEntry { .. })));
}

#[test]
fn structural_unify_of_types() {
    assert!(int64().unify(&int64()).is_ok());
    assert!(int64().unify(&text()).is_err());
    let l1 = MType::List(Box::new(record(&[("a", int64()), ("b", text())])));
    let l2 = MType::List(Box::new(record(&[("a", int64()), ("b", text())])));
    let l3 = MType::List(Box::new(record(&[("a", int64()), ("c", text())])));
    let l4 = MType::List(Box::new(record(&[("a", int64())])));
    assert!(l1.unify(&l2).is_ok());
    assert!(l1.same(&l2));
    assert!(!l1.same(&l3));
    assert!(!l1.same(&l4));
    assert!(matches!(l1.unify(&l3), Err(CompileError::TypesystemError { .. })));
    assert!(!int64().same(&l1));
    assert_eq!(l1.duplicate(), l1);
}

#[test]
fn errors_copy_to_equal_values() {
    let e = CompileError::duplicate_entry(vec![Ident::without_location("t".to_string())]);
    assert!(matches!(e.duplicate(), CompileError::DuplicateEntry { path } if path.len() == 1 && path[0].value == "t"));
    let i = CompileError::internal("oops");
    assert!(matches!(i.duplicate(), CompileError::InternalError { what } if what == "oops"));
    let w = CompileError::wrong_type(&int64(), &text());
    assert!(matches!(w, CompileError::TypesystemError { ref lhs, ref rhs } if *lhs == int64() && *rhs == text()));
}

#[test]
fn two_poisoned_cells_report_both_errors() {
    let mut cells: Cells<MType> = Cells::new();
    let a = CRef::new_error(&mut cells, no_such("a"));
    let b = CRef::new_error(&mut cells, CompileError::internal("b"));
    match a.unify(&b, &mut cells) {
        Err(CompileError::Multiple { sources }) => {
            assert_eq!(sources.len(), 2);
            assert!(matches!(&sources[0], CompileError::NoSuchEntry { .. }));
            assert!(matches!(&sources[1], CompileError::InternalError { .. }));
        }
        _ => panic!("expected both errors"),
    }
    match b.unify(&a, &mut cells) {
        Err(CompileError::Multiple { sources }) => {
            assert!(matches!(&sources[0], CompileError::InternalError { .. }));
            assert!(matches!(&sources[1], CompileError::NoSuchEntry { .. }));
            let copy = CompileError::Multiple { sources }.duplicate();
            assert!(matches!(copy, CompileError::Multiple { ref sources } if sources.len() == 2));
        }
        _ => panic!("expected both errors"),
    }
    assert!(a.poison(&cells).is_some() && b.poison(&cells).is_some());
}

#[test]
fn chain_in_mixed_order_has_one_unknown_root() {
    let mut cells: Cells<MType> = Cells::new();
    let cs: Vec<CRef> = (0..5).map(|i| CRef::new_unknown(&mut cells, &format!("c{}", i))).collect();
    for i in 0..4 {
        let r = if i % 2 == 0 { cs[i + 1].unify(&cs[i], &mut cells) } else { cs[i].unify(&cs[i + 1], &mut cells) };
        assert_eq!(r.unwrap(), vec![]);
    }
    let root = cs[4].find(&mut cells);
    for c in &cs {
        assert_eq!(c.find(&mut cells), root);
        assert!(!c.is_known(&cells));
        assert!(c.poison(&cells).is_none());
    }
}
