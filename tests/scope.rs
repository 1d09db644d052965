use std::rc::Rc;

use queryscript::ast::{path_location, Ident, Location, SourceLocation};
use queryscript::error::CompileError;
use queryscript::inference::{CRef, Cells};
use queryscript::scope::{SQLNames, SQLScope};
use queryscript::sql::{DataType, ParamValue, SQLParam, SchemaProvider};
use queryscript::types::{AtomicType, Field, MType};

fn int64() -> MType {
    MType::Atom(AtomicType::Int64)
}

fn text() -> MType {
    MType::Atom(AtomicType::Utf8)
}

fn record(fields: &[(&str, MType)]) -> MType {
    MType::Record(
        fields
            .iter()
            .map(|(n, t)| Field { name: n.to_string(), type_: t.duplicate() })
            .collect(),
    )
}

fn s(x: &str) -> String {
    x.to_string()
}

fn here() -> SourceLocation {
    SourceLocation::Single(s("q.sql"), Location { line: 1, column: 1 })
}

#[test]
fn inner_binding_shadows_outer_field() {
    let mut cells: Cells<MType> = Cells::new();
    let mut outer = SQLScope::empty();
    let a = CRef::new_known(&mut cells, record(&[("x", int64())]));
    outer.add_reference(&s("a"), &here(), a).unwrap();
    let outer = Rc::new(outer);
    let mut inner = SQLScope::new(Some(outer.clone()));
    let b = CRef::new_known(&mut cells, record(&[("x", text())]));
    inner.add_reference(&s("b"), &here(), b).unwrap();

    let refs = inner.get_available_references(&cells, None).unwrap().unwrap();
    let x = refs.get(&s("x")).unwrap();
    assert_eq!(x.relation, "b");
    assert_eq!(x.field, "x");
    assert_eq!(x.type_, Some(text()));

    let qualified = inner.get_available_references(&cells, Some(&s("a"))).unwrap().unwrap();
    let ax = qualified.get(&s("x")).unwrap();
    assert_eq!(ax.relation, "a");
    assert_eq!(ax.type_, Some(int64()));
    assert_eq!(inner.get_relation(&s("a")).unwrap().type_, a);
    assert_eq!(inner.get_relation(&s("b")).unwrap().type_, b);
}

#[test]
fn same_level_field_is_ambiguous() {
    let mut cells: Cells<MType> = Cells::new();
    let mut scope = SQLScope::empty();
    let r1 = CRef::new_known(&mut cells, record(&[("y", int64()), ("p", int64())]));
    let r2 = CRef::new_known(&mut cells, record(&[("y", text())]));
    scope.add_reference(&s("r1"), &here(), r1).unwrap();
    scope.add_reference(&s("r2"), &here(), r2).unwrap();

    let refs = scope.get_available_references(&cells, None).unwrap().unwrap();
    let y = refs.get(&s("y")).unwrap();
    assert_eq!(y.relation, "r1");
    assert_eq!(y.type_, None);
    assert_eq!(refs.get(&s("p")).unwrap().type_, Some(int64()));
    let level = refs.current_level().unwrap();
    let names: Vec<&str> = level.iter().map(|m| m.field.as_str()).collect();
    assert_eq!(names, vec!["y", "p"]);

    let q1 = scope.get_available_references(&cells, Some(&s("r1"))).unwrap().unwrap();
    assert_eq!(q1.get(&s("y")).unwrap().type_, Some(int64()));
    let q2 = scope.get_available_references(&cells, Some(&s("r2"))).unwrap().unwrap();
    assert_eq!(q2.get(&s("y")).unwrap().type_, Some(text()));
}

#[test]
fn duplicate_reference_is_refused() {
    let mut cells: Cells<MType> = Cells::new();
    let mut scope = SQLScope::empty();
    let first = CRef::new_known(&mut cells, int64());
    let second = CRef::new_known(&mut cells, text());
    assert!(scope.add_reference(&s("t"), &here(), first).is_ok());
    let second_loc = SourceLocation::Single(s("q.sql"), Location { line: 7, column: 3 });
    let err = scope.add_reference(&s("t"), &second_loc, second).unwrap_err();
    match err {
        CompileError::DuplicateEntry { path } => {
            assert_eq!(path.len(), 1);
            assert_eq!(path[0].value, "t");
            assert!(matches!(&path[0].loc, SourceLocation::Single(f, l) if f == "q.sql" && l.line == 7 && l.column == 3));
        }
        _ => panic!("expected a duplicate entry"),
    }
    assert_eq!(scope.get_relation(&s("t")).unwrap().type_, first);
}

#[test]
fn outer_name_may_be_shadowed() {
    let mut cells: Cells<MType> = Cells::new();
    let mut outer = SQLScope::empty();
    let a = CRef::new_known(&mut cells, int64());
    outer.add_reference(&s("t"), &here(), a).unwrap();
    let mut inner = SQLScope::new(Some(Rc::new(outer)));
    let b = CRef::new_known(&mut cells, text());
    assert!(inner.add_reference(&s("t"), &here(), b).is_ok());
    assert_eq!(inner.get_relation(&s("t")).unwrap().type_, b);
    assert!(inner.get_relation(&s("missing")).is_none());
}

#[test]
fn correlated_names_left_unbound() {
    let mut cells: Cells<MType> = Cells::new();
    let mut scope = SQLScope::empty();
    let outer = CRef::new_known(&mut cells, record(&[("x", int64())]));
    let y_rel = CRef::new_known(&mut cells, int64());
    scope.add_reference(&s("outer"), &here(), outer).unwrap();
    scope.add_reference(&s("y_rel"), &here(), y_rel).unwrap();
    let names = SQLNames { unbound: vec![vec![s("outer"), s("x")], vec![s("y")]] };
    let left = scope.remove_bound_references(&cells, &names).unwrap().unwrap();
    assert_eq!(left.unbound, vec![vec![s("y")]]);
}

#[test]
fn bound_names_of_every_form_are_removed() {
    let mut cells: Cells<MType> = Cells::new();
    let mut scope = SQLScope::empty();
    let t = CRef::new_known(&mut cells, record(&[("a", int64()), ("b", int64())]));
    let u = CRef::new_known(&mut cells, record(&[("b", int64())]));
    let v = CRef::new_known(&mut cells, int64());
    scope.add_reference(&s("t"), &here(), t).unwrap();
    scope.add_reference(&s("u"), &here(), u).unwrap();
    scope.add_reference(&s("v"), &here(), v).unwrap();
    let names = SQLNames {
        unbound: vec![
            vec![s("t")],
            vec![s("v")],
            vec![s("a")],
            vec![s("b")],
            vec![s("u"), s("b")],
            vec![s("u"), s("a")],
            vec![s("z")],
            vec![s("t"), s("a"), s("b")],
        ],
    };
    let left = scope.remove_bound_references(&cells, &names).unwrap().unwrap();
    assert_eq!(
        left.unbound,
        vec![vec![s("b")], vec![s("u"), s("a")], vec![s("z")], vec![s("t"), s("a"), s("b")]]
    );
}

#[test]
fn unresolved_relation_types_wait_or_fail() {
    let mut cells: Cells<MType> = Cells::new();
    let mut scope = SQLScope::empty();
    let pending = CRef::new_unknown(&mut cells, "t");
    scope.add_reference(&s("t"), &here(), pending).unwrap();
    assert!(scope.get_available_references(&cells, None).unwrap().is_none());
    let names = SQLNames { unbound: vec![vec![s("t")]] };
    assert!(scope.remove_bound_references(&cells, &names).unwrap().is_none());

    let mut bad = SQLScope::new(Some(Rc::new(scope)));
    let poisoned = CRef::new_error(&mut cells, CompileError::no_such_entry(vec![Ident::without_location(s("q"))]));
    bad.add_reference(&s("q"), &here(), poisoned).unwrap();
    assert!(matches!(
        bad.get_available_references(&cells, None),
        Err(CompileError::NoSuchEntry { .. })
    ));
    assert!(matches!(
        bad.remove_bound_references(&cells, &names),
        Err(CompileError::NoSuchEntry { .. })
    ));
    assert!(bad.get_available_references(&cells, Some(&s("t"))).unwrap().is_none());
    let k = CRef::new_known(&mut cells, int64());
    pending.unify(&k, &mut cells).unwrap();
    let refs = bad.get_available_references(&cells, Some(&s("t"))).unwrap().unwrap();
    assert!(refs.current_level().unwrap().is_empty());
}

#[test]
fn scalar_relation_exposes_its_own_name() {
    let mut cells: Cells<MType> = Cells::new();
    let mut scope = SQLScope::empty();
    let n = CRef::new_known(&mut cells, int64());
    scope.add_reference(&s("n"), &here(), n).unwrap();
    let refs = scope.get_available_references(&cells, None).unwrap().unwrap();
    let m = refs.get(&s("n")).unwrap();
    assert_eq!(m.relation, "n");
    assert_eq!(m.field, "n");
    assert_eq!(m.type_, Some(int64()));
    assert!(refs.get(&s("x")).is_none());
}

#[test]
fn variable_types_of_parameters() {
    let params = vec![
        SQLParam { name: vec![s("a")], type_: int64(), value: ParamValue::Number { bits: 0 } },
        SQLParam { name: vec![s("s"), s("b")], type_: text(), value: ParamValue::String(s("v")) },
        SQLParam { name: vec![s("c")], type_: MType::Atom(AtomicType::Float64), value: ParamValue::Null },
        SQLParam { name: vec![s("d")], type_: MType::Atom(AtomicType::Boolean), value: ParamValue::Bool(true) },
        SQLParam { name: vec![s("a")], type_: text(), value: ParamValue::Null },
    ];
    let p = SchemaProvider::new(params);
    assert_eq!(p.get_variable_type(&vec![s("a")]), Some(DataType::Int64));
    assert_eq!(p.get_variable_type(&vec![s("s"), s("b")]), Some(DataType::Utf8));
    assert_eq!(p.get_variable_type(&vec![s("c")]), None);
    assert_eq!(p.get_variable_type(&vec![s("d")]), Some(DataType::Boolean));
    assert_eq!(p.get_variable_type(&vec![s("b")]), None);
}

#[test]
fn path_locations_span_their_names() {
    let l1 = Location { line: 1, column: 2 };
    let l2 = Location { line: 3, column: 4 };
    let a = Ident::with_location(SourceLocation::Range(s("f"), l1, l1), s("a"));
    let b = Ident::with_location(SourceLocation::Range(s("f"), l2, l2), s("b"));
    match path_location(&vec![a, b]) {
        SourceLocation::Range(f, x, y) => {
            assert_eq!(f, "f");
            assert_eq!(x, l1);
            assert_eq!(y, l2);
        }
        _ => panic!("expected a range"),
    }
    let c = Ident::with_location(SourceLocation::Single(s("f"), l1), s("c"));
    assert!(matches!(path_location(&vec![c]), SourceLocation::File(f) if f == "f"));
    let d = Ident::with_location(SourceLocation::File(s("g")), s("d"));
    let e = Ident::with_location(SourceLocation::File(s("h")), s("e"));
    assert!(matches!(path_location(&vec![d, e]), SourceLocation::Unknown));
    assert!(matches!(path_location(&vec![]), SourceLocation::Unknown));
    let u = Ident::without_location(s("u"));
    assert!(matches!(u.loc, SourceLocation::Unknown));
    assert_eq!(here().file(), Some(s("q.sql")));
    assert_eq!(SourceLocation::Unknown.file(), None);
}

#[test]
fn parameter_values_by_name() {
    let params = vec![
        SQLParam { name: vec![s("a")], type_: int64(), value: ParamValue::Number { bits: 42 } },
        SQLParam { name: vec![s("a")], type_: text(), value: ParamValue::Null },
        SQLParam { name: vec![s("b")], type_: text(), value: ParamValue::String(s("v")) },
    ];
    let p = SchemaProvider::new(params);
    assert!(matches!(p.get_value(&vec![s("a")]), Some(ParamValue::Number { bits: 42 })));
    assert!(matches!(p.get_value(&vec![s("b")]), Some(ParamValue::String(v)) if v == "v"));
    assert!(p.get_value(&vec![s("c")]).is_none());
}
