use ontology::model::{
    clone_expr, eq_expr, And, Checkable, Class, ClassExpression, ForeignReferenceError, Not,
    Ontology, IRI, Or,
};

#[test]
fn it_works() {
}

#[test]
fn intern_idempotent() {
    let mut o = Ontology::new();
    let id1 = o.iri(String::from("Animal"));
    let id2 = o.iri(String::from("Animal"));
    assert_eq!(id1, id2);
    assert_eq!(o.iri_to_str(id1), Some(&String::from("Animal")));
}

#[test]
fn intern_distinct_names() {
    let mut o = Ontology::new();
    let a = o.iri(String::from("a"));
    let b = o.iri(String::from("b"));
    assert_ne!(a, b);
    assert!(o.contains_iri(String::from("a")));
    assert!(o.contains_iri(String::from("b")));
    assert!(!o.contains_iri(String::from("c")));
}

#[test]
fn membership_matches_resolution() {
    let mut o = Ontology::new();
    let a = o.iri(String::from("a"));
    assert!(o.contains_id(a.0));
    assert!(o.iri_to_str(a).is_some());
    let unknown = IRI(99);
    assert!(!o.contains_id(unknown.0));
    assert!(o.iri_to_str(unknown).is_none());
}

#[test]
fn class_dedup() {
    let mut o = Ontology::new();
    let i = o.iri(String::from("Animal"));
    let c1 = o.class(i).unwrap();
    let c2 = o.class(i).unwrap();
    assert_eq!(c1, c2);
    assert_eq!(o.class.len(), 1);
}

#[test]
fn object_property_dedup() {
    let mut o = Ontology::new();
    let i = o.iri(String::from("part_of"));
    let p1 = o.object_property(i).unwrap();
    let p2 = o.object_property(i).unwrap();
    assert_eq!(p1, p2);
    assert_eq!(o.object_property.len(), 1);
}

#[test]
fn cross_instance_rejected() {
    let mut o1 = Ontology::new();
    let mut o2 = Ontology::new();
    o1.iri(String::from("x"));
    o1.iri(String::from("y"));
    let foreign = o1.iri(String::from("z"));
    o2.iri(String::from("x"));
    let r = o2.class(foreign);
    assert_eq!(r, Err(ForeignReferenceError));
    assert_eq!(o2.class.len(), 0);
    let r2 = o2.object_property(foreign);
    assert_eq!(r2, Err(ForeignReferenceError));
    assert_eq!(o2.object_property.len(), 0);
}

#[test]
fn recursive_validation() {
    let mut o1 = Ontology::new();
    let p = o1.iri(String::from("part_of"));
    let op = o1.object_property(p).unwrap();
    let mut o2 = Ontology::new();
    o2.iri(String::from("a"));
    o2.iri(String::from("b"));
    let foreign = o2.iri(String::from("c"));
    let foreign_class = o2.class(foreign).unwrap();
    let filler = ClassExpression::Class(foreign_class);
    let r = o1.some_exp(op, filler);
    assert!(r.is_err());
    assert_eq!(o1.some.len(), 0);
}

#[test]
fn some_builds_and_dedups() {
    let mut o = Ontology::new();
    let p = o.iri(String::from("part_of"));
    let a = o.iri(String::from("Animal"));
    let op = o.object_property(p).unwrap();
    let c = o.class(a).unwrap();
    let e1 = o.some(op, c).unwrap();
    let e2 = o.some(op, c).unwrap();
    assert!(eq_expr(&e1, &e2));
    assert_eq!(o.some.len(), 1);
    match e1 {
        ClassExpression::SomeValuesFrom(s) => {
            assert_eq!(s.object_property, op);
            assert!(eq_expr(&s.filler, &ClassExpression::Class(c)));
        },
        _ => panic!("expected an existential restriction"),
    }
}

#[test]
fn direct_subclass_query() {
    let mut o = Ontology::new();
    let a = o.iri(String::from("A"));
    let b = o.iri(String::from("B"));
    let c = o.iri(String::from("C"));
    let ca = o.class(a).unwrap();
    let cb = o.class(b).unwrap();
    let cc = o.class(c).unwrap();
    o.subclass(ca, cb).unwrap();
    o.subclass(ca, cc).unwrap();
    let subs = o.direct_subclass(ca);
    assert_eq!(subs.len(), 2);
    let eb = ClassExpression::Class(cb);
    let ec = ClassExpression::Class(cc);
    assert!(subs.iter().any(|e| eq_expr(e, &eb)));
    assert!(subs.iter().any(|e| eq_expr(e, &ec)));
    assert_eq!(o.direct_subclass(cb).len(), 0);
}

#[test]
fn no_transitive_inference() {
    let mut o = Ontology::new();
    let a = o.iri(String::from("A"));
    let b = o.iri(String::from("B"));
    let c = o.iri(String::from("C"));
    let ca = o.class(a).unwrap();
    let cb = o.class(b).unwrap();
    let cc = o.class(c).unwrap();
    o.subclass(ca, cb).unwrap();
    o.subclass(cb, cc).unwrap();
    assert!(o.is_subclass(ca, cb));
    assert!(o.is_subclass(cb, cc));
    assert!(!o.is_subclass(ca, cc));
    assert!(!o.is_subclass(cb, ca));
}

#[test]
fn subclass_dedup() {
    let mut o = Ontology::new();
    let a = o.iri(String::from("A"));
    let b = o.iri(String::from("B"));
    let ca = o.class(a).unwrap();
    let cb = o.class(b).unwrap();
    o.subclass(ca, cb).unwrap();
    o.subclass(ca, cb).unwrap();
    assert_eq!(o.subclass.len(), 1);
}

#[test]
fn compound_subclass_dedup() {
    let mut o = Ontology::new();
    let a = o.iri(String::from("A"));
    let b = o.iri(String::from("B"));
    let ca = o.class(a).unwrap();
    let cb = o.class(b).unwrap();
    let both1 = ClassExpression::And(And {
        operands: vec![ClassExpression::Class(ca), ClassExpression::Class(cb)],
    });
    let both2 = ClassExpression::And(And {
        operands: vec![ClassExpression::Class(ca), ClassExpression::Class(cb)],
    });
    o.subclass_exp(ClassExpression::Class(ca), both1).unwrap();
    o.subclass_exp(ClassExpression::Class(ca), both2).unwrap();
    assert_eq!(o.subclass.len(), 1);
}

#[test]
fn conjunction_and_disjunction_differ() {
    let mut o = Ontology::new();
    let a = o.iri(String::from("A"));
    let ca = o.class(a).unwrap();
    let conj = ClassExpression::And(And { operands: vec![ClassExpression::Class(ca)] });
    let disj = ClassExpression::Or(Or { operands: vec![ClassExpression::Class(ca)] });
    let conj_again = ClassExpression::And(And { operands: vec![ClassExpression::Class(ca)] });
    assert!(!eq_expr(&conj, &disj));
    assert!(eq_expr(&conj, &conj_again));
}

#[test]
fn empty_junctions_are_valid() {
    let mut o = Ontology::new();
    let empty_and = ClassExpression::And(And { operands: Vec::new() });
    let empty_or = ClassExpression::Or(Or { operands: Vec::new() });
    let r = o.subclass_exp(empty_and, empty_or);
    assert!(r.is_ok());
    assert_eq!(o.subclass.len(), 1);
}

#[test]
fn checkable_reports_foreign_references() {
    let mut o = Ontology::new();
    let a = o.iri(String::from("A"));
    assert!(a.check(&o).is_ok());
    assert!(IRI(42).check(&o).is_err());
    let c = o.class(a).unwrap();
    assert!(c.check(&o).is_ok());
    let negated = Not { operand: ClassExpression::Class(c) };
    assert!(negated.check(&o).is_ok());
    let foreign_not = Not { operand: ClassExpression::Class(Class(IRI(42))) };
    assert!(foreign_not.check(&o).is_err());
}

#[test]
fn clone_expr_copies_structure() {
    let mut o = Ontology::new();
    let a = o.iri(String::from("A"));
    let p = o.iri(String::from("p"));
    let ca = o.class(a).unwrap();
    let op = o.object_property(p).unwrap();
    let nested = o.some(op, ca).unwrap();
    let compound = ClassExpression::And(And {
        operands: vec![ClassExpression::Class(ca), nested],
    });
    let copy = clone_expr(&compound);
    assert!(eq_expr(&compound, &copy));
}

#[test]
fn end_to_end() {
    let mut o = Ontology::new();
    let id1 = o.iri(String::from("Animal"));
    let id2 = o.iri(String::from("Dog"));
    let ca = o.class(id1).unwrap();
    let cb = o.class(id2).unwrap();
    o.subclass(ca, cb).unwrap();
    assert!(o.is_subclass(ca, cb));
    let subs = o.direct_subclass(ca);
    assert_eq!(subs.len(), 1);
    assert!(eq_expr(&subs[0], &ClassExpression::Class(cb)));
}
