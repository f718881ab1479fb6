//! The entity, expression and axiom types, and the [`Ontology`] store that
//! constructs, validates, deduplicates and queries them.

use vstd::prelude::*;

use crate::interner::{
    table_contains_id, table_contains_name, table_contents, table_id_of_name, table_insert,
    table_name_of_id, table_new,
};

verus! {

broadcast use vstd::std_specs::vec::group_vec_axioms, vstd::seq::group_seq_axioms;

/// A resource identifier: an opaque handle, meaningful only relative to the
/// ontology instance that issued it.
#[derive(PartialEq, Eq, Structural, Hash, Copy, Clone, Debug)]
pub struct IRI(pub usize);

/// A named class: an atomic concept.
#[derive(PartialEq, Eq, Structural, Hash, Copy, Clone, Debug)]
pub struct Class(pub IRI);

/// A named object property: a binary relation between individuals.
#[derive(PartialEq, Eq, Structural, Hash, Copy, Clone, Debug)]
pub struct ObjectProperty(pub IRI);

/// The single error of this library: a constructed entity, expression or
/// axiom referenced an identifier that is not bound in the target ontology
/// instance.
#[derive(PartialEq, Eq, Structural, Copy, Clone, Debug)]
pub struct ForeignReferenceError;

/// An asserted subsumption between two class expressions.
#[derive(Debug)]
pub struct SubClass {
    pub superclass: ClassExpression,
    pub subclass: ClassExpression,
}

/// An existential restriction: individuals related via `object_property` to
/// something satisfying `filler`.
#[derive(Debug)]
pub struct SomeValuesFrom {
    pub object_property: ObjectProperty,
    pub filler: Box<ClassExpression>,
}

/// A conjunction of class expressions.
#[derive(Debug)]
pub struct And {
    pub operands: Vec<ClassExpression>,
}

/// A disjunction of class expressions.
#[derive(Debug)]
pub struct Or {
    pub operands: Vec<ClassExpression>,
}

/// A negated class expression.
#[derive(Debug)]
pub struct Not {
    pub operand: ClassExpression,
}

/// An atomic or compound concept description.
#[derive(Debug)]
pub enum ClassExpression {
    Class(Class),
    SomeValuesFrom(SomeValuesFrom),
    And(And),
    Or(Or),
}

/// The mathematical shape of a class expression: variants carry only the
/// interned identifiers and the shapes of their sub-expressions.
#[verifier::ext_equal]
pub enum ExprV {
    Class(usize),
    SomeValuesFrom(usize, Box<ExprV>),
    And(Seq<ExprV>),
    Or(Seq<ExprV>),
}

/// The shape of a class expression.
pub open spec fn expr_view(e: ClassExpression) -> ExprV
    decreases e,
{
    match e {
        ClassExpression::Class(c) => ExprV::Class(c.0.0),
        ClassExpression::SomeValuesFrom(s) => ExprV::SomeValuesFrom(
            s.object_property.0.0,
            Box::new(expr_view(*s.filler)),
        ),
        ClassExpression::And(a) => {
            proof {
                assert(decreases_to!(a => a.operands));
                assert(decreases_to!(a.operands => a.operands@));
            }
            ExprV::And(exprs_view(a.operands@))
        },
        ClassExpression::Or(o) => {
            proof {
                assert(decreases_to!(o => o.operands));
                assert(decreases_to!(o.operands => o.operands@));
            }
            ExprV::Or(exprs_view(o.operands@))
        },
    }
}

impl View for ClassExpression {
    type V = ExprV;

    open spec fn view(&self) -> ExprV {
        expr_view(*self)
    }
}

/// The shapes of a sequence of class expressions, element by element.
pub open spec fn exprs_view(s: Seq<ClassExpression>) -> Seq<ExprV>
    decreases s,
{
    if s.len() == 0 {
        Seq::empty()
    } else {
        exprs_view(s.drop_last()).push(expr_view(s.last()))
    }
}

/// `exprs_view` maps `expr_view` over the sequence, element by element.
pub proof fn lemma_exprs_view(s: Seq<ClassExpression>)
    ensures
        exprs_view(s).len() == s.len(),
        forall|i: int| 0 <= i < s.len() ==> exprs_view(s)[i] == expr_view(s[i]),
    decreases s,
{
    if s.len() > 0 {
        lemma_exprs_view(s.drop_last());
    }
}

/// `exprs_view` distributes over `push`.
pub proof fn lemma_exprs_view_push(s: Seq<ClassExpression>, e: ClassExpression)
    ensures
        exprs_view(s.push(e)) == exprs_view(s).push(expr_view(e)),
{
    assert(s.push(e).drop_last() =~= s);
    assert(s.push(e).last() == e);
    assert(exprs_view(s.push(e)) == exprs_view(s.push(e).drop_last()).push(
        expr_view(s.push(e).last()),
    ));
}

/// An expression is valid for a set of identifiers when every identifier it
/// reaches, depth first, is a member of that set.
pub open spec fn expr_valid(e: ExprV, ids: Set<usize>) -> bool
    decreases e,
{
    match e {
        ExprV::Class(i) => ids.contains(i),
        ExprV::SomeValuesFrom(p, f) => ids.contains(p) && expr_valid(*f, ids),
        ExprV::And(ops) => all_valid(ops, ids),
        ExprV::Or(ops) => all_valid(ops, ids),
    }
}

/// Every expression of the sequence is valid for the set of identifiers.
pub open spec fn all_valid(ops: Seq<ExprV>, ids: Set<usize>) -> bool
    decreases ops,
{
    if ops.len() == 0 {
        true
    } else {
        all_valid(ops.drop_last(), ids) && expr_valid(ops.last(), ids)
    }
}

/// `all_valid` holds exactly when every element is valid.
pub proof fn lemma_all_valid(ops: Seq<ExprV>, ids: Set<usize>)
    ensures
        all_valid(ops, ids) == (forall|k: int|
            0 <= k < ops.len() ==> expr_valid(#[trigger] ops[k], ids)),
    decreases ops.len(),
{
    if ops.len() > 0 {
        lemma_all_valid(ops.drop_last(), ids);
        if all_valid(ops, ids) {
            assert forall|k: int| 0 <= k < ops.len() implies expr_valid(
                #[trigger] ops[k],
                ids,
            ) by {
                if k < ops.len() - 1 {
                    assert(ops.drop_last()[k] == ops[k]);
                } else {
                    assert(ops[k] == ops.last());
                }
            }
        } else {
            if all_valid(ops.drop_last(), ids) {
                assert(ops[ops.len() - 1] == ops.last());
                assert(!expr_valid(ops[ops.len() - 1], ids));
            } else {
                let k0 = choose|k: int|
                    0 <= k < ops.drop_last().len() && !expr_valid(
                        #[trigger] ops.drop_last()[k],
                        ids,
                    );
                assert(ops[k0] == ops.drop_last()[k0]);
                assert(!expr_valid(ops[k0], ids));
            }
        }
    }
}

/// A valid expression stays valid for any larger set of identifiers.
pub proof fn lemma_expr_valid_mono(e: ExprV, a: Set<usize>, b: Set<usize>)
    requires
        expr_valid(e, a),
        a.subset_of(b),
    ensures
        expr_valid(e, b),
    decreases e,
{
    match e {
        ExprV::Class(i) => {},
        ExprV::SomeValuesFrom(p, f) => {
            lemma_expr_valid_mono(*f, a, b);
        },
        ExprV::And(ops) => {
            lemma_all_valid_mono(ops, a, b);
        },
        ExprV::Or(ops) => {
            lemma_all_valid_mono(ops, a, b);
        },
    }
}

/// Every expression of a valid sequence stays valid for any larger set.
pub proof fn lemma_all_valid_mono(ops: Seq<ExprV>, a: Set<usize>, b: Set<usize>)
    requires
        all_valid(ops, a),
        a.subset_of(b),
    ensures
        all_valid(ops, b),
    decreases ops,
{
    if ops.len() > 0 {
        lemma_all_valid_mono(ops.drop_last(), a, b);
        lemma_expr_valid_mono(ops.last(), a, b);
    }
}

/// Structural equality of two class expressions: true exactly when their
/// shapes agree.
pub fn eq_expr(a: &ClassExpression, b: &ClassExpression) -> (r: bool)
    ensures
        r == (a@ == b@),
    decreases *a,
{
    match (a, b) {
        (ClassExpression::Class(x), ClassExpression::Class(y)) => x.0.0 == y.0.0,
        (ClassExpression::SomeValuesFrom(x), ClassExpression::SomeValuesFrom(y)) => {
            x.object_property.0.0 == y.object_property.0.0 && eq_expr(&x.filler, &y.filler)
        },
        (ClassExpression::And(x), ClassExpression::And(y)) => {
            eq_expr_vec(&x.operands, &y.operands)
        },
        (ClassExpression::Or(x), ClassExpression::Or(y)) => {
            eq_expr_vec(&x.operands, &y.operands)
        },
        _ => false,
    }
}

/// Structural equality of two operand vectors, element by element.
fn eq_expr_vec(a: &Vec<ClassExpression>, b: &Vec<ClassExpression>) -> (r: bool)
    ensures
        r == (exprs_view(a@) == exprs_view(b@)),
    decreases *a,
{
    proof {
        lemma_exprs_view(a@);
        lemma_exprs_view(b@);
    }
    if a.len() != b.len() {
        return false;
    }
    let mut i: usize = 0;
    while i < a.len()
        invariant
            a@.len() == b@.len(),
            i <= a@.len(),
            exprs_view(a@).len() == a@.len(),
            exprs_view(b@).len() == b@.len(),
            forall|j: int| 0 <= j < i ==> exprs_view(a@)[j] == exprs_view(b@)[j],
            forall|j: int| 0 <= j < a@.len() ==> exprs_view(a@)[j] == expr_view(a@[j]),
            forall|j: int| 0 <= j < b@.len() ==> exprs_view(b@)[j] == expr_view(b@[j]),
        decreases a@.len() - i,
    {
        if !eq_expr(&a[i], &b[i]) {
            assert(exprs_view(a@)[i as int] != exprs_view(b@)[i as int]);
            return false;
        }
        i += 1;
    }
    proof {
        assert(exprs_view(a@) =~= exprs_view(b@));
    }
    true
}

/// A structurally equal copy of a class expression.
pub fn clone_expr(e: &ClassExpression) -> (r: ClassExpression)
    ensures
        r@ == e@,
    decreases *e,
{
    match e {
        ClassExpression::Class(c) => ClassExpression::Class(*c),
        ClassExpression::SomeValuesFrom(s) => ClassExpression::SomeValuesFrom(
            SomeValuesFrom {
                object_property: s.object_property,
                filler: Box::new(clone_expr(&s.filler)),
            },
        ),
        ClassExpression::And(x) => ClassExpression::And(
            And { operands: clone_expr_vec(&x.operands) },
        ),
        ClassExpression::Or(x) => ClassExpression::Or(Or { operands: clone_expr_vec(&x.operands) }),
    }
}

/// A structurally equal copy of an operand vector.
fn clone_expr_vec(v: &Vec<ClassExpression>) -> (r: Vec<ClassExpression>)
    ensures
        exprs_view(r@) == exprs_view(v@),
    decreases *v,
{
    proof {
        lemma_exprs_view(v@);
    }
    let mut out: Vec<ClassExpression> = Vec::new();
    let mut i: usize = 0;
    while i < v.len()
        invariant
            i <= v@.len(),
            out@.len() == i,
            forall|j: int| 0 <= j < i ==> exprs_view(out@)[j] == exprs_view(v@)[j],
            exprs_view(out@).len() == i,
            forall|j: int| 0 <= j < v@.len() ==> exprs_view(v@)[j] == expr_view(v@[j]),
        decreases v@.len() - i,
    {
        let c = clone_expr(&v[i]);
        proof {
            lemma_exprs_view_push(out@, c);
        }
        out.push(c);
        i += 1;
    }
    proof {
        assert(exprs_view(out@) =~= exprs_view(v@));
    }
    out
}

/// The shape of a subclass axiom.
#[verifier::ext_equal]
pub struct SubClassV {
    pub superclass: ExprV,
    pub subclass: ExprV,
}

impl View for SubClass {
    type V = SubClassV;

    open spec fn view(&self) -> SubClassV {
        SubClassV { superclass: expr_view(self.superclass), subclass: expr_view(self.subclass) }
    }
}

/// A subclass axiom is valid when both of its expressions are.
pub open spec fn subclass_valid(sc: SubClassV, ids: Set<usize>) -> bool {
    expr_valid(sc.superclass, ids) && expr_valid(sc.subclass, ids)
}

/// An optional ontology-level identifier and version identifier.
#[derive(Debug)]
pub struct OntologyID {
    pub iri: Option<IRI>,
    pub viri: Option<IRI>,
}

/// The root container: the interning table, the optional ontology identifier,
/// and five deduplicated collections of entities, expressions and axioms.
///
/// Identifier spaces are independent per instance: every instance allocates
/// identifiers from its own counter, so a value issued by one instance is
/// never valid for another, even where the numeric values coincide.
#[derive(Debug)]
pub struct Ontology {
    id_str: crate::interner::Table,
    next: usize,
    pub id: OntologyID,
    pub class: Vec<Class>,
    pub subclass: Vec<SubClass>,
    pub object_property: Vec<ObjectProperty>,
    pub some: Vec<ClassExpression>,
    pub and: Vec<And>,
}

/// The mathematical shape of an ontology instance.
#[verifier::ext_equal]
pub struct OntologyV {
    /// The interning table: identifier to name.
    pub ids: Map<usize, Seq<char>>,
    /// The next identifier this instance would issue.
    pub next: usize,
    /// The optional ontology-level identifiers.
    pub id: OntologyID,
    /// The identifiers of the defined classes, in insertion order.
    pub classes: Seq<usize>,
    /// The identifiers of the defined object properties, in insertion order.
    pub object_properties: Seq<usize>,
    /// The asserted subclass axioms, in insertion order.
    pub subclasses: Seq<SubClassV>,
    /// The stored existential restrictions, in insertion order.
    pub somes: Seq<ExprV>,
    /// The stored conjunction expressions, in insertion order.
    pub ands: Seq<Seq<ExprV>>,
}

impl View for Ontology {
    type V = OntologyV;

    closed spec fn view(&self) -> OntologyV {
        OntologyV {
            ids: table_contents(self.id_str),
            next: self.next,
            id: self.id,
            classes: self.class@.map_values(|c: Class| c.0.0),
            object_properties: self.object_property@.map_values(|p: ObjectProperty| p.0.0),
            subclasses: self.subclass@.map_values(|sc: SubClass| sc@),
            somes: exprs_view(self.some@),
            ands: self.and@.map_values(|a: And| exprs_view(a.operands@)),
        }
    }
}

/// The invariant of an ontology instance: the interning table is injective
/// (no name is bound to two identifiers), every identifier it holds is below
/// the allocation counter, and each collection holds only validated,
/// pairwise-distinct values.
pub open spec fn inv(v: OntologyV) -> bool {
    &&& forall|i: usize, j: usize|
        v.ids.contains_key(i) && v.ids.contains_key(j) && v.ids[i] == v.ids[j] ==> i == j
    &&& forall|i: usize| #[trigger] v.ids.contains_key(i) ==> i < v.next
    &&& forall|k: int| 0 <= k < v.classes.len() ==> v.ids.contains_key(#[trigger] v.classes[k])
    &&& forall|k: int, l: int|
        0 <= k < v.classes.len() && 0 <= l < v.classes.len() && v.classes[k] == v.classes[l]
            ==> k == l
    &&& forall|k: int|
        0 <= k < v.object_properties.len() ==> v.ids.contains_key(
            #[trigger] v.object_properties[k],
        )
    &&& forall|k: int, l: int|
        0 <= k < v.object_properties.len() && 0 <= l < v.object_properties.len()
            && v.object_properties[k] == v.object_properties[l] ==> k == l
    &&& forall|k: int|
        0 <= k < v.subclasses.len() ==> subclass_valid(#[trigger] v.subclasses[k], v.ids.dom())
    &&& forall|k: int, l: int|
        0 <= k < v.subclasses.len() && 0 <= l < v.subclasses.len() && v.subclasses[k]
            == v.subclasses[l] ==> k == l
    &&& forall|k: int|
        0 <= k < v.somes.len() ==> expr_valid(#[trigger] v.somes[k], v.ids.dom())
    &&& forall|k: int| 0 <= k < v.somes.len() ==> (#[trigger] v.somes[k]) is SomeValuesFrom
    &&& forall|k: int, l: int|
        0 <= k < v.somes.len() && 0 <= l < v.somes.len() && v.somes[k] == v.somes[l] ==> k == l
    &&& forall|k: int|
        0 <= k < v.ands.len() ==> expr_valid(ExprV::And(#[trigger] v.ands[k]), v.ids.dom())
    &&& forall|k: int, l: int|
        0 <= k < v.ands.len() && 0 <= l < v.ands.len() && v.ands[k] == v.ands[l] ==> k == l
}

/// What interning a name does: an already-bound name returns its existing
/// identifier and changes nothing; a fresh name is bound to the instance's
/// next identifier.
pub open spec fn intern_spec(o: OntologyV, name: Seq<char>, r: IRI, o2: OntologyV) -> bool {
    if o.ids.contains_value(name) {
        &&& o.ids.contains_pair(r.0, name)
        &&& o2 == o
    } else {
        &&& r.0 == o.next
        &&& !o.ids.contains_key(r.0)
        &&& o2 == (OntologyV { ids: o.ids.insert(r.0, name), next: (o.next + 1) as usize, ..o })
    }
}

impl Ontology {
    /// Whether this instance satisfies its invariant.
    pub open spec fn wf(&self) -> bool {
        inv(self@)
    }

    /// A fresh, empty ontology instance: nothing interned, nothing stored.
    pub fn new() -> (o: Ontology)
        ensures
            o.wf(),
            forall|i: usize| !o@.ids.contains_key(i),
            o@.next == 0,
            o@.id.iri is None && o@.id.viri is None,
            o@.classes.len() == 0,
            o@.object_properties.len() == 0,
            o@.subclasses.len() == 0,
            o@.somes.len() == 0,
            o@.ands.len() == 0,
    {
        let o = Ontology {
            id_str: table_new(),
            next: 0,
            id: OntologyID { iri: None, viri: None },
            class: Vec::new(),
            subclass: Vec::new(),
            object_property: Vec::new(),
            some: Vec::new(),
            and: Vec::new(),
        };
        proof {
            assert(o@.classes =~= Seq::<usize>::empty());
            assert(o@.object_properties =~= Seq::<usize>::empty());
            assert(o@.subclasses =~= Seq::<SubClassV>::empty());
            assert(o@.ands =~= Seq::<Seq<ExprV>>::empty());
        }
        o
    }

    /// Whether this instance has interned the given identifier value.
    pub fn contains_id(&self, id: usize) -> (r: bool)
        ensures
            r == self@.ids.contains_key(id),
    {
        table_contains_id(&self.id_str, id)
    }

    /// Whether this instance has interned the given name.
    pub fn contains_iri(&self, iri: String) -> (r: bool)
        ensures
            r == self@.ids.contains_value(iri@),
    {
        table_contains_name(&self.id_str, &iri)
    }

    /// The identifier for a name: the existing one if the name was interned
    /// before, a fresh one otherwise.
    pub fn iri(&mut self, s: String) -> (r: IRI)
        requires
            old(self).wf(),
            old(self)@.next < usize::MAX,
        ensures
            final(self).wf(),
            intern_spec(old(self)@, s@, r, final(self)@),
    {
        let someid = table_id_of_name(&self.id_str, &s);
        if let Some(id) = someid {
            return IRI(id);
        }
        let id = self.next;
        self.next = self.next + 1;
        proof {
            assert(!old(self)@.ids.contains_key(id));
        }
        table_insert(&mut self.id_str, id, s);
        proof {
            let o = old(self)@;
            let o2 = self@;
            assert(o2 =~= (OntologyV {
                ids: o.ids.insert(id, o2.ids[id]),
                next: (o.next + 1) as usize,
                ..o
            }));
            let d0 = o.ids.dom();
            let d1 = o2.ids.dom();
            assert(d0.subset_of(d1));
            assert forall|k: int|
                0 <= k < o2.subclasses.len() implies subclass_valid(
                #[trigger] o2.subclasses[k],
                d1,
            ) by {
                lemma_expr_valid_mono(o2.subclasses[k].superclass, d0, d1);
                lemma_expr_valid_mono(o2.subclasses[k].subclass, d0, d1);
            }
            assert forall|k: int| 0 <= k < o2.somes.len() implies expr_valid(
                #[trigger] o2.somes[k],
                d1,
            ) by {
                lemma_expr_valid_mono(o2.somes[k], d0, d1);
            }
            assert forall|k: int| 0 <= k < o2.ands.len() implies expr_valid(
                ExprV::And(#[trigger] o2.ands[k]),
                d1,
            ) by {
                lemma_expr_valid_mono(ExprV::And(o2.ands[k]), d0, d1);
            }
        }
        IRI(id)
    }

    /// The name bound to an identifier, or `None` when this instance does not
    /// know it.
    pub fn iri_to_str(&self, i: IRI) -> (r: Option<&String>)
        ensures
            match r {
                Some(s) => self@.ids.contains_pair(i.0, s@),
                None => !self@.ids.contains_key(i.0),
            },
    {
        table_name_of_id(&self.id_str, i.0)
    }
}

/// Whether every identifier the expression reaches, depth first, is interned
/// in the given ontology instance.
pub fn check_expr(e: &ClassExpression, o: &Ontology) -> (r: bool)
    ensures
        r == expr_valid(e@, o@.ids.dom()),
    decreases *e,
{
    match e {
        ClassExpression::Class(c) => o.contains_id(c.0.0),
        ClassExpression::SomeValuesFrom(s) => {
            o.contains_id(s.object_property.0.0) && check_expr(&s.filler, o)
        },
        ClassExpression::And(x) => check_expr_vec(&x.operands, o),
        ClassExpression::Or(x) => check_expr_vec(&x.operands, o),
    }
}

/// Whether every expression of an operand vector is valid for the instance.
fn check_expr_vec(v: &Vec<ClassExpression>, o: &Ontology) -> (r: bool)
    ensures
        r == all_valid(exprs_view(v@), o@.ids.dom()),
    decreases *v,
{
    proof {
        lemma_exprs_view(v@);
        lemma_all_valid(exprs_view(v@), o@.ids.dom());
    }
    let ghost ops = exprs_view(v@);
    let ghost d = o@.ids.dom();
    let mut i: usize = 0;
    while i < v.len()
        invariant
            i <= v@.len(),
            ops == exprs_view(v@),
            d == o@.ids.dom(),
            ops.len() == v@.len(),
            forall|j: int| 0 <= j < v@.len() ==> ops[j] == expr_view(v@[j]),
            forall|j: int| 0 <= j < i ==> expr_valid(#[trigger] ops[j], d),
        decreases v@.len() - i,
    {
        if !check_expr(&v[i], o) {
            proof {
                lemma_all_valid(ops, d);
                assert(0 <= i < ops.len() && !expr_valid(ops[i as int], d));
            }
            return false;
        }
        i += 1;
    }
    true
}

/// A sequence extended with a value, unless an equal value is already there.
pub open spec fn push_unique<A>(s: Seq<A>, x: A) -> Seq<A> {
    if s.contains(x) {
        s
    } else {
        s.push(x)
    }
}

/// What defining a class does: with an identifier of this instance the class
/// is returned and stored once; with a foreign identifier the call fails and
/// nothing changes.
pub open spec fn define_class_spec(
    o: OntologyV,
    i: IRI,
    r: Result<Class, ForeignReferenceError>,
    o2: OntologyV,
) -> bool {
    if o.ids.contains_key(i.0) {
        &&& r == Ok::<Class, ForeignReferenceError>(Class(i))
        &&& o2 == (OntologyV { classes: push_unique(o.classes, i.0), ..o })
    } else {
        &&& r == Err::<Class, ForeignReferenceError>(ForeignReferenceError)
        &&& o2 == o
    }
}

/// What defining an object property does, in the same shape as
/// [`define_class_spec`].
pub open spec fn define_object_property_spec(
    o: OntologyV,
    i: IRI,
    r: Result<ObjectProperty, ForeignReferenceError>,
    o2: OntologyV,
) -> bool {
    if o.ids.contains_key(i.0) {
        &&& r == Ok::<ObjectProperty, ForeignReferenceError>(ObjectProperty(i))
        &&& o2 == (OntologyV { object_properties: push_unique(o.object_properties, i.0), ..o })
    } else {
        &&& r == Err::<ObjectProperty, ForeignReferenceError>(ForeignReferenceError)
        &&& o2 == o
    }
}

/// What asserting a subclass axiom does: with two expressions valid for this
/// instance the axiom is returned and stored once; otherwise the call fails
/// and nothing changes.
pub open spec fn assert_subclass_spec(
    o: OntologyV,
    sup: ExprV,
    sub: ExprV,
    r: Result<SubClass, ForeignReferenceError>,
    o2: OntologyV,
) -> bool {
    let scv = SubClassV { superclass: sup, subclass: sub };
    if expr_valid(sup, o.ids.dom()) && expr_valid(sub, o.ids.dom()) {
        &&& r matches Ok(sc) && sc@ == scv
        &&& o2 == (OntologyV { subclasses: push_unique(o.subclasses, scv), ..o })
    } else {
        &&& r is Err
        &&& o2 == o
    }
}

/// What building an existential restriction does: with a property of this
/// instance and a filler valid for it, the expression is returned and stored
/// once; otherwise the call fails and nothing changes.
pub open spec fn some_spec(
    o: OntologyV,
    p: usize,
    filler: ExprV,
    r: Result<ClassExpression, ForeignReferenceError>,
    o2: OntologyV,
) -> bool {
    let e = ExprV::SomeValuesFrom(p, Box::new(filler));
    if o.ids.contains_key(p) && expr_valid(filler, o.ids.dom()) {
        &&& r matches Ok(se) && se@ == e
        &&& o2 == (OntologyV { somes: push_unique(o.somes, e), ..o })
    } else {
        &&& r is Err
        &&& o2 == o
    }
}

impl Ontology {
    /// The class named by an identifier of this instance, stored once.
    pub fn class(&mut self, i: IRI) -> (r: Result<Class, ForeignReferenceError>)
        requires
            old(self).wf(),
        ensures
            final(self).wf(),
            define_class_spec(old(self)@, i, r, final(self)@),
    {
        if !self.contains_id(i.0) {
            return Err(ForeignReferenceError);
        }
        let mut k: usize = 0;
        while k < self.class.len()
            invariant
                *self == *old(self),
                old(self).wf(),
                self@.ids.contains_key(i.0),
                k <= self.class@.len(),
                forall|j: int| 0 <= j < k ==> self.class@[j].0.0 != i.0,
            decreases self.class@.len() - k,
        {
            if self.class[k].0.0 == i.0 {
                proof {
                    assert(self@.classes[k as int] == i.0);
                    assert(self@.classes.contains(i.0));
                    assert(self@ =~= (OntologyV {
                        classes: push_unique(old(self)@.classes, i.0),
                        ..old(self)@
                    }));
                }
                return Ok(Class(i));
            }
            k += 1;
        }
        proof {
            if self@.classes.contains(i.0) {
                let j = choose|j: int|
                    0 <= j < self@.classes.len() && self@.classes[j] == i.0;
                assert(self.class@[j].0.0 == i.0);
            }
        }
        self.class.push(Class(i));
        proof {
            assert(self@.classes =~= old(self)@.classes.push(i.0));
            assert(self@ =~= (OntologyV {
                classes: push_unique(old(self)@.classes, i.0),
                ..old(self)@
            }));
        }
        Ok(Class(i))
    }

    /// The object property named by an identifier of this instance, stored
    /// once.
    pub fn object_property(&mut self, i: IRI) -> (r: Result<
        ObjectProperty,
        ForeignReferenceError,
    >)
        requires
            old(self).wf(),
        ensures
            final(self).wf(),
            define_object_property_spec(old(self)@, i, r, final(self)@),
    {
        if !self.contains_id(i.0) {
            return Err(ForeignReferenceError);
        }
        let mut k: usize = 0;
        while k < self.object_property.len()
            invariant
                *self == *old(self),
                old(self).wf(),
                self@.ids.contains_key(i.0),
                k <= self.object_property@.len(),
                forall|j: int| 0 <= j < k ==> self.object_property@[j].0.0 != i.0,
            decreases self.object_property@.len() - k,
        {
            if self.object_property[k].0.0 == i.0 {
                proof {
                    assert(self@.object_properties[k as int] == i.0);
                    assert(self@.object_properties.contains(i.0));
                    assert(self@ =~= (OntologyV {
                        object_properties: push_unique(old(self)@.object_properties, i.0),
                        ..old(self)@
                    }));
                }
                return Ok(ObjectProperty(i));
            }
            k += 1;
        }
        proof {
            if self@.object_properties.contains(i.0) {
                let j = choose|j: int|
                    0 <= j < self@.object_properties.len() && self@.object_properties[j] == i.0;
                assert(self.object_property@[j].0.0 == i.0);
            }
        }
        self.object_property.push(ObjectProperty(i));
        proof {
            assert(self@.object_properties =~= old(self)@.object_properties.push(i.0));
            assert(self@ =~= (OntologyV {
                object_properties: push_unique(old(self)@.object_properties, i.0),
                ..old(self)@
            }));
        }
        Ok(ObjectProperty(i))
    }
}

/// The subclass expressions of the axioms whose superclass is `sup`, in
/// order of assertion.
pub open spec fn subs_of(axs: Seq<SubClassV>, sup: ExprV) -> Seq<ExprV>
    decreases axs.len(),
{
    if axs.len() == 0 {
        Seq::empty()
    } else {
        let rest = subs_of(axs.drop_last(), sup);
        if axs.last().superclass == sup {
            rest.push(axs.last().subclass)
        } else {
            rest
        }
    }
}

impl Ontology {
    /// Asserts that one atomic class subsumes another, storing the axiom
    /// once.
    pub fn subclass(&mut self, superclass: Class, subclass: Class) -> (r: Result<
        SubClass,
        ForeignReferenceError,
    >)
        requires
            old(self).wf(),
        ensures
            final(self).wf(),
            assert_subclass_spec(
                old(self)@,
                ExprV::Class(superclass.0.0),
                ExprV::Class(subclass.0.0),
                r,
                final(self)@,
            ),
    {
        self.subclass_exp(
            ClassExpression::Class(superclass),
            ClassExpression::Class(subclass),
        )
    }

    /// Asserts that one class expression subsumes another, storing the axiom
    /// once.
    pub fn subclass_exp(&mut self, superclass: ClassExpression, subclass: ClassExpression) -> (r:
        Result<SubClass, ForeignReferenceError>)
        requires
            old(self).wf(),
        ensures
            final(self).wf(),
            assert_subclass_spec(old(self)@, superclass@, subclass@, r, final(self)@),
    {
        let ghost scv = SubClassV { superclass: superclass@, subclass: subclass@ };
        if !check_expr(&superclass, self) {
            return Err(ForeignReferenceError);
        }
        if !check_expr(&subclass, self) {
            return Err(ForeignReferenceError);
        }
        let mut k: usize = 0;
        while k < self.subclass.len()
            invariant
                *self == *old(self),
                old(self).wf(),
                scv == (SubClassV { superclass: superclass@, subclass: subclass@ }),
                expr_valid(superclass@, self@.ids.dom()),
                expr_valid(subclass@, self@.ids.dom()),
                k <= self.subclass@.len(),
                forall|j: int| 0 <= j < k ==> self@.subclasses[j] != scv,
            decreases self.subclass@.len() - k,
        {
            let same_sup = eq_expr(&self.subclass[k].superclass, &superclass);
            let same_sub = eq_expr(&self.subclass[k].subclass, &subclass);
            if same_sup && same_sub {
                proof {
                    assert(self@.subclasses[k as int] == scv);
                    assert(self@.subclasses.contains(scv));
                    assert(self@ =~= (OntologyV {
                        subclasses: push_unique(old(self)@.subclasses, scv),
                        ..old(self)@
                    }));
                }
                return Ok(SubClass { superclass, subclass });
            }
            proof {
                assert(self@.subclasses[k as int] != scv);
            }
            k += 1;
        }
        proof {
            if self@.subclasses.contains(scv) {
                let j = choose|j: int|
                    0 <= j < self@.subclasses.len() && self@.subclasses[j] == scv;
                assert(self@.subclasses[j] != scv);
            }
        }
        let copy = SubClass {
            superclass: clone_expr(&superclass),
            subclass: clone_expr(&subclass),
        };
        self.subclass.push(copy);
        proof {
            assert(self@.subclasses =~= old(self)@.subclasses.push(scv));
            assert(self@ =~= (OntologyV {
                subclasses: push_unique(old(self)@.subclasses, scv),
                ..old(self)@
            }));
        }
        Ok(SubClass { superclass, subclass })
    }

    /// The existential restriction of a property over an atomic class,
    /// stored once.
    pub fn some(&mut self, object_property: ObjectProperty, class: Class) -> (r: Result<
        ClassExpression,
        ForeignReferenceError,
    >)
        requires
            old(self).wf(),
        ensures
            final(self).wf(),
            some_spec(
                old(self)@,
                object_property.0.0,
                ExprV::Class(class.0.0),
                r,
                final(self)@,
            ),
    {
        self.some_exp(object_property, ClassExpression::Class(class))
    }

    /// The existential restriction of a property over a filler expression,
    /// stored once.
    pub fn some_exp(&mut self, object_property: ObjectProperty, filler: ClassExpression) -> (r:
        Result<ClassExpression, ForeignReferenceError>)
        requires
            old(self).wf(),
        ensures
            final(self).wf(),
            some_spec(old(self)@, object_property.0.0, filler@, r, final(self)@),
    {
        let ghost ev = ExprV::SomeValuesFrom(object_property.0.0, Box::new(filler@));
        let valid_prop = self.contains_id(object_property.0.0);
        let valid_filler = check_expr(&filler, self);
        if !valid_prop || !valid_filler {
            return Err(ForeignReferenceError);
        }
        let e = ClassExpression::SomeValuesFrom(
            SomeValuesFrom { object_property, filler: Box::new(filler) },
        );
        proof {
            assert(e@ == ev);
            lemma_exprs_view(self.some@);
        }
        let mut k: usize = 0;
        while k < self.some.len()
            invariant
                *self == *old(self),
                old(self).wf(),
                e@ == ev,
                ev == ExprV::SomeValuesFrom(object_property.0.0, Box::new(filler@)),
                expr_valid(ev, self@.ids.dom()),
                k <= self.some@.len(),
                self@.somes.len() == self.some@.len(),
                forall|j: int|
                    0 <= j < self.some@.len() ==> self@.somes[j] == expr_view(self.some@[j]),
                forall|j: int| 0 <= j < k ==> self@.somes[j] != ev,
            decreases self.some@.len() - k,
        {
            if eq_expr(&self.some[k], &e) {
                proof {
                    assert(self@.somes[k as int] == ev);
                    assert(self@.somes.contains(ev));
                    assert(self@ =~= (OntologyV {
                        somes: push_unique(old(self)@.somes, ev),
                        ..old(self)@
                    }));
                }
                return Ok(e);
            }
            k += 1;
        }
        proof {
            if self@.somes.contains(ev) {
                let j = choose|j: int| 0 <= j < self@.somes.len() && self@.somes[j] == ev;
                assert(self@.somes[j] != ev);
            }
        }
        let copy = clone_expr(&e);
        proof {
            lemma_exprs_view_push(self.some@, copy);
        }
        self.some.push(copy);
        proof {
            assert(self@.somes =~= old(self)@.somes.push(ev));
            assert(self@ =~= (OntologyV {
                somes: push_unique(old(self)@.somes, ev),
                ..old(self)@
            }));
        }
        Ok(e)
    }

    /// The subclass expressions asserted directly under an atomic class.
    pub fn direct_subclass(&self, c: Class) -> (v: Vec<ClassExpression>)
        ensures
            exprs_view(v@) == subs_of(self@.subclasses, ExprV::Class(c.0.0)),
    {
        self.direct_subclass_exp(ClassExpression::Class(c))
    }

    /// The subclass expressions asserted directly under a class expression:
    /// every `subclass` of a stored axiom whose `superclass` equals `c`, in
    /// order of assertion.
    pub fn direct_subclass_exp(&self, c: ClassExpression) -> (v: Vec<ClassExpression>)
        ensures
            exprs_view(v@) == subs_of(self@.subclasses, c@),
    {
        let mut out: Vec<ClassExpression> = Vec::new();
        let mut k: usize = 0;
        proof {
            assert(self@.subclasses.take(0) =~= Seq::<SubClassV>::empty());
        }
        while k < self.subclass.len()
            invariant
                k <= self.subclass@.len(),
                self@.subclasses.len() == self.subclass@.len(),
                exprs_view(out@) == subs_of(self@.subclasses.take(k as int), c@),
            decreases self.subclass@.len() - k,
        {
            let ghost taken = self@.subclasses.take(k as int);
            let ghost taken1 = self@.subclasses.take(k as int + 1);
            proof {
                assert(taken1.drop_last() =~= taken);
                assert(taken1.last() == self@.subclasses[k as int]);
            }
            if eq_expr(&self.subclass[k].superclass, &c) {
                let sub = clone_expr(&self.subclass[k].subclass);
                proof {
                    lemma_exprs_view_push(out@, sub);
                    assert(subs_of(taken1, c@) == subs_of(taken, c@).push(
                        self@.subclasses[k as int].subclass,
                    ));
                }
                out.push(sub);
            } else {
                proof {
                    assert(subs_of(taken1, c@) == subs_of(taken, c@));
                }
            }
            k += 1;
        }
        proof {
            assert(self@.subclasses.take(self.subclass@.len() as int) =~= self@.subclasses);
        }
        out
    }

    /// Whether an atomic subclass axiom with exactly this pair was asserted.
    pub fn is_subclass(&self, superclass: Class, subclass: Class) -> (r: bool)
        ensures
            r == self@.subclasses.contains(
                (SubClassV {
                    superclass: ExprV::Class(superclass.0.0),
                    subclass: ExprV::Class(subclass.0.0),
                }),
            ),
    {
        self.is_subclass_exp(
            ClassExpression::Class(superclass),
            ClassExpression::Class(subclass),
        )
    }

    /// Whether a subclass axiom with exactly this pair of expressions was
    /// asserted.  No transitive reasoning is performed: only directly stored
    /// axioms answer.
    pub fn is_subclass_exp(&self, superclass: ClassExpression, subclass: ClassExpression) -> (r:
        bool)
        ensures
            r == self@.subclasses.contains(
                (SubClassV { superclass: superclass@, subclass: subclass@ }),
            ),
    {
        let ghost scv = SubClassV { superclass: superclass@, subclass: subclass@ };
        let mut k: usize = 0;
        while k < self.subclass.len()
            invariant
                scv == (SubClassV { superclass: superclass@, subclass: subclass@ }),
                k <= self.subclass@.len(),
                self@.subclasses.len() == self.subclass@.len(),
                forall|j: int| 0 <= j < k ==> self@.subclasses[j] != scv,
            decreases self.subclass@.len() - k,
        {
            let same_sup = eq_expr(&self.subclass[k].superclass, &superclass);
            let same_sub = eq_expr(&self.subclass[k].subclass, &subclass);
            if same_sup && same_sub {
                proof {
                    assert(self@.subclasses[k as int] == scv);
                }
                return true;
            }
            k += 1;
        }
        proof {
            if self@.subclasses.contains(scv) {
                let j = choose|j: int|
                    0 <= j < self@.subclasses.len() && self@.subclasses[j] == scv;
                assert(self@.subclasses[j] != scv);
            }
        }
        false
    }
}

/// Interning is idempotent: interning one name twice returns the same
/// identifier both times, the second call changes nothing, and the instance
/// binds that identifier to the name, so resolving it yields the name back.
pub proof fn lemma_intern_idempotent(
    o0: OntologyV,
    name: Seq<char>,
    r1: IRI,
    o1: OntologyV,
    r2: IRI,
    o2: OntologyV,
)
    requires
        inv(o0),
        intern_spec(o0, name, r1, o1),
        intern_spec(o1, name, r2, o2),
    ensures
        r2 == r1,
        o2 == o1,
        o1.ids.contains_pair(r1.0, name),
{
    if o0.ids.contains_value(name) {
        assert(o0.ids[r1.0] == o0.ids[r2.0]);
    } else {
        assert(o1.ids == o0.ids.insert(o0.next, name));
        assert(o1.ids.contains_pair(r1.0, name));
        if r2.0 != r1.0 {
            assert(o0.ids.contains_key(r2.0));
            assert(o0.ids[r2.0] == name);
            assert(o0.ids.contains_value(name));
        }
    }
}

/// The interning table is a bijection: it is a map, so each identifier has
/// at most one name, and under the invariant no name is bound to two
/// identifiers.  Membership of an identifier and resolvability of an
/// identifier are both membership in this one map.
pub proof fn lemma_interner_bijective(o: OntologyV, i: usize, j: usize)
    requires
        inv(o),
        o.ids.contains_key(i),
        o.ids.contains_key(j),
        o.ids[i] == o.ids[j],
    ensures
        i == j,
{
}

/// Defining the same class twice returns equal values, the second call
/// changes nothing, and the class collection holds exactly one entry for the
/// identifier.
pub proof fn lemma_class_dedup(
    o0: OntologyV,
    i: IRI,
    r1: Result<Class, ForeignReferenceError>,
    o1: OntologyV,
    r2: Result<Class, ForeignReferenceError>,
    o2: OntologyV,
)
    requires
        inv(o0),
        o0.ids.contains_key(i.0),
        define_class_spec(o0, i, r1, o1),
        define_class_spec(o1, i, r2, o2),
    ensures
        r1 == r2,
        r1 == Ok::<Class, ForeignReferenceError>(Class(i)),
        o2 =~= o1,
        o2.classes.contains(i.0),
        forall|k: int, l: int|
            0 <= k < o2.classes.len() && 0 <= l < o2.classes.len() && o2.classes[k] == i.0
                && o2.classes[l] == i.0 ==> k == l,
{
    if !o0.classes.contains(i.0) {
        assert(o1.classes == o0.classes.push(i.0));
        assert(o1.classes[o0.classes.len() as int] == i.0);
    }
    assert(o1.classes.contains(i.0));
    assert(o2 =~= o1);
    assert forall|k: int, l: int|
        0 <= k < o2.classes.len() && 0 <= l < o2.classes.len() && o2.classes[k] == i.0
            && o2.classes[l] == i.0 implies k == l by {
        if o0.classes.contains(i.0) {
            assert(o2.classes == o0.classes);
        } else {
            assert(o2.classes == o0.classes.push(i.0));
            let n = o0.classes.len() as int;
            if k < n && l < n {
                assert(o0.classes[k] == i.0 && o0.classes[l] == i.0);
            } else if k < n {
                assert(o0.classes[k] == i.0);
                assert(o0.classes.contains(i.0));
            } else if l < n {
                assert(o0.classes[l] == i.0);
                assert(o0.classes.contains(i.0));
            }
        }
    }
}

/// A class built from an identifier this instance never issued is rejected
/// with `ForeignReferenceError`, and the instance is left unchanged.
pub proof fn lemma_foreign_rejected(
    o: OntologyV,
    i: IRI,
    r: Result<Class, ForeignReferenceError>,
    o2: OntologyV,
)
    requires
        !o.ids.contains_key(i.0),
        define_class_spec(o, i, r, o2),
    ensures
        r == Err::<Class, ForeignReferenceError>(ForeignReferenceError),
        o2 == o,
{
}

/// A subclass assertion either of whose expressions is invalid for the
/// instance is rejected, and the instance is left unchanged.
pub proof fn lemma_foreign_subclass_rejected(
    o: OntologyV,
    sup: ExprV,
    sub: ExprV,
    r: Result<SubClass, ForeignReferenceError>,
    o2: OntologyV,
)
    requires
        !expr_valid(sup, o.ids.dom()) || !expr_valid(sub, o.ids.dom()),
        assert_subclass_spec(o, sup, sub, r, o2),
    ensures
        r is Err,
        o2 == o,
{
}

/// An existential restriction with a foreign property or an invalid filler
/// is rejected, and the instance is left unchanged.
pub proof fn lemma_foreign_some_rejected(
    o: OntologyV,
    p: usize,
    filler: ExprV,
    r: Result<ClassExpression, ForeignReferenceError>,
    o2: OntologyV,
)
    requires
        !o.ids.contains_key(p) || !expr_valid(filler, o.ids.dom()),
        some_spec(o, p, filler, r, o2),
    ensures
        r is Err,
        o2 == o,
{
}

/// Validation is recursive: an existential restriction whose filler is
/// invalid is itself invalid, even when its object property is known to the
/// instance.
pub proof fn lemma_recursive_validation(p: usize, filler: ExprV, ids: Set<usize>)
    requires
        !expr_valid(filler, ids),
    ensures
        !expr_valid(ExprV::SomeValuesFrom(p, Box::new(filler)), ids),
{
}

/// An expression stands among the direct subclasses of `sup` exactly when an
/// axiom with that very pair was asserted: the query reports asserted facts,
/// no more and no fewer.
pub proof fn lemma_direct_subclass_iff(axs: Seq<SubClassV>, sup: ExprV, e: ExprV)
    ensures
        subs_of(axs, sup).contains(e) == axs.contains(
            (SubClassV { superclass: sup, subclass: e }),
        ),
    decreases axs.len(),
{
    let scv = SubClassV { superclass: sup, subclass: e };
    if axs.len() > 0 {
        lemma_direct_subclass_iff(axs.drop_last(), sup, e);
        let rest = subs_of(axs.drop_last(), sup);
        assert(axs.contains(scv) == (axs.drop_last().contains(scv) || axs.last() == scv)) by {
            if axs.contains(scv) {
                let j = choose|j: int| 0 <= j < axs.len() && axs[j] == scv;
                if j < axs.len() - 1 {
                    assert(axs.drop_last()[j] == scv);
                } else {
                    assert(axs.last() == scv);
                }
            }
            if axs.drop_last().contains(scv) {
                let j = choose|j: int|
                    0 <= j < axs.drop_last().len() && axs.drop_last()[j] == scv;
                assert(axs[j] == scv);
            }
            if axs.last() == scv {
                assert(axs[axs.len() - 1] == scv);
            }
        };
        if axs.last().superclass == sup {
            let subs = subs_of(axs, sup);
            assert(subs == rest.push(axs.last().subclass));
            assert(subs.contains(e) == (rest.contains(e) || axs.last().subclass == e)) by {
                if subs.contains(e) {
                    let j = choose|j: int| 0 <= j < subs.len() && subs[j] == e;
                    if j < rest.len() {
                        assert(rest[j] == e);
                    } else {
                        assert(axs.last().subclass == e);
                    }
                }
                if rest.contains(e) {
                    let j = choose|j: int| 0 <= j < rest.len() && rest[j] == e;
                    assert(subs[j] == e);
                }
                if axs.last().subclass == e {
                    assert(subs[rest.len() as int] == e);
                }
            };
        }
    }
}

/// No transitive inference: with exactly the axioms `a ⊑ b` and `b ⊑ c`
/// asserted and `a`, `b`, `c` pairwise distinct where it matters, the pair
/// `(a, c)` is not among the stored axioms, so the direct-subclass query
/// denies it.
pub proof fn lemma_no_transitive_inference(axs: Seq<SubClassV>, a: ExprV, b: ExprV, c: ExprV)
    requires
        axs == seq![
            (SubClassV { superclass: a, subclass: b }),
            (SubClassV { superclass: b, subclass: c }),
        ],
        a != b,
        b != c,
    ensures
        !axs.contains((SubClassV { superclass: a, subclass: c })),
{
    let scv = SubClassV { superclass: a, subclass: c };
    if axs.contains(scv) {
        let j = choose|j: int| 0 <= j < axs.len() && axs[j] == scv;
        assert(axs[0] == (SubClassV { superclass: a, subclass: b }));
        assert(axs[1] == (SubClassV { superclass: b, subclass: c }));
    }
}

/// Everything constructible against an ontology instance can be checked
/// against one: the check succeeds exactly when every identifier the value
/// references belongs to that instance.
pub trait Checkable {
    /// Whether every identifier this value references belongs to `ont`.
    spec fn valid(&self, ont: &Ontology) -> bool;

    /// Checks this value against an ontology instance, reporting a foreign
    /// reference instead of accepting it.
    fn check(&self, ont: &Ontology) -> (r: Result<(), ForeignReferenceError>)
        ensures
            r is Ok <==> self.valid(ont),
    ;
}

impl Checkable for IRI {
    open spec fn valid(&self, ont: &Ontology) -> bool {
        ont@.ids.contains_key(self.0)
    }

    fn check(&self, ont: &Ontology) -> (r: Result<(), ForeignReferenceError>) {
        if ont.contains_id(self.0) {
            Ok(())
        } else {
            Err(ForeignReferenceError)
        }
    }
}

impl Checkable for Class {
    open spec fn valid(&self, ont: &Ontology) -> bool {
        ont@.ids.contains_key(self.0.0)
    }

    fn check(&self, ont: &Ontology) -> (r: Result<(), ForeignReferenceError>) {
        if ont.contains_id(self.0.0) {
            Ok(())
        } else {
            Err(ForeignReferenceError)
        }
    }
}

impl Checkable for ObjectProperty {
    open spec fn valid(&self, ont: &Ontology) -> bool {
        ont@.ids.contains_key(self.0.0)
    }

    fn check(&self, ont: &Ontology) -> (r: Result<(), ForeignReferenceError>) {
        if ont.contains_id(self.0.0) {
            Ok(())
        } else {
            Err(ForeignReferenceError)
        }
    }
}

impl Checkable for SubClass {
    open spec fn valid(&self, ont: &Ontology) -> bool {
        subclass_valid(self@, ont@.ids.dom())
    }

    fn check(&self, ont: &Ontology) -> (r: Result<(), ForeignReferenceError>) {
        if check_expr(&self.superclass, ont) && check_expr(&self.subclass, ont) {
            Ok(())
        } else {
            Err(ForeignReferenceError)
        }
    }
}

impl Checkable for SomeValuesFrom {
    open spec fn valid(&self, ont: &Ontology) -> bool {
        ont@.ids.contains_key(self.object_property.0.0) && expr_valid(
            expr_view(*self.filler),
            ont@.ids.dom(),
        )
    }

    fn check(&self, ont: &Ontology) -> (r: Result<(), ForeignReferenceError>) {
        if ont.contains_id(self.object_property.0.0) && check_expr(&self.filler, ont) {
            Ok(())
        } else {
            Err(ForeignReferenceError)
        }
    }
}

impl Checkable for And {
    open spec fn valid(&self, ont: &Ontology) -> bool {
        all_valid(exprs_view(self.operands@), ont@.ids.dom())
    }

    fn check(&self, ont: &Ontology) -> (r: Result<(), ForeignReferenceError>) {
        if check_expr_vec(&self.operands, ont) {
            Ok(())
        } else {
            Err(ForeignReferenceError)
        }
    }
}

impl Checkable for Or {
    open spec fn valid(&self, ont: &Ontology) -> bool {
        all_valid(exprs_view(self.operands@), ont@.ids.dom())
    }

    fn check(&self, ont: &Ontology) -> (r: Result<(), ForeignReferenceError>) {
        if check_expr_vec(&self.operands, ont) {
            Ok(())
        } else {
            Err(ForeignReferenceError)
        }
    }
}

impl Checkable for Not {
    open spec fn valid(&self, ont: &Ontology) -> bool {
        expr_valid(expr_view(self.operand), ont@.ids.dom())
    }

    fn check(&self, ont: &Ontology) -> (r: Result<(), ForeignReferenceError>) {
        if check_expr(&self.operand, ont) {
            Ok(())
        } else {
            Err(ForeignReferenceError)
        }
    }
}

impl Checkable for ClassExpression {
    open spec fn valid(&self, ont: &Ontology) -> bool {
        expr_valid(expr_view(*self), ont@.ids.dom())
    }

    fn check(&self, ont: &Ontology) -> (r: Result<(), ForeignReferenceError>) {
        if check_expr(self, ont) {
            Ok(())
        } else {
            Err(ForeignReferenceError)
        }
    }
}

} // verus!
