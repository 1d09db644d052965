use vstd::prelude::*;
use crate::error::{CompileError, ErrorView};

verus! {

/// The atomic (leaf) types of the language.
#[derive(Clone, Copy, Debug, PartialEq, Eq, Structural)]
pub enum AtomicType {
    Null,
    Boolean,
    Int8,
    Int16,
    Int32,
    Int64,
    Float32,
    Float64,
    Utf8,
    Date32,
    Time64,
    Timestamp,
}

/// A named field of a record type.
#[derive(Debug, PartialEq)]
pub struct Field {
    pub name: String,
    pub type_: MType,
}

/// A fully known type: an atom, a record of named fields, or a list.
#[derive(Debug, PartialEq)]
pub enum MType {
    Atom(AtomicType),
    Record(Vec<Field>),
    List(Box<MType>),
}

/// The mathematical value of a field of a record type.
pub struct FieldTy {
    pub name: Seq<char>,
    pub ty: Ty,
}

/// The mathematical value of a type.
pub enum Ty {
    Atom(AtomicType),
    Record(Seq<FieldTy>),
    List(Box<Ty>),
}

/// The value of a type.
pub open spec fn ty_of(t: MType) -> Ty
    decreases t,
{
    match t {
        MType::Atom(a) => Ty::Atom(a),
        MType::Record(fields) => Ty::Record(fields_ty(fields@)),
        MType::List(inner) => Ty::List(Box::new(ty_of(*inner))),
    }
}

/// The values of a sequence of record fields.
pub open spec fn fields_ty(fields: Seq<Field>) -> Seq<FieldTy>
    decreases fields,
{
    if fields.len() == 0 {
        Seq::empty()
    } else {
        let last = fields[fields.len() - 1];
        fields_ty(fields.drop_last()).push(FieldTy { name: last.name@, ty: ty_of(last.type_) })
    }
}

/// The values of the fields of a record, one by one.
pub proof fn lemma_fields_ty(fields: Seq<Field>)
    ensures
        fields_ty(fields).len() == fields.len(),
        forall|j: int|
            0 <= j < fields.len() ==> #[trigger] fields_ty(fields)[j] == (FieldTy {
                name: fields[j].name@,
                ty: ty_of(fields[j].type_),
            }),
    decreases fields.len(),
{
    if fields.len() > 0 {
        lemma_fields_ty(fields.drop_last());
    }
}

impl View for MType {
    type V = Ty;

    open spec fn view(&self) -> Ty {
        ty_of(*self)
    }
}

impl MType {
    /// A copy of this type, equal to it.
    pub fn duplicate(&self) -> (r: MType)
        ensures
            r@ == self@,
        decreases self,
    {
        match self {
            MType::Atom(a) => MType::Atom(*a),
            MType::List(inner) => MType::List(Box::new((**inner).duplicate())),
            MType::Record(fields) => {
                let mut out: Vec<Field> = Vec::new();
                let mut i: usize = 0;
                while i < fields.len()
                    invariant
                        *self == MType::Record(*fields),
                        i <= fields@.len(),
                        out@.len() == i,
                        forall|j: int| 0 <= j < i ==> #[trigger] out@[j].name@ == fields@[j].name@
                            && ty_of(out@[j].type_) == ty_of(fields@[j].type_),
                    decreases fields@.len() - i,
                {
                    let f = &fields[i];
                    proof {
                        assert(decreases_to!(*self => self->Record_0));
                        assert(decreases_to!(*fields => fields[i as int]));
                        assert(decreases_to!(fields[i as int] => fields[i as int].type_));
                    }
                    out.push(Field { name: f.name.clone(), type_: f.type_.duplicate() });
                    i += 1;
                }
                let r = MType::Record(out);
                proof {
                    lemma_fields_ty(out@);
                    lemma_fields_ty(fields@);
                    assert(fields_ty(out@) =~= fields_ty(fields@));
                }
                r
            },
        }
    }
}

/// A payload of a constraint cell: a value with a fallible structural unification.
pub trait Constrainable: Sized {
    /// Whether two known values can be unified.
    spec fn unifies_with(&self, other: &Self) -> bool;

    /// The error that a failed unification of two known values reports.
    spec fn unify_error(&self, other: &Self) -> ErrorView;

    /// Unification does not depend on the order of its operands.
    proof fn lemma_unifies_symmetric(a: &Self, b: &Self)
        ensures
            a.unifies_with(b) == b.unifies_with(a),
    ;

    /// Structurally unifies two known values.
    fn unify(&self, other: &Self) -> (r: Result<(), CompileError>)
        ensures
            r is Ok <==> self.unifies_with(other),
            r is Err ==> r->Err_0@ == self.unify_error(other),
    ;
}

impl MType {
    /// Whether two types have the same structure.
    pub fn same(&self, other: &MType) -> (r: bool)
        ensures
            r == (self@ == other@),
        decreases self,
    {
        match (self, other) {
            (MType::Atom(a), MType::Atom(b)) => *a == *b,
            (MType::List(a), MType::List(b)) => (**a).same(&**b),
            (MType::Record(fa), MType::Record(fb)) => {
                proof {
                    lemma_fields_ty(fa@);
                    lemma_fields_ty(fb@);
                }
                if fa.len() != fb.len() {
                    assert(fields_ty(fa@).len() != fields_ty(fb@).len());
                    return false;
                }
                let mut i: usize = 0;
                while i < fa.len()
                    invariant
                        *self == MType::Record(*fa),
                        *other == MType::Record(*fb),
                        fa@.len() == fb@.len(),
                        i <= fa@.len(),
                        fields_ty(fa@).len() == fa@.len(),
                        fields_ty(fb@).len() == fb@.len(),
                        forall|j: int| 0 <= j < i ==> #[trigger] fields_ty(fa@)[j] == fields_ty(fb@)[j],
                        forall|j: int|
                            0 <= j < fa@.len() ==> #[trigger] fields_ty(fa@)[j] == (FieldTy {
                                name: fa@[j].name@,
                                ty: ty_of(fa@[j].type_),
                            }),
                        forall|j: int|
                            0 <= j < fb@.len() ==> #[trigger] fields_ty(fb@)[j] == (FieldTy {
                                name: fb@[j].name@,
                                ty: ty_of(fb@[j].type_),
                            }),
                    decreases fa@.len() - i,
                {
                    proof {
                        assert(decreases_to!(*self => self->Record_0));
                        assert(decreases_to!(self->Record_0 => fa[i as int]));
                        assert(decreases_to!(fa[i as int] => fa[i as int].type_));
                    }
                    if !(fa[i].name == fb[i].name) || !fa[i].type_.same(&fb[i].type_) {
                        assert(fields_ty(fa@)[i as int] != fields_ty(fb@)[i as int]);
                        assert(fields_ty(fa@) != fields_ty(fb@));
                        return false;
                    }
                    i += 1;
                }
                assert(fields_ty(fa@) =~= fields_ty(fb@));
                true
            },
            _ => false,
        }
    }
}

impl Constrainable for MType {
    open spec fn unifies_with(&self, other: &MType) -> bool {
        self@ == other@
    }

    open spec fn unify_error(&self, other: &MType) -> ErrorView {
        ErrorView::Typesystem(self@, other@)
    }

    proof fn lemma_unifies_symmetric(a: &MType, b: &MType) {
    }

    fn unify(&self, other: &MType) -> (r: Result<(), CompileError>) {
        if self.same(other) {
            Ok(())
        } else {
            Err(CompileError::wrong_type(self, other))
        }
    }
}

} // verus!
