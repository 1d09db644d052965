use vstd::prelude::*;
use crate::error::path_view;
use crate::types::{AtomicType, MType, Ty};

verus! {

/// A value bound to a query parameter.
#[derive(Debug)]
pub enum ParamValue {
    Null,
    /// A number, held as the bits of its IEEE-754 double.
    Number { bits: u64 },
    String(String),
    Bool(bool),
}

/// A named parameter of a query, with its type and value.
#[derive(Debug)]
pub struct SQLParam {
    pub name: Vec<String>,
    pub type_: MType,
    pub value: ParamValue,
}

/// The column types that the query engine is told of for parameters.
#[derive(Clone, Copy, Debug, PartialEq, Eq, Structural)]
pub enum DataType {
    Null,
    Boolean,
    Int64,
    Utf8,
}

/// The engine type of a parameter of type `t`, for the atoms that have one.
pub open spec fn engine_type(t: Ty) -> Option<DataType> {
    match t {
        Ty::Atom(AtomicType::Null) => Some(DataType::Null),
        Ty::Atom(AtomicType::Boolean) => Some(DataType::Boolean),
        Ty::Atom(AtomicType::Int64) => Some(DataType::Int64),
        Ty::Atom(AtomicType::Utf8) => Some(DataType::Utf8),
        _ => None,
    }
}

/// Whether `k` is the first parameter named `name`.
pub open spec fn is_first_param(params: Seq<SQLParam>, name: Seq<Seq<char>>, k: int) -> bool {
    &&& 0 <= k < params.len()
    &&& path_view(params[k].name@) == name
    &&& forall|j: int| 0 <= j < k ==> path_view(#[trigger] params[j].name@) != name
}

/// The parameter that `name` refers to: the first one of that name.
pub open spec fn param_named(params: Seq<SQLParam>, name: Seq<Seq<char>>) -> Option<SQLParam> {
    if exists|k: int| is_first_param(params, name, k) {
        Some(params[choose|k: int| is_first_param(params, name, k)])
    } else {
        None
    }
}

/// The parameters that a query is planned against.
pub struct SchemaProvider {
    params: Vec<SQLParam>,
}

/// Whether two name paths are equal.
fn same_path(a: &Vec<String>, b: &Vec<String>) -> (r: bool)
    ensures
        r == (path_view(a@) == path_view(b@)),
{
    if a.len() != b.len() {
        assert(path_view(a@).len() != path_view(b@).len());
        return false;
    }
    let mut i: usize = 0;
    while i < a.len()
        invariant
            a@.len() == b@.len(),
            i <= a@.len(),
            forall|j: int| 0 <= j < i ==> #[trigger] a@[j]@ == b@[j]@,
        decreases a@.len() - i,
    {
        if !(a[i] == b[i]) {
            assert(path_view(a@)[i as int] != path_view(b@)[i as int]);
            return false;
        }
        i += 1;
    }
    assert(path_view(a@) =~= path_view(b@));
    true
}

impl SchemaProvider {
    /// The parameters, in order.
    pub closed spec fn params(&self) -> Seq<SQLParam> {
        self.params@
    }

    /// A provider of the parameters `params`.
    pub fn new(params: Vec<SQLParam>) -> (r: SchemaProvider)
        ensures
            r.params() == params@,
    {
        SchemaProvider { params }
    }

    /// The value of the parameter named `var_names`, if there is one.
    pub fn get_value(&self, var_names: &Vec<String>) -> (r: Option<&ParamValue>)
        ensures
            r is None <==> param_named(self.params(), path_view(var_names@)) is None,
            r is Some ==> *r->0 == param_named(self.params(), path_view(var_names@))->0.value,
    {
        let ghost name = path_view(var_names@);
        let mut k: usize = 0;
        while k < self.params.len()
            invariant
                name == path_view(var_names@),
                k <= self.params@.len(),
                forall|j: int| 0 <= j < k ==> path_view(#[trigger] self.params@[j].name@) != name,
            decreases self.params@.len() - k,
        {
            if same_path(&self.params[k].name, var_names) {
                proof {
                    assert(is_first_param(self.params@, name, k as int));
                    let f = choose|f: int| is_first_param(self.params@, name, f);
                    if f < k {
                        assert(path_view(self.params@[f].name@) != name);
                    }
                    if f > k {
                        assert(path_view(self.params@[k as int].name@) != name);
                    }
                }
                return Some(&self.params[k].value);
            }
            k += 1;
        }
        None
    }

    /// The engine type of the parameter named `names`, if there is one and its type is an
    /// atom that the engine knows.
    pub fn get_variable_type(&self, names: &Vec<String>) -> (r: Option<DataType>)
        ensures
            r == match param_named(self.params(), path_view(names@)) {
                Some(p) => engine_type(p.type_@),
                None => None,
            },
    {
        let ghost name = path_view(names@);
        let mut k: usize = 0;
        while k < self.params.len()
            invariant
                name == path_view(names@),
                k <= self.params@.len(),
                forall|j: int| 0 <= j < k ==> path_view(#[trigger] self.params@[j].name@) != name,
            decreases self.params@.len() - k,
        {
            if same_path(&self.params[k].name, names) {
                proof {
                    assert(is_first_param(self.params@, name, k as int));
                    let f = choose|f: int| is_first_param(self.params@, name, f);
                    if f < k {
                        assert(path_view(self.params@[f].name@) != name);
                    }
                    if f > k {
                        assert(path_view(self.params@[k as int].name@) != name);
                    }
                }
                return match &self.params[k].type_ {
                    MType::Atom(AtomicType::Null) => Some(DataType::Null),
                    MType::Atom(AtomicType::Boolean) => Some(DataType::Boolean),
                    MType::Atom(AtomicType::Int64) => Some(DataType::Int64),
                    MType::Atom(AtomicType::Utf8) => Some(DataType::Utf8),
                    _ => None,
                };
            }
            k += 1;
        }
        None
    }
}

} // verus!
