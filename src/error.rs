use vstd::prelude::*;
use crate::ast::Ident;
use crate::types::{MType, Ty};

verus! {

/// The errors raised while resolving types and names.
#[derive(Debug)]
pub enum CompileError {
    /// Two known types do not have the same structure.
    TypesystemError { lhs: MType, rhs: MType },
    /// A name was bound twice at one level.
    DuplicateEntry { path: Vec<Ident> },
    /// A name has no binding.
    NoSuchEntry { path: Vec<Ident> },
    /// An invariant of the compiler itself was violated.
    InternalError { what: String },
    /// Several errors at once; the first is the primary one.
    Multiple { sources: Vec<CompileError> },
}

/// The value of an error.
pub enum ErrorView {
    Typesystem(Ty, Ty),
    DuplicateEntry(Seq<Ident>),
    NoSuchEntry(Seq<Ident>),
    Internal(Seq<char>),
    Multiple(Seq<ErrorView>),
}

/// The value of a path of names.
pub open spec fn path_view(path: Seq<String>) -> Seq<Seq<char>> {
    path.map_values(|s: String| s@)
}

/// The value of an error.
pub open spec fn error_view(e: CompileError) -> ErrorView
    decreases e,
{
    match e {
        CompileError::TypesystemError { lhs, rhs } => ErrorView::Typesystem(lhs@, rhs@),
        CompileError::DuplicateEntry { path } => ErrorView::DuplicateEntry(path@),
        CompileError::NoSuchEntry { path } => ErrorView::NoSuchEntry(path@),
        CompileError::InternalError { what } => ErrorView::Internal(what@),
        CompileError::Multiple { sources } => ErrorView::Multiple(errors_view(sources@)),
    }
}

/// The values of a sequence of errors.
pub open spec fn errors_view(es: Seq<CompileError>) -> Seq<ErrorView>
    decreases es,
{
    if es.len() == 0 {
        Seq::empty()
    } else {
        errors_view(es.drop_last()).push(error_view(es[es.len() - 1]))
    }
}

/// The values of a sequence of errors, one by one.
pub proof fn lemma_errors_view(es: Seq<CompileError>)
    ensures
        errors_view(es).len() == es.len(),
        forall|j: int| 0 <= j < es.len() ==> #[trigger] errors_view(es)[j] == error_view(es[j]),
    decreases es.len(),
{
    if es.len() > 0 {
        lemma_errors_view(es.drop_last());
    }
}

impl View for CompileError {
    type V = ErrorView;

    open spec fn view(&self) -> ErrorView {
        error_view(*self)
    }
}

/// The errors that an error stands for: the sources of an aggregate, or itself.
pub open spec fn error_parts(e: ErrorView) -> Seq<ErrorView> {
    match e {
        ErrorView::Multiple(sources) => sources,
        _ => seq![e],
    }
}

/// A copy of a path of located names.
pub fn copy_idents(path: &Vec<Ident>) -> (r: Vec<Ident>)
    ensures
        r@ == path@,
{
    let mut out: Vec<Ident> = Vec::new();
    let mut i: usize = 0;
    while i < path.len()
        invariant
            i <= path@.len(),
            out@ == path@.subrange(0, i as int),
        decreases path@.len() - i,
    {
        out.push(path[i].duplicate());
        i += 1;
        assert(out@ =~= path@.subrange(0, i as int));
    }
    assert(out@ =~= path@);
    out
}

/// A copy of a path of names.
pub fn copy_path(path: &Vec<String>) -> (r: Vec<String>)
    ensures
        r@ == path@,
{
    let mut out: Vec<String> = Vec::new();
    let mut i: usize = 0;
    while i < path.len()
        invariant
            i <= path@.len(),
            out@ == path@.subrange(0, i as int),
        decreases path@.len() - i,
    {
        out.push(path[i].clone());
        i += 1;
        assert(out@ =~= path@.subrange(0, i as int));
    }
    assert(out@ =~= path@);
    out
}

impl CompileError {
    /// The error for a name missing at `path`.
    pub fn no_such_entry(path: Vec<Ident>) -> (r: CompileError)
        ensures
            r@ == ErrorView::NoSuchEntry(path@),
    {
        CompileError::NoSuchEntry { path }
    }

    /// The error for a name bound twice at `path`.
    pub fn duplicate_entry(path: Vec<Ident>) -> (r: CompileError)
        ensures
            r@ == ErrorView::DuplicateEntry(path@),
    {
        CompileError::DuplicateEntry { path }
    }

    /// The error for a violated invariant of the compiler.
    pub fn internal(what: &str) -> (r: CompileError)
        ensures
            r@ == ErrorView::Internal(what@),
    {
        CompileError::InternalError { what: what.to_owned() }
    }

    /// The error for two types without a common structure.
    pub fn wrong_type(lhs: &MType, rhs: &MType) -> (r: CompileError)
        ensures
            r@ == ErrorView::Typesystem(lhs@, rhs@),
    {
        CompileError::TypesystemError { lhs: lhs.duplicate(), rhs: rhs.duplicate() }
    }

    /// Two errors reported together, `first` as the primary one.
    pub fn multiple(first: CompileError, second: CompileError) -> (r: CompileError)
        ensures
            r@ == ErrorView::Multiple(seq![first@, second@]),
    {
        let r = CompileError::Multiple { sources: vec![first, second] };
        proof {
            let sources = r->Multiple_sources@;
            lemma_errors_view(sources);
            assert(errors_view(sources) =~= seq![first@, second@]);
        }
        r
    }

    /// A copy of this error, equal to it in value.
    pub fn duplicate(&self) -> (r: CompileError)
        ensures
            r@ == self@,
        decreases self,
    {
        match self {
            CompileError::TypesystemError { lhs, rhs } => CompileError::wrong_type(lhs, rhs),
            CompileError::DuplicateEntry { path } => CompileError::DuplicateEntry { path: copy_idents(path) },
            CompileError::NoSuchEntry { path } => CompileError::NoSuchEntry { path: copy_idents(path) },
            CompileError::InternalError { what } => CompileError::InternalError { what: what.clone() },
            CompileError::Multiple { sources } => {
                proof {
                    lemma_errors_view(sources@);
                }
                let mut out: Vec<CompileError> = Vec::new();
                let mut i: usize = 0;
                while i < sources.len()
                    invariant
                        *self == (CompileError::Multiple { sources: *sources }),
                        i <= sources@.len(),
                        out@.len() == i,
                        forall|j: int| 0 <= j < i ==> #[trigger] error_view(out@[j]) == error_view(sources@[j]),
                    decreases sources@.len() - i,
                {
                    proof {
                        assert(decreases_to!(*self => self->Multiple_sources));
                        assert(decreases_to!(self->Multiple_sources => sources[i as int]));
                    }
                    out.push(sources[i].duplicate());
                    i += 1;
                }
                proof {
                    lemma_errors_view(out@);
                    assert(errors_view(out@) =~= errors_view(sources@));
                }
                CompileError::Multiple { sources: out }
            },
        }
    }
}

} // verus!
