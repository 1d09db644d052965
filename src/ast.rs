use vstd::prelude::*;

verus! {

/// A position in a source file.
#[derive(Clone, Copy, Debug, PartialEq, Eq, Structural)]
pub struct Location {
    pub line: u64,
    pub column: u64,
}

/// Where something was declared.
#[derive(Debug)]
pub enum SourceLocation {
    Unknown,
    File(String),
    Single(String, Location),
    Range(String, Location, Location),
}

impl SourceLocation {
    /// The file of this location, if it names one.
    pub fn file(&self) -> (r: Option<String>)
        ensures
            match self {
                SourceLocation::Unknown => r is None,
                SourceLocation::File(f) => r == Some(*f),
                SourceLocation::Single(f, _) => r == Some(*f),
                SourceLocation::Range(f, _, _) => r == Some(*f),
            },
    {
        match self {
            SourceLocation::Unknown => None,
            SourceLocation::File(file) => Some(file.clone()),
            SourceLocation::Single(file, _) => Some(file.clone()),
            SourceLocation::Range(file, _, _) => Some(file.clone()),
        }
    }

    /// A copy of this location.
    pub fn duplicate(&self) -> (r: SourceLocation)
        ensures
            r == *self,
    {
        match self {
            SourceLocation::Unknown => SourceLocation::Unknown,
            SourceLocation::File(f) => SourceLocation::File(f.clone()),
            SourceLocation::Single(f, l) => SourceLocation::Single(f.clone(), *l),
            SourceLocation::Range(f, s, e) => SourceLocation::Range(f.clone(), *s, *e),
        }
    }
}

/// A name, with where it was written.
#[derive(Debug)]
pub struct Ident {
    pub loc: SourceLocation,
    pub value: String,
}

impl Ident {
    /// A name written at `loc`.
    pub fn with_location(loc: SourceLocation, value: String) -> (r: Ident)
        ensures
            r.loc == loc,
            r.value == value,
    {
        Ident { loc, value }
    }

    /// A copy of this name.
    pub fn duplicate(&self) -> (r: Ident)
        ensures
            r == *self,
    {
        Ident { loc: self.loc.duplicate(), value: self.value.clone() }
    }

    /// A name with no known location.
    pub fn without_location(value: String) -> (r: Ident)
        ensures
            r.loc is Unknown,
            r.value == value,
    {
        Ident { loc: SourceLocation::Unknown, value }
    }
}

/// The file and the start position that a location gives, if any.
pub open spec fn loc_start(l: SourceLocation) -> Option<(String, Option<Location>)> {
    match l {
        SourceLocation::Unknown => None,
        SourceLocation::File(f) => Some((f, None)),
        SourceLocation::Single(f, _) => Some((f, None)),
        SourceLocation::Range(f, s, _) => Some((f, Some(s))),
    }
}

/// The file and the end position that a location gives, if any.
pub open spec fn loc_end(l: SourceLocation) -> Option<(String, Option<Location>)> {
    match l {
        SourceLocation::Unknown => None,
        SourceLocation::File(f) => Some((f, None)),
        SourceLocation::Single(f, _) => Some((f, None)),
        SourceLocation::Range(f, _, e) => Some((f, Some(e))),
    }
}

/// The location from a start and an end, each a file with an optional position.
pub open spec fn span(s: (String, Option<Location>), e: (String, Option<Location>)) -> SourceLocation {
    let (sf, sp) = s;
    let (ef, ep) = e;
    if sf@ != ef@ {
        SourceLocation::Unknown
    } else {
        match (sp, ep) {
            (Some(x), Some(y)) => SourceLocation::Range(sf, x, y),
            _ => SourceLocation::File(sf),
        }
    }
}

/// The location spanned by a path of names: from the start of its first name to the end
/// of its last, when both lie in one file; the file alone when either position is
/// missing; unknown otherwise.
pub open spec fn span_of(path: Seq<Ident>) -> SourceLocation {
    if path.len() == 0 {
        SourceLocation::Unknown
    } else {
        match (loc_start(path[0].loc), loc_end(path[path.len() - 1].loc)) {
            (Some(s), Some(e)) => span(s, e),
            _ => SourceLocation::Unknown,
        }
    }
}

/// The location spanned by a path of names.
pub fn path_location(path: &Vec<Ident>) -> (r: SourceLocation)
    ensures
        r == span_of(path@),
{
    if path.len() == 0 {
        return SourceLocation::Unknown;
    }
    let (start_file, start) = match &path[0].loc {
        SourceLocation::Range(file, start, _) => (file, Some(*start)),
        SourceLocation::Single(file, _) => (file, None),
        SourceLocation::File(file) => (file, None),
        SourceLocation::Unknown => {
            return SourceLocation::Unknown;
        },
    };
    let (end_file, end) = match &path[path.len() - 1].loc {
        SourceLocation::Range(file, _, end) => (file, Some(*end)),
        SourceLocation::Single(file, _) => (file, None),
        SourceLocation::File(file) => (file, None),
        SourceLocation::Unknown => {
            return SourceLocation::Unknown;
        },
    };
    if !(*start_file == *end_file) {
        return SourceLocation::Unknown;
    }
    match (start, end) {
        (Some(s), Some(e)) => SourceLocation::Range(start_file.clone(), s, e),
        _ => SourceLocation::File(start_file.clone()),
    }
}

} // verus!
