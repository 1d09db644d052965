use std::rc::Rc;
use vstd::prelude::*;
use crate::ast::{Ident, SourceLocation};
use crate::error::{copy_path, path_view, CompileError, ErrorView};
use crate::inference::{CRef, Cells};
use crate::types::{fields_ty, lemma_fields_ty, FieldTy, MType, Ty};

verus! {

/// A relation bound in a scope: its name, the cell of its type, and where it was declared.
#[derive(Debug)]
pub struct Binding {
    pub name: String,
    pub type_: CRef,
    pub loc: SourceLocation,
}

/// One level of SQL name bindings, with a shared link to the enclosing level.
pub struct SQLScope {
    parent: Option<Rc<SQLScope>>,
    relations: Vec<Binding>,
}

/// Whether no two bindings of a level share a name.
pub open spec fn unique_names(level: Seq<Binding>) -> bool {
    forall|i: int, j: int|
        0 <= i < level.len() && 0 <= j < level.len() && i != j ==> #[trigger] level[i].name@
            != #[trigger] level[j].name@
}

/// Whether a level binds `name`.
pub open spec fn binds(level: Seq<Binding>, name: Seq<char>) -> bool {
    exists|k: int| 0 <= k < level.len() && #[trigger] level[k].name@ == name
}

/// The binding that the levels give `name`: that of the innermost (last) level binding it.
pub open spec fn lookup(levels: Seq<Seq<Binding>>, name: Seq<char>) -> Option<Binding>
    decreases levels.len(),
{
    if levels.len() == 0 {
        None
    } else {
        let level = levels.last();
        if binds(level, name) {
            Some(level[choose|k: int| 0 <= k < level.len() && #[trigger] level[k].name@ == name])
        } else {
            lookup(levels.drop_last(), name)
        }
    }
}

impl SQLScope {
    /// The levels of this scope, outermost first; this scope's own level is last.
    pub closed spec fn levels(&self) -> Seq<Seq<Binding>>
        decreases self,
    {
        match self.parent {
            None => seq![self.relations@],
            Some(p) => (*p).levels().push(self.relations@),
        }
    }

    /// Every level binds each name at most once.
    pub closed spec fn wf(&self) -> bool
        decreases self,
    {
        &&& unique_names(self.relations@)
        &&& match self.parent {
            None => true,
            Some(p) => (*p).wf(),
        }
    }

    /// A well-formed scope has at least one level, and no level binds a name twice.
    pub proof fn lemma_levels_unique(&self)
        requires
            self.wf(),
        ensures
            self.levels().len() >= 1,
            forall|l: int| 0 <= l < self.levels().len() ==> unique_names(#[trigger] self.levels()[l]),
    {
        self.lemma_levels_wf();
    }

    proof fn lemma_levels_wf(&self)
        requires
            self.wf(),
        ensures
            self.levels().len() >= 1,
            self.levels().last() == self.relations@,
            forall|l: int| 0 <= l < self.levels().len() ==> unique_names(#[trigger] self.levels()[l]),
        decreases self,
    {
        match &self.parent {
            None => {},
            Some(p) => {
                (**p).lemma_levels_wf();
                assert forall|l: int| 0 <= l < self.levels().len() implies unique_names(
                    #[trigger] self.levels()[l],
                ) by {
                    if l < self.levels().len() - 1 {
                        assert(self.levels()[l] == (**p).levels()[l]);
                    }
                }
            },
        }
    }

    /// A new, empty level inside `parent`.
    pub fn new(parent: Option<Rc<SQLScope>>) -> (r: SQLScope)
        requires
            parent is Some ==> (*parent->0).wf(),
        ensures
            r.wf(),
            r.levels() == match parent {
                None => seq![Seq::<Binding>::empty()],
                Some(p) => (*p).levels().push(Seq::<Binding>::empty()),
            },
    {
        let r = SQLScope { parent, relations: Vec::new() };
        assert(r.relations@ =~= Seq::<Binding>::empty());
        r
    }

    /// A new outermost level.
    pub fn empty() -> (r: SQLScope)
        ensures
            r.wf(),
            r.levels() == seq![Seq::<Binding>::empty()],
    {
        Self::new(None)
    }

    /// The binding of `name`, searched from this level outwards; the innermost wins.
    pub fn get_relation(&self, name: &String) -> (r: Option<&Binding>)
        requires
            self.wf(),
        ensures
            r is None <==> lookup(self.levels(), name@) is None,
            r is Some ==> *r->0 == lookup(self.levels(), name@)->0,
        decreases self,
    {
        proof {
            self.lemma_levels_wf();
        }
        let mut i: usize = 0;
        while i < self.relations.len()
            invariant
                self.wf(),
                unique_names(self.relations@),
                i <= self.relations@.len(),
                forall|j: int| 0 <= j < i ==> self.relations@[j].name@ != name@,
            decreases self.relations@.len() - i,
        {
            if self.relations[i].name == *name {
                proof {
                    let level = self.relations@;
                    let k = choose|k: int| 0 <= k < level.len() && #[trigger] level[k].name@ == name@;
                    assert(level[i as int].name@ == name@);
                    assert(k == i);
                }
                return Some(&self.relations[i]);
            }
            i += 1;
        }
        assert(!binds(self.relations@, name@));
        assert(self.levels().last() == self.relations@);
        assert(lookup(self.levels(), name@) == lookup(self.levels().drop_last(), name@));
        match &self.parent {
            Some(p) => {
                assert(self.levels().drop_last() =~= (**p).levels());
                (**p).get_relation(name)
            },
            None => {
                assert(self.levels().drop_last() =~= Seq::<Seq<Binding>>::empty());
                None
            },
        }
    }

    /// Binds the relation `name` in this level. A name already bound in this level is
    /// refused; one bound in an enclosing level is shadowed.
    pub fn add_reference(&mut self, name: &String, loc: &SourceLocation, type_: CRef) -> (r: Result<
        (),
        CompileError,
    >)
        requires
            old(self).wf(),
        ensures
            final(self).wf(),
            binds(old(self).levels().last(), name@) ==> r is Err && r->Err_0@ == ErrorView::DuplicateEntry(
                seq![Ident { loc: *loc, value: *name }],
            ) && final(self).levels() == old(self).levels(),
            !binds(old(self).levels().last(), name@) ==> r is Ok && final(self).levels() == old(
                self,
            ).levels().drop_last().push(
                old(self).levels().last().push(Binding { name: *name, type_, loc: *loc }),
            ),
    {
        proof {
            self.lemma_levels_wf();
        }
        let mut i: usize = 0;
        while i < self.relations.len()
            invariant
                self.wf(),
                unique_names(self.relations@),
                i <= self.relations@.len(),
                forall|j: int| 0 <= j < i ==> self.relations@[j].name@ != name@,
            decreases self.relations@.len() - i,
        {
            if self.relations[i].name == *name {
                let path = vec![Ident::with_location(loc.duplicate(), name.clone())];
                proof {
                    assert(path@ =~= seq![Ident { loc: *loc, value: *name }]);
                }
                return Err(CompileError::duplicate_entry(path));
            }
            i += 1;
        }
        let ghost before = self.relations@;
        self.relations.push(Binding { name: name.clone(), type_, loc: loc.duplicate() });
        proof {
            assert(unique_names(self.relations@)) by {
                assert forall|a: int, b: int|
                    0 <= a < self.relations@.len() && 0 <= b < self.relations@.len() && a != b
                    implies #[trigger] self.relations@[a].name@ != #[trigger] self.relations@[b].name@ by {
                    if a < before.len() && b < before.len() {
                        assert(before[a] == self.relations@[a]);
                        assert(before[b] == self.relations@[b]);
                    }
                }
            }
            assert(self.levels() =~= old(self).levels().drop_last().push(self.relations@));
        }
        Ok(())
    }
}

/// A field visible by name: the relation that exposes it, its name, and its type. The
/// type is absent when two relations of one level expose the same name: the bare name is
/// then ambiguous, though the qualified one still resolves.
#[derive(Debug)]
pub struct FieldMatch {
    pub relation: String,
    pub field: String,
    pub type_: Option<MType>,
}

/// The value of a `FieldMatch`.
pub struct FieldMatchView {
    pub relation: Seq<char>,
    pub field: Seq<char>,
    pub type_: Option<Ty>,
}

impl View for FieldMatch {
    type V = FieldMatchView;

    open spec fn view(&self) -> FieldMatchView {
        FieldMatchView {
            relation: self.relation@,
            field: self.field@,
            type_: match self.type_ {
                Some(t) => Some(t@),
                None => None,
            },
        }
    }
}

/// The values of a list of field matches.
pub open spec fn matches_view(v: Seq<FieldMatch>) -> Seq<FieldMatchView> {
    v.map_values(|m: FieldMatch| m@)
}

/// The fields that a relation named `relation` of type `t` exposes: one per field of a
/// record, or else a single field named after the relation itself.
pub open spec fn row_matches(relation: Seq<char>, t: Ty) -> Seq<FieldMatchView> {
    match t {
        Ty::Record(fields) => fields.map_values(
            |f: FieldTy| FieldMatchView { relation, field: f.name, type_: Some(f.ty) },
        ),
        _ => seq![FieldMatchView { relation, field: relation, type_: Some(t) }],
    }
}

/// Whether `k` is the first position of `level` holding the field `name`.
pub open spec fn is_first_field(level: Seq<FieldMatchView>, name: Seq<char>, k: int) -> bool {
    &&& 0 <= k < level.len()
    &&& level[k].field == name
    &&& forall|j: int| 0 <= j < k ==> #[trigger] level[j].field != name
}

/// Whether `level` holds the field `name`.
pub open spec fn has_field(level: Seq<FieldMatchView>, name: Seq<char>) -> bool {
    exists|k: int| is_first_field(level, name, k)
}

/// The first position of `level` holding the field `name`.
pub open spec fn first_field(level: Seq<FieldMatchView>, name: Seq<char>) -> int {
    choose|k: int| is_first_field(level, name, k)
}

/// One field added to a level: a new name is appended; a name seen before keeps its
/// first place and loses its type.
pub open spec fn add_match(level: Seq<FieldMatchView>, m: FieldMatchView) -> Seq<FieldMatchView> {
    if has_field(level, m.field) {
        let k = first_field(level, m.field);
        level.update(k, FieldMatchView { relation: level[k].relation, field: level[k].field, type_: None })
    } else {
        level.push(m)
    }
}

/// The fields of one level, merged in order of first appearance.
pub open spec fn merge_matches(ms: Seq<FieldMatchView>) -> Seq<FieldMatchView>
    decreases ms.len(),
{
    if ms.len() == 0 {
        Seq::empty()
    } else {
        add_match(merge_matches(ms.drop_last()), ms.last())
    }
}

/// Whether a binding is taken under the relation filter.
pub open spec fn selected(b: Binding, filter: Option<Seq<char>>) -> bool {
    filter is None || b.name@ == filter->0
}

/// The fields that the selected relations of a level expose, relation after relation.
pub open spec fn level_matches(level: Seq<Binding>, cells: Cells<MType>, filter: Option<Seq<char>>) -> Seq<
    FieldMatchView,
>
    decreases level.len(),
{
    if level.len() == 0 {
        Seq::empty()
    } else {
        let rest = level_matches(level.drop_last(), cells, filter);
        let b = level.last();
        if selected(b, filter) {
            rest + row_matches(b.name@, cells.value(b.type_.index as int)@)
        } else {
            rest
        }
    }
}

/// The field tables of the levels, outermost first.
pub open spec fn available(levels: Seq<Seq<Binding>>, cells: Cells<MType>, filter: Option<Seq<char>>) -> Seq<
    Seq<FieldMatchView>,
> {
    levels.map_values(|level: Seq<Binding>| merge_matches(level_matches(level, cells, filter)))
}

/// Whether every binding of the levels names a cell of `cells`.
pub open spec fn cells_valid(levels: Seq<Seq<Binding>>, cells: Cells<MType>) -> bool {
    forall|l: int, k: int|
        0 <= l < levels.len() && 0 <= k < levels[l].len() ==> cells.valid(#[trigger] levels[l][k].type_)
}

/// Whether the type of every selected relation of the levels is known.
pub open spec fn all_known(levels: Seq<Seq<Binding>>, cells: Cells<MType>, filter: Option<Seq<char>>) -> bool {
    forall|l: int, k: int|
        0 <= l < levels.len() && 0 <= k < levels[l].len() && selected(#[trigger] levels[l][k], filter)
            ==> cells.known(levels[l][k].type_.index as int)
}

/// Whether the type of some selected relation of the levels is poisoned.
pub open spec fn any_poisoned(levels: Seq<Seq<Binding>>, cells: Cells<MType>, filter: Option<Seq<char>>) -> bool {
    exists|l: int, k: int|
        0 <= l < levels.len() && 0 <= k < levels[l].len() && selected(#[trigger] levels[l][k], filter)
            && cells.poison(levels[l][k].type_.index as int) is Some
}

/// The fields exposed by a relation named `relation` of type `t`.
pub fn row_fields(relation: &String, t: &MType) -> (r: Vec<FieldMatch>)
    ensures
        matches_view(r@) == row_matches(relation@, t@),
{
    match t {
        MType::Record(fields) => {
            proof {
                lemma_fields_ty(fields@);
            }
            let mut out: Vec<FieldMatch> = Vec::new();
            let mut i: usize = 0;
            while i < fields.len()
                invariant
                    *t == MType::Record(*fields),
                    i <= fields@.len(),
                    out@.len() == i,
                    fields_ty(fields@).len() == fields@.len(),
                    forall|j: int|
                        0 <= j < fields@.len() ==> #[trigger] fields_ty(fields@)[j] == (FieldTy {
                            name: fields@[j].name@,
                            ty: fields@[j].type_@,
                        }),
                    forall|j: int|
                        0 <= j < i ==> #[trigger] out@[j]@ == (FieldMatchView {
                            relation: relation@,
                            field: fields@[j].name@,
                            type_: Some(fields@[j].type_@),
                        }),
                decreases fields@.len() - i,
            {
                out.push(
                    FieldMatch {
                        relation: relation.clone(),
                        field: fields[i].name.clone(),
                        type_: Some(fields[i].type_.duplicate()),
                    },
                );
                i += 1;
            }
            assert(matches_view(out@) =~= row_matches(relation@, t@));
            out
        },
        _ => {
            let out = vec![FieldMatch { relation: relation.clone(), field: relation.clone(), type_: Some(t.duplicate()) }];
            assert(matches_view(out@) =~= row_matches(relation@, t@));
            out
        },
    }
}

/// Adds the field `m` to a level under construction, as `add_match` says.
fn push_match(level: &mut Vec<FieldMatch>, m: FieldMatch)
    ensures
        matches_view(final(level)@) == add_match(matches_view(old(level)@), m@),
{
    let ghost v = matches_view(level@);
    let mut k: usize = 0;
    while k < level.len()
        invariant
            v == matches_view(level@),
            v == matches_view(old(level)@),
            k <= level@.len(),
            forall|j: int| 0 <= j < k ==> #[trigger] level@[j].field@ != m.field@,
        decreases level@.len() - k,
    {
        if level[k].field == m.field {
            proof {
                assert(is_first_field(v, m.field@, k as int));
                let f = first_field(v, m.field@);
                assert(is_first_field(v, m.field@, f));
                if f < k {
                    assert(v[f].field != m.field@);
                }
                if f > k {
                    assert(v[k as int].field != m.field@);
                }
            }
            let kept = FieldMatch { relation: level[k].relation.clone(), field: level[k].field.clone(), type_: None };
            level.set(k, kept);
            assert(matches_view(level@) =~= add_match(v, m@));
            return;
        }
        k += 1;
    }
    assert(!has_field(v, m.field@));
    level.push(m);
    assert(matches_view(level@) =~= add_match(v, m@));
}

/// The value of a relation filter.
pub open spec fn filter_view(filter: Option<&String>) -> Option<Seq<char>> {
    match filter {
        Some(f) => Some(f@),
        None => None,
    }
}

/// Whether binding `b` is taken under the relation filter.
fn is_selected(b: &Binding, filter: Option<&String>) -> (r: bool)
    ensures
        r == selected(*b, filter_view(filter)),
{
    match filter {
        Some(f) => b.name == *f,
        None => true,
    }
}

/// A copy of a field match.
fn copy_match(m: &FieldMatch) -> (r: FieldMatch)
    ensures
        r@ == m@,
{
    FieldMatch {
        relation: m.relation.clone(),
        field: m.field.clone(),
        type_: match &m.type_ {
            Some(t) => Some(t.duplicate()),
            None => None,
        },
    }
}

/// The field table of one level whose selected relations all have known types.
fn level_refs(level: &Vec<Binding>, cells: &Cells<MType>, filter: Option<&String>) -> (r: Vec<FieldMatch>)
    requires
        cells.wf(),
        forall|k: int| 0 <= k < level@.len() ==> cells.valid(#[trigger] level@[k].type_),
        forall|k: int|
            0 <= k < level@.len() && selected(#[trigger] level@[k], filter_view(filter)) ==> cells.known(
                level@[k].type_.index as int,
            ),
    ensures
        matches_view(r@) == merge_matches(level_matches(level@, *cells, filter_view(filter))),
{
    let ghost fv = filter_view(filter);
    let mut acc: Vec<FieldMatch> = Vec::new();
    let mut i: usize = 0;
    while i < level.len()
        invariant
            cells.wf(),
            fv == filter_view(filter),
            forall|k: int| 0 <= k < level@.len() ==> cells.valid(#[trigger] level@[k].type_),
            forall|k: int|
                0 <= k < level@.len() && selected(#[trigger] level@[k], fv) ==> cells.known(
                    level@[k].type_.index as int,
                ),
            i <= level@.len(),
            matches_view(acc@) == merge_matches(level_matches(level@.subrange(0, i as int), *cells, fv)),
        decreases level@.len() - i,
    {
        let b = &level[i];
        let ghost before = level_matches(level@.subrange(0, i as int), *cells, fv);
        proof {
            assert(level@.subrange(0, i + 1).drop_last() =~= level@.subrange(0, i as int));
        }
        if is_selected(b, filter) {
            let t = match b.type_.must(cells) {
                Ok(t) => t,
                Err(_) => {
                    assert(false);
                    return acc;
                },
            };
            let rows = row_fields(&b.name, t);
            let ghost row = row_matches(b.name@, cells.value(b.type_.index as int)@);
            let mut j: usize = 0;
            while j < rows.len()
                invariant
                    matches_view(rows@) == row,
                    j <= rows@.len(),
                    matches_view(acc@) == merge_matches(before + row.subrange(0, j as int)),
                decreases rows@.len() - j,
            {
                let ghost flat = before + row.subrange(0, j as int);
                push_match(&mut acc, copy_match(&rows[j]));
                proof {
                    assert((before + row.subrange(0, j + 1)).drop_last() =~= flat);
                    assert((before + row.subrange(0, j + 1)).last() == rows@[j as int]@);
                }
                j += 1;
            }
            assert(row.subrange(0, rows@.len() as int) =~= row);
        } else {
        }
        i += 1;
    }
    assert(level@.subrange(0, level@.len() as int) =~= level@);
    acc
}

/// Whether the selected relations of one level are poisoned, or all known.
fn level_status(level: &Vec<Binding>, cells: &Cells<MType>, filter: Option<&String>) -> (r: Result<
    bool,
    CompileError,
>)
    requires
        cells.wf(),
        forall|k: int| 0 <= k < level@.len() ==> cells.valid(#[trigger] level@[k].type_),
    ensures
        r is Err <==> exists|k: int|
            0 <= k < level@.len() && selected(#[trigger] level@[k], filter_view(filter)) && cells.poison(
                level@[k].type_.index as int,
            ) is Some,
        r is Err ==> exists|k: int|
            0 <= k < level@.len() && selected(#[trigger] level@[k], filter_view(filter)) && cells.poison(
                level@[k].type_.index as int,
            ) is Some && cells.poison(level@[k].type_.index as int)->0@ == r->Err_0@,
        r is Ok ==> (r->Ok_0 <==> forall|k: int|
            0 <= k < level@.len() && selected(#[trigger] level@[k], filter_view(filter)) ==> cells.known(
                level@[k].type_.index as int,
            )),
{
    let mut ready = true;
    let mut i: usize = 0;
    while i < level.len()
        invariant
            cells.wf(),
            forall|k: int| 0 <= k < level@.len() ==> cells.valid(#[trigger] level@[k].type_),
            i <= level@.len(),
            forall|k: int|
                0 <= k < i && selected(#[trigger] level@[k], filter_view(filter)) ==> cells.poison(
                    level@[k].type_.index as int,
                ) is None,
            ready <==> forall|k: int|
                0 <= k < i && selected(#[trigger] level@[k], filter_view(filter)) ==> cells.known(
                    level@[k].type_.index as int,
                ),
        decreases level@.len() - i,
    {
        let b = &level[i];
        if is_selected(b, filter) {
            if let Some(e) = b.type_.poison(cells) {
                return Err(e.duplicate());
            }
            if !b.type_.is_known(cells) {
                ready = false;
            }
        }
        i += 1;
    }
    Ok(ready)
}

impl SQLScope {
    /// Whether the bindings of every level name cells of `cells`.
    pub open spec fn valid_in(&self, cells: Cells<MType>) -> bool {
        cells_valid(self.levels(), cells)
    }

    /// Whether the selected relations of the chain are poisoned, or all known.
    fn chain_status(&self, cells: &Cells<MType>, filter: Option<&String>) -> (r: Result<bool, CompileError>)
        requires
            self.wf(),
            cells.wf(),
            self.valid_in(*cells),
        ensures
            r is Err <==> any_poisoned(self.levels(), *cells, filter_view(filter)),
            r is Err ==> exists|l: int, k: int|
                0 <= l < self.levels().len() && 0 <= k < self.levels()[l].len() && selected(
                    #[trigger] self.levels()[l][k],
                    filter_view(filter),
                ) && cells.poison(self.levels()[l][k].type_.index as int) is Some && cells.poison(
                    self.levels()[l][k].type_.index as int,
                )->0@ == r->Err_0@,
            r is Ok ==> (r->Ok_0 <==> all_known(self.levels(), *cells, filter_view(filter))),
        decreases self,
    {
        proof {
            self.lemma_levels_wf();
        }
        let ghost levels = self.levels();
        let ghost n = levels.len() - 1;
        assert forall|k: int| 0 <= k < self.relations@.len() implies cells.valid(
            #[trigger] self.relations@[k].type_,
        ) by {
            assert(levels[n][k] == self.relations@[k]);
        }
        let here = level_status(&self.relations, cells, filter);
        let outer: Result<bool, CompileError> = match &self.parent {
            Some(p) => {
                assert(levels.drop_last() =~= (**p).levels());
                assert forall|l: int, k: int|
                    0 <= l < (**p).levels().len() && 0 <= k < (**p).levels()[l].len() implies cells.valid(
                    #[trigger] (**p).levels()[l][k].type_,
                ) by {
                    assert(levels[l][k] == (**p).levels()[l][k]);
                }
                (**p).chain_status(cells, filter)
            },
            None => Ok(true),
        };
        let ghost fv = filter_view(filter);
        match here {
            Err(e) => {
                proof {
                    let k = choose|k: int|
                        0 <= k < self.relations@.len() && selected(#[trigger] self.relations@[k], fv)
                            && cells.poison(self.relations@[k].type_.index as int) is Some && cells.poison(
                            self.relations@[k].type_.index as int,
                        )->0@ == e@;
                    assert(levels[n][k] == self.relations@[k]);
                }
                Err(e)
            },
            Ok(h) => {
                match outer {
                    Err(e) => {
                        proof {
                            match &self.parent {
                                Some(p) => {
                                    let (l, k) = choose|l: int, k: int|
                                        0 <= l < (**p).levels().len() && 0 <= k < (**p).levels()[l].len()
                                            && selected(#[trigger] (**p).levels()[l][k], fv) && cells.poison(
                                            (**p).levels()[l][k].type_.index as int,
                                        ) is Some && cells.poison(
                                            (**p).levels()[l][k].type_.index as int,
                                        )->0@ == e@;
                                    assert(levels[l][k] == (**p).levels()[l][k]);
                                },
                                None => {},
                            }
                        }
                        Err(e)
                    },
                    Ok(o) => {
                        proof {
                        assert(!any_poisoned(levels, *cells, fv)) by {
                            if any_poisoned(levels, *cells, fv) {
                                let (l, k) = choose|l: int, k: int|
                                    0 <= l < levels.len() && 0 <= k < levels[l].len() && selected(
                                        #[trigger] levels[l][k],
                                        fv,
                                    ) && cells.poison(levels[l][k].type_.index as int) is Some;
                                if l == n {
                                    assert(self.relations@[k] == levels[l][k]);
                                } else {
                                    match &self.parent {
                                        Some(p) => {
                                            assert(levels[l][k] == (**p).levels()[l][k]);
                                        },
                                        None => {},
                                    }
                                }
                            }
                        }
                        assert((h && o) <==> all_known(levels, *cells, fv)) by {
                            if h && o {
                                assert forall|l: int, k: int|
                                    0 <= l < levels.len() && 0 <= k < levels[l].len() && selected(
                                        #[trigger] levels[l][k],
                                        fv,
                                    ) implies cells.known(levels[l][k].type_.index as int) by {
                                    if l == n {
                                        assert(self.relations@[k] == levels[l][k]);
                                    } else {
                                        match &self.parent {
                                            Some(p) => {
                                                assert(levels[l][k] == (**p).levels()[l][k]);
                                            },
                                            None => {},
                                        }
                                    }
                                }
                            }
                            if all_known(levels, *cells, fv) {
                                assert forall|k: int|
                                    0 <= k < self.relations@.len() && selected(
                                        #[trigger] self.relations@[k],
                                        fv,
                                    ) implies cells.known(self.relations@[k].type_.index as int) by {
                                    assert(levels[n][k] == self.relations@[k]);
                                }
                                match &self.parent {
                                    Some(p) => {
                                        assert forall|l: int, k: int|
                                            0 <= l < (**p).levels().len() && 0 <= k < (**p).levels()[l].len()
                                                && selected(#[trigger] (**p).levels()[l][k], fv) implies cells.known(
                                            (**p).levels()[l][k].type_.index as int,
                                        ) by {
                                            assert(levels[l][k] == (**p).levels()[l][k]);
                                        }
                                    },
                                    None => {},
                                }
                            }
                        }
                        }
                        Ok(h && o)
                    },
                }
            },
        }
    }
}

/// The field tables of a chain of scopes, one per level, outermost first.
pub struct AvailableReferences {
    scopes: Vec<Vec<FieldMatch>>,
}

/// The values of a chain of field tables.
pub open spec fn tables_view(scopes: Seq<Vec<FieldMatch>>) -> Seq<Seq<FieldMatchView>> {
    scopes.map_values(|level: Vec<FieldMatch>| matches_view(level@))
}

/// The field that a bare `name` resolves to: its entry in the innermost (last) table
/// that has it.
pub open spec fn resolve(tables: Seq<Seq<FieldMatchView>>, name: Seq<char>) -> Option<FieldMatchView>
    decreases tables.len(),
{
    if tables.len() == 0 {
        None
    } else if has_field(tables.last(), name) {
        Some(tables.last()[first_field(tables.last(), name)])
    } else {
        resolve(tables.drop_last(), name)
    }
}

impl View for AvailableReferences {
    type V = Seq<Seq<FieldMatchView>>;

    closed spec fn view(&self) -> Seq<Seq<FieldMatchView>> {
        tables_view(self.scopes@)
    }
}

impl AvailableReferences {
    fn empty() -> (r: AvailableReferences)
        ensures
            r@ == Seq::<Seq<FieldMatchView>>::empty(),
    {
        let r = AvailableReferences { scopes: Vec::new() };
        assert(r@ =~= Seq::<Seq<FieldMatchView>>::empty());
        r
    }

    fn push(&mut self, scope: Vec<FieldMatch>)
        ensures
            final(self)@ == old(self)@.push(matches_view(scope@)),
    {
        self.scopes.push(scope);
        assert(self@ =~= old(self)@.push(matches_view(scope@)));
    }

    /// The field that a bare `name` resolves to, searching from the innermost level out.
    pub fn get(&self, name: &String) -> (r: Option<&FieldMatch>)
        ensures
            r is None <==> resolve(self@, name@) is None,
            r is Some ==> r->0@ == resolve(self@, name@)->0,
    {
        let mut i: usize = self.scopes.len();
        assert(self@.subrange(0, i as int) =~= self@);
        while i > 0
            invariant
                i <= self.scopes@.len(),
                resolve(self@, name@) == resolve(self@.subrange(0, i as int), name@),
            decreases i,
        {
            let level = &self.scopes[i - 1];
            let ghost t = matches_view(level@);
            let ghost pre = self@.subrange(0, i as int);
            assert(pre.last() == t);
            assert(pre.drop_last() =~= self@.subrange(0, i - 1));
            let mut k: usize = 0;
            while k < level.len()
                invariant
                    t == matches_view(level@),
                    pre.len() > 0,
                    pre.last() == t,
                    resolve(self@, name@) == resolve(pre, name@),
                    k <= level@.len(),
                    forall|j: int| 0 <= j < k ==> #[trigger] level@[j].field@ != name@,
                decreases level@.len() - k,
            {
                if level[k].field == *name {
                    proof {
                        assert(is_first_field(t, name@, k as int));
                        let f = first_field(t, name@);
                        if f < k {
                            assert(t[f].field != name@);
                        }
                        if f > k {
                            assert(t[k as int].field != name@);
                        }
                        assert(has_field(t, name@));
                        assert(resolve(pre, name@) == Some(t[k as int]));
                    }
                    return Some(&level[k]);
                }
                k += 1;
            }
            assert(!has_field(t, name@));
            i -= 1;
        }
        assert(self@.subrange(0, 0) =~= Seq::<Seq<FieldMatchView>>::empty());
        None
    }

    /// The field table of the innermost level.
    pub fn current_level(&self) -> (r: Option<&Vec<FieldMatch>>)
        ensures
            r is None <==> self@.len() == 0,
            r is Some ==> matches_view(r->0@) == self@.last(),
    {
        if self.scopes.len() == 0 {
            None
        } else {
            Some(&self.scopes[self.scopes.len() - 1])
        }
    }
}

impl SQLScope {
    fn collect(&self, cells: &Cells<MType>, filter: Option<&String>) -> (r: AvailableReferences)
        requires
            self.wf(),
            cells.wf(),
            self.valid_in(*cells),
            all_known(self.levels(), *cells, filter_view(filter)),
        ensures
            r@ == available(self.levels(), *cells, filter_view(filter)),
        decreases self,
    {
        proof {
            self.lemma_levels_wf();
        }
        let ghost levels = self.levels();
        let ghost n = levels.len() - 1;
        let ghost fv = filter_view(filter);
        let mut refs = match &self.parent {
            Some(p) => {
                assert(levels.drop_last() =~= (**p).levels());
                assert forall|l: int, k: int|
                    0 <= l < (**p).levels().len() && 0 <= k < (**p).levels()[l].len() implies cells.valid(
                    #[trigger] (**p).levels()[l][k].type_,
                ) && (selected((**p).levels()[l][k], fv) ==> cells.known(
                    (**p).levels()[l][k].type_.index as int,
                )) by {
                    assert(levels[l][k] == (**p).levels()[l][k]);
                }
                (**p).collect(cells, filter)
            },
            None => AvailableReferences::empty(),
        };
        assert forall|k: int| 0 <= k < self.relations@.len() implies cells.valid(
            #[trigger] self.relations@[k].type_,
        ) && (selected(self.relations@[k], fv) ==> cells.known(self.relations@[k].type_.index as int)) by {
            assert(levels[n][k] == self.relations@[k]);
        }
        let here = level_refs(&self.relations, cells, filter);
        refs.push(here);
        assert(refs@ =~= available(levels, *cells, fv)) by {
            match &self.parent {
                Some(p) => {
                    assert(levels =~= (**p).levels().push(self.relations@));
                },
                None => {
                    assert(levels =~= seq![self.relations@]);
                },
            }
        }
        refs
    }

    /// The field tables that names in this scope resolve against, one per level,
    /// outermost first; with `relation`, only that relation's fields are taken. A relation
    /// field appears once per level, in order of first appearance; a name exposed twice
    /// in one level has no type. When a selected relation's type is poisoned, that error
    /// is returned; when all are known, the tables; otherwise nothing yet.
    pub fn get_available_references(&self, cells: &Cells<MType>, relation: Option<&String>) -> (r: Result<
        Option<AvailableReferences>,
        CompileError,
    >)
        requires
            self.wf(),
            cells.wf(),
            self.valid_in(*cells),
        ensures
            r is Err <==> any_poisoned(self.levels(), *cells, filter_view(relation)),
            r is Err ==> exists|l: int, k: int|
                0 <= l < self.levels().len() && 0 <= k < self.levels()[l].len() && selected(
                    #[trigger] self.levels()[l][k],
                    filter_view(relation),
                ) && cells.poison(self.levels()[l][k].type_.index as int) is Some && cells.poison(
                    self.levels()[l][k].type_.index as int,
                )->0@ == r->Err_0@,
            r is Ok ==> (r->Ok_0 is Some <==> all_known(self.levels(), *cells, filter_view(relation))),
            r is Ok && r->Ok_0 is Some ==> r->Ok_0->0@ == available(
                self.levels(),
                *cells,
                filter_view(relation),
            ),
    {
        match self.chain_status(cells, relation) {
            Err(e) => Err(e),
            Ok(false) => Ok(None),
            Ok(true) => Ok(Some(self.collect(cells, relation))),
        }
    }
}

/// Name paths referenced in a query that no scope has bound yet.
#[derive(Debug)]
pub struct SQLNames {
    pub unbound: Vec<Vec<String>>,
}

/// The values of a list of name paths.
pub open spec fn paths_view(paths: Seq<Vec<String>>) -> Seq<Seq<Seq<char>>> {
    paths.map_values(|p: Vec<String>| path_view(p@))
}

/// Whether a type is a record with a field named `f`.
pub open spec fn record_has(t: Ty, f: Seq<char>) -> bool {
    match t {
        Ty::Record(fields) => exists|j: int| 0 <= j < fields.len() && #[trigger] fields[j].name == f,
        _ => false,
    }
}

/// Whether binding `k` of a level has a record type with a field named `f`.
pub open spec fn binding_has(level: Seq<Binding>, cells: Cells<MType>, k: int, f: Seq<char>) -> bool {
    record_has(cells.value(level[k].type_.index as int)@, f)
}

/// Whether exactly one relation of the level has a record type with a field named `f`.
pub open spec fn exposed_once(level: Seq<Binding>, cells: Cells<MType>, f: Seq<char>) -> bool {
    exists|k: int|
        0 <= k < level.len() && #[trigger] binding_has(level, cells, k, f) && forall|j: int|
            0 <= j < level.len() && j != k ==> !#[trigger] binding_has(level, cells, j, f)
}

/// Whether a level explains a name path: the path names one of its relations; or it is
/// `relation.field` for a relation whose record type has that field; or it is a bare
/// field that exactly one of its record relations has.
pub open spec fn explains(level: Seq<Binding>, cells: Cells<MType>, path: Seq<Seq<char>>) -> bool {
    ||| path.len() == 1 && binds(level, path[0])
    ||| path.len() == 1 && exposed_once(level, cells, path[0])
    ||| path.len() == 2 && exists|k: int|
        0 <= k < level.len() && #[trigger] level[k].name@ == path[0] && binding_has(
            level,
            cells,
            k,
            path[1],
        )
}

/// The paths that a level does not explain, in their order.
pub open spec fn unexplained(level: Seq<Binding>, cells: Cells<MType>, paths: Seq<Seq<Seq<char>>>) -> Seq<
    Seq<Seq<char>>,
>
    decreases paths.len(),
{
    if paths.len() == 0 {
        paths
    } else {
        let rest = unexplained(level, cells, paths.drop_last());
        if explains(level, cells, paths.last()) {
            rest
        } else {
            rest.push(paths.last())
        }
    }
}

/// Whether `t` is a record with a field named `f`.
fn has_record_field(t: &MType, f: &String) -> (r: bool)
    ensures
        r == record_has(t@, f@),
{
    match t {
        MType::Record(fields) => {
            proof {
                lemma_fields_ty(fields@);
            }
            let mut i: usize = 0;
            while i < fields.len()
                invariant
                    *t == MType::Record(*fields),
                    i <= fields@.len(),
                    fields_ty(fields@).len() == fields@.len(),
                    forall|j: int|
                        0 <= j < fields@.len() ==> #[trigger] fields_ty(fields@)[j] == (FieldTy {
                            name: fields@[j].name@,
                            ty: fields@[j].type_@,
                        }),
                    forall|j: int| 0 <= j < i ==> #[trigger] fields@[j].name@ != f@,
                decreases fields@.len() - i,
            {
                if fields[i].name == *f {
                    assert(fields_ty(fields@)[i as int].name == f@);
                    return true;
                }
                i += 1;
            }
            assert forall|j: int| 0 <= j < fields_ty(fields@).len() implies #[trigger] fields_ty(
                fields@,
            )[j].name != f@ by {
                assert(fields@[j].name@ != f@);
            }
            false
        },
        _ => false,
    }
}

/// Whether a level whose relations all have known types explains `path`.
fn level_explains(level: &Vec<Binding>, cells: &Cells<MType>, path: &Vec<String>) -> (r: bool)
    requires
        cells.wf(),
        forall|k: int|
            0 <= k < level@.len() ==> cells.valid(#[trigger] level@[k].type_) && cells.known(
                level@[k].type_.index as int,
            ),
    ensures
        r == explains(level@, *cells, path_view(path@)),
{
    let ghost pv = path_view(path@);
    if path.len() == 1 {
        let mut owner: Option<usize> = None;
        let mut twice = false;
        let mut i: usize = 0;
        while i < level.len()
            invariant
                cells.wf(),
                forall|k: int|
                    0 <= k < level@.len() ==> cells.valid(#[trigger] level@[k].type_) && cells.known(
                        level@[k].type_.index as int,
                    ),
                path@.len() == 1,
                pv == path_view(path@),
                i <= level@.len(),
                forall|j: int| 0 <= j < i ==> #[trigger] level@[j].name@ != pv[0],
                owner is None ==> forall|j: int| 0 <= j < i ==> !#[trigger] binding_has(level@, *cells, j, pv[0]),
                owner is Some ==> owner->0 < i && binding_has(level@, *cells, owner->0 as int, pv[0]),
                owner is Some ==> (twice <==> exists|j: int|
                    0 <= j < i && j != owner->0 && #[trigger] binding_has(level@, *cells, j, pv[0])),
                owner is None ==> !twice,
            decreases level@.len() - i,
        {
            let b = &level[i];
            if b.name == path[0] {
                proof {
                    assert(level@[i as int].name@ == pv[0]);
                }
                return true;
            }
            let t = match b.type_.must(cells) {
                Ok(t) => t,
                Err(_) => {
                    assert(false);
                    return false;
                },
            };
            let has = has_record_field(t, &path[0]);
            assert(path[0]@ == pv[0]);
            assert(has == binding_has(level@, *cells, i as int, pv[0]));
            if has {
                match owner {
                    None => {
                        owner = Some(i);
                    },
                    Some(_) => {
                        twice = true;
                    },
                }
            }
            i += 1;
        }
        assert(!binds(level@, pv[0]));
        match owner {
            None => {
                assert(!exposed_once(level@, *cells, pv[0]));
                false
            },
            Some(k) => {
                if twice {
                    assert(!exposed_once(level@, *cells, pv[0])) by {
                        let j = choose|j: int|
                            0 <= j < level@.len() && j != k && #[trigger] binding_has(level@, *cells, j, pv[0]);
                        if exposed_once(level@, *cells, pv[0]) {
                            let m = choose|m: int|
                                0 <= m < level@.len() && #[trigger] binding_has(level@, *cells, m, pv[0])
                                    && forall|x: int|
                                    0 <= x < level@.len() && x != m ==> !#[trigger] binding_has(
                                        level@,
                                        *cells,
                                        x,
                                        pv[0],
                                    );
                            if m == k {
                                assert(binding_has(level@, *cells, j, pv[0]));
                            } else {
                                assert(binding_has(level@, *cells, k as int, pv[0]));
                            }
                        }
                    }
                    false
                } else {
                    assert(exposed_once(level@, *cells, pv[0])) by {
                        assert(binding_has(level@, *cells, k as int, pv[0]));
                    }
                    true
                }
            },
        }
    } else if path.len() == 2 {
        let mut i: usize = 0;
        while i < level.len()
            invariant
                cells.wf(),
                forall|k: int|
                    0 <= k < level@.len() ==> cells.valid(#[trigger] level@[k].type_) && cells.known(
                        level@[k].type_.index as int,
                    ),
                path@.len() == 2,
                pv == path_view(path@),
                i <= level@.len(),
                forall|j: int|
                    0 <= j < i ==> !(#[trigger] level@[j].name@ == pv[0] && binding_has(
                        level@,
                        *cells,
                        j,
                        pv[1],
                    )),
            decreases level@.len() - i,
        {
            let b = &level[i];
            if b.name == path[0] {
                let t = match b.type_.must(cells) {
                    Ok(t) => t,
                    Err(_) => {
                        assert(false);
                        return false;
                    },
                };
                if has_record_field(t, &path[1]) {
                    assert(level@[i as int].name@ == pv[0]);
                    return true;
                }
            }
            i += 1;
        }
        false
    } else {
        false
    }
}

impl SQLScope {
    /// The unbound paths that this level does not explain. A correlated subquery walks
    /// this outward through its enclosing scopes, leaving the names it must receive from
    /// them. When a relation of this level has a poisoned type, that error is returned;
    /// when some type is not known yet, nothing yet.
    pub fn remove_bound_references(&self, cells: &Cells<MType>, names: &SQLNames) -> (r: Result<
        Option<SQLNames>,
        CompileError,
    >)
        requires
            self.wf(),
            cells.wf(),
            self.valid_in(*cells),
        ensures
            r is Err <==> exists|k: int|
                0 <= k < self.levels().last().len() && cells.poison(
                    #[trigger] self.levels().last()[k].type_.index as int,
                ) is Some,
            r is Err ==> exists|k: int|
                0 <= k < self.levels().last().len() && cells.poison(
                    #[trigger] self.levels().last()[k].type_.index as int,
                ) is Some && cells.poison(self.levels().last()[k].type_.index as int)->0@
                    == r->Err_0@,
            r is Ok ==> (r->Ok_0 is Some <==> forall|k: int|
                0 <= k < self.levels().last().len() ==> cells.known(
                    #[trigger] self.levels().last()[k].type_.index as int,
                )),
            r is Ok && r->Ok_0 is Some ==> paths_view(r->Ok_0->0.unbound@) == unexplained(
                self.levels().last(),
                *cells,
                paths_view(names.unbound@),
            ),
    {
        proof {
            self.lemma_levels_wf();
        }
        let ghost level = self.relations@;
        let ghost n = self.levels().len() - 1;
        assert forall|k: int| 0 <= k < level.len() implies cells.valid(#[trigger] level[k].type_) by {
            assert(self.levels()[n][k] == level[k]);
        }
        match level_status(&self.relations, cells, None) {
            Err(e) => {
                return Err(e);
            },
            Ok(false) => {
                return Ok(None);
            },
            Ok(true) => {},
        }
        let ghost input = paths_view(names.unbound@);
        let mut out: Vec<Vec<String>> = Vec::new();
        let mut i: usize = 0;
        while i < names.unbound.len()
            invariant
                cells.wf(),
                level == self.relations@,
                input == paths_view(names.unbound@),
                forall|k: int|
                    0 <= k < level.len() ==> cells.valid(#[trigger] level[k].type_) && cells.known(
                        level[k].type_.index as int,
                    ),
                i <= names.unbound@.len(),
                paths_view(out@) == unexplained(level, *cells, input.subrange(0, i as int)),
            decreases names.unbound@.len() - i,
        {
            let path = &names.unbound[i];
            let explained = level_explains(&self.relations, cells, path);
            proof {
                assert(input.subrange(0, i + 1).drop_last() =~= input.subrange(0, i as int));
                assert(input.subrange(0, i + 1).last() == path_view(path@));
            }
            if !explained {
                out.push(copy_path(path));
                assert(paths_view(out@) =~= unexplained(level, *cells, input.subrange(0, i + 1)));
            }
            i += 1;
        }
        assert(input.subrange(0, input.len() as int) =~= input);
        Ok(Some(SQLNames { unbound: out }))
    }
}

} // verus!
