//! Applying a definition file's directives: variable tables with their
//! precedence rules, inheritance with re-pointed primitives, and baking every
//! file once, parents first.

use vstd::prelude::*;
use crate::model::{Cullable, MeshElement, PreBakedModel, Texturing};

verus! {

/// A variable as the resolver sees it: name, bound expression, and whether
/// the file declared it itself (rather than inheriting it).
pub type VarView = (Seq<char>, Seq<char>, bool);

/// Everything known of a file while its directives are applied: its
/// variable table, its primitives, and its transparency flag.
pub type BakeState = (Seq<VarView>, Seq<PreBakedModel>, bool);

pub open spec fn vars_view(v: Seq<(String, String, bool)>) -> Seq<VarView> {
    v.map_values(|e: (String, String, bool)| (e.0@, e.1@, e.2))
}

pub open spec fn params_view(p: Seq<(String, String)>) -> Seq<(Seq<char>, Seq<char>)> {
    p.map_values(|e: (String, String)| (e.0@, e.1@))
}

/// What a load fails with.
pub enum LoadError {
    /// A directive names a variable that the table does not hold.
    UnresolvedVariable(String),
    /// A chain of `#name` references comes back to a name; the chain in
    /// order, ending with the repeated name.
    CyclicIndirection(Vec<String>),
    /// An `Inherit` names a file that is not among the definitions.
    MissingInheritedFile(String),
    /// An `Inherit` chain comes back to a file that is still being loaded.
    InheritanceCycle(String),
}

/// The content of a `LoadError`.
pub enum LoadErrorView {
    UnresolvedVariable(Seq<char>),
    CyclicIndirection(Seq<Seq<char>>),
    MissingInheritedFile(Seq<char>),
    InheritanceCycle(Seq<char>),
}

impl View for LoadError {
    type V = LoadErrorView;

    open spec fn view(&self) -> LoadErrorView {
        match self {
            LoadError::UnresolvedVariable(s) => LoadErrorView::UnresolvedVariable(s@),
            LoadError::CyclicIndirection(v) => LoadErrorView::CyclicIndirection(
                v@.map_values(|s: String| s@),
            ),
            LoadError::MissingInheritedFile(s) => LoadErrorView::MissingInheritedFile(s@),
            LoadError::InheritanceCycle(s) => LoadErrorView::InheritanceCycle(s@),
        }
    }
}

/// The position of the first variable called `name`, or -1.
pub open spec fn find_var(vars: Seq<VarView>, name: Seq<char>) -> int
    decreases vars.len(),
{
    if vars.len() == 0 {
        -1
    } else {
        let r = find_var(vars.drop_last(), name);
        if r >= 0 {
            r
        } else if vars.last().0 == name {
            vars.len() - 1
        } else {
            -1
        }
    }
}

pub proof fn lemma_find_var(vars: Seq<VarView>, name: Seq<char>)
    ensures
        -1 <= find_var(vars, name) < vars.len(),
        find_var(vars, name) >= 0 ==> vars[find_var(vars, name)].0 == name,
        forall|j: int| 0 <= j < vars.len() && j < find_var(vars, name) ==> vars[j].0 != name,
        find_var(vars, name) < 0 ==> forall|j: int| 0 <= j < vars.len() ==> vars[j].0 != name,
    decreases vars.len(),
{
    if vars.len() > 0 {
        let p = vars.drop_last();
        lemma_find_var(p, name);
        assert forall|j: int| 0 <= j < p.len() implies p[j] == vars[j] by {}
    }
}

/// Binds `name` as the file's own declaration: a first own binding wins
/// over later ones, and any own binding wins over an inherited one, whose
/// place in the table it takes.
pub open spec fn add_own(vars: Seq<VarView>, name: Seq<char>, value: Seq<char>) -> Seq<VarView> {
    let i = find_var(vars, name);
    if i < 0 {
        vars.push((name, value, true))
    } else if vars[i].2 {
        vars
    } else {
        vars.update(i, (name, value, true))
    }
}

/// Applies the bindings of one `Params` directive in order.
pub open spec fn add_params(vars: Seq<VarView>, ps: Seq<(Seq<char>, Seq<char>)>) -> Seq<VarView>
    decreases ps.len(),
{
    if ps.len() == 0 {
        vars
    } else {
        let m = add_params(vars, ps.drop_last());
        add_own(m, ps.last().0, ps.last().1)
    }
}

/// Merges a parent's table: each of its names that the table lacks is
/// appended as inherited; names already present keep their binding.
pub open spec fn merge_parent(vars: Seq<VarView>, parent: Seq<VarView>) -> Seq<VarView>
    decreases parent.len(),
{
    if parent.len() == 0 {
        vars
    } else {
        let m = merge_parent(vars, parent.drop_last());
        if find_var(m, parent.last().0) >= 0 {
            m
        } else {
            m.push((parent.last().0, parent.last().1, false))
        }
    }
}

/// A parent's primitive re-pointed into the merged table: its texture
/// variable is looked up by name, not by its old position.
pub open spec fn repoint(vars: Seq<VarView>, parent: Seq<VarView>, m: PreBakedModel) -> PreBakedModel {
    if m.texture() < parent.len() {
        let i = find_var(vars, parent[m.texture() as int].0);
        if i >= 0 {
            m.with_texture(i as usize)
        } else {
            m
        }
    } else {
        m
    }
}

/// A file's own binding of a name wins over an inherited one, whichever of
/// the two directives comes first: binding `name` and then merging a parent
/// that also binds it, or merging first and binding after, both leave `name`
/// bound to the file's own value. The table must not already hold an own
/// binding of `name`.
pub proof fn law_own_binding_wins(vars: Seq<VarView>, parent: Seq<VarView>, name: Seq<char>, value: Seq<char>)
    requires
        forall|i: int| 0 <= i < vars.len() ==> !(vars[i].0 == name && vars[i].2),
    ensures
        ({
            let t = merge_parent(add_own(vars, name, value), parent);
            find_var(t, name) >= 0 && t[find_var(t, name)].1 == value
        }),
        ({
            let t = add_own(merge_parent(vars, parent), name, value);
            find_var(t, name) >= 0 && t[find_var(t, name)].1 == value
        }),
{
    let a = add_own(vars, name, value);
    lemma_add_own_binds(vars, name, value);
    lemma_merge_keeps(a, parent, name);
    lemma_merge_no_own(vars, parent, name);
    lemma_add_own_binds(merge_parent(vars, parent), name, value);
}

/// Binding `name` as the file's own, where it has no own binding yet,
/// leaves it bound to `value`.
proof fn lemma_add_own_binds(vars: Seq<VarView>, name: Seq<char>, value: Seq<char>)
    requires
        forall|i: int| 0 <= i < vars.len() ==> !(vars[i].0 == name && vars[i].2),
    ensures
        find_var(add_own(vars, name, value), name) >= 0,
        add_own(vars, name, value)[find_var(add_own(vars, name, value), name)].1 == value,
{
    let a = add_own(vars, name, value);
    lemma_find_var(vars, name);
    lemma_find_var(a, name);
    let i = find_var(vars, name);
    if i < 0 {
        assert(a[a.len() - 1].0 == name);
        assert forall|j: int| 0 <= j < a.len() - 1 implies a[j].0 != name by {
            assert(a[j] == vars[j]);
        }
    } else {
        assert(!vars[i].2);
        assert(a[i].0 == name);
        assert forall|j: int| 0 <= j < i implies a[j].0 != name by {
            assert(a[j] == vars[j]);
        }
    }
}

/// Merging never changes an existing binding of `name`.
proof fn lemma_merge_keeps(vars: Seq<VarView>, parent: Seq<VarView>, name: Seq<char>)
    requires
        find_var(vars, name) >= 0,
    ensures
        find_var(merge_parent(vars, parent), name) == find_var(vars, name),
        merge_parent(vars, parent)[find_var(vars, name)] == vars[find_var(vars, name)],
        vars.len() <= merge_parent(vars, parent).len(),
    decreases parent.len(),
{
    lemma_find_var(vars, name);
    if parent.len() > 0 {
        let m = merge_parent(vars, parent.drop_last());
        lemma_merge_keeps(vars, parent.drop_last(), name);
        lemma_find_var(m, name);
        if find_var(m, parent.last().0) < 0 {
            let t = m.push((parent.last().0, parent.last().1, false));
            lemma_find_var(t, name);
            assert(t.drop_last() == m);
        }
    }
}

/// Merging adds no own binding.
proof fn lemma_merge_no_own(vars: Seq<VarView>, parent: Seq<VarView>, name: Seq<char>)
    requires
        forall|i: int| 0 <= i < vars.len() ==> !(vars[i].0 == name && vars[i].2),
    ensures
        forall|i: int|
            0 <= i < merge_parent(vars, parent).len() ==> !(merge_parent(vars, parent)[i].0 == name
                && merge_parent(vars, parent)[i].2),
    decreases parent.len(),
{
    if parent.len() > 0 {
        lemma_merge_no_own(vars, parent.drop_last(), name);
        let m = merge_parent(vars, parent.drop_last());
        if find_var(m, parent.last().0) < 0 {
            let t = m.push((parent.last().0, parent.last().1, false));
            assert forall|i: int| 0 <= i < m.len() implies t[i] == m[i] by {}
        }
    }
}

/// A file whose directives have been applied.
pub struct BakedFile {
    pub path: String,
    /// The position of the definition it was made from.
    pub source: usize,
    pub variables: Vec<(String, String, bool)>,
    pub models: Vec<PreBakedModel>,
    pub transparent: bool,
}

impl BakedFile {
    pub open spec fn state(self) -> BakeState {
        (vars_view(self.variables@), self.models@, self.transparent)
    }
}

/// The position of the first baked file at `path`, or -1.
pub open spec fn find_file(cache: Seq<BakedFile>, path: Seq<char>) -> int
    decreases cache.len(),
{
    if cache.len() == 0 {
        -1
    } else {
        let r = find_file(cache.drop_last(), path);
        if r >= 0 {
            r
        } else if cache.last().path@ == path {
            cache.len() - 1
        } else {
            -1
        }
    }
}

pub proof fn lemma_find_file(cache: Seq<BakedFile>, path: Seq<char>)
    ensures
        -1 <= find_file(cache, path) < cache.len(),
        find_file(cache, path) >= 0 ==> cache[find_file(cache, path)].path@ == path,
        forall|j: int| 0 <= j < cache.len() && j < find_file(cache, path) ==> cache[j].path@ != path,
        find_file(cache, path) < 0 ==> forall|j: int| 0 <= j < cache.len() ==> cache[j].path@ != path,
    decreases cache.len(),
{
    if cache.len() > 0 {
        let p = cache.drop_last();
        lemma_find_file(p, path);
        assert forall|j: int| 0 <= j < p.len() implies p[j] == cache[j] by {}
    }
}

/// The primitive that a texture-using directive adds once its binding is
/// found at position `i`.
pub open spec fn primitive_of(d: MeshElement, i: usize) -> PreBakedModel {
    match d {
        MeshElement::Face { n, shape, t, cullable } => PreBakedModel::Face {
            n,
            shape,
            t: (i, t.clip),
            cullable,
        },
        MeshElement::MeshImport { shape, t, cullable } => PreBakedModel::Mesh {
            shape,
            t: (i, t.clip),
            cullable,
        },
        MeshElement::Mesh { shape, t } => PreBakedModel::Mesh {
            shape,
            t: (i, t.clip),
            cullable: Cullable::Never,
        },
        _ => arbitrary(),
    }
}

/// The texture binding of a texture-using directive.
pub open spec fn binding_of(d: MeshElement) -> Seq<char> {
    match d {
        MeshElement::Face { t, .. } => t.src@,
        MeshElement::MeshImport { t, .. } => t.src@,
        MeshElement::Mesh { t, .. } => t.src@,
        _ => Seq::empty(),
    }
}

/// Applies one directive. Parents are looked up among the baked files.
pub open spec fn step(st: BakeState, d: MeshElement, cache: Seq<BakedFile>) -> Result<BakeState, LoadErrorView> {
    let (vars, models, transparent) = st;
    match d {
        MeshElement::Params(ps) => Ok((add_params(vars, params_view(ps@)), models, transparent)),
        MeshElement::Inherit(p) => {
            let j = find_file(cache, p@);
            if j < 0 {
                Err(LoadErrorView::MissingInheritedFile(p@))
            } else {
                let pv = vars_view(cache[j].variables@);
                let merged = merge_parent(vars, pv);
                Ok(
                    (
                        merged,
                        models + cache[j].models@.map_values(
                            |m: PreBakedModel| repoint(merged, pv, m),
                        ),
                        transparent,
                    ),
                )
            }
        },
        MeshElement::Transparent(t) => Ok((vars, models, t)),
        _ => {
            let i = find_var(vars, binding_of(d));
            if i < 0 {
                Err(LoadErrorView::UnresolvedVariable(binding_of(d)))
            } else {
                Ok((vars, models.push(primitive_of(d, i as usize)), transparent))
            }
        },
    }
}

/// Applies directives in order from an empty table; the first error stops.
pub open spec fn fold(ds: Seq<MeshElement>, cache: Seq<BakedFile>) -> Result<BakeState, LoadErrorView>
    decreases ds.len(),
{
    if ds.len() == 0 {
        Ok((Seq::empty(), Seq::empty(), false))
    } else {
        match fold(ds.drop_last(), cache) {
            Ok(st) => step(st, ds.last(), cache),
            Err(e) => Err(e),
        }
    }
}

pub proof fn lemma_fold_error_sticks(ds: Seq<MeshElement>, cache: Seq<BakedFile>, k: int)
    requires
        0 <= k <= ds.len(),
        fold(ds.take(k), cache) is Err,
    ensures
        fold(ds, cache) == fold(ds.take(k), cache),
    decreases ds.len() - k,
{
    if k < ds.len() {
        assert(ds.take(k + 1).drop_last() == ds.take(k));
        lemma_fold_error_sticks(ds, cache, k + 1);
    } else {
        assert(ds.take(k) == ds);
    }
}

pub(crate) fn string_eq(a: &String, b: &String) -> (r: bool)
    ensures
        r == (a@ == b@),
{
    *a == *b
}

pub(crate) fn find_var_exec(vars: &Vec<(String, String, bool)>, name: &String) -> (r: Option<usize>)
    ensures
        r is None <==> find_var(vars_view(vars@), name@) < 0,
        r matches Some(i) ==> i == find_var(vars_view(vars@), name@) && i < vars@.len(),
{
    proof {
        lemma_find_var(vars_view(vars@), name@);
    }
    let n = vars.len();
    let mut i: usize = 0;
    while i < n
        invariant
            n == vars@.len(),
            i <= n,
            forall|j: int| 0 <= j < i ==> vars_view(vars@)[j].0 != name@,
            -1 <= find_var(vars_view(vars@), name@) < n,
            find_var(vars_view(vars@), name@) >= 0 ==> vars_view(vars@)[find_var(vars_view(vars@), name@)].0 == name@,
            forall|j: int| 0 <= j < n && j < find_var(vars_view(vars@), name@) ==> vars_view(vars@)[j].0 != name@,
            find_var(vars_view(vars@), name@) < 0 ==> forall|j: int| 0 <= j < n ==> vars_view(vars@)[j].0 != name@,
        decreases n - i,
    {
        if string_eq(&vars[i].0, name) {
            assert(vars_view(vars@)[i as int].0 == name@);
            return Some(i);
        }
        i = i + 1;
    }
    None
}

fn add_own_exec(vars: &mut Vec<(String, String, bool)>, name: &String, value: &String)
    ensures
        vars_view(final(vars)@) == add_own(vars_view(old(vars)@), name@, value@),
{
    proof {
        lemma_find_var(vars_view(vars@), name@);
    }
    match find_var_exec(vars, name) {
        None => {
            vars.push((name.clone(), value.clone(), true));
            assert(vars_view(vars@) =~= add_own(vars_view(old(vars)@), name@, value@));
        },
        Some(i) => {
            if !vars[i].2 {
                vars.set(i, (name.clone(), value.clone(), true));
                assert(vars_view(vars@) =~= add_own(vars_view(old(vars)@), name@, value@));
            }
        },
    }
}

fn add_params_exec(vars: &mut Vec<(String, String, bool)>, ps: &Vec<(String, String)>)
    ensures
        vars_view(final(vars)@) == add_params(vars_view(old(vars)@), params_view(ps@)),
{
    let n = ps.len();
    let mut k: usize = 0;
    while k < n
        invariant
            n == ps@.len(),
            k <= n,
            vars_view(vars@) == add_params(vars_view(old(vars)@), params_view(ps@).take(k as int)),
        decreases n - k,
    {
        assert(params_view(ps@).take(k + 1).drop_last() == params_view(ps@).take(k as int));
        add_own_exec(vars, &ps[k].0, &ps[k].1);
        k = k + 1;
    }
    assert(params_view(ps@).take(n as int) == params_view(ps@));
}

fn merge_parent_exec(vars: &mut Vec<(String, String, bool)>, parent: &Vec<(String, String, bool)>)
    ensures
        vars_view(final(vars)@) == merge_parent(vars_view(old(vars)@), vars_view(parent@)),
{
    let n = parent.len();
    let mut k: usize = 0;
    while k < n
        invariant
            n == parent@.len(),
            k <= n,
            vars_view(vars@) == merge_parent(vars_view(old(vars)@), vars_view(parent@).take(k as int)),
        decreases n - k,
    {
        assert(vars_view(parent@).take(k + 1).drop_last() == vars_view(parent@).take(k as int));
        let ghost before = vars_view(vars@);
        match find_var_exec(vars, &parent[k].0) {
            Some(_) => {},
            None => {
                vars.push((parent[k].0.clone(), parent[k].1.clone(), false));
                assert(vars_view(vars@) =~= before.push((parent@[k as int].0@, parent@[k as int].1@, false)));
            },
        }
        k = k + 1;
    }
    assert(vars_view(parent@).take(n as int) == vars_view(parent@));
}

fn repoint_exec(vars: &Vec<(String, String, bool)>, parent: &Vec<(String, String, bool)>, m: PreBakedModel) -> (r: PreBakedModel)
    ensures
        r == repoint(vars_view(vars@), vars_view(parent@), m),
{
    let t = m.texture_index();
    if t < parent.len() {
        match find_var_exec(vars, &parent[t].0) {
            Some(i) => m.set_texture_index(i),
            None => m,
        }
    } else {
        m
    }
}

fn binding_exec(d: &MeshElement) -> (r: &String)
    requires
        d is Face || d is MeshImport || d is Mesh,
    ensures
        r@ == binding_of(*d),
{
    match d {
        MeshElement::Face { t, .. } => &t.src,
        MeshElement::MeshImport { t, .. } => &t.src,
        MeshElement::Mesh { t, .. } => &t.src,
        _ => unreached(),
    }
}

fn primitive_exec(d: &MeshElement, i: usize) -> (r: PreBakedModel)
    requires
        d is Face || d is MeshImport || d is Mesh,
    ensures
        r == primitive_of(*d, i),
{
    match d {
        MeshElement::Face { n, shape, t, cullable } => PreBakedModel::Face {
            n: *n,
            shape: *shape,
            t: (i, t.clip),
            cullable: *cullable,
        },
        MeshElement::MeshImport { shape, t, cullable } => PreBakedModel::Mesh {
            shape: *shape,
            t: (i, t.clip),
            cullable: *cullable,
        },
        MeshElement::Mesh { shape, t } => PreBakedModel::Mesh {
            shape: *shape,
            t: (i, t.clip),
            cullable: Cullable::Never,
        },
        _ => unreached(),
    }
}

/// Applies the directives of one file in order, looking parents up among
/// `cache`.
pub fn apply_directives(ds: &Vec<MeshElement>, cache: &Vec<BakedFile>) -> (r: Result<
    (Vec<(String, String, bool)>, Vec<PreBakedModel>, bool),
    LoadError,
>)
    ensures
        r matches Ok(st) ==> fold(ds@, cache@) == Ok::<BakeState, LoadErrorView>((vars_view(st.0@), st.1@, st.2)),
        r matches Err(e) ==> fold(ds@, cache@) == Err::<BakeState, LoadErrorView>(e@),
{
    let mut vars: Vec<(String, String, bool)> = Vec::new();
    let mut models: Vec<PreBakedModel> = Vec::new();
    let mut transparent = false;
    let n = ds.len();
    let mut k: usize = 0;
    assert(vars_view(vars@) =~= Seq::<VarView>::empty());
    while k < n
        invariant
            n == ds@.len(),
            k <= n,
            fold(ds@.take(k as int), cache@) == Ok::<BakeState, LoadErrorView>((vars_view(vars@), models@, transparent)),
        decreases n - k,
    {
        assert(ds@.take(k + 1).drop_last() == ds@.take(k as int));
        assert(ds@.take(k + 1).last() == ds@[k as int]);
        let d = &ds[k];
        match d {
            MeshElement::Params(ps) => {
                add_params_exec(&mut vars, ps);
            },
            MeshElement::Inherit(p) => {
                match find_file_exec(cache, p) {
                    None => {
                        let e = LoadError::MissingInheritedFile(p.clone());
                        proof {
                            lemma_fold_error_sticks(ds@, cache@, k + 1);
                        }
                        return Err(e);
                    },
                    Some(j) => {
                        let parent = &cache[j];
                        merge_parent_exec(&mut vars, &parent.variables);
                        let ghost merged = vars_view(vars@);
                        let ghost before = models@;
                        let pn = parent.models.len();
                        let mut q: usize = 0;
                        while q < pn
                            invariant
                                pn == parent.models@.len(),
                                q <= pn,
                                merged == vars_view(vars@),
                                models@ == before + parent.models@.take(q as int).map_values(
                                    |m: PreBakedModel| repoint(merged, vars_view(parent.variables@), m),
                                ),
                            decreases pn - q,
                        {
                            let m = repoint_exec(&vars, &parent.variables, parent.models[q]);
                            models.push(m);
                            q = q + 1;
                            assert(models@ =~= before + parent.models@.take(q as int).map_values(
                                |m: PreBakedModel| repoint(merged, vars_view(parent.variables@), m),
                            ));
                        }
                        assert(parent.models@.take(pn as int) == parent.models@);
                    },
                }
            },
            MeshElement::Transparent(t) => {
                transparent = *t;
            },
            _ => {
                let b = binding_exec(d);
                match find_var_exec(&vars, b) {
                    None => {
                        let e = LoadError::UnresolvedVariable(b.clone());
                        proof {
                            lemma_fold_error_sticks(ds@, cache@, k + 1);
                        }
                        return Err(e);
                    },
                    Some(i) => {
                        models.push(primitive_exec(d, i));
                    },
                }
            },
        }
        k = k + 1;
    }
    assert(ds@.take(n as int) == ds@);
    Ok((vars, models, transparent))
}

fn find_file_exec(cache: &Vec<BakedFile>, path: &String) -> (r: Option<usize>)
    ensures
        r is None <==> find_file(cache@, path@) < 0,
        r matches Some(i) ==> i == find_file(cache@, path@) && i < cache@.len() && cache@[i as int].path@
            == path@,
{
    proof {
        lemma_find_file(cache@, path@);
    }
    let n = cache.len();
    let mut i: usize = 0;
    while i < n
        invariant
            n == cache@.len(),
            i <= n,
            forall|j: int| 0 <= j < i ==> cache@[j].path@ != path@,
            -1 <= find_file(cache@, path@) < n,
            find_file(cache@, path@) >= 0 ==> cache@[find_file(cache@, path@)].path@ == path@,
            forall|j: int| 0 <= j < n && j < find_file(cache@, path@) ==> cache@[j].path@ != path@,
            find_file(cache@, path@) < 0 ==> forall|j: int| 0 <= j < n ==> cache@[j].path@ != path@,
        decreases n - i,
    {
        if string_eq(&cache[i].path, path) {
            return Some(i);
        }
        i = i + 1;
    }
    None
}

/// One definition file: where it was found and its directives in order.
pub struct RawDefinition {
    pub path: String,
    pub elements: Vec<MeshElement>,
}

/// The position of the first definition at `path`, or -1.
pub open spec fn find_def(defs: Seq<RawDefinition>, path: Seq<char>) -> int
    decreases defs.len(),
{
    if defs.len() == 0 {
        -1
    } else {
        let r = find_def(defs.drop_last(), path);
        if r >= 0 {
            r
        } else if defs.last().path@ == path {
            defs.len() - 1
        } else {
            -1
        }
    }
}

pub proof fn lemma_find_def(defs: Seq<RawDefinition>, path: Seq<char>)
    ensures
        -1 <= find_def(defs, path) < defs.len(),
        find_def(defs, path) >= 0 ==> defs[find_def(defs, path)].path@ == path,
        forall|j: int| 0 <= j < defs.len() && j < find_def(defs, path) ==> defs[j].path@ != path,
        find_def(defs, path) < 0 ==> forall|j: int| 0 <= j < defs.len() ==> defs[j].path@ != path,
    decreases defs.len(),
{
    if defs.len() > 0 {
        let p = defs.drop_last();
        lemma_find_def(p, path);
        assert forall|j: int| 0 <= j < p.len() implies p[j] == defs[j] by {}
    }
}

/// Definition `a` inherits from definition `b`: one of its directives names
/// the path that `b` is the first definition of.
pub open spec fn inherits(defs: Seq<RawDefinition>, a: int, b: int) -> bool {
    &&& 0 <= a < defs.len()
    &&& exists|k: int|
        0 <= k < defs[a].elements@.len() && (#[trigger] defs[a].elements@[k] matches MeshElement::Inherit(p)
            && find_def(defs, p@) == b)
}

/// `c` is a chain of definitions, each inheriting from the next.
pub open spec fn is_chain(defs: Seq<RawDefinition>, c: Seq<int>) -> bool {
    &&& c.len() >= 1
    &&& forall|j: int| 0 <= j < c.len() ==> 0 <= #[trigger] c[j] < defs.len()
    &&& forall|j: int| 0 <= j < c.len() - 1 ==> #[trigger] inherits(defs, c[j], c[j + 1])
}

/// Applying the directives of some definition over files baked consistently
/// before it fails with `e`.
pub open spec fn fails_somewhere(defs: Seq<RawDefinition>, e: LoadErrorView) -> bool {
    exists|q: int, c: Seq<BakedFile>|
        0 <= q < defs.len() && cache_consistent(defs, c) && #[trigger] fold(defs[q].elements@, c) == Err::<
            BakeState,
            LoadErrorView,
        >(e)
}

/// Some definition has an `Inherit` directive naming `p`.
pub open spec fn inherited_somewhere(defs: Seq<RawDefinition>, p: Seq<char>) -> bool {
    exists|q: int, k: int|
        0 <= q < defs.len() && 0 <= k < defs[q].elements@.len() && (#[trigger] defs[q].elements@[k] matches MeshElement::Inherit(x) && x@ == p)
}

/// What keeps baking from succeeding: an inherited path that no definition
/// has, a definition whose directives fail over the files baked before it,
/// or a chain of inheritance longer than the number of definitions (so one
/// that comes back to a file).
pub open spec fn bake_blocked(defs: Seq<RawDefinition>) -> bool {
    ||| exists|p: Seq<char>| #[trigger] inherited_somewhere(defs, p) && find_def(defs, p) < 0
    ||| exists|e: LoadErrorView| e is UnresolvedVariable && #[trigger] fails_somewhere(defs, e)
    ||| exists|c: Seq<int>| is_chain(defs, c) && #[trigger] c.len() > defs.len()
}

/// Every baked file is the fold of its definition's directives over the
/// files baked before it, and no path is baked twice.
pub open spec fn cache_consistent(defs: Seq<RawDefinition>, cache: Seq<BakedFile>) -> bool {
    &&& forall|k: int|
        0 <= k < cache.len() ==> {
            &&& (#[trigger] cache[k]).source < defs.len()
            &&& cache[k].path@ == defs[cache[k].source as int].path@
            &&& fold(defs[cache[k].source as int].elements@, cache.take(k)) == Ok::<
                BakeState,
                LoadErrorView,
            >(cache[k].state())
        }
    &&& forall|a: int, b: int| 0 <= a < b < cache.len() ==> cache[a].path@ != cache[b].path@
}

fn find_def_exec(defs: &Vec<RawDefinition>, path: &String) -> (r: Option<usize>)
    ensures
        r is None <==> find_def(defs@, path@) < 0,
        r matches Some(i) ==> i == find_def(defs@, path@) && i < defs@.len() && defs@[i as int].path@
            == path@,
{
    proof {
        lemma_find_def(defs@, path@);
    }
    let n = defs.len();
    let mut i: usize = 0;
    while i < n
        invariant
            n == defs@.len(),
            i <= n,
            forall|j: int| 0 <= j < i ==> defs@[j].path@ != path@,
            -1 <= find_def(defs@, path@) < n,
            find_def(defs@, path@) >= 0 ==> defs@[find_def(defs@, path@)].path@ == path@,
            forall|j: int| 0 <= j < n && j < find_def(defs@, path@) ==> defs@[j].path@ != path@,
            find_def(defs@, path@) < 0 ==> forall|j: int| 0 <= j < n ==> defs@[j].path@ != path@,
        decreases n - i,
    {
        if string_eq(&defs[i].path, path) {
            return Some(i);
        }
        i = i + 1;
    }
    None
}

/// Bakes definition `i` unless its path is baked already, baking first each
/// file it inherits from. `fuel` bounds the depth of inheritance; running
/// out of it means the chain came back to a file still in progress.
#[verifier::rlimit(50)]
fn bake(defs: &Vec<RawDefinition>, i: usize, cache: &mut Vec<BakedFile>, fuel: usize) -> (r: Result<(), LoadError>)
    requires
        i < defs@.len(),
        cache_consistent(defs@, old(cache)@),
    ensures
        cache_consistent(defs@, final(cache)@),
        old(cache)@.len() <= final(cache)@.len(),
        final(cache)@.take(old(cache)@.len() as int) == old(cache)@,
        r is Ok ==> find_file(final(cache)@, defs@[i as int].path@) >= 0,
        r matches Err(LoadError::MissingInheritedFile(p)) ==> find_def(defs@, p@) < 0 && inherited_somewhere(defs@, p@),
        r matches Err(e) ==> (e is UnresolvedVariable ==> fails_somewhere(defs@, e@)),
        r matches Err(e) ==> !(e is CyclicIndirection),
        r matches Err(e) ==> (e is InheritanceCycle ==> exists|c: Seq<int>|
            is_chain(defs@, c) && c[0] == i && #[trigger] c.len() == fuel + 2),
    decreases fuel, 1nat,
{
    if find_file_exec(cache, &defs[i].path).is_some() {
        assert(cache@.take(cache@.len() as int) == cache@);
        return Ok(());
    }
    let ghost start = cache@;
    let ds = &defs[i].elements;
    let n = ds.len();
    let mut k: usize = 0;
    assert(cache@.take(cache@.len() as int) == cache@);
    while k < n
        invariant
            i < defs@.len(),
            ds == &defs@[i as int].elements,
            n == ds@.len(),
            k <= n,
            cache_consistent(defs@, cache@),
            start == old(cache)@,
            start.len() <= cache@.len(),
            cache@.take(start.len() as int) == start,
            forall|q: int|
                0 <= q < k ==> (#[trigger] ds@[q] matches MeshElement::Inherit(p) ==> find_file(cache@, p@) >= 0),
        decreases n - k,
    {
        let ghost before_k = cache@;
        if let MeshElement::Inherit(p) = &ds[k] {
            assert(defs@[i as int].elements@[k as int] matches MeshElement::Inherit(x) && x@ == p@);
            assert(inherited_somewhere(defs@, p@));
            let res = ensure_baked(defs, p, cache, fuel);
            assert(cache@.take(start.len() as int) =~= start);
            if res.is_err() {
                proof {
                    if res is Err && res->Err_0 is InheritanceCycle {
                        let c = choose|c: Seq<int>|
                            is_chain(defs@, c) && c[0] == find_def(defs@, p@) && #[trigger] c.len() == fuel + 1;
                        lemma_extend_chain(defs@, i as int, k as int, c);
                        assert((seq![i as int] + c).len() == fuel + 2);
                    }
                }
                return res;
            }
        }
        proof {
            assert(cache@.take(before_k.len() as int) =~= before_k);
            assert forall|q: int|
                0 <= q < k + 1 implies (#[trigger] ds@[q] matches MeshElement::Inherit(p) ==> find_file(cache@, p@) >= 0) by {
                if q < k {
                    if let MeshElement::Inherit(p) = ds@[q] {
                        lemma_find_file_prefix(before_k, cache@, p@);
                    }
                }
            }
        }
        k = k + 1;
    }
    if find_file_exec(cache, &defs[i].path).is_some() {
        return Ok(());
    }
    let ghost before = cache@;
    let st = match apply_directives(ds, cache) {
        Ok(st) => st,
        Err(e) => {
            proof {
                if e@ is MissingInheritedFile {
                    lemma_fold_missing(ds@, cache@, e@->MissingInheritedFile_0);
                }
                lemma_fold_error_kinds(ds@, cache@);
                assert(fold(defs@[i as int].elements@, cache@) == Err::<BakeState, LoadErrorView>(e@));
            }
            return Err(e);
        },
    };
    let (variables, models, transparent) = st;
    let entry = BakedFile { path: defs[i].path.clone(), source: i, variables, models, transparent };
    cache.push(entry);
    proof {
        lemma_find_file(before, defs@[i as int].path@);
        assert(cache@.take(before.len() as int) == before);
        assert forall|q: int| 0 <= q < cache@.len() implies {
            &&& (#[trigger] cache@[q]).source < defs@.len()
            &&& cache@[q].path@ == defs@[cache@[q].source as int].path@
            &&& fold(defs@[cache@[q].source as int].elements@, cache@.take(q)) == Ok::<
                BakeState,
                LoadErrorView,
            >(cache@[q].state())
        } by {
            if q < before.len() {
                assert(cache@.take(q) == before.take(q));
                assert(cache@[q] == before[q]);
            } else {
                assert(cache@.take(q) == before);
            }
        }
        assert(cache@.take(start.len() as int) =~= start);
        lemma_find_file(cache@, defs@[i as int].path@);
        assert(cache@[before.len() as int].path@ == defs@[i as int].path@);
    }
    Ok(())
}

/// Makes sure that the file at `p` is baked, baking it if it is not.
fn ensure_baked(defs: &Vec<RawDefinition>, p: &String, cache: &mut Vec<BakedFile>, fuel: usize) -> (r: Result<(), LoadError>)
    requires
        cache_consistent(defs@, old(cache)@),
        inherited_somewhere(defs@, p@),
    ensures
        cache_consistent(defs@, final(cache)@),
        old(cache)@.len() <= final(cache)@.len(),
        final(cache)@.take(old(cache)@.len() as int) == old(cache)@,
        r is Ok ==> find_file(final(cache)@, p@) >= 0,
        r matches Err(LoadError::MissingInheritedFile(x)) ==> find_def(defs@, x@) < 0 && inherited_somewhere(defs@, x@),
        r matches Err(e) ==> (e is UnresolvedVariable ==> fails_somewhere(defs@, e@)),
        r matches Err(e) ==> !(e is CyclicIndirection),
        r matches Err(e) ==> (e is InheritanceCycle ==> exists|c: Seq<int>|
            is_chain(defs@, c) && c[0] == find_def(defs@, p@) && #[trigger] c.len() == fuel + 1),
    decreases fuel, 0nat,
{
    assert(cache@.take(cache@.len() as int) == cache@);
    if find_file_exec(cache, p).is_some() {
        return Ok(());
    }
    match find_def_exec(defs, p) {
        None => Err(LoadError::MissingInheritedFile(p.clone())),
        Some(j) => {
            if fuel == 0 {
                proof {
                    let c = seq![j as int];
                    assert(is_chain(defs@, c));
                }
                return Err(LoadError::InheritanceCycle(p.clone()));
            }
            bake(defs, j, cache, fuel - 1)
        },
    }
}

/// Bakes every definition, each file once, parents before the files that
/// inherit from them.
pub fn bake_all(defs: &Vec<RawDefinition>) -> (r: Result<Vec<BakedFile>, LoadError>)
    ensures
        r matches Ok(cache) ==> cache_consistent(defs@, cache@) && forall|i: int|
            0 <= i < defs@.len() ==> find_file(cache@, #[trigger] defs@[i].path@) >= 0,
        r matches Err(LoadError::MissingInheritedFile(p)) ==> find_def(defs@, p@) < 0 && inherited_somewhere(defs@, p@),
        r matches Err(e) ==> (e is UnresolvedVariable ==> fails_somewhere(defs@, e@)),
        r matches Err(e) ==> !(e is CyclicIndirection),
        r matches Err(e) ==> (e is InheritanceCycle ==> exists|c: Seq<int>|
            is_chain(defs@, c) && #[trigger] c.len() > defs@.len()),
        !bake_blocked(defs@) ==> r is Ok,
{
    let mut cache: Vec<BakedFile> = Vec::new();
    let n = defs.len();
    let mut i: usize = 0;
    while i < n
        invariant
            n == defs@.len(),
            i <= n,
            cache_consistent(defs@, cache@),
            forall|q: int| 0 <= q < i ==> find_file(cache@, #[trigger] defs@[q].path@) >= 0,
        decreases n - i,
    {
        let ghost before = cache@;
        bake(defs, i, &mut cache, n)?;
        proof {
            assert forall|q: int| 0 <= q < i + 1 implies find_file(cache@, #[trigger] defs@[q].path@) >= 0 by {
                if q < i {
                    lemma_find_file(before, defs@[q].path@);
                    lemma_find_file_prefix(before, cache@, defs@[q].path@);
                }
            }
        }
        i = i + 1;
    }
    Ok(cache)
}

/// Prepending a definition that inherits from the head of a chain gives a
/// chain.
proof fn lemma_extend_chain(defs: Seq<RawDefinition>, i: int, k: int, c: Seq<int>)
    requires
        0 <= i < defs.len(),
        0 <= k < defs[i].elements@.len(),
        is_chain(defs, c),
        defs[i].elements@[k] matches MeshElement::Inherit(x) && find_def(defs, x@) == c[0],
    ensures
        is_chain(defs, seq![i] + c),
        (seq![i] + c)[0] == i,
        (seq![i] + c).len() == c.len() + 1,
{
    let c2 = seq![i] + c;
    assert(inherits(defs, i, c[0]));
    assert forall|j: int| 0 <= j < c2.len() - 1 implies #[trigger] inherits(defs, c2[j], c2[j + 1]) by {
        if j > 0 {
            assert(c2[j] == c[j - 1] && c2[j + 1] == c[j]);
            assert(inherits(defs, c[j - 1], c[(j - 1) + 1]));
        } else {
            assert(c2[0] == i && c2[1] == c[0]);
        }
    }
    assert forall|j: int| 0 <= j < c2.len() implies 0 <= #[trigger] c2[j] < defs.len() by {
        if j > 0 {
            assert(c2[j] == c[j - 1]);
        }
    }
}

/// A fold fails only for a missing parent or an unknown binding.
proof fn lemma_fold_error_kinds(ds: Seq<MeshElement>, cache: Seq<BakedFile>)
    ensures
        fold(ds, cache) matches Err(e) ==> (e is MissingInheritedFile || e is UnresolvedVariable),
    decreases ds.len(),
{
    if ds.len() > 0 {
        lemma_fold_error_kinds(ds.drop_last(), cache);
    }
}

/// A fold fails for a missing parent only at an `Inherit` whose file is not
/// baked.
proof fn lemma_fold_missing(ds: Seq<MeshElement>, cache: Seq<BakedFile>, p: Seq<char>)
    requires
        fold(ds, cache) == Err::<BakeState, LoadErrorView>(LoadErrorView::MissingInheritedFile(p)),
    ensures
        exists|q: int| 0 <= q < ds.len() && (#[trigger] ds[q] matches MeshElement::Inherit(x) && x@ == p),
        find_file(cache, p) < 0,
    decreases ds.len(),
{
    let prev = fold(ds.drop_last(), cache);
    if prev is Err {
        lemma_fold_missing(ds.drop_last(), cache, p);
        let q = choose|q: int| 0 <= q < ds.drop_last().len() && (#[trigger] ds.drop_last()[q] matches MeshElement::Inherit(x) && x@ == p);
        assert(ds[q] == ds.drop_last()[q]);
    } else {
        assert(ds[ds.len() - 1] == ds.last());
    }
}

proof fn lemma_find_file_prefix(a: Seq<BakedFile>, b: Seq<BakedFile>, path: Seq<char>)
    requires
        a.len() <= b.len(),
        b.take(a.len() as int) == a,
        find_file(a, path) >= 0,
    ensures
        find_file(b, path) == find_file(a, path),
    decreases b.len(),
{
    if b.len() > a.len() {
        let c = b.drop_last();
        assert(c.take(a.len() as int) == b.take(a.len() as int));
        lemma_find_file_prefix(a, c, path);
    } else {
        assert(b.take(a.len() as int) == b);
    }
}

} // verus!
