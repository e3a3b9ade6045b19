//! Following `#name` references to texture literals, interning them into one
//! load-wide table, and resolving whole folders of definitions.

use vstd::prelude::*;
use crate::baker::{
    bake_all, bake_blocked, cache_consistent, fails_somewhere, find_def, find_file, find_var, find_var_exec,
    inherited_somewhere, is_chain, lemma_find_file, string_eq, vars_view,
    BakedFile, LoadError, LoadErrorView, RawDefinition, VarView,
};
use crate::model::PreBakedModel;

verus! {

pub open spec fn strings_view(v: Seq<String>) -> Seq<Seq<char>> {
    v.map_values(|s: String| s@)
}

/// Whether an expression refers to another variable (`#name`).
pub open spec fn is_reference(v: Seq<char>) -> bool {
    v.len() > 0 && v[0] == '#'
}

/// Follows the chain of `#name` references from variable `i`. `chain` holds
/// the names visited so far; a name visited twice is a cycle. `fuel` bounds
/// the number of steps (a chain longer than the table must repeat a name).
pub open spec fn chase(vars: Seq<VarView>, i: int, chain: Seq<Seq<char>>, fuel: nat) -> Result<Seq<char>, LoadErrorView>
    decreases fuel,
{
    if !(0 <= i < vars.len()) {
        Err(LoadErrorView::UnresolvedVariable(Seq::empty()))
    } else {
        let k = vars[i].0;
        let v = vars[i].1;
        if chain.contains(k) {
            Err(LoadErrorView::CyclicIndirection(chain.push(k)))
        } else if is_reference(v) {
            let target = v.drop_first();
            let j = find_var(vars, target);
            if j < 0 {
                Err(LoadErrorView::UnresolvedVariable(target))
            } else if fuel == 0 {
                Err(LoadErrorView::CyclicIndirection(chain.push(k)))
            } else {
                chase(vars, j, chain.push(k), (fuel - 1) as nat)
            }
        } else {
            Ok(v)
        }
    }
}

/// The literal that variable `i` finally stands for.
pub open spec fn solve(vars: Seq<VarView>, i: int) -> Result<Seq<char>, LoadErrorView> {
    chase(vars, i, Seq::empty(), vars.len())
}

/// The position of the first text equal to `v`, or -1.
pub open spec fn find_text(t: Seq<Seq<char>>, v: Seq<char>) -> int
    decreases t.len(),
{
    if t.len() == 0 {
        -1
    } else {
        let r = find_text(t.drop_last(), v);
        if r >= 0 {
            r
        } else if t.last() == v {
            t.len() - 1
        } else {
            -1
        }
    }
}

pub proof fn lemma_find_text(t: Seq<Seq<char>>, v: Seq<char>)
    ensures
        -1 <= find_text(t, v) < t.len(),
        find_text(t, v) >= 0 ==> t[find_text(t, v)] == v,
        forall|j: int| 0 <= j < t.len() && j < find_text(t, v) ==> t[j] != v,
        find_text(t, v) < 0 ==> forall|j: int| 0 <= j < t.len() ==> t[j] != v,
    decreases t.len(),
{
    if t.len() > 0 {
        let p = t.drop_last();
        lemma_find_text(p, v);
        assert forall|j: int| 0 <= j < p.len() implies p[j] == t[j] by {}
    }
}

/// The table after interning `v`: unchanged if it holds `v`, else `v`
/// appended.
pub open spec fn interned(t: Seq<Seq<char>>, v: Seq<char>) -> Seq<Seq<char>> {
    if find_text(t, v) >= 0 {
        t
    } else {
        t.push(v)
    }
}

/// The position of `v` in the table after interning it.
pub open spec fn intern_index(t: Seq<Seq<char>>, v: Seq<char>) -> int {
    if find_text(t, v) >= 0 {
        find_text(t, v)
    } else {
        t.len() as int
    }
}

/// Adds `v` to the texture table unless it is there; returns its position.
pub fn intern(textures: &mut Vec<String>, v: &String) -> (r: usize)
    ensures
        strings_view(final(textures)@) == interned(strings_view(old(textures)@), v@),
        r == intern_index(strings_view(old(textures)@), v@),
        r < final(textures)@.len(),
        final(textures)@[r as int]@ == v@,
{
    proof {
        lemma_find_text(strings_view(textures@), v@);
    }
    let n = textures.len();
    let mut i: usize = 0;
    while i < n
        invariant
            textures@ == old(textures)@,
            n == textures@.len(),
            i <= n,
            forall|j: int| 0 <= j < i ==> strings_view(textures@)[j] != v@,
            -1 <= find_text(strings_view(textures@), v@) < n,
            find_text(strings_view(textures@), v@) >= 0 ==> strings_view(textures@)[find_text(strings_view(textures@), v@)] == v@,
            forall|j: int| 0 <= j < n && j < find_text(strings_view(textures@), v@) ==> strings_view(textures@)[j] != v@,
            find_text(strings_view(textures@), v@) < 0 ==> forall|j: int| 0 <= j < n ==> strings_view(textures@)[j] != v@,
        decreases n - i,
    {
        if string_eq(&textures[i], v) {
            assert(strings_view(textures@)[i as int] == v@);
            return i;
        }
        i = i + 1;
    }
    textures.push(v.clone());
    assert(strings_view(textures@) =~= strings_view(old(textures)@).push(v@));
    n
}

fn contains_name(chain: &Vec<String>, k: &String) -> (r: bool)
    ensures
        r == strings_view(chain@).contains(k@),
{
    let n = chain.len();
    let mut i: usize = 0;
    while i < n
        invariant
            n == chain@.len(),
            i <= n,
            forall|j: int| 0 <= j < i ==> strings_view(chain@)[j] != k@,
        decreases n - i,
    {
        if string_eq(&chain[i], k) {
            assert(strings_view(chain@)[i as int] == k@);
            return true;
        }
        i = i + 1;
    }
    false
}

/// Whether the first character of `s` is `c`.
fn starts_with_char(s: &str, c: char) -> (r: bool)
    ensures
        r == (s@.len() > 0 && s@[0] == c),
{
    s.unicode_len() > 0 && s.get_char(0) == c
}

/// Follows the `#name` chain from variable `start` to a literal and interns
/// it; fails on a name that is not in the table or on a chain that comes
/// back to a name.
pub fn solve_variable(vars: &Vec<(String, String, bool)>, textures: &mut Vec<String>, start: usize) -> (r: Result<usize, LoadError>)
    ensures
        solve(vars_view(vars@), start as int) matches Ok(v) ==> {
            &&& r matches Ok(i) && i == intern_index(strings_view(old(textures)@), v)
            &&& strings_view(final(textures)@) == interned(strings_view(old(textures)@), v)
        },
        solve(vars_view(vars@), start as int) matches Err(e) ==> {
            &&& r matches Err(x) && x@ == e
            &&& final(textures)@ == old(textures)@
        },
{
    let ghost vv = vars_view(vars@);
    let mut chain: Vec<String> = Vec::new();
    let mut i: usize = start;
    let mut fuel: usize = vars.len();
    assert(strings_view(chain@) =~= Seq::<Seq<char>>::empty());
    loop
        invariant
            vv == vars_view(vars@),
            solve(vv, start as int) == chase(vv, i as int, strings_view(chain@), fuel as nat),
            textures@ == old(textures)@,
        ensures
            i < vars@.len(),
            solve(vv, start as int) == Ok::<Seq<char>, LoadErrorView>(vars@[i as int].1@),
            textures@ == old(textures)@,
        decreases fuel,
    {
        if i >= vars.len() {
            return Err(LoadError::UnresolvedVariable(String::new()));
        }
        let k = &vars[i].0;
        let v = &vars[i].1;
        if contains_name(&chain, k) {
            let ghost prev = strings_view(chain@);
            chain.push(k.clone());
            assert(strings_view(chain@) =~= prev.push(k@));
            return Err(LoadError::CyclicIndirection(chain));
        }
        if starts_with_char(v.as_str(), '#') {
            let len = v.as_str().unicode_len();
            let target = String::from_str(v.as_str().substring_char(1, len));
            assert(target@ == v@.drop_first());
            match find_var_exec(vars, &target) {
                None => {
                    return Err(LoadError::UnresolvedVariable(target));
                },
                Some(j) => {
                    let ghost prev = strings_view(chain@);
                    chain.push(k.clone());
                    assert(strings_view(chain@) =~= prev.push(k@));
                    if fuel == 0 {
                        return Err(LoadError::CyclicIndirection(chain));
                    }
                    i = j;
                    fuel = fuel - 1;
                },
            }
        } else {
            break;
        }
    }
    let idx = intern(textures, &vars[i].1);
    Ok(idx)
}

/// The table after interning each of `lits` in order.
pub open spec fn intern_all(t: Seq<Seq<char>>, lits: Seq<Seq<char>>) -> Seq<Seq<char>>
    decreases lits.len(),
{
    if lits.len() == 0 {
        t
    } else {
        interned(intern_all(t, lits.drop_last()), lits.last())
    }
}

/// The literal each primitive of `file` resolves to, in primitive order.
pub open spec fn file_literals(file: BakedFile) -> Seq<Seq<char>> {
    file.models@.map_values(|m: PreBakedModel| solve(vars_view(file.variables@), m.texture() as int)->Ok_0)
}

/// The literals of several files, file after file.
pub open spec fn files_literals(files: Seq<BakedFile>) -> Seq<Seq<char>>
    decreases files.len(),
{
    if files.len() == 0 {
        Seq::empty()
    } else {
        files_literals(files.drop_last()) + file_literals(files.last())
    }
}

/// Some primitive of `file` has a texture chain that fails with `e`.
pub open spec fn file_fails(file: BakedFile, e: LoadErrorView) -> bool {
    exists|k: int|
        0 <= k < file.models@.len() && solve(vars_view(file.variables@), (#[trigger] file.models@[k]).texture() as int)
            == Err::<Seq<char>, LoadErrorView>(e)
}

/// The baked files of the definitions that `folder` lists.
pub open spec fn folder_files(defs: Seq<RawDefinition>, cache: Seq<BakedFile>, folder: Seq<usize>) -> Seq<BakedFile> {
    folder.map_values(|d: usize| cache[find_file(cache, defs[d as int].path@)])
}

proof fn lemma_interned_no_dup(t: Seq<Seq<char>>, v: Seq<char>)
    requires
        t.no_duplicates(),
    ensures
        interned(t, v).no_duplicates(),
{
    lemma_find_text(t, v);
}

pub proof fn lemma_intern_all_no_dup(t: Seq<Seq<char>>, lits: Seq<Seq<char>>)
    requires
        t.no_duplicates(),
    ensures
        intern_all(t, lits).no_duplicates(),
    decreases lits.len(),
{
    if lits.len() > 0 {
        lemma_intern_all_no_dup(t, lits.drop_last());
        lemma_interned_no_dup(intern_all(t, lits.drop_last()), lits.last());
    }
}

proof fn lemma_intern_all_concat(t: Seq<Seq<char>>, a: Seq<Seq<char>>, b: Seq<Seq<char>>)
    ensures
        intern_all(intern_all(t, a), b) == intern_all(t, a + b),
    decreases b.len(),
{
    if b.len() == 0 {
        assert(a + b =~= a);
    } else {
        lemma_intern_all_concat(t, a, b.drop_last());
        assert((a + b).drop_last() =~= a + b.drop_last());
        assert((a + b).last() == b.last());
    }
}

/// A file's primitives with texture positions in the load-wide texture
/// table.
pub struct ResolvedModel {
    pub path: String,
    pub models: Vec<PreBakedModel>,
    pub transparent: bool,
}

/// `rm` is `file` with the texture variable of each primitive replaced by
/// the position, in `t`, of the literal that its chain ends in.
pub open spec fn resolved_from(rm: ResolvedModel, file: BakedFile, t: Seq<Seq<char>>) -> bool {
    &&& rm.path@ == file.path@
    &&& rm.transparent == file.transparent
    &&& rm.models@.len() == file.models@.len()
    &&& forall|k: int|
        0 <= k < file.models@.len() ==> {
            let m = #[trigger] file.models@[k];
            let s = solve(vars_view(file.variables@), m.texture() as int);
            &&& s is Ok
            &&& rm.models@[k] == m.with_texture(rm.models@[k].texture())
            &&& rm.models@[k].texture() < t.len()
            &&& t[rm.models@[k].texture() as int] == s->Ok_0
        }
}

proof fn lemma_interned_prefix(t: Seq<Seq<char>>, v: Seq<char>)
    ensures
        t.len() <= interned(t, v).len(),
        interned(t, v).take(t.len() as int) == t,
        intern_index(t, v) < interned(t, v).len(),
        interned(t, v)[intern_index(t, v)] == v,
{
    lemma_find_text(t, v);
    assert(interned(t, v).take(t.len() as int) =~= t);
}

/// Resolves the texture of every primitive of `file`, interning each
/// literal into `textures`.
pub fn resolve_file(file: &BakedFile, textures: &mut Vec<String>) -> (r: Result<ResolvedModel, LoadError>)
    ensures
        old(textures)@.len() <= final(textures)@.len(),
        strings_view(final(textures)@).take(old(textures)@.len() as int) == strings_view(old(textures)@),
        strings_view(old(textures)@).no_duplicates() ==> strings_view(final(textures)@).no_duplicates(),
        r matches Ok(rm) ==> resolved_from(rm, *file, strings_view(final(textures)@)),
        r matches Ok(rm) ==> strings_view(final(textures)@) == intern_all(
            strings_view(old(textures)@),
            file_literals(*file),
        ),
        r matches Err(e) ==> file_fails(*file, e@),
        r is Err <==> exists|e: LoadErrorView| #[trigger] file_fails(*file, e),
{
    let ghost t0 = strings_view(textures@);
    let n = file.models.len();
    let mut out: Vec<PreBakedModel> = Vec::new();
    let mut k: usize = 0;
    while k < n
        invariant
            n == file.models@.len(),
            k <= n,
            out@.len() == k,
            t0.len() <= textures@.len(),
            strings_view(textures@).take(t0.len() as int) == t0,
            t0 == strings_view(old(textures)@),
            strings_view(textures@) == intern_all(t0, file_literals(*file).take(k as int)),
            t0.no_duplicates() ==> strings_view(textures@).no_duplicates(),
            forall|q: int| 0 <= q < k ==> !(solve(vars_view(file.variables@), (#[trigger] file.models@[q]).texture() as int) is Err),
            forall|q: int|
                0 <= q < k ==> {
                    let m = #[trigger] file.models@[q];
                    let s = solve(vars_view(file.variables@), m.texture() as int);
                    &&& s is Ok
                    &&& out@[q] == m.with_texture(out@[q].texture())
                    &&& out@[q].texture() < textures@.len()
                    &&& strings_view(textures@)[out@[q].texture() as int] == s->Ok_0
                },
        decreases n - k,
    {
        let m = file.models[k];
        let ghost before = strings_view(textures@);
        match solve_variable(&file.variables, textures, m.texture_index()) {
            Ok(idx) => {
                let ghost sv = solve(vars_view(file.variables@), m.texture() as int)->Ok_0;
                proof {
                    lemma_interned_prefix(before, sv);
                    if t0.no_duplicates() {
                        lemma_interned_no_dup(before, sv);
                    }
                    assert(file_literals(*file).take(k + 1).drop_last() == file_literals(*file).take(k as int));
                    assert(file_literals(*file).take(k + 1).last() == sv);
                    assert(strings_view(textures@).take(t0.len() as int) =~= t0) by {
                        assert(strings_view(textures@).take(before.len() as int) == before);
                        assert(before.take(t0.len() as int) == t0);
                    }
                }
                let ghost out_before = out@;
                out.push(m.set_texture_index(idx));
                proof {
                    assert forall|q: int|
                        0 <= q < k + 1 implies {
                            let m = #[trigger] file.models@[q];
                            let s = solve(vars_view(file.variables@), m.texture() as int);
                            &&& s is Ok
                            &&& out@[q] == m.with_texture(out@[q].texture())
                            &&& out@[q].texture() < textures@.len()
                            &&& strings_view(textures@)[out@[q].texture() as int] == s->Ok_0
                        } by {
                        if q < k {
                            let mq = file.models@[q];
                            assert(out@[q] == out_before[q]);
                            let ix = out@[q].texture() as int;
                            assert(ix < before.len());
                            assert(strings_view(textures@).take(before.len() as int)[ix] == strings_view(textures@)[ix]);
                            assert(strings_view(textures@).take(before.len() as int) == before);
                        } else {
                            assert(solve(vars_view(file.variables@), m.texture() as int) is Ok);
                            assert(idx == intern_index(before, sv));
                            assert(out@[q] == m.with_texture(idx));
                            assert(strings_view(textures@) == interned(before, sv));
                            assert(strings_view(textures@)[idx as int] == sv);
                        }
                    }
                }
            },
            Err(e) => {
                proof {
                    assert(strings_view(textures@).take(t0.len() as int) =~= t0);
                    assert(file_fails(*file, e@));
                }
                return Err(e);
            },
        }
        k = k + 1;
    }
    proof {
        assert(file_literals(*file).take(n as int) == file_literals(*file));
        assert forall|e: LoadErrorView| !#[trigger] file_fails(*file, e) by {
            if file_fails(*file, e) {
                let q = choose|q: int| 0 <= q < file.models@.len() && solve(vars_view(file.variables@), (#[trigger] file.models@[q]).texture() as int)
                    == Err::<Seq<char>, LoadErrorView>(e);
            }
        }
    }
    Ok(ResolvedModel { path: file.path.clone(), models: out, transparent: file.transparent })
}

proof fn lemma_resolved_grows(rm: ResolvedModel, file: BakedFile, t: Seq<Seq<char>>, u: Seq<Seq<char>>)
    requires
        resolved_from(rm, file, t),
        t.len() <= u.len(),
        u.take(t.len() as int) == t,
    ensures
        resolved_from(rm, file, u),
{
    assert forall|k: int| 0 <= k < file.models@.len() implies {
        let m = #[trigger] file.models@[k];
        let s = solve(vars_view(file.variables@), m.texture() as int);
        &&& s is Ok
        &&& rm.models@[k] == m.with_texture(rm.models@[k].texture())
        &&& rm.models@[k].texture() < u.len()
        &&& u[rm.models@[k].texture() as int] == s->Ok_0
    } by {
        let m = file.models@[k];
        let ix = rm.models@[k].texture() as int;
        assert(u.take(t.len() as int)[ix] == u[ix]);
    }
}

/// The files of one shape folder, each resolved against the load-wide
/// texture table. `folder` lists positions in `defs`.
pub fn load_folder(
    defs: &Vec<RawDefinition>,
    cache: &Vec<BakedFile>,
    folder: &Vec<usize>,
    textures: &mut Vec<String>,
) -> (r: Result<Vec<ResolvedModel>, LoadError>)
    requires
        forall|q: int| 0 <= q < folder@.len() ==> (#[trigger] folder@[q]) < defs@.len() && find_file(
            cache@,
            defs@[folder@[q] as int].path@,
        ) >= 0,
    ensures
        old(textures)@.len() <= final(textures)@.len(),
        strings_view(final(textures)@).take(old(textures)@.len() as int) == strings_view(old(textures)@),
        r matches Ok(v) ==> v@.len() == folder@.len() && forall|q: int|
            0 <= q < folder@.len() ==> resolved_from(
                #[trigger] v@[q],
                cache@[find_file(cache@, defs@[folder@[q] as int].path@)],
                strings_view(final(textures)@),
            ),
        strings_view(old(textures)@).no_duplicates() ==> strings_view(final(textures)@).no_duplicates(),
        r is Ok ==> strings_view(final(textures)@) == intern_all(
            strings_view(old(textures)@),
            files_literals(folder_files(defs@, cache@, folder@)),
        ),
        r matches Err(e) ==> exists|q: int|
            0 <= q < folder@.len() && #[trigger] file_fails(folder_files(defs@, cache@, folder@)[q], e@),
        (forall|q: int, e: LoadErrorView|
            0 <= q < folder@.len() ==> !#[trigger] file_fails(folder_files(defs@, cache@, folder@)[q], e))
            ==> r is Ok,
{
    let ghost files = folder_files(defs@, cache@, folder@);
    let ghost t0 = strings_view(textures@);
    let n = folder.len();
    let mut out: Vec<ResolvedModel> = Vec::new();
    let mut q: usize = 0;
    while q < n
        invariant
            n == folder@.len(),
            q <= n,
            out@.len() == q,
            forall|a: int| 0 <= a < folder@.len() ==> (#[trigger] folder@[a]) < defs@.len() && find_file(
                cache@,
                defs@[folder@[a] as int].path@,
            ) >= 0,
            t0 == strings_view(old(textures)@),
            t0.len() <= textures@.len(),
            strings_view(textures@).take(t0.len() as int) == t0,
            files == folder_files(defs@, cache@, folder@),
            strings_view(textures@) == intern_all(t0, files_literals(files.take(q as int))),
            t0.no_duplicates() ==> strings_view(textures@).no_duplicates(),
            forall|a: int|
                0 <= a < q ==> resolved_from(
                    #[trigger] out@[a],
                    cache@[find_file(cache@, defs@[folder@[a] as int].path@)],
                    strings_view(textures@),
                ),
        decreases n - q,
    {
        let d = folder[q];
        let j = find_file_pos(cache, &defs[d].path);
        let ghost before = strings_view(textures@);
        let rm = resolve_file(&cache[j], textures);
        let rm = match rm {
            Ok(rm) => rm,
            Err(e) => {
                proof {
                    assert(strings_view(textures@).take(t0.len() as int) =~= t0) by {
                        assert(strings_view(textures@).take(before.len() as int) == before);
                        assert(before.take(t0.len() as int) == t0);
                    }
                    assert(files[q as int] == cache@[j as int]);
                    assert(file_fails(files[q as int], e@));
                }
                return Err(e);
            },
        };
        proof {
            assert(strings_view(textures@).take(t0.len() as int) =~= t0) by {
                assert(strings_view(textures@).take(before.len() as int) == before);
                assert(before.take(t0.len() as int) == t0);
            }
            assert(files[q as int] == cache@[j as int]);
            assert(files.take(q + 1).drop_last() == files.take(q as int));
            assert(files.take(q + 1).last() == files[q as int]);
            lemma_intern_all_concat(t0, files_literals(files.take(q as int)), file_literals(files[q as int]));
            assert forall|a: int| 0 <= a < q implies resolved_from(
                #[trigger] out@[a],
                cache@[find_file(cache@, defs@[folder@[a] as int].path@)],
                strings_view(textures@),
            ) by {
                lemma_resolved_grows(
                    out@[a],
                    cache@[find_file(cache@, defs@[folder@[a] as int].path@)],
                    before,
                    strings_view(textures@),
                );
            }
        }
        out.push(rm);
        q = q + 1;
    }
    proof {
        assert(files.take(n as int) == files);
    }
    Ok(out)
}

fn find_file_pos(cache: &Vec<BakedFile>, path: &String) -> (r: usize)
    requires
        find_file(cache@, path@) >= 0,
    ensures
        r == find_file(cache@, path@),
        r < cache@.len(),
{
    proof {
        lemma_find_file(cache@, path@);
    }
    let n = cache.len();
    let mut i: usize = 0;
    while i < n
        invariant
            n == cache@.len(),
            i <= n,
            forall|j: int| 0 <= j < i ==> cache@[j].path@ != path@,
            0 <= find_file(cache@, path@) < n,
            cache@[find_file(cache@, path@)].path@ == path@,
            forall|j: int| 0 <= j < n && j < find_file(cache@, path@) ==> cache@[j].path@ != path@,
        decreases n - i,
    {
        if string_eq(&cache[i].path, path) {
            return i;
        }
        i = i + 1;
    }
    proof {
        assert(cache@[find_file(cache@, path@)].path@ == path@);
    }
    0
}

/// The literals of all folders' files, folder after folder.
pub open spec fn folders_literals(defs: Seq<RawDefinition>, cache: Seq<BakedFile>, folders: Seq<Vec<usize>>) -> Seq<
    Seq<char>,
>
    decreases folders.len(),
{
    if folders.len() == 0 {
        Seq::empty()
    } else {
        folders_literals(defs, cache, folders.drop_last()) + files_literals(
            folder_files(defs, cache, folders.last()@),
        )
    }
}

/// Once every definition is baked consistently, some file of some folder
/// has a texture chain that fails with `e`.
pub open spec fn resolution_fails(defs: Seq<RawDefinition>, folders: Seq<Vec<usize>>, e: LoadErrorView) -> bool {
    exists|c: Seq<BakedFile>, f: int, q: int|
        cache_consistent(defs, c) && (forall|i: int| 0 <= i < defs.len() ==> find_file(c, #[trigger] defs[i].path@) >= 0)
            && 0 <= f < folders.len() && 0 <= q < folders[f]@.len() && #[trigger] file_fails(
            folder_files(defs, c, folders[f]@)[q],
            e,
        )
}

proof fn lemma_folder_error(defs: Seq<RawDefinition>, c: Seq<BakedFile>, folders: Seq<Vec<usize>>, f: int, e: LoadErrorView)
    requires
        cache_consistent(defs, c),
        forall|i: int| 0 <= i < defs.len() ==> find_file(c, #[trigger] defs[i].path@) >= 0,
        0 <= f < folders.len(),
        exists|q: int| 0 <= q < folders[f]@.len() && #[trigger] file_fails(folder_files(defs, c, folders[f]@)[q], e),
    ensures
        resolution_fails(defs, folders, e),
        e is UnresolvedVariable || e is CyclicIndirection,
{
    let q = choose|q: int| 0 <= q < folders[f]@.len() && #[trigger] file_fails(folder_files(defs, c, folders[f]@)[q], e);
    assert(file_fails(folder_files(defs, c, folders[f]@)[q], e));
    let file = folder_files(defs, c, folders[f]@)[q];
    let k = choose|k: int|
        0 <= k < file.models@.len() && solve(vars_view(file.variables@), (#[trigger] file.models@[k]).texture() as int)
            == Err::<Seq<char>, LoadErrorView>(e);
    lemma_chase_kinds(vars_view(file.variables@), file.models@[k].texture() as int, Seq::empty(), vars_view(file.variables@).len());
}

proof fn lemma_chase_kinds(vars: Seq<VarView>, i: int, chain: Seq<Seq<char>>, fuel: nat)
    ensures
        chase(vars, i, chain, fuel) matches Err(e) ==> (e is UnresolvedVariable || e is CyclicIndirection),
    decreases fuel,
{
    if 0 <= i < vars.len() && !chain.contains(vars[i].0) && is_reference(vars[i].1) && fuel > 0 {
        let j = find_var(vars, vars[i].1.drop_first());
        if j >= 0 {
            lemma_chase_kinds(vars, j, chain.push(vars[i].0), (fuel - 1) as nat);
        }
    }
}

proof fn lemma_table_step(defs: Seq<RawDefinition>, c: Seq<BakedFile>, folders: Seq<Vec<usize>>, f: int)
    requires
        0 <= f < folders.len(),
    ensures
        intern_all(
            intern_all(Seq::empty(), folders_literals(defs, c, folders.take(f))),
            files_literals(folder_files(defs, c, folders[f]@)),
        ) == intern_all(Seq::empty(), folders_literals(defs, c, folders.take(f + 1))),
{
    assert(folders.take(f + 1).drop_last() == folders.take(f));
    assert(folders.take(f + 1).last() == folders[f]);
    lemma_intern_all_concat(
        Seq::empty(),
        folders_literals(defs, c, folders.take(f)),
        files_literals(folder_files(defs, c, folders[f]@)),
    );
}

/// Resolves each shape folder in turn, over files baked consistently, into
/// one shared texture table.
fn resolve_folders(defs: &Vec<RawDefinition>, cache: &Vec<BakedFile>, folders: &Vec<Vec<usize>>) -> (r: Result<
    (Vec<Vec<ResolvedModel>>, Vec<String>),
    LoadError,
>)
    requires
        cache_consistent(defs@, cache@),
        forall|i: int| 0 <= i < defs@.len() ==> find_file(cache@, #[trigger] defs@[i].path@) >= 0,
        forall|f: int, q: int|
            0 <= f < folders@.len() && 0 <= q < folders@[f]@.len() ==> #[trigger] folders@[f]@[q] < defs@.len(),
    ensures
        r matches Ok((v, t)) ==> v@.len() == folders@.len() && strings_view(t@).no_duplicates() && strings_view(t@)
            == intern_all(Seq::empty(), folders_literals(defs@, cache@, folders@)) && forall|f: int, q: int|
            0 <= f < folders@.len() && 0 <= q < folders@[f]@.len() ==> resolved_from(
                #[trigger] v@[f]@[q],
                cache@[find_file(cache@, defs@[folders@[f]@[q] as int].path@)],
                strings_view(t@),
            ),
        r matches Err(e) ==> resolution_fails(defs@, folders@, e@) && (e is UnresolvedVariable || e is CyclicIndirection),
{
    let mut textures: Vec<String> = Vec::new();
    let mut out: Vec<Vec<ResolvedModel>> = Vec::new();
    let nf = folders.len();
    let mut f: usize = 0;
    assert(strings_view(textures@) =~= Seq::<Seq<char>>::empty());
    while f < nf
        invariant
            nf == folders@.len(),
            f <= nf,
            out@.len() == f,
            cache_consistent(defs@, cache@),
            forall|i: int| 0 <= i < defs@.len() ==> find_file(cache@, #[trigger] defs@[i].path@) >= 0,
            forall|a: int, q: int|
                0 <= a < folders@.len() && 0 <= q < folders@[a]@.len() ==> #[trigger] folders@[a]@[q] < defs@.len(),
            strings_view(textures@) == intern_all(Seq::empty(), folders_literals(defs@, cache@, folders@.take(f as int))),
            strings_view(textures@).no_duplicates(),
            forall|a: int, q: int|
                0 <= a < f && 0 <= q < folders@[a]@.len() ==> resolved_from(
                    #[trigger] out@[a]@[q],
                    cache@[find_file(cache@, defs@[folders@[a]@[q] as int].path@)],
                    strings_view(textures@),
                ),
        decreases nf - f,
    {
        let ghost before = strings_view(textures@);
        let folder = &folders[f];
        proof {
            assert forall|q: int| 0 <= q < folder@.len() implies (#[trigger] folder@[q]) < defs@.len() && find_file(
                cache@,
                defs@[folder@[q] as int].path@,
            ) >= 0 by {
                assert(folders@[f as int]@[q] < defs@.len());
            }
        }
        let v = match load_folder(defs, cache, folder, &mut textures) {
            Ok(v) => v,
            Err(e) => {
                proof {
                    lemma_folder_error(defs@, cache@, folders@, f as int, e@);
                }
                return Err(e);
            },
        };
        proof {
            lemma_table_step(defs@, cache@, folders@, f as int);
            assert forall|a: int, q: int|
                0 <= a < f && 0 <= q < folders@[a]@.len() implies resolved_from(
                    #[trigger] out@[a]@[q],
                    cache@[find_file(cache@, defs@[folders@[a]@[q] as int].path@)],
                    strings_view(textures@),
                ) by {
                lemma_resolved_grows(
                    out@[a]@[q],
                    cache@[find_file(cache@, defs@[folders@[a]@[q] as int].path@)],
                    before,
                    strings_view(textures@),
                );
            }
        }
        out.push(v);
        f = f + 1;
    }
    proof {
        assert(folders@.take(nf as int) == folders@);
    }
    Ok((out, textures))
}

/// Bakes all definitions, then resolves each shape folder in turn into one
/// shared texture table, which is returned alongside.
pub fn load_models(defs: &Vec<RawDefinition>, folders: &Vec<Vec<usize>>) -> (r: Result<
    (Vec<Vec<ResolvedModel>>, Vec<String>),
    LoadError,
>)
    requires
        forall|f: int, q: int|
            0 <= f < folders@.len() && 0 <= q < folders@[f]@.len() ==> #[trigger] folders@[f]@[q] < defs@.len(),
    ensures
        r matches Ok((v, t)) ==> v@.len() == folders@.len() && strings_view(t@).no_duplicates() && exists|
            cache: Seq<BakedFile>,
        |
            cache_consistent(defs@, cache) && strings_view(t@) == intern_all(
                Seq::empty(),
                folders_literals(defs@, cache, folders@),
            ) && forall|f: int, q: int|
                0 <= f < folders@.len() && 0 <= q < folders@[f]@.len() ==> resolved_from(
                    #[trigger] v@[f]@[q],
                    cache[find_file(cache, defs@[folders@[f]@[q] as int].path@)],
                    strings_view(t@),
                ),
        r matches Err(LoadError::MissingInheritedFile(p)) ==> find_def(defs@, p@) < 0 && inherited_somewhere(defs@, p@),
        r matches Err(e) ==> (e is UnresolvedVariable ==> fails_somewhere(defs@, e@) || resolution_fails(
            defs@,
            folders@,
            e@,
        )),
        r matches Err(e) ==> (e is CyclicIndirection ==> resolution_fails(defs@, folders@, e@)),
        r matches Err(e) ==> (e is InheritanceCycle ==> exists|c: Seq<int>|
            is_chain(defs@, c) && #[trigger] c.len() > defs@.len()),
        !bake_blocked(defs@) && (forall|e: LoadErrorView| !#[trigger] resolution_fails(defs@, folders@, e))
            ==> r is Ok,
{
    let cache = bake_all(defs)?;
    let r = resolve_folders(defs, &cache, folders);
    proof {
        if r is Ok {
            let t = r->Ok_0.1;
            assert(cache_consistent(defs@, cache@) && strings_view(t@) == intern_all(
                Seq::empty(),
                folders_literals(defs@, cache@, folders@),
            ));
        }
    }
    r
}

} // verus!
