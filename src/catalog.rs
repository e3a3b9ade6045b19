//! Per-shape model catalogs: material names of definition files, 1-based
//! model numbers bound to paths, and how a query was matched.

use vstd::prelude::*;
use crate::cache::{resolve, Cache};
use crate::identifier::{ignorable_segment, upper_seq, Identifier, MaterialIdentifierElement};

verus! {

/// The reserved file name that stands for its directory.
pub open spec fn mod_file_name() -> Seq<char> {
    seq!['m', 'o', 'd', '.', 'r', 'o', 'n']
}

/// The extension of definition files.
pub open spec fn ron_ext() -> Seq<char> {
    seq!['.', 'r', 'o', 'n']
}

/// A path component without a trailing definition-file extension.
pub open spec fn strip_ron(c: Seq<char>) -> Seq<char> {
    if c.len() >= 4 && c.subrange(c.len() - 4, c.len() as int) == ron_ext() {
        c.subrange(0, c.len() - 4)
    } else {
        c
    }
}

/// The material path of a definition file, from its path components below
/// the shape folder: the reserved file name is dropped, every other
/// component loses its extension and is upper-cased.
pub open spec fn material_name(comps: Seq<Seq<char>>) -> Seq<Seq<char>>
    decreases comps.len(),
{
    if comps.len() == 0 {
        Seq::empty()
    } else {
        let p = material_name(comps.drop_last());
        if comps.last() == mod_file_name() {
            p
        } else {
            p.push(upper_seq(strip_ron(comps.last())))
        }
    }
}

/// The identifier for a definition file with these path components below
/// its shape folder.
pub fn into_material_name(comps: &Vec<String>) -> (r: Identifier)
    ensures
        r@ == material_name(comps@.map_values(|c: String| c@)),
{
    let ghost cv = comps@.map_values(|c: String| c@);
    let mod_name = String::from_str("mod.ron");
    let ext = String::from_str(".ron");
    proof {
        reveal_strlit("mod.ron");
        reveal_strlit(".ron");
    }
    assert(mod_name@ == mod_file_name());
    assert(ext@ == ron_ext());
    let mut out: Vec<MaterialIdentifierElement> = Vec::new();
    let n = comps.len();
    let mut k: usize = 0;
    while k < n
        invariant
            n == comps@.len(),
            k <= n,
            cv == comps@.map_values(|c: String| c@),
            mod_name@ == mod_file_name(),
            ext@ == ron_ext(),
            crate::identifier::elements_view(out@) == material_name(cv.take(k as int)),
        decreases n - k,
    {
        assert(cv.take(k + 1).drop_last() == cv.take(k as int));
        let c = &comps[k];
        if !(*c == mod_name) {
            let s = c.as_str();
            let len = s.unicode_len();
            let stem: &str = if len >= 4 && String::from_str(s.substring_char(len - 4, len)) == ext {
                s.substring_char(0, len - 4)
            } else {
                s
            };
            assert(stem@ == strip_ron(c@));
            let ghost before = out@;
            out.push(MaterialIdentifierElement::new(stem));
            assert(crate::identifier::elements_view(out@) =~= crate::identifier::elements_view(before).push(
                upper_seq(strip_ron(c@)),
            ));
        }
        k = k + 1;
    }
    assert(cv.take(n as int) == cv);
    Identifier::from_segments(out)
}

/// How a query was answered: at the exact path, by an ancestor or the
/// default without cause for a warning, or by an ancestor or the default
/// for a path that has no model of its own.
#[derive(Clone, Copy, PartialEq, Eq, Structural, Debug)]
pub enum MatchKind {
    Exact,
    Fallback,
    Missing,
}

/// The model with 1-based number `index`; 0 and numbers past the end stand
/// for none.
pub open spec fn model_at<M>(models: Seq<M>, index: u32) -> Option<M> {
    if 1 <= index <= models.len() {
        Some(models[index - 1])
    } else {
        None
    }
}

/// The models of one shape class, and which material path uses which.
pub struct ModelStorage<M> {
    models: Vec<M>,
    identifiers: Cache<Identifier, u32>,
}

impl<M> ModelStorage<M> {
    pub closed spec fn wf(&self) -> bool {
        &&& self.identifiers.wf()
        &&& self.identifiers.default_spec() is Some
    }

    /// The models in the order they were added.
    pub closed spec fn models_spec(&self) -> Seq<M> {
        self.models@
    }

    /// Model numbers stored at exact paths.
    pub closed spec fn ids(&self) -> Map<Seq<Seq<char>>, u32> {
        self.identifiers@
    }

    /// The model number used where no path matches.
    pub closed spec fn default_id(&self) -> u32 {
        self.identifiers.default_spec()->0
    }

    /// The model number that lookup of `p` yields.
    pub open spec fn id_of(&self, p: Seq<Seq<char>>) -> u32 {
        resolve(self.ids(), Some(self.default_id()), p)->0
    }

    pub proof fn lemma_id_of_defined(&self, p: Seq<Seq<char>>)
        ensures
            resolve(self.ids(), Some(self.default_id()), p) is Some,
        decreases p.len(),
    {
        if !self.ids().contains_key(p) && p.len() > 0 {
            self.lemma_id_of_defined(p.drop_last());
        }
    }

    pub fn new() -> (r: Self)
        ensures
            r.wf(),
            r.models_spec().len() == 0,
            r.ids() == Map::<Seq<Seq<char>>, u32>::empty(),
            r.default_id() == 0,
    {
        ModelStorage { models: Vec::new(), identifiers: Cache::new_with_default(0) }
    }

    /// Appends `model` and binds `identifier` to its 1-based number; the
    /// empty path sets the default instead. Returns the number.
    pub fn add_model(&mut self, model: M, identifier: Identifier) -> (r: u32)
        requires
            old(self).wf(),
            old(self).models_spec().len() < u32::MAX,
        ensures
            final(self).wf(),
            final(self).models_spec() == old(self).models_spec().push(model),
            r == final(self).models_spec().len(),
            identifier@.len() == 0 ==> final(self).ids() == old(self).ids() && final(self).default_id() == r,
            identifier@.len() > 0 ==> final(self).ids() == old(self).ids().insert(identifier@, r)
                && final(self).default_id() == old(self).default_id(),
    {
        self.models.push(model);
        let id = self.models.len() as u32;
        if identifier.is_empty() {
            self.identifiers.set_default(id);
        } else {
            self.identifiers.set(identifier, id);
        }
        id
    }

    /// The number of the model for `id`, by hierarchical lookup.
    pub fn get_model_id(&self, id: &Identifier) -> (r: Result<u32, u32>)
        requires
            self.wf(),
        ensures
            r == Ok::<u32, u32>(self.id_of(id@)),
    {
        proof {
            self.lemma_id_of_defined(id@);
        }
        match self.identifiers.get_recursive(id) {
            Some(v) => Ok(*v),
            None => Err(0),
        }
    }

    fn model_ref(&self, index: u32) -> (r: Option<&M>)
        ensures
            r is Some <==> model_at(self.models@, index) is Some,
            r is Some ==> *r->0 == model_at(self.models@, index)->0,
    {
        if index >= 1 && (index as usize) <= self.models.len() {
            Some(&self.models[(index - 1) as usize])
        } else {
            None
        }
    }

    /// The model for `id`, by hierarchical lookup, without memoizing.
    pub fn get_model(&self, id: &Identifier) -> (r: Result<Option<&M>, Option<&M>>)
        requires
            self.wf(),
        ensures
            r matches Ok(o) && (o is Some <==> model_at(self.models_spec(), self.id_of(id@)) is Some) && (
            o is Some ==> *o->0 == model_at(self.models_spec(), self.id_of(id@))->0),
    {
        match self.get_model_id(id) {
            Ok(i) => Ok(self.model_ref(i)),
            Err(i) => Err(self.model_ref(i)),
        }
    }

    /// The model number for `id`: `Ok` when stored at exactly `id`; else
    /// the inherited number, now stored at `id`, as `Err`.
    pub fn get_model_id_and_cache(&mut self, id: &Identifier) -> (r: Result<Option<u32>, Option<u32>>)
        requires
            old(self).wf(),
        ensures
            final(self).wf(),
            final(self).models_spec() == old(self).models_spec(),
            final(self).default_id() == old(self).default_id(),
            old(self).ids().contains_key(id@) ==> final(self).ids() == old(self).ids() && r == Ok::<
                Option<u32>,
                Option<u32>,
            >(Some(old(self).ids()[id@])),
            !old(self).ids().contains_key(id@) ==> final(self).ids() == old(self).ids().insert(
                id@,
                old(self).id_of(id@),
            ) && r == Err::<Option<u32>, Option<u32>>(Some(old(self).id_of(id@))),
    {
        match self.identifiers.get_or_initialize_with_parent(id) {
            Ok(v) => Ok(Some(*v.unwrap())),
            Err(v) => Err(Some(*v.unwrap())),
        }
    }

    /// The model for `id`, memoizing the lookup: `Ok` when a number is
    /// stored at exactly `id`, else `Err` with the inherited model.
    pub fn get_model_and_cache(&mut self, id: &Identifier) -> (r: Result<Option<&M>, Option<&M>>)
        requires
            old(self).wf(),
        ensures
            final(self).wf(),
            final(self).models_spec() == old(self).models_spec(),
            final(self).default_id() == old(self).default_id(),
            final(self).ids() == old(self).ids().insert(id@, old(self).id_of(id@)),
            r is Ok <==> old(self).ids().contains_key(id@),
            ({
                let o = match r {
                    Ok(o) => o,
                    Err(o) => o,
                };
                &&& o is Some <==> model_at(old(self).models_spec(), old(self).id_of(id@)) is Some
                &&& o is Some ==> *o->0 == model_at(old(self).models_spec(), old(self).id_of(id@))->0
            }),
    {
        proof {
            old(self).lemma_id_of_defined(id@);
            if old(self).ids().contains_key(id@) {
                assert(old(self).ids().insert(id@, old(self).id_of(id@)) =~= old(self).ids());
            }
        }
        match self.get_model_id_and_cache(id) {
            Ok(i) => Ok(self.model_ref(i.unwrap())),
            Err(i) => Err(self.model_ref(i.unwrap())),
        }
    }

    /// Answers a query for `id` and says how it was matched. A path without
    /// a number of its own is a `Fallback` when its last segment is the
    /// ignorable one, else `Missing`; either way it gets the inherited model.
    pub fn resolve(&mut self, id: &Identifier) -> (r: (Option<&M>, MatchKind))
        requires
            old(self).wf(),
        ensures
            final(self).wf(),
            final(self).models_spec() == old(self).models_spec(),
            final(self).ids() == old(self).ids().insert(id@, old(self).id_of(id@)),
            r.0 is Some <==> model_at(old(self).models_spec(), old(self).id_of(id@)) is Some,
            r.0 is Some ==> *r.0->0 == model_at(old(self).models_spec(), old(self).id_of(id@))->0,
            r.1 == (if old(self).ids().contains_key(id@) {
                MatchKind::Exact
            } else if id@.len() > 0 && id@.last() == ignorable_segment() {
                MatchKind::Fallback
            } else {
                MatchKind::Missing
            }),
    {
        let ignorable = id.last_is_ignorable();
        match self.get_model_and_cache(id) {
            Ok(m) => (m, MatchKind::Exact),
            Err(m) => {
                if ignorable {
                    (m, MatchKind::Fallback)
                } else {
                    (m, MatchKind::Missing)
                }
            },
        }
    }

    /// The number of models.
    pub fn len(&self) -> (r: usize)
        ensures
            r == self.models_spec().len(),
    {
        self.models.len()
    }
}

/// The number of shape classes; shape ids run from -1 up to this minus two.
pub const SHAPE_COUNT: usize = 21;

/// One value per shape class, addressed by shape id (-1 for no shape).
pub struct RegistryContainers<T> {
    registries: Vec<T>,
}

impl<T> View for RegistryContainers<T> {
    type V = Seq<T>;

    closed spec fn view(&self) -> Seq<T> {
        self.registries@
    }
}

impl<T> RegistryContainers<T> {
    /// A container whose every slot is made by `f`.
    pub fn new<F: Fn() -> T>(f: F) -> (r: Self)
        requires
            f.requires(()),
        ensures
            r@.len() == SHAPE_COUNT,
            forall|i: int| 0 <= i < SHAPE_COUNT ==> f.ensures((), #[trigger] r@[i]),
    {
        let mut registries: Vec<T> = Vec::new();
        let mut i: usize = 0;
        while i < SHAPE_COUNT
            invariant
                i <= SHAPE_COUNT,
                registries@.len() == i,
                f.requires(()),
                forall|j: int| 0 <= j < i ==> f.ensures((), #[trigger] registries@[j]),
            decreases SHAPE_COUNT - i,
        {
            registries.push(f());
            i = i + 1;
        }
        RegistryContainers { registries }
    }

    /// The slot of shape `shape`.
    pub fn get(&self, shape: i32) -> (r: &T)
        requires
            self@.len() == SHAPE_COUNT,
            -1 <= shape < SHAPE_COUNT - 1,
        ensures
            *r == self@[shape + 1],
    {
        &self.registries[(shape + 1) as usize]
    }

    /// Replaces the slot of shape `shape`; returns what it held.
    pub fn replace(&mut self, shape: i32, value: T) -> (r: T)
        requires
            old(self)@.len() == SHAPE_COUNT,
            -1 <= shape < SHAPE_COUNT - 1,
        ensures
            r == old(self)@[shape + 1],
            final(self)@ == old(self)@.update(shape + 1, value),
    {
        let i = (shape + 1) as usize;
        let mut value = value;
        std::mem::swap(&mut self.registries[i], &mut value);
        value
    }
}

/// The model numbers that publishing files with these material paths in
/// order gives: each path is bound to its file's 1-based number, the empty
/// path sets the default, a later file wins.
pub open spec fn published(names: Seq<Seq<Seq<char>>>) -> (Map<Seq<Seq<char>>, u32>, u32)
    decreases names.len(),
{
    if names.len() == 0 {
        (Map::empty(), 0)
    } else {
        let (m, d) = published(names.drop_last());
        let i = names.len() as u32;
        if names.last().len() == 0 {
            (m, i)
        } else {
            (m.insert(names.last(), i), d)
        }
    }
}

/// A catalog of the given models, each bound to its material path, in order.
pub fn build_storage<M>(entries: Vec<(Identifier, M)>) -> (r: ModelStorage<M>)
    requires
        entries@.len() < u32::MAX,
    ensures
        r.wf(),
        r.models_spec() == entries@.map_values(|e: (Identifier, M)| e.1),
        r.ids() == published(entries@.map_values(|e: (Identifier, M)| e.0@)).0,
        r.default_id() == published(entries@.map_values(|e: (Identifier, M)| e.0@)).1,
{
    let ghost all = entries@;
    let mut rest = entries;
    let mut storage: ModelStorage<M> = ModelStorage::new();
    let n = rest.len();
    let mut k: usize = 0;
    while k < n
        invariant
            n == all.len(),
            n < u32::MAX,
            k <= n,
            rest@ == all.subrange(k as int, n as int),
            storage.wf(),
            storage.models_spec() == all.take(k as int).map_values(|e: (Identifier, M)| e.1),
            storage.ids() == published(all.take(k as int).map_values(|e: (Identifier, M)| e.0@)).0,
            storage.default_id() == published(all.take(k as int).map_values(|e: (Identifier, M)| e.0@)).1,
        decreases n - k,
    {
        let (name, model) = rest.remove(0);
        assert(all.take(k + 1).map_values(|e: (Identifier, M)| e.0@).drop_last() == all.take(
            k as int,
        ).map_values(|e: (Identifier, M)| e.0@));
        assert(all[k as int] == (name, model));
        storage.add_model(model, name);
        assert(storage.models_spec() =~= all.take(k + 1).map_values(|e: (Identifier, M)| e.1));
        k = k + 1;
        assert(rest@ =~= all.subrange(k as int, n as int));
    }
    assert(all.take(n as int) == all);
    storage
}

} // verus!
