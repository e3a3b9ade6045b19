//! Naming definition files by the directories they sit in, and the parts of
//! the JSON model format that carry no numbers.

use vstd::prelude::*;

verus! {

/// One segment of a model name, as found on disk.
pub enum Element {
    Custom(String),
}

impl View for Element {
    type V = Seq<char>;

    open spec fn view(&self) -> Seq<char> {
        match self {
            Element::Custom(s) => s@,
        }
    }
}

impl Clone for Element {
    fn clone(&self) -> (r: Self)
        ensures
            r@ == self@,
    {
        match self {
            Element::Custom(s) => Element::Custom(s.clone()),
        }
    }
}

pub open spec fn elements_view(v: Seq<Element>) -> Seq<Seq<char>> {
    v.map_values(|e: Element| e@)
}

/// A model name: the directories that lead to a definition file.
pub struct MaterialIdentifier(Vec<Element>);

impl View for MaterialIdentifier {
    type V = Seq<Seq<char>>;

    closed spec fn view(&self) -> Seq<Seq<char>> {
        elements_view(self.0@)
    }
}

impl MaterialIdentifier {
    /// A name with a copy of these segments.
    pub fn clone_new_from(v: &Vec<Element>) -> (r: Self)
        ensures
            r@ == elements_view(v@),
    {
        let n = v.len();
        let mut out: Vec<Element> = Vec::new();
        let mut i: usize = 0;
        while i < n
            invariant
                n == v@.len(),
                i <= n,
                out@.len() == i,
                forall|j: int| 0 <= j < i ==> #[trigger] out@[j]@ == v@[j]@,
            decreases n - i,
        {
            out.push(v[i].clone());
            i = i + 1;
        }
        let r = MaterialIdentifier(out);
        assert(r@ =~= elements_view(v@));
        r
    }
}

/// Collects definition files while a directory tree is walked: each file is
/// named by the directories above it.
pub struct Scanner {
    files: Vec<(MaterialIdentifier, String)>,
    name: Vec<Element>,
}

impl Scanner {
    /// The directories entered and not yet left.
    pub closed spec fn current(&self) -> Seq<Seq<char>> {
        elements_view(self.name@)
    }

    /// The files found so far: name and content.
    pub closed spec fn found(&self) -> Seq<(Seq<Seq<char>>, Seq<char>)> {
        self.files@.map_values(|f: (MaterialIdentifier, String)| (f.0@, f.1@))
    }

    pub fn new() -> (r: Self)
        ensures
            r.current().len() == 0,
            r.found().len() == 0,
    {
        Scanner { files: Vec::new(), name: Vec::new() }
    }

    /// Steps into a directory.
    pub fn enter_dir(&mut self, dir: String)
        ensures
            final(self).current() == old(self).current().push(dir@),
            final(self).found() == old(self).found(),
    {
        let ghost before = self.name@;
        self.name.push(Element::Custom(dir));
        assert(elements_view(self.name@) =~= elements_view(before).push(dir@));
    }

    /// Steps out of the innermost directory.
    pub fn leave_dir(&mut self)
        requires
            old(self).current().len() > 0,
        ensures
            final(self).current() == old(self).current().drop_last(),
            final(self).found() == old(self).found(),
    {
        self.name.pop();
        assert(elements_view(self.name@) =~= elements_view(old(self).name@).drop_last());
    }

    /// Records a file with this content under the current directories.
    pub fn add_file(&mut self, content: String)
        ensures
            final(self).current() == old(self).current(),
            final(self).found() == old(self).found().push((old(self).current(), content@)),
    {
        let id = MaterialIdentifier::clone_new_from(&self.name);
        let ghost before = self.files@;
        self.files.push((id, content));
        assert(self.found() =~= old(self).found().push((old(self).current(), content@)));
    }

    /// The number of files found.
    pub fn num_files(&self) -> (r: usize)
        ensures
            r == self.found().len(),
    {
        self.files.len()
    }

    /// The content of file `i`.
    pub fn content(&self, i: usize) -> (r: &String)
        requires
            i < self.found().len(),
        ensures
            r@ == self.found()[i as int].1,
    {
        &self.files[i].1
    }
}

/// Whether a side of a block is drawn over its neighbour.
#[derive(Clone, Copy, PartialEq, Eq, Structural, Debug)]
pub enum Visibility {
    Solid,
    Transparent,
}

/// Visibility per side of a block; a side left out takes `sides`, then
/// `all`.
#[derive(Clone, Copy, PartialEq, Eq, Structural, Debug)]
pub struct VisibilityDefinition {
    pub all: Option<Visibility>,
    pub sides: Option<Visibility>,
    /// y+
    pub top: Option<Visibility>,
    /// y-
    pub bottom: Option<Visibility>,
    /// z+
    pub front: Option<Visibility>,
    /// z-
    pub back: Option<Visibility>,
    /// x+
    pub left: Option<Visibility>,
    /// x-
    pub right: Option<Visibility>,
}

/// How a model's shape is given.
pub enum ModelDefinition {
    SDF(String),
    Solid,
}

/// How a model is coloured.
pub enum Coloring {
    UvMapped { texture: String },
}

} // verus!
