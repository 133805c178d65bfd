//! The heights that the tables of a program are padded to.
use vstd::prelude::*;
use hashbrown::HashMap;

verus! {

/// A map from the names of tables to the logarithms of their heights.
#[verifier::external_body]
#[derive(Debug)]
pub struct HeightMap {
    inner: HashMap<String, usize>,
}

/// The entries of a height map: the pairs that its `hashbrown::HashMap` holds.
pub uninterp spec fn height_entries(m: HeightMap) -> Map<Seq<char>, usize>;

pub open spec fn no_entries() -> Map<Seq<char>, usize> {
    Map::empty()
}

impl View for HeightMap {
    type V = Map<Seq<char>, usize>;

    open spec fn view(&self) -> Map<Seq<char>, usize> {
        height_entries(*self)
    }
}

/// The map without entries, by `hashbrown::HashMap::new`.
#[verifier::external_body]
fn height_map_new() -> (r: HeightMap)
    ensures
        height_entries(r) == no_entries(),
{
    HeightMap { inner: HashMap::new() }
}

/// The entry of a name, by `hashbrown::HashMap::get`: `None` where the name has none.
#[verifier::external_body]
fn height_map_get(m: &HeightMap, name: &String) -> (r: Option<usize>)
    ensures
        r == (if height_entries(*m).dom().contains(name@) {
            Some(height_entries(*m)[name@])
        } else {
            None
        }),
{
    m.inner.get(name).copied()
}

/// Sets the entry of a name, by `hashbrown::HashMap::insert`: the other entries stay.
#[verifier::external_body]
fn height_map_insert(m: &mut HeightMap, name: String, log_height: usize)
    ensures
        height_entries(*final(m)) == height_entries(*old(m)).insert(name@, log_height),
{
    m.inner.insert(name, log_height);
}

/// The names that have an entry, by `hashbrown::HashMap::keys`: each once, in no particular order.
#[verifier::external_body]
fn height_map_keys(m: &HeightMap) -> (r: Vec<String>)
    ensures
        forall|name: Seq<char>| #[trigger]
            height_entries(*m).dom().contains(name) <==> exists|i: int|
                0 <= i < r@.len() && (#[trigger] r@[i])@ == name,
        forall|i: int, j: int|
            0 <= i < j < r@.len() ==> (#[trigger] r@[i])@ != (#[trigger] r@[j])@,
{
    m.inner.keys().cloned().collect()
}

/// A map with the same entries, by `hashbrown::HashMap::clone`.
#[verifier::external_body]
fn height_map_clone(m: &HeightMap) -> (r: HeightMap)
    ensures
        height_entries(r) == height_entries(*m),
{
    HeightMap { inner: m.inner.clone() }
}

/// The heights of the tables of a program, by name.
#[derive(Debug)]
pub struct RecursionShape {
    pub inner: HeightMap,
}

impl View for RecursionShape {
    type V = Map<Seq<char>, usize>;

    open spec fn view(&self) -> Map<Seq<char>, usize> {
        self.inner@
    }
}

impl HeightMap {
    pub fn new() -> (r: Self)
        ensures
            r@ == no_entries(),
    {
        height_map_new()
    }

    /// The entry of a name.
    pub fn get(&self, name: &String) -> (r: Option<usize>)
        ensures
            r == (if self@.dom().contains(name@) {
                Some(self@[name@])
            } else {
                None
            }),
    {
        height_map_get(self, name)
    }

    /// Sets the entry of a name.
    pub fn insert(&mut self, name: String, log_height: usize)
        ensures
            final(self)@ == old(self)@.insert(name@, log_height),
    {
        height_map_insert(self, name, log_height)
    }

    /// The names that have an entry.
    pub fn keys(&self) -> (r: Vec<String>)
        ensures
            forall|name: Seq<char>| #[trigger]
                self@.dom().contains(name) <==> exists|i: int|
                    0 <= i < r@.len() && (#[trigger] r@[i])@ == name,
            forall|i: int, j: int|
                0 <= i < j < r@.len() ==> (#[trigger] r@[i])@ != (#[trigger] r@[j])@,
    {
        height_map_keys(self)
    }

    /// A map with the same entries.
    pub fn duplicate(&self) -> (r: Self)
        ensures
            r@ == self@,
    {
        height_map_clone(self)
    }
}

impl RecursionShape {
    /// The entries as a map of their own.
    pub fn clone_into_hash_map(&self) -> (r: HeightMap)
        ensures
            r@ == self@,
    {
        self.inner.duplicate()
    }

    /// The shape with the given entries.
    pub fn from_map(value: HeightMap) -> (r: Self)
        ensures
            r@ == value@,
    {
        RecursionShape { inner: value }
    }
}

} // verus!
