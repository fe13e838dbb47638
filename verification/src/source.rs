use crate::context::Contextual;
use std::path::PathBuf;
use vstd::prelude::*;

verus! {

pub type SourceIdIndex = u32;

/// The path of a file. Verus does not look inside.
#[verifier::external_type_specification]
#[verifier::external_body]
pub struct ExPathBuf(PathBuf);

/// Names one source of a source map: its position in the map that gave the id.
#[derive(Debug, Clone, Copy, PartialEq, Eq, Structural)]
pub struct SourceId(SourceIdIndex);

impl SourceId {
    /// The position that the id names.
    pub closed spec fn spec_index(self) -> nat {
        self.0 as nat
    }

    /// Two ids that name the same position are the same id.
    pub proof fn lemma_equal(self, other: SourceId)
        requires
            self.spec_index() == other.spec_index(),
        ensures
            self == other,
    {
    }

    /// The position that the id names.
    pub fn index(self) -> (r: SourceIdIndex)
        ensures
            r == self.spec_index(),
    {
        self.0
    }
}

/// A value together with the source that it came from.
pub type WithID<Val> = Contextual<SourceId, Val>;

/// One source: the name of its file and its content.
#[derive(Debug)]
pub struct Source {
    pub file_name: PathBuf,
    pub content: String,
}

/// The sources of one session, in the order in which they were added.
/// Sources are only ever added.
#[derive(Debug)]
pub struct SourceMap {
    sources: Vec<Source>,
}

impl View for SourceMap {
    type V = Seq<Source>;

    closed spec fn view(&self) -> Seq<Source> {
        self.sources@
    }
}

impl Default for SourceMap {
    fn default() -> (r: Self)
        ensures
            r@ == Seq::<Source>::empty(),
    {
        Self::new()
    }
}

impl SourceMap {
    /// Whether `id` names a source of this map.
    pub open spec fn has_source(&self, id: SourceId) -> bool {
        id.spec_index() < self@.len()
    }

    /// A map that holds no source yet.
    pub fn new() -> (r: Self)
        ensures
            r@ == Seq::<Source>::empty(),
    {
        Self { sources: Vec::new() }
    }

    /// The number of sources held.
    pub fn len(&self) -> (n: usize)
        ensures
            n == self@.len(),
    {
        self.sources.len()
    }

    /// Adds `source` behind the sources already held, whatever they are, and
    /// returns the id of its position. The position must fit the id.
    pub fn add_or_get(&mut self, source: Source) -> (id: SourceId)
        requires
            old(self)@.len() <= u32::MAX,
        ensures
            final(self)@ == old(self)@.push(source),
            id.spec_index() == old(self)@.len(),
    {
        let id = self.sources.len();
        self.sources.push(source);
        SourceId(id as u32)
    }

    /// The source that `source_id` names.
    pub fn get(&self, source_id: SourceId) -> (r: &Source)
        requires
            self.has_source(source_id),
        ensures
            *r == self@[source_id.spec_index() as int],
    {
        &self.sources[source_id.0 as usize]
    }

    /// The content of the source that `source_id` names.
    pub fn get_content(&self, source_id: SourceId) -> (r: &str)
        requires
            self.has_source(source_id),
        ensures
            r@ == self@[source_id.spec_index() as int].content@,
    {
        self.get(source_id).content.as_str()
    }
}

} // verus!
