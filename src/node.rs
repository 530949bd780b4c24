use vstd::prelude::*;

use crate::bytes::bytes_to_vec;
use crate::names::NameMap;

verus! {

/// A reference to one stored revision of a node: its place in the node store.
#[derive(Debug, Clone, Copy, PartialEq, Eq, Structural)]
pub struct PrivateRef {
    pub index: usize,
}

/// Whether a node is a file or a directory.
#[derive(Debug, Clone, Copy, PartialEq, Eq, Structural)]
pub enum NodeKind {
    File,
    Dir,
}

/// What a node records about itself; times are Unix timestamps in seconds.
#[derive(Debug, Clone, Copy, PartialEq, Eq, Structural)]
pub struct Metadata {
    pub kind: NodeKind,
    pub created: i64,
    pub modified: i64,
}

impl Metadata {
    /// Metadata of a node created at `time`.
    pub fn new(time: i64, kind: NodeKind) -> (r: Metadata)
        ensures
            r == (Metadata { kind, created: time, modified: time }),
    {
        Metadata { kind, created: time, modified: time }
    }

    pub fn is_file(&self) -> (r: bool)
        ensures
            r == (self.kind == NodeKind::File),
    {
        match self.kind {
            NodeKind::File => true,
            NodeKind::Dir => false,
        }
    }
}

/// A file revision with its content inline.
#[derive(Debug)]
pub struct PrivateFile {
    pub(crate) metadata: Metadata,
    pub(crate) content: Vec<u8>,
    pub(crate) previous: Option<PrivateRef>,
    pub(crate) persisted_as: Option<PrivateRef>,
}

/// A directory revision: names of children and references to their revisions.
#[derive(Debug)]
pub struct PrivateDirectory {
    pub(crate) metadata: Metadata,
    pub(crate) entries: NameMap,
    pub(crate) previous: Option<PrivateRef>,
    pub(crate) persisted_as: Option<PrivateRef>,
}

/// A file or a directory.
#[derive(Debug)]
pub enum PrivateNode {
    File(PrivateFile),
    Dir(PrivateDirectory),
}

impl PrivateFile {
    pub closed spec fn metadata_view(&self) -> Metadata {
        self.metadata
    }

    pub closed spec fn content_view(&self) -> Seq<u8> {
        self.content@
    }

    pub closed spec fn previous_view(&self) -> Option<PrivateRef> {
        self.previous
    }

    pub closed spec fn persisted_as_view(&self) -> Option<PrivateRef> {
        self.persisted_as
    }

    /// A new file holding `content`, created at `time`.
    pub fn new(time: i64, content: Vec<u8>) -> (r: PrivateFile)
        ensures
            r.metadata_view() == (Metadata { kind: NodeKind::File, created: time, modified: time }),
            r.content_view() == content@,
            r.previous_view() is None,
            r.persisted_as_view() is None,
    {
        PrivateFile { metadata: Metadata::new(time, NodeKind::File), content, previous: None, persisted_as: None }
    }

    pub fn get_metadata(&self) -> (r: &Metadata)
        ensures
            *r == self.metadata_view(),
    {
        &self.metadata
    }

    /// The content of the file.
    pub fn get_content(&self) -> (r: &Vec<u8>)
        ensures
            r@ == self.content_view(),
    {
        &self.content
    }

    /// The revision this one was made from, if that one was stored.
    pub fn get_previous(&self) -> (r: Option<PrivateRef>)
        ensures
            r == self.previous_view(),
    {
        self.previous
    }

    /// Replaces the content and sets the modification time.
    pub fn set_content(&mut self, content: Vec<u8>, time: i64)
        ensures
            final(self).content_view() == content@,
            final(self).metadata_view() == (Metadata { modified: time, ..old(self).metadata_view() }),
            final(self).previous_view() == old(self).previous_view(),
            final(self).persisted_as_view() == old(self).persisted_as_view(),
    {
        self.content = content;
        self.metadata.modified = time;
    }

    /// The content, consuming the file.
    pub fn into_content(self) -> (r: Vec<u8>)
        ensures
            r@ == self.content_view(),
    {
        self.content
    }

    /// A copy that remembers where it was loaded from.
    pub fn duplicate(&self, loaded_from: Option<PrivateRef>) -> (r: PrivateFile)
        ensures
            r.metadata_view() == self.metadata_view(),
            r.content_view() == self.content_view(),
            r.previous_view() == self.previous_view(),
            r.persisted_as_view() == loaded_from,
    {
        PrivateFile {
            metadata: self.metadata,
            content: bytes_to_vec(self.content.as_slice()),
            previous: self.previous,
            persisted_as: loaded_from,
        }
    }

    /// Readies the file for a change: a stored revision is followed by a new
    /// one that links back to it; an unstored one is changed in place.
    pub fn prepare_next_revision(&mut self)
        ensures
            final(self).metadata_view() == old(self).metadata_view(),
            final(self).content_view() == old(self).content_view(),
            final(self).persisted_as_view() is None,
            old(self).persisted_as_view() is None ==> final(self).previous_view() == old(self).previous_view(),
            old(self).persisted_as_view() is Some ==> final(self).previous_view() == old(self).persisted_as_view(),
    {
        if self.persisted_as.is_some() {
            self.previous = self.persisted_as;
            self.persisted_as = None;
        }
    }
}

impl PrivateDirectory {
    pub closed spec fn wf(&self) -> bool {
        self.entries.wf()
    }

    /// Names of children to references of their revisions.
    pub closed spec fn entries_view(&self) -> Map<Seq<char>, PrivateRef> {
        self.entries@
    }

    pub closed spec fn metadata_view(&self) -> Metadata {
        self.metadata
    }

    pub closed spec fn previous_view(&self) -> Option<PrivateRef> {
        self.previous
    }

    pub closed spec fn persisted_as_view(&self) -> Option<PrivateRef> {
        self.persisted_as
    }

    /// A new empty directory created at `time`.
    pub fn new(time: i64) -> (r: PrivateDirectory)
        ensures
            r.wf(),
            r.entries_view() == Map::<Seq<char>, PrivateRef>::empty(),
            r.metadata_view() == (Metadata { kind: NodeKind::Dir, created: time, modified: time }),
            r.previous_view() is None,
            r.persisted_as_view() is None,
    {
        PrivateDirectory {
            metadata: Metadata::new(time, NodeKind::Dir),
            entries: NameMap::new(),
            previous: None,
            persisted_as: None,
        }
    }

    pub fn get_metadata(&self) -> (r: &Metadata)
        ensures
            *r == self.metadata_view(),
    {
        &self.metadata
    }

    /// The revision this one was made from, if that one was stored.
    pub fn get_previous(&self) -> (r: Option<PrivateRef>)
        ensures
            r == self.previous_view(),
    {
        self.previous
    }

    /// The number of entries.
    pub closed spec fn entry_count_spec(&self) -> nat {
        self.entries.len_spec()
    }

    /// The name of the `i`-th entry.
    pub closed spec fn entry_name_spec(&self, i: int) -> Seq<char> {
        self.entries.key_at_spec(i)
    }

    /// The entries, one name each, are the names of the entry map.
    pub proof fn lemma_entry_names(&self)
        requires
            self.wf(),
        ensures
            self.entry_count_spec() == self.entries_view().dom().len(),
            self.entries_view().dom().finite(),
            forall|i: int| 0 <= i < self.entry_count_spec() ==> #[trigger] self.entries_view().contains_key(self.entry_name_spec(i)),
            forall|i: int, j: int| 0 <= i < j < self.entry_count_spec() ==> #[trigger] self.entry_name_spec(i) != #[trigger] self.entry_name_spec(j),
    {
        self.entries.lemma_dom_len();
        self.entries.lemma_keys();
        self.entries.lemma_keys_distinct();
    }

    pub fn entry_count(&self) -> (r: usize)
        requires
            self.wf(),
        ensures
            r == self.entry_count_spec(),
    {
        self.entries.len()
    }

    /// The name of the `i`-th entry.
    pub fn entry_name_at(&self, i: usize) -> (r: &String)
        requires
            self.wf(),
            i < self.entry_count_spec(),
        ensures
            r@ == self.entry_name_spec(i as int),
    {
        self.entries.key_at(i)
    }

    /// The reference of the `i`-th entry.
    pub fn entry_ref_at(&self, i: usize) -> (r: PrivateRef)
        requires
            self.wf(),
            i < self.entry_count_spec(),
        ensures
            self.entries_view().contains_key(self.entry_name_spec(i as int)),
            r == self.entries_view()[self.entry_name_spec(i as int)],
    {
        *self.entries.value_at(i)
    }

    /// Where this copy was loaded from, if it was.
    pub fn get_persisted_as(&self) -> (r: Option<PrivateRef>)
        ensures
            r == self.persisted_as_view(),
    {
        self.persisted_as
    }

    /// The reference stored under `name`.
    pub fn get_entry(&self, name: &String) -> (r: Option<PrivateRef>)
        requires
            self.wf(),
        ensures
            r == entry_of(self.entries_view(), name@),
    {
        match self.entries.get(name) {
            Some(r) => Some(*r),
            None => None,
        }
    }

    /// A copy that remembers where it was loaded from.
    pub fn duplicate(&self, loaded_from: Option<PrivateRef>) -> (r: PrivateDirectory)
        requires
            self.wf(),
        ensures
            r.wf(),
            r.entries_view() == self.entries_view(),
            r.metadata_view() == self.metadata_view(),
            r.previous_view() == self.previous_view(),
            r.persisted_as_view() == loaded_from,
    {
        PrivateDirectory {
            metadata: self.metadata,
            entries: self.entries.duplicate(),
            previous: self.previous,
            persisted_as: loaded_from,
        }
    }

    /// Readies the directory for a change: a stored revision is followed by a
    /// new one that links back to it; an unstored one is changed in place.
    pub fn prepare_next_revision(&mut self)
        ensures
            final(self).wf() == old(self).wf(),
            final(self).entries_view() == old(self).entries_view(),
            final(self).metadata_view() == old(self).metadata_view(),
            final(self).persisted_as_view() is None,
            old(self).persisted_as_view() is None ==> final(self).previous_view() == old(self).previous_view(),
            old(self).persisted_as_view() is Some ==> final(self).previous_view() == old(self).persisted_as_view(),
    {
        if self.persisted_as.is_some() {
            self.previous = self.persisted_as;
            self.persisted_as = None;
        }
    }

    /// Points `name` at `child`.
    pub fn set_entry(&mut self, name: String, child: PrivateRef)
        requires
            old(self).wf(),
        ensures
            final(self).wf(),
            final(self).entries_view() == old(self).entries_view().insert(name@, child),
            final(self).metadata_view() == old(self).metadata_view(),
            final(self).previous_view() == old(self).previous_view(),
            final(self).persisted_as_view() == old(self).persisted_as_view(),
    {
        self.entries.insert(name, child);
    }

    /// Removes the entry `name`, returning what it referred to.
    pub fn remove_entry(&mut self, name: &String) -> (r: Option<PrivateRef>)
        requires
            old(self).wf(),
        ensures
            final(self).wf(),
            final(self).entries_view() == old(self).entries_view().remove(name@),
            r == entry_of(old(self).entries_view(), name@),
            final(self).metadata_view() == old(self).metadata_view(),
            final(self).previous_view() == old(self).previous_view(),
            final(self).persisted_as_view() == old(self).persisted_as_view(),
    {
        self.entries.remove(name)
    }
}

/// The reference stored under a name, if any.
pub open spec fn entry_of(entries: Map<Seq<char>, PrivateRef>, name: Seq<char>) -> Option<PrivateRef> {
    if entries.contains_key(name) {
        Some(entries[name])
    } else {
        None
    }
}

/// Every reference a node holds points below `bound`.
pub open spec fn refs_below(node: PrivateNode, bound: nat) -> bool {
    match node {
        PrivateNode::File(_) => true,
        PrivateNode::Dir(d) => dir_refs_below(d, bound),
    }
}

pub open spec fn dir_refs_below(d: PrivateDirectory, bound: nat) -> bool {
    &&& d.wf()
    &&& forall|k: Seq<char>| #[trigger] d.entries_view().contains_key(k) ==> d.entries_view()[k].index < bound
    &&& match d.previous_view() {
        Some(p) => p.index < bound,
        None => true,
    }
}

/// The metadata of a node.
pub open spec fn metadata_of(node: PrivateNode) -> Metadata {
    match node {
        PrivateNode::File(f) => f.metadata_view(),
        PrivateNode::Dir(d) => d.metadata_view(),
    }
}

/// Two nodes hold the same revision, wherever each was loaded from.
pub open spec fn same_revision(a: PrivateNode, b: PrivateNode) -> bool {
    match (a, b) {
        (PrivateNode::File(x), PrivateNode::File(y)) => x.metadata_view() == y.metadata_view()
            && x.content_view() == y.content_view() && x.previous_view() == y.previous_view(),
        (PrivateNode::Dir(x), PrivateNode::Dir(y)) => x.wf() == y.wf() && x.entries_view() == y.entries_view()
            && x.metadata_view() == y.metadata_view() && x.previous_view() == y.previous_view(),
        _ => false,
    }
}

impl PrivateNode {
    pub open spec fn is_dir_spec(&self) -> bool {
        self is Dir
    }

    pub fn is_dir(&self) -> (r: bool)
        ensures
            r == self.is_dir_spec(),
    {
        match self {
            PrivateNode::Dir(_) => true,
            PrivateNode::File(_) => false,
        }
    }

    pub fn get_metadata(&self) -> (r: Metadata)
        ensures
            r == match self {
                PrivateNode::File(f) => f.metadata_view(),
                PrivateNode::Dir(d) => d.metadata_view(),
            },
    {
        match self {
            PrivateNode::File(f) => f.metadata,
            PrivateNode::Dir(d) => d.metadata,
        }
    }

    /// The node with its modification time set to `time`.
    pub fn update_mtime(&mut self, time: i64)
        ensures
            match (*old(self), *final(self)) {
                (PrivateNode::File(a), PrivateNode::File(b)) => b.metadata_view() == (Metadata { modified: time, ..a.metadata_view() })
                    && b.content_view() == a.content_view() && b.previous_view() == a.previous_view() && b.persisted_as_view() == a.persisted_as_view(),
                (PrivateNode::Dir(a), PrivateNode::Dir(b)) => b.metadata_view() == (Metadata { modified: time, ..a.metadata_view() })
                    && b.wf() == a.wf() && b.entries_view() == a.entries_view() && b.previous_view() == a.previous_view()
                    && b.persisted_as_view() == a.persisted_as_view(),
                _ => false,
            },
    {
        match self {
            PrivateNode::File(f) => {
                f.metadata.modified = time;
            },
            PrivateNode::Dir(d) => {
                d.metadata.modified = time;
            },
        }
    }

    /// Readies the node for a change, as the file or directory does.
    pub fn prepare_next_revision(&mut self)
        ensures
            match (*old(self), *final(self)) {
                (PrivateNode::File(a), PrivateNode::File(b)) => b.metadata_view() == a.metadata_view() && b.content_view() == a.content_view()
                    && b.persisted_as_view() is None
                    && b.previous_view() == (if a.persisted_as_view() is Some { a.persisted_as_view() } else { a.previous_view() }),
                (PrivateNode::Dir(a), PrivateNode::Dir(b)) => b.metadata_view() == a.metadata_view()
                    && b.wf() == a.wf() && b.entries_view() == a.entries_view() && b.persisted_as_view() is None
                    && b.previous_view() == (if a.persisted_as_view() is Some { a.persisted_as_view() } else { a.previous_view() }),
                _ => false,
            },
    {
        match self {
            PrivateNode::File(f) => f.prepare_next_revision(),
            PrivateNode::Dir(d) => d.prepare_next_revision(),
        }
    }
}

} // verus!
