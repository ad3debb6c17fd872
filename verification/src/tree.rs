//! The directory tree of a site manifest.

use vstd::prelude::*;

verus! {

/// Handle of a blob in the remote blob store.
#[derive(Debug, PartialEq, Eq)]
pub struct BlobRef {
    /// Content identifier of the stored bytes.
    pub cid: String,
    /// Media type the blob was uploaded with.
    pub mime_type: String,
    /// Size of the stored bytes.
    pub size: u64,
}

/// A file leaf.
#[derive(Debug, PartialEq, Eq)]
pub struct File {
    pub blob: BlobRef,
    /// Content encoding of the stored bytes, `gzip` or none.
    pub encoding: Option<String>,
    /// Media type of the file itself.
    pub mime_type: Option<String>,
    /// Whether the stored bytes are base64 text.
    pub base64: Option<bool>,
}

/// A reference to a shard record that holds a subtree.
#[derive(Debug, PartialEq, Eq)]
pub struct Subfs {
    /// Address of the shard record.
    pub subject: String,
    /// `true` splices the shard's entries into the parent, `false` keeps
    /// them in a directory named after the entry.
    pub flat: bool,
}

/// What an entry of a directory is.
#[derive(Debug, PartialEq, Eq)]
pub enum EntryNode {
    File(Box<File>),
    Directory(Box<Directory>),
    Subfs(Box<Subfs>),
    /// A node of a kind that this engine does not know. It counts as no
    /// file, has no size and no blob.
    Unknown,
}

/// A named node of a directory.
#[derive(Debug, PartialEq, Eq)]
pub struct Entry {
    pub name: String,
    pub node: EntryNode,
}

/// A directory: its entries in their order. Names are meant to be
/// distinct within a directory; nothing here enforces it.
#[derive(Debug, PartialEq, Eq)]
pub struct Directory {
    pub entries: Vec<Entry>,
}

/// A blob reference as contracts see it.
pub struct BlobRefView {
    pub cid: Seq<char>,
    pub mime_type: Seq<char>,
    pub size: u64,
}

/// A file leaf as contracts see it.
pub struct FileView {
    pub blob: BlobRefView,
    pub encoding: Option<Seq<char>>,
    pub mime_type: Option<Seq<char>>,
    pub base64: Option<bool>,
}

/// A shard reference as contracts see it.
pub struct SubfsView {
    pub subject: Seq<char>,
    pub flat: bool,
}

/// A node as contracts see it. A directory is the list of its entries.
pub enum NodeView {
    File(FileView),
    Directory(Seq<EntryView>),
    Subfs(SubfsView),
    Unknown,
}

/// An entry as contracts see it.
pub struct EntryView {
    pub name: Seq<char>,
    pub node: NodeView,
}

impl View for BlobRef {
    type V = BlobRefView;

    open spec fn view(&self) -> BlobRefView {
        BlobRefView { cid: self.cid@, mime_type: self.mime_type@, size: self.size }
    }
}

/// The text of a string that may be missing.
pub open spec fn opt_text(s: Option<String>) -> Option<Seq<char>> {
    match s {
        Some(t) => Some(t@),
        None => None,
    }
}

impl View for File {
    type V = FileView;

    open spec fn view(&self) -> FileView {
        FileView {
            blob: self.blob@,
            encoding: opt_text(self.encoding),
            mime_type: opt_text(self.mime_type),
            base64: self.base64,
        }
    }
}

impl View for Subfs {
    type V = SubfsView;

    open spec fn view(&self) -> SubfsView {
        SubfsView { subject: self.subject@, flat: self.flat }
    }
}

/// The entries of a directory as contracts see them.
pub open spec fn entries_view(entries: Seq<Entry>) -> Seq<EntryView>
    decreases entries,
{
    Seq::new(entries.len(), |i: int|
        if 0 <= i < entries.len() {
            entry_view(entries[i])
        } else {
            arbitrary()
        })
}

/// An entry as contracts see it, with all that is below it.
pub open spec fn entry_view(entry: Entry) -> EntryView
    decreases entry,
{
    EntryView {
        name: entry.name@,
        node: match entry.node {
            EntryNode::File(f) => NodeView::File(f@),
            EntryNode::Directory(d) => NodeView::Directory(entries_view(d.entries@)),
            EntryNode::Subfs(s) => NodeView::Subfs(s@),
            EntryNode::Unknown => NodeView::Unknown,
        },
    }
}

impl View for Entry {
    type V = EntryView;

    open spec fn view(&self) -> EntryView {
        entry_view(*self)
    }
}

impl View for Directory {
    type V = Seq<EntryView>;

    open spec fn view(&self) -> Seq<EntryView> {
        entries_view(self.entries@)
    }
}

/// Number of file leaves below `entries`; shard references and unknown
/// nodes count as none.
pub open spec fn file_count(entries: Seq<EntryView>) -> nat
    decreases entries,
{
    if entries.len() == 0 {
        0
    } else {
        file_count(entries.drop_last()) + match entries.last().node {
            NodeView::File(_) => 1nat,
            NodeView::Directory(sub) => file_count(sub),
            NodeView::Subfs(_) => 0nat,
            NodeView::Unknown => 0nat,
        }
    }
}

impl Subfs {
    /// A reference as a record states it: one that says nothing of its
    /// merge mode is flat.
    pub fn new(subject: String, flat: Option<bool>) -> (reference: Subfs)
        ensures
            reference.subject == subject,
            reference.flat == match flat {
                Some(f) => f,
                None => true,
            },
    {
        Subfs {
            subject,
            flat: match flat {
                Some(f) => f,
                None => true,
            },
        }
    }
}

fn clone_text(s: &Option<String>) -> (copy: Option<String>)
    ensures
        opt_text(copy) == opt_text(*s),
{
    match s {
        Some(t) => Some(t.clone()),
        None => None,
    }
}

impl Clone for BlobRef {
    fn clone(&self) -> (copy: Self)
        ensures
            copy@ == self@,
    {
        BlobRef { cid: self.cid.clone(), mime_type: self.mime_type.clone(), size: self.size }
    }
}

impl Clone for File {
    fn clone(&self) -> (copy: Self)
        ensures
            copy@ == self@,
    {
        File {
            blob: self.blob.clone(),
            encoding: clone_text(&self.encoding),
            mime_type: clone_text(&self.mime_type),
            base64: self.base64,
        }
    }
}

impl Clone for Subfs {
    fn clone(&self) -> (copy: Self)
        ensures
            copy@ == self@,
    {
        Subfs { subject: self.subject.clone(), flat: self.flat }
    }
}

impl Clone for Entry {
    fn clone(&self) -> (copy: Self)
        ensures
            copy@ == self@,
        decreases self,
    {
        let node = match &self.node {
            EntryNode::File(f) => EntryNode::File(Box::new((**f).clone())),
            EntryNode::Directory(d) => EntryNode::Directory(Box::new((**d).clone())),
            EntryNode::Subfs(s) => EntryNode::Subfs(Box::new((**s).clone())),
            EntryNode::Unknown => EntryNode::Unknown,
        };
        Entry { name: self.name.clone(), node }
    }
}

impl Clone for Directory {
    fn clone(&self) -> (copy: Self)
        ensures
            copy@ == self@,
        decreases self,
    {
        let mut entries: Vec<Entry> = Vec::new();
        let mut i: usize = 0;
        while i < self.entries.len()
            invariant
                i <= self.entries.len(),
                entries_view(entries@) == self@.take(i as int),
            decreases self.entries.len() - i,
        {
            let entry = self.entries[i].clone();
            proof {
                assert(entries_view(entries@.push(entry)) =~= entries_view(entries@).push(entry@));
                assert(self@.take(i + 1) =~= self@.take(i as int).push(self@[i as int]));
            }
            entries.push(entry);
            i += 1;
        }
        proof {
            assert(self@.take(i as int) == self@);
        }
        Directory { entries }
    }
}

/// The files below a joined list are those below its parts.
pub proof fn lemma_file_count_concat(a: Seq<EntryView>, b: Seq<EntryView>)
    ensures
        file_count(a + b) == file_count(a) + file_count(b),
    decreases b.len(),
{
    if b.len() == 0 {
        assert(a + b == a);
    } else {
        lemma_file_count_concat(a, b.drop_last());
        assert((a + b).drop_last() == a + b.drop_last());
        assert((a + b).last() == b.last());
    }
}

/// The machine value of a count: the count itself where it fits, the
/// largest `usize` otherwise.
pub open spec fn clamp(n: nat) -> usize {
    if n <= usize::MAX {
        n as usize
    } else {
        usize::MAX
    }
}

/// Count all files in a directory tree. Files behind shard references are
/// not counted: they belong to the shard's own count.
pub fn count_files_in_directory(directory: &Directory) -> (count: usize)
    ensures
        count == clamp(file_count(directory@)),
    decreases directory,
{
    let mut count: usize = 0;
    let mut i: usize = 0;
    while i < directory.entries.len()
        invariant
            i <= directory.entries.len(),
            count == clamp(file_count(directory@.take(i as int))),
        decreases directory.entries.len() - i,
    {
        let entry = &directory.entries[i];
        let below: usize = match &entry.node {
            EntryNode::File(_) => 1,
            EntryNode::Directory(subdir) => count_files_in_directory(subdir),
            EntryNode::Subfs(_) => 0,
            EntryNode::Unknown => 0,
        };
        proof {
            assert(directory@.take(i + 1).drop_last() == directory@.take(i as int));
            assert(directory@.take(i + 1).last() == directory@[i as int]);
        }
        count = count.saturating_add(below);
        i += 1;
    }
    proof {
        assert(directory@.take(i as int) == directory@);
    }
    count
}

} // verus!
