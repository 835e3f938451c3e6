//! Encoding the state of a working tree as git trees.
//!
//! The tree of the `code` layer starts out as the index, whose entries need no
//! hashing, and is then edited by what differs between the index and the
//! working tree. The tree of the `extra` layer holds the selected files.

use vstd::prelude::*;

use crate::bytes::copy_bytes;
use crate::protocol::{code_ref, code_ref_of, extra_ref, extra_ref_of, StreamId};
use crate::select::SelectStats;
use crate::text::{concat3, push_text, texts};

verus! {

/// The name on the commits that hold the encoded state.
pub const SYNTH_NAME: &'static str = "git-full-send";

/// The address on those commits.
pub const SYNTH_EMAIL: &'static str = "git-full-send@localhost";

/// The message of the `code` commit.
pub const SYNTH_MESSAGE: &'static str = "git-full-send: working-tree snapshot";

/// The message of the `extra` commit.
pub const SYNTH_EXTRA_MESSAGE: &'static str = "git-full-send: extra (force-included) snapshot";

/// What the reflog says of an update of the `code` ref.
pub const CODE_REFLOG: &'static str = "git-full-send: encode code state";

/// What the reflog says of an update of the `extra` ref.
pub const EXTRA_REFLOG: &'static str = "git-full-send: encode extra state";

/// What a tree holds at a path.
#[derive(Debug, Clone, Copy, PartialEq, Eq, Structural)]
pub enum EntryKind {
    /// A tree.
    Tree,
    /// A file.
    Blob,
    /// A file that can be executed.
    BlobExecutable,
    /// A symbolic link.
    Link,
    /// The commit of a submodule.
    Commit,
}

/// An entry of the index.
#[derive(Debug)]
pub struct IndexEntry {
    /// Its path.
    pub path: Vec<u8>,
    /// Whether it is a side of a conflict.
    pub conflicted: bool,
    /// What a tree would hold for it, if a tree can hold it.
    pub kind: Option<EntryKind>,
    /// The object that it names, in hexadecimal.
    pub id: String,
}

/// What is on disk at a path, written as an object.
#[derive(Debug)]
pub enum DiskObject {
    /// A symbolic link.
    Link {
        /// The object that holds its target, in hexadecimal.
        id: String,
        /// The length of the target in bytes.
        len: u64,
    },
    /// A file.
    File {
        /// Its permission bits.
        mode: u32,
        /// The object that holds its content, in hexadecimal.
        id: String,
        /// The length of the content in bytes.
        len: u64,
    },
    /// Something that no tree can hold, such as a socket.
    Unrepresentable,
}

/// A difference between the index and the working tree.
#[derive(Debug)]
pub enum StatusItem {
    /// The file is gone.
    Removed {
        /// Its path.
        path: Vec<u8>,
    },
    /// A submodule is at another commit or is dirty.
    SubmoduleModified {
        /// Its path.
        path: Vec<u8>,
    },
    /// The content or the mode differs.
    Modified {
        /// The path.
        path: Vec<u8>,
    },
    /// The kind of the file differs.
    TypeChanged {
        /// The path.
        path: Vec<u8>,
    },
    /// The path was added without content.
    IntentToAdd {
        /// The path.
        path: Vec<u8>,
    },
    /// The path is in conflict.
    Conflict {
        /// The path.
        path: Vec<u8>,
    },
    /// Only what the index remembers of the file is out of date.
    NeedsUpdate {
        /// The path.
        path: Vec<u8>,
    },
    /// A path that the walk through the working tree found.
    Found {
        /// The path.
        path: Vec<u8>,
        /// Whether it is neither tracked nor ignored.
        untracked: bool,
        /// Whether it is a file or a symbolic link.
        is_file_or_link: bool,
    },
    /// A rename.
    Rewrite,
}

/// What a difference asks for.
#[derive(Debug, Clone, Copy, PartialEq, Eq, Structural)]
pub enum ItemAction {
    /// Nothing.
    Keep,
    /// The path leaves the tree.
    Remove,
    /// What is on disk takes the place of what the tree holds at the path.
    Overlay,
}

impl StatusItem {
    /// What the difference asks for.
    pub open spec fn asks(self) -> ItemAction {
        match self {
            StatusItem::Removed { .. } => ItemAction::Remove,
            StatusItem::Modified { .. } => ItemAction::Overlay,
            StatusItem::TypeChanged { .. } => ItemAction::Overlay,
            StatusItem::IntentToAdd { .. } => ItemAction::Overlay,
            StatusItem::Conflict { .. } => ItemAction::Overlay,
            StatusItem::Found { untracked, is_file_or_link, .. } => if untracked
                && is_file_or_link {
                ItemAction::Overlay
            } else {
                ItemAction::Keep
            },
            StatusItem::SubmoduleModified { .. } => ItemAction::Keep,
            StatusItem::NeedsUpdate { .. } => ItemAction::Keep,
            StatusItem::Rewrite => ItemAction::Keep,
        }
    }

    /// The path that differs; a rename has none.
    pub open spec fn at(self) -> Seq<u8> {
        match self {
            StatusItem::Removed { path } => path@,
            StatusItem::SubmoduleModified { path } => path@,
            StatusItem::Modified { path } => path@,
            StatusItem::TypeChanged { path } => path@,
            StatusItem::IntentToAdd { path } => path@,
            StatusItem::Conflict { path } => path@,
            StatusItem::NeedsUpdate { path } => path@,
            StatusItem::Found { path, .. } => path@,
            StatusItem::Rewrite => Seq::empty(),
        }
    }

    /// What the difference asks for: a removed file leaves the tree, and for
    /// whatever else differs the disk says what it is. The commit of a submodule
    /// stays as the index has it.
    pub fn action(&self) -> (r: ItemAction)
        ensures
            r == self.asks(),
    {
        match self {
            StatusItem::Removed { .. } => ItemAction::Remove,
            StatusItem::Modified { .. } => ItemAction::Overlay,
            StatusItem::TypeChanged { .. } => ItemAction::Overlay,
            StatusItem::IntentToAdd { .. } => ItemAction::Overlay,
            StatusItem::Conflict { .. } => ItemAction::Overlay,
            StatusItem::Found { untracked, is_file_or_link, .. } => if *untracked
                && *is_file_or_link {
                ItemAction::Overlay
            } else {
                ItemAction::Keep
            },
            StatusItem::SubmoduleModified { .. } => ItemAction::Keep,
            StatusItem::NeedsUpdate { .. } => ItemAction::Keep,
            StatusItem::Rewrite => ItemAction::Keep,
        }
    }

    /// The path that differs; a rename has none.
    pub fn path(&self) -> (r: Vec<u8>)
        ensures
            r@ == self.at(),
    {
        match self {
            StatusItem::Removed { path } => copy_bytes(path.as_slice()),
            StatusItem::SubmoduleModified { path } => copy_bytes(path.as_slice()),
            StatusItem::Modified { path } => copy_bytes(path.as_slice()),
            StatusItem::TypeChanged { path } => copy_bytes(path.as_slice()),
            StatusItem::IntentToAdd { path } => copy_bytes(path.as_slice()),
            StatusItem::Conflict { path } => copy_bytes(path.as_slice()),
            StatusItem::NeedsUpdate { path } => copy_bytes(path.as_slice()),
            StatusItem::Found { path, .. } => copy_bytes(path.as_slice()),
            StatusItem::Rewrite => Vec::new(),
        }
    }
}

/// An edit of a tree.
#[derive(Debug)]
pub enum TreeEdit {
    /// The tree holds this object at the path.
    Upsert {
        /// The path.
        path: Vec<u8>,
        /// What the object is.
        kind: EntryKind,
        /// The object, in hexadecimal.
        id: String,
    },
    /// The tree holds nothing at the path.
    Remove {
        /// The path.
        path: Vec<u8>,
    },
}

/// What a tree holds at a path: a kind and the name of an object.
pub type Held = (EntryKind, Seq<char>);

/// An edit: the path, and what the tree holds there after it.
pub type Edit = (Seq<u8>, Option<Held>);

impl View for TreeEdit {
    type V = Edit;

    open spec fn view(&self) -> Edit {
        match self {
            TreeEdit::Upsert { path, kind, id } => (path@, Some((*kind, id@))),
            TreeEdit::Remove { path } => (path@, None),
        }
    }
}

/// The edits of a list.
pub open spec fn edits_of(v: Seq<TreeEdit>) -> Seq<Edit> {
    Seq::new(v.len(), |i: int| v[i]@)
}

/// Whether `path` lies in the directory `dir`.
pub open spec fn is_under(path: Seq<u8>, dir: Seq<u8>) -> bool {
    path.len() > dir.len() && path.take(dir.len() as int) == dir && path[dir.len() as int] == 47u8
}

/// Whether one path is a directory of the other, so that no tree holds something
/// at both.
pub open spec fn clash(a: Seq<u8>, b: Seq<u8>) -> bool {
    is_under(a, b) || is_under(b, a)
}

/// What a tree holds at `path`.
pub open spec fn held_at(tree: Map<Seq<u8>, Held>, path: Seq<u8>) -> Option<Held> {
    if tree.dom().contains(path) {
        Some(tree[path])
    } else {
        None
    }
}

/// What a tree holds at `path` after edits. What is put at a path takes the place
/// of what stands in its way, be it a file where a directory is needed or a
/// directory with all that is in it; and a removed directory takes with it all
/// that is in it.
pub open spec fn held_after(
    tree: Map<Seq<u8>, Held>,
    edits: Seq<Edit>,
    path: Seq<u8>,
) -> Option<Held>
    decreases edits.len(),
{
    if edits.len() == 0 {
        held_at(tree, path)
    } else {
        let (at, held) = edits.last();
        if at == path {
            held
        } else if is_under(path, at) || (held is Some && is_under(at, path)) {
            None
        } else {
            held_after(tree, edits.drop_last(), path)
        }
    }
}

/// Whether no path that the tree holds is a directory of another.
pub open spec fn is_tree(tree: Map<Seq<u8>, Held>) -> bool {
    forall|a: Seq<u8>, b: Seq<u8>| #[trigger]
        tree.dom().contains(a) && #[trigger] tree.dom().contains(b) ==> !clash(a, b)
}

/// The kind of a file with these permission bits: its owner may execute it or
/// not.
pub open spec fn file_kind(mode: u32) -> EntryKind {
    if (mode / 0o100) % 2 == 1 {
        EntryKind::BlobExecutable
    } else {
        EntryKind::Blob
    }
}

/// The kind of a file with these permission bits.
pub fn blob_kind(mode: u32) -> (r: EntryKind)
    ensures
        r == file_kind(mode),
{
    proof {
        assert((mode & 0o100 != 0) == ((mode / 0o100) % 2 == 1)) by (bit_vector);
    }
    if mode & 0o100 != 0 {
        EntryKind::BlobExecutable
    } else {
        EntryKind::Blob
    }
}

impl DiskObject {
    /// What a tree holds for it, if a tree can hold it.
    pub open spec fn held(self) -> Option<Held> {
        match self {
            DiskObject::Link { id, .. } => Some((EntryKind::Link, id@)),
            DiskObject::File { mode, id, .. } => Some((file_kind(mode), id@)),
            DiskObject::Unrepresentable => None,
        }
    }

    /// How many bytes of content it has; none where no tree can hold it.
    pub open spec fn size(self) -> u64 {
        match self {
            DiskObject::Link { len, .. } => len,
            DiskObject::File { len, .. } => len,
            DiskObject::Unrepresentable => 0,
        }
    }

    /// How many bytes of content it has; none where no tree can hold it.
    pub fn len(&self) -> (r: u64)
        ensures
            r == self.size(),
    {
        match self {
            DiskObject::Link { len, .. } => *len,
            DiskObject::File { len, .. } => *len,
            DiskObject::Unrepresentable => 0,
        }
    }
}

/// The edits that put what is on disk at a path: one, or none where no tree can
/// hold it.
pub open spec fn overlay_edits(path: Seq<u8>, disk: DiskObject) -> Seq<Edit> {
    match disk.held() {
        Some(held) => seq![(path, Some(held))],
        None => Seq::empty(),
    }
}

/// The edit that puts what is on disk at a path, or `None` where no tree can
/// hold it.
pub fn overlay_edit(path: &[u8], disk: &DiskObject) -> (r: Option<TreeEdit>)
    ensures
        match r {
            Some(edit) => overlay_edits(path@, *disk) == seq![edit@],
            None => overlay_edits(path@, *disk) == Seq::<Edit>::empty(),
        },
{
    match disk {
        DiskObject::Link { id, .. } => Some(
            TreeEdit::Upsert { path: copy_bytes(path), kind: EntryKind::Link, id: id.clone() },
        ),
        DiskObject::File { mode, id, .. } => Some(
            TreeEdit::Upsert { path: copy_bytes(path), kind: blob_kind(*mode), id: id.clone() },
        ),
        DiskObject::Unrepresentable => None,
    }
}

/// The size of the difference between index and working tree.
#[derive(Debug, Clone, Copy, PartialEq, Eq, Structural)]
pub struct CodeLayerStats {
    /// Files that were added or that differ.
    pub files_overlaid: usize,
    /// The bytes of those files.
    pub bytes_overlaid: u64,
    /// Files that are gone.
    pub files_removed: usize,
    /// Entries of the index that were looked at.
    pub index_entries: usize,
    /// Differences that were looked at.
    pub status_items: usize,
}

impl Default for CodeLayerStats {
    fn default() -> (r: Self)
        ensures
            r == (CodeLayerStats {
                files_overlaid: 0,
                bytes_overlaid: 0,
                files_removed: 0,
                index_entries: 0,
                status_items: 0,
            }),
    {
        CodeLayerStats {
            files_overlaid: 0,
            bytes_overlaid: 0,
            files_removed: 0,
            index_entries: 0,
            status_items: 0,
        }
    }
}

/// The size of the set of force-included files.
#[derive(Debug, Clone, Copy, PartialEq, Eq, Structural)]
pub struct ExtraLayerStats {
    /// How many files there are.
    pub files: usize,
    /// The bytes of those files.
    pub bytes: u64,
    /// What selecting them cost.
    pub select: SelectStats,
}

impl Default for ExtraLayerStats {
    fn default() -> (r: Self)
        ensures
            r.files == 0,
            r.bytes == 0,
            r.select.dirs_entered == 0,
            r.select.dirs_pruned == 0,
            r.select.paths_considered == 0,
            r.select.unanchored_patterns == 0,
    {
        ExtraLayerStats { files: 0, bytes: 0, select: SelectStats::default() }
    }
}

/// The edits that an entry of the index gives: one, or none for a side of a
/// conflict and for what no tree can hold.
pub open spec fn index_edits(entry: IndexEntry) -> Seq<Edit> {
    match entry.kind {
        Some(kind) => if entry.conflicted {
            Seq::empty()
        } else {
            seq![(entry.path@, Some((kind, entry.id@)))]
        },
        None => Seq::empty(),
    }
}

/// The edits that a difference gives, with what is on disk where that is asked
/// for.
pub open spec fn item_edits(item: StatusItem, disk: Option<DiskObject>) -> Seq<Edit> {
    match item.asks() {
        ItemAction::Keep => Seq::empty(),
        ItemAction::Remove => seq![(item.at(), None)],
        ItemAction::Overlay => match disk {
            Some(object) => overlay_edits(item.at(), object),
            None => Seq::empty(),
        },
    }
}

/// Collects the edits that make the tree of the `code` layer, and their sizes.
#[derive(Debug)]
pub struct CodeEncoder {
    /// The edits of the empty tree, in order.
    pub edits: Vec<TreeEdit>,
    /// The sizes.
    pub stats: CodeLayerStats,
}

proof fn lemma_edits_push(v: Seq<TreeEdit>, edit: TreeEdit)
    ensures
        edits_of(v.push(edit)) == edits_of(v) + seq![edit@],
{
    assert(edits_of(v.push(edit)) =~= edits_of(v) + seq![edit@]);
}

impl CodeEncoder {
    /// An encoder without edits.
    pub fn new() -> (r: Self)
        ensures
            edits_of(r.edits@) == Seq::<Edit>::empty(),
            r.stats == (CodeLayerStats {
                files_overlaid: 0,
                bytes_overlaid: 0,
                files_removed: 0,
                index_entries: 0,
                status_items: 0,
            }),
    {
        let r = CodeEncoder { edits: Vec::new(), stats: CodeLayerStats::default() };
        assert(edits_of(r.edits@) =~= Seq::<Edit>::empty());
        r
    }

    /// Takes an entry of the index into the tree. The sides of a conflict are
    /// left out: what is on disk takes their place.
    pub fn add_index_entry(&mut self, entry: &IndexEntry)
        requires
            old(self).stats.index_entries < usize::MAX,
        ensures
            edits_of(final(self).edits@) == edits_of(old(self).edits@) + index_edits(*entry),
            final(self).stats == (CodeLayerStats {
                index_entries: (old(self).stats.index_entries + 1) as usize,
                ..old(self).stats
            }),
    {
        let ghost before = self.edits@;
        self.stats.index_entries = self.stats.index_entries + 1;
        match entry.kind {
            Some(kind) => {
                if !entry.conflicted {
                    let edit = TreeEdit::Upsert {
                        path: copy_bytes(entry.path.as_slice()),
                        kind,
                        id: entry.id.clone(),
                    };
                    proof {
                        lemma_edits_push(before, edit);
                    }
                    self.edits.push(edit);
                }
            },
            None => {},
        }
        proof {
            assert(edits_of(before) + Seq::<Edit>::empty() =~= edits_of(before));
        }
    }

    /// Takes a difference into the tree. `disk` is what is on disk at its path,
    /// and is given where the difference asks for it.
    pub fn apply_item(&mut self, item: &StatusItem, disk: Option<&DiskObject>)
        requires
            disk is Some <==> item.asks() == ItemAction::Overlay,
            old(self).stats.status_items < usize::MAX,
            old(self).stats.files_overlaid < usize::MAX,
            old(self).stats.files_removed < usize::MAX,
            disk is Some ==> old(self).stats.bytes_overlaid + disk->0.size() <= u64::MAX,
        ensures
            edits_of(final(self).edits@) == edits_of(old(self).edits@) + item_edits(
                *item,
                match disk {
                    Some(object) => Some(*object),
                    None => None,
                },
            ),
            final(self).stats.index_entries == old(self).stats.index_entries,
            final(self).stats.status_items == old(self).stats.status_items + 1,
            final(self).stats.files_removed == old(self).stats.files_removed + if item.asks()
                == ItemAction::Remove {
                1int
            } else {
                0
            },
            final(self).stats.files_overlaid == old(self).stats.files_overlaid + if disk is Some {
                1int
            } else {
                0
            },
            final(self).stats.bytes_overlaid == old(self).stats.bytes_overlaid + if disk is Some {
                disk->0.size() as int
            } else {
                0
            },
    {
        let ghost before = self.edits@;
        self.stats.status_items = self.stats.status_items + 1;
        match item.action() {
            ItemAction::Keep => {},
            ItemAction::Remove => {
                let edit = TreeEdit::Remove { path: item.path() };
                proof {
                    lemma_edits_push(before, edit);
                }
                self.edits.push(edit);
                self.stats.files_removed = self.stats.files_removed + 1;
            },
            ItemAction::Overlay => {
                if let Some(object) = disk {
                    let path = item.path();
                    if let Some(edit) = overlay_edit(path.as_slice(), object) {
                        proof {
                            lemma_edits_push(before, edit);
                        }
                        self.edits.push(edit);
                    }
                    self.stats.files_overlaid = self.stats.files_overlaid + 1;
                    self.stats.bytes_overlaid = self.stats.bytes_overlaid + object.len();
                }
            },
        }
        proof {
            assert(edits_of(before) + Seq::<Edit>::empty() =~= edits_of(before));
        }
    }
}

/// Collects the edits that make the tree of the `extra` layer, and their sizes.
#[derive(Debug)]
pub struct ExtraEncoder {
    /// The edits of the empty tree, in order.
    pub edits: Vec<TreeEdit>,
    /// The sizes.
    pub stats: ExtraLayerStats,
}

impl ExtraEncoder {
    /// An encoder for a selection of so many files.
    pub fn new(files: usize, select: SelectStats) -> (r: Self)
        ensures
            edits_of(r.edits@) == Seq::<Edit>::empty(),
            r.stats == (ExtraLayerStats { files, bytes: 0, select }),
    {
        let r = ExtraEncoder {
            edits: Vec::new(),
            stats: ExtraLayerStats { files, bytes: 0, select },
        };
        assert(edits_of(r.edits@) =~= Seq::<Edit>::empty());
        r
    }

    /// Takes what is on disk at a selected path into the tree.
    pub fn add(&mut self, path: &[u8], disk: &DiskObject)
        requires
            old(self).stats.bytes + disk.size() <= u64::MAX,
        ensures
            edits_of(final(self).edits@) == edits_of(old(self).edits@) + overlay_edits(
                path@,
                *disk,
            ),
            final(self).stats == (ExtraLayerStats {
                bytes: (old(self).stats.bytes + disk.size()) as u64,
                ..old(self).stats
            }),
    {
        let ghost before = self.edits@;
        if let Some(edit) = overlay_edit(path, disk) {
            proof {
                lemma_edits_push(before, edit);
            }
            self.edits.push(edit);
        }
        self.stats.bytes = self.stats.bytes + disk.len();
        proof {
            assert(edits_of(before) + Seq::<Edit>::empty() =~= edits_of(before));
        }
    }
}

/// A difference, with what is on disk at its path where it asks for that.
#[derive(Debug)]
pub struct DiskItem {
    /// The difference.
    pub item: StatusItem,
    /// What is on disk.
    pub disk: Option<DiskObject>,
}

impl DiskItem {
    /// Whether what is on disk is given exactly where it is asked for.
    pub open spec fn is_complete(self) -> bool {
        self.disk is Some <==> self.item.asks() == ItemAction::Overlay
    }
}

/// The edits that entries of the index give.
pub open spec fn all_index_edits(entries: Seq<IndexEntry>) -> Seq<Edit>
    decreases entries.len(),
{
    if entries.len() == 0 {
        Seq::empty()
    } else {
        all_index_edits(entries.drop_last()) + index_edits(entries.last())
    }
}

/// The edits that differences give.
pub open spec fn all_item_edits(items: Seq<DiskItem>) -> Seq<Edit>
    decreases items.len(),
{
    if items.len() == 0 {
        Seq::empty()
    } else {
        all_item_edits(items.drop_last()) + item_edits(items.last().item, items.last().disk)
    }
}

/// How many of the differences ask for `action`.
pub open spec fn count_asking(items: Seq<DiskItem>, action: ItemAction) -> nat
    decreases items.len(),
{
    if items.len() == 0 {
        0
    } else {
        count_asking(items.drop_last(), action) + if items.last().item.asks() == action {
            1nat
        } else {
            0nat
        }
    }
}

/// The bytes of what is on disk at the paths of differences.
pub open spec fn bytes_on_disk(items: Seq<DiskItem>) -> nat
    decreases items.len(),
{
    if items.len() == 0 {
        0
    } else {
        bytes_on_disk(items.drop_last()) + match items.last().disk {
            Some(object) => object.size() as nat,
            None => 0,
        }
    }
}

proof fn lemma_bytes_on_disk_grow(items: Seq<DiskItem>, i: int)
    requires
        0 <= i <= items.len(),
    ensures
        bytes_on_disk(items.take(i)) <= bytes_on_disk(items),
    decreases items.len() - i,
{
    if i < items.len() {
        lemma_bytes_on_disk_grow(items, i + 1);
        assert(items.take(i + 1).drop_last() =~= items.take(i));
    } else {
        assert(items.take(i) =~= items);
    }
}

/// The edits of the empty tree that make the tree of the `code` layer: the
/// entries of the index, and then what differs from them on disk.
pub fn encode(entries: &Vec<IndexEntry>, items: &Vec<DiskItem>) -> (r: CodeEncoder)
    requires
        forall|i: int| 0 <= i < items@.len() ==> (#[trigger] items@[i]).is_complete(),
        bytes_on_disk(items@) <= u64::MAX,
    ensures
        edits_of(r.edits@) == all_index_edits(entries@) + all_item_edits(items@),
        r.stats.index_entries == entries@.len(),
        r.stats.status_items == items@.len(),
        r.stats.files_removed == count_asking(items@, ItemAction::Remove),
        r.stats.files_overlaid == count_asking(items@, ItemAction::Overlay),
        r.stats.bytes_overlaid == bytes_on_disk(items@),
{
    let mut out = CodeEncoder::new();
    let mut i: usize = 0;
    proof {
        assert(entries@.take(0) =~= Seq::<IndexEntry>::empty());
    }
    while i < entries.len()
        invariant
            i <= entries@.len(),
            edits_of(out.edits@) == all_index_edits(entries@.take(i as int)),
            out.stats == (CodeLayerStats {
                files_overlaid: 0,
                bytes_overlaid: 0,
                files_removed: 0,
                index_entries: i,
                status_items: 0,
            }),
        decreases entries@.len() - i,
    {
        proof {
            let next = entries@.take(i + 1);
            assert(next.drop_last() =~= entries@.take(i as int));
            assert(next.last() == entries@[i as int]);
        }
        out.add_index_entry(&entries[i]);
        i += 1;
    }
    let ghost seeds = all_index_edits(entries@);
    let mut k: usize = 0;
    proof {
        assert(entries@.take(entries@.len() as int) =~= entries@);
        assert(items@.take(0) =~= Seq::<DiskItem>::empty());
        assert(seeds + all_item_edits(items@.take(0)) =~= seeds);
    }
    while k < items.len()
        invariant
            k <= items@.len(),
            forall|j: int| 0 <= j < items@.len() ==> (#[trigger] items@[j]).is_complete(),
            bytes_on_disk(items@) <= u64::MAX,
            edits_of(out.edits@) == seeds + all_item_edits(items@.take(k as int)),
            out.stats.index_entries == entries@.len(),
            out.stats.status_items == k,
            out.stats.files_removed == count_asking(items@.take(k as int), ItemAction::Remove),
            out.stats.files_overlaid == count_asking(items@.take(k as int), ItemAction::Overlay),
            out.stats.files_removed <= k,
            out.stats.files_overlaid <= k,
            out.stats.bytes_overlaid == bytes_on_disk(items@.take(k as int)),
        decreases items@.len() - k,
    {
        let here = &items[k];
        proof {
            let next = items@.take(k + 1);
            assert(next.drop_last() =~= items@.take(k as int));
            assert(next.last() == items@[k as int]);
            assert(items@[k as int].is_complete());
            lemma_bytes_on_disk_grow(items@, k + 1);
        }
        match &here.disk {
            Some(object) => {
                out.apply_item(&here.item, Some(object));
            },
            None => {
                out.apply_item(&here.item, None);
            },
        }
        proof {
            assert(edits_of(out.edits@) =~= seeds + all_item_edits(items@.take(k + 1)));
        }
        k += 1;
    }
    proof {
        assert(items@.take(items@.len() as int) =~= items@);
    }
    out
}

/// What is on disk at a selected path.
#[derive(Debug)]
pub struct SelectedFile {
    /// The path.
    pub path: Vec<u8>,
    /// What is there.
    pub disk: DiskObject,
}

/// The edits that selected files give.
pub open spec fn all_file_edits(files: Seq<SelectedFile>) -> Seq<Edit>
    decreases files.len(),
{
    if files.len() == 0 {
        Seq::empty()
    } else {
        all_file_edits(files.drop_last()) + overlay_edits(files.last().path@, files.last().disk)
    }
}

/// The bytes of selected files.
pub open spec fn bytes_selected(files: Seq<SelectedFile>) -> nat
    decreases files.len(),
{
    if files.len() == 0 {
        0
    } else {
        bytes_selected(files.drop_last()) + files.last().disk.size() as nat
    }
}

proof fn lemma_bytes_selected_grow(files: Seq<SelectedFile>, i: int)
    requires
        0 <= i <= files.len(),
    ensures
        bytes_selected(files.take(i)) <= bytes_selected(files),
    decreases files.len() - i,
{
    if i < files.len() {
        lemma_bytes_selected_grow(files, i + 1);
        assert(files.take(i + 1).drop_last() =~= files.take(i));
    } else {
        assert(files.take(i) =~= files);
    }
}

/// The edits of the empty tree that make the tree of the `extra` layer: the
/// selected files as they are on disk.
pub fn encode_extra(files: &Vec<SelectedFile>, select: SelectStats) -> (r: ExtraEncoder)
    requires
        bytes_selected(files@) <= u64::MAX,
    ensures
        edits_of(r.edits@) == all_file_edits(files@),
        r.stats.files == files@.len(),
        r.stats.bytes == bytes_selected(files@),
        r.stats.select == select,
{
    let mut out = ExtraEncoder::new(files.len(), select);
    let mut i: usize = 0;
    proof {
        assert(files@.take(0) =~= Seq::<SelectedFile>::empty());
    }
    while i < files.len()
        invariant
            i <= files@.len(),
            bytes_selected(files@) <= u64::MAX,
            edits_of(out.edits@) == all_file_edits(files@.take(i as int)),
            out.stats.files == files@.len(),
            out.stats.bytes == bytes_selected(files@.take(i as int)),
            out.stats.select == select,
        decreases files@.len() - i,
    {
        proof {
            let next = files@.take(i + 1);
            assert(next.drop_last() =~= files@.take(i as int));
            assert(next.last() == files@[i as int]);
            lemma_bytes_selected_grow(files@, i + 1);
        }
        out.add(files[i].path.as_slice(), &files[i].disk);
        i += 1;
    }
    proof {
        assert(files@.take(files@.len() as int) =~= files@);
    }
    out
}

/// A commit that holds encoded state, as it is to be written.
#[derive(Debug)]
pub struct SynthCommit {
    /// The tree.
    pub tree: String,
    /// The parents.
    pub parents: Vec<String>,
    /// The name of who wrote it.
    pub name: &'static str,
    /// The address of who wrote it.
    pub email: &'static str,
    /// The message.
    pub message: &'static str,
}

fn synth_commit(tree: &str, parent: Option<&str>, message: &'static str) -> (r: SynthCommit)
    ensures
        r.tree@ == tree@,
        texts(r.parents@) == match parent {
            Some(id) => seq![id@],
            None => Seq::empty(),
        },
        r.name@ == SYNTH_NAME@,
        r.email@ == SYNTH_EMAIL@,
        r.message@ == message@,
{
    let mut parents: Vec<String> = Vec::new();
    match parent {
        Some(id) => {
            push_text(&mut parents, id);
            proof {
                assert(texts(parents@) =~= seq![id@]);
            }
        },
        None => {
            proof {
                assert(texts(parents@) =~= Seq::<Seq<char>>::empty());
            }
        },
    }
    SynthCommit {
        tree: tree.to_owned(),
        parents,
        name: SYNTH_NAME,
        email: SYNTH_EMAIL,
        message,
    }
}

/// What a commit of the encoder says.
#[verifier::ext_equal]
pub struct CommitView {
    pub tree: Seq<char>,
    pub parents: Seq<Seq<char>>,
    pub name: Seq<char>,
    pub email: Seq<char>,
    pub message: Seq<char>,
}

/// What a commit says.
pub open spec fn commit_view(commit: SynthCommit) -> CommitView {
    CommitView {
        tree: commit.tree@,
        parents: texts(commit.parents@),
        name: commit.name@,
        email: commit.email@,
        message: commit.message@,
    }
}

/// The one parent of a commit, if it has one.
pub open spec fn parents_of(parent: Option<Seq<char>>) -> Seq<Seq<char>> {
    match parent {
        Some(id) => seq![id],
        None => Seq::empty(),
    }
}

/// What the commit of the `code` layer says.
pub open spec fn code_commit_of(tree: Seq<char>, head: Option<Seq<char>>) -> CommitView {
    CommitView {
        tree,
        parents: parents_of(head),
        name: SYNTH_NAME@,
        email: SYNTH_EMAIL@,
        message: SYNTH_MESSAGE@,
    }
}

/// What the commit of the `extra` layer says.
pub open spec fn extra_commit_of(tree: Seq<char>, pushed: Option<Seq<char>>) -> CommitView {
    CommitView {
        tree,
        parents: parents_of(pushed),
        name: SYNTH_NAME@,
        email: SYNTH_EMAIL@,
        message: SYNTH_EXTRA_MESSAGE@,
    }
}

/// The commit of the `code` layer. Its parent is what `HEAD` names, if it names
/// something.
pub fn code_commit(tree: &str, head: Option<&str>) -> (r: SynthCommit)
    ensures
        commit_view(r) == code_commit_of(
            tree@,
            match head {
                Some(id) => Some(id@),
                None => None,
            },
        ),
{
    synth_commit(tree, head, SYNTH_MESSAGE)
}

/// The commit of the `extra` layer. Its parent is the tip that was last pushed,
/// which the server is known to have, if there is one.
pub fn extra_commit(tree: &str, pushed: Option<&str>) -> (r: SynthCommit)
    ensures
        commit_view(r) == extra_commit_of(
            tree@,
            match pushed {
                Some(id) => Some(id@),
                None => None,
            },
        ),
{
    synth_commit(tree, pushed, SYNTH_EXTRA_MESSAGE)
}

/// What encoding the `code` layer gave.
#[derive(Debug)]
pub struct EncodeOutcome {
    /// The commit.
    pub commit: String,
    /// Its tree.
    pub tree: String,
    /// The ref that was written.
    pub code_ref: String,
    /// The sizes.
    pub stats: CodeLayerStats,
}

impl EncodeOutcome {
    /// The outcome for a stream.
    pub fn new(stream: &StreamId, commit: String, tree: String, stats: CodeLayerStats) -> (r: Self)
        ensures
            r.commit == commit,
            r.tree == tree,
            r.code_ref@ == code_ref_of(stream@),
            r.stats == stats,
    {
        EncodeOutcome { commit, tree, code_ref: code_ref(stream), stats }
    }
}

/// What encoding the `extra` layer gave.
#[derive(Debug)]
pub struct ExtraOutcome {
    /// The commit.
    pub commit: String,
    /// Its tree.
    pub tree: String,
    /// The ref that was written.
    pub extra_ref: String,
    /// The sizes.
    pub stats: ExtraLayerStats,
}

impl ExtraOutcome {
    /// The outcome for a stream.
    pub fn new(stream: &StreamId, commit: String, tree: String, stats: ExtraLayerStats) -> (r: Self)
        ensures
            r.commit == commit,
            r.tree == tree,
            r.extra_ref@ == extra_ref_of(stream@),
            r.stats == stats,
    {
        ExtraOutcome { commit, tree, extra_ref: extra_ref(stream), stats }
    }
}

/// Whether some edit is one of `path`.
pub open spec fn touches(edits: Seq<Edit>, path: Seq<u8>) -> bool {
    exists|i: int| 0 <= i < edits.len() && (#[trigger] edits[i]).0 == path
}

/// Edits leave alone what is neither at their paths, nor in a directory that one
/// of them replaces or removes, nor in the way of what they put.
pub proof fn law_edits_touch_only_their_paths(
    tree: Map<Seq<u8>, Held>,
    edits: Seq<Edit>,
    path: Seq<u8>,
)
    requires
        forall|i: int|
            0 <= i < edits.len() ==> (#[trigger] edits[i]).0 != path && !clash(edits[i].0, path),
    ensures
        held_after(tree, edits, path) == held_at(tree, path),
    decreases edits.len(),
{
    if edits.len() > 0 {
        let front = edits.drop_last();
        assert(edits[edits.len() - 1].0 != path);
        assert forall|i: int| 0 <= i < front.len() implies (#[trigger] front[i]).0 != path
            && !clash(front[i].0, path) by {
            assert(front[i] == edits[i]);
        }
        law_edits_touch_only_their_paths(tree, front, path);
    }
}

/// Edits behind others work on the tree that those leave.
pub proof fn law_edits_follow_on_each_other(
    tree: Map<Seq<u8>, Held>,
    first: Seq<Edit>,
    between: Map<Seq<u8>, Held>,
    later: Seq<Edit>,
    path: Seq<u8>,
)
    requires
        forall|p: Seq<u8>| #[trigger] held_at(between, p) == held_after(tree, first, p),
    ensures
        held_after(tree, first + later, path) == held_after(between, later, path),
    decreases later.len(),
{
    if later.len() == 0 {
        assert(first + later =~= first);
        assert(held_at(between, path) == held_after(tree, first, path));
    } else {
        assert((first + later).drop_last() =~= first + later.drop_last());
        law_edits_follow_on_each_other(tree, first, between, later.drop_last(), path);
    }
}

/// Whether each edit says of its path what the disk says.
pub open spec fn says_what_is_on_disk(edits: Seq<Edit>, disk: Map<Seq<u8>, Held>) -> bool {
    forall|i: int| 0 <= i < edits.len() ==> (#[trigger] edits[i]).1 == held_at(disk, edits[i].0)
}

/// Whether whatever the disk holds below a removed path is put behind its
/// removal: a file that became a directory leaves before the files of that
/// directory come.
pub open spec fn removals_come_first(edits: Seq<Edit>, disk: Map<Seq<u8>, Held>) -> bool {
    forall|i: int, p: Seq<u8>|
        0 <= i < edits.len() && (#[trigger] edits[i]).1 is None && #[trigger] disk.dom().contains(p)
            && is_under(p, edits[i].0) ==> touches(edits.skip(i + 1), p)
}

/// The `code` tree is what is on disk: where every difference between the index
/// and the disk was taken from the disk, the tree holds at every path what the
/// disk holds there. Only the submodules, which are kept as the index has them,
/// are left aside.
pub proof fn law_the_code_tree_is_what_is_on_disk(
    index: Map<Seq<u8>, Held>,
    edits: Seq<Edit>,
    disk: Map<Seq<u8>, Held>,
    submodules: Set<Seq<u8>>,
    path: Seq<u8>,
)
    requires
        is_tree(disk),
        says_what_is_on_disk(edits, disk),
        removals_come_first(edits, disk),
        forall|p: Seq<u8>|
            !touches(edits, p) && !submodules.contains(p) ==> #[trigger] held_at(index, p)
                == held_at(disk, p),
    ensures
        touches(edits, path) || !submodules.contains(path) ==> held_after(index, edits, path)
            == held_at(disk, path),
        !touches(edits, path) && submodules.contains(path) && (forall|i: int|
            0 <= i < edits.len() ==> !clash((#[trigger] edits[i]).0, path)) ==> held_after(
            index,
            edits,
            path,
        ) == held_at(index, path),
{
    if touches(edits, path) {
        lemma_touched_is_on_disk(index, edits, disk, path);
    } else if !submodules.contains(path) {
        assert(held_at(index, path) == held_at(disk, path));
        lemma_untouched_is_on_disk(index, edits, disk, path);
    } else if forall|i: int| 0 <= i < edits.len() ==> !clash((#[trigger] edits[i]).0, path) {
        law_edits_touch_only_their_paths(index, edits, path);
    }
}

/// An edit that leaves alone a path that is on disk, or that is not.
spec fn spares(edit: Edit, disk: Map<Seq<u8>, Held>, path: Seq<u8>) -> bool {
    edit.0 != path && (disk.dom().contains(path) ==> !is_under(path, edit.0) && !(edit.1 is Some
        && is_under(edit.0, path)))
}

proof fn lemma_spared(
    index: Map<Seq<u8>, Held>,
    edits: Seq<Edit>,
    disk: Map<Seq<u8>, Held>,
    path: Seq<u8>,
    from: int,
)
    requires
        0 <= from <= edits.len(),
        forall|i: int| from <= i < edits.len() ==> spares(#[trigger] edits[i], disk, path),
        held_after(index, edits.take(from), path) == held_at(disk, path),
    ensures
        held_after(index, edits, path) == held_at(disk, path),
    decreases edits.len(),
{
    if edits.len() == from {
        assert(edits.take(from) =~= edits);
    } else {
        let front = edits.drop_last();
        assert(front.take(from) =~= edits.take(from));
        assert forall|i: int| from <= i < front.len() implies spares(
            #[trigger] front[i],
            disk,
            path,
        ) by {
            assert(front[i] == edits[i]);
        }
        lemma_spared(index, front, disk, path, from);
        assert(spares(edits[edits.len() - 1], disk, path));
    }
}

proof fn lemma_spares(
    edits: Seq<Edit>,
    disk: Map<Seq<u8>, Held>,
    path: Seq<u8>,
    i: int,
)
    requires
        is_tree(disk),
        says_what_is_on_disk(edits, disk),
        removals_come_first(edits, disk),
        0 <= i < edits.len(),
        edits[i].0 != path,
        !touches(edits.skip(i + 1), path),
    ensures
        spares(edits[i], disk, path),
{
    assert(edits[i].1 == held_at(disk, edits[i].0));
    if disk.dom().contains(path) {
        if edits[i].1 is Some {
            assert(disk.dom().contains(edits[i].0));
            assert(!clash(path, edits[i].0));
        } else if is_under(path, edits[i].0) {
            assert(touches(edits.skip(i + 1), path));
        }
    }
}

proof fn lemma_untouched_is_on_disk(
    index: Map<Seq<u8>, Held>,
    edits: Seq<Edit>,
    disk: Map<Seq<u8>, Held>,
    path: Seq<u8>,
)
    requires
        is_tree(disk),
        says_what_is_on_disk(edits, disk),
        removals_come_first(edits, disk),
        !touches(edits, path),
        held_at(index, path) == held_at(disk, path),
    ensures
        held_after(index, edits, path) == held_at(disk, path),
{
    assert forall|i: int| 0 <= i < edits.len() implies spares(#[trigger] edits[i], disk, path) by {
        let later = edits.skip(i + 1);
        assert forall|k: int| 0 <= k < later.len() implies (#[trigger] later[k]).0 != path by {
            assert(later[k] == edits[i + 1 + k]);
        }
        lemma_spares(edits, disk, path, i);
    }
    assert(edits.take(0) =~= Seq::<Edit>::empty());
    lemma_spared(index, edits, disk, path, 0);
}

/// The last edit of `path`, where there is one.
proof fn lemma_last_touch(edits: Seq<Edit>, path: Seq<u8>) -> (last: int)
    requires
        touches(edits, path),
    ensures
        0 <= last < edits.len(),
        edits[last].0 == path,
        forall|i: int| last < i < edits.len() ==> (#[trigger] edits[i]).0 != path,
    decreases edits.len(),
{
    if edits.last().0 == path {
        edits.len() - 1
    } else {
        let front = edits.drop_last();
        let i = choose|i: int| 0 <= i < edits.len() && (#[trigger] edits[i]).0 == path;
        assert(front[i].0 == path);
        let last = lemma_last_touch(front, path);
        assert(edits[last].0 == path);
        assert forall|i: int| last < i < edits.len() implies (#[trigger] edits[i]).0 != path by {
            if i < front.len() {
                assert(front[i].0 != path);
            }
        }
        last
    }
}

proof fn lemma_touched_is_on_disk(
    index: Map<Seq<u8>, Held>,
    edits: Seq<Edit>,
    disk: Map<Seq<u8>, Held>,
    path: Seq<u8>,
)
    requires
        is_tree(disk),
        says_what_is_on_disk(edits, disk),
        removals_come_first(edits, disk),
        touches(edits, path),
    ensures
        held_after(index, edits, path) == held_at(disk, path),
{
    let last = lemma_last_touch(edits, path);
    let front = edits.take(last + 1);
    assert(front.last() == edits[last]);
    assert(edits[last].1 == held_at(disk, edits[last].0));
    assert forall|i: int| last < i < edits.len() implies spares(#[trigger] edits[i], disk, path) by {
        let later = edits.skip(i + 1);
        assert forall|k: int| 0 <= k < later.len() implies (#[trigger] later[k]).0 != path by {
            assert(later[k] == edits[i + 1 + k]);
        }
        lemma_spares(edits, disk, path, i);
    }
    lemma_spared(index, edits, disk, path, last + 1);
}

/// An entry of a tree.
#[derive(Debug)]
pub struct TreeRecord {
    /// Its path from the root of the tree.
    pub path: Vec<u8>,
    /// What it is.
    pub kind: EntryKind,
    /// The object, in hexadecimal.
    pub id: String,
}

impl TreeRecord {
    /// Whether it is a leaf, and no directory.
    pub open spec fn is_leaf(self) -> bool {
        self.kind != EntryKind::Tree
    }

    /// What a tree holds that has this entry.
    pub open spec fn held(self) -> Held {
        (self.kind, self.id@)
    }
}

/// The edits that put the leaves of a tree: the directories come with them.
pub open spec fn leaf_edits(records: Seq<TreeRecord>) -> Seq<Edit>
    decreases records.len(),
{
    if records.len() == 0 {
        Seq::empty()
    } else {
        let front = leaf_edits(records.drop_last());
        let record = records.last();
        if record.is_leaf() {
            front.push((record.path@, Some(record.held())))
        } else {
            front
        }
    }
}

/// The edits that lay the `extra` tree over the `code` tree: every leaf of
/// `extra` is put at its own path. Its directories are passed over, so that what
/// `code` has in them stays.
pub fn overlay_extra(records: &Vec<TreeRecord>) -> (r: Vec<TreeEdit>)
    ensures
        edits_of(r@) == leaf_edits(records@),
{
    let mut out: Vec<TreeEdit> = Vec::new();
    let mut i: usize = 0;
    proof {
        assert(records@.take(0) =~= Seq::<TreeRecord>::empty());
        assert(edits_of(out@) =~= Seq::<Edit>::empty());
    }
    while i < records.len()
        invariant
            i <= records@.len(),
            edits_of(out@) == leaf_edits(records@.take(i as int)),
        decreases records@.len() - i,
    {
        let record = &records[i];
        proof {
            let next = records@.take(i + 1);
            assert(next.drop_last() =~= records@.take(i as int));
            assert(next.last() == *record);
        }
        if record.kind != EntryKind::Tree {
            let edit = TreeEdit::Upsert {
                path: copy_bytes(record.path.as_slice()),
                kind: record.kind,
                id: record.id.clone(),
            };
            let ghost before = out@;
            out.push(edit);
            proof {
                lemma_edits_push(before, edit);
                assert(edits_of(out@) =~= leaf_edits(records@.take(i + 1)));
            }
        }
        i += 1;
    }
    proof {
        assert(records@.take(records@.len() as int) =~= records@);
    }
    out
}

/// Whether the entries are such as one tree has: no path comes twice, and what lies
/// in another entry lies in a directory.
pub open spec fn are_entries(records: Seq<TreeRecord>) -> bool {
    &&& forall|i: int, j: int|
        0 <= i < j < records.len() ==> (#[trigger] records[i]).path@ != (
        #[trigger] records[j]).path@
    &&& forall|i: int, j: int|
        0 <= i < records.len() && 0 <= j < records.len() && is_under(
            (#[trigger] records[i]).path@,
            (#[trigger] records[j]).path@,
        ) ==> !records[j].is_leaf()
}

/// Whether one of the entries is a leaf at `path`.
pub open spec fn has_leaf_at(records: Seq<TreeRecord>, path: Seq<u8>) -> bool {
    exists|i: int|
        0 <= i < records.len() && (#[trigger] records[i]).is_leaf() && records[i].path@ == path
}

/// Whether one of the entries is a leaf that lies in `path`, or that `path` lies in.
pub open spec fn has_leaf_against(records: Seq<TreeRecord>, path: Seq<u8>) -> bool {
    exists|i: int|
        0 <= i < records.len() && (#[trigger] records[i]).is_leaf() && clash(
            records[i].path@,
            path,
        )
}

/// What the combined tree holds at `path` is what `extra` has there, if it has a
/// leaf there; else nothing where a leaf of `extra` is in the way, and what `code`
/// has everywhere else.
pub proof fn law_the_combined_tree_is_code_under_extra(
    code: Map<Seq<u8>, Held>,
    extra: Seq<TreeRecord>,
    path: Seq<u8>,
)
    requires
        are_entries(extra),
    ensures
        forall|i: int|
            0 <= i < extra.len() && (#[trigger] extra[i]).is_leaf() && extra[i].path@ == path
                ==> held_after(code, leaf_edits(extra), path) == Some(extra[i].held()),
        !has_leaf_at(extra, path) && has_leaf_against(extra, path) ==> held_after(
            code,
            leaf_edits(extra),
            path,
        ) is None,
        !has_leaf_at(extra, path) && !has_leaf_against(extra, path) ==> held_after(
            code,
            leaf_edits(extra),
            path,
        ) == held_at(code, path),
    decreases extra.len(),
{
    if extra.len() > 0 {
        let front = extra.drop_last();
        let last = extra.len() - 1;
        assert forall|i: int, j: int| 0 <= i < j < front.len() implies (
        #[trigger] front[i]).path@ != (#[trigger] front[j]).path@ by {
            assert(front[i] == extra[i] && front[j] == extra[j]);
        }
        assert forall|i: int, j: int|
            0 <= i < front.len() && 0 <= j < front.len() && is_under(
                (#[trigger] front[i]).path@,
                (#[trigger] front[j]).path@,
            ) implies !front[j].is_leaf() by {
            assert(front[i] == extra[i] && front[j] == extra[j]);
        }
        law_the_combined_tree_is_code_under_extra(code, front, path);
        let edits = leaf_edits(extra);
        if extra[last].is_leaf() {
            assert(edits.drop_last() =~= leaf_edits(front));
            assert(edits.last() == (extra[last].path@, Some(extra[last].held())));
        }
        assert forall|i: int|
            0 <= i < extra.len() && (#[trigger] extra[i]).is_leaf() && extra[i].path@
                == path implies held_after(code, edits, path) == Some(extra[i].held()) by {
            if i < last {
                assert(front[i] == extra[i]);
                assert(extra[last].path@ != path);
                assert(is_under(extra[last].path@, extra[i].path@) ==> !extra[i].is_leaf());
                assert(is_under(extra[i].path@, extra[last].path@) ==> !extra[last].is_leaf());
            }
        }
        if !has_leaf_at(extra, path) {
            if has_leaf_at(front, path) {
                let i = choose|i: int|
                    0 <= i < front.len() && (#[trigger] front[i]).is_leaf() && front[i].path@
                        == path;
                assert(extra[i] == front[i]);
            }
            if has_leaf_against(front, path) {
                let i = choose|i: int|
                    0 <= i < front.len() && (#[trigger] front[i]).is_leaf() && clash(
                        front[i].path@,
                        path,
                    );
                assert(extra[i] == front[i]);
            } else if has_leaf_against(extra, path) {
                let i = choose|i: int|
                    0 <= i < extra.len() && (#[trigger] extra[i]).is_leaf() && clash(
                        extra[i].path@,
                        path,
                    );
                if i < last {
                    assert(front[i] == extra[i]);
                }
            }
            assert(extra[last].is_leaf() ==> extra[last].path@ != path);
        }
    }
}

/// Where no leaf of one layer is in the way of a leaf of the other, the combined
/// tree has exactly the paths of both.
pub proof fn law_the_combined_tree_is_the_union(
    code: Map<Seq<u8>, Held>,
    extra: Seq<TreeRecord>,
    path: Seq<u8>,
)
    requires
        are_entries(extra),
        forall|p: Seq<u8>| #[trigger] code.dom().contains(p) ==> !has_leaf_against(extra, p),
    ensures
        held_after(code, leaf_edits(extra), path) is Some <==> code.dom().contains(path)
            || has_leaf_at(extra, path),
{
    law_the_combined_tree_is_code_under_extra(code, extra, path);
    if has_leaf_at(extra, path) {
        let i = choose|i: int|
            0 <= i < extra.len() && (#[trigger] extra[i]).is_leaf() && extra[i].path@ == path;
        assert(extra[i].is_leaf());
    }
}

/// Whether a tree takes an entry of the index as it stands.
pub open spec fn is_taken(entry: IndexEntry) -> bool {
    !entry.conflicted && entry.kind is Some
}

/// Whether a difference says that what is at `path` is another than the index has,
/// or is gone.
pub open spec fn differs_at(item: StatusItem, path: Seq<u8>) -> bool {
    match item {
        StatusItem::Removed { path: at } => at@ == path,
        StatusItem::Modified { path: at } => at@ == path,
        StatusItem::TypeChanged { path: at } => at@ == path,
        StatusItem::IntentToAdd { path: at } => at@ == path,
        StatusItem::Conflict { path: at } => at@ == path,
        StatusItem::Found { path: at, untracked: true, is_file_or_link: true } => at@ == path,
        _ => false,
    }
}

/// Whether nothing that the index or a difference names is a directory of `path`, or
/// lies in it.
pub open spec fn stands_alone(
    entries: Seq<IndexEntry>,
    items: Seq<DiskItem>,
    path: Seq<u8>,
) -> bool {
    &&& forall|i: int|
        0 <= i < entries.len() && is_taken(#[trigger] entries[i]) ==> !clash(
            entries[i].path@,
            path,
        )
    &&& forall|k: int, at: Seq<u8>|
        0 <= k < items.len() && #[trigger] differs_at(items[k].item, at) ==> !clash(at, path)
}

/// Whether `entries[i]` is the one that a tree takes at `path`.
pub open spec fn is_staged_at(entries: Seq<IndexEntry>, i: int, path: Seq<u8>) -> bool {
    &&& 0 <= i < entries.len()
    &&& is_taken(entries[i])
    &&& entries[i].path@ == path
    &&& forall|j: int|
        i < j < entries.len() && is_taken(#[trigger] entries[j]) ==> entries[j].path@ != path
}

/// Whether `items[k]` is the only difference at `path`.
pub open spec fn is_only_difference(items: Seq<DiskItem>, k: int, path: Seq<u8>) -> bool {
    &&& 0 <= k < items.len()
    &&& differs_at(items[k].item, path)
    &&& forall|j: int|
        0 <= j < items.len() && j != k ==> !differs_at((#[trigger] items[j]).item, path)
}

proof fn lemma_staged(entries: Seq<IndexEntry>, path: Seq<u8>)
    requires
        forall|i: int|
            0 <= i < entries.len() && is_taken(#[trigger] entries[i]) ==> !clash(
                entries[i].path@,
                path,
            ),
    ensures
        forall|i: int| #[trigger]
            is_staged_at(entries, i, path) ==> held_after(
                Map::empty(),
                all_index_edits(entries),
                path,
            ) == Some((entries[i].kind->0, entries[i].id@)),
        (forall|i: int|
            0 <= i < entries.len() && is_taken(#[trigger] entries[i]) ==> entries[i].path@ != path)
            ==> held_after(Map::empty(), all_index_edits(entries), path) is None,
    decreases entries.len(),
{
    if entries.len() > 0 {
        let n = entries.len() - 1;
        let front = entries.drop_last();
        let last = entries[n];
        assert forall|i: int| 0 <= i < front.len() && is_taken(#[trigger] front[i]) implies !clash(
            front[i].path@,
            path,
        ) by {
            assert(front[i] == entries[i]);
        }
        lemma_staged(front, path);
        let edits = all_index_edits(entries);
        let before = all_index_edits(front);
        if is_taken(last) {
            assert(edits =~= before.push((last.path@, Some((last.kind->0, last.id@)))));
            assert(edits.drop_last() =~= before);
        } else {
            assert(edits =~= before);
        }
        assert forall|i: int| #[trigger] is_staged_at(entries, i, path) implies held_after(
            Map::empty(),
            edits,
            path,
        ) == Some((entries[i].kind->0, entries[i].id@)) by {
            if i < n {
                assert(is_taken(last) ==> last.path@ != path);
                assert(front[i] == entries[i]);
                assert forall|j: int|
                    i < j < front.len() && is_taken(#[trigger] front[j]) implies front[j].path@
                    != path by {
                    assert(front[j] == entries[j]);
                }
                assert(is_staged_at(front, i, path));
            }
        }
        if forall|i: int|
            0 <= i < entries.len() && is_taken(#[trigger] entries[i]) ==> entries[i].path@
                != path {
            assert forall|i: int|
                0 <= i < front.len() && is_taken(#[trigger] front[i]) implies front[i].path@
                != path by {
                assert(front[i] == entries[i]);
            }
            assert(is_taken(last) ==> last.path@ != path);
        }
    }
}

proof fn lemma_one_difference(before: Seq<Edit>, x: DiskItem, path: Seq<u8>)
    requires
        says_its_disk(x),
        forall|at: Seq<u8>| #[trigger] differs_at(x.item, at) ==> !clash(at, path),
    ensures
        held_after(Map::empty(), before + item_edits(x.item, x.disk), path) == if differs_at(
            x.item,
            path,
        ) {
            held_for(x, held_after(Map::empty(), before, path))
        } else {
            held_after(Map::empty(), before, path)
        },
{
    let edits = item_edits(x.item, x.disk);
    assert(differs_at(x.item, x.item.at()) || edits.len() == 0);
    if let Some(DiskObject::File { mode, .. }) = x.disk {
        assert((mode & 0o100 != 0) == ((mode / 0o100) % 2 == 1)) by (bit_vector);
    }
    if edits.len() == 0 {
        assert(before + edits =~= before);
    } else {
        assert(edits.len() == 1);
        assert(before + edits =~= before.push(edits[0]));
        assert((before + edits).drop_last() =~= before);
        assert(differs_at(x.item, path) <==> x.item.at() == path);
    }
}

proof fn lemma_differences(seeds: Seq<Edit>, items: Seq<DiskItem>, path: Seq<u8>)
    requires
        forall|k: int| 0 <= k < items.len() ==> says_its_disk(#[trigger] items[k]),
        forall|k: int, at: Seq<u8>|
            0 <= k < items.len() && #[trigger] differs_at(items[k].item, at) ==> !clash(at, path),
    ensures
        (forall|k: int| 0 <= k < items.len() ==> !differs_at((#[trigger] items[k]).item, path))
            ==> held_after(Map::empty(), seeds + all_item_edits(items), path) == held_after(
            Map::empty(),
            seeds,
            path,
        ),
        forall|k: int| #[trigger]
            is_only_difference(items, k, path) ==> held_after(
                Map::empty(),
                seeds + all_item_edits(items),
                path,
            ) == held_for(items[k], held_after(Map::empty(), seeds, path)),
    decreases items.len(),
{
    if items.len() == 0 {
        assert(seeds + all_item_edits(items) =~= seeds);
    } else {
        let n = items.len() - 1;
        let front = items.drop_last();
        let last = items[n];
        assert forall|k: int| 0 <= k < front.len() implies says_its_disk(#[trigger] front[k]) by {
            assert(front[k] == items[k]);
        }
        assert forall|k: int, at: Seq<u8>|
            0 <= k < front.len() && #[trigger] differs_at(front[k].item, at) implies !clash(
            at,
            path,
        ) by {
            assert(front[k] == items[k]);
            assert(differs_at(items[k].item, at));
        }
        lemma_differences(seeds, front, path);
        let before = seeds + all_item_edits(front);
        let edits = item_edits(last.item, last.disk);
        assert(seeds + all_item_edits(items) =~= before + edits);
        assert(says_its_disk(last));
        assert forall|at: Seq<u8>| #[trigger] differs_at(last.item, at) implies !clash(
            at,
            path,
        ) by {
            assert(differs_at(items[n].item, at));
        }
        lemma_one_difference(before, last, path);
        if forall|k: int| 0 <= k < items.len() ==> !differs_at((#[trigger] items[k]).item, path) {
            assert forall|k: int| 0 <= k < front.len() implies !differs_at(
                (#[trigger] front[k]).item,
                path,
            ) by {
                assert(front[k] == items[k]);
            }
        }
        assert forall|k: int| #[trigger] is_only_difference(items, k, path) implies held_after(
            Map::empty(),
            seeds + all_item_edits(items),
            path,
        ) == held_for(items[k], held_after(Map::empty(), seeds, path)) by {
            if k < n {
                assert(front[k] == items[k]);
                assert(!differs_at(items[n].item, path));
                assert forall|j: int| 0 <= j < front.len() && j != k implies !differs_at(
                    (#[trigger] front[j]).item,
                    path,
                ) by {
                    assert(front[j] == items[j]);
                }
                assert(is_only_difference(front, k, path));
            } else {
                assert forall|j: int| 0 <= j < front.len() implies !differs_at(
                    (#[trigger] front[j]).item,
                    path,
                ) by {
                    assert(front[j] == items[j]);
                }
            }
        }
    }
}

/// Whether what is on disk is given with a difference exactly where there is
/// something: at every difference but a removal.
pub open spec fn says_its_disk(x: DiskItem) -> bool {
    x.disk is Some <==> !(x.item is Removed) && exists|at: Seq<u8>| differs_at(x.item, at)
}

/// What a tree holds where a difference is, with what the index has there: nothing
/// where the file is gone, and else what is on disk, a file with its executable bit.
/// What no tree can hold changes nothing.
pub open spec fn held_for(x: DiskItem, staged: Option<Held>) -> Option<Held> {
    if x.item is Removed {
        None
    } else {
        match x.disk->0 {
            DiskObject::Link { id, .. } => Some((EntryKind::Link, id@)),
            DiskObject::File { mode, id, .. } => Some(
                (
                    if mode & 0o100 != 0 {
                        EntryKind::BlobExecutable
                    } else {
                        EntryKind::Blob
                    },
                    id@,
                ),
            ),
            DiskObject::Unrepresentable => staged,
        }
    }
}

/// What is on disk is asked for exactly at every difference but a removal.
pub proof fn law_the_disk_is_asked_wherever_it_differs(x: DiskItem)
    ensures
        x.is_complete() <==> says_its_disk(x),
        x.item.asks() == ItemAction::Remove <==> x.item is Removed,
        forall|path: Seq<u8>| #[trigger] differs_at(x.item, path) ==> x.item.at() == path,
{
    if x.item.asks() == ItemAction::Overlay {
        assert(differs_at(x.item, x.item.at()));
    }
}

/// The `code` tree, path by path: what the index has staged at a path is there with
/// the kind and the object that the index names, unless a difference says otherwise;
/// then it is what is on disk, or gone. The sides of a conflict and what no tree can
/// hold count as not staged.
pub proof fn law_the_code_tree_is_the_index_and_what_differs(
    entries: Seq<IndexEntry>,
    items: Seq<DiskItem>,
    path: Seq<u8>,
)
    requires
        forall|k: int| 0 <= k < items.len() ==> says_its_disk(#[trigger] items[k]),
        stands_alone(entries, items, path),
    ensures
        ({
            let edits = all_index_edits(entries) + all_item_edits(items);
            let held = held_after(Map::empty(), edits, path);
            let same = forall|k: int|
                0 <= k < items.len() ==> !differs_at((#[trigger] items[k]).item, path);
            let unstaged = forall|i: int|
                0 <= i < entries.len() && is_taken(#[trigger] entries[i]) ==> entries[i].path@
                    != path;
            &&& forall|i: int| #[trigger]
                is_staged_at(entries, i, path) ==> {
                    let staged = Some((entries[i].kind->0, entries[i].id@));
                    &&& same ==> held == staged
                    &&& forall|k: int| #[trigger]
                        is_only_difference(items, k, path) ==> held == held_for(items[k], staged)
                }
            &&& unstaged ==> {
                &&& same ==> held is None
                &&& forall|k: int| #[trigger]
                    is_only_difference(items, k, path) ==> held == held_for(items[k], None)
            }
        }),
{
    lemma_staged(entries, path);
    lemma_differences(all_index_edits(entries), items, path);
}

/// The `extra` tree, path by path: it has every selected file as it is on disk, with
/// its executable bit, and nothing else.
pub proof fn law_the_extra_tree_is_the_selected_files(files: Seq<SelectedFile>, path: Seq<u8>)
    requires
        forall|i: int| 0 <= i < files.len() ==> !clash((#[trigger] files[i]).path@, path),
        forall|i: int, j: int|
            0 <= i < j < files.len() ==> (#[trigger] files[i]).path@ != (#[trigger] files[j]).path@,
    ensures
        forall|i: int|
            0 <= i < files.len() && (#[trigger] files[i]).path@ == path ==> held_after(
                Map::empty(),
                all_file_edits(files),
                path,
            ) == match files[i].disk {
                DiskObject::Link { id, .. } => Some((EntryKind::Link, id@)),
                DiskObject::File { mode, id, .. } => Some(
                    (
                        if mode & 0o100 != 0 {
                            EntryKind::BlobExecutable
                        } else {
                            EntryKind::Blob
                        },
                        id@,
                    ),
                ),
                DiskObject::Unrepresentable => None,
            },
        (forall|i: int| 0 <= i < files.len() ==> (#[trigger] files[i]).path@ != path)
            ==> held_after(Map::empty(), all_file_edits(files), path) is None,
    decreases files.len(),
{
    if files.len() > 0 {
        let n = files.len() - 1;
        let front = files.drop_last();
        let last = files[n];
        assert forall|i: int| 0 <= i < front.len() implies !clash(
            (#[trigger] front[i]).path@,
            path,
        ) by {
            assert(front[i] == files[i]);
        }
        assert forall|i: int, j: int| 0 <= i < j < front.len() implies (
        #[trigger] front[i]).path@ != (#[trigger] front[j]).path@ by {
            assert(front[i] == files[i] && front[j] == files[j]);
        }
        law_the_extra_tree_is_the_selected_files(front, path);
        let before = all_file_edits(front);
        let edits = all_file_edits(files);
        if let DiskObject::File { mode, .. } = last.disk {
            assert((mode & 0o100 != 0) == ((mode / 0o100) % 2 == 1)) by (bit_vector);
        }
        if last.disk is Unrepresentable {
            assert(edits =~= before);
        } else {
            assert(edits =~= before.push((last.path@, last.disk.held())));
            assert(edits.drop_last() =~= before);
        }
        assert forall|i: int|
            0 <= i < files.len() && (#[trigger] files[i]).path@ == path implies held_after(
            Map::empty(),
            edits,
            path,
        ) == match files[i].disk {
            DiskObject::Link { id, .. } => Some((EntryKind::Link, id@)),
            DiskObject::File { mode, id, .. } => Some(
                (
                    if mode & 0o100 != 0 {
                        EntryKind::BlobExecutable
                    } else {
                        EntryKind::Blob
                    },
                    id@,
                ),
            ),
            DiskObject::Unrepresentable => None,
        } by {
            if i < n {
                assert(front[i] == files[i]);
                assert(last.path@ != path);
            } else {
                assert forall|k: int| 0 <= k < front.len() implies (
                #[trigger] front[k]).path@ != path by {
                    assert(front[k] == files[k]);
                }
            }
        }
        if forall|i: int| 0 <= i < files.len() ==> (#[trigger] files[i]).path@ != path {
            assert forall|k: int| 0 <= k < front.len() implies (#[trigger] front[k]).path@
                != path by {
                assert(front[k] == files[k]);
            }
            assert(last.path@ != path);
        }
    }
}

/// The sizes of the `code` layer are those of the differences: every removal counts
/// as one removed file, every other difference as one overlaid file with the bytes
/// that it has on disk, and nothing else counts.
pub proof fn law_every_difference_is_counted_once(items: Seq<DiskItem>)
    requires
        forall|k: int| 0 <= k < items.len() ==> says_its_disk(#[trigger] items[k]),
    ensures
        count_asking(items, ItemAction::Remove) == items.filter(
            |x: DiskItem| x.item is Removed,
        ).len(),
        count_asking(items, ItemAction::Overlay) == items.filter(|x: DiskItem| x.disk is Some).len(),
        bytes_on_disk(items) == items.fold_left(
            0,
            |sum: int, x: DiskItem|
                sum + match x.disk {
                    Some(DiskObject::Link { len, .. }) => len as int,
                    Some(DiskObject::File { len, .. }) => len as int,
                    _ => 0,
                },
        ),
    decreases items.len(),
{
    reveal(Seq::filter);
    if items.len() > 0 {
        let front = items.drop_last();
        assert forall|k: int| 0 <= k < front.len() implies says_its_disk(#[trigger] front[k]) by {
            assert(front[k] == items[k]);
        }
        law_every_difference_is_counted_once(front);
        assert(says_its_disk(items[items.len() - 1]));
        law_the_disk_is_asked_wherever_it_differs(items.last());
    }
}

/// The bytes of the `extra` layer are those of the selected files together.
pub proof fn law_every_selected_byte_is_counted_once(files: Seq<SelectedFile>)
    ensures
        bytes_selected(files) == files.fold_left(
            0,
            |sum: int, x: SelectedFile|
                sum + match x.disk {
                    DiskObject::Link { len, .. } => len as int,
                    DiskObject::File { len, .. } => len as int,
                    DiskObject::Unrepresentable => 0,
                },
        ),
    decreases files.len(),
{
    if files.len() > 0 {
        law_every_selected_byte_is_counted_once(files.drop_last());
    }
}

/// The reason that encoding failed.
#[derive(Debug)]
pub enum EncodeError {
    /// There is no git repository at the path or above it.
    OpenRepo {
        /// The path.
        path: String,
        /// What the attempt said.
        source: String,
    },
    /// The repository has no working tree.
    NoWorktree(String),
    /// `HEAD` could not be resolved.
    Head(String),
    /// The previous `extra` tip could not be resolved.
    ExtraParent(String),
    /// Selecting the force-included files failed.
    Select(crate::select::SelectError),
    /// The index could not be opened.
    OpenIndex(String),
    /// A file of the working tree, or the target of a link, could not be read.
    ReadWorktree {
        /// Its path.
        path: String,
        /// What the attempt said.
        source: String,
    },
    /// The difference between index and working tree could not be computed.
    Status(String),
    /// The tree could not be built.
    BuildTree(String),
    /// An object could not be written.
    WriteObject(String),
    /// The ref could not be updated.
    UpdateRef {
        /// The ref.
        ref_name: String,
        /// What the attempt said.
        source: String,
    },
}

impl EncodeError {
    /// The text of [`EncodeError::message`].
    pub open spec fn text(self) -> Seq<char> {
        match self {
            EncodeError::OpenRepo { path, .. } =>
                "could not open a Git repository at or above `"@ + path@ + "`"@,
            EncodeError::NoWorktree(path) => "repository at `"@ + path@
                + "` has no working tree"@,
            EncodeError::Head(_) => "could not resolve HEAD"@,
            EncodeError::ExtraParent(_) => "could not resolve the previous `extra` tip"@,
            EncodeError::Select(e) => e.text(),
            EncodeError::OpenIndex(_) => "could not open the repository index"@,
            EncodeError::ReadWorktree { path, .. } => "could not read worktree path `"@ + path@
                + "`"@,
            EncodeError::Status(_) => "could not compute working-tree status"@,
            EncodeError::BuildTree(_) => "could not build the working-tree tree"@,
            EncodeError::WriteObject(_) => "could not write a Git object"@,
            EncodeError::UpdateRef { ref_name, .. } => "could not update `"@ + ref_name@ + "`"@,
        }
    }

    /// What the error says.
    pub fn message(&self) -> (r: String)
        ensures
            r@ == self.text(),
    {
        match self {
            EncodeError::OpenRepo { path, .. } => concat3(
                "could not open a Git repository at or above `",
                path.as_str(),
                "`",
            ),
            EncodeError::NoWorktree(path) => concat3(
                "repository at `",
                path.as_str(),
                "` has no working tree",
            ),
            EncodeError::Head(_) => "could not resolve HEAD".to_owned(),
            EncodeError::ExtraParent(_) => "could not resolve the previous `extra` tip".to_owned(),
            EncodeError::Select(e) => e.message(),
            EncodeError::OpenIndex(_) => "could not open the repository index".to_owned(),
            EncodeError::ReadWorktree { path, .. } => concat3(
                "could not read worktree path `",
                path.as_str(),
                "`",
            ),
            EncodeError::Status(_) => "could not compute working-tree status".to_owned(),
            EncodeError::BuildTree(_) => "could not build the working-tree tree".to_owned(),
            EncodeError::WriteObject(_) => "could not write a Git object".to_owned(),
            EncodeError::UpdateRef { ref_name, .. } => concat3(
                "could not update `",
                ref_name.as_str(),
                "`",
            ),
        }
    }
}

/// The commit of a layer holds the tree that was encoded, on top of the one commit
/// that it is built on, if there is one. Both layers have the same author and
/// messages of their own, so that a commit depends on its tree and its parent
/// alone.
pub proof fn law_a_layer_is_committed_on_its_parent(
    tree: Seq<char>,
    parent: Seq<char>,
    other: Option<Seq<char>>,
)
    ensures
        code_commit_of(tree, Some(parent)).parents == seq![parent],
        extra_commit_of(tree, Some(parent)).parents == seq![parent],
        code_commit_of(tree, None).parents.len() == 0,
        extra_commit_of(tree, None).parents.len() == 0,
        code_commit_of(tree, other).tree == tree,
        extra_commit_of(tree, other).tree == tree,
        code_commit_of(tree, other).name == "git-full-send"@,
        code_commit_of(tree, other).email == "git-full-send@localhost"@,
        extra_commit_of(tree, other).name == code_commit_of(tree, other).name,
        extra_commit_of(tree, other).email == code_commit_of(tree, other).email,
        code_commit_of(tree, other).message == "git-full-send: working-tree snapshot"@,
        extra_commit_of(tree, other).message
            == "git-full-send: extra (force-included) snapshot"@,
{
}

} // verus!
