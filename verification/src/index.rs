//! Per-group baseline state: what each file looked like (local hash + remote id)
//! at the end of the last successful sync. The three-way reconciliation in the
//! engine diffs the current local and remote views against this baseline.

use crate::config::Sync;
use crate::relpath::{join_path, joined, RelPath};
use crate::table::Table;
use crate::text::{cat, cat3, safe_name, sanitize};
use vstd::prelude::*;

verus! {

/// The baseline recorded for a single file at the last sync.
#[derive(Debug)]
pub struct IndexEntry {
    /// Local content hash at last sync.
    pub local_hash: String,
    /// Remote change id at last sync.
    pub remote_id: String,
}

/// What [`IndexEntry`] says of a file.
pub struct EntryView {
    /// The local content hash.
    pub local_hash: Seq<char>,
    /// The remote change id.
    pub remote_id: Seq<char>,
}

impl View for IndexEntry {
    type V = EntryView;

    open spec fn view(&self) -> EntryView {
        EntryView { local_hash: self.local_hash@, remote_id: self.remote_id@ }
    }
}

impl Clone for IndexEntry {
    fn clone(&self) -> (out: Self)
        ensures
            out == *self,
    {
        IndexEntry { local_hash: self.local_hash.clone(), remote_id: self.remote_id.clone() }
    }
}

/// The baseline index for one sync group, keyed by path.
#[derive(Debug)]
pub struct Index {
    /// Per-file baseline entries.
    pub entries: Table<IndexEntry>,
    /// Empty directories known to be synced at the last run (only populated in
    /// `empty_dirs = mirror` mode; used to propagate empty-dir deletions).
    pub dirs: Table<()>,
}

impl Index {
    /// Whether both tables are in order.
    pub open spec fn wf(&self) -> bool {
        self.entries.wf() && self.dirs.wf()
    }

    /// The baseline of each file.
    pub open spec fn files(&self) -> Map<Seq<char>, EntryView> {
        self.entries@.map_values(|e: IndexEntry| e@)
    }

    /// The baseline of a path.
    pub open spec fn base(&self, path: Seq<char>) -> Option<EntryView> {
        if self.files().dom().contains(path) {
            Some(self.files()[path])
        } else {
            None
        }
    }

    /// The directories of the baseline.
    pub open spec fn dir_set(&self) -> Set<Seq<char>> {
        self.dirs@.dom()
    }

    /// An empty index.
    pub fn new() -> (out: Index)
        ensures
            out.wf(),
            out.files() == Map::<Seq<char>, EntryView>::empty(),
            out.dir_set() == Set::<Seq<char>>::empty(),
    {
        let out = Index { entries: Table::new(), dirs: Table::new() };
        assert(out.files() =~= Map::empty());
        out
    }

    /// Look up the baseline for a path.
    pub fn get(&self, path: &RelPath) -> (out: Option<&IndexEntry>)
        requires
            self.wf(),
        ensures
            match out {
                Some(e) => self.base(path@) == Some(e@),
                None => self.base(path@) is None,
            },
    {
        self.entries.get(path.as_str())
    }

    /// Record/replace the baseline for a path.
    pub fn set(&mut self, path: &RelPath, local_hash: String, remote_id: String)
        requires
            old(self).wf(),
        ensures
            final(self).wf(),
            final(self).files() == old(self).files().insert(
                path@,
                (EntryView { local_hash: local_hash@, remote_id: remote_id@ }),
            ),
            final(self).dirs == old(self).dirs,
    {
        let ghost before = self.entries@;
        let entry = IndexEntry { local_hash, remote_id };
        let ghost e = entry;
        self.entries.insert(path.as_str().to_string(), entry);
        assert(self.files() =~= before.map_values(|e: IndexEntry| e@).insert(path@, e@));
    }

    /// Remove the baseline for a path (after a delete propagates).
    pub fn remove(&mut self, path: &RelPath)
        requires
            old(self).wf(),
        ensures
            final(self).wf(),
            final(self).files() == old(self).files().remove(path@),
            final(self).dirs == old(self).dirs,
    {
        let ghost before = self.entries@;
        self.entries.remove(path.as_str());
        assert(self.files() =~= before.map_values(|e: IndexEntry| e@).remove(path@));
    }

    /// Remember that an empty directory is on both sides.
    pub fn track_dir(&mut self, dir: &RelPath)
        requires
            old(self).wf(),
        ensures
            final(self).wf(),
            final(self).dir_set() == old(self).dir_set().insert(dir@),
            final(self).entries == old(self).entries,
    {
        self.dirs.insert(dir.as_str().to_string(), ());
        assert(self.dir_set() =~= old(self).dir_set().insert(dir@));
    }

    /// Forget an empty directory.
    pub fn forget_dir(&mut self, dir: &RelPath)
        requires
            old(self).wf(),
        ensures
            final(self).wf(),
            final(self).dir_set() == old(self).dir_set().remove(dir@),
            final(self).entries == old(self).entries,
    {
        self.dirs.remove(dir.as_str());
        assert(self.dir_set() =~= old(self).dir_set().remove(dir@));
    }
}

/// A filesystem-safe id for a sync group, from its remote and remote path.
pub open spec fn id_of(sync: Sync) -> Seq<char> {
    safe_name(sync.remote@ + "__"@ + sync.remote_path@)
}

/// Derive a filesystem-safe id for a sync group from its remote + remote path.
fn group_id(sync: &Sync) -> (out: String)
    ensures
        out@ == id_of(*sync),
{
    let raw = cat3(sync.remote.as_str(), "__", sync.remote_path.as_str());
    sanitize(raw.as_str())
}

impl Index {
    /// Compute the on-disk path of a group's index inside `state_dir`.
    pub fn path_for(state_dir: &str, sync: &Sync) -> (out: String)
        ensures
            out@ == joined(joined(state_dir@, "index"@), id_of(*sync) + ".json"@),
    {
        let dir = join_path(state_dir, "index");
        let file = cat(group_id(sync).as_str(), ".json");
        join_path(dir.as_str(), file.as_str())
    }
}

/// The index of a group is a file of its own in the state directory, named by the remote
/// and the remote path with everything but letters and digits replaced: groups of another
/// remote or remote path, if those differ in a letter or digit, have another one.
pub proof fn law_every_group_has_its_index(
    state: &str,
    sync: &Sync,
    out: String,
)
    requires
        call_ensures(Index::path_for, (state, sync), out),
        state@.len() > 0,
        state@.last() != '/',
    ensures
        ({
            let name = safe_name(sync.remote@) + seq!['_', '_'] + safe_name(sync.remote_path@);
            out@ == state@ + "/index/"@ + name + ".json"@
        }),
{
    reveal_strlit("index");
    reveal_strlit("/index/");
    reveal_strlit("__");
    let raw = sync.remote@ + "__"@ + sync.remote_path@;
    let name = safe_name(sync.remote@) + seq!['_', '_'] + safe_name(sync.remote_path@);
    assert(id_of(*sync) =~= name);
    let dir = joined(state@, "index"@);
    assert(dir =~= state@ + seq!['/'] + "index"@);
    assert(dir.last() == 'x');
    let file = name + ".json"@;
    assert(file.len() > 0 && file[0] != '/') by {
        if sync.remote@.len() > 0 {
            assert(file[0] == safe_name(sync.remote@)[0]);
        } else {
            assert(file[0] == '_');
        }
    }
    assert(out@ =~= state@ + "/index/"@ + name + ".json"@);
}

} // verus!
