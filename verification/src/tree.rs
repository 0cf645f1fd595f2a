//! The tree-level policy of a run, over a value model of the backend's
//! trees: a tree is a mapping from repository-relative path to file content
//! and mode.  The model states what the run does to the staged tree, how the
//! result is reconciled against the working copy, and when nothing remains
//! to commit.  The backend performs the same operations on its
//! content-addressed store.

use vstd::prelude::*;

use crate::errors::Error;
use crate::pipeline::Update;
use crate::pipeline::UpdateV;

verus! {

/// The mode the worktree slice records for a file read from disk: a regular
/// blob.
pub const MODE_BLOB: u32 = 0o100644;

/// What a tree holds at one path.
pub struct FileV {
    pub content: Seq<u8>,
    pub mode: u32,
}

/// One file of a tree: a repository-relative path, the file's content, and
/// its mode.
pub struct TreeEntry {
    pub path: String,
    pub content: Vec<u8>,
    pub mode: u32,
}

/// The mapping a sequence of entries stands for; a later entry for the same
/// path wins.
pub open spec fn tree_map(entries: Seq<TreeEntry>) -> Map<Seq<char>, FileV>
    decreases entries.len(),
{
    if entries.len() == 0 {
        Map::empty()
    } else {
        tree_map(entries.drop_last()).insert(
            entries.last().path@,
            FileV { content: entries.last().content@, mode: entries.last().mode },
        )
    }
}

/// No two entries name the same path.
pub open spec fn unique_paths(entries: Seq<TreeEntry>) -> bool {
    forall|i: int, j: int|
        0 <= i < j < entries.len() ==> #[trigger] entries[i].path@ != #[trigger] entries[j].path@
}

proof fn lemma_tree_map_contains(entries: Seq<TreeEntry>, p: Seq<char>)
    ensures
        tree_map(entries).contains_key(p) <==> exists|i: int|
            0 <= i < entries.len() && #[trigger] entries[i].path@ == p,
    decreases entries.len(),
{
    if entries.len() > 0 {
        lemma_tree_map_contains(entries.drop_last(), p);
        if entries.last().path@ == p {
            assert(entries[entries.len() - 1].path@ == p);
        } else if tree_map(entries).contains_key(p) {
            let i = choose|i: int|
                0 <= i < entries.drop_last().len() && #[trigger] entries.drop_last()[i].path@ == p;
            assert(entries[i].path@ == p);
        } else {
            assert forall|i: int|
                0 <= i < entries.len() && #[trigger] entries[i].path@ == p implies false by {
                assert(entries.drop_last()[i].path@ == p);
            }
        }
    }
}

proof fn lemma_tree_map_value(entries: Seq<TreeEntry>, i: int)
    requires
        unique_paths(entries),
        0 <= i < entries.len(),
    ensures
        tree_map(entries).contains_key(entries[i].path@),
        tree_map(entries)[entries[i].path@] == (FileV {
            content: entries[i].content@,
            mode: entries[i].mode,
        }),
    decreases entries.len(),
{
    lemma_tree_map_contains(entries, entries[i].path@);
    if i < entries.len() - 1 {
        assert(entries.drop_last()[i] == entries[i]);
        lemma_tree_map_value(entries.drop_last(), i);
        assert(entries[i].path@ != entries.last().path@);
    }
}

/// A tree: an immutable snapshot mapping each path to one file.  Paths
/// within one tree are unique.
pub struct TreeModel {
    entries: Vec<TreeEntry>,
}

impl TreeModel {
    /// The mapping this tree stands for.
    pub closed spec fn view(&self) -> Map<Seq<char>, FileV> {
        tree_map(self.entries@)
    }

    /// The tree's internal entry list names each path once.
    pub closed spec fn wf(&self) -> bool {
        unique_paths(self.entries@)
    }

    pub fn empty() -> (r: TreeModel)
        ensures
            r.wf(),
            r@ == Map::<Seq<char>, FileV>::empty(),
    {
        TreeModel { entries: Vec::new() }
    }

    /// The position of `path` in the entry list, if present.
    fn find_path(&self, path: &String) -> (r: Option<usize>)
        ensures
            r matches Some(i) ==> i < self.entries@.len() && self.entries@[i as int].path@
                == path@,
            r is None ==> forall|k: int|
                0 <= k < self.entries@.len() ==> #[trigger] self.entries@[k].path@ != path@,
    {
        let n = self.entries.len();
        let mut i: usize = 0;
        while i < n
            invariant
                n == self.entries@.len(),
                i <= n,
                forall|k: int| 0 <= k < i ==> #[trigger] self.entries@[k].path@ != path@,
            decreases n - i,
        {
            if string_eq(&self.entries[i].path, path) {
                return Some(i);
            }
            i = i + 1;
        }
        None
    }

    /// Inserts or replaces the file at `path`.
    pub fn upsert(&mut self, path: String, content: Vec<u8>, mode: u32)
        requires
            old(self).wf(),
        ensures
            final(self).wf(),
            final(self)@ == old(self)@.insert(path@, FileV { content: content@, mode }),
    {
        match self.find_path(&path) {
            Some(i) => {
                let e = TreeEntry { path, content, mode };
                proof {
                    lemma_tree_map_update(self.entries@, i as int, e);
                }
                self.entries.set(i, e);
            },
            None => {
                let e = TreeEntry { path, content, mode };
                proof {
                    assert(self.entries@.push(e).drop_last() =~= self.entries@);
                    assert(forall|k: int|
                        0 <= k < self.entries@.len() ==> #[trigger] self.entries@.push(e)[k]
                            == self.entries@[k]);
                }
                self.entries.push(e);
            },
        }
    }

    /// The file at `path`, if the tree holds one.
    pub fn lookup(&self, path: &String) -> (r: Option<&TreeEntry>)
        requires
            self.wf(),
        ensures
            r is Some <==> self@.contains_key(path@),
            r matches Some(e) ==> e.path@ == path@ && self@[path@] == (FileV {
                content: e.content@,
                mode: e.mode,
            }),
    {
        proof {
            lemma_tree_map_contains(self.entries@, path@);
        }
        match self.find_path(path) {
            Some(i) => {
                proof {
                    lemma_tree_map_value(self.entries@, i as int);
                }
                Some(&self.entries[i])
            },
            None => None,
        }
    }

    /// The tree's paths, one for each file it holds.
    pub fn paths(&self) -> (r: Vec<String>)
        requires
            self.wf(),
        ensures
            forall|k: int| 0 <= k < r@.len() ==> self@.contains_key(#[trigger] r@[k]@),
            forall|p: Seq<char>|
                self@.contains_key(p) ==> exists|k: int| 0 <= k < r@.len() && #[trigger] r@[k]@ == p,
            forall|k1: int, k2: int|
                0 <= k1 < k2 < r@.len() ==> #[trigger] r@[k1]@ != #[trigger] r@[k2]@,
    {
        let n = self.entries.len();
        let mut r: Vec<String> = Vec::new();
        let mut i: usize = 0;
        while i < n
            invariant
                n == self.entries@.len(),
                i <= n,
                r@.len() == i,
                forall|k: int| 0 <= k < i ==> #[trigger] r@[k]@ == self.entries@[k].path@,
            decreases n - i,
        {
            r.push(self.entries[i].path.clone());
            i = i + 1;
        }
        proof {
            assert forall|k: int| 0 <= k < r@.len() implies self@.contains_key(
                #[trigger] r@[k]@,
            ) by {
                lemma_tree_map_contains(self.entries@, r@[k]@);
            }
            assert forall|p: Seq<char>| self@.contains_key(p) implies exists|k: int|
                0 <= k < r@.len() && #[trigger] r@[k]@ == p by {
                lemma_tree_map_contains(self.entries@, p);
                let i = choose|i: int|
                    0 <= i < self.entries@.len() && #[trigger] self.entries@[i].path@ == p;
                assert(r@[i]@ == p);
            }
        }
        r
    }
}

proof fn lemma_tree_map_update(entries: Seq<TreeEntry>, i: int, e: TreeEntry)
    requires
        unique_paths(entries),
        0 <= i < entries.len(),
        entries[i].path@ == e.path@,
    ensures
        unique_paths(entries.update(i, e)),
        tree_map(entries.update(i, e)) == tree_map(entries).insert(
            e.path@,
            FileV { content: e.content@, mode: e.mode },
        ),
    decreases entries.len(),
{
    let upd = entries.update(i, e);
    assert forall|a: int, b: int| 0 <= a < b < upd.len() implies #[trigger] upd[a].path@
        != #[trigger] upd[b].path@ by {
        assert(entries[a].path@ != entries[b].path@);
    }
    if i == entries.len() - 1 {
        assert(upd.drop_last() =~= entries.drop_last());
        assert(tree_map(entries).insert(e.path@, FileV { content: e.content@, mode: e.mode })
            =~= tree_map(entries.drop_last()).insert(
            e.path@,
            FileV { content: e.content@, mode: e.mode },
        ));
    } else {
        assert(upd.drop_last() =~= entries.drop_last().update(i, e));
        assert(entries.drop_last()[i] == entries[i]);
        lemma_tree_map_update(entries.drop_last(), i, e);
        assert(upd.last() == entries.last());
        assert(entries[entries.len() - 1].path@ != entries[i].path@);
        assert(tree_map(upd) =~= tree_map(entries).insert(
            e.path@,
            FileV { content: e.content@, mode: e.mode },
        ));
    }
}

/// String equality on path values.
fn string_eq(a: &String, b: &String) -> (r: bool)
    ensures
        r == (a@ == b@),
{
    a.eq(b)
}

/// An owned copy of a byte buffer.
fn copy_bytes(b: &Vec<u8>) -> (r: Vec<u8>)
    ensures
        r@ == b@,
{
    let n = b.len();
    let mut r: Vec<u8> = Vec::new();
    let mut i: usize = 0;
    while i < n
        invariant
            n == b@.len(),
            i <= n,
            r@ == b@.take(i as int),
        decreases n - i,
    {
        proof {
            assert(b@.take(i + 1) =~= b@.take(i as int).push(b@[i as int]));
        }
        r.push(b[i]);
        i = i + 1;
    }
    proof {
        assert(b@.take(n as int) =~= b@);
    }
    r
}

/// Byte-buffer equality.
fn bytes_eq(a: &Vec<u8>, b: &Vec<u8>) -> (r: bool)
    ensures
        r == (a@ == b@),
{
    if a.len() != b.len() {
        return false;
    }
    let n = a.len();
    let mut i: usize = 0;
    while i < n
        invariant
            n == a@.len() == b@.len(),
            i <= n,
            forall|k: int| 0 <= k < i ==> a@[k] == b@[k],
        decreases n - i,
    {
        if a[i] != b[i] {
            return false;
        }
        i = i + 1;
    }
    proof {
        assert(a@ =~= b@);
    }
    true
}

/// Two entry lists that agree pointwise on path, content and mode stand for
/// the same tree.
proof fn lemma_tree_map_congruent(a: Seq<TreeEntry>, b: Seq<TreeEntry>)
    requires
        a.len() == b.len(),
        forall|i: int|
            0 <= i < a.len() ==> #[trigger] a[i].path@ == b[i].path@ && a[i].content@
                == b[i].content@ && a[i].mode == b[i].mode,
    ensures
        tree_map(a) == tree_map(b),
    decreases a.len(),
{
    if a.len() > 0 {
        assert(forall|i: int|
            0 <= i < a.len() - 1 ==> #[trigger] a.drop_last()[i] == a[i] && b.drop_last()[i]
                == b[i]);
        lemma_tree_map_congruent(a.drop_last(), b.drop_last());
        assert(a[a.len() - 1].path@ == b[a.len() - 1].path@);
    }
}

impl TreeModel {
    /// An owned copy of the tree.
    pub fn duplicate(&self) -> (r: TreeModel)
        requires
            self.wf(),
        ensures
            r.wf(),
            r@ == self@,
    {
        let n = self.entries.len();
        let mut entries: Vec<TreeEntry> = Vec::new();
        let mut i: usize = 0;
        while i < n
            invariant
                n == self.entries@.len(),
                i <= n,
                entries@.len() == i,
                forall|k: int|
                    0 <= k < i ==> #[trigger] entries@[k].path@ == self.entries@[k].path@
                        && entries@[k].content@ == self.entries@[k].content@ && entries@[k].mode
                        == self.entries@[k].mode,
            decreases n - i,
        {
            let e = &self.entries[i];
            entries.push(TreeEntry { path: e.path.clone(), content: copy_bytes(&e.content), mode: e.mode });
            i = i + 1;
        }
        proof {
            lemma_tree_map_congruent(entries@, self.entries@);
        }
        TreeModel { entries }
    }
}

/// The staged tree rewritten by an update set: each update replaces the
/// file at its path, and every other path is untouched.
pub open spec fn spec_apply(base: Map<Seq<char>, FileV>, ups: Seq<UpdateV>) -> Map<
    Seq<char>,
    FileV,
>
    decreases ups.len(),
{
    if ups.len() == 0 {
        base
    } else {
        spec_apply(base, ups.drop_last()).insert(
            ups.last().path,
            FileV { content: ups.last().content, mode: ups.last().mode },
        )
    }
}

impl TreeModel {
    /// Applies the run's update set to this tree, producing the transformed
    /// tree: identical to this one except at exactly the updated paths,
    /// which carry the transformed content under the entry's original mode.
    pub fn apply_updates(&self, updates: &Vec<Update>) -> (r: TreeModel)
        requires
            self.wf(),
        ensures
            r.wf(),
            r@ == spec_apply(self@, updates@.map_values(|u: Update| u@)),
    {
        let ghost ups = updates@.map_values(|u: Update| u@);
        let mut r = self.duplicate();
        let n = updates.len();
        let mut i: usize = 0;
        proof {
            assert(ups.take(0) =~= Seq::<UpdateV>::empty());
        }
        while i < n
            invariant
                n == updates@.len(),
                i <= n,
                ups == updates@.map_values(|u: Update| u@),
                r.wf(),
                r@ == spec_apply(self@, ups.take(i as int)),
            decreases n - i,
        {
            let u = &updates[i];
            r.upsert(u.path.clone(), copy_bytes(&u.content), u.mode);
            proof {
                assert(ups.take(i + 1).drop_last() =~= ups.take(i as int));
                assert(ups.take(i + 1).last() == ups[i as int]);
            }
            i = i + 1;
        }
        proof {
            assert(ups.take(n as int) =~= ups);
        }
        r
    }
}

/// One file read back from the working directory.
pub struct DiskFile {
    pub path: String,
    pub content: Vec<u8>,
}

/// The mathematical value of a [`DiskFile`].
pub struct DiskFileV {
    pub path: Seq<char>,
    pub content: Seq<u8>,
}

impl View for DiskFile {
    type V = DiskFileV;

    open spec fn view(&self) -> DiskFileV {
        DiskFileV { path: self.path@, content: self.content@ }
    }
}

/// A base tree overlaid with files read from disk, each stored as a regular
/// blob.
pub open spec fn spec_overlay(base: Map<Seq<char>, FileV>, files: Seq<DiskFileV>) -> Map<
    Seq<char>,
    FileV,
>
    decreases files.len(),
{
    if files.len() == 0 {
        base
    } else {
        spec_overlay(base, files.drop_last()).insert(
            files.last().path,
            FileV { content: files.last().content, mode: MODE_BLOB },
        )
    }
}

impl TreeModel {
    /// The worktree slice: what the working copy currently holds, restricted
    /// to the touched paths.  `disk` carries, for every path of the
    /// transformed tree that exists as a regular file on disk, the bytes
    /// read from disk; the slice is the staged tree with those files
    /// overlaid.
    pub fn worktree_slice(&self, disk: &Vec<DiskFile>) -> (r: TreeModel)
        requires
            self.wf(),
        ensures
            r.wf(),
            r@ == spec_overlay(self@, disk@.map_values(|d: DiskFile| d@)),
    {
        let ghost files = disk@.map_values(|d: DiskFile| d@);
        let mut r = self.duplicate();
        let n = disk.len();
        let mut i: usize = 0;
        proof {
            assert(files.take(0) =~= Seq::<DiskFileV>::empty());
        }
        while i < n
            invariant
                n == disk@.len(),
                i <= n,
                files == disk@.map_values(|d: DiskFile| d@),
                r.wf(),
                r@ == spec_overlay(self@, files.take(i as int)),
            decreases n - i,
        {
            let d = &disk[i];
            r.upsert(d.path.clone(), copy_bytes(&d.content), MODE_BLOB);
            proof {
                assert(files.take(i + 1).drop_last() =~= files.take(i as int));
                assert(files.take(i + 1).last() == files[i as int]);
            }
            i = i + 1;
        }
        proof {
            assert(files.take(n as int) =~= files);
        }
        r
    }
}

/// What a tree holds at `p`, or `None` when the path is absent.
pub open spec fn opt_at(m: Map<Seq<char>, FileV>, p: Seq<char>) -> Option<FileV> {
    if m.contains_key(p) {
        Some(m[p])
    } else {
        None
    }
}

/// The three-way merge policy at one path, with the working copy favored:
/// when both sides agree the common value stands; a side that left the
/// ancestor untouched yields to the other; and on a real conflict the
/// working-copy side (`ours`) wins.
pub open spec fn spec_merge_at(
    anc: Map<Seq<char>, FileV>,
    ours: Map<Seq<char>, FileV>,
    theirs: Map<Seq<char>, FileV>,
    p: Seq<char>,
) -> Option<FileV> {
    if opt_at(ours, p) == opt_at(theirs, p) {
        opt_at(ours, p)
    } else if opt_at(ours, p) == opt_at(anc, p) {
        opt_at(theirs, p)
    } else {
        opt_at(ours, p)
    }
}

/// The merged tree: the merge policy applied at every path.
pub open spec fn spec_merge(
    anc: Map<Seq<char>, FileV>,
    ours: Map<Seq<char>, FileV>,
    theirs: Map<Seq<char>, FileV>,
) -> Map<Seq<char>, FileV> {
    Map::new(
        |p: Seq<char>| spec_merge_at(anc, ours, theirs, p) is Some,
        |p: Seq<char>| spec_merge_at(anc, ours, theirs, p)->Some_0,
    )
}

/// The merged tree holds the right file at `p`.
pub open spec fn merged_ok(
    anc: Map<Seq<char>, FileV>,
    ours: Map<Seq<char>, FileV>,
    theirs: Map<Seq<char>, FileV>,
    out: Map<Seq<char>, FileV>,
    p: Seq<char>,
) -> bool {
    match spec_merge_at(anc, ours, theirs, p) {
        Some(v) => out.contains_key(p) && out[p] == v,
        None => !out.contains_key(p),
    }
}

/// Whether `e` holds the same file as the optional entry `o`.
fn entry_eq_opt(e: &TreeEntry, o: Option<&TreeEntry>) -> (r: bool)
    ensures
        r == (match o {
            Some(x) => e.content@ == x.content@ && e.mode == x.mode,
            None => false,
        }),
{
    match o {
        Some(x) => e.mode == x.mode && bytes_eq(&e.content, &x.content),
        None => false,
    }
}

impl TreeModel {
    /// Three-way merge with the working copy favored: ancestor is the
    /// staged tree, `self` (ours) the worktree slice, `theirs` the
    /// transformed tree.  Conflicts do not fail; the working-copy side
    /// wins them.
    pub fn merge_favor_ours(ancestor: &TreeModel, ours: &TreeModel, theirs: &TreeModel) -> (r:
        TreeModel)
        requires
            ancestor.wf(),
            ours.wf(),
            theirs.wf(),
        ensures
            r.wf(),
            r@ == spec_merge(ancestor@, ours@, theirs@),
    {
        let mut out = TreeModel::empty();
        let n = ours.entries.len();
        let mut i: usize = 0;
        while i < n
            invariant
                ancestor.wf(),
                ours.wf(),
                theirs.wf(),
                out.wf(),
                n == ours.entries@.len(),
                i <= n,
                forall|p: Seq<char>|
                    out@.contains_key(p) ==> exists|k: int|
                        0 <= k < i && #[trigger] ours.entries@[k].path@ == p,
                forall|k: int|
                    0 <= k < i ==> merged_ok(
                        ancestor@,
                        ours@,
                        theirs@,
                        out@,
                        #[trigger] ours.entries@[k].path@,
                    ),
            decreases n - i,
        {
            let e = &ours.entries[i];
            proof {
                lemma_tree_map_value(ours.entries@, i as int);
            }
            let a = ancestor.lookup(&e.path);
            let t = theirs.lookup(&e.path);
            if entry_eq_opt(e, t) {
                out.upsert(e.path.clone(), copy_bytes(&e.content), e.mode);
            } else if entry_eq_opt(e, a) {
                match t {
                    Some(te) => {
                        out.upsert(e.path.clone(), copy_bytes(&te.content), te.mode);
                    },
                    None => {
                        proof {
                            assert(spec_merge_at(ancestor@, ours@, theirs@, e.path@) is None);
                        }
                    },
                }
            } else {
                out.upsert(e.path.clone(), copy_bytes(&e.content), e.mode);
            }
            i = i + 1;
        }
        proof {
            assert forall|p: Seq<char>| #[trigger] out@.contains_key(p) implies ours@.contains_key(
                p,
            ) by {
                lemma_tree_map_contains(ours.entries@, p);
            }
        }
        let m = theirs.entries.len();
        let mut j: usize = 0;
        while j < m
            invariant
                ancestor.wf(),
                ours.wf(),
                theirs.wf(),
                out.wf(),
                m == theirs.entries@.len(),
                j <= m,
                forall|k: int|
                    0 <= k < ours.entries@.len() ==> merged_ok(
                        ancestor@,
                        ours@,
                        theirs@,
                        out@,
                        #[trigger] ours.entries@[k].path@,
                    ),
                forall|k: int|
                    0 <= k < j && !ours@.contains_key(#[trigger] theirs.entries@[k].path@)
                        ==> merged_ok(ancestor@, ours@, theirs@, out@, theirs.entries@[k].path@),
                forall|p: Seq<char>|
                    out@.contains_key(p) ==> ours@.contains_key(p) || exists|k: int|
                        0 <= k < j && #[trigger] theirs.entries@[k].path@ == p,
            decreases m - j,
        {
            let e = &theirs.entries[j];
            proof {
                lemma_tree_map_value(theirs.entries@, j as int);
                lemma_tree_map_contains(ours.entries@, e.path@);
            }
            match ours.lookup(&e.path) {
                Some(_) => {
                },
                None => {
                    match ancestor.lookup(&e.path) {
                        Some(_) => {
                        },
                        None => {
                            out.upsert(e.path.clone(), copy_bytes(&e.content), e.mode);
                        },
                    }
                },
            }
            j = j + 1;
        }
        proof {
            assert forall|p: Seq<char>| #[trigger]
                spec_merge(ancestor@, ours@, theirs@).contains_key(p) implies out@.contains_key(p)
                && out@[p] == spec_merge(ancestor@, ours@, theirs@)[p] by {
                lemma_tree_map_contains(ours.entries@, p);
                lemma_tree_map_contains(theirs.entries@, p);
                if ours@.contains_key(p) {
                    let k = choose|k: int|
                        0 <= k < ours.entries@.len() && #[trigger] ours.entries@[k].path@ == p;
                    assert(merged_ok(ancestor@, ours@, theirs@, out@, p));
                } else if theirs@.contains_key(p) {
                    let k = choose|k: int|
                        0 <= k < theirs.entries@.len() && #[trigger] theirs.entries@[k].path@
                            == p;
                    assert(merged_ok(ancestor@, ours@, theirs@, out@, p));
                } else {
                    assert(spec_merge_at(ancestor@, ours@, theirs@, p) is None);
                }
            }
            assert forall|p: Seq<char>| #[trigger] out@.contains_key(p) implies spec_merge(
                ancestor@,
                ours@,
                theirs@,
            ).contains_key(p) by {
                if ours@.contains_key(p) {
                    lemma_tree_map_contains(ours.entries@, p);
                    let k = choose|k: int|
                        0 <= k < ours.entries@.len() && #[trigger] ours.entries@[k].path@ == p;
                    assert(merged_ok(ancestor@, ours@, theirs@, out@, p));
                } else {
                    lemma_tree_map_contains(theirs.entries@, p);
                    let k = choose|k: int|
                        0 <= k < theirs.entries@.len() && #[trigger] theirs.entries@[k].path@
                            == p;
                    assert(merged_ok(ancestor@, ours@, theirs@, out@, p));
                }
            }
            assert(out@ =~= spec_merge(ancestor@, ours@, theirs@));
        }
        out
    }

    /// Whether two trees hold exactly the same files.
    pub fn equal_trees(a: &TreeModel, b: &TreeModel) -> (r: bool)
        requires
            a.wf(),
            b.wf(),
        ensures
            r == (a@ == b@),
    {
        let n = a.entries.len();
        let mut i: usize = 0;
        while i < n
            invariant
                a.wf(),
                b.wf(),
                n == a.entries@.len(),
                i <= n,
                forall|k: int|
                    0 <= k < i ==> b@.contains_key(#[trigger] a.entries@[k].path@)
                        && b@[a.entries@[k].path@] == (FileV {
                        content: a.entries@[k].content@,
                        mode: a.entries@[k].mode,
                    }),
            decreases n - i,
        {
            let e = &a.entries[i];
            proof {
                lemma_tree_map_value(a.entries@, i as int);
            }
            match b.lookup(&e.path) {
                None => {
                    proof {
                        assert(a@.contains_key(e.path@) && !b@.contains_key(e.path@));
                    }
                    return false;
                },
                Some(x) => {
                    if !(e.mode == x.mode && bytes_eq(&e.content, &x.content)) {
                        proof {
                            assert(a@[e.path@] != b@[e.path@]);
                        }
                        return false;
                    }
                },
            }
            i = i + 1;
        }
        let m = b.entries.len();
        let mut j: usize = 0;
        while j < m
            invariant
                a.wf(),
                b.wf(),
                m == b.entries@.len(),
                j <= m,
                forall|k: int| 0 <= k < j ==> a@.contains_key(#[trigger] b.entries@[k].path@),
            decreases m - j,
        {
            let e = &b.entries[j];
            proof {
                lemma_tree_map_value(b.entries@, j as int);
            }
            match a.lookup(&e.path) {
                None => {
                    proof {
                        assert(b@.contains_key(e.path@) && !a@.contains_key(e.path@));
                    }
                    return false;
                },
                Some(_) => {
                },
            }
            j = j + 1;
        }
        proof {
            assert forall|p: Seq<char>| a@.contains_key(p) == b@.contains_key(p) by {
                lemma_tree_map_contains(a.entries@, p);
                lemma_tree_map_contains(b.entries@, p);
            }
            assert forall|p: Seq<char>| #[trigger] a@.contains_key(p) implies a@[p] == b@[p] by {
                lemma_tree_map_contains(a.entries@, p);
                let k = choose|k: int|
                    0 <= k < a.entries@.len() && #[trigger] a.entries@[k].path@ == p;
                lemma_tree_map_value(a.entries@, k);
            }
            assert(a@ =~= b@);
        }
        true
    }

    /// The outcome of a run: after reconciliation, the transformed tree is
    /// held against the last commit's tree.  When they are identical,
    /// nothing real remains — either nothing was staged, or formatting
    /// neutralized every staged change — and the run signals the empty
    /// index, on which the caller must abort the commit.
    pub fn evaluate_outcome(last_commit: &TreeModel, transformed: &TreeModel) -> (r: Result<
        (),
        Error,
    >)
        requires
            last_commit.wf(),
            transformed.wf(),
        ensures
            r is Err <==> last_commit@ == transformed@,
            r matches Err(e) ==> e is EmptyIndex,
    {
        if TreeModel::equal_trees(last_commit, transformed) {
            Err(Error::EmptyIndex)
        } else {
            Ok(())
        }
    }
}

} // verus!
