//! The restore transition: reattach an unlinked path to the store.
//!
//! A path qualifies for restore only when its live target resolves into
//! the scratch root, i.e. it was unlinked by this tool and its state is
//! still present. Restoring re-points the symlink at the store target
//! the manifest recorded and then discards the state directory. The
//! sweep behind restore-all walks every state directory, silently
//! purging those whose recorded symlink no longer points inside them,
//! and restoring the rest — one bad directory never stops the sweep.

use vstd::prelude::*;

use crate::bytes::{
    bytes_eq, copy_bytes, dir_prefix, in_tree, is_prefix, lemma_prefix_trans, starts_with,
    tree_keys, SLASH,
};
use crate::fs_model::{direct_child, resolve_spec, FsModel, FsNode, NodeV};
use crate::manifest::{encode_spec, lemma_manifest_round_trip, parse_manifest, parse_spec, NixLink};
use crate::selection::Selection;
use crate::tmp::{
    copy_path, hashed_dir, manifest_file, manifest_label, manifest_path, scratch_root, state_dir,
    store_root, tmp_dir,
};
use crate::unlink::{classify_spec, path_views, unlink_one_spec, ClassV, UnlinkOutcome};

verus! {

/// One link under restore: its path, its state directory, and the store
/// target recorded at unlink time.
pub struct Link {
    pub symlink: Vec<u8>,
    pub tmpdir: Vec<u8>,
    pub nix_store_file: Vec<u8>,
}

impl Link {
    /// Pairs a recorded link with the state directory it came from.
    pub fn from(nix_link: NixLink, dir: Vec<u8>) -> (r: Link)
        ensures
            r.symlink@ == nix_link.symlink@,
            r.tmpdir@ == dir@,
            r.nix_store_file@ == nix_link.nix_store_file@,
    {
        Link { symlink: nix_link.symlink, tmpdir: dir, nix_store_file: nix_link.nix_store_file }
    }
}

/// Why one restore attempt failed.
#[derive(Clone, Copy, PartialEq, Eq, Structural, Debug, PartialOrd, Ord)]
pub enum RestoreError {
    /// The path does not exist (a dangling symlink counts as absent).
    NotExisting,
    /// The path exists but is not a symlink.
    NotLink,
    /// The live target does not resolve under the scratch root: the path
    /// is not managed here.
    NotTinker,
    /// The state directory's manifest is missing, unreadable or does not
    /// record this path.
    CorruptRecord,
    /// The symlink could not be swapped back; the state directory is
    /// kept for a later retry.
    SwapLink,
    /// The symlink was restored but the state directory could not be
    /// removed.
    RemoveState,
}

/// How reading the recorded state of `p` turns out: the state directory
/// and recorded store target, or the error.
pub open spec fn read_link_spec(m: Map<Seq<u8>, NodeV>, p: Seq<u8>) -> Result<
    (Seq<u8>, Seq<u8>),
    RestoreError,
> {
    match resolve_spec(m, p) {
        None => Err(RestoreError::NotExisting),
        Some(rp) => if !(m[p] is Symlink) {
            Err(RestoreError::NotLink)
        } else if !is_prefix(scratch_root(), rp) {
            Err(RestoreError::NotTinker)
        } else {
            let dir = state_dir(p);
            let mp = manifest_path(dir);
            if m.contains_key(mp) && m[mp] is File {
                match parse_spec(m[mp]->File_0) {
                    Some(rec) => if rec.0 == p {
                        Ok((dir, rec.1))
                    } else {
                        Err(RestoreError::CorruptRecord)
                    },
                    None => Err(RestoreError::CorruptRecord),
                }
            } else {
                Err(RestoreError::CorruptRecord)
            }
        },
    }
}

/// Validates `path` and loads its recorded state.
pub fn read_link(fs: &FsModel, path: &Vec<u8>) -> (r: Result<Link, RestoreError>)
    requires
        fs.wf(),
    ensures
        match r {
            Ok(l) => read_link_spec(fs@, path@) == Ok::<(Seq<u8>, Seq<u8>), RestoreError>(
                (l.tmpdir@, l.nix_store_file@),
            ) && l.symlink@ == path@,
            Err(e) => read_link_spec(fs@, path@) == Err::<(Seq<u8>, Seq<u8>), RestoreError>(e),
        },
{
    let rp = match fs.resolve(path) {
        None => {
            return Err(RestoreError::NotExisting);
        },
        Some(x) => x,
    };
    let is_link = match fs.lookup(path) {
        Some(FsNode::Symlink(_)) => true,
        Some(_) => false,
        None => {
            proof {
                assert(false);
            }
            false
        },
    };
    if !is_link {
        return Err(RestoreError::NotLink);
    }
    let root = tmp_dir();
    if !starts_with(&rp, &root) {
        return Err(RestoreError::NotTinker);
    }
    let dir = hashed_dir(path);
    let mp = manifest_file(&dir);
    let bytes = match fs.lookup(&mp) {
        Some(FsNode::File(c)) => copy_bytes(c),
        _ => {
            return Err(RestoreError::CorruptRecord);
        },
    };
    match parse_manifest(&bytes) {
        None => Err(RestoreError::CorruptRecord),
        Some(rec) => {
            if bytes_eq(&rec.symlink, path) {
                Ok(Link { symlink: copy_bytes(path), tmpdir: dir, nix_store_file: rec.nix_store_file })
            } else {
                Err(RestoreError::CorruptRecord)
            }
        },
    }
}

/// The swap-and-destroy step on a loaded link: re-point the symlink at
/// the recorded store target, then drop the state directory. A failed
/// swap leaves everything untouched; a failed directory removal leaves
/// the restored symlink in place.
pub open spec fn restore_file_spec(
    m: Map<Seq<u8>, NodeV>,
    d: Set<Seq<u8>>,
    sym: Seq<u8>,
    dir: Seq<u8>,
    store: Seq<u8>,
) -> (Map<Seq<u8>, NodeV>, Result<(), RestoreError>) {
    if d.contains(sym) {
        (m, Err(RestoreError::SwapLink))
    } else {
        let m1 = m.insert(sym, NodeV::Symlink(store));
        if d.contains(dir) {
            (m1, Err(RestoreError::RemoveState))
        } else {
            (m1.remove_keys(tree_keys(dir)), Ok(()))
        }
    }
}

/// Swaps a loaded link back to its store target and drops its state
/// directory.
pub fn restore_file(fs: &mut FsModel, link: &Link) -> (r: Result<(), RestoreError>)
    requires
        old(fs).wf(),
    ensures
        final(fs).wf(),
        final(fs).denied_of() == old(fs).denied_of(),
        ({
            let s = restore_file_spec(
                old(fs)@,
                old(fs).denied_of(),
                link.symlink@,
                link.tmpdir@,
                link.nix_store_file@,
            );
            final(fs)@ == s.0 && r == s.1
        }),
{
    match fs.put(&link.symlink, FsNode::Symlink(copy_bytes(&link.nix_store_file))) {
        Err(()) => {
            return Err(RestoreError::SwapLink);
        },
        Ok(()) => {},
    }
    match fs.remove_tree(&link.tmpdir) {
        Err(()) => Err(RestoreError::RemoveState),
        Ok(()) => Ok(()),
    }
}

/// One whole restore attempt on one candidate path.
pub open spec fn restore_one_spec(m: Map<Seq<u8>, NodeV>, d: Set<Seq<u8>>, p: Seq<u8>) -> (
    Map<Seq<u8>, NodeV>,
    Result<(), RestoreError>,
) {
    match read_link_spec(m, p) {
        Err(e) => (m, Err(e)),
        Ok(ds) => restore_file_spec(m, d, p, ds.0, ds.1),
    }
}

/// Restores one candidate path.
pub fn restore_one(fs: &mut FsModel, path: &Vec<u8>) -> (r: Result<(), RestoreError>)
    requires
        old(fs).wf(),
    ensures
        final(fs).wf(),
        final(fs).denied_of() == old(fs).denied_of(),
        ({
            let s = restore_one_spec(old(fs)@, old(fs).denied_of(), path@);
            final(fs)@ == s.0 && r == s.1
        }),
{
    match read_link(fs, path) {
        Err(e) => Err(e),
        Ok(l) => restore_file(fs, &l),
    }
}

/// A whole restore batch over a path list, in order.
pub open spec fn restore_fold(
    m: Map<Seq<u8>, NodeV>,
    d: Set<Seq<u8>>,
    ps: Seq<Seq<u8>>,
) -> (Map<Seq<u8>, NodeV>, Seq<Result<(), RestoreError>>)
    decreases ps.len(),
{
    if ps.len() == 0 {
        (m, Seq::empty())
    } else {
        let pre = restore_fold(m, d, ps.drop_last());
        let step = restore_one_spec(pre.0, d, ps.last());
        (step.0, pre.1.push(step.1))
    }
}

/// A restore batch reports one outcome for every candidate.
pub proof fn lemma_restore_fold_len(m: Map<Seq<u8>, NodeV>, d: Set<Seq<u8>>, ps: Seq<Seq<u8>>)
    ensures
        restore_fold(m, d, ps).1.len() == ps.len(),
    decreases ps.len(),
{
    if ps.len() > 0 {
        lemma_restore_fold_len(m, d, ps.drop_last());
    }
}

/// Restores every candidate of a selection, each independently.
pub fn restore(fs: &mut FsModel, selection: &Selection) -> (r: Vec<
    (Vec<u8>, Result<(), RestoreError>),
>)
    requires
        old(fs).wf(),
    ensures
        final(fs).wf(),
        final(fs).denied_of() == old(fs).denied_of(),
        r@.len() == selection.paths@.len(),
        forall|j: int| 0 <= j < r@.len() ==> (#[trigger] r@[j]).0@ == selection.paths@[j]@,
        ({
            let s = restore_fold(old(fs)@, old(fs).denied_of(), path_views(selection.paths@));
            final(fs)@ == s.0 && (forall|j: int|
                0 <= j < r@.len() ==> (#[trigger] r@[j]).1 == s.1[j])
        }),
{
    let ghost m = old(fs)@;
    let ghost d = old(fs).denied_of();
    let ghost ps = path_views(selection.paths@);
    let mut out: Vec<(Vec<u8>, Result<(), RestoreError>)> = Vec::new();
    let mut i: usize = 0;
    while i < selection.paths.len()
        invariant
            fs.wf(),
            fs.denied_of() == d,
            m == old(fs)@,
            d == old(fs).denied_of(),
            ps == path_views(selection.paths@),
            0 <= i <= selection.paths@.len(),
            out@.len() == i,
            forall|j: int| 0 <= j < i ==> (#[trigger] out@[j]).0@ == selection.paths@[j]@,
            ({
                let s = restore_fold(m, d, ps.subrange(0, i as int));
                fs@ == s.0 && (forall|j: int|
                    0 <= j < i ==> (#[trigger] out@[j]).1 == s.1[j])
            }),
        decreases selection.paths@.len() - i,
    {
        let file = &selection.paths[i];
        let o = restore_one(fs, file);
        out.push((copy_bytes(file), o));
        proof {
            let sub1 = ps.subrange(0, i + 1);
            assert(sub1.drop_last() =~= ps.subrange(0, i as int));
            assert(sub1.last() == ps[i as int]);
            assert(ps[i as int] == selection.paths@[i as int]@);
            lemma_restore_fold_len(m, d, ps.subrange(0, i as int));
        }
        i += 1;
    }
    proof {
        assert(ps.subrange(0, ps.len() as int) =~= ps);
    }
    out
}

/// What sweeping one state directory leaves behind when its record is
/// unusable or stale: the directory is purged, best effort.
pub open spec fn orphan_sweep(m: Map<Seq<u8>, NodeV>, d: Set<Seq<u8>>, dir: Seq<u8>) -> Map<
    Seq<u8>,
    NodeV,
> {
    if d.contains(dir) {
        m
    } else {
        m.remove_keys(tree_keys(dir))
    }
}

/// Sweeping one state directory during restore-all: a directory whose
/// record is unreadable, or whose recorded symlink no longer resolves
/// into the directory, is deleted and reported as nothing; a live one is
/// restored and reported.
pub open spec fn sweep_one_spec(m: Map<Seq<u8>, NodeV>, d: Set<Seq<u8>>, dir: Seq<u8>) -> (
    Map<Seq<u8>, NodeV>,
    Option<(Seq<u8>, Result<(), RestoreError>)>,
) {
    let mp = manifest_path(dir);
    if m.contains_key(mp) && m[mp] is File {
        match parse_spec(m[mp]->File_0) {
            Some(rec) => match resolve_spec(m, rec.0) {
                None => (orphan_sweep(m, d, dir), None),
                Some(live) => if !in_tree(dir, live) {
                    (orphan_sweep(m, d, dir), None)
                } else {
                    let s = restore_file_spec(m, d, rec.0, dir, rec.1);
                    (s.0, Some((rec.0, s.1)))
                },
            },
            None => (orphan_sweep(m, d, dir), None),
        }
    } else {
        (orphan_sweep(m, d, dir), None)
    }
}

/// Sweeps one state directory.
pub fn sweep_one(fs: &mut FsModel, dir: &Vec<u8>) -> (r: Option<
    (Vec<u8>, Result<(), RestoreError>),
>)
    requires
        old(fs).wf(),
    ensures
        final(fs).wf(),
        final(fs).denied_of() == old(fs).denied_of(),
        ({
            let s = sweep_one_spec(old(fs)@, old(fs).denied_of(), dir@);
            final(fs)@ == s.0 && (match r {
                None => s.1 is None,
                Some(e) => s.1 == Some((e.0@, e.1)),
            })
        }),
{
    let mp = manifest_file(dir);
    let parsed = match fs.lookup(&mp) {
        Some(FsNode::File(c)) => {
            let cc = copy_bytes(c);
            parse_manifest(&cc)
        },
        _ => None,
    };
    match parsed {
        None => {
            match fs.remove_tree(dir) {
                Ok(()) => {},
                Err(()) => {},
            }
            None
        },
        Some(rec) => {
            match fs.resolve(&rec.symlink) {
                None => {
                    match fs.remove_tree(dir) {
                        Ok(()) => {},
                        Err(()) => {},
                    }
                    None
                },
                Some(lv) => {
                    let dp = dir_prefix(dir);
                    let under = bytes_eq(&lv, dir) || starts_with(&lv, &dp);
                    if !under {
                        match fs.remove_tree(dir) {
                            Ok(()) => {},
                            Err(()) => {},
                        }
                        None
                    } else {
                        let l = Link::from(rec, copy_bytes(dir));
                        let sym = copy_bytes(&l.symlink);
                        let res = restore_file(fs, &l);
                        Some((sym, res))
                    }
                },
            }
        },
    }
}

/// Every state directory the scratch root held, each exactly once.
pub open spec fn handle_list_ok(m: Map<Seq<u8>, NodeV>, hs: Seq<Seq<u8>>) -> bool {
    &&& forall|a: int, b: int| 0 <= a < b < hs.len() ==> hs[a] != hs[b]
    &&& forall|a: int|
        0 <= a < hs.len() ==> direct_child(#[trigger] hs[a]) && m.contains_key(hs[a])
    &&& forall|k: Seq<u8>| (#[trigger] m.contains_key(k)) && direct_child(k) ==> hs.contains(k)
}

/// The whole sweep over a list of state directories, in order; orphans
/// contribute no entry to the report.
pub open spec fn sweep_fold(
    m: Map<Seq<u8>, NodeV>,
    d: Set<Seq<u8>>,
    hs: Seq<Seq<u8>>,
) -> (Map<Seq<u8>, NodeV>, Seq<(Seq<u8>, Result<(), RestoreError>)>)
    decreases hs.len(),
{
    if hs.len() == 0 {
        (m, Seq::empty())
    } else {
        let pre = sweep_fold(m, d, hs.drop_last());
        let s = sweep_one_spec(pre.0, d, hs.last());
        (
            s.0,
            match s.1 {
                Some(e) => pre.1.push(e),
                None => pre.1,
            },
        )
    }
}

/// The views of a report list.
pub open spec fn entry_views(v: Seq<(Vec<u8>, Result<(), RestoreError>)>) -> Seq<
    (Seq<u8>, Result<(), RestoreError>),
> {
    Seq::new(v.len(), |i: int| (v[i].0@, v[i].1))
}

/// Restores everything the scratch root tracks: every state directory
/// is swept independently, orphaned ones are purged silently, and the
/// report lists one outcome per restored (or failed) link.
pub fn restore_all(fs: &mut FsModel) -> (r: Vec<(Vec<u8>, Result<(), RestoreError>)>)
    requires
        old(fs).wf(),
    ensures
        final(fs).wf(),
        final(fs).denied_of() == old(fs).denied_of(),
        exists|hs: Seq<Seq<u8>>|
            {
                &&& #[trigger] handle_list_ok(old(fs)@, hs)
                &&& final(fs)@ == sweep_fold(old(fs)@, old(fs).denied_of(), hs).0
                &&& entry_views(r@) == sweep_fold(old(fs)@, old(fs).denied_of(), hs).1
            },
{
    let ghost m = old(fs)@;
    let ghost d = old(fs).denied_of();
    let handles = fs.enumerate();
    let ghost hs = path_views(handles@);
    proof {
        assert(handle_list_ok(m, hs)) by {
            assert forall|k: Seq<u8>| (#[trigger] m.contains_key(k)) && direct_child(
                k,
            ) implies hs.contains(k) by {
                let a = choose|a: int| 0 <= a < handles@.len() && handles@[a]@ == k;
                assert(hs[a] == k);
            }
        }
    }
    let mut out: Vec<(Vec<u8>, Result<(), RestoreError>)> = Vec::new();
    let mut i: usize = 0;
    while i < handles.len()
        invariant
            fs.wf(),
            fs.denied_of() == d,
            m == old(fs)@,
            d == old(fs).denied_of(),
            hs == path_views(handles@),
            0 <= i <= handles@.len(),
            ({
                let s = sweep_fold(m, d, hs.subrange(0, i as int));
                fs@ == s.0 && entry_views(out@) == s.1
            }),
        decreases handles@.len() - i,
    {
        let ghost old_out = out@;
        let o = sweep_one(fs, &handles[i]);
        match o {
            None => {},
            Some(e) => {
                let ghost ev = (e.0@, e.1);
                out.push(e);
                proof {
                    assert(entry_views(out@) =~= entry_views(old_out).push(ev));
                }
            },
        }
        proof {
            let sub1 = hs.subrange(0, i + 1);
            assert(sub1.drop_last() =~= hs.subrange(0, i as int));
            assert(sub1.last() == hs[i as int]);
            assert(hs[i as int] == handles@[i as int]@);
        }
        i += 1;
    }
    proof {
        assert(hs.subrange(0, hs.len() as int) =~= hs);
        let s = sweep_fold(m, d, hs);
        assert(handle_list_ok(m, hs) && fs@ == s.0 && entry_views(out@) == s.1);
    }
    out
}

/// Restore is rejected, with nothing on the filesystem changed, for a
/// symlink whose live target does not resolve under the scratch root.
pub proof fn lemma_restore_rejects_untracked(
    m: Map<Seq<u8>, NodeV>,
    d: Set<Seq<u8>>,
    p: Seq<u8>,
)
    requires
        m.contains_key(p),
        m[p] is Symlink,
        match resolve_spec(m, p) {
            Some(rp) => !is_prefix(scratch_root(), rp),
            None => false,
        },
    ensures
        restore_one_spec(m, d, p).0 == m,
        restore_one_spec(m, d, p).1 == Err::<(), RestoreError>(RestoreError::NotTinker),
{
}

/// A state directory whose recorded symlink no longer resolves into it
/// is deleted by the sweep and reported as nothing.
pub proof fn lemma_sweep_removes_orphan(m: Map<Seq<u8>, NodeV>, d: Set<Seq<u8>>, dir: Seq<u8>)
    requires
        ({
            let mp = manifest_path(dir);
            m.contains_key(mp) && m[mp] is File && (match parse_spec(m[mp]->File_0) {
                Some(rec) => match resolve_spec(m, rec.0) {
                    None => true,
                    Some(live) => !in_tree(dir, live),
                },
                None => false,
            })
        }),
        !d.contains(dir),
    ensures
        sweep_one_spec(m, d, dir).0 == m.remove_keys(tree_keys(dir)),
        sweep_one_spec(m, d, dir).1 is None,
{
}

/// The round trip: unlinking a store-linked path and then restoring it
/// puts the symlink back on its original store target and leaves no
/// state directory — the filesystem is exactly as it started.
#[verifier::rlimit(100)]
#[verifier::spinoff_prover]
pub proof fn lemma_unlink_restore_round_trip(
    m: Map<Seq<u8>, NodeV>,
    d: Set<Seq<u8>>,
    p: Seq<u8>,
    t: Seq<u8>,
)
    requires
        m.contains_key(p),
        m[p] == NodeV::Symlink(t),
        is_prefix(store_root(), t),
        m.contains_key(t),
        !(m[t] is Symlink),
        crate::bytes::base_name(p) != manifest_label(),
        forall|k: Seq<u8>|
            in_tree(state_dir(p), k) ==> !(#[trigger] m.contains_key(k)),
        !d.contains(state_dir(p)),
        !d.contains(manifest_path(state_dir(p))),
        !d.contains(copy_path(state_dir(p), p)),
        !d.contains(p),
    ensures
        ({
            let u = unlink_one_spec(m, d, p);
            let s = restore_one_spec(u.0, d, p);
            u.1 == UnlinkOutcome::Unlinked && s.1 == Ok::<(), RestoreError>(()) && s.0 == m
        }),
{
    let dir = state_dir(p);
    let slashed = dir.push(SLASH);
    let mpath = manifest_path(dir);
    let cpath = copy_path(dir, p);
    let enc = encode_spec(p, t);

    assert(classify_spec(m, p) == ClassV::Managed(t));
    assert(!m.contains_key(dir)) by {
        assert(in_tree(dir, dir));
    }
    assert(is_prefix(scratch_root(), dir)) by {
        assert(dir.subrange(0, scratch_root().len() as int) =~= scratch_root());
    }
    assert(is_prefix(dir, slashed)) by {
        assert(slashed.subrange(0, dir.len() as int) =~= dir);
    }
    assert(is_prefix(slashed, mpath)) by {
        assert(mpath.subrange(0, slashed.len() as int) =~= slashed);
    }
    assert(is_prefix(slashed, cpath)) by {
        assert(cpath.subrange(0, slashed.len() as int) =~= slashed);
    }
    assert(in_tree(dir, mpath));
    assert(in_tree(dir, cpath));
    assert(is_prefix(scratch_root(), cpath)) by {
        lemma_prefix_trans(scratch_root(), dir, slashed);
        lemma_prefix_trans(scratch_root(), slashed, cpath);
    }

    // the store target is disjoint from the state directory
    assert(t != dir && t != mpath && t != cpath && !in_tree(dir, t)) by {
        assert(t[1] == store_root()[1]);
        assert(dir[1] == scratch_root()[1]);
        if t == dir {
            assert(t[1] == dir[1]);
        }
        if in_tree(dir, t) && t != dir {
            assert(t.subrange(0, slashed.len() as int) =~= slashed);
            assert(t[1] == slashed[1]);
        }
    }
    // the link itself is disjoint from the state directory
    assert(p != dir && p != mpath && p != cpath && !in_tree(dir, p)) by {
        if in_tree(dir, p) {
            assert(!m.contains_key(p));
        }
    }
    assert(mpath != cpath) by {
        if mpath == cpath {
            assert(mpath.skip(slashed.len() as int) =~= manifest_label());
            assert(cpath.skip(slashed.len() as int) =~= crate::bytes::base_name(p));
        }
    }

    let m2 = m.insert(dir, NodeV::Dir).insert(mpath, NodeV::File(enc));
    assert(m2.contains_key(t) && m2[t] == m[t]);
    assert(resolve_spec(m2, t) == Some(t));
    let mu = m2.insert(cpath, m2[t]).insert(p, NodeV::Symlink(cpath));
    let u = unlink_one_spec(m, d, p);
    assert(u.0 == mu && u.1 == UnlinkOutcome::Unlinked);

    // the restore now finds the link pointing into its state directory
    assert(mu[p] == NodeV::Symlink(cpath) && mu.contains_key(cpath));
    assert(resolve_spec(mu, p) == Some(cpath));
    assert(mu.contains_key(mpath) && mu[mpath] == NodeV::File(enc));
    lemma_manifest_round_trip(p, t);
    assert(read_link_spec(mu, p) == Ok::<(Seq<u8>, Seq<u8>), RestoreError>((dir, t)));

    let s = restore_one_spec(mu, d, p);
    assert(s.1 == Ok::<(), RestoreError>(()));
    assert(s.0 == mu.insert(p, NodeV::Symlink(t)).remove_keys(tree_keys(dir)));
    assert(s.0 =~= m) by {
        assert forall|k: Seq<u8>| s.0.contains_key(k) <==> m.contains_key(k) by {
            if in_tree(dir, k) {
                assert(!m.contains_key(k));
            }
        }
    }
}

} // verus!
