//! The unlink transition: detach a managed link from the store.
//!
//! A candidate path is first classified; only a symlink whose raw target
//! lies under the store root is eligible. Unlinking then records the
//! link in a fresh state directory, copies the store content beside the
//! record, and finally swaps the symlink over to the private copy. Any
//! failure after the state directory was created rolls the directory
//! back and leaves the symlink as it was; a failure before it changes
//! nothing. Each candidate of a selection is processed independently.

use vstd::prelude::*;

use crate::bytes::{copy_bytes, is_prefix, starts_with, tree_keys};
use crate::fs_model::{clone_node, resolve_spec, FsModel, FsNode, NodeV};
use crate::manifest::{encode_manifest, encode_spec, NixLink};
use crate::selection::Selection;
use crate::tmp::{
    copy_file, copy_path, hashed_dir, manifest_file, manifest_path, state_dir, store_dir,
    store_root,
};

verus! {

/// The classification of one candidate path.
pub enum NixLinkRead {
    /// The path does not exist (a dangling symlink counts as absent).
    NotExisting,
    /// The path exists but is not a symlink.
    NotLink,
    /// The path is a symlink whose target is not under the store root.
    NotNix,
    /// The path is a managed store link.
    Managed(NixLink),
}

/// The classification's mathematical value.
pub enum ClassV {
    NotExisting,
    NotLink,
    NotNix,
    Managed(Seq<u8>),
}

/// How a candidate path classifies against the filesystem `m`.
pub open spec fn classify_spec(m: Map<Seq<u8>, NodeV>, p: Seq<u8>) -> ClassV {
    if resolve_spec(m, p) is None {
        ClassV::NotExisting
    } else if !(m[p] is Symlink) {
        ClassV::NotLink
    } else if !is_prefix(store_root(), m[p]->Symlink_0) {
        ClassV::NotNix
    } else {
        ClassV::Managed(m[p]->Symlink_0)
    }
}

/// Classifies a candidate path by reading its link metadata.
pub fn read_nix_store_file(fs: &FsModel, file: &Vec<u8>) -> (r: NixLinkRead)
    requires
        fs.wf(),
    ensures
        match r {
            NixLinkRead::NotExisting => classify_spec(fs@, file@) is NotExisting,
            NixLinkRead::NotLink => classify_spec(fs@, file@) is NotLink,
            NixLinkRead::NotNix => classify_spec(fs@, file@) is NotNix,
            NixLinkRead::Managed(link) => classify_spec(fs@, file@) == ClassV::Managed(
                link.nix_store_file@,
            ) && link.symlink@ == file@,
        },
{
    match fs.resolve(file) {
        None => {
            return NixLinkRead::NotExisting;
        },
        Some(_) => {},
    }
    match fs.lookup(file) {
        Some(FsNode::Symlink(t)) => {
            let tc = copy_bytes(t);
            let sr = store_dir();
            if !starts_with(&tc, &sr) {
                NixLinkRead::NotNix
            } else {
                NixLinkRead::Managed(
                    NixLink { symlink: copy_bytes(file), nix_store_file: tc },
                )
            }
        },
        Some(_) => NixLinkRead::NotLink,
        None => {
            proof {
                assert(false);
            }
            NixLinkRead::NotExisting
        },
    }
}

/// Why one unlink transition failed.
#[derive(Clone, Copy, PartialEq, Eq, Structural, Debug)]
pub enum UnlinkFailure {
    /// A stale state directory of the same key could not be removed.
    RemoveStale,
    /// The state directory could not be created.
    CreateDir,
    /// The manifest could not be written.
    WriteRecord,
    /// The store target did not resolve to readable content.
    MissingSource,
    /// The store content could not be copied into the state directory.
    CopyContent,
    /// The symlink itself could not be replaced.
    SwapLink,
}

/// The outcome for one candidate of an unlink batch.
#[derive(Clone, Copy, PartialEq, Eq, Structural, Debug)]
pub enum UnlinkOutcome {
    NotExisting,
    NotLink,
    NotNix,
    Unlinked,
    Failed(UnlinkFailure),
}

/// The unlink transition of a link already classified as managed: what
/// it does to the filesystem `m` under the denied set `d`, and what it
/// reports. On success the state directory holds the manifest and the
/// content copy, and the symlink points at the copy; on failure after
/// the stale sweep the state directory is rolled back and the symlink
/// keeps its old target.
pub open spec fn unlink_link_spec(
    m: Map<Seq<u8>, NodeV>,
    d: Set<Seq<u8>>,
    p: Seq<u8>,
    t: Seq<u8>,
) -> (Map<Seq<u8>, NodeV>, UnlinkOutcome) {
    let dir = state_dir(p);
    let mpath = manifest_path(dir);
    let cpath = copy_path(dir, p);
    if d.contains(dir) {
        (
            m,
            UnlinkOutcome::Failed(
                if m.contains_key(dir) {
                    UnlinkFailure::RemoveStale
                } else {
                    UnlinkFailure::CreateDir
                },
            ),
        )
    } else {
        let m1 = if m.contains_key(dir) {
            m.remove_keys(tree_keys(dir))
        } else {
            m
        };
        if d.contains(mpath) {
            (m.remove_keys(tree_keys(dir)), UnlinkOutcome::Failed(UnlinkFailure::WriteRecord))
        } else {
            let m2 = m1.insert(dir, NodeV::Dir).insert(mpath, NodeV::File(encode_spec(p, t)));
            match resolve_spec(m2, t) {
                None => (
                    m.remove_keys(tree_keys(dir)),
                    UnlinkOutcome::Failed(UnlinkFailure::MissingSource),
                ),
                Some(src) => if d.contains(cpath) {
                    (
                        m.remove_keys(tree_keys(dir)),
                        UnlinkOutcome::Failed(UnlinkFailure::CopyContent),
                    )
                } else if d.contains(p) {
                    (
                        m.remove_keys(tree_keys(dir)),
                        UnlinkOutcome::Failed(UnlinkFailure::SwapLink),
                    )
                } else {
                    (
                        m2.insert(cpath, m2[src]).insert(p, NodeV::Symlink(cpath)),
                        UnlinkOutcome::Unlinked,
                    )
                },
            }
        }
    }
}

/// One whole unlink attempt on a candidate path: classification first,
/// then the transition for a managed link.
pub open spec fn unlink_one_spec(
    m: Map<Seq<u8>, NodeV>,
    d: Set<Seq<u8>>,
    p: Seq<u8>,
) -> (Map<Seq<u8>, NodeV>, UnlinkOutcome) {
    match classify_spec(m, p) {
        ClassV::NotExisting => (m, UnlinkOutcome::NotExisting),
        ClassV::NotLink => (m, UnlinkOutcome::NotLink),
        ClassV::NotNix => (m, UnlinkOutcome::NotNix),
        ClassV::Managed(t) => unlink_link_spec(m, d, p, t),
    }
}

/// Performs the unlink transition for a link already classified as
/// managed.
#[verifier::rlimit(100)]
#[verifier::spinoff_prover]
pub fn unlink_nix_link(fs: &mut FsModel, nix_link: &NixLink) -> (r: Result<(), UnlinkFailure>)
    requires
        old(fs).wf(),
    ensures
        final(fs).wf(),
        final(fs).denied_of() == old(fs).denied_of(),
        ({
            let s = unlink_link_spec(
                old(fs)@,
                old(fs).denied_of(),
                nix_link.symlink@,
                nix_link.nix_store_file@,
            );
            final(fs)@ == s.0 && (match r {
                Ok(()) => s.1 == UnlinkOutcome::Unlinked,
                Err(f) => s.1 == UnlinkOutcome::Failed(f),
            })
        }),
{
    let ghost m = old(fs)@;
    let ghost d = old(fs).denied_of();
    let ghost p = nix_link.symlink@;
    let dir = hashed_dir(&nix_link.symlink);
    proof {
        let dir_s = state_dir(p);
        let slashed = dir_s.push(crate::bytes::SLASH);
        assert(tree_keys(dir_s).contains(dir_s));
        assert(tree_keys(dir_s).contains(manifest_path(dir_s))) by {
            assert(manifest_path(dir_s).subrange(0, slashed.len() as int) =~= slashed);
        }
        assert(tree_keys(dir_s).contains(copy_path(dir_s, p))) by {
            assert(copy_path(dir_s, p).subrange(0, slashed.len() as int) =~= slashed);
        }
    }
    if fs.contains(&dir) {
        match fs.remove_tree(&dir) {
            Err(()) => {
                return Err(UnlinkFailure::RemoveStale);
            },
            Ok(()) => {},
        }
    }
    match fs.put(&dir, FsNode::Dir) {
        Err(()) => {
            proof {
                assert(fs@ =~= m);
            }
            return Err(UnlinkFailure::CreateDir);
        },
        Ok(()) => {},
    }
    let enc = encode_manifest(nix_link);
    let mpath = manifest_file(&dir);
    match fs.put(&mpath, FsNode::File(enc)) {
        Err(()) => {
            match fs.remove_tree(&dir) {
                Ok(()) => {},
                Err(()) => {
                    proof {
                        assert(false);
                    }
                },
            }
            proof {
                assert(fs@ =~= m.remove_keys(tree_keys(state_dir(p))));
            }
            return Err(UnlinkFailure::WriteRecord);
        },
        Ok(()) => {},
    }
    let src = match fs.resolve(&nix_link.nix_store_file) {
        None => {
            match fs.remove_tree(&dir) {
                Ok(()) => {},
                Err(()) => {
                    proof {
                        assert(false);
                    }
                },
            }
            proof {
                assert(fs@ =~= m.remove_keys(tree_keys(state_dir(p))));
            }
            return Err(UnlinkFailure::MissingSource);
        },
        Some(s) => s,
    };
    let node = match fs.lookup(&src) {
        Some(n) => clone_node(n),
        None => {
            proof {
                assert(false);
            }
            FsNode::Dir
        },
    };
    let cpath = copy_file(&dir, &nix_link.symlink);
    match fs.put(&cpath, node) {
        Err(()) => {
            match fs.remove_tree(&dir) {
                Ok(()) => {},
                Err(()) => {
                    proof {
                        assert(false);
                    }
                },
            }
            proof {
                assert(fs@ =~= m.remove_keys(tree_keys(state_dir(p))));
            }
            return Err(UnlinkFailure::CopyContent);
        },
        Ok(()) => {},
    }
    match fs.put(&nix_link.symlink, FsNode::Symlink(copy_bytes(&cpath))) {
        Err(()) => {
            match fs.remove_tree(&dir) {
                Ok(()) => {},
                Err(()) => {
                    proof {
                        assert(false);
                    }
                },
            }
            proof {
                assert(fs@ =~= m.remove_keys(tree_keys(state_dir(p))));
            }
            return Err(UnlinkFailure::SwapLink);
        },
        Ok(()) => {},
    }
    proof {
        let s = unlink_link_spec(m, d, p, nix_link.nix_store_file@);
        assert(fs@ =~= s.0);
    }
    Ok(())
}

/// One whole unlink attempt on one candidate path.
pub fn unlink_one(fs: &mut FsModel, file: &Vec<u8>) -> (r: UnlinkOutcome)
    requires
        old(fs).wf(),
    ensures
        final(fs).wf(),
        final(fs).denied_of() == old(fs).denied_of(),
        ({
            let s = unlink_one_spec(old(fs)@, old(fs).denied_of(), file@);
            final(fs)@ == s.0 && r == s.1
        }),
{
    match read_nix_store_file(fs, file) {
        NixLinkRead::NotExisting => UnlinkOutcome::NotExisting,
        NixLinkRead::NotLink => UnlinkOutcome::NotLink,
        NixLinkRead::NotNix => UnlinkOutcome::NotNix,
        NixLinkRead::Managed(link) => match unlink_nix_link(fs, &link) {
            Ok(()) => UnlinkOutcome::Unlinked,
            Err(f) => UnlinkOutcome::Failed(f),
        },
    }
}

/// The views of a list of paths.
pub open spec fn path_views(ps: Seq<Vec<u8>>) -> Seq<Seq<u8>> {
    Seq::new(ps.len(), |i: int| ps[i]@)
}

/// A whole unlink batch: each candidate processed in order against the
/// filesystem the previous candidates left behind.
pub open spec fn unlink_fold(
    m: Map<Seq<u8>, NodeV>,
    d: Set<Seq<u8>>,
    ps: Seq<Seq<u8>>,
) -> (Map<Seq<u8>, NodeV>, Seq<UnlinkOutcome>)
    decreases ps.len(),
{
    if ps.len() == 0 {
        (m, Seq::empty())
    } else {
        let pre = unlink_fold(m, d, ps.drop_last());
        let step = unlink_one_spec(pre.0, d, ps.last());
        (step.0, pre.1.push(step.1))
    }
}

/// A batch reports one outcome for every candidate: no failure cuts the
/// batch short.
pub proof fn lemma_unlink_fold_len(m: Map<Seq<u8>, NodeV>, d: Set<Seq<u8>>, ps: Seq<Seq<u8>>)
    ensures
        unlink_fold(m, d, ps).1.len() == ps.len(),
    decreases ps.len(),
{
    if ps.len() > 0 {
        lemma_unlink_fold_len(m, d, ps.drop_last());
    }
}

/// Unlinks every candidate of a selection, each independently: the
/// result pairs every candidate path, in order, with its own outcome.
pub fn unlink(fs: &mut FsModel, files: &Selection) -> (r: Vec<(Vec<u8>, UnlinkOutcome)>)
    requires
        old(fs).wf(),
    ensures
        final(fs).wf(),
        final(fs).denied_of() == old(fs).denied_of(),
        r@.len() == files.paths@.len(),
        forall|j: int| 0 <= j < r@.len() ==> (#[trigger] r@[j]).0@ == files.paths@[j]@,
        ({
            let s = unlink_fold(old(fs)@, old(fs).denied_of(), path_views(files.paths@));
            final(fs)@ == s.0 && (forall|j: int|
                0 <= j < r@.len() ==> (#[trigger] r@[j]).1 == s.1[j])
        }),
{
    let ghost m = old(fs)@;
    let ghost d = old(fs).denied_of();
    let ghost ps = path_views(files.paths@);
    let mut out: Vec<(Vec<u8>, UnlinkOutcome)> = Vec::new();
    let mut i: usize = 0;
    while i < files.paths.len()
        invariant
            fs.wf(),
            fs.denied_of() == d,
            m == old(fs)@,
            d == old(fs).denied_of(),
            ps == path_views(files.paths@),
            0 <= i <= files.paths@.len(),
            out@.len() == i,
            forall|j: int| 0 <= j < i ==> (#[trigger] out@[j]).0@ == files.paths@[j]@,
            ({
                let s = unlink_fold(m, d, ps.subrange(0, i as int));
                fs@ == s.0 && (forall|j: int|
                    0 <= j < i ==> (#[trigger] out@[j]).1 == s.1[j])
            }),
        decreases files.paths@.len() - i,
    {
        let file = &files.paths[i];
        let o = unlink_one(fs, file);
        out.push((copy_bytes(file), o));
        proof {
            let sub1 = ps.subrange(0, i + 1);
            assert(sub1.drop_last() =~= ps.subrange(0, i as int));
            assert(sub1.last() == ps[i as int]);
            assert(ps[i as int] == files.paths@[i as int]@);
            lemma_unlink_fold_len(m, d, ps.subrange(0, i as int));
        }
        i += 1;
    }
    proof {
        assert(ps.subrange(0, ps.len() as int) =~= ps);
    }
    out
}

/// A candidate that does not classify as a managed store link leaves the
/// filesystem unmodified and is reported with its classification.
pub proof fn lemma_unlink_rejects_unmanaged(
    m: Map<Seq<u8>, NodeV>,
    d: Set<Seq<u8>>,
    p: Seq<u8>,
)
    requires
        !(classify_spec(m, p) is Managed),
    ensures
        unlink_one_spec(m, d, p).0 == m,
        classify_spec(m, p) is NotExisting ==> unlink_one_spec(m, d, p).1
            == UnlinkOutcome::NotExisting,
        classify_spec(m, p) is NotLink ==> unlink_one_spec(m, d, p).1 == UnlinkOutcome::NotLink,
        classify_spec(m, p) is NotNix ==> unlink_one_spec(m, d, p).1 == UnlinkOutcome::NotNix,
{
}

/// If the content-copy step fails on a managed link with no stale state
/// directory, the whole filesystem — the symlink and its store target
/// included — is exactly as before, and no state directory remains.
pub proof fn lemma_unlink_copy_failure_rolls_back(
    m: Map<Seq<u8>, NodeV>,
    d: Set<Seq<u8>>,
    p: Seq<u8>,
    t: Seq<u8>,
)
    requires
        m.contains_key(p),
        m[p] == NodeV::Symlink(t),
        is_prefix(store_root(), t),
        m.contains_key(t),
        !(m[t] is Symlink),
        forall|k: Seq<u8>| crate::bytes::in_tree(state_dir(p), k) ==> !(#[trigger] m.contains_key(
            k,
        )),
        !d.contains(state_dir(p)),
        !d.contains(manifest_path(state_dir(p))),
        d.contains(copy_path(state_dir(p), p)),
    ensures
        unlink_one_spec(m, d, p).0 == m,
        unlink_one_spec(m, d, p).1 == UnlinkOutcome::Failed(UnlinkFailure::CopyContent),
{
    let dir = state_dir(p);
    let mpath = manifest_path(dir);
    assert(classify_spec(m, p) == ClassV::Managed(t));
    assert(!m.contains_key(dir)) by {
        assert(crate::bytes::in_tree(dir, dir));
    }
    let m2 = m.insert(dir, NodeV::Dir).insert(mpath, NodeV::File(encode_spec(p, t)));
    assert(t != dir && t != mpath) by {
        assert(t[1] == store_root()[1]);
        assert(is_prefix(crate::tmp::scratch_root(), dir)) by {
            assert(dir.subrange(0, crate::tmp::scratch_root().len() as int)
                =~= crate::tmp::scratch_root());
        }
        if t == dir {
            assert(dir[1] == crate::tmp::scratch_root()[1]);
        }
        if t == mpath {
            assert(mpath[1] == dir.push(crate::bytes::SLASH)[1]);
            assert(dir[1] == crate::tmp::scratch_root()[1]);
        }
    }
    assert(m2.contains_key(t) && m2[t] == m[t]);
    assert(resolve_spec(m2, t) == Some(t));
    assert(unlink_one_spec(m, d, p).0 =~= m);
}

} // verus!
