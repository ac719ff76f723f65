use nix_tinker::fs_model::{FsModel, FsNode};
use nix_tinker::manifest::{encode_manifest, NixLink};
use nix_tinker::restore::{restore, restore_all, restore_one, Link, RestoreError};
use nix_tinker::selection::Selection;
use nix_tinker::tmp::{copy_file, hashed_dir, manifest_file};
use nix_tinker::unlink::{unlink, unlink_one, UnlinkFailure, UnlinkOutcome};

fn store_linked(fs: &mut FsModel, sym: &[u8], target: &[u8], content: &[u8]) {
    fs.put(&target.to_vec(), FsNode::File(content.to_vec())).unwrap();
    fs.put(&sym.to_vec(), FsNode::Symlink(target.to_vec())).unwrap();
}

fn link_target(fs: &FsModel, p: &[u8]) -> Vec<u8> {
    match fs.lookup(&p.to_vec()) {
        Some(FsNode::Symlink(t)) => t.clone(),
        _ => panic!("expected a symlink"),
    }
}

#[test]
fn round_trip_restores_the_store_target() {
    let mut fs = FsModel::new();
    let sym = b"/etc/conf".to_vec();
    let target = b"/nix/store/abc-pkg/conf".to_vec();
    store_linked(&mut fs, &sym, &target, b"settings");

    assert_eq!(unlink_one(&mut fs, &sym), UnlinkOutcome::Unlinked);

    let dir = hashed_dir(&sym);
    let copy = copy_file(&dir, &sym);
    assert_eq!(link_target(&fs, &sym), copy);
    assert!(fs.contains(&dir));
    match fs.lookup(&manifest_file(&dir)) {
        Some(FsNode::File(c)) => {
            let expected = encode_manifest(&NixLink {
                symlink: sym.clone(),
                nix_store_file: target.clone(),
            });
            assert_eq!(c, &expected);
        },
        _ => panic!("expected the manifest file"),
    }
    match fs.lookup(&copy) {
        Some(FsNode::File(c)) => assert_eq!(c, &b"settings".to_vec()),
        _ => panic!("expected the private copy"),
    }

    assert_eq!(restore_one(&mut fs, &sym), Ok(()));
    assert_eq!(link_target(&fs, &sym), target);
    assert!(!fs.contains(&dir));
    assert!(!fs.contains(&manifest_file(&dir)));
    assert!(!fs.contains(&copy));
}

#[test]
fn unlink_rejects_non_managed_paths() {
    let mut fs = FsModel::new();
    fs.put(&b"/etc/plain".to_vec(), FsNode::File(b"data".to_vec())).unwrap();
    fs.put(&b"/opt/thing".to_vec(), FsNode::File(b"x".to_vec())).unwrap();
    fs.put(&b"/etc/other".to_vec(), FsNode::Symlink(b"/opt/thing".to_vec())).unwrap();

    assert_eq!(unlink_one(&mut fs, &b"/etc/plain".to_vec()), UnlinkOutcome::NotLink);
    assert_eq!(unlink_one(&mut fs, &b"/etc/other".to_vec()), UnlinkOutcome::NotNix);
    assert_eq!(unlink_one(&mut fs, &b"/etc/missing".to_vec()), UnlinkOutcome::NotExisting);

    // nothing was touched
    match fs.lookup(&b"/etc/plain".to_vec()) {
        Some(FsNode::File(c)) => assert_eq!(c, &b"data".to_vec()),
        _ => panic!("plain file modified"),
    }
    assert_eq!(link_target(&fs, b"/etc/other"), b"/opt/thing".to_vec());
    assert!(!fs.contains(&hashed_dir(&b"/etc/plain".to_vec())));
    assert!(!fs.contains(&hashed_dir(&b"/etc/other".to_vec())));
    assert!(!fs.contains(&hashed_dir(&b"/etc/missing".to_vec())));
}

#[test]
fn dangling_symlink_counts_as_not_existing() {
    let mut fs = FsModel::new();
    fs.put(&b"/etc/dangling".to_vec(), FsNode::Symlink(b"/nix/store/gone".to_vec())).unwrap();
    assert_eq!(unlink_one(&mut fs, &b"/etc/dangling".to_vec()), UnlinkOutcome::NotExisting);
}

#[test]
fn restore_without_unlink_is_rejected() {
    let mut fs = FsModel::new();
    let sym = b"/etc/conf".to_vec();
    store_linked(&mut fs, &sym, b"/nix/store/abc-pkg/conf", b"c");

    assert_eq!(restore_one(&mut fs, &sym), Err(RestoreError::NotTinker));
    assert_eq!(link_target(&fs, &sym), b"/nix/store/abc-pkg/conf".to_vec());

    fs.put(&b"/etc/plain".to_vec(), FsNode::File(b"d".to_vec())).unwrap();
    assert_eq!(restore_one(&mut fs, &b"/etc/plain".to_vec()), Err(RestoreError::NotLink));
    assert_eq!(restore_one(&mut fs, &b"/etc/missing".to_vec()), Err(RestoreError::NotExisting));
}

#[test]
fn copy_failure_rolls_back_and_keeps_the_link() {
    let mut fs = FsModel::new();
    let sym = b"/etc/conf".to_vec();
    let target = b"/nix/store/abc-pkg/conf".to_vec();
    store_linked(&mut fs, &sym, &target, b"settings");

    let dir = hashed_dir(&sym);
    fs.deny(copy_file(&dir, &sym));

    assert_eq!(
        unlink_one(&mut fs, &sym),
        UnlinkOutcome::Failed(UnlinkFailure::CopyContent)
    );
    // the original symlink still points at the store target
    assert_eq!(link_target(&fs, &sym), target);
    // and no state directory remains
    assert!(!fs.contains(&dir));
    assert!(!fs.contains(&manifest_file(&dir)));
}

#[test]
fn unlink_failure_kinds() {
    // the state directory itself cannot be written
    let mut fs = FsModel::new();
    let sym = b"/etc/conf".to_vec();
    store_linked(&mut fs, &sym, b"/nix/store/abc-pkg/conf", b"s");
    let dir = hashed_dir(&sym);
    fs.deny(dir.clone());
    assert_eq!(
        unlink_one(&mut fs, &sym),
        UnlinkOutcome::Failed(UnlinkFailure::CreateDir)
    );

    // a stale state directory of the same key cannot be removed
    let mut fs = FsModel::new();
    store_linked(&mut fs, &sym, b"/nix/store/abc-pkg/conf", b"s");
    fs.put(&dir, FsNode::Dir).unwrap();
    fs.deny(dir.clone());
    assert_eq!(
        unlink_one(&mut fs, &sym),
        UnlinkOutcome::Failed(UnlinkFailure::RemoveStale)
    );

    // the manifest cannot be written
    let mut fs = FsModel::new();
    store_linked(&mut fs, &sym, b"/nix/store/abc-pkg/conf", b"s");
    fs.deny(manifest_file(&dir));
    assert_eq!(
        unlink_one(&mut fs, &sym),
        UnlinkOutcome::Failed(UnlinkFailure::WriteRecord)
    );
    assert!(!fs.contains(&dir));

    // the store target is itself a link to nothing readable
    let mut fs = FsModel::new();
    fs.put(&b"/nix/store/alias".to_vec(), FsNode::Symlink(b"/nix/store/gone".to_vec()))
        .unwrap();
    fs.put(&sym, FsNode::Symlink(b"/nix/store/alias".to_vec())).unwrap();
    assert_eq!(
        unlink_one(&mut fs, &sym),
        UnlinkOutcome::Failed(UnlinkFailure::MissingSource)
    );

    // the symlink itself cannot be replaced
    let mut fs = FsModel::new();
    store_linked(&mut fs, &sym, b"/nix/store/abc-pkg/conf", b"s");
    fs.deny(sym.clone());
    assert_eq!(
        unlink_one(&mut fs, &sym),
        UnlinkOutcome::Failed(UnlinkFailure::SwapLink)
    );
    assert!(!fs.contains(&dir));
}

#[test]
fn restore_failure_kinds() {
    // corrupt manifest
    let mut fs = FsModel::new();
    let sym = b"/etc/conf".to_vec();
    let target = b"/nix/store/abc-pkg/conf".to_vec();
    store_linked(&mut fs, &sym, &target, b"s");
    assert_eq!(unlink_one(&mut fs, &sym), UnlinkOutcome::Unlinked);
    let dir = hashed_dir(&sym);
    fs.put(&manifest_file(&dir), FsNode::File(b"garbage".to_vec())).unwrap();
    assert_eq!(restore_one(&mut fs, &sym), Err(RestoreError::CorruptRecord));

    // manifest recording a different path
    let mut fs = FsModel::new();
    store_linked(&mut fs, &sym, &target, b"s");
    assert_eq!(unlink_one(&mut fs, &sym), UnlinkOutcome::Unlinked);
    let other = encode_manifest(&NixLink {
        symlink: b"/etc/other".to_vec(),
        nix_store_file: target.clone(),
    });
    fs.put(&manifest_file(&dir), FsNode::File(other)).unwrap();
    assert_eq!(restore_one(&mut fs, &sym), Err(RestoreError::CorruptRecord));

    // the swap is denied: state directory is preserved for a retry
    let mut fs = FsModel::new();
    store_linked(&mut fs, &sym, &target, b"s");
    assert_eq!(unlink_one(&mut fs, &sym), UnlinkOutcome::Unlinked);
    fs.deny(sym.clone());
    assert_eq!(restore_one(&mut fs, &sym), Err(RestoreError::SwapLink));
    assert!(fs.contains(&dir));

    // the state directory cannot be removed: the link is already back
    let mut fs = FsModel::new();
    store_linked(&mut fs, &sym, &target, b"s");
    assert_eq!(unlink_one(&mut fs, &sym), UnlinkOutcome::Unlinked);
    fs.deny(dir.clone());
    assert_eq!(restore_one(&mut fs, &sym), Err(RestoreError::RemoveState));
    assert_eq!(link_target(&fs, &sym), target);
    assert!(fs.contains(&dir));
}

#[test]
fn batch_of_five_with_invalid_third() {
    let mut fs = FsModel::new();
    let paths: Vec<Vec<u8>> = vec![
        b"/etc/a".to_vec(),
        b"/etc/b".to_vec(),
        b"/etc/missing".to_vec(),
        b"/etc/d".to_vec(),
        b"/etc/e".to_vec(),
    ];
    for name in [&b"/etc/a"[..], b"/etc/b", b"/etc/d", b"/etc/e"] {
        let mut target = b"/nix/store/pkg".to_vec();
        target.extend_from_slice(name);
        store_linked(&mut fs, name, &target, b"x");
    }

    let out = unlink(&mut fs, &Selection::new(paths.clone(), false));
    assert_eq!(out.len(), 5);
    for (j, (p, o)) in out.iter().enumerate() {
        assert_eq!(p, &paths[j]);
        if j == 2 {
            assert_eq!(*o, UnlinkOutcome::NotExisting);
        } else {
            assert_eq!(*o, UnlinkOutcome::Unlinked);
        }
    }

    // the four valid ones really moved
    for name in [&b"/etc/a"[..], b"/etc/b", b"/etc/d", b"/etc/e"] {
        let dir = hashed_dir(&name.to_vec());
        assert!(fs.contains(&dir));
    }

    // restoring the same selection yields five outcomes again
    let back = restore(&mut fs, &Selection::new(paths.clone(), false));
    assert_eq!(back.len(), 5);
    assert_eq!(back[2].1, Err(RestoreError::NotExisting));
    for j in [0usize, 1, 3, 4] {
        assert_eq!(back[j].1, Ok(()));
    }
}

#[test]
fn restore_all_restores_every_tracked_link() {
    let mut fs = FsModel::new();
    let a = b"/etc/a".to_vec();
    let b = b"/etc/b".to_vec();
    store_linked(&mut fs, &a, b"/nix/store/pkg/a", b"x");
    store_linked(&mut fs, &b, b"/nix/store/pkg/b", b"y");
    assert_eq!(unlink_one(&mut fs, &a), UnlinkOutcome::Unlinked);
    assert_eq!(unlink_one(&mut fs, &b), UnlinkOutcome::Unlinked);

    let mut out = restore_all(&mut fs);
    out.sort();
    assert_eq!(out.len(), 2);
    assert_eq!(out[0], (a.clone(), Ok(())));
    assert_eq!(out[1], (b.clone(), Ok(())));
    assert_eq!(link_target(&fs, &a), b"/nix/store/pkg/a".to_vec());
    assert_eq!(link_target(&fs, &b), b"/nix/store/pkg/b".to_vec());
    assert!(!fs.contains(&hashed_dir(&a)));
    assert!(!fs.contains(&hashed_dir(&b)));
}

#[test]
fn restore_all_purges_orphans_silently() {
    let mut fs = FsModel::new();

    // a healthy unlinked link
    let good = b"/etc/good".to_vec();
    store_linked(&mut fs, &good, b"/nix/store/pkg/good", b"x");
    assert_eq!(unlink_one(&mut fs, &good), UnlinkOutcome::Unlinked);

    // a state directory whose recorded symlink points elsewhere
    let orphan = b"/etc/orphan".to_vec();
    let odir = hashed_dir(&orphan);
    fs.put(&b"/nix/store/pkg/o".to_vec(), FsNode::File(b"o".to_vec())).unwrap();
    fs.put(&orphan, FsNode::Symlink(b"/nix/store/pkg/o".to_vec())).unwrap();
    fs.put(&odir, FsNode::Dir).unwrap();
    let rec = encode_manifest(&NixLink {
        symlink: orphan.clone(),
        nix_store_file: b"/nix/store/pkg/o".to_vec(),
    });
    fs.put(&manifest_file(&odir), FsNode::File(rec)).unwrap();

    let out = restore_all(&mut fs);
    // the orphan is neither a success nor a failure: it is not reported
    assert_eq!(out.len(), 1);
    assert_eq!(out[0], (good.clone(), Ok(())));
    // but its state directory is gone
    assert!(!fs.contains(&odir));
    assert!(!fs.contains(&manifest_file(&odir)));
    // and the foreign symlink it recorded is untouched
    assert_eq!(link_target(&fs, &orphan), b"/nix/store/pkg/o".to_vec());
}

#[test]
fn restore_all_purges_unreadable_records() {
    let mut fs = FsModel::new();
    let dir = {
        let mut d = b"/tmp/nix-tinker/".to_vec();
        d.extend_from_slice(b"deadbeef");
        d
    };
    fs.put(&dir, FsNode::Dir).unwrap();
    fs.put(&manifest_file(&dir), FsNode::File(b"not a record".to_vec())).unwrap();

    let out = restore_all(&mut fs);
    assert_eq!(out.len(), 0);
    assert!(!fs.contains(&dir));
}

#[test]
fn reunlink_replaces_a_stale_state_directory() {
    let mut fs = FsModel::new();
    let sym = b"/etc/conf".to_vec();
    let target = b"/nix/store/abc-pkg/conf".to_vec();
    store_linked(&mut fs, &sym, &target, b"v1");
    let dir = hashed_dir(&sym);

    // leave a stale directory of the same key behind
    fs.put(&dir, FsNode::Dir).unwrap();
    fs.put(&manifest_file(&dir), FsNode::File(b"old".to_vec())).unwrap();

    assert_eq!(unlink_one(&mut fs, &sym), UnlinkOutcome::Unlinked);
    match fs.lookup(&manifest_file(&dir)) {
        Some(FsNode::File(c)) => assert_ne!(c, &b"old".to_vec()),
        _ => panic!("expected a fresh manifest"),
    }
    assert_eq!(restore_one(&mut fs, &sym), Ok(()));
    assert_eq!(link_target(&fs, &sym), target);
}

#[test]
fn round_trip_with_awkward_path_bytes() {
    // a path needing escaping inside the manifest survives the full cycle
    let mut fs = FsModel::new();
    let sym = b"/etc/we\"ird\\conf".to_vec();
    let target = b"/nix/store/abc-pkg/conf".to_vec();
    store_linked(&mut fs, &sym, &target, b"x");
    assert_eq!(unlink_one(&mut fs, &sym), UnlinkOutcome::Unlinked);
    assert_eq!(restore_one(&mut fs, &sym), Ok(()));
    assert_eq!(link_target(&fs, &sym), target);
    assert!(!fs.contains(&hashed_dir(&sym)));
}

#[test]
fn distinct_paths_use_distinct_state_directories() {
    let mut fs = FsModel::new();
    let a = b"/etc/a".to_vec();
    let b = b"/etc/b".to_vec();
    store_linked(&mut fs, &a, b"/nix/store/pkg/a", b"x");
    store_linked(&mut fs, &b, b"/nix/store/pkg/b", b"y");
    assert_ne!(hashed_dir(&a), hashed_dir(&b));
    assert_eq!(unlink_one(&mut fs, &a), UnlinkOutcome::Unlinked);
    assert_eq!(unlink_one(&mut fs, &b), UnlinkOutcome::Unlinked);
    // restoring one leaves the other untouched
    assert_eq!(restore_one(&mut fs, &a), Ok(()));
    assert!(fs.contains(&hashed_dir(&b)));
    assert_eq!(restore_one(&mut fs, &b), Ok(()));
    assert!(!fs.contains(&hashed_dir(&b)));
}

#[test]
fn link_from_pairs_record_and_directory() {
    let rec = NixLink {
        symlink: b"/etc/conf".to_vec(),
        nix_store_file: b"/nix/store/abc".to_vec(),
    };
    let l = Link::from(rec, b"/tmp/nix-tinker/xyz".to_vec());
    assert_eq!(l.symlink, b"/etc/conf".to_vec());
    assert_eq!(l.tmpdir, b"/tmp/nix-tinker/xyz".to_vec());
    assert_eq!(l.nix_store_file, b"/nix/store/abc".to_vec());
}

#[test]
fn selection_holds_its_paths() {
    let sel = Selection::new(vec![b"/etc/a".to_vec()], true);
    assert_eq!(sel.paths, vec![b"/etc/a".to_vec()]);
    assert!(sel.recursive);
}
