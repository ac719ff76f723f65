use nix_tinker::bytes::{basename, bytes_eq, concat_bytes, starts_with};
use nix_tinker::tmp::{copy_file, hash, hashed_dir, manifest_file, store_dir, tmp_dir};

#[test]
fn tmp_dir_is_the_scratch_root() {
    assert_eq!(tmp_dir(), b"/tmp/nix-tinker/".to_vec());
}

#[test]
fn store_dir_is_the_store_root() {
    assert_eq!(store_dir(), b"/nix/store/".to_vec());
}

#[test]
fn hash_is_stable_across_calls() {
    let p = b"/etc/conf".to_vec();
    let q = b"/etc/conf".to_vec();
    assert_eq!(hash(&p), hash(&p));
    assert_eq!(hash(&p), hash(&q));
}

#[test]
fn hash_exact_value() {
    let p = b"/etc/conf".to_vec();
    assert_eq!(hash(&p), b"56ad981712b4129".to_vec());
}

#[test]
fn hash_distinguishes_paths() {
    let p = b"/etc/conf".to_vec();
    let q = b"/etc/a".to_vec();
    assert_eq!(hash(&q), b"3802ee1368a2ed34".to_vec());
    assert_ne!(hash(&p), hash(&q));
}

#[test]
fn hashed_dir_is_root_plus_hash() {
    let p = b"/etc/conf".to_vec();
    let expected = concat_bytes(&tmp_dir(), &hash(&p));
    assert_eq!(hashed_dir(&p), expected);
    assert_eq!(hashed_dir(&p), b"/tmp/nix-tinker/56ad981712b4129".to_vec());
}

#[test]
fn state_dir_layout() {
    let p = b"/etc/conf".to_vec();
    let dir = hashed_dir(&p);
    assert_eq!(
        manifest_file(&dir),
        b"/tmp/nix-tinker/56ad981712b4129/link.toml".to_vec()
    );
    assert_eq!(
        copy_file(&dir, &p),
        b"/tmp/nix-tinker/56ad981712b4129/conf".to_vec()
    );
}

#[test]
fn byte_helpers() {
    let a = b"/etc/conf".to_vec();
    let b = b"/etc".to_vec();
    assert!(bytes_eq(&a, &a));
    assert!(!bytes_eq(&a, &b));
    assert!(starts_with(&a, &b));
    assert!(!starts_with(&b, &a));
    assert_eq!(basename(&a), b"conf".to_vec());
    assert_eq!(basename(&b"conf".to_vec()), b"conf".to_vec());
    assert_eq!(basename(&b"/etc/".to_vec()), b"".to_vec());
}
