use nix_tinker::manifest::{encode_manifest, parse_manifest, NixLink};

#[test]
fn encode_exact_text() {
    let link = NixLink {
        symlink: b"/etc/conf".to_vec(),
        nix_store_file: b"/nix/store/abc".to_vec(),
    };
    let enc = encode_manifest(&link);
    assert_eq!(
        enc,
        b"symlink = \"/etc/conf\"\nnix_store_file = \"/nix/store/abc\"\n".to_vec()
    );
}

#[test]
fn round_trip_plain() {
    let link = NixLink {
        symlink: b"/etc/conf".to_vec(),
        nix_store_file: b"/nix/store/abc-pkg/bin/tool".to_vec(),
    };
    let enc = encode_manifest(&link);
    let back = parse_manifest(&enc).unwrap();
    assert_eq!(back.symlink, link.symlink);
    assert_eq!(back.nix_store_file, link.nix_store_file);
}

#[test]
fn round_trip_with_quotes_and_backslashes() {
    let link = NixLink {
        symlink: b"/etc/we\"ird\\name".to_vec(),
        nix_store_file: b"/nix/store/x\\y\"z".to_vec(),
    };
    let enc = encode_manifest(&link);
    let back = parse_manifest(&enc).unwrap();
    assert_eq!(back.symlink, link.symlink);
    assert_eq!(back.nix_store_file, link.nix_store_file);
}

#[test]
fn parse_rejects_garbage() {
    assert!(parse_manifest(&b"nonsense".to_vec()).is_none());
    assert!(parse_manifest(&b"".to_vec()).is_none());
    assert!(parse_manifest(&b"symlink = \"/etc/conf\"\n".to_vec()).is_none());
    // unterminated field
    assert!(parse_manifest(&b"symlink = \"/etc/conf".to_vec()).is_none());
    // trailing bytes after the record
    assert!(parse_manifest(
        &b"symlink = \"/a\"\nnix_store_file = \"/nix/store/b\"\nmore".to_vec()
    )
    .is_none());
}
