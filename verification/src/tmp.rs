//! Stable addressing of per-link state directories.
//!
//! Every managed symlink is assigned a state directory under a single
//! well-known scratch root. The directory name is a hex-printed hash of
//! the link's absolute path: a pure function of the path bytes, so the
//! same path maps to the same directory on every run.

use vstd::prelude::*;

verus! {

/// Seed of the path hash.
pub const KEY_SEED: u64 = 14695981039346656037;

/// Multiplier of the path hash.
pub const KEY_PRIME: u64 = 1099511628211;

/// One step of the path hash: fold the next byte into the state.
pub open spec fn key_step(h: u64, b: u8) -> u64 {
    h.wrapping_mul(KEY_PRIME).wrapping_add(b as u64)
}

/// The key of a path: a 64-bit hash, a pure function of the path bytes.
pub open spec fn key_of(s: Seq<u8>) -> u64
    decreases s.len(),
{
    if s.len() == 0 {
        KEY_SEED
    } else {
        key_step(key_of(s.drop_last()), s.last())
    }
}

/// The byte printing the hex digit `d`.
pub open spec fn hex_digit(d: u64) -> u8 {
    if d < 10 {
        (48 + d) as u8
    } else {
        (87 + d) as u8
    }
}

/// Lowercase hex rendering of `n`, most significant digit first,
/// without leading zeros.
pub open spec fn hex_of(n: u64) -> Seq<u8>
    decreases n,
{
    if n < 16 {
        seq![hex_digit(n)]
    } else {
        hex_of(n / 16).push(hex_digit(n % 16))
    }
}

/// The scratch root, `/tmp/nix-tinker/`: the directory under which all
/// per-link state directories live.
pub open spec fn scratch_root() -> Seq<u8> {
    seq![47u8, 116u8, 109u8, 112u8, 47u8, 110u8, 105u8, 120u8, 45u8, 116u8, 105u8, 110u8, 107u8,
        101u8, 114u8, 47u8]
}

/// The store root, `/nix/store/`: the prefix a managed link's target
/// must carry.
pub open spec fn store_root() -> Seq<u8> {
    seq![47u8, 110u8, 105u8, 120u8, 47u8, 115u8, 116u8, 111u8, 114u8, 101u8, 47u8]
}

/// The state directory assigned to the absolute path `p`.
pub open spec fn state_dir(p: Seq<u8>) -> Seq<u8> {
    scratch_root() + hex_of(key_of(p))
}

fn hex_digit_byte(d: u64) -> (r: u8)
    requires
        d < 16,
    ensures
        r == hex_digit(d),
{
    if d < 10 {
        (48 + d) as u8
    } else {
        (87 + d) as u8
    }
}

fn push_hex(n: u64, out: &mut Vec<u8>)
    ensures
        final(out)@ == old(out)@ + hex_of(n),
    decreases n,
{
    if n < 16 {
        out.push(hex_digit_byte(n));
        proof {
            assert(old(out)@.push(hex_digit(n)) =~= old(out)@ + hex_of(n));
        }
    } else {
        push_hex(n / 16, out);
        out.push(hex_digit_byte(n % 16));
        proof {
            assert((old(out)@ + hex_of(n / 16)).push(hex_digit(n % 16))
                =~= old(out)@ + hex_of(n));
        }
    }
}

/// Hashes a path: the hex-printed key of its bytes.
pub fn hash(path: &Vec<u8>) -> (r: Vec<u8>)
    ensures
        r@ == hex_of(key_of(path@)),
{
    let mut h: u64 = KEY_SEED;
    let mut i: usize = 0;
    while i < path.len()
        invariant
            0 <= i <= path.len(),
            h == key_of(path@.subrange(0, i as int)),
        decreases path.len() - i,
    {
        proof {
            assert(path@.subrange(0, i + 1).drop_last() =~= path@.subrange(0, i as int));
            assert(path@.subrange(0, i + 1).last() == path@[i as int]);
        }
        h = h.wrapping_mul(KEY_PRIME).wrapping_add(path[i] as u64);
        i += 1;
    }
    proof {
        assert(path@.subrange(0, path@.len() as int) =~= path@);
    }
    let mut out: Vec<u8> = Vec::new();
    push_hex(h, &mut out);
    proof {
        assert(Seq::<u8>::empty() + hex_of(h) =~= hex_of(h));
    }
    out
}

/// The key of a path depends on its bytes alone: equal paths always
/// yield equal keys, across calls and across runs.
pub proof fn lemma_key_stable(p1: Seq<u8>, p2: Seq<u8>)
    requires
        p1 == p2,
    ensures
        key_of(p1) == key_of(p2),
        state_dir(p1) == state_dir(p2),
{
}

/// The scratch root directory path; the directory need not exist.
pub fn tmp_dir() -> (r: Vec<u8>)
    ensures
        r@ == scratch_root(),
{
    let mut r: Vec<u8> = Vec::new();
    r.push(47);
    r.push(116);
    r.push(109);
    r.push(112);
    r.push(47);
    r.push(110);
    r.push(105);
    r.push(120);
    r.push(45);
    r.push(116);
    r.push(105);
    r.push(110);
    r.push(107);
    r.push(101);
    r.push(114);
    r.push(47);
    proof {
        assert(r@ =~= scratch_root());
    }
    r
}

/// The store root path prefix.
pub fn store_dir() -> (r: Vec<u8>)
    ensures
        r@ == store_root(),
{
    let mut r: Vec<u8> = Vec::new();
    r.push(47);
    r.push(110);
    r.push(105);
    r.push(120);
    r.push(47);
    r.push(115);
    r.push(116);
    r.push(111);
    r.push(114);
    r.push(101);
    r.push(47);
    proof {
        assert(r@ =~= store_root());
    }
    r
}

/// The state directory assigned to `path`: the scratch root joined with
/// the hash of the path.
pub fn hashed_dir(path: &Vec<u8>) -> (r: Vec<u8>)
    ensures
        r@ == state_dir(path@),
{
    let h = hash(path);
    let root = tmp_dir();
    crate::bytes::concat_bytes(&root, &h)
}

/// The manifest's file name inside a state directory, `link.toml`.
pub open spec fn manifest_label() -> Seq<u8> {
    seq![108u8, 105u8, 110u8, 107u8, 46u8, 116u8, 111u8, 109u8, 108u8]
}

/// The manifest file's path inside the state directory `dir`.
pub open spec fn manifest_path(dir: Seq<u8>) -> Seq<u8> {
    dir.push(crate::bytes::SLASH) + manifest_label()
}

/// The private copy's path inside the state directory `dir`: the copy is
/// named after the symlink's final path component.
pub open spec fn copy_path(dir: Seq<u8>, p: Seq<u8>) -> Seq<u8> {
    dir.push(crate::bytes::SLASH) + crate::bytes::base_name(p)
}

/// The manifest file's path for the state directory `dir`.
pub fn manifest_file(dir: &Vec<u8>) -> (r: Vec<u8>)
    ensures
        r@ == manifest_path(dir@),
{
    let pre = crate::bytes::dir_prefix(dir);
    let mut label: Vec<u8> = Vec::new();
    label.push(108);
    label.push(105);
    label.push(110);
    label.push(107);
    label.push(46);
    label.push(116);
    label.push(111);
    label.push(109);
    label.push(108);
    proof {
        assert(label@ =~= manifest_label());
    }
    crate::bytes::concat_bytes(&pre, &label)
}

/// The private copy's path for the state directory `dir` and link `p`.
pub fn copy_file(dir: &Vec<u8>, p: &Vec<u8>) -> (r: Vec<u8>)
    ensures
        r@ == copy_path(dir@, p@),
{
    let pre = crate::bytes::dir_prefix(dir);
    let base = crate::bytes::basename(p);
    crate::bytes::concat_bytes(&pre, &base)
}

} // verus!
