//! The persisted manifest of one managed link.
//!
//! A state directory holds a small text record of exactly two string
//! fields, `symlink` and `nix_store_file`, both absolute paths: the
//! link's own path and the store target it pointed at when it was
//! unlinked. The record is written once at unlink time and read back at
//! restore time; a record that does not parse is treated as corrupt by
//! the callers. Encoding and parsing are verified to round-trip for
//! every pair of paths.

use vstd::prelude::*;

verus! {

/// The `"` byte.
pub const QUOTE: u8 = 34;

/// The `\` byte.
pub const BACKSLASH: u8 = 92;

/// The newline byte.
pub const NEWLINE: u8 = 10;

/// One managed link: the symlink's absolute path and the absolute path
/// of its original store target.
pub struct NixLink {
    pub symlink: Vec<u8>,
    pub nix_store_file: Vec<u8>,
}

/// The record's opening text, `symlink = "`.
pub open spec fn sym_key() -> Seq<u8> {
    seq![115u8, 121u8, 109u8, 108u8, 105u8, 110u8, 107u8, 32u8, 61u8, 32u8, 34u8]
}

/// The text between the two fields, a newline and `nix_store_file = "`.
pub open spec fn mid_key() -> Seq<u8> {
    seq![10u8, 110u8, 105u8, 120u8, 95u8, 115u8, 116u8, 111u8, 114u8, 101u8, 95u8, 102u8, 105u8,
        108u8, 101u8, 32u8, 61u8, 32u8, 34u8]
}

/// The record's closing text, a single newline.
pub open spec fn end_key() -> Seq<u8> {
    seq![10u8]
}

/// How one content byte is written inside a quoted field.
pub open spec fn escape_byte(b: u8) -> Seq<u8> {
    if b == QUOTE || b == BACKSLASH {
        seq![BACKSLASH, b]
    } else {
        seq![b]
    }
}

/// How a whole field is written inside its quotes.
pub open spec fn escape(s: Seq<u8>) -> Seq<u8>
    decreases s.len(),
{
    if s.len() == 0 {
        Seq::empty()
    } else {
        escape(s.drop_last()) + escape_byte(s.last())
    }
}

/// The encoded record for the two paths.
pub open spec fn encode_spec(sym: Seq<u8>, store: Seq<u8>) -> Seq<u8> {
    sym_key() + escape(sym) + seq![QUOTE] + mid_key() + escape(store) + seq![QUOTE] + end_key()
}

/// Reads a quoted field: the decoded content and the rest of the input
/// after the closing quote, or `None` if no closing quote is found.
pub open spec fn scan_quoted(s: Seq<u8>) -> Option<(Seq<u8>, Seq<u8>)>
    decreases s.len(),
{
    if s.len() == 0 {
        None
    } else if s[0] == QUOTE {
        Some((Seq::empty(), s.skip(1)))
    } else if s[0] == BACKSLASH {
        if s.len() < 2 {
            None
        } else {
            match scan_quoted(s.skip(2)) {
                None => None,
                Some(cr) => Some((seq![s[1]] + cr.0, cr.1)),
            }
        }
    } else {
        match scan_quoted(s.skip(1)) {
            None => None,
            Some(cr) => Some((seq![s[0]] + cr.0, cr.1)),
        }
    }
}

/// What a record means: the two decoded paths, or `None` if the text is
/// not a well-formed record.
pub open spec fn parse_spec(s: Seq<u8>) -> Option<(Seq<u8>, Seq<u8>)> {
    if !crate::bytes::is_prefix(sym_key(), s) {
        None
    } else {
        match scan_quoted(s.skip(sym_key().len() as int)) {
            None => None,
            Some(c1) => if !crate::bytes::is_prefix(mid_key(), c1.1) {
                None
            } else {
                match scan_quoted(c1.1.skip(mid_key().len() as int)) {
                    None => None,
                    Some(c2) => if c2.1 == end_key() {
                        Some((c1.0, c2.0))
                    } else {
                        None
                    },
                }
            },
        }
    }
}

/// A nonempty field decomposes from the front as well.
proof fn lemma_escape_first(s: Seq<u8>)
    requires
        s.len() > 0,
    ensures
        escape(s) == escape_byte(s[0]) + escape(s.skip(1)),
    decreases s.len(),
{
    if s.len() == 1 {
        assert(s.drop_last() =~= Seq::<u8>::empty());
        assert(s.skip(1) =~= Seq::<u8>::empty());
        assert(escape(s) =~= escape_byte(s[0]) + escape(s.skip(1)));
    } else {
        lemma_escape_first(s.drop_last());
        assert(s.drop_last().skip(1) =~= s.skip(1).drop_last());
        assert(s.skip(1).last() == s.last());
        assert(s.drop_last()[0] == s[0]);
        assert((escape_byte(s[0]) + escape(s.skip(1).drop_last())) + escape_byte(s.last())
            =~= escape_byte(s[0]) + (escape(s.skip(1).drop_last()) + escape_byte(s.last())));
        assert(escape(s.skip(1)) == escape(s.skip(1).drop_last()) + escape_byte(s.skip(1).last()));
    }
}

/// Scanning an escaped field followed by its closing quote recovers the
/// field and leaves exactly what follows the quote.
proof fn lemma_scan_escape(x: Seq<u8>, rest: Seq<u8>)
    ensures
        scan_quoted(escape(x) + seq![QUOTE] + rest) == Some((x, rest)),
    decreases x.len(),
{
    let s = escape(x) + seq![QUOTE] + rest;
    if x.len() == 0 {
        assert(s =~= seq![QUOTE] + rest);
        assert(s[0] == QUOTE);
        assert(s.skip(1) =~= rest);
        assert(Seq::<u8>::empty() =~= x);
    } else {
        lemma_escape_first(x);
        let b = x[0];
        if b == QUOTE || b == BACKSLASH {
            assert(s[0] == BACKSLASH);
            assert(s[1] == b);
            assert(s.len() >= 2);
            assert(s.skip(2) =~= escape(x.skip(1)) + seq![QUOTE] + rest);
            lemma_scan_escape(x.skip(1), rest);
            assert(seq![b] + x.skip(1) =~= x);
        } else {
            assert(s[0] == b);
            assert(s.skip(1) =~= escape(x.skip(1)) + seq![QUOTE] + rest);
            lemma_scan_escape(x.skip(1), rest);
            assert(seq![b] + x.skip(1) =~= x);
        }
    }
}

/// Every record parses back to exactly the two paths it was written
/// from: the manifest loses nothing.
pub proof fn lemma_manifest_round_trip(sym: Seq<u8>, store: Seq<u8>)
    ensures
        parse_spec(encode_spec(sym, store)) == Some((sym, store)),
{
    let enc = encode_spec(sym, store);
    assert(enc.subrange(0, sym_key().len() as int) =~= sym_key());
    let rest1 = mid_key() + escape(store) + seq![QUOTE] + end_key();
    assert(enc.skip(sym_key().len() as int) =~= escape(sym) + seq![QUOTE] + rest1);
    lemma_scan_escape(sym, rest1);
    assert(rest1.subrange(0, mid_key().len() as int) =~= mid_key());
    assert(rest1.skip(mid_key().len() as int) =~= escape(store) + seq![QUOTE] + end_key());
    lemma_scan_escape(store, end_key());
}

fn sym_key_bytes() -> (r: Vec<u8>)
    ensures
        r@ == sym_key(),
{
    let mut r: Vec<u8> = Vec::new();
    r.push(115);
    r.push(121);
    r.push(109);
    r.push(108);
    r.push(105);
    r.push(110);
    r.push(107);
    r.push(32);
    r.push(61);
    r.push(32);
    r.push(34);
    proof {
        assert(r@ =~= sym_key());
    }
    r
}

fn mid_key_bytes() -> (r: Vec<u8>)
    ensures
        r@ == mid_key(),
{
    let mut r: Vec<u8> = Vec::new();
    r.push(10);
    r.push(110);
    r.push(105);
    r.push(120);
    r.push(95);
    r.push(115);
    r.push(116);
    r.push(111);
    r.push(114);
    r.push(101);
    r.push(95);
    r.push(102);
    r.push(105);
    r.push(108);
    r.push(101);
    r.push(32);
    r.push(61);
    r.push(32);
    r.push(34);
    proof {
        assert(r@ =~= mid_key());
    }
    r
}

fn escape_push(s: &Vec<u8>, out: &mut Vec<u8>)
    ensures
        final(out)@ == old(out)@ + escape(s@),
{
    let ghost orig: Seq<u8> = out@;
    let mut i: usize = 0;
    while i < s.len()
        invariant
            0 <= i <= s.len(),
            out@ == orig + escape(s@.subrange(0, i as int)),
        decreases s.len() - i,
    {
        let b = s[i];
        if b == QUOTE || b == BACKSLASH {
            out.push(BACKSLASH);
            out.push(b);
        } else {
            out.push(b);
        }
        proof {
            assert(s@.subrange(0, i + 1).drop_last() =~= s@.subrange(0, i as int));
            assert(s@.subrange(0, i + 1).last() == s@[i as int]);
            assert((orig + escape(s@.subrange(0, i as int))) + escape_byte(s@[i as int])
                =~= orig + escape(s@.subrange(0, i + 1)));
        }
        i += 1;
    }
    proof {
        assert(s@.subrange(0, s@.len() as int) =~= s@);
        assert(orig + escape(s@.subrange(0, 0)) =~= orig);
    }
}

/// Writes the record for one link.
pub fn encode_manifest(link: &NixLink) -> (r: Vec<u8>)
    ensures
        r@ == encode_spec(link.symlink@, link.nix_store_file@),
{
    let mut out = sym_key_bytes();
    escape_push(&link.symlink, &mut out);
    out.push(QUOTE);
    let mid = mid_key_bytes();
    let mut j: usize = 0;
    while j < mid.len()
        invariant
            mid@ == mid_key(),
            0 <= j <= mid.len(),
            out@ == sym_key() + escape(link.symlink@) + seq![QUOTE]
                + mid_key().subrange(0, j as int),
        decreases mid.len() - j,
    {
        out.push(mid[j]);
        proof {
            assert((sym_key() + escape(link.symlink@) + seq![QUOTE]
                + mid_key().subrange(0, j as int)).push(mid_key()[j as int])
                =~= sym_key() + escape(link.symlink@) + seq![QUOTE]
                    + mid_key().subrange(0, j + 1));
        }
        j += 1;
    }
    proof {
        assert(mid_key().subrange(0, mid_key().len() as int) =~= mid_key());
        assert((sym_key() + escape(link.symlink@)).push(QUOTE)
            =~= sym_key() + escape(link.symlink@) + seq![QUOTE]);
        assert(sym_key() + escape(link.symlink@) + seq![QUOTE] + mid_key().subrange(0, 0)
            =~= sym_key() + escape(link.symlink@) + seq![QUOTE]);
    }
    escape_push(&link.nix_store_file, &mut out);
    out.push(QUOTE);
    out.push(NEWLINE);
    proof {
        assert(out@ =~= encode_spec(link.symlink@, link.nix_store_file@));
    }
    out
}

/// Does `s`, read from position `i`, start with `pre`?
fn starts_with_at(s: &Vec<u8>, i: usize, pre: &Vec<u8>) -> (r: bool)
    requires
        i <= s.len(),
    ensures
        r == crate::bytes::is_prefix(pre@, s@.skip(i as int)),
{
    if pre.len() > s.len() - i {
        return false;
    }
    let mut j: usize = 0;
    while j < pre.len()
        invariant
            i <= s.len(),
            pre.len() <= s.len() - i,
            0 <= j <= pre.len(),
            forall|t: int| 0 <= t < j ==> s@[i + t] == pre@[t],
        decreases pre.len() - j,
    {
        if s[i + j] != pre[j] {
            proof {
                assert(s@.skip(i as int)[j as int] == s@[i + j]);
                assert(s@.skip(i as int).subrange(0, pre@.len() as int)[j as int] != pre@[j as int]);
            }
            return false;
        }
        j += 1;
    }
    proof {
        assert(s@.skip(i as int).subrange(0, pre@.len() as int) =~= pre@);
    }
    true
}

fn scan_quoted_from(s: &Vec<u8>, i: usize, out: &mut Vec<u8>) -> (r: Option<usize>)
    requires
        i <= s.len(),
    ensures
        match r {
            None => scan_quoted(s@.skip(i as int)) is None,
            Some(j) => {
                &&& i < j <= s.len()
                &&& final(out)@.len() >= old(out)@.len()
                &&& final(out)@.subrange(0, old(out)@.len() as int) == old(out)@
                &&& scan_quoted(s@.skip(i as int)) == Some((
                    final(out)@.skip(old(out)@.len() as int),
                    s@.skip(j as int),
                ))
            },
        },
    decreases s.len() - i,
{
    if i == s.len() {
        return None;
    }
    let b = s[i];
    proof {
        assert(s@.skip(i as int)[0] == s@[i as int]);
    }
    if b == QUOTE {
        proof {
            assert(s@.skip(i as int).skip(1) =~= s@.skip(i + 1));
            assert(out@.skip(out@.len() as int) =~= Seq::<u8>::empty());
            assert(out@.subrange(0, out@.len() as int) =~= out@);
        }
        return Some(i + 1);
    }
    if b == BACKSLASH {
        if i + 1 == s.len() {
            proof {
                assert(s@.skip(i as int).len() < 2);
            }
            return None;
        }
        let ghost orig: Seq<u8> = out@;
        out.push(s[i + 1]);
        let rec = scan_quoted_from(s, i + 2, out);
        proof {
            assert(s@.skip(i as int).skip(2) =~= s@.skip(i + 2));
        }
        match rec {
            None => None,
            Some(j) => {
                proof {
                    let mid = orig.push(s@[i + 1]);
                    let c_in = out@.skip(mid.len() as int);
                    assert(out@.subrange(0, mid.len() as int) == mid);
                    assert forall|k: int| 0 <= k < mid.len() implies out@[k] == mid[k] by {
                        assert(out@.subrange(0, mid.len() as int)[k] == out@[k]);
                    }
                    assert(out@.subrange(0, orig.len() as int) =~= orig);
                    assert(out@.len() >= mid.len());
                    assert(out@.skip(orig.len() as int).len() == (seq![s@[i + 1]] + c_in).len());
                    assert(mid.len() == orig.len() + 1);
                    assert(mid[orig.len() as int] == s@[i + 1]);
                    assert(out@[orig.len() as int] == mid[orig.len() as int]);
                    assert(out@[orig.len() as int] == s@[i + 1]);
                    assert(out@.skip(orig.len() as int)
                        =~= seq![s@[i + 1]] + c_in);
                }
                Some(j)
            },
        }
    } else {
        let ghost orig: Seq<u8> = out@;
        out.push(b);
        let rec = scan_quoted_from(s, i + 1, out);
        proof {
            assert(s@.skip(i as int).skip(1) =~= s@.skip(i + 1));
        }
        match rec {
            None => None,
            Some(j) => {
                proof {
                    let mid = orig.push(s@[i as int]);
                    let c_in = out@.skip(mid.len() as int);
                    assert(out@.subrange(0, mid.len() as int) == mid);
                    assert forall|k: int| 0 <= k < mid.len() implies out@[k] == mid[k] by {
                        assert(out@.subrange(0, mid.len() as int)[k] == out@[k]);
                    }
                    assert(out@.subrange(0, orig.len() as int) =~= orig);
                    assert(mid.len() == orig.len() + 1);
                    assert(mid[orig.len() as int] == s@[i as int]);
                    assert(out@[orig.len() as int] == mid[orig.len() as int]);
                    assert(out@.skip(orig.len() as int)
                        =~= seq![s@[i as int]] + c_in);
                }
                Some(j)
            },
        }
    }
}

/// Reads a record back into a link, or `None` if the text is not a
/// well-formed record.
pub fn parse_manifest(bytes: &Vec<u8>) -> (r: Option<NixLink>)
    ensures
        match r {
            None => parse_spec(bytes@) is None,
            Some(l) => parse_spec(bytes@) == Some((l.symlink@, l.nix_store_file@)),
        },
{
    let skey = sym_key_bytes();
    if !starts_with_at(bytes, 0, &skey) {
        proof {
            assert(bytes@.skip(0) =~= bytes@);
        }
        return None;
    }
    proof {
        assert(bytes@.skip(0) =~= bytes@);
    }
    let mut sym: Vec<u8> = Vec::new();
    let j1 = match scan_quoted_from(bytes, skey.len(), &mut sym) {
        None => {
            return None;
        },
        Some(j) => j,
    };
    proof {
        assert(sym@.skip(0) =~= sym@);
    }
    let mkey = mid_key_bytes();
    if !starts_with_at(bytes, j1, &mkey) {
        return None;
    }
    proof {
        assert(mid_key().len() <= bytes@.skip(j1 as int).len());
    }
    let mut store: Vec<u8> = Vec::new();
    let j2 = match scan_quoted_from(bytes, j1 + mkey.len(), &mut store) {
        None => {
            proof {
                assert(bytes@.skip(j1 as int).skip(mid_key().len() as int)
                    =~= bytes@.skip(j1 + mid_key().len() as int));
            }
            return None;
        },
        Some(j) => j,
    };
    proof {
        assert(store@.skip(0) =~= store@);
        assert(bytes@.skip(j1 as int).skip(mid_key().len() as int)
            =~= bytes@.skip(j1 + mid_key().len() as int));
    }
    if j2 == bytes.len() - 1 && bytes[j2] == NEWLINE {
        proof {
            assert(bytes@.skip(j2 as int)[0] == bytes@[j2 as int]);
            assert(bytes@.skip(j2 as int) =~= end_key());
        }
        Some(NixLink { symlink: sym, nix_store_file: store })
    } else {
        proof {
            if bytes@.skip(j2 as int) == end_key() {
                assert(bytes@.skip(j2 as int).len() == 1);
                assert(bytes@[j2 as int] == bytes@.skip(j2 as int)[0]);
            }
        }
        None
    }
}

} // verus!
