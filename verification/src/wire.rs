//! The wire codec: length-prefixed framing of serialized version-log tails.
//!
//! A frame is an 8-byte unsigned big-endian length followed by exactly that
//! many payload bytes. The payload is a self-describing record encoding of
//! an ordered list of `(version, delta)` pairs: every integer is 8 bytes
//! big-endian, every string is its byte length followed by its UTF-8 bytes,
//! and every list is its element count followed by its elements in order.
//!
//! Decoding an accumulating buffer yields `Incomplete` while the header or
//! the declared payload is still short, the decoded value (consuming its
//! bytes, leaving any trailing partial frame intact) when a whole frame is
//! buffered, and `Malformed` when the payload does not parse back exactly.

use vstd::prelude::*;

use vstd::utf8::{
    decode_utf8, encode_utf8, encode_utf8_decode_utf8, encode_utf8_valid_utf8, valid_utf8,
};

use crate::data::{cats_view, entries_view, pair_view, CatV, Entry, EntryV, Tree, TreeV};
use crate::log::{vds_view, VersionedDelta, VersionedDeltaV};

verus! {

// ----------------------------------------------------------------------
// Unsigned 64-bit integers, 8 bytes big-endian.
// ----------------------------------------------------------------------

/// The 8-byte big-endian encoding of `v`.
pub open spec fn enc_u64(v: u64) -> Seq<u8> {
    seq![
        ((v >> 56) & 0xff) as u8,
        ((v >> 48) & 0xff) as u8,
        ((v >> 40) & 0xff) as u8,
        ((v >> 32) & 0xff) as u8,
        ((v >> 24) & 0xff) as u8,
        ((v >> 16) & 0xff) as u8,
        ((v >> 8) & 0xff) as u8,
        (v & 0xff) as u8,
    ]
}

/// The value of 8 big-endian bytes.
pub open spec fn u64_of(b: Seq<u8>) -> u64
    recommends
        b.len() == 8,
{
    ((b[0] as u64) << 56) | ((b[1] as u64) << 48) | ((b[2] as u64) << 40) | ((b[3] as u64) << 32)
        | ((b[4] as u64) << 24) | ((b[5] as u64) << 16) | ((b[6] as u64) << 8) | (b[7] as u64)
}

pub proof fn lemma_u64_round_trip(v: u64)
    ensures
        u64_of(enc_u64(v)) == v,
{
    let b = enc_u64(v);
    assert(b.len() == 8);
    assert((((((v >> 56) & 0xff) as u8) as u64) << 56) | (((((v >> 48) & 0xff) as u8) as u64)
        << 48) | (((((v >> 40) & 0xff) as u8) as u64) << 40) | (((((v >> 32) & 0xff) as u8) as u64)
        << 32) | (((((v >> 24) & 0xff) as u8) as u64) << 24) | (((((v >> 16) & 0xff) as u8) as u64)
        << 16) | (((((v >> 8) & 0xff) as u8) as u64) << 8) | (((v & 0xff) as u8) as u64) == v)
        by (bit_vector);
}

/// Decoding an integer at position `p`: 8 bytes must be available.
pub open spec fn dec_u64(b: Seq<u8>, p: int) -> Option<(u64, int)> {
    if 0 <= p && p + 8 <= b.len() {
        Some((u64_of(b.subrange(p, p + 8)), p + 8))
    } else {
        None
    }
}

/// Decoding reads back exactly what the encoder wrote, wherever the
/// encoding sits in a larger buffer.
pub proof fn lemma_dec_u64(b: Seq<u8>, p: int, v: u64)
    requires
        0 <= p,
        p + 8 <= b.len(),
        b.subrange(p, p + 8) == enc_u64(v),
    ensures
        dec_u64(b, p) == Some((v, p + 8)),
{
    lemma_u64_round_trip(v);
}

/// Appends the 8-byte big-endian encoding of `v`.
fn push_u64(out: &mut Vec<u8>, v: u64)
    ensures
        final(out)@ == old(out)@ + enc_u64(v),
{
    proof {
        assert(((v >> 56) & 0xff) < 256 && ((v >> 48) & 0xff) < 256 && ((v >> 40) & 0xff) < 256 && (
        (v >> 32) & 0xff) < 256 && ((v >> 24) & 0xff) < 256 && ((v >> 16) & 0xff) < 256 && ((v >> 8)
            & 0xff) < 256 && (v & 0xff) < 256) by (bit_vector);
    }
    out.push(((v >> 56) & 0xff) as u8);
    out.push(((v >> 48) & 0xff) as u8);
    out.push(((v >> 40) & 0xff) as u8);
    out.push(((v >> 32) & 0xff) as u8);
    out.push(((v >> 24) & 0xff) as u8);
    out.push(((v >> 16) & 0xff) as u8);
    out.push(((v >> 8) & 0xff) as u8);
    out.push((v & 0xff) as u8);
    proof {
        assert(final(out)@ =~= old(out)@ + enc_u64(v));
    }
}

/// Reads an integer at position `p`, mirroring [`dec_u64`].
fn read_u64(b: &[u8], p: usize) -> (r: Option<(u64, usize)>)
    requires
        p <= b@.len(),
    ensures
        match r {
            Some((v, q)) => dec_u64(b@, p as int) == Some((v, q as int)) && p < q <= b@.len(),
            None => dec_u64(b@, p as int) is None,
        },
{
    if b.len() - p < 8 {
        return None;
    }
    let v = ((b[p] as u64) << 56) | ((b[p + 1] as u64) << 48) | ((b[p + 2] as u64) << 40) | ((b[p
        + 3] as u64) << 32) | ((b[p + 4] as u64) << 24) | ((b[p + 5] as u64) << 16) | ((b[p
        + 6] as u64) << 8) | (b[p + 7] as u64);
    proof {
        let s = b@.subrange(p as int, p + 8);
        assert(s[0] == b@[p as int] && s[1] == b@[p + 1] && s[2] == b@[p + 2] && s[3] == b@[p + 3]
            && s[4] == b@[p + 4] && s[5] == b@[p + 5] && s[6] == b@[p + 6] && s[7] == b@[p + 7]);
    }
    Some((v, p + 8))
}

// ----------------------------------------------------------------------
// Strings: byte length, then UTF-8 bytes.
// ----------------------------------------------------------------------

/// A buffer region that holds a concatenation holds each part in turn.
proof fn lemma_split_prefix(b: Seq<u8>, p: int, x: Seq<u8>, y: Seq<u8>)
    requires
        0 <= p,
        p + x.len() + y.len() <= b.len(),
        b.subrange(p, p + x.len() + y.len()) == x + y,
    ensures
        b.subrange(p, p + x.len() as int) == x,
        b.subrange(p + x.len() as int, p + x.len() + y.len()) == y,
{
    let lx = x.len() as int;
    let ly = y.len() as int;
    assert forall|k: int| 0 <= k < lx implies b.subrange(p, p + lx)[k] == x[k] by {
        assert(b.subrange(p, p + lx + ly)[k] == b[p + k]);
        assert((x + y)[k] == x[k]);
    }
    assert(b.subrange(p, p + lx) =~= x);
    assert forall|k: int| 0 <= k < ly implies b.subrange(p + lx, p + lx + ly)[k] == y[k] by {
        assert(b.subrange(p, p + lx + ly)[lx + k] == b[p + lx + k]);
        assert((x + y)[lx + k] == y[k]);
    }
    assert(b.subrange(p + lx, p + lx + ly) =~= y);
}

/// Whether a string's UTF-8 form fits the wire's 64-bit length field. Every
/// string held in memory does.
pub open spec fn str_ok(s: Seq<char>) -> bool {
    encode_utf8(s).len() <= u64::MAX
}

/// The encoding of a string: its UTF-8 byte length, then its UTF-8 bytes.
pub open spec fn enc_str(s: Seq<char>) -> Seq<u8> {
    enc_u64(encode_utf8(s).len() as u64) + encode_utf8(s)
}

/// Decoding a string at position `p`: a malformed byte sequence under the
/// declared length fails, a short buffer fails.
pub open spec fn dec_str(b: Seq<u8>, p: int) -> Option<(Seq<char>, int)> {
    match dec_u64(b, p) {
        None => None,
        Some((n, p1)) => {
            if p1 + n <= b.len() {
                let bytes = b.subrange(p1, p1 + n);
                if valid_utf8(bytes) {
                    Some((decode_utf8(bytes), p1 + n))
                } else {
                    None
                }
            } else {
                None
            }
        },
    }
}

pub proof fn lemma_dec_str(b: Seq<u8>, p: int, s: Seq<char>)
    requires
        0 <= p,
        str_ok(s),
        p + enc_str(s).len() <= b.len(),
        b.subrange(p, p + enc_str(s).len()) == enc_str(s),
    ensures
        dec_str(b, p) == Some((s, p + enc_str(s).len())),
{
    let u = encode_utf8(s);
    let n = u.len() as u64;
    assert(n == u.len());
    lemma_split_prefix(b, p, enc_u64(n), u);
    lemma_dec_u64(b, p, n);
    assert(p + 8 + n <= b.len());
    encode_utf8_valid_utf8(s);
    encode_utf8_decode_utf8(s);
}

/// Relies on `String::from_utf8`: returns `Ok` exactly when the bytes are
/// valid UTF-8, and then the string consists of the characters they encode.
#[verifier::external_body]
fn bytes_to_string(bytes: Vec<u8>) -> (r: Option<String>)
    ensures
        r is Some <==> valid_utf8(bytes@),
        match r {
            Some(s) => s@ == decode_utf8(bytes@),
            None => true,
        },
{
    String::from_utf8(bytes).ok()
}

/// Appends a byte slice verbatim.
pub(crate) fn push_bytes(out: &mut Vec<u8>, bytes: &[u8])
    ensures
        final(out)@ == old(out)@ + bytes@,
{
    let mut i: usize = 0;
    while i < bytes.len()
        invariant
            i <= bytes@.len(),
            out@ == old(out)@ + bytes@.subrange(0, i as int),
        decreases bytes@.len() - i,
    {
        out.push(bytes[i]);
        proof {
            assert(out@ =~= old(out)@ + bytes@.subrange(0, i + 1));
        }
        i = i + 1;
    }
    proof {
        assert(out@ =~= old(out)@ + bytes@);
    }
}

/// Appends the encoding of one string.
fn push_str(out: &mut Vec<u8>, s: &String)
    ensures
        final(out)@ == old(out)@ + enc_str(s@),
        str_ok(s@),
{
    let bytes: &[u8] = s.as_str().as_bytes();
    let n = bytes.len() as u64;
    proof {
        assert(bytes@ == encode_utf8(s@));
        assert(n == encode_utf8(s@).len());
    }
    push_u64(out, n);
    push_bytes(out, bytes);
    proof {
        assert(final(out)@ =~= old(out)@ + enc_str(s@));
    }
}

/// Reads a string at position `p`, mirroring [`dec_str`].
fn read_str(b: &[u8], p: usize) -> (r: Option<(String, usize)>)
    requires
        p <= b@.len(),
    ensures
        match r {
            Some((s, q)) => dec_str(b@, p as int) == Some((s@, q as int)) && p < q <= b@.len(),
            None => dec_str(b@, p as int) is None,
        },
{
    let (n, p1) = match read_u64(b, p) {
        None => {
            return None;
        },
        Some(x) => x,
    };
    if n > (b.len() - p1) as u64 {
        return None;
    }
    let m = n as usize;
    let sl = vstd::slice::slice_subrange(b, p1, p1 + m);
    let bytes = vstd::slice::slice_to_vec(sl);
    match bytes_to_string(bytes) {
        None => None,
        Some(s) => Some((s, p1 + m)),
    }
}

// ----------------------------------------------------------------------
// Entries: name, then url.
// ----------------------------------------------------------------------

pub open spec fn entry_ok(e: EntryV) -> bool {
    str_ok(e.name) && str_ok(e.url)
}

/// The encoding of one entry: its name, then its url.
pub open spec fn enc_entry(e: EntryV) -> Seq<u8> {
    enc_str(e.name) + enc_str(e.url)
}

pub open spec fn dec_entry(b: Seq<u8>, p: int) -> Option<(EntryV, int)> {
    match dec_str(b, p) {
        None => None,
        Some((name, p1)) => match dec_str(b, p1) {
            None => None,
            Some((url, p2)) => Some((EntryV { name, url }, p2)),
        },
    }
}

pub proof fn lemma_dec_entry(b: Seq<u8>, p: int, e: EntryV)
    requires
        0 <= p,
        entry_ok(e),
        p + enc_entry(e).len() <= b.len(),
        b.subrange(p, p + enc_entry(e).len()) == enc_entry(e),
    ensures
        dec_entry(b, p) == Some((e, p + enc_entry(e).len())),
{
    let l1 = enc_str(e.name).len() as int;
    lemma_split_prefix(b, p, enc_str(e.name), enc_str(e.url));
    lemma_dec_str(b, p, e.name);
    lemma_dec_str(b, p + l1, e.url);
}

/// Appends the encoding of one entry.
fn push_entry(out: &mut Vec<u8>, e: &Entry)
    ensures
        final(out)@ == old(out)@ + enc_entry(e@),
        entry_ok(e@),
{
    push_str(out, &e.name);
    push_str(out, &e.url);
    proof {
        assert(final(out)@ =~= old(out)@ + enc_entry(e@));
    }
}

/// Reads an entry at position `p`, mirroring [`dec_entry`].
fn read_entry(b: &[u8], p: usize) -> (r: Option<(Entry, usize)>)
    requires
        p <= b@.len(),
    ensures
        match r {
            Some((e, q)) => dec_entry(b@, p as int) == Some((e@, q as int)) && p < q <= b@.len(),
            None => dec_entry(b@, p as int) is None,
        },
{
    let (name, p1) = match read_str(b, p) {
        None => {
            return None;
        },
        Some(x) => x,
    };
    let (url, p2) = match read_str(b, p1) {
        None => {
            return None;
        },
        Some(x) => x,
    };
    Some((Entry { name, url }, p2))
}

// ----------------------------------------------------------------------
// Entry lists: element count, then the elements in order.
// ----------------------------------------------------------------------

/// The concatenated encodings of a list's elements.
pub open spec fn enc_entry_list(es: Seq<EntryV>) -> Seq<u8>
    decreases es.len(),
{
    if es.len() == 0 {
        Seq::empty()
    } else {
        enc_entry(es[0]) + enc_entry_list(es.drop_first())
    }
}

pub open spec fn entries_ok(es: Seq<EntryV>) -> bool {
    &&& es.len() <= u64::MAX
    &&& forall|i: int| 0 <= i < es.len() ==> entry_ok(#[trigger] es[i])
}

/// The encoding of an entry list: its count, then its elements.
pub open spec fn enc_entries(es: Seq<EntryV>) -> Seq<u8> {
    enc_u64(es.len() as u64) + enc_entry_list(es)
}

pub open spec fn dec_entry_list(b: Seq<u8>, p: int, n: nat) -> Option<(Seq<EntryV>, int)>
    decreases n,
{
    if n == 0 {
        Some((Seq::empty(), p))
    } else {
        match dec_entry(b, p) {
            None => None,
            Some((e, p1)) => match dec_entry_list(b, p1, (n - 1) as nat) {
                None => None,
                Some((es, p2)) => Some((seq![e] + es, p2)),
            },
        }
    }
}

pub open spec fn dec_entries(b: Seq<u8>, p: int) -> Option<(Seq<EntryV>, int)> {
    match dec_u64(b, p) {
        None => None,
        Some((n, p1)) => dec_entry_list(b, p1, n as nat),
    }
}

/// Appending an element to a list appends its encoding to the list's.
pub proof fn lemma_enc_entry_list_snoc(es: Seq<EntryV>, e: EntryV)
    ensures
        enc_entry_list(es.push(e)) == enc_entry_list(es) + enc_entry(e),
    decreases es.len(),
{
    if es.len() == 0 {
        assert(es.push(e).drop_first() =~= Seq::<EntryV>::empty());
        assert(es.push(e)[0] == e);
        assert(enc_entry(e) + enc_entry_list(Seq::<EntryV>::empty()) =~= enc_entry_list(es)
            + enc_entry(e));
    } else {
        lemma_enc_entry_list_snoc(es.drop_first(), e);
        assert(es.push(e).drop_first() =~= es.drop_first().push(e));
        assert(es.push(e)[0] == es[0]);
        assert(enc_entry(es[0]) + (enc_entry_list(es.drop_first()) + enc_entry(e)) =~= (enc_entry(
            es[0],
        ) + enc_entry_list(es.drop_first())) + enc_entry(e));
    }
}

pub proof fn lemma_dec_entry_list(b: Seq<u8>, p: int, es: Seq<EntryV>)
    requires
        0 <= p,
        forall|i: int| 0 <= i < es.len() ==> entry_ok(#[trigger] es[i]),
        p + enc_entry_list(es).len() <= b.len(),
        b.subrange(p, p + enc_entry_list(es).len()) == enc_entry_list(es),
    ensures
        dec_entry_list(b, p, es.len() as nat) == Some((es, p + enc_entry_list(es).len())),
    decreases es.len(),
{
    if es.len() == 0 {
        assert(es =~= Seq::<EntryV>::empty());
    } else {
        let e = es[0];
        let l0 = enc_entry(e).len() as int;
        let rest = es.drop_first();
        assert(enc_entry_list(es) == enc_entry(e) + enc_entry_list(rest));
        lemma_split_prefix(b, p, enc_entry(e), enc_entry_list(rest));
        lemma_dec_entry(b, p, e);
        assert forall|i: int| 0 <= i < rest.len() implies entry_ok(#[trigger] rest[i]) by {
            assert(rest[i] == es[i + 1]);
        }
        lemma_dec_entry_list(b, p + l0, rest);
        assert(seq![e] + rest =~= es);
    }
}

pub proof fn lemma_dec_entries(b: Seq<u8>, p: int, es: Seq<EntryV>)
    requires
        0 <= p,
        entries_ok(es),
        p + enc_entries(es).len() <= b.len(),
        b.subrange(p, p + enc_entries(es).len()) == enc_entries(es),
    ensures
        dec_entries(b, p) == Some((es, p + enc_entries(es).len())),
{
    let n = es.len() as u64;
    lemma_split_prefix(b, p, enc_u64(n), enc_entry_list(es));
    lemma_dec_u64(b, p, n);
    lemma_dec_entry_list(b, p + 8, es);
}

/// Appends the encoding of an entry list.
fn push_entries(out: &mut Vec<u8>, es: &Vec<Entry>)
    ensures
        final(out)@ == old(out)@ + enc_entries(entries_view(es@)),
        entries_ok(entries_view(es@)),
{
    push_u64(out, es.len() as u64);
    let ghost base = out@;
    let mut i: usize = 0;
    while i < es.len()
        invariant
            i <= es@.len(),
            out@ == base + enc_entry_list(entries_view(es@.subrange(0, i as int))),
            forall|k: int| 0 <= k < i ==> entry_ok(#[trigger] entries_view(es@)[k]),
        decreases es@.len() - i,
    {
        let ghost sofar = entries_view(es@.subrange(0, i as int));
        push_entry(out, &es[i]);
        proof {
            lemma_enc_entry_list_snoc(sofar, es@[i as int]@);
            assert(sofar.push(es@[i as int]@) =~= entries_view(es@.subrange(0, i + 1)));
            assert(out@ =~= base + enc_entry_list(entries_view(es@.subrange(0, i + 1))));
            assert(entries_view(es@)[i as int] == es@[i as int]@);
        }
        i = i + 1;
    }
    proof {
        assert(es@.subrange(0, es@.len() as int) =~= es@);
        assert(final(out)@ =~= old(out)@ + enc_entries(entries_view(es@)));
    }
}

/// Reads an entry list at position `p`, mirroring [`dec_entries`].
fn read_entries(b: &[u8], p: usize) -> (r: Option<(Vec<Entry>, usize)>)
    requires
        p <= b@.len(),
    ensures
        match r {
            Some((es, q)) => dec_entries(b@, p as int) == Some((entries_view(es@), q as int)) && q
                <= b@.len(),
            None => dec_entries(b@, p as int) is None,
        },
{
    let (n, p1) = match read_u64(b, p) {
        None => {
            return None;
        },
        Some(x) => x,
    };
    let mut acc: Vec<Entry> = Vec::new();
    let mut pos: usize = p1;
    let mut i: u64 = 0;
    proof {
        assert(entries_view(acc@) =~= Seq::<EntryV>::empty());
    }
    while i < n
        invariant
            i <= n,
            pos <= b@.len(),
            dec_entries(b@, p as int) == dec_entry_list(b@, p1 as int, n as nat),
            dec_entry_list(b@, p1 as int, n as nat) == (match dec_entry_list(
                b@,
                pos as int,
                (n - i) as nat,
            ) {
                None => None::<(Seq<EntryV>, int)>,
                Some((es, q)) => Some((entries_view(acc@) + es, q)),
            }),
        decreases n - i,
    {
        let ghost acc0 = entries_view(acc@);
        match read_entry(b, pos) {
            None => {
                proof {
                    assert(dec_entry_list(b@, pos as int, (n - i) as nat) is None);
                }
                return None;
            },
            Some((e, q)) => {
                proof {
                    let o = dec_entry_list(b@, q as int, (n - i - 1) as nat);
                    assert(dec_entry_list(b@, pos as int, (n - i) as nat) == (match o {
                        None => None::<(Seq<EntryV>, int)>,
                        Some((es, p2)) => Some((seq![e@] + es, p2)),
                    }));
                    if o is Some {
                        let (es2, _q2) = o->0;
                        assert(acc0 + (seq![e@] + es2) =~= acc0.push(e@) + es2);
                    }
                }
                acc.push(e);
                proof {
                    assert(entries_view(acc@) =~= acc0.push(e@));
                }
                pos = q;
                i = i + 1;
            },
        }
    }
    proof {
        assert(dec_entry_list(b@, pos as int, 0) == Some((Seq::<EntryV>::empty(), pos as int)));
        assert(entries_view(acc@) + Seq::<EntryV>::empty() =~= entries_view(acc@));
    }
    Some((acc, pos))
}

// ----------------------------------------------------------------------
// Categories and trees: name, then entries; count, then categories.
// ----------------------------------------------------------------------

pub open spec fn cat_ok(c: CatV) -> bool {
    str_ok(c.0) && entries_ok(c.1)
}

/// The encoding of one category: its name, then its entry list.
pub open spec fn enc_cat(c: CatV) -> Seq<u8> {
    enc_str(c.0) + enc_entries(c.1)
}

pub open spec fn dec_cat(b: Seq<u8>, p: int) -> Option<(CatV, int)> {
    match dec_str(b, p) {
        None => None,
        Some((name, p1)) => match dec_entries(b, p1) {
            None => None,
            Some((es, p2)) => Some(((name, es), p2)),
        },
    }
}

pub proof fn lemma_dec_cat(b: Seq<u8>, p: int, c: CatV)
    requires
        0 <= p,
        cat_ok(c),
        p + enc_cat(c).len() <= b.len(),
        b.subrange(p, p + enc_cat(c).len()) == enc_cat(c),
    ensures
        dec_cat(b, p) == Some((c, p + enc_cat(c).len())),
{
    let l1 = enc_str(c.0).len() as int;
    lemma_split_prefix(b, p, enc_str(c.0), enc_entries(c.1));
    lemma_dec_str(b, p, c.0);
    lemma_dec_entries(b, p + l1, c.1);
}

/// The concatenated encodings of a tree's categories.
pub open spec fn enc_cat_list(t: TreeV) -> Seq<u8>
    decreases t.len(),
{
    if t.len() == 0 {
        Seq::empty()
    } else {
        enc_cat(t[0]) + enc_cat_list(t.drop_first())
    }
}

pub open spec fn tree_ok(t: TreeV) -> bool {
    &&& t.len() <= u64::MAX
    &&& forall|i: int| 0 <= i < t.len() ==> cat_ok(#[trigger] t[i])
}

/// The encoding of a whole tree (or delta): its category count, then its
/// categories.
pub open spec fn enc_tree(t: TreeV) -> Seq<u8> {
    enc_u64(t.len() as u64) + enc_cat_list(t)
}

pub open spec fn dec_cat_list(b: Seq<u8>, p: int, n: nat) -> Option<(TreeV, int)>
    decreases n,
{
    if n == 0 {
        Some((Seq::empty(), p))
    } else {
        match dec_cat(b, p) {
            None => None,
            Some((c, p1)) => match dec_cat_list(b, p1, (n - 1) as nat) {
                None => None,
                Some((cs, p2)) => Some((seq![c] + cs, p2)),
            },
        }
    }
}

pub open spec fn dec_tree(b: Seq<u8>, p: int) -> Option<(TreeV, int)> {
    match dec_u64(b, p) {
        None => None,
        Some((n, p1)) => dec_cat_list(b, p1, n as nat),
    }
}

pub proof fn lemma_enc_cat_list_snoc(t: TreeV, c: CatV)
    ensures
        enc_cat_list(t.push(c)) == enc_cat_list(t) + enc_cat(c),
    decreases t.len(),
{
    if t.len() == 0 {
        assert(t.push(c).drop_first() =~= Seq::<CatV>::empty());
        assert(t.push(c)[0] == c);
        assert(enc_cat(c) + enc_cat_list(Seq::<CatV>::empty()) =~= enc_cat_list(t) + enc_cat(c));
    } else {
        lemma_enc_cat_list_snoc(t.drop_first(), c);
        assert(t.push(c).drop_first() =~= t.drop_first().push(c));
        assert(t.push(c)[0] == t[0]);
        assert(enc_cat(t[0]) + (enc_cat_list(t.drop_first()) + enc_cat(c)) =~= (enc_cat(t[0])
            + enc_cat_list(t.drop_first())) + enc_cat(c));
    }
}

pub proof fn lemma_dec_cat_list(b: Seq<u8>, p: int, t: TreeV)
    requires
        0 <= p,
        forall|i: int| 0 <= i < t.len() ==> cat_ok(#[trigger] t[i]),
        p + enc_cat_list(t).len() <= b.len(),
        b.subrange(p, p + enc_cat_list(t).len()) == enc_cat_list(t),
    ensures
        dec_cat_list(b, p, t.len() as nat) == Some((t, p + enc_cat_list(t).len())),
    decreases t.len(),
{
    if t.len() == 0 {
        assert(t =~= Seq::<CatV>::empty());
    } else {
        let c = t[0];
        let l0 = enc_cat(c).len() as int;
        let rest = t.drop_first();
        assert(enc_cat_list(t) == enc_cat(c) + enc_cat_list(rest));
        lemma_split_prefix(b, p, enc_cat(c), enc_cat_list(rest));
        lemma_dec_cat(b, p, c);
        assert forall|i: int| 0 <= i < rest.len() implies cat_ok(#[trigger] rest[i]) by {
            assert(rest[i] == t[i + 1]);
        }
        lemma_dec_cat_list(b, p + l0, rest);
        assert(seq![c] + rest =~= t);
    }
}

pub proof fn lemma_dec_tree(b: Seq<u8>, p: int, t: TreeV)
    requires
        0 <= p,
        tree_ok(t),
        p + enc_tree(t).len() <= b.len(),
        b.subrange(p, p + enc_tree(t).len()) == enc_tree(t),
    ensures
        dec_tree(b, p) == Some((t, p + enc_tree(t).len())),
{
    let n = t.len() as u64;
    lemma_split_prefix(b, p, enc_u64(n), enc_cat_list(t));
    lemma_dec_u64(b, p, n);
    lemma_dec_cat_list(b, p + 8, t);
}

/// Appends the encoding of one category pair.
fn push_cat(out: &mut Vec<u8>, c: &(String, Vec<Entry>))
    ensures
        final(out)@ == old(out)@ + enc_cat(pair_view(*c)),
        cat_ok(pair_view(*c)),
{
    push_str(out, &c.0);
    push_entries(out, &c.1);
    proof {
        assert(final(out)@ =~= old(out)@ + enc_cat(pair_view(*c)));
    }
}

/// Reads one category pair at position `p`, mirroring [`dec_cat`].
fn read_cat(b: &[u8], p: usize) -> (r: Option<((String, Vec<Entry>), usize)>)
    requires
        p <= b@.len(),
    ensures
        match r {
            Some((c, q)) => dec_cat(b@, p as int) == Some((pair_view(c), q as int)) && q
                <= b@.len(),
            None => dec_cat(b@, p as int) is None,
        },
{
    let (name, p1) = match read_str(b, p) {
        None => {
            return None;
        },
        Some(x) => x,
    };
    let (es, p2) = match read_entries(b, p1) {
        None => {
            return None;
        },
        Some(x) => x,
    };
    Some(((name, es), p2))
}

/// Appends the encoding of a whole tree.
fn push_tree(out: &mut Vec<u8>, t: &Tree)
    ensures
        final(out)@ == old(out)@ + enc_tree(t@),
        tree_ok(t@),
{
    push_u64(out, t.cats.len() as u64);
    let ghost base = out@;
    let mut i: usize = 0;
    while i < t.cats.len()
        invariant
            i <= t.cats@.len(),
            t@.len() == t.cats@.len(),
            out@ == base + enc_cat_list(t@.subrange(0, i as int)),
            forall|k: int| 0 <= k < i ==> cat_ok(#[trigger] t@[k]),
        decreases t.cats@.len() - i,
    {
        let ghost sofar = t@.subrange(0, i as int);
        push_cat(out, &t.cats[i]);
        proof {
            lemma_enc_cat_list_snoc(sofar, t@[i as int]);
            assert(pair_view(t.cats@[i as int]) == t@[i as int]);
            assert(sofar.push(t@[i as int]) =~= t@.subrange(0, i + 1));
            assert(out@ =~= base + enc_cat_list(t@.subrange(0, i + 1)));
        }
        i = i + 1;
    }
    proof {
        assert(t@.subrange(0, t@.len() as int) =~= t@);
        assert(final(out)@ =~= old(out)@ + enc_tree(t@));
    }
}

/// Reads a whole tree at position `p`, mirroring [`dec_tree`].
fn read_tree(b: &[u8], p: usize) -> (r: Option<(Tree, usize)>)
    requires
        p <= b@.len(),
    ensures
        match r {
            Some((t, q)) => dec_tree(b@, p as int) == Some((t@, q as int)) && q <= b@.len(),
            None => dec_tree(b@, p as int) is None,
        },
{
    let (n, p1) = match read_u64(b, p) {
        None => {
            return None;
        },
        Some(x) => x,
    };
    let mut acc: Vec<(String, Vec<Entry>)> = Vec::new();
    let mut pos: usize = p1;
    let mut i: u64 = 0;
    proof {
        assert(cats_view(acc@) =~= Seq::<CatV>::empty());
    }
    while i < n
        invariant
            i <= n,
            pos <= b@.len(),
            dec_tree(b@, p as int) == dec_cat_list(b@, p1 as int, n as nat),
            dec_cat_list(b@, p1 as int, n as nat) == (match dec_cat_list(
                b@,
                pos as int,
                (n - i) as nat,
            ) {
                None => None::<(TreeV, int)>,
                Some((cs, q)) => Some((cats_view(acc@) + cs, q)),
            }),
        decreases n - i,
    {
        let ghost acc0 = cats_view(acc@);
        match read_cat(b, pos) {
            None => {
                proof {
                    assert(dec_cat_list(b@, pos as int, (n - i) as nat) is None);
                }
                return None;
            },
            Some((c, q)) => {
                proof {
                    let o = dec_cat_list(b@, q as int, (n - i - 1) as nat);
                    assert(dec_cat_list(b@, pos as int, (n - i) as nat) == (match o {
                        None => None::<(TreeV, int)>,
                        Some((cs, p2)) => Some((seq![pair_view(c)] + cs, p2)),
                    }));
                    if o is Some {
                        let (cs2, _q2) = o->0;
                        assert(acc0 + (seq![pair_view(c)] + cs2) =~= acc0.push(pair_view(c))
                            + cs2);
                    }
                }
                acc.push(c);
                proof {
                    assert(cats_view(acc@) =~= acc0.push(pair_view(acc@[acc@.len() - 1])));
                }
                pos = q;
                i = i + 1;
            },
        }
    }
    proof {
        assert(dec_cat_list(b@, pos as int, 0) == Some((Seq::<CatV>::empty(), pos as int)));
        assert(cats_view(acc@) + Seq::<CatV>::empty() =~= cats_view(acc@));
    }
    Some((Tree { cats: acc }, pos))
}

// ----------------------------------------------------------------------
// Versioned deltas and messages: a message is the ordered list of
// (version, delta) pairs carried by one frame.
// ----------------------------------------------------------------------

pub open spec fn vd_ok(v: VersionedDeltaV) -> bool {
    tree_ok(v.delta)
}

/// The encoding of one versioned delta: its version, then its delta.
pub open spec fn enc_vd(v: VersionedDeltaV) -> Seq<u8> {
    enc_u64(v.version) + enc_tree(v.delta)
}

pub open spec fn dec_vd(b: Seq<u8>, p: int) -> Option<(VersionedDeltaV, int)> {
    match dec_u64(b, p) {
        None => None,
        Some((version, p1)) => match dec_tree(b, p1) {
            None => None,
            Some((delta, p2)) => Some((VersionedDeltaV { version, delta }, p2)),
        },
    }
}

pub proof fn lemma_dec_vd(b: Seq<u8>, p: int, v: VersionedDeltaV)
    requires
        0 <= p,
        vd_ok(v),
        p + enc_vd(v).len() <= b.len(),
        b.subrange(p, p + enc_vd(v).len()) == enc_vd(v),
    ensures
        dec_vd(b, p) == Some((v, p + enc_vd(v).len())),
{
    lemma_split_prefix(b, p, enc_u64(v.version), enc_tree(v.delta));
    lemma_dec_u64(b, p, v.version);
    lemma_dec_tree(b, p + 8, v.delta);
}

/// The concatenated encodings of a message's versioned deltas.
pub open spec fn enc_vd_list(m: Seq<VersionedDeltaV>) -> Seq<u8>
    decreases m.len(),
{
    if m.len() == 0 {
        Seq::empty()
    } else {
        enc_vd(m[0]) + enc_vd_list(m.drop_first())
    }
}

pub open spec fn msg_ok(m: Seq<VersionedDeltaV>) -> bool {
    &&& m.len() <= u64::MAX
    &&& forall|i: int| 0 <= i < m.len() ==> vd_ok(#[trigger] m[i])
}

/// The encoding of a whole message: its pair count, then its pairs.
pub open spec fn enc_msg(m: Seq<VersionedDeltaV>) -> Seq<u8> {
    enc_u64(m.len() as u64) + enc_vd_list(m)
}

pub open spec fn dec_vd_list(b: Seq<u8>, p: int, n: nat) -> Option<(Seq<VersionedDeltaV>, int)>
    decreases n,
{
    if n == 0 {
        Some((Seq::empty(), p))
    } else {
        match dec_vd(b, p) {
            None => None,
            Some((v, p1)) => match dec_vd_list(b, p1, (n - 1) as nat) {
                None => None,
                Some((vs, p2)) => Some((seq![v] + vs, p2)),
            },
        }
    }
}

pub open spec fn dec_msg(b: Seq<u8>, p: int) -> Option<(Seq<VersionedDeltaV>, int)> {
    match dec_u64(b, p) {
        None => None,
        Some((n, p1)) => dec_vd_list(b, p1, n as nat),
    }
}

pub proof fn lemma_enc_vd_list_snoc(m: Seq<VersionedDeltaV>, v: VersionedDeltaV)
    ensures
        enc_vd_list(m.push(v)) == enc_vd_list(m) + enc_vd(v),
    decreases m.len(),
{
    if m.len() == 0 {
        assert(m.push(v).drop_first() =~= Seq::<VersionedDeltaV>::empty());
        assert(m.push(v)[0] == v);
        assert(enc_vd(v) + enc_vd_list(Seq::<VersionedDeltaV>::empty()) =~= enc_vd_list(m)
            + enc_vd(v));
    } else {
        lemma_enc_vd_list_snoc(m.drop_first(), v);
        assert(m.push(v).drop_first() =~= m.drop_first().push(v));
        assert(m.push(v)[0] == m[0]);
        assert(enc_vd(m[0]) + (enc_vd_list(m.drop_first()) + enc_vd(v)) =~= (enc_vd(m[0])
            + enc_vd_list(m.drop_first())) + enc_vd(v));
    }
}

pub proof fn lemma_dec_vd_list(b: Seq<u8>, p: int, m: Seq<VersionedDeltaV>)
    requires
        0 <= p,
        forall|i: int| 0 <= i < m.len() ==> vd_ok(#[trigger] m[i]),
        p + enc_vd_list(m).len() <= b.len(),
        b.subrange(p, p + enc_vd_list(m).len()) == enc_vd_list(m),
    ensures
        dec_vd_list(b, p, m.len() as nat) == Some((m, p + enc_vd_list(m).len())),
    decreases m.len(),
{
    if m.len() == 0 {
        assert(m =~= Seq::<VersionedDeltaV>::empty());
    } else {
        let v = m[0];
        let l0 = enc_vd(v).len() as int;
        let rest = m.drop_first();
        assert(enc_vd_list(m) == enc_vd(v) + enc_vd_list(rest));
        lemma_split_prefix(b, p, enc_vd(v), enc_vd_list(rest));
        lemma_dec_vd(b, p, v);
        assert forall|i: int| 0 <= i < rest.len() implies vd_ok(#[trigger] rest[i]) by {
            assert(rest[i] == m[i + 1]);
        }
        lemma_dec_vd_list(b, p + l0, rest);
        assert(seq![v] + rest =~= m);
    }
}

pub proof fn lemma_dec_msg(b: Seq<u8>, p: int, m: Seq<VersionedDeltaV>)
    requires
        0 <= p,
        msg_ok(m),
        p + enc_msg(m).len() <= b.len(),
        b.subrange(p, p + enc_msg(m).len()) == enc_msg(m),
    ensures
        dec_msg(b, p) == Some((m, p + enc_msg(m).len())),
{
    let n = m.len() as u64;
    lemma_split_prefix(b, p, enc_u64(n), enc_vd_list(m));
    lemma_dec_u64(b, p, n);
    lemma_dec_vd_list(b, p + 8, m);
}

/// Appends the encoding of one versioned delta.
fn push_vd(out: &mut Vec<u8>, v: &VersionedDelta)
    ensures
        final(out)@ == old(out)@ + enc_vd(v@),
        vd_ok(v@),
{
    push_u64(out, v.version);
    push_tree(out, &v.delta);
    proof {
        assert(final(out)@ =~= old(out)@ + enc_vd(v@));
    }
}

/// Reads one versioned delta at position `p`, mirroring [`dec_vd`].
fn read_vd(b: &[u8], p: usize) -> (r: Option<(VersionedDelta, usize)>)
    requires
        p <= b@.len(),
    ensures
        match r {
            Some((v, q)) => dec_vd(b@, p as int) == Some((v@, q as int)) && q <= b@.len(),
            None => dec_vd(b@, p as int) is None,
        },
{
    let (version, p1) = match read_u64(b, p) {
        None => {
            return None;
        },
        Some(x) => x,
    };
    let (delta, p2) = match read_tree(b, p1) {
        None => {
            return None;
        },
        Some(x) => x,
    };
    Some((VersionedDelta { version, delta }, p2))
}

/// Serializes a message — a version-log tail — to its payload bytes.
pub fn encode_message(m: &Vec<VersionedDelta>) -> (out: Vec<u8>)
    ensures
        out@ == enc_msg(vds_view(m@)),
        msg_ok(vds_view(m@)),
{
    let mut out: Vec<u8> = Vec::new();
    push_u64(&mut out, m.len() as u64);
    let ghost base = out@;
    let mut i: usize = 0;
    while i < m.len()
        invariant
            i <= m@.len(),
            out@ == base + enc_vd_list(vds_view(m@).subrange(0, i as int)),
            forall|k: int| 0 <= k < i ==> vd_ok(#[trigger] vds_view(m@)[k]),
        decreases m@.len() - i,
    {
        let ghost sofar = vds_view(m@).subrange(0, i as int);
        push_vd(&mut out, &m[i]);
        proof {
            lemma_enc_vd_list_snoc(sofar, m@[i as int]@);
            assert(vds_view(m@)[i as int] == m@[i as int]@);
            assert(sofar.push(m@[i as int]@) =~= vds_view(m@).subrange(0, i + 1));
            assert(out@ =~= base + enc_vd_list(vds_view(m@).subrange(0, i + 1)));
        }
        i = i + 1;
    }
    proof {
        assert(vds_view(m@).subrange(0, vds_view(m@).len() as int) =~= vds_view(m@));
        assert(out@ =~= enc_msg(vds_view(m@)));
    }
    out
}

/// Reads a whole message at position `p`, mirroring [`dec_msg`].
fn read_message(b: &[u8], p: usize) -> (r: Option<(Vec<VersionedDelta>, usize)>)
    requires
        p <= b@.len(),
    ensures
        match r {
            Some((v, q)) => dec_msg(b@, p as int) == Some((vds_view(v@), q as int)) && q
                <= b@.len(),
            None => dec_msg(b@, p as int) is None,
        },
{
    let (n, p1) = match read_u64(b, p) {
        None => {
            return None;
        },
        Some(x) => x,
    };
    let mut acc: Vec<VersionedDelta> = Vec::new();
    let mut pos: usize = p1;
    let mut i: u64 = 0;
    proof {
        assert(vds_view(acc@) =~= Seq::<VersionedDeltaV>::empty());
    }
    while i < n
        invariant
            i <= n,
            pos <= b@.len(),
            dec_msg(b@, p as int) == dec_vd_list(b@, p1 as int, n as nat),
            dec_vd_list(b@, p1 as int, n as nat) == (match dec_vd_list(
                b@,
                pos as int,
                (n - i) as nat,
            ) {
                None => None::<(Seq<VersionedDeltaV>, int)>,
                Some((vs, q)) => Some((vds_view(acc@) + vs, q)),
            }),
        decreases n - i,
    {
        let ghost acc0 = vds_view(acc@);
        match read_vd(b, pos) {
            None => {
                proof {
                    assert(dec_vd_list(b@, pos as int, (n - i) as nat) is None);
                }
                return None;
            },
            Some((v, q)) => {
                proof {
                    let o = dec_vd_list(b@, q as int, (n - i - 1) as nat);
                    assert(dec_vd_list(b@, pos as int, (n - i) as nat) == (match o {
                        None => None::<(Seq<VersionedDeltaV>, int)>,
                        Some((vs, p2)) => Some((seq![v@] + vs, p2)),
                    }));
                    if o is Some {
                        let (vs2, _q2) = o->0;
                        assert(acc0 + (seq![v@] + vs2) =~= acc0.push(v@) + vs2);
                    }
                }
                acc.push(v);
                proof {
                    assert(vds_view(acc@) =~= acc0.push(acc@[acc@.len() - 1]@));
                }
                pos = q;
                i = i + 1;
            },
        }
    }
    proof {
        assert(dec_vd_list(b@, pos as int, 0) == Some(
            (Seq::<VersionedDeltaV>::empty(), pos as int),
        ));
        assert(vds_view(acc@) + Seq::<VersionedDeltaV>::empty() =~= vds_view(acc@));
    }
    Some((acc, pos))
}

// ----------------------------------------------------------------------
// Frames: an 8-byte big-endian payload length, then the payload.
// ----------------------------------------------------------------------

/// One frame: the payload's byte length, then the payload.
pub open spec fn frame_spec(payload: Seq<u8>) -> Seq<u8> {
    enc_u64(payload.len() as u64) + payload
}

/// What decoding an accumulating buffer yields.
pub ghost enum FrameDecV {
    /// Fewer than 8 header bytes, or fewer payload bytes than declared.
    Incomplete,
    /// The framed message, and the bytes left in the buffer behind it.
    Payload(Seq<VersionedDeltaV>, Seq<u8>),
    /// The declared payload does not parse back exactly as a message.
    Malformed,
}

/// Decoding the front of a buffer.
pub open spec fn frame_dec(b: Seq<u8>) -> FrameDecV {
    if b.len() < 8 {
        FrameDecV::Incomplete
    } else {
        let n = u64_of(b.subrange(0, 8)) as int;
        if b.len() - 8 < n {
            FrameDecV::Incomplete
        } else {
            let payload = b.subrange(8, 8 + n);
            match dec_msg(payload, 0) {
                Some((m, used)) => if used == n {
                    FrameDecV::Payload(m, b.subrange(8 + n, b.len() as int))
                } else {
                    FrameDecV::Malformed
                },
                None => FrameDecV::Malformed,
            }
        }
    }
}

/// What one attempt to decode the buffer produced.
pub enum DecodeOutcome {
    /// Not enough bytes buffered yet; decode again after the next read.
    Incomplete,
    /// One whole frame, decoded and consumed from the buffer.
    Frame(Vec<VersionedDelta>),
    /// The frame's payload failed to parse; the connection is unrecoverable
    /// and should be reset.
    Malformed,
}

/// Serializes and frames a message for transmission.
pub fn encode_frame(m: &Vec<VersionedDelta>) -> (out: Vec<u8>)
    ensures
        out@ == frame_spec(enc_msg(vds_view(m@))),
        msg_ok(vds_view(m@)),
        enc_msg(vds_view(m@)).len() <= u64::MAX,
{
    let payload = encode_message(m);
    let mut out: Vec<u8> = Vec::new();
    push_u64(&mut out, payload.len() as u64);
    push_bytes(&mut out, payload.as_slice());
    proof {
        assert(out@ =~= frame_spec(enc_msg(vds_view(m@))));
    }
    out
}

/// Attempts to decode one frame from the front of an accumulating buffer.
/// On success the frame's bytes are discarded from the buffer, leaving any
/// trailing partial frame intact; otherwise the buffer is unchanged.
pub fn decode_frame(buf: &mut Vec<u8>) -> (r: DecodeOutcome)
    ensures
        match frame_dec(old(buf)@) {
            FrameDecV::Incomplete => r is Incomplete && final(buf)@ == old(buf)@,
            FrameDecV::Payload(m, rest) => {
                &&& r matches DecodeOutcome::Frame(v) && vds_view(v@) == m
                &&& final(buf)@ == rest
            },
            FrameDecV::Malformed => r is Malformed && final(buf)@ == old(buf)@,
        },
{
    if buf.len() < 8 {
        return DecodeOutcome::Incomplete;
    }
    let (n, _hdr_end) = match read_u64(buf.as_slice(), 0) {
        None => {
            proof {
                assert(false);
            }
            return DecodeOutcome::Incomplete;
        },
        Some(x) => x,
    };
    if ((buf.len() - 8) as u64) < n {
        return DecodeOutcome::Incomplete;
    }
    let m = n as usize;
    let payload_slice = vstd::slice::slice_subrange(buf.as_slice(), 8, 8 + m);
    match read_message(payload_slice, 0) {
        None => DecodeOutcome::Malformed,
        Some((v, used)) => {
            if used != m {
                DecodeOutcome::Malformed
            } else {
                let tail = buf.split_off(8 + m);
                *buf = tail;
                DecodeOutcome::Frame(v)
            }
        },
    }
}

/// The record carried by one frame: an ordered list of versioned deltas —
/// a version-log tail ready for the wire.
pub struct Message(pub Vec<VersionedDelta>);

impl View for Message {
    type V = Seq<VersionedDeltaV>;

    open spec fn view(&self) -> Seq<VersionedDeltaV> {
        vds_view(self.0@)
    }
}

impl Message {
    /// Serializes and frames the message for transmission.
    pub fn to_frame(&self) -> (out: Vec<u8>)
        ensures
            out@ == frame_spec(enc_msg(self@)),
            msg_ok(self@),
    {
        encode_frame(&self.0)
    }
}

// ----------------------------------------------------------------------
// The codec's laws.
// ----------------------------------------------------------------------

/// Law (round trip): a message decodes back from its own encoding, and the
/// decoder consumes exactly that encoding, whatever follows it.
pub proof fn lemma_message_round_trip(m: Seq<VersionedDeltaV>, rest: Seq<u8>)
    requires
        msg_ok(m),
    ensures
        dec_msg(enc_msg(m) + rest, 0) == Some((m, enc_msg(m).len() as int)),
{
    let b = enc_msg(m) + rest;
    assert(b.subrange(0, enc_msg(m).len() as int) =~= enc_msg(m));
    lemma_dec_msg(b, 0, m);
}

/// Law (frame round trip): a buffer holding one whole frame plus any
/// trailing bytes decodes to exactly the framed message, leaving exactly
/// the trailing bytes.
pub proof fn lemma_frame_round_trip(m: Seq<VersionedDeltaV>, extra: Seq<u8>)
    requires
        msg_ok(m),
        enc_msg(m).len() <= u64::MAX,
    ensures
        frame_dec(frame_spec(enc_msg(m)) + extra) == FrameDecV::Payload(m, extra),
{
    let payload = enc_msg(m);
    let n = payload.len() as u64;
    let b = frame_spec(payload) + extra;
    assert(b.subrange(0, 8) =~= enc_u64(n));
    lemma_u64_round_trip(n);
    assert(u64_of(b.subrange(0, 8)) == payload.len());
    assert(b.subrange(8, 8 + payload.len() as int) =~= payload);
    assert(payload.subrange(0, enc_msg(m).len() as int) =~= enc_msg(m));
    lemma_dec_msg(payload, 0, m);
    assert(b.subrange(8 + payload.len() as int, b.len() as int) =~= extra);
}

/// Law (truncation): any strict prefix of a frame decodes as `Incomplete`,
/// never as an error.
pub proof fn lemma_truncated_frame_incomplete(m: Seq<VersionedDeltaV>, k: int)
    requires
        msg_ok(m),
        enc_msg(m).len() <= u64::MAX,
        0 <= k < frame_spec(enc_msg(m)).len(),
    ensures
        frame_dec(frame_spec(enc_msg(m)).take(k)) == FrameDecV::Incomplete,
{
    let payload = enc_msg(m);
    let n = payload.len() as u64;
    let f = frame_spec(payload);
    let b = f.take(k);
    if k >= 8 {
        assert(b.subrange(0, 8) =~= enc_u64(n));
        lemma_u64_round_trip(n);
        assert(u64_of(b.subrange(0, 8)) == payload.len());
        assert(b.len() - 8 < payload.len());
    }
}

} // verus!
