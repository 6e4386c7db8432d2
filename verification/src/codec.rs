//! The binary persistence format of a chain: little-endian 32-bit counts
//! and identifiers, words as length-prefixed UTF-8. A decoded chain is
//! accepted only if it is well formed, so a load either yields a chain that
//! every operation can run on or yields nothing.

use crate::chain::{Chain, ChainV, Choices, ChoiceWeight, Edge, EdgeV, State, WordId};
use vstd::prelude::*;
use vstd::slice::slice_subrange;
use vstd::string::{StrSliceExecFns, StringSliceAdditionalSpecFns};
use vstd::utf8::{
    decode_utf8, encode_utf8, encode_utf8_decode_utf8, encode_utf8_valid_utf8, valid_utf8,
};

verus! {

#[verifier::external_type_specification]
#[verifier::external_body]
pub struct ExUtf8Error(core::str::Utf8Error);

/// Relies on str::from_utf8: it succeeds exactly on byte slices that are
/// valid UTF-8, and then returns the string slice made of those bytes.
pub assume_specification[ core::str::from_utf8 ](v: &[u8]) -> (r: Result<
    &str,
    core::str::Utf8Error,
>)
    ensures
        r matches Ok(s) ==> s.spec_bytes() == v@,
        valid_utf8(v@) <==> r is Ok,
;

/// A 32-bit value as four little-endian bytes.
pub open spec fn enc_u32(x: u32) -> Seq<u8> {
    seq![
        (x & 0xff) as u8,
        ((x >> 8) & 0xff) as u8,
        ((x >> 16) & 0xff) as u8,
        ((x >> 24) & 0xff) as u8,
    ]
}

/// The 32-bit value held by the first four bytes of `b`.
#[verifier::opaque]
pub open spec fn dec_u32_val(b: Seq<u8>) -> u32 {
    ((b[0] as u32) | ((b[1] as u32) << 8) | ((b[2] as u32) << 16) | ((b[3] as u32) << 24)) as u32
}

/// Reads a 32-bit value off the front of `b`.
pub open spec fn dec_u32(b: Seq<u8>) -> Option<(u32, Seq<u8>)> {
    if b.len() < 4 {
        None
    } else {
        Some((dec_u32_val(b), b.skip(4)))
    }
}

/// A word as its UTF-8 bytes, length-prefixed.
pub open spec fn enc_word(w: Seq<char>) -> Seq<u8> {
    enc_u32(encode_utf8(w).len() as u32) + encode_utf8(w)
}

/// Reads one length-prefixed word off the front of `b`.
pub open spec fn dec_word(b: Seq<u8>) -> Option<(Seq<char>, Seq<u8>)> {
    match dec_u32(b) {
        None => None,
        Some((len, rest)) => if rest.len() < len {
            None
        } else if !valid_utf8(rest.take(len as int)) {
            None
        } else {
            Some((decode_utf8(rest.take(len as int)), rest.skip(len as int)))
        },
    }
}

/// All the words of a vocabulary, in order.
pub open spec fn enc_words(ws: Seq<Seq<char>>) -> Seq<u8>
    decreases ws.len(),
{
    if ws.len() == 0 {
        Seq::empty()
    } else {
        enc_word(ws[0]) + enc_words(ws.drop_first())
    }
}

/// Reads `n` words off the front of `b`.
pub open spec fn dec_words(b: Seq<u8>, n: nat) -> Option<(Seq<Seq<char>>, Seq<u8>)>
    decreases n,
{
    if n == 0 {
        Some((Seq::empty(), b))
    } else {
        match dec_word(b) {
            None => None,
            Some((w, rest)) => match dec_words(rest, (n - 1) as nat) {
                None => None,
                Some((ws, rest2)) => Some((seq![w] + ws, rest2)),
            },
        }
    }
}

/// One bucket entry: successor identifier, then weight.
pub open spec fn enc_entry(e: ChoiceWeight) -> Seq<u8> {
    enc_u32(e.item.0) + enc_u32(e.weight)
}

/// Reads one bucket entry off the front of `b`.
pub open spec fn dec_entry(b: Seq<u8>) -> Option<(ChoiceWeight, Seq<u8>)> {
    match dec_u32(b) {
        None => None,
        Some((item, rest)) => match dec_u32(rest) {
            None => None,
            Some((weight, rest2)) => Some((ChoiceWeight { item: WordId(item), weight }, rest2)),
        },
    }
}

/// All the entries of a bucket, in order.
pub open spec fn enc_entries(es: Seq<ChoiceWeight>) -> Seq<u8>
    decreases es.len(),
{
    if es.len() == 0 {
        Seq::empty()
    } else {
        enc_entry(es[0]) + enc_entries(es.drop_first())
    }
}

/// Reads `n` bucket entries off the front of `b`.
pub open spec fn dec_entries(b: Seq<u8>, n: nat) -> Option<(Seq<ChoiceWeight>, Seq<u8>)>
    decreases n,
{
    if n == 0 {
        Some((Seq::empty(), b))
    } else {
        match dec_entry(b) {
            None => None,
            Some((e, rest)) => match dec_entries(rest, (n - 1) as nat) {
                None => None,
                Some((es, rest2)) => Some((seq![e] + es, rest2)),
            },
        }
    }
}

/// One transition-table row: the three identifiers of the context key, the
/// entry count, the entries, then the cached total.
pub open spec fn enc_edge(e: EdgeV) -> Seq<u8> {
    enc_u32(e.key.0.0) + enc_u32(e.key.1.0) + enc_u32(e.key.2.0) + enc_u32(e.entries.len() as u32)
        + enc_entries(e.entries) + enc_u32(e.total)
}

/// Reads one transition-table row off the front of `b`.
pub open spec fn dec_edge(b: Seq<u8>) -> Option<(EdgeV, Seq<u8>)> {
    match dec_u32(b) {
        None => None,
        Some((k0, r0)) => match dec_u32(r0) {
            None => None,
            Some((k1, r1)) => match dec_u32(r1) {
                None => None,
                Some((k2, r2)) => match dec_u32(r2) {
                    None => None,
                    Some((n, r3)) => match dec_entries(r3, n as nat) {
                        None => None,
                        Some((es, r4)) => match dec_u32(r4) {
                            None => None,
                            Some((total, r5)) => Some(
                                (
                                    EdgeV {
                                        key: State(WordId(k0), WordId(k1), WordId(k2)),
                                        entries: es,
                                        total,
                                    },
                                    r5,
                                ),
                            ),
                        },
                    },
                },
            },
        },
    }
}

/// All the rows of a transition table, in order.
pub open spec fn enc_edges(es: Seq<EdgeV>) -> Seq<u8>
    decreases es.len(),
{
    if es.len() == 0 {
        Seq::empty()
    } else {
        enc_edge(es[0]) + enc_edges(es.drop_first())
    }
}

/// Reads `n` transition-table rows off the front of `b`.
pub open spec fn dec_edges(b: Seq<u8>, n: nat) -> Option<(Seq<EdgeV>, Seq<u8>)>
    decreases n,
{
    if n == 0 {
        Some((Seq::empty(), b))
    } else {
        match dec_edge(b) {
            None => None,
            Some((e, rest)) => match dec_edges(rest, (n - 1) as nat) {
                None => None,
                Some((es, rest2)) => Some((seq![e] + es, rest2)),
            },
        }
    }
}

/// Whether a chain's counts and word lengths fit the format's 32-bit
/// fields.
pub open spec fn fits_format(c: ChainV) -> bool {
    &&& c.words.len() <= u32::MAX
    &&& c.edges.len() <= u32::MAX
    &&& forall|i: int| 0 <= i < c.words.len() ==> encode_utf8(#[trigger] c.words[i]).len()
        <= u32::MAX
    &&& forall|i: int| 0 <= i < c.edges.len() ==> (#[trigger] c.edges[i]).entries.len() <= u32::MAX
}

/// A whole chain: the vocabulary, then the transition table, each
/// count-prefixed.
pub open spec fn enc_chain(c: ChainV) -> Seq<u8> {
    enc_u32(c.words.len() as u32) + enc_words(c.words) + enc_u32(c.edges.len() as u32) + enc_edges(
        c.edges,
    )
}

/// Reads a whole chain, demanding that nothing trail it.
pub open spec fn dec_chain_raw(b: Seq<u8>) -> Option<ChainV> {
    match dec_u32(b) {
        None => None,
        Some((wc, r1)) => match dec_words(r1, wc as nat) {
            None => None,
            Some((ws, r2)) => match dec_u32(r2) {
                None => None,
                Some((ec, r3)) => match dec_edges(r3, ec as nat) {
                    None => None,
                    Some((es, r4)) => if r4.len() == 0 {
                        Some(ChainV { words: ws, edges: es })
                    } else {
                        None
                    },
                },
            },
        },
    }
}

/// What loading accepts: a chain that decodes and is well formed.
pub open spec fn dec_chain(b: Seq<u8>) -> Option<ChainV> {
    match dec_chain_raw(b) {
        None => None,
        Some(c) => if c.wf() {
            Some(c)
        } else {
            None
        },
    }
}

pub proof fn lemma_dec_enc_u32(x: u32, rest: Seq<u8>)
    ensures
        enc_u32(x).len() == 4,
        dec_u32(enc_u32(x) + rest) == Some((x, rest)),
{
    reveal(dec_u32_val);
    let b = enc_u32(x) + rest;
    assert(b[0] == (x & 0xff) as u8);
    assert(b[1] == ((x >> 8) & 0xff) as u8);
    assert(b[2] == ((x >> 16) & 0xff) as u8);
    assert(b[3] == ((x >> 24) & 0xff) as u8);
    assert(((((x & 0xff) as u8) as u32) | ((((x >> 8) & 0xff) as u8) as u32) << 8 | ((((x >> 16)
        & 0xff) as u8) as u32) << 16 | ((((x >> 24) & 0xff) as u8) as u32) << 24) as u32 == x)
        by (bit_vector);
    assert(dec_u32_val(b) == x);
    assert(b.skip(4) =~= rest);
}

pub proof fn lemma_dec_enc_word(w: Seq<char>, rest: Seq<u8>)
    requires
        encode_utf8(w).len() <= u32::MAX,
    ensures
        dec_word(enc_word(w) + rest) == Some((w, rest)),
{
    let utf8 = encode_utf8(w);
    let len = utf8.len() as u32;
    let b = enc_word(w) + rest;
    assert(b =~= enc_u32(len) + (utf8 + rest));
    lemma_dec_enc_u32(len, utf8 + rest);
    let tail = utf8 + rest;
    assert(tail.len() >= len);
    assert(tail.take(len as int) =~= utf8);
    assert(tail.skip(len as int) =~= rest);
    encode_utf8_valid_utf8(w);
    encode_utf8_decode_utf8(w);
}

pub proof fn lemma_dec_enc_words(ws: Seq<Seq<char>>, rest: Seq<u8>)
    requires
        forall|i: int| 0 <= i < ws.len() ==> encode_utf8(#[trigger] ws[i]).len() <= u32::MAX,
    ensures
        dec_words(enc_words(ws) + rest, ws.len()) == Some((ws, rest)),
    decreases ws.len(),
{
    if ws.len() == 0 {
        assert(enc_words(ws) + rest =~= rest);
        assert(Seq::<Seq<char>>::empty() + Seq::<Seq<char>>::empty() =~= Seq::<Seq<char>>::empty());
    } else {
        let b = enc_words(ws) + rest;
        assert(b =~= enc_word(ws[0]) + (enc_words(ws.drop_first()) + rest));
        lemma_dec_enc_word(ws[0], enc_words(ws.drop_first()) + rest);
        assert(forall|i: int|
            0 <= i < ws.drop_first().len() ==> encode_utf8(#[trigger] ws.drop_first()[i]).len()
                <= u32::MAX);
        lemma_dec_enc_words(ws.drop_first(), rest);
        assert(seq![ws[0]] + ws.drop_first() =~= ws);
    }
}

pub proof fn lemma_dec_enc_entry(e: ChoiceWeight, rest: Seq<u8>)
    ensures
        dec_entry(enc_entry(e) + rest) == Some((e, rest)),
{
    let b = enc_entry(e) + rest;
    assert(b =~= enc_u32(e.item.0) + (enc_u32(e.weight) + rest));
    lemma_dec_enc_u32(e.item.0, enc_u32(e.weight) + rest);
    lemma_dec_enc_u32(e.weight, rest);
}

#[verifier::rlimit(100)]
pub proof fn lemma_dec_enc_entries(es: Seq<ChoiceWeight>, rest: Seq<u8>)
    ensures
        dec_entries(enc_entries(es) + rest, es.len()) == Some((es, rest)),
    decreases es.len(),
{
    if es.len() == 0 {
        assert(enc_entries(es) + rest =~= rest);
    } else {
        let b = enc_entries(es) + rest;
        assert(b =~= enc_entry(es[0]) + (enc_entries(es.drop_first()) + rest));
        lemma_dec_enc_entry(es[0], enc_entries(es.drop_first()) + rest);
        lemma_dec_enc_entries(es.drop_first(), rest);
        assert(seq![es[0]] + es.drop_first() =~= es);
    }
}

pub proof fn lemma_dec_enc_edge(e: EdgeV, rest: Seq<u8>)
    requires
        e.entries.len() <= u32::MAX,
    ensures
        dec_edge(enc_edge(e) + rest) == Some((e, rest)),
{
    let n = e.entries.len() as u32;
    let b = enc_edge(e) + rest;
    let t4 = enc_entries(e.entries) + (enc_u32(e.total) + rest);
    let t3 = enc_u32(n) + t4;
    let t2 = enc_u32(e.key.2.0) + t3;
    let t1 = enc_u32(e.key.1.0) + t2;
    assert(b =~= enc_u32(e.key.0.0) + t1);
    lemma_dec_enc_u32(e.key.0.0, t1);
    lemma_dec_enc_u32(e.key.1.0, t2);
    lemma_dec_enc_u32(e.key.2.0, t3);
    lemma_dec_enc_u32(n, t4);
    lemma_dec_enc_entries(e.entries, enc_u32(e.total) + rest);
    lemma_dec_enc_u32(e.total, rest);
    assert(WordId(e.key.0.0) == e.key.0 && WordId(e.key.1.0) == e.key.1 && WordId(e.key.2.0)
        == e.key.2);
    assert(State(WordId(e.key.0.0), WordId(e.key.1.0), WordId(e.key.2.0)) == e.key);
}

pub proof fn lemma_dec_enc_edges(es: Seq<EdgeV>, rest: Seq<u8>)
    requires
        forall|i: int| 0 <= i < es.len() ==> (#[trigger] es[i]).entries.len() <= u32::MAX,
    ensures
        dec_edges(enc_edges(es) + rest, es.len()) == Some((es, rest)),
    decreases es.len(),
{
    if es.len() == 0 {
        assert(enc_edges(es) + rest =~= rest);
    } else {
        let b = enc_edges(es) + rest;
        assert(b =~= enc_edge(es[0]) + (enc_edges(es.drop_first()) + rest));
        lemma_dec_enc_edge(es[0], enc_edges(es.drop_first()) + rest);
        assert(forall|i: int|
            0 <= i < es.drop_first().len() ==> (#[trigger] es.drop_first()[i]).entries.len()
                <= u32::MAX);
        lemma_dec_enc_edges(es.drop_first(), rest);
        assert(seq![es[0]] + es.drop_first() =~= es);
    }
}

pub proof fn lemma_enc_words_push(ws: Seq<Seq<char>>, w: Seq<char>)
    ensures
        enc_words(ws.push(w)) == enc_words(ws) + enc_word(w),
    decreases ws.len(),
{
    if ws.len() == 0 {
        assert(ws.push(w)[0] == w);
        assert(ws.push(w).drop_first() =~= Seq::<Seq<char>>::empty());
        assert(enc_words(Seq::<Seq<char>>::empty()) =~= Seq::<u8>::empty());
        assert(enc_words(ws.push(w)) =~= enc_words(ws) + enc_word(w));
    } else {
        assert(ws.push(w)[0] == ws[0]);
        assert(ws.push(w).drop_first() =~= ws.drop_first().push(w));
        lemma_enc_words_push(ws.drop_first(), w);
        assert(enc_words(ws.push(w)) =~= enc_words(ws) + enc_word(w));
    }
}

pub proof fn lemma_enc_entries_push(es: Seq<ChoiceWeight>, e: ChoiceWeight)
    ensures
        enc_entries(es.push(e)) == enc_entries(es) + enc_entry(e),
    decreases es.len(),
{
    if es.len() == 0 {
        assert(es.push(e)[0] == e);
        assert(es.push(e).drop_first() =~= Seq::<ChoiceWeight>::empty());
        assert(enc_entries(Seq::<ChoiceWeight>::empty()) =~= Seq::<u8>::empty());
        assert(enc_entries(es.push(e)) =~= enc_entries(es) + enc_entry(e));
    } else {
        assert(es.push(e)[0] == es[0]);
        assert(es.push(e).drop_first() =~= es.drop_first().push(e));
        lemma_enc_entries_push(es.drop_first(), e);
        assert(enc_entries(es.push(e)) =~= enc_entries(es) + enc_entry(e));
    }
}

pub proof fn lemma_enc_edges_push(es: Seq<EdgeV>, e: EdgeV)
    ensures
        enc_edges(es.push(e)) == enc_edges(es) + enc_edge(e),
    decreases es.len(),
{
    if es.len() == 0 {
        assert(es.push(e)[0] == e);
        assert(es.push(e).drop_first() =~= Seq::<EdgeV>::empty());
        assert(enc_edges(Seq::<EdgeV>::empty()) =~= Seq::<u8>::empty());
        assert(enc_edges(es.push(e)) =~= enc_edges(es) + enc_edge(e));
    } else {
        assert(es.push(e)[0] == es[0]);
        assert(es.push(e).drop_first() =~= es.drop_first().push(e));
        lemma_enc_edges_push(es.drop_first(), e);
        assert(enc_edges(es.push(e)) =~= enc_edges(es) + enc_edge(e));
    }
}

/// Appends the four little-endian bytes of `x`.
fn push_u32(out: &mut Vec<u8>, x: u32)
    ensures
        final(out)@ == old(out)@ + enc_u32(x),
{
    proof {
        assert((x & 0xff) < 256 && ((x >> 8) & 0xff) < 256 && ((x >> 16) & 0xff) < 256 && ((x
            >> 24) & 0xff) < 256) by (bit_vector);
    }
    out.push((x & 0xff) as u8);
    out.push(((x >> 8) & 0xff) as u8);
    out.push(((x >> 16) & 0xff) as u8);
    out.push(((x >> 24) & 0xff) as u8);
    proof {
        assert(out@ =~= old(out)@ + enc_u32(x));
    }
}

/// Reads four little-endian bytes at `*pos`.
fn read_u32(bytes: &Vec<u8>, pos: &mut usize) -> (r: Option<u32>)
    requires
        *old(pos) <= bytes@.len(),
    ensures
        match r {
            Some(x) => *final(pos) == *old(pos) + 4 && *final(pos) <= bytes@.len() && dec_u32(
                bytes@.skip(*old(pos) as int),
            ) == Some((x, bytes@.skip(*final(pos) as int))),
            None => *final(pos) <= bytes@.len() && dec_u32(bytes@.skip(*old(pos) as int)) is None,
        },
{
    if bytes.len() - *pos < 4 {
        return None;
    }
    let p = *pos;
    let b0 = bytes[p];
    let b1 = bytes[p + 1];
    let b2 = bytes[p + 2];
    let b3 = bytes[p + 3];
    let x = (b0 as u32) | ((b1 as u32) << 8) | ((b2 as u32) << 16) | ((b3 as u32) << 24);
    *pos = p + 4;
    proof {
        reveal(dec_u32_val);
        let s = bytes@.skip(p as int);
        assert(s[0] == b0 && s[1] == b1 && s[2] == b2 && s[3] == b3);
        assert(dec_u32_val(s) == x);
        assert(s.skip(4) =~= bytes@.skip(p + 4));
    }
    Some(x)
}

/// Reads one length-prefixed UTF-8 word at `*pos`.
fn read_word(bytes: &Vec<u8>, pos: &mut usize) -> (r: Option<String>)
    requires
        *old(pos) <= bytes@.len(),
    ensures
        match r {
            Some(w) => *old(pos) <= *final(pos) <= bytes@.len() && dec_word(
                bytes@.skip(*old(pos) as int),
            ) == Some((w@, bytes@.skip(*final(pos) as int))),
            None => *final(pos) <= bytes@.len() && dec_word(bytes@.skip(*old(pos) as int)) is None,
        },
{
    let ghost p0 = *pos;
    let len = match read_u32(bytes, pos) {
        Some(x) => x,
        None => {
            return None;
        },
    };
    let ghost rest = bytes@.skip(*pos as int);
    if (len as usize) > bytes.len() - *pos {
        proof {
            assert(rest.len() < len);
        }
        return None;
    }
    let start = *pos;
    let end = *pos + len as usize;
    let chunk = slice_subrange(bytes.as_slice(), start, end);
    proof {
        assert(chunk@ =~= rest.take(len as int));
    }
    match core::str::from_utf8(chunk) {
        Ok(s) => {
            let w = s.to_owned();
            *pos = end;
            proof {
                encode_utf8_decode_utf8(s@);
                assert(decode_utf8(rest.take(len as int)) == w@);
                assert(rest.skip(len as int) =~= bytes@.skip(end as int));
            }
            Some(w)
        },
        Err(_) => {
            proof {
                assert(!valid_utf8(rest.take(len as int)));
            }
            None
        },
    }
}

/// Reads one bucket entry at `*pos`.
fn read_entry(bytes: &Vec<u8>, pos: &mut usize) -> (r: Option<ChoiceWeight>)
    requires
        *old(pos) <= bytes@.len(),
    ensures
        match r {
            Some(e) => *old(pos) <= *final(pos) <= bytes@.len() && dec_entry(
                bytes@.skip(*old(pos) as int),
            ) == Some((e, bytes@.skip(*final(pos) as int))),
            None => *final(pos) <= bytes@.len() && dec_entry(bytes@.skip(*old(pos) as int)) is None,
        },
{
    let item = match read_u32(bytes, pos) {
        Some(x) => x,
        None => {
            return None;
        },
    };
    let weight = match read_u32(bytes, pos) {
        Some(x) => x,
        None => {
            return None;
        },
    };
    Some(ChoiceWeight { item: WordId(item), weight })
}

/// The model of one executable transition-table row.
pub open spec fn edge_view(e: Edge) -> EdgeV {
    EdgeV { key: e.key, entries: e.bucket.choices@, total: e.bucket.total }
}

spec fn after_words(prefix: Seq<Seq<char>>, r: Option<(Seq<Seq<char>>, Seq<u8>)>) -> Option<
    (Seq<Seq<char>>, Seq<u8>),
> {
    match r {
        None => None,
        Some((ws, rest)) => Some((prefix + ws, rest)),
    }
}

spec fn after_entries(prefix: Seq<ChoiceWeight>, r: Option<(Seq<ChoiceWeight>, Seq<u8>)>) -> Option<
    (Seq<ChoiceWeight>, Seq<u8>),
> {
    match r {
        None => None,
        Some((es, rest)) => Some((prefix + es, rest)),
    }
}

spec fn after_edges(prefix: Seq<EdgeV>, r: Option<(Seq<EdgeV>, Seq<u8>)>) -> Option<
    (Seq<EdgeV>, Seq<u8>),
> {
    match r {
        None => None,
        Some((es, rest)) => Some((prefix + es, rest)),
    }
}

/// Reads one whole transition-table row at `*pos`.
fn read_edge(bytes: &Vec<u8>, pos: &mut usize) -> (r: Option<Edge>)
    requires
        *old(pos) <= bytes@.len(),
    ensures
        match r {
            Some(e) => *old(pos) <= *final(pos) <= bytes@.len() && dec_edge(
                bytes@.skip(*old(pos) as int),
            ) == Some((edge_view(e), bytes@.skip(*final(pos) as int))),
            None => *final(pos) <= bytes@.len() && dec_edge(bytes@.skip(*old(pos) as int)) is None,
        },
{
    let ghost p0 = *pos;
    let k0 = match read_u32(bytes, pos) {
        Some(x) => x,
        None => {
            return None;
        },
    };
    let ghost s1 = bytes@.skip(*pos as int);
    let k1 = match read_u32(bytes, pos) {
        Some(x) => x,
        None => {
            return None;
        },
    };
    let ghost s2 = bytes@.skip(*pos as int);
    let k2 = match read_u32(bytes, pos) {
        Some(x) => x,
        None => {
            return None;
        },
    };
    let ghost s3 = bytes@.skip(*pos as int);
    let n = match read_u32(bytes, pos) {
        Some(x) => x,
        None => {
            return None;
        },
    };
    let ghost r3 = bytes@.skip(*pos as int);
    let mut entries: Vec<ChoiceWeight> = Vec::new();
    let mut j: u32 = 0;
    while j < n
        invariant
            *pos <= bytes@.len(),
            j <= n,
            entries@.len() == j,
            p0 == *old(pos),
            p0 <= *pos,
            dec_u32(bytes@.skip(p0 as int)) == Some((k0, s1)),
            dec_u32(s1) == Some((k1, s2)),
            dec_u32(s2) == Some((k2, s3)),
            dec_u32(s3) == Some((n, r3)),
            dec_entries(r3, n as nat) == after_entries(
                entries@,
                dec_entries(bytes@.skip(*pos as int), (n - j) as nat),
            ),
        decreases n - j,
    {
        let ghost pos_before = *pos;
        let e = match read_entry(bytes, pos) {
            Some(e) => e,
            None => {
                proof {
                    assert(dec_entries(bytes@.skip(pos_before as int), (n - j) as nat) is None);
                    assert(dec_edge(bytes@.skip(p0 as int)) is None);
                }
                return None;
            },
        };
        proof {
            let pre = entries@;
            let mid = bytes@.skip(*pos as int);
            assert(after_entries(pre.push(e), dec_entries(mid, (n - j - 1) as nat))
                == after_entries(pre, after_entries(seq![e], dec_entries(mid, (n - j - 1) as nat))))
                by {
                match dec_entries(mid, (n - j - 1) as nat) {
                    None => {},
                    Some((es, rest)) => {
                        assert(pre.push(e) + es =~= pre + (seq![e] + es));
                    },
                }
            }
        }
        entries.push(e);
        j += 1;
    }
    let ghost mid = bytes@.skip(*pos as int);
    proof {
        assert(dec_entries(mid, 0) == Some((Seq::<ChoiceWeight>::empty(), mid)));
        assert(entries@ + Seq::<ChoiceWeight>::empty() =~= entries@);
        assert(dec_entries(r3, n as nat) == Some((entries@, mid)));
    }
    let total = match read_u32(bytes, pos) {
        Some(x) => x,
        None => {
            return None;
        },
    };
    let e = Edge {
        key: State(WordId(k0), WordId(k1), WordId(k2)),
        bucket: Choices { choices: entries, total },
    };
    proof {
        assert(edge_view(e) == EdgeV {
            key: State(WordId(k0), WordId(k1), WordId(k2)),
            entries: e.bucket.choices@,
            total,
        });
        assert(dec_edge(bytes@.skip(p0 as int)) == Some(
            (edge_view(e), bytes@.skip(*pos as int)),
        ));
    }
    Some(e)
}

impl Chain {
    /// Serializes this chain into the persistence format, in full, unless a
    /// count or a word is too large for the format's 32-bit fields.
    pub fn save(&self) -> (r: Option<Vec<u8>>)
        requires
            self.wf(),
        ensures
            match r {
                Some(bytes) => fits_format(self@) && bytes@ == enc_chain(self@),
                None => !fits_format(self@),
            },
    {
        let nw = self.words.len();
        let ne = self.graph.len();
        if ne > u32::MAX as usize {
            return None;
        }
        let mut out: Vec<u8> = Vec::new();
        push_u32(&mut out, nw as u32);
        proof {
            assert(self@.words.take(0) =~= Seq::<Seq<char>>::empty());
            assert(enc_words(Seq::<Seq<char>>::empty()) =~= Seq::<u8>::empty());
            assert(out@ =~= enc_u32(nw as u32) + enc_words(self@.words.take(0)));
        }
        let mut i: usize = 0;
        while i < nw
            invariant
                self.wf(),
                nw == self.words.len(),
                i <= nw,
                out@ == enc_u32(nw as u32) + enc_words(self@.words.take(i as int)),
                forall|k: int| 0 <= k < i ==> encode_utf8(#[trigger] self@.words[k]).len()
                    <= u32::MAX,
            decreases nw - i,
        {
            proof {
                assert(self@.words[i as int] == self.words@[i as int]@);
            }
            let w = self.words[i].as_str();
            let mut bs = w.as_bytes_vec();
            proof {
                assert(bs@ == encode_utf8(self@.words[i as int]));
            }
            let blen = bs.len();
            if blen > u32::MAX as usize {
                return None;
            }
            push_u32(&mut out, blen as u32);
            out.append(&mut bs);
            proof {
                assert(self@.words.take(i + 1) =~= self@.words.take(i as int).push(
                    self@.words[i as int],
                ));
                lemma_enc_words_push(self@.words.take(i as int), self@.words[i as int]);
                assert(out@ =~= enc_u32(nw as u32) + enc_words(self@.words.take(i + 1)));
            }
            i += 1;
        }
        proof {
            assert(self@.words.take(nw as int) =~= self@.words);
        }
        push_u32(&mut out, ne as u32);
        let ghost head = enc_u32(nw as u32) + enc_words(self@.words) + enc_u32(ne as u32);
        proof {
            assert(self@.edges.take(0) =~= Seq::<EdgeV>::empty());
            assert(enc_edges(Seq::<EdgeV>::empty()) =~= Seq::<u8>::empty());
            assert(out@ =~= head + enc_edges(self@.edges.take(0)));
        }
        let mut i: usize = 0;
        while i < ne
            invariant
                self.wf(),
                ne == self.graph.len(),
                i <= ne,
                out@ == head + enc_edges(self@.edges.take(i as int)),
                forall|k: int| 0 <= k < i ==> (#[trigger] self@.edges[k]).entries.len() <= u32::MAX,
            decreases ne - i,
        {
            let ghost row = self@.edges[i as int];
            proof {
                assert(row.entries == self.graph@[i as int].bucket.choices@);
            }
            let m = self.graph[i].bucket.choices.len();
            if m > u32::MAX as usize {
                return None;
            }
            let key = self.graph[i].key;
            push_u32(&mut out, key.0.0);
            push_u32(&mut out, key.1.0);
            push_u32(&mut out, key.2.0);
            push_u32(&mut out, m as u32);
            let ghost entry_head = out@;
            proof {
                assert(row.entries.take(0) =~= Seq::<ChoiceWeight>::empty());
                assert(enc_entries(Seq::<ChoiceWeight>::empty()) =~= Seq::<u8>::empty());
                assert(out@ =~= entry_head + enc_entries(row.entries.take(0)));
            }
            let mut j: usize = 0;
            while j < m
                invariant
                    ne == self.graph.len(),
                    0 <= i < ne,
                    row == self@.edges[i as int],
                    m == self.graph[i as int].bucket.choices.len(),
                    m == row.entries.len(),
                    j <= m,
                    out@ == entry_head + enc_entries(row.entries.take(j as int)),
                decreases m - j,
            {
                let cw = self.graph[i].bucket.choices[j];
                proof {
                    assert(cw == row.entries[j as int]);
                }
                push_u32(&mut out, cw.item.0);
                push_u32(&mut out, cw.weight);
                proof {
                    assert(row.entries.take(j + 1) =~= row.entries.take(j as int).push(cw));
                    lemma_enc_entries_push(row.entries.take(j as int), cw);
                    assert(out@ =~= entry_head + enc_entries(row.entries.take(j + 1)));
                }
                j += 1;
            }
            let total = self.graph[i].bucket.total;
            push_u32(&mut out, total);
            proof {
                assert(row.entries.take(m as int) =~= row.entries);
                assert(row.key == key && row.total == total);
                assert(out@ =~= head + enc_edges(self@.edges.take(i as int)) + enc_edge(row));
                assert(self@.edges.take(i + 1) =~= self@.edges.take(i as int).push(row));
                lemma_enc_edges_push(self@.edges.take(i as int), row);
                assert(out@ =~= head + enc_edges(self@.edges.take(i + 1)));
            }
            i += 1;
        }
        proof {
            assert(self@.edges.take(ne as int) =~= self@.edges);
            assert(out@ =~= enc_chain(self@));
        }
        Some(out)
    }

    /// Rebuilds a chain from persisted bytes. Yields a chain exactly when
    /// the bytes are a complete, well-formed encoding; any malformed or
    /// trailing input is rejected whole, so a load never applies partially.
    pub fn load(bytes: &Vec<u8>) -> (r: Option<Chain>)
        ensures
            match r {
                Some(c) => dec_chain(bytes@) == Some(c@) && c.wf(),
                None => dec_chain(bytes@) is None,
            },
    {
        let mut pos: usize = 0;
        proof {
            assert(bytes@.skip(0) =~= bytes@);
        }
        let wc = match read_u32(bytes, &mut pos) {
            Some(x) => x,
            None => {
                return None;
            },
        };
        let ghost r1 = bytes@.skip(pos as int);
        let mut words: Vec<String> = Vec::new();
        let mut k: u32 = 0;
        proof {
            assert(words@.map_values(|w: String| w@) =~= Seq::<Seq<char>>::empty());
        }
        while k < wc
            invariant
                pos <= bytes@.len(),
                k <= wc,
                dec_u32(bytes@) == Some((wc, r1)),
                dec_words(r1, wc as nat) == after_words(
                    words@.map_values(|w: String| w@),
                    dec_words(bytes@.skip(pos as int), (wc - k) as nat),
                ),
            decreases wc - k,
        {
            let w = match read_word(bytes, &mut pos) {
                Some(w) => w,
                None => {
                    return None;
                },
            };
            proof {
                let pre = words@.map_values(|w: String| w@);
                let mid = bytes@.skip(pos as int);
                assert(words@.push(w).map_values(|w: String| w@) =~= pre.push(w@));
                match dec_words(mid, (wc - k - 1) as nat) {
                    None => {},
                    Some((ws, rest)) => {
                        assert(pre.push(w@) + ws =~= pre + (seq![w@] + ws));
                    },
                }
            }
            words.push(w);
            k += 1;
        }
        proof {
            assert(dec_words(bytes@.skip(pos as int), 0) == Some(
                (Seq::<Seq<char>>::empty(), bytes@.skip(pos as int)),
            ));
            assert(words@.map_values(|w: String| w@) + Seq::<Seq<char>>::empty()
                =~= words@.map_values(|w: String| w@));
        }
        let ghost word_views = words@.map_values(|w: String| w@);
        let ghost r2 = bytes@.skip(pos as int);
        proof {
            assert(dec_words(r1, wc as nat) == Some((word_views, r2)));
        }
        let ec = match read_u32(bytes, &mut pos) {
            Some(x) => x,
            None => {
                return None;
            },
        };
        let ghost r3 = bytes@.skip(pos as int);
        let mut graph: Vec<Edge> = Vec::new();
        let mut k: u32 = 0;
        proof {
            assert(graph@.map_values(|e: Edge| edge_view(e)) =~= Seq::<EdgeV>::empty());
        }
        while k < ec
            invariant
                pos <= bytes@.len(),
                k <= ec,
                dec_u32(bytes@) == Some((wc, r1)),
                dec_words(r1, wc as nat) == Some((word_views, r2)),
                dec_u32(r2) == Some((ec, r3)),
                dec_edges(r3, ec as nat) == after_edges(
                    graph@.map_values(|e: Edge| edge_view(e)),
                    dec_edges(bytes@.skip(pos as int), (ec - k) as nat),
                ),
            decreases ec - k,
        {
            let e = match read_edge(bytes, &mut pos) {
                Some(e) => e,
                None => {
                    return None;
                },
            };
            proof {
                let pre = graph@.map_values(|e: Edge| edge_view(e));
                let mid = bytes@.skip(pos as int);
                assert(graph@.push(e).map_values(|e: Edge| edge_view(e)) =~= pre.push(
                    edge_view(e),
                ));
                match dec_edges(mid, (ec - k - 1) as nat) {
                    None => {},
                    Some((es, rest)) => {
                        assert(pre.push(edge_view(e)) + es =~= pre + (seq![edge_view(e)] + es));
                    },
                }
            }
            graph.push(e);
            k += 1;
        }
        proof {
            assert(dec_edges(bytes@.skip(pos as int), 0) == Some(
                (Seq::<EdgeV>::empty(), bytes@.skip(pos as int)),
            ));
            assert(graph@.map_values(|e: Edge| edge_view(e)) + Seq::<EdgeV>::empty()
                =~= graph@.map_values(|e: Edge| edge_view(e)));
        }
        if pos != bytes.len() {
            proof {
                assert(bytes@.skip(pos as int).len() != 0);
            }
            return None;
        }
        let c = Chain { words, graph };
        proof {
            assert(c@.words == word_views);
            assert(c@.edges =~= graph@.map_values(|e: Edge| edge_view(e)));
            assert(dec_chain_raw(bytes@) == Some(c@));
        }
        if c.check_wf() {
            Some(c)
        } else {
            None
        }
    }
}

/// Round-trip persistence: a well-formed chain that fits the format
/// decodes, from its own encoding, back to exactly itself — the same
/// words under the same identifiers and the same weights.
pub proof fn lemma_round_trip(c: ChainV)
    requires
        c.wf(),
        fits_format(c),
    ensures
        dec_chain(enc_chain(c)) == Some(c),
{
    let b = enc_chain(c);
    let t2 = enc_u32(c.edges.len() as u32) + enc_edges(c.edges);
    let t1 = enc_words(c.words) + t2;
    assert(b =~= enc_u32(c.words.len() as u32) + t1);
    lemma_dec_enc_u32(c.words.len() as u32, t1);
    lemma_dec_enc_words(c.words, t2);
    lemma_dec_enc_u32(c.edges.len() as u32, enc_edges(c.edges) + Seq::<u8>::empty());
    assert(enc_edges(c.edges) + Seq::<u8>::empty() =~= enc_edges(c.edges));
    assert(t2 =~= enc_u32(c.edges.len() as u32) + (enc_edges(c.edges) + Seq::<u8>::empty()));
    lemma_dec_enc_edges(c.edges, Seq::<u8>::empty());
    assert(dec_chain_raw(b) == Some(ChainV { words: c.words, edges: c.edges }));
    assert(ChainV { words: c.words, edges: c.edges } == c);
}

} // verus!
