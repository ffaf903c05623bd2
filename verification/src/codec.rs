//! The binary persistence format of a table.
//!
//! The encoding is length-prefixed throughout: a table is the entry count
//! followed by the entries; an entry is its name, ciphertext, description and
//! application list; every byte string carries its length, every list its
//! count, each as a little-endian `u64`.  Strings are stored as UTF-8.
//! Parsing rejects trailing bytes, invalid UTF-8 and duplicate names, so a
//! parsed table is always well formed, and parsing the encoding of any table
//! yields that table back.

use crate::store::{table_of, unique_names, MetaView, PasswordView};
use vstd::bytes::{
    lemma_auto_spec_u64_to_from_le_bytes, spec_u64_from_le_bytes, spec_u64_to_le_bytes,
    u64_from_le_bytes, u64_to_le_bytes,
};
use vstd::prelude::*;
use vstd::slice::{slice_subrange, slice_to_vec};
use vstd::utf8::{decode_utf8, encode_utf8, valid_utf8};

verus! {

/// A length prefix: a little-endian 64-bit count.
pub open spec fn spec_encode_u64(x: u64) -> Seq<u8> {
    spec_u64_to_le_bytes(x)
}

/// A byte string: its length, then its bytes.
pub open spec fn spec_encode_bytes(b: Seq<u8>) -> Seq<u8> {
    spec_encode_u64(b.len() as u64) + b
}

/// A string: the length of its UTF-8 encoding, then that encoding.
pub open spec fn spec_encode_string(s: Seq<char>) -> Seq<u8> {
    spec_encode_bytes(encode_utf8(s))
}

/// The strings of a list, one after another, without their count.
pub open spec fn spec_encode_strings_items(ss: Seq<Seq<char>>) -> Seq<u8>
    decreases ss.len(),
{
    if ss.len() == 0 {
        Seq::empty()
    } else {
        spec_encode_string(ss.first()) + spec_encode_strings_items(ss.drop_first())
    }
}

/// A list of strings: its count, then its strings.
pub open spec fn spec_encode_strings(ss: Seq<Seq<char>>) -> Seq<u8> {
    spec_encode_u64(ss.len() as u64) + spec_encode_strings_items(ss)
}

/// One entry: name, ciphertext, description, application list.
pub open spec fn spec_encode_entry(e: (Seq<char>, PasswordView)) -> Seq<u8> {
    spec_encode_string(e.0) + spec_encode_bytes(e.1.cypher) + spec_encode_string(
        e.1.meta.description,
    ) + spec_encode_strings(e.1.meta.apps)
}

/// The entries of a table, one after another, without their count.
pub open spec fn spec_encode_entries_items(es: Seq<(Seq<char>, PasswordView)>) -> Seq<u8>
    decreases es.len(),
{
    if es.len() == 0 {
        Seq::empty()
    } else {
        spec_encode_entry(es.first()) + spec_encode_entries_items(es.drop_first())
    }
}

/// A whole table: its entry count, then its entries in storage order.
pub open spec fn encode_table(es: Seq<(Seq<char>, PasswordView)>) -> Seq<u8> {
    spec_encode_u64(es.len() as u64) + spec_encode_entries_items(es)
}

/// Reads a count; fails on fewer than 8 bytes.
pub open spec fn spec_parse_u64(b: Seq<u8>) -> Option<(u64, Seq<u8>)> {
    if b.len() >= 8 {
        Some((spec_u64_from_le_bytes(b.subrange(0, 8)), b.skip(8)))
    } else {
        None
    }
}

/// Reads a length-prefixed byte string; fails when the input is shorter than
/// the prefix promises.
pub open spec fn spec_parse_bytes(b: Seq<u8>) -> Option<(Seq<u8>, Seq<u8>)> {
    match spec_parse_u64(b) {
        Some((n, rest)) => if n <= rest.len() {
            Some((rest.subrange(0, n as int), rest.skip(n as int)))
        } else {
            None
        },
        None => None,
    }
}

/// Reads a length-prefixed string; fails on invalid UTF-8.
pub open spec fn spec_parse_string(b: Seq<u8>) -> Option<(Seq<char>, Seq<u8>)> {
    match spec_parse_bytes(b) {
        Some((bs, rest)) => if valid_utf8(bs) {
            Some((decode_utf8(bs), rest))
        } else {
            None
        },
        None => None,
    }
}

/// Reads `n` strings, one after another.
pub open spec fn spec_parse_strings_items(b: Seq<u8>, n: nat) -> Option<(Seq<Seq<char>>, Seq<u8>)>
    decreases n,
{
    if n == 0 {
        Some((Seq::empty(), b))
    } else {
        match spec_parse_string(b) {
            Some((s, rest)) => match spec_parse_strings_items(rest, (n - 1) as nat) {
                Some((ss, rest2)) => Some((seq![s] + ss, rest2)),
                None => None,
            },
            None => None,
        }
    }
}

/// Reads a counted list of strings.
pub open spec fn spec_parse_strings(b: Seq<u8>) -> Option<(Seq<Seq<char>>, Seq<u8>)> {
    match spec_parse_u64(b) {
        Some((n, rest)) => spec_parse_strings_items(rest, n as nat),
        None => None,
    }
}

/// Reads one entry.
pub open spec fn spec_parse_entry(b: Seq<u8>) -> Option<((Seq<char>, PasswordView), Seq<u8>)> {
    match spec_parse_string(b) {
        Some((name, r1)) => match spec_parse_bytes(r1) {
            Some((cy, r2)) => match spec_parse_string(r2) {
                Some((desc, r3)) => match spec_parse_strings(r3) {
                    Some((apps, r4)) => Some(
                        (
                            (
                                name,
                                PasswordView {
                                    cypher: cy,
                                    meta: MetaView { description: desc, apps: apps },
                                },
                            ),
                            r4,
                        ),
                    ),
                    None => None,
                },
                None => None,
            },
            None => None,
        },
        None => None,
    }
}

/// Reads `n` entries, one after another.
pub open spec fn spec_parse_entries_items(b: Seq<u8>, n: nat) -> Option<
    (Seq<(Seq<char>, PasswordView)>, Seq<u8>),
>
    decreases n,
{
    if n == 0 {
        Some((Seq::empty(), b))
    } else {
        match spec_parse_entry(b) {
            Some((e, rest)) => match spec_parse_entries_items(rest, (n - 1) as nat) {
                Some((es, rest2)) => Some((seq![e] + es, rest2)),
                None => None,
            },
            None => None,
        }
    }
}

/// What a byte sequence decodes to: the table it describes, or nothing when
/// it is truncated, carries trailing bytes, holds invalid UTF-8 or repeats a
/// name.
pub open spec fn parse_table(b: Seq<u8>) -> Option<Map<Seq<char>, PasswordView>> {
    match spec_parse_u64(b) {
        Some((n, rest)) => match spec_parse_entries_items(rest, n as nat) {
            Some((es, rest2)) => if rest2.len() == 0 && unique_names(es) {
                Some(table_of(es))
            } else {
                None
            },
            None => None,
        },
        None => None,
    }
}

/// True when every length stored while encoding this string list fits its
/// 64-bit prefix.
pub open spec fn strings_fit(ss: Seq<Seq<char>>) -> bool {
    &&& ss.len() <= u64::MAX
    &&& forall|i: int| 0 <= i < ss.len() ==> encode_utf8(#[trigger] ss[i]).len() <= u64::MAX
}

/// True when every length stored while encoding this entry fits its 64-bit
/// prefix.
pub open spec fn entry_fits(e: (Seq<char>, PasswordView)) -> bool {
    &&& encode_utf8(e.0).len() <= u64::MAX
    &&& e.1.cypher.len() <= u64::MAX
    &&& encode_utf8(e.1.meta.description).len() <= u64::MAX
    &&& strings_fit(e.1.meta.apps)
}

/// True when every length stored while encoding these entries fits its
/// 64-bit prefix.
pub open spec fn entries_fit(es: Seq<(Seq<char>, PasswordView)>) -> bool {
    &&& es.len() <= u64::MAX
    &&& forall|i: int| 0 <= i < es.len() ==> entry_fits(#[trigger] es[i])
}

proof fn lemma_parse_u64_encode(x: u64, rest: Seq<u8>)
    ensures
        spec_parse_u64(spec_encode_u64(x) + rest) == Some((x, rest)),
{
    lemma_auto_spec_u64_to_from_le_bytes();
    let b = spec_encode_u64(x) + rest;
    assert(spec_u64_to_le_bytes(x).len() == 8);
    assert(b.subrange(0, 8) =~= spec_u64_to_le_bytes(x));
    assert(b.skip(8) =~= rest);
}

proof fn lemma_parse_bytes_encode(bs: Seq<u8>, rest: Seq<u8>)
    requires
        bs.len() <= u64::MAX,
    ensures
        spec_parse_bytes(spec_encode_bytes(bs) + rest) == Some((bs, rest)),
{
    let b = spec_encode_bytes(bs) + rest;
    assert(b =~= spec_encode_u64(bs.len() as u64) + (bs + rest));
    lemma_parse_u64_encode(bs.len() as u64, bs + rest);
    let n = bs.len() as u64;
    assert((bs + rest).subrange(0, n as int) =~= bs);
    assert((bs + rest).skip(n as int) =~= rest);
}

proof fn lemma_parse_string_encode(s: Seq<char>, rest: Seq<u8>)
    requires
        encode_utf8(s).len() <= u64::MAX,
    ensures
        spec_parse_string(spec_encode_string(s) + rest) == Some((s, rest)),
{
    lemma_parse_bytes_encode(encode_utf8(s), rest);
    vstd::utf8::encode_utf8_valid_utf8(s);
    vstd::utf8::encode_utf8_decode_utf8(s);
}

proof fn lemma_parse_strings_items_encode(ss: Seq<Seq<char>>, rest: Seq<u8>)
    requires
        forall|i: int| 0 <= i < ss.len() ==> encode_utf8(#[trigger] ss[i]).len() <= u64::MAX,
    ensures
        spec_parse_strings_items(spec_encode_strings_items(ss) + rest, ss.len()) == Some(
            (ss, rest),
        ),
    decreases ss.len(),
{
    if ss.len() == 0 {
        assert(spec_encode_strings_items(ss) + rest =~= rest);
        assert(ss =~= Seq::<Seq<char>>::empty());
    } else {
        let s0 = ss.first();
        let tail = ss.drop_first();
        assert(encode_utf8(s0).len() <= u64::MAX);
        assert(forall|i: int|
            0 <= i < tail.len() ==> encode_utf8(#[trigger] tail[i]).len() <= u64::MAX);
        let b = spec_encode_strings_items(ss) + rest;
        assert(b =~= spec_encode_string(s0) + (spec_encode_strings_items(tail) + rest));
        lemma_parse_string_encode(s0, spec_encode_strings_items(tail) + rest);
        lemma_parse_strings_items_encode(tail, rest);
        assert(seq![s0] + tail =~= ss);
    }
}

proof fn lemma_parse_strings_encode(ss: Seq<Seq<char>>, rest: Seq<u8>)
    requires
        strings_fit(ss),
    ensures
        spec_parse_strings(spec_encode_strings(ss) + rest) == Some((ss, rest)),
{
    let b = spec_encode_strings(ss) + rest;
    assert(b =~= spec_encode_u64(ss.len() as u64) + (spec_encode_strings_items(ss) + rest));
    lemma_parse_u64_encode(ss.len() as u64, spec_encode_strings_items(ss) + rest);
    lemma_parse_strings_items_encode(ss, rest);
}

proof fn lemma_parse_entry_encode(e: (Seq<char>, PasswordView), rest: Seq<u8>)
    requires
        entry_fits(e),
    ensures
        spec_parse_entry(spec_encode_entry(e) + rest) == Some((e, rest)),
{
    let tail3 = spec_encode_strings(e.1.meta.apps) + rest;
    let tail2 = spec_encode_string(e.1.meta.description) + tail3;
    let tail1 = spec_encode_bytes(e.1.cypher) + tail2;
    let b = spec_encode_entry(e) + rest;
    assert(b =~= spec_encode_string(e.0) + tail1);
    lemma_parse_string_encode(e.0, tail1);
    assert(tail1 =~= spec_encode_bytes(e.1.cypher) + tail2);
    lemma_parse_bytes_encode(e.1.cypher, tail2);
    lemma_parse_string_encode(e.1.meta.description, tail3);
    lemma_parse_strings_encode(e.1.meta.apps, rest);
}

proof fn lemma_parse_entries_items_encode(es: Seq<(Seq<char>, PasswordView)>, rest: Seq<u8>)
    requires
        forall|i: int| 0 <= i < es.len() ==> entry_fits(#[trigger] es[i]),
    ensures
        spec_parse_entries_items(spec_encode_entries_items(es) + rest, es.len()) == Some(
            (es, rest),
        ),
    decreases es.len(),
{
    if es.len() == 0 {
        assert(spec_encode_entries_items(es) + rest =~= rest);
        assert(es =~= Seq::<(Seq<char>, PasswordView)>::empty());
    } else {
        let e0 = es.first();
        let tail = es.drop_first();
        assert(entry_fits(e0));
        assert(forall|i: int| 0 <= i < tail.len() ==> entry_fits(#[trigger] tail[i]));
        let b = spec_encode_entries_items(es) + rest;
        assert(b =~= spec_encode_entry(e0) + (spec_encode_entries_items(tail) + rest));
        lemma_parse_entry_encode(e0, spec_encode_entries_items(tail) + rest);
        lemma_parse_entries_items_encode(tail, rest);
        assert(seq![e0] + tail =~= es);
    }
}

/// Persistence round trip: parsing the encoding of any well-formed entry
/// sequence whose lengths fit their 64-bit prefixes yields exactly the table
/// those entries describe.
pub proof fn lemma_encode_parse_roundtrip(es: Seq<(Seq<char>, PasswordView)>)
    requires
        entries_fit(es),
        unique_names(es),
    ensures
        parse_table(encode_table(es)) == Some(table_of(es)),
{
    let b = encode_table(es);
    assert(b =~= spec_encode_u64(es.len() as u64) + (spec_encode_entries_items(es)
        + Seq::<u8>::empty()));
    lemma_parse_u64_encode(es.len() as u64, spec_encode_entries_items(es) + Seq::<u8>::empty());
    lemma_parse_entries_items_encode(es, Seq::<u8>::empty());
    assert(spec_encode_entries_items(es) + Seq::<u8>::empty() =~= spec_encode_entries_items(es));
}

/// Encoding one more string of a list appends that string's encoding.
pub(crate) proof fn lemma_encode_strings_items_snoc(ss: Seq<Seq<char>>, i: int)
    requires
        0 <= i < ss.len(),
    ensures
        spec_encode_strings_items(ss.take(i + 1)) == spec_encode_strings_items(ss.take(i))
            + spec_encode_string(ss[i]),
    decreases i,
{
    if i == 0 {
        assert(ss.take(1).first() == ss[0]);
        assert(ss.take(1).drop_first() =~= Seq::<Seq<char>>::empty());
        assert(ss.take(0) =~= Seq::<Seq<char>>::empty());
        assert(spec_encode_strings_items(ss.take(1)) =~= spec_encode_strings_items(ss.take(0))
            + spec_encode_string(ss[0]));
    } else {
        let tail = ss.drop_first();
        assert(ss.take(i + 1).first() == ss[0]);
        assert(ss.take(i + 1).drop_first() =~= tail.take(i));
        assert(ss.take(i).first() == ss[0]);
        assert(ss.take(i).drop_first() =~= tail.take(i - 1));
        lemma_encode_strings_items_snoc(tail, i - 1);
        assert(tail[i - 1] == ss[i]);
        assert(spec_encode_string(ss[0]) + (spec_encode_strings_items(tail.take(i - 1))
            + spec_encode_string(ss[i])) =~= (spec_encode_string(ss[0])
            + spec_encode_strings_items(tail.take(i - 1))) + spec_encode_string(ss[i]));
    }
}

/// Encoding one more entry of a table appends that entry's encoding.
pub(crate) proof fn lemma_encode_entries_items_snoc(es: Seq<(Seq<char>, PasswordView)>, i: int)
    requires
        0 <= i < es.len(),
    ensures
        spec_encode_entries_items(es.take(i + 1)) == spec_encode_entries_items(es.take(i))
            + spec_encode_entry(es[i]),
    decreases i,
{
    if i == 0 {
        assert(es.take(1).first() == es[0]);
        assert(es.take(1).drop_first() =~= Seq::<(Seq<char>, PasswordView)>::empty());
        assert(es.take(0) =~= Seq::<(Seq<char>, PasswordView)>::empty());
        assert(spec_encode_entries_items(es.take(1)) =~= spec_encode_entries_items(es.take(0))
            + spec_encode_entry(es[0]));
    } else {
        let tail = es.drop_first();
        assert(es.take(i + 1).first() == es[0]);
        assert(es.take(i + 1).drop_first() =~= tail.take(i));
        assert(es.take(i).first() == es[0]);
        assert(es.take(i).drop_first() =~= tail.take(i - 1));
        lemma_encode_entries_items_snoc(tail, i - 1);
        assert(tail[i - 1] == es[i]);
        assert(spec_encode_entry(es[0]) + (spec_encode_entries_items(tail.take(i - 1))
            + spec_encode_entry(es[i])) =~= (spec_encode_entry(es[0])
            + spec_encode_entries_items(tail.take(i - 1))) + spec_encode_entry(es[i]));
    }
}

/// Appends the encoding of a count.
pub(crate) fn push_u64(out: &mut Vec<u8>, x: u64)
    ensures
        final(out)@ == old(out)@ + spec_encode_u64(x),
{
    let mut b = u64_to_le_bytes(x);
    out.append(&mut b);
}

/// Appends the encoding of a byte string.
pub(crate) fn push_bytes(out: &mut Vec<u8>, b: &[u8])
    ensures
        final(out)@ == old(out)@ + spec_encode_bytes(b@),
        b@.len() <= u64::MAX,
{
    let n = b.len();
    push_u64(out, n as u64);
    out.extend_from_slice(b);
}

/// Appends the encoding of a string.
pub(crate) fn push_string(out: &mut Vec<u8>, s: &str)
    ensures
        final(out)@ == old(out)@ + spec_encode_string(s@),
        encode_utf8(s@).len() <= u64::MAX,
{
    push_bytes(out, s.as_bytes());
}

/// Reads a count at `pos`.
pub(crate) fn read_u64(bytes: &[u8], pos: usize) -> (r: Option<(u64, usize)>)
    requires
        pos <= bytes@.len(),
    ensures
        match r {
            Some(t) => pos <= t.1 <= bytes@.len() && spec_parse_u64(bytes@.skip(pos as int))
                == Some((t.0, bytes@.skip(t.1 as int))),
            None => spec_parse_u64(bytes@.skip(pos as int)) is None,
        },
{
    if bytes.len() - pos >= 8 {
        let s = slice_subrange(bytes, pos, pos + 8);
        let x = u64_from_le_bytes(s);
        proof {
            assert(bytes@.skip(pos as int).subrange(0, 8) =~= bytes@.subrange(
                pos as int,
                pos as int + 8,
            ));
            assert(bytes@.skip(pos as int).skip(8) =~= bytes@.skip(pos as int + 8));
        }
        Some((x, pos + 8))
    } else {
        None
    }
}

/// Reads a length-prefixed byte string at `pos`.
pub(crate) fn read_bytes(bytes: &[u8], pos: usize) -> (r: Option<(Vec<u8>, usize)>)
    requires
        pos <= bytes@.len(),
    ensures
        match r {
            Some(t) => pos <= t.1 <= bytes@.len() && spec_parse_bytes(bytes@.skip(pos as int))
                == Some((t.0@, bytes@.skip(t.1 as int))),
            None => spec_parse_bytes(bytes@.skip(pos as int)) is None,
        },
{
    let (n, p1) = match read_u64(bytes, pos) {
        Some(t) => t,
        None => {
            return None;
        },
    };
    let remaining: u64 = (bytes.len() - p1) as u64;
    if n <= remaining {
        let m = n as usize;
        let v = slice_to_vec(slice_subrange(bytes, p1, p1 + m));
        proof {
            assert(bytes@.skip(p1 as int).subrange(0, n as int) =~= bytes@.subrange(
                p1 as int,
                p1 as int + m as int,
            ));
            assert(bytes@.skip(p1 as int).skip(n as int) =~= bytes@.skip(p1 as int + m as int));
        }
        Some((v, p1 + m))
    } else {
        None
    }
}

/// Reads a length-prefixed string at `pos`.
pub(crate) fn read_string(bytes: &[u8], pos: usize) -> (r: Option<(String, usize)>)
    requires
        pos <= bytes@.len(),
    ensures
        match r {
            Some(t) => pos <= t.1 <= bytes@.len() && spec_parse_string(bytes@.skip(pos as int))
                == Some((t.0@, bytes@.skip(t.1 as int))),
            None => spec_parse_string(bytes@.skip(pos as int)) is None,
        },
{
    let (v, p1) = match read_bytes(bytes, pos) {
        Some(t) => t,
        None => {
            return None;
        },
    };
    match crate::store::string_from_utf8(v) {
        Some(s) => Some((s, p1)),
        None => None,
    }
}

} // verus!
