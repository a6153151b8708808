//! Persistence of a directory cache as one checksummed blob. The payload
//! lists every entry (path, content hash, class set, identifier set) with
//! little-endian lengths and 4-byte characters; the first eight bytes hold
//! the FNV-1a checksum of the payload. Decoding verifies the checksum and
//! the payload's shape, and rejects the whole blob on any mismatch, so a
//! corrupted cache is discarded rather than trusted.

use vstd::prelude::*;

use crate::cache::{content_hash, fnv1a, DirCache, FileEntry};
use crate::strset::{strictly_sorted_names, views_of, NameSet};
use crate::text::{lemma_lex_trans, lex_lt, push_char, str_eq, str_lt};

verus! {

/// The eight little-endian bytes of a 64-bit value.
pub open spec fn le64(v: u64) -> Seq<u8> {
    seq![
        (v & 0xff) as u8,
        ((v >> 8) & 0xff) as u8,
        ((v >> 16) & 0xff) as u8,
        ((v >> 24) & 0xff) as u8,
        ((v >> 32) & 0xff) as u8,
        ((v >> 40) & 0xff) as u8,
        ((v >> 48) & 0xff) as u8,
        ((v >> 56) & 0xff) as u8,
    ]
}

/// The four little-endian bytes of a 32-bit value.
pub open spec fn le32(v: u32) -> Seq<u8> {
    seq![
        (v & 0xff) as u8,
        ((v >> 8) & 0xff) as u8,
        ((v >> 16) & 0xff) as u8,
        ((v >> 24) & 0xff) as u8,
    ]
}

/// The bytes of the first `n` characters, four per character.
pub open spec fn chars_bytes_upto(s: Seq<char>, n: int) -> Seq<u8>
    decreases n,
{
    if n <= 0 {
        Seq::<u8>::empty()
    } else {
        chars_bytes_upto(s, n - 1) + le32(s[n - 1] as u32)
    }
}

/// The encoding of one name: its length, then its characters.
pub open spec fn enc_name(s: Seq<char>) -> Seq<u8> {
    le64(s.len() as u64) + chars_bytes_upto(s, s.len() as int)
}

/// The encodings of the first `n` names.
pub open spec fn names_bytes_upto(ns: Seq<Seq<char>>, n: int) -> Seq<u8>
    decreases n,
{
    if n <= 0 {
        Seq::<u8>::empty()
    } else {
        names_bytes_upto(ns, n - 1) + enc_name(ns[n - 1])
    }
}

/// The encoding of a name list: its count, then each name.
pub open spec fn enc_names(ns: Seq<Seq<char>>) -> Seq<u8> {
    le64(ns.len() as u64) + names_bytes_upto(ns, ns.len() as int)
}

/// The encoding of one cache entry.
pub open spec fn enc_entry(e: FileEntry) -> Seq<u8> {
    enc_name(e.path@) + le64(e.content_hash) + enc_names(e.classes.seq_view()) + enc_names(
        e.ids.seq_view(),
    )
}

/// The encodings of the first `n` entries.
pub open spec fn entries_bytes_upto(es: Seq<FileEntry>, n: int) -> Seq<u8>
    decreases n,
{
    if n <= 0 {
        Seq::<u8>::empty()
    } else {
        entries_bytes_upto(es, n - 1) + enc_entry(es[n - 1])
    }
}

/// The payload: the entry count, then each entry.
pub open spec fn enc_payload(es: Seq<FileEntry>) -> Seq<u8> {
    le64(es.len() as u64) + entries_bytes_upto(es, es.len() as int)
}

/// The whole blob: the payload's checksum, then the payload.
pub open spec fn enc_cache(es: Seq<FileEntry>) -> Seq<u8> {
    le64(fnv1a(enc_payload(es))) + enc_payload(es)
}

fn push_u64(out: &mut Vec<u8>, v: u64)
    ensures
        final(out)@ == old(out)@ + le64(v),
{
    proof {
        assert(v & 0xff < 256 && (v >> 8) & 0xff < 256 && (v >> 16) & 0xff < 256 && (v >> 24)
            & 0xff < 256 && (v >> 32) & 0xff < 256 && (v >> 40) & 0xff < 256 && (v >> 48) & 0xff
            < 256 && (v >> 56) & 0xff < 256) by (bit_vector);
    }
    out.push((v & 0xff) as u8);
    out.push(((v >> 8) & 0xff) as u8);
    out.push(((v >> 16) & 0xff) as u8);
    out.push(((v >> 24) & 0xff) as u8);
    out.push(((v >> 32) & 0xff) as u8);
    out.push(((v >> 40) & 0xff) as u8);
    out.push(((v >> 48) & 0xff) as u8);
    out.push(((v >> 56) & 0xff) as u8);
    proof {
        assert(final(out)@ =~= old(out)@ + le64(v));
    }
}

fn push_u32(out: &mut Vec<u8>, v: u32)
    ensures
        final(out)@ == old(out)@ + le32(v),
{
    proof {
        assert(v & 0xff < 256 && (v >> 8) & 0xff < 256 && (v >> 16) & 0xff < 256 && (v >> 24)
            & 0xff < 256) by (bit_vector);
    }
    out.push((v & 0xff) as u8);
    out.push(((v >> 8) & 0xff) as u8);
    out.push(((v >> 16) & 0xff) as u8);
    out.push(((v >> 24) & 0xff) as u8);
    proof {
        assert(final(out)@ =~= old(out)@ + le32(v));
    }
}

fn push_name(out: &mut Vec<u8>, s: &String)
    ensures
        final(out)@ == old(out)@ + enc_name(s@),
{
    let len = s.as_str().unicode_len();
    push_u64(out, len as u64);
    let mut k: usize = 0;
    proof {
        assert(out@ =~= old(out)@ + le64(len as u64) + chars_bytes_upto(s@, 0));
    }
    while k < len
        invariant
            k <= len,
            len == s@.len(),
            out@ == old(out)@ + le64(len as u64) + chars_bytes_upto(s@, k as int),
        decreases len - k,
    {
        let c = s.as_str().get_char(k);
        let u = c as u32;
        push_u32(out, u);
        k += 1;
        proof {
            assert(out@ =~= old(out)@ + le64(len as u64) + chars_bytes_upto(s@, k as int));
        }
    }
    proof {
        assert(out@ =~= old(out)@ + enc_name(s@));
    }
}

fn push_names(out: &mut Vec<u8>, ns: &Vec<String>)
    ensures
        final(out)@ == old(out)@ + enc_names(views_of(ns@)),
{
    let ghost nv = views_of(ns@);
    push_u64(out, ns.len() as u64);
    let mut k: usize = 0;
    proof {
        assert(out@ =~= old(out)@ + le64(ns@.len() as u64) + names_bytes_upto(nv, 0));
    }
    while k < ns.len()
        invariant
            k <= ns@.len(),
            nv == views_of(ns@),
            out@ == old(out)@ + le64(ns@.len() as u64) + names_bytes_upto(nv, k as int),
        decreases ns@.len() - k,
    {
        push_name(out, &ns[k]);
        k += 1;
        proof {
            assert(ns@[k as int - 1]@ == nv[k as int - 1]);
            assert(out@ =~= old(out)@ + le64(ns@.len() as u64) + names_bytes_upto(nv, k as int));
        }
    }
    proof {
        assert(out@ =~= old(out)@ + enc_names(nv));
    }
}

/// Encodes a directory cache as one blob: the payload's FNV-1a checksum,
/// then the payload.
#[verifier::rlimit(60)]
pub fn encode_dir_cache(cache: &DirCache) -> (r: Vec<u8>)
    ensures
        r@ == enc_cache(cache.entries@),
{
    let ghost es = cache.entries@;
    let mut payload: Vec<u8> = Vec::new();
    push_u64(&mut payload, cache.entries.len() as u64);
    let mut k: usize = 0;
    proof {
        assert(payload@ =~= le64(es.len() as u64) + entries_bytes_upto(es, 0));
    }
    while k < cache.entries.len()
        invariant
            k <= cache.entries@.len(),
            es == cache.entries@,
            payload@ == le64(es.len() as u64) + entries_bytes_upto(es, k as int),
        decreases cache.entries@.len() - k,
    {
        let e = &cache.entries[k];
        push_name(&mut payload, &e.path);
        push_u64(&mut payload, e.content_hash);
        push_names(&mut payload, e.classes.sorted_items());
        push_names(&mut payload, e.ids.sorted_items());
        k += 1;
        proof {
            assert(views_of(es[k as int - 1].classes.items@) == es[k as int
                - 1].classes.seq_view());
            assert(views_of(es[k as int - 1].ids.items@) == es[k as int - 1].ids.seq_view());
            assert(payload@ =~= le64(es.len() as u64) + entries_bytes_upto(es, k as int));
        }
    }
    proof {
        assert(payload@ == enc_payload(es));
    }
    let checksum = content_hash(payload.as_slice());
    let mut out: Vec<u8> = Vec::new();
    push_u64(&mut out, checksum);
    let ghost outpre = out@;
    let ghost pl = payload@;
    out.append(&mut payload);
    proof {
        assert(out@ == outpre + pl);
        assert(out@ =~= enc_cache(es));
    }
    out
}

/// The value of eight little-endian bytes.
pub open spec fn val64(s: Seq<u8>) -> u64 {
    (s[0] as int + s[1] as int * 0x100 + s[2] as int * 0x10000 + s[3] as int * 0x1000000 + s[4]
        as int * 0x100000000 + s[5] as int * 0x10000000000 + s[6] as int * 0x1000000000000 + s[7]
        as int * 0x100000000000000) as u64
}

/// The value of four little-endian bytes.
pub open spec fn val32(s: Seq<u8>) -> u32 {
    (s[0] as int + s[1] as int * 0x100 + s[2] as int * 0x10000 + s[3] as int * 0x1000000) as u32
}

proof fn lemma_val64_le64(v: u64)
    ensures
        val64(le64(v)) == v,
{
    assert(((v & 0xff) as u8) as int + (((v >> 8) & 0xff) as u8) as int * 0x100 + (((v >> 16)
        & 0xff) as u8) as int * 0x10000 + (((v >> 24) & 0xff) as u8) as int * 0x1000000 + (((v
        >> 32) & 0xff) as u8) as int * 0x100000000 + (((v >> 40) & 0xff) as u8) as int
        * 0x10000000000 + (((v >> 48) & 0xff) as u8) as int * 0x1000000000000 + (((v >> 56)
        & 0xff) as u8) as int * 0x100000000000000 == v as int) by (bit_vector);
}

proof fn lemma_val32_le32(v: u32)
    ensures
        val32(le32(v)) == v,
{
    assert(((v & 0xff) as u8) as int + (((v >> 8) & 0xff) as u8) as int * 0x100 + (((v >> 16)
        & 0xff) as u8) as int * 0x10000 + (((v >> 24) & 0xff) as u8) as int * 0x1000000 == v
        as int) by (bit_vector);
}

proof fn lemma_chars_bytes_len(s: Seq<char>, n: int)
    requires
        0 <= n <= s.len(),
    ensures
        chars_bytes_upto(s, n).len() == 4 * n,
    decreases n,
{
    if n > 0 {
        lemma_chars_bytes_len(s, n - 1);
    }
}

proof fn lemma_chars_bytes_at(s: Seq<char>, n: int, k: int)
    requires
        0 <= k < n <= s.len(),
    ensures
        chars_bytes_upto(s, n).subrange(4 * k, 4 * k + 4) == le32(s[k] as u32),
    decreases n,
{
    lemma_chars_bytes_len(s, n);
    if k == n - 1 {
        lemma_chars_bytes_len(s, n - 1);
        assert(chars_bytes_upto(s, n).subrange(4 * k, 4 * k + 4) =~= le32(s[k] as u32));
    } else {
        lemma_chars_bytes_at(s, n - 1, k);
        lemma_chars_bytes_len(s, n - 1);
        assert(chars_bytes_upto(s, n).subrange(4 * k, 4 * k + 4) =~= chars_bytes_upto(
            s,
            n - 1,
        ).subrange(4 * k, 4 * k + 4));
    }
}

/// The name at the front of `b`, with what follows it.
pub open spec fn dec_name(b: Seq<u8>) -> Option<(Seq<char>, Seq<u8>)> {
    if b.len() < 8 {
        None
    } else {
        let n = val64(b.take(8)) as int;
        let rest = b.skip(8);
        if rest.len() < 4 * n {
            None
        } else {
            Some(
                (
                    Seq::new(n as nat, |k: int| val32(rest.subrange(4 * k, 4 * k + 4)) as char),
                    rest.skip(4 * n),
                ),
            )
        }
    }
}

proof fn lemma_dec_name(x: Seq<char>, rest: Seq<u8>)
    requires
        x.len() <= u64::MAX,
    ensures
        dec_name(enc_name(x) + rest) == Some((x, rest)),
{
    let b = enc_name(x) + rest;
    let n = x.len() as int;
    lemma_chars_bytes_len(x, n);
    assert(b.len() == 8 + 4 * n + rest.len());
    assert(b.take(8) =~= le64(x.len() as u64));
    lemma_val64_le64(x.len() as u64);
    assert(val64(b.take(8)) as int == n);
    let tail = b.skip(8);
    assert(tail =~= chars_bytes_upto(x, n) + rest);
    assert(tail.len() == 4 * n + rest.len());
    assert(tail.skip(4 * n) =~= rest);
    let got = Seq::new(n as nat, |k: int| val32(tail.subrange(4 * k, 4 * k + 4)) as char);
    assert(got =~= x) by {
        assert forall|k: int| 0 <= k < n implies got[k] == x[k] by {
            assert(tail.subrange(4 * k, 4 * k + 4) =~= chars_bytes_upto(x, n).subrange(
                4 * k,
                4 * k + 4,
            ));
            lemma_chars_bytes_at(x, n, k);
            lemma_val32_le32(x[k] as u32);
            assert(val32(tail.subrange(4 * k, 4 * k + 4)) == x[k] as u32);
            vstd::utf8::char_u32_cast(x[k], x[k] as u32);
            assert((x[k] as u32) as char == x[k]);
        }
    }
}

/// The names bytes of the names from `k` on.
pub open spec fn names_bytes_from(ns: Seq<Seq<char>>, k: int) -> Seq<u8>
    decreases ns.len() - k,
{
    if k < 0 || k >= ns.len() {
        Seq::<u8>::empty()
    } else {
        enc_name(ns[k]) + names_bytes_from(ns, k + 1)
    }
}

proof fn lemma_names_upto_from(ns: Seq<Seq<char>>, k: int)
    requires
        0 <= k <= ns.len(),
    ensures
        names_bytes_upto(ns, ns.len() as int) == names_bytes_upto(ns, k) + names_bytes_from(
            ns,
            k,
        ),
    decreases ns.len() - k,
{
    if k == ns.len() {
        assert(names_bytes_upto(ns, k) + names_bytes_from(ns, k) =~= names_bytes_upto(ns, k));
    } else {
        lemma_names_upto_from(ns, k + 1);
        assert(names_bytes_upto(ns, k) + (enc_name(ns[k]) + names_bytes_from(ns, k + 1))
            =~= (names_bytes_upto(ns, k) + enc_name(ns[k])) + names_bytes_from(ns, k + 1));
    }
}

/// The `n` names at the front of `b`, with what follows them.
pub open spec fn dec_names_go(b: Seq<u8>, n: int) -> Option<(Seq<Seq<char>>, Seq<u8>)>
    decreases n,
{
    if n <= 0 {
        Some((Seq::<Seq<char>>::empty(), b))
    } else {
        match dec_name(b) {
            None => None,
            Some(p) => match dec_names_go(p.1, n - 1) {
                None => None,
                Some(q) => Some((seq![p.0] + q.0, q.1)),
            },
        }
    }
}

/// Whether every name is short enough to carry its length in 64 bits.
pub open spec fn bounded_names(ns: Seq<Seq<char>>) -> bool {
    ns.len() <= u64::MAX && forall|k: int| 0 <= k < ns.len() ==> (#[trigger] ns[k]).len()
        <= u64::MAX
}

proof fn lemma_dec_names_from(ns: Seq<Seq<char>>, k: int, rest: Seq<u8>)
    requires
        bounded_names(ns),
        0 <= k <= ns.len(),
    ensures
        dec_names_go(names_bytes_from(ns, k) + rest, ns.len() - k) == Some((ns.skip(k), rest)),
    decreases ns.len() - k,
{
    if k == ns.len() {
        assert(names_bytes_from(ns, k) + rest =~= rest);
        assert(ns.skip(k) =~= Seq::<Seq<char>>::empty());
        assert(dec_names_go(rest, 0) == Some((Seq::<Seq<char>>::empty(), rest)));
    } else {
        let tail_bytes = names_bytes_from(ns, k + 1) + rest;
        assert(names_bytes_from(ns, k) + rest =~= enc_name(ns[k]) + tail_bytes);
        lemma_dec_name(ns[k], tail_bytes);
        lemma_dec_names_from(ns, k + 1, rest);
        assert(seq![ns[k]] + ns.skip(k + 1) =~= ns.skip(k));
    }
}

proof fn lemma_dec_names(ns: Seq<Seq<char>>, rest: Seq<u8>)
    requires
        bounded_names(ns),
    ensures
        dec_names_go((enc_names(ns) + rest).skip(8), val64((enc_names(ns) + rest).take(8)) as int)
            == Some((ns, rest)),
        (enc_names(ns) + rest).len() >= 8,
{
    let b = enc_names(ns) + rest;
    assert(b.take(8) =~= le64(ns.len() as u64));
    lemma_val64_le64(ns.len() as u64);
    lemma_names_upto_from(ns, 0);
    assert(names_bytes_upto(ns, 0).len() == 0);
    assert(names_bytes_upto(ns, 0) + names_bytes_from(ns, 0) =~= names_bytes_from(ns, 0));
    assert(b.skip(8) =~= names_bytes_from(ns, 0) + rest);
    lemma_dec_names_from(ns, 0, rest);
    assert(ns.skip(0) =~= ns);
}

/// The view of one entry: path, content hash, class names, identifiers.
pub open spec fn dec_entry(b: Seq<u8>) -> Option<
    ((Seq<char>, u64, Seq<Seq<char>>, Seq<Seq<char>>), Seq<u8>),
> {
    match dec_name(b) {
        None => None,
        Some(p) => {
            let after_path = p.1;
            if after_path.len() < 8 {
                None
            } else {
                let hash = val64(after_path.take(8));
                let b2 = after_path.skip(8);
                if b2.len() < 8 {
                    None
                } else {
                    match dec_names_go(b2.skip(8), val64(b2.take(8)) as int) {
                        None => None,
                        Some(q) => {
                            let b3 = q.1;
                            if b3.len() < 8 {
                                None
                            } else {
                                match dec_names_go(b3.skip(8), val64(b3.take(8)) as int) {
                                    None => None,
                                    Some(r) => Some(((p.0, hash, q.0, r.0), r.1)),
                                }
                            }
                        },
                    }
                }
            }
        },
    }
}

/// Whether an entry's lengths all fit in 64 bits.
pub open spec fn bounded_entry(e: FileEntry) -> bool {
    e.path@.len() <= u64::MAX && bounded_names(e.classes.seq_view()) && bounded_names(
        e.ids.seq_view(),
    )
}

#[verifier::rlimit(90)]
proof fn lemma_dec_entry(e: FileEntry, rest: Seq<u8>)
    requires
        bounded_entry(e),
    ensures
        dec_entry(enc_entry(e) + rest) == Some(
            ((e.path@, e.content_hash, e.classes.seq_view(), e.ids.seq_view()), rest),
        ),
{
    let b = enc_entry(e) + rest;
    let after_path_bytes = le64(e.content_hash) + enc_names(e.classes.seq_view()) + enc_names(
        e.ids.seq_view(),
    ) + rest;
    assert(b =~= enc_name(e.path@) + after_path_bytes);
    lemma_dec_name(e.path@, after_path_bytes);
    assert(after_path_bytes.take(8) =~= le64(e.content_hash));
    lemma_val64_le64(e.content_hash);
    let b2 = after_path_bytes.skip(8);
    assert(b2 =~= enc_names(e.classes.seq_view()) + (enc_names(e.ids.seq_view()) + rest));
    lemma_dec_names(e.classes.seq_view(), enc_names(e.ids.seq_view()) + rest);
    let b3 = enc_names(e.ids.seq_view()) + rest;
    lemma_dec_names(e.ids.seq_view(), rest);
}

/// The entry bytes of the entries from `k` on.
pub open spec fn entries_bytes_from(es: Seq<FileEntry>, k: int) -> Seq<u8>
    decreases es.len() - k,
{
    if k < 0 || k >= es.len() {
        Seq::<u8>::empty()
    } else {
        enc_entry(es[k]) + entries_bytes_from(es, k + 1)
    }
}

#[verifier::rlimit(90)]
proof fn lemma_entries_upto_from(es: Seq<FileEntry>, k: int)
    requires
        0 <= k <= es.len(),
    ensures
        entries_bytes_upto(es, es.len() as int) == entries_bytes_upto(es, k)
            + entries_bytes_from(es, k),
    decreases es.len() - k,
{
    if k == es.len() {
        assert(entries_bytes_upto(es, k) + entries_bytes_from(es, k) =~= entries_bytes_upto(
            es,
            k,
        ));
    } else {
        lemma_entries_upto_from(es, k + 1);
        assert(entries_bytes_upto(es, k) + (enc_entry(es[k]) + entries_bytes_from(es, k + 1))
            =~= (entries_bytes_upto(es, k) + enc_entry(es[k])) + entries_bytes_from(es, k + 1));
    }
}

/// The views of the `n` entries at the front of `b`.
pub open spec fn dec_entries_go(b: Seq<u8>, n: int) -> Option<
    (Seq<(Seq<char>, u64, Seq<Seq<char>>, Seq<Seq<char>>)>, Seq<u8>),
>
    decreases n,
{
    if n <= 0 {
        Some((Seq::<(Seq<char>, u64, Seq<Seq<char>>, Seq<Seq<char>>)>::empty(), b))
    } else {
        match dec_entry(b) {
            None => None,
            Some(p) => match dec_entries_go(p.1, n - 1) {
                None => None,
                Some(q) => Some((seq![p.0] + q.0, q.1)),
            },
        }
    }
}

/// The view of one entry.
pub open spec fn entry_view(e: FileEntry) -> (Seq<char>, u64, Seq<Seq<char>>, Seq<Seq<char>>) {
    (e.path@, e.content_hash, e.classes.seq_view(), e.ids.seq_view())
}

/// Whether every entry's lengths fit in 64 bits.
pub open spec fn bounded_entries(es: Seq<FileEntry>) -> bool {
    es.len() <= u64::MAX && forall|k: int| 0 <= k < es.len() ==> bounded_entry(#[trigger] es[k])
}

#[verifier::rlimit(90)]
proof fn lemma_dec_entries_from(es: Seq<FileEntry>, k: int, rest: Seq<u8>)
    requires
        bounded_entries(es),
        0 <= k <= es.len(),
    ensures
        dec_entries_go(entries_bytes_from(es, k) + rest, es.len() - k) == Some(
            (es.skip(k).map_values(|e: FileEntry| entry_view(e)), rest),
        ),
    decreases es.len() - k,
{
    if k == es.len() {
        assert(entries_bytes_from(es, k) + rest =~= rest);
        assert(es.skip(k).map_values(|e: FileEntry| entry_view(e)) =~= Seq::<
            (Seq<char>, u64, Seq<Seq<char>>, Seq<Seq<char>>),
        >::empty());
    } else {
        let tail_bytes = entries_bytes_from(es, k + 1) + rest;
        assert(entries_bytes_from(es, k) + rest =~= enc_entry(es[k]) + tail_bytes);
        lemma_dec_entry(es[k], tail_bytes);
        lemma_dec_entries_from(es, k + 1, rest);
        assert(seq![entry_view(es[k])] + es.skip(k + 1).map_values(
            |e: FileEntry| entry_view(e),
        ) =~= es.skip(k).map_values(|e: FileEntry| entry_view(e)));
    }
}

/// The encoding is injective up to entry views: two caches whose blobs are
/// the same bytes hold the same paths, hashes, class sets and identifier
/// sets, in the same order. Together with the decoder's contract — whatever
/// it returns re-encodes to the given bytes — whatever decodes from a
/// cache's blob holds exactly that cache's data.
pub proof fn lemma_enc_cache_injective(a: Seq<FileEntry>, b: Seq<FileEntry>)
    requires
        bounded_entries(a),
        bounded_entries(b),
        enc_cache(a) == enc_cache(b),
    ensures
        a.len() == b.len(),
        forall|k: int| 0 <= k < a.len() ==> entry_view(#[trigger] a[k]) == entry_view(b[k]),
{
    lemma_cache_views(a);
    lemma_cache_views(b);
    let va = a.map_values(|e: FileEntry| entry_view(e));
    let vb = b.map_values(|e: FileEntry| entry_view(e));
    assert(va == vb);
    assert(va.len() == a.len());
    assert(vb.len() == b.len());
    assert forall|k: int| 0 <= k < a.len() implies entry_view(#[trigger] a[k]) == entry_view(
        b[k],
    ) by {
        assert(va[k] == entry_view(a[k]));
        assert(vb[k] == entry_view(b[k]));
    }
}

proof fn lemma_cache_views(es: Seq<FileEntry>)
    requires
        bounded_entries(es),
    ensures
        enc_cache(es).len() >= 16,
        dec_entries_go(
            enc_cache(es).skip(16),
            val64(enc_cache(es).subrange(8, 16)) as int,
        ) == Some(
            (es.map_values(|e: FileEntry| entry_view(e)), Seq::<u8>::empty()),
        ),
{
    let blob = enc_cache(es);
    let payload = enc_payload(es);
    assert(blob =~= le64(fnv1a(payload)) + payload);
    assert(blob.subrange(8, 16) =~= le64(es.len() as u64));
    lemma_val64_le64(es.len() as u64);
    lemma_entries_upto_from(es, 0);
    assert(entries_bytes_upto(es, 0).len() == 0);
    assert(entries_bytes_upto(es, 0) + entries_bytes_from(es, 0) =~= entries_bytes_from(es, 0));
    assert(blob.skip(16) =~= entries_bytes_from(es, 0) + Seq::<u8>::empty());
    lemma_dec_entries_from(es, 0, Seq::<u8>::empty());
    assert(es.skip(0) =~= es);
    assert(es.skip(0).map_values(|e: FileEntry| entry_view(e)) =~= es.map_values(
        |e: FileEntry| entry_view(e),
    ));
}

/// A Unicode scalar value: any code point outside the surrogate range.
pub open spec fn valid_scalar(u: u32) -> bool {
    u < 0xD800 || (0xE000 <= u && u <= 0x10FFFF)
}

/// Whether a name list's count and every name's length fit this machine's
/// index range, so the decoder can hold them.
pub open spec fn usize_bounded_names(ns: Seq<Seq<char>>) -> bool {
    ns.len() <= usize::MAX && forall|k: int|
        0 <= k < ns.len() ==> (#[trigger] ns[k]).len() <= usize::MAX
}

/// Whether one entry's path length and name lists fit this machine's index
/// range.
pub open spec fn usize_bounded_entry(e: FileEntry) -> bool {
    e.path@.len() <= usize::MAX && usize_bounded_names(e.classes.seq_view())
        && usize_bounded_names(e.ids.seq_view())
}

/// Whether the cache's entry count and every length in it fit this
/// machine's index range: such a cache is decodable here.
pub open spec fn decodable_within_usize(es: Seq<FileEntry>) -> bool {
    es.len() <= usize::MAX && forall|k: int|
        0 <= k < es.len() ==> usize_bounded_entry(#[trigger] es[k])
}

/// `bytes` is exactly the blob of the well-formed, machine-decodable cache
/// `c`: the inputs on which the decoder owes success.
pub open spec fn encodes(bytes: Seq<u8>, c: DirCache) -> bool {
    c.wf() && bounded_entries(c.entries@) && decodable_within_usize(c.entries@) && bytes
        == enc_cache(c.entries@)
}

/// `b` begins with the encoding of the machine-decodable name `x`.
pub open spec fn begins_with_name(b: Seq<u8>, x: Seq<char>, rest: Seq<u8>) -> bool {
    x.len() <= usize::MAX && b == enc_name(x) + rest
}

/// `b` begins with the encoding of the machine-decodable name list `ns`.
pub open spec fn begins_with_names(b: Seq<u8>, ns: Seq<Seq<char>>, rest: Seq<u8>) -> bool {
    usize_bounded_names(ns) && b == enc_names(ns) + rest
}

/// Relies on `char::from_u32`: yields the character with the given code
/// point, and nothing when the value is no Unicode scalar value.
#[verifier::external_body]
fn char_from_u32(u: u32) -> (r: Option<char>)
    ensures
        match r {
            Some(c) => c as u32 == u,
            None => !valid_scalar(u),
        },
{
    char::from_u32(u)
}

/// The FNV-1a hash of the bytes from index `from` on.
fn content_hash_from(bytes: &Vec<u8>, from: usize) -> (r: u64)
    requires
        from <= bytes@.len(),
    ensures
        r == fnv1a(bytes@.skip(from as int)),
{
    let ghost tail = bytes@.skip(from as int);
    let mut h: u64 = 0xcbf29ce484222325;
    let mut i: usize = from;
    while i < bytes.len()
        invariant
            from <= i <= bytes@.len(),
            tail == bytes@.skip(from as int),
            h == crate::cache::fnv1a_upto(tail, i - from),
        decreases bytes@.len() - i,
    {
        let b = bytes[i];
        proof {
            assert(tail[i - from] == bytes@[i as int]);
        }
        h = (h ^ (b as u64)).wrapping_mul(0x100000001b3);
        i += 1;
    }
    h
}

fn read_u64(bytes: &Vec<u8>, i: usize) -> (r: Option<(u64, usize)>)
    ensures
        match r {
            Some(p) => i + 8 <= bytes@.len() && p.1 == i + 8 && le64(p.0) == bytes@.subrange(
                i as int,
                i as int + 8,
            ),
            None => bytes@.len() < i + 8,
        },
{
    if i >= bytes.len() || bytes.len() - i < 8 {
        return None;
    }
    let b0 = bytes[i];
    let b1 = bytes[i + 1];
    let b2 = bytes[i + 2];
    let b3 = bytes[i + 3];
    let b4 = bytes[i + 4];
    let b5 = bytes[i + 5];
    let b6 = bytes[i + 6];
    let b7 = bytes[i + 7];
    let v: u64 = (b0 as u64) | ((b1 as u64) << 8) | ((b2 as u64) << 16) | ((b3 as u64) << 24) | (
    (b4 as u64) << 32) | ((b5 as u64) << 40) | ((b6 as u64) << 48) | ((b7 as u64) << 56);
    proof {
        assert(v & 0xff == b0 as u64 && (v >> 8) & 0xff == b1 as u64 && (v >> 16) & 0xff == b2
            as u64 && (v >> 24) & 0xff == b3 as u64 && (v >> 32) & 0xff == b4 as u64 && (v >> 40)
            & 0xff == b5 as u64 && (v >> 48) & 0xff == b6 as u64 && (v >> 56) & 0xff == b7
            as u64) by (bit_vector)
            requires
                v == (b0 as u64) | ((b1 as u64) << 8) | ((b2 as u64) << 16) | ((b3 as u64) << 24)
                    | ((b4 as u64) << 32) | ((b5 as u64) << 40) | ((b6 as u64) << 48) | ((b7
                    as u64) << 56),
        ;
        assert(le64(v) =~= bytes@.subrange(i as int, i as int + 8));
    }
    Some((v, i + 8))
}

fn read_u32(bytes: &Vec<u8>, i: usize) -> (r: Option<(u32, usize)>)
    ensures
        match r {
            Some(p) => i + 4 <= bytes@.len() && p.1 == i + 4 && le32(p.0) == bytes@.subrange(
                i as int,
                i as int + 4,
            ),
            None => bytes@.len() < i + 4,
        },
{
    if i >= bytes.len() || bytes.len() - i < 4 {
        return None;
    }
    let b0 = bytes[i];
    let b1 = bytes[i + 1];
    let b2 = bytes[i + 2];
    let b3 = bytes[i + 3];
    let v: u32 = (b0 as u32) | ((b1 as u32) << 8) | ((b2 as u32) << 16) | ((b3 as u32) << 24);
    proof {
        assert(v & 0xff == b0 as u32 && (v >> 8) & 0xff == b1 as u32 && (v >> 16) & 0xff == b2
            as u32 && (v >> 24) & 0xff == b3 as u32) by (bit_vector)
            requires
                v == (b0 as u32) | ((b1 as u32) << 8) | ((b2 as u32) << 16) | ((b3 as u32) << 24),
        ;
        assert(le32(v) =~= bytes@.subrange(i as int, i as int + 4));
    }
    Some((v, i + 4))
}

proof fn lemma_subrange_join(b: Seq<u8>, i: int, j: int, k: int)
    requires
        0 <= i <= j <= k <= b.len(),
    ensures
        b.subrange(i, j) + b.subrange(j, k) == b.subrange(i, k),
{
    assert(b.subrange(i, j) + b.subrange(j, k) =~= b.subrange(i, k));
}

proof fn lemma_name_shape(b: Seq<u8>, x: Seq<char>, rest: Seq<u8>)
    requires
        b == enc_name(x) + rest,
    ensures
        b.len() == 8 + 4 * x.len() + rest.len(),
        b.take(8) == le64(x.len() as u64),
        val64(b.take(8)) == x.len() as u64,
        forall|k: int|
            0 <= k < x.len() ==> #[trigger] b.subrange(8 + 4 * k, 8 + 4 * k + 4) == le32(
                x[k] as u32,
            ),
        b.skip(8 + 4 * x.len() as int) == rest,
{
    let n = x.len() as int;
    lemma_chars_bytes_len(x, n);
    assert(b.take(8) =~= le64(x.len() as u64));
    lemma_val64_le64(x.len() as u64);
    assert forall|k: int| 0 <= k < n implies #[trigger] b.subrange(8 + 4 * k, 8 + 4 * k + 4)
        == le32(x[k] as u32) by {
        assert(b.subrange(8 + 4 * k, 8 + 4 * k + 4) =~= chars_bytes_upto(x, n).subrange(
            4 * k,
            4 * k + 4,
        ));
        lemma_chars_bytes_at(x, n, k);
    }
    assert(b.skip(8 + 4 * x.len() as int) =~= rest);
}

fn read_name(bytes: &Vec<u8>, i: usize) -> (r: Option<(String, usize)>)
    requires
        i <= bytes@.len(),
    ensures
        match r {
            Some(p) => i <= p.1 <= bytes@.len() && p.0@.len() <= usize::MAX && enc_name(p.0@)
                == bytes@.subrange(i as int, p.1 as int),
            None => true,
        },
        (exists|x: Seq<char>, rest: Seq<u8>|
            begins_with_name(bytes@.skip(i as int), x, rest)) ==> r is Some,
{
    let ghost b = bytes@.skip(i as int);
    let total = bytes.len();
    proof {
        assert(b.len() == bytes@.len() - i);
    }
    let (n64, mut j) = match read_u64(bytes, i) {
        Option::Some(p) => p,
        Option::None => {
            proof {
                if exists|x: Seq<char>, rest: Seq<u8>| begins_with_name(b, x, rest) {
                    let (x, rest) = choose|x: Seq<char>, rest: Seq<u8>|
                        begins_with_name(b, x, rest);
                    lemma_name_shape(b, x, rest);
                    assert(false);
                }
            }
            return None;
        },
    };
    if n64 > usize::MAX as u64 {
        proof {
            if exists|x: Seq<char>, rest: Seq<u8>| begins_with_name(b, x, rest) {
                let (x, rest) = choose|x: Seq<char>, rest: Seq<u8>| begins_with_name(b, x, rest);
                lemma_name_shape(b, x, rest);
                assert(bytes@.subrange(i as int, i as int + 8) =~= b.take(8));
                lemma_val64_le64(n64);
                assert(n64 == x.len() as u64);
                assert(false);
            }
        }
        return None;
    }
    let n = n64 as usize;
    let mut s = String::new();
    let mut k: usize = 0;
    proof {
        assert(s@ =~= Seq::<char>::empty());
        assert(le64(n64) + chars_bytes_upto(s@, 0) =~= bytes@.subrange(i as int, j as int));
    }
    while k < n
        invariant
            k <= n,
            n == n64,
            total == bytes@.len(),
            b == bytes@.skip(i as int),
            i + 8 <= j <= bytes@.len(),
            s@.len() == k,
            le64(n64) + chars_bytes_upto(s@, k as int) == bytes@.subrange(i as int, j as int),
        decreases n - k,
    {
        proof {
            lemma_chars_bytes_len(s@, k as int);
            assert(le64(n64).len() == 8);
            assert((le64(n64) + chars_bytes_upto(s@, k as int)).len() == 8 + 4 * k);
            assert(bytes@.subrange(i as int, j as int).len() == j - i);
            assert(j - i == 8 + 4 * k);
        }
        let (u, j2) = match read_u32(bytes, j) {
            Option::Some(p) => p,
            Option::None => {
                proof {
                    if exists|x: Seq<char>, rest: Seq<u8>| begins_with_name(b, x, rest) {
                        let (x, rest) = choose|x: Seq<char>, rest: Seq<u8>|
                            begins_with_name(b, x, rest);
                        lemma_name_shape(b, x, rest);
                        assert(bytes@.subrange(i as int, i as int + 8) =~= b.take(8));
                        lemma_val64_le64(n64);
                        assert(n64 == x.len() as u64);
                        assert(n == x.len());
                        assert(bytes@.len() >= j + 4);
                        assert(false);
                    }
                }
                return None;
            },
        };
        let c = match char_from_u32(u) {
            Option::Some(c) => c,
            Option::None => {
                proof {
                    if exists|x: Seq<char>, rest: Seq<u8>| begins_with_name(b, x, rest) {
                        let (x, rest) = choose|x: Seq<char>, rest: Seq<u8>|
                            begins_with_name(b, x, rest);
                        lemma_name_shape(b, x, rest);
                        assert(bytes@.subrange(i as int, i as int + 8) =~= b.take(8));
                        lemma_val64_le64(n64);
                        assert(n == x.len());
                        assert(bytes@.subrange(j as int, j as int + 4) =~= b.subrange(
                            8 + 4 * k,
                            8 + 4 * k + 4,
                        ));
                        assert(le32(u) == le32(x[k as int] as u32));
                        lemma_val32_le32(u);
                        lemma_val32_le32(x[k as int] as u32);
                        assert(u == x[k as int] as u32);
                        vstd::utf8::char_is_scalar(x[k as int]);
                        assert(valid_scalar(x[k as int] as u32));
                        assert(false);
                    }
                }
                return None;
            },
        };
        let ghost pres = s@;
        push_char(&mut s, c);
        proof {
            assert(s@ == pres.push(c));
            assert(forall|m: int| 0 <= m < k ==> s@[m] == pres[m]);
            lemma_chars_bytes_prefix(s@, pres, k as int);
            assert(s@[k as int] == c);
            assert(chars_bytes_upto(s@, k as int + 1) == chars_bytes_upto(pres, k as int) + le32(
                c as u32,
            ));
            assert(le32(c as u32) == le32(u));
            assert(le64(n64) + chars_bytes_upto(s@, k as int + 1) =~= (le64(n64)
                + chars_bytes_upto(pres, k as int)) + le32(u));
            assert((le64(n64) + chars_bytes_upto(pres, k as int)) + le32(u) == bytes@.subrange(
                i as int,
                j as int,
            ) + bytes@.subrange(j as int, j2 as int));
            lemma_subrange_join(bytes@, i as int, j as int, j2 as int);
            assert(le64(n64) + chars_bytes_upto(s@, k as int + 1) == bytes@.subrange(
                i as int,
                j2 as int,
            ));
        }
        j = j2;
        k += 1;
    }
    proof {
        assert(n64 == s@.len() as u64);
        assert(enc_name(s@) == bytes@.subrange(i as int, j as int));
    }
    Some((s, j))
}

proof fn lemma_chars_bytes_prefix(a: Seq<char>, b: Seq<char>, n: int)
    requires
        n <= a.len(),
        n <= b.len(),
        forall|m: int| 0 <= m < n ==> a[m] == b[m],
    ensures
        chars_bytes_upto(a, n) == chars_bytes_upto(b, n),
    decreases n,
{
    if n > 0 {
        lemma_chars_bytes_prefix(a, b, n - 1);
        assert(a[n - 1] == b[n - 1]);
    }
}

proof fn lemma_names_bytes_prefix(a: Seq<Seq<char>>, b: Seq<Seq<char>>, n: int)
    requires
        n <= a.len(),
        n <= b.len(),
        forall|m: int| 0 <= m < n ==> a[m] == b[m],
    ensures
        names_bytes_upto(a, n) == names_bytes_upto(b, n),
    decreases n,
{
    if n > 0 {
        lemma_names_bytes_prefix(a, b, n - 1);
        assert(a[n - 1] == b[n - 1]);
    }
}

/// Two name-list encodings of the same bytes list the same names: the
/// length prefixes make the format prefix-free.
proof fn lemma_names_unique(
    a: Seq<Seq<char>>,
    b: Seq<Seq<char>>,
    ka: int,
    kb: int,
    ta: Seq<u8>,
    tb: Seq<u8>,
)
    requires
        0 <= ka <= a.len(),
        0 <= kb <= b.len(),
        a.len() - ka <= b.len() - kb,
        forall|m: int| ka <= m < a.len() ==> (#[trigger] a[m]).len() <= u64::MAX,
        forall|m: int| kb <= m < b.len() ==> (#[trigger] b[m]).len() <= u64::MAX,
        names_bytes_from(a, ka) + ta == names_bytes_from(b, kb) + tb,
    ensures
        forall|m: int| ka <= m < a.len() ==> #[trigger] a[m] == b[m - ka + kb],
        names_bytes_from(b, kb + (a.len() - ka)) + tb == ta,
    decreases a.len() - ka,
{
    if ka == a.len() {
        assert(names_bytes_from(a, ka) + ta =~= ta);
    } else {
        let x = names_bytes_from(a, ka) + ta;
        let resta = names_bytes_from(a, ka + 1) + ta;
        let restb = names_bytes_from(b, kb + 1) + tb;
        assert(x =~= enc_name(a[ka]) + resta);
        assert(x =~= enc_name(b[kb]) + restb);
        lemma_dec_name(a[ka], resta);
        lemma_dec_name(b[kb], restb);
        assert(a[ka] == b[kb]);
        assert(resta == restb);
        lemma_names_unique(a, b, ka + 1, kb + 1, ta, tb);
    }
}

#[verifier::rlimit(100)]
fn read_names(bytes: &Vec<u8>, i: usize) -> (r: Option<(Vec<String>, usize)>)
    requires
        i <= bytes@.len(),
    ensures
        match r {
            Some(p) => i <= p.1 <= bytes@.len() && usize_bounded_names(views_of(p.0@))
                && enc_names(views_of(p.0@)) == bytes@.subrange(i as int, p.1 as int),
            None => true,
        },
        (exists|ns: Seq<Seq<char>>, rest: Seq<u8>|
            begins_with_names(bytes@.skip(i as int), ns, rest)) ==> r is Some,
{
    let ghost b = bytes@.skip(i as int);
    proof {
        assert(b.len() == bytes@.len() - i);
    }
    let (n64, mut j) = match read_u64(bytes, i) {
        Option::Some(p) => p,
        Option::None => {
            proof {
                if exists|ns: Seq<Seq<char>>, rest: Seq<u8>| begins_with_names(b, ns, rest) {
                    let (ns0, rest) = choose|ns0: Seq<Seq<char>>, rest: Seq<u8>|
                        begins_with_names(b, ns0, rest);
                    assert(b.len() >= 8) by {
                        assert(le64(ns0.len() as u64).len() == 8);
                    }
                    assert(false);
                }
            }
            return None;
        },
    };
    if n64 > usize::MAX as u64 {
        proof {
            if exists|ns: Seq<Seq<char>>, rest: Seq<u8>| begins_with_names(b, ns, rest) {
                let (ns0, rest) = choose|ns0: Seq<Seq<char>>, rest: Seq<u8>|
                    begins_with_names(b, ns0, rest);
                assert(bytes@.subrange(i as int, i as int + 8) =~= b.take(8));
                assert(b.take(8) =~= le64(ns0.len() as u64));
                lemma_val64_le64(n64);
                lemma_val64_le64(ns0.len() as u64);
                assert(n64 == ns0.len() as u64);
                assert(false);
            }
        }
        return None;
    }
    let n = n64 as usize;
    let mut ns: Vec<String> = Vec::new();
    let mut k: usize = 0;
    proof {
        assert(views_of(ns@) =~= Seq::<Seq<char>>::empty());
        assert(le64(n64) + names_bytes_upto(views_of(ns@), 0) =~= bytes@.subrange(
            i as int,
            j as int,
        ));
    }
    while k < n
        invariant
            k <= n,
            n == n64,
            b == bytes@.skip(i as int),
            i + 8 <= j <= bytes@.len(),
            ns@.len() == k,
            forall|m: int| 0 <= m < k ==> (#[trigger] views_of(ns@)[m]).len() <= usize::MAX,
            le64(n64) + names_bytes_upto(views_of(ns@), k as int) == bytes@.subrange(
                i as int,
                j as int,
            ),
        decreases n - k,
    {
        let (s, j2) = match read_name(bytes, j) {
            Option::Some(p) => p,
            Option::None => {
                proof {
                    if exists|ns0: Seq<Seq<char>>, rest: Seq<u8>| begins_with_names(
                        b,
                        ns0,
                        rest,
                    ) {
                        let (ns0, rest) = choose|ns0: Seq<Seq<char>>, rest: Seq<u8>|
                            begins_with_names(b, ns0, rest);
                        let parsed = views_of(ns@);
                        // the count read equals the witness's count
                        assert(bytes@.subrange(i as int, i as int + 8) =~= b.take(8));
                        assert(b.take(8) =~= le64(ns0.len() as u64));
                        lemma_val64_le64(n64);
                        lemma_val64_le64(ns0.len() as u64);
                        assert(n == ns0.len());
                        // align the parsed prefix with the witness's names
                        assert(names_bytes_upto(parsed, k as int) =~= bytes@.subrange(
                            i as int + 8,
                            j as int,
                        )) by {
                            let lhs = le64(n64) + names_bytes_upto(parsed, k as int);
                            assert(le64(n64).len() == 8);
                            assert(lhs.len() == j - i);
                            assert(names_bytes_upto(parsed, k as int).len() == j - i - 8);
                            assert forall|m: int|
                                0 <= m < j - i - 8 implies names_bytes_upto(parsed, k as int)[m]
                                == bytes@.subrange(i as int + 8, j as int)[m] by {
                                assert(lhs[m + 8] == names_bytes_upto(parsed, k as int)[m]);
                                assert(bytes@.subrange(i as int, j as int)[m + 8] == bytes@[i
                                    + 8 + m]);
                            }
                        }
                        lemma_names_upto_from(parsed, 0);
                        assert(names_bytes_upto(parsed, 0) + names_bytes_from(parsed, 0)
                            =~= names_bytes_from(parsed, 0));
                        lemma_names_upto_from(ns0, 0);
                        assert(names_bytes_upto(ns0, 0) + names_bytes_from(ns0, 0)
                            =~= names_bytes_from(ns0, 0));
                        lemma_subrange_join(bytes@, i as int + 8, j as int, bytes@.len() as int);
                        assert(names_bytes_from(parsed, 0) + bytes@.skip(j as int)
                            =~= names_bytes_from(ns0, 0) + rest) by {
                            assert(bytes@.subrange(i as int + 8, bytes@.len() as int)
                                =~= b.skip(8));
                            assert(b.skip(8) =~= names_bytes_upto(ns0, ns0.len() as int) + rest);
                            assert(bytes@.subrange(j as int, bytes@.len() as int)
                                =~= bytes@.skip(j as int));
                        }
                        assert(forall|m: int|
                            0 <= m < parsed.len() ==> (#[trigger] parsed[m]).len()
                                <= u64::MAX);
                        assert(forall|m: int|
                            0 <= m < ns0.len() ==> (#[trigger] ns0[m]).len() <= u64::MAX);
                        lemma_names_unique(
                            parsed,
                            ns0,
                            0,
                            0,
                            bytes@.skip(j as int),
                            rest,
                        );
                        assert(names_bytes_from(ns0, k as int) + rest == bytes@.skip(j as int));
                        assert(bytes@.skip(j as int) == enc_name(ns0[k as int])
                            + (names_bytes_from(ns0, k as int + 1) + rest)) by {
                            assert(names_bytes_from(ns0, k as int) + rest =~= enc_name(
                                ns0[k as int],
                            ) + (names_bytes_from(ns0, k as int + 1) + rest));
                        }
                        assert(begins_with_name(
                            bytes@.skip(j as int),
                            ns0[k as int],
                            names_bytes_from(ns0, k as int + 1) + rest,
                        ));
                        assert(false);
                    }
                }
                return None;
            },
        };
        let ghost sval = s;
        let ghost pre = ns@;
        ns.push(s);
        proof {
            crate::strset::lemma_views_push(pre, sval);
            assert(views_of(ns@) == views_of(pre).push(sval@));
            assert(forall|m: int| 0 <= m < k ==> views_of(ns@)[m] == views_of(pre)[m]);
            lemma_names_bytes_prefix(views_of(ns@), views_of(pre), k as int);
            assert(views_of(ns@)[k as int] == sval@);
            assert(names_bytes_upto(views_of(ns@), k as int + 1) == names_bytes_upto(
                views_of(pre),
                k as int,
            ) + enc_name(sval@));
            assert(le64(n64) + names_bytes_upto(views_of(ns@), k as int + 1) =~= (le64(n64)
                + names_bytes_upto(views_of(pre), k as int)) + enc_name(sval@));
            assert((le64(n64) + names_bytes_upto(views_of(pre), k as int)) + enc_name(sval@)
                == bytes@.subrange(i as int, j as int) + bytes@.subrange(j as int, j2 as int));
            lemma_subrange_join(bytes@, i as int, j as int, j2 as int);
            assert(le64(n64) + names_bytes_upto(views_of(ns@), k as int + 1) == bytes@.subrange(
                i as int,
                j2 as int,
            ));
        }
        j = j2;
        k += 1;
    }
    proof {
        assert(n64 == ns@.len() as u64);
        assert(enc_names(views_of(ns@)) == bytes@.subrange(i as int, j as int));
    }
    Some((ns, j))
}

proof fn lemma_lex_lt_span(s: Seq<Seq<char>>, x: int, y: int)
    requires
        forall|k: int| 0 <= k < s.len() - 1 ==> lex_lt(#[trigger] s[k], s[k + 1]),
        0 <= x < y < s.len(),
    ensures
        lex_lt(s[x], s[y]),
    decreases y - x,
{
    if y == x + 1 {
        assert(lex_lt(s[x], s[x + 1]));
    } else {
        lemma_lex_lt_span(s, x, y - 1);
        assert(lex_lt(s[y - 1], s[y]));
        lemma_lex_trans(s[x], s[y - 1], s[y]);
    }
}

/// Checks that the names are in strictly ascending order, as a stored name
/// set must be.
fn check_sorted(ns: &Vec<String>) -> (r: bool)
    ensures
        r == strictly_sorted_names(views_of(ns@)),
{
    let ghost nv = views_of(ns@);
    if ns.len() == 0 {
        return true;
    }
    let mut k: usize = 0;
    while k < ns.len() - 1
        invariant
            0 < ns@.len(),
            k < ns@.len(),
            nv == views_of(ns@),
            forall|m: int| 0 <= m < k ==> lex_lt(#[trigger] nv[m], nv[m + 1]),
        decreases ns@.len() - k,
    {
        if !str_lt(ns[k].as_str(), ns[k + 1].as_str()) {
            proof {
                assert(!lex_lt(nv[k as int], nv[k as int + 1]));
            }
            return false;
        }
        k += 1;
    }
    proof {
        assert forall|x: int, y: int| 0 <= x < y < nv.len() implies lex_lt(nv[x], nv[y]) by {
            lemma_lex_lt_span(nv, x, y);
        }
    }
    true
}

/// Whether some already-decoded entry holds this path.
fn entries_contain_path(entries: &Vec<FileEntry>, path: &str) -> (r: bool)
    ensures
        r == exists|k: int|
            0 <= k < entries@.len() && (#[trigger] entries@[k]).path@ == path@,
{
    let mut k: usize = 0;
    while k < entries.len()
        invariant
            k <= entries@.len(),
            forall|m: int| 0 <= m < k ==> (#[trigger] entries@[m]).path@ != path@,
        decreases entries@.len() - k,
    {
        if str_eq(entries[k].path.as_str(), path) {
            proof {
                assert((entries@[k as int]).path@ == path@);
            }
            return true;
        }
        k += 1;
    }
    proof {
        if exists|m: int| 0 <= m < entries@.len() && (#[trigger] entries@[m]).path@ == path@ {
            let m = choose|m: int|
                0 <= m < entries@.len() && (#[trigger] entries@[m]).path@ == path@;
            assert(false);
        }
    }
    false
}

/// Two entry-list encodings of the same bytes list the same entry data.
#[verifier::rlimit(100)]
proof fn lemma_entries_unique(
    a: Seq<FileEntry>,
    b: Seq<FileEntry>,
    ka: int,
    kb: int,
    ta: Seq<u8>,
    tb: Seq<u8>,
)
    requires
        0 <= ka <= a.len(),
        0 <= kb <= b.len(),
        a.len() - ka <= b.len() - kb,
        forall|m: int| ka <= m < a.len() ==> bounded_entry(#[trigger] a[m]),
        forall|m: int| kb <= m < b.len() ==> bounded_entry(#[trigger] b[m]),
        entries_bytes_from(a, ka) + ta == entries_bytes_from(b, kb) + tb,
    ensures
        forall|m: int|
            ka <= m < a.len() ==> #[trigger] entry_view(a[m]) == entry_view(b[m - ka + kb]),
        entries_bytes_from(b, kb + (a.len() - ka)) + tb == ta,
    decreases a.len() - ka,
{
    if ka == a.len() {
        assert(entries_bytes_from(a, ka) + ta =~= ta);
    } else {
        let x = entries_bytes_from(a, ka) + ta;
        let resta = entries_bytes_from(a, ka + 1) + ta;
        let restb = entries_bytes_from(b, kb + 1) + tb;
        assert(x =~= enc_entry(a[ka]) + resta);
        assert(x =~= enc_entry(b[kb]) + restb);
        lemma_dec_entry(a[ka], resta);
        lemma_dec_entry(b[kb], restb);
        assert(entry_view(a[ka]) == entry_view(b[kb]));
        assert(resta == restb);
        lemma_entries_unique(a, b, ka + 1, kb + 1, ta, tb);
    }
}

/// What follows an entry's path in its encoding.
pub open spec fn entry_tail1(es: Seq<FileEntry>, k: int) -> Seq<u8> {
    le64(es[k].content_hash) + (enc_names(es[k].classes.seq_view()) + (enc_names(
        es[k].ids.seq_view(),
    ) + entries_bytes_from(es, k + 1)))
}

/// What follows an entry's path and hash in its encoding.
pub open spec fn entry_tail2(es: Seq<FileEntry>, k: int) -> Seq<u8> {
    enc_names(es[k].classes.seq_view()) + (enc_names(es[k].ids.seq_view())
        + entries_bytes_from(es, k + 1))
}

/// What follows an entry's path, hash and classes in its encoding.
pub open spec fn entry_tail3(es: Seq<FileEntry>, k: int) -> Seq<u8> {
    enc_names(es[k].ids.seq_view()) + entries_bytes_from(es, k + 1)
}

/// While the decoder stands at offset `j` with `parsed` entries read, any
/// cache whose blob the bytes are has the same count, agrees with every
/// parsed entry, and continues at `j` with its remaining entries.
#[verifier::rlimit(100)]
proof fn lemma_decode_align(
    bytes: Seq<u8>,
    c: DirCache,
    parsed: Seq<FileEntry>,
    count64: u64,
    j: int,
)
    requires
        encodes(bytes, c),
        16 <= j <= bytes.len(),
        parsed.len() <= count64,
        forall|m: int| 0 <= m < parsed.len() ==> bounded_entry(#[trigger] parsed[m]),
        le64(count64) + entries_bytes_upto(parsed, parsed.len() as int) == bytes.subrange(8, j),
    ensures
        count64 == c.entries@.len() as u64,
        parsed.len() <= c.entries@.len(),
        bytes.skip(j) == entries_bytes_from(c.entries@, parsed.len() as int),
        forall|m: int|
            0 <= m < parsed.len() ==> #[trigger] entry_view(parsed[m]) == entry_view(
                c.entries@[m],
            ),
{
    let es = c.entries@;
    let k = parsed.len() as int;
    assert(bytes =~= le64(fnv1a(enc_payload(es))) + enc_payload(es));
    assert(bytes.subrange(8, 16) =~= le64(es.len() as u64));
    assert(le64(count64) =~= bytes.subrange(8, 16)) by {
        let lhs = le64(count64) + entries_bytes_upto(parsed, k);
        assert(le64(count64).len() == 8);
        assert forall|m: int| 0 <= m < 8 implies le64(count64)[m] == bytes.subrange(8, 16)[m] by {
            assert(lhs[m] == le64(count64)[m]);
            assert(bytes.subrange(8, j)[m] == bytes[8 + m]);
        }
    }
    lemma_val64_le64(count64);
    lemma_val64_le64(es.len() as u64);
    assert(count64 == es.len() as u64);
    assert(k <= es.len());
    // the parsed prefix's bytes
    assert(entries_bytes_upto(parsed, k) =~= bytes.subrange(16, j)) by {
        let lhs = le64(count64) + entries_bytes_upto(parsed, k);
        assert(le64(count64).len() == 8);
        assert(lhs.len() == j - 8);
        assert(entries_bytes_upto(parsed, k).len() == j - 16);
        assert forall|m: int|
            0 <= m < j - 16 implies entries_bytes_upto(parsed, k)[m] == bytes.subrange(
            16,
            j,
        )[m] by {
            assert(lhs[m + 8] == entries_bytes_upto(parsed, k)[m]);
            assert(bytes.subrange(8, j)[m + 8] == bytes[16 + m]);
        }
    }
    // the whole payload body
    lemma_entries_upto_from(es, 0);
    assert(entries_bytes_upto(es, 0) + entries_bytes_from(es, 0) =~= entries_bytes_from(es, 0));
    assert(bytes.skip(16) =~= entries_bytes_from(es, 0) + Seq::<u8>::empty());
    lemma_entries_upto_from(parsed, 0);
    assert(entries_bytes_upto(parsed, 0) + entries_bytes_from(parsed, 0)
        =~= entries_bytes_from(parsed, 0));
    lemma_subrange_join(bytes, 16, j, bytes.len() as int);
    assert(bytes.subrange(j, bytes.len() as int) =~= bytes.skip(j));
    assert(bytes.subrange(16, bytes.len() as int) =~= bytes.skip(16));
    assert(entries_bytes_from(parsed, 0) + bytes.skip(j) == entries_bytes_from(es, 0) + Seq::<
        u8,
    >::empty());
    assert(forall|m: int| 0 <= m < es.len() ==> bounded_entry(#[trigger] es[m]));
    lemma_entries_unique(parsed, es, 0, 0, bytes.skip(j), Seq::<u8>::empty());
    assert(bytes.skip(j) =~= entries_bytes_from(es, k));
}

/// After the alignment, the bytes at `j` begin with the path of entry `k`.
proof fn lemma_entry_decomp(
    bytes: Seq<u8>,
    c: DirCache,
    parsed: Seq<FileEntry>,
    count64: u64,
    j: int,
)
    requires
        encodes(bytes, c),
        16 <= j <= bytes.len(),
        parsed.len() < count64,
        forall|m: int| 0 <= m < parsed.len() ==> bounded_entry(#[trigger] parsed[m]),
        le64(count64) + entries_bytes_upto(parsed, parsed.len() as int) == bytes.subrange(8, j),
    ensures
        parsed.len() < c.entries@.len(),
        usize_bounded_entry(c.entries@[parsed.len() as int]),
        bounded_entry(c.entries@[parsed.len() as int]),
        c.entries@[parsed.len() as int].wf(),
        bytes.skip(j) == enc_name(c.entries@[parsed.len() as int].path@) + entry_tail1(
            c.entries@,
            parsed.len() as int,
        ),
{
    lemma_decode_align(bytes, c, parsed, count64, j);
    let es = c.entries@;
    let k = parsed.len() as int;
    assert(usize_bounded_entry(es[k]));
    assert(bounded_entry(es[k]));
    assert((#[trigger] es[k]).wf()) by {
        assert(c.wf());
    }
    assert(entries_bytes_from(es, k) =~= enc_entry(es[k]) + entries_bytes_from(es, k + 1));
    assert(enc_entry(es[k]) + entries_bytes_from(es, k + 1) =~= enc_name(es[k].path@)
        + entry_tail1(es, k));
}

/// After the path is read, the bytes continue with the entry's hash.
proof fn lemma_entry_after_path(
    bytes: Seq<u8>,
    c: DirCache,
    parsed: Seq<FileEntry>,
    count64: u64,
    j: int,
    pathv: Seq<char>,
    ja: int,
)
    requires
        encodes(bytes, c),
        16 <= j <= ja <= bytes.len(),
        parsed.len() < count64,
        forall|m: int| 0 <= m < parsed.len() ==> bounded_entry(#[trigger] parsed[m]),
        le64(count64) + entries_bytes_upto(parsed, parsed.len() as int) == bytes.subrange(8, j),
        pathv.len() <= u64::MAX,
        enc_name(pathv) == bytes.subrange(j, ja),
    ensures
        parsed.len() < c.entries@.len(),
        pathv == c.entries@[parsed.len() as int].path@,
        bytes.skip(ja) == entry_tail1(c.entries@, parsed.len() as int),
{
    lemma_entry_decomp(bytes, c, parsed, count64, j);
    let es = c.entries@;
    let k = parsed.len() as int;
    lemma_subrange_join(bytes, j, ja, bytes.len() as int);
    assert(bytes.subrange(ja, bytes.len() as int) =~= bytes.skip(ja));
    assert(bytes.subrange(j, bytes.len() as int) =~= bytes.skip(j));
    assert(bytes.skip(j) == enc_name(pathv) + bytes.skip(ja));
    lemma_dec_name(pathv, bytes.skip(ja));
    lemma_dec_name(es[k].path@, entry_tail1(es, k));
    assert(pathv == es[k].path@);
    assert(bytes.skip(ja) == entry_tail1(es, k));
}

/// After the hash is read, the bytes continue with the entry's classes.
proof fn lemma_entry_after_hash(
    bytes: Seq<u8>,
    c: DirCache,
    parsed: Seq<FileEntry>,
    count64: u64,
    j: int,
    pathv: Seq<char>,
    ja: int,
    jb: int,
)
    requires
        encodes(bytes, c),
        16 <= j <= ja <= bytes.len(),
        ja <= jb <= bytes.len(),
        parsed.len() < count64,
        forall|m: int| 0 <= m < parsed.len() ==> bounded_entry(#[trigger] parsed[m]),
        le64(count64) + entries_bytes_upto(parsed, parsed.len() as int) == bytes.subrange(8, j),
        pathv.len() <= u64::MAX,
        enc_name(pathv) == bytes.subrange(j, ja),
        jb == ja + 8,
    ensures
        parsed.len() < c.entries@.len(),
        bytes.skip(jb) == entry_tail2(c.entries@, parsed.len() as int),
{
    lemma_entry_after_path(bytes, c, parsed, count64, j, pathv, ja);
    let es = c.entries@;
    let k = parsed.len() as int;
    assert(bytes.skip(ja) == le64(es[k].content_hash) + entry_tail2(es, k)) by {
        assert(entry_tail1(es, k) =~= le64(es[k].content_hash) + entry_tail2(es, k));
    }
    assert(bytes.skip(jb) =~= entry_tail2(es, k)) by {
        assert(le64(es[k].content_hash).len() == 8);
        assert(bytes.skip(ja).len() == bytes.len() - ja);
        assert(entry_tail2(es, k).len() == bytes.len() - ja - 8);
        assert forall|m: int|
            0 <= m < bytes.len() - jb implies bytes.skip(jb)[m] == entry_tail2(es, k)[m] by {
            assert(bytes.skip(ja)[m + 8] == bytes[ja + 8 + m]);
            assert(bytes.skip(jb)[m] == bytes[jb + m]);
        }
    }
}

/// After the classes are read, they are the entry's class names and the
/// bytes continue with its identifiers.
proof fn lemma_entry_after_classes(
    bytes: Seq<u8>,
    c: DirCache,
    parsed: Seq<FileEntry>,
    count64: u64,
    j: int,
    pathv: Seq<char>,
    ja: int,
    jb: int,
    clsv: Seq<Seq<char>>,
    jc: int,
)
    requires
        encodes(bytes, c),
        16 <= j <= ja <= bytes.len(),
        ja <= jb <= jc <= bytes.len(),
        parsed.len() < count64,
        forall|m: int| 0 <= m < parsed.len() ==> bounded_entry(#[trigger] parsed[m]),
        le64(count64) + entries_bytes_upto(parsed, parsed.len() as int) == bytes.subrange(8, j),
        pathv.len() <= u64::MAX,
        enc_name(pathv) == bytes.subrange(j, ja),
        jb == ja + 8,
        bounded_names(clsv),
        enc_names(clsv) == bytes.subrange(jb, jc),
    ensures
        parsed.len() < c.entries@.len(),
        clsv == c.entries@[parsed.len() as int].classes.seq_view(),
        bytes.skip(jc) == entry_tail3(c.entries@, parsed.len() as int),
{
    lemma_entry_after_hash(bytes, c, parsed, count64, j, pathv, ja, jb);
    let es = c.entries@;
    let k = parsed.len() as int;
    lemma_subrange_join(bytes, jb, jc, bytes.len() as int);
    assert(bytes.subrange(jc, bytes.len() as int) =~= bytes.skip(jc));
    assert(bytes.subrange(jb, bytes.len() as int) =~= bytes.skip(jb));
    assert(bytes.skip(jb) == enc_names(clsv) + bytes.skip(jc));
    lemma_dec_names(clsv, bytes.skip(jc));
    lemma_dec_names(es[k].classes.seq_view(), entry_tail3(es, k));
    assert(clsv == es[k].classes.seq_view());
    assert(bytes.skip(jc) == entry_tail3(es, k));
}

/// A cache blob is at least sixteen bytes: checksum, then entry count.
proof fn lemma_blob_floor(bytes: Seq<u8>, c: DirCache)
    requires
        encodes(bytes, c),
    ensures
        bytes.len() >= 16,
        bytes.subrange(0, 8) == le64(fnv1a(enc_payload(c.entries@))),
        bytes.subrange(8, 16) == le64(c.entries@.len() as u64),
{
    let es = c.entries@;
    assert(bytes =~= le64(fnv1a(enc_payload(es))) + (le64(es.len() as u64) + entries_bytes_upto(
        es,
        es.len() as int,
    )));
    assert(le64(fnv1a(enc_payload(es))).len() == 8);
    assert(le64(es.len() as u64).len() == 8);
    assert(bytes.subrange(0, 8) =~= le64(fnv1a(enc_payload(es))));
    assert(bytes.subrange(8, 16) =~= le64(es.len() as u64));
}

/// Decodes a directory cache blob. The result is served only when the
/// checksum matches the payload and the payload is exactly the encoding of
/// a well-formed cache: whatever is returned re-encodes to the given bytes.
/// A blob whose first eight bytes do not hold its payload's checksum — a
/// corrupted cache — is always rejected. Conversely, on the exact blob of
/// any well-formed cache whose counts and lengths this machine can index,
/// decoding succeeds.
#[verifier::rlimit(100)]
pub fn decode_dir_cache(bytes: &Vec<u8>) -> (r: Option<DirCache>)
    ensures
        match r {
            Some(c) => c.wf() && enc_cache(c.entries@) == bytes@,
            None => true,
        },
        (bytes@.len() < 8 || bytes@.take(8) != le64(fnv1a(bytes@.skip(8)))) ==> r is None,
        forall|c: DirCache| #[trigger] encodes(bytes@, c) ==> r is Some,
{

    let (stored, j0) = match read_u64(bytes, 0) {
        Option::Some(p) => p,
        Option::None => {
            proof {
                assert(bytes@.len() < 8);
                assert forall|c: DirCache| !(#[trigger] encodes(bytes@, c)) by {
                    if encodes(bytes@, c) {
                        lemma_blob_floor(bytes@, c);
                        assert(false);
                    }
                }
            }
            return None;
        },
    };
    let computed = content_hash_from(bytes, 8);
    if stored != computed {
        proof {
            assert(bytes@.take(8) =~= bytes@.subrange(0, 8));
            assert(le64(stored) == bytes@.take(8));
            assert forall|c: DirCache| !(#[trigger] encodes(bytes@, c)) by {
                if encodes(bytes@, c) {
                    let payload = enc_payload(c.entries@);
                    let checksum = fnv1a(payload);
                    assert(bytes@.subrange(0, 8) =~= le64(checksum));
                    lemma_val64_le64(stored);
                    lemma_val64_le64(checksum);
                    assert(stored == checksum);
                    assert(bytes@.skip(8) =~= payload);
                    assert(computed == checksum);
                    assert(false);
                }
            }
        }
        return None;
    }
    proof {
        assert(bytes@.take(8) =~= bytes@.subrange(0, 8));
    }
    let (count64, j1) = match read_u64(bytes, j0) {
        Option::Some(p) => p,
        Option::None => {
            proof {
                assert forall|c: DirCache| !(#[trigger] encodes(bytes@, c)) by {
                    if encodes(bytes@, c) {
                        lemma_blob_floor(bytes@, c);
                        assert(false);
                    }
                }
            }
            return None;
        },
    };
    if count64 > usize::MAX as u64 {
        proof {
            assert forall|c: DirCache| !(#[trigger] encodes(bytes@, c)) by {
                if encodes(bytes@, c) {
                    lemma_blob_floor(bytes@, c);
                    assert(bytes@.subrange(8, 16) =~= le64(c.entries@.len() as u64));
                    lemma_val64_le64(count64);
                    lemma_val64_le64(c.entries@.len() as u64);
                    assert(count64 == c.entries@.len() as u64);
                    assert(false);
                }
            }
        }
        return None;
    }
    let count = count64 as usize;
    let mut entries: Vec<FileEntry> = Vec::new();
    let mut j: usize = j1;
    let mut k: usize = 0;
    proof {
        assert(le64(count64) + entries_bytes_upto(entries@, 0) =~= bytes@.subrange(
            8,
            j as int,
        ));
    }
    while k < count
        invariant
            k <= count,
            count == count64,
            16 <= j <= bytes@.len(),
            entries@.len() == k,
            le64(count64) + entries_bytes_upto(entries@, k as int) == bytes@.subrange(
                8,
                j as int,
            ),
            forall|x: int, y: int|
                0 <= x < y < entries@.len() ==> (#[trigger] entries@[x]).path@ != (
                #[trigger] entries@[y]).path@,
            forall|x: int| 0 <= x < entries@.len() ==> (#[trigger] entries@[x]).wf(),
            forall|x: int| 0 <= x < entries@.len() ==> bounded_entry(#[trigger] entries@[x]),
        decreases count - k,
    {
        let (path, ja) = match read_name(bytes, j) {
            Option::Some(p) => p,
            Option::None => {
                proof {
                    assert forall|c: DirCache| !(#[trigger] encodes(bytes@, c)) by {
                        if encodes(bytes@, c) {
                            lemma_entry_decomp(bytes@, c, entries@, count64, j as int);
                            let es = c.entries@;
                            assert(begins_with_name(
                                bytes@.skip(j as int),
                                es[k as int].path@,
                                entry_tail1(es, k as int),
                            ));
                            assert(false);
                        }
                    }
                }
                return None;
            },
        };
        if entries_contain_path(&entries, path.as_str()) {
            proof {
                assert forall|c: DirCache| !(#[trigger] encodes(bytes@, c)) by {
                    if encodes(bytes@, c) {
                        lemma_entry_after_path(
                            bytes@,
                            c,
                            entries@,
                            count64,
                            j as int,
                            path@,
                            ja as int,
                        );
                        let es = c.entries@;
                        let m = choose|m: int|
                            0 <= m < entries@.len() && (#[trigger] entries@[m]).path@ == path@;
                        lemma_decode_align(bytes@, c, entries@, count64, j as int);
                        assert(entry_view(entries@[m]) == entry_view(es[m]));
                        assert(es[m].path@ == path@);
                        assert(es[k as int].path@ == path@);
                        c.lemma_unique(m, k as int);
                        assert(false);
                    }
                }
            }
            return None;
        }
        let (hash, jb) = match read_u64(bytes, ja) {
            Option::Some(p) => p,
            Option::None => {
                proof {
                    assert forall|c: DirCache| !(#[trigger] encodes(bytes@, c)) by {
                        if encodes(bytes@, c) {
                            lemma_entry_after_path(
                                bytes@,
                                c,
                                entries@,
                                count64,
                                j as int,
                                path@,
                                ja as int,
                            );
                            let es = c.entries@;
                            assert(bytes@.skip(ja as int).len() >= 8) by {
                                assert(le64(es[k as int].content_hash).len() == 8);
                                assert(entry_tail1(es, k as int).len() >= 8);
                            }
                            assert(false);
                        }
                    }
                }
                return None;
            },
        };
        let (class_names, jc) = match read_names(bytes, jb) {
            Option::Some(p) => p,
            Option::None => {
                proof {
                    assert forall|c: DirCache| !(#[trigger] encodes(bytes@, c)) by {
                        if encodes(bytes@, c) {
                            lemma_entry_after_hash(
                                bytes@,
                                c,
                                entries@,
                                count64,
                                j as int,
                                path@,
                                ja as int,
                                jb as int,
                            );
                            let es = c.entries@;
                            assert(begins_with_names(
                                bytes@.skip(jb as int),
                                es[k as int].classes.seq_view(),
                                enc_names(es[k as int].ids.seq_view()) + entries_bytes_from(
                                    es,
                                    k as int + 1,
                                ),
                            )) by {
                                lemma_decode_align(bytes@, c, entries@, count64, j as int);
                                assert(usize_bounded_entry(es[k as int]));
                                assert(entry_tail2(es, k as int) =~= enc_names(
                                    es[k as int].classes.seq_view(),
                                ) + (enc_names(es[k as int].ids.seq_view())
                                    + entries_bytes_from(es, k as int + 1)));
                            }
                            assert(false);
                        }
                    }
                }
                return None;
            },
        };
        if !check_sorted(&class_names) {
            proof {
                assert forall|c: DirCache| !(#[trigger] encodes(bytes@, c)) by {
                    if encodes(bytes@, c) {
                        lemma_entry_after_classes(
                            bytes@,
                            c,
                            entries@,
                            count64,
                            j as int,
                            path@,
                            ja as int,
                            jb as int,
                            views_of(class_names@),
                            jc as int,
                        );
                        let es = c.entries@;
                        assert((#[trigger] es[k as int]).wf()) by {
                            assert(c.wf());
                        }
                        assert(strictly_sorted_names(es[k as int].classes.seq_view()));
                        assert(false);
                    }
                }
            }
            return None;
        }
        let (id_names, jd) = match read_names(bytes, jc) {
            Option::Some(p) => p,
            Option::None => {
                proof {
                    assert forall|c: DirCache| !(#[trigger] encodes(bytes@, c)) by {
                        if encodes(bytes@, c) {
                            lemma_entry_after_classes(
                                bytes@,
                                c,
                                entries@,
                                count64,
                                j as int,
                                path@,
                                ja as int,
                                jb as int,
                                views_of(class_names@),
                                jc as int,
                            );
                            let es = c.entries@;
                            assert(begins_with_names(
                                bytes@.skip(jc as int),
                                es[k as int].ids.seq_view(),
                                entries_bytes_from(es, k as int + 1),
                            )) by {
                                lemma_decode_align(bytes@, c, entries@, count64, j as int);
                                assert(usize_bounded_entry(es[k as int]));
                            }
                            assert(false);
                        }
                    }
                }
                return None;
            },
        };
        if !check_sorted(&id_names) {
            proof {
                assert forall|c: DirCache| !(#[trigger] encodes(bytes@, c)) by {
                    if encodes(bytes@, c) {
                        lemma_entry_after_classes(
                            bytes@,
                            c,
                            entries@,
                            count64,
                            j as int,
                            path@,
                            ja as int,
                            jb as int,
                            views_of(class_names@),
                            jc as int,
                        );
                        let es = c.entries@;
                        assert(bytes@.skip(jc as int) == enc_names(es[k as int].ids.seq_view())
                            + entries_bytes_from(es, k as int + 1)) by {
                            assert(entry_tail3(es, k as int) =~= enc_names(
                                es[k as int].ids.seq_view(),
                            ) + entries_bytes_from(es, k as int + 1));
                        }
                        assert(bytes@.skip(jc as int) == enc_names(views_of(id_names@))
                            + bytes@.skip(jd as int)) by {
                            lemma_subrange_join(bytes@, jc as int, jd as int, bytes@.len() as int);
                            assert(bytes@.subrange(jd as int, bytes@.len() as int)
                                =~= bytes@.skip(jd as int));
                            assert(bytes@.subrange(jc as int, bytes@.len() as int)
                                =~= bytes@.skip(jc as int));
                        }
                        lemma_dec_names(views_of(id_names@), bytes@.skip(jd as int));
                        lemma_decode_align(bytes@, c, entries@, count64, j as int);
                        assert(bounded_entry(es[k as int]));
                        lemma_dec_names(
                            es[k as int].ids.seq_view(),
                            entries_bytes_from(es, k as int + 1),
                        );
                        assert(views_of(id_names@) == es[k as int].ids.seq_view());
                        assert((#[trigger] es[k as int]).wf()) by {
                            assert(c.wf());
                        }
                        assert(strictly_sorted_names(es[k as int].ids.seq_view()));
                        assert(false);
                    }
                }
            }
            return None;
        }
        let classes = NameSet { items: class_names };
        let ids = NameSet { items: id_names };
        let entry = FileEntry { path, content_hash: hash, classes, ids };
        let ghost eval = entry;
        let ghost pre = entries@;
        entries.push(entry);
        proof {
            assert(entries@ == pre.push(eval));
            assert(entries@[k as int] == eval);
            assert(eval.wf());
            assert(bounded_entry(eval));
            assert(enc_entry(eval) == bytes@.subrange(j as int, jd as int)) by {
                assert(enc_name(eval.path@) == bytes@.subrange(j as int, ja as int));
                assert(le64(eval.content_hash) == bytes@.subrange(ja as int, jb as int));
                assert(enc_names(eval.classes.seq_view()) == bytes@.subrange(
                    jb as int,
                    jc as int,
                ));
                assert(enc_names(eval.ids.seq_view()) == bytes@.subrange(jc as int, jd as int));
                assert(enc_entry(eval) =~= bytes@.subrange(j as int, jd as int));
            }
            assert(forall|m: int| 0 <= m < k ==> entries@[m] == pre[m]);
            lemma_entries_bytes_prefix(entries@, pre, k as int);
            assert(entries_bytes_upto(entries@, k as int + 1) == entries_bytes_upto(
                pre,
                k as int,
            ) + enc_entry(eval));
            assert(le64(count64) + entries_bytes_upto(entries@, k as int + 1) =~= (le64(count64)
                + entries_bytes_upto(pre, k as int)) + enc_entry(eval));
            assert((le64(count64) + entries_bytes_upto(pre, k as int)) + enc_entry(eval)
                == bytes@.subrange(8, j as int) + bytes@.subrange(j as int, jd as int));
            lemma_subrange_join(bytes@, 8, j as int, jd as int);
            assert(le64(count64) + entries_bytes_upto(entries@, k as int + 1) == bytes@.subrange(
                8,
                jd as int,
            ));
        }
        j = jd;
        k += 1;
    }
    if j != bytes.len() {
        proof {
            assert forall|c: DirCache| !(#[trigger] encodes(bytes@, c)) by {
                if encodes(bytes@, c) {
                    lemma_decode_align(bytes@, c, entries@, count64, j as int);
                    let es = c.entries@;
                    assert(count64 == es.len() as u64);
                    assert(entries_bytes_from(es, k as int).len() == 0);
                    assert(bytes@.skip(j as int).len() == 0);
                    assert(false);
                }
            }
        }
        return None;
    }
    let cache = DirCache { entries };
    proof {
        assert(cache.wf());
        assert(count64 == cache.entries@.len() as u64);
        assert(enc_payload(cache.entries@) == bytes@.subrange(8, bytes@.len() as int));
        assert(bytes@.subrange(8, bytes@.len() as int) =~= bytes@.skip(8));
        assert(le64(stored) == bytes@.subrange(0, 8));
        assert(stored == fnv1a(bytes@.skip(8)));
        assert(enc_cache(cache.entries@) =~= bytes@);
    }
    Some(cache)
}

proof fn lemma_entries_bytes_prefix(a: Seq<FileEntry>, b: Seq<FileEntry>, n: int)
    requires
        n <= a.len(),
        n <= b.len(),
        forall|m: int| 0 <= m < n ==> a[m] == b[m],
    ensures
        entries_bytes_upto(a, n) == entries_bytes_upto(b, n),
    decreases n,
{
    if n > 0 {
        lemma_entries_bytes_prefix(a, b, n - 1);
        assert(a[n - 1] == b[n - 1]);
    }
}

} // verus!
