//! Encoding and decoding against a trained merge table. Encoding repeatedly
//! rewrites the pair whose merge has the lowest rank — the earliest-trained
//! merge — until no pair of the sequence is in the table; decoding maps every
//! id back to its bytes.

use vstd::prelude::*;

use crate::base::{lemma_merge_decreases, merge, merge_seq, occurs};
use crate::errors::TokenizerError;
use crate::vocab::{byte_ids, bytes_to_ids, ids_valid, lemma_merge_valid, wf_vocab};
use vstd::utf8::{decode_utf8, encode_utf8, valid_utf8};

verus! {

/// The lowest rank whose pair occurs in `s`, or `None` when no pair of the
/// table occurs.
pub open spec fn lowest_rank(s: Seq<i32>, merges: Seq<(i32, i32)>) -> Option<int>
    decreases merges.len(),
{
    if merges.len() == 0 {
        None
    } else if occurs(s, merges[0]) {
        Some(0)
    } else {
        match lowest_rank(s, merges.drop_first()) {
            Some(k) => Some(k + 1),
            None => None,
        }
    }
}

/// What `lowest_rank` returns: the first rank, in rank order, whose pair
/// occurs in `s`.
pub proof fn lemma_lowest_rank_char(s: Seq<i32>, merges: Seq<(i32, i32)>)
    ensures
        match lowest_rank(s, merges) {
            Some(k) => 0 <= k < merges.len() && occurs(s, merges[k]) && (forall|j: int|
                0 <= j < k ==> !occurs(s, #[trigger] merges[j])),
            None => forall|j: int| 0 <= j < merges.len() ==> !occurs(s, #[trigger] merges[j]),
        },
    decreases merges.len(),
{
    if merges.len() > 0 && !occurs(s, merges[0]) {
        let rest = merges.drop_first();
        lemma_lowest_rank_char(s, rest);
        match lowest_rank(s, rest) {
            Some(k) => {
                assert(merges[k + 1] == rest[k]);
                assert forall|j: int| 0 <= j < k + 1 implies !occurs(s, #[trigger] merges[j]) by {
                    if j >= 1 {
                        assert(merges[j] == rest[j - 1]);
                    }
                }
            },
            None => {
                assert forall|j: int| 0 <= j < merges.len() implies !occurs(
                    s,
                    #[trigger] merges[j],
                ) by {
                    if j >= 1 {
                        assert(merges[j] == rest[j - 1]);
                    }
                }
            },
        }
    }
}

/// Exhaustive application of the merge table to `s`: as long as some pair
/// of `s` is in the table, rewrite all occurrences of the one with the
/// lowest rank — the merge trained earliest — and repeat.
pub open spec fn encode_steps(s: Seq<i32>, merges: Seq<(i32, i32)>) -> Seq<i32>
    decreases s.len(),
    via encode_steps_decreases
{
    match lowest_rank(s, merges) {
        Some(k) => encode_steps(merge_seq(s, merges[k], (256 + k) as i32), merges),
        None => s,
    }
}

#[via_fn]
proof fn encode_steps_decreases(s: Seq<i32>, merges: Seq<(i32, i32)>) {
    match lowest_rank(s, merges) {
        Some(k) => {
            lemma_lowest_rank_char(s, merges);
            lemma_merge_decreases(s, merges[k], (256 + k) as i32);
        },
        None => {},
    }
}

/// Whether the pair `p` occurs anywhere in `ids` at adjacent positions.
pub fn has_pair(ids: &Vec<i32>, p: (i32, i32)) -> (r: bool)
    ensures
        r == occurs(ids@, p),
{
    let n = ids.len();
    let mut i: usize = 0;
    while n > 0 && i < n - 1
        invariant
            i <= n,
            n == ids@.len(),
            forall|j: int| 0 <= j && j + 1 < i + 1 && j + 1 < n ==> !(#[trigger] ids@[j] == p.0
                && ids@[j + 1] == p.1),
        decreases n - i,
    {
        if ids[i] == p.0 && ids[i + 1] == p.1 {
            assert(occurs(ids@, p));
            return true;
        }
        i = i + 1;
    }
    false
}

/// The rank of the earliest-trained merge whose pair occurs in `ids`.
pub fn find_rank(ids: &Vec<i32>, merges: &Vec<(i32, i32)>) -> (r: Option<usize>)
    ensures
        match r {
            Some(k) => lowest_rank(ids@, merges@) == Some(k as int),
            None => lowest_rank(ids@, merges@) is None,
        },
{
    let n = merges.len();
    let mut k: usize = 0;
    while k < n
        invariant
            k <= n,
            n == merges@.len(),
            forall|j: int| 0 <= j < k ==> !occurs(ids@, #[trigger] merges@[j]),
        decreases n - k,
    {
        if has_pair(ids, merges[k]) {
            proof {
                lemma_lowest_rank_char(ids@, merges@);
            }
            return Some(k);
        }
        k = k + 1;
    }
    proof {
        lemma_lowest_rank_char(ids@, merges@);
    }
    None
}

/// Apply the whole merge table to `start`, lowest rank first, until no pair
/// of the sequence is in the table.
pub fn apply_merges(start: Vec<i32>, merges: &Vec<(i32, i32)>) -> (r: Vec<i32>)
    requires
        256 + merges@.len() <= i32::MAX,
    ensures
        r@ == encode_steps(start@, merges@),
{
    let mut ids = start;
    loop
        invariant
            256 + merges@.len() <= i32::MAX,
            encode_steps(ids@, merges@) == encode_steps(start@, merges@),
        ensures
            ids@ == encode_steps(start@, merges@),
        decreases ids@.len(),
    {
        let ghost ids0 = ids@;
        match find_rank(&ids, merges) {
            None => {
                break ;
            },
            Some(k) => {
                proof {
                    lemma_lowest_rank_char(ids0, merges@);
                    lemma_merge_decreases(ids0, merges@[k as int], (256 + k as int) as i32);
                }
                let pair = merges[k];
                let idx: i32 = 256 + (k as i32);
                let new_ids = merge(ids.as_slice(), pair, idx);
                ids = new_ids;
            },
        }
    }
    ids
}

/// Concatenated byte forms of the symbols of `s` under `vocab`.
pub open spec fn bytes_of(s: Seq<i32>, vocab: Seq<Seq<u8>>) -> Seq<u8>
    decreases s.len(),
{
    if s.len() == 0 {
        Seq::<u8>::empty()
    } else {
        vocab[s[0] as int] + bytes_of(s.drop_first(), vocab)
    }
}

/// Merging a pair does not change the bytes a sequence stands for, as long
/// as the fresh id's entry is the concatenation of the pair's entries.
pub proof fn lemma_merge_preserves_bytes(s: Seq<i32>, p: (i32, i32), idx: i32, vocab: Seq<Seq<u8>>)
    requires
        ids_valid(s, vocab.len() as int),
        0 <= p.0 < vocab.len(),
        0 <= p.1 < vocab.len(),
        0 <= idx < vocab.len(),
        vocab[idx as int] == vocab[p.0 as int] + vocab[p.1 as int],
    ensures
        bytes_of(merge_seq(s, p, idx), vocab) == bytes_of(s, vocab),
    decreases s.len(),
{
    let m = merge_seq(s, p, idx);
    if s.len() >= 2 && s[0] == p.0 && s[1] == p.1 {
        let rest = s.skip(2);
        assert(ids_valid(rest, vocab.len() as int)) by {
            assert(forall|i: int| 0 <= i < rest.len() ==> rest[i] == s[i + 2]);
        }
        lemma_merge_preserves_bytes(rest, p, idx, vocab);
        assert(m.drop_first() =~= merge_seq(rest, p, idx));
        assert(m[0] == idx);
        assert(s.drop_first().drop_first() =~= rest);
        assert(s.drop_first()[0] == s[1]);
        assert(bytes_of(s.drop_first(), vocab) == vocab[s[1] as int] + bytes_of(rest, vocab));
        assert(bytes_of(s, vocab) == vocab[s[0] as int] + (vocab[s[1] as int] + bytes_of(
            rest,
            vocab,
        )));
        assert(vocab[idx as int] + bytes_of(rest, vocab) =~= vocab[s[0] as int] + (vocab[s[1]
            as int] + bytes_of(rest, vocab)));
    } else if s.len() >= 1 {
        let rest = s.skip(1);
        assert(ids_valid(rest, vocab.len() as int)) by {
            assert(forall|i: int| 0 <= i < rest.len() ==> rest[i] == s[i + 1]);
        }
        lemma_merge_preserves_bytes(rest, p, idx, vocab);
        assert(m.drop_first() =~= merge_seq(rest, p, idx));
        assert(m[0] == s[0]);
        assert(s.drop_first() =~= rest);
    }
}

/// Applying the merge table exhaustively keeps both the bytes a sequence
/// stands for and the validity of its ids.
pub proof fn lemma_encode_steps_preserves(s: Seq<i32>, merges: Seq<(i32, i32)>, vocab: Seq<Seq<u8>>)
    requires
        wf_vocab(merges, vocab),
        256 + merges.len() <= i32::MAX,
        ids_valid(s, vocab.len() as int),
    ensures
        bytes_of(encode_steps(s, merges), vocab) == bytes_of(s, vocab),
        ids_valid(encode_steps(s, merges), vocab.len() as int),
    decreases s.len(),
{
    match lowest_rank(s, merges) {
        None => {},
        Some(k) => {
            lemma_lowest_rank_char(s, merges);
            let p = merges[k];
            let idx = (256 + k) as i32;
            assert(0 <= p.0 < vocab.len() && 0 <= p.1 < vocab.len());
            assert(256 + k < vocab.len());
            assert(idx == 256 + k);
            lemma_merge_preserves_bytes(s, p, idx, vocab);
            lemma_merge_valid(s, p, idx, vocab.len() as int, vocab.len() as int);
            lemma_merge_decreases(s, p, idx);
            lemma_encode_steps_preserves(merge_seq(s, p, idx), merges, vocab);
        },
    }
}

/// A raw byte sequence read as ids stands for exactly those bytes under any
/// vocabulary whose first 256 entries are the byte identities.
pub proof fn lemma_byte_ids_bytes(b: Seq<u8>, vocab: Seq<Seq<u8>>)
    requires
        vocab.len() >= 256,
        forall|i: int| 0 <= i < 256 ==> #[trigger] vocab[i] == seq![i as u8],
    ensures
        bytes_of(byte_ids(b), vocab) == b,
        ids_valid(byte_ids(b), 256),
    decreases b.len(),
{
    if b.len() > 0 {
        lemma_byte_ids_bytes(b.drop_first(), vocab);
        assert(byte_ids(b).drop_first() =~= byte_ids(b.drop_first()));
        assert(byte_ids(b)[0] == b[0] as i32);
        assert(vocab[b[0] as int] == seq![b[0]]);
        assert(seq![b[0]] + b.drop_first() =~= b);
    } else {
        assert(byte_ids(b).len() == 0);
    }
}

/// First special token carrying the id `id`, in table order.
pub open spec fn special_with_id(sp: Seq<(Seq<u8>, i32)>, id: i32) -> Option<int>
    decreases sp.len(),
{
    if sp.len() == 0 {
        None
    } else if sp[0].1 == id {
        Some(0)
    } else {
        match special_with_id(sp.drop_first(), id) {
            Some(j) => Some(j + 1),
            None => None,
        }
    }
}

/// What `special_with_id` returns: the first entry with the id.
pub proof fn lemma_special_with_id_char(sp: Seq<(Seq<u8>, i32)>, id: i32)
    ensures
        match special_with_id(sp, id) {
            Some(j) => 0 <= j < sp.len() && sp[j].1 == id && (forall|i: int|
                0 <= i < j ==> (#[trigger] sp[i]).1 != id),
            None => forall|i: int| 0 <= i < sp.len() ==> (#[trigger] sp[i]).1 != id,
        },
    decreases sp.len(),
{
    if sp.len() > 0 && sp[0].1 != id {
        let rest = sp.drop_first();
        lemma_special_with_id_char(rest, id);
        match special_with_id(rest, id) {
            Some(j) => {
                assert(sp[j + 1] == rest[j]);
                assert forall|i: int| 0 <= i < j + 1 implies (#[trigger] sp[i]).1 != id by {
                    if i >= 1 {
                        assert(sp[i] == rest[i - 1]);
                    }
                }
            },
            None => {
                assert forall|i: int| 0 <= i < sp.len() implies (#[trigger] sp[i]).1 != id by {
                    if i >= 1 {
                        assert(sp[i] == rest[i - 1]);
                    }
                }
            },
        }
    }
}

/// The id is defined: by the vocabulary, or by a special token.
pub open spec fn id_known(id: i32, vocab: Seq<Seq<u8>>, sp: Seq<(Seq<u8>, i32)>) -> bool {
    0 <= id < vocab.len() || special_with_id(sp, id) is Some
}

/// The bytes the id stands for: its vocabulary entry, or the literal text
/// of the special token that reserves it.
pub open spec fn id_bytes(id: i32, vocab: Seq<Seq<u8>>, sp: Seq<(Seq<u8>, i32)>) -> Seq<u8> {
    if 0 <= id < vocab.len() {
        vocab[id as int]
    } else {
        match special_with_id(sp, id) {
            Some(j) => sp[j].0,
            None => Seq::<u8>::empty(),
        }
    }
}

/// Every id of `s` is defined by the vocabulary or a special token.
pub open spec fn ids_known(s: Seq<i32>, vocab: Seq<Seq<u8>>, sp: Seq<(Seq<u8>, i32)>) -> bool {
    forall|i: int| 0 <= i < s.len() ==> id_known(#[trigger] s[i], vocab, sp)
}

/// Concatenated bytes of a decoded id sequence.
pub open spec fn decode_ids(s: Seq<i32>, vocab: Seq<Seq<u8>>, sp: Seq<(Seq<u8>, i32)>) -> Seq<u8>
    decreases s.len(),
{
    if s.len() == 0 {
        Seq::<u8>::empty()
    } else {
        id_bytes(s[0], vocab, sp) + decode_ids(s.drop_first(), vocab, sp)
    }
}

/// Decoding one more id appends its bytes.
pub proof fn lemma_decode_ids_snoc(s: Seq<i32>, x: i32, vocab: Seq<Seq<u8>>, sp: Seq<(Seq<u8>, i32)>)
    ensures
        decode_ids(s.push(x), vocab, sp) == decode_ids(s, vocab, sp) + id_bytes(x, vocab, sp),
    decreases s.len(),
{
    if s.len() == 0 {
        assert(s.push(x)[0] == x);
        assert(s.push(x).drop_first() =~= Seq::<i32>::empty());
        assert(decode_ids(Seq::<i32>::empty(), vocab, sp) =~= Seq::<u8>::empty());
        assert(decode_ids(s, vocab, sp) =~= Seq::<u8>::empty());
        assert(decode_ids(s.push(x), vocab, sp) =~= decode_ids(s, vocab, sp) + id_bytes(
            x,
            vocab,
            sp,
        ));
    } else {
        assert(s.push(x).drop_first() =~= s.drop_first().push(x));
        assert(s.push(x)[0] == s[0]);
        lemma_decode_ids_snoc(s.drop_first(), x, vocab, sp);
        assert(decode_ids(s.push(x), vocab, sp) == id_bytes(s[0], vocab, sp) + decode_ids(
            s.drop_first().push(x),
            vocab,
            sp,
        ));
        assert(decode_ids(s, vocab, sp) == id_bytes(s[0], vocab, sp) + decode_ids(
            s.drop_first(),
            vocab,
            sp,
        ));
        assert(decode_ids(s.push(x), vocab, sp) =~= decode_ids(s, vocab, sp) + id_bytes(
            x,
            vocab,
            sp,
        ));
    }
}

/// On ids the vocabulary defines, decoding ignores the special tokens.
pub proof fn lemma_decode_ids_vocab(s: Seq<i32>, vocab: Seq<Seq<u8>>, sp: Seq<(Seq<u8>, i32)>)
    requires
        ids_valid(s, vocab.len() as int),
    ensures
        decode_ids(s, vocab, sp) == bytes_of(s, vocab),
    decreases s.len(),
{
    if s.len() > 0 {
        assert(ids_valid(s.drop_first(), vocab.len() as int)) by {
            assert(forall|i: int|
                0 <= i < s.drop_first().len() ==> s.drop_first()[i] == s[i + 1]);
        }
        lemma_decode_ids_vocab(s.drop_first(), vocab, sp);
    }
}

/// Round trip of the core: encoding the bytes of a text against a
/// well-formed merge table and decoding the resulting ids gives the original
/// text back, exactly.
pub proof fn lemma_round_trip(
    text: Seq<char>,
    merges: Seq<(i32, i32)>,
    vocab: Seq<Seq<u8>>,
    sp: Seq<(Seq<u8>, i32)>,
)
    requires
        wf_vocab(merges, vocab),
        256 + merges.len() <= i32::MAX,
    ensures
        decode_ids(encode_steps(byte_ids(encode_utf8(text)), merges), vocab, sp) == encode_utf8(
            text,
        ),
        valid_utf8(decode_ids(encode_steps(byte_ids(encode_utf8(text)), merges), vocab, sp)),
        decode_utf8(decode_ids(encode_steps(byte_ids(encode_utf8(text)), merges), vocab, sp))
            == text,
{
    broadcast use vstd::utf8::encode_utf8_valid_utf8, vstd::utf8::encode_utf8_decode_utf8;

    let b = encode_utf8(text);
    lemma_byte_ids_bytes(b, vocab);
    assert(ids_valid(byte_ids(b), vocab.len() as int));
    lemma_encode_steps_preserves(byte_ids(b), merges, vocab);
    lemma_decode_ids_vocab(encode_steps(byte_ids(b), merges), vocab, sp);
}

/// The special-token table, each literal string as its UTF-8 bytes.
pub open spec fn special_bytes(sp: Seq<(Seq<char>, i32)>) -> Seq<(Seq<u8>, i32)> {
    sp.map_values(|e: (Seq<char>, i32)| (encode_utf8(e.0), e.1))
}

/// Token `j` of the table matches literally at position `pos` of `b`.
/// Empty tokens never match.
pub open spec fn match_at(b: Seq<u8>, sp: Seq<(Seq<u8>, i32)>, pos: int, j: int) -> bool {
    &&& 0 <= j < sp.len()
    &&& sp[j].0.len() > 0
    &&& 0 <= pos
    &&& pos + sp[j].0.len() <= b.len()
    &&& b.subrange(pos, pos + sp[j].0.len()) == sp[j].0
}

/// The first token, in table order, matching at position `pos`.
pub open spec fn match_index_at(b: Seq<u8>, sp: Seq<(Seq<u8>, i32)>, pos: int) -> Option<int>
    decreases sp.len(),
{
    if sp.len() == 0 {
        None
    } else if sp[0].0.len() > 0 && 0 <= pos && pos + sp[0].0.len() <= b.len() && b.subrange(
        pos,
        pos + sp[0].0.len(),
    ) == sp[0].0 {
        Some(0)
    } else {
        match match_index_at(b, sp.drop_first(), pos) {
            Some(j) => Some(j + 1),
            None => None,
        }
    }
}

/// What `match_index_at` returns: the first token matching at `pos`.
pub proof fn lemma_match_index_at_char(b: Seq<u8>, sp: Seq<(Seq<u8>, i32)>, pos: int)
    ensures
        match match_index_at(b, sp, pos) {
            Some(j) => match_at(b, sp, pos, j) && (forall|i: int|
                0 <= i < j ==> !match_at(b, sp, pos, i)),
            None => forall|i: int| 0 <= i < sp.len() ==> !match_at(b, sp, pos, i),
        },
    decreases sp.len(),
{
    if sp.len() > 0 {
        let rest = sp.drop_first();
        lemma_match_index_at_char(b, rest, pos);
        if !(sp[0].0.len() > 0 && 0 <= pos && pos + sp[0].0.len() <= b.len() && b.subrange(
            pos,
            pos + sp[0].0.len(),
        ) == sp[0].0) {
            match match_index_at(b, rest, pos) {
                Some(j) => {
                    assert(sp[j + 1] == rest[j]);
                    assert(match_at(b, sp, pos, j + 1));
                    assert forall|i: int| 0 <= i < j + 1 implies !match_at(b, sp, pos, i) by {
                        if i >= 1 {
                            assert(sp[i] == rest[i - 1]);
                            assert(!match_at(b, rest, pos, i - 1));
                        }
                    }
                },
                None => {
                    assert forall|i: int| 0 <= i < sp.len() implies !match_at(b, sp, pos, i) by {
                        if i >= 1 {
                            assert(sp[i] == rest[i - 1]);
                            assert(!match_at(b, rest, pos, i - 1));
                        }
                    }
                },
            }
        }
    }
}

/// The earliest literal occurrence of a special token at or after `pos`:
/// smallest position first, then table order on ties.
pub open spec fn first_special(b: Seq<u8>, sp: Seq<(Seq<u8>, i32)>, pos: int) -> Option<(int, int)>
    decreases b.len() - pos,
    when 0 <= pos <= b.len()
{
    if pos >= b.len() {
        None
    } else {
        match match_index_at(b, sp, pos) {
            Some(j) => Some((pos, j)),
            None => first_special(b, sp, pos + 1),
        }
    }
}

/// What `first_special` returns: the earliest match at or after `start`.
pub proof fn lemma_first_special_char(b: Seq<u8>, sp: Seq<(Seq<u8>, i32)>, start: int)
    requires
        0 <= start <= b.len(),
    ensures
        match first_special(b, sp, start) {
            Some(pj) => start <= pj.0 && match_at(b, sp, pj.0, pj.1) && (forall|p2: int, j2: int|
                start <= p2 < pj.0 ==> !match_at(b, sp, p2, j2)) && (forall|j2: int|
                0 <= j2 < pj.1 ==> !match_at(b, sp, pj.0, j2)),
            None => forall|p2: int, j2: int| start <= p2 ==> !match_at(b, sp, p2, j2),
        },
    decreases b.len() - start,
{
    lemma_match_index_at_char(b, sp, start);
    if start < b.len() {
        match match_index_at(b, sp, start) {
            Some(j) => {},
            None => {
                lemma_first_special_char(b, sp, start + 1);
                match first_special(b, sp, start + 1) {
                    Some(pj) => {},
                    None => {},
                }
            },
        }
    } else {
        assert forall|p2: int, j2: int| start <= p2 implies !match_at(b, sp, p2, j2) by {
            if match_at(b, sp, p2, j2) {
                assert(p2 + sp[j2].0.len() <= b.len());
            }
        }
    }
}

/// The encoding of a byte text: alternate plain spans, encoded by the merge
/// table, with the reserved ids of the special tokens found by the earliest
/// literal, non-overlapping match.
pub open spec fn encode_text(b: Seq<u8>, merges: Seq<(i32, i32)>, sp: Seq<(Seq<u8>, i32)>) -> Seq<
    i32,
>
    decreases b.len(),
    via encode_text_decreases
{
    match first_special(b, sp, 0) {
        None => encode_steps(byte_ids(b), merges),
        Some(pj) => encode_steps(byte_ids(b.take(pj.0)), merges) + seq![sp[pj.1].1] + encode_text(
            b.skip(pj.0 + sp[pj.1].0.len()),
            merges,
            sp,
        ),
    }
}

#[via_fn]
proof fn encode_text_decreases(b: Seq<u8>, merges: Seq<(i32, i32)>, sp: Seq<(Seq<u8>, i32)>) {
    match first_special(b, sp, 0) {
        Some(pj) => {
            lemma_first_special_char(b, sp, 0);
        },
        None => {},
    }
}

/// Whether the byte text of `pat` stands literally at position `pos` of `b`.
pub fn is_match_at(b: &Vec<u8>, pos: usize, pat: &str) -> (r: bool)
    requires
        pos <= b@.len(),
    ensures
        r == (pos + encode_utf8(pat@).len() <= b@.len() && b@.subrange(
            pos as int,
            pos + encode_utf8(pat@).len(),
        ) == encode_utf8(pat@)),
{
    let pb = pat.as_bytes();
    let m = pb.len();
    let blen = b.len();
    if m > blen - pos {
        return false;
    }
    let mut t: usize = 0;
    while t < m
        invariant
            t <= m,
            m == pb@.len(),
            pb@ == encode_utf8(pat@),
            pos + m <= blen,
            blen == b@.len(),
            forall|u: int| 0 <= u < t ==> b@[pos + u] == pb@[u],
        decreases m - t,
    {
        if b[pos + t] != pb[t] {
            assert(b@.subrange(pos as int, pos + m) != pb@) by {
                assert(b@.subrange(pos as int, pos + m)[t as int] == b@[pos + t]);
            }
            return false;
        }
        t = t + 1;
    }
    assert(b@.subrange(pos as int, pos + m) =~= pb@);
    true
}

/// A character sequence never has more characters than UTF-8 bytes.
pub proof fn lemma_encode_utf8_ge_len(s: Seq<char>)
    ensures
        s.len() <= encode_utf8(s).len(),
    decreases s.len(),
{
    if s.len() > 0 {
        lemma_encode_utf8_ge_len(s.drop_first());
        vstd::utf8::char_is_scalar(s[0]);
    }
}

/// Find the earliest literal occurrence of any special token in `b`:
/// smallest position, table order on ties.
pub fn find_special(b: &Vec<u8>, specials: &Vec<(String, i32)>) -> (r: Option<(usize, usize)>)
    ensures
        match r {
            Some(pj) => first_special(b@, special_bytes(specials.deep_view()), 0) == Some((
                pj.0 as int,
                pj.1 as int,
            )),
            None => first_special(b@, special_bytes(specials.deep_view()), 0) is None,
        },
{
    let ghost spb = special_bytes(specials.deep_view());
    proof {
        assert forall|j: int| 0 <= j < specials@.len() implies #[trigger] spb[j] == (
            encode_utf8(specials@[j].0@),
            specials@[j].1,
        ) by {
            assert(specials.deep_view()[j] == (specials@[j].0@, specials@[j].1));
        }
    }
    let n = b.len();
    let m = specials.len();
    let mut pos: usize = 0;
    while pos < n
        invariant
            pos <= n,
            n == b@.len(),
            m == specials@.len(),
            spb == special_bytes(specials.deep_view()),
            spb.len() == m,
            forall|j: int| 0 <= j < m ==> #[trigger] spb[j] == (
                encode_utf8(specials@[j].0@),
                specials@[j].1,
            ),
            forall|p2: int, j2: int| 0 <= p2 < pos ==> !match_at(b@, spb, p2, j2),
        decreases n - pos,
    {
        let mut j: usize = 0;
        while j < m
            invariant
                j <= m,
                pos < n,
                n == b@.len(),
                m == specials@.len(),
                spb == special_bytes(specials.deep_view()),
                spb.len() == m,
                forall|j3: int| 0 <= j3 < m ==> #[trigger] spb[j3] == (
                    encode_utf8(specials@[j3].0@),
                    specials@[j3].1,
                ),
                forall|p2: int, j2: int| 0 <= p2 < pos ==> !match_at(b@, spb, p2, j2),
                forall|j2: int| 0 <= j2 < j ==> !match_at(b@, spb, pos as int, j2),
            decreases m - j,
        {
            let tok = &specials[j];
            let ts = tok.0.as_str();
            if ts.len() > 0 && is_match_at(b, pos, ts) {
                proof {
                    assert(spb[j as int].0 == encode_utf8(specials@[j as int].0@));
                    assert(match_at(b@, spb, pos as int, j as int));
                    lemma_first_special_char(b@, spb, 0);
                    match first_special(b@, spb, 0) {
                        Some(pj) => {
                            if pj.0 < pos as int {
                                assert(!match_at(b@, spb, pj.0, pj.1));
                            }
                            if pj.0 > pos as int {
                                assert(!match_at(b@, spb, pos as int, j as int));
                            }
                            if pj.1 < j as int {
                                assert(!match_at(b@, spb, pos as int, pj.1));
                            }
                            if pj.1 > j as int {
                                assert(!match_at(b@, spb, pos as int, j as int));
                            }
                        },
                        None => {
                            assert(!match_at(b@, spb, pos as int, j as int));
                        },
                    }
                }
                return Some((pos, j));
            }
            j = j + 1;
        }
        pos = pos + 1;
    }
    proof {
        lemma_first_special_char(b@, spb, 0);
        match first_special(b@, spb, 0) {
            Some(pj) => {
                assert(match_at(b@, spb, pj.0, pj.1));
                assert(spb[pj.1].0.len() > 0);
                assert(pj.0 + spb[pj.1].0.len() <= b@.len());
                assert(pj.0 < pos);
                assert(false);
            },
            None => {},
        }
    }
    None
}

/// Encode a byte text: split out special tokens by earliest literal match,
/// apply the merge table to each plain span, and splice in the reserved ids,
/// preserving text order.
pub fn encode_bytes(b: &Vec<u8>, merges: &Vec<(i32, i32)>, specials: &Vec<(String, i32)>) -> (r:
    Vec<i32>)
    requires
        256 + merges@.len() <= i32::MAX,
    ensures
        r@ == encode_text(b@, merges@, special_bytes(specials.deep_view())),
{
    let ghost spb = special_bytes(specials.deep_view());
    let mut out: Vec<i32> = Vec::new();
    let mut rest: Vec<u8> = vstd::slice::slice_to_vec(b.as_slice());
    proof {
        assert(out@ + encode_text(rest@, merges@, spb) =~= encode_text(b@, merges@, spb));
    }
    loop
        invariant_except_break
            out@ + encode_text(rest@, merges@, spb) == encode_text(b@, merges@, spb),
        invariant
            256 + merges@.len() <= i32::MAX,
            spb == special_bytes(specials.deep_view()),
        ensures
            out@ == encode_text(b@, merges@, spb),
        decreases rest@.len(),
    {
        let ghost rest0 = rest@;
        let ghost out0 = out@;
        match find_special(&rest, specials) {
            None => {
                let mut ids = apply_merges(bytes_to_ids(rest.as_slice()), merges);
                out.append(&mut ids);
                proof {
                    assert(encode_text(rest0, merges@, spb) == encode_steps(
                        byte_ids(rest0),
                        merges@,
                    ));
                    assert(out@ =~= encode_text(b@, merges@, spb));
                }
                break ;
            },
            Some(pj) => {
                proof {
                    lemma_first_special_char(rest0, spb, 0);
                    assert(match_at(rest0, spb, pj.0 as int, pj.1 as int));
                }
                let pos = pj.0;
                let j = pj.1;
                let tok = &specials[j];
                let tok_len = tok.0.as_str().len();
                let rest_len = rest.len();
                proof {
                    assert(specials.deep_view()[j as int] == (
                        specials@[j as int].0@,
                        specials@[j as int].1,
                    ));
                    assert(spb[j as int] == (
                        encode_utf8(specials@[j as int].0@),
                        specials@[j as int].1,
                    ));
                    assert(tok_len == spb[j as int].0.len());
                    assert(pos + tok_len <= rest_len);
                }
                let plain = vstd::slice::slice_to_vec(
                    vstd::slice::slice_subrange(rest.as_slice(), 0, pos),
                );
                let mut ids = apply_merges(bytes_to_ids(plain.as_slice()), merges);
                out.append(&mut ids);
                out.push(tok.1);
                let new_rest = vstd::slice::slice_to_vec(
                    vstd::slice::slice_subrange(rest.as_slice(), pos + tok_len, rest.len()),
                );
                rest = new_rest;
                proof {
                    assert(plain@ =~= rest0.take(pj.0 as int));
                    assert(rest@ =~= rest0.skip(pj.0 + spb[pj.1 as int].0.len()));
                    assert(spb[pj.1 as int].1 == tok.1);
                    assert(encode_text(rest0, merges@, spb) == encode_steps(
                        byte_ids(rest0.take(pj.0 as int)),
                        merges@,
                    ) + seq![spb[pj.1 as int].1] + encode_text(rest@, merges@, spb));
                    assert(out@ =~= out0 + encode_steps(byte_ids(plain@), merges@) + seq![tok.1]);
                    assert(out@ + encode_text(rest@, merges@, spb) =~= encode_text(
                        b@,
                        merges@,
                        spb,
                    ));
                }
            },
        }
    }
    out
}

/// The literal bytes of the first special token reserving `id`, if any.
fn special_bytes_for(id: i32, specials: &Vec<(String, i32)>) -> (r: Option<Vec<u8>>)
    ensures
        match r {
            Some(bts) => match special_with_id(special_bytes(specials.deep_view()), id) {
                Some(j) => bts@ == special_bytes(specials.deep_view())[j].0,
                None => false,
            },
            None => special_with_id(special_bytes(specials.deep_view()), id) is None,
        },
{
    let ghost spb = special_bytes(specials.deep_view());
    proof {
        assert forall|j: int| 0 <= j < specials@.len() implies #[trigger] spb[j] == (
            encode_utf8(specials@[j].0@),
            specials@[j].1,
        ) by {
            assert(specials.deep_view()[j] == (specials@[j].0@, specials@[j].1));
        }
    }
    let m = specials.len();
    let mut j: usize = 0;
    while j < m
        invariant
            j <= m,
            m == specials@.len(),
            spb == special_bytes(specials.deep_view()),
            spb.len() == m,
            forall|j3: int| 0 <= j3 < m ==> #[trigger] spb[j3] == (
                encode_utf8(specials@[j3].0@),
                specials@[j3].1,
            ),
            forall|j2: int| 0 <= j2 < j ==> (#[trigger] spb[j2]).1 != id,
        decreases m - j,
    {
        let tok = &specials[j];
        if tok.1 == id {
            proof {
                lemma_special_with_id_char(spb, id);
                match special_with_id(spb, id) {
                    Some(j2) => {
                        if j2 < j as int {
                        } else if j2 > j as int {
                            assert(spb[j as int].1 != id);
                        }
                    },
                    None => {
                        assert(spb[j as int].1 != id);
                    },
                }
            }
            let bts = tok.0.as_str().as_bytes();
            return Some(vstd::slice::slice_to_vec(bts));
        }
        j = j + 1;
    }
    proof {
        lemma_special_with_id_char(spb, id);
        match special_with_id(spb, id) {
            Some(j2) => {
                assert(spb[j2].1 == id);
            },
            None => {},
        }
    }
    None
}

/// Decode a sequence of ids to the bytes they stand for: vocabulary entries
/// for vocabulary ids, literal token text for reserved ids, and a lookup
/// failure exactly when some id is defined by neither.
pub fn decode_to_bytes(
    ids: &[i32],
    vocab: &Vec<Vec<u8>>,
    specials: &Vec<(String, i32)>,
) -> (r: Result<Vec<u8>, TokenizerError>)
    ensures
        r is Ok <==> ids_known(ids@, vocab.deep_view(), special_bytes(specials.deep_view())),
        r matches Ok(b) ==> b@ == decode_ids(
            ids@,
            vocab.deep_view(),
            special_bytes(specials.deep_view()),
        ),
        r is Err ==> r == Err::<Vec<u8>, TokenizerError>(TokenizerError::Lookup),
{
    let ghost vd = vocab.deep_view();
    let ghost spb = special_bytes(specials.deep_view());
    let mut out: Vec<u8> = Vec::new();
    let n = ids.len();
    let mut i: usize = 0;
    proof {
        assert(ids@.take(0) =~= Seq::<i32>::empty());
    }
    while i < n
        invariant
            i <= n,
            n == ids@.len(),
            vd == vocab.deep_view(),
            spb == special_bytes(specials.deep_view()),
            out@ == decode_ids(ids@.take(i as int), vd, spb),
            ids_known(ids@.take(i as int), vd, spb),
        decreases n - i,
    {
        let ghost pre = ids@.take(i as int);
        let id = ids[i];
        proof {
            assert(ids@.take(i + 1) =~= pre.push(id));
            lemma_decode_ids_snoc(pre, id, vd, spb);
        }
        if id >= 0 && (id as usize) < vocab.len() {
            out.extend_from_slice(vocab[id as usize].as_slice());
            proof {
                assert(vocab@[id as int].deep_view() =~= vocab@[id as int]@);
                assert(id_bytes(id, vd, spb) == vd[id as int]);
                assert(out@ == decode_ids(ids@.take(i + 1), vd, spb));
                assert forall|t: int| 0 <= t < ids@.take(i + 1).len() implies id_known(
                    #[trigger] ids@.take(i + 1)[t],
                    vd,
                    spb,
                ) by {
                    if t < i {
                        assert(pre[t] == ids@.take(i + 1)[t]);
                    }
                }
            }
        } else {
            match special_bytes_for(id, specials) {
                Some(bts) => {
                    out.extend_from_slice(bts.as_slice());
                    proof {
                        assert(out@ == decode_ids(ids@.take(i + 1), vd, spb));
                        assert forall|t: int| 0 <= t < ids@.take(i + 1).len() implies id_known(
                            #[trigger] ids@.take(i + 1)[t],
                            vd,
                            spb,
                        ) by {
                            if t < i {
                                assert(pre[t] == ids@.take(i + 1)[t]);
                            }
                        }
                    }
                },
                None => {
                    proof {
                        assert(!id_known(id, vd, spb));
                        assert(ids@[i as int] == id);
                    }
                    return Err(TokenizerError::Lookup);
                },
            }
        }
        i = i + 1;
    }
    proof {
        assert(ids@.take(n as int) =~= ids@);
    }
    Ok(out)
}

} // verus!
