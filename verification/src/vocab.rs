//! Vocabulary derivation. Ids 0-255 denote the raw bytes; the id created by
//! the merge of rank `k` is `256 + k` and its byte form is the concatenation
//! of the byte forms of the two merged symbols, visited in rank order.

use vstd::prelude::*;

verus! {

/// Each byte of `b` read as a symbol id.
pub open spec fn byte_ids(b: Seq<u8>) -> Seq<i32> {
    b.map_values(|x: u8| x as i32)
}

/// The identity vocabulary over the 256 raw bytes.
pub open spec fn base_vocab() -> Seq<Seq<u8>> {
    Seq::new(256, |i: int| seq![i as u8])
}

/// Both ids of `p` are at least zero and below `bound`.
pub open spec fn pair_in_range(p: (i32, i32), bound: int) -> bool {
    0 <= p.0 < bound && 0 <= p.1 < bound
}

/// Every merge refers only to ids defined before it: raw bytes or earlier
/// merges.
pub open spec fn merges_in_range(merges: Seq<(i32, i32)>) -> bool {
    forall|k: int| 0 <= k < merges.len() ==> pair_in_range(#[trigger] merges[k], 256 + k)
}

/// The vocabulary `vocab` is exactly the one derived from `merges`: one
/// entry per id, single bytes below 256, and concatenation of the merged
/// pair's entries above.
pub open spec fn wf_vocab(merges: Seq<(i32, i32)>, vocab: Seq<Seq<u8>>) -> bool {
    &&& vocab.len() == 256 + merges.len()
    &&& forall|i: int| 0 <= i < 256 ==> #[trigger] vocab[i] == seq![i as u8]
    &&& merges_in_range(merges)
    &&& forall|k: int|
        0 <= k < merges.len() ==> #[trigger] vocab[256 + k] == vocab[merges[k].0 as int]
            + vocab[merges[k].1 as int]
}

/// Vocabulary consistency: in a well-formed tokenizer state, the byte form
/// of every merged id is the concatenation of the byte forms of the two ids
/// it merged — never an arithmetic combination of byte values.
pub proof fn lemma_vocab_consistency(merges: Seq<(i32, i32)>, vocab: Seq<Seq<u8>>, k: int)
    requires
        wf_vocab(merges, vocab),
        0 <= k < merges.len(),
    ensures
        vocab[256 + k] == vocab[merges[k].0 as int] + vocab[merges[k].1 as int],
{
}

/// Every symbol of `s` is a defined id: at least zero and below `bound`.
pub open spec fn ids_valid(s: Seq<i32>, bound: int) -> bool {
    forall|i: int| 0 <= i < s.len() ==> 0 <= #[trigger] s[i] < bound
}

/// The identity vocabulary, as a vector.
pub fn make_base_vocab() -> (r: Vec<Vec<u8>>)
    ensures
        r.deep_view() == base_vocab(),
{
    let mut vocab: Vec<Vec<u8>> = Vec::new();
    let mut i: usize = 0;
    while i < 256
        invariant
            i <= 256,
            vocab.deep_view().len() == i,
            forall|j: int| 0 <= j < i ==> vocab.deep_view()[j] == seq![j as u8],
        decreases 256 - i,
    {
        let ghost vpre = vocab.deep_view();
        let ghost vshallow = vocab@;
        let mut e: Vec<u8> = Vec::new();
        e.push(i as u8);
        assert(e@ =~= seq![i as u8]);
        vocab.push(e);
        proof {
            assert(e.deep_view() =~= e@);
            assert(vocab.deep_view() =~= vpre.push(e@)) by {
                assert forall|j: int| 0 <= j < vpre.len() implies vocab.deep_view()[j] == vpre[j]
                by {
                    assert(vocab@[j] == vshallow[j]);
                }
            }
        }
        i = i + 1;
    }
    assert(vocab.deep_view() =~= base_vocab());
    vocab
}

/// Concatenation of two vocabulary entries.
pub fn concat_entries(a: &Vec<u8>, b: &Vec<u8>) -> (r: Vec<u8>)
    ensures
        r@ == a@ + b@,
{
    let mut r = a.clone();
    r.extend_from_slice(b.as_slice());
    assert(r@ =~= a@ + b@);
    r
}

/// Append the vocabulary entry of a fresh merge of the pair `p`: the
/// concatenation of the entries of its two symbols.
pub fn extend_vocab(vocab: &mut Vec<Vec<u8>>, p: (i32, i32))
    requires
        p.0 >= 0 && (p.0 as int) < old(vocab).deep_view().len(),
        p.1 >= 0 && (p.1 as int) < old(vocab).deep_view().len(),
    ensures
        final(vocab).deep_view() == old(vocab).deep_view().push(
            old(vocab).deep_view()[p.0 as int] + old(vocab).deep_view()[p.1 as int],
        ),
{
    let ghost vpre = vocab.deep_view();
    let ghost vshallow = vocab@;
    let entry = concat_entries(&vocab[p.0 as usize], &vocab[p.1 as usize]);
    vocab.push(entry);
    proof {
        assert(entry.deep_view() =~= entry@);
        assert(vshallow[p.0 as int].deep_view() =~= vshallow[p.0 as int]@);
        assert(vshallow[p.1 as int].deep_view() =~= vshallow[p.1 as int]@);
        assert(vocab.deep_view() =~= vpre.push(vpre[p.0 as int] + vpre[p.1 as int])) by {
            assert forall|j: int| 0 <= j < vpre.len() implies vocab.deep_view()[j] == vpre[j] by {
                assert(vocab@[j] == vshallow[j]);
            }
        }
    }
}

/// A merged sequence stays within a bound that covers both the original
/// symbols and the fresh id.
pub proof fn lemma_merge_valid(s: Seq<i32>, p: (i32, i32), idx: i32, b1: int, b2: int)
    requires
        ids_valid(s, b1),
        b1 <= b2,
        0 <= idx < b2,
    ensures
        ids_valid(crate::base::merge_seq(s, p, idx), b2),
{
    let m = crate::base::merge_seq(s, p, idx);
    assert forall|i: int| 0 <= i < m.len() implies 0 <= #[trigger] m[i] < b2 by {
        assert(m.contains(m[i]));
        crate::base::lemma_merge_elements(s, p, idx, m[i]);
        if m[i] != idx {
            let j = choose|j: int| 0 <= j < s.len() && s[j] == m[i];
        }
    }
}

/// Derive the vocabulary of a merge table, visiting the merges in rank
/// order. A merge that refers to an id not yet defined is rejected: the
/// result is `None` exactly when some merge is out of range.
pub fn build_vocab(merges: &Vec<(i32, i32)>) -> (r: Option<Vec<Vec<u8>>>)
    ensures
        r matches Some(v) ==> wf_vocab(merges@, v.deep_view()),
        r is Some <==> merges_in_range(merges@),
{
    let mut vocab = make_base_vocab();
    let n = merges.len();
    let mut k: usize = 0;
    while k < n
        invariant
            k <= n,
            n == merges@.len(),
            wf_vocab(merges@.take(k as int), vocab.deep_view()),
        decreases n - k,
    {
        let ghost pre = merges@.take(k as int);
        let ghost vpre = vocab.deep_view();
        let ghost vshallow = vocab@;
        let p = merges[k];
        let len = vocab.len();
        if !(p.0 >= 0 && (p.0 as usize) < len && p.1 >= 0 && (p.1 as usize) < len) {
            proof {
                assert(!pair_in_range(merges@[k as int], 256 + k));
                assert(!merges_in_range(merges@));
            }
            return None;
        }
        let entry = concat_entries(&vocab[p.0 as usize], &vocab[p.1 as usize]);
        vocab.push(entry);
        proof {
            let post = merges@.take(k + 1);
            assert(post.drop_last() =~= pre);
            assert(post[k as int] == merges@[k as int]);
            assert(entry.deep_view() =~= entry@);
            assert(vocab.deep_view() =~= vpre.push(entry@)) by {
                assert forall|j: int| 0 <= j < vpre.len() implies vocab.deep_view()[j] == vpre[j]
                by {
                    assert(vocab@[j] == vshallow[j]);
                }
            }
            let vd = vocab.deep_view();
            assert(vd[256 + k] == entry@);
            assert(vshallow[p.0 as int].deep_view() =~= vshallow[p.0 as int]@);
            assert(vshallow[p.1 as int].deep_view() =~= vshallow[p.1 as int]@);
            assert(vd[256 + k] == vpre[p.0 as int] + vpre[p.1 as int]);
            assert(wf_vocab(post, vd));
        }
        k = k + 1;
    }
    proof {
        assert(merges@.take(n as int) =~= merges@);
    }
    Some(vocab)
}

/// Each byte of `b`, read as a symbol id below 256.
pub fn bytes_to_ids(b: &[u8]) -> (r: Vec<i32>)
    ensures
        r@ == byte_ids(b@),
        ids_valid(r@, 256),
{
    let mut r: Vec<i32> = Vec::new();
    let n = b.len();
    let mut i: usize = 0;
    while i < n
        invariant
            i <= n,
            n == b@.len(),
            r@.len() == i,
            forall|j: int| 0 <= j < i ==> #[trigger] r@[j] == b@[j] as i32,
        decreases n - i,
    {
        r.push(b[i] as i32);
        i = i + 1;
    }
    assert(r@ =~= byte_ids(b@));
    r
}

} // verus!
