//! The byte-level tokenizer: training, encoding and decoding against a
//! learned merge table and its derived vocabulary.

use vstd::prelude::*;

use crate::base::{
    get_stats, lemma_first_pair_counted, lemma_pair_count_occurs, lemma_positive_count_stored,
    merge, merge_seq, pair_count,
};
use crate::base::lossy_string;
use crate::codec::{
    decode_ids, decode_to_bytes, encode_bytes, encode_steps, encode_text, first_special,
    ids_known, lemma_byte_ids_bytes, lemma_encode_steps_preserves, lemma_round_trip,
    special_bytes,
};
use crate::errors::TokenizerError;
use crate::selector::{is_seq_selection, lemma_seq_selection_unique, lex_lt, pick_pair};
use crate::vocab::{
    base_vocab, build_vocab, byte_ids, bytes_to_ids, extend_vocab, ids_valid, lemma_merge_valid,
    make_base_vocab, merges_in_range, wf_vocab,
};
use vstd::utf8::{decode_utf8, encode_utf8, valid_utf8};

verus! {

/// The pair that the selection rule picks from `s`; meaningful only when
/// some pair satisfies the rule, which holds whenever `s` has length two or
/// more.
pub open spec fn seq_selection(s: Seq<i32>) -> (i32, i32) {
    choose|p: (i32, i32)| is_seq_selection(s, p)
}

/// State of the training loop after running it to the end: starting from
/// symbol sequence `ids`, merge table `merges` and vocabulary `vocab`,
/// perform up to `remaining` more merges, each picking the selection of the
/// current sequence, rewriting the sequence, and recording the merge and its
/// concatenated byte form.
pub open spec fn train_step(
    ids: Seq<i32>,
    merges: Seq<(i32, i32)>,
    vocab: Seq<Seq<u8>>,
    remaining: nat,
) -> (Seq<(i32, i32)>, Seq<Seq<u8>>)
    decreases remaining,
{
    if remaining == 0 || ids.len() < 2 {
        (merges, vocab)
    } else {
        let p = seq_selection(ids);
        let idx = vocab.len() as i32;
        train_step(
            merge_seq(ids, p, idx),
            merges.push(p),
            vocab.push(vocab[p.0 as int] + vocab[p.1 as int]),
            (remaining - 1) as nat,
        )
    }
}

/// `merges` and `vocab` are exactly what training on the byte sequence
/// `text_bytes` with up to `n_merges` merges produces.
pub open spec fn trained(
    text_bytes: Seq<u8>,
    n_merges: nat,
    merges: Seq<(i32, i32)>,
    vocab: Seq<Seq<u8>>,
) -> bool {
    (merges, vocab) == train_step(byte_ids(text_bytes), Seq::<(i32, i32)>::empty(), base_vocab(), n_merges)
}

/// Determinism of training: the same corpus and the same merge budget give
/// the same merge table and the same vocabulary, every time.
pub proof fn lemma_training_deterministic(
    text_bytes: Seq<u8>,
    n_merges: nat,
    m1: Seq<(i32, i32)>,
    v1: Seq<Seq<u8>>,
    m2: Seq<(i32, i32)>,
    v2: Seq<Seq<u8>>,
)
    requires
        trained(text_bytes, n_merges, m1, v1),
        trained(text_bytes, n_merges, m2, v2),
    ensures
        m1 == m2,
        v1 == v2,
{
}

/// Special tokens are defined outside the vocabulary: every reserved id
/// lies at or above `vocab_len`, so it can never collide with a raw byte or
/// a merge-produced id.
pub open spec fn wf_specials(sp: Seq<(Seq<char>, i32)>, vocab_len: int) -> bool {
    forall|j: int| 0 <= j < sp.len() ==> (#[trigger] sp[j]).1 >= vocab_len
}

/// A byte-level BPE tokenizer: a ranked merge table, the vocabulary derived
/// from it, an optional pre-tokenization pattern and a special-token map.
pub struct BasicTokenizer {
    merges: Vec<(i32, i32)>,
    pattern: String,
    special_tokens: Vec<(String, i32)>,
    vocab: Vec<Vec<u8>>,
}

impl BasicTokenizer {
    /// The merge table, in rank order; the pair at rank `k` merges to id
    /// `256 + k`.
    pub closed spec fn spec_merges(self) -> Seq<(i32, i32)> {
        self.merges@
    }

    /// The pre-tokenization pattern.
    pub closed spec fn spec_pattern(self) -> Seq<char> {
        self.pattern@
    }

    /// The special tokens: literal strings with their reserved ids.
    pub closed spec fn spec_specials(self) -> Seq<(Seq<char>, i32)> {
        self.special_tokens.deep_view()
    }

    /// The vocabulary: the byte form of every symbol id.
    pub closed spec fn spec_vocab(self) -> Seq<Seq<u8>> {
        self.vocab.deep_view()
    }

    /// The tokenizer is ready for encoding and decoding: the vocabulary is
    /// the one its merge table derives, ids fit the id type, and special
    /// tokens stay clear of the vocabulary.
    pub open spec fn wf(self) -> bool {
        &&& wf_vocab(self.spec_merges(), self.spec_vocab())
        &&& 256 + self.spec_merges().len() <= i32::MAX
        &&& wf_specials(self.spec_specials(), self.spec_vocab().len() as int)
    }

    /// A tokenizer with nothing trained: empty merge table, empty pattern,
    /// no special tokens, and a vocabulary not yet derived.
    pub fn new() -> (r: Self)
        ensures
            r.spec_merges() == Seq::<(i32, i32)>::empty(),
            r.spec_pattern() == Seq::<char>::empty(),
            r.spec_specials() == Seq::<(Seq<char>, i32)>::empty(),
            r.spec_vocab() == Seq::<Seq<u8>>::empty(),
    {
        let r = BasicTokenizer {
            merges: Vec::new(),
            pattern: String::new(),
            special_tokens: Vec::new(),
            vocab: Vec::new(),
        };
        proof {
            assert(r.spec_specials() =~= Seq::<(Seq<char>, i32)>::empty());
            assert(r.spec_vocab() =~= Seq::<Seq<u8>>::empty());
        }
        r
    }

    /// Derive the vocabulary from the current merge table, in rank order.
    /// Refused when a merge refers to an id that nothing defines.
    pub fn init_vocab(&mut self) -> (r: Result<(), TokenizerError>)
        ensures
            r is Ok <==> merges_in_range(old(self).spec_merges()),
            r is Err ==> r == Err::<(), TokenizerError>(TokenizerError::InvalidState) && *final(self)
                == *old(self),
            r is Ok ==> {
                &&& wf_vocab(final(self).spec_merges(), final(self).spec_vocab())
                &&& final(self).spec_merges() == old(self).spec_merges()
                &&& final(self).spec_pattern() == old(self).spec_pattern()
                &&& final(self).spec_specials() == old(self).spec_specials()
            },
    {
        match build_vocab(&self.merges) {
            Some(v) => {
                self.vocab = v;
                Ok(())
            },
            None => Err(TokenizerError::InvalidState),
        }
    }

    /// Learn a merge table and vocabulary from `text`, performing up to
    /// `vocab_size - 256` merges and stopping early once no adjacent pair
    /// remains. A vocabulary size below 256 is a configuration error. The
    /// pattern and the special tokens are left untouched.
    pub fn train(&mut self, text: &str, vocab_size: i32) -> (r: Result<(), TokenizerError>)
        ensures
            r is Err <==> vocab_size < 256,
            r is Err ==> r == Err::<(), TokenizerError>(TokenizerError::Config) && *final(self)
                == *old(self),
            r is Ok ==> {
                &&& trained(
                    encode_utf8(text@),
                    (vocab_size - 256) as nat,
                    final(self).spec_merges(),
                    final(self).spec_vocab(),
                )
                &&& wf_vocab(final(self).spec_merges(), final(self).spec_vocab())
                &&& final(self).spec_merges().len() <= vocab_size - 256
                &&& final(self).spec_pattern() == old(self).spec_pattern()
                &&& final(self).spec_specials() == old(self).spec_specials()
                &&& (wf_specials(old(self).spec_specials(), vocab_size as int)
                    ==> final(self).wf())
            },
    {
        if vocab_size < 256 {
            return Err(TokenizerError::Config);
        }
        let num: i32 = vocab_size - 256;
        let bytes = text.as_bytes();
        let ghost b = bytes@;
        let mut ids = bytes_to_ids(bytes);
        let mut merges: Vec<(i32, i32)> = Vec::new();
        let mut vocab = make_base_vocab();
        let ghost goal = train_step(byte_ids(b), Seq::<(i32, i32)>::empty(), base_vocab(), num as nat);
        let mut k: i32 = 0;
        let mut stop = false;
        proof {
            assert(merges@ =~= Seq::<(i32, i32)>::empty());
        }
        while k < num && !stop
            invariant
                0 <= k <= num,
                num + 256 <= i32::MAX,
                merges@.len() == k,
                vocab.deep_view().len() == 256 + k,
                wf_vocab(merges@, vocab.deep_view()),
                ids_valid(ids@, 256 + k),
                train_step(ids@, merges@, vocab.deep_view(), (num - k) as nat) == goal,
                stop ==> ids@.len() < 2,
            decreases num - k + (if stop { 0int } else { 1int }),
        {
            let ghost ids0 = ids@;
            let ghost merges0 = merges@;
            let ghost vocab0 = vocab.deep_view();
            let stats = get_stats(ids.as_slice(), None);
            match pick_pair(&stats) {
                None => {
                    proof {
                        if ids0.len() >= 2 {
                            lemma_first_pair_counted(ids0);
                            assert(stats.count((ids0[0], ids0[1])) > 0);
                            lemma_positive_count_stored(stats, (ids0[0], ids0[1]));
                            assert(false);
                        }
                    }
                    stop = true;
                },
                Some(pair) => {
                    proof {
                        assert(pair_count(ids0, pair) > 0) by {
                            assert(stats.count(pair) == pair_count(ids0, pair));
                        }
                        assert forall|q: (i32, i32)| #[trigger] pair_count(ids0, q) <= pair_count(
                            ids0,
                            pair,
                        ) by {
                            assert(stats.count(q) == pair_count(ids0, q));
                            assert(stats.count(pair) == pair_count(ids0, pair));
                        }
                        assert forall|q: (i32, i32)| #[trigger]
                            pair_count(ids0, q) == pair_count(ids0, pair) && q != pair implies lex_lt(
                            pair,
                            q,
                        ) by {
                            assert(stats.count(q) == pair_count(ids0, q));
                            assert(stats.count(pair) == pair_count(ids0, pair));
                        }
                        assert(is_seq_selection(ids0, pair));
                        assert(is_seq_selection(ids0, seq_selection(ids0)));
                        lemma_seq_selection_unique(ids0, seq_selection(ids0), pair);
                        lemma_pair_count_occurs(ids0, pair);
                        let i = choose|i: int|
                            0 <= i && i + 1 < ids0.len() && #[trigger] ids0[i] == pair.0 && ids0[i
                                + 1] == pair.1;
                        assert(0 <= pair.0 < 256 + k && 0 <= pair.1 < 256 + k);
                    }
                    let idx: i32 = 256 + k;
                    let new_ids = merge(ids.as_slice(), pair, idx);
                    ids = new_ids;
                    merges.push(pair);
                    extend_vocab(&mut vocab, pair);
                    proof {
                        lemma_merge_valid(ids0, pair, idx, 256 + k, 256 + k + 1);
                        assert(vocab.deep_view() == vocab0.push(
                            vocab0[pair.0 as int] + vocab0[pair.1 as int],
                        ));
                        assert(wf_vocab(merges@, vocab.deep_view())) by {
                            let vd = vocab.deep_view();
                            assert forall|j: int| 0 <= j < merges@.len() implies #[trigger] vd[256
                                + j] == vd[merges@[j].0 as int] + vd[merges@[j].1 as int] by {
                                if j < merges0.len() {
                                    assert(merges@[j] == merges0[j]);
                                    assert(vd[256 + j] == vocab0[256 + j]);
                                } else {
                                    assert(merges@[j] == pair);
                                }
                            }
                        }
                        assert(vocab0.len() as i32 == idx);
                        assert(train_step(ids0, merges0, vocab0, (num - k) as nat) == train_step(
                            ids@,
                            merges@,
                            vocab.deep_view(),
                            (num - k - 1) as nat,
                        ));
                    }
                    k = k + 1;
                },
            }
        }
        proof {
            assert(train_step(ids@, merges@, vocab.deep_view(), (num - k) as nat) == (
                merges@,
                vocab.deep_view(),
            ));
        }
        self.merges = merges;
        self.vocab = vocab;
        Ok(())
    }

    /// The merge table, in rank order.
    pub fn merges(&self) -> (r: &Vec<(i32, i32)>)
        ensures
            r@ == self.spec_merges(),
    {
        &self.merges
    }

    /// The pre-tokenization pattern.
    pub fn pattern(&self) -> (r: &String)
        ensures
            r@ == self.spec_pattern(),
    {
        &self.pattern
    }

    /// The special tokens with their reserved ids.
    pub fn special_tokens(&self) -> (r: &Vec<(String, i32)>)
        ensures
            r.deep_view() == self.spec_specials(),
    {
        &self.special_tokens
    }

    /// The vocabulary: byte form of every id.
    pub fn vocab(&self) -> (r: &Vec<Vec<u8>>)
        ensures
            r.deep_view() == self.spec_vocab(),
    {
        &self.vocab
    }

    /// Assemble a tokenizer from restored state: a pattern, special tokens
    /// and a ranked merge table. The vocabulary is derived in rank order.
    /// Refused when a merge refers to an undefined id, when the table is too
    /// large for the id type, or when a special token's id collides with the
    /// vocabulary.
    pub fn from_parts(
        pattern: String,
        special_tokens: Vec<(String, i32)>,
        merges: Vec<(i32, i32)>,
    ) -> (r: Result<Self, TokenizerError>)
        ensures
            r is Ok <==> (merges_in_range(merges@) && 256 + merges@.len() <= i32::MAX
                && wf_specials(special_tokens.deep_view(), 256 + merges@.len() as int)),
            r is Err ==> r == Err::<Self, TokenizerError>(TokenizerError::InvalidState),
            r matches Ok(t) ==> {
                &&& t.wf()
                &&& t.spec_merges() == merges@
                &&& t.spec_pattern() == pattern@
                &&& t.spec_specials() == special_tokens.deep_view()
            },
    {
        if merges.len() > (i32::MAX - 256) as usize {
            return Err(TokenizerError::InvalidState);
        }
        let vocab = match build_vocab(&merges) {
            Some(v) => v,
            None => {
                return Err(TokenizerError::InvalidState);
            },
        };
        let vocab_len: i32 = 256 + (merges.len() as i32);
        let ghost sp = special_tokens.deep_view();
        let m = special_tokens.len();
        let mut j: usize = 0;
        while j < m
            invariant
                j <= m,
                m == special_tokens@.len(),
                sp == special_tokens.deep_view(),
                sp.len() == m,
                vocab_len == 256 + merges@.len(),
                forall|j2: int| 0 <= j2 < j ==> (#[trigger] sp[j2]).1 >= vocab_len,
            decreases m - j,
        {
            proof {
                assert(sp[j as int] == (special_tokens@[j as int].0@, special_tokens@[j as int].1));
            }
            if special_tokens[j].1 < vocab_len {
                return Err(TokenizerError::InvalidState);
            }
            j = j + 1;
        }
        let t = BasicTokenizer { merges, pattern, special_tokens, vocab };
        proof {
            assert(t.wf());
        }
        Ok(t)
    }

    /// Encode `text` into symbol ids: split out special tokens by earliest
    /// literal match, apply the merge table to each plain span in rank
    /// order, and splice in the reserved ids. An empty text encodes to an
    /// empty sequence.
    pub fn encode(&self, text: &str) -> (r: Vec<i32>)
        requires
            self.wf(),
        ensures
            r@ == encode_text(
                encode_utf8(text@),
                self.spec_merges(),
                special_bytes(self.spec_specials()),
            ),
    {
        let b = vstd::slice::slice_to_vec(text.as_bytes());
        encode_bytes(&b, &self.merges, &self.special_tokens)
    }

    /// Decode symbol ids back to text: vocabulary ids give their byte form,
    /// reserved ids give the literal special-token text, and an id defined
    /// by neither is a lookup error — exactly then. Byte content that is
    /// valid UTF-8 decodes to exactly those characters; invalid byte runs
    /// are replaced at the smallest granularity, never a panic.
    pub fn decode(&self, ids: &[i32]) -> (r: Result<String, TokenizerError>)
        requires
            self.wf(),
        ensures
            r is Ok <==> ids_known(ids@, self.spec_vocab(), special_bytes(self.spec_specials())),
            r is Err ==> r == Err::<String, TokenizerError>(TokenizerError::Lookup),
            r matches Ok(s) ==> (valid_utf8(
                decode_ids(ids@, self.spec_vocab(), special_bytes(self.spec_specials())),
            ) ==> s@ == decode_utf8(
                decode_ids(ids@, self.spec_vocab(), special_bytes(self.spec_specials())),
            )),
    {
        match decode_to_bytes(ids, &self.vocab, &self.special_tokens) {
            Ok(b) => Ok(lossy_string(b.as_slice())),
            Err(e) => Err(e),
        }
    }
}

/// Round trip: encoding a text in which no special-token string occurs and
/// decoding the resulting ids gives the text back, exactly.
pub proof fn lemma_tokenizer_round_trip(t: BasicTokenizer, text: Seq<char>)
    requires
        t.wf(),
        first_special(encode_utf8(text), special_bytes(t.spec_specials()), 0) is None,
    ensures
        ids_known(
            encode_text(encode_utf8(text), t.spec_merges(), special_bytes(t.spec_specials())),
            t.spec_vocab(),
            special_bytes(t.spec_specials()),
        ),
        valid_utf8(
            decode_ids(
                encode_text(encode_utf8(text), t.spec_merges(), special_bytes(t.spec_specials())),
                t.spec_vocab(),
                special_bytes(t.spec_specials()),
            ),
        ),
        decode_utf8(
            decode_ids(
                encode_text(encode_utf8(text), t.spec_merges(), special_bytes(t.spec_specials())),
                t.spec_vocab(),
                special_bytes(t.spec_specials()),
            ),
        ) == text,
{
    let b = encode_utf8(text);
    let spb = special_bytes(t.spec_specials());
    let merges = t.spec_merges();
    let vocab = t.spec_vocab();
    assert(encode_text(b, merges, spb) == encode_steps(byte_ids(b), merges));
    lemma_round_trip(text, merges, vocab, spb);
    lemma_byte_ids_bytes(b, vocab);
    lemma_encode_steps_preserves(byte_ids(b), merges, vocab);
    assert forall|i: int|
        0 <= i < encode_text(b, merges, spb).len() implies crate::codec::id_known(
        #[trigger] encode_text(b, merges, spb)[i],
        vocab,
        spb,
    ) by {
        assert(0 <= encode_steps(byte_ids(b), merges)[i] < vocab.len());
    }
}


} // verus!
