//! Pair statistics and sequence rewriting: the two primitives of BPE
//! training. `get_stats` counts adjacent symbol pairs, `merge` replaces the
//! left-to-right, non-overlapping occurrences of one pair with a fresh id.

use unicode_segmentation::UnicodeSegmentation;
use vstd::prelude::*;
use vstd::string::StringExecFns;
use vstd::utf8::{decode_utf8, valid_utf8};

verus! {

/// The extended grapheme clusters of a string, in order. What the clusters
/// are is defined by Unicode segmentation; only the facts stated of the
/// wrapper below are assumed about them.
pub uninterp spec fn graphemes_of(s: Seq<char>) -> Seq<Seq<char>>;

/// Whether a character is a Unicode control character.
pub uninterp spec fn is_control_char(c: char) -> bool;

/// Relies on unicode_segmentation's `UnicodeSegmentation::graphemes` (with
/// extended clusters): it yields the grapheme clusters of the string in
/// order, and their concatenation is the original string.
#[verifier::external_body]
fn grapheme_clusters(s: &str) -> (r: Vec<String>)
    ensures
        r.deep_view() == graphemes_of(s@),
        r.deep_view().flatten() == s@,
{
    s.graphemes(true).map(|g| g.to_string()).collect()
}

/// Relies on `char::is_control`: whether the character is a control
/// character, a function of the character alone.
#[verifier::external_body]
fn char_is_control(c: char) -> (r: bool)
    ensures
        r == is_control_char(c),
{
    c.is_control()
}

/// Relies on `str::from_utf8`: it succeeds exactly on valid UTF-8, and then
/// returns the decoded characters.
#[verifier::external_body]
pub(crate) fn bytes_as_str(t: &[u8]) -> (r: Option<&str>)
    ensures
        r is Some <==> valid_utf8(t@),
        r matches Some(s) ==> s@ == decode_utf8(t@),
{
    core::str::from_utf8(t).ok()
}

/// Relies on `String::from_utf8_lossy`: bytes that are valid UTF-8 are
/// decoded unchanged.
#[verifier::external_body]
pub(crate) fn lossy_string(b: &[u8]) -> (r: String)
    ensures
        valid_utf8(b@) ==> r@ == decode_utf8(b@),
{
    String::from_utf8_lossy(b).into_owned()
}

/// Every character of the cluster is a control character (vacuously true of
/// an empty cluster).
pub open spec fn all_control(g: Seq<char>) -> bool {
    forall|i: int| 0 <= i < g.len() ==> is_control_char(#[trigger] g[i])
}

/// Concatenation of the clusters that contain at least one non-control
/// character, in order.
pub open spec fn strip_control(gs: Seq<Seq<char>>) -> Seq<char>
    decreases gs.len(),
{
    if gs.len() == 0 {
        Seq::<char>::empty()
    } else {
        (if all_control(gs[0]) {
            Seq::<char>::empty()
        } else {
            gs[0]
        }) + strip_control(gs.drop_first())
    }
}

/// Stripping one more cluster appends it when it is kept.
proof fn lemma_strip_control_snoc(gs: Seq<Seq<char>>, g: Seq<char>)
    ensures
        strip_control(gs.push(g)) == strip_control(gs) + (if all_control(g) {
            Seq::<char>::empty()
        } else {
            g
        }),
    decreases gs.len(),
{
    let tail: Seq<char> = if all_control(g) {
        Seq::<char>::empty()
    } else {
        g
    };
    if gs.len() == 0 {
        assert(gs.push(g)[0] == g);
        assert(gs.push(g).drop_first() =~= Seq::<Seq<char>>::empty());
        assert(strip_control(Seq::<Seq<char>>::empty()) =~= Seq::<char>::empty());
        assert(strip_control(gs) =~= Seq::<char>::empty());
        assert(strip_control(gs.push(g)) =~= strip_control(gs) + tail);
    } else {
        assert(gs.push(g).drop_first() =~= gs.drop_first().push(g));
        assert(gs.push(g)[0] == gs[0]);
        lemma_strip_control_snoc(gs.drop_first(), g);
        assert(strip_control(gs.push(g)) =~= strip_control(gs) + tail);
    }
}

/// Whether every character of the string is a control character.
fn str_all_control(s: &str) -> (r: bool)
    ensures
        r == all_control(s@),
{
    let n = s.unicode_len();
    let mut i: usize = 0;
    while i < n
        invariant
            i <= n,
            n == s@.len(),
            forall|j: int| 0 <= j < i ==> is_control_char(#[trigger] s@[j]),
        decreases n - i,
    {
        let c = s.get_char(i);
        if !char_is_control(c) {
            return false;
        }
        i = i + 1;
    }
    true
}

/// Remove every grapheme cluster that consists of control characters only,
/// keeping the rest of the text unchanged and in order.
pub fn replace_control_characters(s: &str) -> (r: String)
    ensures
        r@ == strip_control(graphemes_of(s@)),
{
    let gs = grapheme_clusters(s);
    let ghost gv = gs.deep_view();
    let mut out = String::new();
    let n = gs.len();
    let mut i: usize = 0;
    proof {
        assert(gv.take(0) =~= Seq::<Seq<char>>::empty());
        assert(strip_control(gv.take(0)) =~= Seq::<char>::empty());
    }
    while i < n
        invariant
            i <= n,
            n == gs@.len(),
            gv == gs.deep_view(),
            gv.len() == n,
            out@ == strip_control(gv.take(i as int)),
        decreases n - i,
    {
        let g = &gs[i];
        proof {
            assert(gv[i as int] == gs@[i as int]@);
            assert(gv.take(i + 1) =~= gv.take(i as int).push(gv[i as int]));
            lemma_strip_control_snoc(gv.take(i as int), gv[i as int]);
        }
        if !str_all_control(g.as_str()) {
            out.append(g.as_str());
        } else {
            proof {
                assert(out@ + Seq::<char>::empty() =~= out@);
            }
        }
        i = i + 1;
    }
    proof {
        assert(gv.take(n as int) =~= gv);
    }
    out
}

/// Pretty-print a token's bytes: decode them as UTF-8 and strip
/// control-only grapheme clusters; bytes that are not valid UTF-8 render as
/// a fixed note instead.
pub fn render_token(t: &[u8]) -> (r: String)
    ensures
        valid_utf8(t@) ==> r@ == strip_control(graphemes_of(decode_utf8(t@))),
        !valid_utf8(t@) ==> r@ == "Invalid UTF-8"@,
{
    match bytes_as_str(t) {
        Some(s) => replace_control_characters(s),
        None => String::from_str("Invalid UTF-8"),
    }
}

/// Number of adjacent positions of `s` holding the pair `p`.
pub open spec fn pair_count(s: Seq<i32>, p: (i32, i32)) -> nat
    decreases s.len(),
{
    if s.len() < 2 {
        0
    } else {
        pair_count(s.drop_last(), p) + (if s[s.len() - 2] == p.0 && s[s.len() - 1] == p.1 {
            1nat
        } else {
            0nat
        })
    }
}

/// The pair `p` stands somewhere in `s` at adjacent positions.
pub open spec fn occurs(s: Seq<i32>, p: (i32, i32)) -> bool {
    exists|i: int| 0 <= i && i + 1 < s.len() && #[trigger] s[i] == p.0 && s[i + 1] == p.1
}

/// Total weight that a list of count entries gives the pair `p`.
pub open spec fn entries_count(s: Seq<((i32, i32), usize)>, p: (i32, i32)) -> nat
    decreases s.len(),
{
    if s.len() == 0 {
        0
    } else {
        entries_count(s.drop_last(), p) + (if s.last().0 == p {
            s.last().1 as nat
        } else {
            0nat
        })
    }
}

/// Sum of all counts in a list of count entries.
pub open spec fn entries_total(s: Seq<((i32, i32), usize)>) -> nat
    decreases s.len(),
{
    if s.len() == 0 {
        0
    } else {
        entries_total(s.drop_last()) + s.last().1 as nat
    }
}

/// A frequency table over symbol pairs. Semantically a map from pair to
/// count; pairs that never occurred have count zero and are not stored.
pub struct PairCounts {
    entries: Vec<((i32, i32), usize)>,
}

impl PairCounts {
    /// The stored entries, in insertion order.
    pub closed spec fn pairs(self) -> Seq<((i32, i32), usize)> {
        self.entries@
    }

    /// The count recorded for the pair `p` (zero if absent).
    pub open spec fn count(self, p: (i32, i32)) -> nat {
        entries_count(self.pairs(), p)
    }

    /// Sum of the counts of all pairs.
    pub open spec fn total(self) -> nat {
        entries_total(self.pairs())
    }

    /// Each pair is stored at most once, and only with a positive count.
    pub open spec fn wf(self) -> bool {
        &&& forall|i: int, j: int|
            0 <= i < j < self.pairs().len() ==> (#[trigger] self.pairs()[i]).0 != (
            #[trigger] self.pairs()[j]).0
        &&& forall|i: int| 0 <= i < self.pairs().len() ==> (#[trigger] self.pairs()[i]).1 > 0
    }

    /// An empty table.
    pub fn new() -> (r: Self)
        ensures
            r.wf(),
            r.pairs() == Seq::<((i32, i32), usize)>::empty(),
    {
        PairCounts { entries: Vec::new() }
    }

    /// Number of distinct pairs recorded.
    pub fn len(&self) -> (r: usize)
        ensures
            r == self.pairs().len(),
    {
        self.entries.len()
    }

    /// The entry at position `i`, as `(pair, count)`.
    pub fn entry(&self, i: usize) -> (r: ((i32, i32), usize))
        requires
            i < self.pairs().len(),
        ensures
            r == self.pairs()[i as int],
    {
        self.entries[i]
    }

    /// The count recorded for `p`, or zero if `p` was never counted.
    pub fn get(&self, p: (i32, i32)) -> (r: usize)
        requires
            self.wf(),
        ensures
            r == self.count(p),
    {
        let n = self.entries.len();
        let mut i: usize = 0;
        while i < n
            invariant
                i <= n,
                n == self.pairs().len(),
                self.wf(),
                entries_count(self.pairs().take(i as int), p) == 0,
            decreases n - i,
        {
            let e = self.entries[i];
            if e.0 .0 == p.0 && e.0 .1 == p.1 {
                proof {
                    lemma_entries_count_split(self.pairs(), i as int, p);
                }
                return e.1;
            }
            proof {
                assert(self.pairs().take(i + 1).drop_last() =~= self.pairs().take(i as int));
                assert(self.pairs().take(i + 1).last() == self.pairs()[i as int]);
            }
            i = i + 1;
        }
        proof {
            assert(self.pairs().take(n as int) =~= self.pairs());
        }
        0
    }

    /// Add one occurrence of the pair `p` to the table.
    pub fn increment(&mut self, p: (i32, i32))
        requires
            old(self).wf(),
            old(self).total() < usize::MAX,
        ensures
            final(self).wf(),
            forall|q: (i32, i32)|
                final(self).count(q) == old(self).count(q) + (if q == p {
                    1nat
                } else {
                    0nat
                }),
            final(self).total() == old(self).total() + 1,
            final(self).pairs().len() == old(self).pairs().len() + (if old(self).count(p) == 0 {
                1int
            } else {
                0int
            }),
    {
        let ghost s0 = self.pairs();
        let n = self.entries.len();
        let mut i: usize = 0;
        while i < n
            invariant
                i <= n,
                self.pairs() == s0,
                n == s0.len(),
                old(self).wf(),
                self == old(self),
                entries_total(s0) < usize::MAX,
                entries_count(s0.take(i as int), p) == 0,
                forall|j: int| 0 <= j < i ==> (#[trigger] s0[j]).0 != p,
            decreases n - i,
        {
            let e = self.entries[i];
            if e.0 .0 == p.0 && e.0 .1 == p.1 {
                proof {
                    lemma_entries_count_split(s0, i as int, p);
                    lemma_entry_le_total(s0, i as int);
                }
                let c = e.1;
                self.entries.set(i, (e.0, c + 1));
                proof {
                    lemma_entries_update(s0, self.pairs(), i as int, p);
                }
                return ;
            }
            proof {
                assert(s0.take(i + 1).drop_last() =~= s0.take(i as int));
                assert(s0.take(i + 1).last() == s0[i as int]);
            }
            i = i + 1;
        }
        self.entries.push((p, 1));
        proof {
            assert(s0.take(n as int) =~= s0);
            assert(self.pairs().drop_last() =~= s0);
            assert(self.pairs().last() == (p, 1usize));
            assert forall|q: (i32, i32)|
                final(self).count(q) == old(self).count(q) + (if q == p {
                    1nat
                } else {
                    0nat
                }) by {
                lemma_entries_count_absent_prefix(s0, self.pairs(), q, p);
            }
        }
    }
}

/// Count recorded for `p` in an optional table (zero when no table is given).
pub open spec fn opt_count(c: Option<PairCounts>, p: (i32, i32)) -> nat {
    match c {
        Some(t) => t.count(p),
        None => 0,
    }
}

/// Total of an optional table (zero when no table is given).
pub open spec fn opt_total(c: Option<PairCounts>) -> nat {
    match c {
        Some(t) => t.total(),
        None => 0,
    }
}

/// Count every adjacent pair of `ids`, accumulating into `counts` when a
/// table is given. The total of the result grows by one per adjacent
/// position: by `ids.len() - 1` for a non-empty sequence, by zero otherwise.
pub fn get_stats(ids: &[i32], counts: Option<PairCounts>) -> (r: PairCounts)
    requires
        (counts matches Some(c) ==> c.wf() && c.total() + ids@.len() <= usize::MAX),
    ensures
        r.wf(),
        forall|p: (i32, i32)| #[trigger] r.count(p) == opt_count(counts, p) + pair_count(ids@, p),
        r.total() == opt_total(counts) + (if ids@.len() == 0 {
            0int
        } else {
            ids@.len() - 1
        }),
{
    let ghost c0 = counts;
    let mut table = match counts {
        Some(t) => t,
        None => PairCounts::new(),
    };
    let n = ids.len();
    let mut i: usize = 0;
    proof {
        assert(ids@.take(if 0 + 1 <= n {
            1int
        } else {
            0int
        }).len() < 2);
    }
    while i + 1 < n
        invariant
            n == ids@.len(),
            i + 1 <= n || (i == 0 && n == 0),
            table.wf(),
            entries_total(table.pairs()) == opt_total(c0) + i,
            opt_total(c0) + n <= usize::MAX,
            forall|p: (i32, i32)| #[trigger]
                table.count(p) == opt_count(c0, p) + pair_count(
                    ids@.take(if i + 1 <= n {
                        i + 1
                    } else {
                        0int
                    }),
                    p,
                ),
        decreases n - i,
    {
        let pair = (ids[i], ids[i + 1]);
        table.increment(pair);
        proof {
            let pre = ids@.take(i + 1);
            let post = ids@.take(i + 2);
            assert(post.drop_last() =~= pre);
            assert(post[i as int] == ids@[i as int]);
            assert(post[i + 1] == ids@[i + 1]);
        }
        i = i + 1;
    }
    proof {
        if n == 0 {
            assert(ids@.take(0) =~= ids@);
        } else {
            assert(i + 1 == n);
            assert(ids@.take(n as int) =~= ids@);
        }
    }
    table
}

/// In a well-formed table the entry at position `i` records exactly the
/// count of its pair.
pub proof fn lemma_stored_count(t: PairCounts, i: int)
    requires
        t.wf(),
        0 <= i < t.pairs().len(),
    ensures
        t.count(t.pairs()[i].0) == t.pairs()[i].1,
{
    lemma_entries_count_split(t.pairs(), i, t.pairs()[i].0);
}

/// A pair with a positive count is stored somewhere in the table.
pub proof fn lemma_positive_count_stored(t: PairCounts, p: (i32, i32))
    requires
        t.count(p) > 0,
    ensures
        exists|j: int| 0 <= j < t.pairs().len() && (#[trigger] t.pairs()[j]).0 == p,
{
    if forall|j: int| 0 <= j < t.pairs().len() ==> (#[trigger] t.pairs()[j]).0 != p {
        lemma_entries_count_zero(t.pairs(), p);
    }
}

/// A sequence of length at least two has at least one adjacent pair: its
/// first two symbols.
pub proof fn lemma_first_pair_counted(s: Seq<i32>)
    requires
        s.len() >= 2,
    ensures
        pair_count(s, (s[0], s[1])) > 0,
    decreases s.len(),
{
    if s.len() > 2 {
        assert(s.drop_last()[0] == s[0]);
        assert(s.drop_last()[1] == s[1]);
        lemma_first_pair_counted(s.drop_last());
    }
}

/// A pair occurs in a sequence exactly when its count is positive.
pub proof fn lemma_pair_count_occurs(s: Seq<i32>, p: (i32, i32))
    ensures
        pair_count(s, p) > 0 <==> occurs(s, p),
    decreases s.len(),
{
    if s.len() >= 2 {
        lemma_pair_count_occurs(s.drop_last(), p);
        if pair_count(s, p) > 0 {
            if pair_count(s.drop_last(), p) > 0 {
                let i = choose|i: int|
                    0 <= i && i + 1 < s.drop_last().len() && #[trigger] s.drop_last()[i] == p.0
                        && s.drop_last()[i + 1] == p.1;
                assert(s[i] == p.0 && s[i + 1] == p.1);
            } else {
                assert(s[s.len() - 2] == p.0 && s[s.len() - 1] == p.1);
            }
        }
        if occurs(s, p) {
            let i = choose|i: int| 0 <= i && i + 1 < s.len() && #[trigger] s[i] == p.0 && s[i + 1] == p.1;
            if i + 1 < s.len() - 1 {
                assert(s.drop_last()[i] == p.0 && s.drop_last()[i + 1] == p.1);
                assert(occurs(s.drop_last(), p));
            }
        }
    }
}

/// With `p` stored at position `i` and nowhere else, the table's count for
/// `p` is exactly the count of that entry.
proof fn lemma_entries_count_split(s: Seq<((i32, i32), usize)>, i: int, p: (i32, i32))
    requires
        0 <= i < s.len(),
        s[i].0 == p,
        forall|j: int| 0 <= j < s.len() && j != i ==> (#[trigger] s[j]).0 != p,
    ensures
        entries_count(s, p) == s[i].1,
    decreases s.len(),
{
    if i == s.len() - 1 {
        lemma_entries_count_zero(s.drop_last(), p);
    } else {
        assert(s.drop_last()[i] == s[i]);
        lemma_entries_count_split(s.drop_last(), i, p);
    }
}

/// A pair stored nowhere has count zero.
proof fn lemma_entries_count_zero(s: Seq<((i32, i32), usize)>, p: (i32, i32))
    requires
        forall|j: int| 0 <= j < s.len() ==> (#[trigger] s[j]).0 != p,
    ensures
        entries_count(s, p) == 0,
    decreases s.len(),
{
    if s.len() > 0 {
        lemma_entries_count_zero(s.drop_last(), p);
    }
}

/// Each stored count is at most the total.
proof fn lemma_entry_le_total(s: Seq<((i32, i32), usize)>, i: int)
    requires
        0 <= i < s.len(),
    ensures
        s[i].1 <= entries_total(s),
    decreases s.len(),
{
    if i < s.len() - 1 {
        assert(s.drop_last()[i] == s[i]);
        lemma_entry_le_total(s.drop_last(), i);
    }
}

/// Effect of raising one entry's count by one, on every pair's count and on
/// the total.
proof fn lemma_entries_update(
    s: Seq<((i32, i32), usize)>,
    t: Seq<((i32, i32), usize)>,
    i: int,
    p: (i32, i32),
)
    requires
        0 <= i < s.len(),
        s[i].0 == p,
        t == s.update(i, (s[i].0, (s[i].1 + 1) as usize)),
        s[i].1 + 1 <= usize::MAX,
    ensures
        forall|q: (i32, i32)|
            entries_count(t, q) == entries_count(s, q) + (if q == p {
                1nat
            } else {
                0nat
            }),
        entries_total(t) == entries_total(s) + 1,
        t.len() == s.len(),
    decreases s.len(),
{
    assert forall|q: (i32, i32)|
        entries_count(t, q) == entries_count(s, q) + (if q == p {
            1nat
        } else {
            0nat
        }) by {
        lemma_entries_update_one(s, t, i, p, q);
    }
    lemma_entries_update_total(s, t, i, p);
}

proof fn lemma_entries_update_one(
    s: Seq<((i32, i32), usize)>,
    t: Seq<((i32, i32), usize)>,
    i: int,
    p: (i32, i32),
    q: (i32, i32),
)
    requires
        0 <= i < s.len(),
        s[i].0 == p,
        t == s.update(i, (s[i].0, (s[i].1 + 1) as usize)),
        s[i].1 + 1 <= usize::MAX,
    ensures
        entries_count(t, q) == entries_count(s, q) + (if q == p {
            1nat
        } else {
            0nat
        }),
    decreases s.len(),
{
    if i == s.len() - 1 {
        assert(t.drop_last() =~= s.drop_last());
        assert(t.last() == (s[i].0, (s[i].1 + 1) as usize));
    } else {
        assert(t.drop_last() =~= s.drop_last().update(i, (s[i].0, (s[i].1 + 1) as usize)));
        assert(s.drop_last()[i] == s[i]);
        lemma_entries_update_one(s.drop_last(), t.drop_last(), i, p, q);
        assert(t.last() == s.last());
    }
}

proof fn lemma_entries_update_total(
    s: Seq<((i32, i32), usize)>,
    t: Seq<((i32, i32), usize)>,
    i: int,
    p: (i32, i32),
)
    requires
        0 <= i < s.len(),
        s[i].0 == p,
        t == s.update(i, (s[i].0, (s[i].1 + 1) as usize)),
        s[i].1 + 1 <= usize::MAX,
    ensures
        entries_total(t) == entries_total(s) + 1,
    decreases s.len(),
{
    if i == s.len() - 1 {
        assert(t.drop_last() =~= s.drop_last());
        assert(t.last() == (s[i].0, (s[i].1 + 1) as usize));
    } else {
        assert(t.drop_last() =~= s.drop_last().update(i, (s[i].0, (s[i].1 + 1) as usize)));
        assert(s.drop_last()[i] == s[i]);
        lemma_entries_update_total(s.drop_last(), t.drop_last(), i, p);
        assert(t.last() == s.last());
    }
}

/// Appending a fresh entry `(p, 1)` to a list that never stored `p` raises
/// the count of `p` by one and leaves every other count unchanged.
proof fn lemma_entries_count_absent_prefix(
    s: Seq<((i32, i32), usize)>,
    t: Seq<((i32, i32), usize)>,
    q: (i32, i32),
    p: (i32, i32),
)
    requires
        t.len() == s.len() + 1,
        t.drop_last() == s,
        t.last() == ((p, 1usize)),
    ensures
        entries_count(t, q) == entries_count(s, q) + (if q == p {
            1nat
        } else {
            0nat
        }),
{
}

/// Left-to-right, non-overlapping replacement of the pair `p` by `idx`:
/// a match consumes both positions, anything else is copied unchanged.
pub open spec fn merge_seq(s: Seq<i32>, p: (i32, i32), idx: i32) -> Seq<i32>
    decreases s.len(),
{
    if s.len() >= 2 && s[0] == p.0 && s[1] == p.1 {
        seq![idx] + merge_seq(s.skip(2), p, idx)
    } else if s.len() >= 1 {
        seq![s[0]] + merge_seq(s.skip(1), p, idx)
    } else {
        Seq::<i32>::empty()
    }
}

/// Merging never lengthens a sequence.
pub proof fn lemma_merge_len_le(s: Seq<i32>, p: (i32, i32), idx: i32)
    ensures
        merge_seq(s, p, idx).len() <= s.len(),
    decreases s.len(),
{
    if s.len() >= 2 && s[0] == p.0 && s[1] == p.1 {
        lemma_merge_len_le(s.skip(2), p, idx);
    } else if s.len() >= 1 {
        lemma_merge_len_le(s.skip(1), p, idx);
    }
}

/// Merging a pair that occurs strictly shortens the sequence.
pub proof fn lemma_merge_decreases(s: Seq<i32>, p: (i32, i32), idx: i32)
    requires
        occurs(s, p),
    ensures
        merge_seq(s, p, idx).len() < s.len(),
    decreases s.len(),
{
    if s.len() >= 2 && s[0] == p.0 && s[1] == p.1 {
        lemma_merge_len_le(s.skip(2), p, idx);
    } else {
        let i = choose|i: int| 0 <= i && i + 1 < s.len() && #[trigger] s[i] == p.0 && s[i + 1] == p.1;
        assert(i >= 1);
        assert(s.skip(1)[i - 1] == s[i]);
        assert(s.skip(1)[i] == s[i + 1]);
        assert(occurs(s.skip(1), p));
        lemma_merge_decreases(s.skip(1), p, idx);
    }
}

/// Every symbol of a merged sequence is either the fresh id or one of the
/// original symbols.
pub proof fn lemma_merge_elements(s: Seq<i32>, p: (i32, i32), idx: i32, e: i32)
    requires
        merge_seq(s, p, idx).contains(e),
    ensures
        e == idx || s.contains(e),
    decreases s.len(),
{
    let m = merge_seq(s, p, idx);
    if s.len() >= 2 && s[0] == p.0 && s[1] == p.1 {
        if e != idx {
            assert(merge_seq(s.skip(2), p, idx).contains(e)) by {
                let i = choose|i: int| 0 <= i < m.len() && m[i] == e;
                assert(m[i] == (seq![idx] + merge_seq(s.skip(2), p, idx))[i]);
                assert(merge_seq(s.skip(2), p, idx)[i - 1] == e);
            }
            lemma_merge_elements(s.skip(2), p, idx, e);
            let j = choose|j: int| 0 <= j < s.skip(2).len() && s.skip(2)[j] == e;
            assert(s[j + 2] == e);
        }
    } else if s.len() >= 1 {
        if e != s[0] {
            assert(merge_seq(s.skip(1), p, idx).contains(e)) by {
                let i = choose|i: int| 0 <= i < m.len() && m[i] == e;
                assert(merge_seq(s.skip(1), p, idx)[i - 1] == e);
            }
            lemma_merge_elements(s.skip(1), p, idx, e);
            if e != idx {
                let j = choose|j: int| 0 <= j < s.skip(1).len() && s.skip(1)[j] == e;
                assert(s[j + 1] == e);
            }
        } else {
            assert(s.contains(e)) by {
                assert(s[0] == e);
            }
        }
    }
}

/// Replace every left-to-right, non-overlapping occurrence of `pair` in
/// `ids` with the symbol `idx`; a merged pair never re-matches through its
/// own just-consumed right element.
pub fn merge(ids: &[i32], pair: (i32, i32), idx: i32) -> (r: Vec<i32>)
    ensures
        r@ == merge_seq(ids@, pair, idx),
{
    let mut newids: Vec<i32> = Vec::new();
    let mut i: usize = 0;
    assert(newids@ + merge_seq(ids@.skip(0), pair, idx) =~= merge_seq(ids@, pair, idx)) by {
        assert(ids@.skip(0) =~= ids@);
    }
    while i < ids.len()
        invariant
            i <= ids@.len(),
            newids@ + merge_seq(ids@.skip(i as int), pair, idx) == merge_seq(ids@, pair, idx),
        decreases ids@.len() - i,
    {
        let ghost rest = ids@.skip(i as int);
        assert(rest[0] == ids@[i as int]);
        if ids[i] == pair.0 && i < ids.len() - 1 && ids[i + 1] == pair.1 {
            assert(rest[1] == ids@[i + 1]);
            assert(rest.skip(2) =~= ids@.skip(i + 2));
            newids.push(idx);
            assert(newids@ + merge_seq(ids@.skip(i + 2), pair, idx) =~= merge_seq(ids@, pair, idx));
            i = i + 2;
        } else {
            assert(rest.skip(1) =~= ids@.skip(i + 1));
            assert(merge_seq(rest, pair, idx) == seq![rest[0]] + merge_seq(rest.skip(1), pair, idx));
            newids.push(ids[i]);
            assert(newids@ + merge_seq(ids@.skip(i + 1), pair, idx) =~= merge_seq(ids@, pair, idx));
            i = i + 1;
        }
    }
    assert(ids@.skip(i as int) =~= Seq::<i32>::empty());
    assert(newids@ =~= merge_seq(ids@, pair, idx));
    newids
}

} // verus!
