//! Deterministic merge selection: from a frequency table, pick the pair with
//! the highest count, breaking ties by the lexicographically smallest
//! `(left id, right id)`. The tie-break makes training reproducible.

use vstd::prelude::*;

use crate::base::{PairCounts, lemma_stored_count, lemma_positive_count_stored, pair_count};

verus! {

/// Strict lexicographic order on pairs of symbol ids.
pub open spec fn lex_lt(a: (i32, i32), b: (i32, i32)) -> bool {
    a.0 < b.0 || (a.0 == b.0 && a.1 < b.1)
}

/// `p` is the selection the trainer must make from table `t`: present, of
/// maximal count, and lexicographically smallest among pairs of that count.
pub open spec fn is_selection(t: PairCounts, p: (i32, i32)) -> bool {
    &&& t.count(p) > 0
    &&& forall|q: (i32, i32)| #[trigger] t.count(q) <= t.count(p)
    &&& forall|q: (i32, i32)| #[trigger] t.count(q) == t.count(p) && q != p ==> lex_lt(p, q)
}

/// The same selection rule stated over a symbol sequence directly, through
/// its adjacent-pair counts.
pub open spec fn is_seq_selection(s: Seq<i32>, p: (i32, i32)) -> bool {
    &&& pair_count(s, p) > 0
    &&& forall|q: (i32, i32)| #[trigger] pair_count(s, q) <= pair_count(s, p)
    &&& forall|q: (i32, i32)| #[trigger] pair_count(s, q) == pair_count(s, p) && q != p ==> lex_lt(
        p,
        q,
    )
}

/// At most one pair satisfies the selection rule over a sequence.
pub proof fn lemma_seq_selection_unique(s: Seq<i32>, p: (i32, i32), q: (i32, i32))
    requires
        is_seq_selection(s, p),
        is_seq_selection(s, q),
    ensures
        p == q,
{
    if p != q {
        assert(pair_count(s, p) == pair_count(s, q));
        assert(lex_lt(p, q) && lex_lt(q, p));
    }
}

/// Pick the pair to merge next: `None` exactly when the table is empty,
/// otherwise the unique selection of the table.
pub fn pick_pair(t: &PairCounts) -> (r: Option<(i32, i32)>)
    requires
        t.wf(),
    ensures
        r is None <==> t.pairs().len() == 0,
        r matches Some(p) ==> is_selection(*t, p),
{
    let n = t.len();
    if n == 0 {
        return None;
    }
    let first = t.entry(0);
    let mut best_pair = first.0;
    let mut best_count = first.1;
    proof {
        lemma_stored_count(*t, 0);
    }
    let mut i: usize = 1;
    while i < n
        invariant
            1 <= i <= n,
            n == t.pairs().len(),
            t.wf(),
            best_count == t.count(best_pair),
            best_count > 0,
            forall|j: int| 0 <= j < i ==> (#[trigger] t.pairs()[j]).1 <= best_count,
            forall|j: int|
                0 <= j < i && (#[trigger] t.pairs()[j]).1 == best_count && t.pairs()[j].0
                    != best_pair ==> lex_lt(best_pair, t.pairs()[j].0),
        decreases n - i,
    {
        let e = t.entry(i);
        proof {
            lemma_stored_count(*t, i as int);
        }
        if e.1 > best_count || (e.1 == best_count && (e.0 .0 < best_pair.0 || (e.0 .0
            == best_pair.0 && e.0 .1 < best_pair.1))) {
            best_pair = e.0;
            best_count = e.1;
        }
        i = i + 1;
    }
    proof {
        assert forall|q: (i32, i32)| #[trigger] t.count(q) <= t.count(best_pair) by {
            if t.count(q) > 0 {
                lemma_positive_count_stored(*t, q);
                let j = choose|j: int|
                    0 <= j < t.pairs().len() && (#[trigger] t.pairs()[j]).0 == q;
                lemma_stored_count(*t, j);
            }
        }
        assert forall|q: (i32, i32)| #[trigger]
            t.count(q) == t.count(best_pair) && q != best_pair implies lex_lt(best_pair, q) by {
            lemma_positive_count_stored(*t, q);
            let j = choose|j: int| 0 <= j < t.pairs().len() && (#[trigger] t.pairs()[j]).0 == q;
            lemma_stored_count(*t, j);
        }
    }
    Some(best_pair)
}

} // verus!
