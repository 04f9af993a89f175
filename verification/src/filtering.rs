//! What a filter leaves of a sequence.

use vstd::prelude::*;

verus! {

/// What a filter leaves was there before.
pub proof fn lemma_filter_within<A>(s: Seq<A>, pred: spec_fn(A) -> bool, i: int)
    requires
        0 <= i < s.filter(pred).len(),
    ensures
        s.contains(s.filter(pred)[i]),
    decreases s.len(),
{
    reveal(Seq::filter);
    let init = s.drop_last();
    if i < init.filter(pred).len() {
        lemma_filter_within(init, pred, i);
        let j = choose|j: int| 0 <= j < init.len() && init[j] == init.filter(pred)[i];
        assert(s[j] == s.filter(pred)[i]);
    } else {
        assert(s[s.len() - 1] == s.filter(pred)[i]);
    }
}

/// What passes a filter is left by it.
pub proof fn lemma_filter_complete<A>(s: Seq<A>, pred: spec_fn(A) -> bool, x: A)
    requires
        s.contains(x),
        pred(x),
    ensures
        s.filter(pred).contains(x),
    decreases s.len(),
{
    reveal(Seq::filter);
    let init = s.drop_last();
    if init.contains(x) {
        lemma_filter_complete(init, pred, x);
        let k = choose|k: int| 0 <= k < init.filter(pred).len() && init.filter(pred)[k] == x;
        assert(s.filter(pred)[k] == x);
    } else {
        let k = choose|k: int| 0 <= k < s.len() && s[k] == x;
        assert(k == s.len() - 1) by {
            if k < s.len() - 1 {
                assert(init[k] == x);
            }
        }
        assert(s.filter(pred)[init.filter(pred).len() as int] == x);
    }
}

/// A filter makes nothing occur twice.
pub proof fn lemma_filter_distinct<A>(s: Seq<A>, pred: spec_fn(A) -> bool)
    requires
        s.no_duplicates(),
    ensures
        s.filter(pred).no_duplicates(),
    decreases s.len(),
{
    reveal(Seq::filter);
    if s.len() > 0 {
        let init = s.drop_last();
        lemma_filter_distinct(init, pred);
        let all = s.filter(pred);
        assert forall|i: int, j: int| 0 <= i < all.len() && 0 <= j < all.len() && i
            != j implies all[i] != all[j] by {
            if pred(s.last()) {
                let m = all.len() - 1;
                if i == m {
                    lemma_filter_within(init, pred, j);
                } else if j == m {
                    lemma_filter_within(init, pred, i);
                }
            }
        }
    }
}

/// What a filter leaves passes it.
pub proof fn lemma_filter_passes<A>(s: Seq<A>, pred: spec_fn(A) -> bool, i: int)
    requires
        0 <= i < s.filter(pred).len(),
    ensures
        pred(s.filter(pred)[i]),
    decreases s.len(),
{
    reveal(Seq::filter);
    if i < s.drop_last().filter(pred).len() {
        lemma_filter_passes(s.drop_last(), pred, i);
    }
}

} // verus!
