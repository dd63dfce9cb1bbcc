//! Search results and their ranking by estimated likelihood.

use vstd::prelude::*;

verus! {

broadcast use vstd::seq_lib::group_seq_properties;

/// A word (or set of words), along with how good a puzzle answer it is
/// estimated to be.
pub trait SearchResult {
    /// What is shown of the result.
    type Data;

    /// The result's score: higher means more likely.
    spec fn score(&self) -> u128;

    /// What is shown of the result.
    fn data(&self) -> Self::Data;

    /// The result's score.
    fn freq(&self) -> (r: u128)
        ensures
            r == self.score(),
    ;
}

/// Scores that never increase along the sequence.
pub open spec fn ranked<T: SearchResult>(s: Seq<T>) -> bool {
    forall|i: int, j: int| 0 <= i < j < s.len() ==> #[trigger] s[i].score() >= #[trigger] s[j].score()
}

/// `x` may come before `y`: its score is at least `y`'s when descending, at
/// most when ascending.
pub open spec fn comes_before<T: SearchResult>(x: T, y: T, descending: bool) -> bool {
    if descending {
        x.score() >= y.score()
    } else {
        x.score() <= y.score()
    }
}

/// Scores in descending or ascending order along the sequence.
pub open spec fn ordered<T: SearchResult>(s: Seq<T>, descending: bool) -> bool {
    forall|i: int, j: int| 0 <= i < j < s.len() ==> comes_before(#[trigger] s[i], #[trigger] s[j], descending)
}

/// Sorts search results by score, highest first. The order of results
/// with equal scores is unspecified.
pub fn sort_results<T: SearchResult>(results: Vec<T>) -> (r: Vec<T>)
    ensures
        r@.to_multiset() == results@.to_multiset(),
        ranked(r@),
{
    let r = sort_by_score(results, true);
    assert forall|i: int, j: int| 0 <= i < j < r@.len() implies #[trigger] r@[i].score()
        >= #[trigger] r@[j].score() by {
        assert(comes_before(r@[i], r@[j], true));
    }
    r
}

/// Merge sort by score. Each level merges from the back of halves sorted
/// the other way round, so that no element moves more than once per level.
fn sort_by_score<T: SearchResult>(v: Vec<T>, descending: bool) -> (r: Vec<T>)
    ensures
        r@.to_multiset() == v@.to_multiset(),
        ordered(r@, descending),
    decreases v@.len(),
{
    broadcast use vstd::multiset::group_multiset_axioms;

    let mut v = v;
    if v.len() <= 1 {
        return v;
    }
    let ghost all = v@;
    let mid = v.len() / 2;
    let right = v.split_off(mid);
    proof {
        assert(all =~= v@ + right@);
        vstd::seq_lib::lemma_multiset_commutative(v@, right@);
    }
    let mut a = sort_by_score(v, !descending);
    let mut b = sort_by_score(right, !descending);
    let mut out: Vec<T> = Vec::new();
    while a.len() > 0 || b.len() > 0
        invariant
            ordered(a@, !descending),
            ordered(b@, !descending),
            ordered(out@, descending),
            out@.to_multiset().add(a@.to_multiset()).add(b@.to_multiset()) == all.to_multiset(),
            forall|i: int, j: int|
                0 <= i < out@.len() && 0 <= j < a@.len() ==> comes_before(
                    #[trigger] out@[i],
                    #[trigger] a@[j],
                    descending,
                ),
            forall|i: int, j: int|
                0 <= i < out@.len() && 0 <= j < b@.len() ==> comes_before(
                    #[trigger] out@[i],
                    #[trigger] b@[j],
                    descending,
                ),
        decreases a@.len() + b@.len(),
    {
        let take_a = if a.len() == 0 {
            false
        } else if b.len() == 0 {
            true
        } else {
            let sa = a[a.len() - 1].freq();
            let sb = b[b.len() - 1].freq();
            if descending {
                sa >= sb
            } else {
                sa <= sb
            }
        };
        let ghost old_a = a@;
        let ghost old_b = b@;
        let ghost old_out = out@;
        let x = if take_a {
            a.pop().unwrap()
        } else {
            b.pop().unwrap()
        };
        proof {
            if take_a {
                assert(old_a =~= a@.push(x));
                assert forall|j: int| 0 <= j < a@.len() implies comes_before(x, #[trigger] a@[j], descending) by {
                    assert(comes_before(old_a[j], old_a[old_a.len() - 1], !descending));
                }
                assert forall|j: int| 0 <= j < b@.len() implies comes_before(x, #[trigger] b@[j], descending) by {
                    assert(comes_before(old_b[j], old_b[old_b.len() - 1], !descending) || j == old_b.len() - 1);
                }
                assert forall|i: int| 0 <= i < old_out.len() implies comes_before(#[trigger] old_out[i], x, descending) by {
                    assert(old_a[old_a.len() - 1] == x);
                }
            } else {
                assert(old_b =~= b@.push(x));
                assert forall|j: int| 0 <= j < b@.len() implies comes_before(x, #[trigger] b@[j], descending) by {
                    assert(comes_before(old_b[j], old_b[old_b.len() - 1], !descending));
                }
                assert forall|j: int| 0 <= j < a@.len() implies comes_before(x, #[trigger] a@[j], descending) by {
                    assert(comes_before(old_a[j], old_a[old_a.len() - 1], !descending) || j == old_a.len() - 1);
                }
                assert forall|i: int| 0 <= i < old_out.len() implies comes_before(#[trigger] old_out[i], x, descending) by {
                    assert(old_b[old_b.len() - 1] == x);
                }
            }
        }
        out.push(x);
        proof {
            assert(out@ =~= old_out.push(x));
            assert forall|i: int, j: int| 0 <= i < j < out@.len() implies comes_before(
                #[trigger] out@[i],
                #[trigger] out@[j],
                descending,
            ) by {
                if j == out@.len() - 1 {
                    assert(out@[j] == x);
                    assert(out@[i] == old_out[i]);
                } else {
                    assert(out@[i] == old_out[i] && out@[j] == old_out[j]);
                }
            }
        }
    }
    out
}

} // verus!
