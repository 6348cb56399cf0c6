//! Facts about filtered sequences that several components rely on.

use vstd::prelude::*;

verus! {

/// `rel` holds of every two elements of `s`, the earlier one first.
pub open spec fn pairwise<A>(s: Seq<A>, rel: spec_fn(A, A) -> bool) -> bool {
    forall|i: int, j: int| 0 <= i < j < s.len() ==> rel(#[trigger] s[i], #[trigger] s[j])
}

/// Filtering keeps a sequence as it is where every element passes.
pub proof fn lemma_filter_keeps_all<A>(s: Seq<A>, pred: spec_fn(A) -> bool)
    requires
        forall|j: int| 0 <= j < s.len() ==> pred(#[trigger] s[j]),
    ensures
        s.filter(pred) == s,
    decreases s.len(),
{
    reveal(Seq::filter);
    if s.len() > 0 {
        let front = s.drop_last();
        assert forall|j: int| 0 <= j < front.len() implies pred(#[trigger] front[j]) by {
            assert(front[j] == s[j]);
        }
        lemma_filter_keeps_all(front, pred);
        assert(pred(s[s.len() - 1]));
        assert(front.push(s.last()) == s);
    }
}

/// Filtering removes the one element that does not pass.
pub proof fn lemma_filter_drops_one<A>(s: Seq<A>, pred: spec_fn(A) -> bool, i: int)
    requires
        0 <= i < s.len(),
        !pred(s[i]),
        forall|j: int| 0 <= j < s.len() && j != i ==> pred(#[trigger] s[j]),
    ensures
        s.filter(pred) == s.remove(i),
    decreases s.len(),
{
    reveal(Seq::filter);
    let front = s.drop_last();
    if i == s.len() - 1 {
        assert forall|j: int| 0 <= j < front.len() implies pred(#[trigger] front[j]) by {
            assert(front[j] == s[j]);
        }
        lemma_filter_keeps_all(front, pred);
        assert(front == s.remove(i));
    } else {
        assert forall|j: int| 0 <= j < front.len() && j != i implies pred(#[trigger] front[j]) by {
            assert(front[j] == s[j]);
        }
        assert(front[i] == s[i]);
        lemma_filter_drops_one(front, pred, i);
        assert(pred(s[s.len() - 1]));
        assert(front.remove(i).push(s.last()) == s.remove(i));
    }
}

/// What passes a filter stood in the sequence and passes the test, and what
/// holds of every two elements in their order still holds of those that pass.
pub proof fn lemma_filter_keeps_pairwise<A>(
    s: Seq<A>,
    pred: spec_fn(A) -> bool,
    rel: spec_fn(A, A) -> bool,
)
    requires
        pairwise(s, rel),
    ensures
        pairwise(s.filter(pred), rel),
        s.filter(pred).len() <= s.len(),
        forall|k: int|
            0 <= k < s.filter(pred).len() ==> s.contains(#[trigger] s.filter(pred)[k]) && pred(
                s.filter(pred)[k],
            ),
    decreases s.len(),
{
    reveal(Seq::filter);
    if s.len() > 0 {
        let front = s.drop_last();
        assert forall|i: int, j: int| 0 <= i < j < front.len() implies rel(
            #[trigger] front[i],
            #[trigger] front[j],
        ) by {
            assert(front[i] == s[i] && front[j] == s[j]);
        }
        lemma_filter_keeps_pairwise(front, pred, rel);
        let kept = front.filter(pred);
        let out = s.filter(pred);
        assert forall|k: int| 0 <= k < out.len() implies s.contains(#[trigger] out[k]) && pred(
            out[k],
        ) by {
            if k < kept.len() {
                assert(out[k] == kept[k]);
                assert(front.contains(kept[k]));
                let m = choose|m: int| 0 <= m < front.len() && front[m] == kept[k];
                assert(s[m] == kept[k]);
            } else {
                assert(out[k] == s[s.len() - 1]);
            }
        }
        if pred(s.last()) {
            assert forall|i: int, j: int| 0 <= i < j < out.len() implies rel(
                #[trigger] out[i],
                #[trigger] out[j],
            ) by {
                assert(out[i] == kept[i]);
                if j < kept.len() {
                    assert(out[j] == kept[j]);
                } else {
                    assert(front.contains(kept[i]));
                    let m = choose|m: int| 0 <= m < front.len() && front[m] == kept[i];
                    assert(s[m] == kept[i]);
                    assert(s[s.len() - 1] == out[j]);
                }
            }
        }
    }
}

/// What passes a filter of a sequence without duplicates has none.
pub proof fn lemma_filter_keeps_no_duplicates<A>(s: Seq<A>, pred: spec_fn(A) -> bool)
    requires
        s.no_duplicates(),
    ensures
        s.filter(pred).no_duplicates(),
        forall|k: int|
            0 <= k < s.filter(pred).len() ==> s.contains(#[trigger] s.filter(pred)[k]) && pred(
                s.filter(pred)[k],
            ),
    decreases s.len(),
{
    reveal(Seq::filter);
    if s.len() > 0 {
        let front = s.drop_last();
        assert forall|i: int, j: int| 0 <= i < front.len() && 0 <= j < front.len() && i
            != j implies front[i] != front[j] by {
            assert(front[i] == s[i] && front[j] == s[j]);
        }
        lemma_filter_keeps_no_duplicates(front, pred);
        let kept = front.filter(pred);
        let out = s.filter(pred);
        assert forall|k: int| 0 <= k < out.len() implies s.contains(#[trigger] out[k]) && pred(
            out[k],
        ) by {
            if k < kept.len() {
                assert(out[k] == kept[k]);
                assert(front.contains(kept[k]));
                let m = choose|m: int| 0 <= m < front.len() && front[m] == kept[k];
                assert(s[m] == kept[k]);
            } else {
                assert(out[k] == s[s.len() - 1]);
            }
        }
        if pred(s.last()) {
            assert forall|i: int, j: int| 0 <= i < out.len() && 0 <= j < out.len() && i
                != j implies out[i] != out[j] by {
                if i < kept.len() && j < kept.len() {
                    assert(out[i] == kept[i] && out[j] == kept[j]);
                } else {
                    let a = if i < kept.len() {
                        i
                    } else {
                        j
                    };
                    assert(out[a] == kept[a]);
                    assert(front.contains(kept[a]));
                    let m = choose|m: int| 0 <= m < front.len() && front[m] == kept[a];
                    assert(s[m] == kept[a]);
                    assert(s[m] != s[s.len() - 1]);
                }
            }
        }
    }
}

/// Every element of a sequence that passes a test stands in the filtered
/// sequence.
pub proof fn lemma_filter_holds<A>(s: Seq<A>, pred: spec_fn(A) -> bool, x: A)
    requires
        s.contains(x),
        pred(x),
    ensures
        s.filter(pred).contains(x),
{
    broadcast use vstd::seq_lib::group_filter_ensures;

    let i = choose|i: int| 0 <= i < s.len() && s[i] == x;
    assert(s.filter(pred).contains(s[i]));
}

} // verus!
