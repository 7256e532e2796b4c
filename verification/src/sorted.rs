//! Sequences of record identifiers in a strict order.

use vstd::prelude::*;

verus! {

/// Whether `below` is irreflexive and transitive.
pub open spec fn strict(below: spec_fn(usize, usize) -> bool) -> bool {
    &&& forall|a: usize| !#[trigger] below(a, a)
    &&& forall|a: usize, b: usize, c: usize|
        #![trigger below(a, b), below(b, c)]
        below(a, b) && below(b, c) ==> below(a, c)
}

/// Whether each element of `rids` is below every later one.
pub open spec fn sorted_by(rids: Seq<usize>, below: spec_fn(usize, usize) -> bool) -> bool {
    forall|i: int, j: int| 0 <= i < j < rids.len() ==> below(#[trigger] rids[i], #[trigger] rids[j])
}

/// Two sequences in the same strict order with the same elements are the
/// same sequence.
pub proof fn lemma_sorted_unique(a: Seq<usize>, b: Seq<usize>, below: spec_fn(usize, usize) -> bool)
    requires
        strict(below),
        sorted_by(a, below),
        sorted_by(b, below),
        forall|r: usize| a.contains(r) <==> b.contains(r),
    ensures
        a == b,
    decreases a.len(),
{
    if a.len() == 0 {
        if b.len() > 0 {
            assert(b.contains(b[0]));
        }
        assert(a =~= b);
    } else {
        let top = a.last();
        assert(a.contains(top));
        assert(b.contains(top));
        let j = choose|j: int| 0 <= j < b.len() && b[j] == top;
        assert(b.contains(b.last()));
        assert(a.contains(b.last()));
        let i = choose|i: int| 0 <= i < a.len() && a[i] == b.last();
        assert(b.last() == top) by {
            if b.last() != top {
                assert(below(b[j], b[b.len() - 1]));
                assert(below(a[i], a[a.len() - 1]));
                assert(below(top, top));
            }
        }
        let a0 = a.drop_last();
        let b0 = b.drop_last();
        assert forall|r: usize| a0.contains(r) <==> b0.contains(r) by {
            if a0.contains(r) {
                let k = choose|k: int| 0 <= k < a0.len() && a0[k] == r;
                assert(below(a[k], a[a.len() - 1]));
                assert(a.contains(r));
                let m = choose|m: int| 0 <= m < b.len() && b[m] == r;
                assert(b0[m] == r);
            }
            if b0.contains(r) {
                let k = choose|k: int| 0 <= k < b0.len() && b0[k] == r;
                assert(below(b[k], b[b.len() - 1]));
                assert(b.contains(r));
                let m = choose|m: int| 0 <= m < a.len() && a[m] == r;
                assert(a0[m] == r);
            }
        }
        assert(sorted_by(a0, below)) by {
            assert forall|x: int, y: int| 0 <= x < y < a0.len() implies below(
                #[trigger] a0[x],
                #[trigger] a0[y],
            ) by {
                assert(below(a[x], a[y]));
            }
        }
        assert(sorted_by(b0, below)) by {
            assert forall|x: int, y: int| 0 <= x < y < b0.len() implies below(
                #[trigger] b0[x],
                #[trigger] b0[y],
            ) by {
                assert(below(b[x], b[y]));
            }
        }
        lemma_sorted_unique(a0, b0, below);
        assert(a =~= a0.push(top));
        assert(b =~= b0.push(top));
    }
}

/// Filtering keeps a sequence in its order, and keeps exactly the elements
/// that meet the condition.
pub proof fn lemma_filter_sorted_by(
    rids: Seq<usize>,
    keep: spec_fn(usize) -> bool,
    below: spec_fn(usize, usize) -> bool,
)
    requires
        sorted_by(rids, below),
    ensures
        sorted_by(rids.filter(keep), below),
        forall|rid: usize|
            #![trigger rids.filter(keep).contains(rid)]
            #![trigger rids.contains(rid)]
            rids.filter(keep).contains(rid) <==> rids.contains(rid) && keep(rid),
    decreases rids.len(),
{
    reveal(Seq::filter);
    let kept = rids.filter(keep);
    if rids.len() > 0 {
        let rest = rids.drop_last();
        assert(sorted_by(rest, below)) by {
            assert forall|i: int, j: int| 0 <= i < j < rest.len() implies below(
                #[trigger] rest[i],
                #[trigger] rest[j],
            ) by {
                assert(below(rids[i], rids[j]));
            }
        }
        lemma_filter_sorted_by(rest, keep, below);
        let kept_rest = rest.filter(keep);
        assert forall|rid: usize| kept.contains(rid) <==> rids.contains(rid) && keep(rid) by {
            if kept.contains(rid) {
                let i = choose|i: int| 0 <= i < kept.len() && kept[i] == rid;
                if i < kept_rest.len() {
                    assert(kept_rest[i] == rid);
                    assert(kept_rest.contains(rid));
                    let k = choose|k: int| 0 <= k < rest.len() && rest[k] == rid;
                    assert(rids[k] == rid);
                } else {
                    assert(rids[rids.len() - 1] == rid);
                }
            }
            if rids.contains(rid) && keep(rid) {
                let k = choose|k: int| 0 <= k < rids.len() && rids[k] == rid;
                if k < rest.len() {
                    assert(rest[k] == rid);
                    assert(rest.contains(rid));
                    let i = choose|i: int| 0 <= i < kept_rest.len() && kept_rest[i] == rid;
                    assert(kept[i] == rid);
                } else {
                    assert(kept[kept.len() - 1] == rid);
                }
            }
        }
        assert forall|i: int, j: int| 0 <= i < j < kept.len() implies below(
            #[trigger] kept[i],
            #[trigger] kept[j],
        ) by {
            if j < kept_rest.len() {
                assert(below(kept_rest[i], kept_rest[j]));
            } else {
                assert(kept_rest.contains(kept_rest[i]));
                let k = choose|k: int| 0 <= k < rest.len() && rest[k] == kept_rest[i];
                assert(below(rids[k], rids[rids.len() - 1]));
            }
        }
    } else {
        assert forall|rid: usize| kept.contains(rid) <==> rids.contains(rid) && keep(rid) by {
            if kept.contains(rid) {
                let i = choose|i: int| 0 <= i < kept.len() && kept[i] == rid;
            }
            if rids.contains(rid) {
                let i = choose|i: int| 0 <= i < rids.len() && rids[i] == rid;
            }
        }
    }
}

/// Strictly ascending record identifiers.
pub open spec fn ascending(rids: Seq<usize>) -> bool {
    forall|i: int, j: int| 0 <= i < j < rids.len() ==> #[trigger] rids[i] < #[trigger] rids[j]
}

/// The order of record identifiers by their number.
pub open spec fn by_number() -> spec_fn(usize, usize) -> bool {
    |a: usize, b: usize| a < b
}

/// The first `i + 1` of some ascending record identifiers are the first `i`
/// and the one that follows, which is not among the first `i`.
pub proof fn lemma_ascending_next(rids: Seq<usize>, i: int)
    requires
        ascending(rids),
        0 <= i < rids.len(),
    ensures
        rids.take(i + 1) == rids.take(i).push(rids[i]),
        !rids.take(i).contains(rids[i]),
        forall|r: usize|
            #![trigger rids.take(i + 1).contains(r)]
            rids.take(i + 1).contains(r) <==> rids.take(i).contains(r) || r == rids[i],
{
    let done = rids.take(i);
    let next = rids.take(i + 1);
    assert(next =~= done.push(rids[i]));
    if done.contains(rids[i]) {
        let k = choose|k: int| 0 <= k < done.len() && done[k] == rids[i];
        assert(rids[k] < rids[i]);
    }
    assert forall|r: usize| next.contains(r) <==> done.contains(r) || r == rids[i] by {
        if next.contains(r) {
            let k = choose|k: int| 0 <= k < next.len() && next[k] == r;
            if k < i {
                assert(done[k] == r);
            }
        }
        if done.contains(r) {
            let k = choose|k: int| 0 <= k < done.len() && done[k] == r;
            assert(next[k] == r);
        }
        assert(next[i] == rids[i]);
    }
}

/// Two ascending sequences with the same elements are the same sequence.
pub proof fn lemma_ascending_unique(a: Seq<usize>, b: Seq<usize>)
    requires
        ascending(a),
        ascending(b),
        forall|r: usize| a.contains(r) <==> b.contains(r),
    ensures
        a == b,
{
    assert(sorted_by(a, by_number())) by {
        assert forall|i: int, j: int| 0 <= i < j < a.len() implies by_number()(
            #[trigger] a[i],
            #[trigger] a[j],
        ) by {
            assert(a[i] < a[j]);
        }
    }
    assert(sorted_by(b, by_number())) by {
        assert forall|i: int, j: int| 0 <= i < j < b.len() implies by_number()(
            #[trigger] b[i],
            #[trigger] b[j],
        ) by {
            assert(b[i] < b[j]);
        }
    }
    lemma_sorted_unique(a, b, by_number());
}

/// Filtering keeps an ascending sequence ascending, and keeps exactly the
/// elements that meet the condition.
pub proof fn lemma_filter_ascending(rids: Seq<usize>, keep: spec_fn(usize) -> bool)
    requires
        ascending(rids),
    ensures
        ascending(rids.filter(keep)),
        forall|rid: usize|
            #![trigger rids.filter(keep).contains(rid)]
            #![trigger rids.contains(rid)]
            rids.filter(keep).contains(rid) <==> rids.contains(rid) && keep(rid),
{
    assert(sorted_by(rids, by_number())) by {
        assert forall|i: int, j: int| 0 <= i < j < rids.len() implies by_number()(
            #[trigger] rids[i],
            #[trigger] rids[j],
        ) by {
            assert(rids[i] < rids[j]);
        }
    }
    lemma_filter_sorted_by(rids, keep, by_number());
    let kept = rids.filter(keep);
    assert forall|i: int, j: int| 0 <= i < j < kept.len() implies #[trigger] kept[i]
        < #[trigger] kept[j] by {
        assert(by_number()(kept[i], kept[j]));
    }
}

} // verus!
