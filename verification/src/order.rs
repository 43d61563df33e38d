//! Ordering text: the lexicographic order of strings, and stable orderings of indices by key.
use vstd::prelude::*;

verus! {

/// `a` comes strictly before `b` in the lexicographic order of characters by code point (the
/// order of `str`, whose bytewise comparison of UTF-8 agrees with it).
pub open spec fn seq_lt(a: Seq<char>, b: Seq<char>) -> bool
    decreases a.len(),
{
    if a.len() == 0 {
        b.len() > 0
    } else if b.len() == 0 {
        false
    } else if a[0] != b[0] {
        (a[0] as int) < (b[0] as int)
    } else {
        seq_lt(a.drop_first(), b.drop_first())
    }
}

/// The lexicographic order is a strict total order.
pub proof fn lemma_seq_lt_order(a: Seq<char>, b: Seq<char>, c: Seq<char>)
    ensures
        !seq_lt(a, a),
        seq_lt(a, b) ==> !seq_lt(b, a),
        seq_lt(a, b) && seq_lt(b, c) ==> seq_lt(a, c),
        a != b ==> seq_lt(a, b) || seq_lt(b, a),
    decreases a.len(),
{
    if a.len() > 0 && b.len() > 0 && c.len() > 0 {
        lemma_seq_lt_order(a.drop_first(), b.drop_first(), c.drop_first());
    } else if a.len() > 0 && b.len() > 0 {
        lemma_seq_lt_order(a.drop_first(), b.drop_first(), b.drop_first());
    } else if a.len() > 0 {
        lemma_seq_lt_order(a.drop_first(), a.drop_first(), a.drop_first());
    }
    if a != b {
        if a.len() > 0 && b.len() > 0 {
            if a[0] == b[0] {
                assert(a =~= seq![a[0]] + a.drop_first());
                assert(b =~= seq![b[0]] + b.drop_first());
            } else {
                assert((a[0] as int) != (b[0] as int));
            }
        } else if a.len() == 0 && b.len() == 0 {
            assert(a =~= b);
        }
    }
}

/// Returns whether `a` comes strictly before `b` in the lexicographic order of characters.
pub fn chars_lt(a: &[char], b: &[char]) -> (r: bool)
    ensures
        r == seq_lt(a@, b@),
{
    let mut i: usize = 0;
    assert(a@.skip(0) =~= a@);
    assert(b@.skip(0) =~= b@);
    while i < a.len() && i < b.len() && a[i] == b[i]
        invariant
            i <= a@.len(),
            i <= b@.len(),
            seq_lt(a@, b@) == seq_lt(a@.skip(i as int), b@.skip(i as int)),
        decreases a@.len() - i,
    {
        assert(a@.skip(i as int).drop_first() =~= a@.skip(i + 1));
        assert(b@.skip(i as int).drop_first() =~= b@.skip(i + 1));
        i = i + 1;
    }
    if i == a.len() {
        i < b.len()
    } else if i == b.len() {
        false
    } else {
        a[i] < b[i]
    }
}

/// Whether position `p` comes before position `q` in an order of indices sorted by `keys`
/// (strictly smaller key first, smaller index first among equal keys).
pub open spec fn key_before(keys: Seq<Seq<char>>, p: int, q: int) -> bool {
    seq_lt(keys[p], keys[q]) || (keys[p] == keys[q] && p < q)
}

/// `order` lists each index of `keys` exactly once.
pub open spec fn is_permutation(order: Seq<usize>, n: nat) -> bool {
    &&& order.len() == n
    &&& forall|k: int| 0 <= k < n ==> (#[trigger] order[k]) < n
    &&& forall|k: int, l: int| 0 <= k < l < n ==> order[k] != order[l]
    &&& forall|v: int| 0 <= v < n ==> #[trigger] lists(order, v)
}

/// `v` occurs in `order`.
pub open spec fn lists(order: Seq<usize>, v: int) -> bool {
    exists|k: int| 0 <= k < order.len() && #[trigger] order[k] == v
}

/// `order` is the stable ascending order of the indices of `keys`.
pub open spec fn sorted_by_keys(order: Seq<usize>, keys: Seq<Seq<char>>) -> bool {
    &&& is_permutation(order, keys.len())
    &&& forall|k: int, l: int|
        0 <= k < l < order.len() ==> key_before(keys, #[trigger] order[k] as int, #[trigger] order[l] as int)
}

/// Returns the indices of `keys` in stable ascending order of their keys (as a stable sort).
pub fn stable_order_by_key(keys: &Vec<Vec<char>>) -> (order: Vec<usize>)
    ensures
        sorted_by_keys(order@, keys@.map_values(|k: Vec<char>| k@)),
{
    let ghost ks = keys@.map_values(|k: Vec<char>| k@);
    let mut order: Vec<usize> = Vec::new();
    let mut i: usize = 0;
    while i < keys.len()
        invariant
            i <= keys@.len(),
            ks == keys@.map_values(|k: Vec<char>| k@),
            order@.len() == i,
            forall|k: int| 0 <= k < i ==> (#[trigger] order@[k]) < i,
            forall|k: int, l: int| 0 <= k < l < i ==> order@[k] != order@[l],
            forall|v: int| 0 <= v < i ==> #[trigger] lists(order@, v),
            forall|k: int, l: int|
                0 <= k < l < i ==> key_before(ks, #[trigger] order@[k] as int, #[trigger] order@[l] as int),
        decreases keys@.len() - i,
    {
        // Find the first position whose key is strictly greater than the key of `i`.
        let mut pos: usize = 0;
        while pos < order.len() && !chars_lt(keys[i].as_slice(), keys[order[pos]].as_slice())
            invariant
                i < keys@.len(),
                pos <= order@.len(),
                order@.len() == i,
                ks == keys@.map_values(|k: Vec<char>| k@),
                forall|k: int| 0 <= k < i ==> (#[trigger] order@[k]) < i,
                forall|k: int| 0 <= k < pos ==> !seq_lt(ks[i as int], ks[#[trigger] order@[k] as int]),
            decreases i - pos,
        {
            pos = pos + 1;
        }
        let ghost before = order@;
        proof {
            assert forall|k: int| pos <= k < i implies seq_lt(ks[i as int], ks[#[trigger] before[k] as int]) by {
                if pos < i {
                    assert(seq_lt(ks[i as int], ks[before[pos as int] as int]));
                    if k > pos {
                        assert(key_before(ks, before[pos as int] as int, before[k] as int));
                        lemma_seq_lt_order(ks[i as int], ks[before[pos as int] as int], ks[before[k] as int]);
                    }
                }
            }
            assert forall|k: int| 0 <= k < pos implies key_before(ks, #[trigger] before[k] as int, i as int) by {
                lemma_seq_lt_order(ks[before[k] as int], ks[i as int], ks[i as int]);
            }
        }
        order.insert(pos, i);
        proof {
            assert forall|k: int, l: int| 0 <= k < l < i + 1 implies key_before(
                ks,
                #[trigger] order@[k] as int,
                #[trigger] order@[l] as int,
            ) by {
                if l < pos {
                    assert(order@[k] == before[k] && order@[l] == before[l]);
                } else if l == pos {
                    assert(order@[k] == before[k]);
                } else if k < pos {
                    assert(order@[k] == before[k] && order@[l] == before[l - 1]);
                    assert(key_before(ks, before[k] as int, before[pos as int] as int));
                    if pos < i {
                        lemma_seq_lt_order(ks[before[k] as int], ks[i as int], ks[before[l - 1] as int]);
                        lemma_seq_lt_order(ks[before[k] as int], ks[before[pos as int] as int], ks[before[l - 1] as int]);
                    }
                } else if k == pos {
                    assert(order@[l] == before[l - 1]);
                } else {
                    assert(order@[k] == before[k - 1] && order@[l] == before[l - 1]);
                }
            }
            assert forall|k: int, l: int| 0 <= k < l < i + 1 implies order@[k] != order@[l] by {
                if k < pos && l < pos {
                } else if k < pos && l == pos {
                } else if k < pos {
                    assert(order@[l] == before[l - 1]);
                } else if k == pos {
                    assert(order@[l] == before[l - 1]);
                } else {
                    assert(order@[k] == before[k - 1] && order@[l] == before[l - 1]);
                }
            }
            assert forall|k: int| 0 <= k < i + 1 implies (#[trigger] order@[k]) < i + 1 by {
                if k < pos {
                    assert(order@[k] == before[k]);
                } else if k > pos {
                    assert(order@[k] == before[k - 1]);
                }
            }
            assert forall|v: int| 0 <= v < i + 1 implies #[trigger] lists(order@, v) by {
                if v == i {
                    assert(order@[pos as int] == v);
                } else {
                    assert(lists(before, v));
                    let k = choose|k: int| 0 <= k < before.len() && #[trigger] before[k] == v;
                    if k < pos {
                        assert(order@[k] == v);
                    } else {
                        assert(order@[k + 1] == v);
                    }
                }
            }
        }
        i = i + 1;
    }
    order
}

/// Whether position `p` comes before position `q` in an order of indices sorted by decreasing
/// `counts` (larger count first, smaller index first among equal counts).
pub open spec fn count_before(counts: Seq<usize>, p: int, q: int) -> bool {
    counts[p] > counts[q] || (counts[p] == counts[q] && p < q)
}

/// `order` is the stable order of the indices of `counts` by decreasing count.
pub open spec fn sorted_by_count_desc(order: Seq<usize>, counts: Seq<usize>) -> bool {
    &&& is_permutation(order, counts.len())
    &&& forall|k: int, l: int|
        0 <= k < l < order.len() ==> count_before(counts, #[trigger] order[k] as int, #[trigger] order[l] as int)
}

/// Returns the indices of `counts` in stable order of decreasing count (as a stable sort by
/// `Reverse(count)`).
pub fn stable_order_by_count_desc(counts: &Vec<usize>) -> (order: Vec<usize>)
    ensures
        sorted_by_count_desc(order@, counts@),
{
    let mut order: Vec<usize> = Vec::new();
    let mut i: usize = 0;
    while i < counts.len()
        invariant
            i <= counts@.len(),
            order@.len() == i,
            forall|k: int| 0 <= k < i ==> (#[trigger] order@[k]) < i,
            forall|k: int, l: int| 0 <= k < l < i ==> order@[k] != order@[l],
            forall|v: int| 0 <= v < i ==> #[trigger] lists(order@, v),
            forall|k: int, l: int|
                0 <= k < l < i ==> count_before(counts@, #[trigger] order@[k] as int, #[trigger] order@[l] as int),
        decreases counts@.len() - i,
    {
        let mut pos: usize = 0;
        while pos < order.len() && counts[order[pos]] >= counts[i]
            invariant
                i < counts@.len(),
                pos <= order@.len(),
                order@.len() == i,
                forall|k: int| 0 <= k < i ==> (#[trigger] order@[k]) < i,
                forall|k: int| 0 <= k < pos ==> counts@[#[trigger] order@[k] as int] >= counts@[i as int],
            decreases i - pos,
        {
            pos = pos + 1;
        }
        let ghost before = order@;
        proof {
            assert forall|k: int| pos <= k < i implies counts@[#[trigger] before[k] as int] < counts@[i as int] by {
                if k > pos {
                    assert(count_before(counts@, before[pos as int] as int, before[k] as int));
                }
            }
        }
        order.insert(pos, i);
        proof {
            assert forall|k: int, l: int| 0 <= k < l < i + 1 implies count_before(
                counts@,
                #[trigger] order@[k] as int,
                #[trigger] order@[l] as int,
            ) by {
                if l < pos {
                    assert(order@[k] == before[k] && order@[l] == before[l]);
                } else if l == pos {
                    assert(order@[k] == before[k]);
                } else if k < pos {
                    assert(order@[k] == before[k] && order@[l] == before[l - 1]);
                } else if k == pos {
                    assert(order@[l] == before[l - 1]);
                } else {
                    assert(order@[k] == before[k - 1] && order@[l] == before[l - 1]);
                }
            }
            assert forall|k: int, l: int| 0 <= k < l < i + 1 implies order@[k] != order@[l] by {
                if k < pos && l < pos {
                } else if k < pos && l == pos {
                } else if k < pos {
                    assert(order@[l] == before[l - 1]);
                } else if k == pos {
                    assert(order@[l] == before[l - 1]);
                } else {
                    assert(order@[k] == before[k - 1] && order@[l] == before[l - 1]);
                }
            }
            assert forall|k: int| 0 <= k < i + 1 implies (#[trigger] order@[k]) < i + 1 by {
                if k < pos {
                    assert(order@[k] == before[k]);
                } else if k > pos {
                    assert(order@[k] == before[k - 1]);
                }
            }
            assert forall|v: int| 0 <= v < i + 1 implies #[trigger] lists(order@, v) by {
                if v == i {
                    assert(order@[pos as int] == v);
                } else {
                    assert(lists(before, v));
                    let k = choose|k: int| 0 <= k < before.len() && #[trigger] before[k] == v;
                    if k < pos {
                        assert(order@[k] == v);
                    } else {
                        assert(order@[k + 1] == v);
                    }
                }
            }
        }
        i = i + 1;
    }
    order
}

/// Whether position `p` comes before position `q` in an order of indices sorted by `points`
/// (row, then column, ascending; smaller index first among equal points).
pub open spec fn point_before(points: Seq<(usize, usize)>, p: int, q: int) -> bool {
    points[p].0 < points[q].0 || (points[p].0 == points[q].0 && points[p].1 < points[q].1) || (
    points[p] == points[q] && p < q)
}

/// `order` is the stable ascending order of the indices of `points`.
pub open spec fn sorted_by_points(order: Seq<usize>, points: Seq<(usize, usize)>) -> bool {
    &&& is_permutation(order, points.len())
    &&& forall|k: int, l: int|
        0 <= k < l < order.len() ==> point_before(points, #[trigger] order[k] as int, #[trigger] order[l] as int)
}

/// Returns the indices of `points` in stable ascending order of row and column (as a stable
/// sort by `(row, column)`).
pub fn stable_order_by_point(points: &Vec<(usize, usize)>) -> (order: Vec<usize>)
    ensures
        sorted_by_points(order@, points@),
{
    let mut order: Vec<usize> = Vec::new();
    let mut i: usize = 0;
    while i < points.len()
        invariant
            i <= points@.len(),
            order@.len() == i,
            forall|k: int| 0 <= k < i ==> (#[trigger] order@[k]) < i,
            forall|k: int, l: int| 0 <= k < l < i ==> order@[k] != order@[l],
            forall|v: int| 0 <= v < i ==> #[trigger] lists(order@, v),
            forall|k: int, l: int|
                0 <= k < l < i ==> point_before(points@, #[trigger] order@[k] as int, #[trigger] order@[l] as int),
        decreases points@.len() - i,
    {
        let mut pos: usize = 0;
        while pos < order.len() && !(points[i].0 < points[order[pos]].0 || (points[i].0 == points[order[pos]].0
            && points[i].1 < points[order[pos]].1))
            invariant
                i < points@.len(),
                pos <= order@.len(),
                order@.len() == i,
                forall|k: int| 0 <= k < i ==> (#[trigger] order@[k]) < i,
                forall|k: int|
                    0 <= k < pos ==> !(points@[i as int].0 < points@[#[trigger] order@[k] as int].0 || (
                    points@[i as int].0 == points@[order@[k] as int].0 && points@[i as int].1
                        < points@[order@[k] as int].1)),
            decreases i - pos,
        {
            pos = pos + 1;
        }
        let ghost before = order@;
        proof {
            assert forall|k: int| pos <= k < i implies (points@[i as int].0 < points@[#[trigger] before[k] as int].0
                || (points@[i as int].0 == points@[before[k] as int].0 && points@[i as int].1
                < points@[before[k] as int].1)) by {
                if k > pos {
                    assert(point_before(points@, before[pos as int] as int, before[k] as int));
                }
            }
        }
        order.insert(pos, i);
        proof {
            assert forall|k: int, l: int| 0 <= k < l < i + 1 implies point_before(
                points@,
                #[trigger] order@[k] as int,
                #[trigger] order@[l] as int,
            ) by {
                if l < pos {
                    assert(order@[k] == before[k] && order@[l] == before[l]);
                } else if l == pos {
                    assert(order@[k] == before[k]);
                } else if k < pos {
                    assert(order@[k] == before[k] && order@[l] == before[l - 1]);
                } else if k == pos {
                    assert(order@[l] == before[l - 1]);
                } else {
                    assert(order@[k] == before[k - 1] && order@[l] == before[l - 1]);
                }
            }
            assert forall|k: int, l: int| 0 <= k < l < i + 1 implies order@[k] != order@[l] by {
                if k < pos && l < pos {
                } else if k < pos && l == pos {
                } else if k < pos {
                    assert(order@[l] == before[l - 1]);
                } else if k == pos {
                    assert(order@[l] == before[l - 1]);
                } else {
                    assert(order@[k] == before[k - 1] && order@[l] == before[l - 1]);
                }
            }
            assert forall|k: int| 0 <= k < i + 1 implies (#[trigger] order@[k]) < i + 1 by {
                if k < pos {
                    assert(order@[k] == before[k]);
                } else if k > pos {
                    assert(order@[k] == before[k - 1]);
                }
            }
            assert forall|v: int| 0 <= v < i + 1 implies #[trigger] lists(order@, v) by {
                if v == i {
                    assert(order@[pos as int] == v);
                } else {
                    assert(lists(before, v));
                    let k = choose|k: int| 0 <= k < before.len() && #[trigger] before[k] == v;
                    if k < pos {
                        assert(order@[k] == v);
                    } else {
                        assert(order@[k + 1] == v);
                    }
                }
            }
        }
        i = i + 1;
    }
    order
}

} // verus!
