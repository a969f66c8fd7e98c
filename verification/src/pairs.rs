//! Unordered index pairs `(a, b)` with `a < b`, listed in lexicographic order,
//! and counting helpers used by the opponent-matrix builder.

use vstd::prelude::*;

use itertools::Itertools;

verus! {

/// The pairs `(a, b)` for `b` in `[b0, hi)`, in ascending order of `b`.
pub open spec fn row_pairs_s(a: usize, b0: int, hi: int) -> Seq<(usize, usize)>
    decreases hi - b0,
{
    if b0 < 0 || b0 >= hi {
        Seq::empty()
    } else {
        seq![(a, b0 as usize)] + row_pairs_s(a, b0 + 1, hi)
    }
}

/// Every pair `(a, b)` with `lo <= a < b < hi`, in lexicographic order:
/// all pairs led by `lo` first, then all pairs led by `lo + 1`, and so on.
pub open spec fn range_pairs_s(lo: int, hi: int) -> Seq<(usize, usize)>
    decreases hi - lo,
{
    if lo < 0 || lo >= hi {
        Seq::empty()
    } else {
        row_pairs_s(lo as usize, lo + 1, hi) + range_pairs_s(lo + 1, hi)
    }
}

/// Every pair is strictly ascending and lies below `n`.
pub open spec fn pairs_in_range(ps: Seq<(usize, usize)>, n: int) -> bool {
    forall|k: int| 0 <= k < ps.len() ==> #[trigger] ps[k].0 < ps[k].1 < n
}

/// How many pairs of `ps` have `t` on either side.
pub open spec fn count_pairs_with(t: usize, ps: Seq<(usize, usize)>) -> int
    decreases ps.len(),
{
    if ps.len() == 0 {
        0
    } else {
        (if ps[0].0 == t || ps[0].1 == t {
            1int
        } else {
            0int
        }) + count_pairs_with(t, ps.drop_first())
    }
}

/// How many entries of `ps` equal the ordered pair `(a, b)` exactly.
pub open spec fn count_pair_exact(a: usize, b: usize, ps: Seq<(usize, usize)>) -> int
    decreases ps.len(),
{
    if ps.len() == 0 {
        0
    } else {
        (if ps[0].0 == a && ps[0].1 == b {
            1int
        } else {
            0int
        }) + count_pair_exact(a, b, ps.drop_first())
    }
}

/// The opponents `t` meets across `ps`, each listed twice, in pair order.
pub open spec fn partners2_s(t: usize, ps: Seq<(usize, usize)>) -> Seq<usize>
    decreases ps.len(),
{
    if ps.len() == 0 {
        Seq::empty()
    } else {
        (if ps[0].0 == t {
            seq![ps[0].1, ps[0].1]
        } else if ps[0].1 == t {
            seq![ps[0].0, ps[0].0]
        } else {
            Seq::empty()
        }) + partners2_s(t, ps.drop_first())
    }
}

/// How many entries of `s` equal `x`.
pub open spec fn count_occ(x: usize, s: Seq<usize>) -> int
    decreases s.len(),
{
    if s.len() == 0 {
        0
    } else {
        (if s[0] == x {
            1int
        } else {
            0int
        }) + count_occ(x, s.drop_first())
    }
}

pub proof fn lemma_count_pairs_with_nonneg(t: usize, ps: Seq<(usize, usize)>)
    ensures
        count_pairs_with(t, ps) >= 0,
    decreases ps.len(),
{
    if ps.len() > 0 {
        lemma_count_pairs_with_nonneg(t, ps.drop_first());
    }
}

pub proof fn lemma_count_pair_exact_nonneg(a: usize, b: usize, ps: Seq<(usize, usize)>)
    ensures
        count_pair_exact(a, b, ps) >= 0,
    decreases ps.len(),
{
    if ps.len() > 0 {
        lemma_count_pair_exact_nonneg(a, b, ps.drop_first());
    }
}

/// Counting distributes over concatenation.
pub proof fn lemma_count_concat(t: usize, a: usize, b: usize, p: Seq<(usize, usize)>, q: Seq<
    (usize, usize),
>)
    ensures
        count_pairs_with(t, p + q) == count_pairs_with(t, p) + count_pairs_with(t, q),
        count_pair_exact(a, b, p + q) == count_pair_exact(a, b, p) + count_pair_exact(a, b, q),
        partners2_s(t, p + q) == partners2_s(t, p) + partners2_s(t, q),
    decreases p.len(),
{
    if p.len() == 0 {
        assert(p + q =~= q);
        assert(partners2_s(t, p) + partners2_s(t, q) =~= partners2_s(t, q));
    } else {
        assert((p + q).drop_first() =~= p.drop_first() + q);
        lemma_count_concat(t, a, b, p.drop_first(), q);
        assert(partners2_s(t, p + q) =~= partners2_s(t, p) + partners2_s(t, q));
    }
}

pub proof fn lemma_count_occ_concat(x: usize, p: Seq<usize>, q: Seq<usize>)
    ensures
        count_occ(x, p + q) == count_occ(x, p) + count_occ(x, q),
    decreases p.len(),
{
    if p.len() == 0 {
        assert(p + q =~= q);
    } else {
        assert((p + q).drop_first() =~= p.drop_first() + q);
        lemma_count_occ_concat(x, p.drop_first(), q);
    }
}

/// Shape of one row of pairs: the leading index is fixed and the trailing
/// index runs through `[b0, hi)` in order.
pub proof fn lemma_row_pairs_shape(a: usize, b0: int, hi: int)
    requires
        0 <= b0,
        hi <= usize::MAX,
    ensures
        row_pairs_s(a, b0, hi).len() == if b0 <= hi {
            hi - b0
        } else {
            0
        },
        forall|k: int|
            0 <= k < row_pairs_s(a, b0, hi).len() ==> #[trigger] row_pairs_s(a, b0, hi)[k] == (
            a,
            (b0 + k) as usize,
        ),
    decreases hi - b0,
{
    if b0 < hi {
        lemma_row_pairs_shape(a, b0 + 1, hi);
        assert forall|k: int| 0 <= k < row_pairs_s(a, b0, hi).len() implies #[trigger] row_pairs_s(
            a,
            b0,
            hi,
        )[k] == (a, (b0 + k) as usize) by {
            if k > 0 {
                assert(row_pairs_s(a, b0, hi)[k] == row_pairs_s(a, b0 + 1, hi)[k - 1]);
            }
        }
    }
}

/// Every pair listed for the range `[lo, hi)` is strictly ordered and lies
/// inside the range.
pub proof fn lemma_range_pairs_bounds(lo: int, hi: int)
    requires
        hi <= usize::MAX,
    ensures
        forall|k: int|
            0 <= k < range_pairs_s(lo, hi).len() ==> lo <= #[trigger] range_pairs_s(lo, hi)[k].0
                < range_pairs_s(lo, hi)[k].1 < hi,
        pairs_in_range(range_pairs_s(lo, hi), hi),
    decreases hi - lo,
{
    if 0 <= lo < hi {
        lemma_row_pairs_shape(lo as usize, lo + 1, hi);
        lemma_range_pairs_bounds(lo + 1, hi);
        let row = row_pairs_s(lo as usize, lo + 1, hi);
        let rest = range_pairs_s(lo + 1, hi);
        assert forall|k: int| 0 <= k < range_pairs_s(lo, hi).len() implies lo
            <= #[trigger] range_pairs_s(lo, hi)[k].0 < range_pairs_s(lo, hi)[k].1 < hi by {
            assert(range_pairs_s(lo, hi) == row + rest);
            if k < row.len() {
                assert(range_pairs_s(lo, hi)[k] == row[k]);
                assert(row[k] == (lo as usize, (lo + 1 + k) as usize));
            } else {
                assert(range_pairs_s(lo, hi)[k] == rest[k - row.len()]);
                assert(lo + 1 <= rest[k - row.len()].0 < rest[k - row.len()].1 < hi);
            }
        }
    }
    assert forall|k: int| 0 <= k < range_pairs_s(lo, hi).len() implies #[trigger] range_pairs_s(
        lo,
        hi,
    )[k].0 < range_pairs_s(lo, hi)[k].1 < hi by {}
}

/// Each team of the range meets exactly the pairs one would expect: a team
/// inside `[lo, hi)` stands in `hi - lo - 1` pairs, one with every other
/// member; a team outside the range stands in none; and a given ordered pair
/// appears exactly once when it lies in the range, never otherwise.
pub proof fn lemma_range_pairs_counts(t: usize, a: usize, b: usize, lo: int, hi: int)
    requires
        0 <= lo,
        hi <= usize::MAX,
    ensures
        count_pairs_with(t, range_pairs_s(lo, hi)) == if lo <= t < hi && lo < hi {
            hi - lo - 1
        } else {
            0
        },
        count_pair_exact(a, b, range_pairs_s(lo, hi)) == if lo <= a && a < b && b < hi {
            1int
        } else {
            0int
        },
    decreases hi - lo,
{
    if lo < 0 || lo >= hi {
    } else {
        lemma_range_pairs_counts(t, a, b, lo + 1, hi);
        let row = row_pairs_s(lo as usize, lo + 1, hi);
        let rest = range_pairs_s(lo + 1, hi);
        lemma_row_pairs_shape(lo as usize, lo + 1, hi);
        lemma_count_concat(t, a, b, row, rest);
        lemma_row_counts(lo as usize, a, b, t, lo + 1, hi);
        assert(range_pairs_s(lo, hi) == row + rest);
    }
}

/// Counts over a single row of pairs.
proof fn lemma_row_counts(r: usize, a: usize, b: usize, t: usize, b0: int, hi: int)
    requires
        0 <= b0,
        r < b0,
        hi <= usize::MAX,
    ensures
        count_pairs_with(t, row_pairs_s(r, b0, hi)) == if t == r && b0 <= hi {
            hi - b0
        } else if b0 <= t < hi && t != r {
            1int
        } else {
            0int
        },
        count_pair_exact(a, b, row_pairs_s(r, b0, hi)) == if a == r && b0 <= b < hi {
            1int
        } else {
            0int
        },
    decreases hi - b0,
{
    if b0 < hi {
        lemma_row_counts(r, a, b, t, b0 + 1, hi);
        let whole = row_pairs_s(r, b0, hi);
        assert(whole == seq![(r, b0 as usize)] + row_pairs_s(r, b0 + 1, hi));
        assert(whole.len() == 1 + row_pairs_s(r, b0 + 1, hi).len());
        assert(whole[0] == (r, b0 as usize));
        assert(whole.drop_first() =~= row_pairs_s(r, b0 + 1, hi));
    }
}

/// `t` gains two opponents per pair it stands in.
pub proof fn lemma_partners2_len(t: usize, ps: Seq<(usize, usize)>)
    ensures
        partners2_s(t, ps).len() == 2 * count_pairs_with(t, ps),
    decreases ps.len(),
{
    if ps.len() > 0 {
        lemma_partners2_len(t, ps.drop_first());
    }
}

/// The double-partner list of a pair sequence, restricted to where `t` plays:
/// `t` meets `x` twice for every pair joining `t` and `x`.
pub proof fn lemma_partners2_count(t: usize, x: usize, ps: Seq<(usize, usize)>)
    requires
        forall|k: int| 0 <= k < ps.len() ==> #[trigger] ps[k].0 != ps[k].1,
    ensures
        count_occ(x, partners2_s(t, ps)) == 2 * (count_pair_exact(t, x, ps) + count_pair_exact(
            x,
            t,
            ps,
        )),
    decreases ps.len(),
{
    if ps.len() > 0 {
        assert(forall|k: int|
            0 <= k < ps.drop_first().len() ==> #[trigger] ps.drop_first()[k].0
                != ps.drop_first()[k].1);
        lemma_partners2_count(t, x, ps.drop_first());
        let head = if ps[0].0 == t {
            seq![ps[0].1, ps[0].1]
        } else if ps[0].1 == t {
            seq![ps[0].0, ps[0].0]
        } else {
            Seq::<usize>::empty()
        };
        lemma_count_occ_concat(x, head, partners2_s(t, ps.drop_first()));
        assert(partners2_s(t, ps) == head + partners2_s(t, ps.drop_first()));
        reveal_with_fuel(count_occ, 4);
        if ps[0].0 == t {
            assert(head.drop_first() =~= seq![ps[0].1]);
            assert(seq![ps[0].1].drop_first() =~= Seq::<usize>::empty());
            assert(count_occ(x, head) == if ps[0].1 == x {
                2int
            } else {
                0int
            });
        } else if ps[0].1 == t {
            assert(head.drop_first() =~= seq![ps[0].0]);
            assert(seq![ps[0].0].drop_first() =~= Seq::<usize>::empty());
            assert(count_occ(x, head) == if ps[0].0 == x {
                2int
            } else {
                0int
            });
        } else {
            assert(count_occ(x, head) == 0);
        }
        assert(count_pair_exact(t, x, ps) == (if ps[0].0 == t && ps[0].1 == x {
            1int
        } else {
            0int
        }) + count_pair_exact(t, x, ps.drop_first()));
        assert(count_pair_exact(x, t, ps) == (if ps[0].0 == x && ps[0].1 == t {
            1int
        } else {
            0int
        }) + count_pair_exact(x, t, ps.drop_first()));
    }
}

/// Relies on `itertools::Itertools::combinations`: over the ascending range
/// `lo..hi` it yields each two-element subset once, as an ascending pair, in
/// lexicographic order (documented on `combinations` and on the combination
/// index increment in the crate's source).
#[verifier::external_body]
pub(crate) fn range_pairs(lo: usize, hi: usize) -> (r: Vec<(usize, usize)>)
    ensures
        r@ == range_pairs_s(lo as int, hi as int),
{
    let mut r: Vec<(usize, usize)> = Vec::new();
    for c in (lo..hi).combinations(2) {
        r.push((c[0], c[1]));
    }
    r
}

} // verus!
