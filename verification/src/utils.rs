//! A reusable grouping utility: partition a sequence of board cells by row
//! or by column, keeping each group in scan order.  Extremal-cell selection
//! (the outermost cell of every row or column) is built on top of it.

use vstd::prelude::*;

verus! {

/// The grouping key of a cell: its column when `by_col` is set, its row
/// otherwise.
pub open spec fn key_of(p: (usize, usize), by_col: bool) -> usize {
    if by_col {
        p.1
    } else {
        p.0
    }
}

/// The coordinate that extremal selection compares: the row when grouping
/// by column, the column when grouping by row.
pub open spec fn ord_of(p: (usize, usize), by_col: bool) -> usize {
    if by_col {
        p.0
    } else {
        p.1
    }
}

/// The subsequence of `s` whose cells carry the key `k`, in scan order.
pub open spec fn with_key(s: Seq<(usize, usize)>, by_col: bool, k: usize) -> Seq<(usize, usize)>
    decreases s.len(),
{
    if s.len() == 0 {
        Seq::empty()
    } else if key_of(s.last(), by_col) == k {
        with_key(s.drop_last(), by_col, k).push(s.last())
    } else {
        with_key(s.drop_last(), by_col, k)
    }
}

/// Extending the scanned prefix by one cell extends exactly the group of
/// that cell's key, at its end.
proof fn lemma_with_key_step(s: Seq<(usize, usize)>, by_col: bool, k: usize, n: int)
    requires
        0 <= n < s.len(),
    ensures
        with_key(s.take(n + 1), by_col, k) == if key_of(s[n], by_col) == k {
            with_key(s.take(n), by_col, k).push(s[n])
        } else {
            with_key(s.take(n), by_col, k)
        },
{
    let t = s.take(n + 1);
    assert(t.drop_last() =~= s.take(n));
    assert(t.last() == s[n]);
}

/// Every cell of a group carries the group's key and comes from `s`, and
/// every cell of `s` is found in the group of its key.
pub proof fn lemma_with_key_elems(s: Seq<(usize, usize)>, by_col: bool, k: usize)
    ensures
        forall|j: int|
            0 <= j < with_key(s, by_col, k).len() ==> key_of(
                #[trigger] with_key(s, by_col, k)[j],
                by_col,
            ) == k && s.contains(with_key(s, by_col, k)[j]),
        forall|i: int|
            0 <= i < s.len() && key_of(#[trigger] s[i], by_col) == k ==> with_key(
                s,
                by_col,
                k,
            ).contains(s[i]),
    decreases s.len(),
{
    if s.len() > 0 {
        let s0 = s.drop_last();
        lemma_with_key_elems(s0, by_col, k);
        assert forall|j: int| 0 <= j < with_key(s, by_col, k).len() implies key_of(
            #[trigger] with_key(s, by_col, k)[j],
            by_col,
        ) == k && s.contains(with_key(s, by_col, k)[j]) by {
            let w = with_key(s, by_col, k);
            let w0 = with_key(s0, by_col, k);
            if key_of(s.last(), by_col) == k {
                if j < w0.len() {
                    assert(w[j] == w0[j]);
                    let i = choose|i: int| 0 <= i < s0.len() && s0[i] == w0[j];
                    assert(s[i] == w0[j]);
                } else {
                    assert(w[j] == s.last());
                    assert(s[s.len() - 1] == s.last());
                }
            } else {
                assert(w[j] == w0[j]);
                let i = choose|i: int| 0 <= i < s0.len() && s0[i] == w0[j];
                assert(s[i] == w0[j]);
            }
        }
        assert forall|i: int|
            0 <= i < s.len() && key_of(#[trigger] s[i], by_col) == k implies with_key(
            s,
            by_col,
            k,
        ).contains(s[i]) by {
            let w = with_key(s, by_col, k);
            let w0 = with_key(s0, by_col, k);
            if i < s.len() - 1 {
                assert(s0[i] == s[i]);
                assert(w0.contains(s[i]));
                let j = choose|j: int| 0 <= j < w0.len() && w0[j] == s[i];
                assert(w[j] == s[i]);
            } else {
                assert(key_of(s.last(), by_col) == k);
                assert(w[w.len() - 1] == s.last());
            }
        }
    }
}

/// Within a scan whose cells of equal key come in strictly increasing
/// order, the last cell of a group bounds every cell of that key.
pub proof fn lemma_with_key_last_max(s: Seq<(usize, usize)>, by_col: bool, k: usize)
    requires
        forall|i: int, j: int|
            0 <= i < j < s.len() && key_of(#[trigger] s[i], by_col) == key_of(
                #[trigger] s[j],
                by_col,
            ) ==> ord_of(s[i], by_col) < ord_of(s[j], by_col),
    ensures
        forall|i: int|
            0 <= i < s.len() && key_of(#[trigger] s[i], by_col) == k ==> with_key(
                s,
                by_col,
                k,
            ).len() > 0 && ord_of(s[i], by_col) <= ord_of(with_key(s, by_col, k).last(), by_col),
    decreases s.len(),
{
    if s.len() > 0 {
        let s0 = s.drop_last();
        lemma_with_key_last_max(s0, by_col, k);
        lemma_with_key_elems(s, by_col, k);
        assert forall|i: int|
            0 <= i < s.len() && key_of(#[trigger] s[i], by_col) == k implies with_key(
            s,
            by_col,
            k,
        ).len() > 0 && ord_of(s[i], by_col) <= ord_of(with_key(s, by_col, k).last(), by_col) by {
            let w = with_key(s, by_col, k);
            let w0 = with_key(s0, by_col, k);
            if key_of(s.last(), by_col) == k {
                assert(w.last() == s.last());
                if i < s.len() - 1 {
                    assert(ord_of(s[i], by_col) < ord_of(s[s.len() - 1], by_col));
                }
            } else {
                assert(i < s.len() - 1);
                assert(s0[i] == s[i]);
            }
        }
    }
}

/// Within such a scan, the first cell of a group bounds every cell of that
/// key from below.
pub proof fn lemma_with_key_first_min(s: Seq<(usize, usize)>, by_col: bool, k: usize)
    requires
        forall|i: int, j: int|
            0 <= i < j < s.len() && key_of(#[trigger] s[i], by_col) == key_of(
                #[trigger] s[j],
                by_col,
            ) ==> ord_of(s[i], by_col) < ord_of(s[j], by_col),
    ensures
        forall|i: int|
            0 <= i < s.len() && key_of(#[trigger] s[i], by_col) == k ==> with_key(
                s,
                by_col,
                k,
            ).len() > 0 && ord_of(with_key(s, by_col, k).first(), by_col) <= ord_of(s[i], by_col),
    decreases s.len(),
{
    if s.len() > 0 {
        let s0 = s.drop_last();
        lemma_with_key_first_min(s0, by_col, k);
        lemma_with_key_elems(s0, by_col, k);
        assert forall|i: int|
            0 <= i < s.len() && key_of(#[trigger] s[i], by_col) == k implies with_key(
            s,
            by_col,
            k,
        ).len() > 0 && ord_of(with_key(s, by_col, k).first(), by_col) <= ord_of(s[i], by_col) by {
            let w = with_key(s, by_col, k);
            let w0 = with_key(s0, by_col, k);
            if key_of(s.last(), by_col) == k {
                if w0.len() == 0 {
                    assert(w =~= seq![s.last()]);
                    if i < s.len() - 1 {
                        assert(w0.contains(s0[i]));
                        assert(false);
                    }
                } else {
                    assert(w.first() == w0.first());
                    if i == s.len() - 1 {
                        let f = w0.first();
                        assert(s0.contains(f) && key_of(f, by_col) == k);
                        let fi = choose|fi: int| 0 <= fi < s0.len() && s0[fi] == f;
                        assert(s[fi] == f);
                        assert(ord_of(s[fi], by_col) < ord_of(s[i], by_col));
                    } else {
                        assert(s0[i] == s[i]);
                    }
                }
            } else {
                assert(i < s.len() - 1);
                assert(s0[i] == s[i]);
                assert(w == w0);
            }
        }
    }
}

/// Whether some group of `r` carries the key `k`.
pub open spec fn has_key(r: Seq<(usize, Vec<(usize, usize)>)>, k: usize) -> bool {
    exists|g: int| 0 <= g < r.len() && (#[trigger] r[g]).0 == k
}

/// Partitions `items` into its groups of equal key: each returned pair
/// holds a key and, in scan order, every cell that carries it.
pub fn group_by(items: &Vec<(usize, usize)>, by_col: bool) -> (r: Vec<(usize, Vec<(usize, usize)>)>)
    ensures
        forall|g1: int, g2: int|
            0 <= g1 < g2 < r@.len() ==> (#[trigger] r@[g1]).0 != (#[trigger] r@[g2]).0,
        forall|g: int|
            0 <= g < r@.len() ==> (#[trigger] r@[g]).1@ == with_key(items@, by_col, r@[g].0)
                && r@[g].1@.len() > 0,
        forall|i: int|
            0 <= i < items@.len() ==> has_key(r@, key_of(#[trigger] items@[i], by_col)),
{
    let mut r: Vec<(usize, Vec<(usize, usize)>)> = Vec::new();
    let mut n: usize = 0;
    while n < items.len()
        invariant
            n <= items@.len(),
            forall|g1: int, g2: int|
                0 <= g1 < g2 < r@.len() ==> (#[trigger] r@[g1]).0 != (#[trigger] r@[g2]).0,
            forall|g: int|
                0 <= g < r@.len() ==> (#[trigger] r@[g]).1@ == with_key(
                    items@.take(n as int),
                    by_col,
                    r@[g].0,
                ) && r@[g].1@.len() > 0,
            forall|i: int| 0 <= i < n ==> has_key(r@, key_of(#[trigger] items@[i], by_col)),
        decreases items@.len() - n,
    {
        let p = items[n];
        let k = if by_col {
            p.1
        } else {
            p.0
        };
        assert(k == key_of(items@[n as int], by_col));
        let mut g: usize = 0;
        let mut found: bool = false;
        while !found && g < r.len()
            invariant
                g <= r@.len(),
                !found ==> forall|g2: int| 0 <= g2 < g ==> (#[trigger] r@[g2]).0 != k,
                found ==> g < r@.len() && r@[g as int].0 == k,
            decreases 2 * (r@.len() - g) + (if found {
                0int
            } else {
                1int
            }),
        {
            if r[g].0 == k {
                found = true;
            } else {
                g = g + 1;
            }
        }
        if found {
            let ghost r0 = r@;
            let mut tmp: (usize, Vec<(usize, usize)>) = (0, Vec::new());
            r.set_and_swap(g, &mut tmp);
            let (gk, mut gv) = tmp;
            gv.push(p);
            r.set(g, (gk, gv));
            proof {
                assert(gk == k);
                assert(forall|g2: int|
                    0 <= g2 < r@.len() ==> (#[trigger] r@[g2]).0 == r0[g2].0);
                assert forall|g2: int| 0 <= g2 < r@.len() implies (#[trigger] r@[g2]).1@
                    == with_key(items@.take(n + 1 as int), by_col, r@[g2].0) && r@[g2].1@.len()
                    > 0 by {
                    lemma_with_key_step(items@, by_col, r@[g2].0, n as int);
                }
                assert forall|i: int| 0 <= i < n + 1 implies has_key(
                    r@,
                    key_of(#[trigger] items@[i], by_col),
                ) by {
                    if i < n {
                        let gw = choose|gw: int|
                            0 <= gw < r0.len() && (#[trigger] r0[gw]).0 == key_of(
                                items@[i],
                                by_col,
                            );
                        assert(0 <= gw < r@.len() && r@[gw].0 == key_of(items@[i], by_col));
                    } else {
                        assert(r@[g as int].0 == key_of(items@[i], by_col));
                    }
                }
            }
        } else {
            let ghost r0 = r@;
            let mut gv: Vec<(usize, usize)> = Vec::new();
            gv.push(p);
            r.push((k, gv));
            proof {
                lemma_with_key_elems(items@.take(n as int), by_col, k);
                if with_key(items@.take(n as int), by_col, k).len() > 0 {
                    let e = with_key(items@.take(n as int), by_col, k)[0];
                    assert(items@.take(n as int).contains(e));
                    let i = choose|i: int| 0 <= i < n && items@.take(n as int)[i] == e;
                    assert(key_of(items@[i], by_col) == k);
                    assert(false);
                }
                assert forall|g2: int| 0 <= g2 < r@.len() implies (#[trigger] r@[g2]).1@
                    == with_key(items@.take(n + 1 as int), by_col, r@[g2].0) && r@[g2].1@.len()
                    > 0 by {
                    lemma_with_key_step(items@, by_col, r@[g2].0, n as int);
                    if g2 < r0.len() {
                        assert(r@[g2] == r0[g2]);
                    } else {
                        assert(r@[g2].0 == k);
                        assert(with_key(items@.take(n as int), by_col, k).len() == 0);
                    }
                }
                assert forall|i: int| 0 <= i < n + 1 implies has_key(
                    r@,
                    key_of(#[trigger] items@[i], by_col),
                ) by {
                    if i < n {
                        let gw = choose|gw: int|
                            0 <= gw < r0.len() && (#[trigger] r0[gw]).0 == key_of(
                                items@[i],
                                by_col,
                            );
                        assert(0 <= gw < r@.len() && r@[gw].0 == key_of(items@[i], by_col));
                    } else {
                        assert(r@[r@.len() - 1].0 == key_of(items@[i], by_col));
                    }
                }
            }
        }
        n = n + 1;
    }
    proof {
        assert(items@.take(items@.len() as int) =~= items@);
    }
    r
}

} // verus!
