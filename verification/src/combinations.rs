//! The `k`-element combinations of a slice, in lexicographic order of their
//! positions.

use vstd::prelude::*;

verus! {

/// `c` is a strictly increasing sequence of `k` positions below `n`.
pub open spec fn is_comb(c: Seq<int>, k: int, n: int) -> bool {
    &&& c.len() == k
    &&& forall|i: int| 0 <= i < k ==> 0 <= #[trigger] c[i] < n
    &&& forall|i: int, j: int| 0 <= i < j < k ==> c[i] < c[j]
}

/// `a` comes before `b` in lexicographic order.
pub open spec fn lex_lt(a: Seq<int>, b: Seq<int>) -> bool {
    exists|q: int|
        #![trigger a[q], b[q]]
        0 <= q < a.len() && q < b.len() && a[q] < b[q] && forall|i: int| 0 <= i < q ==> a[i] == b[i]
}

/// The first combination: the positions `0 .. k`.
pub open spec fn first_comb(k: int) -> Seq<int> {
    Seq::new(k as nat, |i: int| i)
}

/// The last combination: the positions `n - k .. n`.
pub open spec fn last_comb(k: int, n: int) -> Seq<int> {
    Seq::new(k as nat, |i: int| n - k + i)
}

/// The elements of `arr` at the positions `c`.
pub open spec fn pick(arr: Seq<i32>, c: Seq<int>) -> Seq<i32> {
    c.map_values(|i: int| arr[i])
}

/// `b` comes right after `a`: no combination lies strictly between them.
pub open spec fn next_comb(a: Seq<int>, b: Seq<int>, k: int, n: int) -> bool {
    &&& lex_lt(a, b)
    &&& forall|d: Seq<int>| #[trigger] is_comb(d, k, n) ==> !(lex_lt(a, d) && lex_lt(d, b))
}

/// The combinations listed by `idx`, in order, are all of them: the first,
/// each one right after the one before, and the last.
pub open spec fn all_combs(idx: Seq<Seq<int>>, k: int, n: int) -> bool {
    &&& idx.len() > 0
    &&& idx[0] == first_comb(k)
    &&& idx.last() == last_comb(k, n)
    &&& forall|t: int| 0 <= t < idx.len() ==> is_comb(#[trigger] idx[t], k, n)
    &&& forall|t: int| 0 <= t < idx.len() - 1 ==> next_comb(#[trigger] idx[t], idx[t + 1], k, n)
}

/// The positions as integers.
pub open spec fn positions(run: Seq<usize>) -> Seq<int> {
    run.map_values(|x: usize| x as int)
}

/// The value of `c` as a number in base `b`, last position least significant.
pub open spec fn comb_value(c: Seq<int>, b: int) -> int
    decreases c.len(),
{
    if c.len() == 0 {
        0
    } else {
        comb_value(c.drop_last(), b) * b + c.last()
    }
}

proof fn lemma_value_lex(a: Seq<int>, c: Seq<int>, b: int)
    requires
        a.len() == c.len(),
        b > 0,
        forall|i: int| 0 <= i < a.len() ==> 0 <= #[trigger] a[i] < b,
        forall|i: int| 0 <= i < c.len() ==> 0 <= #[trigger] c[i] < b,
        lex_lt(a, c),
    ensures
        comb_value(a, b) < comb_value(c, b),
    decreases a.len(),
{
    let q = choose|q: int|
        #![trigger a[q], c[q]]
        0 <= q < a.len() && q < c.len() && a[q] < c[q] && forall|i: int| 0 <= i < q ==> a[i] == c[i];
    let n = a.len() - 1;
    let a1 = a.drop_last();
    let c1 = c.drop_last();
    if q == n {
        assert(a1 =~= c1);
    } else {
        assert(a1[q] < c1[q]);
        assert(lex_lt(a1, c1));
        lemma_value_lex(a1, c1, b);
        lemma_value_bound(a1, b);
        let va = comb_value(a1, b);
        let vc = comb_value(c1, b);
        assert(va * b + a.last() < vc * b + c.last()) by (nonlinear_arith)
            requires
                va < vc,
                0 <= a.last() < b,
                0 <= c.last(),
                b > 0,
        ;
    }
}

proof fn lemma_value_bound(a: Seq<int>, b: int)
    requires
        b > 0,
        forall|i: int| 0 <= i < a.len() ==> 0 <= #[trigger] a[i] < b,
    ensures
        comb_value(a, b) >= 0,
    decreases a.len(),
{
    if a.len() > 0 {
        lemma_value_bound(a.drop_last(), b);
        let v = comb_value(a.drop_last(), b);
        assert(v * b >= 0) by (nonlinear_arith)
            requires
                v >= 0,
                b > 0,
        ;
    }
}

proof fn lemma_value_mono(a: Seq<int>, c: Seq<int>, b: int)
    requires
        a.len() == c.len(),
        b > 0,
        forall|i: int| 0 <= i < a.len() ==> 0 <= #[trigger] a[i] <= c[i],
    ensures
        comb_value(a, b) <= comb_value(c, b),
    decreases a.len(),
{
    if a.len() > 0 {
        lemma_value_mono(a.drop_last(), c.drop_last(), b);
        let va = comb_value(a.drop_last(), b);
        let vc = comb_value(c.drop_last(), b);
        assert(va * b <= vc * b) by (nonlinear_arith)
            requires
                va <= vc,
                b > 0,
        ;
    }
}

/// The successor of a combination whose positions after `p` are as large as
/// they can be, while position `p` can still grow: position `p` grows by
/// one and the later positions follow it without gaps.
proof fn lemma_successor(c: Seq<int>, c2: Seq<int>, p: int, k: int, n: int)
    requires
        is_comb(c, k, n),
        0 <= p < k,
        c[p] < n - k + p,
        forall|i: int| p < i < k ==> #[trigger] c[i] == n - k + i,
        c2.len() == k,
        forall|i: int| 0 <= i < p ==> #[trigger] c2[i] == c[i],
        forall|i: int| p <= i < k ==> #[trigger] c2[i] == c[p] + 1 + (i - p),
    ensures
        is_comb(c2, k, n),
        next_comb(c, c2, k, n),
{
    assert(c[p] < c2[p]);
    assert(lex_lt(c, c2));
    assert forall|d: Seq<int>| #[trigger] is_comb(d, k, n) implies !(lex_lt(c, d) && lex_lt(d, c2)) by {
        if lex_lt(c, d) && lex_lt(d, c2) {
            let q = choose|q: int|
                #![trigger c[q], d[q]]
                0 <= q < c.len() && q < d.len() && c[q] < d[q] && forall|i: int| 0 <= i < q ==> c[i] == d[i];
            let r = choose|r: int|
                #![trigger d[r], c2[r]]
                0 <= r < d.len() && r < c2.len() && d[r] < c2[r] && forall|i: int| 0 <= i < r ==> d[i] == c2[i];
            if q < p {
                if r <= q {
                    assert(d[r] == c[r] || r == q);
                    assert(c2[r] == c[r]);
                } else {
                    assert(d[q] == c2[q]);
                }
            } else if q == p {
                if r < p {
                    assert(d[r] == c[r]);
                } else if r == p {
                } else {
                    assert(d[p] == c2[p]);
                    // d is strictly increasing from d[p] == c2[p]
                    assert forall|i: int| p <= i < k implies #[trigger] d[i] >= c2[i] by {
                        lemma_increasing_from(d, p, i, k, n);
                    }
                    assert(d[r] >= c2[r]);
                }
            } else {
                // positions after p are maxed in c, so d cannot exceed c at q
                assert(c[q] == n - k + q);
                lemma_increasing_to_end(d, q, k, n);
            }
        }
    }
}

proof fn lemma_increasing_from(d: Seq<int>, p: int, i: int, k: int, n: int)
    requires
        is_comb(d, k, n),
        0 <= p <= i < k,
    ensures
        d[i] >= d[p] + (i - p),
    decreases i - p,
{
    if i > p {
        lemma_increasing_from(d, p, i - 1, k, n);
        assert(d[i - 1] < d[i]);
    }
}

proof fn lemma_increasing_to_end(d: Seq<int>, q: int, k: int, n: int)
    requires
        is_comb(d, k, n),
        0 <= q < k,
    ensures
        d[q] <= n - k + q,
    decreases k - q,
{
    if q < k - 1 {
        lemma_increasing_to_end(d, q + 1, k, n);
        assert(d[q] < d[q + 1]);
    }
}

/// The elements of `arr` at the positions in `run`.
fn pick_elements(arr: &[i32], run: &Vec<usize>, k: usize) -> (r: Vec<i32>)
    requires
        run@.len() == k,
        is_comb(positions(run@), k as int, arr@.len() as int),
    ensures
        r@ == pick(arr@, positions(run@)),
{
    let ghost c = positions(run@);
    let mut inner_run: Vec<i32> = Vec::new();
    let mut j: usize = 0;
    while j < k
        invariant
            j <= k,
            run@.len() == k,
            c == positions(run@),
            is_comb(c, k as int, arr@.len() as int),
            inner_run@ == pick(arr@, c).take(j as int),
        decreases k - j,
    {
        let x = run[j];
        proof {
            assert(c[j as int] == run@[j as int]);
            assert(0 <= c[j as int] < arr@.len());
        }
        inner_run.push(arr[x]);
        j += 1;
        proof {
            assert(inner_run@ =~= pick(arr@, c).take(j as int));
        }
    }
    proof {
        assert(inner_run@ =~= pick(arr@, c));
    }
    inner_run
}

/// Grows position `p` by one and lets the later positions follow it.
fn advance(run: &mut Vec<usize>, p: usize, k: usize, len: usize)
    requires
        old(run)@.len() == k,
        p < k,
        len <= i32::MAX,
        is_comb(positions(old(run)@), k as int, len as int),
        old(run)@[p as int] < len - k + p,
        forall|i: int| p < i < k ==> #[trigger] old(run)@[i] == len - k + i,
    ensures
        final(run)@.len() == k,
        is_comb(positions(final(run)@), k as int, len as int),
        next_comb(positions(old(run)@), positions(final(run)@), k as int, len as int),
        forall|j: int| p <= j < k ==> #[trigger] final(run)@[j] == final(run)@[p as int] + (j - p),
        p >= 1 ==> final(run)@[p - 1] + 1 < final(run)@[p as int],
{
    let ghost before = run@;
    let base = run[p];
    let mut x: usize = p;
    while x < k
        invariant
            p < k,
            p <= x <= k,
            run@.len() == k,
            len <= i32::MAX,
            base == before[p as int],
            base + (k - p) <= len,
            forall|j: int| 0 <= j < p ==> #[trigger] run@[j] == before[j],
            forall|j: int| p <= j < x ==> #[trigger] run@[j] == base + 1 + (j - p),
        decreases k - x,
    {
        run.set(x, base + 1 + (x - p));
        x += 1;
    }
    proof {
        let c = positions(before);
        let c2 = positions(run@);
        assert forall|i: int| p < i < k implies #[trigger] c[i] == len - k + i by {
            assert(c[i] == before[i]);
        }
        assert forall|i: int| 0 <= i < p implies #[trigger] c2[i] == c[i] by {
            assert(run@[i] == before[i]);
        }
        assert forall|i: int| p <= i < k implies #[trigger] c2[i] == c[p as int] + 1 + (i - p) by {
            assert(run@[i] == base + 1 + (i - p));
        }
        lemma_successor(c, c2, p as int, k as int, len as int);
        if p >= 1 {
            assert(c[p - 1] < c[p as int]);
        }
    }
}

/// Each combination in `idx` is one and comes right after the one before.
#[verifier::opaque]
pub open spec fn chain_ok(idx: Seq<Seq<int>>, k: int, n: int) -> bool {
    &&& forall|t: int| 0 <= t < idx.len() ==> is_comb(#[trigger] idx[t], k, n)
    &&& forall|t: int| 0 <= t < idx.len() - 1 ==> next_comb(#[trigger] idx[t], idx[t + 1], k, n)
}

/// The picked elements of each combination of `idx`.
pub open spec fn picks(arr: Seq<i32>, idx: Seq<Seq<int>>) -> Seq<Seq<i32>> {
    idx.map_values(|c: Seq<int>| pick(arr, c))
}

/// The contents of each vector of `res`.
pub open spec fn contents(res: Seq<Vec<i32>>) -> Seq<Seq<i32>> {
    res.map_values(|v: Vec<i32>| v@)
}

proof fn lemma_extend_chain(idx: Seq<Seq<int>>, c: Seq<int>, k: int, n: int)
    requires
        chain_ok(idx, k, n),
        is_comb(c, k, n),
        idx.len() > 0 ==> next_comb(idx.last(), c, k, n),
    ensures
        chain_ok(idx.push(c), k, n),
{
    reveal(chain_ok);
    let idx2 = idx.push(c);
    assert forall|t: int| 0 <= t < idx2.len() - 1 implies next_comb(#[trigger] idx2[t], idx2[t + 1], k, n) by {
        if t < idx.len() - 1 {
            assert(idx2[t] == idx[t] && idx2[t + 1] == idx[t + 1]);
        } else {
            assert(idx2[t] == idx.last());
        }
    }
    assert forall|t: int| 0 <= t < idx2.len() implies is_comb(#[trigger] idx2[t], k, n) by {
        if t < idx.len() {
            assert(idx2[t] == idx[t]);
        }
    }
}

/// After the current combination `c`, whose positions from `old_pp - 1` on
/// follow each other, the position to grow is `pp - 1`: it can grow, the
/// later ones cannot.
proof fn lemma_position_to_grow(c: Seq<int>, old_pp: int, pp: int, first: bool, k: int, n: int)
    requires
        is_comb(c, k, n),
        0 < old_pp <= k,
        0 < pp,
        k < n || k == 1,
        first ==> c == first_comb(k) && old_pp == k,
        forall|j: int| old_pp <= j < k ==> #[trigger] c[j] == c[old_pp - 1] + (j - (old_pp - 1)),
        !first && old_pp >= 2 ==> c[old_pp - 2] + 1 < c[old_pp - 1],
        pp == (if c[k - 1] == n - 1 {
            old_pp - 1
        } else {
            k
        }),
    ensures
        c[pp - 1] < n - k + (pp - 1),
        forall|j: int| pp <= j < k ==> #[trigger] c[j] == n - k + j,
{
    if pp != k {
        if first {
            assert(c[k - 1] == k - 1);
            assert(false);
        }
        assert forall|j: int| pp <= j < k implies #[trigger] c[j] == n - k + j by {
            assert(c[j] == c[old_pp - 1] + (j - (old_pp - 1)));
            assert(c[k - 1] == c[old_pp - 1] + (k - 1 - (old_pp - 1)));
        }
    }
}

/// When no position can grow, `c` is the last combination.
proof fn lemma_at_last(c: Seq<int>, old_pp: int, k: int, n: int)
    requires
        is_comb(c, k, n),
        old_pp == 1,
        c[k - 1] == n - 1,
        forall|j: int| old_pp <= j < k ==> #[trigger] c[j] == c[old_pp - 1] + (j - (old_pp - 1)),
    ensures
        c == last_comb(k, n),
{
    assert forall|j: int| 0 <= j < k implies #[trigger] c[j] == last_comb(k, n)[j] by {
        assert(c[j] == c[0] + j);
        assert(c[k - 1] == c[0] + (k - 1));
    }
    assert(c =~= last_comb(k, n));
}

/// The value grows from a combination to the next one and stays at most
/// that of the last one.
proof fn lemma_measure(c: Seq<int>, c2: Seq<int>, k: int, n: int)
    requires
        is_comb(c, k, n),
        is_comb(c2, k, n),
        lex_lt(c, c2),
    ensures
        comb_value(c, n + 1) < comb_value(c2, n + 1),
        comb_value(c2, n + 1) <= comb_value(last_comb(k, n), n + 1),
{
    let last = last_comb(k, n);
    assert forall|j: int| 0 <= j < k implies #[trigger] c2[j] <= last[j] by {
        lemma_increasing_to_end(c2, j, k, n);
    }
    lemma_value_lex(c, c2, n + 1);
    lemma_value_mono(c2, last, n + 1);
}

/// All `k`-element combinations of `arr`, each listed in the order of its
/// positions, lexicographically by positions. With `k == 0` the only
/// combination is the empty one; an empty `arr` has none for `k > 0`.
pub fn combinations(arr: &[i32], k: usize) -> (res: Vec<Vec<i32>>)
    requires
        arr@.len() <= i32::MAX,
        k == 0 || arr@.len() == 0 || k < arr@.len() || (k == 1 && arr@.len() == 1),
    ensures
        k == 0 ==> res@.len() == 1 && res@[0]@ == Seq::<i32>::empty(),
        k > 0 && arr@.len() == 0 ==> res@.len() == 0,
        k > 0 && arr@.len() > 0 ==> exists|idx: Seq<Seq<int>>|
            {
                &&& all_combs(idx, k as int, arr@.len() as int)
                &&& idx.len() == res@.len()
                &&& forall|t: int| 0 <= t < res@.len() ==> #[trigger] res@[t]@ == pick(arr@, idx[t])
            },
{
    if k == 0 {
        let mut res: Vec<Vec<i32>> = Vec::new();
        res.push(Vec::new());
        return res;
    }
    if arr.len() == 0 {
        return Vec::new();
    }
    let len = arr.len();
    let ghost n = len as int;
    let ghost b = n + 1;
    let mut res: Vec<Vec<i32>> = Vec::new();
    let mut run: Vec<usize> = Vec::new();
    let mut i: usize = 0;
    while i < k
        invariant
            i <= k,
            k < len || k == 1,
            run@.len() == i,
            forall|j: int| 0 <= j < i ==> run@[j] == j,
        decreases k - i,
    {
        run.push(i);
        i += 1;
    }
    proof {
        assert(positions(run@) =~= first_comb(k as int));
    }
    // `pp` is one more than the position that was last increased.
    let mut pp: usize = k;
    let ghost mut idx: Seq<Seq<int>> = Seq::empty();
    let ghost last = last_comb(k as int, n);
    proof {
        let c0 = positions(run@);
        assert forall|j: int| 0 <= j < k implies #[trigger] c0[j] <= last[j] by {}
        lemma_value_mono(c0, last, b);
        reveal(chain_ok);
        assert(contents(res@) =~= picks(arr@, idx));
    }
    while pp > 0
        invariant
            0 < k <= len,
            k < len || k == 1,
            n == len,
            b == n + 1,
            len == arr@.len(),
            len <= i32::MAX,
            last == last_comb(k as int, n),
            pp <= k,
            run@.len() == k,
            contents(res@) == picks(arr@, idx),
            chain_ok(idx, k as int, n),
            idx.len() > 0 ==> idx[0] == first_comb(k as int),
            pp > 0 ==> {
                &&& is_comb(positions(run@), k as int, n)
                &&& idx.len() == 0 ==> positions(run@) == first_comb(k as int) && pp == k
                &&& idx.len() > 0 ==> next_comb(idx.last(), positions(run@), k as int, n)
                &&& forall|j: int| pp <= j < k ==> #[trigger] run@[j] == run@[pp - 1] + (j - (pp - 1))
                &&& idx.len() > 0 && pp >= 2 ==> run@[pp - 2] + 1 < run@[pp - 1]
                &&& comb_value(positions(run@), b) <= comb_value(last, b)
            },
            pp == 0 ==> idx.len() > 0 && idx.last() == last,
        decreases (if pp > 0 { comb_value(last, b) - comb_value(positions(run@), b) + 1 } else { 0 }),
    {
        let ghost c = positions(run@);
        let ghost r0 = res@;
        let inner_run = pick_elements(arr, &run, k);
        res.push(inner_run);
        let ghost old_idx = idx;
        let ghost old_pp = pp;
        proof {
            lemma_extend_chain(idx, c, k as int, n);
            idx = idx.push(c);
            assert(contents(res@) =~= contents(r0).push(pick(arr@, c)));
            assert(picks(arr@, idx) =~= picks(arr@, old_idx).push(pick(arr@, c)));
            if old_idx.len() == 0 {
                assert(idx[0] == c);
            } else {
                assert(idx[0] == old_idx[0]);
            }
            assert forall|j: int| old_pp <= j < k implies #[trigger] c[j] == c[old_pp - 1] + (j - (
            old_pp - 1)) by {
                assert(c[j] == run@[j]);
            }
            assert(c[k - 1] == run@[k - 1]);
            if old_idx.len() > 0 && old_pp >= 2 {
                assert(c[old_pp - 2] == run@[old_pp - 2]);
            }
        }
        if run[k - 1] == len - 1 {
            pp -= 1;
        } else {
            pp = k;
        }
        if pp > 0 {
            let p = pp - 1;
            proof {
                lemma_position_to_grow(c, old_pp as int, pp as int, old_idx.len() == 0, k as int, n);
                assert forall|j: int| p < j < k implies #[trigger] run@[j] == len - k + j by {
                    assert(c[j] == run@[j]);
                }
            }
            advance(&mut run, p, k, len);
            proof {
                lemma_measure(c, positions(run@), k as int, n);
            }
        } else {
            proof {
                lemma_at_last(c, old_pp as int, k as int, n);
            }
        }
    }
    proof {
        reveal(chain_ok);
        assert(all_combs(idx, k as int, n));
        assert forall|t: int| 0 <= t < res@.len() implies #[trigger] res@[t]@ == pick(arr@, idx[t]) by {
            assert(contents(res@)[t] == picks(arr@, idx)[t]);
        }
    }
    res
}

} // verus!
