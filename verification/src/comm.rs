//! The lines that two texts have in common, each once.

use vstd::prelude::*;

verus! {

/// The characters of each line.
pub open spec fn line_views(v: Seq<String>) -> Seq<Seq<char>> {
    v.map_values(|s: String| s@)
}

/// The lines of `big`, in order, that occur in `small`, each kept the first
/// time it occurs.
pub open spec fn common_spec(big: Seq<Seq<char>>, small: Seq<Seq<char>>) -> Seq<Seq<char>>
    decreases big.len(),
{
    if big.len() == 0 {
        Seq::empty()
    } else {
        let init = common_spec(big.drop_last(), small);
        let l = big.last();
        if small.contains(l) && !init.contains(l) {
            init.push(l)
        } else {
            init
        }
    }
}

/// The common lines are exactly the lines that occur in both texts, and
/// each of them is listed once.
pub proof fn law_common_lines(big: Seq<Seq<char>>, small: Seq<Seq<char>>)
    ensures
        ({
            let r = common_spec(big, small);
            &&& forall|i: int| 0 <= i < r.len() ==> big.contains(#[trigger] r[i]) && small.contains(r[i])
            &&& r.no_duplicates()
            &&& forall|l: Seq<char>| big.contains(l) && small.contains(l) ==> #[trigger] r.contains(l)
        }),
    decreases big.len(),
{
    let r = common_spec(big, small);
    if big.len() > 0 {
        let init_big = big.drop_last();
        law_common_lines(init_big, small);
        let init = common_spec(init_big, small);
        let l = big.last();
        assert forall|i: int| 0 <= i < r.len() implies big.contains(#[trigger] r[i]) && small.contains(
            r[i],
        ) by {
            if i < init.len() {
                assert(r[i] == init[i]);
                let k = choose|k: int| 0 <= k < init_big.len() && init_big[k] == init[i];
                assert(big[k] == init_big[k]);
            } else {
                assert(r[i] == l);
                assert(big[big.len() - 1] == l);
            }
        }
        assert forall|l2: Seq<char>| big.contains(l2) && small.contains(l2) implies #[trigger] r.contains(
            l2,
        ) by {
            let k = choose|k: int| 0 <= k < big.len() && big[k] == l2;
            if k < big.len() - 1 {
                assert(init_big[k] == l2);
                assert(init.contains(l2));
                let j = choose|j: int| 0 <= j < init.len() && init[j] == l2;
                assert(r[j] == init[j]);
            } else if !init.contains(l2) {
                assert(r[r.len() - 1] == l2);
            } else {
                let j = choose|j: int| 0 <= j < init.len() && init[j] == l2;
                assert(r[j] == init[j]);
            }
        }
        assert forall|a: int, b: int| 0 <= a < r.len() && 0 <= b < r.len() && a != b implies r[a]
            != r[b] by {
            if a < init.len() && b < init.len() {
                assert(r[a] == init[a] && r[b] == init[b]);
            } else if a < init.len() {
                assert(r[a] == init[a]);
            } else if b < init.len() {
                assert(r[b] == init[b]);
            }
        }
    }
}

/// Whether `v` holds a line equal to `line`.
fn has_line(v: &Vec<String>, line: &String) -> (r: bool)
    ensures
        r == line_views(v@).contains(line@),
{
    let mut i: usize = 0;
    while i < v.len()
        invariant
            i <= v@.len(),
            forall|j: int| 0 <= j < i ==> v@[j]@ != line@,
        decreases v@.len() - i,
    {
        if v[i] == *line {
            proof {
                assert(line_views(v@)[i as int] == line@);
            }
            return true;
        }
        i += 1;
    }
    proof {
        if line_views(v@).contains(line@) {
            let j = choose|j: int| 0 <= j < line_views(v@).len() && line_views(v@)[j] == line@;
            assert(v@[j]@ == line@);
        }
    }
    false
}

/// The lines of `big` that also occur in `small`, without repetition, in
/// the order in which they first occur in `big`.
pub fn common_lines(small: &Vec<String>, big: &Vec<String>) -> (r: Vec<String>)
    ensures
        line_views(r@) == common_spec(line_views(big@), line_views(small@)),
{
    let mut res: Vec<String> = Vec::new();
    let mut i: usize = 0;
    proof {
        assert(line_views(big@).take(0) =~= Seq::<Seq<char>>::empty());
        assert(line_views(res@) =~= Seq::<Seq<char>>::empty());
    }
    while i < big.len()
        invariant
            i <= big@.len(),
            line_views(res@) == common_spec(line_views(big@).take(i as int), line_views(small@)),
        decreases big@.len() - i,
    {
        let line = &big[i];
        let ghost before = res@;
        proof {
            assert(line_views(big@).take(i + 1).drop_last() =~= line_views(big@).take(i as int));
            assert(line_views(big@).take(i + 1).last() == line@);
        }
        if has_line(small, line) && !has_line(&res, line) {
            res.push(line.clone());
            proof {
                assert(line_views(res@) =~= line_views(before).push(line@));
            }
        }
        i += 1;
    }
    proof {
        assert(line_views(big@).take(big@.len() as int) =~= line_views(big@));
    }
    res
}

} // verus!
