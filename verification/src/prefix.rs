//! The longest common prefix of a list of strings.

use vstd::prelude::*;
use crate::text::string_push;

verus! {

/// The number of leading characters that `a` and `b` share.
pub open spec fn common_len(a: Seq<char>, b: Seq<char>) -> nat
    decreases a.len(),
{
    if a.len() == 0 || b.len() == 0 || a[0] != b[0] {
        0
    } else {
        1 + common_len(a.drop_first(), b.drop_first())
    }
}

/// The least of `common_len(first, words[j])` over `1 <= j < i`, or all of
/// `first` when `i <= 1`.
pub open spec fn prefix_len(first: Seq<char>, words: Seq<Seq<char>>, i: int) -> nat
    decreases i,
{
    if i <= 1 {
        first.len()
    } else {
        let m = prefix_len(first, words, i - 1);
        let c = common_len(words[i - 1], first);
        if c < m {
            c
        } else {
            m
        }
    }
}

proof fn lemma_common_len(a: Seq<char>, b: Seq<char>, i: int)
    requires
        0 <= i <= a.len(),
        i <= b.len(),
        forall|j: int| 0 <= j < i ==> a[j] == b[j],
    ensures
        i == a.len() || i == b.len() || a[i] != b[i] ==> common_len(a, b) == i,
        common_len(a, b) <= a.len(),
    decreases i,
{
    if i > 0 {
        lemma_common_len(a.drop_first(), b.drop_first(), i - 1);
    } else {
        lemma_common_len_bound(a, b);
    }
}

proof fn lemma_common_len_bound(a: Seq<char>, b: Seq<char>)
    ensures
        common_len(a, b) <= a.len(),
    decreases a.len(),
{
    if a.len() > 0 && b.len() > 0 && a[0] == b[0] {
        lemma_common_len_bound(a.drop_first(), b.drop_first());
    }
}

/// `a` is a prefix of `b`.
pub open spec fn is_prefix_of(a: Seq<char>, b: Seq<char>) -> bool {
    a.len() <= b.len() && b.take(a.len() as int) == a
}

/// What `common_len` counts: the leading characters shared, up to the first
/// difference or the end of either string.
proof fn lemma_common_len_meaning(a: Seq<char>, b: Seq<char>)
    ensures
        common_len(a, b) <= a.len(),
        common_len(a, b) <= b.len(),
        forall|t: int| 0 <= t < common_len(a, b) ==> a[t] == b[t],
        common_len(a, b) < a.len() && common_len(a, b) < b.len() ==> a[common_len(a, b) as int]
            != b[common_len(a, b) as int],
    decreases a.len(),
{
    if a.len() > 0 && b.len() > 0 && a[0] == b[0] {
        lemma_common_len_meaning(a.drop_first(), b.drop_first());
        assert forall|t: int| 0 <= t < common_len(a, b) implies a[t] == b[t] by {
            if t > 0 {
                assert(a[t] == a.drop_first()[t - 1]);
                assert(b[t] == b.drop_first()[t - 1]);
            }
        }
    }
}

/// `prefix_len` over the first `i` words is at most the first word's length
/// and at most what it shares with each of those words; it is the first
/// word's length or what it shares with one of them.
proof fn lemma_prefix_len(first: Seq<char>, words: Seq<Seq<char>>, i: int)
    requires
        1 <= i <= words.len(),
    ensures
        prefix_len(first, words, i) <= first.len(),
        forall|j: int| 1 <= j < i ==> prefix_len(first, words, i) <= #[trigger] common_len(words[j], first),
        prefix_len(first, words, i) == first.len() || exists|j: int|
            1 <= j < i && prefix_len(first, words, i) == #[trigger] common_len(words[j], first),
    decreases i,
{
    if i > 1 {
        lemma_prefix_len(first, words, i - 1);
        let m = prefix_len(first, words, i - 1);
        let c = common_len(words[i - 1], first);
        if c < m {
            assert(prefix_len(first, words, i) == common_len(words[i - 1], first));
        } else {
            if m != first.len() {
                let j = choose|j: int| 1 <= j < i - 1 && m == #[trigger] common_len(words[j], first);
                assert(prefix_len(first, words, i) == common_len(words[j], first));
            }
        }
    }
}

/// The longest common prefix is a prefix of every word, and no longer prefix
/// of the first word is a prefix of them all.
pub proof fn law_longest_common_prefix(words: Seq<Seq<char>>)
    requires
        words.len() > 0,
    ensures
        ({
            let p = words[0].take(prefix_len(words[0], words, words.len() as int) as int);
            &&& forall|j: int| 0 <= j < words.len() ==> is_prefix_of(p, #[trigger] words[j])
            &&& forall|k: int|
                #![trigger words[0].take(k)]
                p.len() < k <= words[0].len() ==> exists|j: int|
                    0 <= j < words.len() && !is_prefix_of(words[0].take(k), #[trigger] words[j])
        }),
{
    let first = words[0];
    let n = words.len() as int;
    lemma_prefix_len(first, words, n);
    let l = prefix_len(first, words, n);
    let p = first.take(l as int);
    assert forall|j: int| 0 <= j < words.len() implies is_prefix_of(p, #[trigger] words[j]) by {
        if j == 0 {
            assert(words[j].take(l as int) =~= p);
        } else {
            lemma_common_len_meaning(words[j], first);
            assert(l <= common_len(words[j], first));
            assert(words[j].take(l as int) =~= p);
        }
    }
    assert forall|k: int|
        #![trigger words[0].take(k)]
        p.len() < k <= words[0].len() implies exists|j: int|
        0 <= j < words.len() && !is_prefix_of(words[0].take(k), #[trigger] words[j]) by {
        let j = choose|j: int| 1 <= j < n && l == #[trigger] common_len(words[j], first);
        lemma_common_len_meaning(words[j], first);
        if is_prefix_of(first.take(k), words[j]) {
            assert(words[j].take(k)[l as int] == first.take(k)[l as int]);
            assert(words[j][l as int] == first[l as int]);
        }
        assert(!is_prefix_of(words[0].take(k), words[j]));
    }
}

/// The longest prefix that the first string shares with every other one; the
/// empty string when there is none.
pub fn longest_common_prefix(strs: Vec<&str>) -> (r: String)
    ensures
        strs@.len() == 0 ==> r@ == Seq::<char>::empty(),
        strs@.len() > 0 ==> r@ == strs@[0]@.take(
            prefix_len(strs@[0]@, strs@.map_values(|s: &str| s@), strs@.len() as int) as int,
        ),
        forall|j: int| 0 <= j < strs@.len() ==> is_prefix_of(r@, #[trigger] strs@[j]@),
        strs@.len() > 0 ==> forall|k: int|
            #![trigger strs@[0]@.take(k)]
            r@.len() < k <= strs@[0]@.len() ==> exists|j: int|
                0 <= j < strs@.len() && !is_prefix_of(strs@[0]@.take(k), #[trigger] strs@[j]@),
{
    if strs.len() == 0 {
        return String::new();
    }
    let ghost words = strs@.map_values(|s: &str| s@);
    let smallest_word = strs[0];
    let first_len = smallest_word.unicode_len();
    let mut common_pref_len = first_len;
    let mut i: usize = 1;
    while i < strs.len()
        invariant
            strs@.len() >= 1,
            1 <= i <= strs@.len(),
            smallest_word == strs@[0],
            first_len == smallest_word@.len(),
            words == strs@.map_values(|s: &str| s@),
            common_pref_len == prefix_len(smallest_word@, words, i as int),
            common_pref_len <= first_len,
        decreases strs@.len() - i,
    {
        let w = strs[i];
        let wl = w.unicode_len();
        let mut c: usize = 0;
        while c < wl && c < first_len && w.get_char(c) == smallest_word.get_char(c)
            invariant
                c <= wl,
                c <= first_len,
                wl == w@.len(),
                first_len == smallest_word@.len(),
                forall|j: int| 0 <= j < c ==> w@[j] == smallest_word@[j],
            decreases wl - c,
        {
            c += 1;
        }
        proof {
            lemma_common_len(w@, smallest_word@, c as int);
            assert(words[i as int] == w@);
        }
        if c < common_pref_len {
            common_pref_len = c;
        }
        i += 1;
    }
    proof {
        law_longest_common_prefix(words);
        assert forall|j: int| 0 <= j < strs@.len() implies #[trigger] strs@[j]@ == words[j] by {}
    }
    let mut res = String::new();
    let mut j: usize = 0;
    while j < common_pref_len
        invariant
            common_pref_len <= first_len,
            first_len == smallest_word@.len(),
            j <= common_pref_len,
            res@ == smallest_word@.take(j as int),
        decreases common_pref_len - j,
    {
        string_push(&mut res, smallest_word.get_char(j));
        j += 1;
        proof {
            assert(res@ =~= smallest_word@.take(j as int));
        }
    }
    res
}

} // verus!
