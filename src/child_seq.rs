use vstd::prelude::*;

verus! {

/// `s` with every occurrence of `x` taken out, the rest in order.
pub open spec fn without(s: Seq<usize>, x: usize) -> Seq<usize>
    decreases s.len(),
{
    if s.len() == 0 {
        s
    } else if s.last() == x {
        without(s.drop_last(), x)
    } else {
        without(s.drop_last(), x).push(s.last())
    }
}

/// An element occurs in a non-empty sequence where it occurs before the last, or is the last.
pub proof fn lemma_contains_split(s: Seq<usize>, y: usize)
    requires
        s.len() > 0,
    ensures
        s.contains(y) == (s.drop_last().contains(y) || s.last() == y),
{
    if s.contains(y) {
        let k = choose|k: int| 0 <= k < s.len() && s[k] == y;
        if k < s.len() - 1 {
            assert(s.drop_last()[k] == y);
        }
    }
    if s.drop_last().contains(y) {
        let k = choose|k: int| 0 <= k < s.drop_last().len() && s.drop_last()[k] == y;
        assert(s[k] == y);
    }
    if s.last() == y {
        assert(s[s.len() - 1] == y);
    }
}

/// Taking `x` out keeps exactly the other elements.
pub proof fn lemma_without_contains(s: Seq<usize>, x: usize)
    ensures
        forall|y: usize| #[trigger] without(s, x).contains(y) == (s.contains(y) && y != x),
        without(s, x).len() <= s.len(),
    decreases s.len(),
{
    if s.len() > 0 {
        lemma_without_contains(s.drop_last(), x);
        let w = without(s.drop_last(), x);
        assert forall|y: usize| #[trigger] without(s, x).contains(y) == (s.contains(y) && y != x) by {
            lemma_contains_split(s, y);
            if s.last() != x {
                lemma_contains_split(w.push(s.last()), y);
                assert(w.push(s.last()).drop_last() =~= w);
            }
        }
    }
}

/// Taking `x` out keeps a sequence free of repeats.
pub proof fn lemma_without_no_duplicates(s: Seq<usize>, x: usize)
    requires
        s.no_duplicates(),
    ensures
        without(s, x).no_duplicates(),
    decreases s.len(),
{
    if s.len() > 0 {
        let d = s.drop_last();
        assert(d.no_duplicates());
        lemma_without_no_duplicates(d, x);
        lemma_without_contains(d, x);
        if s.last() != x {
            assert(!d.contains(s.last()));
            assert(!without(d, x).contains(s.last()));
            let w = without(d, x);
            assert forall|i: int, j: int| 0 <= i < j < w.push(s.last()).len() implies w.push(s.last())[i] != w.push(s.last())[j] by {
                if j == w.len() {
                    assert(w.contains(w[i]));
                }
            }
        }
    }
}

/// Where `x` does not occur, taking it out changes nothing.
pub proof fn lemma_without_absent(s: Seq<usize>, x: usize)
    requires
        !s.contains(x),
    ensures
        without(s, x) == s,
    decreases s.len(),
{
    if s.len() > 0 {
        assert(!s.drop_last().contains(x)) by {
            if s.drop_last().contains(x) {
                let k = choose|k: int| 0 <= k < s.drop_last().len() && s.drop_last()[k] == x;
                assert(s[k] == x);
            }
        }
        lemma_without_absent(s.drop_last(), x);
        assert(s.last() != x) by {
            assert(s[s.len() - 1] == s.last());
        }
        assert(s.drop_last().push(s.last()) =~= s);
    }
}

/// Where `x` occurs once, at `k`, taking it out is removing position `k`.
pub proof fn lemma_without_unique(s: Seq<usize>, x: usize, k: int)
    requires
        s.no_duplicates(),
        0 <= k < s.len(),
        s[k] == x,
    ensures
        without(s, x) == s.remove(k),
    decreases s.len(),
{
    let d = s.drop_last();
    if k == s.len() - 1 {
        assert(!d.contains(x)) by {
            if d.contains(x) {
                let m = choose|m: int| 0 <= m < d.len() && d[m] == x;
                assert(s[m] == s[k]);
            }
        }
        lemma_without_absent(d, x);
        assert(s.remove(k) =~= d);
    } else {
        assert(d.no_duplicates());
        lemma_without_unique(d, x, k);
        assert(s.last() != x) by {
            assert(s[s.len() - 1] == s.last());
        }
        assert(d.remove(k).push(s.last()) =~= s.remove(k));
    }
}

/// Copies `v` without the occurrences of `x`.
pub(crate) fn without_exec(v: &Vec<usize>, x: usize) -> (r: Vec<usize>)
    ensures
        r@ == without(v@, x),
{
    let mut r: Vec<usize> = Vec::new();
    let mut i: usize = 0;
    while i < v.len()
        invariant
            i <= v@.len(),
            r@ == without(v@.take(i as int), x),
        decreases v@.len() - i,
    {
        assert(v@.take(i + 1).drop_last() =~= v@.take(i as int));
        if v[i] != x {
            r.push(v[i]);
        }
        i = i + 1;
    }
    assert(v@.take(v@.len() as int) =~= v@);
    r
}

} // verus!
