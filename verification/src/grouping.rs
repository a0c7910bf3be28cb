//! Grouping of items by key, in the order in which each key first appears.
use vstd::prelude::*;

verus! {

/// The distinct keys of `ks`, in the order of their first occurrence.
pub open spec fn first_keys<K>(ks: Seq<K>) -> Seq<K>
    decreases ks.len(),
{
    if ks.len() == 0 {
        Seq::empty()
    } else if first_keys(ks.drop_last()).contains(ks.last()) {
        first_keys(ks.drop_last())
    } else {
        first_keys(ks.drop_last()).push(ks.last())
    }
}

/// The positions in `ks` that hold `k`, in increasing order.
pub open spec fn positions_of<K>(ks: Seq<K>, k: K) -> Seq<int>
    decreases ks.len(),
{
    if ks.len() == 0 {
        Seq::empty()
    } else if ks.last() == k {
        positions_of(ks.drop_last(), k).push(ks.len() - 1)
    } else {
        positions_of(ks.drop_last(), k)
    }
}

/// A key occurs among the first keys exactly when it occurs at all.
pub proof fn lemma_first_keys_contains<K>(ks: Seq<K>, k: K)
    ensures
        first_keys(ks).contains(k) <==> ks.contains(k),
    decreases ks.len(),
{
    if ks.len() > 0 {
        lemma_first_keys_contains(ks.drop_last(), k);
        lemma_first_keys_contains(ks.drop_last(), ks.last());
        if ks.drop_last().contains(k) {
            let i = choose|i: int| 0 <= i < ks.drop_last().len() && ks.drop_last()[i] == k;
            assert(ks[i] == k);
        }
        if ks.contains(k) && k != ks.last() {
            let i = choose|i: int| 0 <= i < ks.len() && ks[i] == k;
            assert(ks.drop_last()[i] == k);
        }
        if first_keys(ks.drop_last()).contains(ks.last()) {
        } else {
            assert(first_keys(ks).last() == ks.last());
            if first_keys(ks.drop_last()).contains(k) {
                let i = choose|i: int| 0 <= i < first_keys(ks.drop_last()).len() && first_keys(ks.drop_last())[i] == k;
                assert(first_keys(ks)[i] == k);
            }
            if first_keys(ks).contains(k) && k != ks.last() {
                let i = choose|i: int| 0 <= i < first_keys(ks).len() && first_keys(ks)[i] == k;
                assert(first_keys(ks.drop_last())[i] == k);
            }
        }
        assert(ks.last() == ks[ks.len() - 1]);
    }
}

/// The first keys are pairwise distinct.
pub proof fn lemma_first_keys_distinct<K>(ks: Seq<K>)
    ensures
        first_keys(ks).no_duplicates(),
    decreases ks.len(),
{
    if ks.len() > 0 {
        lemma_first_keys_distinct(ks.drop_last());
    }
}

/// A key that does not occur has no positions.
pub proof fn lemma_positions_of_absent<K>(ks: Seq<K>, k: K)
    requires
        !ks.contains(k),
    ensures
        positions_of(ks, k).len() == 0,
    decreases ks.len(),
{
    if ks.len() > 0 {
        assert(ks.last() == ks[ks.len() - 1]);
        assert forall|i: int| 0 <= i < ks.drop_last().len() implies ks.drop_last()[i] != k by {
            assert(ks[i] == ks.drop_last()[i]);
        }
        lemma_positions_of_absent(ks.drop_last(), k);
    }
}

/// Each of the first keys has at least one position.
pub proof fn lemma_first_key_has_positions<K>(ks: Seq<K>, g: int)
    requires
        0 <= g < first_keys(ks).len(),
    ensures
        positions_of(ks, first_keys(ks)[g]).len() > 0,
    decreases ks.len(),
{
    if ks.len() > 0 {
        let prev = ks.drop_last();
        if g < first_keys(prev).len() {
            lemma_first_key_has_positions(prev, g);
        } else {
            assert(first_keys(ks)[g] == ks.last());
        }
    }
}

/// Every position listed for `k` lies in range and holds `k`; the
/// positions increase.
pub proof fn lemma_positions_of_valid<K>(ks: Seq<K>, k: K)
    ensures
        forall|i: int|
            0 <= i < positions_of(ks, k).len() ==> 0 <= #[trigger] positions_of(ks, k)[i] < ks.len()
                && ks[positions_of(ks, k)[i]] == k,
        forall|i: int, j: int|
            0 <= i < j < positions_of(ks, k).len() ==> positions_of(ks, k)[i] < positions_of(
                ks,
                k,
            )[j],
    decreases ks.len(),
{
    if ks.len() > 0 {
        let prev = ks.drop_last();
        lemma_positions_of_valid(prev, k);
        assert forall|i: int| 0 <= i < positions_of(prev, k).len() implies ks[positions_of(
            prev,
            k,
        )[i]] == k by {
            assert(ks[positions_of(prev, k)[i]] == prev[positions_of(prev, k)[i]]);
        }
        assert(ks.last() == ks[ks.len() - 1]);
    }
}

/// Groups the positions of `keys` by equal key. Group `g` holds the
/// positions of the `g`-th distinct key, in increasing order.
pub(crate) fn group_positions(keys: &Vec<(String, i64)>) -> (groups: Vec<Vec<usize>>)
    ensures
        groups@.len() == first_keys(key_views(keys@)).len(),
        forall|g: int|
            0 <= g < groups@.len() ==> (#[trigger] groups@[g])@.map_values(|p: usize| p as int)
                == positions_of(key_views(keys@), first_keys(key_views(keys@))[g]),
{
    let ghost kv = key_views(keys@);
    let mut groups: Vec<Vec<usize>> = Vec::new();
    let mut p: usize = 0;
    while p < keys.len()
        invariant
            p <= keys@.len(),
            kv == key_views(keys@),
            kv.len() == keys@.len(),
            groups@.len() == first_keys(kv.take(p as int)).len(),
            forall|g: int|
                0 <= g < groups@.len() ==> (#[trigger] groups@[g])@.len() > 0
                    && groups@[g]@[0] < p
                    && kv[groups@[g]@[0] as int] == first_keys(kv.take(p as int))[g]
                    && groups@[g]@.map_values(|q: usize| q as int) == positions_of(
                    kv.take(p as int),
                    first_keys(kv.take(p as int))[g],
                ),
        decreases keys@.len() - p,
    {
        let ghost ks = kv.take(p as int);
        let ghost ks1 = kv.take(p + 1);
        let ghost x = kv[p as int];
        proof {
            assert(ks1.drop_last() =~= ks);
            assert(ks1.last() == x);
            lemma_first_keys_distinct(ks);
            lemma_first_keys_contains(ks, x);
        }
        let mut found: usize = groups.len();
        let mut g: usize = 0;
        while g < groups.len()
            invariant_except_break
                found == groups@.len(),
            invariant
                g <= groups@.len(),
                groups@.len() == first_keys(ks).len(),
                p < keys@.len(),
                kv == key_views(keys@),
                x == kv[p as int],
                ks == kv.take(p as int),
                forall|h: int|
                    0 <= h < groups@.len() ==> (#[trigger] groups@[h])@.len() > 0
                        && groups@[h]@[0] < p
                        && kv[groups@[h]@[0] as int] == first_keys(ks)[h],
                forall|h: int| 0 <= h < g ==> first_keys(ks)[h] != x,
            ensures
                found < groups@.len() ==> first_keys(ks)[found as int] == x,
                found >= groups@.len() ==> found == groups@.len() && forall|h: int|
                    0 <= h < groups@.len() ==> first_keys(ks)[h] != x,
            decreases groups@.len() - g,
        {
            let first = groups[g][0];
            if keys[first].0 == keys[p].0 && keys[first].1 == keys[p].1 {
                proof {
                    assert(kv[first as int] == (keys@[first as int].0@, keys@[first as int].1));
                    assert(kv[p as int] == (keys@[p as int].0@, keys@[p as int].1));
                }
                found = g;
                break;
            }
            proof {
                assert(kv[first as int] == (keys@[first as int].0@, keys@[first as int].1));
                assert(kv[p as int] == (keys@[p as int].0@, keys@[p as int].1));
            }
            g = g + 1;
        }
        let ghost old_groups = groups@;
        if found < groups.len() {
            let ghost k = first_keys(ks)[found as int];
            proof {
                assert(k == x);
                assert(first_keys(ks).contains(x));
                assert(first_keys(ks1) == first_keys(ks));
            }
            let mut grp = groups.remove(found);
            grp.push(p);
            groups.insert(found, grp);
            proof {
                assert forall|h: int| 0 <= h < groups@.len() implies (#[trigger] groups@[h])@.len()
                    > 0 && groups@[h]@[0] < p + 1 && kv[groups@[h]@[0] as int] == first_keys(
                    ks1,
                )[h] && groups@[h]@.map_values(|q: usize| q as int) == positions_of(
                    ks1,
                    first_keys(ks1)[h],
                ) by {
                    if h == found {
                        assert(groups@[h]@.map_values(|q: usize| q as int) =~= old_groups[h]@.map_values(
                            |q: usize| q as int,
                        ).push(p as int));
                    } else {
                        assert(groups@[h] == old_groups[h]);
                        assert(first_keys(ks)[h] != first_keys(ks)[found as int]);
                    }
                }
            }
        } else {
            proof {
                if first_keys(ks).contains(x) {
                    let h = choose|h: int| 0 <= h < first_keys(ks).len() && first_keys(ks)[h] == x;
                    assert(first_keys(ks)[h] != x);
                }
                assert(first_keys(ks1) == first_keys(ks).push(x));
                assert(!ks.contains(x));
                lemma_positions_of_absent(ks, x);
            }
            let mut grp: Vec<usize> = Vec::new();
            grp.push(p);
            groups.push(grp);
            proof {
                assert forall|h: int| 0 <= h < groups@.len() implies (#[trigger] groups@[h])@.len()
                    > 0 && groups@[h]@[0] < p + 1 && kv[groups@[h]@[0] as int] == first_keys(
                    ks1,
                )[h] && groups@[h]@.map_values(|q: usize| q as int) == positions_of(
                    ks1,
                    first_keys(ks1)[h],
                ) by {
                    if h == old_groups.len() {
                        assert(groups@[h]@.map_values(|q: usize| q as int) =~= seq![p as int]);
                        assert(positions_of(ks, x) =~= Seq::<int>::empty());
                    } else {
                        assert(groups@[h] == old_groups[h]);
                        assert(first_keys(ks1)[h] == first_keys(ks)[h]);
                    }
                }
            }
        }
        p = p + 1;
    }
    proof {
        assert(kv.take(keys@.len() as int) =~= kv);
    }
    groups
}

/// The views of string-and-amount keys.
pub open spec fn key_views(keys: Seq<(String, i64)>) -> Seq<(Seq<char>, i64)> {
    keys.map_values(|k: (String, i64)| (k.0@, k.1))
}

} // verus!
