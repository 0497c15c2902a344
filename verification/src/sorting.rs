//! A stable sort of keyed items: items come out by increasing key, and items
//! of equal key keep the order in which they came in.
use vstd::prelude::*;

verus! {

broadcast use vstd::seq_lib::group_to_multiset_ensures;

/// `x` placed into `s` just before the first item whose key is greater than
/// its own (at the end when there is none).
pub open spec fn insert_by_key<T>(s: Seq<(i64, T)>, x: (i64, T)) -> Seq<(i64, T)>
    decreases s.len(),
{
    if s.len() == 0 {
        seq![x]
    } else if s[0].0 > x.0 {
        seq![x] + s
    } else {
        seq![s[0]] + insert_by_key(s.drop_first(), x)
    }
}

/// The items of `s` by increasing key; among equal keys, in their order in `s`.
pub open spec fn sorted_by_key<T>(s: Seq<(i64, T)>) -> Seq<(i64, T)>
    decreases s.len(),
{
    if s.len() == 0 {
        s
    } else {
        insert_by_key(sorted_by_key(s.drop_last()), s.last())
    }
}

/// The keys of `s` never decrease.
pub open spec fn keys_ascending<T>(s: Seq<(i64, T)>) -> bool {
    forall|i: int, j: int| 0 <= i <= j < s.len() ==> #[trigger] s[i].0 <= #[trigger] s[j].0
}

/// Whether an item has the key `k`.
pub open spec fn has_key<T>(k: i64) -> spec_fn((i64, T)) -> bool {
    |e: (i64, T)| e.0 == k
}

/// Placing `x` before the first greater key is inserting it at that index.
proof fn lemma_insert_at<T>(s: Seq<(i64, T)>, x: (i64, T), j: int)
    requires
        0 <= j <= s.len(),
        forall|k: int| 0 <= k < j ==> s[k].0 <= x.0,
        j == s.len() || s[j].0 > x.0,
    ensures
        insert_by_key(s, x) == s.insert(j, x),
    decreases s.len(),
{
    if s.len() == 0 {
        assert(s.insert(j, x) =~= seq![x]);
    } else if s[0].0 > x.0 {
        assert(j == 0);
        assert(s.insert(j, x) =~= seq![x] + s);
    } else {
        let rest = s.drop_first();
        assert forall|k: int| 0 <= k < j - 1 implies rest[k].0 <= x.0 by {
            assert(rest[k] == s[k + 1]);
        }
        lemma_insert_at(rest, x, j - 1);
        assert(s.insert(j, x) =~= seq![s[0]] + rest.insert(j - 1, x));
    }
}

/// The index before which `insert_by_key` places an item of key `k`.
pub open spec fn first_greater<T>(s: Seq<(i64, T)>, k: i64) -> int
    decreases s.len(),
{
    if s.len() == 0 || s[0].0 > k {
        0
    } else {
        1 + first_greater(s.drop_first(), k)
    }
}

proof fn lemma_first_greater<T>(s: Seq<(i64, T)>, k: i64)
    ensures
        0 <= first_greater(s, k) <= s.len(),
        forall|i: int| 0 <= i < first_greater(s, k) ==> s[i].0 <= k,
        first_greater(s, k) == s.len() || s[first_greater(s, k)].0 > k,
    decreases s.len(),
{
    if s.len() > 0 && s[0].0 <= k {
        let rest = s.drop_first();
        lemma_first_greater(rest, k);
        assert forall|i: int| 0 <= i < first_greater(s, k) implies s[i].0 <= k by {
            if i > 0 {
                assert(s[i] == rest[i - 1]);
            }
        }
    }
}

/// Inserting into an ascending sequence keeps it ascending, adds the item
/// once, and puts it after every item of the same key.
proof fn lemma_insert_by_key<T>(s: Seq<(i64, T)>, x: (i64, T))
    requires
        keys_ascending(s),
    ensures
        keys_ascending(insert_by_key(s, x)),
        insert_by_key(s, x).to_multiset() == s.to_multiset().insert(x),
        forall|k: i64| #[trigger] insert_by_key(s, x).filter(has_key(k)) == s.filter(has_key(k)) + (if x.0 == k {
            seq![x]
        } else {
            Seq::empty()
        }),
    decreases s.len(),
{
    lemma_first_greater(s, x.0);
    let j = first_greater(s, x.0);
    lemma_insert_at(s, x, j);
    let r = s.insert(j, x);
    assert forall|a: int, b: int| 0 <= a <= b < r.len() implies #[trigger] r[a].0 <= #[trigger] r[b].0 by {
        if a < j && b < j {
        } else if a < j && b == j {
        } else if a < j {
            assert(r[b] == s[b - 1]);
        } else if a == j && b == j {
        } else if a == j {
            assert(r[b] == s[b - 1]);
            assert(s[j].0 <= s[b - 1].0);
        } else {
            assert(r[a] == s[a - 1]);
            assert(r[b] == s[b - 1]);
        }
    }
    assert(r.to_multiset() == s.to_multiset().insert(x));
    assert forall|k: i64| #[trigger] insert_by_key(s, x).filter(has_key(k)) == s.filter(has_key(k)) + (if x.0 == k {
        seq![x]
    } else {
        Seq::empty()
    }) by {
        lemma_insert_filter(s, x, k);
    }
}

proof fn lemma_insert_filter<T>(s: Seq<(i64, T)>, x: (i64, T), k: i64)
    requires
        keys_ascending(s),
    ensures
        insert_by_key(s, x).filter(has_key(k)) == s.filter(has_key(k)) + (if x.0 == k {
            seq![x]
        } else {
            Seq::empty()
        }),
    decreases s.len(),
{
    let p = has_key::<T>(k);
    let tail: Seq<(i64, T)> = if x.0 == k {
        seq![x]
    } else {
        Seq::empty()
    };
    if s.len() == 0 {
        Seq::<(i64, T)>::empty().lemma_filter_prepend(x, p);
        assert(seq![x] =~= seq![x] + Seq::<(i64, T)>::empty());
        assert(s.filter(p) =~= Seq::<(i64, T)>::empty());
        assert(insert_by_key(s, x).filter(p) =~= s.filter(p) + tail);
    } else if s[0].0 > x.0 {
        s.lemma_filter_prepend(x, p);
        if x.0 == k {
            assert forall|i: int| 0 <= i < s.len() implies !p(s[i]) by {
                assert(s[0].0 <= s[i].0);
            }
            s.lemma_all_neg_filter_empty(p);
        }
        assert(insert_by_key(s, x).filter(p) =~= s.filter(p) + tail);
    } else {
        let rest = s.drop_first();
        assert(keys_ascending(rest)) by {
            assert forall|a: int, b: int| 0 <= a <= b < rest.len() implies #[trigger] rest[a].0 <= #[trigger] rest[b].0 by {
                assert(rest[a] == s[a + 1]);
                assert(rest[b] == s[b + 1]);
            }
        }
        lemma_insert_filter(rest, x, k);
        insert_by_key(rest, x).lemma_filter_prepend(s[0], p);
        rest.lemma_filter_prepend(s[0], p);
        assert(s =~= seq![s[0]] + rest);
        assert(insert_by_key(s, x).filter(p) =~= s.filter(p) + tail);
    }
}

/// The sort of a sequence is ascending and holds the same items.
pub proof fn lemma_sorted_ascending<T>(s: Seq<(i64, T)>)
    ensures
        keys_ascending(sorted_by_key(s)),
        sorted_by_key(s).to_multiset() == s.to_multiset(),
    decreases s.len(),
{
    if s.len() > 0 {
        lemma_sorted_ascending(s.drop_last());
        lemma_insert_by_key(sorted_by_key(s.drop_last()), s.last());
        assert(s.drop_last().push(s.last()) =~= s);
    }
}

/// The sort is stable: the items of any one key come out in the order in
/// which they came in.
pub proof fn lemma_sorted_stable<T>(s: Seq<(i64, T)>, k: i64)
    ensures
        sorted_by_key(s).filter(has_key(k)) == s.filter(has_key(k)),
    decreases s.len(),
{
    if s.len() > 0 {
        lemma_sorted_stable(s.drop_last(), k);
        lemma_sorted_ascending(s.drop_last());
        lemma_insert_by_key(sorted_by_key(s.drop_last()), s.last());
        assert(sorted_by_key(s).filter(has_key(k)) == sorted_by_key(s.drop_last()).filter(has_key(k)) + (if s.last().0
            == k {
            seq![s.last()]
        } else {
            Seq::empty()
        }));
        s.drop_last().lemma_filter_push(s.last(), has_key(k));
        assert(s.drop_last().push(s.last()) =~= s);
        assert(s.filter(has_key(k)) =~= sorted_by_key(s).filter(has_key(k)));
    }
}

/// The items sorted by increasing key, items of equal key in their order
/// in `items`, as a stable sort by key gives them.
pub fn stable_sort<T>(items: Vec<(i64, T)>) -> (r: Vec<(i64, T)>)
    ensures
        r@ == sorted_by_key(items@),
{
    let ghost orig = items@;
    let mut rest = items;
    let mut result: Vec<(i64, T)> = Vec::new();
    let ghost mut taken: int = 0;
    assert(orig.subrange(0, 0) =~= Seq::<(i64, T)>::empty());
    while rest.len() > 0
        invariant
            0 <= taken <= orig.len(),
            rest@ == orig.subrange(taken, orig.len() as int),
            result@ == sorted_by_key(orig.subrange(0, taken)),
        decreases rest@.len(),
    {
        proof {
            lemma_sorted_ascending(orig.subrange(0, taken));
        }
        let x = rest.remove(0);
        let mut j: usize = 0;
        while j < result.len() && result[j].0 <= x.0
            invariant
                j <= result@.len(),
                forall|k: int| 0 <= k < j ==> result@[k].0 <= x.0,
            decreases result@.len() - j,
        {
            j = j + 1;
        }
        let ghost before = result@;
        proof {
            lemma_insert_at(before, x, j as int);
            assert(orig.subrange(0, taken + 1).drop_last() =~= orig.subrange(0, taken));
            assert(orig.subrange(0, taken + 1).last() == x);
        }
        result.insert(j, x);
        proof {
            taken = taken + 1;
        }
        assert(rest@ =~= orig.subrange(taken, orig.len() as int));
    }
    assert(orig.subrange(0, taken) =~= orig);
    result
}

} // verus!
