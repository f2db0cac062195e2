//! Stable sorting: what it is, and that it has one outcome only.
use vstd::prelude::*;

verus! {

/// Whether a sequence is in ascending order of a key.
pub open spec fn is_ordered<T>(s: Seq<T>, key: spec_fn(T) -> int) -> bool {
    forall|i: int, j: int| 0 <= i < j < s.len() ==> key(#[trigger] s[i]) <= key(#[trigger] s[j])
}

/// The elements with one key, in the order that they stand in.
pub open spec fn with_key<T>(s: Seq<T>, key: spec_fn(T) -> int, k: int) -> Seq<T> {
    s.filter(|x: T| key(x) == k)
}

/// Whether a sequence is another one, sorted by a key, where elements with equal
/// keys stay in the order that they stood in.
pub open spec fn is_stable_sort<T>(input: Seq<T>, output: Seq<T>, key: spec_fn(T) -> int) -> bool {
    &&& is_ordered(output, key)
    &&& forall|k: int| #[trigger] with_key(output, key, k) == with_key(input, key, k)
}

/// The elements with one key, of a sequence and the elements after it.
pub proof fn lemma_with_key_add<T>(s: Seq<T>, t: Seq<T>, key: spec_fn(T) -> int, k: int)
    ensures
        with_key(s + t, key, k) == with_key(s, key, k) + with_key(t, key, k),
{
    Seq::filter_distributes_over_add(s, t, |x: T| key(x) == k);
}

/// The elements with one key, of a single element.
pub proof fn lemma_with_key_one<T>(x: T, key: spec_fn(T) -> int, k: int)
    ensures
        with_key(seq![x], key, k) == if key(x) == k {
            seq![x]
        } else {
            seq![]
        },
{
    reveal(Seq::filter);
    let s: Seq<T> = seq![x];
    assert(s.drop_last() =~= Seq::<T>::empty());
    assert(with_key(s.drop_last(), key, k) =~= Seq::<T>::empty());
    assert(with_key(s, key, k) =~= if key(x) == k {
        seq![x]
    } else {
        seq![]
    });
}

/// Where all keys are others, no element has the key.
pub proof fn lemma_with_key_none<T>(s: Seq<T>, key: spec_fn(T) -> int, k: int)
    requires
        forall|i: int| 0 <= i < s.len() ==> key(#[trigger] s[i]) != k,
    ensures
        with_key(s, key, k) == Seq::<T>::empty(),
    decreases s.len(),
{
    reveal(Seq::filter);
    if s.len() > 0 {
        assert forall|i: int| 0 <= i < s.drop_last().len() implies key(
            #[trigger] s.drop_last()[i],
        ) != k by {
            assert(s.drop_last()[i] == s[i]);
        }
        lemma_with_key_none(s.drop_last(), key, k);
        assert(key(s[s.len() - 1]) != k);
    }
    assert(with_key(s, key, k) =~= Seq::<T>::empty());
}

/// An element has its own key.
pub proof fn lemma_with_key_some<T>(s: Seq<T>, key: spec_fn(T) -> int, i: int)
    requires
        0 <= i < s.len(),
    ensures
        with_key(s, key, key(s[i])).len() > 0,
{
    let p = |x: T| key(x) == key(s[i]);
    assert(p(s[i]));
    s.lemma_filter_contains(p, i);
}

/// Sorting a sequence stably has only one outcome.
pub proof fn lemma_stable_sort_unique<T>(s: Seq<T>, t: Seq<T>, key: spec_fn(T) -> int)
    requires
        is_ordered(s, key),
        is_ordered(t, key),
        forall|k: int| #[trigger] with_key(s, key, k) == with_key(t, key, k),
    ensures
        s == t,
    decreases s.len(),
{
    if s.len() == 0 {
        if t.len() > 0 {
            lemma_with_key_some(t, key, 0);
            lemma_with_key_none(s, key, key(t[0]));
            assert(with_key(s, key, key(t[0])) == with_key(t, key, key(t[0])));
        }
        assert(s =~= t);
    } else {
        let a: int = key(s[0]);
        lemma_with_key_some(s, key, 0);
        assert(with_key(s, key, a) == with_key(t, key, a));
        if t.len() == 0 {
            lemma_with_key_none(t, key, a);
        }
        let b: int = key(t[0]);
        lemma_with_key_some(t, key, 0);
        assert(with_key(s, key, b) == with_key(t, key, b));
        if b < a {
            lemma_with_key_none(s, key, b);
        } else if a < b {
            lemma_with_key_none(t, key, a);
        }
        let (s1, t1) = (s.drop_first(), t.drop_first());
        assert(s =~= seq![s[0]] + s1);
        assert(t =~= seq![t[0]] + t1);
        assert forall|k: int| #[trigger] with_key(s1, key, k) == with_key(t1, key, k) by {
            lemma_with_key_add(seq![s[0]], s1, key, k);
            lemma_with_key_add(seq![t[0]], t1, key, k);
            lemma_with_key_one(s[0], key, k);
            lemma_with_key_one(t[0], key, k);
            let (p, q) = (with_key(s1, key, k), with_key(t1, key, k));
            assert(with_key(s, key, k) == with_key(t, key, k));
            if k == a {
                assert((seq![s[0]] + p).drop_first() =~= p);
                assert((seq![t[0]] + q).drop_first() =~= q);
            } else {
                assert(Seq::<T>::empty() + p =~= p);
                assert(Seq::<T>::empty() + q =~= q);
            }
        }
        assert(s[0] == t[0]) by {
            lemma_with_key_add(seq![s[0]], s1, key, a);
            lemma_with_key_add(seq![t[0]], t1, key, a);
            lemma_with_key_one(s[0], key, a);
            lemma_with_key_one(t[0], key, a);
            assert(with_key(s, key, a)[0] == s[0]);
            assert(with_key(t, key, a)[0] == t[0]);
        }
        lemma_stable_sort_unique(s1, t1, key);
    }
}

/// How often an element occurs shows among the elements with its key.
proof fn lemma_count_with_key<T>(s: Seq<T>, key: spec_fn(T) -> int, x: T)
    ensures
        s.to_multiset().count(x) == with_key(s, key, key(x)).to_multiset().count(x),
    decreases s.len(),
{
    broadcast use vstd::seq_lib::group_to_multiset_ensures;

    reveal(Seq::filter);
    if s.len() > 0 {
        let t: Seq<T> = s.drop_last();
        lemma_count_with_key(t, key, x);
        assert(s =~= t.push(s.last()));
        assert(with_key(s, key, key(x)) == if key(s.last()) == key(x) {
            with_key(t, key, key(x)).push(s.last())
        } else {
            with_key(t, key, key(x))
        });
    } else {
        assert(with_key(s, key, key(x)) =~= s);
    }
}

/// Sorting neither adds nor drops anything.
pub proof fn lemma_stable_sort_permutes<T>(input: Seq<T>, output: Seq<T>, key: spec_fn(T) -> int)
    requires
        is_stable_sort(input, output, key),
    ensures
        output.to_multiset() == input.to_multiset(),
        output.len() == input.len(),
{
    broadcast use vstd::seq_lib::group_to_multiset_ensures;

    assert forall|x: T|
        #![auto]
        output.to_multiset().count(x) == input.to_multiset().count(x) by {
        lemma_count_with_key(input, key, x);
        lemma_count_with_key(output, key, x);
        assert(with_key(output, key, key(x)) == with_key(input, key, key(x)));
    }
    assert(output.to_multiset() =~= input.to_multiset());
    assert(output.to_multiset().len() == output.len());
    assert(input.to_multiset().len() == input.len());
}

/// The elements with one key are those that any condition for the key picks.
proof fn lemma_with_key_picks<T>(
    s: Seq<T>,
    key: spec_fn(T) -> int,
    k: int,
    has_key: spec_fn(T) -> bool,
)
    requires
        forall|x: T| #[trigger] has_key(x) <==> key(x) == k,
    ensures
        with_key(s, key, k) == s.filter(has_key),
    decreases s.len(),
{
    reveal(Seq::filter);
    if s.len() > 0 {
        lemma_with_key_picks(s.drop_last(), key, k, has_key);
        assert(has_key(s.last()) <==> key(s.last()) == k);
    }
    assert(with_key(s, key, k) =~= s.filter(has_key));
}

/// What is sorted stably is in ascending order, and the elements with any one key are
/// those that were there, in the order that they stood in.
pub proof fn lemma_stable_sort_keeps_ties<T>(
    input: Seq<T>,
    output: Seq<T>,
    key: spec_fn(T) -> int,
    k: int,
    has_key: spec_fn(T) -> bool,
)
    requires
        is_stable_sort(input, output, key),
        forall|x: T| #[trigger] has_key(x) <==> key(x) == k,
    ensures
        forall|i: int, j: int|
            0 <= i < j < output.len() ==> key(#[trigger] output[i]) <= key(#[trigger] output[j]),
        output.filter(has_key) == input.filter(has_key),
{
    lemma_with_key_picks(input, key, k, has_key);
    lemma_with_key_picks(output, key, k, has_key);
    assert(with_key(output, key, k) == with_key(input, key, k));
}

/// Of two elements with equal keys, the one that stood first comes first: with equal
/// keys throughout, nothing moves.
pub proof fn lemma_ties_stay<T>(input: Seq<T>, output: Seq<T>, key: spec_fn(T) -> int, k: int)
    requires
        is_stable_sort(input, output, key),
        forall|i: int| 0 <= i < input.len() ==> key(#[trigger] input[i]) == k,
    ensures
        output == input,
{
    assert(is_ordered(input, key));
    assert forall|l: int| #[trigger] with_key(output, key, l) == with_key(input, key, l) by {}
    lemma_stable_sort_unique(output, input, key);
}

} // verus!
