use std::collections::HashMap;
use std::hash::Hash;

use vstd::prelude::*;
use vstd::std_specs::hash::{obeys_key_model, spec_hash_map_iter, spec_keys_iter};
use vstd::std_specs::iter::IteratorSpec;

verus! {

/// Pairs the items of `a` and `b` position by position, as far as the shorter one goes.
pub fn combine_tuple_lists<T: Clone, U: Clone>(a: Vec<T>, b: Vec<U>) -> (r: Vec<(T, U)>)
    ensures
        r@.len() == if a@.len() < b@.len() {
            a@.len()
        } else {
            b@.len()
        },
        forall|i: int| 0 <= i < r@.len() ==> #[trigger] r@[i] == (a@[i], b@[i]),
{
    let ghost a0 = a@;
    let ghost b0 = b@;
    let mut a = a;
    let mut b = b;
    let n = if a.len() < b.len() {
        a.len()
    } else {
        b.len()
    };
    a.truncate(n);
    b.truncate(n);
    let mut reversed: Vec<(T, U)> = Vec::new();
    while a.len() > 0
        invariant
            a@.len() == b@.len(),
            a@.len() + reversed@.len() == n,
            n <= a0.len(),
            n <= b0.len(),
            a@ == a0.subrange(0, a@.len() as int),
            b@ == b0.subrange(0, b@.len() as int),
            forall|k: int|
                0 <= k < reversed@.len() ==> #[trigger] reversed@[k] == (a0[n - 1 - k], b0[n - 1 - k]),
        decreases a@.len(),
    {
        let x = a.pop().unwrap();
        let y = b.pop().unwrap();
        reversed.push((x, y));
    }
    let mut r: Vec<(T, U)> = Vec::new();
    while reversed.len() > 0
        invariant
            reversed@.len() + r@.len() == n,
            forall|k: int|
                0 <= k < reversed@.len() ==> #[trigger] reversed@[k] == (a0[n - 1 - k], b0[n - 1 - k]),
            forall|k: int| 0 <= k < r@.len() ==> #[trigger] r@[k] == (a0[k], b0[k]),
        decreases reversed@.len(),
    {
        let p = reversed.pop().unwrap();
        r.push(p);
    }
    r
}

/// Splits a list of pairs into the list of first items and the list of second items.
pub fn unzip_tuple_lists<T: Clone, U: Clone>(a: Vec<(T, U)>) -> (r: (Vec<T>, Vec<U>))
    ensures
        r.0@.len() == a@.len(),
        r.1@.len() == a@.len(),
        forall|i: int| 0 <= i < a@.len() ==> #[trigger] r.0@[i] == a@[i].0 && r.1@[i] == a@[i].1,
{
    let ghost a0 = a@;
    let n = a.len();
    let mut a = a;
    let mut firsts_rev: Vec<T> = Vec::new();
    let mut seconds_rev: Vec<U> = Vec::new();
    while a.len() > 0
        invariant
            a@.len() + firsts_rev@.len() == n,
            firsts_rev@.len() == seconds_rev@.len(),
            n == a0.len(),
            a@ == a0.subrange(0, a@.len() as int),
            forall|k: int|
                0 <= k < firsts_rev@.len() ==> #[trigger] firsts_rev@[k] == a0[n - 1 - k].0
                    && seconds_rev@[k] == a0[n - 1 - k].1,
        decreases a@.len(),
    {
        let (x, y) = a.pop().unwrap();
        firsts_rev.push(x);
        seconds_rev.push(y);
    }
    let mut firsts: Vec<T> = Vec::new();
    let mut seconds: Vec<U> = Vec::new();
    while firsts_rev.len() > 0
        invariant
            firsts_rev@.len() + firsts@.len() == n,
            firsts_rev@.len() == seconds_rev@.len(),
            firsts@.len() == seconds@.len(),
            n == a0.len(),
            forall|k: int|
                0 <= k < firsts_rev@.len() ==> #[trigger] firsts_rev@[k] == a0[n - 1 - k].0
                    && seconds_rev@[k] == a0[n - 1 - k].1,
            forall|k: int|
                0 <= k < firsts@.len() ==> #[trigger] firsts@[k] == a0[k].0 && seconds@[k] == a0[k].1,
        decreases firsts_rev@.len(),
    {
        let x = firsts_rev.pop().unwrap();
        let y = seconds_rev.pop().unwrap();
        firsts.push(x);
        seconds.push(y);
    }
    (firsts, seconds)
}

/// Whether some key is present in both maps.
pub fn maps_have_intersection<T: Clone + Eq + Hash, U: Clone>(
    a: &HashMap<T, U>,
    b: &HashMap<T, U>,
) -> (r: bool)
    requires
        obeys_key_model::<T>(),
    ensures
        r == exists|k: T| a@.contains_key(k) && b@.contains_key(k),
{
    broadcast use vstd::std_specs::hash::group_hash_axioms;

    let ghost keys = spec_keys_iter(a).remaining();
    for k in it: a.keys()
        invariant
            obeys_key_model::<T>(),
            it.seq() == keys,
            forall|j: int| 0 <= j < it.index() ==> !b@.contains_key(*#[trigger] it.seq()[j]),
    {
        if b.contains_key(k) {
            proof {
                assert(a@.dom().contains(*k));
            }
            return true;
        }
    }
    assert forall|k: T| a@.contains_key(k) implies !b@.contains_key(k) by {
        assert(keys.unref().to_set().contains(k));
    }
    false
}

/// The list `join_maps_on_shortest` keeps for `k`: the one in `b` when `a` has
/// none or a longer one, else the one in `a`.
pub open spec fn shorter_list<T>(
    a: Map<T, Vec<T>>,
    b: Map<T, Vec<T>>,
    k: T,
) -> Seq<T> {
    if b.contains_key(k) && (!a.contains_key(k) || b[k]@.len() < a[k]@.len()) {
        b[k]@
    } else {
        a[k]@
    }
}

/// `T`'s `clone` hands back a value identical to its input.
pub open spec fn clone_is_identity<T: Clone>() -> bool {
    forall|x: T, y: T| #[trigger] vstd::pervasive::strictly_cloned(x, y) ==> x == y
}

/// Joins two maps from keys to lists: every key of either map, with the shorter of
/// its lists (the one in `a` when both are as long).
pub fn join_maps_on_shortest<T: Clone + Eq + Hash>(
    a: &HashMap<T, Vec<T>>,
    b: &HashMap<T, Vec<T>>,
) -> (r: HashMap<T, Vec<T>>)
    requires
        obeys_key_model::<T>(),
        clone_is_identity::<T>(),
    ensures
        r@.dom() == a@.dom().union(b@.dom()),
        forall|k: T| #[trigger] r@.contains_key(k) ==> r@[k]@ == shorter_list(a@, b@, k),
{
    broadcast use vstd::std_specs::hash::group_hash_axioms;

    let mut new_map: HashMap<T, Vec<T>> = a.clone();
    let ghost pairs = spec_hash_map_iter(b).remaining();
    let ghost mut done: Set<T> = Set::empty();
    proof {
        assert forall|k: T| #[trigger] b@.contains_key(k) implies exists|j: int|
            0 <= j < pairs.len() && *#[trigger] pairs[j].0 == k by {
            assert(pairs.contains((&k, &b@[k])));
            let j = choose|j: int| 0 <= j < pairs.len() && pairs[j] == (&k, &b@[k]);
            assert(*pairs[j].0 == k);
        }
    }
    for (key, vec_b) in it: b.iter()
        invariant
            obeys_key_model::<T>(),
            clone_is_identity::<T>(),
            it.seq() == pairs,
            pairs.len() == b@.dom().len(),
            forall|i: int|
                0 <= i < pairs.len() ==> b@.contains_key(*#[trigger] pairs[i].0) && b@[*pairs[i].0]
                    == *pairs[i].1,
            forall|k: T| #[trigger]
                b@.contains_key(k) ==> done.contains(k) || exists|j: int|
                    it.index() <= j < pairs.len() && *#[trigger] pairs[j].0 == k,
            pairs.no_duplicates(),
            done.subset_of(b@.dom()),
            forall|j: int| 0 <= j < it.index() ==> done.contains(*#[trigger] pairs[j].0),
            forall|j: int| it.index() <= j < pairs.len() ==> !done.contains(*#[trigger] pairs[j].0),
            new_map@.dom() == a@.dom().union(done),
            forall|k: T| #[trigger]
                new_map@.contains_key(k) ==> new_map@[k]@ == (if done.contains(k) {
                    shorter_list(a@, b@, k)
                } else {
                    a@[k]@
                }),
    {
        proof {
            assert(pairs[it.index() as int] == (key, vec_b));
        }
        let take_b = match a.get(key) {
            Some(vec_a) => vec_b.len() < vec_a.len(),
            None => true,
        };
        if take_b {
            let k = T::clone(key);
            let v = vec_b.clone();
            proof {
                assert(vstd::pervasive::strictly_cloned(*key, k));
                assert(k == *key);
                assert(v@ =~= vec_b@);
            }
            new_map.insert(k, v);
        }
        proof {
            done = done.insert(*key);
            assert forall|j: int| it.index() + 1 <= j < pairs.len() implies !done.contains(
                *#[trigger] pairs[j].0,
            ) by {
                if *pairs[j].0 == *key {
                    assert(pairs[j] == pairs[it.index() as int]);
                }
            }
            assert forall|k: T| #[trigger] b@.contains_key(k) implies done.contains(k) || exists|j: int|
                it.index() + 1 <= j < pairs.len() && *#[trigger] pairs[j].0 == k by {
                if !done.contains(k) {
                    let j = choose|j: int| it.index() <= j < pairs.len() && *#[trigger] pairs[j].0 == k;
                    assert(j != it.index());
                }
            }
        }
    }
    proof {
        assert(done =~= b@.dom());
    }
    new_map
}

} // verus!
