use vstd::prelude::*;

verus! {

/// Index of the smallest present key among the first `n`; on equal keys the
/// lowest index wins. `None` when no key among them is present.
pub open spec fn first_min(keys: Seq<Option<int>>, n: int) -> Option<int>
    decreases n,
{
    if n <= 0 {
        None
    } else {
        let prev = first_min(keys, n - 1);
        match keys[n - 1] {
            None => prev,
            Some(v) => match prev {
                None => Some(n - 1),
                Some(k) => if v < keys[k].unwrap() {
                    Some(n - 1)
                } else {
                    Some(k)
                },
            },
        }
    }
}

/// `k` holds a present key that is strictly smaller than every present key
/// before it and no larger than every present key after it, among the first `n`.
pub open spec fn is_first_min(keys: Seq<Option<int>>, n: int, k: int) -> bool {
    &&& 0 <= k < n
    &&& keys[k] is Some
    &&& forall|j: int|
        0 <= j < k && #[trigger] keys[j] is Some ==> keys[j].unwrap() > keys[k].unwrap()
    &&& forall|j: int|
        k < j < n && #[trigger] keys[j] is Some ==> keys[j].unwrap() >= keys[k].unwrap()
}

/// What `first_min` returns: `None` exactly when no key is present, and
/// otherwise an index with the property above.
pub proof fn lemma_first_min(keys: Seq<Option<int>>, n: int)
    requires
        0 <= n <= keys.len(),
    ensures
        first_min(keys, n) is None <==> (forall|j: int| 0 <= j < n ==> #[trigger] keys[j] is None),
        first_min(keys, n) matches Some(k) ==> is_first_min(keys, n, k),
    decreases n,
{
    if n > 0 {
        lemma_first_min(keys, n - 1);
        if first_min(keys, n - 1) is None {
            assert(forall|j: int| 0 <= j < n - 1 ==> #[trigger] keys[j] is None);
        }
    }
}

/// The property pins the index down: at most one index has it.
pub proof fn lemma_first_min_unique(keys: Seq<Option<int>>, n: int, a: int, b: int)
    requires
        is_first_min(keys, n, a),
        is_first_min(keys, n, b),
    ensures
        a == b,
{
    if a < b {
        assert(keys[a] is Some);
    } else if b < a {
        assert(keys[b] is Some);
    }
}

/// `first_min` picks exactly the index with the property.
pub proof fn lemma_first_min_iff(keys: Seq<Option<int>>, n: int, k: int)
    requires
        0 <= n <= keys.len(),
    ensures
        is_first_min(keys, n, k) <==> first_min(keys, n) == Some(k),
{
    lemma_first_min(keys, n);
    if is_first_min(keys, n, k) {
        assert(keys[k] is Some);
        let m = first_min(keys, n).unwrap();
        lemma_first_min_unique(keys, n, k, m);
    }
}

} // verus!
