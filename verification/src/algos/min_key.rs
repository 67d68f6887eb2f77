use vstd::prelude::*;

verus! {

/// `i` is the first position holding the smallest key.
pub open spec fn is_first_min(keys: Seq<u32>, i: int) -> bool {
    &&& 0 <= i < keys.len()
    &&& forall|j: int| 0 <= j < keys.len() ==> keys[i] <= #[trigger] keys[j]
    &&& forall|j: int| 0 <= j < i ==> keys[i] < #[trigger] keys[j]
}

/// The first position holding the smallest key; `None` for no keys.
pub open spec fn first_min(keys: Seq<u32>) -> Option<int> {
    if keys.len() == 0 {
        None
    } else {
        Some(choose|i: int| is_first_min(keys, i))
    }
}

/// Only one position is the first to hold the smallest key.
pub proof fn lemma_first_min_unique(keys: Seq<u32>, i: int, j: int)
    requires
        is_first_min(keys, i),
        is_first_min(keys, j),
    ensures
        i == j,
{
    if i < j {
        assert(keys[j] < keys[i]);
    } else if j < i {
        assert(keys[i] < keys[j]);
    }
}

/// Some keys have a first smallest one, and `first_min` names it.
pub proof fn lemma_first_min_exists(keys: Seq<u32>)
    requires
        keys.len() > 0,
    ensures
        exists|i: int| is_first_min(keys, i),
        first_min(keys) matches Some(i) && is_first_min(keys, i),
    decreases keys.len(),
{
    if keys.len() == 1 {
        assert(is_first_min(keys, 0));
    } else {
        let init = keys.drop_last();
        lemma_first_min_exists(init);
        let i0 = choose|i: int| is_first_min(init, i);
        let last = keys.len() - 1;
        if keys[last] < keys[i0] {
            assert forall|j: int| 0 <= j < keys.len() implies keys[last] <= #[trigger] keys[j] by {
                if j < last {
                    assert(init[j] == keys[j]);
                }
            }
            assert forall|j: int| 0 <= j < last implies keys[last] < #[trigger] keys[j] by {
                assert(init[j] == keys[j]);
            }
            assert(is_first_min(keys, last));
        } else {
            assert forall|j: int| 0 <= j < keys.len() implies keys[i0] <= #[trigger] keys[j] by {
                if j < last {
                    assert(init[j] == keys[j]);
                }
            }
            assert forall|j: int| 0 <= j < i0 implies keys[i0] < #[trigger] keys[j] by {
                assert(init[j] == keys[j]);
                assert(init[i0] == keys[i0]);
            }
            assert(is_first_min(keys, i0));
        }
    }
}

/// Position of the first smallest key; `None` for no keys.
pub fn index_of_first_min(keys: &Vec<u32>) -> (r: Option<usize>)
    ensures
        keys@.len() == 0 <==> r is None,
        r matches Some(i) ==> is_first_min(keys@, i as int),
        r matches Some(i) ==> first_min(keys@) == Some(i as int),
        r is None ==> first_min(keys@) is None,
{
    if keys.len() == 0 {
        return None;
    }
    let mut best: usize = 0;
    let mut i: usize = 1;
    while i < keys.len()
        invariant
            1 <= i <= keys@.len(),
            best < i,
            forall|j: int| 0 <= j < i ==> keys@[best as int] <= #[trigger] keys@[j],
            forall|j: int| 0 <= j < best ==> keys@[best as int] < #[trigger] keys@[j],
        decreases keys@.len() - i,
    {
        if keys[i] < keys[best] {
            best = i;
        }
        i = i + 1;
    }
    proof {
        let c = choose|c: int| is_first_min(keys@, c);
        assert(is_first_min(keys@, best as int));
        lemma_first_min_unique(keys@, c, best as int);
    }
    Some(best)
}

} // verus!
