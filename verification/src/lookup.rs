use vstd::prelude::*;

verus! {

/// The position of the first element of `s` that is at least `k`, or
/// `s.len()` when every element is below `k`.  On a strictly ascending
/// sequence this is the number of elements below `k`, hence the position
/// where `k` is stored or would be inserted.
pub open spec fn lookup_pos(s: Seq<i32>, k: i32) -> int
    decreases s.len(),
{
    if s.len() == 0 {
        0
    } else if k <= s[0] {
        0
    } else {
        1 + lookup_pos(s.drop_first(), k)
    }
}

/// `k` itself stands at its lookup position.
pub open spec fn found_at(s: Seq<i32>, k: i32) -> bool {
    lookup_pos(s, k) < s.len() && s[lookup_pos(s, k)] == k
}

/// What the lookup position means element by element.
pub proof fn lemma_lookup_pos_props(s: Seq<i32>, k: i32)
    ensures
        0 <= lookup_pos(s, k) <= s.len(),
        forall|j: int| 0 <= j < lookup_pos(s, k) ==> s[j] < k,
        lookup_pos(s, k) < s.len() ==> k <= s[lookup_pos(s, k)],
    decreases s.len(),
{
    if s.len() > 0 && !(k <= s[0]) {
        lemma_lookup_pos_props(s.drop_first(), k);
        assert forall|j: int| 0 <= j < lookup_pos(s, k) implies s[j] < k by {
            if j > 0 {
                assert(s.drop_first()[j - 1] < k);
            }
        }
    }
}

/// On a strictly ascending sequence, `k` occurs nowhere when it does not
/// stand at its lookup position.
pub proof fn lemma_lookup_not_found(s: Seq<i32>, k: i32)
    requires
        crate::node::sorted_strict(s),
        !found_at(s, k),
    ensures
        !s.contains(k),
{
    lemma_lookup_pos_props(s, k);
    if s.contains(k) {
        let j = choose|j: int| 0 <= j < s.len() && s[j] == k;
        let p = lookup_pos(s, k);
        if j < p {
            assert(s[j] < k);
        } else if j > p {
            assert(s[p] < s[j]);
        }
    }
}

/// An ordered scan of `keys`: `Ok(i)` when `key` stands at position `i`,
/// otherwise `Err` of the position where `key` would be inserted.  The scan
/// stops at the first element that is not below `key`, so it needs no order
/// to be meaningful.
pub fn binary_lookup(keys: &Vec<i32>, key: i32) -> (r: Result<usize, usize>)
    ensures
        match r {
            Ok(i) => i == lookup_pos(keys@, key) && i < keys@.len() && keys@[i as int] == key,
            Err(i) => i == lookup_pos(keys@, key) && (i == keys@.len() || keys@[i as int] != key),
        },
{
    proof {
        lemma_lookup_pos_props(keys@, key);
    }
    let n = keys.len();
    let mut i: usize = 0;
    while i < n
        invariant
            0 <= i <= n,
            n == keys@.len(),
            forall|j: int| 0 <= j < i ==> keys@[j] < key,
            lookup_pos(keys@, key) >= i,
        decreases n - i,
    {
        let elem = keys[i];
        if key == elem {
            proof {
                lemma_lookup_pos_in_range(keys@, key, i as int);
            }
            return Ok(i);
        }
        if key < elem {
            proof {
                lemma_lookup_pos_in_range(keys@, key, i as int);
            }
            return Err(i);
        }
        proof {
            lemma_lookup_pos_beyond(keys@, key, i as int);
        }
        i += 1;
    }
    Err(i)
}

/// When everything before `i` is below `k` and `s[i]` is not, the lookup
/// position is exactly `i`.
pub(crate) proof fn lemma_lookup_pos_in_range(s: Seq<i32>, k: i32, i: int)
    requires
        0 <= i < s.len(),
        forall|j: int| 0 <= j < i ==> s[j] < k,
        k <= s[i],
    ensures
        lookup_pos(s, k) == i,
{
    lemma_lookup_pos_props(s, k);
    let p = lookup_pos(s, k);
    if p < i {
        assert(s[p] < k);
    }
}

/// When everything up to and including `i` is below `k`, the lookup
/// position lies beyond `i`.
proof fn lemma_lookup_pos_beyond(s: Seq<i32>, k: i32, i: int)
    requires
        0 <= i < s.len(),
        forall|j: int| 0 <= j <= i ==> s[j] < k,
    ensures
        lookup_pos(s, k) > i,
{
    lemma_lookup_pos_props(s, k);
    let p = lookup_pos(s, k);
    if p <= i {
        assert(s[p] < k);
    }
}

} // verus!
