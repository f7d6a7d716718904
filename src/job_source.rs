//! The job source: a set of distinct random job keys.
//!
//! Keys are drawn from a pool that holds every value of the range not drawn
//! yet, so each draw yields a new key and the source needs no retry.
use vstd::prelude::*;
use rand::Rng;

verus! {

/// The number of jobs of a run.
pub const JOB_COUNT: usize = 10;

/// The smallest key that the source draws.
pub const KEY_MIN: i32 = 1800;

/// The largest key that the source draws.
pub const KEY_MAX: i32 = 2200;

/// The values of `s` strictly ascend (so none occurs twice).
pub open spec fn strictly_ascending(s: Seq<i32>) -> bool {
    forall|i: int, j: int| 0 <= i < j < s.len() ==> s[i] < s[j]
}

/// Relies on rand's `thread_rng().gen_range(0..bound)`: a value below `bound`,
/// which it documents for every non-empty range.
#[verifier::external_body]
fn random_index(bound: usize) -> (r: usize)
    requires
        0 < bound,
    ensures
        r < bound,
{
    rand::thread_rng().gen_range(0..bound)
}

/// Puts `k` into the ascending vector `v` at its place.
fn insert_ascending(v: &mut Vec<i32>, k: i32)
    requires
        strictly_ascending(old(v)@),
        !old(v)@.contains(k),
    ensures
        strictly_ascending(final(v)@),
        final(v)@.len() == old(v)@.len() + 1,
        forall|x: i32| final(v)@.contains(x) <==> (old(v)@.contains(x) || x == k),
{
    let mut p: usize = 0;
    while p < v.len() && v[p] < k
        invariant
            p <= v@.len(),
            forall|j: int| 0 <= j < p ==> v@[j] < k,
        decreases v@.len() - p,
    {
        p += 1;
    }
    let ghost s0 = v@;
    proof {
        if p < s0.len() {
            assert(s0[p as int] != k);
        }
    }
    v.insert(p, k);
    assert forall|x: i32| v@.contains(x) <==> (s0.contains(x) || x == k) by {
        if s0.contains(x) {
            let j = choose|j: int| 0 <= j < s0.len() && s0[j] == x;
            if j < p {
                assert(v@[j] == x);
            } else {
                assert(v@[j + 1] == x);
            }
        }
        if x == k {
            assert(v@[p as int] == k);
        }
        if v@.contains(x) {
            let j = choose|j: int| 0 <= j < v@.len() && v@[j] == x;
            if j < p {
                assert(s0[j] == x);
            } else if j > p {
                assert(s0[j - 1] == x);
            }
        }
    }
}

/// Draws `count` distinct keys from `lo..=hi`, returned in ascending order.
pub fn generate_keys(count: usize, lo: i32, hi: i32) -> (r: Vec<i32>)
    requires
        lo <= hi,
        count <= hi - lo + 1,
        hi - lo < usize::MAX,
    ensures
        r@.len() == count,
        strictly_ascending(r@),
        forall|i: int| 0 <= i < r@.len() ==> lo <= #[trigger] r@[i] <= hi,
{
    let mut pool: Vec<i32> = Vec::new();
    let mut v: i32 = lo;
    loop
        invariant_except_break
            lo <= v <= hi,
            pool@.len() == v - lo,
        invariant
            lo <= hi,
            forall|j: int| 0 <= j < pool@.len() ==> #[trigger] pool@[j] == lo + j,
        ensures
            pool@.len() == hi - lo + 1,
        decreases hi - v,
    {
        pool.push(v);
        if v == hi {
            break;
        }
        v += 1;
    }
    let mut keys: Vec<i32> = Vec::new();
    while keys.len() < count
        invariant
            keys@.len() <= count,
            count <= hi - lo + 1,
            keys@.len() + pool@.len() == hi - lo + 1,
            strictly_ascending(pool@),
            strictly_ascending(keys@),
            forall|j: int| 0 <= j < pool@.len() ==> lo <= #[trigger] pool@[j] <= hi,
            forall|j: int| 0 <= j < keys@.len() ==> lo <= #[trigger] keys@[j] <= hi,
            forall|x: i32| keys@.contains(x) ==> !pool@.contains(x),
        decreases count - keys@.len(),
    {
        let idx = random_index(pool.len());
        let ghost p0 = pool@;
        let ghost k0 = keys@;
        let k = pool.remove(idx);
        assert(p0.contains(k));
        assert(!pool@.contains(k)) by {
            if pool@.contains(k) {
                let j = choose|j: int| 0 <= j < pool@.len() && pool@[j] == k;
                if j < idx {
                    assert(p0[j] == k && p0[idx as int] == k);
                } else {
                    assert(p0[j + 1] == k && p0[idx as int] == k);
                }
            }
        }
        assert forall|x: i32| pool@.contains(x) implies p0.contains(x) by {
            let j = choose|j: int| 0 <= j < pool@.len() && pool@[j] == x;
            if j < idx {
                assert(p0[j] == x);
            } else {
                assert(p0[j + 1] == x);
            }
        }
        insert_ascending(&mut keys, k);
        assert forall|j: int| 0 <= j < keys@.len() implies lo <= #[trigger] keys@[j] <= hi by {
            assert(keys@.contains(keys@[j]));
        }
    }
    keys
}

/// Ten distinct keys from `KEY_MIN..=KEY_MAX`, in ascending order.
pub fn make_random_nums() -> (r: Vec<i32>)
    ensures
        r@.len() == JOB_COUNT,
        strictly_ascending(r@),
        forall|i: int| 0 <= i < r@.len() ==> KEY_MIN <= #[trigger] r@[i] <= KEY_MAX,
{
    generate_keys(JOB_COUNT, KEY_MIN, KEY_MAX)
}

} // verus!
