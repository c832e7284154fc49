//! Small helpers on identifier vectors: linear search, and the effect of
//! removing one position from a duplicate-free sequence.

use vstd::prelude::*;
use vstd::seq_lib::group_seq_properties;

verus! {

broadcast use group_seq_properties;

/// Whether `v` holds `id`.
pub fn holds_id(v: &Vec<u32>, id: u32) -> (b: bool)
    ensures
        b == v@.contains(id),
{
    let n: usize = v.len();
    let mut i: usize = 0;
    while i < n
        invariant
            0 <= i <= n,
            n == v@.len(),
            forall|j: int| 0 <= j < i ==> v@[j] != id,
        decreases n - i,
    {
        if v[i] == id {
            return true;
        }
        i += 1;
    }
    false
}

/// The position of `id` in `v`, if any.
pub fn find_id(v: &Vec<u32>, id: u32) -> (r: Option<usize>)
    ensures
        r is Some ==> (r->0 as int) < v@.len() && v@[r->0 as int] == id,
        r is None ==> !v@.contains(id),
{
    let n: usize = v.len();
    let mut i: usize = 0;
    while i < n
        invariant
            0 <= i <= n,
            n == v@.len(),
            forall|j: int| 0 <= j < i ==> v@[j] != id,
        decreases n - i,
    {
        if v[i] == id {
            return Some(i);
        }
        i += 1;
    }
    None
}

/// Removing position `i` from a duplicate-free sequence removes exactly the
/// element that stood there, keeps every other element, and leaves the
/// sequence duplicate-free.
pub proof fn lemma_remove_unique(s: Seq<u32>, i: int)
    requires
        0 <= i < s.len(),
        s.no_duplicates(),
    ensures
        s.remove(i).no_duplicates(),
        forall|x: u32| s.remove(i).contains(x) <==> (s.contains(x) && x != s[i]),
{
    s.remove_ensures(i);
    assert forall|x: u32| s.remove(i).contains(x) implies (s.contains(x) && x != s[i]) by {
        let j = choose|j: int| 0 <= j < s.remove(i).len() && s.remove(i)[j] == x;
        if j < i {
            assert(s[j] == x);
        } else {
            assert(s[j + 1] == x);
        }
    }
    assert forall|x: u32| (s.contains(x) && x != s[i]) implies s.remove(i).contains(x) by {
        let j = choose|j: int| 0 <= j < s.len() && s[j] == x;
        if j < i {
            assert(s.remove(i)[j] == x);
        } else {
            assert(s.remove(i)[j - 1] == x);
        }
    }
}

} // verus!
