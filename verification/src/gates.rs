//! Gate connections between systems, as read from the jumps table.

use vstd::prelude::*;
use std::collections::{HashMap, HashSet};

use crate::search::SystemId;

verus! {

broadcast use vstd::std_specs::hash::group_hash_axioms;

/// A jump row joins two systems that both exist.
pub open spec fn valid_jump(systems: Set<SystemId>, j: (SystemId, SystemId)) -> bool {
    systems.contains(j.0) && systems.contains(j.1)
}

/// Among the first `n` jump rows, a valid one joins `a` and `b` (in either
/// direction).
pub open spec fn linked(systems: Set<SystemId>, jumps: Seq<(SystemId, SystemId)>, n: int, a: SystemId, b: SystemId) -> bool {
    exists|i: int|
        0 <= i < n && valid_jump(systems, #[trigger] jumps[i]) && ((jumps[i].0 == a && jumps[i].1 == b) || (
        jumps[i].1 == a && jumps[i].0 == b))
}

/// Among the first `n` jump rows, a valid one has `a` as an end.
pub open spec fn has_gate(systems: Set<SystemId>, jumps: Seq<(SystemId, SystemId)>, n: int, a: SystemId) -> bool {
    exists|i: int| 0 <= i < n && valid_jump(systems, #[trigger] jumps[i]) && (jumps[i].0 == a || jumps[i].1 == a)
}

/// Number of the first `n` jump rows that name a system that does not exist.
pub open spec fn skipped_jumps(systems: Set<SystemId>, jumps: Seq<(SystemId, SystemId)>, n: int) -> nat
    decreases n,
{
    if n <= 0 {
        0
    } else {
        skipped_jumps(systems, jumps, n - 1) + if valid_jump(systems, jumps[n - 1]) {
            0nat
        } else {
            1nat
        }
    }
}

/// Values in strictly increasing order.
pub open spec fn strictly_sorted(s: Seq<SystemId>) -> bool {
    forall|a: int, b: int| 0 <= a < b < s.len() ==> s[a] < s[b]
}

/// The neighbour lists of the first `n` jump rows: a list for exactly the
/// systems with a gate, each holding its neighbours in increasing order.
pub open spec fn adjacency_upto(
    systems: Set<SystemId>,
    jumps: Seq<(SystemId, SystemId)>,
    n: int,
    m: Map<SystemId, Vec<SystemId>>,
) -> bool {
    &&& forall|a: SystemId| #[trigger] m.contains_key(a) <==> has_gate(systems, jumps, n, a)
    &&& forall|a: SystemId| #[trigger] m.contains_key(a) ==> strictly_sorted(m[a]@)
    &&& forall|a: SystemId, b: SystemId|
        #![trigger m[a]@.contains(b)]
        #![trigger linked(systems, jumps, n, a, b)]
        m.contains_key(a) ==> (m[a]@.contains(b) <==> linked(systems, jumps, n, a, b))
}

/// Insert `x` into a strictly increasing list unless it is already there.
fn insert_sorted(v: &mut Vec<SystemId>, x: SystemId)
    requires
        strictly_sorted(old(v)@),
    ensures
        strictly_sorted(final(v)@),
        forall|y: SystemId| final(v)@.contains(y) <==> (old(v)@.contains(y) || y == x),
{
    let mut i: usize = 0;
    while i < v.len()
        invariant
            i <= v@.len(),
            v@ == old(v)@,
            strictly_sorted(v@),
            forall|k: int| 0 <= k < i ==> v@[k] < x,
        ensures
            i <= v@.len(),
            v@ == old(v)@,
            forall|k: int| 0 <= k < i ==> v@[k] < x,
            i == v@.len() || v@[i as int] > x,
        decreases v@.len() - i,
    {
        if v[i] == x {
            return;
        }
        if v[i] > x {
            break;
        }
        i = i + 1;
    }
    let ghost before = v@;
    proof {
        assert(before == old(v)@);
    }
    v.insert(i, x);
    proof {
        assert forall|a: int, b: int| 0 <= a < b < v@.len() implies v@[a] < v@[b] by {
            if b < i {
                assert(v@[a] == before[a] && v@[b] == before[b]);
            } else if b == i {
                assert(v@[a] == before[a]);
            } else if a < i {
                assert(v@[b] == before[b - 1]);
                assert(before[i as int] > x || i == before.len());
                if i < before.len() {
                    assert(before[i as int] <= before[b - 1] || b - 1 == i);
                }
            } else if a == i {
                assert(v@[b] == before[b - 1]);
                assert(before[i as int] > x);
            } else {
                assert(v@[a] == before[a - 1] && v@[b] == before[b - 1]);
            }
        }
        assert forall|y: SystemId| #[trigger] v@.contains(y) <==> (before.contains(y) || y == x) by {
            if v@.contains(y) {
                let k = choose|k: int| 0 <= k < v@.len() && v@[k] == y;
                if k < i {
                    assert(before[k] == y);
                } else if k > i {
                    assert(before[k - 1] == y);
                }
            }
            if before.contains(y) {
                let k = choose|k: int| 0 <= k < before.len() && before[k] == y;
                if k < i {
                    assert(v@[k] == y);
                } else {
                    assert(v@[k + 1] == y);
                }
            }
            if y == x {
                assert(v@[i as int] == x);
            }
        }
    }
}

/// Add `b` to the neighbours of `a`.
fn add_neighbour(m: &mut HashMap<SystemId, Vec<SystemId>>, a: SystemId, b: SystemId)
    requires
        forall|k: SystemId| #[trigger] old(m)@.contains_key(k) ==> strictly_sorted(old(m)@[k]@),
    ensures
        final(m)@.dom() == old(m)@.dom().insert(a),
        forall|k: SystemId| #[trigger] final(m)@.contains_key(k) ==> strictly_sorted(final(m)@[k]@),
        forall|k: SystemId| k != a && #[trigger] old(m)@.contains_key(k) ==> final(m)@[k] == old(m)@[k],
        forall|y: SystemId| #[trigger] final(m)@[a]@.contains(y) <==> ((old(m)@.contains_key(a) && old(m)@[a]@.contains(y)) || y == b),
{
    let mut list = match m.remove(&a) {
        Some(l) => l,
        None => Vec::new(),
    };
    insert_sorted(&mut list, b);
    m.insert(a, list);
}

/// Neighbour lists built from the jumps table.
///
/// Each row joins its two systems in both directions; a row naming a system
/// that does not exist is skipped. The result holds a list for exactly the
/// systems with a gate, with its neighbours in increasing order and without
/// repeats, and the number of rows skipped.
pub fn build_adjacency(systems: &HashSet<SystemId>, jumps: &Vec<(SystemId, SystemId)>) -> (r: (
    HashMap<SystemId, Vec<SystemId>>,
    usize,
))
    ensures
        adjacency_upto(systems@, jumps@, jumps@.len() as int, r.0@),
        r.1 == skipped_jumps(systems@, jumps@, jumps@.len() as int),
{
    let mut m: HashMap<SystemId, Vec<SystemId>> = HashMap::new();
    let mut skipped: usize = 0;
    let mut i: usize = 0;
    while i < jumps.len()
        invariant
            i <= jumps@.len(),
            adjacency_upto(systems@, jumps@, i as int, m@),
            skipped == skipped_jumps(systems@, jumps@, i as int),
            skipped <= i,
        decreases jumps@.len() - i,
    {
        let (from, to) = jumps[i];
        let ghost before = m@;
        let ghost n = i as int;
        if systems.contains(&from) && systems.contains(&to) {
            add_neighbour(&mut m, from, to);
            let ghost mid = m@;
            add_neighbour(&mut m, to, from);
            proof {
                assert(valid_jump(systems@, jumps@[n]));
                assert forall|a: SystemId| #[trigger] m@.contains_key(a) <==> has_gate(systems@, jumps@, n + 1, a) by {
                    if has_gate(systems@, jumps@, n + 1, a) {
                        let k = choose|k: int|
                            0 <= k < n + 1 && valid_jump(systems@, #[trigger] jumps@[k]) && (jumps@[k].0 == a || jumps@[k].1 == a);
                        if k < n {
                            assert(has_gate(systems@, jumps@, n, a));
                        }
                    }
                    if m@.contains_key(a) && a != from && a != to {
                        assert(before.contains_key(a));
                        let k = choose|k: int|
                            0 <= k < n && valid_jump(systems@, #[trigger] jumps@[k]) && (jumps@[k].0 == a || jumps@[k].1 == a);
                        assert(0 <= k < n + 1);
                    }
                    if a == from || a == to {
                        assert(0 <= n < n + 1 && valid_jump(systems@, jumps@[n]));
                    }
                }
                assert forall|a: SystemId, b: SystemId|
                    #![trigger m@[a]@.contains(b)]
                    #![trigger linked(systems@, jumps@, n + 1, a, b)]
                    m@.contains_key(a) implies (m@[a]@.contains(b) <==> linked(systems@, jumps@, n + 1, a, b)) by {
                    let old_has = before.contains_key(a) && before[a]@.contains(b);
                    assert(old_has <==> linked(systems@, jumps@, n, a, b)) by {
                        if linked(systems@, jumps@, n, a, b) {
                            let k = choose|k: int|
                                0 <= k < n && valid_jump(systems@, #[trigger] jumps@[k]) && ((jumps@[k].0 == a
                                    && jumps@[k].1 == b) || (jumps@[k].1 == a && jumps@[k].0 == b));
                            assert(has_gate(systems@, jumps@, n, a));
                        }
                    }
                    let new_link = (from == a && to == b) || (to == a && from == b);
                    if linked(systems@, jumps@, n + 1, a, b) && !new_link {
                        let k = choose|k: int|
                            0 <= k < n + 1 && valid_jump(systems@, #[trigger] jumps@[k]) && ((jumps@[k].0 == a
                                && jumps@[k].1 == b) || (jumps@[k].1 == a && jumps@[k].0 == b));
                        assert(k < n);
                        assert(linked(systems@, jumps@, n, a, b));
                    }
                    if new_link {
                        assert(0 <= n < n + 1 && valid_jump(systems@, jumps@[n]));
                        assert(linked(systems@, jumps@, n + 1, a, b));
                    }
                    if linked(systems@, jumps@, n, a, b) {
                        let k = choose|k: int|
                            0 <= k < n && valid_jump(systems@, #[trigger] jumps@[k]) && ((jumps@[k].0 == a
                                && jumps@[k].1 == b) || (jumps@[k].1 == a && jumps@[k].0 == b));
                        assert(0 <= k < n + 1);
                    }
                    if a == to {
                        assert(m@[a]@.contains(b) <==> ((mid.contains_key(a) && mid[a]@.contains(b)) || b == from));
                        if a != from {
                            assert(mid.contains_key(a) <==> before.contains_key(a));
                            if before.contains_key(a) {
                                assert(mid[a] == before[a]);
                            }
                        }
                    } else if a == from {
                        assert(m@[a] == mid[a]);
                    } else {
                        assert(m@[a] == mid[a]);
                        assert(mid[a] == before[a]);
                    }
                }
            }
        } else {
            proof {
                assert(!valid_jump(systems@, jumps@[n]));
                assert forall|a: SystemId| has_gate(systems@, jumps@, n + 1, a) implies has_gate(systems@, jumps@, n, a) by {
                    let k = choose|k: int|
                        0 <= k < n + 1 && valid_jump(systems@, #[trigger] jumps@[k]) && (jumps@[k].0 == a || jumps@[k].1 == a);
                    assert(k < n);
                }
                assert forall|a: SystemId| has_gate(systems@, jumps@, n, a) implies has_gate(systems@, jumps@, n + 1, a) by {
                    let k = choose|k: int|
                        0 <= k < n && valid_jump(systems@, #[trigger] jumps@[k]) && (jumps@[k].0 == a || jumps@[k].1 == a);
                    assert(0 <= k < n + 1);
                }
                assert forall|a: SystemId, b: SystemId| linked(systems@, jumps@, n + 1, a, b) <==> linked(systems@, jumps@, n, a, b) by {
                    if linked(systems@, jumps@, n + 1, a, b) {
                        let k = choose|k: int|
                            0 <= k < n + 1 && valid_jump(systems@, #[trigger] jumps@[k]) && ((jumps@[k].0 == a
                                && jumps@[k].1 == b) || (jumps@[k].1 == a && jumps@[k].0 == b));
                        assert(k < n);
                    }
                    if linked(systems@, jumps@, n, a, b) {
                        let k = choose|k: int|
                            0 <= k < n && valid_jump(systems@, #[trigger] jumps@[k]) && ((jumps@[k].0 == a
                                && jumps@[k].1 == b) || (jumps@[k].1 == a && jumps@[k].0 == b));
                        assert(0 <= k < n + 1);
                    }
                }
            }
            skipped = skipped + 1;
        }
        i = i + 1;
    }
    (m, skipped)
}

/// Gates join systems both ways: whenever `b` is among the neighbours of
/// `a`, `a` is among the neighbours of `b`.
pub proof fn lemma_adjacency_symmetric(
    systems: Set<SystemId>,
    jumps: Seq<(SystemId, SystemId)>,
    n: int,
    m: Map<SystemId, Vec<SystemId>>,
    a: SystemId,
    b: SystemId,
)
    requires
        adjacency_upto(systems, jumps, n, m),
        m.contains_key(a),
        m[a]@.contains(b),
    ensures
        m.contains_key(b),
        m[b]@.contains(a),
{
    assert(linked(systems, jumps, n, a, b));
    let k = choose|k: int|
        0 <= k < n && valid_jump(systems, #[trigger] jumps[k]) && ((jumps[k].0 == a && jumps[k].1 == b) || (jumps[k].1
            == a && jumps[k].0 == b));
    assert(has_gate(systems, jumps, n, b));
    assert(linked(systems, jumps, n, b, a));
}

} // verus!
