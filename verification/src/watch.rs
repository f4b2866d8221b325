//! The diff behind polling watches: which devices appeared and which
//! vanished between two consecutive discovery passes.

use vstd::prelude::*;
use crate::types::DeviceMatch;

verus! {

/// Whether some match in `ms` has address `a`.
pub open spec fn has_address(ms: Seq<DeviceMatch>, a: Seq<char>) -> bool {
    exists|i: int| 0 <= i < ms.len() && (#[trigger] ms[i]).address@ == a
}

/// The set of addresses in `ms`.
pub open spec fn addresses(ms: Seq<DeviceMatch>) -> Set<Seq<char>> {
    Set::new(|a: Seq<char>| has_address(ms, a))
}

/// The matches of `ms` whose address does not occur in `other`, in order.
pub open spec fn missing_from(ms: Seq<DeviceMatch>, other: Seq<DeviceMatch>) -> Seq<DeviceMatch> {
    ms.filter(|m: DeviceMatch| !has_address(other, m.address@))
}

/// The matches a list of references points at.
pub open spec fn derefs(v: Seq<&DeviceMatch>) -> Seq<DeviceMatch> {
    v.map_values(|m: &DeviceMatch| *m)
}

/// Whether some match in `ms` has the address `a`.
fn contains_address(ms: &[DeviceMatch], a: &String) -> (r: bool)
    ensures
        r == has_address(ms@, a@),
{
    let mut i: usize = 0;
    while i < ms.len()
        invariant
            i <= ms@.len(),
            forall|j: int| 0 <= j < i ==> (#[trigger] ms@[j]).address@ != a@,
        decreases ms@.len() - i,
    {
        if ms[i].address == *a {
            return true;
        }
        i = i + 1;
    }
    false
}

/// The matches of `ms` whose address does not occur in `other`.
fn not_in<'a>(ms: &'a [DeviceMatch], other: &'a [DeviceMatch]) -> (r: Vec<&'a DeviceMatch>)
    ensures
        derefs(r@) == missing_from(ms@, other@),
{
    let ghost pred = |m: DeviceMatch| !has_address(other@, m.address@);
    let mut out: Vec<&'a DeviceMatch> = Vec::new();
    let mut i: usize = 0;
    while i < ms.len()
        invariant
            i <= ms@.len(),
            pred == (|m: DeviceMatch| !has_address(other@, m.address@)),
            derefs(out@) == ms@.take(i as int).filter(pred),
        decreases ms@.len() - i,
    {
        let keep = !contains_address(other, &ms[i].address);
        let ghost before = out@;
        if keep {
            out.push(&ms[i]);
            assert(derefs(out@) =~= derefs(before).push(ms@[i as int]));
        }
        proof {
            let t = ms@.take(i + 1);
            assert(t.drop_last() =~= ms@.take(i as int));
            assert(t.last() == ms@[i as int]);
            reveal(Seq::filter);
        }
        i = i + 1;
    }
    assert(ms@.take(ms@.len() as int) =~= ms@);
    out
}

/// Compute which devices were added or removed between two consecutive
/// polls: `(added, removed)`, each in the order of its own slice. Devices
/// are compared by address only — response bytes can vary across polls.
pub fn compute_diff<'a>(prev: &'a [DeviceMatch], current: &'a [DeviceMatch]) -> (r: (
    Vec<&'a DeviceMatch>,
    Vec<&'a DeviceMatch>,
))
    ensures
        derefs(r.0@) == missing_from(current@, prev@),
        derefs(r.1@) == missing_from(prev@, current@),
{
    let added = not_in(current, prev);
    let removed = not_in(prev, current);
    (added, removed)
}

proof fn lemma_missing_from_members(ms: Seq<DeviceMatch>, other: Seq<DeviceMatch>)
    ensures
        forall|i: int|
            0 <= i < missing_from(ms, other).len() ==> !has_address(
                other,
                #[trigger] missing_from(ms, other)[i].address@,
            ) && ms.contains(missing_from(ms, other)[i]),
        forall|i: int|
            0 <= i < ms.len() && !has_address(other, ms[i].address@) ==> #[trigger] missing_from(
                ms,
                other,
            ).contains(ms[i]),
{
    let pred = |m: DeviceMatch| !has_address(other, m.address@);
    broadcast use vstd::seq_lib::group_filter_ensures;

    assert forall|i: int| 0 <= i < missing_from(ms, other).len() implies !has_address(
        other,
        #[trigger] missing_from(ms, other)[i].address@,
    ) && ms.contains(missing_from(ms, other)[i]) by {
        let x = missing_from(ms, other)[i];
        assert(ms.filter(pred).contains(x));
        ms.lemma_filter_contains_rev(pred, x);
    }
}

/// A poll that sees the same addresses as the one before reports nothing:
/// no device is added and none removed.
pub proof fn lemma_diff_quiet_when_unchanged(prev: Seq<DeviceMatch>, current: Seq<DeviceMatch>)
    requires
        addresses(prev) == addresses(current),
    ensures
        missing_from(current, prev).len() == 0,
        missing_from(prev, current).len() == 0,
{
    lemma_missing_from_members(current, prev);
    lemma_missing_from_members(prev, current);
    if missing_from(current, prev).len() > 0 {
        let m = missing_from(current, prev)[0];
        let j = choose|j: int| 0 <= j < current.len() && current[j] == m;
        assert(has_address(current, m.address@));
        assert(addresses(current).contains(m.address@));
        assert(addresses(prev).contains(m.address@));
    }
    if missing_from(prev, current).len() > 0 {
        let m = missing_from(prev, current)[0];
        let j = choose|j: int| 0 <= j < prev.len() && prev[j] == m;
        assert(has_address(prev, m.address@));
        assert(addresses(prev).contains(m.address@));
        assert(addresses(current).contains(m.address@));
    }
}

/// Applying a diff to the previous address set gives the current one:
/// drop the removed addresses, add the added ones.
pub proof fn lemma_diff_reconstructs_current(prev: Seq<DeviceMatch>, current: Seq<DeviceMatch>)
    ensures
        addresses(current) == addresses(prev).difference(addresses(missing_from(prev, current))).union(
            addresses(missing_from(current, prev)),
        ),
{
    lemma_missing_from_members(current, prev);
    lemma_missing_from_members(prev, current);
    let added = missing_from(current, prev);
    let removed = missing_from(prev, current);
    let rhs = addresses(prev).difference(addresses(removed)).union(addresses(added));
    assert forall|a: Seq<char>| addresses(current).contains(a) <==> rhs.contains(a) by {
        if addresses(current).contains(a) {
            let i = choose|i: int| 0 <= i < current.len() && (#[trigger] current[i]).address@ == a;
            if has_address(prev, a) {
                assert(addresses(prev).contains(a));
                if addresses(removed).contains(a) {
                    let k = choose|k: int| 0 <= k < removed.len() && (#[trigger] removed[k]).address@ == a;
                    assert(!has_address(current, removed[k].address@));
                }
            } else {
                assert(added.contains(current[i]));
                let k = choose|k: int| 0 <= k < added.len() && added[k] == current[i];
                assert(has_address(added, a));
            }
        }
        if rhs.contains(a) {
            if addresses(added).contains(a) {
                let k = choose|k: int| 0 <= k < added.len() && (#[trigger] added[k]).address@ == a;
                let x = added[k];
                assert(current.contains(x));
                let j = choose|j: int| 0 <= j < current.len() && current[j] == x;
                assert(has_address(current, a));
            } else {
                let i = choose|i: int| 0 <= i < prev.len() && (#[trigger] prev[i]).address@ == a;
                if !has_address(current, a) {
                    assert(removed.contains(prev[i]));
                    let k = choose|k: int| 0 <= k < removed.len() && removed[k] == prev[i];
                    assert(has_address(removed, a));
                }
            }
        }
    }
    assert(addresses(current) =~= rhs);
}

} // verus!
