//! AppleTalk addresses and the media they live on.

use vstd::prelude::*;

verus! {

/// A node on an AppleTalk internet.
#[derive(Debug, Clone, Copy, PartialEq, Eq, Structural, Hash)]
pub struct AppleTalkAddress {
    pub network_number: u16,
    pub node_number: u8,
}

/// The kind of link that an address was learned or is used on.
#[derive(Debug, Clone, Copy, PartialEq, Eq, Structural, Hash)]
pub enum AddressSource {
    EtherTalkPhase1,
    EtherTalkPhase2,
    LocalTalk,
}

/// Whether `a` is among `list`.
pub fn contains_address(list: &Vec<AppleTalkAddress>, a: AppleTalkAddress) -> (r: bool)
    ensures
        r == list@.contains(a),
{
    let mut i: usize = 0;
    while i < list.len()
        invariant
            i <= list@.len(),
            forall|j: int| 0 <= j < i ==> list@[j] != a,
        decreases list@.len() - i,
    {
        if list[i] == a {
            assert(list@[i as int] == a);
            return true;
        }
        i += 1;
    }
    false
}

/// A sequence with every address left out that occurred before.
pub open spec fn deduped(list: Seq<AppleTalkAddress>) -> Seq<AppleTalkAddress>
    decreases list.len(),
{
    if list.len() == 0 {
        Seq::empty()
    } else {
        push_new(deduped(list.drop_last()), list.last())
    }
}

/// `list` with `a` at its end, unless it is there already.
pub open spec fn push_new(list: Seq<AppleTalkAddress>, a: AppleTalkAddress) -> Seq<AppleTalkAddress> {
    if list.contains(a) {
        list
    } else {
        list.push(a)
    }
}

/// Leaving out repeated addresses keeps the set of addresses, and no address
/// occurs twice in what is left.
pub proof fn law_deduped(list: Seq<AppleTalkAddress>)
    ensures
        deduped(list).no_duplicates(),
        forall|a: AppleTalkAddress| #[trigger] deduped(list).contains(a) <==> list.contains(a),
    decreases list.len(),
{
    if list.len() > 0 {
        let init = list.drop_last();
        law_deduped(init);
        assert forall|a: AppleTalkAddress| #[trigger] deduped(list).contains(a) <==> list.contains(a) by {
            let d = deduped(init);
            if list.contains(a) {
                let i = choose|i: int| 0 <= i < list.len() && list[i] == a;
                if i < list.len() - 1 {
                    assert(init[i] == a);
                    assert(d.contains(a));
                    let j = choose|j: int| 0 <= j < d.len() && d[j] == a;
                    assert(deduped(list)[j] == a);
                } else if d.contains(a) {
                } else {
                    assert(deduped(list)[d.len() as int] == a);
                }
            }
            if deduped(list).contains(a) {
                let j = choose|j: int| 0 <= j < deduped(list).len() && deduped(list)[j] == a;
                if j < d.len() {
                    assert(d[j] == a);
                    assert(d.contains(a));
                    let i = choose|i: int| 0 <= i < init.len() && init[i] == a;
                    assert(list[i] == a);
                } else {
                    assert(list[list.len() - 1] == a);
                }
            }
        }
    }
}

/// Appends `a` to `list` unless it is there already.
pub fn push_new_address(list: &mut Vec<AppleTalkAddress>, a: AppleTalkAddress)
    ensures
        final(list)@ == push_new(old(list)@, a),
{
    if !contains_address(list, a) {
        list.push(a);
    }
}

/// Whether an address stands in a list up to `k`, and another one does not.
pub open spec fn first_of_two(list: Seq<AppleTalkAddress>, a: AppleTalkAddress, b: AppleTalkAddress, k: int) -> bool {
    0 <= k < list.len() && list[k] == a && forall|m: int| 0 <= m <= k ==> #[trigger] list[m] != b
}

/// What is left of a list keeps the order in which each address first occurs in
/// it.
pub proof fn law_deduped_keeps_the_order(list: Seq<AppleTalkAddress>, i: int, j: int)
    requires
        0 <= i < j < deduped(list).len(),
    ensures
        exists|k: int| #[trigger] first_of_two(list, deduped(list)[i], deduped(list)[j], k),
    decreases list.len(),
{
    let init = list.drop_last();
    let before = deduped(init);
    let all = deduped(list);
    law_deduped(init);
    if j < before.len() {
        law_deduped_keeps_the_order(init, i, j);
        let k = choose|k: int| #[trigger] first_of_two(init, before[i], before[j], k);
        assert forall|m: int| 0 <= m <= k implies #[trigger] list[m] != all[j] by {
            assert(list[m] == init[m]);
        }
        assert(first_of_two(list, all[i], all[j], k));
    } else {
        assert(before.contains(before[i]));
        assert(init.contains(before[i]));
        let k = choose|k: int| 0 <= k < init.len() && init[k] == before[i];
        assert forall|m: int| 0 <= m <= k implies #[trigger] list[m] != all[j] by {
            assert(init.contains(init[m]));
        }
        assert(first_of_two(list, all[i], all[j], k));
    }
}

} // verus!
