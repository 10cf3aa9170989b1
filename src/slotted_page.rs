use vstd::prelude::*;

use crate::{Page, PAGE_SIZE};

verus! {

/// Length value of a slot entry that marks the slot as deleted.
pub const INVALID_SLOT: u16 = 0xFFFF;

/// Bytes of the page header: free_start, free_end and num_slots.
pub const HEADER_SIZE: usize = 6;

/// Bytes of one slot directory entry: a u16 offset and a u16 length.
pub const SLOT_ENTRY_SIZE: usize = 4;

/// Index of a slot directory entry within one page.
#[derive(Clone, Copy, Debug, PartialEq, Eq, Structural)]
pub struct SlotId(pub u16);

/// The little-endian u16 stored at bytes [i, i + 2).
pub open spec fn u16_at(b: Seq<u8>, i: int) -> int {
    b[i] as int + 256 * (b[i + 1] as int)
}

pub open spec fn free_start_of(b: Seq<u8>) -> int {
    u16_at(b, 0)
}

pub open spec fn free_end_of(b: Seq<u8>) -> int {
    u16_at(b, 2)
}

pub open spec fn num_slots_of(b: Seq<u8>) -> int {
    u16_at(b, 4)
}

/// Position of the directory entry of slot `i`.
pub open spec fn entry_pos(i: int) -> int {
    4096 - 4 * (i + 1)
}

pub open spec fn slot_off(b: Seq<u8>, i: int) -> int {
    u16_at(b, entry_pos(i))
}

pub open spec fn slot_len(b: Seq<u8>, i: int) -> int {
    u16_at(b, entry_pos(i) + 2)
}

/// Slot `i` exists in the directory and is not deleted.
pub open spec fn is_live(b: Seq<u8>, i: int) -> bool {
    0 <= i < num_slots_of(b) && slot_len(b, i) != 0xFFFF
}

/// The bytes that live slot `i` refers to.
pub open spec fn payload(b: Seq<u8>, i: int) -> Seq<u8> {
    b.subrange(slot_off(b, i), slot_off(b, i) + slot_len(b, i))
}

/// The tuples a page holds: live slot id to payload.
pub open spec fn tuples(b: Seq<u8>) -> Map<int, Seq<u8>> {
    Map::new(|i: int| is_live(b, i), |i: int| payload(b, i))
}

/// The payloads of slots `i` and `k` do not overlap.
pub open spec fn disjoint_slots(b: Seq<u8>, i: int, k: int) -> bool {
    slot_off(b, i) + slot_len(b, i) <= slot_off(b, k) || slot_off(b, k) + slot_len(b, k) <= slot_off(b, i)
}

/// The layout invariant of a slotted page.
pub open spec fn page_wf(b: Seq<u8>) -> bool {
    &&& b.len() == 4096
    &&& 6 <= free_start_of(b) <= free_end_of(b)
    &&& free_end_of(b) == 4096 - 4 * num_slots_of(b)
    &&& forall|i: int|
        #![trigger slot_off(b, i)]
        #![trigger slot_len(b, i)]
        is_live(b, i) ==> 6 <= slot_off(b, i) && slot_off(b, i) + slot_len(b, i) <= free_start_of(b)
    &&& forall|i: int, k: int|
        #![trigger is_live(b, i), is_live(b, k)]
        is_live(b, i) && is_live(b, k) && i != k ==> disjoint_slots(b, i, k)
}

/// The bytes of `b` with `src` written at position `at`.
pub open spec fn overwrite(b: Seq<u8>, at: int, src: Seq<u8>) -> Seq<u8> {
    Seq::new(b.len(), |j: int| if at <= j < at + src.len() { src[j - at] } else { b[j] })
}

/// Slot `i` comes after position (lo, li) in (offset, slot id) order.
pub open spec fn key_gt(b: Seq<u8>, i: int, lo: int, li: int) -> bool {
    slot_off(b, i) > lo || (slot_off(b, i) == lo && i > li)
}

/// Slot `i` comes before slot `k` in (offset, slot id) order.
pub open spec fn key_lt(b: Seq<u8>, i: int, k: int) -> bool {
    slot_off(b, i) < slot_off(b, k) || (slot_off(b, i) == slot_off(b, k) && i < k)
}

/// Total length of the live slots below `k` that come after (lo, li).
pub open spec fn bytes_above(b: Seq<u8>, lo: int, li: int, k: int) -> int
    decreases k,
{
    if k <= 0 {
        0
    } else {
        bytes_above(b, lo, li, k - 1) + if is_live(b, k - 1) && key_gt(b, k - 1, lo, li) {
            slot_len(b, k - 1)
        } else {
            0
        }
    }
}

/// Total length of all live payloads.
pub open spec fn live_bytes(b: Seq<u8>) -> int {
    bytes_above(b, -1, -1, num_slots_of(b))
}

/// Total length of the live slots below `k` that come before slot `s` in
/// (offset, slot id) order.
pub open spec fn bytes_before(b: Seq<u8>, s: int, k: int) -> int
    decreases k,
{
    if k <= 0 {
        0
    } else {
        bytes_before(b, s, k - 1) + if is_live(b, k - 1) && key_lt(b, k - 1, s) {
            slot_len(b, k - 1)
        } else {
            0
        }
    }
}

/// The layout that compaction produces: live payloads packed from offset 6
/// in (offset, slot id) order, with free_start right after the last one.
pub open spec fn packed(b: Seq<u8>) -> bool {
    &&& page_wf(b)
    &&& free_start_of(b) == 6 + live_bytes(b)
    &&& forall|s: int| #[trigger] is_live(b, s) ==> slot_off(b, s) == 6 + bytes_before(b, s, num_slots_of(b))
}

/// What compaction does to a page `a`, leaving `b`: the tuples, the slot
/// count and free_end stay; free_start drops to just past the live bytes
/// packed from offset 6; each live slot moves to 6 plus the lengths of the
/// live slots before it in (offset, slot id) order; a page already laid out that way is left as it
/// is; and when no live payload is empty the result is laid out that way.
pub open spec fn compact_result(a: Seq<u8>, b: Seq<u8>) -> bool {
    &&& page_wf(b)
    &&& tuples(b) == tuples(a)
    &&& num_slots_of(b) == num_slots_of(a)
    &&& free_end_of(b) == free_end_of(a)
    &&& free_start_of(b) == 6 + live_bytes(a)
    &&& free_start_of(b) <= free_start_of(a)
    &&& forall|s: int|
        #[trigger] is_live(a, s) ==> slot_off(b, s) == 6 + bytes_before(a, s, num_slots_of(a)) && slot_len(b, s)
            == slot_len(a, s)
    &&& packed(a) ==> b == a
    &&& no_empty_tuple(a) ==> packed(b)
}

/// Compacting twice leaves the same bytes as compacting once, on a page
/// with no empty live payload.
pub proof fn lemma_compact_idempotent(b0: Seq<u8>, b1: Seq<u8>, b2: Seq<u8>)
    requires
        page_wf(b0),
        no_empty_tuple(b0),
        compact_result(b0, b1),
        compact_result(b1, b2),
    ensures
        b2 == b1,
{
}

/// No live slot holds an empty payload.
pub open spec fn no_empty_tuple(b: Seq<u8>) -> bool {
    forall|s: int| #[trigger] is_live(b, s) ==> slot_len(b, s) > 0
}

proof fn lemma_u16_same_bytes(a: Seq<u8>, b: Seq<u8>, i: int)
    requires
        0 <= i,
        i + 1 < a.len(),
        i + 1 < b.len(),
        u16_at(a, i) == u16_at(b, i),
    ensures
        a[i] == b[i],
        a[i + 1] == b[i + 1],
{
}

/// The live slots split into those before `s` and those after (lo, li).
proof fn lemma_bytes_partition(b: Seq<u8>, s: int, lo: int, li: int, k: int)
    requires
        forall|t: int| #[trigger] is_live(b, t) ==> key_lt(b, t, s) != key_gt(b, t, lo, li),
        forall|t: int| #[trigger] is_live(b, t) ==> key_gt(b, t, -1, -1),
    ensures
        bytes_before(b, s, k) + bytes_above(b, lo, li, k) == bytes_above(b, -1, -1, k),
    decreases k,
{
    if k > 0 {
        lemma_bytes_partition(b, s, lo, li, k - 1);
        if is_live(b, k - 1) {
        }
    }
}

/// A slot before `s` has its own bytes, and everything before it, counted
/// in what comes before `s`.
proof fn lemma_bytes_before_mono(b: Seq<u8>, t: int, s: int, k: int)
    requires
        is_live(b, t),
        key_lt(b, t, s),
    ensures
        bytes_before(b, s, k) >= bytes_before(b, t, k) + if 0 <= t < k {
            slot_len(b, t)
        } else {
            0
        },
    decreases k,
{
    if k > 0 {
        lemma_bytes_before_mono(b, t, s, k - 1);
        let u = k - 1;
        if is_live(b, u) && key_lt(b, u, t) {
            assert(key_lt(b, u, s));
        }
    }
}

/// Two pages that agree on which slots are live, on their lengths and on
/// their order count the same bytes before every slot.
proof fn lemma_bytes_before_same(a: Seq<u8>, b: Seq<u8>, s: int, k: int)
    requires
        forall|t: int| #[trigger] is_live(a, t) == is_live(b, t),
        forall|t: int| is_live(a, t) ==> #[trigger] slot_len(a, t) == slot_len(b, t),
        forall|t: int| is_live(a, t) ==> #[trigger] key_lt(a, t, s) == key_lt(b, t, s),
    ensures
        bytes_before(a, s, k) == bytes_before(b, s, k),
    decreases k,
{
    if k > 0 {
        lemma_bytes_before_same(a, b, s, k - 1);
        if is_live(a, k - 1) {
            assert(slot_len(a, k - 1) == slot_len(b, k - 1));
            assert(key_lt(a, k - 1, s) == key_lt(b, k - 1, s));
        }
    }
}

proof fn lemma_bytes_above_same(a: Seq<u8>, b: Seq<u8>, k: int)
    requires
        forall|t: int| #[trigger] is_live(a, t) == is_live(b, t),
        forall|t: int| is_live(a, t) ==> #[trigger] slot_len(a, t) == slot_len(b, t),
        forall|t: int| #[trigger] is_live(a, t) ==> key_gt(a, t, -1, -1) && key_gt(b, t, -1, -1),
    ensures
        bytes_above(a, -1, -1, k) == bytes_above(b, -1, -1, k),
    decreases k,
{
    if k > 0 {
        lemma_bytes_above_same(a, b, k - 1);
        if is_live(a, k - 1) {
            assert(slot_len(a, k - 1) == slot_len(b, k - 1));
        }
    }
}

proof fn lemma_bytes_above_step(b: Seq<u8>, lo: int, li: int, s: int, k: int)
    requires
        is_live(b, s),
        key_gt(b, s, lo, li),
        forall|t: int|
            #![trigger is_live(b, t)]
            is_live(b, t) && key_gt(b, t, lo, li) && t != s ==> key_gt(b, t, slot_off(b, s), s),
    ensures
        bytes_above(b, lo, li, k) == bytes_above(b, slot_off(b, s), s, k) + if 0 <= s < k {
            slot_len(b, s)
        } else {
            0
        },
    decreases k,
{
    if k > 0 {
        lemma_bytes_above_step(b, lo, li, s, k - 1);
        let t = k - 1;
        if is_live(b, t) && key_gt(b, t, slot_off(b, s), s) {
            assert(key_gt(b, t, lo, li));
        }
    }
}

proof fn lemma_bytes_above_none(b: Seq<u8>, lo: int, li: int, k: int)
    requires
        forall|t: int| #![trigger is_live(b, t)] 0 <= t < k ==> !(is_live(b, t) && key_gt(b, t, lo, li)),
    ensures
        bytes_above(b, lo, li, k) == 0,
    decreases k,
{
    if k > 0 {
        lemma_bytes_above_none(b, lo, li, k - 1);
    }
}

/// Slot `t` has been moved by a compaction that has reached (lo, li).
pub open spec fn moved(b0: Seq<u8>, lo: int, li: int, t: int) -> bool {
    is_live(b0, t) && !key_gt(b0, t, lo, li)
}

/// State of a compaction of page `b0` that has reached (lo, li) and has
/// filled the payload area up to `pos`.
pub open spec fn compact_inv(b0: Seq<u8>, b: Seq<u8>, lo: int, li: int, pos: int) -> bool {
    &&& b.len() == 4096
    &&& forall|j: int| 0 <= j < 6 ==> b[j] == b0[j]
    &&& 6 <= pos <= free_start_of(b0)
    &&& forall|t: int|
        #![trigger is_live(b0, t)]
        is_live(b0, t) && key_gt(b0, t, lo, li) && slot_len(b0, t) > 0 ==> pos <= slot_off(b0, t)
    &&& forall|t: int|
        #![trigger slot_len(b, t)]
            #![trigger slot_off(b, t)]
        0 <= t < num_slots_of(b0) && !moved(b0, lo, li, t) ==> slot_off(b, t) == slot_off(b0, t) && slot_len(b, t)
            == slot_len(b0, t)
    &&& forall|t: int|
        #![trigger moved(b0, lo, li, t)]
        moved(b0, lo, li, t) ==> slot_len(b, t) == slot_len(b0, t) && 6 <= slot_off(b, t) && slot_off(b, t)
            + slot_len(b, t) <= pos && payload(b, t) == payload(b0, t) && slot_off(b, t) == 6 + bytes_before(
            b0,
            t,
            num_slots_of(b0),
        )
    &&& forall|t: int, u: int|
        #![trigger moved(b0, lo, li, t), moved(b0, lo, li, u)]
        moved(b0, lo, li, t) && moved(b0, lo, li, u) && t != u ==> disjoint_slots(b, t, u)
}

proof fn lemma_compact_bound(b0: Seq<u8>, b: Seq<u8>, lo: int, li: int, pos: int, s: int)
    requires
        page_wf(b0),
        compact_inv(b0, b, lo, li, pos),
        is_live(b0, s),
        key_gt(b0, s, lo, li),
    ensures
        pos + slot_len(b0, s) <= free_start_of(b0),
        slot_len(b0, s) > 0 ==> pos <= slot_off(b0, s),
{
}

proof fn lemma_pos_is_bytes_before(b0: Seq<u8>, b1: Seq<u8>, lo: int, li: int, pos: int, s: int)
    requires
        page_wf(b0),
        compact_inv(b0, b1, lo, li, pos),
        is_live(b0, s),
        key_gt(b0, s, lo, li),
        forall|t: int|
            #![trigger is_live(b0, t)]
            is_live(b0, t) && key_gt(b0, t, lo, li) ==> !key_lt(b0, t, s),
        pos - 6 + bytes_above(b0, lo, li, num_slots_of(b0)) == live_bytes(b0),
    ensures
        pos == 6 + bytes_before(b0, s, num_slots_of(b0)),
{
    assert forall|t: int| #[trigger] is_live(b0, t) implies key_lt(b0, t, s) != key_gt(b0, t, lo, li) by {
        if !key_gt(b0, t, lo, li) {
            assert(key_lt(b0, t, s));
        }
    }
    assert forall|t: int| #[trigger] is_live(b0, t) implies key_gt(b0, t, -1, -1) by {
        assert(slot_off(b0, t) >= 0) by {
            assert(b0[entry_pos(t)] >= 0 && b0[entry_pos(t) + 1] >= 0);
        }
    }
    lemma_bytes_partition(b0, s, lo, li, num_slots_of(b0));
}

/// One step of compaction over a page already laid out as compaction
/// leaves it rewrites every byte with its own value.
proof fn lemma_compact_step_packed(b0: Seq<u8>, b2: Seq<u8>, b: Seq<u8>, s: int, pos: int)
    requires
        packed(b0),
        is_live(b0, s),
        pos == 6 + bytes_before(b0, s, num_slots_of(b0)),
        b2 == overwrite(b0, pos, payload(b0, s)),
        b.len() == 4096,
        slot_off(b, s) == pos,
        slot_len(b, s) == slot_len(b0, s),
        forall|j: int| 0 <= j < 4096 && (j < entry_pos(s) || j >= entry_pos(s) + 4) ==> b[j] == b2[j],
    ensures
        b == b0,
{
    assert(b2 =~= b0);
    lemma_u16_same_bytes(b, b0, entry_pos(s));
    lemma_u16_same_bytes(b, b0, entry_pos(s) + 2);
    assert(b =~= b0);
}

/// Compaction of a page without empty tuples keeps the order of its live
/// slots, so what it leaves is laid out as compaction leaves it.
proof fn lemma_compact_packed(b0: Seq<u8>, b: Seq<u8>)
    requires
        page_wf(b0),
        no_empty_tuple(b0),
        page_wf(b),
        forall|t: int| #[trigger] is_live(b, t) == is_live(b0, t),
        forall|t: int|
            is_live(b0, t) ==> #[trigger] slot_len(b, t) == slot_len(b0, t) && slot_off(b, t) == 6 + bytes_before(
                b0,
                t,
                num_slots_of(b0),
            ),
        num_slots_of(b) == num_slots_of(b0),
        free_start_of(b) == 6 + live_bytes(b0),
    ensures
        packed(b),
{
    let n = num_slots_of(b0);
    assert forall|t: int| #![trigger is_live(b0, t)] is_live(b0, t) implies key_gt(b0, t, -1, -1) && key_gt(
        b,
        t,
        -1,
        -1,
    ) by {
        assert(b0[entry_pos(t)] >= 0 && b0[entry_pos(t) + 1] >= 0);
        assert(slot_len(b, t) == slot_len(b0, t));
    }
    assert forall|t: int| is_live(b0, t) implies #[trigger] slot_len(b0, t) == slot_len(b, t) by {}
    lemma_bytes_above_same(b0, b, n);
    assert forall|s: int| #[trigger] is_live(b, s) implies slot_off(b, s) == 6 + bytes_before(b, s, n) by {
        assert(is_live(b0, s));
        assert forall|t: int| is_live(b0, t) implies #[trigger] key_lt(b0, t, s) == key_lt(b, t, s) by {
            assert(slot_len(b, t) == slot_len(b0, t));
            assert(slot_len(b, s) == slot_len(b0, s));
            if key_lt(b0, t, s) {
                lemma_bytes_before_mono(b0, t, s, n);
            } else if t != s {
                assert(key_lt(b0, s, t));
                lemma_bytes_before_mono(b0, s, t, n);
            }
        }
        assert forall|t: int| is_live(b0, t) implies #[trigger] slot_len(b0, t) == slot_len(b, t) by {}
        lemma_bytes_before_same(b0, b, s, n);
    }
}

proof fn lemma_compact_step(b0: Seq<u8>, b1: Seq<u8>, b2: Seq<u8>, b: Seq<u8>, lo: int, li: int, pos: int, s: int)
    requires
        page_wf(b0),
        compact_inv(b0, b1, lo, li, pos),
        is_live(b0, s),
        key_gt(b0, s, lo, li),
        forall|t: int|
            #![trigger is_live(b0, t)]
            is_live(b0, t) && key_gt(b0, t, lo, li) ==> !key_lt(b0, t, s),
        pos + slot_len(b0, s) <= free_start_of(b0),
        slot_len(b0, s) > 0 ==> pos <= slot_off(b0, s),
        pos - 6 + bytes_above(b0, lo, li, num_slots_of(b0)) == live_bytes(b0),
        b2 == overwrite(b1, pos, payload(b0, s)),
        b.len() == 4096,
        slot_off(b, s) == pos,
        slot_len(b, s) == slot_len(b0, s),
        forall|j: int| 0 <= j < 4096 && (j < entry_pos(s) || j >= entry_pos(s) + 4) ==> b[j] == b2[j],
    ensures
        compact_inv(b0, b, slot_off(b0, s), s, pos + slot_len(b0, s)),
        pos == 6 + bytes_before(b0, s, num_slots_of(b0)),
{
    lemma_pos_is_bytes_before(b0, b1, lo, li, pos, s);
    let lo2 = slot_off(b0, s);
    let len = slot_len(b0, s);
    let next_pos = pos + len;
    let n = num_slots_of(b0);
    assert forall|t: int| #![trigger is_live(b0, t)] is_live(b0, t) implies ((key_gt(b0, t, lo, li) && t != s)
        == key_gt(b0, t, lo2, s)) by {
        if key_gt(b0, t, lo, li) && t != s {
            assert(!key_lt(b0, t, s));
        }
    }
    assert forall|t: int| #![trigger slot_len(b, t)] 0 <= t < n && t != s implies (slot_off(b, t) == slot_off(b1, t)
        && slot_len(b, t) == slot_len(b1, t)) by {
        assert(entry_pos(t) >= entry_pos(s) + 4 || entry_pos(t) + 4 <= entry_pos(s));
        assert(entry_pos(t) >= free_end_of(b0));
    }
    assert forall|t: int| #![trigger slot_len(b, t)]
            #![trigger slot_off(b, t)]
        0 <= t < num_slots_of(b0) && !moved(b0, lo2, s, t) ==> slot_off(b, t) == slot_off(b0, t) && slot_len(b, t)
            == slot_len(b0, t) by {
        if 0 <= t < num_slots_of(b0) && !moved(b0, lo2, s, t) {
            assert(slot_len(b1, t) == slot_len(b0, t));
        }
    }
    assert forall|t: int| #[trigger] moved(b0, lo2, s, t) && t != s implies payload(b, t) =~= payload(b1, t) by {
        assert(moved(b0, lo, li, t));
        assert(slot_len(b, t) == slot_len(b1, t));
    }
    assert(payload(b, s) =~= payload(b0, s));
    assert forall|t: int| #![trigger moved(b0, lo2, s, t)]
        moved(b0, lo2, s, t) ==> slot_len(b, t) == slot_len(b0, t) && 6 <= slot_off(b, t) && slot_off(b, t)
            + slot_len(b, t) <= next_pos && payload(b, t) == payload(b0, t) by {
        if moved(b0, lo2, s, t) && t != s {
            assert(moved(b0, lo, li, t));
            assert(slot_len(b, t) == slot_len(b1, t));
            assert(slot_off(b, t) == slot_off(b1, t));
        }
    }
    assert forall|t: int, u: int| #![trigger moved(b0, lo2, s, t), moved(b0, lo2, s, u)]
        moved(b0, lo2, s, t) && moved(b0, lo2, s, u) && t != u ==> disjoint_slots(b, t, u) by {
        if moved(b0, lo2, s, t) && moved(b0, lo2, s, u) && t != u {
            if t != s {
                assert(moved(b0, lo, li, t));
                assert(slot_len(b, t) == slot_len(b1, t));
            }
            if u != s {
                assert(moved(b0, lo, li, u));
                assert(slot_len(b, u) == slot_len(b1, u));
            }
        }
    }
    assert forall|t: int| #![trigger is_live(b0, t)]
        is_live(b0, t) && key_gt(b0, t, lo2, s) && slot_len(b0, t) > 0 ==> next_pos <= slot_off(b0, t) by {
        if is_live(b0, t) && key_gt(b0, t, lo2, s) && slot_len(b0, t) > 0 {
            assert(disjoint_slots(b0, s, t));
        }
    }
    assert forall|j: int| 0 <= j < 6 implies b[j] == b0[j] by {
        assert(b2[j] == b1[j]);
    }
    assert(6 <= next_pos <= free_start_of(b0));
    lemma_step_unmoved(b0, b1, b, lo, li, s);
}

proof fn lemma_step_unmoved(b0: Seq<u8>, b1: Seq<u8>, b: Seq<u8>, lo: int, li: int, s: int)
    requires
        forall|t: int|
            #![trigger slot_len(b1, t)]
            #![trigger slot_off(b1, t)]
            0 <= t < num_slots_of(b0) && !moved(b0, lo, li, t) ==> slot_off(b1, t) == slot_off(b0, t) && slot_len(b1, t)
                == slot_len(b0, t),
        forall|t: int|
            #![trigger slot_len(b, t)]
            #![trigger slot_off(b, t)]
            0 <= t < num_slots_of(b0) && t != s ==> slot_off(b, t) == slot_off(b1, t) && slot_len(b, t) == slot_len(b1, t),
        forall|t: int| #![trigger is_live(b0, t)] is_live(b0, t) ==> ((key_gt(b0, t, lo, li) && t != s) == key_gt(
            b0,
            t,
            slot_off(b0, s),
            s,
        )),
        is_live(b0, s),
    ensures
        forall|t: int|
            #![trigger slot_len(b, t)]
            #![trigger slot_off(b, t)]
            0 <= t < num_slots_of(b0) && !moved(b0, slot_off(b0, s), s, t) ==> slot_off(b, t) == slot_off(b0, t)
                && slot_len(b, t) == slot_len(b0, t),
{
    assert forall|t: int|
        #![trigger slot_len(b, t)]
            #![trigger slot_off(b, t)]
        0 <= t < num_slots_of(b0) && !moved(b0, slot_off(b0, s), s, t) implies slot_off(b, t) == slot_off(b0, t)
            && slot_len(b, t) == slot_len(b0, t) by {
        assert(t != s);
        assert(!moved(b0, lo, li, t));
        assert(slot_len(b1, t) == slot_len(b0, t));
        assert(slot_len(b, t) == slot_len(b1, t));
    }
}

proof fn lemma_compact_done(b0: Seq<u8>, b1: Seq<u8>, b: Seq<u8>, lo: int, li: int, pos: int)
    requires
        page_wf(b0),
        compact_inv(b0, b1, lo, li, pos),
        forall|t: int| #![trigger is_live(b0, t)] !(is_live(b0, t) && key_gt(b0, t, lo, li)),
        b.len() == 4096,
        free_start_of(b) == pos,
        forall|j: int| 2 <= j < 4096 ==> b[j] == b1[j],
    ensures
        page_wf(b),
        tuples(b) == tuples(b0),
        num_slots_of(b) == num_slots_of(b0),
        free_end_of(b) == free_end_of(b0),
        forall|t: int| #[trigger] is_live(b, t) == is_live(b0, t),
        forall|t: int|
            is_live(b0, t) ==> #[trigger] slot_len(b, t) == slot_len(b0, t) && slot_off(b, t) == 6 + bytes_before(
                b0,
                t,
                num_slots_of(b0),
            ),
{
    let n = num_slots_of(b0);
    assert forall|t: int| #![trigger slot_len(b, t)] 0 <= t < n implies (slot_off(b, t) == slot_off(b1, t) && slot_len(
        b,
        t,
    ) == slot_len(b1, t) && slot_len(b, t) == slot_len(b0, t)) by {
        assert(slot_len(b1, t) == slot_len(b0, t) || moved(b0, lo, li, t));
    }
    assert forall|t: int| #[trigger] is_live(b, t) <==> is_live(b0, t) by {
        if 0 <= t < n {
            assert(slot_len(b, t) == slot_len(b0, t));
        }
    }
    assert forall|t: int| #[trigger] is_live(b0, t) implies payload(b, t) =~= payload(b0, t) by {
        assert(moved(b0, lo, li, t));
        assert(payload(b, t) =~= payload(b1, t));
    }
    assert forall|t: int, u: int| #![trigger is_live(b, t), is_live(b, u)] is_live(b, t) && is_live(b, u) && t != u
        implies disjoint_slots(b, t, u) by {
        assert(moved(b0, lo, li, t) && moved(b0, lo, li, u));
    }
    assert forall|t: int| #![trigger slot_off(b, t)] is_live(b, t) implies (6 <= slot_off(b, t) && slot_off(b, t)
        + slot_len(b, t) <= free_start_of(b)) by {
        assert(moved(b0, lo, li, t));
    }
    assert(tuples(b) =~= tuples(b0));
    assert forall|t: int| is_live(b0, t) implies #[trigger] slot_len(b, t) == slot_len(b0, t) && slot_off(b, t) == 6
        + bytes_before(b0, t, n) by {
        assert(moved(b0, lo, li, t));
    }
}

/// Writing a payload no longer than the old one over it, and shortening the
/// slot's length, replaces that slot's tuple and nothing else.
proof fn lemma_replace_payload(b0: Seq<u8>, b1: Seq<u8>, b: Seq<u8>, s: int, off: int, x: Seq<u8>)
    requires
        page_wf(b0),
        is_live(b0, s),
        off == slot_off(b0, s),
        x.len() <= slot_len(b0, s),
        b1 == overwrite(b0, off, x),
        b.len() == 4096,
        slot_off(b, s) == off,
        slot_len(b, s) == x.len(),
        forall|j: int| 0 <= j < 4096 && (j < entry_pos(s) || j >= entry_pos(s) + 4) ==> b[j] == b1[j],
    ensures
        page_wf(b),
        tuples(b) == tuples(b0).insert(s, x),
        num_slots_of(b) == num_slots_of(b0),
        free_start_of(b) == free_start_of(b0),
        free_end_of(b) == free_end_of(b0),
{
    let n = num_slots_of(b0);
    assert(free_start_of(b) == free_start_of(b0) && free_end_of(b) == free_end_of(b0) && num_slots_of(b)
        == num_slots_of(b0)) by {
        assert(b[0] == b0[0] && b[1] == b0[1] && b[2] == b0[2] && b[3] == b0[3] && b[4] == b0[4] && b[5] == b0[5]);
    }
    assert forall|t: int| 0 <= t < n && t != s implies #[trigger] slot_len(b, t) == slot_len(b0, t) && slot_off(b, t)
        == slot_off(b0, t) by {
        assert(entry_pos(t) >= entry_pos(s) + 4 || entry_pos(t) + 4 <= entry_pos(s));
        assert(entry_pos(t) >= free_end_of(b0));
    }
    assert forall|t: int| #[trigger] is_live(b, t) <==> is_live(b0, t) by {
        if 0 <= t < n && t != s {
            assert(slot_len(b, t) == slot_len(b0, t));
        }
    }
    assert forall|t: int| #[trigger] is_live(b0, t) && t != s implies payload(b, t) =~= payload(b0, t) by {
        assert(slot_len(b, t) == slot_len(b0, t));
        assert(disjoint_slots(b0, s, t));
    }
    assert(payload(b, s) =~= x);
    assert forall|t: int, u: int| #![trigger is_live(b, t), is_live(b, u)] is_live(b, t) && is_live(b, u) && t != u
        implies disjoint_slots(b, t, u) by {
        assert(is_live(b0, t) && is_live(b0, u));
        if t != s {
            assert(slot_len(b, t) == slot_len(b0, t));
        }
        if u != s {
            assert(slot_len(b, u) == slot_len(b0, u));
        }
    }
    assert forall|t: int| #![trigger slot_off(b, t)] #![trigger slot_len(b, t)] is_live(b, t) implies 6 <= slot_off(b, t)
        && slot_off(b, t) + slot_len(b, t) <= free_start_of(b) by {
        assert(is_live(b0, t));
        if t != s {
            assert(slot_len(b, t) == slot_len(b0, t));
        }
    }
    assert(tuples(b) =~= tuples(b0).insert(s, x));
}

/// Writing a payload at free_start, advancing free_start past it and
/// repointing a live slot there replaces that slot's tuple and nothing else.
proof fn lemma_move_payload(b0: Seq<u8>, b1: Seq<u8>, b2: Seq<u8>, b: Seq<u8>, s: int, x: Seq<u8>)
    requires
        page_wf(b0),
        is_live(b0, s),
        free_start_of(b0) + x.len() <= free_end_of(b0),
        b1 == overwrite(b0, free_start_of(b0), x),
        free_start_of(b2) == free_start_of(b0) + x.len(),
        b2.len() == 4096,
        forall|j: int| 2 <= j < 4096 ==> b2[j] == b1[j],
        b.len() == 4096,
        slot_off(b, s) == free_start_of(b0),
        slot_len(b, s) == x.len(),
        forall|j: int| 0 <= j < 4096 && (j < entry_pos(s) || j >= entry_pos(s) + 4) ==> b[j] == b2[j],
    ensures
        page_wf(b),
        tuples(b) == tuples(b0).insert(s, x),
        num_slots_of(b) == num_slots_of(b0),
        free_start_of(b) == free_start_of(b0) + x.len(),
        free_end_of(b) == free_end_of(b0),
{
    let n = num_slots_of(b0);
    let fs = free_start_of(b0);
    assert(free_start_of(b) == fs + x.len() && free_end_of(b) == free_end_of(b0) && num_slots_of(b) == n) by {
        assert(b[0] == b2[0] && b[1] == b2[1]);
        assert(b[2] == b0[2] && b[3] == b0[3] && b[4] == b0[4] && b[5] == b0[5]);
    }
    assert forall|t: int| 0 <= t < n && t != s implies #[trigger] slot_len(b, t) == slot_len(b0, t) && slot_off(b, t)
        == slot_off(b0, t) by {
        assert(entry_pos(t) >= entry_pos(s) + 4 || entry_pos(t) + 4 <= entry_pos(s));
        assert(entry_pos(t) >= free_end_of(b0));
    }
    assert forall|t: int| #[trigger] is_live(b, t) <==> is_live(b0, t) by {
        if 0 <= t < n && t != s {
            assert(slot_len(b, t) == slot_len(b0, t));
        }
    }
    assert forall|t: int| #[trigger] is_live(b0, t) && t != s implies payload(b, t) =~= payload(b0, t) by {
        assert(slot_len(b, t) == slot_len(b0, t));
    }
    assert(payload(b, s) =~= x);
    assert forall|t: int, u: int| #![trigger is_live(b, t), is_live(b, u)] is_live(b, t) && is_live(b, u) && t != u
        implies disjoint_slots(b, t, u) by {
        assert(is_live(b0, t) && is_live(b0, u));
        if t != s {
            assert(slot_len(b, t) == slot_len(b0, t));
        }
        if u != s {
            assert(slot_len(b, u) == slot_len(b0, u));
        }
    }
    assert forall|t: int| #![trigger slot_off(b, t)] #![trigger slot_len(b, t)] is_live(b, t) implies 6 <= slot_off(b, t)
        && slot_off(b, t) + slot_len(b, t) <= free_start_of(b) by {
        assert(is_live(b0, t));
        if t != s {
            assert(slot_len(b, t) == slot_len(b0, t));
        }
    }
    assert(tuples(b) =~= tuples(b0).insert(s, x));
}

/// A live slot keeps its payload across any page operation that leaves its
/// own entry alone: one that keeps the tuples, or adds, replaces or removes
/// the tuple of another slot. Insert, update and delete of other slots and
/// compaction are such operations, so this holds along any sequence of them.
pub proof fn lemma_untouched_slot_kept(b0: Seq<u8>, b1: Seq<u8>, s: int, k: int, x: Seq<u8>)
    requires
        is_live(b0, s),
        k != s,
        tuples(b1) == tuples(b0) || tuples(b1) == tuples(b0).insert(k, x) || tuples(b1) == tuples(b0).remove(k),
    ensures
        is_live(b1, s),
        payload(b1, s) == payload(b0, s),
{
    assert(tuples(b0).contains_key(s));
    assert(tuples(b1).contains_key(s));
    assert(tuples(b1)[s] == tuples(b0)[s]);
}

/// Along a run of page states in which each step keeps the tuples or adds,
/// replaces or removes the tuple of a slot other than `s`, the payload of
/// live slot `s` stays the same.
pub proof fn lemma_untouched_slot_kept_along(bs: Seq<Seq<u8>>, ks: Seq<int>, xs: Seq<Seq<u8>>, s: int)
    requires
        bs.len() >= 1,
        ks.len() + 1 == bs.len(),
        xs.len() + 1 == bs.len(),
        is_live(bs[0], s),
        forall|i: int| 0 <= i < ks.len() ==> #[trigger] ks[i] != s,
        forall|i: int|
            0 <= i < ks.len() ==> tuples(#[trigger] bs[i + 1]) == tuples(bs[i]) || tuples(bs[i + 1]) == tuples(
                bs[i],
            ).insert(ks[i], xs[i]) || tuples(bs[i + 1]) == tuples(bs[i]).remove(ks[i]),
    ensures
        is_live(bs.last(), s),
        payload(bs.last(), s) == payload(bs[0], s),
    decreases bs.len(),
{
    if bs.len() > 1 {
        let n = bs.len() - 1;
        let pre = bs.subrange(0, n);
        assert forall|i: int| 0 <= i < ks.len() - 1 implies tuples(#[trigger] pre[i + 1]) == tuples(pre[i]) || tuples(
            pre[i + 1],
        ) == tuples(pre[i]).insert(ks.subrange(0, n - 1)[i], xs.subrange(0, n - 1)[i]) || tuples(pre[i + 1]) == tuples(
            pre[i],
        ).remove(ks.subrange(0, n - 1)[i]) by {
            assert(pre[i + 1] == bs[i + 1] && pre[i] == bs[i]);
        }
        lemma_untouched_slot_kept_along(pre, ks.subrange(0, n - 1), xs.subrange(0, n - 1), s);
        assert(pre.last() == bs[n - 1]);
        assert(ks[n - 1] != s);
        assert(tuples(bs[n]) == tuples(bs[n - 1]) || tuples(bs[n]) == tuples(bs[n - 1]).insert(ks[n - 1], xs[n - 1])
            || tuples(bs[n]) == tuples(bs[n - 1]).remove(ks[n - 1]));
        lemma_untouched_slot_kept(bs[n - 1], bs[n], s, ks[n - 1], xs[n - 1]);
    }
}

/// On a freshly initialized page every payload of at most 4086 bytes fits,
/// and once inserted it reads back unchanged from its slot.
pub proof fn lemma_fresh_page_insert(b: Seq<u8>, b1: Seq<u8>, x: Seq<u8>, s: int)
    requires
        page_wf(b),
        free_start_of(b) == 6,
        free_end_of(b) == 4096,
        x.len() <= 4086,
        tuples(b1) == tuples(b).insert(s, x),
    ensures
        free_start_of(b) + x.len() + 4 <= free_end_of(b),
        is_live(b1, s),
        payload(b1, s) == x,
{
    assert(tuples(b1).contains_key(s));
    assert(tuples(b1)[s] == x);
    assert(tuples(b1)[s] == payload(b1, s));
}

/// A page is a slotted-page view over one owned 4096-byte buffer.
pub struct SlottedPage {
    buf: Page,
}

impl View for SlottedPage {
    type V = Seq<u8>;

    closed spec fn view(&self) -> Seq<u8> {
        self.buf@
    }
}

proof fn lemma_u16_bytes(v: u16)
    ensures
        (v % 256) as u8 as int + 256 * ((v / 256) as u8 as int) == v as int,
{
}

impl SlottedPage {
    fn read_u16(&self, pos: usize) -> (r: u16)
        requires
            pos + 2 <= 4096,
        ensures
            r as int == u16_at(self@, pos as int),
    {
        (self.buf[pos] as u16) + 256 * (self.buf[pos + 1] as u16)
    }

    fn write_u16(&mut self, pos: usize, v: u16)
        requires
            pos + 2 <= 4096,
        ensures
            u16_at(final(self)@, pos as int) == v as int,
            final(self)@.len() == 4096,
            forall|j: int| 0 <= j < 4096 && j != pos && j != pos + 1 ==> final(self)@[j] == old(self)@[j],
    {
        proof { lemma_u16_bytes(v); }
        self.buf[pos] = (v % 256) as u8;
        self.buf[pos + 1] = (v / 256) as u8;
    }

    /// The layout invariant holds of this page.
    pub open spec fn wf(&self) -> bool {
        page_wf(self@)
    }

    /// Writes a fresh header (free_start 6, free_end 4096, no slots); the
    /// rest of the buffer is kept but no longer referenced.
    pub fn init(buf: Page) -> (r: Self)
        ensures
            r.wf(),
            free_start_of(r@) == 6,
            free_end_of(r@) == 4096,
            num_slots_of(r@) == 0,
            tuples(r@) == Map::<int, Seq<u8>>::empty(),
            forall|j: int| 6 <= j < 4096 ==> r@[j] == buf@[j],
    {
        let mut p = SlottedPage { buf };
        p.set_free_start(HEADER_SIZE as u16);
        p.set_free_end(PAGE_SIZE as u16);
        p.set_num_slots(0);
        assert(tuples(p@) =~= Map::<int, Seq<u8>>::empty());
        p
    }

    /// Views a buffer that already holds a slotted page.
    pub fn from_buffer(buf: Page) -> (r: Self)
        requires
            page_wf(buf@),
        ensures
            r@ == buf@,
            r.wf(),
    {
        SlottedPage { buf }
    }

    /// Whether a buffer holds a well-formed slotted page.
    pub fn is_well_formed(buf: &Page) -> (r: bool)
        ensures
            r == page_wf(buf@),
    {
        let p = SlottedPage { buf: *buf };
        let fs = p.free_start();
        let fe = p.free_end();
        let n = p.num_slots();
        if fs < 6 || fs > fe || fe as usize + 4 * (n as usize) != PAGE_SIZE {
            return false;
        }
        let mut i: u16 = 0;
        while i < n
            invariant
                p@ == buf@,
                i <= n,
                n as int == num_slots_of(buf@),
                fs as int == free_start_of(buf@),
                6 <= fs <= fe,
                fe as int == 4096 - 4 * (n as int),
                forall|k: int|
                    #![trigger slot_off(buf@, k)]
                    #![trigger slot_len(buf@, k)]
                    0 <= k < i && is_live(buf@, k) ==> 6 <= slot_off(buf@, k) && slot_off(buf@, k)
                        + slot_len(buf@, k) <= free_start_of(buf@),
            decreases n - i,
        {
            let (off, len) = p.read_slot(i);
            if len != INVALID_SLOT && (off < 6 || off as usize + len as usize > fs as usize) {
                assert(is_live(buf@, i as int));
                return false;
            }
            i = i + 1;
        }
        let mut i: u16 = 0;
        while i < n
            invariant
                p@ == buf@,
                i <= n,
                n <= 1022,
                n as int == num_slots_of(buf@),
                forall|a: int, c: int|
                    #![trigger is_live(buf@, a), is_live(buf@, c)]
                    0 <= a < i && is_live(buf@, a) && is_live(buf@, c) && a != c ==> disjoint_slots(buf@, a, c),
            decreases n - i,
        {
            let (off_i, len_i) = p.read_slot(i);
            if len_i != INVALID_SLOT {
                let mut k: u16 = 0;
                while k < n
                    invariant
                        p@ == buf@,
                        i < n,
                        k <= n,
                        n <= 1022,
                        n as int == num_slots_of(buf@),
                        is_live(buf@, i as int),
                        off_i as int == slot_off(buf@, i as int),
                        len_i as int == slot_len(buf@, i as int),
                        forall|c: int|
                            #![trigger is_live(buf@, c)]
                            0 <= c < k && is_live(buf@, c) && i != c ==> disjoint_slots(buf@, i as int, c),
                    decreases n - k,
                {
                    let (off_k, len_k) = p.read_slot(k);
                    if k != i && len_k != INVALID_SLOT && off_i as usize + len_i as usize > off_k as usize
                        && off_k as usize + len_k as usize > off_i as usize {
                        assert(is_live(buf@, k as int));
                        assert(!disjoint_slots(buf@, i as int, k as int));
                        return false;
                    }
                    k = k + 1;
                }
            }
            i = i + 1;
        }
        true
    }

    /// The page's bytes.
    pub fn as_bytes(&self) -> (r: &Page)
        ensures
            r@ == self@,
    {
        &self.buf
    }

    /// Gives the buffer back.
    pub fn into_buffer(self) -> (r: Page)
        ensures
            r@ == self@,
    {
        self.buf
    }

    pub fn free_start(&self) -> (r: u16)
        ensures
            r as int == free_start_of(self@),
    {
        self.read_u16(0)
    }

    pub fn free_end(&self) -> (r: u16)
        ensures
            r as int == free_end_of(self@),
    {
        self.read_u16(2)
    }

    pub fn num_slots(&self) -> (r: u16)
        ensures
            r as int == num_slots_of(self@),
    {
        self.read_u16(4)
    }

    fn set_free_start(&mut self, val: u16)
        ensures
            free_start_of(final(self)@) == val,
            final(self)@.len() == 4096,
            forall|j: int| 2 <= j < 4096 ==> final(self)@[j] == old(self)@[j],
    {
        self.write_u16(0, val);
    }

    fn set_free_end(&mut self, val: u16)
        ensures
            free_end_of(final(self)@) == val,
            final(self)@.len() == 4096,
            forall|j: int| 0 <= j < 4096 && (j < 2 || j >= 4) ==> final(self)@[j] == old(self)@[j],
    {
        self.write_u16(2, val);
    }

    fn set_num_slots(&mut self, val: u16)
        ensures
            num_slots_of(final(self)@) == val,
            final(self)@.len() == 4096,
            forall|j: int| 0 <= j < 4096 && (j < 4 || j >= 6) ==> final(self)@[j] == old(self)@[j],
    {
        self.write_u16(4, val);
    }

    /// Position of the directory entry of a slot.
    fn slot_offset(&self, slot_id: u16) -> (r: usize)
        requires
            slot_id < 1024,
        ensures
            r as int == entry_pos(slot_id as int),
    {
        PAGE_SIZE - ((slot_id as usize + 1) * SLOT_ENTRY_SIZE)
    }

    /// The (offset, length) entry of a slot.
    fn read_slot(&self, slot_id: u16) -> (r: (u16, u16))
        requires
            slot_id < 1024,
        ensures
            r.0 as int == slot_off(self@, slot_id as int),
            r.1 as int == slot_len(self@, slot_id as int),
    {
        let off = self.slot_offset(slot_id);
        let offset = self.read_u16(off);
        let len = self.read_u16(off + 2);
        (offset, len)
    }

    /// Writes the (offset, length) entry of a slot.
    fn write_slot(&mut self, slot_id: u16, offset: u16, len: u16)
        requires
            slot_id < 1024,
        ensures
            slot_off(final(self)@, slot_id as int) == offset,
            slot_len(final(self)@, slot_id as int) == len,
            final(self)@.len() == 4096,
            forall|j: int|
                0 <= j < 4096 && (j < entry_pos(slot_id as int) || j >= entry_pos(slot_id as int) + 4)
                    ==> final(self)@[j] == old(self)@[j],
    {
        let off = self.slot_offset(slot_id);
        self.write_u16(off, offset);
        self.write_u16(off + 2, len);
    }

    /// Copies `src` into the page at position `at`.
    fn write_bytes(&mut self, at: usize, src: &[u8])
        requires
            at + src@.len() <= 4096,
        ensures
            final(self)@ == overwrite(old(self)@, at as int, src@),
    {
        let mut k: usize = 0;
        while k < src.len()
            invariant
                k <= src@.len(),
                at + src@.len() <= 4096,
                self@.len() == 4096,
                forall|j: int|
                    0 <= j < 4096 ==> self@[j] == if at <= j < at + k {
                        src@[j - at]
                    } else {
                        old(self)@[j]
                    },
            decreases src@.len() - k,
        {
            self.buf[at + k] = src[k];
            k = k + 1;
        }
        assert(self@ =~= overwrite(old(self)@, at as int, src@));
    }
}

impl SlottedPage {
    /// Stores a tuple in a new slot. Fails, leaving the page as it was,
    /// iff the payload and its directory entry do not fit between
    /// free_start and free_end.
    pub fn insert(&mut self, tuple: &[u8]) -> (r: Option<SlotId>)
        requires
            old(self).wf(),
        ensures
            final(self).wf(),
            (r is Some) <==> free_start_of(old(self)@) + tuple@.len() + 4 <= free_end_of(old(self)@),
            r is None ==> final(self)@ == old(self)@,
            r matches Some(id) ==> {
                &&& id.0 as int == num_slots_of(old(self)@)
                &&& num_slots_of(final(self)@) == num_slots_of(old(self)@) + 1
                &&& free_start_of(final(self)@) == free_start_of(old(self)@) + tuple@.len()
                &&& free_end_of(final(self)@) == free_end_of(old(self)@) - 4
                &&& tuples(final(self)@) == tuples(old(self)@).insert(id.0 as int, tuple@)
                &&& slot_off(final(self)@, id.0 as int) == free_start_of(old(self)@)
                &&& slot_len(final(self)@, id.0 as int) == tuple@.len()
            },
    {
        let num_slots = self.num_slots();
        let free_start = self.free_start();
        let free_end = self.free_end();
        let room = (free_end - free_start) as usize;
        if room < SLOT_ENTRY_SIZE || tuple.len() > room - SLOT_ENTRY_SIZE {
            return None;
        }
        let ghost b0 = self@;
        let offset: u16 = free_start;
        self.write_bytes(offset as usize, tuple);
        self.set_free_start(offset + tuple.len() as u16);
        self.set_num_slots(num_slots + 1);
        self.set_free_end(free_end - SLOT_ENTRY_SIZE as u16);
        self.write_slot(num_slots, offset, tuple.len() as u16);
        let ghost b = self@;
        let ghost n = num_slots as int;
        let ghost e = entry_pos(n);
        assert forall|j: int| 6 <= j < 4096 && !(offset <= j < offset + tuple@.len()) && !(e <= j < e + 4)
            implies b[j] == b0[j] by {}
        assert forall|j: int| offset <= j < offset + tuple@.len() implies b[j] == tuple@[j - offset] by {}
        assert forall|i: int| #![trigger slot_len(b, i)] 0 <= i < n implies slot_off(b, i) == slot_off(b0, i)
            && slot_len(b, i) == slot_len(b0, i) by {
            assert(entry_pos(i) >= e + 4);
        }
        assert forall|i: int| #[trigger] is_live(b0, i) implies payload(b, i) =~= payload(b0, i) by {
            assert(slot_off(b, i) == slot_off(b0, i) && slot_len(b, i) == slot_len(b0, i));
        }
        assert(payload(b, n) =~= tuple@);
        assert forall|i: int| #[trigger] is_live(b, i) <==> (is_live(b0, i) || i == n) by {
            if 0 <= i < n {
                assert(slot_len(b, i) == slot_len(b0, i));
            }
        }
        assert(tuples(b) =~= tuples(b0).insert(n, tuple@));
        Some(SlotId(num_slots))
    }

    /// Moves every live payload, in (offset, slot id) order, to one
    /// contiguous run that starts right after the header, and repoints each
    /// slot there. Slot ids, deleted entries and the directory stay.
    pub fn compact(&mut self)
        requires
            old(self).wf(),
        ensures
            final(self).wf(),
            compact_result(old(self)@, final(self)@),
    {
        let ghost b0 = self@;
        let snap = SlottedPage { buf: self.buf };
        let n = self.num_slots();
        let mut pos: u16 = HEADER_SIZE as u16;
        let mut started = false;
        let mut last_off: u16 = 0;
        let mut last_id: u16 = 0;
        let ghost mut lo: int = -1;
        let ghost mut li: int = -1;
        let mut done = false;
        while !done
            invariant
                snap@ == b0,
                page_wf(b0),
                n as int == num_slots_of(b0),
                started ==> lo == last_off && li == last_id,
                !started ==> lo == -1 && li == -1,
                -1 <= lo <= 4096,
                -1 <= li < 1024,
                compact_inv(b0, self@, lo, li, pos as int),
                packed(b0) ==> self@ == b0,
                pos - 6 + bytes_above(b0, lo, li, n as int) == live_bytes(b0),
                done ==> forall|t: int| #![trigger is_live(b0, t)] !(is_live(b0, t) && key_gt(b0, t, lo, li)),
            decreases 4096 * 1024 + 1024 - (lo * 1024 + li) + if done { 0int } else { 1int },
        {
            let mut found = false;
            let mut best: u16 = 0;
            let mut best_off: u16 = 0;
            let mut best_len: u16 = 0;
            let mut i: u16 = 0;
            let ghost bi = self@;
            while i < n
                invariant
                    self@ == bi,
                    snap@ == b0,
                    page_wf(b0),
                    n as int == num_slots_of(b0),
                    i <= n,
                    started ==> lo == last_off && li == last_id,
                    !started ==> lo == -1 && li == -1,
                    found ==> best < i && is_live(b0, best as int) && key_gt(b0, best as int, lo, li) && best_off
                        == slot_off(b0, best as int) && best_len == slot_len(b0, best as int),
                    found ==> forall|t: int|
                        #![trigger is_live(b0, t)]
                        0 <= t < i && is_live(b0, t) && key_gt(b0, t, lo, li) ==> !key_lt(b0, t, best as int),
                    !found ==> forall|t: int|
                        #![trigger is_live(b0, t)]
                        0 <= t < i ==> !(is_live(b0, t) && key_gt(b0, t, lo, li)),
                decreases n - i,
            {
                let (off, len) = snap.read_slot(i);
                if len != INVALID_SLOT && (!started || off > last_off || (off == last_off && i > last_id)) {
                    assert(is_live(b0, i as int) && key_gt(b0, i as int, lo, li));
                    if !found || off < best_off {
                        found = true;
                        best = i;
                        best_off = off;
                        best_len = len;
                    }
                }
                i = i + 1;
            }
            if !found {
                done = true;
            } else {
                let ghost s = best as int;
                let ghost b1 = self@;
                proof {
                    lemma_bytes_above_step(b0, lo, li, s, n as int);
                    lemma_compact_bound(b0, b1, lo, li, pos as int, s);
                }
                let src = vstd::slice::slice_subrange(
                    snap.buf.as_slice(),
                    best_off as usize,
                    best_off as usize + best_len as usize,
                );
                self.write_bytes(pos as usize, src);
                let ghost b2 = self@;
                self.write_slot(best, pos, best_len);
                proof {
                    lemma_compact_step(b0, b1, b2, self@, lo, li, pos as int, s);
                    if packed(b0) {
                        lemma_compact_step_packed(b0, b2, self@, s, pos as int);
                    }
                }
                pos = pos + best_len;
                started = true;
                last_off = best_off;
                last_id = best;
                proof {
                    lo = best_off as int;
                    li = s;
                }
            }
        }
        let ghost b1 = self@;
        self.set_free_start(pos);
        proof {
            lemma_bytes_above_none(b0, lo, li, n as int);
            lemma_compact_done(b0, b1, self@, lo, li, pos as int);
            if packed(b0) {
                lemma_u16_same_bytes(self@, b0, 0);
                assert(self@ =~= b0);
            }
            if no_empty_tuple(b0) {
                lemma_compact_packed(b0, self@);
            }
        }
    }

    /// Replaces the payload of a live slot, keeping its id. A payload no
    /// longer than the old one is written in place; a longer one goes to
    /// free_start, after compacting the page if the free gap is too small.
    /// Returns false for a slot that is out of range or deleted, or when the
    /// payload does not fit even after compaction.
    pub fn update(&mut self, slot: SlotId, new_tuple: &[u8]) -> (r: bool)
        requires
            old(self).wf(),
        ensures
            final(self).wf(),
            r == (is_live(old(self)@, slot.0 as int) && (new_tuple@.len() <= slot_len(old(self)@, slot.0 as int)
                || free_start_of(old(self)@) + new_tuple@.len() <= free_end_of(old(self)@) || 6 + live_bytes(old(self)@)
                + new_tuple@.len() <= free_end_of(old(self)@))),
            r ==> tuples(final(self)@) == tuples(old(self)@).insert(slot.0 as int, new_tuple@),
            !r ==> tuples(final(self)@) == tuples(old(self)@),
            !is_live(old(self)@, slot.0 as int) ==> final(self)@ == old(self)@,
            num_slots_of(final(self)@) == num_slots_of(old(self)@),
            free_end_of(final(self)@) == free_end_of(old(self)@),
            r && new_tuple@.len() <= slot_len(old(self)@, slot.0 as int) ==> free_start_of(final(self)@)
                == free_start_of(old(self)@) && slot_off(final(self)@, slot.0 as int) == slot_off(old(self)@, slot.0 as int),
            r && new_tuple@.len() > slot_len(old(self)@, slot.0 as int) ==> slot_off(final(self)@, slot.0 as int)
                == free_start_of(final(self)@) - new_tuple@.len(),
            r ==> slot_len(final(self)@, slot.0 as int) == new_tuple@.len(),
            r && new_tuple@.len() > slot_len(old(self)@, slot.0 as int) ==> free_start_of(final(self)@) == new_tuple@.len()
                + if free_start_of(old(self)@) + new_tuple@.len() <= free_end_of(old(self)@) {
                free_start_of(old(self)@)
            } else {
                6 + live_bytes(old(self)@)
            },
    {
        if slot.0 >= self.num_slots() {
            return false;
        }
        let (offset, len) = self.read_slot(slot.0);
        if len == INVALID_SLOT {
            return false;
        }
        let ghost b0 = self@;
        let ghost sid = slot.0 as int;
        if new_tuple.len() <= len as usize {
            self.write_bytes(offset as usize, new_tuple);
            let ghost b1 = self@;
            self.write_slot(slot.0, offset, new_tuple.len() as u16);
            proof {
                lemma_replace_payload(b0, b1, self@, sid, offset as int, new_tuple@);
            }
            return true;
        }
        if self.largest_contiguous_free() < new_tuple.len() {
            self.compact();
            if self.largest_contiguous_free() < new_tuple.len() {
                return false;
            }
        }
        let ghost bc = self@;
        let new_off = self.free_start();
        let new_len = new_tuple.len() as u16;
        self.write_bytes(new_off as usize, new_tuple);
        let ghost b1 = self@;
        self.set_free_start(new_off + new_len);
        let ghost b2 = self@;
        self.write_slot(slot.0, new_off, new_len);
        proof {
            assert(tuples(b0).contains_key(sid));
            assert(tuples(bc).contains_key(sid));
            lemma_move_payload(bc, b1, b2, self@, sid, new_tuple@);
        }
        true
    }

    /// Walks the live slots in ascending slot id order.
    pub fn iter(&self) -> (r: SlottedPageIterator<'_>)
        requires
            self.wf(),
        ensures
            r.page() == self@,
            r.position() == 0,
            r.wf(),
    {
        SlottedPageIterator { sp: self, current_slot: 0 }
    }

    /// The payload of a live slot; `None` for a slot that is out of range
    /// or deleted.
    pub fn read(&self, slot: SlotId) -> (r: Option<&[u8]>)
        requires
            self.wf(),
        ensures
            (r is Some) <==> is_live(self@, slot.0 as int),
            r matches Some(s) ==> s@ == payload(self@, slot.0 as int),
    {
        if slot.0 >= self.num_slots() {
            return None;
        }
        let (offset, len) = self.read_slot(slot.0);
        if len == INVALID_SLOT {
            return None;
        }
        assert(is_live(self@, slot.0 as int));
        Some(vstd::slice::slice_subrange(self.buf.as_slice(), offset as usize, offset as usize + len as usize))
    }

    /// free_end - free_start, or 0 when free_end lies below free_start.
    pub fn largest_contiguous_free(&self) -> (r: usize)
        ensures
            free_end_of(self@) >= free_start_of(self@) ==> r == free_end_of(self@) - free_start_of(self@),
            free_end_of(self@) < free_start_of(self@) ==> r == 0,
    {
        let free_start = self.free_start() as usize;
        let free_end = self.free_end() as usize;
        if free_end >= free_start {
            free_end - free_start
        } else {
            0
        }
    }

    /// Marks a live slot deleted. Returns false, changing nothing, for a
    /// slot that is out of range or already deleted.
    pub fn delete(&mut self, slot: SlotId) -> (r: bool)
        requires
            old(self).wf(),
        ensures
            final(self).wf(),
            r == is_live(old(self)@, slot.0 as int),
            !r ==> final(self)@ == old(self)@,
            r ==> slot_len(final(self)@, slot.0 as int) == 0xFFFF,
            r ==> forall|j: int|
                0 <= j < 4096 && !(entry_pos(slot.0 as int) + 2 <= j < entry_pos(slot.0 as int) + 4) ==> final(self)@[j]
                    == old(self)@[j],
            tuples(final(self)@) == tuples(old(self)@).remove(slot.0 as int),
            free_start_of(final(self)@) == free_start_of(old(self)@),
            free_end_of(final(self)@) == free_end_of(old(self)@),
            num_slots_of(final(self)@) == num_slots_of(old(self)@),
    {
        if slot.0 >= self.num_slots() {
            assert(tuples(self@) =~= tuples(self@).remove(slot.0 as int));
            return false;
        }
        let (offset, len) = self.read_slot(slot.0);
        if len == INVALID_SLOT {
            assert(tuples(self@) =~= tuples(self@).remove(slot.0 as int));
            return false;
        }
        let ghost b0 = self@;
        self.write_slot(slot.0, offset, INVALID_SLOT);
        let ghost b = self@;
        let ghost s = slot.0 as int;
        proof {
            lemma_u16_same_bytes(b, b0, entry_pos(s));
        }
        assert forall|i: int| #![trigger slot_len(b, i)] 0 <= i < num_slots_of(b0) && i != s implies slot_off(b, i)
            == slot_off(b0, i) && slot_len(b, i) == slot_len(b0, i) by {
            assert(entry_pos(i) >= entry_pos(s) + 4 || entry_pos(i) + 4 <= entry_pos(s));
        }
        assert forall|i: int| #[trigger] is_live(b, i) <==> (is_live(b0, i) && i != s) by {
            if 0 <= i < num_slots_of(b0) && i != s {
                assert(slot_len(b, i) == slot_len(b0, i));
            }
        }
        assert forall|i: int| #[trigger] is_live(b, i) implies payload(b, i) =~= payload(b0, i) by {
            assert(slot_off(b, i) == slot_off(b0, i) && slot_len(b, i) == slot_len(b0, i));
        }
        assert(tuples(b) =~= tuples(b0).remove(s));
        true
    }
}

/// A walk over the live slots of a page, in ascending slot id order.
pub struct SlottedPageIterator<'a> {
    sp: &'a SlottedPage,
    current_slot: u16,
}

impl<'a> SlottedPageIterator<'a> {
    /// The bytes of the page walked over.
    pub closed spec fn page(&self) -> Seq<u8> {
        self.sp@
    }

    /// The first slot id not yet looked at.
    pub closed spec fn position(&self) -> int {
        self.current_slot as int
    }

    pub closed spec fn wf(&self) -> bool {
        &&& self.sp.wf()
        &&& self.current_slot <= num_slots_of(self.sp@)
    }

    /// The next live slot at or after the position, with its payload;
    /// `None` once no live slot is left.
    pub fn next(&mut self) -> (r: Option<(SlotId, &'a [u8])>)
        requires
            old(self).wf(),
        ensures
            final(self).wf(),
            final(self).page() == old(self).page(),
            r is None ==> final(self).position() == num_slots_of(old(self).page()) && forall|k: int|
                old(self).position() <= k < num_slots_of(old(self).page()) ==> !#[trigger] is_live(old(self).page(), k),
            r matches Some((id, data)) ==> {
                &&& old(self).position() <= id.0
                &&& is_live(old(self).page(), id.0 as int)
                &&& data@ == payload(old(self).page(), id.0 as int)
                &&& final(self).position() == id.0 + 1
                &&& forall|k: int|
                    old(self).position() <= k < id.0 ==> !#[trigger] is_live(old(self).page(), k)
            },
    {
        let n = self.sp.num_slots();
        while self.current_slot < n
            invariant
                self.sp == old(self).sp,
                self.sp.wf(),
                n as int == num_slots_of(self.sp@),
                old(self).current_slot <= self.current_slot <= n,
                forall|k: int| old(self).current_slot <= k < self.current_slot ==> !#[trigger] is_live(self.sp@, k),
            decreases n - self.current_slot,
        {
            let slot_id = self.current_slot;
            self.current_slot = self.current_slot + 1;
            let (offset, len) = self.sp.read_slot(slot_id);
            if len != INVALID_SLOT {
                let sp: &'a SlottedPage = self.sp;
                let data = vstd::slice::slice_subrange(sp.buf.as_slice(), offset as usize, offset as usize + len as usize);
                return Some((SlotId(slot_id), data));
            }
        }
        None
    }
}

} // verus!
