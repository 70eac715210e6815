//! Slotted pages.
//!
//! A page is a buffer of fixed size: a header of 24 bytes, then the slot directory, which grows
//! towards the end, and the row data, which grows from the end towards the directory. All numbers
//! are little-endian.
//!
//! ```text
//! page_id u64 (0) | type u8 (8) | start of row data u16 (9) | slot count u16 (11) | crc32 u32 (13)
//! ```
//!
//! A slot is the offset and the length of a row, two bytes each. A deleted slot holds two zeros;
//! the bytes of its row stay where they are.

use vstd::prelude::*;
use vstd::string::StringExecFns;
use crate::bytes::{copy_into, get_le, le_at, le_bytes, lemma_le_bytes_len, lemma_le_value_bound,
    lemma_le_value_of_bytes, lemma_pow256, pow256, put_le, splice};
use crate::error::{corruption, DbResult, Error, ErrorModel};
use crate::text::{decimal, digits10, hex8, hex_text};

verus! {

/// The number of a page in its file.
pub type PageId = u64;

/// The number of a slot in its page.
pub type SlotIndex = u16;

const PAGE_ID_OFF: usize = 0;

const PAGE_TYPE_OFF: usize = 8;

const FREE_SPACE_OFF: usize = 9;

const SLOT_COUNT_OFF: usize = 11;

const CHECKSUM_OFF: usize = 13;

/// The end of the checksum field.
pub const CHECKSUM_END: usize = 17;

/// The bytes before the slot directory.
pub const PAGE_HEADER_SIZE: usize = 24;

/// The bytes of one slot: an offset and a length.
pub const SLOT_SIZE: usize = 4;

/// The type of an unused page.
pub const PAGE_TYPE_FREE: u8 = 0;

/// The type of a page of rows.
pub const PAGE_TYPE_DATA: u8 = 1;

// ── What the bytes of a page mean ──

/// The page number in the header.
pub open spec fn page_id_in(s: Seq<u8>) -> nat {
    le_at(s, 0, 8)
}

/// The page type in the header.
pub open spec fn page_type_in(s: Seq<u8>) -> u8 {
    s[8]
}

/// Where the row data starts.
pub open spec fn data_start(s: Seq<u8>) -> nat {
    le_at(s, 9, 2)
}

/// The number of slots, deleted ones included.
pub open spec fn slot_count_in(s: Seq<u8>) -> nat {
    le_at(s, 11, 2)
}

/// The checksum in the header.
pub open spec fn stored_checksum(s: Seq<u8>) -> nat {
    le_at(s, 13, 4)
}

/// Where the slot directory ends.
pub open spec fn dir_end(s: Seq<u8>) -> int {
    24 + 4 * slot_count_in(s) as int
}

/// The bytes between the directory, with one slot added, and the row data.
pub open spec fn free_bytes(s: Seq<u8>) -> int {
    if data_start(s) <= dir_end(s) + 4 {
        0
    } else {
        data_start(s) - dir_end(s) - 4
    }
}

/// The offset in slot `i`.
pub open spec fn slot_off(s: Seq<u8>, i: int) -> nat {
    le_at(s, 24 + 4 * i, 2)
}

/// The length in slot `i`.
pub open spec fn slot_len(s: Seq<u8>, i: int) -> nat {
    le_at(s, 26 + 4 * i, 2)
}

/// Whether slot `i` is deleted.
pub open spec fn is_dead(s: Seq<u8>, i: int) -> bool {
    slot_off(s, i) == 0 && slot_len(s, i) == 0
}

/// The row in slot `i`, or nothing where the slot is deleted.
pub open spec fn row_at(s: Seq<u8>, i: int) -> Option<Seq<u8>> {
    if is_dead(s, i) {
        None
    } else {
        Some(s.subrange(slot_off(s, i) as int, (slot_off(s, i) + slot_len(s, i)) as int))
    }
}

/// The rows of a page, slot by slot.
pub open spec fn rows_of(s: Seq<u8>) -> Seq<Option<Seq<u8>>> {
    Seq::new(slot_count_in(s), |i: int| row_at(s, i))
}

/// The row that a slot number finds: nothing where the slot is deleted or does not exist.
pub open spec fn row_in(s: Seq<u8>, slot: int) -> Option<Seq<u8>> {
    if 0 <= slot < slot_count_in(s) {
        row_at(s, slot)
    } else {
        None
    }
}

/// Whether slot `i` is a live slot.
pub open spec fn is_live(s: Seq<u8>, i: int) -> bool {
    0 <= i < slot_count_in(s) && !is_dead(s, i)
}

/// Whether the rows in slots `i` and `j` share no byte.
pub open spec fn apart(s: Seq<u8>, i: int, j: int) -> bool {
    slot_off(s, i) + slot_len(s, i) <= slot_off(s, j) || slot_off(s, j) + slot_len(s, j)
        <= slot_off(s, i)
}

/// The layout of a page: header and directory lie in the page, and the live rows lie in the data
/// region, apart from each other.
pub open spec fn page_wf(s: Seq<u8>) -> bool {
    &&& s.len() >= 17
    &&& slot_count_in(s) > 0 ==> dir_end(s) <= s.len()
    &&& data_start(s) <= s.len()
    &&& forall|i: int| #[trigger]
        is_live(s, i) ==> {
            &&& dir_end(s) <= slot_off(s, i)
            &&& data_start(s) <= slot_off(s, i)
            &&& slot_off(s, i) + slot_len(s, i) <= s.len()
            &&& slot_off(s, i) + slot_len(s, i) <= 0xffff
        }
    &&& forall|i: int, j: int|
        i != j && #[trigger] is_live(s, i) && #[trigger] is_live(s, j) ==> apart(s, i, j)
}

/// Whether `slot` can be read: where it exists, it lies in the page, and so does its row.
pub open spec fn slot_readable(s: Seq<u8>, slot: int) -> bool {
    &&& s.len() >= 17
    &&& 0 <= slot < slot_count_in(s) ==> 28 + 4 * slot <= s.len()
    &&& is_live(s, slot) ==> {
        &&& slot_off(s, slot) + slot_len(s, slot) <= s.len()
        &&& slot_off(s, slot) + slot_len(s, slot) <= 0xffff
    }
}

/// The name of the CRC-32 (IEEE) of some bytes.
pub uninterp spec fn crc32(bytes: Seq<u8>) -> u32;

/// Runs `crc32fast::Hasher` (`new`, `update` on each part, `finalize`). Each update goes on from
/// the state that the one before left, so the result is the checksum of the parts one after the
/// other, and depends on those bytes alone.
#[verifier::external_body]
fn crc32_of_parts(head: &[u8], tail: &[u8]) -> (r: u32)
    ensures
        r == crc32(head@ + tail@),
{
    let mut h = crc32fast::Hasher::new();
    h.update(head);
    h.update(tail);
    h.finalize()
}

/// The checksum that a page should carry: that of all its bytes but the checksum field.
pub open spec fn checksum_in(s: Seq<u8>) -> u32 {
    crc32(s.subrange(0, 13) + s.subrange(17, s.len() as int))
}

/// Whether a page carries the checksum of its bytes. One without room for it does not.
pub open spec fn sealed(s: Seq<u8>) -> bool {
    s.len() >= 17 && stored_checksum(s) == checksum_in(s)
}

/// The message for a page whose checksum is wrong.
pub open spec fn mismatch_text(s: Seq<u8>) -> Seq<char> {
    "page "@ + digits10(page_id_in(s)) + " checksum mismatch: stored="@ + hex_text(
        stored_checksum(s) as u32,
    ) + ", computed="@ + hex_text(checksum_in(s))
}

/// An empty page of rows, with number `id`, whose other bytes are zero.
pub open spec fn is_fresh(s: Seq<u8>, id: int) -> bool {
    &&& page_wf(s)
    &&& sealed(s)
    &&& page_id_in(s) == id
    &&& page_type_in(s) == PAGE_TYPE_DATA
    &&& data_start(s) == s.len() % 0x10000
    &&& slot_count_in(s) == 0
    &&& forall|k: int| 17 <= k < s.len() ==> s[k] == 0
}

/// The first deleted slot from `i` on, or the slot count where there is none.
pub open spec fn first_dead_from(s: Seq<u8>, i: int) -> int
    decreases slot_count_in(s) - i,
{
    if i >= slot_count_in(s) {
        slot_count_in(s) as int
    } else if is_dead(s, i) {
        i
    } else {
        first_dead_from(s, i + 1)
    }
}

/// The slot that the next row gets: the first deleted one, or a new one.
pub open spec fn next_slot(s: Seq<u8>) -> int {
    first_dead_from(s, 0)
}

/// Whether a row of `len` bytes has room: an empty row needs a slot alone.
pub open spec fn can_insert(s: Seq<u8>, len: nat) -> bool {
    if len > 0 {
        len <= free_bytes(s)
    } else {
        dir_end(s) + (if next_slot(s) == slot_count_in(s) {
            4int
        } else {
            0
        }) <= data_start(s)
    }
}

/// The rows with slot `slot` set to `row`; a slot past the last is added.
pub open spec fn set_row(
    rows: Seq<Option<Seq<u8>>>,
    slot: int,
    row: Option<Seq<u8>>,
) -> Seq<Option<Seq<u8>>> {
    if slot == rows.len() {
        rows.push(row)
    } else {
        rows.update(slot, row)
    }
}

/// What every change of the rows keeps: the size, the number and the type of the page, its
/// layout, and a right checksum.
pub open spec fn kept(s: Seq<u8>, t: Seq<u8>) -> bool {
    &&& t.len() == s.len()
    &&& page_wf(t)
    &&& sealed(t)
    &&& page_id_in(t) == page_id_in(s)
    &&& page_type_in(t) == page_type_in(s)
}

/// What inserting `row` makes of page `s`: page `t`, and the slot of the row.
pub open spec fn inserted(s: Seq<u8>, row: Seq<u8>, t: Seq<u8>, slot: Option<SlotIndex>) -> bool {
    match slot {
        Some(i) => {
            &&& can_insert(s, row.len())
            &&& i == next_slot(s)
            &&& kept(s, t)
            &&& data_start(t) == data_start(s) - row.len()
            &&& rows_of(t) == set_row(rows_of(s), i as int, Some(row))
        },
        None => !can_insert(s, row.len()) && t == s,
    }
}

/// What deleting `slot` makes of page `s`: page `t`, and whether there was a row. Only the entry of
/// the slot and the checksum change: the bytes of the row stay where they are.
pub open spec fn deleted(s: Seq<u8>, slot: int, t: Seq<u8>, done: bool) -> bool {
    &&& done == (row_in(s, slot) is Some)
    &&& if done {
        &&& kept(s, t)
        &&& data_start(t) == data_start(s)
        &&& rows_of(t) == rows_of(s).update(slot, None)
        &&& forall|k: int|
            0 <= k < s.len() && !(13 <= k < 17) && !(24 + 4 * slot <= k < 28 + 4 * slot)
                ==> #[trigger] t[k] == s[k]
    } else {
        t == s
    }
}

/// Result of an in-place update attempt on a slotted page.
#[derive(Debug, Clone, Copy, PartialEq, Eq, Structural)]
pub enum UpdateResult {
    /// Row updated in place: same slot, same page.
    Updated,
    /// Slot not found or already deleted.
    NotFound,
    /// The new row is too large for this page; it has to move to another one.
    NotEnoughSpace,
}

/// Whether the row in live slot `slot` can become one of `len` bytes: in its own place, or in the
/// free region, counting the bytes that the old row gives up.
pub open spec fn can_update(s: Seq<u8>, slot: int, len: nat) -> bool {
    ||| len <= slot_len(s, slot)
    ||| len <= free_bytes(s) + slot_len(s, slot) && dir_end(s) + len <= data_start(s)
}

/// What updating `slot` to `row` makes of page `s`.
pub open spec fn updated(s: Seq<u8>, slot: int, row: Seq<u8>, t: Seq<u8>, r: UpdateResult) -> bool {
    if row_in(s, slot) is None {
        r == UpdateResult::NotFound && t == s
    } else if !can_update(s, slot, row.len()) {
        r == UpdateResult::NotEnoughSpace && t == s
    } else {
        &&& r == UpdateResult::Updated
        &&& kept(s, t)
        &&& data_start(t) == if row.len() <= slot_len(s, slot) {
            data_start(s) as int
        } else {
            data_start(s) - row.len()
        }
        &&& rows_of(t) == rows_of(s).update(slot, Some(row))
    }
}

// ── How writes change what the bytes mean ──

/// The same bytes hold the same number.
pub proof fn lemma_same_number(s: Seq<u8>, t: Seq<u8>, lo: int, n: int)
    requires
        s.len() == t.len(),
        0 <= lo,
        0 <= n,
        lo + n <= s.len(),
        forall|k: int| lo <= k < lo + n ==> s[k] == t[k],
    ensures
        le_at(s, lo, n) == le_at(t, lo, n),
        s.subrange(lo, lo + n) == t.subrange(lo, lo + n),
{
    assert(s.subrange(lo, lo + n) =~= t.subrange(lo, lo + n));
}

proof fn lemma_number_bounds(s: Seq<u8>, lo: int)
    requires
        0 <= lo,
        lo + 2 <= s.len(),
    ensures
        le_at(s, lo, 2) <= 0xffff,
{
    lemma_le_value_bound(s.subrange(lo, lo + 2));
    lemma_pow256();
}

/// A number that was written is read back.
proof fn lemma_put(s: Seq<u8>, off: int, n: nat, v: nat)
    requires
        0 <= off,
        off + n <= s.len(),
        v < pow256(n),
    ensures
        le_at(splice(s, off, le_bytes(v, n)), off, n as int) == v,
        le_bytes(v, n).len() == n,
{
    lemma_le_bytes_len(v, n);
    lemma_le_value_of_bytes(v, n);
    assert(splice(s, off, le_bytes(v, n)).subrange(off, off + n) =~= le_bytes(v, n));
}

/// Whether the bytes of `t` are those of `s` but for the header fields that follow the page type,
/// slot `slot` and the bytes from `lo` to `hi`.
pub open spec fn same_but(s: Seq<u8>, t: Seq<u8>, slot: int, lo: int, hi: int) -> bool {
    &&& t.len() == s.len()
    &&& forall|k: int|
        0 <= k < s.len() && !(9 <= k < 17) && !(24 + 4 * slot <= k < 28 + 4 * slot) && !(lo <= k
            < hi) ==> #[trigger] t[k] == s[k]
}

/// Putting `row` at `off` for `slot`, clear of the directory and the other rows, keeps the layout
/// and changes that slot's row alone.
pub proof fn lemma_place_row(s: Seq<u8>, t: Seq<u8>, slot: int, off: int, row: Seq<u8>)
    requires
        page_wf(s),
        0 <= slot <= slot_count_in(s),
        slot_count_in(t) == if slot == slot_count_in(s) {
            slot + 1
        } else {
            slot_count_in(s) as int
        },
        dir_end(t) <= off,
        data_start(t) <= off,
        data_start(t) <= data_start(s),
        off + row.len() <= s.len(),
        off + row.len() <= 0xffff,
        slot_off(t, slot) == off,
        slot_len(t, slot) == row.len(),
        t.subrange(off, off + row.len()) == row,
        same_but(s, t, slot, off, off + row.len()),
        forall|i: int| #[trigger]
            is_live(s, i) && i != slot ==> {
                &&& off + row.len() <= slot_off(s, i) || slot_off(s, i) + slot_len(s, i) <= off
                &&& dir_end(t) <= slot_off(s, i)
            },
        dir_end(t) <= s.len(),
    ensures
        page_wf(t),
        rows_of(t) == set_row(rows_of(s), slot, Some(row)),
        page_id_in(t) == page_id_in(s),
        page_type_in(t) == page_type_in(s),
{
    lemma_same_number(s, t, 0, 8);
    assert forall|i: int| 0 <= i < slot_count_in(s) && i != slot implies #[trigger] slot_off(t, i)
        == slot_off(s, i) && slot_len(t, i) == slot_len(s, i) by {
        lemma_same_number(s, t, 24 + 4 * i, 2);
        lemma_same_number(s, t, 26 + 4 * i, 2);
    }
    assert forall|i: int| is_live(t, i) && i != slot implies is_live(s, i) && slot_off(t, i)
        == slot_off(s, i) && slot_len(t, i) == slot_len(s, i) by {
        assert(0 <= i < slot_count_in(s));
        assert(slot_off(t, i) == slot_off(s, i));
    }
    assert forall|i: int| #[trigger] is_live(t, i) implies {
        &&& dir_end(t) <= slot_off(t, i)
        &&& data_start(t) <= slot_off(t, i)
        &&& slot_off(t, i) + slot_len(t, i) <= t.len()
        &&& slot_off(t, i) + slot_len(t, i) <= 0xffff
    } by {
        if i != slot {
            assert(is_live(s, i));
        }
    }
    assert forall|i: int, j: int|
        i != j && #[trigger] is_live(t, i) && #[trigger] is_live(t, j) implies apart(t, i, j) by {
        if i != slot {
            assert(is_live(s, i));
        }
        if j != slot {
            assert(is_live(s, j));
        }
    }
    let want = set_row(rows_of(s), slot, Some(row));
    assert forall|i: int| 0 <= i < slot_count_in(t) implies row_at(t, i) == want[i] by {
        if i != slot {
            assert(slot_off(t, i) == slot_off(s, i));
            assert(want[i] == row_at(s, i));
            if !is_dead(s, i) {
                assert(is_live(s, i));
                lemma_same_number(s, t, slot_off(s, i) as int, slot_len(s, i) as int);
            }
        }
    }
    assert(rows_of(t) =~= want);
}

/// Clearing slot `slot` keeps the layout and empties that slot alone.
proof fn lemma_clear_slot(s: Seq<u8>, t: Seq<u8>, slot: int)
    requires
        page_wf(s),
        0 <= slot < slot_count_in(s),
        slot_count_in(t) == slot_count_in(s),
        data_start(t) == data_start(s),
        slot_off(t, slot) == 0,
        slot_len(t, slot) == 0,
        same_but(s, t, slot, 0, 0),
    ensures
        page_wf(t),
        rows_of(t) == rows_of(s).update(slot, None),
        page_id_in(t) == page_id_in(s),
        page_type_in(t) == page_type_in(s),
{
    lemma_same_number(s, t, 0, 8);
    assert forall|i: int| 0 <= i < slot_count_in(s) && i != slot implies #[trigger] slot_off(t, i)
        == slot_off(s, i) && slot_len(t, i) == slot_len(s, i) by {
        lemma_same_number(s, t, 24 + 4 * i, 2);
        lemma_same_number(s, t, 26 + 4 * i, 2);
    }
    assert forall|i: int| is_live(t, i) implies is_live(s, i) && slot_off(t, i) == slot_off(s, i)
        && slot_len(t, i) == slot_len(s, i) by {
        assert(i != slot);
        assert(slot_off(t, i) == slot_off(s, i));
    }
    assert forall|i: int, j: int|
        i != j && #[trigger] is_live(t, i) && #[trigger] is_live(t, j) implies apart(t, i, j) by {
        assert(is_live(s, i) && is_live(s, j));
    }
    let want = rows_of(s).update(slot, None);
    assert forall|i: int| 0 <= i < slot_count_in(t) implies row_at(t, i) == want[i] by {
        if i != slot {
            assert(slot_off(t, i) == slot_off(s, i));
            if !is_dead(s, i) {
                assert(is_live(s, i));
                lemma_same_number(s, t, slot_off(s, i) as int, slot_len(s, i) as int);
            }
        }
    }
    assert(rows_of(t) =~= want);
}

proof fn lemma_first_dead(s: Seq<u8>, i: int)
    requires
        0 <= i <= slot_count_in(s),
    ensures
        i <= first_dead_from(s, i) <= slot_count_in(s),
        first_dead_from(s, i) < slot_count_in(s) ==> is_dead(s, first_dead_from(s, i)),
        forall|j: int| i <= j < first_dead_from(s, i) ==> !is_dead(s, j),
    decreases slot_count_in(s) - i,
{
    if i < slot_count_in(s) && !is_dead(s, i) {
        lemma_first_dead(s, i + 1);
    }
}

/// A new checksum changes nothing but the checksum.
pub proof fn lemma_seal_keeps(s: Seq<u8>, t: Seq<u8>)
    requires
        s.len() >= 17,
        t.len() == s.len(),
        forall|k: int| 0 <= k < s.len() && !(13 <= k < 17) ==> #[trigger] t[k] == s[k],
    ensures
        page_id_in(t) == page_id_in(s),
        page_type_in(t) == page_type_in(s),
        data_start(t) == data_start(s),
        slot_count_in(t) == slot_count_in(s),
        forall|lo: int, hi: int|
            0 <= lo <= hi <= s.len() && (hi <= 13 || 17 <= lo) ==> #[trigger] t.subrange(lo, hi)
                == s.subrange(lo, hi),
        checksum_in(t) == checksum_in(s),
{
    assert forall|lo: int, hi: int|
        0 <= lo <= hi <= s.len() && (hi <= 13 || 17 <= lo) implies #[trigger] t.subrange(lo, hi)
        == s.subrange(lo, hi) by {
        assert(t.subrange(lo, hi) =~= s.subrange(lo, hi));
    }
    assert(t.subrange(0, 8) == s.subrange(0, 8));
    assert(t.subrange(9, 11) == s.subrange(9, 11));
    assert(t.subrange(11, 13) == s.subrange(11, 13));
    assert(t.subrange(0, 13) == s.subrange(0, 13));
    assert(t.subrange(17, t.len() as int) == s.subrange(17, s.len() as int));
}

// ── Page logic on raw bytes ──

/// The page number in the header.
pub fn page_id_of(buf: &[u8]) -> (r: PageId)
    requires
        buf@.len() >= 17,
    ensures
        r == page_id_in(buf@),
{
    get_le(buf, PAGE_ID_OFF, 8)
}

/// The page type in the header.
pub fn page_type_of(buf: &[u8]) -> (r: u8)
    requires
        buf@.len() >= 17,
    ensures
        r == page_type_in(buf@),
{
    buf[PAGE_TYPE_OFF]
}

fn get_u16(buf: &[u8], off: usize) -> (r: u16)
    requires
        off + 2 <= buf@.len(),
    ensures
        r == le_at(buf@, off as int, 2),
{
    proof {
        lemma_pow256();
    }
    get_le(buf, off, 2) as u16
}

fn put_u16(buf: &mut [u8], off: usize, v: u16)
    requires
        off + 2 <= old(buf)@.len(),
    ensures
        final(buf)@ == splice(old(buf)@, off as int, le_bytes(v as nat, 2)),
        final(buf)@.len() == old(buf)@.len(),
        le_at(final(buf)@, off as int, 2) == v,
        forall|k: int|
            0 <= k < old(buf)@.len() && !(off <= k < off + 2) ==> #[trigger] final(buf)@[k] == old(
                buf,
            )@[k],
{
    proof {
        lemma_pow256();
        lemma_put(buf@, off as int, 2, v as nat);
    }
    put_le(buf, off, 2, v as u64);
}

/// The number of slots, deleted ones included.
pub fn slot_count_of(buf: &[u8]) -> (r: u16)
    requires
        buf@.len() >= 17,
    ensures
        r == slot_count_in(buf@),
{
    get_u16(buf, SLOT_COUNT_OFF)
}

/// The bytes that are free for a row and its new slot.
pub fn free_space_of(buf: &[u8]) -> (r: usize)
    requires
        buf@.len() >= 17,
    ensures
        r == free_bytes(buf@),
{
    let dir_end: usize = PAGE_HEADER_SIZE + (slot_count_of(buf) as usize) * SLOT_SIZE;
    let data_start: usize = get_u16(buf, FREE_SPACE_OFF) as usize;
    if data_start <= dir_end + SLOT_SIZE {
        0
    } else {
        data_start - dir_end - SLOT_SIZE
    }
}

/// The offset and the length in slot `idx`.
pub fn slot_of(buf: &[u8], idx: SlotIndex) -> (r: (u16, u16))
    requires
        28 + 4 * idx <= buf@.len(),
    ensures
        r.0 == slot_off(buf@, idx as int),
        r.1 == slot_len(buf@, idx as int),
{
    let base: usize = PAGE_HEADER_SIZE + (idx as usize) * SLOT_SIZE;
    (get_u16(buf, base), get_u16(buf, base + 2))
}

/// The row in `slot`.
pub fn read_row_from(buf: &[u8], slot: SlotIndex) -> (r: Option<&[u8]>)
    requires
        slot_readable(buf@, slot as int),
    ensures
        match r {
            Some(row) => row_in(buf@, slot as int) == Some(row@),
            None => row_in(buf@, slot as int) is None,
        },
{
    if slot >= slot_count_of(buf) {
        return None;
    }
    let (off, len) = slot_of(buf, slot);
    if off == 0 && len == 0 {
        return None;
    }
    assert(is_live(buf@, slot as int));
    let lo: usize = off as usize;
    let hi: usize = lo + len as usize;
    Some(&buf[lo..hi])
}

/// The slot that the next row gets.
fn find_slot(buf: &[u8]) -> (r: u16)
    requires
        page_wf(buf@),
    ensures
        r == next_slot(buf@),
{
    let count: u16 = slot_count_of(buf);
    let mut i: u16 = 0;
    while i < count
        invariant
            page_wf(buf@),
            i <= count,
            count == slot_count_in(buf@),
            next_slot(buf@) == first_dead_from(buf@, i as int),
        decreases count - i,
    {
        let (off, len) = slot_of(buf, i);
        if off == 0 && len == 0 {
            return i;
        }
        i += 1;
    }
    count
}

/// Stores the checksum of the page in its header.
pub fn update_checksum_of(buf: &mut [u8])
    requires
        old(buf)@.len() >= 17,
    ensures
        final(buf)@.len() == old(buf)@.len(),
        sealed(final(buf)@),
        forall|k: int|
            0 <= k < old(buf)@.len() && !(13 <= k < 17) ==> #[trigger] final(buf)@[k] == old(
                buf,
            )@[k],
{
    let crc: u32 = checksum_of(buf);
    let ghost before = buf@;
    put_le(buf, CHECKSUM_OFF, 4, crc as u64);
    proof {
        lemma_pow256();
        lemma_put(before, 13, 4, crc as nat);
        lemma_seal_keeps(before, buf@);
    }
}

fn checksum_of(buf: &[u8]) -> (r: u32)
    requires
        buf@.len() >= 17,
    ensures
        r == checksum_in(buf@),
{
    let n: usize = buf.len();
    crc32_of_parts(&buf[0..CHECKSUM_OFF], &buf[CHECKSUM_END..n])
}

/// Checks the checksum in the header against the bytes.
pub fn verify_checksum_of(buf: &[u8]) -> (r: DbResult<()>)
    requires
        buf@.len() >= 17,
    ensures
        match r {
            Ok(_) => sealed(buf@),
            Err(e) => !sealed(buf@) && e@ == ErrorModel::Corruption(mismatch_text(buf@)),
        },
{
    proof {
        lemma_pow256();
    }
    let stored: u32 = get_le(buf, CHECKSUM_OFF, 4) as u32;
    let computed: u32 = checksum_of(buf);
    if stored != computed {
        let message: String = "page ".to_owned().concat(decimal(page_id_of(buf)).as_str()).concat(
            " checksum mismatch: stored=",
        ).concat(hex8(stored).as_str()).concat(", computed=").concat(hex8(computed).as_str());
        return Err(Error::Corruption(message));
    }
    Ok(())
}

/// Adds `row` to the page, in the first deleted slot or in a new one.
#[verifier::rlimit(60)]
pub fn insert_row_into(buf: &mut [u8], row: &[u8]) -> (r: Option<SlotIndex>)
    requires
        page_wf(old(buf)@),
    ensures
        inserted(old(buf)@, row@, final(buf)@, r),
{
    let ghost s = buf@;
    let total: usize = buf.len();
    let len: usize = row.len();
    let count: u16 = slot_count_of(buf);
    let slot: u16 = find_slot(buf);
    let start: usize = get_u16(buf, FREE_SPACE_OFF) as usize;
    let dir_end: usize = PAGE_HEADER_SIZE + (count as usize) * SLOT_SIZE;
    if len > 0 {
        if free_space_of(buf) < len {
            return None;
        }
    } else {
        let needed: usize = if slot == count { dir_end + SLOT_SIZE } else { dir_end };
        if needed > start {
            return None;
        }
    }
    proof {
        lemma_first_dead(s, 0);
        lemma_number_bounds(s, 9);
        assert(data_start(s) == start);
    }
    let new_start: usize = start - len;
    copy_into(buf, new_start, row);
    let ghost s1 = buf@;
    put_u16(buf, FREE_SPACE_OFF, new_start as u16);
    let ghost s2 = buf@;
    let entry: usize = PAGE_HEADER_SIZE + (slot as usize) * SLOT_SIZE;
    put_u16(buf, entry, new_start as u16);
    let ghost s3 = buf@;
    put_u16(buf, entry + 2, len as u16);
    let ghost s4 = buf@;
    if slot == count {
        put_u16(buf, SLOT_COUNT_OFF, count + 1);
    }
    let ghost s5 = buf@;
    update_checksum_of(buf);
    proof {
        let t = buf@;
        lemma_seal_keeps(s5, t);
        lemma_same_number(s2, s5, 9, 2);
        assert(s.subrange(11, 13) =~= s4.subrange(11, 13));
        lemma_same_number(s3, t, entry as int, 2);
        lemma_same_number(s4, t, entry + 2, 2);
        assert(t.subrange(new_start as int, new_start + len) =~= row@);
        lemma_place_row(s, t, slot as int, new_start as int, row@);
    }
    Some(slot)
}

/// Deletes the row in `slot`; its bytes stay where they are.
pub fn delete_row_from(buf: &mut [u8], slot: SlotIndex) -> (r: bool)
    requires
        page_wf(old(buf)@),
    ensures
        deleted(old(buf)@, slot as int, final(buf)@, r),
{
    if slot >= slot_count_of(buf) {
        return false;
    }
    let (off, len) = slot_of(buf, slot);
    if off == 0 && len == 0 {
        return false;
    }
    let ghost s = buf@;
    let entry: usize = PAGE_HEADER_SIZE + (slot as usize) * SLOT_SIZE;
    put_u16(buf, entry, 0);
    let ghost s1 = buf@;
    put_u16(buf, entry + 2, 0);
    let ghost s2 = buf@;
    update_checksum_of(buf);
    proof {
        let t = buf@;
        lemma_seal_keeps(s2, t);
        lemma_same_number(s, s2, 9, 2);
        lemma_same_number(s, s2, 11, 2);
        lemma_same_number(s1, t, entry as int, 2);
        lemma_same_number(s2, t, entry + 2, 2);
        lemma_clear_slot(s, t, slot as int);
    }
    true
}

/// Replaces the row in `slot`.
///
/// A row that is no longer than the old one overwrites it. A longer one goes to the free region,
/// and the slot is pointed there. Where there is no room the page stays as it is.
#[verifier::rlimit(60)]
pub fn update_row_in(buf: &mut [u8], slot: SlotIndex, new_data: &[u8]) -> (r: UpdateResult)
    requires
        page_wf(old(buf)@),
    ensures
        updated(old(buf)@, slot as int, new_data@, final(buf)@, r),
{
    let count: u16 = slot_count_of(buf);
    if slot >= count {
        return UpdateResult::NotFound;
    }
    let (old_off, old_len) = slot_of(buf, slot);
    if old_off == 0 && old_len == 0 {
        return UpdateResult::NotFound;
    }
    let ghost s = buf@;
    assert(is_live(s, slot as int));
    let new_len: usize = new_data.len();
    let entry: usize = PAGE_HEADER_SIZE + (slot as usize) * SLOT_SIZE;
    if new_len <= old_len as usize {
        copy_into(buf, old_off as usize, new_data);
        let ghost s1 = buf@;
        put_u16(buf, entry + 2, new_len as u16);
        let ghost s2 = buf@;
        update_checksum_of(buf);
        proof {
            let t = buf@;
            lemma_seal_keeps(s2, t);
            lemma_same_number(s, s2, 9, 2);
            lemma_same_number(s, s2, 11, 2);
            lemma_same_number(s, t, entry as int, 2);
            lemma_same_number(s2, t, entry + 2, 2);
            assert(t.subrange(old_off as int, old_off + new_len) =~= new_data@);
            assert forall|i: int| #[trigger] is_live(s, i) && i != slot implies old_off + new_len
                <= slot_off(s, i) || slot_off(s, i) + slot_len(s, i) <= old_off by {
                assert(apart(s, i, slot as int));
            }
            lemma_place_row(s, t, slot as int, old_off as int, new_data@);
        }
        return UpdateResult::Updated;
    }
    let effective_free: usize = free_space_of(buf) + old_len as usize;
    let start: usize = get_u16(buf, FREE_SPACE_OFF) as usize;
    let dir_end: usize = PAGE_HEADER_SIZE + (count as usize) * SLOT_SIZE;
    if effective_free < new_len || start < dir_end || start - dir_end < new_len {
        return UpdateResult::NotEnoughSpace;
    }
    proof {
        lemma_number_bounds(s, 9);
        assert(data_start(s) == start);
    }
    let new_start: usize = start - new_len;
    copy_into(buf, new_start, new_data);
    put_u16(buf, FREE_SPACE_OFF, new_start as u16);
    let ghost s2 = buf@;
    put_u16(buf, entry, new_start as u16);
    let ghost s3 = buf@;
    put_u16(buf, entry + 2, new_len as u16);
    let ghost s4 = buf@;
    update_checksum_of(buf);
    proof {
        let t = buf@;
        lemma_seal_keeps(s4, t);
        lemma_same_number(s2, s4, 9, 2);
        lemma_same_number(s, s4, 11, 2);
        lemma_same_number(s3, t, entry as int, 2);
        lemma_same_number(s4, t, entry + 2, 2);
        assert(t.subrange(new_start as int, new_start + new_len) =~= new_data@);
        lemma_place_row(s, t, slot as int, new_start as int, new_data@);
    }
    UpdateResult::Updated
}

/// Makes a buffer an empty page of rows with number `page_id`.
pub fn init_page_buf(buf: &mut [u8], page_id: PageId)
    requires
        old(buf)@.len() >= 17,
    ensures
        final(buf)@.len() == old(buf)@.len(),
        is_fresh(final(buf)@, page_id as int),
{
    let n: usize = buf.len();
    let mut i: usize = 0;
    while i < n
        invariant
            i <= n,
            buf@.len() == n == old(buf)@.len(),
            forall|k: int| 0 <= k < i ==> buf@[k] == 0,
        decreases n - i,
    {
        buf[i] = 0;
        i += 1;
    }
    put_le(buf, PAGE_ID_OFF, 8, page_id);
    proof {
        lemma_pow256();
        lemma_put(Seq::new(n as nat, |k: int| 0u8), 0, 8, page_id as nat);
        lemma_le_bytes_len(page_id as nat, 8);
    }
    let ghost s1 = buf@;
    assert(page_id_in(s1) == page_id) by {
        lemma_le_value_of_bytes(page_id as nat, 8);
        assert(s1.subrange(0, 8) =~= le_bytes(page_id as nat, 8));
    }
    buf[PAGE_TYPE_OFF] = PAGE_TYPE_DATA;
    put_u16(buf, FREE_SPACE_OFF, (n % 0x10000) as u16);
    let ghost s2 = buf@;
    put_u16(buf, SLOT_COUNT_OFF, 0);
    let ghost s3 = buf@;
    update_checksum_of(buf);
    proof {
        let t = buf@;
        lemma_seal_keeps(s3, t);
        lemma_same_number(s1, s3, 0, 8);
        lemma_same_number(s2, s3, 9, 2);
    }
}

/// Where the row data starts.
pub fn data_start_of(buf: &[u8]) -> (r: u16)
    requires
        buf@.len() >= 17,
    ensures
        r == data_start(buf@),
{
    get_u16(buf, FREE_SPACE_OFF)
}

/// Whether a buffer has the layout of a page.
pub fn has_layout(buf: &[u8]) -> (r: bool)
    ensures
        r == page_wf(buf@),
{
    let n: usize = buf.len();
    if n < CHECKSUM_END {
        return false;
    }
    let count: u16 = slot_count_of(buf);
    let dir_stop: usize = PAGE_HEADER_SIZE + (count as usize) * SLOT_SIZE;
    let start: usize = data_start_of(buf) as usize;
    if (count > 0 && dir_stop > n) || start > n {
        return false;
    }
    let mut i: u16 = 0;
    while i < count
        invariant
            n == buf@.len() >= 17,
            i <= count,
            count == slot_count_in(buf@),
            dir_stop == dir_end(buf@),
            count > 0 ==> dir_stop <= n,
            start == data_start(buf@) <= n,
            forall|k: int|
                k < i && #[trigger] is_live(buf@, k) ==> {
                    &&& dir_end(buf@) <= slot_off(buf@, k)
                    &&& data_start(buf@) <= slot_off(buf@, k)
                    &&& slot_off(buf@, k) + slot_len(buf@, k) <= buf@.len()
                    &&& slot_off(buf@, k) + slot_len(buf@, k) <= 0xffff
                },
            forall|k: int, j: int|
                k < i && j < i && k != j && #[trigger] is_live(buf@, k) && #[trigger] is_live(
                    buf@,
                    j,
                ) ==> apart(buf@, k, j),
        decreases count - i,
    {
        let (off, len) = slot_of(buf, i);
        if off != 0 || len != 0 {
            assert(is_live(buf@, i as int));
            let lo: usize = off as usize;
            let hi: usize = lo + len as usize;
            if lo < dir_stop || lo < start || hi > n || hi > 0xffff {
                return false;
            }
            let mut j: u16 = 0;
            while j < i
                invariant
                    n == buf@.len() >= 17,
                    j <= i < count,
                    count == slot_count_in(buf@),
                    dir_stop == dir_end(buf@) <= n,
                    is_live(buf@, i as int),
                    lo == slot_off(buf@, i as int),
                    hi == lo + slot_len(buf@, i as int),
                    forall|k: int|
                        k < j && #[trigger] is_live(buf@, k) ==> apart(buf@, k, i as int),
                decreases i - j,
            {
                let (off2, len2) = slot_of(buf, j);
                if off2 != 0 || len2 != 0 {
                    assert(is_live(buf@, j as int));
                    let lo2: usize = off2 as usize;
                    let hi2: usize = lo2 + len2 as usize;
                    if !(hi <= lo2 || hi2 <= lo) {
                        assert(!apart(buf@, j as int, i as int));
                        return false;
                    }
                }
                j += 1;
            }
        }
        i += 1;
    }
    true
}

/// The free bytes are below 64 KiB.
pub proof fn lemma_free_bytes_bound(s: Seq<u8>)
    requires
        s.len() >= 17,
    ensures
        0 <= free_bytes(s) <= 0xffff,
{
    lemma_number_bounds(s, 9);
}

/// The slot count is below 64 Ki.
pub proof fn lemma_slot_count_bound(s: Seq<u8>)
    requires
        s.len() >= 17,
    ensures
        slot_count_in(s) <= 0xffff,
{
    lemma_number_bounds(s, 11);
}

// ── Page types ──

/// Read-only operations on a page buffer.
pub trait PageRead {
    /// The bytes of the page.
    spec fn bytes(&self) -> Seq<u8>;

    /// Access the underlying byte buffer.
    fn buf(&self) -> (r: &[u8])
        ensures
            r@ == self.bytes(),
    ;

    /// The number of the page.
    fn page_id(&self) -> (r: PageId)
        requires
            self.bytes().len() >= 17,
        ensures
            r == page_id_in(self.bytes()),
    {
        page_id_of(self.buf())
    }

    /// The type of the page.
    fn page_type(&self) -> (r: u8)
        requires
            self.bytes().len() >= 17,
        ensures
            r == page_type_in(self.bytes()),
    {
        page_type_of(self.buf())
    }

    /// The number of slots, deleted ones included.
    fn slot_count(&self) -> (r: u16)
        requires
            self.bytes().len() >= 17,
        ensures
            r == slot_count_in(self.bytes()),
    {
        slot_count_of(self.buf())
    }

    /// The bytes of the page.
    fn page_size(&self) -> (r: usize)
        ensures
            r == self.bytes().len(),
    {
        self.buf().len()
    }

    /// The bytes that are free for a row and its new slot.
    fn free_space(&self) -> (r: usize)
        requires
            self.bytes().len() >= 17,
        ensures
            r == free_bytes(self.bytes()),
    {
        free_space_of(self.buf())
    }

    /// The row in `slot`.
    fn read_row(&self, slot: SlotIndex) -> (r: Option<&[u8]>)
        requires
            slot_readable(self.bytes(), slot as int),
        ensures
            match r {
                Some(row) => row_in(self.bytes(), slot as int) == Some(row@),
                None => row_in(self.bytes(), slot as int) is None,
            },
    {
        read_row_from(self.buf(), slot)
    }

    /// The bytes of the page.
    fn as_bytes(&self) -> (r: &[u8])
        ensures
            r@ == self.bytes(),
    {
        self.buf()
    }
}

/// Operations that change a page buffer.
pub trait PageWrite: PageRead {
    /// Access the underlying byte buffer mutably.
    fn buf_mut(&mut self) -> (r: &mut [u8])
        ensures
            r@ == old(self).bytes(),
            final(self).bytes() == final(r)@,
    ;

    /// Adds a row, in the first deleted slot or in a new one.
    fn insert_row(&mut self, row: &[u8]) -> (r: Option<SlotIndex>)
        requires
            page_wf(old(self).bytes()),
        ensures
            inserted(old(self).bytes(), row@, final(self).bytes(), r),
    {
        insert_row_into(self.buf_mut(), row)
    }

    /// Deletes the row in `slot`.
    fn delete_row(&mut self, slot: SlotIndex) -> (r: bool)
        requires
            page_wf(old(self).bytes()),
        ensures
            deleted(old(self).bytes(), slot as int, final(self).bytes(), r),
    {
        delete_row_from(self.buf_mut(), slot)
    }

    /// Replaces the row in `slot`.
    fn update_row(&mut self, slot: SlotIndex, new_data: &[u8]) -> (r: UpdateResult)
        requires
            page_wf(old(self).bytes()),
        ensures
            updated(old(self).bytes(), slot as int, new_data@, final(self).bytes(), r),
    {
        update_row_in(self.buf_mut(), slot, new_data)
    }
}

/// A slotted page in a buffer of its own.
#[derive(Debug)]
pub struct SlottedPage {
    buf: Vec<u8>,
}

impl SlottedPage {
    /// Creates an empty page of rows.
    pub fn new(page_id: PageId, page_size: usize) -> (p: Self)
        requires
            page_size >= 17,
        ensures
            p.bytes().len() == page_size,
            is_fresh(p.bytes(), page_id as int),
    {
        let mut buf: Vec<u8> = vec![0u8; page_size];
        init_page_buf(buf.as_mut_slice(), page_id);
        Self { buf }
    }

    /// Takes bytes as a page, such as those read from a file.
    pub fn from_bytes(buf: Vec<u8>) -> (r: DbResult<Self>)
        ensures
            match r {
                Ok(p) => buf@.len() >= 24 && sealed(buf@) && p.bytes() == buf@,
                Err(e) => if buf@.len() < 24 {
                    e@ == ErrorModel::Corruption("page too small for header"@)
                } else {
                    !sealed(buf@) && e@ == ErrorModel::Corruption(mismatch_text(buf@))
                },
            },
    {
        if buf.len() < PAGE_HEADER_SIZE {
            return Err(corruption("page too small for header"));
        }
        match verify_checksum_of(buf.as_slice()) {
            Ok(_) => Ok(Self { buf }),
            Err(e) => Err(e),
        }
    }

    /// Gives the bytes of the page.
    pub fn into_bytes(self) -> (r: Vec<u8>)
        ensures
            r@ == self.bytes(),
    {
        self.buf
    }
}

impl PageRead for SlottedPage {
    closed spec fn bytes(&self) -> Seq<u8> {
        self.buf@
    }

    fn buf(&self) -> (r: &[u8]) {
        self.buf.as_slice()
    }
}

impl PageWrite for SlottedPage {
    fn buf_mut(&mut self) -> (r: &mut [u8]) {
        self.buf.as_mut_slice()
    }
}

/// A read-only view of a page in a borrowed buffer.
#[derive(Debug)]
pub struct PageRef<'a> {
    pub buf: &'a [u8],
}

impl<'a> PageRef<'a> {
    /// Takes a buffer as a page.
    pub fn new(buf: &'a [u8]) -> (p: Self)
        ensures
            p.bytes() == buf@,
    {
        Self { buf }
    }
}

impl<'a> PageRead for PageRef<'a> {
    open spec fn bytes(&self) -> Seq<u8> {
        self.buf@
    }

    fn buf(&self) -> (r: &[u8]) {
        self.buf
    }
}

/// A view of a page in a borrowed buffer that can be changed.
#[derive(Debug)]
pub struct PageMut<'a> {
    pub buf: &'a mut [u8],
}

impl<'a> PageMut<'a> {
    /// Takes a buffer as a page.
    pub fn new(buf: &'a mut [u8]) -> (p: Self)
        ensures
            p.bytes() == old(buf)@,
            final(p.buf)@ == final(buf)@,
    {
        Self { buf }
    }
}

impl<'a> PageRead for PageMut<'a> {
    open spec fn bytes(&self) -> Seq<u8> {
        self.buf@
    }

    fn buf(&self) -> (r: &[u8]) {
        &*self.buf
    }
}

impl<'a> PageWrite for PageMut<'a> {
    fn buf_mut(&mut self) -> (r: &mut [u8]) {
        &mut *self.buf
    }
}

// ── Laws of a page ──

/// A row that was inserted is read back from its slot, which held no row before, and every other
/// slot reads as it did.
pub proof fn law_insert_then_read(s: Seq<u8>, row: Seq<u8>, t: Seq<u8>, slot: SlotIndex)
    requires
        page_wf(s),
        inserted(s, row, t, Some(slot)),
    ensures
        row_in(s, slot as int) is None,
        row_in(t, slot as int) == Some(row),
        forall|i: int| i != slot ==> row_in(t, i) == row_in(s, i),
{
    lemma_first_dead(s, 0);
    let want = set_row(rows_of(s), slot as int, Some(row));
    assert(rows_of(t).len() == want.len());
    assert(rows_of(t)[slot as int] == want[slot as int]);
    assert forall|i: int| i != slot implies row_in(t, i) == row_in(s, i) by {
        if 0 <= i < slot_count_in(s) {
            assert(rows_of(t)[i] == want[i]);
            assert(want[i] == rows_of(s)[i]);
        }
    }
}

/// A row that was deleted is not read any more, every other slot reads as it did, and a second
/// deletion finds nothing and changes nothing.
pub proof fn law_delete_then_read(s: Seq<u8>, slot: int, t: Seq<u8>)
    requires
        page_wf(s),
        deleted(s, slot, t, true),
    ensures
        row_in(t, slot) is None,
        forall|i: int| i != slot ==> row_in(t, i) == row_in(s, i),
        forall|u: Seq<u8>, done: bool| deleted(t, slot, u, done) ==> !done && u == t,
{
    let want = rows_of(s).update(slot, None);
    assert(rows_of(t).len() == want.len());
    assert(rows_of(t)[slot] == want[slot]);
    assert forall|i: int| i != slot implies row_in(t, i) == row_in(s, i) by {
        if 0 <= i < slot_count_in(s) {
            assert(rows_of(t)[i] == want[i]);
        }
    }
}

/// A deleted slot is used again before the directory grows: the next row goes to it, or to one
/// before it that was deleted already.
pub proof fn law_deleted_slot_is_reused(s: Seq<u8>, slot: int, t: Seq<u8>)
    requires
        page_wf(s),
        deleted(s, slot, t, true),
    ensures
        next_slot(t) == if slot < next_slot(s) {
            slot
        } else {
            next_slot(s)
        },
{
    law_delete_then_read(s, slot, t);
    lemma_first_dead(s, 0);
    lemma_first_dead(t, 0);
    let want = rows_of(s).update(slot, None);
    assert(rows_of(t).len() == want.len());
    assert forall|i: int| 0 <= i < slot_count_in(s) implies (is_dead(t, i) <==> i == slot
        || is_dead(s, i)) by {
        assert(rows_of(t)[i] == want[i]);
    }
}

/// A row that was updated is read back from the same slot, and every other slot reads as it did.
pub proof fn law_update_then_read(s: Seq<u8>, slot: int, row: Seq<u8>, t: Seq<u8>)
    requires
        page_wf(s),
        updated(s, slot, row, t, UpdateResult::Updated),
    ensures
        row_in(t, slot) == Some(row),
        forall|i: int| i != slot ==> row_in(t, i) == row_in(s, i),
{
    let want = rows_of(s).update(slot, Some(row));
    assert(rows_of(t).len() == want.len());
    assert(rows_of(t)[slot] == want[slot]);
    assert forall|i: int| i != slot implies row_in(t, i) == row_in(s, i) by {
        if 0 <= i < slot_count_in(s) {
            assert(rows_of(t)[i] == want[i]);
        }
    }
}

/// An update that is refused leaves the page as it was.
pub proof fn law_refused_update_changes_nothing(
    s: Seq<u8>,
    slot: int,
    row: Seq<u8>,
    t: Seq<u8>,
    r: UpdateResult,
)
    requires
        updated(s, slot, row, t, r),
        r != UpdateResult::Updated,
    ensures
        t == s,
{
}

/// An empty page has no rows, and room for one row of all its bytes but 28: the header of 24 and a
/// slot of four.
pub proof fn law_empty_page_has_room(s: Seq<u8>, id: int, len: nat)
    requires
        is_fresh(s, id),
        28 <= s.len() <= 0xffff,
    ensures
        rows_of(s).len() == 0,
        forall|i: int| row_in(s, i) is None,
        free_bytes(s) == s.len() - 28,
        can_insert(s, len) <==> len + 28 <= s.len(),
{
}

/// A row goes into a page if and only if it has no more bytes than are free. It takes its bytes
/// from those that are free, and four more where it gets a new slot; the slots are as many as
/// before, or one more.
pub proof fn law_row_takes_its_room(
    s: Seq<u8>,
    row: Seq<u8>,
    t: Seq<u8>,
    slot: Option<SlotIndex>,
)
    requires
        page_wf(s),
        inserted(s, row, t, slot),
        row.len() > 0,
    ensures
        slot is Some <==> row.len() <= free_bytes(s),
        slot is None ==> t == s,
        slot matches Some(i) ==> {
            let added: int = if i == slot_count_in(s) {
                4
            } else {
                0
            };
            &&& i <= slot_count_in(s)
            &&& 4 * slot_count_in(t) == 4 * slot_count_in(s) + added
            &&& free_bytes(t) == if free_bytes(s) < row.len() + added {
                0
            } else {
                free_bytes(s) - row.len() - added
            }
            &&& t.len() == s.len()
            &&& page_id_in(t) == page_id_in(s)
        },
{
    if let Some(i) = slot {
        lemma_first_dead(s, 0);
        let want = set_row(rows_of(s), i as int, Some(row));
        assert(rows_of(t).len() == want.len());
        assert(rows_of(t).len() == slot_count_in(t));
    }
}

/// Deleting a row frees no byte at once: the bytes of the row are not used again.
pub proof fn law_deleted_row_keeps_its_room(s: Seq<u8>, slot: int, t: Seq<u8>)
    requires
        page_wf(s),
        deleted(s, slot, t, true),
    ensures
        row_in(s, slot) is Some,
        free_bytes(t) == free_bytes(s),
        slot_count_in(t) == slot_count_in(s),
{
    assert(rows_of(t).len() == rows_of(s).update(slot, None).len());
    assert(rows_of(t).len() == slot_count_in(t));
}

/// A row can always be replaced by one that is no longer, and by any that has no more bytes than
/// are free. Where there is no row, nothing is replaced.
pub proof fn law_update_has_room(
    s: Seq<u8>,
    slot: int,
    row: Seq<u8>,
    t: Seq<u8>,
    r: UpdateResult,
)
    requires
        page_wf(s),
        updated(s, slot, row, t, r),
    ensures
        row_in(s, slot) is None <==> r == UpdateResult::NotFound,
        row_in(s, slot) matches Some(old_row) ==> {
            &&& row.len() <= old_row.len() ==> r == UpdateResult::Updated
            &&& row.len() <= free_bytes(s) ==> r == UpdateResult::Updated
            &&& row.len() > free_bytes(s) + old_row.len() ==> r == UpdateResult::NotEnoughSpace
            &&& row.len() <= old_row.len() && r == UpdateResult::Updated ==> free_bytes(t)
                == free_bytes(s)
        },
{
    if row_in(s, slot) is Some {
        assert(is_live(s, slot));
        assert(row_in(s, slot)->0.len() == slot_len(s, slot));
        if r == UpdateResult::Updated {
            assert(rows_of(t).len() == rows_of(s).update(slot, Some(row)).len());
            assert(rows_of(t).len() == slot_count_in(t));
        }
    }
}

/// The checksum of a page is that of all its bytes but the four that hold it: each other byte is
/// covered, in its order.
pub proof fn law_checksum_covers_the_page(s: Seq<u8>, covered: Seq<u8>)
    requires
        s.len() >= 17,
        covered.len() == s.len() - 4,
        forall|k: int| 0 <= k < 13 ==> #[trigger] covered[k] == s[k],
        forall|k: int| 13 <= k < covered.len() ==> #[trigger] covered[k] == s[k + 4],
    ensures
        sealed(s) <==> stored_checksum(s) == crc32(covered),
{
    assert(s.subrange(0, 13) + s.subrange(17, s.len() as int) =~= covered);
}

} // verus!
