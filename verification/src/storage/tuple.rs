//! The header of a tuple, and which tuples a transaction sees.
//!
//! Every row in a page is preceded by 16 bytes: the number of the transaction that made it
//! (`xmin`, 0 for the rows of a new database) and of the one that deleted it (`xmax`, 0 while it
//! lives), both little-endian.

use vstd::prelude::*;
use crate::bytes::{append_bytes, get_le, le_at, le_bytes, le_vec, lemma_le_bytes_len,
    lemma_le_value_of_bytes, lemma_pow256, put_le, splice};
use crate::storage::page::{apart, data_start, is_live, kept, lemma_place_row, lemma_same_number,
    lemma_seal_keeps, page_wf, row_in, rows_of, slot_count_of, slot_len, slot_of, slot_off,
    update_checksum_of};

verus! {

/// The bytes of the header.
pub const TUPLE_HEADER_SIZE: usize = 16;

/// The number of a transaction.
pub type TxId = u64;

/// The transaction of the rows that a new database starts with. It counts as committed.
pub const BOOTSTRAP_TXID: TxId = 0;

/// The bytes of a header.
pub open spec fn header(xmin: TxId, xmax: TxId) -> Seq<u8> {
    le_bytes(xmin as nat, 8) + le_bytes(xmax as nat, 8)
}

/// `xmin` in the bytes of a tuple.
pub open spec fn xmin_of(tuple: Seq<u8>) -> TxId {
    le_at(tuple, 0, 8) as u64
}

/// `xmax` in the bytes of a tuple.
pub open spec fn xmax_of(tuple: Seq<u8>) -> TxId {
    le_at(tuple, 8, 8) as u64
}

/// What follows the header.
pub open spec fn user_data(tuple: Seq<u8>) -> Seq<u8> {
    tuple.subrange(16, tuple.len() as int)
}

/// A tuple whose `xmax` was set.
pub open spec fn with_xmax(tuple: Seq<u8>, xmax: TxId) -> Seq<u8> {
    splice(tuple, 8, le_bytes(xmax as nat, 8))
}

/// Writes a header.
pub fn write_header(xmin: TxId, xmax: TxId) -> (r: [u8; 16])
    ensures
        r@ == header(xmin, xmax),
{
    let lo: Vec<u8> = le_vec(xmin, 8);
    let hi: Vec<u8> = le_vec(xmax, 8);
    proof {
        lemma_le_bytes_len(xmin as nat, 8);
        lemma_le_bytes_len(xmax as nat, 8);
    }
    let mut hdr: [u8; 16] = [0u8; 16];
    let mut i: usize = 0;
    while i < 8
        invariant
            i <= 8,
            lo@.len() == 8,
            hi@.len() == 8,
            hdr@.len() == 16,
            forall|k: int| 0 <= k < i ==> hdr@[k] == lo@[k] && hdr@[8 + k] == hi@[k],
        decreases 8 - i,
    {
        hdr[i] = lo[i];
        hdr[8 + i] = hi[i];
        i += 1;
    }
    assert(hdr@ =~= header(xmin, xmax)) by {
        assert forall|k: int| 0 <= k < 16 implies hdr@[k] == header(xmin, xmax)[k] by {
            if k >= 8 {
                let j = k - 8;
                assert(hdr@[8 + j] == hi@[j]);
            }
        }
    }
    hdr
}

/// Reads `xmin` and `xmax`, or nothing where the tuple is shorter than a header.
pub fn read_header(data: &[u8]) -> (r: Option<(TxId, TxId)>)
    ensures
        r == if data@.len() < 16 {
            None::<(TxId, TxId)>
        } else {
            Some((xmin_of(data@), xmax_of(data@)))
        },
{
    if data.len() < TUPLE_HEADER_SIZE {
        return None;
    }
    Some((get_le(data, 0, 8), get_le(data, 8, 8)))
}

/// The bytes after the header, or nothing where the tuple is shorter than a header.
pub fn strip_header(data: &[u8]) -> (r: Option<&[u8]>)
    ensures
        match r {
            Some(rest) => data@.len() >= 16 && rest@ == user_data(data@),
            None => data@.len() < 16,
        },
{
    let n: usize = data.len();
    if n < TUPLE_HEADER_SIZE {
        return None;
    }
    Some(&data[TUPLE_HEADER_SIZE..n])
}

/// A live tuple made by transaction `xmin`.
pub fn prepend_header(xmin: TxId, row_data: &[u8]) -> (r: Vec<u8>)
    ensures
        r@ == header(xmin, 0) + row_data@,
{
    let mut buf: Vec<u8> = Vec::new();
    append_bytes(&mut buf, &write_header(xmin, 0));
    append_bytes(&mut buf, row_data);
    assert(buf@ =~= header(xmin, 0) + row_data@);
    buf
}

/// What setting `xmax` of the tuple in `slot` makes of page `s`: the eight bytes of `xmax` and the
/// checksum change, and nothing else does.
pub open spec fn xmax_set(s: Seq<u8>, slot: int, xmax: TxId, t: Seq<u8>, done: bool) -> bool {
    &&& done == (row_in(s, slot) is Some && row_in(s, slot)->0.len() >= 16)
    &&& if done {
        &&& kept(s, t)
        &&& data_start(t) == data_start(s)
        &&& rows_of(t) == rows_of(s).update(slot, Some(with_xmax(row_in(s, slot)->0, xmax)))
        &&& forall|k: int|
            0 <= k < s.len() && !(13 <= k < 17) && !(slot_off(s, slot) + 8 <= k < slot_off(s, slot)
                + 16) ==> #[trigger] t[k] == s[k]
    } else {
        t == s
    }
}

/// Sets `xmax` of the tuple in `slot`, without moving it.
///
/// Gives `false` where the slot is out of range or deleted, or its row shorter than a header.
pub fn set_xmax_on_page(page_buf: &mut [u8], slot: u16, xmax: TxId) -> (r: bool)
    requires
        page_wf(old(page_buf)@),
    ensures
        xmax_set(old(page_buf)@, slot as int, xmax, final(page_buf)@, r),
{
    if slot >= slot_count_of(page_buf) {
        return false;
    }
    let (off, len) = slot_of(page_buf, slot);
    if off == 0 && len == 0 {
        return false;
    }
    let ghost s = page_buf@;
    assert(is_live(s, slot as int));
    if (len as usize) < TUPLE_HEADER_SIZE {
        return false;
    }
    let start: usize = off as usize + 8;
    put_le(page_buf, start, 8, xmax);
    let ghost s1 = page_buf@;
    update_checksum_of(page_buf);
    proof {
        let t = page_buf@;
        let row = with_xmax(row_in(s, slot as int)->0, xmax);
        lemma_le_bytes_len(xmax as nat, 8);
        lemma_seal_keeps(s1, t);
        lemma_same_number(s, s1, 9, 2);
        lemma_same_number(s, s1, 11, 2);
        lemma_same_number(s, t, 24 + 4 * slot, 2);
        lemma_same_number(s, t, 26 + 4 * slot, 2);
        assert(t.subrange(off as int, off + len) =~= row);
        assert forall|i: int| #[trigger] is_live(s, i) && i != slot implies off + len <= slot_off(
            s,
            i,
        ) || slot_off(s, i) + slot_len(s, i) <= off by {
            assert(apart(s, i, slot as int));
        }
        lemma_place_row(s, t, slot as int, off as int, row);
    }
    true
}

/// Whether a tuple is visible to transaction `current_tx`, where `committed` says which
/// transactions have committed: it was made by the bootstrap, the transaction itself or a
/// committed one, and it was not deleted by the transaction itself or a committed one.
pub open spec fn visible(
    xmin: TxId,
    xmax: TxId,
    current_tx: TxId,
    committed: spec_fn(TxId) -> bool,
) -> bool {
    &&& xmin == 0 || xmin == current_tx || committed(xmin)
    &&& xmax == 0 || (xmax != current_tx && !committed(xmax))
}

/// Whether `f` answers as `committed` does.
pub open spec fn answers<F: Fn(TxId) -> bool>(f: F, committed: spec_fn(TxId) -> bool) -> bool {
    forall|tx: TxId, b: bool| #[trigger] call_ensures(f, (tx,), b) ==> b == committed(tx)
}

/// Whether a tuple is visible to transaction `current_tx`. `is_committed` tells which
/// transactions have committed.
pub fn is_visible<F: Fn(TxId) -> bool>(
    xmin: TxId,
    xmax: TxId,
    current_tx: TxId,
    is_committed: &F,
) -> (r: bool)
    requires
        forall|tx: TxId| #[trigger] call_requires(*is_committed, (tx,)),
    ensures
        forall|committed: spec_fn(TxId) -> bool| #[trigger]
            answers(*is_committed, committed) ==> r == visible(xmin, xmax, current_tx, committed),
{
    let xmin_visible: bool = xmin == BOOTSTRAP_TXID || xmin == current_tx || is_committed(xmin);
    if !xmin_visible {
        return false;
    }
    if xmax == 0 {
        return true;
    }
    if xmax == current_tx {
        return false;
    }
    !is_committed(xmax)
}

// ── Laws of tuples ──

/// A header that was written is read back.
pub proof fn law_header_round_trip(xmin: TxId, xmax: TxId, data: Seq<u8>)
    ensures
        (header(xmin, xmax) + data).len() == 16 + data.len(),
        xmin_of(header(xmin, xmax) + data) == xmin,
        xmax_of(header(xmin, xmax) + data) == xmax,
        user_data(header(xmin, xmax) + data) == data,
{
    let t = header(xmin, xmax) + data;
    lemma_le_bytes_len(xmin as nat, 8);
    lemma_le_bytes_len(xmax as nat, 8);
    lemma_pow256();
    lemma_le_value_of_bytes(xmin as nat, 8);
    lemma_le_value_of_bytes(xmax as nat, 8);
    assert(t.subrange(0, 8) =~= le_bytes(xmin as nat, 8));
    assert(t.subrange(8, 16) =~= le_bytes(xmax as nat, 8));
    assert(user_data(t) =~= data);
}

/// Setting `xmax` changes `xmax` alone.
pub proof fn law_xmax_round_trip(tuple: Seq<u8>, xmax: TxId)
    requires
        tuple.len() >= 16,
    ensures
        xmax_of(with_xmax(tuple, xmax)) == xmax,
        xmin_of(with_xmax(tuple, xmax)) == xmin_of(tuple),
        user_data(with_xmax(tuple, xmax)) == user_data(tuple),
{
    let t = with_xmax(tuple, xmax);
    lemma_le_bytes_len(xmax as nat, 8);
    lemma_pow256();
    lemma_le_value_of_bytes(xmax as nat, 8);
    assert(t.subrange(8, 16) =~= le_bytes(xmax as nat, 8));
    assert(t.subrange(0, 8) =~= tuple.subrange(0, 8));
    assert(user_data(t) =~= user_data(tuple));
}

/// Setting `xmax` on a page changes the tuple in its slot as said, and no other row.
pub proof fn law_xmax_on_page(s: Seq<u8>, slot: int, xmax: TxId, t: Seq<u8>)
    requires
        page_wf(s),
        xmax_set(s, slot, xmax, t, true),
    ensures
        row_in(t, slot) == Some(with_xmax(row_in(s, slot)->0, xmax)),
        forall|i: int| i != slot ==> row_in(t, i) == row_in(s, i),
{
    let want = rows_of(s).update(slot, Some(with_xmax(row_in(s, slot)->0, xmax)));
    assert(rows_of(t).len() == want.len());
    assert(rows_of(t)[slot] == want[slot]);
    assert forall|i: int| i != slot implies row_in(t, i) == row_in(s, i) by {
        if 0 <= i < rows_of(s).len() {
            assert(rows_of(t)[i] == want[i]);
        }
    }
}

/// A deletion that was rolled back does not count: a tuple whose deleter neither committed nor is
/// the transaction that looks is seen as if it had not been deleted.
pub proof fn law_aborted_delete_is_ignored(
    xmin: TxId,
    xmax: TxId,
    current_tx: TxId,
    committed: spec_fn(TxId) -> bool,
)
    requires
        xmax != current_tx,
        !committed(xmax),
    ensures
        visible(xmin, xmax, current_tx, committed) == visible(xmin, 0, current_tx, committed),
{
}

/// A tuple whose maker was rolled back is seen by no other transaction.
pub proof fn law_aborted_insert_is_invisible(
    xmin: TxId,
    xmax: TxId,
    current_tx: TxId,
    committed: spec_fn(TxId) -> bool,
)
    requires
        xmin != 0,
        xmin != current_tx,
        !committed(xmin),
    ensures
        !visible(xmin, xmax, current_tx, committed),
{
}

/// A tuple that a committed transaction deleted is dead: nobody sees it.
pub proof fn law_committed_delete_is_final(
    xmin: TxId,
    xmax: TxId,
    current_tx: TxId,
    committed: spec_fn(TxId) -> bool,
)
    requires
        xmax != 0,
        committed(xmax),
    ensures
        !visible(xmin, xmax, current_tx, committed),
{
}

/// A tuple of the bootstrap that was not deleted is seen by everyone.
pub proof fn law_bootstrap_tuple_is_visible(current_tx: TxId, committed: spec_fn(TxId) -> bool)
    ensures
        visible(0, 0, current_tx, committed),
{
}

/// What a transaction sees: what it made itself and did not delete; what others made and committed,
/// where nobody deleted it or the deleter did not commit; never what it deleted itself.
pub proof fn law_transaction_sees(
    xmin: TxId,
    xmax: TxId,
    current_tx: TxId,
    committed: spec_fn(TxId) -> bool,
)
    requires
        current_tx != 0,
    ensures
        visible(current_tx, 0, current_tx, committed),
        !visible(xmin, current_tx, current_tx, committed),
        xmin == 0 || committed(xmin) ==> visible(xmin, 0, current_tx, committed),
        (xmin == current_tx || xmin == 0 || committed(xmin)) && xmax != 0 && xmax != current_tx
            ==> (visible(xmin, xmax, current_tx, committed) <==> !committed(xmax)),
        xmin != 0 && xmin != current_tx && !committed(xmin) ==> !visible(
            xmin,
            xmax,
            current_tx,
            committed,
        ),
{
}

/// A tuple is its header of 16 bytes, with the maker in the first eight and the deleter in the
/// others, and the row behind it.
pub proof fn law_header_comes_first(xmin: TxId, xmax: TxId, data: Seq<u8>)
    ensures
        header(xmin, xmax).len() == 16,
        header(xmin, xmax).subrange(0, 8) == le_bytes(xmin as nat, 8),
        header(xmin, xmax).subrange(8, 16) == le_bytes(xmax as nat, 8),
        user_data(header(xmin, xmax) + data) == data,
{
    lemma_le_bytes_len(xmin as nat, 8);
    lemma_le_bytes_len(xmax as nat, 8);
    assert(header(xmin, xmax).subrange(0, 8) =~= le_bytes(xmin as nat, 8));
    assert(header(xmin, xmax).subrange(8, 16) =~= le_bytes(xmax as nat, 8));
    law_header_round_trip(xmin, xmax, data);
}

} // verus!
