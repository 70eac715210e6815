//! Rows that fit one page are scanned in the order in which they were inserted.

use vstd::prelude::*;
use crate::storage::fsm::{category, law_category_is_monotone};
use crate::storage::heap::{all_rows, lemma_place, page_rows, page_sound, pages_sound, row_inserted,
    HeapModel, Place, Rid};
use crate::storage::page::{data_start, first_dead_from, free_bytes, inserted, is_fresh, next_slot,
    row_in, rows_of, sealed, slot_count_in};

verus! {

/// The bytes of the first `n` of some rows.
pub open spec fn rows_len(rows: Seq<Seq<u8>>, n: int) -> nat
    decreases n,
{
    if n <= 0 {
        0
    } else {
        rows_len(rows, n - 1) + rows[n - 1].len()
    }
}

/// Whether some rows fit one page.
pub open spec fn fits_one_page(page_size: nat, rows: Seq<Seq<u8>>) -> bool {
    &&& page_size < 0x10000
    &&& 24 + 4 * rows.len() + rows_len(rows, rows.len() as int) <= page_size
}

/// Some rows with the addresses of the first slots of the first page.
pub open spec fn on_first_page(rows: Seq<Seq<u8>>) -> Seq<(Rid, Seq<u8>)> {
    Seq::new(rows.len(), |i: int| (Rid { page_id: 0, slot: i as u16 }, rows[i]))
}

/// Whether a file has some rows and nothing else, one after the other in its first page.
pub open spec fn holds_in_order(h: HeapModel, rows: Seq<Seq<u8>>) -> bool {
    &&& h.fsm.page_size == h.page_size >= 24
    &&& h.fsm.cats.len() == h.pages.len()
    &&& if rows.len() == 0 {
        h.pages.len() == 0
    } else {
        let s = h.pages[0];
        &&& h.pages.len() == 1
        &&& s.len() == h.page_size
        &&& sealed(s)
        &&& rows_of(s) == rows.map_values(|row: Seq<u8>| Some(row))
        &&& data_start(s) == h.page_size - rows_len(rows, rows.len() as int)
        &&& h.fsm.cats[0] == category(h.page_size, free_bytes(s) as nat)
    }
}

proof fn lemma_rows_len_front(rows: Seq<Seq<u8>>, row: Seq<u8>, n: int)
    requires
        0 <= n <= rows.len(),
    ensures
        rows_len(rows.push(row), n) == rows_len(rows, n),
    decreases n,
{
    if n > 0 {
        lemma_rows_len_front(rows, row, n - 1);
        assert(rows.push(row)[n - 1] == rows[n - 1]);
    }
}

/// The first of some rows that fit one page fit it.
pub proof fn lemma_front_fits(page_size: nat, rows: Seq<Seq<u8>>, n: int)
    requires
        fits_one_page(page_size, rows),
        0 <= n <= rows.len(),
    ensures
        fits_one_page(page_size, rows.subrange(0, n)),
    decreases rows.len() - n,
{
    if n < rows.len() {
        lemma_front_fits(page_size, rows, n + 1);
        let front = rows.subrange(0, n);
        assert(rows.subrange(0, n + 1) =~= front.push(rows[n]));
        lemma_rows_len_front(front, rows[n], n);
    } else {
        assert(rows.subrange(0, n) =~= rows);
    }
}

/// In a page without deleted slots the next row gets a new one.
proof fn lemma_next_slot(s: Seq<u8>, i: int)
    requires
        0 <= i <= slot_count_in(s),
        forall|k: int| 0 <= k < slot_count_in(s) ==> (#[trigger] rows_of(s)[k]) is Some,
    ensures
        first_dead_from(s, i) == slot_count_in(s),
    decreases slot_count_in(s) - i,
{
    if i < slot_count_in(s) {
        assert(rows_of(s)[i] is Some);
        lemma_next_slot(s, i + 1);
    }
}

/// One row more, after those that the page has.
pub proof fn lemma_next_in_order(
    h: HeapModel,
    rows: Seq<Seq<u8>>,
    row: Seq<u8>,
    h2: HeapModel,
    rid: Rid,
)
    requires
        holds_in_order(h, rows),
        pages_sound(h.pages),
        fits_one_page(h.page_size, rows.push(row)),
        row_inserted(h, row, h2, Ok(rid)),
    ensures
        holds_in_order(h2, rows.push(row)),
{
    let ps = h.page_size;
    let all = rows.push(row);
    let n = rows.len() as int;
    lemma_rows_len_front(rows, row, n);
    assert(all[n] == row);
    assert(rows_len(all, n + 1) == rows_len(rows, n) + row.len());
    assert(ps % 0x10000 == ps);
    let (place, cats) = h.place(row.len(), 0, h.fsm.cats);
    lemma_place(h, row.len(), 0, h.fsm.cats);
    if n == 0 {
        assert(place is NewPage);
        let t = h2.pages[0];
        let f = choose|f: Seq<u8>|
            #![trigger is_fresh(f, 0)]
            f.len() == t.len() && is_fresh(f, 0) && inserted(f, row, t, Some(rid.slot));
        assert(inserted(f, row, t, Some(rid.slot)));
        assert(next_slot(f) == 0);
        assert(rows_of(f) =~= Seq::<Option<Seq<u8>>>::empty());
        assert(rows_of(t) =~= all.map_values(|row: Seq<u8>| Some(row)));
        assert(rows_len(rows, 0) == 0);
    } else {
        let s = h.pages[0];
        assert(page_sound(h.pages[0], 0));
        let shown = rows.map_values(|row: Seq<u8>| Some(row));
        assert(rows_of(s).len() == shown.len());
        assert(slot_count_in(s) == n);
        assert forall|k: int| 0 <= k < slot_count_in(s) implies (
        #[trigger] rows_of(s)[k]) is Some by {
            assert(rows_of(s)[k] == shown[k]);
        }
        lemma_next_slot(s, 0);
        let free = free_bytes(s);
        assert(free == ps - rows_len(rows, n) - 24 - 4 * n - 4);
        law_category_is_monotone(ps, row.len(), free as nat);
        assert(h.fsm.cats[0] >= category(ps, row.len()));
        assert(h.page_error(0) is None);
        assert(place == Place::Page(0));
        assert(cats == h.fsm.cats);
        let t = h2.pages[0];
        assert(inserted(s, row, t, Some(rid.slot)));
        assert(rows_of(t) =~= all.map_values(|row: Seq<u8>| Some(row)));
    }
}

proof fn lemma_page_rows_in_order(s: Seq<u8>, rows: Seq<Seq<u8>>, n: int)
    requires
        rows_of(s) == rows.map_values(|row: Seq<u8>| Some(row)),
        0 <= n <= rows.len(),
    ensures
        page_rows(s, 0, n) == on_first_page(rows).subrange(0, n),
    decreases n,
{
    let want = on_first_page(rows);
    if n > 0 {
        lemma_page_rows_in_order(s, rows, n - 1);
        let shown = rows.map_values(|row: Seq<u8>| Some(row));
        assert(rows_of(s).len() == shown.len());
        assert(rows_of(s)[n - 1] == shown[n - 1]);
        assert(row_in(s, n - 1) == Some(rows[n - 1]));
    }
    assert(page_rows(s, 0, n) =~= want.subrange(0, n));
}

/// A file that has some rows one after the other in its first page is scanned in that order.
pub proof fn law_rows_are_scanned_in_order(h: HeapModel, rows: Seq<Seq<u8>>)
    requires
        holds_in_order(h, rows),
    ensures
        all_rows(h.pages, h.pages.len() as int) == on_first_page(rows),
{
    if rows.len() > 0 {
        let s = h.pages[0];
        let shown = rows.map_values(|row: Seq<u8>| Some(row));
        assert(rows_of(s).len() == shown.len());
        lemma_page_rows_in_order(s, rows, rows.len() as int);
        reveal_with_fuel(all_rows, 2);
        assert(all_rows(h.pages, 1) =~= on_first_page(rows));
    } else {
        assert(all_rows(h.pages, 0) =~= on_first_page(rows));
    }
}

} // verus!
