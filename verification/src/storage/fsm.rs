//! The free-space map: a binary max-heap over the pages of a file.
//!
//! Each leaf stands for a page and holds a category from 0 to 255, the free bytes of the page in
//! steps of a 256th of the page size, rounded down. An inner node holds the maximum of its two
//! children, so a page with a given category is found on a walk from the root to a leaf.

use vstd::prelude::*;
use crate::bytes::{append_bytes, get_le, le_at, le_bytes, le_vec, lemma_le_bytes_len,
    lemma_le_value_of_bytes, lemma_pow256};
use crate::error::{corruption, DbResult, Error, ErrorModel};

verus! {

/// The free-space map of a file.
pub struct FreeSpaceMap {
    /// The nodes: inner nodes first, then the leaves from left to right.
    pub tree: Vec<u8>,
    /// Where the leaves start in `tree`.
    pub leaf_offset: usize,
    /// The number of leaves, a power of two.
    pub leaf_count: usize,
    /// The number of pages that the map tracks.
    pub page_count: usize,
    /// The page size that the categories refer to.
    pub page_size: usize,
}

/// The contents of a free-space map: the page size and the category of each page.
pub struct FsmModel {
    pub page_size: nat,
    pub cats: Seq<u8>,
}

/// The category of `free` bytes in a page of `page_size` bytes.
pub open spec fn category(page_size: nat, free: nat) -> u8 {
    if page_size == 0 {
        0
    } else if free * 256 / page_size > 255 {
        255
    } else {
        (free * 256 / page_size) as u8
    }
}

/// The category that a page must have to be tried for `needed` bytes: the bytes in steps of a
/// 256th of the page size, rounded up, so that a page of that category has room. A page in the
/// last category is tried for anything above it.
pub open spec fn wanted_category(page_size: nat, needed: nat) -> u8 {
    if page_size == 0 {
        0
    } else if (needed * 256 + page_size - 1) / (page_size as int) > 255 {
        255
    } else {
        ((needed * 256 + page_size - 1) / (page_size as int)) as u8
    }
}

/// The bytes of a `.FSM` file: page size and page count, four bytes each, and a byte with the
/// category of each page.
pub open spec fn saved_map(m: FsmModel) -> Seq<u8> {
    le_bytes(m.page_size, 4) + le_bytes(m.cats.len(), 4) + m.cats
}

/// The map in a `.FSM` file. There is none where there is no file, or one too short for its first
/// two fields.
pub open spec fn loaded_map(file: Option<Seq<u8>>) -> Result<Option<FsmModel>, ErrorModel> {
    match file {
        None => Ok(None),
        Some(bytes) => if bytes.len() < 8 {
            Ok(None)
        } else if le_at(bytes, 0, 4) == 0 {
            Err(ErrorModel::Corruption("FSM file has page_size=0"@))
        } else if bytes.len() < 8 + le_at(bytes, 4, 4) {
            Err(ErrorModel::Io("failed to fill whole buffer"@))
        } else {
            Ok(
                Some(
                    FsmModel {
                        page_size: le_at(bytes, 0, 4),
                        cats: bytes.subrange(8, 8 + le_at(bytes, 4, 4) as int),
                    },
                ),
            )
        },
    }
}

/// The bytes of a file that may be missing.
pub open spec fn file_view(file: Option<&[u8]>) -> Option<Seq<u8>> {
    match file {
        Some(bytes) => Some(bytes@),
        None => None,
    }
}

/// Why the bytes of a `.FSM` file cannot be taken as a map, if so.
pub open spec fn map_error(file: Option<Seq<u8>>) -> Option<ErrorModel> {
    match loaded_map(file) {
        Ok(_) => None,
        Err(e) => Some(e),
    }
}

/// The map that a file of `n` pages starts with: the one that was saved, extended where it tracks
/// too few pages, or one that takes every page to be empty.
pub open spec fn first_map(file: Option<Seq<u8>>, page_size: nat, n: nat) -> FsmModel {
    match loaded_map(file) {
        Ok(Some(m)) => FsmModel {
            page_size: m.page_size,
            cats: extended(m.cats, n, category(m.page_size, m.page_size)),
        },
        _ => FsmModel { page_size, cats: Seq::new(n, |i: int| category(page_size, page_size)) },
    }
}

/// The page that a search for `needed` bytes finds.
pub open spec fn found_page(m: FsmModel, needed: nat) -> Option<int> {
    first_page(m.cats, 0, wanted_category(m.page_size, needed))
}

/// The first page from `from` on whose category is at least `cat`.
pub open spec fn first_page(cats: Seq<u8>, from: int, cat: u8) -> Option<int>
    decreases cats.len() - from,
{
    if from >= cats.len() || from < 0 {
        None
    } else if cats[from] >= cat {
        Some(from)
    } else {
        first_page(cats, from + 1, cat)
    }
}

/// `cats` made `n` long, with new entries `cat`; it never gets shorter.
pub open spec fn extended(cats: Seq<u8>, n: nat, cat: u8) -> Seq<u8> {
    if n <= cats.len() {
        cats
    } else {
        cats + Seq::new((n - cats.len()) as nat, |i: int| cat)
    }
}

/// Whether `n` is a power of two.
pub open spec fn is_pow2(n: nat) -> bool
    decreases n,
{
    n == 1 || (n > 1 && n % 2 == 0 && is_pow2(n / 2))
}

/// The larger of two categories.
pub open spec fn cat_max(a: u8, b: u8) -> u8 {
    if a < b {
        b
    } else {
        a
    }
}

/// Whether inner node `i` holds the maximum of its children.
pub open spec fn node_ok(tree: Seq<u8>, i: int) -> bool {
    tree[i] == cat_max(tree[2 * i + 1], tree[2 * i + 2])
}

/// Whether the machine can count the nodes of a tree over so many pages.
pub open spec fn tree_fits(pages: nat) -> bool {
    2 * pages <= usize::MAX + 1
}

/// Setting inner node `p` to the maximum of its children puts it in order, and disturbs none but
/// its parent.
proof fn lemma_node_set(tree: Seq<u8>, p: int, inner: int)
    requires
        0 <= p < inner,
        tree.len() == 2 * inner + 1,
        forall|i: int| 0 <= i < inner && i != p ==> #[trigger] node_ok(tree, i),
    ensures
        ({
            let t = tree.update(p, cat_max(tree[2 * p + 1], tree[2 * p + 2]));
            forall|i: int| 0 <= i < inner && i != (p - 1) / 2 ==> #[trigger] node_ok(t, i)
        }),
{
    let t = tree.update(p, cat_max(tree[2 * p + 1], tree[2 * p + 2]));
    assert forall|i: int| 0 <= i < inner && i != (p - 1) / 2 implies #[trigger] node_ok(t, i) by {
        assert(2 * i + 1 != p && 2 * i + 2 != p);
        if i != p {
            assert(node_ok(tree, i));
        }
    }
}

impl View for FreeSpaceMap {
    type V = FsmModel;

    open spec fn view(&self) -> FsmModel {
        FsmModel {
            page_size: self.page_size as nat,
            cats: Seq::new(self.page_count as nat, |i: int| self.tree@[self.leaf_offset + i]),
        }
    }
}

impl FreeSpaceMap {
    /// The shape of the tree, without the order of its inner nodes.
    pub open spec fn shape(&self) -> bool {
        &&& is_pow2(self.leaf_count as nat)
        &&& self.leaf_offset == self.leaf_count - 1
        &&& self.tree@.len() == 2 * self.leaf_count - 1 <= usize::MAX
        &&& self.page_count <= self.leaf_count
        &&& forall|i: int|
            self.leaf_offset + self.page_count <= i < self.tree@.len() ==> self.tree@[i] == 0
    }

    /// The tree is a max-heap over its leaves.
    pub open spec fn wf(&self) -> bool {
        &&& self.shape()
        &&& forall|i: int| 0 <= i < self.leaf_offset ==> #[trigger] node_ok(self.tree@, i)
    }

    /// A map of `page_count` pages, each taken to be empty.
    pub fn new(page_count: usize, page_size: usize) -> (r: Self)
        requires
            tree_fits(page_count as nat),
        ensures
            r.wf(),
            r@.page_size == page_size,
            r@.cats == Seq::new(
                page_count as nat,
                |i: int| category(page_size as nat, page_size as nat),
            ),
    {
        let max_cat: u8 = Self::bytes_to_cat_static(page_size, page_size);
        let leaves: Vec<u8> = vec![max_cat; page_count];
        let r: Self = Self::from_leaves(&leaves, page_size);
        assert(r@.cats =~= leaves@);
        assert(leaves@ =~= Seq::new(
            page_count as nat,
            |i: int| category(page_size as nat, page_size as nat),
        ));
        r
    }

    /// The map whose leaves are `leaves`.
    fn from_leaves(leaves: &Vec<u8>, page_size: usize) -> (r: Self)
        requires
            tree_fits(leaves@.len()),
        ensures
            r.wf(),
            r@.page_size == page_size,
            r@.cats == leaves@,
            r.page_count == leaves@.len(),
    {
        let page_count: usize = leaves.len();
        let leaf_count: usize = next_power_of_two(page_count);
        let leaf_offset: usize = leaf_count - 1;
        let tree_size: usize = leaf_count + leaf_offset;
        let mut tree: Vec<u8> = vec![0u8; tree_size];
        let mut pid: usize = 0;
        while pid < page_count
            invariant
                pid <= page_count <= leaf_count,
                page_count == leaves@.len(),
                leaf_offset == leaf_count - 1,
                tree@.len() == tree_size == leaf_count + leaf_offset,
                forall|i: int| 0 <= i < pid ==> tree@[leaf_offset + i] == leaves@[i],
                forall|i: int| leaf_offset + pid <= i < tree@.len() ==> tree@[i] == 0,
            decreases page_count - pid,
        {
            tree.set(leaf_offset + pid, leaves[pid]);
            pid += 1;
        }
        let mut fsm = Self { tree, leaf_offset, leaf_count, page_count, page_size };
        assert(fsm@.cats =~= leaves@);
        fsm.rebuild_internal();
        assert(fsm@.cats =~= leaves@);
        fsm
    }

    /// The number of pages that the map tracks.
    pub fn page_count(&self) -> (r: usize)
        ensures
            r == self@.cats.len(),
    {
        self.page_count
    }

    /// The first page that has at least `needed` bytes free by its category.
    pub fn search(&self, needed: usize) -> (r: Option<usize>)
        requires
            self.wf(),
        ensures
            (match r {
                Some(p) => Some(p as int),
                None => None::<int>,
            }) == found_page(self@, needed as nat),
    {
        self.first_with(0, self.wanted_cat(needed))
    }

    /// The first page from `from` on whose category is at least `target`. The walk starts at the
    /// root, or at the leaf of page `from`, and takes as many steps up and down as the tree is
    /// high, and no more.
    pub fn first_with(&self, from: usize, target: u8) -> (r: Option<usize>)
        requires
            self.wf(),
        ensures
            (match r {
                Some(p) => Some(p as int),
                None => None::<int>,
            }) == first_page(self@.cats, from as int, target),
    {
        let ghost cats = self@.cats;
        if from >= self.page_count {
            return None;
        }
        // The node is the `k`-th of `c` on its level and stands over `w` leaves.
        let mut c: usize = if from == 0 { 1 } else { self.leaf_count };
        let mut k: usize = from;
        let ghost mut w: int = if from == 0 {
            self.leaf_count as int
        } else {
            1
        };
        proof {
            assert(1 * self.leaf_count == self.leaf_count) by (nonlinear_arith);
            assert(0 * w == 0) by (nonlinear_arith);
            assert(k * w == from) by (nonlinear_arith)
                requires
                    from == 0 || w == 1,
                    k == from,
            ;
        }
        loop
            invariant
                self.wf(),
                cats == self@.cats,
                from < self.page_count,
                0 <= k < c <= self.leaf_count,
                1 <= w,
                is_pow2(w as nat),
                is_pow2(c as nat),
                c * w == self.leaf_count,
                from <= k * w,
                forall|i: int|
                    from <= i < k * w ==> (#[trigger] self.tree@[self.leaf_offset + i]) < target,
            decreases self.leaf_count - k * w,
        {
            let idx: usize = c + k - 1;
            proof {
                lemma_node_max(*self, idx as int, c as int, k as int, w);
            }
            if self.tree[idx] >= target {
                let pid: usize = self.descend(
                    idx,
                    target,
                    Ghost(c as int),
                    Ghost(k as int),
                    Ghost(w),
                );
                if pid < self.page_count {
                    proof {
                        assert forall|i: int| from <= i < pid implies cats[i] < target by {
                            assert(self.tree@[self.leaf_offset + i] < target);
                        }
                        lemma_first_page(cats, from as int, target, pid as int);
                    }
                    return Some(pid);
                }
                proof {
                    assert forall|i: int| from <= i < cats.len() implies cats[i] < target by {
                        assert(self.tree@[self.leaf_offset + i] < target);
                    }
                    lemma_no_page(cats, from as int, target);
                }
                return None;
            }
            proof {
                assert((k + 1) * w == k * w + w) by (nonlinear_arith);
                assert forall|i: int| from <= i < (k + 1) * w implies (
                #[trigger] self.tree@[self.leaf_offset + i]) < target by {
                    if i >= k * w {
                        assert(self.tree@[self.leaf_offset + i] <= self.tree@[idx as int]);
                    }
                }
            }
            let ghost before = k * w;
            k = k + 1;
            if k == c {
                proof {
                    assert forall|i: int| from <= i < cats.len() implies cats[i] < target by {
                        assert(self.tree@[self.leaf_offset + i] < target);
                    }
                    lemma_no_page(cats, from as int, target);
                }
                return None;
            }
            while k % 2 == 0
                invariant
                    self.wf(),
                    0 < k < c <= self.leaf_count,
                    1 <= w,
                    is_pow2(w as nat),
                    is_pow2(c as nat),
                    c * w == self.leaf_count,
                    from <= before < k * w,
                    forall|i: int|
                        from <= i < k * w ==> (#[trigger] self.tree@[self.leaf_offset + i])
                            < target,
                decreases c,
            {
                proof {
                    assert(c > 1 && c % 2 == 0);
                    assert((c / 2) * (2 * w) == c * w && (k / 2) * (2 * w) == k * w)
                        by (nonlinear_arith)
                        requires
                            c == 2 * (c / 2),
                            k == 2 * (k / 2),
                    ;
                    assert((2 * w) as nat / 2 == w as nat);
                    w = 2 * w;
                }
                c = c / 2;
                k = k / 2;
            }
            assert(k * w < c * w) by (nonlinear_arith)
                requires
                    k < c,
                    1 <= w,
            ;
        }
    }

    /// The first leaf under node `idx` whose category is at least `target`, where there is one.
    fn descend(
        &self,
        idx: usize,
        target: u8,
        Ghost(c0): Ghost<int>,
        Ghost(k0): Ghost<int>,
        Ghost(w0): Ghost<int>,
    ) -> (r: usize)
        requires
            self.wf(),
            idx < self.tree@.len(),
            idx + 1 == c0 + k0,
            0 <= k0 < c0,
            1 <= w0,
            is_pow2(w0 as nat),
            c0 * w0 == self.leaf_count,
            self.tree@[idx as int] >= target,
        ensures
            k0 * w0 <= r < k0 * w0 + w0 <= self.leaf_count,
            self.tree@[self.leaf_offset + r] >= target,
            forall|i: int|
                k0 * w0 <= i < r ==> (#[trigger] self.tree@[self.leaf_offset + i]) < target,
    {
        let mut idx: usize = idx;
        let ghost mut c: int = c0;
        let ghost mut k: int = k0;
        let ghost mut w: int = w0;
        proof {
            lemma_node_max(*self, idx as int, c, k, w);
        }
        while idx < self.leaf_offset
            invariant
                self.wf(),
                0 <= idx < self.tree@.len(),
                idx + 1 == c + k,
                0 <= k < c,
                1 <= w,
                is_pow2(w as nat),
                c * w == self.leaf_count,
                k0 * w0 <= k * w,
                k * w + w <= k0 * w0 + w0 <= self.leaf_count,
                self.tree@[idx as int] >= target,
                forall|i: int|
                    k0 * w0 <= i < k * w ==> (#[trigger] self.tree@[self.leaf_offset + i])
                        < target,
            decreases self.tree@.len() - idx,
        {
            let left: usize = 2 * idx + 1;
            let right: usize = 2 * idx + 2;
            proof {
                assert(node_ok(self.tree@, idx as int));
                assert(w > 1) by (nonlinear_arith)
                    requires
                        idx < self.leaf_count - 1,
                        idx + 1 == c + k,
                        0 <= k < c,
                        c * w == self.leaf_count,
                        1 <= w,
                ;
                assert(w == 2 * (w / 2));
                assert((2 * c) * (w / 2) == self.leaf_count) by (nonlinear_arith)
                    requires
                        c * w == self.leaf_count,
                        w == 2 * (w / 2),
                ;
                assert((2 * k) * (w / 2) == k * w) by (nonlinear_arith)
                    requires
                        w == 2 * (w / 2),
                ;
                assert((2 * k + 1) * (w / 2) == (2 * k) * (w / 2) + w / 2) by (nonlinear_arith);
            }
            if self.tree[left] >= target {
                idx = left;
                proof {
                    c = 2 * c;
                    k = 2 * k;
                    w = w / 2;
                }
            } else {
                proof {
                    lemma_node_max(*self, left as int, 2 * c, 2 * k, w / 2);
                    assert forall|i: int| k0 * w0 <= i < (2 * k + 1) * (w / 2) implies (
                    #[trigger] self.tree@[self.leaf_offset + i]) < target by {
                        if i >= k * w {
                            assert(self.tree@[self.leaf_offset + i] <= self.tree@[left as int]);
                        }
                    }
                    c = 2 * c;
                    k = 2 * k + 1;
                    w = w / 2;
                }
                idx = right;
            }
        }
        proof {
            assert(w == 1) by (nonlinear_arith)
                requires
                    idx >= self.leaf_count - 1,
                    idx + 1 == c + k,
                    0 <= k < c,
                    c * w == self.leaf_count,
                    1 <= w,
            ;
            assert(c * 1 == c);
            assert(k * 1 == k);
            assert(idx == self.leaf_offset + k);
        }
        idx - self.leaf_offset
    }

    /// Records the free bytes of a page; a page that is not tracked is passed over.
    pub fn update(&mut self, page_id: usize, free_bytes: usize)
        requires
            old(self).wf(),
        ensures
            final(self).wf(),
            final(self)@.page_size == old(self)@.page_size,
            final(self)@.cats == if page_id < old(self)@.cats.len() {
                old(self)@.cats.update(
                    page_id as int,
                    category(old(self)@.page_size, free_bytes as nat),
                )
            } else {
                old(self)@.cats
            },
    {
        if page_id >= self.page_count {
            return;
        }
        let cat: u8 = self.bytes_to_cat(free_bytes);
        let leaf_idx: usize = self.leaf_offset + page_id;
        let ghost before = self.tree@;
        self.tree.set(leaf_idx, cat);
        proof {
            assert forall|i: int| 0 <= i < self.leaf_offset && i != (leaf_idx - 1)
                / 2 implies #[trigger] node_ok(self.tree@, i) by {
                assert(node_ok(before, i));
            }
        }
        self.bubble_up(leaf_idx);
        assert(self@.cats =~= old(self)@.cats.update(page_id as int, cat));
    }

    /// Makes the map track `new_count` pages; new pages are taken to be empty.
    pub fn extend(&mut self, new_count: usize)
        requires
            old(self).wf(),
            tree_fits(new_count as nat),
        ensures
            final(self).wf(),
            final(self)@.page_size == old(self)@.page_size,
            final(self)@.cats == extended(
                old(self)@.cats,
                new_count as nat,
                category(old(self)@.page_size, old(self)@.page_size),
            ),
    {
        if new_count <= self.page_count {
            return;
        }
        let max_cat: u8 = self.bytes_to_cat(self.page_size);
        let ghost want = extended(self@.cats, new_count as nat, max_cat);
        if new_count <= self.leaf_count {
            let mut pid: usize = self.page_count;
            while pid < new_count
                invariant
                    old(self).wf(),
                    old(self).page_count <= pid <= new_count <= self.leaf_count,
                    self.page_count == old(self).page_count,
                    self.page_size == old(self).page_size,
                    self.leaf_count == old(self).leaf_count,
                    self.leaf_offset == old(self).leaf_offset == self.leaf_count - 1,
                    self.tree@.len() == old(self).tree@.len() == 2 * self.leaf_count - 1,
                    forall|i: int|
                        0 <= i < self.tree@.len() ==> self.tree@[i] == if self.leaf_offset
                            + self.page_count <= i < self.leaf_offset + pid {
                            max_cat
                        } else {
                            old(self).tree@[i]
                        },
                decreases new_count - pid,
            {
                let at: usize = self.leaf_offset + pid;
                self.tree.set(at, max_cat);
                pid += 1;
            }
            self.page_count = new_count;
            assert(self@.cats =~= want);
            self.rebuild_internal();
            assert(self@.cats =~= want);
            return;
        }
        let mut leaves: Vec<u8> = Vec::new();
        let mut pid: usize = 0;
        while pid < new_count
            invariant
                self.wf(),
                self@ == old(self)@,
                pid <= new_count,
                self.page_count <= new_count,
                want == extended(self@.cats, new_count as nat, max_cat),
                leaves@ == want.subrange(0, pid as int),
            decreases new_count - pid,
        {
            if pid < self.page_count {
                leaves.push(self.tree[self.leaf_offset + pid]);
            } else {
                leaves.push(max_cat);
            }
            pid += 1;
            assert(leaves@ =~= want.subrange(0, pid as int));
        }
        assert(want.subrange(0, new_count as int) =~= want);
        let page_size: usize = self.page_size;
        *self = Self::from_leaves(&leaves, page_size);
    }

    /// The bytes of the map's `.FSM` file.
    pub fn save(&self) -> (r: Vec<u8>)
        requires
            self.wf(),
        ensures
            r@ == saved_map(self@),
    {
        let mut out: Vec<u8> = le_vec(self.page_size as u64, 4);
        append_bytes(&mut out, le_vec(self.page_count as u64, 4).as_slice());
        let ghost head = out@;
        let mut pid: usize = 0;
        while pid < self.page_count
            invariant
                self.wf(),
                pid <= self.page_count,
                out@ == head + self@.cats.subrange(0, pid as int),
            decreases self.page_count - pid,
        {
            out.push(self.tree[self.leaf_offset + pid]);
            pid += 1;
            assert(self@.cats.subrange(0, pid as int) =~= self@.cats.subrange(0, pid - 1).push(
                self@.cats[pid - 1],
            ));
        }
        assert(self@.cats.subrange(0, self.page_count as int) =~= self@.cats);
        out
    }

    /// Tells whether the machine holds the map in a `.FSM` file.
    pub fn is_loadable(file: Option<&[u8]>) -> (r: bool)
        ensures
            r == (file is Some && file->0@.len() >= 8 ==> tree_fits(le_at(file->0@, 4, 4))),
    {
        match file {
            Some(bytes) => {
                if bytes.len() < 8 {
                    return true;
                }
                let pages: u64 = get_le(bytes, 4, 4);
                proof {
                    lemma_pow256();
                }
                2 * (pages as u128) <= usize::MAX as u128 + 1
            }
            None => true,
        }
    }

    /// Reads the bytes of a `.FSM` file.
    pub fn load(file: Option<&[u8]>) -> (r: DbResult<Option<Self>>)
        requires
            file is Some && file->0@.len() >= 8 ==> tree_fits(le_at(file->0@, 4, 4)),
        ensures
            ({
                let loaded = loaded_map(file_view(file));
                match r {
                    Ok(None) => loaded == Ok::<Option<FsmModel>, ErrorModel>(None),
                    Ok(Some(m)) => m.wf() && loaded == Ok::<Option<FsmModel>, ErrorModel>(Some(m@)),
                    Err(e) => loaded == Err::<Option<FsmModel>, ErrorModel>(e@),
                }
            }),
    {
        let bytes: &[u8] = match file {
            Some(b) => b,
            None => {
                return Ok(None);
            }
        };
        let total: usize = bytes.len();
        if total < 8 {
            return Ok(None);
        }
        proof {
            lemma_pow256();
        }
        let page_size: usize = get_le(bytes, 0, 4) as usize;
        let page_count: usize = get_le(bytes, 4, 4) as usize;
        if page_size == 0 {
            return Err(corruption("FSM file has page_size=0"));
        }
        if total - 8 < page_count {
            return Err(Error::Io("failed to fill whole buffer".to_owned()));
        }
        let mut leaves: Vec<u8> = Vec::new();
        append_bytes(&mut leaves, &bytes[8..8 + page_count]);
        assert(leaves@ =~= bytes@.subrange(8, 8 + page_count));
        Ok(Some(Self::from_leaves(&leaves, page_size)))
    }

    /// The category of `free_bytes` bytes.
    pub fn bytes_to_cat(&self, free_bytes: usize) -> (r: u8)
        ensures
            r == category(self@.page_size, free_bytes as nat),
    {
        Self::bytes_to_cat_static(self.page_size, free_bytes)
    }

    /// The category that a page must have to be tried for `needed` bytes.
    fn wanted_cat(&self, needed: usize) -> (r: u8)
        ensures
            r == wanted_category(self@.page_size, needed as nat),
    {
        if self.page_size == 0 {
            return 0;
        }
        let cat: u128 = ((needed as u128) * 256 + (self.page_size as u128 - 1)) / (
        self.page_size as u128);
        if cat > 255 {
            255
        } else {
            cat as u8
        }
    }

    fn bytes_to_cat_static(page_size: usize, free_bytes: usize) -> (r: u8)
        ensures
            r == category(page_size as nat, free_bytes as nat),
    {
        if page_size == 0 {
            return 0;
        }
        let cat: u128 = (free_bytes as u128) * 256 / (page_size as u128);
        if cat > 255 {
            255
        } else {
            cat as u8
        }
    }

    /// Carries a change of node `start` up to the root.
    fn bubble_up(&mut self, start: usize)
        requires
            old(self).shape(),
            start < old(self).tree@.len(),
            forall|i: int|
                0 <= i < old(self).leaf_offset && i != (start - 1) / 2 ==> #[trigger] node_ok(
                    old(self).tree@,
                    i,
                ),
        ensures
            final(self).wf(),
            final(self).page_count == old(self).page_count,
            final(self).page_size == old(self).page_size,
            final(self).leaf_offset == old(self).leaf_offset,
            forall|i: int|
                old(self).leaf_offset <= i < old(self).tree@.len() ==> final(self).tree@[i]
                    == old(self).tree@[i],
    {
        let mut idx: usize = start;
        while idx > 0
            invariant
                self.shape(),
                self.page_count == old(self).page_count,
                self.page_size == old(self).page_size,
                self.leaf_offset == old(self).leaf_offset,
                self.tree@.len() == old(self).tree@.len(),
                idx < self.tree@.len(),
                forall|i: int|
                    old(self).leaf_offset <= i < old(self).tree@.len() ==> self.tree@[i] == old(
                        self,
                    ).tree@[i],
                forall|i: int|
                    0 <= i < self.leaf_offset && i != (idx - 1) / 2 ==> #[trigger] node_ok(
                        self.tree@,
                        i,
                    ),
            ensures
                forall|i: int| 0 <= i < self.leaf_offset ==> #[trigger] node_ok(self.tree@, i),
            decreases idx,
        {
            let parent: usize = (idx - 1) / 2;
            let left_val: u8 = self.tree[2 * parent + 1];
            let right_val: u8 = self.tree[2 * parent + 2];
            let new_val: u8 = if left_val < right_val { right_val } else { left_val };
            if self.tree[parent] == new_val {
                assert(node_ok(self.tree@, parent as int));
                break;
            }
            let ghost before = self.tree@;
            self.tree.set(parent, new_val);
            proof {
                let p = parent as int;
                lemma_node_set(before, p, self.leaf_offset as int);
                assert(new_val == cat_max(before[2 * p + 1], before[2 * p + 2]));
                assert(self.tree@ == before.update(p, new_val));
            }
            idx = parent;
        }
    }

    /// Computes all inner nodes from the leaves.
    fn rebuild_internal(&mut self)
        requires
            old(self).shape(),
        ensures
            final(self).wf(),
            final(self).page_count == old(self).page_count,
            final(self).page_size == old(self).page_size,
            final(self).leaf_offset == old(self).leaf_offset,
            forall|i: int|
                old(self).leaf_offset <= i < old(self).tree@.len() ==> final(self).tree@[i]
                    == old(self).tree@[i],
    {
        let mut i: usize = self.leaf_offset;
        while i > 0
            invariant
                self.shape(),
                i <= self.leaf_offset,
                self.page_count == old(self).page_count,
                self.page_size == old(self).page_size,
                self.leaf_offset == old(self).leaf_offset,
                self.tree@.len() == old(self).tree@.len(),
                forall|j: int|
                    old(self).leaf_offset <= j < old(self).tree@.len() ==> self.tree@[j] == old(
                        self,
                    ).tree@[j],
                forall|j: int| i <= j < self.leaf_offset ==> #[trigger] node_ok(self.tree@, j),
            decreases i,
        {
            i -= 1;
            let left_val: u8 = self.tree[2 * i + 1];
            let right_val: u8 = self.tree[2 * i + 2];
            let ghost before = self.tree@;
            self.tree.set(i, if left_val < right_val { right_val } else { left_val });
            proof {
                assert forall|j: int| i <= j < self.leaf_offset implies #[trigger] node_ok(
                    self.tree@,
                    j,
                ) by {
                    if j != i {
                        assert(node_ok(before, j));
                    }
                }
            }
        }
    }
}

/// Of two powers of two the greater is at least twice the other.
proof fn lemma_pow2_apart(a: nat, b: nat)
    requires
        is_pow2(a),
        is_pow2(b),
        a < b,
    ensures
        2 * a <= b,
    decreases b,
{
    if a > 1 {
        lemma_pow2_apart(a / 2, b / 2);
    }
}

/// Half of what the machine counts to is a power of two.
proof fn lemma_half_is_pow2()
    ensures
        is_pow2(((usize::MAX + 1) / 2) as nat),
{
    assert(is_pow2(0x8000_0000)) by {
        reveal_with_fuel(is_pow2, 33);
    }
    assert(is_pow2(0x8000_0000_0000_0000)) by {
        reveal_with_fuel(is_pow2, 65);
    }
    assert(usize::MAX == 0xffff_ffff || usize::MAX == 0xffff_ffff_ffff_ffff);
}

/// The least power of two that is at least `n`, and at least 1.
fn next_power_of_two(n: usize) -> (p: usize)
    requires
        tree_fits(n as nat),
    ensures
        is_pow2(p as nat),
        n <= p,
        p == 1 || p < 2 * n,
        2 * p - 1 <= usize::MAX,
{
    let mut p: usize = 1;
    proof {
        lemma_half_is_pow2();
    }
    while p < n
        invariant
            tree_fits(n as nat),
            is_pow2(p as nat),
            is_pow2(((usize::MAX + 1) / 2) as nat),
            1 <= p,
            2 * p <= usize::MAX + 1,
            p == 1 || p < 2 * n,
        decreases 2 * n - p,
    {
        proof {
            lemma_pow2_apart(p as nat, ((usize::MAX + 1) / 2) as nat);
            assert((2 * p) as nat / 2 == p as nat);
        }
        p = 2 * p;
    }
    p
}

/// A node holds the maximum of the leaves below it: node `idx`, the `k`-th of `c` on its level,
/// stands over the `w` leaves from `k * w` on.
proof fn lemma_node_max(m: FreeSpaceMap, idx: int, c: int, k: int, w: int)
    requires
        m.wf(),
        idx + 1 == c + k,
        0 <= k < c,
        1 <= w,
        is_pow2(w as nat),
        c * w == m.leaf_count,
    ensures
        0 <= idx < m.tree@.len(),
        k * w + w <= m.leaf_count,
        0 <= k * w,
        forall|i: int|
            k * w <= i < k * w + w ==> (#[trigger] m.tree@[m.leaf_offset + i]) <= m.tree@[idx],
    decreases w,
{
    assert(0 <= k * w && k * w + w <= c * w && c <= c * w) by (nonlinear_arith)
        requires
            0 <= k < c,
            1 <= w,
    ;
    if w == 1 {
        assert(c * 1 == c && k * 1 == k);
    } else {
        let h = w / 2;
        assert(w == 2 * h);
        assert((2 * c) * h == c * w && (2 * k) * h == k * w && (2 * k + 1) * h == k * w + h && 2 * c
            <= (2 * c) * h) by (nonlinear_arith)
            requires
                w == 2 * h,
                1 <= h,
                0 <= k < c,
        ;
        lemma_node_max(m, 2 * idx + 1, 2 * c, 2 * k, h);
        lemma_node_max(m, 2 * idx + 2, 2 * c, 2 * k + 1, h);
        assert(idx < m.leaf_offset);
        assert(node_ok(m.tree@, idx));
        assert forall|i: int| k * w <= i < k * w + w implies (
        #[trigger] m.tree@[m.leaf_offset + i]) <= m.tree@[idx] by {
            if i < k * w + h {
                assert(m.tree@[m.leaf_offset + i] <= m.tree@[2 * idx + 1]);
            } else {
                assert(m.tree@[m.leaf_offset + i] <= m.tree@[2 * idx + 2]);
            }
        }
    }
}

proof fn lemma_no_page(cats: Seq<u8>, from: int, cat: u8)
    requires
        0 <= from,
        forall|i: int| from <= i < cats.len() ==> cats[i] < cat,
    ensures
        first_page(cats, from, cat) is None,
    decreases cats.len() - from,
{
    if from < cats.len() {
        lemma_no_page(cats, from + 1, cat);
    }
}

/// The page that is found is the first with its category.
pub proof fn lemma_first_page(cats: Seq<u8>, from: int, cat: u8, p: int)
    requires
        0 <= from <= p < cats.len(),
        cats[p] >= cat,
        forall|i: int| from <= i < p ==> cats[i] < cat,
    ensures
        first_page(cats, from, cat) == Some(p),
    decreases p - from,
{
    if from < p {
        lemma_first_page(cats, from + 1, cat, p);
    }
}

// ── Laws of the map ──

/// A search finds a page if and only if one has the category, and then the first such page.
pub proof fn law_search_is_first(cats: Seq<u8>, from: int, cat: u8)
    requires
        0 <= from,
    ensures
        match first_page(cats, from, cat) {
            Some(p) => {
                &&& from <= p < cats.len()
                &&& cats[p] >= cat
                &&& forall|i: int| from <= i < p ==> cats[i] < cat
            },
            None => forall|i: int| from <= i < cats.len() ==> cats[i] < cat,
        },
    decreases cats.len() - from,
{
    if from < cats.len() && cats[from] < cat {
        law_search_is_first(cats, from + 1, cat);
    }
}

/// A page that a search takes has the bytes that it was asked for, short of the last category:
/// where the page's category is that of its free bytes, it has at least `needed` bytes free.
pub proof fn law_found_page_has_room(page_size: nat, free: nat, needed: nat)
    requires
        0 < page_size,
        wanted_category(page_size, needed) <= category(page_size, free),
        wanted_category(page_size, needed) < 255,
    ensures
        needed <= free,
{
    let n = (needed * 256 + page_size - 1) as int;
    let q = n / (page_size as int);
    let f = ((free * 256) as int) / (page_size as int);
    vstd::arithmetic::div_mod::lemma_fundamental_div_mod(n, page_size as int);
    vstd::arithmetic::div_mod::lemma_fundamental_div_mod((free * 256) as int, page_size as int);
    assert(0 <= q <= f);
    assert(page_size as int * q <= page_size as int * f) by (nonlinear_arith)
        requires
            0 <= q <= f,
            0 < page_size,
    ;
}

/// A page with a 256th of its size to spare is not passed over.
pub proof fn law_roomy_page_is_taken(page_size: nat, free: nat, needed: nat)
    requires
        needed * 256 + page_size <= free * 256,
    ensures
        wanted_category(page_size, needed) <= category(page_size, free),
{
    if page_size > 0 {
        vstd::arithmetic::div_mod::lemma_div_is_ordered(
            (needed * 256 + page_size - 1) as int,
            (free * 256) as int,
            page_size as int,
        );
    }
}

/// More free bytes never give a lower category.
pub proof fn law_category_is_monotone(page_size: nat, free: nat, more: nat)
    requires
        free <= more,
    ensures
        category(page_size, free) <= category(page_size, more),
{
    if page_size > 0 {
        vstd::arithmetic::div_mod::lemma_div_is_ordered(
            (free * 256) as int,
            (more * 256) as int,
            page_size as int,
        );
    }
}

/// A category is a bound on the free bytes: a page with category `c` has at least `c` 256ths of
/// the page free.
pub proof fn law_category_bounds_free(page_size: nat, free: nat)
    ensures
        category(page_size, free) * page_size <= free * 256,
{
    if page_size > 0 {
        let q = (free * 256) / page_size;
        vstd::arithmetic::div_mod::lemma_fundamental_div_mod(
            (free * 256) as int,
            page_size as int,
        );
        assert(category(page_size, free) as int * page_size as int <= q * page_size)
            by (nonlinear_arith)
            requires
                0 <= category(page_size, free) <= q,
                0 < page_size,
        ;
        assert(q * page_size == page_size * q) by (nonlinear_arith);
    }
}

/// A map that was saved is loaded as it was, and so answers every search as it did.
pub proof fn law_save_then_load(m: FsmModel)
    requires
        0 < m.page_size < 0x1_0000_0000,
        m.cats.len() < 0x1_0000_0000,
    ensures
        loaded_map(Some(saved_map(m))) == Ok::<Option<FsmModel>, ErrorModel>(Some(m)),
        forall|loaded: FsmModel, needed: nat|
            loaded_map(Some(saved_map(m))) == Ok::<Option<FsmModel>, ErrorModel>(Some(loaded))
                ==> #[trigger] found_page(loaded, needed) == found_page(m, needed),
        le_at(saved_map(m), 4, 4) == m.cats.len(),
{
    let file = saved_map(m);
    lemma_pow256();
    lemma_le_bytes_len(m.page_size, 4);
    lemma_le_bytes_len(m.cats.len(), 4);
    lemma_le_value_of_bytes(m.page_size, 4);
    lemma_le_value_of_bytes(m.cats.len(), 4);
    assert(file.subrange(0, 4) =~= le_bytes(m.page_size, 4));
    assert(file.subrange(4, 8) =~= le_bytes(m.cats.len(), 4));
    assert(file.subrange(8, 8 + m.cats.len() as int) =~= m.cats);
}

/// Every map that there is can be loaded again from its file: the file is one that
/// [`FreeSpaceMap::load`] takes, whatever the number of pages, and it gives the map.
pub proof fn law_every_map_is_loaded_again(m: FreeSpaceMap)
    requires
        m.wf(),
        0 < m@.page_size < 0x1_0000_0000,
        m@.cats.len() < 0x1_0000_0000,
    ensures
        tree_fits(le_at(saved_map(m@), 4, 4)),
        loaded_map(Some(saved_map(m@))) == Ok::<Option<FsmModel>, ErrorModel>(Some(m@)),
        forall|loaded: FsmModel, needed: nat|
            loaded_map(Some(saved_map(m@))) == Ok::<Option<FsmModel>, ErrorModel>(Some(loaded))
                ==> #[trigger] found_page(loaded, needed) == found_page(m@, needed),
{
    law_save_then_load(m@);
}

/// A file that is missing or too short for its first two fields has no map, and one that gives a
/// page size of 0 is damaged.
pub proof fn law_files_without_a_map(file: Seq<u8>)
    ensures
        loaded_map(None) == Ok::<Option<FsmModel>, ErrorModel>(None),
        file.len() < 8 ==> loaded_map(Some(file)) == Ok::<Option<FsmModel>, ErrorModel>(None),
        file.len() >= 8 && le_at(file, 0, 4) == 0 ==> loaded_map(Some(file)) is Err
            && loaded_map(Some(file))->Err_0 is Corruption,
{
}

/// The category of free bytes is how many whole 256ths of the page they are, and 255 at most.
pub proof fn law_category_counts_256ths(page_size: nat, free: nat)
    requires
        0 < page_size,
    ensures
        category(page_size, free) < 255 ==> free * 256 < (category(page_size, free) + 1)
            * page_size,
        category(page_size, free) * page_size <= free * 256,
        category(page_size, page_size) == 255,
        category(page_size, 0) == 0,
{
    law_category_bounds_free(page_size, free);
    vstd::arithmetic::div_mod::lemma_fundamental_div_mod((free * 256) as int, page_size as int);
    let q = (free * 256) / page_size;
    let r = (free * 256) % page_size;
    assert(page_size * q + page_size == (q + 1) * page_size) by (nonlinear_arith);
    vstd::arithmetic::div_mod::lemma_div_by_multiple(256, page_size as int);
    assert(page_size * 256 == 256 * page_size);
    vstd::arithmetic::div_mod::lemma_div_basics(page_size as int);
    assert(0nat * 256 == 0);
}

/// A map of new pages takes each to be empty, and a map that is extended keeps what it knew.
pub proof fn law_new_pages_count_as_empty(cats: Seq<u8>, n: nat, page_size: nat)
    ensures
        ({
            let more = extended(cats, n, category(page_size, page_size));
            &&& more.len() == if n <= cats.len() {
                cats.len()
            } else {
                n
            }
            &&& forall|i: int| 0 <= i < cats.len() ==> #[trigger] more[i] == cats[i]
            &&& forall|i: int|
                cats.len() <= i < more.len() ==> #[trigger] more[i] == category(
                    page_size,
                    page_size,
                )
        }),
{
}

} // verus!
