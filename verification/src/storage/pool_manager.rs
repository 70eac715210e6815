//! The buffer pools of a database, by number.

use vstd::prelude::*;
use vstd::string::StringExecFns;
use crate::error::{DbResult, Error, ErrorModel};
use crate::storage::heap::{zero_page, HeapFile};
use crate::storage::page::PageRead;
use crate::text::{decimal_signed, int_text};
use crate::storage::pool_model::{without, BufferPoolId, FileId, FileModel, FrameMeta, PoolModel};
use crate::storage::pool::{size_mismatch_text, BufferPool};

verus! {

/// The buffer pools of a database, by number, in the order of the numbers.
pub struct BufferPoolManager {
    pools: Vec<(BufferPoolId, BufferPool)>,
}

/// Where pool `id` is among some pools from `from` on, or their number.
pub open spec fn find_pool(
    pools: Seq<(BufferPoolId, PoolModel)>,
    id: BufferPoolId,
    from: int,
) -> int
    decreases pools.len() - from,
{
    if from >= pools.len() {
        pools.len() as int
    } else if pools[from].0 == id {
        from
    } else {
        find_pool(pools, id, from + 1)
    }
}

/// Whether there is a pool `id`.
pub open spec fn has_pool(pools: Seq<(BufferPoolId, PoolModel)>, id: BufferPoolId) -> bool {
    find_pool(pools, id, 0) < pools.len()
}

/// Pool `id`.
pub open spec fn pool_of(pools: Seq<(BufferPoolId, PoolModel)>, id: BufferPoolId) -> PoolModel {
    pools[find_pool(pools, id, 0)].1
}

/// The pools with pool `id` changed.
pub open spec fn with_pool(
    pools: Seq<(BufferPoolId, PoolModel)>,
    id: BufferPoolId,
    m: PoolModel,
) -> Seq<(BufferPoolId, PoolModel)> {
    pools.update(find_pool(pools, id, 0), (id, m))
}

/// The pools are in the order of their numbers, each number once.
pub open spec fn pools_sorted(pools: Seq<(BufferPoolId, PoolModel)>) -> bool {
    forall|i: int, j: int|
        0 <= i < j < pools.len() ==> (#[trigger] pools[i]).0 < (#[trigger] pools[j]).0
}

/// The error for a pool that does not exist.
pub open spec fn no_pool(id: BufferPoolId) -> ErrorModel {
    ErrorModel::Catalog("buffer pool id "@ + int_text(id as int) + " not found"@)
}

/// An empty pool.
pub open spec fn fresh_pool(name: Seq<char>, capacity: nat, page_size: nat) -> PoolModel {
    PoolModel {
        name,
        page_size,
        frames: Seq::new(capacity, |i: int| FrameMeta::spec_empty()),
        bytes: Seq::new(capacity, |i: int| zero_page(page_size)),
        lru: Seq::new(capacity, |i: int| i as usize),
        files: Seq::empty(),
    }
}

/// The number of pools with a smaller number than `id`, from the front.
pub open spec fn pools_below(
    pools: Seq<(BufferPoolId, PoolModel)>,
    id: BufferPoolId,
    from: int,
) -> int
    decreases pools.len() - from,
{
    if from >= pools.len() || pools[from].0 >= id {
        from
    } else {
        pools_below(pools, id, from + 1)
    }
}

/// What is found at the position of a pool.
pub proof fn lemma_find_pool(pools: Seq<(BufferPoolId, PoolModel)>, id: BufferPoolId, from: int)
    requires
        0 <= from <= pools.len(),
    ensures
        from <= find_pool(pools, id, from) <= pools.len(),
        find_pool(pools, id, from) < pools.len() ==> pools[find_pool(pools, id, from)].0 == id,
        forall|j: int|
            from <= j < find_pool(pools, id, from) ==> (#[trigger] pools[j]).0 != id,
    decreases pools.len() - from,
{
    if from < pools.len() && pools[from].0 != id {
        lemma_find_pool(pools, id, from + 1);
    }
}

/// The place for a number is among the pools or behind them.
pub proof fn lemma_pools_below(pools: Seq<(BufferPoolId, PoolModel)>, id: BufferPoolId, from: int)
    requires
        0 <= from <= pools.len(),
    ensures
        from <= pools_below(pools, id, from) <= pools.len(),
    decreases pools.len() - from,
{
    if from < pools.len() && pools[from].0 < id {
        lemma_pools_below(pools, id, from + 1);
    }
}

/// A pool is found where it is.
pub proof fn lemma_pool_is(pools: Seq<(BufferPoolId, PoolModel)>, id: BufferPoolId, i: int)
    requires
        pools_sorted(pools),
        0 <= i < pools.len(),
        pools[i].0 == id,
    ensures
        find_pool(pools, id, 0) == i,
        has_pool(pools, id),
{
    lemma_find_pool(pools, id, 0);
    let k = find_pool(pools, id, 0);
    if k < i {
        assert(pools[k].0 < pools[i].0);
    }
    if i < k {
        assert(pools[i].0 != id);
    }
}

/// Changing a pool changes that pool alone.
pub proof fn lemma_with_pool(
    pools: Seq<(BufferPoolId, PoolModel)>,
    id: BufferPoolId,
    m: PoolModel,
    other: BufferPoolId,
)
    requires
        pools_sorted(pools),
        has_pool(pools, id),
    ensures
        pools_sorted(with_pool(pools, id, m)),
        has_pool(with_pool(pools, id, m), other) == has_pool(pools, other),
        find_pool(with_pool(pools, id, m), other, 0) == find_pool(pools, other, 0),
        has_pool(pools, other) ==> pool_of(with_pool(pools, id, m), other) == if other == id {
            m
        } else {
            pool_of(pools, other)
        },
{
    let t = with_pool(pools, id, m);
    lemma_find_pool(pools, id, 0);
    lemma_find_pool(pools, other, 0);
    lemma_find_pool(t, other, 0);
    let k = find_pool(pools, id, 0);
    assert forall|i: int, j: int| 0 <= i < j < t.len() implies (#[trigger] t[i]).0 < (
    #[trigger] t[j]).0 by {
        assert(t[i].0 == pools[i].0);
        assert(t[j].0 == pools[j].0);
    }
    assert(forall|i: int| 0 <= i < t.len() ==> (#[trigger] t[i]).0 == pools[i].0);
    if find_pool(pools, other, 0) < pools.len() {
        lemma_pool_is(t, other, find_pool(pools, other, 0));
    } else if find_pool(t, other, 0) < t.len() {
        assert(pools[find_pool(t, other, 0)].0 == other);
    }
}

impl View for BufferPoolManager {
    type V = Seq<(BufferPoolId, PoolModel)>;

    closed spec fn view(&self) -> Seq<(BufferPoolId, PoolModel)> {
        Seq::new(self.pools@.len(), |i: int| (self.pools@[i].0, self.pools@[i].1@))
    }
}

fn no_pool_error(id: BufferPoolId) -> (e: Error)
    ensures
        e@ == no_pool(id),
{
    Error::Catalog(
        "buffer pool id ".to_owned().concat(decimal_signed(id as i64).as_str()).concat(
            " not found",
        ),
    )
}

impl BufferPoolManager {
    /// The pools are in order.
    pub closed spec fn wf(&self) -> bool {
        &&& pools_sorted(self@)
        &&& forall|i: int| 0 <= i < self.pools@.len() ==> (#[trigger] self.pools@[i]).1.wf()
    }

    /// What holds of the pools.
    pub proof fn lemma_wf(&self)
        requires
            self.wf(),
        ensures
            pools_sorted(self@),
            forall|i: int| 0 <= i < self@.len() ==> (#[trigger] self@[i]).1.inv(),
            forall|i: int| 0 <= i < self@.len() ==> (#[trigger] self@[i]).1.frames.len()
                <= usize::MAX,
    {
        assert forall|i: int| 0 <= i < self@.len() implies (#[trigger] self@[i]).1.inv()
            && self@[i].1.frames.len() <= usize::MAX by {
            self.pools@[i].1.lemma_wf();
        }
    }

    /// A database without pools.
    pub fn new() -> (r: Self)
        ensures
            r.wf(),
            r@ == Seq::<(BufferPoolId, PoolModel)>::empty(),
    {
        let r = Self { pools: Vec::new() };
        assert(r@ =~= Seq::<(BufferPoolId, PoolModel)>::empty());
        r
    }

    /// Adds a pool.
    pub fn create_pool(
        &mut self,
        id: BufferPoolId,
        name: &str,
        capacity: usize,
        page_size: usize,
    ) -> (r: DbResult<()>)
        requires
            old(self).wf(),
            capacity * page_size <= usize::MAX,
        ensures
            final(self).wf(),
            if has_pool(old(self)@, id) {
                &&& r is Err
                &&& r->Err_0@ == ErrorModel::Catalog(
                    "buffer pool id "@ + int_text(id as int) + " already exists"@,
                )
                &&& final(self)@ == old(self)@
            } else {
                &&& r is Ok
                &&& final(self)@ == old(self)@.insert(
                    pools_below(old(self)@, id, 0),
                    (id, fresh_pool(name@, capacity as nat, page_size as nat)),
                )
            },
    {
        let n: usize = self.pools.len();
        let ghost m = self@;
        if self.position(id) < n {
            let message: String = "buffer pool id ".to_owned().concat(
                decimal_signed(id as i64).as_str(),
            ).concat(" already exists");
            return Err(Error::Catalog(message));
        }
        let mut at: usize = 0;
        while at < n && self.pools[at].0 < id
            invariant
                at <= n,
                n == self.pools@.len(),
                m == self@,
                forall|i: int| 0 <= i < at ==> (#[trigger] m[i]).0 < id,
                pools_below(m, id, 0) == pools_below(m, id, at as int),
            decreases n - at,
        {
            assert(m[at as int].0 == self.pools@[at as int].0);
            at += 1;
        }
        let pool: BufferPool = BufferPool::new(name, capacity, page_size);
        proof {
            if at < n {
                assert(m[at as int].0 == self.pools@[at as int].0);
            }
            assert(pools_below(m, id, 0) == at);
        }
        let ghost before = self.pools@;
        self.pools.insert(at, (id, pool));
        proof {
            let t = m.insert(
                at as int,
                (id, fresh_pool(name@, capacity as nat, page_size as nat)),
            );
            assert(self@ =~= t);
            lemma_find_pool(m, id, 0);
            assert forall|i: int, j: int| 0 <= i < j < t.len() implies (#[trigger] t[i]).0 < (
            #[trigger] t[j]).0 by {
                let a = if i > at { i - 1 } else { i };
                let b = if j > at { j - 1 } else { j };
                if i == at {
                    assert(m[b].0 != id);
                    if at < b {
                        assert(m[at as int].0 < m[b].0);
                    }
                } else if j == at {
                    assert(m[i].0 < id);
                } else {
                    assert(m[a].0 < m[b].0);
                }
            }
            assert forall|i: int| 0 <= i < self.pools@.len() implies (
            #[trigger] self.pools@[i]).1.wf() by {
                if i < at {
                    assert(self.pools@[i] == before[i]);
                } else if i > at {
                    assert(self.pools@[i] == before[i - 1]);
                }
            }
        }
        Ok(())
    }

    /// Where a pool is, or the number of pools.
    fn position(&self, id: BufferPoolId) -> (r: usize)
        ensures
            r == find_pool(self@, id, 0),
    {
        let n: usize = self.pools.len();
        let mut i: usize = 0;
        while i < n
            invariant
                i <= n,
                n == self.pools@.len(),
                find_pool(self@, id, 0) == find_pool(self@, id, i as int),
            decreases n - i,
        {
            assert(self@[i as int].0 == self.pools@[i as int].0);
            if self.pools[i].0 == id {
                return i;
            }
            i += 1;
        }
        n
    }

    /// A pool.
    pub fn get(&self, id: BufferPoolId) -> (r: DbResult<&BufferPool>)
        requires
            self.wf(),
        ensures
            match r {
                Ok(p) => has_pool(self@, id) && p@ == pool_of(self@, id) && p.wf(),
                Err(e) => !has_pool(self@, id) && e@ == no_pool(id),
            },
    {
        let i: usize = self.position(id);
        if i < self.pools.len() {
            proof {
                lemma_find_pool(self@, id, 0);
            }
            Ok(&self.pools[i].1)
        } else {
            Err(no_pool_error(id))
        }
    }

    /// A pool, to be changed.
    pub fn get_mut<'a>(&'a mut self, id: BufferPoolId) -> (r: DbResult<&'a mut BufferPool>)
        requires
            old(self).wf(),
        ensures
            match r {
                Ok(p) => {
                    &&& has_pool(old(self)@, id)
                    &&& p@ == pool_of(old(self)@, id)
                    &&& p.wf()
                    &&& final(self)@ == with_pool(old(self)@, id, final(p)@)
                    &&& final(p).wf() ==> final(self).wf()
                },
                Err(e) => {
                    &&& !has_pool(old(self)@, id)
                    &&& e@ == no_pool(id)
                    &&& final(self)@ == old(self)@
                    &&& final(self).wf()
                },
            },
    {
        let i: usize = self.position(id);
        if i < self.pools.len() {
            proof {
                lemma_find_pool(self@, id, 0);
                lemma_pool_set(*self, id, i as int);
            }
            Ok(&mut self.pools[i].1)
        } else {
            Err(no_pool_error(id))
        }
    }

    /// Takes a heap file into a pool.
    pub fn register_file(&mut self, pool_id: BufferPoolId, heap: HeapFile) -> (r: DbResult<FileId>)
        requires
            old(self).wf(),
            heap.wf(),
            has_pool(old(self)@, pool_id) ==> pool_of(old(self)@, pool_id).files.len() < u32::MAX,
            has_pool(old(self)@, pool_id) ==> pool_of(old(self)@, pool_id).takes(heap@),
        ensures
            final(self).wf(),
            if !has_pool(old(self)@, pool_id) {
                &&& r is Err
                &&& r->Err_0@ == no_pool(pool_id)
                &&& final(self)@ == old(self)@
            } else {
                let m = pool_of(old(self)@, pool_id);
                if heap@.page_size != m.page_size {
                    &&& r is Err
                    &&& r->Err_0@ == ErrorModel::Catalog(
                        size_mismatch_text(m.page_size, heap@.page_size),
                    )
                    &&& final(self)@ == old(self)@
                } else {
                    &&& r is Ok
                    &&& r->Ok_0 == m.files.len()
                    &&& final(self)@ == with_pool(
                        old(self)@,
                        pool_id,
                        (PoolModel {
                            files: m.files.push(
                                Some(FileModel { heap: heap@, page_count: heap@.pages.len() }),
                            ),
                            ..m
                        }),
                    )
                }
            },
    {
        let ghost before = self@;
        proof {
            lemma_find_pool(before, pool_id, 0);
        }
        match self.get_mut(pool_id) {
            Ok(pool) => {
                let r = pool.register_file(heap);
                proof {
                    assert(with_pool(before, pool_id, pool_of(before, pool_id)) =~= before);
                }
                r
            }
            Err(e) => Err(e),
        }
    }

    /// Writes all changed pages of all pools to their files.
    pub fn flush_all(&mut self) -> (r: DbResult<()>)
        requires
            old(self).wf(),
        ensures
            final(self).wf(),
            r is Ok,
            final(self)@ == all_flushed(old(self)@),
    {
        let n: usize = self.pools.len();
        let ghost m = self@;
        let mut i: usize = 0;
        while i < n
            invariant
                i <= n,
                n == self.pools@.len() == m.len(),
                m == old(self)@,
                pools_sorted(m),
                forall|k: int| 0 <= k < n ==> (#[trigger] self.pools@[k]).1.wf(),
                forall|k: int|
                    0 <= k < n ==> (#[trigger] self.pools@[k]).0 == m[k].0 && self.pools@[k].1@
                        == if k < i {
                        m[k].1.flushed_to(m[k].1.frames.len() as int)
                    } else {
                        m[k].1
                    },
            decreases n - i,
        {
            match self.pools[i].1.flush_all() {
                Ok(_) => {}
                Err(e) => {
                    return Err(e);
                }
            }
            i += 1;
        }
        proof {
            assert(self@ =~= all_flushed(m));
            assert forall|a: int, b: int| 0 <= a < b < self@.len() implies (#[trigger] self@[a]).0
                < (#[trigger] self@[b]).0 by {
                assert(m[a].0 < m[b].0);
            }
        }
        Ok(())
    }

    /// Takes a file out of a pool.
    pub fn evict_file(&mut self, pool_id: BufferPoolId, file_id: FileId) -> (r: DbResult<()>)
        requires
            old(self).wf(),
        ensures
            final(self).wf(),
            if has_pool(old(self)@, pool_id) {
                &&& r is Ok
                &&& final(self)@ == with_pool(
                    old(self)@,
                    pool_id,
                    pool_of(old(self)@, pool_id).dropped(file_id),
                )
            } else {
                &&& r is Err
                &&& r->Err_0@ == no_pool(pool_id)
                &&& final(self)@ == old(self)@
            },
    {
        match self.get_mut(pool_id) {
            Ok(pool) => pool.evict_file(file_id),
            Err(e) => Err(e),
        }
    }

    /// The numbers and names of the pools, in the order of the numbers.
    pub fn pool_ids(&self) -> (r: Vec<(BufferPoolId, &str)>)
        requires
            self.wf(),
        ensures
            r@.len() == self@.len(),
            forall|i: int|
                0 <= i < r@.len() ==> (#[trigger] r@[i]).0 == self@[i].0 && r@[i].1@
                    == self@[i].1.name,
            pools_sorted(self@),
    {
        let mut ids: Vec<(BufferPoolId, &str)> = Vec::new();
        let n: usize = self.pools.len();
        let mut i: usize = 0;
        while i < n
            invariant
                i <= n,
                n == self.pools@.len(),
                ids@.len() == i,
                forall|k: int|
                    0 <= k < i ==> (#[trigger] ids@[k]).0 == self@[k].0 && ids@[k].1@
                        == self@[k].1.name,
            decreases n - i,
        {
            ids.push((self.pools[i].0, self.pools[i].1.name()));
            i += 1;
        }
        ids
    }
}

/// The pools after all their changed pages were written.
pub open spec fn all_flushed(
    pools: Seq<(BufferPoolId, PoolModel)>,
) -> Seq<(BufferPoolId, PoolModel)> {
    Seq::new(
        pools.len(),
        |i: int| (pools[i].0, pools[i].1.flushed_to(pools[i].1.frames.len() as int)),
    )
}

/// What a change of one pool makes of the pools.
proof fn lemma_pool_set(p: BufferPoolManager, id: BufferPoolId, i: int)
    requires
        p.wf(),
        0 <= i < p.pools@.len(),
        i == find_pool(p@, id, 0),
        p@[i].0 == id,
    ensures
        forall|q: BufferPoolManager, b: BufferPool|
            #![trigger q@, p.pools@.update(i, (id, b))]
            q.pools@ == p.pools@.update(i, (id, b)) ==> {
                &&& q@ == with_pool(p@, id, b@)
                &&& b.wf() ==> q.wf()
            },
{
    assert forall|q: BufferPoolManager, b: BufferPool|
        #![trigger q@, p.pools@.update(i, (id, b))]
        q.pools@ == p.pools@.update(i, (id, b)) implies {
        &&& q@ == with_pool(p@, id, b@)
        &&& b.wf() ==> q.wf()
    } by {
        assert(q@ =~= with_pool(p@, id, b@));
        lemma_with_pool(p@, id, b@, id);
        assert forall|k: int| 0 <= k < q.pools@.len() && b.wf() implies (
        #[trigger] q.pools@[k]).1.wf() by {
            if k != i {
                assert(q.pools@[k] == p.pools@[k]);
            }
        }
    }
}

// ── Laws of pools ──

/// A pool is found by its number, and by no other; a change of it leaves every other pool as it is.
pub proof fn law_pool_is_found_by_its_number(
    pools: Seq<(BufferPoolId, PoolModel)>,
    i: int,
    id: BufferPoolId,
    m: PoolModel,
)
    requires
        pools_sorted(pools),
        0 <= i < pools.len(),
    ensures
        has_pool(pools, pools[i].0),
        pool_of(pools, pools[i].0) == pools[i].1,
        has_pool(pools, id) <==> exists|k: int|
            0 <= k < pools.len() && (#[trigger] pools[k]).0 == id,
        with_pool(pools, pools[i].0, m) == pools.update(i, (pools[i].0, m)),
{
    lemma_find_pool(pools, pools[i].0, 0);
    lemma_find_pool(pools, id, 0);
    let k = find_pool(pools, pools[i].0, 0);
    if k < i {
        assert(pools[k].0 < pools[i].0);
    }
}

/// A new pool has no file and no page: each of its frames is empty, and can be taken.
pub proof fn law_new_pool_is_empty(name: Seq<char>, capacity: nat, page_size: nat, i: int)
    requires
        0 <= i < capacity,
    ensures
        fresh_pool(name, capacity, page_size).frames.len() == capacity,
        fresh_pool(name, capacity, page_size).page_size == page_size,
        fresh_pool(name, capacity, page_size).name == name,
        fresh_pool(name, capacity, page_size).files.len() == 0,
        fresh_pool(name, capacity, page_size).frames[i].in_use == false,
        fresh_pool(name, capacity, page_size).frames[i].pin_count == 0,
        fresh_pool(name, capacity, page_size).bytes[i].len() == page_size,
{
}

} // verus!
