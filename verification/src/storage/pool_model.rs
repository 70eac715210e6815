//! The model of the buffer pool: what its operations make of its contents, and what always holds.

use vstd::prelude::*;
use vstd::string::StringExecFns;
use crate::error::ErrorModel;
use crate::storage::heap::{file_fits, page_sound, pages_sound, range_text, usable, HeapModel};
use crate::storage::page::{mismatch_text, page_id_in, page_wf, sealed, PageId, PageRead};
use crate::text::digits10;

verus! {

/// A file that is registered with a pool.
pub type FileId = u32;

/// A pool of a [`BufferPoolManager`].
pub type BufferPoolId = i32;

/// Who holds a frame.
#[derive(Debug, Clone, Copy, PartialEq, Eq, Structural)]
pub enum LatchMode {
    /// Nobody.
    Free,
    /// One or more readers, as many as there are pins.
    Shared,
    /// One writer.
    Exclusive,
}

/// What is known of a frame; its bytes are in the region of the pool.
#[derive(Debug, Clone, Copy, PartialEq, Eq, Structural)]
pub struct FrameMeta {
    /// The file of the page in the frame.
    pub file_id: FileId,
    /// The page in the frame.
    pub page_id: PageId,
    /// How often the page is in use.
    pub pin_count: u32,
    /// Whether the page was changed since it was last written.
    pub dirty: bool,
    /// Whether the frame holds a page.
    pub in_use: bool,
    /// Who holds the frame.
    pub latch: LatchMode,
}

impl FrameMeta {
    /// A frame without a page.
    pub open spec fn spec_empty() -> FrameMeta {
        FrameMeta {
            file_id: 0,
            page_id: 0,
            pin_count: 0,
            dirty: false,
            in_use: false,
            latch: LatchMode::Free,
        }
    }

    /// Whether the frame holds page `p` of file `f`.
    pub open spec fn holds(self, f: FileId, p: PageId) -> bool {
        self.in_use && self.file_id == f && self.page_id == p
    }

    /// A frame without a page.
    pub fn empty() -> (r: FrameMeta)
        ensures
            r == FrameMeta::spec_empty(),
    {
        FrameMeta {
            file_id: 0,
            page_id: 0,
            pin_count: 0,
            dirty: false,
            in_use: false,
            latch: LatchMode::Free,
        }
    }
}

/// The contents of a registered file.
pub struct FileModel {
    pub heap: HeapModel,
    pub page_count: nat,
}

/// The contents of a pool.
pub struct PoolModel {
    pub name: Seq<char>,
    pub page_size: nat,
    pub frames: Seq<FrameMeta>,
    pub bytes: Seq<Seq<u8>>,
    pub lru: Seq<usize>,
    pub files: Seq<Option<FileModel>>,
}

/// The first frame from `from` on that holds page `p` of file `f`, or the number of frames.
pub open spec fn find_frame(frames: Seq<FrameMeta>, f: FileId, p: PageId, from: int) -> int
    decreases frames.len() - from,
{
    if from >= frames.len() {
        frames.len() as int
    } else if frames[from].holds(f, p) {
        from
    } else {
        find_frame(frames, f, p, from + 1)
    }
}

/// The first frame from `from` on without a page, or the number of frames.
pub open spec fn find_free(frames: Seq<FrameMeta>, from: int) -> int
    decreases frames.len() - from,
{
    if from >= frames.len() {
        frames.len() as int
    } else if !frames[from].in_use {
        from
    } else {
        find_free(frames, from + 1)
    }
}

/// `s` without the entries that `keep` does not keep.
pub open spec fn kept_of(s: Seq<usize>, keep: spec_fn(usize) -> bool) -> Seq<usize>
    decreases s.len(),
{
    if s.len() == 0 {
        Seq::empty()
    } else {
        let rest = kept_of(s.drop_last(), keep);
        if keep(s.last()) {
            rest.push(s.last())
        } else {
            rest
        }
    }
}

/// Everything but `x`.
pub open spec fn all_but(x: usize) -> spec_fn(usize) -> bool {
    |y: usize| y != x
}

/// `s` without `x`.
pub open spec fn without(s: Seq<usize>, x: usize) -> Seq<usize> {
    kept_of(s, all_but(x))
}

/// The frames that do not hold a page of file `f`.
pub open spec fn not_of_file(frames: Seq<FrameMeta>, f: FileId) -> spec_fn(usize) -> bool {
    |i: usize| !(frames[i as int].in_use && frames[i as int].file_id == f)
}

/// How a page is named in a message.
pub open spec fn page_text(f: FileId, p: PageId) -> Seq<char> {
    "page ("@ + digits10(f as nat) + ", "@ + digits10(p as nat) + ")"@
}

/// The error for a file that is not registered.
pub open spec fn no_file(f: FileId) -> ErrorModel {
    ErrorModel::Catalog("file_id "@ + digits10(f as nat) + " not registered"@)
}

/// The error for a page that is not in the pool.
pub open spec fn not_in_pool(f: FileId, p: PageId) -> ErrorModel {
    ErrorModel::Catalog(page_text(f, p) + " not in pool"@)
}

/// Whether a frame with page `p` may hold these bytes.
pub open spec fn frame_sound(bytes: Seq<u8>, p: int) -> bool {
    page_wf(bytes) && sealed(bytes) && page_id_in(bytes) == p
}

impl PoolModel {
    /// The frame of page `p` of file `f`, or the number of frames.
    pub open spec fn frame_of(self, f: FileId, p: PageId) -> int {
        find_frame(self.frames, f, p, 0)
    }

    /// Whether page `p` of file `f` is in a frame.
    pub open spec fn resident(self, f: FileId, p: PageId) -> bool {
        self.frame_of(f, p) < self.frames.len()
    }

    /// Whether page `p` of file `f` can be asked for: where it would be read from the file, it has
    /// room for a checksum.
    pub open spec fn can_ask(self, f: FileId, p: PageId) -> bool {
        ||| self.page_size >= 17
        ||| self.frames.len() == 0
        ||| !self.registered(f)
        ||| p >= self.file(f).heap.pages.len()
    }

    /// Whether a page can be added to file `f`: where there is a frame for it, it has room for a
    /// checksum.
    pub open spec fn can_add(self, f: FileId) -> bool {
        self.page_size >= 17 || self.frames.len() == 0 || !self.registered(f)
    }

    /// Whether file `f` is registered.
    pub open spec fn registered(self, f: FileId) -> bool {
        f < self.files.len() && self.files[f as int] is Some
    }

    /// The contents of file `f`.
    pub open spec fn file(self, f: FileId) -> FileModel {
        self.files[f as int]->0
    }

    /// The contents of page `p` of file `f`, as the users of the pool see it: what its frame
    /// holds, else what is in the file.
    pub open spec fn page(self, f: FileId, p: PageId) -> Option<Seq<u8>> {
        if self.resident(f, p) {
            Some(self.bytes[self.frame_of(f, p)])
        } else if self.registered(f) && p < self.file(f).heap.pages.len() {
            Some(self.file(f).heap.pages[p as int])
        } else {
            None
        }
    }

    /// What always holds, but that frame `x` may be unpinned and not in the list of unpinned
    /// frames.
    pub open spec fn inv_but(self, x: int) -> bool {
        let n = self.frames.len();
        &&& self.bytes.len() == n
        &&& forall|i: int| 0 <= i < n ==> (#[trigger] self.bytes[i]).len() == self.page_size
        // The list of unpinned frames.
        &&& forall|k: int|
            0 <= k < self.lru.len() ==> (#[trigger] self.lru[k]) < n
                && self.frames[self.lru[k] as int].pin_count == 0
        &&& self.lru.no_duplicates()
        &&& forall|i: int|
            0 <= i < n && i != x && (#[trigger] self.frames[i]).in_use && self.frames[i].pin_count
                == 0 ==> self.lru.contains(i as usize)
        // The frames.
        &&& forall|i: int|
            0 <= i < n && !(#[trigger] self.frames[i]).in_use ==> !self.frames[i].dirty
                && self.frames[i].pin_count == 0
        &&& forall|i: int|
            0 <= i < n ==> ((#[trigger] self.frames[i]).pin_count == 0 <==> self.frames[i].latch
                == LatchMode::Free)
        &&& forall|i: int|
            0 <= i < n && (#[trigger] self.frames[i]).latch == LatchMode::Exclusive
                ==> self.frames[i].pin_count == 1
        &&& forall|i: int| 0 <= i < n && #[trigger] self.frames[i].in_use ==> self.frame_ok(i)
        &&& forall|i: int, j: int|
            0 <= i < n && 0 <= j < n && #[trigger] self.frames[i].in_use
                && #[trigger] self.frames[j].in_use && self.frames[i].file_id
                == self.frames[j].file_id && self.frames[i].page_id == self.frames[j].page_id
                ==> i == j
        // The files.
        &&& forall|f: int|
            0 <= f < self.files.len() && (#[trigger] self.files[f]) is Some ==> self.file_ok(f)
    }

    /// A frame in use holds a page of a registered file, and what the file has where the page was
    /// not changed.
    pub open spec fn frame_ok(self, i: int) -> bool {
        let m = self.frames[i];
        &&& self.registered(m.file_id)
        &&& m.page_id < self.file(m.file_id).page_count
        &&& frame_sound(self.bytes[i], m.page_id as int)
        &&& !m.dirty ==> {
            &&& m.page_id < self.file(m.file_id).heap.pages.len()
            &&& self.file(m.file_id).heap.pages[m.page_id as int] == self.bytes[i]
        }
    }

    /// Whether the pool can work with a file, if it has the pool's page size: its pages have their
    /// own numbers, and one that was never written does not pass for a written one.
    pub open spec fn takes(self, h: HeapModel) -> bool {
        h.page_size == self.page_size ==> {
            &&& usable(h.page_size)
            &&& pages_sound(h.pages)
        }
    }

    /// A file has pages of the pool's size, and no more than it counts.
    pub open spec fn file_ok(self, f: int) -> bool {
        let e = self.files[f]->0;
        &&& e.heap.page_size == self.page_size
        &&& e.heap.pages.len() <= e.page_count <= u64::MAX
        &&& file_fits(e.page_count)
        &&& usable(self.page_size)
        &&& forall|p: int|
            0 <= p < e.heap.pages.len() ==> page_sound(#[trigger] e.heap.pages[p], p)
                && e.heap.pages[p].len() == self.page_size
    }

    /// What always holds.
    pub open spec fn inv(self) -> bool {
        self.inv_but(-1)
    }

    /// No frame is pinned.
    pub open spec fn quiet(self) -> bool {
        forall|i: int| 0 <= i < self.frames.len() ==> (#[trigger] self.frames[i]).pin_count == 0
    }

    /// The pool with frame `i` set.
    pub open spec fn with_frame(self, i: int, m: FrameMeta) -> PoolModel {
        PoolModel { frames: self.frames.update(i, m), ..self }
    }

    /// The pool with the bytes of frame `i` set.
    pub open spec fn with_bytes(self, i: int, b: Seq<u8>) -> PoolModel {
        PoolModel { bytes: self.bytes.update(i, b), ..self }
    }

    /// The pool with frame `i` out of the list of unpinned frames.
    pub open spec fn taken(self, i: int) -> PoolModel {
        PoolModel { lru: without(self.lru, i as usize), ..self }
    }

    /// The pool after the page in frame `i` was written to its file, if it was changed.
    pub open spec fn flushed(self, i: int) -> PoolModel {
        let m = self.frames[i];
        if !m.dirty {
            self
        } else {
            let e = self.file(m.file_id);
            let heap = e.heap.with_page(page_id_in(self.bytes[i]), self.bytes[i]);
            PoolModel {
                frames: self.frames.update(i, FrameMeta { dirty: false, ..m }),
                files: self.files.update(
                    m.file_id as int,
                    Some(FileModel { heap, page_count: e.page_count }),
                ),
                ..self
            }
        }
    }

    /// The pool after the first `n` frames were flushed.
    pub open spec fn flushed_to(self, n: int) -> PoolModel
        decreases n,
    {
        if n <= 0 {
            self
        } else {
            self.flushed_to(n - 1).flushed(n - 1)
        }
    }

    /// Takes a frame for a page: a frame without one, else the one that was unpinned first, whose
    /// page is flushed. There is none where all frames are pinned.
    pub open spec fn evicted(self) -> (PoolModel, Option<int>) {
        let free = find_free(self.frames, 0);
        if free < self.frames.len() {
            (self.taken(free), Some(free))
        } else if self.lru.len() == 0 {
            (self, None)
        } else {
            let v = self.lru[0] as int;
            let m = PoolModel { lru: self.lru.subrange(1, self.lru.len() as int), ..self };
            let m2 = m.flushed(v);
            let m3 = m2.with_frame(
                v,
                FrameMeta {
                    in_use: false,
                    pin_count: 0,
                    dirty: false,
                    latch: LatchMode::Free,
                    ..m2.frames[v]
                },
            );
            (m3, Some(v))
        }
    }

    /// Brings page `p` of file `f` into a frame, if it is not in one.
    pub open spec fn loaded(self, f: FileId, p: PageId) -> (PoolModel, Result<int, ErrorModel>) {
        if self.resident(f, p) {
            (self, Ok(self.frame_of(f, p)))
        } else {
            match self.evicted() {
                (m, None) => (
                    m,
                    Err(ErrorModel::Catalog("buffer pool full: all frames are pinned"@)),
                ),
                (m, Some(i)) => if !m.registered(f) {
                    (m, Err(no_file(f)))
                } else if p >= m.file(f).heap.pages.len() {
                    (
                        m,
                        Err(
                            ErrorModel::Corruption(
                                range_text(p as nat, m.file(f).heap.pages.len()),
                            ),
                        ),
                    )
                } else {
                    let b = m.file(f).heap.pages[p as int];
                    let m2 = m.with_bytes(i, b);
                    if !sealed(b) {
                        (m2, Err(ErrorModel::Corruption(mismatch_text(b))))
                    } else {
                        let meta = FrameMeta {
                            file_id: f,
                            page_id: p,
                            pin_count: 0,
                            dirty: false,
                            in_use: true,
                            latch: LatchMode::Free,
                        };
                        (m2.with_frame(i, meta), Ok(i))
                    }
                },
            }
        }
    }

    /// Pins page `p` of file `f` for a reader.
    pub open spec fn fetched(self, f: FileId, p: PageId) -> (PoolModel, Result<int, ErrorModel>) {
        match self.loaded(f, p) {
            (m, Err(e)) => (m, Err(e)),
            (m, Ok(i)) => if m.frames[i].latch == LatchMode::Exclusive {
                (
                    m,
                    Err(
                        ErrorModel::Catalog(
                            page_text(f, p) + " is exclusively latched for write"@,
                        ),
                    ),
                )
            } else {
                let meta = FrameMeta {
                    pin_count: (m.frames[i].pin_count + 1) as u32,
                    latch: LatchMode::Shared,
                    ..m.frames[i]
                };
                (m.with_frame(i, meta).taken(i), Ok(i))
            },
        }
    }

    /// Pins page `p` of file `f` for a writer.
    pub open spec fn fetched_mut(
        self,
        f: FileId,
        p: PageId,
    ) -> (PoolModel, Result<int, ErrorModel>) {
        match self.loaded(f, p) {
            (m, Err(e)) => (m, Err(e)),
            (m, Ok(i)) => if m.frames[i].pin_count > 0 {
                (
                    m,
                    Err(
                        ErrorModel::Catalog(
                            page_text(f, p)
                                + " is already pinned — cannot acquire exclusive write latch"@,
                        ),
                    ),
                )
            } else {
                let meta = FrameMeta {
                    pin_count: 1,
                    latch: LatchMode::Exclusive,
                    dirty: true,
                    ..m.frames[i]
                };
                (m.with_frame(i, meta).taken(i), Ok(i))
            },
        }
    }

    /// The pool with one page more in file `f`, which is in no frame yet.
    pub open spec fn grown(self, f: FileId) -> PoolModel {
        let e = self.file(f);
        PoolModel {
            files: self.files.update(
                f as int,
                Some(FileModel { heap: e.heap, page_count: e.page_count + 1 }),
            ),
            ..self
        }
    }

    /// Adds a page to file `f` and pins it for a writer, without its bytes.
    pub open spec fn new_paged(self, f: FileId) -> (PoolModel, Result<int, ErrorModel>) {
        if !self.registered(f) {
            (self, Err(no_file(f)))
        } else if !file_fits(self.file(f).page_count + 1) {
            (self, Err(ErrorModel::Io("file too large"@)))
        } else {
            match self.grown(f).evicted() {
                (m, None) => (
                    m,
                    Err(ErrorModel::Catalog("buffer pool full: all frames are pinned"@)),
                ),
                (m, Some(i)) => {
                    let meta = FrameMeta {
                        file_id: f,
                        page_id: self.file(f).page_count as u64,
                        pin_count: 1,
                        dirty: true,
                        in_use: true,
                        latch: LatchMode::Exclusive,
                    };
                    (m.with_frame(i, meta), Ok(i))
                },
            }
        }
    }

    /// Takes one pin off page `p` of file `f`.
    pub open spec fn unpinned(
        self,
        f: FileId,
        p: PageId,
        dirty: bool,
    ) -> (PoolModel, Option<ErrorModel>) {
        let i = self.frame_of(f, p);
        if !self.resident(f, p) {
            (self, Some(not_in_pool(f, p)))
        } else if self.frames[i].pin_count == 0 {
            (self, Some(ErrorModel::Catalog("unpin called on unpinned frame"@)))
        } else {
            let m = self.frames[i];
            let last = m.pin_count == 1;
            let meta = FrameMeta {
                dirty: m.dirty || dirty,
                pin_count: (m.pin_count - 1) as u32,
                latch: if last {
                    LatchMode::Free
                } else {
                    m.latch
                },
                ..m
            };
            let lru = if last {
                self.lru.push(i as usize)
            } else {
                self.lru
            };
            (PoolModel { lru, ..self.with_frame(i, meta) }, None)
        }
    }

    /// Takes file `f` and its pages out of the pool; changes that were not written are lost.
    pub open spec fn dropped(self, f: FileId) -> PoolModel {
        PoolModel {
            frames: self.frames.map_values(
                |m: FrameMeta|
                    if m.in_use && m.file_id == f {
                        FrameMeta::spec_empty()
                    } else {
                        m
                    },
            ),
            lru: kept_of(self.lru, not_of_file(self.frames, f)),
            files: if f < self.files.len() {
                self.files.update(f as int, None)
            } else {
                self.files
            },
            ..self
        }
    }
}

// ── Facts about the model ──

/// What is found at the position of a page.
pub proof fn lemma_find_frame(frames: Seq<FrameMeta>, f: FileId, p: PageId, from: int)
    requires
        0 <= from <= frames.len(),
    ensures
        from <= find_frame(frames, f, p, from) <= frames.len(),
        find_frame(frames, f, p, from) < frames.len() ==> frames[find_frame(
            frames,
            f,
            p,
            from,
        )].holds(f, p),
        forall|j: int|
            from <= j < find_frame(frames, f, p, from) ==> !(#[trigger] frames[j]).holds(f, p),
    decreases frames.len() - from,
{
    if from < frames.len() && !frames[from].holds(f, p) {
        lemma_find_frame(frames, f, p, from + 1);
    }
}

/// What is found at the position of a frame without a page.
pub proof fn lemma_find_free(frames: Seq<FrameMeta>, from: int)
    requires
        0 <= from <= frames.len(),
    ensures
        from <= find_free(frames, from) <= frames.len(),
        find_free(frames, from) < frames.len() ==> !frames[find_free(frames, from)].in_use,
        forall|j: int| from <= j < find_free(frames, from) ==> (#[trigger] frames[j]).in_use,
    decreases frames.len() - from,
{
    if from < frames.len() && frames[from].in_use {
        lemma_find_free(frames, from + 1);
    }
}

proof fn lemma_kept_of(s: Seq<usize>, keep: spec_fn(usize) -> bool)
    requires
        s.no_duplicates(),
    ensures
        kept_of(s, keep).no_duplicates(),
        forall|x: usize| #[trigger]
            kept_of(s, keep).contains(x) <==> s.contains(x) && keep(x),
    decreases s.len(),
{
    if s.len() > 0 {
        let front = s.drop_last();
        assert(front.no_duplicates());
        lemma_kept_of(front, keep);
        let rest = kept_of(front, keep);
        let all = kept_of(s, keep);
        assert forall|x: usize| #[trigger] all.contains(x) <==> s.contains(x) && keep(x) by {
            if s.contains(x) && keep(x) {
                let k = choose|k: int| 0 <= k < s.len() && s[k] == x;
                if k < s.len() - 1 {
                    assert(front[k] == x);
                    assert(rest.contains(x));
                    let j = choose|j: int| 0 <= j < rest.len() && rest[j] == x;
                    assert(all[j] == x);
                } else {
                    assert(all[all.len() - 1] == x);
                }
            }
            if all.contains(x) {
                let j = choose|j: int| 0 <= j < all.len() && all[j] == x;
                if j < rest.len() {
                    assert(rest[j] == x);
                    assert(rest.contains(x));
                    let k = choose|k: int| 0 <= k < front.len() && front[k] == x;
                    assert(s[k] == x);
                } else {
                    assert(x == s.last());
                    assert(s[s.len() - 1] == x);
                }
            }
        }
        if keep(s.last()) {
            assert forall|a: int, b: int| 0 <= a < b < all.len() implies all[a] != all[b] by {
                if b == rest.len() {
                    assert(rest[a] == all[a]);
                    assert(rest.contains(all[a]));
                    assert(front.contains(all[a]));
                    let k = choose|k: int| 0 <= k < front.len() && front[k] == all[a];
                    assert(s[k] == all[a]);
                    assert(s[s.len() - 1] == s.last());
                }
            }
        }
    }
}

proof fn lemma_without(s: Seq<usize>, x: usize)
    requires
        s.no_duplicates(),
    ensures
        without(s, x).no_duplicates(),
        forall|y: usize| #[trigger] without(s, x).contains(y) <==> s.contains(y) && y != x,
{
    lemma_kept_of(s, all_but(x));
}

/// A page that is in a frame is found there.
pub proof fn lemma_frame_is(m: PoolModel, x: int, f: FileId, p: PageId, i: int)
    requires
        m.inv_but(x),
        0 <= i < m.frames.len(),
        m.frames[i].holds(f, p),
    ensures
        m.frame_of(f, p) == i,
        m.resident(f, p),
{
    lemma_find_frame(m.frames, f, p, 0);
    let j = m.frame_of(f, p);
    if j < m.frames.len() {
        assert(m.frames[i].in_use && m.frames[j].in_use);
    } else {
        assert(!m.frames[i].holds(f, p));
    }
}

/// A page that no frame holds is not resident.
pub proof fn lemma_frame_none(frames: Seq<FrameMeta>, f: FileId, p: PageId)
    requires
        forall|i: int| 0 <= i < frames.len() ==> !(#[trigger] frames[i]).holds(f, p),
    ensures
        find_frame(frames, f, p, 0) == frames.len(),
{
    lemma_find_frame(frames, f, p, 0);
}

/// Two states that hold the same bytes for the same pages in frames, and whose files read the
/// same elsewhere, show the same pages.
proof fn lemma_same_page(m: PoolModel, x: int, m2: PoolModel, y: int, f: FileId, p: PageId)
    requires
        m.inv_but(x),
        m2.inv_but(y),
        m2.frames.len() == m.frames.len(),
        forall|i: int|
            0 <= i < m.frames.len() ==> {
                &&& (#[trigger] m.frames[i]).holds(f, p) == m2.frames[i].holds(f, p)
                &&& m.frames[i].holds(f, p) ==> m2.bytes[i] == m.bytes[i]
            },
        (forall|i: int| 0 <= i < m.frames.len() ==> !(#[trigger] m.frames[i]).holds(f, p)) ==> {
            let a = m.registered(f) && p < m.file(f).heap.pages.len();
            let b = m2.registered(f) && p < m2.file(f).heap.pages.len();
            a ==> b && m.file(f).heap.pages[p as int] == m2.file(f).heap.pages[p as int]
        },
    ensures
        m.page(f, p) is Some ==> m2.page(f, p) == m.page(f, p),
{
    if exists|i: int| 0 <= i < m.frames.len() && (#[trigger] m.frames[i]).holds(f, p) {
        let i = choose|i: int| 0 <= i < m.frames.len() && (#[trigger] m.frames[i]).holds(f, p);
        lemma_frame_is(m, x, f, p, i);
        lemma_frame_is(m2, y, f, p, i);
    } else {
        lemma_frame_none(m.frames, f, p);
        assert forall|i: int| 0 <= i < m2.frames.len() implies !(#[trigger] m2.frames[i]).holds(
            f,
            p,
        ) by {
            assert(!m.frames[i].holds(f, p));
        }
        lemma_frame_none(m2.frames, f, p);
    }
}

/// Flushing a frame keeps the invariant, the frames but for the flag, and what every page shows.
pub proof fn lemma_flushed(m: PoolModel, i: int, x: int)
    requires
        m.inv_but(x),
        0 <= i < m.frames.len(),
    ensures
        m.flushed(i).inv_but(x),
        m.flushed(i).frames == m.frames.update(i, FrameMeta { dirty: false, ..m.frames[i] }),
        m.flushed(i).bytes == m.bytes,
        m.flushed(i).lru == m.lru,
        m.flushed(i).files.len() == m.files.len(),
        forall|f: FileId| #[trigger] m.flushed(i).registered(f) == m.registered(f),
        forall|f: FileId|
            m.registered(f) ==> (#[trigger] m.flushed(i).file(f)).page_count
                == m.file(f).page_count,
        forall|f: FileId, p: PageId|
            m.page(f, p) is Some ==> #[trigger] m.flushed(i).page(f, p)
                == m.page(f, p),
{
    let t = m.flushed(i);
    let w = m.frames[i];
    if !w.dirty {
        assert(t.frames =~= m.frames.update(i, FrameMeta { dirty: false, ..w }));
    } else {
        assert(m.frames[i].in_use);
        assert(m.frame_ok(i));
        let p0 = w.page_id as int;
        let f0 = w.file_id as int;
        let e = m.file(w.file_id);
        assert(m.file_ok(f0));
        let heap = e.heap.with_page(p0 as nat, m.bytes[i]);
        assert(t.files[f0] == Some(FileModel { heap, page_count: e.page_count }));
        assert forall|p: int| 0 <= p < heap.pages.len() implies page_sound(
            #[trigger] heap.pages[p],
            p,
        ) && heap.pages[p].len() == m.page_size by {
            if p != p0 && p < e.heap.pages.len() {
                assert(page_sound(e.heap.pages[p], p));
            }
        }
        assert forall|f: int|
            0 <= f < t.files.len() && (#[trigger] t.files[f]) is Some implies t.file_ok(f) by {
            if f != f0 {
                assert(m.files[f] is Some);
                assert(m.file_ok(f));
            }
        }
        assert forall|j: int| 0 <= j < t.frames.len() && #[trigger] t.frames[j].in_use implies
            t.frame_ok(j) by {
            assert(m.frames[j].in_use);
            assert(m.frame_ok(j));
            if j != i && m.frames[j].file_id == w.file_id {
                assert(m.frames[j].page_id != w.page_id);
            }
        }
        assert(t.inv_but(x)) by {
            assert forall|j: int|
                0 <= j < t.frames.len() && j != x && (#[trigger] t.frames[j]).in_use
                    && t.frames[j].pin_count == 0 implies t.lru.contains(j as usize) by {
                assert(m.frames[j].in_use);
            }
            assert forall|a: int, b: int|
                0 <= a < t.frames.len() && 0 <= b < t.frames.len() && #[trigger] t.frames[a].in_use
                    && #[trigger] t.frames[b].in_use && t.frames[a].file_id == t.frames[b].file_id
                    && t.frames[a].page_id == t.frames[b].page_id implies a == b by {
                assert(m.frames[a].in_use && m.frames[b].in_use);
            }
        }
        assert forall|f: FileId, p: PageId|
            m.page(f, p) is Some implies #[trigger] t.page(f, p)
            == m.page(f, p) by {
            assert forall|j: int| 0 <= j < m.frames.len() implies {
                &&& (#[trigger] m.frames[j]).holds(f, p) == t.frames[j].holds(f, p)
                &&& m.frames[j].holds(f, p) ==> t.bytes[j] == m.bytes[j]
            } by {}
            if f == w.file_id && p == w.page_id {
                assert(m.frames[i].holds(f, p));
            }
            lemma_same_page(m, x, t, x, f, p);
        }
    }
}

/// Taking a frame for a page keeps the invariant and what every page shows, takes a frame that is
/// free and no longer listed, and fails only where all frames are pinned.
pub proof fn lemma_evicted(m: PoolModel)
    requires
        m.inv(),
        m.frames.len() <= usize::MAX,
    ensures
        ({
            let (t, r) = m.evicted();
            &&& t.inv()
            &&& t.frames.len() == m.frames.len()
            &&& t.bytes == m.bytes
            &&& t.name == m.name
            &&& t.page_size == m.page_size
            &&& t.files.len() == m.files.len()
            &&& forall|f: FileId| #[trigger] t.registered(f) == m.registered(f)
            &&& forall|f: FileId|
                m.registered(f) ==> (#[trigger] t.file(f)).page_count == m.file(f).page_count
            &&& forall|f: FileId, p: PageId|
                m.page(f, p) is Some ==> #[trigger] t.page(f, p)
                    == m.page(f, p)
            &&& match r {
                Some(i) => {
                    &&& 0 <= i < t.frames.len()
                    &&& !t.frames[i].in_use
                    &&& !t.lru.contains(i as usize)
                    &&& m.frames[i].pin_count == 0
                    &&& forall|j: int|
                        0 <= j < t.frames.len() && j != i ==> #[trigger] t.frames[j] == m.frames[j]
                },
                None => {
                    &&& t == m
                    &&& forall|j: int|
                        0 <= j < m.frames.len() ==> (#[trigger] m.frames[j]).pin_count > 0
                },
            }
        }),
{
    lemma_find_free(m.frames, 0);
    let (t, r) = m.evicted();
    let free = find_free(m.frames, 0);
    if free < m.frames.len() {
        lemma_taken(m, free);
        assert forall|f: FileId, p: PageId|
            m.page(f, p) is Some implies #[trigger] t.page(f, p)
            == m.page(f, p) by {
            lemma_same_page(m, -1, t, -1, f, p);
        }
    } else if m.lru.len() == 0 {
        assert forall|j: int| 0 <= j < m.frames.len() implies (#[trigger] m.frames[j]).pin_count
            > 0 by {
            assert(m.frames[j].in_use);
            if m.frames[j].pin_count == 0 {
                assert(m.lru.contains(j as usize));
            }
        }
    } else {
        let v = m.lru[0] as int;
        let m1 = PoolModel { lru: m.lru.subrange(1, m.lru.len() as int), ..m };
        assert(m1.inv_but(v)) by {
            assert forall|j: int|
                0 <= j < m1.frames.len() && j != v && (#[trigger] m1.frames[j]).in_use
                    && m1.frames[j].pin_count == 0 implies m1.lru.contains(j as usize) by {
                assert(m.lru.contains(j as usize));
                let k = choose|k: int| 0 <= k < m.lru.len() && m.lru[k] == j as usize;
                assert(m1.lru[k - 1] == j as usize);
            }
            assert forall|k: int| 0 <= k < m1.lru.len() implies (#[trigger] m1.lru[k])
                < m1.frames.len() && m1.frames[m1.lru[k] as int].pin_count == 0 by {
                assert(m1.lru[k] == m.lru[k + 1]);
            }
            assert(forall|j: int|
                0 <= j < m1.frames.len() && #[trigger] m1.frames[j].in_use ==> m1.frame_ok(j)) by {
                assert forall|j: int|
                    0 <= j < m1.frames.len() && #[trigger] m1.frames[j].in_use implies m1.frame_ok(
                    j,
                ) by {
                    assert(m.frame_ok(j));
                }
            }
            assert forall|f: int|
                0 <= f < m1.files.len() && (#[trigger] m1.files[f]) is Some implies m1.file_ok(
                f,
            ) by {
                assert(m.file_ok(f));
            }
        }
        assert(!m1.lru.contains(v as usize)) by {
            if m1.lru.contains(v as usize) {
                let k = choose|k: int| 0 <= k < m1.lru.len() && m1.lru[k] == v as usize;
                assert(m.lru[k + 1] == m.lru[0]);
            }
        }
        lemma_flushed(m1, v, v);
        let m2 = m1.flushed(v);
        assert(m.frames[v].in_use);
        assert(m2.frames[v].in_use);
        assert(m2.frame_ok(v));
        assert(!m2.frames[v].dirty);
        assert(t.inv()) by {
            assert forall|j: int|
                0 <= j < t.frames.len() && (#[trigger] t.frames[j]).in_use
                    && t.frames[j].pin_count == 0 implies t.lru.contains(j as usize) by {
                assert(m2.frames[j].in_use);
            }
            assert forall|j: int| 0 <= j < t.frames.len() && #[trigger] t.frames[j].in_use implies
                t.frame_ok(j) by {
                assert(m2.frames[j].in_use);
                assert(m2.frame_ok(j));
            }
            assert forall|a: int, b: int|
                0 <= a < t.frames.len() && 0 <= b < t.frames.len() && #[trigger] t.frames[a].in_use
                    && #[trigger] t.frames[b].in_use && t.frames[a].file_id == t.frames[b].file_id
                    && t.frames[a].page_id == t.frames[b].page_id implies a == b by {
                assert(m2.frames[a].in_use && m2.frames[b].in_use);
            }
            assert forall|f: int|
                0 <= f < t.files.len() && (#[trigger] t.files[f]) is Some implies t.file_ok(f) by {
                assert(m2.file_ok(f));
            }
            assert forall|k: int| 0 <= k < t.lru.len() implies (#[trigger] t.lru[k])
                < t.frames.len() && t.frames[t.lru[k] as int].pin_count == 0 by {
                assert(m2.lru[k] < m2.frames.len());
            }
        }
        assert forall|f: FileId| #[trigger] t.registered(f) == m.registered(f) by {
            assert(m2.registered(f) == m1.registered(f));
        }
        assert forall|f: FileId| m.registered(f) implies (#[trigger] t.file(f)).page_count
            == m.file(f).page_count by {
            assert(m1.registered(f));
            assert(m2.file(f).page_count == m1.file(f).page_count);
        }
        assert forall|f: FileId, p: PageId|
            m.page(f, p) is Some implies #[trigger] t.page(f, p)
            == m.page(f, p) by {
            assert(m2.page(f, p) == m1.page(f, p));
            lemma_same_page(m, -1, m1, v, f, p);
            let w = m2.frames[v];
            if w.holds(f, p) {
                lemma_frame_is(m2, v, f, p, v);
                assert forall|j: int| 0 <= j < t.frames.len() implies !(
                #[trigger] t.frames[j]).holds(f, p) by {
                    if j != v && t.frames[j].holds(f, p) {
                        assert(m2.frames[j].in_use && m2.frames[v].in_use);
                    }
                }
                lemma_frame_none(t.frames, f, p);
            } else {
                lemma_same_page(m2, v, t, -1, f, p);
            }
        }
    }
}

/// Taking frame `i` off the list of unpinned frames.
proof fn lemma_taken(m: PoolModel, i: int)
    requires
        m.inv_but(i),
        0 <= i < m.frames.len() <= usize::MAX,
    ensures
        m.taken(i).inv_but(i),
        !m.taken(i).lru.contains(i as usize),
        !m.frames[i].in_use || m.frames[i].pin_count > 0 ==> m.taken(i).inv(),
{
    let t = m.taken(i);
    lemma_without(m.lru, i as usize);
    assert forall|k: int| 0 <= k < t.lru.len() implies (#[trigger] t.lru[k]) < t.frames.len()
        && t.frames[t.lru[k] as int].pin_count == 0 by {
        assert(t.lru.contains(t.lru[k]));
        assert(m.lru.contains(t.lru[k]));
        let j = choose|j: int| 0 <= j < m.lru.len() && m.lru[j] == t.lru[k];
        assert(m.lru[j] < m.frames.len());
    }
    assert forall|j: int|
        0 <= j < t.frames.len() && j != i && (#[trigger] t.frames[j]).in_use
            && t.frames[j].pin_count == 0 implies t.lru.contains(j as usize) by {
        assert(m.lru.contains(j as usize));
    }
    assert forall|j: int| 0 <= j < t.frames.len() && #[trigger] t.frames[j].in_use implies
        t.frame_ok(j) by {
        assert(m.frame_ok(j));
    }
    assert forall|f: int|
        0 <= f < t.files.len() && (#[trigger] t.files[f]) is Some implies t.file_ok(f) by {
        assert(m.file_ok(f));
    }
}

/// Whether a page can be brought into a frame: it is in one, or it can be read and a frame is not
/// pinned.
pub open spec fn can_load(m: PoolModel, f: FileId, p: PageId) -> bool {
    m.resident(f, p) || (m.page(f, p) is Some && sealed(m.page(f, p)->0) && exists|i: int|
        0 <= i < m.frames.len() && (#[trigger] m.frames[i]).pin_count == 0)
}

/// What holds after a page was brought into a frame, or could not be.
pub open spec fn load_facts(
    m: PoolModel,
    f: FileId,
    p: PageId,
    t: PoolModel,
    r: Result<int, ErrorModel>,
) -> bool {
    &&& t.frames.len() == m.frames.len()
    &&& t.name == m.name
    &&& t.page_size == m.page_size
    &&& t.files.len() == m.files.len()
    &&& forall|g: FileId| #[trigger] t.registered(g) == m.registered(g)
    &&& forall|g: FileId|
        m.registered(g) ==> (#[trigger] t.file(g)).page_count == m.file(g).page_count
    &&& forall|g: FileId, q: PageId|
        m.page(g, q) is Some ==> #[trigger] t.page(g, q)
            == m.page(g, q)
    &&& forall|j: int|
        0 <= j < m.frames.len() && (r is Ok ==> j != r->Ok_0) ==> (
        #[trigger] t.frames[j]).pin_count == m.frames[j].pin_count
    &&& r is Ok ==> {
        let i = r->Ok_0;
        &&& 0 <= i < t.frames.len()
        &&& t.frames[i].holds(f, p)
        &&& m.page(f, p) is Some ==> m.page(f, p) == Some(t.bytes[i])
        &&& frame_sound(t.bytes[i], p as int)
        &&& t.registered(f)
        &&& p < t.file(f).page_count
    }
}

/// What bringing a page into a frame keeps, and what it gives.
pub proof fn lemma_loaded(m: PoolModel, f: FileId, p: PageId)
    requires
        m.inv(),
        m.frames.len() <= usize::MAX,
    ensures
        ({
            let (t, r) = m.loaded(f, p);
            &&& load_facts(m, f, p, t, r)
            &&& m.page(f, p) is Some ==> (r is Ok <==> can_load(m, f, p))
            &&& match r {
                Err(_) => t.inv(),
                Ok(i) => {
                    &&& t.inv_but(i)
                    &&& m.resident(f, p) ==> t == m
                    &&& t.frames[i].pin_count == if m.resident(f, p) {
                        m.frames[i].pin_count
                    } else {
                        0
                    }
                },
            }
        }),
{
    lemma_find_frame(m.frames, f, p, 0);
    let (t, r) = m.loaded(f, p);
    if m.resident(f, p) {
        let i = m.frame_of(f, p);
        assert(m.frames[i].in_use);
        assert(m.frame_ok(i));
    } else {
        lemma_evicted(m);
        let (m1, slot) = m.evicted();
        if let Some(i) = slot {
            assert(m.frames[i].pin_count == 0);
            assert forall|j: int| 0 <= j < m.frames.len() implies !(#[trigger] m1.frames[j]).holds(
                f,
                p,
            ) by {
                if j != i {
                    assert(m1.frames[j] == m.frames[j]);
                }
            }
            lemma_frame_none(m1.frames, f, p);
            assert(m.page(f, p) is Some ==> m1.page(f, p) == m.page(f, p));
            if m1.registered(f) && p < m1.file(f).heap.pages.len() {
                assert(m1.files[f as int] is Some);
                assert(m1.file_ok(f as int));
                let b = m1.file(f).heap.pages[p as int];
                assert(page_sound(b, p as int));
                let m2 = m1.with_bytes(i, b);
                lemma_spare_bytes(m1, i, b);
                if sealed(b) {
                    lemma_filled(m2, i, f, p);
                }
            }
        }
    }
}

/// The bytes of a frame without a page do not matter.
pub proof fn lemma_spare_bytes(m: PoolModel, i: int, b: Seq<u8>)
    requires
        m.inv(),
        0 <= i < m.frames.len(),
        !m.frames[i].in_use,
        b.len() == m.page_size,
    ensures
        m.with_bytes(i, b).inv(),
        forall|f: FileId, p: PageId|
            m.page(f, p) is Some ==> #[trigger] m.with_bytes(i, b).page(f, p)
                == m.page(f, p),
{
    let t = m.with_bytes(i, b);
    assert forall|j: int| 0 <= j < t.frames.len() && #[trigger] t.frames[j].in_use implies
        t.frame_ok(j) by {
        assert(m.frame_ok(j));
    }
    assert forall|f: int|
        0 <= f < t.files.len() && (#[trigger] t.files[f]) is Some implies t.file_ok(f) by {
        assert(m.file_ok(f));
    }
    assert forall|j: int| 0 <= j < t.bytes.len() implies (#[trigger] t.bytes[j]).len()
        == t.page_size by {
        if j != i {
            assert(t.bytes[j] == m.bytes[j]);
        }
    }
    assert forall|f: FileId, p: PageId|
        m.page(f, p) is Some implies #[trigger] t.page(f, p)
        == m.page(f, p) by {
        lemma_same_page(m, -1, t, -1, f, p);
    }
}

/// Giving a free frame that holds the bytes of a page in a file to that page.
proof fn lemma_filled(m: PoolModel, i: int, f: FileId, p: PageId)
    requires
        m.inv(),
        0 <= i < m.frames.len(),
        !m.frames[i].in_use,
        !m.resident(f, p),
        m.registered(f),
        p < m.file(f).heap.pages.len(),
        m.bytes[i] == m.file(f).heap.pages[p as int],
        sealed(m.bytes[i]),
    ensures
        ({
            let meta = FrameMeta {
                file_id: f,
                page_id: p,
                pin_count: 0,
                dirty: false,
                in_use: true,
                latch: LatchMode::Free,
            };
            let t = m.with_frame(i, meta);
            &&& t.inv_but(i)
            &&& forall|g: FileId, q: PageId|
                m.page(g, q) is Some ==> #[trigger] t.page(g, q)
                    == m.page(g, q)
            &&& frame_sound(t.bytes[i], p as int)
            &&& m.page(f, p) == Some(t.bytes[i])
            &&& p < t.file(f).page_count
        }),
{
    let meta = FrameMeta {
        file_id: f,
        page_id: p,
        pin_count: 0,
        dirty: false,
        in_use: true,
        latch: LatchMode::Free,
    };
    let t = m.with_frame(i, meta);
    assert(m.files[f as int] is Some);
    assert(m.file_ok(f as int));
    assert(page_sound(m.file(f).heap.pages[p as int], p as int));
    lemma_find_frame(m.frames, f, p, 0);
    assert forall|j: int| 0 <= j < t.frames.len() && #[trigger] t.frames[j].in_use implies
        t.frame_ok(j) by {
        if j != i {
            assert(m.frames[j].in_use);
            assert(m.frame_ok(j));
        }
    }
    assert forall|g: int|
        0 <= g < t.files.len() && (#[trigger] t.files[g]) is Some implies t.file_ok(g) by {
        assert(m.file_ok(g));
    }
    assert forall|a: int, b: int|
        0 <= a < t.frames.len() && 0 <= b < t.frames.len() && #[trigger] t.frames[a].in_use
            && #[trigger] t.frames[b].in_use && t.frames[a].file_id == t.frames[b].file_id
            && t.frames[a].page_id == t.frames[b].page_id implies a == b by {
        if a != i && b != i {
            assert(m.frames[a].in_use && m.frames[b].in_use);
        } else if a != i {
            assert(!m.frames[a].holds(f, p));
        } else if b != i {
            assert(!m.frames[b].holds(f, p));
        }
    }
    assert forall|j: int|
        0 <= j < t.frames.len() && j != i && (#[trigger] t.frames[j]).in_use
            && t.frames[j].pin_count == 0 implies t.lru.contains(j as usize) by {
        assert(m.frames[j].in_use);
    }
    assert forall|k: int| 0 <= k < t.lru.len() implies (#[trigger] t.lru[k]) < t.frames.len()
        && t.frames[t.lru[k] as int].pin_count == 0 by {
        assert(m.lru[k] < m.frames.len());
    }
    assert(t.inv_but(i));
    assert forall|g: FileId, q: PageId|
        m.page(g, q) is Some implies #[trigger] t.page(g, q)
        == m.page(g, q) by {
        if g == f && q == p {
            lemma_frame_is(t, i, f, p, i);
        } else {
            assert forall|j: int| 0 <= j < m.frames.len() implies {
                &&& (#[trigger] m.frames[j]).holds(g, q) == t.frames[j].holds(g, q)
                &&& m.frames[j].holds(g, q) ==> t.bytes[j] == m.bytes[j]
            } by {}
            lemma_same_page(m, -1, t, i, g, q);
        }
    }
}

/// Setting the pins, the latch and the flag of frame `i`, which is then pinned and not listed.
proof fn lemma_pinned(m: PoolModel, i: int, meta: FrameMeta)
    requires
        m.inv_but(i),
        0 <= i < m.frames.len() <= usize::MAX,
        m.frames[i].in_use,
        meta.in_use,
        meta.file_id == m.frames[i].file_id,
        meta.page_id == m.frames[i].page_id,
        m.frames[i].dirty ==> meta.dirty,
        meta.pin_count > 0,
        meta.latch != LatchMode::Free,
        meta.latch == LatchMode::Exclusive ==> meta.pin_count == 1,
    ensures
        m.with_frame(i, meta).taken(i).inv(),
        forall|f: FileId, p: PageId|
            m.page(f, p) is Some ==> #[trigger] m.with_frame(i, meta).taken(i).page(f, p)
                == m.page(f, p),
{
    let t = m.with_frame(i, meta).taken(i);
    lemma_without(m.lru, i as usize);
    assert forall|k: int| 0 <= k < t.lru.len() implies (#[trigger] t.lru[k]) < t.frames.len()
        && t.frames[t.lru[k] as int].pin_count == 0 by {
        assert(t.lru.contains(t.lru[k]));
        assert(m.lru.contains(t.lru[k]));
        let j = choose|j: int| 0 <= j < m.lru.len() && m.lru[j] == t.lru[k];
        assert(m.lru[j] < m.frames.len());
    }
    assert forall|j: int|
        0 <= j < t.frames.len() && (#[trigger] t.frames[j]).in_use && t.frames[j].pin_count
            == 0 implies t.lru.contains(j as usize) by {
        assert(m.frames[j].in_use);
        assert(m.lru.contains(j as usize));
    }
    assert forall|j: int| 0 <= j < t.frames.len() && #[trigger] t.frames[j].in_use implies
        t.frame_ok(j) by {
        assert(m.frames[j].in_use);
        assert(m.frame_ok(j));
    }
    assert forall|f: int|
        0 <= f < t.files.len() && (#[trigger] t.files[f]) is Some implies t.file_ok(f) by {
        assert(m.file_ok(f));
    }
    assert forall|a: int, b: int|
        0 <= a < t.frames.len() && 0 <= b < t.frames.len() && #[trigger] t.frames[a].in_use
            && #[trigger] t.frames[b].in_use && t.frames[a].file_id == t.frames[b].file_id
            && t.frames[a].page_id == t.frames[b].page_id implies a == b by {
        assert(m.frames[a].in_use && m.frames[b].in_use);
    }
    assert(t.inv());
    assert forall|f: FileId, p: PageId|
        m.page(f, p) is Some implies #[trigger] t.page(f, p)
        == m.page(f, p) by {
        assert forall|j: int| 0 <= j < m.frames.len() implies {
            &&& (#[trigger] m.frames[j]).holds(f, p) == t.frames[j].holds(f, p)
            &&& m.frames[j].holds(f, p) ==> t.bytes[j] == m.bytes[j]
        } by {}
        lemma_same_page(m, i, t, -1, f, p);
    }
}

/// Fetching a page keeps the invariant and what every page shows; the frame that is pinned holds
/// the page.
pub proof fn lemma_fetched(m: PoolModel, f: FileId, p: PageId)
    requires
        m.inv(),
        m.frames.len() <= usize::MAX,
    ensures
        ({
            let (t, r) = m.fetched(f, p);
            &&& (r is Ok ==> m.loaded(f, p).0.frames[r->Ok_0].pin_count < u32::MAX) ==> t.inv()
                && load_facts(m, f, p, t, r)
            &&& r is Ok ==> t.frames[r->Ok_0].latch == LatchMode::Shared
            &&& m.page(f, p) is Some ==> (r is Ok <==> can_load(m, f, p) && !(m.resident(f, p)
                && m.frames[m.frame_of(f, p)].latch == LatchMode::Exclusive))
            &&& r is Ok && !m.resident(f, p) ==> m.loaded(f, p).0.frames[r->Ok_0].pin_count == 0
            &&& r is Ok && m.resident(f, p) ==> r->Ok_0 == m.frame_of(f, p)
                && m.loaded(f, p).0.frames[r->Ok_0].pin_count == m.frames[r->Ok_0].pin_count
        }),
{
    lemma_loaded(m, f, p);
    let (t1, r1) = m.loaded(f, p);
    if let Ok(i) = r1 {
        assert((t1.frames[i].pin_count == 0) <==> (t1.frames[i].latch == LatchMode::Free));
        if t1.frames[i].latch != LatchMode::Exclusive {
            let meta = FrameMeta {
                pin_count: (t1.frames[i].pin_count + 1) as u32,
                latch: LatchMode::Shared,
                ..t1.frames[i]
            };
            if t1.frames[i].pin_count < u32::MAX {
                lemma_pinned(t1, i, meta);
            }
        } else {
            lemma_still_inv(t1, i);
        }
    }
}

/// A pinned frame need not be listed.
proof fn lemma_still_inv(m: PoolModel, i: int)
    requires
        m.inv_but(i),
        0 <= i < m.frames.len(),
        m.frames[i].pin_count > 0,
    ensures
        m.inv(),
{
}

/// Fetching a page to change it keeps the invariant and what every page shows.
pub proof fn lemma_fetched_mut(m: PoolModel, f: FileId, p: PageId)
    requires
        m.inv(),
        m.frames.len() <= usize::MAX,
    ensures
        ({
            let (t, r) = m.fetched_mut(f, p);
            &&& t.inv()
            &&& load_facts(m, f, p, t, r)
            &&& r is Ok ==> t.frames[r->Ok_0].dirty && t.frames[r->Ok_0].latch
                == LatchMode::Exclusive && t.frames[r->Ok_0].pin_count == 1
            &&& m.page(f, p) is Some ==> (r is Ok <==> can_load(m, f, p) && !(m.resident(f, p)
                && m.frames[m.frame_of(f, p)].pin_count > 0))
        }),
{
    lemma_loaded(m, f, p);
    let (t1, r1) = m.loaded(f, p);
    if let Ok(i) = r1 {
        if t1.frames[i].pin_count == 0 {
            let meta = FrameMeta {
                pin_count: 1,
                latch: LatchMode::Exclusive,
                dirty: true,
                ..t1.frames[i]
            };
            lemma_pinned(t1, i, meta);
        } else {
            lemma_still_inv(t1, i);
        }
    }
}

/// Changing the bytes of a frame that is marked as changed keeps the invariant, and changes what
/// its page shows and nothing else.
pub proof fn lemma_with_bytes(m: PoolModel, i: int, b: Seq<u8>)
    requires
        m.inv(),
        0 <= i < m.frames.len(),
        m.frames[i].in_use,
        m.frames[i].dirty,
        b.len() == m.page_size,
        frame_sound(b, m.frames[i].page_id as int),
    ensures
        m.with_bytes(i, b).inv(),
        forall|f: FileId, p: PageId|
            m.page(f, p) is Some ==> #[trigger] m.with_bytes(i, b).page(f, p)
                == if m.frames[i].holds(f, p) {
                Some(b)
            } else {
                m.page(f, p)
            },
{
    let t = m.with_bytes(i, b);
    assert forall|j: int| 0 <= j < t.frames.len() && #[trigger] t.frames[j].in_use implies
        t.frame_ok(j) by {
        assert(m.frame_ok(j));
    }
    assert forall|f: int|
        0 <= f < t.files.len() && (#[trigger] t.files[f]) is Some implies t.file_ok(f) by {
        assert(m.file_ok(f));
    }
    assert forall|j: int| 0 <= j < t.bytes.len() implies (#[trigger] t.bytes[j]).len()
        == t.page_size by {
        if j != i {
            assert(t.bytes[j] == m.bytes[j]);
        }
    }
    assert(t.inv());
    assert forall|f: FileId, p: PageId| m.page(f, p) is Some implies #[trigger] t.page(f, p) == (
    if m.frames[i].holds(f, p) {
        Some(b)
    } else {
        m.page(f, p)
    }) by {
        if m.frames[i].holds(f, p) {
            lemma_frame_is(t, -1, f, p, i);
        } else {
            lemma_same_page(m, -1, t, -1, f, p);
        }
    }
}

/// One page more in a file keeps the invariant and what every page shows.
pub proof fn lemma_grown(m: PoolModel, f: FileId)
    requires
        m.inv(),
        m.registered(f),
        file_fits(m.file(f).page_count + 1),
    ensures
        m.grown(f).inv(),
        forall|g: FileId, q: PageId|
            m.page(g, q) is Some ==> #[trigger] m.grown(f).page(g, q)
                == m.page(g, q),
{
    let t = m.grown(f);
    assert(m.files[f as int] is Some);
    assert(m.file_ok(f as int));
    assert forall|j: int| 0 <= j < t.frames.len() && #[trigger] t.frames[j].in_use implies
        t.frame_ok(j) by {
        assert(m.frame_ok(j));
    }
    assert forall|g: int|
        0 <= g < t.files.len() && (#[trigger] t.files[g]) is Some implies t.file_ok(g) by {
        assert(m.files[g] is Some);
        assert(m.file_ok(g));
    }
    assert(t.inv());
    assert forall|g: FileId, q: PageId|
        m.page(g, q) is Some implies #[trigger] t.page(g, q)
        == m.page(g, q) by {
        lemma_same_page(m, -1, t, -1, g, q);
    }
}

/// Adding a page: the invariant holds once the frame has the bytes of the new page, which then
/// shows them, and no other page shows anything else.
pub proof fn lemma_new_paged(m: PoolModel, f: FileId, b: Seq<u8>)
    requires
        m.inv(),
        m.frames.len() <= usize::MAX,
    ensures
        ({
            let (t, r) = m.new_paged(f);
            let pid = m.file(f).page_count;
            &&& t.frames.len() == m.frames.len()
            &&& t.name == m.name
            &&& t.page_size == m.page_size
            &&& t.files.len() == m.files.len()
            &&& forall|g: FileId| #[trigger] t.registered(g) == m.registered(g)
            &&& forall|g: FileId|
                g != f && m.registered(g) ==> (#[trigger] t.file(g)).page_count == m.file(
                    g,
                ).page_count
            &&& r is Err ==> {
                &&& t.inv()
                &&& forall|g: FileId, q: PageId|
                    m.page(g, q) is Some ==> #[trigger] t.page(g, q)
                        == m.page(g, q)
                &&& forall|j: int|
                    0 <= j < m.frames.len() ==> (#[trigger] t.frames[j]).pin_count
                        == m.frames[j].pin_count
            }
            &&& r is Ok <==> m.registered(f) && file_fits(pid + 1) && exists|i: int|
                0 <= i < m.frames.len() && (#[trigger] m.frames[i]).pin_count == 0
            &&& r is Ok ==> {
                let i = r->Ok_0;
                &&& 0 <= i < t.frames.len()
                &&& t.frames[i].holds(f, pid as u64)
                &&& t.frames[i].dirty
                &&& t.frames[i].pin_count == 1
                &&& t.frames[i].latch == LatchMode::Exclusive
                &&& pid <= u64::MAX
                &&& m.page(f, pid as u64) is None
                &&& t.file(f).page_count == pid + 1
                &&& forall|j: int|
                    0 <= j < m.frames.len() && j != i ==> (#[trigger] t.frames[j]).pin_count
                        == m.frames[j].pin_count
                &&& (b.len() == m.page_size && frame_sound(b, pid as int)) ==> {
                    &&& t.with_bytes(i, b).inv()
                    &&& t.with_bytes(i, b).page(f, pid as u64) == Some(b)
                    &&& forall|g: FileId, q: PageId|
                        m.page(g, q) is Some ==> #[trigger] t.with_bytes(i, b).page(g, q)
                            == m.page(g, q)
                }
            }
        }),
{
    let (t, r) = m.new_paged(f);
    let pid = m.file(f).page_count;
    if m.registered(f) && file_fits(pid + 1) {
        assert(m.files[f as int] is Some);
        assert(m.file_ok(f as int));
        lemma_grown(m, f);
        let m1 = m.grown(f);
        lemma_evicted(m1);
        assert forall|g: FileId| #[trigger] t.registered(g) == m.registered(g) by {
            assert(m1.evicted().0.registered(g) == m1.registered(g));
        }
        assert forall|g: FileId| g != f && m.registered(g) implies (#[trigger] t.file(
            g,
        )).page_count == m.file(g).page_count by {
            assert(m1.registered(g));
            assert(m1.evicted().0.file(g).page_count == m1.file(g).page_count);
        }
        let (m2, slot) = m1.evicted();
        assert forall|g: FileId, q: PageId|
            m.page(g, q) is Some implies #[trigger] m2.page(g, q)
            == m.page(g, q) by {
            assert(m1.page(g, q) == m.page(g, q));
        }
        match slot {
            None => {
                assert forall|i: int| 0 <= i < m.frames.len() implies (
                #[trigger] m.frames[i]).pin_count > 0 by {
                    assert(m1.frames[i].pin_count > 0);
                }
            },
            Some(i) => {
                assert(m1.registered(f));
                assert(m2.registered(f));
                assert(m2.file(f).page_count == m1.file(f).page_count);
                assert(m.frames[i].pin_count == 0);
                // No frame holds the new page.
                assert forall|j: int| 0 <= j < m.frames.len() implies !(
                #[trigger] m.frames[j]).holds(f, pid as u64) by {
                    if m.frames[j].in_use {
                        assert(m.frame_ok(j));
                    }
                }
                lemma_frame_none(m.frames, f, pid as u64);
                if b.len() == m.page_size && frame_sound(b, pid as int) {
                    lemma_new_frame(m2, i, f, pid as u64, b);
                    assert forall|g: FileId, q: PageId| m.page(g, q) is Some implies
                        #[trigger] t.with_bytes(i, b).page(g, q) == m.page(g, q) by {
                        assert(m2.page(g, q) == m.page(g, q));
                    }
                }
            },
        }
    }
}

/// Giving a free frame to a page that its file does not have yet.
proof fn lemma_new_frame(m: PoolModel, i: int, f: FileId, p: PageId, b: Seq<u8>)
    requires
        m.inv(),
        0 <= i < m.frames.len(),
        !m.frames[i].in_use,
        !m.lru.contains(i as usize),
        m.registered(f),
        p < m.file(f).page_count,
        forall|j: int| 0 <= j < m.frames.len() && j != i ==> !(#[trigger] m.frames[j]).holds(f, p),
        b.len() == m.page_size,
        frame_sound(b, p as int),
    ensures
        ({
            let meta = FrameMeta {
                file_id: f,
                page_id: p,
                pin_count: 1,
                dirty: true,
                in_use: true,
                latch: LatchMode::Exclusive,
            };
            let t = m.with_frame(i, meta).with_bytes(i, b);
            &&& t.inv()
            &&& t.page(f, p) == Some(b)
            &&& forall|g: FileId, q: PageId|
                !(g == f && q == p) && m.page(g, q) is Some ==> #[trigger] t.page(g, q) == m.page(
                    g,
                    q,
                )
        }),
{
    let meta = FrameMeta {
        file_id: f,
        page_id: p,
        pin_count: 1,
        dirty: true,
        in_use: true,
        latch: LatchMode::Exclusive,
    };
    let t = m.with_frame(i, meta).with_bytes(i, b);
    assert forall|j: int| 0 <= j < t.frames.len() && #[trigger] t.frames[j].in_use implies
        t.frame_ok(j) by {
        if j != i {
            assert(m.frames[j].in_use);
            assert(m.frame_ok(j));
        }
    }
    assert forall|g: int|
        0 <= g < t.files.len() && (#[trigger] t.files[g]) is Some implies t.file_ok(g) by {
        assert(m.file_ok(g));
    }
    assert forall|j: int| 0 <= j < t.bytes.len() implies (#[trigger] t.bytes[j]).len()
        == t.page_size by {
        if j != i {
            assert(t.bytes[j] == m.bytes[j]);
        }
    }
    assert forall|a: int, c: int|
        0 <= a < t.frames.len() && 0 <= c < t.frames.len() && #[trigger] t.frames[a].in_use
            && #[trigger] t.frames[c].in_use && t.frames[a].file_id == t.frames[c].file_id
            && t.frames[a].page_id == t.frames[c].page_id implies a == c by {
        if a != i && c != i {
            assert(m.frames[a].in_use && m.frames[c].in_use);
        } else if a != i {
            assert(!m.frames[a].holds(f, p));
        } else if c != i {
            assert(!m.frames[c].holds(f, p));
        }
    }
    assert forall|j: int|
        0 <= j < t.frames.len() && (#[trigger] t.frames[j]).in_use && t.frames[j].pin_count
            == 0 implies t.lru.contains(j as usize) by {
        assert(m.frames[j].in_use);
    }
    assert forall|k: int| 0 <= k < t.lru.len() implies (#[trigger] t.lru[k]) < t.frames.len()
        && t.frames[t.lru[k] as int].pin_count == 0 by {
        assert(m.lru[k] < m.frames.len());
        assert(m.lru.contains(m.lru[k]));
    }
    assert(t.inv());
    lemma_frame_is(t, -1, f, p, i);
    assert forall|g: FileId, q: PageId|
        !(g == f && q == p) && m.page(g, q) is Some implies #[trigger] t.page(g, q) == m.page(
        g,
        q,
    ) by {
        assert forall|j: int| 0 <= j < m.frames.len() implies {
            &&& (#[trigger] m.frames[j]).holds(g, q) == t.frames[j].holds(g, q)
            &&& m.frames[j].holds(g, q) ==> t.bytes[j] == m.bytes[j]
        } by {}
        lemma_same_page(m, -1, t, -1, g, q);
    }
}

/// Taking a pin off keeps the invariant and what every page shows.
pub proof fn lemma_unpinned(m: PoolModel, f: FileId, p: PageId, dirty: bool)
    requires
        m.inv(),
        m.frames.len() <= usize::MAX,
    ensures
        ({
            let (t, r) = m.unpinned(f, p, dirty);
            &&& t.inv()
            &&& forall|g: FileId, q: PageId|
                m.page(g, q) is Some ==> #[trigger] t.page(g, q)
                    == m.page(g, q)
            &&& t.frames.len() == m.frames.len()
            &&& t.name == m.name
            &&& t.page_size == m.page_size
            &&& t.files == m.files
            &&& r is None <==> m.resident(f, p) && m.frames[m.frame_of(f, p)].pin_count > 0
            &&& r is None ==> {
                let i = m.frame_of(f, p);
                &&& t.frames[i].pin_count == m.frames[i].pin_count - 1
                &&& forall|j: int|
                    0 <= j < m.frames.len() && j != i ==> #[trigger] t.frames[j] == m.frames[j]
            }
        }),
{
    let (t, r) = m.unpinned(f, p, dirty);
    lemma_find_frame(m.frames, f, p, 0);
    if r is None {
        let i = m.frame_of(f, p);
        assert(m.frames[i].in_use);
        assert(m.frame_ok(i));
        assert(!m.lru.contains(i as usize)) by {
            if m.lru.contains(i as usize) {
                let k = choose|k: int| 0 <= k < m.lru.len() && m.lru[k] == i as usize;
                assert(m.frames[m.lru[k] as int].pin_count == 0);
            }
        }
        assert forall|j: int|
            0 <= j < t.frames.len() && (#[trigger] t.frames[j]).in_use && t.frames[j].pin_count
                == 0 implies t.lru.contains(j as usize) by {
            if j != i {
                assert(m.frames[j].in_use);
                assert(m.lru.contains(j as usize));
                let k = choose|k: int| 0 <= k < m.lru.len() && m.lru[k] == j as usize;
                assert(t.lru[k] == j as usize);
            } else {
                assert(t.lru[t.lru.len() - 1] == j as usize);
            }
        }
        assert forall|k: int| 0 <= k < t.lru.len() implies (#[trigger] t.lru[k]) < t.frames.len()
            && t.frames[t.lru[k] as int].pin_count == 0 by {
            if k < m.lru.len() {
                assert(m.lru[k] == t.lru[k]);
                assert(m.lru.contains(m.lru[k]));
            }
        }
        assert(t.lru.no_duplicates()) by {
            assert forall|a: int, b: int|
                0 <= a < t.lru.len() && 0 <= b < t.lru.len() && a != b implies t.lru[a]
                != t.lru[b] by {
                if a < m.lru.len() {
                    assert(m.lru.contains(m.lru[a]));
                }
                if b < m.lru.len() {
                    assert(m.lru.contains(m.lru[b]));
                }
            }
        }
        assert forall|j: int| 0 <= j < t.frames.len() && #[trigger] t.frames[j].in_use implies
            t.frame_ok(j) by {
            assert(m.frames[j].in_use);
            assert(m.frame_ok(j));
        }
        assert forall|g: int|
            0 <= g < t.files.len() && (#[trigger] t.files[g]) is Some implies t.file_ok(g) by {
            assert(m.file_ok(g));
        }
        assert forall|a: int, b: int|
            0 <= a < t.frames.len() && 0 <= b < t.frames.len() && #[trigger] t.frames[a].in_use
                && #[trigger] t.frames[b].in_use && t.frames[a].file_id == t.frames[b].file_id
                && t.frames[a].page_id == t.frames[b].page_id implies a == b by {
            assert(m.frames[a].in_use && m.frames[b].in_use);
        }
        assert(t.inv());
        assert forall|g: FileId, q: PageId|
            m.page(g, q) is Some implies #[trigger] t.page(g, q)
            == m.page(g, q) by {
            assert forall|j: int| 0 <= j < m.frames.len() implies {
                &&& (#[trigger] m.frames[j]).holds(g, q) == t.frames[j].holds(g, q)
                &&& m.frames[j].holds(g, q) ==> t.bytes[j] == m.bytes[j]
            } by {}
            lemma_same_page(m, -1, t, -1, g, q);
        }
    }
}

/// Taking a file out keeps the invariant and what the pages of the other files show.
pub proof fn lemma_dropped(m: PoolModel, f: FileId)
    requires
        m.inv(),
        m.frames.len() <= usize::MAX,
    ensures
        m.dropped(f).inv(),
        !m.dropped(f).registered(f),
        forall|g: FileId| g != f ==> #[trigger] m.dropped(f).registered(g) == m.registered(g),
        forall|g: FileId, q: PageId|
            g != f && m.page(g, q) is Some ==> #[trigger] m.dropped(f).page(g, q) == m.page(g, q),
        m.quiet() ==> m.dropped(f).quiet(),
{
    let t = m.dropped(f);
    let keep = not_of_file(m.frames, f);
    lemma_kept_of(m.lru, keep);
    assert forall|k: int| 0 <= k < t.lru.len() implies (#[trigger] t.lru[k]) < t.frames.len()
        && t.frames[t.lru[k] as int].pin_count == 0 by {
        assert(t.lru.contains(t.lru[k]));
        assert(m.lru.contains(t.lru[k]));
        let j = choose|j: int| 0 <= j < m.lru.len() && m.lru[j] == t.lru[k];
        assert(m.lru[j] < m.frames.len());
    }
    assert forall|j: int|
        0 <= j < t.frames.len() && (#[trigger] t.frames[j]).in_use && t.frames[j].pin_count
            == 0 implies t.lru.contains(j as usize) by {
        assert(m.frames[j].in_use);
        assert(m.lru.contains(j as usize));
        assert(keep(j as usize));
    }
    assert forall|j: int| 0 <= j < t.frames.len() && #[trigger] t.frames[j].in_use implies
        t.frame_ok(j) by {
        assert(m.frames[j].in_use);
        assert(m.frame_ok(j));
    }
    assert forall|g: int|
        0 <= g < t.files.len() && (#[trigger] t.files[g]) is Some implies t.file_ok(g) by {
        assert(m.files[g] is Some);
        assert(m.file_ok(g));
    }
    assert forall|a: int, b: int|
        0 <= a < t.frames.len() && 0 <= b < t.frames.len() && #[trigger] t.frames[a].in_use
            && #[trigger] t.frames[b].in_use && t.frames[a].file_id == t.frames[b].file_id
            && t.frames[a].page_id == t.frames[b].page_id implies a == b by {
        assert(m.frames[a].in_use && m.frames[b].in_use);
    }
    assert(t.inv());
    assert forall|g: FileId, q: PageId| g != f && m.page(g, q) is Some implies #[trigger] t.page(
        g,
        q,
    ) == m.page(g, q) by {
        assert forall|j: int| 0 <= j < m.frames.len() implies {
            &&& (#[trigger] m.frames[j]).holds(g, q) == t.frames[j].holds(g, q)
            &&& m.frames[j].holds(g, q) ==> t.bytes[j] == m.bytes[j]
        } by {}
        lemma_same_page(m, -1, t, -1, g, q);
    }
    if m.quiet() {
        assert forall|j: int| 0 <= j < t.frames.len() implies (#[trigger] t.frames[j]).pin_count
            == 0 by {
            assert(m.frames[j].pin_count == 0);
        }
    }
}

// ── Laws of the pool ──

/// Fetching a page gives what the page shows, and changes what no page shows: neither loading a
/// page nor making room for it loses a change.
pub proof fn law_fetch_shows_the_page(m: PoolModel, f: FileId, p: PageId)
    requires
        m.inv(),
        m.frames.len() <= usize::MAX,
        m.resident(f, p) ==> m.frames[m.frame_of(f, p)].pin_count < u32::MAX,
    ensures
        ({
            let (t, r) = m.fetched(f, p);
            &&& t.inv()
            &&& r is Ok && m.page(f, p) is Some ==> m.page(f, p) == Some(t.bytes[r->Ok_0])
            &&& forall|g: FileId, q: PageId|
                m.page(g, q) is Some ==> #[trigger] t.page(g, q)
                    == m.page(g, q)
        }),
{
    lemma_fetched(m, f, p);
}

/// Readers share a page, a writer has it alone: a page that a writer holds can be fetched by
/// nobody, and one that readers hold can be fetched to read and not to write.
pub proof fn law_readers_and_writer_exclude(m: PoolModel, f: FileId, p: PageId)
    requires
        m.inv(),
        m.frames.len() <= usize::MAX,
        m.resident(f, p),
    ensures
        ({
            let latch = m.frames[m.frame_of(f, p)].latch;
            &&& latch == LatchMode::Exclusive ==> m.fetched(f, p).1 is Err && m.fetched_mut(
                f,
                p,
            ).1 is Err
            &&& latch == LatchMode::Shared ==> m.fetched(f, p).1 is Ok && m.fetched_mut(
                f,
                p,
            ).1 is Err
            &&& latch == LatchMode::Free ==> m.fetched(f, p).1 is Ok && m.fetched_mut(f, p).1 is Ok
        }),
{
    lemma_find_frame(m.frames, f, p, 0);
    lemma_fetched(m, f, p);
    lemma_fetched_mut(m, f, p);
}

/// A pinned frame is never given to another page.
pub proof fn law_pinned_frames_stay(m: PoolModel, i: int)
    requires
        m.inv(),
        m.frames.len() <= usize::MAX,
        0 <= i < m.frames.len(),
        m.frames[i].pin_count > 0,
    ensures
        m.evicted().1 != Some(i),
        m.evicted().0.frames[i] == m.frames[i],
        m.evicted().0.bytes[i] == m.bytes[i],
{
    lemma_evicted(m);
}

/// A page can be brought in unless all frames are pinned.
pub proof fn law_full_only_when_all_pinned(m: PoolModel)
    requires
        m.inv(),
        m.frames.len() <= usize::MAX,
    ensures
        m.evicted().1 is None <==> forall|i: int|
            0 <= i < m.frames.len() ==> (#[trigger] m.frames[i]).pin_count > 0,
{
    lemma_evicted(m);
}

/// The frame that was released first goes first: with no frame free, the frame at the front of the
/// list is taken, and a frame whose last pin is taken off goes to the back of it.
pub proof fn law_least_recently_used_goes_first(m: PoolModel, f: FileId, p: PageId, dirty: bool)
    requires
        m.inv(),
        m.frames.len() <= usize::MAX,
    ensures
        (forall|i: int| 0 <= i < m.frames.len() ==> (#[trigger] m.frames[i]).in_use)
            && m.lru.len() > 0 ==> m.evicted().1 == Some(m.lru[0] as int),
        m.resident(f, p) && m.frames[m.frame_of(f, p)].pin_count == 1 ==> m.unpinned(
            f,
            p,
            dirty,
        ).0.lru == m.lru.push(m.frame_of(f, p) as usize),
{
    lemma_find_free(m.frames, 0);
}

/// Unpinning a page whose pins are all off is an error and changes nothing.
pub proof fn law_unpin_needs_a_pin(m: PoolModel, f: FileId, p: PageId, dirty: bool)
    requires
        m.inv(),
        m.resident(f, p),
        m.frames[m.frame_of(f, p)].pin_count == 0,
    ensures
        m.unpinned(f, p, dirty).1 is Some,
        m.unpinned(f, p, dirty).0 == m,
{
}

/// What flushing the first `n` frames does.
pub proof fn lemma_flushed_to(m: PoolModel, n: int)
    requires
        m.inv(),
        0 <= n <= m.frames.len(),
    ensures
        ({
            let t = m.flushed_to(n);
            &&& t.inv()
            &&& t.frames.len() == m.frames.len()
            &&& t.bytes == m.bytes
            &&& t.lru == m.lru
            &&& t.name == m.name
            &&& t.page_size == m.page_size
            &&& t.files.len() == m.files.len()
            &&& forall|f: FileId| #[trigger] t.registered(f) == m.registered(f)
            &&& forall|f: FileId|
                m.registered(f) ==> (#[trigger] t.file(f)).page_count == m.file(f).page_count
            &&& forall|f: FileId, p: PageId|
                m.page(f, p) is Some ==> #[trigger] t.page(f, p)
                    == m.page(f, p)
            &&& forall|i: int|
                0 <= i < m.frames.len() ==> #[trigger] t.frames[i] == (if i < n {
                    FrameMeta { dirty: false, ..m.frames[i] }
                } else {
                    m.frames[i]
                })
        }),
    decreases n,
{
    if n > 0 {
        lemma_flushed_to(m, n - 1);
        let s = m.flushed_to(n - 1);
        lemma_flushed(s, n - 1, -1);
        let t = m.flushed_to(n);
        assert forall|f: FileId| #[trigger] t.registered(f) == m.registered(f) by {
            assert(s.registered(f) == m.registered(f));
        }
        assert forall|f: FileId| m.registered(f) implies (#[trigger] t.file(f)).page_count
            == m.file(f).page_count by {
            assert(s.registered(f) == m.registered(f));
            assert(s.file(f).page_count == m.file(f).page_count);
        }
        assert forall|f: FileId, p: PageId|
            m.page(f, p) is Some implies #[trigger] t.page(f, p)
            == m.page(f, p) by {
            assert(s.page(f, p) == m.page(f, p));
        }
    }
}

/// After everything was flushed no page is marked as changed, every page in a frame is in its file
/// as it is, and every page shows what it showed.
pub proof fn law_flush_all_writes_everything(m: PoolModel, f: FileId, p: PageId)
    requires
        m.inv(),
    ensures
        ({
            let t = m.flushed_to(m.frames.len() as int);
            &&& t.inv()
            &&& forall|i: int| 0 <= i < t.frames.len() ==> !(#[trigger] t.frames[i]).dirty
            &&& m.page(f, p) is Some ==> t.page(f, p) == m.page(f, p)
            &&& m.resident(f, p) ==> p < t.file(f).heap.pages.len() && Some(
                t.file(f).heap.pages[p as int],
            ) == m.page(f, p)
        }),
{
    lemma_flushed_to(m, m.frames.len() as int);
    let t = m.flushed_to(m.frames.len() as int);
    lemma_find_frame(m.frames, f, p, 0);
    if m.resident(f, p) {
        let i = m.frame_of(f, p);
        assert(t.frames[i].in_use);
        assert(t.frame_ok(i));
        lemma_frame_is(t, -1, f, p, i);
    }
}

} // verus!
