use std::collections::{HashMap, VecDeque};
use vstd::prelude::*;

use super::page::Page;
use super::{FrameId, PageId, Storage, StorageError};

verus! {

/// The number of frames of the page cache.
pub const BUFFER_POOL_SIZE: usize = 2000;

/// A frame that holds a page: the id under which the page is resident, the
/// page, how many users hold it, and whether it was changed since it was read.
pub struct Frame {
    pub pgid: PageId,
    pub page: Page,
    pub pin_count: u32,
    pub dirty: bool,
}

/// The page cache: a fixed number of frames, a table from the ids of the
/// resident pages to their frames, the free frames in the order in which
/// they will be used, and the frames that hold a page in the order in which
/// they were last used, the least recently used first.
pub struct BufferPool {
    pub frames: Vec<Option<Frame>>,
    pub page_table: HashMap<u32, u32>,
    pub free_frames: VecDeque<FrameId>,
    pub lru: Vec<FrameId>,
}

/// What a page cache holds, as plain values.
#[verifier::ext_equal]
pub struct PoolState {
    pub frames: Seq<Option<Frame>>,
    pub table: Map<u32, u32>,
    pub free: Seq<FrameId>,
    pub lru: Seq<FrameId>,
}

/// The position of `frame` in `list`.
pub open spec fn position_of(list: Seq<FrameId>, frame: FrameId) -> int {
    choose|i: int| 0 <= i < list.len() && list[i] == frame
}

/// The first frame of `order` whose page nobody holds.
pub open spec fn first_unpinned(order: Seq<FrameId>, frames: Seq<Option<Frame>>) -> Option<FrameId>
    decreases order.len(),
{
    if order.len() == 0 {
        None
    } else if frames[order[0].0 as int] matches Some(frame) && frame.pin_count == 0 {
        Some(order[0])
    } else {
        first_unpinned(order.drop_first(), frames)
    }
}

impl PoolState {
    /// The page with this id is in the cache.
    pub open spec fn resident(self, pgid: PageId) -> bool {
        self.table.contains_key(pgid.0)
    }

    /// The frame of a resident page.
    pub open spec fn frame_of(self, pgid: PageId) -> FrameId {
        FrameId(self.table[pgid.0])
    }

    /// What the frame of a resident page holds.
    pub open spec fn held(self, pgid: PageId) -> Frame {
        self.frames[self.table[pgid.0] as int]->Some_0
    }

    /// The frame that is evicted next: of the frames that hold a page which
    /// nobody holds, the least recently used.
    pub open spec fn victim(self) -> Option<FrameId> {
        first_unpinned(self.lru, self.frames)
    }

    /// The table names exactly the frames that hold a page, each under the id
    /// of its page; the free frames are exactly the frames that hold none; the
    /// recency order lists exactly the frames that hold one; no frame is
    /// listed twice.
    pub open spec fn wf(self) -> bool {
        &&& self.frames.len() == BUFFER_POOL_SIZE
        &&& forall|id: u32| #[trigger]
            self.table.contains_key(id) ==> {
                &&& self.table[id] < BUFFER_POOL_SIZE
                &&& self.frames[self.table[id] as int] is Some
                &&& self.frames[self.table[id] as int]->Some_0.pgid.0 == id
            }
        &&& forall|f: int|
            0 <= f < BUFFER_POOL_SIZE && (#[trigger] self.frames[f]) is Some ==> {
                &&& self.table.contains_key(self.frames[f]->Some_0.pgid.0)
                &&& self.table[self.frames[f]->Some_0.pgid.0] == f
            }
        &&& self.free.no_duplicates()
        &&& forall|i: int|
            0 <= i < self.free.len() ==> (#[trigger] self.free[i]).0 < BUFFER_POOL_SIZE
                && self.frames[self.free[i].0 as int] is None
        &&& forall|f: int|
            0 <= f < BUFFER_POOL_SIZE && (#[trigger] self.frames[f]) is None ==> self.free.contains(
                FrameId(f as u32),
            )
        &&& self.lru.no_duplicates()
        &&& forall|i: int|
            0 <= i < self.lru.len() ==> (#[trigger] self.lru[i]).0 < BUFFER_POOL_SIZE
                && self.frames[self.lru[i].0 as int] is Some
        &&& forall|f: int|
            0 <= f < BUFFER_POOL_SIZE && (#[trigger] self.frames[f]) is Some ==> self.lru.contains(
                FrameId(f as u32),
            )
    }

    /// The cache after the frame has become the most recently used.
    pub open spec fn touched(self, frame: FrameId) -> PoolState {
        PoolState { lru: self.lru.remove(position_of(self.lru, frame)).push(frame), ..self }
    }

    /// The cache after one more user holds the resident page: its pin count
    /// is one higher and its frame is the most recently used.
    pub open spec fn pinned(self, pgid: PageId) -> PoolState {
        let held = self.held(pgid);
        PoolState {
            frames: self.frames.update(
                self.table[pgid.0] as int,
                Some(Frame { pin_count: (held.pin_count + 1) as u32, ..held }),
            ),
            ..self
        }.touched(self.frame_of(pgid))
    }

    /// The cache after a user let go of the resident page: its pin count is
    /// one lower, and it is dirty if it was or if the user says so.
    pub open spec fn unpinned(self, pgid: PageId, dirty: bool) -> PoolState {
        let held = self.held(pgid);
        PoolState {
            frames: self.frames.update(
                self.table[pgid.0] as int,
                Some(
                    Frame { pin_count: (held.pin_count - 1) as u32, dirty: held.dirty || dirty, ..held },
                ),
            ),
            ..self
        }
    }

    /// The cache after the resident page has been replaced by `page`.
    pub open spec fn rewritten(self, pgid: PageId, page: Page) -> PoolState {
        PoolState {
            frames: self.frames.update(
                self.table[pgid.0] as int,
                Some(Frame { page, ..self.held(pgid) }),
            ),
            ..self
        }
    }

    /// The cache after the page of the frame has left it: the frame holds
    /// nothing, is the last of the free frames, and neither the table nor
    /// the recency order names it.
    pub open spec fn evicted(self, frame: FrameId) -> PoolState {
        PoolState {
            frames: self.frames.update(frame.0 as int, None),
            table: self.table.remove(self.frames[frame.0 as int]->Some_0.pgid.0),
            free: self.free.push(frame),
            lru: self.lru.remove(position_of(self.lru, frame)),
        }
    }

    /// The cache after the page has been put into the first free frame: one
    /// user holds it, it is clean, and its frame is the most recently used.
    pub open spec fn installed(self, pgid: PageId, page: Page) -> PoolState {
        let frame = self.free[0];
        PoolState {
            frames: self.frames.update(
                frame.0 as int,
                Some(Frame { pgid, page, pin_count: 1, dirty: false }),
            ),
            table: self.table.insert(pgid.0, frame.0),
            free: self.free.drop_first(),
            lru: self.lru.push(frame),
        }
    }

    /// The cache from which the page with this id can be read in: as it is
    /// while a frame is free, else without the page that is to be evicted.
    pub open spec fn with_room(self) -> PoolState {
        if self.free.len() > 0 {
            self
        } else {
            self.evicted(self.victim()->Some_0)
        }
    }

    /// `copy` is what is written to the storage before a page can be read
    /// in: no frame is free, the page that is to leave is dirty, and `copy`
    /// has its header, slots and bytes.
    pub open spec fn flushes(self, copy: Page) -> bool {
        let held = self.frames[self.victim()->Some_0.0 as int]->Some_0;
        &&& self.free.len() == 0
        &&& self.victim() is Some
        &&& held.dirty
        &&& copy.header == held.page.header
        &&& copy.slots@ == held.page.slots@
        &&& copy.data@ == held.page.data@
    }

    /// There is a frame for one more page: a free one, or one whose page
    /// nobody holds.
    pub open spec fn has_room(self) -> bool {
        self.free.len() > 0 || self.victim() is Some
    }
}

impl View for BufferPool {
    type V = PoolState;

    open spec fn view(&self) -> PoolState {
        PoolState {
            frames: self.frames@,
            table: self.page_table@,
            free: self.free_frames@,
            lru: self.lru@,
        }
    }
}

/// `victim` stands at position `p` of `order`, nobody holds its page, and
/// somebody holds the page of every frame before it.
pub open spec fn least_recent_unpinned(
    order: Seq<FrameId>,
    frames: Seq<Option<Frame>>,
    victim: FrameId,
    p: int,
) -> bool {
    &&& 0 <= p < order.len()
    &&& order[p] == victim
    &&& frames[victim.0 as int]->Some_0.pin_count == 0
    &&& forall|i: int| 0 <= i < p ==> frames[(#[trigger] order[i]).0 as int]->Some_0.pin_count > 0
}

/// The frame to evict holds a page that nobody holds, and every frame that
/// was used less recently holds a page that somebody holds.  There is none
/// exactly if every frame in the order holds a page that somebody holds.
pub proof fn lemma_first_unpinned(order: Seq<FrameId>, frames: Seq<Option<Frame>>)
    requires
        forall|i: int| 0 <= i < order.len() ==> frames[(#[trigger] order[i]).0 as int] is Some,
    ensures
        first_unpinned(order, frames) is Some ==> exists|p: int|
            least_recent_unpinned(order, frames, first_unpinned(order, frames)->Some_0, p),
        first_unpinned(order, frames) is None ==> forall|i: int|
            0 <= i < order.len() ==> frames[(#[trigger] order[i]).0 as int]->Some_0.pin_count > 0,
    decreases order.len(),
{
    let found = first_unpinned(order, frames);
    if order.len() > 0 {
        let rest = order.drop_first();
        assert forall|i: int| 0 <= i < rest.len() implies frames[(#[trigger] rest[i]).0 as int] is Some by {
            assert(rest[i] == order[i + 1]);
        }
        lemma_first_unpinned(rest, frames);
        assert(frames[order[0].0 as int] is Some);
        let head = frames[order[0].0 as int]->Some_0;
        if head.pin_count == 0 {
            assert(found == Some(order[0]));
            assert(least_recent_unpinned(order, frames, found->Some_0, 0));
        } else {
            assert(found == first_unpinned(rest, frames));
            if found is Some {
                let victim = found->Some_0;
                let q = choose|q: int| least_recent_unpinned(rest, frames, victim, q);
                assert(least_recent_unpinned(rest, frames, victim, q));
                assert(order[q + 1] == rest[q]);
                assert forall|i: int| 0 <= i < q + 1 implies frames[(#[trigger] order[i]).0 as int]->Some_0.pin_count
                    > 0 by {
                    if i > 0 {
                        assert(order[i] == rest[i - 1]);
                    }
                }
                assert(least_recent_unpinned(order, frames, victim, q + 1));
            } else {
                assert forall|i: int| 0 <= i < order.len() implies frames[(#[trigger] order[i]).0 as int]->Some_0.pin_count
                    > 0 by {
                    if i > 0 {
                        assert(order[i] == rest[i - 1]);
                    }
                }
            }
        }
    }
}

/// A page that somebody holds is never the one to be evicted.
pub proof fn lemma_pinned_is_no_victim(state: PoolState, pgid: PageId)
    requires
        state.wf(),
        state.resident(pgid),
        state.held(pgid).pin_count > 0,
    ensures
        state.victim() != Some(state.frame_of(pgid)),
{
    lemma_first_unpinned(state.lru, state.frames);
}

/// The frame to evict is one of the cache's frames and holds a page that
/// nobody holds.
pub proof fn lemma_victim_is_unpinned(state: PoolState)
    requires
        state.wf(),
        state.victim() is Some,
    ensures
        state.victim()->Some_0.0 < BUFFER_POOL_SIZE,
        state.lru.contains(state.victim()->Some_0),
        state.frames[state.victim()->Some_0.0 as int] is Some,
        state.frames[state.victim()->Some_0.0 as int]->Some_0.pin_count == 0,
{
    lemma_first_unpinned(state.lru, state.frames);
    let victim = state.victim()->Some_0;
    let p = choose|p: int| least_recent_unpinned(state.lru, state.frames, victim, p);
    assert(state.lru[p] == victim);
}

/// Taking a frame out of a list without repeats and putting it at the end
/// gives a list without repeats that holds the same frames.
pub proof fn lemma_move_to_back(list: Seq<FrameId>, frame: FrameId)
    requires
        list.no_duplicates(),
        list.contains(frame),
    ensures
        list.remove(position_of(list, frame)).no_duplicates(),
        !list.remove(position_of(list, frame)).contains(frame),
        forall|g: FrameId|
            g != frame ==> (#[trigger] list.remove(position_of(list, frame)).contains(g)
                <==> list.contains(g)),
        list.remove(position_of(list, frame)).push(frame).no_duplicates(),
        forall|g: FrameId| #[trigger]
            list.remove(position_of(list, frame)).push(frame).contains(g) <==> list.contains(g),
{
    let p = position_of(list, frame);
    let rest = list.remove(p);
    let moved = rest.push(frame);
    assert forall|i: int, j: int| 0 <= i < rest.len() && 0 <= j < rest.len() && i != j implies rest[i]
        != rest[j] by {
        let a = if i < p { i } else { i + 1 };
        let b = if j < p { j } else { j + 1 };
        assert(rest[i] == list[a] && rest[j] == list[b]);
    }
    assert forall|i: int| 0 <= i < rest.len() implies rest[i] != frame by {
        let a = if i < p { i } else { i + 1 };
        assert(rest[i] == list[a]);
    }
    assert forall|g: FrameId| g != frame implies (#[trigger] rest.contains(g) <==> list.contains(g)) by {
        if list.contains(g) {
            let j = choose|j: int| 0 <= j < list.len() && list[j] == g;
            let i = if j < p { j } else { j - 1 };
            assert(rest[i] == g);
        }
        if rest.contains(g) {
            let i = choose|i: int| 0 <= i < rest.len() && rest[i] == g;
            let a = if i < p { i } else { i + 1 };
            assert(list[a] == g);
        }
    }
    assert forall|i: int, j: int| 0 <= i < moved.len() && 0 <= j < moved.len() && i != j implies moved[i]
        != moved[j] by {
        if i < rest.len() {
            assert(moved[i] == rest[i]);
        }
        if j < rest.len() {
            assert(moved[j] == rest[j]);
        }
    }
    assert forall|g: FrameId| #[trigger] moved.contains(g) <==> list.contains(g) by {
        if g == frame {
            assert(moved[rest.len() as int] == frame);
        } else {
            if rest.contains(g) {
                let i = choose|i: int| 0 <= i < rest.len() && rest[i] == g;
                assert(moved[i] == g);
            }
            if moved.contains(g) {
                let i = choose|i: int| 0 <= i < moved.len() && moved[i] == g;
                assert(rest[i] == g);
            }
        }
    }
}

/// A well-formed cache stays well formed when a frame that holds a page
/// becomes the most recently used.
pub proof fn lemma_touched_wf(state: PoolState, frame: FrameId)
    requires
        state.wf(),
        frame.0 < BUFFER_POOL_SIZE,
        state.frames[frame.0 as int] is Some,
    ensures
        state.touched(frame).wf(),
{
    let after = state.touched(frame);
    assert(state.lru.contains(FrameId(frame.0 as int as u32)));
    lemma_move_to_back(state.lru, frame);
    assert forall|i: int| 0 <= i < after.lru.len() implies (#[trigger] after.lru[i]).0
        < BUFFER_POOL_SIZE && after.frames[after.lru[i].0 as int] is Some by {
        assert(after.lru.contains(after.lru[i]));
        let j = choose|j: int| 0 <= j < state.lru.len() && state.lru[j] == after.lru[i];
        assert(state.lru[j].0 < BUFFER_POOL_SIZE);
    }
    assert forall|f: int|
        0 <= f < BUFFER_POOL_SIZE && (#[trigger] after.frames[f]) is Some implies after.lru.contains(
        FrameId(f as u32),
    ) by {
        assert(state.lru.contains(FrameId(f as u32)));
    }
}

/// A well-formed cache stays well formed when the frame of a resident page
/// comes to hold something else under the same id.
pub proof fn lemma_marked_wf(state: PoolState, pgid: PageId, held: Frame)
    requires
        state.wf(),
        state.resident(pgid),
        held.pgid == state.held(pgid).pgid,
    ensures
        (PoolState { frames: state.frames.update(state.table[pgid.0] as int, Some(held)), ..state }).wf(),
{
    let f = state.table[pgid.0] as int;
    let after = PoolState { frames: state.frames.update(f, Some(held)), ..state };
    assert forall|id: u32| #[trigger] after.table.contains_key(id) implies {
        &&& after.table[id] < BUFFER_POOL_SIZE
        &&& after.frames[after.table[id] as int] is Some
        &&& after.frames[after.table[id] as int]->Some_0.pgid.0 == id
    } by {
        assert(state.table.contains_key(id));
    }
    assert forall|g: int| 0 <= g < BUFFER_POOL_SIZE && (#[trigger] after.frames[g]) is Some implies {
        &&& after.table.contains_key(after.frames[g]->Some_0.pgid.0)
        &&& after.table[after.frames[g]->Some_0.pgid.0] == g
    } by {
        assert(state.frames[g] is Some);
    }
    assert forall|i: int| 0 <= i < after.free.len() implies (#[trigger] after.free[i]).0
        < BUFFER_POOL_SIZE && after.frames[after.free[i].0 as int] is None by {
        assert(state.frames[state.free[i].0 as int] is None);
    }
    assert forall|g: int|
        0 <= g < BUFFER_POOL_SIZE && (#[trigger] after.frames[g]) is None implies after.free.contains(
        FrameId(g as u32),
    ) by {
        assert(state.frames[g] is None);
    }
    assert forall|i: int| 0 <= i < after.lru.len() implies (#[trigger] after.lru[i]).0
        < BUFFER_POOL_SIZE && after.frames[after.lru[i].0 as int] is Some by {
        assert(state.frames[state.lru[i].0 as int] is Some);
    }
    assert forall|g: int|
        0 <= g < BUFFER_POOL_SIZE && (#[trigger] after.frames[g]) is Some implies after.lru.contains(
        FrameId(g as u32),
    ) by {
        assert(state.frames[g] is Some);
    }
}

/// A well-formed cache stays well formed when the page of a frame leaves it.
pub proof fn lemma_evicted_wf(state: PoolState, frame: FrameId)
    requires
        state.wf(),
        frame.0 < BUFFER_POOL_SIZE,
        state.frames[frame.0 as int] is Some,
    ensures
        state.evicted(frame).wf(),
        state.evicted(frame).free.len() > 0,
        state.evicted(frame).free[0] == if state.free.len() > 0 {
            state.free[0]
        } else {
            frame
        },
        forall|pgid: PageId|
            state.resident(pgid) && state.frame_of(pgid) != frame ==> {
                &&& #[trigger] state.evicted(frame).resident(pgid)
                &&& state.evicted(frame).frame_of(pgid) == state.frame_of(pgid)
                &&& state.evicted(frame).held(pgid) == state.held(pgid)
            },
        forall|pgid: PageId| #[trigger]
            state.evicted(frame).resident(pgid) ==> state.resident(pgid) && state.frame_of(pgid)
                != frame,
{
    let after = state.evicted(frame);
    let gone = state.frames[frame.0 as int]->Some_0.pgid.0;
    assert(state.lru.contains(FrameId(frame.0 as int as u32)));
    lemma_move_to_back(state.lru, frame);
    assert forall|id: u32| #[trigger] after.table.contains_key(id) implies {
        &&& after.table[id] < BUFFER_POOL_SIZE
        &&& after.frames[after.table[id] as int] is Some
        &&& after.frames[after.table[id] as int]->Some_0.pgid.0 == id
    } by {
        assert(state.table.contains_key(id));
    }
    assert forall|g: int| 0 <= g < BUFFER_POOL_SIZE && (#[trigger] after.frames[g]) is Some implies {
        &&& after.table.contains_key(after.frames[g]->Some_0.pgid.0)
        &&& after.table[after.frames[g]->Some_0.pgid.0] == g
    } by {
        assert(state.frames[g] is Some);
    }
    assert forall|i: int, j: int| 0 <= i < after.free.len() && 0 <= j < after.free.len() && i
        != j implies after.free[i] != after.free[j] by {
        if i < state.free.len() {
            assert(state.frames[state.free[i].0 as int] is None);
        }
        if j < state.free.len() {
            assert(state.frames[state.free[j].0 as int] is None);
        }
    }
    assert forall|i: int| 0 <= i < after.free.len() implies (#[trigger] after.free[i]).0
        < BUFFER_POOL_SIZE && after.frames[after.free[i].0 as int] is None by {
        if i < state.free.len() {
            assert(state.frames[state.free[i].0 as int] is None);
        }
    }
    assert forall|g: int|
        0 <= g < BUFFER_POOL_SIZE && (#[trigger] after.frames[g]) is None implies after.free.contains(
        FrameId(g as u32),
    ) by {
        if g == frame.0 {
            assert(after.free[state.free.len() as int] == frame);
        } else {
            assert(state.frames[g] is None);
            let i = choose|i: int| 0 <= i < state.free.len() && state.free[i] == FrameId(g as u32);
            assert(after.free[i] == FrameId(g as u32));
        }
    }
    assert forall|i: int| 0 <= i < after.lru.len() implies (#[trigger] after.lru[i]).0
        < BUFFER_POOL_SIZE && after.frames[after.lru[i].0 as int] is Some by {
        assert(after.lru.contains(after.lru[i]));
        assert(state.lru.contains(after.lru[i]));
        let j = choose|j: int| 0 <= j < state.lru.len() && state.lru[j] == after.lru[i];
        assert(state.frames[state.lru[j].0 as int] is Some);
    }
    assert forall|g: int|
        0 <= g < BUFFER_POOL_SIZE && (#[trigger] after.frames[g]) is Some implies after.lru.contains(
        FrameId(g as u32),
    ) by {
        assert(state.frames[g] is Some);
        assert(state.lru.contains(FrameId(g as u32)));
    }
    assert forall|pgid: PageId| state.resident(pgid) && state.frame_of(pgid) != frame implies {
        &&& #[trigger] after.resident(pgid)
        &&& after.frame_of(pgid) == state.frame_of(pgid)
        &&& after.held(pgid) == state.held(pgid)
    } by {
        assert(state.table.contains_key(pgid.0));
    }
    assert forall|pgid: PageId| #[trigger] after.resident(pgid) implies state.resident(pgid)
        && state.frame_of(pgid) != frame by {
        assert(state.table.contains_key(pgid.0));
    }
}

/// A well-formed cache with a free frame stays well formed when a page that
/// was not resident is put into the first free frame.
pub proof fn lemma_installed_wf(state: PoolState, pgid: PageId, page: Page)
    requires
        state.wf(),
        !state.resident(pgid),
        state.free.len() > 0,
    ensures
        state.installed(pgid, page).wf(),
        state.installed(pgid, page).resident(pgid),
        state.installed(pgid, page).frame_of(pgid) == state.free[0],
        state.installed(pgid, page).held(pgid) == (Frame { pgid, page, pin_count: 1, dirty: false }),
        forall|other: PageId|
            state.resident(other) ==> {
                &&& #[trigger] state.installed(pgid, page).resident(other)
                &&& state.installed(pgid, page).frame_of(other) == state.frame_of(other)
                &&& state.installed(pgid, page).held(other) == state.held(other)
            },
{
    let after = state.installed(pgid, page);
    let frame = state.free[0];
    assert(state.frames[frame.0 as int] is None);
    assert forall|id: u32| #[trigger] after.table.contains_key(id) implies {
        &&& after.table[id] < BUFFER_POOL_SIZE
        &&& after.frames[after.table[id] as int] is Some
        &&& after.frames[after.table[id] as int]->Some_0.pgid.0 == id
    } by {
        if id != pgid.0 {
            assert(state.table.contains_key(id));
        }
    }
    assert forall|g: int| 0 <= g < BUFFER_POOL_SIZE && (#[trigger] after.frames[g]) is Some implies {
        &&& after.table.contains_key(after.frames[g]->Some_0.pgid.0)
        &&& after.table[after.frames[g]->Some_0.pgid.0] == g
    } by {
        if g != frame.0 {
            assert(state.frames[g] is Some);
        }
    }
    assert forall|i: int, j: int| 0 <= i < after.free.len() && 0 <= j < after.free.len() && i
        != j implies after.free[i] != after.free[j] by {
        assert(after.free[i] == state.free[i + 1] && after.free[j] == state.free[j + 1]);
    }
    assert forall|i: int| 0 <= i < after.free.len() implies (#[trigger] after.free[i]).0
        < BUFFER_POOL_SIZE && after.frames[after.free[i].0 as int] is None by {
        assert(after.free[i] == state.free[i + 1]);
        assert(state.frames[state.free[i + 1].0 as int] is None);
    }
    assert forall|g: int|
        0 <= g < BUFFER_POOL_SIZE && (#[trigger] after.frames[g]) is None implies after.free.contains(
        FrameId(g as u32),
    ) by {
        assert(state.frames[g] is None);
        let i = choose|i: int| 0 <= i < state.free.len() && state.free[i] == FrameId(g as u32);
        assert(after.free[i - 1] == FrameId(g as u32));
    }
    assert forall|i: int, j: int| 0 <= i < after.lru.len() && 0 <= j < after.lru.len() && i
        != j implies after.lru[i] != after.lru[j] by {
        if i < state.lru.len() {
            assert(state.frames[state.lru[i].0 as int] is Some);
        }
        if j < state.lru.len() {
            assert(state.frames[state.lru[j].0 as int] is Some);
        }
    }
    assert forall|i: int| 0 <= i < after.lru.len() implies (#[trigger] after.lru[i]).0
        < BUFFER_POOL_SIZE && after.frames[after.lru[i].0 as int] is Some by {
        if i < state.lru.len() {
            assert(state.frames[state.lru[i].0 as int] is Some);
        }
    }
    assert forall|g: int|
        0 <= g < BUFFER_POOL_SIZE && (#[trigger] after.frames[g]) is Some implies after.lru.contains(
        FrameId(g as u32),
    ) by {
        if g == frame.0 {
            assert(after.lru[state.lru.len() as int] == frame);
        } else {
            assert(state.frames[g] is Some);
            let i = choose|i: int| 0 <= i < state.lru.len() && state.lru[i] == FrameId(g as u32);
            assert(after.lru[i] == FrameId(g as u32));
        }
    }
    assert forall|other: PageId| state.resident(other) implies {
        &&& #[trigger] after.resident(other)
        &&& after.frame_of(other) == state.frame_of(other)
        &&& after.held(other) == state.held(other)
    } by {
        assert(state.table.contains_key(other.0));
    }
}

/// Takes `frame` out of a list that holds it once.
fn remove_frame(list: &mut Vec<FrameId>, frame: FrameId)
    requires
        old(list)@.no_duplicates(),
        old(list)@.contains(frame),
    ensures
        final(list)@ == old(list)@.remove(position_of(old(list)@, frame)),
{
    let mut i: usize = 0;
    while i < list.len() && list[i] != frame
        invariant
            i <= list.len(),
            list@ == old(list)@,
            forall|j: int| 0 <= j < i ==> list@[j] != frame,
        decreases list.len() - i,
    {
        i += 1;
    }
    proof {
        let p = position_of(list@, frame);
        assert(list@[p] == frame);
        assert(i < list.len());
        assert(p == i);
    }
    list.remove(i);
}

impl BufferPool {
    /// A cache without pages: every frame is free, and the frames will be
    /// used in the order of their numbers.
    pub fn new() -> (pool: Self)
        ensures
            pool@.wf(),
            pool@.table == Map::<u32, u32>::empty(),
            pool@.lru.len() == 0,
            pool@.free == Seq::new(BUFFER_POOL_SIZE as nat, |i: int| FrameId(i as u32)),
            forall|f: int| 0 <= f < BUFFER_POOL_SIZE ==> (#[trigger] pool@.frames[f]) is None,
    {
        let mut frames: Vec<Option<Frame>> = Vec::with_capacity(BUFFER_POOL_SIZE);
        let mut free_frames: VecDeque<FrameId> = VecDeque::with_capacity(BUFFER_POOL_SIZE);
        let mut i: usize = 0;
        while i < BUFFER_POOL_SIZE
            invariant
                i <= BUFFER_POOL_SIZE,
                frames.len() == i,
                free_frames@ == Seq::new(i as nat, |j: int| FrameId(j as u32)),
                forall|f: int| 0 <= f < i ==> (#[trigger] frames@[f]) is None,
            decreases BUFFER_POOL_SIZE - i,
        {
            frames.push(None);
            free_frames.push_back(FrameId(i as u32));
            i += 1;
            assert(free_frames@ =~= Seq::new(i as nat, |j: int| FrameId(j as u32)));
        }
        let pool = Self {
            frames,
            page_table: HashMap::with_capacity(BUFFER_POOL_SIZE),
            free_frames,
            lru: Vec::new(),
        };
        proof {
            assert forall|f: int|
                0 <= f < BUFFER_POOL_SIZE && (#[trigger] pool@.frames[f]) is None
                implies pool@.free.contains(FrameId(f as u32)) by {
                assert(pool@.free[f] == FrameId(f as u32));
            }
        }
        pool
    }

    /// The frame that holds the page with this id, if the page is resident.
    pub fn lookup(&self, pgid: PageId) -> (r: Option<FrameId>)
        ensures
            r == if self@.resident(pgid) {
                Some(self@.frame_of(pgid))
            } else {
                None
            },
    {
        match self.page_table.get(&pgid.0) {
            Some(f) => Some(FrameId(*f)),
            None => None,
        }
    }

    /// The page that a frame holds, if it holds one.
    pub fn page(&self, frame: FrameId) -> (r: Option<&Page>)
        ensures
            match r {
                Some(page) => {
                    &&& frame.0 < self@.frames.len()
                    &&& self@.frames[frame.0 as int] is Some
                    &&& self@.frames[frame.0 as int]->Some_0.page == *page
                },
                None => frame.0 >= self@.frames.len() || self@.frames[frame.0 as int] is None,
            },
    {
        if frame.0 as usize >= self.frames.len() {
            return None;
        }
        match &self.frames[frame.0 as usize] {
            Some(held) => Some(&held.page),
            None => None,
        }
    }

    /// The frame to evict: of the frames whose page nobody holds, the least
    /// recently used; `None` when every page in the cache is held.
    pub fn victim(&self) -> (r: Option<FrameId>)
        requires
            self@.wf(),
        ensures
            r == self@.victim(),
    {
        let mut i: usize = 0;
        assert(self.lru@.skip(0) =~= self.lru@);
        while i < self.lru.len()
            invariant
                self@.wf(),
                i <= self.lru.len(),
                first_unpinned(self.lru@, self.frames@) == first_unpinned(
                    self.lru@.skip(i as int),
                    self.frames@,
                ),
            decreases self.lru.len() - i,
        {
            let f = self.lru[i];
            let ghost rest = self.lru@.skip(i as int);
            assert(rest[0] == f);
            assert(rest.drop_first() =~= self.lru@.skip(i + 1));
            assert(self@.lru[i as int].0 < BUFFER_POOL_SIZE);
            match &self.frames[f.0 as usize] {
                Some(frame) => {
                    if frame.pin_count == 0 {
                        return Some(f);
                    }
                },
                None => {},
            }
            i += 1;
        }
        assert(self.lru@.skip(i as int).len() == 0);
        None
    }

    /// One more user holds the page, if it is resident: `Some` with its
    /// frame, which is now the most recently used.
    pub fn pin(&mut self, pgid: PageId) -> (r: Option<FrameId>)
        requires
            old(self)@.wf(),
            old(self)@.resident(pgid) ==> old(self)@.held(pgid).pin_count < u32::MAX,
        ensures
            final(self)@.wf(),
            match r {
                Some(frame) => {
                    &&& old(self)@.resident(pgid)
                    &&& frame == old(self)@.frame_of(pgid)
                    &&& final(self)@ == old(self)@.pinned(pgid)
                },
                None => !old(self)@.resident(pgid) && final(self)@ == old(self)@,
            },
    {
        let frame = match self.lookup(pgid) {
            Some(frame) => frame,
            None => {
                return None;
            },
        };
        let ghost before = self@;
        proof {
            assert(before.table.contains_key(pgid.0));
            lemma_marked_wf(
                before,
                pgid,
                Frame { pin_count: (before.held(pgid).pin_count + 1) as u32, ..before.held(pgid) },
            );
        }
        match &mut self.frames[frame.0 as usize] {
            Some(held) => {
                held.pin_count = held.pin_count + 1;
            },
            None => {},
        }
        let ghost marked = self@;
        proof {
            assert(marked.frames =~= before.frames.update(
                frame.0 as int,
                Some(
                    Frame { pin_count: (before.held(pgid).pin_count + 1) as u32, ..before.held(pgid) },
                ),
            ));
            lemma_touched_wf(marked, frame);
            assert(marked.lru.contains(FrameId(frame.0 as int as u32)));
        }
        remove_frame(&mut self.lru, frame);
        self.lru.push(frame);
        assert(self@ =~= before.pinned(pgid));
        Some(frame)
    }

    /// A user lets go of the page and says whether it changed it.  `true`
    /// when the page was resident and held: its pin count is then one lower.
    /// Otherwise nothing changes.
    pub fn unpin_page(&mut self, pgid: PageId, dirty: bool) -> (r: bool)
        requires
            old(self)@.wf(),
        ensures
            final(self)@.wf(),
            r <==> old(self)@.resident(pgid) && old(self)@.held(pgid).pin_count > 0,
            final(self)@ == if r {
                old(self)@.unpinned(pgid, dirty)
            } else {
                old(self)@
            },
    {
        let frame = match self.lookup(pgid) {
            Some(frame) => frame,
            None => {
                return false;
            },
        };
        let ghost before = self@;
        proof {
            assert(before.table.contains_key(pgid.0));
            lemma_marked_wf(
                before,
                pgid,
                Frame {
                    pin_count: (before.held(pgid).pin_count - 1) as u32,
                    dirty: before.held(pgid).dirty || dirty,
                    ..before.held(pgid)
                },
            );
        }
        let mut done = false;
        match &mut self.frames[frame.0 as usize] {
            Some(held) => {
                if held.pin_count > 0 {
                    held.pin_count = held.pin_count - 1;
                    if dirty {
                        held.dirty = true;
                    }
                    done = true;
                }
            },
            None => {},
        }
        proof {
            if done {
                assert(self@.frames =~= before.unpinned(pgid, dirty).frames);
                assert(self@ =~= before.unpinned(pgid, dirty));
            } else {
                assert(self@.frames =~= before.frames);
                assert(self@ =~= before);
            }
        }
        done
    }

    /// Puts `page` in the place of the resident page, for a user that holds
    /// it: `Ok` with the page that was there.  A page that is not resident, or
    /// that nobody holds, is not replaced, and `page` comes back.
    pub fn put_page(&mut self, pgid: PageId, page: Page) -> (r: Result<Page, Page>)
        requires
            old(self)@.wf(),
        ensures
            final(self)@.wf(),
            r is Ok <==> old(self)@.resident(pgid) && old(self)@.held(pgid).pin_count > 0,
            match r {
                Ok(previous) => {
                    &&& previous == old(self)@.held(pgid).page
                    &&& final(self)@ == old(self)@.rewritten(pgid, page)
                },
                Err(back) => back == page && final(self)@ == old(self)@,
            },
    {
        let frame = match self.lookup(pgid) {
            Some(frame) => frame,
            None => {
                return Err(page);
            },
        };
        let ghost before = self@;
        proof {
            assert(before.table.contains_key(pgid.0));
            lemma_marked_wf(before, pgid, Frame { page, ..before.held(pgid) });
        }
        let pinned = match &self.frames[frame.0 as usize] {
            Some(held) => held.pin_count > 0,
            None => false,
        };
        if !pinned {
            return Err(page);
        }
        let mut other = page;
        match &mut self.frames[frame.0 as usize] {
            Some(held) => {
                std::mem::swap(&mut held.page, &mut other);
            },
            None => {},
        }
        assert(self@.frames =~= before.rewritten(pgid, page).frames);
        assert(self@ =~= before.rewritten(pgid, page));
        Ok(other)
    }

    /// Takes the page out of the frame, if the frame holds a page that nobody
    /// holds: `Some` with what the frame held, and the frame is free.
    /// Otherwise nothing changes.
    pub fn evict(&mut self, frame: FrameId) -> (r: Option<Frame>)
        requires
            old(self)@.wf(),
        ensures
            final(self)@.wf(),
            r is Some <==> frame.0 < BUFFER_POOL_SIZE && old(self)@.frames[frame.0 as int] is Some
                && old(self)@.frames[frame.0 as int]->Some_0.pin_count == 0,
            match r {
                Some(held) => {
                    &&& held == old(self)@.frames[frame.0 as int]->Some_0
                    &&& final(self)@ == old(self)@.evicted(frame)
                },
                None => final(self)@ == old(self)@,
            },
    {
        let idx = frame.0 as usize;
        if idx >= self.frames.len() {
            return None;
        }
        let unpinned = match &self.frames[idx] {
            Some(held) => held.pin_count == 0,
            None => false,
        };
        if !unpinned {
            return None;
        }
        let ghost before = self@;
        proof {
            lemma_evicted_wf(before, frame);
            assert(before.lru.contains(FrameId(frame.0 as int as u32)));
        }
        self.frames.push(None);
        let taken = self.frames.swap_remove(idx);
        assert(self.frames@ =~= before.frames.update(idx as int, None));
        match taken {
            Some(held) => {
                self.page_table.remove(&held.pgid.0);
                remove_frame(&mut self.lru, frame);
                self.free_frames.push_back(frame);
                assert(self@ =~= before.evicted(frame));
                Some(held)
            },
            None => None,
        }
    }

    /// Puts a page that is not resident into the first free frame: one user
    /// holds it, and its frame is the most recently used.
    pub fn install(&mut self, pgid: PageId, page: Page) -> (frame: FrameId)
        requires
            old(self)@.wf(),
            !old(self)@.resident(pgid),
            old(self)@.free.len() > 0,
        ensures
            final(self)@.wf(),
            frame == old(self)@.free[0],
            final(self)@ == old(self)@.installed(pgid, page),
    {
        let ghost before = self@;
        proof {
            lemma_installed_wf(before, pgid, page);
        }
        let frame = match self.free_frames.pop_front() {
            Some(frame) => frame,
            None => FrameId(0),
        };
        assert(frame == before.free[0]);
        assert(frame.0 < BUFFER_POOL_SIZE);
        self.frames.set(frame.0 as usize, Some(Frame { pgid, page, pin_count: 1, dirty: false }));
        self.page_table.insert(pgid.0, frame.0);
        self.lru.push(frame);
        assert(self@ =~= before.installed(pgid, page));
        frame
    }

    /// Gives the frame of the page with this id, and holds the page for the
    /// caller.  A resident page is pinned once more.  Another page is read
    /// from the storage into a free frame; when no frame is free, the least
    /// recently used page that nobody holds leaves the cache first, and is
    /// written to the storage before if it is dirty.  When the storage fails,
    /// or every page is held, the cache stays as it is.
    pub fn fetch_page<S: Storage>(&mut self, pgid: PageId) -> (r: Result<FrameId, StorageError>)
        requires
            old(self)@.wf(),
            old(self)@.resident(pgid) ==> old(self)@.held(pgid).pin_count < u32::MAX,
        ensures
            final(self)@.wf(),
            old(self)@.resident(pgid) ==> r == Ok::<FrameId, StorageError>(old(self)@.frame_of(pgid))
                && final(self)@ == old(self)@.pinned(pgid),
            !old(self)@.resident(pgid) && !old(self)@.has_room() ==> r == Err::<
                FrameId,
                StorageError,
            >(StorageError::NoFreeFrame) && final(self)@ == old(self)@,
            !old(self)@.resident(pgid) && old(self)@.has_room() ==> match r {
                Ok(frame) => {
                    &&& frame == old(self)@.with_room().free[0]
                    &&& exists|page: Page|
                        {
                            &&& call_ensures(S::get_page, (pgid,), Ok::<Page, StorageError>(page))
                            &&& final(self)@ == #[trigger] old(self)@.with_room().installed(pgid, page)
                        }
                    &&& old(self)@.free.len() == 0 && old(self)@.frames[old(
                        self,
                    )@.victim()->Some_0.0 as int]->Some_0.dirty ==> exists|
                        copy: Page,
                        done: Result<(), StorageError>,
                    | #[trigger]
                        call_ensures(S::flush_page, (copy,), done) && done is Ok && old(self)@.flushes(
                            copy,
                        )
                },
                Err(e) => {
                    &&& final(self)@ == old(self)@
                    &&& call_ensures(S::get_page, (pgid,), Err::<Page, StorageError>(e)) || exists|
                        copy: Page,
                    | #[trigger]
                        call_ensures(S::flush_page, (copy,), Err::<(), StorageError>(e))
                            && old(self)@.flushes(copy)
                },
            },
            forall|held: PageId|
                held != pgid && #[trigger] old(self)@.resident(held) && old(self)@.held(held).pin_count
                    > 0 ==> {
                    &&& final(self)@.resident(held)
                    &&& final(self)@.frame_of(held) == old(self)@.frame_of(held)
                    &&& final(self)@.held(held) == old(self)@.held(held)
                },
    {
        let ghost before = self@;
        if let Some(frame) = self.pin(pgid) {
            proof {
                lemma_pinned_keeps_others(before, pgid);
            }
            return Ok(frame);
        }
        let victim = if self.free_frames.len() > 0 {
            None
        } else {
            match self.victim() {
                Some(victim) => Some(victim),
                None => {
                    return Err(StorageError::NoFreeFrame);
                },
            }
        };
        let page = match S::get_page(pgid) {
            Ok(page) => page,
            Err(e) => {
                return Err(e);
            },
        };
        if let Some(victim) = victim {
            proof {
                lemma_victim_is_unpinned(before);
            }
            let copy = match &self.frames[victim.0 as usize] {
                Some(held) => if held.dirty {
                    Some(held.page.duplicate())
                } else {
                    None
                },
                None => None,
            };
            if let Some(copy) = copy {
                let ghost written = copy;
                let flushed = S::flush_page(copy);
                assert(call_ensures(S::flush_page, (written,), flushed) && before.flushes(written));
                if let Err(e) = flushed {
                    return Err(e);
                }
            }
            let _ = self.evict(victim);
        }
        proof {
            lemma_room_keeps_pinned(before);
            lemma_installed_wf(before.with_room(), pgid, page);
        }
        Ok(self.install(pgid, page))
    }
}

/// Pinning a page changes nothing of what the cache holds for another page.
pub proof fn lemma_pinned_keeps_others(state: PoolState, pgid: PageId)
    requires
        state.wf(),
        state.resident(pgid),
    ensures
        forall|other: PageId|
            other != pgid && #[trigger] state.resident(other) ==> {
                &&& state.pinned(pgid).resident(other)
                &&& state.pinned(pgid).frame_of(other) == state.frame_of(other)
                &&& state.pinned(pgid).held(other) == state.held(other)
            },
{
    assert forall|other: PageId| other != pgid && #[trigger] state.resident(other) implies {
        &&& state.pinned(pgid).resident(other)
        &&& state.pinned(pgid).frame_of(other) == state.frame_of(other)
        &&& state.pinned(pgid).held(other) == state.held(other)
    } by {
        assert(state.table.contains_key(other.0));
        assert(state.table.contains_key(pgid.0));
    }
}

/// Making room for one more page changes nothing of what the cache holds for
/// a page that somebody holds: such a page is never the one that leaves.
pub proof fn lemma_room_keeps_pinned(state: PoolState)
    requires
        state.wf(),
        state.has_room(),
    ensures
        state.with_room().wf(),
        state.with_room().free.len() > 0,
        forall|pgid: PageId| #[trigger]
            state.with_room().resident(pgid) ==> state.resident(pgid),
        forall|pgid: PageId|
            #[trigger] state.resident(pgid) && state.held(pgid).pin_count > 0 ==> {
                &&& state.with_room().resident(pgid)
                &&& state.with_room().frame_of(pgid) == state.frame_of(pgid)
                &&& state.with_room().held(pgid) == state.held(pgid)
            },
{
    if state.free.len() == 0 {
        lemma_victim_is_unpinned(state);
        let victim = state.victim()->Some_0;
        lemma_evicted_wf(state, victim);
        assert forall|pgid: PageId|
            #[trigger] state.resident(pgid) && state.held(pgid).pin_count > 0 implies {
            &&& state.with_room().resident(pgid)
            &&& state.with_room().frame_of(pgid) == state.frame_of(pgid)
            &&& state.with_room().held(pgid) == state.held(pgid)
        } by {
            lemma_pinned_is_no_victim(state, pgid);
        }
    }
}

} // verus!
