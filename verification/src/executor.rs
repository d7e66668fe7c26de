//! The executor core: an index-based arena of task control blocks, the ready
//! queue drained once per cycle, the coalesced timer queue, the spawn-token
//! protocol of the three storage strategies, and the waker operations with
//! their reference-counting discipline for allocated storage.

use vstd::prelude::*;

use crate::state::{
    claimed_word, is_run_queued_word, is_spawned_word, lemma_word_bits, run_queued_bit,
    spawned_bit, word_dequeue, word_despawn, word_enqueue, word_wf,
};

verus! {

broadcast use vstd::seq_lib::lemma_seq_contains_after_push;

/// The tick value that stands for "no pending timer."
pub const NEVER_TICKS: u64 = 0xFFFF_FFFF_FFFF_FFFF;

/// Why consuming a spawn token can fail.
#[derive(Clone, Copy, PartialEq, Eq, Structural, Debug)]
pub enum SpawnError {
    /// Singleton or pooled storage still holds an unfinished computation.
    AlreadySpawned,
    /// Every slot of the pool is claimed.
    PoolExhausted,
}

/// The policy that placed a task's control block and computation.
#[derive(Clone, Copy, PartialEq, Eq, Structural, Debug)]
pub enum StorageKind {
    /// One program-lifetime slot, respawnable after completion.
    Singleton,
    /// One slot of a fixed-capacity pool, reclaimed at completion.
    Pooled,
    /// One reference-counted slot per spawn, released when the count reaches
    /// zero and the computation has completed.
    Allocated,
}

/// One task control block with the placement space for its computation.
pub(crate) struct TaskSlot<V> {
    /// The two-bit atomic state word (SPAWNED, RUN_QUEUED).
    pub state: u32,
    /// Which storage strategy owns the slot.
    pub kind: StorageKind,
    /// Reference count; meaningful only for allocated storage.
    pub strong: u32,
    /// Whether allocated storage has been released and awaits reuse.
    pub freed: bool,
    /// Whether no spawn token for this slot is outstanding.
    pub committed: bool,
    /// Absolute tick of the task's single coalesced timer slot.
    pub expires_at: u64,
    /// The computation occupying the storage, absent while it is out being
    /// polled and after completion.
    pub comp: Option<V>,
}

/// The one-shot token a spawn attempt returns: consuming it either commits
/// the task to the ready queue or surfaces the deferred failure.
pub struct SpawnToken {
    res: Result<usize, SpawnError>,
}

impl SpawnToken {
    /// The deferred outcome the token carries.
    pub closed spec fn outcome(&self) -> Result<usize, SpawnError> {
        self.res
    }
}

/// What one call to `next_ready` yielded.
pub enum NextReady<V> {
    /// The drained batch is exhausted; the cycle's poll phase is over.
    Empty,
    /// The batch held a stale entry for a task that completed after its wake;
    /// its poll operation is not handed out again.
    Skipped(usize),
    /// The next task to poll, with the computation its storage held.
    Run(usize, V),
}

/// The executor: the arena of task slots, the ready queue and the batch the
/// current drain detached from it, the timer-queue membership list, and the
/// task currently out being polled.
pub struct Executor<V> {
    slots: Vec<TaskSlot<V>>,
    ready: Vec<usize>,
    batch: Vec<usize>,
    timers: Vec<usize>,
    polling: Option<usize>,
}

impl<V> Executor<V> {
    /// How many task slots the arena holds.
    pub closed spec fn n_slots(&self) -> nat {
        self.slots@.len()
    }

    /// The raw state word of slot `i`.
    pub closed spec fn state_of(&self, i: usize) -> u32 {
        self.slots@[i as int].state
    }

    /// Whether an unfinished computation occupies slot `i`.
    pub open spec fn spawned(&self, i: usize) -> bool {
        spawned_bit(self.state_of(i))
    }

    /// Whether slot `i` holds its single ready-queue position.
    pub open spec fn run_queued(&self, i: usize) -> bool {
        run_queued_bit(self.state_of(i))
    }

    /// Whether a spawn could claim slot `i`: neither flag set.
    pub open spec fn claimable(&self, i: usize) -> bool {
        !self.spawned(i) && !self.run_queued(i)
    }

    /// The storage strategy that owns slot `i`.
    pub closed spec fn kind_of(&self, i: usize) -> StorageKind {
        self.slots@[i as int].kind
    }

    /// The reference count of allocated slot `i`.
    pub closed spec fn strong_count_of(&self, i: usize) -> u32 {
        self.slots@[i as int].strong
    }

    /// Whether allocated slot `i` has been released.
    pub closed spec fn freed(&self, i: usize) -> bool {
        self.slots@[i as int].freed
    }

    /// Whether no spawn token for slot `i` is outstanding.
    pub closed spec fn committed(&self, i: usize) -> bool {
        self.slots@[i as int].committed
    }

    /// The absolute tick of slot `i`'s coalesced timer slot.
    pub closed spec fn expiry_of(&self, i: usize) -> u64 {
        self.slots@[i as int].expires_at
    }

    /// The computation value stored in slot `i`.
    pub closed spec fn comp_of(&self, i: usize) -> Option<V> {
        self.slots@[i as int].comp
    }

    /// The ready queue, as inserted since the last drain.
    pub closed spec fn ready_list(&self) -> Seq<usize> {
        self.ready@
    }

    /// What the current drain detached and has not yet handed out.
    pub closed spec fn batch_list(&self) -> Seq<usize> {
        self.batch@
    }

    /// The timer-queue membership list.
    pub closed spec fn timer_list(&self) -> Seq<usize> {
        self.timers@
    }

    /// The task currently out being polled, if any.
    pub closed spec fn polling_of(&self) -> Option<usize> {
        self.polling
    }

    /// Whether task `i` holds a ready-queue position: still queued, or already
    /// detached into the current drain's batch.
    pub open spec fn pending(&self, i: usize) -> bool {
        self.ready_list().contains(i) || self.batch_list().contains(i)
    }

    /// Whether task `i` stands in the timer queue.
    pub open spec fn in_timer(&self, i: usize) -> bool {
        self.timer_list().contains(i)
    }

    /// The references to allocated slot `i` that the executor itself accounts
    /// for: its ready-queue position, the current poll, its timer-queue
    /// position, and an outstanding spawn token.
    pub open spec fn accounted_refs(&self, i: usize) -> nat {
        (if self.pending(i) {
            1nat
        } else {
            0nat
        }) + (if self.polling_of() == Some(i) {
            1nat
        } else {
            0nat
        }) + (if self.in_timer(i) {
            1nat
        } else {
            0nat
        }) + (if !self.committed(i) {
            1nat
        } else {
            0nat
        })
    }

    /// Slot `i` reads the same in both executors.
    pub open spec fn slot_same(&self, other: &Self, i: usize) -> bool {
        &&& self.state_of(i) == other.state_of(i)
        &&& self.kind_of(i) == other.kind_of(i)
        &&& self.strong_count_of(i) == other.strong_count_of(i)
        &&& self.freed(i) == other.freed(i)
        &&& self.committed(i) == other.committed(i)
        &&& self.expiry_of(i) == other.expiry_of(i)
        &&& self.comp_of(i) == other.comp_of(i)
    }

    /// The per-slot invariant.
    pub(crate) closed spec fn slot_wf(&self, i: usize) -> bool {
        let s = self.slots@[i as int];
        &&& word_wf(s.state)
        // one ready-queue position, guarded by RUN_QUEUED
        &&& (run_queued_bit(s.state) && s.committed <==> self.pending(i))
        // SPAWNED is occupancy: the computation is in place or out being polled
        &&& (spawned_bit(s.state) <==> s.comp is Some || self.polling_of() == Some(i))
        &&& (self.polling_of() == Some(i) ==> s.comp is None)
        // a claim precedes its commit, and holds the queue position it set
        &&& (!s.committed ==> spawned_bit(s.state) && run_queued_bit(s.state) && !self.pending(i))
        // the coalesced timer slot
        &&& (self.in_timer(i) ==> spawned_bit(s.state) && s.expires_at < NEVER_TICKS)
        &&& (!self.in_timer(i) ==> s.expires_at == NEVER_TICKS)
        // storage strategies
        &&& match s.kind {
            StorageKind::Allocated => {
                &&& (s.freed ==> s.state == 0 && s.strong == 0 && s.committed)
                &&& s.strong >= self.accounted_refs(i)
                &&& (s.strong >= 1 ==> !s.freed)
            },
            _ => s.strong == 0 && !s.freed,
        }
    }

    /// The executor invariant.
    pub closed spec fn wf(&self) -> bool {
        let n = self.slots@.len();
        &&& (forall|k: int| 0 <= k < self.ready@.len() ==> (#[trigger] self.ready@[k]) < n)
        &&& (forall|k: int| 0 <= k < self.batch@.len() ==> (#[trigger] self.batch@[k]) < n)
        &&& (forall|k: int| 0 <= k < self.timers@.len() ==> (#[trigger] self.timers@[k]) < n)
        &&& self.ready@.no_duplicates()
        &&& self.batch@.no_duplicates()
        &&& self.timers@.no_duplicates()
        &&& (forall|i: usize| i < n ==> !(self.ready@.contains(i) && self.batch@.contains(i)))
        &&& (forall|i: usize| i < n ==> #[trigger] self.slot_wf(i))
        &&& match self.polling {
            Some(p) => p < n && self.slots@[p as int].committed,
            None => true,
        }
    }

    /// What a successful claim leaves in slot `i`: both flags set at once,
    /// the spawn token outstanding, the timer slot at "never", and — for
    /// allocated storage — the token's single reference.
    pub open spec fn claim_marks(&self, i: usize) -> bool {
        &&& self.spawned(i)
        &&& self.run_queued(i)
        &&& !self.committed(i)
        &&& !self.freed(i)
        &&& self.expiry_of(i) == NEVER_TICKS
        &&& self.strong_count_of(i) == (if self.kind_of(i) == StorageKind::Allocated {
            1u32
        } else {
            0u32
        })
    }

    /// Nothing observable changed but slot `i`.
    pub open spec fn frame_except(&self, prev: &Self, i: usize) -> bool {
        &&& self.n_slots() == prev.n_slots()
        &&& (forall|j: usize| j < prev.n_slots() && j != i ==> self.slot_same(prev, j))
        &&& self.ready_list() == prev.ready_list()
        &&& self.batch_list() == prev.batch_list()
        &&& self.timer_list() == prev.timer_list()
        &&& self.polling_of() == prev.polling_of()
    }

    /// Nothing observable changed at all.
    pub open spec fn unchanged_from(&self, prev: &Self) -> bool {
        &&& self.n_slots() == prev.n_slots()
        &&& (forall|j: usize| j < prev.n_slots() ==> self.slot_same(prev, j))
        &&& self.ready_list() == prev.ready_list()
        &&& self.batch_list() == prev.batch_list()
        &&& self.timer_list() == prev.timer_list()
        &&& self.polling_of() == prev.polling_of()
    }

    /// The arena grew by one slot; nothing else observable changed.
    pub open spec fn frame_grown(&self, prev: &Self) -> bool {
        &&& self.n_slots() == prev.n_slots() + 1
        &&& (forall|j: usize| j < prev.n_slots() ==> self.slot_same(prev, j))
        &&& self.ready_list() == prev.ready_list()
        &&& self.batch_list() == prev.batch_list()
        &&& self.timer_list() == prev.timer_list()
        &&& self.polling_of() == prev.polling_of()
    }

    /// A fresh executor: empty arena, empty queues, nothing mid-poll.
    pub fn new() -> (r: Self)
        ensures
            r.wf(),
            r.n_slots() == 0,
            r.ready_list() =~= Seq::<usize>::empty(),
            r.batch_list() =~= Seq::<usize>::empty(),
            r.timer_list() =~= Seq::<usize>::empty(),
            r.polling_of() is None,
    {
        Executor {
            slots: Vec::new(),
            ready: Vec::new(),
            batch: Vec::new(),
            timers: Vec::new(),
            polling: None,
        }
    }

    /// Declare one singleton storage slot: program lifetime, claimable now.
    pub fn add_singleton(&mut self) -> (id: usize)
        requires
            old(self).wf(),
        ensures
            final(self).wf(),
            id == old(self).n_slots(),
            final(self).n_slots() == old(self).n_slots() + 1,
            final(self).kind_of(id) == StorageKind::Singleton,
            final(self).claimable(id),
            final(self).committed(id),
            final(self).comp_of(id) is None,
            final(self).expiry_of(id) == NEVER_TICKS,
            forall|j: usize| j < old(self).n_slots() ==> final(self).slot_same(old(self), j),
            final(self).ready_list() == old(self).ready_list(),
            final(self).batch_list() == old(self).batch_list(),
            final(self).timer_list() == old(self).timer_list(),
            final(self).polling_of() == old(self).polling_of(),
    {
        self.push_idle_slot(StorageKind::Singleton)
    }

    /// Push one idle slot of the given kind onto the arena.
    fn push_idle_slot(&mut self, kind: StorageKind) -> (id: usize)
        requires
            old(self).wf(),
        ensures
            final(self).wf(),
            id == old(self).n_slots(),
            final(self).n_slots() == old(self).n_slots() + 1,
            final(self).kind_of(id) == kind,
            final(self).claimable(id),
            final(self).committed(id),
            final(self).strong_count_of(id) == 0,
            !final(self).freed(id),
            final(self).comp_of(id) is None,
            final(self).expiry_of(id) == NEVER_TICKS,
            forall|j: usize| j < old(self).n_slots() ==> final(self).slot_same(old(self), j),
            final(self).ready_list() == old(self).ready_list(),
            final(self).batch_list() == old(self).batch_list(),
            final(self).timer_list() == old(self).timer_list(),
            final(self).polling_of() == old(self).polling_of(),
    {
        let id = self.slots.len();
        let slot = TaskSlot {
            state: 0u32,
            kind,
            strong: 0u32,
            freed: false,
            committed: true,
            expires_at: NEVER_TICKS,
            comp: None,
        };
        self.slots.push(slot);
        proof {
            lemma_word_bits(0u32);
            assert forall|i: usize| i < self.slots@.len() implies #[trigger] self.slot_wf(i) by {
                if i < old(self).slots@.len() {
                    assert(old(self).slot_wf(i));
                }
            }
        }
        id
    }

    /// Declare a fixed pool of `len` storage slots; returns the index of the
    /// first. The pool is the contiguous range `start..start + len`.
    pub fn add_pool(&mut self, len: usize) -> (start: usize)
        requires
            old(self).wf(),
            old(self).n_slots() + len <= usize::MAX,
        ensures
            final(self).wf(),
            start == old(self).n_slots(),
            final(self).n_slots() == old(self).n_slots() + len,
            forall|j: usize|
                start <= j < start + len ==> final(self).kind_of(j) == StorageKind::Pooled
                    && final(self).claimable(j) && final(self).committed(j) && final(self).comp_of(
                    j,
                ) is None && final(self).expiry_of(j) == NEVER_TICKS,
            forall|j: usize| j < old(self).n_slots() ==> final(self).slot_same(old(self), j),
            final(self).ready_list() == old(self).ready_list(),
            final(self).batch_list() == old(self).batch_list(),
            final(self).timer_list() == old(self).timer_list(),
            final(self).polling_of() == old(self).polling_of(),
    {
        let start = self.slots.len();
        let mut k: usize = 0;
        while k < len
            invariant
                self.wf(),
                start == old(self).n_slots(),
                k <= len,
                old(self).n_slots() + len <= usize::MAX,
                self.n_slots() == start + k,
                forall|j: usize|
                    start <= j < start + k ==> self.kind_of(j) == StorageKind::Pooled
                        && self.claimable(j) && self.committed(j) && self.comp_of(j) is None
                        && self.expiry_of(j) == NEVER_TICKS,
                forall|j: usize| j < old(self).n_slots() ==> self.slot_same(old(self), j),
                self.ready_list() == old(self).ready_list(),
                self.batch_list() == old(self).batch_list(),
                self.timer_list() == old(self).timer_list(),
                self.polling_of() == old(self).polling_of(),
            decreases len - k,
        {
            let ghost prev = *self;
            self.push_idle_slot(StorageKind::Pooled);
            proof {
                assert forall|j: usize| j < old(self).n_slots() implies self.slot_same(
                    old(self),
                    j,
                ) by {
                    assert(prev.slot_same(old(self), j));
                    assert(self.slot_same(&prev, j));
                }
                assert forall|j: usize|
                    start <= j < start + k + 1 implies self.kind_of(j) == StorageKind::Pooled
                    && self.claimable(j) && self.committed(j) && self.comp_of(j) is None
                    && self.expiry_of(j) == NEVER_TICKS by {
                    if j < start + k {
                        assert(self.slot_same(&prev, j));
                    }
                }
            }
            k = k + 1;
        }
        start
    }

    /// Claim an idle slot for a fresh spawn and construct its computation in
    /// place. The constructor runs only on this already-committed-to-succeed
    /// path.
    fn claim_slot<F: FnOnce() -> V>(&mut self, i: usize, f: F)
        requires
            old(self).wf(),
            i < old(self).n_slots(),
            old(self).claimable(i),
            call_requires(f, ()),
        ensures
            final(self).wf(),
            final(self).claim_marks(i),
            final(self).kind_of(i) == old(self).kind_of(i),
            final(self).frame_except(old(self), i),
            final(self).comp_of(i) matches Some(v) && call_ensures(f, (), v),
    {
        proof {
            assert(old(self).slot_wf(i));
        }
        let w = claimed_word();
        self.slots[i].state = w;
        self.slots[i].committed = false;
        self.slots[i].freed = false;
        self.slots[i].expires_at = NEVER_TICKS;
        let is_alloc = self.slots[i].kind == StorageKind::Allocated;
        self.slots[i].strong = if is_alloc {
            1
        } else {
            0
        };
        let v = f();
        self.slots[i].comp = Some(v);
        proof {
            assert forall|j: usize| j < self.slots@.len() implies #[trigger] self.slot_wf(j) by {
                assert(old(self).slot_wf(j));
            }
        }
    }

    /// Try to spawn into the singleton slot `id`. The claim fails, with the
    /// error deferred into the token and the constructor never invoked, iff
    /// the storage still reports a flag set.
    pub fn spawn_singleton<F: FnOnce() -> V>(&mut self, id: usize, f: F) -> (t: SpawnToken)
        requires
            old(self).wf(),
            id < old(self).n_slots(),
            old(self).kind_of(id) == StorageKind::Singleton,
            call_requires(f, ()),
        ensures
            final(self).wf(),
            !old(self).claimable(id) ==> {
                &&& t.outcome() == Err::<usize, SpawnError>(SpawnError::AlreadySpawned)
                &&& *final(self) == *old(self)
            },
            old(self).claimable(id) ==> {
                &&& t.outcome() == Ok::<usize, SpawnError>(id)
                &&& final(self).claim_marks(id)
                &&& final(self).frame_except(old(self), id)
                &&& (final(self).comp_of(id) matches Some(v) && call_ensures(f, (), v))
            },
    {
        proof {
            assert(old(self).slot_wf(id));
            lemma_word_bits(old(self).state_of(id));
        }
        let s = self.slots[id].state;
        if s == 0 {
            self.claim_slot(id, f);
            SpawnToken { res: Ok(id) }
        } else {
            SpawnToken { res: Err(SpawnError::AlreadySpawned) }
        }
    }

    /// Try to spawn into the pool `start..start + len`: scan for a slot with
    /// no flag set and claim the first. The claim fails, with the error
    /// deferred into the token and the constructor never invoked, iff no slot
    /// is free.
    pub fn spawn_pooled<F: FnOnce() -> V>(&mut self, start: usize, len: usize, f: F) -> (t:
        SpawnToken)
        requires
            old(self).wf(),
            start + len <= old(self).n_slots(),
            forall|j: usize| start <= j < start + len ==> old(self).kind_of(j)
                == StorageKind::Pooled,
            call_requires(f, ()),
        ensures
            final(self).wf(),
            (forall|j: usize| start <= j < start + len ==> !old(self).claimable(j)) ==> {
                &&& t.outcome() == Err::<usize, SpawnError>(SpawnError::PoolExhausted)
                &&& *final(self) == *old(self)
            },
            (exists|j: usize| start <= j < start + len && old(self).claimable(j)) ==> (t.outcome()
                matches Ok(i) && {
                &&& start <= i < start + len
                &&& old(self).claimable(i)
                &&& final(self).claim_marks(i)
                &&& final(self).frame_except(old(self), i)
                &&& (final(self).comp_of(i) matches Some(v) && call_ensures(f, (), v))
            }),
    {
        let n = self.slots.len();
        let mut j: usize = start;
        let mut found: Option<usize> = None;
        while j < start + len
            invariant_except_break
                found is None,
            invariant
                self == old(self),
                n == old(self).n_slots(),
                start <= j,
                j <= start + len,
                start + len <= n,
                old(self).wf(),
                forall|k: usize| start <= k < j ==> !old(self).claimable(k),
            ensures
                self == old(self),
                match found {
                    Some(i) => start <= i < start + len && old(self).claimable(i),
                    None => forall|k: usize| start <= k < start + len ==> !old(self).claimable(k),
                },
            decreases start + len - j,
        {
            proof {
                assert(old(self).slot_wf(j));
                lemma_word_bits(old(self).state_of(j));
            }
            let s = self.slots[j].state;
            if s == 0 {
                found = Some(j);
                break ;
            }
            j = j + 1;
        }
        match found {
            Some(i) => {
                self.claim_slot(i, f);
                SpawnToken { res: Ok(i) }
            },
            None => SpawnToken { res: Err(SpawnError::PoolExhausted) },
        }
    }

    /// Spawn into allocated storage: reuse a released slot or allocate a new
    /// one. Barring allocator failure this strategy cannot refuse a spawn, so
    /// the token always carries a task. The fresh task starts with reference
    /// count 1: the token's reference, which the commit hands to the ready
    /// queue.
    pub fn spawn_allocated<F: FnOnce() -> V>(&mut self, f: F) -> (t: SpawnToken)
        requires
            old(self).wf(),
            old(self).n_slots() < usize::MAX,
            call_requires(f, ()),
        ensures
            final(self).wf(),
            t.outcome() matches Ok(i) && {
                &&& final(self).claim_marks(i)
                &&& final(self).kind_of(i) == StorageKind::Allocated
                &&& (final(self).comp_of(i) matches Some(v) && call_ensures(f, (), v))
                &&& ((i < old(self).n_slots() && old(self).freed(i) && final(self).frame_except(
                    old(self),
                    i,
                )) || (i == old(self).n_slots() && final(self).frame_grown(old(self))))
            },
    {
        let n = self.slots.len();
        let mut j: usize = 0;
        let mut found: Option<usize> = None;
        while j < n
            invariant_except_break
                found is None,
            invariant
                self == old(self),
                n == old(self).n_slots(),
                j <= n,
                old(self).wf(),
            ensures
                self == old(self),
                match found {
                    Some(i) => i < n && old(self).freed(i) && old(self).kind_of(i)
                        == StorageKind::Allocated,
                    None => true,
                },
            decreases n - j,
        {
            let is_alloc = self.slots[j].kind == StorageKind::Allocated;
            if is_alloc && self.slots[j].freed {
                found = Some(j);
                break ;
            }
            j = j + 1;
        }
        match found {
            Some(i) => {
                proof {
                    assert(old(self).slot_wf(i));
                    lemma_word_bits(old(self).state_of(i));
                }
                self.claim_slot(i, f);
                SpawnToken { res: Ok(i) }
            },
            None => {
                let ghost mid = *self;
                let id = self.push_idle_slot(StorageKind::Allocated);
                let ghost grown = *self;
                self.claim_slot(id, f);
                proof {
                    assert forall|j2: usize| j2 < old(self).n_slots() implies self.slot_same(
                        old(self),
                        j2,
                    ) by {
                        assert(grown.slot_same(old(self), j2));
                        assert(self.slot_same(&grown, j2));
                    }
                }
                SpawnToken { res: Ok(id) }
            },
        }
    }

    /// What a wake that found RUN_QUEUED clear leaves behind: the task has
    /// taken its single ready-queue position; nothing else moved.
    pub open spec fn enqueued_from(&self, prev: &Self, i: usize, dstrong: u32) -> bool {
        &&& self.spawned(i)
        &&& self.run_queued(i)
        &&& self.ready_list() == prev.ready_list().push(i)
        &&& self.strong_count_of(i) == prev.strong_count_of(i) + dstrong
        &&& self.kind_of(i) == prev.kind_of(i)
        &&& self.freed(i) == prev.freed(i)
        &&& self.committed(i) == prev.committed(i)
        &&& self.expiry_of(i) == prev.expiry_of(i)
        &&& self.comp_of(i) == prev.comp_of(i)
        &&& self.n_slots() == prev.n_slots()
        &&& (forall|j: usize| j < prev.n_slots() && j != i ==> self.slot_same(prev, j))
        &&& self.batch_list() == prev.batch_list()
        &&& self.timer_list() == prev.timer_list()
        &&& self.polling_of() == prev.polling_of()
    }

    /// Mark task `id` ready without consuming a reference to it. If the task
    /// already holds its ready-queue position, or holds no unfinished
    /// computation, the call is absorbed with no effect at all: concurrent or
    /// redundant wakes coalesce into one poll. Otherwise the task takes its
    /// position, and for allocated storage the new queue entry takes a
    /// reference of its own.
    pub fn wake_by_ref(&mut self, id: usize)
        requires
            old(self).wf(),
            id < old(self).n_slots(),
            old(self).kind_of(id) == StorageKind::Allocated ==> old(self).strong_count_of(id)
                >= old(self).accounted_refs(id) + 1 && old(self).strong_count_of(id)
                < 0xFFFF_FFFFu32,
        ensures
            final(self).wf(),
            old(self).spawned(id) && !old(self).run_queued(id) ==> final(self).enqueued_from(
                old(self),
                id,
                if old(self).kind_of(id) == StorageKind::Allocated {
                    1u32
                } else {
                    0u32
                },
            ),
            !(old(self).spawned(id) && !old(self).run_queued(id)) ==> *final(self) == *old(self),
    {
        proof {
            assert(old(self).slot_wf(id));
        }
        let s = self.slots[id].state;
        if is_spawned_word(s) && !is_run_queued_word(s) {
            self.slots[id].state = word_enqueue(s);
            if self.slots[id].kind == StorageKind::Allocated {
                let c = self.slots[id].strong;
                self.slots[id].strong = c + 1;
            }
            self.ready.push(id);
            proof {
                lemma_push_no_duplicates(old(self).ready@, id);
                assert forall|j: usize| j < self.slots@.len() implies #[trigger] self.slot_wf(
                    j,
                ) by {
                    assert(old(self).slot_wf(j));
                    if j == id {
                        assert(self.ready@.contains(id));
                        assert(old(self).committed(id));
                    }
                }
            }
        }
    }

    /// Mark task `id` ready, consuming the reference the caller held (the
    /// wake-by-value operation of the waker table). When the wake actually
    /// enqueues, the consumed reference becomes the queue entry's reference,
    /// sparing an increment/decrement pair; when it is absorbed, the
    /// reference is released, freeing the storage if it was the last and the
    /// computation has completed.
    pub fn wake(&mut self, id: usize)
        requires
            old(self).wf(),
            id < old(self).n_slots(),
            old(self).kind_of(id) == StorageKind::Allocated ==> old(self).strong_count_of(id)
                >= old(self).accounted_refs(id) + 1,
        ensures
            final(self).wf(),
            old(self).spawned(id) && !old(self).run_queued(id) ==> final(self).enqueued_from(
                old(self),
                id,
                0u32,
            ),
            !(old(self).spawned(id) && !old(self).run_queued(id)) ==> {
                if old(self).kind_of(id) == StorageKind::Allocated {
                    &&& final(self).strong_count_of(id) == old(self).strong_count_of(id) - 1
                    &&& final(self).freed(id) == (old(self).strong_count_of(id) == 1 && !old(
                        self,
                    ).spawned(id))
                    &&& final(self).state_of(id) == old(self).state_of(id)
                    &&& final(self).committed(id) == old(self).committed(id)
                    &&& final(self).kind_of(id) == old(self).kind_of(id)
                    &&& final(self).expiry_of(id) == old(self).expiry_of(id)
                    &&& final(self).comp_of(id) == old(self).comp_of(id)
                    &&& final(self).frame_except(old(self), id)
                } else {
                    *final(self) == *old(self)
                }
            },
    {
        proof {
            assert(old(self).slot_wf(id));
        }
        let s = self.slots[id].state;
        if is_spawned_word(s) && !is_run_queued_word(s) {
            self.slots[id].state = word_enqueue(s);
            self.ready.push(id);
            proof {
                lemma_push_no_duplicates(old(self).ready@, id);
                assert forall|j: usize| j < self.slots@.len() implies #[trigger] self.slot_wf(
                    j,
                ) by {
                    assert(old(self).slot_wf(j));
                    if j == id {
                        assert(self.ready@.contains(id));
                        assert(old(self).committed(id));
                    }
                }
            }
        } else {
            if self.slots[id].kind == StorageKind::Allocated {
                let c = self.slots[id].strong;
                self.slots[id].strong = c - 1;
                if c == 1 && !is_spawned_word(s) {
                    self.slots[id].freed = true;
                }
                proof {
                    lemma_word_bits(old(self).state_of(id));
                    assert forall|j: usize|
                        j < self.slots@.len() implies #[trigger] self.slot_wf(j) by {
                        assert(old(self).slot_wf(j));
                    }
                }
            }
        }
    }

    /// Clone one waker for task `id`. For allocated storage this takes one
    /// more reference; for singleton and pooled storage the waker table's
    /// clone is a no-op, since the arena or pool governs the lifetime.
    pub fn waker_clone(&mut self, id: usize)
        requires
            old(self).wf(),
            id < old(self).n_slots(),
            old(self).kind_of(id) == StorageKind::Allocated ==> old(self).strong_count_of(id) >= 1
                && old(self).strong_count_of(id) < 0xFFFF_FFFFu32,
        ensures
            final(self).wf(),
            old(self).kind_of(id) == StorageKind::Allocated ==> {
                &&& final(self).strong_count_of(id) == old(self).strong_count_of(id) + 1
                &&& final(self).state_of(id) == old(self).state_of(id)
                &&& final(self).freed(id) == old(self).freed(id)
                &&& final(self).committed(id) == old(self).committed(id)
                &&& final(self).kind_of(id) == old(self).kind_of(id)
                &&& final(self).expiry_of(id) == old(self).expiry_of(id)
                &&& final(self).comp_of(id) == old(self).comp_of(id)
                &&& final(self).frame_except(old(self), id)
            },
            old(self).kind_of(id) != StorageKind::Allocated ==> *final(self) == *old(self),
    {
        proof {
            assert(old(self).slot_wf(id));
        }
        if self.slots[id].kind == StorageKind::Allocated {
            let c = self.slots[id].strong;
            self.slots[id].strong = c + 1;
            proof {
                assert forall|j: usize| j < self.slots@.len() implies #[trigger] self.slot_wf(
                    j,
                ) by {
                    assert(old(self).slot_wf(j));
                }
            }
        }
    }

    /// Drop one waker for task `id`. For allocated storage this releases one
    /// reference, and the one that releases the last reference of a completed
    /// task — never of one still holding a live computation — frees the
    /// storage, exactly once. For singleton and pooled storage the waker
    /// table's drop is a no-op.
    pub fn waker_drop(&mut self, id: usize)
        requires
            old(self).wf(),
            id < old(self).n_slots(),
            old(self).kind_of(id) == StorageKind::Allocated ==> old(self).strong_count_of(id)
                >= old(self).accounted_refs(id) + 1,
        ensures
            final(self).wf(),
            old(self).kind_of(id) == StorageKind::Allocated ==> {
                &&& final(self).strong_count_of(id) == old(self).strong_count_of(id) - 1
                &&& final(self).freed(id) == (old(self).strong_count_of(id) == 1 && !old(
                    self,
                ).spawned(id))
                &&& final(self).state_of(id) == old(self).state_of(id)
                &&& final(self).committed(id) == old(self).committed(id)
                &&& final(self).kind_of(id) == old(self).kind_of(id)
                &&& final(self).expiry_of(id) == old(self).expiry_of(id)
                &&& final(self).comp_of(id) == old(self).comp_of(id)
                &&& final(self).frame_except(old(self), id)
            },
            old(self).kind_of(id) != StorageKind::Allocated ==> *final(self) == *old(self),
    {
        proof {
            assert(old(self).slot_wf(id));
        }
        if self.slots[id].kind == StorageKind::Allocated {
            let s = self.slots[id].state;
            let c = self.slots[id].strong;
            self.slots[id].strong = c - 1;
            if c == 1 && !is_spawned_word(s) {
                self.slots[id].freed = true;
            }
            proof {
                lemma_word_bits(old(self).state_of(id));
                assert forall|j: usize| j < self.slots@.len() implies #[trigger] self.slot_wf(
                    j,
                ) by {
                    assert(old(self).slot_wf(j));
                }
            }
        }
    }

    /// Consume a spawn token: commit the task to the ready queue, or surface
    /// the deferred failure. This is the point at which the spawn's
    /// success or failure is reported.
    pub fn spawn(&mut self, token: SpawnToken) -> (r: Result<usize, SpawnError>)
        requires
            old(self).wf(),
            match token.outcome() {
                Ok(i) => i < old(self).n_slots() && old(self).spawned(i) && old(self).run_queued(i)
                    && !old(self).committed(i) && old(self).polling_of() != Some(i),
                Err(_) => true,
            },
        ensures
            final(self).wf(),
            r == token.outcome(),
            token.outcome() matches Err(_) ==> *final(self) == *old(self),
            token.outcome() matches Ok(i) ==> {
                &&& final(self).committed(i)
                &&& final(self).state_of(i) == old(self).state_of(i)
                &&& final(self).strong_count_of(i) == old(self).strong_count_of(i)
                &&& final(self).kind_of(i) == old(self).kind_of(i)
                &&& final(self).freed(i) == old(self).freed(i)
                &&& final(self).expiry_of(i) == old(self).expiry_of(i)
                &&& final(self).comp_of(i) == old(self).comp_of(i)
                &&& final(self).ready_list() == old(self).ready_list().push(i)
                &&& final(self).n_slots() == old(self).n_slots()
                &&& (forall|j: usize|
                    j < old(self).n_slots() && j != i ==> final(self).slot_same(old(self), j))
                &&& final(self).batch_list() == old(self).batch_list()
                &&& final(self).timer_list() == old(self).timer_list()
                &&& final(self).polling_of() == old(self).polling_of()
            },
    {
        match token.res {
            Err(e) => Err(e),
            Ok(i) => {
                proof {
                    assert(old(self).slot_wf(i));
                }
                self.slots[i].committed = true;
                self.ready.push(i);
                proof {
                    assert(self.ready@ == old(self).ready@.push(i));
                    assert(!old(self).ready@.contains(i));
                    assert(self.ready@.no_duplicates()) by {
                        assert forall|k1: int, k2: int|
                            0 <= k1 < self.ready@.len() && 0 <= k2 < self.ready@.len() && k1
                                != k2 implies self.ready@[k1] != self.ready@[k2] by {
                            if k1 < old(self).ready@.len() && k2 < old(self).ready@.len() {
                                assert(old(self).ready@.no_duplicates());
                            } else if k1 < old(self).ready@.len() {
                                assert(old(self).ready@.contains(old(self).ready@[k1]));
                            } else if k2 < old(self).ready@.len() {
                                assert(old(self).ready@.contains(old(self).ready@[k2]));
                            }
                        }
                    }
                    assert forall|j: usize|
                        j < self.slots@.len() implies #[trigger] self.slot_wf(j) by {
                        assert(old(self).slot_wf(j));
                    }
                }
                Ok(i)
            },
        }
    }

    /// Begin one executor cycle: atomically detach everything the ready
    /// queue holds into the drain's batch. Wakes arriving from here on land
    /// in the new, empty ready queue and are picked up by the next drain —
    /// never lost, and never polled twice within this one.
    pub fn drain(&mut self)
        requires
            old(self).wf(),
            old(self).batch_list().len() == 0,
            old(self).polling_of() is None,
        ensures
            final(self).wf(),
            final(self).batch_list() == old(self).ready_list(),
            final(self).ready_list().len() == 0,
            final(self).n_slots() == old(self).n_slots(),
            forall|j: usize| j < old(self).n_slots() ==> final(self).slot_same(old(self), j),
            final(self).timer_list() == old(self).timer_list(),
            final(self).polling_of() is None,
    {
        core::mem::swap(&mut self.ready, &mut self.batch);
        proof {
            assert forall|j: usize| j < self.slots@.len() implies #[trigger] self.slot_wf(j) by {
                assert(old(self).slot_wf(j));
            }
        }
    }

    /// Hand out the next task of the current batch, running the poll
    /// prologue: the task gives its ready-queue position back *before* its
    /// computation runs, so a wake racing with the poll re-arms it rather
    /// than being lost. A task whose computation completed after its wake is
    /// skipped — its poll operation is never invoked again — and, for
    /// allocated storage, the stale queue entry's reference is released.
    /// For a task handed out to run, the queue entry's reference becomes the
    /// poll's own, given back to `finish_poll`.
    pub fn next_ready(&mut self) -> (r: NextReady<V>)
        requires
            old(self).wf(),
            old(self).polling_of() is None,
        ensures
            final(self).wf(),
            match r {
                NextReady::Empty => {
                    &&& old(self).batch_list().len() == 0
                    &&& final(self).unchanged_from(old(self))
                },
                NextReady::Skipped(i) => {
                    &&& old(self).batch_list().len() > 0
                    &&& i == old(self).batch_list().last()
                    &&& !old(self).spawned(i)
                    &&& final(self).batch_list() == old(self).batch_list().drop_last()
                    &&& !final(self).spawned(i)
                    &&& !final(self).run_queued(i)
                    &&& final(self).comp_of(i) is None
                    &&& final(self).strong_count_of(i) == old(self).strong_count_of(i) - (
                    if old(self).kind_of(i) == StorageKind::Allocated {
                        1u32
                    } else {
                        0u32
                    })
                    &&& final(self).freed(i) == (old(self).kind_of(i) == StorageKind::Allocated
                        && old(self).strong_count_of(i) == 1)
                    &&& final(self).kind_of(i) == old(self).kind_of(i)
                    &&& final(self).committed(i) == old(self).committed(i)
                    &&& final(self).expiry_of(i) == old(self).expiry_of(i)
                    &&& final(self).polling_of() is None
                    &&& final(self).n_slots() == old(self).n_slots()
                    &&& (forall|j: usize|
                        j < old(self).n_slots() && j != i ==> final(self).slot_same(old(self), j))
                    &&& final(self).ready_list() == old(self).ready_list()
                    &&& final(self).timer_list() == old(self).timer_list()
                },
                NextReady::Run(i, v) => {
                    &&& old(self).batch_list().len() > 0
                    &&& i == old(self).batch_list().last()
                    &&& old(self).spawned(i)
                    &&& old(self).comp_of(i) == Some(v)
                    &&& final(self).batch_list() == old(self).batch_list().drop_last()
                    &&& final(self).spawned(i)
                    &&& !final(self).run_queued(i)
                    &&& final(self).comp_of(i) is None
                    &&& final(self).polling_of() == Some(i)
                    &&& final(self).strong_count_of(i) == old(self).strong_count_of(i)
                    &&& final(self).freed(i) == old(self).freed(i)
                    &&& final(self).kind_of(i) == old(self).kind_of(i)
                    &&& final(self).committed(i) == old(self).committed(i)
                    &&& final(self).expiry_of(i) == old(self).expiry_of(i)
                    &&& final(self).n_slots() == old(self).n_slots()
                    &&& (forall|j: usize|
                        j < old(self).n_slots() && j != i ==> final(self).slot_same(old(self), j))
                    &&& final(self).ready_list() == old(self).ready_list()
                    &&& final(self).timer_list() == old(self).timer_list()
                },
            },
    {
        let popped = self.batch.pop();
        match popped {
            None => {
                proof {
                    assert forall|j: usize|
                        j < self.slots@.len() implies #[trigger] self.slot_wf(j) by {
                        assert(old(self).slot_wf(j));
                    }
                }
                NextReady::Empty
            },
            Some(i) => {
                proof {
                    assert(old(self).batch@.contains(i));
                    assert(old(self).slot_wf(i));
                    lemma_pop_removes(old(self).batch@);
                }
                let s = self.slots[i].state;
                self.slots[i].state = word_dequeue(s);
                if is_spawned_word(s) {
                    let taken = self.slots[i].comp.take();
                    let v = taken.unwrap();
                    self.polling = Some(i);
                    proof {
                        assert forall|j: usize|
                            j < self.slots@.len() implies #[trigger] self.slot_wf(j) by {
                            assert(old(self).slot_wf(j));
                        }
                    }
                    NextReady::Run(i, v)
                } else {
                    let is_alloc = self.slots[i].kind == StorageKind::Allocated;
                    if is_alloc {
                        let c = self.slots[i].strong;
                        self.slots[i].strong = c - 1;
                        if c == 1 {
                            self.slots[i].freed = true;
                        }
                    }
                    proof {
                        lemma_word_bits(self.state_of(i));
                        assert forall|j: usize|
                            j < self.slots@.len() implies #[trigger] self.slot_wf(j) by {
                            assert(old(self).slot_wf(j));
                        }
                    }
                    NextReady::Skipped(i)
                }
            },
        }
    }

    /// Re-arm (or disarm, with "never") task `id`'s single coalesced timer
    /// slot: the new expiry overwrites the old one. A task newly entering
    /// the timer queue lends it one reference if its storage is allocated;
    /// disarming gives that reference back.
    pub fn arm_timer(&mut self, id: usize, at: u64)
        requires
            old(self).wf(),
            id < old(self).n_slots(),
            old(self).spawned(id),
            old(self).kind_of(id) == StorageKind::Allocated && !old(self).in_timer(id) && at
                != NEVER_TICKS ==> old(self).strong_count_of(id) < 0xFFFF_FFFFu32,
        ensures
            final(self).wf(),
            at == NEVER_TICKS ==> {
                &&& final(self).expiry_of(id) == NEVER_TICKS
                &&& !final(self).in_timer(id)
                &&& final(self).strong_count_of(id) == old(self).strong_count_of(id) - (
                if old(self).kind_of(id) == StorageKind::Allocated && old(self).in_timer(id) {
                    1u32
                } else {
                    0u32
                })
            },
            at != NEVER_TICKS ==> {
                &&& final(self).expiry_of(id) == at
                &&& final(self).in_timer(id)
                &&& final(self).strong_count_of(id) == old(self).strong_count_of(id) + (
                if old(self).kind_of(id) == StorageKind::Allocated && !old(self).in_timer(id) {
                    1u32
                } else {
                    0u32
                })
            },
            final(self).state_of(id) == old(self).state_of(id),
            final(self).comp_of(id) == old(self).comp_of(id),
            final(self).committed(id) == old(self).committed(id),
            final(self).kind_of(id) == old(self).kind_of(id),
            final(self).freed(id) == old(self).freed(id),
            final(self).n_slots() == old(self).n_slots(),
            forall|j: usize|
                j < old(self).n_slots() && j != id ==> final(self).slot_same(old(self), j)
                    && final(self).in_timer(j) == old(self).in_timer(j),
            final(self).ready_list() == old(self).ready_list(),
            final(self).batch_list() == old(self).batch_list(),
            final(self).polling_of() == old(self).polling_of(),
    {
        proof {
            assert(old(self).slot_wf(id));
        }
        if at == NEVER_TICKS {
            let was = remove_value(&mut self.timers, id);
            self.slots[id].expires_at = NEVER_TICKS;
            if was && self.slots[id].kind == StorageKind::Allocated {
                let c = self.slots[id].strong;
                self.slots[id].strong = c - 1;
            }
            proof {
                assert forall|j: usize| j < self.slots@.len() implies #[trigger] self.slot_wf(
                    j,
                ) by {
                    assert(old(self).slot_wf(j));
                }
            }
        } else {
            self.slots[id].expires_at = at;
            let was = vec_has(&self.timers, id);
            if !was {
                self.timers.push(id);
                if self.slots[id].kind == StorageKind::Allocated {
                    let c = self.slots[id].strong;
                    self.slots[id].strong = c + 1;
                }
                proof {
                    lemma_push_no_duplicates(old(self).timers@, id);
                }
            }
            proof {
                lemma_word_bits(old(self).state_of(id));
                assert forall|j: usize| j < self.slots@.len() implies #[trigger] self.slot_wf(
                    j,
                ) by {
                    assert(old(self).slot_wf(j));
                }
            }
        }
    }

    /// Find some timer-queue member whose expiry has been reached.
    fn find_expired(&self, now: u64) -> (r: Option<usize>)
        requires
            self.wf(),
        ensures
            match r {
                Some(i) => i < self.n_slots() && self.in_timer(i) && self.expiry_of(i) <= now,
                None => forall|i: usize|
                    i < self.n_slots() && self.in_timer(i) ==> self.expiry_of(i) > now,
            },
    {
        let n = self.timers.len();
        let mut k: usize = 0;
        let mut found: Option<usize> = None;
        while k < n
            invariant_except_break
                found is None,
            invariant
                self.wf(),
                n == self.timers@.len(),
                k <= n,
                forall|m: int| 0 <= m < k ==> self.slots@[self.timers@[m] as int].expires_at > now,
            ensures
                match found {
                    Some(i) => i < self.n_slots() && self.in_timer(i) && self.expiry_of(i) <= now,
                    None => forall|m: int|
                        0 <= m < n ==> self.slots@[self.timers@[m] as int].expires_at > now,
                },
            decreases n - k,
        {
            let id = self.timers[k];
            proof {
                assert(self.timers@.contains(id)) by {
                    assert(self.timers@[k as int] == id);
                }
            }
            if self.slots[id].expires_at <= now {
                found = Some(id);
                break ;
            }
            k = k + 1;
        }
        proof {
            if found is None {
                assert forall|i: usize|
                    i < self.n_slots() && self.in_timer(i) implies self.expiry_of(i) > now by {
                    let m = choose|m: int|
                        0 <= m < self.timers@.len() && self.timers@[m] == i;
                }
            }
        }
        found
    }

    /// The minimum expiry among the timer queue's remaining members: the
    /// idle-deadline hint handed to the platform's sleep mechanism.
    fn compute_min(&self) -> (r: u64)
        requires
            self.wf(),
        ensures
            self.timer_list().len() == 0 ==> r == NEVER_TICKS,
            self.timer_list().len() > 0 ==> r < NEVER_TICKS && (exists|i: usize|
                i < self.n_slots() && self.in_timer(i) && self.expiry_of(i) == r),
            forall|i: usize| i < self.n_slots() && self.in_timer(i) ==> self.expiry_of(i) >= r,
    {
        let n = self.timers.len();
        let mut r: u64 = NEVER_TICKS;
        let mut k: usize = 0;
        while k < n
            invariant
                self.wf(),
                n == self.timers@.len(),
                k <= n,
                forall|m: int| 0 <= m < k ==> self.slots@[self.timers@[m] as int].expires_at >= r,
                r == NEVER_TICKS || (exists|m: int|
                    0 <= m < k && self.slots@[self.timers@[m] as int].expires_at == r),
                k > 0 ==> r < NEVER_TICKS,
            decreases n - k,
        {
            let id = self.timers[k];
            proof {
                assert(self.timers@.contains(id)) by {
                    assert(self.timers@[k as int] == id);
                }
                assert(self.slot_wf(id));
            }
            let e = self.slots[id].expires_at;
            if e < r {
                r = e;
            }
            k = k + 1;
        }
        proof {
            assert forall|i: usize|
                i < self.n_slots() && self.in_timer(i) implies self.expiry_of(i) >= r by {
                let m = choose|m: int| 0 <= m < self.timers@.len() && self.timers@[m] == i;
            }
            if self.timers@.len() > 0 {
                let m = choose|m: int|
                    0 <= m < self.timers@.len() && self.slots@[self.timers@[m] as int].expires_at
                        == r;
                let i = self.timers@[m];
                assert(self.timers@.contains(i));
                assert(i < self.n_slots() && self.in_timer(i) && self.expiry_of(i) == r);
            }
        }
        r
    }

    /// One timer sweep: every task whose expiry has been reached leaves the
    /// timer queue, has its slot reset to "never," and goes down the same
    /// wake path as any other wake — already-queued tasks coalesce. Returns
    /// the minimum expiry still pending, or "never" if none is: the
    /// idle-deadline hint for the platform's sleep.
    pub fn next_expiration(&mut self, now: u64) -> (r: u64)
        requires
            old(self).wf(),
        ensures
            final(self).wf(),
            final(self).n_slots() == old(self).n_slots(),
            final(self).batch_list() == old(self).batch_list(),
            final(self).polling_of() == old(self).polling_of(),
            // exactly the unreached timers remain, untouched
            forall|i: usize|
                i < old(self).n_slots() ==> (final(self).in_timer(i) <==> old(self).in_timer(i)
                    && old(self).expiry_of(i) > now),
            forall|i: usize|
                i < old(self).n_slots() && final(self).in_timer(i) ==> final(self).slot_same(
                    old(self),
                    i,
                ),
            forall|i: usize|
                i < old(self).n_slots() && !old(self).in_timer(i) ==> final(self).slot_same(
                    old(self),
                    i,
                ),
            // every reached timer is woken and its slot reset
            forall|i: usize|
                i < old(self).n_slots() && old(self).in_timer(i) && old(self).expiry_of(i)
                    <= now ==> {
                    &&& final(self).expiry_of(i) == NEVER_TICKS
                    &&& final(self).run_queued(i)
                    &&& final(self).spawned(i)
                    &&& (old(self).committed(i) ==> final(self).pending(i))
                    &&& final(self).comp_of(i) == old(self).comp_of(i)
                    &&& final(self).committed(i) == old(self).committed(i)
                    &&& final(self).kind_of(i) == old(self).kind_of(i)
                    &&& final(self).freed(i) == old(self).freed(i)
                    &&& final(self).strong_count_of(i) == old(self).strong_count_of(i) - (
                    if old(self).kind_of(i) == StorageKind::Allocated && old(self).run_queued(i) {
                        1u32
                    } else {
                        0u32
                    })
                },
            // ready-queue positions only grow, and only by woken timers
            forall|i: usize|
                i < old(self).n_slots() && old(self).pending(i) ==> final(self).pending(i),
            forall|i: usize|
                i < old(self).n_slots() && final(self).pending(i) ==> old(self).pending(i) || (old(
                    self,
                ).in_timer(i) && old(self).expiry_of(i) <= now),
            // the deadline hint is the minimum remaining expiry
            final(self).timer_list().len() == 0 ==> r == NEVER_TICKS,
            final(self).timer_list().len() > 0 ==> r < NEVER_TICKS && (exists|i: usize|
                i < old(self).n_slots() && final(self).in_timer(i) && final(self).expiry_of(i)
                    == r),
            forall|i: usize|
                i < old(self).n_slots() && final(self).in_timer(i) ==> final(self).expiry_of(i)
                    >= r,
            r == NEVER_TICKS || r > now,
    {
        loop
            invariant
                self.wf(),
                self.n_slots() == old(self).n_slots(),
                self.batch_list() == old(self).batch_list(),
                self.polling_of() == old(self).polling_of(),
                forall|i: usize|
                    i < old(self).n_slots() && self.in_timer(i) ==> old(self).in_timer(i)
                        && self.slot_same(old(self), i),
                forall|i: usize|
                    i < old(self).n_slots() && old(self).in_timer(i) && old(self).expiry_of(i)
                        > now ==> self.in_timer(i),
                forall|i: usize|
                    i < old(self).n_slots() && !old(self).in_timer(i) ==> !self.in_timer(i)
                        && self.slot_same(old(self), i),
                forall|i: usize|
                    i < old(self).n_slots() && old(self).in_timer(i) && !self.in_timer(i) ==> {
                        &&& self.expiry_of(i) == NEVER_TICKS
                        &&& self.run_queued(i)
                        &&& self.spawned(i)
                        &&& (old(self).committed(i) ==> self.pending(i))
                        &&& self.comp_of(i) == old(self).comp_of(i)
                        &&& self.committed(i) == old(self).committed(i)
                        &&& self.kind_of(i) == old(self).kind_of(i)
                        &&& self.freed(i) == old(self).freed(i)
                        &&& self.strong_count_of(i) == old(self).strong_count_of(i) - (
                        if old(self).kind_of(i) == StorageKind::Allocated && old(self).run_queued(
                            i,
                        ) {
                            1u32
                        } else {
                            0u32
                        })
                    },
                forall|i: usize|
                    i < old(self).n_slots() && old(self).pending(i) ==> self.pending(i),
                forall|i: usize|
                    i < old(self).n_slots() && self.pending(i) ==> old(self).pending(i) || (old(
                        self,
                    ).in_timer(i) && !self.in_timer(i)),
            ensures
                forall|i: usize|
                    i < self.n_slots() && self.in_timer(i) ==> self.expiry_of(i) > now,
            decreases self.timers@.len(),
        {
            let found = self.find_expired(now);
            match found {
                None => { break ; },
                Some(i) => {
                    let ghost prev = *self;
                    proof {
                        assert(prev.slot_wf(i));
                        assert(prev.slot_same(old(self), i));
                        assert(old(self).in_timer(i));
                    }
                    let was = remove_value(&mut self.timers, i);
                    self.slots[i].expires_at = NEVER_TICKS;
                    let s = self.slots[i].state;
                    if !is_run_queued_word(s) {
                        self.slots[i].state = word_enqueue(s);
                        self.ready.push(i);
                        proof {
                            lemma_push_no_duplicates(prev.ready@, i);
                        }
                    } else {
                        if self.slots[i].kind == StorageKind::Allocated {
                            let c = self.slots[i].strong;
                            self.slots[i].strong = c - 1;
                        }
                    }
                    proof {
                        lemma_word_bits(prev.state_of(i));
                        assert forall|j: usize|
                            j < self.slots@.len() implies #[trigger] self.slot_wf(j) by {
                            assert(prev.slot_wf(j));
                        }
                        assert forall|j: usize|
                            j < old(self).n_slots() && self.in_timer(j) implies old(self).in_timer(
                            j,
                        ) && self.slot_same(old(self), j) by {
                            assert(prev.in_timer(j));
                            assert(prev.slot_same(old(self), j));
                        }
                    }
                },
            }
        }
        self.compute_min()
    }

    /// Report the outcome of the poll step for the task handed out by
    /// `next_ready`. Pending stores the computation back in place for the
    /// wakes to come. Completion destroys it in place, clears SPAWNED — so
    /// the storage again reports no unfinished computation and becomes
    /// eligible for respawn or release — and resets the task's timer slot to
    /// "never." In both cases the poll's reference of allocated storage is
    /// given back, and completion of a task with no remaining reference
    /// frees its storage.
    pub fn finish_poll(&mut self, id: usize, comp: V, done: bool)
        requires
            old(self).wf(),
            old(self).polling_of() == Some(id),
        ensures
            final(self).wf(),
            final(self).polling_of() is None,
            final(self).n_slots() == old(self).n_slots(),
            forall|j: usize|
                j < old(self).n_slots() && j != id ==> final(self).slot_same(old(self), j)
                    && final(self).in_timer(j) == old(self).in_timer(j),
            final(self).ready_list() == old(self).ready_list(),
            final(self).batch_list() == old(self).batch_list(),
            final(self).kind_of(id) == old(self).kind_of(id),
            final(self).committed(id) == old(self).committed(id),
            !done ==> {
                &&& final(self).comp_of(id) == Some(comp)
                &&& final(self).spawned(id)
                &&& final(self).state_of(id) == old(self).state_of(id)
                &&& final(self).expiry_of(id) == old(self).expiry_of(id)
                &&& final(self).in_timer(id) == old(self).in_timer(id)
                &&& final(self).timer_list() == old(self).timer_list()
                &&& !final(self).freed(id)
                &&& final(self).strong_count_of(id) == old(self).strong_count_of(id) - (
                if old(self).kind_of(id) == StorageKind::Allocated {
                    1u32
                } else {
                    0u32
                })
            },
            done ==> {
                &&& final(self).comp_of(id) is None
                &&& !final(self).spawned(id)
                &&& final(self).run_queued(id) == old(self).run_queued(id)
                &&& final(self).expiry_of(id) == NEVER_TICKS
                &&& !final(self).in_timer(id)
                &&& final(self).strong_count_of(id) == old(self).strong_count_of(id) - (
                if old(self).kind_of(id) == StorageKind::Allocated {
                    (1u32 + (if old(self).in_timer(id) {
                        1u32
                    } else {
                        0u32
                    })) as u32
                } else {
                    0u32
                })
                &&& final(self).freed(id) == (old(self).kind_of(id) == StorageKind::Allocated
                    && final(self).strong_count_of(id) == 0)
            },
    {
        proof {
            assert(old(self).slot_wf(id));
        }
        self.polling = None;
        let is_alloc = self.slots[id].kind == StorageKind::Allocated;
        if !done {
            self.slots[id].comp = Some(comp);
            if is_alloc {
                let c = self.slots[id].strong;
                self.slots[id].strong = c - 1;
            }
            proof {
                assert forall|j: usize| j < self.slots@.len() implies #[trigger] self.slot_wf(
                    j,
                ) by {
                    assert(old(self).slot_wf(j));
                }
            }
        } else {
            let s = self.slots[id].state;
            self.slots[id].state = word_despawn(s);
            self.slots[id].expires_at = NEVER_TICKS;
            let was_timed = remove_value(&mut self.timers, id);
            if is_alloc {
                let c = self.slots[id].strong;
                let dec: u32 = if was_timed {
                    2
                } else {
                    1
                };
                proof {
                    assert(old(self).accounted_refs(id) >= 1 + (if old(self).in_timer(id) {
                        1nat
                    } else {
                        0nat
                    }));
                    assert(c >= dec);
                }
                self.slots[id].strong = c - dec;
                if c == dec {
                    let pend = is_run_queued_word(self.slots[id].state);
                    if !pend {
                        self.slots[id].freed = true;
                    }
                }
            }
            proof {
                lemma_word_bits(self.state_of(id));
                assert forall|j: usize| j < self.slots@.len() implies #[trigger] self.slot_wf(
                    j,
                ) by {
                    assert(old(self).slot_wf(j));
                }
            }
        }
    }
    /// How many task slots the arena holds.
    pub fn task_count(&self) -> (n: usize)
        ensures
            n == self.n_slots(),
    {
        self.slots.len()
    }

    /// Whether an unfinished computation occupies slot `id`.
    pub fn is_spawned(&self, id: usize) -> (r: bool)
        requires
            id < self.n_slots(),
        ensures
            r == self.spawned(id),
    {
        is_spawned_word(self.slots[id].state)
    }

    /// Whether task `id` currently holds its ready-queue position.
    pub fn is_run_queued(&self, id: usize) -> (r: bool)
        requires
            id < self.n_slots(),
        ensures
            r == self.run_queued(id),
    {
        is_run_queued_word(self.slots[id].state)
    }

    /// Whether task `id` awaits a poll: in the ready queue or in the batch
    /// the current drain detached.
    pub fn is_pending(&self, id: usize) -> (r: bool)
        ensures
            r == self.pending(id),
    {
        vec_has(&self.ready, id) || vec_has(&self.batch, id)
    }

    /// Whether task `id` stands in the timer queue.
    pub fn is_timer_queued(&self, id: usize) -> (r: bool)
        ensures
            r == self.in_timer(id),
    {
        vec_has(&self.timers, id)
    }

    /// The storage strategy that owns slot `id`.
    pub fn storage_kind(&self, id: usize) -> (r: StorageKind)
        requires
            id < self.n_slots(),
        ensures
            r == self.kind_of(id),
    {
        self.slots[id].kind
    }

    /// The reference count of allocated slot `id`.
    pub fn strong_count(&self, id: usize) -> (r: u32)
        requires
            id < self.n_slots(),
        ensures
            r == self.strong_count_of(id),
    {
        self.slots[id].strong
    }

    /// Whether allocated slot `id` has been released.
    pub fn is_freed(&self, id: usize) -> (r: bool)
        requires
            id < self.n_slots(),
        ensures
            r == self.freed(id),
    {
        self.slots[id].freed
    }

    /// The absolute tick of slot `id`'s timer slot ("never" when disarmed).
    pub fn expiry_ticks(&self, id: usize) -> (r: u64)
        requires
            id < self.n_slots(),
        ensures
            r == self.expiry_of(id),
    {
        self.slots[id].expires_at
    }

    /// A task occupies at most one ready-queue position at any instant: the
    /// queue and the current drain's batch are duplicate-free and disjoint,
    /// and only a task whose RUN_QUEUED flag is set holds a position at all —
    /// so however many wakes raced between two drains, the drained set polls
    /// the task exactly once.
    pub proof fn lemma_ready_position_unique(&self, i: usize)
        requires
            self.wf(),
            i < self.n_slots(),
        ensures
            !(self.ready_list().contains(i) && self.batch_list().contains(i)),
            self.ready_list().no_duplicates(),
            self.batch_list().no_duplicates(),
            self.pending(i) ==> self.run_queued(i) && self.committed(i),
    {
        assert(self.slot_wf(i));
    }

    /// SPAWNED is occupancy: it holds exactly while an unfinished computation
    /// occupies the storage — in place, or out for the current poll step. In
    /// particular a completed task's storage holds no computation, and its
    /// poll can never be handed out again until a fresh spawn claims it.
    pub proof fn lemma_spawned_is_occupancy(&self, i: usize)
        requires
            self.wf(),
            i < self.n_slots(),
        ensures
            self.spawned(i) <==> (self.comp_of(i) is Some || self.polling_of() == Some(i)),
            !self.spawned(i) ==> self.comp_of(i) is None,
    {
        assert(self.slot_wf(i));
    }

    /// The allocated-storage reference discipline: while any accounted
    /// reference is live — a ready-queue entry, the current poll, a timer
    /// position, or an outstanding spawn token — the count covers it and the
    /// storage stands unreleased; and a released storage has no live
    /// computation and no remaining reference.
    pub proof fn lemma_live_reference_holds_storage(&self, i: usize)
        requires
            self.wf(),
            i < self.n_slots(),
            self.kind_of(i) == StorageKind::Allocated,
        ensures
            self.strong_count_of(i) >= self.accounted_refs(i),
            self.accounted_refs(i) > 0 ==> !self.freed(i),
            self.freed(i) ==> !self.spawned(i) && self.strong_count_of(i) == 0,
    {
        assert(self.slot_wf(i));
        lemma_word_bits(self.state_of(i));
    }
}

/// Popping the last element of a duplicate-free sequence removes exactly that
/// element's membership.
pub proof fn lemma_pop_removes<A>(s: Seq<A>)
    requires
        s.len() > 0,
        s.no_duplicates(),
    ensures
        !s.drop_last().contains(s.last()),
        s.drop_last().no_duplicates(),
        forall|x: A| x != s.last() ==> (s.drop_last().contains(x) <==> s.contains(x)),
        forall|k: int| 0 <= k < s.drop_last().len() ==> s.contains(#[trigger] s.drop_last()[k]),
{
    let t = s.drop_last();
    assert forall|k: int| 0 <= k < t.len() implies s.contains(#[trigger] t[k]) by {
        assert(t[k] == s[k]);
    }
    assert forall|k: int| 0 <= k < t.len() implies t[k] != s.last() by {
        assert(t[k] == s[k]);
        assert(s.last() == s[s.len() - 1]);
    }
    assert forall|x: A| x != s.last() && s.contains(x) implies t.contains(x) by {
        let m = choose|m: int| 0 <= m < s.len() && s[m] == x;
        assert(m != s.len() - 1);
        assert(t[m] == x);
    }
}

/// Remove the occurrence of `x` from a duplicate-free vector, if any;
/// reports whether one was there.
fn remove_value(v: &mut Vec<usize>, x: usize) -> (was: bool)
    requires
        old(v)@.no_duplicates(),
    ensures
        was == old(v)@.contains(x),
        final(v)@.no_duplicates(),
        !final(v)@.contains(x),
        forall|y: usize| y != x ==> (final(v)@.contains(y) <==> old(v)@.contains(y)),
        !old(v)@.contains(x) ==> final(v)@ == old(v)@,
        old(v)@.contains(x) ==> final(v)@.len() == old(v)@.len() - 1,
        forall|k: int| 0 <= k < final(v)@.len() ==> old(v)@.contains(#[trigger] final(v)@[k]),
{
    let n = v.len();
    let mut k: usize = 0;
    let mut idx: Option<usize> = None;
    while k < n
        invariant_except_break
            idx is None,
        invariant
            v == old(v),
            n == v@.len(),
            k <= n,
            forall|m: int| 0 <= m < k ==> v@[m] != x,
        ensures
            v == old(v),
            match idx {
                Some(i) => i < n && old(v)@[i as int] == x && (forall|m: int|
                    0 <= m < i ==> old(v)@[m] != x),
                None => forall|m: int| 0 <= m < n ==> old(v)@[m] != x,
            },
        decreases n - k,
    {
        if v[k] == x {
            idx = Some(k);
            break ;
        }
        k = k + 1;
    }
    match idx {
        None => {
            proof {
                assert(!old(v)@.contains(x));
            }
            false
        },
        Some(i) => {
            v.remove(i);
            proof {
                let oldv = old(v)@;
                let newv = v@;
                oldv.remove_ensures(i as int);
                assert(oldv.contains(x)) by {
                    assert(oldv[i as int] == x);
                }
                assert forall|m: int| 0 <= m < newv.len() implies newv[m] != x by {
                    if m < i {
                        assert(newv[m] == oldv[m]);
                    } else {
                        assert(newv[m] == oldv[m + 1]);
                        assert(oldv[m + 1] != oldv[i as int]);
                    }
                }
                assert(!newv.contains(x));
                assert(newv.no_duplicates()) by {
                    assert forall|k1: int, k2: int|
                        0 <= k1 < newv.len() && 0 <= k2 < newv.len() && k1 != k2 implies newv[k1]
                        != newv[k2] by {
                        let o1: int = if k1 < i {
                            k1
                        } else {
                            k1 + 1
                        };
                        let o2: int = if k2 < i {
                            k2
                        } else {
                            k2 + 1
                        };
                        assert(newv[k1] == oldv[o1]);
                        assert(newv[k2] == oldv[o2]);
                    }
                }
                assert forall|k2: int| 0 <= k2 < newv.len() implies oldv.contains(
                    #[trigger] newv[k2],
                ) by {
                    if k2 < i {
                        assert(newv[k2] == oldv[k2]);
                    } else {
                        assert(newv[k2] == oldv[k2 + 1]);
                    }
                }
                assert forall|y: usize| y != x && oldv.contains(y) implies newv.contains(y) by {
                    let m = choose|m: int| 0 <= m < oldv.len() && oldv[m] == y;
                    assert(m != i);
                    if m < i {
                        assert(newv[m] == y);
                    } else {
                        assert(newv[m - 1] == y);
                    }
                }
            }
            true
        },
    }
}

/// Whether the vector holds `x`.
fn vec_has(v: &Vec<usize>, x: usize) -> (r: bool)
    ensures
        r == v@.contains(x),
{
    let n = v.len();
    let mut k: usize = 0;
    let mut found = false;
    while k < n
        invariant_except_break
            !found,
        invariant
            n == v@.len(),
            k <= n,
            forall|m: int| 0 <= m < k ==> v@[m] != x,
        ensures
            found == v@.contains(x),
        decreases n - k,
    {
        if v[k] == x {
            found = true;
            proof {
                assert(v@.contains(x)) by {
                    assert(v@[k as int] == x);
                }
            }
            break ;
        }
        k = k + 1;
    }
    found
}

/// Pushing an element that a duplicate-free sequence does not hold keeps it
/// duplicate-free.
pub proof fn lemma_push_no_duplicates<A>(s: Seq<A>, v: A)
    requires
        s.no_duplicates(),
        !s.contains(v),
    ensures
        s.push(v).no_duplicates(),
{
    let t = s.push(v);
    assert forall|k1: int, k2: int|
        0 <= k1 < t.len() && 0 <= k2 < t.len() && k1 != k2 implies t[k1] != t[k2] by {
        if k1 < s.len() && k2 < s.len() {
        } else if k1 < s.len() {
            assert(s.contains(s[k1]));
        } else if k2 < s.len() {
            assert(s.contains(s[k2]));
        }
    }
}

} // verus!
