//! The per-task state word: a two-bit machine word recording whether a live,
//! unfinished computation occupies the storage (SPAWNED) and whether the task
//! currently holds its single ready-queue position (RUN_QUEUED).

use vstd::prelude::*;

verus! {

/// Bit set while an unfinished computation occupies the task's storage.
pub const STATE_SPAWNED: u32 = 1;

/// Bit set while the task holds its one ready-queue position.
pub const STATE_RUN_QUEUED: u32 = 2;

/// Whether the word records a live, unfinished computation.
pub open spec fn spawned_bit(s: u32) -> bool {
    s & STATE_SPAWNED != 0
}

/// Whether the word records a held ready-queue position.
pub open spec fn run_queued_bit(s: u32) -> bool {
    s & STATE_RUN_QUEUED != 0
}

/// Only the two flag bits are ever set in a task's state word.
pub open spec fn word_wf(s: u32) -> bool {
    s <= 3
}

/// The word of a task with neither flag set: storage idle and claimable.
pub open spec fn idle_word(s: u32) -> bool {
    s == 0
}

/// An idle word has both flags clear, and a well-formed word with both flags
/// clear is idle: on a well-formed word the two bits determine the word.
pub proof fn lemma_word_bits(s: u32)
    ensures
        idle_word(s) ==> !spawned_bit(s) && !run_queued_bit(s),
        word_wf(s) && !spawned_bit(s) && !run_queued_bit(s) ==> idle_word(s),
{
    assert(s == 0 ==> s & 1u32 == 0 && s & 2u32 == 0) by (bit_vector);
    assert(s <= 3 && s & 1u32 == 0 && s & 2u32 == 0 ==> s == 0) by (bit_vector);
}

/// The word a fresh spawn claims its storage with: both flags set at once.
pub fn claimed_word() -> (r: u32)
    ensures
        spawned_bit(r),
        run_queued_bit(r),
        word_wf(r),
{
    proof {
        assert((1u32 | 2u32) & 1u32 != 0 && (1u32 | 2u32) & 2u32 != 0 && (1u32 | 2u32)
            <= 3) by (bit_vector);
    }
    STATE_SPAWNED | STATE_RUN_QUEUED
}

/// Mark the task ready: set RUN_QUEUED, leaving SPAWNED as it was.
pub fn word_enqueue(s: u32) -> (r: u32)
    ensures
        spawned_bit(r) == spawned_bit(s),
        run_queued_bit(r),
        word_wf(s) ==> word_wf(r),
{
    proof {
        assert((s | 2u32) & 1u32 == s & 1u32 && (s | 2u32) & 2u32 != 0 && (s <= 3 ==> s | 2u32
            <= 3)) by (bit_vector);
    }
    s | STATE_RUN_QUEUED
}

/// The poll prologue: give the ready-queue position back by clearing
/// RUN_QUEUED, leaving SPAWNED as it was.
pub fn word_dequeue(s: u32) -> (r: u32)
    ensures
        spawned_bit(r) == spawned_bit(s),
        !run_queued_bit(r),
        word_wf(s) ==> word_wf(r),
{
    proof {
        assert((s & 0xFFFF_FFFDu32) & 1u32 == s & 1u32 && (s & 0xFFFF_FFFDu32) & 2u32 == 0 && (s
            <= 3 ==> s & 0xFFFF_FFFDu32 <= 3)) by (bit_vector);
    }
    s & 0xFFFF_FFFD
}

/// Completion: clear SPAWNED, leaving RUN_QUEUED as it was (a wake that
/// raced with the final poll may have re-taken the queue position).
pub fn word_despawn(s: u32) -> (r: u32)
    ensures
        !spawned_bit(r),
        run_queued_bit(r) == run_queued_bit(s),
        word_wf(s) ==> word_wf(r),
{
    proof {
        assert((s & 0xFFFF_FFFEu32) & 1u32 == 0 && (s & 0xFFFF_FFFEu32) & 2u32 == s & 2u32 && (s
            <= 3 ==> s & 0xFFFF_FFFEu32 <= 3)) by (bit_vector);
    }
    s & 0xFFFF_FFFE
}

/// Executable test of the SPAWNED flag.
pub fn is_spawned_word(s: u32) -> (r: bool)
    ensures
        r == spawned_bit(s),
{
    s & STATE_SPAWNED != 0
}

/// Executable test of the RUN_QUEUED flag.
pub fn is_run_queued_word(s: u32) -> (r: bool)
    ensures
        r == run_queued_bit(s),
{
    s & STATE_RUN_QUEUED != 0
}

} // verus!
