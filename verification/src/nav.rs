//! Cursor movement over a list-backed panel: wraparound stepping and the
//! re-clamping that follows a removal.

use vstd::prelude::*;

verus! {

/// The index selected after one "down" step from `sel` in a list of `len`
/// entries: one past `sel`, wrapping to the first entry from the last.
pub open spec fn next_sel(sel: nat, len: nat) -> nat {
    if sel + 1 >= len {
        0
    } else {
        sel + 1
    }
}

/// The index selected after one "up" step from `sel` in a list of `len`
/// entries: one before `sel`, wrapping to the last entry from the first.
pub open spec fn prev_sel(sel: nat, len: nat) -> nat {
    if sel > 0 {
        (sel - 1) as nat
    } else {
        (len - 1) as nat
    }
}

/// Advance the cursor one entry downward with wraparound.
pub fn next_index(selected: usize, len: usize) -> (r: usize)
    requires
        len > 0,
    ensures
        r == next_sel(selected as nat, len as nat),
        r < len,
{
    if selected >= len - 1 {
        0
    } else {
        selected + 1
    }
}

/// Retreat the cursor one entry upward with wraparound.
pub fn prev_index(selected: usize, len: usize) -> (r: usize)
    requires
        len > 0,
    ensures
        r == prev_sel(selected as nat, len as nat),
        selected < len ==> r < len,
{
    if selected > 0 {
        selected - 1
    } else {
        len - 1
    }
}

/// The cursor after the entry at `sel` has been removed: the previous entry,
/// or the first entry when the removed one was first.
pub open spec fn clamped_after_remove(sel: nat) -> nat {
    if sel > 0 {
        (sel - 1) as nat
    } else {
        0
    }
}

/// Re-clamp the cursor after the selected entry was removed.
pub fn clamp_after_remove(selected: usize) -> (r: usize)
    ensures
        r == clamped_after_remove(selected as nat),
{
    if selected > 0 {
        selected - 1
    } else {
        0
    }
}

/// The cursor after `n` "down" steps from `sel` in a list of `len` entries.
pub open spec fn next_sel_n(sel: nat, len: nat, n: nat) -> nat
    decreases n,
{
    if n == 0 {
        sel
    } else {
        next_sel(next_sel_n(sel, len, (n - 1) as nat), len)
    }
}

proof fn lemma_next_sel_n_shifts(sel: nat, len: nat, n: nat)
    requires
        0 < len,
        sel < len,
        n <= len,
    ensures
        next_sel_n(sel, len, n) == (if sel + n < len {
            (sel + n) as int
        } else {
            sel + n - len
        }),
    decreases n,
{
    if n > 0 {
        lemma_next_sel_n_shifts(sel, len, (n - 1) as nat);
    }
}

/// Stepping "down" as many times as the list has entries returns the cursor
/// to where it started.
pub proof fn lemma_down_wraps_around(sel: nat, len: nat)
    requires
        0 < len,
        sel < len,
    ensures
        next_sel_n(sel, len, len) == sel,
{
    lemma_next_sel_n_shifts(sel, len, len);
}

/// Stepping "up" from the first entry selects the last one.
pub proof fn lemma_up_from_first_wraps(len: nat)
    requires
        0 < len,
    ensures
        prev_sel(0, len) == len - 1,
{
}

} // verus!
