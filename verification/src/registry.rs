//! Registry-side rules: room identifiers and garbage collection.

use vstd::prelude::*;
use vstd::string::StrSliceExecFns;
use vstd::string::StringExecFns;

verus! {

/// Rooms idle longer than this (with no subscriber) are collected.
pub const GC_ROOM_TIMEOUT_S: u64 = 3600;

/// A fresh room identifier: lowercase ASCII letters, drawn at random.
pub fn generate_room_id(length: usize) -> (r: String)
    ensures
        r@.len() == length,
        forall|i: int| 0 <= i < r@.len() ==> 'a' <= #[trigger] r@[i] <= 'z',
{
    let letters = "abcdefghijklmnopqrstuvwxyz";
    proof {
        reveal_strlit("abcdefghijklmnopqrstuvwxyz");
    }
    let mut id = String::new();
    let mut i: usize = 0;
    while i < length
        invariant
            i <= length,
            id@.len() == i,
            letters@.len() == 26,
            letters.is_ascii(),
            forall|j: int| 0 <= j < 26 ==> 'a' <= #[trigger] letters@[j] <= 'z',
            forall|j: int| 0 <= j < id@.len() ==> 'a' <= #[trigger] id@[j] <= 'z',
        decreases length - i,
    {
        let pick = crate::sys::random_below(26);
        let c = letters.substring_ascii(pick, pick + 1);
        id.append(c);
        i = i + 1;
    }
    id
}

/// Whether the registry should collect a room: nobody subscribed, and
/// the last access lies beyond the timeout.
pub fn room_expired(num_active: usize, last_access_s: u64, now_s: u64) -> (r: bool)
    ensures
        r == (num_active == 0 && (if now_s >= last_access_s {
            now_s - last_access_s
        } else {
            0int
        }) > GC_ROOM_TIMEOUT_S),
{
    num_active == 0 && now_s.saturating_sub(last_access_s) > GC_ROOM_TIMEOUT_S
}

} // verus!
