//! Host-side library for a character-channel WebAssembly runtime: a JSON
//! message codec over a UTF-16 byte channel, an event dispatcher, a response
//! registry, and the pure parts of a minimal HTTP/1.1 server.

pub mod channel;
pub mod dispatch;
pub mod http;
pub mod json;
pub mod registry;
pub mod wire;

use vstd::prelude::*;

verus! {

/// Character-for-character equality of two string slices.
pub fn str_eq(a: &str, b: &str) -> (r: bool)
    ensures
        r == (a@ == b@),
{
    let n: usize = a.unicode_len();
    let m: usize = b.unicode_len();
    if n != m {
        return false;
    }
    let mut i: usize = 0;
    while i < n
        invariant
            n == a@.len(),
            n == b@.len(),
            i <= n,
            forall|p: int| 0 <= p < i ==> a@[p] == b@[p],
        decreases n - i,
    {
        if a.get_char(i) != b.get_char(i) {
            return false;
        }
        i = i + 1;
    }
    proof {
        assert(a@ =~= b@);
    }
    true
}

} // verus!
