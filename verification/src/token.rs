//! The tokens by which connections are told apart.
use vstd::prelude::*;

verus! {

/// The number of different tokens.
pub open spec fn token_count() -> nat {
    0x1_0000_0000_0000_0000
}

/// The token that the `n`-th call after the counter stood at `start` hands out.
pub open spec fn nth_token(start: u64, n: nat) -> int {
    (start + n) % (token_count() as int)
}

/// Hands out the value of the counter as a token, and moves the counter on to the next one.
///
/// The counter starts over at zero after the largest `u64`.
pub fn next_token(counter: &mut u64) -> (token: u64)
    ensures
        token == *old(counter),
        *final(counter) == nth_token(*old(counter), 1),
        *final(counter) == if *old(counter) < u64::MAX {
            *old(counter) + 1
        } else {
            0
        },
{
    let token: u64 = *counter;
    *counter = token.wrapping_add(1);
    token
}

/// Each call hands out the token that [`nth_token`] says: the first call the counter itself, and
/// every call leaves the counter at the token of the call after it.
pub proof fn tokens_follow_the_counter(start: u64, n: nat)
    ensures
        nth_token(start, 0) == start,
        0 <= nth_token(start, n) <= u64::MAX,
        nth_token(nth_token(start, n) as u64, 1) == nth_token(start, n + 1),
{
}

/// Tokens increase from call to call for as long as the counter has not reached its end.
pub proof fn tokens_increase(start: u64, i: nat, j: nat)
    requires
        i < j,
        start + j <= u64::MAX,
    ensures
        nth_token(start, i) < nth_token(start, j),
        nth_token(start, j) - nth_token(start, i) == j - i,
{
}

/// No token is handed out twice before every token was handed out once.
pub proof fn tokens_are_distinct(start: u64, i: nat, j: nat)
    requires
        i < j < i + token_count(),
    ensures
        nth_token(start, i) != nth_token(start, j),
{
}

/// A call hands out the value that the counter had, and the call after it the next larger one; the
/// largest `u64` is followed by zero.
pub proof fn each_call_hands_out_the_next_number(counter: &mut u64, token: u64)
    requires
        call_ensures(next_token, (counter,), token),
    ensures
        token == *old(counter),
        token < u64::MAX ==> *final(counter) == token + 1,
        token == u64::MAX ==> *final(counter) == 0,
{
}

} // verus!
