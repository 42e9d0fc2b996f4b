//! Laws of the streams of random bytes.

use crate::rng;
use crate::rng::Stream;
use vstd::prelude::*;

verus! {

broadcast use vstd::seq::group_seq_axioms;

/// While its counter does not go round, a stream keeps its key and its nonce, and draws block
/// after block: bytes 64 k to 64 k + 63 of what is drawn are those of the block whose counter is k
/// further. No block is used twice.
pub proof fn lemma_blocks_are_drawn_in_turn(s: Stream, n: nat, k: nat)
    requires
        64 * k + 64 <= n,
        s.counter + k <= u32::MAX,
    ensures
        rng::drawn(s, n).len() == n,
        rng::drawn(s, n).subrange(64 * k as int, 64 * k as int + 64) == rng::block(
            s.key,
            (s.counter + k) as u32,
            s.nonce,
        ),
    decreases k,
{
    let b = rng::block(s.key, s.counter, s.nonce);
    rng::lemma_longer_draws_extend_shorter_ones(s, n, n);
    if k == 0 {
        rng::lemma_longer_draws_extend_shorter_ones(s, 64, n);
        assert(rng::drawn(s, n).subrange(0, 64) =~= rng::drawn(s, n).take(64));
        assert(b.take(64) =~= b);
    } else {
        let next = rng::stepped(s);
        lemma_step(s);
        lemma_blocks_are_drawn_in_turn(next, (n - 64) as nat, (k - 1) as nat);
        let rest = rng::drawn(next, (n - 64) as nat);
        assert(rng::drawn(s, n) == b + rest);
        assert(rng::drawn(s, n).subrange(64 * k as int, 64 * k as int + 64) =~= rest.subrange(
            64 * (k - 1),
            64 * (k - 1) + 64,
        ));
    }
}

proof fn lemma_step(s: Stream)
    requires
        s.counter < u32::MAX,
    ensures
        rng::stepped(s) == (Stream { key: s.key, counter: (s.counter + 1) as u32, nonce: s.nonce }),
{
}

/// When the counter has gone round, key and nonce are replaced by bytes of the next block, and the
/// counter starts again.
pub proof fn lemma_streams_are_reseeded(s: Stream)
    requires
        s.counter == u32::MAX,
    ensures
        ({
            let b = rng::block(s.key, 0, s.nonce);
            let next = rng::stepped(s);
            &&& next.counter == 0
            &&& next.key == b.take(32)
            &&& next.nonce == b.subrange(32, 44)
        }),
{
}

/// Drawing whole blocks and then more is the same as drawing all at once, and the stream goes on
/// from the same place.
pub proof fn lemma_draws_can_be_split(s: Stream, a: nat, m: nat)
    requires
        m > 0,
    ensures
        rng::drawn(s, 64 * a + m) == rng::drawn(s, 64 * a) + rng::drawn(
            rng::after(s, 64 * a),
            m,
        ),
        rng::after(s, 64 * a + m) == rng::after(rng::after(s, 64 * a), m),
    decreases a,
{
    let b = rng::block(s.key, s.counter, s.nonce);
    if a == 0 {
        assert(rng::drawn(s, 0) =~= seq![]);
        let none: Seq<u8> = seq![];
        assert(none + rng::drawn(s, m) =~= rng::drawn(s, m));
    } else {
        let next = rng::stepped(s);
        lemma_draws_can_be_split(next, (a - 1) as nat, m);
        let more = rng::drawn(rng::after(next, 64 * (a - 1) as nat), m);
        assert((64 * a + m - 64) as nat == 64 * (a - 1) as nat + m);
        assert(rng::drawn(s, 64 * a + m) == b + rng::drawn(next, 64 * (a - 1) as nat + m));
        if a == 1 {
            assert(rng::drawn(s, 64) =~= b);
            assert(rng::drawn(next, 0) =~= seq![]);
            assert(rng::after(s, 64) == next);
            assert(rng::after(next, 0) == next);
        } else {
            assert((64 * a - 64) as nat == 64 * (a - 1) as nat);
            assert(rng::drawn(s, 64 * a) == b + rng::drawn(next, 64 * (a - 1) as nat));
            assert(rng::after(s, 64 * a) == rng::after(next, 64 * (a - 1) as nat));
        }
        assert(b + (rng::drawn(next, 64 * (a - 1) as nat) + more) =~= b + rng::drawn(
            next,
            64 * (a - 1) as nat,
        ) + more);
        if m > 0 {
            assert(rng::after(s, 64 * a + m) == rng::after(next, 64 * (a - 1) as nat + m));
        }
    }
}

/// A power of 256.
spec fn size(n: nat) -> nat
    decreases n,
{
    if n == 0 {
        1
    } else {
        256 * size((n - 1) as nat)
    }
}

proof fn lemma_bytes_fix_the_number(a: u128, b: u128, n: nat)
    requires
        a < size(n),
        b < size(n),
        forall|i: int| 0 <= i < n ==> #[trigger] rng::wide_byte(a, i) == rng::wide_byte(b, i),
    ensures
        a == b,
    decreases n,
{
    if n > 0 {
        let x = a / 0x100;
        let y = b / 0x100;
        assert(rng::wide_byte(a, 0) == rng::wide_byte(b, 0));
        assert(a % 0x100 == b % 0x100);
        assert forall|i: int| 0 <= i < n - 1 implies #[trigger] rng::wide_byte(x, i)
            == rng::wide_byte(y, i) by {
            assert(rng::wide_byte(a, i + 1) == rng::wide_byte(b, i + 1));
        }
        lemma_bytes_fix_the_number(x, y, (n - 1) as nat);
    }
}

proof fn lemma_xor(s: u8, x: u8, y: u8)
    by (bit_vector)
    requires
        s ^ x == s ^ y,
    ensures
        x == y,
{
}

/// Every bit of the number that is mixed into a seed of 32 bytes counts: different numbers give
/// different seeds, and so do different seeds with the same number.
pub proof fn lemma_mixing_loses_nothing(seed: Seq<u8>, other: Seq<u8>, a: u128, b: u128)
    requires
        seed.len() == 32,
        other.len() == 32,
    ensures
        rng::mixed_seed(seed, a).len() == 32,
        rng::mixed_seed(seed, a) == rng::mixed_seed(seed, b) ==> a == b,
        rng::mixed_seed(seed, a) == rng::mixed_seed(other, a) ==> seed == other,
{
    if rng::mixed_seed(seed, a) == rng::mixed_seed(seed, b) {
        assert forall|i: int| 0 <= i < 16 implies #[trigger] rng::wide_byte(a, i)
            == rng::wide_byte(b, i) by {
            assert(rng::mixed_seed(seed, a)[i] == rng::mixed_seed(seed, b)[i]);
            lemma_xor(seed[i], rng::wide_byte(a, i), rng::wide_byte(b, i));
        }
        assert(size(16) > u128::MAX) by {
            reveal_with_fuel(size, 17);
        }
        lemma_bytes_fix_the_number(a, b, 16);
    }
    if rng::mixed_seed(seed, a) == rng::mixed_seed(other, a) {
        assert forall|i: int| 0 <= i < 32 implies seed[i] == other[i] by {
            assert(rng::mixed_seed(seed, a)[i] == rng::mixed_seed(other, a)[i]);
            let w = rng::wide_byte(a, i % 16);
            let x = seed[i];
            let y = other[i];
            assert(x ^ w == w ^ x) by (bit_vector);
            assert(y ^ w == w ^ y) by (bit_vector);
            lemma_xor(w, x, y);
        }
        assert(seed =~= other);
    }
}

/// A step of the weak generator loses nothing: different states are followed by different states,
/// and only zero is followed by zero.
pub proof fn lemma_weak_steps_lose_nothing(x: u64, y: u64)
    ensures
        rng::xor_shifted(x) == rng::xor_shifted(y) ==> x == y,
        rng::xor_shifted(x) == 0 <==> x == 0,
{
    lemma_shifts(x, y);
    lemma_shifts(x, 0);
    assert(rng::xor_shifted(0) == 0) by {
        lemma_zero();
    }
}

proof fn lemma_zero()
    by (bit_vector)
    ensures
        ({
            let a = 0u64 ^ (0u64 << 13);
            let b = a ^ (a >> 7);
            b ^ (b << 17)
        }) == 0u64,
{
}

proof fn lemma_shifts(x: u64, y: u64)
    by (bit_vector)
    ensures
        ({
            let a = x ^ (x << 13);
            let b = a ^ (a >> 7);
            b ^ (b << 17)
        }) == ({
            let a = y ^ (y << 13);
            let b = a ^ (a >> 7);
            b ^ (b << 17)
        }) ==> x == y,
{
}

}
