//! Random bytes: a stream of ChaCha20 blocks, seeded from the operating system in production
//! and from a number in tests.

use vstd::prelude::*;

verus! {

broadcast use vstd::seq::group_seq_axioms;

/// A source of bytes.
pub trait Rng {
    /// The source may give the bytes `out` when it is asked for `n`, and is `later` then.
    spec fn gives(&self, n: nat, out: Seq<u8>, later: &Self) -> bool;

    /// Overwrites all of `dest` with the next bytes of the source.
    fn fill(&mut self, dest: &mut [u8])
        ensures
            final(dest)@.len() == old(dest)@.len(),
            old(self).gives(old(dest)@.len(), final(dest)@, final(self)),
    ;
}

/// `x` with its bits rotated to the left by `n`.
pub open spec fn rotated(x: u32, n: u32) -> u32 {
    (x << n) | (x >> ((32 - n) as u32))
}

fn rotate_left(x: u32, n: u32) -> (r: u32)
    requires
        0 < n < 32,
    ensures
        r == rotated(x, n),
{
    (x << n) | (x >> (32 - n))
}

/// The quarter round on four words.
pub open spec fn quarter(a: u32, b: u32, c: u32, d: u32) -> (u32, u32, u32, u32) {
    let a1 = a.wrapping_add(b);
    let d1 = rotated(d ^ a1, 16);
    let c1 = c.wrapping_add(d1);
    let b1 = rotated(b ^ c1, 12);
    let a2 = a1.wrapping_add(b1);
    let d2 = rotated(d1 ^ a2, 8);
    let c2 = c1.wrapping_add(d2);
    let b2 = rotated(b1 ^ c2, 7);
    (a2, b2, c2, d2)
}

/// The quarter round on four words of a state.
pub open spec fn quartered(s: Seq<u32>, a: int, b: int, c: int, d: int) -> Seq<u32> {
    let q = quarter(s[a], s[b], s[c], s[d]);
    s.update(a, q.0).update(b, q.1).update(c, q.2).update(d, q.3)
}

fn quarter_round(s: &mut [u32; 16], a: usize, b: usize, c: usize, d: usize)
    requires
        a < 16,
        b < 16,
        c < 16,
        d < 16,
        a != b && a != c && a != d && b != c && b != d && c != d,
    ensures
        final(s)@ == quartered(old(s)@, a as int, b as int, c as int, d as int),
{
    s[a] = s[a].wrapping_add(s[b]);
    s[d] = rotate_left(s[d] ^ s[a], 16);
    s[c] = s[c].wrapping_add(s[d]);
    s[b] = rotate_left(s[b] ^ s[c], 12);
    s[a] = s[a].wrapping_add(s[b]);
    s[d] = rotate_left(s[d] ^ s[a], 8);
    s[c] = s[c].wrapping_add(s[d]);
    s[b] = rotate_left(s[b] ^ s[c], 7);
    assert(s@ =~= quartered(old(s)@, a as int, b as int, c as int, d as int));
}

/// A round on the columns of a state, then one on its diagonals.
pub open spec fn double_round(s0: Seq<u32>) -> Seq<u32> {
    let s1 = quartered(s0, 0, 4, 8, 12);
    let s2 = quartered(s1, 1, 5, 9, 13);
    let s3 = quartered(s2, 2, 6, 10, 14);
    let s4 = quartered(s3, 3, 7, 11, 15);
    let s5 = quartered(s4, 0, 5, 10, 15);
    let s6 = quartered(s5, 1, 6, 11, 12);
    let s7 = quartered(s6, 2, 7, 8, 13);
    quartered(s7, 3, 4, 9, 14)
}

/// A state after `n` double rounds.
pub open spec fn double_rounds(s: Seq<u32>, n: nat) -> Seq<u32>
    decreases n,
{
    if n == 0 {
        s
    } else {
        double_round(double_rounds(s, (n - 1) as nat))
    }
}

/// The word of four bytes from `i` on, the lowest byte first.
pub open spec fn word_at(b: Seq<u8>, i: int) -> u32 {
    (b[i] + b[i + 1] * 0x100 + b[i + 2] * 0x1_0000 + b[i + 3] * 0x100_0000) as u32
}

/// Byte `i` of a word, the lowest byte first.
pub open spec fn word_byte(x: u32, i: int) -> u8 {
    if i == 0 {
        (x % 0x100) as u8
    } else if i == 1 {
        (x / 0x100 % 0x100) as u8
    } else if i == 2 {
        (x / 0x1_0000 % 0x100) as u8
    } else {
        (x / 0x100_0000) as u8
    }
}

fn read_word(b: &[u8], i: usize) -> (r: u32)
    requires
        i + 4 <= b@.len(),
    ensures
        r == word_at(b@, i as int),
{
    (b[i] as u32) + (b[i + 1] as u32) * 0x100 + (b[i + 2] as u32) * 0x1_0000 + (b[i + 3] as u32)
        * 0x100_0000
}

/// The state that a block is computed from: four constants, the key, the counter and the
/// nonce.
pub open spec fn initial(key: Seq<u8>, counter: u32, nonce: Seq<u8>) -> Seq<u32> {
    Seq::new(
        16,
        |i: int|
            if i == 0 {
                0x61707865u32
            } else if i == 1 {
                0x3320646e
            } else if i == 2 {
                0x79622d32
            } else if i == 3 {
                0x6b206574
            } else if i < 12 {
                word_at(key, (i - 4) * 4)
            } else if i == 12 {
                counter
            } else {
                word_at(nonce, (i - 13) * 4)
            },
    )
}

/// The words of a block: ten double rounds of the initial state, added to it.
pub open spec fn block_words(key: Seq<u8>, counter: u32, nonce: Seq<u8>) -> Seq<u32> {
    let s = initial(key, counter, nonce);
    let w = double_rounds(s, 10);
    Seq::new(16, |i: int| w[i].wrapping_add(s[i]))
}

/// The bytes of a block.
pub open spec fn block(key: Seq<u8>, counter: u32, nonce: Seq<u8>) -> Seq<u8> {
    let w = block_words(key, counter, nonce);
    Seq::new(64, |i: int| word_byte(w[i / 4], i % 4))
}

/// Computes a block of the ChaCha20 key stream.
pub fn chacha20_block(key: &[u8; 32], counter: u32, nonce: &[u8; 12], out: &mut [u8; 64])
    ensures
        final(out)@ == block(key@, counter, nonce@),
{
    let mut state: [u32; 16] = [0u32;16];
    state[0] = 0x61707865;
    state[1] = 0x3320646e;
    state[2] = 0x79622d32;
    state[3] = 0x6b206574;
    let mut i: usize = 0;
    while i < 8
        invariant
            i <= 8,
            state@.len() == 16,
            forall|k: int| 0 <= k < 4 + i ==> #[trigger] state@[k] == initial(
                key@,
                counter,
                nonce@,
            )[k],
        decreases 8 - i,
    {
        state[4 + i] = read_word(key, i * 4);
        i = i + 1;
    }
    state[12] = counter;
    state[13] = read_word(nonce, 0);
    state[14] = read_word(nonce, 4);
    state[15] = read_word(nonce, 8);
    assert(state@ =~= initial(key@, counter, nonce@));
    let mut work: [u32; 16] = state;
    let mut n: usize = 0;
    while n < 10
        invariant
            n <= 10,
            state@ == initial(key@, counter, nonce@),
            work@ == double_rounds(state@, n as nat),
            work@.len() == 16,
        decreases 10 - n,
    {
        quarter_round(&mut work, 0, 4, 8, 12);
        quarter_round(&mut work, 1, 5, 9, 13);
        quarter_round(&mut work, 2, 6, 10, 14);
        quarter_round(&mut work, 3, 7, 11, 15);
        quarter_round(&mut work, 0, 5, 10, 15);
        quarter_round(&mut work, 1, 6, 11, 12);
        quarter_round(&mut work, 2, 7, 8, 13);
        quarter_round(&mut work, 3, 4, 9, 14);
        n = n + 1;
    }
    let ghost words = block_words(key@, counter, nonce@);
    let mut j: usize = 0;
    while j < 16
        invariant
            j <= 16,
            state@ == initial(key@, counter, nonce@),
            state@.len() == 16,
            work@.len() == 16,
            work@ == double_rounds(state@, 10),
            words == block_words(key@, counter, nonce@),
            out@.len() == 64,
            forall|k: int| 0 <= k < 4 * j ==> #[trigger] out@[k] == word_byte(words[k / 4], k % 4),
        decreases 16 - j,
    {
        let v: u32 = work[j].wrapping_add(state[j]);
        assert(v == words[j as int]);
        out[j * 4] = (v % 0x100) as u8;
        out[j * 4 + 1] = (v / 0x100 % 0x100) as u8;
        out[j * 4 + 2] = (v / 0x1_0000 % 0x100) as u8;
        out[j * 4 + 3] = (v / 0x100_0000) as u8;
        j = j + 1;
    }
    assert(out@ =~= block(key@, counter, nonce@));
}

/// Where a stream of blocks stands.
pub struct Stream {
    pub key: Seq<u8>,
    pub counter: u32,
    pub nonce: Seq<u8>,
}

/// A stream whose key and nonce come out of its next block, with the counter at zero.
pub open spec fn reseeded(s: Stream) -> Stream {
    let b = block(s.key, s.counter, s.nonce);
    Stream { key: b.take(32), counter: 0, nonce: b.subrange(32, 44) }
}

/// A stream behind its next block; it is reseeded when the counter has gone round.
pub open spec fn stepped(s: Stream) -> Stream {
    let next = Stream { key: s.key, counter: s.counter.wrapping_add(1), nonce: s.nonce };
    if next.counter == 0 {
        reseeded(next)
    } else {
        next
    }
}

/// The next `n` bytes of a stream. What is left of the last block is not used.
pub open spec fn drawn(s: Stream, n: nat) -> Seq<u8>
    decreases n,
{
    let b = block(s.key, s.counter, s.nonce);
    if n <= 64 {
        b.take(n as int)
    } else {
        b + drawn(stepped(s), (n - 64) as nat)
    }
}

/// The stream after `n` bytes were drawn.
pub open spec fn after(s: Stream, n: nat) -> Stream
    decreases n,
{
    if n == 0 {
        s
    } else if n <= 64 {
        stepped(s)
    } else {
        after(stepped(s), (n - 64) as nat)
    }
}

/// The stream that a seed starts.
pub open spec fn seeded(seed: Seq<u8>) -> Stream {
    reseeded(Stream { key: seed, counter: 0, nonce: Seq::new(12, |i: int| 0u8) })
}

/// A stream of ChaCha20 blocks.
pub struct ChaCha20Rng {
    key: [u8; 32],
    counter: u32,
    nonce: [u8; 12],
}

impl View for ChaCha20Rng {
    type V = Stream;

    closed spec fn view(&self) -> Stream {
        Stream { key: self.key@, counter: self.counter, nonce: self.nonce@ }
    }
}

impl ChaCha20Rng {
    /// Starts a stream.
    pub fn new(seed: [u8; 32]) -> (r: Self)
        ensures
            r@ == seeded(seed@),
    {
        let mut rng: ChaCha20Rng = ChaCha20Rng { key: seed, counter: 0, nonce: [0u8;12] };
        assert(rng@.nonce =~= Seq::new(12, |i: int| 0u8));
        rng.reseed_mix();
        rng
    }

    fn reseed_mix(&mut self)
        ensures
            final(self)@ == reseeded(old(self)@),
    {
        let mut b: [u8; 64] = [0u8;64];
        chacha20_block(&self.key, self.counter, &self.nonce, &mut b);
        let mut k: [u8; 32] = [0u8;32];
        let mut n: [u8; 12] = [0u8;12];
        let mut i: usize = 0;
        while i < 32
            invariant
                i <= 32,
                b@.len() == 64,
                k@.len() == 32,
                forall|j: int| 0 <= j < i ==> #[trigger] k@[j] == b@[j],
            decreases 32 - i,
        {
            k[i] = b[i];
            i = i + 1;
        }
        let mut i: usize = 0;
        while i < 12
            invariant
                i <= 12,
                b@.len() == 64,
                n@.len() == 12,
                forall|j: int| 0 <= j < i ==> #[trigger] n@[j] == b@[32 + j],
            decreases 12 - i,
        {
            n[i] = b[32 + i];
            i = i + 1;
        }
        assert(k@ =~= b@.take(32));
        assert(n@ =~= b@.subrange(32, 44));
        self.key = k;
        self.nonce = n;
        self.counter = 0;
    }
}

impl Rng for ChaCha20Rng {
    open spec fn gives(&self, n: nat, out: Seq<u8>, later: &Self) -> bool {
        out == drawn(self@, n) && later@ == after(self@, n)
    }

    fn fill(&mut self, dest: &mut [u8])
        ensures
            final(dest)@ == drawn(old(self)@, old(dest)@.len()),
            final(self)@ == after(old(self)@, old(dest)@.len()),
    {
        let ghost start = self@;
        let ghost n = dest@.len();
        let len: usize = dest.len();
        let mut written: usize = 0;
        while written < len
            invariant
                len == dest@.len(),
                written <= dest@.len(),
                dest@.len() == n,
                written < n ==> drawn(start, n) == dest@.take(written as int) + drawn(
                    self@,
                    (n - written) as nat,
                ),
                written == n ==> drawn(start, n) == dest@,
                after(start, n) == after(self@, (n - written) as nat),
                n == 0 || written > 0 || self@ == start,
            decreases dest@.len() - written,
        {
            let mut b: [u8; 64] = [0u8;64];
            chacha20_block(&self.key, self.counter, &self.nonce, &mut b);
            let left: usize = len - written;
            let take: usize = if left < 64 {
                left
            } else {
                64
            };
            let ghost before = dest@;
            let mut i: usize = 0;
            while i < take
                invariant
                    i <= take <= 64,
                    written + take <= len,
                    len == dest@.len(),
                    dest@.len() == before.len(),
                    b@.len() == 64,
                    forall|j: int| 0 <= j < written ==> dest@[j] == before[j],
                    forall|j: int| written <= j < written + i ==> #[trigger] dest@[j] == b@[j
                        - written],
                decreases take - i,
            {
                dest[written + i] = b[i];
                i = i + 1;
            }
            proof {
                let now = dest@;
                assert(now.take(written + take) =~= before.take(written as int) + b@.take(
                    take as int,
                ));
                if left > 64 {
                    assert(b@.take(64) =~= b@);
                    let rest = drawn(stepped(self@), (left - 64) as nat);
                    assert(before.take(written as int) + (b@ + rest) =~= (before.take(
                        written as int,
                    ) + b@) + rest);
                } else {
                    assert(now.take(written + take) =~= now);
                }
            }
            written = written + take;
            self.counter = self.counter.wrapping_add(1);
            if self.counter == 0 {
                self.reseed_mix();
            }
        }
        assert(n == 0 ==> dest@ =~= drawn(start, 0));
    }
}

/// A step of the splitmix64 generator.
pub open spec fn split_mixed(x: u64) -> u64 {
    let z0 = x.wrapping_add(0x9e3779b97f4a7c15);
    let z1 = (z0 ^ (z0 >> 30)).wrapping_mul(0xbf58476d1ce4e5b9);
    let z2 = (z1 ^ (z1 >> 27)).wrapping_mul(0x94d049bb133111eb);
    z2 ^ (z2 >> 31)
}

fn splitmix64(x: u64) -> (r: u64)
    ensures
        r == split_mixed(x),
{
    let x: u64 = x.wrapping_add(0x9e3779b97f4a7c15);
    let mut z: u64 = x;
    z = (z ^ (z >> 30)).wrapping_mul(0xbf58476d1ce4e5b9);
    z = (z ^ (z >> 27)).wrapping_mul(0x94d049bb133111eb);
    z ^ (z >> 31)
}

/// `n` steps of the splitmix64 generator.
pub open spec fn split_mixed_times(x: u64, n: nat) -> u64
    decreases n,
{
    if n == 0 {
        x
    } else {
        split_mixed(split_mixed_times(x, (n - 1) as nat))
    }
}

/// Byte `i` of a number, the lowest byte first.
pub open spec fn number_byte(x: u64, i: int) -> u8
    decreases i,
{
    if i <= 0 {
        (x % 0x100) as u8
    } else {
        number_byte(x / 0x100, i - 1)
    }
}

/// The seed of thirty-two bytes that a number stands for: four steps of splitmix64, each
/// result with its lowest byte first.
pub open spec fn spread_seed(seed: u64) -> Seq<u8> {
    Seq::new(32, |i: int| number_byte(split_mixed_times(seed, (i / 8 + 1) as nat), i % 8))
}

/// A stream for tests: the same number starts the same stream.
pub struct DeterministicRng {
    inner: ChaCha20Rng,
}

impl View for DeterministicRng {
    type V = Stream;

    closed spec fn view(&self) -> Stream {
        self.inner@
    }
}

impl DeterministicRng {
    /// Starts the stream of a number.
    pub fn from_seed(seed: u64) -> (r: Self)
        ensures
            r@ == seeded(spread_seed(seed)),
    {
        let mut key: [u8; 32] = [0u8;32];
        let mut x: u64 = seed;
        let mut chunk: usize = 0;
        while chunk < 4
            invariant
                chunk <= 4,
                key@.len() == 32,
                x == split_mixed_times(seed, chunk as nat),
                forall|k: int| 0 <= k < 8 * chunk ==> #[trigger] key@[k] == spread_seed(seed)[k],
            decreases 4 - chunk,
        {
            x = splitmix64(x);
            let mut rest: u64 = x;
            let mut i: usize = 0;
            while i < 8
                invariant
                    chunk < 4,
                    i <= 8,
                    key@.len() == 32,
                    x == split_mixed_times(seed, (chunk + 1) as nat),
                    forall|k: int| i <= k ==> number_byte(x, k) == #[trigger] number_byte(
                        rest,
                        k - i,
                    ),
                    forall|k: int|
                        0 <= k < 8 * chunk + i ==> #[trigger] key@[k] == spread_seed(seed)[k],
                decreases 8 - i,
            {
                let ghost whole = rest;
                proof {
                    assert(number_byte(x, i as int) == number_byte(rest, i - i));
                }
                key[chunk * 8 + i] = (rest % 0x100) as u8;
                rest = rest / 0x100;
                proof {
                    assert forall|k: int| i + 1 <= k implies number_byte(x, k)
                        == #[trigger] number_byte(rest, k - (i + 1)) by {
                        assert(number_byte(x, k) == number_byte(whole, k - i));
                    }
                }
                i = i + 1;
            }
            chunk = chunk + 1;
        }
        assert(key@ =~= spread_seed(seed));
        DeterministicRng { inner: ChaCha20Rng::new(key) }
    }
}

impl Rng for DeterministicRng {
    open spec fn gives(&self, n: nat, out: Seq<u8>, later: &Self) -> bool {
        out == drawn(self@, n) && later@ == after(self@, n)
    }

    fn fill(&mut self, dest: &mut [u8])
        ensures
            final(dest)@ == drawn(old(self)@, old(dest)@.len()),
            final(self)@ == after(old(self)@, old(dest)@.len()),
    {
        self.inner.fill(dest);
    }
}

/// Byte `i` of the sixteen bytes of a number, the lowest byte first.
pub open spec fn wide_byte(x: u128, i: int) -> u8
    decreases i,
{
    if i <= 0 {
        (x % 0x100) as u8
    } else {
        wide_byte(x / 0x100, i - 1)
    }
}

/// A seed with a number mixed in: its sixteen bytes, over and over.
pub open spec fn mixed_seed(seed: Seq<u8>, mix: u128) -> Seq<u8> {
    Seq::new(seed.len(), |i: int| seed[i] ^ wide_byte(mix, i % 16))
}

/// The stream for production.
pub struct OsRng {
    inner: ChaCha20Rng,
}

impl View for OsRng {
    type V = Stream;

    closed spec fn view(&self) -> Stream {
        self.inner@
    }
}

impl OsRng {
    /// Starts a stream from bytes of the operating system, with the time in nanoseconds, the
    /// id of the process and the place of a local variable mixed in.
    pub fn new(entropy: [u8; 32], nanos: u128, pid: u128, place: u128) -> (r: Self)
        ensures
            r@ == seeded(mixed_seed(entropy@, nanos ^ pid ^ place)),
    {
        let mix: u128 = nanos ^ pid ^ place;
        let mut seed: [u8; 32] = entropy;
        let mut rest: u128 = mix;
        let mut i: usize = 0;
        while i < 16
            invariant
                i <= 16,
                seed@.len() == 32,
                mix == nanos ^ pid ^ place,
                forall|k: int| i <= k ==> wide_byte(mix, k) == #[trigger] wide_byte(rest, k - i),
                forall|k: int|
                    0 <= k < 32 ==> #[trigger] seed@[k] == (if k % 16 < i {
                        mixed_seed(entropy@, mix)[k]
                    } else {
                        entropy@[k]
                    }),
            decreases 16 - i,
        {
            let ghost whole = rest;
            let x: u8 = (rest % 0x100) as u8;
            proof {
                assert(wide_byte(mix, i as int) == wide_byte(rest, i - i));
            }
            seed[i] = seed[i] ^ x;
            seed[16 + i] = seed[16 + i] ^ x;
            rest = rest / 0x100;
            proof {
                assert forall|k: int| i + 1 <= k implies wide_byte(mix, k) == #[trigger] wide_byte(
                    rest,
                    k - (i + 1),
                ) by {
                    assert(wide_byte(mix, k) == wide_byte(whole, k - i));
                }
            }
            i = i + 1;
        }
        assert(seed@ =~= mixed_seed(entropy@, mix));
        OsRng { inner: ChaCha20Rng::new(seed) }
    }
}

impl Rng for OsRng {
    open spec fn gives(&self, n: nat, out: Seq<u8>, later: &Self) -> bool {
        out == drawn(self@, n) && later@ == after(self@, n)
    }

    fn fill(&mut self, dest: &mut [u8])
        ensures
            final(dest)@ == drawn(old(self)@, old(dest)@.len()),
            final(self)@ == after(old(self)@, old(dest)@.len()),
    {
        self.inner.fill(dest);
    }
}

/// A step of a 64-bit xorshift generator.
pub open spec fn xor_shifted(x: u64) -> u64 {
    let a = x ^ (x << 13);
    let b = a ^ (a >> 7);
    b ^ (b << 17)
}

/// `n` steps of the xorshift generator.
pub open spec fn xor_shifted_times(x: u64, n: nat) -> u64
    decreases n,
{
    if n == 0 {
        x
    } else {
        xor_shifted(xor_shifted_times(x, (n - 1) as nat))
    }
}

/// Fills `dest` with weak bytes, for systems without a device of random bytes: the lowest
/// byte after each step of a xorshift generator.
pub fn fill_weakly(start: u64, dest: &mut [u8])
    ensures
        final(dest)@ == Seq::new(
            old(dest)@.len(),
            |i: int| (xor_shifted_times(start, (i + 1) as nat) & 0xff) as u8,
        ),
{
    let mut x: u64 = start;
    let mut i: usize = 0;
    while i < dest.len()
        invariant
            i <= dest@.len(),
            dest@.len() == old(dest)@.len(),
            x == xor_shifted_times(start, i as nat),
            forall|k: int|
                0 <= k < i ==> #[trigger] dest@[k] == (xor_shifted_times(start, (k + 1) as nat)
                    & 0xff) as u8,
        decreases dest@.len() - i,
    {
        x = x ^ (x << 13);
        x = x ^ (x >> 7);
        x = x ^ (x << 17);
        dest[i] = (x & 0xff) as u8;
        i = i + 1;
    }
}

/// Drawing gives as many bytes as were asked for, and a longer draw starts like a shorter one.
pub proof fn lemma_longer_draws_extend_shorter_ones(s: Stream, n: nat, m: nat)
    requires
        n <= m,
    ensures
        drawn(s, n).len() == n,
        drawn(s, m).take(n as int) == drawn(s, n),
    decreases m,
{
    let b = block(s.key, s.counter, s.nonce);
    if m > 64 {
        lemma_longer_draws_extend_shorter_ones(stepped(s), (m - 64) as nat, (m - 64) as nat);
        if n > 64 {
            lemma_longer_draws_extend_shorter_ones(
                stepped(s),
                (n - 64) as nat,
                (m - 64) as nat,
            );
            assert(drawn(s, m).take(n as int) =~= b + drawn(stepped(s), (m - 64) as nat).take(
                n - 64,
            ));
        } else {
            assert(drawn(s, m).take(n as int) =~= b.take(n as int));
        }
    } else {
        assert(b.take(m as int).take(n as int) =~= b.take(n as int));
    }
}

/// Two streams that were started from the same number give the same bytes, whatever the
/// buffers held before, and go on alike.
pub proof fn lemma_equal_seeds_give_equal_bytes(
    seed: u64,
    a: DeterministicRng,
    b: DeterministicRng,
    n: nat,
    from_a: Seq<u8>,
    from_b: Seq<u8>,
    later_a: DeterministicRng,
    later_b: DeterministicRng,
)
    requires
        a@ == seeded(spread_seed(seed)),
        b@ == seeded(spread_seed(seed)),
        a.gives(n, from_a, &later_a),
        b.gives(n, from_b, &later_b),
    ensures
        from_a == from_b,
        from_a.len() == n,
        later_a@ == later_b@,
{
    lemma_longer_draws_extend_shorter_ones(a@, n, n);
}

}
