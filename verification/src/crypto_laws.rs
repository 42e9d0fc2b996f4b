//! Laws of encodings and derived keys.

use crate::b64;
use crate::crypto;
use crate::crypto::GenKey;
use crate::text;
use vstd::prelude::*;
use vstd::utf8::*;

verus! {

broadcast use vstd::seq::group_seq_axioms;

/// The eight bytes of a number are its digits to the base 256, the highest first.
pub proof fn lemma_number_bytes_are_big_endian(n: u64)
    ensures
        crypto::be8(n).len() == 8,
        ({
            let b = crypto::be8(n);
            n as int == ((((((b[0] * 256 + b[1]) * 256 + b[2]) * 256 + b[3]) * 256 + b[4]) * 256
                + b[5]) * 256 + b[6]) * 256 + b[7]
        }),
{
    let b = crypto::be8(n);
    let n1 = n / 256;
    let n2 = n1 / 256;
    let n3 = n2 / 256;
    let n4 = n3 / 256;
    let n5 = n4 / 256;
    let n6 = n5 / 256;
    let n7 = n6 / 256;
    assert(n2 == n / 0x1_0000 && n3 == n / 0x100_0000 && n4 == n / 0x1_0000_0000);
    assert(n5 == n / 0x100_0000_0000 && n6 == n / 0x1_0000_0000_0000);
    assert(n7 == n / 0x100_0000_0000_0000);
    assert(n7 < 256);
    assert(b[0] == n7 && b[1] == n6 % 256 && b[2] == n5 % 256 && b[3] == n4 % 256);
    assert(b[4] == n3 % 256 && b[5] == n2 % 256 && b[6] == n1 % 256 && b[7] == n % 256);
    assert(n6 == n7 * 256 + b[1]);
    assert(n5 == n6 * 256 + b[2]);
    assert(n4 == n5 * 256 + b[3]);
    assert(n3 == n4 * 256 + b[4]);
    assert(n2 == n3 * 256 + b[5]);
    assert(n1 == n2 * 256 + b[6]);
    assert(n == n1 * 256 + b[7]);
}

proof fn lemma_nibble(d: int)
    requires
        0 <= d < 16,
    ensures
        crypto::nibble(d) == "0123456789abcdef"@[d],
{
    reveal_strlit("0123456789abcdef");
}

/// In hexadecimal each byte has two digits: that of its sixteens and that of its ones.
pub proof fn lemma_hex_digits(b: Seq<u8>, i: int)
    requires
        0 <= i < b.len(),
    ensures
        crypto::hex_text(b).len() == 2 * b.len(),
        crypto::hex_text(b)[2 * i] == "0123456789abcdef"@[b[i] as int / 16],
        crypto::hex_text(b)[2 * i + 1] == "0123456789abcdef"@[b[i] as int % 16],
    decreases b.len(),
{
    let front = b.drop_last();
    crypto::lemma_hex_reads_back(b);
    crypto::lemma_hex_reads_back(front);
    if i < front.len() {
        lemma_hex_digits(front, i);
        assert(front[i] == b[i]);
    } else {
        lemma_nibble(b.last() as int / 16);
        lemma_nibble(b.last() as int % 16);
    }
}

/// The alphabet of base64 texts, in the order of the values.
pub open spec fn alphabet() -> Seq<char> {
    "ABCDEFGHIJKLMNOPQRSTUVWXYZabcdefghijklmnopqrstuvwxyz0123456789*~"@
}

proof fn lemma_symbol(d: int)
    requires
        0 <= d < 64,
    ensures
        b64::symbol(d) == alphabet()[d],
{
    reveal_strlit("ABCDEFGHIJKLMNOPQRSTUVWXYZabcdefghijklmnopqrstuvwxyz0123456789*~");
}

proof fn lemma_three_bytes(x: int, y: int, z: int)
    requires
        0 <= x < 256,
        0 <= y < 256,
        0 <= z < 256,
    ensures
        ({
            let n = x * 65536 + y * 256 + z;
            &&& x / 4 == n / 262144
            &&& (x % 4) * 16 + y / 16 == n / 4096 % 64
            &&& (y % 16) * 4 + z / 64 == n / 64 % 64
            &&& z % 64 == n % 64
            &&& 0 <= n / 262144 < 64
        }),
{
    let n = x * 65536 + y * 256 + z;
    let d = (x % 4) * 16 + y / 16;
    let e = (y % 16) * 4 + z / 64;
    assert(x == x / 4 * 4 + x % 4);
    assert(y == y / 16 * 16 + y % 16);
    assert(z == z / 64 * 64 + z % 64);
    let m = x / 4 * 64 + d;
    let k = m * 64 + e;
    assert(n == k * 64 + z % 64);
    assert(n / 64 == k && n % 64 == z % 64);
    assert(0 <= e < 64 && 0 <= d < 64);
    assert(k / 64 == m && k % 64 == e);
    assert(m / 64 == x / 4 && m % 64 == d);
    assert(n / 4096 == n / 64 / 64);
    assert(n / 262144 == n / 4096 / 64);
}

proof fn lemma_two_bytes(x: int, y: int)
    requires
        0 <= x < 256,
        0 <= y < 256,
    ensures
        ({
            let n = (x * 256 + y) * 4;
            &&& x / 4 == n / 4096
            &&& (x % 4) * 16 + y / 16 == n / 64 % 64
            &&& (y % 16) * 4 == n % 64
            &&& 0 <= n / 4096 < 64
        }),
{
    let n = (x * 256 + y) * 4;
    let m = x / 4 * 64 + ((x % 4) * 16 + y / 16);
    assert(n == m * 64 + (y % 16) * 4);
    assert(n / 64 == m);
    assert(n % 64 == (y % 16) * 4);
    assert(m / 64 == x / 4);
    assert(m % 64 == (x % 4) * 16 + y / 16);
    assert(n / 4096 == n / 64 / 64);
}

proof fn lemma_one_byte(x: int)
    requires
        0 <= x < 256,
    ensures
        ({
            let n = x * 16;
            &&& x / 4 == n / 64
            &&& (x % 4) * 16 == n % 64
            &&& 0 <= n / 64 < 64
        }),
{
}

/// The digits of the bytes from the `g`-th group on.
proof fn lemma_digits_from(b: Seq<u8>, g: int)
    requires
        0 <= g,
        3 * g <= b.len(),
    ensures
        b64::digits(b).len() == 4 * g + b64::digits(b.skip(3 * g)).len(),
        forall|k: int|
            0 <= k < b64::digits(b.skip(3 * g)).len() ==> b64::digits(b)[4 * g + k]
                == #[trigger] b64::digits(b.skip(3 * g))[k],
    decreases g,
{
    if g > 0 {
        lemma_digits_from(b, g - 1);
        let here = b.skip(3 * (g - 1));
        let next = b.skip(3 * g);
        assert(here.skip(3) =~= next);
        let d = b64::digits(here);
        let e = b64::digits(next);
        if here.len() == 3 {
            assert(next.len() == 0);
        }
        assert(d.len() == 4 + e.len());
        assert forall|k: int| 0 <= k < e.len() implies b64::digits(b)[4 * g + k] == #[trigger] e[k] by {
            assert(d[k + 4] == e[k]);
            assert(b64::digits(b)[4 * (g - 1) + (k + 4)] == d[k + 4]);
        }
    } else {
        assert(b.skip(0) =~= b);
    }
}

proof fn lemma_digit_groups(b: Seq<u8>, g: int)
    requires
        0 <= g,
        3 * g < b.len(),
    ensures
        3 * g + 2 < b.len() ==> ({
            let n = b[3 * g] * 65536 + b[3 * g + 1] * 256 + b[3 * g + 2];
            let d = b64::digits(b);
            &&& 4 * g + 3 < d.len()
            &&& d[4 * g] == n / 262144
            &&& d[4 * g + 1] == n / 4096 % 64
            &&& d[4 * g + 2] == n / 64 % 64
            &&& d[4 * g + 3] == n % 64
            &&& 0 <= n / 262144 < 64
        }),
        3 * g + 2 == b.len() ==> ({
            let n = (b[3 * g] * 256 + b[3 * g + 1]) * 4;
            let d = b64::digits(b);
            &&& 4 * g + 3 == d.len()
            &&& d[4 * g] == n / 4096
            &&& d[4 * g + 1] == n / 64 % 64
            &&& d[4 * g + 2] == n % 64
            &&& 0 <= n / 4096 < 64
        }),
        3 * g + 1 == b.len() ==> ({
            let n = b[3 * g] * 16;
            let d = b64::digits(b);
            &&& 4 * g + 2 == d.len()
            &&& d[4 * g] == n / 64
            &&& d[4 * g + 1] == n % 64
            &&& 0 <= n / 64 < 64
        }),
{
    let here = b.skip(3 * g);
    let d = b64::digits(b);
    let e = b64::digits(here);
    lemma_digits_from(b, g);
    assert(here[0] == b[3 * g]);
    assert(d[4 * g + 0] == e[0]);
    assert(d[4 * g + 1] == e[1]);
    if 3 * g + 1 == b.len() {
        lemma_one_byte(here[0] as int);
    } else {
        assert(here[1] == b[3 * g + 1]);
        assert(d[4 * g + 2] == e[2]);
        if 3 * g + 2 == b.len() {
            lemma_two_bytes(here[0] as int, here[1] as int);
        } else {
            assert(here[2] == b[3 * g + 2]);
            assert(d[4 * g + 3] == e[3]);
            lemma_three_bytes(here[0] as int, here[1] as int, here[2] as int);
        }
    }
}

proof fn lemma_symbols(b: Seq<u8>, k: int)
    requires
        0 <= k < b64::digits(b).len(),
        0 <= b64::digits(b)[k] < 64,
    ensures
        b64::encoded(b)[k] == alphabet()[b64::digits(b)[k]],
{
    lemma_symbol(b64::digits(b)[k]);
}

/// In base64 every three bytes, read as one number of 24 bits, are four symbols of six bits
/// each; two bytes at the end are three symbols, and one byte at the end is two, filled up with
/// zero bits.
pub proof fn lemma_base64_symbols(b: Seq<u8>, g: int)
    requires
        0 <= g,
        3 * g < b.len(),
    ensures
        3 * g + 2 < b.len() ==> ({
            let n = b[3 * g] * 65536 + b[3 * g + 1] * 256 + b[3 * g + 2];
            let s = b64::encoded(b);
            &&& 4 * g + 3 < s.len()
            &&& s[4 * g] == alphabet()[n / 262144]
            &&& s[4 * g + 1] == alphabet()[n / 4096 % 64]
            &&& s[4 * g + 2] == alphabet()[n / 64 % 64]
            &&& s[4 * g + 3] == alphabet()[n % 64]
        }),
        3 * g + 2 == b.len() ==> ({
            let n = (b[3 * g] * 256 + b[3 * g + 1]) * 4;
            let s = b64::encoded(b);
            &&& 4 * g + 3 == s.len()
            &&& s[4 * g] == alphabet()[n / 4096]
            &&& s[4 * g + 1] == alphabet()[n / 64 % 64]
            &&& s[4 * g + 2] == alphabet()[n % 64]
        }),
        3 * g + 1 == b.len() ==> ({
            let n = b[3 * g] * 16;
            let s = b64::encoded(b);
            &&& 4 * g + 2 == s.len()
            &&& s[4 * g] == alphabet()[n / 64]
            &&& s[4 * g + 1] == alphabet()[n % 64]
        }),
{
    lemma_digit_groups(b, g);
    lemma_symbols(b, 4 * g);
    lemma_symbols(b, 4 * g + 1);
    if 3 * g + 1 < b.len() {
        lemma_symbols(b, 4 * g + 2);
    }
    if 3 * g + 2 < b.len() {
        lemma_symbols(b, 4 * g + 3);
    }
}

/// Up to 32 bytes of derived key material are the front of one tag: that of the info and the
/// number one, under the tag of the input under the salt.
pub proof fn lemma_derived_bytes(salt: Seq<u8>, ikm: Seq<u8>, info: Seq<u8>, len: int)
    requires
        0 < len <= 32,
    ensures
        crypto::hkdf_of(salt, ikm, info, len) == crypto::hmac_of(
            crypto::hmac_of(salt, ikm),
            info + seq![1u8],
        ).take(len),
{
    let prk = crypto::hmac_of(salt, ikm);
    let none: Seq<u8> = seq![];
    reveal_with_fuel(crypto::hkdf_block, 3);
    reveal_with_fuel(crypto::hkdf_blocks, 3);
    assert((len + 31) / 32 == 1);
    assert(crypto::hkdf_block(prk, info, 0) =~= none);
    assert(none + info + seq![1u8] =~= info + seq![1u8]);
    let first = crypto::hkdf_block(prk, info, 1);
    assert(crypto::hkdf_blocks(prk, info, 0) =~= none);
    assert(crypto::hkdf_blocks(prk, info, 1) =~= first);
}

proof fn lemma_blocks_len(prk: Seq<u8>, info: Seq<u8>, n: int)
    requires
        n >= 0,
    ensures
        crypto::hkdf_blocks(prk, info, n).len() == 32 * n,
    decreases n,
{
    if n > 0 {
        lemma_blocks_len(prk, info, n - 1);
    }
}

proof fn lemma_blocks_extend(prk: Seq<u8>, info: Seq<u8>, n: int, m: int)
    requires
        0 <= n <= m,
    ensures
        crypto::hkdf_blocks(prk, info, m).take(32 * n) == crypto::hkdf_blocks(prk, info, n),
    decreases m,
{
    lemma_blocks_len(prk, info, n);
    lemma_blocks_len(prk, info, m);
    let all = crypto::hkdf_blocks(prk, info, m);
    if n < m {
        lemma_blocks_extend(prk, info, n, m - 1);
        lemma_blocks_len(prk, info, m - 1);
        let front = crypto::hkdf_blocks(prk, info, m - 1);
        assert(all.take(32 * n) =~= front.take(32 * n));
    } else {
        assert(all.take(32 * n) =~= all);
    }
}

/// Less derived key material is the front of more, and each further 32 bytes are the tag of the
/// 32 before them, the info and the number of the block.
pub proof fn lemma_derived_bytes_go_on(
    salt: Seq<u8>,
    ikm: Seq<u8>,
    info: Seq<u8>,
    len: int,
    more: int,
    n: int,
)
    requires
        0 <= len <= more,
        0 < n,
        32 * (n + 1) <= more,
    ensures
        ({
            let prk = crypto::hmac_of(salt, ikm);
            let all = crypto::hkdf_of(salt, ikm, info, more);
            &&& all.len() == more
            &&& all.take(len) == crypto::hkdf_of(salt, ikm, info, len)
            &&& all.subrange(32 * n, 32 * n + 32) == crypto::hmac_of(
                prk,
                all.subrange(32 * n - 32, 32 * n) + info + seq![(n + 1) as u8],
            )
        }),
{
    let prk = crypto::hmac_of(salt, ikm);
    let a = (len + 31) / 32;
    let c = (more + 31) / 32;
    lemma_blocks_len(prk, info, a);
    lemma_blocks_len(prk, info, c);
    lemma_blocks_extend(prk, info, a, c);
    let whole = crypto::hkdf_blocks(prk, info, c);
    let all = crypto::hkdf_of(salt, ikm, info, more);
    assert(all.take(len) =~= whole.take(32 * a).take(len));
    lemma_blocks_extend(prk, info, n + 1, c);
    lemma_blocks_extend(prk, info, n, c);
    lemma_blocks_len(prk, info, n + 1);
    lemma_blocks_len(prk, info, n);
    lemma_blocks_len(prk, info, n - 1);
    let up = crypto::hkdf_blocks(prk, info, n + 1);
    let here = crypto::hkdf_blocks(prk, info, n);
    assert(up == here + crypto::hkdf_block(prk, info, n + 1));
    assert(here == crypto::hkdf_blocks(prk, info, n - 1) + crypto::hkdf_block(prk, info, n));
    assert(all.subrange(32 * n, 32 * n + 32) =~= whole.take(32 * (n + 1)).subrange(
        32 * n,
        32 * n + 32,
    ));
    assert(up.subrange(32 * n, 32 * n + 32) =~= crypto::hkdf_block(prk, info, n + 1));
    assert(all.subrange(32 * n - 32, 32 * n) =~= whole.take(32 * n).subrange(32 * n - 32, 32 * n));
    assert(here.subrange(32 * n - 32, 32 * n) =~= crypto::hkdf_block(prk, info, n));
}

proof fn lemma_same_back(a: Seq<char>, b: Seq<char>, c: Seq<char>)
    requires
        a + b == a + c,
    ensures
        b == c,
{
    let n = a.len() as int;
    assert((a + b).skip(n) =~= b);
    assert((a + c).skip(n) =~= c);
}

/// Different tenants have different keys under one master key, different generations have
/// different encryption keys, and no key is both, unless HMAC gives one tag for two inputs.
pub proof fn lemma_keys_differ(
    master: Seq<u8>,
    tenant: Seq<char>,
    tenant2: Seq<char>,
    gen: u64,
    gen2: u64,
)
    requires
        forall|x: Seq<u8>, y: Seq<u8>|
            #![trigger crypto::hmac_of(master, x), crypto::hmac_of(master, y)]
            {
                let t = encode_utf8("masking-room/tenant/v1/"@ + tenant);
                let u = encode_utf8("masking-room/tenant/v1/"@ + tenant2);
                let v = encode_utf8("masking-room/enc/v1/gen/"@ + text::dec(gen as nat));
                let w = encode_utf8("masking-room/enc/v1/gen/"@ + text::dec(gen2 as nat));
                (x == t || x == u || x == v || x == w) && (y == t || y == u || y == v || y == w)
                    && crypto::hmac_of(master, x) == crypto::hmac_of(master, y) ==> x == y
            },
    ensures
        crypto::tenant_key_of(master, tenant) == crypto::tenant_key_of(master, tenant2) ==> tenant
            == tenant2,
        crypto::enc_key_of(master, gen) == crypto::enc_key_of(master, gen2) ==> gen == gen2,
        crypto::tenant_key_of(master, tenant) != crypto::enc_key_of(master, gen),
{
    let a = "masking-room/tenant/v1/"@;
    let e = "masking-room/enc/v1/gen/"@;
    let t = encode_utf8(a + tenant);
    let u = encode_utf8(a + tenant2);
    let v = encode_utf8(e + text::dec(gen as nat));
    let w = encode_utf8(e + text::dec(gen2 as nat));
    if crypto::tenant_key_of(master, tenant) == crypto::tenant_key_of(master, tenant2) {
        assert(crypto::hmac_of(master, t) == crypto::hmac_of(master, u));
        text::lemma_encoding_is_injective(a + tenant, a + tenant2);
        lemma_same_back(a, tenant, tenant2);
    }
    if crypto::enc_key_of(master, gen) == crypto::enc_key_of(master, gen2) {
        assert(crypto::hmac_of(master, v) == crypto::hmac_of(master, w));
        text::lemma_encoding_is_injective(e + text::dec(gen as nat), e + text::dec(gen2 as nat));
        lemma_same_back(e, text::dec(gen as nat), text::dec(gen2 as nat));
        text::lemma_dec_reads_back(gen as nat);
        text::lemma_dec_reads_back(gen2 as nat);
    }
    if crypto::tenant_key_of(master, tenant) == crypto::enc_key_of(master, gen) {
        assert(crypto::hmac_of(master, t) == crypto::hmac_of(master, v));
        text::lemma_encoding_is_injective(a + tenant, e + text::dec(gen as nat));
        reveal_strlit("masking-room/tenant/v1/");
        reveal_strlit("masking-room/enc/v1/gen/");
        assert((a + tenant)[13] == a[13]);
        assert((e + text::dec(gen as nat))[13] == e[13]);
    }
}

/// A stored record opens to a plaintext exactly if nonce and ciphertext are base64 texts, the
/// nonce has twelve bytes, and the ciphertext opens with the id of the token as its associated
/// data.
pub proof fn lemma_records_are_bound_to_their_token(
    key: Seq<u8>,
    token_id: Seq<char>,
    nonce: Seq<u8>,
    ct: Seq<u8>,
    plain: Seq<u8>,
)
    ensures
        crypto::record_plaintext(key, token_id, b64::encoded(nonce), b64::encoded(ct)) == Some(plain)
            <==> nonce.len() == 12 && crypto::opened(key, nonce, encode_utf8(token_id), ct) == Some(
            plain,
        ),
{
    b64::lemma_decode_inverts_encode(nonce);
    b64::lemma_decode_inverts_encode(ct);
}

/// The key of a generation is that of the first entry with its id, if its text stands for 32
/// bytes; without such an entry there is none.
pub proof fn lemma_first_generation_counts(gens: Seq<GenKey>, i: int, id: u32)
    ensures
        0 <= i < gens.len() && gens[i].id == id && (forall|k: int|
            0 <= k < i ==> (#[trigger] gens[k]).id != id) ==> crypto::generation_key(gens, id) == (
        match b64::decoded(gens[i].key_b64@) {
            Some(b) => if b.len() == 32 {
                Some(b)
            } else {
                None
            },
            None => None,
        }),
        (forall|k: int| 0 <= k < gens.len() ==> (#[trigger] gens[k]).id != id)
            ==> crypto::generation_key(gens, id) is None,
{
    if 0 <= i < gens.len() && gens[i].id == id && (forall|k: int|
        0 <= k < i ==> (#[trigger] gens[k]).id != id) {
        crypto::lemma_generation_key_extends(gens, i + 1, id);
    }
    if forall|k: int| 0 <= k < gens.len() ==> (#[trigger] gens[k]).id != id {
        crypto::lemma_no_generation(gens, id);
    }
}

/// The highest id of a generation is that of one of them, and none is higher; without any it is
/// zero.
pub proof fn lemma_highest_generation(gens: Seq<GenKey>)
    ensures
        gens.len() == 0 ==> crypto::top_id(gens) == 0,
        gens.len() > 0 ==> crypto::top_id(gens) == 0 || exists|i: int|
            0 <= i < gens.len() && (#[trigger] gens[i]).id == crypto::top_id(gens),
        forall|i: int| 0 <= i < gens.len() ==> (#[trigger] gens[i]).id <= crypto::top_id(gens),
    decreases gens.len(),
{
    if gens.len() > 0 {
        let front = gens.drop_last();
        lemma_highest_generation(front);
        assert forall|i: int| 0 <= i < gens.len() implies (#[trigger] gens[i]).id
            <= crypto::top_id(gens) by {
            if i < front.len() {
                assert(front[i] == gens[i]);
            }
        }
        if gens.last().id > crypto::top_id(front) {
            assert(gens[gens.len() - 1].id == crypto::top_id(gens));
        } else if crypto::top_id(front) != 0 {
            let i = choose|i: int|
                0 <= i < front.len() && (#[trigger] front[i]).id == crypto::top_id(front);
            assert(gens[i].id == crypto::top_id(gens));
        }
    }
}

/// The value of a hexadecimal digit in either case; minus one for any other character.
pub open spec fn digit_value(c: char) -> int {
    if '0' <= c <= '9' {
        c as int - 48
    } else if 'a' <= c <= 'f' {
        c as int - 87
    } else if 'A' <= c <= 'F' {
        c as int - 55
    } else {
        -1
    }
}

proof fn lemma_pairs(b: Seq<u8>, n: int)
    requires
        0 <= n,
        2 * n <= b.len(),
    ensures
        crypto::hex_pairs(b, n) is Ok <==> forall|i: int|
            0 <= i < 2 * n ==> crypto::nibble_value(#[trigger] b[i]) is Some,
        crypto::hex_pairs(b, n) matches Ok(r) ==> r.len() == n && forall|i: int|
            0 <= i < n ==> #[trigger] r[i] as int == crypto::nibble_value(b[2 * i])->0 * 16
                + crypto::nibble_value(b[2 * i + 1])->0,
    decreases n,
{
    if n > 0 {
        lemma_pairs(b, n - 1);
        if crypto::hex_pairs(b, n) is Ok {
            let front = crypto::hex_pairs(b, n - 1)->Ok_0;
            let all = crypto::hex_pairs(b, n)->Ok_0;
            assert forall|i: int| 0 <= i < 2 * n implies crypto::nibble_value(
                #[trigger] b[i],
            ) is Some by {
                if i == 2 * n - 2 || i == 2 * n - 1 {
                    assert(crypto::nibble_value(b[2 * n - 2]) is Some);
                }
            }
            assert(all == front.push(all.last()));
        } else if crypto::hex_pairs(b, n - 1) is Ok {
            assert(crypto::nibble_value(b[2 * n - 2]) is None || crypto::nibble_value(
                b[2 * n - 1],
            ) is None);
        }
    }
}

proof fn lemma_digit_byte(x: u8)
    ensures
        crypto::nibble_value(x) is Some <==> digit_value(x as char) >= 0,
        crypto::nibble_value(x) matches Some(v) ==> v == digit_value(x as char) && x < 0x80,
{
}

/// A text of ASCII characters is read as hexadecimal exactly if it has an even length and
/// consists of hexadecimal digits, in either case; each byte is sixteen times the value of the
/// first digit of its pair and the value of the second.
pub proof fn lemma_hex_texts(b: Seq<u8>)
    requires
        forall|i: int| 0 <= i < b.len() ==> #[trigger] b[i] < 0x80,
    ensures
        ({
            let s = Seq::new(b.len(), |i: int| b[i] as char);
            &&& crypto::unhexed(s) is Ok <==> s.len() % 2 == 0 && forall|i: int|
                0 <= i < s.len() ==> digit_value(#[trigger] s[i]) >= 0
            &&& crypto::unhexed(s) matches Ok(r) ==> s.len() == 2 * r.len() && forall|i: int|
                0 <= i < r.len() ==> #[trigger] r[i] as int == digit_value(s[2 * i]) * 16
                    + digit_value(s[2 * i + 1])
        }),
{
    let s = Seq::new(b.len(), |i: int| b[i] as char);
    text::lemma_encode_ascii(s, b);
    assert forall|i: int| 0 <= i < b.len() implies (crypto::nibble_value(#[trigger] b[i]) is Some
        <==> digit_value(s[i]) >= 0) && (crypto::nibble_value(b[i]) matches Some(v) ==> v
        == digit_value(s[i])) by {
        lemma_digit_byte(b[i]);
    }
    if b.len() % 2 == 0 {
        let n = b.len() as int / 2;
        lemma_pairs(b, n);
        if forall|i: int| 0 <= i < s.len() ==> digit_value(#[trigger] s[i]) >= 0 {
            assert forall|i: int| 0 <= i < 2 * n implies crypto::nibble_value(
                #[trigger] b[i],
            ) is Some by {
                assert(digit_value(s[i]) >= 0);
            }
        }
        if crypto::unhexed(s) is Ok {
            assert forall|i: int| 0 <= i < s.len() implies digit_value(#[trigger] s[i]) >= 0 by {
                assert(crypto::nibble_value(b[i]) is Some);
            }
            let r = crypto::unhexed(s)->Ok_0;
            assert forall|i: int| 0 <= i < r.len() implies #[trigger] r[i] as int == digit_value(
                s[2 * i],
            ) * 16 + digit_value(s[2 * i + 1]) by {
                assert(crypto::nibble_value(b[2 * i]) is Some);
                assert(crypto::nibble_value(b[2 * i + 1]) is Some);
            }
        }
    }
}

}
