//! Keys, digests and encryption. All keys are local: the master key is drawn when a room is
//! first opened, and every other key is derived from it.

use crate::b64;
use crate::text;
use aes_gcm::aead::{Aead, KeyInit, Payload};
use aes_gcm::{Aes256Gcm, Nonce};
use hmac::{Hmac, Mac};
use rand::RngCore;
use sha2::{Digest, Sha256};
use vstd::prelude::*;
use vstd::string::*;
use vstd::utf8::*;

verus! {

broadcast use vstd::seq::group_seq_axioms;

/// What `sha2::Sha256` gives for some bytes.
pub uninterp spec fn sha256_array(data: Seq<u8>) -> [u8; 32];

/// What `hmac::Hmac<Sha256>` gives for a key and some bytes.
pub uninterp spec fn hmac_array(key: Seq<u8>, data: Seq<u8>) -> [u8; 32];

/// The SHA-256 digest of some bytes.
pub open spec fn sha256_of(data: Seq<u8>) -> Seq<u8> {
    sha256_array(data)@
}

/// The HMAC-SHA-256 tag of some bytes under a key.
pub open spec fn hmac_of(key: Seq<u8>, data: Seq<u8>) -> Seq<u8> {
    hmac_array(key, data)@
}

/// What `aes_gcm::Aes256Gcm` encrypts a plaintext to, bound to the associated data.
pub uninterp spec fn sealed(
    key: Seq<u8>,
    nonce: Seq<u8>,
    aad: Seq<u8>,
    plaintext: Seq<u8>,
) -> Seq<u8>;

/// What `aes_gcm::Aes256Gcm` decrypts a ciphertext to; `None` where its tag does not fit.
pub uninterp spec fn opened(
    key: Seq<u8>,
    nonce: Seq<u8>,
    aad: Seq<u8>,
    ciphertext: Seq<u8>,
) -> Option<Seq<u8>>;

/// The longest plaintext, and the longest associated data, that AES-GCM takes.
pub const SEAL_LIMIT: u64 = 0x10_0000_0000;

/// The SHA-256 digest, by `sha2::Sha256::digest`.
#[verifier::external_body]
fn sha256_digest(data: &[u8]) -> (r: [u8; 32])
    ensures
        r == sha256_array(data@),
{
    Sha256::digest(data).into()
}

/// The HMAC-SHA-256 tag, by `hmac::Hmac<Sha256>`, which takes a key of any length.
#[verifier::external_body]
fn hmac_tag(key: &[u8], data: &[u8]) -> (r: [u8; 32])
    ensures
        r == hmac_array(key@, data@),
{
    let mut mac = <Hmac<Sha256> as Mac>::new_from_slice(key).unwrap();
    mac.update(data);
    mac.finalize().into_bytes().into()
}

/// AES-256-GCM encryption, by `aes_gcm::Aes256Gcm::encrypt`. It fails only beyond its limits
/// on length. The ciphertext is sixteen bytes longer than the plaintext, and decryption under
/// the same key, nonce and associated data gives the plaintext back.
#[verifier::external_body]
fn aes_seal(key: &[u8; 32], nonce: &[u8; 12], aad: &[u8], plaintext: &[u8]) -> (r: Vec<u8>)
    requires
        plaintext@.len() <= SEAL_LIMIT,
        aad@.len() <= SEAL_LIMIT,
    ensures
        r@ == sealed(key@, nonce@, aad@, plaintext@),
        r@.len() == plaintext@.len() + 16,
        opened(key@, nonce@, aad@, r@) == Some(plaintext@),
{
    let cipher = Aes256Gcm::new(key.into());
    cipher.encrypt(Nonce::from_slice(nonce), Payload { msg: plaintext, aad }).unwrap()
}

/// AES-256-GCM decryption, by `aes_gcm::Aes256Gcm::decrypt`.
#[verifier::external_body]
fn aes_open(key: &[u8; 32], nonce: &[u8; 12], aad: &[u8], ciphertext: &[u8]) -> (r: Option<
    Vec<u8>,
>)
    ensures
        match opened(key@, nonce@, aad@, ciphertext@) {
            Some(p) => r is Some && r->0@ == p,
            None => r is None,
        },
{
    let cipher = Aes256Gcm::new(key.into());
    cipher.decrypt(Nonce::from_slice(nonce), Payload { msg: ciphertext, aad }).ok()
}

/// Random bytes from the operating system, by `rand::rngs::OsRng`. Nothing is known of their
/// values.
#[verifier::external_body]
fn random_bytes(count: usize) -> (r: Vec<u8>)
    ensures
        r@.len() == count,
{
    let mut bytes = vec![0u8; count];
    rand::rngs::OsRng.fill_bytes(&mut bytes);
    bytes
}

/// Bytes that `random_bytes` may hand out.
pub closed spec fn may_be_drawn(b: Seq<u8>) -> bool {
    exists|n: usize, v: Vec<u8>| #[trigger] call_ensures(random_bytes, (n,), v) && v@ == b
}

/// Random bytes from the operating system, all of them and in the order in which they came.
pub(crate) fn drawn_bytes(count: usize) -> (r: Vec<u8>)
    ensures
        r@.len() == count,
        may_be_drawn(r@),
{
    let draw = random_bytes;
    draw(count)
}

/// The hexadecimal digit of a number below sixteen.
pub open spec fn nibble(d: int) -> char {
    if d < 10 {
        (48 + d) as char
    } else {
        (87 + d) as char
    }
}

/// Bytes in lower-case hexadecimal.
pub open spec fn hex_text(b: Seq<u8>) -> Seq<char>
    decreases b.len(),
{
    if b.len() == 0 {
        seq![]
    } else {
        hex_text(b.drop_last()) + seq![nibble(b.last() as int / 16), nibble(b.last() as int % 16)]
    }
}

/// The value of a hexadecimal digit in either case.
pub open spec fn nibble_value(x: u8) -> Option<int> {
    if 0x30 <= x <= 0x39 {
        Some(x - 0x30)
    } else if 0x61 <= x <= 0x66 {
        Some(x - 0x57)
    } else if 0x41 <= x <= 0x46 {
        Some(x - 0x37)
    } else {
        None
    }
}

/// What is said of a byte that is no hexadecimal digit.
pub open spec fn bad_nibble(x: u8) -> Seq<char> {
    "非法 hex 字符: "@ + seq![x as char]
}

/// The bytes that `n` pairs of hexadecimal digits stand for; the first bad digit is reported.
pub open spec fn hex_pairs(b: Seq<u8>, n: int) -> Result<Seq<u8>, Seq<char>>
    decreases n,
{
    if n <= 0 {
        Ok(seq![])
    } else {
        match hex_pairs(b, n - 1) {
            Err(e) => Err(e),
            Ok(front) => match (nibble_value(b[2 * n - 2]), nibble_value(b[2 * n - 1])) {
                (Some(high), Some(low)) => Ok(front.push((high * 16 + low) as u8)),
                (None, _) => Err(bad_nibble(b[2 * n - 2])),
                (_, None) => Err(bad_nibble(b[2 * n - 1])),
            },
        }
    }
}

/// The bytes of a hexadecimal text.
pub open spec fn unhexed(s: Seq<char>) -> Result<Seq<u8>, Seq<char>> {
    let b = encode_utf8(s);
    if b.len() % 2 != 0 {
        Err("hex 长度必须为偶数"@)
    } else {
        hex_pairs(b, b.len() as int / 2)
    }
}

fn nibble_of(d: u8) -> (r: char)
    requires
        d < 16,
    ensures
        r == nibble(d as int),
{
    if d < 10 {
        (48u8 + d) as char
    } else {
        (87u8 + d) as char
    }
}

/// Bytes in lower-case hexadecimal.
pub fn hex_encode(data: &[u8]) -> (r: String)
    ensures
        r@ == hex_text(data@),
{
    let mut out: String = String::new();
    let mut i: usize = 0;
    while i < data.len()
        invariant
            0 <= i <= data@.len(),
            out@ == hex_text(data@.take(i as int)),
        decreases data@.len() - i,
    {
        let ghost done = out@;
        out.push(nibble_of(data[i] / 16));
        out.push(nibble_of(data[i] % 16));
        proof {
            assert(data@.take(i + 1).drop_last() =~= data@.take(i as int));
            assert(out@ =~= done + seq![
                nibble(data@[i as int] as int / 16),
                nibble(data@[i as int] as int % 16),
            ]);
        }
        i = i + 1;
    }
    assert(data@.take(i as int) =~= data@);
    out
}

fn hex_val(c: u8) -> (r: Result<u8, String>)
    ensures
        match nibble_value(c) {
            Some(v) => r is Ok && r->Ok_0 == v && 0 <= v < 16,
            None => r is Err && r->Err_0@ == bad_nibble(c),
        },
{
    if 0x30 <= c && c <= 0x39 {
        Ok(c - 0x30)
    } else if 0x61 <= c && c <= 0x66 {
        Ok(c - 0x57)
    } else if 0x41 <= c && c <= 0x46 {
        Ok(c - 0x37)
    } else {
        let mut message: String = "非法 hex 字符: ".to_string();
        message.push(c as char);
        assert(message@ =~= bad_nibble(c));
        Err(message)
    }
}

proof fn lemma_hex_pairs_fail(b: Seq<u8>, n: int, end: int)
    requires
        0 <= n <= end,
        hex_pairs(b, n) is Err,
    ensures
        hex_pairs(b, end) == hex_pairs(b, n),
    decreases end - n,
{
    if n < end {
        lemma_hex_pairs_fail(b, n, end - 1);
    }
}

/// The bytes of a hexadecimal text.
pub fn hex_decode(s: &str) -> (r: Result<Vec<u8>, String>)
    ensures
        match unhexed(s@) {
            Ok(b) => r is Ok && r->Ok_0@ == b,
            Err(e) => r is Err && r->Err_0@ == e,
        },
{
    let b: &[u8] = s.as_bytes();
    if b.len() % 2 != 0 {
        return Err("hex 长度必须为偶数".to_string());
    }
    let mut out: Vec<u8> = Vec::new();
    let mut i: usize = 0;
    while i < b.len() / 2
        invariant
            0 <= i <= b@.len() / 2,
            b@ == encode_utf8(s@),
            b@.len() % 2 == 0,
            hex_pairs(b@, i as int) == Ok::<Seq<u8>, Seq<char>>(out@),
        decreases b@.len() / 2 - i,
    {
        let high: u8 = match hex_val(b[2 * i]) {
            Ok(v) => v,
            Err(e) => {
                proof {
                    lemma_hex_pairs_fail(b@, i + 1, b@.len() as int / 2);
                }
                return Err(e);
            },
        };
        let low: u8 = match hex_val(b[2 * i + 1]) {
            Ok(v) => v,
            Err(e) => {
                proof {
                    lemma_hex_pairs_fail(b@, i + 1, b@.len() as int / 2);
                }
                return Err(e);
            },
        };
        out.push(high * 16 + low);
        i = i + 1;
    }
    Ok(out)
}

/// A hexadecimal text decodes to the bytes that it was made from.
pub proof fn lemma_hex_reads_back(b: Seq<u8>)
    ensures
        unhexed(hex_text(b)) == Ok::<Seq<u8>, Seq<char>>(b),
        hex_text(b).len() == 2 * b.len(),
        encode_utf8(hex_text(b)).len() == 2 * b.len(),
{
    lemma_hex_bytes(b);
    let e = encode_utf8(hex_text(b));
    lemma_hex_pairs_read_back(b, b.len() as int);
    assert(b.take(b.len() as int) =~= b);
}

proof fn lemma_hex_bytes(b: Seq<u8>)
    ensures
        hex_text(b).len() == 2 * b.len(),
        encode_utf8(hex_text(b)).len() == 2 * b.len(),
        forall|i: int|
            0 <= i < b.len() ==> nibble_value(encode_utf8(hex_text(b))[2 * i]) == Some(
                #[trigger] b[i] as int / 16,
            ) && nibble_value(encode_utf8(hex_text(b))[2 * i + 1]) == Some(b[i] as int % 16),
    decreases b.len(),
{
    if b.len() > 0 {
        let front = b.drop_last();
        lemma_hex_bytes(front);
        let x = b.last() as int;
        let pair = seq![nibble(x / 16), nibble(x % 16)];
        let bytes = seq![nibble(x / 16) as u8, nibble(x % 16) as u8];
        text::lemma_encode_ascii(pair, bytes);
        text::lemma_encode_concat(hex_text(front), pair);
        let e = encode_utf8(hex_text(b));
        assert(e =~= encode_utf8(hex_text(front)) + bytes);
        assert forall|i: int| 0 <= i < b.len() implies nibble_value(e[2 * i]) == Some(
            #[trigger] b[i] as int / 16,
        ) && nibble_value(e[2 * i + 1]) == Some(b[i] as int % 16) by {
            if i < front.len() {
                assert(front[i] == b[i]);
                assert(e[2 * i] == encode_utf8(hex_text(front))[2 * i]);
                assert(e[2 * i + 1] == encode_utf8(hex_text(front))[2 * i + 1]);
            } else {
                assert(e[2 * i] == bytes[0] && e[2 * i + 1] == bytes[1]);
            }
        }
    }
}

proof fn lemma_hex_pairs_read_back(b: Seq<u8>, n: int)
    requires
        0 <= n <= b.len(),
    ensures
        hex_pairs(encode_utf8(hex_text(b)), n) == Ok::<Seq<u8>, Seq<char>>(b.take(n)),
    decreases n,
{
    if n > 0 {
        lemma_hex_pairs_read_back(b, n - 1);
        lemma_hex_bytes(b);
        let e = encode_utf8(hex_text(b));
        let x = b[n - 1] as int;
        assert(nibble_value(e[2 * (n - 1)]) == Some(x / 16));
        assert(2 * (n - 1) == 2 * n - 2 && 2 * (n - 1) + 1 == 2 * n - 1);
        assert(b.take(n) =~= b.take(n - 1).push(b[n - 1]));
    } else {
        assert(b.take(0) =~= Seq::empty());
    }
}

/// The SHA-256 digest of some bytes.
pub fn sha256(data: &[u8]) -> (r: [u8; 32])
    ensures
        r@ == sha256_of(data@),
{
    sha256_digest(data)
}

/// The HMAC-SHA-256 tag of some bytes under a key.
pub fn hmac_sha256(key: &[u8], data: &[u8]) -> (r: [u8; 32])
    ensures
        r@ == hmac_of(key@, data@),
{
    hmac_tag(key, data)
}

/// Whether two byte strings are equal, looking at every byte whatever the others were.
pub fn ct_eq(a: &[u8], b: &[u8]) -> (r: bool)
    ensures
        r == (a@ == b@),
{
    if a.len() != b.len() {
        return false;
    }
    let mut difference: u8 = 0;
    let mut i: usize = 0;
    while i < a.len()
        invariant
            0 <= i <= a@.len(),
            a@.len() == b@.len(),
            difference == 0 <==> a@.take(i as int) =~= b@.take(i as int),
        decreases a@.len() - i,
    {
        let x: u8 = a[i];
        let y: u8 = b[i];
        proof {
            assert((difference | (x ^ y)) == 0 <==> (difference == 0 && x == y)) by (bit_vector);
            assert(a@.take(i + 1) =~= a@.take(i as int).push(x));
            assert(b@.take(i + 1) =~= b@.take(i as int).push(y));
            if a@.take(i + 1) =~= b@.take(i + 1) {
                assert(a@.take(i as int) =~= a@.take(i + 1).take(i as int));
                assert(b@.take(i as int) =~= b@.take(i + 1).take(i as int));
                assert(a@.take(i + 1)[i as int] == x && b@.take(i + 1)[i as int] == y);
            }
        }
        difference = difference | (x ^ y);
        i = i + 1;
    }
    assert(a@.take(i as int) =~= a@);
    assert(b@.take(i as int) =~= b@);
    difference == 0
}

/// A number as eight bytes, the highest first.
pub open spec fn be8(n: u64) -> Seq<u8> {
    seq![
        (n / 0x100_0000_0000_0000) as u8,
        (n / 0x1_0000_0000_0000 % 256) as u8,
        (n / 0x100_0000_0000 % 256) as u8,
        (n / 0x1_0000_0000 % 256) as u8,
        (n / 0x100_0000 % 256) as u8,
        (n / 0x1_0000 % 256) as u8,
        (n / 0x100 % 256) as u8,
        (n % 256) as u8,
    ]
}

/// Different numbers have different bytes.
pub proof fn lemma_be8_tells_apart(a: u64, b: u64)
    requires
        be8(a) == be8(b),
    ensures
        a == b,
{
    let x = be8(a);
    let y = be8(b);
    assert(x[0] == y[0] && x[1] == y[1] && x[2] == y[2] && x[3] == y[3]);
    assert(x[4] == y[4] && x[5] == y[5] && x[6] == y[6] && x[7] == y[7]);
    assert(a == b) by (bit_vector)
        requires
            a / 0x100_0000_0000_0000u64 == b / 0x100_0000_0000_0000u64,
            a / 0x1_0000_0000_0000u64 % 256u64 == b / 0x1_0000_0000_0000u64 % 256u64,
            a / 0x100_0000_0000u64 % 256u64 == b / 0x100_0000_0000u64 % 256u64,
            a / 0x1_0000_0000u64 % 256u64 == b / 0x1_0000_0000u64 % 256u64,
            a / 0x100_0000u64 % 256u64 == b / 0x100_0000u64 % 256u64,
            a / 0x1_0000u64 % 256u64 == b / 0x1_0000u64 % 256u64,
            a / 0x100u64 % 256u64 == b / 0x100u64 % 256u64,
            a % 256u64 == b % 256u64,
    ;
}

/// Appends a number as eight bytes, the highest first.
pub fn push_be8(out: &mut Vec<u8>, n: u64)
    ensures
        final(out)@ == old(out)@ + be8(n),
{
    out.push((n / 0x100_0000_0000_0000) as u8);
    out.push((n / 0x1_0000_0000_0000 % 256) as u8);
    out.push((n / 0x100_0000_0000 % 256) as u8);
    out.push((n / 0x1_0000_0000 % 256) as u8);
    out.push((n / 0x100_0000 % 256) as u8);
    out.push((n / 0x1_0000 % 256) as u8);
    out.push((n / 0x100 % 256) as u8);
    out.push((n % 256) as u8);
    assert(out@ =~= old(out)@ + be8(n));
}

/// Appends bytes.
pub fn push_bytes(out: &mut Vec<u8>, more: &[u8])
    ensures
        final(out)@ == old(out)@ + more@,
{
    let mut i: usize = 0;
    assert(out@ =~= old(out)@ + more@.take(0));
    while i < more.len()
        invariant
            0 <= i <= more@.len(),
            out@ == old(out)@ + more@.take(i as int),
        decreases more@.len() - i,
    {
        out.push(more[i]);
        i = i + 1;
        assert(out@ =~= old(out)@ + more@.take(i as int));
    }
    assert(more@.take(i as int) =~= more@);
}

/// Appends the UTF-8 bytes of a text.
pub fn push_text(out: &mut Vec<u8>, more: &str)
    ensures
        final(out)@ == old(out)@ + encode_utf8(more@),
{
    push_bytes(out, more.as_bytes());
}

/// The first `n` bytes.
pub fn first_bytes(b: &[u8], n: usize) -> (r: Vec<u8>)
    requires
        n <= b@.len(),
    ensures
        r@ == b@.take(n as int),
{
    let mut out: Vec<u8> = Vec::new();
    let part: &[u8] = vstd::slice::slice_subrange(b, 0, n);
    push_bytes(&mut out, part);
    assert(out@ =~= b@.take(n as int));
    out
}

/// The output blocks of HKDF (RFC 5869): each is the tag of the one before it, the info and
/// its own number.
pub open spec fn hkdf_block(prk: Seq<u8>, info: Seq<u8>, n: int) -> Seq<u8>
    decreases n,
{
    if n <= 0 {
        seq![]
    } else {
        hmac_of(prk, hkdf_block(prk, info, n - 1) + info + seq![n as u8])
    }
}

/// The first `n` output blocks of HKDF, one behind the other.
pub open spec fn hkdf_blocks(prk: Seq<u8>, info: Seq<u8>, n: int) -> Seq<u8>
    decreases n,
{
    if n <= 0 {
        seq![]
    } else {
        hkdf_blocks(prk, info, n - 1) + hkdf_block(prk, info, n)
    }
}

/// `len` bytes of key material by HKDF with SHA-256.
pub open spec fn hkdf_of(salt: Seq<u8>, ikm: Seq<u8>, info: Seq<u8>, len: int) -> Seq<u8> {
    hkdf_blocks(hmac_of(salt, ikm), info, (len + 31) / 32).take(len)
}

/// Derives key material by HKDF with SHA-256.
pub fn hkdf(salt: &[u8], ikm: &[u8], info: &[u8], len: usize) -> (r: Vec<u8>)
    requires
        len <= 8160,
    ensures
        r@ == hkdf_of(salt@, ikm@, info@, len as int),
        r@.len() == len,
{
    let prk: [u8; 32] = hmac_sha256(salt, ikm);
    let count: usize = (len + 31) / 32;
    let mut out: Vec<u8> = Vec::new();
    let mut block: Vec<u8> = Vec::new();
    let mut n: usize = 0;
    assert(out@ =~= hkdf_blocks(prk@, info@, 0));
    assert(block@ =~= hkdf_block(prk@, info@, 0));
    while n < count
        invariant
            0 <= n <= count <= 255,
            prk@ == hmac_of(salt@, ikm@),
            block@ == hkdf_block(prk@, info@, n as int),
            out@ == hkdf_blocks(prk@, info@, n as int),
            out@.len() == 32 * n,
        decreases count - n,
    {
        let mut input: Vec<u8> = Vec::new();
        push_bytes(&mut input, block.as_slice());
        push_bytes(&mut input, info);
        input.push((n + 1) as u8);
        proof {
            assert(input@ =~= block@ + info@ + seq![(n + 1) as u8]);
        }
        let tag: [u8; 32] = hmac_sha256(&prk, input.as_slice());
        block = Vec::new();
        push_bytes(&mut block, &tag);
        assert(block@ =~= tag@);
        push_bytes(&mut out, &tag);
        n = n + 1;
    }
    first_bytes(out.as_slice(), len)
}

/// The first 32 bytes as an array.
fn array32(b: &[u8]) -> (r: [u8; 32])
    requires
        b@.len() == 32,
    ensures
        r@ == b@,
{
    let mut out: [u8; 32] = [0u8;32];
    let mut i: usize = 0;
    while i < 32
        invariant
            0 <= i <= 32,
            b@.len() == 32,
            forall|k: int| 0 <= k < i ==> out@[k] == b@[k],
        decreases 32 - i,
    {
        out[i] = b[i];
        i = i + 1;
    }
    assert(out@ =~= b@);
    out
}

/// The first 12 bytes as an array.
fn array12(b: &[u8]) -> (r: [u8; 12])
    requires
        b@.len() == 12,
    ensures
        r@ == b@,
{
    let mut out: [u8; 12] = [0u8;12];
    let mut i: usize = 0;
    while i < 12
        invariant
            0 <= i <= 12,
            b@.len() == 12,
            forall|k: int| 0 <= k < i ==> out@[k] == b@[k],
        decreases 12 - i,
    {
        out[i] = b[i];
        i = i + 1;
    }
    assert(out@ =~= b@);
    out
}

/// The local master key. Every derived key follows from it.
pub struct MasterKey {
    key: [u8; 32],
}

impl View for MasterKey {
    type V = Seq<u8>;

    closed spec fn view(&self) -> Seq<u8> {
        self.key@
    }
}

impl Clone for MasterKey {
    fn clone(&self) -> (r: Self)
        ensures
            r@ == self@,
    {
        MasterKey { key: self.key }
    }
}

/// The key that tokens of a tenant are derived with.
pub open spec fn tenant_key_of(master: Seq<u8>, tenant: Seq<char>) -> Seq<u8> {
    hmac_of(master, encode_utf8("masking-room/tenant/v1/"@ + tenant))
}

/// The key that data of a generation are encrypted with.
pub open spec fn enc_key_of(master: Seq<u8>, gen: u64) -> Seq<u8> {
    hmac_of(master, encode_utf8("masking-room/enc/v1/gen/"@ + text::dec(gen as nat)))
}

/// What a decryption gives: the plaintext, or why there is none.
pub open spec fn decrypted(key: Seq<u8>, nonce: Seq<u8>, ct: Seq<u8>) -> Result<
    Seq<u8>,
    Seq<char>,
> {
    if nonce.len() != 12 {
        Err("nonce 长度必须为 12 字节"@)
    } else {
        match opened(key, nonce, seq![], ct) {
            Some(p) => Ok(p),
            None => Err("密文校验失败（数据被篡改或代次不符）"@),
        }
    }
}

impl MasterKey {
    /// Draws a new master key: its bytes are those that came from the operating system.
    pub fn generate() -> (r: Self)
        ensures
            r@.len() == 32,
            may_be_drawn(r@),
    {
        let bytes: Vec<u8> = drawn_bytes(32);
        MasterKey::from_bytes(array32(bytes.as_slice()))
    }

    /// The master key with the given bytes.
    pub fn from_bytes(k: [u8; 32]) -> (r: Self)
        ensures
            r@ == k@,
    {
        MasterKey { key: k }
    }

    /// The master key with the given bytes in hexadecimal.
    pub fn from_hex(s: &str) -> (r: Result<Self, String>)
        ensures
            match unhexed(s@) {
                Ok(b) => if b.len() == 32 {
                    r is Ok && r->Ok_0@ == b
                } else {
                    r is Err && r->Err_0@ == "主密钥必须为 32 字节（64 个 hex 字符）"@
                },
                Err(e) => r is Err && r->Err_0@ == e,
            },
    {
        let v: Vec<u8> = match hex_decode(s) {
            Ok(v) => v,
            Err(e) => {
                return Err(e);
            },
        };
        if v.len() != 32 {
            return Err("主密钥必须为 32 字节（64 个 hex 字符）".to_string());
        }
        Ok(MasterKey { key: array32(v.as_slice()) })
    }

    /// The master key in hexadecimal.
    pub fn to_hex(&self) -> (r: String)
        ensures
            r@ == hex_text(self@),
    {
        hex_encode(&self.key)
    }

    fn derive(&self, label: &str) -> (r: [u8; 32])
        ensures
            r@ == hmac_of(self@, encode_utf8(label@)),
    {
        hmac_sha256(&self.key, label.as_bytes())
    }

    /// The key of a tenant. Tokens are derived with it, so that different tenants get different
    /// tokens for the same text.
    pub fn tenant_key(&self, tenant: &str) -> (r: [u8; 32])
        ensures
            r@ == tenant_key_of(self@, tenant@),
    {
        let mut label: String = "masking-room/tenant/v1/".to_string();
        label.append(tenant);
        self.derive(label.as_str())
    }

    fn enc_key(&self, gen: u64) -> (r: [u8; 32])
        ensures
            r@ == enc_key_of(self@, gen),
    {
        let mut label: String = "masking-room/enc/v1/gen/".to_string();
        text::push_decimal(&mut label, gen);
        self.derive(label.as_str())
    }

    /// Encrypts under the key of a generation and a given nonce.
    pub fn encrypt_with(&self, gen: u64, nonce: &[u8; 12], plaintext: &[u8]) -> (r: Vec<u8>)
        requires
            plaintext@.len() <= SEAL_LIMIT,
        ensures
            r@ == sealed(enc_key_of(self@, gen), nonce@, seq![], plaintext@),
            decrypted(enc_key_of(self@, gen), nonce@, r@) == Ok::<Seq<u8>, Seq<char>>(plaintext@),
    {
        let key: [u8; 32] = self.enc_key(gen);
        let none: [u8; 0] = [];
        assert(none@ =~= Seq::empty());
        aes_seal(&key, nonce, &none, plaintext)
    }

    /// Encrypts under the key of a generation and a fresh nonce. Decryption with the same
    /// generation and nonce gives the plaintext back.
    pub fn encrypt(&self, gen: u64, plaintext: &[u8]) -> (r: ([u8; 12], Vec<u8>))
        requires
            plaintext@.len() <= SEAL_LIMIT,
        ensures
            may_be_drawn(r.0@),
            r.1@ == sealed(enc_key_of(self@, gen), r.0@, seq![], plaintext@),
            decrypted(enc_key_of(self@, gen), r.0@, r.1@) == Ok::<Seq<u8>, Seq<char>>(
                plaintext@,
            ),
    {
        let nonce: [u8; 12] = fresh_nonce();
        let ct: Vec<u8> = self.encrypt_with(gen, &nonce, plaintext);
        (nonce, ct)
    }

    /// Decrypts under the key of a generation.
    pub fn decrypt(&self, gen: u64, nonce: &[u8], ct: &[u8]) -> (r: Result<Vec<u8>, String>)
        ensures
            match decrypted(enc_key_of(self@, gen), nonce@, ct@) {
                Ok(p) => r is Ok && r->Ok_0@ == p,
                Err(e) => r is Err && r->Err_0@ == e,
            },
    {
        if nonce.len() != 12 {
            return Err("nonce 长度必须为 12 字节".to_string());
        }
        let key: [u8; 32] = self.enc_key(gen);
        let none: [u8; 0] = [];
        assert(none@ =~= Seq::empty());
        match aes_open(&key, &array12(nonce), &none, ct) {
            Some(p) => Ok(p),
            None => Err("密文校验失败（数据被篡改或代次不符）".to_string()),
        }
    }
}

/// A master key has thirty-two bytes, and its hexadecimal text stands for it.
pub proof fn lemma_master_key_reads_back(k: MasterKey)
    ensures
        k@.len() == 32,
        unhexed(hex_text(k@)) == Ok::<Seq<u8>, Seq<char>>(k@),
{
    lemma_hex_reads_back(k@);
}

/// Every byte is a hexadecimal digit.
pub open spec fn all_hex(b: Seq<u8>) -> bool {
    forall|i: int| 0 <= i < b.len() ==> nibble_value(#[trigger] b[i]) is Some
}

/// A character in lower case, if it is a letter of the ASCII alphabet.
pub open spec fn lower(c: char) -> char {
    if 'A' <= c <= 'Z' {
        (c as u32 + 32) as char
    } else {
        c
    }
}

/// A text with the letters of the ASCII alphabet in lower case.
pub open spec fn lowered(s: Seq<char>) -> Seq<char> {
    s.map_values(|c: char| lower(c))
}

proof fn lemma_pairs_are_digits(b: Seq<u8>, n: int)
    requires
        0 <= 2 * n <= b.len(),
    ensures
        hex_pairs(b, n) is Ok <==> all_hex(b.take(2 * n)),
        hex_pairs(b, n) is Ok ==> hex_pairs(b, n)->Ok_0.len() == n && hex_text(
            hex_pairs(b, n)->Ok_0,
        ) == lowered(text::ascii(b.take(2 * n))),
    decreases n,
{
    if n > 0 {
        lemma_pairs_are_digits(b, n - 1);
        let front = b.take(2 * n - 2);
        let whole = b.take(2 * n);
        let x = b[2 * n - 2];
        let y = b[2 * n - 1];
        assert(whole =~= front.push(x).push(y));
        assert(whole[2 * n - 2] == x && whole[2 * n - 1] == y);
        if all_hex(whole) {
            assert forall|i: int| 0 <= i < front.len() implies nibble_value(
                #[trigger] front[i],
            ) is Some by {
                assert(whole[i] == front[i]);
            }
            let high = nibble_value(x)->0;
            let low = nibble_value(y)->0;
            let done = hex_pairs(b, n - 1)->Ok_0;
            let v = (high * 16 + low) as u8;
            assert(done.push(v).drop_last() =~= done);
            assert(v as int / 16 == high && v as int % 16 == low);
            assert(nibble(high) == lower(x as char));
            assert(nibble(low) == lower(y as char));
            assert(hex_text(done.push(v)) =~= lowered(text::ascii(whole)));
        } else if hex_pairs(b, n) is Ok {
            assert forall|i: int| 0 <= i < whole.len() implies nibble_value(
                #[trigger] whole[i],
            ) is Some by {
                if i < front.len() {
                    assert(front[i] == whole[i]);
                }
            }
        }
    } else {
        assert(lowered(text::ascii(b.take(0))) =~= hex_text(seq![]));
    }
}

/// A text stands for a master key exactly if it is made of sixty-four hexadecimal digits, in
/// either case; the key is written as the same text in lower case.
pub proof fn lemma_texts_of_master_keys(s: Seq<char>)
    ensures
        (unhexed(s) is Ok && unhexed(s)->Ok_0.len() == 32) <==> (encode_utf8(s).len() == 64
            && all_hex(encode_utf8(s))),
        unhexed(s) is Ok ==> hex_text(unhexed(s)->Ok_0) == lowered(s),
{
    let b = encode_utf8(s);
    if b.len() % 2 == 0 {
        let n = b.len() as int / 2;
        lemma_pairs_are_digits(b, n);
        assert(b.take(2 * n) =~= b);
        if all_hex(b) {
            let a = text::ascii(b);
            assert forall|i: int| 0 <= i < a.len() implies (#[trigger] b[i]) < 0x80 && a[i]
                == b[i] as char by {
                assert(nibble_value(b[i]) is Some);
            }
            text::lemma_encode_ascii(a, b);
            text::lemma_encoding_is_injective(a, s);
        }
    }
}

/// Bytes as base64 text.
pub fn b64e(data: &[u8]) -> (r: String)
    ensures
        r@ == b64::encoded(data@),
{
    b64::encode(data)
}

/// The data key of one generation.
#[derive(Debug)]
pub struct GenKey {
    pub id: u32,
    pub key_b64: String,
}

impl Clone for GenKey {
    fn clone(&self) -> (r: Self)
        ensures
            r == *self,
    {
        GenKey { id: self.id, key_b64: self.key_b64.clone() }
    }
}

/// The keys of a room: the master key, and one data key for each generation.
pub struct KeyFile {
    pub master: [u8; 32],
    pub generations: Vec<GenKey>,
}

/// The 32 bytes that a base64 text stands for.
pub open spec fn key_bytes(s: Seq<char>) -> Option<Seq<u8>> {
    match b64::decoded(s) {
        Some(b) => if b.len() == 32 {
            Some(b)
        } else {
            None
        },
        None => None,
    }
}

/// The key of the first generation with the id.
pub open spec fn generation_key(gens: Seq<GenKey>, id: u32) -> Option<Seq<u8>>
    decreases gens.len(),
{
    if gens.len() == 0 {
        None
    } else if exists|i: int| 0 <= i < gens.len() - 1 && (#[trigger] gens[i]).id == id {
        generation_key(gens.drop_last(), id)
    } else if gens.last().id == id {
        key_bytes(gens.last().key_b64@)
    } else {
        None
    }
}

/// The highest id of a generation.
pub open spec fn top_id(gens: Seq<GenKey>) -> int
    decreases gens.len(),
{
    if gens.len() == 0 {
        0
    } else if gens.last().id > top_id(gens.drop_last()) {
        gens.last().id as int
    } else {
        top_id(gens.drop_last())
    }
}

proof fn lemma_top_id(gens: Seq<GenKey>)
    ensures
        0 <= top_id(gens) <= u32::MAX,
        forall|i: int| 0 <= i < gens.len() ==> (#[trigger] gens[i]).id <= top_id(gens),
    decreases gens.len(),
{
    if gens.len() > 0 {
        lemma_top_id(gens.drop_last());
        assert forall|i: int| 0 <= i < gens.len() implies (#[trigger] gens[i]).id <= top_id(
            gens,
        ) by {
            if i < gens.len() - 1 {
                assert(gens.drop_last()[i] == gens[i]);
            }
        }
    }
}

/// A generation behind the first one with an id does not change its key.
pub proof fn lemma_generation_key_extends(gens: Seq<GenKey>, n: int, id: u32)
    requires
        0 < n <= gens.len(),
        gens[n - 1].id == id,
        forall|i: int| 0 <= i < n - 1 ==> (#[trigger] gens[i]).id != id,
    ensures
        generation_key(gens, id) == key_bytes(gens[n - 1].key_b64@),
    decreases gens.len(),
{
    if n < gens.len() {
        assert(gens[n - 1].id == id);
        let front = gens.drop_last();
        assert(front[n - 1] == gens[n - 1]);
        assert forall|i: int| 0 <= i < n - 1 implies (#[trigger] front[i]).id != id by {
            assert(front[i] == gens[i]);
        }
        lemma_generation_key_extends(front, n, id);
    }
}

pub proof fn lemma_no_generation(gens: Seq<GenKey>, id: u32)
    requires
        forall|i: int| 0 <= i < gens.len() ==> (#[trigger] gens[i]).id != id,
    ensures
        generation_key(gens, id) is None,
{
}

/// There is no generation behind the highest one.
pub proof fn lemma_next_generation_is_free(gens: Seq<GenKey>, id: u32)
    requires
        id > top_id(gens),
    ensures
        generation_key(gens, id) is None,
{
    lemma_top_id(gens);
    lemma_no_generation(gens, id);
}

/// A new generation leaves the keys of the others as they are.
pub proof fn lemma_new_generation_keeps_keys(gens: Seq<GenKey>, new: GenKey, id: u32)
    requires
        id != new.id,
    ensures
        generation_key(gens.push(new), id) == generation_key(gens, id),
{
    let all = gens.push(new);
    assert(all.drop_last() =~= gens);
    if exists|i: int| 0 <= i < gens.len() && (#[trigger] gens[i]).id == id {
        let i = choose|i: int| 0 <= i < gens.len() && (#[trigger] gens[i]).id == id;
        assert(all[i].id == id);
    } else {
        lemma_no_generation(gens, id);
        assert forall|i: int| 0 <= i < all.len() implies (#[trigger] all[i]).id != id by {
            if i < gens.len() {
                assert(all[i] == gens[i]);
            }
        }
        lemma_no_generation(all, id);
    }
}

impl KeyFile {
    /// Draws a master key and the key of the first generation: its bytes come behind those of
    /// the master key in one draw.
    pub fn generate() -> (r: Self)
        ensures
            r.generations@.len() == 1,
            r.generations@[0].id == 1,
            top_id(r.generations@) == 1,
            generation_key(r.generations@, 1) is Some,
            may_be_drawn(r.master@ + generation_key(r.generations@, 1)->0),
    {
        let bytes: Vec<u8> = drawn_bytes(64);
        let master: [u8; 32] = array32(vstd::slice::slice_subrange(bytes.as_slice(), 0, 32));
        let first: [u8; 32] = array32(vstd::slice::slice_subrange(bytes.as_slice(), 32, 64));
        assert(master@ + first@ =~= bytes@);
        KeyFile::deterministic(master, first)
    }

    /// The keys with the given bytes.
    pub fn deterministic(master: [u8; 32], gen: [u8; 32]) -> (r: Self)
        ensures
            r.master@ == master@,
            r.generations@.len() == 1,
            r.generations@[0].id == 1,
            top_id(r.generations@) == 1,
            r.generations@[0].key_b64@ == b64::encoded(gen@),
            generation_key(r.generations@, 1) == Some(gen@),
    {
        proof {
            b64::lemma_decode_inverts_encode(gen@);
        }
        let mut generations: Vec<GenKey> = Vec::new();
        generations.push(GenKey { id: 1, key_b64: b64e(&gen) });
        proof {
            lemma_generation_key_extends(generations@, 1, 1);
            assert(top_id(generations@.drop_last()) == 0);
        }
        KeyFile { master, generations }
    }

    /// The master key.
    pub fn master(&self) -> (r: [u8; 32])
        ensures
            r@ == self.master@,
    {
        self.master
    }

    /// The key of a generation, if there is one and it is well-formed.
    pub fn key_for(&self, gen: u32) -> (r: Option<[u8; 32]>)
        ensures
            match generation_key(self.generations@, gen) {
                Some(b) => r is Some && r->0@ == b,
                None => r is None,
            },
    {
        let mut i: usize = 0;
        while i < self.generations.len()
            invariant
                0 <= i <= self.generations@.len(),
                forall|k: int| 0 <= k < i ==> (#[trigger] self.generations@[k]).id != gen,
            decreases self.generations@.len() - i,
        {
            if self.generations[i].id == gen {
                proof {
                    lemma_generation_key_extends(self.generations@, i + 1, gen);
                }
                return match b64::decode(self.generations[i].key_b64.as_str()) {
                    Some(b) => if b.len() == 32 {
                        Some(array32(b.as_slice()))
                    } else {
                        None
                    },
                    None => None,
                };
            }
            i = i + 1;
        }
        proof {
            lemma_no_generation(self.generations@, gen);
        }
        None
    }

    /// Adds a generation with the given key under the id behind the highest one.
    pub fn add_generation_with(&mut self, key: [u8; 32]) -> (r: u32)
        requires
            top_id(old(self).generations@) < u32::MAX,
        ensures
            r == top_id(old(self).generations@) + 1,
            final(self).master@ == old(self).master@,
            final(self).generations@ == old(self).generations@.push(
                final(self).generations@.last(),
            ),
            final(self).generations@.last().id == r,
            top_id(final(self).generations@) == r,
            final(self).generations@.last().key_b64@ == b64::encoded(key@),
            generation_key(final(self).generations@, r) == Some(key@),
            forall|id: u32|
                id != r ==> #[trigger] generation_key(final(self).generations@, id)
                    == generation_key(old(self).generations@, id),
    {
        let ghost before = self.generations@;
        let mut top: u32 = 0;
        let mut i: usize = 0;
        while i < self.generations.len()
            invariant
                0 <= i <= self.generations@.len(),
                top == top_id(self.generations@.take(i as int)),
            decreases self.generations@.len() - i,
        {
            proof {
                assert(self.generations@.take(i + 1).drop_last() =~= self.generations@.take(
                    i as int,
                ));
            }
            if self.generations[i].id > top {
                top = self.generations[i].id;
            }
            i = i + 1;
        }
        proof {
            assert(self.generations@.take(i as int) =~= self.generations@);
            b64::lemma_decode_inverts_encode(key@);
        }
        let entry: GenKey = GenKey { id: top + 1, key_b64: b64e(&key) };
        self.generations.push(entry);
        proof {
            lemma_top_id(before);
            assert forall|k: int| 0 <= k < before.len() implies (
            #[trigger] self.generations@[k]).id != entry.id by {
                assert(self.generations@[k] == before[k]);
            }
            lemma_generation_key_extends(
                self.generations@,
                self.generations@.len() as int,
                entry.id,
            );
            assert(self.generations@.drop_last() =~= before);
            assert forall|id: u32| id != entry.id implies #[trigger] generation_key(
                self.generations@,
                id,
            ) == generation_key(before, id) by {
                lemma_new_generation_keeps_keys(before, entry, id);
            }
        }
        top + 1
    }

    /// Adds a generation with a fresh key under the id behind the highest one.
    pub fn add_generation(&mut self) -> (r: u32)
        requires
            top_id(old(self).generations@) < u32::MAX,
        ensures
            r == top_id(old(self).generations@) + 1,
            final(self).master@ == old(self).master@,
            final(self).generations@ == old(self).generations@.push(
                final(self).generations@.last(),
            ),
            final(self).generations@.last().id == r,
            top_id(final(self).generations@) == r,
            generation_key(final(self).generations@, r) is Some,
            may_be_drawn(generation_key(final(self).generations@, r)->0),
            forall|id: u32|
                id != r ==> #[trigger] generation_key(final(self).generations@, id)
                    == generation_key(old(self).generations@, id),
    {
        let key: Vec<u8> = drawn_bytes(32);
        self.add_generation_with(array32(key.as_slice()))
    }
}

/// The length of a text in bytes.
pub open spec fn byte_len(s: Seq<char>) -> u64 {
    encode_utf8(s).len() as u64
}

/// What a token id is derived from, beside the tenant: each text goes with its length.
pub open spec fn token_input(
    rule_id: Seq<char>,
    version: u32,
    matched: Seq<char>,
    salt: Seq<u8>,
) -> Seq<u8> {
    be8(byte_len(rule_id)) + encode_utf8(rule_id) + be8(version as u64) + be8(byte_len(matched))
        + encode_utf8(matched) + salt
}

/// The token id that some bytes of a tenant are made into: the first sixteen bytes of their tag
/// under the key of the tenant, as base64 text.
pub open spec fn id_from(master: Seq<u8>, tenant: Seq<char>, input: Seq<u8>) -> Seq<char> {
    b64::encoded(hmac_of(tenant_key_of(master, tenant), input).take(16))
}

/// The id of the token for a fragment: the same tenant, rule, rule version and text give the
/// same id, unless a salt is mixed in.
pub open spec fn token_id_of(
    master: Seq<u8>,
    tenant: Seq<char>,
    rule_id: Seq<char>,
    version: u32,
    matched: Seq<char>,
    salt: Seq<u8>,
) -> Seq<char> {
    id_from(master, tenant, token_input(rule_id, version, matched, salt))
}

/// Two different pairs of a key and some bytes have the same first sixteen bytes of their tags.
pub open spec fn tags_clash(key: Seq<u8>, data: Seq<u8>, key2: Seq<u8>, data2: Seq<u8>) -> bool {
    !(key == key2 && data == data2) && hmac_of(key, data).take(16) == hmac_of(key2, data2).take(
        16,
    )
}

/// What the key of a tenant is derived from.
pub open spec fn tenant_label(tenant: Seq<char>) -> Seq<u8> {
    encode_utf8("masking-room/tenant/v1/"@ + tenant)
}

proof fn lemma_different_tags_different_ids(
    key: Seq<u8>,
    data: Seq<u8>,
    key2: Seq<u8>,
    data2: Seq<u8>,
)
    requires
        !(key == key2 && data == data2),
        !tags_clash(key, data, key2, data2),
    ensures
        b64::encoded(hmac_of(key, data).take(16)) != b64::encoded(hmac_of(key2, data2).take(16)),
{
    b64::lemma_decode_inverts_encode(hmac_of(key, data).take(16));
    b64::lemma_decode_inverts_encode(hmac_of(key2, data2).take(16));
}

/// Different tenants get different tokens for the same text, and for different ones too, unless
/// the tags that their keys or the tokens are made of clash.
pub proof fn lemma_tenants_get_different_ids(
    master: Seq<u8>,
    tenant: Seq<char>,
    tenant2: Seq<char>,
    input: Seq<u8>,
    input2: Seq<u8>,
)
    requires
        tenant != tenant2,
        !tags_clash(master, tenant_label(tenant), master, tenant_label(tenant2)),
        !tags_clash(
            tenant_key_of(master, tenant),
            input,
            tenant_key_of(master, tenant2),
            input2,
        ),
    ensures
        id_from(master, tenant, input) != id_from(master, tenant2, input2),
{
    let head = "masking-room/tenant/v1/"@;
    if tenant_label(tenant) == tenant_label(tenant2) {
        text::lemma_encoding_is_injective(head + tenant, head + tenant2);
        assert((head + tenant).skip(head.len() as int) =~= tenant);
        assert((head + tenant2).skip(head.len() as int) =~= tenant2);
    }
    lemma_different_tags_different_ids(
        tenant_key_of(master, tenant),
        input,
        tenant_key_of(master, tenant2),
        input2,
    );
}

/// What is mixed in makes a difference: two salts give the same text of the same tenant two
/// different tokens, unless their tags clash.
pub proof fn lemma_salts_give_different_ids(
    master: Seq<u8>,
    tenant: Seq<char>,
    rule_id: Seq<char>,
    version: u32,
    matched: Seq<char>,
    salt: Seq<u8>,
    salt2: Seq<u8>,
)
    requires
        salt != salt2,
        !tags_clash(
            tenant_key_of(master, tenant),
            token_input(rule_id, version, matched, salt),
            tenant_key_of(master, tenant),
            token_input(rule_id, version, matched, salt2),
        ),
    ensures
        token_id_of(master, tenant, rule_id, version, matched, salt) != token_id_of(
            master,
            tenant,
            rule_id,
            version,
            matched,
            salt2,
        ),
{
    let front = token_input(rule_id, version, matched, seq![]);
    let one = token_input(rule_id, version, matched, salt);
    let two = token_input(rule_id, version, matched, salt2);
    assert(one.skip(front.len() as int) =~= salt);
    assert(two.skip(front.len() as int) =~= salt2);
    lemma_different_tags_different_ids(
        tenant_key_of(master, tenant),
        one,
        tenant_key_of(master, tenant),
        two,
    );
}

proof fn lemma_number_in_front(a: u64, rest: Seq<u8>, b: u64, rest2: Seq<u8>)
    requires
        be8(a) + rest == be8(b) + rest2,
    ensures
        a == b,
        rest == rest2,
{
    let x = be8(a) + rest;
    let y = be8(b) + rest2;
    assert(x.take(8) =~= be8(a));
    assert(y.take(8) =~= be8(b));
    assert(x.skip(8) =~= rest);
    assert(y.skip(8) =~= rest2);
    lemma_be8_tells_apart(a, b);
}

proof fn lemma_text_in_front(s: Seq<char>, rest: Seq<u8>, t: Seq<char>, rest2: Seq<u8>)
    requires
        encode_utf8(s).len() <= u64::MAX,
        encode_utf8(t).len() <= u64::MAX,
        be8(byte_len(s)) + encode_utf8(s) + rest == be8(byte_len(t)) + encode_utf8(t) + rest2,
    ensures
        s == t,
        rest == rest2,
{
    let x = encode_utf8(s) + rest;
    let y = encode_utf8(t) + rest2;
    assert(be8(byte_len(s)) + encode_utf8(s) + rest =~= be8(byte_len(s)) + x);
    assert(be8(byte_len(t)) + encode_utf8(t) + rest2 =~= be8(byte_len(t)) + y);
    lemma_number_in_front(byte_len(s), x, byte_len(t), y);
    let n = encode_utf8(s).len() as int;
    assert(x.take(n) =~= encode_utf8(s));
    assert(y.take(n) =~= encode_utf8(t));
    assert(x.skip(n) =~= rest);
    assert(y.skip(n) =~= rest2);
    text::lemma_encoding_is_injective(s, t);
}

proof fn lemma_regroup(
    a: Seq<u8>,
    b: Seq<u8>,
    c: Seq<u8>,
    d: Seq<u8>,
    e: Seq<u8>,
    f: Seq<u8>,
)
    ensures
        a + b + c + d + e + f == a + b + (c + (d + e + f)),
{
    assert(a + b + c + d + e + f =~= a + b + (c + (d + e + f)));
}

/// The bytes that a token id is derived from tell the rule, its version, the text and the salt:
/// two fragments are derived from the same bytes only if they agree in all of these.
pub proof fn lemma_token_input_tells_apart(
    rule_id: Seq<char>,
    version: u32,
    matched: Seq<char>,
    salt: Seq<u8>,
    rule_id2: Seq<char>,
    version2: u32,
    matched2: Seq<char>,
    salt2: Seq<u8>,
)
    requires
        encode_utf8(rule_id).len() <= u64::MAX,
        encode_utf8(rule_id2).len() <= u64::MAX,
        encode_utf8(matched).len() <= u64::MAX,
        encode_utf8(matched2).len() <= u64::MAX,
        token_input(rule_id, version, matched, salt) == token_input(
            rule_id2,
            version2,
            matched2,
            salt2,
        ),
    ensures
        rule_id == rule_id2,
        version == version2,
        matched == matched2,
        salt == salt2,
{
    let more = be8(byte_len(matched)) + encode_utf8(matched) + salt;
    let more2 = be8(byte_len(matched2)) + encode_utf8(matched2) + salt2;
    lemma_regroup(
        be8(byte_len(rule_id)),
        encode_utf8(rule_id),
        be8(version as u64),
        be8(byte_len(matched)),
        encode_utf8(matched),
        salt,
    );
    lemma_regroup(
        be8(byte_len(rule_id2)),
        encode_utf8(rule_id2),
        be8(version2 as u64),
        be8(byte_len(matched2)),
        encode_utf8(matched2),
        salt2,
    );
    lemma_text_in_front(rule_id, be8(version as u64) + more, rule_id2, be8(version2 as u64) + more2);
    lemma_number_in_front(version as u64, more, version2 as u64, more2);
    lemma_text_in_front(matched, salt, matched2, salt2);
}

/// The length of a token id.
pub const TOKEN_ID_LEN: usize = 22;

/// The text is a token id: 22 characters of the base64 alphabet.
pub open spec fn is_token_id(s: Seq<char>) -> bool {
    s.len() == TOKEN_ID_LEN && b64::in_alphabet(s)
}

/// Derives the id of the token for a fragment.
pub fn token_id(
    master: &[u8; 32],
    tenant: &str,
    rule_id: &str,
    version: u32,
    matched: &str,
    salt: &[u8],
) -> (r: String)
    ensures
        r@ == token_id_of(master@, tenant@, rule_id@, version, matched@, salt@),
        is_token_id(r@),
{
    let key: [u8; 32] = MasterKey::from_bytes(*master).tenant_key(tenant);
    let mut input: Vec<u8> = Vec::new();
    push_be8(&mut input, rule_id.as_bytes().len() as u64);
    push_text(&mut input, rule_id);
    push_be8(&mut input, version as u64);
    push_be8(&mut input, matched.as_bytes().len() as u64);
    push_text(&mut input, matched);
    push_bytes(&mut input, salt);
    assert(input@ =~= token_input(rule_id@, version, matched@, salt@));
    let tag: [u8; 32] = hmac_sha256(&key, input.as_slice());
    let id: Vec<u8> = first_bytes(&tag, 16);
    proof {
        b64::lemma_decode_inverts_encode(id@);
    }
    b64e(id.as_slice())
}

/// What a stored record decrypts to; it is bound to the id of its token.
pub open spec fn record_plaintext(
    key: Seq<u8>,
    token_id: Seq<char>,
    nonce_b64: Seq<char>,
    ciphertext_b64: Seq<char>,
) -> Option<Seq<u8>> {
    match (b64::decoded(nonce_b64), b64::decoded(ciphertext_b64)) {
        (Some(nonce), Some(ct)) => if nonce.len() == 12 {
            opened(key, nonce, encode_utf8(token_id), ct)
        } else {
            None
        },
        _ => None,
    }
}

/// Encrypts a record under a given nonce; nonce and ciphertext come as base64 text.
pub fn encrypt_with(key: &[u8; 32], nonce: &[u8; 12], token_id: &str, plaintext: &[u8]) -> (r: (
    String,
    String,
))
    requires
        plaintext@.len() <= SEAL_LIMIT,
        encode_utf8(token_id@).len() <= SEAL_LIMIT,
    ensures
        r.0@ == b64::encoded(nonce@),
        r.1@ == b64::encoded(sealed(key@, nonce@, encode_utf8(token_id@), plaintext@)),
        record_plaintext(key@, token_id@, r.0@, r.1@) == Some(plaintext@),
{
    let ct: Vec<u8> = aes_seal(key, nonce, token_id.as_bytes(), plaintext);
    proof {
        b64::lemma_decode_inverts_encode(nonce@);
        b64::lemma_decode_inverts_encode(ct@);
    }
    (b64e(nonce), b64e(ct.as_slice()))
}

/// Decrypts a record.
pub fn decrypt(key: &[u8; 32], token_id: &str, nonce_b64: &str, ciphertext_b64: &str) -> (r: Option<
    Vec<u8>,
>)
    ensures
        match record_plaintext(key@, token_id@, nonce_b64@, ciphertext_b64@) {
            Some(p) => r is Some && r->0@ == p,
            None => r is None,
        },
{
    let nonce: Vec<u8> = match b64::decode(nonce_b64) {
        Some(n) => n,
        None => {
            return None;
        },
    };
    let ct: Vec<u8> = match b64::decode(ciphertext_b64) {
        Some(c) => c,
        None => {
            return None;
        },
    };
    if nonce.len() != 12 {
        return None;
    }
    aes_open(key, &array12(nonce.as_slice()), token_id.as_bytes(), ct.as_slice())
}

/// A nonce from the operating system.
pub(crate) fn fresh_nonce() -> (r: [u8; 12])
    ensures
        may_be_drawn(r@),
{
    array12(drawn_bytes(12).as_slice())
}

}
