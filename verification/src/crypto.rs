//! Packet encryption: a SHA-256 key derived from the room password and
//! AES-256 in ECB mode over a PKCS#7-padded payload.
use aes::Aes256;
use cipher::generic_array::GenericArray;
use cipher::{BlockDecrypt, BlockEncrypt, KeyInit};
use sha2::{Digest, Sha256};
use vstd::prelude::*;
use vstd::string::StringSliceAdditionalSpecFns;

verus! {

/// The SHA-256 digest of `data`.
pub uninterp spec fn sha256(data: Seq<u8>) -> [u8; 32];

/// AES-256 encryption of one 16-byte block under a 32-byte key.
pub uninterp spec fn aes256_encrypt(key: Seq<u8>, block: Seq<u8>) -> [u8; 16];

/// AES-256 decryption of one 16-byte block under a 32-byte key.
pub uninterp spec fn aes256_decrypt(key: Seq<u8>, block: Seq<u8>) -> [u8; 16];

/// Calls `sha2::Sha256::digest`. Trusted: the digest is `sha256` of the
/// input bytes, a function of those bytes alone.
#[verifier::external_body]
fn sha256_digest(data: &[u8]) -> (digest: [u8; 32])
    ensures
        digest == sha256(data@),
{
    Sha256::digest(data).into()
}

/// Calls `aes::Aes256::new` on the key and `cipher::BlockEncrypt::encrypt_block`
/// on one block. Trusted: the output is `aes256_encrypt` of key and block.
#[verifier::external_body]
fn aes256_encrypt_block(key: &[u8; 32], block: &[u8; 16]) -> (out: [u8; 16])
    ensures
        out == aes256_encrypt(key@, block@),
{
    let cipher = Aes256::new(GenericArray::from_slice(key));
    let mut b = GenericArray::clone_from_slice(block);
    cipher.encrypt_block(&mut b);
    b.into()
}

/// Calls `aes::Aes256::new` on the key and `cipher::BlockDecrypt::decrypt_block`
/// on one block. Trusted: the output is `aes256_decrypt` of key and block, and,
/// AES being a permutation of 16-byte blocks for each key (the `aes` crate's
/// documentation decrypts an encrypted block back to its plaintext), a block
/// that is the encryption of `p` under the same key decrypts to `p`.
#[verifier::external_body]
fn aes256_decrypt_block(key: &[u8; 32], block: &[u8; 16]) -> (out: [u8; 16])
    ensures
        out == aes256_decrypt(key@, block@),
        forall|p: Seq<u8>|
            p.len() == 16 && #[trigger] aes256_encrypt(key@, p)@ == block@ ==> out@ == p,
{
    let cipher = Aes256::new(GenericArray::from_slice(key));
    let mut b = GenericArray::clone_from_slice(block);
    cipher.decrypt_block(&mut b);
    b.into()
}

/// Number of PKCS#7 padding bytes appended to a payload of `len` bytes.
pub open spec fn padding_len(len: nat) -> nat {
    (16 - len % 16) as nat
}

/// PKCS#7 padding to a multiple of 16 bytes (a full block when already aligned).
pub open spec fn pkcs7_pad(data: Seq<u8>) -> Seq<u8> {
    data + Seq::new(padding_len(data.len()), |_i: int| padding_len(data.len()) as u8)
}

/// ECB encryption of the whole 16-byte blocks of `plain`, block by block.
pub open spec fn ecb_encrypt(key: Seq<u8>, plain: Seq<u8>) -> Seq<u8>
    decreases plain.len(),
{
    if plain.len() < 16 {
        Seq::empty()
    } else {
        ecb_encrypt(key, plain.take(plain.len() - 16)) + aes256_encrypt(
            key,
            plain.skip(plain.len() - 16),
        )@
    }
}

/// ECB decryption of the whole 16-byte blocks of `data`, block by block.
pub open spec fn ecb_decrypt(key: Seq<u8>, data: Seq<u8>) -> Seq<u8>
    decreases data.len(),
{
    if data.len() < 16 {
        Seq::empty()
    } else {
        ecb_decrypt(key, data.take(data.len() - 16)) + aes256_decrypt(
            key,
            data.skip(data.len() - 16),
        )@
    }
}

/// The key that a password yields: the SHA-256 digest of its UTF-8 bytes.
pub open spec fn key_of(password: Seq<u8>) -> Seq<u8> {
    sha256(password)@
}

/// What `encrypt` produces for `data` under the password with bytes `password`.
pub open spec fn encryption(data: Seq<u8>, password: Seq<u8>) -> Seq<u8> {
    ecb_encrypt(key_of(password), pkcs7_pad(data))
}

/// What `decrypt` produces: `None` for a length that is not a multiple of 16,
/// for an empty input, or when the last decrypted byte is not a padding length
/// in 1..=16; otherwise the decrypted bytes without that many trailing bytes.
pub open spec fn decryption(data: Seq<u8>, password: Seq<u8>) -> Option<Seq<u8>> {
    if data.len() % 16 != 0 {
        None
    } else {
        let plain = ecb_decrypt(key_of(password), data);
        if plain.len() > 0 && 0 < plain.last() && plain.last() <= 16 {
            Some(plain.take(plain.len() - plain.last()))
        } else {
            None
        }
    }
}

/// The view of an optional byte vector.
pub open spec fn opt_bytes(o: Option<Vec<u8>>) -> Option<Seq<u8>> {
    match o {
        Some(v) => Some(v@),
        None => None,
    }
}

proof fn lemma_ecb_encrypt_len(key: Seq<u8>, p: Seq<u8>)
    requires
        p.len() % 16 == 0,
    ensures
        ecb_encrypt(key, p).len() == p.len(),
    decreases p.len(),
{
    if p.len() >= 16 {
        lemma_ecb_encrypt_len(key, p.take(p.len() - 16));
    }
}

proof fn lemma_ecb_decrypt_len(key: Seq<u8>, p: Seq<u8>)
    requires
        p.len() % 16 == 0,
    ensures
        ecb_decrypt(key, p).len() == p.len(),
    decreases p.len(),
{
    if p.len() >= 16 {
        lemma_ecb_decrypt_len(key, p.take(p.len() - 16));
    }
}

/// A prefix of whole blocks of the encryption is the encryption of the prefix.
proof fn lemma_ecb_encrypt_prefix(key: Seq<u8>, p: Seq<u8>, m: int)
    requires
        p.len() % 16 == 0,
        m % 16 == 0,
        0 <= m <= p.len(),
    ensures
        ecb_encrypt(key, p).take(m) == ecb_encrypt(key, p.take(m)),
    decreases p.len(),
{
    if m == p.len() {
        assert(p.take(m) =~= p);
        lemma_ecb_encrypt_len(key, p);
        assert(ecb_encrypt(key, p).take(m) =~= ecb_encrypt(key, p));
    } else {
        let q = p.take(p.len() - 16);
        lemma_ecb_encrypt_len(key, q);
        lemma_ecb_encrypt_prefix(key, q, m);
        assert(q.take(m) =~= p.take(m));
        assert(ecb_encrypt(key, p).take(m) =~= ecb_encrypt(key, q).take(m));
    }
}

/// Block `b` of the encryption is the encryption of block `b`.
proof fn lemma_ecb_encrypt_block(key: Seq<u8>, p: Seq<u8>, b: int)
    requires
        p.len() % 16 == 0,
        0 <= b,
        16 * b + 16 <= p.len(),
    ensures
        ecb_encrypt(key, p).subrange(16 * b, 16 * b + 16) == aes256_encrypt(
            key,
            p.subrange(16 * b, 16 * b + 16),
        )@,
{
    let m = 16 * b + 16;
    lemma_ecb_encrypt_prefix(key, p, m);
    let pm = p.take(m);
    assert(pm.take(pm.len() - 16) =~= p.take(16 * b));
    assert(pm.skip(pm.len() - 16) =~= p.subrange(16 * b, 16 * b + 16));
    lemma_ecb_encrypt_len(key, p.take(16 * b));
    lemma_ecb_encrypt_len(key, p);
    assert(ecb_encrypt(key, p).subrange(16 * b, 16 * b + 16) =~= ecb_encrypt(key, pm).skip(
        16 * b,
    ));
}

/// ECB encryption of whole blocks followed by whole blocks is the
/// concatenation of the two encryptions.
proof fn lemma_ecb_encrypt_concat(key: Seq<u8>, x: Seq<u8>, y: Seq<u8>)
    requires
        x.len() % 16 == 0,
        y.len() % 16 == 0,
    ensures
        ecb_encrypt(key, x + y) == ecb_encrypt(key, x) + ecb_encrypt(key, y),
    decreases y.len(),
{
    if y.len() < 16 {
        assert(y.len() == 0);
        assert(x + y =~= x);
        assert(ecb_encrypt(key, x) + ecb_encrypt(key, y) =~= ecb_encrypt(key, x));
    } else {
        let y1 = y.take(y.len() - 16);
        lemma_ecb_encrypt_concat(key, x, y1);
        let xy = x + y;
        assert(xy.take(xy.len() - 16) =~= x + y1);
        assert(xy.skip(xy.len() - 16) =~= y.skip(y.len() - 16));
        assert(ecb_encrypt(key, xy) =~= ecb_encrypt(key, x) + ecb_encrypt(key, y));
    }
}

/// Encryption goes block by block: when `a` fills whole 16-byte blocks, the
/// encryption of `a` followed by `b` is the encryption of `a`'s blocks (the
/// encryption of `a` without its last, padding block) followed by the
/// encryption of `b`. Every encryption is one block longer than the whole
/// blocks of its input, and the same input and password always give the same
/// encryption.
pub proof fn lemma_encryption_concat(a: Seq<u8>, b: Seq<u8>, password: Seq<u8>)
    requires
        a.len() % 16 == 0,
    ensures
        encryption(a + b, password) == encryption(a, password).take(a.len() as int) + encryption(
            b,
            password,
        ),
        encryption(b, password).len() == 16 * (b.len() / 16 + 1),
{
    let k = key_of(password);
    let ab = a + b;
    assert(ab.len() % 16 == b.len() % 16);
    assert(padding_len(ab.len()) == padding_len(b.len()));
    assert(pkcs7_pad(ab) =~= a + pkcs7_pad(b));
    assert(pkcs7_pad(b).len() % 16 == 0);
    lemma_ecb_encrypt_concat(k, a, pkcs7_pad(b));
    let pa = pkcs7_pad(a);
    assert(pa.len() % 16 == 0);
    lemma_ecb_encrypt_prefix(k, pa, a.len() as int);
    assert(pa.take(a.len() as int) =~= a);
    lemma_ecb_encrypt_len(k, pkcs7_pad(b));
}

/// The payload that a decrypted 16-byte block holds: without as many
/// trailing bytes as its last byte says, when that is 1..=16.
pub open spec fn single_block_plain(p: Seq<u8>) -> Option<Seq<u8>> {
    if 0 < p[15] && p[15] <= 16 {
        Some(p.take(16 - p[15]))
    } else {
        None
    }
}

/// The key of the encryption is the SHA-256 digest of the password's bytes:
/// the encryption of `data` is AES-256-ECB, under that digest, of `data`
/// padded to whole blocks.
pub proof fn lemma_encryption_key(data: Seq<u8>, password: Seq<u8>)
    ensures
        encryption(data, password) == ecb_encrypt(sha256(password)@, pkcs7_pad(data)),
        decryption(data, password) == (if data.len() % 16 != 0 {
            None
        } else {
            let plain = ecb_decrypt(sha256(password)@, data);
            if plain.len() > 0 && 0 < plain.last() && plain.last() <= 16 {
                Some(plain.take(plain.len() - plain.last()))
            } else {
                None
            }
        }),
{
}

/// A payload shorter than a block encrypts to one block: AES-256, under the
/// SHA-256 digest of the password, of the payload followed by `16 - len`
/// bytes of value `16 - len`.
pub proof fn lemma_short_encryption(data: Seq<u8>, password: Seq<u8>)
    requires
        data.len() < 16,
    ensures
        encryption(data, password) == aes256_encrypt(
            sha256(password)@,
            data + Seq::new((16 - data.len()) as nat, |_i: int| (16 - data.len()) as u8),
        )@,
{
    let p = pkcs7_pad(data);
    assert(p.len() == 16);
    assert(p =~= data + Seq::new((16 - data.len()) as nat, |_i: int| (16 - data.len()) as u8));
    assert(p.take(0) =~= Seq::<u8>::empty());
    assert(p.skip(0) =~= p);
    assert(ecb_encrypt(sha256(password)@, p.take(0)) =~= Seq::<u8>::empty());
}

/// One 16-byte block decrypts, under the SHA-256 digest of the password, to
/// the AES-256 decryption of the block without its padding.
pub proof fn lemma_single_block_decryption(data: Seq<u8>, password: Seq<u8>)
    requires
        data.len() == 16,
    ensures
        decryption(data, password) == single_block_plain(aes256_decrypt(sha256(password)@, data)@),
{
    let k = sha256(password)@;
    assert(data.take(0) =~= Seq::<u8>::empty());
    assert(data.skip(0) =~= data);
    assert(ecb_decrypt(k, data.take(0)) =~= Seq::<u8>::empty());
    assert(ecb_decrypt(k, data) =~= aes256_decrypt(k, data)@);
}

/// Derives the 32-byte AES key of a password: the SHA-256 digest of its bytes.
pub fn derive_key(password: &str) -> (key: [u8; 32])
    ensures
        key == sha256(password.spec_bytes()),
{
    sha256_digest(password.as_bytes())
}

/// Copies the 16 bytes of `data` that start at `start` into a block.
fn block_at(data: &Vec<u8>, start: usize) -> (block: [u8; 16])
    requires
        start + 16 <= data.len(),
    ensures
        block@ == data@.subrange(start as int, start + 16),
{
    let mut block = [0u8; 16];
    let mut j: usize = 0;
    while j < 16
        invariant
            j <= 16,
            start + 16 <= data.len(),
            forall|k: int| 0 <= k < j ==> block@[k] == data@[start + k],
        decreases 16 - j,
    {
        block[j] = data[start + j];
        j = j + 1;
    }
    assert(block@ =~= data@.subrange(start as int, start + 16));
    block
}

/// Appends the 16 bytes of `block` to `out`.
fn push_block(out: &mut Vec<u8>, block: &[u8; 16])
    ensures
        final(out)@ == old(out)@ + block@,
{
    let mut j: usize = 0;
    while j < 16
        invariant
            j <= 16,
            out@ == old(out)@ + block@.take(j as int),
        decreases 16 - j,
    {
        out.push(block[j]);
        assert(block@.take(j + 1) =~= block@.take(j as int).push(block@[j as int]));
        j = j + 1;
    }
    assert(block@.take(16) =~= block@);
}

/// Encrypts `data` under `password`: PKCS#7 padding, then AES-256-ECB with
/// the key `derive_key(password)`.
pub fn encrypt(data: &[u8], password: &str) -> (encrypted: Vec<u8>)
    ensures
        encrypted@ == encryption(data@, password.spec_bytes()),
        encrypted@ == ecb_encrypt(sha256(password.spec_bytes())@, pkcs7_pad(data@)),
        encrypted@.len() == pkcs7_pad(data@).len(),
        encrypted@.len() % 16 == 0,
{
    proof {
        lemma_encryption_key(data@, password.spec_bytes());
    }
    let key = derive_key(password);
    let ghost k = key_of(password.spec_bytes());
    let block_size: usize = 16;
    let pad: usize = block_size - (data.len() % block_size);
    let mut padded: Vec<u8> = vstd::slice::slice_to_vec(data);
    let mut i: usize = 0;
    while i < pad
        invariant
            i <= pad,
            pad == padding_len(data@.len() as nat),
            padded@ == data@ + Seq::new(i as nat, |_i: int| pad as u8),
        decreases pad - i,
    {
        padded.push(pad as u8);
        assert(data@ + Seq::new((i + 1) as nat, |_i: int| pad as u8) =~= (data@ + Seq::new(
            i as nat,
            |_i: int| pad as u8,
        )).push(pad as u8));
        i = i + 1;
    }
    assert(padded@ =~= pkcs7_pad(data@));
    assert(padded@.len() % 16 == 0);
    let mut encrypted: Vec<u8> = Vec::new();
    let mut off: usize = 0;
    while off < padded.len()
        invariant
            off % 16 == 0,
            off <= padded@.len(),
            padded@.len() % 16 == 0,
            padded@ == pkcs7_pad(data@),
            key@ == k,
            encrypted@ == ecb_encrypt(k, padded@.take(off as int)),
        decreases padded@.len() - off,
    {
        let block = block_at(&padded, off);
        let out = aes256_encrypt_block(&key, &block);
        push_block(&mut encrypted, &out);
        proof {
            let t = padded@.take(off + 16);
            assert(t.take(t.len() - 16) =~= padded@.take(off as int));
            assert(t.skip(t.len() - 16) =~= block@);
        }
        off = off + 16;
    }
    assert(padded@.take(padded@.len() as int) =~= padded@);
    proof {
        lemma_ecb_encrypt_len(k, padded@);
    }
    encrypted
}

/// Decrypts `data` under `password`: AES-256-ECB with `derive_key(password)`,
/// then drops as many trailing bytes as the last byte says (1..=16). Whatever
/// `encrypt` produced under the same password decrypts to what was encrypted.
pub fn decrypt(data: &[u8], password: &str) -> (res: Option<Vec<u8>>)
    ensures
        opt_bytes(res) == decryption(data@, password.spec_bytes()),
        data@.len() == 16 ==> opt_bytes(res) == single_block_plain(
            aes256_decrypt(sha256(password.spec_bytes())@, data@)@,
        ),
        forall|d: Seq<u8>|
            #[trigger] encryption(d, password.spec_bytes()) == data@ ==> opt_bytes(res) == Some(d),
{
    proof {
        if data@.len() == 16 {
            lemma_single_block_decryption(data@, password.spec_bytes());
        }
    }
    if data.len() % 16 != 0 {
        proof {
            assert forall|d: Seq<u8>| #[trigger]
                encryption(d, password.spec_bytes()) == data@ implies false by {
                let p = pkcs7_pad(d);
                assert(p.len() % 16 == 0);
                lemma_ecb_encrypt_len(key_of(password.spec_bytes()), p);
            }
        }
        return None;
    }
    let key = derive_key(password);
    let ghost k = key_of(password.spec_bytes());
    let ghost pw = password.spec_bytes();
    let input: Vec<u8> = vstd::slice::slice_to_vec(data);
    let mut decrypted: Vec<u8> = Vec::new();
    let mut off: usize = 0;
    while off < input.len()
        invariant
            off % 16 == 0,
            off <= input@.len(),
            input@.len() % 16 == 0,
            input@ == data@,
            key@ == k,
            k == key_of(pw),
            decrypted@ == ecb_decrypt(k, input@.take(off as int)),
            forall|d: Seq<u8>| #[trigger]
                encryption(d, pw) == data@ ==> decrypted@ == pkcs7_pad(d).take(off as int),
        decreases input@.len() - off,
    {
        let block = block_at(&input, off);
        let out = aes256_decrypt_block(&key, &block);
        let ghost before = decrypted@;
        push_block(&mut decrypted, &out);
        proof {
            let t = input@.take(off + 16);
            assert(t.take(t.len() - 16) =~= input@.take(off as int));
            assert(t.skip(t.len() - 16) =~= block@);
            assert forall|d: Seq<u8>| #[trigger]
                encryption(d, pw) == data@ implies decrypted@ == pkcs7_pad(d).take(off + 16) by {
                let p = pkcs7_pad(d);
                assert(p.len() % 16 == 0);
                lemma_ecb_encrypt_len(k, p);
                lemma_ecb_encrypt_block(k, p, (off / 16) as int);
                let pb = p.subrange(off as int, off + 16);
                assert(aes256_encrypt(k, pb)@ == block@);
                assert(out@ == pb);
                assert(p.take(off + 16) =~= p.take(off as int) + pb);
            }
        }
        off = off + 16;
    }
    assert(input@.take(input@.len() as int) =~= input@);
    proof {
        lemma_ecb_decrypt_len(k, data@);
    }
    let n = decrypted.len();
    if n > 0 {
        let last = decrypted[n - 1];
        if last > 0 && last <= 16 {
            let cut = n - last as usize;
            let ghost full = decrypted@;
            decrypted.truncate(cut);
            proof {
                assert forall|d: Seq<u8>| #[trigger]
                    encryption(d, pw) == data@ implies decrypted@ == d by {
                    let p = pkcs7_pad(d);
                    lemma_ecb_encrypt_len(k, p);
                    assert(p.take(p.len() as int) =~= p);
                    assert(full == p);
                    assert(p.last() == padding_len(d.len()) as u8);
                    assert(cut == d.len());
                    assert(p.take(cut as int) =~= d);
                }
            }
            return Some(decrypted);
        }
    }
    proof {
        assert forall|d: Seq<u8>| #[trigger] encryption(d, pw) == data@ implies false by {
            let p = pkcs7_pad(d);
            lemma_ecb_encrypt_len(k, p);
            assert(p.take(p.len() as int) =~= p);
            assert(decrypted@ == p);
            assert(p.last() == padding_len(d.len()) as u8);
        }
    }
    None
}

/// Position-weighted XOR of the bytes: byte `i` is XORed in shifted left by
/// `8 * (i % 8)` bits.
pub open spec fn checksum(data: Seq<u8>) -> u64
    decreases data.len(),
{
    if data.len() == 0 {
        0
    } else {
        let i = data.len() - 1;
        checksum(data.drop_last()) ^ ((data.last() as u64) << ((i % 8) * 8) as u64)
    }
}

/// The number that the bytes `b` spell in little-endian order.
pub open spec fn le_value(b: Seq<u8>) -> nat
    decreases b.len(),
{
    if b.len() == 0 {
        0
    } else {
        le_value(b.drop_last()) + (b.last() as nat) * place_value((b.len() - 1) as nat)
    }
}

/// `256` to the power `j`: the weight of byte `j` in little-endian order.
pub open spec fn place_value(j: nat) -> nat
    decreases j,
{
    if j == 0 {
        1
    } else {
        256 * place_value((j - 1) as nat)
    }
}

proof fn lemma_xor_u64_assoc(p: u64, q: u64, r: u64)
    ensures
        (p ^ q) ^ r == p ^ (q ^ r),
        p ^ 0u64 == p,
{
    assert((p ^ q) ^ r == p ^ (q ^ r)) by (bit_vector);
    assert(p ^ 0u64 == p) by (bit_vector);
}

/// Checksums combine by XOR: when `a` fills whole 8-byte words, the checksum
/// of `a` followed by `b` is the checksum of `a` XOR the checksum of `b`.
pub proof fn lemma_checksum_concat(a: Seq<u8>, b: Seq<u8>)
    requires
        a.len() % 8 == 0,
    ensures
        checksum(a + b) == checksum(a) ^ checksum(b),
    decreases b.len(),
{
    if b.len() == 0 {
        assert(a + b =~= a);
        lemma_xor_u64_assoc(checksum(a), 0, 0);
    } else {
        let b1 = b.drop_last();
        lemma_checksum_concat(a, b1);
        let ab = a + b;
        assert(ab.drop_last() =~= a + b1);
        assert(ab.last() == b.last());
        let i = ab.len() - 1;
        let j = b.len() - 1;
        assert(i % 8 == j % 8) by {
            let q = a.len() / 8;
            assert(a.len() == 8 * q);
            vstd::arithmetic::div_mod::lemma_mod_multiples_vanish(q as int, j as int, 8);
        }
        let r = (b.last() as u64) << ((j % 8) * 8) as u64;
        assert(checksum(ab) == checksum(a + b1) ^ r);
        assert(checksum(b) == checksum(b1) ^ r);
        lemma_xor_u64_assoc(checksum(a), checksum(b1), r);
    }
}

proof fn lemma_le_value_bound(b: Seq<u8>)
    ensures
        le_value(b) < place_value(b.len()),
    decreases b.len(),
{
    if b.len() > 0 {
        let b1 = b.drop_last();
        let j = b1.len();
        lemma_le_value_bound(b1);
        let y = b.last() as nat;
        let pj = place_value(j);
        assert(y * pj <= 255 * pj) by (nonlinear_arith)
            requires
                y <= 255,
        ;
    }
}

proof fn lemma_xor_below_place(x: u64, y: u64, j: nat)
    requires
        j < 8,
        y < 256,
        x < place_value(j),
    ensures
        x ^ (y << (j * 8) as u64) == x + y * place_value(j),
{
    reveal_with_fuel(place_value, 8);
    if j == 0 {
        assert(x < 1 && y < 256 ==> x ^ (y << 0u64) == x + y) by (bit_vector);
    } else if j == 1 {
        assert(x < 0x100 && y < 256 ==> x ^ (y << 8u64) == x + y * 0x100) by (bit_vector);
    } else if j == 2 {
        assert(x < 0x10000 && y < 256 ==> x ^ (y << 16u64) == x + y * 0x10000) by (bit_vector);
    } else if j == 3 {
        assert(x < 0x1000000 && y < 256 ==> x ^ (y << 24u64) == x + y * 0x1000000)
            by (bit_vector);
    } else if j == 4 {
        assert(x < 0x100000000 && y < 256 ==> x ^ (y << 32u64) == x + y * 0x100000000)
            by (bit_vector);
    } else if j == 5 {
        assert(x < 0x10000000000 && y < 256 ==> x ^ (y << 40u64) == x + y * 0x10000000000)
            by (bit_vector);
    } else if j == 6 {
        assert(x < 0x1000000000000 && y < 256 ==> x ^ (y << 48u64) == x + y * 0x1000000000000)
            by (bit_vector);
    } else {
        assert(x < 0x100000000000000 && y < 256 ==> x ^ (y << 56u64) == x + y
            * 0x100000000000000) by (bit_vector);
    }
}

/// On at most eight bytes the checksum is the little-endian number that the
/// bytes spell, as `u64::from_le_bytes` reads them after zero padding.
pub proof fn lemma_checksum_le_bytes(b: Seq<u8>)
    requires
        b.len() <= 8,
    ensures
        checksum(b) == le_value(b),
    decreases b.len(),
{
    if b.len() > 0 {
        let b1 = b.drop_last();
        let j = b1.len();
        lemma_checksum_le_bytes(b1);
        lemma_le_value_bound(b1);
        assert(j % 8 == j);
        lemma_xor_below_place(checksum(b1), b.last() as u64, j);
    }
}

/// The XOR checksum used to recognise duplicate packets.
pub fn calculate_checksum(data: &[u8]) -> (sum: u64)
    ensures
        sum == checksum(data@),
{
    let mut sum: u64 = 0;
    let mut i: usize = 0;
    while i < data.len()
        invariant
            i <= data@.len(),
            sum == checksum(data@.take(i as int)),
        decreases data@.len() - i,
    {
        let shift: u64 = ((i % 8) * 8) as u64;
        sum = sum ^ ((data[i] as u64) << shift);
        assert(data@.take(i + 1).drop_last() =~= data@.take(i as int));
        i = i + 1;
    }
    assert(data@.take(data@.len() as int) =~= data@);
    sum
}

} // verus!
