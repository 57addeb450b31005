//! AES-128 in 8-bit cipher-feedback mode, as the wire protocol uses it: the
//! shared secret is both key and initial register, and each direction keeps
//! its own register.
use vstd::prelude::*;
use aes::cipher::{AsyncStreamCipher, KeyIvInit};

verus! {

/// Key, register and block length of AES-128.
pub const CIPHER_BLOCK: usize = 16;

/// The first byte of AES-128's encryption of the 16-byte `block` under `key`.
pub uninterp spec fn aes128_first_byte(key: Seq<u8>, block: Seq<u8>) -> u8;

/// The register once the ciphertext `ct` has been shifted in: its last 16 bytes.
pub open spec fn shift_register(register: Seq<u8>, ct: Seq<u8>) -> Seq<u8> {
    (register + ct).skip(ct.len() as int)
}

/// Encryption of `p`: each byte is xored with the first byte of AES-128 of
/// the register, and the ciphertext byte is shifted into the register.
pub open spec fn cfb8_encrypt(key: Seq<u8>, register: Seq<u8>, p: Seq<u8>) -> Seq<u8>
    decreases p.len(),
{
    if p.len() == 0 {
        Seq::empty()
    } else {
        let c = p[0] ^ aes128_first_byte(key, register);
        seq![c] + cfb8_encrypt(key, shift_register(register, seq![c]), p.skip(1))
    }
}

/// Decryption of `c`: each byte is xored with the first byte of AES-128 of
/// the register, and the ciphertext byte is shifted into the register.
pub open spec fn cfb8_decrypt(key: Seq<u8>, register: Seq<u8>, c: Seq<u8>) -> Seq<u8>
    decreases c.len(),
{
    if c.len() == 0 {
        Seq::empty()
    } else {
        let p = c[0] ^ aes128_first_byte(key, register);
        seq![p] + cfb8_decrypt(key, shift_register(register, seq![c[0]]), c.skip(1))
    }
}

/// Relies on cfb8::Encryptor<Aes128> through AsyncStreamCipher::encrypt: a
/// fresh encryptor keyed with `key`, its register set to `register`, run over `data`.
#[verifier::external_body]
pub(crate) fn cfb8_encrypt_bytes(key: &[u8], register: &[u8], data: &[u8]) -> (r: Vec<u8>)
    requires
        key@.len() == CIPHER_BLOCK,
        register@.len() == CIPHER_BLOCK,
    ensures
        r@ == cfb8_encrypt(key@, register@, data@),
        data@.len() > 0 ==> r@[0] == data@[0] ^ aes128_first_byte(key@, register@),
{
    let mut out = data.to_vec();
    cfb8::Encryptor::<aes::Aes128>::new(key.into(), register.into()).encrypt(&mut out);
    out
}

/// Relies on cfb8::Decryptor<Aes128> through AsyncStreamCipher::decrypt: a
/// fresh decryptor keyed with `key`, its register set to `register`, run over `data`.
#[verifier::external_body]
pub(crate) fn cfb8_decrypt_bytes(key: &[u8], register: &[u8], data: &[u8]) -> (r: Vec<u8>)
    requires
        key@.len() == CIPHER_BLOCK,
        register@.len() == CIPHER_BLOCK,
    ensures
        r@ == cfb8_decrypt(key@, register@, data@),
        data@.len() > 0 ==> r@[0] == data@[0] ^ aes128_first_byte(key@, register@),
{
    let mut out = data.to_vec();
    cfb8::Decryptor::<aes::Aes128>::new(key.into(), register.into()).decrypt(&mut out);
    out
}

/// Encryption keeps the length.
pub proof fn lemma_encrypt_len(key: Seq<u8>, register: Seq<u8>, p: Seq<u8>)
    ensures
        cfb8_encrypt(key, register, p).len() == p.len(),
    decreases p.len(),
{
    if p.len() > 0 {
        let c = p[0] ^ aes128_first_byte(key, register);
        lemma_encrypt_len(key, shift_register(register, seq![c]), p.skip(1));
    }
}

/// Shifting in `a`, then `b`, is shifting in `a + b`.
pub proof fn lemma_shift_twice(register: Seq<u8>, a: Seq<u8>, b: Seq<u8>)
    requires
        register.len() == CIPHER_BLOCK,
    ensures
        shift_register(shift_register(register, a), b) == shift_register(register, a + b),
        shift_register(register, a).len() == CIPHER_BLOCK,
{
    assert((shift_register(register, a) + b).skip(b.len() as int) =~= (register + (a + b)).skip(
        (a + b).len() as int,
    ));
}

/// Decryption keeps the length.
pub proof fn lemma_decrypt_len(key: Seq<u8>, register: Seq<u8>, c: Seq<u8>)
    ensures
        cfb8_decrypt(key, register, c).len() == c.len(),
    decreases c.len(),
{
    if c.len() > 0 {
        lemma_decrypt_len(key, shift_register(register, seq![c[0]]), c.skip(1));
    }
}

/// Encrypting `a + b` is encrypting `a`, then `b` from the register that `a`'s ciphertext left.
pub proof fn lemma_encrypt_concat(key: Seq<u8>, register: Seq<u8>, a: Seq<u8>, b: Seq<u8>)
    requires
        register.len() == CIPHER_BLOCK,
    ensures
        cfb8_encrypt(key, register, a + b) == cfb8_encrypt(key, register, a) + cfb8_encrypt(
            key,
            shift_register(register, cfb8_encrypt(key, register, a)),
            b,
        ),
    decreases a.len(),
{
    if a.len() == 0 {
        assert(a + b =~= b);
        assert(shift_register(register, Seq::empty()) =~= register);
        assert(cfb8_encrypt(key, register, a) =~= Seq::<u8>::empty());
        assert(Seq::<u8>::empty() + cfb8_encrypt(key, register, b) =~= cfb8_encrypt(
            key,
            register,
            b,
        ));
    } else {
        let c = (a + b)[0] ^ aes128_first_byte(key, register);
        let r1 = shift_register(register, seq![c]);
        assert((a + b).skip(1) =~= a.skip(1) + b);
        lemma_shift_twice(register, seq![c], Seq::empty());
        lemma_encrypt_concat(key, r1, a.skip(1), b);
        let tail = cfb8_encrypt(key, r1, a.skip(1));
        lemma_shift_twice(register, seq![c], tail);
        assert(seq![c] + tail =~= cfb8_encrypt(key, register, a));
        assert(cfb8_encrypt(key, register, a + b) =~= cfb8_encrypt(key, register, a)
            + cfb8_encrypt(key, shift_register(register, cfb8_encrypt(key, register, a)), b));
    }
}

/// Decrypting `a + b` is decrypting `a`, then `b` from the register that `a` left.
pub proof fn lemma_decrypt_concat(key: Seq<u8>, register: Seq<u8>, a: Seq<u8>, b: Seq<u8>)
    requires
        register.len() == CIPHER_BLOCK,
    ensures
        cfb8_decrypt(key, register, a + b) == cfb8_decrypt(key, register, a) + cfb8_decrypt(
            key,
            shift_register(register, a),
            b,
        ),
    decreases a.len(),
{
    if a.len() == 0 {
        assert(a + b =~= b);
        assert(shift_register(register, a) =~= register);
        assert(cfb8_decrypt(key, register, a) =~= Seq::<u8>::empty());
        assert(Seq::<u8>::empty() + cfb8_decrypt(key, register, b) =~= cfb8_decrypt(
            key,
            register,
            b,
        ));
    } else {
        let r1 = shift_register(register, seq![a[0]]);
        assert((a + b).skip(1) =~= a.skip(1) + b);
        assert((a + b)[0] == a[0]);
        lemma_shift_twice(register, seq![a[0]], Seq::empty());
        lemma_decrypt_concat(key, r1, a.skip(1), b);
        lemma_shift_twice(register, seq![a[0]], a.skip(1));
        assert(seq![a[0]] + a.skip(1) =~= a);
        assert(cfb8_decrypt(key, register, a + b) =~= cfb8_decrypt(key, register, a)
            + cfb8_decrypt(key, shift_register(register, a), b));
    }
}

/// Decryption from the same key and register undoes encryption.
pub proof fn lemma_decrypt_encrypt(key: Seq<u8>, register: Seq<u8>, p: Seq<u8>)
    ensures
        cfb8_decrypt(key, register, cfb8_encrypt(key, register, p)) == p,
    decreases p.len(),
{
    if p.len() > 0 {
        let x = aes128_first_byte(key, register);
        let c = p[0] ^ x;
        let ct = cfb8_encrypt(key, register, p);
        assert(ct[0] == c);
        assert(ct.skip(1) =~= cfb8_encrypt(key, shift_register(register, seq![c]), p.skip(1)));
        lemma_decrypt_encrypt(key, shift_register(register, seq![c]), p.skip(1));
        let p0 = p[0];
        assert((p0 ^ x) ^ x == p0) by (bit_vector);
        assert(cfb8_decrypt(key, register, ct) =~= p);
    }
}

/// The first `j` bytes of an encryption are the encryption of the first `j` bytes.
pub proof fn lemma_encrypt_prefix(key: Seq<u8>, register: Seq<u8>, p: Seq<u8>, j: int)
    requires
        register.len() == CIPHER_BLOCK,
        0 <= j <= p.len(),
    ensures
        cfb8_encrypt(key, register, p).take(j) == cfb8_encrypt(key, register, p.take(j)),
{
    assert(p =~= p.take(j) + p.skip(j));
    lemma_encrypt_concat(key, register, p.take(j), p.skip(j));
    lemma_encrypt_len(key, register, p.take(j));
    assert(cfb8_encrypt(key, register, p).take(j) =~= cfb8_encrypt(key, register, p.take(j)));
}

/// Bytes `from..to` of `s`.
pub(crate) fn copy_slice(s: &[u8], from: usize, to: usize) -> (r: Vec<u8>)
    requires
        from <= to <= s@.len(),
    ensures
        r@ == s@.subrange(from as int, to as int),
{
    let mut out: Vec<u8> = Vec::new();
    let mut i: usize = from;
    while i < to
        invariant
            from <= i <= to <= s@.len(),
            out@ == s@.subrange(from as int, i as int),
        decreases to - i,
    {
        out.push(s[i]);
        assert(out@ =~= s@.subrange(from as int, i + 1));
        i = i + 1;
    }
    out
}

/// `a` followed by `b`.
pub(crate) fn concat_bytes(a: &[u8], b: &[u8]) -> (r: Vec<u8>)
    ensures
        r@ == a@ + b@,
{
    let mut out = copy_slice(a, 0, a.len());
    let mut i: usize = 0;
    assert(out@ =~= a@ + b@.take(0));
    while i < b.len()
        invariant
            i <= b@.len(),
            out@ == a@ + b@.take(i as int),
        decreases b.len() - i,
    {
        out.push(b[i]);
        assert(out@ =~= a@ + b@.take(i + 1));
        i = i + 1;
    }
    assert(b@.take(b@.len() as int) =~= b@);
    out
}

/// The register after shifting in `ct`.
pub(crate) fn next_register(register: &[u8], ct: &[u8]) -> (r: Vec<u8>)
    requires
        register@.len() == CIPHER_BLOCK,
    ensures
        r@ == shift_register(register@, ct@),
        r@.len() == CIPHER_BLOCK,
{
    if ct.len() >= CIPHER_BLOCK {
        let r = copy_slice(ct, ct.len() - CIPHER_BLOCK, ct.len());
        assert(r@ =~= shift_register(register@, ct@));
        r
    } else {
        let mut r = copy_slice(register, ct.len(), CIPHER_BLOCK);
        let tail = copy_slice(ct, 0, ct.len());
        let mut i: usize = 0;
        while i < tail.len()
            invariant
                i <= tail@.len(),
                tail@ == ct@,
                r@ == register@.subrange(ct@.len() as int, CIPHER_BLOCK as int) + tail@.take(
                    i as int,
                ),
            decreases tail.len() - i,
        {
            r.push(tail[i]);
            assert(r@ =~= register@.subrange(ct@.len() as int, CIPHER_BLOCK as int) + tail@.take(
                i + 1,
            ));
            i = i + 1;
        }
        assert(r@ =~= shift_register(register@, ct@));
        r
    }
}

} // verus!
