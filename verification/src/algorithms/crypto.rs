//! Layered record encryption: a key-derived XOR stream sealed with a keyed,
//! position-dependent integrity tag.  A secret key carries its public key (as an ML-KEM
//! decapsulation key carries its encapsulation key), so the secret half of a
//! key pair opens what the public half sealed.
use vstd::prelude::*;

verus! {

/// Errors of the record cipher.
#[derive(Debug)]
pub enum CryptoError {
    HandshakeFailed(String),
    EncryptionError(String),
    DecryptionError,
}

/// Record cipher (ML-KEM-1024 key sizes, AES-256 key width).
pub struct PostQuantumShield {
    pub algorithm_identifier: String,
    pub key_security_bits: usize,
}

/// Public key length in bytes.
pub const PUBLIC_KEY_LEN: usize = 1568;

/// Secret key length in bytes.
pub const SECRET_KEY_LEN: usize = 3168;

/// Where a secret key carries its public key.
pub const EMBEDDED_KEY_OFFSET: usize = 1536;

/// The generated public key: byte `i` is `37 i mod 251`.
pub open spec fn public_key_bytes() -> Seq<u8> {
    Seq::new(1568, |i: int| ((i * 37) % 251) as u8)
}

/// The generated secret key: the public key at bytes 1536 to 3103, and
/// `73 i mod 251` at every other byte `i`.
pub open spec fn secret_key_bytes() -> Seq<u8> {
    Seq::new(
        3168,
        |i: int| if 1536 <= i < 3104 { (((i - 1536) * 37) % 251) as u8 } else { ((i * 73) % 251) as u8 },
    )
}

/// The public key that a secret key carries.
pub open spec fn embedded_public_key(secret_key: Seq<u8>) -> Seq<u8> {
    secret_key.subrange(1536, 3104)
}

/// The 32-byte symmetric key derived from a key: the key repeated, each byte XOR `0x5A`.
pub open spec fn derived_key(key: Seq<u8>) -> Seq<u8> {
    Seq::new(32, |i: int| key[i % (key.len() as int)] ^ 0x5Au8)
}

/// `data` XOR the derived key repeated.
pub open spec fn xor_stream(data: Seq<u8>, dk: Seq<u8>) -> Seq<u8> {
    Seq::new(data.len(), |i: int| data[i] ^ dk[i % 32])
}

/// The multiplier of the tag's mixing step (the 32-bit FNV prime).
pub const MIX_MULTIPLIER: u64 = 0x0100_0193;

/// One mixing step of the tag: the state XOR the body byte masked with a key
/// byte, times the multiplier, truncated to 32 bits.
pub open spec fn mix_step(h: u32, b: u8, k: u8) -> u32 {
    ((h ^ ((b ^ k) as u32)) * 0x0100_0193u32) as u32
}

/// The starting state of the tag: the first four bytes of the derived key,
/// least significant first.
pub open spec fn tag_seed(dk: Seq<u8>) -> u32 {
    (dk[0] as u32 + dk[1] as u32 * 0x100 + dk[2] as u32 * 0x1_0000 + dk[3] as u32 * 0x100_0000) as u32
}

/// The tag state after the bytes of `body`: byte `i` is masked with key
/// byte `i mod 32` and mixed in, in order.
pub open spec fn tag_state(body: Seq<u8>, dk: Seq<u8>) -> u32
    decreases body.len(),
{
    if body.len() == 0 {
        tag_seed(dk)
    } else {
        mix_step(tag_state(body.drop_last(), dk), body.last(), dk[(body.len() - 1) % 32])
    }
}

/// The four bytes of a 32-bit value, least significant first.
pub open spec fn word_bytes(h: u32) -> Seq<u8> {
    seq![(h & 0xffu32) as u8, ((h >> 8u32) & 0xffu32) as u8, ((h >> 16u32) & 0xffu32) as u8, (h >> 24u32) as u8]
}

/// The 4-byte integrity tag of a cipher body under a derived key: the bytes
/// of the final tag state.
pub open spec fn integrity_tag(body: Seq<u8>, dk: Seq<u8>) -> Seq<u8> {
    word_bytes(tag_state(body, dk))
}

/// The cipher text of `data` under a public key: the XOR-streamed body,
/// then its integrity tag.
pub open spec fn sealed(data: Seq<u8>, key: Seq<u8>) -> Seq<u8> {
    let dk = derived_key(key);
    let body = xor_stream(data, dk);
    body + integrity_tag(body, dk)
}

/// What opening a cipher text with a secret key gives: nothing when the
/// text is shorter than a tag, the key is not a whole secret key, or the
/// tag does not match the body under the carried public key; otherwise the
/// body XOR-streamed back.
pub open spec fn opening(cipher: Seq<u8>, secret_key: Seq<u8>) -> Option<Seq<u8>> {
    if cipher.len() < 4 || secret_key.len() != 3168 {
        None
    } else {
        let dk = derived_key(embedded_public_key(secret_key));
        let body = cipher.take(cipher.len() - 4);
        if cipher.skip(cipher.len() - 4) == integrity_tag(body, dk) {
            Some(xor_stream(body, dk))
        } else {
            None
        }
    }
}

/// A generated secret key carries the generated public key.
pub proof fn lemma_keypair_embeds()
    ensures
        embedded_public_key(secret_key_bytes()) == public_key_bytes(),
{
    assert(embedded_public_key(secret_key_bytes()) =~= public_key_bytes());
}

proof fn lemma_xor_stream_twice(data: Seq<u8>, dk: Seq<u8>)
    requires
        dk.len() == 32,
    ensures
        xor_stream(xor_stream(data, dk), dk) == data,
{
    let s = xor_stream(data, dk);
    assert forall|i: int| 0 <= i < data.len() implies #[trigger] xor_stream(s, dk)[i] == data[i] by {
        let a = data[i];
        let k = dk[i % 32];
        assert((a ^ k) ^ k == a) by (bit_vector);
    }
    assert(xor_stream(s, dk) =~= data);
}

/// Opening undoes sealing: what a public key sealed, a secret key that
/// carries it opens, giving back the data.  In particular the secret half
/// of the generated key pair opens what the public half sealed.
pub proof fn lemma_open_sealed(data: Seq<u8>, public_key: Seq<u8>, secret_key: Seq<u8>)
    requires
        secret_key.len() == 3168,
        embedded_public_key(secret_key) == public_key,
    ensures
        sealed(data, public_key).len() == data.len() + 4,
        opening(sealed(data, public_key), secret_key) == Some(data),
{
    let dk = derived_key(public_key);
    let body = xor_stream(data, dk);
    let c = sealed(data, public_key);
    assert(c.take(c.len() - 4) =~= body);
    assert(c.skip(c.len() - 4) =~= integrity_tag(body, dk));
    lemma_xor_stream_twice(data, dk);
}

/// The key pair round trip: the generated secret key opens what the
/// generated public key sealed.
pub proof fn lemma_keypair_round_trip(data: Seq<u8>)
    ensures
        opening(sealed(data, public_key_bytes()), secret_key_bytes()) == Some(data),
{
    lemma_keypair_embeds();
    lemma_open_sealed(data, public_key_bytes(), secret_key_bytes());
}

proof fn lemma_mix_injective(x: u32, y: u32)
    requires
        x != y,
    ensures
        (x * 0x0100_0193u32) as u32 != (y * 0x0100_0193u32) as u32,
{
    let a: u32 = (x * 0x0100_0193u32) as u32;
    let c: u32 = (y * 0x0100_0193u32) as u32;
    assert((a * 0x359c_449bu32) as u32 == x) by (bit_vector)
        requires
            a == (x * 0x0100_0193u32) as u32,
    ;
    assert((c * 0x359c_449bu32) as u32 == y) by (bit_vector)
        requires
            c == (y * 0x0100_0193u32) as u32,
    ;
}

proof fn lemma_step_injective_state(h1: u32, h2: u32, b: u8, k: u8)
    requires
        h1 != h2,
    ensures
        mix_step(h1, b, k) != mix_step(h2, b, k),
{
    let x = (b ^ k) as u32;
    assert(h1 ^ x != h2 ^ x) by (bit_vector)
        requires
            h1 != h2,
    ;
    lemma_mix_injective(h1 ^ x, h2 ^ x);
}

proof fn lemma_step_injective_byte(h: u32, b1: u8, b2: u8, k: u8)
    requires
        b1 != b2,
    ensures
        mix_step(h, b1, k) != mix_step(h, b2, k),
{
    let x1 = (b1 ^ k) as u32;
    let x2 = (b2 ^ k) as u32;
    assert(h ^ x1 != h ^ x2) by (bit_vector)
        requires
            b1 != b2,
            x1 == (b1 ^ k) as u32,
            x2 == (b2 ^ k) as u32,
    ;
    lemma_mix_injective(h ^ x1, h ^ x2);
}

proof fn lemma_state_single_change(s: Seq<u8>, i: int, b: u8, dk: Seq<u8>)
    requires
        0 <= i < s.len(),
        s[i] != b,
    ensures
        tag_state(s.update(i, b), dk) != tag_state(s, dk),
    decreases s.len(),
{
    let t = s.update(i, b);
    let d = s.drop_last();
    let k = dk[(s.len() - 1) % 32];
    if i == s.len() - 1 {
        assert(t.drop_last() =~= d);
        lemma_step_injective_byte(tag_state(d, dk), b, s.last(), k);
    } else {
        assert(t.drop_last() =~= d.update(i, b));
        assert(d[i] == s[i]);
        lemma_state_single_change(d, i, b, dk);
        assert(t.last() == s.last());
        lemma_step_injective_state(tag_state(t.drop_last(), dk), tag_state(d, dk), s.last(), k);
    }
}

proof fn lemma_word_bytes_injective(h1: u32, h2: u32)
    requires
        h1 != h2,
    ensures
        word_bytes(h1) != word_bytes(h2),
{
    let a0: u32 = h1 & 0xffu32;
    let a1: u32 = (h1 >> 8u32) & 0xffu32;
    let a2: u32 = (h1 >> 16u32) & 0xffu32;
    let a3: u32 = h1 >> 24u32;
    let b0: u32 = h2 & 0xffu32;
    let b1: u32 = (h2 >> 8u32) & 0xffu32;
    let b2: u32 = (h2 >> 16u32) & 0xffu32;
    let b3: u32 = h2 >> 24u32;
    assert(a0 < 256 && a1 < 256 && a2 < 256 && a3 < 256) by (bit_vector)
        requires
            a0 == h1 & 0xffu32,
            a1 == (h1 >> 8u32) & 0xffu32,
            a2 == (h1 >> 16u32) & 0xffu32,
            a3 == h1 >> 24u32,
    ;
    assert(b0 < 256 && b1 < 256 && b2 < 256 && b3 < 256) by (bit_vector)
        requires
            b0 == h2 & 0xffu32,
            b1 == (h2 >> 8u32) & 0xffu32,
            b2 == (h2 >> 16u32) & 0xffu32,
            b3 == h2 >> 24u32,
    ;
    assert(a0 != b0 || a1 != b1 || a2 != b2 || a3 != b3) by (bit_vector)
        requires
            h1 != h2,
            a0 == h1 & 0xffu32,
            a1 == (h1 >> 8u32) & 0xffu32,
            a2 == (h1 >> 16u32) & 0xffu32,
            a3 == h1 >> 24u32,
            b0 == h2 & 0xffu32,
            b1 == (h2 >> 8u32) & 0xffu32,
            b2 == (h2 >> 16u32) & 0xffu32,
            b3 == h2 >> 24u32,
    ;
    if a0 != b0 {
        assert(word_bytes(h1)[0] != word_bytes(h2)[0]);
    } else if a1 != b1 {
        assert(word_bytes(h1)[1] != word_bytes(h2)[1]);
    } else if a2 != b2 {
        assert(word_bytes(h1)[2] != word_bytes(h2)[2]);
    } else {
        assert(word_bytes(h1)[3] != word_bytes(h2)[3]);
    }
}

/// Integrity: changing any one byte of a cipher text that opens makes it
/// fail to open.  A change of the body changes the tag state for good (each
/// mixing step is one-to-one in the state and in the byte), and so the
/// expected tag; a change of the tag leaves the body, and so the expected
/// tag, as it was.  No 4-byte tag can do more for bodies of any length:
/// the texts within two byte changes of a long body outnumber the 2^32
/// tags, so some two-byte change keeps the tag.
pub proof fn lemma_tampering_rejected(cipher: Seq<u8>, secret_key: Seq<u8>, i: int, b: u8)
    requires
        opening(cipher, secret_key) is Some,
        0 <= i < cipher.len(),
        cipher[i] != b,
    ensures
        opening(cipher.update(i, b), secret_key) is None,
{
    let c2 = cipher.update(i, b);
    let n = cipher.len();
    let dk = derived_key(embedded_public_key(secret_key));
    let body = cipher.take(n - 4);
    let tag = cipher.skip(n - 4);
    if i < n - 4 {
        assert(c2.take(n - 4) =~= body.update(i, b));
        assert(c2.skip(n - 4) =~= tag);
        assert(body[i] == cipher[i]);
        lemma_state_single_change(body, i, b, dk);
        lemma_word_bytes_injective(tag_state(body.update(i, b), dk), tag_state(body, dk));
        assert(c2.skip(n - 4) != integrity_tag(c2.take(n - 4), dk));
    } else {
        assert(c2.take(n - 4) =~= body);
        assert(c2.skip(n - 4)[i - (n - 4)] == b);
        assert(tag[i - (n - 4)] == cipher[i]);
        assert(c2.skip(n - 4) != integrity_tag(c2.take(n - 4), dk));
    }
}

/// Integrity of the tag: any change confined to the four tag bytes of a
/// cipher text that opens makes it fail to open.
pub proof fn lemma_tag_tampering_rejected(cipher: Seq<u8>, secret_key: Seq<u8>, forged: Seq<u8>)
    requires
        opening(cipher, secret_key) is Some,
        forged.len() == cipher.len(),
        forged.take(cipher.len() - 4) == cipher.take(cipher.len() - 4),
        forged != cipher,
    ensures
        opening(forged, secret_key) is None,
{
    let n = cipher.len();
    assert(forged.skip(n - 4) != cipher.skip(n - 4)) by {
        if forged.skip(n - 4) == cipher.skip(n - 4) {
            assert(forged =~= forged.take(n - 4) + forged.skip(n - 4));
            assert(cipher =~= cipher.take(n - 4) + cipher.skip(n - 4));
        }
    }
}

fn derive_key_within(key: &[u8], start: usize, len: usize) -> (dk: Vec<u8>)
    requires
        len > 0,
        start + len <= key@.len(),
    ensures
        dk@ == derived_key(key@.subrange(start as int, start + len)),
{
    let ghost k = key@.subrange(start as int, start + len);
    let klen = key.len();
    let mut dk: Vec<u8> = Vec::new();
    let mut i: usize = 0;
    while i < 32
        invariant
            i <= 32,
            len > 0,
            start + len <= key@.len(),
            klen == key@.len(),
            k == key@.subrange(start as int, start + len),
            dk@ == derived_key(k).take(i as int),
        decreases 32 - i,
    {
        let off = i % len;
        assert(off < len) by (nonlinear_arith)
            requires
                len > 0,
                off == i % len,
        ;
        dk.push(key[start + off] ^ 0x5A);
        assert(dk@ =~= derived_key(k).take(i + 1));
        i += 1;
    }
    assert(derived_key(k).take(32) =~= derived_key(k));
    dk
}

fn apply_stream(data: &[u8], dk: &Vec<u8>) -> (out: Vec<u8>)
    requires
        dk@.len() == 32,
    ensures
        out@ == xor_stream(data@, dk@),
{
    let mut out: Vec<u8> = Vec::new();
    let mut idx: usize = 0;
    while idx < data.len()
        invariant
            idx <= data@.len(),
            dk@.len() == 32,
            out@ == xor_stream(data@, dk@).take(idx as int),
        decreases data@.len() - idx,
    {
        out.push(data[idx] ^ dk[idx % 32]);
        assert(out@ =~= xor_stream(data@, dk@).take(idx + 1));
        idx += 1;
    }
    assert(xor_stream(data@, dk@).take(data@.len() as int) =~= xor_stream(data@, dk@));
    out
}

fn tag_of(body: &[u8], dk: &Vec<u8>) -> (t: Vec<u8>)
    requires
        dk@.len() == 32,
    ensures
        t@ == integrity_tag(body@, dk@),
{
    let seed: u64 = dk[0] as u64 + dk[1] as u64 * 0x100 + dk[2] as u64 * 0x1_0000 + dk[3] as u64 * 0x100_0000;
    let mut h: u32 = seed as u32;
    assert(h == tag_seed(dk@));
    let mut i: usize = 0;
    while i < body.len()
        invariant
            i <= body@.len(),
            dk@.len() == 32,
            h == tag_state(body@.take(i as int), dk@),
        decreases body@.len() - i,
    {
        let ghost t = body@.take(i + 1);
        assert(t.drop_last() =~= body@.take(i as int));
        assert(t.last() == body@[i as int]);
        let x: u32 = (body[i] ^ dk[i % 32]) as u32;
        let m: u64 = (h ^ x) as u64 * MIX_MULTIPLIER;
        h = m as u32;
        i += 1;
    }
    assert(body@.take(body@.len() as int) =~= body@);
    let mut t: Vec<u8> = Vec::new();
    t.push((h & 0xff) as u8);
    t.push(((h >> 8) & 0xff) as u8);
    t.push(((h >> 16) & 0xff) as u8);
    t.push((h >> 24) as u8);
    assert(t@ =~= integrity_tag(body@, dk@));
    t
}

impl PostQuantumShield {
    pub fn new() -> (s: Self)
        ensures
            s.algorithm_identifier@ == "ML-KEM-1024"@,
            s.key_security_bits == 256,
    {
        Self { algorithm_identifier: "ML-KEM-1024".to_owned(), key_security_bits: 256 }
    }

    /// Generates the (public, secret) key pair, of the ML-KEM-1024 sizes; the
    /// secret key carries the public key at bytes 1536 to 3103.
    pub fn generate_quantum_keypair(&self) -> (r: Result<(Vec<u8>, Vec<u8>), CryptoError>)
        ensures
            r matches Ok((pk, sk)) && pk@ == public_key_bytes() && sk@ == secret_key_bytes(),
    {
        let mut public_key: Vec<u8> = Vec::new();
        let mut i: usize = 0;
        while i < PUBLIC_KEY_LEN
            invariant
                i <= 1568,
                public_key@ == public_key_bytes().take(i as int),
            decreases 1568 - i,
        {
            public_key.push(((i * 37) % 251) as u8);
            assert(public_key@ =~= public_key_bytes().take(i + 1));
            i += 1;
        }
        let mut secret_key: Vec<u8> = Vec::new();
        let mut j: usize = 0;
        while j < SECRET_KEY_LEN
            invariant
                j <= 3168,
                public_key@ == public_key_bytes().take(1568),
                secret_key@ == secret_key_bytes().take(j as int),
            decreases 3168 - j,
        {
            if EMBEDDED_KEY_OFFSET <= j && j < EMBEDDED_KEY_OFFSET + PUBLIC_KEY_LEN {
                secret_key.push(public_key[j - EMBEDDED_KEY_OFFSET]);
            } else {
                secret_key.push(((j * 73) % 251) as u8);
            }
            assert(secret_key@ =~= secret_key_bytes().take(j + 1));
            j += 1;
        }
        assert(public_key_bytes().take(1568) =~= public_key_bytes());
        assert(secret_key_bytes().take(3168) =~= secret_key_bytes());
        Ok((public_key, secret_key))
    }

    /// Encrypts a record with a key derived from `public_key` and appends
    /// the body's integrity tag; an empty key is refused.
    pub fn encrypt_record(&self, raw_data: &[u8], public_key: &[u8]) -> (r: Result<Vec<u8>, CryptoError>)
        ensures
            public_key@.len() == 0 ==> (r matches Err(CryptoError::HandshakeFailed(m))
                && m@ == "Public key register cannot be null."@),
            public_key@.len() > 0 ==> (r matches Ok(c) && c@ == sealed(raw_data@, public_key@)),
    {
        if public_key.len() == 0 {
            return Err(CryptoError::HandshakeFailed("Public key register cannot be null.".to_owned()));
        }
        let dk = derive_key_within(public_key, 0, public_key.len());
        assert(public_key@.subrange(0, public_key@.len() as int) =~= public_key@);
        let mut encrypted_payload = apply_stream(raw_data, &dk);
        let tag = tag_of(encrypted_payload.as_slice(), &dk);
        let ghost body = encrypted_payload@;
        let mut k: usize = 0;
        while k < 4
            invariant
                k <= 4,
                tag@.len() == 4,
                encrypted_payload@ == body + tag@.take(k as int),
            decreases 4 - k,
        {
            encrypted_payload.push(tag[k]);
            assert(encrypted_payload@ =~= body + tag@.take(k + 1));
            k += 1;
        }
        assert(tag@.take(4) =~= tag@);
        Ok(encrypted_payload)
    }

    /// Opens a cipher text with a secret key: the key must be a whole secret
    /// key, and the tag must match the body under the public key it carries;
    /// otherwise the result is `DecryptionError`.
    pub fn decrypt_record(&self, encrypted_data: &[u8], secret_key: &[u8]) -> (r: Result<Vec<u8>, CryptoError>)
        ensures
            match opening(encrypted_data@, secret_key@) {
                Some(p) => r matches Ok(q) && q@ == p,
                None => r matches Err(CryptoError::DecryptionError),
            },
    {
        let n = encrypted_data.len();
        if n < 4 || secret_key.len() != SECRET_KEY_LEN {
            return Err(CryptoError::DecryptionError);
        }
        let mut body: Vec<u8> = Vec::new();
        let mut k: usize = 0;
        while k < n - 4
            invariant
                n == encrypted_data@.len(),
                n >= 4,
                k <= n - 4,
                body@ == encrypted_data@.take(k as int),
            decreases n - 4 - k,
        {
            body.push(encrypted_data[k]);
            assert(body@ =~= encrypted_data@.take(k + 1));
            k += 1;
        }
        let dk = derive_key_within(secret_key, EMBEDDED_KEY_OFFSET, PUBLIC_KEY_LEN);
        let expected = tag_of(body.as_slice(), &dk);
        let ghost tag = encrypted_data@.skip(n - 4);
        if encrypted_data[n - 4] != expected[0] || encrypted_data[n - 3] != expected[1]
            || encrypted_data[n - 2] != expected[2] || encrypted_data[n - 1] != expected[3] {
            assert(tag != expected@) by {
                assert(tag[0] == encrypted_data@[n - 4]);
                assert(tag[1] == encrypted_data@[n - 3]);
                assert(tag[2] == encrypted_data@[n - 2]);
                assert(tag[3] == encrypted_data@[n - 1]);
            }
            return Err(CryptoError::DecryptionError);
        }
        assert(tag =~= expected@);
        let clear = apply_stream(body.as_slice(), &dk);
        Ok(clear)
    }
}

} // verus!
