//! The cipher envelope: PKCS5 padding to 16-byte blocks and blockwise
//! AES-128 encryption, each block handled independently under the same key
//! (no chaining and no IV, a deliberate — and weak — wire format).

use vstd::prelude::*;

use crate::errors::Error;

verus! {

/// The AES-128 encryption of one 16-byte block under a 16-byte key.
pub uninterp spec fn aes128_enc(key: Seq<u8>, block: Seq<u8>) -> Seq<u8>;

/// The AES-128 decryption of one 16-byte block under a 16-byte key.
pub uninterp spec fn aes128_dec(key: Seq<u8>, block: Seq<u8>) -> Seq<u8>;

/// Relies on `aes::Aes128` (`KeyInit::new_from_slice`,
/// `BlockEncrypt::encrypt_block`):
/// AES-128 maps a 16-byte block to a 16-byte block, determined by the key and
/// the block alone, and decryption under the same key inverts it.
#[verifier::external_body]
fn encrypt_block(key: &[u8; 16], block: &Vec<u8>) -> (r: Vec<u8>)
    requires
        block@.len() == 16,
    ensures
        r@ == aes128_enc(key@, block@),
        r@.len() == 16,
        aes128_dec(key@, r@) == block@,
{
    let cipher = <aes::Aes128 as aes::cipher::KeyInit>::new_from_slice(key).unwrap();
    let mut b = aes::Block::clone_from_slice(block.as_slice());
    aes::cipher::BlockEncrypt::encrypt_block(&cipher, &mut b);
    b.to_vec()
}

/// Relies on `aes::Aes128` (`KeyInit::new_from_slice`,
/// `BlockDecrypt::decrypt_block`):
/// the decryption of a 16-byte block is a 16-byte block, determined by the
/// key and the block alone.
#[verifier::external_body]
fn decrypt_block(key: &[u8; 16], block: &Vec<u8>) -> (r: Vec<u8>)
    requires
        block@.len() == 16,
    ensures
        r@ == aes128_dec(key@, block@),
        r@.len() == 16,
{
    let cipher = <aes::Aes128 as aes::cipher::KeyInit>::new_from_slice(key).unwrap();
    let mut b = aes::Block::clone_from_slice(block.as_slice());
    aes::cipher::BlockDecrypt::decrypt_block(&cipher, &mut b);
    b.to_vec()
}

/// PKCS5 padding: append `k` copies of the byte `k`, where
/// `k = 16 - len % 16` lies in `1..=16`. Already-aligned input gains a full
/// block of padding.
pub open spec fn pad16(p: Seq<u8>) -> Seq<u8> {
    let k = 16 - p.len() as int % 16;
    p + Seq::new(k as nat, |i: int| k as u8)
}

/// The inverse of `pad16` on well-padded input: read the last byte as the
/// padding count and drop that many trailing bytes. `None` when the buffer
/// is empty or the count exceeds the buffer's length. The trailing bytes are
/// not checked against the count, mirroring the wire format's (weak) rules.
pub open spec fn unpad16(d: Seq<u8>) -> Option<Seq<u8>> {
    if d.len() == 0 {
        None
    } else {
        let k = d.last() as int;
        if k > d.len() {
            None
        } else {
            Some(d.take(d.len() - k))
        }
    }
}

/// Blockwise AES-128 encryption of a buffer whose length is a multiple of 16.
pub open spec fn enc_blocks(key: Seq<u8>, p: Seq<u8>) -> Seq<u8>
    decreases p.len(),
{
    if p.len() < 16 {
        p
    } else {
        aes128_enc(key, p.take(16)) + enc_blocks(key, p.skip(16))
    }
}

/// Blockwise AES-128 decryption of a buffer whose length is a multiple of 16.
pub open spec fn dec_blocks(key: Seq<u8>, c: Seq<u8>) -> Seq<u8>
    decreases c.len(),
{
    if c.len() < 16 {
        c
    } else {
        aes128_dec(key, c.take(16)) + dec_blocks(key, c.skip(16))
    }
}

/// Appending one whole block to an aligned buffer appends its encryption
/// (resp. decryption) to the blockwise result.
proof fn lemma_blocks_append(key: Seq<u8>, c: Seq<u8>, b: Seq<u8>)
    requires
        c.len() % 16 == 0,
        b.len() == 16,
    ensures
        enc_blocks(key, c + b) == enc_blocks(key, c) + aes128_enc(key, b),
        dec_blocks(key, c + b) == dec_blocks(key, c) + aes128_dec(key, b),
    decreases c.len(),
{
    if c.len() == 0 {
        assert((c + b).take(16) =~= b);
        assert((c + b).skip(16) =~= Seq::<u8>::empty());
        assert(c =~= Seq::<u8>::empty());
        assert(aes128_enc(key, b) + Seq::<u8>::empty() =~= aes128_enc(key, b));
        assert(aes128_dec(key, b) + Seq::<u8>::empty() =~= aes128_dec(key, b));
        assert(Seq::<u8>::empty() + aes128_enc(key, b) =~= aes128_enc(key, b));
        assert(Seq::<u8>::empty() + aes128_dec(key, b) =~= aes128_dec(key, b));
    } else {
        assert(c.len() >= 16);
        assert((c + b).take(16) =~= c.take(16));
        assert((c + b).skip(16) =~= c.skip(16) + b);
        assert(c.skip(16).len() % 16 == 0);
        lemma_blocks_append(key, c.skip(16), b);
        let e1 = aes128_enc(key, c.take(16));
        let d1 = aes128_dec(key, c.take(16));
        assert(e1 + (enc_blocks(key, c.skip(16)) + aes128_enc(key, b)) =~= (e1 + enc_blocks(
            key,
            c.skip(16),
        )) + aes128_enc(key, b));
        assert(d1 + (dec_blocks(key, c.skip(16)) + aes128_dec(key, b)) =~= (d1 + dec_blocks(
            key,
            c.skip(16),
        )) + aes128_dec(key, b));
    }
}

/// Unpadding inverts padding: `unpad16(pad16(p)) == Some(p)`.
pub proof fn lemma_unpad_pad(p: Seq<u8>)
    ensures
        unpad16(pad16(p)) == Some(p),
{
    let k = 16 - p.len() as int % 16;
    let padded = pad16(p);
    assert(1 <= k <= 16);
    assert(padded.len() == p.len() + k);
    assert(padded.last() == k as u8);
    assert(padded.take(padded.len() - k) =~= p);
}

/// Pad `plain` to a 16-byte boundary (always adding at least one byte) and
/// encrypt each 16-byte block independently under `key`.
pub fn seal(plain: &Vec<u8>, key: &[u8; 16]) -> (r: Vec<u8>)
    requires
        plain@.len() + 16 <= usize::MAX,
    ensures
        r@ == enc_blocks(key@, pad16(plain@)),
        dec_blocks(key@, r@) == pad16(plain@),
        r@.len() == pad16(plain@).len(),
        r@.len() % 16 == 0,
        r@.len() == 16 * (plain@.len() / 16) + 16,
{
    let len = plain.len();
    let pad_n: usize = 16 - len % 16;
    let mut padded: Vec<u8> = Vec::new();
    let mut i: usize = 0;
    while i < len
        invariant
            i <= len,
            len == plain@.len(),
            padded@ == plain@.take(i as int),
        decreases len - i,
    {
        padded.push(plain[i]);
        assert(plain@.take(i as int).push(plain@[i as int]) =~= plain@.take(i as int + 1));
        i = i + 1;
    }
    assert(plain@.take(len as int) =~= plain@);
    let mut j: usize = 0;
    while j < pad_n
        invariant
            j <= pad_n,
            pad_n == 16 - plain@.len() as int % 16,
            padded@ == plain@ + Seq::new(j as nat, |q: int| pad_n as u8),
        decreases pad_n - j,
    {
        padded.push(pad_n as u8);
        assert((plain@ + Seq::new(j as nat, |q: int| pad_n as u8)).push(pad_n as u8) =~= plain@
            + Seq::new(j as nat + 1, |q: int| pad_n as u8));
        j = j + 1;
    }
    assert(padded@ =~= pad16(plain@));
    encrypt_aligned(&padded, key)
}

/// Encrypt each 16-byte block of an aligned buffer independently under `key`.
fn encrypt_aligned(padded: &Vec<u8>, key: &[u8; 16]) -> (r: Vec<u8>)
    requires
        padded@.len() % 16 == 0,
    ensures
        r@ == enc_blocks(key@, padded@),
        dec_blocks(key@, r@) == padded@,
        r@.len() == padded@.len(),
{
    let total = padded.len();
    let mut out: Vec<u8> = Vec::new();
    let mut off: usize = 0;
    while off < total
        invariant
            total == padded@.len(),
            total % 16 == 0,
            off % 16 == 0,
            off <= total,
            out@.len() == off,
            out@ == enc_blocks(key@, padded@.take(off as int)),
            dec_blocks(key@, out@) == padded@.take(off as int),
        decreases total - off,
    {
        assert(off + 16 <= total);
        let block = copy_block(padded, off);
        let mut enc = encrypt_block(key, &block);
        proof {
            lemma_blocks_append(key@, padded@.take(off as int), block@);
            lemma_blocks_append(key@, out@, enc@);
            assert(padded@.take(off as int) + block@ =~= padded@.take(off as int + 16));
        }
        out.append(&mut enc);
        off = off + 16;
    }
    assert(padded@.take(total as int) =~= padded@);
    out
}

/// Copy the 16-byte block of `buf` that starts at `off`.
fn copy_block(buf: &Vec<u8>, off: usize) -> (r: Vec<u8>)
    requires
        off + 16 <= buf@.len(),
    ensures
        r@ == buf@.subrange(off as int, off as int + 16),
        r@.len() == 16,
{
    let n = buf.len();
    let mut block: Vec<u8> = Vec::new();
    let mut j: usize = 0;
    while j < 16
        invariant
            j <= 16,
            n == buf@.len(),
            off + 16 <= n,
            block@ == buf@.subrange(off as int, off as int + j as int),
        decreases 16 - j,
    {
        block.push(buf[off + j]);
        assert(buf@.subrange(off as int, off as int + j as int).push(buf@[off as int + j as int])
            =~= buf@.subrange(off as int, off as int + j as int + 1));
        j = j + 1;
    }
    block
}

/// Decrypt each 16-byte block of `sealed` independently under `key`, then
/// strip the PKCS5 padding: the last decrypted byte gives the count of
/// trailing bytes to drop. Fails with `InvalidPadding` when the buffer is
/// empty or the count exceeds the buffer's length; the dropped bytes are not
/// themselves checked.
pub fn open_sealed(sealed: &Vec<u8>, key: &[u8; 16]) -> (r: Result<Vec<u8>, Error>)
    requires
        sealed@.len() % 16 == 0,
    ensures
        (match unpad16(dec_blocks(key@, sealed@)) {
            Some(p) => r matches Ok(v) && v@ == p,
            None => r == Err::<Vec<u8>, Error>(Error::InvalidPadding),
        }),
{
    let total = sealed.len();
    let mut data: Vec<u8> = Vec::new();
    let mut off: usize = 0;
    while off < total
        invariant
            total == sealed@.len(),
            total % 16 == 0,
            off % 16 == 0,
            off <= total,
            data@.len() == off,
            data@ == dec_blocks(key@, sealed@.take(off as int)),
        decreases total - off,
    {
        assert(off + 16 <= total);
        let block = copy_block(sealed, off);
        let mut dec = decrypt_block(key, &block);
        proof {
            lemma_blocks_append(key@, sealed@.take(off as int), block@);
            assert(sealed@.take(off as int) + block@ =~= sealed@.take(off as int + 16));
        }
        data.append(&mut dec);
        off = off + 16;
    }
    assert(sealed@.take(total as int) =~= sealed@);
    if data.len() == 0 {
        return Err(Error::InvalidPadding);
    }
    let k = data[data.len() - 1];
    assert(k == dec_blocks(key@, sealed@).last());
    if (k as usize) > data.len() {
        return Err(Error::InvalidPadding);
    }
    let keep = data.len() - k as usize;
    data.truncate(keep);
    Ok(data)
}

} // verus!
