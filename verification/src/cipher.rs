//! The client's payload encryption: AES-128 in CBC mode with a fixed key and IV, over
//! ISO 10126 padding (here filled with zeros before the length byte).
use vstd::prelude::*;
use aes::cipher::{generic_array::GenericArray, BlockDecrypt, BlockEncrypt, KeyInit};
use aes::Aes128;
use crate::protobuf::ImportError;
use crate::text::{decimal_digits, string_from_chars, str_chars, u64_to_decimal};

verus! {

/// Bytes per AES block.
pub const BLOCK_SIZE: usize = 16;

/// What the `aes` crate's `Aes128` gives for one block encrypted under a key.
pub uninterp spec fn aes128_encrypt_spec(key: Seq<u8>, block: Seq<u8>) -> Seq<u8>;

/// What the `aes` crate's `Aes128` gives for one block decrypted under a key.
pub uninterp spec fn aes128_decrypt_spec(key: Seq<u8>, block: Seq<u8>) -> Seq<u8>;

/// `BlockEncrypt::encrypt_block` of the `aes` crate's `Aes128`, keyed with `key`. The contract
/// names the result and states what the crate documents: decrypting it under the same key
/// gives the block back.
#[verifier::external_body]
fn aes128_encrypt_block(key: &[u8; 16], block: [u8; 16]) -> (r: [u8; 16])
    ensures
        r@ == aes128_encrypt_spec(key@, block@),
        aes128_decrypt_spec(key@, r@) == block@,
{
    let cipher = Aes128::new(GenericArray::from_slice(key));
    let mut out = block;
    cipher.encrypt_block(GenericArray::from_mut_slice(&mut out));
    out
}

/// `BlockDecrypt::decrypt_block` of the `aes` crate's `Aes128`, keyed with `key`. The contract
/// names the result and states what the crate documents: encrypting it under the same key
/// gives the block back.
#[verifier::external_body]
fn aes128_decrypt_block(key: &[u8; 16], block: [u8; 16]) -> (r: [u8; 16])
    ensures
        r@ == aes128_decrypt_spec(key@, block@),
        aes128_encrypt_spec(key@, r@) == block@,
{
    let cipher = Aes128::new(GenericArray::from_slice(key));
    let mut out = block;
    cipher.decrypt_block(GenericArray::from_mut_slice(&mut out));
    out
}

/// The client's key, "wakakabiliwakaka".
pub open spec fn default_key_spec() -> Seq<u8> {
    seq![0x77u8, 0x61, 0x6b, 0x61, 0x6b, 0x61, 0x62, 0x69, 0x6c, 0x69, 0x77, 0x61, 0x6b, 0x61, 0x6b, 0x61]
}

/// The client's IV, "biliwakakawohaha".
pub open spec fn default_iv_spec() -> Seq<u8> {
    seq![0x62u8, 0x69, 0x6c, 0x69, 0x77, 0x61, 0x6b, 0x61, 0x6b, 0x61, 0x77, 0x6f, 0x68, 0x61, 0x68, 0x61]
}

fn default_key() -> (r: [u8; 16])
    ensures
        r@ == default_key_spec(),
{
    let r: [u8; 16] = [0x77, 0x61, 0x6b, 0x61, 0x6b, 0x61, 0x62, 0x69, 0x6c, 0x69, 0x77, 0x61, 0x6b, 0x61, 0x6b, 0x61];
    proof { assert(r@ =~= default_key_spec()); }
    r
}

fn default_iv() -> (r: [u8; 16])
    ensures
        r@ == default_iv_spec(),
{
    let r: [u8; 16] = [0x62, 0x69, 0x6c, 0x69, 0x77, 0x61, 0x6b, 0x61, 0x6b, 0x61, 0x77, 0x6f, 0x68, 0x61, 0x68, 0x61];
    proof { assert(r@ =~= default_iv_spec()); }
    r
}

/// Byte-wise exclusive or of two blocks.
pub open spec fn xor16(a: Seq<u8>, b: Seq<u8>) -> Seq<u8> {
    Seq::new(16, |k: int| a[k] ^ b[k])
}

/// Block `i` of `data`.
pub open spec fn block_of(data: Seq<u8>, i: int) -> Seq<u8> {
    data.subrange(16 * i, 16 * i + 16)
}

/// Ciphertext block `i` of CBC encryption: the cipher of the plaintext block xored with the
/// previous ciphertext block, or with the IV for the first.
pub open spec fn cbc_cipher_block(key: Seq<u8>, iv: Seq<u8>, data: Seq<u8>, i: nat) -> Seq<u8>
    decreases i,
{
    let previous = if i == 0 { iv } else { cbc_cipher_block(key, iv, data, (i - 1) as nat) };
    aes128_encrypt_spec(key, xor16(block_of(data, i as int), previous))
}

/// CBC encryption of whole blocks.
pub open spec fn cbc_encrypt(key: Seq<u8>, iv: Seq<u8>, data: Seq<u8>) -> Seq<u8> {
    Seq::new(data.len(), |j: int| cbc_cipher_block(key, iv, data, (j / 16) as nat)[j % 16])
}

/// Plaintext block `i` of CBC decryption: the deciphered block xored with the previous
/// ciphertext block, or with the IV for the first.
pub open spec fn cbc_plain_block(key: Seq<u8>, iv: Seq<u8>, data: Seq<u8>, i: int) -> Seq<u8> {
    let previous = if i == 0 { iv } else { block_of(data, i - 1) };
    xor16(aes128_decrypt_spec(key, block_of(data, i)), previous)
}

/// CBC decryption of whole blocks.
pub open spec fn cbc_decrypt(key: Seq<u8>, iv: Seq<u8>, data: Seq<u8>) -> Seq<u8> {
    Seq::new(data.len(), |j: int| cbc_plain_block(key, iv, data, j / 16)[j % 16])
}

/// A 16-byte block as an array.
pub fn block_to_array(block: &[u8]) -> (r: [u8; 16])
    requires
        block@.len() == 16,
    ensures
        r@ == block@,
{
    let mut out: [u8; 16] = [0; 16];
    let mut i: usize = 0;
    while i < 16
        invariant
            i <= 16,
            block@.len() == 16,
            forall|k: int| 0 <= k < i ==> out@[k] == block@[k],
        decreases 16 - i,
    {
        out[i] = block[i];
        i = i + 1;
    }
    proof { assert(out@ =~= block@); }
    out
}

/// Xors `other` into `block`.
pub fn xor_block(block: &mut [u8; 16], other: &[u8; 16])
    ensures
        final(block)@ == xor16(old(block)@, other@),
{
    let mut i: usize = 0;
    while i < 16
        invariant
            i <= 16,
            forall|k: int| 0 <= k < i ==> block@[k] == old(block)@[k] ^ other@[k],
            forall|k: int| i <= k < 16 ==> block@[k] == old(block)@[k],
        decreases 16 - i,
    {
        block[i] = block[i] ^ other[i];
        i = i + 1;
    }
    proof { assert(block@ =~= xor16(old(block)@, other@)); }
}

/// The block CBC encryption xors into plaintext block `i`: the IV, then the previous ciphertext block.
pub open spec fn cbc_previous(key: Seq<u8>, iv: Seq<u8>, data: Seq<u8>, i: int) -> Seq<u8> {
    if i == 0 { iv } else { cbc_cipher_block(key, iv, data, (i - 1) as nat) }
}

proof fn lemma_xor16_twice(a: Seq<u8>, b: Seq<u8>)
    requires
        a.len() == 16,
    ensures
        xor16(xor16(a, b), b) == a,
{
    assert forall|k: int| 0 <= k < 16 implies #[trigger] xor16(xor16(a, b), b)[k] == a[k] by {
        let x = a[k];
        let y = b[k];
        assert((x ^ y) ^ y == x) by (bit_vector);
    }
    assert(xor16(xor16(a, b), b) =~= a);
}

/// Every ciphertext block of `data` is a full block that deciphers to the plaintext block
/// xored with its predecessor.
pub open spec fn cbc_blocks_invert(key: Seq<u8>, iv: Seq<u8>, data: Seq<u8>, count: int) -> bool {
    forall|i: int| 0 <= i < count ==> (#[trigger] cbc_cipher_block(key, iv, data, i as nat)).len() == 16
        && aes128_decrypt_spec(key, cbc_cipher_block(key, iv, data, i as nat))
            == xor16(block_of(data, i), cbc_previous(key, iv, data, i))
}

proof fn lemma_cbc_block_of_encrypt(key: Seq<u8>, iv: Seq<u8>, data: Seq<u8>, i: int)
    requires
        0 <= i,
        16 * i + 16 <= data.len(),
        cbc_cipher_block(key, iv, data, i as nat).len() == 16,
    ensures
        block_of(cbc_encrypt(key, iv, data), i) == cbc_cipher_block(key, iv, data, i as nat),
{
    let c = cbc_encrypt(key, iv, data);
    assert forall|k: int| 0 <= k < 16 implies #[trigger] block_of(c, i)[k] == cbc_cipher_block(key, iv, data, i as nat)[k] by {
        assert((16 * i + k) / 16 == i);
        assert((16 * i + k) % 16 == k);
    }
    assert(block_of(c, i) =~= cbc_cipher_block(key, iv, data, i as nat));
}

proof fn lemma_cbc_decrypts_encryption(key: Seq<u8>, iv: Seq<u8>, data: Seq<u8>)
    requires
        data.len() % 16 == 0,
        cbc_blocks_invert(key, iv, data, (data.len() / 16) as int),
    ensures
        cbc_decrypt(key, iv, cbc_encrypt(key, iv, data)) == data,
{
    let c = cbc_encrypt(key, iv, data);
    assert forall|j: int| 0 <= j < data.len() implies #[trigger] cbc_decrypt(key, iv, c)[j] == data[j] by {
        let i = j / 16;
        let k = j % 16;
        assert(16 * i + k == j);
        assert(16 * i + 16 <= data.len());
        assert(cbc_cipher_block(key, iv, data, i as nat).len() == 16);
        lemma_cbc_block_of_encrypt(key, iv, data, i);
        if i > 0 {
            assert(cbc_cipher_block(key, iv, data, (i - 1) as nat).len() == 16);
            lemma_cbc_block_of_encrypt(key, iv, data, i - 1);
        }
        assert(block_of(data, i).len() == 16);
        lemma_xor16_twice(block_of(data, i), cbc_previous(key, iv, data, i));
        assert(cbc_plain_block(key, iv, c, i) == block_of(data, i));
    }
    assert(cbc_decrypt(key, iv, c) =~= data);
}

fn read_block(data: &Vec<u8>, start: usize) -> (r: [u8; 16])
    requires
        start + 16 <= data@.len(),
    ensures
        r@ == data@.subrange(start as int, start + 16),
{
    let len = data.len();
    let mut out: [u8; 16] = [0; 16];
    let mut i: usize = 0;
    while i < 16
        invariant
            i <= 16,
            len == data@.len(),
            start + 16 <= data@.len(),
            forall|k: int| 0 <= k < i ==> out@[k] == data@[start + k],
        decreases 16 - i,
    {
        out[i] = data[start + i];
        i = i + 1;
    }
    proof { assert(out@ =~= data@.subrange(start as int, start + 16)); }
    out
}

fn write_block(data: &mut Vec<u8>, start: usize, block: &[u8; 16])
    requires
        start + 16 <= old(data)@.len(),
    ensures
        final(data)@.len() == old(data)@.len(),
        forall|j: int| 0 <= j < old(data)@.len() ==> #[trigger] final(data)@[j]
            == if start <= j < start + 16 { block@[j - start] } else { old(data)@[j] },
{
    let len = data.len();
    let mut i: usize = 0;
    while i < 16
        invariant
            i <= 16,
            len == old(data)@.len(),
            start + 16 <= old(data)@.len(),
            data@.len() == old(data)@.len(),
            forall|j: int| 0 <= j < old(data)@.len() ==> #[trigger] data@[j]
                == if start <= j < start + i { block@[j - start] } else { old(data)@[j] },
        decreases 16 - i,
    {
        data.set(start + i, block[i]);
        i = i + 1;
    }
}

/// The CBC result of whole blocks, decrypting or encrypting.
pub open spec fn cbc_crypt(key: Seq<u8>, iv: Seq<u8>, data: Seq<u8>, decrypt: bool) -> Seq<u8> {
    if decrypt { cbc_decrypt(key, iv, data) } else { cbc_encrypt(key, iv, data) }
}

/// Runs AES-128-CBC with the client's key and IV over `data` in place. Fails, leaving the
/// data alone, when it is not a whole number of blocks.
pub fn aes_cbc_crypt(data: &mut Vec<u8>, decrypt: bool) -> (r: Result<(), ImportError>)
    ensures
        old(data)@.len() % 16 != 0 ==> (r matches Err(ImportError::Crypto(m)) && m@ == "AES-CBC data is not block aligned"@)
            && final(data)@ == old(data)@,
        old(data)@.len() % 16 == 0 ==> r is Ok
            && final(data)@ == cbc_crypt(default_key_spec(), default_iv_spec(), old(data)@, decrypt),
        old(data)@.len() % 16 == 0 && !decrypt ==>
            cbc_decrypt(default_key_spec(), default_iv_spec(), final(data)@) == old(data)@,
{
    if data.len() % BLOCK_SIZE != 0 {
        proof { reveal_strlit("AES-CBC data is not block aligned"); }
        return Err(ImportError::Crypto("AES-CBC data is not block aligned".to_owned()));
    }
    let ghost orig = data@;
    let ghost key_s = default_key_spec();
    let ghost iv_s = default_iv_spec();
    let ghost expected = cbc_crypt(key_s, iv_s, orig, decrypt);
    let key = default_key();
    let mut previous = default_iv();
    let len = data.len();
    let blocks = len / BLOCK_SIZE;
    let mut b: usize = 0;
    while b < blocks
        invariant
            b <= blocks,
            len == orig.len(),
            blocks * 16 == orig.len(),
            data@.len() == orig.len(),
            key@ == key_s,
            expected == cbc_crypt(key_s, iv_s, orig, decrypt),
            forall|j: int| 0 <= j < 16 * b ==> #[trigger] data@[j] == expected[j],
            forall|j: int| 16 * b <= j < orig.len() ==> #[trigger] data@[j] == orig[j],
            previous@ == (if b == 0 { iv_s } else if decrypt { block_of(orig, b - 1) } else {
                cbc_cipher_block(key_s, iv_s, orig, (b - 1) as nat)
            }),
            !decrypt ==> cbc_blocks_invert(key_s, iv_s, orig, b as int),
        decreases blocks - b,
    {
        let start = b * BLOCK_SIZE;
        let block = read_block(data, start);
        proof {
            assert(block@ =~= block_of(orig, b as int));
        }
        let out: [u8; 16];
        if decrypt {
            let mut plain = aes128_decrypt_block(&key, block);
            xor_block(&mut plain, &previous);
            out = plain;
            previous = block;
            proof {
                assert(out@ == cbc_plain_block(key_s, iv_s, orig, b as int));
            }
        } else {
            let mut mixed = block;
            xor_block(&mut mixed, &previous);
            let cipher_block = aes128_encrypt_block(&key, mixed);
            out = cipher_block;
            previous = cipher_block;
            proof {
                assert(out@ == cbc_cipher_block(key_s, iv_s, orig, b as nat));
                assert(previous@ == cbc_cipher_block(key_s, iv_s, orig, b as nat));
                assert(aes128_decrypt_spec(key_s, cbc_cipher_block(key_s, iv_s, orig, b as nat))
                    == xor16(block_of(orig, b as int), cbc_previous(key_s, iv_s, orig, b as int)));
                assert(cbc_cipher_block(key_s, iv_s, orig, b as nat).len() == 16);
            }
        }
        write_block(data, start, &out);
        proof {
            assert forall|j: int| 0 <= j < 16 * (b + 1) implies #[trigger] data@[j] == expected[j] by {
                if j >= 16 * b {
                    assert(j / 16 == b);
                    assert(j % 16 == j - start);
                }
            }
        }
        b = b + 1;
    }
    proof {
        assert(data@ =~= expected);
        if !decrypt {
            lemma_cbc_decrypts_encryption(key_s, iv_s, orig);
        }
    }
    Ok(())
}

/// Number of padding bytes: enough to end on a block boundary, a whole block when already there.
pub open spec fn pad_len_spec(len: int) -> int {
    16 - len % 16
}

/// ISO 10126 padding as the client writes it: zeros, then the padding length.
pub open spec fn iso10126_pad_spec(plain: Seq<u8>) -> Seq<u8> {
    let pad = pad_len_spec(plain.len() as int);
    plain + Seq::new((pad - 1) as nat, |i: int| 0u8) + seq![pad as u8]
}

/// Pads `plain` to whole blocks.
pub fn iso10126_pad(plain: &[u8]) -> (r: Vec<u8>)
    requires
        plain@.len() + 16 <= usize::MAX,
    ensures
        r@ == iso10126_pad_spec(plain@),
{
    let pad_len = BLOCK_SIZE - (plain.len() % BLOCK_SIZE);
    let mut out: Vec<u8> = Vec::new();
    let mut i: usize = 0;
    while i < plain.len()
        invariant
            i <= plain@.len(),
            out@ =~= plain@.subrange(0, i as int),
        decreases plain@.len() - i,
    {
        out.push(plain[i]);
        i = i + 1;
    }
    let mut k: usize = 1;
    while k < pad_len
        invariant
            1 <= k <= pad_len <= 16,
            out@ =~= plain@ + Seq::new((k - 1) as nat, |i: int| 0u8),
        decreases pad_len - k,
    {
        out.push(0);
        k = k + 1;
    }
    out.push(pad_len as u8);
    proof {
        assert(out@ =~= iso10126_pad_spec(plain@));
    }
    out
}

/// The message for a bad padding length.
pub open spec fn invalid_pad_message(pad: u8) -> Seq<char> {
    "invalid ISO10126 pad length "@ + decimal_digits(pad as nat)
}

/// Removing ISO 10126 padding: the last byte gives its length, which must be 1 to 16 and fit.
pub open spec fn iso10126_unpad_spec(data: Seq<u8>) -> Result<Seq<u8>, Seq<char>> {
    if data.len() == 0 {
        Err("missing ISO10126 padding"@)
    } else {
        let pad = data.last();
        if pad < 1 || pad > 16 || pad > data.len() {
            Err(invalid_pad_message(pad))
        } else {
            Ok(data.subrange(0, data.len() - pad))
        }
    }
}

/// Removes ISO 10126 padding.
pub fn iso10126_unpad(data: &[u8]) -> (r: Result<Vec<u8>, ImportError>)
    ensures
        match iso10126_unpad_spec(data@) {
            Ok(plain) => r matches Ok(v) && v@ == plain,
            Err(m) => r matches Err(ImportError::Crypto(e)) && e@ == m,
        },
{
    if data.len() == 0 {
        proof { reveal_strlit("missing ISO10126 padding"); }
        return Err(ImportError::Crypto("missing ISO10126 padding".to_owned()));
    }
    let pad_len = data[data.len() - 1];
    if pad_len < 1 || pad_len as usize > BLOCK_SIZE || pad_len as usize > data.len() {
        let mut message = str_chars("invalid ISO10126 pad length ");
        let digits = u64_to_decimal(pad_len as u64);
        let ghost head = message@;
        let mut i: usize = 0;
        while i < digits.len()
            invariant
                i <= digits@.len(),
                message@ =~= head + digits@.subrange(0, i as int),
            decreases digits@.len() - i,
        {
            message.push(digits[i]);
            i = i + 1;
        }
        proof {
            reveal_strlit("invalid ISO10126 pad length ");
            assert(digits@.subrange(0, digits@.len() as int) =~= digits@);
        }
        return Err(ImportError::Crypto(string_from_chars(&message)));
    }
    let end = data.len() - pad_len as usize;
    let mut out: Vec<u8> = Vec::new();
    let mut i: usize = 0;
    while i < end
        invariant
            i <= end <= data@.len(),
            out@ =~= data@.subrange(0, i as int),
        decreases end - i,
    {
        out.push(data[i]);
        i = i + 1;
    }
    Ok(out)
}

/// Unpadding gives back what padding was applied to.
pub proof fn lemma_iso10126_unpad_pads(plain: Seq<u8>)
    ensures
        iso10126_unpad_spec(iso10126_pad_spec(plain)) == Ok::<Seq<u8>, Seq<char>>(plain),
        iso10126_pad_spec(plain).len() % 16 == 0,
        iso10126_pad_spec(plain).len() > 0,
{
    let padded = iso10126_pad_spec(plain);
    let pad = pad_len_spec(plain.len() as int);
    assert(1 <= pad <= 16);
    assert(padded.last() == pad as u8);
    assert(padded.subrange(0, padded.len() - pad) =~= plain);
}

/// The client's encryption of a payload: padded, then CBC-encrypted.
pub open spec fn aes_encrypt_iso10126_spec(plain: Seq<u8>) -> Seq<u8> {
    cbc_encrypt(default_key_spec(), default_iv_spec(), iso10126_pad_spec(plain))
}

/// The client's decryption of a payload: whole non-empty blocks, CBC-decrypted, then unpadded.
pub open spec fn aes_decrypt_iso10126_spec(cipher: Seq<u8>) -> Result<Seq<u8>, Seq<char>> {
    if cipher.len() == 0 || cipher.len() % 16 != 0 {
        Err("invalid AES block length"@)
    } else {
        iso10126_unpad_spec(cbc_decrypt(default_key_spec(), default_iv_spec(), cipher))
    }
}

/// Encrypts a payload the way the client does. The ciphertext is the payload
/// padded up to the next whole block, a full block more when it already ends on
/// one, and the client's decryption of it gives the payload back.
pub fn aes_encrypt_iso10126(plain: &[u8]) -> (r: Result<Vec<u8>, ImportError>)
    requires
        plain@.len() + 16 <= usize::MAX,
    ensures
        r matches Ok(c) && c@ == aes_encrypt_iso10126_spec(plain@)
            && aes_decrypt_iso10126_spec(c@) == Ok::<Seq<u8>, Seq<char>>(plain@)
            && c@.len() == (plain@.len() / 16 + 1) * 16,
{
    let mut data = iso10126_pad(plain);
    proof {
        lemma_iso10126_unpad_pads(plain@);
        assert(iso10126_pad_spec(plain@).len() == (plain@.len() / 16 + 1) * 16);
    }
    match aes_cbc_crypt(&mut data, false) {
        Ok(()) => Ok(data),
        Err(e) => Err(e),
    }
}

/// Decrypts a payload the way the client does.
pub fn aes_decrypt_iso10126(ciphertext: &[u8]) -> (r: Result<Vec<u8>, ImportError>)
    ensures
        match aes_decrypt_iso10126_spec(ciphertext@) {
            Ok(plain) => r matches Ok(v) && v@ == plain,
            Err(m) => r matches Err(ImportError::Crypto(e)) && e@ == m,
        },
{
    if ciphertext.len() == 0 || ciphertext.len() % BLOCK_SIZE != 0 {
        proof { reveal_strlit("invalid AES block length"); }
        return Err(ImportError::Crypto("invalid AES block length".to_owned()));
    }
    let mut data = vstd::slice::slice_to_vec(ciphertext);
    match aes_cbc_crypt(&mut data, true) {
        Ok(()) => {},
        Err(e) => return Err(e),
    }
    iso10126_unpad(data.as_slice())
}

/// The client's AES key is the ASCII text "wakakabiliwakaka" and its IV the
/// ASCII text "biliwakakawohaha", byte for byte.
pub proof fn lemma_client_key_and_iv_text()
    ensures
        default_key_spec().len() == 16,
        forall|i: int| 0 <= i < 16 ==> #[trigger] default_key_spec()[i] as u32 == ("wakakabiliwakaka"@[i] as u32),
        default_iv_spec().len() == 16,
        forall|i: int| 0 <= i < 16 ==> #[trigger] default_iv_spec()[i] as u32 == ("biliwakakawohaha"@[i] as u32),
{
    reveal_strlit("wakakabiliwakaka");
    reveal_strlit("biliwakakawohaha");
}

} // verus!
