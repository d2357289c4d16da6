use vstd::prelude::*;
use vstd::utf8::encode_utf8;

verus! {

/// `data` masked with repeating-key XOR: byte `i` is XORed with key byte
/// `i mod key.len()`. An empty key leaves the data unchanged.
pub open spec fn xor_mask(data: Seq<u8>, key: Seq<u8>) -> Seq<u8> {
    if key.len() == 0 {
        data
    } else {
        Seq::new(data.len(), |i: int| data[i] ^ key[i % (key.len() as int)])
    }
}

/// The characters of the string that `otp` builds: each masked byte of the
/// secret's UTF-8 encoding, read as the character with that code.
pub open spec fn otp_chars(secret: Seq<char>, password: Seq<char>) -> Seq<char> {
    if secret.len() == 0 || password.len() == 0 {
        secret
    } else {
        xor_mask(encode_utf8(secret), encode_utf8(password)).map_values(|b: u8| b as char)
    }
}

/// Repeating-key XOR of a byte sequence against a key. Masking twice with the
/// same key returns the original data; an empty key or empty data is identity.
pub fn transform(data: &Vec<u8>, key: &Vec<u8>) -> (r: Vec<u8>)
    ensures
        r@ == xor_mask(data@, key@),
{
    let mut result: Vec<u8> = Vec::new();
    if key.len() == 0 {
        let mut i: usize = 0;
        while i < data.len()
            invariant
                i <= data@.len(),
                result@ == data@.subrange(0, i as int),
            decreases data@.len() - i,
        {
            result.push(data[i]);
            i += 1;
        }
        proof {
            assert(result@ =~= data@);
        }
        return result;
    }
    let mut i: usize = 0;
    while i < data.len()
        invariant
            i <= data@.len(),
            key@.len() > 0,
            result@.len() == i,
            forall|j: int| 0 <= j < i ==> result@[j] == xor_mask(data@, key@)[j],
        decreases data@.len() - i,
    {
        result.push(data[i] ^ key[i % key.len()]);
        i += 1;
    }
    proof {
        assert(result@ =~= xor_mask(data@, key@));
    }
    result
}

/// One-time pad encryption of a string with a provided password string.
/// Can be used for both encryption and decryption.
///
/// # Arguments
///
/// * `secret` - The secret string
/// * `password` - The password string
///
pub fn otp(secret: &str, password: &str) -> (r: String)
    ensures
        r@ == otp_chars(secret@, password@),
{
    if password.is_empty() || secret.is_empty() {
        return secret.to_owned();
    }

    let sec_bytes = secret.as_bytes_vec();
    let pw_bytes = password.as_bytes_vec();
    let mut result: String = String::new();
    let mut idx: usize = 0;
    while idx < sec_bytes.len()
        invariant
            idx <= sec_bytes@.len(),
            pw_bytes@.len() > 0,
            sec_bytes@ == encode_utf8(secret@),
            pw_bytes@ == encode_utf8(password@),
            result@.len() == idx,
            forall|j: int| 0 <= j < idx ==> result@[j] == (xor_mask(sec_bytes@, pw_bytes@)[j] as char),
        decreases sec_bytes@.len() - idx,
    {
        let pw_idx = idx % pw_bytes.len();
        let c = (sec_bytes[idx] ^ pw_bytes[pw_idx]) as char;
        push_char(&mut result, c);
        idx += 1;
    }
    proof {
        assert(result@ =~= otp_chars(secret@, password@));
    }
    result
}

/// Relies on String::push: appends exactly the given character.
#[verifier::external_body]
fn push_char(s: &mut String, c: char)
    ensures
        final(s)@ == old(s)@.push(c),
{
    s.push(c);
}

/// Masking twice with the same key restores the data, and masking with an
/// empty key changes nothing.
pub proof fn lemma_transform_involution(data: Seq<u8>, key: Seq<u8>)
    ensures
        xor_mask(xor_mask(data, key), key) == data,
        xor_mask(data, Seq::<u8>::empty()) == data,
{
    if key.len() > 0 {
        assert forall|i: int| 0 <= i < data.len() implies xor_mask(xor_mask(data, key), key)[i]
            == data[i] by {
            let k = key[i % (key.len() as int)];
            let d = data[i];
            assert((d ^ k) ^ k == d) by (bit_vector);
        }
        assert(xor_mask(xor_mask(data, key), key) =~= data);
    }
}

} // verus!
