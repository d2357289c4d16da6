use vstd::prelude::*;
use vstd::utf8::{decode_utf8, encode_utf8, valid_utf8};
use crate::bit_ops::{
    bit_of, byte_of_bits, lsb_of, set_lsb_spec, BitBuffer, BitOps, lemma_lsb_of_set_lsb,
    lemma_byte_of_bits_of, lemma_set_bit_chain,
};
use crate::color::Color;
use crate::img_ops::{
    img_dims, img_dimensions, img_get_pixel, img_put_pixel, img_collect_pixels, img_pixels,
    img_stores_rgba,
};
use crate::otp::{transform, xor_mask, lemma_transform_involution};
use image::DynamicImage;

verus! {

/// Failures of the embedding operations. Extraction reports no failure: a
/// carrier without a recoverable secret simply yields no result.
#[derive(Clone, Copy, Debug, PartialEq, Eq, Structural)]
pub enum HipsError {
    /// The secret to embed was the empty string.
    EmptySecret,
    /// The carrier holds fewer than three pixels per secret byte.
    InsufficientCapacity,
    /// The carrier image could not be loaded.
    ImageLoadFailure,
}

/// The bytes that are written into a carrier: the secret's UTF-8 encoding,
/// masked with the password's UTF-8 encoding when a password is given.
pub open spec fn payload_bytes(secret: Seq<char>, password: Option<Seq<char>>) -> Seq<u8> {
    match password {
        Some(p) => xor_mask(encode_utf8(secret), encode_utf8(p)),
        None => encode_utf8(secret),
    }
}

/// The pixel `p` after the codec wrote bit group `chunk` (0, 1 or 2) of the
/// payload byte `byte` into its channel LSBs. The third pixel's blue LSB is
/// the termination flag: odd while more payload bytes follow, even on the
/// last byte. The alpha channel is never touched.
pub open spec fn encoded_pixel(p: Color, byte: u8, chunk: int, last: bool) -> Color {
    if chunk == 0 {
        Color {
            r: set_lsb_spec(p.r, bit_of(byte, 0)),
            g: set_lsb_spec(p.g, bit_of(byte, 1)),
            b: set_lsb_spec(p.b, bit_of(byte, 2)),
            a: p.a,
        }
    } else if chunk == 1 {
        Color {
            r: set_lsb_spec(p.r, bit_of(byte, 3)),
            g: set_lsb_spec(p.g, bit_of(byte, 4)),
            b: set_lsb_spec(p.b, bit_of(byte, 5)),
            a: p.a,
        }
    } else {
        Color {
            r: set_lsb_spec(p.r, bit_of(byte, 6)),
            g: set_lsb_spec(p.g, bit_of(byte, 7)),
            b: set_lsb_spec(p.b, !last),
            a: p.a,
        }
    }
}

/// The carrier after the payload was written: payload byte `k` occupies the
/// channel LSBs of pixels `3k`, `3k + 1` and `3k + 2`; later pixels are kept.
pub open spec fn embedded_pixels(orig: Seq<Color>, payload: Seq<u8>) -> Seq<Color>
    recommends
        3 * payload.len() <= orig.len(),
{
    Seq::new(
        orig.len(),
        |n: int|
            if n < 3 * payload.len() {
                encoded_pixel(orig[n], payload[n / 3], n % 3, n / 3 + 1 == payload.len() as int)
            } else {
                orig[n]
            },
    )
}

/// The payload byte stored in the pixel group `g` of a carrier: the channel
/// LSBs of pixels `3g` and `3g + 1` and the red and green LSBs of `3g + 2`.
pub open spec fn group_byte(pix: Seq<Color>, g: int) -> u8
    recommends
        0 <= g,
        3 * g + 3 <= pix.len(),
{
    byte_of_bits(
        lsb_of(pix[3 * g].r),
        lsb_of(pix[3 * g].g),
        lsb_of(pix[3 * g].b),
        lsb_of(pix[3 * g + 1].r),
        lsb_of(pix[3 * g + 1].g),
        lsb_of(pix[3 * g + 1].b),
        lsb_of(pix[3 * g + 2].r),
        lsb_of(pix[3 * g + 2].g),
    )
}

/// The termination flag of pixel group `g`: odd means more groups follow.
pub open spec fn group_continues(pix: Seq<Color>, g: int) -> bool
    recommends
        0 <= g,
        3 * g + 3 <= pix.len(),
{
    lsb_of(pix[3 * g + 2].b)
}

/// The raw bytes a decoder collects from group `g` onward: one byte per full
/// group of three pixels, stopping after the first group whose termination
/// flag is even, or when no full group is left.
pub open spec fn extracted_bytes_from(pix: Seq<Color>, g: int) -> Seq<u8>
    recommends
        0 <= g,
    decreases pix.len() - 3 * g,
{
    if g < 0 || 3 * g + 3 > pix.len() {
        Seq::empty()
    } else if group_continues(pix, g) {
        seq![group_byte(pix, g)] + extracted_bytes_from(pix, g + 1)
    } else {
        seq![group_byte(pix, g)]
    }
}

/// All raw bytes a decoder collects from the carrier.
pub open spec fn extracted_bytes(pix: Seq<Color>) -> Seq<u8> {
    extracted_bytes_from(pix, 0)
}

/// What extraction returns on a carrier: nothing if the carrier cannot hold a
/// single group, if the unmasked bytes are not valid UTF-8, or if they decode
/// to the empty string or to a single null character; otherwise the decoded
/// characters.
pub open spec fn extract_spec(pix: Seq<Color>, password: Option<Seq<char>>) -> Option<Seq<char>> {
    if pix.len() < 3 {
        None
    } else {
        let raw = extracted_bytes(pix);
        let plain = match password {
            Some(p) => xor_mask(raw, encode_utf8(p)),
            None => raw,
        };
        if !valid_utf8(plain) {
            None
        } else {
            let s = decode_utf8(plain);
            if s.len() == 0 || (s.len() == 1 && s[0] == '\0') {
                None
            } else {
                Some(s)
            }
        }
    }
}

/// Hides a secret in a vector of pixels.
///
/// Fails on an empty secret, and on a carrier with fewer than three pixels
/// per byte of the secret's UTF-8 encoding; then the carrier is untouched.
/// Otherwise every group of three leading pixels receives one payload byte in
/// its channel LSBs and all remaining pixels are kept.
///
/// # Arguments
///
/// * `pixels` - Vector of pixels the secret will be hidden in.
/// * `secret` - The secret string.
///
pub fn hide_secret_col(pixels: &mut Vec<Color>, secret: &String, password: Option<String>) -> (r:
    Result<(), HipsError>)
    ensures
        secret@.len() == 0 ==> r == Err::<(), HipsError>(HipsError::EmptySecret) && final(pixels)@
            == old(pixels)@,
        secret@.len() > 0 && old(pixels)@.len() < 3 * encode_utf8(secret@).len() ==> r == Err::<
            (),
            HipsError,
        >(HipsError::InsufficientCapacity) && final(pixels)@ == old(pixels)@,
        secret@.len() > 0 && old(pixels)@.len() >= 3 * encode_utf8(secret@).len() ==> r == Ok::<
            (),
            HipsError,
        >(()) && final(pixels)@ == embedded_pixels(
            old(pixels)@,
            payload_bytes(secret@, password.deep_view()),
        ),
{
    let ghost pw_view = password.deep_view();
    if secret.as_str().is_empty() {
        return Err(HipsError::EmptySecret);
    }
    let secret_bytes = secret.as_str().as_bytes_vec();
    proof {
        lemma_encode_utf8_len(secret@);
    }
    if (pixels.len() as u128) < (secret_bytes.len() as u128) * 3 {
        return Err(HipsError::InsufficientCapacity);
    }

    let payload: Vec<u8> = match password {
        Some(pwd) => transform(&secret_bytes, &pwd.as_str().as_bytes_vec()),
        None => secret_bytes,
    };
    assert(payload@ == payload_bytes(secret@, pw_view));
    assert(payload@.len() > 0);

    let ghost orig = pixels@;
    proof {
        assert(orig.len() <= usize::MAX);
    }
    let mut byte_idx: usize = 0;
    while byte_idx < payload.len()
        invariant
            byte_idx <= payload@.len(),
            0 < 3 * payload@.len() <= orig.len() <= usize::MAX,
            pixels@.len() == orig.len(),
            forall|n: int|
                0 <= n < 3 * byte_idx ==> pixels@[n] == embedded_pixels(orig, payload@)[n],
            forall|n: int| 3 * byte_idx <= n < orig.len() ==> pixels@[n] == orig[n],
        decreases payload@.len() - byte_idx,
    {
        let byte = payload[byte_idx];
        let bits = byte.to_bit_buffer();
        let last = byte_idx + 1 == payload.len();
        let n0 = 3 * byte_idx;

        let p = &pixels[n0];
        let (r0, g0, b0, a0) = (p.r, p.g, p.b, p.a);
        pixels[n0] = Color::from_rgba(r0.set_lsb(bits[0]), g0.set_lsb(bits[1]), b0.set_lsb(bits[2]), a0);

        let p = &pixels[n0 + 1];
        let (r1, g1, b1, a1) = (p.r, p.g, p.b, p.a);
        pixels[n0 + 1] = Color::from_rgba(
            r1.set_lsb(bits[3]),
            g1.set_lsb(bits[4]),
            b1.set_lsb(bits[5]),
            a1,
        );

        let p = &pixels[n0 + 2];
        let (r2, g2, b2, a2) = (p.r, p.g, p.b, p.a);
        pixels[n0 + 2] = Color::from_rgba(
            r2.set_lsb(bits[6]),
            g2.set_lsb(bits[7]),
            b2.set_lsb(!last),
            a2,
        );

        proof {
            let j = byte_idx as int;
            assert((3 * j) / 3 == j && (3 * j) % 3 == 0) by (nonlinear_arith);
            assert((3 * j + 1) / 3 == j && (3 * j + 1) % 3 == 1) by (nonlinear_arith);
            assert((3 * j + 2) / 3 == j && (3 * j + 2) % 3 == 2) by (nonlinear_arith);
            assert(pixels@[3 * j] == embedded_pixels(orig, payload@)[3 * j]);
            assert(pixels@[3 * j + 1] == embedded_pixels(orig, payload@)[3 * j + 1]);
            assert(pixels@[3 * j + 2] == embedded_pixels(orig, payload@)[3 * j + 2]);
        }
        byte_idx += 1;
    }
    proof {
        assert(pixels@ =~= embedded_pixels(orig, payload@));
    }
    Ok(())
}

/// A non-empty character sequence has a non-empty UTF-8 encoding, and the
/// encoding of an empty sequence is empty.
proof fn lemma_encode_utf8_len(s: Seq<char>)
    ensures
        s.len() == 0 <==> encode_utf8(s).len() == 0,
    decreases s.len(),
{
}

/// The single null character encodes as the single zero byte.
proof fn lemma_null_encoding()
    ensures
        encode_utf8(seq!['\0']) == seq![0u8],
        valid_utf8(seq![0u8]),
        decode_utf8(seq![0u8]) == seq!['\0'],
{
    assert('\0' as u32 == 0);
    assert(seq!['\0'].drop_first() =~= Seq::<char>::empty());
    assert(encode_utf8(Seq::<char>::empty()) == Seq::<u8>::empty());
    assert((0u32 & 0x7F) as u8 == 0u8) by (bit_vector);
    assert(vstd::utf8::encode_scalar(0) =~= seq![0u8]);
    assert(encode_utf8(seq!['\0']) =~= seq![0u8]);
    vstd::utf8::encode_utf8_valid_utf8(seq!['\0']);
    vstd::utf8::encode_utf8_decode_utf8(seq!['\0']);
}

/// Relies on String::from_utf8: returns the string of the given bytes exactly
/// when they are a valid UTF-8 encoding.
#[verifier::external_body]
fn bytes_to_string(bytes: Vec<u8>) -> (r: Option<String>)
    ensures
        r is Some <==> valid_utf8(bytes@),
        r is Some ==> r.unwrap()@ == decode_utf8(bytes@),
{
    match String::from_utf8(bytes) {
        Ok(s) => Some(s),
        Err(_) => None,
    }
}

/// Returns a secret string retrieved from the provided pixel vector if it exists.
///
/// One payload byte is read from the channel LSBs of each group of three
/// pixels, up to and including the first group whose termination flag (the
/// blue LSB of its third pixel) is even. The collected bytes, unmasked with
/// the password when one is given, are the secret if they are valid UTF-8 and
/// are neither empty nor a single null character.
///
/// # Arguments
///
/// * `pixels` - Vector of pixels which will be searched for a secret string.
///
pub fn find_secret_col(pixels: &Vec<Color>, password: Option<String>) -> (r: Option<String>)
    ensures
        r.deep_view() == extract_spec(pixels@, password.deep_view()),
{
    let ghost pw_view = password.deep_view();
    if pixels.len() < 3 {
        return None;
    }
    let mut byte_array: Vec<u8> = Vec::new();
    let mut g: usize = 0;
    let mut more = true;

    proof {
        assert(3 * (pixels@.len() as int / 3) <= pixels@.len() < 3 * (pixels@.len() as int / 3)
            + 3) by (nonlinear_arith);
    }
    while more && g < pixels.len() / 3
        invariant
            3 <= pixels@.len() <= usize::MAX,
            3 * (pixels@.len() as int / 3) <= pixels@.len() < 3 * (pixels@.len() as int / 3) + 3,
            g <= pixels@.len() as int / 3,
            more ==> byte_array@.len() == g && extracted_bytes(pixels@) == byte_array@
                + extracted_bytes_from(pixels@, g as int),
            !more ==> byte_array@ == extracted_bytes(pixels@),
        decreases pixels@.len() - 3 * g + (if more {
            1int
        } else {
            0int
        }),
    {
        let base = 3 * g;
        let mut byte: u8 = 0;

        byte = byte.set_bit(0, pixels[base].r.get_lsb());
        byte = byte.set_bit(1, pixels[base].g.get_lsb());
        byte = byte.set_bit(2, pixels[base].b.get_lsb());
        byte = byte.set_bit(3, pixels[base + 1].r.get_lsb());
        byte = byte.set_bit(4, pixels[base + 1].g.get_lsb());
        byte = byte.set_bit(5, pixels[base + 1].b.get_lsb());
        byte = byte.set_bit(6, pixels[base + 2].r.get_lsb());
        byte = byte.set_bit(7, pixels[base + 2].g.get_lsb());

        proof {
            let p = pixels@;
            let gi = g as int;
            lemma_set_bit_chain(
                lsb_of(p[3 * gi].r),
                lsb_of(p[3 * gi].g),
                lsb_of(p[3 * gi].b),
                lsb_of(p[3 * gi + 1].r),
                lsb_of(p[3 * gi + 1].g),
                lsb_of(p[3 * gi + 1].b),
                lsb_of(p[3 * gi + 2].r),
                lsb_of(p[3 * gi + 2].g),
            );
            assert(byte == group_byte(p, gi));
        }
        byte_array.push(byte);

        // Last byte (blue) value of the last pixel in the chunk is even.
        // This is the termination flag.
        if !pixels[base + 2].b.get_lsb() {
            proof {
                assert(extracted_bytes_from(pixels@, g as int) == seq![
                    group_byte(pixels@, g as int),
                ]);
                assert(byte_array@ =~= extracted_bytes(pixels@));
            }
            more = false;
        } else {
            proof {
                let gi = g as int;
                assert(extracted_bytes_from(pixels@, gi) == seq![group_byte(pixels@, gi)]
                    + extracted_bytes_from(pixels@, gi + 1));
                assert(byte_array@ + extracted_bytes_from(pixels@, gi + 1) =~= byte_array@.drop_last()
                    + extracted_bytes_from(pixels@, gi));
            }
            g += 1;
        }
    }
    proof {
        if more {
            assert(extracted_bytes_from(pixels@, g as int) == Seq::<u8>::empty());
            assert(byte_array@ =~= extracted_bytes(pixels@));
        }
    }

    let ghost raw = byte_array@;
    let plain: Vec<u8> = match password {
        Some(pwd) => transform(&byte_array, &pwd.as_str().as_bytes_vec()),
        None => byte_array,
    };
    let ghost plain_view = plain@;
    proof {
        assert(plain_view == match pw_view {
            Some(p) => xor_mask(raw, encode_utf8(p)),
            None => raw,
        });
    }

    if plain.len() == 0 || (plain.len() == 1 && plain[0] == 0) {
        proof {
            lemma_null_encoding();
            if plain_view.len() == 1 {
                assert(plain_view =~= seq![0u8]);
                assert(decode_utf8(plain_view) == seq!['\0']);
            }
        }
        return None;
    }

    match bytes_to_string(plain) {
        Some(res) => {
            proof {
                let s = decode_utf8(plain_view);
                assert(s.len() > 0);
                if s.len() == 1 && s[0] == '\0' {
                    vstd::utf8::decode_utf8_encode_utf8(plain_view);
                    lemma_null_encoding();
                    assert(s =~= seq!['\0']);
                    assert(plain_view == encode_utf8(s));
                    assert(false);
                }
            }
            Some(res)
        },
        None => None,
    }
}

/// Every payload byte written by the embedding is read back by the decoder:
/// from group `g` onward, the decoder collects exactly the payload bytes from
/// `g` to the end.
proof fn lemma_extracted_embedded(pix: Seq<Color>, pay: Seq<u8>, g: int)
    requires
        0 <= g < pay.len(),
        3 * pay.len() <= pix.len(),
    ensures
        extracted_bytes_from(embedded_pixels(pix, pay), g) == pay.subrange(g, pay.len() as int),
    decreases pay.len() - g,
{
    let emb = embedded_pixels(pix, pay);
    let last = g + 1 == pay.len();
    assert((3 * g) / 3 == g && (3 * g) % 3 == 0) by (nonlinear_arith);
    assert((3 * g + 1) / 3 == g && (3 * g + 1) % 3 == 1) by (nonlinear_arith);
    assert((3 * g + 2) / 3 == g && (3 * g + 2) % 3 == 2) by (nonlinear_arith);
    assert(emb[3 * g] == encoded_pixel(pix[3 * g], pay[g], 0, last));
    assert(emb[3 * g + 1] == encoded_pixel(pix[3 * g + 1], pay[g], 1, last));
    assert(emb[3 * g + 2] == encoded_pixel(pix[3 * g + 2], pay[g], 2, last));

    lemma_lsb_of_set_lsb(pix[3 * g].r, bit_of(pay[g], 0));
    lemma_lsb_of_set_lsb(pix[3 * g].g, bit_of(pay[g], 1));
    lemma_lsb_of_set_lsb(pix[3 * g].b, bit_of(pay[g], 2));
    lemma_lsb_of_set_lsb(pix[3 * g + 1].r, bit_of(pay[g], 3));
    lemma_lsb_of_set_lsb(pix[3 * g + 1].g, bit_of(pay[g], 4));
    lemma_lsb_of_set_lsb(pix[3 * g + 1].b, bit_of(pay[g], 5));
    lemma_lsb_of_set_lsb(pix[3 * g + 2].r, bit_of(pay[g], 6));
    lemma_lsb_of_set_lsb(pix[3 * g + 2].g, bit_of(pay[g], 7));
    lemma_lsb_of_set_lsb(pix[3 * g + 2].b, !last);
    lemma_byte_of_bits_of(pay[g]);
    assert(group_byte(emb, g) == pay[g]);
    assert(group_continues(emb, g) == !last);

    if last {
        assert(extracted_bytes_from(emb, g) =~= pay.subrange(g, pay.len() as int));
    } else {
        lemma_extracted_embedded(pix, pay, g + 1);
        assert(extracted_bytes_from(emb, g) =~= pay.subrange(g, pay.len() as int));
    }
}

/// Round trip: embedding a non-empty secret in a carrier with at least three
/// pixels per byte of its UTF-8 encoding, then extracting with the same
/// optional password, returns exactly that secret. The one excluded secret is
/// the single null character, which extraction reports as "no secret".
pub proof fn lemma_embed_extract_round_trip(
    pix: Seq<Color>,
    secret: Seq<char>,
    password: Option<Seq<char>>,
)
    requires
        secret.len() > 0,
        !(secret.len() == 1 && secret[0] == '\0'),
        3 * encode_utf8(secret).len() <= pix.len(),
    ensures
        extract_spec(embedded_pixels(pix, payload_bytes(secret, password)), password) == Some(
            secret,
        ),
{
    let pay = payload_bytes(secret, password);
    assert(pay.len() == encode_utf8(secret).len());
    lemma_encode_utf8_len(secret);
    let emb = embedded_pixels(pix, pay);
    assert(emb.len() == pix.len() >= 3);

    lemma_extracted_embedded(pix, pay, 0);
    assert(extracted_bytes(emb) =~= pay);

    let plain = match password {
        Some(p) => xor_mask(extracted_bytes(emb), encode_utf8(p)),
        None => extracted_bytes(emb),
    };
    match password {
        Some(p) => {
            lemma_transform_involution(encode_utf8(secret), encode_utf8(p));
            assert(plain == encode_utf8(secret));
        },
        None => {
            assert(plain == encode_utf8(secret));
        },
    }
    vstd::utf8::encode_utf8_valid_utf8(secret);
    vstd::utf8::encode_utf8_decode_utf8(secret);
    assert(extract_spec(emb, password) == Some(secret));
}

/// The pixel an RGBA channel tuple of an image stands for.
pub open spec fn color_of(t: (u8, u8, u8, u8)) -> Color {
    Color { r: t.0, g: t.1, b: t.2, a: t.3 }
}

/// An image's pixel grid read as a pixel vector.
pub open spec fn colors_of(ts: Seq<(u8, u8, u8, u8)>) -> Seq<Color> {
    ts.map_values(|t: (u8, u8, u8, u8)| color_of(t))
}

/// Reads the pixel with row-by-row number `n` of an image, addressing it by
/// row `n mod width` and column `n div width`.
fn img_get_flat(img: &DynamicImage, n: u64) -> (p: (u8, u8, u8, u8))
    requires
        n < img_pixels(*img).len(),
        img_pixels(*img).len() == img_dims(*img).0 * img_dims(*img).1,
    ensures
        p == img_pixels(*img)[n as int],
{
    let (width, _height) = img_dimensions(img);
    proof {
        lemma_flat_split(n as int, width as int, img_dims(*img).1 as int);
    }
    let row_idx = (n % (width as u64)) as u32;
    let col_idx = (n / (width as u64)) as u32;
    img_get_pixel(img, row_idx, col_idx)
}

/// Writes the pixel with row-by-row number `n` of an image, addressing it by
/// row `n mod width` and column `n div width`.
fn img_put_flat(img: &mut DynamicImage, n: u64, p: (u8, u8, u8, u8))
    requires
        n < img_pixels(*old(img)).len(),
        img_pixels(*old(img)).len() == img_dims(*old(img)).0 * img_dims(*old(img)).1,
    ensures
        img_dims(*final(img)) == img_dims(*old(img)),
        img_stores_rgba(*final(img)) == img_stores_rgba(*old(img)),
        img_pixels(*final(img)).len() == img_pixels(*old(img)).len(),
        forall|i: int|
            0 <= i < img_pixels(*old(img)).len() && i != n ==> img_pixels(*final(img))[i]
                == img_pixels(*old(img))[i],
        img_stores_rgba(*old(img)) ==> img_pixels(*final(img)) == img_pixels(*old(img)).update(
            n as int,
            p,
        ),
{
    let (width, _height) = img_dimensions(img);
    proof {
        lemma_flat_split(n as int, width as int, img_dims(*img).1 as int);
    }
    let row_idx = (n % (width as u64)) as u32;
    let col_idx = (n / (width as u64)) as u32;
    img_put_pixel(img, row_idx, col_idx, p);
}

/// Splitting a flat pixel number below `w * h` by the width `w` gives a
/// column below `h` and a row below `w` that rebuild the number.
proof fn lemma_flat_split(n: int, w: int, h: int)
    requires
        0 <= n < w * h,
        0 <= w,
        0 <= h,
    ensures
        0 < w,
        0 <= n % w < w,
        0 <= n / w < h,
        (n / w) * w + n % w == n,
{
    assert(0 < w) by (nonlinear_arith)
        requires
            0 <= n < w * h,
            0 <= w,
            0 <= h,
    ;
    assert(0 <= n % w < w && 0 <= n / w && (n / w) * w + n % w == n) by (nonlinear_arith)
        requires
            0 < w,
            0 <= n,
    ;
    assert(n / w < h) by (nonlinear_arith)
        requires
            0 < w,
            0 <= h,
            0 <= n < w * h,
    ;
}

/// Hides a secret string in the target image.
///
/// Fails on an empty secret, and on an image with fewer than three pixels per
/// byte of the secret's UTF-8 encoding; then the image is untouched.
/// Otherwise one payload byte is written into the channel LSBs of each group
/// of three pixels, counted row by row, and all later pixels are kept. For an
/// image whose buffer stores RGBA bytes exactly, the pixels afterward are
/// exactly the embedded carrier; other color formats may store converted
/// channel values, which can lose the written bits.
///
/// # Arguments
///
/// * `img` - Target source image the secret will be written to.
/// * `secret` - Secret string which will be hidden in the target image.
///
pub fn encode_secret_img(img: &mut DynamicImage, secret: &String, password: Option<String>) -> (r:
    Result<(), HipsError>)
    ensures
        secret@.len() == 0 ==> r == Err::<(), HipsError>(HipsError::EmptySecret) && *final(img)
            == *old(img),
        secret@.len() > 0 && img_dims(*old(img)).0 * img_dims(*old(img)).1 < 3 * encode_utf8(
            secret@,
        ).len() ==> r == Err::<(), HipsError>(HipsError::InsufficientCapacity) && *final(img)
            == *old(img),
        secret@.len() > 0 && img_dims(*old(img)).0 * img_dims(*old(img)).1 >= 3 * encode_utf8(
            secret@,
        ).len() ==> {
            let pay = payload_bytes(secret@, password.deep_view());
            &&& r == Ok::<(), HipsError>(())
            &&& img_dims(*final(img)) == img_dims(*old(img))
            &&& img_stores_rgba(*final(img)) == img_stores_rgba(*old(img))
            &&& img_pixels(*final(img)).len() == img_pixels(*old(img)).len()
            &&& forall|i: int|
                3 * pay.len() <= i < img_pixels(*old(img)).len() ==> img_pixels(*final(img))[i]
                    == img_pixels(*old(img))[i]
            &&& img_stores_rgba(*old(img)) ==> colors_of(img_pixels(*final(img)))
                == embedded_pixels(colors_of(img_pixels(*old(img))), pay)
        },
{
    let ghost pw_view = password.deep_view();
    if secret.as_str().is_empty() {
        return Err(HipsError::EmptySecret);
    }
    let secret_bytes = secret.as_str().as_bytes_vec();
    proof {
        lemma_encode_utf8_len(secret@);
    }
    let (width, height) = img_dimensions(img);
    proof {
        assert((width as int) * (height as int) <= 0xffff_ffff * 0xffff_ffff) by (nonlinear_arith)
            requires
                width <= 0xffff_ffffu32,
                height <= 0xffff_ffffu32,
        ;
    }
    let count = (width as u64) * (height as u64);
    if (count as u128) < (secret_bytes.len() as u128) * 3 {
        return Err(HipsError::InsufficientCapacity);
    }

    let payload: Vec<u8> = match password {
        Some(pwd) => transform(&secret_bytes, &pwd.as_str().as_bytes_vec()),
        None => secret_bytes,
    };
    assert(payload@ == payload_bytes(secret@, pw_view));

    let ghost orig = img_pixels(*img);
    let ghost emb = embedded_pixels(colors_of(orig), payload@);
    let mut byte_idx: usize = 0;
    while byte_idx < payload.len()
        invariant
            byte_idx <= payload@.len(),
            0 < 3 * payload@.len() <= orig.len(),
            orig.len() + 2 <= u64::MAX,
            img_dims(*img) == img_dims(*old(img)),
            img_stores_rgba(*img) == img_stores_rgba(*old(img)),
            img_pixels(*img).len() == orig.len(),
            orig == img_pixels(*old(img)),
            orig.len() == img_dims(*img).0 * img_dims(*img).1,
            emb == embedded_pixels(colors_of(orig), payload@),
            forall|i: int|
                3 * byte_idx <= i < orig.len() ==> img_pixels(*img)[i] == orig[i],
            img_stores_rgba(*img) ==> forall|i: int|
                0 <= i < 3 * byte_idx ==> color_of(img_pixels(*img)[i]) == emb[i],
        decreases payload@.len() - byte_idx,
    {
        let byte = payload[byte_idx];
        let bits = byte.to_bit_buffer();
        let last = byte_idx + 1 == payload.len();
        proof {
            let j = byte_idx as int;
            assert(3 * (j + 1) <= orig.len());
            assert((3 * j) / 3 == j && (3 * j) % 3 == 0) by (nonlinear_arith);
            assert((3 * j + 1) / 3 == j && (3 * j + 1) % 3 == 1) by (nonlinear_arith);
            assert((3 * j + 2) / 3 == j && (3 * j + 2) % 3 == 2) by (nonlinear_arith);
        }
        let n0: u64 = 3 * (byte_idx as u64);

        let p0 = img_get_flat(img, n0);
        img_put_flat(
            img,
            n0,
            (p0.0.set_lsb(bits[0]), p0.1.set_lsb(bits[1]), p0.2.set_lsb(bits[2]), p0.3),
        );

        let p1 = img_get_flat(img, n0 + 1);
        img_put_flat(
            img,
            n0 + 1,
            (p1.0.set_lsb(bits[3]), p1.1.set_lsb(bits[4]), p1.2.set_lsb(bits[5]), p1.3),
        );

        let p2 = img_get_flat(img, n0 + 2);
        img_put_flat(
            img,
            n0 + 2,
            (p2.0.set_lsb(bits[6]), p2.1.set_lsb(bits[7]), p2.2.set_lsb(!last), p2.3),
        );

        byte_idx += 1;
    }
    proof {
        if img_stores_rgba(*img) {
            assert(colors_of(img_pixels(*img)) =~= emb);
        }
    }
    Ok(())
}

/// Returns a secret string retrieved from the provided image if it exists.
///
/// Reads the image's pixels row by row and decodes them exactly as
/// `find_secret_col` decodes a pixel vector.
///
/// # Arguments
///
/// * `img` - Image from which a secret will be retrieved.
///
pub fn decode_secret_img(img: &DynamicImage, password: Option<String>) -> (r: Option<String>)
    ensures
        r.deep_view() == extract_spec(colors_of(img_pixels(*img)), password.deep_view()),
{
    let tuples = img_collect_pixels(img);
    let mut pixels: Vec<Color> = Vec::new();
    let mut i: usize = 0;
    while i < tuples.len()
        invariant
            i <= tuples@.len(),
            pixels@.len() == i,
            forall|j: int| 0 <= j < i ==> pixels@[j] == color_of(tuples@[j]),
        decreases tuples@.len() - i,
    {
        let t = tuples[i];
        pixels.push(Color::from_rgba(t.0, t.1, t.2, t.3));
        i += 1;
    }
    proof {
        assert(pixels@ =~= colors_of(img_pixels(*img)));
    }
    find_secret_col(&pixels, password)
}

} // verus!
