//! Entity tags: the quoted, URL-safe base64 text of an asset's digest.
use vstd::prelude::*;
use vstd::string::*;

use base64::Engine;

verus! {

/// The digit of the URL-safe base64 alphabet for a six-bit value.
pub open spec fn base64_url_digit(x: u8) -> char {
    if x < 26 {
        ((65 + x) as u8) as char
    } else if x < 52 {
        ((97 + (x - 26)) as u8) as char
    } else if x < 62 {
        ((48 + (x - 52)) as u8) as char
    } else if x == 62 {
        '-'
    } else {
        '_'
    }
}

/// URL-safe base64 without padding: each group of three bytes becomes four
/// digits; a last group of two bytes becomes three, one of one byte two.
pub open spec fn base64_url_nopad(b: Seq<u8>) -> Seq<char>
    decreases b.len(),
{
    if b.len() == 0 {
        Seq::empty()
    } else if b.len() == 1 {
        seq![base64_url_digit(b[0] >> 2u8), base64_url_digit((b[0] & 3u8) << 4u8)]
    } else if b.len() == 2 {
        seq![
            base64_url_digit(b[0] >> 2u8),
            base64_url_digit(((b[0] & 3u8) << 4u8) | (b[1] >> 4u8)),
            base64_url_digit((b[1] & 15u8) << 2u8),
        ]
    } else {
        seq![
            base64_url_digit(b[0] >> 2u8),
            base64_url_digit(((b[0] & 3u8) << 4u8) | (b[1] >> 4u8)),
            base64_url_digit(((b[1] & 15u8) << 2u8) | (b[2] >> 6u8)),
            base64_url_digit(b[2] & 63u8),
        ] + base64_url_nopad(b.skip(3))
    }
}

/// The entity tag of a digest: its base64 text between double quotes.
pub open spec fn etag_of(digest: Seq<u8>) -> Seq<char> {
    seq!['"'] + base64_url_nopad(digest) + seq!['"']
}

/// Different six-bit values have different digits.
proof fn lemma_digit_injective(a: u8, b: u8)
    requires
        a < 64,
        b < 64,
        base64_url_digit(a) == base64_url_digit(b),
    ensures
        a == b,
{
    assert(base64_url_digit(a) as u32 == base64_url_digit(b) as u32);
}

/// Every group of bits that the encoding takes from three bytes is a six-bit value.
proof fn lemma_digits_of_bytes(b0: u8, b1: u8, b2: u8)
    ensures
        b0 >> 2u8 < 64,
        ((b0 & 3u8) << 4u8) | (b1 >> 4u8) < 64,
        ((b1 & 15u8) << 2u8) | (b2 >> 6u8) < 64,
        b2 & 63u8 < 64,
        (b0 & 3u8) << 4u8 < 64,
        (b1 & 15u8) << 2u8 < 64,
{
    assert(b0 >> 2u8 < 64) by (bit_vector);
    assert(((b0 & 3u8) << 4u8) | (b1 >> 4u8) < 64) by (bit_vector);
    assert(((b1 & 15u8) << 2u8) | (b2 >> 6u8) < 64) by (bit_vector);
    assert(b2 & 63u8 < 64) by (bit_vector);
    assert((b0 & 3u8) << 4u8 < 64) by (bit_vector);
    assert((b1 & 15u8) << 2u8 < 64) by (bit_vector);
}

/// The length of the encoding of `b`.
proof fn lemma_base64_len(b: Seq<u8>)
    ensures
        b.len() == 0 ==> base64_url_nopad(b).len() == 0,
        b.len() == 1 ==> base64_url_nopad(b).len() == 2,
        b.len() == 2 ==> base64_url_nopad(b).len() == 3,
        b.len() >= 3 ==> base64_url_nopad(b).len() >= 4,
{
}

/// Different bytes have different encodings.
pub proof fn lemma_base64_injective(x: Seq<u8>, y: Seq<u8>)
    requires
        base64_url_nopad(x) == base64_url_nopad(y),
    ensures
        x == y,
    decreases x.len(),
{
    let e = base64_url_nopad(x);
    lemma_base64_len(x);
    lemma_base64_len(y);
    if x.len() >= 3 {
        let (b0, b1, b2) = (x[0], x[1], x[2]);
        let (c0, c1, c2) = (y[0], y[1], y[2]);
        lemma_digits_of_bytes(b0, b1, b2);
        lemma_digits_of_bytes(c0, c1, c2);
        let f = base64_url_nopad(y);
        assert(e[0] == base64_url_digit(b0 >> 2u8) && f[0] == base64_url_digit(c0 >> 2u8));
        assert(e[1] == base64_url_digit(((b0 & 3u8) << 4u8) | (b1 >> 4u8)));
        assert(f[1] == base64_url_digit(((c0 & 3u8) << 4u8) | (c1 >> 4u8)));
        assert(e[2] == base64_url_digit(((b1 & 15u8) << 2u8) | (b2 >> 6u8)));
        assert(f[2] == base64_url_digit(((c1 & 15u8) << 2u8) | (c2 >> 6u8)));
        assert(e[3] == base64_url_digit(b2 & 63u8) && f[3] == base64_url_digit(c2 & 63u8));
        lemma_digit_injective(b0 >> 2u8, c0 >> 2u8);
        lemma_digit_injective(((b0 & 3u8) << 4u8) | (b1 >> 4u8), ((c0 & 3u8) << 4u8) | (c1 >> 4u8));
        lemma_digit_injective(
            ((b1 & 15u8) << 2u8) | (b2 >> 6u8),
            ((c1 & 15u8) << 2u8) | (c2 >> 6u8),
        );
        lemma_digit_injective(b2 & 63u8, c2 & 63u8);
        assert(b0 == c0 && b1 == c1 && b2 == c2) by (bit_vector)
            requires
                b0 >> 2u8 == c0 >> 2u8,
                ((b0 & 3u8) << 4u8) | (b1 >> 4u8) == ((c0 & 3u8) << 4u8) | (c1 >> 4u8),
                ((b1 & 15u8) << 2u8) | (b2 >> 6u8) == ((c1 & 15u8) << 2u8) | (c2 >> 6u8),
                b2 & 63u8 == c2 & 63u8,
        ;
        assert(e.skip(4) =~= base64_url_nopad(x.skip(3)));
        assert(base64_url_nopad(y).skip(4) =~= base64_url_nopad(y.skip(3)));
        lemma_base64_injective(x.skip(3), y.skip(3));
        assert(x =~= seq![b0, b1, b2] + x.skip(3));
        assert(y =~= seq![c0, c1, c2] + y.skip(3));
    } else if x.len() == 2 {
        let (b0, b1) = (x[0], x[1]);
        let (c0, c1) = (y[0], y[1]);
        lemma_digits_of_bytes(b0, b1, 0);
        lemma_digits_of_bytes(c0, c1, 0);
        lemma_digit_injective(b0 >> 2u8, c0 >> 2u8);
        lemma_digit_injective(((b0 & 3u8) << 4u8) | (b1 >> 4u8), ((c0 & 3u8) << 4u8) | (c1 >> 4u8));
        lemma_digit_injective((b1 & 15u8) << 2u8, (c1 & 15u8) << 2u8);
        assert(b0 == c0 && b1 == c1) by (bit_vector)
            requires
                b0 >> 2u8 == c0 >> 2u8,
                ((b0 & 3u8) << 4u8) | (b1 >> 4u8) == ((c0 & 3u8) << 4u8) | (c1 >> 4u8),
                (b1 & 15u8) << 2u8 == (c1 & 15u8) << 2u8,
        ;
        assert(x =~= y);
    } else if x.len() == 1 {
        let b0 = x[0];
        let c0 = y[0];
        lemma_digits_of_bytes(b0, 0, 0);
        lemma_digits_of_bytes(c0, 0, 0);
        lemma_digit_injective(b0 >> 2u8, c0 >> 2u8);
        lemma_digit_injective((b0 & 3u8) << 4u8, (c0 & 3u8) << 4u8);
        assert(b0 == c0) by (bit_vector)
            requires
                b0 >> 2u8 == c0 >> 2u8,
                (b0 & 3u8) << 4u8 == (c0 & 3u8) << 4u8,
        ;
        assert(x =~= y);
    } else {
        assert(x =~= y);
    }
}

/// Different digests have different entity tags.
pub proof fn lemma_etag_injective(d1: Seq<u8>, d2: Seq<u8>)
    requires
        etag_of(d1) == etag_of(d2),
    ensures
        d1 == d2,
{
    let e1 = base64_url_nopad(d1);
    let e2 = base64_url_nopad(d2);
    assert(etag_of(d1).len() == e1.len() + 2);
    assert(etag_of(d2).len() == e2.len() + 2);
    assert(e1 =~= etag_of(d1).subrange(1, e1.len() as int + 1));
    assert(e2 =~= etag_of(d2).subrange(1, e2.len() as int + 1));
    lemma_base64_injective(d1, d2);
}

/// Relies on base64's `URL_SAFE_NO_PAD` engine: `encode` writes the bytes in
/// the URL-safe alphabet, without padding.
#[verifier::external_body]
fn encode_base64_url(bytes: &[u8]) -> (r: String)
    ensures
        r@ == base64_url_nopad(bytes@),
{
    base64::engine::general_purpose::URL_SAFE_NO_PAD.encode(bytes)
}

/// The entity tag that validates an asset with this digest.
pub fn encode_etag(digest: &[u8]) -> (r: String)
    ensures
        r@ == etag_of(digest@),
{
    let encoded = encode_base64_url(digest);
    let mut tag = String::from_str("\"");
    tag.append(encoded.as_str());
    tag.append("\"");
    proof {
        reveal_strlit("\"");
        assert(tag@ =~= etag_of(digest@));
    }
    tag
}

} // verus!
