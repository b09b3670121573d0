//! What holds across encoding and decoding: every payload an id is encoded into decodes
//! back to that id, with the codec that encoded it.
use vstd::prelude::*;
use vstd::utf8::{decode_utf8, encode_utf8, encode_utf8_decode_utf8, encode_utf8_valid_utf8};
use crate::bignum::{decimal_digits, decimal_value, is_decimal};
use crate::bits::{
    be_bits, bits_value, bytes_bits, is_binary, lemma_be_bits, lemma_bytes_bits,
    lemma_zero_bits_value, pad_bits, zero_bits,
};
use crate::id_codec::{
    base36_digit, base36_digits, base36_value, bcd_digits_from, chunk_bytes, codec_of_header,
    digit_bits, has_nul, header_bits, is_base36, is_canonical_decimal, lemma_encode_bits_shape,
    lemma_pow_values, radix_text_upper, spec_decode_id, spec_encode_bits, spec_encode_id_auto,
    spec_encode_id_with_codec, spec_validate_common_id, trim_trailing_zeros, zero_text, IdCodec,
    IdEncodeOptions, TrustmarkVersion,
};
use crate::number::{
    digits_below, lemma_pow_monotone, lemma_radix_digits_canonical, lemma_radix_digits_pad,
    pow_nat, radix_digits, zero_digits,
};
use crate::text::{all_ascii, ascii_chars, lemma_ascii_utf8, radix_text_lower};

verus! {

/// UTF-8 bytes that all lie in ASCII decode to one character per byte.
proof fn lemma_ascii_id(id: Seq<char>)
    requires
        all_ascii(encode_utf8(id)),
    ensures
        ascii_chars(encode_utf8(id)) == id,
{
    lemma_ascii_utf8(encode_utf8(id));
    encode_utf8_decode_utf8(id);
}

proof fn lemma_decimal_is_ascii(b: Seq<u8>)
    requires
        is_decimal(b),
    ensures
        all_ascii(b),
{
    assert forall|i: int| 0 <= i < b.len() implies #[trigger] b[i] < 128 by {
        assert(48 <= b[i] <= 57);
    }
}

proof fn lemma_decimal_digits_below(b: Seq<u8>)
    requires
        is_decimal(b),
    ensures
        digits_below(decimal_digits(b), 10),
{
    assert forall|i: int| 0 <= i < decimal_digits(b).len() implies #[trigger] decimal_digits(
        b,
    )[i] < 10 by {
        assert(48 <= b[i] <= 57);
    }
}

/// Payload bits of the `uint_decimal` codec decode to the id.
proof fn lemma_roundtrip_uint(id: Seq<char>, v: TrustmarkVersion)
    requires
        spec_encode_bits(encode_utf8(id), v, IdCodec::UintDecimal) is Ok,
    ensures
        spec_decode_id(spec_encode_bits(encode_utf8(id), v, IdCodec::UintDecimal)->Ok_0) == Ok::<
            (Seq<char>, IdCodec),
            crate::id_codec::CodecFault,
        >((id, IdCodec::UintDecimal)),
{
    let b = encode_utf8(id);
    let bits = spec_encode_bits(b, v, IdCodec::UintDecimal)->Ok_0;
    let w = (v.spec_data_bits() - 2) as nat;
    let value = decimal_value(b);
    lemma_encode_bits_shape(b, v, IdCodec::UintDecimal);
    assert(is_canonical_decimal(b));
    if b == seq![48u8] {
        assert(is_decimal(b));
    }
    assert(is_decimal(b));
    crate::number::lemma_pow_pos(2, w);
    assert(value < pow_nat(2, w));
    lemma_be_bits(value, w);
    assert(bits.subrange(2, bits.len() as int) =~= be_bits(value, w));
    assert(bits[0] == 48u8 && bits[1] == 49u8);
    lemma_decimal_digits_below(b);
    lemma_radix_digits_canonical(decimal_digits(b), 10);
    assert(radix_text_lower(value, 10) =~= b) by {
        assert forall|i: int| 0 <= i < b.len() implies #[trigger] radix_text_lower(value, 10)[i]
            == b[i] by {
            assert(48 <= b[i] <= 57);
        }
    }
    lemma_decimal_is_ascii(b);
    lemma_ascii_id(id);
    assert(bits_value(bits.subrange(2, bits.len() as int)) == value);
}

proof fn lemma_digit_bits_fields(b: Seq<u8>)
    ensures
        digit_bits(b).len() == 4 * b.len(),
        forall|i: int|
            0 <= i < b.len() ==> #[trigger] digit_bits(b).subrange(4 * i, 4 * i + 4) == be_bits(
                (b[i] - 48) as nat,
                4,
            ),
    decreases b.len(),
{
    if b.len() > 0 {
        let init = b.drop_last();
        lemma_digit_bits_fields(init);
        lemma_be_bits((b.last() - 48) as nat, 4);
        let whole = digit_bits(b);
        let head = digit_bits(init);
        let tail = be_bits((b.last() - 48) as nat, 4);
        assert forall|i: int| 0 <= i < b.len() implies #[trigger] whole.subrange(4 * i, 4 * i + 4)
            == be_bits((b[i] - 48) as nat, 4) by {
            if i < init.len() {
                assert(whole.subrange(4 * i, 4 * i + 4) =~= head.subrange(4 * i, 4 * i + 4));
                assert(init[i] == b[i]);
            } else {
                assert(whole.subrange(4 * i, 4 * i + 4) =~= tail);
            }
        }
    }
}

/// Reading BCD digits from position `7 + 4 k` onward yields the rest of the id.
proof fn lemma_bcd_read(bits: Seq<u8>, b: Seq<u8>, k: nat)
    requires
        is_decimal(b),
        k <= b.len(),
        bits.len() >= 7 + 4 * b.len(),
        bits.subrange(7, (7 + 4 * b.len()) as int) == digit_bits(b),
    ensures
        bcd_digits_from(bits, 7 + 4 * k, (b.len() - k) as nat, b.take(k as int)) == Ok::<
            Seq<char>,
            crate::id_codec::CodecFault,
        >(ascii_chars(b)),
    decreases b.len() - k,
{
    if k == b.len() {
        assert(b.take(k as int) =~= b);
    } else {
        lemma_digit_bits_fields(b);
        let field = bits.subrange((7 + 4 * k) as int, (7 + 4 * k + 4) as int);
        assert(field =~= digit_bits(b).subrange((4 * k) as int, (4 * k + 4) as int));
        let d = (b[k as int] - 48) as nat;
        assert(48 <= b[k as int] <= 57);
        lemma_be_bits(d, 4);
        assert(pow_nat(2, 4) == 16) by {
            reveal_with_fuel(pow_nat, 5);
        }
        assert(bits_value(field) == d);
        assert(b.take(k as int).push((48 + d) as u8) =~= b.take((k + 1) as int));
        lemma_bcd_read(bits, b, k + 1);
        assert(7 + 4 * (k + 1) == 7 + 4 * k + 4);
    }
}

/// Payload bits of the `decimal_bcd` codec decode to the id.
proof fn lemma_roundtrip_bcd(id: Seq<char>, v: TrustmarkVersion)
    requires
        spec_encode_bits(encode_utf8(id), v, IdCodec::DecimalBcd) is Ok,
        encode_utf8(id).len() > 0,
    ensures
        spec_decode_id(spec_encode_bits(encode_utf8(id), v, IdCodec::DecimalBcd)->Ok_0) == Ok::<
            (Seq<char>, IdCodec),
            crate::id_codec::CodecFault,
        >((id, IdCodec::DecimalBcd)),
{
    let b = encode_utf8(id);
    let bits = spec_encode_bits(b, v, IdCodec::DecimalBcd)->Ok_0;
    lemma_encode_bits_shape(b, v, IdCodec::DecimalBcd);
    let h = header_bits(IdCodec::DecimalBcd);
    let lenbits = be_bits(b.len(), 5);
    let body = h + lenbits + digit_bits(b);
    lemma_be_bits(b.len(), 5);
    lemma_digit_bits_fields(b);
    assert(bits == pad_bits(body, v.spec_data_bits()));
    assert(bits.subrange(0, body.len() as int) =~= body);
    assert(bits.subrange(2, 7) =~= lenbits);
    assert(bits.subrange(7, (7 + 4 * b.len()) as int) =~= digit_bits(b));
    assert(pow_nat(2, 5) == 32) by {
        reveal_with_fuel(pow_nat, 6);
    }
    assert(b.len() < 32);
    assert(bits[0] == 49u8 && bits[1] == 48u8);
    assert(b.take(0) =~= Seq::<u8>::empty());
    lemma_bcd_read(bits, b, 0);
    lemma_decimal_is_ascii(b);
    lemma_ascii_id(id);
}

/// Payload bits of the `base36` codec decode to the id.
proof fn lemma_roundtrip_base36(id: Seq<char>, v: TrustmarkVersion)
    requires
        spec_encode_bits(encode_utf8(id), v, IdCodec::Base36) is Ok,
        encode_utf8(id).len() > 0,
    ensures
        spec_decode_id(spec_encode_bits(encode_utf8(id), v, IdCodec::Base36)->Ok_0) == Ok::<
            (Seq<char>, IdCodec),
            crate::id_codec::CodecFault,
        >((id, IdCodec::Base36)),
{
    let b = encode_utf8(id);
    let bits = spec_encode_bits(b, v, IdCodec::Base36)->Ok_0;
    let vb = v.spec_base36_value_bits();
    let value = base36_value(b);
    lemma_encode_bits_shape(b, v, IdCodec::Base36);
    lemma_be_bits(b.len(), 5);
    lemma_be_bits(value, vb);
    assert(bits.subrange(2, 7) =~= be_bits(b.len(), 5));
    assert(bits.subrange(7, bits.len() as int) =~= be_bits(value, vb));
    assert(pow_nat(2, 5) == 32) by {
        reveal_with_fuel(pow_nat, 6);
    }
    assert(b.len() < 32);
    assert(bits[0] == 49u8 && bits[1] == 49u8);
    let ds = base36_digits(b);
    assert(digits_below(ds, 36)) by {
        assert forall|i: int| 0 <= i < ds.len() implies #[trigger] ds[i] < 36 by {
            assert(is_base36(b));
            assert((48 <= b[i] <= 57) || (65 <= b[i] <= 90));
        }
    }
    lemma_radix_digits_pad(ds, 36);
    let rd = radix_digits(value, 36);
    let text = radix_text_upper(value, 36);
    let pad = (b.len() - rd.len()) as nat;
    assert(zero_text(pad) + text =~= b) by {
        assert forall|i: int| 0 <= i < b.len() implies #[trigger] (zero_text(pad) + text)[i]
            == b[i] by {
            assert((zero_digits(pad) + rd)[i] == ds[i]);
            assert((48 <= b[i] <= 57) || (65 <= b[i] <= 90));
            if i < pad {
                assert(ds[i] == 0);
            } else {
                assert(rd[i - pad] == ds[i]);
            }
        }
    }
    assert(all_ascii(b)) by {
        assert forall|i: int| 0 <= i < b.len() implies #[trigger] b[i] < 128 by {
            assert((48 <= b[i] <= 57) || (65 <= b[i] <= 90));
        }
    }
    lemma_ascii_id(id);
}

/// Trailing zeros appended to bytes that end in a nonzero byte are trimmed away again.
proof fn lemma_trim_appended_zeros(b: Seq<u8>, k: nat)
    requires
        b.len() > 0,
        b.last() != 0,
    ensures
        trim_trailing_zeros(b + Seq::new(k, |i: int| 0u8)) == b,
    decreases k,
{
    let s = b + Seq::new(k, |i: int| 0u8);
    if k == 0 {
        assert(s =~= b);
    } else {
        assert(s.drop_last() =~= b + Seq::new((k - 1) as nat, |i: int| 0u8));
        lemma_trim_appended_zeros(b, (k - 1) as nat);
    }
}

/// Payload bits of the `utf8_raw` codec decode to the id.
proof fn lemma_roundtrip_utf8(id: Seq<char>, v: TrustmarkVersion)
    requires
        spec_encode_bits(encode_utf8(id), v, IdCodec::Utf8Raw) is Ok,
        encode_utf8(id).len() > 0,
    ensures
        spec_decode_id(spec_encode_bits(encode_utf8(id), v, IdCodec::Utf8Raw)->Ok_0) == Ok::<
            (Seq<char>, IdCodec),
            crate::id_codec::CodecFault,
        >((id, IdCodec::Utf8Raw)),
{
    let b = encode_utf8(id);
    let bits = spec_encode_bits(b, v, IdCodec::Utf8Raw)->Ok_0;
    let db = v.spec_data_bits();
    lemma_encode_bits_shape(b, v, IdCodec::Utf8Raw);
    lemma_bytes_bits(b);
    let h = header_bits(IdCodec::Utf8Raw);
    let body = h + bytes_bits(b);
    let n = b.len();
    let payload = bits.subrange(2, bits.len() as int);
    let extra = (db - body.len()) as nat;
    assert(bits == pad_bits(body, db));
    assert(payload =~= bytes_bits(b) + zero_bits(extra)) by {
        if body.len() < db {
            assert(bits == body + zero_bits(extra));
        } else {
            assert(extra == 0);
            assert(zero_bits(0) =~= Seq::<u8>::empty());
        }
    }
    let m = (db - 2) / 8;
    assert(payload.len() / 8 == m);
    let chunks = chunk_bytes(payload);
    assert(pow_nat(2, 8) == 256) by {
        reveal_with_fuel(pow_nat, 9);
    }
    assert(chunks =~= b + Seq::new((m - n) as nat, |i: int| 0u8)) by {
        assert forall|i: int| 0 <= i < chunks.len() implies #[trigger] chunks[i] == (b
            + Seq::new((m - n) as nat, |i: int| 0u8))[i] by {
            let field = payload.subrange(8 * i, 8 * i + 8);
            if i < n {
                assert(field =~= bytes_bits(b).subrange(8 * i, 8 * i + 8));
                lemma_be_bits(b[i] as nat, 8);
            } else {
                assert(field =~= zero_bits(8));
                lemma_zero_bits_value(8);
            }
        }
    }
    assert(!has_nul(b));
    assert(b.last() != 0) by {
        assert(b[b.len() - 1] != 0);
    }
    lemma_trim_appended_zeros(b, (m - n) as nat);
    encode_utf8_valid_utf8(id);
    encode_utf8_decode_utf8(id);
    assert(bits[0] == 48u8 && bits[1] == 48u8);
}

/// Decoding the payload that an id was encoded into gives back the id and the codec.
pub proof fn law_decode_inverts_encode(
    id: Seq<char>,
    v: TrustmarkVersion,
    codec: IdCodec,
    o: IdEncodeOptions,
)
    requires
        spec_encode_id_with_codec(encode_utf8(id), v, codec, o) is Ok,
    ensures
        spec_decode_id(spec_encode_id_with_codec(encode_utf8(id), v, codec, o)->Ok_0) == Ok::<
            (Seq<char>, IdCodec),
            crate::id_codec::CodecFault,
        >((id, codec)),
{
    assert(spec_validate_common_id(encode_utf8(id), o) is None);
    match codec {
        IdCodec::Utf8Raw => lemma_roundtrip_utf8(id, v),
        IdCodec::UintDecimal => lemma_roundtrip_uint(id, v),
        IdCodec::DecimalBcd => lemma_roundtrip_bcd(id, v),
        IdCodec::Base36 => lemma_roundtrip_base36(id, v),
    }
}

/// Decoding the payload that automatic encoding chose gives back the id and the chosen codec.
pub proof fn law_decode_inverts_auto_encode(id: Seq<char>, v: TrustmarkVersion, o: IdEncodeOptions)
    requires
        spec_encode_id_auto(encode_utf8(id), v, o) is Ok,
    ensures
        spec_decode_id(spec_encode_id_auto(encode_utf8(id), v, o)->Ok_0.1) == Ok::<
            (Seq<char>, IdCodec),
            crate::id_codec::CodecFault,
        >((id, spec_encode_id_auto(encode_utf8(id), v, o)->Ok_0.0)),
{
    let (codec, bits) = spec_encode_id_auto(encode_utf8(id), v, o)->Ok_0;
    assert(spec_encode_id_with_codec(encode_utf8(id), v, codec, o) == Ok::<
        Seq<u8>,
        crate::id_codec::CodecFault,
    >(bits));
    law_decode_inverts_encode(id, v, codec, o);
}

} // verus!
