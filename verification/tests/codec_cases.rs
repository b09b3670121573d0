use pdfwm::error::PdfwmError;
use pdfwm::id_codec::{
    capacity_message, decode_id, encode_id_auto, encode_id_with_codec, version_from_data_bits,
    IdCodec, IdEncodeOptions, PdfwmCodecError, TrustmarkVersion,
};

const VERSIONS: [TrustmarkVersion; 4] = [
    TrustmarkVersion::BchSuper,
    TrustmarkVersion::Bch5,
    TrustmarkVersion::Bch4,
    TrustmarkVersion::Bch3,
];

fn opts() -> IdEncodeOptions {
    IdEncodeOptions::default()
}

fn bits_of(value: u128, width: usize) -> String {
    (0..width).rev().map(|s| if (value >> s) & 1 == 1 { '1' } else { '0' }).collect()
}

fn padded(mut s: String, n: usize) -> String {
    while s.len() < n {
        s.push('0');
    }
    s
}

#[test]
fn capacities_match_the_documented_table() {
    let v = TrustmarkVersion::Bch5;
    assert_eq!(v.data_bits(), 61);
    assert_eq!(v.uint_decimal_max(), 576460752303423487);
    assert_eq!(v.decimal_bcd_max_digits(), 13);
    assert_eq!(v.base36_max_chars(), 10);
    assert_eq!(v.utf8_raw_max_bytes(), 7);

    let v = TrustmarkVersion::BchSuper;
    assert_eq!(v.data_bits(), 40);
    assert_eq!(v.uint_decimal_max(), 274877906943);
    assert_eq!(v.decimal_bcd_max_digits(), 8);
    assert_eq!(v.base36_max_chars(), 6);
    assert_eq!(v.utf8_raw_max_bytes(), 4);

    let v = TrustmarkVersion::Bch4;
    assert_eq!(v.data_bits(), 68);
    assert_eq!(v.uint_decimal_max(), 73786976294838206463);
    assert_eq!(v.decimal_bcd_max_digits(), 15);
    assert_eq!(v.base36_max_chars(), 11);
    assert_eq!(v.utf8_raw_max_bytes(), 8);

    let v = TrustmarkVersion::Bch3;
    assert_eq!(v.data_bits(), 75);
    assert_eq!(v.uint_decimal_max(), 9444732965739290427391);
    assert_eq!(v.decimal_bcd_max_digits(), 17);
    assert_eq!(v.base36_max_chars(), 13);
    assert_eq!(v.utf8_raw_max_bytes(), 9);
}

#[test]
fn capacity_message_names_every_codec() {
    assert_eq!(
        capacity_message(TrustmarkVersion::Bch5),
        "id is too long for TrustMark BCH_5. Supported direct ID capacity:\n\
         - uint_decimal: 0..576460752303423487 without leading zeros\n\
         - decimal_bcd: up to 13 digits\n\
         - base36: up to 10 chars [0-9A-Z]\n\
         - utf8_raw: up to 7 UTF-8 bytes\n\
         Use a shorter external ID, switch to BCH_3, or choose numeric/base36 format."
    );
}

#[test]
fn encoded_bits_are_exact() {
    let e = encode_id_with_codec("5", TrustmarkVersion::BchSuper, IdCodec::UintDecimal, opts())
        .unwrap();
    assert_eq!(e.bits, format!("01{}", bits_of(5, 38)));

    let e = encode_id_with_codec("0123", TrustmarkVersion::Bch5, IdCodec::DecimalBcd, opts())
        .unwrap();
    assert_eq!(e.bits, "1000100000000010010001100000000000000000000000000000000000000");

    let e = encode_id_with_codec("Z1", TrustmarkVersion::Bch5, IdCodec::Base36, opts()).unwrap();
    assert_eq!(e.bits, "1100010000000000000000000000000000000000000000000010011101101");

    let e = encode_id_with_codec("Ab", TrustmarkVersion::BchSuper, IdCodec::Utf8Raw, opts())
        .unwrap();
    assert_eq!(e.bits, "0001000001011000100000000000000000000000");
    assert_eq!(e.id, "Ab");
    assert_eq!(e.version, TrustmarkVersion::BchSuper);
}

#[test]
fn auto_tries_codecs_in_order() {
    let v = TrustmarkVersion::Bch5;
    assert_eq!(encode_id_auto("123", v, opts()).unwrap().codec, IdCodec::UintDecimal);
    assert_eq!(encode_id_auto("0123", v, opts()).unwrap().codec, IdCodec::DecimalBcd);
    assert_eq!(encode_id_auto("ABC", v, opts()).unwrap().codec, IdCodec::Base36);
    assert_eq!(encode_id_auto("abc", v, opts()).unwrap().codec, IdCodec::Utf8Raw);
    assert_eq!(
        encode_id_auto("abcdefgh", v, opts()).unwrap_err(),
        PdfwmCodecError::IdTooLong(capacity_message(v))
    );
}

#[test]
fn every_codec_roundtrips_on_every_version() {
    for v in VERSIONS {
        for (id, codec) in [
            ("7", IdCodec::UintDecimal),
            ("0042", IdCodec::DecimalBcd),
            ("0Z9", IdCodec::Base36),
            ("é!", IdCodec::Utf8Raw),
        ] {
            let e = encode_id_with_codec(id, v, codec, opts()).unwrap();
            assert_eq!(e.bits.len(), v.data_bits());
            let d = decode_id(&e.bits).unwrap();
            assert_eq!(d.id, id);
            assert_eq!(d.codec, codec);
        }
        let max = v.uint_decimal_max().to_string();
        let e = encode_id_with_codec(&max, v, IdCodec::UintDecimal, opts()).unwrap();
        assert_eq!(decode_id(&e.bits).unwrap().id, max);
        let nines = "9".repeat(v.decimal_bcd_max_digits());
        let e = encode_id_with_codec(&nines, v, IdCodec::DecimalBcd, opts()).unwrap();
        assert_eq!(decode_id(&e.bits).unwrap().id, nines);
        let zs = "Z".repeat(v.base36_max_chars());
        let e = encode_id_with_codec(&zs, v, IdCodec::Base36, opts()).unwrap();
        assert_eq!(decode_id(&e.bits).unwrap().id, zs);
    }
}

#[test]
fn common_validation_messages() {
    let v = TrustmarkVersion::Bch5;
    assert_eq!(
        encode_id_auto("", v, opts()).unwrap_err(),
        PdfwmCodecError::InvalidId("id must not be empty".to_string())
    );
    let small = IdEncodeOptions { allow_control_chars: false, max_id_bytes: 3 };
    assert_eq!(
        encode_id_auto("1234", v, small).unwrap_err(),
        PdfwmCodecError::InvalidId("id length 4 exceeds max_id_bytes 3".to_string())
    );
    assert_eq!(
        encode_id_auto("A\u{7f}", v, opts()).unwrap_err(),
        PdfwmCodecError::InvalidId("id must not contain ASCII control characters".to_string())
    );
    let lenient = IdEncodeOptions { allow_control_chars: true, max_id_bytes: 256 };
    let e = encode_id_with_codec("A\tB", v, IdCodec::Utf8Raw, lenient).unwrap();
    assert_eq!(decode_id(&e.bits).unwrap().id, "A\tB");
}

#[test]
fn codec_rejection_messages() {
    let v = TrustmarkVersion::Bch5;
    let lenient = IdEncodeOptions { allow_control_chars: true, max_id_bytes: 256 };
    assert_eq!(
        encode_id_with_codec("A\0", v, IdCodec::Utf8Raw, lenient).unwrap_err(),
        PdfwmCodecError::InvalidId("utf8_raw id must not contain NUL byte".to_string())
    );
    assert_eq!(
        encode_id_with_codec("abcdefgh", v, IdCodec::Utf8Raw, opts()).unwrap_err(),
        PdfwmCodecError::IdTooLong(
            "id is too long for utf8_raw: 8 bytes exceeds 7 bytes for BCH_5".to_string()
        )
    );
    assert_eq!(
        encode_id_with_codec("012", v, IdCodec::UintDecimal, opts()).unwrap_err(),
        PdfwmCodecError::InvalidId(
            "uint_decimal id must be a non-negative decimal integer without leading zeroes"
                .to_string()
        )
    );
    let huge = "9".repeat(60);
    assert_eq!(
        encode_id_with_codec(&huge, v, IdCodec::UintDecimal, opts()).unwrap_err(),
        PdfwmCodecError::IdTooLong(
            "uint_decimal id exceeds capacity for BCH_5; max is 576460752303423487".to_string()
        )
    );
    assert_eq!(
        encode_id_with_codec("12a", v, IdCodec::DecimalBcd, opts()).unwrap_err(),
        PdfwmCodecError::InvalidId("decimal_bcd id must contain only decimal digits".to_string())
    );
    assert_eq!(
        encode_id_with_codec("01234567890123", v, IdCodec::DecimalBcd, opts()).unwrap_err(),
        PdfwmCodecError::IdTooLong(
            "decimal_bcd id has 14 digits, exceeding 13 digits for BCH_5".to_string()
        )
    );
    assert_eq!(
        encode_id_with_codec("AB-C", v, IdCodec::Base36, opts()).unwrap_err(),
        PdfwmCodecError::InvalidId("base36 id must contain only 0-9A-Z".to_string())
    );
    assert_eq!(
        encode_id_with_codec("ABCDEFGHIJK", v, IdCodec::Base36, opts()).unwrap_err(),
        PdfwmCodecError::IdTooLong(
            "base36 id has 11 chars, exceeding 10 chars for BCH_5".to_string()
        )
    );
}

#[test]
fn decode_payload_errors() {
    let bad = |bits: &str| match decode_id(bits) {
        Err(PdfwmCodecError::InvalidPayload(m)) => m,
        other => panic!("expected an invalid payload, got {other:?}"),
    };
    assert_eq!(bad("0"), "payload must contain at least a 2-bit codec header");
    assert_eq!(bad("01x0"), "payload must contain only 0 and 1");
    assert_eq!(bad(&padded("00".to_string(), 40)), "decoded utf8_raw id is empty");
    assert!(bad(&padded("0011111111".to_string(), 40)).starts_with("invalid UTF-8 payload: "));
    assert_eq!(bad("100000"), "decimal_bcd payload is too short");
    assert_eq!(bad(&padded("1000000".to_string(), 40)), "decoded decimal_bcd id is empty");
    assert_eq!(bad("100001000"), "decimal_bcd payload ended before all digits were decoded");
    assert_eq!(bad("10000011010"), "invalid BCD digit: 10");
    assert_eq!(bad("11000"), "base36 payload is too short");
    assert_eq!(bad("1100000"), "decoded base36 id is empty");
    assert_eq!(bad("1100001100100"), "decoded base36 length mismatch");
}

#[test]
fn decode_reads_values_of_any_length() {
    assert_eq!(decode_id("01").unwrap().id, "0");
    assert_eq!(decode_id("01101").unwrap().id, "5");
    let long = format!("01{}", "1".repeat(100));
    assert_eq!(decode_id(&long).unwrap().id, "1267650600228229401496703205375");
    assert_eq!(decode_id("1100010100100").unwrap().id, "10");
    assert_eq!(decode_id("11000100100").unwrap().id, "04");
    assert_eq!(decode_id("1100011").unwrap().id, "000");
}

#[test]
fn version_from_unknown_bit_length_is_an_invalid_payload() {
    assert_eq!(
        version_from_data_bits(62).unwrap_err(),
        PdfwmCodecError::InvalidPayload("unsupported TrustMark data bit length: 62".to_string())
    );
    for v in VERSIONS {
        assert_eq!(version_from_data_bits(v.data_bits()).unwrap(), v);
    }
}

#[test]
fn names_parse_back() {
    for v in VERSIONS {
        assert_eq!(TrustmarkVersion::parse(v.name()).unwrap(), v);
        assert_eq!(v.name().parse::<TrustmarkVersion>().unwrap(), v);
    }
    for c in [IdCodec::Utf8Raw, IdCodec::UintDecimal, IdCodec::DecimalBcd, IdCodec::Base36] {
        assert_eq!(IdCodec::parse(c.name()).unwrap(), c);
    }
    assert_eq!(TrustmarkVersion::Bch5.name(), "BCH_5");
    assert_eq!(IdCodec::DecimalBcd.name(), "decimal_bcd");
    assert_eq!(
        TrustmarkVersion::parse("BCH_6").unwrap_err(),
        PdfwmCodecError::InvalidId("unsupported TrustMark version: BCH_6".to_string())
    );
    assert_eq!(
        IdCodec::parse("hex").unwrap_err(),
        PdfwmCodecError::InvalidId("unsupported id_codec: hex".to_string())
    );
    assert_eq!(TrustmarkVersion::default(), TrustmarkVersion::Bch5);
    let o = IdEncodeOptions::default();
    assert!(!o.allow_control_chars);
    assert_eq!(o.max_id_bytes, 256);
}

#[test]
fn codec_errors_become_library_errors() {
    match PdfwmError::from(PdfwmCodecError::InvalidPayload("x".to_string())) {
        PdfwmError::Watermark(m) => assert_eq!(m, "x"),
        other => panic!("unexpected {other:?}"),
    }
    match PdfwmError::from(PdfwmCodecError::IdTooLong("y".to_string())) {
        PdfwmError::IdTooLong(m) => assert_eq!(m, "y"),
        other => panic!("unexpected {other:?}"),
    }
    match PdfwmError::from(PdfwmCodecError::InvalidId("z".to_string())) {
        PdfwmError::InvalidId(m) => assert_eq!(m, "z"),
        other => panic!("unexpected {other:?}"),
    }
}
