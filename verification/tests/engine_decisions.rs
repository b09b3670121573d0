use pdfwm::engine::{
    accept_decoded, check_page_count, check_page_pixels, decide_from_hits, decode_payload,
    encode_id, record_window_hit, tile_jobs, tile_margin, validate_path, DecodeHit, TileRect,
};
use pdfwm::error::PdfwmError;
use pdfwm::id_codec::{
    encode_id_with_codec, DecodedId, IdCodec, IdEncodeOptions, TrustmarkVersion,
};
use pdfwm::options::{
    option_u64_from_long, option_within, parse_flag, parse_id_codec_selection,
    parse_image_format, parse_version_option, IdCodecSelection, OutputImageFormat,
};

fn hit(id: &str, whole: bool) -> DecodeHit {
    DecodeHit {
        decoded: DecodedId { id: id.to_string(), codec: IdCodec::UintDecimal },
        version: TrustmarkVersion::Bch5,
        whole,
    }
}

#[test]
fn no_hits_is_no_watermark() {
    match decide_from_hits(&Vec::new(), 2) {
        Err(PdfwmError::Watermark(m)) => assert_eq!(m, "no TrustMark watermark could be decoded"),
        other => panic!("unexpected {:?}", other.map(|d| d.votes)),
    }
}

#[test]
fn corroborated_id_wins() {
    let hits = vec![hit("7", true), hit("9", false), hit("7", false), hit("7", false)];
    let d = decide_from_hits(&hits, 2).unwrap();
    assert_eq!(d.decoded.id, "7");
    assert_eq!(d.votes, 2);
    assert!(d.corroborated);
}

#[test]
fn equal_support_is_ambiguous() {
    let hits = vec![hit("7", false), hit("9", false), hit("7", false), hit("9", false)];
    match decide_from_hits(&hits, 2) {
        Err(PdfwmError::AmbiguousWatermark(m)) => {
            assert_eq!(m, "multiple watermark ids decoded with equal support")
        },
        other => panic!("unexpected {:?}", other.map(|d| d.votes)),
    }
    // A clear leader among strong ids is not ambiguous.
    let hits = vec![hit("7", false), hit("9", false), hit("7", false), hit("9", false), hit("9", false)];
    let d = decide_from_hits(&hits, 2).unwrap();
    assert_eq!(d.decoded.id, "9");
    assert_eq!(d.votes, 3);
}

#[test]
fn lone_whole_image_decode_is_uncorroborated() {
    let d = decide_from_hits(&vec![hit("42", true)], 2).unwrap();
    assert_eq!(d.decoded.id, "42");
    assert_eq!(d.votes, 1);
    assert!(!d.corroborated);
    // One window vote outranks a whole-image decode of another id.
    let d = decide_from_hits(&vec![hit("42", true), hit("43", false)], 2).unwrap();
    assert_eq!(d.decoded.id, "43");
    assert_eq!(d.votes, 1);
    assert!(!d.corroborated);
    // With equal window votes the id also seen whole ranks first.
    let d = decide_from_hits(&vec![hit("5", false), hit("6", false), hit("6", true)], 2).unwrap();
    assert_eq!(d.decoded.id, "6");
}

#[test]
fn window_hits_reach_the_vote_threshold() {
    let mut hits = vec![hit("7", true)];
    let d = || DecodedId { id: "7".to_string(), codec: IdCodec::UintDecimal };
    assert!(!record_window_hit(&mut hits, d(), TrustmarkVersion::Bch5, 2));
    assert!(record_window_hit(&mut hits, d(), TrustmarkVersion::Bch5, 2));
    assert_eq!(hits.len(), 3);
    assert!(!hits[2].whole);
    let decision = decide_from_hits(&hits, 2).unwrap();
    assert!(decision.corroborated);
    assert_eq!(decision.votes, 2);
    assert_eq!(decision.decoded.id, "7");
}

#[test]
fn payload_gate_filters_codec_and_digits() {
    let bits = encode_id_with_codec("12345", TrustmarkVersion::Bch5, IdCodec::UintDecimal, IdEncodeOptions::default())
        .unwrap()
        .bits;
    let (d, v) = decode_payload(&bits, IdCodecSelection::Auto, None).unwrap();
    assert_eq!(d.id, "12345");
    assert_eq!(v, TrustmarkVersion::Bch5);
    assert!(decode_payload(&bits, IdCodecSelection::Specific(IdCodec::Base36), None).is_none());
    assert!(decode_payload(&bits, IdCodecSelection::Auto, Some(4)).is_none());
    assert!(decode_payload(&bits, IdCodecSelection::Auto, Some(5)).is_some());
    assert!(decode_payload("0110", IdCodecSelection::Auto, None).is_none());
    assert!(decode_payload("2", IdCodecSelection::Auto, None).is_none());
    let b36 = DecodedId { id: "ABCDEFG".to_string(), codec: IdCodec::Base36 };
    assert!(accept_decoded(&b36, IdCodecSelection::Auto, Some(3)));
}

#[test]
fn tiles_cover_the_page_in_rows() {
    let jobs = tile_jobs(4250, 5500, 1280);
    assert_eq!(jobs.len(), 12);
    assert_eq!(jobs[0], TileRect { x: 0, y: 0, width: 1416, height: 1375 });
    assert_eq!(jobs[1], TileRect { x: 1416, y: 0, width: 1417, height: 1375 });
    assert_eq!(jobs[11], TileRect { x: 2833, y: 4125, width: 1417, height: 1375 });
    let area: u64 = jobs.iter().map(|t| t.width as u64 * t.height as u64).sum();
    assert_eq!(area, 4250 * 5500);
    assert_eq!(tile_jobs(600, 400, 1280), vec![TileRect { x: 0, y: 0, width: 600, height: 400 }]);
    assert_eq!(tile_margin(0, 1416, 1375), 85);
    assert_eq!(tile_margin(0, 100, 50), 8);
    assert_eq!(tile_margin(12, 100, 50), 12);
}

#[test]
fn page_limits() {
    assert!(check_page_count(3, 100).is_ok());
    match check_page_count(0, 100) {
        Err(PdfwmError::Pdf(m)) => assert_eq!(m, "PDF has no pages"),
        other => panic!("unexpected {other:?}"),
    }
    match check_page_count(101, 100) {
        Err(PdfwmError::Limit(m)) => assert_eq!(m, "PDF has 101 pages, exceeding max_pages 100"),
        other => panic!("unexpected {other:?}"),
    }
    assert_eq!(check_page_pixels(4250, 5500, 100_000_000).unwrap(), 23_375_000);
    match check_page_pixels(20000, 10000, 100_000_000) {
        Err(PdfwmError::Limit(m)) => assert_eq!(
            m,
            "rendered page would be 200000000 pixels, exceeding max_pixels_per_page 100000000"
        ),
        other => panic!("unexpected {other:?}"),
    }
}

#[test]
fn paths_must_not_be_blank() {
    assert!(validate_path("/tmp/a.png", "inputImagePath").is_ok());
    match validate_path(" \t\n", "inputImagePath") {
        Err(PdfwmError::InvalidArgument(m)) => assert_eq!(m, "inputImagePath must not be empty"),
        other => panic!("unexpected {other:?}"),
    }
    assert!(validate_path("", "pdfPath").is_err());
}

#[test]
fn codec_selection_drives_encoding() {
    let o = IdEncodeOptions::default();
    let e = encode_id("0007", IdCodecSelection::Auto, TrustmarkVersion::Bch5, o).unwrap();
    assert_eq!(e.codec, IdCodec::DecimalBcd);
    let e = encode_id("7", IdCodecSelection::Specific(IdCodec::Base36), TrustmarkVersion::Bch5, o)
        .unwrap();
    assert_eq!(e.codec, IdCodec::Base36);
    match encode_id("", IdCodecSelection::Auto, TrustmarkVersion::Bch5, o) {
        Err(PdfwmError::InvalidId(m)) => assert_eq!(m, "id must not be empty"),
        other => panic!("unexpected {:?}", other.map(|e| e.bits)),
    }
}

#[test]
fn option_values_are_read() {
    assert_eq!(parse_id_codec_selection("auto").unwrap(), IdCodecSelection::Auto);
    assert_eq!(
        parse_id_codec_selection("base36").unwrap(),
        IdCodecSelection::Specific(IdCodec::Base36)
    );
    match parse_id_codec_selection("hex") {
        Err(PdfwmError::InvalidArgument(m)) => {
            assert_eq!(m, "invalid id_codec option: unsupported id_codec: hex")
        },
        other => panic!("unexpected {other:?}"),
    }
    assert_eq!(parse_version_option("BCH_3").unwrap(), TrustmarkVersion::Bch3);
    match parse_version_option("bch_3") {
        Err(PdfwmError::InvalidArgument(m)) => {
            assert_eq!(m, "invalid version option: unsupported TrustMark version: bch_3")
        },
        other => panic!("unexpected {other:?}"),
    }
    assert_eq!(parse_image_format("png").unwrap(), OutputImageFormat::Png);
    assert_eq!(parse_image_format("jpg").unwrap(), OutputImageFormat::Jpeg);
    assert_eq!(parse_image_format("jpeg").unwrap(), OutputImageFormat::Jpeg);
    assert!(parse_image_format("gif").is_err());
    assert_eq!(OutputImageFormat::Jpeg.as_str(), "jpeg");
    assert_eq!(OutputImageFormat::Png.as_str(), "png");
    assert_eq!(option_u64_from_long("dpi", 300).unwrap(), 300);
    match option_u64_from_long("dpi", -1) {
        Err(PdfwmError::InvalidArgument(m)) => assert_eq!(m, "options['dpi'] must be non-negative"),
        other => panic!("unexpected {other:?}"),
    }
    assert_eq!(option_within("jpeg_quality", 90, 255, "u8").unwrap(), 90);
    match option_within("jpeg_quality", 300, 255, "u8") {
        Err(PdfwmError::InvalidArgument(m)) => {
            assert_eq!(m, "options['jpeg_quality'] is out of range for u8")
        },
        other => panic!("unexpected {other:?}"),
    }
    assert_eq!(parse_flag(" TRUE "), Some(true));
    assert_eq!(parse_flag("On"), Some(true));
    assert_eq!(parse_flag("1"), Some(true));
    assert_eq!(parse_flag("off\n"), Some(false));
    assert_eq!(parse_flag("No"), Some(false));
    assert_eq!(parse_flag("maybe"), None);
}
