//! Option values: how the caller's option strings and numbers are read.
use vstd::prelude::*;
use crate::error::{Fault, PdfwmError};
use crate::id_codec::{
    spec_codec_named, spec_version_named, CodecFault, IdCodec, PdfwmCodecError, TrustmarkVersion,
};
use vstd::string::StrSliceExecFns;
use crate::text::{join, owned, str_equal, trim, trimmed};

verus! {

pub const DEFAULT_DPI: u16 = 500;

pub const DEFAULT_JPEG_QUALITY: u8 = 92;

pub const DEFAULT_MAX_PAGES: usize = 100;

pub const DEFAULT_MAX_PIXELS_PER_PAGE: u64 = 100_000_000;

pub const DEFAULT_MAX_ID_BYTES: usize = 256;

pub const DEFAULT_MIN_VOTES: usize = 1;

pub const DEFAULT_TILE_SIZE: u32 = 1280;

pub const DEFAULT_TILE_FEATHER: u32 = 0;

pub const DEFAULT_MIN_SEARCH_VOTES: usize = 2;

pub const DEFAULT_MAX_SEARCH_WINDOWS: usize = 180;

/// Which codec encodes ids: the first that fits, or a fixed one.
#[derive(Debug, Clone, Copy, PartialEq, Eq, Structural)]
pub enum IdCodecSelection {
    Auto,
    Specific(IdCodec),
}

#[derive(Debug, Clone, Copy, PartialEq, Eq, Structural)]
pub enum OutputImageFormat {
    Png,
    Jpeg,
}

impl OutputImageFormat {
    pub open spec fn spec_name(self) -> Seq<char> {
        match self {
            OutputImageFormat::Png => "png"@,
            OutputImageFormat::Jpeg => "jpeg"@,
        }
    }

    pub fn as_str(self) -> (s: &'static str)
        ensures
            s@ == self.spec_name(),
    {
        match self {
            OutputImageFormat::Png => "png",
            OutputImageFormat::Jpeg => "jpeg",
        }
    }
}

/// The message of a codec error.
pub open spec fn codec_message(f: CodecFault) -> Seq<char> {
    match f {
        CodecFault::InvalidId(m) => m,
        CodecFault::IdTooLong(m) => m,
        CodecFault::InvalidPayload(m) => m,
    }
}

fn codec_error_text(e: PdfwmCodecError) -> (m: String)
    ensures
        m@ == codec_message(e@),
{
    match e {
        PdfwmCodecError::InvalidId(m) => m,
        PdfwmCodecError::IdTooLong(m) => m,
        PdfwmCodecError::InvalidPayload(m) => m,
    }
}

/// Reads the `id_codec` option: `auto`, or the name of a codec.
pub fn parse_id_codec_selection(value: &str) -> (r: Result<IdCodecSelection, PdfwmError>)
    ensures
        value@ == "auto"@ ==> r == Ok::<IdCodecSelection, PdfwmError>(IdCodecSelection::Auto),
        value@ != "auto"@ ==> (match spec_codec_named(value@) {
            Some(c) => r == Ok::<IdCodecSelection, PdfwmError>(IdCodecSelection::Specific(c)),
            None => r matches Err(e) && e@ == Fault::InvalidArgument(
                "invalid id_codec option: "@ + ("unsupported id_codec: "@ + value@),
            ),
        }),
{
    if str_equal(value, "auto") {
        Ok(IdCodecSelection::Auto)
    } else {
        match IdCodec::parse(value) {
            Ok(c) => Ok(IdCodecSelection::Specific(c)),
            Err(e) => {
                let m = join(owned("invalid id_codec option: "), codec_error_text(e).as_str());
                Err(PdfwmError::InvalidArgument(m))
            },
        }
    }
}

/// Reads the `version` option.
pub fn parse_version_option(value: &str) -> (r: Result<TrustmarkVersion, PdfwmError>)
    ensures
        match spec_version_named(value@) {
            Some(v) => r == Ok::<TrustmarkVersion, PdfwmError>(v),
            None => r matches Err(e) && e@ == Fault::InvalidArgument(
                "invalid version option: "@ + ("unsupported TrustMark version: "@ + value@),
            ),
        },
{
    match TrustmarkVersion::parse(value) {
        Ok(v) => Ok(v),
        Err(e) => {
            let m = join(owned("invalid version option: "), codec_error_text(e).as_str());
            Err(PdfwmError::InvalidArgument(m))
        },
    }
}

/// Reads the `image_format` option: `png`, or `jpeg` (also spelled `jpg`).
pub fn parse_image_format(value: &str) -> (r: Result<OutputImageFormat, PdfwmError>)
    ensures
        value@ == "png"@ ==> r == Ok::<OutputImageFormat, PdfwmError>(OutputImageFormat::Png),
        value@ != "png"@ && (value@ == "jpeg"@ || value@ == "jpg"@) ==> r == Ok::<
            OutputImageFormat,
            PdfwmError,
        >(OutputImageFormat::Jpeg),
        !(value@ == "png"@ || value@ == "jpeg"@ || value@ == "jpg"@) ==> (r matches Err(e)
            && e@ == Fault::InvalidArgument("image_format must be png or jpeg"@)),
{
    if str_equal(value, "png") {
        Ok(OutputImageFormat::Png)
    } else if str_equal(value, "jpeg") || str_equal(value, "jpg") {
        Ok(OutputImageFormat::Jpeg)
    } else {
        Err(PdfwmError::InvalidArgument(owned("image_format must be png or jpeg")))
    }
}

/// Reads an integer option: it must not be negative.
pub fn option_u64_from_long(key: &str, long: i64) -> (r: Result<u64, PdfwmError>)
    ensures
        long >= 0 ==> r == Ok::<u64, PdfwmError>(long as u64),
        long < 0 ==> (r matches Err(e) && e@ == Fault::InvalidArgument(
            "options['"@ + key@ + "'] must be non-negative"@,
        )),
{
    if long >= 0 {
        Ok(long as u64)
    } else {
        let m = join(join(owned("options['"), key), "'] must be non-negative");
        Err(PdfwmError::InvalidArgument(m))
    }
}

/// Checks that an integer option fits the type named `kind`, whose largest value is `max`.
pub fn option_within(key: &str, value: u64, max: u64, kind: &str) -> (r: Result<
    u64,
    PdfwmError,
>)
    ensures
        value <= max ==> r == Ok::<u64, PdfwmError>(value),
        value > max ==> (r matches Err(e) && e@ == Fault::InvalidArgument(
            "options['"@ + key@ + "'] is out of range for "@ + kind@,
        )),
{
    if value <= max {
        Ok(value)
    } else {
        let m = join(join(join(owned("options['"), key), "'] is out of range for "), kind);
        Err(PdfwmError::InvalidArgument(m))
    }
}

/// The truth value of a flag read from the environment: after trimming whitespace and
/// ignoring ASCII case, `1`, `true`, `yes`, `on` are true and `0`, `false`, `no`, `off` false.
pub open spec fn spec_flag(s: Seq<char>) -> Option<bool> {
    let t = ascii_lowercase(trimmed(s));
    if t == "1"@ || t == "true"@ || t == "yes"@ || t == "on"@ {
        Some(true)
    } else if t == "0"@ || t == "false"@ || t == "no"@ || t == "off"@ {
        Some(false)
    } else {
        None
    }
}

pub open spec fn ascii_lower_char(c: char) -> char {
    if 'A' <= c <= 'Z' {
        ((c as u32) + 32) as char
    } else {
        c
    }
}

pub open spec fn ascii_lowercase(s: Seq<char>) -> Seq<char> {
    s.map_values(|c: char| ascii_lower_char(c))
}

/// Whether `t`, read without regard to ASCII case, is the lowercase word `w`.
fn is_word_ignoring_case(t: &str, w: &str) -> (r: bool)
    requires
        forall|i: int| 0 <= i < w@.len() ==> !('A' <= #[trigger] w@[i] <= 'Z'),
    ensures
        r == (ascii_lowercase(t@) == w@),
{
    let n = t.unicode_len();
    if n != w.unicode_len() {
        assert(ascii_lowercase(t@).len() != w@.len());
        return false;
    }
    let mut i: usize = 0;
    while i < n
        invariant
            n == t@.len() == w@.len(),
            i <= n,
            forall|j: int| 0 <= j < i ==> ascii_lower_char(#[trigger] t@[j]) == w@[j],
            forall|j: int| 0 <= j < w@.len() ==> !('A' <= #[trigger] w@[j] <= 'Z'),
        decreases n - i,
    {
        let tc = t.get_char(i);
        let wc = w.get_char(i);
        let same = tc == wc || ('a' <= wc && wc <= 'z' && (tc as u32) + 32 == (wc as u32));
        proof {
            assert(!('A' <= wc <= 'Z'));
            if 'A' <= tc <= 'Z' {
                assert(ascii_lower_char(tc) == ((tc as u32) + 32) as char);
                if (tc as u32) + 32 == (wc as u32) {
                    vstd::utf8::char_u32_cast(wc, wc as u32);
                }
                if ascii_lower_char(tc) == wc {
                    assert((tc as u32) + 32 == (wc as u32));
                }
            }
        }
        if !same {
            assert(ascii_lowercase(t@)[i as int] != w@[i as int]);
            return false;
        }
        i = i + 1;
    }
    assert(ascii_lowercase(t@) =~= w@);
    true
}

/// Reads a flag as the environment spells it.
pub fn parse_flag(value: &str) -> (r: Option<bool>)
    ensures
        r == spec_flag(value@),
{
    let t = trim(value);
    proof {
        reveal_strlit("1");
        reveal_strlit("true");
        reveal_strlit("yes");
        reveal_strlit("on");
        reveal_strlit("0");
        reveal_strlit("false");
        reveal_strlit("no");
        reveal_strlit("off");
    }
    if is_word_ignoring_case(t, "1") || is_word_ignoring_case(t, "true") || is_word_ignoring_case(
        t,
        "yes",
    ) || is_word_ignoring_case(t, "on") {
        Some(true)
    } else if is_word_ignoring_case(t, "0") || is_word_ignoring_case(t, "false")
        || is_word_ignoring_case(t, "no") || is_word_ignoring_case(t, "off") {
        Some(false)
    } else {
        None
    }
}

} // verus!
