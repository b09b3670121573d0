//! Direct encoding of an external string id into TrustMark payload bits, and back.
//!
//! A payload is a string of `'0'`/`'1'` characters whose length is the data-bit count of
//! the TrustMark version. Its first two bits name the codec: `00` UTF-8 bytes, `01` an
//! unsigned decimal integer, `10` BCD digits, `11` base-36 characters.
use vstd::prelude::*;
use vstd::utf8::{decode_utf8, encode_utf8, valid_utf8};
use crate::bignum::{binary_to_radix_text, decimal_value, is_decimal, parse_decimal_u128};
use crate::bits::{
    read_field,
    be_bits, bits_value, bytes_bits, is_binary, lemma_be_bits, lemma_binary_concat, lemma_bytes_bits,
    lemma_pad_bits, pad_bits, pad_to, push_bits,
};
use crate::number::{
    digits_value, lemma_pow_add, lemma_pow_monotone, lemma_radix_digits_below, pow_nat, radix_digits,
};
use crate::text::{
    all_ascii, ascii_chars, ascii_string, dec_chars, join, join_dec, owned, utf8_to_string, radix_text_lower, str_equal, upper_digit_byte,
    utf8_error_text,
};

verus! {

pub const CODEC_HEADER_BITS: usize = 2;

pub const LENGTH_BITS: usize = 5;

/// The TrustMark BCH variants, each with its own count of protected data bits.
#[derive(Debug, Clone, Copy, PartialEq, Eq, Hash, Structural)]
pub enum TrustmarkVersion {
    BchSuper,
    Bch5,
    Bch4,
    Bch3,
}

/// The four ways an id can be packed into payload bits.
#[derive(Debug, Clone, Copy, PartialEq, Eq, Hash, Structural)]
pub enum IdCodec {
    Utf8Raw,
    UintDecimal,
    DecimalBcd,
    Base36,
}

/// Checks applied to every id before it is encoded.
#[derive(Debug, Clone, Copy, PartialEq, Eq, Structural)]
pub struct IdEncodeOptions {
    pub allow_control_chars: bool,
    pub max_id_bytes: usize,
}

/// An id together with the payload bits that carry it.
#[derive(Debug, Clone, PartialEq, Eq)]
pub struct EncodedId {
    pub id: String,
    pub codec: IdCodec,
    pub version: TrustmarkVersion,
    pub bits: String,
}

/// An id read back from payload bits.
#[derive(Debug, Clone, PartialEq, Eq)]
pub struct DecodedId {
    pub id: String,
    pub codec: IdCodec,
}

/// Why an id could not be encoded or a payload could not be decoded.
#[derive(Debug, PartialEq, Eq)]
pub enum PdfwmCodecError {
    InvalidId(String),
    IdTooLong(String),
    InvalidPayload(String),
}

/// The mathematical content of a [`PdfwmCodecError`]: its kind and message characters.
pub enum CodecFault {
    InvalidId(Seq<char>),
    IdTooLong(Seq<char>),
    InvalidPayload(Seq<char>),
}

impl View for PdfwmCodecError {
    type V = CodecFault;

    open spec fn view(&self) -> CodecFault {
        match self {
            PdfwmCodecError::InvalidId(m) => CodecFault::InvalidId(m@),
            PdfwmCodecError::IdTooLong(m) => CodecFault::IdTooLong(m@),
            PdfwmCodecError::InvalidPayload(m) => CodecFault::InvalidPayload(m@),
        }
    }
}

impl Default for IdEncodeOptions {
    fn default() -> (o: Self)
        ensures
            o.allow_control_chars == false,
            o.max_id_bytes == 256,
    {
        IdEncodeOptions { allow_control_chars: false, max_id_bytes: 256 }
    }
}

impl Default for TrustmarkVersion {
    fn default() -> (v: Self)
        ensures
            v == TrustmarkVersion::Bch5,
    {
        TrustmarkVersion::Bch5
    }
}

/// Concrete powers of two and thirty-six used by the capacity computations.
pub proof fn lemma_pow_values()
    ensures
        pow_nat(2, 33) == 8589934592,
        pow_nat(2, 54) == 18014398509481984,
        pow_nat(2, 61) == 2305843009213693952,
        pow_nat(2, 68) == 295147905179352825856,
        pow_nat(2, 75) == 37778931862957161709568,
        pow_nat(2, 128) == 340282366920938463463374607431768211456,
        pow_nat(36, 6) == 2176782336,
        pow_nat(36, 7) == 78364164096,
        pow_nat(36, 10) == 3656158440062976,
        pow_nat(36, 11) == 131621703842267136,
        pow_nat(36, 12) == 4738381338321616896,
        pow_nat(36, 13) == 170581728179578208256,
        pow_nat(36, 14) == 6140942214464815497216,
{
    assert(pow_nat(2, 8) == 256) by {
        reveal_with_fuel(pow_nat, 9);
    }
    assert(pow_nat(2, 5) == 32) by {
        reveal_with_fuel(pow_nat, 6);
    }
    assert(pow_nat(2, 6) == 64) by {
        reveal_with_fuel(pow_nat, 7);
    }
    assert(pow_nat(2, 1) == 2) by {
        reveal_with_fuel(pow_nat, 2);
    }
    assert(pow_nat(2, 3) == 8) by {
        reveal_with_fuel(pow_nat, 4);
    }
    lemma_pow_add(2, 8, 8);
    assert(pow_nat(2, 16) == 65536);
    lemma_pow_add(2, 16, 16);
    assert(pow_nat(2, 32) == 4294967296);
    lemma_pow_add(2, 32, 1);
    assert(pow_nat(2, 33) == 8589934592);
    lemma_pow_add(2, 32, 16);
    assert(pow_nat(2, 48) == 281474976710656);
    lemma_pow_add(2, 48, 6);
    assert(pow_nat(2, 54) == 18014398509481984);
    lemma_pow_add(2, 48, 8);
    assert(pow_nat(2, 56) == 72057594037927936);
    lemma_pow_add(2, 56, 5);
    assert(pow_nat(2, 61) == 2305843009213693952);
    lemma_pow_add(2, 32, 32);
    assert(pow_nat(2, 64) == 18446744073709551616);
    lemma_pow_add(2, 64, 3);
    assert(pow_nat(2, 67) == 147573952589676412928);
    lemma_pow_add(2, 64, 8);
    assert(pow_nat(2, 72) == 4722366482869645213696);
    lemma_pow_add(2, 72, 3);
    assert(pow_nat(2, 75) == 37778931862957161709568);
    lemma_pow_add(2, 64, 64);
    assert(pow_nat(2, 128) == 340282366920938463463374607431768211456);
    assert(pow_nat(36, 1) == 36) by {
        reveal_with_fuel(pow_nat, 2);
    }
    assert(pow_nat(36, 2) == 1296) by {
        reveal_with_fuel(pow_nat, 3);
    }
    lemma_pow_add(36, 2, 2);
    assert(pow_nat(36, 4) == 1679616);
    lemma_pow_add(36, 4, 2);
    assert(pow_nat(36, 6) == 2176782336);
    lemma_pow_add(36, 6, 1);
    assert(pow_nat(36, 7) == 78364164096);
    lemma_pow_add(36, 6, 4);
    assert(pow_nat(36, 10) == 3656158440062976);
    lemma_pow_add(36, 10, 1);
    assert(pow_nat(36, 11) == 131621703842267136);
    lemma_pow_add(36, 10, 2);
    assert(pow_nat(36, 12) == 4738381338321616896);
    lemma_pow_add(36, 12, 1);
    assert(pow_nat(36, 13) == 170581728179578208256);
    lemma_pow_add(36, 12, 2);
    assert(pow_nat(36, 14) == 6140942214464815497216);
}

impl TrustmarkVersion {
    pub open spec fn spec_data_bits(self) -> nat {
        match self {
            TrustmarkVersion::BchSuper => 40,
            TrustmarkVersion::Bch5 => 61,
            TrustmarkVersion::Bch4 => 68,
            TrustmarkVersion::Bch3 => 75,
        }
    }

    /// Largest value the `uint_decimal` codec can carry: all bits after the header set.
    pub open spec fn spec_uint_decimal_max(self) -> nat {
        (pow_nat(2, (self.spec_data_bits() - 2) as nat) - 1) as nat
    }

    pub open spec fn spec_decimal_bcd_max_digits(self) -> nat {
        ((self.spec_data_bits() - 7) / 4) as nat
    }

    /// Bits left for the base-36 value after the header and the length field.
    pub open spec fn spec_base36_value_bits(self) -> nat {
        (self.spec_data_bits() - 7) as nat
    }

    /// Most base-36 characters whose every value fits the value bits:
    /// the largest `k` with `36^k <= 2^value_bits`.
    pub open spec fn spec_base36_max_chars(self) -> nat {
        match self {
            TrustmarkVersion::BchSuper => 6,
            TrustmarkVersion::Bch5 => 10,
            TrustmarkVersion::Bch4 => 11,
            TrustmarkVersion::Bch3 => 13,
        }
    }

    pub open spec fn spec_utf8_raw_max_bytes(self) -> nat {
        ((self.spec_data_bits() - 2) / 8) as nat
    }

    pub open spec fn spec_name(self) -> Seq<char> {
        match self {
            TrustmarkVersion::BchSuper => "BCH_SUPER"@,
            TrustmarkVersion::Bch5 => "BCH_5"@,
            TrustmarkVersion::Bch4 => "BCH_4"@,
            TrustmarkVersion::Bch3 => "BCH_3"@,
        }
    }

    pub fn data_bits(self) -> (n: usize)
        ensures
            n == self.spec_data_bits(),
    {
        match self {
            TrustmarkVersion::BchSuper => 40,
            TrustmarkVersion::Bch5 => 61,
            TrustmarkVersion::Bch4 => 68,
            TrustmarkVersion::Bch3 => 75,
        }
    }

    pub fn uint_decimal_max(self) -> (m: u128)
        ensures
            m == self.spec_uint_decimal_max(),
    {
        let p = pow2_u128(self.data_bits() - CODEC_HEADER_BITS);
        proof {
            crate::number::lemma_pow_pos(2, (self.spec_data_bits() - 2) as nat);
        }
        p - 1
    }

    pub fn decimal_bcd_max_digits(self) -> (n: usize)
        ensures
            n == self.spec_decimal_bcd_max_digits(),
    {
        (self.data_bits() - CODEC_HEADER_BITS - LENGTH_BITS) / 4
    }

    pub fn base36_max_chars(self) -> (n: usize)
        ensures
            n == self.spec_base36_max_chars(),
            pow_nat(36, n as nat) <= pow_nat(2, self.spec_base36_value_bits()),
            pow_nat(2, self.spec_base36_value_bits()) < pow_nat(36, (n + 1) as nat),
    {
        let n = max_base36_chars(self.data_bits() - CODEC_HEADER_BITS - LENGTH_BITS);
        proof {
            lemma_pow_values();
            let t = self.spec_base36_max_chars();
            assert(pow_nat(36, t) <= pow_nat(2, self.spec_base36_value_bits()) < pow_nat(
                36,
                t + 1,
            ));
            lemma_max_pow_unique(36, pow_nat(2, self.spec_base36_value_bits()), n as nat, t);
        }
        n
    }

    pub fn utf8_raw_max_bytes(self) -> (n: usize)
        ensures
            n == self.spec_utf8_raw_max_bytes(),
    {
        (self.data_bits() - CODEC_HEADER_BITS) / 8
    }

    /// The version's name, as shown to users.
    pub fn name(self) -> (s: &'static str)
        ensures
            s@ == self.spec_name(),
    {
        match self {
            TrustmarkVersion::BchSuper => "BCH_SUPER",
            TrustmarkVersion::Bch5 => "BCH_5",
            TrustmarkVersion::Bch4 => "BCH_4",
            TrustmarkVersion::Bch3 => "BCH_3",
        }
    }
}

/// `2^e`.
fn pow2_u128(e: usize) -> (p: u128)
    requires
        e <= 75,
    ensures
        p == pow_nat(2, e as nat),
{
    let mut p: u128 = 1;
    let mut i: usize = 0;
    proof {
        lemma_pow_values();
    }
    while i < e
        invariant
            i <= e <= 75,
            p == pow_nat(2, i as nat),
            pow_nat(2, 75) == 37778931862957161709568,
        decreases e - i,
    {
        proof {
            lemma_pow_monotone(2, (i + 1) as nat, 75);
        }
        p = p * 2;
        i = i + 1;
    }
    p
}

/// At most one `k` has `b^k <= limit < b^(k+1)`.
pub proof fn lemma_max_pow_unique(b: nat, limit: nat, k1: nat, k2: nat)
    requires
        b >= 1,
        pow_nat(b, k1) <= limit < pow_nat(b, k1 + 1),
        pow_nat(b, k2) <= limit < pow_nat(b, k2 + 1),
    ensures
        k1 == k2,
{
    if k1 < k2 {
        lemma_pow_monotone(b, k1 + 1, k2);
    } else if k2 < k1 {
        lemma_pow_monotone(b, k2 + 1, k1);
    }
}

/// The largest `k` with `36^k <= 2^value_bits`.
fn max_base36_chars(value_bits: usize) -> (n: usize)
    requires
        value_bits <= 68,
    ensures
        pow_nat(36, n as nat) <= pow_nat(2, value_bits as nat) < pow_nat(36, (n + 1) as nat),
{
    let limit = pow2_u128(value_bits);
    let mut pow: u128 = 1;
    let mut len: usize = 0;
    proof {
        lemma_pow_values();
        lemma_pow_monotone(2, value_bits as nat, 68);
        crate::number::lemma_pow_pos(2, value_bits as nat);
    }
    while pow * 36 <= limit
        invariant
            limit == pow_nat(2, value_bits as nat),
            limit <= 295147905179352825856,
            pow == pow_nat(36, len as nat),
            pow <= limit,
            len <= 20,
        decreases limit - pow,
    {
        proof {
            crate::number::lemma_pow_pos(36, len as nat);
            lemma_pow_monotone(36, len as nat, 20);
            if len >= 20 {
                assert(pow_nat(36, 20) > 295147905179352825856) by {
                    lemma_pow_values();
                    lemma_pow_monotone(36, 14, 20);
                }
            }
        }
        pow = pow * 36;
        len = len + 1;
    }
    len
}

} // verus!

verus! {

pub open spec fn msg_id_length(len: nat, max: nat) -> Seq<char> {
    "id length "@ + dec_chars(len) + " exceeds max_id_bytes "@ + dec_chars(max)
}

pub open spec fn msg_utf8_too_long(len: nat, max: nat, v: TrustmarkVersion) -> Seq<char> {
    "id is too long for utf8_raw: "@ + dec_chars(len) + " bytes exceeds "@ + dec_chars(max)
        + " bytes for "@ + v.spec_name()
}

pub open spec fn msg_uint_capacity(v: TrustmarkVersion) -> Seq<char> {
    "uint_decimal id exceeds capacity for "@ + v.spec_name() + "; max is "@ + dec_chars(
        v.spec_uint_decimal_max(),
    )
}

pub open spec fn msg_bcd_too_long(len: nat, max: nat, v: TrustmarkVersion) -> Seq<char> {
    "decimal_bcd id has "@ + dec_chars(len) + " digits, exceeding "@ + dec_chars(max)
        + " digits for "@ + v.spec_name()
}

pub open spec fn msg_base36_too_long(len: nat, max: nat, v: TrustmarkVersion) -> Seq<char> {
    "base36 id has "@ + dec_chars(len) + " chars, exceeding "@ + dec_chars(max) + " chars for "@
        + v.spec_name()
}

pub open spec fn msg_base36_value(value_bits: nat, v: TrustmarkVersion) -> Seq<char> {
    "base36 value exceeds "@ + dec_chars(value_bits) + "-bit capacity for "@ + v.spec_name()
}

pub open spec fn msg_bcd_digit(d: nat) -> Seq<char> {
    "invalid BCD digit: "@ + dec_chars(d)
}

pub open spec fn msg_data_bits(bits: nat) -> Seq<char> {
    "unsupported TrustMark data bit length: "@ + dec_chars(bits)
}

/// The message listing every codec's capacity for a version.
pub open spec fn spec_capacity_message(v: TrustmarkVersion) -> Seq<char> {
    "id is too long for TrustMark "@ + v.spec_name()
        + ". Supported direct ID capacity:\n- uint_decimal: 0.."@ + dec_chars(
        v.spec_uint_decimal_max(),
    ) + " without leading zeros\n- decimal_bcd: up to "@ + dec_chars(
        v.spec_decimal_bcd_max_digits(),
    ) + " digits\n- base36: up to "@ + dec_chars(v.spec_base36_max_chars())
        + " chars [0-9A-Z]\n- utf8_raw: up to "@ + dec_chars(v.spec_utf8_raw_max_bytes())
        + " UTF-8 bytes\nUse a shorter external ID, switch to BCH_3, or choose numeric/base36 format."@
}

fn id_length_message(len: usize, max: usize) -> (m: String)
    ensures
        m@ == msg_id_length(len as nat, max as nat),
{
    let m = join_dec(owned("id length "), len as u128);
    let m = join(m, " exceeds max_id_bytes ");
    join_dec(m, max as u128)
}

fn utf8_too_long_message(len: usize, max: usize, v: TrustmarkVersion) -> (m: String)
    ensures
        m@ == msg_utf8_too_long(len as nat, max as nat, v),
{
    let m = join_dec(owned("id is too long for utf8_raw: "), len as u128);
    let m = join_dec(join(m, " bytes exceeds "), max as u128);
    join(join(m, " bytes for "), v.name())
}

fn uint_capacity_message(v: TrustmarkVersion) -> (m: String)
    ensures
        m@ == msg_uint_capacity(v),
{
    let m = join(owned("uint_decimal id exceeds capacity for "), v.name());
    join_dec(join(m, "; max is "), v.uint_decimal_max())
}

fn bcd_too_long_message(len: usize, max: usize, v: TrustmarkVersion) -> (m: String)
    ensures
        m@ == msg_bcd_too_long(len as nat, max as nat, v),
{
    let m = join_dec(owned("decimal_bcd id has "), len as u128);
    let m = join_dec(join(m, " digits, exceeding "), max as u128);
    join(join(m, " digits for "), v.name())
}

fn base36_too_long_message(len: usize, max: usize, v: TrustmarkVersion) -> (m: String)
    ensures
        m@ == msg_base36_too_long(len as nat, max as nat, v),
{
    let m = join_dec(owned("base36 id has "), len as u128);
    let m = join_dec(join(m, " chars, exceeding "), max as u128);
    join(join(m, " chars for "), v.name())
}

fn base36_value_message(value_bits: usize, v: TrustmarkVersion) -> (m: String)
    ensures
        m@ == msg_base36_value(value_bits as nat, v),
{
    let m = join_dec(owned("base36 value exceeds "), value_bits as u128);
    join(join(m, "-bit capacity for "), v.name())
}

/// The message that names each codec's capacity for `version`.
pub fn capacity_message(version: TrustmarkVersion) -> (m: String)
    ensures
        m@ == spec_capacity_message(version),
{
    let m = join(owned("id is too long for TrustMark "), version.name());
    let m = join(m, ". Supported direct ID capacity:\n- uint_decimal: 0..");
    let m = join_dec(m, version.uint_decimal_max());
    let m = join(m, " without leading zeros\n- decimal_bcd: up to ");
    let m = join_dec(m, version.decimal_bcd_max_digits() as u128);
    let m = join(m, " digits\n- base36: up to ");
    let m = join_dec(m, version.base36_max_chars() as u128);
    let m = join(m, " chars [0-9A-Z]\n- utf8_raw: up to ");
    let m = join_dec(m, version.utf8_raw_max_bytes() as u128);
    join(
        m,
        " UTF-8 bytes\nUse a shorter external ID, switch to BCH_3, or choose numeric/base36 format.",
    )
}

} // verus!

verus! {

pub open spec fn is_control(c: u8) -> bool {
    c <= 31 || c == 127
}

/// The checks every id passes before any codec sees it.
pub open spec fn spec_validate_common_id(b: Seq<u8>, o: IdEncodeOptions) -> Option<CodecFault> {
    if b.len() == 0 {
        Some(CodecFault::InvalidId("id must not be empty"@))
    } else if b.len() > o.max_id_bytes {
        Some(CodecFault::InvalidId(msg_id_length(b.len(), o.max_id_bytes as nat)))
    } else if !o.allow_control_chars && exists|i: int| 0 <= i < b.len() && is_control(#[trigger] b[i]) {
        Some(CodecFault::InvalidId("id must not contain ASCII control characters"@))
    } else {
        None
    }
}

/// The two header bits that name a codec.
pub open spec fn header_bits(codec: IdCodec) -> Seq<u8> {
    match codec {
        IdCodec::Utf8Raw => seq![48u8, 48u8],
        IdCodec::UintDecimal => seq![48u8, 49u8],
        IdCodec::DecimalBcd => seq![49u8, 48u8],
        IdCodec::Base36 => seq![49u8, 49u8],
    }
}

pub open spec fn has_nul(b: Seq<u8>) -> bool {
    exists|i: int| 0 <= i < b.len() && #[trigger] b[i] == 0
}

pub open spec fn spec_encode_utf8_raw(b: Seq<u8>, v: TrustmarkVersion) -> Result<Seq<u8>, CodecFault> {
    if has_nul(b) {
        Err(CodecFault::InvalidId("utf8_raw id must not contain NUL byte"@))
    } else if b.len() > v.spec_utf8_raw_max_bytes() {
        Err(
            CodecFault::IdTooLong(msg_utf8_too_long(b.len(), v.spec_utf8_raw_max_bytes(), v)),
        )
    } else {
        Ok(pad_bits(header_bits(IdCodec::Utf8Raw) + bytes_bits(b), v.spec_data_bits()))
    }
}

/// `0`, or decimal digits that do not start with `0`.
pub open spec fn is_canonical_decimal(b: Seq<u8>) -> bool {
    b == seq![48u8] || (b.len() > 0 && 49 <= b[0] <= 57 && is_decimal(b))
}

pub open spec fn spec_encode_uint_decimal(b: Seq<u8>, v: TrustmarkVersion) -> Result<
    Seq<u8>,
    CodecFault,
> {
    if !is_canonical_decimal(b) {
        Err(
            CodecFault::InvalidId(
                "uint_decimal id must be a non-negative decimal integer without leading zeroes"@,
            ),
        )
    } else if decimal_value(b) > v.spec_uint_decimal_max() {
        Err(CodecFault::IdTooLong(msg_uint_capacity(v)))
    } else {
        Ok(
            header_bits(IdCodec::UintDecimal) + be_bits(
                decimal_value(b),
                (v.spec_data_bits() - 2) as nat,
            ),
        )
    }
}

/// Four bits per decimal digit, in order.
pub open spec fn digit_bits(b: Seq<u8>) -> Seq<u8>
    decreases b.len(),
{
    if b.len() == 0 {
        Seq::empty()
    } else {
        digit_bits(b.drop_last()) + be_bits((b.last() - 48) as nat, 4)
    }
}

pub open spec fn spec_encode_decimal_bcd(b: Seq<u8>, v: TrustmarkVersion) -> Result<
    Seq<u8>,
    CodecFault,
> {
    if !is_decimal(b) {
        Err(CodecFault::InvalidId("decimal_bcd id must contain only decimal digits"@))
    } else if b.len() > v.spec_decimal_bcd_max_digits() {
        Err(
            CodecFault::IdTooLong(
                msg_bcd_too_long(b.len(), v.spec_decimal_bcd_max_digits(), v),
            ),
        )
    } else {
        Ok(
            pad_bits(
                header_bits(IdCodec::DecimalBcd) + be_bits(b.len(), 5) + digit_bits(b),
                v.spec_data_bits(),
            ),
        )
    }
}

pub open spec fn is_base36_byte(c: u8) -> bool {
    (48 <= c <= 57) || (65 <= c <= 90)
}

pub open spec fn is_base36(b: Seq<u8>) -> bool {
    forall|i: int| 0 <= i < b.len() ==> is_base36_byte(#[trigger] b[i])
}

/// The value of a character of `0-9A-Z`.
pub open spec fn base36_digit(c: u8) -> nat {
    if c <= 57 {
        (c - 48) as nat
    } else {
        (c - 55) as nat
    }
}

pub open spec fn base36_digits(b: Seq<u8>) -> Seq<nat> {
    b.map_values(|c: u8| base36_digit(c))
}

pub open spec fn base36_value(b: Seq<u8>) -> nat {
    digits_value(base36_digits(b), 36)
}

pub open spec fn spec_encode_base36(b: Seq<u8>, v: TrustmarkVersion) -> Result<Seq<u8>, CodecFault> {
    if !is_base36(b) {
        Err(CodecFault::InvalidId("base36 id must contain only 0-9A-Z"@))
    } else if b.len() > v.spec_base36_max_chars() {
        Err(
            CodecFault::IdTooLong(msg_base36_too_long(b.len(), v.spec_base36_max_chars(), v)),
        )
    } else if base36_value(b) >= pow_nat(2, v.spec_base36_value_bits()) {
        Err(CodecFault::IdTooLong(msg_base36_value(v.spec_base36_value_bits(), v)))
    } else {
        Ok(
            header_bits(IdCodec::Base36) + be_bits(b.len(), 5) + be_bits(
                base36_value(b),
                v.spec_base36_value_bits(),
            ),
        )
    }
}

/// The payload bits a codec makes of id bytes `b` (the common checks aside).
pub open spec fn spec_encode_bits(b: Seq<u8>, v: TrustmarkVersion, codec: IdCodec) -> Result<
    Seq<u8>,
    CodecFault,
> {
    match codec {
        IdCodec::Utf8Raw => spec_encode_utf8_raw(b, v),
        IdCodec::UintDecimal => spec_encode_uint_decimal(b, v),
        IdCodec::DecimalBcd => spec_encode_decimal_bcd(b, v),
        IdCodec::Base36 => spec_encode_base36(b, v),
    }
}

/// What encoding id bytes `b` with a given codec yields.
pub open spec fn spec_encode_id_with_codec(
    b: Seq<u8>,
    v: TrustmarkVersion,
    codec: IdCodec,
    o: IdEncodeOptions,
) -> Result<Seq<u8>, CodecFault> {
    match spec_validate_common_id(b, o) {
        Some(f) => Err(f),
        None => spec_encode_bits(b, v, codec),
    }
}

/// What automatic encoding yields: the first codec, in the order `uint_decimal`,
/// `decimal_bcd`, `base36`, `utf8_raw`, that accepts the id.
pub open spec fn spec_encode_id_auto(b: Seq<u8>, v: TrustmarkVersion, o: IdEncodeOptions) -> Result<
    (IdCodec, Seq<u8>),
    CodecFault,
> {
    match spec_validate_common_id(b, o) {
        Some(f) => Err(f),
        None => {
            if let Ok(bits) = spec_encode_bits(b, v, IdCodec::UintDecimal) {
                Ok((IdCodec::UintDecimal, bits))
            } else if let Ok(bits) = spec_encode_bits(b, v, IdCodec::DecimalBcd) {
                Ok((IdCodec::DecimalBcd, bits))
            } else if let Ok(bits) = spec_encode_bits(b, v, IdCodec::Base36) {
                Ok((IdCodec::Base36, bits))
            } else if let Ok(bits) = spec_encode_bits(b, v, IdCodec::Utf8Raw) {
                Ok((IdCodec::Utf8Raw, bits))
            } else {
                Err(CodecFault::IdTooLong(spec_capacity_message(v)))
            }
        },
    }
}

pub open spec fn bits_outcome(r: Result<Vec<u8>, PdfwmCodecError>) -> Result<Seq<u8>, CodecFault> {
    match r {
        Ok(b) => Ok(b@),
        Err(e) => Err(e@),
    }
}

fn validate_common_id(id: &[u8], options: IdEncodeOptions) -> (r: Result<(), PdfwmCodecError>)
    ensures
        r is Ok <==> spec_validate_common_id(id@, options) is None,
        r matches Err(e) ==> spec_validate_common_id(id@, options) == Some(e@),
{
    if id.len() == 0 {
        return Err(PdfwmCodecError::InvalidId(owned("id must not be empty")));
    }
    if id.len() > options.max_id_bytes {
        return Err(
            PdfwmCodecError::InvalidId(id_length_message(id.len(), options.max_id_bytes)),
        );
    }
    if !options.allow_control_chars {
        let mut i: usize = 0;
        while i < id.len()
            invariant
                i <= id@.len(),
                0 < id@.len() <= options.max_id_bytes,
                !options.allow_control_chars,
                forall|j: int| 0 <= j < i ==> !is_control(#[trigger] id@[j]),
            decreases id@.len() - i,
        {
            if id[i] <= 31 || id[i] == 127 {
                assert(is_control(id@[i as int]));
                return Err(
                    PdfwmCodecError::InvalidId(
                        owned("id must not contain ASCII control characters"),
                    ),
                );
            }
            i = i + 1;
        }
    }
    Ok(())
}

fn encode_utf8_raw(id: &[u8], version: TrustmarkVersion) -> (r: Result<Vec<u8>, PdfwmCodecError>)
    ensures
        bits_outcome(r) == spec_encode_utf8_raw(id@, version),
{
    let mut i: usize = 0;
    while i < id.len()
        invariant
            i <= id@.len(),
            forall|j: int| 0 <= j < i ==> #[trigger] id@[j] != 0,
        decreases id@.len() - i,
    {
        if id[i] == 0 {
            assert(id@[i as int] == 0);
            return Err(PdfwmCodecError::InvalidId(owned("utf8_raw id must not contain NUL byte")));
        }
        i = i + 1;
    }
    let max_bytes = version.utf8_raw_max_bytes();
    if id.len() > max_bytes {
        return Err(
            PdfwmCodecError::IdTooLong(utf8_too_long_message(id.len(), max_bytes, version)),
        );
    }
    let mut bits: Vec<u8> = Vec::new();
    bits.push(48u8);
    bits.push(48u8);
    let mut k: usize = 0;
    proof {
        assert(id@.take(0) =~= Seq::<u8>::empty());
        assert(bits@ =~= header_bits(IdCodec::Utf8Raw) + bytes_bits(id@.take(0)));
    }
    while k < id.len()
        invariant
            k <= id@.len(),
            bits@ == header_bits(IdCodec::Utf8Raw) + bytes_bits(id@.take(k as int)),
        decreases id@.len() - k,
    {
        let ghost before = bits@;
        push_bits(&mut bits, id[k] as u128, 8);
        proof {
            assert(id@.take(k + 1).drop_last() =~= id@.take(k as int));
            assert(id@.take(k + 1).last() == id@[k as int]);
            assert(bits@ =~= header_bits(IdCodec::Utf8Raw) + bytes_bits(id@.take(k + 1)));
        }
        k = k + 1;
    }
    proof {
        assert(id@.take(id@.len() as int) =~= id@);
    }
    pad_to(&mut bits, version.data_bits());
    Ok(bits)
}

} // verus!

verus! {

fn is_decimal_without_leading_zero(id: &[u8]) -> (r: bool)
    ensures
        r == is_canonical_decimal(id@),
{
    if id.len() == 1 && id[0] == 48 {
        assert(id@ =~= seq![48u8]);
        return true;
    }
    if id.len() == 0 || id[0] < 49 || id[0] > 57 {
        assert(id@ != seq![48u8]);
        return false;
    }
    assert(id@ != seq![48u8]);
    all_decimal(id)
}

fn all_decimal(id: &[u8]) -> (r: bool)
    ensures
        r == is_decimal(id@),
{
    let mut i: usize = 0;
    while i < id.len()
        invariant
            i <= id@.len(),
            forall|j: int| 0 <= j < i ==> 48 <= #[trigger] id@[j] <= 57,
        decreases id@.len() - i,
    {
        if id[i] < 48 || id[i] > 57 {
            assert(!(48 <= id@[i as int] <= 57));
            return false;
        }
        i = i + 1;
    }
    true
}

fn encode_uint_decimal(id: &[u8], version: TrustmarkVersion) -> (r: Result<
    Vec<u8>,
    PdfwmCodecError,
>)
    ensures
        bits_outcome(r) == spec_encode_uint_decimal(id@, version),
{
    if !is_decimal_without_leading_zero(id) {
        return Err(
            PdfwmCodecError::InvalidId(
                owned(
                    "uint_decimal id must be a non-negative decimal integer without leading zeroes",
                ),
            ),
        );
    }
    proof {
        if id@ == seq![48u8] {
            assert(is_decimal(id@));
        }
        lemma_pow_monotone(2, (version.spec_data_bits() - 2) as nat, 128);
        lemma_pow_values();
    }
    let max = version.uint_decimal_max();
    let value = match parse_decimal_u128(id) {
        Some(value) => value,
        None => {
            return Err(PdfwmCodecError::IdTooLong(uint_capacity_message(version)));
        },
    };
    if value > max {
        return Err(PdfwmCodecError::IdTooLong(uint_capacity_message(version)));
    }
    let mut bits: Vec<u8> = Vec::new();
    bits.push(48u8);
    bits.push(49u8);
    proof {
        assert(bits@ =~= header_bits(IdCodec::UintDecimal));
    }
    push_bits(&mut bits, value, version.data_bits() - CODEC_HEADER_BITS);
    Ok(bits)
}

fn encode_decimal_bcd(id: &[u8], version: TrustmarkVersion) -> (r: Result<
    Vec<u8>,
    PdfwmCodecError,
>)
    ensures
        bits_outcome(r) == spec_encode_decimal_bcd(id@, version),
{
    if !all_decimal(id) {
        return Err(
            PdfwmCodecError::InvalidId(owned("decimal_bcd id must contain only decimal digits")),
        );
    }
    let max_digits = version.decimal_bcd_max_digits();
    if id.len() > max_digits {
        return Err(
            PdfwmCodecError::IdTooLong(bcd_too_long_message(id.len(), max_digits, version)),
        );
    }
    let mut bits: Vec<u8> = Vec::new();
    bits.push(49u8);
    bits.push(48u8);
    proof {
        assert(bits@ =~= header_bits(IdCodec::DecimalBcd));
    }
    push_bits(&mut bits, id.len() as u128, LENGTH_BITS);
    let ghost prefix = bits@;
    let mut k: usize = 0;
    proof {
        assert(id@.take(0) =~= Seq::<u8>::empty());
        assert(bits@ =~= prefix + digit_bits(id@.take(0)));
    }
    while k < id.len()
        invariant
            k <= id@.len(),
            is_decimal(id@),
            bits@ == prefix + digit_bits(id@.take(k as int)),
        decreases id@.len() - k,
    {
        let digit = id[k] - 48;
        push_bits(&mut bits, digit as u128, 4);
        proof {
            assert(id@.take(k + 1).drop_last() =~= id@.take(k as int));
            assert(id@.take(k + 1).last() == id@[k as int]);
            assert(bits@ =~= prefix + digit_bits(id@.take(k + 1)));
        }
        k = k + 1;
    }
    proof {
        assert(id@.take(id@.len() as int) =~= id@);
    }
    pad_to(&mut bits, version.data_bits());
    Ok(bits)
}

fn all_base36(id: &[u8]) -> (r: bool)
    ensures
        r == is_base36(id@),
{
    let mut i: usize = 0;
    while i < id.len()
        invariant
            i <= id@.len(),
            forall|j: int| 0 <= j < i ==> is_base36_byte(#[trigger] id@[j]),
        decreases id@.len() - i,
    {
        let c = id[i];
        if !((48 <= c && c <= 57) || (65 <= c && c <= 90)) {
            assert(!is_base36_byte(id@[i as int]));
            return false;
        }
        i = i + 1;
    }
    true
}

/// The base-36 value of at most thirteen characters of `0-9A-Z`.
fn parse_base36(id: &[u8]) -> (value: u128)
    requires
        id@.len() <= 13,
        is_base36(id@),
    ensures
        value == base36_value(id@),
{
    let mut value: u128 = 0;
    let mut i: usize = 0;
    proof {
        lemma_pow_values();
        assert(base36_digits(id@.take(0)) =~= Seq::<nat>::empty());
    }
    while i < id.len()
        invariant
            i <= id@.len() <= 13,
            is_base36(id@),
            value == digits_value(base36_digits(id@.take(i as int)), 36),
            (value as nat) < pow_nat(36, i as nat),
            pow_nat(36, 13) == 170581728179578208256,
        decreases id@.len() - i,
    {
        let c = id[i];
        let digit: u8 = if c <= 57 {
            c - 48
        } else {
            c - 55
        };
        proof {
            assert(is_base36_byte(id@[i as int]));
            let prev = base36_digits(id@.take(i as int));
            assert(base36_digits(id@.take(i + 1)) =~= prev.push(digit as nat));
            assert(prev.push(digit as nat).drop_last() =~= prev);
            lemma_pow_monotone(36, (i + 1) as nat, 13);
            let p = pow_nat(36, i as nat);
            assert(pow_nat(36, (i + 1) as nat) == 36 * p);
            assert((value as nat) * 36 + (digit as nat) < 36 * p) by (nonlinear_arith)
                requires
                    (value as nat) < p,
                    digit < 36,
            ;
        }
        value = value * 36 + digit as u128;
        i = i + 1;
    }
    proof {
        assert(id@.take(id@.len() as int) =~= id@);
    }
    value
}

fn encode_base36(id: &[u8], version: TrustmarkVersion) -> (r: Result<Vec<u8>, PdfwmCodecError>)
    ensures
        bits_outcome(r) == spec_encode_base36(id@, version),
{
    if !all_base36(id) {
        return Err(PdfwmCodecError::InvalidId(owned("base36 id must contain only 0-9A-Z")));
    }
    let max_chars = version.base36_max_chars();
    if id.len() > max_chars {
        return Err(
            PdfwmCodecError::IdTooLong(base36_too_long_message(id.len(), max_chars, version)),
        );
    }
    let value_bits = version.data_bits() - CODEC_HEADER_BITS - LENGTH_BITS;
    let value = parse_base36(id);
    let limit = pow2_u128(value_bits);
    if value >= limit {
        return Err(PdfwmCodecError::IdTooLong(base36_value_message(value_bits, version)));
    }
    let mut bits: Vec<u8> = Vec::new();
    bits.push(49u8);
    bits.push(49u8);
    proof {
        assert(bits@ =~= header_bits(IdCodec::Base36));
    }
    push_bits(&mut bits, id.len() as u128, LENGTH_BITS);
    push_bits(&mut bits, value, value_bits);
    Ok(bits)
}

} // verus!

verus! {

pub proof fn lemma_digit_bits(b: Seq<u8>)
    ensures
        digit_bits(b).len() == 4 * b.len(),
        is_binary(digit_bits(b)),
    decreases b.len(),
{
    if b.len() > 0 {
        lemma_digit_bits(b.drop_last());
        lemma_be_bits((b.last() - 48) as nat, 4);
        lemma_binary_concat(digit_bits(b.drop_last()), be_bits((b.last() - 48) as nat, 4));
    }
}

pub proof fn lemma_header_bits(codec: IdCodec)
    ensures
        header_bits(codec).len() == 2,
        is_binary(header_bits(codec)),
{
}

/// Every payload a codec produces is a bit string of the version's data-bit length.
pub proof fn lemma_encode_bits_shape(b: Seq<u8>, v: TrustmarkVersion, codec: IdCodec)
    ensures
        spec_encode_bits(b, v, codec) matches Ok(bits) ==> bits.len() == v.spec_data_bits()
            && is_binary(bits),
{
    lemma_header_bits(codec);
    let h = header_bits(codec);
    let db = v.spec_data_bits();
    match codec {
        IdCodec::Utf8Raw => {
            if let Ok(bits) = spec_encode_bits(b, v, codec) {
                lemma_bytes_bits(b);
                lemma_binary_concat(h, bytes_bits(b));
                lemma_pad_bits(h + bytes_bits(b), db);
            }
        },
        IdCodec::UintDecimal => {
            if let Ok(bits) = spec_encode_bits(b, v, codec) {
                lemma_be_bits(decimal_value(b), (db - 2) as nat);
                lemma_binary_concat(h, be_bits(decimal_value(b), (db - 2) as nat));
            }
        },
        IdCodec::DecimalBcd => {
            if let Ok(bits) = spec_encode_bits(b, v, codec) {
                lemma_be_bits(b.len(), 5);
                lemma_digit_bits(b);
                lemma_binary_concat(h, be_bits(b.len(), 5));
                lemma_binary_concat(h + be_bits(b.len(), 5), digit_bits(b));
                lemma_pad_bits(h + be_bits(b.len(), 5) + digit_bits(b), db);
            }
        },
        IdCodec::Base36 => {
            if let Ok(bits) = spec_encode_bits(b, v, codec) {
                let vb = v.spec_base36_value_bits();
                lemma_be_bits(b.len(), 5);
                lemma_be_bits(base36_value(b), vb);
                lemma_binary_concat(h, be_bits(b.len(), 5));
                lemma_binary_concat(h + be_bits(b.len(), 5), be_bits(base36_value(b), vb));
            }
        },
    }
}

pub proof fn lemma_binary_ascii(b: Seq<u8>)
    requires
        is_binary(b),
    ensures
        all_ascii(b),
{
    assert forall|i: int| 0 <= i < b.len() implies #[trigger] b[i] < 128 by {
        assert(b[i] == 48u8 || b[i] == 49u8);
    }
}

/// Encodes `id` with the given codec.
pub fn encode_id_with_codec(
    id: &str,
    version: TrustmarkVersion,
    codec: IdCodec,
    options: IdEncodeOptions,
) -> (r: Result<EncodedId, PdfwmCodecError>)
    ensures
        r is Ok <==> spec_encode_id_with_codec(encode_utf8(id@), version, codec, options) is Ok,
        r matches Ok(e) ==> {
            &&& spec_encode_id_with_codec(encode_utf8(id@), version, codec, options) matches Ok(
                bits,
            ) && e.bits@ == ascii_chars(bits)
            &&& e.bits@.len() == version.spec_data_bits()
            &&& e.id@ == id@
            &&& e.codec == codec
            &&& e.version == version
        },
        r matches Err(err) ==> spec_encode_id_with_codec(encode_utf8(id@), version, codec, options)
            == Err::<Seq<u8>, CodecFault>(err@),
{
    let b = id.as_bytes();
    match validate_common_id(b, options) {
        Ok(()) => {},
        Err(e) => {
            return Err(e);
        },
    }
    let encoded = match codec {
        IdCodec::Utf8Raw => encode_utf8_raw(b, version),
        IdCodec::UintDecimal => encode_uint_decimal(b, version),
        IdCodec::DecimalBcd => encode_decimal_bcd(b, version),
        IdCodec::Base36 => encode_base36(b, version),
    };
    let bits = match encoded {
        Ok(bits) => bits,
        Err(e) => {
            return Err(e);
        },
    };
    proof {
        lemma_encode_bits_shape(b@, version, codec);
        lemma_binary_ascii(bits@);
    }
    let text = ascii_string(bits);
    Ok(EncodedId { id: owned(id), codec, version, bits: text })
}

/// Encodes `id` with the first codec that accepts it, trying `uint_decimal`,
/// `decimal_bcd`, `base36`, then `utf8_raw`.
pub fn encode_id_auto(id: &str, version: TrustmarkVersion, options: IdEncodeOptions) -> (r: Result<
    EncodedId,
    PdfwmCodecError,
>)
    ensures
        r is Ok <==> spec_encode_id_auto(encode_utf8(id@), version, options) is Ok,
        r matches Ok(e) ==> {
            &&& spec_encode_id_auto(encode_utf8(id@), version, options) matches Ok((c, bits))
                && e.codec == c && e.bits@ == ascii_chars(bits)
            &&& e.bits@.len() == version.spec_data_bits()
            &&& e.id@ == id@
            &&& e.version == version
        },
        r matches Err(err) ==> spec_encode_id_auto(encode_utf8(id@), version, options) == Err::<
            (IdCodec, Seq<u8>),
            CodecFault,
        >(err@),
{
    let b = id.as_bytes();
    match validate_common_id(b, options) {
        Ok(()) => {},
        Err(e) => {
            return Err(e);
        },
    }
    if let Ok(e) = encode_id_with_codec(id, version, IdCodec::UintDecimal, options) {
        return Ok(e);
    }
    if let Ok(e) = encode_id_with_codec(id, version, IdCodec::DecimalBcd, options) {
        return Ok(e);
    }
    if let Ok(e) = encode_id_with_codec(id, version, IdCodec::Base36, options) {
        return Ok(e);
    }
    if let Ok(e) = encode_id_with_codec(id, version, IdCodec::Utf8Raw, options) {
        return Ok(e);
    }
    Err(PdfwmCodecError::IdTooLong(capacity_message(version)))
}

} // verus!

verus! {

/// The codec that the two header bits name.
pub open spec fn codec_of_header(b0: u8, b1: u8) -> IdCodec {
    if b0 == 48u8 {
        if b1 == 48u8 {
            IdCodec::Utf8Raw
        } else {
            IdCodec::UintDecimal
        }
    } else {
        if b1 == 48u8 {
            IdCodec::DecimalBcd
        } else {
            IdCodec::Base36
        }
    }
}

/// The bytes read from whole eight-bit groups of `p`; a shorter tail is ignored.
pub open spec fn chunk_bytes(p: Seq<u8>) -> Seq<u8> {
    Seq::new(p.len() / 8, |i: int| bits_value(p.subrange(8 * i, 8 * i + 8)) as u8)
}

/// `s` without its trailing zero bytes.
pub open spec fn trim_trailing_zeros(s: Seq<u8>) -> Seq<u8>
    decreases s.len(),
{
    if s.len() > 0 && s.last() == 0 {
        trim_trailing_zeros(s.drop_last())
    } else {
        s
    }
}

pub open spec fn spec_decode_utf8_raw(b: Seq<u8>) -> Result<Seq<char>, CodecFault> {
    let bytes = trim_trailing_zeros(chunk_bytes(b.subrange(2, b.len() as int)));
    if bytes.len() == 0 {
        Err(CodecFault::InvalidPayload("decoded utf8_raw id is empty"@))
    } else if valid_utf8(bytes) {
        Ok(decode_utf8(bytes))
    } else {
        Err(CodecFault::InvalidPayload("invalid UTF-8 payload: "@ + utf8_error_text(bytes)))
    }
}

pub open spec fn spec_decode_uint_decimal(b: Seq<u8>) -> Result<Seq<char>, CodecFault> {
    Ok(ascii_chars(radix_text_lower(bits_value(b.subrange(2, b.len() as int)), 10)))
}

/// Reads `remaining` four-bit BCD digits starting at bit `cursor`, after those in `acc`.
pub open spec fn bcd_digits_from(b: Seq<u8>, cursor: nat, remaining: nat, acc: Seq<u8>) -> Result<
    Seq<char>,
    CodecFault,
>
    decreases remaining,
{
    if remaining == 0 {
        Ok(ascii_chars(acc))
    } else if cursor + 4 > b.len() {
        Err(
            CodecFault::InvalidPayload(
                "decimal_bcd payload ended before all digits were decoded"@,
            ),
        )
    } else {
        let d = bits_value(b.subrange(cursor as int, (cursor + 4) as int));
        if d > 9 {
            Err(CodecFault::InvalidPayload(msg_bcd_digit(d)))
        } else {
            bcd_digits_from(b, cursor + 4, (remaining - 1) as nat, acc.push((48 + d) as u8))
        }
    }
}

pub open spec fn spec_decode_decimal_bcd(b: Seq<u8>) -> Result<Seq<char>, CodecFault> {
    if b.len() < 7 {
        Err(CodecFault::InvalidPayload("decimal_bcd payload is too short"@))
    } else if bits_value(b.subrange(2, 7)) == 0 {
        Err(CodecFault::InvalidPayload("decoded decimal_bcd id is empty"@))
    } else {
        bcd_digits_from(b, 7, bits_value(b.subrange(2, 7)), Seq::empty())
    }
}

/// The canonical radix-`r` text of `n` with uppercase letters.
pub open spec fn radix_text_upper(n: nat, r: nat) -> Seq<u8> {
    radix_digits(n, r).map_values(|d: nat| upper_digit_byte(d))
}

/// `n` ASCII zeros.
pub open spec fn zero_text(n: nat) -> Seq<u8> {
    Seq::new(n, |i: int| 48u8)
}

pub open spec fn spec_decode_base36(b: Seq<u8>) -> Result<Seq<char>, CodecFault> {
    if b.len() < 7 {
        Err(CodecFault::InvalidPayload("base36 payload is too short"@))
    } else if bits_value(b.subrange(2, 7)) == 0 {
        Err(CodecFault::InvalidPayload("decoded base36 id is empty"@))
    } else {
        let len = bits_value(b.subrange(2, 7));
        let text = radix_text_upper(bits_value(b.subrange(7, b.len() as int)), 36);
        if text.len() > len {
            Err(CodecFault::InvalidPayload("decoded base36 length mismatch"@))
        } else {
            Ok(ascii_chars(zero_text((len - text.len()) as nat) + text))
        }
    }
}

/// What decoding payload bytes `b` yields: the id's characters and the codec.
pub open spec fn spec_decode_id(b: Seq<u8>) -> Result<(Seq<char>, IdCodec), CodecFault> {
    if b.len() < 2 {
        Err(CodecFault::InvalidPayload("payload must contain at least a 2-bit codec header"@))
    } else if !is_binary(b) {
        Err(CodecFault::InvalidPayload("payload must contain only 0 and 1"@))
    } else {
        let codec = codec_of_header(b[0], b[1]);
        let decoded = match codec {
            IdCodec::Utf8Raw => spec_decode_utf8_raw(b),
            IdCodec::UintDecimal => spec_decode_uint_decimal(b),
            IdCodec::DecimalBcd => spec_decode_decimal_bcd(b),
            IdCodec::Base36 => spec_decode_base36(b),
        };
        match decoded {
            Ok(id) => Ok((id, codec)),
            Err(f) => Err(f),
        }
    }
}

pub open spec fn text_outcome(r: Result<String, PdfwmCodecError>) -> Result<Seq<char>, CodecFault> {
    match r {
        Ok(s) => Ok(s@),
        Err(e) => Err(e@),
    }
}

fn bcd_digit_message(d: u8) -> (m: String)
    ensures
        m@ == msg_bcd_digit(d as nat),
{
    join_dec(owned("invalid BCD digit: "), d as u128)
}

proof fn lemma_radix_text_ascii(n: nat, r: nat)
    requires
        2 <= r <= 36,
    ensures
        all_ascii(radix_text_lower(n, r)),
        all_ascii(radix_text_upper(n, r)),
        radix_text_lower(n, r).len() == radix_digits(n, r).len(),
        radix_text_upper(n, r).len() == radix_digits(n, r).len(),
        forall|i: int|
            0 <= i < radix_text_lower(n, r).len() ==> #[trigger] radix_text_upper(n, r)[i] == (
            if radix_text_lower(n, r)[i] >= 97 {
                (radix_text_lower(n, r)[i] - 32) as u8
            } else {
                radix_text_lower(n, r)[i]
            }),
{
    lemma_radix_digits_below(n, r);
    let ds = radix_digits(n, r);
    assert forall|i: int| 0 <= i < radix_text_lower(n, r).len() implies #[trigger] radix_text_lower(
        n,
        r,
    )[i] < 128 by {
        assert(ds[i] < r);
    }
    assert forall|i: int| 0 <= i < radix_text_upper(n, r).len() implies #[trigger] radix_text_upper(
        n,
        r,
    )[i] < 128 by {
        assert(ds[i] < r);
    }
    assert forall|i: int| 0 <= i < radix_text_lower(n, r).len() implies #[trigger] radix_text_upper(
        n,
        r,
    )[i] == (if radix_text_lower(n, r)[i] >= 97 {
        (radix_text_lower(n, r)[i] - 32) as u8
    } else {
        radix_text_lower(n, r)[i]
    }) by {
        assert(ds[i] < r);
    }
}

fn decode_uint_decimal(bits: &[u8]) -> (r: Result<String, PdfwmCodecError>)
    requires
        bits@.len() >= 2,
        is_binary(bits@),
    ensures
        text_outcome(r) == spec_decode_uint_decimal(bits@),
{
    let (_, payload) = bits.split_at(CODEC_HEADER_BITS);
    proof {
        lemma_radix_text_ascii(bits_value(payload@), 10);
        assert forall|i: int| 0 <= i < payload@.len() implies (#[trigger] payload@[i] == 48u8
            || payload@[i] == 49u8) by {
            assert(payload@[i] == bits@[i + 2]);
        }
    }
    let text = if payload.len() == 0 {
        let mut t: Vec<u8> = Vec::new();
        t.push(48u8);
        proof {
            assert(bits_value(payload@) == 0);
            assert(radix_digits(0, 10) == seq![0nat]);
            assert(t@ =~= radix_text_lower(bits_value(payload@), 10));
        }
        t
    } else {
        binary_to_radix_text(payload, 10)
    };
    Ok(ascii_string(text))
}

fn decode_decimal_bcd(bits: &[u8]) -> (r: Result<String, PdfwmCodecError>)
    requires
        is_binary(bits@),
    ensures
        text_outcome(r) == spec_decode_decimal_bcd(bits@),
{
    if bits.len() < CODEC_HEADER_BITS + LENGTH_BITS {
        return Err(PdfwmCodecError::InvalidPayload(owned("decimal_bcd payload is too short")));
    }
    let len = read_field(bits, CODEC_HEADER_BITS, CODEC_HEADER_BITS + LENGTH_BITS) as usize;
    if len == 0 {
        return Err(PdfwmCodecError::InvalidPayload(owned("decoded decimal_bcd id is empty")));
    }
    let mut cursor: usize = CODEC_HEADER_BITS + LENGTH_BITS;
    let mut out: Vec<u8> = Vec::new();
    let mut i: usize = 0;
    while i < len
        invariant
            is_binary(bits@),
            i <= len < 256,
            cursor == 7 + 4 * i,
            all_ascii(out@),
            spec_decode_decimal_bcd(bits@) == bcd_digits_from(
                bits@,
                cursor as nat,
                (len - i) as nat,
                out@,
            ),
        decreases len - i,
    {
        if cursor + 4 > bits.len() {
            return Err(
                PdfwmCodecError::InvalidPayload(
                    owned("decimal_bcd payload ended before all digits were decoded"),
                ),
            );
        }
        let digit = read_field(bits, cursor, cursor + 4);
        if digit > 9 {
            return Err(PdfwmCodecError::InvalidPayload(bcd_digit_message(digit)));
        }
        out.push(48 + digit);
        proof {
            assert forall|j: int| 0 <= j < out@.len() implies #[trigger] out@[j] < 128 by {
                if j < out@.len() - 1 {
                    assert(out@[j] == out@.drop_last()[j]);
                }
            }
        }
        cursor = cursor + 4;
        i = i + 1;
    }
    Ok(ascii_string(out))
}

fn decode_base36(bits: &[u8]) -> (r: Result<String, PdfwmCodecError>)
    requires
        is_binary(bits@),
    ensures
        text_outcome(r) == spec_decode_base36(bits@),
{
    if bits.len() < CODEC_HEADER_BITS + LENGTH_BITS {
        return Err(PdfwmCodecError::InvalidPayload(owned("base36 payload is too short")));
    }
    let len = read_field(bits, CODEC_HEADER_BITS, CODEC_HEADER_BITS + LENGTH_BITS) as usize;
    if len == 0 {
        return Err(PdfwmCodecError::InvalidPayload(owned("decoded base36 id is empty")));
    }
    let (_, payload) = bits.split_at(CODEC_HEADER_BITS + LENGTH_BITS);
    let ghost value = bits_value(payload@);
    proof {
        assert(payload@ =~= bits@.subrange(7, bits@.len() as int));
        lemma_radix_text_ascii(value, 36);
        assert forall|i: int| 0 <= i < payload@.len() implies (#[trigger] payload@[i] == 48u8
            || payload@[i] == 49u8) by {
            assert(payload@[i] == bits@[i + 7]);
        }
    }
    let lower = if payload.len() == 0 {
        let mut t: Vec<u8> = Vec::new();
        t.push(48u8);
        proof {
            assert(value == 0);
            assert(radix_digits(0, 36) == seq![0nat]);
            assert(t@ =~= radix_text_lower(value, 36));
        }
        t
    } else {
        binary_to_radix_text(payload, 36)
    };
    let mut upper: Vec<u8> = Vec::new();
    let mut k: usize = 0;
    while k < lower.len()
        invariant
            k <= lower@.len(),
            lower@ == radix_text_lower(value, 36),
            lower@.len() == radix_text_upper(value, 36).len(),
            forall|i: int|
                0 <= i < lower@.len() ==> #[trigger] radix_text_upper(value, 36)[i] == (if lower@[i]
                    >= 97 {
                    (lower@[i] - 32) as u8
                } else {
                    lower@[i]
                }),
            upper@ == radix_text_upper(value, 36).take(k as int),
        decreases lower@.len() - k,
    {
        let c = lower[k];
        let u = if c >= 97 {
            c - 32
        } else {
            c
        };
        upper.push(u);
        proof {
            assert(upper@ =~= radix_text_upper(value, 36).take(k + 1));
        }
        k = k + 1;
    }
    proof {
        assert(upper@ =~= radix_text_upper(value, 36));
    }
    if upper.len() > len {
        return Err(PdfwmCodecError::InvalidPayload(owned("decoded base36 length mismatch")));
    }
    let mut out: Vec<u8> = Vec::new();
    let pad = len - upper.len();
    let mut z: usize = 0;
    while z < pad
        invariant
            z <= pad,
            out@ == zero_text(z as nat),
        decreases pad - z,
    {
        out.push(48u8);
        proof {
            assert(out@ =~= zero_text((z + 1) as nat));
        }
        z = z + 1;
    }
    let mut k: usize = 0;
    while k < upper.len()
        invariant
            k <= upper@.len(),
            out@ == zero_text(pad as nat) + upper@.take(k as int),
        decreases upper@.len() - k,
    {
        out.push(upper[k]);
        proof {
            assert(out@ =~= zero_text(pad as nat) + upper@.take(k + 1));
        }
        k = k + 1;
    }
    proof {
        assert(upper@.take(upper@.len() as int) =~= upper@);
        assert forall|j: int| 0 <= j < out@.len() implies #[trigger] out@[j] < 128 by {
            if j >= pad {
                assert(out@[j] == upper@[j - pad]);
            }
        }
    }
    Ok(ascii_string(out))
}

} // verus!

verus! {

fn decode_utf8_raw(bits: &[u8]) -> (r: Result<String, PdfwmCodecError>)
    requires
        bits@.len() >= 2,
        is_binary(bits@),
    ensures
        text_outcome(r) == spec_decode_utf8_raw(bits@),
{
    let ghost payload = bits@.subrange(2, bits@.len() as int);
    let chunks = (bits.len() - CODEC_HEADER_BITS) / 8;
    proof {
        let l = (bits@.len() - 2) as int;
        assert(8 * (l / 8) <= l) by (nonlinear_arith)
            requires
                l >= 0,
        ;
    }
    let mut bytes: Vec<u8> = Vec::new();
    let mut k: usize = 0;
    while k < chunks
        invariant
            is_binary(bits@),
            bits@.len() >= 2,
            payload == bits@.subrange(2, bits@.len() as int),
            chunks == payload.len() / 8,
            8 * chunks + 2 <= bits@.len() <= usize::MAX,
            k <= chunks,
            bytes@ == chunk_bytes(payload).take(k as int),
        decreases chunks - k,
    {
        assert(8 * k + 10 <= bits@.len());
        let start = CODEC_HEADER_BITS + 8 * k;
        let byte = read_field(bits, start, start + 8);
        proof {
            assert(payload.subrange(8 * k, 8 * k + 8) =~= bits@.subrange(
                start as int,
                start + 8,
            ));
        }
        bytes.push(byte);
        proof {
            assert(bytes@ =~= chunk_bytes(payload).take(k + 1));
        }
        k = k + 1;
    }
    proof {
        assert(bytes@ =~= chunk_bytes(payload));
    }
    let ghost all = bytes@;
    while bytes.len() > 0 && bytes[bytes.len() - 1] == 0
        invariant
            trim_trailing_zeros(bytes@) == trim_trailing_zeros(all),
        decreases bytes@.len(),
    {
        let ghost before = bytes@;
        bytes.pop();
        proof {
            assert(bytes@ =~= before.drop_last());
        }
    }
    proof {
        assert(trim_trailing_zeros(bytes@) == bytes@);
    }
    if bytes.len() == 0 {
        return Err(PdfwmCodecError::InvalidPayload(owned("decoded utf8_raw id is empty")));
    }
    match utf8_to_string(bytes) {
        Ok(s) => Ok(s),
        Err(text) => Err(
            PdfwmCodecError::InvalidPayload(join(owned("invalid UTF-8 payload: "), text.as_str())),
        ),
    }
}

fn all_binary(bits: &[u8]) -> (r: bool)
    ensures
        r == is_binary(bits@),
{
    let mut i: usize = 0;
    while i < bits.len()
        invariant
            i <= bits@.len(),
            forall|j: int| 0 <= j < i ==> (#[trigger] bits@[j] == 48u8 || bits@[j] == 49u8),
        decreases bits@.len() - i,
    {
        if bits[i] != 48 && bits[i] != 49 {
            assert(!(bits@[i as int] == 48u8 || bits@[i as int] == 49u8));
            return false;
        }
        i = i + 1;
    }
    true
}

/// Reads an id back from payload bits.
pub fn decode_id(bits: &str) -> (r: Result<DecodedId, PdfwmCodecError>)
    ensures
        r is Ok <==> spec_decode_id(encode_utf8(bits@)) is Ok,
        r matches Ok(d) ==> spec_decode_id(encode_utf8(bits@)) == Ok::<
            (Seq<char>, IdCodec),
            CodecFault,
        >((d.id@, d.codec)),
        r matches Err(e) ==> spec_decode_id(encode_utf8(bits@)) == Err::<
            (Seq<char>, IdCodec),
            CodecFault,
        >(e@),
{
    let b = bits.as_bytes();
    if b.len() < CODEC_HEADER_BITS {
        return Err(
            PdfwmCodecError::InvalidPayload(
                owned("payload must contain at least a 2-bit codec header"),
            ),
        );
    }
    if !all_binary(b) {
        return Err(PdfwmCodecError::InvalidPayload(owned("payload must contain only 0 and 1")));
    }
    let codec = if b[0] == 48 {
        if b[1] == 48 {
            IdCodec::Utf8Raw
        } else {
            IdCodec::UintDecimal
        }
    } else {
        if b[1] == 48 {
            IdCodec::DecimalBcd
        } else {
            IdCodec::Base36
        }
    };
    let decoded = match codec {
        IdCodec::Utf8Raw => decode_utf8_raw(b),
        IdCodec::UintDecimal => decode_uint_decimal(b),
        IdCodec::DecimalBcd => decode_decimal_bcd(b),
        IdCodec::Base36 => decode_base36(b),
    };
    match decoded {
        Ok(id) => Ok(DecodedId { id, codec }),
        Err(e) => Err(e),
    }
}

pub fn version_from_data_bits(bits: usize) -> (r: Result<TrustmarkVersion, PdfwmCodecError>)
    ensures
        r matches Ok(v) ==> spec_version_of_data_bits(bits as nat) == Some(v),
        r matches Ok(v) ==> v.spec_data_bits() == bits,
        r is Err <==> spec_version_of_data_bits(bits as nat) is None,
        r is Err ==> forall|v: TrustmarkVersion| #[trigger] v.spec_data_bits() != bits,
        r matches Err(e) ==> e@ == CodecFault::InvalidPayload(msg_data_bits(bits as nat)),
{
    match bits {
        40 => Ok(TrustmarkVersion::BchSuper),
        61 => Ok(TrustmarkVersion::Bch5),
        68 => Ok(TrustmarkVersion::Bch4),
        75 => Ok(TrustmarkVersion::Bch3),
        _ => Err(
            PdfwmCodecError::InvalidPayload(
                join_dec(owned("unsupported TrustMark data bit length: "), bits as u128),
            ),
        ),
    }
}

} // verus!

verus! {

/// The version a name stands for.
pub open spec fn spec_version_named(s: Seq<char>) -> Option<TrustmarkVersion> {
    if s == "BCH_SUPER"@ {
        Some(TrustmarkVersion::BchSuper)
    } else if s == "BCH_5"@ {
        Some(TrustmarkVersion::Bch5)
    } else if s == "BCH_4"@ {
        Some(TrustmarkVersion::Bch4)
    } else if s == "BCH_3"@ {
        Some(TrustmarkVersion::Bch3)
    } else {
        None
    }
}

/// The codec a name stands for.
pub open spec fn spec_codec_named(s: Seq<char>) -> Option<IdCodec> {
    if s == "utf8_raw"@ {
        Some(IdCodec::Utf8Raw)
    } else if s == "uint_decimal"@ {
        Some(IdCodec::UintDecimal)
    } else if s == "decimal_bcd"@ {
        Some(IdCodec::DecimalBcd)
    } else if s == "base36"@ {
        Some(IdCodec::Base36)
    } else {
        None
    }
}

/// The version whose data-bit count is `n`.
pub open spec fn spec_version_of_data_bits(n: nat) -> Option<TrustmarkVersion> {
    if n == 40 {
        Some(TrustmarkVersion::BchSuper)
    } else if n == 61 {
        Some(TrustmarkVersion::Bch5)
    } else if n == 68 {
        Some(TrustmarkVersion::Bch4)
    } else if n == 75 {
        Some(TrustmarkVersion::Bch3)
    } else {
        None
    }
}

impl TrustmarkVersion {
    /// The version with the given name.
    pub fn parse(value: &str) -> (r: Result<Self, PdfwmCodecError>)
        ensures
            r matches Ok(v) ==> spec_version_named(value@) == Some(v),
            r is Err <==> spec_version_named(value@) is None,
            r matches Err(e) ==> e@ == CodecFault::InvalidId(
                "unsupported TrustMark version: "@ + value@,
            ),
    {
        if str_equal(value, "BCH_SUPER") {
            Ok(TrustmarkVersion::BchSuper)
        } else if str_equal(value, "BCH_5") {
            Ok(TrustmarkVersion::Bch5)
        } else if str_equal(value, "BCH_4") {
            Ok(TrustmarkVersion::Bch4)
        } else if str_equal(value, "BCH_3") {
            Ok(TrustmarkVersion::Bch3)
        } else {
            Err(
                PdfwmCodecError::InvalidId(join(owned("unsupported TrustMark version: "), value)),
            )
        }
    }
}

impl IdCodec {
    pub open spec fn spec_name(self) -> Seq<char> {
        match self {
            IdCodec::Utf8Raw => "utf8_raw"@,
            IdCodec::UintDecimal => "uint_decimal"@,
            IdCodec::DecimalBcd => "decimal_bcd"@,
            IdCodec::Base36 => "base36"@,
        }
    }

    /// The codec's name, as shown to users.
    pub fn name(self) -> (s: &'static str)
        ensures
            s@ == self.spec_name(),
    {
        match self {
            IdCodec::Utf8Raw => "utf8_raw",
            IdCodec::UintDecimal => "uint_decimal",
            IdCodec::DecimalBcd => "decimal_bcd",
            IdCodec::Base36 => "base36",
        }
    }

    /// The codec with the given name.
    pub fn parse(value: &str) -> (r: Result<Self, PdfwmCodecError>)
        ensures
            r matches Ok(c) ==> spec_codec_named(value@) == Some(c),
            r is Err <==> spec_codec_named(value@) is None,
            r matches Err(e) ==> e@ == CodecFault::InvalidId("unsupported id_codec: "@ + value@),
    {
        if str_equal(value, "utf8_raw") {
            Ok(IdCodec::Utf8Raw)
        } else if str_equal(value, "uint_decimal") {
            Ok(IdCodec::UintDecimal)
        } else if str_equal(value, "decimal_bcd") {
            Ok(IdCodec::DecimalBcd)
        } else if str_equal(value, "base36") {
            Ok(IdCodec::Base36)
        } else {
            Err(PdfwmCodecError::InvalidId(join(owned("unsupported id_codec: "), value)))
        }
    }
}

impl core::str::FromStr for TrustmarkVersion {
    type Err = PdfwmCodecError;

    fn from_str(value: &str) -> (r: Result<Self, Self::Err>)
        ensures
            r matches Ok(v) ==> spec_version_named(value@) == Some(v),
            r is Err <==> spec_version_named(value@) is None,
            r matches Err(e) ==> e@ == CodecFault::InvalidId(
                "unsupported TrustMark version: "@ + value@,
            ),
    {
        TrustmarkVersion::parse(value)
    }
}

impl core::str::FromStr for IdCodec {
    type Err = PdfwmCodecError;

    fn from_str(value: &str) -> (r: Result<Self, Self::Err>)
        ensures
            r matches Ok(c) ==> spec_codec_named(value@) == Some(c),
            r is Err <==> spec_codec_named(value@) is None,
            r matches Err(e) ==> e@ == CodecFault::InvalidId("unsupported id_codec: "@ + value@),
    {
        IdCodec::parse(value)
    }
}

/// A version's name parses back to that version.
pub proof fn law_version_name_parses(v: TrustmarkVersion)
    ensures
        spec_version_named(v.spec_name()) == Some(v),
{
    reveal_strlit("BCH_SUPER");
    reveal_strlit("BCH_5");
    reveal_strlit("BCH_4");
    reveal_strlit("BCH_3");
    assert("BCH_SUPER"@.len() == 9);
    assert("BCH_5"@[4] == '5');
    assert("BCH_4"@[4] == '4');
    assert("BCH_3"@[4] == '3');
}

/// A codec's name parses back to that codec.
pub proof fn law_codec_name_parses(c: IdCodec)
    ensures
        spec_codec_named(c.spec_name()) == Some(c),
{
    reveal_strlit("utf8_raw");
    reveal_strlit("uint_decimal");
    reveal_strlit("decimal_bcd");
    reveal_strlit("base36");
    assert("utf8_raw"@.len() == 8);
    assert("uint_decimal"@.len() == 12);
    assert("decimal_bcd"@.len() == 11);
    assert("base36"@.len() == 6);
}

/// A version's data-bit count names that version.
pub proof fn law_data_bits_name_version(v: TrustmarkVersion)
    ensures
        spec_version_of_data_bits(v.spec_data_bits()) == Some(v),
{
}

} // verus!
