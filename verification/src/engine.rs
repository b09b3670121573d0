//! The decisions of the watermark engine: argument checks, codec choice, the tile grid,
//! the search windows, and how decoded ids are weighed.
use vstd::prelude::*;
use vstd::utf8::encode_utf8;
use crate::error::{codec_fault_as_fault, from_codec_error, Fault, PdfwmError};
use crate::codec_laws::law_decode_inverts_encode;
use crate::id_codec::{
    decode_id, CodecFault, encode_id_auto, encode_id_with_codec, spec_decode_id, spec_encode_id_auto,
    spec_encode_id_with_codec, spec_version_of_data_bits, version_from_data_bits, DecodedId,
    EncodedId, IdCodec, IdEncodeOptions, TrustmarkVersion,
};
use crate::options::IdCodecSelection;
use crate::text::{
    ascii_chars, dec_chars, join, join_dec, lemma_trimmed_empty, owned, trim, trimmed,
    unicode_white_space,
};

verus! {

/// Most tiles along one page axis.
pub const MAX_TILES_PER_AXIS: u32 = 16;

/// Most window start positions per axis and scale.
pub const MAX_POS_PER_AXIS: u32 = 7;

/// A path argument must hold something other than whitespace.
pub fn validate_path(path: &str, name: &str) -> (r: Result<(), PdfwmError>)
    ensures
        r is Ok <==> trimmed(path@).len() > 0,
        r is Err <==> forall|i: int| 0 <= i < path@.len() ==> unicode_white_space(#[trigger] path@[i]),
        r matches Err(e) ==> e@ == Fault::InvalidArgument(name@ + " must not be empty"@),
{
    proof {
        lemma_trimmed_empty(path@);
    }
    if trim(path).unicode_len() == 0 {
        return Err(PdfwmError::InvalidArgument(join(owned(name), " must not be empty")));
    }
    Ok(())
}

/// What encoding `id` under a codec selection yields: the bits and the codec used.
pub open spec fn spec_encode_selected(
    id: Seq<char>,
    selection: IdCodecSelection,
    version: TrustmarkVersion,
    options: IdEncodeOptions,
) -> Result<(crate::id_codec::IdCodec, Seq<u8>), Fault> {
    match selection {
        IdCodecSelection::Auto => match spec_encode_id_auto(encode_utf8(id), version, options) {
            Ok(pair) => Ok(pair),
            Err(f) => Err(codec_fault_as_fault(f)),
        },
        IdCodecSelection::Specific(c) => match spec_encode_id_with_codec(
            encode_utf8(id),
            version,
            c,
            options,
        ) {
            Ok(bits) => Ok((c, bits)),
            Err(f) => Err(codec_fault_as_fault(f)),
        },
    }
}

/// With a codec pinned, encoding succeeds exactly when that codec can carry the id, never
/// falls back to another codec, fails with that codec's own error, and the bits decode back
/// to the id under the pinned codec.
pub proof fn law_pinned_codec_is_kept(
    id: Seq<char>,
    c: IdCodec,
    version: TrustmarkVersion,
    options: IdEncodeOptions,
)
    ensures
        spec_encode_selected(id, IdCodecSelection::Specific(c), version, options) is Ok
            <==> spec_encode_id_with_codec(encode_utf8(id), version, c, options) is Ok,
        spec_encode_selected(id, IdCodecSelection::Specific(c), version, options) matches Ok(
            (c2, bits),
        ) ==> c2 == c && spec_decode_id(bits) == Ok::<(Seq<char>, IdCodec), CodecFault>(
            (id, c),
        ),
        spec_encode_id_with_codec(encode_utf8(id), version, c, options) matches Err(f)
            ==> spec_encode_selected(id, IdCodecSelection::Specific(c), version, options)
            == Err::<(IdCodec, Seq<u8>), Fault>(codec_fault_as_fault(f)),
{
    if spec_encode_id_with_codec(encode_utf8(id), version, c, options) is Ok {
        law_decode_inverts_encode(id, version, c, options);
    }
}

/// Encodes an id with the codec the options select.
pub fn encode_id(
    id: &str,
    selection: IdCodecSelection,
    version: TrustmarkVersion,
    options: IdEncodeOptions,
) -> (r: Result<EncodedId, PdfwmError>)
    ensures
        r is Ok <==> spec_encode_selected(id@, selection, version, options) is Ok,
        r matches Ok(e) ==> {
            &&& spec_encode_selected(id@, selection, version, options) matches Ok((c, bits))
                && e.codec == c && e.bits@ == ascii_chars(bits)
            &&& e.id@ == id@
            &&& e.version == version
            &&& e.bits@.len() == version.spec_data_bits()
        },
        r matches Err(e) ==> spec_encode_selected(id@, selection, version, options) == Err::<
            (crate::id_codec::IdCodec, Seq<u8>),
            Fault,
        >(e@),
        selection matches IdCodecSelection::Specific(c) ==> {
            &&& (r is Ok <==> spec_encode_id_with_codec(encode_utf8(id@), version, c, options) is Ok)
            &&& (r matches Ok(e) ==> e.codec == c)
            &&& (r matches Err(e) ==> spec_encode_id_with_codec(encode_utf8(id@), version, c, options)
                matches Err(f) && e@ == codec_fault_as_fault(f))
        },
{
    proof {
        if let IdCodecSelection::Specific(c) = selection {
            law_pinned_codec_is_kept(id@, c, version, options);
        }
    }
    let encoded = match selection {
        IdCodecSelection::Auto => encode_id_auto(id, version, options),
        IdCodecSelection::Specific(codec) => encode_id_with_codec(id, version, codec, options),
    };
    match encoded {
        Ok(e) => Ok(e),
        Err(e) => Err(from_codec_error(e)),
    }
}

/// Tiles along an axis of `total` pixels for a target tile side: the nearest whole number
/// to `total / target` (halves rounded up), at least one and at most
/// [`MAX_TILES_PER_AXIS`]; one tile when tiling is off (`target == 0`) or the axis is empty.
pub open spec fn spec_tile_count(total: nat, target: nat) -> nat {
    if target == 0 || total == 0 {
        1
    } else {
        let n = (2 * total + target) / (2 * target);
        if n < 1 {
            1
        } else if n > 16 {
            16
        } else {
            n
        }
    }
}

/// The tile count is the whole number nearest to `total / target`, halves rounded up,
/// held between one and sixteen: a count strictly inside that range is within half a
/// tile of the quotient, one tile means the quotient is under one and a half, and sixteen
/// means it is at least fifteen and a half.
pub proof fn law_tile_count_nearest(total: nat, target: nat)
    requires
        total > 0,
        target > 0,
    ensures
        1 <= spec_tile_count(total, target) <= 16,
        1 < spec_tile_count(total, target) < 16 ==> 2 * spec_tile_count(total, target) * target
            - target <= 2 * total < 2 * spec_tile_count(total, target) * target + target,
        spec_tile_count(total, target) == 1 <==> 2 * total < 3 * target,
        spec_tile_count(total, target) == 16 <==> 2 * total >= 31 * target,
{
    let q = (2 * total + target) / (2 * target);
    assert(2 * target * q <= 2 * total + target < 2 * target * q + 2 * target) by (nonlinear_arith)
        requires
            target > 0,
            q == (2 * total + target) / (2 * target),
    ;
    assert(q < 2 <==> 2 * total < 3 * target) by (nonlinear_arith)
        requires
            target > 0,
            2 * target * q <= 2 * total + target < 2 * target * q + 2 * target,
    ;
    assert(q >= 16 <==> 2 * total >= 31 * target) by (nonlinear_arith)
        requires
            target > 0,
            2 * target * q <= 2 * total + target < 2 * target * q + 2 * target,
    ;
    assert(2 * q * target - target <= 2 * total < 2 * q * target + target) by (nonlinear_arith)
        requires
            2 * target * q <= 2 * total + target < 2 * target * q + 2 * target,
    ;
}

pub fn tile_count(total: u32, target: u32) -> (n: u32)
    ensures
        n == spec_tile_count(total as nat, target as nat),
        1 <= n <= MAX_TILES_PER_AXIS,
        target == 0 || total == 0 ==> n == 1,
        target > 0 && total > 0 && 1 < n < 16 ==> 2 * n * target - target <= 2 * total < 2 * n
            * target + target,
        target > 0 && total > 0 ==> (n == 1 <==> 2 * total < 3 * target),
        target > 0 && total > 0 ==> (n == 16 <==> 2 * total >= 31 * target),
{
    proof {
        if target > 0 && total > 0 {
            law_tile_count_nearest(total as nat, target as nat);
        }
    }
    if target == 0 || total == 0 {
        return 1;
    }
    let n = (2 * (total as u64) + (target as u64)) / (2 * (target as u64));
    if n < 1 {
        1
    } else if n > MAX_TILES_PER_AXIS as u64 {
        MAX_TILES_PER_AXIS
    } else {
        n as u32
    }
}

/// The `n + 1` boundaries that split `[0, total)` into `n` near-equal segments:
/// boundary `i` is `total * i / n`.
pub fn tile_bounds(total: u32, n: u32) -> (bounds: Vec<u32>)
    requires
        n > 0,
    ensures
        bounds@.len() == n + 1,
        forall|i: int| 0 <= i <= n ==> #[trigger] bounds@[i] == (total as int * i) / (n as int),
        bounds@[0] == 0,
        bounds@[n as int] == total,
        forall|i: int, j: int| 0 <= i <= j <= n ==> bounds@[i] <= bounds@[j],
        total >= n ==> forall|i: int| 0 <= i < n ==> #[trigger] bounds@[i] < bounds@[i + 1],
{
    let mut bounds: Vec<u32> = Vec::new();
    let mut i: u64 = 0;
    while i <= n as u64
        invariant
            n > 0,
            i <= n + 1,
            bounds@.len() == i,
            forall|k: int| 0 <= k < i ==> #[trigger] bounds@[k] == (total as int * k) / (n as int),
        decreases n + 1 - i,
    {
        proof {
            assert((total as int) * (i as int) / (n as int) <= total) by (nonlinear_arith)
                requires
                    i <= n,
                    n > 0,
            ;
            assert((total as int) * (i as int) <= 0xffff_ffff * 0x1_0000_0000) by (nonlinear_arith)
                requires
                    i <= n + 1,
                    n <= 0xffff_ffff,
                    total <= 0xffff_ffff,
            ;
        }
        let b = ((total as u64) * i / (n as u64)) as u32;
        bounds.push(b);
        i = i + 1;
    }
    proof {
        assert(bounds@.len() == n + 1);
        assert((total as int) * (n as int) / (n as int) == total) by (nonlinear_arith)
            requires
                n > 0,
        ;
        assert forall|a: int, c: int| 0 <= a <= c <= n implies bounds@[a] <= bounds@[c] by {
            assert((total as int) * a / (n as int) <= (total as int) * c / (n as int))
                by (nonlinear_arith)
                requires
                    0 <= a <= c,
                    n > 0,
                    total >= 0,
            ;
        }
        if total >= n {
            assert forall|a: int| 0 <= a < n implies #[trigger] bounds@[a] < bounds@[a + 1] by {
                assert((total as int) * a / (n as int) < (total as int) * (a + 1) / (n as int))
                    by (nonlinear_arith)
                    requires
                        0 <= a,
                        n > 0,
                        total >= n,
                ;
            }
        }
    }
    bounds
}

/// The residual feather width inside a tile: the configured width, or when none is
/// configured a sixteenth of the tile's shorter side, at least eight pixels.
pub fn tile_margin(feather: u32, tile_w: u32, tile_h: u32) -> (m: u32)
    ensures
        feather > 0 ==> m == feather,
        feather == 0 ==> m == if (if tile_w <= tile_h { tile_w } else { tile_h }) / 16 >= 8 {
            (if tile_w <= tile_h { tile_w } else { tile_h }) / 16
        } else {
            8
        },
{
    if feather > 0 {
        feather
    } else {
        let short = if tile_w <= tile_h {
            tile_w
        } else {
            tile_h
        };
        let m = short / 16;
        if m >= 8 {
            m
        } else {
            8
        }
    }
}

/// A PDF must have at least one page and no more than `max_pages`.
pub fn check_page_count(page_count: usize, max_pages: usize) -> (r: Result<(), PdfwmError>)
    ensures
        page_count == 0 ==> (r matches Err(e) && e@ == Fault::Pdf("PDF has no pages"@)),
        page_count > max_pages && page_count > 0 ==> (r matches Err(e) && e@ == Fault::Limit(
            "PDF has "@ + dec_chars(page_count as nat) + " pages, exceeding max_pages "@
                + dec_chars(max_pages as nat),
        )),
        0 < page_count <= max_pages ==> r is Ok,
{
    if page_count == 0 {
        return Err(PdfwmError::Pdf(owned("PDF has no pages")));
    }
    if page_count > max_pages {
        let m = join_dec(owned("PDF has "), page_count as u128);
        let m = join_dec(join(m, " pages, exceeding max_pages "), max_pages as u128);
        return Err(PdfwmError::Limit(m));
    }
    Ok(())
}

/// A rendered page of `width` by `height` pixels must not exceed `max_pixels`.
pub fn check_page_pixels(width: u32, height: u32, max_pixels: u64) -> (r: Result<u64, PdfwmError>)
    ensures
        width * height <= max_pixels ==> r == Ok::<u64, PdfwmError>((width * height) as u64),
        width * height > max_pixels ==> (r matches Err(e) && e@ == Fault::Limit(
            "rendered page would be "@ + dec_chars((width * height) as nat)
                + " pixels, exceeding max_pixels_per_page "@ + dec_chars(max_pixels as nat),
        )),
{
    proof {
        assert((width as int) * (height as int) <= 0xffff_ffff * 0xffff_ffff) by (nonlinear_arith)
            requires
                width <= 0xffff_ffff,
                height <= 0xffff_ffff,
        ;
    }
    let pixels = (width as u64) * (height as u64);
    if pixels > max_pixels {
        let m = join_dec(owned("rendered page would be "), pixels as u128);
        let m = join_dec(join(m, " pixels, exceeding max_pixels_per_page "), max_pixels as u128);
        return Err(PdfwmError::Limit(m));
    }
    Ok(pixels)
}

} // verus!

verus! {

/// `a / b` rounded up.
pub open spec fn ceil_div(a: nat, b: nat) -> nat {
    ((a + b - 1) / b as int) as nat
}

/// Window starts `0, stride, 2 stride, ...` capped at `max`, up to the first that reaches `max`.
pub open spec fn stride_starts(max: nat, stride: nat) -> Seq<nat> {
    Seq::new(
        ceil_div(max, stride) + 1,
        |k: int|
            if k * stride < max {
                (k * stride) as nat
            } else {
                max
            },
    )
}

/// `count` entries of `p` taken at evenly spread indices, the first and the last included.
pub open spec fn spread(p: Seq<nat>, count: nat) -> Seq<nat> {
    Seq::new(count, |j: int| p[j * (p.len() - 1) / (count - 1)])
}

/// Window start offsets along an axis of `total` pixels for windows of `side` pixels:
/// the origin alone when a window covers the axis, otherwise the stride positions up to
/// the flush-right one, thinned to [`MAX_POS_PER_AXIS`] evenly spread positions.
pub open spec fn spec_window_positions(total: nat, side: nat, stride: nat) -> Seq<nat> {
    if side >= total {
        seq![0nat]
    } else {
        let p = stride_starts((total - side) as nat, stride);
        if p.len() > 7 {
            spread(p, 7)
        } else {
            p
        }
    }
}

proof fn lemma_ceil_div(max: nat, s: nat, k: nat)
    requires
        s > 0,
        max > 0,
        k * s >= max,
        k == 0 || (k - 1) * s < max,
    ensures
        k == ceil_div(max, s),
{
    assert(k == (max + s - 1) / s as int) by (nonlinear_arith)
        requires
            s > 0,
            max > 0,
            k * s >= max,
            k == 0 || (k - 1) * s < max,
    ;
}

pub fn window_positions(total: u32, side: u32, stride: u32) -> (positions: Vec<u32>)
    requires
        stride > 0,
    ensures
        positions@.len() == spec_window_positions(total as nat, side as nat, stride as nat).len(),
        forall|i: int|
            0 <= i < positions@.len() ==> #[trigger] positions@[i] == spec_window_positions(
                total as nat,
                side as nat,
                stride as nat,
            )[i],
        1 <= positions@.len() <= MAX_POS_PER_AXIS,
        positions@[0] == 0,
        positions@.last() == (if side >= total {
            0
        } else {
            total - side
        }),
        forall|i: int, j: int|
            0 <= i < j < positions@.len() ==> #[trigger] positions@[i] < #[trigger] positions@[j],
{
    if side >= total {
        let mut only: Vec<u32> = Vec::new();
        only.push(0);
        return only;
    }
    let max_start = total - side;
    let ghost m = max_start as nat;
    let ghost s = stride as nat;
    let ghost p = stride_starts(m, s);
    let mut positions: Vec<u32> = Vec::new();
    let mut start: u32 = 0;
    proof {
        assert(0 * s == 0);
    }
    loop
        invariant_except_break
            max_start > 0,
            stride > 0,
            m == max_start as nat,
            s == stride as nat,
            p == stride_starts(m, s),
            start as nat == (if positions@.len() * s < m {
                (positions@.len() * s) as nat
            } else {
                m
            }),
            start < max_start,
            forall|j: int|
                0 <= j < positions@.len() ==> #[trigger] positions@[j] as nat == (if j * s < m {
                    (j * s) as nat
                } else {
                    m
                }),
            forall|j: int| 0 <= j < positions@.len() ==> #[trigger] (j * s) < m,
        ensures
            positions@.len() == p.len(),
            forall|j: int| 0 <= j < p.len() ==> #[trigger] positions@[j] as nat == p[j],
        decreases max_start - start,
    {
        let ghost k = positions@.len();
        positions.push(start);
        if start >= max_start {
            proof {
                assert(k * s >= m);
                lemma_ceil_div(m, s, k);
                assert forall|j: int| 0 <= j < p.len() implies #[trigger] positions@[j] as nat
                    == p[j] by {
                    if j < k {
                        assert(positions@[j] == positions@.drop_last()[j]);
                    }
                }
            }
            break;
        }
        proof {
            assert(k * s < m);
            assert((k + 1) * s == k * s + s) by (nonlinear_arith);
        }
        let next = (start as u64) + (stride as u64);
        start = if next < max_start as u64 {
            next as u32
        } else {
            max_start
        };
        proof {
            assert forall|j: int| 0 <= j < positions@.len() implies #[trigger] (j * s) < m by {
                if j < k {
                    assert(positions@[j] == positions@.drop_last()[j]);
                }
            }
            assert forall|j: int| 0 <= j < positions@.len() implies #[trigger] positions@[j] as nat
                == (if j * s < m {
                (j * s) as nat
            } else {
                m
            }) by {
                if j < k {
                    assert(positions@[j] == positions@.drop_last()[j]);
                }
            }
        }
        if start >= max_start {
            positions.push(start);
            proof {
                let k1 = (k + 1) as nat;
                assert(k1 * s >= m);
                lemma_ceil_div(m, s, k1);
                assert forall|j: int| 0 <= j < p.len() implies #[trigger] positions@[j] as nat
                    == p[j] by {
                    if j < k1 {
                        assert(positions@[j] == positions@.drop_last()[j]);
                    }
                }
            }
            break;
        }
    }
    if positions.len() > MAX_POS_PER_AXIS as usize {
        let last = positions.len() - 1;
        let mut spread_out: Vec<u32> = Vec::new();
        let mut k: usize = 0;
        while k < MAX_POS_PER_AXIS as usize
            invariant
                k <= 7,
                positions@.len() > 7,
                last == positions@.len() - 1,
                last >= 7,
                spread_out@.len() == k,
                forall|j: int|
                    0 <= j < k ==> #[trigger] spread_out@[j] == positions@[j * last / 6],
            decreases 7 - k,
        {
            proof {
                assert(k * last / 6 <= last) by (nonlinear_arith)
                    requires
                        k < 7,
                        last >= 7,
                ;
                assert(k * last <= 6 * last) by (nonlinear_arith)
                    requires
                        k < 7,
                ;
            }
            let index = ((k as u128) * (last as u128) / 6) as usize;
            spread_out.push(positions[index]);
            k = k + 1;
        }
        proof {
            lemma_window_positions_spread(m, s, p, positions@, spread_out@);
        }
        return spread_out;
    }
    proof {
        lemma_stride_starts_increasing(m, s);
    }
    positions
}

proof fn lemma_stride_starts_increasing(m: nat, s: nat)
    requires
        s > 0,
        m > 0,
    ensures
        forall|i: int, j: int|
            0 <= i < j < stride_starts(m, s).len() ==> #[trigger] stride_starts(m, s)[i]
                < #[trigger] stride_starts(m, s)[j],
        stride_starts(m, s)[0] == 0,
        stride_starts(m, s).last() == m,
{
    let p = stride_starts(m, s);
    let kk = ceil_div(m, s);
    assert((kk as int) * (s as int) >= m) by (nonlinear_arith)
        requires
            s > 0,
            kk == (m + s - 1) / s as int,
    ;
    assert forall|i: int, j: int| 0 <= i < j < p.len() implies #[trigger] p[i] < #[trigger] p[j] by {
        assert(i * s < j * s) by (nonlinear_arith)
            requires
                i < j,
                s > 0,
        ;
        if j < kk {
            assert((j as int) * (s as int) < m) by (nonlinear_arith)
                requires
                    s > 0,
                    kk == (m + s - 1) / s as int,
                    j < kk,
            ;
        }
        if i < kk {
            assert((i as int) * (s as int) < m) by (nonlinear_arith)
                requires
                    s > 0,
                    kk == (m + s - 1) / s as int,
                    i < kk,
            ;
        }
    }
    assert(0 * s == 0);
}

proof fn lemma_window_positions_spread(
    m: nat,
    s: nat,
    p: Seq<nat>,
    positions: Seq<u32>,
    spread_out: Seq<u32>,
)
    requires
        s > 0,
        m > 0,
        p == stride_starts(m, s),
        positions.len() == p.len(),
        p.len() > 7,
        forall|j: int| 0 <= j < p.len() ==> #[trigger] positions[j] as nat == p[j],
        spread_out.len() == 7,
        forall|j: int|
            0 <= j < 7 ==> #[trigger] spread_out[j] == positions[j * (positions.len() - 1) / 6],
    ensures
        forall|i: int| 0 <= i < 7 ==> #[trigger] spread_out[i] as nat == spread(p, 7)[i],
        forall|i: int, j: int|
            0 <= i < j < 7 ==> #[trigger] spread_out[i] < #[trigger] spread_out[j],
        spread_out[0] == 0,
        spread_out[6] == m,
{
    lemma_stride_starts_increasing(m, s);
    let last = p.len() - 1;
    assert forall|i: int| 0 <= i < 7 implies #[trigger] spread_out[i] as nat == spread(p, 7)[i] by {
        assert(i * last / 6 <= last) by (nonlinear_arith)
            requires
                0 <= i < 7,
                last >= 7,
        ;
        assert(i * last / 6 >= 0) by (nonlinear_arith)
            requires
                0 <= i,
                last >= 7,
        ;
    }
    assert forall|i: int, j: int| 0 <= i < j < 7 implies #[trigger] spread_out[i]
        < #[trigger] spread_out[j] by {
        assert(i * last / 6 < j * last / 6) by (nonlinear_arith)
            requires
                0 <= i < j < 7,
                last >= 7,
        ;
        assert(j * last / 6 <= last) by (nonlinear_arith)
            requires
                0 <= j < 7,
                last >= 7,
        ;
        assert(i * last / 6 >= 0) by (nonlinear_arith)
            requires
                0 <= i,
                last >= 7,
        ;
    }
    assert(6 * last / 6 == last);
    assert(0 * last / 6 == 0);
}

} // verus!

verus! {

/// One decode that passed the plausibility gate, from the whole image or from a window.
pub struct DecodeHit {
    pub decoded: DecodedId,
    pub version: TrustmarkVersion,
    pub whole: bool,
}

/// What a hit says: the id's characters, its codec and the TrustMark version.
pub type HitKey = (Seq<char>, IdCodec, TrustmarkVersion);

pub open spec fn hit_key(h: DecodeHit) -> HitKey {
    (h.decoded.id@, h.decoded.codec, h.version)
}

/// How many window hits (not whole-image hits) name the key.
pub open spec fn window_votes(hs: Seq<DecodeHit>, k: HitKey) -> nat
    decreases hs.len(),
{
    if hs.len() == 0 {
        0
    } else {
        window_votes(hs.drop_last(), k) + (if hit_key(hs.last()) == k && !hs.last().whole {
            1nat
        } else {
            0nat
        })
    }
}

/// Whether a whole-image hit names the key.
pub open spec fn whole_seen(hs: Seq<DecodeHit>, k: HitKey) -> bool {
    exists|i: int| 0 <= i < hs.len() && hit_key(#[trigger] hs[i]) == k && hs[i].whole
}

/// Whether any hit names the key.
pub open spec fn seen(hs: Seq<DecodeHit>, k: HitKey) -> bool {
    exists|i: int| 0 <= i < hs.len() && hit_key(#[trigger] hs[i]) == k
}

/// Whether a decoded id is plausible for the options: of the selected codec, if one is
/// selected, and for the numeric codecs no longer than the digit limit, if one is set.
pub open spec fn spec_accept(
    id: Seq<char>,
    codec: IdCodec,
    selection: IdCodecSelection,
    id_max_digits: Option<usize>,
) -> bool {
    &&& (selection matches IdCodecSelection::Specific(expected) ==> codec == expected)
    &&& match id_max_digits {
        Some(max) => (codec == IdCodec::UintDecimal || codec == IdCodec::DecimalBcd)
            ==> encode_utf8(id).len() <= max,
        None => true,
    }
}

/// The plausibility gate: a decode of another codec than the pinned one is rejected; a
/// numeric decode (`uint_decimal` or `decimal_bcd`) longer than the digit limit is
/// rejected; a decode of the pinned codec (or any, with none pinned) passes when no limit
/// is set, and a `base36` or `utf8_raw` decode passes whatever its length.
pub proof fn law_accept_gate(
    id: Seq<char>,
    codec: IdCodec,
    selection: IdCodecSelection,
    id_max_digits: Option<usize>,
)
    ensures
        selection matches IdCodecSelection::Specific(c) && codec != c ==> !spec_accept(
            id,
            codec,
            selection,
            id_max_digits,
        ),
        id_max_digits matches Some(m) && (codec == IdCodec::UintDecimal || codec
            == IdCodec::DecimalBcd) && encode_utf8(id).len() > m ==> !spec_accept(
            id,
            codec,
            selection,
            id_max_digits,
        ),
        (selection matches IdCodecSelection::Specific(c) ==> codec == c) && (id_max_digits is None
            || codec == IdCodec::Base36 || codec == IdCodec::Utf8Raw) ==> spec_accept(
            id,
            codec,
            selection,
            id_max_digits,
        ),
        (selection matches IdCodecSelection::Specific(c) ==> codec == c) && (id_max_digits matches Some(m)
            && encode_utf8(id).len() <= m) ==> spec_accept(id, codec, selection, id_max_digits),
{
}

pub fn accept_decoded(
    decoded: &DecodedId,
    selection: IdCodecSelection,
    id_max_digits: Option<usize>,
) -> (r: bool)
    ensures
        r == spec_accept(decoded.id@, decoded.codec, selection, id_max_digits),
        selection matches IdCodecSelection::Specific(c) && decoded.codec != c ==> !r,
        id_max_digits matches Some(m) && (decoded.codec == IdCodec::UintDecimal || decoded.codec
            == IdCodec::DecimalBcd) && encode_utf8(decoded.id@).len() > m ==> !r,
{
    proof {
        law_accept_gate(decoded.id@, decoded.codec, selection, id_max_digits);
    }
    if let IdCodecSelection::Specific(expected) = selection {
        if decoded.codec != expected {
            return false;
        }
    }
    if let Some(max_digits) = id_max_digits {
        let numeric = match decoded.codec {
            IdCodec::UintDecimal => true,
            IdCodec::DecimalBcd => true,
            _ => false,
        };
        let len = decoded.id.as_str().as_bytes().len();
        assert(len == encode_utf8(decoded.id@).len());
        if numeric && len > max_digits {
            return false;
        }
    }
    true
}

/// What the payload bits that TrustMark read yield: the id, its codec and the version the
/// bit count names, when the bits decode, pass the plausibility gate, and have a known length.
pub open spec fn spec_decode_payload(
    bits: Seq<char>,
    selection: IdCodecSelection,
    id_max_digits: Option<usize>,
) -> Option<HitKey> {
    match spec_decode_id(encode_utf8(bits)) {
        Err(_) => None,
        Ok((id, codec)) => if !spec_accept(id, codec, selection, id_max_digits) {
            None
        } else {
            match spec_version_of_data_bits(encode_utf8(bits).len()) {
                Some(v) => Some((id, codec, v)),
                None => None,
            }
        },
    }
}

/// The version reported with a payload has as many data bits as the payload is long, and
/// the id and codec reported are what `decode_id` reads from it, vetted by the
/// plausibility check. Conversely every readable, plausible payload of a known length is
/// reported, with that length's version.
pub proof fn law_payload_version_matches_length(
    bits: Seq<char>,
    selection: IdCodecSelection,
    id_max_digits: Option<usize>,
)
    ensures
        spec_decode_payload(bits, selection, id_max_digits) matches Some((id, c, v)) ==> {
            &&& v.spec_data_bits() == encode_utf8(bits).len()
            &&& spec_decode_id(encode_utf8(bits)) == Ok::<(Seq<char>, IdCodec), CodecFault>(
                (id, c),
            )
            &&& spec_accept(id, c, selection, id_max_digits)
        },
        forall|v: TrustmarkVersion, id: Seq<char>, c: IdCodec|
            v.spec_data_bits() == encode_utf8(bits).len() && #[trigger] spec_decode_id(
                encode_utf8(bits),
            ) == Ok::<(Seq<char>, IdCodec), CodecFault>((id, c)) && spec_accept(
                id,
                c,
                selection,
                id_max_digits,
            ) ==> spec_decode_payload(bits, selection, id_max_digits) == Some((id, c, v)),
{
    let n = encode_utf8(bits).len();
    assert forall|v: TrustmarkVersion| #[trigger] v.spec_data_bits() == n implies
        spec_version_of_data_bits(n) == Some(v) by {}
    if let Some(v) = spec_version_of_data_bits(n) {
        assert(v.spec_data_bits() == n);
    }
}

/// Reads the id out of payload bits that TrustMark decoded from an image.
pub fn decode_payload(
    bits: &str,
    selection: IdCodecSelection,
    id_max_digits: Option<usize>,
) -> (r: Option<(DecodedId, TrustmarkVersion)>)
    ensures
        r is Some <==> spec_decode_payload(bits@, selection, id_max_digits) is Some,
        r matches Some((d, v)) ==> spec_decode_payload(bits@, selection, id_max_digits) == Some(
            (d.id@, d.codec, v),
        ),
        r matches Some((d, v)) ==> v.spec_data_bits() == encode_utf8(bits@).len() && spec_decode_id(
            encode_utf8(bits@),
        ) == Ok::<(Seq<char>, IdCodec), CodecFault>((d.id@, d.codec)) && spec_accept(
            d.id@,
            d.codec,
            selection,
            id_max_digits,
        ),
{
    proof {
        law_payload_version_matches_length(bits@, selection, id_max_digits);
    }
    let decoded = match decode_id(bits) {
        Ok(d) => d,
        Err(_) => {
            return None;
        },
    };
    if !accept_decoded(&decoded, selection, id_max_digits) {
        return None;
    }
    match version_from_data_bits(bits.as_bytes().len()) {
        Ok(v) => Some((decoded, v)),
        Err(_) => None,
    }
}

proof fn lemma_votes_push(hs: Seq<DecodeHit>, h: DecodeHit, k: HitKey)
    ensures
        window_votes(hs.push(h), k) == window_votes(hs, k) + (if hit_key(h) == k && !h.whole {
            1nat
        } else {
            0nat
        }),
        whole_seen(hs.push(h), k) == (whole_seen(hs, k) || (hit_key(h) == k && h.whole)),
        seen(hs.push(h), k) == (seen(hs, k) || hit_key(h) == k),
{
    let s = hs.push(h);
    assert(s.drop_last() =~= hs);
    if whole_seen(hs, k) {
        let i = choose|i: int| 0 <= i < hs.len() && hit_key(#[trigger] hs[i]) == k && hs[i].whole;
        assert(s[i] == hs[i]);
    }
    if whole_seen(s, k) {
        let i = choose|i: int| 0 <= i < s.len() && hit_key(#[trigger] s[i]) == k && s[i].whole;
        if i < hs.len() {
            assert(s[i] == hs[i]);
        }
    }
    if seen(hs, k) {
        let i = choose|i: int| 0 <= i < hs.len() && hit_key(#[trigger] hs[i]) == k;
        assert(s[i] == hs[i]);
    }
    if seen(s, k) {
        let i = choose|i: int| 0 <= i < s.len() && hit_key(#[trigger] s[i]) == k;
        if i < hs.len() {
            assert(s[i] == hs[i]);
        }
    }
    if hit_key(h) == k {
        assert(s[hs.len() as int] == h);
    }
}

fn same_key(h: &DecodeHit, id: &String, codec: IdCodec, version: TrustmarkVersion) -> (r: bool)
    ensures
        r == (hit_key(*h) == (id@, codec, version)),
{
    h.decoded.codec == codec && h.version == version && h.decoded.id == *id
}

/// The window votes the hits give the key.
fn count_window_votes(
    hits: &Vec<DecodeHit>,
    id: &String,
    codec: IdCodec,
    version: TrustmarkVersion,
) -> (n: usize)
    ensures
        n == window_votes(hits@, (id@, codec, version)),
{
    let mut n: usize = 0;
    let mut i: usize = 0;
    proof {
        assert(hits@.take(0) =~= Seq::<DecodeHit>::empty());
    }
    while i < hits.len()
        invariant
            i <= hits@.len(),
            n == window_votes(hits@.take(i as int), (id@, codec, version)),
            n <= i,
        decreases hits@.len() - i,
    {
        proof {
            assert(hits@.take(i + 1) =~= hits@.take(i as int).push(hits@[i as int]));
            lemma_votes_push(hits@.take(i as int), hits@[i as int], (id@, codec, version));
        }
        if !hits[i].whole && same_key(&hits[i], id, codec, version) {
            n = n + 1;
        }
        i = i + 1;
    }
    proof {
        assert(hits@.take(hits@.len() as int) =~= hits@);
    }
    n
}

/// Records a window decode and says whether its id now has `min_votes` window votes, which
/// ends the search.
pub fn record_window_hit(
    hits: &mut Vec<DecodeHit>,
    decoded: DecodedId,
    version: TrustmarkVersion,
    min_votes: usize,
) -> (reached: bool)
    ensures
        final(hits)@ == old(hits)@.push(DecodeHit { decoded, version, whole: false }),
        reached == (window_votes(final(hits)@, (decoded.id@, decoded.codec, version))
            >= min_votes),
{
    let id = decoded.id.clone();
    let codec = decoded.codec;
    hits.push(DecodeHit { decoded, version, whole: false });
    let votes = count_window_votes(hits, &id, codec, version);
    votes >= min_votes
}

} // verus!

verus! {

/// The id chosen from the hits, with its support.
pub struct HitDecision {
    pub decoded: DecodedId,
    pub version: TrustmarkVersion,
    /// Window votes for a corroborated id; otherwise its window votes, or one for a
    /// whole-image decode that no window repeated.
    pub votes: usize,
    /// Whether enough windows agreed; otherwise the decision is a low-confidence fallback.
    pub corroborated: bool,
}

/// A key with at least `min` window votes.
pub open spec fn strong(hs: Seq<DecodeHit>, k: HitKey, min: nat) -> bool {
    seen(hs, k) && window_votes(hs, k) >= min
}

pub open spec fn any_strong(hs: Seq<DecodeHit>, min: nat) -> bool {
    exists|k: HitKey| #[trigger] strong(hs, k, min)
}

/// A strong key with the most window votes among strong keys.
pub open spec fn top_strong(hs: Seq<DecodeHit>, k: HitKey, min: nat) -> bool {
    &&& strong(hs, k, min)
    &&& forall|k2: HitKey| #[trigger] strong(hs, k2, min) ==> window_votes(hs, k2) <= window_votes(
        hs,
        k,
    )
}

/// Two different keys share the most window votes among strong keys.
pub open spec fn ambiguous(hs: Seq<DecodeHit>, min: nat) -> bool {
    exists|k1: HitKey, k2: HitKey|
        k1 != k2 && #[trigger] top_strong(hs, k1, min) && #[trigger] top_strong(hs, k2, min)
}

/// Key `a` ranks no higher than key `b`: fewer window votes, or as many and no whole-image
/// decode that `b` lacks.
pub open spec fn rank_le(hs: Seq<DecodeHit>, a: HitKey, b: HitKey) -> bool {
    window_votes(hs, a) < window_votes(hs, b) || (window_votes(hs, a) == window_votes(hs, b) && (
    !whole_seen(hs, a) || whole_seen(hs, b)))
}

/// A seen key that ranks highest.
pub open spec fn top_ranked(hs: Seq<DecodeHit>, k: HitKey) -> bool {
    &&& seen(hs, k)
    &&& forall|k2: HitKey| #[trigger] seen(hs, k2) ==> rank_le(hs, k2, k)
}

pub open spec fn decision_key(d: HitDecision) -> HitKey {
    (d.decoded.id@, d.decoded.codec, d.version)
}

/// What a decision must be for the hits: with strong keys, the unique strong key with the
/// most window votes, corroborated; without, a highest-ranked key, not corroborated.
pub open spec fn decision_ok(hs: Seq<DecodeHit>, min: nat, d: HitDecision) -> bool {
    let k = decision_key(d);
    if any_strong(hs, min) {
        &&& top_strong(hs, k, min)
        &&& d.votes == window_votes(hs, k)
        &&& d.corroborated
    } else {
        &&& top_ranked(hs, k)
        &&& d.votes == (if window_votes(hs, k) == 0 && whole_seen(hs, k) {
            1
        } else {
            window_votes(hs, k)
        })
        &&& !d.corroborated
    }
}

struct Tally {
    id: String,
    codec: IdCodec,
    version: TrustmarkVersion,
    votes: usize,
    whole: bool,
}

spec fn tally_key(t: Tally) -> HitKey {
    (t.id@, t.codec, t.version)
}

/// The tallies hold each key that the hits name once, with its exact support.
spec fn tallies_of(ts: Seq<Tally>, hs: Seq<DecodeHit>) -> bool {
    &&& forall|j: int|
        0 <= j < ts.len() ==> {
            &&& (#[trigger] ts[j]).votes == window_votes(hs, tally_key(ts[j]))
            &&& ts[j].whole == whole_seen(hs, tally_key(ts[j]))
            &&& seen(hs, tally_key(ts[j]))
        }
    &&& forall|j1: int, j2: int|
        0 <= j1 < ts.len() && 0 <= j2 < ts.len() && j1 != j2 ==> tally_key(#[trigger] ts[j1])
            != tally_key(#[trigger] ts[j2])
    &&& forall|k: HitKey| #[trigger] seen(hs, k) ==> exists|j: int| 0 <= j < ts.len() && tally_key(#[trigger] ts[j]) == k
}

proof fn lemma_votes_bound(hs: Seq<DecodeHit>, k: HitKey)
    ensures
        window_votes(hs, k) <= hs.len(),
    decreases hs.len(),
{
    if hs.len() > 0 {
        lemma_votes_bound(hs.drop_last(), k);
    }
}

proof fn lemma_not_seen_no_votes(hs: Seq<DecodeHit>, k: HitKey)
    requires
        !seen(hs, k),
    ensures
        window_votes(hs, k) == 0,
        !whole_seen(hs, k),
    decreases hs.len(),
{
    if hs.len() > 0 {
        let init = hs.drop_last();
        assert(!seen(init, k)) by {
            if seen(init, k) {
                let i = choose|i: int| 0 <= i < init.len() && hit_key(#[trigger] init[i]) == k;
                assert(hs[i] == init[i]);
            }
        }
        lemma_not_seen_no_votes(init, k);
        assert(hit_key(hs[hs.len() - 1]) != k);
    }
}

fn build_tallies(hits: &Vec<DecodeHit>) -> (ts: Vec<Tally>)
    ensures
        tallies_of(ts@, hits@),
        hits@.len() > 0 ==> ts@.len() > 0,
{
    let mut ts: Vec<Tally> = Vec::new();
    let mut i: usize = 0;
    proof {
        assert(hits@.take(0) =~= Seq::<DecodeHit>::empty());
    }
    while i < hits.len()
        invariant
            i <= hits@.len(),
            tallies_of(ts@, hits@.take(i as int)),
            i > 0 ==> ts@.len() > 0,
        decreases hits@.len() - i,
    {
        let h = &hits[i];
        let ghost before = hits@.take(i as int);
        let ghost after = hits@.take(i + 1);
        let ghost hk = hit_key(*h);
        proof {
            assert(after =~= before.push(*h));
            assert forall|k: HitKey| true implies {
                &&& window_votes(after, k) == window_votes(before, k) + (if hk == k && !h.whole {
                    1nat
                } else {
                    0nat
                })
                &&& whole_seen(after, k) == (whole_seen(before, k) || (hk == k && h.whole))
                &&& seen(after, k) == (seen(before, k) || hk == k)
            } by {
                lemma_votes_push(before, *h, k);
            }
            lemma_votes_bound(after, hk);
        }
        let mut j: usize = 0;
        let mut found = false;
        while j < ts.len()
            invariant_except_break
                !found,
            invariant
                j <= ts@.len(),
                forall|q: int| 0 <= q < j ==> tally_key(#[trigger] ts@[q]) != hk,
                hk == hit_key(*h),
            ensures
                found ==> j < ts@.len() && tally_key(ts@[j as int]) == hk,
                !found ==> forall|q: int| 0 <= q < ts@.len() ==> tally_key(#[trigger] ts@[q]) != hk,
            decreases ts@.len() - j,
        {
            if same_key(h, &ts[j].id, ts[j].codec, ts[j].version) {
                found = true;
                break;
            }
            j = j + 1;
        }
        if found {
            let ghost old_ts = ts@;
            let t = &ts[j];
            let votes = if h.whole {
                t.votes
            } else {
                t.votes + 1
            };
            let whole = t.whole || h.whole;
            let id = t.id.clone();
            let updated = Tally { id, codec: t.codec, version: t.version, votes, whole };
            ts.set(j, updated);
            proof {
                assert forall|q: int| 0 <= q < ts@.len() && q != j implies #[trigger] ts@[q]
                    == old_ts[q] by {}
                assert(tally_key(ts@[j as int]) == hk);
                assert forall|k: HitKey| #[trigger] seen(after, k) implies exists|q: int|
                    0 <= q < ts@.len() && tally_key(#[trigger] ts@[q]) == k by {
                    if k == hk {
                        assert(tally_key(ts@[j as int]) == k);
                    } else {
                        assert(seen(before, k));
                        let q = choose|q: int|
                            0 <= q < old_ts.len() && tally_key(#[trigger] old_ts[q]) == k;
                        if q != j {
                            assert(ts@[q] == old_ts[q]);
                        }
                    }
                }
            }
        } else {
            let ghost old_ts = ts@;
            proof {
                assert(!seen(before, hk)) by {
                    if seen(before, hk) {
                        let q = choose|q: int|
                            0 <= q < old_ts.len() && tally_key(#[trigger] old_ts[q]) == hk;
                        assert(tally_key(old_ts[q]) != hk);
                    }
                }
                lemma_not_seen_no_votes(before, hk);
            }
            let votes: usize = if h.whole {
                0
            } else {
                1
            };
            let id = h.decoded.id.clone();
            ts.push(
                Tally { id, codec: h.decoded.codec, version: h.version, votes, whole: h.whole },
            );
            proof {
                assert forall|q: int| 0 <= q < old_ts.len() implies #[trigger] ts@[q]
                    == old_ts[q] by {}
                assert(tally_key(ts@[old_ts.len() as int]) == hk);
                assert forall|k: HitKey| #[trigger] seen(after, k) implies exists|q: int|
                    0 <= q < ts@.len() && tally_key(#[trigger] ts@[q]) == k by {
                    if k == hk {
                        assert(tally_key(ts@[old_ts.len() as int]) == k);
                    } else {
                        assert(seen(before, k));
                        let q = choose|q: int|
                            0 <= q < old_ts.len() && tally_key(#[trigger] old_ts[q]) == k;
                        assert(ts@[q] == old_ts[q]);
                    }
                }
            }
        }
        i = i + 1;
    }
    proof {
        assert(hits@.take(hits@.len() as int) =~= hits@);
    }
    ts
}

} // verus!

verus! {

spec fn tally_rank_le(a: Tally, b: Tally) -> bool {
    a.votes < b.votes || (a.votes == b.votes && (!a.whole || b.whole))
}

/// A key is strong exactly when its tally has enough votes.
proof fn lemma_strong_tally(ts: Seq<Tally>, hs: Seq<DecodeHit>, min: nat, k: HitKey)
    requires
        tallies_of(ts, hs),
    ensures
        strong(hs, k, min) <==> exists|j: int|
            0 <= j < ts.len() && tally_key(#[trigger] ts[j]) == k && ts[j].votes >= min,
{
    if strong(hs, k, min) {
        assert(seen(hs, k));
        let j = choose|j: int| 0 <= j < ts.len() && tally_key(#[trigger] ts[j]) == k;
        assert(ts[j].votes == window_votes(hs, k));
    }
    if exists|j: int| 0 <= j < ts.len() && tally_key(#[trigger] ts[j]) == k && ts[j].votes >= min {
        let j = choose|j: int|
            0 <= j < ts.len() && tally_key(#[trigger] ts[j]) == k && ts[j].votes >= min;
        assert(seen(hs, tally_key(ts[j])));
    }
}

fn decision_from(t: &Tally, votes: usize, corroborated: bool) -> (d: HitDecision)
    ensures
        decision_key(d) == tally_key(*t),
        d.votes == votes,
        d.corroborated == corroborated,
{
    HitDecision {
        decoded: DecodedId { id: t.id.clone(), codec: t.codec },
        version: t.version,
        votes,
        corroborated,
    }
}

/// Settles on one id from the hits. Enough agreeing windows make an id corroborated, and two
/// ids with equally many such windows make the result ambiguous; without such windows the
/// best-supported id is still returned, uncorroborated.
pub fn decide_from_hits(hits: &Vec<DecodeHit>, min_search_votes: usize) -> (r: Result<
    HitDecision,
    PdfwmError,
>)
    ensures
        hits@.len() == 0 ==> (r matches Err(e) && e@ == Fault::Watermark(
            "no TrustMark watermark could be decoded"@,
        )),
        hits@.len() > 0 && ambiguous(hits@, min_search_votes as nat) ==> (r matches Err(e) && e@
            == Fault::AmbiguousWatermark("multiple watermark ids decoded with equal support"@)),
        hits@.len() > 0 && !ambiguous(hits@, min_search_votes as nat) ==> (r matches Ok(d)
            && decision_ok(hits@, min_search_votes as nat, d)),
{
    if hits.len() == 0 {
        return Err(PdfwmError::Watermark(owned("no TrustMark watermark could be decoded")));
    }
    let ts = build_tallies(hits);
    let ghost hs = hits@;
    let ghost min = min_search_votes as nat;
    let mut best: usize = 0;
    let mut have_best = false;
    let mut tie = false;
    let mut i: usize = 0;
    while i < ts.len()
        invariant
            i <= ts@.len(),
            tallies_of(ts@, hs),
            min == min_search_votes as nat,
            have_best ==> best < i && ts@[best as int].votes >= min,
            have_best ==> forall|q: int|
                0 <= q < i && (#[trigger] ts@[q]).votes >= min ==> ts@[q].votes <= ts@[best as int].votes,
            !have_best ==> forall|q: int| 0 <= q < i ==> (#[trigger] ts@[q]).votes < min,
            have_best ==> (tie <==> exists|q: int|
                0 <= q < i && q != best && (#[trigger] ts@[q]).votes >= min && ts@[q].votes
                    == ts@[best as int].votes),
        decreases ts@.len() - i,
    {
        if ts[i].votes >= min_search_votes {
            if !have_best || ts[i].votes > ts[best].votes {
                proof {
                    if have_best {
                        assert forall|q: int|
                            0 <= q < i + 1 && q != i && (#[trigger] ts@[q]).votes >= min implies ts@[q].votes
                            != ts@[i as int].votes by {}
                    }
                }
                best = i;
                have_best = true;
                tie = false;
            } else if ts[i].votes == ts[best].votes {
                tie = true;
            }
        }
        i = i + 1;
    }
    if have_best {
        if tie {
            proof {
                let q = choose|q: int|
                    0 <= q < ts@.len() && q != best && (#[trigger] ts@[q]).votes >= min
                        && ts@[q].votes == ts@[best as int].votes;
                let k1 = tally_key(ts@[best as int]);
                let k2 = tally_key(ts@[q]);
                lemma_top_from_tally(ts@, hs, min, best as int);
                lemma_top_from_tally(ts@, hs, min, q);
                assert(k1 != k2);
                assert(top_strong(hs, k1, min) && top_strong(hs, k2, min));
            }
            return Err(
                PdfwmError::AmbiguousWatermark(
                    owned("multiple watermark ids decoded with equal support"),
                ),
            );
        }
        let t = &ts[best];
        let d = decision_from(t, t.votes, true);
        proof {
            lemma_top_from_tally(ts@, hs, min, best as int);
            let kb = tally_key(ts@[best as int]);
            assert(strong(hs, kb, min));
            assert(!ambiguous(hs, min)) by {
                if ambiguous(hs, min) {
                    let (k1, k2) = choose|k1: HitKey, k2: HitKey|
                        k1 != k2 && #[trigger] top_strong(hs, k1, min) && #[trigger] top_strong(
                            hs,
                            k2,
                            min,
                        );
                    lemma_strong_tally(ts@, hs, min, k1);
                    lemma_strong_tally(ts@, hs, min, k2);
                    let j1 = choose|j: int|
                        0 <= j < ts@.len() && tally_key(#[trigger] ts@[j]) == k1 && ts@[j].votes
                            >= min;
                    let j2 = choose|j: int|
                        0 <= j < ts@.len() && tally_key(#[trigger] ts@[j]) == k2 && ts@[j].votes
                            >= min;
                    assert(window_votes(hs, kb) <= window_votes(hs, k1));
                    assert(window_votes(hs, kb) <= window_votes(hs, k2));
                    if j1 != best {
                        assert(ts@[j1].votes == ts@[best as int].votes);
                    } else {
                        assert(j2 != best);
                        assert(ts@[j2].votes == ts@[best as int].votes);
                    }
                }
            }
        }
        return Ok(d);
    }
    let mut top: usize = 0;
    let mut i: usize = 1;
    while i < ts.len()
        invariant
            1 <= i <= ts@.len(),
            top < i,
            forall|q: int| 0 <= q < i ==> tally_rank_le(#[trigger] ts@[q], ts@[top as int]),
        decreases ts@.len() - i,
    {
        let better = ts[i].votes > ts[top].votes || (ts[i].votes == ts[top].votes && ts[i].whole
            && !ts[top].whole);
        if better {
            top = i;
        }
        i = i + 1;
    }
    let t = &ts[top];
    let votes = if t.votes == 0 && t.whole {
        1
    } else {
        t.votes
    };
    let d = decision_from(t, votes, false);
    proof {
        assert(!any_strong(hs, min)) by {
            if any_strong(hs, min) {
                let k = choose|k: HitKey| #[trigger] strong(hs, k, min);
                lemma_strong_tally(ts@, hs, min, k);
            }
        }
        assert(!ambiguous(hs, min));
        let kt = tally_key(ts@[top as int]);
        assert forall|k2: HitKey| #[trigger] seen(hs, k2) implies rank_le(hs, k2, kt) by {
            let j = choose|j: int| 0 <= j < ts@.len() && tally_key(#[trigger] ts@[j]) == k2;
            assert(tally_rank_le(ts@[j], ts@[top as int]));
        }
    }
    Ok(d)
}

/// The tally with the most votes among tallies with enough votes gives a top strong key.
proof fn lemma_top_from_tally(ts: Seq<Tally>, hs: Seq<DecodeHit>, min: nat, b: int)
    requires
        tallies_of(ts, hs),
        0 <= b < ts.len(),
        ts[b].votes >= min,
        forall|q: int|
            0 <= q < ts.len() && (#[trigger] ts[q]).votes >= min ==> ts[q].votes <= ts[b].votes,
    ensures
        top_strong(hs, tally_key(ts[b]), min),
{
    let kb = tally_key(ts[b]);
    assert(strong(hs, kb, min));
    assert forall|k2: HitKey| #[trigger] strong(hs, k2, min) implies window_votes(hs, k2)
        <= window_votes(hs, kb) by {
        lemma_strong_tally(ts, hs, min, k2);
        let j = choose|j: int| 0 <= j < ts.len() && tally_key(#[trigger] ts[j]) == k2 && ts[j].votes >= min;
    }
}

/// Once some id has gathered `min` window votes, the decision on those hits is
/// corroborated and carries at least `min` votes: a search may stop there.
pub proof fn law_enough_votes_corroborate(hs: Seq<DecodeHit>, k: HitKey, min: nat, d: HitDecision)
    requires
        strong(hs, k, min),
        decision_ok(hs, min, d),
    ensures
        d.corroborated,
        d.votes >= min,
        top_strong(hs, decision_key(d), min),
{
    assert(any_strong(hs, min));
}

} // verus!

verus! {

/// A tile of the page: its top-left corner and size in pixels.
#[derive(Debug, Clone, Copy, PartialEq, Eq, Structural)]
pub struct TileRect {
    pub x: u32,
    pub y: u32,
    pub width: u32,
    pub height: u32,
}

/// The nonempty tiles of row `y0..y1` among its first `c` columns, left to right.
pub open spec fn row_tiles(xs: Seq<u32>, y0: u32, y1: u32, c: nat) -> Seq<TileRect>
    decreases c,
{
    if c == 0 {
        Seq::empty()
    } else {
        let x0 = xs[c - 1];
        let x1 = xs[c as int];
        row_tiles(xs, y0, y1, (c - 1) as nat) + if x1 > x0 && y1 > y0 {
            seq![TileRect { x: x0, y: y0, width: (x1 - x0) as u32, height: (y1 - y0) as u32 }]
        } else {
            Seq::empty()
        }
    }
}

/// The nonempty tiles of the first `r` rows, row by row.
pub open spec fn grid_tiles(xs: Seq<u32>, ys: Seq<u32>, cols: nat, r: nat) -> Seq<TileRect>
    decreases r,
{
    if r == 0 {
        Seq::empty()
    } else {
        grid_tiles(xs, ys, cols, (r - 1) as nat) + row_tiles(xs, ys[r - 1], ys[r as int], cols)
    }
}

/// The boundaries of `n` near-equal segments of `[0, total)`.
pub open spec fn spec_bounds(total: nat, n: nat) -> Seq<u32> {
    Seq::new(n + 1, |i: int| ((total * i) / (n as int)) as u32)
}

/// The tiles a page of `width` by `height` pixels is split into for a target tile side.
pub open spec fn spec_tile_jobs(width: nat, height: nat, tile_size: nat) -> Seq<TileRect> {
    let cols = spec_tile_count(width, tile_size);
    let rows = spec_tile_count(height, tile_size);
    grid_tiles(spec_bounds(width, cols), spec_bounds(height, rows), cols, rows)
}

/// The grid of tiles that the page is watermarked in, row by row; tiles that would be
/// empty are left out.
pub fn tile_jobs(width: u32, height: u32, tile_size: u32) -> (jobs: Vec<TileRect>)
    ensures
        jobs@ == spec_tile_jobs(width as nat, height as nat, tile_size as nat),
        forall|i: int|
            0 <= i < jobs@.len() ==> tile_within(#[trigger] jobs@[i], width as nat, height as nat),
{
    let cols = tile_count(width, tile_size);
    let rows = tile_count(height, tile_size);
    let xs = tile_bounds(width, cols);
    let ys = tile_bounds(height, rows);
    proof {
        assert(xs@ =~= spec_bounds(width as nat, cols as nat));
        assert(ys@ =~= spec_bounds(height as nat, rows as nat));
    }
    let mut jobs: Vec<TileRect> = Vec::new();
    let mut ry: usize = 0;
    while ry < rows as usize
        invariant
            ry <= rows,
            xs@.len() == cols + 1,
            ys@.len() == rows + 1,
            jobs@ == grid_tiles(xs@, ys@, cols as nat, ry as nat),
        decreases rows - ry,
    {
        let y0 = ys[ry];
        let y1 = ys[ry + 1];
        let ghost row_start = jobs@;
        let mut cx: usize = 0;
        while cx < cols as usize
            invariant
                cx <= cols,
                xs@.len() == cols + 1,
                jobs@ == row_start + row_tiles(xs@, y0, y1, cx as nat),
            decreases cols - cx,
        {
            let x0 = xs[cx];
            let x1 = xs[cx + 1];
            if x1 > x0 && y1 > y0 {
                jobs.push(TileRect { x: x0, y: y0, width: x1 - x0, height: y1 - y0 });
            }
            proof {
                assert(jobs@ =~= row_start + row_tiles(xs@, y0, y1, (cx + 1) as nat));
            }
            cx = cx + 1;
        }
        proof {
            assert(jobs@ =~= grid_tiles(xs@, ys@, cols as nat, (ry + 1) as nat));
        }
        ry = ry + 1;
    }
    proof {
        lemma_grid_within(xs@, ys@, cols as nat, rows as nat, width as nat, height as nat);
    }
    jobs
}

/// A nonempty tile that lies inside a page of `w` by `h` pixels.
pub open spec fn tile_within(t: TileRect, w: nat, h: nat) -> bool {
    &&& t.width > 0
    &&& t.height > 0
    &&& t.x + t.width <= w
    &&& t.y + t.height <= h
}

proof fn lemma_row_within(xs: Seq<u32>, y0: u32, y1: u32, c: nat, w: nat, h: nat)
    requires
        c < xs.len(),
        forall|i: int| 0 <= i <= c ==> #[trigger] xs[i] <= w,
        y1 <= h,
    ensures
        forall|i: int|
            0 <= i < row_tiles(xs, y0, y1, c).len() ==> tile_within(
                #[trigger] row_tiles(xs, y0, y1, c)[i],
                w,
                h,
            ),
    decreases c,
{
    if c > 0 {
        lemma_row_within(xs, y0, y1, (c - 1) as nat, w, h);
        let head = row_tiles(xs, y0, y1, (c - 1) as nat);
        let all = row_tiles(xs, y0, y1, c);
        assert(xs[c as int] <= w);
        assert forall|i: int| 0 <= i < all.len() implies tile_within(#[trigger] all[i], w, h) by {
            if i < head.len() {
                assert(all[i] == head[i]);
            }
        }
    }
}

proof fn lemma_grid_within(xs: Seq<u32>, ys: Seq<u32>, cols: nat, r: nat, w: nat, h: nat)
    requires
        xs.len() == cols + 1,
        r < ys.len(),
        forall|i: int| 0 <= i < xs.len() ==> #[trigger] xs[i] <= w,
        forall|i: int| 0 <= i < ys.len() ==> #[trigger] ys[i] <= h,
    ensures
        forall|i: int|
            0 <= i < grid_tiles(xs, ys, cols, r).len() ==> tile_within(
                #[trigger] grid_tiles(xs, ys, cols, r)[i],
                w,
                h,
            ),
    decreases r,
{
    if r > 0 {
        lemma_grid_within(xs, ys, cols, (r - 1) as nat, w, h);
        lemma_row_within(xs, ys[r - 1], ys[r as int], cols, w, h);
        let head = grid_tiles(xs, ys, cols, (r - 1) as nat);
        let row = row_tiles(xs, ys[r - 1], ys[r as int], cols);
        let all = grid_tiles(xs, ys, cols, r);
        assert forall|i: int| 0 <= i < all.len() implies tile_within(#[trigger] all[i], w, h) by {
            if i < head.len() {
                assert(all[i] == head[i]);
            } else {
                assert(all[i] == row[i - head.len()]);
            }
        }
    }
}

} // verus!
