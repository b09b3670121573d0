//! The sliding-window sweep of a decode search: which square crops are tried, in order.
use vstd::prelude::*;
use crate::engine::{spec_window_positions, window_positions};

verus! {

/// Windows smaller than this carry too little signal to decode reliably.
pub const MIN_WINDOW: u32 = 192;

/// A square crop of the searched image: its top-left corner and its side.
#[derive(Debug, Clone, Copy, PartialEq, Eq, Structural)]
pub struct SearchWindow {
    pub x: u32,
    pub y: u32,
    pub side: u32,
}

/// The corner and side of a window as numbers.
pub open spec fn window_view(w: SearchWindow) -> (nat, nat, nat) {
    (w.x as nat, w.y as nat, w.side as nat)
}

/// The windows of one scale, row by row from the top and left to right in each row,
/// at the start offsets that [`window_positions`] gives for each axis.
pub open spec fn scale_windows(width: nat, height: nat, side: nat, stride: nat) -> Seq<
    (nat, nat, nat),
> {
    let xs = spec_window_positions(width, side, stride);
    let ys = spec_window_positions(height, side, stride);
    Seq::new(ys.len() * xs.len(), |k: int| (xs[k % xs.len() as int], ys[k / xs.len() as int], side))
}

/// The windows of every scale in turn; a scale whose side is under [`MIN_WINDOW`]
/// contributes none.
pub open spec fn all_windows(width: nat, height: nat, scales: Seq<(u32, u32)>) -> Seq<
    (nat, nat, nat),
>
    decreases scales.len(),
{
    if scales.len() == 0 {
        Seq::empty()
    } else {
        let (side, stride) = scales.last();
        let earlier = all_windows(width, height, scales.drop_last());
        if side >= MIN_WINDOW {
            earlier + scale_windows(width, height, side as nat, stride as nat)
        } else {
            earlier
        }
    }
}

/// A lone scale sweeps its own windows when its side is at least [`MIN_WINDOW`], and none
/// otherwise.
pub proof fn law_single_scale_sweep(width: nat, height: nat, s: (u32, u32))
    ensures
        s.0 >= MIN_WINDOW ==> all_windows(width, height, seq![s]) == scale_windows(
            width,
            height,
            s.0 as nat,
            s.1 as nat,
        ),
        s.0 < MIN_WINDOW ==> all_windows(width, height, seq![s]).len() == 0,
{
    let one = seq![s];
    assert(one.drop_last() =~= Seq::<(u32, u32)>::empty());
    assert(all_windows(width, height, one.drop_last()) =~= Seq::<(nat, nat, nat)>::empty());
    if s.0 >= MIN_WINDOW {
        assert(all_windows(width, height, one) =~= scale_windows(width, height, s.0 as nat, s.1 as nat));
    }
}

/// Sweeping two lists of scales one after the other gives the sweep of the joined list:
/// each scale contributes its windows in place, whatever the sides of the others, so a
/// scale under [`MIN_WINDOW`] drops only its own windows.
pub proof fn law_sweep_concat(width: nat, height: nat, a: Seq<(u32, u32)>, b: Seq<(u32, u32)>)
    ensures
        all_windows(width, height, a + b) == all_windows(width, height, a) + all_windows(
            width,
            height,
            b,
        ),
    decreases b.len(),
{
    if b.len() == 0 {
        assert(a + b =~= a);
        assert(all_windows(width, height, b) =~= Seq::<(nat, nat, nat)>::empty());
        assert(all_windows(width, height, a) + all_windows(width, height, b) =~= all_windows(
            width,
            height,
            a,
        ));
    } else {
        law_sweep_concat(width, height, a, b.drop_last());
        assert((a + b).drop_last() =~= a + b.drop_last());
        assert((a + b).last() == b.last());
        let (side, stride) = b.last();
        if side >= MIN_WINDOW {
            let sw = scale_windows(width, height, side as nat, stride as nat);
            assert(all_windows(width, height, a) + all_windows(width, height, b.drop_last()) + sw
                =~= all_windows(width, height, a) + (all_windows(width, height, b.drop_last())
                + sw));
        }
    }
}

/// Whether the window starts inside the image and, along each axis where it is no larger
/// than the image, ends inside it too.
pub open spec fn window_inside(w: SearchWindow, width: nat, height: nat) -> bool {
    &&& (w.x == 0 || w.x + w.side <= width)
    &&& (w.y == 0 || w.y + w.side <= height)
    &&& (w.side <= width ==> w.x + w.side <= width)
    &&& (w.side <= height ==> w.y + w.side <= height)
}

/// The windows a search tries, in order, for an image of `width` by `height` pixels:
/// for each `(side, stride)` scale with a side of at least [`MIN_WINDOW`], the windows of
/// that side row by row, stopping after `max_windows` windows in all.
pub fn search_windows(width: u32, height: u32, scales: &Vec<(u32, u32)>, max_windows: usize) -> (r:
    Vec<SearchWindow>)
    requires
        forall|i: int| 0 <= i < scales@.len() ==> (#[trigger] scales@[i]).1 > 0,
    ensures
        r@.len() == if max_windows < all_windows(width as nat, height as nat, scales@).len() {
            max_windows as nat
        } else {
            all_windows(width as nat, height as nat, scales@).len()
        },
        forall|i: int|
            0 <= i < r@.len() ==> window_view(#[trigger] r@[i]) == all_windows(
                width as nat,
                height as nat,
                scales@,
            )[i],
        forall|i: int|
            0 <= i < r@.len() ==> window_inside(#[trigger] r@[i], width as nat, height as nat)
                && r@[i].side >= MIN_WINDOW,
{
    let ghost w = width as nat;
    let ghost h = height as nat;
    let mut out: Vec<SearchWindow> = Vec::new();
    let mut si: usize = 0;
    while si < scales.len()
        invariant
            si <= scales@.len(),
            w == width as nat,
            h == height as nat,
            forall|i: int| 0 <= i < scales@.len() ==> (#[trigger] scales@[i]).1 > 0,
            out@.len() == all_windows(w, h, scales@.take(si as int)).len(),
            forall|i: int|
                0 <= i < out@.len() ==> window_view(#[trigger] out@[i]) == all_windows(
                    w,
                    h,
                    scales@.take(si as int),
                )[i],
            forall|i: int|
                0 <= i < out@.len() ==> window_inside(#[trigger] out@[i], w, h) && out@[i].side
                    >= MIN_WINDOW,
        decreases scales@.len() - si,
    {
        let ghost before = all_windows(w, h, scales@.take(si as int));
        proof {
            assert(scales@.take(si + 1).drop_last() =~= scales@.take(si as int));
            assert(scales@.take(si + 1).last() == scales@[si as int]);
        }
        let (side, stride) = scales[si];
        if side >= MIN_WINDOW {
            let ghost prior = out@;
            add_scale(&mut out, width, height, side, stride);
            proof {
                let s = scale_windows(w, h, side as nat, stride as nat);
                let after = all_windows(w, h, scales@.take(si + 1));
                assert(after == before + s);
                assert forall|i: int| 0 <= i < out@.len() implies window_view(#[trigger] out@[i])
                    == after[i] by {
                    if i < prior.len() {
                        assert(out@[i] == prior[i]);
                    } else {
                        let k = i - prior.len();
                        assert(window_view(out@[prior.len() + k]) == s[k]);
                    }
                }
            }
        } else {
            proof {
                assert(all_windows(w, h, scales@.take(si + 1)) == before);
            }
        }
        si += 1;
    }
    proof {
        assert(scales@.take(scales@.len() as int) =~= scales@);
    }
    let ghost all = all_windows(w, h, scales@);
    let mut r: Vec<SearchWindow> = Vec::new();
    let mut i: usize = 0;
    while i < out.len() && i < max_windows
        invariant
            i <= out@.len(),
            i <= max_windows,
            out@.len() == all.len(),
            r@ == out@.take(i as int),
        decreases out@.len() - i,
    {
        r.push(out[i]);
        i += 1;
        proof {
            assert(r@ =~= out@.take(i as int));
        }
    }
    r
}

/// Window starts along an axis keep the window inside the axis where it fits.
proof fn lemma_positions_inside(p: Seq<u32>, total: u32, side: u32, stride: u32)
    requires
        stride > 0,
        p.len() == spec_window_positions(total as nat, side as nat, stride as nat).len(),
        1 <= p.len(),
        p[0] == 0,
        p.last() == (if side >= total { 0 } else { total - side }),
        forall|i: int, j: int| 0 <= i < j < p.len() ==> #[trigger] p[i] < #[trigger] p[j],
    ensures
        forall|i: int| 0 <= i < p.len() ==> #[trigger] p[i] == 0 || p[i] + side <= total,
        side <= total ==> forall|i: int| 0 <= i < p.len() ==> #[trigger] p[i] + side <= total,
{
    assert forall|i: int| 0 <= i < p.len() implies #[trigger] p[i] <= p.last() by {
        if i < p.len() - 1 {
            assert(p[i] < p[p.len() - 1]);
        }
    }
    if side >= total {
        assert(spec_window_positions(total as nat, side as nat, stride as nat) == seq![0nat]);
        assert forall|i: int| 0 <= i < p.len() implies #[trigger] p[i] == 0 by {
            assert(p.len() == 1);
        }
    }
}

/// Appends the windows of one scale to `out`, row by row.
fn add_scale(out: &mut Vec<SearchWindow>, width: u32, height: u32, side: u32, stride: u32)
    requires
        stride > 0,
        side >= MIN_WINDOW,
        forall|i: int|
            0 <= i < old(out)@.len() ==> window_inside(#[trigger] old(out)@[i], width as nat, height as nat)
                && old(out)@[i].side >= MIN_WINDOW,
    ensures
        final(out)@.len() == old(out)@.len() + scale_windows(
            width as nat,
            height as nat,
            side as nat,
            stride as nat,
        ).len(),
        forall|i: int| 0 <= i < old(out)@.len() ==> #[trigger] final(out)@[i] == old(out)@[i],
        forall|k: int|
            0 <= k < scale_windows(width as nat, height as nat, side as nat, stride as nat).len()
                ==> window_view(#[trigger] final(out)@[old(out)@.len() + k]) == scale_windows(
                width as nat,
                height as nat,
                side as nat,
                stride as nat,
            )[k],
        forall|i: int|
            0 <= i < final(out)@.len() ==> window_inside(#[trigger] final(out)@[i], width as nat, height as nat)
                && final(out)@[i].side >= MIN_WINDOW,
{
    let ghost w = width as nat;
    let ghost h = height as nat;
    let ghost start = out@;
    let ghost base = out@.len();
    let ghost sw = scale_windows(w, h, side as nat, stride as nat);
    let ys = window_positions(height, side, stride);
    let xs = window_positions(width, side, stride);
    let ghost xl = xs@.len() as int;
    let ghost yl = ys@.len() as int;
    proof {
        assert(sw.len() == yl * xl);
        lemma_positions_inside(xs@, width, side, stride);
        lemma_positions_inside(ys@, height, side, stride);
    }
    let mut yi: usize = 0;
    while yi < ys.len()
        invariant
            start == old(out)@,
            base == start.len(),
            sw == scale_windows(w, h, side as nat, stride as nat),
            w == width as nat,
            h == height as nat,
            side >= MIN_WINDOW,
            xl == xs@.len(),
            yl == ys@.len(),
            1 <= xl,
            sw.len() == yl * xl,
            forall|i: int| 0 <= i < xl ==> #[trigger] xs@[i] == spec_window_positions(w, side as nat, stride as nat)[i],
            forall|i: int| 0 <= i < yl ==> #[trigger] ys@[i] == spec_window_positions(h, side as nat, stride as nat)[i],
            xs@.len() == spec_window_positions(w, side as nat, stride as nat).len(),
            ys@.len() == spec_window_positions(h, side as nat, stride as nat).len(),
            forall|i: int| 0 <= i < xl ==> #[trigger] xs@[i] == 0 || xs@[i] + side <= width,
            forall|i: int| 0 <= i < yl ==> #[trigger] ys@[i] == 0 || ys@[i] + side <= height,
            side <= width ==> forall|i: int| 0 <= i < xl ==> #[trigger] xs@[i] + side <= width,
            side <= height ==> forall|i: int| 0 <= i < yl ==> #[trigger] ys@[i] + side <= height,
            yi <= yl,
            out@.len() == base + yi * xl,
            forall|i: int| 0 <= i < base ==> #[trigger] out@[i] == start[i],
            forall|k: int| 0 <= k < yi * xl ==> window_view(#[trigger] out@[base + k]) == sw[k],
            forall|i: int| 0 <= i < out@.len() ==> window_inside(#[trigger] out@[i], w, h)
                && out@[i].side >= MIN_WINDOW,
        decreases yl - yi,
    {
        let mut xi: usize = 0;
        while xi < xs.len()
            invariant
                start == old(out)@,
                base == start.len(),
                sw == scale_windows(w, h, side as nat, stride as nat),
                w == width as nat,
                h == height as nat,
                side >= MIN_WINDOW,
                xl == xs@.len(),
                yl == ys@.len(),
                1 <= xl,
                sw.len() == yl * xl,
                forall|i: int| 0 <= i < xl ==> #[trigger] xs@[i] == spec_window_positions(w, side as nat, stride as nat)[i],
                forall|i: int| 0 <= i < yl ==> #[trigger] ys@[i] == spec_window_positions(h, side as nat, stride as nat)[i],
                forall|i: int| 0 <= i < xl ==> #[trigger] xs@[i] == 0 || xs@[i] + side <= width,
                forall|i: int| 0 <= i < yl ==> #[trigger] ys@[i] == 0 || ys@[i] + side <= height,
                side <= width ==> forall|i: int| 0 <= i < xl ==> #[trigger] xs@[i] + side <= width,
                side <= height ==> forall|i: int| 0 <= i < yl ==> #[trigger] ys@[i] + side <= height,
                xs@.len() == spec_window_positions(w, side as nat, stride as nat).len(),
                ys@.len() == spec_window_positions(h, side as nat, stride as nat).len(),
                yi < yl,
                xi <= xl,
                out@.len() == base + yi * xl + xi,
                forall|i: int| 0 <= i < base ==> #[trigger] out@[i] == start[i],
                forall|k: int| 0 <= k < yi * xl + xi ==> window_view(#[trigger] out@[base + k]) == sw[k],
                forall|i: int| 0 <= i < out@.len() ==> window_inside(#[trigger] out@[i], w, h)
                    && out@[i].side >= MIN_WINDOW,
            decreases xl - xi,
        {
            let ghost k = yi * xl + xi;
            proof {
                vstd::arithmetic::div_mod::lemma_fundamental_div_mod_converse(k, xl, yi as int, xi as int);
                assert(k < yl * xl) by (nonlinear_arith)
                    requires
                        k == yi * xl + xi,
                        xi < xl,
                        yi < yl,
                ;
            }
            let win = SearchWindow { x: xs[xi], y: ys[yi], side };
            out.push(win);
            proof {
                assert(xs@[xi as int] == spec_window_positions(w, side as nat, stride as nat)[xi as int]);
                assert(ys@[yi as int] == spec_window_positions(h, side as nat, stride as nat)[yi as int]);
                assert(window_view(win) == sw[k]);
                assert(out@[base + k] == win);
            }
            xi += 1;
        }
        proof {
            assert((yi + 1) * xl == yi * xl + xl) by (nonlinear_arith);
        }
        yi += 1;
    }
}

} // verus!
