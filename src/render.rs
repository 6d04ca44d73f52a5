//! A whole frame: sampling, then colouring by the cumulative histogram.
use vstd::prelude::*;
use crate::escape::{is_sampled, sample};
use crate::palette::{
    colorize, colorized, escaped_count, hue_stops, hue_stops_of, is_palette_for,
    lemma_stop_counts_in_range, num_escaped, palette, stops_view, Rgb,
};

verus! {

/// `colors` holds, for each stop, a colour that `hue_color` gives for the
/// stop's count of pixels out of `total` escaped ones.
pub open spec fn is_stop_colouring<H: Fn(usize, usize) -> Rgb>(
    colors: Seq<Rgb>,
    stops: Seq<(u32, nat)>,
    total: nat,
    hue_color: H,
) -> bool {
    &&& colors.len() == stops.len()
    &&& forall|s: int|
        0 <= s < stops.len() ==> hue_color.ensures(
            (stops[s].1 as usize, total as usize),
            #[trigger] colors[s],
        )
}

/// `image` is a frame of the `size` by `size` canvas: the image of its
/// escape-time grid under the palette that colours each hue stop by
/// `hue_color`.
pub open spec fn is_frame<
    S,
    Pt: Fn(u32, u32) -> S,
    St: Fn(S, S) -> S,
    Es: Fn(S) -> bool,
    H: Fn(usize, usize) -> Rgb,
>(
    image: Seq<u8>,
    size: u32,
    point: Pt,
    param: Option<S>,
    step: St,
    escaped: Es,
    hue_color: H,
) -> bool {
    exists|grid: Seq<u32>, colors: Seq<Rgb>, p: Seq<Rgb>|
        #![trigger is_palette_for(p, hue_stops_of(grid), colors)]
        {
            &&& is_sampled(grid, size, size, point, param, step, escaped)
            &&& is_stop_colouring(colors, hue_stops_of(grid), num_escaped(grid), hue_color)
            &&& is_palette_for(p, hue_stops_of(grid), colors)
            &&& colorized(grid, p) == image
        }
}

/// The RGBA frame of a `size` by `size` canvas. `hue_color` is asked for the
/// colour of each hue stop, with the stop's count and the number of escaped
/// pixels, and only ever with `0 < count <= total`.
pub fn render<
    S: Copy,
    Pt: Fn(u32, u32) -> S,
    St: Fn(S, S) -> S,
    Es: Fn(S) -> bool,
    H: Fn(usize, usize) -> Rgb,
>(
    size: u32,
    point: &Pt,
    param: Option<S>,
    step: &St,
    escaped: &Es,
    hue_color: &H,
) -> (image: Vec<u8>)
    requires
        4 * size * size <= usize::MAX,
        forall|px: u32, py: u32| point.requires((px, py)),
        forall|z: S, c: S| step.requires((z, c)),
        forall|z: S| escaped.requires((z,)),
        forall|count: usize, total: usize| 0 < count <= total ==> hue_color.requires((count, total)),
    ensures
        image@.len() == 4 * size * size,
        is_frame(image@, size, *point, param, *step, *escaped, *hue_color),
{
    proof {
        assert(size * size <= usize::MAX) by (nonlinear_arith)
            requires
                4 * size * size <= usize::MAX,
        ;
    }
    let grid = sample(size, size, point, param, step, escaped);
    proof {
        assert(4 * grid@.len() == 4 * size * size) by (nonlinear_arith)
            requires
                grid@.len() == size * size,
        ;
    }
    let stops = hue_stops(&grid);
    let total = escaped_count(&grid);
    proof {
        lemma_stop_counts_in_range(grid@);
    }
    let mut colors: Vec<Rgb> = Vec::new();
    let mut s: usize = 0;
    while s < stops.len()
        invariant
            s <= stops@.len(),
            colors@.len() == s,
            total == num_escaped(grid@),
            stops_view(stops@) == hue_stops_of(grid@),
            forall|a: int|
                0 <= a < hue_stops_of(grid@).len() ==> 0 < (#[trigger] hue_stops_of(grid@)[a]).1
                    <= num_escaped(grid@),
            forall|count: usize, total: usize|
                0 < count <= total ==> hue_color.requires((count, total)),
            forall|a: int|
                0 <= a < s ==> hue_color.ensures(
                    (stops@[a].1, total),
                    #[trigger] colors@[a],
                ),
        decreases stops@.len() - s,
    {
        let count = stops[s].1;
        proof {
            assert(hue_stops_of(grid@)[s as int] == stops_view(stops@)[s as int]);
        }
        let c = hue_color(count, total);
        colors.push(c);
        s = s + 1;
    }
    let p = palette(&stops, &colors);
    let image = colorize(&grid, &p);
    proof {
        assert forall|a: int| 0 <= a < stops@.len() implies hue_color.ensures(
            (hue_stops_of(grid@)[a].1 as usize, num_escaped(grid@) as usize),
            #[trigger] colors@[a],
        ) by {
            assert(hue_stops_of(grid@)[a] == stops_view(stops@)[a]);
        }
        assert(is_stop_colouring(colors@, hue_stops_of(grid@), num_escaped(grid@), *hue_color));
        assert(colorized(grid@, p@) == image@);
    }
    image
}

} // verus!
