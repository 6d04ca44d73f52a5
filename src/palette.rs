//! Colouring of an escape-time grid by a cumulative histogram.
//!
//! The escape times below the cap that occur in a grid are the grid's hue
//! stops. Each stop carries the number of escaped pixels whose escape time is
//! at most its own, so that its hue can be placed by how common the escape
//! times up to it are. Pixels that reached the cap are black.
use vstd::prelude::*;
use crate::MAX_ITERATIONS;

verus! {

/// An RGB triple.
pub type Rgb = (u8, u8, u8);

/// The number of values in `g` that are at most `k`.
pub open spec fn count_le(g: Seq<u32>, k: int) -> nat
    decreases g.len(),
{
    if g.len() == 0 {
        0
    } else {
        count_le(g.drop_last(), k) + if g.last() <= k { 1nat } else { 0nat }
    }
}

/// The number of values in `g` equal to `k`.
pub open spec fn count_eq(g: Seq<u32>, k: int) -> nat
    decreases g.len(),
{
    if g.len() == 0 {
        0
    } else {
        count_eq(g.drop_last(), k) + if g.last() == k { 1nat } else { 0nat }
    }
}

/// The number of pixels of `g` that escaped before the cap.
pub open spec fn num_escaped(g: Seq<u32>) -> nat {
    count_le(g, MAX_ITERATIONS - 1)
}

/// The hue stops of `g` from escape time `k` up: each escape time below the
/// cap that occurs in `g`, in ascending order, with the number of pixels whose
/// escape time is at most it.
pub open spec fn stops_from(g: Seq<u32>, k: nat) -> Seq<(u32, nat)>
    decreases MAX_ITERATIONS - k,
{
    if k >= MAX_ITERATIONS {
        seq![]
    } else if count_eq(g, k as int) > 0 {
        seq![(k as u32, count_le(g, k as int))] + stops_from(g, k + 1)
    } else {
        stops_from(g, k + 1)
    }
}

/// All hue stops of `g`.
pub open spec fn hue_stops_of(g: Seq<u32>) -> Seq<(u32, nat)> {
    stops_from(g, 0)
}

/// Hue stops as held in a `Vec`, with their counts as `nat`.
pub open spec fn stops_view(s: Seq<(u32, usize)>) -> Seq<(u32, nat)> {
    s.map_values(|p: (u32, usize)| (p.0, p.1 as nat))
}

proof fn lemma_counts_bounded(g: Seq<u32>, k: int)
    ensures
        count_le(g, k) <= g.len(),
        count_eq(g, k) <= g.len(),
    decreases g.len(),
{
    if g.len() > 0 {
        lemma_counts_bounded(g.drop_last(), k);
    }
}

proof fn lemma_count_le_step(g: Seq<u32>, k: int)
    ensures
        count_le(g, k) == count_le(g, k - 1) + count_eq(g, k),
    decreases g.len(),
{
    if g.len() > 0 {
        lemma_count_le_step(g.drop_last(), k);
    }
}

proof fn lemma_count_le_below_zero(g: Seq<u32>)
    ensures
        count_le(g, -1) == 0,
    decreases g.len(),
{
    if g.len() > 0 {
        lemma_count_le_below_zero(g.drop_last());
    }
}

proof fn lemma_count_le_monotonic(g: Seq<u32>, k1: int, k2: int)
    requires
        k1 <= k2,
    ensures
        count_le(g, k1) <= count_le(g, k2),
    decreases g.len(),
{
    if g.len() > 0 {
        lemma_count_le_monotonic(g.drop_last(), k1, k2);
    }
}

proof fn lemma_stops_from_counts(g: Seq<u32>, k: nat)
    ensures
        forall|s: int|
            0 <= s < stops_from(g, k).len() ==> 0 < (#[trigger] stops_from(g, k)[s]).1
                <= num_escaped(g),
    decreases MAX_ITERATIONS - k,
{
    if k < MAX_ITERATIONS {
        lemma_stops_from_counts(g, k + 1);
        lemma_count_le_step(g, k as int);
        lemma_count_le_monotonic(g, k as int, MAX_ITERATIONS - 1);
        lemma_count_le_monotonic(g, -1, k as int - 1);
        lemma_count_le_below_zero(g);
        let rest = stops_from(g, k + 1);
        if count_eq(g, k as int) > 0 {
            assert forall|s: int| 0 <= s < stops_from(g, k).len() implies 0 < (
            #[trigger] stops_from(g, k)[s]).1 <= num_escaped(g) by {
                if s > 0 {
                    assert(stops_from(g, k)[s] == rest[s - 1]);
                }
            }
        }
    }
}

/// Every hue stop counts at least one pixel and at most all escaped pixels,
/// so the share of the escaped pixels that it stands for is well defined.
pub proof fn lemma_stop_counts_in_range(g: Seq<u32>)
    ensures
        forall|s: int|
            0 <= s < hue_stops_of(g).len() ==> 0 < (#[trigger] hue_stops_of(g)[s]).1
                <= num_escaped(g),
{
    lemma_stops_from_counts(g, 0);
}

/// How many pixels of `grid` have each escape time below the cap.
pub fn histogram(grid: &Vec<u32>) -> (h: Vec<usize>)
    ensures
        h@.len() == MAX_ITERATIONS,
        forall|k: int| 0 <= k < MAX_ITERATIONS ==> h@[k] == count_eq(grid@, k),
{
    let mut h: Vec<usize> = Vec::new();
    let mut k: u32 = 0;
    while k < MAX_ITERATIONS
        invariant
            k <= MAX_ITERATIONS,
            h@.len() == k,
            forall|j: int| 0 <= j < k ==> h@[j] == 0,
        decreases MAX_ITERATIONS - k,
    {
        h.push(0);
        k = k + 1;
    }
    let mut i: usize = 0;
    while i < grid.len()
        invariant
            i <= grid@.len(),
            h@.len() == MAX_ITERATIONS,
            forall|j: int| 0 <= j < MAX_ITERATIONS ==> h@[j] == count_eq(grid@.take(i as int), j),
        decreases grid@.len() - i,
    {
        let v = grid[i];
        proof {
            let t = grid@.take(i as int + 1);
            assert(t.drop_last() =~= grid@.take(i as int));
            lemma_counts_bounded(grid@.take(i as int), v as int);
        }
        if v < MAX_ITERATIONS {
            let c = h[v as usize];
            h.set(v as usize, c + 1);
        }
        i = i + 1;
    }
    proof {
        assert(grid@.take(grid@.len() as int) =~= grid@);
    }
    h
}

/// The number of pixels of `grid` that escaped before the cap.
pub fn escaped_count(grid: &Vec<u32>) -> (n: usize)
    ensures
        n == num_escaped(grid@),
{
    let mut n: usize = 0;
    let mut i: usize = 0;
    while i < grid.len()
        invariant
            i <= grid@.len(),
            n == count_le(grid@.take(i as int), MAX_ITERATIONS - 1),
        decreases grid@.len() - i,
    {
        proof {
            let t = grid@.take(i as int + 1);
            assert(t.drop_last() =~= grid@.take(i as int));
            lemma_counts_bounded(grid@.take(i as int), MAX_ITERATIONS - 1);
        }
        if grid[i] < MAX_ITERATIONS {
            n = n + 1;
        }
        i = i + 1;
    }
    proof {
        assert(grid@.take(grid@.len() as int) =~= grid@);
    }
    n
}

/// The hue stops of `grid`: its escape times below the cap, ascending, each
/// with the number of pixels that escaped at or before it.
pub fn hue_stops(grid: &Vec<u32>) -> (stops: Vec<(u32, usize)>)
    ensures
        stops_view(stops@) == hue_stops_of(grid@),
        forall|a: int| 0 <= a < stops@.len() ==> stops@[a].0 < MAX_ITERATIONS,
        forall|a: int, b: int| 0 <= a < b < stops@.len() ==> stops@[a].0 < stops@[b].0,
{
    let n: usize = grid.len();
    let h = histogram(grid);
    let mut stops: Vec<(u32, usize)> = Vec::new();
    let mut cum: usize = 0;
    let mut k: u32 = 0;
    proof {
        lemma_count_le_below_zero(grid@);
    }
    while k < MAX_ITERATIONS
        invariant
            k <= MAX_ITERATIONS,
            n == grid@.len(),
            h@.len() == MAX_ITERATIONS,
            forall|j: int| 0 <= j < MAX_ITERATIONS ==> h@[j] == count_eq(grid@, j),
            cum == count_le(grid@, k - 1),
            hue_stops_of(grid@) == stops_view(stops@) + stops_from(grid@, k as nat),
            forall|a: int| 0 <= a < stops@.len() ==> stops@[a].0 < k,
            forall|a: int, b: int| 0 <= a < b < stops@.len() ==> stops@[a].0 < stops@[b].0,
        decreases MAX_ITERATIONS - k,
    {
        proof {
            lemma_count_le_step(grid@, k as int);
            lemma_counts_bounded(grid@, k as int);
        }
        let c = h[k as usize];
        cum = cum + c;
        let ghost before = stops@;
        if c > 0 {
            stops.push((k, cum));
            proof {
                assert(stops_view(stops@) =~= stops_view(before) + seq![(k, cum as nat)]);
                assert(stops_view(stops@) + stops_from(grid@, (k + 1) as nat) =~= stops_view(before)
                    + stops_from(grid@, k as nat));
            }
        }
        k = k + 1;
    }
    proof {
        assert(stops_view(stops@) + stops_from(grid@, k as nat) =~= stops_view(stops@));
    }
    stops
}

/// The colour of a pixel with escape time `v`: black at the cap, else the
/// palette's colour for `v`.
pub open spec fn pixel_rgb(v: u32, palette: Seq<Rgb>) -> Rgb {
    if v == MAX_ITERATIONS {
        (0, 0, 0)
    } else {
        palette[v as int]
    }
}

/// Byte `j` of the RGBA image of `g`: four bytes per pixel, row-major, each
/// pixel red, green, blue and an opaque alpha.
pub open spec fn rgba_byte(g: Seq<u32>, palette: Seq<Rgb>, j: int) -> u8 {
    let c = pixel_rgb(g[j / 4], palette);
    if j % 4 == 0 {
        c.0
    } else if j % 4 == 1 {
        c.1
    } else if j % 4 == 2 {
        c.2
    } else {
        255
    }
}

/// The RGBA image of the escape-time grid `g` under `palette`.
pub open spec fn colorized(g: Seq<u32>, palette: Seq<Rgb>) -> Seq<u8> {
    Seq::new(4 * g.len(), |j: int| rgba_byte(g, palette, j))
}

/// Whether escape time `k` is the key of one of `stops`.
pub open spec fn is_stop_key(stops: Seq<(u32, nat)>, k: int) -> bool {
    exists|s: int| 0 <= s < stops.len() && stops[s].0 == k
}

/// `p` holds one colour per escape time below the cap: the colour given for
/// each stop, black for escape times that are no stop.
pub open spec fn is_palette_for(p: Seq<Rgb>, stops: Seq<(u32, nat)>, colors: Seq<Rgb>) -> bool {
    &&& p.len() == MAX_ITERATIONS
    &&& forall|s: int| 0 <= s < stops.len() ==> p[stops[s].0 as int] == colors[s]
    &&& forall|k: int|
        0 <= k < MAX_ITERATIONS && !is_stop_key(stops, k) ==> p[k] == (0u8, 0u8, 0u8)
}

/// One colour per escape time below the cap: the colour given for each stop,
/// black for escape times that are no stop.
pub fn palette(stops: &Vec<(u32, usize)>, colors: &Vec<Rgb>) -> (p: Vec<Rgb>)
    requires
        colors@.len() == stops@.len(),
        forall|a: int| 0 <= a < stops@.len() ==> stops@[a].0 < MAX_ITERATIONS,
        forall|a: int, b: int| 0 <= a < b < stops@.len() ==> stops@[a].0 < stops@[b].0,
    ensures
        is_palette_for(p@, stops_view(stops@), colors@),
{
    let mut p: Vec<Rgb> = Vec::new();
    let mut k: u32 = 0;
    while k < MAX_ITERATIONS
        invariant
            k <= MAX_ITERATIONS,
            p@.len() == k,
            forall|j: int| 0 <= j < k ==> p@[j] == (0u8, 0u8, 0u8),
        decreases MAX_ITERATIONS - k,
    {
        p.push((0, 0, 0));
        k = k + 1;
    }
    let mut s: usize = 0;
    while s < stops.len()
        invariant
            s <= stops@.len(),
            colors@.len() == stops@.len(),
            forall|a: int| 0 <= a < stops@.len() ==> stops@[a].0 < MAX_ITERATIONS,
            forall|a: int, b: int| 0 <= a < b < stops@.len() ==> stops@[a].0 < stops@[b].0,
            p@.len() == MAX_ITERATIONS,
            forall|a: int| 0 <= a < s ==> p@[stops@[a].0 as int] == colors@[a],
            forall|k: int|
                0 <= k < MAX_ITERATIONS && !(exists|a: int| 0 <= a < s && stops@[a].0 == k)
                    ==> p@[k] == (0u8, 0u8, 0u8),
        decreases stops@.len() - s,
    {
        let key = stops[s].0;
        p.set(key as usize, colors[s]);
        s = s + 1;
    }
    proof {
        let v = stops_view(stops@);
        assert forall|a: int| 0 <= a < v.len() implies #[trigger] v[a].0 == stops@[a].0 by {}
        assert forall|k: int| 0 <= k < MAX_ITERATIONS && !is_stop_key(v, k) implies p@[k] == (
        0u8,
        0u8,
        0u8,
        ) by {
            assert forall|a: int| 0 <= a < stops@.len() implies stops@[a].0 != k by {
                assert(v[a].0 == stops@[a].0);
            }
        }
    }
    p
}

/// The RGBA image of `grid`: each pixel four bytes, row-major, opaque black
/// where the escape time is the cap and the palette's colour elsewhere.
pub fn colorize(grid: &Vec<u32>, palette: &Vec<Rgb>) -> (image: Vec<u8>)
    requires
        palette@.len() == MAX_ITERATIONS,
        forall|i: int| 0 <= i < grid@.len() ==> grid@[i] <= MAX_ITERATIONS,
        4 * grid@.len() <= usize::MAX,
    ensures
        image@ == colorized(grid@, palette@),
{
    let mut image: Vec<u8> = Vec::new();
    let mut i: usize = 0;
    while i < grid.len()
        invariant
            i <= grid@.len(),
            palette@.len() == MAX_ITERATIONS,
            forall|i: int| 0 <= i < grid@.len() ==> grid@[i] <= MAX_ITERATIONS,
            4 * grid@.len() <= usize::MAX,
            image@.len() == 4 * i,
            forall|j: int| 0 <= j < 4 * i ==> image@[j] == rgba_byte(grid@, palette@, j),
        decreases grid@.len() - i,
    {
        let v = grid[i];
        let c: Rgb = if v == MAX_ITERATIONS {
            (0, 0, 0)
        } else {
            palette[v as usize]
        };
        image.push(c.0);
        image.push(c.1);
        image.push(c.2);
        image.push(255);
        proof {
            assert forall|j: int| 4 * i <= j < 4 * i + 4 implies #[trigger] image@[j] == rgba_byte(
                grid@,
                palette@,
                j,
            ) by {
                assert(j / 4 == i && j % 4 == j - 4 * i);
            }
        }
        i = i + 1;
    }
    proof {
        assert(image@ =~= colorized(grid@, palette@));
    }
    image
}

proof fn lemma_in_set_counts(g: Seq<u32>, k: int)
    requires
        forall|i: int| 0 <= i < g.len() ==> g[i] == MAX_ITERATIONS,
        k < MAX_ITERATIONS,
    ensures
        count_le(g, k) == 0,
        count_eq(g, k) == 0,
    decreases g.len(),
{
    if g.len() > 0 {
        lemma_in_set_counts(g.drop_last(), k);
    }
}

proof fn lemma_in_set_no_stops(g: Seq<u32>, k: nat)
    requires
        forall|i: int| 0 <= i < g.len() ==> g[i] == MAX_ITERATIONS,
    ensures
        stops_from(g, k).len() == 0,
    decreases MAX_ITERATIONS - k,
{
    if k < MAX_ITERATIONS {
        lemma_in_set_counts(g, k as int);
        lemma_in_set_no_stops(g, k + 1);
    }
}

/// A grid whose pixels all reached the cap has no escaped pixel and no hue
/// stop, and its image is opaque black throughout, whatever the palette.
pub proof fn lemma_all_in_set_is_black(g: Seq<u32>, palette: Seq<Rgb>)
    requires
        forall|i: int| 0 <= i < g.len() ==> g[i] == MAX_ITERATIONS,
    ensures
        num_escaped(g) == 0,
        hue_stops_of(g).len() == 0,
        colorized(g, palette).len() == 4 * g.len(),
        forall|j: int|
            0 <= j < 4 * g.len() ==> #[trigger] colorized(g, palette)[j] == if j % 4 == 3 {
                255u8
            } else {
                0u8
            },
{
    lemma_in_set_counts(g, MAX_ITERATIONS - 1);
    lemma_in_set_no_stops(g, 0);
    assert forall|j: int| 0 <= j < 4 * g.len() implies #[trigger] colorized(g, palette)[j] == if j
        % 4 == 3 {
        255u8
    } else {
        0u8
    } by {
        assert(0 <= j / 4 < g.len());
    }
}

/// Colouring depends on nothing but its inputs: equal grids give equal hue
/// stops and escaped counts, equal stops and colours admit one palette only,
/// and equal grids under equal palettes give equal images.
pub proof fn lemma_colorize_deterministic(
    g1: Seq<u32>,
    g2: Seq<u32>,
    stops: Seq<(u32, nat)>,
    colors: Seq<Rgb>,
    p1: Seq<Rgb>,
    p2: Seq<Rgb>,
)
    requires
        g1 == g2,
        is_palette_for(p1, stops, colors),
        is_palette_for(p2, stops, colors),
    ensures
        hue_stops_of(g1) == hue_stops_of(g2),
        num_escaped(g1) == num_escaped(g2),
        p1 == p2,
        colorized(g1, p1) == colorized(g2, p2),
{
    assert forall|k: int| 0 <= k < MAX_ITERATIONS implies p1[k] == p2[k] by {
        if is_stop_key(stops, k) {
            let s = choose|s: int| 0 <= s < stops.len() && stops[s].0 == k;
            assert(p1[stops[s].0 as int] == colors[s]);
        }
    }
    assert(p1 =~= p2);
}

} // verus!
