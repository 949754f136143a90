use vstd::prelude::*;

verus! {

/// Stop fractions are numerators over this denominator: `FRAC_ONE` stands for 1.0.
pub const FRAC_ONE: u32 = 10000;

/// A gradient stop: a position in `[0, FRAC_ONE]` and the color placed there.
pub struct Color {
    pub frac: u32,
    pub r: u8,
    pub g: u8,
    pub b: u8,
}

impl Color {
    pub fn new(frac: u32, r: u8, g: u8, b: u8) -> (c: Color)
        ensures
            c == (Color { frac, r, g, b }),
    {
        Color { frac, r, g, b }
    }
}

/// The value of a pixel packed as `0x00RRGGBB`.
pub open spec fn packed(r: u8, g: u8, b: u8) -> u32 {
    (r as int * 65536 + g as int * 256 + b as int) as u32
}

/// The packed color of a stop.
pub open spec fn stop_color(c: Color) -> u32 {
    packed(c.r, c.g, c.b)
}

/// A usable gradient: at least two stops, the first at 0, the last at `FRAC_ONE`,
/// fractions strictly increasing.
pub open spec fn well_formed(g: Seq<Color>) -> bool {
    &&& g.len() >= 2
    &&& g[0].frac == 0
    &&& g[g.len() - 1].frac == FRAC_ONE
    &&& forall|i: int, j: int|
        #![trigger g[i].frac, g[j].frac]
        0 <= i < j < g.len() ==> g[i].frac < g[j].frac
}

/// Whether stop `c` lies at or beyond the escape fraction `n / total`.
pub open spec fn reaches(c: Color, n: int, total: int) -> bool {
    c.frac * total >= n * FRAC_ONE
}

/// The least index from `start` on of a stop that reaches `n / total`; `g.len()` if none does.
pub open spec fn first_reaching(g: Seq<Color>, n: int, total: int, start: int) -> int
    decreases g.len() - start,
{
    if start >= g.len() {
        g.len() as int
    } else if reaches(g[start], n, total) {
        start
    } else {
        first_reaching(g, n, total, start + 1)
    }
}

/// The stop that closes the segment holding `n / total`; the scan starts at the second stop.
pub open spec fn segment(g: Seq<Color>, n: int, total: int) -> int {
    first_reaching(g, n, total, 1)
}

/// One channel at `n / total` on the segment from fraction `fa` (channel `ca`) to `fb` (channel
/// `cb`): `ca + (cb - ca) * t` with `t = (n / total - fa / FRAC_ONE) / ((fb - fa) / FRAC_ONE)`,
/// truncated toward zero (the value is never negative, so this is the floor).
pub open spec fn lerp_channel(ca: u8, cb: u8, fa: u32, fb: u32, n: int, total: int) -> int {
    let num = n * FRAC_ONE - fa * total;
    let den = (fb - fa) * total;
    (ca * den + (cb - ca) * num) / den
}

/// The packed color at `n / total` between stops `a` and `b`.
pub open spec fn interpolated(a: Color, b: Color, n: int, total: int) -> u32 {
    packed(
        lerp_channel(a.r, b.r, a.frac, b.frac, n, total) as u8,
        lerp_channel(a.g, b.g, a.frac, b.frac, n, total) as u8,
        lerp_channel(a.b, b.b, a.frac, b.frac, n, total) as u8,
    )
}

/// The color that iteration count `n` out of `total` gets from gradient `g`: interpolated on
/// the first segment whose end reaches `n / total`, black where there is no such segment
/// (`total` zero, or `n` beyond `total`).
pub open spec fn gradient_color(g: Seq<Color>, n: int, total: int) -> u32 {
    let i = segment(g, n, total);
    if total == 0 || i >= g.len() {
        packed(0, 0, 0)
    } else {
        interpolated(g[i - 1], g[i], n, total)
    }
}

/// Packs three 8-bit channels into one pixel value, `0x00RRGGBB`.
pub fn as_u32_rgb(r: u8, g: u8, b: u8) -> (p: u32)
    ensures
        p == packed(r, g, b),
        p < 0x0100_0000,
{
    let (r, g, b) = (r as u32, g as u32, b as u32);
    let p = (r << 16) | (g << 8) | b;
    assert(p == r * 65536 + g * 256 + b && p < 0x0100_0000) by (bit_vector)
        requires
            r < 256,
            g < 256,
            b < 256,
            p == (r << 16) | (g << 8) | b,
    ;
    p
}

proof fn lemma_lerp_bounds(ca: u8, cb: u8, fa: u32, fb: u32, n: int, total: int)
    requires
        fa < fb,
        total > 0,
        fa * total <= n * FRAC_ONE <= fb * total,
    ensures
        ca <= cb ==> ca <= lerp_channel(ca, cb, fa, fb, n, total) <= cb,
        cb <= ca ==> cb <= lerp_channel(ca, cb, fa, fb, n, total) <= ca,
{
    let num = n * FRAC_ONE - fa * total;
    let den = (fb - fa) * total;
    let x = ca * den + (cb - ca) * num;
    assert(den > 0 && 0 <= num <= den) by (nonlinear_arith)
        requires
            fa < fb,
            total > 0,
            num == n * FRAC_ONE - fa * total,
            den == (fb - fa) * total,
            fa * total <= n * FRAC_ONE <= fb * total,
    ;
    assert(x == ca * (den - num) + cb * num) by (nonlinear_arith)
        requires
            x == ca * den + (cb - ca) * num,
    ;
    let lo: int = if ca <= cb { ca as int } else { cb as int };
    let hi: int = if ca <= cb { cb as int } else { ca as int };
    assert(lo * den <= x <= hi * den) by (nonlinear_arith)
        requires
            x == ca * (den - num) + cb * num,
            0 <= num <= den,
            lo <= ca <= hi,
            lo <= cb <= hi,
    ;
    assert(lo <= x / den <= hi) by (nonlinear_arith)
        requires
            lo * den <= x <= hi * den,
            den > 0,
    ;
}

/// One channel of the interpolation, in exact integer arithmetic.
fn lerp_u8(ca: u8, cb: u8, fa: u32, fb: u32, n: u32, total: u32) -> (c: u8)
    requires
        fa < fb <= FRAC_ONE,
        total > 0,
        fa * total <= n * FRAC_ONE <= fb * total,
    ensures
        c == lerp_channel(ca, cb, fa, fb, n as int, total as int),
{
    proof {
        lemma_lerp_bounds(ca, cb, fa, fb, n as int, total as int);
    }
    assert(0 < (fb - fa) * total <= 10000 * 0xffff_ffff) by (nonlinear_arith)
        requires
            0 < fb - fa <= 10000,
            0 < total <= 0xffff_ffff,
    ;
    let num: u64 = n as u64 * FRAC_ONE as u64 - fa as u64 * total as u64;
    let den: u64 = (fb - fa) as u64 * total as u64;
    assert(num <= den) by (nonlinear_arith)
        requires
            num == n * FRAC_ONE - fa * total,
            den == (fb - fa) * total,
            n * FRAC_ONE <= fb * total,
    ;
    assert(den <= 10000 * 0xffff_ffff) by (nonlinear_arith)
        requires
            den == (fb - fa) * total,
            fb - fa <= 10000,
            total <= 0xffff_ffff,
    ;
    assert(ca * (den - num) <= 255 * den && cb * num <= 255 * den) by (nonlinear_arith)
        requires
            ca <= 255,
            cb <= 255,
            num <= den,
    ;
    let x: u64 = ca as u64 * (den - num) + cb as u64 * num;
    assert(x == ca * den + (cb - ca) * num) by (nonlinear_arith)
        requires
            x == ca * (den - num) + cb * num,
    ;
    (x / den) as u8
}

/// Maps iteration count `n` out of `total` to a color of `gradient`: the escape fraction
/// `n / total` falls in the first segment whose closing stop is at or beyond it, and each
/// channel is interpolated linearly on that segment and truncated. Black where no segment
/// holds the fraction.
pub fn color_map(n: u32, total: u32, gradient: &Vec<Color>) -> (p: u32)
    requires
        well_formed(gradient@),
    ensures
        p == gradient_color(gradient@, n as int, total as int),
{
    if total == 0 {
        return as_u32_rgb(0, 0, 0);
    }
    let ghost g = gradient@;
    let mut i: usize = 1;
    while i < gradient.len()
        invariant
            1 <= i <= g.len(),
            g == gradient@,
            well_formed(g),
            total > 0,
            segment(g, n as int, total as int) == first_reaching(g, n as int, total as int, i as int),
            i == 1 || !reaches(g[i - 1], n as int, total as int),
        decreases g.len() - i,
    {
        let next = &gradient[i];
        let prev = &gradient[i - 1];
        assert(g[i as int].frac <= FRAC_ONE) by {
            if i < g.len() - 1 {
                assert(g[i as int].frac < g[g.len() - 1].frac);
            }
        }
        assert(next.frac * total <= 10000 * 0xffff_ffff) by (nonlinear_arith)
            requires
                next.frac <= 10000,
                total <= 0xffff_ffff,
        ;
        if next.frac as u64 * total as u64 >= n as u64 * FRAC_ONE as u64 {
            assert(g[i - 1].frac < g[i as int].frac);
            assert(prev.frac * total <= n * FRAC_ONE) by {
                if i == 1 {
                    assert(prev.frac * total <= n * FRAC_ONE) by (nonlinear_arith)
                        requires
                            prev.frac == 0,
                    ;
                }
            }
            let r = lerp_u8(prev.r, next.r, prev.frac, next.frac, n, total);
            let gr = lerp_u8(prev.g, next.g, prev.frac, next.frac, n, total);
            let b = lerp_u8(prev.b, next.b, prev.frac, next.frac, n, total);
            return as_u32_rgb(r, gr, b);
        }
        i += 1;
    }
    as_u32_rgb(0, 0, 0)
}

/// The gradient the explorer starts with: deep blue through light blue, white, orange and dark
/// green, back to deep blue.
pub open spec fn default_stops() -> Seq<Color> {
    seq![
        Color { frac: 0, r: 0, g: 7, b: 100 },
        Color { frac: 1600, r: 32, g: 107, b: 203 },
        Color { frac: 4200, r: 237, g: 255, b: 255 },
        Color { frac: 6425, r: 255, g: 170, b: 0 },
        Color { frac: 8575, r: 0, g: 70, b: 0 },
        Color { frac: 10000, r: 0, g: 7, b: 100 },
    ]
}

/// Builds the explorer's default gradient.
pub fn default_gradient() -> (g: Vec<Color>)
    ensures
        g@ == default_stops(),
        well_formed(g@),
{
    let g = vec![
        Color::new(0, 0, 7, 100),
        Color::new(1600, 32, 107, 203),
        Color::new(4200, 237, 255, 255),
        Color::new(6425, 255, 170, 0),
        Color::new(8575, 0, 70, 0),
        Color::new(10000, 0, 7, 100),
    ];
    assert(g@ =~= default_stops());
    assert forall|i: int, j: int| 0 <= i < j < g@.len() implies g@[i].frac < g@[j].frac by {
        assert(i == 0 || i == 1 || i == 2 || i == 3 || i == 4);
        assert(j == 1 || j == 2 || j == 3 || j == 4 || j == 5);
    }
    g
}

/// Tells whether a table of stops is a usable gradient.
pub fn is_well_formed(g: &Vec<Color>) -> (ok: bool)
    ensures
        ok == well_formed(g@),
{
    let len = g.len();
    if len < 2 || g[0].frac != 0 || g[len - 1].frac != FRAC_ONE {
        return false;
    }
    let mut i: usize = 1;
    while i < len
        invariant
            1 <= i <= len,
            len == g@.len(),
            forall|a: int, b: int|
                #![trigger g@[a].frac, g@[b].frac]
                0 <= a < b < i ==> g@[a].frac < g@[b].frac,
        decreases len - i,
    {
        if g[i - 1].frac >= g[i].frac {
            assert(!well_formed(g@)) by {
                assert(g@[i - 1].frac >= g@[i as int].frac);
            }
            return false;
        }
        assert forall|a: int, b: int|
            #![trigger g@[a].frac, g@[b].frac]
            0 <= a < b < i + 1 implies g@[a].frac < g@[b].frac by {
            if b == i && a < i - 1 {
                assert(g@[a].frac < g@[i - 1].frac);
            }
        }
        i += 1;
    }
    true
}

/// Colors a whole frame: pixel `k` gets the color of iteration count `counts[k]` out of
/// `total`. Every pixel of the buffer is overwritten.
pub fn color_frame(counts: &Vec<u32>, total: u32, gradient: &Vec<Color>, buffer: &mut Vec<u32>)
    requires
        well_formed(gradient@),
        old(buffer)@.len() == counts@.len(),
    ensures
        final(buffer)@.len() == counts@.len(),
        forall|k: int|
            0 <= k < counts@.len() ==> #[trigger] final(buffer)@[k] == gradient_color(
                gradient@,
                counts@[k] as int,
                total as int,
            ),
{
    let mut k: usize = 0;
    while k < counts.len()
        invariant
            0 <= k <= counts@.len(),
            buffer@.len() == counts@.len(),
            well_formed(gradient@),
            forall|m: int|
                0 <= m < k ==> #[trigger] buffer@[m] == gradient_color(
                    gradient@,
                    counts@[m] as int,
                    total as int,
                ),
        decreases counts@.len() - k,
    {
        let p = color_map(counts[k], total, gradient);
        buffer.set(k, p);
        k += 1;
    }
}

proof fn lemma_first_reaching(g: Seq<Color>, n: int, total: int, start: int)
    requires
        0 <= start <= g.len(),
    ensures
        start <= first_reaching(g, n, total, start) <= g.len(),
        first_reaching(g, n, total, start) < g.len() ==> reaches(
            g[first_reaching(g, n, total, start)],
            n,
            total,
        ),
        forall|k: int|
            start <= k < first_reaching(g, n, total, start) ==> !reaches(#[trigger] g[k], n, total),
    decreases g.len() - start,
{
    if start < g.len() && !reaches(g[start], n, total) {
        lemma_first_reaching(g, n, total, start + 1);
    }
}

proof fn lemma_lerp_at_ends(ca: u8, cb: u8, fa: u32, fb: u32, n: int, total: int)
    requires
        fa < fb,
        total > 0,
    ensures
        n * FRAC_ONE == fa * total ==> lerp_channel(ca, cb, fa, fb, n, total) == ca,
        n * FRAC_ONE == fb * total ==> lerp_channel(ca, cb, fa, fb, n, total) == cb,
{
    let num = n * FRAC_ONE - fa * total;
    let den = (fb - fa) * total;
    assert(den > 0) by (nonlinear_arith)
        requires
            fa < fb,
            total > 0,
            den == (fb - fa) * total,
    ;
    if n * FRAC_ONE == fa * total {
        assert((ca * den + (cb - ca) * num) / den == ca) by (nonlinear_arith)
            requires
                num == 0,
                den > 0,
        ;
    }
    if n * FRAC_ONE == fb * total {
        assert(num == den) by (nonlinear_arith)
            requires
                num == n * FRAC_ONE - fa * total,
                den == (fb - fa) * total,
                n * FRAC_ONE == fb * total,
        ;
        assert((ca * den + (cb - ca) * num) / den == cb) by (nonlinear_arith)
            requires
                num == den,
                den > 0,
        ;
    }
}

/// Whether `x` lies between `a` and `b`, whichever is larger.
pub open spec fn between(x: int, a: u8, b: u8) -> bool {
    (a <= x <= b) || (b <= x <= a)
}

/// On a well-formed gradient every escape fraction `n / total` in `[0, 1]` falls in a
/// segment: the scan finds two neighbouring stops that bracket the fraction, the color is
/// interpolated between them rather than the black fallback, and each channel lies between
/// the channels of those two stops.
pub proof fn lemma_every_fraction_in_segment(g: Seq<Color>, n: int, total: int)
    requires
        well_formed(g),
        0 < total,
        0 <= n <= total,
    ensures
        1 <= segment(g, n, total) < g.len(),
        g[segment(g, n, total) - 1].frac * total <= n * FRAC_ONE,
        n * FRAC_ONE <= g[segment(g, n, total)].frac * total,
        gradient_color(g, n, total) == interpolated(
            g[segment(g, n, total) - 1],
            g[segment(g, n, total)],
            n,
            total,
        ),
        ({
            let a = g[segment(g, n, total) - 1];
            let b = g[segment(g, n, total)];
            &&& between(lerp_channel(a.r, b.r, a.frac, b.frac, n, total), a.r, b.r)
            &&& between(lerp_channel(a.g, b.g, a.frac, b.frac, n, total), a.g, b.g)
            &&& between(lerp_channel(a.b, b.b, a.frac, b.frac, n, total), a.b, b.b)
        }),
{
    let last = g.len() - 1;
    lemma_first_reaching(g, n, total, 1);
    assert(reaches(g[last], n, total)) by (nonlinear_arith)
        requires
            g[last].frac == FRAC_ONE,
            n <= total,
    ;
    let i = segment(g, n, total);
    assert(i < g.len());
    let a = g[i - 1];
    let b = g[i];
    assert(a.frac < b.frac);
    if i > 1 {
        assert(!reaches(g[i - 1], n, total));
    } else {
        assert(a.frac * total <= n * FRAC_ONE) by (nonlinear_arith)
            requires
                a.frac == 0,
                n >= 0,
        ;
    }
    lemma_lerp_bounds(a.r, b.r, a.frac, b.frac, n, total);
    lemma_lerp_bounds(a.g, b.g, a.frac, b.frac, n, total);
    lemma_lerp_bounds(a.b, b.b, a.frac, b.frac, n, total);
}

/// Iteration count zero gets exactly the first stop's color, and count `total` (fraction
/// one) exactly the last stop's.
pub proof fn lemma_endpoint_colors(g: Seq<Color>, total: int)
    requires
        well_formed(g),
        total > 0,
    ensures
        gradient_color(g, 0, total) == stop_color(g[0]),
        gradient_color(g, total, total) == stop_color(g[g.len() - 1]),
{
    let last = g.len() - 1;
    assert(g[0].frac < g[1].frac);
    assert(reaches(g[1], 0, total)) by (nonlinear_arith)
        requires
            g[1].frac >= 0,
            total > 0,
    ;
    assert(segment(g, 0, total) == 1);
    let (a, b) = (g[0], g[1]);
    lemma_lerp_at_ends(a.r, b.r, a.frac, b.frac, 0, total);
    lemma_lerp_at_ends(a.g, b.g, a.frac, b.frac, 0, total);
    lemma_lerp_at_ends(a.b, b.b, a.frac, b.frac, 0, total);

    lemma_first_reaching(g, total, total, 1);
    let i = segment(g, total, total);
    assert(reaches(g[last], total, total)) by (nonlinear_arith)
        requires
            g[last].frac == FRAC_ONE,
    ;
    if i < last {
        assert(g[i].frac < g[last].frac);
        assert(!reaches(g[i], total, total)) by (nonlinear_arith)
            requires
                g[i].frac < FRAC_ONE,
                total > 0,
        ;
    }
    assert(i == last);
    let (a, b) = (g[last - 1], g[last]);
    assert(a.frac < b.frac);
    lemma_lerp_at_ends(a.r, b.r, a.frac, b.frac, total, total);
    lemma_lerp_at_ends(a.g, b.g, a.frac, b.frac, total, total);
    lemma_lerp_at_ends(a.b, b.b, a.frac, b.frac, total, total);
}

} // verus!
