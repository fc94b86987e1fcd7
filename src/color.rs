use vstd::prelude::*;

use vstd::arithmetic::div_mod::{lemma_div_denominator, lemma_fundamental_div_mod, lemma_fundamental_div_mod_converse};
use vstd::arithmetic::mul::lemma_mul_is_commutative;

verus! {

/// The four bytes of one opaque RGBA pixel.
pub open spec fn pixel_bytes(c: (u8, u8, u8)) -> Seq<u8> {
    seq![c.0, c.1, c.2, 255u8]
}

/// `s` written out `n` times in a row.
pub open spec fn repeat(s: Seq<u8>, n: nat) -> Seq<u8>
    decreases n,
{
    if n == 0 {
        Seq::empty()
    } else {
        repeat(s, (n - 1) as nat) + s
    }
}

/// Columns `[0, n)` of logical row `y`, each pixel widened `scaling` times.
pub open spec fn row_bytes(
    colors: Seq<(u8, u8, u8)>,
    width: nat,
    scaling: nat,
    y: nat,
    n: nat,
) -> Seq<u8>
    decreases n,
{
    if n == 0 {
        Seq::empty()
    } else {
        row_bytes(colors, width, scaling, y, (n - 1) as nat) + repeat(
            pixel_bytes(colors[width * y + n - 1]),
            scaling,
        )
    }
}

/// Logical rows `[from, to)` of a `width`-wide grid of colours, each row
/// widened and then repeated `scaling` times: nearest-neighbour upscaling.
pub open spec fn image_rows(
    colors: Seq<(u8, u8, u8)>,
    width: nat,
    scaling: nat,
    from: nat,
    to: nat,
) -> Seq<u8>
    decreases to,
{
    if to <= from {
        Seq::empty()
    } else {
        image_rows(colors, width, scaling, from, (to - 1) as nat) + repeat(
            row_bytes(colors, width, scaling, (to - 1) as nat, width),
            scaling,
        )
    }
}

/// The colour that a palette gives each point of a grid.
pub open spec fn colors_of<P: ColorTransformation>(
    palette: &P,
    iterations: Seq<usize>,
    max_iters: nat,
) -> Seq<(u8, u8, u8)> {
    Seq::new(iterations.len(), |i: int| palette.color_of(iterations[i] as nat, max_iters))
}

/// A palette: a rule from an iteration count and its bound to a colour, and
/// the shared assembly of upscaled RGBA rows from those colours.
pub trait ColorTransformation: Sized {
    /// The iteration counts this palette can colour under the given bound.
    spec fn accepts(&self, iterations: nat, max_iters: nat) -> bool;

    /// The colour of a point that took `iterations` steps under the bound.
    spec fn color_of(&self, iterations: nat, max_iters: nat) -> (u8, u8, u8);

    fn accepts_iterations(&self, iterations: usize, max_iters: usize) -> (r: bool)
        ensures
            r == self.accepts(iterations as nat, max_iters as nat),
    ;

    fn determine_color(&self, iterations: usize, max_iters: usize) -> (r: (u8, u8, u8))
        requires
            self.accepts(iterations as nat, max_iters as nat),
        ensures
            r == self.color_of(iterations as nat, max_iters as nat),
    ;

    /// Colours the first `width * height` iteration counts, read row-major, and
    /// upscales each point to a `scaling` by `scaling` block of RGBA pixels.
    fn transform(
        &self,
        iterations: &Vec<usize>,
        max_iters: usize,
        width: usize,
        height: usize,
        scaling: usize,
    ) -> (r: Vec<u8>)
        requires
            width * height <= iterations.len(),
            forall|i: int|
                0 <= i < iterations.len() ==> self.accepts(
                    #[trigger] iterations@[i] as nat,
                    max_iters as nat,
                ),
        ensures
            r@ == image_rows(
                Seq::new(
                    iterations@.len(),
                    |i: int| self.color_of(iterations@[i] as nat, max_iters as nat),
                ),
                width as nat,
                scaling as nat,
                0,
                height as nat,
            ),
    {
        let ghost colors = Seq::new(
            iterations@.len(),
            |i: int| self.color_of(iterations@[i] as nat, max_iters as nat),
        );
        let ghost w = width as nat;
        let ghost s = scaling as nat;
        let mut image_data: Vec<u8> = Vec::new();
        let mut y: usize = 0;
        while y < height
            invariant
                y <= height,
                width * height <= iterations.len(),
                forall|i: int|
                    0 <= i < iterations.len() ==> self.accepts(
                        #[trigger] iterations@[i] as nat,
                        max_iters as nat,
                    ),
                colors == Seq::new(
                    iterations@.len(),
                    |i: int| self.color_of(iterations@[i] as nat, max_iters as nat),
                ),
                w == width,
                s == scaling,
                image_data@ == image_rows(colors, w, s, 0, y as nat),
            decreases height - y,
        {
            let ghost before_row = image_data@;
            let ghost full_row = row_bytes(colors, w, s, y as nat, w);
            let mut k: usize = 0;
            while k < scaling
                invariant
                    y < height,
                    k <= scaling,
                    width * height <= iterations.len(),
                    forall|i: int|
                        0 <= i < iterations.len() ==> self.accepts(
                            #[trigger] iterations@[i] as nat,
                            max_iters as nat,
                        ),
                    colors == Seq::new(
                    iterations@.len(),
                    |i: int| self.color_of(iterations@[i] as nat, max_iters as nat),
                ),
                    w == width,
                    s == scaling,
                    full_row == row_bytes(colors, w, s, y as nat, w),
                    image_data@ == before_row + repeat(full_row, k as nat),
                decreases scaling - k,
            {
                let ghost before_copy = image_data@;
                let mut x: usize = 0;
                while x < width
                    invariant
                        y < height,
                        x <= width,
                        width * height <= iterations.len(),
                        forall|i: int|
                            0 <= i < iterations.len() ==> self.accepts(
                                #[trigger] iterations@[i] as nat,
                                max_iters as nat,
                            ),
                        colors == Seq::new(
                    iterations@.len(),
                    |i: int| self.color_of(iterations@[i] as nat, max_iters as nat),
                ),
                        w == width,
                        s == scaling,
                        image_data@ == before_copy + row_bytes(colors, w, s, y as nat, x as nat),
                    decreases width - x,
                {
                    proof {
                        vstd::arithmetic::mul::lemma_mul_inequality(
                            y as int + 1,
                            height as int,
                            width as int,
                        );
                        vstd::arithmetic::mul::lemma_mul_is_distributive_add_other_way(
                            width as int,
                            y as int,
                            1,
                        );
                        vstd::arithmetic::mul::lemma_mul_is_commutative(
                            width as int,
                            height as int,
                        );
                    }
                    let point_index = width * y + x;
                    let (r, g, b) = self.determine_color(iterations[point_index], max_iters);
                    let ghost before_pixel = image_data@;
                    let mut j: usize = 0;
                    while j < scaling
                        invariant
                            j <= scaling,
                            image_data@ == before_pixel + repeat(pixel_bytes((r, g, b)), j as nat),
                        decreases scaling - j,
                    {
                        image_data.push(r);
                        image_data.push(g);
                        image_data.push(b);
                        image_data.push(255);
                        proof {
                            assert(image_data@ =~= before_pixel + repeat(
                                pixel_bytes((r, g, b)),
                                (j + 1) as nat,
                            ));
                        }
                        j = j + 1;
                    }
                    proof {
                        assert(colors[point_index as int] == (r, g, b));
                        assert(image_data@ =~= before_copy + row_bytes(
                            colors,
                            w,
                            s,
                            y as nat,
                            (x + 1) as nat,
                        ));
                    }
                    x = x + 1;
                }
                proof {
                    assert(image_data@ =~= before_row + repeat(full_row, (k + 1) as nat));
                }
                k = k + 1;
            }
            proof {
                assert(image_data@ =~= image_rows(colors, w, s, 0, (y + 1) as nat));
            }
            y = y + 1;
        }
        image_data
    }
}

/// Shades of grey: `floor(iterations / max_iters * 255)` on each channel, so a
/// point that never escaped is white.
#[derive(Copy, Clone, Debug)]
pub struct GrayscaleColorTransformation;

/// Grey level of a point that took `iterations` steps under the bound.
pub open spec fn gray_level(iterations: nat, max_iters: nat) -> nat
    recommends
        max_iters > 0,
{
    iterations * 255 / max_iters
}

impl ColorTransformation for GrayscaleColorTransformation {
    open spec fn accepts(&self, iterations: nat, max_iters: nat) -> bool {
        0 < max_iters && iterations <= max_iters
    }

    open spec fn color_of(&self, iterations: nat, max_iters: nat) -> (u8, u8, u8) {
        let v = gray_level(iterations, max_iters) as u8;
        (v, v, v)
    }

    fn accepts_iterations(&self, iterations: usize, max_iters: usize) -> (r: bool) {
        0 < max_iters && iterations <= max_iters
    }

    fn determine_color(&self, iterations: usize, max_iters: usize) -> (r: (u8, u8, u8)) {
        let scaled: u128 = iterations as u128 * 255;
        let level: u128 = scaled / max_iters as u128;
        proof {
            let i = iterations as int;
            let m = max_iters as int;
            assert(i * 255 <= m * 255) by (nonlinear_arith)
                requires
                    i <= m,
            ;
            vstd::arithmetic::div_mod::lemma_div_is_ordered(i * 255, m * 255, m);
            vstd::arithmetic::div_mod::lemma_div_multiples_vanish(255, m);
            vstd::arithmetic::mul::lemma_mul_is_commutative(255, m);
        }
        let v = level as u8;
        (v, v, v)
    }
}

/// Hue-based colouring: a point that never escaped is black; one that escaped
/// after `i` steps takes entry `i` of a table of hue colours, which the caller
/// fills from its HSV conversion.
#[derive(Debug)]
pub struct HsvBasedColorTransformation {
    pub hues: Vec<(u8, u8, u8)>,
}

impl HsvBasedColorTransformation {
    pub fn new(hues: Vec<(u8, u8, u8)>) -> (r: Self)
        ensures
            r.hues@ == hues@,
    {
        HsvBasedColorTransformation { hues }
    }
}

impl ColorTransformation for HsvBasedColorTransformation {
    open spec fn accepts(&self, iterations: nat, max_iters: nat) -> bool {
        iterations == max_iters || iterations < self.hues@.len()
    }

    open spec fn color_of(&self, iterations: nat, max_iters: nat) -> (u8, u8, u8) {
        if iterations == max_iters {
            (0, 0, 0)
        } else {
            self.hues@[iterations as int]
        }
    }

    fn accepts_iterations(&self, iterations: usize, max_iters: usize) -> (r: bool) {
        iterations == max_iters || iterations < self.hues.len()
    }

    fn determine_color(&self, iterations: usize, max_iters: usize) -> (r: (u8, u8, u8)) {
        if iterations == max_iters {
            (0, 0, 0)
        } else {
            self.hues[iterations]
        }
    }
}

proof fn lemma_repeat(s: Seq<u8>, n: nat)
    ensures
        repeat(s, n).len() == n * s.len(),
        forall|i: int|
            0 <= i < n * s.len() ==> #[trigger] repeat(s, n)[i] == s[i % (s.len() as int)],
    decreases n,
{
    let l = s.len() as int;
    if n == 0 {
        assert(repeat(s, n) =~= Seq::<u8>::empty());
        assert(n * l == 0);
    } else {
        let m = (n - 1) as nat;
        lemma_repeat(s, m);
        assert(repeat(s, n) == repeat(s, m) + s);
        assert(n * l == m * l + l) by (nonlinear_arith)
            requires
                m == n - 1,
        ;
        assert forall|i: int| 0 <= i < n * l implies #[trigger] repeat(s, n)[i] == s[i % l] by {
            if i >= (n - 1) * l {
                lemma_fundamental_div_mod_converse(i, l, n - 1, i - (n - 1) * l);
            }
        }
    }
}

proof fn lemma_row(colors: Seq<(u8, u8, u8)>, width: nat, scaling: nat, y: nat, n: nat)
    requires
        scaling > 0,
    ensures
        row_bytes(colors, width, scaling, y, n).len() == n * (4 * scaling),
        forall|i: int|
            0 <= i < n * (4 * scaling) ==> #[trigger] row_bytes(colors, width, scaling, y, n)[i]
                == pixel_bytes(colors[width * y + i / (4 * scaling as int)])[i % 4],
    decreases n,
{
    let l = 4 * scaling as int;
    if n == 0 {
        assert(n * l == 0);
    } else {
        let px = pixel_bytes(colors[width * y + n - 1]);
        let m = (n - 1) as nat;
        lemma_row(colors, width, scaling, y, m);
        lemma_repeat(px, scaling);
        assert(px.len() == 4);
        assert(n * l == m * l + l) by (nonlinear_arith)
            requires
                m == n - 1,
        ;
        assert(scaling * 4 == l);
        assert forall|i: int| 0 <= i < n * l implies #[trigger] row_bytes(
            colors,
            width,
            scaling,
            y,
            n,
        )[i] == pixel_bytes(colors[width * y + i / l])[i % 4] by {
            if i >= (n - 1) * l {
                let r = i - (n - 1) * l;
                lemma_fundamental_div_mod_converse(i, l, n - 1, r);
                lemma_fundamental_div_mod(r, 4);
                assert(i == ((n - 1) * scaling + r / 4) * 4 + r % 4) by (nonlinear_arith)
                    requires
                        r == i - (n - 1) * l,
                        l == 4 * scaling,
                        r == 4 * (r / 4) + r % 4,
                ;
                lemma_fundamental_div_mod_converse(i, 4, (n - 1) * scaling + r / 4, r % 4);
            }
        }
    }
}

proof fn lemma_image(colors: Seq<(u8, u8, u8)>, width: nat, scaling: nat, from: nat, to: nat)
    requires
        scaling > 0,
        from <= to,
    ensures
        image_rows(colors, width, scaling, from, to).len() == (to - from) * (scaling * (width * (
        4 * scaling))),
        forall|i: int|
            0 <= i < (to - from) * (scaling * (width * (4 * scaling))) ==> #[trigger] image_rows(
                colors,
                width,
                scaling,
                from,
                to,
            )[i] == row_bytes(
                colors,
                width,
                scaling,
                (from + i / (scaling * (width * (4 * scaling)) as int)) as nat,
                width,
            )[i % (width * (4 * scaling)) as int],
    decreases to,
{
    if to > from {
        let rl = (width * (4 * scaling)) as int;
        let b = scaling * rl;
        let m = to - 1 - from;
        let row = row_bytes(colors, width, scaling, (to - 1) as nat, width);
        lemma_image(colors, width, scaling, from, (to - 1) as nat);
        lemma_row(colors, width, scaling, (to - 1) as nat, width);
        lemma_repeat(row, scaling);
        assert((to - from) * b == m * b + b) by (nonlinear_arith)
            requires
                m == to - 1 - from,
        ;
        lemma_mul_is_commutative(scaling as int, rl);
        assert forall|i: int| 0 <= i < (to - from) * b implies #[trigger] image_rows(
            colors,
            width,
            scaling,
            from,
            to,
        )[i] == row_bytes(colors, width, scaling, (from + i / b) as nat, width)[i % rl] by {
            if i >= m * b {
                let j = i - m * b;
                lemma_fundamental_div_mod_converse(i, b, m, j);
                lemma_fundamental_div_mod(j, rl);
                assert(i == (m * scaling + j / rl) * rl + j % rl) by (nonlinear_arith)
                    requires
                        j == i - m * b,
                        b == scaling * rl,
                        j == rl * (j / rl) + j % rl,
                ;
                lemma_fundamental_div_mod_converse(i, rl, m * scaling + j / rl, j % rl);
            }
        }
    }
}

/// Upscaling: an image of `height` logical rows holds exactly
/// `4 * (width * scaling) * (height * scaling)` bytes, and the output pixel at
/// row `row`, column `col` has the colour of logical point
/// `(col / scaling, row / scaling)`, so each `scaling` by `scaling` block is
/// uniformly coloured and fully opaque.
pub proof fn lemma_upscaled_pixel(
    colors: Seq<(u8, u8, u8)>,
    width: nat,
    height: nat,
    scaling: nat,
    row: nat,
    col: nat,
    channel: nat,
)
    requires
        scaling > 0,
        row < height * scaling,
        col < width * scaling,
        channel < 4,
    ensures
        image_rows(colors, width, scaling, 0, height).len() == 4 * (width * scaling) * (height
            * scaling),
        image_rows(colors, width, scaling, 0, height)[4 * (row * (width * scaling) + col)
            + channel as int] == pixel_bytes(
            colors[(width * (row / scaling) + col / scaling) as int],
        )[channel as int],
        channel == 3 ==> image_rows(colors, width, scaling, 0, height)[4 * (row * (width
            * scaling) + col) + channel as int] == 255,
{
    let s = scaling as int;
    let rl = (width * (4 * scaling)) as int;
    let b = s * rl;
    let i = (4 * (row * (width * scaling) + col) + channel) as int;
    let o = (4 * col + channel) as int;
    lemma_image(colors, width, scaling, 0, height);
    lemma_row(colors, width, scaling, row / scaling, width);
    assert(height * b == 4 * (width * scaling) * (height * scaling)) by (nonlinear_arith)
        requires
            b == s * rl,
            rl == width * (4 * scaling),
            s == scaling,
    ;
    assert(o < rl) by (nonlinear_arith)
        requires
            o == 4 * col + channel,
            col < width * scaling,
            channel < 4,
            rl == width * (4 * scaling),
    ;
    assert(i == row * rl + o) by (nonlinear_arith)
        requires
            i == 4 * (row * (width * scaling) + col) + channel,
            o == 4 * col + channel,
            rl == width * (4 * scaling),
    ;
    lemma_fundamental_div_mod_converse(i, rl, row as int, o);
    lemma_div_denominator(i, rl, s);
    lemma_mul_is_commutative(rl, s);
    lemma_fundamental_div_mod_converse(o, 4, col as int, channel as int);
    lemma_div_denominator(o, 4, s);
    assert((row + 1) * rl <= (height * scaling) * rl) by (nonlinear_arith)
        requires
            row < height * scaling,
            rl >= 0,
    ;
    assert(i < height * b) by (nonlinear_arith)
        requires
            i == row * rl + o,
            o < rl,
            (row + 1) * rl <= (height * scaling) * rl,
            b == s * rl,
            s == scaling,
    ;
}

/// Logical rows `[a, c)` are rows `[a, b)` followed by rows `[b, c)`.
pub proof fn lemma_image_split(
    colors: Seq<(u8, u8, u8)>,
    width: nat,
    scaling: nat,
    a: nat,
    b: nat,
    c: nat,
)
    requires
        a <= b <= c,
    ensures
        image_rows(colors, width, scaling, a, c) == image_rows(colors, width, scaling, a, b)
            + image_rows(colors, width, scaling, b, c),
    decreases c,
{
    if c == b {
        assert(image_rows(colors, width, scaling, b, c) =~= Seq::<u8>::empty());
        assert(image_rows(colors, width, scaling, a, c) =~= image_rows(
            colors,
            width,
            scaling,
            a,
            b,
        ) + Seq::<u8>::empty());
    } else {
        lemma_image_split(colors, width, scaling, a, b, (c - 1) as nat);
        let last = repeat(row_bytes(colors, width, scaling, (c - 1) as nat, width), scaling);
        assert(image_rows(colors, width, scaling, a, c) =~= image_rows(
            colors,
            width,
            scaling,
            a,
            b,
        ) + (image_rows(colors, width, scaling, b, (c - 1) as nat) + last));
    }
}

proof fn lemma_row_shift(
    colors: Seq<(u8, u8, u8)>,
    width: nat,
    scaling: nat,
    start: nat,
    count: nat,
    y: nat,
    n: nat,
)
    requires
        y < count,
        n <= width,
        width * (start + count) <= colors.len(),
    ensures
        row_bytes(colors.subrange((width * start) as int, (width * (start + count)) as int), width, scaling, y, n)
            == row_bytes(colors, width, scaling, start + y, n),
    decreases n,
{
    if n > 0 {
        lemma_row_shift(colors, width, scaling, start, count, y, (n - 1) as nat);
        let x = n - 1;
        assert(width * y + x < width * count) by (nonlinear_arith)
            requires
                y < count,
                x < width,
        ;
        assert(width * start + (width * y + x) == width * (start + y) + x) by (nonlinear_arith);
        assert(width * start <= width * (start + count)) by (nonlinear_arith);
        assert(width * (start + count) == width * start + width * count) by (nonlinear_arith);
    }
}

/// The rows of a band cut out of a grid are the same rows of the whole grid.
pub proof fn lemma_image_shift(
    colors: Seq<(u8, u8, u8)>,
    width: nat,
    scaling: nat,
    start: nat,
    count: nat,
)
    requires
        width * (start + count) <= colors.len(),
    ensures
        image_rows(colors.subrange((width * start) as int, (width * (start + count)) as int), width, scaling, 0, count)
            == image_rows(colors, width, scaling, start, start + count),
{
    lemma_image_shift_prefix(colors, width, scaling, start, count, count);
}

proof fn lemma_image_shift_prefix(
    colors: Seq<(u8, u8, u8)>,
    width: nat,
    scaling: nat,
    start: nat,
    count: nat,
    n: nat,
)
    requires
        width * (start + count) <= colors.len(),
        n <= count,
    ensures
        image_rows(colors.subrange((width * start) as int, (width * (start + count)) as int), width, scaling, 0, n)
            == image_rows(colors, width, scaling, start, start + n),
    decreases n,
{
    if n > 0 {
        lemma_image_shift_prefix(colors, width, scaling, start, count, (n - 1) as nat);
        lemma_row_shift(colors, width, scaling, start, count, (n - 1) as nat, width);
    }
}

/// At the bound, a point that never escaped is white under the grey palette
/// and black under the hue palette.
pub proof fn lemma_palette_boundary(
    gray: &GrayscaleColorTransformation,
    hue: &HsvBasedColorTransformation,
    max_iters: nat,
)
    requires
        max_iters > 0,
    ensures
        gray.color_of(max_iters, max_iters) == (255u8, 255u8, 255u8),
        hue.color_of(max_iters, max_iters) == (0u8, 0u8, 0u8),
{
    vstd::arithmetic::div_mod::lemma_div_multiples_vanish(255, max_iters as int);
    lemma_mul_is_commutative(255, max_iters as int);
}

} // verus!
