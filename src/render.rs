use vstd::prelude::*;

use crate::color::{colors_of, image_rows, lemma_image_shift, lemma_image_split, ColorTransformation};
use crate::frame::{
    band_count_of, band_height_of, band_start_of, lemma_band_layout, ConfigError, FramePartConfig,
};

verus! {

/// Why a band could not be coloured.
#[derive(Copy, Clone, Debug, PartialEq, Eq, Structural)]
pub enum RenderError {
    /// The frame-part configuration itself is unusable.
    Config(ConfigError),
    /// Fewer iteration counts were supplied than the band has grid points.
    PointsOutOfBounds,
    /// Some iteration count lies outside what the palette can colour.
    IterationsOutOfRange,
}

/// Whether the palette can colour every supplied iteration count.
pub open spec fn all_accepted<P: ColorTransformation>(
    palette: &P,
    iterations: Seq<usize>,
    max_iters: nat,
) -> bool {
    forall|i: int| 0 <= i < iterations.len() ==> palette.accepts(#[trigger] iterations[i] as nat, max_iters)
}

/// What colouring the band that `config` selects gives: the bytes, or the
/// first problem found, in the order the configuration, the number of counts
/// and the counts themselves are checked.
pub open spec fn rendered<P: ColorTransformation>(
    config: FramePartConfig,
    palette: &P,
    iterations: Seq<usize>,
) -> Result<Seq<u8>, RenderError> {
    if !config.scaling_ok() {
        Err(RenderError::Config(ConfigError::InvalidScaling))
    } else if !config.partition_ok() {
        Err(RenderError::Config(ConfigError::InvalidPartition))
    } else if iterations.len() < config.width_spec() * config.band_height() {
        Err(RenderError::PointsOutOfBounds)
    } else if !all_accepted(palette, iterations, config.max_iters as nat) {
        Err(RenderError::IterationsOutOfRange)
    } else {
        Ok(
            image_rows(
                colors_of(palette, iterations, config.max_iters as nat),
                config.width_spec(),
                config.scaling as nat,
                0,
                config.band_height(),
            ),
        )
    }
}

/// Colouring is a function of its inputs alone: the same configuration,
/// palette and counts always give the same bytes, or the same error.
pub proof fn lemma_render_deterministic<P: ColorTransformation>(
    config1: FramePartConfig,
    config2: FramePartConfig,
    palette1: &P,
    palette2: &P,
    iterations1: Seq<usize>,
    iterations2: Seq<usize>,
)
    requires
        config1 == config2,
        palette1 == palette2,
        iterations1 == iterations2,
    ensures
        rendered(config1, palette1, iterations1) == rendered(config2, palette2, iterations2),
{
}

/// Colours the band that `config` selects, given the iteration counts of its
/// grid points in row-major order, into RGBA bytes upscaled by `config.scaling`.
pub fn render_frame_part<P: ColorTransformation>(
    config: &FramePartConfig,
    palette: &P,
    iterations: &Vec<usize>,
) -> (r: Result<Vec<u8>, RenderError>)
    ensures
        r == Err::<Vec<u8>, _>(RenderError::Config(ConfigError::InvalidScaling))
            <==> !config.scaling_ok(),
        r == Err::<Vec<u8>, _>(RenderError::Config(ConfigError::InvalidPartition))
            <==> config.scaling_ok() && !config.partition_ok(),
        r == Err::<Vec<u8>, _>(RenderError::PointsOutOfBounds) <==> config.wf()
            && iterations@.len() < config.width_spec() * config.band_height(),
        r == Err::<Vec<u8>, _>(RenderError::IterationsOutOfRange) <==> config.wf()
            && iterations@.len() >= config.width_spec() * config.band_height()
            && !all_accepted(palette, iterations@, config.max_iters as nat),
        match r {
            Ok(bytes) => rendered(*config, palette, iterations@) == Ok::<Seq<u8>, RenderError>(bytes@),
            Err(e) => rendered(*config, palette, iterations@) == Err::<Seq<u8>, RenderError>(e),
        },
        r is Ok ==> r->Ok_0@ == image_rows(
            colors_of(palette, iterations@, config.max_iters as nat),
            config.width_spec(),
            config.scaling as nat,
            0,
            config.band_height(),
        ),
{
    match config.check() {
        Err(e) => {
            return Err(RenderError::Config(e));
        },
        Ok(()) => {},
    }
    let width = config.descaled_width();
    let height = config.frame_height();
    let len = iterations.len();
    let needed = width.checked_mul(height);
    match needed {
        None => {
            return Err(RenderError::PointsOutOfBounds);
        },
        Some(n) => {
            if len < n {
                return Err(RenderError::PointsOutOfBounds);
            }
        },
    }
    let mut i: usize = 0;
    while i < iterations.len()
        invariant
            i <= iterations.len(),
            config.wf(),
            width == config.width_spec(),
            height == config.band_height(),
            width * height <= iterations.len(),
            forall|j: int|
                0 <= j < i ==> palette.accepts(
                    #[trigger] iterations@[j] as nat,
                    config.max_iters as nat,
                ),
        decreases iterations.len() - i,
    {
        if !palette.accepts_iterations(iterations[i], config.max_iters) {
            return Err(RenderError::IterationsOutOfRange);
        }
        i = i + 1;
    }
    let out = palette.transform(iterations, config.max_iters, width, height, config.scaling);
    proof {
        assert(colors_of(palette, iterations@, config.max_iters as nat) =~= Seq::new(
            iterations@.len(),
            |i: int| palette.color_of(iterations@[i] as nat, config.max_iters as nat),
        ));
    }
    Ok(out)
}

/// Bytes of band `part_num` of a frame of `height` descaled rows split into
/// `part_count` bands, coloured from the band's own rows of the frame's
/// iteration counts.
pub open spec fn band_image<P: ColorTransformation>(
    palette: &P,
    iterations: Seq<usize>,
    max_iters: nat,
    width: nat,
    scaling: nat,
    height: nat,
    part_count: nat,
    part_num: nat,
) -> Seq<u8> {
    let start = band_start_of(height, part_count, part_num);
    let rows = band_height_of(height, part_count, part_num);
    image_rows(
        colors_of(
            palette,
            iterations.subrange((width * start) as int, (width * (start + rows)) as int),
            max_iters,
        ),
        width,
        scaling,
        0,
        rows,
    )
}

/// Bands `[0, n)` stacked vertically in part order.
pub open spec fn stacked_bands<P: ColorTransformation>(
    palette: &P,
    iterations: Seq<usize>,
    max_iters: nat,
    width: nat,
    scaling: nat,
    height: nat,
    part_count: nat,
    n: nat,
) -> Seq<u8>
    decreases n,
{
    if n == 0 {
        Seq::empty()
    } else {
        stacked_bands(
            palette,
            iterations,
            max_iters,
            width,
            scaling,
            height,
            part_count,
            (n - 1) as nat,
        ) + band_image(
            palette,
            iterations,
            max_iters,
            width,
            scaling,
            height,
            part_count,
            (n - 1) as nat,
        )
    }
}

proof fn lemma_stacked_prefix<P: ColorTransformation>(
    palette: &P,
    iterations: Seq<usize>,
    max_iters: nat,
    width: nat,
    scaling: nat,
    height: nat,
    part_count: nat,
    n: nat,
)
    requires
        part_count > 0,
        iterations.len() == width * height,
        n <= band_count_of(height, part_count),
    ensures
        n > 0 ==> stacked_bands(palette, iterations, max_iters, width, scaling, height, part_count, n)
            == image_rows(
            colors_of(palette, iterations, max_iters),
            width,
            scaling,
            0,
            band_start_of(height, part_count, (n - 1) as nat) + band_height_of(
                height,
                part_count,
                (n - 1) as nat,
            ),
        ),
    decreases n,
{
    let all = colors_of(palette, iterations, max_iters);
    lemma_band_layout(height, part_count);
    if n > 0 {
        let p = (n - 1) as nat;
        if p > 0 {
            lemma_stacked_prefix(
                palette,
                iterations,
                max_iters,
                width,
                scaling,
                height,
                part_count,
                p,
            );
            assert(band_start_of(height, part_count, (p - 1) as nat) + band_height_of(
                height,
                part_count,
                (p - 1) as nat,
            ) == band_start_of(height, part_count, p));
        } else {
            assert(stacked_bands(palette, iterations, max_iters, width, scaling, height, part_count, p)
                =~= image_rows(all, width, scaling, 0, 0));
        }
        let start = band_start_of(height, part_count, p);
        let rows = band_height_of(height, part_count, p);
        let end = start + rows;
        if p + 1 < band_count_of(height, part_count) {
            assert(end == band_start_of(height, part_count, p + 1));
        }
        assert(end <= height) by {
            if p + 1 == band_count_of(height, part_count) {
            } else {
                vstd::arithmetic::div_mod::lemma_fundamental_div_mod(
                    height as int,
                    part_count as int,
                );
                assert(p + 1 <= part_count);
                assert((p + 1) * (height / part_count) <= part_count * (height / part_count))
                    by (nonlinear_arith)
                    requires
                        p + 1 <= part_count,
                ;
                vstd::arithmetic::mul::lemma_mul_is_commutative(
                    part_count as int,
                    (height / part_count) as int,
                );
            }
        }
        assert(width * end <= width * height) by (nonlinear_arith)
            requires
                end <= height,
        ;
        assert(width * start <= width * end) by (nonlinear_arith)
            requires
                start <= end,
        ;
        assert(colors_of(
            palette,
            iterations.subrange((width * start) as int, (width * end) as int),
            max_iters,
        ) =~= all.subrange((width * start) as int, (width * end) as int));
        lemma_image_shift(all, width, scaling, start, rows);
        lemma_image_split(all, width, scaling, 0, start, end);
    }
}

/// Splitting a frame into `part_count` even bands, plus the trailing
/// remainder band when the split is inexact, and stacking the coloured bands
/// in part order gives exactly the colouring of the whole frame in one piece.
pub proof fn lemma_partition_reconstruction<P: ColorTransformation>(
    palette: &P,
    iterations: Seq<usize>,
    max_iters: nat,
    width: nat,
    scaling: nat,
    height: nat,
    part_count: nat,
)
    requires
        part_count > 0,
        iterations.len() == width * height,
    ensures
        stacked_bands(
            palette,
            iterations,
            max_iters,
            width,
            scaling,
            height,
            part_count,
            band_count_of(height, part_count),
        ) == image_rows(colors_of(palette, iterations, max_iters), width, scaling, 0, height),
{
    lemma_band_layout(height, part_count);
    lemma_stacked_prefix(
        palette,
        iterations,
        max_iters,
        width,
        scaling,
        height,
        part_count,
        band_count_of(height, part_count),
    );
}

} // verus!
