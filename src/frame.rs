use vstd::prelude::*;

verus! {

/// Target pixel dimensions of a frame, before any descaling.
#[derive(Copy, Clone, Debug, PartialEq, Eq, Structural)]
pub struct Resolution {
    pub width: usize,
    pub height: usize,
}

impl Resolution {
    pub fn new(width: usize, height: usize) -> (r: Self)
        ensures
            r.width == width,
            r.height == height,
    {
        Resolution { width, height }
    }
}

/// Why a frame-part configuration cannot be rendered.
#[derive(Copy, Clone, Debug, PartialEq, Eq, Structural)]
pub enum ConfigError {
    /// The scaling factor is zero, or does not divide the width or the height.
    InvalidScaling,
    /// There are no parts, or the part number lies beyond the one-past-last part.
    InvalidPartition,
}

/// One horizontal band of a larger frame. The complex-plane region is kept by
/// the caller: the band layout depends on the integer grid alone.
#[derive(Copy, Clone, Debug, PartialEq, Eq, Structural)]
pub struct FramePartConfig {
    pub res: Resolution,
    pub scaling: usize,
    pub part_num: usize,
    pub part_count: usize,
    pub max_iters: usize,
}

/// Rows of a band: `part_count` bands of `h / part_count` rows each, then,
/// at index `part_count`, the remainder when the split is inexact.
pub open spec fn band_height_of(h: nat, part_count: nat, part_num: nat) -> nat
    recommends
        part_count > 0,
{
    if part_num == part_count && h % part_count != 0 {
        h % part_count
    } else {
        h / part_count
    }
}

/// First descaled row of a band.
pub open spec fn band_start_of(h: nat, part_count: nat, part_num: nat) -> nat
    recommends
        part_count > 0,
{
    part_num * (h / part_count)
}

/// How many bands tile a frame of `h` descaled rows.
pub open spec fn band_count_of(h: nat, part_count: nat) -> nat
    recommends
        part_count > 0,
{
    if h % part_count == 0 {
        part_count
    } else {
        part_count + 1
    }
}

impl FramePartConfig {
    pub open spec fn scaling_ok(&self) -> bool {
        &&& self.scaling > 0
        &&& self.res.width % self.scaling == 0
        &&& self.res.height % self.scaling == 0
    }

    pub open spec fn partition_ok(&self) -> bool {
        &&& self.part_count > 0
        &&& self.part_num <= self.part_count
    }

    pub open spec fn wf(&self) -> bool {
        self.scaling_ok() && self.partition_ok()
    }

    pub open spec fn width_spec(&self) -> nat {
        (self.res.width / self.scaling) as nat
    }

    pub open spec fn height_spec(&self) -> nat {
        (self.res.height / self.scaling) as nat
    }

    pub open spec fn band_height(&self) -> nat {
        band_height_of(self.height_spec(), self.part_count as nat, self.part_num as nat)
    }

    pub open spec fn band_start(&self) -> nat {
        band_start_of(self.height_spec(), self.part_count as nat, self.part_num as nat)
    }

    /// Tells whether the configuration can be rendered, and if not, why.
    pub fn check(&self) -> (r: Result<(), ConfigError>)
        ensures
            r is Ok <==> self.wf(),
            r == Err::<(), _>(ConfigError::InvalidScaling) <==> !self.scaling_ok(),
            r == Err::<(), _>(ConfigError::InvalidPartition) <==> self.scaling_ok()
                && !self.partition_ok(),
    {
        if self.scaling == 0 || self.res.width % self.scaling != 0 || self.res.height
            % self.scaling != 0 {
            Err(ConfigError::InvalidScaling)
        } else if self.part_count == 0 || self.part_num > self.part_count {
            Err(ConfigError::InvalidPartition)
        } else {
            Ok(())
        }
    }

    /// Width of the sampling grid, before upscaling.
    pub fn descaled_width(&self) -> (r: usize)
        requires
            self.scaling_ok(),
        ensures
            r == self.width_spec(),
            r * self.scaling == self.res.width,
    {
        let r = self.res.width / self.scaling;
        proof {
            vstd::arithmetic::div_mod::lemma_fundamental_div_mod(
                self.res.width as int,
                self.scaling as int,
            );
            vstd::arithmetic::mul::lemma_mul_is_commutative(
                self.scaling as int,
                (self.res.width / self.scaling) as int,
            );
        }
        r
    }

    /// Height of the whole sampling grid, before upscaling.
    pub fn descaled_height(&self) -> (r: usize)
        requires
            self.scaling_ok(),
        ensures
            r == self.height_spec(),
            r * self.scaling == self.res.height,
    {
        let r = self.res.height / self.scaling;
        proof {
            vstd::arithmetic::div_mod::lemma_fundamental_div_mod(
                self.res.height as int,
                self.scaling as int,
            );
            vstd::arithmetic::mul::lemma_mul_is_commutative(
                self.scaling as int,
                (self.res.height / self.scaling) as int,
            );
        }
        r
    }

    /// Rows of each of the even bands.
    pub fn height_split(&self) -> (r: usize)
        requires
            self.wf(),
        ensures
            r == self.height_spec() / (self.part_count as nat),
    {
        self.descaled_height() / self.part_count
    }

    /// Rows that the even bands leave over.
    pub fn height_leftover(&self) -> (r: usize)
        requires
            self.wf(),
        ensures
            r == self.height_spec() % (self.part_count as nat),
    {
        self.descaled_height() % self.part_count
    }

    /// Whether this is the trailing band that holds the remainder rows.
    pub fn is_last_leftover(&self) -> (r: bool)
        requires
            self.wf(),
        ensures
            r == (self.part_num == self.part_count && self.height_spec() % (
            self.part_count as nat) != 0),
    {
        self.height_leftover() != 0 && self.part_num == self.part_count
    }

    /// Rows of this band.
    pub fn frame_height(&self) -> (r: usize)
        requires
            self.wf(),
        ensures
            r == self.band_height(),
    {
        if self.is_last_leftover() {
            self.height_leftover()
        } else {
            self.height_split()
        }
    }

    /// First row of this band within the whole descaled frame.
    pub fn frame_start_row(&self) -> (r: usize)
        requires
            self.wf(),
        ensures
            r == self.band_start(),
            r <= self.height_spec(),
    {
        let split = self.height_split();
        proof {
            let h = self.height_spec() as int;
            let k = self.part_count as int;
            let p = self.part_num as int;
            vstd::arithmetic::div_mod::lemma_fundamental_div_mod(h, k);
            vstd::arithmetic::mul::lemma_mul_inequality(p, k, h / k);
            vstd::arithmetic::mul::lemma_mul_is_commutative(k, h / k);
            vstd::arithmetic::div_mod::lemma_mod_bound(h, k);
        }
        self.part_num * split
    }
}

/// The bands tile the frame: the first starts at row 0, each ends where the
/// next begins, and the last ends at the frame's final row.
pub proof fn lemma_band_layout(height: nat, part_count: nat)
    requires
        part_count > 0,
    ensures
        band_start_of(height, part_count, 0) == 0,
        forall|p: nat|
            p + 1 < band_count_of(height, part_count) ==> #[trigger] band_start_of(
                height,
                part_count,
                p,
            ) + band_height_of(height, part_count, p) == band_start_of(height, part_count, p + 1),
        band_start_of(height, part_count, (band_count_of(height, part_count) - 1) as nat)
            + band_height_of(height, part_count, (band_count_of(height, part_count) - 1) as nat)
            == height,
{
    let split = height / part_count;
    assert(0 * split == 0);
    assert forall|p: nat| p + 1 < band_count_of(height, part_count) implies #[trigger] band_start_of(
        height,
        part_count,
        p,
    ) + band_height_of(height, part_count, p) == band_start_of(height, part_count, p + 1) by {
        assert((p + 1) * split == p * split + split) by (nonlinear_arith);
    }
    vstd::arithmetic::div_mod::lemma_fundamental_div_mod(height as int, part_count as int);
    vstd::arithmetic::mul::lemma_mul_is_commutative(part_count as int, split as int);
    assert((part_count - 1) * split + split == part_count * split) by (nonlinear_arith);
}

} // verus!
