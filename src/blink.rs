use vstd::prelude::*;

verus! {

/// A light that fades in and out: its alpha rises from `min_alpha` to
/// `max_alpha` and back over each cycle.
pub struct Blink {
    cycle_length_micros: u64,
    min_alpha: u8,
    max_alpha: u8,
}

/// Brightness, 0 to 255, at `elapsed` microseconds into a cycle of `cycle`:
/// a ramp up over the first half and down over the second.
pub open spec fn intensity_at(cycle: int, elapsed: int) -> int {
    let scaled = (elapsed % cycle) * 512 / cycle;
    if scaled < 256 {
        scaled
    } else {
        511 - scaled
    }
}

impl Blink {
    pub closed spec fn cycle(&self) -> int {
        self.cycle_length_micros as int
    }

    pub closed spec fn low(&self) -> int {
        self.min_alpha as int
    }

    pub closed spec fn high(&self) -> int {
        self.max_alpha as int
    }

    pub open spec fn wf(&self) -> bool {
        self.cycle() > 0 && self.low() <= self.high()
    }

    fn intensity(&self, elapsed_micros: u64) -> (r: u8)
        requires
            self.wf(),
        ensures
            r == intensity_at(self.cycle(), elapsed_micros as int),
    {
        let cycle = self.cycle_length_micros as u128;
        let progress = (elapsed_micros as u128) % cycle;
        assert(progress * 512 < 512 * cycle) by (nonlinear_arith)
            requires
                progress < cycle,
        ;
        assert(progress * 512 <= 512 * 0xffff_ffff_ffff_ffffu128) by (nonlinear_arith)
            requires
                progress < cycle,
                cycle <= 0xffff_ffff_ffff_ffffu128,
        ;
        let scaled = (progress * 512) / cycle;
        assert(scaled < 512) by (nonlinear_arith)
            requires
                scaled == (progress * 512) as int / (cycle as int),
                progress < cycle,
                cycle > 0,
        ;
        if scaled < 256 {
            scaled as u8
        } else {
            (511 - scaled) as u8
        }
    }

    /// The alpha at `elapsed_micros` microseconds: `min_alpha` plus the share
    /// of the span up to `max_alpha` that the current intensity gives.
    pub fn alpha(&self, elapsed_micros: u64) -> (r: u8)
        requires
            self.wf(),
        ensures
            r == self.low() + (self.high() - self.low()) * intensity_at(
                self.cycle(),
                elapsed_micros as int,
            ) / 255,
    {
        let intensity = self.intensity(elapsed_micros);
        let delta = self.max_alpha - self.min_alpha;
        assert((delta as u16) * (intensity as u16) <= 65025) by (nonlinear_arith)
            requires
                delta <= 255,
                intensity <= 255,
        ;
        let product = delta as u16 * intensity as u16;
        let offset = product / 255;
        assert(offset <= delta) by (nonlinear_arith)
            requires
                product == delta * intensity,
                offset == product as int / 255,
                intensity <= 255,
        ;
        self.min_alpha + offset as u8
    }

    /// Half a second per cycle, alpha from 64 to 187.
    pub fn new() -> (r: Self)
        ensures
            r.wf(),
            r.cycle() == 500_000,
            r.low() == 64,
            r.high() == 187,
    {
        Blink { cycle_length_micros: 500_000, min_alpha: 64, max_alpha: 187 }
    }
}

} // verus!
