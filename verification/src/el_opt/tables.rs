use vstd::prelude::*;

verus! {

/// One spectral band of an instrument: its number on the instrument and the
/// wavelengths it covers, both ends included, in picometres.
#[derive(Clone, Copy, Debug, PartialEq, Eq, Structural)]
pub struct Range {
    pub index: u8,
    pub lbound: u64,
    pub ubound: u64,
}

impl Range {
    /// A band is numbered from one and has a lower bound below its upper
    /// bound.
    pub open spec fn wf(self) -> bool {
        self.index >= 1 && self.lbound < self.ubound
    }

    /// Whether the band covers the wavelength.
    pub open spec fn covers(self, lambda: u64) -> bool {
        self.lbound <= lambda <= self.ubound
    }

    /// The width of the band, in picometres.
    pub fn bandwidth(&self) -> (width: u64)
        requires
            self.wf(),
        ensures
            width == self.ubound - self.lbound,
            width > 0,
    {
        self.ubound - self.lbound
    }

    /// Whether the band covers the wavelength.
    pub fn contains(&self, lambda: u64) -> (inside: bool)
        ensures
            inside == self.covers(lambda),
    {
        self.lbound <= lambda && lambda <= self.ubound
    }
}

/// What the table of ASTER holds: see [`aster`].
pub open spec fn aster_ranges() -> Seq<Range> {
    seq![
        Range { index: 1, lbound: 0, ubound: 600_000 },
        Range { index: 2, lbound: 630_000, ubound: 690_000 },
        Range { index: 3, lbound: 760_000, ubound: 860_000 },
        Range { index: 4, lbound: 1_600_000, ubound: 1_700_000 },
        Range { index: 5, lbound: 2_145_000, ubound: 2_185_000 },
        Range { index: 6, lbound: 2_185_000, ubound: 2_225_000 },
        Range { index: 7, lbound: 2_235_000, ubound: 2_285_000 },
        Range { index: 8, lbound: 2_295_000, ubound: 2_365_000 },
        Range { index: 9, lbound: 2_365_000, ubound: 2_430_000 },
    ]
}

/// ASTER's visible, near-infrared and short-wave infrared bands. The first
/// has no lower bound of its own: it takes every wavelength at or below its
/// upper bound. Bands 3N and 3B share one entry.
pub fn aster() -> (table: [Range; 9])
    ensures
        table@ == aster_ranges(),
{
    let table = [
        Range { index: 1, lbound: 0, ubound: 600_000 },
        Range { index: 2, lbound: 630_000, ubound: 690_000 },
        Range { index: 3, lbound: 760_000, ubound: 860_000 },
        Range { index: 4, lbound: 1_600_000, ubound: 1_700_000 },
        Range { index: 5, lbound: 2_145_000, ubound: 2_185_000 },
        Range { index: 6, lbound: 2_185_000, ubound: 2_225_000 },
        Range { index: 7, lbound: 2_235_000, ubound: 2_285_000 },
        Range { index: 8, lbound: 2_295_000, ubound: 2_365_000 },
        Range { index: 9, lbound: 2_365_000, ubound: 2_430_000 },
    ];
    assert(table@ =~= aster_ranges());
    table
}

/// What the table of MODIS holds: see [`modis`].
pub open spec fn modis_ranges() -> Seq<Range> {
    seq![
        Range { index: 1, lbound: 620_000, ubound: 670_000 },
        Range { index: 2, lbound: 841_000, ubound: 876_000 },
        Range { index: 3, lbound: 459_000, ubound: 479_000 },
        Range { index: 4, lbound: 545_000, ubound: 565_000 },
        Range { index: 5, lbound: 1_230_000, ubound: 1_250_000 },
        Range { index: 6, lbound: 1_628_000, ubound: 1_652_000 },
        Range { index: 7, lbound: 2_105_000, ubound: 2_155_000 },
        Range { index: 8, lbound: 405_000, ubound: 420_000 },
        Range { index: 9, lbound: 438_000, ubound: 448_000 },
        Range { index: 10, lbound: 484_000, ubound: 493_000 },
        Range { index: 11, lbound: 526_000, ubound: 536_000 },
        Range { index: 12, lbound: 546_000, ubound: 556_000 },
        Range { index: 13, lbound: 662_000, ubound: 672_000 },
        Range { index: 14, lbound: 673_000, ubound: 683_000 },
        Range { index: 15, lbound: 743_000, ubound: 753_000 },
        Range { index: 16, lbound: 862_000, ubound: 877_000 },
        Range { index: 17, lbound: 890_000, ubound: 920_000 },
        Range { index: 18, lbound: 931_000, ubound: 941_000 },
        Range { index: 19, lbound: 915_000, ubound: 965_000 },
    ]
}

/// MODIS bands 1 to 19, in the instrument's own order, which is not the
/// order of the wavelengths.
pub fn modis() -> (table: [Range; 19])
    ensures
        table@ == modis_ranges(),
{
    let table = [
        Range { index: 1, lbound: 620_000, ubound: 670_000 },
        Range { index: 2, lbound: 841_000, ubound: 876_000 },
        Range { index: 3, lbound: 459_000, ubound: 479_000 },
        Range { index: 4, lbound: 545_000, ubound: 565_000 },
        Range { index: 5, lbound: 1_230_000, ubound: 1_250_000 },
        Range { index: 6, lbound: 1_628_000, ubound: 1_652_000 },
        Range { index: 7, lbound: 2_105_000, ubound: 2_155_000 },
        Range { index: 8, lbound: 405_000, ubound: 420_000 },
        Range { index: 9, lbound: 438_000, ubound: 448_000 },
        Range { index: 10, lbound: 484_000, ubound: 493_000 },
        Range { index: 11, lbound: 526_000, ubound: 536_000 },
        Range { index: 12, lbound: 546_000, ubound: 556_000 },
        Range { index: 13, lbound: 662_000, ubound: 672_000 },
        Range { index: 14, lbound: 673_000, ubound: 683_000 },
        Range { index: 15, lbound: 743_000, ubound: 753_000 },
        Range { index: 16, lbound: 862_000, ubound: 877_000 },
        Range { index: 17, lbound: 890_000, ubound: 920_000 },
        Range { index: 18, lbound: 931_000, ubound: 941_000 },
        Range { index: 19, lbound: 915_000, ubound: 965_000 },
    ];
    assert(table@ =~= modis_ranges());
    table
}

/// What the table of OCM-2 holds: see [`ocm_2`].
pub open spec fn ocm_2_ranges() -> Seq<Range> {
    seq![
        Range { index: 1, lbound: 404_000, ubound: 424_000 },
        Range { index: 2, lbound: 431_000, ubound: 451_000 },
        Range { index: 3, lbound: 476_000, ubound: 496_000 },
        Range { index: 4, lbound: 500_000, ubound: 520_000 },
        Range { index: 5, lbound: 546_000, ubound: 566_000 },
        Range { index: 6, lbound: 610_000, ubound: 630_000 },
        Range { index: 7, lbound: 725_000, ubound: 755_000 },
        Range { index: 8, lbound: 845_000, ubound: 885_000 },
    ]
}

/// The eight bands of OCM-2.
pub fn ocm_2() -> (table: [Range; 8])
    ensures
        table@ == ocm_2_ranges(),
{
    let table = [
        Range { index: 1, lbound: 404_000, ubound: 424_000 },
        Range { index: 2, lbound: 431_000, ubound: 451_000 },
        Range { index: 3, lbound: 476_000, ubound: 496_000 },
        Range { index: 4, lbound: 500_000, ubound: 520_000 },
        Range { index: 5, lbound: 546_000, ubound: 566_000 },
        Range { index: 6, lbound: 610_000, ubound: 630_000 },
        Range { index: 7, lbound: 725_000, ubound: 755_000 },
        Range { index: 8, lbound: 845_000, ubound: 885_000 },
    ];
    assert(table@ =~= ocm_2_ranges());
    table
}

} // verus!
