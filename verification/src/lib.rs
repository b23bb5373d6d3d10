//! `rustysensor` is a remote-sensing toolkit in exact fixed-point arithmetic:
//! band classification for optical instruments, a hemispherical quadrature
//! engine with the antenna quantities derived from it, and closed-form
//! inversions (split-window surface temperature, the bistatic radar chain,
//! trilateration, triangulation).
//!
//! Nothing here needs a floating-point unit. Every quantity is a scaled
//! integer whose unit is named where it is taken or returned:
//!
//! * angles are whole microradians;
//! * dimensionless factors (power patterns, efficiencies, sines, cosines,
//!   attenuations) are parts per million, so `1_000_000` stands for one;
//! * temperatures are millikelvin;
//! * optical wavelengths are picometres;
//! * lengths, areas and powers are in units of the caller's choice.
//!
//! Quotients are rounded toward negative infinity. Sines, cosines,
//! logarithms and exponentials are not computed here: the functions that
//! need one take an evaluator for it, as the quadrature takes the angular
//! function it integrates.
//!
//! The modules follow the fields they serve: [`em`] for free-space
//! radiometry, [`el_opt`] for electro-optical systems, [`muwave`] for passive
//! microwave antennas, [`photographic`] for imaging geometry and [`ranged`]
//! for ranging systems. [`integrate`] holds the quadrature they share,
//! [`units`] the scales and the rounding, and [`error`] the reasons for which
//! a computation is refused.

pub mod error;
pub mod units;
pub mod el_opt;
pub mod em;
pub mod integrate;
pub mod muwave;
pub mod photographic;
pub mod ranged;
