//! Layout options and the IEEE-754 classification used to validate them.
//!
//! Every floating-point quantity is held as the bit pattern of its `f64`
//! value, so that validation decides exactly what the `f64` comparisons
//! decide: finiteness, sign and order.

use vstd::prelude::*;

verus! {

/// Whether the `f64` with bit pattern `b` is finite (neither NaN nor an
/// infinity): its exponent field is not all ones.
pub open spec fn is_finite(b: u64) -> bool {
    (b >> 52u64) & 0x7ffu64 != 0x7ffu64
}

/// Whether the non-NaN `f64` with bit pattern `b` compares less than `0.0`:
/// its sign bit is set and it is not a zero.
pub open spec fn is_negative(b: u64) -> bool {
    (b >> 63u64) == 1u64 && (b & 0x7fff_ffff_ffff_ffffu64) != 0u64
}

/// The bit pattern without its sign bit. For finite values that are not
/// negative, `a <= b` as `f64` exactly when `magnitude(a) <= magnitude(b)`.
pub open spec fn magnitude(b: u64) -> u64 {
    b & 0x7fff_ffff_ffff_ffffu64
}

/// Returns whether the `f64` with bit pattern `b` is finite.
pub fn finite(b: u64) -> (r: bool)
    ensures
        r == is_finite(b),
{
    (b >> 52u64) & 0x7ffu64 != 0x7ffu64
}

/// Returns whether the non-NaN `f64` with bit pattern `b` is below zero.
pub fn negative(b: u64) -> (r: bool)
    ensures
        r == is_negative(b),
{
    (b >> 63u64) == 1u64 && (b & 0x7fff_ffff_ffff_ffffu64) != 0u64
}

/// Returns the bit pattern of `b` without its sign bit.
pub fn unsigned(b: u64) -> (r: u64)
    ensures
        r == magnitude(b),
{
    b & 0x7fff_ffff_ffff_ffffu64
}

/// Controls spacing, routing and straightening.
///
/// Every floating-point field holds an `f64` bit pattern; each must be
/// finite and non-negative, and `track_padding` must exceed `bend_radius`.
#[derive(Clone, Copy, Debug, PartialEq, Eq, Structural)]
pub struct Opts {
    /// Empty space around the graph.
    pub padding: u64,
    /// Minimum horizontal gap between neighboring blocks.
    pub block_gap: u64,
    /// Horizontal offset of the first edge port.
    pub first_port: u64,
    /// Horizontal distance between edge ports.
    pub port_gap: u64,
    /// Radius of rounded edge bends.
    pub bend_radius: u64,
    /// Vertical padding above and below edge tracks; exceeds `bend_radius`.
    pub track_padding: u64,
    /// Vertical spacing between horizontal edge routes that would overlap.
    pub joint_gap: u64,
    /// Vertical offset of loop-header rails.
    pub header_drop: u64,
    /// Number of broad horizontal alignment passes.
    pub layout_iters: usize,
    /// Largest horizontal offset corrected by a comb pass.
    pub near_straight: u64,
    /// Number of up-and-down comb pass iterations.
    pub comb_iters: usize,
    /// Edge stroke width, also used for alignment.
    pub line_width: u64,
    /// Arrowhead radius.
    pub arrow_size: u64,
}

/// The default options: padding 20, block gap 44, first port 16, port gap
/// 60, bend radius 12, track padding 36, joint gap 16, header drop 16, two
/// layout passes, near-straight 30, eight comb passes, line width 1, arrow
/// size 5.
pub open spec fn default_opts() -> Opts {
    Opts {
        padding: 0x4034000000000000u64,
        block_gap: 0x4046000000000000u64,
        first_port: 0x4030000000000000u64,
        port_gap: 0x404e000000000000u64,
        bend_radius: 0x4028000000000000u64,
        track_padding: 0x4042000000000000u64,
        joint_gap: 0x4030000000000000u64,
        header_drop: 0x4030000000000000u64,
        layout_iters: 2,
        near_straight: 0x403e000000000000u64,
        comb_iters: 8,
        line_width: 0x3ff0000000000000u64,
        arrow_size: 0x4014000000000000u64,
    }
}

impl Default for Opts {
    fn default() -> (o: Opts)
        ensures
            o == default_opts(),
    {
        Opts {
            padding: 0x4034000000000000u64,
            block_gap: 0x4046000000000000u64,
            first_port: 0x4030000000000000u64,
            port_gap: 0x404e000000000000u64,
            bend_radius: 0x4028000000000000u64,
            track_padding: 0x4042000000000000u64,
            joint_gap: 0x4030000000000000u64,
            header_drop: 0x4030000000000000u64,
            layout_iters: 2,
            near_straight: 0x403e000000000000u64,
            comb_iters: 8,
            line_width: 0x3ff0000000000000u64,
            arrow_size: 0x4014000000000000u64,
        }
    }
}

/// Each value of the default options is finite and not negative.
pub proof fn lemma_default_value(b: u64)
    by (bit_vector)
    requires
        b == 0x4034000000000000u64 || b == 0x4046000000000000u64 || b == 0x4030000000000000u64
            || b == 0x404e000000000000u64 || b == 0x4028000000000000u64 || b
            == 0x4042000000000000u64 || b == 0x403e000000000000u64 || b == 0x3ff0000000000000u64
            || b == 0x4014000000000000u64,
    ensures
        is_finite(b),
        !is_negative(b),
{
}

/// The default track padding (36) exceeds the default bend radius (12).
pub proof fn lemma_default_order()
    by (bit_vector)
    ensures
        magnitude(0x4028000000000000u64) < magnitude(0x4042000000000000u64),
{
}

} // verus!
