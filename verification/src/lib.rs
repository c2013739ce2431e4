pub mod engine;
pub mod image;

pub use engine::generate;
pub use engine::spec_generate;
pub use engine::valid_inputs;
pub use engine::GenState;
pub use image::in_grid;
pub use image::is_neighbor;
pub use image::neighbors_seq;
pub use image::Image;
pub use image::Rgb;

use vstd::prelude::*;

verus! {

/// Squared-difference distance between two colors: the sum over the three
/// channels of the squared per-channel difference. Monotonic and
/// integer-exact, so comparisons need no square root.
pub open spec fn spec_color_dist(a: Rgb, b: Rgb) -> int {
    let dr = a.0 - b.0;
    let dg = a.1 - b.1;
    let db = a.2 - b.2;
    dr * dr + dg * dg + db * db
}

/// Squared color distance between two colors.
pub fn color_dist(a: Rgb, b: Rgb) -> (r: i32)
    ensures
        r == spec_color_dist(a, b),
        0 <= r <= 3 * 255 * 255,
{
    let dr = a.0 as i32 - b.0 as i32;
    let dg = a.1 as i32 - b.1 as i32;
    let db = a.2 as i32 - b.2 as i32;
    proof {
        lemma_square_bound(dr as int);
        lemma_square_bound(dg as int);
        lemma_square_bound(db as int);
    }
    dr * dr + dg * dg + db * db
}

/// The square of a channel difference is between 0 and 255 * 255.
pub(crate) proof fn lemma_square_bound(d: int)
    requires
        -255 <= d <= 255,
    ensures
        0 <= d * d <= 255 * 255,
{
    assert(0 <= d * d <= 255 * 255) by (nonlinear_arith)
        requires
            -255 <= d <= 255,
    ;
}

} // verus!
