//! The exact half of kernel synthesis: the grid of squared distances from
//! the kernel's center that every radial weight function is evaluated on.
//!
//! A radial kernel of side `size` uses the pixel-center convention: the cell
//! in column `x` and row `y` lies at offset `x + 1/2 - size/2` horizontally
//! and `y + 1/2 - size/2` vertically from the center. Both offsets are
//! half-integers, so four times the squared Euclidean distance is an exact
//! integer, computed here without rounding. Evaluating a weight function on
//! these distances and normalizing the weights is floating-point work that
//! happens outside this crate.

use vstd::prelude::*;
use vstd::arithmetic::div_mod::lemma_fundamental_div_mod_converse;

verus! {

/// Largest admissible kernel side: keeps the squared offsets, each below
/// `size * size`, and their sum within machine integers.
pub const MAX_KERNEL_SIZE: usize = 0x4000_0000;

/// Four times the squared distance from the cell center `(x + 1/2, y + 1/2)`
/// to the grid center `(size/2, size/2)`:
/// `(2x + 1 - size)^2 + (2y + 1 - size)^2`.
pub open spec fn quad_dist(size: int, x: int, y: int) -> int {
    let dx = 2 * x + 1 - size;
    let dy = 2 * y + 1 - size;
    dx * dx + dy * dy
}

/// The radial grid of side `size`, row major: cell `p` is in column
/// `p % size` of row `p / size` and holds its quadrupled squared distance
/// from the grid center.
pub open spec fn radial_grid(size: int) -> Seq<u64> {
    Seq::new((size * size) as nat, |p: int| quad_dist(size, p % size, p / size) as u64)
}

/// Build the grid of quadrupled squared distances that a `size x size`
/// radial kernel evaluates its weight function on.
pub fn generate_radial_grid(size: usize) -> (grid: Vec<u64>)
    requires
        1 <= size <= MAX_KERNEL_SIZE,
    ensures
        grid@ == radial_grid(size as int),
{
    let mut grid: Vec<u64> = Vec::new();
    let ghost target = radial_grid(size as int);

    proof {
        assert(0 * size == 0) by (nonlinear_arith);
        assert(0 * size <= size * size) by (nonlinear_arith);
    }
    for y in 0..size
        invariant
            1 <= size <= MAX_KERNEL_SIZE,
            grid@.len() == y * size,
            y * size <= size * size,
            forall|p: int| 0 <= p < grid@.len() ==> grid@[p] == target[p],
            target == radial_grid(size as int),
            target.len() == size * size,
    {
        for x in 0..size
            invariant
                1 <= size <= MAX_KERNEL_SIZE,
                y < size,
                grid@.len() == y * size + x,
                y * size + x <= size * size,
                forall|p: int| 0 <= p < grid@.len() ==> grid@[p] == target[p],
                target == radial_grid(size as int),
                target.len() == size * size,
    {
            let dx: i64 = 2 * (x as i64) + 1 - (size as i64);
            let dy: i64 = 2 * (y as i64) + 1 - (size as i64);
            proof {
                assert(-0x4000_0000 <= dx <= 0x4000_0000);
                assert(-0x4000_0000 <= dy <= 0x4000_0000);
                assert(0 <= dx * dx <= 0x1000_0000_0000_0000) by (nonlinear_arith)
                    requires
                        -0x4000_0000 <= dx <= 0x4000_0000,
                ;
                assert(0 <= dy * dy <= 0x1000_0000_0000_0000) by (nonlinear_arith)
                    requires
                        -0x4000_0000 <= dy <= 0x4000_0000,
                ;
                assert(y * size + x < size * size) by (nonlinear_arith)
                    requires
                        0 <= x < size,
                        0 <= y < size,
                ;
                lemma_fundamental_div_mod_converse(
                    y * size + x,
                    size as int,
                    y as int,
                    x as int,
                );
                assert(target[y * size + x] == quad_dist(size as int, x as int, y as int) as u64);
                assert(dx * dx + dy * dy == quad_dist(size as int, x as int, y as int));
                assert(y * size + x + 1 <= size * size) by (nonlinear_arith)
                    requires
                        0 <= x < size,
                        0 <= y < size,
                ;
            }
            let q: u64 = ((dx * dx) as u64) + ((dy * dy) as u64);
            grid.push(q);
        }
        proof {
            assert(y * size + size == (y + 1) * size) by (nonlinear_arith);
            assert((y + 1) * size <= size * size) by (nonlinear_arith)
                requires
                    0 <= y < size,
            ;
        }
    }
    proof {
        assert(grid@ =~= target);
    }
    grid
}

} // verus!
