//! From a scale and a seed to the finished image.

use crate::canvas::Canvas;
use crate::canvas::blank;
use crate::curve::bit_depth;
use crate::curve::bits_for;
use crate::curve::color_base_to_color;
use crate::curve::color_of;
use crate::curve::curve_base;
use crate::lattice::Edge;
use crate::lattice::Location;
use crate::preorder::preorder;
use crate::random::draw_below;
use crate::random::range_draw;
use crate::random::seed_generator;
use crate::random::seeded_state;
use crate::random::shuffle_draw;
use crate::tree::chosen;
use crate::tree::shuffled_edges;
use crate::tree::spanning_tree;
use crate::walk::walk;
use vstd::prelude::*;

verus! {

/// Why no image can be made.
#[derive(Clone, Copy, Debug, PartialEq, Eq, Structural)]
pub enum ConfigError {
    /// The scale is zero: the grid would have no cells.
    ZeroScale,
    /// The scale is beyond what this machine's buffers can hold.
    ScaleTooLarge,
}

/// The side of the grid for a scale: its cube.
pub open spec fn side_of(scale: int) -> int {
    scale * scale * scale
}

/// The grid for `scale` can be held: the side fits the image's 32-bit
/// dimensions, and the largest buffer, 48 bytes for each cell, fits a
/// vector.
pub open spec fn fits(scale: int) -> bool {
    side_of(scale) <= u32::MAX && 48 * (side_of(scale) * side_of(scale)) <= isize::MAX
}

/// The image after the first `k` cells of `order` have been painted, each
/// with the colour of its place in the order, on a black square of side
/// `side`.
pub open spec fn painted(order: Seq<Location>, scale: nat, side: int, k: nat) -> Map<
    (int, int),
    Seq<u8>,
>
    decreases k,
{
    if k == 0 {
        blank(side, side)
    } else {
        painted(order, scale, side, (k - 1) as nat).insert(
            (order[k - 1].row as int, order[k - 1].col as int),
            color_of((k - 1) as nat, scale),
        )
    }
}

/// The cell at which the walk for `seed` starts: row and column are the two
/// draws that follow the shuffle.
pub open spec fn start_of(side: usize, seed: u64) -> Location {
    let shuffled = shuffle_draw(seeded_state(seed), (2 * (side * side)) as nat).1;
    let row = range_draw(shuffled, side as u64);
    let col = range_draw(row.1, side as u64);
    Location { row: row.0 as usize, col: col.0 as usize }
}

/// The tree for `seed` on a grid of side `side`: the candidate edges,
/// shuffled by the fresh generator, then kept or left out one by one.
pub open spec fn tree_of(side: usize, seed: u64) -> Set<Edge> {
    chosen(side, shuffled_edges(side, seeded_state(seed)), (2 * (side * side)) as nat)
}

/// The order in which the walk for `seed` visits the cells of a grid of
/// side `side`: from the start cell down the tree, each cell before all
/// that lies below it.
pub open spec fn order_of(side: usize, seed: u64) -> Seq<Location> {
    preorder(tree_of(side, seed), side, (start_of(side, seed), None), (side * side) as nat)
}

/// The image for a scale and a seed.
pub open spec fn image_of(scale: usize, seed: u64) -> Map<(int, int), Seq<u8>> {
    let side = side_of(scale as int);
    painted(order_of(side as usize, seed), scale as nat, side, (side * side) as nat)
}

/// Every pixel of `image` has three channels, each a byte.
pub open spec fn is_rgb(image: Map<(int, int), Seq<u8>>) -> bool {
    forall|at: (int, int)|
        image.dom().contains(at) ==> (#[trigger] image[at]).len() == 3 && forall|channel: int|
            0 <= channel < 3 ==> 0 <= #[trigger] image[at][channel] <= 255
}

/// `result` is what `make_image` owes for `scale` and `seed`: the error for
/// a scale of zero or a scale too large, and otherwise the image of that
/// scale and seed.
pub open spec fn is_image_for(result: Result<Canvas, ConfigError>, scale: usize, seed: u64) -> bool {
    match result {
        Err(ConfigError::ZeroScale) => scale == 0,
        Err(ConfigError::ScaleTooLarge) => scale > 0 && !fits(scale as int),
        Ok(canvas) => {
            &&& scale > 0
            &&& fits(scale as int)
            &&& canvas.spec_width() == side_of(scale as int)
            &&& canvas.spec_height() == side_of(scale as int)
            &&& canvas@ == image_of(scale, seed)
        },
    }
}

/// The same scale and seed always give the same outcome: the same error,
/// or images of the same size that agree in every pixel.
pub proof fn lemma_same_input_same_image(
    first: Result<Canvas, ConfigError>,
    second: Result<Canvas, ConfigError>,
    scale: usize,
    seed: u64,
)
    requires
        is_image_for(first, scale, seed),
        is_image_for(second, scale, seed),
    ensures
        first is Ok <==> second is Ok,
        first is Err ==> first->Err_0 == second->Err_0,
        first is Ok ==> first->Ok_0@ == second->Ok_0@,
        first is Ok ==> first->Ok_0.spec_width() == second->Ok_0.spec_width(),
        first is Ok ==> first->Ok_0.spec_height() == second->Ok_0.spec_height(),
{
}

/// Computes the side of the grid for a scale, if the grid can be held.
pub fn grid_side(scale: usize) -> (side: Option<usize>)
    ensures
        side.is_some() <==> fits(scale as int),
        side matches Some(s) ==> s == side_of(scale as int),
{
    if scale > 1625 {
        assert(side_of(scale as int) > u32::MAX) by (nonlinear_arith)
            requires
                scale >= 1626,
        ;
        return None;
    }
    let wide: u64 = scale as u64;
    assert(wide * wide <= 1625 * 1625 && wide * wide * wide <= 1625 * 1625 * 1625) by (nonlinear_arith)
        requires
            0 <= wide <= 1625,
    ;
    let side: u64 = wide * wide * wide;
    if side > u32::MAX as u64 {
        return None;
    }
    assert(side * side <= 0xffff_ffff * 0xffff_ffff) by (nonlinear_arith)
        requires
            0 <= side <= 0xffff_ffff,
    ;
    let cells: u128 = side as u128 * side as u128;
    let bytes: u128 = cells * 48;
    if bytes > isize::MAX as u128 {
        None
    } else {
        Some(side as usize)
    }
}

/// Paints every cell of `order` with the colour of its place in the order,
/// on a black square whose side is the cube of `scale`.
pub fn colorize(order: &Vec<Location>, scale: usize) -> (canvas: Canvas)
    requires
        scale >= 1,
        fits(scale as int),
        forall|i: int|
            0 <= i < order@.len() ==> (#[trigger] order@[i]).in_grid(side_of(scale as int) as usize),
    ensures
        canvas.spec_width() == side_of(scale as int),
        canvas.spec_height() == side_of(scale as int),
        canvas@ == painted(order@, scale as nat, side_of(scale as int), order@.len()),
        canvas@.dom() == blank(side_of(scale as int), side_of(scale as int)).dom(),
        is_rgb(canvas@),
        order@.no_duplicates() ==> forall|i: int|
            0 <= i < order@.len() ==> #[trigger] canvas@[(
                order@[i].row as int,
                order@[i].col as int,
            )] == color_of(i as nat, scale as nat),
{
    let found = grid_side(scale);
    let side: usize = found.unwrap();
    proof {
        assert(scale * scale <= scale * scale * scale) by (nonlinear_arith)
            requires
                scale >= 1,
        ;
        assert(3 * side * side == 3 * (side * side)) by (nonlinear_arith);
    }
    let color_size: u64 = (scale * scale) as u64;
    let bits: usize = bits_for(color_size);
    proof {
        vstd::arithmetic::power2::lemma2_to64();
        if bits > 32 {
            vstd::arithmetic::power2::lemma_pow2_strictly_increases(32, (bits - 1) as nat);
        }
    }
    let mut canvas = Canvas::black(side as u32, side as u32);
    let mut index: usize = 0;
    while index < order.len()
        invariant
            index <= order.len(),
            side == side_of(scale as int),
            side <= u32::MAX,
            color_size == scale * scale,
            bits == bit_depth(color_size as nat),
            bits <= 32,
            forall|i: int| 0 <= i < order@.len() ==> (#[trigger] order@[i]).in_grid(side),
            canvas.spec_width() == side,
            canvas.spec_height() == side,
            canvas@ == painted(order@, scale as nat, side as int, index as nat),
            canvas@.dom() == blank(side as int, side as int).dom(),
            is_rgb(canvas@),
            order@.no_duplicates() ==> forall|i: int|
                0 <= i < index ==> #[trigger] canvas@[(order@[i].row as int, order@[i].col as int)]
                    == color_of(i as nat, scale as nat),
        decreases order.len() - index,
    {
        let cell = order[index];
        let color = color_base_to_color(curve_base(index as u64, bits), color_size);
        let ghost before = canvas@;
        canvas.paint(cell.row as u32, cell.col as u32, color);
        proof {
            assert(canvas@.dom() =~= before.dom());
            if order@.no_duplicates() {
                assert forall|i: int| 0 <= i < index + 1 implies #[trigger] canvas@[(
                    order@[i].row as int,
                    order@[i].col as int,
                )] == color_of(i as nat, scale as nat) by {
                    if i < index {
                        assert(order@[i] != order@[index as int]);
                    }
                }
            }
        }
        index += 1;
    }
    canvas
}

/// Makes the image for a scale and a seed: a random spanning tree of the
/// grid whose side is the cube of the scale, walked from a random cell,
/// each cell painted with the colour of its place in the walk.
pub fn make_image(scale: usize, seed: u64) -> (result: Result<Canvas, ConfigError>)
    ensures
        scale == 0 <==> result == Err::<Canvas, ConfigError>(ConfigError::ZeroScale),
        scale > 0 && !fits(scale as int) <==> result == Err::<Canvas, ConfigError>(
            ConfigError::ScaleTooLarge,
        ),
        is_image_for(result, scale, seed),
        result is Ok ==> result->Ok_0@.dom() == blank(
            side_of(scale as int),
            side_of(scale as int),
        ).dom(),
        result is Ok ==> is_rgb(result->Ok_0@),
        result is Ok ==> forall|i: int|
            0 <= i < side_of(scale as int) * side_of(scale as int) ==> #[trigger] result->Ok_0@[(
                order_of(side_of(scale as int) as usize, seed)[i].row as int,
                order_of(side_of(scale as int) as usize, seed)[i].col as int,
            )] == color_of(i as nat, scale as nat),
{
    if scale == 0 {
        return Err(ConfigError::ZeroScale);
    }
    let side: usize = match grid_side(scale) {
        Some(side) => side,
        None => {
            return Err(ConfigError::ScaleTooLarge);
        },
    };
    proof {
        assert(side >= 1) by (nonlinear_arith)
            requires
                scale >= 1,
                side == scale * scale * scale,
        ;
    }
    let mut rng = seed_generator(seed);
    let tree = spanning_tree(side, &mut rng);
    let start = Location {
        row: draw_below(&mut rng, side as u64) as usize,
        col: draw_below(&mut rng, side as u64) as usize,
    };
    let order = walk(&tree, start);
    Ok(colorize(&order, scale))
}

} // verus!
