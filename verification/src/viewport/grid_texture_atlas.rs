use vstd::prelude::*;
use crate::viewport::serializable_texture_image::{
    nearest_resized_rgba8, overlay_rgba_on_rgb8, resize_nearest_rgba8, rgb8_overlaid, rgba_fits,
    SerializableTextureImage,
};

verus! {

/// The number of cells along each axis of a square texture atlas, as the shader sees it.
#[derive(Clone, Copy, Debug, PartialEq, Eq, Structural)]
pub struct GridTextureDivisionUniform {
    pub division: u32,
}

impl Default for GridTextureDivisionUniform {
    fn default() -> (r: GridTextureDivisionUniform)
        ensures
            r.division == 0,
    {
        GridTextureDivisionUniform { division: 0 }
    }
}

/// The square root of `n` rounded down, found by halving the range `[lo, hi)` that holds it.
fn isqrt_u32(n: u32) -> (r: u32)
    ensures
        r * r <= n < (r + 1) * (r + 1),
{
    let n64: u64 = n as u64;
    let mut lo: u64 = 0;
    let mut hi: u64 = 65536;
    assert(n64 < hi * hi) by (nonlinear_arith)
        requires
            n64 <= u32::MAX,
            hi == 65536,
    ;
    while hi - lo > 1
        invariant
            lo < hi <= 65536,
            lo * lo <= n64,
            n64 < hi * hi,
            n64 == n,
        decreases hi - lo,
    {
        let mid: u64 = lo + (hi - lo) / 2;
        assert(mid * mid <= 65536 * 65536) by (nonlinear_arith)
            requires
                mid <= 65536,
        ;
        if mid * mid <= n64 {
            lo = mid;
        } else {
            hi = mid;
        }
    }
    assert(hi == lo + 1);
    lo as u32
}

/// Whether `k` cells per axis is the fewest that hold `n` images in a square grid.
pub open spec fn is_grid_division(n: nat, k: nat) -> bool {
    n <= k * k && (k == 0 || (k - 1) * (k - 1) < n)
}

/// The fewest cells per axis of a square grid that holds `p_image_count` images: the square
/// root rounded up.
pub fn grid_division(p_image_count: u32) -> (r: u32)
    ensures
        is_grid_division(p_image_count as nat, r as nat),
{
    let n: u64 = p_image_count as u64;
    let mut k: u32 = isqrt_u32(p_image_count);
    proof {
        if k >= 1 {
            assert((k - 1) * (k - 1) < n) by (nonlinear_arith)
                requires
                    k * k <= n,
                    k >= 1,
            ;
        }
        assert(k < 65536) by (nonlinear_arith)
            requires
                k * k <= n,
                n <= u32::MAX,
        ;
    }
    let ghost k0 = k;
    proof {
        assert(k * k <= 0x1_0000_0000) by (nonlinear_arith)
            requires
                k < 65536,
        ;
    }
    while (k as u64) * (k as u64) < n
        invariant
            k0 * k0 <= n < (k0 + 1) * (k0 + 1),
            k0 <= k <= k0 + 1,
            k == 0 || (k - 1) * (k - 1) < n,
            n <= u32::MAX,
            k0 < 65536,
            k * k <= 0x1_0000_0000,
        decreases k0 + 1 - k,
    {
        proof {
            assert(k == k0) by (nonlinear_arith)
                requires
                    k * k < n,
                    n < (k0 + 1) * (k0 + 1),
                    k0 <= k <= k0 + 1,
            ;
        }
        k = k + 1;
        proof {
            assert(k * k <= 0x1_0000_0000) by (nonlinear_arith)
                requires
                    k <= 65536,
            ;
        }
    }
    k
}

/// The cell of image `p_index` in a grid of `p_division` cells per axis: column
/// `p_index % p_division`, row `p_index / p_division`.
pub fn grid_cell(p_index: usize, p_division: u32) -> (r: (u32, u32))
    requires
        p_division > 0,
        p_index < p_division * p_division,
    ensures
        r.0 == (p_index as int) % (p_division as int),
        r.1 == (p_index as int) / (p_division as int),
        r.0 < p_division,
        r.1 < p_division,
{
    let k = p_division as usize;
    proof {
        assert((p_index as int) / (k as int) < k) by (nonlinear_arith)
            requires
                k > 0,
                p_index < k * k,
        ;
    }
    ((p_index % k) as u32, (p_index / k) as u32)
}

/// Distinct images of a grid occupy distinct cells.
pub proof fn lemma_grid_cells_distinct(i: int, j: int, k: int)
    requires
        k > 0,
        0 <= i < k * k,
        0 <= j < k * k,
        i != j,
    ensures
        i % k != j % k || i / k != j / k,
{
    assert(i == k * (i / k) + i % k) by (nonlinear_arith)
        requires
            k > 0,
    ;
    assert(j == k * (j / k) + j % k) by (nonlinear_arith)
        requires
            k > 0,
    ;
}

/// How a square atlas of cells of `p_cell_size` pixels holds `p_image_count` images: the cells
/// per axis, the side of the atlas in pixels, and the top-left pixel of each image's cell, in
/// image order, row by row. With no image the atlas is one empty cell and the division is 0.
pub fn grid_atlas_layout(p_image_count: u32, p_cell_size: u32) -> (r: (u32, u32, Vec<(u32, u32)>))
    requires
        p_cell_size > 0,
        forall|k: nat| #[trigger] is_grid_division(p_image_count as nat, k) ==> k * p_cell_size <= u32::MAX,
    ensures
        p_image_count == 0 ==> r.0 == 0 && r.1 == p_cell_size && r.2@.len() == 0,
        p_image_count > 0 ==> is_grid_division(p_image_count as nat, r.0 as nat) && r.1 == r.0
            * p_cell_size,
        r.2@.len() == p_image_count,
        forall|i: int|
            0 <= i < p_image_count ==> #[trigger] r.2@[i] == (((i % (r.0 as int)) * p_cell_size) as u32, (
            (i / (r.0 as int)) * p_cell_size) as u32),
{
    if p_image_count == 0 {
        return (0, p_cell_size, Vec::new());
    }
    let division = grid_division(p_image_count);
    proof {
        assert(division * p_cell_size <= u32::MAX);
        assert(division > 0) by (nonlinear_arith)
            requires
                p_image_count <= division * division,
                p_image_count > 0,
        ;
    }
    let side = division * p_cell_size;
    let mut offsets: Vec<(u32, u32)> = Vec::new();
    let mut i: u32 = 0;
    while i < p_image_count
        invariant
            i <= p_image_count,
            division > 0,
            is_grid_division(p_image_count as nat, division as nat),
            division * p_cell_size <= u32::MAX,
            offsets@.len() == i,
            forall|j: int|
                0 <= j < i ==> #[trigger] offsets@[j] == (((j % (division as int)) * p_cell_size) as u32, (
                (j / (division as int)) * p_cell_size) as u32),
        decreases p_image_count - i,
    {
        let (x, y) = grid_cell(i as usize, division);
        proof {
            assert(x * p_cell_size <= division * p_cell_size) by (nonlinear_arith)
                requires
                    x < division,
            ;
            assert(y * p_cell_size <= division * p_cell_size) by (nonlinear_arith)
                requires
                    y < division,
            ;
        }
        offsets.push((x * p_cell_size, y * p_cell_size));
        i = i + 1;
    }
    (division, side, offsets)
}

/// The bytes of an RGB atlas of `side` x `side` pixels after the images `images` (each as
/// width, height and RGBA bytes), resized to cells of `cell` pixels with the nearest-pixel
/// filter, are laid on a black atlas one after the other, image `i` in cell `i` of a grid of
/// `division` cells per axis, row by row.
pub open spec fn atlas_bytes(images: Seq<(u32, u32, Seq<u8>)>, cell: u32, division: u32, side: u32) -> Seq<u8>
    decreases images.len(),
{
    if images.len() == 0 {
        Seq::new((3 * side * side) as nat, |i: int| 0u8)
    } else {
        let i = images.len() - 1;
        let image = images.last();
        rgb8_overlaid(
            atlas_bytes(images.drop_last(), cell, division, side),
            side,
            nearest_resized_rgba8(image.0, image.1, image.2, cell, cell),
            cell,
            cell,
            ((i % (division as int)) * cell) as u32,
            ((i / (division as int)) * cell) as u32,
        )
    }
}

/// Laying one more image on an atlas of `division` cells per axis puts it, resized to one cell,
/// in the next free cell, row by row: in column `cx` and row `cy` of the grid, where
/// `cy * division + cx` is the number of images laid before it.
pub proof fn lemma_atlas_next_cell(
    images: Seq<(u32, u32, Seq<u8>)>,
    image: (u32, u32, Seq<u8>),
    cell: u32,
    division: u32,
    side: u32,
)
    requires
        division > 0,
    ensures
        exists|cx: int, cy: int|
            #![trigger cy * division + cx]
            0 <= cx < division && 0 <= cy && cy * division + cx == images.len() && atlas_bytes(
                images.push(image),
                cell,
                division,
                side,
            ) == rgb8_overlaid(
                atlas_bytes(images, cell, division, side),
                side,
                nearest_resized_rgba8(image.0, image.1, image.2, cell, cell),
                cell,
                cell,
                (cx * cell) as u32,
                (cy * cell) as u32,
            ),
{
    let i = images.len() as int;
    let d = division as int;
    let cx = i % d;
    let cy = i / d;
    assert(images.push(image).drop_last() =~= images);
    vstd::arithmetic::div_mod::lemma_fundamental_div_mod(i, d);
    assert(cy * d + cx == i) by (nonlinear_arith)
        requires
            i == d * (i / d) + i % d,
            cx == i % d,
            cy == i / d,
    ;
    assert(0 <= cx < d);
    assert(0 <= cy) by (nonlinear_arith)
        requires
            i >= 0,
            d > 0,
            cy == i / d,
    ;
    assert(cy * division + cx == images.len());
}

/// Draws the images into a square RGB atlas of cells of `p_cell_size` pixels, each image
/// resized to one cell and laid at the cell that `grid_atlas_layout` gives it. Gives the atlas's
/// bytes, its side in pixels and its cells per axis; with no image, one black cell and 0.
pub fn compose_atlas(p_images: &Vec<SerializableTextureImage>, p_cell_size: u32) -> (r: (Vec<u8>, u32, u32))
    requires
        p_cell_size > 0,
        p_images@.len() <= u32::MAX,
        forall|k: nat| #[trigger] is_grid_division(p_images@.len(), k) ==> k * p_cell_size <= u32::MAX
            && 3 * (k * p_cell_size) * (k * p_cell_size) <= usize::MAX,
        3 * p_cell_size * p_cell_size <= usize::MAX,
        4 * p_cell_size * p_cell_size <= usize::MAX,
        forall|i: int|
            0 <= i < p_images@.len() ==> rgba_fits(
                (#[trigger] p_images@[i]).spec_width(),
                p_images@[i].spec_height(),
                p_images@[i].spec_data().len(),
            ),
    ensures
        p_images@.len() == 0 ==> r.1 == p_cell_size && r.2 == 0,
        p_images@.len() > 0 ==> is_grid_division(p_images@.len(), r.2 as nat) && r.1 == r.2 * p_cell_size,
        r.0@ == atlas_bytes(
            p_images@.map_values(|im: SerializableTextureImage| im@),
            p_cell_size,
            r.2,
            r.1,
        ),
{
    let count = p_images.len() as u32;
    let (division, side, offsets) = grid_atlas_layout(count, p_cell_size);
    proof {
        if count > 0 {
            assert(is_grid_division(p_images@.len(), division as nat));
        }
        assert(3 * side * side <= usize::MAX);
    }
    let side_usize: usize = side as usize;
    proof {
        assert(side_usize * side_usize * 3 == 3 * side * side) by (nonlinear_arith)
            requires
                side_usize == side,
        ;
        assert(side_usize * side_usize <= 3 * side * side) by (nonlinear_arith)
            requires
                side_usize == side,
        ;
    }
    let n: usize = side_usize * side_usize * 3;
    let mut atlas: Vec<u8> = vec![0u8; n];
    let ghost views = p_images@.map_values(|im: SerializableTextureImage| im@);
    proof {
        assert(n == 3 * side * side) by (nonlinear_arith)
            requires
                n == side_usize * side_usize * 3,
                side_usize == side,
        ;
        assert(atlas@ =~= atlas_bytes(views.take(0), p_cell_size, division, side));
    }
    let mut i: usize = 0;
    while i < p_images.len()
        invariant
            i <= p_images@.len(),
            views == p_images@.map_values(|im: SerializableTextureImage| im@),
            p_images@.len() <= u32::MAX,
            count == p_images@.len(),
            offsets@.len() == count,
            count > 0 ==> division > 0,
            forall|j: int|
                0 <= j < count ==> #[trigger] offsets@[j] == (((j % (division as int)) * p_cell_size) as u32, (
                (j / (division as int)) * p_cell_size) as u32),
            4 * p_cell_size * p_cell_size <= usize::MAX,
            forall|j: int|
                0 <= j < p_images@.len() ==> rgba_fits(
                    (#[trigger] p_images@[j]).spec_width(),
                    p_images@[j].spec_height(),
                    p_images@[j].spec_data().len(),
                ),
            atlas@.len() == 3 * side * side,
            atlas@ == atlas_bytes(views.take(i as int), p_cell_size, division, side),
        decreases p_images@.len() - i,
    {
        let image = &p_images[i];
        let data = image.data().clone();
        proof {
            assert(data@ =~= image.spec_data());
        }
        let resized = resize_nearest_rgba8(*image.width(), *image.height(), data, p_cell_size, p_cell_size);
        let (x, y) = offsets[i];
        atlas = overlay_rgba_on_rgb8(atlas, side, resized, p_cell_size, p_cell_size, x, y);
        proof {
            assert(views.take(i + 1).drop_last() =~= views.take(i as int));
            assert(views.take(i + 1).last() == image@);
        }
        i = i + 1;
    }
    proof {
        assert(views.take(p_images@.len() as int) =~= views);
    }
    (atlas, side, division)
}

} // verus!
