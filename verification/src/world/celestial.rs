//! Celestial-body textures: RGBA intensity maps filled pixel by pixel.
use vstd::prelude::*;

verus! {

/// The pixel number of column `i`, row `j` in an image `w` pixels wide.
pub open spec fn cell_index(i: int, j: int, w: int) -> int {
    j * w + i
}

/// The four channels stored at byte `k` of an RGBA buffer.
pub open spec fn pixel_at(data: Seq<u8>, k: int) -> [u8; 4] {
    [data[k], data[k + 1], data[k + 2], data[k + 3]]
}

/// Distinct pixels of a `w` by `h` image have distinct numbers below `w * h`.
pub proof fn lemma_cell_index(i: int, j: int, a: int, b: int, w: int, h: int)
    requires
        0 <= i < w,
        0 <= a < w,
        0 <= j < h,
        0 <= b < h,
    ensures
        0 <= cell_index(i, j, w) < w * h,
        cell_index(i, j, w) == cell_index(a, b, w) ==> i == a && j == b,
{
    assert(0 <= j * w + i < w * h) by (nonlinear_arith)
        requires
            0 <= i < w,
            0 <= j < h,
    ;
    if cell_index(i, j, w) == cell_index(a, b, w) {
        assert(j == b) by (nonlinear_arith)
            requires
                j * w + i == b * w + a,
                0 <= i < w,
                0 <= a < w,
                0 <= j,
                0 <= b,
        ;
    }
}

/// The RGBA bytes of a `width` by `height` image whose pixel in column `i`, row `j` is what
/// `evaluate(i, j)` returns; pixels are evaluated column by column.
pub fn intensity_data<F: Fn(usize, usize) -> [u8; 4]>(width: usize, height: usize, evaluate: &F) -> (res: Vec<u8>)
    requires
        width * height * 4 <= usize::MAX,
        forall|i: usize, j: usize| i < width && j < height ==> #[trigger] call_requires(*evaluate, (i, j)),
    ensures
        res@.len() == width * height * 4,
        forall|i: usize, j: usize|
            i < width && j < height ==> #[trigger] call_ensures(
                *evaluate,
                (i, j),
                pixel_at(res@, cell_index(i as int, j as int, width as int) * 4),
            ),
{
    let total = width * height * 4;
    let mut data: Vec<u8> = Vec::new();
    let mut k: usize = 0;
    while k < total
        invariant
            k <= total,
            data@.len() == k,
        decreases total - k,
    {
        data.push(0);
        k += 1;
    }
    let mut i: usize = 0;
    while i < width
        invariant
            i <= width,
            total == width * height * 4,
            total <= usize::MAX,
            data@.len() == total,
            forall|a: usize, b: usize| a < width && b < height ==> #[trigger] call_requires(*evaluate, (a, b)),
            forall|a: usize, b: usize|
                a < i && b < height ==> #[trigger] call_ensures(
                    *evaluate,
                    (a, b),
                    pixel_at(data@, cell_index(a as int, b as int, width as int) * 4),
                ),
        decreases width - i,
    {
        let mut j: usize = 0;
        while j < height
            invariant
                i < width,
                j <= height,
                total == width * height * 4,
                total <= usize::MAX,
                data@.len() == total,
                forall|a: usize, b: usize| a < width && b < height ==> #[trigger] call_requires(*evaluate, (a, b)),
                forall|a: usize, b: usize|
                    (a < i && b < height) || (a == i && b < j) ==> #[trigger] call_ensures(
                        *evaluate,
                        (a, b),
                        pixel_at(data@, cell_index(a as int, b as int, width as int) * 4),
                    ),
            decreases height - j,
        {
            proof {
                lemma_cell_index(i as int, j as int, i as int, j as int, width as int, height as int);
                assert(cell_index(i as int, j as int, width as int) * 4 + 3 < total) by (nonlinear_arith)
                    requires
                        0 <= cell_index(i as int, j as int, width as int) < width * height,
                        total == width * height * 4,
                ;
            }
            let pixel = evaluate(i, j);
            let index = (j * width + i) * 4;
            let ghost before = data@;
            data.set(index, pixel[0]);
            data.set(index + 1, pixel[1]);
            data.set(index + 2, pixel[2]);
            data.set(index + 3, pixel[3]);
            proof {
                assert(pixel_at(data@, index as int) =~= pixel);
                assert forall|a: usize, b: usize|
                    (a < i && b < height) || (a == i && b < j + 1) implies #[trigger] call_ensures(
                        *evaluate,
                        (a, b),
                        pixel_at(data@, cell_index(a as int, b as int, width as int) * 4),
                    ) by {
                    if a != i || b != j {
                        lemma_cell_index(i as int, j as int, a as int, b as int, width as int, height as int);
                        lemma_cell_index(a as int, b as int, a as int, b as int, width as int, height as int);
                        let other = cell_index(a as int, b as int, width as int);
                        let here = cell_index(i as int, j as int, width as int);
                        assert(other != here);
                        assert(other * 4 + 3 < index || here * 4 + 3 < other * 4) by (nonlinear_arith)
                            requires
                                other != here,
                                0 <= other,
                                0 <= here,
                                index == here * 4,
                        ;
                        assert(other * 4 + 3 < total) by (nonlinear_arith)
                            requires
                                0 <= other < width * height,
                                total == width * height * 4,
                        ;
                        assert(data@[other * 4] == before[other * 4]);
                        assert(data@[other * 4 + 1] == before[other * 4 + 1]);
                        assert(data@[other * 4 + 2] == before[other * 4 + 2]);
                        assert(data@[other * 4 + 3] == before[other * 4 + 3]);
                        assert(pixel_at(data@, other * 4) == pixel_at(before, other * 4));
                    }
                }
            }
            j += 1;
        }
        i += 1;
    }
    data
}

/// The colors of the test pattern, four RGBA pixels in a row.
pub open spec fn debug_palette() -> Seq<u8> {
    seq![
        255u8, 102, 159, 255, 255, 159, 102, 255, 236, 255, 102, 255, 121, 255, 102, 255, 102, 255, 198, 255, 102,
        198, 255, 255, 121, 102, 255, 255, 236, 102, 255, 255,
    ]
}

/// The RGBA bytes of the 8 by 8 test pattern: row `y` is the palette (eight pixels) rotated
/// right by `y` pixels, so byte `k` (row `k / 32`, column byte `k % 32`) is palette byte
/// `(k % 32 - 4 * (k / 32)) mod 32`.
pub fn uv_debug_texture_data() -> (res: Vec<u8>)
    ensures
        res@.len() == 256,
        forall|k: int| 0 <= k < 256 ==> #[trigger] res@[k] == debug_palette()[(k % 32 + 32 - 4 * (k / 32)) % 32],
{
    let palette: [u8; 32] = [
        255, 102, 159, 255, 255, 159, 102, 255, 236, 255, 102, 255, 121, 255, 102, 255, 102, 255, 198, 255, 102, 198,
        255, 255, 121, 102, 255, 255, 236, 102, 255, 255,
    ];
    assert(palette@ =~= debug_palette());
    let mut data: Vec<u8> = Vec::new();
    let mut k: usize = 0;
    while k < 256
        invariant
            k <= 256,
            palette@ == debug_palette(),
            data@.len() == k,
            forall|j: int| 0 <= j < k ==> #[trigger] data@[j] == debug_palette()[(j % 32 + 32 - 4 * (j / 32)) % 32],
        decreases 256 - k,
    {
        let row = k / 32;
        let column = k % 32;
        assert(row < 8);
        let source = (column + 32 - 4 * row) % 32;
        data.push(palette[source]);
        k += 1;
    }
    data
}

} // verus!
