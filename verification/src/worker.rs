//! What a worker computes apart from the escape-time arithmetic itself: the
//! WebSocket address of the coordinator and the row-major layout of a block.
use vstd::prelude::*;

use crate::text::{replace_all, replace_all_text};

verus! {

/// Position of the pixel in row `row` and column `col` of a row-major
/// buffer whose rows hold `width` pixels.
pub open spec fn pixel_index(width: int, row: int, col: int) -> int {
    row * width + col
}

/// `data` holds, row by row, what `eval` gives for every pixel of the rows
/// `start_row..end_row` of a picture `width` pixels wide.
pub open spec fn is_block_of<F: Fn(u32, u32) -> u32>(
    data: Seq<u32>,
    width: u32,
    start_row: u32,
    end_row: u32,
    eval: F,
) -> bool {
    &&& data.len() == (end_row - start_row) * width
    &&& forall|r: int, c: int|
        0 <= r < end_row - start_row && 0 <= c < width ==> call_ensures(
            eval,
            ((start_row + r) as u32, c as u32),
            #[trigger] data[pixel_index(width as int, r, c)],
        )
}

/// `eval` gives one value per pixel.
pub open spec fn is_deterministic<F: Fn(u32, u32) -> u32>(eval: F) -> bool {
    forall|row: u32, col: u32, x: u32, y: u32|
        #![trigger call_ensures(eval, (row, col), x), call_ensures(eval, (row, col), y)]
        call_ensures(eval, (row, col), x) && call_ensures(eval, (row, col), y) ==> x == y
}

/// The WebSocket endpoint of a coordinator reachable at `coordinator_url`:
/// the HTTP schemes become WebSocket schemes and `/ws` is appended.
pub open spec fn ws_url(coordinator_url: Seq<char>) -> Seq<char> {
    replace_all(replace_all(coordinator_url, "https://"@, "wss://"@), "http://"@, "ws://"@)
        + "/ws"@
}

/// Builds the WebSocket URL of the coordinator: every `https://` becomes
/// `wss://`, then every `http://` becomes `ws://`, and `/ws` is appended.
pub fn build_ws_url(coordinator_url: &str) -> (url: String)
    ensures
        url@ == ws_url(coordinator_url@),
{
    proof {
        reveal_strlit("https://");
        reveal_strlit("http://");
    }
    let secure = replace_all_text(coordinator_url, "https://", "wss://");
    let plain = replace_all_text(secure.as_str(), "http://", "ws://");
    plain.concat("/ws")
}

proof fn lemma_row_bound(width: int, r: int, c: int, rows: int)
    requires
        0 <= c < width,
        0 <= r < rows,
    ensures
        0 <= pixel_index(width, r, c) < rows * width,
        pixel_index(width, r, c) + 1 <= (r + 1) * width,
{
    assert(r * width + c < (r + 1) * width) by (nonlinear_arith)
        requires
            0 <= c < width,
    ;
    assert((r + 1) * width <= rows * width) by (nonlinear_arith)
        requires
            r + 1 <= rows,
            0 < width,
    ;
    assert(0 <= r * width) by (nonlinear_arith)
        requires
            0 <= r,
            0 < width,
    ;
}

/// Evaluates `eval` on every pixel of the rows `start_row..end_row` of a
/// picture `width` pixels wide, and lays the values out row by row: the
/// value of row `start_row + r`, column `c` stands at `r * width + c`.
pub fn fill_block<F: Fn(u32, u32) -> u32>(
    width: u32,
    start_row: u32,
    end_row: u32,
    eval: F,
) -> (data: Vec<u32>)
    requires
        start_row <= end_row,
        (end_row - start_row) * width <= u32::MAX,
        forall|row: u32, col: u32|
            start_row <= row < end_row && col < width ==> call_requires(eval, (row, col)),
    ensures
        is_block_of(data@, width, start_row, end_row, eval),
{
    let num_rows = end_row - start_row;
    let mut data: Vec<u32> = Vec::with_capacity((num_rows * width) as usize);
    let mut row = start_row;
    while row < end_row
        invariant
            start_row <= row <= end_row,
            (end_row - start_row) * width <= u32::MAX,
            data@.len() == (row - start_row) * width,
            forall|row: u32, col: u32|
                start_row <= row < end_row && col < width ==> call_requires(eval, (row, col)),
            forall|r: int, c: int|
                0 <= r < row - start_row && 0 <= c < width ==> call_ensures(
                    eval,
                    ((start_row + r) as u32, c as u32),
                    #[trigger] data@[pixel_index(width as int, r, c)],
                ),
        decreases end_row - row,
    {
        let ghost done = data@;
        let ghost r0 = row - start_row;
        let mut col: u32 = 0;
        while col < width
            invariant
                start_row <= row < end_row,
                r0 == row - start_row,
                col <= width,
                done.len() == r0 * width,
                data@.len() == r0 * width + col,
                forall|k: int| 0 <= k < done.len() ==> data@[k] == done[k],
                forall|row: u32, col: u32|
                    start_row <= row < end_row && col < width ==> call_requires(eval, (row, col)),
                forall|c: int|
                    0 <= c < col ==> call_ensures(
                        eval,
                        (row, c as u32),
                        #[trigger] data@[pixel_index(width as int, r0, c)],
                    ),
            decreases width - col,
        {
            let value = eval(row, col);
            data.push(value);
            col = col + 1;
        }
        proof {
            assert((r0 + 1) * width == r0 * width + width) by (nonlinear_arith);
            assert forall|r: int, c: int|
                0 <= r < r0 + 1 && 0 <= c < width implies call_ensures(
                eval,
                ((start_row + r) as u32, c as u32),
                #[trigger] data@[pixel_index(width as int, r, c)],
            ) by {
                lemma_row_bound(width as int, r, c, r0 + 1);
                if r < r0 {
                    lemma_row_bound(width as int, r, c, r0);
                    assert(data@[pixel_index(width as int, r, c)] == done[pixel_index(
                        width as int,
                        r,
                        c,
                    )]);
                }
            }
        }
        row = row + 1;
    }
    data
}

/// Splits an index of a row-major buffer into its row and column.
proof fn lemma_split_index(width: int, k: int)
    requires
        width > 0,
        k >= 0,
    ensures
        0 <= k / width,
        0 <= k % width < width,
        k == pixel_index(width, k / width, k % width),
{
    vstd::arithmetic::div_mod::lemma_fundamental_div_mod(k, width);
    assert(0 <= k / width) by (nonlinear_arith)
        requires
            k >= 0,
            width > 0,
    ;
    assert(width * (k / width) == (k / width) * width) by (nonlinear_arith);
}

/// With an evaluator that gives one value per pixel, the rows
/// `start_row..mid_row` followed by the rows `mid_row..end_row` are the rows
/// `start_row..end_row`.
pub proof fn lemma_blocks_concatenate<F: Fn(u32, u32) -> u32>(
    width: u32,
    start_row: u32,
    mid_row: u32,
    end_row: u32,
    eval: F,
    upper: Seq<u32>,
    lower: Seq<u32>,
    whole: Seq<u32>,
)
    requires
        start_row <= mid_row <= end_row,
        is_deterministic(eval),
        is_block_of(upper, width, start_row, mid_row, eval),
        is_block_of(lower, width, mid_row, end_row, eval),
        is_block_of(whole, width, start_row, end_row, eval),
    ensures
        upper + lower == whole,
{
    let w = width as int;
    let n1 = (mid_row - start_row) as int;
    let n2 = (end_row - mid_row) as int;
    assert((end_row - start_row) * w == n1 * w + n2 * w) by (nonlinear_arith)
        requires
            n1 + n2 == end_row - start_row,
    ;
    if w > 0 {
        assert forall|k: int| 0 <= k < whole.len() implies (upper + lower)[k] == whole[k] by {
            if k < n1 * w {
                lemma_split_index(w, k);
                let r = k / w;
                let c = k % w;
                assert(r < n1) by (nonlinear_arith)
                    requires
                        k == r * w + c,
                        k < n1 * w,
                        0 <= c,
                        w > 0,
                ;
                assert(r < n1 + n2);
                assert(upper[pixel_index(w, r, c)] == upper[k]);
                assert(whole[pixel_index(w, r, c)] == whole[k]);
            } else {
                let k2 = k - n1 * w;
                lemma_split_index(w, k2);
                let r = k2 / w;
                let c = k2 % w;
                assert(r < n2) by (nonlinear_arith)
                    requires
                        k2 == r * w + c,
                        k2 < n2 * w,
                        0 <= c,
                        w > 0,
                ;
                assert(pixel_index(w, n1 + r, c) == k) by (nonlinear_arith)
                    requires
                        k2 == r * w + c,
                        k2 == k - n1 * w,
                ;
                assert(lower[pixel_index(w, r, c)] == lower[k2]);
                assert(whole[pixel_index(w, n1 + r, c)] == whole[k]);
                assert((start_row + (n1 + r)) as u32 == (mid_row + r) as u32);
            }
        }
    } else {
        assert(n1 * w == 0 && n2 * w == 0) by (nonlinear_arith)
            requires
                w == 0,
        ;
    }
    assert(upper + lower =~= whole);
}

/// With an evaluator that gives one value per pixel, two blocks of the same
/// rows are equal.
pub proof fn lemma_blocks_repeatable<F: Fn(u32, u32) -> u32>(
    width: u32,
    start_row: u32,
    end_row: u32,
    eval: F,
    first: Seq<u32>,
    second: Seq<u32>,
)
    requires
        start_row <= end_row,
        is_deterministic(eval),
        is_block_of(first, width, start_row, end_row, eval),
        is_block_of(second, width, start_row, end_row, eval),
    ensures
        first == second,
{
    let w = width as int;
    let n = (end_row - start_row) as int;
    assert forall|k: int| 0 <= k < first.len() implies first[k] == second[k] by {
        lemma_split_index(w, k);
        let r = k / w;
        let c = k % w;
        assert(r < n) by (nonlinear_arith)
            requires
                k == r * w + c,
                k < n * w,
                0 <= c,
                w > 0,
        ;
        assert(first[pixel_index(w, r, c)] == first[k]);
        assert(second[pixel_index(w, r, c)] == second[k]);
    }
    assert(first =~= second);
}

} // verus!
