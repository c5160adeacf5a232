//! The tile-based coordinator of the first design: the picture is cut into
//! square tiles, workers ask for tiles one at a time, and their RGBA pixels
//! are copied into a picture buffer.
use vstd::prelude::*;

use crate::coordinator::{block_count, lemma_block_count, merge_block};

verus! {

/// Side of a tile, in pixels.
pub const TILE_SIZE: u32 = 64;

/// A tile of the picture: its top-left corner, its size, and the iteration
/// limit to compute it with.
#[derive(Debug, Clone, Copy, PartialEq, Eq, Structural)]
pub struct Task {
    pub x: u32,
    pub y: u32,
    pub width: u32,
    pub height: u32,
    pub max_iterations: u32,
}

/// What the coordinator answers a worker that asks for work.
#[derive(Debug, Clone, Copy, PartialEq, Eq, Structural)]
pub enum CoordinatorCommand {
    AssignTask(Task),
    Finish,
}

/// Tile `tx` of tile row `ty`: cut at the right and bottom edges.
pub open spec fn tile(width: u32, height: u32, max_iterations: u32, ty: int, tx: int) -> Task {
    let x = tx * TILE_SIZE;
    let y = ty * TILE_SIZE;
    Task {
        x: x as u32,
        y: y as u32,
        width: (if x + TILE_SIZE > width {
            width - x
        } else {
            TILE_SIZE as int
        }) as u32,
        height: (if y + TILE_SIZE > height {
            height - y
        } else {
            TILE_SIZE as int
        }) as u32,
        max_iterations,
    }
}

/// Number of tiles across the picture.
pub open spec fn tiles_across(width: u32) -> nat {
    block_count(width as nat, TILE_SIZE as nat)
}

/// The tiles of tile row `ty`, left to right.
pub open spec fn tile_row(width: u32, height: u32, max_iterations: u32, ty: int) -> Seq<Task> {
    Seq::new(tiles_across(width), |tx: int| tile(width, height, max_iterations, ty, tx))
}

/// The tiles of the first `rows` tile rows, row after row.
pub open spec fn tile_grid(width: u32, height: u32, max_iterations: u32, rows: nat) -> Seq<Task>
    decreases rows,
{
    if rows == 0 {
        Seq::empty()
    } else {
        tile_grid(width, height, max_iterations, (rows - 1) as nat) + tile_row(
            width,
            height,
            max_iterations,
            rows - 1,
        )
    }
}

/// All tiles of the picture, top row first, each row left to right.
pub open spec fn all_tiles(width: u32, height: u32, max_iterations: u32) -> Seq<Task> {
    tile_grid(width, height, max_iterations, block_count(height as nat, TILE_SIZE as nat))
}

/// Where row `i` of a tile's pixels starts in the worker's data.
pub open spec fn source_start(task: Task, i: int) -> int {
    i * task.width * 4
}

/// Where row `i` of a tile goes in a picture buffer `picture_width` pixels wide.
pub open spec fn dest_start(task: Task, picture_width: u32, i: int) -> int {
    (task.y + i) * (picture_width * 4) + task.x * 4
}

/// The picture after copying the first `rows` rows of a tile's pixels,
/// one row after the other; a row is copied when both its source and its
/// destination lie inside their buffers.
pub open spec fn blit_rows(
    image: Seq<u8>,
    picture_width: u32,
    task: Task,
    data: Seq<u8>,
    rows: nat,
) -> Seq<u8>
    decreases rows,
{
    if rows == 0 {
        image
    } else {
        let before = blit_rows(image, picture_width, task, data, (rows - 1) as nat);
        let i = rows - 1;
        let row_size = task.width * 4;
        let src = source_start(task, i);
        let dst = dest_start(task, picture_width, i);
        if dst + row_size <= before.len() && src + row_size <= data.len() {
            merge_block(before, dst, data.subrange(src, src + row_size))
        } else {
            before
        }
    }
}

/// The tile coordinator's state as mathematical values.
pub struct TileCoordinatorView {
    pub width: u32,
    pub height: u32,
    pub max_iterations: u32,
    pub tasks: Seq<Task>,
    pub image_buffer: Seq<u8>,
}

/// The tile coordinator: tiles still to hand out and the RGBA picture.
pub struct Coordinator {
    width: u32,
    height: u32,
    max_iterations: u32,
    tasks: Vec<Task>,
    image_buffer: Vec<u8>,
}

impl View for Coordinator {
    type V = TileCoordinatorView;

    closed spec fn view(&self) -> TileCoordinatorView {
        TileCoordinatorView {
            width: self.width,
            height: self.height,
            max_iterations: self.max_iterations,
            tasks: self.tasks@,
            image_buffer: self.image_buffer@,
        }
    }
}

/// The invariant: the buffer holds four bytes per pixel.
pub open spec fn tiles_wf(m: TileCoordinatorView) -> bool {
    &&& m.width * m.height * 4 <= u32::MAX
    &&& m.image_buffer.len() == m.width * m.height * 4
}

/// One request for work: the last waiting tile is handed out and leaves the
/// list, or `Finish` is answered when none is left and nothing changes.
pub open spec fn answer_request(m: TileCoordinatorView) -> (CoordinatorCommand, TileCoordinatorView) {
    if m.tasks.len() == 0 {
        (CoordinatorCommand::Finish, m)
    } else {
        (
            CoordinatorCommand::AssignTask(m.tasks.last()),
            TileCoordinatorView { tasks: m.tasks.drop_last(), ..m },
        )
    }
}

/// The coordinator after answering `k` requests in a row.
pub open spec fn after_requests(m: TileCoordinatorView, k: nat) -> TileCoordinatorView
    decreases k,
{
    if k == 0 {
        m
    } else {
        answer_request(after_requests(m, (k - 1) as nat)).1
    }
}

/// Requests are served from the end of the list, each tile exactly once:
/// the `k`-th request (counting from zero) gets tile `len - 1 - k` while
/// tiles are left, and `Finish` from then on; the waiting list is always the
/// untouched front of the original one, and nothing else changes.
pub proof fn lemma_requests_served_from_the_end(m: TileCoordinatorView, k: nat)
    ensures
        after_requests(m, k).tasks == m.tasks.take(
            if k <= m.tasks.len() {
                m.tasks.len() - k
            } else {
                0
            },
        ),
        after_requests(m, k).image_buffer == m.image_buffer,
        after_requests(m, k).width == m.width,
        after_requests(m, k).height == m.height,
        after_requests(m, k).max_iterations == m.max_iterations,
        answer_request(after_requests(m, k)).0 == if k < m.tasks.len() {
            CoordinatorCommand::AssignTask(m.tasks[m.tasks.len() - 1 - k])
        } else {
            CoordinatorCommand::Finish
        },
    decreases k,
{
    if k == 0 {
        assert(m.tasks.take(m.tasks.len() as int) =~= m.tasks);
    } else {
        lemma_requests_served_from_the_end(m, (k - 1) as nat);
        let prev = after_requests(m, (k - 1) as nat);
        if k <= m.tasks.len() {
            assert(prev.tasks.drop_last() =~= m.tasks.take(m.tasks.len() - k));
        } else {
            assert(prev.tasks.len() == 0);
        }
    }
}

proof fn lemma_tile_grid_len(width: u32, height: u32, max_iterations: u32, rows: nat)
    ensures
        tile_grid(width, height, max_iterations, rows).len() == rows * tiles_across(width),
    decreases rows,
{
    if rows > 0 {
        lemma_tile_grid_len(width, height, max_iterations, (rows - 1) as nat);
        let n = tiles_across(width) as int;
        assert(tile_row(width, height, max_iterations, rows - 1).len() == n);
        assert(rows * n == (rows - 1) * n + n) by (nonlinear_arith);
    } else {
        assert(rows * tiles_across(width) == 0) by (nonlinear_arith)
            requires
                rows == 0,
        ;
    }
}

/// In the list of all tiles, tile `tx` of tile row `ty` stands at
/// `ty * tiles_across + tx`.
pub proof fn lemma_tile_position(
    width: u32,
    height: u32,
    max_iterations: u32,
    rows: nat,
    ty: int,
    tx: int,
)
    requires
        0 <= ty < rows,
        0 <= tx < tiles_across(width),
    ensures
        ty * tiles_across(width) + tx < tile_grid(width, height, max_iterations, rows).len(),
        tile_grid(width, height, max_iterations, rows)[ty * tiles_across(width) + tx] == tile(
            width,
            height,
            max_iterations,
            ty,
            tx,
        ),
    decreases rows,
{
    let n = tiles_across(width) as int;
    lemma_tile_grid_len(width, height, max_iterations, rows);
    lemma_tile_grid_len(width, height, max_iterations, (rows - 1) as nat);
    assert(rows * n == (rows - 1) * n + n) by (nonlinear_arith);
    if ty < rows - 1 {
        lemma_tile_position(width, height, max_iterations, (rows - 1) as nat, ty, tx);
    } else {
        assert(ty * n == (rows - 1) * n);
    }
}

/// Every pixel of the picture lies in a tile: the tile in tile row
/// `py / 64`, column `px / 64`.
pub proof fn lemma_tiles_cover_pixels(
    width: u32,
    height: u32,
    max_iterations: u32,
    px: int,
    py: int,
)
    requires
        0 <= px < width,
        0 <= py < height,
    ensures
        ({
            let t = all_tiles(width, height, max_iterations)[(py / 64) * tiles_across(width) + px
                / 64];
            &&& (py / 64) * tiles_across(width) + px / 64 < all_tiles(
                width,
                height,
                max_iterations,
            ).len()
            &&& t.x <= px < t.x + t.width
            &&& t.y <= py < t.y + t.height
        }),
{
    let tx = px / 64;
    let ty = py / 64;
    vstd::arithmetic::div_mod::lemma_fundamental_div_mod(px, 64);
    vstd::arithmetic::div_mod::lemma_fundamental_div_mod(py, 64);
    lemma_block_in_range(width as int, tx);
    lemma_block_in_range(height as int, ty);
    lemma_tile_position(
        width,
        height,
        max_iterations,
        block_count(height as nat, TILE_SIZE as nat),
        ty,
        tx,
    );
}

proof fn lemma_block_in_range(extent: int, k: int)
    requires
        extent >= 0,
        k >= 0,
        k * 64 < extent,
    ensures
        k < block_count(extent as nat, TILE_SIZE as nat),
{
    let x = extent + 63;
    vstd::arithmetic::div_mod::lemma_fundamental_div_mod(x, 64);
    let c = x / 64;
    if k >= c {
        assert(k * 64 >= c * 64) by (nonlinear_arith)
            requires
                k >= c,
        ;
    }
}

impl Coordinator {
    /// A tile coordinator for a `width` x `height` picture: all tiles
    /// waiting, top row first, and a blank RGBA buffer.
    pub fn new(width: u32, height: u32, max_iterations: u32) -> (c: Self)
        requires
            width * height * 4 <= u32::MAX,
        ensures
            tiles_wf(c@),
            c@.width == width,
            c@.height == height,
            c@.max_iterations == max_iterations,
            c@.tasks == all_tiles(width, height, max_iterations),
            c@.image_buffer == Seq::new((width * height * 4) as nat, |i: int| 0u8),
    {
        let block_size: u32 = TILE_SIZE;
        let mut tasks: Vec<Task> = Vec::new();
        let ghost across = tiles_across(width);
        let mut y: u64 = 0;
        let mut ty: u32 = 0;
        while y < height as u64
            invariant
                width * height * 4 <= u32::MAX,
                block_size == TILE_SIZE,
                y == ty * 64,
                ty <= height,
                ty == 0 || (ty - 1) * 64 < height,
                tasks@ == tile_grid(width, height, max_iterations, ty as nat),
            decreases height - ty,
        {
            assert(ty <= y) by (nonlinear_arith)
                requires
                    y == ty * 64,
            ;
            let h = if y + 64 > height as u64 {
                height - y as u32
            } else {
                block_size
            };
            let mut x: u64 = 0;
            let mut tx: u32 = 0;
            let ghost row = tile_row(width, height, max_iterations, ty as int);
            let ghost done = tasks@;
            while x < width as u64
                invariant
                    block_size == TILE_SIZE,
                    x == tx * 64,
                    tx <= width,
                    tx == 0 || (tx - 1) * 64 < width,
                    y == ty * 64,
                    y < height,
                    h == (if y + 64 > height {
                        height - y
                    } else {
                        64
                    }),
                    tasks@ == done + Seq::new(tx as nat, |k: int| tile(width, height, max_iterations, ty as int, k)),
                decreases width - tx,
            {
                assert(tx <= x) by (nonlinear_arith)
                    requires
                        x == tx * 64,
                ;
                let w = if x + 64 > width as u64 {
                    width - x as u32
                } else {
                    block_size
                };
                let task = Task { x: x as u32, y: y as u32, width: w, height: h, max_iterations };
                assert(task == tile(width, height, max_iterations, ty as int, tx as int));
                tasks.push(task);
                assert(tasks@ =~= done + Seq::new(
                    (tx + 1) as nat,
                    |k: int| tile(width, height, max_iterations, ty as int, k),
                ));
                assert((tx + 1) * 64 == x + 64) by (nonlinear_arith)
                    requires
                        x == tx * 64,
                ;
                x = x + 64;
                tx = tx + 1;
            }
            proof {
                lemma_block_count(width as int, 64, tx as int);
                assert(tasks@ =~= tile_grid(width, height, max_iterations, (ty + 1) as nat));
            }
            assert((ty + 1) * 64 == y + 64) by (nonlinear_arith)
                requires
                    y == ty * 64,
            ;
            y = y + 64;
            ty = ty + 1;
        }
        proof {
            lemma_block_count(height as int, 64, ty as int);
        }
        let c = Coordinator {
            width,
            height,
            max_iterations,
            tasks,
            image_buffer: vec![0u8; (width * height * 4) as usize],
        };
        assert(c@.image_buffer =~= Seq::new((width * height * 4) as nat, |i: int| 0u8));
        c
    }

    /// The answer to a worker asking for work: the last waiting tile, or
    /// `Finish` when none is left.
    pub fn next_command(&mut self) -> (cmd: CoordinatorCommand)
        ensures
            (cmd, final(self)@) == answer_request(old(self)@),
    {
        match self.tasks.pop() {
            Some(task) => {
                assert(self.tasks@ =~= old(self)@.tasks.drop_last());
                CoordinatorCommand::AssignTask(task)
            },
            None => CoordinatorCommand::Finish,
        }
    }

    /// Copies a tile's RGBA pixels, row by row, into the picture; a row is
    /// skipped when it does not fit in the picture or in `data`.
    pub fn process_result(&mut self, task: Task, data: Vec<u8>)
        requires
            tiles_wf(old(self)@),
            old(self)@.width * 4 <= u32::MAX,
            task.width * 4 <= u32::MAX,
            task.height > 0 ==> (task.height - 1) * task.width * 4 <= u32::MAX,
            task.height > 0 ==> task.y + task.height - 1 <= u32::MAX,
        ensures
            final(self)@ == (TileCoordinatorView {
                image_buffer: blit_rows(old(self)@.image_buffer, old(self)@.width, task, data@, task.height as nat),
                ..old(self)@
            }),
    {
        let ghost before = self@;
        let row_size: u32 = task.width * 4;
        let global_width: u32 = self.width * 4;
        let mut i: u32 = 0;
        while i < task.height
            invariant
                i <= task.height,
                row_size == task.width * 4,
                global_width == before.width * 4,
                task.height > 0 ==> (task.height - 1) * task.width * 4 <= u32::MAX,
                task.height > 0 ==> task.y + task.height - 1 <= u32::MAX,
                self.width == before.width,
                self.height == before.height,
                self.max_iterations == before.max_iterations,
                self.tasks@ == before.tasks,
                self.image_buffer@ == blit_rows(before.image_buffer, before.width, task, data@, i as nat),
            decreases task.height - i,
        {
            assert(i * task.width <= (task.height - 1) * task.width) by (nonlinear_arith)
                requires
                    i <= task.height - 1,
            ;
            let src_start: u32 = i * task.width * 4;
            let dest_y: u32 = task.y + i;
            assert(dest_y as u128 * global_width as u128 <= u64::MAX) by (nonlinear_arith)
                requires
                    dest_y <= u32::MAX,
                    global_width <= u32::MAX,
            ;
            let dest: u128 = dest_y as u128 * global_width as u128 + task.x as u128 * 4;
            let ghost image = self.image_buffer@;
            assert(src_start == source_start(task, i as int));
            assert(dest == dest_start(task, before.width, i as int));
            if dest + (row_size as u128) <= self.image_buffer.len() as u128
                && src_start as u128 + (row_size as u128) <= data.len() as u128 {
                let d = dest as usize;
                let s = src_start as usize;
                let n = row_size as usize;
                let mut j: usize = 0;
                while j < n
                    invariant
                        d + n <= self.image_buffer.len(),
                        s + n <= data.len(),
                        j <= n,
                        self.image_buffer@.len() == image.len(),
                        forall|k: int|
                            0 <= k < image.len() ==> #[trigger] self.image_buffer@[k] == if d <= k
                                < d + j {
                                data@[s + k - d]
                            } else {
                                image[k]
                            },
                        self.width == before.width,
                        self.height == before.height,
                        self.max_iterations == before.max_iterations,
                        self.tasks@ == before.tasks,
                    decreases n - j,
                {
                    self.image_buffer.set(d + j, data[s + j]);
                    j = j + 1;
                }
                assert(self.image_buffer@ =~= merge_block(
                    image,
                    d as int,
                    data@.subrange(s as int, s + n),
                ));
            }
            i = i + 1;
        }
    }

    /// A copy of the RGBA picture.
    pub fn get_final_buffer(&self) -> (buffer: Vec<u8>)
        ensures
            buffer@ == self@.image_buffer,
    {
        self.image_buffer.clone()
    }
}

} // verus!
