//! The board: a picture cut into square tiles, their arrangement, moves, and
//! the drawing operations that show it.
use vstd::prelude::*;
use crate::puzzle::{
    after_move, all_home, apply_move, blank_index, lemma_blank_index, blank_of, destination, generate_tiles,
    is_perm, is_permutation, solvable, valid_tiles, Direction,
};
use crate::render::{
    copies, draw_row, look, lemma_painted_run, painted, row_ops, run_ops, Color, DrawOp, Glyph, Run,
};

verus! {

/// Why a board could not be made.
#[derive(Clone, Copy, Debug, PartialEq, Eq, Structural)]
pub enum BuildError {
    /// The board side is below two.
    BoardTooSmall,
    /// The terminal cannot hold two pixel rows per tile row for this side.
    BoardTooLarge,
    /// The picture side is no multiple of the board side, is smaller than
    /// it, or is wider than a terminal can address.
    ImageSizeMismatch,
    /// The picture does not hold side × side pixels.
    PixelCountMismatch,
    /// The tiles are not each of `0..side²` once.
    NotAPermutation,
}

/// What a board holds, as mathematics.
pub struct BoardView {
    pub pixels: Seq<Color>,
    pub img_size: nat,
    pub n: nat,
    pub tiles: Seq<usize>,
}

/// Largest picture side that a terminal of this size can show.
pub open spec fn max_image_size(term_width: u16, term_height: u16) -> int {
    let rows = if term_height == 0 { 0 } else { 2 * (term_height - 1) };
    if rows < term_width { rows } else { term_width as int }
}

/// `parts_error` lists the checks on a board made from its parts, in the
/// order they are made.
pub open spec fn parts_error(pixel_count: nat, img_size: nat, n: nat, tiles: Seq<usize>) -> Option<BuildError> {
    if n < 2 {
        Some(BuildError::BoardTooSmall)
    } else if img_size % n != 0 || img_size < n || img_size > u16::MAX {
        Some(BuildError::ImageSizeMismatch)
    } else if pixel_count != img_size * img_size {
        Some(BuildError::PixelCountMismatch)
    } else if !is_perm(tiles, n * n) {
        Some(BuildError::NotAPermutation)
    } else {
        None
    }
}

/// A picture, its side, the board side and the arrangement of tiles.
pub struct Board {
    img_pixels: Vec<Color>,
    img_size: usize,
    board_size: usize,
    tiles: Vec<usize>,
}

impl View for Board {
    type V = BoardView;

    closed spec fn view(&self) -> BoardView {
        BoardView {
            pixels: self.img_pixels@,
            img_size: self.img_size as nat,
            n: self.board_size as nat,
            tiles: self.tiles@,
        }
    }
}

impl BoardView {
    /// The picture splits into whole tiles, fits a terminal's coordinates,
    /// and the tiles are a permutation.
    pub open spec fn wf(self) -> bool {
        &&& parts_error(self.pixels.len(), self.img_size, self.n, self.tiles) is None
    }

    /// Side of a tile in pixels, and width of its cell in characters.
    pub open spec fn cell_width(self) -> nat {
        self.img_size / self.n
    }

    /// Height of a tile's cell in characters: two pixel rows per character.
    pub open spec fn cell_height(self) -> nat {
        self.cell_width() / 2
    }

    /// Screen column and row of the top-left character of position `p`.
    pub open spec fn screen_origin(self, p: int) -> (int, int) {
        ((p % (self.n as int)) * self.cell_width(), (p / (self.n as int)) * self.cell_height())
    }

    /// Pixel column and row of the top-left pixel of tile `t`.
    pub open spec fn image_origin(self, t: int) -> (int, int) {
        ((t % (self.n as int)) * self.cell_width(), (t / (self.n as int)) * self.cell_width())
    }

    /// One tile width of pixels of picture row `y`, from column `x` on.
    pub open spec fn pixel_row(self, x: int, y: int) -> Seq<Color> {
        self.pixels.subrange(x + y * self.img_size, x + y * self.img_size + self.cell_width())
    }

    /// The first `k` character rows of the cell at position `p`, showing tile `t`.
    pub open spec fn image_rows(self, p: int, t: int, k: nat) -> Seq<DrawOp>
        decreases k,
    {
        if k == 0 {
            Seq::empty()
        } else {
            let (sx, sy) = self.screen_origin(p);
            let (ix, iy) = self.image_origin(t);
            let r = (k - 1) as nat;
            self.image_rows(p, t, r) + row_ops(
                self.pixel_row(ix, iy + 2 * r),
                self.pixel_row(ix, iy + 2 * r + 1),
                sx as u16,
                (sy + r) as u16,
            )
        }
    }

    /// The first `k` character rows of an empty cell at position `p`.
    pub open spec fn blank_rows(self, p: int, k: nat) -> Seq<DrawOp>
        decreases k,
    {
        if k == 0 {
            Seq::empty()
        } else {
            let (sx, sy) = self.screen_origin(p);
            self.blank_rows(p, (k - 1) as nat) + seq![
                DrawOp::MoveTo(sx as u16, (sy + k - 1) as u16),
                DrawOp::ResetColor,
                DrawOp::Print(Glyph::Space, self.cell_width() as usize),
            ]
        }
    }

    /// The operations that draw the cell at position `p`.
    pub open spec fn tile_ops(self, p: int) -> Seq<DrawOp> {
        let t = self.tiles[p];
        if t == blank_of(self.n) {
            self.blank_rows(p, self.cell_height())
        } else {
            self.image_rows(p, t as int, self.cell_height())
        }
    }

    /// The operations that draw the first `k` cells.
    pub open spec fn board_ops(self, k: nat) -> Seq<DrawOp>
        decreases k,
    {
        if k == 0 {
            Seq::empty()
        } else {
            self.board_ops((k - 1) as nat) + self.tile_ops(k - 1)
        }
    }
}

/// Where the cell at position `p`, showing tile `t`, lies on the screen and
/// in the picture: both stay inside the picture, and screen coordinates fit
/// a terminal's.
proof fn lemma_cell_geometry(b: BoardView, p: int, t: int, r: int)
    requires
        b.wf(),
        0 <= p < b.n * b.n,
        0 <= t < b.n * b.n,
        0 <= r <= b.cell_height(),
    ensures
        0 <= b.screen_origin(p).0,
        b.screen_origin(p).0 + b.cell_width() <= b.img_size,
        0 <= b.screen_origin(p).1,
        b.screen_origin(p).1 + b.cell_height() <= b.img_size,
        0 <= b.image_origin(t).0,
        b.image_origin(t).0 + b.cell_width() <= b.img_size,
        0 <= b.image_origin(t).1,
        b.image_origin(t).1 + b.cell_width() <= b.img_size,
        r < b.cell_height() ==> b.image_origin(t).0 + (b.image_origin(t).1 + 2 * r + 1) * b.img_size
            + b.cell_width() <= b.img_size * b.img_size,
        r < b.cell_height() ==> b.image_origin(t).0 + (b.image_origin(t).1 + 2 * r) * b.img_size
            + b.cell_width() <= b.img_size * b.img_size,
        b.img_size <= 65535,
        b.img_size * b.img_size <= usize::MAX,
        b.n * b.n <= usize::MAX,
{
    let n = b.n as int;
    let img = b.img_size as int;
    let w = b.cell_width() as int;
    let h = b.cell_height() as int;
    vstd::arithmetic::div_mod::lemma_fundamental_div_mod(img, n);
    assert(img == n * w);
    let (a, c) = (p % n, p / n);
    let (tx, ty) = (t % n, t / n);
    vstd::arithmetic::div_mod::lemma_fundamental_div_mod(p, n);
    vstd::arithmetic::div_mod::lemma_fundamental_div_mod(t, n);
    assert(0 <= a < n && 0 <= tx < n) by {
        vstd::arithmetic::div_mod::lemma_mod_bound(p, n);
        vstd::arithmetic::div_mod::lemma_mod_bound(t, n);
    }
    assert(0 <= c < n && 0 <= ty < n) by (nonlinear_arith)
        requires
            p == n * c + a,
            t == n * ty + tx,
            0 <= a < n,
            0 <= tx < n,
            0 <= p < n * n,
            0 <= t < n * n,
    ;
    assert(0 <= 2 * h <= w);
    assert(b.screen_origin(p) == (a * w, c * h));
    assert(b.image_origin(t) == (tx * w, ty * w));
    assert(0 <= a * w && a * w + w <= img && 0 <= c * h && c * h + h <= img) by (nonlinear_arith)
        requires
            img == n * w,
            0 <= a < n,
            0 <= c < n,
            0 <= 2 * h <= w,
    ;
    assert(0 <= tx * w && tx * w + w <= img && 0 <= ty * w && ty * w + w <= img) by (nonlinear_arith)
        requires
            img == n * w,
            0 <= tx < n,
            0 <= ty < n,
            0 <= w,
    ;
    if r < h {
        assert(tx * w + (ty * w + 2 * r + 1) * img + w <= img * img) by (nonlinear_arith)
            requires
                img == n * w,
                0 <= tx < n,
                0 <= ty < n,
                0 <= r < h,
                0 <= 2 * h <= w,
        ;
        assert((ty * w + 2 * r) * img <= (ty * w + 2 * r + 1) * img) by (nonlinear_arith)
            requires
                0 <= img,
        ;
    }
    assert(img * img <= 65535 * 65535) by (nonlinear_arith)
        requires
            0 <= img <= 65535,
    ;
    assert(n * n <= img * img) by (nonlinear_arith)
        requires
            1 <= n <= img,
    ;
}

/// A well-formed board's tiles are a valid arrangement for its side.
proof fn lemma_wf_tiles(b: BoardView)
    requires
        b.wf(),
    ensures
        valid_tiles(b.tiles, b.n),
{
    assert(b.n * b.n <= 65535 * 65535) by (nonlinear_arith)
        requires
            1 <= b.n <= 65535,
    ;
}

impl Board {
    /// Side of the picture in pixels.
    pub fn image_size(&self) -> (r: usize)
        ensures
            r == self@.img_size,
    {
        self.img_size
    }

    /// Side of the board in tiles.
    pub fn board_size(&self) -> (r: usize)
        ensures
            r == self@.n,
    {
        self.board_size
    }

    /// The arrangement: which tile stands at each position.
    pub fn tiles(&self) -> (r: &Vec<usize>)
        ensures
            r@ == self@.tiles,
    {
        &self.tiles
    }

    /// True exactly when every tile is at home.
    pub fn is_solved(&self) -> (r: bool)
        ensures
            r == all_home(self@.tiles),
    {
        let mut i: usize = 0;
        while i < self.tiles.len()
            invariant
                0 <= i <= self.tiles@.len(),
                forall|k: int| 0 <= k < i ==> self.tiles@[k] == k,
            decreases self.tiles@.len() - i,
        {
            if self.tiles[i] != i {
                return false;
            }
            i += 1;
        }
        true
    }

    /// A board from its parts, after checking them in the order that
    /// `parts_error` lists.
    pub fn from_parts(img_pixels: Vec<Color>, img_size: usize, board_size: usize, tiles: Vec<usize>) -> (r: Result<Board, BuildError>)
        ensures
            match parts_error(img_pixels@.len(), img_size as nat, board_size as nat, tiles@) {
                Some(e) => r == Err::<Board, BuildError>(e),
                None => r is Ok && r->Ok_0@ == (BoardView {
                    pixels: img_pixels@,
                    img_size: img_size as nat,
                    n: board_size as nat,
                    tiles: tiles@,
                }),
            },
    {
        if board_size < 2 {
            return Err(BuildError::BoardTooSmall);
        }
        if img_size % board_size != 0 || img_size < board_size || img_size > 65535 {
            return Err(BuildError::ImageSizeMismatch);
        }
        proof {
            assert(board_size * board_size <= img_size * img_size <= 65535 * 65535) by (nonlinear_arith)
                requires
                    1 <= board_size <= img_size <= 65535,
            ;
        }
        if img_pixels.len() != img_size * img_size {
            return Err(BuildError::PixelCountMismatch);
        }
        if !is_permutation(&tiles, board_size * board_size) {
            return Err(BuildError::NotAPermutation);
        }
        Ok(Board { img_pixels, img_size, board_size, tiles })
    }

    /// Appends the operations that draw the cell at position `index`: an
    /// empty cell for the gap, else the tile's part of the picture.
    pub fn draw_tile(&self, index: usize, out: &mut Vec<DrawOp>)
        requires
            self@.wf(),
            index < self@.tiles.len(),
        ensures
            final(out)@ == old(out)@ + self@.tile_ops(index as int),
    {
        let ghost b = self@;
        let ghost start = out@;
        let n = self.board_size;
        let img = self.img_size;
        proof {
            vstd::arithmetic::div_mod::lemma_mod_bound(index as int, n as int);
        }
        let tile = self.tiles[index];
        let width = img / n;
        let height = width / 2;
        proof {
            assert(self.tiles@[index as int] < n * n);
            lemma_cell_geometry(b, index as int, tile as int, 0);
        }
        let screen_x = (index % n) * width;
        let screen_y = (index / n) * height;
        let blank = crate::puzzle::blank_tile_num(n);
        if tile == blank {
            let mut r: usize = 0;
            while r < height
                invariant
                    0 <= r <= height,
                    b == self@,
                    b.wf(),
                    index < b.tiles.len(),
                    tile == b.tiles[index as int],
                    tile < n * n,
                    n == b.n,
                    width == b.cell_width(),
                    height == b.cell_height(),
                    (screen_x as int, screen_y as int) == b.screen_origin(index as int),
                    out@ == start + b.blank_rows(index as int, r as nat),
                decreases height - r,
            {
                proof {
                    lemma_cell_geometry(b, index as int, tile as int, r as int);
                }
                out.push(DrawOp::MoveTo(screen_x as u16, (screen_y + r) as u16));
                out.push(DrawOp::ResetColor);
                out.push(DrawOp::Print(Glyph::Space, width));
                proof {
                    assert(out@ =~= start + b.blank_rows(index as int, (r + 1) as nat));
                }
                r += 1;
            }
        } else {
            let img_x = (tile % n) * width;
            let img_y = (tile / n) * width;
            let mut r: usize = 0;
            while r < height
                invariant
                    0 <= r <= height,
                    b == self@,
                    b.wf(),
                    index < b.tiles.len(),
                    tile == b.tiles[index as int],
                    tile < n * n,
                    n == b.n,
                    img == b.img_size,
                    width == b.cell_width(),
                    height == b.cell_height(),
                    (screen_x as int, screen_y as int) == b.screen_origin(index as int),
                    (img_x as int, img_y as int) == b.image_origin(tile as int),
                    out@ == start + b.image_rows(index as int, tile as int, r as nat),
                decreases height - r,
            {
                proof {
                    lemma_cell_geometry(b, index as int, tile as int, r as int);
                }
                let up = img_x + (img_y + 2 * r) * img;
                let low = img_x + (img_y + 2 * r + 1) * img;
                let upper = vstd::slice::slice_subrange(self.img_pixels.as_slice(), up, up + width);
                let lower = vstd::slice::slice_subrange(self.img_pixels.as_slice(), low, low + width);
                draw_row(upper, lower, screen_x as u16, (screen_y + r) as u16, out);
                proof {
                    assert(out@ =~= start + b.image_rows(index as int, tile as int, (r + 1) as nat));
                }
                r += 1;
            }
        }
    }

    /// The operations that draw every cell, position by position.
    pub fn draw(&self) -> (r: Vec<DrawOp>)
        requires
            self@.wf(),
        ensures
            r@ == self@.board_ops(self@.tiles.len()),
    {
        let mut out: Vec<DrawOp> = Vec::new();
        let mut i: usize = 0;
        while i < self.tiles.len()
            invariant
                0 <= i <= self@.tiles.len(),
                self@.wf(),
                out@ == self@.board_ops(i as nat),
            decreases self@.tiles.len() - i,
        {
            self.draw_tile(i, &mut out);
            i += 1;
        }
        out
    }

    /// Slides the neighbour in direction `d` into the gap and returns the
    /// two positions that changed; returns `None`, changing nothing, when
    /// the gap would leave the board.
    pub fn move_tiles(&mut self, direction: Direction) -> (r: Option<(usize, usize)>)
        requires
            old(self)@.wf(),
        ensures
            final(self)@.wf(),
            final(self)@ == (BoardView { tiles: after_move(old(self)@.tiles, old(self)@.n, direction), ..old(self)@ }),
            r == (match destination(blank_index(old(self)@.tiles, old(self)@.n), old(self)@.n, direction) {
                Some(q) => Some((blank_index(old(self)@.tiles, old(self)@.n) as usize, q as usize)),
                None => None::<(usize, usize)>,
            }),
            r matches Some((a, b)) ==> a < old(self)@.tiles.len() && b < old(self)@.tiles.len(),
            destination(blank_index(old(self)@.tiles, old(self)@.n), old(self)@.n, direction) matches Some(q)
                ==> 0 <= q < old(self)@.tiles.len(),
    {
        proof {
            lemma_wf_tiles(self@);
        }
        let r = apply_move(self.board_size, &mut self.tiles, direction);
        proof {
            lemma_blank_index(old(self)@.tiles, old(self)@.n);
        }
        r
    }

    /// Makes a move and returns the operations that redraw the two cells it
    /// changed, or none when the move would leave the board.
    pub fn move_and_draw_tiles(&mut self, direction: Direction) -> (r: Vec<DrawOp>)
        requires
            old(self)@.wf(),
        ensures
            final(self)@.wf(),
            final(self)@.tiles == after_move(old(self)@.tiles, old(self)@.n, direction),
            r@ == (match destination(blank_index(old(self)@.tiles, old(self)@.n), old(self)@.n, direction) {
                Some(q) => final(self)@.tile_ops(blank_index(old(self)@.tiles, old(self)@.n))
                    + final(self)@.tile_ops(q),
                None => Seq::<DrawOp>::empty(),
            }),
    {
        let mut out: Vec<DrawOp> = Vec::new();
        proof {
            lemma_wf_tiles(self@);
            lemma_blank_index(self@.tiles, self@.n);
        }
        match self.move_tiles(direction) {
            Some((a, b)) => {
                self.draw_tile(a, &mut out);
                self.draw_tile(b, &mut out);
            },
            None => {},
        }
        out
    }
}

/// Settings from which a board is made.
pub struct BoardBuilder {
    image: Option<String>,
    crop_image: bool,
    terminal_size: (u16, u16),
    board_size: usize,
}

/// What the settings of a builder are, as mathematics.
pub struct BuilderView {
    pub image: Option<Seq<char>>,
    pub crop_image: bool,
    pub terminal_size: (u16, u16),
    pub board_size: nat,
}

impl View for BoardBuilder {
    type V = BuilderView;

    closed spec fn view(&self) -> BuilderView {
        BuilderView {
            image: match self.image {
                Some(p) => Some(p@),
                None => None,
            },
            crop_image: self.crop_image,
            terminal_size: self.terminal_size,
            board_size: self.board_size as nat,
        }
    }
}

/// `img` is the board side doubled some number of times.
pub open spec fn is_doubling_of(img: int, n: int) -> bool {
    exists|k: nat| img == n * vstd::arithmetic::power2::pow2(k)
}

/// `img` doubled while the double still fits in `max`.
pub open spec fn grown(img: nat, max: nat) -> nat
    decreases max - img,
{
    if 1 <= img && 2 * img <= max {
        grown(2 * img, max)
    } else {
        img
    }
}

/// The picture side for board side `n` when at most `max` pixels fit: the
/// side doubled as often as it fits, provided it fits doubled at least once
/// (each tile row then has at least one character row).
pub open spec fn fit_result(n: nat, max: nat) -> Result<nat, BuildError> {
    if n < 2 {
        Err(BuildError::BoardTooSmall)
    } else if 2 * n > max {
        Err(BuildError::BoardTooLarge)
    } else {
        Ok(grown(n, max))
    }
}

impl BuilderView {
    /// The picture side that these settings call for.
    pub open spec fn fit(self) -> Result<nat, BuildError> {
        fit_result(self.board_size, max_image_size(self.terminal_size.0, self.terminal_size.1) as nat)
    }
}

impl BoardBuilder {
    /// The defaults: the built-in picture, stretched, on an 80 × 24 terminal,
    /// with a board of side four.
    pub fn new() -> (r: Self)
        ensures
            r@ == (BuilderView { image: None, crop_image: false, terminal_size: (80u16, 24u16), board_size: 4 }),
    {
        BoardBuilder { image: None, crop_image: false, terminal_size: (80, 24), board_size: 4 }
    }

    /// Largest picture side that fits the terminal: the board side doubled
    /// as often as it fits, which must be at least once.
    pub fn fit_image_size(&self) -> (r: Result<usize, BuildError>)
        ensures
            r matches Ok(s) ==> self@.fit() == Ok::<nat, BuildError>(s as nat),
            r matches Err(e) ==> self@.fit() == Err::<nat, BuildError>(e),
            r matches Ok(s) ==> is_doubling_of(s as int, self@.board_size as int)
                && 2 * self@.board_size <= s
                && s <= max_image_size(self@.terminal_size.0, self@.terminal_size.1)
                < 2 * s,
    {
        let (term_width, term_height) = self.terminal_size;
        let rows: usize = if term_height == 0 { 0 } else { 2 * (term_height as usize - 1) };
        let max: usize = if rows < term_width as usize { rows } else { term_width as usize };
        let n = self.board_size;
        if n < 2 {
            return Err(BuildError::BoardTooSmall);
        }
        let mut img: usize = n;
        let ghost mut k: nat = 0;
        proof {
            vstd::arithmetic::power2::lemma_pow2_pos(0);
            assert(vstd::arithmetic::power2::pow2(0) == 1) by {
                vstd::arithmetic::power2::lemma_pow2(0);
                vstd::arithmetic::power::lemma_pow0(2);
            }
        }
        while img <= max / 2
            invariant
                n >= 2,
                n <= img,
                max <= 65535,
                img == n * vstd::arithmetic::power2::pow2(k),
                k > 0 ==> img <= max && 2 * n <= img,
                grown(img as nat, max as nat) == grown(n as nat, max as nat),
            decreases max - img,
        {
            proof {
                vstd::arithmetic::power2::lemma_pow2_unfold(k + 1);
                assert(n * vstd::arithmetic::power2::pow2(k + 1) == 2 * img) by (nonlinear_arith)
                    requires
                        img == n * vstd::arithmetic::power2::pow2(k),
                        vstd::arithmetic::power2::pow2(k + 1) == 2 * vstd::arithmetic::power2::pow2(k),
                ;
                k = k + 1;
            }
            img = img * 2;
        }
        if n > img / 2 {
            return Err(BuildError::BoardTooLarge);
        }
        proof {
            assert(is_doubling_of(img as int, n as int));
        }
        Ok(img)
    }

    /// Makes a board: the picture side from `fit_image_size`, then
    /// `img_pixels`, which must hold side × side pixels row by row, and a
    /// random arrangement that passes the parity rule.
    pub fn build(&self, img_pixels: Vec<Color>) -> (r: Result<Board, BuildError>)
        ensures
            (match self@.fit() {
                Err(e) => r == Err::<Board, BuildError>(e),
                Ok(s) => if img_pixels@.len() != s * s {
                    r == Err::<Board, BuildError>(BuildError::PixelCountMismatch)
                } else {
                    r matches Ok(b) && b@.wf() && b@.pixels == img_pixels@ && b@.img_size == s
                        && b@.n == self@.board_size && solvable(b@.tiles, b@.n)
                },
            }),
    {
        let img_size = match self.fit_image_size() {
            Ok(s) => s,
            Err(e) => {
                return Err(e);
            },
        };
        let n = self.board_size;
        proof {
            assert(img_size * img_size <= 65535 * 65535 && n * n <= img_size * img_size) by (nonlinear_arith)
                requires
                    2 <= n <= img_size <= 65535,
            ;
        }
        if img_pixels.len() != img_size * img_size {
            return Err(BuildError::PixelCountMismatch);
        }
        let tiles = generate_tiles(n);
        proof {
            let k = choose|k: nat| img_size == n * vstd::arithmetic::power2::pow2(k);
            assert(img_size % n == 0) by {
                vstd::arithmetic::div_mod::lemma_mod_multiples_basic(
                    vstd::arithmetic::power2::pow2(k) as int,
                    n as int,
                );
                assert(img_size == vstd::arithmetic::power2::pow2(k) * n) by (nonlinear_arith)
                    requires img_size == n * vstd::arithmetic::power2::pow2(k);
            }
        }
        Ok(Board { img_pixels, img_size, board_size: n, tiles })
    }

    /// Sets the path of the picture to cut up.
    pub fn image(&mut self, image: String) -> (r: &mut Self)
        ensures
            *final(self) == *final(r),
            r@ == (BuilderView { image: Some(image@), ..old(self)@ }),
    {
        self.image = Some(image);
        self
    }

    /// Crops the picture to a square instead of stretching it.
    pub fn crop_image(&mut self, yes: bool) -> (r: &mut Self)
        ensures
            *final(self) == *final(r),
            r@ == (BuilderView { crop_image: yes, ..old(self)@ }),
    {
        self.crop_image = yes;
        self
    }

    /// Sets the terminal's width and height in characters.
    pub fn terminal_size(&mut self, terminal_size: (u16, u16)) -> (r: &mut Self)
        ensures
            *final(self) == *final(r),
            r@ == (BuilderView { terminal_size, ..old(self)@ }),
    {
        self.terminal_size = terminal_size;
        self
    }

    /// Sets the side of the board.
    pub fn board_size(&mut self, board_size: usize) -> (r: &mut Self)
        ensures
            *final(self) == *final(r),
            r@ == (BuilderView { board_size: board_size as nat, ..old(self)@ }),
    {
        self.board_size = board_size;
        self
    }

    /// The picture path, if one was set.
    pub fn image_path(&self) -> (r: Option<String>)
        ensures
            r matches Some(p) ==> self@.image == Some(p@),
            r is None ==> self@.image is None,
    {
        match &self.image {
            Some(p) => Some(p.clone()),
            None => None,
        }
    }

    /// Whether the picture is cropped rather than stretched.
    pub fn crops_image(&self) -> (r: bool)
        ensures
            r == self@.crop_image,
    {
        self.crop_image
    }
}

/// Drawing the gap's cell prints only blanks with the terminal's own
/// colours, exactly as many as the cell has characters, and sets no colour.
pub proof fn lemma_blank_cell_is_empty(b: BoardView, p: int)
    requires
        b.wf(),
        0 <= p < b.tiles.len(),
        b.tiles[p] == blank_of(b.n),
    ensures
        painted(b.tile_ops(p)) == copies(b.cell_height() * b.cell_width(), (Glyph::Space, Color::Reset, Color::Reset)),
        forall|i: int| 0 <= i < b.tile_ops(p).len() ==> match #[trigger] b.tile_ops(p)[i] {
            DrawOp::MoveTo(_, _) | DrawOp::ResetColor | DrawOp::Print(Glyph::Space, _) => true,
            _ => false,
        },
{
    lemma_blank_rows(b, p, b.cell_height());
}

proof fn lemma_blank_rows(b: BoardView, p: int, k: nat)
    requires
        b.wf(),
        0 <= p < b.tiles.len(),
    ensures
        painted(b.blank_rows(p, k)) == copies(k * b.cell_width(), (Glyph::Space, Color::Reset, Color::Reset)),
        forall|i: int| 0 <= i < b.blank_rows(p, k).len() ==> match #[trigger] b.blank_rows(p, k)[i] {
            DrawOp::MoveTo(_, _) | DrawOp::ResetColor | DrawOp::Print(Glyph::Space, _) => true,
            _ => false,
        },
    decreases k,
{
    let l = (Glyph::Space, Color::Reset, Color::Reset);
    let w = b.cell_width();
    assert(w <= 65535) by {
        assert(b.img_size <= 65535);
        vstd::arithmetic::div_mod::lemma_div_is_ordered_by_denominator(b.img_size as int, 1, b.n as int);
    }
    if k > 0 {
        let k1 = (k - 1) as nat;
        lemma_blank_rows(b, p, k1);
        let a = b.blank_rows(p, k1);
        let (sx, sy) = b.screen_origin(p);
        let mv = DrawOp::MoveTo(sx as u16, (sy + k - 1) as u16);
        let run = Run { upper: Color::Reset, lower: Color::Reset, len: w as usize };
        assert(b.blank_rows(p, k) =~= a.push(mv) + run_ops(run));
        lemma_painted_run(a.push(mv), run);
        assert(a.push(mv).drop_last() =~= a);
        assert(painted(a.push(mv)) == painted(a));
        assert(k * w == k1 * w + w) by (nonlinear_arith)
            requires
                k == k1 + 1,
        ;
        assert(copies(k * w, l) =~= copies(k1 * w, l) + copies(w, l));
        assert(run.len as nat == w);
        assert(look(run.upper, run.lower) == l);
        assert(painted(b.blank_rows(p, k)) == painted(a) + copies(w, l));
        assert(painted(b.blank_rows(p, k)) == copies(k * w, l));
    } else {
        assert(k * w == 0) by (nonlinear_arith)
            requires
                k == 0,
        ;
        assert(copies(k * w, l) =~= Seq::<(Glyph, Color, Color)>::empty());
        assert(painted(b.blank_rows(p, k)) == Seq::<(Glyph, Color, Color)>::empty());
    }
}

} // verus!
