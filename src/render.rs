//! Turning rows of pixels into terminal drawing operations. One character
//! row shows two pixel rows: a half-block glyph takes the upper pixel's
//! colour as foreground and the lower one's as background. Adjacent columns
//! that look alike are printed as one run.
use vstd::prelude::*;
use itertools::Itertools;

verus! {

/// A pixel: fully transparent (drawn with the terminal's own colours), or an
/// opaque colour.
#[derive(Clone, Copy, Debug, PartialEq, Eq, Structural)]
pub enum Color {
    Reset,
    Rgb { r: u8, g: u8, b: u8 },
}

/// What a character cell prints.
#[derive(Clone, Copy, Debug, PartialEq, Eq, Structural)]
pub enum Glyph {
    /// A blank.
    Space,
    /// The lower half of the cell filled with the foreground colour.
    LowerHalf,
    /// The upper half of the cell filled with the foreground colour.
    UpperHalf,
}

/// `len` adjacent columns whose upper and lower pixels are `upper` and `lower`.
#[derive(Clone, Copy, Debug, PartialEq, Eq, Structural)]
pub struct Run {
    pub upper: Color,
    pub lower: Color,
    pub len: usize,
}

/// One operation on a terminal.
#[derive(Clone, Copy, Debug, PartialEq, Eq, Structural)]
pub enum DrawOp {
    /// Put the cursor at this column and row.
    MoveTo(u16, u16),
    /// Set foreground and background back to the terminal's own.
    ResetColor,
    SetForeground(Color),
    SetBackground(Color),
    /// Print the glyph this many times, advancing the cursor.
    Print(Glyph, usize),
}

/// How a character cell looks: glyph, foreground, background.
pub type Look = (Glyph, Color, Color);

/// The pixel pairs of a character row.
pub open spec fn cells_of(upper: Seq<Color>, lower: Seq<Color>) -> Seq<(Color, Color)> {
    Seq::new(upper.len(), |i: int| (upper[i], lower[i]))
}

/// The maximal runs of equal adjacent pixel pairs, left to right.
pub open spec fn runs_of(cells: Seq<(Color, Color)>) -> Seq<Run>
    decreases cells.len(),
{
    if cells.len() == 0 {
        Seq::empty()
    } else {
        let rest = runs_of(cells.drop_last());
        let c = cells.last();
        if rest.len() > 0 && rest.last().upper == c.0 && rest.last().lower == c.1 {
            rest.update(rest.len() - 1, Run { len: (rest.last().len + 1) as usize, ..rest.last() })
        } else {
            rest.push(Run { upper: c.0, lower: c.1, len: 1 })
        }
    }
}

/// One run per column.
pub open spec fn unit_runs(cells: Seq<(Color, Color)>) -> Seq<Run> {
    cells.map_values(|c: (Color, Color)| Run { upper: c.0, lower: c.1, len: 1 })
}

/// The operations that print one run.
pub open spec fn run_ops(run: Run) -> Seq<DrawOp> {
    match (run.upper, run.lower) {
        (Color::Reset, Color::Reset) => seq![DrawOp::ResetColor, DrawOp::Print(Glyph::Space, run.len)],
        (Color::Reset, fg) => seq![
            DrawOp::SetForeground(fg),
            DrawOp::SetBackground(Color::Reset),
            DrawOp::Print(Glyph::LowerHalf, run.len),
        ],
        (fg, bg) => seq![
            DrawOp::SetForeground(fg),
            DrawOp::SetBackground(bg),
            DrawOp::Print(Glyph::UpperHalf, run.len),
        ],
    }
}

/// The operations that print the runs one after another.
pub open spec fn ops_of_runs(runs: Seq<Run>) -> Seq<DrawOp>
    decreases runs.len(),
{
    if runs.len() == 0 {
        Seq::empty()
    } else {
        ops_of_runs(runs.drop_last()) + run_ops(runs.last())
    }
}

/// The look of one column with these two pixels.
pub open spec fn look(upper: Color, lower: Color) -> Look {
    match (upper, lower) {
        (Color::Reset, Color::Reset) => (Glyph::Space, Color::Reset, Color::Reset),
        (Color::Reset, fg) => (Glyph::LowerHalf, fg, Color::Reset),
        (fg, bg) => (Glyph::UpperHalf, fg, bg),
    }
}

/// The look of each column of a row.
pub open spec fn looks_of_cells(cells: Seq<(Color, Color)>) -> Seq<Look> {
    cells.map_values(|c: (Color, Color)| look(c.0, c.1))
}

/// Foreground and background in force after the operations, starting from
/// the terminal's own.
pub open spec fn pen(ops: Seq<DrawOp>) -> (Color, Color)
    decreases ops.len(),
{
    if ops.len() == 0 {
        (Color::Reset, Color::Reset)
    } else {
        let (fg, bg) = pen(ops.drop_last());
        match ops.last() {
            DrawOp::ResetColor => (Color::Reset, Color::Reset),
            DrawOp::SetForeground(c) => (c, bg),
            DrawOp::SetBackground(c) => (fg, c),
            _ => (fg, bg),
        }
    }
}

/// The cells that the operations print, in order, with their looks.
pub open spec fn painted(ops: Seq<DrawOp>) -> Seq<Look>
    decreases ops.len(),
{
    if ops.len() == 0 {
        Seq::empty()
    } else {
        let (fg, bg) = pen(ops.drop_last());
        match ops.last() {
            DrawOp::Print(g, k) => painted(ops.drop_last()) + Seq::new(k as nat, |i: int| (g, fg, bg)),
            _ => painted(ops.drop_last()),
        }
    }
}

/// `k` cells of the same look.
pub open spec fn copies(k: nat, l: Look) -> Seq<Look> {
    Seq::new(k, |i: int| l)
}

/// The look of each column that the runs cover.
pub open spec fn looks_of_runs(runs: Seq<Run>) -> Seq<Look>
    decreases runs.len(),
{
    if runs.len() == 0 {
        Seq::empty()
    } else {
        looks_of_runs(runs.drop_last()) + copies(runs.last().len as nat, look(runs.last().upper, runs.last().lower))
    }
}

/// Printing a run after other operations adds the run's columns, whatever
/// the colours in force before.
pub proof fn lemma_painted_run(a: Seq<DrawOp>, r: Run)
    ensures
        painted(a + run_ops(r)) == painted(a) + copies(r.len as nat, look(r.upper, r.lower)),
{
    let o = a + run_ops(r);
    let l = look(r.upper, r.lower);
    match (r.upper, r.lower) {
        (Color::Reset, Color::Reset) => {
            let o1 = a.push(DrawOp::ResetColor);
            assert(o.drop_last() =~= o1);
            assert(o1.drop_last() =~= a);
            assert(painted(o1) == painted(a));
            assert(pen(o1) == (Color::Reset, Color::Reset));
        },
        (Color::Reset, fg) => {
            let o1 = a.push(DrawOp::SetForeground(fg));
            let o2 = o1.push(DrawOp::SetBackground(Color::Reset));
            assert(o.drop_last() =~= o2);
            assert(o2.drop_last() =~= o1);
            assert(o1.drop_last() =~= a);
            assert(painted(o1) == painted(a));
            assert(painted(o2) == painted(a));
            assert(pen(o2) == (fg, Color::Reset));
        },
        (fg, bg) => {
            let o1 = a.push(DrawOp::SetForeground(fg));
            let o2 = o1.push(DrawOp::SetBackground(bg));
            assert(o.drop_last() =~= o2);
            assert(o2.drop_last() =~= o1);
            assert(o1.drop_last() =~= a);
            assert(painted(o1) == painted(a));
            assert(painted(o2) == painted(a));
            assert(pen(o2) == (fg, bg));
        },
    }
    assert(painted(o) =~= painted(a) + copies(r.len as nat, l));
}

/// The operations for a sequence of runs print exactly the runs' columns.
pub proof fn lemma_painted_runs(runs: Seq<Run>)
    ensures
        painted(ops_of_runs(runs)) == looks_of_runs(runs),
    decreases runs.len(),
{
    if runs.len() > 0 {
        lemma_painted_runs(runs.drop_last());
        lemma_painted_run(ops_of_runs(runs.drop_last()), runs.last());
    }
}

/// The maximal runs cover the columns of the row, each with its own look.
proof fn lemma_runs_of(cells: Seq<(Color, Color)>)
    requires
        cells.len() <= usize::MAX,
    ensures
        looks_of_runs(runs_of(cells)) == looks_of_cells(cells),
        runs_of(cells).len() > 0 ==> runs_of(cells).last().len <= cells.len(),
        cells.len() > 0 <==> runs_of(cells).len() > 0,
    decreases cells.len(),
{
    if cells.len() > 0 {
        let init = cells.drop_last();
        lemma_runs_of(init);
        let rest = runs_of(init);
        let c = cells.last();
        let l = look(c.0, c.1);
        if rest.len() > 0 && rest.last().upper == c.0 && rest.last().lower == c.1 {
            let last = rest.last();
            let new = rest.update(rest.len() - 1, Run { len: (last.len + 1) as usize, ..last });
            assert(new.drop_last() =~= rest.drop_last());
            assert(copies((last.len + 1) as nat, l) =~= copies(last.len as nat, l).push(l));
            assert(looks_of_runs(new) =~= looks_of_runs(rest).push(l));
        } else {
            let new = rest.push(Run { upper: c.0, lower: c.1, len: 1 });
            assert(new.drop_last() =~= rest);
            assert(looks_of_runs(new) =~= looks_of_runs(rest) + copies(1, l));
        }
        assert(looks_of_cells(cells) =~= looks_of_cells(init).push(l));
        assert(looks_of_runs(runs_of(cells)) =~= looks_of_cells(cells));
    }
}

/// One run per column covers the columns of the row, each with its own look.
proof fn lemma_unit_runs(cells: Seq<(Color, Color)>)
    ensures
        looks_of_runs(unit_runs(cells)) == looks_of_cells(cells),
    decreases cells.len(),
{
    if cells.len() > 0 {
        let init = cells.drop_last();
        lemma_unit_runs(init);
        assert(unit_runs(cells).drop_last() =~= unit_runs(init));
        assert(looks_of_cells(cells) =~= looks_of_cells(init).push(look(cells.last().0, cells.last().1)));
        assert(looks_of_runs(unit_runs(cells)) =~= looks_of_cells(cells));
    }
}

/// Printing a row as maximal runs paints every column exactly as printing it
/// one column at a time does: the glyph, foreground and background of each
/// column are those of its two pixels.
pub proof fn lemma_runs_paint_like_columns(cells: Seq<(Color, Color)>)
    requires
        cells.len() <= usize::MAX,
    ensures
        painted(ops_of_runs(runs_of(cells))) == painted(ops_of_runs(unit_runs(cells))),
        painted(ops_of_runs(runs_of(cells))) == looks_of_cells(cells),
{
    lemma_runs_of(cells);
    lemma_unit_runs(cells);
    lemma_painted_runs(runs_of(cells));
    lemma_painted_runs(unit_runs(cells));
}

/// Joins two runs of the same pixels into one; hands back both runs when
/// their pixels differ, or when the joined length would not fit a `usize`.
pub fn merge_runs(a: Run, b: Run) -> (r: Result<Run, (Run, Run)>)
    ensures
        a.upper == b.upper && a.lower == b.lower && a.len + b.len <= usize::MAX
            ==> r == Ok::<Run, (Run, Run)>(Run { upper: a.upper, lower: a.lower, len: (a.len + b.len) as usize }),
        !(a.upper == b.upper && a.lower == b.lower && a.len + b.len <= usize::MAX)
            ==> r == Err::<Run, (Run, Run)>((a, b)),
{
    if a.upper == b.upper && a.lower == b.lower {
        match a.len.checked_add(b.len) {
            Some(len) => Ok(Run { upper: a.upper, lower: a.lower, len }),
            None => Err((a, b)),
        }
    } else {
        Err((a, b))
    }
}

/// Relies on `Itertools::coalesce` (itertools 0.10): it holds the first item,
/// hands the held item and each next one to `merge_runs`, holds the joined
/// run on `Ok`, and on `Err` yields the held run and holds the next; at the
/// end it yields the held run. The columns start as runs of one, so the
/// result is the maximal runs of equal pixel pairs, left to right.
#[verifier::external_body]
fn coalesce_row(upper: &[Color], lower: &[Color]) -> (r: Vec<Run>)
    requires
        upper@.len() == lower@.len(),
    ensures
        r@ == runs_of(cells_of(upper@, lower@)),
{
    upper.iter().zip(lower.iter()).map(|(u, l)| Run { upper: *u, lower: *l, len: 1 }).coalesce(
        merge_runs,
    ).collect()
}

/// The operations that print one run.
pub fn ops_for_run(run: Run, out: &mut Vec<DrawOp>)
    ensures
        final(out)@ == old(out)@ + run_ops(run),
{
    match (run.upper, run.lower) {
        (Color::Reset, Color::Reset) => {
            out.push(DrawOp::ResetColor);
            out.push(DrawOp::Print(Glyph::Space, run.len));
        },
        (Color::Reset, fg) => {
            out.push(DrawOp::SetForeground(fg));
            out.push(DrawOp::SetBackground(Color::Reset));
            out.push(DrawOp::Print(Glyph::LowerHalf, run.len));
        },
        (fg, bg) => {
            out.push(DrawOp::SetForeground(fg));
            out.push(DrawOp::SetBackground(bg));
            out.push(DrawOp::Print(Glyph::UpperHalf, run.len));
        },
    }
    proof {
        assert(final(out)@ =~= old(out)@ + run_ops(run));
    }
}

/// The operations that print the runs one after another.
pub fn runs_to_ops(runs: &Vec<Run>, out: &mut Vec<DrawOp>)
    ensures
        final(out)@ == old(out)@ + ops_of_runs(runs@),
{
    let ghost start = out@;
    let mut i: usize = 0;
    while i < runs.len()
        invariant
            0 <= i <= runs@.len(),
            out@ == start + ops_of_runs(runs@.take(i as int)),
        decreases runs@.len() - i,
    {
        ops_for_run(runs[i], out);
        proof {
            let t = runs@.take(i + 1);
            assert(t.drop_last() =~= runs@.take(i as int));
            assert(out@ =~= start + ops_of_runs(t));
        }
        i += 1;
    }
    proof {
        assert(runs@.take(i as int) =~= runs@);
    }
}

/// The operations for one character row at column `x`, row `y`: move
/// there, print the maximal runs of the pixel pairs, reset the colours.
pub open spec fn row_ops(upper: Seq<Color>, lower: Seq<Color>, x: u16, y: u16) -> Seq<DrawOp> {
    seq![DrawOp::MoveTo(x, y)] + ops_of_runs(runs_of(cells_of(upper, lower))) + seq![
        DrawOp::ResetColor,
    ]
}

/// Appends the operations that draw one character row from its upper and
/// lower pixel rows.
pub fn draw_row(upper: &[Color], lower: &[Color], x: u16, y: u16, out: &mut Vec<DrawOp>)
    requires
        upper@.len() == lower@.len(),
    ensures
        final(out)@ == old(out)@ + row_ops(upper@, lower@, x, y),
{
    let ghost start = out@;
    out.push(DrawOp::MoveTo(x, y));
    let runs = coalesce_row(upper, lower);
    runs_to_ops(&runs, out);
    out.push(DrawOp::ResetColor);
    proof {
        assert(out@ =~= start + row_ops(upper@, lower@, x, y));
    }
}

} // verus!
