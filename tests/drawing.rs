use slide_puzzle::render::{draw_row, merge_runs};
use slide_puzzle::{Color, DrawOp, Glyph, Run};

fn rgb(r: u8, g: u8, b: u8) -> Color {
    Color::Rgb { r, g, b }
}

/// What each printed character shows after the operations: glyph,
/// foreground, background.
fn screen(ops: &[DrawOp]) -> Vec<(Glyph, Color, Color)> {
    let (mut fg, mut bg) = (Color::Reset, Color::Reset);
    let mut out = Vec::new();
    for op in ops {
        match *op {
            DrawOp::MoveTo(_, _) => {}
            DrawOp::ResetColor => {
                fg = Color::Reset;
                bg = Color::Reset;
            }
            DrawOp::SetForeground(c) => fg = c,
            DrawOp::SetBackground(c) => bg = c,
            DrawOp::Print(g, k) => {
                for _ in 0..k {
                    out.push((g, fg, bg));
                }
            }
        }
    }
    out
}

/// One styled glyph per column, without joining columns.
fn per_column(upper: &[Color], lower: &[Color]) -> Vec<DrawOp> {
    let mut ops = Vec::new();
    for (u, l) in upper.iter().zip(lower.iter()) {
        match (*u, *l) {
            (Color::Reset, Color::Reset) => {
                ops.push(DrawOp::ResetColor);
                ops.push(DrawOp::Print(Glyph::Space, 1));
            }
            (Color::Reset, fg) => {
                ops.push(DrawOp::SetForeground(fg));
                ops.push(DrawOp::SetBackground(Color::Reset));
                ops.push(DrawOp::Print(Glyph::LowerHalf, 1));
            }
            (fg, bg) => {
                ops.push(DrawOp::SetForeground(fg));
                ops.push(DrawOp::SetBackground(bg));
                ops.push(DrawOp::Print(Glyph::UpperHalf, 1));
            }
        }
    }
    ops
}

#[test]
fn equal_adjacent_columns_are_joined() {
    let (a, b, c) = (rgb(255, 0, 0), rgb(0, 255, 0), rgb(0, 0, 255));
    let (d, e, f) = (rgb(1, 1, 1), rgb(2, 2, 2), rgb(3, 3, 3));
    let upper = [a, b, b, c];
    let lower = [d, e, e, f];
    let mut ops = Vec::new();
    draw_row(&upper, &lower, 3, 5, &mut ops);
    assert_eq!(
        ops,
        vec![
            DrawOp::MoveTo(3, 5),
            DrawOp::SetForeground(a),
            DrawOp::SetBackground(d),
            DrawOp::Print(Glyph::UpperHalf, 1),
            DrawOp::SetForeground(b),
            DrawOp::SetBackground(e),
            DrawOp::Print(Glyph::UpperHalf, 2),
            DrawOp::SetForeground(c),
            DrawOp::SetBackground(f),
            DrawOp::Print(Glyph::UpperHalf, 1),
            DrawOp::ResetColor,
        ]
    );
}

#[test]
fn joined_runs_look_like_single_columns() {
    let (a, b) = (rgb(10, 20, 30), rgb(40, 50, 60));
    let rows: Vec<(Vec<Color>, Vec<Color>)> = vec![
        (vec![a, b, b, a], vec![b, a, a, b]),
        (vec![a, a, a, a], vec![a, a, a, a]),
        (vec![Color::Reset, Color::Reset, a, a], vec![Color::Reset, b, b, Color::Reset]),
        (vec![Color::Reset; 4], vec![Color::Reset; 4]),
    ];
    for (upper, lower) in rows {
        let mut ops = Vec::new();
        draw_row(&upper, &lower, 0, 0, &mut ops);
        assert_eq!(screen(&ops), screen(&per_column(&upper, &lower)));
        assert_eq!(screen(&ops).len(), 4);
    }
}

#[test]
fn a_uniform_row_is_one_run() {
    let a = rgb(7, 7, 7);
    let mut ops = Vec::new();
    draw_row(&[a; 4], &[a; 4], 0, 0, &mut ops);
    assert_eq!(
        ops,
        vec![
            DrawOp::MoveTo(0, 0),
            DrawOp::SetForeground(a),
            DrawOp::SetBackground(a),
            DrawOp::Print(Glyph::UpperHalf, 4),
            DrawOp::ResetColor,
        ]
    );
}

#[test]
fn transparent_pixels_choose_the_glyph() {
    let a = rgb(9, 8, 7);
    let upper = [Color::Reset, Color::Reset, a];
    let lower = [Color::Reset, a, Color::Reset];
    let mut ops = Vec::new();
    draw_row(&upper, &lower, 1, 2, &mut ops);
    assert_eq!(
        ops,
        vec![
            DrawOp::MoveTo(1, 2),
            DrawOp::ResetColor,
            DrawOp::Print(Glyph::Space, 1),
            DrawOp::SetForeground(a),
            DrawOp::SetBackground(Color::Reset),
            DrawOp::Print(Glyph::LowerHalf, 1),
            DrawOp::SetForeground(a),
            DrawOp::SetBackground(Color::Reset),
            DrawOp::Print(Glyph::UpperHalf, 1),
            DrawOp::ResetColor,
        ]
    );
}

#[test]
fn an_empty_row_only_moves_and_resets() {
    let mut ops = vec![DrawOp::ResetColor];
    draw_row(&[], &[], 4, 4, &mut ops);
    assert_eq!(ops, vec![DrawOp::ResetColor, DrawOp::MoveTo(4, 4), DrawOp::ResetColor]);
}

#[test]
fn merging_runs() {
    let a = rgb(1, 2, 3);
    let r1 = Run { upper: a, lower: Color::Reset, len: 2 };
    let r2 = Run { upper: a, lower: Color::Reset, len: 3 };
    assert_eq!(merge_runs(r1, r2), Ok(Run { upper: a, lower: Color::Reset, len: 5 }));
    let r3 = Run { upper: a, lower: a, len: 1 };
    assert_eq!(merge_runs(r1, r3), Err((r1, r3)));
    let big = Run { upper: a, lower: a, len: usize::MAX };
    assert_eq!(merge_runs(big, r3), Err((big, r3)));
}
