use slide_puzzle::puzzle::{is_permutation, is_solvable};
use slide_puzzle::{Board, BoardBuilder, BuildError, Color, Direction, DrawOp, Glyph};

/// A picture whose pixel at column x, row y has red x and green y.
fn picture(side: usize) -> Vec<Color> {
    let mut px = Vec::new();
    for y in 0..side {
        for x in 0..side {
            px.push(Color::Rgb { r: x as u8, g: y as u8, b: 0 });
        }
    }
    px
}

fn px(x: u8, y: u8) -> Color {
    Color::Rgb { r: x, g: y, b: 0 }
}

#[test]
fn image_size_for_two_by_two_on_80_by_24() {
    let mut builder = BoardBuilder::new();
    builder.board_size(2).terminal_size((80, 24));
    assert_eq!(builder.fit_image_size(), Ok(32));
    let board = builder.build(picture(32)).unwrap();
    assert_eq!(board.image_size(), 32);
    let width = board.image_size() / board.board_size();
    assert_eq!(width, 16);
    assert_eq!(width / 2, 8);
}

#[test]
fn image_size_defaults() {
    // four tiles a side on 80 x 24: 4, 8, 16, 32 fit in 46, 64 does not
    assert_eq!(BoardBuilder::new().fit_image_size(), Ok(32));
    let mut builder = BoardBuilder::new();
    builder.board_size(3).terminal_size((30, 100));
    // width limits: 3, 6, 12, 24
    assert_eq!(builder.fit_image_size(), Ok(24));
}

#[test]
fn build_errors() {
    let mut builder = BoardBuilder::new();
    builder.board_size(1);
    assert_eq!(builder.fit_image_size(), Err(BuildError::BoardTooSmall));
    assert_eq!(builder.build(picture(2)).err(), Some(BuildError::BoardTooSmall));
    builder.board_size(30);
    assert_eq!(builder.fit_image_size(), Err(BuildError::BoardTooLarge));
    builder.board_size(2).terminal_size((3, 2));
    assert_eq!(builder.fit_image_size(), Err(BuildError::BoardTooLarge));
    builder.terminal_size((80, 0));
    assert_eq!(builder.fit_image_size(), Err(BuildError::BoardTooLarge));
    builder.terminal_size((80, 24));
    assert_eq!(builder.build(picture(31)).err(), Some(BuildError::PixelCountMismatch));
}

#[test]
fn built_boards_start_solvable() {
    let mut builder = BoardBuilder::new();
    builder.board_size(3).crop_image(true).image("picture.png".to_string());
    assert!(builder.crops_image());
    assert_eq!(builder.image_path(), Some("picture.png".to_string()));
    let size = builder.fit_image_size().unwrap();
    assert_eq!(size, 24);
    for _ in 0..100 {
        let board = builder.build(picture(size)).unwrap();
        assert!(is_permutation(board.tiles(), 9));
        assert!(is_solvable(3, board.tiles()));
    }
}

#[test]
fn from_parts_errors() {
    let home: Vec<usize> = (0..4).collect();
    assert_eq!(Board::from_parts(picture(4), 4, 1, vec![0]).err(), Some(BuildError::BoardTooSmall));
    assert_eq!(
        Board::from_parts(picture(5), 5, 2, home.clone()).err(),
        Some(BuildError::ImageSizeMismatch)
    );
    assert_eq!(
        Board::from_parts(Vec::new(), 0, 2, home.clone()).err(),
        Some(BuildError::ImageSizeMismatch)
    );
    assert_eq!(
        Board::from_parts(Vec::new(), 70000, 2, home.clone()).err(),
        Some(BuildError::ImageSizeMismatch)
    );
    assert_eq!(
        Board::from_parts(picture(3), 4, 2, home.clone()).err(),
        Some(BuildError::PixelCountMismatch)
    );
    assert_eq!(
        Board::from_parts(picture(4), 4, 2, vec![0, 0, 1, 2]).err(),
        Some(BuildError::NotAPermutation)
    );
    assert_eq!(
        Board::from_parts(picture(4), 4, 2, vec![0, 1, 2]).err(),
        Some(BuildError::NotAPermutation)
    );
}

#[test]
fn home_board_is_solved() {
    let board = Board::from_parts(picture(4), 4, 2, vec![0, 1, 2, 3]).unwrap();
    assert!(board.is_solved());
    let board = Board::from_parts(picture(4), 4, 2, vec![1, 0, 2, 3]).unwrap();
    assert!(!board.is_solved());
    let board = Board::from_parts(picture(6), 6, 3, (0..9).collect()).unwrap();
    assert!(board.is_solved());
}

#[test]
fn blank_cell_draws_only_blanks() {
    let board = Board::from_parts(picture(8), 8, 2, vec![0, 1, 2, 3]).unwrap();
    let mut ops = Vec::new();
    board.draw_tile(3, &mut ops);
    assert_eq!(
        ops,
        vec![
            DrawOp::MoveTo(4, 2),
            DrawOp::ResetColor,
            DrawOp::Print(Glyph::Space, 4),
            DrawOp::MoveTo(4, 3),
            DrawOp::ResetColor,
            DrawOp::Print(Glyph::Space, 4),
        ]
    );
}

#[test]
fn tile_cell_draws_its_part_of_the_picture() {
    let board = Board::from_parts(picture(4), 4, 2, vec![3, 2, 1, 0]).unwrap();
    let mut ops = Vec::new();
    // position 1 shows tile 2: pixels from column 0, rows 2 and 3
    board.draw_tile(1, &mut ops);
    assert_eq!(
        ops,
        vec![
            DrawOp::MoveTo(2, 0),
            DrawOp::SetForeground(px(0, 2)),
            DrawOp::SetBackground(px(0, 3)),
            DrawOp::Print(Glyph::UpperHalf, 1),
            DrawOp::SetForeground(px(1, 2)),
            DrawOp::SetBackground(px(1, 3)),
            DrawOp::Print(Glyph::UpperHalf, 1),
            DrawOp::ResetColor,
        ]
    );
}

#[test]
fn draw_covers_every_cell_in_order() {
    let board = Board::from_parts(picture(8), 8, 2, vec![2, 0, 3, 1]).unwrap();
    let mut expected = Vec::new();
    for i in 0..4 {
        board.draw_tile(i, &mut expected);
    }
    assert_eq!(board.draw(), expected);
}

#[test]
fn move_and_redraw() {
    let mut board = Board::from_parts(picture(4), 4, 2, vec![0, 1, 2, 3]).unwrap();
    // the gap is at the bottom right: nothing lies below or to its right
    assert!(board.move_and_draw_tiles(Direction::Up).is_empty());
    assert!(board.move_and_draw_tiles(Direction::Left).is_empty());
    assert!(board.is_solved());
    let ops = board.move_and_draw_tiles(Direction::Down);
    assert_eq!(board.tiles(), &vec![0, 3, 2, 1]);
    assert!(!board.is_solved());
    assert_eq!(
        ops,
        vec![
            DrawOp::MoveTo(2, 1),
            DrawOp::SetForeground(px(2, 0)),
            DrawOp::SetBackground(px(2, 1)),
            DrawOp::Print(Glyph::UpperHalf, 1),
            DrawOp::SetForeground(px(3, 0)),
            DrawOp::SetBackground(px(3, 1)),
            DrawOp::Print(Glyph::UpperHalf, 1),
            DrawOp::ResetColor,
            DrawOp::MoveTo(2, 0),
            DrawOp::ResetColor,
            DrawOp::Print(Glyph::Space, 2),
        ]
    );
    assert_eq!(board.move_tiles(Direction::Up), Some((1, 3)));
    assert!(board.is_solved());
}

#[test]
fn edge_moves_leave_the_board_alone() {
    let mut board = Board::from_parts(picture(6), 6, 3, vec![8, 0, 1, 2, 3, 4, 5, 6, 7]).unwrap();
    assert_eq!(board.move_tiles(Direction::Down), None);
    assert_eq!(board.move_tiles(Direction::Right), None);
    assert_eq!(board.tiles(), &vec![8, 0, 1, 2, 3, 4, 5, 6, 7]);
}
