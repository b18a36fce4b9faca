use sudoku::utils::{render_grid, Cells};

const CLASSIC: Cells = [
    5, 3, 0, 0, 7, 0, 0, 0, 0, //
    6, 0, 0, 1, 9, 5, 0, 0, 0, //
    0, 9, 8, 0, 0, 0, 0, 6, 0, //
    8, 0, 0, 0, 6, 0, 0, 0, 3, //
    4, 0, 0, 8, 0, 3, 0, 0, 1, //
    7, 0, 0, 0, 2, 0, 0, 0, 6, //
    0, 6, 0, 0, 0, 0, 2, 8, 0, //
    0, 0, 0, 4, 1, 9, 0, 0, 5, //
    0, 0, 0, 0, 8, 0, 0, 7, 9,
];

#[test]
fn a_board_is_drawn_as_a_framed_grid() {
    let expected = vec![
        "╔═══╤═══╤═══╦═══╤═══╤═══╦═══╤═══╤═══╗",
        "║ 5 │ 3 │   ║   │ 7 │   ║   │   │   ║",
        "╟───┼───┼───╫───┼───┼───╫───┼───┼───╢",
        "║ 6 │   │   ║ 1 │ 9 │ 5 ║   │   │   ║",
        "╟───┼───┼───╫───┼───┼───╫───┼───┼───╢",
        "║   │ 9 │ 8 ║   │   │   ║   │ 6 │   ║",
        "╠═══╪═══╪═══╬═══╪═══╪═══╬═══╪═══╪═══╣",
        "║ 8 │   │   ║   │ 6 │   ║   │   │ 3 ║",
        "╟───┼───┼───╫───┼───┼───╫───┼───┼───╢",
        "║ 4 │   │   ║ 8 │   │ 3 ║   │   │ 1 ║",
        "╟───┼───┼───╫───┼───┼───╫───┼───┼───╢",
        "║ 7 │   │   ║   │ 2 │   ║   │   │ 6 ║",
        "╠═══╪═══╪═══╬═══╪═══╪═══╬═══╪═══╪═══╣",
        "║   │ 6 │   ║   │   │   ║ 2 │ 8 │   ║",
        "╟───┼───┼───╫───┼───┼───╫───┼───┼───╢",
        "║   │   │   ║ 4 │ 1 │ 9 ║   │   │ 5 ║",
        "╟───┼───┼───╫───┼───┼───╫───┼───┼───╢",
        "║   │   │   ║   │ 8 │   ║   │ 7 │ 9 ║",
        "╚═══╧═══╧═══╩═══╧═══╧═══╩═══╧═══╧═══╝",
    ]
    .join("\n");
    assert_eq!(render_grid(&CLASSIC), expected);
}

#[test]
fn an_empty_board_is_drawn_blank() {
    let expected = vec![
        "╔═══╤═══╤═══╦═══╤═══╤═══╦═══╤═══╤═══╗",
        "║   │   │   ║   │   │   ║   │   │   ║",
        "╟───┼───┼───╫───┼───┼───╫───┼───┼───╢",
        "║   │   │   ║   │   │   ║   │   │   ║",
        "╟───┼───┼───╫───┼───┼───╫───┼───┼───╢",
        "║   │   │   ║   │   │   ║   │   │   ║",
        "╠═══╪═══╪═══╬═══╪═══╪═══╬═══╪═══╪═══╣",
        "║   │   │   ║   │   │   ║   │   │   ║",
        "╟───┼───┼───╫───┼───┼───╫───┼───┼───╢",
        "║   │   │   ║   │   │   ║   │   │   ║",
        "╟───┼───┼───╫───┼───┼───╫───┼───┼───╢",
        "║   │   │   ║   │   │   ║   │   │   ║",
        "╠═══╪═══╪═══╬═══╪═══╪═══╬═══╪═══╪═══╣",
        "║   │   │   ║   │   │   ║   │   │   ║",
        "╟───┼───┼───╫───┼───┼───╫───┼───┼───╢",
        "║   │   │   ║   │   │   ║   │   │   ║",
        "╟───┼───┼───╫───┼───┼───╫───┼───┼───╢",
        "║   │   │   ║   │   │   ║   │   │   ║",
        "╚═══╧═══╧═══╩═══╧═══╧═══╩═══╧═══╧═══╝",
    ]
    .join("\n");
    assert_eq!(render_grid(&[0; 81]), expected);
}

#[test]
fn a_value_beyond_nine_is_drawn_in_decimal() {
    let mut board = CLASSIC;
    board[0] = 10;
    board[40] = 255;
    board[80] = 100;
    let expected = vec![
        "╔═══╤═══╤═══╦═══╤═══╤═══╦═══╤═══╤═══╗",
        "║ 10 │ 3 │   ║   │ 7 │   ║   │   │   ║",
        "╟───┼───┼───╫───┼───┼───╫───┼───┼───╢",
        "║ 6 │   │   ║ 1 │ 9 │ 5 ║   │   │   ║",
        "╟───┼───┼───╫───┼───┼───╫───┼───┼───╢",
        "║   │ 9 │ 8 ║   │   │   ║   │ 6 │   ║",
        "╠═══╪═══╪═══╬═══╪═══╪═══╬═══╪═══╪═══╣",
        "║ 8 │   │   ║   │ 6 │   ║   │   │ 3 ║",
        "╟───┼───┼───╫───┼───┼───╫───┼───┼───╢",
        "║ 4 │   │   ║ 8 │ 255 │ 3 ║   │   │ 1 ║",
        "╟───┼───┼───╫───┼───┼───╫───┼───┼───╢",
        "║ 7 │   │   ║   │ 2 │   ║   │   │ 6 ║",
        "╠═══╪═══╪═══╬═══╪═══╪═══╬═══╪═══╪═══╣",
        "║   │ 6 │   ║   │   │   ║ 2 │ 8 │   ║",
        "╟───┼───┼───╫───┼───┼───╫───┼───┼───╢",
        "║   │   │   ║ 4 │ 1 │ 9 ║   │   │ 5 ║",
        "╟───┼───┼───╫───┼───┼───╫───┼───┼───╢",
        "║   │   │   ║   │ 8 │   ║   │ 7 │ 100 ║",
        "╚═══╧═══╧═══╩═══╧═══╧═══╩═══╧═══╧═══╝",
    ]
    .join("\n");
    assert_eq!(render_grid(&board), expected);
}

#[test]
fn the_drawing_has_nineteen_lines_and_no_line_end_at_its_end() {
    let text = render_grid(&CLASSIC);
    assert_eq!(text.lines().count(), 19);
    assert!(!text.ends_with('\n'));
    for line in text.lines() {
        assert_eq!(line.chars().count(), 37);
    }
}
