use game2048::board::{create_empty_board, Board};
use game2048::render::{
    decompose_digits, format_tile, render_board, render_cell, render_frame, tile_color,
    winner_banner, Color, BLANK_LINES, BORDER, CELL_WIDTH, WINDOW_COLUMNS, WINDOW_ROWS,
    WINNER_ART,
};

const RESET: &str = "\x1b[0m";

#[test]
fn decompose_digits_reads_left_to_right() {
    assert_eq!(decompose_digits(128), vec![1, 2, 8]);
    assert_eq!(decompose_digits(2048), vec![2, 0, 4, 8]);
    assert_eq!(decompose_digits(10), vec![1, 0]);
    assert_eq!(decompose_digits(9), vec![9]);
}

#[test]
fn decompose_digits_of_zero_and_of_the_largest_value() {
    assert_eq!(decompose_digits(0), vec![0]);
    assert_eq!(decompose_digits(u32::MAX), vec![4, 2, 9, 4, 9, 6, 7, 2, 9, 5]);
}

#[test]
fn format_tile_pads_to_four_columns() {
    assert_eq!(format_tile(0), "   0");
    assert_eq!(format_tile(2), "   2");
    assert_eq!(format_tile(16), "  16");
    assert_eq!(format_tile(512), " 512");
    assert_eq!(format_tile(2048), "2048");
    assert_eq!(CELL_WIDTH, 4);
}

#[test]
fn format_tile_does_not_cut_long_numbers() {
    assert_eq!(format_tile(16384), "16384");
    assert_eq!(format_tile(u32::MAX), "4294967295");
}

#[test]
fn format_tile_agrees_with_the_standard_formatting() {
    for value in [0u32, 1, 7, 10, 99, 100, 999, 1000, 9999, 10000, 65536, 123456789] {
        assert_eq!(format_tile(value), format!("{:4}", value));
    }
}

#[test]
fn tile_color_follows_the_table() {
    assert_eq!(tile_color(0), Some(Color::White));
    assert_eq!(tile_color(2), Some(Color::Cyan));
    assert_eq!(tile_color(4), Some(Color::Blue));
    assert_eq!(tile_color(8), Some(Color::Magenta));
    assert_eq!(tile_color(16), Some(Color::Red));
    assert_eq!(tile_color(32), Some(Color::Cyan));
    assert_eq!(tile_color(64), Some(Color::Blue));
    assert_eq!(tile_color(128), Some(Color::Magenta));
    assert_eq!(tile_color(256), Some(Color::Red));
    assert_eq!(tile_color(512), Some(Color::Cyan));
    assert_eq!(tile_color(1024), Some(Color::Blue));
    assert_eq!(tile_color(2048), Some(Color::Yellow));
}

#[test]
fn other_values_have_no_color() {
    for value in [1u32, 3, 6, 4096, 8192, u32::MAX] {
        assert_eq!(tile_color(value), None);
    }
}

#[test]
fn render_cell_writes_bar_color_number_reset() {
    assert_eq!(render_cell(0), "|\x1b[37m   0\x1b[0m");
    assert_eq!(render_cell(2), "|\x1b[36m   2\x1b[0m");
    assert_eq!(render_cell(4), "|\x1b[34m   4\x1b[0m");
    assert_eq!(render_cell(8), "|\x1b[35m   8\x1b[0m");
    assert_eq!(render_cell(16), "|\x1b[31m  16\x1b[0m");
    assert_eq!(render_cell(32), "|\x1b[36m  32\x1b[0m");
    assert_eq!(render_cell(64), "|\x1b[34m  64\x1b[0m");
    assert_eq!(render_cell(128), "|\x1b[35m 128\x1b[0m");
    assert_eq!(render_cell(256), "|\x1b[31m 256\x1b[0m");
    assert_eq!(render_cell(512), "|\x1b[36m 512\x1b[0m");
    assert_eq!(render_cell(1024), "|\x1b[34m1024\x1b[0m");
    assert_eq!(render_cell(2048), "|\x1b[33m2048\x1b[0m");
}

#[test]
fn render_cell_of_a_value_without_color_has_no_bar() {
    assert_eq!(render_cell(4096), "\x1b[0m4096\x1b[0m");
    assert_eq!(render_cell(3), "\x1b[0m   3\x1b[0m");
}

#[test]
fn border_is_four_cells_wide() {
    assert_eq!(BORDER, "+----+----+----+----+\n");
}

#[test]
fn render_board_of_the_empty_board() {
    let cell = "|\x1b[37m   0\x1b[0m";
    let row = format!("{}{}{}{}|\n", cell, cell, cell, cell);
    let mut expected = String::from("+----+----+----+----+\n");
    for _ in 0..4 {
        expected.push_str(&row);
        expected.push_str("+----+----+----+----+\n");
    }
    assert_eq!(render_board(&create_empty_board()), expected);
}

#[test]
fn render_board_writes_a_border_after_every_row() {
    let board = Board { cells: [[2, 4, 8, 16], [32, 64, 128, 256], [512, 1024, 2048, 0], [0, 2, 0, 4]] };
    let expected = [
        "+----+----+----+----+\n",
        "|\x1b[36m   2\x1b[0m|\x1b[34m   4\x1b[0m|\x1b[35m   8\x1b[0m|\x1b[31m  16\x1b[0m|\n",
        "+----+----+----+----+\n",
        "|\x1b[36m  32\x1b[0m|\x1b[34m  64\x1b[0m|\x1b[35m 128\x1b[0m|\x1b[31m 256\x1b[0m|\n",
        "+----+----+----+----+\n",
        "|\x1b[36m 512\x1b[0m|\x1b[34m1024\x1b[0m|\x1b[33m2048\x1b[0m|\x1b[37m   0\x1b[0m|\n",
        "+----+----+----+----+\n",
        "|\x1b[37m   0\x1b[0m|\x1b[36m   2\x1b[0m|\x1b[37m   0\x1b[0m|\x1b[34m   4\x1b[0m|\n",
        "+----+----+----+----+\n",
    ]
    .concat();
    assert_eq!(render_board(&board), expected);
}

#[test]
fn render_board_with_a_value_without_color() {
    let mut board = create_empty_board();
    board.cells[0][1] = 4096;
    let text = render_board(&board);
    let first_row = text.lines().nth(1).unwrap();
    assert_eq!(
        first_row,
        "|\x1b[37m   0\x1b[0m\x1b[0m4096\x1b[0m|\x1b[37m   0\x1b[0m|\x1b[37m   0\x1b[0m|"
    );
}

#[test]
fn rendering_twice_gives_the_same_text() {
    let board = Board { cells: [[2, 4, 8, 16], [32, 64, 128, 256], [512, 1024, 2048, 0], [0, 2, 0, 4]] };
    let first = render_board(&board);
    let second = render_board(&board);
    assert_eq!(first.as_bytes(), second.as_bytes());
    let copy = Board { cells: board.cells };
    assert_eq!(render_board(&copy).as_bytes(), first.as_bytes());
    assert_eq!(render_frame(&board).as_bytes(), render_frame(&copy).as_bytes());
}

#[test]
fn render_frame_puts_fourteen_newlines_before_the_board() {
    let board = Board { cells: [[2, 0, 0, 0], [0, 0, 0, 0], [0, 0, 0, 0], [0, 0, 0, 2]] };
    let expected = format!("{}{}", "\n".repeat(14), render_board(&board));
    assert_eq!(render_frame(&board), expected);
    assert_eq!(BLANK_LINES, 14);
}

#[test]
fn the_window_is_asked_to_be_15_by_15() {
    assert_eq!(WINDOW_COLUMNS, 15);
    assert_eq!(WINDOW_ROWS, 15);
}

#[test]
fn winner_banner_is_the_art_in_yellow() {
    let banner = winner_banner();
    assert_eq!(banner, format!("\x1b[33m{}{}", WINNER_ART, RESET));
}

#[test]
fn winner_art_holds_the_credit_the_message_and_the_picture() {
    let expected = [
        "Art by Susie Oviatt",
        "                   .,,. ",
        "            .,v%;mmmmmmmm;%%vv,. ",
        "         ,vvv%;mmmvv;vvvmmm;%vvvv,    .,,.",
        "  ,, ,vvvnnv%;mmmvv;%%;vvmmm;%vvvv%;mmmmmmm, ",
        ",mmmmmm;%%vv%;mmmvv;%%;vvmmm;%v%;mmmmmmmmmmm ",
        "mmmmmmmmmmm;%%;mmmvv%;vvmmm;%mmmmmmmmmmmmmm' ",
        "`mmmmmmmmmmmmmm%;mmv;vmmm;mmmmmmm;%vvvvvv' ",
        "    `%%%%%;mmmmmmmm;v%v;mmmmmm;%vvvnnvv' ",
        "     vvvvvv%%%%;mmmm%;mmmmmm;%vvvnnnnvv ",
        "     `vvnnnnvvv%%%;m;mmmmm;%vvnnmmnnvv' ",
        "      vvnmmnnnnvvv%%mmmm;%vvnnmmmnnnvv ",
        "      `vvnmmmnnvvv%mmm;%vvnnmmmmnnnvv'",
        "       `vvnmmmmvv%mmm;%vvnnmmmmnnnvv' ",
        "        `vvnmmmvv%mm;%vvvnnmmmnnvvv' ",
        "          `vvnmmvv%m;%vvvvnmnvvvv' ",
        "           .;;vvvvvm;%vvvvvvvv' ",
        "        .;;;;;;;;;;;;;;;;;;;;, ",
        "       ;;;;;;';;;;;;;;;;;'`;;;;;, ",
        "      .;;;'    `;;;;;;;;'   `;;;;;. ",
        "     .;;'        `;;;;;'      `;;;; ",
        "     ;'           :`;;'         ;;' ",
        "     ;            : ;'    ,    ,'             .",
        "      `           :'.:   .;;,.        .,;;;;;;' ",
        "                  ::::   ;;,;;;,     ;;;,;;;;' ",
        "                  ;;;;   `;;;,;;    .,';;;;' ",
        "                  ;;;;      `';; ,;;' ",
        "                ,;;;;;         .;',. ",
        "                  `;;;;       .;'  ';,. ",
        "                   `;;;.     .;'   ,;;,;;,. ",
        "                    ;;;;    .;'    `;;;;,;;; ",
        "   You won!!!       ;;;;   .;'       `;;,;;'",
        "                    `;;;,;;'           `;' ",
        "                     ;;;; ",
        "                     ;;;;. ",
        "                     `;;;;;,. ",
        "                      ;;;;' ",
        "                      ;;;; ",
        "                      ;;;; ",
    ];
    let lines: Vec<&str> = WINNER_ART.split('\n').collect();
    assert_eq!(lines.len(), 40);
    assert_eq!(lines[39], "");
    for (k, line) in expected.iter().enumerate() {
        assert_eq!(lines[k], *line);
    }
    assert_eq!(lines.iter().filter(|line| line.contains("You won!!!")).count(), 1);
}
