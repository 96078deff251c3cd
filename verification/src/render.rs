//! The text that shows the board, and the banner that shows a win.

use vstd::prelude::*;
use vstd::string::StringExecFns;
use colorized::Colors;
use crate::board::{Board, Tile};
use crate::lists::reverse;

verus! {

/// The colours that the game writes in, and the code that ends a colour.
#[derive(Clone, Copy, Debug, PartialEq, Eq)]
pub enum Color {
    Reset,
    Red,
    Yellow,
    Blue,
    Magenta,
    Cyan,
    White,
}

/// The line above the first row and below every row.
pub const BORDER: &'static str = "+----+----+----+----+\n";

/// The width that a cell's number is padded to.
pub const CELL_WIDTH: usize = 4;

/// How many empty lines separate one picture of the board from the next.
pub const BLANK_LINES: usize = 14;

/// The number of columns that the terminal is asked to have at the start.
pub const WINDOW_COLUMNS: u16 = 15;

/// The number of rows that the terminal is asked to have at the start.
pub const WINDOW_ROWS: u16 = 15;

/// The picture shown on a win, with its credit and its message.
pub const WINNER_ART: &'static str = "Art by Susie Oviatt
                   .,,. 
            .,v%;mmmmmmmm;%%vv,. 
         ,vvv%;mmmvv;vvvmmm;%vvvv,    .,,.
  ,, ,vvvnnv%;mmmvv;%%;vvmmm;%vvvv%;mmmmmmm, 
,mmmmmm;%%vv%;mmmvv;%%;vvmmm;%v%;mmmmmmmmmmm 
mmmmmmmmmmm;%%;mmmvv%;vvmmm;%mmmmmmmmmmmmmm' 
`mmmmmmmmmmmmmm%;mmv;vmmm;mmmmmmm;%vvvvvv' 
    `%%%%%;mmmmmmmm;v%v;mmmmmm;%vvvnnvv' 
     vvvvvv%%%%;mmmm%;mmmmmm;%vvvnnnnvv 
     `vvnnnnvvv%%%;m;mmmmm;%vvnnmmnnvv' 
      vvnmmnnnnvvv%%mmmm;%vvnnmmmnnnvv 
      `vvnmmmnnvvv%mmm;%vvnnmmmmnnnvv'
       `vvnmmmmvv%mmm;%vvnnmmmmnnnvv' 
        `vvnmmmvv%mm;%vvvnnmmmnnvvv' 
          `vvnmmvv%m;%vvvvnmnvvvv' 
           .;;vvvvvm;%vvvvvvvv' 
        .;;;;;;;;;;;;;;;;;;;;, 
       ;;;;;;';;;;;;;;;;;'`;;;;;, 
      .;;;'    `;;;;;;;;'   `;;;;;. 
     .;;'        `;;;;;'      `;;;; 
     ;'           :`;;'         ;;' 
     ;            : ;'    ,    ,'             .
      `           :'.:   .;;,.        .,;;;;;;' 
                  ::::   ;;,;;;,     ;;;,;;;;' 
                  ;;;;   `;;;,;;    .,';;;;' 
                  ;;;;      `';; ,;;' 
                ,;;;;;         .;',. 
                  `;;;;       .;'  ';,. 
                   `;;;.     .;'   ,;;,;;,. 
                    ;;;;    .;'    `;;;;,;;; 
   You won!!!       ;;;;   .;'       `;;,;;'
                    `;;;,;;'           `;' 
                     ;;;; 
                     ;;;;. 
                     `;;;;;,. 
                      ;;;;' 
                      ;;;; 
                      ;;;; 
";

/// The escape sequence that makes a terminal write in the colour from then
/// on, or that ends the colour.
pub open spec fn escape_code_text(color: Color) -> Seq<char> {
    match color {
        Color::Reset => "\x1b[0m"@,
        Color::Red => "\x1b[31m"@,
        Color::Yellow => "\x1b[33m"@,
        Color::Blue => "\x1b[34m"@,
        Color::Magenta => "\x1b[35m"@,
        Color::Cyan => "\x1b[36m"@,
        Color::White => "\x1b[37m"@,
    }
}

/// `colorized::Colors::value` on the foreground colour of that name, or on
/// `Colors::Reset`: the escape sequence of the colour, as the crate's table
/// gives it.
#[verifier::external_body]
fn escape_code(color: Color) -> (code: String)
    ensures
        code@ == escape_code_text(color),
{
    let colors = match color {
        Color::Reset => Colors::Reset,
        Color::Red => Colors::RedFg,
        Color::Yellow => Colors::YellowFg,
        Color::Blue => Colors::BlueFg,
        Color::Magenta => Colors::MagentaFg,
        Color::Cyan => Colors::CyanFg,
        Color::White => Colors::WhiteFg,
    };
    colors.value().to_string()
}

/// The colour that a cell of this value is written in; none for a value
/// that no game reaches.
pub open spec fn color_of(value: nat) -> Option<Color> {
    if value == 0 {
        Some(Color::White)
    } else if value == 2 || value == 32 || value == 512 {
        Some(Color::Cyan)
    } else if value == 4 || value == 64 || value == 1024 {
        Some(Color::Blue)
    } else if value == 8 || value == 128 {
        Some(Color::Magenta)
    } else if value == 16 || value == 256 {
        Some(Color::Red)
    } else if value == 2048 {
        Some(Color::Yellow)
    } else {
        None
    }
}

/// The decimal digits of a number, the most significant first.
pub open spec fn digits_of(value: nat) -> Seq<nat>
    decreases value,
{
    if value < 10 {
        seq![value]
    } else {
        digits_of(value / 10).push(value % 10)
    }
}

/// Digits as numbers.
pub open spec fn digit_values(digits: Seq<u8>) -> Seq<nat> {
    Seq::new(digits.len(), |i: int| digits[i] as nat)
}

/// The character that writes a digit.
pub open spec fn digit_char(digit: nat) -> char {
    if digit == 0 {
        '0'
    } else if digit == 1 {
        '1'
    } else if digit == 2 {
        '2'
    } else if digit == 3 {
        '3'
    } else if digit == 4 {
        '4'
    } else if digit == 5 {
        '5'
    } else if digit == 6 {
        '6'
    } else if digit == 7 {
        '7'
    } else if digit == 8 {
        '8'
    } else {
        '9'
    }
}

/// A number written in decimal.
pub open spec fn decimal_text(value: nat) -> Seq<char> {
    digits_of(value).map_values(|digit: nat| digit_char(digit))
}

/// `count` times the character `filler`.
pub open spec fn repeated(filler: char, count: nat) -> Seq<char> {
    Seq::new(count, |i: int| filler)
}

/// A number as a cell shows it: in decimal, with spaces before it where it
/// has fewer digits than the cell is wide.
pub open spec fn number_text(value: nat) -> Seq<char> {
    let digits = decimal_text(value);
    if digits.len() < CELL_WIDTH {
        repeated(' ', (CELL_WIDTH - digits.len()) as nat) + digits
    } else {
        digits
    }
}

/// A cell as the board shows it: a bar and the cell's colour, the number, and
/// the end of the colour. A value without a colour has the end of the colour
/// in place of the bar and the colour.
pub open spec fn cell_text(value: nat) -> Seq<char> {
    match color_of(value) {
        Some(color) => "|"@ + escape_code_text(color) + number_text(value) + escape_code_text(
            Color::Reset,
        ),
        None => escape_code_text(Color::Reset) + number_text(value) + escape_code_text(
            Color::Reset,
        ),
    }
}

/// The first `count` cells of a row, one after the other.
pub open spec fn cells_text(row: Seq<nat>, count: nat) -> Seq<char>
    decreases count,
{
    if count == 0 {
        Seq::empty()
    } else {
        cells_text(row, (count - 1) as nat) + cell_text(row[count - 1])
    }
}

/// A row as the board shows it: its cells, a closing bar, and the border
/// below it.
pub open spec fn row_text(row: Seq<nat>) -> Seq<char> {
    cells_text(row, row.len()) + "|\n"@ + BORDER@
}

/// The first `count` rows of a grid, one below the other.
pub open spec fn rows_text(grid: Seq<Seq<nat>>, count: nat) -> Seq<char>
    decreases count,
{
    if count == 0 {
        Seq::empty()
    } else {
        rows_text(grid, (count - 1) as nat) + row_text(grid[count - 1])
    }
}

/// The board as text: the border, then every row with the border below it.
pub open spec fn board_text(grid: Seq<Seq<nat>>) -> Seq<char> {
    BORDER@ + rows_text(grid, grid.len())
}

/// What is written after a move: the empty lines that push the last picture
/// away, then the board.
pub open spec fn frame_text(grid: Seq<Seq<nat>>) -> Seq<char> {
    repeated('\n', BLANK_LINES as nat) + board_text(grid)
}

/// What is written on a win: the picture in yellow.
pub open spec fn banner_text() -> Seq<char> {
    escape_code_text(Color::Yellow) + WINNER_ART@ + escape_code_text(Color::Reset)
}

/// Every decimal digit of a number is below ten, and there is at least one.
pub proof fn lemma_digits_of(value: nat)
    ensures
        digits_of(value).len() >= 1,
        forall|i: int| 0 <= i < digits_of(value).len() ==> #[trigger] digits_of(value)[i] < 10,
    decreases value,
{
    if value >= 10 {
        lemma_digits_of(value / 10);
    }
}

/// The same cells give the same text.
pub proof fn lemma_same_board_same_text(first: Board, second: Board)
    requires
        first@ == second@,
    ensures
        board_text(first@) == board_text(second@),
        frame_text(first@) == frame_text(second@),
{
}

/// The decimal digits of `value`, the most significant first.
pub fn decompose_digits(value: u32) -> (digits: Vec<u8>)
    ensures
        digit_values(digits@) == digits_of(value as nat),
{
    let mut digits: Vec<u8> = Vec::new();
    let mut rest: u32 = value;
    proof {
        assert(digits_of(rest as nat) + digit_values(digits@).reverse() =~= digits_of(
            value as nat,
        ));
    }
    while rest >= 10
        invariant
            digits_of(rest as nat) + digit_values(digits@).reverse() == digits_of(
                value as nat,
            ),
        decreases rest,
    {
        let ghost earlier = digit_values(digits@);
        let ghost lower = earlier.reverse();
        let digit = (rest % 10) as u8;
        digits.push(digit);
        proof {
            assert(digit_values(digits@) =~= earlier.push(digit as nat));
            assert(earlier.push(digit as nat).reverse() =~= seq![digit as nat] + lower);
            assert(digits_of((rest / 10) as nat) + (seq![digit as nat] + lower) =~= digits_of(
                (rest / 10) as nat,
            ).push(digit as nat) + lower);
        }
        rest = rest / 10;
    }
    let ghost earlier = digit_values(digits@);
    let ghost lower = earlier.reverse();
    digits.push(rest as u8);
    let ghost all = digit_values(digits@);
    proof {
        assert(all =~= earlier.push(rest as nat));
        assert(earlier.push(rest as nat).reverse() =~= seq![rest as nat] + lower);
    }
    reverse(&mut digits);
    proof {
        assert(digit_values(digits@) =~= all.reverse());
    }
    digits
}

/// The text that writes a digit.
fn digit_text(digit: u8) -> (text: &'static str)
    requires
        digit < 10,
    ensures
        text@ == seq![digit_char(digit as nat)],
{
    proof {
        reveal_strlit("0");
        reveal_strlit("1");
        reveal_strlit("2");
        reveal_strlit("3");
        reveal_strlit("4");
        reveal_strlit("5");
        reveal_strlit("6");
        reveal_strlit("7");
        reveal_strlit("8");
        reveal_strlit("9");
    }
    let text = if digit == 0 {
        "0"
    } else if digit == 1 {
        "1"
    } else if digit == 2 {
        "2"
    } else if digit == 3 {
        "3"
    } else if digit == 4 {
        "4"
    } else if digit == 5 {
        "5"
    } else if digit == 6 {
        "6"
    } else if digit == 7 {
        "7"
    } else if digit == 8 {
        "8"
    } else {
        "9"
    };
    assert(text@ =~= seq![digit_char(digit as nat)]);
    text
}

/// The number of a cell as the board shows it: in decimal, padded with spaces
/// on the left to the width of a cell.
pub fn format_tile(value: Tile) -> (text: String)
    ensures
        text@ == number_text(value as nat),
{
    let digits = decompose_digits(value);
    let ghost decimal = decimal_text(value as nat);
    proof {
        lemma_digits_of(value as nat);
        reveal_strlit(" ");
    }
    let mut text = String::new();
    let mut width: usize = digits.len();
    proof {
        assert(text@ =~= repeated(' ', 0));
    }
    while width < CELL_WIDTH
        invariant
            digits.len() <= width,
            digits.len() >= CELL_WIDTH ==> width == digits.len(),
            digits.len() < CELL_WIDTH ==> width <= CELL_WIDTH,
            text@ == repeated(' ', (width - digits.len()) as nat),
            " "@ == seq![' '],
        decreases CELL_WIDTH - width,
    {
        text.append(" ");
        width += 1;
        proof {
            assert(text@ =~= repeated(' ', (width - digits.len()) as nat));
        }
    }
    let ghost padding = text@;
    proof {
        assert(decimal.len() == digit_values(digits@).len());
        assert(padding + decimal.take(0) =~= padding);
    }
    for i in 0..digits.len()
        invariant
            decimal == decimal_text(value as nat),
            digit_values(digits@) == digits_of(value as nat),
            forall|k: int| 0 <= k < digits_of(value as nat).len() ==> #[trigger] digits_of(
                value as nat,
            )[k] < 10,
            text@ == padding + decimal.take(i as int),
    {
        proof {
            assert(digit_values(digits@)[i as int] == digits@[i as int]);
            assert(digits_of(value as nat)[i as int] < 10);
        }
        text.append(digit_text(digits[i]));
        proof {
            assert(decimal.take(i + 1) =~= decimal.take(i as int).push(
                digit_char(digits@[i as int] as nat),
            ));
            assert(text@ =~= padding + decimal.take(i + 1));
        }
    }
    proof {
        assert(decimal.take(digits.len() as int) =~= decimal);
        if decimal.len() >= CELL_WIDTH {
            assert(padding + decimal =~= decimal);
        }
    }
    text
}

/// The colour that a cell of this value is written in, if it has one.
pub fn tile_color(value: Tile) -> (color: Option<Color>)
    ensures
        color == color_of(value as nat),
{
    match value {
        0 => Some(Color::White),
        2 => Some(Color::Cyan),
        4 => Some(Color::Blue),
        8 => Some(Color::Magenta),
        16 => Some(Color::Red),
        32 => Some(Color::Cyan),
        64 => Some(Color::Blue),
        128 => Some(Color::Magenta),
        256 => Some(Color::Red),
        512 => Some(Color::Cyan),
        1024 => Some(Color::Blue),
        2048 => Some(Color::Yellow),
        _ => None,
    }
}

/// One cell as the board shows it.
pub fn render_cell(value: Tile) -> (text: String)
    ensures
        text@ == cell_text(value as nat),
{
    let mut text = String::new();
    match tile_color(value) {
        Some(color) => {
            text.append("|");
            text.append(escape_code(color).as_str());
        },
        None => {
            text.append(escape_code(Color::Reset).as_str());
        },
    }
    text.append(format_tile(value).as_str());
    text.append(escape_code(Color::Reset).as_str());
    proof {
        assert(text@ =~= cell_text(value as nat));
    }
    text
}

/// The board as text: a border, then each row as its four cells in their
/// colours, a closing bar and a border below.
pub fn render_board(board: &Board) -> (text: String)
    ensures
        text@ == board_text(board@),
{
    let mut text = String::new();
    text.append(BORDER);
    proof {
        assert(text@ =~= BORDER@ + rows_text(board@, 0));
    }
    for i in 0..4usize
        invariant
            text@ == BORDER@ + rows_text(board@, i as nat),
    {
        let ghost above = text@;
        proof {
            assert(above + cells_text(board@[i as int], 0) =~= above);
        }
        for j in 0..4usize
            invariant
                i < 4,
                text@ == above + cells_text(board@[i as int], j as nat),
        {
            text.append(render_cell(board.cells[i][j]).as_str());
            proof {
                assert(text@ =~= above + cells_text(board@[i as int], (j + 1) as nat));
            }
        }
        text.append("|\n");
        text.append(BORDER);
        proof {
            assert(text@ =~= BORDER@ + rows_text(board@, (i + 1) as nat));
        }
    }
    text
}

/// What is written after a move: fourteen empty lines, then the board.
pub fn render_frame(board: &Board) -> (text: String)
    ensures
        text@ == frame_text(board@),
{
    proof {
        reveal_strlit("\n");
    }
    let mut text = String::new();
    proof {
        assert(text@ =~= repeated('\n', 0));
    }
    for i in 0..BLANK_LINES
        invariant
            text@ == repeated('\n', i as nat),
            "\n"@ == seq!['\n'],
    {
        text.append("\n");
        proof {
            assert(text@ =~= repeated('\n', (i + 1) as nat));
        }
    }
    text.append(render_board(board).as_str());
    text
}

/// What is written on a win: the picture, in yellow.
pub fn winner_banner() -> (text: String)
    ensures
        text@ == banner_text(),
{
    let mut text = escape_code(Color::Yellow);
    text.append(WINNER_ART);
    text.append(escape_code(Color::Reset).as_str());
    text
}

} // verus!
