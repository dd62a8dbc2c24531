use vstd::prelude::*;
use vstd::string::StrSliceExecFns;

use crate::rules::Color;
use crate::util::errors::ValueError;
use crate::util::push_char;

verus! {

/// The squares of the board, from a1 to h8, rank by rank.
#[derive(Copy, Clone, Debug, PartialEq, Eq, Hash, Structural)]
pub enum BoardSquare {
    A1, B1, C1, D1, E1, F1, G1, H1,
    A2, B2, C2, D2, E2, F2, G2, H2,
    A3, B3, C3, D3, E3, F3, G3, H3,
    A4, B4, C4, D4, E4, F4, G4, H4,
    A5, B5, C5, D5, E5, F5, G5, H5,
    A6, B6, C6, D6, E6, F6, G6, H6,
    A7, B7, C7, D7, E7, F7, G7, H7,
    A8, B8, C8, D8, E8, F8, G8, H8,
}

pub enum BoardColumn {
    A, B, C, D, E, F, G, H,
}

pub enum BoardRow {
    Row1, Row2, Row3, Row4, Row5, Row6, Row7, Row8,
}

pub enum BoardDiagonal {
    A1H8, B1H7, C1H6, D1H5, E1H4, F1H3, G1H2,
    B1A2, C1A3, D1A4, E1A5, F1A6, G1A7, H1A8,
    A2G8, A3F8, A4E8, A5D8, A6C8, A7B8,
    H2B8, H3C8, H4D8, H5E8, H6F8, H7G8,
}

/// The column (file) of a square number: 0 for a, 7 for h.
pub open spec fn col_of(s: int) -> int {
    s % 8
}

/// The row (rank) of a square number: 0 for rank 1, 7 for rank 8.
pub open spec fn row_of(s: int) -> int {
    s / 8
}

/// The square reached from `s` by moving `dc` columns and `dr` rows, if it is on the board.
pub open spec fn shift_square(s: int, dc: int, dr: int) -> Option<int> {
    if 0 <= col_of(s) + dc <= 7 && 0 <= s + dc + 8 * dr <= 63 {
        Some(s + dc + 8 * dr)
    } else {
        None
    }
}

/// The index of a row of the board.
pub open spec fn row_index(row: BoardRow) -> int {
    match row {
        BoardRow::Row1 => 0,
        BoardRow::Row2 => 1,
        BoardRow::Row3 => 2,
        BoardRow::Row4 => 3,
        BoardRow::Row5 => 4,
        BoardRow::Row6 => 5,
        BoardRow::Row7 => 6,
        BoardRow::Row8 => 7,
    }
}

/// The letter of a column.
pub open spec fn col_char(c: int) -> char {
    if c == 0 { 'a' } else if c == 1 { 'b' } else if c == 2 { 'c' } else if c == 3 { 'd' }
    else if c == 4 { 'e' } else if c == 5 { 'f' } else if c == 6 { 'g' } else { 'h' }
}

/// The digit of a row.
pub open spec fn row_char(r: int) -> char {
    if r == 0 { '1' } else if r == 1 { '2' } else if r == 2 { '3' } else if r == 3 { '4' }
    else if r == 4 { '5' } else if r == 5 { '6' } else if r == 6 { '7' } else { '8' }
}

/// The column that a letter names.
pub open spec fn char_col(c: char) -> int {
    c as int - 'a' as int
}

/// The row that a digit names.
pub open spec fn char_row(c: char) -> int {
    c as int - '1' as int
}

/// A two-character square name such as "e4".
pub open spec fn is_square_notation(note: Seq<char>) -> bool {
    &&& note.len() == 2
    &&& 'a' <= note[0] <= 'h'
    &&& '1' <= note[1] <= '8'
}

/// The square that a valid square name names.
pub open spec fn notation_square(note: Seq<char>) -> int {
    char_col(note[0]) + 8 * char_row(note[1])
}

/// The name of a square.
pub open spec fn square_notation(s: int) -> Seq<char> {
    seq![col_char(col_of(s)), row_char(row_of(s))]
}

pub fn square_in_row(square: &u8, row: BoardRow) -> (b: bool)
    ensures
        b == (*square / 8 == row_index(row)),
{
    let r: u8 = match row {
        BoardRow::Row1 => 0,
        BoardRow::Row2 => 1,
        BoardRow::Row3 => 2,
        BoardRow::Row4 => 3,
        BoardRow::Row5 => 4,
        BoardRow::Row6 => 5,
        BoardRow::Row7 => 6,
        BoardRow::Row8 => 7,
    };
    *square / 8 == r
}

pub fn move_from_square(square: u8, col_shift: i8, row_shift: i8) -> (r: Result<u8, ValueError>)
    requires
        square <= 127,
        square % 8 + col_shift <= 127,
        0 <= square % 8 + col_shift <= 7 ==> (-16 <= row_shift <= 15 && -128 <= square + col_shift + 8 * row_shift <= 127),
    ensures
        match shift_square(square as int, col_shift as int, row_shift as int) {
            Some(t) => r matches Ok(v) && v == t,
            None => r is Err,
        },
        !(0 <= col_of(square as int) + col_shift <= 7) ==> (r matches Err(e) && e.msg@ == "Invalid column shift provided"@),
        (0 <= col_of(square as int) + col_shift <= 7 && shift_square(square as int, col_shift as int, row_shift as int) is None)
            ==> (r matches Err(e) && e.msg@ == "Invalid row shift provided"@),
{
    let start = square as i8;
    let col_position = start % 8;
    if col_position + col_shift < 0 || col_position + col_shift > 7 {
        return Err(ValueError::new("Invalid column shift provided"));
    }
    let result = start + col_shift + (row_shift * 8);
    if result < 0 || result > 63 {
        return Err(ValueError::new("Invalid row shift provided"));
    }
    Ok(result as u8)
}

pub fn get_square_from_col_and_row(col: u8, row: u8) -> (s: u8)
    requires
        col <= 7,
        row <= 7,
    ensures
        s == col + row * 8,
        s < 64,
{
    col + (row * 8)
}

pub fn get_col_and_row_from_square(square: u8) -> (cr: [u8; 2])
    requires
        square <= 63,
    ensures
        cr@ == seq![square % 8, square / 8],
{
    [square % 8, square / 8]
}

pub fn is_second_rank(square: u8, color: Color) -> (b: bool)
    requires
        square <= 63,
    ensures
        b == (row_of(square as int) == if color == Color::White { 1int } else { 6int }),
{
    match color {
        Color::White => get_col_and_row_from_square(square)[1] == 1,
        Color::Black => get_col_and_row_from_square(square)[1] == 6,
    }
}

pub fn is_fourth_rank(square: u8, color: Color) -> (b: bool)
    requires
        square <= 63,
    ensures
        b == (row_of(square as int) == if color == Color::White { 3int } else { 4int }),
{
    match color {
        Color::White => get_col_and_row_from_square(square)[1] == 3,
        Color::Black => get_col_and_row_from_square(square)[1] == 4,
    }
}

pub fn is_eighth_rank(square: u8, color: Color) -> (b: bool)
    requires
        square <= 63,
    ensures
        b == (row_of(square as int) == if color == Color::White { 7int } else { 0int }),
{
    match color {
        Color::White => get_col_and_row_from_square(square)[1] == 7,
        Color::Black => get_col_and_row_from_square(square)[1] == 0,
    }
}

fn map_col_to_name(col: u8) -> (c: char)
    requires
        col <= 7,
    ensures
        c == col_char(col as int),
{
    match col {
        0 => 'a', 1 => 'b', 2 => 'c', 3 => 'd', 4 => 'e', 5 => 'f', 6 => 'g', _ => 'h',
    }
}

fn map_row_to_name(row: u8) -> (c: char)
    requires
        row <= 7,
    ensures
        c == row_char(row as int),
{
    match row {
        0 => '1', 1 => '2', 2 => '3', 3 => '4', 4 => '5', 5 => '6', 6 => '7', _ => '8',
    }
}

fn map_name_to_col(name: char) -> (c: u8)
    requires
        'a' <= name <= 'h',
    ensures
        c == char_col(name),
{
    match name {
        'a' => 0, 'b' => 1, 'c' => 2, 'd' => 3, 'e' => 4, 'f' => 5, 'g' => 6, _ => 7,
    }
}

fn map_name_to_row(name: char) -> (r: u8)
    requires
        '1' <= name <= '8',
    ensures
        r == char_row(name),
{
    match name {
        '1' => 0, '2' => 1, '3' => 2, '4' => 3, '5' => 4, '6' => 5, '7' => 6, _ => 7,
    }
}

fn get_col_and_row_from_notation(note: &str) -> (cr: [char; 2])
    requires
        note@.len() == 2,
    ensures
        cr@ == note@,
{
    let c0 = note.get_char(0);
    let c1 = note.get_char(1);
    let cr = [c0, c1];
    assert(cr@ =~= note@);
    cr
}

fn get_notation_from_col_and_row(arr: [char; 2]) -> (s: String)
    ensures
        s@ == arr@,
{
    let mut s = String::new();
    push_char(&mut s, arr[0]);
    push_char(&mut s, arr[1]);
    assert(s@ =~= arr@);
    s
}

pub fn get_notation_for_square(square: u8) -> (r: Result<[char; 2], ValueError>)
    ensures
        square > 63 ==> (r matches Err(e) && e.msg@ == "Cannot get notation for invalid square"@),
        square <= 63 ==> (r matches Ok(n) && n@ == square_notation(square as int)),
{
    if square > 63 {
        return Err(ValueError::new("Cannot get notation for invalid square"));
    }
    let cr = get_col_and_row_from_square(square);
    let n = [map_col_to_name(cr[0]), map_row_to_name(cr[1])];
    assert(n@ =~= square_notation(square as int));
    Ok(n)
}

pub fn get_square_from_notation(note: &str) -> (s: u8)
    requires
        is_square_notation(note@),
    ensures
        s == notation_square(note@),
        s < 64,
{
    let cr = get_col_and_row_from_notation(note);
    get_square_from_col_and_row(map_name_to_col(cr[0]), map_name_to_row(cr[1]))
}

impl BoardSquare {
    /// The number of the square, 0 for a1 to 63 for h8.
    pub open spec fn index(self) -> int {
        match self {
            BoardSquare::A1 => 0,
            BoardSquare::B1 => 1,
            BoardSquare::C1 => 2,
            BoardSquare::D1 => 3,
            BoardSquare::E1 => 4,
            BoardSquare::F1 => 5,
            BoardSquare::G1 => 6,
            BoardSquare::H1 => 7,
            BoardSquare::A2 => 8,
            BoardSquare::B2 => 9,
            BoardSquare::C2 => 10,
            BoardSquare::D2 => 11,
            BoardSquare::E2 => 12,
            BoardSquare::F2 => 13,
            BoardSquare::G2 => 14,
            BoardSquare::H2 => 15,
            BoardSquare::A3 => 16,
            BoardSquare::B3 => 17,
            BoardSquare::C3 => 18,
            BoardSquare::D3 => 19,
            BoardSquare::E3 => 20,
            BoardSquare::F3 => 21,
            BoardSquare::G3 => 22,
            BoardSquare::H3 => 23,
            BoardSquare::A4 => 24,
            BoardSquare::B4 => 25,
            BoardSquare::C4 => 26,
            BoardSquare::D4 => 27,
            BoardSquare::E4 => 28,
            BoardSquare::F4 => 29,
            BoardSquare::G4 => 30,
            BoardSquare::H4 => 31,
            BoardSquare::A5 => 32,
            BoardSquare::B5 => 33,
            BoardSquare::C5 => 34,
            BoardSquare::D5 => 35,
            BoardSquare::E5 => 36,
            BoardSquare::F5 => 37,
            BoardSquare::G5 => 38,
            BoardSquare::H5 => 39,
            BoardSquare::A6 => 40,
            BoardSquare::B6 => 41,
            BoardSquare::C6 => 42,
            BoardSquare::D6 => 43,
            BoardSquare::E6 => 44,
            BoardSquare::F6 => 45,
            BoardSquare::G6 => 46,
            BoardSquare::H6 => 47,
            BoardSquare::A7 => 48,
            BoardSquare::B7 => 49,
            BoardSquare::C7 => 50,
            BoardSquare::D7 => 51,
            BoardSquare::E7 => 52,
            BoardSquare::F7 => 53,
            BoardSquare::G7 => 54,
            BoardSquare::H7 => 55,
            BoardSquare::A8 => 56,
            BoardSquare::B8 => 57,
            BoardSquare::C8 => 58,
            BoardSquare::D8 => 59,
            BoardSquare::E8 => 60,
            BoardSquare::F8 => 61,
            BoardSquare::G8 => 62,
            BoardSquare::H8 => 63,
        }
    }

    pub fn apply_movement(&self, col_shift: i8, row_shift: i8) -> (r: Result<BoardSquare, ValueError>)
        requires
            self.index() % 8 + col_shift <= 127,
            0 <= self.index() % 8 + col_shift <= 7 ==> (-16 <= row_shift <= 15 && -128 <= self.index() + col_shift + 8 * row_shift <= 127),
        ensures
            match shift_square(self.index(), col_shift as int, row_shift as int) {
                Some(t) => r matches Ok(v) && v.index() == t,
                None => r is Err,
            },
    {
        match move_from_square(self.value(), col_shift, row_shift) {
            Ok(v) => Ok(Self::from_value(v)),
            Err(e) => Err(e),
        }
    }

    pub fn value(&self) -> (v: u8)
        ensures
            v == self.index(),
            v < 64,
    {
        match self {
            BoardSquare::A1 => 0,
            BoardSquare::B1 => 1,
            BoardSquare::C1 => 2,
            BoardSquare::D1 => 3,
            BoardSquare::E1 => 4,
            BoardSquare::F1 => 5,
            BoardSquare::G1 => 6,
            BoardSquare::H1 => 7,
            BoardSquare::A2 => 8,
            BoardSquare::B2 => 9,
            BoardSquare::C2 => 10,
            BoardSquare::D2 => 11,
            BoardSquare::E2 => 12,
            BoardSquare::F2 => 13,
            BoardSquare::G2 => 14,
            BoardSquare::H2 => 15,
            BoardSquare::A3 => 16,
            BoardSquare::B3 => 17,
            BoardSquare::C3 => 18,
            BoardSquare::D3 => 19,
            BoardSquare::E3 => 20,
            BoardSquare::F3 => 21,
            BoardSquare::G3 => 22,
            BoardSquare::H3 => 23,
            BoardSquare::A4 => 24,
            BoardSquare::B4 => 25,
            BoardSquare::C4 => 26,
            BoardSquare::D4 => 27,
            BoardSquare::E4 => 28,
            BoardSquare::F4 => 29,
            BoardSquare::G4 => 30,
            BoardSquare::H4 => 31,
            BoardSquare::A5 => 32,
            BoardSquare::B5 => 33,
            BoardSquare::C5 => 34,
            BoardSquare::D5 => 35,
            BoardSquare::E5 => 36,
            BoardSquare::F5 => 37,
            BoardSquare::G5 => 38,
            BoardSquare::H5 => 39,
            BoardSquare::A6 => 40,
            BoardSquare::B6 => 41,
            BoardSquare::C6 => 42,
            BoardSquare::D6 => 43,
            BoardSquare::E6 => 44,
            BoardSquare::F6 => 45,
            BoardSquare::G6 => 46,
            BoardSquare::H6 => 47,
            BoardSquare::A7 => 48,
            BoardSquare::B7 => 49,
            BoardSquare::C7 => 50,
            BoardSquare::D7 => 51,
            BoardSquare::E7 => 52,
            BoardSquare::F7 => 53,
            BoardSquare::G7 => 54,
            BoardSquare::H7 => 55,
            BoardSquare::A8 => 56,
            BoardSquare::B8 => 57,
            BoardSquare::C8 => 58,
            BoardSquare::D8 => 59,
            BoardSquare::E8 => 60,
            BoardSquare::F8 => 61,
            BoardSquare::G8 => 62,
            BoardSquare::H8 => 63,
        }
    }

    pub fn get_notation(&self) -> (n: [char; 2])
        ensures
            n@ == square_notation(self.index()),
    {
        match get_notation_for_square(self.value()) {
            Ok(n) => n,
            Err(_) => ['a', '1'],
        }
    }

    pub fn get_notation_string(&self) -> (s: String)
        ensures
            s@ == square_notation(self.index()),
    {
        get_notation_from_col_and_row(self.get_notation())
    }

    pub fn from_value(val: u8) -> (sq: BoardSquare)
        requires
            val < 64,
        ensures
            sq.index() == val,
    {
        match val {
            0 => BoardSquare::A1,
            1 => BoardSquare::B1,
            2 => BoardSquare::C1,
            3 => BoardSquare::D1,
            4 => BoardSquare::E1,
            5 => BoardSquare::F1,
            6 => BoardSquare::G1,
            7 => BoardSquare::H1,
            8 => BoardSquare::A2,
            9 => BoardSquare::B2,
            10 => BoardSquare::C2,
            11 => BoardSquare::D2,
            12 => BoardSquare::E2,
            13 => BoardSquare::F2,
            14 => BoardSquare::G2,
            15 => BoardSquare::H2,
            16 => BoardSquare::A3,
            17 => BoardSquare::B3,
            18 => BoardSquare::C3,
            19 => BoardSquare::D3,
            20 => BoardSquare::E3,
            21 => BoardSquare::F3,
            22 => BoardSquare::G3,
            23 => BoardSquare::H3,
            24 => BoardSquare::A4,
            25 => BoardSquare::B4,
            26 => BoardSquare::C4,
            27 => BoardSquare::D4,
            28 => BoardSquare::E4,
            29 => BoardSquare::F4,
            30 => BoardSquare::G4,
            31 => BoardSquare::H4,
            32 => BoardSquare::A5,
            33 => BoardSquare::B5,
            34 => BoardSquare::C5,
            35 => BoardSquare::D5,
            36 => BoardSquare::E5,
            37 => BoardSquare::F5,
            38 => BoardSquare::G5,
            39 => BoardSquare::H5,
            40 => BoardSquare::A6,
            41 => BoardSquare::B6,
            42 => BoardSquare::C6,
            43 => BoardSquare::D6,
            44 => BoardSquare::E6,
            45 => BoardSquare::F6,
            46 => BoardSquare::G6,
            47 => BoardSquare::H6,
            48 => BoardSquare::A7,
            49 => BoardSquare::B7,
            50 => BoardSquare::C7,
            51 => BoardSquare::D7,
            52 => BoardSquare::E7,
            53 => BoardSquare::F7,
            54 => BoardSquare::G7,
            55 => BoardSquare::H7,
            56 => BoardSquare::A8,
            57 => BoardSquare::B8,
            58 => BoardSquare::C8,
            59 => BoardSquare::D8,
            60 => BoardSquare::E8,
            61 => BoardSquare::F8,
            62 => BoardSquare::G8,
            63 => BoardSquare::H8,
            _ => BoardSquare::H8,
        }
    }

    pub fn from_notation(note: &str) -> (sq: Self)
        requires
            is_square_notation(note@),
        ensures
            sq.index() == notation_square(note@),
    {
        Self::from_value(get_square_from_notation(note))
    }
}

/// Every square number names one square, and every square has a number.
pub proof fn lemma_square_numbering(sq: BoardSquare, v: int)
    ensures
        0 <= sq.index() < 64,
        0 <= v < 64 ==> exists|s: BoardSquare| #[trigger] s.index() == v,
        forall|s: BoardSquare| s.index() == sq.index() ==> s == sq,
{
    if 0 <= v < 64 {
        let s = choose_square(v as u8);
        assert(s.index() == v);
    }
}

spec fn choose_square(v: u8) -> BoardSquare {
    match v {
        0 => BoardSquare::A1,
        1 => BoardSquare::B1,
        2 => BoardSquare::C1,
        3 => BoardSquare::D1,
        4 => BoardSquare::E1,
        5 => BoardSquare::F1,
        6 => BoardSquare::G1,
        7 => BoardSquare::H1,
        8 => BoardSquare::A2,
        9 => BoardSquare::B2,
        10 => BoardSquare::C2,
        11 => BoardSquare::D2,
        12 => BoardSquare::E2,
        13 => BoardSquare::F2,
        14 => BoardSquare::G2,
        15 => BoardSquare::H2,
        16 => BoardSquare::A3,
        17 => BoardSquare::B3,
        18 => BoardSquare::C3,
        19 => BoardSquare::D3,
        20 => BoardSquare::E3,
        21 => BoardSquare::F3,
        22 => BoardSquare::G3,
        23 => BoardSquare::H3,
        24 => BoardSquare::A4,
        25 => BoardSquare::B4,
        26 => BoardSquare::C4,
        27 => BoardSquare::D4,
        28 => BoardSquare::E4,
        29 => BoardSquare::F4,
        30 => BoardSquare::G4,
        31 => BoardSquare::H4,
        32 => BoardSquare::A5,
        33 => BoardSquare::B5,
        34 => BoardSquare::C5,
        35 => BoardSquare::D5,
        36 => BoardSquare::E5,
        37 => BoardSquare::F5,
        38 => BoardSquare::G5,
        39 => BoardSquare::H5,
        40 => BoardSquare::A6,
        41 => BoardSquare::B6,
        42 => BoardSquare::C6,
        43 => BoardSquare::D6,
        44 => BoardSquare::E6,
        45 => BoardSquare::F6,
        46 => BoardSquare::G6,
        47 => BoardSquare::H6,
        48 => BoardSquare::A7,
        49 => BoardSquare::B7,
        50 => BoardSquare::C7,
        51 => BoardSquare::D7,
        52 => BoardSquare::E7,
        53 => BoardSquare::F7,
        54 => BoardSquare::G7,
        55 => BoardSquare::H7,
        56 => BoardSquare::A8,
        57 => BoardSquare::B8,
        58 => BoardSquare::C8,
        59 => BoardSquare::D8,
        60 => BoardSquare::E8,
        61 => BoardSquare::F8,
        62 => BoardSquare::G8,
        63 => BoardSquare::H8,
        _ => BoardSquare::H8,
    }
}

/// A square's name names that square again.
pub proof fn lemma_notation_roundtrip(s: int)
    requires
        0 <= s < 64,
    ensures
        is_square_notation(square_notation(s)),
        notation_square(square_notation(s)) == s,
{
}

} // verus!
