use vstd::prelude::*;

use crate::rules::Color;
use crate::rules::board::squares::{BoardSquare, is_square_notation, notation_square, square_notation};
use crate::rules::pieces::{Piece, PieceType};
use super::errors::InputError;
use super::push_char;

verus! {

/// The position at the start of a game.
pub const STARTING_POSITION: &'static str = "rnbqkbnr/pppppppp/8/8/8/8/PPPPPPPP/RNBQKBNR w KQkq - 0 1";

// ---------------------------------------------------------------------------
// Characters
// ---------------------------------------------------------------------------

/// The letter of a piece: upper case for white, lower case for black.
pub open spec fn piece_char(p: Piece) -> char {
    match (p.color, p.piece_type) {
        (Color::White, PieceType::Pawn) => 'P',
        (Color::White, PieceType::Knight) => 'N',
        (Color::White, PieceType::Bishop) => 'B',
        (Color::White, PieceType::Rook) => 'R',
        (Color::White, PieceType::Queen) => 'Q',
        (Color::White, PieceType::King) => 'K',
        (Color::Black, PieceType::Pawn) => 'p',
        (Color::Black, PieceType::Knight) => 'n',
        (Color::Black, PieceType::Bishop) => 'b',
        (Color::Black, PieceType::Rook) => 'r',
        (Color::Black, PieceType::Queen) => 'q',
        (Color::Black, PieceType::King) => 'k',
    }
}

/// The piece that a letter names, if it names one.
pub open spec fn char_piece(c: char) -> Option<Piece> {
    if c == 'P' { Some(Piece { color: Color::White, piece_type: PieceType::Pawn }) }
    else if c == 'N' { Some(Piece { color: Color::White, piece_type: PieceType::Knight }) }
    else if c == 'B' { Some(Piece { color: Color::White, piece_type: PieceType::Bishop }) }
    else if c == 'R' { Some(Piece { color: Color::White, piece_type: PieceType::Rook }) }
    else if c == 'Q' { Some(Piece { color: Color::White, piece_type: PieceType::Queen }) }
    else if c == 'K' { Some(Piece { color: Color::White, piece_type: PieceType::King }) }
    else if c == 'p' { Some(Piece { color: Color::Black, piece_type: PieceType::Pawn }) }
    else if c == 'n' { Some(Piece { color: Color::Black, piece_type: PieceType::Knight }) }
    else if c == 'b' { Some(Piece { color: Color::Black, piece_type: PieceType::Bishop }) }
    else if c == 'r' { Some(Piece { color: Color::Black, piece_type: PieceType::Rook }) }
    else if c == 'q' { Some(Piece { color: Color::Black, piece_type: PieceType::Queen }) }
    else if c == 'k' { Some(Piece { color: Color::Black, piece_type: PieceType::King }) }
    else { None }
}

pub open spec fn is_digit(c: char) -> bool {
    '0' <= c && c <= '9'
}

/// The value of a decimal digit.
pub open spec fn digit_of(c: char) -> nat {
    (c as int - '0' as int) as nat
}

/// The decimal digit of a number below ten.
pub open spec fn digit_char(n: int) -> char {
    if n == 0 { '0' } else if n == 1 { '1' } else if n == 2 { '2' } else if n == 3 { '3' } else if n == 4 { '4' }
    else if n == 5 { '5' } else if n == 6 { '6' } else if n == 7 { '7' } else if n == 8 { '8' } else { '9' }
}

/// The parts of a text between the separators, as `str::split` gives them.
pub open spec fn split_on(s: Seq<char>, sep: char) -> Seq<Seq<char>>
    decreases s.len(),
{
    if s.len() == 0 {
        seq![seq![]]
    } else {
        let rest = split_on(s.drop_last(), sep);
        if s.last() == sep {
            rest.push(seq![])
        } else {
            rest.update(rest.len() - 1, rest.last().push(s.last()))
        }
    }
}

proof fn lemma_split_nonempty(s: Seq<char>, sep: char)
    ensures
        split_on(s, sep).len() >= 1,
    decreases s.len(),
{
    if s.len() > 0 {
        lemma_split_nonempty(s.drop_last(), sep);
    }
}

/// The views of a list of text slices.
pub open spec fn views(v: Seq<&str>) -> Seq<Seq<char>> {
    v.map_values(|x: &str| x@)
}

/// Splits a text at each occurrence of a separator.
fn split_str<'a>(s: &'a str, sep: char) -> (parts: Vec<&'a str>)
    ensures
        views(parts@) == split_on(s@, sep),
{
    let n = s.unicode_len();
    let mut parts: Vec<&'a str> = Vec::new();
    let mut start: usize = 0;
    let mut i: usize = 0;
    assert(s@.take(0) =~= Seq::<char>::empty());
    assert(views(parts@).push(s@.subrange(0, 0)) =~= seq![Seq::<char>::empty()]);
    while i < n
        invariant
            n == s@.len(),
            start <= i <= n,
            views(parts@).push(s@.subrange(start as int, i as int)) == split_on(s@.take(i as int), sep),
        decreases n - i,
    {
        let c = s.get_char(i);
        let ghost before = parts@;
        assert(s@.take(i + 1).drop_last() =~= s@.take(i as int));
        assert(s@.take(i + 1).last() == c);
        if c == sep {
            let part = s.substring_char(start, i);
            parts.push(part);
            assert(views(parts@) =~= views(before).push(s@.subrange(start as int, i as int)));
            start = i + 1;
            assert(s@.subrange(start as int, i + 1) =~= Seq::<char>::empty());
        } else {
            let ghost prev = split_on(s@.take(i as int), sep);
            assert(prev.len() == views(before).len() + 1);
            assert(s@.subrange(start as int, i + 1) =~= s@.subrange(start as int, i as int).push(c));
            assert(views(before).push(s@.subrange(start as int, i + 1)) =~= prev.update(prev.len() - 1, prev.last().push(c)));
        }
        i += 1;
    }
    let last = s.substring_char(start, n);
    let ghost before = parts@;
    parts.push(last);
    assert(s@.take(n as int) =~= s@);
    assert(views(parts@) =~= views(before).push(s@.subrange(start as int, n as int)));
    parts
}

pub fn get_notation_for_piece(piece: Piece) -> (c: char)
    ensures
        c == piece_char(piece),
{
    match piece.color {
        Color::White => match piece.piece_type {
            PieceType::Pawn => 'P',
            PieceType::Knight => 'N',
            PieceType::Bishop => 'B',
            PieceType::Rook => 'R',
            PieceType::Queen => 'Q',
            PieceType::King => 'K',
        },
        Color::Black => match piece.piece_type {
            PieceType::Pawn => 'p',
            PieceType::Knight => 'n',
            PieceType::Bishop => 'b',
            PieceType::Rook => 'r',
            PieceType::Queen => 'q',
            PieceType::King => 'k',
        },
    }
}

fn get_piece_for_notation(c: char) -> (r: Result<Piece, InputError>)
    ensures
        match char_piece(c) {
            Some(p) => r == Ok::<Piece, InputError>(p),
            None => r matches Err(e) && e.msg@ == "Not a valid piece identifier"@,
        },
{
    match c {
        'P' => Ok(Piece { color: Color::White, piece_type: PieceType::Pawn }),
        'p' => Ok(Piece { color: Color::Black, piece_type: PieceType::Pawn }),
        'N' => Ok(Piece { color: Color::White, piece_type: PieceType::Knight }),
        'n' => Ok(Piece { color: Color::Black, piece_type: PieceType::Knight }),
        'B' => Ok(Piece { color: Color::White, piece_type: PieceType::Bishop }),
        'b' => Ok(Piece { color: Color::Black, piece_type: PieceType::Bishop }),
        'R' => Ok(Piece { color: Color::White, piece_type: PieceType::Rook }),
        'r' => Ok(Piece { color: Color::Black, piece_type: PieceType::Rook }),
        'Q' => Ok(Piece { color: Color::White, piece_type: PieceType::Queen }),
        'q' => Ok(Piece { color: Color::Black, piece_type: PieceType::Queen }),
        'K' => Ok(Piece { color: Color::White, piece_type: PieceType::King }),
        'k' => Ok(Piece { color: Color::Black, piece_type: PieceType::King }),
        _ => Err(InputError::new("Not a valid piece identifier")),
    }
}

fn digit_value(c: char) -> (d: u8)
    requires
        is_digit(c),
    ensures
        d == digit_of(c),
        d < 10,
{
    match c {
        '0' => 0,
        '1' => 1,
        '2' => 2,
        '3' => 3,
        '4' => 4,
        '5' => 5,
        '6' => 6,
        '7' => 7,
        '8' => 8,
        _ => 9,
    }
}

fn digit_to_char(n: u8) -> (c: char)
    requires
        n < 10,
    ensures
        c == digit_char(n as int),
{
    match n {
        0 => '0',
        1 => '1',
        2 => '2',
        3 => '3',
        4 => '4',
        5 => '5',
        6 => '6',
        7 => '7',
        8 => '8',
        _ => '9',
    }
}

// ---------------------------------------------------------------------------
// Numbers
// ---------------------------------------------------------------------------

/// The value of a run of decimal digits.
pub open spec fn digits_value(s: Seq<char>) -> nat
    decreases s.len(),
{
    if s.len() == 0 {
        0
    } else {
        digits_value(s.drop_last()) * 10 + digit_of(s.last())
    }
}

/// The digits of a number text, past an optional leading plus sign.
pub open spec fn unsigned_digits(s: Seq<char>) -> Seq<char> {
    if s.len() > 0 && s[0] == '+' {
        s.subrange(1, s.len() as int)
    } else {
        s
    }
}

/// Whether a text is a number that fits in a byte, as `u8::from_str` reads it.
pub open spec fn is_u8_text(s: Seq<char>) -> bool {
    let d = unsigned_digits(s);
    &&& d.len() > 0
    &&& forall|i: int| 0 <= i < d.len() ==> is_digit(#[trigger] d[i])
    &&& digits_value(d) <= 255
}

/// The decimal text of a byte, without leading zeros.
pub open spec fn u8_text(n: u8) -> Seq<char> {
    if n < 10 {
        seq![digit_char(n as int)]
    } else if n < 100 {
        seq![digit_char(n as int / 10), digit_char(n as int % 10)]
    } else {
        seq![digit_char(n as int / 100), digit_char((n as int / 10) % 10), digit_char(n as int % 10)]
    }
}

proof fn lemma_digits_prefix(s: Seq<char>, i: int)
    requires
        0 <= i <= s.len(),
    ensures
        digits_value(s.take(i)) <= digits_value(s),
    decreases s.len(),
{
    if i < s.len() {
        lemma_digits_prefix(s.drop_last(), i);
        assert(s.drop_last().take(i) =~= s.take(i));
    } else {
        assert(s.take(i) =~= s);
    }
}

fn parse_u8(s: &str) -> (n: u8)
    requires
        is_u8_text(s@),
    ensures
        n == digits_value(unsigned_digits(s@)),
{
    let len = s.unicode_len();
    let mut i: usize = 0;
    if s.get_char(0) == '+' {
        i = 1;
    }
    let ghost d = unsigned_digits(s@);
    assert(d =~= s@.subrange(i as int, len as int));
    let mut acc: u32 = 0;
    while i < len
        invariant
            len == s@.len(),
            d == unsigned_digits(s@),
            d.len() > 0,
            forall|j: int| 0 <= j < d.len() ==> is_digit(#[trigger] d[j]),
            digits_value(d) <= 255,
            d =~= s@.subrange(len - d.len(), len as int),
            len - d.len() <= i <= len,
            acc == digits_value(d.take(i - (len - d.len()))),
            acc <= 255,
        decreases len - i,
    {
        let ghost k = i - (len - d.len());
        let c = s.get_char(i);
        assert(d[k] == c);
        let v = digit_value(c);
        assert(d.take(k + 1).drop_last() =~= d.take(k));
        proof { lemma_digits_prefix(d, k + 1); }
        acc = acc * 10 + v as u32;
        i += 1;
    }
    assert(d.take(d.len() as int) =~= d);
    acc as u8
}

pub(crate) fn u8_to_text(n: u8) -> (s: String)
    ensures
        s@ == u8_text(n),
{
    let mut s = String::new();
    if n >= 100 {
        push_char(&mut s, digit_to_char(n / 100));
        push_char(&mut s, digit_to_char((n / 10) % 10));
    } else if n >= 10 {
        push_char(&mut s, digit_to_char(n / 10));
    }
    push_char(&mut s, digit_to_char(n % 10));
    assert(s@ =~= u8_text(n));
    s
}

// ---------------------------------------------------------------------------
// Rows and boards
// ---------------------------------------------------------------------------

/// The squares that a row's notation fills, from its first file on.
pub open spec fn row_cells(s: Seq<char>) -> Seq<Option<Piece>>
    decreases s.len(),
{
    if s.len() == 0 {
        seq![]
    } else {
        row_cells(s.drop_last()) + match char_piece(s.last()) {
            Some(p) => seq![Some(p)],
            None => Seq::new(digit_of(s.last()), |i: int| None::<Piece>),
        }
    }
}

/// A row's notation: piece letters and digits that fill at most eight squares.
pub open spec fn is_row_notation(s: Seq<char>) -> bool {
    &&& forall|i: int| 0 <= i < s.len() ==> (char_piece(#[trigger] s[i]) is Some || is_digit(s[i]))
    &&& row_cells(s).len() <= 8
}

/// What a row's notation puts on the square of the given file.
pub open spec fn row_cell(s: Seq<char>, c: int) -> Option<Piece> {
    if 0 <= c < row_cells(s).len() {
        row_cells(s)[c]
    } else {
        None
    }
}

proof fn lemma_row_cells_prefix(s: Seq<char>, i: int)
    requires
        0 <= i <= s.len(),
    ensures
        row_cells(s.take(i)).len() <= row_cells(s).len(),
    decreases s.len(),
{
    if i < s.len() {
        lemma_row_cells_prefix(s.drop_last(), i);
        assert(s.drop_last().take(i) =~= s.take(i));
    } else {
        assert(s.take(i) =~= s);
    }
}

fn get_row_from_notation(fen: &str) -> (row: [Option<Piece>; 8])
    requires
        is_row_notation(fen@),
    ensures
        forall|c: int| 0 <= c < 8 ==> #[trigger] row@[c] == row_cell(fen@, c),
{
    let mut row: [Option<Piece>; 8] = [None; 8];
    let mut index: usize = 0;
    let len = fen.unicode_len();
    let mut i: usize = 0;
    while i < len
        invariant
            len == fen@.len(),
            i <= len,
            is_row_notation(fen@),
            index == row_cells(fen@.take(i as int)).len(),
            index <= 8,
            forall|c: int| 0 <= c < index ==> #[trigger] row@[c] == row_cells(fen@.take(i as int))[c],
            forall|c: int| index <= c < 8 ==> #[trigger] row@[c] == None::<Piece>,
        decreases len - i,
    {
        let note = fen.get_char(i);
        let ghost prev = row_cells(fen@.take(i as int));
        assert(fen@.take(i + 1).drop_last() =~= fen@.take(i as int));
        assert(fen@.take(i + 1).last() == note);
        proof { lemma_row_cells_prefix(fen@, i + 1); }
        assert(char_piece(fen@[i as int]) is Some || is_digit(fen@[i as int]));
        match get_piece_for_notation(note) {
            Ok(piece) => {
                row[index] = Some(piece);
                index += 1;
                assert(row_cells(fen@.take(i + 1)) =~= prev + seq![Some(piece)]);
            },
            Err(_e) => {
                let empty_count = digit_value(note);
                let ghost next = row_cells(fen@.take(i + 1));
                assert(next =~= prev + Seq::new(digit_of(note), |j: int| None::<Piece>));
                let mut k: u8 = 0;
                while k < empty_count
                    invariant
                        k <= empty_count,
                        empty_count == digit_of(note),
                        index == prev.len() + k,
                        next.len() == prev.len() + empty_count,
                        next.len() <= 8,
                        next =~= prev + Seq::new(digit_of(note), |j: int| None::<Piece>),
                        forall|c: int| 0 <= c < index ==> #[trigger] row@[c] == next[c],
                        forall|c: int| index <= c < 8 ==> #[trigger] row@[c] == None::<Piece>,
                    decreases empty_count - k,
                {
                    row[index] = None;
                    index += 1;
                    k += 1;
                }
            },
        }
        i += 1;
    }
    assert(fen@.take(len as int) =~= fen@);
    row
}

/// A board's notation: at most eight valid rows, separated by slashes.
pub open spec fn is_board_notation(s: Seq<char>) -> bool {
    let rows = split_on(s, '/');
    &&& rows.len() <= 8
    &&& forall|r: int| 0 <= r < rows.len() ==> is_row_notation(#[trigger] rows[r])
}

/// What a board's notation puts on a square, given by its row (counted from the top) and file.
pub open spec fn board_cell(s: Seq<char>, r: int, c: int) -> Option<Piece> {
    let rows = split_on(s, '/');
    if 0 <= r < rows.len() {
        row_cell(rows[r], c)
    } else {
        None
    }
}

fn get_board_from_notation(fen: &str) -> (board: [[Option<Piece>; 8]; 8])
    requires
        is_board_notation(fen@),
    ensures
        forall|r: int, c: int| 0 <= r < 8 && 0 <= c < 8 ==> #[trigger] board@[r]@[c] == board_cell(fen@, r, c),
{
    let mut board: [[Option<Piece>; 8]; 8] = [[None; 8]; 8];
    let rows = split_str(fen, '/');
    let ghost rs = split_on(fen@, '/');
    assert(rows@.len() == rs.len());
    let mut index: usize = 0;
    while index < rows.len()
        invariant
            views(rows@) == rs,
            rs == split_on(fen@, '/'),
            rs.len() <= 8,
            forall|r: int| 0 <= r < rs.len() ==> is_row_notation(#[trigger] rs[r]),
            index <= rows@.len(),
            forall|r: int, c: int| 0 <= r < index && 0 <= c < 8 ==> #[trigger] board@[r]@[c] == row_cell(rs[r], c),
            forall|r: int, c: int| index <= r < 8 && 0 <= c < 8 ==> #[trigger] board@[r]@[c] == None::<Piece>,
        decreases rows@.len() - index,
    {
        assert(rows@[index as int]@ == rs[index as int]);
        assert(is_row_notation(rs[index as int]));
        let row = get_row_from_notation(rows[index]);
        board[index] = row;
        index += 1;
    }
    board
}

/// The notation of a row, from its `i`-th square on, with `empty` empty squares not yet written.
pub open spec fn row_text_from(cells: Seq<Option<Piece>>, i: int, empty: nat) -> Seq<char>
    decreases cells.len() - i,
{
    if i >= cells.len() || i < 0 {
        if empty > 0 { seq![digit_char(empty as int)] } else { seq![] }
    } else {
        match cells[i] {
            None => row_text_from(cells, i + 1, empty + 1),
            Some(p) => (if empty > 0 { seq![digit_char(empty as int)] } else { seq![] }) + seq![piece_char(p)]
                + row_text_from(cells, i + 1, 0),
        }
    }
}

/// The notation of a row: piece letters, with each run of empty squares written as its length.
pub open spec fn row_text(cells: Seq<Option<Piece>>) -> Seq<char> {
    row_text_from(cells, 0, 0)
}

fn get_notation_for_row(row: [Option<Piece>; 8]) -> (s: String)
    ensures
        s@ == row_text(row@),
{
    let mut empty_count: u8 = 0;
    let mut row_string = String::new();
    let mut i: usize = 0;
    while i < 8
        invariant
            i <= 8,
            empty_count <= i,
            row_string@ + row_text_from(row@, i as int, empty_count as nat) == row_text(row@),
        decreases 8 - i,
    {
        let ghost before = row_string@;
        let ghost e0 = empty_count as nat;
        match row[i] {
            None => {
                empty_count += 1;
            },
            Some(piece) => {
                if empty_count > 0 {
                    push_char(&mut row_string, digit_to_char(empty_count));
                }
                empty_count = 0;
                push_char(&mut row_string, get_notation_for_piece(piece));
                assert(row_string@ + row_text_from(row@, i + 1, 0) =~= before + row_text_from(row@, i as int, e0));
            },
        }
        i += 1;
    }
    if empty_count > 0 {
        push_char(&mut row_string, digit_to_char(empty_count));
    }
    assert(row_string@ =~= row_text(row@));
    row_string
}

/// The rows of a board, from the top one down.
pub open spec fn rows_of(board: [[Option<Piece>; 8]; 8]) -> Seq<Seq<Option<Piece>>> {
    board@.map_values(|r: [Option<Piece>; 8]| r@)
}

/// The notations of the rows, separated by slashes.
pub open spec fn join_rows(rows: Seq<Seq<Option<Piece>>>) -> Seq<char>
    decreases rows.len(),
{
    if rows.len() == 0 {
        seq![]
    } else if rows.len() == 1 {
        row_text(rows[0])
    } else {
        join_rows(rows.drop_last()) + seq!['/'] + row_text(rows.last())
    }
}

/// The notation of a board.
pub open spec fn board_text(board: [[Option<Piece>; 8]; 8]) -> Seq<char> {
    join_rows(rows_of(board))
}

pub fn get_notation_for_board(board: [[Option<Piece>; 8]; 8]) -> (s: String)
    ensures
        s@ == board_text(board),
{
    let mut s = String::new();
    let mut r: usize = 0;
    let ghost rows = rows_of(board);
    assert(rows.len() == 8);
    while r < 8
        invariant
            r <= 8,
            rows == rows_of(board),
            rows.len() == 8,
            s@ == join_rows(rows.take(r as int)),
        decreases 8 - r,
    {
        let row_string = get_notation_for_row(board[r]);
        assert(rows.take(r + 1).drop_last() =~= rows.take(r as int));
        assert(rows.take(r + 1).last() == board@[r as int]@);
        if r > 0 {
            push_char(&mut s, '/');
        } else {
            assert(rows.take(0) =~= Seq::<Seq<Option<Piece>>>::empty());
        }
        s.append(row_string.as_str());
        r += 1;
    }
    assert(rows.take(8) =~= rows);
    s
}

// ---------------------------------------------------------------------------
// The other fields
// ---------------------------------------------------------------------------

/// The castling rights a FEN records.
#[derive(Copy, Clone, PartialEq, Eq, Structural)]
pub struct Castling {
    pub white_kingside: bool,
    pub white_queenside: bool,
    pub black_kingside: bool,
    pub black_queenside: bool,
}

pub open spec fn to_move_text(c: Color) -> Seq<char> {
    match c {
        Color::White => seq!['w'],
        Color::Black => seq!['b'],
    }
}

/// The castling field written for the rights: `K`, `Q`, `k`, `q` in this order, where the
/// black kingside right writes both of the black letters; `-` when none is written.
pub open spec fn castling_text(c: Castling) -> Seq<char> {
    let letters = (if c.white_kingside { seq!['K'] } else { seq![] })
        + (if c.white_queenside { seq!['Q'] } else { seq![] })
        + (if c.black_kingside { seq!['k'] } else { seq![] })
        + (if c.black_kingside { seq!['q'] } else { seq![] });
    if letters.len() == 0 {
        seq!['-']
    } else {
        letters
    }
}

/// The rights a castling field grants: each letter present grants its right.
pub open spec fn castling_from(s: Seq<char>) -> Castling {
    if s == seq!['-'] {
        Castling { white_kingside: false, white_queenside: false, black_kingside: false, black_queenside: false }
    } else {
        Castling {
            white_kingside: s.contains('K'),
            white_queenside: s.contains('Q'),
            black_kingside: s.contains('k'),
            black_queenside: s.contains('q'),
        }
    }
}

pub open spec fn en_passant_text(e: Option<BoardSquare>) -> Seq<char> {
    match e {
        None => seq!['-'],
        Some(s) => square_notation(s.index()),
    }
}

fn is_single(s: &str, c: char) -> (b: bool)
    ensures
        b == (s@ == seq![c]),
{
    if s.unicode_len() == 1 {
        let first = s.get_char(0);
        if first == c {
            assert(s@ =~= seq![c]);
            true
        } else {
            false
        }
    } else {
        false
    }
}

fn get_notation_for_to_move(color: Color) -> (s: String)
    ensures
        s@ == to_move_text(color),
{
    let mut s = String::new();
    match color {
        Color::White => push_char(&mut s, 'w'),
        Color::Black => push_char(&mut s, 'b'),
    }
    assert(s@ =~= to_move_text(color));
    s
}

fn get_to_move_from_notation(fen: &str) -> (c: Color)
    requires
        fen@ == seq!['w'] || fen@ == seq!['b'],
    ensures
        c == (if fen@ == seq!['w'] { Color::White } else { Color::Black }),
{
    if is_single(fen, 'w') {
        Color::White
    } else {
        Color::Black
    }
}

fn get_notation_for_castling(castling: &Castling) -> (s: String)
    ensures
        s@ == castling_text(*castling),
{
    let mut s = String::new();
    if castling.white_kingside {
        push_char(&mut s, 'K');
    }
    if castling.white_queenside {
        push_char(&mut s, 'Q');
    }
    if castling.black_kingside {
        push_char(&mut s, 'k');
    }
    if castling.black_kingside {
        push_char(&mut s, 'q');
    }
    let ghost letters = s@;
    assert(letters =~= (if castling.white_kingside { seq!['K'] } else { seq![] })
        + (if castling.white_queenside { seq!['Q'] } else { seq![] })
        + (if castling.black_kingside { seq!['k'] } else { seq![] })
        + (if castling.black_kingside { seq!['q'] } else { seq![] }));
    if !castling.white_kingside && !castling.white_queenside && !castling.black_kingside {
        let mut dash = String::new();
        push_char(&mut dash, '-');
        assert(dash@ =~= seq!['-']);
        return dash;
    }
    s
}

fn get_castling_from_notation(fen: &str) -> (c: Castling)
    ensures
        c == castling_from(fen@),
{
    if is_single(fen, '-') {
        return Castling { white_kingside: false, white_queenside: false, black_kingside: false, black_queenside: false };
    }
    let mut c = Castling { white_kingside: false, white_queenside: false, black_kingside: false, black_queenside: false };
    let len = fen.unicode_len();
    let mut i: usize = 0;
    while i < len
        invariant
            len == fen@.len(),
            i <= len,
            c.white_kingside == fen@.take(i as int).contains('K'),
            c.white_queenside == fen@.take(i as int).contains('Q'),
            c.black_kingside == fen@.take(i as int).contains('k'),
            c.black_queenside == fen@.take(i as int).contains('q'),
        decreases len - i,
    {
        let ch = fen.get_char(i);
        let ghost prev = fen@.take(i as int);
        assert(fen@.take(i + 1) =~= prev.push(ch));
        assert forall|x: char| fen@.take(i + 1).contains(x) <==> (prev.contains(x) || x == ch) by {
            let next = fen@.take(i + 1);
            if next.contains(x) {
                let k = choose|k: int| 0 <= k < next.len() && next[k] == x;
                if k < i {
                    assert(prev[k] == x);
                }
            }
            if prev.contains(x) {
                let k = choose|k: int| 0 <= k < prev.len() && prev[k] == x;
                assert(next[k] == x);
            }
            if x == ch {
                assert(next[i as int] == x);
            }
        }
        if ch == 'K' {
            c.white_kingside = true;
        } else if ch == 'Q' {
            c.white_queenside = true;
        } else if ch == 'k' {
            c.black_kingside = true;
        } else if ch == 'q' {
            c.black_queenside = true;
        }
        i += 1;
    }
    assert(fen@.take(len as int) =~= fen@);
    c
}

fn get_notation_for_en_passant(square: Option<BoardSquare>) -> (s: String)
    ensures
        s@ == en_passant_text(square),
{
    match square {
        None => {
            let mut s = String::new();
            push_char(&mut s, '-');
            assert(s@ =~= seq!['-']);
            s
        },
        Some(sq) => sq.get_notation_string(),
    }
}

fn get_en_passant_from_notation(fen: &str) -> (r: Option<BoardSquare>)
    requires
        fen@ == seq!['-'] || is_square_notation(fen@),
    ensures
        fen@ == seq!['-'] ==> r is None,
        fen@ != seq!['-'] ==> (r matches Some(sq) && sq.index() == notation_square(fen@)),
{
    if is_single(fen, '-') {
        return None;
    }
    Some(BoardSquare::from_notation(fen))
}

/// The fields of a FEN record.
pub struct FenBoardState {
    pub board: [[Option<Piece>; 8]; 8],
    pub to_move: Color,
    pub castling: Castling,
    pub en_passant: Option<BoardSquare>,
    pub halfmove_timer: u8,
    pub move_number: u8,
}

/// A FEN record that can be read: at least six space-separated fields, of which the first
/// six are a board, a side to move, castling rights, an en passant square or `-`, and two
/// numbers that fit in a byte.
pub open spec fn is_fen(fen: Seq<char>) -> bool {
    let f = split_on(fen, ' ');
    &&& f.len() >= 6
    &&& is_board_notation(f[0])
    &&& (f[1] == seq!['w'] || f[1] == seq!['b'])
    &&& (f[3] == seq!['-'] || is_square_notation(f[3]))
    &&& is_u8_text(f[4])
    &&& is_u8_text(f[5])
}

impl FenBoardState {
    /// Whether this is what the FEN record says.
    pub open spec fn read_from(self, fen: Seq<char>) -> bool {
        let f = split_on(fen, ' ');
        &&& forall|r: int, c: int| 0 <= r < 8 && 0 <= c < 8 ==> #[trigger] self.board@[r]@[c] == board_cell(f[0], r, c)
        &&& self.to_move == (if f[1] == seq!['w'] { Color::White } else { Color::Black })
        &&& self.castling == castling_from(f[2])
        &&& (f[3] == seq!['-'] ==> self.en_passant is None)
        &&& (f[3] != seq!['-'] ==> (self.en_passant matches Some(sq) && sq.index() == notation_square(f[3])))
        &&& self.halfmove_timer == digits_value(unsigned_digits(f[4]))
        &&& self.move_number == digits_value(unsigned_digits(f[5]))
    }

    /// The FEN record written for this state.
    pub open spec fn text(self) -> Seq<char> {
        board_text(self.board) + seq![' '] + to_move_text(self.to_move) + seq![' '] + castling_text(self.castling)
            + seq![' '] + en_passant_text(self.en_passant) + seq![' '] + u8_text(self.halfmove_timer) + seq![' ']
            + u8_text(self.move_number)
    }

    pub fn from_fen(fen: &str) -> (st: Self)
        requires
            is_fen(fen@),
        ensures
            st.read_from(fen@),
    {
        let fields = split_str(fen, ' ');
        let ghost f = split_on(fen@, ' ');
        assert(fields@[0]@ == f[0] && fields@[1]@ == f[1] && fields@[2]@ == f[2]);
        assert(fields@[3]@ == f[3] && fields@[4]@ == f[4] && fields@[5]@ == f[5]);
        FenBoardState {
            board: get_board_from_notation(fields[0]),
            to_move: get_to_move_from_notation(fields[1]),
            castling: get_castling_from_notation(fields[2]),
            en_passant: get_en_passant_from_notation(fields[3]),
            halfmove_timer: parse_u8(fields[4]),
            move_number: parse_u8(fields[5]),
        }
    }

    pub fn to_fen(&self) -> (s: String)
        ensures
            s@ == self.text(),
            is_fen(s@),
    {
        proof { lemma_fen_text_is_fen(*self); }
        let mut s = get_notation_for_board(self.board);
        push_char(&mut s, ' ');
        s.append(get_notation_for_to_move(self.to_move).as_str());
        push_char(&mut s, ' ');
        s.append(get_notation_for_castling(&self.castling).as_str());
        push_char(&mut s, ' ');
        s.append(get_notation_for_en_passant(self.en_passant).as_str());
        push_char(&mut s, ' ');
        s.append(u8_to_text(self.halfmove_timer).as_str());
        push_char(&mut s, ' ');
        s.append(u8_to_text(self.move_number).as_str());
        assert(s@ =~= self.text());
        s
    }
}

// ---------------------------------------------------------------------------
// Splitting joined texts
// ---------------------------------------------------------------------------

/// A text without the separator splits into itself.
pub proof fn lemma_split_single(a: Seq<char>, sep: char)
    requires
        !a.contains(sep),
    ensures
        split_on(a, sep) == seq![a],
    decreases a.len(),
{
    if a.len() == 0 {
        assert(a =~= Seq::<char>::empty());
        assert(split_on(a, sep) =~= seq![a]);
    } else {
        let p = a.drop_last();
        assert(!p.contains(sep)) by {
            if p.contains(sep) {
                let k = choose|k: int| 0 <= k < p.len() && p[k] == sep;
                assert(a[k] == sep);
            }
        }
        lemma_split_single(p, sep);
        assert(a.last() != sep) by {
            assert(a[a.len() - 1] == a.last());
        }
        assert(p.push(a.last()) =~= a);
        let rest = split_on(a.drop_last(), sep);
        assert(rest == seq![p]);
        assert(split_on(a, sep) == rest.update(rest.len() - 1, rest.last().push(a.last())));
        assert(rest.update(rest.len() - 1, rest.last().push(a.last())) =~= seq![a]);
    }
}

/// A text without the separator, the separator and another text split into the first text
/// followed by the parts of the other.
pub proof fn lemma_split_join(a: Seq<char>, b: Seq<char>, sep: char)
    requires
        !a.contains(sep),
    ensures
        split_on(a + seq![sep] + b, sep) == seq![a] + split_on(b, sep),
    decreases b.len(),
{
    let whole = a + seq![sep] + b;
    if b.len() == 0 {
        lemma_split_single(a, sep);
        assert(whole =~= a.push(sep));
        assert(whole.drop_last() =~= a);
        assert(split_on(whole, sep) =~= seq![a] + split_on(b, sep));
    } else {
        lemma_split_join(a, b.drop_last(), sep);
        assert(whole.drop_last() =~= a + seq![sep] + b.drop_last());
        assert(whole.last() == b.last());
        lemma_split_nonempty(b.drop_last(), sep);
        let rest = split_on(b.drop_last(), sep);
        if b.last() == sep {
            assert(split_on(whole, sep) =~= (seq![a] + rest).push(seq![]));
            assert((seq![a] + rest).push(seq![]) =~= seq![a] + rest.push(seq![]));
        } else {
            let r2 = seq![a] + rest;
            assert(r2.update(r2.len() - 1, r2.last().push(b.last())) =~= seq![a] + rest.update(rest.len() - 1, rest.last().push(b.last())));
        }
    }
}

/// Parts written one after the other with a separator between each two.
pub open spec fn joined(parts: Seq<Seq<char>>, sep: char) -> Seq<char>
    decreases parts.len(),
{
    if parts.len() == 0 {
        seq![]
    } else if parts.len() == 1 {
        parts[0]
    } else {
        parts[0] + seq![sep] + joined(parts.subrange(1, parts.len() as int), sep)
    }
}

/// Parts without the separator, joined by it, split back into the parts.
pub proof fn lemma_split_joined(parts: Seq<Seq<char>>, sep: char)
    requires
        parts.len() >= 1,
        forall|i: int| 0 <= i < parts.len() ==> !(#[trigger] parts[i]).contains(sep),
    ensures
        split_on(joined(parts, sep), sep) == parts,
    decreases parts.len(),
{
    if parts.len() == 1 {
        lemma_split_single(parts[0], sep);
        assert(seq![parts[0]] =~= parts);
    } else {
        let rest = parts.subrange(1, parts.len() as int);
        assert forall|i: int| 0 <= i < rest.len() implies !(#[trigger] rest[i]).contains(sep) by {
            assert(rest[i] == parts[i + 1]);
        }
        lemma_split_joined(rest, sep);
        lemma_split_join(parts[0], joined(rest, sep), sep);
        assert(seq![parts[0]] + rest =~= parts);
    }
}

/// The position at the start of a game is a FEN record that can be read.
pub proof fn lemma_starting_position_is_fen()
    ensures
        is_fen(STARTING_POSITION@),
{
    reveal_strlit("rnbqkbnr/pppppppp/8/8/8/8/PPPPPPPP/RNBQKBNR w KQkq - 0 1");
    let r0 = seq!['r', 'n', 'b', 'q', 'k', 'b', 'n', 'r'];
    let r1 = seq!['p', 'p', 'p', 'p', 'p', 'p', 'p', 'p'];
    let r2 = seq!['8'];
    let r6 = seq!['P', 'P', 'P', 'P', 'P', 'P', 'P', 'P'];
    let r7 = seq!['R', 'N', 'B', 'Q', 'K', 'B', 'N', 'R'];
    let rows = seq![r0, r1, r2, r2, r2, r2, r6, r7];
    let board = joined(rows, '/');
    let fields = seq![board, seq!['w'], seq!['K', 'Q', 'k', 'q'], seq!['-'], seq!['0'], seq!['1']];
    reveal_with_fuel(joined, 9);
    assert(board =~= r0 + seq!['/'] + r1 + seq!['/'] + r2 + seq!['/'] + r2 + seq!['/'] + r2 + seq!['/'] + r2 + seq!['/']
        + r6 + seq!['/'] + r7);
    assert(STARTING_POSITION@ =~= joined(fields, ' '));
    assert forall|i: int| 0 <= i < rows.len() implies !(#[trigger] rows[i]).contains('/') by {
        let r = rows[i];
        if r.contains('/') {
            let k = choose|k: int| 0 <= k < r.len() && r[k] == '/';
        }
    }
    lemma_split_joined(rows, '/');
    assert forall|i: int| 0 <= i < fields.len() implies !(#[trigger] fields[i]).contains(' ') by {
        let f = fields[i];
        if f.contains(' ') {
            let k = choose|k: int| 0 <= k < f.len() && f[k] == ' ';
            if i == 0 {
                assert(board[k] == ' ');
            }
        }
    }
    lemma_split_joined(fields, ' ');
    reveal_with_fuel(row_cells, 9);
    assert(row_cells(r0).len() == 8);
    assert(row_cells(r1).len() == 8);
    assert(row_cells(r2).len() == 8);
    assert(row_cells(r6).len() == 8);
    assert(row_cells(r7).len() == 8);
    assert forall|r: int| 0 <= r < rows.len() implies is_row_notation(#[trigger] rows[r]) by {}
    assert(seq!['0'].drop_last() =~= Seq::<char>::empty());
    assert(seq!['1'].drop_last() =~= Seq::<char>::empty());
    assert(digits_value(Seq::<char>::empty()) == 0);
    assert(digit_of('0') == 0);
    assert(digits_value(seq!['0']) == 0);
    assert(digits_value(seq!['1']) == 1);
    assert(unsigned_digits(seq!['0']) == seq!['0']);
    assert(unsigned_digits(seq!['1']) == seq!['1']);
    assert(is_u8_text(fields[4]));
    assert(is_u8_text(fields[5]));
    assert(is_board_notation(fields[0]));
}

/// The piece a board of rows puts on a square: rows are counted from the top, squares from a1.
pub open spec fn fen_cell(board: [[Option<Piece>; 8]; 8], s: int) -> Option<Piece> {
    board@[7 - s / 8]@[s % 8]
}

/// The pieces of a board of rows on the squares below `n`, in the order of the squares.
pub open spec fn fen_pieces(board: [[Option<Piece>; 8]; 8], n: int) -> Seq<(u8, Piece)>
    decreases n,
{
    if n <= 0 {
        seq![]
    } else {
        fen_pieces(board, n - 1) + match fen_cell(board, n - 1) {
            Some(p) => seq![((n - 1) as u8, p)],
            None => seq![],
        }
    }
}

// ---------------------------------------------------------------------------
// Writing and reading back
// ---------------------------------------------------------------------------

/// Reading two notations one after the other reads the first, then the second.
proof fn lemma_row_cells_append(a: Seq<char>, b: Seq<char>)
    ensures
        row_cells(a + b) == row_cells(a) + row_cells(b),
    decreases b.len(),
{
    if b.len() == 0 {
        assert(a + b =~= a);
        assert(row_cells(a) + row_cells(b) =~= row_cells(a));
    } else {
        lemma_row_cells_append(a, b.drop_last());
        assert((a + b).drop_last() =~= a + b.drop_last());
        assert((a + b).last() == b.last());
        let tail = match char_piece(b.last()) {
            Some(p) => seq![Some(p)],
            None => Seq::new(digit_of(b.last()), |i: int| None::<Piece>),
        };
        assert(row_cells(a) + row_cells(b.drop_last()) + tail =~= row_cells(a) + (row_cells(b.drop_last()) + tail));
    }
}

/// A digit written for a count below ten reads back as that count.
proof fn lemma_digit_roundtrip(e: int)
    requires
        0 <= e <= 9,
    ensures
        digit_of(digit_char(e)) == e,
        is_digit(digit_char(e)),
        char_piece(digit_char(e)) is None,
{
}

/// A piece's letter names that piece.
proof fn lemma_piece_char_roundtrip(p: Piece)
    ensures
        char_piece(piece_char(p)) == Some(p),
        !is_digit(piece_char(p)),
        piece_char(p) != '/',
        piece_char(p) != ' ',
{
}

/// The notation of a row from its `i`-th square on, with `empty` empty squares before, reads
/// back as those empty squares and the rest of the row, and is written with piece letters
/// and digits only.
proof fn lemma_row_text_from(cells: Seq<Option<Piece>>, i: int, empty: nat)
    requires
        0 <= i <= cells.len(),
        empty + cells.len() - i <= 9,
    ensures
        row_cells(row_text_from(cells, i, empty)) == Seq::new(empty, |k: int| None::<Piece>) + cells.subrange(i, cells.len() as int),
        forall|k: int| 0 <= k < row_text_from(cells, i, empty).len() ==> (char_piece(#[trigger] row_text_from(cells, i, empty)[k]) is Some
            || is_digit(row_text_from(cells, i, empty)[k])),
    decreases cells.len() - i,
{
    let t = row_text_from(cells, i, empty);
    let digits: Seq<char> = if empty > 0 { seq![digit_char(empty as int)] } else { seq![] };
    if empty > 0 {
        lemma_digit_roundtrip(empty as int);
        assert(row_cells(digits) =~= row_cells(seq![]) + Seq::new(empty, |k: int| None::<Piece>)) by {
            assert(digits.drop_last() =~= Seq::<char>::empty());
        }
    }
    assert(row_cells(digits) =~= Seq::new(empty, |k: int| None::<Piece>));
    if i >= cells.len() {
        assert(t == digits);
        assert(cells.subrange(i, cells.len() as int) =~= Seq::<Option<Piece>>::empty());
        assert(Seq::new(empty, |k: int| None::<Piece>) + cells.subrange(i, cells.len() as int) =~= Seq::new(empty, |k: int| None::<Piece>));
    } else {
        match cells[i] {
            None => {
                lemma_row_text_from(cells, i + 1, empty + 1);
                assert(Seq::new((empty + 1) as nat, |k: int| None::<Piece>) + cells.subrange(i + 1, cells.len() as int)
                    =~= Seq::new(empty, |k: int| None::<Piece>) + cells.subrange(i, cells.len() as int));
            },
            Some(p) => {
                lemma_row_text_from(cells, i + 1, 0);
                lemma_piece_char_roundtrip(p);
                let rest = row_text_from(cells, i + 1, 0);
                assert(t == digits + seq![piece_char(p)] + rest);
                lemma_row_cells_append(digits + seq![piece_char(p)], rest);
                lemma_row_cells_append(digits, seq![piece_char(p)]);
                assert(row_cells(seq![piece_char(p)]) =~= seq![Some(p)]) by {
                    assert(seq![piece_char(p)].drop_last() =~= Seq::<char>::empty());
                }
                assert(Seq::new(0nat, |k: int| None::<Piece>) + cells.subrange(i + 1, cells.len() as int) =~= cells.subrange(i + 1, cells.len() as int));
                assert(Seq::new(empty, |k: int| None::<Piece>) + seq![Some(p)] + cells.subrange(i + 1, cells.len() as int)
                    =~= Seq::new(empty, |k: int| None::<Piece>) + cells.subrange(i, cells.len() as int));
                assert forall|k: int| 0 <= k < t.len() implies (char_piece(#[trigger] t[k]) is Some || is_digit(t[k])) by {
                    if k < digits.len() {
                        assert(t[k] == digits[k]);
                    } else if k == digits.len() {
                        assert(t[k] == piece_char(p));
                    } else {
                        assert(t[k] == rest[k - digits.len() - 1]);
                    }
                }
            },
        }
    }
}

/// A row of eight squares is written as a row's notation that reads back as the row.
pub proof fn lemma_row_text(cells: Seq<Option<Piece>>)
    requires
        cells.len() == 8,
    ensures
        is_row_notation(row_text(cells)),
        row_cells(row_text(cells)) == cells,
        !row_text(cells).contains('/'),
        !row_text(cells).contains(' '),
{
    lemma_row_text_from(cells, 0, 0);
    assert(Seq::new(0nat, |k: int| None::<Piece>) + cells.subrange(0, 8) =~= cells);
    let t = row_text(cells);
    if t.contains('/') {
        let k = choose|k: int| 0 <= k < t.len() && t[k] == '/';
        assert(char_piece(t[k]) is Some || is_digit(t[k]));
    }
    if t.contains(' ') {
        let k = choose|k: int| 0 <= k < t.len() && t[k] == ' ';
        assert(char_piece(t[k]) is Some || is_digit(t[k]));
    }
}

/// Joining one more part adds a separator and the part at the end.
proof fn lemma_joined_push(parts: Seq<Seq<char>>, x: Seq<char>, sep: char)
    requires
        parts.len() >= 1,
    ensures
        joined(parts.push(x), sep) == joined(parts, sep) + seq![sep] + x,
    decreases parts.len(),
{
    if parts.len() == 1 {
        let two = parts.push(x);
        assert(two.subrange(1, two.len() as int) =~= seq![x]);
        assert(joined(seq![x], sep) == x);
    } else {
        let rest = parts.subrange(1, parts.len() as int);
        lemma_joined_push(rest, x, sep);
        let longer = parts.push(x);
        assert(longer.subrange(1, longer.len() as int) =~= rest.push(x));
        assert(longer[0] == parts[0]);
    }
}

/// The notations of rows, separated by slashes, are the row texts joined by slashes.
proof fn lemma_join_rows(rows: Seq<Seq<Option<Piece>>>)
    requires
        rows.len() >= 1,
    ensures
        join_rows(rows) == joined(rows.map_values(|r: Seq<Option<Piece>>| row_text(r)), '/'),
    decreases rows.len(),
{
    let texts = rows.map_values(|r: Seq<Option<Piece>>| row_text(r));
    if rows.len() == 1 {
        assert(joined(texts, '/') == texts[0]);
    } else {
        lemma_join_rows(rows.drop_last());
        let front = rows.drop_last().map_values(|r: Seq<Option<Piece>>| row_text(r));
        lemma_joined_push(front, row_text(rows.last()), '/');
        assert(front.push(row_text(rows.last())) =~= texts);
    }
}

/// Parts joined by a separator hold a character other than the separator only if a part does.
proof fn lemma_joined_lacks(parts: Seq<Seq<char>>, sep: char, c: char)
    requires
        c != sep,
        forall|i: int| 0 <= i < parts.len() ==> !(#[trigger] parts[i]).contains(c),
    ensures
        !joined(parts, sep).contains(c),
    decreases parts.len(),
{
    if parts.len() > 1 {
        let rest = parts.subrange(1, parts.len() as int);
        assert forall|i: int| 0 <= i < rest.len() implies !(#[trigger] rest[i]).contains(c) by {
            assert(rest[i] == parts[i + 1]);
        }
        lemma_joined_lacks(rest, sep, c);
        let j = joined(parts, sep);
        let a = parts[0];
        let b = joined(rest, sep);
        assert(j == a + seq![sep] + b);
        if j.contains(c) {
            let k = choose|k: int| 0 <= k < j.len() && j[k] == c;
            if k < a.len() {
                assert(a[k] == c);
                assert(a.contains(c));
            } else if k == a.len() {
                assert(j[k] == sep);
            } else {
                assert(b[k - a.len() - 1] == c);
                assert(b.contains(c));
            }
        }
    } else if parts.len() == 1 {
        assert(!parts[0].contains(c));
    }
}

/// A board is written as a board's notation that reads back as the board, without spaces.
pub proof fn lemma_board_text(board: [[Option<Piece>; 8]; 8])
    ensures
        is_board_notation(board_text(board)),
        forall|r: int, c: int| 0 <= r < 8 && 0 <= c < 8 ==> #[trigger] board_cell(board_text(board), r, c) == board@[r]@[c],
        !board_text(board).contains(' '),
{
    let rows = rows_of(board);
    let texts = rows.map_values(|r: Seq<Option<Piece>>| row_text(r));
    assert(rows.len() == 8);
    assert forall|i: int| 0 <= i < 8 implies #[trigger] rows[i].len() == 8 by {
        assert(rows[i] == board@[i]@);
    }
    assert forall|i: int| 0 <= i < texts.len() implies {
        &&& is_row_notation(#[trigger] texts[i])
        &&& row_cells(texts[i]) == rows[i]
        &&& !texts[i].contains('/')
        &&& !texts[i].contains(' ')
    } by {
        assert(rows[i].len() == 8);
        lemma_row_text(rows[i]);
    }
    lemma_join_rows(rows);
    lemma_split_joined(texts, '/');
    lemma_joined_lacks(texts, '/', ' ');
    assert forall|r: int, c: int| 0 <= r < 8 && 0 <= c < 8 implies #[trigger] board_cell(board_text(board), r, c) == board@[r]@[c] by {
        assert(split_on(board_text(board), '/')[r] == texts[r]);
        assert(row_cells(texts[r]) == rows[r]);
        assert(rows[r] == board@[r]@);
    }
}

/// A byte is written as a number that reads back as the byte, without spaces.
pub proof fn lemma_u8_text(n: u8)
    ensures
        is_u8_text(u8_text(n)),
        digits_value(unsigned_digits(u8_text(n))) == n,
        !u8_text(n).contains(' '),
{
    let t = u8_text(n);
    let a = n as int / 100;
    let b = (n as int / 10) % 10;
    let c = n as int % 10;
    lemma_digit_roundtrip(c);
    if n < 100 {
        lemma_digit_roundtrip(n as int / 10);
    }
    lemma_digit_roundtrip(a);
    lemma_digit_roundtrip(b);
    assert(t[0] != '+');
    assert(unsigned_digits(t) == t);
    reveal_with_fuel(digits_value, 4);
    if n < 10 {
        assert(t.drop_last() =~= Seq::<char>::empty());
    } else if n < 100 {
        assert(t.drop_last() =~= seq![digit_char(n as int / 10)]);
        assert(t.drop_last().drop_last() =~= Seq::<char>::empty());
    } else {
        assert(t.drop_last() =~= seq![digit_char(a), digit_char(b)]);
        assert(t.drop_last().drop_last() =~= seq![digit_char(a)]);
        assert(t.drop_last().drop_last().drop_last() =~= Seq::<char>::empty());
    }
    if t.contains(' ') {
        let k = choose|k: int| 0 <= k < t.len() && t[k] == ' ';
        assert(is_digit(t[k]));
    }
}

/// The castling field reads back as the rights written, but for the black queenside right,
/// which reads back as the black kingside one.
pub proof fn lemma_castling_text(c: Castling)
    ensures
        castling_from(castling_text(c)) == (Castling { black_queenside: c.black_kingside, ..c }),
        !castling_text(c).contains(' '),
{
    let t = castling_text(c);
    let letters = (if c.white_kingside { seq!['K'] } else { seq![] })
        + (if c.white_queenside { seq!['Q'] } else { seq![] })
        + (if c.black_kingside { seq!['k'] } else { seq![] })
        + (if c.black_kingside { seq!['q'] } else { seq![] });
    assert forall|x: char| letters.contains(x) <==> ((x == 'K' && c.white_kingside) || (x == 'Q' && c.white_queenside)
        || ((x == 'k' || x == 'q') && c.black_kingside)) by {
        let p1: Seq<char> = if c.white_kingside { seq!['K'] } else { seq![] };
        let p2: Seq<char> = if c.white_queenside { seq!['Q'] } else { seq![] };
        let p3: Seq<char> = if c.black_kingside { seq!['k'] } else { seq![] };
        let p4: Seq<char> = if c.black_kingside { seq!['q'] } else { seq![] };
        assert(letters == p1 + p2 + p3 + p4);
        if letters.contains(x) {
            let k = choose|k: int| 0 <= k < letters.len() && letters[k] == x;
            if k < p1.len() {
                assert(letters[k] == p1[k]);
            } else if k < p1.len() + p2.len() {
                assert(letters[k] == p2[k - p1.len()]);
            } else if k < p1.len() + p2.len() + p3.len() {
                assert(letters[k] == p3[k - p1.len() - p2.len()]);
            } else {
                assert(letters[k] == p4[k - p1.len() - p2.len() - p3.len()]);
            }
        }
        if x == 'K' && c.white_kingside {
            assert(letters[0] == 'K');
        }
        if x == 'Q' && c.white_queenside {
            assert(letters[p1.len() as int] == 'Q');
        }
        if x == 'k' && c.black_kingside {
            assert(letters[(p1.len() + p2.len()) as int] == 'k');
        }
        if x == 'q' && c.black_kingside {
            assert(letters[(p1.len() + p2.len() + 1) as int] == 'q');
        }
    }
    if letters.len() == 0 {
        assert(!c.white_kingside && !c.white_queenside && !c.black_kingside);
        assert(t == seq!['-']);
    } else {
        assert(t == letters);
        assert(t != seq!['-']) by {
            if t == seq!['-'] {
                assert(letters.contains('-')) by {
                    assert(letters[0] == '-');
                }
            }
        }
    }
}

/// The en passant field reads back as the square written, or as none.
pub proof fn lemma_en_passant_text(e: Option<BoardSquare>)
    ensures
        (en_passant_text(e) == seq!['-']) == (e is None),
        e matches Some(sq) ==> is_square_notation(en_passant_text(e)) && notation_square(en_passant_text(e)) == sq.index(),
        !en_passant_text(e).contains(' '),
{
    match e {
        None => {
            if en_passant_text(e).contains(' ') {
                let k = choose|k: int| 0 <= k < en_passant_text(e).len() && en_passant_text(e)[k] == ' ';
            }
        },
        Some(sq) => {
            assert(0 <= sq.index() < 64);
            crate::rules::board::squares::lemma_notation_roundtrip(sq.index());
            let t = en_passant_text(e);
            assert(t.len() == 2);
            if t.contains(' ') {
                let k = choose|k: int| 0 <= k < t.len() && t[k] == ' ';
                assert(k == 0 || k == 1);
            }
        },
    }
}

/// The fields of a written FEN record: the board, the side to move, the castling rights, the
/// en passant square and the two counters.
pub open spec fn fen_fields(st: FenBoardState) -> Seq<Seq<char>> {
    seq![board_text(st.board), to_move_text(st.to_move), castling_text(st.castling), en_passant_text(st.en_passant),
        u8_text(st.halfmove_timer), u8_text(st.move_number)]
}

/// A written FEN record splits at its spaces into its fields.
proof fn lemma_fen_fields(st: FenBoardState)
    ensures
        split_on(st.text(), ' ') == fen_fields(st),
{
    let f = fen_fields(st);
    let f1 = seq![board_text(st.board)];
    let f2 = f1.push(to_move_text(st.to_move));
    let f3 = f2.push(castling_text(st.castling));
    let f4 = f3.push(en_passant_text(st.en_passant));
    let f5 = f4.push(u8_text(st.halfmove_timer));
    let f6 = f5.push(u8_text(st.move_number));
    assert(f6 =~= f);
    assert(joined(f1, ' ') == board_text(st.board));
    lemma_joined_push(f1, to_move_text(st.to_move), ' ');
    lemma_joined_push(f2, castling_text(st.castling), ' ');
    lemma_joined_push(f3, en_passant_text(st.en_passant), ' ');
    lemma_joined_push(f4, u8_text(st.halfmove_timer), ' ');
    lemma_joined_push(f5, u8_text(st.move_number), ' ');
    assert(st.text() =~= joined(f, ' '));
    lemma_board_text(st.board);
    lemma_castling_text(st.castling);
    lemma_en_passant_text(st.en_passant);
    lemma_u8_text(st.halfmove_timer);
    lemma_u8_text(st.move_number);
    assert(!to_move_text(st.to_move).contains(' ')) by {
        let t = to_move_text(st.to_move);
        if t.contains(' ') {
            let k = choose|k: int| 0 <= k < t.len() && t[k] == ' ';
        }
    }
    assert forall|i: int| 0 <= i < f.len() implies !(#[trigger] f[i]).contains(' ') by {
        assert(i == 0 || i == 1 || i == 2 || i == 3 || i == 4 || i == 5);
    }
    lemma_split_joined(f, ' ');
}

/// The FEN record written for any state can be read.
pub proof fn lemma_fen_text_is_fen(st: FenBoardState)
    ensures
        is_fen(st.text()),
{
    lemma_fen_fields(st);
    lemma_board_text(st.board);
    lemma_en_passant_text(st.en_passant);
    lemma_u8_text(st.halfmove_timer);
    lemma_u8_text(st.move_number);
}

/// Reading the FEN record written for a state gives back the state's fields, but for the
/// black queenside castling right: the record writes both black castling letters for the
/// black kingside right, so that right is what is read for both.
pub proof fn lemma_fen_text_reads_back(st: FenBoardState, read: FenBoardState)
    requires
        read.read_from(st.text()),
    ensures
        forall|r: int, c: int| 0 <= r < 8 && 0 <= c < 8 ==> #[trigger] read.board@[r]@[c] == st.board@[r]@[c],
        read.to_move == st.to_move,
        read.castling == (Castling { black_queenside: st.castling.black_kingside, ..st.castling }),
        read.en_passant is None <==> st.en_passant is None,
        st.en_passant matches Some(a) ==> (read.en_passant matches Some(b) && b.index() == a.index()),
        read.halfmove_timer == st.halfmove_timer,
        read.move_number == st.move_number,
{
    lemma_fen_fields(st);
    lemma_board_text(st.board);
    lemma_castling_text(st.castling);
    lemma_en_passant_text(st.en_passant);
    lemma_u8_text(st.halfmove_timer);
    lemma_u8_text(st.move_number);
    let f = fen_fields(st);
    assert(f[1] == to_move_text(st.to_move));
    assert(to_move_text(st.to_move) != seq!['w'] ==> st.to_move == Color::Black);
    assert(st.to_move == Color::Black ==> to_move_text(st.to_move) != seq!['w']) by {
        if st.to_move == Color::Black {
            assert(to_move_text(st.to_move)[0] == 'b');
        }
    }
}

} // verus!
