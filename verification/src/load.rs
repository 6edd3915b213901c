//! Reading a grid of characters into a board, and the checks that a grid
//! has to pass before it is searched.

use vstd::prelude::*;
use iter_tools::Itertools;
use crate::symbol::{Color, Symbol};
use crate::model::BoardModel;
use crate::board::Board;

verus! {

/// Why a grid of characters is not a puzzle.
#[derive(Debug, Clone, Copy, PartialEq, Eq, Structural)]
pub enum LoadError {
    /// The grid has no row.
    NoInput,
    /// The row is not as long as the first.
    UnevenRow { row: usize },
    /// The character names no symbol.
    InvalidSymbol { symbol: char },
    /// The colour has one endpoint, or more than two.
    EndpointCount { color: Color, found: usize },
    /// A side of the grid is longer than a position can say.
    TooLarge,
}

/// The character at `c` is the first of the row that names no symbol.
pub open spec fn first_invalid(row: Seq<char>, c: int) -> bool {
    &&& 0 <= c < row.len()
    &&& Symbol::of_char(row[c]) is None
    &&& forall|j: int| 0 <= j < c ==> Symbol::of_char(#[trigger] row[j]) is Some
}

/// What is wrong with row `r`, if anything: its length is looked at before
/// its characters.
pub open spec fn row_fault(rows: Seq<Vec<char>>, r: int) -> Option<LoadError> {
    if rows[r]@.len() != rows[0]@.len() {
        Some(LoadError::UnevenRow { row: r as usize })
    } else if exists|c: int| first_invalid(rows[r]@, c) {
        Some(LoadError::InvalidSymbol { symbol: rows[r]@[choose|c: int| first_invalid(rows[r]@, c)] })
    } else {
        None
    }
}

/// Row `r` is the first with something wrong.
pub open spec fn first_fault(rows: Seq<Vec<char>>, r: int) -> bool {
    &&& 0 <= r < rows.len()
    &&& row_fault(rows, r) is Some
    &&& forall|j: int| 0 <= j < r ==> (#[trigger] row_fault(rows, j)) is None
}

/// The symbols that the characters of a faultless grid name, row by row.
pub open spec fn grid_symbols(rows: Seq<Vec<char>>) -> Seq<Symbol> {
    Seq::new(
        rows[0]@.len() * rows.len(),
        |i: int| Symbol::of_char(rows[i / (rows[0]@.len() as int)]@[i % (rows[0]@.len() as int)])->0,
    )
}

/// What reading the rows gives: the fault of the first faulty row, or the
/// symbols.
pub open spec fn read_verdict(rows: Seq<Vec<char>>) -> Result<Seq<Symbol>, LoadError> {
    if rows.len() == 0 {
        Err(LoadError::NoInput)
    } else if exists|b: int| first_fault(rows, b) {
        Err(row_fault(rows, choose|b: int| first_fault(rows, b))->0)
    } else {
        Ok(grid_symbols(rows))
    }
}

/// How often `s` occurs among `cells`.
pub open spec fn occurrences(cells: Seq<Symbol>, s: Symbol) -> nat {
    cells.filter(|x: Symbol| x == s).len()
}

/// The colour has a number of endpoints that is neither none nor two.
pub open spec fn endpoint_fault(cells: Seq<Symbol>, c: Color) -> bool {
    occurrences(cells, Symbol::endpoint_of(c)) != 0 && occurrences(cells, Symbol::endpoint_of(c))
        != 2
}

/// What the endpoint check answers: the first colour, in solving order,
/// with a wrong number of endpoints, and that number.
pub open spec fn endpoint_verdict(cells: Seq<Symbol>) -> Result<(), LoadError> {
    if endpoint_fault(cells, Color::Red) {
        Err(
            LoadError::EndpointCount {
                color: Color::Red,
                found: occurrences(cells, Symbol::REnd) as usize,
            },
        )
    } else if endpoint_fault(cells, Color::Green) {
        Err(
            LoadError::EndpointCount {
                color: Color::Green,
                found: occurrences(cells, Symbol::GEnd) as usize,
            },
        )
    } else if endpoint_fault(cells, Color::Blue) {
        Err(
            LoadError::EndpointCount {
                color: Color::Blue,
                found: occurrences(cells, Symbol::BEnd) as usize,
            },
        )
    } else {
        Ok(())
    }
}

/// Reads the rows of a grid, one character per cell, into symbols row by
/// row. The first row with a fault decides the error.
pub fn read_symbols(rows: &Vec<Vec<char>>) -> (r: Result<Vec<Symbol>, LoadError>)
    ensures
        match r {
            Ok(cells) => read_verdict(rows@) == Ok::<Seq<Symbol>, LoadError>(cells@),
            Err(e) => read_verdict(rows@) == Err::<Seq<Symbol>, LoadError>(e),
        },
{
    if rows.len() == 0 {
        return Err(LoadError::NoInput);
    }
    let length = rows[0].len();
    let mut board: Vec<Symbol> = Vec::new();
    let mut r: usize = 0;
    while r < rows.len()
        invariant
            r <= rows@.len(),
            rows@.len() > 0,
            length == rows@[0]@.len(),
            board@.len() == length * r,
            forall|j: int| 0 <= j < r ==> (#[trigger] row_fault(rows@, j)) is None,
            forall|a: int, c: int|
                0 <= a < r && 0 <= c < length ==> Symbol::of_char(#[trigger] rows@[a]@[c]) == Some(
                    board@[a * length + c],
                ),
        decreases rows@.len() - r,
    {
        let line = &rows[r];
        if line.len() != length {
            proof {
                lemma_fault_decides(rows@, r as int);
            }
            return Err(LoadError::UnevenRow { row: r });
        }
        let ghost before = board@;
        let mut c: usize = 0;
        while c < length
            invariant
                c <= length,
                r < rows@.len(),
                line@ == rows@[r as int]@,
                line@.len() == length,
                length == rows@[0]@.len(),
                before.len() == length * r,
                board@.len() == length * r + c,
                forall|j: int| 0 <= j < r ==> (#[trigger] row_fault(rows@, j)) is None,
                forall|i: int| 0 <= i < before.len() ==> board@[i] == before[i],
                forall|j: int|
                    0 <= j < c ==> Symbol::of_char(#[trigger] line@[j]) == Some(
                        board@[length * r + j],
                    ),
            decreases length - c,
        {
            match Symbol::from_char(line[c]) {
                Some(s) => {
                    board.push(s);
                },
                None => {
                    proof {
                        assert(first_invalid(rows@[r as int]@, c as int));
                        let w = choose|w: int| first_invalid(rows@[r as int]@, w);
                        assert(w == c) by {
                            if w < c {
                                assert(Symbol::of_char(line@[w]) is Some);
                            }
                        }
                        lemma_fault_decides(rows@, r as int);
                    }
                    return Err(LoadError::InvalidSymbol { symbol: line[c] });
                },
            }
            c += 1;
        }
        proof {
            assert(row_fault(rows@, r as int) is None) by {
                if exists|w: int| first_invalid(rows@[r as int]@, w) {
                    let w = choose|w: int| first_invalid(rows@[r as int]@, w);
                    assert(Symbol::of_char(line@[w]) is Some);
                }
            }
            assert(length * r + length == length * (r + 1)) by (nonlinear_arith);
            assert forall|a: int, c: int| 0 <= a < r + 1 && 0 <= c < length implies Symbol::of_char(
                #[trigger] rows@[a]@[c],
            ) == Some(board@[a * length + c]) by {
                if a < r {
                    assert(0 <= a * length + c < length * r) by (nonlinear_arith)
                        requires
                            0 <= a < r,
                            0 <= c < length,
                    ;
                    assert(board@[a * length + c] == before[a * length + c]);
                } else {
                    assert(a * length == length * r) by (nonlinear_arith)
                        requires
                            a == r,
                    ;
                    assert(Symbol::of_char(line@[c]) == Some(board@[length * r + c]));
                }
            }
        }
        r += 1;
    }
    proof {
        assert forall|b: int| !first_fault(rows@, b) by {
            if first_fault(rows@, b) {
                assert(row_fault(rows@, b) is None);
            }
        }
        let cells = grid_symbols(rows@);
        let w = length as int;
        assert forall|i: int| 0 <= i < board@.len() implies board@[i] == cells[i] by {
            assert(w > 0) by (nonlinear_arith)
                requires
                    0 <= i < w * rows@.len(),
                    w >= 0,
            ;
            vstd::arithmetic::div_mod::lemma_fundamental_div_mod(i, w);
            vstd::arithmetic::div_mod::lemma_mod_bound(i, w);
            assert(0 <= i / w < rows@.len()) by (nonlinear_arith)
                requires
                    0 <= i < w * rows@.len(),
                    w > 0,
                    i == w * (i / w) + i % w,
                    0 <= i % w < w,
            ;
            assert((i / w) * w == w * (i / w)) by (nonlinear_arith);
            assert(Symbol::of_char(rows@[i / w]@[i % w]) == Some(board@[(i / w) * w + i % w]));
        }
        assert(board@ =~= cells);
    }
    Ok(board)
}

/// A faulty row before which no row is faulty decides what reading gives.
proof fn lemma_fault_decides(rows: Seq<Vec<char>>, r: int)
    requires
        0 <= r < rows.len(),
        row_fault(rows, r) is Some,
        forall|j: int| 0 <= j < r ==> (#[trigger] row_fault(rows, j)) is None,
    ensures
        read_verdict(rows) == Err::<Seq<Symbol>, LoadError>(row_fault(rows, r)->0),
{
    assert(first_fault(rows, r));
    let b = choose|b: int| first_fault(rows, b);
    if b < r {
        assert(row_fault(rows, b) is None);
    }
    if r < b {
        assert(row_fault(rows, r) is None);
    }
}

/// The symbols that occur among `cells`, each with the number of times it
/// occurs, in no particular order. This is `iter_tools::Itertools::counts`
/// on the cells; the claim made of it is what its documentation says: the
/// map it returns holds each item that appears together with how often it
/// appears, so every entry carries the true count of its symbol, and every
/// symbol that occurs has an entry. Symbols are told apart by their derived
/// `Eq` and `Hash`.
#[verifier::external_body]
fn symbol_counts(cells: &Vec<Symbol>) -> (counts: Vec<(Symbol, usize)>)
    ensures
        forall|i: int|
            0 <= i < counts@.len() ==> (#[trigger] counts@[i]).1 == occurrences(
                cells@,
                counts@[i].0,
            ),
        forall|s: Symbol|
            occurrences(cells@, s) > 0 ==> exists|i: int|
                0 <= i < counts@.len() && (#[trigger] counts@[i]).0 == s,
{
    cells.iter().counts().into_iter().map(|(s, n)| (*s, n)).collect()
}

/// How often `s` occurs among `cells`, looked up in the counts of all
/// symbols.
pub fn count_symbol(cells: &Vec<Symbol>, s: Symbol) -> (n: usize)
    ensures
        n == occurrences(cells@, s),
{
    let counts = symbol_counts(cells);
    let mut i: usize = 0;
    while i < counts.len()
        invariant
            i <= counts@.len(),
            forall|j: int| 0 <= j < i ==> (#[trigger] counts@[j]).0 != s,
            forall|j: int|
                0 <= j < counts@.len() ==> (#[trigger] counts@[j]).1 == occurrences(
                    cells@,
                    counts@[j].0,
                ),
        decreases counts@.len() - i,
    {
        if counts[i].0 == s {
            return counts[i].1;
        }
        i += 1;
    }
    proof {
        if occurrences(cells@, s) > 0 {
            let i = choose|i: int| 0 <= i < counts@.len() && (#[trigger] counts@[i]).0 == s;
            assert(counts@[i].0 != s);
        }
    }
    0
}

/// Checks that every colour has no endpoint or two. The first colour, in
/// solving order, with another number decides the error.
pub fn check_endpoints(cells: &Vec<Symbol>) -> (r: Result<(), LoadError>)
    ensures
        r == endpoint_verdict(cells@),
{
    let red = count_symbol(cells, Symbol::REnd);
    if red != 0 && red != 2 {
        return Err(LoadError::EndpointCount { color: Color::Red, found: red });
    }
    let green = count_symbol(cells, Symbol::GEnd);
    if green != 0 && green != 2 {
        return Err(LoadError::EndpointCount { color: Color::Green, found: green });
    }
    let blue = count_symbol(cells, Symbol::BEnd);
    if blue != 0 && blue != 2 {
        return Err(LoadError::EndpointCount { color: Color::Blue, found: blue });
    }
    Ok(())
}

/// What loading a grid gives: the fault of the first faulty row; else the
/// first colour with a wrong number of endpoints; else, where a side is too
/// long, that; else the board on which nothing has been placed.
pub open spec fn load_verdict(rows: Seq<Vec<char>>) -> Result<BoardModel, LoadError> {
    match read_verdict(rows) {
        Err(e) => Err(e),
        Ok(cells) => match endpoint_verdict(cells) {
            Err(e) => Err(e),
            Ok(_) => if rows[0]@.len() > i32::MAX || rows.len() > i32::MAX {
                Err(LoadError::TooLarge)
            } else {
                Ok(BoardModel::pristine(cells, rows[0]@.len(), rows.len()))
            },
        },
    }
}

/// Reads a grid of characters, one row per entry and one character per
/// cell, into a board that is ready to be searched.
pub fn load(rows: &Vec<Vec<char>>) -> (r: Result<Board, LoadError>)
    ensures
        match r {
            Ok(board) => load_verdict(rows@) == Ok::<BoardModel, LoadError>(board@) && board@.wf()
                && board@.marks_fit(0),
            Err(e) => load_verdict(rows@) == Err::<BoardModel, LoadError>(e),
        },
{
    let cells = match read_symbols(rows) {
        Ok(cells) => cells,
        Err(e) => {
            return Err(e);
        },
    };
    match check_endpoints(&cells) {
        Ok(_) => {},
        Err(e) => {
            return Err(e);
        },
    }
    let width = rows[0].len();
    let height = rows.len();
    match Board::new(cells, width, height) {
        Some(board) => Ok(board),
        None => Err(LoadError::TooLarge),
    }
}

} // verus!
