//! Cell coordinates, cell terminators and loaded cells.
use core::cmp::Ordering;
use vstd::prelude::*;
use vstd::arithmetic::div_mod::{
    lemma_div_is_ordered, lemma_fundamental_div_mod, lemma_fundamental_div_mod_converse,
    lemma_mod_add_multiples_vanish,
};
use vstd::utf8::{decode_utf8, decode_utf8_encode_utf8, encode_utf8, valid_utf8};

verus! {

/// A cell's (row, column) coordinate; ordered by row, then column.
#[derive(Clone, Copy, Debug, PartialEq, Eq, Ord, Hash, Structural)]
pub struct CellRef {
    pub row: usize,
    pub column: usize,
}

/// Strict row-major order on coordinates.
pub open spec fn ref_lt(a: CellRef, b: CellRef) -> bool {
    a.row < b.row || (a.row == b.row && a.column < b.column)
}

/// Non-strict row-major order on coordinates.
pub open spec fn ref_le(a: CellRef, b: CellRef) -> bool {
    ref_lt(a, b) || a == b
}

/// The row-major order as an `Ordering`.
pub open spec fn ref_order(a: CellRef, b: CellRef) -> Ordering {
    if ref_lt(a, b) {
        Ordering::Less
    } else if a == b {
        Ordering::Equal
    } else {
        Ordering::Greater
    }
}

impl PartialOrd for CellRef {
    fn partial_cmp(&self, other: &CellRef) -> (r: Option<Ordering>)
        ensures
            r == Some(ref_order(*self, *other)),
    {
        Some(
            if self.row < other.row || (self.row == other.row && self.column < other.column) {
                Ordering::Less
            } else if self.row == other.row && self.column == other.column {
                Ordering::Equal
            } else {
                Ordering::Greater
            },
        )
    }
}

impl vstd::std_specs::cmp::PartialOrdSpecImpl for CellRef {
    open spec fn obeys_partial_cmp_spec() -> bool {
        true
    }

    open spec fn partial_cmp_spec(&self, other: &CellRef) -> Option<Ordering> {
        Some(ref_order(*self, *other))
    }
}

pub open spec fn is_upper(b: u8) -> bool {
    65 <= b <= 90
}

pub open spec fn is_digit(b: u8) -> bool {
    48 <= b <= 57
}

/// The column accumulator after the first `n` bytes of `text`: each capital letter
/// is a base-ten digit valued by its place in the alphabet, in an eight-bit accumulator.
/// The encoding and the wrap at 256 are kept on purpose, so that existing sheets keep
/// pointing at the cells they pointed at before.
pub open spec fn parsed_column(text: Seq<u8>, n: int) -> int
    decreases n,
{
    if n <= 0 {
        0
    } else {
        let prev = parsed_column(text, n - 1);
        let b = text[n - 1];
        if is_upper(b) {
            (prev * 10 + (b - 65)) % 256
        } else {
            prev
        }
    }
}

/// The row accumulator after the first `n` bytes of `text`: each digit adds its
/// value minus one, in an eight-bit accumulator that wraps at 256 (so `A10` names
/// row 255), kept on purpose for compatibility with existing sheets.
pub open spec fn parsed_row(text: Seq<u8>, n: int) -> int
    decreases n,
{
    if n <= 0 {
        0
    } else {
        let prev = parsed_row(text, n - 1);
        let b = text[n - 1];
        if is_digit(b) {
            (prev * 10 + (b - 48) - 1) % 256
        } else {
            prev
        }
    }
}

/// The coordinate that `text` names.
pub open spec fn parse_ref(text: Seq<u8>) -> CellRef {
    CellRef {
        row: parsed_row(text, text.len() as int) as usize,
        column: parsed_column(text, text.len() as int) as usize,
    }
}

/// Every coordinate of the closed rectangle from `start` to `end`, rows outer and
/// columns inner; empty when `end` lies before `start` in either dimension.
pub open spec fn range_spec(start: CellRef, end: CellRef) -> Seq<CellRef> {
    if start.row <= end.row && start.column <= end.column {
        let width = end.column - start.column + 1;
        let height = end.row - start.row + 1;
        Seq::new(
            (width * height) as nat,
            |k: int| CellRef { row: (start.row + k / width) as usize, column: (start.column + k % width) as usize },
        )
    } else {
        Seq::empty()
    }
}

impl CellRef {
    pub fn new(row: usize, column: usize) -> (r: Self)
        ensures
            r.row == row,
            r.column == column,
    {
        CellRef { row, column }
    }

    /// Reads a coordinate from text such as `B3` or `$B$3`; bytes that are neither
    /// capital letters nor digits are skipped.
    pub fn parse(text: &[u8]) -> (r: Self)
        ensures
            r == parse_ref(text@),
    {
        let mut row: u32 = 0;
        let mut column: u32 = 0;
        let mut i: usize = 0;
        while i < text.len()
            invariant
                i <= text.len(),
                row as int == parsed_row(text@, i as int),
                column as int == parsed_column(text@, i as int),
                row < 256,
                column < 256,
            decreases text.len() - i,
        {
            let b = text[i];
            if b >= 65 && b <= 90 {
                column = (column * 10 + (b - 65) as u32) % 256;
            }
            if b >= 48 && b <= 57 {
                let prev = row;
                row = (prev * 10 + (b - 48) as u32 + 255) % 256;
                proof {
                    lemma_mod_add_multiples_vanish(prev * 10 + (b - 48) - 1, 256);
                }
            }
            i = i + 1;
        }
        CellRef { row: row as usize, column: column as usize }
    }

    /// Every coordinate of the closed rectangle from `start` to `end`, rows outer and
    /// columns inner, ascending; empty when `end` precedes `start` in either dimension.
    pub fn range(start: &CellRef, end: &CellRef) -> (cells: Vec<CellRef>)
        ensures
            cells@ == range_spec(*start, *end),
    {
        let mut cells: Vec<CellRef> = Vec::new();
        if start.row > end.row || start.column > end.column {
            return cells;
        }
        let ghost width = end.column - start.column + 1;
        let mut row: usize = start.row;
        loop
            invariant_except_break
                cells.len() == (row - start.row) * width,
            invariant
                start.row <= row <= end.row,
                start.column <= end.column,
                width == end.column - start.column + 1,
                forall|k: int|
                    0 <= k < cells.len() ==> #[trigger] cells@[k] == (CellRef {
                        row: (start.row + k / width) as usize,
                        column: (start.column + k % width) as usize,
                    }),
            ensures
                cells.len() == (end.row + 1 - start.row) * width,
                forall|k: int|
                    0 <= k < cells.len() ==> #[trigger] cells@[k] == (CellRef {
                        row: (start.row + k / width) as usize,
                        column: (start.column + k % width) as usize,
                    }),
            decreases end.row - row,
        {
            let mut column: usize = start.column;
            loop
                invariant_except_break
                    cells.len() == (row - start.row) * width + (column - start.column),
                invariant
                    start.row <= row <= end.row,
                    start.column <= column <= end.column,
                    width == end.column - start.column + 1,
                    forall|k: int|
                        0 <= k < cells.len() ==> #[trigger] cells@[k] == (CellRef {
                            row: (start.row + k / width) as usize,
                            column: (start.column + k % width) as usize,
                        }),
                ensures
                    cells.len() == (row - start.row) * width + width,
                    forall|k: int|
                        0 <= k < cells.len() ==> #[trigger] cells@[k] == (CellRef {
                            row: (start.row + k / width) as usize,
                            column: (start.column + k % width) as usize,
                        }),
                decreases end.column - column,
            {
                proof {
                    lemma_fundamental_div_mod_converse(
                        cells.len() as int,
                        width,
                        row - start.row,
                        column - start.column,
                    );
                }
                cells.push(CellRef::new(row, column));
                if column == end.column {
                    break;
                }
                column = column + 1;
            }
            assert(cells.len() == (row + 1 - start.row) * width) by (nonlinear_arith)
                requires
                    cells.len() == (row - start.row) * width + width,
            ;
            if row == end.row {
                break;
            }
            row = row + 1;
        }
        proof {
            let height = end.row - start.row + 1;
            assert(cells.len() == width * height) by (nonlinear_arith)
                requires
                    cells.len() == (end.row + 1 - start.row) * width,
                    height == end.row - start.row + 1,
            ;
            assert(cells@ =~= range_spec(*start, *end));
        }
        cells
    }
}

/// For `start` at or before `end` in the row-major order, and not to the right of it,
/// the range holds (rows + 1) × (columns + 1) coordinates, each after the one before in
/// the row-major order, so none twice; and where `start` lies strictly before `end`,
/// the range from `end` to `start` is empty.
pub proof fn lemma_range_shape(start: CellRef, end: CellRef)
    requires
        ref_le(start, end),
        start.column <= end.column,
    ensures
        range_spec(start, end).len() == (end.row - start.row + 1) * (end.column - start.column + 1),
        forall|i: int, j: int|
            0 <= i < j < range_spec(start, end).len() ==> ref_lt(
                #[trigger] range_spec(start, end)[i],
                #[trigger] range_spec(start, end)[j],
            ),
        ref_lt(start, end) ==> range_spec(end, start).len() == 0,
{
    let width = end.column - start.column + 1;
    let height = end.row - start.row + 1;
    let r = range_spec(start, end);
    assert(r.len() == width * height);
    assert forall|i: int, j: int| 0 <= i < j < r.len() implies ref_lt(#[trigger] r[i], #[trigger] r[j]) by {
        lemma_div_is_ordered(i, j, width);
        lemma_fundamental_div_mod(i, width);
        lemma_fundamental_div_mod(j, width);
        assert(j / width < height) by (nonlinear_arith)
            requires
                j < width * height,
                0 <= j,
                width > 0,
                j == width * (j / width) + j % width,
                0 <= j % width,
        ;
        if i / width == j / width {
            assert(i % width < j % width) by (nonlinear_arith)
                requires
                    i < j,
                    i == width * (i / width) + i % width,
                    j == width * (j / width) + j % width,
                    i / width == j / width,
            ;
        }
    }
}

/// What ends a cell in the input text.
#[derive(Clone, Copy, Debug, PartialEq, Eq, Structural)]
pub enum Delimiter {
    Comma,
    NewLine,
    EOF,
}

/// The bytes that a delimiter is written as.
pub open spec fn delimiter_bytes(d: Delimiter) -> Seq<u8> {
    match d {
        Delimiter::Comma => seq![44u8],
        Delimiter::NewLine => seq![10u8],
        Delimiter::EOF => Seq::empty(),
    }
}

/// One delimited unit of the input grid.
#[derive(Clone, Debug)]
pub struct Cell {
    pub position: CellRef,
    pub delimiter: Delimiter,
    pub content: String,
}

/// The UTF-8 bytes of a text.
pub open spec fn text_bytes(s: Seq<char>) -> Seq<u8> {
    encode_utf8(s)
}

impl Cell {
    /// The cell's content as bytes.
    pub open spec fn bytes(&self) -> Seq<u8> {
        text_bytes(self.content@)
    }

    /// The cell as it is written out: its content, then its delimiter.
    pub open spec fn serialized(&self) -> Seq<u8> {
        self.bytes() + delimiter_bytes(self.delimiter)
    }

    /// A cell at (`row`, `column`) holding the text that `content` encodes.
    pub fn new(content: Vec<u8>, row: usize, column: usize, delimiter: Delimiter) -> (r: Self)
        requires
            valid_utf8(content@),
        ensures
            r.position == (CellRef { row, column }),
            r.delimiter == delimiter,
            r.content@ == decode_utf8(content@),
            r.bytes() == content@,
    {
        proof {
            decode_utf8_encode_utf8(content@);
        }
        match utf8_to_string(content) {
            Some(text) => Cell { position: CellRef { row, column }, delimiter, content: text },
            None => {
                proof {
                    assert(false);
                }
                Cell { position: CellRef { row, column }, delimiter, content: String::new() }
            },
        }
    }
}

/// Cells written out one after another.
pub open spec fn serialized_cells(cells: Seq<Cell>) -> Seq<u8>
    decreases cells.len(),
{
    if cells.len() == 0 {
        Seq::empty()
    } else {
        cells[0].serialized() + serialized_cells(cells.drop_first())
    }
}

/// Relies on `String::from_utf8`: it succeeds exactly when the bytes are valid UTF-8,
/// and the string then holds the characters they encode.
#[verifier::external_body]
pub(crate) fn utf8_to_string(bytes: Vec<u8>) -> (r: Option<String>)
    ensures
        r is Some <==> valid_utf8(bytes@),
        r matches Some(s) ==> s@ == decode_utf8(bytes@),
{
    String::from_utf8(bytes).ok()
}

} // verus!
