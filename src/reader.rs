//! A single-pass tokenizer that turns comma-delimited bytes into cells.
use vstd::prelude::*;
use vstd::utf8::{
    is_char_boundary, is_continuation_byte, length_of_first_scalar, pop_first_scalar, valid_first_scalar,
    valid_leading_and_continuation_bytes_first_codepoint, valid_utf8, valid_utf8_concat, valid_utf8_split,
};
use crate::cell::{delimiter_bytes, serialized_cells, Cell, CellRef, Delimiter};

verus! {

/// A cell as the tokenizer sees it: raw content bytes, position and terminator.
pub struct RawCell {
    pub content: Seq<u8>,
    pub row: int,
    pub column: int,
    pub delimiter: Delimiter,
}

/// The cells read from `input`, starting at byte `pos` of a cell at (`row`, `column`)
/// whose content so far is `acc`, with the quote state `escaped`.
/// A double quote toggles the quote state and is dropped; a comma outside quotes ends
/// the cell; a newline always ends the cell and starts the next row; the end of the
/// input ends a final, non-empty cell.
pub open spec fn cells_from(
    input: Seq<u8>,
    pos: int,
    row: int,
    column: int,
    escaped: bool,
    acc: Seq<u8>,
) -> Seq<RawCell>
    decreases input.len() - pos,
{
    if pos >= input.len() {
        if acc.len() > 0 {
            seq![RawCell { content: acc, row, column, delimiter: Delimiter::EOF }]
        } else {
            Seq::empty()
        }
    } else {
        let b = input[pos];
        if b == 34 {
            cells_from(input, pos + 1, row, column, !escaped, acc)
        } else if b == 10 {
            seq![RawCell { content: acc, row, column, delimiter: Delimiter::NewLine }]
                + cells_from(input, pos + 1, row + 1, 0, false, Seq::empty())
        } else if b == 44 && !escaped {
            seq![RawCell { content: acc, row, column, delimiter: Delimiter::Comma }]
                + cells_from(input, pos + 1, row, column + 1, false, Seq::empty())
        } else {
            cells_from(input, pos + 1, row, column, escaped, acc.push(b))
        }
    }
}

/// Every cell of `input`, in input order.
pub open spec fn read_spec(input: Seq<u8>) -> Seq<RawCell> {
    cells_from(input, 0, 0, 0, false, Seq::empty())
}

/// `c` is the cell that `raw` describes.
pub open spec fn cell_matches(c: Cell, raw: RawCell) -> bool {
    &&& c.position.row == raw.row
    &&& c.position.column == raw.column
    &&& c.delimiter == raw.delimiter
    &&& c.bytes() == raw.content
}

/// In valid UTF-8, an ASCII byte starts a character.
proof fn lemma_ascii_boundary(bytes: Seq<u8>, k: int)
    requires
        valid_utf8(bytes),
        0 <= k < bytes.len(),
        bytes[k] < 128,
    ensures
        is_char_boundary(bytes, k),
    decreases bytes.len(),
{
    if k > 0 {
        let w = length_of_first_scalar(bytes);
        assert(valid_first_scalar(bytes));
        assert(valid_leading_and_continuation_bytes_first_codepoint(bytes));
        if k < w {
            assert(is_continuation_byte(bytes[k]));
            assert(false);
        }
        let rest = pop_first_scalar(bytes);
        assert(rest[k - w] == bytes[k]);
        lemma_ascii_boundary(rest, k - w);
    }
}

/// Valid UTF-8 cut at an ASCII byte: the parts before and after it are valid, and so
/// is the text without that byte.
proof fn lemma_cut_at_ascii(x: Seq<u8>, a: u8, y: Seq<u8>)
    requires
        valid_utf8(x + seq![a] + y),
        a < 128,
    ensures
        valid_utf8(x),
        valid_utf8(y),
        valid_utf8(x + y),
{
    let all = x + seq![a] + y;
    assert(all[x.len() as int] == a);
    lemma_ascii_boundary(all, x.len() as int);
    valid_utf8_split(all, x.len() as int);
    assert(all.subrange(0, x.len() as int) =~= x);
    let tail = all.subrange(x.len() as int, all.len() as int);
    assert(tail =~= seq![a] + y);
    if y.len() > 0 {
        assert(tail[1] == y[0]);
    }
    lemma_ascii_boundary(tail, 0);
    assert(tail[0] == a);
    assert(valid_first_scalar(tail));
    assert(length_of_first_scalar(tail) == 1);
    assert(pop_first_scalar(tail) =~= y);
    valid_utf8_concat(x, y);
}

/// Every cell read from valid UTF-8 holds valid UTF-8, given that what has been
/// gathered so far followed by the rest of the input is valid.
proof fn lemma_cells_valid(input: Seq<u8>, pos: int, row: int, column: int, escaped: bool, acc: Seq<u8>)
    requires
        0 <= pos <= input.len(),
        valid_utf8(acc + input.subrange(pos, input.len() as int)),
    ensures
        forall|i: int|
            0 <= i < cells_from(input, pos, row, column, escaped, acc).len() ==> valid_utf8(
                #[trigger] cells_from(input, pos, row, column, escaped, acc)[i].content,
            ),
    decreases input.len() - pos,
{
    let rest = input.subrange(pos, input.len() as int);
    let cs = cells_from(input, pos, row, column, escaped, acc);
    if pos == input.len() {
        assert(acc + rest =~= acc);
    } else {
        let b = input[pos];
        let tail = input.subrange(pos + 1, input.len() as int);
        assert(acc + rest =~= acc + seq![b] + tail);
        if b == 34 {
            lemma_cut_at_ascii(acc, b, tail);
            lemma_cells_valid(input, pos + 1, row, column, !escaped, acc);
        } else if b == 10 || (b == 44 && !escaped) {
            lemma_cut_at_ascii(acc, b, tail);
            assert(Seq::<u8>::empty() + tail =~= tail);
            let next_row = if b == 10 { row + 1 } else { row };
            let next_column = if b == 10 { 0 } else { column + 1 };
            lemma_cells_valid(input, pos + 1, next_row, next_column, false, Seq::empty());
            let later = cells_from(input, pos + 1, next_row, next_column, false, Seq::empty());
            assert forall|i: int| 0 <= i < cs.len() implies valid_utf8(#[trigger] cs[i].content) by {
                if i > 0 {
                    assert(cs[i] == later[i - 1]);
                }
            }
        } else {
            assert(acc.push(b) + tail =~= acc + seq![b] + tail);
            lemma_cells_valid(input, pos + 1, row, column, escaped, acc.push(b));
        }
    }
}

/// Every cell read from valid UTF-8 holds valid UTF-8.
pub proof fn lemma_valid_text_reads(input: Seq<u8>)
    requires
        valid_utf8(input),
    ensures
        forall|i: int| 0 <= i < read_spec(input).len() ==> valid_utf8(#[trigger] read_spec(input)[i].content),
{
    assert(Seq::<u8>::empty() + input.subrange(0, input.len() as int) =~= input);
    lemma_cells_valid(input, 0, 0, 0, false, Seq::empty());
}

/// Why a text could not be loaded.
#[derive(Clone, Copy, Debug, PartialEq, Eq, Structural)]
pub enum LoadError {
    /// The content of the cell at this position is not valid UTF-8.
    InvalidText(CellRef),
    /// The source is a file, which the caller reads and hands over as text.
    FileNotRead,
}

/// Reads cells one at a time from the bytes of a comma-delimited text.
pub struct CSVReader {
    input: Vec<u8>,
    pos: usize,
    row: usize,
    column: usize,
}

impl CSVReader {
    /// The cells that are still to be read.
    pub closed spec fn remaining(&self) -> Seq<RawCell> {
        cells_from(self.input@, self.pos as int, self.row as int, self.column as int, false, Seq::empty())
    }

    pub closed spec fn wf(&self) -> bool {
        &&& self.pos <= self.input.len()
        &&& self.row <= self.pos
        &&& self.column <= self.pos
    }

    pub fn new(input: Vec<u8>) -> (r: Self)
        ensures
            r.wf(),
            r.remaining() == read_spec(input@),
    {
        CSVReader { input, pos: 0, row: 0, column: 0 }
    }

    /// The next cell; `None` once the input is used up, and an error for a cell
    /// whose content is not valid UTF-8.
    pub fn next(&mut self) -> (r: Option<Result<Cell, LoadError>>)
        requires
            old(self).wf(),
        ensures
            final(self).wf(),
            match r {
                None => old(self).remaining().len() == 0,
                Some(res) => {
                    let raw = old(self).remaining()[0];
                    &&& old(self).remaining().len() > 0
                    &&& final(self).remaining() == old(self).remaining().drop_first()
                    &&& res is Ok <==> valid_utf8(raw.content)
                    &&& (res matches Ok(c) ==> cell_matches(c, raw))
                    &&& (res matches Err(e) ==> e == LoadError::InvalidText(
                        CellRef { row: raw.row as usize, column: raw.column as usize },
                    ))
                },
            },
    {
        let ghost start = self.remaining();
        let mut content: Vec<u8> = Vec::new();
        let mut escaped = false;
        let len = self.input.len();
        while self.pos < len
            invariant
                self.wf(),
                len == self.input.len(),
                start == old(self).remaining(),
                start == cells_from(
                    self.input@,
                    self.pos as int,
                    self.row as int,
                    self.column as int,
                    escaped,
                    content@,
                ),
            decreases len - self.pos,
        {
            let b = self.input[self.pos];
            if b == 34 {
                escaped = !escaped;
                self.pos = self.pos + 1;
            } else if b == 10 {
                assert(start == seq![RawCell { content: content@, row: self.row as int, column: self.column as int, delimiter: Delimiter::NewLine }]
                    + cells_from(self.input@, self.pos + 1, self.row + 1, 0, false, Seq::empty()));
                let row = self.row;
                let column = self.column;
                self.pos = self.pos + 1;
                self.row = self.row + 1;
                self.column = 0;
                assert(start.drop_first() =~= self.remaining());
                return Some(make_cell(content, row, column, Delimiter::NewLine));
            } else if b == 44 && !escaped {
                assert(start == seq![RawCell { content: content@, row: self.row as int, column: self.column as int, delimiter: Delimiter::Comma }]
                    + cells_from(self.input@, self.pos + 1, self.row as int, self.column + 1, false, Seq::empty()));
                let row = self.row;
                let column = self.column;
                self.pos = self.pos + 1;
                self.column = self.column + 1;
                assert(start.drop_first() =~= self.remaining());
                return Some(make_cell(content, row, column, Delimiter::Comma));
            } else {
                content.push(b);
                self.pos = self.pos + 1;
            }
        }
        if content.len() > 0 {
            assert(start.drop_first() =~= self.remaining());
            Some(make_cell(content, self.row, self.column, Delimiter::EOF))
        } else {
            None
        }
    }
}

/// The cell at (`row`, `column`) holding `content`, or the error for it when the
/// content is not valid UTF-8.
fn make_cell(content: Vec<u8>, row: usize, column: usize, delimiter: Delimiter) -> (r: Result<Cell, LoadError>)
    ensures
        r is Ok <==> valid_utf8(content@),
        r matches Ok(c) ==> c.position == (CellRef { row, column }) && c.delimiter == delimiter
            && c.bytes() == content@,
        r matches Err(e) ==> e == LoadError::InvalidText(CellRef { row, column }),
{
    if is_utf8(&content) {
        Ok(Cell::new(content, row, column, delimiter))
    } else {
        Err(LoadError::InvalidText(CellRef { row, column }))
    }
}

/// Relies on `std::str::from_utf8`: it succeeds exactly when the bytes are valid UTF-8.
#[verifier::external_body]
fn is_utf8(bytes: &Vec<u8>) -> (r: bool)
    ensures
        r == valid_utf8(bytes@),
{
    std::str::from_utf8(bytes.as_slice()).is_ok()
}

/// Reads every cell of `input`; fails on the first cell whose content is not valid UTF-8.
pub fn read_cells(input: Vec<u8>) -> (r: Result<Vec<Cell>, LoadError>)
    ensures
        r is Ok <==> forall|i: int|
            0 <= i < read_spec(input@).len() ==> valid_utf8(#[trigger] read_spec(input@)[i].content),
        valid_utf8(input@) ==> r is Ok,
        r matches Ok(cells) ==> cells.len() == read_spec(input@).len() && forall|i: int|
            0 <= i < cells.len() ==> cell_matches(#[trigger] cells@[i], read_spec(input@)[i]),
        r matches Err(e) ==> exists|i: int|
            0 <= i < read_spec(input@).len() && !valid_utf8(#[trigger] read_spec(input@)[i].content)
                && e == LoadError::InvalidText(
                CellRef {
                    row: read_spec(input@)[i].row as usize,
                    column: read_spec(input@)[i].column as usize,
                },
            ),
{
    proof {
        if valid_utf8(input@) {
            lemma_valid_text_reads(input@);
        }
    }
    let ghost all = read_spec(input@);
    let mut reader = CSVReader::new(input);
    let mut cells: Vec<Cell> = Vec::new();
    loop
        invariant
            reader.wf(),
            all == read_spec(input@),
            valid_utf8(input@) ==> forall|i: int| 0 <= i < all.len() ==> valid_utf8(#[trigger] all[i].content),
            cells.len() + reader.remaining().len() == all.len(),
            reader.remaining() == all.subrange(cells.len() as int, all.len() as int),
            forall|i: int| 0 <= i < cells.len() ==> cell_matches(#[trigger] cells@[i], all[i]),
            forall|i: int| 0 <= i < cells.len() ==> valid_utf8(#[trigger] all[i].content),
        decreases reader.remaining().len(),
    {
        let ghost before = reader.remaining();
        match reader.next() {
            None => {
                assert(cells.len() == all.len());
                return Ok(cells);
            },
            Some(Ok(c)) => {
                cells.push(c);
                assert(reader.remaining() =~= all.subrange(cells.len() as int, all.len() as int));
            },
            Some(Err(e)) => {
                assert(all[cells.len() as int] == before[0]);
                assert(!valid_utf8(all[cells.len() as int].content));
                return Err(e);
            },
        }
    }
}

/// Raw cells written out one after another.
pub open spec fn raw_serialized(cells: Seq<RawCell>) -> Seq<u8>
    decreases cells.len(),
{
    if cells.len() == 0 {
        Seq::empty()
    } else {
        cells[0].content + delimiter_bytes(cells[0].delimiter) + raw_serialized(cells.drop_first())
    }
}

proof fn lemma_cells_from_round_trip(input: Seq<u8>, pos: int, row: int, column: int, acc: Seq<u8>)
    requires
        0 <= pos <= input.len(),
        forall|i: int| pos <= i < input.len() ==> input[i] != 34,
    ensures
        raw_serialized(cells_from(input, pos, row, column, false, acc)) == acc + input.subrange(
            pos,
            input.len() as int,
        ),
    decreases input.len() - pos,
{
    let rest = input.subrange(pos, input.len() as int);
    if pos == input.len() {
        assert(rest =~= Seq::<u8>::empty());
        assert(acc + rest =~= acc);
        if acc.len() > 0 {
            let c = seq![RawCell { content: acc, row, column, delimiter: Delimiter::EOF }];
            assert(c.drop_first() =~= Seq::<RawCell>::empty());
            assert(raw_serialized(Seq::<RawCell>::empty()) =~= Seq::<u8>::empty());
            assert(acc + delimiter_bytes(Delimiter::EOF) + Seq::<u8>::empty() =~= acc);
        } else {
            assert(acc =~= Seq::<u8>::empty());
        }
    } else {
        let b = input[pos];
        let tail = input.subrange(pos + 1, input.len() as int);
        assert(rest =~= seq![b] + tail);
        if b == 10 || b == 44 {
            let next_row = if b == 10 { row + 1 } else { row };
            let next_column = if b == 10 { 0 } else { column + 1 };
            let d = if b == 10 { Delimiter::NewLine } else { Delimiter::Comma };
            let later = cells_from(input, pos + 1, next_row, next_column, false, Seq::empty());
            lemma_cells_from_round_trip(input, pos + 1, next_row, next_column, Seq::empty());
            let all = seq![RawCell { content: acc, row, column, delimiter: d }] + later;
            assert(all.drop_first() =~= later);
            assert(Seq::<u8>::empty() + tail =~= tail);
            assert(acc + delimiter_bytes(d) + tail =~= acc + rest);
            assert(raw_serialized(all) == acc + delimiter_bytes(d) + raw_serialized(later));
            assert(cells_from(input, pos, row, column, false, acc) == all);
        } else {
            lemma_cells_from_round_trip(input, pos + 1, row, column, acc.push(b));
            assert(acc.push(b) + tail =~= acc + rest);
        }
    }
}

proof fn lemma_serialized_matches(cells: Seq<Cell>, raw: Seq<RawCell>)
    requires
        cells.len() == raw.len(),
        forall|i: int| 0 <= i < cells.len() ==> cell_matches(#[trigger] cells[i], raw[i]),
    ensures
        serialized_cells(cells) == raw_serialized(raw),
    decreases cells.len(),
{
    if cells.len() > 0 {
        assert forall|i: int| 0 <= i < cells.drop_first().len() implies cell_matches(
            #[trigger] cells.drop_first()[i],
            raw.drop_first()[i],
        ) by {
            assert(cell_matches(cells[i + 1], raw[i + 1]));
        }
        assert(cell_matches(cells[0], raw[0]));
        lemma_serialized_matches(cells.drop_first(), raw.drop_first());
    }
}

/// Reading a text that holds no double quote and writing its cells back out, each
/// followed by its delimiter, gives the text again.
pub proof fn lemma_read_round_trip(input: Seq<u8>, cells: Seq<Cell>)
    requires
        forall|i: int| 0 <= i < input.len() ==> input[i] != 34,
        cells.len() == read_spec(input).len(),
        forall|i: int| 0 <= i < cells.len() ==> cell_matches(#[trigger] cells[i], read_spec(input)[i]),
    ensures
        serialized_cells(cells) == input,
{
    lemma_cells_from_round_trip(input, 0, 0, 0, Seq::empty());
    assert(Seq::<u8>::empty() + input.subrange(0, input.len() as int) =~= input);
    lemma_serialized_matches(cells, read_spec(input));
}

} // verus!
