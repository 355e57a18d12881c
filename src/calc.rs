//! Loading a comma-delimited text into computed cells, and writing cells back out.
use vstd::prelude::*;
use crate::cell::{serialized_cells, text_bytes, Cell, Delimiter};
use crate::engine::{counts_from, emits, sheet_from, CSVEngine};
use crate::operators::{Average, Count, Operator, Sum};
use crate::reader::{cell_matches, read_cells, read_spec, LoadError};
use crate::value::push_all;
use vstd::utf8::valid_utf8;

verus! {

/// Something that can be loaded.
pub trait Loader {
    type Output;

    /// `r` is what loading gives.
    spec fn loaded(&self, r: Result<Self::Output, LoadError>) -> bool;

    fn load(&self) -> (r: Result<Self::Output, LoadError>)
        ensures
            self.loaded(r),
    ;
}

/// Something that writes a value out as bytes.
pub trait Printer<T> {
    /// `r` is what writing out `value` gives.
    spec fn printed(&self, value: T, r: Result<Vec<u8>, PrintError>) -> bool;

    fn print(&self, value: T) -> (r: Result<Vec<u8>, PrintError>)
        ensures
            self.printed(value, r),
    ;

    /// The file extension of what it writes.
    fn extension() -> &'static str;
}

/// Why a value could not be written out.
#[derive(Clone, Copy, Debug, PartialEq, Eq, Structural)]
pub enum PrintError {
    /// The page template could not be rendered.
    Render,
    /// The value could not be loaded.
    Load(LoadError),
}

/// Loads a value and writes it out: a load error comes back as `PrintError::Load`,
/// otherwise what the printer gives for the loaded value.
pub fn print_to_vec<T, L: Loader<Output = T>, P: Printer<T>>(loader: L, printer: P) -> (r: Result<Vec<u8>, PrintError>)
    ensures
        exists|l: Result<T, LoadError>|
            loader.loaded(l) && match l {
                Ok(v) => printer.printed(v, r),
                Err(e) => r == Err::<Vec<u8>, PrintError>(PrintError::Load(e)),
            },
{
    let l = loader.load();
    let ghost lg = l;
    match l {
        Ok(value) => {
            let ghost v = value;
            let r = printer.print(value);
            assert(loader.loaded(lg) && printer.printed(v, r));
            r
        },
        Err(e) => Err(PrintError::Load(e)),
    }
}

/// Where the text of a sheet comes from.
pub enum Source {
    FromFile(String),
    FromString(String),
}

/// A comma-delimited sheet to load and compute.
pub struct Calc {
    pub source: Source,
}

/// The operators that a loaded sheet registers.
pub open spec fn standard_ops() -> Seq<Operator> {
    seq![Operator::Sum, Operator::Count, Operator::Average]
}

/// `cells` are the cells that the reader finds in `input`.
pub open spec fn read_as(input: Seq<u8>, cells: Seq<Cell>) -> bool {
    &&& cells.len() == read_spec(input).len()
    &&& forall|i: int| 0 <= i < cells.len() ==> cell_matches(#[trigger] cells[i], read_spec(input)[i])
}

/// What loading the text `input` gives: an error for the first cell whose content is
/// not valid UTF-8; otherwise the cells in ascending order of position, a position
/// once for each cell read at it, each formula replaced by the text of its value.
pub open spec fn loads_as(input: Seq<u8>, r: Result<Table, LoadError>) -> bool {
    &&& (r is Ok <==> forall|i: int|
        0 <= i < read_spec(input).len() ==> valid_utf8(#[trigger] read_spec(input)[i].content))
    &&& (valid_utf8(input) ==> r is Ok)
    &&& (r matches Ok(t) ==> exists|cells: Seq<Cell>|
        read_as(input, cells) && emits(t@, sheet_from(cells), counts_from(cells), standard_ops()))
}

impl Calc {
    pub fn from_file(path: String) -> (r: Self)
        ensures
            r.source == Source::FromFile(path),
    {
        Calc { source: Source::FromFile(path) }
    }

    pub fn from_string(source: String) -> (r: Self)
        ensures
            r.source == Source::FromString(source),
    {
        Calc { source: Source::FromString(source) }
    }

    /// Reads, evaluates and emits the sheet of a text source; a file source is for
    /// the caller to read and is refused here.
    pub fn load_table(&self) -> (r: Result<Table, LoadError>)
        ensures
            self.source is FromFile ==> r matches Err(LoadError::FileNotRead),
            self.source is FromString ==> r is Ok,
            self.source matches Source::FromString(s) ==> loads_as(text_bytes(s@), r),
    {
        match &self.source {
            Source::FromFile(_) => Err(LoadError::FileNotRead),
            Source::FromString(data) => {
                proof {
                    vstd::utf8::encode_utf8_valid_utf8(data@);
                }
                let input = vstd::slice::slice_to_vec(data.as_str().as_bytes());
                compute_text(input)
            },
        }
    }
}

/// Reads, evaluates and emits the sheet held in `input`.
pub fn compute_text(input: Vec<u8>) -> (r: Result<Table, LoadError>)
    ensures
        loads_as(input@, r),
{
    let ghost bytes = input@;
    match read_cells(input) {
        Err(e) => Err(e),
        Ok(cells) => {
            let ghost read = cells@;
            let mut engine = CSVEngine::new(cells);
            engine.register_operator(Sum.operator());
            engine.register_operator(Count.operator());
            engine.register_operator(Average.operator());
            let out = engine.computed_cells();
            proof {
                assert(!seq![Operator::Sum].contains(Operator::Count));
                assert(!seq![Operator::Sum, Operator::Count].contains(Operator::Average));
                assert(engine.ops() =~= standard_ops());
                assert(read_as(bytes, read));
            }
            let table = Table { cells: out };
            assert(emits(table@, sheet_from(read), counts_from(read), engine.ops()));
            Ok(table)
        },
    }
}

impl Loader for Calc {
    type Output = Table;

    open spec fn loaded(&self, r: Result<Table, LoadError>) -> bool {
        &&& (self.source is FromFile ==> r matches Err(LoadError::FileNotRead))
        &&& (self.source is FromString ==> r is Ok)
        &&& (self.source matches Source::FromString(s) ==> loads_as(text_bytes(s@), r))
    }

    fn load(&self) -> (r: Result<Table, LoadError>) {
        self.load_table()
    }
}

/// Computed cells, in the order they are written out.
pub struct Table {
    cells: Vec<Cell>,
}

impl View for Table {
    type V = Seq<Cell>;

    closed spec fn view(&self) -> Seq<Cell> {
        self.cells@
    }
}

impl Table {
    pub fn new(cells: Vec<Cell>) -> (r: Self)
        ensures
            r@ == cells@,
    {
        Table { cells }
    }

    pub fn cells(&self) -> (r: &[Cell])
        ensures
            r@ == self@,
    {
        self.cells.as_slice()
    }
}

proof fn lemma_serialized_push(s: Seq<Cell>, c: Cell)
    ensures
        serialized_cells(s.push(c)) == serialized_cells(s) + c.serialized(),
    decreases s.len(),
{
    if s.len() == 0 {
        assert(s.push(c).drop_first() =~= Seq::<Cell>::empty());
        assert(serialized_cells(Seq::<Cell>::empty()) == Seq::<u8>::empty());
        assert(c.serialized() + Seq::<u8>::empty() =~= Seq::<u8>::empty() + c.serialized());
    } else {
        lemma_serialized_push(s.drop_first(), c);
        assert(s.push(c).drop_first() =~= s.drop_first().push(c));
        assert(s[0].serialized() + (serialized_cells(s.drop_first()) + c.serialized()) =~= (s[0].serialized()
            + serialized_cells(s.drop_first())) + c.serialized());
    }
}

/// Writes cells out as comma-delimited text.
pub struct CsvPrinter;

impl CsvPrinter {
    pub fn new() -> Self {
        CsvPrinter
    }

    /// Each cell's content followed by its delimiter.
    pub fn print_table(&self, table: &Table) -> (r: Vec<u8>)
        ensures
            r@ == serialized_cells(table@),
    {
        let cells = table.cells();
        let mut out: Vec<u8> = Vec::new();
        let mut i: usize = 0;
        while i < cells.len()
            invariant
                i <= cells.len(),
                cells@ == table@,
                out@ == serialized_cells(cells@.subrange(0, i as int)),
            decreases cells.len() - i,
        {
            let c = &cells[i];
            push_all(&mut out, c.content.as_str().as_bytes());
            match c.delimiter {
                Delimiter::Comma => out.push(44),
                Delimiter::NewLine => out.push(10),
                Delimiter::EOF => {},
            }
            proof {
                lemma_serialized_push(cells@.subrange(0, i as int), *c);
                assert(cells@.subrange(0, i + 1) =~= cells@.subrange(0, i as int).push(*c));
            }
            assert(out@ =~= serialized_cells(cells@.subrange(0, i as int)) + c.serialized());
            i = i + 1;
        }
        assert(cells@.subrange(0, i as int) =~= cells@);
        out
    }
}

impl Printer<Table> for CsvPrinter {
    /// Each cell's content followed by its delimiter, always.
    open spec fn printed(&self, table: Table, r: Result<Vec<u8>, PrintError>) -> bool {
        r matches Ok(bytes) && bytes@ == serialized_cells(table@)
    }

    fn print(&self, table: Table) -> (r: Result<Vec<u8>, PrintError>) {
        Ok(self.print_table(&table))
    }

    fn extension() -> &'static str {
        "csv"
    }
}

} // verus!
