use std::cmp::Ordering;
use plainoffice::calc::{compute_text, Calc, CsvPrinter, Loader, Printer, Table};
use plainoffice::cell::{Cell, CellRef, Delimiter};
use plainoffice::engine::{classify, CSVEngine};
use plainoffice::formula::{parse, Expression};
use plainoffice::html::HtmlPrinter;
use plainoffice::operators::{Average, Count, Operator, Sum};
use plainoffice::reader::{read_cells, CSVReader, LoadError};
use plainoffice::value::{parse_number, Number, Reading, Value};

fn eval(input: &str) -> String {
    let table = Calc::from_string(input.to_string()).load().unwrap();
    let printer = CsvPrinter::new();
    String::from_utf8(printer.print(table).unwrap()).unwrap()
}

fn engine_for(input: &str) -> CSVEngine {
    let cells = read_cells(input.as_bytes().to_vec()).unwrap();
    let mut engine = CSVEngine::new(cells);
    engine.register_operator(Sum.operator());
    engine.register_operator(Count.operator());
    engine.register_operator(Average.operator());
    engine
}

fn shown(engine: &CSVEngine, row: usize, column: usize) -> String {
    engine.value_at(&CellRef::new(row, column)).display()
}

#[test]
fn expression_parser_reference() {
    let parsed = parse(b"B2");
    assert!(matches!(parsed, Expression::Reference(_)), "{:?}", parsed)
}

#[test]
fn ranges() {
    let parsed = parse(b"B2:B3");
    assert!(matches!(parsed, Expression::Range(_, _)), "{:?}", parsed)
}

#[test]
fn mod_reference() {
    assert_eq!("0,0.00", eval("0,=A1"));
}

#[test]
fn operators() {
    assert_eq!("1,2,3,6.00", eval("1,2,3,=SUM(A1:C1)"));
    assert_eq!("1,2,3,3.00", eval("1,2,3,=COUNT(A1:C1)"));
    assert_eq!("1,2,3,2.00", eval("1,2,3,=AVERAGE(A1:C1)"));
}

#[test]
fn can_render_table() {
    let render = HtmlPrinter::new(false, None);
    render.print(Table::new(Vec::new())).unwrap();
}

#[test]
fn scenario_values_of_row() {
    let engine = engine_for("1,2,3,=SUM(A1:C1)");
    let shown_row: Vec<String> = (0..4).map(|c| shown(&engine, 0, c)).collect();
    assert_eq!(vec!["1.00", "2.00", "3.00", "6.00"], shown_row);
    let engine = engine_for("1,2,3,=COUNT(A1:C1)");
    assert_eq!("3.00", shown(&engine, 0, 3));
    let engine = engine_for("1,2,3,=AVERAGE(A1:C1)");
    assert_eq!("2.00", shown(&engine, 0, 3));
    let engine = engine_for("0,=A1");
    assert_eq!("0.00", shown(&engine, 0, 0));
    assert_eq!("0.00", shown(&engine, 0, 1));
}

#[test]
fn quoted_comma_stays_in_cell() {
    let cells = read_cells(b"\"a,b\",c".to_vec()).unwrap();
    assert_eq!(2, cells.len());
    assert_eq!("a,b", cells[0].content);
    assert_eq!("c", cells[1].content);
    assert_eq!(Delimiter::Comma, cells[0].delimiter);
    assert_eq!(Delimiter::EOF, cells[1].delimiter);
}

#[test]
fn reader_positions_and_delimiters() {
    let mut reader = CSVReader::new(b"a,b\nc\n".to_vec());
    let first = reader.next().unwrap().unwrap();
    assert_eq!(CellRef::new(0, 0), first.position);
    let second = reader.next().unwrap().unwrap();
    assert_eq!(CellRef::new(0, 1), second.position);
    assert_eq!(Delimiter::NewLine, second.delimiter);
    let third = reader.next().unwrap().unwrap();
    assert_eq!(CellRef::new(1, 0), third.position);
    assert!(reader.next().is_none());
}

#[test]
fn reader_round_trip() {
    let input = "x,1,,2\n=SUM(B1:D1),\nlast";
    let cells = read_cells(input.as_bytes().to_vec()).unwrap();
    let text = CsvPrinter::new().print_table(&Table::new(cells));
    assert_eq!(input.as_bytes(), text.as_slice());
}

#[test]
fn empty_input_has_no_cells() {
    assert_eq!(0, read_cells(Vec::new()).unwrap().len());
    assert_eq!("", eval(""));
}

#[test]
fn invalid_text_is_refused() {
    let r = read_cells(vec![b'a', b',', 0xff, 0xfe]);
    assert_eq!(Err(LoadError::InvalidText(CellRef::new(0, 1))), r.map(|c| c.len()));
    assert!(compute_text(vec![0xc3]).is_err());
}

#[test]
fn file_source_is_left_to_caller() {
    let r = Calc::from_file("sheet.csv".to_string()).load_table();
    assert!(matches!(r, Err(LoadError::FileNotRead)));
}

#[test]
fn range_shape() {
    let cells = CellRef::range(&CellRef::new(1, 2), &CellRef::new(2, 4));
    assert_eq!(6, cells.len());
    assert_eq!(CellRef::new(1, 2), cells[0]);
    assert_eq!(CellRef::new(1, 4), cells[2]);
    assert_eq!(CellRef::new(2, 2), cells[3]);
    assert_eq!(CellRef::new(2, 4), cells[5]);
    assert!(CellRef::range(&CellRef::new(2, 4), &CellRef::new(1, 2)).is_empty());
    assert!(CellRef::range(&CellRef::new(0, 5), &CellRef::new(1, 2)).is_empty());
}

#[test]
fn cell_ref_parse_encoding() {
    assert_eq!(CellRef::new(0, 0), CellRef::parse(b"A1"));
    assert_eq!(CellRef::new(2, 1), CellRef::parse(b"$B$3"));
    assert_eq!(CellRef::new(0, 10), CellRef::parse(b"BA1"));
    assert_eq!(CellRef::new(11, 2), CellRef::parse(b"C22"));
    assert_eq!(CellRef::new(255, 0), CellRef::parse(b"A10"));
}

#[test]
fn absent_reference_is_zero() {
    let engine = engine_for("=Z9");
    assert!(matches!(engine.value_at(&CellRef::new(8, 25)), Value::Number(Number::Fixed(0))));
    assert_eq!("0.00", shown(&engine, 0, 0));
}

#[test]
fn non_numeric_cell_in_range() {
    assert_eq!("1,x,3,#ARG?", eval("1,x,3,=SUM(A1:C1)"));
    assert_eq!("1,x,3,2.00", eval("1,x,3,=COUNT(A1:C1)"));
    assert_eq!("1,x,3,#ARG?", eval("1,x,3,=AVERAGE(A1:C1)"));
}

#[test]
fn unknown_function_name() {
    assert_eq!("1,#NAME?", eval("1,=MAX(A1)"));
    assert_eq!("#NAME", eval("=sum2(A1)"));
    assert_eq!("#NAME?", eval("=total(A1)"));
}

#[test]
fn lower_case_name_is_upper_cased() {
    assert_eq!("4,5,9.00", eval("4,5,\"=sum(A1,B1)\""));
}

#[test]
fn error_codes() {
    assert_eq!("#REF!", eval("=A1:B2"));
    assert_eq!("#NULL!", eval("=A1:"));
    assert_eq!("#EOF", eval("="));
    assert_eq!("#EOF", eval("=SUM(A1"));
    assert_eq!("#NAME", eval("=SUM"));
    assert_eq!("#EOF", eval("=1.5"));
    assert_eq!("#ARG?", eval("=SUM(1.5)"));
}

#[test]
fn circular_reference() {
    assert_eq!("#CIRCULAR!", eval("=A1"));
    assert_eq!("#ARG?,#ARG?", eval("=SUM(B1),=SUM(A1)"));
}

#[test]
fn values_of_plain_cells() {
    let engine = engine_for("true,FaLsE,hello, 2.5 ,-0.125,+.5,7.");
    assert_eq!("TRUE", shown(&engine, 0, 0));
    assert_eq!("FALSE", shown(&engine, 0, 1));
    assert_eq!("hello", shown(&engine, 0, 2));
    assert_eq!("2.50", shown(&engine, 0, 3));
    assert_eq!("-0.12", shown(&engine, 0, 4));
    assert_eq!("0.50", shown(&engine, 0, 5));
    assert_eq!("7.00", shown(&engine, 0, 6));
}

#[test]
fn reference_to_text_and_bool() {
    assert_eq!("hi,hi", eval("hi,=A1"));
    assert_eq!("true,TRUE", eval("true,=A1"));
}

#[test]
fn number_formatting() {
    assert_eq!("1,2,1.50", eval("1,2,\"=AVERAGE(A1,B1)\""));
    assert_eq!("1,0,0,0.33", eval("1,0,0,=AVERAGE(A1:C1)"));
    assert_eq!("2,0,0,0.67", eval("2,0,0,=AVERAGE(A1:C1)"));
    assert_eq!("0.125,0.375,0.12,0.38", eval("0.125,0.375,=A1,=B1"));
    assert_eq!("0.126,-0.001,0.13,-0.00", eval("0.126,-0.001,=A1,=B1"));
    assert_eq!("0.10,0.20,0.30", {
        let e = engine_for("0.1,0.2,=SUM(A1:B1)");
        format!("{},{},{}", shown(&e, 0, 0), shown(&e, 0, 1), shown(&e, 0, 2))
    });
}

#[test]
fn average_of_nothing_is_nan() {
    assert_eq!("NaN", eval("=AVERAGE()"));
    assert_eq!("0.00", eval("=SUM()"));
    assert_eq!("0.00", eval("=COUNT()"));
}

#[test]
fn multi_row_sheet() {
    assert_eq!("1,2\n3,4\n10.00", eval("1,2\n3,4\n=SUM(A1:B2)"));
}

#[test]
fn number_parsing() {
    assert_eq!(Reading::Number(Number::Fixed(1_500_000_000)), parse_number(b"1.5"));
    assert_eq!(Reading::Number(Number::Fixed(-250_000_000)), parse_number(b"-.25"));
    assert_eq!(Reading::NotNumber, parse_number(b"."));
    assert_eq!(Reading::Number(Number::Fixed(100_000_000_000_000)), parse_number(b"1e5"));
    assert_eq!(Reading::Number(Number::Fixed(12_500_000)), parse_number(b"1.25E-2"));
    assert_eq!(Reading::Number(Number::Fixed(3_000_000_000)), parse_number(b"3.e+0"));
    assert_eq!(Reading::Number(Number::Fixed(0)), parse_number(b"7e-10"));
    assert_eq!(Reading::Number(Number::Fixed(0)), parse_number(b"5e-99999999999999999999999999999999999"));
    assert_eq!(Reading::Number(Number::Fixed(0)), parse_number(b"0e99999999999999999999999999999999999"));
    assert_eq!(Reading::TooLarge, parse_number(b"5e99999999999999999999999999999999999"));
    assert_eq!(Reading::TooLarge, parse_number(b"1e30"));
    assert_eq!(Reading::Number(Number::Fixed(123_456_789)), parse_number(b"0.1234567899"));
    assert_eq!(Reading::Number(Number::NaN), parse_number(b"NaN"));
    assert_eq!(Reading::Number(Number::NaN), parse_number(b"-nan"));
    assert_eq!(Reading::TooLarge, parse_number(b"inf"));
    assert_eq!(Reading::TooLarge, parse_number(b"-Infinity"));
    assert_eq!(Reading::NotNumber, parse_number(b"1e"));
    assert_eq!(Reading::NotNumber, parse_number(b"e5"));
    assert_eq!(Reading::NotNumber, parse_number(b"1e5x"));
}

#[test]
fn exponent_cells_are_numbers() {
    assert_eq!("1e3,2.5E1,1025.00", eval("1e3,2.5E1,=SUM(A1:B1)"));
    assert_eq!("nan,NaN", eval("nan,=A1"));
    assert_eq!("inf,#NUM!", eval("inf,=A1"));
}

#[test]
fn number_arithmetic() {
    assert_eq!(Some(Number::Fixed(3)), Number::Fixed(1).add(Number::Fixed(2)));
    assert_eq!(None, Number::Fixed(i128::MAX).add(Number::Fixed(1)));
    assert_eq!(Number::Fixed(-3), Number::Fixed(-7).divide_by_count(Number::Fixed(2_000_000_000)));
    assert_eq!(Number::NaN, Number::Fixed(0).divide_by_count(Number::Fixed(0)));
}

#[test]
fn operator_registration() {
    let mut engine = CSVEngine::new(read_cells(b"1,2".to_vec()).unwrap());
    let args = vec![Expression::Reference(CellRef::new(0, 0)), Expression::Reference(CellRef::new(0, 1))];
    assert!(matches!(engine.call(&b"SUM".to_vec(), &args), Value::Error(_)));
    engine.register_operator(Operator::Sum);
    assert_eq!("3.00", engine.call(&b"SUM".to_vec(), &args).display());
    assert!(matches!(engine.call(&b"AVERAGE".to_vec(), &args), Value::Error(_)));
}

#[test]
fn later_cell_replaces_earlier_and_both_are_emitted() {
    let a = Cell::new(b"1".to_vec(), 0, 0, Delimiter::Comma);
    let b = Cell::new(b"5".to_vec(), 0, 0, Delimiter::EOF);
    let engine = CSVEngine::new(vec![a, b]);
    let out = engine.computed_cells();
    assert_eq!(2, out.len());
    assert_eq!("5", out[0].content);
    assert_eq!("5", out[1].content);
    assert_eq!(Delimiter::EOF, out[0].delimiter);
}

#[test]
fn cells_emitted_in_position_order() {
    let a = Cell::new(b"=A1".to_vec(), 0, 1, Delimiter::EOF);
    let b = Cell::new(b"7".to_vec(), 0, 0, Delimiter::Comma);
    let mut engine = CSVEngine::new(vec![a, b]);
    engine.register_operator(Operator::Sum);
    let out = engine.computed_cells();
    assert_eq!("7", out[0].content);
    assert_eq!("7.00", out[1].content);
}

#[test]
fn html_page_holds_table() {
    let table = Calc::from_string("1,=A1".to_string()).load_table().unwrap();
    let page = String::from_utf8(HtmlPrinter::new(true, Some("body{}".to_string())).print(table).unwrap()).unwrap();
    assert!(page.contains("1,1.00"));
    assert!(page.contains("body{}"));
    assert!(page.contains("EventSource"));
}

#[test]
fn cell_ref_order() {
    assert!(CellRef::new(0, 5) < CellRef::new(1, 0));
    assert!(CellRef::new(1, 1) > CellRef::new(1, 0));
    assert_eq!(Some(Ordering::Equal), CellRef::new(2, 3).partial_cmp(&CellRef::new(2, 3)));
    assert_eq!(Ordering::Less, CellRef::new(0, 5).cmp(&CellRef::new(1, 0)));
}

#[test]
fn totals_beyond_range() {
    let big = "100000000000000000000000000000";
    assert_eq!(format!("{},{},#NUM!", big, big), eval(&format!("{},{},=SUM(A1:B1)", big, big)));
    let too_big = "1000000000000000000000000000000";
    assert_eq!(format!("{},#NUM!", too_big), eval(&format!("{},=A1", too_big)));
    assert_eq!(format!("{},#ARG?", too_big), eval(&format!("{},=SUM(A1)", too_big)));
}

#[test]
fn classify_given_trimmed_and_upper_text() {
    let text = " x ".to_string();
    assert!(matches!(classify("12.5", "", &text), Value::Number(Number::Fixed(12_500_000_000))));
    assert!(matches!(classify("1e400", "", &text), Value::Error(_)));
    assert!(matches!(classify("x", "TRUE", &text), Value::Bool(true)));
    assert!(matches!(classify("x", "FALSE", &text), Value::Bool(false)));
    assert!(matches!(classify("x", "X", &text), Value::Text(ref t) if t == " x "));
}

#[test]
fn unicode_white_space_and_case() {
    let engine = engine_for("\u{a0}4.5\u{2003},fal\u{17f}e,\ttrue");
    assert_eq!("4.50", shown(&engine, 0, 0));
    assert_eq!("FALSE", shown(&engine, 0, 1));
    assert_eq!("\ttrue", shown(&engine, 0, 2));
}
