//! The sheet of loaded cells and the evaluator of formulas over it.
use vstd::prelude::*;
use crate::cell::{range_spec, ref_lt, text_bytes, Cell, CellRef};
use crate::formula::{args_view, lemma_args_view, parse, parse_spec, ExprModel, Expression};
use crate::operators::{lookup_operator, named, operator_name, operator_named, Operator};
use crate::value::{
    read_number, display_bytes, number_quotient, number_sum, parse_number, ErrorCode, Number, Reading, Value,
    ValueModel, SCALE,
};

verus! {

broadcast use vstd::seq_lib::group_seq_properties, vstd::set_lib::group_set_lib_default;

/// The size of an expression: one for each node.
pub open spec fn expr_size(e: ExprModel) -> nat
    decreases e,
{
    match e {
        ExprModel::Call(_, args) => 1 + args_size(args),
        _ => 1,
    }
}

/// The sizes of a list of expressions, plus one for each.
pub open spec fn args_size(args: Seq<ExprModel>) -> nat
    decreases args,
{
    if args.len() == 0 {
        0
    } else {
        expr_size(args.last()) + 1 + args_size(args.drop_last())
    }
}

/// Each argument of a call is smaller than the list of arguments.
pub proof fn lemma_arg_smaller(args: Seq<ExprModel>, i: int)
    requires
        0 <= i < args.len(),
    ensures
        expr_size(args[i]) < args_size(args),
    decreases args.len(),
{
    if i < args.len() - 1 {
        lemma_arg_smaller(args.drop_last(), i);
    }
}

/// The positions of a sheet's cells.
pub open spec fn positions(cells: Seq<Cell>) -> Set<CellRef> {
    cells.map_values(|c: Cell| c.position).to_set()
}

/// How many of the sheet's positions are not among `vis`.
pub open spec fn unvisited(cells: Seq<Cell>, vis: Set<CellRef>) -> nat {
    (positions(cells) - vis).len()
}

/// The index of the first cell at or after `i` whose position is `p`, or -1.
pub open spec fn first_index(cells: Seq<Cell>, p: CellRef, i: int) -> int
    decreases cells.len() - i,
{
    if i < 0 || i >= cells.len() {
        -1
    } else if cells[i].position == p {
        i
    } else {
        first_index(cells, p, i + 1)
    }
}

/// `first_index` finds a cell at `p`, or there is none from `i` on.
pub proof fn lemma_first_index(cells: Seq<Cell>, p: CellRef, i: int)
    requires
        0 <= i,
    ensures
        first_index(cells, p, i) == -1 || (i <= first_index(cells, p, i) < cells.len()
            && cells[first_index(cells, p, i)].position == p),
        first_index(cells, p, i) == -1 ==> forall|k: int| i <= k < cells.len() ==> cells[k].position != p,
    decreases cells.len() - i,
{
    if i < cells.len() && cells[i].position != p {
        lemma_first_index(cells, p, i + 1);
    }
}

/// Entering a cell of the sheet that is not being evaluated yet leaves fewer cells
/// unvisited.
pub proof fn lemma_unvisited_shrinks(cells: Seq<Cell>, vis: Set<CellRef>, p: CellRef, k: int)
    requires
        0 <= k < cells.len(),
        cells[k].position == p,
        !vis.contains(p),
    ensures
        unvisited(cells, vis.insert(p)) < unvisited(cells, vis),
{
    let all = positions(cells);
    assert(cells.map_values(|c: Cell| c.position)[k] == p);
    assert(all.contains(p));
    assert(all - vis.insert(p) =~= (all - vis).remove(p));
}

/// A text without its leading and trailing white space.
pub uninterp spec fn trimmed(s: Seq<char>) -> Seq<char>;

/// A text in upper case.
pub uninterp spec fn upper(s: Seq<char>) -> Seq<char>;

/// Relies on `str::trim`: the text without leading and trailing white space, which
/// depends on the text alone. What comes back is a contiguous piece of the text, and
/// a text that starts and ends with a visible ASCII character (never white space)
/// comes back whole.
#[verifier::external_body]
fn trim_text(s: &str) -> (r: &str)
    ensures
        r@ == trimmed(s@),
        r@.len() <= s@.len() && exists|i: int| 0 <= i <= s@.len() - r@.len() && r@ == #[trigger] s@.subrange(i, i + r@.len()),
        r@ == s@ || !(s@.len() > 0 && 33 <= s@[0] as u32 <= 126 && 33 <= s@.last() as u32 <= 126),
{
    s.trim()
}

/// Relies on `str::to_uppercase`: the text in upper case, which depends on the text alone.
#[verifier::external_body]
fn uppercase(s: &str) -> (r: String)
    ensures
        r@ == upper(s@),
{
    s.to_uppercase()
}

/// The text of a formula, after its `=`, when `content` is one.
pub open spec fn formula_of(content: Seq<u8>) -> Option<Seq<u8>> {
    if content.len() > 0 && content[0] == 61 {
        Some(content.subrange(1, content.len() as int))
    } else {
        None
    }
}

/// The value of a cell's text `text` that holds no formula, given that text without
/// surrounding white space (`trimmed_text`) and in upper case (`upper_text`): a number
/// when the trimmed text is one, TRUE or FALSE after the upper case, otherwise the text.
pub open spec fn classify_spec(trimmed_text: Seq<char>, upper_text: Seq<char>, text: Seq<char>) -> ValueModel {
    match read_number(text_bytes(trimmed_text)) {
        Reading::Number(n) => ValueModel::Number(n),
        Reading::TooLarge => ValueModel::Error(ErrorCode::Num),
        Reading::NotNumber => if text_bytes(upper_text) == seq![84u8, 82u8, 85u8, 69u8] {
            ValueModel::Bool(true)
        } else if text_bytes(upper_text) == seq![70u8, 65u8, 76u8, 83u8, 69u8] {
            ValueModel::Bool(false)
        } else {
            ValueModel::Text(text_bytes(text))
        },
    }
}

/// The value of a cell whose text `text` holds no formula.
pub open spec fn literal_value(text: Seq<char>) -> ValueModel {
    classify_spec(trimmed(text), upper(text), text)
}

/// The value of `e` over the sheet `cells` with the operators `ops`, while the cells
/// `vis` are being evaluated.
pub open spec fn eval(cells: Seq<Cell>, ops: Seq<Operator>, vis: Set<CellRef>, e: ExprModel) -> ValueModel
    decreases unvisited(cells, vis), expr_size(e), 0nat, 0nat,
{
    match e {
        ExprModel::Call(name, args) => call_value(cells, ops, vis, name, args),
        ExprModel::Reference(p) => value_at(cells, ops, vis, p),
        ExprModel::Range(_, _) => ValueModel::Error(ErrorCode::Ref),
        ExprModel::Literal(v) => v,
    }
}

/// The value of the cell at `p`: zero where there is none, CIRCULAR! where it is
/// already being evaluated, the value of its formula, or the value of its text.
pub open spec fn value_at(cells: Seq<Cell>, ops: Seq<Operator>, vis: Set<CellRef>, p: CellRef) -> ValueModel
    decreases unvisited(cells, vis), 0nat, 0nat, 0nat,
{
    if vis.contains(p) {
        ValueModel::Error(ErrorCode::Circular)
    } else {
        let k = first_index(cells, p, 0);
        if k < 0 || k >= cells.len() {
            ValueModel::Number(Number::Fixed(0))
        } else {
            let content = cells[k].bytes();
            match formula_of(content) {
                Some(text) => {
                    proof {
                        lemma_first_index(cells, p, 0);
                        lemma_unvisited_shrinks(cells, vis, p, k);
                    }
                    eval(cells, ops, vis.insert(p), parse_spec(text))
                },
                None => literal_value(cells[k].content@),
            }
        }
    }
}

/// The value of a call of `name`: NAME? when no operator is registered under it.
pub open spec fn call_value(
    cells: Seq<Cell>,
    ops: Seq<Operator>,
    vis: Set<CellRef>,
    name: Seq<u8>,
    args: Seq<ExprModel>,
) -> ValueModel
    decreases unvisited(cells, vis), args_size(args), 3nat, 0nat,
{
    match lookup_operator(ops, name) {
        None => ValueModel::Error(ErrorCode::Name),
        Some(Operator::Sum) => sum_from(cells, ops, vis, args, 0, Number::Fixed(0)),
        Some(Operator::Count) => count_from(cells, ops, vis, args, 0, Number::Fixed(0)),
        Some(Operator::Average) => average_value(cells, ops, vis, args),
    }
}

/// AVERAGE: what the registered SUM gives divided by what the registered COUNT gives;
/// ARG? unless both give numbers.
pub open spec fn average_value(cells: Seq<Cell>, ops: Seq<Operator>, vis: Set<CellRef>, args: Seq<ExprModel>) -> ValueModel
    decreases unvisited(cells, vis), args_size(args), 2nat, 0nat,
{
    let total = if ops.contains(Operator::Sum) {
        sum_from(cells, ops, vis, args, 0, Number::Fixed(0))
    } else {
        ValueModel::Error(ErrorCode::Name)
    };
    let count = if ops.contains(Operator::Count) {
        count_from(cells, ops, vis, args, 0, Number::Fixed(0))
    } else {
        ValueModel::Error(ErrorCode::Name)
    };
    match (total, count) {
        (ValueModel::Number(s), ValueModel::Number(c)) => ValueModel::Number(number_quotient(s, c)),
        _ => ValueModel::Error(ErrorCode::Arg),
    }
}

/// SUM over the arguments from `i` on, with `acc` added up so far: ARG? at the first
/// value that is not a number, NUM! where the total leaves the range of numbers.
pub open spec fn sum_from(
    cells: Seq<Cell>,
    ops: Seq<Operator>,
    vis: Set<CellRef>,
    args: Seq<ExprModel>,
    i: int,
    acc: Number,
) -> ValueModel
    decreases unvisited(cells, vis), args_size(args), 1nat, args.len() - i,
{
    if i < 0 || i >= args.len() {
        ValueModel::Number(acc)
    } else {
        proof {
            lemma_arg_smaller(args, i);
        }
        match args[i] {
            ExprModel::Range(a, b) => match sum_cells(cells, ops, vis, range_spec(a, b), 0, acc) {
                ValueModel::Number(t) => sum_from(cells, ops, vis, args, i + 1, t),
                other => other,
            },
            _ => match eval(cells, ops, vis, args[i]) {
                ValueModel::Number(n) => match number_sum(acc, n) {
                    Some(t) => sum_from(cells, ops, vis, args, i + 1, t),
                    None => ValueModel::Error(ErrorCode::Num),
                },
                _ => ValueModel::Error(ErrorCode::Arg),
            },
        }
    }
}

/// SUM over the cells `ps` from `j` on, with `acc` added up so far.
pub open spec fn sum_cells(
    cells: Seq<Cell>,
    ops: Seq<Operator>,
    vis: Set<CellRef>,
    ps: Seq<CellRef>,
    j: int,
    acc: Number,
) -> ValueModel
    decreases unvisited(cells, vis), 0nat, 0nat, ps.len() - j,
{
    if j < 0 || j >= ps.len() {
        ValueModel::Number(acc)
    } else {
        match value_at(cells, ops, vis, ps[j]) {
            ValueModel::Number(n) => match number_sum(acc, n) {
                Some(t) => sum_cells(cells, ops, vis, ps, j + 1, t),
                None => ValueModel::Error(ErrorCode::Num),
            },
            _ => ValueModel::Error(ErrorCode::Arg),
        }
    }
}

/// COUNT over the arguments from `i` on, with `acc` counted so far: values that are
/// not numbers are passed over.
pub open spec fn count_from(
    cells: Seq<Cell>,
    ops: Seq<Operator>,
    vis: Set<CellRef>,
    args: Seq<ExprModel>,
    i: int,
    acc: Number,
) -> ValueModel
    decreases unvisited(cells, vis), args_size(args), 1nat, args.len() - i,
{
    if i < 0 || i >= args.len() {
        ValueModel::Number(acc)
    } else {
        proof {
            lemma_arg_smaller(args, i);
        }
        match args[i] {
            ExprModel::Range(a, b) => match count_cells(cells, ops, vis, range_spec(a, b), 0, acc) {
                ValueModel::Number(t) => count_from(cells, ops, vis, args, i + 1, t),
                other => other,
            },
            _ => match eval(cells, ops, vis, args[i]) {
                ValueModel::Number(_) => match number_sum(acc, Number::Fixed(SCALE)) {
                    Some(t) => count_from(cells, ops, vis, args, i + 1, t),
                    None => ValueModel::Error(ErrorCode::Num),
                },
                _ => count_from(cells, ops, vis, args, i + 1, acc),
            },
        }
    }
}

/// COUNT over the cells `ps` from `j` on, with `acc` counted so far.
pub open spec fn count_cells(
    cells: Seq<Cell>,
    ops: Seq<Operator>,
    vis: Set<CellRef>,
    ps: Seq<CellRef>,
    j: int,
    acc: Number,
) -> ValueModel
    decreases unvisited(cells, vis), 0nat, 0nat, ps.len() - j,
{
    if j < 0 || j >= ps.len() {
        ValueModel::Number(acc)
    } else {
        match value_at(cells, ops, vis, ps[j]) {
            ValueModel::Number(_) => match number_sum(acc, Number::Fixed(SCALE)) {
                Some(t) => count_cells(cells, ops, vis, ps, j + 1, t),
                None => ValueModel::Error(ErrorCode::Num),
            },
            _ => count_cells(cells, ops, vis, ps, j + 1, acc),
        }
    }
}

proof fn lemma_first_index_absent(cells: Seq<Cell>, p: CellRef, i: int)
    requires
        0 <= i,
        forall|k: int| 0 <= k < cells.len() ==> (#[trigger] cells[k]).position != p,
    ensures
        first_index(cells, p, i) == -1,
    decreases cells.len() - i,
{
    if i < cells.len() {
        assert(cells[i].position != p);
        lemma_first_index_absent(cells, p, i + 1);
    }
}

proof fn lemma_sorted_first_index(cells: Seq<Cell>, p: CellRef, k: int)
    requires
        sorted_cells(cells),
        0 <= k < cells.len(),
        cells[k].position == p,
    ensures
        first_index(cells, p, 0) == k,
{
    assert forall|i: int| 0 <= i <= k implies first_index(cells, p, i) == k by {
        lemma_first_index_from(cells, p, i, k);
    }
}

proof fn lemma_first_index_from(cells: Seq<Cell>, p: CellRef, i: int, k: int)
    requires
        sorted_cells(cells),
        0 <= i <= k < cells.len(),
        cells[k].position == p,
    ensures
        first_index(cells, p, i) == k,
    decreases k - i,
{
    if i < k {
        assert(ref_lt(cells[i].position, cells[k].position));
        lemma_first_index_from(cells, p, i + 1, k);
    }
}

/// A reference to a position that holds no cell, and that is not being evaluated
/// already, evaluates to the number zero.
pub proof fn lemma_absent_reference_is_zero(cells: Seq<Cell>, ops: Seq<Operator>, vis: Set<CellRef>, p: CellRef)
    requires
        forall|k: int| 0 <= k < cells.len() ==> (#[trigger] cells[k]).position != p,
        !vis.contains(p),
    ensures
        eval(cells, ops, vis, ExprModel::Reference(p)) == ValueModel::Number(Number::Fixed(0)),
{
    lemma_first_index_absent(cells, p, 0);
}

/// A call of a name under which no operator is registered shows as `#NAME?`.
pub proof fn lemma_unknown_name_shows_name_error(
    cells: Seq<Cell>,
    ops: Seq<Operator>,
    vis: Set<CellRef>,
    name: Seq<u8>,
    args: Seq<ExprModel>,
)
    requires
        lookup_operator(ops, name) is None,
    ensures
        display_bytes(eval(cells, ops, vis, ExprModel::Call(name, args))) == seq![35u8, 78u8, 65u8, 77u8, 69u8, 63u8],
{
    assert(display_bytes(ValueModel::Error(ErrorCode::Name)) =~= seq![35u8, 78u8, 65u8, 77u8, 69u8, 63u8]);
}

proof fn lemma_sum_cells_meets_non_number(
    cells: Seq<Cell>,
    ops: Seq<Operator>,
    vis: Set<CellRef>,
    ps: Seq<CellRef>,
    i: int,
    j: int,
    acc: Number,
)
    requires
        0 <= i <= j < ps.len(),
        !(value_at(cells, ops, vis, ps[j]) is Number),
    ensures
        sum_cells(cells, ops, vis, ps, i, acc) == ValueModel::Error(ErrorCode::Arg) || sum_cells(
            cells,
            ops,
            vis,
            ps,
            i,
            acc,
        ) == ValueModel::Error(ErrorCode::Num),
    decreases j - i,
{
    if i < j {
        match value_at(cells, ops, vis, ps[i]) {
            ValueModel::Number(n) => match number_sum(acc, n) {
                Some(t) => lemma_sum_cells_meets_non_number(cells, ops, vis, ps, i + 1, j, t),
                None => {},
            },
            _ => {},
        }
    }
}

/// Every argument from `i` on gives a number: each cell of a range argument, and the
/// value of any other argument.
pub open spec fn numbers_from(cells: Seq<Cell>, ops: Seq<Operator>, vis: Set<CellRef>, args: Seq<ExprModel>, i: int) -> bool {
    forall|k: int|
        i <= k < args.len() ==> match #[trigger] args[k] {
            ExprModel::Range(a, b) => forall|j: int|
                0 <= j < range_spec(a, b).len() ==> (#[trigger] value_at(cells, ops, vis, range_spec(a, b)[j])) is Number,
            e => eval(cells, ops, vis, e) is Number,
        }
}

proof fn lemma_sum_cells_shape(cells: Seq<Cell>, ops: Seq<Operator>, vis: Set<CellRef>, ps: Seq<CellRef>, j: int, acc: Number)
    requires
        0 <= j <= ps.len(),
    ensures
        ({
            let r = sum_cells(cells, ops, vis, ps, j, acc);
            &&& (r is Number || r == ValueModel::Error(ErrorCode::Arg) || r == ValueModel::Error(ErrorCode::Num))
            &&& ((forall|k: int| j <= k < ps.len() ==> (#[trigger] value_at(cells, ops, vis, ps[k])) is Number)
                ==> r != ValueModel::Error(ErrorCode::Arg))
            &&& ((exists|k: int| j <= k < ps.len() && !((#[trigger] value_at(cells, ops, vis, ps[k])) is Number))
                ==> !(r is Number))
        }),
    decreases ps.len() - j,
{
    if j < ps.len() {
        match value_at(cells, ops, vis, ps[j]) {
            ValueModel::Number(n) => match number_sum(acc, n) {
                Some(t) => {
                    lemma_sum_cells_shape(cells, ops, vis, ps, j + 1, t);
                    if exists|k: int| j <= k < ps.len() && !((#[trigger] value_at(cells, ops, vis, ps[k])) is Number) {
                        let k = choose|k: int| j <= k < ps.len() && !((#[trigger] value_at(cells, ops, vis, ps[k])) is Number);
                        assert(k != j);
                        assert(j + 1 <= k < ps.len() && !(value_at(cells, ops, vis, ps[k]) is Number));
                    }
                },
                None => {},
            },
            _ => {},
        }
    }
}

proof fn lemma_sum_from_shape(cells: Seq<Cell>, ops: Seq<Operator>, vis: Set<CellRef>, args: Seq<ExprModel>, i: int, acc: Number)
    requires
        0 <= i <= args.len(),
    ensures
        ({
            let r = sum_from(cells, ops, vis, args, i, acc);
            &&& (numbers_from(cells, ops, vis, args, i) ==> r != ValueModel::Error(ErrorCode::Arg))
            &&& (!numbers_from(cells, ops, vis, args, i) ==> (r == ValueModel::Error(ErrorCode::Arg) || r
                == ValueModel::Error(ErrorCode::Num)))
            &&& (r is Number || r == ValueModel::Error(ErrorCode::Arg) || r == ValueModel::Error(ErrorCode::Num))
        }),
    decreases args.len() - i,
{
    if i < args.len() {
        let r = sum_from(cells, ops, vis, args, i, acc);
        assert(numbers_from(cells, ops, vis, args, i) <==> ((match args[i] {
            ExprModel::Range(a, b) => forall|j: int|
                0 <= j < range_spec(a, b).len() ==> (#[trigger] value_at(cells, ops, vis, range_spec(a, b)[j])) is Number,
            e => eval(cells, ops, vis, e) is Number,
        }) && numbers_from(cells, ops, vis, args, i + 1))) by {
            if numbers_from(cells, ops, vis, args, i + 1) && (match args[i] {
                ExprModel::Range(a, b) => forall|j: int|
                    0 <= j < range_spec(a, b).len() ==> (#[trigger] value_at(cells, ops, vis, range_spec(a, b)[j])) is Number,
                e => eval(cells, ops, vis, e) is Number,
            }) {
                assert forall|k: int| i <= k < args.len() implies match #[trigger] args[k] {
                    ExprModel::Range(a, b) => forall|j: int|
                        0 <= j < range_spec(a, b).len() ==> (#[trigger] value_at(cells, ops, vis, range_spec(a, b)[j])) is Number,
                    e => eval(cells, ops, vis, e) is Number,
                } by {
                    if k > i {
                        assert(i + 1 <= k < args.len());
                    }
                }
            }
        }
        match args[i] {
            ExprModel::Range(a, b) => {
                let ps = range_spec(a, b);
                lemma_sum_cells_shape(cells, ops, vis, ps, 0, acc);
                let inner = sum_cells(cells, ops, vis, ps, 0, acc);
                if !(forall|j: int| 0 <= j < ps.len() ==> (#[trigger] value_at(cells, ops, vis, ps[j])) is Number) {
                    let j = choose|j: int| !(0 <= j < ps.len() ==> (#[trigger] value_at(cells, ops, vis, ps[j])) is Number);
                    assert(0 <= j < ps.len() && !(value_at(cells, ops, vis, ps[j]) is Number));
                }
                match inner {
                    ValueModel::Number(t) => lemma_sum_from_shape(cells, ops, vis, args, i + 1, t),
                    _ => {},
                }
            },
            _ => {
                match eval(cells, ops, vis, args[i]) {
                    ValueModel::Number(n) => match number_sum(acc, n) {
                        Some(t) => lemma_sum_from_shape(cells, ops, vis, args, i + 1, t),
                        None => {},
                    },
                    _ => {},
                }
            },
        }
    }
}

/// SUM gives ARG? only where some argument, or some cell of a range argument, is not a
/// number; and where one is not, SUM gives an error: ARG?, or NUM! where the numbers
/// before it already summed beyond the range of numbers.
pub proof fn lemma_sum_non_number(cells: Seq<Cell>, ops: Seq<Operator>, vis: Set<CellRef>, args: Seq<ExprModel>)
    requires
        ops.contains(Operator::Sum),
    ensures
        ({
            let r = call_value(cells, ops, vis, operator_name(Operator::Sum), args);
            &&& (r == ValueModel::Error(ErrorCode::Arg) ==> !numbers_from(cells, ops, vis, args, 0))
            &&& (!numbers_from(cells, ops, vis, args, 0) ==> (r == ValueModel::Error(ErrorCode::Arg) || r
                == ValueModel::Error(ErrorCode::Num)))
        }),
{
    assert(named(operator_name(Operator::Sum)) == Some(Operator::Sum));
    lemma_sum_from_shape(cells, ops, vis, args, 0, Number::Fixed(0));
}

/// How many of the cells `ps` from `j` on have a number for their value.
pub open spec fn numbers_among(cells: Seq<Cell>, ops: Seq<Operator>, vis: Set<CellRef>, ps: Seq<CellRef>, j: int) -> nat
    decreases ps.len() - j,
{
    if j < 0 || j >= ps.len() {
        0
    } else {
        (if value_at(cells, ops, vis, ps[j]) is Number {
            1nat
        } else {
            0nat
        }) + numbers_among(cells, ops, vis, ps, j + 1)
    }
}

proof fn lemma_scale_steps(c: nat, rest: nat)
    ensures
        c * SCALE + SCALE == (c + 1) * SCALE,
        (c + rest) * SCALE <= (c + 1 + rest) * SCALE,
        (c + 1) * SCALE <= (c + 1 + rest) * SCALE,
{
    assert(c * SCALE + SCALE == (c + 1) * SCALE) by (nonlinear_arith);
    assert((c + rest) * SCALE <= (c + 1 + rest) * SCALE) by (nonlinear_arith);
    assert((c + 1) * SCALE <= (c + 1 + rest) * SCALE) by (nonlinear_arith);
}

#[verifier::rlimit(100)]
proof fn lemma_count_cells(cells: Seq<Cell>, ops: Seq<Operator>, vis: Set<CellRef>, ps: Seq<CellRef>, j: int, c: nat)
    requires
        0 <= j <= ps.len(),
        (c + ps.len() - j) * SCALE <= i128::MAX,
    ensures
        numbers_among(cells, ops, vis, ps, j) <= ps.len() - j,
        count_cells(cells, ops, vis, ps, j, Number::Fixed((c * SCALE) as i128)) == ValueModel::Number(
            Number::Fixed(((c + numbers_among(cells, ops, vis, ps, j)) * SCALE) as i128),
        ),
    decreases ps.len() - j,
{
    if j < ps.len() {
        let v = value_at(cells, ops, vis, ps[j]);
        let rest = (ps.len() - j - 1) as nat;
        assert(c + 1 + rest == c + ps.len() - j);
        lemma_scale_steps(c, rest);
        let acc = Number::Fixed((c * SCALE) as i128);
        if v is Number {
            lemma_count_cells(cells, ops, vis, ps, j + 1, c + 1);
            assert(number_sum(acc, Number::Fixed(SCALE)) == Some(Number::Fixed(((c + 1) * SCALE) as i128)));
            assert(count_cells(cells, ops, vis, ps, j, acc) == count_cells(
                cells,
                ops,
                vis,
                ps,
                j + 1,
                Number::Fixed(((c + 1) * SCALE) as i128),
            ));
            assert(numbers_among(cells, ops, vis, ps, j) == 1 + numbers_among(cells, ops, vis, ps, j + 1));
        } else {
            lemma_count_cells(cells, ops, vis, ps, j + 1, c);
            assert(count_cells(cells, ops, vis, ps, j, acc) == count_cells(cells, ops, vis, ps, j + 1, acc));
            assert(numbers_among(cells, ops, vis, ps, j) == numbers_among(cells, ops, vis, ps, j + 1));
        }
    }
}

/// Over a range that holds a cell whose value is not a number, SUM gives an error
/// (ARG?, or NUM! where the numbers before it already summed beyond the range of
/// numbers) and AVERAGE gives ARG?; COUNT gives the number of cells whose value is
/// a number, without error.
pub proof fn lemma_range_with_non_number(
    cells: Seq<Cell>,
    ops: Seq<Operator>,
    vis: Set<CellRef>,
    a: CellRef,
    b: CellRef,
    j: int,
)
    requires
        0 <= j < range_spec(a, b).len(),
        !(value_at(cells, ops, vis, range_spec(a, b)[j]) is Number),
        range_spec(a, b).len() * SCALE <= i128::MAX,
    ensures
        ({
            let args = seq![ExprModel::Range(a, b)];
            &&& ops.contains(Operator::Sum) ==> {
                ||| call_value(cells, ops, vis, operator_name(Operator::Sum), args) == ValueModel::Error(ErrorCode::Arg)
                ||| call_value(cells, ops, vis, operator_name(Operator::Sum), args) == ValueModel::Error(ErrorCode::Num)
            }
            &&& ops.contains(Operator::Average) ==> call_value(cells, ops, vis, operator_name(Operator::Average), args)
                == ValueModel::Error(ErrorCode::Arg)
            &&& ops.contains(Operator::Count) ==> call_value(cells, ops, vis, operator_name(Operator::Count), args)
                == ValueModel::Number(
                Number::Fixed((numbers_among(cells, ops, vis, range_spec(a, b), 0) * SCALE) as i128),
            )
        }),
{
    let ps = range_spec(a, b);
    let args = seq![ExprModel::Range(a, b)];
    lemma_sum_cells_meets_non_number(cells, ops, vis, ps, 0, j, Number::Fixed(0));
    assert(operator_name(Operator::Count) != operator_name(Operator::Sum));
    assert(operator_name(Operator::Average) != operator_name(Operator::Sum));
    assert(operator_name(Operator::Average) != operator_name(Operator::Count));
    assert(named(operator_name(Operator::Sum)) == Some(Operator::Sum));
    assert(named(operator_name(Operator::Count)) == Some(Operator::Count));
    assert(named(operator_name(Operator::Average)) == Some(Operator::Average));
    lemma_count_cells(cells, ops, vis, ps, 0, 0);
    assert(0nat * SCALE == 0);
    let counted = count_cells(cells, ops, vis, ps, 0, Number::Fixed(0));
    assert(counted is Number);
    assert(count_from(cells, ops, vis, args, 1, counted->Number_0) == counted);
    assert(count_from(cells, ops, vis, args, 0, Number::Fixed(0)) == counted);
    assert(sum_from(cells, ops, vis, args, 0, Number::Fixed(0)) == sum_cells(cells, ops, vis, ps, 0, Number::Fixed(0)));
}

/// The models of a list of argument expressions.
pub open spec fn args_model(args: &Vec<Expression>) -> Seq<ExprModel> {
    args_view(args@)
}

/// The cells of a sheet stand in strictly ascending order of position.
pub open spec fn sorted_cells(s: Seq<Cell>) -> bool {
    forall|i: int, j: int| 0 <= i < j < s.len() ==> ref_lt(#[trigger] s[i].position, #[trigger] s[j].position)
}

/// Where a cell at `p` goes among the first `n` cells of `s`: just after the last
/// one whose position comes before `p`.
pub open spec fn insert_at(s: Seq<Cell>, p: CellRef, n: int) -> int
    decreases n,
{
    if n <= 0 {
        0
    } else if ref_lt(s[n - 1].position, p) {
        n
    } else {
        insert_at(s, p, n - 1)
    }
}

/// The sheet `s` with `c` added: it takes the place of a cell at the same position.
pub open spec fn sheet_insert(s: Seq<Cell>, c: Cell) -> Seq<Cell> {
    let k = insert_at(s, c.position, s.len() as int);
    if k < s.len() && s[k].position == c.position {
        s.update(k, c)
    } else {
        s.insert(k, c)
    }
}

/// The sheet that holds `cells`, added in order.
pub open spec fn sheet_from(cells: Seq<Cell>) -> Seq<Cell>
    decreases cells.len(),
{
    if cells.len() == 0 {
        Seq::empty()
    } else {
        sheet_insert(sheet_from(cells.drop_last()), cells.last())
    }
}

/// How many times each position of `sheet_insert(s, c)` was added, given the
/// counts `counts` of `s`.
pub open spec fn counts_insert(s: Seq<Cell>, counts: Seq<nat>, c: Cell) -> Seq<nat> {
    let k = insert_at(s, c.position, s.len() as int);
    if k < s.len() && s[k].position == c.position {
        counts.update(k, counts[k] + 1)
    } else {
        counts.insert(k, 1)
    }
}

/// How many times each position of `sheet_from(cells)` was added.
pub open spec fn counts_from(cells: Seq<Cell>) -> Seq<nat>
    decreases cells.len(),
{
    if cells.len() == 0 {
        Seq::empty()
    } else {
        counts_insert(sheet_from(cells.drop_last()), counts_from(cells.drop_last()), cells.last())
    }
}

/// The order of emission: each cell of the sheet, in order, as many times as its
/// position was added.
pub open spec fn expand(sheet: Seq<Cell>, counts: Seq<nat>) -> Seq<Cell>
    decreases sheet.len(),
{
    if sheet.len() == 0 || counts.len() == 0 {
        Seq::empty()
    } else {
        expand(sheet.drop_last(), counts.drop_last()) + Seq::new(counts.last(), |j: int| sheet.last())
    }
}

/// `o` is the cell `c` of `sheet` as it is emitted.
pub open spec fn emitted_as(o: Cell, c: Cell, sheet: Seq<Cell>, ops: Seq<Operator>) -> bool {
    &&& o.position == c.position
    &&& o.delimiter == c.delimiter
    &&& o.bytes() == computed_bytes(sheet, ops, c)
}

/// The text that a cell is emitted with: the shown value of its formula, or its own text.
pub open spec fn computed_bytes(cells: Seq<Cell>, ops: Seq<Operator>, c: Cell) -> Seq<u8> {
    match formula_of(c.bytes()) {
        Some(text) => display_bytes(eval(cells, ops, Set::empty(), parse_spec(text))),
        None => c.bytes(),
    }
}

proof fn lemma_insert_at(s: Seq<Cell>, p: CellRef, n: int)
    requires
        0 <= n <= s.len(),
    ensures
        0 <= insert_at(s, p, n) <= n,
        forall|j: int| insert_at(s, p, n) <= j < n ==> !ref_lt(#[trigger] s[j].position, p),
        insert_at(s, p, n) > 0 ==> ref_lt(s[insert_at(s, p, n) - 1].position, p),
    decreases n,
{
    if n > 0 && !ref_lt(s[n - 1].position, p) {
        lemma_insert_at(s, p, n - 1);
    }
}

proof fn lemma_sheet_insert_sorted(s: Seq<Cell>, c: Cell)
    requires
        sorted_cells(s),
    ensures
        sorted_cells(sheet_insert(s, c)),
{
    let p = c.position;
    let k = insert_at(s, p, s.len() as int);
    lemma_insert_at(s, p, s.len() as int);
    assert forall|j: int| 0 <= j < k implies ref_lt(#[trigger] s[j].position, p) by {
        if j < k - 1 {
            assert(ref_lt(s[j].position, s[k - 1].position));
        }
    }
    let r = sheet_insert(s, c);
    if k < s.len() && s[k].position == p {
        assert forall|i: int, j: int| 0 <= i < j < r.len() implies ref_lt(#[trigger] r[i].position, #[trigger] r[j].position) by {
            if i == k {
                assert(ref_lt(s[k].position, s[j].position));
            } else if j == k {
                assert(ref_lt(s[i].position, s[k].position));
            }
        }
    } else {
        assert forall|i: int, j: int| 0 <= i < j < r.len() implies ref_lt(#[trigger] r[i].position, #[trigger] r[j].position) by {
            if i == k {
                assert(!ref_lt(s[j - 1].position, p));
                if j - 1 > k {
                    assert(ref_lt(s[k].position, s[j - 1].position));
                }
            } else if j == k {
            } else if i > k {
                assert(ref_lt(s[i - 1].position, s[j - 1].position));
            } else if j > k {
                assert(ref_lt(s[i].position, s[j - 1].position));
            } else {
                assert(ref_lt(s[i].position, s[j].position));
            }
        }
    }
}

/// The sheet of loaded cells, the registered operators, and the evaluator over them.
pub struct CSVEngine {
    cells: Vec<Cell>,
    counts: Vec<usize>,
    operators: Vec<Operator>,
}

fn contains_ref(vis: &Vec<CellRef>, p: CellRef) -> (r: bool)
    ensures
        r == vis@.to_set().contains(p),
{
    let mut k: usize = 0;
    while k < vis.len()
        invariant
            k <= vis.len(),
            forall|m: int| 0 <= m < k ==> vis@[m] != p,
        decreases vis.len() - k,
    {
        if vis[k] == p {
            assert(vis@.contains(p));
            return true;
        }
        k = k + 1;
    }
    false
}

fn with_ref(vis: &Vec<CellRef>, p: CellRef) -> (r: Vec<CellRef>)
    ensures
        r@.to_set() == vis@.to_set().insert(p),
{
    let mut out: Vec<CellRef> = Vec::new();
    let mut k: usize = 0;
    while k < vis.len()
        invariant
            k <= vis.len(),
            out@ == vis@.subrange(0, k as int),
        decreases vis.len() - k,
    {
        out.push(vis[k]);
        k = k + 1;
        assert(out@ =~= vis@.subrange(0, k as int));
    }
    assert(out@ =~= vis@);
    out.push(p);
    assert(out@.to_set() =~= vis@.to_set().insert(p));
    out
}

fn bytes_equal(a: &[u8], b: &[u8]) -> (r: bool)
    ensures
        r == (a@ == b@),
{
    if a.len() != b.len() {
        return false;
    }
    let mut k: usize = 0;
    while k < a.len()
        invariant
            k <= a.len() == b.len(),
            forall|m: int| 0 <= m < k ==> a@[m] == b@[m],
        decreases a.len() - k,
    {
        if a[k] != b[k] {
            return false;
        }
        k = k + 1;
    }
    assert(a@ =~= b@);
    true
}

/// The value of a cell's text `text` that holds no formula, given that text without
/// surrounding white space and in upper case.
pub fn classify(trimmed_text: &str, upper_text: &str, text: &String) -> (r: Value)
    ensures
        r@ == classify_spec(trimmed_text@, upper_text@, text@),
{
    match parse_number(trimmed_text.as_bytes()) {
        Reading::Number(n) => Value::Number(n),
        Reading::TooLarge => Value::Error(ErrorCode::Num),
        Reading::NotNumber => {
            let t: [u8; 4] = [84, 82, 85, 69];
            let f: [u8; 5] = [70, 65, 76, 83, 69];
            assert(t@ =~= seq![84u8, 82u8, 85u8, 69u8]);
            assert(f@ =~= seq![70u8, 65u8, 76u8, 83u8, 69u8]);
            if bytes_equal(upper_text.as_bytes(), &t) {
                Value::Bool(true)
            } else if bytes_equal(upper_text.as_bytes(), &f) {
                Value::Bool(false)
            } else {
                Value::Text(text.clone())
            }
        },
    }
}

/// The value of a cell's text that holds no formula.
fn literal_of(text: &String) -> (r: Value)
    ensures
        r@ == literal_value(text@),
{
    let upper_text = uppercase(text.as_str());
    classify(trim_text(text.as_str()), upper_text.as_str(), text)
}

impl CSVEngine {
    /// The loaded cells, in ascending order of position.
    pub closed spec fn sheet(&self) -> Seq<Cell> {
        self.cells@
    }

    /// The registered operators.
    pub closed spec fn ops(&self) -> Seq<Operator> {
        self.operators@
    }

    /// How many times each position was added.
    pub closed spec fn counts(&self) -> Seq<nat> {
        Seq::new(self.counts.len() as nat, |i: int| self.counts@[i] as nat)
    }

    pub closed spec fn wf(&self) -> bool {
        &&& sorted_cells(self.cells@)
        &&& self.counts.len() == self.cells.len()
    }

    /// A sheet that holds `cells`; a cell takes the place of an earlier one at the
    /// same position. No operator is registered yet.
    pub fn new(cells: Vec<Cell>) -> (r: Self)
        ensures
            r.wf(),
            r.sheet() == sheet_from(cells@),
            r.counts() == counts_from(cells@),
            r.ops() == Seq::<Operator>::empty(),
    {
        let mut engine = CSVEngine { cells: Vec::new(), counts: Vec::new(), operators: Vec::new() };
        assert(engine.counts() =~= Seq::<nat>::empty());
        let mut i: usize = 0;
        while i < cells.len()
            invariant
                i <= cells.len(),
                engine.wf(),
                engine.ops() == Seq::<Operator>::empty(),
                engine.sheet() == sheet_from(cells@.subrange(0, i as int)),
                engine.counts() == counts_from(cells@.subrange(0, i as int)),
                forall|k: int| 0 <= k < engine.counts.len() ==> #[trigger] engine.counts@[k] <= i,
            decreases cells.len() - i,
        {
            let c = copy_cell(&cells[i]);
            engine.add_cell(c, Ghost(i as int));
            i = i + 1;
            assert(cells@.subrange(0, i as int).drop_last() =~= cells@.subrange(0, i - 1));
        }
        assert(cells@.subrange(0, i as int) =~= cells@);
        engine
    }

    fn add_cell(&mut self, cell: Cell, bound: Ghost<int>)
        requires
            old(self).wf(),
            0 <= bound@ < usize::MAX,
            forall|k: int| 0 <= k < old(self).counts.len() ==> #[trigger] old(self).counts@[k] <= bound@,
        ensures
            final(self).wf(),
            final(self).sheet() == sheet_insert(old(self).sheet(), cell),
            final(self).counts() == counts_insert(old(self).sheet(), old(self).counts(), cell),
            final(self).ops() == old(self).ops(),
            forall|k: int| 0 <= k < final(self).counts.len() ==> #[trigger] final(self).counts@[k] <= bound@ + 1,
    {
        let ghost s = self.cells@;
        let p = cell.position;
        let mut k: usize = self.cells.len();
        while k > 0 && !lt_ref(self.cells[k - 1].position, p)
            invariant
                k <= self.cells.len(),
                s == self.cells@,
                self.counts@ == old(self).counts@,
                insert_at(s, p, s.len() as int) == insert_at(s, p, k as int),
            decreases k,
        {
            k = k - 1;
        }
        proof {
            lemma_sheet_insert_sorted(s, cell);
        }
        let ghost counts = self.counts();
        if k < self.cells.len() && self.cells[k].position == p {
            self.cells.set(k, cell);
            let c = self.counts[k];
            assert(c <= bound@);
            self.counts.set(k, c + 1);
            assert(self.counts() =~= counts.update(k as int, counts[k as int] + 1));
        } else {
            self.cells.insert(k, cell);
            let ghost old_counts = self.counts@;
            self.counts.insert(k, 1);
            assert(self.counts() =~= counts.insert(k as int, 1));
            assert forall|m: int| 0 <= m < self.counts.len() implies #[trigger] self.counts@[m] <= bound@ + 1 by {
                if m < k {
                    assert(self.counts@[m] == old_counts[m]);
                    assert(old(self).counts@[m] <= bound@);
                } else if m > k {
                    assert(self.counts@[m] == old_counts[m - 1]);
                    assert(old(self).counts@[m - 1] <= bound@);
                }
            }
        }
    }

    /// Registers an operator under its name; registering one twice changes nothing.
    pub fn register_operator(&mut self, op: Operator)
        requires
            old(self).wf(),
        ensures
            final(self).wf(),
            final(self).sheet() == old(self).sheet(),
            final(self).counts() == old(self).counts(),
            final(self).ops() == if old(self).ops().contains(op) {
                old(self).ops()
            } else {
                old(self).ops().push(op)
            },
    {
        let mut k: usize = 0;
        let mut found = false;
        while k < self.operators.len() && !found
            invariant
                k <= self.operators.len(),
                found ==> self.operators@.contains(op),
                !found ==> forall|m: int| 0 <= m < k ==> self.operators@[m] != op,
            decreases self.operators.len() - k + if found { 0int } else { 1int },
        {
            if self.operators[k] == op {
                assert(self.operators@[k as int] == op);
                found = true;
            } else {
                k = k + 1;
            }
        }
        if found {
            return;
        }
        self.operators.push(op);
    }
}

impl CSVEngine {
    /// The index of the cell at `p`, by binary search over the sorted sheet.
    fn find(&self, p: CellRef) -> (r: Option<usize>)
        requires
            self.wf(),
        ensures
            match r {
                None => first_index(self.cells@, p, 0) == -1,
                Some(k) => k == first_index(self.cells@, p, 0) && k < self.cells.len(),
            },
    {
        let mut lo: usize = 0;
        let mut hi: usize = self.cells.len();
        while lo < hi
            invariant
                lo <= hi <= self.cells.len(),
                self.wf(),
                forall|k: int| 0 <= k < lo ==> ref_lt(#[trigger] self.cells@[k].position, p),
                forall|k: int| hi <= k < self.cells.len() ==> ref_lt(p, #[trigger] self.cells@[k].position),
            decreases hi - lo,
        {
            let mid = lo + (hi - lo) / 2;
            let q = self.cells[mid].position;
            if q == p {
                proof {
                    lemma_sorted_first_index(self.cells@, p, mid as int);
                }
                return Some(mid);
            } else if lt_ref(q, p) {
                proof {
                    assert forall|k: int| 0 <= k < mid + 1 implies ref_lt(#[trigger] self.cells@[k].position, p) by {
                        if k < mid {
                            assert(ref_lt(self.cells@[k].position, self.cells@[mid as int].position));
                        }
                    }
                }
                lo = mid + 1;
            } else {
                proof {
                    assert forall|k: int| mid <= k < self.cells.len() implies ref_lt(p, #[trigger] self.cells@[k].position) by {
                        if k > mid {
                            assert(ref_lt(self.cells@[mid as int].position, self.cells@[k].position));
                        }
                    }
                }
                hi = mid;
            }
        }
        proof {
            lemma_first_index_absent(self.cells@, p, 0);
        }
        None
    }

    fn eval_in(&self, e: &Expression, vis: &Vec<CellRef>) -> (r: Value)
        requires
            self.wf(),
        ensures
            r@ == eval(self.cells@, self.operators@, vis@.to_set(), e@),
        decreases unvisited(self.cells@, vis@.to_set()), expr_size(e@), 0nat, 0nat,
    {
        match e {
            Expression::Call(name, args) => {
                self.call_in(name, args, vis)
            },
            Expression::Reference(p) => self.value_at_in(*p, vis),
            Expression::Range(_, _) => Value::Error(ErrorCode::Ref),
            Expression::Literal(v) => v.duplicate(),
        }
    }

    fn value_at_in(&self, p: CellRef, vis: &Vec<CellRef>) -> (r: Value)
        requires
            self.wf(),
        ensures
            r@ == value_at(self.cells@, self.operators@, vis@.to_set(), p),
        decreases unvisited(self.cells@, vis@.to_set()), 0nat, 0nat, 0nat,
    {
        if contains_ref(vis, p) {
            return Value::Error(ErrorCode::Circular);
        }
        match self.find(p) {
            None => Value::Number(Number::Fixed(0)),
            Some(k) => {
                let text = &self.cells[k].content;
                let bytes = text.as_str().as_bytes();
                if bytes.len() > 0 && bytes[0] == 61 {
                    let expr = parse(vstd::slice::slice_subrange(bytes, 1, bytes.len()));
                    let inner = with_ref(vis, p);
                    proof {
                        lemma_first_index(self.cells@, p, 0);
                        lemma_unvisited_shrinks(self.cells@, vis@.to_set(), p, k as int);
                    }
                    self.eval_in(&expr, &inner)
                } else {
                    literal_of(text)
                }
            },
        }
    }

    fn call_in(&self, name: &Vec<u8>, args: &Vec<Expression>, vis: &Vec<CellRef>) -> (r: Value)
        requires
            self.wf(),
        ensures
            r@ == call_value(self.cells@, self.operators@, vis@.to_set(), name@, args_model(args)),
        decreases unvisited(self.cells@, vis@.to_set()), args_size(args_model(args)), 3nat, 0nat,
    {
        match operator_named(name.as_slice()) {
            None => Value::Error(ErrorCode::Name),
            Some(op) => {
                if !self.has_operator(op) {
                    return Value::Error(ErrorCode::Name);
                }
                match op {
                    Operator::Sum => self.sum_in(args, vis),
                    Operator::Count => self.count_in(args, vis),
                    Operator::Average => self.average_in(args, vis),
                }
            },
        }
    }

    fn has_operator(&self, op: Operator) -> (r: bool)
        ensures
            r == self.operators@.contains(op),
    {
        let mut k: usize = 0;
        while k < self.operators.len()
            invariant
                k <= self.operators.len(),
                forall|m: int| 0 <= m < k ==> self.operators@[m] != op,
            decreases self.operators.len() - k,
        {
            if self.operators[k] == op {
                assert(self.operators@[k as int] == op);
                return true;
            }
            k = k + 1;
        }
        false
    }

    fn average_in(&self, args: &Vec<Expression>, vis: &Vec<CellRef>) -> (r: Value)
        requires
            self.wf(),
        ensures
            r@ == average_value(self.cells@, self.operators@, vis@.to_set(), args_model(args)),
        decreases unvisited(self.cells@, vis@.to_set()), args_size(args_model(args)), 2nat, 0nat,
    {
        let total = if self.has_operator(Operator::Sum) {
            self.sum_in(args, vis)
        } else {
            Value::Error(ErrorCode::Name)
        };
        let count = if self.has_operator(Operator::Count) {
            self.count_in(args, vis)
        } else {
            Value::Error(ErrorCode::Name)
        };
        match (total, count) {
            (Value::Number(s), Value::Number(c)) => Value::Number(s.divide_by_count(c)),
            _ => Value::Error(ErrorCode::Arg),
        }
    }

    fn sum_in(&self, args: &Vec<Expression>, vis: &Vec<CellRef>) -> (r: Value)
        requires
            self.wf(),
        ensures
            r@ == sum_from(self.cells@, self.operators@, vis@.to_set(), args_model(args), 0, Number::Fixed(0)),
        decreases unvisited(self.cells@, vis@.to_set()), args_size(args_model(args)), 1nat, 0nat,
    {
        let ghost cells = self.cells@;
        let ghost ops = self.operators@;
        let ghost v = vis@.to_set();
        let ghost m = args_model(args);
        let mut acc = Number::Fixed(0);
        let mut i: usize = 0;
        proof {
            lemma_args_view(args@);
        }
        while i < args.len()
            invariant
                i <= args.len(),
                self.wf(),
                cells == self.cells@,
                ops == self.operators@,
                v == vis@.to_set(),
                m == args_model(args),
                m.len() == args.len(),
                sum_from(cells, ops, v, m, 0, Number::Fixed(0)) == sum_from(cells, ops, v, m, i as int, acc),
            decreases args.len() - i,
        {
            proof {
                lemma_args_view(args@);
                lemma_arg_smaller(m, i as int);
            }
            assert(m[i as int] == args@[i as int]@);
            match &args[i] {
                Expression::Range(a, b) => {
                    let ps = CellRef::range(a, b);
                    let mut t = acc;
                    let mut j: usize = 0;
                    while j < ps.len()
                        invariant
                            j <= ps.len(),
                            self.wf(),
                            cells == self.cells@,
                            ops == self.operators@,
                            v == vis@.to_set(),
                            args_size(m) > 0,
                            i < args.len(),
                            m == args_model(args),
                            m.len() == args.len(),
                            m[i as int] == ExprModel::Range(*a, *b),
                            ps@ == range_spec(*a, *b),
                            sum_from(cells, ops, v, m, 0, Number::Fixed(0)) == sum_from(cells, ops, v, m, i as int, acc),
                            sum_cells(cells, ops, v, ps@, 0, acc) == sum_cells(cells, ops, v, ps@, j as int, t),
                        decreases ps.len() - j,
                    {
                        match self.value_at_in(ps[j], vis) {
                            Value::Number(n) => match t.add(n) {
                                Some(x) => {
                                    t = x;
                                },
                                None => {
                                    return Value::Error(ErrorCode::Num);
                                },
                            },
                            _ => {
                                return Value::Error(ErrorCode::Arg);
                            },
                        }
                        j = j + 1;
                    }
                    acc = t;
                },
                other => {
                    match self.eval_in(other, vis) {
                        Value::Number(n) => match acc.add(n) {
                            Some(x) => {
                                acc = x;
                            },
                            None => {
                                return Value::Error(ErrorCode::Num);
                            },
                        },
                        _ => {
                            return Value::Error(ErrorCode::Arg);
                        },
                    }
                },
            }
            i = i + 1;
        }
        Value::Number(acc)
    }

    fn count_in(&self, args: &Vec<Expression>, vis: &Vec<CellRef>) -> (r: Value)
        requires
            self.wf(),
        ensures
            r@ == count_from(self.cells@, self.operators@, vis@.to_set(), args_model(args), 0, Number::Fixed(0)),
        decreases unvisited(self.cells@, vis@.to_set()), args_size(args_model(args)), 1nat, 0nat,
    {
        let ghost cells = self.cells@;
        let ghost ops = self.operators@;
        let ghost v = vis@.to_set();
        let ghost m = args_model(args);
        let mut acc = Number::Fixed(0);
        let mut i: usize = 0;
        proof {
            lemma_args_view(args@);
        }
        while i < args.len()
            invariant
                i <= args.len(),
                self.wf(),
                cells == self.cells@,
                ops == self.operators@,
                v == vis@.to_set(),
                m == args_model(args),
                m.len() == args.len(),
                count_from(cells, ops, v, m, 0, Number::Fixed(0)) == count_from(cells, ops, v, m, i as int, acc),
            decreases args.len() - i,
        {
            proof {
                lemma_args_view(args@);
                lemma_arg_smaller(m, i as int);
            }
            assert(m[i as int] == args@[i as int]@);
            match &args[i] {
                Expression::Range(a, b) => {
                    let ps = CellRef::range(a, b);
                    let mut t = acc;
                    let mut j: usize = 0;
                    while j < ps.len()
                        invariant
                            j <= ps.len(),
                            self.wf(),
                            cells == self.cells@,
                            ops == self.operators@,
                            v == vis@.to_set(),
                            args_size(m) > 0,
                            i < args.len(),
                            m == args_model(args),
                            m.len() == args.len(),
                            m[i as int] == ExprModel::Range(*a, *b),
                            ps@ == range_spec(*a, *b),
                            count_from(cells, ops, v, m, 0, Number::Fixed(0)) == count_from(cells, ops, v, m, i as int, acc),
                            count_cells(cells, ops, v, ps@, 0, acc) == count_cells(cells, ops, v, ps@, j as int, t),
                        decreases ps.len() - j,
                    {
                        match self.value_at_in(ps[j], vis) {
                            Value::Number(_) => match t.add(Number::Fixed(SCALE)) {
                                Some(x) => {
                                    t = x;
                                },
                                None => {
                                    return Value::Error(ErrorCode::Num);
                                },
                            },
                            _ => {},
                        }
                        j = j + 1;
                    }
                    acc = t;
                },
                other => {
                    match self.eval_in(other, vis) {
                        Value::Number(_) => match acc.add(Number::Fixed(SCALE)) {
                            Some(x) => {
                                acc = x;
                            },
                            None => {
                                return Value::Error(ErrorCode::Num);
                            },
                        },
                        _ => {},
                    }
                },
            }
            i = i + 1;
        }
        Value::Number(acc)
    }
}

/// `out` holds the cells of `sheet` in ascending order of position, each as many
/// times as `counts` says and with its computed text.
pub open spec fn emits(out: Seq<Cell>, sheet: Seq<Cell>, counts: Seq<nat>, ops: Seq<Operator>) -> bool {
    &&& out.len() == expand(sheet, counts).len()
    &&& forall|i: int| 0 <= i < out.len() ==> emitted_as(#[trigger] out[i], expand(sheet, counts)[i], sheet, ops)
}

proof fn lemma_expand_step(sheet: Seq<Cell>, counts: Seq<nat>, k: int)
    requires
        0 <= k < sheet.len() == counts.len(),
    ensures
        expand(sheet.subrange(0, k + 1), counts.subrange(0, k + 1)) == expand(sheet.subrange(0, k), counts.subrange(0, k))
            + Seq::new(counts[k], |j: int| sheet[k]),
{
    assert(sheet.subrange(0, k + 1).drop_last() =~= sheet.subrange(0, k));
    assert(counts.subrange(0, k + 1).drop_last() =~= counts.subrange(0, k));
    assert(Seq::new(counts[k], |j: int| sheet[k]) =~= Seq::new(counts.subrange(0, k + 1).last(), |j: int| sheet.subrange(0, k + 1).last()));
}

impl CSVEngine {
    /// The value of the cell at `position`.
    pub fn value_at(&self, position: &CellRef) -> (r: Value)
        requires
            self.wf(),
        ensures
            r@ == value_at(self.sheet(), self.ops(), Set::empty(), *position),
    {
        let vis: Vec<CellRef> = Vec::new();
        assert(vis@.to_set() =~= Set::<CellRef>::empty());
        self.value_at_in(*position, &vis)
    }

    /// The value of an expression over this sheet.
    pub fn eval(&self, expr: &Expression) -> (r: Value)
        requires
            self.wf(),
        ensures
            r@ == eval(self.sheet(), self.ops(), Set::empty(), expr@),
    {
        let vis: Vec<CellRef> = Vec::new();
        assert(vis@.to_set() =~= Set::<CellRef>::empty());
        self.eval_in(expr, &vis)
    }

    /// The value of a call of the operator registered under `name`.
    pub fn call(&self, name: &Vec<u8>, arguments: &Vec<Expression>) -> (r: Value)
        requires
            self.wf(),
        ensures
            r@ == call_value(self.sheet(), self.ops(), Set::empty(), name@, args_view(arguments@)),
    {
        let vis: Vec<CellRef> = Vec::new();
        assert(vis@.to_set() =~= Set::<CellRef>::empty());
        self.call_in(name, arguments, &vis)
    }

    /// The cell as it is emitted: a formula is replaced by the text of its value.
    fn compute(&self, cell: &Cell) -> (r: Cell)
        requires
            self.wf(),
        ensures
            r.position == cell.position,
            r.delimiter == cell.delimiter,
            r.bytes() == computed_bytes(self.sheet(), self.ops(), *cell),
    {
        let bytes = cell.content.as_str().as_bytes();
        if bytes.len() > 0 && bytes[0] == 61 {
            let expr = parse(vstd::slice::slice_subrange(bytes, 1, bytes.len()));
            let value = self.eval(&expr);
            Cell { position: cell.position, delimiter: cell.delimiter, content: value.display() }
        } else {
            copy_cell(cell)
        }
    }

    /// Every cell in ascending order of position, once for each time its position
    /// was added, each with its computed text.
    pub fn computed_cells(&self) -> (r: Vec<Cell>)
        requires
            self.wf(),
        ensures
            emits(r@, self.sheet(), self.counts(), self.ops()),
    {
        let ghost sheet = self.cells@;
        let ghost counts = self.counts();
        let ghost ops = self.operators@;
        let mut out: Vec<Cell> = Vec::new();
        let mut k: usize = 0;
        assert(expand(sheet.subrange(0, 0), counts.subrange(0, 0)) =~= Seq::<Cell>::empty());
        while k < self.cells.len()
            invariant
                k <= self.cells.len(),
                self.wf(),
                sheet == self.cells@,
                counts == self.counts(),
                ops == self.operators@,
                out.len() == expand(sheet.subrange(0, k as int), counts.subrange(0, k as int)).len(),
                forall|i: int|
                    0 <= i < out.len() ==> emitted_as(
                        #[trigger] out@[i],
                        expand(sheet.subrange(0, k as int), counts.subrange(0, k as int))[i],
                        sheet,
                        ops,
                    ),
            decreases self.cells.len() - k,
        {
            let ghost before = expand(sheet.subrange(0, k as int), counts.subrange(0, k as int));
            proof {
                lemma_expand_step(sheet, counts, k as int);
            }
            let ghost after = expand(sheet.subrange(0, k + 1), counts.subrange(0, k + 1));
            let computed = self.compute(&self.cells[k]);
            let n = self.counts[k];
            let mut c: usize = 0;
            while c < n
                invariant
                    c <= n,
                    n == counts[k as int],
                    k < sheet.len(),
                    after == before + Seq::new(counts[k as int], |j: int| sheet[k as int]),
                    emitted_as(computed, sheet[k as int], sheet, ops),
                    out.len() == before.len() + c,
                    forall|i: int| 0 <= i < out.len() ==> emitted_as(#[trigger] out@[i], after[i], sheet, ops),
                decreases n - c,
            {
                out.push(copy_cell(&computed));
                c = c + 1;
            }
            k = k + 1;
        }
        assert(sheet.subrange(0, k as int) =~= sheet);
        assert(counts.subrange(0, k as int) =~= counts);
        out
    }
}

fn lt_ref(a: CellRef, b: CellRef) -> (r: bool)
    ensures
        r == ref_lt(a, b),
{
    a.row < b.row || (a.row == b.row && a.column < b.column)
}

/// A copy of a cell.
pub fn copy_cell(c: &Cell) -> (r: Cell)
    ensures
        r == *c,
{
    Cell { position: c.position, delimiter: c.delimiter, content: c.content.clone() }
}

} // verus!
