//! The aggregate functions that formulas can call.
use vstd::prelude::*;

verus! {

/// Adds up its arguments; a range adds every cell in it.
pub struct Sum;

/// Counts the numbers among its arguments; a range counts every cell in it.
pub struct Count;

/// Divides what `SUM` gives by what `COUNT` gives, over the same arguments.
pub struct Average;

/// An aggregate function that an engine can register, known by its upper-case name.
#[derive(Clone, Copy, Debug, PartialEq, Eq, Structural)]
pub enum Operator {
    Sum,
    Count,
    Average,
}

/// The name under which an operator is called.
pub open spec fn operator_name(op: Operator) -> Seq<u8> {
    match op {
        Operator::Sum => seq![83u8, 85u8, 77u8],
        Operator::Count => seq![67u8, 79u8, 85u8, 78u8, 84u8],
        Operator::Average => seq![65u8, 86u8, 69u8, 82u8, 65u8, 71u8, 69u8],
    }
}

/// The operator that `name` names, registered or not.
pub open spec fn named(name: Seq<u8>) -> Option<Operator> {
    if name == operator_name(Operator::Sum) {
        Some(Operator::Sum)
    } else if name == operator_name(Operator::Count) {
        Some(Operator::Count)
    } else if name == operator_name(Operator::Average) {
        Some(Operator::Average)
    } else {
        None
    }
}

/// The operator registered under `name` among `ops`.
pub open spec fn lookup_operator(ops: Seq<Operator>, name: Seq<u8>) -> Option<Operator> {
    match named(name) {
        Some(op) => if ops.contains(op) {
            Some(op)
        } else {
            None
        },
        None => None,
    }
}

impl Sum {
    pub fn operator(&self) -> (r: Operator)
        ensures
            r == Operator::Sum,
    {
        Operator::Sum
    }
}

impl Count {
    pub fn operator(&self) -> (r: Operator)
        ensures
            r == Operator::Count,
    {
        Operator::Count
    }
}

impl Average {
    pub fn operator(&self) -> (r: Operator)
        ensures
            r == Operator::Average,
    {
        Operator::Average
    }
}

fn equals_word(name: &[u8], word: &[u8]) -> (r: bool)
    ensures
        r == (name@ == word@),
{
    if name.len() != word.len() {
        return false;
    }
    let mut k: usize = 0;
    while k < word.len()
        invariant
            k <= word.len() == name.len(),
            forall|m: int| 0 <= m < k ==> name@[m] == word@[m],
        decreases word.len() - k,
    {
        if name[k] != word[k] {
            return false;
        }
        k = k + 1;
    }
    assert(name@ =~= word@);
    true
}

/// The operator that `name` names, registered or not.
pub fn operator_named(name: &[u8]) -> (r: Option<Operator>)
    ensures
        r == named(name@),
{
    let sum: [u8; 3] = [83, 85, 77];
    let count: [u8; 5] = [67, 79, 85, 78, 84];
    let average: [u8; 7] = [65, 86, 69, 82, 65, 71, 69];
    assert(sum@ =~= operator_name(Operator::Sum));
    assert(count@ =~= operator_name(Operator::Count));
    assert(average@ =~= operator_name(Operator::Average));
    if equals_word(name, &sum) {
        Some(Operator::Sum)
    } else if equals_word(name, &count) {
        Some(Operator::Count)
    } else if equals_word(name, &average) {
        Some(Operator::Average)
    } else {
        None
    }
}

} // verus!
