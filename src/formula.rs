//! Formula text: tokens, expression trees and the parser.
use vstd::prelude::*;
use crate::cell::{is_digit, is_upper, parse_ref, CellRef};
use crate::value::{ErrorCode, Value, ValueModel};

verus! {

broadcast use vstd::std_specs::vec::group_vec_axioms;

/// A parsed formula.
#[derive(Debug)]
pub enum Expression {
    /// A function name, upper-cased, and its arguments.
    Call(Vec<u8>, Vec<Expression>),
    Reference(CellRef),
    Range(CellRef, CellRef),
    Literal(Value),
}

/// An expression as the contracts see it.
pub enum ExprModel {
    Call(Seq<u8>, Seq<ExprModel>),
    Reference(CellRef),
    Range(CellRef, CellRef),
    Literal(ValueModel),
}

impl View for Expression {
    type V = ExprModel;

    open spec fn view(&self) -> ExprModel
        decreases self,
    {
        match self {
            Expression::Call(name, args) => ExprModel::Call(name@, args_view(args@)),
            Expression::Reference(r) => ExprModel::Reference(*r),
            Expression::Range(a, b) => ExprModel::Range(*a, *b),
            Expression::Literal(v) => ExprModel::Literal(v@),
        }
    }
}

/// The models of a list of expressions.
pub open spec fn args_view(args: Seq<Expression>) -> Seq<ExprModel>
    decreases args,
{
    if args.len() == 0 {
        Seq::empty()
    } else {
        args_view(args.drop_last()).push(args.last()@)
    }
}

pub proof fn lemma_args_view(args: Seq<Expression>)
    ensures
        args_view(args).len() == args.len(),
        forall|i: int| 0 <= i < args.len() ==> #[trigger] args_view(args)[i] == args[i]@,
    decreases args.len(),
{
    if args.len() == 0 {
        assert(args_view(args) == Seq::<ExprModel>::empty());
    } else {
        lemma_args_view(args.drop_last());
        let prev = args_view(args.drop_last());
        assert(args_view(args) == prev.push(args.last()@));
        assert forall|i: int| 0 <= i < args.len() implies #[trigger] args_view(args)[i] == args[i]@ by {
            if i < args.len() - 1 {
                assert(args_view(args)[i] == args_view(args.drop_last())[i]);
            }
        }
    }
}

/// A token of formula text.
#[derive(Clone, Copy, Debug, PartialEq, Eq, Structural)]
pub enum Token {
    Open,
    Close,
    Colon,
    Comma,
    /// A coordinate such as `B3` or `$B$3`.
    Reference(CellRef),
    /// A run of letters, by its byte span in the formula text.
    Identifier(usize, usize),
    /// A number, a boolean, or a byte that starts no token.
    Other,
}

/// The classes of bytes that tokens are made of.
#[derive(Clone, Copy)]
pub enum ByteClass {
    Upper,
    Alpha,
    Digit,
}

pub open spec fn in_class(c: ByteClass, b: u8) -> bool {
    match c {
        ByteClass::Upper => is_upper(b),
        ByteClass::Alpha => is_upper(b) || (97 <= b <= 122),
        ByteClass::Digit => is_digit(b),
    }
}

/// The length of the run of bytes of class `c` that starts at `i`.
pub open spec fn run(s: Seq<u8>, i: int, c: ByteClass) -> nat
    decreases s.len() - i,
{
    if 0 <= i < s.len() && in_class(c, s[i]) {
        1 + run(s, i + 1, c)
    } else {
        0
    }
}

/// 1 when a `$` stands at `i`, else 0.
pub open spec fn dollar(s: Seq<u8>, i: int) -> nat {
    if 0 <= i < s.len() && s[i] == 36 {
        1
    } else {
        0
    }
}

/// The length of the coordinate `$?[A-Z]+$?[0-9]+` that starts at `i`, or 0.
pub open spec fn ref_len(s: Seq<u8>, i: int) -> nat {
    let a = dollar(s, i);
    let u = run(s, i + a, ByteClass::Upper);
    let b = dollar(s, i + a + u);
    let d = run(s, i + a + u + b, ByteClass::Digit);
    if u > 0 && d > 0 {
        a + u + b + d
    } else {
        0
    }
}

/// The length of `TRUE` or `FALSE` when one starts at `i`, or 0.
pub open spec fn bool_len(s: Seq<u8>, i: int) -> nat {
    if 0 <= i && i + 4 <= s.len() && s.subrange(i, i + 4) == seq![84u8, 82u8, 85u8, 69u8] {
        4
    } else if 0 <= i && i + 5 <= s.len() && s.subrange(i, i + 5) == seq![70u8, 65u8, 76u8, 83u8, 69u8] {
        5
    } else {
        0
    }
}

/// The length of the number `[0-9]+\.[0-9]*` that starts at `i`, or 0.
pub open spec fn number_len(s: Seq<u8>, i: int) -> nat {
    let d = run(s, i, ByteClass::Digit);
    if d > 0 && i + d < s.len() && s[i + d] == 46 {
        d + 1 + run(s, i + d + 1, ByteClass::Digit)
    } else {
        0
    }
}

/// How many positions from `i` on are left before `len`.
pub open spec fn left(len: int, i: int) -> nat {
    if i < len {
        (len - i) as nat
    } else {
        0
    }
}

pub open spec fn is_space(b: u8) -> bool {
    b == 32 || b == 9 || b == 10 || b == 12
}

/// The tokens of `s` from byte `i` on. Blanks are skipped; at each position the
/// longest token is taken, and `TRUE` or `FALSE` wins over a name of equal length.
pub open spec fn lex(s: Seq<u8>, i: int) -> Seq<Token>
    decreases left(s.len() as int, i),
{
    if i < 0 || i >= s.len() {
        Seq::empty()
    } else {
        let b = s[i];
        if is_space(b) {
            lex(s, i + 1)
        } else if b == 40 {
            seq![Token::Open] + lex(s, i + 1)
        } else if b == 41 {
            seq![Token::Close] + lex(s, i + 1)
        } else if b == 58 {
            seq![Token::Colon] + lex(s, i + 1)
        } else if b == 44 {
            seq![Token::Comma] + lex(s, i + 1)
        } else {
            let r = ref_len(s, i);
            let a = run(s, i, ByteClass::Alpha);
            let t = bool_len(s, i);
            let n = number_len(s, i);
            if r > 0 {
                seq![Token::Reference(parse_ref(s.subrange(i, i + r)))] + lex(s, i + r)
            } else if t > 0 && t == a {
                seq![Token::Other] + lex(s, i + t)
            } else if a > 0 {
                seq![Token::Identifier(i as usize, (i + a) as usize)] + lex(s, i + a)
            } else if n > 0 {
                seq![Token::Other] + lex(s, i + n)
            } else {
                seq![Token::Other] + lex(s, i + 1)
            }
        }
    }
}

/// Every identifier of `toks` spans bytes of a text of length `len`.
pub open spec fn spans_within(toks: Seq<Token>, len: int) -> bool {
    forall|k: int|
        0 <= k < toks.len() ==> (#[trigger] toks[k] matches Token::Identifier(a, b) ==> a <= b <= len)
}

fn class_contains(c: ByteClass, b: u8) -> (r: bool)
    ensures
        r == in_class(c, b),
{
    match c {
        ByteClass::Upper => b >= 65 && b <= 90,
        ByteClass::Alpha => (b >= 65 && b <= 90) || (b >= 97 && b <= 122),
        ByteClass::Digit => b >= 48 && b <= 57,
    }
}

fn run_exec(s: &[u8], i: usize, c: ByteClass) -> (r: usize)
    requires
        i <= s.len(),
    ensures
        r == run(s@, i as int, c),
        i + r <= s.len(),
{
    let mut j: usize = i;
    while j < s.len() && class_contains(c, s[j])
        invariant
            i <= j <= s.len(),
            run(s@, i as int, c) == (j - i) + run(s@, j as int, c),
        decreases s.len() - j,
    {
        j = j + 1;
    }
    j - i
}

fn dollar_exec(s: &[u8], i: usize) -> (r: usize)
    requires
        i <= s.len(),
    ensures
        r == dollar(s@, i as int),
{
    if i < s.len() && s[i] == 36 {
        1
    } else {
        0
    }
}

fn ref_len_exec(s: &[u8], i: usize) -> (r: usize)
    requires
        i <= s.len(),
    ensures
        r == ref_len(s@, i as int),
        i + r <= s.len(),
{
    let a = dollar_exec(s, i);
    let u = run_exec(s, i + a, ByteClass::Upper);
    let b = dollar_exec(s, i + a + u);
    let d = run_exec(s, i + a + u + b, ByteClass::Digit);
    if u > 0 && d > 0 {
        a + u + b + d
    } else {
        0
    }
}

fn matches_at(s: &[u8], i: usize, word: &[u8]) -> (r: bool)
    requires
        i <= s.len(),
    ensures
        r == (i + word.len() <= s.len() && s@.subrange(i as int, i + word.len()) == word@),
{
    if word.len() > s.len() - i {
        return false;
    }
    let mut k: usize = 0;
    while k < word.len()
        invariant
            k <= word.len(),
            i + word.len() <= s.len(),
            forall|m: int| 0 <= m < k ==> s@[i + m] == word@[m],
        decreases word.len() - k,
    {
        if s[i + k] != word[k] {
            assert(s@.subrange(i as int, i + word.len())[k as int] != word@[k as int]);
            return false;
        }
        k = k + 1;
    }
    assert(s@.subrange(i as int, i + word.len()) =~= word@);
    true
}

fn bool_len_exec(s: &[u8], i: usize) -> (r: usize)
    requires
        i <= s.len(),
    ensures
        r == bool_len(s@, i as int),
{
    let t: [u8; 4] = [84, 82, 85, 69];
    let f: [u8; 5] = [70, 65, 76, 83, 69];
    if matches_at(s, i, &t) {
        assert(t@ =~= seq![84u8, 82u8, 85u8, 69u8]);
        4
    } else if matches_at(s, i, &f) {
        assert(t@ =~= seq![84u8, 82u8, 85u8, 69u8]);
        assert(f@ =~= seq![70u8, 65u8, 76u8, 83u8, 69u8]);
        5
    } else {
        assert(t@ =~= seq![84u8, 82u8, 85u8, 69u8]);
        assert(f@ =~= seq![70u8, 65u8, 76u8, 83u8, 69u8]);
        0
    }
}

fn number_len_exec(s: &[u8], i: usize) -> (r: usize)
    requires
        i <= s.len(),
    ensures
        r == number_len(s@, i as int),
        i + r <= s.len(),
{
    let d = run_exec(s, i, ByteClass::Digit);
    if d > 0 && i + d < s.len() && s[i + d] == 46 {
        let e = run_exec(s, i + d + 1, ByteClass::Digit);
        d + 1 + e
    } else {
        0
    }
}

/// The tokens of a formula's text.
pub fn tokenize(s: &[u8]) -> (toks: Vec<Token>)
    ensures
        toks@ == lex(s@, 0),
        spans_within(toks@, s@.len() as int),
{
    let mut toks: Vec<Token> = Vec::new();
    let mut i: usize = 0;
    while i < s.len()
        invariant
            i <= s.len(),
            lex(s@, 0) == toks@ + lex(s@, i as int),
            spans_within(toks@, s@.len() as int),
        decreases s.len() - i,
    {
        let b = s[i];
        let ghost before = toks@;
        if b == 32 || b == 9 || b == 10 || b == 12 {
            i = i + 1;
        } else if b == 40 || b == 41 || b == 58 || b == 44 {
            let t = if b == 40 {
                Token::Open
            } else if b == 41 {
                Token::Close
            } else if b == 58 {
                Token::Colon
            } else {
                Token::Comma
            };
            toks.push(t);
            i = i + 1;
            assert(toks@ + lex(s@, i as int) =~= before + (seq![t] + lex(s@, i as int)));
        } else {
            let r = ref_len_exec(s, i);
            let a = run_exec(s, i, ByteClass::Alpha);
            let t = bool_len_exec(s, i);
            let n = number_len_exec(s, i);
            let tok: Token;
            if r > 0 {
                let slice = vstd::slice::slice_subrange(s, i, i + r);
                tok = Token::Reference(CellRef::parse(slice));
                i = i + r;
            } else if t > 0 && t == a {
                tok = Token::Other;
                i = i + t;
            } else if a > 0 {
                tok = Token::Identifier(i, i + a);
                i = i + a;
            } else if n > 0 {
                tok = Token::Other;
                i = i + n;
            } else {
                tok = Token::Other;
                i = i + 1;
            }
            toks.push(tok);
            assert(toks@ + lex(s@, i as int) =~= before + (seq![tok] + lex(s@, i as int)));
        }
    }
    toks
}

/// `s` with its lower-case ASCII letters in upper case.
pub open spec fn upper_bytes(s: Seq<u8>) -> Seq<u8> {
    s.map_values(|b: u8| if 97 <= b <= 122 { (b - 32) as u8 } else { b })
}

/// The expression at token `i`, and the index of the first token after it.
pub open spec fn parse_expr(src: Seq<u8>, toks: Seq<Token>, i: int) -> (ExprModel, int)
    decreases left(toks.len() as int, i), 0int,
{
    if i < 0 || i >= toks.len() {
        (ExprModel::Literal(ValueModel::Error(ErrorCode::Eof)), i)
    } else {
        match toks[i] {
            Token::Identifier(a, b) => parse_call(
                src,
                toks,
                i + 1,
                upper_bytes(src.subrange(a as int, b as int)),
            ),
            Token::Reference(start) => parse_reference(toks, i + 1, start),
            _ => (ExprModel::Literal(ValueModel::Error(ErrorCode::Eof)), i + 1),
        }
    }
}

/// A reference, or a range when a colon and a second reference follow it.
pub open spec fn parse_reference(toks: Seq<Token>, i: int, start: CellRef) -> (ExprModel, int) {
    if 0 <= i < toks.len() && toks[i] == Token::Colon {
        if i + 1 < toks.len() && toks[i + 1] is Reference {
            (ExprModel::Range(start, toks[i + 1]->Reference_0), i + 2)
        } else {
            (ExprModel::Literal(ValueModel::Error(ErrorCode::Null)), i + 1)
        }
    } else {
        (ExprModel::Reference(start), i)
    }
}

/// A call of `name`, whose opening parenthesis is due at token `i`.
pub open spec fn parse_call(src: Seq<u8>, toks: Seq<Token>, i: int, name: Seq<u8>) -> (ExprModel, int)
    decreases left(toks.len() as int, i), 2int,
{
    if i < 0 || i >= toks.len() {
        (ExprModel::Literal(ValueModel::Error(ErrorCode::MissingOpen)), i)
    } else if toks[i] != Token::Open {
        (ExprModel::Literal(ValueModel::Error(ErrorCode::MissingOpen)), i + 1)
    } else {
        parse_args(src, toks, i + 1, name, Seq::empty())
    }
}

/// The rest of a call of `name` from token `i`, with the arguments `args` read so far.
/// Commas are skipped; a closing parenthesis ends the call.
pub open spec fn parse_args(
    src: Seq<u8>,
    toks: Seq<Token>,
    i: int,
    name: Seq<u8>,
    args: Seq<ExprModel>,
) -> (ExprModel, int)
    decreases left(toks.len() as int, i), 1int,
{
    if i < 0 || i >= toks.len() {
        (ExprModel::Literal(ValueModel::Error(ErrorCode::Eof)), i)
    } else if toks[i] == Token::Comma {
        parse_args(src, toks, i + 1, name, args)
    } else if toks[i] == Token::Close {
        (ExprModel::Call(name, args), i + 1)
    } else {
        let (e, j) = parse_expr(src, toks, i);
        if j > i {
            parse_args(src, toks, j, name, args.push(e))
        } else {
            (ExprModel::Literal(ValueModel::Error(ErrorCode::Eof)), toks.len() as int)
        }
    }
}

/// The expression that a formula's text (what follows its `=`) stands for.
pub open spec fn parse_spec(src: Seq<u8>) -> ExprModel {
    parse_expr(src, lex(src, 0), 0).0
}

fn upper_of(src: &[u8], a: usize, b: usize) -> (r: Vec<u8>)
    requires
        a <= b <= src.len(),
    ensures
        r@ == upper_bytes(src@.subrange(a as int, b as int)),
{
    let mut out: Vec<u8> = Vec::new();
    let mut k: usize = a;
    while k < b
        invariant
            a <= k <= b <= src.len(),
            out@ == upper_bytes(src@.subrange(a as int, k as int)),
        decreases b - k,
    {
        let c = src[k];
        out.push(if c >= 97 && c <= 122 { c - 32 } else { c });
        k = k + 1;
        assert(out@ =~= upper_bytes(src@.subrange(a as int, k as int)));
    }
    out
}

fn error_literal(e: ErrorCode) -> (r: Expression)
    ensures
        r@ == ExprModel::Literal(ValueModel::Error(e)),
{
    Expression::Literal(Value::Error(e))
}

fn parse_expr_exec(src: &[u8], toks: &Vec<Token>, i: usize) -> (r: (Expression, usize))
    requires
        i <= toks.len(),
        spans_within(toks@, src@.len() as int),
    ensures
        r.0@ == parse_expr(src@, toks@, i as int).0,
        r.1 == parse_expr(src@, toks@, i as int).1,
        r.1 <= toks.len(),
        i < toks.len() ==> r.1 > i,
    decreases toks.len() - i, 0int,
{
    if i >= toks.len() {
        return (error_literal(ErrorCode::Eof), i);
    }
    match toks[i] {
        Token::Identifier(a, b) => {
            assert(toks@[i as int] matches Token::Identifier(a, b) ==> a <= b <= src@.len());
            let name = upper_of(src, a, b);
            parse_call_exec(src, toks, i + 1, name)
        },
        Token::Reference(start) => {
            if i + 1 < toks.len() && toks[i + 1] == Token::Colon {
                if i + 2 < toks.len() {
                    match toks[i + 2] {
                        Token::Reference(end) => (Expression::Range(start, end), i + 3),
                        _ => (error_literal(ErrorCode::Null), i + 2),
                    }
                } else {
                    (error_literal(ErrorCode::Null), i + 2)
                }
            } else {
                (Expression::Reference(start), i + 1)
            }
        },
        _ => (error_literal(ErrorCode::Eof), i + 1),
    }
}

fn parse_call_exec(src: &[u8], toks: &Vec<Token>, i: usize, name: Vec<u8>) -> (r: (Expression, usize))
    requires
        1 <= i <= toks.len(),
        spans_within(toks@, src@.len() as int),
    ensures
        r.0@ == parse_call(src@, toks@, i as int, name@).0,
        r.1 == parse_call(src@, toks@, i as int, name@).1,
        r.1 <= toks.len(),
        r.1 >= i,
    decreases toks.len() - i, 2int,
{
    if i >= toks.len() {
        return (error_literal(ErrorCode::MissingOpen), i);
    }
    if toks[i] != Token::Open {
        return (error_literal(ErrorCode::MissingOpen), i + 1);
    }
    let mut args: Vec<Expression> = Vec::new();
    let ghost mut models: Seq<ExprModel> = Seq::empty();
    let mut k: usize = i + 1;
    while k < toks.len()
        invariant
            i < k <= toks.len(),
            spans_within(toks@, src@.len() as int),
            args.len() == models.len(),
            forall|m: int| 0 <= m < args.len() ==> (#[trigger] args@[m])@ == models[m],
            parse_call(src@, toks@, i as int, name@) == parse_args(src@, toks@, k as int, name@, models),
        decreases toks.len() - k,
    {
        if toks[k] == Token::Comma {
            k = k + 1;
        } else if toks[k] == Token::Close {
            let ghost final_models = models;
            proof {
                lemma_args_view(args@);
                assert(args_view(args@) =~= final_models);
            }
            let call = Expression::Call(name, args);
            return (call, k + 1);
        } else {
            let (e, j) = parse_expr_exec(src, toks, k);
            proof {
                models = models.push(e@);
            }
            args.push(e);
            k = j;
        }
    }
    (error_literal(ErrorCode::Eof), k)
}

/// Parses a formula's text (what follows its `=`). Malformed text gives an error
/// literal in place of the part that could not be read.
pub fn parse(src: &[u8]) -> (r: Expression)
    ensures
        r@ == parse_spec(src@),
{
    let toks = tokenize(src);
    let (e, _) = parse_expr_exec(src, &toks, 0);
    e
}

} // verus!
