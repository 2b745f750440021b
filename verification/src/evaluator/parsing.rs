//! Parsing of [expressions](super::Expr) and [assignments](super::Assignment)
//! from postfix notation: a left-to-right scan over the input that maintains
//! an explicit operand stack, with an exact error taxonomy.

use super::{copy_bytes, spec_render, Assignment, BinOp, Constant, Expr, ExprModel, Variable};
use crate::decimal::{dec_accepted, dec_val, is_ascii_digit, DecimalValue};
use vstd::prelude::*;
use vstd::slice::slice_subrange;

verus! {

/// The error kind for [`ExprParsingError`].
#[derive(Clone, Copy, Debug, PartialEq, Eq, Structural)]
pub enum ExprParsingErrorKind {
    /// An operator was encountered, but there were not enough operands on the
    /// stack.
    NotEnoughOperands,
    /// A variable was expected, but the identifier did not start with a `$`.
    IllegalVariableName,
    /// More than one expression preceded a `=`.
    MalformedAssignment,
    /// The tokenizer could not make sense of the input: a missing identifier,
    /// a missing `=`, or trailing input that is not an assignment.
    Syntax,
}

/// An error encountered while parsing expressions. It carries the remaining
/// input at the point of failure, for diagnostics.
#[derive(Clone, Copy, Debug, PartialEq, Eq)]
pub struct ExprParsingError<'a> {
    /// What went wrong.
    pub kind: ExprParsingErrorKind,
    /// The remaining input at the point of failure.
    pub input: &'a [u8],
}

/// Whether `b` is a space or a tab: the separators accepted between tokens.
pub open spec fn is_space(b: u8) -> bool {
    b == 32 || b == 9
}

/// Whether `b` is an ASCII alphanumeric character: a letter or a digit.
pub open spec fn is_alnum(b: u8) -> bool {
    is_ascii_digit(b) || (65 <= b && b <= 90) || (97 <= b && b <= 122)
}

/// The position of the first non-space character at or after `i`.
pub open spec fn skip_spaces(s: Seq<u8>, i: int) -> int
    decreases s.len() - i,
    when 0 <= i <= s.len()
{
    if i < s.len() && is_space(s[i]) {
        skip_spaces(s, i + 1)
    } else {
        i
    }
}

/// The position of the first non-alphanumeric character at or after `i`.
pub open spec fn alnum_end(s: Seq<u8>, i: int) -> int
    decreases s.len() - i,
    when 0 <= i <= s.len()
{
    if i < s.len() && is_alnum(s[i]) {
        alnum_end(s, i + 1)
    } else {
        i
    }
}

/// The position of the first non-digit character at or after `i`.
pub open spec fn digits_end(s: Seq<u8>, i: int) -> int
    decreases s.len() - i,
    when 0 <= i <= s.len()
{
    if i < s.len() && is_ascii_digit(s[i]) {
        digits_end(s, i + 1)
    } else {
        i
    }
}

/// `skip_spaces` stays inside the input, skips only spaces, and stops at the
/// first non-space.
pub proof fn lemma_skip_spaces_props(s: Seq<u8>, i: int)
    requires
        0 <= i <= s.len(),
    ensures
        i <= skip_spaces(s, i) <= s.len(),
        forall|k: int| i <= k < skip_spaces(s, i) ==> is_space(s[k]),
        skip_spaces(s, i) < s.len() ==> !is_space(s[skip_spaces(s, i)]),
    decreases s.len() - i,
{
    if i < s.len() && is_space(s[i]) {
        lemma_skip_spaces_props(s, i + 1);
    }
}

/// `alnum_end` stays inside the input, passes only alphanumeric characters,
/// and stops at the first other character.
pub proof fn lemma_alnum_end_props(s: Seq<u8>, i: int)
    requires
        0 <= i <= s.len(),
    ensures
        i <= alnum_end(s, i) <= s.len(),
        forall|k: int| i <= k < alnum_end(s, i) ==> is_alnum(s[k]),
        alnum_end(s, i) < s.len() ==> !is_alnum(s[alnum_end(s, i)]),
    decreases s.len() - i,
{
    if i < s.len() && is_alnum(s[i]) {
        lemma_alnum_end_props(s, i + 1);
    }
}

/// `digits_end` stays inside the input, passes only digits, and stops at the
/// first non-digit.
pub proof fn lemma_digits_end_props(s: Seq<u8>, i: int)
    requires
        0 <= i <= s.len(),
    ensures
        i <= digits_end(s, i) <= s.len(),
        forall|k: int| i <= k < digits_end(s, i) ==> is_ascii_digit(s[k]),
        digits_end(s, i) < s.len() ==> !is_ascii_digit(s[digits_end(s, i)]),
    decreases s.len() - i,
{
    if i < s.len() && is_ascii_digit(s[i]) {
        lemma_digits_end_props(s, i + 1);
    }
}

/// What parsing a number token at `i` yields: an optional `-`, then a maximal
/// run of digits, read as a decimal literal of type `T`; absence when no
/// digit follows or the literal does not fit in `T`.
pub open spec fn spec_number<T: DecimalValue>(s: Seq<u8>, i: int) -> Option<(int, T)> {
    let neg = i < s.len() && s[i] == 45;
    let j = if neg {
        i + 1
    } else {
        i
    };
    let k = digits_end(s, j);
    if k == j {
        None
    } else {
        let m = dec_val(s.subrange(j, k));
        if dec_accepted(neg, m, T::min_val(), T::max_val()) {
            Some((k, T::of_int(if neg { -m } else { m })))
        } else {
            None
        }
    }
}

/// What parsing a variable token at `i` yields: a `$`, then a maximal
/// non-empty run of alphanumeric characters; the name keeps the `$`. A
/// missing `$` is an illegal variable name; a `$` with no identifier is a
/// syntax error past the `$`.
pub open spec fn spec_variable(s: Seq<u8>, i: int) -> Result<
    (int, Seq<u8>),
    (ExprParsingErrorKind, int),
> {
    if !(i < s.len() && s[i] == 36) {
        Err((ExprParsingErrorKind::IllegalVariableName, i))
    } else {
        let k = alnum_end(s, i + 1);
        if k == i + 1 {
            Err((ExprParsingErrorKind::Syntax, i + 1))
        } else {
            Ok((k, s.subrange(i, k)))
        }
    }
}

/// What parsing a constant token at `i` yields: a maximal non-empty run of
/// alphanumeric characters not starting with `$`.
pub open spec fn spec_constant(s: Seq<u8>, i: int) -> Option<(int, Seq<u8>)> {
    if i < s.len() && s[i] == 36 {
        None
    } else {
        let k = alnum_end(s, i);
        if k == i {
            None
        } else {
            Some((k, s.subrange(i, k)))
        }
    }
}

/// What parsing a binary operator token at `i` yields.
pub open spec fn spec_bin_op(s: Seq<u8>, i: int) -> Option<(int, BinOp)> {
    if i < s.len() {
        if s[i] == 43 {
            Some((i + 1, BinOp::Add))
        } else if s[i] == 45 {
            Some((i + 1, BinOp::Sub))
        } else if s[i] == 42 {
            Some((i + 1, BinOp::Mul))
        } else if s[i] == 47 {
            Some((i + 1, BinOp::Div))
        } else if s[i] == 37 {
            Some((i + 1, BinOp::Mod))
        } else if s[i] == 64 {
            Some((i + 1, BinOp::Align))
        } else {
            None
        }
    } else {
        None
    }
}

/// What parsing a base token at `i` yields, in priority order: a signed
/// decimal literal, a `$`-prefixed variable, or a constant.
pub open spec fn spec_base_expr<T: DecimalValue>(s: Seq<u8>, i: int) -> Option<(int, ExprModel<T>)> {
    match spec_number::<T>(s, i) {
        Some((k, v)) => Some((k, ExprModel::Value(v))),
        None => match spec_variable(s, i) {
            Ok((k, name)) => Some((k, ExprModel::Var(name))),
            Err(_) => match spec_constant(s, i) {
                Some((k, name)) => Some((k, ExprModel::Const(name))),
                None => None,
            },
        },
    }
}

/// What a full scan from position `i` yields, with `stack` the operand stack
/// built so far: tokens are read left to right, base tokens are pushed, a
/// binary operator pops two operands (the later-pushed one is the right-hand
/// side), `^` pops one, and the scan stops without error at the first input
/// it cannot classify. Popping from too small a stack fails with
/// `NotEnoughOperands` at the remaining input of the failing step.
pub open spec fn spec_expr_run<T: DecimalValue>(
    s: Seq<u8>,
    i: int,
    stack: Seq<ExprModel<T>>,
) -> Result<(int, Seq<ExprModel<T>>), (ExprParsingErrorKind, int)>
    decreases s.len() - i,
    when 0 <= i <= s.len()
    via spec_expr_run_decreases::<T>
{
    if i >= s.len() {
        Ok((i, stack))
    } else {
        let j = skip_spaces(s, i);
        match spec_base_expr::<T>(s, j) {
            Some((end, e)) => spec_expr_run(s, skip_spaces(s, end), stack.push(e)),
            None => match spec_bin_op(s, j) {
                Some((end, op)) => if stack.len() < 2 {
                    Err((ExprParsingErrorKind::NotEnoughOperands, i))
                } else {
                    let l = stack[stack.len() - 2];
                    let r = stack[stack.len() - 1];
                    spec_expr_run(
                        s,
                        skip_spaces(s, end),
                        stack.drop_last().drop_last().push(
                            ExprModel::Op(Box::new(l), Box::new(r), op),
                        ),
                    )
                },
                None => if j < s.len() && s[j] == 94 {
                    if stack.len() < 1 {
                        Err((ExprParsingErrorKind::NotEnoughOperands, i))
                    } else {
                        spec_expr_run(
                            s,
                            skip_spaces(s, j + 1),
                            stack.drop_last().push(ExprModel::Deref(Box::new(stack.last()))),
                        )
                    }
                } else {
                    Ok((i, stack))
                },
            },
        }
    }
}

/// Any token recognized at `j` ends past `j` and inside the input, and
/// skipping spaces after it stays inside the input.
proof fn lemma_token_advance<T: DecimalValue>(s: Seq<u8>, j: int)
    requires
        0 <= j <= s.len(),
    ensures
        spec_base_expr::<T>(s, j) matches Some(p) ==> j < p.0 <= s.len() && p.0 <= skip_spaces(
            s,
            p.0,
        ) <= s.len(),
        spec_bin_op(s, j) matches Some(p) ==> j < p.0 <= s.len() && p.0 <= skip_spaces(s, p.0)
            <= s.len(),
        j < s.len() && s[j] == 94 ==> j + 1 <= skip_spaces(s, j + 1) <= s.len(),
{
    lemma_digits_end_props(s, j);
    lemma_alnum_end_props(s, j);
    if j < s.len() {
        lemma_digits_end_props(s, j + 1);
        lemma_alnum_end_props(s, j + 1);
        lemma_skip_spaces_props(s, j + 1);
    }
    match spec_base_expr::<T>(s, j) {
        Some(p) => {
            lemma_skip_spaces_props(s, p.0);
        },
        None => {},
    }
    match spec_bin_op(s, j) {
        Some(p) => {
            lemma_skip_spaces_props(s, p.0);
        },
        None => {},
    }
}

#[via_fn]
proof fn spec_expr_run_decreases<T: DecimalValue>(s: Seq<u8>, i: int, stack: Seq<ExprModel<T>>) {
    if 0 <= i && i < s.len() {
        lemma_skip_spaces_props(s, i);
        lemma_token_advance::<T>(s, skip_spaces(s, i));
    }
}

/// A full scan stops at a position inside the input, at or past where it
/// began; so does a failing one.
pub proof fn lemma_spec_expr_run_bounds<T: DecimalValue>(s: Seq<u8>, i: int, stack: Seq<ExprModel<T>>)
    requires
        0 <= i <= s.len(),
    ensures
        spec_expr_run::<T>(s, i, stack) matches Ok(p) ==> i <= p.0 <= s.len(),
        spec_expr_run::<T>(s, i, stack) matches Err(e) ==> i <= e.1 <= s.len(),
    decreases s.len() - i,
{
    if i < s.len() {
        lemma_skip_spaces_props(s, i);
        let j = skip_spaces(s, i);
        lemma_token_advance::<T>(s, j);
        match spec_base_expr::<T>(s, j) {
            Some((end, e)) => {
                lemma_spec_expr_run_bounds::<T>(s, skip_spaces(s, end), stack.push(e));
            },
            None => match spec_bin_op(s, j) {
                Some((end, op)) => {
                    if stack.len() >= 2 {
                        let l = stack[stack.len() - 2];
                        let r = stack[stack.len() - 1];
                        lemma_spec_expr_run_bounds::<T>(
                            s,
                            skip_spaces(s, end),
                            stack.drop_last().drop_last().push(
                                ExprModel::Op(Box::new(l), Box::new(r), op),
                            ),
                        );
                    }
                },
                None => {
                    if j < s.len() && s[j] == 94 && stack.len() >= 1 {
                        lemma_spec_expr_run_bounds::<T>(
                            s,
                            skip_spaces(s, j + 1),
                            stack.drop_last().push(ExprModel::Deref(Box::new(stack.last()))),
                        );
                    }
                },
            },
        }
    }
}

/// What parsing an assignment at `i` yields: a variable, then an expression
/// scan that must leave exactly one operand on the stack, then a literal `=`.
/// More than one operand is a malformed assignment; none is a missing
/// operand; both are reported at the remaining input after the scan.
pub open spec fn spec_assignment<T: DecimalValue>(s: Seq<u8>, i: int) -> Result<
    (int, (Seq<u8>, ExprModel<T>)),
    (ExprParsingErrorKind, int),
> {
    let j = skip_spaces(s, i);
    match spec_variable(s, j) {
        Err(e) => Err(e),
        Ok((vend, name)) => {
            let j2 = skip_spaces(s, vend);
            match spec_expr_run::<T>(s, j2, Seq::empty()) {
                Err(e) => Err(e),
                Ok((eend, stack)) => if stack.len() > 1 {
                    Err((ExprParsingErrorKind::MalformedAssignment, eend))
                } else if stack.len() == 0 {
                    Err((ExprParsingErrorKind::NotEnoughOperands, eend))
                } else {
                    let j3 = skip_spaces(s, eend);
                    if j3 < s.len() && s[j3] == 61 {
                        Ok((j3 + 1, (name, stack[0])))
                    } else {
                        Err((ExprParsingErrorKind::Syntax, j3))
                    }
                },
            }
        },
    }
}

/// A parsed assignment ends past where it began and inside the input; a
/// failing one fails at a position inside the input.
pub proof fn lemma_spec_assignment_bounds<T: DecimalValue>(s: Seq<u8>, i: int)
    requires
        0 <= i <= s.len(),
    ensures
        spec_assignment::<T>(s, i) matches Ok(p) ==> i < p.0 <= s.len(),
        spec_assignment::<T>(s, i) matches Err(e) ==> 0 <= e.1 <= s.len(),
{
    lemma_skip_spaces_props(s, i);
    let j = skip_spaces(s, i);
    if j < s.len() && s[j] == 36 {
        lemma_alnum_end_props(s, j + 1);
    }
    match spec_variable(s, j) {
        Ok((vend, _)) => {
            lemma_skip_spaces_props(s, vend);
            let j2 = skip_spaces(s, vend);
            lemma_spec_expr_run_bounds::<T>(s, j2, Seq::empty());
            match spec_expr_run::<T>(s, j2, Seq::<ExprModel<T>>::empty()) {
                Ok((eend, _)) => {
                    lemma_skip_spaces_props(s, eend);
                },
                Err(_) => {},
            }
        },
        Err(_) => {},
    }
}

/// What repeatedly parsing whitespace-delimited assignments yields: the
/// position where the first failure stops the scan, and the assignments
/// parsed before it.
pub open spec fn spec_assignments_run<T: DecimalValue>(
    s: Seq<u8>,
    i: int,
    acc: Seq<(Seq<u8>, ExprModel<T>)>,
) -> (int, Seq<(Seq<u8>, ExprModel<T>)>)
    decreases s.len() - i,
    when 0 <= i <= s.len()
    via spec_assignments_run_decreases::<T>
{
    match spec_assignment::<T>(s, i) {
        Ok((end, a)) => spec_assignments_run(s, skip_spaces(s, end), acc.push(a)),
        Err(_) => (i, acc),
    }
}

#[via_fn]
proof fn spec_assignments_run_decreases<T: DecimalValue>(
    s: Seq<u8>,
    i: int,
    acc: Seq<(Seq<u8>, ExprModel<T>)>,
) {
    if 0 <= i <= s.len() {
        lemma_spec_assignment_bounds::<T>(s, i);
        match spec_assignment::<T>(s, i) {
            Ok((end, _)) => {
                lemma_skip_spaces_props(s, end);
            },
            Err(_) => {},
        }
    }
}

/// What parsing a whole batch of assignments yields: the parsed assignments
/// when the scan consumes the entire input, and a syntax error at the first
/// leftover input otherwise (all-or-nothing; trailing garbage fails the whole
/// batch).
pub open spec fn spec_assignments<T: DecimalValue>(s: Seq<u8>) -> Result<
    Seq<(Seq<u8>, ExprModel<T>)>,
    (ExprParsingErrorKind, int),
> {
    let r = spec_assignments_run::<T>(s, 0, Seq::empty());
    if r.0 == s.len() {
        Ok(r.1)
    } else {
        Err((ExprParsingErrorKind::Syntax, r.0))
    }
}

/// The position of the first non-space character of `s` at or after `from`.
fn scan_spaces(s: &[u8], from: usize) -> (r: usize)
    requires
        from <= s@.len(),
    ensures
        r == skip_spaces(s@, from as int),
        from <= r <= s@.len(),
{
    proof {
        lemma_skip_spaces_props(s@, from as int);
    }
    let mut i: usize = from;
    while i < s.len() && (s[i] == 32 || s[i] == 9)
        invariant
            from <= i <= s@.len(),
            skip_spaces(s@, from as int) == skip_spaces(s@, i as int),
        decreases s@.len() - i,
    {
        i = i + 1;
    }
    i
}

/// The position of the first non-alphanumeric character of `s` at or after
/// `from`.
fn scan_alnum(s: &[u8], from: usize) -> (r: usize)
    requires
        from <= s@.len(),
    ensures
        r == alnum_end(s@, from as int),
        from <= r <= s@.len(),
{
    proof {
        lemma_alnum_end_props(s@, from as int);
    }
    let mut i: usize = from;
    while i < s.len() && ((48 <= s[i] && s[i] <= 57) || (65 <= s[i] && s[i] <= 90) || (97 <= s[i]
        && s[i] <= 122))
        invariant
            from <= i <= s@.len(),
            alnum_end(s@, from as int) == alnum_end(s@, i as int),
        decreases s@.len() - i,
    {
        i = i + 1;
    }
    i
}

/// The position of the first non-digit character of `s` at or after `from`.
fn scan_digits(s: &[u8], from: usize) -> (r: usize)
    requires
        from <= s@.len(),
    ensures
        r == digits_end(s@, from as int),
        from <= r <= s@.len(),
{
    proof {
        lemma_digits_end_props(s@, from as int);
    }
    let mut i: usize = from;
    while i < s.len() && 48 <= s[i] && s[i] <= 57
        invariant
            from <= i <= s@.len(),
            digits_end(s@, from as int) == digits_end(s@, i as int),
        decreases s@.len() - i,
    {
        i = i + 1;
    }
    i
}

/// The suffix of `s` that starts at `from`.
fn suffix<'a>(s: &'a [u8], from: usize) -> (r: &'a [u8])
    requires
        from <= s@.len(),
    ensures
        r@ == s@.skip(from as int),
{
    let r = slice_subrange(s, from, s.len());
    proof {
        assert(s@.subrange(from as int, s@.len() as int) =~= s@.skip(from as int));
    }
    r
}

/// Parses a number token at position `j`.
fn try_number<T: DecimalValue>(s: &[u8], j: usize) -> (r: Option<(usize, T)>)
    requires
        j <= s@.len(),
    ensures
        match spec_number::<T>(s@, j as int) {
            Some(p) => r matches Some(q) && q.0 as int == p.0 && q.1 == p.1,
            None => r is None,
        },
{
    let neg = j < s.len() && s[j] == 45;
    let k0 = if neg {
        j + 1
    } else {
        j
    };
    let end = scan_digits(s, k0);
    if end == k0 {
        return None;
    }
    proof {
        lemma_digits_end_props(s@, k0 as int);
    }
    match T::from_decimal(s, neg, k0, end) {
        Some(v) => Some((end, v)),
        None => None,
    }
}

/// Parses a variable token at position `j`.
fn var_at<'a>(s: &'a [u8], j: usize) -> (r: Result<(usize, Variable), ExprParsingError<'a>>)
    requires
        j <= s@.len(),
    ensures
        match spec_variable(s@, j as int) {
            Ok(p) => r matches Ok(q) && q.0 as int == p.0 && q.1@ == p.1 && j < q.0 <= s@.len(),
            Err(e) => r matches Err(q) && q.kind == e.0 && q.input@ == s@.skip(e.1),
        },
{
    if !(j < s.len() && s[j] == 36) {
        return Err(
            ExprParsingError {
                kind: ExprParsingErrorKind::IllegalVariableName,
                input: suffix(s, j),
            },
        );
    }
    let end = scan_alnum(s, j + 1);
    if end == j + 1 {
        return Err(ExprParsingError { kind: ExprParsingErrorKind::Syntax, input: suffix(s, j + 1) });
    }
    Ok((end, Variable(copy_bytes(s, j, end))))
}

/// Parses a constant token at position `j`.
fn try_constant(s: &[u8], j: usize) -> (r: Option<(usize, Constant)>)
    requires
        j <= s@.len(),
    ensures
        match spec_constant(s@, j as int) {
            Some(p) => r matches Some(q) && q.0 as int == p.0 && q.1@ == p.1,
            None => r is None,
        },
{
    if j < s.len() && s[j] == 36 {
        return None;
    }
    let end = scan_alnum(s, j);
    if end == j {
        None
    } else {
        Some((end, Constant(copy_bytes(s, j, end))))
    }
}

/// Parses a binary operator token at position `j`.
fn try_bin_op(s: &[u8], j: usize) -> (r: Option<(usize, BinOp)>)
    requires
        j <= s@.len(),
    ensures
        match spec_bin_op(s@, j as int) {
            Some(p) => r matches Some(q) && q.0 as int == p.0 && q.1 == p.1,
            None => r is None,
        },
{
    if j < s.len() {
        let b = s[j];
        if b == 43 {
            Some((j + 1, BinOp::Add))
        } else if b == 45 {
            Some((j + 1, BinOp::Sub))
        } else if b == 42 {
            Some((j + 1, BinOp::Mul))
        } else if b == 47 {
            Some((j + 1, BinOp::Div))
        } else if b == 37 {
            Some((j + 1, BinOp::Mod))
        } else if b == 64 {
            Some((j + 1, BinOp::Align))
        } else {
            None
        }
    } else {
        None
    }
}

/// Parses a base token at position `j`: a number, variable, or constant.
fn try_base<T: DecimalValue>(s: &[u8], j: usize) -> (r: Option<(usize, Expr<T>)>)
    requires
        j <= s@.len(),
    ensures
        match spec_base_expr::<T>(s@, j as int) {
            Some(p) => r matches Some(q) && q.0 as int == p.0 && q.1@ == p.1,
            None => r is None,
        },
{
    match try_number::<T>(s, j) {
        Some((end, v)) => Some((end, Expr::Value(v))),
        None => match var_at(s, j) {
            Ok((end, v)) => Some((end, Expr::Var(v))),
            Err(_) => match try_constant(s, j) {
                Some((end, c)) => Some((end, Expr::Const(c))),
                None => None,
            },
        },
    }
}

/// Runs the full scan from position `from` with an empty stack.
fn expr_at<'a, T: DecimalValue>(s: &'a [u8], from: usize) -> (r: Result<
    (usize, Vec<Expr<T>>),
    ExprParsingError<'a>,
>)
    requires
        from <= s@.len(),
    ensures
        match spec_expr_run::<T>(s@, from as int, Seq::empty()) {
            Ok(p) => r matches Ok(q) && q.0 as int == p.0 && q.1@.map_values(|e: Expr<T>| e@)
                == p.1 && from <= q.0 <= s@.len(),
            Err(e) => r matches Err(q) && q.kind == e.0 && q.input@ == s@.skip(e.1),
        },
{
    let mut i: usize = from;
    let mut stack: Vec<Expr<T>> = Vec::new();
    proof {
        assert(stack@.map_values(|e: Expr<T>| e@) =~= Seq::<ExprModel<T>>::empty());
    }
    while i < s.len()
        invariant
            from <= i <= s@.len(),
            spec_expr_run::<T>(s@, from as int, Seq::empty()) == spec_expr_run::<T>(
                s@,
                i as int,
                stack@.map_values(|e: Expr<T>| e@),
            ),
        decreases s@.len() - i,
    {
        let ghost cur = stack@.map_values(|e: Expr<T>| e@);
        let j = scan_spaces(s, i);
        proof {
            lemma_token_advance::<T>(s@, j as int);
        }
        match try_base::<T>(s, j) {
            Some((end, e)) => {
                let ghost em = e@;
                stack.push(e);
                proof {
                    assert(stack@.map_values(|e: Expr<T>| e@) =~= cur.push(em));
                }
                i = scan_spaces(s, end);
            },
            None => match try_bin_op(s, j) {
                Some((end, op)) => {
                    if stack.len() < 2 {
                        return Err(
                            ExprParsingError {
                                kind: ExprParsingErrorKind::NotEnoughOperands,
                                input: suffix(s, i),
                            },
                        );
                    }
                    let e2 = stack.pop().unwrap();
                    let e1 = stack.pop().unwrap();
                    let ghost lm = e1@;
                    let ghost rm = e2@;
                    proof {
                        assert(lm == cur[cur.len() - 2]);
                        assert(rm == cur.last());
                    }
                    stack.push(Expr::Op(Box::new(e1), Box::new(e2), op));
                    proof {
                        assert(stack@.map_values(|e: Expr<T>| e@) =~= cur.drop_last().drop_last()
                            .push(ExprModel::Op(Box::new(lm), Box::new(rm), op)));
                    }
                    i = scan_spaces(s, end);
                },
                None => {
                    if j < s.len() && s[j] == 94 {
                        if stack.len() == 0 {
                            return Err(
                                ExprParsingError {
                                    kind: ExprParsingErrorKind::NotEnoughOperands,
                                    input: suffix(s, i),
                                },
                            );
                        }
                        let e = stack.pop().unwrap();
                        let ghost em = e@;
                        proof {
                            assert(em == cur.last());
                        }
                        stack.push(Expr::Deref(Box::new(e)));
                        proof {
                            assert(stack@.map_values(|e: Expr<T>| e@) =~= cur.drop_last().push(
                                ExprModel::Deref(Box::new(em)),
                            ));
                        }
                        i = scan_spaces(s, j + 1);
                    } else {
                        return Ok((i, stack));
                    }
                },
            },
        }
    }
    Ok((i, stack))
}

/// Parses a stack of expressions: a full scan of the input, returning the
/// unconsumed remainder and the final operand stack (zero or more completed
/// expressions).
pub fn expr<'a, T: DecimalValue>(input: &'a [u8]) -> (r: Result<
    (&'a [u8], Vec<Expr<T>>),
    ExprParsingError<'a>,
>)
    ensures
        match spec_expr_run::<T>(input@, 0, Seq::empty()) {
            Ok(p) => r matches Ok(q) && q.0@ == input@.skip(p.0) && q.1@.map_values(
                |e: Expr<T>| e@,
            ) == p.1,
            Err(e) => r matches Err(q) && q.kind == e.0 && q.input@ == input@.skip(e.1),
        },
{
    match expr_at::<T>(input, 0) {
        Ok((end, stack)) => Ok((suffix(input, end), stack)),
        Err(e) => Err(e),
    }
}

/// Parses a variable: a `$` followed by alphanumeric characters, the `$`
/// kept in the stored name.
pub fn variable<'a>(input: &'a [u8]) -> (r: Result<(&'a [u8], Variable), ExprParsingError<'a>>)
    ensures
        match spec_variable(input@, 0) {
            Ok(p) => r matches Ok(q) && q.0@ == input@.skip(p.0) && q.1@ == p.1,
            Err(e) => r matches Err(q) && q.kind == e.0 && q.input@ == input@.skip(e.1),
        },
{
    match var_at(input, 0) {
        Ok((end, v)) => Ok((suffix(input, end), v)),
        Err(e) => Err(e),
    }
}

/// Parses an assignment at position `from`.
fn assignment_at<'a, T: DecimalValue>(s: &'a [u8], from: usize) -> (r: Result<
    (usize, Assignment<T>),
    ExprParsingError<'a>,
>)
    requires
        from <= s@.len(),
    ensures
        match spec_assignment::<T>(s@, from as int) {
            Ok(p) => r matches Ok(q) && q.0 as int == p.0 && q.1@ == p.1 && from < q.0 <= s@.len(),
            Err(e) => r matches Err(q) && q.kind == e.0 && q.input@ == s@.skip(e.1),
        },
{
    let j = scan_spaces(s, from);
    let (vend, v) = match var_at(s, j) {
        Ok(x) => x,
        Err(e) => {
            return Err(e);
        },
    };
    let j2 = scan_spaces(s, vend);
    let (eend, mut stack) = match expr_at::<T>(s, j2) {
        Ok(x) => x,
        Err(e) => {
            return Err(e);
        },
    };
    if stack.len() > 1 {
        return Err(
            ExprParsingError {
                kind: ExprParsingErrorKind::MalformedAssignment,
                input: suffix(s, eend),
            },
        );
    }
    let e = match stack.pop() {
        Some(e) => e,
        None => {
            return Err(
                ExprParsingError {
                    kind: ExprParsingErrorKind::NotEnoughOperands,
                    input: suffix(s, eend),
                },
            );
        },
    };
    let j3 = scan_spaces(s, eend);
    if j3 < s.len() && s[j3] == 61 {
        Ok((j3 + 1, Assignment(v, e)))
    } else {
        Err(ExprParsingError { kind: ExprParsingErrorKind::Syntax, input: suffix(s, j3) })
    }
}

/// Parses an assignment: a variable, an expression that must leave exactly
/// one operand on the stack, then a literal `=`.
pub fn assignment<'a, T: DecimalValue>(input: &'a [u8]) -> (r: Result<
    (&'a [u8], Assignment<T>),
    ExprParsingError<'a>,
>)
    ensures
        match spec_assignment::<T>(input@, 0) {
            Ok(p) => r matches Ok(q) && q.0@ == input@.skip(p.0) && q.1@ == p.1,
            Err(e) => r matches Err(q) && q.kind == e.0 && q.input@ == input@.skip(e.1),
        },
{
    match assignment_at::<T>(input, 0) {
        Ok((end, a)) => Ok((suffix(input, end), a)),
        Err(e) => Err(e),
    }
}

/// Parses a list of whitespace-delimited assignments. Fails if any input
/// remains afterwards: the batch is all-or-nothing.
pub fn assignments<'a, T: DecimalValue>(input: &'a [u8]) -> (r: Result<
    Vec<Assignment<T>>,
    ExprParsingError<'a>,
>)
    ensures
        match spec_assignments::<T>(input@) {
            Ok(list) => r matches Ok(v) && v@.map_values(|a: Assignment<T>| a@) == list,
            Err(e) => r matches Err(q) && q.kind == e.0 && q.input@ == input@.skip(e.1),
        },
{
    let mut acc: Vec<Assignment<T>> = Vec::new();
    let mut i: usize = 0;
    proof {
        assert(acc@.map_values(|a: Assignment<T>| a@) =~= Seq::<(Seq<u8>, ExprModel<T>)>::empty());
    }
    loop
        invariant
            0 <= i <= input@.len(),
            spec_assignments_run::<T>(input@, 0, Seq::empty()) == spec_assignments_run::<T>(
                input@,
                i as int,
                acc@.map_values(|a: Assignment<T>| a@),
            ),
        ensures
            0 <= i <= input@.len(),
            spec_assignments_run::<T>(input@, 0, Seq::empty()) == (
                i as int,
                acc@.map_values(|a: Assignment<T>| a@),
            ),
        decreases input@.len() - i,
    {
        let ghost curacc = acc@.map_values(|a: Assignment<T>| a@);
        match assignment_at::<T>(input, i) {
            Ok((end, a)) => {
                let ghost am = a@;
                acc.push(a);
                proof {
                    assert(acc@.map_values(|a: Assignment<T>| a@) =~= curacc.push(am));
                }
                i = scan_spaces(input, end);
            },
            Err(_) => {
                break;
            },
        }
    }
    if i == input.len() {
        Ok(acc)
    } else {
        Err(ExprParsingError { kind: ExprParsingErrorKind::Syntax, input: suffix(input, i) })
    }
}

/// Whether an expression shape is syntactically valid: every constant name is
/// a non-empty alphanumeric identifier that starts with a letter (one that
/// starts with a digit would be read back as a number), and every variable
/// name is a `$` followed by a non-empty alphanumeric identifier.
pub open spec fn wf_expr<T: DecimalValue>(m: ExprModel<T>) -> bool
    decreases m,
{
    match m {
        ExprModel::Value(_) => true,
        ExprModel::Const(c) => c.len() >= 1 && is_alnum(c[0]) && !is_ascii_digit(c[0]) && (forall|
            k: int,
        | 0 <= k < c.len() ==> is_alnum(c[k])),
        ExprModel::Var(v) => v.len() >= 2 && v[0] == 36 && (forall|k: int|
            1 <= k < v.len() ==> is_alnum(v[k])),
        ExprModel::Op(l, r, _) => wf_expr(*l) && wf_expr(*r),
        ExprModel::Deref(e) => wf_expr(*e),
    }
}

/// A run of spaces from `j` up to a non-space at `e` (or the end of the
/// input) is skipped exactly.
proof fn lemma_skip_spaces_exact(s: Seq<u8>, j: int, e: int)
    requires
        0 <= j <= e <= s.len(),
        forall|k: int| j <= k < e ==> is_space(s[k]),
        e == s.len() || !is_space(s[e]),
    ensures
        skip_spaces(s, j) == e,
    decreases e - j,
{
    if j < e {
        lemma_skip_spaces_exact(s, j + 1, e);
    }
}

/// A run of digits from `j` up to a non-digit at `e` (or the end of the
/// input) is scanned exactly.
proof fn lemma_digits_end_exact(s: Seq<u8>, j: int, e: int)
    requires
        0 <= j <= e <= s.len(),
        forall|k: int| j <= k < e ==> is_ascii_digit(s[k]),
        e == s.len() || !is_ascii_digit(s[e]),
    ensures
        digits_end(s, j) == e,
    decreases e - j,
{
    if j < e {
        lemma_digits_end_exact(s, j + 1, e);
    }
}

/// A run of alphanumeric characters from `j` up to another character at `e`
/// (or the end of the input) is scanned exactly.
proof fn lemma_alnum_end_exact(s: Seq<u8>, j: int, e: int)
    requires
        0 <= j <= e <= s.len(),
        forall|k: int| j <= k < e ==> is_alnum(s[k]),
        e == s.len() || !is_alnum(s[e]),
    ensures
        alnum_end(s, j) == e,
    decreases e - j,
{
    if j < e {
        lemma_alnum_end_exact(s, j + 1, e);
    }
}

/// A well-formed expression renders to at least one character, and neither
/// its first character nor any other is left unsaid where it matters: the
/// first character is never a space.
proof fn lemma_render_shape<T: DecimalValue>(m: ExprModel<T>)
    requires
        wf_expr(m),
    ensures
        spec_render(m).len() >= 1,
        !is_space(spec_render(m)[0]),
    decreases m,
{
    match m {
        ExprModel::Value(x) => {
            x.lemma_val_range();
            if x.val() < 0 {
                crate::decimal::lemma_dec_digits_props(-x.val());
            } else {
                crate::decimal::lemma_dec_digits_props(x.val());
            }
        },
        ExprModel::Const(_) => {},
        ExprModel::Var(_) => {},
        ExprModel::Op(l, r, _) => {
            lemma_render_shape(*l);
        },
        ExprModel::Deref(e) => {
            lemma_render_shape(*e);
        },
    }
}

/// The induction behind the round trip: if the canonical rendering of a
/// well-formed expression `m` stands in `s` at `i`, followed by a space or
/// the end of the input, then the scan from `i` parses exactly that rendering
/// back into `m`, pushes it, and goes on after the following spaces.
proof fn lemma_run_render<T: DecimalValue>(s: Seq<u8>, i: int, m: ExprModel<T>, stack: Seq<
    ExprModel<T>,
>)
    requires
        wf_expr(m),
        0 <= i,
        i + spec_render(m).len() <= s.len(),
        s.subrange(i, i + spec_render(m).len() as int) == spec_render(m),
        i + spec_render(m).len() == s.len() || is_space(s[i + spec_render(m).len()]),
    ensures
        spec_expr_run::<T>(s, i, stack) == spec_expr_run::<T>(
            s,
            skip_spaces(s, i + spec_render(m).len() as int),
            stack.push(m),
        ),
    decreases m,
{
    let r = spec_render(m);
    let end = i + r.len() as int;
    lemma_render_shape(m);
    assert forall|k: int| 0 <= k < r.len() implies s[i + k] == r[k] by {
        assert(s.subrange(i, end)[k] == s[i + k]);
    }
    assert(skip_spaces(s, i) == i);
    lemma_skip_spaces_props(s, end);
    match m {
        ExprModel::Value(x) => {
            x.lemma_val_range();
            if x.val() < 0 {
                let dl = crate::decimal::dec_digits(-x.val());
                crate::decimal::lemma_dec_digits_props(-x.val());
                assert(r[0] == 45);
                assert forall|k: int| i + 1 <= k < end implies is_ascii_digit(s[k]) by {
                    assert(s[k] == r[k - i]);
                    assert(r[k - i] == dl[k - i - 1]);
                }
                lemma_digits_end_exact(s, i + 1, end);
                assert forall|t: int| 0 <= t < dl.len() implies s.subrange(i + 1, end)[t]
                    == dl[t] by {
                    assert(s[i + 1 + t] == r[1 + t]);
                    assert(r[1 + t] == dl[t]);
                }
                assert(s.subrange(i + 1, end) =~= dl);
                assert(spec_number::<T>(s, i) == Some((end, T::of_int(x.val()))));
                assert(spec_base_expr::<T>(s, i) == Some((end, m)));
            } else {
                let dl = crate::decimal::dec_digits(x.val());
                crate::decimal::lemma_dec_digits_props(x.val());
                assert forall|k: int| i <= k < end implies is_ascii_digit(s[k]) by {
                    assert(s[k] == r[k - i]);
                    assert(r[k - i] == dl[k - i]);
                }
                lemma_digits_end_exact(s, i, end);
                assert(s.subrange(i, end) =~= dl);
                assert(!(s[i] == 45));
                assert(spec_number::<T>(s, i) == Some((end, T::of_int(x.val()))));
                assert(spec_base_expr::<T>(s, i) == Some((end, m)));
            }
        },
        ExprModel::Const(c) => {
            assert forall|k: int| i <= k < end implies is_alnum(s[k]) by {
                assert(s[k] == r[k - i]);
            }
            lemma_alnum_end_exact(s, i, end);
            assert(s[i] == c[0]);
            assert(!is_ascii_digit(s[i]));
            assert(!(s[i] == 45) && !(s[i] == 36));
            assert(digits_end(s, i) == i);
            assert(spec_number::<T>(s, i) is None);
            assert(s.subrange(i, end) =~= c);
            assert(spec_constant(s, i) == Some((end, c)));
            assert(spec_base_expr::<T>(s, i) == Some((end, m)));
        },
        ExprModel::Var(v) => {
            assert(s[i] == 36);
            assert forall|k: int| i + 1 <= k < end implies is_alnum(s[k]) by {
                assert(s[k] == r[k - i]);
            }
            lemma_alnum_end_exact(s, i + 1, end);
            assert(digits_end(s, i) == i);
            assert(spec_number::<T>(s, i) is None);
            assert(s.subrange(i, end) =~= v);
            assert(spec_variable(s, i) == Ok::<(int, Seq<u8>), (ExprParsingErrorKind, int)>(
                (end, v),
            ));
            assert(spec_base_expr::<T>(s, i) == Some((end, m)));
        },
        ExprModel::Op(l, rr, op) => {
            let rl = spec_render(*l);
            let rb = spec_render(*rr);
            let el = i + rl.len() as int;
            let ir = el + 1;
            let er = ir + rb.len() as int;
            let isym = er + 1;
            assert(r.len() == rl.len() + 1 + rb.len() + 2);
            assert(end == isym + 1);
            lemma_render_shape(*l);
            lemma_render_shape(*rr);
            assert(s[el] == 32) by {
                assert(r[rl.len() as int] == 32);
            }
            assert(s[er] == 32) by {
                assert(r[(rl.len() + 1 + rb.len()) as int] == 32);
            }
            assert(s[isym] == op.spec_symbol()) by {
                assert(r[(r.len() - 1) as int] == op.spec_symbol());
            }
            assert(s.subrange(i, el) =~= rl) by {
                assert forall|k: int| 0 <= k < rl.len() implies s.subrange(i, el)[k] == rl[k] by {
                    assert(s[i + k] == r[k]);
                    assert(r[k] == rl[k]);
                }
            }
            lemma_run_render(s, i, *l, stack);
            assert(s[ir] == rb[0]) by {
                assert(r[(rl.len() + 1) as int] == rb[0]);
            }
            lemma_skip_spaces_exact(s, el, ir);
            assert(s.subrange(ir, er) =~= rb) by {
                assert forall|k: int| 0 <= k < rb.len() implies s.subrange(ir, er)[k] == rb[k] by {
                    assert(s[ir + k] == r[rl.len() + 1 + k]);
                    assert(r[rl.len() + 1 + k] == rb[k]);
                }
            }
            lemma_run_render(s, ir, *rr, stack.push(*l));
            lemma_skip_spaces_exact(s, er, isym);
            let stack2 = stack.push(*l).push(*rr);
            assert(skip_spaces(s, isym) == isym);
            assert(digits_end(s, isym) == isym);
            if isym + 1 < s.len() {
                assert(!is_ascii_digit(s[isym + 1]));
            }
            lemma_digits_end_exact(s, isym + 1, isym + 1);
            assert(spec_number::<T>(s, isym) is None);
            assert(spec_variable(s, isym) is Err);
            assert(alnum_end(s, isym) == isym);
            assert(spec_constant(s, isym) is None);
            assert(spec_base_expr::<T>(s, isym) is None);
            assert(spec_bin_op(s, isym) == Some((isym + 1, op)));
            assert(stack2.len() >= 2);
            assert(stack2[stack2.len() - 2] == *l);
            assert(stack2.last() == *rr);
            assert(stack2.drop_last().drop_last() =~= stack);
            assert(ExprModel::Op(Box::new(*l), Box::new(*rr), op) == m);
            assert(isym < s.len());
            lemma_op_step::<T>(s, isym, stack2, isym + 1, op);
            assert(stack2.drop_last().drop_last().push(
                ExprModel::Op(
                    Box::new(stack2[stack2.len() - 2]),
                    Box::new(stack2[stack2.len() - 1]),
                    op,
                ),
            ) == stack.push(m));
            assert(spec_expr_run::<T>(s, isym, stack2) == spec_expr_run::<T>(
                s,
                skip_spaces(s, end),
                stack.push(m),
            ));
        },
        ExprModel::Deref(inner) => {
            let ri = spec_render(*inner);
            let ei = i + ri.len() as int;
            let isym = ei + 1;
            assert(r.len() == ri.len() + 2);
            assert(end == isym + 1);
            lemma_render_shape(*inner);
            assert(s[ei] == 32) by {
                assert(r[ri.len() as int] == 32);
            }
            assert(s[isym] == 94) by {
                assert(r[(r.len() - 1) as int] == 94);
            }
            assert(s.subrange(i, ei) =~= ri) by {
                assert forall|k: int| 0 <= k < ri.len() implies s.subrange(i, ei)[k] == ri[k] by {
                    assert(s[i + k] == r[k]);
                    assert(r[k] == ri[k]);
                }
            }
            lemma_run_render(s, i, *inner, stack);
            lemma_skip_spaces_exact(s, ei, isym);
            let stack1 = stack.push(*inner);
            assert(skip_spaces(s, isym) == isym);
            assert(digits_end(s, isym) == isym);
            lemma_digits_end_exact(s, isym + 1, isym + 1);
            assert(spec_number::<T>(s, isym) is None);
            assert(spec_variable(s, isym) is Err);
            assert(alnum_end(s, isym) == isym);
            assert(spec_constant(s, isym) is None);
            assert(spec_base_expr::<T>(s, isym) is None);
            assert(spec_bin_op(s, isym) is None);
            assert(stack1.len() >= 1);
            assert(stack1.last() == *inner);
            assert(stack1.drop_last() =~= stack);
            assert(ExprModel::Deref(Box::new(*inner)) == m);
            assert(isym < s.len());
            lemma_deref_step::<T>(s, isym, stack1);
            assert(stack1.drop_last().push(ExprModel::Deref(Box::new(stack1.last())))
                == stack.push(m));
            assert(spec_expr_run::<T>(s, isym, stack1) == spec_expr_run::<T>(
                s,
                skip_spaces(s, end),
                stack.push(m),
            ));
        },
    }
}

/// Round trip of rendering and parsing: scanning the canonical rendering of a
/// well-formed expression consumes the whole text and yields exactly that
/// expression, as the single entry on the operand stack.
pub proof fn lemma_render_parse_round_trip<T: DecimalValue>(m: ExprModel<T>)
    requires
        wf_expr(m),
    ensures
        spec_expr_run::<T>(spec_render(m), 0, Seq::empty()) == Ok::<
            (int, Seq<ExprModel<T>>),
            (ExprParsingErrorKind, int),
        >((spec_render(m).len() as int, seq![m])),
{
    let s = spec_render(m);
    assert(s.subrange(0, s.len() as int) =~= s);
    lemma_run_render(s, 0, m, Seq::empty());
    assert(skip_spaces(s, s.len() as int) == s.len());
    assert(spec_expr_run::<T>(s, s.len() as int, Seq::empty().push(m)) == Ok::<
        (int, Seq<ExprModel<T>>),
        (ExprParsingErrorKind, int),
    >((s.len() as int, Seq::empty().push(m))));
    assert(Seq::empty().push(m) =~= seq![m]);
}

/// One operator step of the scan: at a binary operator, with at least two
/// operands on the stack, the scan combines the top two and goes on.
proof fn lemma_op_step<T: DecimalValue>(
    s: Seq<u8>,
    i: int,
    stack: Seq<ExprModel<T>>,
    end2: int,
    op: BinOp,
)
    requires
        0 <= i < s.len(),
        skip_spaces(s, i) == i,
        spec_base_expr::<T>(s, i) is None,
        spec_bin_op(s, i) == Some((end2, op)),
        end2 == i + 1,
        stack.len() >= 2,
    ensures
        spec_expr_run::<T>(s, i, stack) == spec_expr_run::<T>(
            s,
            skip_spaces(s, end2),
            stack.drop_last().drop_last().push(
                ExprModel::Op(
                    Box::new(stack[stack.len() - 2]),
                    Box::new(stack[stack.len() - 1]),
                    op,
                ),
            ),
        ),
{
    lemma_skip_spaces_props(s, end2);
}

/// One dereference step of the scan: at a `^`, with at least one operand on
/// the stack, the scan wraps the top operand and goes on.
proof fn lemma_deref_step<T: DecimalValue>(s: Seq<u8>, i: int, stack: Seq<ExprModel<T>>)
    requires
        0 <= i < s.len(),
        skip_spaces(s, i) == i,
        spec_base_expr::<T>(s, i) is None,
        spec_bin_op(s, i) is None,
        s[i] == 94,
        stack.len() >= 1,
    ensures
        spec_expr_run::<T>(s, i, stack) == spec_expr_run::<T>(
            s,
            skip_spaces(s, i + 1),
            stack.drop_last().push(ExprModel::Deref(Box::new(stack.last()))),
        ),
{
    lemma_skip_spaces_props(s, i + 1);
}

} // verus!
