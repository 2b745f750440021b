//! The expression and assignment data model for Breakpad RPN programs, and
//! the evaluator that walks expression trees against constant and variable
//! bindings and an optional memory region.

pub mod parsing;

use crate::base::{Endianness, MemoryRegion, RegisterValue, RuntimeEndian};
use crate::decimal::{spec_decimal, DecimalValue};
use vstd::prelude::*;

verus! {

/// Copies `s[start..end]` into a fresh vector.
pub fn copy_bytes(s: &[u8], start: usize, end: usize) -> (r: Vec<u8>)
    requires
        start <= end <= s@.len(),
    ensures
        r@ == s@.subrange(start as int, end as int),
{
    let mut r: Vec<u8> = Vec::new();
    let mut i: usize = start;
    while i < end
        invariant
            start <= i <= end <= s@.len(),
            r@ == s@.subrange(start as int, i as int),
        decreases end - i,
    {
        r.push(s[i]);
        proof {
            assert(r@ =~= s@.subrange(start as int, i + 1));
        }
        i = i + 1;
    }
    r
}

/// Whether two byte strings hold the same bytes.
pub fn bytes_eq(a: &[u8], b: &[u8]) -> (r: bool)
    ensures
        r == (a@ == b@),
{
    if a.len() != b.len() {
        return false;
    }
    let mut i: usize = 0;
    while i < a.len()
        invariant
            0 <= i <= a@.len(),
            a@.len() == b@.len(),
            forall|k: int| 0 <= k < i ==> a@[k] == b@[k],
        decreases a@.len() - i,
    {
        if a[i] != b[i] {
            return false;
        }
        i = i + 1;
    }
    proof {
        assert(a@ =~= b@);
    }
    true
}

/// A variable name: in concrete syntax a `$` followed by alphanumeric
/// characters, stored with the sigil so that rendering round-trips. Distinct
/// from [`Constant`] to prevent conflating the two at the type level.
#[derive(Clone, Debug, PartialEq, Eq, Hash)]
pub struct Variable(pub Vec<u8>);

impl View for Variable {
    type V = Seq<u8>;

    open spec fn view(&self) -> Seq<u8> {
        self.0@
    }
}

impl Variable {
    /// A variable with the given name.
    pub fn new(name: &[u8]) -> (r: Self)
        ensures
            r@ == name@,
    {
        let r = Variable(copy_bytes(name, 0, name.len()));
        proof {
            assert(name@.subrange(0, name@.len() as int) =~= name@);
        }
        r
    }

    /// A copy of this variable, named the same.
    pub fn duplicate(&self) -> (r: Self)
        ensures
            r@ == self@,
    {
        Variable(copy_bytes(self.0.as_slice(), 0, self.0.len()))
    }

    /// This variable's name, `$` sigil included.
    pub fn name(&self) -> (r: &Vec<u8>)
        ensures
            r@ == self@,
    {
        &self.0
    }
}

/// A constant name: alphanumeric characters not starting with `$`.
#[derive(Clone, Debug, PartialEq, Eq, Hash)]
pub struct Constant(pub Vec<u8>);

impl View for Constant {
    type V = Seq<u8>;

    open spec fn view(&self) -> Seq<u8> {
        self.0@
    }
}

impl Constant {
    /// A constant with the given name.
    pub fn new(name: &[u8]) -> (r: Self)
        ensures
            r@ == name@,
    {
        let r = Constant(copy_bytes(name, 0, name.len()));
        proof {
            assert(name@.subrange(0, name@.len() as int) =~= name@);
        }
        r
    }

    /// A copy of this constant, named the same.
    pub fn duplicate(&self) -> (r: Self)
        ensures
            r@ == self@,
    {
        Constant(copy_bytes(self.0.as_slice(), 0, self.0.len()))
    }

    /// This constant's name.
    pub fn name(&self) -> (r: &Vec<u8>)
        ensures
            r@ == self@,
    {
        &self.0
    }
}

/// A binary operator.
#[derive(Clone, Copy, Debug, PartialEq, Eq, Structural)]
pub enum BinOp {
    /// Addition.
    Add,
    /// Subtraction.
    Sub,
    /// Multiplication.
    Mul,
    /// Division.
    Div,
    /// Remainder.
    Mod,
    /// Alignment: truncates the first operand down to a multiple of the
    /// second operand.
    Align,
}

impl BinOp {
    /// The operator's symbol in postfix notation.
    pub open spec fn spec_symbol(self) -> u8 {
        match self {
            BinOp::Add => 43,
            BinOp::Sub => 45,
            BinOp::Mul => 42,
            BinOp::Div => 47,
            BinOp::Mod => 37,
            BinOp::Align => 64,
        }
    }

    /// The operator's symbol in postfix notation: one of `+ - * / % @`.
    pub fn symbol(self) -> (r: u8)
        ensures
            r == self.spec_symbol(),
    {
        match self {
            BinOp::Add => 43,
            BinOp::Sub => 45,
            BinOp::Mul => 42,
            BinOp::Div => 47,
            BinOp::Mod => 37,
            BinOp::Align => 64,
        }
    }
}

/// The specification-level shape of an expression: the same tree as
/// [`Expr`], with names as byte sequences. Contracts speak of this shape, so
/// that two expressions that carry equal names are the same tree.
pub enum ExprModel<T> {
    /// A base value.
    Value(T),
    /// A named constant.
    Const(Seq<u8>),
    /// A variable.
    Var(Seq<u8>),
    /// An expression `a b §`, where `§` is a binary operator.
    Op(Box<ExprModel<T>>, Box<ExprModel<T>>, BinOp),
    /// A dereferenced subexpression.
    Deref(Box<ExprModel<T>>),
}

/// An expression over values of type `T`.
#[derive(Debug, PartialEq, Eq)]
pub enum Expr<T> {
    /// A base value.
    Value(T),
    /// A named constant.
    Const(Constant),
    /// A variable.
    Var(Variable),
    /// An expression `a b §`, where `§` is a [binary operator](BinOp).
    Op(Box<Expr<T>>, Box<Expr<T>>, BinOp),
    /// A dereferenced subexpression.
    Deref(Box<Expr<T>>),
}

impl<T> Expr<T> {
    /// The specification-level shape of this expression.
    pub open spec fn model(self) -> ExprModel<T>
        decreases self,
    {
        match self {
            Expr::Value(x) => ExprModel::Value(x),
            Expr::Const(c) => ExprModel::Const(c@),
            Expr::Var(v) => ExprModel::Var(v@),
            Expr::Op(l, r, op) => ExprModel::Op(Box::new(l.model()), Box::new(r.model()), op),
            Expr::Deref(e) => ExprModel::Deref(Box::new(e.model())),
        }
    }
}

impl<T> View for Expr<T> {
    type V = ExprModel<T>;

    open spec fn view(&self) -> ExprModel<T> {
        self.model()
    }
}

/// The canonical postfix rendering of an expression shape: values in decimal,
/// names as they stand, `l r §` for operations and `e ^` for dereferences,
/// with single spaces between tokens.
pub open spec fn spec_render<T: DecimalValue>(m: ExprModel<T>) -> Seq<u8>
    decreases m,
{
    match m {
        ExprModel::Value(x) => spec_decimal(x.val()),
        ExprModel::Const(c) => c,
        ExprModel::Var(v) => v,
        ExprModel::Op(l, r, op) => spec_render(*l) + seq![32u8] + spec_render(*r) + seq![
            32u8,
            op.spec_symbol(),
        ],
        ExprModel::Deref(e) => spec_render(*e) + seq![32u8, 94u8],
    }
}

impl<T: DecimalValue> Expr<T> {
    /// Writes this expression in canonical postfix notation. Parsing the
    /// result yields this expression back, for every well-formed expression
    /// (see [`parsing::lemma_render_parse_round_trip`]).
    pub fn render(&self) -> (r: Vec<u8>)
        ensures
            r@ == spec_render(self@),
        decreases *self,
    {
        match self {
            Expr::Value(x) => x.to_decimal(),
            Expr::Const(c) => copy_bytes(c.0.as_slice(), 0, c.0.len()),
            Expr::Var(v) => copy_bytes(v.0.as_slice(), 0, v.0.len()),
            Expr::Op(l, r, op) => {
                let mut out = l.render();
                out.push(32);
                let mut rhs = r.render();
                out.append(&mut rhs);
                out.push(32);
                out.push(op.symbol());
                proof {
                    assert(out@ =~= spec_render(self@));
                }
                out
            },
            Expr::Deref(e) => {
                let mut out = e.render();
                out.push(32);
                out.push(94);
                proof {
                    assert(out@ =~= spec_render(self@));
                }
                out
            },
        }
    }
}

/// An assignment `v e =`, where `v` is a [variable](Variable) and `e` is an
/// [expression](Expr): evaluate `e`, store the result under `v`.
#[derive(Debug, PartialEq, Eq)]
pub struct Assignment<T>(pub Variable, pub Expr<T>);

impl<T> View for Assignment<T> {
    type V = (Seq<u8>, ExprModel<T>);

    open spec fn view(&self) -> (Seq<u8>, ExprModel<T>) {
        (self.0@, self.1@)
    }
}

impl<T: DecimalValue> Assignment<T> {
    /// Writes this assignment in canonical postfix notation: the variable,
    /// the expression, then `=`, with single spaces between tokens.
    pub fn render(&self) -> (r: Vec<u8>)
        ensures
            r@ == self.0@ + seq![32u8] + spec_render(self.1@) + seq![32u8, 61u8],
    {
        let mut out = copy_bytes(self.0.0.as_slice(), 0, self.0.0.len());
        out.push(32);
        let mut rhs = self.1.render();
        out.append(&mut rhs);
        out.push(32);
        out.push(61);
        proof {
            assert(out@ =~= self.0@ + seq![32u8] + spec_render(self.1@) + seq![32u8, 61u8]);
        }
        out
    }
}

/// An error encountered while evaluating an expression.
#[derive(Debug, PartialEq, Eq)]
pub enum EvaluationError {
    /// The expression contains an undefined constant.
    UndefinedConstant(Constant),
    /// The expression contains an undefined variable.
    UndefinedVariable(Variable),
    /// The expression contains a dereference, but no memory region is
    /// available.
    MemoryUnavailable,
    /// The requested piece of memory would exceed the bounds of the memory
    /// region.
    MemoryOutOfBounds {
        /// The address the dereference asked for.
        address: u64,
        /// The memory region's base address.
        base: u64,
        /// The memory region's size in bytes.
        size: usize,
    },
    /// The expression divides, takes a remainder, or aligns by zero.
    DivisionByZero,
}

/// The specification-level shape of an [`EvaluationError`], with names as
/// byte sequences.
pub enum EvaluationErrorModel {
    /// The expression contains an undefined constant.
    UndefinedConstant(Seq<u8>),
    /// The expression contains an undefined variable.
    UndefinedVariable(Seq<u8>),
    /// The expression contains a dereference, but no memory region is
    /// available.
    MemoryUnavailable,
    /// The requested piece of memory would exceed the bounds of the memory
    /// region.
    MemoryOutOfBounds {
        /// The address the dereference asked for.
        address: u64,
        /// The memory region's base address.
        base: u64,
        /// The memory region's size in bytes.
        size: usize,
    },
    /// The expression divides, takes a remainder, or aligns by zero.
    DivisionByZero,
}

impl View for EvaluationError {
    type V = EvaluationErrorModel;

    open spec fn view(&self) -> EvaluationErrorModel {
        match self {
            EvaluationError::UndefinedConstant(c) => EvaluationErrorModel::UndefinedConstant(c@),
            EvaluationError::UndefinedVariable(v) => EvaluationErrorModel::UndefinedVariable(v@),
            EvaluationError::MemoryUnavailable => EvaluationErrorModel::MemoryUnavailable,
            EvaluationError::MemoryOutOfBounds { address, base, size } => {
                EvaluationErrorModel::MemoryOutOfBounds {
                    address: *address,
                    base: *base,
                    size: *size,
                }
            },
            EvaluationError::DivisionByZero => EvaluationErrorModel::DivisionByZero,
        }
    }
}

/// The result of an evaluation, with its error (if any) as a
/// specification-level shape.
pub open spec fn eval_result_model<T>(r: Result<T, EvaluationError>) -> Result<
    T,
    EvaluationErrorModel,
> {
    match r {
        Ok(v) => Ok(v),
        Err(e) => Err(e@),
    }
}

/// An error encountered while parsing or evaluating an expression.
#[derive(Debug, PartialEq, Eq)]
pub enum ExpressionError<'a> {
    /// An error was encountered while parsing an expression.
    Parsing(parsing::ExprParsingError<'a>),
    /// An error was encountered while evaluating an expression.
    Evaluation(EvaluationError),
}

impl<'a> From<parsing::ExprParsingError<'a>> for ExpressionError<'a> {
    fn from(other: parsing::ExprParsingError<'a>) -> (r: Self) {
        ExpressionError::Parsing(other)
    }
}

impl<'a> vstd::std_specs::convert::FromSpecImpl<parsing::ExprParsingError<'a>> for ExpressionError<'a> {
    open spec fn obeys_from_spec() -> bool {
        true
    }

    open spec fn from_spec(other: parsing::ExprParsingError<'a>) -> Self {
        ExpressionError::Parsing(other)
    }
}

impl<'a> From<EvaluationError> for ExpressionError<'a> {
    fn from(other: EvaluationError) -> (r: Self) {
        ExpressionError::Evaluation(other)
    }
}

impl<'a> vstd::std_specs::convert::FromSpecImpl<EvaluationError> for ExpressionError<'a> {
    open spec fn obeys_from_spec() -> bool {
        true
    }

    open spec fn from_spec(other: EvaluationError) -> Self {
        ExpressionError::Evaluation(other)
    }
}

/// Looks a name up in a list of bindings: the value of the last binding that
/// carries the name, absence when none does. Later bindings shadow earlier
/// ones.
pub open spec fn assoc_get<T>(entries: Seq<(Seq<u8>, T)>, name: Seq<u8>) -> Option<T>
    decreases entries.len(),
{
    if entries.len() == 0 {
        None
    } else if entries.last().0 == name {
        Some(entries.last().1)
    } else {
        assoc_get(entries.drop_last(), name)
    }
}

/// What one binary operation yields on an unsigned register type: wrapping
/// addition, subtraction and multiplication, truncating division and
/// remainder, and alignment `r * (l / r)`, which truncates `l` down to the
/// nearest multiple of `r`; dividing, taking a remainder, or aligning by zero
/// is a division by zero.
pub open spec fn spec_apply_op<T: RegisterValue>(a: T, b: T, op: BinOp) -> Result<
    T,
    EvaluationErrorModel,
> {
    let n = T::max_val() + 1;
    match op {
        BinOp::Add => Ok(T::of_int((a.val() + b.val()) % n)),
        BinOp::Sub => Ok(T::of_int((a.val() - b.val()) % n)),
        BinOp::Mul => Ok(T::of_int((a.val() * b.val()) % n)),
        BinOp::Div => if b.val() == 0 {
            Err(EvaluationErrorModel::DivisionByZero)
        } else {
            Ok(T::of_int(a.val() / b.val()))
        },
        BinOp::Mod => if b.val() == 0 {
            Err(EvaluationErrorModel::DivisionByZero)
        } else {
            Ok(T::of_int(a.val() % b.val()))
        },
        BinOp::Align => if b.val() == 0 {
            Err(EvaluationErrorModel::DivisionByZero)
        } else {
            Ok(T::of_int((b.val() * (a.val() / b.val())) % n))
        },
    }
}

/// What evaluating an expression yields against the given bindings and
/// optional memory region: a literal is its value; a constant or variable is
/// looked up, an unbound name failing; an operation evaluates its left
/// operand, then its right operand, then combines them; a dereference fails
/// when no memory region is configured, and otherwise evaluates its operand
/// to an address and reads a value of type `T` there, an out-of-bounds read
/// failing with the address, base and size that show why.
pub open spec fn spec_eval<T: RegisterValue>(
    e: ExprModel<T>,
    consts: Seq<(Seq<u8>, T)>,
    vars: Seq<(Seq<u8>, T)>,
    mem: Option<(u64, Seq<u8>)>,
    big_endian: bool,
) -> Result<T, EvaluationErrorModel>
    decreases e,
{
    match e {
        ExprModel::Value(x) => Ok(x),
        ExprModel::Const(c) => match assoc_get(consts, c) {
            Some(v) => Ok(v),
            None => Err(EvaluationErrorModel::UndefinedConstant(c)),
        },
        ExprModel::Var(name) => match assoc_get(vars, name) {
            Some(v) => Ok(v),
            None => Err(EvaluationErrorModel::UndefinedVariable(name)),
        },
        ExprModel::Op(l, r, op) => match spec_eval(*l, consts, vars, mem, big_endian) {
            Err(err) => Err(err),
            Ok(a) => match spec_eval(*r, consts, vars, mem, big_endian) {
                Err(err) => Err(err),
                Ok(b) => spec_apply_op(a, b, op),
            },
        },
        ExprModel::Deref(inner) => match mem {
            None => Err(EvaluationErrorModel::MemoryUnavailable),
            Some((base, contents)) => match spec_eval(*inner, consts, vars, mem, big_endian) {
                Err(err) => Err(err),
                Ok(a) => match crate::base::spec_region_get::<T>(
                    base,
                    contents,
                    a.val(),
                    big_endian,
                ) {
                    Some(v) => Ok(v),
                    None => Err(
                        EvaluationErrorModel::MemoryOutOfBounds {
                            address: a.val() as u64,
                            base: base,
                            size: contents.len() as usize,
                        },
                    ),
                },
            },
        },
    }
}

/// What applying a batch of assignments in order yields: the final variable
/// bindings, the set of variable names written, and the first evaluation
/// error, if any. The batch stops at the first failure, keeping the
/// assignments already applied; a variable assigned twice appears once in the
/// set.
pub open spec fn spec_batch<T: RegisterValue>(
    list: Seq<(Seq<u8>, ExprModel<T>)>,
    consts: Seq<(Seq<u8>, T)>,
    vars: Seq<(Seq<u8>, T)>,
    mem: Option<(u64, Seq<u8>)>,
    big_endian: bool,
) -> (Seq<(Seq<u8>, T)>, Set<Seq<u8>>, Option<EvaluationErrorModel>)
    decreases list.len(),
{
    if list.len() == 0 {
        (vars, Set::empty(), None)
    } else {
        match spec_eval(list[0].1, consts, vars, mem, big_endian) {
            Err(e) => (vars, Set::empty(), Some(e)),
            Ok(v) => {
                let rec = spec_batch(
                    list.drop_first(),
                    consts,
                    vars.push((list[0].0, v)),
                    mem,
                    big_endian,
                );
                (rec.0, rec.1.insert(list[0].0), rec.2)
            },
        }
    }
}

/// Encapsulates the information necessary to evaluate Breakpad RPN
/// expressions: an optional region of memory, the byte order its contents
/// are read under, the values of constants, and the values of variables.
///
/// The binding lists are read back through [`assoc_get`]: pushing a binding
/// for a name that is already bound shadows the earlier binding, so the lists
/// behave as maps from names to values.
pub struct MemoryEvaluator<M, T> {
    /// A region of memory. If this is absent, evaluation of expressions
    /// containing dereference operations will fail.
    pub memory: Option<M>,
    /// The byte order under which dereferenced memory is read.
    pub endian: RuntimeEndian,
    /// The values of constants. Using a constant that is not bound here
    /// causes evaluation to fail.
    pub constants: Vec<(Constant, T)>,
    /// The values of variables. Using a variable that is not bound here
    /// causes evaluation to fail; the [`assign`](Self::assign) and
    /// [`process`](Self::process) methods add bindings.
    pub variables: Vec<(Variable, T)>,
}

/// Looks a constant up in a binding list: the value of the last binding of
/// that name.
fn lookup_constant<T: Copy>(entries: &Vec<(Constant, T)>, name: &Constant) -> (r: Option<T>)
    ensures
        r == assoc_get(entries@.map_values(|p: (Constant, T)| (p.0@, p.1)), name@),
{
    let ghost em = entries@.map_values(|p: (Constant, T)| (p.0@, p.1));
    proof {
        assert(em.take(entries@.len() as int) =~= em);
    }
    let mut i: usize = entries.len();
    while i > 0
        invariant
            i <= entries@.len(),
            em == entries@.map_values(|p: (Constant, T)| (p.0@, p.1)),
            assoc_get(em, name@) == assoc_get(em.take(i as int), name@),
        decreases i,
    {
        let k = i - 1;
        proof {
            assert(em.take(k + 1).drop_last() =~= em.take(k as int));
            assert(em.take(k + 1).last() == em[k as int]);
        }
        let entry = &entries[k];
        if bytes_eq(entry.0.0.as_slice(), name.0.as_slice()) {
            return Some(entry.1);
        }
        i = k;
    }
    proof {
        assert(em.take(0) =~= Seq::<(Seq<u8>, T)>::empty());
    }
    None
}

/// Looks a variable up in a binding list: the value of the last binding of
/// that name.
fn lookup_variable<T: Copy>(entries: &Vec<(Variable, T)>, name: &Variable) -> (r: Option<T>)
    ensures
        r == assoc_get(entries@.map_values(|p: (Variable, T)| (p.0@, p.1)), name@),
{
    let ghost em = entries@.map_values(|p: (Variable, T)| (p.0@, p.1));
    proof {
        assert(em.take(entries@.len() as int) =~= em);
    }
    let mut i: usize = entries.len();
    while i > 0
        invariant
            i <= entries@.len(),
            em == entries@.map_values(|p: (Variable, T)| (p.0@, p.1)),
            assoc_get(em, name@) == assoc_get(em.take(i as int), name@),
        decreases i,
    {
        let k = i - 1;
        proof {
            assert(em.take(k + 1).drop_last() =~= em.take(k as int));
            assert(em.take(k + 1).last() == em[k as int]);
        }
        let entry = &entries[k];
        if bytes_eq(entry.0.0.as_slice(), name.0.as_slice()) {
            return Some(entry.1);
        }
        i = k;
    }
    proof {
        assert(em.take(0) =~= Seq::<(Seq<u8>, T)>::empty());
    }
    None
}

/// Whether a list of variables holds one with the given name.
fn contains_var(list: &Vec<Variable>, name: &Variable) -> (r: bool)
    ensures
        r == list@.map_values(|v: Variable| v@).contains(name@),
{
    let ghost lm = list@.map_values(|v: Variable| v@);
    let mut i: usize = 0;
    while i < list.len()
        invariant
            i <= list@.len(),
            lm == list@.map_values(|v: Variable| v@),
            forall|k: int| 0 <= k < i ==> lm[k] != name@,
        decreases list@.len() - i,
    {
        let entry = &list[i];
        if bytes_eq(entry.0.as_slice(), name.0.as_slice()) {
            proof {
                assert(lm[i as int] == name@);
            }
            return true;
        }
        i = i + 1;
    }
    false
}

impl<M: MemoryRegion, T: RegisterValue> MemoryEvaluator<M, T> {
    /// The constant bindings, as a specification-level list.
    pub open spec fn constants_model(self) -> Seq<(Seq<u8>, T)> {
        self.constants@.map_values(|p: (Constant, T)| (p.0@, p.1))
    }

    /// The variable bindings, as a specification-level list.
    pub open spec fn variables_model(self) -> Seq<(Seq<u8>, T)> {
        self.variables@.map_values(|p: (Variable, T)| (p.0@, p.1))
    }

    /// The memory region, as a base address and contents.
    pub open spec fn memory_model(self) -> Option<(u64, Seq<u8>)> {
        match self.memory {
            Some(m) => Some((m.spec_base_addr(), m.spec_contents())),
            None => None,
        }
    }

    /// What [`evaluate`](Self::evaluate) yields on this evaluator's bindings,
    /// memory and byte order.
    pub open spec fn spec_evaluate(self, e: ExprModel<T>) -> Result<T, EvaluationErrorModel> {
        spec_eval(
            e,
            self.constants_model(),
            self.variables_model(),
            self.memory_model(),
            self.endian.spec_is_big_endian(),
        )
    }

    /// An evaluator with no memory region and no bindings, reading memory
    /// under the given byte order.
    pub fn new(endian: RuntimeEndian) -> (r: Self)
        ensures
            r.memory is None,
            r.endian == endian,
            r.constants_model() == Seq::<(Seq<u8>, T)>::empty(),
            r.variables_model() == Seq::<(Seq<u8>, T)>::empty(),
    {
        let r = MemoryEvaluator {
            memory: None,
            endian,
            constants: Vec::new(),
            variables: Vec::new(),
        };
        proof {
            assert(r.constants_model() =~= Seq::<(Seq<u8>, T)>::empty());
            assert(r.variables_model() =~= Seq::<(Seq<u8>, T)>::empty());
        }
        r
    }

    /// Binds a constant to a value, shadowing any earlier binding.
    pub fn set_constant(&mut self, name: Constant, value: T)
        ensures
            final(self).constants_model() == old(self).constants_model().push((name@, value)),
            final(self).variables == old(self).variables,
            final(self).memory == old(self).memory,
            final(self).endian == old(self).endian,
    {
        let ghost nm = name@;
        self.constants.push((name, value));
        proof {
            assert(self.constants_model() =~= old(self).constants_model().push((nm, value)));
        }
    }

    /// Binds a variable to a value, shadowing any earlier binding.
    pub fn set_variable(&mut self, name: Variable, value: T)
        ensures
            final(self).variables_model() == old(self).variables_model().push((name@, value)),
            final(self).constants == old(self).constants,
            final(self).memory == old(self).memory,
            final(self).endian == old(self).endian,
    {
        let ghost nm = name@;
        self.variables.push((name, value));
        proof {
            assert(self.variables_model() =~= old(self).variables_model().push((nm, value)));
        }
    }

    /// The value a variable is bound to, if any.
    pub fn get_variable(&self, name: &Variable) -> (r: Option<T>)
        ensures
            r == assoc_get(self.variables_model(), name@),
    {
        lookup_variable(&self.variables, name)
    }

    /// The value a constant is bound to, if any.
    pub fn get_constant(&self, name: &Constant) -> (r: Option<T>)
        ensures
            r == assoc_get(self.constants_model(), name@),
    {
        lookup_constant(&self.constants, name)
    }

    /// Evaluates a single expression.
    ///
    /// This may fail if the expression tries to dereference unavailable
    /// memory, uses undefined constants or variables, or divides by zero.
    pub fn evaluate(&self, expr: &Expr<T>) -> (r: Result<T, EvaluationError>)
        ensures
            eval_result_model(r) == self.spec_evaluate(expr@),
        decreases *expr,
    {
        match expr {
            Expr::Value(x) => Ok(*x),
            Expr::Const(c) => match lookup_constant(&self.constants, c) {
                Some(v) => Ok(v),
                None => Err(EvaluationError::UndefinedConstant(c.duplicate())),
            },
            Expr::Var(v) => match lookup_variable(&self.variables, v) {
                Some(value) => Ok(value),
                None => Err(EvaluationError::UndefinedVariable(v.duplicate())),
            },
            Expr::Op(e1, e2, op) => {
                let a = match self.evaluate(e1) {
                    Ok(a) => a,
                    Err(err) => {
                        return Err(err);
                    },
                };
                let b = match self.evaluate(e2) {
                    Ok(b) => b,
                    Err(err) => {
                        return Err(err);
                    },
                };
                proof {
                    a.lemma_val_range();
                    b.lemma_val_range();
                    T::lemma_register_props();
                }
                match op {
                    BinOp::Add => Ok(a.wrapping_add(b)),
                    BinOp::Sub => Ok(a.wrapping_sub(b)),
                    BinOp::Mul => Ok(a.wrapping_mul(b)),
                    BinOp::Div => if b.is_zero() {
                        Err(EvaluationError::DivisionByZero)
                    } else {
                        Ok(a.div(b))
                    },
                    BinOp::Mod => if b.is_zero() {
                        Err(EvaluationError::DivisionByZero)
                    } else {
                        Ok(a.rem(b))
                    },
                    BinOp::Align => if b.is_zero() {
                        Err(EvaluationError::DivisionByZero)
                    } else {
                        let q = a.div(b);
                        proof {
                            vstd::arithmetic::div_mod::lemma_div_pos_is_pos(a.val(), b.val());
                            vstd::arithmetic::div_mod::lemma_div_nonincreasing(a.val(), b.val());
                            T::lemma_of_int_val(a.val() / b.val());
                        }
                        Ok(b.wrapping_mul(q))
                    },
                }
            },
            Expr::Deref(inner) => {
                match &self.memory {
                    Some(memory) => {
                        let a = match self.evaluate(inner) {
                            Ok(a) => a,
                            Err(err) => {
                                return Err(err);
                            },
                        };
                        match memory.get(a, self.endian) {
                            Some(v) => Ok(v),
                            None => {
                                proof {
                                    a.lemma_val_range();
                                    T::lemma_register_props();
                                }
                                Err(
                                    EvaluationError::MemoryOutOfBounds {
                                        address: a.to_u64(),
                                        base: memory.base_addr(),
                                        size: memory.size(),
                                    },
                                )
                            },
                        }
                    },
                    None => Err(EvaluationError::MemoryUnavailable),
                }
            },
        }
    }

    /// Performs an assignment by first evaluating its right-hand side and
    /// then binding the variable to the result.
    ///
    /// This may fail if the right-hand side cannot be evaluated, cf.
    /// [`evaluate`](Self::evaluate); the evaluator is then left unchanged. It
    /// returns `true` iff the assignment overwrote an existing binding.
    pub fn assign(&mut self, assignment: &Assignment<T>) -> (r: Result<bool, EvaluationError>)
        ensures
            final(self).constants == old(self).constants,
            final(self).memory == old(self).memory,
            final(self).endian == old(self).endian,
            match old(self).spec_evaluate(assignment.1@) {
                Ok(v) => {
                    &&& r == Ok::<bool, EvaluationError>(
                        assoc_get(old(self).variables_model(), assignment.0@) is Some,
                    )
                    &&& final(self).variables_model() == old(self).variables_model().push(
                        (assignment.0@, v),
                    )
                },
                Err(e) => {
                    &&& (r matches Err(q) && q@ == e)
                    &&& final(self).variables == old(self).variables
                },
            },
    {
        let value = match self.evaluate(&assignment.1) {
            Ok(v) => v,
            Err(err) => {
                return Err(err);
            },
        };
        let existed = lookup_variable(&self.variables, &assignment.0).is_some();
        let ghost nm = assignment.0@;
        self.variables.push((assignment.0.duplicate(), value));
        proof {
            assert(self.variables_model() =~= old(self).variables_model().push((nm, value)));
        }
        Ok(existed)
    }

    /// Processes a string of assignments, applying each in the order parsed
    /// and binding its variable to the evaluated result.
    ///
    /// This may fail if parsing goes wrong — the whole batch is rejected and
    /// nothing is applied — or if an assignment cannot be evaluated, cf.
    /// [`assign`](Self::assign): the batch then stops at the failing
    /// assignment, keeping the ones already applied. On success it returns
    /// the variables written, each once.
    #[verifier::loop_isolation(false)]
    pub fn process<'a>(&mut self, input: &'a [u8]) -> (r: Result<Vec<Variable>, ExpressionError<'a>>)
        ensures
            final(self).constants == old(self).constants,
            final(self).memory == old(self).memory,
            final(self).endian == old(self).endian,
            match parsing::spec_assignments::<T>(input@) {
                Err(e) => {
                    &&& (r matches Err(q) && q matches ExpressionError::Parsing(pe) && pe.kind
                        == e.0 && pe.input@ == input@.skip(e.1))
                    &&& final(self).variables == old(self).variables
                },
                Ok(list) => {
                    let b = spec_batch(
                        list,
                        old(self).constants_model(),
                        old(self).variables_model(),
                        old(self).memory_model(),
                        old(self).endian.spec_is_big_endian(),
                    );
                    &&& final(self).variables_model() == b.0
                    &&& match b.2 {
                        Some(e) => r matches Err(q) && q matches ExpressionError::Evaluation(ee)
                            && ee@ == e,
                        None => r matches Ok(ch) && ch@.map_values(|v: Variable| v@).to_set()
                            == b.1 && (forall|x: int, y: int|
                            0 <= x < y < ch@.len() ==> ch@[x]@ != ch@[y]@),
                    }
                },
            },
    {
        let list = match parsing::assignments::<T>(input) {
            Ok(list) => list,
            Err(e) => {
                return Err(ExpressionError::Parsing(e));
            },
        };
        let ghost lm = list@.map_values(|a: Assignment<T>| a@);
        let ghost full = spec_batch(
            lm,
            self.constants_model(),
            self.variables_model(),
            self.memory_model(),
            self.endian.spec_is_big_endian(),
        );
        let mut changed: Vec<Variable> = Vec::new();
        let mut idx: usize = 0;
        proof {
            assert(lm.skip(0) =~= lm);
        }
        while idx < list.len()
            invariant
                idx <= list@.len(),
                lm == list@.map_values(|a: Assignment<T>| a@),
                self.constants == old(self).constants,
                self.memory == old(self).memory,
                self.endian == old(self).endian,
                full == spec_batch(
                    lm,
                    old(self).constants_model(),
                    old(self).variables_model(),
                    old(self).memory_model(),
                    old(self).endian.spec_is_big_endian(),
                ),
                ({
                    let rest = spec_batch(
                        lm.skip(idx as int),
                        old(self).constants_model(),
                        self.variables_model(),
                        old(self).memory_model(),
                        old(self).endian.spec_is_big_endian(),
                    );
                    &&& full.0 == rest.0
                    &&& full.2 == rest.2
                    &&& full.1 == rest.1.union(changed@.map_values(|v: Variable| v@).to_set())
                }),
                forall|x: int, y: int|
                    0 <= x < y < changed@.len() ==> changed@[x]@ != changed@[y]@,
            decreases list@.len() - idx,
        {
            let ghost vars_before = self.variables_model();
            let ghost chset = changed@.map_values(|v: Variable| v@).to_set();
            proof {
                assert(lm.skip(idx as int)[0] == lm[idx as int]);
                assert(lm.skip(idx as int).drop_first() =~= lm.skip(idx + 1));
            }
            let a = &list[idx];
            match self.assign(a) {
                Ok(_) => {},
                Err(e) => {
                    proof {
                        let rest = spec_batch(
                            lm.skip(idx as int),
                            old(self).constants_model(),
                            vars_before,
                            old(self).memory_model(),
                            old(self).endian.spec_is_big_endian(),
                        );
                        assert(rest == (vars_before, Set::<Seq<u8>>::empty(), Some(e@)));
                    }
                    return Err(ExpressionError::Evaluation(e));
                },
            }
            if !contains_var(&changed, &a.0) {
                let ghost nm = a.0@;
                let ghost before = changed@;
                changed.push(a.0.duplicate());
                proof {
                    assert(changed@.map_values(|v: Variable| v@) =~= before.map_values(
                        |v: Variable| v@,
                    ).push(nm));
                    before.map_values(|v: Variable| v@).lemma_push_to_set_commute(nm);
                    assert(changed@.map_values(|v: Variable| v@).to_set() =~= chset.insert(nm));
                    assert forall|x: int| 0 <= x < before.len() implies #[trigger] before[x]@
                        != nm by {
                        assert(before.map_values(|v: Variable| v@)[x] == before[x]@);
                        if before[x]@ == nm {
                            assert(before.map_values(|v: Variable| v@).contains(nm));
                        }
                    }
                }
            } else {
                proof {
                    assert(chset.insert(a.0@) =~= chset);
                }
            }
            proof {
                let rest2 = spec_batch(
                    lm.skip(idx + 1),
                    old(self).constants_model(),
                    self.variables_model(),
                    old(self).memory_model(),
                    old(self).endian.spec_is_big_endian(),
                );
                assert(full.1 == rest2.1.union(changed@.map_values(|v: Variable| v@).to_set()));
            }
            idx = idx + 1;
        }
        proof {
            assert(lm.skip(lm.len() as int) =~= Seq::<(Seq<u8>, ExprModel<T>)>::empty());
            assert(full.1 =~= changed@.map_values(|v: Variable| v@).to_set());
        }
        Ok(changed)
    }
}

/// The Align law: for a non-zero alignment `b`, the Align operation succeeds
/// and yields the greatest multiple of `b.val()` that is at most `a.val()`.
pub proof fn lemma_align_truncates<T: RegisterValue>(a: T, b: T)
    requires
        b.val() != 0,
    ensures
        spec_apply_op(a, b, BinOp::Align) matches Ok(r) && r.val() % b.val() == 0 && r.val()
            <= a.val() && a.val() < r.val() + b.val(),
{
    a.lemma_val_range();
    b.lemma_val_range();
    T::lemma_register_props();
    let av = a.val();
    let bv = b.val();
    let q = av / bv;
    vstd::arithmetic::div_mod::lemma_fundamental_div_mod(av, bv);
    vstd::arithmetic::div_mod::lemma_mod_division_less_than_divisor(av, bv);
    assert(bv * q == av - av % bv);
    vstd::arithmetic::div_mod::lemma_small_mod((bv * q) as nat, (T::max_val() + 1) as nat);
    T::lemma_of_int_val(bv * q);
    vstd::arithmetic::div_mod::lemma_mod_multiples_basic(q, bv);
}

} // verus!
