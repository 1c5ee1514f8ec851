use vstd::prelude::*;

verus! {

/// The four binary operators of the puzzle.
#[derive(Clone, Copy, Debug, PartialEq, Eq, Structural)]
pub enum OperationKind {
    Add,
    Subtract,
    Multiply,
    Divide,
}

/// The value of `a op b` over the integers, or `None` where the puzzle leaves
/// it undefined: a negative difference, a division by zero, or a division
/// with a remainder.
pub open spec fn evaluate(a: int, b: int, kind: OperationKind) -> Option<int> {
    match kind {
        OperationKind::Add => Some(a + b),
        OperationKind::Subtract => if a >= b { Some(a - b) } else { None },
        OperationKind::Multiply => Some(a * b),
        OperationKind::Divide => if b != 0 && a % b == 0 { Some(a / b) } else { None },
    }
}

pub open spec fn fits_i32(v: int) -> bool {
    i32::MIN <= v <= i32::MAX
}

/// The value an operand pair gives under `kind`, as an operand: `None` where
/// the operation is undefined or its value does not fit in an `i32`.
pub open spec fn operation_value(pair: (i32, i32), kind: OperationKind) -> Option<i32> {
    match evaluate(pair.0 as int, pair.1 as int, kind) {
        Some(v) => if fits_i32(v) { Some(v as i32) } else { None },
        None => None,
    }
}

/// Division by zero is undefined for every dividend.
pub proof fn lemma_divide_by_zero_undefined(a: i32)
    ensures
        evaluate(a as int, 0, OperationKind::Divide) is None,
        operation_value((a, 0), OperationKind::Divide) is None,
{
}

/// Addition and multiplication are defined for every pair of integers; as
/// operands they are defined exactly when the value fits in an `i32`.
pub proof fn lemma_add_multiply_total(a: i32, b: i32)
    ensures
        evaluate(a as int, b as int, OperationKind::Add) == Some(a + b),
        evaluate(a as int, b as int, OperationKind::Multiply) == Some(a * b),
        operation_value((a, b), OperationKind::Add) is Some <==> fits_i32(a + b),
        operation_value((a, b), OperationKind::Multiply) is Some <==> fits_i32(a * b),
{
}

impl OperationKind {
    /// The symbol that stands for the operator in a rendered operation.
    pub fn symbol(&self) -> (r: char)
        ensures
            r == match *self {
                OperationKind::Add => '+',
                OperationKind::Subtract => '-',
                OperationKind::Multiply => '*',
                OperationKind::Divide => '/',
            },
    {
        match self {
            OperationKind::Add => '+',
            OperationKind::Subtract => '-',
            OperationKind::Multiply => '*',
            OperationKind::Divide => '/',
        }
    }
}

/// One evaluated step: an ordered operand pair, an operator, and the value it
/// gave, fixed when the record is made.
#[derive(Clone, Copy, Debug)]
pub struct Operation {
    pub operands: (i32, i32),
    pub operation: OperationKind,
    pub value: Option<i32>,
}

impl Operation {
    /// The record is well formed when its value is the one its operands and
    /// operator give.
    pub open spec fn wf(&self) -> bool {
        self.value == operation_value(self.operands, self.operation)
    }

    /// Evaluates `kind` on `operands` once and records the outcome.
    pub fn new(operands: (i32, i32), operation: OperationKind) -> (r: Operation)
        ensures
            r.operands == operands,
            r.operation == operation,
            r.value == operation_value(operands, operation),
            r.wf(),
    {
        Operation { operands, operation, value: Self::apply(operands, operation) }
    }

    /// The value of `op` on the ordered pair, if it is defined and fits in an
    /// `i32`.
    pub fn apply(pair: (i32, i32), op: OperationKind) -> (r: Option<i32>)
        ensures
            r == operation_value(pair, op),
    {
        let (a, b) = pair;
        match op {
            OperationKind::Add => a.checked_add(b),
            OperationKind::Subtract => {
                if a >= b {
                    a.checked_sub(b)
                } else {
                    None
                }
            },
            OperationKind::Multiply => a.checked_mul(b),
            OperationKind::Divide => {
                if b == 0 {
                    None
                } else {
                    match a.checked_rem_euclid(b) {
                        Some(0) => a.checked_div_euclid(b),
                        _ => None,
                    }
                }
            },
        }
    }

    pub fn operands(&self) -> (r: (i32, i32))
        ensures
            r == self.operands,
    {
        self.operands
    }

    pub fn kind(&self) -> (r: OperationKind)
        ensures
            r == self.operation,
    {
        self.operation
    }

    pub fn value(&self) -> (r: Option<i32>)
        ensures
            r == self.value,
    {
        self.value
    }
}

} // verus!
