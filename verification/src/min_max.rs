use arrow::array::Int32Array;
use arrow::error::ArrowError;
use vstd::prelude::*;

use crate::batch::{int32s_of, Column, RuntimeInfo, ValueRef};
use crate::error::EvalError;

verus! {

#[verifier::external_type_specification]
#[verifier::external_body]
pub struct ExArrowError(ArrowError);

/// The lesser of two values: `a` where `a < b`, else `b`.
pub open spec fn lesser(a: i32, b: i32) -> i32 {
    if a < b {
        a
    } else {
        b
    }
}

/// The greater of two values: `a` where `a > b`, else `b`.
pub open spec fn greater(a: i32, b: i32) -> i32 {
    if a > b {
        a
    } else {
        b
    }
}

/// Row by row the lesser of two columns; null where either is null.
pub open spec fn zip_min_rows(left: Seq<Option<i32>>, right: Seq<Option<i32>>) -> Seq<
    Option<i32>,
> {
    Seq::new(
        left.len(),
        |i: int|
            match (left[i], right[i]) {
                (Some(a), Some(b)) => Some(lesser(a, b)),
                _ => None,
            },
    )
}

/// Row by row the greater of two columns; null where either is null.
pub open spec fn zip_max_rows(left: Seq<Option<i32>>, right: Seq<Option<i32>>) -> Seq<
    Option<i32>,
> {
    Seq::new(
        left.len(),
        |i: int|
            match (left[i], right[i]) {
                (Some(a), Some(b)) => Some(greater(a, b)),
                _ => None,
            },
    )
}

/// Calls `arrow::compute::math_op` on two columns of 32-bit integers.
///
/// Believed of it, not proved: it fails exactly where the columns differ in
/// length; otherwise the result has their length, is null in each row where
/// either column is null, and holds in every other row what `op` returns for
/// the two values of that row. The kernel calls `op` on every row, the null
/// ones too, so `op` has to accept every pair.
#[verifier::external_body]
fn math_op_int32<F: Fn(i32, i32) -> i32>(
    left: &Vec<Option<i32>>,
    right: &Vec<Option<i32>>,
    op: F,
) -> (result: Result<Vec<Option<i32>>, ArrowError>)
    requires
        forall|a: i32, b: i32| op.requires((a, b)),
    ensures
        result is Ok <==> left@.len() == right@.len(),
        result is Ok ==> result->Ok_0@.len() == left@.len(),
        result is Ok ==> forall|i: int|
            0 <= i < left@.len() ==> match (left@[i], right@[i]) {
                (Some(a), Some(b)) => (#[trigger] result->Ok_0@[i]) is Some && op.ensures(
                    (a, b),
                    result->Ok_0@[i]->Some_0,
                ),
                _ => result->Ok_0@[i] is None,
            },
{
    let left = Int32Array::from(left.clone());
    let right = Int32Array::from(right.clone());
    let out = arrow::compute::math_op(&left, &right, op)?;
    Ok(out.iter().collect())
}

/// The per-row minimum of two columns: `a` where `a < b`, else `b`; null
/// where either is null. Fails where the columns differ in length.
pub fn zip_min(left: &Vec<Option<i32>>, right: &Vec<Option<i32>>) -> (result: Result<
    Vec<Option<i32>>,
    EvalError,
>)
    ensures
        left@.len() == right@.len() ==> result is Ok && result->Ok_0@ == zip_min_rows(
            left@,
            right@,
        ),
        left@.len() != right@.len() ==> result is Err && result->Err_0
            == EvalError::LengthMismatch,
{
    let op = |a: i32, b: i32| -> (m: i32)
        ensures
            m == lesser(a, b),
        {
            if a < b {
                a
            } else {
                b
            }
        };
    match math_op_int32(left, right, op) {
        Ok(out) => {
            assert(out@ =~= zip_min_rows(left@, right@));
            Ok(out)
        },
        Err(_) => Err(EvalError::LengthMismatch),
    }
}

/// The per-row maximum of two columns: `a` where `a > b`, else `b`; null
/// where either is null. Fails where the columns differ in length.
pub fn zip_max(left: &Vec<Option<i32>>, right: &Vec<Option<i32>>) -> (result: Result<
    Vec<Option<i32>>,
    EvalError,
>)
    ensures
        left@.len() == right@.len() ==> result is Ok && result->Ok_0@ == zip_max_rows(
            left@,
            right@,
        ),
        left@.len() != right@.len() ==> result is Err && result->Err_0
            == EvalError::LengthMismatch,
{
    let op = |a: i32, b: i32| -> (m: i32)
        ensures
            m == greater(a, b),
        {
            if a > b {
                a
            } else {
                b
            }
        };
    match math_op_int32(left, right, op) {
        Ok(out) => {
            assert(out@ =~= zip_max_rows(left@, right@));
            Ok(out)
        },
        Err(_) => Err(EvalError::LengthMismatch),
    }
}

/// The two integer columns that `lhs` and `rhs` stand for in a batch of
/// `rows` rows: the left one is looked up and read first.
pub open spec fn zip_operands(lhs: ValueRef, rhs: ValueRef, columns: Seq<Column>, rows: nat) -> Result<
    (Seq<Option<i32>>, Seq<Option<i32>>),
    EvalError,
> {
    match int32s_of(columns, rows, lhs) {
        Err(e) => Err(e),
        Ok(left) => match int32s_of(columns, rows, rhs) {
            Err(e) => Err(e),
            Ok(right) => if left.len() == right.len() {
                Ok((left, right))
            } else {
                Err(EvalError::LengthMismatch)
            },
        },
    }
}

/// The two operands of a binary instruction: exactly two arguments.
pub open spec fn two_arguments(args: Seq<ValueRef>) -> Option<(ValueRef, ValueRef)> {
    if args.len() == 2 {
        Some((args[0], args[1]))
    } else {
        None
    }
}

fn unpack_arguments(args: &Vec<ValueRef>) -> (result: Result<(ValueRef, ValueRef), EvalError>)
    ensures
        match two_arguments(args@) {
            Some(pair) => result == Ok::<(ValueRef, ValueRef), EvalError>(pair),
            None => result == Err::<(ValueRef, ValueRef), EvalError>(EvalError::WrongArity),
        },
{
    if args.len() == 2 {
        Ok((args[0], args[1]))
    } else {
        Err(EvalError::WrongArity)
    }
}

/// Evaluator for the per-row minimum of two columns.
#[derive(Debug, Clone, Copy, PartialEq, Eq, Structural)]
pub struct ZipMinEvaluator {
    pub lhs: ValueRef,
    pub rhs: ValueRef,
}

impl ZipMinEvaluator {
    /// The evaluator on the two arguments of the instruction.
    pub fn try_new(args: &Vec<ValueRef>) -> (result: Result<ZipMinEvaluator, EvalError>)
        ensures
            match two_arguments(args@) {
                Some((lhs, rhs)) => result == Ok::<ZipMinEvaluator, EvalError>(
                    ZipMinEvaluator { lhs, rhs },
                ),
                None => result == Err::<ZipMinEvaluator, EvalError>(EvalError::WrongArity),
            },
    {
        match unpack_arguments(args) {
            Ok((lhs, rhs)) => Ok(ZipMinEvaluator { lhs, rhs }),
            Err(e) => Err(e),
        }
    }

    /// The per-row minimum of the two operands in the current batch.
    pub fn evaluate(&mut self, info: &RuntimeInfo) -> (result: Result<Column, EvalError>)
        ensures
            *final(self) == *old(self),
            match zip_operands(
                old(self).lhs,
                old(self).rhs,
                info.spec_columns(),
                info.spec_grouping().spec_group_indices().len(),
            ) {
                Ok((left, right)) => result matches Ok(Column::Int32(out)) && out@ == zip_min_rows(
                    left,
                    right,
                ),
                Err(e) => result == Err::<Column, EvalError>(e),
            },
    {
        let lhs = match info.value(&self.lhs) {
            Ok(column) => column,
            Err(e) => {
                return Err(e);
            },
        };
        let lhs = match lhs.primitive_array() {
            Ok(values) => values,
            Err(e) => {
                return Err(e);
            },
        };
        let rhs = match info.value(&self.rhs) {
            Ok(column) => column,
            Err(e) => {
                return Err(e);
            },
        };
        let rhs = match rhs.primitive_array() {
            Ok(values) => values,
            Err(e) => {
                return Err(e);
            },
        };
        match zip_min(lhs.values(), rhs.values()) {
            Ok(out) => Ok(Column::Int32(out)),
            Err(e) => Err(e),
        }
    }
}

/// Evaluator for the per-row maximum of two columns.
#[derive(Debug, Clone, Copy, PartialEq, Eq, Structural)]
pub struct ZipMaxEvaluator {
    pub lhs: ValueRef,
    pub rhs: ValueRef,
}

impl ZipMaxEvaluator {
    /// The evaluator on the two arguments of the instruction.
    pub fn try_new(args: &Vec<ValueRef>) -> (result: Result<ZipMaxEvaluator, EvalError>)
        ensures
            match two_arguments(args@) {
                Some((lhs, rhs)) => result == Ok::<ZipMaxEvaluator, EvalError>(
                    ZipMaxEvaluator { lhs, rhs },
                ),
                None => result == Err::<ZipMaxEvaluator, EvalError>(EvalError::WrongArity),
            },
    {
        match unpack_arguments(args) {
            Ok((lhs, rhs)) => Ok(ZipMaxEvaluator { lhs, rhs }),
            Err(e) => Err(e),
        }
    }

    /// The per-row maximum of the two operands in the current batch.
    pub fn evaluate(&mut self, info: &RuntimeInfo) -> (result: Result<Column, EvalError>)
        ensures
            *final(self) == *old(self),
            match zip_operands(
                old(self).lhs,
                old(self).rhs,
                info.spec_columns(),
                info.spec_grouping().spec_group_indices().len(),
            ) {
                Ok((left, right)) => result matches Ok(Column::Int32(out)) && out@ == zip_max_rows(
                    left,
                    right,
                ),
                Err(e) => result == Err::<Column, EvalError>(e),
            },
    {
        let lhs = match info.value(&self.lhs) {
            Ok(column) => column,
            Err(e) => {
                return Err(e);
            },
        };
        let lhs = match lhs.primitive_array() {
            Ok(values) => values,
            Err(e) => {
                return Err(e);
            },
        };
        let rhs = match info.value(&self.rhs) {
            Ok(column) => column,
            Err(e) => {
                return Err(e);
            },
        };
        let rhs = match rhs.primitive_array() {
            Ok(values) => values,
            Err(e) => {
                return Err(e);
            },
        };
        match zip_max(lhs.values(), rhs.values()) {
            Ok(out) => Ok(Column::Int32(out)),
            Err(e) => Err(e),
        }
    }
}

} // verus!
