use vstd::prelude::*;

use crate::error::EvalError;

verus! {

/// A reference to an operand of an instruction.
#[derive(Debug, Clone, Copy, PartialEq, Eq, Structural)]
pub enum ValueRef {
    /// The column of the current batch with this position.
    Column(usize),
    /// The literal null.
    Null,
    /// A literal integer.
    Int64(i64),
}

/// One column of a batch: a value or null for each row.
#[derive(Debug, PartialEq, Eq)]
pub enum Column {
    Boolean(Vec<Option<bool>>),
    Int32(Vec<Option<i32>>),
    Int64(Vec<Option<i64>>),
}

impl Column {
    /// The number of rows.
    pub open spec fn spec_len(&self) -> nat {
        match self {
            Column::Boolean(values) => values@.len(),
            Column::Int32(values) => values@.len(),
            Column::Int64(values) => values@.len(),
        }
    }

    /// The number of rows.
    pub fn len(&self) -> (n: usize)
        ensures
            n == self.spec_len(),
    {
        match self {
            Column::Boolean(values) => values.len(),
            Column::Int32(values) => values.len(),
            Column::Int64(values) => values.len(),
        }
    }

    /// The column as booleans, where it holds booleans.
    pub fn boolean_array(&self) -> (result: Result<&Vec<Option<bool>>, EvalError>)
        ensures
            match *self {
                Column::Boolean(values) => result == Ok::<&Vec<Option<bool>>, EvalError>(&values),
                _ => result == Err::<&Vec<Option<bool>>, EvalError>(
                    EvalError::TypeMismatch,
                ),
            },
    {
        match self {
            Column::Boolean(values) => Ok(values),
            _ => Err(EvalError::TypeMismatch),
        }
    }

    /// The column as 32-bit integers, where it holds them.
    pub fn primitive_array(&self) -> (result: Result<&Vec<Option<i32>>, EvalError>)
        ensures
            match *self {
                Column::Int32(values) => result == Ok::<&Vec<Option<i32>>, EvalError>(&values),
                _ => result == Err::<&Vec<Option<i32>>, EvalError>(
                    EvalError::TypeMismatch,
                ),
            },
    {
        match self {
            Column::Int32(values) => Ok(values),
            _ => Err(EvalError::TypeMismatch),
        }
    }

    /// The column as 64-bit integers, where it holds them.
    pub fn int64_array(&self) -> (result: Result<&Vec<Option<i64>>, EvalError>)
        ensures
            match *self {
                Column::Int64(values) => result == Ok::<&Vec<Option<i64>>, EvalError>(&values),
                _ => result == Err::<&Vec<Option<i64>>, EvalError>(EvalError::TypeMismatch),
            },
    {
        match self {
            Column::Int64(values) => Ok(values),
            _ => Err(EvalError::TypeMismatch),
        }
    }
}

/// Which entity each row of a batch belongs to.
pub struct Grouping {
    num_groups: usize,
    group_indices: Vec<u32>,
}

impl Grouping {
    /// Every row's entity index is below the number of entities.
    pub closed spec fn wf(&self) -> bool {
        &&& self.group_indices@.len() <= usize::MAX
        &&& forall|i: int|
            0 <= i < self.group_indices@.len() ==> (#[trigger] self.group_indices@[i])
                < self.num_groups
    }

    /// The number of entities seen so far.
    pub closed spec fn spec_num_groups(&self) -> usize {
        self.num_groups
    }

    /// The entity index of each row.
    pub closed spec fn spec_group_indices(&self) -> Seq<u32> {
        self.group_indices@
    }

    /// What `wf` says, over the public names.
    pub proof fn lemma_wf(&self)
        requires
            self.wf(),
        ensures
            indices_below(self.spec_group_indices(), self.spec_num_groups() as nat),
            self.spec_group_indices().len() <= usize::MAX,
    {
    }

    /// The grouping of a batch. Fails exactly where some row's entity index
    /// is not below `num_groups`.
    pub fn try_new(num_groups: usize, group_indices: Vec<u32>) -> (result: Result<
        Grouping,
        EvalError,
    >)
        ensures
            indices_below(group_indices@, num_groups as nat) ==> result is Ok
                && result->Ok_0.wf() && result->Ok_0.spec_num_groups() == num_groups
                && result->Ok_0.spec_group_indices() == group_indices@,
            !indices_below(group_indices@, num_groups as nat) ==> result is Err
                && result->Err_0 == EvalError::EntityOutOfRange,
    {
        let mut i: usize = 0;
        while i < group_indices.len()
            invariant
                i <= group_indices@.len(),
                forall|j: int| 0 <= j < i ==> (#[trigger] group_indices@[j]) < num_groups,
            decreases group_indices@.len() - i,
        {
            if group_indices[i] as usize >= num_groups {
                return Err(EvalError::EntityOutOfRange);
            }
            i += 1;
        }
        Ok(Grouping { num_groups, group_indices })
    }

    /// The number of entities seen so far.
    #[verifier::when_used_as_spec(spec_num_groups)]
    pub fn num_groups(&self) -> (n: usize)
        ensures
            n == self.spec_num_groups(),
    {
        self.num_groups
    }

    /// The entity index of each row.
    pub fn group_indices(&self) -> (indices: &Vec<u32>)
        ensures
            indices@ == self.spec_group_indices(),
    {
        &self.group_indices
    }
}

/// Whether every index of `indices` is below `bound`.
pub open spec fn indices_below(indices: Seq<u32>, bound: nat) -> bool {
    forall|i: int| 0 <= i < indices.len() ==> (#[trigger] indices[i]) < bound
}

/// What an evaluator sees of the batch it works on: the grouping of the rows
/// and the columns that operand references resolve to.
pub struct RuntimeInfo {
    grouping: Grouping,
    columns: Vec<Column>,
}

impl RuntimeInfo {
    /// The grouping is well formed and every column has one entry for each
    /// row.
    pub closed spec fn wf(&self) -> bool {
        &&& self.grouping.wf()
        &&& forall|c: int|
            0 <= c < self.columns@.len() ==> (#[trigger] self.columns@[c]).spec_len()
                == self.grouping.spec_group_indices().len()
    }

    /// The grouping of the batch.
    pub closed spec fn spec_grouping(&self) -> Grouping {
        self.grouping
    }

    /// The columns of the batch.
    pub closed spec fn spec_columns(&self) -> Seq<Column> {
        self.columns@
    }

    /// What `wf` says, over the public names.
    pub proof fn lemma_wf(&self)
        requires
            self.wf(),
        ensures
            self.spec_grouping().wf(),
            columns_aligned(self.spec_columns(), self.spec_grouping().spec_group_indices().len()),
    {
    }

    /// The view of a batch. Fails exactly where some column's length differs
    /// from the number of rows.
    pub fn try_new(grouping: Grouping, columns: Vec<Column>) -> (result: Result<
        RuntimeInfo,
        EvalError,
    >)
        requires
            grouping.wf(),
        ensures
            columns_aligned(columns@, grouping.spec_group_indices().len()) ==> result is Ok
                && result->Ok_0.wf() && result->Ok_0.spec_grouping() == grouping
                && result->Ok_0.spec_columns() == columns@,
            !columns_aligned(columns@, grouping.spec_group_indices().len()) ==> result is Err
                && result->Err_0 == EvalError::LengthMismatch,
    {
        let rows: usize = grouping.group_indices.len();
        let mut c: usize = 0;
        while c < columns.len()
            invariant
                c <= columns@.len(),
                rows == grouping.spec_group_indices().len(),
                forall|j: int| 0 <= j < c ==> (#[trigger] columns@[j]).spec_len() == rows,
            decreases columns@.len() - c,
        {
            if columns[c].len() != rows {
                return Err(EvalError::LengthMismatch);
            }
            c += 1;
        }
        Ok(RuntimeInfo { grouping, columns })
    }

    /// The grouping of the batch.
    pub fn grouping(&self) -> (grouping: &Grouping)
        ensures
            *grouping == self.spec_grouping(),
    {
        &self.grouping
    }

    /// What `reference` resolves to in the batch: the column it names, or
    /// the literal it holds, which stands for one value in every row. Fails
    /// where it names a column that the batch does not have.
    pub fn value(&self, reference: &ValueRef) -> (result: Result<Operand<'_>, EvalError>)
        ensures
            !resolves(self.spec_columns(), *reference) ==> result is Err && result->Err_0
                == EvalError::MissingOperand,
            resolves(self.spec_columns(), *reference) ==> result is Ok && result->Ok_0
                == resolved(
                self.spec_columns(),
                self.spec_grouping().spec_group_indices().len(),
                *reference,
            ),
    {
        let rows: usize = self.grouping.group_indices.len();
        match reference {
            ValueRef::Column(index) => {
                if *index < self.columns.len() {
                    Ok(Operand::Column(&self.columns[*index]))
                } else {
                    Err(EvalError::MissingOperand)
                }
            },
            ValueRef::Null => Ok(Operand::Null(rows)),
            ValueRef::Int64(value) => Ok(Operand::Int64(*value, rows)),
        }
    }
}

/// Whether every column has `rows` entries.
pub open spec fn columns_aligned(columns: Seq<Column>, rows: nat) -> bool {
    forall|c: int| 0 <= c < columns.len() ==> (#[trigger] columns[c]).spec_len() == rows
}

/// Whether `reference` resolves among `columns`: every literal does, and a
/// column that is there.
pub open spec fn resolves(columns: Seq<Column>, reference: ValueRef) -> bool {
    reference matches ValueRef::Column(index) ==> index < columns.len()
}

/// What a reference that resolves stands for in a batch of `rows` rows.
pub open spec fn resolved(columns: Seq<Column>, rows: nat, reference: ValueRef) -> Operand<'static> {
    match reference {
        ValueRef::Column(index) => Operand::Column(&columns[index as int]),
        ValueRef::Null => Operand::Null(rows as usize),
        ValueRef::Int64(value) => Operand::Int64(value, rows as usize),
    }
}

/// The booleans that `reference` stands for in a batch of `rows` rows.
pub open spec fn booleans_of(columns: Seq<Column>, rows: nat, reference: ValueRef) -> Result<
    Seq<Option<bool>>,
    EvalError,
> {
    if !resolves(columns, reference) {
        Err(EvalError::MissingOperand)
    } else {
        resolved(columns, rows, reference).booleans()
    }
}

/// The 32-bit integers that `reference` stands for in a batch of `rows`
/// rows.
pub open spec fn int32s_of(columns: Seq<Column>, rows: nat, reference: ValueRef) -> Result<
    Seq<Option<i32>>,
    EvalError,
> {
    if !resolves(columns, reference) {
        Err(EvalError::MissingOperand)
    } else {
        resolved(columns, rows, reference).int32s()
    }
}

/// The 64-bit integers that `reference` stands for in a batch of `rows`
/// rows.
pub open spec fn int64s_of(columns: Seq<Column>, rows: nat, reference: ValueRef) -> Result<
    Seq<Option<i64>>,
    EvalError,
> {
    if !resolves(columns, reference) {
        Err(EvalError::MissingOperand)
    } else {
        resolved(columns, rows, reference).int64s()
    }
}

/// In a batch whose columns have one entry for each row, so has whatever an
/// operand stands for.
pub proof fn lemma_operand_rows(columns: Seq<Column>, rows: nat, reference: ValueRef)
    requires
        columns_aligned(columns, rows),
        rows <= usize::MAX,
    ensures
        booleans_of(columns, rows, reference) matches Ok(values) ==> values.len() == rows,
        int32s_of(columns, rows, reference) matches Ok(values) ==> values.len() == rows,
        int64s_of(columns, rows, reference) matches Ok(values) ==> values.len() == rows,
{
    if let ValueRef::Column(index) = reference {
        if index < columns.len() {
            assert(columns[index as int].spec_len() == rows);
        }
    }
}

/// The values of an operand: those of a column of the batch, or those that
/// were made for a literal.
#[derive(Debug, PartialEq, Eq)]
pub enum Array<'a, T> {
    Borrowed(&'a Vec<Option<T>>),
    Owned(Vec<Option<T>>),
}

impl<'a, T> View for Array<'a, T> {
    type V = Seq<Option<T>>;

    open spec fn view(&self) -> Seq<Option<T>> {
        match self {
            Array::Borrowed(values) => values@,
            Array::Owned(values) => values@,
        }
    }
}

impl<'a, T> Array<'a, T> {
    /// The values, a value or null for each row.
    pub fn values(&self) -> (values: &Vec<Option<T>>)
        ensures
            values@ == self@,
    {
        match self {
            Array::Borrowed(values) => values,
            Array::Owned(values) => values,
        }
    }
}

/// A column of `rows` nulls.
pub fn nulls<T>(rows: usize) -> (values: Vec<Option<T>>)
    ensures
        values@ == Seq::new(rows as nat, |i: int| None::<T>),
{
    let mut values: Vec<Option<T>> = Vec::new();
    while values.len() < rows
        invariant
            values@.len() <= rows,
            forall|i: int| 0 <= i < values@.len() ==> (#[trigger] values@[i]) is None,
        decreases rows - values@.len(),
    {
        values.push(None);
    }
    assert(values@ =~= Seq::new(rows as nat, |i: int| None::<T>));
    values
}

/// A column of `rows` times `value`.
pub fn repeated(value: i64, rows: usize) -> (values: Vec<Option<i64>>)
    ensures
        values@ == Seq::new(rows as nat, |i: int| Some(value)),
{
    let mut values: Vec<Option<i64>> = Vec::new();
    while values.len() < rows
        invariant
            values@.len() <= rows,
            forall|i: int| 0 <= i < values@.len() ==> (#[trigger] values@[i]) == Some(value),
        decreases rows - values@.len(),
    {
        values.push(Some(value));
    }
    assert(values@ =~= Seq::new(rows as nat, |i: int| Some(value)));
    values
}

/// What an operand reference resolves to: a column of the batch, or a
/// literal that stands for one value in every row.
#[derive(Debug, PartialEq, Eq)]
pub enum Operand<'a> {
    /// A column of the batch.
    Column(&'a Column),
    /// Null in each of so many rows.
    Null(usize),
    /// This integer in each of so many rows.
    Int64(i64, usize),
}

impl<'a> Operand<'a> {
    /// The operand as booleans. A null literal is null in every row; an
    /// integer is no boolean.
    pub open spec fn booleans(&self) -> Result<Seq<Option<bool>>, EvalError> {
        match *self {
            Operand::Column(column) => match *column {
                Column::Boolean(values) => Ok(values@),
                _ => Err(EvalError::TypeMismatch),
            },
            Operand::Null(rows) => Ok(Seq::new(rows as nat, |i: int| None::<bool>)),
            Operand::Int64(_, _) => Err(EvalError::TypeMismatch),
        }
    }

    /// The operand as 32-bit integers. A null literal is null in every row;
    /// a literal of 64 bits is no integer of 32.
    pub open spec fn int32s(&self) -> Result<Seq<Option<i32>>, EvalError> {
        match *self {
            Operand::Column(column) => match *column {
                Column::Int32(values) => Ok(values@),
                _ => Err(EvalError::TypeMismatch),
            },
            Operand::Null(rows) => Ok(Seq::new(rows as nat, |i: int| None::<i32>)),
            Operand::Int64(_, _) => Err(EvalError::TypeMismatch),
        }
    }

    /// The operand as 64-bit integers. A literal stands in every row.
    pub open spec fn int64s(&self) -> Result<Seq<Option<i64>>, EvalError> {
        match *self {
            Operand::Column(column) => match *column {
                Column::Int64(values) => Ok(values@),
                _ => Err(EvalError::TypeMismatch),
            },
            Operand::Null(rows) => Ok(Seq::new(rows as nat, |i: int| None::<i64>)),
            Operand::Int64(value, rows) => Ok(Seq::new(rows as nat, |i: int| Some(value))),
        }
    }

    /// The operand as booleans.
    pub fn boolean_array(&self) -> (result: Result<Array<'a, bool>, EvalError>)
        ensures
            match self.booleans() {
                Ok(values) => result is Ok && result->Ok_0@ == values,
                Err(e) => result is Err && result->Err_0 == e,
            },
    {
        match self {
            Operand::Column(column) => match column.boolean_array() {
                Ok(values) => Ok(Array::Borrowed(values)),
                Err(e) => Err(e),
            },
            Operand::Null(rows) => Ok(Array::Owned(nulls(*rows))),
            Operand::Int64(_, _) => Err(EvalError::TypeMismatch),
        }
    }

    /// The operand as 32-bit integers.
    pub fn primitive_array(&self) -> (result: Result<Array<'a, i32>, EvalError>)
        ensures
            match self.int32s() {
                Ok(values) => result is Ok && result->Ok_0@ == values,
                Err(e) => result is Err && result->Err_0 == e,
            },
    {
        match self {
            Operand::Column(column) => match column.primitive_array() {
                Ok(values) => Ok(Array::Borrowed(values)),
                Err(e) => Err(e),
            },
            Operand::Null(rows) => Ok(Array::Owned(nulls(*rows))),
            Operand::Int64(_, _) => Err(EvalError::TypeMismatch),
        }
    }

    /// The operand as 64-bit integers.
    pub fn int64_array(&self) -> (result: Result<Array<'a, i64>, EvalError>)
        ensures
            match self.int64s() {
                Ok(values) => result is Ok && result->Ok_0@ == values,
                Err(e) => result is Err && result->Err_0 == e,
            },
    {
        match self {
            Operand::Column(column) => match column.int64_array() {
                Ok(values) => Ok(Array::Borrowed(values)),
                Err(e) => Err(e),
            },
            Operand::Null(rows) => Ok(Array::Owned(nulls(*rows))),
            Operand::Int64(value, rows) => Ok(Array::Owned(repeated(*value, *rows))),
        }
    }
}

/// The operands of an aggregation, by the window it runs over.
#[derive(Debug, Clone, Copy, PartialEq, Eq, Structural)]
pub enum AggregationArgs {
    /// Over everything seen so far.
    NoWindow { input: ValueRef },
    /// Over what was seen since `ticks` was last true.
    Since { ticks: ValueRef, input: ValueRef },
    /// Over the last `duration` windows that `ticks` delimits.
    Sliding { ticks: ValueRef, duration: i64, input: ValueRef },
}

/// The shape that the arguments `(input, window, duration)` select, where
/// they select one.
pub open spec fn args_shape(args: Seq<ValueRef>) -> Option<AggregationArgs> {
    if args.len() != 3 {
        None
    } else {
        match (args[1], args[2]) {
            (ValueRef::Null, ValueRef::Null) => Some(AggregationArgs::NoWindow { input: args[0] }),
            (ValueRef::Column(_), ValueRef::Null) => Some(
                AggregationArgs::Since { ticks: args[1], input: args[0] },
            ),
            (ValueRef::Column(_), ValueRef::Int64(duration)) => Some(
                AggregationArgs::Sliding { ticks: args[1], duration, input: args[0] },
            ),
            _ => None,
        }
    }
}

impl AggregationArgs {
    /// Reads the arguments `(input, window, duration)` of an aggregation: no
    /// window and no duration for `NoWindow`, a window without a duration for
    /// `Since`, both for `Sliding`. Anything else is refused.
    pub fn from_input(args: &Vec<ValueRef>) -> (result: Result<AggregationArgs, EvalError>)
        ensures
            match args_shape(args@) {
                Some(shape) => result == Ok::<AggregationArgs, EvalError>(shape),
                None => result is Err && result->Err_0 == (if args@.len() != 3 {
                    EvalError::WrongArity
                } else {
                    EvalError::TypeMismatch
                }),
            },
    {
        if args.len() != 3 {
            return Err(EvalError::WrongArity);
        }
        let input: ValueRef = args[0];
        let window: ValueRef = args[1];
        match (window, args[2]) {
            (ValueRef::Null, ValueRef::Null) => Ok(AggregationArgs::NoWindow { input }),
            (ValueRef::Column(_), ValueRef::Null) => Ok(
                AggregationArgs::Since { ticks: window, input },
            ),
            (ValueRef::Column(_), ValueRef::Int64(duration)) => Ok(
                AggregationArgs::Sliding { ticks: window, duration, input },
            ),
            _ => Err(EvalError::TypeMismatch),
        }
    }
}

} // verus!
