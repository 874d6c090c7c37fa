use vstd::prelude::*;

use crate::output::{has_prefix, new_hyphenated_id, starts_with};

verus! {

/// Why an example could not be run.
#[derive(Debug, PartialEq, Eq)]
pub enum Error {
    PrepareInput,
    CompileQuery,
    /// The query did not compile; the diagnostics say why.
    QueryErrors(String),
    ExecuteQuery,
}

/// The text that describes an error.
pub open spec fn error_message(error: Error) -> Seq<char> {
    match error {
        Error::PrepareInput => "failed to prepare input"@,
        Error::CompileQuery => "failed to compile query"@,
        Error::QueryErrors(diagnostics) => "failed to compile query:\n"@ + diagnostics@,
        Error::ExecuteQuery => "failed to execute query"@,
    }
}

impl Error {
    /// The text that describes the error.
    pub fn message(&self) -> (text: String)
        ensures
            text@ == error_message(*self),
    {
        match self {
            Error::PrepareInput => String::from_str("failed to prepare input"),
            Error::CompileQuery => String::from_str("failed to compile query"),
            Error::QueryErrors(diagnostics) => String::from_str(
                "failed to compile query:\n",
            ).concat(diagnostics.as_str()),
            Error::ExecuteQuery => String::from_str("failed to execute query"),
        }
    }
}

/// The table that an error arose for.
#[derive(Debug, PartialEq, Eq)]
pub struct TableName(pub String);

impl TableName {
    /// The note that names the table.
    pub fn message(&self) -> (text: String)
        ensures
            text@ == "for table '"@ + self.0@ + "'"@,
    {
        String::from_str("for table '").concat(self.0.as_str()).concat("'")
    }
}

/// The example that an error arose for.
#[derive(Debug, PartialEq, Eq)]
pub struct Example(pub String);

impl Example {
    /// The note that names the example.
    pub fn message(&self) -> (text: String)
        ensures
            text@ == "for example '"@ + self.0@ + "'"@,
    {
        String::from_str("for example '").concat(self.0.as_str()).concat("'")
    }
}

/// The expression of an example.
#[derive(Debug, PartialEq, Eq)]
pub enum ExampleExpression {
    /// An expression whose value is shown beside the input.
    Expression(String),
    /// A whole query.
    FullExpression(String),
}

/// How a table is read: its name, its identifier, and the columns that hold
/// time, subsort and entity.
#[derive(Debug, PartialEq, Eq)]
pub struct TableConfig {
    pub name: String,
    pub uuid: String,
    pub time_column_name: String,
    pub subsort_column_name: Option<String>,
    pub group_column_name: String,
    pub grouping: String,
}

/// A table of an example: how it is read, and its rows as CSV.
#[derive(Debug, PartialEq, Eq)]
pub struct ExampleTable {
    pub table_config: TableConfig,
    pub input_csv: String,
}

/// The query that an example runs. A plain expression is shown as the field
/// `result`, which stands in front so that extending it with the input puts
/// it last.
pub open spec fn query_text(expression: ExampleExpression) -> Seq<char> {
    match expression {
        ExampleExpression::Expression(simple) => "{ result: "@ + simple@ + " } | extend(Input)"@,
        ExampleExpression::FullExpression(full) => full@,
    }
}

/// The query that an example runs.
pub fn example_query(expression: &ExampleExpression) -> (query: String)
    ensures
        query@ == query_text(*expression),
{
    match expression {
        ExampleExpression::Expression(simple) => String::from_str("{ result: ").concat(
            simple.as_str(),
        ).concat(" } | extend(Input)"),
        ExampleExpression::FullExpression(full) => full.clone(),
    }
}

/// Whether `config` reads the table `Input` of an example: by the columns
/// `time` and `key`, without a subsort column, grouped by `grouping`.
pub open spec fn is_input_config(config: TableConfig) -> bool {
    &&& config.name@ == "Input"@
    &&& config.uuid@.len() == 36
    &&& config.time_column_name@ == "time"@
    &&& config.subsort_column_name is None
    &&& config.group_column_name@ == "key"@
    &&& config.grouping@ == "grouping"@
}

impl TableConfig {
    /// A copy of the configuration.
    pub fn duplicate(&self) -> (copy: TableConfig)
        ensures
            copy == *self,
    {
        TableConfig {
            name: self.name.clone(),
            uuid: self.uuid.clone(),
            time_column_name: self.time_column_name.clone(),
            subsort_column_name: match &self.subsort_column_name {
                Some(name) => Some(name.clone()),
                None => None,
            },
            group_column_name: self.group_column_name.clone(),
            grouping: self.grouping.clone(),
        }
    }
}

/// How the table `Input` of an example is read, under the identifier `uuid`.
pub fn input_table_config(uuid: String) -> (config: TableConfig)
    ensures
        config.name@ == "Input"@,
        config.uuid == uuid,
        config.time_column_name@ == "time"@,
        config.subsort_column_name is None,
        config.group_column_name@ == "key"@,
        config.grouping@ == "grouping"@,
{
    TableConfig {
        name: String::from_str("Input"),
        uuid,
        time_column_name: String::from_str("time"),
        subsort_column_name: None,
        group_column_name: String::from_str("key"),
        grouping: String::from_str("grouping"),
    }
}

/// The tables that an example reads, in the order in which they are
/// prepared: the table `Input` under a fresh identifier, where the example
/// has input of its own, and then its named tables.
pub fn planned_inputs(input_csv: &Option<String>, tables: &Vec<ExampleTable>) -> (planned: Vec<
    ExampleTable,
>)
    ensures
        match *input_csv {
            Some(csv) => planned@.len() == tables@.len() + 1 && is_input_config(
                planned@[0].table_config,
            ) && planned@[0].input_csv == csv && planned@.subrange(1, planned@.len() as int)
                == tables@,
            None => planned@ == tables@,
        },
{
    let mut planned: Vec<ExampleTable> = Vec::new();
    if let Some(csv) = input_csv {
        let table_config = input_table_config(new_hyphenated_id());
        planned.push(ExampleTable { table_config, input_csv: csv.clone() });
    }
    let ghost head = planned@;
    let mut i: usize = 0;
    while i < tables.len()
        invariant
            i <= tables@.len(),
            planned@ == head + tables@.subrange(0, i as int),
        decreases tables@.len() - i,
    {
        let table = ExampleTable {
            table_config: tables[i].table_config.duplicate(),
            input_csv: tables[i].input_csv.clone(),
        };
        planned.push(table);
        assert(planned@ =~= head + tables@.subrange(0, i + 1));
        i += 1;
    }
    assert(tables@.subrange(0, tables@.len() as int) =~= tables@);
    assert(planned@ =~= head + tables@);
    assert(head.len() == 1 ==> planned@.subrange(1, planned@.len() as int) =~= tables@);
    planned
}

/// The prefix under which an example writes its result: `file:///` and the
/// directory.
pub fn output_uri_prefix(directory: &str) -> (uri: String)
    ensures
        uri@ == "file:///"@ + directory@,
{
    String::from_str("file:///").concat(directory)
}

/// The path of the one local file that a run of an example produced: what
/// follows `file:///` in its URI.
pub fn local_output_path(output_paths: &Vec<String>) -> (path: String)
    requires
        output_paths@.len() == 1,
        starts_with(output_paths@[0]@, "file:///"@),
    ensures
        path@ == output_paths@[0]@.subrange(8, output_paths@[0]@.len() as int),
{
    proof {
        reveal_strlit("file:///");
    }
    let uri = output_paths[0].as_str();
    let len: usize = uri.unicode_len();
    String::from_str(uri.substring_char(8, len))
}

/// Whether a run produced what an example expects: one file, and a local
/// one.
pub fn is_single_local_output(output_paths: &Vec<String>) -> (found: bool)
    ensures
        found == (output_paths@.len() == 1 && starts_with(output_paths@[0]@, "file:///"@)),
{
    output_paths.len() == 1 && has_prefix(output_paths[0].as_str(), "file:///")
}

/// The number of key columns in front of every row of a result.
pub const KEY_COLUMNS: usize = 4;

/// A row of a result without its key columns: the first four cells are
/// dropped, or all of them where the row has fewer.
pub open spec fn user_cells(row: Seq<String>) -> Seq<String> {
    if row.len() <= 4 {
        Seq::empty()
    } else {
        row.subrange(4, row.len() as int)
    }
}

/// A row of a result without its key columns.
pub fn without_key_columns(row: &Vec<String>) -> (cells: Vec<String>)
    ensures
        cells@ == user_cells(row@),
{
    let mut cells: Vec<String> = Vec::new();
    let mut i: usize = KEY_COLUMNS;
    while i < row.len()
        invariant
            4 <= i,
            row@.len() >= 4 ==> i <= row@.len(),
            row@.len() < 4 ==> cells@.len() == 0,
            i <= row@.len() ==> cells@ == row@.subrange(4, i as int),
        decreases row@.len() - i,
    {
        cells.push(row[i].clone());
        assert(cells@ =~= row@.subrange(4, i + 1));
        i += 1;
    }
    assert(cells@ =~= user_cells(row@));
    cells
}

} // verus!
