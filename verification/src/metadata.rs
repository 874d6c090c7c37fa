use vstd::prelude::*;

verus! {

/// Why the metadata of a source could not be read.
#[derive(Debug, PartialEq, Eq)]
pub enum Error {
    ObjectStore(String),
    MissingObjectStoreRegistry,
    LocalFile,
    Download,
    ReadSchema,
    PulsarSubscription,
    PulsarSchema(String),
    UnsupportedColumn(String),
}

/// The text that describes an error.
pub open spec fn error_message(error: Error) -> Seq<char> {
    match error {
        Error::ObjectStore(path) => "object store error for path: "@ + path@,
        Error::MissingObjectStoreRegistry => "no object store registry"@,
        Error::LocalFile => "local file error"@,
        Error::Download => "download error"@,
        Error::ReadSchema => "reading schema error"@,
        Error::PulsarSubscription => "pulsar subscription error"@,
        Error::PulsarSchema(reason) => "failed to get pulsar schema: "@ + reason@,
        Error::UnsupportedColumn(reason) => "unsupport column detected: '"@ + reason@,
    }
}

impl Error {
    /// The text that describes the error.
    pub fn message(&self) -> (text: String)
        ensures
            text@ == error_message(*self),
    {
        match self {
            Error::ObjectStore(path) => String::from_str("object store error for path: ").concat(
                path.as_str(),
            ),
            Error::MissingObjectStoreRegistry => String::from_str("no object store registry"),
            Error::LocalFile => String::from_str("local file error"),
            Error::Download => String::from_str("download error"),
            Error::ReadSchema => String::from_str("reading schema error"),
            Error::PulsarSubscription => String::from_str("pulsar subscription error"),
            Error::PulsarSchema(reason) => String::from_str("failed to get pulsar schema: ").concat(
                reason.as_str(),
            ),
            Error::UnsupportedColumn(reason) => String::from_str(
                "unsupport column detected: '",
            ).concat(reason.as_str()),
        }
    }
}

/// The unit in which a time is counted.
#[derive(Debug, Clone, Copy, PartialEq, Eq, Structural)]
pub enum TimeUnit {
    Second,
    Millisecond,
    Microsecond,
    Nanosecond,
}

/// The type of a column.
#[derive(Debug, PartialEq, Eq)]
pub enum DataType {
    Null,
    Boolean,
    Int8,
    Int16,
    Int32,
    Int64,
    UInt8,
    UInt16,
    UInt32,
    UInt64,
    Float16,
    Float32,
    Float64,
    /// A point in time, counted in the unit, with a time zone or without.
    Timestamp(TimeUnit, Option<String>),
    Date32,
    Date64,
    Time32(TimeUnit),
    Time64(TimeUnit),
    Duration(TimeUnit),
    Binary,
    LargeBinary,
    Utf8,
    LargeUtf8,
    /// A decimal of the given precision and scale, in 128 bits.
    Decimal128(u8, i8),
    /// A decimal of the given precision and scale, in 256 bits.
    Decimal256(u8, i8),
}

/// One column of a schema.
#[derive(Debug, PartialEq, Eq)]
pub struct Field {
    pub name: String,
    pub data_type: DataType,
    pub nullable: bool,
}

/// The columns of a table, in order.
#[derive(Debug, PartialEq, Eq)]
pub struct Schema {
    pub fields: Vec<Field>,
}

/// Whether a type is a decimal. Decimal columns are not supported.
pub open spec fn is_decimal(data_type: DataType) -> bool {
    data_type is Decimal128 || data_type is Decimal256
}

/// The type as a table presents it: a timestamp loses its time zone, every
/// other type stays.
pub open spec fn converted_type(data_type: DataType) -> DataType {
    match data_type {
        DataType::Timestamp(unit, Some(_)) => DataType::Timestamp(unit, None),
        other => other,
    }
}

/// The field as a table presents it.
pub open spec fn converted_field(field: Field) -> Field {
    Field {
        name: field.name,
        data_type: converted_type(field.data_type),
        nullable: field.nullable,
    }
}

/// The reason given for a decimal column of this name.
pub open spec fn decimal_reason(name: Seq<char>) -> Seq<char> {
    "Decimal columns are unsupported: "@ + name
}

/// Field `k` is the first decimal one.
pub open spec fn first_decimal(fields: Seq<Field>, k: int) -> bool {
    &&& 0 <= k < fields.len()
    &&& is_decimal(fields[k].data_type)
    &&& forall|j: int| 0 <= j < k ==> !is_decimal(#[trigger] fields[j].data_type)
}

/// The error names the decimal column `name` as unsupported.
pub open spec fn refuses_decimal(error: Error, name: Seq<char>) -> bool {
    error matches Error::UnsupportedColumn(reason) && reason@ == decimal_reason(name)
}

/// The error names the first decimal column of `fields` as unsupported.
pub open spec fn refuses_first_decimal(error: Error, fields: Seq<Field>) -> bool {
    exists|k: int| #[trigger] first_decimal(fields, k) && refuses_decimal(error, fields[k].name@)
}

/// No field is decimal.
pub open spec fn no_decimal(fields: Seq<Field>) -> bool {
    forall|j: int| 0 <= j < fields.len() ==> !is_decimal(#[trigger] fields[j].data_type)
}

impl DataType {
    /// The type as a table presents it.
    pub fn without_time_zone(&self) -> (converted: DataType)
        ensures
            converted == converted_type(*self),
    {
        match self {
            DataType::Null => DataType::Null,
            DataType::Boolean => DataType::Boolean,
            DataType::Int8 => DataType::Int8,
            DataType::Int16 => DataType::Int16,
            DataType::Int32 => DataType::Int32,
            DataType::Int64 => DataType::Int64,
            DataType::UInt8 => DataType::UInt8,
            DataType::UInt16 => DataType::UInt16,
            DataType::UInt32 => DataType::UInt32,
            DataType::UInt64 => DataType::UInt64,
            DataType::Float16 => DataType::Float16,
            DataType::Float32 => DataType::Float32,
            DataType::Float64 => DataType::Float64,
            DataType::Timestamp(unit, _) => DataType::Timestamp(*unit, None),
            DataType::Date32 => DataType::Date32,
            DataType::Date64 => DataType::Date64,
            DataType::Time32(unit) => DataType::Time32(*unit),
            DataType::Time64(unit) => DataType::Time64(*unit),
            DataType::Duration(unit) => DataType::Duration(*unit),
            DataType::Binary => DataType::Binary,
            DataType::LargeBinary => DataType::LargeBinary,
            DataType::Utf8 => DataType::Utf8,
            DataType::LargeUtf8 => DataType::LargeUtf8,
            DataType::Decimal128(precision, scale) => DataType::Decimal128(*precision, *scale),
            DataType::Decimal256(precision, scale) => DataType::Decimal256(*precision, *scale),
        }
    }

    /// A copy of the type.
    pub fn duplicate(&self) -> (copy: DataType)
        ensures
            copy == *self,
    {
        match self {
            DataType::Timestamp(unit, Some(zone)) => DataType::Timestamp(*unit, Some(zone.clone())),
            other => other.without_time_zone(),
        }
    }
}

impl Field {
    /// A field of the given name and type.
    pub fn new(name: &str, data_type: DataType, nullable: bool) -> (field: Field)
        ensures
            field.name@ == name@,
            field.data_type == data_type,
            field.nullable == nullable,
    {
        Field { name: String::from_str(name), data_type, nullable }
    }

    /// A copy of the field.
    pub fn duplicate(&self) -> (copy: Field)
        ensures
            copy == *self,
    {
        Field {
            name: self.name.clone(),
            data_type: self.data_type.duplicate(),
            nullable: self.nullable,
        }
    }
}

impl Schema {
    /// The schema of the given columns.
    pub fn new(fields: Vec<Field>) -> (schema: Schema)
        ensures
            schema.fields == fields,
    {
        Schema { fields }
    }

    /// A copy of the schema.
    pub fn duplicate(&self) -> (copy: Schema)
        ensures
            copy.fields@ == self.fields@,
    {
        let mut fields: Vec<Field> = Vec::new();
        let mut i: usize = 0;
        while i < self.fields.len()
            invariant
                i <= self.fields@.len(),
                fields@ == self.fields@.subrange(0, i as int),
            decreases self.fields@.len() - i,
        {
            fields.push(self.fields[i].duplicate());
            assert(fields@ =~= self.fields@.subrange(0, i + 1));
            i += 1;
        }
        assert(fields@ =~= self.fields@);
        Schema { fields }
    }
}

/// Converts one column of a source to the column that the table presents.
/// A timestamp with a time zone is read as one without; a decimal column is
/// refused; anything else is kept.
pub fn convert_field(field: &Field) -> (result: Result<Field, Error>)
    ensures
        !is_decimal(field.data_type) ==> result == Ok::<Field, Error>(converted_field(*field)),
        is_decimal(field.data_type) ==> result is Err && refuses_decimal(
            result->Err_0,
            field.name@,
        ),
{
    match &field.data_type {
        DataType::Timestamp(unit, Some(_)) => Ok(
            Field {
                name: field.name.clone(),
                data_type: DataType::Timestamp(*unit, None),
                nullable: field.nullable,
            },
        ),
        DataType::Decimal128(_, _) | DataType::Decimal256(_, _) => {
            let reason = String::from_str("Decimal columns are unsupported: ").concat(
                field.name.as_str(),
            );
            Err(Error::UnsupportedColumn(reason))
        },
        _ => Ok(field.duplicate()),
    }
}

/// Converts the schema of a source to the schema of the table: every column
/// is converted, and the first decimal column fails the whole.
pub fn convert_schema(schema: &Schema) -> (result: Result<Schema, Error>)
    ensures
        no_decimal(schema.fields@) ==> result is Ok && result->Ok_0.fields@ == schema.fields@.map(
            |i: int, field: Field| converted_field(field),
        ),
        !no_decimal(schema.fields@) ==> result is Err && refuses_first_decimal(
            result->Err_0,
            schema.fields@,
        ),
{
    let mut fields: Vec<Field> = Vec::new();
    let mut i: usize = 0;
    while i < schema.fields.len()
        invariant
            i <= schema.fields@.len(),
            fields@.len() == i,
            forall|j: int| 0 <= j < i ==> !is_decimal(#[trigger] schema.fields@[j].data_type),
            forall|j: int| 0 <= j < i ==> (#[trigger] fields@[j]) == converted_field(schema.fields@[j]),
        decreases schema.fields@.len() - i,
    {
        match convert_field(&schema.fields[i]) {
            Ok(field) => {
                fields.push(field);
            },
            Err(e) => {
                assert(first_decimal(schema.fields@, i as int));
                return Err(e);
            },
        }
        i += 1;
    }
    assert(fields@ =~= schema.fields@.map(|i: int, field: Field| converted_field(field)));
    Ok(Schema { fields })
}

/// The schema of a source and the schema of the table made from it.
#[derive(Debug, PartialEq, Eq)]
#[non_exhaustive]
pub struct RawMetadata {
    /// The schema of the data source as it is.
    pub raw_schema: Schema,
    /// The schema of the data source as presented to the user.
    pub table_schema: Schema,
}

impl RawMetadata {
    /// The metadata of a source with the given schema. Fails where the
    /// schema has a decimal column.
    pub fn from_raw_schema(raw_schema: Schema) -> (result: Result<RawMetadata, Error>)
        ensures
            no_decimal(raw_schema.fields@) ==> result is Ok && result->Ok_0.raw_schema
                == raw_schema && result->Ok_0.table_schema.fields@ == raw_schema.fields@.map(
                |i: int, field: Field| converted_field(field),
            ),
            !no_decimal(raw_schema.fields@) ==> result is Err && refuses_first_decimal(
                result->Err_0,
                raw_schema.fields@,
            ),
    {
        match convert_schema(&raw_schema) {
            Ok(table_schema) => Ok(RawMetadata { raw_schema, table_schema }),
            Err(e) => Err(e),
        }
    }
}

/// The metadata of a stream: the schema that its users defined, and the
/// metadata of that schema with the time of publication added.
#[derive(Debug, PartialEq, Eq)]
pub struct PulsarMetadata {
    /// The schema as defined by the user on the topic.
    pub user_schema: Schema,
    /// The schema with the column that rows are ordered by.
    pub sparrow_metadata: RawMetadata,
}

/// The column that holds when a message was published.
pub open spec fn is_publish_time(field: Field) -> bool {
    &&& field.name@ == "_publish_time"@
    &&& field.data_type == DataType::Timestamp(TimeUnit::Millisecond, None)
    &&& !field.nullable
}

impl PulsarMetadata {
    /// The metadata of a stream whose users defined `user_schema`: behind
    /// the user's columns stands `_publish_time`, a timestamp in
    /// milliseconds that is never null. Fails where the user's schema has a
    /// decimal column.
    pub fn from_user_schema(user_schema: Schema) -> (result: Result<PulsarMetadata, Error>)
        ensures
            no_decimal(user_schema.fields@) ==> result is Ok && result->Ok_0.user_schema
                == user_schema && ({
                let raw = result->Ok_0.sparrow_metadata.raw_schema.fields@;
                let table = result->Ok_0.sparrow_metadata.table_schema.fields@;
                &&& raw.len() == user_schema.fields@.len() + 1
                &&& raw.drop_last() == user_schema.fields@
                &&& is_publish_time(raw.last())
                &&& table == raw.map(|i: int, field: Field| converted_field(field))
            }),
            !no_decimal(user_schema.fields@) ==> result is Err && refuses_first_decimal(
                result->Err_0,
                user_schema.fields@,
            ),
    {
        let publish_time = Field::new(
            "_publish_time",
            DataType::Timestamp(TimeUnit::Millisecond, None),
            false,
        );
        let copy = user_schema.duplicate();
        let mut new_fields = copy.fields;
        new_fields.push(publish_time);
        let ghost raw = new_fields@;
        assert(raw.drop_last() =~= user_schema.fields@);
        assert(no_decimal(user_schema.fields@) ==> no_decimal(raw)) by {
            if no_decimal(user_schema.fields@) {
                assert forall|j: int| 0 <= j < raw.len() implies !is_decimal(
                    #[trigger] raw[j].data_type,
                ) by {
                    if j < user_schema.fields@.len() {
                        assert(raw[j] == user_schema.fields@[j]);
                    }
                }
            }
        }
        match RawMetadata::from_raw_schema(Schema::new(new_fields)) {
            Ok(sparrow_metadata) => Ok(PulsarMetadata { user_schema, sparrow_metadata }),
            Err(e) => {
                proof {
                    let k = choose|k: int| #[trigger]
                        first_decimal(raw, k) && refuses_decimal(e, raw[k].name@);
                    assert(k < user_schema.fields@.len());
                    assert forall|j: int| 0 <= j < k implies !is_decimal(
                        #[trigger] user_schema.fields@[j].data_type,
                    ) by {
                        assert(raw[j] == user_schema.fields@[j]);
                    }
                    assert(raw[k] == user_schema.fields@[k]);
                    assert(first_decimal(user_schema.fields@, k));
                }
                Err(e)
            },
        }
    }
}

} // verus!
