use uuid::Uuid;
use vstd::prelude::*;

verus! {

/// Why results could not be written to a destination.
#[derive(Debug, Clone, Copy, PartialEq, Eq, Structural)]
pub enum Error {
    MalformedUri,
    UnspecifiedFormat,
    LocalWriteFailure,
    UploadFailure,
    UnsupportedUri,
    UnsupportedDestination,
}

/// The text that describes an error: its name.
pub open spec fn error_message(error: Error) -> Seq<char> {
    match error {
        Error::MalformedUri => "MalformedUri"@,
        Error::UnspecifiedFormat => "UnspecifiedFormat"@,
        Error::LocalWriteFailure => "LocalWriteFailure"@,
        Error::UploadFailure => "UploadFailure"@,
        Error::UnsupportedUri => "UnsupportedUri"@,
        Error::UnsupportedDestination => "UnsupportedDestination"@,
    }
}

impl Error {
    /// The text that describes the error.
    pub fn message(&self) -> (text: String)
        ensures
            text@ == error_message(*self),
    {
        match self {
            Error::MalformedUri => String::from_str("MalformedUri"),
            Error::UnspecifiedFormat => String::from_str("UnspecifiedFormat"),
            Error::LocalWriteFailure => String::from_str("LocalWriteFailure"),
            Error::UploadFailure => String::from_str("UploadFailure"),
            Error::UnsupportedUri => String::from_str("UnsupportedUri"),
            Error::UnsupportedDestination => String::from_str("UnsupportedDestination"),
        }
    }
}

/// The format of an output file.
#[derive(Debug, Clone, Copy, PartialEq, Eq, Structural)]
pub enum FileFormat {
    Unspecified,
    Parquet,
    Csv,
}

/// The writer that produces a file of some format.
#[derive(Debug, Clone, Copy, PartialEq, Eq, Structural)]
pub enum Writer {
    Csv,
    Parquet,
}

/// Where the output of a query goes.
#[derive(Debug, PartialEq, Eq)]
pub enum Target {
    /// To an object store, under the prefix as it was given.
    ObjectStore,
    /// To the local directory with this absolute path.
    Local(String),
}

/// Whether `text` starts with `prefix`.
pub open spec fn starts_with(text: Seq<char>, prefix: Seq<char>) -> bool {
    prefix.len() <= text.len() && text.subrange(0, prefix.len() as int) == prefix
}

/// Whether a URI names an object in S3.
pub open spec fn is_s3(uri: Seq<char>) -> bool {
    starts_with(uri, "s3://"@)
}

/// The local directory that an output prefix names: what follows `file:///`,
/// where that is an absolute path.
pub open spec fn local_dir(uri: Seq<char>) -> Option<Seq<char>> {
    let scheme = "file:///"@;
    if starts_with(uri, scheme) && uri.len() > scheme.len() && uri[scheme.len() as int] == '/' {
        Some(uri.subrange(scheme.len() as int, uri.len() as int))
    } else {
        None
    }
}

/// The extension of a file of some format.
pub open spec fn extension(format: FileFormat) -> Seq<char> {
    match format {
        FileFormat::Csv => "csv"@,
        FileFormat::Parquet => "parquet"@,
        FileFormat::Unspecified => ""@,
    }
}

/// Whether `text` starts with `prefix`.
pub fn has_prefix(text: &str, prefix: &str) -> (found: bool)
    ensures
        found == starts_with(text@, prefix@),
{
    let text_len: usize = text.unicode_len();
    let prefix_len: usize = prefix.unicode_len();
    if text_len < prefix_len {
        return false;
    }
    let mut i: usize = 0;
    while i < prefix_len
        invariant
            i <= prefix_len,
            prefix_len == prefix@.len(),
            text_len == text@.len(),
            prefix_len <= text_len,
            forall|j: int| 0 <= j < i ==> text@[j] == prefix@[j],
        decreases prefix_len - i,
    {
        if text.get_char(i) != prefix.get_char(i) {
            assert(text@.subrange(0, prefix@.len() as int)[i as int] != prefix@[i as int]);
            return false;
        }
        i += 1;
    }
    assert(text@.subrange(0, prefix@.len() as int) =~= prefix@);
    true
}

/// Whether a URI names an object in S3.
pub fn is_s3_path(uri: &str) -> (found: bool)
    ensures
        found == is_s3(uri@),
{
    has_prefix(uri, "s3://")
}

/// Where output under `output_prefix_uri` goes. What is not in S3 has to be
/// a local directory, written as `file:///` followed by an absolute path;
/// anything else is refused as unsupported.
pub fn target_of(output_prefix_uri: &str) -> (result: Result<Target, Error>)
    ensures
        is_s3(output_prefix_uri@) ==> result == Ok::<Target, Error>(Target::ObjectStore),
        !is_s3(output_prefix_uri@) ==> match local_dir(output_prefix_uri@) {
            Some(dir) => result is Ok && result->Ok_0 is Local && result->Ok_0->Local_0@ == dir,
            None => result == Err::<Target, Error>(Error::UnsupportedUri),
        },
{
    if is_s3_path(output_prefix_uri) {
        return Ok(Target::ObjectStore);
    }
    let scheme = "file:///";
    proof {
        reveal_strlit("file:///");
    }
    if !has_prefix(output_prefix_uri, scheme) {
        return Err(Error::UnsupportedUri);
    }
    let len: usize = output_prefix_uri.unicode_len();
    if len <= 8 {
        return Err(Error::UnsupportedUri);
    }
    if output_prefix_uri.get_char(8) != '/' {
        return Err(Error::UnsupportedUri);
    }
    let dir = output_prefix_uri.substring_char(8, len);
    Ok(Target::Local(String::from_str(dir)))
}

/// The URI of a local file with the given absolute path.
pub fn output_uri(path: &str) -> (uri: String)
    ensures
        uri@ == "file:///"@ + path@,
{
    String::from_str("file:///").concat(path)
}

/// The writer for a format. No writer exists for an unspecified format.
pub fn writer_for(format: FileFormat) -> (result: Result<Writer, Error>)
    ensures
        result == (match format {
            FileFormat::Csv => Ok::<Writer, Error>(Writer::Csv),
            FileFormat::Parquet => Ok::<Writer, Error>(Writer::Parquet),
            FileFormat::Unspecified => Err::<Writer, Error>(Error::UnspecifiedFormat),
        }),
{
    match format {
        FileFormat::Csv => Ok(Writer::Csv),
        FileFormat::Parquet => Ok(Writer::Parquet),
        FileFormat::Unspecified => Err(Error::UnspecifiedFormat),
    }
}

/// Calls `Uuid::new_v4` and writes the identifier in its hyphenated form.
///
/// Believed of it, not proved: the text has 36 characters. Which ones is
/// left to chance.
#[verifier::external_body]
pub(crate) fn new_hyphenated_id() -> (id: String)
    ensures
        id@.len() == 36,
{
    Uuid::new_v4().as_hyphenated().to_string()
}

/// The name of an output file with the identifier `id`: the identifier, a
/// dot, and the extension of the format.
pub fn file_name_for(id: &str, format: FileFormat) -> (name: String)
    requires
        format != FileFormat::Unspecified,
    ensures
        name@ == id@ + "."@ + extension(format),
{
    let extension = match format {
        FileFormat::Csv => "csv",
        _ => "parquet",
    };
    String::from_str(id).concat(".").concat(extension)
}

/// A fresh name for an output file: a new random identifier of 36
/// characters, a dot, and the extension of the format.
pub fn output_file_name(format: FileFormat) -> (name: String)
    requires
        format != FileFormat::Unspecified,
    ensures
        name@.len() == 37 + extension(format).len(),
        name@.subrange(36, name@.len() as int) == "."@ + extension(format),
{
    let id = new_hyphenated_id();
    let name = file_name_for(id.as_str(), format);
    proof {
        reveal_strlit(".");
        assert(name@.subrange(36, name@.len() as int) =~= "."@ + extension(format));
    }
    name
}

} // verus!
