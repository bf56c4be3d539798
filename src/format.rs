use vstd::prelude::*;

use crate::error::AnalysisError;
use crate::text::same_text;

verus! {

/// The kinds of file that a dataset is read from.
#[derive(Debug, Clone, Copy, PartialEq, Eq)]
pub enum FileFormat {
    Csv,
    Excel,
}

/// What `str::to_lowercase` makes of a text.
pub uninterp spec fn lower_of(s: Seq<char>) -> Seq<char>;

/// Relies on `str::to_lowercase`: the lowercase form depends on the
/// characters alone, and an empty text stays empty.
#[verifier::external_body]
fn lowercase(s: &str) -> (r: String)
    ensures
        r@ == lower_of(s@),
        s@.len() == 0 ==> r@.len() == 0,
{
    s.to_lowercase()
}

/// The format that a lowercase file extension names.
pub open spec fn format_for(ext: Seq<char>) -> Option<FileFormat> {
    if ext == "csv"@ {
        Some(FileFormat::Csv)
    } else if ext == "xlsx"@ || ext == "xls"@ {
        Some(FileFormat::Excel)
    } else {
        None
    }
}

/// Whether `e` reports `ext` as an unsupported format.
pub open spec fn names_unsupported(e: AnalysisError, ext: Seq<char>) -> bool {
    match e {
        AnalysisError::UnsupportedFormat(s) => s@ == ext,
        _ => false,
    }
}

/// The format of an extension that is already lowercase: "csv" is CSV,
/// "xlsx" and "xls" are Excel, anything else is unsupported.
pub fn format_of_lowered(ext: &str) -> (r: Result<FileFormat, AnalysisError>)
    ensures
        match r {
            Ok(f) => format_for(ext@) == Some(f),
            Err(e) => format_for(ext@) is None && names_unsupported(e, ext@),
        },
{
    if same_text(ext, "csv") {
        Ok(FileFormat::Csv)
    } else if same_text(ext, "xlsx") || same_text(ext, "xls") {
        Ok(FileFormat::Excel)
    } else {
        Err(AnalysisError::UnsupportedFormat(ext.to_owned()))
    }
}

/// The format of a file extension, in any case.
pub fn file_format(extension: &str) -> (r: Result<FileFormat, AnalysisError>)
    ensures
        match r {
            Ok(f) => format_for(lower_of(extension@)) == Some(f),
            Err(e) => format_for(lower_of(extension@)) is None && names_unsupported(
                e,
                lower_of(extension@),
            ),
        },
{
    let lowered = lowercase(extension);
    format_of_lowered(lowered.as_str())
}

} // verus!
