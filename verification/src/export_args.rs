//! What the arguments of an export have to be, and how it is refused otherwise.

use crate::text;
use crate::text::same_text;
use vstd::prelude::*;

verus! {

/// The calls that take arguments.
#[derive(Clone, Copy, PartialEq, Eq, Structural, Debug)]
pub enum ExportCall {
    Sync,
    Begin,
    Continue,
    End,
    Cancel,
}

/// Why a call is refused.
#[derive(Clone, Copy, PartialEq, Eq, Structural, Debug)]
pub enum Refusal {
    /// The rows are no array and no list.
    Rows,
    /// The fields are no object.
    Fields,
    /// The fields are an object, but no array.
    FieldsKind,
    /// The heading is neither a tree nor left out.
    Header,
    /// The format is neither `xlsx` nor `csv`.
    Format,
    /// There is no handle.
    HandleMissing,
    /// The handle has lost its rows.
    HandleInvalid,
    /// The handle's export is no longer under way.
    HandleStale,
}

/// The rows as a caller hands them over.
#[derive(Clone, Copy, PartialEq, Eq, Structural)]
pub enum RowsArg {
    /// No object.
    Missing,
    /// An object that is neither an array nor a list.
    Other,
    /// An array or a list, with its length.
    Rows(usize),
}

/// The fields as a caller hands them over.
#[derive(Clone, Copy, PartialEq, Eq, Structural)]
pub enum FieldsArg {
    Missing,
    Other,
    Fields,
}

/// The heading as a caller hands it over.
#[derive(Clone, Copy, PartialEq, Eq, Structural)]
pub enum HeaderArg {
    Omitted,
    Tree,
    Other,
}

/// The formats.
#[derive(Clone, Copy, PartialEq, Eq, Structural, Debug)]
pub enum ExportFormat {
    Xlsx,
    Csv,
}

/// The format that a text names; a workbook where there is none.
pub open spec fn format_of(format: Option<Seq<char>>) -> Option<ExportFormat> {
    match format {
        None => Some(ExportFormat::Xlsx),
        Some(f) => if f == "xlsx"@ {
            Some(ExportFormat::Xlsx)
        } else if f == "csv"@ {
            Some(ExportFormat::Csv)
        } else {
            None
        },
    }
}

/// What is wrong with rows and fields, the rows first.
pub open spec fn data_refusal(rows: RowsArg, fields: FieldsArg) -> Option<Refusal> {
    if !(rows is Rows) {
        Some(Refusal::Rows)
    } else {
        match fields {
            FieldsArg::Missing => Some(Refusal::Fields),
            FieldsArg::Other => Some(Refusal::FieldsKind),
            FieldsArg::Fields => None,
        }
    }
}

/// A heading is refused only where it is used.
pub open spec fn header_refusal(format: ExportFormat, header: HeaderArg) -> Option<Refusal> {
    if format is Xlsx && header is Other {
        Some(Refusal::Header)
    } else {
        None
    }
}

/// How an export's arguments are judged. An export that runs at once looks at the format
/// first, one that is driven in chunks at rows and fields; the heading comes last.
pub open spec fn judged(
    call: ExportCall,
    format: Option<Seq<char>>,
    rows: RowsArg,
    fields: FieldsArg,
    header: HeaderArg,
) -> Result<ExportFormat, Refusal> {
    match data_refusal(rows, fields) {
        Some(r) => if call is Sync && format_of(format) is None {
            Err(Refusal::Format)
        } else {
            Err(r)
        },
        None => match format_of(format) {
            None => Err(Refusal::Format),
            Some(f) => match header_refusal(f, header) {
                Some(r) => Err(r),
                None => Ok(f),
            },
        },
    }
}

/// Reads a format.
pub fn read_format(format: Option<&str>) -> (r: Option<ExportFormat>)
    ensures
        r == format_of(text::opt_str(format)),
{
    match format {
        None => Some(ExportFormat::Xlsx),
        Some(f) => if same_text(f, "xlsx") {
            Some(ExportFormat::Xlsx)
        } else if same_text(f, "csv") {
            Some(ExportFormat::Csv)
        } else {
            None
        },
    }
}

/// Judges an export's arguments.
pub fn check_arguments(
    call: ExportCall,
    format: Option<&str>,
    rows: RowsArg,
    fields: FieldsArg,
    header: HeaderArg,
) -> (r: Result<ExportFormat, Refusal>)
    ensures
        r == judged(call, text::opt_str(format), rows, fields, header),
{
    let chosen = read_format(format);
    if call == ExportCall::Sync && chosen.is_none() {
        return Err(Refusal::Format);
    }
    match rows {
        RowsArg::Rows(_) => {},
        _ => {
            return Err(Refusal::Rows);
        },
    }
    match fields {
        FieldsArg::Missing => {
            return Err(Refusal::Fields);
        },
        FieldsArg::Other => {
            return Err(Refusal::FieldsKind);
        },
        FieldsArg::Fields => {},
    }
    match chosen {
        None => Err(Refusal::Format),
        Some(f) => if f == ExportFormat::Xlsx && header == HeaderArg::Other {
            Err(Refusal::Header)
        } else {
            Ok(f)
        },
    }
}

/// How a handle is judged: it must be there, have its rows, and name an export under way.
pub open spec fn handle_judged(present: bool, has_rows: bool, call: ExportCall, known: bool) -> Option<
    Refusal,
> {
    if !present {
        Some(Refusal::HandleMissing)
    } else if !has_rows {
        Some(Refusal::HandleInvalid)
    } else if !known && !(call is Cancel) {
        Some(Refusal::HandleStale)
    } else {
        None
    }
}

/// Judges a handle.
pub fn check_handle(present: bool, has_rows: bool, call: ExportCall, known: bool) -> (r: Option<
    Refusal,
>)
    ensures
        r == handle_judged(present, has_rows, call, known),
{
    if !present {
        Some(Refusal::HandleMissing)
    } else if !has_rows {
        Some(Refusal::HandleInvalid)
    } else if !known && call != ExportCall::Cancel {
        Some(Refusal::HandleStale)
    } else {
        None
    }
}

/// The name of a call.
pub open spec fn call_name(call: ExportCall) -> Seq<char> {
    match call {
        ExportCall::Sync => "syncExport"@,
        ExportCall::Begin => "asyncExportBegin"@,
        ExportCall::Continue => "asyncExportContinue"@,
        ExportCall::End => "asyncExportEnd"@,
        ExportCall::Cancel => "asyncExportCancel"@,
    }
}

/// What a refused caller is told. Most messages name the call.
pub open spec fn refusal_text(refusal: Refusal, call: ExportCall) -> Seq<char> {
    let who = "ExportUtils."@ + call_name(call);
    match refusal {
        Refusal::Rows => who + ": rows must be an Array or XMLList"@,
        Refusal::Fields => who + ": fields must be an Array"@,
        Refusal::FieldsKind => "ExportUtils: fields must be an Array"@,
        Refusal::Header => "ExportUtils: header must be an XML or null"@,
        Refusal::Format => who + ": options.format must be \"xlsx\" or \"csv\""@,
        Refusal::HandleMissing => who + ": handle is required"@,
        Refusal::HandleInvalid => "ExportUtils: handle is missing or invalid"@,
        Refusal::HandleStale => who + ": handle is no longer valid"@,
    }
}

impl Refusal {
    /// What a refused caller is told.
    pub fn message(self, call: ExportCall) -> (r: String)
        ensures
            r@ == refusal_text(self, call),
    {
        let rest: &str = match self {
            Refusal::FieldsKind => {
                return "ExportUtils: fields must be an Array".to_owned();
            },
            Refusal::Header => {
                return "ExportUtils: header must be an XML or null".to_owned();
            },
            Refusal::HandleInvalid => {
                return "ExportUtils: handle is missing or invalid".to_owned();
            },
            Refusal::Rows => ": rows must be an Array or XMLList",
            Refusal::Fields => ": fields must be an Array",
            Refusal::Format => ": options.format must be \"xlsx\" or \"csv\"",
            Refusal::HandleMissing => ": handle is required",
            Refusal::HandleStale => ": handle is no longer valid",
        };
        let name: &str = match call {
            ExportCall::Sync => "syncExport",
            ExportCall::Begin => "asyncExportBegin",
            ExportCall::Continue => "asyncExportContinue",
            ExportCall::End => "asyncExportEnd",
            ExportCall::Cancel => "asyncExportCancel",
        };
        let mut r = "ExportUtils.".to_owned();
        r.push_str(name);
        r.push_str(rest);
        r
    }
}

/// Only what is wrong is refused: with rows, fields, a known format, and no heading or a tree,
/// every export is taken, however it is called.
pub proof fn lemma_good_arguments(
    call: ExportCall,
    format: Option<Seq<char>>,
    rows: RowsArg,
    header: HeaderArg,
)
    requires
        rows is Rows,
        format_of(format) is Some,
        !(header is Other),
    ensures
        judged(call, format, rows, FieldsArg::Fields, header) == Ok::<ExportFormat, Refusal>(
            format_of(format)->0,
        ),
{
}

} // verus!
