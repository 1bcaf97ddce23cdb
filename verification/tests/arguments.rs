use e4x_read_only::export_args::check_arguments;
use e4x_read_only::export_args::check_handle;
use e4x_read_only::export_args::read_format;
use e4x_read_only::export_args::ExportCall;
use e4x_read_only::export_args::ExportFormat;
use e4x_read_only::export_args::FieldsArg;
use e4x_read_only::export_args::HeaderArg;
use e4x_read_only::export_args::Refusal;
use e4x_read_only::export_args::RowsArg;

#[test]
fn formats_are_read() {
    assert_eq!(read_format(None), Some(ExportFormat::Xlsx));
    assert_eq!(read_format(Some("xlsx")), Some(ExportFormat::Xlsx));
    assert_eq!(read_format(Some("csv")), Some(ExportFormat::Csv));
    assert_eq!(read_format(Some("CSV")), None);
    assert_eq!(read_format(Some("")), None);
}

#[test]
fn good_arguments_are_taken() {
    for call in [ExportCall::Sync, ExportCall::Begin] {
        let taken = check_arguments(
            call,
            Some("csv"),
            RowsArg::Rows(3),
            FieldsArg::Fields,
            HeaderArg::Omitted,
        );
        assert_eq!(taken, Ok(ExportFormat::Csv));
        let taken = check_arguments(
            call,
            None,
            RowsArg::Rows(0),
            FieldsArg::Fields,
            HeaderArg::Tree,
        );
        assert_eq!(taken, Ok(ExportFormat::Xlsx));
    }
}

#[test]
fn bad_arguments_are_refused_in_order() {
    let all_wrong = |call| {
        check_arguments(
            call,
            Some("pdf"),
            RowsArg::Missing,
            FieldsArg::Missing,
            HeaderArg::Other,
        )
    };
    assert_eq!(all_wrong(ExportCall::Sync), Err(Refusal::Format));
    assert_eq!(all_wrong(ExportCall::Begin), Err(Refusal::Rows));
    let rest = |format, rows, fields, header| {
        check_arguments(ExportCall::Begin, format, rows, fields, header)
    };
    let rows = RowsArg::Rows(1);
    assert_eq!(
        rest(None, RowsArg::Other, FieldsArg::Fields, HeaderArg::Omitted),
        Err(Refusal::Rows)
    );
    assert_eq!(
        rest(Some("pdf"), rows, FieldsArg::Missing, HeaderArg::Other),
        Err(Refusal::Fields)
    );
    assert_eq!(
        rest(Some("pdf"), rows, FieldsArg::Other, HeaderArg::Other),
        Err(Refusal::FieldsKind)
    );
    assert_eq!(
        rest(Some("pdf"), rows, FieldsArg::Fields, HeaderArg::Other),
        Err(Refusal::Format)
    );
    assert_eq!(
        rest(None, rows, FieldsArg::Fields, HeaderArg::Other),
        Err(Refusal::Header)
    );
    // The heading does not matter to comma-separated values.
    assert_eq!(
        rest(Some("csv"), rows, FieldsArg::Fields, HeaderArg::Other),
        Ok(ExportFormat::Csv)
    );
}

#[test]
fn handles_are_judged() {
    let call = ExportCall::Continue;
    assert_eq!(check_handle(false, false, call, false), Some(Refusal::HandleMissing));
    assert_eq!(check_handle(true, false, call, true), Some(Refusal::HandleInvalid));
    assert_eq!(check_handle(true, true, call, false), Some(Refusal::HandleStale));
    assert_eq!(check_handle(true, true, call, true), None);
    // Giving up what is not there is no mistake.
    assert_eq!(check_handle(true, true, ExportCall::Cancel, false), None);
}

#[test]
fn refusals_say_what_is_wrong() {
    assert_eq!(
        Refusal::Rows.message(ExportCall::Sync),
        "ExportUtils.syncExport: rows must be an Array or XMLList"
    );
    assert_eq!(
        Refusal::Fields.message(ExportCall::Begin),
        "ExportUtils.asyncExportBegin: fields must be an Array"
    );
    assert_eq!(
        Refusal::FieldsKind.message(ExportCall::Begin),
        "ExportUtils: fields must be an Array"
    );
    assert_eq!(
        Refusal::Header.message(ExportCall::Sync),
        "ExportUtils: header must be an XML or null"
    );
    assert_eq!(
        Refusal::Format.message(ExportCall::Sync),
        "ExportUtils.syncExport: options.format must be \"xlsx\" or \"csv\""
    );
    assert_eq!(
        Refusal::HandleMissing.message(ExportCall::Cancel),
        "ExportUtils.asyncExportCancel: handle is required"
    );
    assert_eq!(
        Refusal::HandleInvalid.message(ExportCall::End),
        "ExportUtils: handle is missing or invalid"
    );
    assert_eq!(
        Refusal::HandleStale.message(ExportCall::Continue),
        "ExportUtils.asyncExportContinue: handle is no longer valid"
    );
    assert_eq!(
        Refusal::HandleStale.message(ExportCall::End),
        "ExportUtils.asyncExportEnd: handle is no longer valid"
    );
}
