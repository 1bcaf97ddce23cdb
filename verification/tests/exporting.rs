use e4x_read_only::cells::Row;
use e4x_read_only::cells::Selector;
use e4x_read_only::export::ExportError;
use e4x_read_only::export::ExportOptions;
use e4x_read_only::export_utils::async_export_begin;
use e4x_read_only::export_utils::async_export_cancel;
use e4x_read_only::export_utils::async_export_continue;
use e4x_read_only::export_utils::async_export_end;
use e4x_read_only::export_utils::sync_export;
use e4x_read_only::export_utils::Export;
use e4x_read_only::export_utils::ExportTable;
use e4x_read_only::header::HeaderNode;
use e4x_read_only::E4XNodeReadOnly;
use e4x_read_only::E4XStoreReadOnly;
use e4x_read_only::Multiname;
use flate2::read::DeflateDecoder;
use std::io::Read;
use std::rc::Rc;

fn options() -> ExportOptions {
    ExportOptions {
        format: None,
        sheet_name: None,
        compression: None,
        font_family: None,
        font_size: None,
        header_bg: None,
        header_fg: None,
        row_colors: None,
        detect_types: None,
        detect_dates: None,
        sample_rows: None,
        separator: None,
        separator_hint: None,
        force_text: None,
        compress: None,
        min_chunk: None,
    }
}

fn csv_options() -> ExportOptions {
    ExportOptions {
        format: Some("csv".to_string()),
        ..options()
    }
}

fn labels(list: &[&str]) -> Vec<String> {
    list.iter().map(|s| s.to_string()).collect()
}

fn own(n: usize) -> Vec<Selector> {
    (0..n).map(|_| Selector::Node).collect()
}

fn export(options: ExportOptions, names: &[&str], total: usize) -> Export {
    Export {
        options,
        tree: None,
        labels: labels(names),
        selectors: own(names.len()),
        total_rows: total,
    }
}

fn numbered(i: usize) -> Option<Row> {
    Some(Row::Object(vec![
        Some(format!("{i}")),
        Some(format!("n;{i}")),
        if i % 2 == 0 {
            Some("2024-01-01 12:00:00".to_string())
        } else {
            None
        },
    ]))
}

fn serial(day: i64, second: i64) -> String {
    format!("{}", day as f64 + second as f64 / 86400.0)
}

fn le16(b: &[u8], at: usize) -> usize {
    b[at] as usize + 256 * b[at + 1] as usize
}

fn le32(b: &[u8], at: usize) -> usize {
    le16(b, at) + 65536 * le16(b, at + 2)
}

struct Entry {
    name: String,
    content: String,
    packed: usize,
}

// Reads an archive by way of its directory.
fn unzip(b: &[u8]) -> Vec<Entry> {
    let end = b.len() - 22;
    assert_eq!(le32(b, end), 0x0605_4b50);
    let count = le16(b, end + 10);
    let mut at = le32(b, end + 16);
    assert_eq!(at + le32(b, end + 12), end);
    let mut out = Vec::new();
    for _ in 0..count {
        assert_eq!(le32(b, at), 0x0201_4b50);
        let n = le16(b, at + 28);
        let name = String::from_utf8(b[at + 46..at + 46 + n].to_vec()).unwrap();
        let local = le32(b, at + 42);
        assert_eq!(le32(b, local), 0x0403_4b50);
        assert_eq!(&b[local + 14..local + 28], &b[at + 16..at + 30]);
        assert_eq!(&b[local + 30..local + 30 + n], name.as_bytes());
        let packed = le32(b, local + 18);
        let start = local + 30 + n;
        let mut content = Vec::new();
        DeflateDecoder::new(&b[start..start + packed]).read_to_end(&mut content).unwrap();
        assert_eq!(content.len(), le32(b, local + 22));
        let table = e4x_read_only::crc::CrcTable::new();
        assert_eq!(!table.crc32_update(!0, &content) as usize, le32(b, local + 14));
        out.push(Entry {
            name,
            content: String::from_utf8(content).unwrap(),
            packed,
        });
        at += 46 + n;
    }
    assert_eq!(at, end);
    out
}

fn sheet(b: &[u8]) -> String {
    let entries = unzip(b);
    assert_eq!(entries.len(), 6);
    assert_eq!(entries[5].name, "xl/worksheets/sheet1.xml");
    entries[5].content.clone()
}

#[test]
fn a_plain_csv() {
    let out = sync_export(export(csv_options(), &["a", "b;c", "d"], 2), &numbered, &serial).unwrap();
    let text = String::from_utf8(out).unwrap();
    assert_eq!(
        text,
        "\u{FEFF}a;\"b;c\";d\r\n0;\"n;0\";2024-01-01 12:00:00\r\n1;\"n;1\";\r\n"
    );
}

#[test]
fn csv_settings() {
    let o = ExportOptions {
        separator: Some(",".to_string()),
        separator_hint: Some(true),
        force_text: Some(true),
        ..csv_options()
    };
    let out = sync_export(export(o, &["a", "b"], 1), &numbered, &serial).unwrap();
    let text = String::from_utf8(out).unwrap();
    assert_eq!(
        text,
        "\u{FEFF}sep=,\r\na,b\r\n\"=\"\"0\"\"\",\"=\"\"n;0\"\"\"\r\n"
    );
}

#[test]
fn an_empty_csv_has_its_headings() {
    let out = sync_export(export(csv_options(), &[], 0), &numbered, &serial).unwrap();
    assert_eq!(out, b"\xEF\xBB\xBF\r\n");
}

#[test]
fn a_compressed_csv_is_an_archive_of_one() {
    let o = ExportOptions {
        compress: Some(true),
        sheet_name: Some("My/Sheet".to_string()),
        compression: Some(99),
        ..csv_options()
    };
    let out = sync_export(export(o, &["a"], 3), &numbered, &serial).unwrap();
    let entries = unzip(&out);
    assert_eq!(entries.len(), 1);
    assert_eq!(entries[0].name, "MySheet.csv");
    assert_eq!(entries[0].content, "\u{FEFF}a\r\n0\r\n1\r\n2\r\n");
}

#[test]
fn a_workbook_has_its_parts() {
    let o = ExportOptions {
        sheet_name: Some("Data".to_string()),
        row_colors: Some((0xEEEEEE, 0xFFFFFF)),
        ..options()
    };
    let out = sync_export(export(o, &["a", "b", "c"], 2), &numbered, &serial).unwrap();
    let entries = unzip(&out);
    let names: Vec<&str> = entries.iter().map(|e| e.name.as_str()).collect();
    assert_eq!(
        names,
        vec![
            "[Content_Types].xml",
            "_rels/.rels",
            "xl/workbook.xml",
            "xl/_rels/workbook.xml.rels",
            "xl/styles.xml",
            "xl/worksheets/sheet1.xml"
        ]
    );
    assert!(entries[0].content.starts_with("<?xml version=\"1.0\" encoding=\"UTF-8\" standalone=\"yes\"?>\n<Types "));
    assert!(entries[1].content.contains("Target=\"xl/workbook.xml\""));
    assert!(entries[2].content.contains("<sheet name=\"Data\""));
    assert!(entries[3].content.contains("Target=\"styles.xml\""));
    assert!(entries[4].content.contains("<sz val=\"11\"/><name val=\"Calibri\"/>"));
    assert!(entries[4].content.contains("FFEEEEEE"));
}

#[test]
fn a_worksheet_has_its_rows() {
    let out = sync_export(export(options(), &["a", "b", "c"], 2), &numbered, &serial).unwrap();
    assert_eq!(
        sheet(&out),
        "<?xml version=\"1.0\" encoding=\"UTF-8\" standalone=\"yes\"?>\n<worksheet xmlns=\"http://schemas.openxmlformats.org/spreadsheetml/2006/main\"><sheetViews><sheetView workbookViewId=\"0\"><pane ySplit=\"1\" topLeftCell=\"A2\" activePane=\"bottomLeft\" state=\"frozen\"/><selection pane=\"bottomLeft\"/></sheetView></sheetViews><sheetData><row r=\"1\"><c r=\"A1\" s=\"1\" t=\"inlineStr\"><is><t xml:space=\"preserve\">a</t></is></c><c r=\"B1\" s=\"1\" t=\"inlineStr\"><is><t xml:space=\"preserve\">b</t></is></c><c r=\"C1\" s=\"1\" t=\"inlineStr\"><is><t xml:space=\"preserve\">c</t></is></c></row><row r=\"2\"><c r=\"A2\" s=\"5\"><v>0</v></c><c r=\"B2\" s=\"5\" t=\"inlineStr\"><is><t xml:space=\"preserve\">n;0</t></is></c><c r=\"C2\" s=\"13\"><v>45292.5</v></c></row><row r=\"3\"><c r=\"A3\" s=\"9\"><v>1</v></c><c r=\"B3\" s=\"9\" t=\"inlineStr\"><is><t xml:space=\"preserve\">n;1</t></is></c><c r=\"C3\" s=\"9\"/></row></sheetData><ignoredErrors><ignoredError sqref=\"A2:C3\" numberStoredAsText=\"1\"/></ignoredErrors></worksheet>"
    );
}

fn leaf(label: &str, align: &str, width: Option<&str>) -> HeaderNode {
    HeaderNode::Leaf {
        label: label.to_string(),
        align: align.to_string(),
        width: width.map(|w| w.to_string()),
    }
}

#[test]
fn grouped_headings_are_merged() {
    let tree = vec![
        leaf("A", "", Some("12.5")),
        HeaderNode::Group {
            label: "G<".to_string(),
            align: "left".to_string(),
            children: vec![leaf("B", "right", None), leaf("C", "", None)],
        },
    ];
    let e = Export {
        tree: Some(tree),
        ..export(
            ExportOptions {
                detect_types: Some(false),
                ..options()
            },
            &["x", "y", "z"],
            1,
        )
    };
    let text = sheet(&sync_export(e, &numbered, &serial).unwrap());
    assert!(text.contains("<cols><col min=\"1\" max=\"1\" width=\"12.5\" customWidth=\"1\"/></cols>"));
    assert!(text.contains("<pane ySplit=\"2\" topLeftCell=\"A3\""));
    assert!(text.contains("<row r=\"1\"><c r=\"A1\" s=\"3\" t=\"inlineStr\"><is><t xml:space=\"preserve\">A</t></is></c><c r=\"B1\" s=\"2\" t=\"inlineStr\"><is><t xml:space=\"preserve\">G&lt;</t></is></c><c r=\"C1\" s=\"2\"/></row>"));
    assert!(text.contains("<row r=\"2\"><c r=\"A2\" s=\"3\"/><c r=\"B2\" s=\"4\" t=\"inlineStr\">"));
    assert!(text.contains("<mergeCells count=\"2\"><mergeCell ref=\"A1:A2\"/><mergeCell ref=\"B1:C1\"/></mergeCells>"));
    // Without types every cell is a text, aligned as its column.
    assert!(text.contains("<row r=\"3\"><c r=\"A3\" s=\"7\" t=\"inlineStr\"><is><t xml:space=\"preserve\">0</t>"));
    assert!(text.contains("<c r=\"B3\" s=\"8\" t=\"inlineStr\">"));
    assert!(text.contains("sqref=\"A3:C3\""));
}

#[test]
fn values_outside_the_sample_are_kept_as_text() {
    let rows = |i: usize| -> Option<Row> {
        Some(Row::Object(vec![Some(if i == 0 {
            "1".to_string()
        } else {
            "n/a".to_string()
        })]))
    };
    let o = ExportOptions {
        sample_rows: Some(1),
        ..options()
    };
    let text = sheet(&sync_export(export(o, &["v"], 2), &rows, &serial).unwrap());
    assert!(text.contains("<c r=\"A2\" s=\"5\"><v>1</v></c>"));
    assert!(text.contains("<c r=\"A3\" s=\"9\" t=\"inlineStr\"><is><t xml:space=\"preserve\">n/a</t></is></c>"));
}

#[test]
fn a_workbook_without_columns_or_rows() {
    let text = sheet(&sync_export(export(options(), &[], 0), &numbered, &serial).unwrap());
    assert!(text.ends_with("<sheetData></sheetData></worksheet>"));
    assert!(!text.contains("sheetViews"));
}

#[test]
fn an_unknown_format_is_refused() {
    let o = ExportOptions {
        format: Some("pdf".to_string()),
        ..options()
    };
    assert_eq!(
        sync_export(export(o, &["a"], 1), &numbered, &serial),
        Err(ExportError::Format)
    );
    let mut table = ExportTable::new();
    let o = ExportOptions {
        format: Some("XLSX".to_string()),
        ..options()
    };
    assert_eq!(
        async_export_begin(&mut table, export(o, &["a"], 1), &numbered),
        Err(ExportError::Format)
    );
}

#[test]
fn a_row_that_cannot_be_read_stops_the_export() {
    let rows = |i: usize| if i == 1 { None } else { numbered(i) };
    assert_eq!(
        sync_export(export(csv_options(), &["a"], 3), &rows, &serial),
        Err(ExportError::Row)
    );
    assert_eq!(
        sync_export(export(options(), &["a"], 3), &rows, &serial),
        Err(ExportError::Row)
    );
    // The failing row is not looked at before its chunk.
    let mut table = ExportTable::new();
    let o = ExportOptions {
        min_chunk: Some(1),
        ..csv_options()
    };
    let id = async_export_begin(&mut table, export(o, &["a"], 3), &rows).unwrap();
    assert_eq!(async_export_continue(&mut table, id, &rows, &serial), Ok(1));
    assert_eq!(
        async_export_continue(&mut table, id, &rows, &serial),
        Err(ExportError::Row)
    );
    // The export is still there.
    assert_eq!(async_export_continue(&mut table, id, &numbered, &serial), Ok(2));
    let out = async_export_end(&mut table, id, &numbered, &serial).unwrap();
    assert_eq!(out, b"\xEF\xBB\xBFa\r\n0\r\n1\r\n2\r\n");
}

#[test]
fn chunks_give_what_one_run_gives() {
    let make = |csv: bool| {
        let o = ExportOptions {
            min_chunk: Some(7),
            ..if csv { csv_options() } else { options() }
        };
        export(o, &["a", "b", "c"], 250)
    };
    let zipped = ExportOptions {
        compress: Some(true),
        min_chunk: Some(7),
        ..csv_options()
    };
    let packed = |o: ExportOptions| export(o, &["a", "b", "c"], 250);
    let again = ExportOptions {
        compress: Some(true),
        ..csv_options()
    };
    let once = sync_export(packed(again), &numbered, &serial).unwrap();
    let mut table = ExportTable::new();
    let id = async_export_begin(&mut table, packed(zipped), &numbered).unwrap();
    async_export_continue(&mut table, id, &numbered, &serial).unwrap();
    assert_eq!(async_export_end(&mut table, id, &numbered, &serial).unwrap(), once);
    for csv in [true, false] {
        let once = sync_export(make(csv), &numbered, &serial).unwrap();
        let mut table = ExportTable::new();
        let id = async_export_begin(&mut table, make(csv), &numbered).unwrap();
        let mut done = 0;
        let mut steps = 0;
        while done < 250 {
            done = async_export_continue(&mut table, id, &numbered, &serial).unwrap();
            steps += 1;
        }
        assert_eq!(steps, 36);
        // Nothing is left to do.
        assert_eq!(async_export_continue(&mut table, id, &numbered, &serial), Ok(250));
        let parts = async_export_end(&mut table, id, &numbered, &serial).unwrap();
        assert_eq!(parts, once);
        // Ending early writes the rest.
        let id = async_export_begin(&mut table, make(csv), &numbered).unwrap();
        async_export_continue(&mut table, id, &numbered, &serial).unwrap();
        assert_eq!(async_export_end(&mut table, id, &numbered, &serial).unwrap(), once);
    }
}

#[test]
fn chunks_are_a_hundredth_but_not_small() {
    let mut table = ExportTable::new();
    let step = |table: &mut ExportTable, total: usize, least: Option<i32>| {
        let o = ExportOptions {
            min_chunk: least,
            ..csv_options()
        };
        let id = async_export_begin(table, export(o, &["a"], total), &numbered).unwrap();
        let done = async_export_continue(table, id, &numbered, &serial).unwrap();
        async_export_cancel(table, id);
        done
    };
    assert_eq!(step(&mut table, 1000, None), 100);
    assert_eq!(step(&mut table, 1000, Some(1)), 10);
    assert_eq!(step(&mut table, 1001, Some(-5)), 11);
    assert_eq!(step(&mut table, 50, Some(0)), 1);
    assert_eq!(step(&mut table, 20000, None), 200);
}

#[test]
fn numbers_are_given_in_order_and_used_up() {
    let mut table = ExportTable::new();
    let a = async_export_begin(&mut table, export(csv_options(), &["a"], 1), &numbered).unwrap();
    let b = async_export_begin(&mut table, export(csv_options(), &["a"], 1), &numbered).unwrap();
    assert_eq!((a, b), (1, 2));
    async_export_cancel(&mut table, a);
    assert_eq!(
        async_export_continue(&mut table, a, &numbered, &serial),
        Err(ExportError::Handle)
    );
    assert_eq!(
        async_export_end(&mut table, a, &numbered, &serial),
        Err(ExportError::Handle)
    );
    assert!(async_export_end(&mut table, b, &numbered, &serial).is_ok());
    assert_eq!(
        async_export_end(&mut table, b, &numbered, &serial),
        Err(ExportError::Handle)
    );
}

#[test]
fn large_exports_are_deflated_through() {
    let rows = |i: usize| -> Option<Row> {
        Some(Row::Object(vec![Some(format!("{}-{}", i, i.wrapping_mul(2654435761)))]))
    };
    for level in [0, 1, 6, 9] {
        let o = ExportOptions {
            compression: Some(level),
            ..options()
        };
        let out = sync_export(export(o, &["v"], 20000), &rows, &serial).unwrap();
        let entries = unzip(&out);
        let text = &entries[5].content;
        assert!(text.contains("<row r=\"20001\">"));
        assert!(text.contains("19999-"));
        if level == 0 {
            assert!(entries[5].packed > text.len());
        } else {
            assert!(entries[5].packed < text.len() / 2);
        }
    }
}

fn unescape(raw: &[u8]) -> Option<String> {
    let text = std::str::from_utf8(raw).ok()?;
    quick_xml::escape::unescape(text).ok().map(|t| t.into_owned())
}

#[test]
fn stored_nodes_are_exported() {
    let src = r#"<t><r id="1"><n>x</n></r><r id="2"><n>y</n><n>z</n></r></t>"#;
    let store = Rc::new(E4XStoreReadOnly::parse(src, true, true, true, &unescape).unwrap());
    let root = E4XNodeReadOnly::new(store, 0);
    let name = |n: &str, attribute: bool| Multiname {
        any_name: false,
        local: Some(n.to_string()),
        any_namespace: true,
        namespaces: Vec::new(),
        attribute,
        explicit_namespace: false,
    };
    let e = Export {
        options: csv_options(),
        tree: None,
        labels: labels(&["id", "n", "", "all"]),
        selectors: vec![
            Selector::Attr(name("id", true)),
            Selector::Child(name("n", false)),
            Selector::Empty,
            Selector::Node,
        ],
        total_rows: 2,
    };
    let rows = |i: usize| root.child_element_at(i).map(Row::ReadOnly);
    let text = String::from_utf8(sync_export(e, &rows, &serial).unwrap()).unwrap();
    assert_eq!(text, "\u{FEFF}id;n;;all\r\n1;x;;x\r\n2;\"y\nz\";;yz\r\n");
}
