use e4x_read_only::cell_text::col_letter;
use e4x_read_only::cell_text::days_from_civil;
use e4x_read_only::cell_text::is_date;
use e4x_read_only::cell_text::number_repr;
use e4x_read_only::cell_text::parse_date;
use e4x_read_only::cell_text::sanitize_sheet_name;
use e4x_read_only::cell_text::xml_escape;
use e4x_read_only::cell_text::xml_escape_attr;
use e4x_read_only::cells::extract_cell;
use e4x_read_only::cells::infer_col_types;
use e4x_read_only::cells::parse_field_labels;
use e4x_read_only::cells::parse_owned_selectors;
use e4x_read_only::cells::read_type_opts;
use e4x_read_only::cells::rebuild_selectors;
use e4x_read_only::cells::ColType;
use e4x_read_only::cells::OwnedSelector;
use e4x_read_only::cells::Row;
use e4x_read_only::cells::Selector;
use e4x_read_only::crc::CrcTable;
use e4x_read_only::csv::build_csv_row;
use e4x_read_only::csv::csv_write_cell;
use e4x_read_only::header::collect_cells;
use e4x_read_only::header::leaf_count;
use e4x_read_only::header::measure;
use e4x_read_only::header::node_depth;
use e4x_read_only::header::parse_header;
use e4x_read_only::header::HeaderNode;
use e4x_read_only::sheet::lay_out;
use e4x_read_only::styles::build_styles;
use e4x_read_only::styles::data_style;
use e4x_read_only::styles::date_style;
use e4x_read_only::styles::header_style;
use e4x_read_only::styles::sheet_open;
use e4x_read_only::styles::workbook_xml;
use e4x_read_only::styles::StyleOpts;
use e4x_read_only::xml_tree::XmlKind;
use e4x_read_only::xml_tree::XmlNode;
use e4x_read_only::Multiname;

fn local(name: &str, attribute: bool) -> Multiname {
    Multiname {
        any_name: false,
        local: Some(name.to_string()),
        any_namespace: true,
        namespaces: Vec::new(),
        attribute,
        explicit_namespace: false,
    }
}

fn text(s: &str) -> XmlNode {
    XmlNode {
        name: None,
        ns: None,
        kind: XmlKind::Text(s.to_string()),
    }
}

fn attribute(name: &str, value: &str) -> XmlNode {
    XmlNode {
        name: Some(name.to_string()),
        ns: None,
        kind: XmlKind::Attribute(value.to_string()),
    }
}

fn element(name: &str, attributes: Vec<XmlNode>, children: Vec<XmlNode>) -> XmlNode {
    XmlNode {
        name: Some(name.to_string()),
        ns: None,
        kind: XmlKind::Element {
            children,
            attributes,
        },
    }
}

fn number(s: &str) -> Option<String> {
    number_repr(s)
}

#[test]
fn plain_numbers() {
    assert_eq!(number("12").as_deref(), Some("12"));
    assert_eq!(number(" -12.50 ").as_deref(), Some("-12.50"));
    assert_eq!(number("+3,5").as_deref(), Some("3.5"));
    assert_eq!(number(",332").as_deref(), Some("0.332"));
    assert_eq!(number("-.5").as_deref(), Some("-0.5"));
    assert_eq!(number("0").as_deref(), Some("0"));
    assert_eq!(number("0.10").as_deref(), Some("0.10"));
    assert_eq!(number("123456789012345").as_deref(), Some("123456789012345"));
}

#[test]
fn what_is_no_plain_number() {
    for s in [
        "", " ", "-", ".", "5.", "1.2.3", "1,234.5", "007", "00", "1e5", "0x1", "1 2", "--1",
        "1234567890123456", "12a", "\u{0661}",
    ] {
        assert_eq!(number(s), None, "{s:?}");
    }
}

#[test]
fn a_number_reads_as_itself_again() {
    for s in ["+3,5", ",332", "-12.50", " 7 "] {
        let once = number(s).unwrap();
        assert_eq!(number(&once).as_deref(), Some(once.as_str()));
    }
    let full = number(".123456789012345").unwrap();
    assert_eq!(full, "0.123456789012345");
    assert_eq!(number(&full), Some(full));
}

#[test]
fn only_significant_digits_count() {
    assert_eq!(number("0.123456789012345").as_deref(), Some("0.123456789012345"));
    assert_eq!(number("-0,000123456789012345").as_deref(), Some("-0.000123456789012345"));
    assert_eq!(number("0.1234567890123456"), None);
    assert_eq!(number("1.123456789012345"), None);
    assert_eq!(number("0.0").as_deref(), Some("0.0"));
}

#[test]
fn days_of_the_calendar() {
    assert_eq!(days_from_civil(1970, 1, 1), 0);
    assert_eq!(days_from_civil(2000, 2, 29), 11016);
    assert_eq!(days_from_civil(2000, 3, 1), 11017);
    assert_eq!(days_from_civil(1900, 3, 1) - days_from_civil(1900, 2, 28), 1);
    assert_eq!(days_from_civil(0, 1, 1), -719528);
    assert_eq!(days_from_civil(-1, 12, 31), -719529);
}

#[test]
fn timestamps() {
    assert_eq!(parse_date("1970-01-01 00:00:00"), Some((25569, 0)));
    assert_eq!(parse_date("2024-02-29 12:30:15"), Some((45351, 45015)));
    assert!(is_date("1900-01-01 23:59:59"));
    assert_eq!(parse_date("1899-12-31 00:00:00"), Some((1, 0)));
    for s in [
        "1899-12-30 00:00:00", "2024-13-01 00:00:00", "2024-00-01 00:00:00", "2024-01-32 00:00:00",
        "2024-01-00 00:00:00", "2024-01-01 24:00:00", "2024-01-01 00:60:00", "2024-01-01 00:00:60",
        "2024-01-01T00:00:00", "2024-01-01", "2024-1-01 00:00:000", "202\u{e9}-01-0 00:00:00", "",
    ] {
        assert_eq!(parse_date(s), None, "{s:?}");
    }
}

#[test]
fn sheet_names() {
    assert_eq!(sanitize_sheet_name("Report"), "Report");
    assert_eq!(sanitize_sheet_name(" a/b:c*[d]?\\ "), "abcd");
    assert_eq!(sanitize_sheet_name(" ?? "), "Foglio1");
    assert_eq!(sanitize_sheet_name(""), "Foglio1");
    let long = "\u{e8}".repeat(40);
    assert_eq!(sanitize_sheet_name(&long), "\u{e8}".repeat(31));
}

#[test]
fn escaped_texts() {
    let mut out = String::from("=");
    xml_escape("a<b>&\"c\"\t\u{1}\n\u{e9}", &mut out);
    assert_eq!(out, "=a&lt;b&gt;&amp;\"c\"\t\n\u{e9}");
    let mut attr = String::new();
    xml_escape_attr("\"x\"\u{0}", &mut attr);
    assert_eq!(attr, "&quot;x&quot;");
}

#[test]
fn column_letters() {
    let names: Vec<String> = [0, 25, 26, 51, 701, 702, 16383]
        .iter()
        .map(|c| col_letter(*c))
        .collect();
    assert_eq!(names, vec!["A", "Z", "AA", "AZ", "ZZ", "AAA", "XFD"]);
}

#[test]
fn checksums() {
    let t = CrcTable::new();
    assert_eq!(!t.crc32_update(!0, b"123456789"), 0xCBF4_3926);
    let part = t.crc32_update(!0, b"1234");
    assert_eq!(!t.crc32_update(part, b"56789"), 0xCBF4_3926);
    assert_eq!(!t.crc32_update(!0, b""), 0);
}

fn cell(value: &str, separator: &str, force: bool) -> String {
    let mut out = String::new();
    csv_write_cell(value, separator, force, &mut out);
    out
}

#[test]
fn csv_cells() {
    assert_eq!(cell("plain", ";", false), "plain");
    assert_eq!(cell("a;b", ";", false), "\"a;b\"");
    assert_eq!(cell("a;b", ",", false), "a;b");
    assert_eq!(cell("a\"b", ";", false), "\"a\"\"b\"");
    assert_eq!(cell("a\nb", ";", false), "\"a\nb\"");
    assert_eq!(cell("a\rb", ";", false), "\"a\rb\"");
    assert_eq!(cell("a||b", "||", false), "\"a||b\"");
    assert_eq!(cell("a|b", "||", false), "a|b");
    assert_eq!(cell("x", "", false), "x");
    assert_eq!(cell("", ";", false), "");
    assert_eq!(cell("007", ";", true), "\"=\"\"007\"\"\"");
    assert_eq!(cell("a\"b", ";", true), "\"=\"\"a\"\"\"\"b\"\"\"");
}

/// The values of a line, without its line end.
fn line_values(line: &str, separator: char) -> Vec<String> {
    let mut values = vec![String::new()];
    let mut quoted = false;
    let mut chars = line.chars().peekable();
    while let Some(c) = chars.next() {
        if quoted && c == '"' && chars.peek() == Some(&'"') {
            chars.next();
            values.last_mut().unwrap().push('"');
        } else if c == '"' {
            quoted = !quoted;
        } else if c == separator && !quoted {
            values.push(String::new());
        } else {
            values.last_mut().unwrap().push(c);
        }
    }
    values
}

#[test]
fn csv_lines_read_back() {
    let texts = ["plain", "", "a;b", "say \"x\"", "\"", "one\r\ntwo", ";"];
    let selectors: Vec<Selector> =
        texts.iter().map(|_| Selector::Child(local("c", false))).collect();
    let row = Row::Object(texts.iter().map(|t| Some(t.to_string())).collect());
    let line = build_csv_row(&selectors, ";", false, &row);
    let line = line.strip_suffix("\r\n").unwrap();
    assert_eq!(line, "plain;;\"a;b\";\"say \"\"x\"\"\";\"\"\"\";\"one\r\ntwo\";\";\"");
    assert_eq!(line_values(line, ';'), texts);
}

#[test]
fn fields_select_and_label() {
    let fields = vec![Some("".to_string()), Some("@id".to_string()), Some("name".to_string()), None];
    let owned = parse_owned_selectors(&fields);
    assert!(matches!(owned[0], OwnedSelector::Node));
    assert!(matches!(&owned[1], OwnedSelector::Attr(n) if n == "id"));
    assert!(matches!(&owned[2], OwnedSelector::Child(n) if n == "name"));
    assert!(matches!(owned[3], OwnedSelector::Empty));
    assert_eq!(parse_field_labels(&fields), vec!["", "id", "name", ""]);
    let resolved = rebuild_selectors(&owned, &|n: &str, a: bool| Some(local(n, a))).unwrap();
    assert!(matches!(&resolved[1], Selector::Attr(m) if m.attribute));
    assert!(rebuild_selectors(&owned, &|_: &str, _: bool| None).is_none());
}

fn taken(row: &Row, selector: Selector, c: usize) -> String {
    let mut buf = String::from("old");
    extract_cell(row, &selector, c, &mut buf);
    buf
}

#[test]
fn cells_of_trees_and_objects() {
    let tree = element(
        "r",
        vec![attribute("id", "7"), attribute("x", "8")],
        vec![
            element("a", vec![], vec![text("1")]),
            text("t"),
            element("a", vec![], vec![text("2"), element("i", vec![], vec![text("3")])]),
            XmlNode {
                name: None,
                ns: None,
                kind: XmlKind::Comment("no".to_string()),
            },
            XmlNode {
                name: None,
                ns: None,
                kind: XmlKind::CData("c".to_string()),
            },
        ],
    );
    let row = Row::Xml(std::rc::Rc::new(tree));
    assert_eq!(taken(&row, Selector::Empty, 0), "");
    assert_eq!(taken(&row, Selector::Node, 0), "1t23c");
    assert_eq!(taken(&row, Selector::Child(local("a", false)), 0), "1\n23");
    assert_eq!(taken(&row, Selector::Attr(local("id", true)), 0), "7");
    let object = Row::Object(vec![Some("x".to_string()), None]);
    assert_eq!(taken(&object, Selector::Node, 0), "x");
    assert_eq!(taken(&object, Selector::Child(local("n", false)), 1), "");
    assert_eq!(taken(&object, Selector::Empty, 0), "");
}

fn rows_of(table: &[&[&str]]) -> impl Fn(usize) -> Option<Row> {
    let rows: Vec<Vec<Option<String>>> = table
        .iter()
        .map(|r| r.iter().map(|t| Some(t.to_string())).collect())
        .collect();
    move |i| rows.get(i).map(|r| Row::Object(r.clone()))
}

#[test]
fn column_types_are_found() {
    let table: &[&[&str]] = &[
        &["1", "2024-01-01 00:00:00", "a", "", "1"],
        &[" 2,5 ", "", "1", " ", "2024-01-01 00:00:00"],
    ];
    let selectors = vec![Selector::Node, Selector::Node, Selector::Node, Selector::Node, Selector::Node];
    let opts = read_type_opts(None, None, None);
    assert_eq!(opts.sample_rows, 1000);
    let types = infer_col_types(&rows_of(table), 2, &selectors, 6, opts).unwrap();
    assert!(
        types
            == vec![
                ColType::Number,
                ColType::Date,
                ColType::Text,
                ColType::Text,
                ColType::Text,
                ColType::Text
            ]
    );
    // Only the first row is looked at.
    let one = infer_col_types(&rows_of(table), 2, &selectors, 5, read_type_opts(None, None, Some(1)));
    assert!(one.unwrap()[4] == ColType::Number);
    let no_dates = read_type_opts(None, Some(false), Some(-1));
    assert_eq!(no_dates.sample_rows, 0);
    let types = infer_col_types(&rows_of(table), 2, &selectors, 5, no_dates).unwrap();
    assert!(types[1] == ColType::Text);
    let off = infer_col_types(&rows_of(table), 9, &selectors, 5, read_type_opts(Some(false), None, None));
    assert!(off.unwrap()[0] == ColType::Text);
    assert!(infer_col_types(&rows_of(table), 3, &selectors, 5, opts).is_none());
}

fn sample_header() -> XmlNode {
    element(
        "h",
        vec![],
        vec![
            element("c", vec![attribute("t", "A"), attribute("width", "12")], vec![]),
            element(
                "g",
                vec![attribute("t", "G"), attribute("textAlign", "left")],
                vec![
                    element("c", vec![attribute("t", "B"), attribute("textAlign", "right")], vec![]),
                    element("c", vec![attribute("t", "C"), attribute("width", "wide")], vec![]),
                ],
            ),
            element("z", vec![], vec![]),
            text("ignored"),
        ],
    )
}

fn width(s: &str) -> Option<String> {
    let v: f64 = s.parse().ok()?;
    Some(format!("{v}"))
}

#[test]
fn headers_are_laid_out() {
    let tree = parse_header(&sample_header(), &width);
    assert_eq!(tree.len(), 2);
    assert!(matches!(&tree[0], HeaderNode::Leaf { label, align, width }
        if label == "A" && align.is_empty() && width.as_deref() == Some("12")));
    assert_eq!(measure(&tree), Some((3, 2)));
    assert_eq!(leaf_count(&tree[1]), 2);
    assert_eq!(node_depth(&tree[1]), 2);
    let head = lay_out(&Some(tree), &vec!["unused".to_string()]);
    assert_eq!(head.depth, 2);
    assert_eq!(head.cols, 3);
    assert_eq!(head.aligns, vec!["center", "right", "center"]);
    assert_eq!(head.widths, vec![Some("12".to_string()), None, None]);
    let shape: Vec<(u32, usize, u32, usize, &str, &str)> = head
        .cells
        .iter()
        .map(|c| (c.row, c.col, c.rowspan, c.colspan, c.label.as_str(), c.align.as_str()))
        .collect();
    assert_eq!(
        shape,
        vec![
            (1, 0, 2, 1, "A", "center"),
            (1, 1, 1, 2, "G", "left"),
            (2, 1, 1, 1, "B", "right"),
            (2, 2, 1, 1, "C", "center"),
        ]
    );
}

#[test]
fn headings_tile_their_rectangle() {
    for (depth, total) in [(0, 1), (1, 2), (1, 4)] {
        let mut cells = Vec::new();
        collect_cells(&parse_header(&sample_header(), &width), depth, total, 5, &mut cells);
        for r in 0..7 {
            for c in 3..10 {
                let taken = cells
                    .iter()
                    .filter(|x| {
                        x.row <= r && r < x.row + x.rowspan && x.col <= c && c < x.col + x.colspan
                    })
                    .count();
                let inside = depth <= r && r <= total && 5 <= c && c < 8;
                assert_eq!(taken, usize::from(inside), "{depth} {total} {r} {c}");
            }
        }
    }
}

#[test]
fn flat_and_empty_headers() {
    let flat = lay_out(&None, &vec!["a".to_string(), "b".to_string()]);
    assert_eq!((flat.depth, flat.cols, flat.cells.len()), (1, 2, 2));
    assert_eq!(flat.aligns, vec!["", ""]);
    let none = lay_out(&None, &vec![]);
    assert_eq!((none.depth, none.cols), (0, 0));
    let empty = lay_out(&Some(vec![]), &vec![]);
    assert_eq!((empty.depth, empty.cols), (1, 0));
    // A group without headings below it still takes a column.
    let group = vec![HeaderNode::Group {
        label: "G".to_string(),
        align: String::new(),
        children: vec![],
    }];
    let head = lay_out(&Some(group), &vec![]);
    assert_eq!((head.depth, head.cols, head.aligns.len()), (1, 1, 0));
}

#[test]
fn style_numbers() {
    assert_eq!(header_style(""), 1);
    assert_eq!(header_style("right"), 4);
    assert_eq!(header_style("justify"), 1);
    assert_eq!(data_style("center", 0), 7);
    assert_eq!(data_style("", 1), 9);
    assert_eq!(date_style("left", 1), 18);
}

#[test]
fn style_sheets() {
    let opts = StyleOpts {
        font_family: "A&B".to_string(),
        font_size: "11".to_string(),
        header_bg: Some(0xFF12_34AB),
        header_fg: Some(0x00FF00),
        row_colors: Some((1, 0xFFFFFF)),
    };
    let xml = build_styles(&opts);
    assert!(xml.contains("<name val=\"A&amp;B\"/>"));
    assert!(xml.contains("<fills count=\"5\">"));
    assert!(xml.contains("<fgColor rgb=\"FF1234AB\"/>"));
    assert!(xml.contains("<fgColor rgb=\"FF000001\"/>"));
    assert!(xml.contains("<color rgb=\"FF00FF00\"/>"));
    assert!(xml.contains("<cellXfs count=\"21\">"));
    let xfs: Vec<&str> = xml.split("<cellXfs count=\"21\">").nth(1).unwrap().split("</cellXfs>").next().unwrap()
        .split("<xf ").skip(1).collect();
    assert_eq!(xfs.len(), 21);
    // The style of a left-aligned date in an odd row.
    assert!(xfs[date_style("left", 1) as usize].starts_with("numFmtId=\"164\" fontId=\"0\" fillId=\"4\""));
    assert!(xfs[date_style("left", 1) as usize].contains("horizontal=\"left\""));
    assert!(xfs[header_style("") as usize].starts_with("numFmtId=\"0\" fontId=\"1\" fillId=\"2\""));
    let plain = build_styles(&StyleOpts {
        font_family: "Calibri".to_string(),
        font_size: "9.5".to_string(),
        header_bg: None,
        header_fg: None,
        row_colors: None,
    });
    assert!(plain.contains("<fills count=\"2\">"));
    assert!(plain.contains("<font><b/><sz val=\"9.5\"/>"));
}

#[test]
fn sheet_parts() {
    assert!(workbook_xml("a\"b/c").contains("<sheet name=\"a&quot;bc\" sheetId=\"1\""));
    let open = sheet_open(2, "<cols/>");
    assert!(open.contains("<pane ySplit=\"2\" topLeftCell=\"A3\""));
    assert!(open.ends_with("</sheetViews><cols/><sheetData>"));
    assert!(!sheet_open(0, "").contains("sheetViews"));
}
