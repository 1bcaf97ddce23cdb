use e4x_read_only::E4XNodeReadOnly;
use e4x_read_only::E4XStoreReadOnly;
use e4x_read_only::RespStreamBuilder;
use flate2::write::DeflateEncoder;
use flate2::Compression;
use std::io::Write;
use std::rc::Rc;

fn lp(out: &mut Vec<u8>, s: &[u8]) {
    let mut n = s.len();
    while n >= 128 {
        out.push((n % 128) as u8 | 128);
        n /= 128;
    }
    out.push(n as u8);
    out.extend_from_slice(s);
}

fn header(root: &str, ns: &str, row: &str, cols: &[&str]) -> Vec<u8> {
    let mut out = b"RESP\x01".to_vec();
    lp(&mut out, root.as_bytes());
    lp(&mut out, ns.as_bytes());
    lp(&mut out, row.as_bytes());
    out.push(cols.len() as u8);
    for c in cols {
        lp(&mut out, c.as_bytes());
    }
    out
}

fn row(cells: &[Option<&str>]) -> Vec<u8> {
    let mut out = vec![1u8];
    for c in cells {
        match c {
            Some(t) => {
                out.push(1);
                lp(&mut out, t.as_bytes());
            }
            None => out.push(0),
        }
    }
    out
}

fn sample() -> Vec<u8> {
    let mut b = header("ns1:getResponse", "urn:svc", "row", &["id", "name"]);
    b.extend(row(&[Some("1"), Some("a<b")]));
    b.extend(row(&[Some("2"), None]));
    b.push(0);
    b
}

fn xml(store: E4XStoreReadOnly) -> String {
    let store = Rc::new(store);
    let at = store.roots()[0];
    let mut out = String::new();
    E4XNodeReadOnly::new(store, at).write_xml_string(&mut out);
    out
}

const SAMPLE_XML: &str = "<SOAP-ENV:Envelope xmlns:SOAP-ENV=\"http://schemas.xmlsoap.org/soap/envelope/\"><SOAP-ENV:Body><ns1:getResponse xmlns:ns1=\"urn:svc\"><row><id>1</id><name>a&lt;b</name></row><row><id>2</id><name/></row></ns1:getResponse></SOAP-ENV:Body></SOAP-ENV:Envelope>";

const EMPTY_XML: &str = "<SOAP-ENV:Envelope xmlns:SOAP-ENV=\"http://schemas.xmlsoap.org/soap/envelope/\"><SOAP-ENV:Body/></SOAP-ENV:Envelope>";

fn raw_stream(body: &[u8]) -> Vec<u8> {
    let mut out = vec![0u8];
    out.extend_from_slice(body);
    out
}

fn deflated_stream(body: &[u8]) -> Vec<u8> {
    let mut e = DeflateEncoder::new(vec![1u8], Compression::new(6));
    e.write_all(body).unwrap();
    e.finish().unwrap()
}

fn fed(stream: &[u8], step: usize) -> E4XStoreReadOnly {
    let mut b = RespStreamBuilder::new();
    let mut at = 0;
    while at < stream.len() {
        let end = (at + step).min(stream.len());
        b.feed(&stream[at..end]);
        at = end;
    }
    b.finish().unwrap()
}

fn unescape(raw: &[u8]) -> Option<String> {
    let text = std::str::from_utf8(raw).ok()?;
    quick_xml::escape::unescape(text).ok().map(|t| t.into_owned())
}

#[test]
fn a_row_set_becomes_an_envelope() {
    let store = E4XStoreReadOnly::from_binary(&sample()).unwrap();
    assert_eq!(store.roots().len(), 1);
    assert_eq!(store.node_count(), 9);
    assert_eq!(store.decl_count(), 2);
    assert_eq!(xml(store), SAMPLE_XML);
}

#[test]
fn a_row_set_is_the_document_that_it_stands_for() {
    let binary = Rc::new(E4XStoreReadOnly::from_binary(&sample()).unwrap());
    let parsed =
        Rc::new(E4XStoreReadOnly::parse(SAMPLE_XML, false, true, true, &unescape).unwrap());
    assert_eq!(binary.node_count(), parsed.node_count());
    let a = E4XNodeReadOnly::new(binary, 0);
    let b = E4XNodeReadOnly::new(parsed, 0);
    assert!(a.deep_equals(&b));
}

#[test]
fn a_stream_may_come_in_any_pieces() {
    let plain = raw_stream(&sample());
    let packed = deflated_stream(&sample());
    for step in [1, 2, 3, 7, 1000] {
        assert_eq!(xml(fed(&plain, step)), SAMPLE_XML);
        assert_eq!(xml(fed(&packed, step)), SAMPLE_XML);
    }
}

#[test]
fn where_a_stream_is_cut_does_not_matter() {
    let mut b = sample();
    b.extend(row(&[Some("9"), Some("9")]));
    b.extend_from_slice(&[1, 2, 3]);
    for stream in [raw_stream(&b), deflated_stream(&b)] {
        for cut in 0..=stream.len() {
            let mut builder = RespStreamBuilder::new();
            builder.feed(&stream[..cut]);
            builder.feed(&stream[cut..]);
            assert_eq!(xml(builder.finish().unwrap()), SAMPLE_XML, "{cut}");
        }
    }
}

#[test]
fn a_large_deflated_stream_is_inflated_whole() {
    let mut b = header("r", "", "row", &["v"]);
    let long = "x".repeat(1000);
    for i in 0..500 {
        b.extend(row(&[Some(&format!("{long}{i}"))]));
    }
    b.push(0);
    let store = Rc::new(fed(&deflated_stream(&b), 4096));
    assert_eq!(store.node_count(), 3 + 1000);
    let last = E4XNodeReadOnly::new(store, 1002);
    assert_eq!(last.string_value(), format!("{long}499"));
}

#[test]
fn a_fault_stands_behind_the_root() {
    let mut b = header("r", "", "row", &["v"]);
    b.extend(row(&[Some("1")]));
    b.push(0xFF);
    lp(&mut b, b"boom");
    let text = xml(E4XStoreReadOnly::from_binary(&b).unwrap());
    assert!(text.contains("<r><row><v>1</v></row></r><SOAP-ENV:Fault><faultcode>SOAP-ENV:Server</faultcode><faultstring>boom</faultstring></SOAP-ENV:Fault></SOAP-ENV:Body>"));
}

#[test]
fn a_truncated_row_is_left_out() {
    let mut b = header("r", "", "row", &["v", "w"]);
    b.extend(row(&[Some("1"), Some("2")]));
    let whole = b.clone();
    b.extend_from_slice(&[1, 1, 1, b'x', 1]);
    let cut = xml(E4XStoreReadOnly::from_binary(&b).unwrap());
    assert_eq!(cut, xml(E4XStoreReadOnly::from_binary(&whole).unwrap()));
    assert!(cut.contains("<row><v>1</v><w>2</w></row></r>"));
}

#[test]
fn what_follows_a_terminator_does_not_count() {
    let mut b = sample();
    b.extend(row(&[Some("9"), Some("9")]));
    assert_eq!(xml(E4XStoreReadOnly::from_binary(&b).unwrap()), SAMPLE_XML);
}

#[test]
fn an_unknown_marker_stops_the_reading() {
    let mut b = header("r", "", "row", &["v"]);
    b.extend(row(&[Some("1")]));
    b.push(7);
    b.extend(row(&[Some("2")]));
    let text = xml(E4XStoreReadOnly::from_binary(&b).unwrap());
    assert!(text.contains("<r><row><v>1</v></row></r>"));
}

#[test]
fn bad_headers_leave_the_envelope_empty() {
    assert_eq!(xml(E4XStoreReadOnly::from_binary(b"NOPE").unwrap()), EMPTY_XML);
    assert_eq!(xml(E4XStoreReadOnly::from_binary(b"RES").unwrap()), EMPTY_XML);
    assert_eq!(xml(E4XStoreReadOnly::from_binary(b"").unwrap()), EMPTY_XML);
    // More columns than any row set has.
    let mut b = b"RESP\x01".to_vec();
    lp(&mut b, b"r");
    lp(&mut b, b"");
    lp(&mut b, b"row");
    b.extend_from_slice(&[0xFF, 0xFF, 0x7F]);
    assert_eq!(xml(E4XStoreReadOnly::from_binary(&b).unwrap()), EMPTY_XML);
}

#[test]
fn a_corrupt_stream_keeps_the_rows_before_it() {
    let mut stream = deflated_stream(&sample());
    stream.truncate(1);
    // A reserved block type.
    stream.push(0b0000_0110);
    assert_eq!(xml(fed(&stream, 1)), EMPTY_XML);
}

#[test]
fn a_root_without_a_prefix_declares_its_default_namespace() {
    let mut b = header("r", "urn:d", "row", &[]);
    b.extend(row(&[]));
    b.push(0);
    let text = xml(E4XStoreReadOnly::from_binary(&b).unwrap());
    assert!(text.contains("<r xmlns=\"urn:d\"><row/></r>"));
}

#[test]
fn bytes_that_are_no_utf8_are_replaced() {
    let mut b = header("r", "", "row", &["v"]);
    b.extend_from_slice(&[1, 1, 2, b'a', 0xFF, 0]);
    let text = xml(E4XStoreReadOnly::from_binary(&b).unwrap());
    assert!(text.contains("<v>a\u{FFFD}</v>"));
}
