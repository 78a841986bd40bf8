use rustbookkeeping::{CsvReader, CsvWriter};

fn read_all(text: &str) -> Vec<Vec<String>> {
    let mut reader = CsvReader::new(text);
    let mut out = Vec::new();
    while let Some(record) = reader.next() {
        out.push(record);
    }
    out
}

fn rec(fields: &[&str]) -> Vec<String> {
    fields.iter().map(|s| s.to_string()).collect()
}

#[test]
fn csv_round_trip_quotes_and_commas() {
    let rows = vec![rec(&["a,b", "c"]), rec(&["d\"e", "f"])];
    let mut w = CsvWriter::new();
    for r in &rows {
        w.write_record(r);
    }
    let text = w.text();
    assert_eq!(text, "\"a,b\",c\n\"d\"\"e\",f\n");
    assert_eq!(read_all(&text), rows);
}

#[test]
fn csv_reader_edge_cases() {
    assert!(read_all("").is_empty());
    assert_eq!(read_all("x"), vec![rec(&["x"])]);
    assert_eq!(read_all("\n"), vec![rec(&[""])]);
    assert_eq!(read_all("a,,b\r\n,\n"), vec![rec(&["a", "", "b"]), rec(&["", ""])]);
    assert_eq!(read_all("\"multi\nline\",z"), vec![rec(&["multi\nline", "z"])]);
    assert_eq!(read_all("é,ü\n"), vec![rec(&["é", "ü"])]);
}

#[test]
fn csv_writer_plain_and_newline_fields() {
    let mut w = CsvWriter::new();
    w.write_record(&rec(&["plain", "with\nnewline", ""]));
    w.write_record(&rec(&[]));
    assert_eq!(w.text(), "plain,\"with\nnewline\",\n\n");
}
