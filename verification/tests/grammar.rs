//! Functional tests of the tabular-format grammar: field, record and
//! document parsing.

use parsecsv::base::Error;
use parsecsv::base::ErrorCode;
use parsecsv::base::Parser;
use parsecsv::base::Reason;
use parsecsv::chars::char;
use parsecsv::csv;

#[test]
fn csv_field_parser_empty() {
    let comma = char(',');
    let (next_input, field) = csv::field(",,").unwrap();
    assert_eq!(next_input, ",,");
    assert_eq!(field, "");
    let (next_input, _) = comma.parse(next_input).unwrap();
    assert_eq!(next_input, ",");
    let (next_input, field) = csv::field(next_input).unwrap();
    assert_eq!(next_input, ",");
    assert_eq!(field, "");
    let (next_input, _) = comma.parse(next_input).unwrap();
    assert_eq!(next_input, "");
    let (next_input, field) = csv::field(next_input).unwrap();
    assert_eq!(next_input, "");
    assert_eq!(field, "");
}

#[test]
fn csv_field_parser_non_escaped() {
    let (next_input, field) = csv::field("field1").unwrap();
    assert_eq!(next_input, "");
    assert_eq!(field, "field1");

    let (next_input, field) = csv::field("  \tfield1,field2").unwrap();
    assert_eq!(next_input, ",field2");
    assert_eq!(field, "  \tfield1");

    let (next_input, field) = csv::field(",field2").unwrap();
    assert_eq!(next_input, ",field2");
    assert_eq!(field, "");

    let (next_input, field) = csv::field("").unwrap();
    assert_eq!(next_input, "");
    assert_eq!(field, "");

    let (next_input, field) = csv::field("test\"quote").unwrap();
    assert_eq!(next_input, "\"quote");
    assert_eq!(field, "test");
}

#[test]
fn csv_field_parser_escaped() {
    let (next_input, field) = csv::field("\"field1\"").unwrap();
    assert_eq!(next_input, "");
    assert_eq!(field, "field1");

    let (next_input, field) = csv::field("\"with,comma\",next").unwrap();
    assert_eq!(next_input, ",next");
    assert_eq!(field, "with,comma");

    let (next_input, field) = csv::field("\"with\rspecial\ncharacters\r\n\"").unwrap();
    assert_eq!(next_input, "");
    assert_eq!(field, "with\rspecial\ncharacters\r\n");

    let (next_input, field) = csv::field("\"with \"\"double quotes\"\"\"").unwrap();
    assert_eq!(next_input, "");
    assert_eq!(field, "with \"double quotes\"");

    let (next_input, field) = csv::field(
        "\"a\tvery\"\"complex\"\" example, including\nmultiple special characters\r\n\",and another field",
    )
    .unwrap();
    assert_eq!(next_input, ",and another field");
    assert_eq!(
        field,
        "a\tvery\"complex\" example, including\nmultiple special characters\r\n"
    );
}

#[test]
fn csv_record_parser() {
    let (next_input, fields) = csv::record("field1,field2,field3").unwrap();
    assert_eq!(next_input, "");
    assert_eq!(fields.len(), 3);
    assert_eq!(fields[0], "field1");
    assert_eq!(fields[1], "field2");
    assert_eq!(fields[2], "field3");

    let (next_input, fields) = csv::record("the only field").unwrap();
    assert_eq!(next_input, "");
    assert_eq!(fields.len(), 1);
    assert_eq!(fields[0], "the only field");

    assert_eq!(csv::record(""), Err(Error::new("", ErrorCode::NoInput)),);

    let (next_input, fields) = csv::record(
        "107,\"\"\"Pogledaj dom svoj, anđele\"\"\",,Tomas Vulf,Roman,sr,en,,Ne,,1\r\n",
    )
    .unwrap();
    assert_eq!(next_input, "\r\n");
    assert_eq!(fields.len(), 11);
    assert_eq!(fields[0], "107");
    assert_eq!(fields[1], "\"Pogledaj dom svoj, anđele\"");
    assert_eq!(fields[2], "");
    assert_eq!(fields[3], "Tomas Vulf");
    assert_eq!(fields[4], "Roman");
    assert_eq!(fields[5], "sr");
    assert_eq!(fields[6], "en");
    assert_eq!(fields[7], "");
    assert_eq!(fields[8], "Ne");
    assert_eq!(fields[9], "");
    assert_eq!(fields[10], "1");
}

#[test]
fn csv_document_parser() {
    let input = "\"\"\"The Fellowship of the Ring\"\"\",J. R. R. Tolkien,en,HarperCollins Illustrated Hardback\r\n\"\"\"The Two Towers\"\"\",J. R. R. Tolkien,en,HarperCollins Illustrated Hardback\r\n\"\"\"The Return of the King\"\"\",J. R. R. Tolkien,en,HarperCollins Illustrated Hardback\r\n";

    let (next_input, records) = csv::parse_string(input).unwrap();
    assert_eq!(next_input, "");
    assert_eq!(records.len(), 3);

    assert_eq!(records[0][0], "\"The Fellowship of the Ring\"");
    assert_eq!(records[0][1], "J. R. R. Tolkien");
    assert_eq!(records[0][2], "en");
    assert_eq!(records[0][3], "HarperCollins Illustrated Hardback");

    assert_eq!(records[1][0], "\"The Two Towers\"");
    assert_eq!(records[1][1], "J. R. R. Tolkien");
    assert_eq!(records[1][2], "en");
    assert_eq!(records[1][3], "HarperCollins Illustrated Hardback");

    assert_eq!(records[2][0], "\"The Return of the King\"");
    assert_eq!(records[2][1], "J. R. R. Tolkien");
    assert_eq!(records[2][2], "en");
    assert_eq!(records[2][3], "HarperCollins Illustrated Hardback");

    let input = "\"\"\"Hyperion\"\"\",Dan Simmons\n\"\"\"The Fall of Hyperion\"\"\"";

    assert_eq!(
        csv::parse_string(input),
        Err(Error::failure(
            "\n\"\"\"The Fall of Hyperion\"\"\"",
            Reason::InvalidInput {
                expected: "more fields in this record"
            },
        )),
    );
}
