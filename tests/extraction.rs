use xml2db::parser::{parse_document, parse_events, Field, ParseError, RecordParser};
use xml2db::xml::TagEvent;

fn start(n: &str) -> TagEvent {
    TagEvent::Start(n.as_bytes().to_vec())
}

fn end(n: &str) -> TagEvent {
    TagEvent::End(n.as_bytes().to_vec())
}

fn text(t: &str) -> TagEvent {
    TagEvent::Text(t.as_bytes().to_vec())
}

fn row(id: &str, number: &str) -> Vec<TagEvent> {
    vec![
        start("row"),
        start("id"),
        text(id),
        end("id"),
        start("number"),
        text(number),
        end("number"),
        end("row"),
    ]
}

#[test]
fn events_give_one_record_per_row_in_order() {
    let mut evs = vec![start("rows")];
    evs.extend(row("1", "A1"));
    evs.extend(row("2", "B2"));
    evs.extend(row("3", "C3"));
    evs.push(end("rows"));
    let rs = parse_events(&evs, 42).unwrap();
    assert_eq!(rs.len(), 3);
    assert_eq!((rs[0].id, rs[0].number.as_str()), (1, "A1"));
    assert_eq!((rs[1].id, rs[1].number.as_str()), (2, "B2"));
    assert_eq!((rs[2].id, rs[2].number.as_str()), (3, "C3"));
    assert!(rs.iter().all(|r| r.observed_at == 42));
}

#[test]
fn row_without_fields_repeats_previous_values() {
    let mut evs = row("7", "X7");
    evs.push(start("row"));
    evs.push(start("other"));
    evs.push(end("other"));
    evs.push(end("row"));
    let rs = parse_events(&evs, 0).unwrap();
    assert_eq!(rs.len(), 2);
    assert_eq!((rs[1].id, rs[1].number.as_str()), (7, "X7"));
}

#[test]
fn first_row_without_fields_has_zero_and_empty() {
    let evs = vec![start("row"), end("row")];
    let rs = parse_events(&evs, 0).unwrap();
    assert_eq!(rs.len(), 1);
    assert_eq!((rs[0].id, rs[0].number.as_str()), (0, ""));
}

#[test]
fn missing_number_keeps_previous_number() {
    let mut evs = row("1", "N1");
    evs.extend(vec![start("row"), start("id"), text("2"), end("id"), end("row")]);
    let rs = parse_events(&evs, 0).unwrap();
    assert_eq!((rs[1].id, rs[1].number.as_str()), (2, "N1"));
}

#[test]
fn non_numeric_id_aborts_events() {
    let evs = row("abc", "X1");
    assert_eq!(parse_events(&evs, 0).unwrap_err(), ParseError::BadId("abc".to_string()));
}

#[test]
fn non_numeric_id_aborts_document() {
    let doc = b"<row><id>abc</id><number>X1</number></row>";
    assert_eq!(parse_document(doc).unwrap_err(), ParseError::BadId("abc".to_string()));
}

#[test]
fn bad_id_after_good_rows_yields_no_records() {
    let doc = b"<rows><row><id>1</id><number>A</number></row><row><id>x</id></row></rows>";
    assert!(parse_document(doc).is_err());
}

#[test]
fn document_rows_in_order() {
    let doc = b"<?xml version=\"1.0\"?>\n<rows>\n  <row>\n    <id>10</id>\n    <number>N-10</number>\n  </row>\n  <row><id>20</id><number>N-20</number></row>\n</rows>\n";
    let rs = parse_document(doc).unwrap();
    assert_eq!(rs.len(), 2);
    assert_eq!((rs[0].id, rs[0].number.as_str()), (10, "N-10"));
    assert_eq!((rs[1].id, rs[1].number.as_str()), (20, "N-20"));
    assert!(rs[0].observed_at > 0);
}

#[test]
fn document_text_is_unescaped_and_trimmed() {
    let doc = b"<row><id> +5 </id><number>A&amp;B&lt;C</number></row>";
    let rs = parse_document(doc).unwrap();
    assert_eq!(rs.len(), 1);
    assert_eq!(rs[0].id, 5);
    assert_eq!(rs[0].number, "A&B<C");
}

#[test]
fn document_broken_entity_is_bad_text() {
    let doc = b"<row><id>1</id><number>A&bogus;</number></row>";
    assert_eq!(parse_document(doc).unwrap_err(), ParseError::BadText(b"A&bogus;".to_vec()));
}

#[test]
fn document_mismatched_tags_are_malformed() {
    let doc = b"<rows><row><id>1</id></wrong></rows>";
    assert_eq!(parse_document(doc).unwrap_err(), ParseError::Malformed);
}

#[test]
fn document_without_rows_is_empty() {
    assert_eq!(parse_document(b"").unwrap().len(), 0);
    assert_eq!(parse_document(b"<rows></rows>").unwrap().len(), 0);
}

#[test]
fn id_out_of_range_or_negative_is_bad_id() {
    let doc = b"<row><id>4294967296</id></row>";
    assert_eq!(parse_document(doc).unwrap_err(), ParseError::BadId("4294967296".to_string()));
    let doc = b"<row><id>-1</id></row>";
    assert_eq!(parse_document(doc).unwrap_err(), ParseError::BadId("-1".to_string()));
    let doc = b"<row><id>4294967295</id></row>";
    assert_eq!(parse_document(doc).unwrap()[0].id, 4294967295);
}

#[test]
fn empty_id_element_swallows_its_end() {
    let doc = b"<row><id></id><number>Z</number></row>";
    let rs = parse_document(doc).unwrap();
    assert_eq!((rs[0].id, rs[0].number.as_str()), (0, "Z"));
}

#[test]
fn feed_steps_one_token_at_a_time() {
    let mut p = RecordParser::new();
    assert!(p.feed(&start("id"), 1).unwrap().is_none());
    assert_eq!(p.awaiting, Field::Id);
    assert!(p.feed(&text("9"), 1).unwrap().is_none());
    assert_eq!(p.id, 9);
    assert_eq!(p.awaiting, Field::Nothing);
    let r = p.feed(&end("row"), 77).unwrap().unwrap();
    assert_eq!((r.id, r.number.as_str(), r.observed_at), (9, "", 77));
    assert!(p.feed(&end("rows"), 1).unwrap().is_none());
}

#[test]
fn empty_row_elements_are_rows() {
    let doc = b"<rows><row><id>3</id><number>C</number></row><row/><row/></rows>";
    let rs = parse_document(doc).unwrap();
    assert_eq!(rs.len(), 3);
    assert_eq!((rs[1].id, rs[1].number.as_str()), (3, "C"));
    assert_eq!((rs[2].id, rs[2].number.as_str()), (3, "C"));
}

#[test]
fn empty_row_event_closes_a_row() {
    let evs = vec![TagEvent::Empty(b"row".to_vec()), TagEvent::Empty(b"id".to_vec()), TagEvent::Empty(b"row".to_vec())];
    let rs = parse_events(&evs, 1).unwrap();
    assert_eq!(rs.len(), 2);
    assert_eq!((rs[1].id, rs[1].number.as_str()), (0, ""));
}

#[test]
fn document_with_unclosed_markup_is_malformed() {
    assert_eq!(parse_document(b"<rows><row><id>1</id").unwrap_err(), ParseError::Malformed);
}

#[test]
fn closes_row_on_only_for_row_ends_outside_fields() {
    let mut p = RecordParser::new();
    assert!(p.closes_row_on(&end("row")));
    assert!(p.closes_row_on(&TagEvent::Empty(b"row".to_vec())));
    assert!(!p.closes_row_on(&end("rows")));
    assert!(!p.closes_row_on(&start("row")));
    p.feed(&start("id"), 0).unwrap();
    assert!(!p.closes_row_on(&end("row")));
}
