//! Tests of the request-level operations: validation, multi-document
//! concatenation, category filtering, and strict CSV rendering.

use manifest_extract::err::ParseError;
use manifest_extract::ops::{
    build_filtered_csv, extract_all, filter_by_categories, render_csv, validate_paths,
};

fn doc(desc: &str, category: u8) -> String {
    format!(
        "Item list\nDescription\n1,{},item,upc,{},cd,1,$2.00,3%,$4.00\nTotal\n",
        desc, category
    )
}

#[test]
fn empty_path_list_is_invalid_input() {
    let paths: Vec<String> = vec![];
    assert_eq!(validate_paths(&paths), Err(ParseError::InvalidInput));
}

#[test]
fn nonempty_path_list_is_accepted() {
    let paths = vec![String::from("a.txt")];
    assert_eq!(validate_paths(&paths), Ok(()));
}

#[test]
fn extract_all_concatenates_in_request_order() {
    let texts = vec![doc("one", 1), doc("two", 2)];
    let records = extract_all(&texts).unwrap();
    assert_eq!(records.len(), 2);
    assert_eq!(records[0].description, "one");
    assert_eq!(records[1].description, "two");
}

#[test]
fn extract_all_reports_failing_document() {
    let texts = vec![
        doc("good", 1),
        String::from("Item list\nDescription\n1,\"bad,x,y,1,z,1,1,1,1\nTotal\n"),
    ];
    let err = extract_all(&texts).unwrap_err();
    assert_eq!(err.index, 1);
    assert_eq!(err.error, ParseError::CsvParse);
}

#[test]
fn filter_keeps_requested_categories_in_order() {
    let texts = vec![doc("a", 1), doc("b", 2), doc("c", 3), doc("d", 1)];
    let records = extract_all(&texts).unwrap();
    let cats = vec![1u8, 3u8];
    let kept = filter_by_categories(&records, &cats);
    assert_eq!(kept.len(), 3);
    assert_eq!(kept[0].description, "a");
    assert_eq!(kept[1].description, "c");
    assert_eq!(kept[2].description, "d");
}

#[test]
fn render_csv_writes_header_and_rows() {
    let texts = vec![doc("thing", 5)];
    let records = extract_all(&texts).unwrap();
    let out = render_csv(&records);
    let expected = "description,item_number,upc_number,category,category_description,quantity,retail_per_item,liquidation_rate,liquidation_price\nthing,item,upc,5,cd,1,2,3,4\n";
    assert_eq!(out, expected);
}

#[test]
fn render_csv_quotes_special_fields() {
    // `="a, b"` cleans to a quoted field with an embedded comma, and
    // `x""y` collapses to a field holding one literal quote; both must
    // come back out quoted (and the quote doubled) in strict CSV.
    let text = "Item list\nDescription\n1,=\"a, b\",x\"\"y,u,1,cd,1,1,1,1\nTotal\n";
    let texts = vec![String::from(text)];
    let records = extract_all(&texts).unwrap();
    assert_eq!(records.len(), 1);
    assert_eq!(records[0].description, "a, b");
    assert_eq!(records[0].item_number, "x\"y");
    let out = render_csv(&records);
    let expected = "description,item_number,upc_number,category,category_description,quantity,retail_per_item,liquidation_rate,liquidation_price\n\"a, b\",\"x\"\"y\",u,1,cd,1,1,1,1\n";
    assert_eq!(out, expected);
}

#[test]
fn build_filtered_export_writes_exactly_matching_records() {
    let texts = vec![doc("a", 1), doc("b", 2), doc("c", 3)];
    let records = extract_all(&texts).unwrap();
    let cats = vec![1u8, 3u8];
    let out = build_filtered_csv(&records, &cats);
    let expected = "description,item_number,upc_number,category,category_description,quantity,retail_per_item,liquidation_rate,liquidation_price\na,item,upc,1,cd,1,2,3,4\nc,item,upc,3,cd,1,2,3,4\n";
    assert_eq!(out, expected);
}

#[test]
fn decimal_rendering_is_plain() {
    let text =
        "Item list\nDescription\n1,d,i,u,1,cd,10,$1,234.50,0.5%,$-0.05\nTotal\n";
    let records = extract_all(&vec![String::from(text)]).unwrap();
    assert_eq!(records.len(), 1);
    let out = render_csv(&records);
    // The currency column itself holds an embedded comma, so the raw
    // "$1,234.50" splits at that comma: the field read is "$1" and the
    // following tokens shift by one.
    assert!(out.contains("10,1,234.5,"));
}
