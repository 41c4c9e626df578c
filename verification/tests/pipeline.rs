//! End-to-end tests of the table extractor and record coercer.

use manifest_extract::decimal::Dec;
use manifest_extract::err::ParseError;
use manifest_extract::extract::{clean_csv_line, extract_csv_blocks};
use manifest_extract::manifest::{parse_csv_data, parse_document, Manifest};

fn dec(neg: bool, mantissa: u64, scale: usize) -> Dec {
    Dec { neg, mantissa, scale }
}

#[test]
fn single_widget_row() {
    let text = "Item list\n\
        Description,ItemNumber,UPC Number,Category,Category description,Qty,Retail per item (USD$),Liquidation rate %,Liquidation price (USD$)\n\
        1,=\"Widget\",=\"AB12\",=\"000111\",3,Electronics,10,$5.00,50%,$2.50\n\
        Total\n";
    let records = parse_document(text).unwrap();
    assert_eq!(records.len(), 1);
    let expected = Manifest {
        description: String::from("Widget"),
        item_number: String::from("AB12"),
        upc_number: String::from("000111"),
        category: 3,
        category_description: String::from("Electronics"),
        quantity: dec(false, 10, 0),
        retail_per_item: dec(false, 5, 0),
        liquidation_rate: dec(false, 50, 0),
        liquidation_price: dec(false, 25, 1),
    };
    assert_eq!(records[0], expected);
}

#[test]
fn nine_token_row_is_dropped() {
    // Without the leading row-index column the row has only nine tokens,
    // so it is dropped silently rather than emitted or errored.
    let text = "Item list\n\
        Description,ItemNumber,UPC Number,Category,Category description,Qty,Retail per item (USD$),Liquidation rate %,Liquidation price (USD$)\n\
        =\"Widget\",=\"AB12\",=\"000111\",3,Electronics,10,$5.00,50%,$2.50\n\
        Total\n";
    let records = parse_document(text).unwrap();
    assert_eq!(records.len(), 0);
}

#[test]
fn short_row_dropped_long_rows_kept() {
    let text = "Item list\nDescription\n1,a,b,c,4,d,1,2,3,4\n1,a,b\n2,e,f,g,5,h,6,7,8,9\nTotal\n";
    let records = parse_document(text).unwrap();
    assert_eq!(records.len(), 2);
    assert_eq!(records[0].description, "a");
    assert_eq!(records[1].description, "e");
}

#[test]
fn multiple_regions_in_order() {
    let text = "noise before\n\
        Item list\nDescription\n1,first,b,c,1,d,1,1,1,1\nTotal\n\
        between tables\n\
        Item list\nDescription\n1,second,b,c,2,d,2,2,2,2\n2,third,b,c,3,d,3,3,3,3\nTotal\n\
        after\n";
    let records = parse_document(text).unwrap();
    assert_eq!(records.len(), 3);
    assert_eq!(records[0].description, "first");
    assert_eq!(records[1].description, "second");
    assert_eq!(records[2].description, "third");
    assert_eq!(records[0].category, 1);
    assert_eq!(records[1].category, 2);
    assert_eq!(records[2].category, 3);
}

#[test]
fn unterminated_region_closes_at_end_of_input() {
    let text = "Item list\nDescription\n1,open,b,c,7,d,1,1,1,1\n";
    let records = parse_document(text).unwrap();
    assert_eq!(records.len(), 1);
    assert_eq!(records[0].description, "open");
    assert_eq!(records[0].category, 7);
}

#[test]
fn blank_and_rule_lines_skipped() {
    let text = "Item list\n\n\nDescription\n\n----------\n1,kept,b,c,1,d,1,1,1,1\n\nTotal\n";
    let records = parse_document(text).unwrap();
    assert_eq!(records.len(), 1);
    assert_eq!(records[0].description, "kept");
}

#[test]
fn empty_table_emits_nothing() {
    let text = "Item list\nDescription\nTotal\n";
    let records = parse_document(text).unwrap();
    assert_eq!(records.len(), 0);
    assert_eq!(extract_csv_blocks(text).len(), 0);
}

#[test]
fn no_markers_no_records() {
    let text = "just some text\nwith no tables\n";
    let records = parse_document(text).unwrap();
    assert_eq!(records.len(), 0);
}

#[test]
fn missing_header_row_first_line_is_data() {
    let text = "Item list\n1,direct,b,c,2,d,1,1,1,1\nTotal\n";
    let records = parse_document(text).unwrap();
    assert_eq!(records.len(), 1);
    assert_eq!(records[0].description, "direct");
}

#[test]
fn second_start_marker_is_ordinary_content() {
    // A nested start marker is not detected specially: the line is kept
    // as table content, tokenizes to a single token, and is dropped by
    // the ten-token rule, while the rows around it stay in one region.
    let text = "Item list\nDescription\n1,a,b,c,1,d,1,1,1,1\nItem list\n2,e,f,g,2,h,2,2,2,2\nTotal\n";
    let records = parse_document(text).unwrap();
    assert_eq!(records.len(), 2);
    assert_eq!(records[0].description, "a");
    assert_eq!(records[1].description, "e");
    assert_eq!(extract_csv_blocks(text).len(), 1);
}

#[test]
fn quoted_field_with_embedded_comma() {
    let text = "Item list\nDescription\n1,=\"a, b\",x,y,2,z,1,1,1,1\nTotal\n";
    let records = parse_document(text).unwrap();
    assert_eq!(records.len(), 1);
    assert_eq!(records[0].description, "a, b");
}

#[test]
fn unterminated_quote_is_structural_error() {
    let text = "Item list\nDescription\n1,\"broken,b,c,1,d,1,1,1,1\nTotal\n";
    let err = parse_document(text).unwrap_err();
    assert_eq!(err, ParseError::CsvParse);
}

#[test]
fn clean_csv_line_reduces_nonstandard_quoting() {
    assert_eq!(clean_csv_line("=\"Widget\""), "\"Widget\"");
    assert_eq!(clean_csv_line("=\"\"Widget\"\""), "\"Widget\"");
    assert_eq!(clean_csv_line("a,=\"b\",c"), "a,\"b\",c");
    assert_eq!(clean_csv_line("\"\"\""), "\"");
    assert_eq!(clean_csv_line("plain"), "plain");
}

#[test]
fn extract_builds_synthetic_header_block() {
    let text = "Item list\nDescription header row\n1,a,b,c,4,d,1,2,3,4\nTotal\n";
    let blocks = extract_csv_blocks(text);
    assert_eq!(blocks.len(), 1);
    let expected = "row,Description,ItemNumber,UPC Number,Category,Category description,Qty,Retail per item (USD$),Liquidation rate %,Liquidation price (USD$)\n1,a,b,c,4,d,1,2,3,4\n";
    assert_eq!(blocks[0], expected);
}

#[test]
fn parse_csv_data_reads_block_directly() {
    let block = "row,Description,ItemNumber,UPC Number,Category,Category description,Qty,Retail per item (USD$),Liquidation rate %,Liquidation price (USD$)\n7,desc,it,upc,9,cd,1.5,$2.25,10%,$0.75\n";
    let records = parse_csv_data(block).unwrap();
    assert_eq!(records.len(), 1);
    assert_eq!(records[0].item_number, "it");
    assert_eq!(records[0].quantity, dec(false, 15, 1));
    assert_eq!(records[0].retail_per_item, dec(false, 225, 2));
    assert_eq!(records[0].liquidation_rate, dec(false, 10, 0));
    assert_eq!(records[0].liquidation_price, dec(false, 75, 2));
}
