//! Tests of the lenient per-field coercions and the decimal model.

use manifest_extract::coerce::{parse_currency_field, parse_percentage_field};
use manifest_extract::decimal::Dec;
use manifest_extract::manifest::parse_csv_data;

fn dec(neg: bool, mantissa: u64, scale: usize) -> Dec {
    Dec { neg, mantissa, scale }
}

fn zero() -> Dec {
    Dec { neg: false, mantissa: 0, scale: 0 }
}

const HEADER: &str = "row,Description,ItemNumber,UPC Number,Category,Category description,Qty,Retail per item (USD$),Liquidation rate %,Liquidation price (USD$)\n";

fn one_row(row: &str) -> manifest_extract::manifest::Manifest {
    let block = format!("{}{}\n", HEADER, row);
    let records = parse_csv_data(&block).unwrap();
    assert_eq!(records.len(), 1);
    records.into_iter().next().unwrap()
}

#[test]
fn currency_idempotent_on_clean_input() {
    let clean = parse_currency_field("1234.50");
    let decorated = parse_currency_field("$1,234.50");
    assert_eq!(clean, decorated);
    assert_eq!(clean, dec(false, 12345, 1));
}

#[test]
fn percentage_strips_without_scaling() {
    let v = parse_percentage_field("45%");
    assert_eq!(v, dec(false, 45, 0));
    assert_ne!(v, dec(false, 45, 2));
    assert_eq!(parse_percentage_field("0.5%"), dec(false, 5, 1));
}

#[test]
fn unparsable_fields_default_to_zero() {
    let m = one_row("1,d,i,u,notanumber,cd,abc,$x,y%,1.2.3");
    assert_eq!(m.category, 0);
    assert_eq!(m.quantity, zero());
    assert_eq!(m.retail_per_item, zero());
    assert_eq!(m.liquidation_rate, zero());
    assert_eq!(m.liquidation_price, zero());
}

#[test]
fn category_out_of_range_defaults_to_zero() {
    let m = one_row("1,d,i,u,300,cd,1,1,1,1");
    assert_eq!(m.category, 0);
    let m = one_row("1,d,i,u,255,cd,1,1,1,1");
    assert_eq!(m.category, 255);
    let m = one_row("1,d,i,u,-3,cd,1,1,1,1");
    assert_eq!(m.category, 0);
    let m = one_row("1,d,i,u,+7,cd,1,1,1,1");
    assert_eq!(m.category, 7);
}

#[test]
fn decimal_grammar_edges() {
    assert_eq!(parse_currency_field("5."), dec(false, 5, 0));
    assert_eq!(parse_currency_field(".5"), dec(false, 5, 1));
    assert_eq!(parse_currency_field("+7"), dec(false, 7, 0));
    assert_eq!(parse_currency_field("-2.50"), dec(true, 25, 1));
    assert_eq!(parse_currency_field("-0"), zero());
    assert_eq!(parse_currency_field("0.000"), zero());
    assert_eq!(parse_currency_field("."), zero());
    assert_eq!(parse_currency_field(""), zero());
    assert_eq!(parse_currency_field("1e5"), zero());
    assert_eq!(parse_currency_field(" 5"), zero());
}

#[test]
fn decimal_overflow_defaults_to_zero() {
    assert_eq!(parse_currency_field("99999999999999999999999999"), zero());
    // Trailing fractional zeros carry no value and are dropped before the
    // range check.
    assert_eq!(
        parse_currency_field("1.0000000000000000000000000000"),
        dec(false, 1, 0)
    );
}

#[test]
fn currency_strips_separators_anywhere() {
    assert_eq!(parse_currency_field("$1,00,0.25"), dec(false, 100025, 2));
    assert_eq!(parse_percentage_field("%%12%"), dec(false, 12, 0));
}
