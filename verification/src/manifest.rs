//! The record coercer: one normalized CSV block is tokenized row by row,
//! every row of at least ten tokens becomes one fully populated record,
//! and shorter rows are dropped silently.

use vstd::prelude::*;
use crate::chars::{chars_of, split_lines, spec_lines, string_from_chars};
use crate::coerce::{
    coerce_category, coerce_currency, coerce_percentage, spec_category, spec_currency,
    spec_percentage,
};
use crate::decimal::{parse_decimal, spec_parse_decimal, Dec};
use crate::err::ParseError;
use crate::extract::{extract_csv_blocks, spec_block_strings};
use crate::tokenizer::{spec_tokenize, tokenize_line};

verus! {

/// One inventory line item, fully populated: numeric coercion never
/// fails, it degrades to zero.
#[derive(Debug, PartialEq)]
pub struct Manifest {
    pub description: String,
    pub item_number: String,
    pub upc_number: String,
    pub category: u8,
    pub category_description: String,
    pub quantity: Dec,
    pub retail_per_item: Dec,
    pub liquidation_rate: Dec,
    pub liquidation_price: Dec,
}

/// The mathematical image of a record: text fields as character
/// sequences, numeric fields as decimal values.
pub struct ManifestView {
    pub description: Seq<char>,
    pub item_number: Seq<char>,
    pub upc_number: Seq<char>,
    pub category: u8,
    pub category_description: Seq<char>,
    pub quantity: Dec,
    pub retail_per_item: Dec,
    pub liquidation_rate: Dec,
    pub liquidation_price: Dec,
}

impl View for Manifest {
    type V = ManifestView;

    open spec fn view(&self) -> ManifestView {
        ManifestView {
            description: self.description@,
            item_number: self.item_number@,
            upc_number: self.upc_number@,
            category: self.category,
            category_description: self.category_description@,
            quantity: self.quantity,
            retail_per_item: self.retail_per_item,
            liquidation_rate: self.liquidation_rate,
            liquidation_price: self.liquidation_price,
        }
    }
}

impl DeepView for Manifest {
    type V = ManifestView;

    open spec fn deep_view(&self) -> ManifestView {
        self.view()
    }
}

impl Clone for Manifest {
    /// A clone is indistinguishable from the original record.
    fn clone(&self) -> (r: Self)
        ensures
            r@ == self@,
    {
        Manifest {
            description: self.description.clone(),
            item_number: self.item_number.clone(),
            upc_number: self.upc_number.clone(),
            category: self.category,
            category_description: self.category_description.clone(),
            quantity: self.quantity,
            retail_per_item: self.retail_per_item,
            liquidation_rate: self.liquidation_rate,
            liquidation_price: self.liquidation_price,
        }
    }
}

/// The record read from one tokenized row: the leading row index is
/// discarded and the nine remaining columns are coerced positionally.
pub open spec fn spec_record_of(toks: Seq<Seq<char>>) -> ManifestView
    recommends
        toks.len() >= 10,
{
    ManifestView {
        description: toks[1],
        item_number: toks[2],
        upc_number: toks[3],
        category: spec_category(toks[4]),
        category_description: toks[5],
        quantity: spec_parse_decimal(toks[6]),
        retail_per_item: spec_currency(toks[7]),
        liquidation_rate: spec_percentage(toks[8]),
        liquidation_price: spec_currency(toks[9]),
    }
}

/// The records of a sequence of data rows: a row that does not tokenize
/// fails the whole block; a tokenized row of fewer than ten tokens is
/// dropped silently; every other row yields one record, in row order.
pub open spec fn rows_records(ls: Seq<Seq<char>>) -> Option<Seq<ManifestView>>
    decreases ls.len(),
{
    if ls.len() == 0 {
        Some(Seq::empty())
    } else {
        match (rows_records(ls.drop_last()), spec_tokenize(ls.last())) {
            (Some(acc), Some(toks)) => {
                if toks.len() >= 10 {
                    Some(acc.push(spec_record_of(toks)))
                } else {
                    Some(acc)
                }
            },
            _ => None,
        }
    }
}

/// The records of one normalized CSV block: the first line is the header
/// and yields no record, though it too must tokenize; the rest are data
/// rows.
pub open spec fn spec_parse_block(s: Seq<char>) -> Option<Seq<ManifestView>> {
    let ls = spec_lines(s);
    if ls.len() == 0 {
        Some(Seq::empty())
    } else if spec_tokenize(ls[0]) is None {
        None
    } else {
        rows_records(ls.drop_first())
    }
}

proof fn lemma_rows_records_fail(ls: Seq<Seq<char>>, j: int)
    requires
        0 <= j < ls.len(),
        spec_tokenize(ls[j]) is None,
    ensures
        rows_records(ls) is None,
    decreases ls.len(),
{
    if j < ls.len() - 1 {
        lemma_rows_records_fail(ls.drop_last(), j);
    }
}

/// Parses one normalized CSV block into its records.
pub fn parse_csv_data(csv_data: &str) -> (r: Result<Vec<Manifest>, ParseError>)
    ensures
        match r {
            Ok(ms) => spec_parse_block(csv_data@) == Some(ms.deep_view()),
            Err(e) => spec_parse_block(csv_data@) is None && e == ParseError::CsvParse,
        },
{
    let cs = chars_of(csv_data);
    let ls = split_lines(&cs);
    let ghost ldv = ls.deep_view();
    let mut records: Vec<Manifest> = Vec::new();
    proof {
        assert(ldv.len() == ls@.len());
    }
    if ls.len() == 0 {
        proof {
            assert(records.deep_view() =~= Seq::<ManifestView>::empty());
        }
        return Ok(records);
    }
    proof {
        assert(ldv[0] == ls@[0]@);
    }
    match tokenize_line(&ls[0]) {
        None => {
            return Err(ParseError::CsvParse);
        },
        Some(_) => {},
    }
    let ghost data = ldv.drop_first();
    proof {
        assert(data.subrange(0, 0) =~= Seq::<Seq<char>>::empty());
        assert(records.deep_view() =~= Seq::<ManifestView>::empty());
    }
    let mut j: usize = 1;
    while j < ls.len()
        invariant
            1 <= j <= ls@.len(),
            ldv == ls.deep_view(),
            ldv.len() == ls@.len(),
            ldv == spec_lines(csv_data@),
            spec_tokenize(ldv[0]) is Some,
            data == ldv.drop_first(),
            rows_records(data.subrange(0, j - 1)) == Some(records.deep_view()),
        decreases ls@.len() - j,
    {
        proof {
            assert(data.subrange(0, j as int).drop_last() =~= data.subrange(0, j - 1));
            assert(data.subrange(0, j as int).last() == data[j - 1]);
            assert(data[j - 1] == ldv[j as int]);
            assert(ldv[j as int] == ls@[j as int]@);
        }
        match tokenize_line(&ls[j]) {
            None => {
                proof {
                    lemma_rows_records_fail(data, j - 1);
                }
                return Err(ParseError::CsvParse);
            },
            Some(toks) => {
                if toks.len() >= 10 {
                    let m = Manifest {
                        description: string_from_chars(&toks[1]),
                        item_number: string_from_chars(&toks[2]),
                        upc_number: string_from_chars(&toks[3]),
                        category: coerce_category(&toks[4]),
                        category_description: string_from_chars(&toks[5]),
                        quantity: parse_decimal(&toks[6]),
                        retail_per_item: coerce_currency(&toks[7]),
                        liquidation_rate: coerce_percentage(&toks[8]),
                        liquidation_price: coerce_currency(&toks[9]),
                    };
                    let ghost pre = records.deep_view();
                    let ghost mv = m.deep_view();
                    proof {
                        let tdv = toks.deep_view();
                        assert(tdv.len() == toks@.len());
                        assert(tdv[1] == toks@[1]@ && tdv[2] == toks@[2]@ && tdv[3] == toks@[3]@);
                        assert(tdv[4] == toks@[4]@ && tdv[5] == toks@[5]@ && tdv[6] == toks@[6]@);
                        assert(tdv[7] == toks@[7]@ && tdv[8] == toks@[8]@ && tdv[9] == toks@[9]@);
                        assert(mv == spec_record_of(tdv));
                    }
                    records.push(m);
                    proof {
                        assert(records.deep_view() =~~= pre.push(mv));
                    }
                }
            },
        }
        j += 1;
    }
    proof {
        assert(data.subrange(0, ls@.len() - 1) =~= data);
    }
    Ok(records)
}

/// The records of a whole sequence of normalized CSV blocks,
/// concatenated in block order.
pub open spec fn blocks_records(bs: Seq<Seq<char>>) -> Option<Seq<ManifestView>>
    decreases bs.len(),
{
    if bs.len() == 0 {
        Some(Seq::empty())
    } else {
        match (blocks_records(bs.drop_last()), spec_parse_block(bs.last())) {
            (Some(acc), Some(ms)) => Some(acc + ms),
            _ => None,
        }
    }
}

/// The records of one whole document text, or nothing when any row of
/// any of its table regions cannot be tokenized.
pub open spec fn spec_document_records(text: Seq<char>) -> Option<Seq<ManifestView>> {
    blocks_records(spec_block_strings(text))
}

proof fn lemma_blocks_records_fail(bs: Seq<Seq<char>>, j: int)
    requires
        0 <= j < bs.len(),
        spec_parse_block(bs[j]) is None,
    ensures
        blocks_records(bs) is None,
    decreases bs.len(),
{
    if j < bs.len() - 1 {
        lemma_blocks_records_fail(bs.drop_last(), j);
    }
}

/// Extracts every table region of one document and coerces all their
/// rows into records, in document order.
pub fn parse_document(text: &str) -> (r: Result<Vec<Manifest>, ParseError>)
    ensures
        match r {
            Ok(ms) => spec_document_records(text@) == Some(ms.deep_view()),
            Err(e) => spec_document_records(text@) is None && e == ParseError::CsvParse,
        },
{
    let blocks = extract_csv_blocks(text);
    let ghost bdv = blocks.deep_view();
    let mut records: Vec<Manifest> = Vec::new();
    proof {
        assert(bdv.subrange(0, 0) =~= Seq::<Seq<char>>::empty());
        assert(records.deep_view() =~= Seq::<ManifestView>::empty());
    }
    let mut j: usize = 0;
    while j < blocks.len()
        invariant
            j <= blocks@.len(),
            bdv == blocks.deep_view(),
            bdv.len() == blocks@.len(),
            bdv == spec_block_strings(text@),
            blocks_records(bdv.subrange(0, j as int)) == Some(records.deep_view()),
        decreases blocks@.len() - j,
    {
        proof {
            assert(bdv.subrange(0, j as int + 1).drop_last() =~= bdv.subrange(0, j as int));
            assert(bdv.subrange(0, j as int + 1).last() == bdv[j as int]);
            assert(bdv[j as int] == blocks@[j as int]@);
        }
        match parse_csv_data(blocks[j].as_str()) {
            Err(_) => {
                proof {
                    lemma_blocks_records_fail(bdv, j as int);
                }
                return Err(ParseError::CsvParse);
            },
            Ok(ms) => {
                let ghost pre = records.deep_view();
                let ghost msv = ms.deep_view();
                let mut k: usize = 0;
                while k < ms.len()
                    invariant
                        k <= ms@.len(),
                        msv == ms.deep_view(),
                        msv.len() == ms@.len(),
                        records.deep_view() == pre + msv.subrange(0, k as int),
                    decreases ms@.len() - k,
                {
                    let ghost rpre = records.deep_view();
                    records.push(ms[k].clone());
                    proof {
                        assert(records.deep_view() =~~= rpre.push(msv[k as int]));
                        assert(rpre.push(msv[k as int]) =~= pre + msv.subrange(0, k as int + 1));
                    }
                    k += 1;
                }
                proof {
                    assert(msv.subrange(0, msv.len() as int) =~= msv);
                }
            },
        }
        j += 1;
    }
    proof {
        assert(bdv.subrange(0, bdv.len() as int) =~= bdv);
    }
    Ok(records)
}

} // verus!
