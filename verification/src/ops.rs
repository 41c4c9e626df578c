//! The two request-level operations, without their I/O: validating the
//! request, concatenating the records of many documents in request order,
//! filtering by a category set, and rendering records as one strict CSV
//! document with a header row.

use vstd::prelude::*;
use crate::chars::{chars_of, string_from_chars};
use crate::decimal::{digits_of, push_digits, render_decimal, spec_render_decimal};
use crate::err::{DocError, ParseError};
use crate::manifest::{parse_document, spec_document_records, Manifest, ManifestView};

verus! {

/// Fails with the invalid-input error exactly when the request names no
/// documents; no other validation is performed.
pub fn validate_paths(paths: &Vec<String>) -> (r: Result<(), ParseError>)
    ensures
        match r {
            Ok(_) => paths@.len() > 0,
            Err(e) => paths@.len() == 0 && e == ParseError::InvalidInput,
        },
{
    if paths.len() == 0 {
        Err(ParseError::InvalidInput)
    } else {
        Ok(())
    }
}

/// The records of many documents, concatenated in request order; any
/// document that fails, fails the whole request.
pub open spec fn docs_records(ts: Seq<Seq<char>>) -> Option<Seq<ManifestView>>
    decreases ts.len(),
{
    if ts.len() == 0 {
        Some(Seq::empty())
    } else {
        match (docs_records(ts.drop_last()), spec_document_records(ts.last())) {
            (Some(acc), Some(ms)) => Some(acc + ms),
            _ => None,
        }
    }
}

proof fn lemma_docs_records_fail(ts: Seq<Seq<char>>, j: int)
    requires
        0 <= j < ts.len(),
        spec_document_records(ts[j]) is None,
    ensures
        docs_records(ts) is None,
    decreases ts.len(),
{
    if j < ts.len() - 1 {
        lemma_docs_records_fail(ts.drop_last(), j);
    }
}

/// Extracts the records of every document text, concatenated in request
/// order; on failure the index of the offending document is reported.
pub fn extract_all(texts: &Vec<String>) -> (r: Result<Vec<Manifest>, DocError>)
    ensures
        match r {
            Ok(ms) => docs_records(texts.deep_view()) == Some(ms.deep_view()),
            Err(de) => {
                &&& docs_records(texts.deep_view()) is None
                &&& de.index < texts@.len()
                &&& spec_document_records(texts.deep_view()[de.index as int]) is None
                &&& forall|k: int|
                    0 <= k < de.index ==> (#[trigger] spec_document_records(
                        texts.deep_view()[k],
                    )) is Some
                &&& de.error == ParseError::CsvParse
            },
        },
{
    let ghost tdv = texts.deep_view();
    let mut records: Vec<Manifest> = Vec::new();
    proof {
        assert(tdv.len() == texts@.len());
        assert(tdv.subrange(0, 0) =~= Seq::<Seq<char>>::empty());
        assert(records.deep_view() =~= Seq::<ManifestView>::empty());
    }
    let mut j: usize = 0;
    while j < texts.len()
        invariant
            j <= texts@.len(),
            tdv == texts.deep_view(),
            tdv.len() == texts@.len(),
            docs_records(tdv.subrange(0, j as int)) == Some(records.deep_view()),
            forall|k: int| 0 <= k < j ==> (#[trigger] spec_document_records(tdv[k])) is Some,
        decreases texts@.len() - j,
    {
        proof {
            assert(tdv.subrange(0, j as int + 1).drop_last() =~= tdv.subrange(0, j as int));
            assert(tdv.subrange(0, j as int + 1).last() == tdv[j as int]);
            assert(tdv[j as int] == texts@[j as int]@);
        }
        match parse_document(texts[j].as_str()) {
            Err(_) => {
                proof {
                    lemma_docs_records_fail(tdv, j as int);
                }
                return Err(DocError { index: j, error: ParseError::CsvParse });
            },
            Ok(ms) => {
                let ghost pre = records.deep_view();
                let ghost msv = ms.deep_view();
                proof {
                    assert(msv.len() == ms@.len());
                    assert(msv.subrange(0, 0) =~= Seq::<ManifestView>::empty());
                    assert(records.deep_view() =~= pre + msv.subrange(0, 0));
                }
                let mut k: usize = 0;
                while k < ms.len()
                    invariant
                        k <= ms@.len(),
                        msv == ms.deep_view(),
                        msv.len() == ms@.len(),
                        records.deep_view() == pre + msv.subrange(0, k as int),
                    decreases ms@.len() - k,
                {
                    let ghost rpre = records.deep_view();
                    let m = ms[k].clone();
                    proof {
                        assert(m@ == ms@[k as int]@);
                        assert(msv[k as int] == ms@[k as int]@);
                    }
                    records.push(m);
                    proof {
                        assert(records.deep_view() =~~= rpre.push(msv[k as int]));
                        assert(rpre.push(msv[k as int]) =~= pre + msv.subrange(0, k as int + 1));
                    }
                    k += 1;
                }
                proof {
                    assert(msv.subrange(0, msv.len() as int) =~= msv);
                }
            },
        }
        j += 1;
    }
    proof {
        assert(tdv.subrange(0, tdv.len() as int) =~= tdv);
    }
    Ok(records)
}

/// The records whose category stands in the requested set, in their
/// original order.
pub open spec fn spec_filter_records(rs: Seq<ManifestView>, cats: Seq<u8>) -> Seq<ManifestView>
    decreases rs.len(),
{
    if rs.len() == 0 {
        Seq::empty()
    } else if cats.contains(rs.last().category) {
        spec_filter_records(rs.drop_last(), cats).push(rs.last())
    } else {
        spec_filter_records(rs.drop_last(), cats)
    }
}

fn contains_category(cats: &Vec<u8>, c: u8) -> (r: bool)
    ensures
        r == cats@.contains(c),
{
    let mut i: usize = 0;
    while i < cats.len()
        invariant
            i <= cats@.len(),
            forall|t: int| 0 <= t < i ==> cats@[t] != c,
        decreases cats@.len() - i,
    {
        if cats[i] == c {
            return true;
        }
        i += 1;
    }
    false
}

/// Keeps exactly the records whose category is in the requested set,
/// in their original production order.
pub fn filter_by_categories(records: &Vec<Manifest>, categories: &Vec<u8>) -> (r: Vec<Manifest>)
    ensures
        r.deep_view() == spec_filter_records(records.deep_view(), categories@),
{
    let ghost rdv = records.deep_view();
    let mut out: Vec<Manifest> = Vec::new();
    proof {
        assert(rdv.len() == records@.len());
        assert(rdv.take(0) =~= Seq::<ManifestView>::empty());
        assert(out.deep_view() =~= Seq::<ManifestView>::empty());
    }
    let mut k: usize = 0;
    while k < records.len()
        invariant
            k <= records@.len(),
            rdv == records.deep_view(),
            rdv.len() == records@.len(),
            out.deep_view() == spec_filter_records(rdv.take(k as int), categories@),
        decreases records@.len() - k,
    {
        proof {
            assert(rdv.take(k as int + 1).drop_last() =~= rdv.take(k as int));
            assert(rdv.take(k as int + 1).last() == rdv[k as int]);
            assert(rdv[k as int] == records@[k as int]@);
        }
        if contains_category(categories, records[k].category) {
            let ghost pre = out.deep_view();
            let m = records[k].clone();
            proof {
                assert(m@ == records@[k as int]@);
            }
            out.push(m);
            proof {
                assert(out.deep_view() =~~= pre.push(rdv[k as int]));
            }
        }
        k += 1;
    }
    proof {
        assert(rdv.take(rdv.len() as int) =~= rdv);
    }
    out
}

/// A field value that needs quoting in strict CSV output.
pub open spec fn is_special(c: char) -> bool {
    c == ',' || c == '"' || c == '\n' || c == '\r'
}

pub open spec fn has_special(s: Seq<char>) -> bool {
    exists|i: int| 0 <= i < s.len() && is_special(#[trigger] s[i])
}

/// Every quote doubled, for use inside a quoted CSV field.
pub open spec fn escape_quotes(s: Seq<char>) -> Seq<char>
    decreases s.len(),
{
    if s.len() == 0 {
        Seq::empty()
    } else if s.last() == '"' {
        escape_quotes(s.drop_last()) + seq!['"', '"']
    } else {
        escape_quotes(s.drop_last()).push(s.last())
    }
}

/// One field of strict CSV output: quoted, with quotes doubled, exactly
/// when the value holds a comma, quote or line break.
pub open spec fn render_field(s: Seq<char>) -> Seq<char> {
    if has_special(s) {
        seq!['"'] + escape_quotes(s) + seq!['"']
    } else {
        s
    }
}

/// One record as a strict CSV row: the nine fields in declaration order,
/// numeric fields in their canonical decimal form.
pub open spec fn render_record(m: ManifestView) -> Seq<char> {
    render_field(m.description) + seq![','] + render_field(m.item_number) + seq![',']
        + render_field(m.upc_number) + seq![','] + digits_of(m.category as nat) + seq![',']
        + render_field(m.category_description) + seq![','] + spec_render_decimal(m.quantity)
        + seq![','] + spec_render_decimal(m.retail_per_item) + seq![','] + spec_render_decimal(
        m.liquidation_rate,
    ) + seq![','] + spec_render_decimal(m.liquidation_price)
}

pub open spec fn records_text(rs: Seq<ManifestView>) -> Seq<char>
    decreases rs.len(),
{
    if rs.len() == 0 {
        Seq::empty()
    } else {
        records_text(rs.drop_last()) + render_record(rs.last()) + seq!['\n']
    }
}

/// The header row of the strict CSV output: the nine field names in
/// declaration order.
pub open spec fn out_header() -> Seq<char> {
    "description,item_number,upc_number,category,category_description,quantity,retail_per_item,liquidation_rate,liquidation_price"@
}

/// A whole strict CSV document: the header row, then one row per record,
/// in order, each newline-terminated.
pub open spec fn spec_render_csv(rs: Seq<ManifestView>) -> Seq<char> {
    out_header() + seq!['\n'] + records_text(rs)
}

fn push_chars(out: &mut Vec<char>, v: &Vec<char>)
    ensures
        final(out)@ == old(out)@ + v@,
{
    let ghost base = out@;
    let mut i: usize = 0;
    proof {
        assert(base + v@.take(0) =~= base);
    }
    while i < v.len()
        invariant
            i <= v@.len(),
            out@ == base + v@.take(i as int),
        decreases v@.len() - i,
    {
        out.push(v[i]);
        proof {
            assert(base + v@.take(i as int + 1) =~= (base + v@.take(i as int)).push(v@[i as int]));
        }
        i += 1;
    }
    proof {
        assert(base + v@.take(v@.len() as int) =~= base + v@);
    }
}

fn push_field(out: &mut Vec<char>, f: &Vec<char>)
    ensures
        final(out)@ == old(out)@ + render_field(f@),
{
    let n = f.len();
    let mut special = false;
    let mut i: usize = 0;
    while i < n
        invariant
            n == f@.len(),
            i <= n,
            special == exists|t: int| 0 <= t < i && is_special(#[trigger] f@[t]),
        decreases n - i,
    {
        let c = f[i];
        if c == ',' || c == '"' || c == '\n' || c == '\r' {
            special = true;
        }
        i += 1;
    }
    proof {
        assert(special == has_special(f@));
    }
    if !special {
        push_chars(out, f);
        return;
    }
    let ghost base = out@;
    out.push('"');
    let mut j: usize = 0;
    proof {
        assert(escape_quotes(f@.take(0)) =~= Seq::<char>::empty());
        assert(out@ =~= base + seq!['"'] + escape_quotes(f@.take(0)));
    }
    while j < n
        invariant
            n == f@.len(),
            j <= n,
            out@ == base + seq!['"'] + escape_quotes(f@.take(j as int)),
        decreases n - j,
    {
        let c = f[j];
        proof {
            assert(f@.take(j as int + 1).drop_last() =~= f@.take(j as int));
            assert(f@.take(j as int + 1).last() == f@[j as int]);
        }
        if c == '"' {
            out.push('"');
            out.push('"');
            proof {
                assert(out@ =~= base + seq!['"'] + escape_quotes(f@.take(j as int + 1)));
            }
        } else {
            out.push(c);
            proof {
                assert(out@ =~= base + seq!['"'] + escape_quotes(f@.take(j as int + 1)));
            }
        }
        j += 1;
    }
    out.push('"');
    proof {
        assert(f@.take(n as int) =~= f@);
        assert(out@ =~= base + render_field(f@));
    }
}

fn push_record(out: &mut Vec<char>, m: &Manifest)
    ensures
        final(out)@ == old(out)@ + render_record(m@),
{
    let ghost base = out@;
    let d = chars_of(m.description.as_str());
    push_field(out, &d);
    out.push(',');
    let it = chars_of(m.item_number.as_str());
    push_field(out, &it);
    out.push(',');
    let up = chars_of(m.upc_number.as_str());
    push_field(out, &up);
    out.push(',');
    push_digits(m.category as u64, out);
    out.push(',');
    let cd = chars_of(m.category_description.as_str());
    push_field(out, &cd);
    out.push(',');
    let q = render_decimal(&m.quantity);
    push_chars(out, &q);
    out.push(',');
    let rp = render_decimal(&m.retail_per_item);
    push_chars(out, &rp);
    out.push(',');
    let lr = render_decimal(&m.liquidation_rate);
    push_chars(out, &lr);
    out.push(',');
    let lp = render_decimal(&m.liquidation_price);
    push_chars(out, &lp);
    proof {
        assert(out@ =~= base + render_record(m@));
    }
}

/// Renders records as one strict CSV document with a header row, the
/// rows in record order.
pub fn render_csv(records: &Vec<Manifest>) -> (r: String)
    ensures
        r@ == spec_render_csv(records.deep_view()),
{
    let ghost rdv = records.deep_view();
    let mut out: Vec<char> = Vec::new();
    let hv = chars_of(
        "description,item_number,upc_number,category,category_description,quantity,retail_per_item,liquidation_rate,liquidation_price",
    );
    push_chars(&mut out, &hv);
    out.push('\n');
    proof {
        assert(rdv.len() == records@.len());
        assert(rdv.take(0) =~= Seq::<ManifestView>::empty());
        assert(out@ =~= out_header() + seq!['\n'] + records_text(rdv.take(0)));
    }
    let mut k: usize = 0;
    while k < records.len()
        invariant
            k <= records@.len(),
            rdv == records.deep_view(),
            rdv.len() == records@.len(),
            out@ == out_header() + seq!['\n'] + records_text(rdv.take(k as int)),
        decreases records@.len() - k,
    {
        proof {
            assert(rdv.take(k as int + 1).drop_last() =~= rdv.take(k as int));
            assert(rdv.take(k as int + 1).last() == rdv[k as int]);
            assert(rdv[k as int] == records@[k as int]@);
        }
        push_record(&mut out, &records[k]);
        out.push('\n');
        proof {
            assert(out@ =~= out_header() + seq!['\n'] + records_text(rdv.take(k as int + 1)));
        }
        k += 1;
    }
    proof {
        assert(rdv.take(rdv.len() as int) =~= rdv);
    }
    string_from_chars(&out)
}

/// Renders exactly the records whose category is in the requested set,
/// in their original order, as one strict CSV document.
pub fn build_filtered_csv(records: &Vec<Manifest>, categories: &Vec<u8>) -> (r: String)
    ensures
        r@ == spec_render_csv(spec_filter_records(records.deep_view(), categories@)),
{
    let kept = filter_by_categories(records, categories);
    render_csv(&kept)
}

} // verus!
