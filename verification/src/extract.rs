//! The table extractor: scans a document line by line, recognizes the
//! "Item list" start marker and the "Total" end marker, skips the
//! document's own header row, cleans the non-standard quoting of every
//! data line, and assembles each region into one normalized CSV block
//! headed by the canonical synthetic header row.

use vstd::prelude::*;
use vstd::string::StringExecFns;
use crate::chars::{
    chars_of, contains_chars, spec_contains, spec_replace, spec_starts_with, spec_trim,
    split_lines, spec_lines, starts_with_chars, string_from_chars, push_char, replace_all,
    trim_chars,
};

verus! {

/// The line marker that opens a table region.
pub open spec fn item_list_marker() -> Seq<char> {
    seq!['I', 't', 'e', 'm', ' ', 'l', 'i', 's', 't']
}

/// The marker of the document's own header row, consumed once after the
/// start marker.
pub open spec fn description_marker() -> Seq<char> {
    seq!['D', 'e', 's', 'c', 'r', 'i', 'p', 't', 'i', 'o', 'n']
}

/// The marker that closes a table region.
pub open spec fn total_marker() -> Seq<char> {
    seq!['T', 'o', 't', 'a', 'l']
}

/// Separator rule lines begin with a dash and are skipped.
pub open spec fn dash_marker() -> Seq<char> {
    seq!['-']
}

/// The non-standard quoting normalized: `="` reduced to `"`, then any
/// tripled and doubled quotes collapsed to single quotes, each pass
/// running left to right over the whole line.
pub open spec fn spec_clean(s: Seq<char>) -> Seq<char> {
    spec_replace(
        spec_replace(spec_replace(s, seq!['=', '"'], seq!['"']), seq!['"', '"', '"'], seq!['"']),
        seq!['"', '"'],
        seq!['"'],
    )
}

fn clean_chars(v: &Vec<char>) -> (r: Vec<char>)
    ensures
        r@ == spec_clean(v@),
{
    let pat_eq: Vec<char> = vec!['=', '"'];
    let pat_triple: Vec<char> = vec!['"', '"', '"'];
    let pat_double: Vec<char> = vec!['"', '"'];
    let quote: Vec<char> = vec!['"'];
    proof {
        assert(pat_eq@ =~= seq!['=', '"']);
        assert(pat_triple@ =~= seq!['"', '"', '"']);
        assert(pat_double@ =~= seq!['"', '"']);
        assert(quote@ =~= seq!['"']);
    }
    let a = replace_all(v, &pat_eq, &quote);
    let b = replace_all(&a, &pat_triple, &quote);
    replace_all(&b, &pat_double, &quote)
}

/// Normalizes the quoting of one raw data line.
pub fn clean_csv_line(line: &str) -> (r: String)
    ensures
        r@ == spec_clean(line@),
{
    let v = chars_of(line);
    let w = clean_chars(&v);
    string_from_chars(&w)
}

/// Where the scanner stands: outside any table, looking for the header
/// row just after a start marker, or inside a table region.
#[derive(Clone, Copy, Debug, PartialEq, Eq, Structural)]
pub enum ScanMode {
    Scanning,
    SeekHeader,
    InTable,
}

/// The scanner state: the mode, the cleaned rows of the open region, and
/// the finished regions.
pub struct ScanState {
    pub mode: ScanMode,
    pub rows: Seq<Seq<char>>,
    pub blocks: Seq<Seq<Seq<char>>>,
}

pub open spec fn scan_init() -> ScanState {
    ScanState { mode: ScanMode::Scanning, rows: Seq::empty(), blocks: Seq::empty() }
}

/// One step over a line inside a table region (`tl` is the trimmed line):
/// a "Total" line closes the region, emitting it when it holds any rows;
/// blank and rule lines are skipped; any other line is cleaned and kept.
pub open spec fn in_table_step(st: ScanState, tl: Seq<char>) -> ScanState {
    if spec_starts_with(tl, total_marker()) {
        ScanState {
            mode: ScanMode::Scanning,
            rows: Seq::empty(),
            blocks: if st.rows.len() > 0 {
                st.blocks.push(st.rows)
            } else {
                st.blocks
            },
        }
    } else if tl.len() == 0 || spec_starts_with(tl, dash_marker()) {
        st
    } else {
        ScanState { rows: st.rows.push(spec_clean(tl)), ..st }
    }
}

/// One scanner step over a raw line.
pub open spec fn scan_step(st: ScanState, line: Seq<char>) -> ScanState {
    let tl = spec_trim(line);
    match st.mode {
        ScanMode::Scanning => {
            if spec_contains(line, item_list_marker()) {
                ScanState { mode: ScanMode::SeekHeader, rows: Seq::empty(), ..st }
            } else {
                st
            }
        },
        ScanMode::SeekHeader => {
            if tl.len() == 0 {
                st
            } else if spec_contains(line, description_marker()) {
                ScanState { mode: ScanMode::InTable, rows: Seq::empty(), ..st }
            } else {
                in_table_step(
                    ScanState { mode: ScanMode::InTable, rows: Seq::empty(), blocks: st.blocks },
                    tl,
                )
            }
        },
        ScanMode::InTable => in_table_step(st, tl),
    }
}

pub open spec fn scan_fold(lines: Seq<Seq<char>>) -> ScanState
    decreases lines.len(),
{
    if lines.len() == 0 {
        scan_init()
    } else {
        scan_step(scan_fold(lines.drop_last()), lines.last())
    }
}

/// The table regions of a document, in document order, each as its
/// cleaned data rows; a region still open at the end of input is closed
/// there, and a region with no rows is not emitted.
pub open spec fn spec_blocks(lines: Seq<Seq<char>>) -> Seq<Seq<Seq<char>>> {
    let st = scan_fold(lines);
    if st.mode is InTable && st.rows.len() > 0 {
        st.blocks.push(st.rows)
    } else {
        st.blocks
    }
}

/// The canonical synthetic header row of every normalized CSV block.
pub open spec fn header_text() -> Seq<char> {
    "row,Description,ItemNumber,UPC Number,Category,Category description,Qty,Retail per item (USD$),Liquidation rate %,Liquidation price (USD$)"@
}

/// The data rows of a block, each followed by a newline.
pub open spec fn rows_text(rows: Seq<Seq<char>>) -> Seq<char>
    decreases rows.len(),
{
    if rows.len() == 0 {
        Seq::empty()
    } else {
        rows_text(rows.drop_last()) + rows.last() + seq!['\n']
    }
}

/// One normalized CSV block: the synthetic header row, then the cleaned
/// data rows, newline-terminated.
pub open spec fn spec_block_string(rows: Seq<Seq<char>>) -> Seq<char> {
    header_text() + seq!['\n'] + rows_text(rows)
}

/// The normalized CSV blocks of a whole document text.
pub open spec fn spec_block_strings(text: Seq<char>) -> Seq<Seq<char>> {
    spec_blocks(spec_lines(text)).map_values(|rows: Seq<Seq<char>>| spec_block_string(rows))
}

fn block_string(rows: &Vec<Vec<char>>) -> (r: String)
    ensures
        r@ == spec_block_string(rows.deep_view()),
{
    let mut s = String::from_str(
        "row,Description,ItemNumber,UPC Number,Category,Category description,Qty,Retail per item (USD$),Liquidation rate %,Liquidation price (USD$)",
    );
    push_char(&mut s, '\n');
    let ghost head = s@;
    proof {
        assert(head =~= header_text() + seq!['\n']);
        assert(rows.deep_view().take(0) =~= Seq::<Seq<char>>::empty());
    }
    let mut k: usize = 0;
    while k < rows.len()
        invariant
            k <= rows@.len(),
            head == header_text() + seq!['\n'],
            s@ == head + rows_text(rows.deep_view().take(k as int)),
        decreases rows@.len() - k,
    {
        let row = &rows[k];
        let ghost mid = s@;
        let mut j: usize = 0;
        while j < row.len()
            invariant
                j <= row@.len(),
                s@ == mid + row@.take(j as int),
            decreases row@.len() - j,
        {
            push_char(&mut s, row[j]);
            proof {
                assert(mid + row@.take(j as int + 1) =~= (mid + row@.take(j as int)).push(
                    row@[j as int],
                ));
            }
            j += 1;
        }
        push_char(&mut s, '\n');
        proof {
            let dv = rows.deep_view();
            assert(row@.take(row@.len() as int) =~= row@);
            assert(dv.take(k as int + 1).drop_last() =~= dv.take(k as int));
            assert(dv.take(k as int + 1).last() == dv[k as int]);
            assert(dv[k as int] == row@);
            assert(s@ =~= head + rows_text(dv.take(k as int + 1)));
        }
        k += 1;
    }
    proof {
        assert(rows.deep_view().take(rows@.len() as int) =~= rows.deep_view());
    }
    s
}

fn table_line_step(
    rows: &mut Vec<Vec<char>>,
    out: &mut Vec<String>,
    tl: &Vec<char>,
    Ghost(blocks): Ghost<Seq<Seq<Seq<char>>>>,
) -> (m: ScanMode)
    requires
        old(out).deep_view() == blocks.map_values(|r: Seq<Seq<char>>| spec_block_string(r)),
    ensures
        ({
            let post = in_table_step(
                ScanState { mode: ScanMode::InTable, rows: old(rows).deep_view(), blocks },
                tl@,
            );
            &&& m == post.mode
            &&& final(rows).deep_view() == post.rows
            &&& final(out).deep_view() == post.blocks.map_values(
                |r: Seq<Seq<char>>| spec_block_string(r),
            )
        }),
{
    let total: Vec<char> = vec!['T', 'o', 't', 'a', 'l'];
    let dash: Vec<char> = vec!['-'];
    proof {
        assert(total@ =~= total_marker());
        assert(dash@ =~= dash_marker());
    }
    if starts_with_chars(tl, &total) {
        if rows.len() > 0 {
            let b = block_string(rows);
            let ghost bv = b@;
            let ghost pre = out.deep_view();
            out.push(b);
            proof {
                assert(out.deep_view() =~~= pre.push(bv));
                assert(blocks.push(old(rows).deep_view()).map_values(
                    |r: Seq<Seq<char>>| spec_block_string(r),
                ) =~~= blocks.map_values(|r: Seq<Seq<char>>| spec_block_string(r)).push(
                    spec_block_string(old(rows).deep_view()),
                ));
            }
        }
        rows.clear();
        proof {
            assert(rows.deep_view() =~~= Seq::<Seq<char>>::empty());
        }
        ScanMode::Scanning
    } else if tl.len() == 0 || starts_with_chars(tl, &dash) {
        ScanMode::InTable
    } else {
        let cleaned = clean_chars(tl);
        let ghost cv = cleaned@;
        let ghost pre = rows.deep_view();
        rows.push(cleaned);
        proof {
            assert(rows.deep_view() =~~= pre.push(cv));
        }
        ScanMode::InTable
    }
}

/// Scans a document and returns its normalized CSV blocks, one per table
/// region, in document order.
pub fn extract_csv_blocks(text: &str) -> (r: Vec<String>)
    ensures
        r.deep_view() == spec_block_strings(text@),
{
    let cs = chars_of(text);
    let lines = split_lines(&cs);
    let ghost ldv = lines.deep_view();
    let item_list: Vec<char> = vec!['I', 't', 'e', 'm', ' ', 'l', 'i', 's', 't'];
    let desc: Vec<char> = vec!['D', 'e', 's', 'c', 'r', 'i', 'p', 't', 'i', 'o', 'n'];
    proof {
        assert(item_list@ =~= item_list_marker());
        assert(desc@ =~= description_marker());
        assert(ldv.take(0) =~= Seq::<Seq<char>>::empty());
    }
    let mut mode = ScanMode::Scanning;
    let mut rows: Vec<Vec<char>> = Vec::new();
    let mut out: Vec<String> = Vec::new();
    proof {
        assert(out.deep_view() =~~= scan_fold(ldv.take(0)).blocks.map_values(
            |r: Seq<Seq<char>>| spec_block_string(r),
        ));
    }
    let mut j: usize = 0;
    while j < lines.len()
        invariant
            j <= lines@.len(),
            ldv == lines.deep_view(),
            ldv.len() == lines@.len(),
            item_list@ == item_list_marker(),
            desc@ == description_marker(),
            mode == scan_fold(ldv.take(j as int)).mode,
            rows.deep_view() == scan_fold(ldv.take(j as int)).rows,
            out.deep_view() == scan_fold(ldv.take(j as int)).blocks.map_values(
                |r: Seq<Seq<char>>| spec_block_string(r),
            ),
        decreases lines@.len() - j,
    {
        let line = &lines[j];
        let tl = trim_chars(line);
        proof {
            assert(ldv.take(j as int + 1).drop_last() =~= ldv.take(j as int));
            assert(ldv.take(j as int + 1).last() == ldv[j as int]);
            assert(ldv[j as int] == line@);
        }
        match mode {
            ScanMode::Scanning => {
                if contains_chars(line, &item_list) {
                    mode = ScanMode::SeekHeader;
                    rows.clear();
                    proof {
                        assert(rows.deep_view() =~~= Seq::<Seq<char>>::empty());
                    }
                }
            },
            ScanMode::SeekHeader => {
                if tl.len() == 0 {
                } else if contains_chars(line, &desc) {
                    mode = ScanMode::InTable;
                    rows.clear();
                    proof {
                        assert(rows.deep_view() =~~= Seq::<Seq<char>>::empty());
                    }
                } else {
                    rows.clear();
                    proof {
                        assert(rows.deep_view() =~~= Seq::<Seq<char>>::empty());
                    }
                    let ghost blocks = scan_fold(ldv.take(j as int)).blocks;
                    mode = table_line_step(&mut rows, &mut out, &tl, Ghost(blocks));
                }
            },
            ScanMode::InTable => {
                let ghost blocks = scan_fold(ldv.take(j as int)).blocks;
                mode = table_line_step(&mut rows, &mut out, &tl, Ghost(blocks));
            },
        }
        j += 1;
    }
    proof {
        assert(ldv.take(lines@.len() as int) =~= ldv);
    }
    if let ScanMode::InTable = mode {
        if rows.len() > 0 {
            let b = block_string(&rows);
            let ghost bv = b@;
            let ghost pre = out.deep_view();
            let ghost st = scan_fold(ldv);
            out.push(b);
            proof {
                assert(out.deep_view() =~~= pre.push(bv));
                assert(st.blocks.push(st.rows).map_values(
                    |r: Seq<Seq<char>>| spec_block_string(r),
                ) =~~= st.blocks.map_values(|r: Seq<Seq<char>>| spec_block_string(r)).push(
                    spec_block_string(st.rows),
                ));
            }
        }
    }
    out
}

} // verus!
