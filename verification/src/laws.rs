//! General properties of the pipeline, stated once and proved for every
//! input: rows that are too short are dropped without a trace, lenient
//! coercion is idempotent on already-clean text and degrades to the
//! documented default, and table regions are extracted independently.

use vstd::prelude::*;
use crate::chars::{
    lines_fold, lines_step, spec_contains, spec_lines, spec_replace, spec_starts_with, spec_trim,
};
use crate::coerce::{spec_currency, spec_percentage, strip_currency, strip_percent};
use crate::decimal::{num_fold, spec_parse_decimal, Dec};
use crate::extract::{
    dash_marker, description_marker, header_text, item_list_marker, scan_fold, scan_step,
    spec_blocks, spec_block_string, spec_clean, total_marker, ScanMode, ScanState,
};
use crate::manifest::{blocks_records, rows_records, spec_parse_block};
use crate::tokenizer::{tok_fold, spec_tokenize};

verus! {

/// Whether a text is a well-formed numeral: an optional sign, then
/// digits with at most one dot and at least one digit.
pub open spec fn is_numeral(s: Seq<char>) -> bool {
    let t = if s.len() > 0 && (s[0] == '+' || s[0] == '-') {
        s.drop_first()
    } else {
        s
    };
    num_fold(t).ok && num_fold(t).intd.len() + num_fold(t).fracd.len() > 0
}

/// A field that is no numeral coerces to the default zero — it neither
/// fails nor aborts anything.
pub proof fn lemma_default_on_failure(s: Seq<char>)
    ensures
        !is_numeral(s) ==> spec_parse_decimal(s) == Dec::spec_zero(),
{
}

/// A currency field whose stripped text is no numeral defaults to zero;
/// a percentage field likewise.
pub proof fn lemma_coercion_default_on_failure(s: Seq<char>)
    ensures
        !is_numeral(strip_currency(s)) ==> spec_currency(s) == Dec::spec_zero(),
        !is_numeral(strip_percent(s)) ==> spec_percentage(s) == Dec::spec_zero(),
{
}

proof fn lemma_strip_currency_idempotent_aux(s: Seq<char>)
    ensures
        strip_currency(strip_currency(s)) == strip_currency(s),
    decreases s.len(),
{
    if s.len() > 0 {
        lemma_strip_currency_idempotent_aux(s.drop_last());
        if s.last() != '$' && s.last() != ',' {
            let inner = strip_currency(s.drop_last());
            assert(inner.push(s.last()).drop_last() =~= inner);
        }
    }
}

/// Currency coercion is idempotent: text already free of `$` and `,`
/// coerces exactly as its decorated form does.
pub proof fn lemma_currency_idempotent(s: Seq<char>)
    ensures
        spec_currency(strip_currency(s)) == spec_currency(s),
{
    lemma_strip_currency_idempotent_aux(s);
}

/// Percentage coercion is idempotent in the same way.
pub proof fn lemma_percentage_idempotent(s: Seq<char>)
    ensures
        spec_percentage(strip_percent(s)) == spec_percentage(s),
    decreases s.len(),
{
    lemma_strip_percent_idempotent_aux(s);
}

proof fn lemma_strip_percent_idempotent_aux(s: Seq<char>)
    ensures
        strip_percent(strip_percent(s)) == strip_percent(s),
    decreases s.len(),
{
    if s.len() > 0 {
        lemma_strip_percent_idempotent_aux(s.drop_last());
        if s.last() != '%' {
            let inner = strip_percent(s.drop_last());
            assert(inner.push(s.last()).drop_last() =~= inner);
        }
    }
}

/// A data row that tokenizes to fewer than ten tokens is never emitted:
/// removing it from a block leaves the records exactly as they were, and
/// causes no error.
pub proof fn lemma_short_row_dropped(pre: Seq<Seq<char>>, row: Seq<char>, post: Seq<Seq<char>>)
    requires
        spec_tokenize(row) is Some,
        spec_tokenize(row)->Some_0.len() < 10,
    ensures
        rows_records(pre + seq![row] + post) == rows_records(pre + post),
    decreases post.len(),
{
    if post.len() == 0 {
        assert(pre + seq![row] + post =~= pre + seq![row]);
        assert(pre + post =~= pre);
        assert((pre + seq![row]).drop_last() =~= pre);
        assert((pre + seq![row]).last() == row);
        if pre.len() > 0 {
            assert(rows_records(pre + seq![row]) == rows_records(pre));
        }
    } else {
        lemma_short_row_dropped(pre, row, post.drop_last());
        assert((pre + seq![row] + post).drop_last() =~= pre + seq![row] + post.drop_last());
        assert((pre + seq![row] + post).last() == post.last());
        assert((pre + post).drop_last() =~= pre + post.drop_last());
        assert((pre + post).last() == post.last());
    }
}

/// The scanner run onward from an arbitrary state.
pub open spec fn scan_fold_from(st: ScanState, lines: Seq<Seq<char>>) -> ScanState
    decreases lines.len(),
{
    if lines.len() == 0 {
        st
    } else {
        scan_step(scan_fold_from(st, lines.drop_last()), lines.last())
    }
}

proof fn lemma_fold_split(l1: Seq<Seq<char>>, l2: Seq<Seq<char>>)
    ensures
        scan_fold(l1 + l2) == scan_fold_from(scan_fold(l1), l2),
    decreases l2.len(),
{
    if l2.len() == 0 {
        assert(l1 + l2 =~= l1);
    } else {
        lemma_fold_split(l1, l2.drop_last());
        assert((l1 + l2).drop_last() =~= l1 + l2.drop_last());
        assert((l1 + l2).last() == l2.last());
    }
}

proof fn lemma_fold_blocks_append(st: ScanState, l: Seq<Seq<char>>)
    ensures
        ({
            let r = scan_fold_from(
                ScanState { mode: st.mode, rows: st.rows, blocks: Seq::empty() },
                l,
            );
            scan_fold_from(st, l) == (ScanState {
                mode: r.mode,
                rows: r.rows,
                blocks: st.blocks + r.blocks,
            })
        }),
    decreases l.len(),
{
    let st0 = ScanState { mode: st.mode, rows: st.rows, blocks: Seq::empty() };
    if l.len() == 0 {
        assert(st.blocks + Seq::<Seq<Seq<char>>>::empty() =~= st.blocks);
    } else {
        lemma_fold_blocks_append(st, l.drop_last());
        let s0 = scan_fold_from(st0, l.drop_last());
        let s1 = scan_fold_from(st, l.drop_last());
        let c = l.last();
        let r0 = scan_step(s0, c);
        let r1 = scan_step(s1, c);
        assert((st.blocks + s0.blocks).push(s0.rows) =~= st.blocks + s0.blocks.push(s0.rows));
        assert(r1.mode == r0.mode && r1.rows == r0.rows);
        assert(r1.blocks =~= st.blocks + r0.blocks);
    }
}

proof fn lemma_fold_rows_immaterial(rw1: Seq<Seq<char>>, rw2: Seq<Seq<char>>, l: Seq<Seq<char>>)
    ensures
        ({
            let a = scan_fold_from(
                ScanState { mode: ScanMode::Scanning, rows: rw1, blocks: Seq::empty() },
                l,
            );
            let b = scan_fold_from(
                ScanState { mode: ScanMode::Scanning, rows: rw2, blocks: Seq::empty() },
                l,
            );
            &&& a.mode == b.mode
            &&& a.blocks == b.blocks
            &&& (!(a.mode is Scanning) ==> a.rows == b.rows)
        }),
    decreases l.len(),
{
    if l.len() > 0 {
        lemma_fold_rows_immaterial(rw1, rw2, l.drop_last());
    }
}

/// Table regions are extracted independently: once a document prefix has
/// closed all its regions, the regions of what follows are exactly those
/// it would yield on its own, appended in document order, with no row
/// carried from one side to the other.
pub proof fn lemma_regions_independent(l1: Seq<Seq<char>>, l2: Seq<Seq<char>>)
    requires
        scan_fold(l1).mode is Scanning,
    ensures
        spec_blocks(l1 + l2) == spec_blocks(l1) + spec_blocks(l2),
{
    let st1 = scan_fold(l1);
    lemma_fold_split(l1, l2);
    lemma_fold_blocks_append(st1, l2);
    let r = scan_fold_from(ScanState { mode: st1.mode, rows: st1.rows, blocks: Seq::empty() }, l2);
    lemma_fold_rows_immaterial(st1.rows, Seq::empty(), l2);
    let r2 = scan_fold_from(
        ScanState { mode: ScanMode::Scanning, rows: Seq::empty(), blocks: Seq::empty() },
        l2,
    );
    assert(scan_fold(l2) == r2) by {
        lemma_fold_from_init(l2);
    }
    if r.mode is InTable && r.rows.len() > 0 {
        assert((st1.blocks + r.blocks).push(r.rows) =~= st1.blocks + r.blocks.push(r.rows));
    } else {
        assert(spec_blocks(l1 + l2) =~= st1.blocks + r.blocks);
    }
}

proof fn lemma_fold_from_init(l: Seq<Seq<char>>)
    ensures
        scan_fold(l) == scan_fold_from(
            ScanState { mode: ScanMode::Scanning, rows: Seq::empty(), blocks: Seq::empty() },
            l,
        ),
    decreases l.len(),
{
    if l.len() > 0 {
        lemma_fold_from_init(l.drop_last());
    }
}

proof fn lemma_scan_from_split(st: ScanState, a: Seq<Seq<char>>, b: Seq<Seq<char>>)
    ensures
        scan_fold_from(st, a + b) == scan_fold_from(scan_fold_from(st, a), b),
    decreases b.len(),
{
    if b.len() == 0 {
        assert(a + b =~= a);
    } else {
        lemma_scan_from_split(st, a, b.drop_last());
        assert((a + b).drop_last() =~= a + b.drop_last());
        assert((a + b).last() == b.last());
    }
}

proof fn lemma_scanning_skips(st: ScanState, l: Seq<Seq<char>>)
    requires
        st.mode is Scanning,
        forall|i: int| 0 <= i < l.len() ==> !spec_contains(#[trigger] l[i], item_list_marker()),
    ensures
        scan_fold_from(st, l) == st,
    decreases l.len(),
{
    if l.len() > 0 {
        assert(forall|i: int|
            0 <= i < l.len() - 1 ==> !spec_contains(#[trigger] l.drop_last()[i], item_list_marker()));
        lemma_scanning_skips(st, l.drop_last());
    }
}

proof fn lemma_seek_skips_blanks(st: ScanState, l: Seq<Seq<char>>)
    requires
        st.mode is SeekHeader,
        forall|i: int| 0 <= i < l.len() ==> spec_trim(#[trigger] l[i]).len() == 0,
    ensures
        scan_fold_from(st, l) == st,
    decreases l.len(),
{
    if l.len() > 0 {
        assert(forall|i: int|
            0 <= i < l.len() - 1 ==> spec_trim(#[trigger] l.drop_last()[i]).len() == 0);
        lemma_seek_skips_blanks(st, l.drop_last());
    }
}

/// The cleaned, trimmed form of every data line, in order.
pub open spec fn cleaned_rows(d: Seq<Seq<char>>) -> Seq<Seq<char>> {
    d.map_values(|l: Seq<char>| spec_clean(spec_trim(l)))
}

proof fn lemma_in_table_data(st: ScanState, d: Seq<Seq<char>>)
    requires
        st.mode is InTable,
        forall|i: int|
            0 <= i < d.len() ==> spec_trim(#[trigger] d[i]).len() > 0 && !spec_starts_with(
                spec_trim(d[i]),
                dash_marker(),
            ) && !spec_starts_with(spec_trim(d[i]), total_marker()),
    ensures
        scan_fold_from(st, d) == (ScanState {
            mode: ScanMode::InTable,
            rows: st.rows + cleaned_rows(d),
            blocks: st.blocks,
        }),
    decreases d.len(),
{
    if d.len() == 0 {
        assert(cleaned_rows(d) =~= Seq::<Seq<char>>::empty());
        assert(st.rows + cleaned_rows(d) =~= st.rows);
        assert(st == (ScanState {
            mode: ScanMode::InTable,
            rows: st.rows + cleaned_rows(d),
            blocks: st.blocks,
        }));
    } else {
        assert(forall|i: int|
            0 <= i < d.len() - 1 ==> spec_trim(#[trigger] d.drop_last()[i]).len() > 0
                && !spec_starts_with(spec_trim(d.drop_last()[i]), dash_marker())
                && !spec_starts_with(spec_trim(d.drop_last()[i]), total_marker()));
        lemma_in_table_data(st, d.drop_last());
        assert(cleaned_rows(d) =~= cleaned_rows(d.drop_last()).push(
            spec_clean(spec_trim(d.last())),
        ));
        assert(st.rows + cleaned_rows(d) =~= (st.rows + cleaned_rows(d.drop_last())).push(
            spec_clean(spec_trim(d.last())),
        ));
    }
}

proof fn lemma_rows_all_long(rows: Seq<Seq<char>>)
    requires
        forall|i: int|
            0 <= i < rows.len() ==> (#[trigger] spec_tokenize(rows[i])) is Some && spec_tokenize(
                rows[i],
            )->Some_0.len() >= 10,
    ensures
        rows_records(rows) is Some,
        rows_records(rows)->Some_0.len() == rows.len(),
    decreases rows.len(),
{
    if rows.len() > 0 {
        assert(forall|i: int|
            0 <= i < rows.len() - 1 ==> (#[trigger] spec_tokenize(rows.drop_last()[i])) is Some
                && spec_tokenize(rows.drop_last()[i])->Some_0.len() >= 10);
        lemma_rows_all_long(rows.drop_last());
        assert(spec_tokenize(rows.last()) is Some);
    }
}

/// The line splitter run onward from an arbitrary state.
pub open spec fn lines_fold_from(
    ls: Seq<Seq<char>>,
    cur: Seq<char>,
    s: Seq<char>,
) -> (Seq<Seq<char>>, Seq<char>)
    decreases s.len(),
{
    if s.len() == 0 {
        (ls, cur)
    } else {
        let st = lines_fold_from(ls, cur, s.drop_last());
        lines_step(st.0, st.1, s.last())
    }
}

proof fn lemma_lines_from_init(s: Seq<char>)
    ensures
        lines_fold(s) == lines_fold_from(Seq::empty(), Seq::empty(), s),
    decreases s.len(),
{
    if s.len() > 0 {
        lemma_lines_from_init(s.drop_last());
    }
}

proof fn lemma_lines_split(ls: Seq<Seq<char>>, cur: Seq<char>, a: Seq<char>, b: Seq<char>)
    ensures
        lines_fold_from(ls, cur, a + b) == lines_fold_from(
            lines_fold_from(ls, cur, a).0,
            lines_fold_from(ls, cur, a).1,
            b,
        ),
    decreases b.len(),
{
    if b.len() == 0 {
        assert(a + b =~= a);
    } else {
        lemma_lines_split(ls, cur, a, b.drop_last());
        assert((a + b).drop_last() =~= a + b.drop_last());
        assert((a + b).last() == b.last());
    }
}

proof fn lemma_lines_accumulate(ls: Seq<Seq<char>>, cur: Seq<char>, r: Seq<char>)
    requires
        forall|i: int| 0 <= i < r.len() ==> #[trigger] r[i] != '\n',
    ensures
        lines_fold_from(ls, cur, r) == (ls, cur + r),
    decreases r.len(),
{
    if r.len() == 0 {
        assert(cur + r =~= cur);
    } else {
        assert(forall|i: int| 0 <= i < r.len() - 1 ==> #[trigger] r.drop_last()[i] != '\n');
        lemma_lines_accumulate(ls, cur, r.drop_last());
        assert(r.last() != '\n');
        assert((cur + r.drop_last()).push(r.last()) =~= cur + r);
    }
}

proof fn lemma_tok_fold_no_quote(s: Seq<char>)
    requires
        forall|i: int| 0 <= i < s.len() ==> #[trigger] s[i] != '"',
    ensures
        !(tok_fold(s).mode is InQuotes),
        !(tok_fold(s).mode is QuoteInQuotes),
    decreases s.len(),
{
    if s.len() > 0 {
        assert(forall|i: int| 0 <= i < s.len() - 1 ==> #[trigger] s.drop_last()[i] != '"');
        lemma_tok_fold_no_quote(s.drop_last());
        assert(s.last() != '"');
    }
}

proof fn lemma_replace_absent(s: Seq<char>, pat: Seq<char>, rep: Seq<char>, c0: char)
    requires
        pat.len() > 0,
        forall|i: int| 0 <= i < s.len() ==> #[trigger] s[i] != c0,
        forall|i: int| 0 <= i < rep.len() ==> #[trigger] rep[i] != c0,
    ensures
        forall|i: int|
            0 <= i < spec_replace(s, pat, rep).len() ==> #[trigger] spec_replace(s, pat, rep)[i]
                != c0,
    decreases s.len(),
{
    if s.len() < pat.len() {
    } else if s.subrange(0, pat.len() as int) == pat {
        let rest = s.skip(pat.len() as int);
        assert(forall|i: int| 0 <= i < rest.len() ==> #[trigger] rest[i] != c0);
        lemma_replace_absent(rest, pat, rep, c0);
        let r = spec_replace(s, pat, rep);
        assert forall|i: int| 0 <= i < r.len() implies #[trigger] r[i] != c0 by {
            if i < rep.len() {
                assert(r[i] == rep[i]);
            } else {
                assert(r[i] == spec_replace(rest, pat, rep)[i - rep.len()]);
            }
        }
    } else {
        let rest = s.skip(1);
        assert(forall|i: int| 0 <= i < rest.len() ==> #[trigger] rest[i] != c0);
        lemma_replace_absent(rest, pat, rep, c0);
        let r = spec_replace(s, pat, rep);
        assert forall|i: int| 0 <= i < r.len() implies #[trigger] r[i] != c0 by {
            if i == 0 {
                assert(r[0] == s[0]);
            } else {
                assert(r[i] == spec_replace(rest, pat, rep)[i - 1]);
            }
        }
    }
}

proof fn lemma_trim_absent(s: Seq<char>, c0: char)
    requires
        forall|i: int| 0 <= i < s.len() ==> #[trigger] s[i] != c0,
    ensures
        forall|i: int| 0 <= i < spec_trim(s).len() ==> #[trigger] spec_trim(s)[i] != c0,
{
}

proof fn lemma_clean_absent(s: Seq<char>, c0: char)
    requires
        c0 != '"',
        forall|i: int| 0 <= i < s.len() ==> #[trigger] s[i] != c0,
    ensures
        forall|i: int| 0 <= i < spec_clean(s).len() ==> #[trigger] spec_clean(s)[i] != c0,
{
    let q = seq!['"'];
    assert(forall|i: int| 0 <= i < q.len() ==> #[trigger] q[i] != c0);
    let a = spec_replace(s, seq!['=', '"'], q);
    lemma_replace_absent(s, seq!['=', '"'], q, c0);
    let b = spec_replace(a, seq!['"', '"', '"'], q);
    lemma_replace_absent(a, seq!['"', '"', '"'], q, c0);
    lemma_replace_absent(b, seq!['"', '"'], q, c0);
}

proof fn lemma_block_roundtrip_aux(rows: Seq<Seq<char>>)
    requires
        forall|i: int, j: int|
            0 <= i < rows.len() && 0 <= j < rows[i].len() ==> #[trigger] rows[i][j] != '\n'
                && rows[i][j] != '\r',
    ensures
        lines_fold(spec_block_string(rows)) == (seq![header_text()] + rows, Seq::<char>::empty()),
    decreases rows.len(),
{
    let h = header_text();
    let e: Seq<Seq<char>> = Seq::empty();
    let ec: Seq<char> = Seq::empty();
    lemma_header_chars();
    if rows.len() == 0 {
        assert(crate::extract::rows_text(rows) =~= ec);
        assert(spec_block_string(rows) =~= h + seq!['\n']);
        lemma_lines_from_init(spec_block_string(rows));
        lemma_lines_split(e, ec, h, seq!['\n']);
        lemma_lines_accumulate(e, ec, h);
        assert(seq!['\n'].drop_last() =~= ec);
        assert(seq!['\n'].len() == 1);
        assert(seq!['\n'].last() == '\n');
        assert(lines_fold_from(e, h, ec) == (e, h));
        if h.len() > 0 {
            assert(h.last() != '\r');
        }
        assert(crate::chars::strip_tail_cr(h) == h);
        assert(lines_fold_from(e, h, seq!['\n']) == (e.push(h), ec));
        assert(e.push(h) =~= seq![h] + rows);
    } else {
        let ddl = rows.drop_last();
        let last = rows.last();
        assert(forall|i: int, j: int|
            0 <= i < ddl.len() && 0 <= j < ddl[i].len() ==> #[trigger] ddl[i][j] != '\n'
                && ddl[i][j] != '\r');
        lemma_block_roundtrip_aux(ddl);
        let a = spec_block_string(ddl);
        assert(spec_block_string(rows) =~= (a + last) + seq!['\n']) by {
            assert(crate::extract::rows_text(rows) == crate::extract::rows_text(ddl) + last
                + seq!['\n']);
        }
        lemma_lines_from_init(spec_block_string(rows));
        lemma_lines_from_init(a);
        lemma_lines_split(e, ec, a, last);
        lemma_lines_split(e, ec, a + last, seq!['\n']);
        assert(forall|j: int| 0 <= j < last.len() ==> #[trigger] last[j] != '\n');
        lemma_lines_accumulate(seq![h] + ddl, ec, last);
        assert(ec + last =~= last);
        assert(seq!['\n'].drop_last() =~= ec);
        assert(seq!['\n'].len() == 1);
        assert(seq!['\n'].last() == '\n');
        assert(lines_fold_from(seq![h] + ddl, last, ec) == (seq![h] + ddl, last));
        if last.len() > 0 {
            assert(last.last() != '\r');
        }
        assert(crate::chars::strip_tail_cr(last) == last);
        assert(lines_fold_from(seq![h] + ddl, last, seq!['\n']) == ((seq![h] + ddl).push(last), ec));
        assert((seq![h] + ddl).push(last) =~= seq![h] + rows);
    }
}

/// A normalized block survives the round trip through its serialized
/// text: splitting the block string gives back the synthetic header line
/// followed by exactly the block's rows.
pub proof fn lemma_block_roundtrip(rows: Seq<Seq<char>>)
    requires
        forall|i: int, j: int|
            0 <= i < rows.len() && 0 <= j < rows[i].len() ==> #[trigger] rows[i][j] != '\n'
                && rows[i][j] != '\r',
    ensures
        spec_lines(spec_block_string(rows)) == seq![header_text()] + rows,
{
    lemma_block_roundtrip_aux(rows);
}

proof fn lemma_header_chars()
    ensures
        forall|i: int|
            0 <= i < crate::extract::header_text().len() ==> crate::extract::header_text()[i]
                != '\n' && crate::extract::header_text()[i] != '"' && crate::extract::header_text()[
                i
            ] != '\r',
{
    reveal_strlit(
        "row,Description,ItemNumber,UPC Number,Category,Category description,Qty,Retail per item (USD$),Liquidation rate %,Liquidation price (USD$)",
    );
}

/// For a well-formed document with exactly one table region — free text
/// without a start marker, the "Item list" marker, blank lines, the
/// document's own header row, the data lines, a "Total" line, and a tail
/// without a start marker — the pipeline emits exactly one record per
/// data line: as many records as there are non-blank, non-rule data
/// lines between the skipped header and the end marker.
pub proof fn lemma_single_region(
    lines: Seq<Seq<char>>,
    pre: Seq<Seq<char>>,
    marker: Seq<char>,
    blanks: Seq<Seq<char>>,
    hdr: Seq<char>,
    data: Seq<Seq<char>>,
    total: Seq<char>,
    post: Seq<Seq<char>>,
)
    requires
        lines == pre + seq![marker] + blanks + seq![hdr] + data + seq![total] + post,
        forall|i: int| 0 <= i < pre.len() ==> !spec_contains(#[trigger] pre[i], item_list_marker()),
        spec_contains(marker, item_list_marker()),
        forall|i: int| 0 <= i < blanks.len() ==> spec_trim(#[trigger] blanks[i]).len() == 0,
        spec_contains(hdr, description_marker()),
        spec_trim(hdr).len() > 0,
        forall|i: int|
            0 <= i < data.len() ==> spec_trim(#[trigger] data[i]).len() > 0 && !spec_starts_with(
                spec_trim(data[i]),
                dash_marker(),
            ) && !spec_starts_with(spec_trim(data[i]), total_marker()),
        forall|i: int, j: int|
            0 <= i < data.len() && 0 <= j < data[i].len() ==> #[trigger] data[i][j] != '\n'
                && data[i][j] != '\r',
        forall|i: int|
            0 <= i < data.len() ==> (#[trigger] spec_tokenize(
                spec_clean(spec_trim(data[i])),
            )) is Some && spec_tokenize(spec_clean(spec_trim(data[i])))->Some_0.len() >= 10,
        spec_starts_with(spec_trim(total), total_marker()),
        forall|i: int|
            0 <= i < post.len() ==> !spec_contains(#[trigger] post[i], item_list_marker()),
    ensures
        blocks_records(
            spec_blocks(lines).map_values(|r: Seq<Seq<char>>| spec_block_string(r)),
        ) is Some,
        blocks_records(
            spec_blocks(lines).map_values(|r: Seq<Seq<char>>| spec_block_string(r)),
        )->Some_0.len() == data.len(),
{
    let e: Seq<Seq<char>> = Seq::empty();
    let eb: Seq<Seq<Seq<char>>> = Seq::empty();
    let init = ScanState { mode: ScanMode::Scanning, rows: e, blocks: eb };
    let a1 = pre;
    let a2 = a1 + seq![marker];
    let a3 = a2 + blanks;
    let a4 = a3 + seq![hdr];
    let a5 = a4 + data;
    let a6 = a5 + seq![total];
    lemma_fold_from_init(lines);
    lemma_scan_from_split(init, a1, seq![marker]);
    lemma_scan_from_split(init, a2, blanks);
    lemma_scan_from_split(init, a3, seq![hdr]);
    lemma_scan_from_split(init, a4, data);
    lemma_scan_from_split(init, a5, seq![total]);
    lemma_scan_from_split(init, a6, post);
    lemma_scanning_skips(init, pre);
    assert(seq![marker].drop_last() =~= e);
    assert(seq![marker].last() == marker);
    assert(scan_fold_from(init, e) == init);
    let st2 = ScanState { mode: ScanMode::SeekHeader, rows: e, blocks: eb };
    assert(scan_fold_from(init, seq![marker]) == st2);
    lemma_seek_skips_blanks(st2, blanks);
    assert(seq![hdr].drop_last() =~= e);
    assert(seq![hdr].last() == hdr);
    assert(scan_fold_from(st2, e) == st2);
    let st4 = ScanState { mode: ScanMode::InTable, rows: e, blocks: eb };
    assert(scan_fold_from(st2, seq![hdr]) == st4);
    lemma_in_table_data(st4, data);
    let rows = cleaned_rows(data);
    assert(rows.len() == data.len());
    assert(e + rows =~= rows);
    let st5 = ScanState { mode: ScanMode::InTable, rows: rows, blocks: eb };
    assert(scan_fold_from(st4, data) == st5);
    assert(seq![total].drop_last() =~= e);
    assert(seq![total].last() == total);
    assert(scan_fold_from(st5, e) == st5);
    let blocks = if data.len() > 0 {
        eb.push(rows)
    } else {
        eb
    };
    let st6 = ScanState { mode: ScanMode::Scanning, rows: e, blocks: blocks };
    assert(scan_fold_from(st5, seq![total]) == st6);
    lemma_scanning_skips(st6, post);
    assert(scan_fold(lines) == st6);
    assert(spec_blocks(lines) == blocks);
    if data.len() == 0 {
        assert(blocks.map_values(|r: Seq<Seq<char>>| spec_block_string(r)) =~= Seq::<
            Seq<char>,
        >::empty());
    } else {
        let bs = spec_block_string(rows);
        assert(blocks.map_values(|r: Seq<Seq<char>>| spec_block_string(r)) =~= seq![bs]);
        assert forall|i: int, j: int|
            0 <= i < rows.len() && 0 <= j < rows[i].len() implies #[trigger] rows[i][j] != '\n'
            && rows[i][j] != '\r' by {
            assert(rows[i] == spec_clean(spec_trim(data[i])));
            assert(forall|t: int| 0 <= t < data[i].len() ==> #[trigger] data[i][t] != '\n');
            assert(forall|t: int| 0 <= t < data[i].len() ==> #[trigger] data[i][t] != '\r');
            lemma_trim_absent(data[i], '\n');
            lemma_trim_absent(data[i], '\r');
            lemma_clean_absent(spec_trim(data[i]), '\n');
            lemma_clean_absent(spec_trim(data[i]), '\r');
        }
        lemma_block_roundtrip(rows);
        let h = header_text();
        lemma_header_chars();
        lemma_tok_fold_no_quote(h);
        assert(spec_tokenize(h) is Some);
        let ls = spec_lines(bs);
        assert(ls == seq![h] + rows);
        assert(ls.len() == rows.len() + 1);
        assert(ls[0] == h);
        assert(ls.drop_first() =~= rows);
        assert forall|i: int| 0 <= i < rows.len() implies (#[trigger] spec_tokenize(
            rows[i],
        )) is Some && spec_tokenize(rows[i])->Some_0.len() >= 10 by {
            assert(rows[i] == spec_clean(spec_trim(data[i])));
        }
        lemma_rows_all_long(rows);
        assert(spec_parse_block(bs) == rows_records(rows));
        assert(seq![bs].drop_last() =~= Seq::<Seq<char>>::empty());
        assert(seq![bs].last() == bs);
        assert(blocks_records(Seq::<Seq<char>>::empty()) == Some(Seq::<
            crate::manifest::ManifestView,
        >::empty()));
        let recs = rows_records(rows)->Some_0;
        assert(blocks_records(seq![bs]) == Some(
            Seq::<crate::manifest::ManifestView>::empty() + recs,
        ));
        assert((Seq::<crate::manifest::ManifestView>::empty() + recs).len() == recs.len());
    }
}

/// The same, stated of a whole document text: when the document's lines
/// decompose into free text, one "Item list" marker, blank lines, the
/// document's own header row, the data lines, a "Total" line and a tail,
/// the pipeline succeeds and emits exactly one record per data line.
pub proof fn lemma_single_region_document(
    text: Seq<char>,
    pre: Seq<Seq<char>>,
    marker: Seq<char>,
    blanks: Seq<Seq<char>>,
    hdr: Seq<char>,
    data: Seq<Seq<char>>,
    total: Seq<char>,
    post: Seq<Seq<char>>,
)
    requires
        spec_lines(text) == pre + seq![marker] + blanks + seq![hdr] + data + seq![total] + post,
        forall|i: int| 0 <= i < pre.len() ==> !spec_contains(#[trigger] pre[i], item_list_marker()),
        spec_contains(marker, item_list_marker()),
        forall|i: int| 0 <= i < blanks.len() ==> spec_trim(#[trigger] blanks[i]).len() == 0,
        spec_contains(hdr, description_marker()),
        spec_trim(hdr).len() > 0,
        forall|i: int|
            0 <= i < data.len() ==> spec_trim(#[trigger] data[i]).len() > 0 && !spec_starts_with(
                spec_trim(data[i]),
                dash_marker(),
            ) && !spec_starts_with(spec_trim(data[i]), total_marker()),
        forall|i: int, j: int|
            0 <= i < data.len() && 0 <= j < data[i].len() ==> #[trigger] data[i][j] != '\n'
                && data[i][j] != '\r',
        forall|i: int|
            0 <= i < data.len() ==> (#[trigger] spec_tokenize(
                spec_clean(spec_trim(data[i])),
            )) is Some && spec_tokenize(spec_clean(spec_trim(data[i])))->Some_0.len() >= 10,
        spec_starts_with(spec_trim(total), total_marker()),
        forall|i: int|
            0 <= i < post.len() ==> !spec_contains(#[trigger] post[i], item_list_marker()),
    ensures
        crate::manifest::spec_document_records(text) is Some,
        crate::manifest::spec_document_records(text)->Some_0.len() == data.len(),
{
    lemma_single_region(spec_lines(text), pre, marker, blanks, hdr, data, total, post);
}

} // verus!
