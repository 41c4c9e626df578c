//! A CSV line tokenizer: fields are separated by commas, a field that
//! opens with a double quote runs to the closing quote and may hold commas,
//! and a doubled quote inside a quoted field stands for one literal quote.
//! A quoted field left open at the end of the line is the one structural
//! error of the whole format.

use vstd::prelude::*;

verus! {

/// Where the tokenizer stands inside a line: at a field boundary, inside
/// an unquoted field, inside a quoted field, or just after a quote inside
/// a quoted field.
#[derive(Clone, Copy, Debug, PartialEq, Eq, Structural)]
pub enum TokMode {
    Start,
    Unquoted,
    InQuotes,
    QuoteInQuotes,
}

/// The tokenizer state: the mode, the finished fields, and the field
/// being read.
pub struct TokState {
    pub mode: TokMode,
    pub fields: Seq<Seq<char>>,
    pub cur: Seq<char>,
}

pub open spec fn tok_init() -> TokState {
    TokState { mode: TokMode::Start, fields: Seq::empty(), cur: Seq::empty() }
}

/// One tokenizer step over the next character of the line.
pub open spec fn tok_step(st: TokState, c: char) -> TokState {
    match st.mode {
        TokMode::Start => {
            if c == '"' {
                TokState { mode: TokMode::InQuotes, ..st }
            } else if c == ',' {
                TokState { fields: st.fields.push(st.cur), cur: Seq::empty(), ..st }
            } else {
                TokState { mode: TokMode::Unquoted, cur: st.cur.push(c), ..st }
            }
        },
        TokMode::Unquoted => {
            if c == ',' {
                TokState { mode: TokMode::Start, fields: st.fields.push(st.cur), cur: Seq::empty() }
            } else {
                TokState { cur: st.cur.push(c), ..st }
            }
        },
        TokMode::InQuotes => {
            if c == '"' {
                TokState { mode: TokMode::QuoteInQuotes, ..st }
            } else {
                TokState { cur: st.cur.push(c), ..st }
            }
        },
        TokMode::QuoteInQuotes => {
            if c == '"' {
                TokState { mode: TokMode::InQuotes, cur: st.cur.push('"'), ..st }
            } else if c == ',' {
                TokState { mode: TokMode::Start, fields: st.fields.push(st.cur), cur: Seq::empty() }
            } else {
                TokState { mode: TokMode::Unquoted, cur: st.cur.push(c), ..st }
            }
        },
    }
}

pub open spec fn tok_fold(s: Seq<char>) -> TokState
    decreases s.len(),
{
    if s.len() == 0 {
        tok_init()
    } else {
        tok_step(tok_fold(s.drop_last()), s.last())
    }
}

/// The fields of one CSV line, or nothing when a quoted field is left
/// unterminated.
pub open spec fn spec_tokenize(s: Seq<char>) -> Option<Seq<Seq<char>>> {
    let st = tok_fold(s);
    if st.mode is InQuotes {
        None
    } else {
        Some(st.fields.push(st.cur))
    }
}

/// Splits one line into its CSV fields; an unterminated quoted field
/// gives `None`.
pub fn tokenize_line(v: &Vec<char>) -> (r: Option<Vec<Vec<char>>>)
    ensures
        match r {
            Some(fields) => spec_tokenize(v@) == Some(fields.deep_view()),
            None => spec_tokenize(v@) is None,
        },
{
    let mut mode = TokMode::Start;
    let mut fields: Vec<Vec<char>> = Vec::new();
    let mut cur: Vec<char> = Vec::new();
    proof {
        assert(v@.take(0) =~= Seq::<char>::empty());
        assert(fields.deep_view() =~= tok_fold(v@.take(0)).fields);
    }
    let mut i: usize = 0;
    while i < v.len()
        invariant
            i <= v@.len(),
            mode == tok_fold(v@.take(i as int)).mode,
            fields.deep_view() == tok_fold(v@.take(i as int)).fields,
            cur@ == tok_fold(v@.take(i as int)).cur,
        decreases v@.len() - i,
    {
        let c = v[i];
        proof {
            assert(v@.take(i as int + 1).drop_last() =~= v@.take(i as int));
            assert(v@.take(i as int + 1).last() == v@[i as int]);
        }
        let ghost pre = fields.deep_view();
        match mode {
            TokMode::Start => {
                if c == '"' {
                    mode = TokMode::InQuotes;
                } else if c == ',' {
                    let done = cur;
                    let ghost dv = done@;
                    fields.push(done);
                    cur = Vec::new();
                    proof {
                        assert(fields.deep_view() =~~= pre.push(dv));
                    }
                } else {
                    mode = TokMode::Unquoted;
                    cur.push(c);
                }
            },
            TokMode::Unquoted => {
                if c == ',' {
                    mode = TokMode::Start;
                    let done = cur;
                    let ghost dv = done@;
                    fields.push(done);
                    cur = Vec::new();
                    proof {
                        assert(fields.deep_view() =~~= pre.push(dv));
                    }
                } else {
                    cur.push(c);
                }
            },
            TokMode::InQuotes => {
                if c == '"' {
                    mode = TokMode::QuoteInQuotes;
                } else {
                    cur.push(c);
                }
            },
            TokMode::QuoteInQuotes => {
                if c == '"' {
                    mode = TokMode::InQuotes;
                    cur.push('"');
                } else if c == ',' {
                    mode = TokMode::Start;
                    let done = cur;
                    let ghost dv = done@;
                    fields.push(done);
                    cur = Vec::new();
                    proof {
                        assert(fields.deep_view() =~~= pre.push(dv));
                    }
                } else {
                    mode = TokMode::Unquoted;
                    cur.push(c);
                }
            },
        }
        i += 1;
    }
    proof {
        assert(v@.take(v@.len() as int) =~= v@);
    }
    match mode {
        TokMode::InQuotes => None,
        _ => {
            let ghost pre = fields.deep_view();
            let ghost dv = cur@;
            fields.push(cur);
            proof {
                assert(fields.deep_view() =~~= pre.push(dv));
            }
            Some(fields)
        },
    }
}

} // verus!
