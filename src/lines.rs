//! Coverage per input line: every non-empty line is tokenized and counted
//! on its own.
use vstd::prelude::*;
use crate::lexicon::Lexicon;
use crate::matching::{counts, lexicon_sets, Coverage};
use crate::text::{chars_of, push_char};
use crate::tokens::{match_tokens, tokens_of};

verus! {

/// The pieces of `s` between newlines, as `str::split('\n')` gives them.
pub open spec fn split_lines(s: Seq<char>) -> Seq<Seq<char>>
    decreases s.len(),
{
    if s.len() == 0 {
        seq![seq![]]
    } else {
        let prev = split_lines(s.drop_last());
        if s.last() == '\n' {
            prev.push(seq![])
        } else {
            prev.update(prev.len() - 1, prev.last().push(s.last()))
        }
    }
}

/// The non-empty ones among `lines`, in order.
pub open spec fn non_empty(lines: Seq<Seq<char>>) -> Seq<Seq<char>>
    decreases lines.len(),
{
    if lines.len() == 0 {
        seq![]
    } else {
        let prev = non_empty(lines.drop_last());
        if lines.last().len() > 0 {
            prev.push(lines.last())
        } else {
            prev
        }
    }
}

/// `line` without its trailing carriage returns.
pub open spec fn trim_cr(line: Seq<char>) -> Seq<char>
    decreases line.len(),
{
    if line.len() > 0 && line.last() == '\r' {
        trim_cr(line.drop_last())
    } else {
        line
    }
}

proof fn lemma_split_nonempty(s: Seq<char>)
    ensures
        split_lines(s).len() > 0,
    decreases s.len(),
{
    if s.len() > 0 {
        lemma_split_nonempty(s.drop_last());
    }
}

/// One non-empty line, for display without trailing carriage returns, with
/// the token coverage of that line alone.
pub struct LineCoverage {
    pub line: String,
    pub coverage: Coverage,
}

/// `line` without its trailing carriage returns.
pub fn trim_trailing_cr(line: &Vec<char>) -> (r: String)
    ensures
        r@ == trim_cr(line@),
{
    let mut k: usize = line.len();
    proof {
        assert(line@.take(line@.len() as int) =~= line@);
    }
    while k > 0 && line[k - 1] == '\r'
        invariant
            0 <= k <= line@.len(),
            trim_cr(line@) == trim_cr(line@.take(k as int)),
        decreases k,
    {
        proof {
            assert(line@.take(k as int).drop_last() =~= line@.take(k as int - 1));
        }
        k = k - 1;
    }
    let mut out = String::new();
    let mut i: usize = 0;
    while i < k
        invariant
            0 <= i <= k <= line@.len(),
            out@ == line@.take(i as int),
        decreases k - i,
    {
        push_char(&mut out, line[i]);
        i = i + 1;
        proof {
            assert(out@ =~= line@.take(i as int));
        }
    }
    out
}

/// Coverage per line: for every non-empty line of `text`, in order, the line
/// (trailing carriage returns trimmed) and the coverage of its tokens that hold
/// a letter and have at least `min_len` characters. A line without such
/// tokens has a total of zero.
pub fn line_coverage(lexicons: &Vec<Lexicon>, text: &str, min_len: usize) -> (r: Vec<LineCoverage>)
    ensures
        r@.len() == non_empty(split_lines(text@)).len(),
        forall|k: int|
            0 <= k < r@.len() ==> {
                let l = #[trigger] non_empty(split_lines(text@))[k];
                &&& r@[k].line@ == trim_cr(l)
                &&& counts(r@[k].coverage, lexicon_sets(lexicons@), tokens_of(l, min_len as nat))
            },
{
    let chars = chars_of(text);
    let ghost s = text@;
    let ghost sets = lexicon_sets(lexicons@);
    let n = chars.len();
    let mut out: Vec<LineCoverage> = Vec::new();
    let mut cur = String::new();
    let mut cur_chars: Vec<char> = Vec::new();
    let mut i: usize = 0;
    proof {
        assert(s.take(0) =~= Seq::<char>::empty());
    }
    loop
        invariant
            chars@ == s,
            s == text@,
            n == s.len(),
            sets == lexicon_sets(lexicons@),
            0 <= i <= n,
            split_lines(s.take(i as int)).len() > 0,
            cur@ == split_lines(s.take(i as int)).last(),
            cur_chars@ == cur@,
            out@.len() == non_empty(split_lines(s.take(i as int)).drop_last()).len(),
            forall|k: int|
                0 <= k < out@.len() ==> {
                    let l = #[trigger] non_empty(split_lines(s.take(i as int)).drop_last())[k];
                    &&& out@[k].line@ == trim_cr(l)
                    &&& counts(out@[k].coverage, sets, tokens_of(l, min_len as nat))
                },
        decreases n - i + 1,
    {
        let ghost parts = split_lines(s.take(i as int));
        let ghost done = non_empty(parts.drop_last());
        let at_end = i == n;
        if at_end || chars[i] == '\n' {
            // the current line is complete
            if cur_chars.len() > 0 {
                let (_, cov) = match_tokens(lexicons, cur.as_str(), min_len);
                let shown = trim_trailing_cr(&cur_chars);
                let ghost before = out@;
                out.push(LineCoverage { line: shown, coverage: cov });
                proof {
                    assert(out@[before.len() as int].coverage == cov);
                    assert(counts(cov, sets, tokens_of(parts.last(), min_len as nat)));
                }
            }
            let ghost full = parts.drop_last().push(parts.last());
            proof {
                assert(non_empty(parts) == (if parts.last().len() > 0 {
                    done.push(parts.last())
                } else {
                    done
                }));
                assert(full =~= parts);
                assert(full.drop_last() =~= parts.drop_last());
                assert forall|k: int| 0 <= k < out@.len() implies {
                    let l = #[trigger] non_empty(parts)[k];
                    &&& out@[k].line@ == trim_cr(l)
                    &&& counts(out@[k].coverage, sets, tokens_of(l, min_len as nat))
                } by {
                    if k < done.len() {
                        assert(non_empty(parts)[k] == done[k]);
                    } else {
                        assert(non_empty(parts)[k] == parts.last());
                    }
                }
            }
            assert(out@.len() == non_empty(parts).len());
            if at_end {
                proof {
                    assert(s.take(i as int) =~= s);
                    assert(parts == split_lines(s));
                }
                return out;
            }
            proof {
                assert(s.take(i as int + 1).drop_last() =~= s.take(i as int));
                assert(split_lines(s.take(i as int + 1)).drop_last() =~= parts);
            }
            cur = String::new();
            cur_chars = Vec::new();
            i = i + 1;
        } else {
            let c = chars[i];
            push_char(&mut cur, c);
            cur_chars.push(c);
            proof {
                lemma_split_nonempty(s.take(i as int));
                assert(s.take(i as int + 1).drop_last() =~= s.take(i as int));
                let np = split_lines(s.take(i as int + 1));
                assert(np.drop_last() =~= parts.drop_last());
                assert(cur@ =~= np.last());
            }
            i = i + 1;
        }
    }
}

} // verus!
