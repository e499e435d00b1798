//! The token scanner: maximal runs of alphanumeric characters, with their
//! byte offsets.
use vstd::prelude::*;
use crate::lexicon::Lexicon;
use crate::matching::{aggregate, counts, lexicon_sets, matches_of, matches_view, Coverage, Match};
use vstd::utf8::encode_utf8;
use crate::text::{lemma_slice_bytes, 
    alphabetic, alphanumeric, byte_len, byte_offset, candidates_view, byte_count, chars_of, char_width, is_alnum,
    is_alpha, lemma_offset_mono, lemma_offset_step, push_char, span_of, Candidate,
};
use vstd::string::*;

verus! {

/// Start of the alphanumeric run that ends just before index `k` of `s`.
pub open spec fn run_start(s: Seq<char>, k: int) -> int
    decreases k,
{
    if k > 0 && alphanumeric(s[k - 1]) {
        run_start(s, k - 1)
    } else {
        k
    }
}

/// A maximal alphanumeric run of `s` ends at index `k`.
pub open spec fn run_ends_at(s: Seq<char>, k: int) -> bool {
    &&& 0 < k <= s.len()
    &&& alphanumeric(s[k - 1])
    &&& (k == s.len() || !alphanumeric(s[k]))
}

/// A run is looked up when it holds a letter and at least `min_len` characters.
pub open spec fn qualifies(t: Seq<char>, min_len: nat) -> bool {
    &&& exists|j: int| 0 <= j < t.len() && alphabetic(#[trigger] t[j])
    &&& t.len() >= min_len
}

/// The character spans of the runs that end at or before index `k` and are
/// looked up, in text order.
pub open spec fn token_spans(s: Seq<char>, min_len: nat, k: int) -> Seq<(int, int)>
    decreases k,
{
    if k <= 0 {
        seq![]
    } else {
        let prev = token_spans(s, min_len, k - 1);
        if run_ends_at(s, k) && qualifies(s.subrange(run_start(s, k), k), min_len) {
            prev.push((run_start(s, k), k))
        } else {
            prev
        }
    }
}

/// The tokens of `s` that are looked up, as (characters, begin, end).
pub open spec fn tokens_of(s: Seq<char>, min_len: nat) -> Seq<(Seq<char>, int, int)> {
    token_spans(s, min_len, s.len() as int).map_values(|p: (int, int)| span_of(s, p.0, p.1))
}

proof fn lemma_run_start_bounds(s: Seq<char>, k: int)
    requires
        0 <= k <= s.len(),
    ensures
        0 <= run_start(s, k) <= k,
        run_start(s, k) > 0 ==> !alphanumeric(s[run_start(s, k) - 1]),
        forall|j: int| run_start(s, k) <= j < k ==> alphanumeric(#[trigger] s[j]),
    decreases k,
{
    if k > 0 && alphanumeric(s[k - 1]) {
        lemma_run_start_bounds(s, k - 1);
    }
}

proof fn lemma_spans_bounds(s: Seq<char>, min_len: nat, k: int)
    requires
        0 <= k <= s.len(),
    ensures
        forall|i: int|
            0 <= i < token_spans(s, min_len, k).len() ==> {
                let p = #[trigger] token_spans(s, min_len, k)[i];
                0 <= p.0 < p.1 <= k
            },
        forall|i: int, j: int|
            0 <= i < j < token_spans(s, min_len, k).len() ==> #[trigger] token_spans(
                s,
                min_len,
                k,
            )[i].1 < #[trigger] token_spans(s, min_len, k)[j].0,
    decreases k,
{
    if k > 0 {
        lemma_spans_bounds(s, min_len, k - 1);
        lemma_run_start_bounds(s, k);
        let st = run_start(s, k);
        let prev = token_spans(s, min_len, k - 1);
        assert forall|i: int| 0 <= i < prev.len() implies #[trigger] prev[i].1 < st by {
            let p = prev[i];
            lemma_end_is_run_end(s, min_len, k - 1, i);
            if p.1 >= st {
                assert(alphanumeric(s[p.1 as int]));
            }
        }
        let cur = token_spans(s, min_len, k);
        if run_ends_at(s, k) && qualifies(s.subrange(st, k), min_len) {
            assert forall|i: int, j: int| 0 <= i < j < cur.len() implies #[trigger] cur[i].1
                < #[trigger] cur[j].0 by {
                if j == cur.len() - 1 {
                    assert(cur[i] == prev[i]);
                } else {
                    assert(cur[i] == prev[i] && cur[j] == prev[j]);
                }
            }
        }
    }
}

proof fn lemma_end_is_run_end(s: Seq<char>, min_len: nat, k: int, i: int)
    requires
        0 <= k <= s.len(),
        0 <= i < token_spans(s, min_len, k).len(),
    ensures
        run_ends_at(s, token_spans(s, min_len, k)[i].1),
        token_spans(s, min_len, k)[i].1 <= k,
        token_spans(s, min_len, k)[i].0 == run_start(s, token_spans(s, min_len, k)[i].1),
    decreases k,
{
    if k > 0 {
        let prev = token_spans(s, min_len, k - 1);
        if i < prev.len() {
            lemma_end_is_run_end(s, min_len, k - 1, i);
        }
    }
}

/// Splits `text` into maximal runs of alphanumeric characters and keeps those
/// that hold a letter and have at least `min_len` characters, with the byte
/// offsets where each begins and ends.
pub fn scan_tokens(text: &str, min_len: usize) -> (r: Vec<Candidate>)
    ensures
        candidates_view(r@) == tokens_of(text@, min_len as nat),
{
    let chars = chars_of(text);
    let ghost s = text@;
    let n = chars.len();
    let total_bytes = byte_count(text);
    let mut out: Vec<Candidate> = Vec::new();
    let mut tok = String::new();
    let mut has_alpha = false;
    let mut start_byte: usize = 0;
    let mut start: usize = 0;
    let mut byte: usize = 0;
    let mut i: usize = 0;
    proof {
        lemma_offset_mono(s, 0, n as int);
        assert(s.take(0) =~= Seq::<char>::empty());
    }
    while i < n
        invariant
            chars@ == s,
            n == s.len(),
            total_bytes == byte_len(s),
            0 <= i <= n,
            byte == byte_offset(s, i as int),
            candidates_view(out@) == token_spans(s, min_len as nat, i as int).map_values(
                |p: (int, int)| span_of(s, p.0, p.1),
            ),
            i > 0 && alphanumeric(s[i - 1]) && !run_ends_at(s, i as int) ==> {
                &&& tok@ == s.subrange(run_start(s, i as int), i as int)
                &&& start_byte == byte_offset(s, run_start(s, i as int))
                &&& start as int == run_start(s, i as int)
            },
            has_alpha == exists|j: int| 0 <= j < tok@.len() && alphabetic(#[trigger] tok@[j]),
            !(i > 0 && alphanumeric(s[i - 1]) && !run_ends_at(s, i as int)) ==> tok@.len()
                == 0,
        decreases n - i,
    {
        let c = chars[i];
        let w = char_width(c);
        let ghost k = i as int + 1;
        let ghost spans_before = token_spans(s, min_len as nat, i as int);
        let ghost view_before = candidates_view(out@);
        proof {
            lemma_offset_step(s, i as int);
            lemma_offset_mono(s, k, n as int);
            lemma_run_start_bounds(s, k);
            lemma_run_start_bounds(s, i as int);
        }
        if is_alnum(c) {
            proof {
                if i > 0 && alphanumeric(s[i - 1]) {
                    assert(run_start(s, k) == run_start(s, i as int));
                } else {
                    assert(run_start(s, k) == run_start(s, i as int));
                    assert(run_start(s, i as int) == i);
                }
            }
            if i == 0 || !is_alnum(chars[i - 1]) {
                start_byte = byte;
                start = i;
            }
            let ghost tok_before = tok@;
            let ghost alpha_before = has_alpha;
            push_char(&mut tok, c);
            if is_alpha(c) {
                has_alpha = true;
            }
            proof {
                assert(tok@ =~= s.subrange(run_start(s, k), k));
                if alpha_before {
                    let j = choose|j: int| 0 <= j < tok_before.len() && alphabetic(
                        #[trigger] tok_before[j],
                    );
                    assert(tok@[j] == tok_before[j]);
                }
                if alphabetic(c) {
                    assert(tok@[tok@.len() - 1] == c);
                }
                if has_alpha {
                    assert(exists|j: int| 0 <= j < tok@.len() && alphabetic(#[trigger] tok@[j]));
                } else {
                    assert forall|j: int| 0 <= j < tok@.len() implies !alphabetic(
                        #[trigger] tok@[j],
                    ) by {
                        if j < tok_before.len() {
                            assert(tok@[j] == tok_before[j]);
                        }
                    }
                }
            }
            let at_end = i + 1 == n || !is_alnum(chars[i + 1]);
            if at_end {
                proof {
                    assert(run_ends_at(s, k));
                    assert(tok@.len() == k - start);
                }
                if has_alpha && i + 1 - start >= min_len {
                    let ghost tv = tok@;
                    out.push(Candidate { text: tok, begin: start_byte, end: byte + w });
                    proof {
                        assert(qualifies(tv, min_len as nat));
                        assert(token_spans(s, min_len as nat, k) == spans_before.push(
                            (run_start(s, k), k),
                        ));
                        assert(candidates_view(out@) =~= view_before.push(
                            span_of(s, run_start(s, k), k),
                        ));
                        assert(token_spans(s, min_len as nat, k).map_values(
                            |p: (int, int)| span_of(s, p.0, p.1),
                        ) =~= spans_before.map_values(|p: (int, int)| span_of(s, p.0, p.1)).push(
                            span_of(s, run_start(s, k), k),
                        ));
                    }
                } else {
                    proof {
                        assert(!qualifies(tok@, min_len as nat));
                        assert(token_spans(s, min_len as nat, k) == spans_before);
                    }
                }
                tok = String::new();
                has_alpha = false;
            } else {
                proof {
                    assert(!run_ends_at(s, k));
                    assert(token_spans(s, min_len as nat, k) == spans_before);
                }
            }
        } else {
            proof {
                assert(!run_ends_at(s, k));
                assert(token_spans(s, min_len as nat, k) == spans_before);
            }
            tok = String::new();
            has_alpha = false;
        }
        byte = byte + w;
        i = i + 1;
    }
    proof {
        assert(candidates_view(out@) =~= tokens_of(s, min_len as nat));
    }
    out
}

/// Token mode: looks every token of `text` that holds a letter and has at
/// least `min_len` characters up in every lexicon. Returns the tokens that some
/// lexicon holds and the token coverage.
pub fn match_tokens(lexicons: &Vec<Lexicon>, text: &str, min_len: usize) -> (r: (Vec<Match>, Coverage))
    ensures
        matches_view(r.0@) == matches_of(lexicon_sets(lexicons@), tokens_of(text@, min_len as nat)),
        counts(r.1, lexicon_sets(lexicons@), tokens_of(text@, min_len as nat)),
{
    let cands = scan_tokens(text, min_len);
    aggregate(lexicons, &cands)
}

/// The bytes of a text rebuilt from its tokens: the gap before each token,
/// then the token's own encoding, and at last what follows the last token.
pub open spec fn rebuild(bytes: Seq<u8>, toks: Seq<(Seq<char>, int, int)>, from: int) -> Seq<u8>
    decreases toks.len(),
{
    if toks.len() == 0 {
        bytes.subrange(from, bytes.len() as int)
    } else {
        bytes.subrange(from, toks[0].1) + encode_utf8(toks[0].0) + rebuild(
            bytes,
            toks.drop_first(),
            toks[0].2,
        )
    }
}

proof fn lemma_rebuild_general(bytes: Seq<u8>, toks: Seq<(Seq<char>, int, int)>, from: int)
    requires
        0 <= from <= bytes.len(),
        forall|i: int|
            0 <= i < toks.len() ==> from <= (#[trigger] toks[i]).1 <= toks[i].2 <= bytes.len(),
        forall|i: int, j: int| 0 <= i < j < toks.len() ==> #[trigger] toks[i].2 <= #[trigger] toks[j].1,
        forall|i: int|
            0 <= i < toks.len() ==> encode_utf8((#[trigger] toks[i]).0) == bytes.subrange(
                toks[i].1,
                toks[i].2,
            ),
    ensures
        rebuild(bytes, toks, from) == bytes.subrange(from, bytes.len() as int),
    decreases toks.len(),
{
    if toks.len() > 0 {
        let rest = toks.drop_first();
        assert forall|i: int| 0 <= i < rest.len() implies toks[0].2 <= (#[trigger] rest[i]).1
            <= rest[i].2 <= bytes.len() by {
            assert(rest[i] == toks[i + 1]);
        }
        assert forall|i: int, j: int| 0 <= i < j < rest.len() implies #[trigger] rest[i].2
            <= #[trigger] rest[j].1 by {
            assert(rest[i] == toks[i + 1] && rest[j] == toks[j + 1]);
        }
        assert forall|i: int| 0 <= i < rest.len() implies encode_utf8((#[trigger] rest[i]).0)
            == bytes.subrange(rest[i].1, rest[i].2) by {
            assert(rest[i] == toks[i + 1]);
        }
        lemma_rebuild_general(bytes, rest, toks[0].2);
        assert(bytes.subrange(from, toks[0].1) + bytes.subrange(toks[0].1, toks[0].2)
            + bytes.subrange(toks[0].2, bytes.len() as int) =~= bytes.subrange(
            from,
            bytes.len() as int,
        ));
    }
}

/// The tokens, with the text between them put back, give the text again,
/// byte for byte. Each token is non-empty, made of alphanumeric characters,
/// and its bytes are the bytes of the text between its offsets; tokens come
/// in order without overlap.
pub proof fn lemma_tokens_rebuild_text(s: Seq<char>, min_len: nat)
    ensures
        rebuild(encode_utf8(s), tokens_of(s, min_len), 0) == encode_utf8(s),
        forall|i: int|
            0 <= i < tokens_of(s, min_len).len() ==> 0 <= (#[trigger] tokens_of(s, min_len)[i]).1
                < tokens_of(s, min_len)[i].2 <= encode_utf8(s).len(),
        forall|i: int|
            0 <= i < tokens_of(s, min_len).len() ==> encode_utf8(
                (#[trigger] tokens_of(s, min_len)[i]).0,
            ) == encode_utf8(s).subrange(tokens_of(s, min_len)[i].1, tokens_of(s, min_len)[i].2),
        forall|i: int, j: int|
            0 <= i < j < tokens_of(s, min_len).len() ==> #[trigger] tokens_of(s, min_len)[i].2
                <= #[trigger] tokens_of(s, min_len)[j].1,
        forall|i: int, c: int|
            0 <= i < tokens_of(s, min_len).len() && 0 <= c < tokens_of(s, min_len)[i].0.len()
                ==> alphanumeric(#[trigger] tokens_of(s, min_len)[i].0[c]),
{
    let toks = tokens_of(s, min_len);
    let spans = token_spans(s, min_len, s.len() as int);
    let bytes = encode_utf8(s);
    lemma_spans_bounds(s, min_len, s.len() as int);
    assert(s.take(s.len() as int) =~= s);
    assert forall|i: int| 0 <= i < toks.len() implies 0 <= (#[trigger] toks[i]).1 < toks[i].2
        <= bytes.len() by {
        lemma_offset_mono(s, spans[i].0, spans[i].1);
        lemma_offset_mono(s, spans[i].1, s.len() as int);
    }
    assert forall|i: int, c: int| 0 <= i < toks.len() && 0 <= c < toks[i].0.len() implies alphanumeric(
        #[trigger] toks[i].0[c],
    ) by {
        lemma_end_is_run_end(s, min_len, s.len() as int, i);
        lemma_run_start_bounds(s, spans[i].1);
        assert(toks[i].0[c] == s[spans[i].0 + c]);
    }
    assert forall|i: int, j: int| 0 <= i < j < toks.len() implies #[trigger] toks[i].2
        <= #[trigger] toks[j].1 by {
        lemma_offset_mono(s, spans[i].1, spans[j].0);
    }
    assert forall|i: int| 0 <= i < toks.len() implies encode_utf8((#[trigger] toks[i]).0)
        == bytes.subrange(toks[i].1, toks[i].2) by {
        lemma_slice_bytes(s, spans[i].0, spans[i].1);
    }
    lemma_rebuild_general(bytes, toks, 0);
    assert(bytes.subrange(0, bytes.len() as int) =~= bytes);
}

proof fn lemma_run_end_after(s: Seq<char>, c: int)
    requires
        0 <= c < s.len(),
        alphanumeric(s[c]),
    ensures
        exists|e: int| c < e <= s.len() && #[trigger] run_ends_at(s, e) && run_start(s, e) <= c,
    decreases s.len() - c,
{
    lemma_run_start_bounds(s, c);
    if c + 1 == s.len() || !alphanumeric(s[c + 1]) {
        assert(run_start(s, c + 1) == run_start(s, c));
        assert(run_ends_at(s, c + 1));
    } else {
        lemma_run_end_after(s, c + 1);
        let e = choose|e: int| c + 1 < e <= s.len() && #[trigger] run_ends_at(s, e) && run_start(s, e) <= c + 1;
        lemma_run_start_bounds(s, e);
    }
}

proof fn lemma_span_listed(s: Seq<char>, min_len: nat, k: int, e: int)
    requires
        0 < e <= k <= s.len(),
        run_ends_at(s, e),
        qualifies(s.subrange(run_start(s, e), e), min_len),
    ensures
        token_spans(s, min_len, k).contains((run_start(s, e), e)),
    decreases k,
{
    let t = token_spans(s, min_len, k);
    if k == e {
        assert(t[t.len() - 1] == (run_start(s, e), e));
    } else {
        lemma_span_listed(s, min_len, k - 1, e);
        let prev = token_spans(s, min_len, k - 1);
        let j = choose|j: int| 0 <= j < prev.len() && prev[j] == (run_start(s, e), e);
        assert(t[j] == prev[j]);
    }
}

/// Where every maximal alphanumeric run qualifies for lookup (each holds a
/// letter and is long enough), every alphanumeric character lies inside a
/// token: the gaps between tokens hold no alphanumeric character.
pub proof fn lemma_gaps_not_alphanumeric(s: Seq<char>, min_len: nat, c: int)
    requires
        0 <= c < s.len(),
        alphanumeric(s[c]),
        forall|k: int| #[trigger] run_ends_at(s, k) ==> qualifies(s.subrange(run_start(s, k), k), min_len),
    ensures
        exists|i: int|
            0 <= i < token_spans(s, min_len, s.len() as int).len() && (#[trigger] token_spans(
                s,
                min_len,
                s.len() as int,
            )[i]).0 <= c < token_spans(s, min_len, s.len() as int)[i].1,
{
    lemma_run_end_after(s, c);
    let e = choose|e: int| c < e <= s.len() && #[trigger] run_ends_at(s, e) && run_start(s, e) <= c;
    lemma_span_listed(s, min_len, s.len() as int, e);
    let t = token_spans(s, min_len, s.len() as int);
    let i = choose|i: int| 0 <= i < t.len() && t[i] == (run_start(s, e), e);
    assert(t[i].0 <= c < t[i].1);
}

} // verus!
