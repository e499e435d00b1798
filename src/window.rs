//! The greedy window scanner for text without token delimiters: at every
//! character position, the longest window that fits is the one looked up.
use vstd::prelude::*;
use crate::lexicon::Lexicon;
use crate::matching::{
    aggregate, counts, in_any, lemma_matches_ordered, lexicon_sets, matches_of, matches_view, Coverage, Match,
};
use crate::text::{
    byte_count, byte_len, byte_offset, candidates_view, chars_of, char_width, lemma_offset_mono,
    lemma_offset_step, lemma_slice_bytes, push_char, span_of, Candidate,
};
use vstd::utf8::encode_utf8;

verus! {

/// Number of characters in the window that starts at index `i` of a text of
/// `n` characters: the configured maximum, or what is left of the text.
pub open spec fn window_len(n: int, i: int, max_len: int) -> int {
    if i + max_len <= n {
        max_len
    } else {
        n - i
    }
}

/// One window per character position of `s`, in text order; none at all when
/// the maximum is zero.
pub open spec fn windows_of(s: Seq<char>, max_len: nat) -> Seq<(Seq<char>, int, int)> {
    if max_len == 0 {
        seq![]
    } else {
        Seq::new(
            s.len(),
            |i: int| span_of(s, i, i + window_len(s.len() as int, i, max_len as int)),
        )
    }
}

/// Lists, for every character position of `text`, the window of at most
/// `max_len` characters that starts there, with its byte offsets.
pub fn scan_windows(text: &str, max_len: usize) -> (r: Vec<Candidate>)
    ensures
        candidates_view(r@) == windows_of(text@, max_len as nat),
{
    let mut out: Vec<Candidate> = Vec::new();
    if max_len == 0 {
        proof {
            assert(candidates_view(out@) =~= windows_of(text@, max_len as nat));
        }
        return out;
    }
    let chars = chars_of(text);
    let ghost s = text@;
    let n = chars.len();
    let total_bytes = byte_count(text);
    let mut begin: usize = 0;
    let mut i: usize = 0;
    proof {
        lemma_offset_mono(s, 0, n as int);
        assert(s.take(0) =~= Seq::<char>::empty());
    }
    while i < n
        invariant
            chars@ == s,
            n == s.len(),
            max_len > 0,
            total_bytes == byte_len(s),
            0 <= i <= n,
            begin == byte_offset(s, i as int),
            candidates_view(out@) =~= windows_of(s, max_len as nat).take(i as int),
        decreases n - i,
    {
        let stop: usize = if max_len <= n - i {
            i + max_len
        } else {
            n
        };
        let mut win = String::new();
        let mut end = begin;
        let mut j: usize = i;
        while j < stop
            invariant
                chars@ == s,
                n == s.len(),
                total_bytes == byte_len(s),
                i <= j <= stop <= n,
                end == byte_offset(s, j as int),
                win@ == s.subrange(i as int, j as int),
            decreases stop - j,
        {
            proof {
                lemma_offset_step(s, j as int);
                lemma_offset_mono(s, j as int + 1, n as int);
            }
            let c = chars[j];
            push_char(&mut win, c);
            end = end + char_width(c);
            j = j + 1;
            proof {
                assert(win@ =~= s.subrange(i as int, j as int));
            }
        }
        let ghost before = candidates_view(out@);
        out.push(Candidate { text: win, begin, end });
        proof {
            assert(candidates_view(out@) =~= before.push(
                span_of(s, i as int, stop as int),
            ));
            assert(windows_of(s, max_len as nat).take(i as int + 1) =~= windows_of(
                s,
                max_len as nat,
            ).take(i as int).push(windows_of(s, max_len as nat)[i as int]));
            lemma_offset_step(s, i as int);
            lemma_offset_mono(s, i as int + 1, n as int);
        }
        begin = begin + char_width(chars[i]);
        i = i + 1;
    }
    proof {
        assert(windows_of(s, max_len as nat).take(n as int) =~= windows_of(s, max_len as nat));
    }
    out
}

/// Windows never overlap in their starting position and never exceed the
/// configured number of characters: each position is tried once, with one
/// window.
pub proof fn lemma_one_window_per_position(s: Seq<char>, max_len: nat)
    ensures
        forall|i: int, j: int|
            0 <= i < j < windows_of(s, max_len).len() ==> #[trigger] windows_of(s, max_len)[i].1
                < #[trigger] windows_of(s, max_len)[j].1,
        forall|i: int|
            0 <= i < windows_of(s, max_len).len() ==> (#[trigger] windows_of(s, max_len)[i]).0.len()
                <= max_len,
{
    let w = windows_of(s, max_len);
    assert forall|i: int, j: int| 0 <= i < j < w.len() implies #[trigger] w[i].1
        < #[trigger] w[j].1 by {
        lemma_offset_mono(s, i, j);
    }
    assert forall|i: int| 0 <= i < w.len() implies (#[trigger] w[i]).0.len() <= max_len by {
        lemma_offset_mono(s, i, i);
    }
}

/// Greedy window mode: at every character position, looks up the longest
/// window of at most `max_len` characters that fits, in every lexicon.
/// Returns the windows that some lexicon holds and the character coverage.
pub fn match_windows(lexicons: &Vec<Lexicon>, text: &str, max_len: usize) -> (r: (Vec<Match>, Coverage))
    ensures
        matches_view(r.0@) == matches_of(lexicon_sets(lexicons@), windows_of(text@, max_len as nat)),
        counts(r.1, lexicon_sets(lexicons@), windows_of(text@, max_len as nat)),
{
    let cands = scan_windows(text, max_len);
    aggregate(lexicons, &cands)
}

/// In window mode at most one match is reported for each begin offset, and
/// every matched window holds between one character and the configured
/// maximum, is the text between its offsets, and is held by some lexicon.
pub proof fn lemma_window_matches(sets: Seq<Set<Seq<char>>>, s: Seq<char>, max_len: nat)
    ensures
        forall|i: int|
            0 <= i < matches_of(sets, windows_of(s, max_len)).len() ==> {
                let m = #[trigger] matches_of(sets, windows_of(s, max_len))[i];
                &&& 1 <= m.0.len()
                &&& 0 <= m.1 < m.2 <= encode_utf8(s).len()
                &&& encode_utf8(m.0) == encode_utf8(s).subrange(m.1, m.2)
                &&& in_any(sets, m.0)
            },
        forall|i: int, j: int|
            0 <= i < j < matches_of(sets, windows_of(s, max_len)).len() ==> #[trigger] matches_of(
                sets,
                windows_of(s, max_len),
            )[i].1 < #[trigger] matches_of(sets, windows_of(s, max_len))[j].1,
        forall|i: int|
            0 <= i < matches_of(sets, windows_of(s, max_len)).len() ==> (#[trigger] matches_of(
                sets,
                windows_of(s, max_len),
            )[i]).0.len() <= max_len,
{
    let w = windows_of(s, max_len);
    lemma_one_window_per_position(s, max_len);
    lemma_matches_ordered(sets, w);
    let m = matches_of(sets, w);
    assert forall|i: int| 0 <= i < m.len() implies (#[trigger] m[i]).0.len() <= max_len && {
        let x = m[i];
        &&& 1 <= x.0.len()
        &&& 0 <= x.1 < x.2 <= encode_utf8(s).len()
        &&& encode_utf8(x.0) == encode_utf8(s).subrange(x.1, x.2)
        &&& in_any(sets, x.0)
    } by {
        let k = choose|k: int|
            0 <= k < w.len() && m[i].0 == w[k].0 && m[i].1 == w[k].1 && m[i].2 == w[k].2 && in_any(
                sets,
                m[i].0,
            );
        assert(w[k].0.len() <= max_len);
        let e = k + window_len(s.len() as int, k, max_len as int);
        lemma_offset_mono(s, k, e);
        lemma_offset_mono(s, e, s.len() as int);
        assert(s.take(s.len() as int) =~= s);
        lemma_slice_bytes(s, k, e);
    }
}

} // verus!
