//! Substring mode: every entry of a lexicon is looked up in a suffix table of
//! the text, and its occurrences are kept whole or filtered to the exact ones.
use vstd::prelude::*;
use vstd::string::*;
use vstd::utf8::encode_utf8;
use suffix::SuffixTable;
use crate::lexicon::Lexicon;
use crate::text::{alphanumeric, byte_count, byte_len};

verus! {

#[verifier::external_type_specification]
#[verifier::external_body]
pub struct ExSuffixTable<'s, 't>(SuffixTable<'s, 't>);

/// The bytes of the text that a suffix table was built on.
pub uninterp spec fn indexed_bytes(t: SuffixTable<'static, 'static>) -> Seq<u8>;

/// The start offsets that a suffix table built on `text` reports for `query`,
/// in the table's own order.
pub uninterp spec fn positions_of(text: Seq<u8>, query: Seq<u8>) -> Seq<u32>;

/// `query` occurs in `text` at byte offset `p`.
pub open spec fn occurs_at(text: Seq<u8>, query: Seq<u8>, p: int) -> bool {
    &&& 0 <= p
    &&& p + query.len() <= text.len()
    &&& text.subrange(p, p + query.len()) == query
}

/// Relies on `suffix::SuffixTable::new`: the table keeps the text it was built
/// on, which may be at most `u32::MAX` bytes long (construction asserts it).
#[verifier::external_body]
fn build_suffixarray(text: &str) -> (r: SuffixTable<'static, 'static>)
    requires
        byte_len(text@) <= u32::MAX,
    ensures
        indexed_bytes(r) == text.spec_bytes(),
{
    SuffixTable::new(text.to_string())
}

/// Relies on `suffix::SuffixTable::positions`: the byte offsets of every
/// occurrence of `query` in the indexed text, overlapping ones included, each
/// once (the result is a slice of the suffix table, which holds every byte
/// index once), in no particular order.
#[verifier::external_body]
fn table_positions(t: &SuffixTable<'static, 'static>, query: &str) -> (r: Vec<u32>)
    ensures
        r@ == positions_of(indexed_bytes(*t), query.spec_bytes()),
        r@.no_duplicates(),
        forall|i: int|
            0 <= i < r@.len() ==> occurs_at(indexed_bytes(*t), query.spec_bytes(), #[trigger] r@[i] as int),
        query.spec_bytes().len() > 0 ==> forall|p: u32|
            occurs_at(indexed_bytes(*t), query.spec_bytes(), p as int) ==> #[trigger] r@.contains(p),
{
    t.positions(query).to_vec()
}

/// The occurrence at `p` of a pattern of `len` bytes is not embedded in a
/// larger alphanumeric run: neither the byte before it nor the byte after it,
/// where they exist, reads as an alphanumeric character.
pub open spec fn is_exact(text: Seq<u8>, p: int, len: int) -> bool {
    &&& !(0 < p <= text.len() && alphanumeric((text[p - 1]) as char))
    &&& !(0 <= p + len < text.len() && alphanumeric((text[p + len]) as char))
}

/// The positions of `ps` that are exact, in their order.
pub open spec fn exact_only(text: Seq<u8>, ps: Seq<u32>, len: int) -> Seq<u32>
    decreases ps.len(),
{
    if ps.len() == 0 {
        seq![]
    } else {
        let prev = exact_only(text, ps.drop_last(), len);
        if is_exact(text, ps.last() as int, len) {
            prev.push(ps.last())
        } else {
            prev
        }
    }
}

/// Keeps the positions at which an occurrence of a pattern of `pattern_len`
/// bytes is not embedded in a larger alphanumeric run, in their order.
pub fn exact_positions(text: &[u8], positions: &Vec<u32>, pattern_len: usize) -> (r: Vec<u32>)
    ensures
        r@ == exact_only(text@, positions@, pattern_len as int),
{
    let n = text.len();
    let mut out: Vec<u32> = Vec::new();
    let mut i: usize = 0;
    proof {
        assert(positions@.take(0) =~= Seq::<u32>::empty());
    }
    while i < positions.len()
        invariant
            n == text@.len(),
            0 <= i <= positions@.len(),
            out@ == exact_only(text@, positions@.take(i as int), pattern_len as int),
        decreases positions@.len() - i,
    {
        let p = positions[i] as usize;
        let before_ok = !(0 < p && p <= n && crate::text::is_alnum(text[p - 1] as char));
        let after_ok = !(p < n && pattern_len < n - p && crate::text::is_alnum(
            text[p + pattern_len] as char,
        ));
        proof {
            assert(positions@.take(i as int + 1).drop_last() =~= positions@.take(i as int));
        }
        if before_ok && after_ok {
            out.push(positions[i]);
        }
        i = i + 1;
    }
    proof {
        assert(positions@.take(positions@.len() as int) =~= positions@);
    }
    out
}

/// Filtering a list without repeats gives a list without repeats.
pub proof fn lemma_exact_no_duplicates(text: Seq<u8>, ps: Seq<u32>, len: int)
    requires
        ps.no_duplicates(),
    ensures
        exact_only(text, ps, len).no_duplicates(),
    decreases ps.len(),
{
    if ps.len() > 0 {
        let pre = ps.drop_last();
        assert(pre.no_duplicates()) by {
            assert forall|x: int, y: int| 0 <= x < pre.len() && 0 <= y < pre.len() && x != y
                implies pre[x] != pre[y] by {
                assert(pre[x] == ps[x] && pre[y] == ps[y]);
            }
        }
        lemma_exact_no_duplicates(text, pre, len);
        lemma_exact_within_all(text, pre, len);
        let e = exact_only(text, ps, len);
        let ep = exact_only(text, pre, len);
        if is_exact(text, ps.last() as int, len) {
            assert forall|x: int, y: int| 0 <= x < e.len() && 0 <= y < e.len() && x != y
                implies e[x] != e[y] by {
                if x < ep.len() && y < ep.len() {
                    assert(e[x] == ep[x] && e[y] == ep[y]);
                } else {
                    let z = if x < ep.len() { x } else { y };
                    assert(e[z] == ep[z]);
                    assert(pre.contains(ep[z]));
                    let k = choose|k: int| 0 <= k < pre.len() && pre[k] == ep[z];
                    assert(ps[k] == pre[k]);
                    assert(ps[ps.len() - 1] != ps[k]);
                }
            }
        }
    }
}

/// Every exact position is also a position of the unfiltered list, and is exact.
pub proof fn lemma_exact_within_all(text: Seq<u8>, ps: Seq<u32>, len: int)
    ensures
        forall|i: int|
            0 <= i < exact_only(text, ps, len).len() ==> ps.contains(
                #[trigger] exact_only(text, ps, len)[i],
            ) && is_exact(text, exact_only(text, ps, len)[i] as int, len),
    decreases ps.len(),
{
    if ps.len() > 0 {
        let pre = ps.drop_last();
        lemma_exact_within_all(text, pre, len);
        let e = exact_only(text, ps, len);
        let ep = exact_only(text, pre, len);
        assert forall|i: int| 0 <= i < e.len() implies ps.contains(#[trigger] e[i]) && is_exact(
            text,
            e[i] as int,
            len,
        ) by {
            if i < ep.len() {
                assert(e[i] == ep[i]);
                let k = choose|k: int| 0 <= k < pre.len() && pre[k] == ep[i];
                assert(ps[k] == pre[k]);
            } else {
                assert(ps[ps.len() - 1] == e[i]);
            }
        }
    }
}

proof fn lemma_encode_nonempty(s: Seq<char>)
    requires
        s.len() > 0,
    ensures
        encode_utf8(s).len() > 0,
{
    vstd::utf8::char_is_scalar(s[0]);
}

/// What holds of the positions reported for `entry`: each comes once and is
/// an occurrence, exact under the exact policy; under the all-matches policy
/// every occurrence of a non-empty entry is there.
pub open spec fn reported_positions(bytes: Seq<u8>, entry: Seq<char>, ps: Seq<u32>, exact: bool) -> bool {
    &&& ps.no_duplicates()
    &&& forall|i: int| 0 <= i < ps.len() ==> occurs_at(bytes, encode_utf8(entry), #[trigger] ps[i] as int)
    &&& exact ==> forall|i: int|
        0 <= i < ps.len() ==> is_exact(bytes, #[trigger] ps[i] as int, encode_utf8(entry).len() as int)
    &&& !exact && entry.len() > 0 ==> forall|p: u32|
        occurs_at(bytes, encode_utf8(entry), p as int) ==> #[trigger] ps.contains(p)
}

/// The positions reported for one entry under either policy.
pub open spec fn entry_positions(bytes: Seq<u8>, entry: Seq<char>, exact: bool) -> Seq<u32> {
    let raw = positions_of(bytes, encode_utf8(entry));
    if exact {
        exact_only(bytes, raw, encode_utf8(entry).len() as int)
    } else {
        raw
    }
}

/// What substring mode reports for the entries `entries` of one lexicon: the
/// entries, in order, whose number of positions reaches `threshold`, each with
/// its positions.
pub open spec fn substring_results(
    bytes: Seq<u8>,
    entries: Seq<Seq<char>>,
    exact: bool,
    threshold: nat,
) -> Seq<(Seq<char>, Seq<u32>)>
    decreases entries.len(),
{
    if entries.len() == 0 {
        seq![]
    } else {
        let prev = substring_results(bytes, entries.drop_last(), exact, threshold);
        let e = entries.last();
        let ps = entry_positions(bytes, e, exact);
        if ps.len() >= threshold {
            prev.push((e, ps))
        } else {
            prev
        }
    }
}

/// The positions that the exact policy reports for an entry are among those
/// that the all-matches policy reports for it.
pub proof fn lemma_exact_subset_of_all(bytes: Seq<u8>, entry: Seq<char>)
    ensures
        forall|i: int|
            0 <= i < entry_positions(bytes, entry, true).len() ==> entry_positions(
                bytes,
                entry,
                false,
            ).contains(#[trigger] entry_positions(bytes, entry, true)[i]),
{
    lemma_exact_within_all(
        bytes,
        positions_of(bytes, encode_utf8(entry)),
        encode_utf8(entry).len() as int,
    );
}

/// Substring mode depends on the entries, the text and the settings alone:
/// run twice on the same inputs, it reports the same entries with the same
/// positions in the same order.
pub proof fn lemma_substring_repeatable(
    bytes1: Seq<u8>,
    bytes2: Seq<u8>,
    entries1: Seq<Seq<char>>,
    entries2: Seq<Seq<char>>,
    exact: bool,
    threshold: nat,
)
    requires
        bytes1 == bytes2,
        entries1 == entries2,
    ensures
        substring_results(bytes1, entries1, exact, threshold) == substring_results(
            bytes2,
            entries2,
            exact,
            threshold,
        ),
{
}

/// One lexicon entry with the start offsets of its occurrences and its length
/// in bytes (an occurrence at `b` ends at `b + pattern_len`).
pub struct EntryMatches {
    pub entry: String,
    pub begins: Vec<u32>,
    pub pattern_len: usize,
}

impl View for EntryMatches {
    type V = (Seq<char>, Seq<u32>);

    open spec fn view(&self) -> (Seq<char>, Seq<u32>) {
        (self.entry@, self.begins@)
    }
}

/// A text with a suffix table built on it.
pub struct TextIndex {
    text: String,
    table: SuffixTable<'static, 'static>,
}

impl TextIndex {
    /// The indexed text.
    pub closed spec fn text_view(&self) -> Seq<char> {
        self.text@
    }

    /// The table was built on the text.
    pub closed spec fn wf(&self) -> bool {
        indexed_bytes(self.table) == encode_utf8(self.text@)
    }

    /// Builds the suffix table of `text`; `None` when the text is longer than
    /// `u32::MAX` bytes, which a table cannot address.
    pub fn new(text: String) -> (r: Option<TextIndex>)
        ensures
            r is None <==> byte_len(text@) > u32::MAX,
            r matches Some(ix) ==> ix.wf() && ix.text_view() == text@,
    {
        let n = byte_count(text.as_str());
        if n > 0xFFFF_FFFF {
            return None;
        }
        let table = build_suffixarray(text.as_str());
        Some(TextIndex { text, table })
    }

    /// The indexed text.
    pub fn text(&self) -> (r: &str)
        ensures
            r@ == self.text_view(),
    {
        self.text.as_str()
    }

    /// The positions of `entry` in the text, filtered to the exact ones when
    /// `exact` holds. Each is an occurrence and comes once; without the
    /// filter, every occurrence of a non-empty entry is there.
    pub fn entry_positions(&self, entry: &str, exact: bool) -> (r: Vec<u32>)
        requires
            self.wf(),
        ensures
            r@ == entry_positions(encode_utf8(self.text_view()), entry@, exact),
            reported_positions(encode_utf8(self.text_view()), entry@, r@, exact),
    {
        proof {
            if entry@.len() > 0 {
                lemma_encode_nonempty(entry@);
            }
        }
        let raw = table_positions(&self.table, entry);
        if exact {
            let bytes = self.text.as_str().as_bytes();
            let len = byte_count(entry);
            let r = exact_positions(bytes, &raw, len);
            proof {
                lemma_exact_within_all(bytes@, raw@, len as int);
                lemma_exact_no_duplicates(bytes@, raw@, len as int);
                assert forall|i: int| 0 <= i < r@.len() implies occurs_at(
                    encode_utf8(self.text_view()),
                    encode_utf8(entry@),
                    #[trigger] r@[i] as int,
                ) by {
                    let k = choose|k: int| 0 <= k < raw@.len() && raw@[k] == r@[i];
                }
            }
            r
        } else {
            raw
        }
    }

    /// Substring mode for one lexicon: for each entry, in the lexicon's order,
    /// its positions under the chosen policy, reported when their number
    /// reaches `threshold` (a threshold of zero reports every entry). Each
    /// list of positions is as `reported_positions` describes.
    pub fn lexicon_matches(&self, lexicon: &Lexicon, exact: bool, threshold: usize) -> (r: Vec<EntryMatches>)
        requires
            self.wf(),
            lexicon.wf(),
        ensures
            r@.map_values(|m: EntryMatches| m@) == substring_results(
                encode_utf8(self.text_view()),
                lexicon.entry_seq(),
                exact,
                threshold as nat,
            ),
            forall|k: int|
                0 <= k < r@.len() ==> reported_positions(
                    encode_utf8(self.text_view()),
                    (#[trigger] r@[k]).entry@,
                    r@[k].begins@,
                    exact,
                ),
    {
        let ghost bytes = encode_utf8(self.text_view());
        let ghost es = lexicon.entry_seq();
        let mut out: Vec<EntryMatches> = Vec::new();
        let mut i: usize = 0;
        proof {
            assert(es.take(0) =~= Seq::<Seq<char>>::empty());
            assert(out@.map_values(|m: EntryMatches| m@) =~= Seq::<(Seq<char>, Seq<u32>)>::empty());
        }
        while i < lexicon.len()
            invariant
                self.wf(),
                bytes == encode_utf8(self.text_view()),
                es == lexicon.entry_seq(),
                0 <= i <= es.len(),
                out@.map_values(|m: EntryMatches| m@) == substring_results(
                    bytes,
                    es.take(i as int),
                    exact,
                    threshold as nat,
                ),
                forall|k: int|
                    0 <= k < out@.len() ==> reported_positions(
                        bytes,
                        (#[trigger] out@[k]).entry@,
                        out@[k].begins@,
                        exact,
                    ),
            decreases es.len() - i,
        {
            let entry = lexicon.entry(i);
            let begins = self.entry_positions(entry.as_str(), exact);
            proof {
                assert(es.take(i as int + 1).drop_last() =~= es.take(i as int));
            }
            if begins.len() >= threshold {
                let ghost before = out@.map_values(|m: EntryMatches| m@);
                let pattern_len = byte_count(entry.as_str());
                let m = EntryMatches { entry: entry.clone(), begins, pattern_len };
                let ghost old_out = out@;
                out.push(m);
                proof {
                    assert(out@.map_values(|m: EntryMatches| m@) =~= before.push(m@));
                    assert forall|k: int| 0 <= k < out@.len() implies reported_positions(
                        bytes,
                        (#[trigger] out@[k]).entry@,
                        out@[k].begins@,
                        exact,
                    ) by {
                        if k < old_out.len() {
                            assert(out@[k] == old_out[k]);
                        }
                    }
                }
            }
            i = i + 1;
        }
        proof {
            assert(es.take(es.len() as int) =~= es);
        }
        out
    }
}

} // verus!
