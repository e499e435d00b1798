//! Looking candidates up in every lexicon at once, and counting how many of
//! them each lexicon covers.
use vstd::prelude::*;
use crate::lexicon::Lexicon;
use crate::text::{candidates_view, push_char, Candidate};
use vstd::string::*;

verus! {

/// The sets of entries of a sequence of lexicons.
pub open spec fn lexicon_sets(lexicons: Seq<Lexicon>) -> Seq<Set<Seq<char>>> {
    lexicons.map_values(|l: Lexicon| l@)
}

/// For each lexicon, whether it holds `t`.
pub open spec fn membership(sets: Seq<Set<Seq<char>>>, t: Seq<char>) -> Seq<bool> {
    Seq::new(sets.len(), |j: int| sets[j].contains(t))
}

/// Some lexicon holds `t`.
pub open spec fn in_any(sets: Seq<Set<Seq<char>>>, t: Seq<char>) -> bool {
    exists|j: int| 0 <= j < sets.len() && #[trigger] sets[j].contains(t)
}

/// The candidates that some lexicon holds, in order, each with the lexicons
/// that hold it.
pub open spec fn matches_of(
    sets: Seq<Set<Seq<char>>>,
    cands: Seq<(Seq<char>, int, int)>,
) -> Seq<(Seq<char>, int, int, Seq<bool>)>
    decreases cands.len(),
{
    if cands.len() == 0 {
        seq![]
    } else {
        let prev = matches_of(sets, cands.drop_last());
        let c = cands.last();
        if in_any(sets, c.0) {
            prev.push((c.0, c.1, c.2, membership(sets, c.0)))
        } else {
            prev
        }
    }
}

/// How many candidates `set` holds.
pub open spec fn count_in(set: Set<Seq<char>>, cands: Seq<(Seq<char>, int, int)>) -> nat
    decreases cands.len(),
{
    if cands.len() == 0 {
        0
    } else {
        count_in(set, cands.drop_last()) + if set.contains(cands.last().0) {
            1nat
        } else {
            0nat
        }
    }
}

/// How many candidates at least one lexicon holds: each counted once.
pub open spec fn count_any(sets: Seq<Set<Seq<char>>>, cands: Seq<(Seq<char>, int, int)>) -> nat
    decreases cands.len(),
{
    if cands.len() == 0 {
        0
    } else {
        count_any(sets, cands.drop_last()) + if in_any(sets, cands.last().0) {
            1nat
        } else {
            0nat
        }
    }
}

/// The sum of the per-lexicon counts of the first `m` lexicons.
pub open spec fn count_sum(sets: Seq<Set<Seq<char>>>, cands: Seq<(Seq<char>, int, int)>, m: int) -> nat
    decreases m,
{
    if m <= 0 {
        0
    } else {
        count_sum(sets, cands, m - 1) + count_in(sets[m - 1], cands)
    }
}

/// A candidate that some lexicon holds, with one flag per lexicon.
pub struct Match {
    pub text: String,
    pub begin: usize,
    pub end: usize,
    pub lexicons: Vec<bool>,
}

impl View for Match {
    type V = (Seq<char>, int, int, Seq<bool>);

    open spec fn view(&self) -> (Seq<char>, int, int, Seq<bool>) {
        (self.text@, self.begin as int, self.end as int, self.lexicons@)
    }
}

/// The views of a sequence of matches.
pub open spec fn matches_view(v: Seq<Match>) -> Seq<(Seq<char>, int, int, Seq<bool>)> {
    v.map_values(|m: Match| m@)
}

/// Coverage counters of one scope (a document or a line): per lexicon the
/// number of candidates it holds, the number that any lexicon holds, and the
/// number of candidates seen.
pub struct Coverage {
    pub matched: Vec<usize>,
    pub matched_any: usize,
    pub total: usize,
}

/// `cov` counts exactly the candidates `cands` against `sets`.
pub open spec fn counts(cov: Coverage, sets: Seq<Set<Seq<char>>>, cands: Seq<(Seq<char>, int, int)>) -> bool {
    &&& cov.matched@.len() == sets.len()
    &&& forall|j: int| 0 <= j < sets.len() ==> cov.matched@[j] == count_in(sets[j], cands)
    &&& cov.matched_any == count_any(sets, cands)
    &&& cov.total == cands.len()
}

/// Counts never exceed the number of candidates.
pub proof fn lemma_counts_bounded(sets: Seq<Set<Seq<char>>>, cands: Seq<(Seq<char>, int, int)>)
    ensures
        forall|j: int| 0 <= j < sets.len() ==> #[trigger] count_in(sets[j], cands) <= cands.len(),
        count_any(sets, cands) <= cands.len(),
    decreases cands.len(),
{
    if cands.len() > 0 {
        lemma_counts_bounded(sets, cands.drop_last());
        assert forall|j: int| 0 <= j < sets.len() implies #[trigger] count_in(sets[j], cands)
            <= cands.len() by {
            assert(count_in(sets[j], cands.drop_last()) <= cands.len() - 1);
        }
    }
}

/// Number of the first `m` lexicons that hold `t`.
pub open spec fn hits(sets: Seq<Set<Seq<char>>>, t: Seq<char>, m: int) -> nat
    decreases m,
{
    if m <= 0 {
        0
    } else {
        hits(sets, t, m - 1) + if sets[m - 1].contains(t) {
            1nat
        } else {
            0nat
        }
    }
}

proof fn lemma_count_sum_step(sets: Seq<Set<Seq<char>>>, cands: Seq<(Seq<char>, int, int)>, m: int)
    requires
        cands.len() > 0,
        0 <= m <= sets.len(),
    ensures
        count_sum(sets, cands, m) == count_sum(sets, cands.drop_last(), m) + hits(
            sets,
            cands.last().0,
            m,
        ),
    decreases m,
{
    if m > 0 {
        lemma_count_sum_step(sets, cands, m - 1);
    }
}

proof fn lemma_hits_positive(sets: Seq<Set<Seq<char>>>, t: Seq<char>, m: int, j: int)
    requires
        0 <= j < m <= sets.len(),
        sets[j].contains(t),
    ensures
        hits(sets, t, m) >= 1,
    decreases m,
{
    if j < m - 1 {
        lemma_hits_positive(sets, t, m - 1, j);
    }
}

/// Coverage never exceeds what was seen: each lexicon covers at most every
/// candidate, and the coverage against all lexicons, where a candidate held
/// by several counts once, is at most the number of candidates and at most
/// the sum of the per-lexicon counts.
pub proof fn lemma_coverage_bounds(sets: Seq<Set<Seq<char>>>, cands: Seq<(Seq<char>, int, int)>)
    ensures
        forall|j: int| 0 <= j < sets.len() ==> #[trigger] count_in(sets[j], cands) <= cands.len(),
        count_any(sets, cands) <= cands.len(),
        count_any(sets, cands) <= count_sum(sets, cands, sets.len() as int),
    decreases cands.len(),
{
    lemma_counts_bounded(sets, cands);
    if cands.len() > 0 {
        lemma_coverage_bounds(sets, cands.drop_last());
        lemma_count_sum_step(sets, cands, sets.len() as int);
        let t = cands.last().0;
        if in_any(sets, t) {
            let j = choose|j: int| 0 <= j < sets.len() && #[trigger] sets[j].contains(t);
            lemma_hits_positive(sets, t, sets.len() as int, j);
        }
    }
}

/// Every match is one of the candidates, and matches keep the order of the
/// candidates' begin offsets.
pub proof fn lemma_matches_ordered(sets: Seq<Set<Seq<char>>>, cands: Seq<(Seq<char>, int, int)>)
    requires
        forall|i: int, j: int| 0 <= i < j < cands.len() ==> #[trigger] cands[i].1 < #[trigger] cands[j].1,
    ensures
        forall|i: int|
            0 <= i < matches_of(sets, cands).len() ==> exists|k: int|
                0 <= k < cands.len() && (#[trigger] matches_of(sets, cands)[i]).0 == cands[k].0
                    && matches_of(sets, cands)[i].1 == cands[k].1 && matches_of(sets, cands)[i].2
                    == cands[k].2 && in_any(sets, matches_of(sets, cands)[i].0),
        forall|i: int, j: int|
            0 <= i < j < matches_of(sets, cands).len() ==> #[trigger] matches_of(sets, cands)[i].1
                < #[trigger] matches_of(sets, cands)[j].1,
    decreases cands.len(),
{
    if cands.len() > 0 {
        let pre = cands.drop_last();
        lemma_matches_ordered(sets, pre);
        let mp = matches_of(sets, pre);
        let m = matches_of(sets, cands);
        assert forall|i: int| 0 <= i < m.len() implies exists|k: int|
            0 <= k < cands.len() && (#[trigger] m[i]).0 == cands[k].0 && m[i].1 == cands[k].1
                && m[i].2 == cands[k].2 && in_any(sets, m[i].0) by {
            if i < mp.len() {
                assert(m[i] == mp[i]);
                let k = choose|k: int|
                    0 <= k < pre.len() && mp[i].0 == pre[k].0 && mp[i].1 == pre[k].1 && mp[i].2
                        == pre[k].2 && in_any(sets, mp[i].0);
                assert(pre[k] == cands[k]);
            } else {
                assert(m[i].1 == cands[cands.len() - 1].1);
                assert(m[i].2 == cands[cands.len() - 1].2);
            }
        }
        assert forall|i: int, j: int| 0 <= i < j < m.len() implies #[trigger] m[i].1
            < #[trigger] m[j].1 by {
            assert(m[i] == mp[i]);
            if j < mp.len() {
                assert(m[j] == mp[j]);
            } else {
                let k = choose|k: int|
                    0 <= k < pre.len() && mp[i].0 == pre[k].0 && mp[i].1 == pre[k].1 && mp[i].2
                        == pre[k].2 && in_any(sets, mp[i].0);
                assert(pre[k] == cands[k]);
                assert(m[j].1 == cands[cands.len() - 1].1);
            }
        }
    }
}

/// Whether each lexicon holds `t`, in lexicon order.
pub fn member_flags(lexicons: &Vec<Lexicon>, t: &str) -> (r: Vec<bool>)
    ensures
        r@ == membership(lexicon_sets(lexicons@), t@),
{
    let ghost sets = lexicon_sets(lexicons@);
    let mut r: Vec<bool> = Vec::new();
    for j in 0..lexicons.len()
        invariant
            sets == lexicon_sets(lexicons@),
            r@ == membership(sets, t@).take(j as int),
    {
        let hit = lexicons[j].contains(t);
        r.push(hit);
        proof {
            assert(r@ =~= membership(sets, t@).take(j as int + 1));
        }
    }
    proof {
        assert(r@ =~= membership(sets, t@));
    }
    r
}

/// Looks every candidate up in every lexicon. Returns the candidates that
/// some lexicon holds, each with its lexicon flags, and the coverage counts.
pub fn aggregate(lexicons: &Vec<Lexicon>, cands: &Vec<Candidate>) -> (r: (Vec<Match>, Coverage))
    ensures
        matches_view(r.0@) == matches_of(lexicon_sets(lexicons@), candidates_view(cands@)),
        counts(r.1, lexicon_sets(lexicons@), candidates_view(cands@)),
{
    let ghost sets = lexicon_sets(lexicons@);
    let ghost cv = candidates_view(cands@);
    let nl = lexicons.len();
    let mut matched: Vec<usize> = Vec::new();
    for j in 0..nl
        invariant
            nl == lexicons@.len(),
            matched@.len() == j,
            forall|x: int| 0 <= x < j ==> matched@[x] == 0,
    {
        matched.push(0);
    }
    let mut matched_any: usize = 0;
    let mut out: Vec<Match> = Vec::new();
    let mut k: usize = 0;
    proof {
        assert(cv.take(0) =~= Seq::<(Seq<char>, int, int)>::empty());
        assert(matches_view(out@) =~= Seq::<(Seq<char>, int, int, Seq<bool>)>::empty());
    }
    while k < cands.len()
        invariant
            sets == lexicon_sets(lexicons@),
            cv == candidates_view(cands@),
            nl == sets.len(),
            0 <= k <= cands.len(),
            matched@.len() == nl,
            forall|j: int| 0 <= j < nl ==> matched@[j] == count_in(sets[j], cv.take(k as int)),
            matched_any == count_any(sets, cv.take(k as int)),
            matches_view(out@) == matches_of(sets, cv.take(k as int)),
        decreases cands.len() - k,
    {
        let ghost pre = cv.take(k as int);
        let ghost cur = cv.take(k as int + 1);
        proof {
            assert(cur.drop_last() =~= pre);
            assert(cur.last() == cv[k as int]);
            lemma_counts_bounded(sets, pre);
        }
        let cand = &cands[k];
        let flags = member_flags(lexicons, cand.text.as_str());
        let mut any = false;
        for j in 0..nl
            invariant
                sets == lexicon_sets(lexicons@),
                nl == sets.len(),
                flags@ == membership(sets, cand.text@),
                matched@.len() == nl,
                k < cands.len(),
                pre.len() == k,
                forall|x: int| 0 <= x < nl ==> #[trigger] count_in(sets[x], pre) <= k,
                forall|x: int|
                    0 <= x < j ==> matched@[x] == count_in(sets[x], pre) + if flags@[x] {
                        1nat
                    } else {
                        0nat
                    },
                forall|x: int| j <= x < nl ==> matched@[x] == count_in(sets[x], pre),
                any == exists|x: int| 0 <= x < j && sets[x].contains(cand.text@),
        {
            if flags[j] {
                let v = matched[j];
                matched.set(j, v + 1);
                any = true;
            }
        }
        proof {
            assert(any == in_any(sets, cand.text@));
            assert forall|j: int| 0 <= j < nl implies matched@[j] == count_in(sets[j], cur) by {}
        }
        if any {
            let m = Match {
                text: cand.text.clone(),
                begin: cand.begin,
                end: cand.end,
                lexicons: flags,
            };
            let ghost before = matches_view(out@);
            out.push(m);
            matched_any = matched_any + 1;
            proof {
                assert(matches_view(out@) =~= before.push(m@));
            }
        }
        k = k + 1;
    }
    proof {
        assert(cv.take(cands.len() as int) =~= cv);
    }
    (out, Coverage { matched, matched_any, total: k })
}

/// The names of the lexicons whose flag is set, in lexicon order.
pub open spec fn chosen_names(flags: Seq<bool>, names: Seq<Seq<char>>) -> Seq<Seq<char>>
    decreases flags.len(),
{
    if flags.len() == 0 {
        seq![]
    } else {
        let prev = chosen_names(flags.drop_last(), names);
        let j = flags.len() - 1;
        if flags.last() && j < names.len() {
            prev.push(names[j])
        } else {
            prev
        }
    }
}

/// `parts` joined by semicolons.
pub open spec fn semicolon_join(parts: Seq<Seq<char>>) -> Seq<char>
    decreases parts.len(),
{
    if parts.len() == 0 {
        seq![]
    } else if parts.len() == 1 {
        parts[0]
    } else {
        semicolon_join(parts.drop_last()) + seq![';'] + parts.last()
    }
}

/// The names of the lexicons that matched, joined by semicolons.
pub fn lexicon_label(flags: &Vec<bool>, names: &Vec<String>) -> (r: String)
    ensures
        r@ == semicolon_join(chosen_names(flags@, names@.map_values(|n: String| n@))),
{
    let ghost nv = names@.map_values(|n: String| n@);
    let mut out = String::new();
    let mut first = true;
    let mut j: usize = 0;
    proof {
        assert(flags@.take(0) =~= Seq::<bool>::empty());
    }
    while j < flags.len()
        invariant
            nv == names@.map_values(|n: String| n@),
            0 <= j <= flags@.len(),
            out@ == semicolon_join(chosen_names(flags@.take(j as int), nv)),
            first == (chosen_names(flags@.take(j as int), nv).len() == 0),
        decreases flags@.len() - j,
    {
        let ghost before = chosen_names(flags@.take(j as int), nv);
        proof {
            assert(flags@.take(j as int + 1).drop_last() =~= flags@.take(j as int));
        }
        if flags[j] && j < names.len() {
            if !first {
                push_char(&mut out, ';');
            }
            out.append(names[j].as_str());
            first = false;
            proof {
                let after = chosen_names(flags@.take(j as int + 1), nv);
                assert(after == before.push(nv[j as int]));
                assert(after.drop_last() =~= before);
                if before.len() == 0 {
                    assert(out@ =~= semicolon_join(after));
                } else {
                    assert(out@ =~= semicolon_join(after));
                }
            }
        }
        j = j + 1;
    }
    proof {
        assert(flags@.take(flags@.len() as int) =~= flags@);
    }
    out
}

} // verus!
