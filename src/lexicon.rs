//! Lexicons: named sets of entries that keep the order in which the entries
//! were first added, with hash lookup.
use vstd::prelude::*;
use vstd::hash_set::StringHashSet;
use crate::text::{chars_of, lowercase_of, push_char, to_lower};

verus! {

/// A named set of strings to look for.
pub struct Lexicon {
    name: String,
    entries: Vec<String>,
    set: StringHashSet,
}

impl View for Lexicon {
    type V = Set<Seq<char>>;

    closed spec fn view(&self) -> Set<Seq<char>> {
        self.set@
    }
}

/// The part of a lexicon line before its first tab.
pub open spec fn first_field(line: Seq<char>) -> Seq<char>
    decreases line.len(),
{
    if line.len() == 0 || line[0] == '\t' {
        seq![]
    } else {
        seq![line[0]] + first_field(line.drop_first())
    }
}

/// What a lexicon line contributes: its first field, folded on request.
pub open spec fn line_entry(line: Seq<char>, lowercase: bool) -> Seq<char> {
    if lowercase {
        lowercase_of(first_field(line))
    } else {
        first_field(line)
    }
}

impl Lexicon {
    /// The entries in the order in which they were first added.
    pub closed spec fn entry_seq(&self) -> Seq<Seq<char>> {
        self.entries@.map_values(|e: String| e@)
    }

    /// The lexicon's name.
    pub closed spec fn name_view(&self) -> Seq<char> {
        self.name@
    }

    /// The entries are distinct and are exactly the members of the set.
    pub closed spec fn wf(&self) -> bool {
        &&& self.entry_seq().no_duplicates()
        &&& forall|t: Seq<char>| self.set@.contains(t) <==> self.entry_seq().contains(t)
    }

    /// Membership in the set view and in the entry order agree.
    pub proof fn lemma_members(&self)
        requires
            self.wf(),
        ensures
            forall|t: Seq<char>| self@.contains(t) <==> self.entry_seq().contains(t),
            self.entry_seq().no_duplicates(),
    {
    }

    /// An empty lexicon called `name`.
    pub fn new(name: String) -> (r: Lexicon)
        ensures
            r.wf(),
            r@ == Set::<Seq<char>>::empty(),
            r.entry_seq() == Seq::<Seq<char>>::empty(),
            r.name_view() == name@,
    {
        let r = Lexicon { name, entries: Vec::new(), set: StringHashSet::new() };
        proof {
            assert(r.entry_seq() =~= Seq::<Seq<char>>::empty());
        }
        r
    }

    /// The lexicon's name.
    pub fn name(&self) -> (r: &str)
        ensures
            r@ == self.name_view(),
    {
        self.name.as_str()
    }

    /// Number of distinct entries.
    pub fn len(&self) -> (r: usize)
        ensures
            r == self.entry_seq().len(),
    {
        self.entries.len()
    }

    /// The entry at position `i` in insertion order.
    pub fn entry(&self, i: usize) -> (r: &String)
        requires
            i < self.entry_seq().len(),
        ensures
            r@ == self.entry_seq()[i as int],
    {
        &self.entries[i]
    }

    /// Whether `s` is an entry.
    pub fn contains(&self, s: &str) -> (r: bool)
        ensures
            r == self@.contains(s@),
    {
        self.set.contains(s)
    }

    /// Adds `entry`; returns whether it was new. A new entry goes last in
    /// the entry order; a known one changes nothing.
    pub fn insert(&mut self, entry: String) -> (r: bool)
        requires
            old(self).wf(),
        ensures
            final(self).wf(),
            r == !old(self)@.contains(entry@),
            final(self)@ == old(self)@.insert(entry@),
            final(self).entry_seq() == (if r {
                old(self).entry_seq().push(entry@)
            } else {
                old(self).entry_seq()
            }),
            final(self).name_view() == old(self).name_view(),
    {
        if self.set.contains(entry.as_str()) {
            proof {
                assert(self.set@.insert(entry@) =~= self.set@);
            }
            false
        } else {
            let ghost before = self.entry_seq();
            let ghost old_set = self.set@;
            let copy = entry.clone();
            self.set.insert(copy);
            self.entries.push(entry);
            proof {
                let now = self.entry_seq();
                assert(now =~= before.push(entry@));
                assert(!before.contains(entry@));
                assert forall|x: int, y: int| 0 <= x < now.len() && 0 <= y < now.len() && x != y
                    implies now[x] != now[y] by {
                    if x == before.len() {
                        assert(before[y] == now[y]);
                    } else if y == before.len() {
                        assert(before[x] == now[x]);
                    } else {
                        assert(before[x] == now[x] && before[y] == now[y]);
                    }
                }
                assert forall|t: Seq<char>| self.set@.contains(t) <==> now.contains(t) by {
                    if t == entry@ {
                        assert(now[before.len() as int] == t);
                    } else {
                        if now.contains(t) {
                            let k = choose|k: int| 0 <= k < now.len() && now[k] == t;
                            assert(before[k] == t);
                            assert(before.contains(t));
                            assert(old_set.contains(t));
                        }
                        if old_set.contains(t) {
                            assert(before.contains(t));
                            let k = choose|k: int| 0 <= k < before.len() && before[k] == t;
                            assert(now[k] == t);
                        }
                    }
                }
            }
            true
        }
    }

    /// Adds the entry that a lexicon line holds: the text before its first
    /// tab, folded to lower case on request. A line whose first field is
    /// empty adds nothing.
    pub fn add_line(&mut self, line: &str, lowercase: bool)
        requires
            old(self).wf(),
        ensures
            final(self).wf(),
            final(self).name_view() == old(self).name_view(),
            first_field(line@).len() == 0 ==> final(self)@ == old(self)@,
            first_field(line@).len() == 0 ==> final(self).entry_seq() == old(self).entry_seq(),
            first_field(line@).len() > 0 ==> final(self)@ == old(self)@.insert(
                line_entry(line@, lowercase),
            ),
            first_field(line@).len() > 0 ==> final(self).entry_seq() == (if old(
                self,
            )@.contains(line_entry(line@, lowercase)) {
                old(self).entry_seq()
            } else {
                old(self).entry_seq().push(line_entry(line@, lowercase))
            }),
    {
        let field = first_field_of(line);
        if field.as_str().is_empty() {
            return;
        }
        let e = if lowercase {
            to_lower(field.as_str())
        } else {
            field
        };
        self.insert(e);
    }
}

/// The text of `line` before its first tab.
pub fn first_field_of(line: &str) -> (r: String)
    ensures
        r@ == first_field(line@),
{
    let chars = chars_of(line);
    let ghost s = line@;
    let mut out = String::new();
    let mut i: usize = 0;
    proof {
        assert(s.skip(0) =~= s);
    }
    while i < chars.len() && chars[i] != '\t'
        invariant
            chars@ == s,
            0 <= i <= s.len(),
            first_field(s) == out@ + first_field(s.skip(i as int)),
        decreases s.len() - i,
    {
        proof {
            assert(s.skip(i as int).drop_first() =~= s.skip(i as int + 1));
            assert(out@.push(s[i as int]) + first_field(s.skip(i as int + 1)) =~= out@ + (seq![
                s[i as int],
            ] + first_field(s.skip(i as int + 1))));
        }
        push_char(&mut out, chars[i]);
        i = i + 1;
    }
    proof {
        assert(out@ + first_field(s.skip(i as int)) =~= out@);
    }
    out
}

} // verus!
