//! Aliases: names that stand for the start of a command.
use vstd::prelude::*;

pub use crate::lex::lex_words;
use crate::text::{
    chars_of, head_of, join_strings, joined, lemma_span_front, push_all, push_str, span_from,
    span_front, str_eq, string_of, strs, tail_of, trimmed_start,
};

verus! {

/// A name and its expansion as raw shell words.
pub struct AliasEntry {
    pub name: String,
    pub expansion: Vec<String>,
}

pub struct AliasView {
    pub name: Seq<char>,
    pub expansion: Seq<Seq<char>>,
}

impl View for AliasEntry {
    type V = AliasView;

    open spec fn view(&self) -> AliasView {
        AliasView { name: self.name@, expansion: strs(self.expansion@) }
    }
}

pub open spec fn alias_views(v: Seq<AliasEntry>) -> Seq<AliasView> {
    Seq::new(v.len(), |i: int| v[i]@)
}

/// Maps alias names to their expansion as raw shell words.
pub struct AliasMap {
    entries: Vec<AliasEntry>,
}

impl View for AliasMap {
    type V = Seq<AliasView>;

    closed spec fn view(&self) -> Seq<AliasView> {
        alias_views(self.entries@)
    }
}

/// Place of a name among the aliases from `i` on.
pub open spec fn alias_place(v: Seq<AliasView>, name: Seq<char>, i: int) -> Option<int>
    decreases v.len() - i,
{
    if i < 0 || i >= v.len() {
        None
    } else if v[i].name == name {
        Some(i)
    } else {
        alias_place(v, name, i + 1)
    }
}

proof fn lemma_alias_place(v: Seq<AliasView>, name: Seq<char>, i: int)
    requires
        0 <= i,
    ensures
        match alias_place(v, name, i) {
            Some(k) => i <= k < v.len() && v[k].name == name && forall|j: int|
                i <= j < k ==> (#[trigger] v[j]).name != name,
            None => forall|j: int| i <= j < v.len() ==> (#[trigger] v[j]).name != name,
        },
    decreases v.len() - i,
{
    if i < v.len() && v[i].name != name {
        lemma_alias_place(v, name, i + 1);
    }
}

/// The expansion of a name.
pub open spec fn alias_of(v: Seq<AliasView>, name: Seq<char>) -> Option<Seq<Seq<char>>> {
    match alias_place(v, name, 0) {
        Some(i) => Some(v[i].expansion),
        None => None,
    }
}

/// The aliases with another expansion of a name.
pub open spec fn with_alias(v: Seq<AliasView>, name: Seq<char>, expansion: Seq<Seq<char>>) -> Seq<
    AliasView,
> {
    match alias_place(v, name, 0) {
        Some(i) => v.update(i, AliasView { name, expansion }),
        None => v.push(AliasView { name, expansion }),
    }
}

/// The line with its first word expanded, if that is an alias.
pub open spec fn alias_expanded(v: Seq<AliasView>, line: Seq<char>) -> Option<Seq<char>> {
    let rest = trimmed_start(line);
    let n = span_front(rest, false);
    if n == 0 {
        None
    } else {
        match alias_of(v, rest.take(n)) {
            Some(expansion) => Some(
                line.take(line.len() - rest.len()) + joined(expansion, " "@) + rest.skip(n),
            ),
            None => None,
        }
    }
}

/// No name has two expansions.
pub open spec fn names_distinct(v: Seq<AliasView>) -> bool {
    forall|i: int, j: int|
        0 <= i < j < v.len() ==> (#[trigger] v[i]).name != (#[trigger] v[j]).name
}

impl Default for AliasMap {
    fn default() -> (r: Self)
        ensures
            r@ == Seq::<AliasView>::empty(),
    {
        AliasMap::new()
    }
}

impl AliasMap {
    #[verifier::type_invariant]
    spec fn distinct(self) -> bool {
        names_distinct(alias_views(self.entries@))
    }

    pub fn new() -> (r: Self)
        ensures
            r@ == Seq::<AliasView>::empty(),
    {
        let r = AliasMap { entries: Vec::new() };
        assert(r@ =~= Seq::<AliasView>::empty());
        r
    }

    fn place(&self, name: &str) -> (r: Option<usize>)
        ensures
            (match r {
                Some(i) => Some(i as int),
                None => None,
            }) == alias_place(self@, name@, 0),
            r matches Some(i) ==> i < self.entries.len(),
    {
        let mut i: usize = 0;
        while i < self.entries.len()
            invariant
                i <= self.entries.len(),
                alias_place(self@, name@, 0) == alias_place(self@, name@, i as int),
            decreases self.entries.len() - i,
        {
            assert(self@[i as int] == self.entries@[i as int]@);
            if str_eq(self.entries[i].name.as_str(), name) {
                return Some(i);
            }
            i += 1;
        }
        None
    }

    pub fn set(&mut self, name: String, expansion: Vec<String>)
        ensures
            final(self)@ == with_alias(old(self)@, name@, strs(expansion@)),
            names_distinct(final(self)@),
    {
        proof {
            use_type_invariant(&*self);
            lemma_alias_place(self@, name@, 0);
        }
        let place = self.place(name.as_str());
        let ghost before = self@;
        let entry = AliasEntry { name, expansion };
        let ghost added = entry@;
        let mut entries: Vec<AliasEntry> = Vec::new();
        core::mem::swap(&mut self.entries, &mut entries);
        match place {
            Some(i) => {
                entries.set(i, entry);
                assert(alias_views(entries@) =~= before.update(i as int, added));
            },
            None => {
                entries.push(entry);
                assert(alias_views(entries@) =~= before.push(added));
            },
        }
        assert(names_distinct(alias_views(entries@)));
        self.entries = entries;
    }

    pub fn get(&self, name: &str) -> (r: Option<&[String]>)
        ensures
            (match r {
                Some(e) => Some(strs(e@)),
                None => None,
            }) == alias_of(self@, name@),
    {
        match self.place(name) {
            Some(i) => {
                assert(self@[i as int] == self.entries@[i as int]@);
                Some(self.entries[i].expansion.as_slice())
            },
            None => None,
        }
    }

    /// The aliases; no name occurs twice.
    pub fn iter(&self) -> (r: &[AliasEntry])
        ensures
            alias_views(r@) == self@,
            names_distinct(self@),
    {
        proof {
            use_type_invariant(self);
        }
        self.entries.as_slice()
    }

    /// The line with its first word expanded, or `None` if that is no alias.
    pub fn try_expand(&self, line: &str) -> (r: Option<String>)
        ensures
            (match r {
                Some(t) => Some(t@),
                None => None,
            }) == alias_expanded(self@, line@),
    {
        let s = chars_of(line);
        let a = span_from(&s, 0, true);
        let b = span_from(&s, a, false);
        proof {
            assert(s@.skip(0) =~= s@);
            lemma_span_front(s@, true);
        }
        let ghost rest = s@.skip(a as int);
        let ghost n = b - a;
        if a == b {
            return None;
        }
        let word = crate::text::substring(&s, a, b);
        assert(word@ =~= rest.take(n));
        match self.get(word.as_str()) {
            Some(expansion) => {
                let mut out = head_of(&s, a);
                let text = join_strings(expansion, " ");
                push_str(&mut out, text.as_str());
                let more = tail_of(&s, b);
                push_all(&mut out, more.as_slice());
                assert(more@ =~= rest.skip(n));
                Some(string_of(out.as_slice()))
            },
            None => None,
        }
    }

    /// Expand aliases in the first word of a command line.
    /// Returns the expanded line, or the original if no alias matched.
    /// Non-recursive: only the first word is checked.
    pub fn expand_line(&self, line: &str) -> (r: String)
        ensures
            r@ == (match alias_expanded(self@, line@) {
                Some(t) => t,
                None => line@,
            }),
    {
        match self.try_expand(line) {
            Some(t) => t,
            None => {
                let s = chars_of(line);
                string_of(s.as_slice())
            },
        }
    }
}

/// A name that was set has the expansion that was set last; the others keep theirs.
pub proof fn law_set_get(
    v: Seq<AliasView>,
    name: Seq<char>,
    expansion: Seq<Seq<char>>,
    other: Seq<char>,
)
    ensures
        alias_of(with_alias(v, name, expansion), name) == Some(expansion),
        other != name ==> alias_of(with_alias(v, name, expansion), other) == alias_of(v, other),
{
    let w = with_alias(v, name, expansion);
    lemma_alias_place(v, name, 0);
    lemma_alias_place(w, name, 0);
    lemma_alias_place(v, other, 0);
    lemma_alias_place(w, other, 0);
    let p = alias_place(w, other, 0);
    let q = alias_place(v, other, 0);
    if alias_place(v, name, 0) is Some {
        let i = alias_place(v, name, 0)->0;
        assert(w[i].name == name);
        assert(forall|j: int| 0 <= j < v.len() && j != i ==> w[j] == v[j]);
        if other != name {
            if p is Some {
                assert(v[p->0].name == other);
            }
            if q is Some {
                assert(w[q->0].name == other);
            }
        }
    } else {
        assert(w[v.len() as int].name == name);
        assert(forall|j: int| 0 <= j < v.len() ==> w[j] == v[j]);
        if other != name {
            if p is Some {
                assert(v[p->0].name == other);
            }
            if q is Some {
                assert(w[q->0].name == other);
            }
        }
    }
}

} // verus!
