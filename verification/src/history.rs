//! The history of commands.
//!
//! Entries are kept in the order of their last use. The caller reads and writes the files
//! and tells the time: `load_from_text`, `from_cache` and `sync` take what was read,
//! `add_in_dir` and `cache_entries` return what is to be written.
use fxhash::FxHashMap;
use vstd::prelude::*;

use crate::fuzzy::{
    classified, classify_match, law_longer_query_narrows, lemma_lowercased_concat, lowercase_query,
    lowercased, match_views, rank_order, MatchView,
};
pub use crate::fuzzy::{score_match, subsequence_match, FuzzyMatch};
use crate::history_cache::{cached_views, CachedEntry, CachedView};
use crate::history_log::{
    format_record, opt_view, parse_history_line, parsed_line, record_of, ParsedView,
};
use crate::index::{
    hash_str, index_get, index_insert, index_of, lemma_index_of, lemma_index_prefix, new_index,
    new_seen, no_hashes, seen_insert, text_hash,
};
use crate::dirs::{is_within, within};
use crate::line::{fit, fit_prefix, lemma_fit};
use crate::sort::{arranged, lemma_members, lemma_sorted_by_keys, order_of, stable_sorted};
use crate::text::{
    chars_of, lines, lines_of, matches_at, push_str, starts_with, str_eq, string_of, strs,
    substring, trim, trimmed,
};
use crate::utf8_bytes::{text_at, text_of};

verus! {

/// Most bytes of an entry that are kept.
pub const MAX_ENTRY_BYTES: usize = 65535;

/// What is kept of a command: as many characters as fit.
pub open spec fn cut(s: Seq<char>) -> Seq<char> {
    s.take(fit(s, MAX_ENTRY_BYTES as int))
}

/// Commands of ordinary length are kept whole.
pub proof fn law_short_command_kept(s: Seq<char>)
    requires
        crate::text::byte_len(s) <= MAX_ENTRY_BYTES,
    ensures
        cut(s) == s,
{
    lemma_fit(s, MAX_ENTRY_BYTES as int);
    assert(s.take(s.len() as int) =~= s);
}

fn cut_text(text: &str) -> (r: String)
    ensures
        r@ == cut(text@),
{
    let v = chars_of(text);
    let n = fit_prefix(&v, 0, v.len(), MAX_ENTRY_BYTES);
    assert(v@.subrange(0, v@.len() as int) =~= text@);
    let r = substring(&v, 0, n);
    assert(r@ =~= cut(text@));
    r
}

/// One command of the history.
struct HistoryEntry {
    text: String,
    /// Epoch milliseconds when the entry was last used.
    timestamp: u64,
    /// Zero means unknown.
    session_id: u64,
    /// Working directory. None means unknown.
    cwd: Option<String>,
    /// The entry was added by this shell session.
    local: bool,
}

#[verifier::ext_equal]
pub struct HistoryEntryView {
    pub text: Seq<char>,
    pub timestamp: u64,
    pub session_id: u64,
    pub cwd: Option<Seq<char>>,
    pub local: bool,
}

impl View for HistoryEntry {
    type V = HistoryEntryView;

    closed spec fn view(&self) -> HistoryEntryView {
        HistoryEntryView {
            text: self.text@,
            timestamp: self.timestamp,
            session_id: self.session_id,
            cwd: opt_view(self.cwd),
            local: self.local,
        }
    }
}

pub struct History {
    entries: Vec<HistoryEntry>,
    /// Maps the hash of a command to its place in `entries`.
    index_by_hash: FxHashMap<u64, usize>,
    /// How far the text file has been read.
    file_pos: u64,
    /// Entries with timestamps at or before this boundary are considered part
    /// of the session-visible history. Up-arrow sees those entries plus any
    /// entry added by this shell.
    session_cutoff: u64,
    /// Session id used for new entries written by this shell.
    session_id: u64,
    /// Set when the cache was corrupt at load time. Prevents overwriting the
    /// (possibly recoverable) cache file until the user resolves it.
    cache_dirty: bool,
}

#[verifier::ext_equal]
pub struct HistoryView {
    pub entries: Seq<HistoryEntryView>,
    pub file_pos: u64,
    pub session_cutoff: u64,
    pub session_id: u64,
    pub cache_dirty: bool,
}

spec fn entry_views(v: Seq<HistoryEntry>) -> Seq<HistoryEntryView> {
    Seq::new(v.len(), |i: int| v[i]@)
}

/// The commands of the entries.
pub open spec fn texts(v: Seq<HistoryEntryView>) -> Seq<Seq<char>> {
    Seq::new(v.len(), |i: int| v[i].text)
}

impl View for History {
    type V = HistoryView;

    closed spec fn view(&self) -> HistoryView {
        HistoryView {
            entries: entry_views(self.entries@),
            file_pos: self.file_pos,
            session_cutoff: self.session_cutoff,
            session_id: self.session_id,
            cache_dirty: self.cache_dirty,
        }
    }
}

/// The entries without those whose command is `text`.
pub open spec fn without(v: Seq<HistoryEntryView>, text: Seq<char>) -> Seq<HistoryEntryView>
    decreases v.len(),
{
    if v.len() == 0 {
        v
    } else if v.last().text == text {
        without(v.drop_last(), text)
    } else {
        without(v.drop_last(), text).push(v.last())
    }
}

/// The first entry from `i` on whose command is `text`.
pub open spec fn first_equal(v: Seq<HistoryEntryView>, text: Seq<char>, i: int) -> Option<int>
    decreases v.len() - i,
{
    if i < 0 || i >= v.len() {
        None
    } else if v[i].text == text {
        Some(i)
    } else {
        first_equal(v, text, i + 1)
    }
}

/// The entry with the command `text`: the one that the index leads to or, where that is
/// another command, the first.
pub open spec fn entry_with(v: Seq<HistoryEntryView>, text: Seq<char>) -> Option<int> {
    let index = index_of(texts(v), v.len() as int);
    let h = text_hash(text);
    if index.contains_key(h) && v[index[h] as int].text == text {
        Some(index[h] as int)
    } else {
        first_equal(v, text, 0)
    }
}

/// A command with its newlines, which would break the history file, made spaces, and without
/// white space at its ends.
pub open spec fn command_line(line: Seq<char>) -> Seq<char> {
    let t = trimmed(line);
    trimmed(
        Seq::new(
            t.len(),
            |i: int|
                if t[i] == '\n' {
                    ' '
                } else {
                    t[i]
                },
        ),
    )
}

pub open spec fn loaded_entry(p: ParsedView) -> HistoryEntryView {
    HistoryEntryView {
        text: cut(p.command),
        timestamp: p.timestamp,
        session_id: p.session_id,
        cwd: p.cwd,
        local: false,
    }
}

/// End of the chunk of `data` that starts at `i`: the next newline or the end.
pub open spec fn chunk_end(data: Seq<u8>, i: int) -> int
    decreases data.len() - i,
{
    if i < 0 || i >= data.len() {
        data.len() as int
    } else if data[i] == 10 {
        i
    } else {
        chunk_end(data, i + 1)
    }
}

pub proof fn lemma_chunk_end(data: Seq<u8>, i: int)
    requires
        0 <= i <= data.len(),
    ensures
        i <= chunk_end(data, i) <= data.len(),
    decreases data.len() - i,
{
    if i < data.len() && data[i] != 10 {
        lemma_chunk_end(data, i + 1);
    }
}

/// The lines of a file from the byte `i` on; lines that are not valid text, and empty ones,
/// are left out.
pub open spec fn file_lines(data: Seq<u8>, i: int, fallback_ts: u64) -> Seq<ParsedView>
    decreases data.len() - i,
    when 0 <= i <= data.len()
{
    let e = chunk_end(data, i);
    let here = match text_of(data.subrange(i, e)) {
        Some(t) => match parsed_line(t, fallback_ts) {
            Some(p) => seq![p],
            None => Seq::empty(),
        },
        None => Seq::empty(),
    };
    if e >= data.len() {
        here
    } else {
        proof {
            lemma_chunk_end(data, i);
        }
        here + file_lines(data, e + 1, fallback_ts)
    }
}

/// The last of the first `n` lines for each hash of a command, unless the hash was seen in a
/// later line.
pub open spec fn last_of_each(ls: Seq<ParsedView>, n: int, seen: Set<u64>) -> Seq<HistoryEntryView>
    decreases n,
{
    if n <= 0 {
        Seq::empty()
    } else {
        let p = ls[n - 1];
        let h = text_hash(p.command);
        if seen.contains(h) {
            last_of_each(ls, n - 1, seen)
        } else {
            last_of_each(ls, n - 1, seen.insert(h)).push(loaded_entry(p))
        }
    }
}

/// Added to the score of entries recorded in an ancestor of the directory searched for.
pub const CWD_WEIGHT: i16 = 4;

impl HistoryView {
    /// An entry that Up-arrow sees: one present when the shell started, or added by it.
    pub open spec fn visible(self, i: int) -> bool {
        self.entries[i].local || self.entries[i].timestamp <= self.session_cutoff
    }

    /// Whether an entry starts with the prefix, and is visible where that is asked for.
    pub open spec fn selects(self, prefix: Seq<char>, session_only: bool, i: int) -> bool {
        &&& starts_with(self.entries[i].text, prefix)
        &&& session_only ==> self.visible(i)
    }

    /// The selected entry after skipping `skip` of them, from the end of the first `n`.
    pub open spec fn nth_back(
        self,
        prefix: Seq<char>,
        session_only: bool,
        skip: int,
        n: int,
    ) -> Option<int>
        decreases n,
    {
        if n <= 0 {
            None
        } else if self.selects(prefix, session_only, n - 1) {
            if skip <= 0 {
                Some(n - 1)
            } else {
                self.nth_back(prefix, session_only, skip - 1, n - 1)
            }
        } else {
            self.nth_back(prefix, session_only, skip, n - 1)
        }
    }

    pub open spec fn cwd_weight(self, i: int, cwd: Option<Seq<char>>) -> int {
        if cwd is Some && self.entries[i].cwd is Some && within(
            cwd->0,
            self.entries[i].cwd->0,
        ) {
            CWD_WEIGHT as int
        } else {
            0
        }
    }

    /// The match of an entry, weighted by its directory. An empty query matches anything.
    pub open spec fn match_of(self, q: Seq<char>, cwd: Option<Seq<char>>, i: int) -> Option<
        MatchView,
    > {
        let m = if q.len() == 0 {
            Some(MatchView { idx: i, positions: Seq::new(32, |k: int| 0u16), count: 0, score: 0 })
        } else {
            classified(q, self.entries[i].text, i)
        };
        match m {
            Some(x) => Some(MatchView { score: x.score + self.cwd_weight(i, cwd), ..x }),
            None => None,
        }
    }

    /// The matches of the visible entries among the first `n`, the latest first.
    pub open spec fn matches_of(self, q: Seq<char>, cwd: Option<Seq<char>>, n: int) -> Seq<
        MatchView,
    >
        decreases n,
    {
        if n <= 0 {
            Seq::empty()
        } else {
            let rest = self.matches_of(q, cwd, n - 1);
            if self.visible(n - 1) && self.match_of(q, cwd, n - 1) is Some {
                seq![self.match_of(q, cwd, n - 1)->0] + rest
            } else {
                rest
            }
        }
    }

    /// The matches of the first `n` candidates.
    pub open spec fn subset_matches(
        self,
        q: Seq<char>,
        cwd: Option<Seq<char>>,
        candidates: Seq<usize>,
        n: int,
    ) -> Seq<MatchView>
        decreases n,
    {
        if n <= 0 {
            Seq::empty()
        } else {
            let before = self.subset_matches(q, cwd, candidates, n - 1);
            match self.match_of(q, cwd, candidates[n - 1] as int) {
                Some(m) => before.push(m),
                None => before,
            }
        }
    }

    /// The visible entries among the first `n`, the latest first.
    pub open spec fn visible_entries(self, n: int) -> Seq<int>
        decreases n,
    {
        if n <= 0 {
            Seq::empty()
        } else if self.visible(n - 1) {
            seq![n - 1] + self.visible_entries(n - 1)
        } else {
            self.visible_entries(n - 1)
        }
    }

    /// A command entered in this session: earlier entries of it are gone.
    pub open spec fn added(self, line: Seq<char>, cwd: Option<Seq<char>>, now: u64) -> HistoryView {
        let text = cut(command_line(line));
        HistoryView {
            entries: without(self.entries, text).push(
                HistoryEntryView {
                    text,
                    timestamp: now,
                    session_id: self.session_id,
                    cwd,
                    local: true,
                },
            ),
            ..self
        }
    }

    /// A line that another shell appended to the history file. A command that this session
    /// can recall stays where it is.
    pub open spec fn synced_line(self, p: ParsedView) -> HistoryView {
        let e = loaded_entry(p);
        match entry_with(self.entries, e.text) {
            Some(i) => if self.visible(i) {
                self
            } else {
                HistoryView { entries: self.entries.remove(i).push(e), ..self }
            },
            None => HistoryView { entries: self.entries.push(e), ..self },
        }
    }

    /// The first `n` lines that other shells appended.
    pub open spec fn synced(self, ls: Seq<Seq<char>>, n: int, ts: u64) -> HistoryView
        decreases n,
    {
        if n <= 0 {
            self
        } else {
            let before = self.synced(ls, n - 1, ts);
            match parsed_line(ls[n - 1], ts) {
                Some(p) => before.synced_line(p),
                None => before,
            }
        }
    }

    pub open spec fn cached(self) -> Seq<CachedView> {
        Seq::new(
            self.entries.len(),
            |i: int|
                CachedView {
                    text: self.entries[i].text,
                    timestamp: self.entries[i].timestamp,
                    cwd: self.entries[i].cwd,
                },
        )
    }
}

pub open spec fn from_cached(v: Seq<CachedView>) -> Seq<HistoryEntryView> {
    Seq::new(
        v.len(),
        |i: int|
            HistoryEntryView {
                text: cut(v[i].text),
                timestamp: v[i].timestamp,
                session_id: 0,
                cwd: v[i].cwd,
                local: false,
            },
    )
}

/// What is to be done with the history file, given its size.
#[derive(Debug, Clone, Copy, PartialEq, Eq, Structural)]
pub enum SyncStep {
    /// Nothing is new.
    Nothing,
    /// The file was truncated: only the read position changes.
    Truncated,
    /// Read from the read position to the end.
    ReadTail,
}

fn clone_cwd(s: &Option<String>) -> (r: Option<String>)
    ensures
        opt_view(r) == opt_view(*s),
{
    match s {
        Some(t) => Some(t.clone()),
        None => None,
    }
}

proof fn lemma_without(v: Seq<HistoryEntryView>, text: Seq<char>)
    ensures
        forall|i: int|
            0 <= i < without(v, text).len() ==> (#[trigger] without(v, text)[i]).text != text,
        without(v, text).len() <= v.len(),
        (forall|i: int| 0 <= i < v.len() ==> (#[trigger] v[i]).text != text) ==> without(v, text)
            == v,
    decreases v.len(),
{
    if v.len() > 0 {
        let t = v.drop_last();
        lemma_without(t, text);
        if forall|i: int| 0 <= i < v.len() ==> (#[trigger] v[i]).text != text {
            assert forall|i: int| 0 <= i < t.len() implies (#[trigger] t[i]).text != text by {
                assert(v[i].text != text);
            }
            assert(v[v.len() - 1].text != text);
            assert(t.push(v.last()) =~= v);
        }
    }
}

impl History {
    /// The index leads to the entries.
    pub closed spec fn wf(&self) -> bool {
        self.index_by_hash@ == index_of(texts(self@.entries), self@.entries.len() as int)
    }

    /// A history of the given entries.
    fn build(entries: Vec<HistoryEntry>, file_pos: u64, cutoff: u64, session_id: u64, dirty: bool) -> (r:
        Self)
        ensures
            r.wf(),
            r@ == (HistoryView {
                entries: entry_views(entries@),
                file_pos,
                session_cutoff: cutoff,
                session_id,
                cache_dirty: dirty,
            }),
    {
        let mut r = History {
            entries,
            index_by_hash: new_index(),
            file_pos,
            session_cutoff: cutoff,
            session_id,
            cache_dirty: dirty,
        };
        r.rebuild_index();
        r
    }

    fn rebuild_index(&mut self)
        ensures
            final(self).wf(),
            final(self)@ == old(self)@,
    {
        let mut m = new_index();
        let mut i: usize = 0;
        let ghost ts = texts(self@.entries);
        while i < self.entries.len()
            invariant
                i <= self.entries.len(),
                *self == *old(self),
                ts == texts(self@.entries),
                m@ == index_of(ts, i as int),
            decreases self.entries.len() - i,
        {
            assert(ts[i as int] == self.entries@[i as int].text@);
            index_insert(&mut m, hash_str(self.entries[i].text.as_str()), i);
            i += 1;
        }
        self.index_by_hash = m;
    }

    /// Appends an entry.
    fn push_entry(&mut self, e: HistoryEntry)
        requires
            old(self).wf(),
        ensures
            final(self).wf(),
            final(self)@ == (HistoryView {
                entries: old(self)@.entries.push(e@),
                ..old(self)@
            }),
    {
        let h = hash_str(e.text.as_str());
        let n = self.entries.len();
        let ghost had = self@.entries;
        let ghost ev = e@;
        self.entries.push(e);
        index_insert(&mut self.index_by_hash, h, n);
        proof {
            assert(self@.entries =~= had.push(ev));
            lemma_index_prefix(texts(had), texts(self@.entries), n as int);
            assert(texts(self@.entries)[n as int] == ev.text);
        }
    }

    /// A history without entries.
    pub fn new(session_id: u64) -> (r: Self)
        ensures
            r.wf(),
            r@ == (HistoryView {
                entries: Seq::empty(),
                file_pos: 0,
                session_cutoff: 0,
                session_id,
                cache_dirty: false,
            }),
    {
        let r = Self::build(Vec::new(), 0, 0, session_id, false);
        assert(r@.entries =~= Seq::empty());
        r
    }

    /// The history of the text file: of each command, the last line.
    pub fn load_from_text(data: &Vec<u8>, fallback_ts: u64, session_id: u64) -> (r: Self)
        ensures
            r.wf(),
            r@ == ({
                let ls = file_lines(data@, 0, fallback_ts);
                HistoryView {
                    entries: last_of_each(ls, ls.len() as int, no_hashes()),
                    file_pos: 0,
                    session_cutoff: 0,
                    session_id,
                    cache_dirty: false,
                }
            }),
    {
        let ls = read_lines(data, fallback_ts);
        let ghost lv = parsed_views(ls@);
        let mut seen = new_seen();
        let mut back: Vec<usize> = Vec::new();
        let mut i: usize = ls.len();
        let ghost all = last_of_each(lv, lv.len() as int, no_hashes());
        assert(last_of_each(lv, i as int, seen@) + picked(lv, back@) =~= all);
        while i > 0
            invariant
                i <= ls.len(),
                lv == parsed_views(ls@),
                forall|k: int| 0 <= k < back.len() ==> (#[trigger] back@[k]) < ls.len(),
                all == last_of_each(lv, i as int, seen@) + picked(lv, back@),
            decreases i,
        {
            let ghost before = picked(lv, back@);
            let ghost s0 = seen@;
            assert(lv[i - 1] == ls@[i - 1]@);
            let h = hash_str(ls[i - 1].command.as_str());
            if seen_insert(&mut seen, h) {
                back.push(i - 1);
                proof {
                    let e = loaded_entry(lv[i - 1]);
                    assert(picked(lv, back@) =~= seq![e] + before);
                    assert(last_of_each(lv, i as int, s0) + before =~= last_of_each(
                        lv,
                        i - 1,
                        seen@,
                    ) + (seq![e] + before));
                }
            } else {
                assert(s0.insert(h) =~= s0);
            }
            i -= 1;
        }
        assert(last_of_each(lv, 0, seen@) + picked(lv, back@) =~= picked(lv, back@));
        let mut entries: Vec<HistoryEntry> = Vec::new();
        let mut k: usize = back.len();
        while k > 0
            invariant
                k <= back.len(),
                lv == parsed_views(ls@),
                forall|m: int| 0 <= m < back.len() ==> (#[trigger] back@[m]) < ls.len(),
                entries.len() == back.len() - k,
                forall|m: int|
                    0 <= m < entries.len() ==> (#[trigger] entries@[m])@ == picked(lv, back@)[m],
            decreases k,
        {
            k -= 1;
            let p = &ls[back[k]];
            let e = HistoryEntry {
                text: cut_text(p.command.as_str()),
                timestamp: p.timestamp,
                session_id: p.session_id,
                cwd: clone_cwd(&p.cwd),
                local: false,
            };
            assert(lv[back@[k as int] as int] == p@);
            entries.push(e);
        }
        assert(entry_views(entries@) =~= picked(lv, back@));
        Self::build(entries, 0, 0, session_id, false)
    }

    /// The history of a cache.
    pub fn from_cache(cached: &Vec<CachedEntry>, session_id: u64) -> (r: Self)
        ensures
            r.wf(),
            r@ == (HistoryView {
                entries: from_cached(cached_views(cached@)),
                file_pos: 0,
                session_cutoff: 0,
                session_id,
                cache_dirty: false,
            }),
    {
        let mut entries: Vec<HistoryEntry> = Vec::new();
        let mut i: usize = 0;
        let ghost goal = from_cached(cached_views(cached@));
        while i < cached.len()
            invariant
                i <= cached.len(),
                goal == from_cached(cached_views(cached@)),
                entries.len() == i,
                forall|k: int| 0 <= k < i ==> (#[trigger] entries@[k])@ == goal[k],
            decreases cached.len() - i,
        {
            let c = &cached[i];
            let e = HistoryEntry {
                text: cut_text(c.text.as_str()),
                timestamp: c.timestamp,
                session_id: 0,
                cwd: clone_cwd(&c.cwd),
                local: false,
            };
            assert(cached_views(cached@)[i as int] == c@);
            assert(e@ =~= goal[i as int]);
            entries.push(e);
            i += 1;
        }
        assert(entry_views(entries@) =~= goal);
        Self::build(entries, 0, 0, session_id, false)
    }

    /// Create from pre-existing entries.
    pub fn from_entries(lines: &Vec<String>, ts: u64, session_id: u64) -> (r: Self)
        ensures
            r.wf(),
            r@ == (HistoryView {
                entries: Seq::new(
                    lines@.len(),
                    |i: int|
                        HistoryEntryView {
                            text: cut(lines@[i]@),
                            timestamp: ts,
                            session_id: 0,
                            cwd: None,
                            local: false,
                        },
                ),
                file_pos: 0,
                session_cutoff: ts,
                session_id,
                cache_dirty: false,
            }),
    {
        let mut entries: Vec<HistoryEntry> = Vec::new();
        let mut i: usize = 0;
        while i < lines.len()
            invariant
                i <= lines.len(),
                entries.len() == i,
                forall|k: int|
                    0 <= k < i ==> (#[trigger] entries@[k])@ == (HistoryEntryView {
                        text: cut(lines@[k]@),
                        timestamp: ts,
                        session_id: 0,
                        cwd: None,
                        local: false,
                    }),
            decreases lines.len() - i,
        {
            let text = cut_text(lines[i].as_str());
            entries.push(
                HistoryEntry { text, timestamp: ts, session_id: 0, cwd: None, local: false },
            );
            i += 1;
        }
        let r = Self::build(entries, 0, ts, session_id, false);
        assert(r@.entries =~= Seq::new(
            lines@.len(),
            |i: int|
                HistoryEntryView {
                    text: cut(lines@[i]@),
                    timestamp: ts,
                    session_id: 0,
                    cwd: None,
                    local: false,
                },
        ));
        r
    }

    /// Everything loaded so far is visible in this session.
    pub fn start_session(&mut self, now: u64, file_pos: u64, cache_dirty: bool)
        requires
            old(self).wf(),
        ensures
            final(self).wf(),
            final(self)@ == (HistoryView {
                session_cutoff: now,
                file_pos,
                cache_dirty,
                ..old(self)@
            }),
    {
        self.session_cutoff = now;
        self.file_pos = file_pos;
        self.cache_dirty = cache_dirty;
    }

    pub fn len(&self) -> (r: usize)
        ensures
            r == self@.entries.len(),
    {
        self.entries.len()
    }

    pub fn is_empty(&self) -> (r: bool)
        ensures
            r == (self@.entries.len() == 0),
    {
        self.entries.len() == 0
    }

    /// Get entry text by index.
    pub fn get(&self, idx: usize) -> (r: &str)
        requires
            idx < self@.entries.len(),
        ensures
            r@ == self@.entries[idx as int].text,
    {
        self.entries[idx].text.as_str()
    }

    /// Get the timestamp (epoch milliseconds) for entry at index.
    pub fn timestamp(&self, idx: usize) -> (r: u64)
        requires
            idx < self@.entries.len(),
        ensures
            r == self@.entries[idx as int].timestamp,
    {
        self.entries[idx].timestamp
    }

    /// The session in which the entry at index was entered; zero where it is unknown.
    pub fn entry_session(&self, idx: usize) -> (r: u64)
        requires
            idx < self@.entries.len(),
        ensures
            r == self@.entries[idx as int].session_id,
    {
        self.entries[idx].session_id
    }

    /// The directory in which the entry at index was entered.
    pub fn entry_cwd(&self, idx: usize) -> (r: Option<String>)
        requires
            idx < self@.entries.len(),
        ensures
            opt_view(r) == self@.entries[idx as int].cwd,
    {
        clone_cwd(&self.entries[idx].cwd)
    }

    /// What tells this shell's commands from those of others.
    pub fn session_id(&self) -> (r: u64)
        ensures
            r == self@.session_id,
    {
        self.session_id
    }

    /// How far the text file has been read.
    pub fn file_pos(&self) -> (r: u64)
        ensures
            r == self@.file_pos,
    {
        self.file_pos
    }

    /// The text file has been read up to `pos`.
    pub fn set_file_pos(&mut self, pos: u64)
        requires
            old(self).wf(),
        ensures
            final(self).wf(),
            final(self)@ == (HistoryView { file_pos: pos, ..old(self)@ }),
    {
        self.file_pos = pos;
    }

    /// The cache file must not be overwritten.
    pub fn is_cache_dirty(&self) -> (r: bool)
        ensures
            r == self@.cache_dirty,
    {
        self.cache_dirty
    }

    fn is_session_visible(&self, idx: usize) -> (r: bool)
        requires
            idx < self@.entries.len(),
        ensures
            r == self@.visible(idx as int),
    {
        self.entries[idx].local || self.entries[idx].timestamp <= self.session_cutoff
    }

    fn find_entry_index(&self, text: &str) -> (r: Option<usize>)
        requires
            self.wf(),
        ensures
            match entry_with(self@.entries, text@) {
                Some(i) => r matches Some(k) && k == i && k < self@.entries.len(),
                None => r is None,
            },
    {
        let n = self.entries.len();
        proof {
            lemma_index_of(texts(self@.entries), n as int);
        }
        match index_get(&self.index_by_hash, hash_str(text)) {
            Some(i) => {
                if str_eq(self.entries[i].text.as_str(), text) {
                    return Some(i);
                }
            },
            None => {},
        }
        let mut i: usize = 0;
        while i < self.entries.len()
            invariant
                i <= self.entries.len(),
                entry_with(self@.entries, text@) == first_equal(self@.entries, text@, 0),
                first_equal(self@.entries, text@, 0) == first_equal(
                    self@.entries,
                    text@,
                    i as int,
                ),
            decreases self.entries.len() - i,
        {
            if str_eq(self.entries[i].text.as_str(), text) {
                return Some(i);
            }
            i += 1;
        }
        None
    }

    fn remove_entries_matching(&mut self, text: &str)
        ensures
            final(self).wf(),
            final(self)@ == (HistoryView {
                entries: without(old(self)@.entries, text@),
                ..old(self)@
            }),
    {
        let mut kept: Vec<HistoryEntry> = Vec::new();
        let mut old_entries: Vec<HistoryEntry> = Vec::new();
        let ghost all = self@.entries;
        core::mem::swap(&mut self.entries, &mut old_entries);
        let mut i: usize = 0;
        assert(entry_views(kept@) =~= without(all.take(0), text@));
        while i < old_entries.len()
            invariant
                i <= old_entries.len(),
                all == entry_views(old_entries@),
                entry_views(kept@) == without(all.take(i as int), text@),
            decreases old_entries.len() - i,
        {
            assert(all.take(i + 1).drop_last() =~= all.take(i as int));
            let e = &old_entries[i];
            if !str_eq(e.text.as_str(), text) {
                let ghost had = entry_views(kept@);
                let cwd = clone_cwd(&e.cwd);
                let copy = HistoryEntry {
                    text: e.text.clone(),
                    timestamp: e.timestamp,
                    session_id: e.session_id,
                    cwd,
                    local: e.local,
                };
                assert(copy@ =~= e@);
                kept.push(copy);
                assert(entry_views(kept@) =~= had.push(e@));
            }
            i += 1;
        }
        assert(all.take(i as int) =~= all);
        self.entries = kept;
        self.rebuild_index();
    }

    /// Add an entry with the directory in which it was entered. Deduplicates (removes prior
    /// occurrence). Returns the record to be appended to the text file.
    pub fn add_in_dir(&mut self, line: &str, cwd: &Option<String>, now: u64) -> (r: Option<String>)
        requires
            old(self).wf(),
        ensures
            final(self).wf(),
            if command_line(line@).len() == 0 {
                r is None && final(self)@ == old(self)@
            } else {
                &&& final(self)@ == old(self)@.added(line@, opt_view(*cwd), now)
                &&& opt_view(r) == Some(
                    record_of(
                        now,
                        old(self)@.session_id,
                        opt_view(*cwd),
                        command_line(line@),
                    ),
                )
            },
    {
        let clean = clean_line(line);
        if clean.as_str().is_empty() {
            return None;
        }
        let text = cut_text(clean.as_str());
        let ghost before = self@;
        let n = self.entries.len();
        let known = index_get(&self.index_by_hash, hash_str(text.as_str()));
        if known.is_some() {
            self.remove_entries_matching(text.as_str());
        } else {
            proof {
                lemma_index_of(texts(self@.entries), n as int);
                assert forall|i: int| 0 <= i < before.entries.len() implies (
                #[trigger] before.entries[i]).text != text@ by {
                    assert(texts(before.entries)[i] == before.entries[i].text);
                }
                lemma_without(before.entries, text@);
            }
        }
        let record = format_record(now, self.session_id, cwd, clean.as_str());
        let e = HistoryEntry {
            text,
            timestamp: now,
            session_id: self.session_id,
            cwd: clone_cwd(cwd),
            local: true,
        };
        self.push_entry(e);
        Some(record)
    }

    /// What is to be done with a history file of the given size.
    pub fn sync_step(&self, file_size: u64) -> (r: SyncStep)
        ensures
            r == (if file_size == self@.file_pos {
                SyncStep::Nothing
            } else if file_size < self@.file_pos {
                SyncStep::Truncated
            } else {
                SyncStep::ReadTail
            }),
    {
        if file_size == self.file_pos {
            SyncStep::Nothing
        } else if file_size < self.file_pos {
            SyncStep::Truncated
        } else {
            SyncStep::ReadTail
        }
    }

    /// Read new entries appended to the text file by other shell instances.
    pub fn sync(&mut self, tail: &str, ts: u64, file_size: u64)
        requires
            old(self).wf(),
        ensures
            final(self).wf(),
            final(self)@ == (HistoryView {
                file_pos: file_size,
                ..old(self)@.synced(lines(tail@), lines(tail@).len() as int, ts)
            }),
    {
        let ls = lines_of(tail);
        let ghost lv = strs(ls@);
        let mut i: usize = 0;
        while i < ls.len()
            invariant
                i <= ls.len(),
                lv == strs(ls@),
                self.wf(),
                self@ == old(self)@.synced(lv, i as int, ts),
            decreases ls.len() - i,
        {
            assert(lv[i as int] == ls@[i as int]@);
            match parse_history_line(ls[i].as_str(), ts) {
                Some(p) => {
                    self.sync_line(
                        cut_text(p.command.as_str()),
                        p.timestamp,
                        p.session_id,
                        p.cwd,
                        Ghost(p@),
                    );
                },
                None => {},
            }
            i += 1;
        }
        self.file_pos = file_size;
    }

    fn sync_line(
        &mut self,
        text: String,
        timestamp: u64,
        session_id: u64,
        cwd: Option<String>,
        Ghost(p): Ghost<ParsedView>,
    )
        requires
            old(self).wf(),
            loaded_entry(p) == (HistoryEntryView {
                text: text@,
                timestamp,
                session_id,
                cwd: opt_view(cwd),
                local: false,
            }),
        ensures
            final(self).wf(),
            final(self)@ == old(self)@.synced_line(p),
    {
        let ghost before = self@;
        match self.find_entry_index(text.as_str()) {
            Some(i) => {
                if self.is_session_visible(i) {
                    return;
                }
                self.entries.remove(i);
                assert(self@.entries =~= before.entries.remove(i as int));
                self.rebuild_index();
            },
            None => {},
        }
        self.push_entry(HistoryEntry { text, timestamp, session_id, cwd, local: false });
    }

    /// What the cache keeps of the entries.
    pub fn cache_entries(&self) -> (r: Vec<CachedEntry>)
        ensures
            cached_views(r@) == self@.cached(),
    {
        let mut out: Vec<CachedEntry> = Vec::new();
        let mut i: usize = 0;
        let ghost goal = self@.cached();
        while i < self.entries.len()
            invariant
                i <= self.entries.len(),
                goal == self@.cached(),
                out.len() == i,
                forall|k: int| 0 <= k < i ==> (#[trigger] out@[k])@ == goal[k],
            decreases self.entries.len() - i,
        {
            let e = &self.entries[i];
            let cwd = clone_cwd(&e.cwd);
            let c = CachedEntry { text: e.text.clone(), timestamp: e.timestamp, cwd };
            assert(c@ =~= goal[i as int]);
            out.push(c);
            i += 1;
        }
        assert(cached_views(out@) =~= goal);
        out
    }

    /// The records of all entries, as the text file holds them.
    pub fn records(&self) -> (r: Vec<String>)
        ensures
            r.len() == self@.entries.len(),
            forall|i: int|
                0 <= i < r.len() ==> (#[trigger] r@[i])@ == record_of(
                    self@.entries[i].timestamp,
                    self@.entries[i].session_id,
                    self@.entries[i].cwd,
                    self@.entries[i].text,
                ),
    {
        let mut out: Vec<String> = Vec::new();
        let mut i: usize = 0;
        while i < self.entries.len()
            invariant
                i <= self.entries.len(),
                out.len() == i,
                forall|k: int|
                    0 <= k < i ==> (#[trigger] out@[k])@ == record_of(
                        self@.entries[k].timestamp,
                        self@.entries[k].session_id,
                        self@.entries[k].cwd,
                        self@.entries[k].text,
                    ),
            decreases self.entries.len() - i,
        {
            let e = &self.entries[i];
            out.push(format_record(e.timestamp, e.session_id, &e.cwd, e.text.as_str()));
            i += 1;
        }
        out
    }

    // -- Recall --

    fn nth_selected(&self, prefix: &str, session_only: bool, skip: usize) -> (r: Option<&str>)
        ensures
            match self@.nth_back(
                prefix@,
                session_only,
                skip as int,
                self@.entries.len() as int,
            ) {
                Some(i) => r matches Some(s) && s@ == self@.entries[i].text,
                None => r is None,
            },
    {
        let p = chars_of(prefix);
        let mut left: usize = skip;
        let mut n: usize = self.entries.len();
        while n > 0
            invariant
                n <= self.entries.len(),
                p@ == prefix@,
                self@.nth_back(
                    prefix@,
                    session_only,
                    skip as int,
                    self@.entries.len() as int,
                ) == self@.nth_back(prefix@, session_only, left as int, n as int),
            decreases n,
        {
            let t = chars_of(self.entries[n - 1].text.as_str());
            if matches_at(&t, &p, 0) && (!session_only || self.is_session_visible(n - 1)) {
                if left == 0 {
                    return Some(self.entries[n - 1].text.as_str());
                }
                left -= 1;
            }
            n -= 1;
        }
        None
    }

    /// Prefix search: find entries that start with `prefix`, starting from
    /// the end and skipping `skip` matches. Returns the entry text.
    pub fn prefix_search(&self, prefix: &str, skip: usize) -> (r: Option<&str>)
        ensures
            match self@.nth_back(prefix@, false, skip as int, self@.entries.len() as int) {
                Some(i) => r matches Some(s) && s@ == self@.entries[i].text,
                None => r is None,
            },
    {
        self.nth_selected(prefix, false, skip)
    }

    /// Get the `skip`'th session-visible entry from the end (for up-arrow
    /// navigation). Session-visible entries are those present when the shell
    /// started plus those added by this shell.
    pub fn session_get(&self, skip: usize) -> (r: Option<&str>)
        ensures
            match self@.nth_back(""@, true, skip as int, self@.entries.len() as int) {
                Some(i) => r matches Some(s) && s@ == self@.entries[i].text,
                None => r is None,
            },
    {
        self.nth_selected("", true, skip)
    }

    /// Prefix search over session-visible entries only (for up-arrow with
    /// partial input).
    pub fn session_prefix_search(&self, prefix: &str, skip: usize) -> (r: Option<&str>)
        ensures
            match self@.nth_back(prefix@, true, skip as int, self@.entries.len() as int) {
                Some(i) => r matches Some(s) && s@ == self@.entries[i].text,
                None => r is None,
            },
    {
        self.nth_selected(prefix, true, skip)
    }

    // -- Search --

    fn weight(&self, idx: usize, cwd: &Option<String>) -> (r: i16)
        requires
            idx < self@.entries.len(),
        ensures
            r == self@.cwd_weight(idx as int, opt_view(*cwd)),
            0 <= r <= CWD_WEIGHT,
    {
        match (cwd, &self.entries[idx].cwd) {
            (Some(c), Some(d)) => if is_within(c.as_str(), d.as_str()) {
                CWD_WEIGHT
            } else {
                0
            },
            _ => 0,
        }
    }

    fn find_match(&self, q: &Vec<char>, idx: usize, cwd: &Option<String>) -> (r: Option<FuzzyMatch>)
        requires
            idx < self@.entries.len(),
        ensures
            match self@.match_of(q@, opt_view(*cwd), idx as int) {
                Some(m) => r matches Some(x) && x@ == m,
                None => r is None,
            },
    {
        let w = self.weight(idx, cwd);
        if q.len() == 0 {
            let m = FuzzyMatch {
                entry_idx: idx,
                match_positions: [0; 32],
                match_count: 0,
                score: w,
            };
            assert(m@.positions =~= Seq::new(32, |k: int| 0u16));
            return Some(m);
        }
        match classify_match(q.as_slice(), self.entries[idx].text.as_str(), idx) {
            None => None,
            Some(m) => {
                proof {
                    crate::history::lemma_score(q@, self@.entries[idx as int].text, idx as int);
                }
                Some(
                    FuzzyMatch {
                        entry_idx: m.entry_idx,
                        match_positions: m.match_positions,
                        match_count: m.match_count,
                        score: m.score + w,
                    },
                )
            },
        }
    }

    /// The matches of all visible entries, the latest first.
    fn collect_matches(&self, q: &Vec<char>, cwd: &Option<String>) -> (r: Vec<FuzzyMatch>)
        ensures
            match_views(r@) == self@.matches_of(
                q@,
                opt_view(*cwd),
                self@.entries.len() as int,
            ),
    {
        let mut out: Vec<FuzzyMatch> = Vec::new();
        let mut n: usize = self.entries.len();
        let ghost c = opt_view(*cwd);
        let ghost all = self@.matches_of(q@, c, n as int);
        assert(match_views(out@) + all =~= all);
        while n > 0
            invariant
                n <= self.entries.len(),
                c == opt_view(*cwd),
                all == self@.matches_of(q@, c, self@.entries.len() as int),
                all == match_views(out@) + self@.matches_of(q@, c, n as int),
            decreases n,
        {
            if self.is_session_visible(n - 1) {
                match self.find_match(q, n - 1, cwd) {
                    Some(m) => {
                        let ghost had = match_views(out@);
                        let ghost rest = self@.matches_of(q@, c, n - 1);
                        out.push(m);
                        assert(match_views(out@) =~= had + seq![m@]);
                        assert(had + (seq![m@] + rest) =~= match_views(out@) + rest);
                    },
                    None => {},
                }
            }
            n -= 1;
        }
        assert(match_views(out@) + Seq::<MatchView>::empty() =~= match_views(out@));
        out
    }

    /// History search used by Ctrl+R.
    ///
    /// Ranking is intentionally simple and recency-friendly:
    /// 1. prefix match
    /// 2. substring match at a word boundary
    /// 3. other substring match
    /// 4. subsequence fallback
    ///
    /// Within a tier, newer entries win.
    pub fn fuzzy_search(&self, query: &str) -> (r: Vec<FuzzyMatch>)
        ensures
            self.found(query@, None, match_views(r@)),
    {
        self.search(query, &None)
    }

    /// `r` holds the matches of the query in the order of their rank.
    pub open spec fn found(
        &self,
        query: Seq<char>,
        cwd: Option<Seq<char>>,
        r: Seq<MatchView>,
    ) -> bool {
        stable_sorted(
            self@.matches_of(lowercased(query), cwd, self@.entries.len() as int),
            r,
            rank_order(),
        )
    }

    fn search(&self, query: &str, cwd: &Option<String>) -> (r: Vec<FuzzyMatch>)
        ensures
            self.found(query@, opt_view(*cwd), match_views(r@)),
    {
        let q = lowercase_query(query);
        let all = self.collect_matches(&q, cwd);
        sort_matches(&all)
    }

    /// Like `fuzzy_search`, with a boost for entries of `cwd` unless that is empty.
    pub fn fuzzy_search_scored(&self, query: &str, cwd: &str) -> (r: Vec<FuzzyMatch>)
        ensures
            self.found(query@, non_empty_cwd(cwd@), match_views(r@)),
    {
        self.search(query, &some_cwd(cwd))
    }

    /// Search with a priority boost for entries recorded in an ancestor directory.
    pub fn fuzzy_search_in_dir(&self, query: &str, cwd: &str) -> (r: Vec<FuzzyMatch>)
        ensures
            self.found(query@, Some(cwd@), match_views(r@)),
    {
        self.search(query, &Some(cwd.to_owned()))
    }

    /// `r` holds the best `limit` matches. An empty query has the latest entries, in the
    /// order of their rank.
    pub open spec fn found_limited(
        &self,
        query: Seq<char>,
        cwd: Option<Seq<char>>,
        limit: int,
        r: Seq<MatchView>,
    ) -> bool {
        let all = self@.matches_of(lowercased(query), cwd, self@.entries.len() as int);
        if lowercased(query).len() == 0 {
            stable_sorted(first_matches(all, limit), r, rank_order())
        } else {
            exists|sorted: Seq<MatchView>| #[trigger]
                stable_sorted(all, sorted, rank_order()) && r == first_matches(sorted, limit)
        }
    }

    /// Like `fuzzy_search` but into a caller-owned Vec.
    /// Caps at `limit` results since the pager only shows a screenful.
    pub fn fuzzy_search_into(
        &self,
        query: &str,
        results: &mut Vec<FuzzyMatch>,
        limit: usize,
        cwd: &str,
    )
        ensures
            self.found_limited(
                query@,
                non_empty_cwd(cwd@),
                limit as int,
                match_views(final(results)@),
            ),
    {
        *results = self.search_limited(query, limit, &some_cwd(cwd));
    }

    /// Search with cwd weighting into a caller-owned result buffer.
    pub fn fuzzy_search_into_in_dir(
        &self,
        query: &str,
        results: &mut Vec<FuzzyMatch>,
        limit: usize,
        cwd: &str,
    )
        ensures
            self.found_limited(
                query@,
                Some(cwd@),
                limit as int,
                match_views(final(results)@),
            ),
    {
        *results = self.search_limited(query, limit, &Some(cwd.to_owned()));
    }

    fn search_limited(&self, query: &str, limit: usize, cwd: &Option<String>) -> (r: Vec<
        FuzzyMatch,
    >)
        ensures
            self.found_limited(query@, opt_view(*cwd), limit as int, match_views(r@)),
    {
        let q = lowercase_query(query);
        let mut all = self.collect_matches(&q, cwd);
        if q.len() == 0 {
            truncate_matches(&mut all, limit);
            sort_matches(&all)
        } else {
            let mut sorted = sort_matches(&all);
            let ghost sv = match_views(sorted@);
            truncate_matches(&mut sorted, limit);
            assert(stable_sorted(match_views(all@), sv, rank_order()));
            sorted
        }
    }

    /// Fill `out` with session-visible entry indices in recency order.
    pub fn visible_entry_indices_into(&self, out: &mut Vec<usize>)
        ensures
            final(out)@.map_values(|x: usize| x as int) == self@.visible_entries(
                self@.entries.len() as int,
            ),
    {
        let mut v: Vec<usize> = Vec::new();
        let mut n: usize = self.entries.len();
        let ghost f = |x: usize| x as int;
        let ghost all = self@.visible_entries(n as int);
        assert(v@.map_values(f) + all =~= all);
        while n > 0
            invariant
                n <= self.entries.len(),
                f == (|x: usize| x as int),
                all == self@.visible_entries(self@.entries.len() as int),
                all == v@.map_values(f) + self@.visible_entries(n as int),
            decreases n,
        {
            if self.is_session_visible(n - 1) {
                let ghost had = v@.map_values(f);
                let ghost rest = self@.visible_entries(n - 1);
                v.push(n - 1);
                assert(v@.map_values(f) =~= had + seq![n - 1]);
                assert(had + (seq![n - 1] + rest) =~= v@.map_values(f) + rest);
            }
            n -= 1;
        }
        assert(v@.map_values(f) + Seq::<int>::empty() =~= v@.map_values(f));
        *out = v;
    }

    /// `matched` holds the candidates that match, `r` the best `limit` of their matches.
    pub open spec fn found_among(
        &self,
        query: Seq<char>,
        cwd: Option<Seq<char>>,
        candidates: Seq<usize>,
        limit: int,
        matched: Seq<usize>,
        r: Seq<MatchView>,
    ) -> bool {
        let all = self@.subset_matches(
            lowercased(query),
            cwd,
            candidates,
            candidates.len() as int,
        );
        if limit == 0 {
            matched.len() == 0 && r.len() == 0
        } else {
            &&& matched.map_values(|x: usize| x as int) == all.map_values(|m: MatchView| m.idx)
            &&& exists|sorted: Seq<MatchView>| #[trigger]
                stable_sorted(all, sorted, rank_order()) && r == first_matches(sorted, limit)
        }
    }

    /// Search within an existing candidate set, preserving all matches in
    /// `matched_indices` and the best `limit` ranked results in `results`.
    pub fn fuzzy_search_subset_into(
        &self,
        query: &str,
        candidates: &Vec<usize>,
        matched_indices: &mut Vec<usize>,
        results: &mut Vec<FuzzyMatch>,
        limit: usize,
    )
        requires
            forall|i: int|
                0 <= i < candidates.len() ==> (#[trigger] candidates@[i]) < self@.entries.len(),
        ensures
            self.found_among(
                query@,
                None,
                candidates@,
                limit as int,
                final(matched_indices)@,
                match_views(final(results)@),
            ),
    {
        let (m, r) = self.search_subset(query, candidates, limit, &None);
        *matched_indices = m;
        *results = r;
    }

    /// Search a candidate set with a priority boost for entries recorded in an
    /// ancestor of `cwd`.
    pub fn fuzzy_search_subset_into_in_dir(
        &self,
        query: &str,
        candidates: &Vec<usize>,
        matched_indices: &mut Vec<usize>,
        results: &mut Vec<FuzzyMatch>,
        limit: usize,
        cwd: &str,
    )
        requires
            forall|i: int|
                0 <= i < candidates.len() ==> (#[trigger] candidates@[i]) < self@.entries.len(),
        ensures
            self.found_among(
                query@,
                Some(cwd@),
                candidates@,
                limit as int,
                final(matched_indices)@,
                match_views(final(results)@),
            ),
    {
        let (m, r) = self.search_subset(query, candidates, limit, &Some(cwd.to_owned()));
        *matched_indices = m;
        *results = r;
    }

    fn search_subset(
        &self,
        query: &str,
        candidates: &Vec<usize>,
        limit: usize,
        cwd: &Option<String>,
    ) -> (r: (Vec<usize>, Vec<FuzzyMatch>))
        requires
            forall|i: int|
                0 <= i < candidates.len() ==> (#[trigger] candidates@[i]) < self@.entries.len(),
        ensures
            self.found_among(
                query@,
                opt_view(*cwd),
                candidates@,
                limit as int,
                r.0@,
                match_views(r.1@),
            ),
    {
        let mut matched: Vec<usize> = Vec::new();
        let mut all: Vec<FuzzyMatch> = Vec::new();
        if limit == 0 {
            return (matched, all);
        }
        let q = lowercase_query(query);
        let ghost c = opt_view(*cwd);
        let ghost f = |x: usize| x as int;
        let ghost g = |m: MatchView| m.idx;
        let mut i: usize = 0;
        assert(match_views(all@) =~= self@.subset_matches(q@, c, candidates@, 0));
        assert(matched@.map_values(f) =~= match_views(all@).map_values(g));
        while i < candidates.len()
            invariant
                i <= candidates.len(),
                c == opt_view(*cwd),
                f == (|x: usize| x as int),
                g == (|m: MatchView| m.idx),
                forall|k: int|
                    0 <= k < candidates.len() ==> (#[trigger] candidates@[k])
                        < self@.entries.len(),
                match_views(all@) == self@.subset_matches(q@, c, candidates@, i as int),
                matched@.map_values(f) == match_views(all@).map_values(g),
            decreases candidates.len() - i,
        {
            match self.find_match(&q, candidates[i], cwd) {
                Some(m) => {
                    let ghost had = match_views(all@);
                    let ghost hm = matched@.map_values(f);
                    proof {
                        lemma_match_idx(self@, q@, c, candidates@[i as int] as int);
                    }
                    matched.push(candidates[i]);
                    all.push(m);
                    assert(match_views(all@) =~= had.push(m@));
                    assert(matched@.map_values(f) =~= hm.push(candidates@[i as int] as int));
                    assert(match_views(all@).map_values(g) =~= had.map_values(g).push(m@.idx));
                },
                None => {},
            }
            i += 1;
        }
        let mut sorted = sort_matches(&all);
        let ghost sv = match_views(sorted@);
        truncate_matches(&mut sorted, limit);
        assert(stable_sorted(match_views(all@), sv, rank_order()));
        (matched, sorted)
    }
}

proof fn lemma_match_idx(v: HistoryView, q: Seq<char>, cwd: Option<Seq<char>>, i: int)
    ensures
        v.match_of(q, cwd, i) matches Some(m) ==> m.idx == i,
{
}

proof fn lemma_score(q: Seq<char>, text: Seq<char>, i: int)
    ensures
        classified(q, text, i) matches Some(m) ==> 0 <= m.score <= 3,
{
}

/// A directory to search for, where it is not empty.
pub open spec fn non_empty_cwd(cwd: Seq<char>) -> Option<Seq<char>> {
    if cwd.len() == 0 {
        None
    } else {
        Some(cwd)
    }
}

fn some_cwd(cwd: &str) -> (r: Option<String>)
    ensures
        opt_view(r) == non_empty_cwd(cwd@),
{
    if cwd.is_empty() {
        None
    } else {
        Some(cwd.to_owned())
    }
}

/// The first `limit` matches.
pub open spec fn first_matches(v: Seq<MatchView>, limit: int) -> Seq<MatchView> {
    if v.len() <= limit {
        v
    } else {
        v.take(limit)
    }
}

fn truncate_matches(v: &mut Vec<FuzzyMatch>, limit: usize)
    ensures
        match_views(final(v)@) == first_matches(match_views(old(v)@), limit as int),
{
    v.truncate(limit);
    assert(match_views(v@) =~= first_matches(match_views(old(v)@), limit as int));
}

fn sort_matches(v: &Vec<FuzzyMatch>) -> (r: Vec<FuzzyMatch>)
    ensures
        stable_sorted(match_views(v@), match_views(r@), rank_order()),
{
    let n = v.len();
    let o = order_of(v);
    let mut out: Vec<FuzzyMatch> = Vec::new();
    proof {
        lemma_members(o@, 0, n as int);
        assert forall|i: int, j: int|
            #![trigger v@[i], v@[j]]
            0 <= i < n && 0 <= j < n implies crate::sort::Ranked::at_most(&v@[i], &v@[j])
            == rank_order()(match_views(v@)[i], match_views(v@)[j]) by {}
        lemma_sorted_by_keys(v@, match_views(v@), o@, rank_order());
    }
    let mut i: usize = 0;
    while i < o.len()
        invariant
            i <= o.len(),
            n == v.len(),
            out.len() == i,
            forall|k: int| 0 <= k < o.len() ==> (#[trigger] o@[k]) < n,
            forall|k: int| 0 <= k < i ==> #[trigger] out@[k] == v@[o@[k] as int],
        decreases o.len() - i,
    {
        out.push(v[o[i]]);
        i += 1;
    }
    assert(match_views(out@) =~= arranged(match_views(v@), o@));
    out
}

fn clean_line(line: &str) -> (r: String)
    ensures
        r@ == command_line(line@),
{
    let t = chars_of(trim(line).as_str());
    let mut out: Vec<char> = Vec::new();
    let mut i: usize = 0;
    while i < t.len()
        invariant
            i <= t.len(),
            out.len() == i,
            forall|k: int|
                0 <= k < i ==> #[trigger] out@[k] == (if t@[k] == '\n' {
                    ' '
                } else {
                    t@[k]
                }),
        decreases t.len() - i,
    {
        if t[i] == '\n' {
            out.push(' ');
        } else {
            out.push(t[i]);
        }
        i += 1;
    }
    assert(out@ =~= Seq::new(
        t@.len(),
        |i: int|
            if t@[i] == '\n' {
                ' '
            } else {
                t@[i]
            },
    ));
    trim(string_of(out.as_slice()).as_str())
}

spec fn parsed_views(v: Seq<crate::history_log::ParsedHistoryLine>) -> Seq<ParsedView> {
    Seq::new(v.len(), |i: int| v[i]@)
}

/// The entries of the lines at the given places, the last place first.
spec fn picked(ls: Seq<ParsedView>, back: Seq<usize>) -> Seq<HistoryEntryView> {
    Seq::new(
        back.len(),
        |i: int| loaded_entry(ls[back[back.len() - 1 - i] as int]),
    )
}

fn read_lines(data: &Vec<u8>, fallback_ts: u64) -> (r: Vec<crate::history_log::ParsedHistoryLine>)
    ensures
        parsed_views(r@) == file_lines(data@, 0, fallback_ts),
{
    let mut out: Vec<crate::history_log::ParsedHistoryLine> = Vec::new();
    let mut i: usize = 0;
    let ghost all = file_lines(data@, 0, fallback_ts);
    assert(parsed_views(out@) + all =~= all);
    loop
        invariant
            i <= data.len(),
            all == file_lines(data@, 0, fallback_ts),
            all == parsed_views(out@) + file_lines(data@, i as int, fallback_ts),
        decreases data.len() - i,
    {
        let mut e: usize = i;
        while e < data.len() && data[e] != 10
            invariant
                i <= e <= data.len(),
                chunk_end(data@, i as int) == chunk_end(data@, e as int),
            decreases data.len() - e,
        {
            e += 1;
        }
        let ghost had = parsed_views(out@);
        let ghost mut here: Seq<ParsedView> = Seq::empty();
        match text_at(data, i, e) {
            Some(t) => {
                match parse_history_line(t.as_str(), fallback_ts) {
                    Some(p) => {
                        proof {
                            here = seq![p@];
                        }
                        out.push(p);
                    },
                    None => {},
                }
            },
            None => {},
        }
        assert(parsed_views(out@) =~= had + here);
        if e >= data.len() {
            return out;
        }
        assert(had + (here + file_lines(data@, e + 1, fallback_ts)) =~= (had + here)
            + file_lines(data@, e + 1, fallback_ts));
        i = e + 1;
    }
}

/// The commands of the first `n` lines, each with a newline.
pub open spec fn commands_text(ls: Seq<ParsedView>, n: int) -> Seq<char>
    decreases n,
{
    if n <= 0 {
        Seq::empty()
    } else {
        commands_text(ls, n - 1) + ls[n - 1].command + seq!['\n']
    }
}

/// The commands of a history file, without what is recorded beside them.
pub fn render_history_file(data: &Vec<u8>, fallback_ts: u64) -> (r: String)
    ensures
        r@ == commands_text(
            file_lines(data@, 0, fallback_ts),
            file_lines(data@, 0, fallback_ts).len() as int,
        ),
{
    let ls = read_lines(data, fallback_ts);
    let ghost lv = parsed_views(ls@);
    let mut out: Vec<char> = Vec::new();
    let mut i: usize = 0;
    while i < ls.len()
        invariant
            i <= ls.len(),
            lv == parsed_views(ls@),
            out@ == commands_text(lv, i as int),
        decreases ls.len() - i,
    {
        assert(lv[i as int] == ls@[i as int]@);
        let ghost had = out@;
        push_str(&mut out, ls[i].command.as_str());
        out.push('\n');
        assert(out@ =~= had + lv[i as int].command + seq!['\n']);
        i += 1;
    }
    string_of(out.as_slice())
}

/// The session id of a shell started at `now` with the process id `pid`.
pub fn new_session_id(now: u64, pid: u64) -> (r: u64)
    ensures
        r == (now << 16u64) ^ pid,
{
    (now << 16u64) ^ pid
}

// -- Laws --

/// Adding a command leaves exactly one entry of it, the last.
pub proof fn law_add_deduplicates(
    v: HistoryView,
    line: Seq<char>,
    cwd: Option<Seq<char>>,
    now: u64,
)
    ensures
        ({
            let text = cut(command_line(line));
            let w = v.added(line, cwd, now);
            &&& w.entries.len() > 0
            &&& w.entries.last().text == text
            &&& forall|i: int|
                0 <= i < w.entries.len() - 1 ==> (#[trigger] w.entries[i]).text != text
        }),
{
    let text = cut(command_line(line));
    lemma_without(v.entries, text);
    let w = v.added(line, cwd, now);
    assert forall|i: int| 0 <= i < w.entries.len() - 1 implies (#[trigger] w.entries[i]).text
        != text by {
        assert(w.entries[i] == without(v.entries, text)[i]);
    }
}

/// What is added is what Up-arrow recalls first, with the full command recorded.
pub proof fn law_added_is_recalled_first(
    v: HistoryView,
    line: Seq<char>,
    cwd: Option<Seq<char>>,
    now: u64,
)
    ensures
        ({
            let w = v.added(line, cwd, now);
            w.nth_back(""@, true, 0, w.entries.len() as int) == Some(w.entries.len() - 1)
        }),
{
    let w = v.added(line, cwd, now);
    reveal_strlit("");
    assert(""@ =~= Seq::empty());
    assert(w.entries.last().text.subrange(0, 0) =~= ""@);
}

/// Reading a line that another shell wrote leaves alone what this session can recall: every
/// visible entry stays, in the same order.
pub proof fn law_sync_keeps_visible(v: HistoryView, p: ParsedView, i: int)
    requires
        0 <= i < v.entries.len() <= usize::MAX,
        v.visible(i),
    ensures
        exists|j: int|
            0 <= j <= i && j < v.synced_line(p).entries.len() && #[trigger]
            v.synced_line(p).entries[j] == v.entries[i],
{
    let w = v.synced_line(p);
    let e = loaded_entry(p);
    match entry_with(v.entries, e.text) {
        Some(k) => {
            if v.visible(k) {
                assert(w.entries[i] == v.entries[i]);
            } else {
                lemma_entry_with(v.entries, e.text);
                if i < k {
                    assert(w.entries[i] == v.entries[i]);
                } else {
                    assert(k < i);
                    assert(w.entries[i - 1] == v.entries[i]);
                }
            }
        },
        None => {
            assert(w.entries[i] == v.entries[i]);
        },
    }
}

proof fn lemma_first_equal(v: Seq<HistoryEntryView>, text: Seq<char>, i: int)
    requires
        0 <= i,
    ensures
        first_equal(v, text, i) matches Some(k) ==> i <= k < v.len() && v[k].text == text,
    decreases v.len() - i,
{
    if i < v.len() && v[i].text != text {
        lemma_first_equal(v, text, i + 1);
    }
}

/// The entry found for a command is an entry with that command.
pub proof fn lemma_entry_with(v: Seq<HistoryEntryView>, text: Seq<char>)
    requires
        v.len() <= usize::MAX,
    ensures
        entry_with(v, text) matches Some(k) ==> 0 <= k < v.len() && v[k].text == text,
{
    lemma_first_equal(v, text, 0);
    lemma_index_of(texts(v), v.len() as int);
}

/// Typing on narrows a search: an entry that matches a query matches its start.
pub proof fn law_search_narrows(
    v: HistoryView,
    a: Seq<char>,
    b: Seq<char>,
    cwd: Option<Seq<char>>,
    i: int,
)
    requires
        v.match_of(lowercased(a + b), cwd, i) is Some,
    ensures
        v.match_of(lowercased(a), cwd, i) is Some,
{
    lemma_lowercased_concat(a, b);
    if lowercased(a).len() > 0 {
        law_longer_query_narrows(lowercased(a), lowercased(b), v.entries[i].text, i);
    }
}

proof fn lemma_subset_prefix(
    v: HistoryView,
    q: Seq<char>,
    cwd: Option<Seq<char>>,
    c: Seq<usize>,
    d: Seq<usize>,
    n: int,
)
    requires
        n <= c.len(),
        n <= d.len(),
        forall|k: int| 0 <= k < n ==> c[k] == d[k],
    ensures
        v.subset_matches(q, cwd, c, n) == v.subset_matches(q, cwd, d, n),
    decreases n,
{
    if n > 0 {
        lemma_subset_prefix(v, q, cwd, c, d, n - 1);
    }
}

/// Searching only among the matches of the start of a query finds what a search among all
/// candidates finds.
pub proof fn law_incremental_search(
    v: HistoryView,
    a: Seq<char>,
    b: Seq<char>,
    cwd: Option<Seq<char>>,
    candidates: Seq<usize>,
    n: int,
    matched: Seq<usize>,
)
    requires
        0 <= n <= candidates.len(),
        matched.map_values(|x: usize| x as int) == v.subset_matches(
            lowercased(a),
            cwd,
            candidates,
            n,
        ).map_values(|m: MatchView| m.idx),
    ensures
        v.subset_matches(lowercased(a + b), cwd, matched, matched.len() as int)
            == v.subset_matches(lowercased(a + b), cwd, candidates, n),
    decreases n,
{
    let q = lowercased(a);
    let p = lowercased(a + b);
    let f = |x: usize| x as int;
    let g = |m: MatchView| m.idx;
    let all = v.subset_matches(q, cwd, candidates, n);
    if n == 0 {
        assert(all.map_values(g).len() == 0);
        assert(matched.map_values(f).len() == matched.len());
    } else {
        let last = candidates[n - 1];
        let before = v.subset_matches(q, cwd, candidates, n - 1);
        if v.match_of(q, cwd, last as int) is Some {
            let m = v.match_of(q, cwd, last as int)->0;
            lemma_match_idx(v, q, cwd, last as int);
            assert(all =~= before.push(m));
            assert(all.map_values(g) =~= before.map_values(g).push(last as int));
            assert(matched.map_values(f).len() == matched.len());
            let front = matched.drop_last();
            assert(matched.map_values(f).last() == matched.last() as int);
            assert(front.map_values(f) =~= matched.map_values(f).drop_last());
            assert(front.map_values(f) =~= before.map_values(g));
            law_incremental_search(v, a, b, cwd, candidates, n - 1, front);
            lemma_subset_prefix(v, p, cwd, matched, front, front.len() as int);
            assert(matched.last() == last);
        } else {
            if v.match_of(p, cwd, last as int) is Some {
                law_search_narrows(v, a, b, cwd, last as int);
            }
            law_incremental_search(v, a, b, cwd, candidates, n - 1, matched);
        }
    }
}

/// What a search among candidates finds are candidates.
pub proof fn lemma_subset_members(
    v: HistoryView,
    q: Seq<char>,
    cwd: Option<Seq<char>>,
    candidates: Seq<usize>,
    n: int,
)
    requires
        0 <= n <= candidates.len(),
    ensures
        forall|k: int|
            0 <= k < v.subset_matches(q, cwd, candidates, n).len() ==> exists|j: int|
                0 <= j < n && (#[trigger] v.subset_matches(q, cwd, candidates, n)[k]).idx
                    == #[trigger] candidates[j],
    decreases n,
{
    if n > 0 {
        lemma_subset_members(v, q, cwd, candidates, n - 1);
        let before = v.subset_matches(q, cwd, candidates, n - 1);
        let all = v.subset_matches(q, cwd, candidates, n);
        lemma_match_idx(v, q, cwd, candidates[n - 1] as int);
        assert forall|k: int| 0 <= k < all.len() implies exists|j: int|
            0 <= j < n && (#[trigger] all[k]).idx == #[trigger] candidates[j] by {
            if k < before.len() {
                assert(all[k] == before[k]);
                let j = choose|j: int|
                    0 <= j < n - 1 && before[k].idx == #[trigger] candidates[j];
                assert(all[k].idx == candidates[j]);
            } else {
                assert(all[k].idx == candidates[n - 1]);
            }
        }
    }
}

/// The visible entries are entries.
pub proof fn lemma_visible_entries(v: HistoryView, n: int)
    requires
        0 <= n,
    ensures
        forall|k: int|
            0 <= k < v.visible_entries(n).len() ==> 0 <= (#[trigger] v.visible_entries(n)[k]) < n,
    decreases n,
{
    if n > 0 {
        lemma_visible_entries(v, n - 1);
        let rest = v.visible_entries(n - 1);
        let all = v.visible_entries(n);
        assert forall|k: int| 0 <= k < all.len() implies 0 <= (#[trigger] all[k]) < n by {
            if v.visible(n - 1) {
                if k > 0 {
                    assert(all[k] == rest[k - 1]);
                }
            } else {
                assert(all[k] == rest[k]);
            }
        }
    }
}

} // verus!
