//! The two files of the history: a log that shells append to, and a cache of what was merged.
//!
//! The caller reads and writes the files; here stands what is made of them.
use vstd::prelude::*;
use vstd::utf8::encode_utf8;

use crate::builtin::text3;
use crate::history::{
    command_line, cut, file_lines, from_cached, last_of_each, loaded_entry, texts, History,
    HistoryView, SyncStep,
};
use crate::history_cache::{
    cwds_joined, encode_cache, encoded, law_cache_round_trip, parse_cache, parsed_cache,
    shrink_refused, stated_count, storable, texts_joined,
};
use crate::history_log::{
    law_record_is_one_line, law_record_round_trip, parsed_line, record_of, ParsedView,
};
use crate::index::no_hashes;
use crate::text::{
    decimal, decimal_of, index_from, leading_space, lemma_byte_len_take, lemma_index_from,
    lemma_span_front, lemma_trim_back, lines, lines_from, spec_is_whitespace, string_of, trim_back,
    trimmed,
};
use crate::utf8_bytes::{law_text_round_trip, text_at, text_of};

verus! {

// -- Loading --

/// What was found at the place of the cache.
pub enum CacheFile {
    Missing,
    Unreadable,
    Bytes(Vec<u8>),
}

pub enum CacheFileView {
    Missing,
    Unreadable,
    Bytes(Seq<u8>),
}

impl View for CacheFile {
    type V = CacheFileView;

    open spec fn view(&self) -> CacheFileView {
        match self {
            CacheFile::Missing => CacheFileView::Missing,
            CacheFile::Unreadable => CacheFileView::Unreadable,
            CacheFile::Bytes(b) => CacheFileView::Bytes(b@),
        }
    }
}

pub open spec fn opt_bytes(b: Option<Vec<u8>>) -> Option<Seq<u8>> {
    match b {
        Some(v) => Some(v@),
        None => None,
    }
}

/// The history of a log alone.
pub open spec fn of_log(log: Option<Seq<u8>>, now: u64, session_id: u64, dirty: bool) -> HistoryView {
    let bytes = match log {
        Some(b) => b,
        None => Seq::empty(),
    };
    let ls = file_lines(bytes, 0, now);
    HistoryView {
        entries: last_of_each(ls, ls.len() as int, no_hashes()),
        file_pos: bytes.len() as u64,
        session_cutoff: now,
        session_id,
        cache_dirty: dirty,
    }
}

/// The history once the log has been read on from where it was read to. A log that is shorter
/// was compacted meanwhile; one whose rest is not text is left for later.
pub open spec fn caught_up(h: HistoryView, log: Option<Seq<u8>>, now: u64) -> HistoryView {
    match log {
        None => h,
        Some(b) => if b.len() <= h.file_pos {
            HistoryView { file_pos: b.len() as u64, ..h }
        } else {
            match text_of(b.subrange(h.file_pos as int, b.len() as int)) {
                Some(tail) => HistoryView {
                    file_pos: b.len() as u64,
                    ..h.synced(lines(tail), lines(tail).len() as int, now)
                },
                None => h,
            }
        },
    }
}

/// The history of the two files. A cache that cannot be read is not written over.
pub open spec fn loaded(
    cache: CacheFileView,
    log: Option<Seq<u8>>,
    now: u64,
    session_id: u64,
) -> HistoryView {
    match cache {
        CacheFileView::Missing => of_log(log, now, session_id, false),
        CacheFileView::Unreadable => of_log(log, now, session_id, true),
        CacheFileView::Bytes(b) => match parsed_cache(b) {
            None => of_log(log, now, session_id, true),
            Some(v) => {
                let cached = HistoryView {
                    entries: from_cached(v),
                    file_pos: 0,
                    session_cutoff: 0,
                    session_id,
                    cache_dirty: false,
                };
                HistoryView { session_cutoff: now, ..caught_up(cached, log, now) }
            },
        },
    }
}

/// What is told of a cache that was read.
pub open spec fn load_report(cache: CacheFileView) -> Seq<char> {
    match cache {
        CacheFileView::Bytes(b) => if parsed_cache(b) is None {
            "ish: history cache corrupt ("@ + decimal(b.len())
                + " bytes) \u{2014} loading text file only\n"@
        } else {
            Seq::empty()
        },
        _ => Seq::empty(),
    }
}

fn decimal_text(n: usize) -> (r: String)
    ensures
        r@ == decimal(n as nat),
{
    string_of(decimal_of(n as u64).as_slice())
}

fn bytes_or_none(log: &Option<Vec<u8>>) -> (r: Vec<u8>)
    ensures
        r@ == (match opt_bytes(*log) {
            Some(b) => b,
            None => Seq::<u8>::empty(),
        }),
{
    match log {
        Some(b) => b.clone(),
        None => Vec::new(),
    }
}

/// What is to become of the cache.
pub enum SaveStep {
    /// It stays as it is.
    Keep,
    /// It stays, as it holds far more entries. The text tells.
    Refuse(String),
    /// It is written, and then the log is emptied.
    Write(Vec<u8>),
}

pub enum SaveView {
    Keep,
    Refuse(Seq<char>),
    Write(Seq<u8>),
}

impl View for SaveStep {
    type V = SaveView;

    open spec fn view(&self) -> SaveView {
        match self {
            SaveStep::Keep => SaveView::Keep,
            SaveStep::Refuse(t) => SaveView::Refuse(t@),
            SaveStep::Write(b) => SaveView::Write(b@),
        }
    }
}

/// What a history makes of the cache that is there.
pub open spec fn saved(h: HistoryView, existing: Option<Seq<u8>>) -> SaveView {
    let count = h.entries.len() as int;
    let had = match existing {
        Some(b) => stated_count(b),
        None => 0,
    };
    if h.cache_dirty {
        SaveView::Keep
    } else if count < had / 2 && had > 100 {
        SaveView::Refuse(
            "ish: refusing to shrink history cache from "@ + decimal(had as nat) + " to "@
                + decimal(count as nat) + " entries\n"@,
        )
    } else {
        SaveView::Write(encoded(h.cached()))
    }
}

impl History {
    fn of_log(log: &Option<Vec<u8>>, now: u64, session_id: u64, dirty: bool) -> (r: Self)
        ensures
            r.wf(),
            r@ == of_log(opt_bytes(*log), now, session_id, dirty),
    {
        let bytes = bytes_or_none(log);
        let mut h = History::load_from_text(&bytes, now, session_id);
        h.start_session(now, bytes.len() as u64, dirty);
        h
    }

    /// Loads the history from what the two files hold. Returns also whether the cache is to be
    /// saved, and what is told of it.
    pub fn load_from(cache: &CacheFile, log: &Option<Vec<u8>>, now: u64, session_id: u64) -> (r: (
        Self,
        bool,
        String,
    ))
        ensures
            r.0.wf(),
            r.0@ == loaded(cache@, opt_bytes(*log), now, session_id),
            r.1 == (cache@ == CacheFileView::Missing && r.0@.entries.len() > 0),
            r.2@ == load_report(cache@),
    {
        let quiet = String::new();
        assert(quiet@ =~= Seq::empty());
        match cache {
            CacheFile::Missing => {
                let h = Self::of_log(log, now, session_id, false);
                let save = !h.is_empty();
                (h, save, quiet)
            },
            CacheFile::Unreadable => (Self::of_log(log, now, session_id, true), false, quiet),
            CacheFile::Bytes(b) => match parse_cache(b) {
                None => {
                    let len = decimal_text(b.len());
                    let report = text3(
                        "ish: history cache corrupt (",
                        len.as_str(),
                        " bytes) \u{2014} loading text file only\n",
                    );
                    (Self::of_log(log, now, session_id, true), false, report)
                },
                Some(entries) => {
                    let mut h = History::from_cache(&entries, session_id);
                    h.catch_up(log, now);
                    let pos = h.file_pos();
                    let dirty = h.is_cache_dirty();
                    h.start_session(now, pos, dirty);
                    (h, false, quiet)
                },
            },
        }
    }

    /// Reads the log on from where it was read to.
    pub fn catch_up(&mut self, log: &Option<Vec<u8>>, now: u64)
        requires
            old(self).wf(),
        ensures
            final(self).wf(),
            final(self)@ == caught_up(old(self)@, opt_bytes(*log), now),
    {
        if let Some(b) = log {
            let size = b.len() as u64;
            match self.sync_step(size) {
                SyncStep::Nothing => {},
                SyncStep::Truncated => self.set_file_pos(size),
                SyncStep::ReadTail => {
                    let from = self.file_pos() as usize;
                    if let Some(tail) = text_at(b, from, b.len()) {
                        self.sync(tail.as_str(), now, size);
                    }
                },
            }
        }
    }

    /// What is to become of the cache, given the one that is there.
    pub fn save_cache(&self, existing: &Option<Vec<u8>>) -> (r: SaveStep)
        ensures
            r@ == saved(self@, opt_bytes(*existing)),
    {
        if self.is_cache_dirty() {
            return SaveStep::Keep;
        }
        if let Some(b) = existing {
            if let Some(had) = shrink_refused(b, self.len()) {
                let from = decimal_text(had);
                let to = decimal_text(self.len());
                let start = text3(
                    "ish: refusing to shrink history cache from ",
                    from.as_str(),
                    " to ",
                );
                return SaveStep::Refuse(text3(start.as_str(), to.as_str(), " entries\n"));
            }
        }
        SaveStep::Write(encode_cache(&self.cache_entries()))
    }

    /// Merges the log into the history, and the history into the cache.
    pub fn compact(&mut self, log: &Option<Vec<u8>>, existing: &Option<Vec<u8>>, now: u64) -> (r:
        SaveStep)
        requires
            old(self).wf(),
        ensures
            final(self).wf(),
            final(self)@ == compacted(old(self)@, opt_bytes(*log), now),
            r@ == saved(final(self)@, opt_bytes(*existing)),
    {
        self.set_file_pos(0);
        self.catch_up(log, now);
        self.save_cache(existing)
    }

    /// Makes the history anew from the log. Returns the cache that takes the place of any that
    /// is there, and what is told.
    pub fn rebuild(&mut self, log: &Option<Vec<u8>>, now: u64) -> (r: (Vec<u8>, String))
        ensures
            final(self).wf(),
            final(self)@ == of_log(opt_bytes(*log), now, old(self)@.session_id, false),
            r.0@ == encoded(final(self)@.cached()),
            r.1@ == "ish: rebuilt history cache \u{2014} "@ + decimal(final(self)@.entries.len())
                + " entries\n"@,
    {
        let session_id = self.session_id();
        *self = Self::of_log(log, now, session_id, false);
        let cache = encode_cache(&self.cache_entries());
        let count = decimal_text(self.len());
        let report = text3(
            "ish: rebuilt history cache \u{2014} ",
            count.as_str(),
            " entries\n",
        );
        (cache, report)
    }
}

/// The history once the whole log has been merged into it.
pub open spec fn compacted(h: HistoryView, log: Option<Seq<u8>>, now: u64) -> HistoryView {
    caught_up(HistoryView { file_pos: 0, ..h }, log, now)
}

// -- Laws --

/// What was saved comes back: a history loaded from its own cache, beside the emptied log, has the
/// same commands, with their times and directories.
pub proof fn law_saved_is_loaded(
    h: HistoryView,
    existing: Option<Seq<u8>>,
    now: u64,
    session_id: u64,
)
    requires
        saved(h, existing) is Write,
        forall|k: int| 0 <= k < h.entries.len() ==> storable(#[trigger] h.cached()[k]),
        forall|k: int| 0 <= k < h.entries.len() ==> cut(#[trigger] h.entries[k].text) == h.entries[k].text,
        h.entries.len() <= u32::MAX,
        encode_utf8(texts_joined(h.cached(), 0)).len() <= u32::MAX,
        encode_utf8(cwds_joined(h.cached(), 0)).len() <= u32::MAX,
    ensures
        ({
            let bytes = saved(h, existing)->Write_0;
            let back = loaded(
                CacheFileView::Bytes(bytes),
                Some(Seq::<u8>::empty()),
                now,
                session_id,
            );
            &&& back.cached() == h.cached()
            &&& !back.cache_dirty
        }),
{
    law_cache_round_trip(h.cached());
    let back = loaded(
        CacheFileView::Bytes(encoded(h.cached())),
        Some(Seq::<u8>::empty()),
        now,
        session_id,
    );
    assert(back.cached() =~= h.cached()) by {
        assert forall|k: int| 0 <= k < h.entries.len() implies back.cached()[k]
            == #[trigger] h.cached()[k] by {
            assert(cut(h.entries[k].text) == h.entries[k].text);
        }
    }
}

proof fn lemma_synced_line_keeps(h: HistoryView, p: ParsedView, text: Seq<char>)
    requires
        texts(h.entries).contains(text),
        h.entries.len() <= usize::MAX,
    ensures
        texts(h.synced_line(p).entries).contains(text),
{
    let w = h.synced_line(p);
    let e = loaded_entry(p);
    let i = texts(h.entries).index_of(text);
    assert(h.entries[i].text == text);
    if w.entries != h.entries {
        let n = w.entries.len();
        if text == e.text {
            assert(w.entries[n - 1] == e);
            assert(texts(w.entries)[n - 1] == text);
        } else {
            match crate::history::entry_with(h.entries, e.text) {
                Some(k) => {
                    crate::history::lemma_entry_with(h.entries, e.text);
                    if i < k {
                        assert(texts(w.entries)[i] == text);
                    } else {
                        assert(texts(w.entries)[i - 1] == text);
                    }
                },
                None => {
                    assert(texts(w.entries)[i] == text);
                },
            }
        }
    }
}

proof fn lemma_synced_keeps(h: HistoryView, ls: Seq<Seq<char>>, n: int, ts: u64, text: Seq<char>)
    requires
        texts(h.entries).contains(text),
        0 <= n <= ls.len(),
        h.entries.len() + n <= usize::MAX,
    ensures
        texts(h.synced(ls, n, ts).entries).contains(text),
        h.synced(ls, n, ts).entries.len() <= h.entries.len() + n,
    decreases n,
{
    if n > 0 {
        lemma_synced_keeps(h, ls, n - 1, ts, text);
        let before = h.synced(ls, n - 1, ts);
        match parsed_line(ls[n - 1], ts) {
            Some(p) => {
                lemma_synced_line_keeps(before, p, text);
                crate::history::lemma_entry_with(before.entries, loaded_entry(p).text);
            },
            None => {},
        }
    }
}

/// Reading the log loses no command that the history holds.
pub proof fn law_catching_up_keeps_commands(
    h: HistoryView,
    log: Option<Seq<u8>>,
    now: u64,
    text: Seq<char>,
)
    requires
        texts(h.entries).contains(text),
        log matches Some(b) ==> (text_of(b.subrange(h.file_pos as int, b.len() as int)) matches Some(
            tail,
        ) ==> h.entries.len() + lines(tail).len() <= usize::MAX),
    ensures
        texts(caught_up(h, log, now).entries).contains(text),
{
    if let Some(b) = log {
        if b.len() > h.file_pos {
            if let Some(tail) = text_of(b.subrange(h.file_pos as int, b.len() as int)) {
                lemma_synced_keeps(h, lines(tail), lines(tail).len() as int, now, text);
            }
        }
    }
}

/// A recorded command is one line that does not end in white space.
proof fn lemma_command_line(line: Seq<char>)
    ensures
        !command_line(line).contains('\n'),
        command_line(line).len() > 0 ==> !spec_is_whitespace(command_line(line).last()),
{
    let t = trimmed(line);
    let s = Seq::new(
        t.len(),
        |i: int|
            if t[i] == '\n' {
                ' '
            } else {
                t[i]
            },
    );
    let n = trim_back(s, true);
    lemma_trim_back(s, true);
    lemma_span_front(s.take(n), true);
    let c = command_line(line);
    assert(c =~= s.subrange(leading_space(s.take(n)), n));
    if c.contains('\n') {
        let k = c.index_of('\n');
        assert(s[k + leading_space(s.take(n))] == '\n');
    }
    if c.len() > 0 {
        assert(c.last() == s[n - 1]);
    }
}

/// Shells share their history: a command that one has recorded in the log is in the history of
/// another that then reads the log.
pub proof fn law_recorded_command_is_shared(
    line: Seq<char>,
    cwd: Option<Seq<char>>,
    now: u64,
    session_id: u64,
    other: HistoryView,
    log: Seq<u8>,
    later: u64,
)
    requires
        command_line(line).len() > 0,
        other.file_pos == log.len(),
        other.entries.len() < usize::MAX,
    ensures
        ({
            let record = record_of(now, session_id, cwd, command_line(line));
            let grown = log + encode_utf8(record + seq!['\n']);
            texts(caught_up(other, Some(grown), later).entries).contains(cut(command_line(line)))
        }),
{
    let command = command_line(line);
    let record = record_of(now, session_id, cwd, command);
    let tail = record + seq!['\n'];
    let grown = log + encode_utf8(tail);
    let n = record.len() as int;
    lemma_command_line(line);
    law_record_is_one_line(now, session_id, cwd, command);
    law_record_round_trip(now, session_id, cwd, command, later);
    law_text_round_trip(tail);
    assert(grown.subrange(log.len() as int, grown.len() as int) =~= encode_utf8(tail));
    lemma_byte_len_take(tail, 0);
    lemma_index_from(tail, '\n', 0);
    let k = index_from(tail, '\n', 0);
    assert(tail[n] == '\n');
    if k < n {
        assert(record[k] == '\n');
        assert(record.contains('\n'));
    }
    assert(k == n);
    assert(record.last() == command.last());
    assert(record[n - 1] != '\r');
    assert(tail.subrange(0, n) =~= record);
    assert(lines_from(tail, n + 1) =~= Seq::empty());
    assert(lines(tail) =~= seq![record]);
    let p = ParsedView { command, timestamp: now, session_id, cwd };
    assert(other.synced(lines(tail), 0, later) == other);
    let w = other.synced_line(p);
    assert(other.synced(lines(tail), 1, later) == w);
    let e = loaded_entry(p);
    match crate::history::entry_with(other.entries, e.text) {
        Some(i) => {
            crate::history::lemma_entry_with(other.entries, e.text);
            if other.visible(i) {
                assert(texts(w.entries)[i] == e.text);
            } else {
                assert(texts(w.entries)[w.entries.len() - 1] == e.text);
            }
        },
        None => {
            assert(texts(w.entries)[w.entries.len() - 1] == e.text);
        },
    }
}

} // verus!
