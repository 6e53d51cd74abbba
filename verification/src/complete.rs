//! Tab completion: the list of candidates and the grid they are shown in.
use vstd::prelude::*;
use vstd::utf8::*;

pub use crate::candidates::{
    complete_hostnames, complete_partial_path, complete_path, complete_path_into,
    complete_remote_path,
};
use crate::line::{fit, fit_prefix, lemma_fit, smaller, str_width, width_of};
use crate::sort::{
    arranged, lemma_members, lemma_sorted_by_keys, order_of, range, stable_sorted, Ranked,
};
use crate::term::TermWriter;
use crate::text::{
    byte_len, chars_le, chars_of, lemma_boundary_in_range, lemma_encode_concat, lemma_join_boundary,
    lemma_lex_total, lemma_lex_transitive, lemma_split_boundary, lex_le, lower_chars, lowered,
    split_str, str_eq, str_len, substring,
};

verus! {

/// Most bytes of a name that an entry keeps.
pub const NAME_LIMIT: usize = 255;

/// Paths of this many bytes or more are not looked up.
pub const PATH_LIMIT: usize = 4096;

/// Completion entry: where its name stands in the arena, and what is known of the file.
#[derive(Clone, Copy)]
pub struct CompEntry {
    /// Modification time, 0 for entries that are no paths (hosts, builtins).
    pub mtime: i64,
    pub name_start: u32,
    pub name_len: u8,
    pub name_display_width: u8,
    /// Bit 0: directory, bit 1: link, bit 2: executable, bit 3: host.
    pub flags: u8,
}

impl CompEntry {
    pub open spec fn spec_is_dir(&self) -> bool {
        self.flags & 1 != 0
    }

    pub open spec fn spec_is_link(&self) -> bool {
        self.flags & 2 != 0
    }

    pub open spec fn spec_is_exec(&self) -> bool {
        self.flags & 4 != 0
    }

    pub open spec fn spec_is_host(&self) -> bool {
        self.flags & 8 != 0
    }

    /// Columns of the name and the mark after it.
    pub open spec fn spec_display_width(&self) -> nat {
        self.name_display_width as nat + if self.spec_is_dir() || self.spec_is_host() {
            1nat
        } else {
            0nat
        }
    }

    pub fn display_width(&self) -> (r: usize)
        ensures
            r == self.spec_display_width(),
    {
        let mark: usize = if self.is_dir() || self.is_host() {
            1
        } else {
            0
        };
        self.name_display_width as usize + mark
    }

    pub fn is_dir(&self) -> (r: bool)
        ensures
            r == self.spec_is_dir(),
    {
        self.flags & 1 != 0
    }

    pub fn is_link(&self) -> (r: bool)
        ensures
            r == self.spec_is_link(),
    {
        self.flags & 2 != 0
    }

    pub fn is_exec(&self) -> (r: bool)
        ensures
            r == self.spec_is_exec(),
    {
        self.flags & 4 != 0
    }

    pub fn is_host(&self) -> (r: bool)
        ensures
            r == self.spec_is_host(),
    {
        self.flags & 8 != 0
    }
}

fn pack_flags(is_dir: bool, is_link: bool, is_exec: bool) -> (r: u8)
    ensures
        (r & 1 != 0) == is_dir,
        (r & 2 != 0) == is_link,
        (r & 4 != 0) == is_exec,
        r & 8 == 0,
{
    let a: u8 = if is_dir {
        1
    } else {
        0
    };
    let b: u8 = if is_link {
        2
    } else {
        0
    };
    let c: u8 = if is_exec {
        4
    } else {
        0
    };
    let r = a | b | c;
    assert(((a | b | c) & 1 != 0) == (a == 1) && ((a | b | c) & 2 != 0) == (b == 2) && ((a | b | c)
        & 4 != 0) == (c == 4) && (a | b | c) & 8 == 0) by (bit_vector)
        requires
            a == 0 || a == 1,
            b == 0 || b == 2,
            c == 0 || c == 4,
    ;
    r
}

/// What is known of a candidate.
#[verifier::ext_equal]
pub struct EntryView {
    pub name: Seq<char>,
    pub mtime: int,
    pub width: nat,
    pub is_dir: bool,
    pub is_link: bool,
    pub is_exec: bool,
    pub is_host: bool,
}

/// Completion results. All entry names are stored one after the other in `names`; each
/// entry holds the place of its own.
pub struct Completions {
    pub names: String,
    pub entries: Vec<CompEntry>,
}

/// The name of an entry among `names`.
pub open spec fn entry_text(names: Seq<char>, e: CompEntry) -> Seq<char> {
    decode_utf8(
        encode_utf8(names).subrange(e.name_start as int, e.name_start as int + e.name_len as int),
    )
}

/// The name of an entry starts and ends between characters of `names`.
pub open spec fn entry_ok(names: Seq<char>, e: CompEntry) -> bool {
    let bytes = encode_utf8(names);
    &&& is_char_boundary(bytes, e.name_start as int)
    &&& is_char_boundary(bytes, e.name_start as int + e.name_len as int)
    &&& e.name_start as int + e.name_len as int <= bytes.len()
}

pub open spec fn entry_view(names: Seq<char>, e: CompEntry) -> EntryView {
    EntryView {
        name: entry_text(names, e),
        mtime: e.mtime as int,
        width: e.name_display_width as nat,
        is_dir: e.spec_is_dir(),
        is_link: e.spec_is_link(),
        is_exec: e.spec_is_exec(),
        is_host: e.spec_is_host(),
    }
}

pub open spec fn entry_views(names: Seq<char>, es: Seq<CompEntry>) -> Seq<EntryView> {
    Seq::new(es.len(), |i: int| entry_view(names, es[i]))
}

impl View for Completions {
    type V = Seq<EntryView>;

    open spec fn view(&self) -> Seq<EntryView> {
        entry_views(self.names@, self.entries@)
    }
}

pub open spec fn at_most(n: nat, limit: nat) -> nat {
    if n <= limit {
        n
    } else {
        limit
    }
}

/// What an entry keeps of a name: as many characters as fit.
pub open spec fn kept(name: Seq<char>) -> Seq<char> {
    name.take(fit(name, NAME_LIMIT as int))
}

/// The entry of a file.
pub open spec fn file_entry(
    name: Seq<char>,
    is_dir: bool,
    is_link: bool,
    is_exec: bool,
    mtime: int,
) -> EntryView {
    EntryView {
        name: kept(name),
        mtime,
        width: at_most(width_of(name), NAME_LIMIT as nat),
        is_dir,
        is_link,
        is_exec,
        is_host: false,
    }
}

/// The entry of a host.
pub open spec fn host_entry(name: Seq<char>) -> EntryView {
    EntryView {
        name: kept(name),
        mtime: 0,
        width: at_most(byte_len(name), NAME_LIMIT as nat),
        is_dir: false,
        is_link: false,
        is_exec: false,
        is_host: true,
    }
}

/// Names of ordinary length are kept whole.
pub proof fn law_short_name_kept(name: Seq<char>)
    requires
        byte_len(name) <= NAME_LIMIT,
    ensures
        kept(name) == name,
{
    lemma_fit(name, NAME_LIMIT as int);
    assert(name.take(name.len() as int) =~= name);
}

/// A boundary of a text is a boundary of every text that starts with it.
proof fn lemma_boundary_extends(a: Seq<char>, b: Seq<char>, k: int)
    requires
        is_char_boundary(encode_utf8(a), k),
    ensures
        is_char_boundary(encode_utf8(a + b), k),
        k <= byte_len(a),
{
    encode_utf8_valid_utf8(a);
    lemma_boundary_in_range(encode_utf8(a), k);
    lemma_split_boundary(a, k);
    let x = decode_utf8(encode_utf8(a).subrange(0, k));
    let y = decode_utf8(encode_utf8(a).subrange(k, byte_len(a) as int));
    lemma_join_boundary(x, y + b);
    assert(x + (y + b) =~= a + b);
}

/// Entries keep their names when more is appended.
proof fn lemma_entries_extend(names: Seq<char>, more: Seq<char>, es: Seq<CompEntry>)
    requires
        forall|i: int| 0 <= i < es.len() ==> #[trigger] entry_ok(names, es[i]),
    ensures
        forall|i: int| 0 <= i < es.len() ==> #[trigger] entry_ok(names + more, es[i]),
        entry_views(names + more, es) == entry_views(names, es),
{
    lemma_encode_concat(names, more);
    assert forall|i: int|
        #![trigger entry_ok(names + more, es[i])]
        #![trigger entry_view(names + more, es[i])]
        0 <= i < es.len() implies entry_ok(names + more, es[i]) && entry_view(
        names + more,
        es[i],
    ) == entry_view(names, es[i]) by {
        let e = es[i];
        assert(entry_ok(names, e));
        lemma_boundary_extends(names, more, e.name_start as int);
        lemma_boundary_extends(names, more, e.name_start as int + e.name_len as int);
        assert(encode_utf8(names + more).subrange(
            e.name_start as int,
            e.name_start as int + e.name_len as int,
        ) =~= encode_utf8(names).subrange(
            e.name_start as int,
            e.name_start as int + e.name_len as int,
        ));
    }
    assert(entry_views(names + more, es) =~= entry_views(names, es));
}

/// The end of a text is where a name appended to it starts.
proof fn lemma_new_entry(names: Seq<char>, name: Seq<char>, k: int)
    requires
        0 <= k <= name.len(),
    ensures
        ({
            let x = name.take(k);
            let start = byte_len(names) as int;
            let end = start + byte_len(x) as int;
            &&& is_char_boundary(encode_utf8(names + name), start)
            &&& is_char_boundary(encode_utf8(names + name), end)
            &&& end <= byte_len(names + name)
            &&& decode_utf8(encode_utf8(names + name).subrange(start, end)) == x
        }),
{
    let x = name.take(k);
    let y = name.skip(k);
    lemma_join_boundary(names, name);
    lemma_join_boundary(names + x, y);
    assert((names + x) + y =~= names + name);
    lemma_encode_concat(names, x);
    lemma_encode_concat(names + x, y);
    encode_utf8_decode_utf8(x);
    assert(encode_utf8(names + name).subrange(
        byte_len(names) as int,
        (byte_len(names) + byte_len(x)) as int,
    ) =~= encode_utf8(x));
}

/// Two boundaries of a text are a boundary of what starts at the first.
proof fn lemma_boundary_suffix(bytes: Seq<u8>, a: int, b: int)
    requires
        valid_utf8(bytes),
        is_char_boundary(bytes, a),
        is_char_boundary(bytes, b),
        0 <= a <= b <= bytes.len(),
    ensures
        valid_utf8(bytes.subrange(a, bytes.len() as int)),
        is_char_boundary(bytes.subrange(a, bytes.len() as int), b - a),
    decreases bytes.len(),
{
    valid_utf8_split(bytes, a);
    if a == 0 {
        assert(bytes.subrange(a, bytes.len() as int) =~= bytes);
    } else {
        let n = length_of_first_scalar(bytes);
        let rest = pop_first_scalar(bytes);
        lemma_boundary_in_range(rest, a - n);
        lemma_boundary_suffix(rest, a - n, b - n);
        assert(rest.subrange(a - n, rest.len() as int) =~= bytes.subrange(
            a,
            bytes.len() as int,
        ));
    }
}

struct NameKey {
    key: Vec<char>,
}

impl Ranked for NameKey {
    closed spec fn at_most(&self, other: &Self) -> bool {
        lex_le(self.key@, other.key@)
    }

    proof fn at_most_total(a: &Self, b: &Self) {
        lemma_lex_total(a.key@, b.key@);
    }

    proof fn at_most_transitive(a: &Self, b: &Self, c: &Self) {
        lemma_lex_transitive(a.key@, b.key@, c.key@);
    }

    fn is_at_most(&self, other: &Self) -> (r: bool) {
        chars_le(&self.key, &other.key)
    }
}

struct TimeKey {
    mtime: i64,
    key: Vec<char>,
}

impl Ranked for TimeKey {
    closed spec fn at_most(&self, other: &Self) -> bool {
        self.mtime > other.mtime || self.mtime == other.mtime && lex_le(self.key@, other.key@)
    }

    proof fn at_most_total(a: &Self, b: &Self) {
        lemma_lex_total(a.key@, b.key@);
    }

    proof fn at_most_transitive(a: &Self, b: &Self, c: &Self) {
        if a.mtime == b.mtime && b.mtime == c.mtime {
            lemma_lex_transitive(a.key@, b.key@, c.key@);
        }
    }

    fn is_at_most(&self, other: &Self) -> (r: bool) {
        self.mtime > other.mtime || (self.mtime == other.mtime && chars_le(
            &self.key,
            &other.key,
        ))
    }
}

/// Order of names up to the case of ASCII letters.
pub open spec fn name_order() -> spec_fn(EntryView, EntryView) -> bool {
    |a: EntryView, b: EntryView| lex_le(lower_chars(a.name), lower_chars(b.name))
}

/// Most recent first, by name where the times are equal.
pub open spec fn time_order() -> spec_fn(EntryView, EntryView) -> bool {
    |a: EntryView, b: EntryView|
        a.mtime > b.mtime || a.mtime == b.mtime && lex_le(
            lower_chars(a.name),
            lower_chars(b.name),
        )
}

/// The entries without those whose name is that of the entry kept before them.
pub open spec fn deduped(v: Seq<EntryView>) -> Seq<EntryView>
    decreases v.len(),
{
    if v.len() == 0 {
        v
    } else {
        let t = deduped(v.drop_last());
        if t.len() > 0 && t.last().name == v.last().name {
            t
        } else {
            t.push(v.last())
        }
    }
}

impl Default for Completions {
    fn default() -> (r: Self)
        ensures
            r.wf(),
            r@ == Seq::<EntryView>::empty(),
            r.names@ == Seq::<char>::empty(),
    {
        Self::new()
    }
}

impl Completions {
    /// Every entry has a name among `names`.
    pub open spec fn wf(&self) -> bool {
        forall|i: int|
            0 <= i < self.entries@.len() ==> #[trigger] entry_ok(self.names@, self.entries@[i])
    }

    pub fn new() -> (r: Self)
        ensures
            r.wf(),
            r@ == Seq::<EntryView>::empty(),
            r.names@ == Seq::<char>::empty(),
    {
        let r = Self { names: String::new(), entries: Vec::new() };
        assert(r@ =~= Seq::<EntryView>::empty());
        assert(r.names@ =~= Seq::<char>::empty());
        r
    }

    /// No results, with room for `entries_cap` entries. The names grow as they come.
    pub fn with_capacity(_names_cap: usize, entries_cap: usize) -> (r: Self)
        ensures
            r.wf(),
            r@ == Seq::<EntryView>::empty(),
            r.names@ == Seq::<char>::empty(),
    {
        let r = Self { names: String::new(), entries: Vec::with_capacity(entries_cap) };
        assert(r@ =~= Seq::<EntryView>::empty());
        assert(r.names@ =~= Seq::<char>::empty());
        r
    }

    pub fn clear(&mut self)
        ensures
            final(self).wf(),
            final(self)@ == Seq::<EntryView>::empty(),
            final(self).names@ == Seq::<char>::empty(),
    {
        self.names = String::new();
        self.entries.clear();
        assert(self@ =~= Seq::<EntryView>::empty());
        assert(self.names@ =~= Seq::<char>::empty());
    }

    pub fn is_empty(&self) -> (r: bool)
        ensures
            r == (self@.len() == 0),
    {
        self.entries.len() == 0
    }

    pub fn len(&self) -> (r: usize)
        ensures
            r == self@.len(),
    {
        self.entries.len()
    }

    /// Get the name of an entry by index.
    pub fn name(&self, idx: usize) -> (r: &str)
        requires
            self.wf(),
            idx < self@.len(),
        ensures
            r@ == self@[idx as int].name,
    {
        assert(entry_ok(self.names@, self.entries@[idx as int]));
        self.entry_name(&self.entries[idx])
    }

    /// Get the name of an entry reference.
    pub fn entry_name(&self, e: &CompEntry) -> (r: &str)
        requires
            entry_ok(self.names@, *e),
        ensures
            r@ == entry_text(self.names@, *e),
    {
        let start = e.name_start as usize;
        let len = e.name_len as usize;
        proof {
            encode_utf8_valid_utf8(self.names@);
            lemma_boundary_suffix(encode_utf8(self.names@), start as int, start + len);
            lemma_split_boundary(self.names@, start as int);
        }
        let (_head, tail) = split_str(self.names.as_str(), start);
        let (name, _rest) = split_str(tail, len);
        proof {
            let bytes = encode_utf8(self.names@);
            assert(encode_utf8(tail@) == bytes.subrange(start as int, bytes.len() as int));
            assert(bytes.subrange(start as int, bytes.len() as int).subrange(0, len as int)
                =~= bytes.subrange(start as int, start + len));
        }
        name
    }

    pub fn push(&mut self, name: &str, is_dir: bool, is_link: bool, is_exec: bool)
        requires
            old(self).wf(),
            byte_len(old(self).names@) <= u32::MAX,
        ensures
            final(self).wf(),
            final(self).entries@.take(old(self).entries@.len() as int) == old(self).entries@,
            final(self)@ == old(self)@.push(file_entry(name@, is_dir, is_link, is_exec, 0)),
            final(self).names@ == old(self).names@ + name@,
    {
        self.push_with_mtime(name, is_dir, is_link, is_exec, 0);
    }

    pub fn push_with_mtime(
        &mut self,
        name: &str,
        is_dir: bool,
        is_link: bool,
        is_exec: bool,
        mtime: i64,
    )
        requires
            old(self).wf(),
            byte_len(old(self).names@) <= u32::MAX,
        ensures
            final(self).wf(),
            final(self).entries@.take(old(self).entries@.len() as int) == old(self).entries@,
            final(self)@ == old(self)@.push(
                file_entry(name@, is_dir, is_link, is_exec, mtime as int),
            ),
            final(self).names@ == old(self).names@ + name@,
    {
        let start = self.begin_entry();
        proof {
            lemma_entries_extend(self.names@, name@, self.entries@);
        }
        self.names.append(name);
        proof {
            lemma_join_boundary(old(self).names@, name@);
            encode_utf8_decode_utf8(name@);
        }
        self.finish_entry_with_mtime(start, is_dir, is_link, is_exec, mtime);
    }

    /// Begin a name by recording the current arena position.
    /// Call `finish_entry` after pushing name parts to `names`.
    pub fn begin_entry(&self) -> (r: u32)
        requires
            byte_len(self.names@) <= u32::MAX,
        ensures
            r == byte_len(self.names@),
    {
        str_len(self.names.as_str()) as u32
    }

    /// Finish an entry whose name starts at `start` in the arena.
    pub fn finish_entry(&mut self, start: u32, is_dir: bool, is_link: bool, is_exec: bool)
        requires
            old(self).wf(),
            is_char_boundary(encode_utf8(old(self).names@), start as int),
        ensures
            final(self).wf(),
            final(self).entries@.take(old(self).entries@.len() as int) == old(self).entries@,
            final(self).names@ == old(self).names@,
            final(self)@ == old(self)@.push(
                file_entry(
                    tail_text(old(self).names@, start as int),
                    is_dir,
                    is_link,
                    is_exec,
                    0,
                ),
            ),
    {
        self.finish_entry_with_mtime(start, is_dir, is_link, is_exec, 0);
    }

    pub fn finish_entry_with_mtime(
        &mut self,
        start: u32,
        is_dir: bool,
        is_link: bool,
        is_exec: bool,
        mtime: i64,
    )
        requires
            old(self).wf(),
            is_char_boundary(encode_utf8(old(self).names@), start as int),
        ensures
            final(self).wf(),
            final(self).entries@.take(old(self).entries@.len() as int) == old(self).entries@,
            final(self).names@ == old(self).names@,
            final(self)@ == old(self)@.push(
                file_entry(
                    tail_text(old(self).names@, start as int),
                    is_dir,
                    is_link,
                    is_exec,
                    mtime as int,
                ),
            ),
    {
        let flags = pack_flags(is_dir, is_link, is_exec);
        let (head, tail) = split_str(self.names.as_str(), start as usize);
        let width = str_width(tail);
        let chars = chars_of(tail);
        let k = fit_prefix(&chars, 0, chars.len(), NAME_LIMIT);
        let short = substring(&chars, 0, k);
        proof {
            assert(chars@.subrange(0, chars@.len() as int) =~= tail@);
            assert(short@ =~= tail@.take(k as int));
            lemma_fit(tail@, NAME_LIMIT as int);
        }
        let name_len: u8 = str_len(short.as_str()) as u8;
        let name_display_width: u8 = if width <= NAME_LIMIT {
            width as u8
        } else {
            255
        };
        let e = CompEntry { mtime, name_start: start, name_len, name_display_width, flags };
        proof {
            lemma_new_entry(head@, tail@, k as int);
            assert(entry_ok(self.names@, e));
            assert(entry_view(self.names@, e) =~= file_entry(
                tail@,
                is_dir,
                is_link,
                is_exec,
                mtime as int,
            ));
        }
        self.entries.push(e);
        assert(self@ =~= old(self)@.push(
            file_entry(tail_text(old(self).names@, start as int), is_dir, is_link, is_exec, mtime as int),
        ));
    }

    /// Adds the name of a host. Host names are ASCII: each byte takes a column.
    pub fn push_host(&mut self, name: &str)
        requires
            old(self).wf(),
            byte_len(old(self).names@) <= u32::MAX,
        ensures
            final(self).wf(),
            final(self).entries@.take(old(self).entries@.len() as int) == old(self).entries@,
            final(self)@ == old(self)@.push(host_entry(name@)),
            final(self).names@ == old(self).names@ + name@,
    {
        let start = self.begin_entry();
        proof {
            lemma_entries_extend(self.names@, name@, self.entries@);
        }
        let chars = chars_of(name);
        let k = fit_prefix(&chars, 0, chars.len(), NAME_LIMIT);
        let short = substring(&chars, 0, k);
        proof {
            assert(chars@.subrange(0, chars@.len() as int) =~= name@);
            assert(short@ =~= name@.take(k as int));
            lemma_fit(name@, NAME_LIMIT as int);
            lemma_new_entry(self.names@, name@, k as int);
            assert(8u8 & 1 == 0 && 8u8 & 2 == 0 && 8u8 & 4 == 0 && 8u8 & 8 != 0) by (bit_vector);
        }
        let len = str_len(name);
        let e = CompEntry {
            mtime: 0,
            name_start: start,
            name_len: str_len(short.as_str()) as u8,
            name_display_width: if len <= NAME_LIMIT {
                len as u8
            } else {
                255
            },
            flags: 8,
        };
        self.names.append(name);
        assert(entry_ok(self.names@, e));
        assert(entry_view(self.names@, e) =~= host_entry(name@));
        self.entries.push(e);
        assert(self@ =~= old(self)@.push(host_entry(name@)));
    }

    /// Puts the entries in the order `o`.
    fn rearrange(&mut self, o: &Vec<usize>)
        requires
            old(self).wf(),
            forall|k: int| 0 <= k < o.len() ==> (#[trigger] o@[k]) < old(self).entries.len(),
        ensures
            final(self).wf(),
            final(self).names@ == old(self).names@,
            final(self)@ == arranged(old(self)@, o@),
    {
        let mut es: Vec<CompEntry> = Vec::new();
        let mut i: usize = 0;
        while i < o.len()
            invariant
                i <= o.len(),
                es.len() == i,
                *self == *old(self),
                forall|k: int| 0 <= k < o.len() ==> (#[trigger] o@[k]) < self.entries.len(),
                forall|k: int| 0 <= k < i ==> #[trigger] es@[k] == self.entries@[o@[k] as int],
            decreases o.len() - i,
        {
            es.push(self.entries[o[i]]);
            i += 1;
        }
        self.entries = es;
        assert forall|k: int| 0 <= k < self.entries@.len() implies #[trigger] entry_ok(
            self.names@,
            self.entries@[k],
        ) by {
            assert(entry_ok(old(self).names@, old(self).entries@[o@[k] as int]));
        }
        assert(self@ =~= arranged(old(self)@, o@));
    }

    /// Sort entries case-insensitively by name.
    pub fn sort_entries(&mut self)
        requires
            old(self).wf(),
        ensures
            final(self).wf(),
            final(self).names@ == old(self).names@,
            stable_sorted(old(self)@, final(self)@, name_order()),
            final(self)@.len() == old(self)@.len(),
    {
        let n = self.entries.len();
        let mut keys: Vec<NameKey> = Vec::new();
        let mut i: usize = 0;
        while i < n
            invariant
                i <= n == self.entries.len(),
                keys.len() == i,
                self.wf(),
                *self == *old(self),
                forall|k: int|
                    0 <= k < i ==> (#[trigger] keys@[k]).key@ == lower_chars(self@[k].name),
            decreases n - i,
        {
            keys.push(NameKey { key: lowered(self.name(i)) });
            i += 1;
        }
        let o = order_of(&keys);
        proof {
            lemma_members(o@, 0, n as int);
            lemma_sorted_by_keys(keys@, self@, o@, name_order());
        }
        self.rearrange(&o);
    }

    /// Sort entries by modification time (most recent first), alphabetical tiebreaker.
    pub fn sort_by_mtime(&mut self)
        requires
            old(self).wf(),
        ensures
            final(self).wf(),
            final(self).names@ == old(self).names@,
            stable_sorted(old(self)@, final(self)@, time_order()),
            final(self)@.len() == old(self)@.len(),
    {
        self.sort_tail_by_mtime(0);
        assert(old(self)@.skip(0) =~= old(self)@);
        assert(self@.skip(0) =~= self@);
    }

    /// Sort the entries from `from` on by modification time.
    pub fn sort_tail_by_mtime(&mut self, from: usize)
        requires
            old(self).wf(),
            from <= old(self)@.len(),
        ensures
            final(self).wf(),
            final(self).names@ == old(self).names@,
            final(self)@.take(from as int) == old(self)@.take(from as int),
            stable_sorted(
                old(self)@.skip(from as int),
                final(self)@.skip(from as int),
                time_order(),
            ),
            final(self)@.len() == old(self)@.len(),
    {
        let n = self.entries.len();
        let mut keys: Vec<TimeKey> = Vec::new();
        let mut i: usize = from;
        while i < n
            invariant
                from <= i <= n == self.entries.len(),
                keys.len() == i - from,
                self.wf(),
                *self == *old(self),
                forall|k: int|
                    0 <= k < i - from ==> (#[trigger] keys@[k]).key@ == lower_chars(
                        self@[from + k].name,
                    ) && keys@[k].mtime == self@[from + k].mtime,
            decreases n - i,
        {
            keys.push(TimeKey { mtime: self.entries[i].mtime, key: lowered(self.name(i)) });
            i += 1;
        }
        let o = order_of(&keys);
        let ghost tail = self@.skip(from as int);
        proof {
            lemma_members(o@, 0, n - from);
            lemma_sorted_by_keys(keys@, tail, o@, time_order());
        }
        let mut all: Vec<usize> = Vec::new();
        let mut k: usize = 0;
        while k < from
            invariant
                k <= from,
                all@ == range(0, k as int),
            decreases from - k,
        {
            all.push(k);
            k += 1;
            assert(all@ =~= range(0, k as int));
        }
        k = 0;
        while k < o.len()
            invariant
                k <= o.len() == n - from,
                from <= n,
                forall|a: int| 0 <= a < o.len() ==> 0 <= (#[trigger] o@[a]) < n - from,
                all.len() == from + k,
                forall|a: int| 0 <= a < from ==> #[trigger] all@[a] == a,
                forall|a: int|
                    0 <= a < k ==> #[trigger] all@[from + a] == from + o@[a],
            decreases o.len() - k,
        {
            all.push(from + o[k]);
            k += 1;
        }
        assert forall|a: int| 0 <= a < all.len() implies (#[trigger] all@[a]) < n by {
            if a >= from {
                assert(all@[from + (a - from)] == from + o@[a - from]);
            }
        }
        self.rearrange(&all);
        proof {
            assert(self@.take(from as int) =~= old(self)@.take(from as int));
            assert(self@.skip(from as int) =~= arranged(tail, o@)) by {
                assert forall|a: int| 0 <= a < o@.len() implies #[trigger] self@.skip(
                    from as int,
                )[a] == arranged(tail, o@)[a] by {
                    assert(all@[from + a] == from + o@[a]);
                }
            }
        }
    }

    /// Remove duplicate adjacent entries (by exact name). Call after `sort_entries`.
    pub fn dedup_sorted(&mut self)
        requires
            old(self).wf(),
        ensures
            final(self).wf(),
            final(self).names@ == old(self).names@,
            final(self)@ == deduped(old(self)@),
    {
        let n = self.entries.len();
        let mut kept: Vec<CompEntry> = Vec::new();
        let mut i: usize = 0;
        assert(entry_views(self.names@, kept@) =~= deduped(self@.take(0)));
        while i < n
            invariant
                i <= n == self.entries.len(),
                self.wf(),
                *self == *old(self),
                forall|k: int|
                    0 <= k < kept.len() ==> #[trigger] entry_ok(self.names@, kept@[k]),
                entry_views(self.names@, kept@) == deduped(self@.take(i as int)),
            decreases n - i,
        {
            assert(entry_ok(self.names@, self.entries@[i as int]));
            let e = self.entries[i];
            let ghost t = deduped(self@.take(i as int));
            assert(self@.take(i + 1).drop_last() =~= self@.take(i as int));
            let same = if kept.len() > 0 {
                let last = kept[kept.len() - 1];
                assert(entry_ok(self.names@, kept@[kept@.len() - 1]));
                assert(t.last() == entry_view(self.names@, last));
                str_eq(self.entry_name(&last), self.entry_name(&e))
            } else {
                false
            };
            if !same {
                kept.push(e);
                assert(entry_views(self.names@, kept@) =~= t.push(entry_view(self.names@, e)));
            }
            i += 1;
        }
        assert(self@.take(n as int) =~= self@);
        self.entries = kept;
    }
}

/// What stands in `names` from the byte `start` on.
pub open spec fn tail_text(names: Seq<char>, start: int) -> Seq<char> {
    decode_utf8(encode_utf8(names).subrange(start, byte_len(names) as int))
}

/// Equal names are adjacent in no deduplicated list.
pub proof fn law_dedup_leaves_no_equal_neighbours(v: Seq<EntryView>)
    ensures
        forall|i: int|
            0 < i < deduped(v).len() ==> (#[trigger] deduped(v)[i]).name != deduped(v)[i - 1].name,
        v.len() > 0 ==> deduped(v).len() > 0 && deduped(v).last().name == v.last().name,
        deduped(v).len() <= v.len(),
    decreases v.len(),
{
    if v.len() > 0 {
        law_dedup_leaves_no_equal_neighbours(v.drop_last());
    }
}

// -- The grid --

pub struct CompletionState {
    pub comp: Completions,
    pub selected: usize,
    pub cols: usize,
    pub rows: usize,
    pub scroll: usize,
    /// The prefix that was used to generate completions (directory portion).
    pub dir_prefix: String,
    /// Whether the user was inside a single-quote when completion started.
    pub in_quote: bool,
}

/// The entry above `sel` in a grid of `n` entries with `rows` rows; the end of the column
/// before it from the top of a column, of the last column from the first.
pub open spec fn above(sel: int, rows: int, n: int) -> int {
    if rows == 0 {
        sel
    } else if sel % rows != 0 {
        sel - 1
    } else if sel >= rows {
        smaller(sel - 1, n - 1)
    } else {
        smaller((n - 1) / rows * rows + rows - 1, n - 1)
    }
}

/// The entry below `sel`; the top of the next column from the end of a column, of the first
/// from the last.
pub open spec fn below(sel: int, rows: int, n: int) -> int {
    if rows == 0 {
        sel
    } else if sel % rows + 1 >= rows || sel + 1 >= n {
        let next = (sel / rows + 1) * rows;
        if next < n {
            next
        } else {
            0
        }
    } else {
        sel + 1
    }
}

/// The entry left of `sel`; in the last column from the first, or the last entry where that
/// column is shorter.
pub open spec fn left_of(sel: int, rows: int, n: int) -> int {
    if rows == 0 {
        sel
    } else if sel < rows {
        smaller((n - 1) / rows * rows + sel % rows, n - 1)
    } else {
        sel - rows
    }
}

/// The entry right of `sel`; in the first column where there is none.
pub open spec fn right_of(sel: int, rows: int, n: int) -> int {
    if rows == 0 {
        sel
    } else if sel + rows < n {
        sel + rows
    } else {
        smaller(sel % rows, n - 1)
    }
}

proof fn lemma_div(sel: int, rows: int)
    requires
        0 <= sel,
        0 < rows,
    ensures
        sel == sel / rows * rows + sel % rows,
        0 <= sel % rows < rows,
        0 <= sel / rows <= sel,
        (sel / rows == 0) == (sel < rows),
        0 <= sel / rows * rows <= sel,
        (sel / rows + 1) * rows == sel / rows * rows + rows,
{
    vstd::arithmetic::div_mod::lemma_fundamental_div_mod(sel, rows);
    vstd::arithmetic::mul::lemma_mul_is_commutative(rows, sel / rows);
    vstd::arithmetic::div_mod::lemma_div_is_ordered_by_denominator(sel, 1, rows);
    vstd::arithmetic::mul::lemma_mul_is_distributive_add_other_way(rows, sel / rows, 1);
    if sel < rows {
        vstd::arithmetic::div_mod::lemma_basic_div(sel, rows);
    } else {
        vstd::arithmetic::div_mod::lemma_div_non_zero(sel, rows);
    }
    assert(sel / rows >= 0) by {
        vstd::arithmetic::div_mod::lemma_div_pos_is_pos(sel, rows);
    }
    assert(0 <= sel / rows * rows) by (nonlinear_arith)
        requires
            sel / rows >= 0,
            rows > 0,
    ;
}

impl CompletionState {
    /// The grid can be walked: it has entries, and their indices are machine numbers.
    pub open spec fn walkable(&self) -> bool {
        self.rows > 0 ==> self.comp.entries@.len() > 0 && self.comp.entries@.len() + self.rows
            <= usize::MAX && self.selected + self.rows <= usize::MAX
    }

    /// The same state with another entry selected.
    pub open spec fn selecting(&self, selected: int) -> CompletionState {
        CompletionState { selected: selected as usize, ..*self }
    }

    pub fn selected_name(&self) -> (r: Option<&str>)
        requires
            self.comp.wf(),
        ensures
            match r {
                Some(s) => self.selected < self.comp@.len() && s@
                    == self.comp@[self.selected as int].name,
                None => self.selected >= self.comp@.len(),
            },
    {
        if self.selected < self.comp.len() {
            Some(self.comp.name(self.selected))
        } else {
            None
        }
    }

    pub fn selected_entry(&self) -> (r: Option<&CompEntry>)
        ensures
            match r {
                Some(e) => self.selected < self.comp.entries@.len() && *e
                    == self.comp.entries@[self.selected as int],
                None => self.selected >= self.comp.entries@.len(),
            },
    {
        if self.selected < self.comp.entries.len() {
            Some(&self.comp.entries[self.selected])
        } else {
            None
        }
    }

    /// Write the display name of entry `idx`: its name, `/` after a directory, `:` after a
    /// host.
    pub fn write_display_name(&self, idx: usize, tw: &mut TermWriter)
        requires
            self.comp.wf(),
            idx < self.comp@.len(),
        ensures
            final(tw)@ == old(tw)@ + display_name(self.comp@[idx as int]),
    {
        let ghost v = self.comp@[idx as int];
        let e = &self.comp.entries[idx];
        tw.write_str(self.comp.name(idx));
        if e.is_dir() {
            tw.write_str("/");
            assert(old(tw)@ + v.name + "/"@ =~= old(tw)@ + (v.name + "/"@));
        } else if e.is_host() {
            tw.write_str(":");
            assert(old(tw)@ + v.name + ":"@ =~= old(tw)@ + (v.name + ":"@));
        }
    }

    pub fn move_up(&mut self)
        requires
            old(self).walkable(),
        ensures
            *final(self) == old(self).selecting(
                above(
                    old(self).selected as int,
                    old(self).rows as int,
                    old(self).comp.entries@.len() as int,
                ),
            ),
    {
        if self.rows == 0 {
            return;
        }
        let n = self.comp.entries.len();
        let rows = self.rows;
        let sel = self.selected;
        proof {
            lemma_div(sel as int, rows as int);
            lemma_div(n - 1, rows as int);
        }
        if sel % rows == 0 {
            if sel / rows > 0 {
                let idx = sel - 1;
                self.selected = if idx <= n - 1 {
                    idx
                } else {
                    n - 1
                };
            } else {
                let idx = (n - 1) / rows * rows + (rows - 1);
                self.selected = if idx <= n - 1 {
                    idx
                } else {
                    n - 1
                };
            }
        } else {
            self.selected = sel - 1;
        }
    }

    pub fn move_down(&mut self)
        requires
            old(self).walkable(),
        ensures
            *final(self) == old(self).selecting(
                below(
                    old(self).selected as int,
                    old(self).rows as int,
                    old(self).comp.entries@.len() as int,
                ),
            ),
    {
        if self.rows == 0 {
            return;
        }
        let n = self.comp.entries.len();
        let rows = self.rows;
        let sel = self.selected;
        proof {
            lemma_div(sel as int, rows as int);
        }
        if sel % rows + 1 >= rows || sel + 1 >= n {
            let next = sel / rows * rows + rows;
            self.selected = if next < n {
                next
            } else {
                0
            };
        } else {
            self.selected = sel + 1;
        }
    }

    pub fn move_left(&mut self)
        requires
            old(self).walkable(),
        ensures
            *final(self) == old(self).selecting(
                left_of(
                    old(self).selected as int,
                    old(self).rows as int,
                    old(self).comp.entries@.len() as int,
                ),
            ),
    {
        if self.rows == 0 {
            return;
        }
        let n = self.comp.entries.len();
        let rows = self.rows;
        let sel = self.selected;
        proof {
            lemma_div(sel as int, rows as int);
            lemma_div(n - 1, rows as int);
        }
        if sel < rows {
            let idx = (n - 1) / rows * rows + sel % rows;
            self.selected = if idx <= n - 1 {
                idx
            } else {
                n - 1
            };
        } else {
            self.selected = sel - rows;
        }
    }

    pub fn move_right(&mut self)
        requires
            old(self).walkable(),
        ensures
            *final(self) == old(self).selecting(
                right_of(
                    old(self).selected as int,
                    old(self).rows as int,
                    old(self).comp.entries@.len() as int,
                ),
            ),
    {
        if self.rows == 0 {
            return;
        }
        let n = self.comp.entries.len();
        let rows = self.rows;
        let sel = self.selected;
        proof {
            lemma_div(sel as int, rows as int);
        }
        let next = sel + rows;
        if next < n {
            self.selected = next;
        } else {
            let row = sel % rows;
            self.selected = if row <= n - 1 {
                row
            } else {
                n - 1
            };
        }
    }
}

/// A name with the mark of its kind.
pub open spec fn display_name(e: EntryView) -> Seq<char> {
    if e.is_dir {
        e.name + "/"@
    } else if e.is_host {
        e.name + ":"@
    } else {
        e.name
    }
}

/// No movement leaves the grid.
pub proof fn law_moves_stay_in_grid(sel: int, rows: int, n: int)
    requires
        0 <= sel < n,
        0 <= rows,
    ensures
        0 <= above(sel, rows, n) < n,
        0 <= below(sel, rows, n) < n,
        0 <= left_of(sel, rows, n) < n,
        0 <= right_of(sel, rows, n) < n,
{
    if rows > 0 {
        lemma_div(sel, rows);
        lemma_div(n - 1, rows);
    }
}

/// Left undoes right, and up undoes down, where there is an entry to go to.
pub proof fn law_moves_undo(sel: int, rows: int, n: int)
    requires
        0 <= sel < n,
        0 < rows,
    ensures
        sel + rows < n ==> left_of(right_of(sel, rows, n), rows, n) == sel,
        sel % rows + 1 < rows && sel + 1 < n ==> above(below(sel, rows, n), rows, n) == sel,
{
    lemma_div(sel, rows);
    if sel % rows + 1 < rows && sel + 1 < n {
        vstd::arithmetic::div_mod::lemma_fundamental_div_mod_converse(
            sel + 1,
            rows,
            sel / rows,
            sel % rows + 1,
        );
    }
}

/// Width of the widest of the entries from `from` up to but not including `to`.
pub open spec fn widest(entries: Seq<CompEntry>, from: int, to: int) -> nat
    decreases to - from,
{
    if from >= to {
        0
    } else {
        let w = widest(entries, from, to - 1);
        if entries[to - 1].spec_display_width() > w {
            entries[to - 1].spec_display_width()
        } else {
            w
        }
    }
}

/// Number of rows of `n` entries in `cols` columns.
pub open spec fn rows_for(n: int, cols: int) -> int {
    (n + cols - 1) / cols
}

/// Width of the first `k` columns, each as wide as its widest entry.
pub open spec fn columns_width(entries: Seq<CompEntry>, rows: int, k: int) -> nat
    decreases k,
{
    if k <= 0 {
        0
    } else {
        columns_width(entries, rows, k - 1) + widest(
            entries,
            smaller((k - 1) * rows, entries.len() as int),
            smaller(k * rows, entries.len() as int),
        )
    }
}

/// The entries fit side by side in `cols` columns, with two spaces between columns.
pub open spec fn grid_fits(entries: Seq<CompEntry>, cols: int, term_cols: int) -> bool {
    columns_width(entries, rows_for(entries.len() as int, cols), cols) + (cols - 1) * 2
        <= term_cols
}

/// Most columns of a grid.
pub const MAX_GRID_COLS: usize = 6;

/// The greatest number of columns up to `cols` in which the entries fit, or one.
pub open spec fn grid_cols(entries: Seq<CompEntry>, cols: int, term_cols: int) -> int
    decreases cols,
{
    if cols <= 1 {
        1
    } else if grid_fits(entries, cols, term_cols) {
        cols
    } else {
        grid_cols(entries, cols - 1, term_cols)
    }
}

/// Columns and rows of the grid of the given entries.
pub open spec fn grid_of(entries: Seq<CompEntry>, term_cols: int) -> (int, int) {
    if entries.len() == 0 {
        (0, 0)
    } else {
        let cols = grid_cols(
            entries,
            smaller(MAX_GRID_COLS as int, entries.len() as int),
            term_cols,
        );
        (cols, rows_for(entries.len() as int, cols))
    }
}

fn widest_of(entries: &Vec<CompEntry>, from: usize, to: usize) -> (r: usize)
    requires
        from <= to <= entries.len(),
    ensures
        r == widest(entries@, from as int, to as int),
        r <= 256,
{
    let mut w: usize = 0;
    let mut i: usize = from;
    while i < to
        invariant
            from <= i <= to <= entries.len(),
            w == widest(entries@, from as int, i as int),
            w <= 256,
        decreases to - i,
    {
        let x = entries[i].display_width();
        if x > w {
            w = x;
        }
        i += 1;
    }
    w
}

/// Total width of a grid of `cols` columns and `rows` rows.
fn grid_width(entries: &Vec<CompEntry>, cols: usize, rows: usize) -> (r: usize)
    requires
        1 <= cols <= MAX_GRID_COLS,
        rows >= 1,
    ensures
        r == columns_width(entries@, rows as int, cols as int) + (cols - 1) * 2,
{
    let n = entries.len();
    let mut total: usize = 0;
    let mut from: usize = 0;
    let mut c: usize = 0;
    while c < cols
        invariant
            c <= cols <= MAX_GRID_COLS,
            1 <= cols,
            rows >= 1,
            n == entries.len(),
            from == smaller(c * rows, n as int),
            total == columns_width(entries@, rows as int, c as int),
            total <= c * 256,
        decreases cols - c,
    {
        let to = if n - from <= rows {
            n
        } else {
            from + rows
        };
        proof {
            assert((c + 1) * rows == c * rows + rows) by (nonlinear_arith);
            assert(((c + 1) - 1) * rows == c * rows);
            assert(to == smaller((c + 1) * rows, n as int));
        }
        total += widest_of(entries, from, to);
        from = to;
        c += 1;
    }
    total + (cols - 1) * 2
}

/// Compute grid layout: (cols, rows) for column-major display.
pub fn compute_grid(entries: &Vec<CompEntry>, term_cols: u16) -> (r: (usize, usize))
    ensures
        (r.0 as int, r.1 as int) == grid_of(entries@, term_cols as int),
{
    let n = entries.len();
    if n == 0 {
        return (0, 0);
    }
    let mut cols: usize = if n < MAX_GRID_COLS {
        n
    } else {
        MAX_GRID_COLS
    };
    while cols > 1
        invariant
            1 <= cols <= MAX_GRID_COLS,
            cols <= n == entries.len(),
            grid_of(entries@, term_cols as int) == ({
                let k = grid_cols(entries@, cols as int, term_cols as int);
                (k, rows_for(n as int, k))
            }),
        decreases cols,
    {
        let rows = (n - 1) / cols + 1;
        proof {
            lemma_rows(n as int, cols as int);
        }
        if grid_width(entries, cols, rows) <= term_cols as usize {
            return (cols, rows);
        }
        cols -= 1;
    }
    proof {
        lemma_rows(n as int, 1);
    }
    (1, n)
}

proof fn lemma_rows(n: int, cols: int)
    requires
        0 < n,
        0 < cols,
    ensures
        rows_for(n, cols) == (n - 1) / cols + 1,
        rows_for(n, cols) * cols >= n,
        cols == 1 ==> rows_for(n, cols) == n,
        1 <= rows_for(n, cols) <= n,
{
    vstd::arithmetic::div_mod::lemma_div_plus_one(n - 1, cols);
    lemma_div(n - 1, cols);
    let q = (n - 1) / cols;
    assert((q + 1) * cols == q * cols + cols) by (nonlinear_arith);
    if cols == 1 {
        vstd::arithmetic::div_mod::lemma_div_by_self(1);
        assert(q * 1 == q);
    }
}

/// The grid holds every entry, in at most six columns.
pub proof fn law_grid_holds_all(entries: Seq<CompEntry>, term_cols: int)
    ensures
        ({
            let (cols, rows) = grid_of(entries, term_cols);
            &&& 0 <= cols <= MAX_GRID_COLS
            &&& cols * rows >= entries.len()
            &&& 0 <= rows <= entries.len()
            &&& entries.len() > 0 ==> cols >= 1 && rows >= 1
        }),
{
    if entries.len() > 0 {
        let most = smaller(MAX_GRID_COLS as int, entries.len() as int);
        lemma_grid_cols(entries, most, term_cols);
        let cols = grid_cols(entries, most, term_cols);
        lemma_rows(entries.len() as int, cols);
        vstd::arithmetic::mul::lemma_mul_is_commutative(
            cols,
            rows_for(entries.len() as int, cols),
        );
    }
}

proof fn lemma_grid_cols(entries: Seq<CompEntry>, cols: int, term_cols: int)
    requires
        1 <= cols,
    ensures
        1 <= grid_cols(entries, cols, term_cols) <= cols,
        grid_cols(entries, cols, term_cols) > 1 ==> grid_fits(
            entries,
            grid_cols(entries, cols, term_cols),
            term_cols,
        ),
    decreases cols,
{
    if cols > 1 && !grid_fits(entries, cols, term_cols) {
        lemma_grid_cols(entries, cols - 1, term_cols);
    }
}

/// A grid of more than one column fits in the width of the terminal.
pub proof fn law_grid_fits(entries: Seq<CompEntry>, term_cols: int)
    ensures
        grid_of(entries, term_cols).0 > 1 ==> grid_fits(
            entries,
            grid_of(entries, term_cols).0,
            term_cols,
        ),
{
    if entries.len() > 0 {
        lemma_grid_cols(
            entries,
            smaller(MAX_GRID_COLS as int, entries.len() as int),
            term_cols,
        );
    }
}

} // verus!
