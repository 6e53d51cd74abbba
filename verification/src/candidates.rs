//! Which files, remote files and hosts become completion candidates.
//!
//! Directories are listed by the caller. `complete_path` selects from the listing of one
//! directory; `PartialDir` finds the directories that an abbreviated path stands for.
use vstd::prelude::*;
use vstd::utf8::*;

use crate::complete::{
    file_entry, host_entry, time_order, Completions, EntryView, PATH_LIMIT,
};
use crate::expand::{contains_control, has_control, join_path, joined_path};
use crate::sort::{lemma_sorted_multiset, sorted_strings, stable_sorted, strings_sorted};
use crate::text::{
    byte_len, bytes_start_with, chars_of, contains_icase, find_char, has_byte_prefix, has_char,
    icase_contains, index_from, lemma_byte_len_take, lemma_encode_concat, lemma_join_boundary,
    lines, lines_of, matches_at, push_str, split, split_on, split_str, starts_with, str_eq, str_len,
    string_of, strs, substring, trim, trimmed, words, words_of,
};

verus! {

// -- Paths --

/// Index of the last slash of `s`, or -1.
pub open spec fn last_slash(s: Seq<char>) -> int
    decreases s.len(),
{
    if s.len() == 0 {
        -1
    } else if s.last() == '/' {
        s.len() - 1
    } else {
        last_slash(s.drop_last())
    }
}

pub proof fn lemma_last_slash(s: Seq<char>)
    ensures
        -1 <= last_slash(s) < s.len(),
        last_slash(s) >= 0 ==> s[last_slash(s)] == '/',
        forall|k: int| last_slash(s) < k < s.len() ==> s[k] != '/',
    decreases s.len(),
{
    if s.len() > 0 && s.last() != '/' {
        let t = s.drop_last();
        lemma_last_slash(t);
        assert forall|k: int| last_slash(s) < k < s.len() implies s[k] != '/' by {
            if k < t.len() {
                assert(s[k] == t[k]);
            }
        }
    }
}

/// Index after the last slash of `s`, 0 where there is none.
pub fn after_last_slash(s: &Vec<char>) -> (r: usize)
    ensures
        r == last_slash(s@) + 1,
        r <= s.len(),
{
    let mut i: usize = s.len();
    assert(s@.take(i as int) =~= s@);
    while i > 0
        invariant
            i <= s.len(),
            last_slash(s@) == last_slash(s@.take(i as int)),
        decreases i,
    {
        if s[i - 1] == '/' {
            assert(s@.take(i as int).last() == '/');
            return i;
        }
        assert(s@.take(i as int).drop_last() =~= s@.take(i - 1));
        i -= 1;
    }
    0
}

/// The directory part of a path, with its slash.
pub open spec fn dir_part(partial: Seq<char>) -> Seq<char> {
    partial.take(last_slash(partial) + 1)
}

/// What follows the last slash of a path.
pub open spec fn name_part(partial: Seq<char>) -> Seq<char> {
    partial.skip(last_slash(partial) + 1)
}

/// Split "path/to/pref" into ("path/to/", "pref").
pub fn split_path(partial: &str) -> (r: (&str, &str))
    ensures
        r.0@ == dir_part(partial@),
        r.1@ == name_part(partial@),
{
    let v = chars_of(partial);
    let k = after_last_slash(&v);
    let head = substring(&v, 0, k);
    let ghost tail = partial@.skip(k as int);
    proof {
        assert(head@ =~= dir_part(partial@));
        assert(head@ + tail =~= partial@);
        lemma_join_boundary(head@, tail);
        encode_utf8_decode_utf8(head@);
        encode_utf8_decode_utf8(tail);
    }
    split_str(partial, str_len(head.as_str()))
}

/// `s` without the slashes at its end.
pub open spec fn slashes_trimmed(s: Seq<char>) -> Seq<char>
    decreases s.len(),
{
    if s.len() > 0 && s.last() == '/' {
        slashes_trimmed(s.drop_last())
    } else {
        s
    }
}

pub proof fn lemma_slashes_trimmed(s: Seq<char>)
    ensures
        slashes_trimmed(s).len() <= s.len(),
        s.len() > 0 && s.last() == '/' ==> slashes_trimmed(s).len() < s.len(),
        slashes_trimmed(s) == s.take(slashes_trimmed(s).len() as int),
        slashes_trimmed(s).len() > 0 ==> slashes_trimmed(s).last() != '/',
    decreases s.len(),
{
    if s.len() > 0 && s.last() == '/' {
        lemma_slashes_trimmed(s.drop_last());
        let k = slashes_trimmed(s).len() as int;
        assert(s.drop_last().take(k) =~= s.take(k));
    } else {
        assert(s.take(s.len() as int) =~= s);
    }
}

pub fn trim_slashes(text: &str) -> (r: String)
    ensures
        r@ == slashes_trimmed(text@),
{
    let s = chars_of(text);
    let mut n: usize = s.len();
    assert(s@.take(n as int) =~= s@);
    while n > 0 && s[n - 1] == '/'
        invariant
            n <= s.len(),
            slashes_trimmed(s@) == slashes_trimmed(s@.take(n as int)),
        decreases n,
    {
        assert(s@.take(n as int).drop_last() =~= s@.take(n - 1));
        n -= 1;
    }
    let r = substring(&s, 0, n);
    assert(r@ =~= s@.take(n as int));
    r
}

// -- Files --

/// An entry of a directory whose status could be read.
#[derive(Debug)]
pub struct DirItem {
    pub name: String,
    /// Type and permission bits of the file, of its target where it is a link.
    pub mode: u32,
    pub is_link: bool,
    pub mtime: i64,
}

pub open spec fn spec_is_directory(mode: u32) -> bool {
    mode & 0xF000 == 0x4000
}

/// Files that may be executed by someone.
pub open spec fn spec_is_executable(mode: u32) -> bool {
    mode & 0x49 != 0
}

pub fn is_directory(mode: u32) -> (r: bool)
    ensures
        r == spec_is_directory(mode),
{
    mode & 0xF000 == 0x4000
}

/// The directory that a directory part names; none names the current one.
pub open spec fn dir_path(dir: Seq<char>) -> Seq<char> {
    if dir.len() == 0 {
        "."@
    } else {
        dir
    }
}

/// Bytes of a directory and the slash after it in the path of one of its entries.
pub open spec fn dir_room(dir: Seq<char>) -> nat {
    let d = dir_path(dir);
    if d == "."@ {
        0
    } else if d.last() == '/' {
        byte_len(d)
    } else {
        byte_len(d) + 1
    }
}

pub open spec fn is_dot_entry(name: Seq<char>) -> bool {
    name == "."@ || name == ".."@
}

pub open spec fn is_hidden(name: Seq<char>) -> bool {
    name.len() > 0 && name[0] == '.'
}

pub open spec fn has_prefix(name: Seq<char>, prefix: Seq<char>) -> bool {
    bytes_start_with(encode_utf8(name), encode_utf8(prefix))
}

/// Whether an entry of `dir` is a candidate for `prefix`: it starts with it or, up to case,
/// holds it. Hidden files need a prefix that starts with a dot.
pub open spec fn is_candidate(
    dir: Seq<char>,
    prefix: Seq<char>,
    dirs_only: bool,
    item: DirItem,
) -> bool {
    let name = item.name@;
    &&& !is_dot_entry(name)
    &&& !has_control(name)
    &&& is_hidden(name) ==> is_hidden(prefix)
    &&& has_prefix(name, prefix) || prefix.len() > 0 && icase_contains(
        encode_utf8(name),
        encode_utf8(prefix),
    )
    &&& dir_room(dir) + byte_len(name) < PATH_LIMIT
    &&& dirs_only ==> spec_is_directory(item.mode)
}

pub open spec fn item_entry(item: DirItem) -> EntryView {
    file_entry(
        item.name@,
        spec_is_directory(item.mode),
        item.is_link,
        !spec_is_directory(item.mode) && spec_is_executable(item.mode),
        item.mtime as int,
    )
}

/// Some candidate starts with the prefix.
pub open spec fn any_prefix(
    dir: Seq<char>,
    prefix: Seq<char>,
    dirs_only: bool,
    items: Seq<DirItem>,
) -> bool {
    exists|i: int|
        0 <= i < items.len() && is_candidate(dir, prefix, dirs_only, #[trigger] items[i])
            && has_prefix(items[i].name@, prefix)
}

/// The candidates among the first `n` items; those that start with the prefix where
/// `strict`.
pub open spec fn chosen(
    dir: Seq<char>,
    prefix: Seq<char>,
    dirs_only: bool,
    items: Seq<DirItem>,
    strict: bool,
    n: int,
) -> Seq<EntryView>
    decreases n,
{
    if n <= 0 {
        Seq::empty()
    } else {
        let before = chosen(dir, prefix, dirs_only, items, strict, n - 1);
        let item = items[n - 1];
        if is_candidate(dir, prefix, dirs_only, item) && (strict ==> has_prefix(
            item.name@,
            prefix,
        )) {
            before.push(item_entry(item))
        } else {
            before
        }
    }
}

/// The candidates in a directory: those that start with the prefix, or all where none does.
pub open spec fn listed(
    dir: Seq<char>,
    prefix: Seq<char>,
    dirs_only: bool,
    items: Seq<DirItem>,
) -> Seq<EntryView> {
    if byte_len(dir_path(dir)) >= PATH_LIMIT {
        Seq::empty()
    } else {
        chosen(
            dir,
            prefix,
            dirs_only,
            items,
            any_prefix(dir, prefix, dirs_only, items),
            items.len() as int,
        )
    }
}

/// Bytes of the names of the first `n` items.
pub open spec fn names_bytes(items: Seq<DirItem>, n: int) -> nat
    decreases n,
{
    if n <= 0 {
        0
    } else {
        names_bytes(items, n - 1) + byte_len(items[n - 1].name@)
    }
}

/// The offsets of `used` bytes and the names of the items are machine numbers.
pub open spec fn arena_room(used: nat, items: Seq<DirItem>) -> bool {
    used + names_bytes(items, items.len() as int) <= u32::MAX
}

proof fn lemma_names_bytes(items: Seq<DirItem>, n: int, m: int)
    requires
        n <= m,
    ensures
        names_bytes(items, n) <= names_bytes(items, m),
    decreases m,
{
    if n < m && m > 0 {
        lemma_names_bytes(items, n, m - 1);
    }
}

/// Whether a dot or a double dot.
fn is_dots(name: &str) -> (r: bool)
    ensures
        r == is_dot_entry(name@),
{
    str_eq(name, ".") || str_eq(name, "..")
}

fn starts_with_dot(s: &str) -> (r: bool)
    ensures
        r == is_hidden(s@),
{
    let v = chars_of(s);
    v.len() > 0 && v[0] == '.'
}

/// Bytes of `dir` and its slash.
fn dir_room_of(dir: &str) -> (r: usize)
    requires
        byte_len(dir_path(dir@)) < PATH_LIMIT,
    ensures
        r == dir_room(dir@),
        r <= PATH_LIMIT,
{
    let v = chars_of(dir);
    if v.len() == 0 || str_eq(dir, ".") {
        0
    } else if v[v.len() - 1] == '/' {
        str_len(dir)
    } else {
        str_len(dir) + 1
    }
}

fn accepts(dir_room: usize, prefix: &str, dirs_only: bool, item: &DirItem, Ghost(dir): Ghost<
    Seq<char>,
>) -> (r: bool)
    requires
        dir_room == crate::candidates::dir_room(dir),
        dir_room <= PATH_LIMIT,
    ensures
        r == is_candidate(dir, prefix@, dirs_only, *item),
{
    let name = item.name.as_str();
    let chars = chars_of(name);
    if is_dots(name) || contains_control(&chars) {
        return false;
    }
    if starts_with_dot(name) && !starts_with_dot(prefix) {
        return false;
    }
    if !has_byte_prefix(name.as_bytes(), prefix.as_bytes()) && (prefix.is_empty()
        || !contains_icase(name.as_bytes(), prefix.as_bytes())) {
        return false;
    }
    let len = str_len(name);
    if len >= PATH_LIMIT - dir_room {
        return false;
    }
    !dirs_only || is_directory(item.mode)
}

/// Appends the candidates in `dir` for `prefix`, in the order of the listing.
fn append_listed(
    dir: &str,
    prefix: &str,
    dirs_only: bool,
    items: &Vec<DirItem>,
    comp: &mut Completions,
)
    requires
        old(comp).wf(),
        arena_room(byte_len(old(comp).names@), items@),
    ensures
        final(comp).wf(),
        final(comp)@ == old(comp)@ + listed(dir@, prefix@, dirs_only, items@),
        byte_len(final(comp).names@) <= byte_len(old(comp).names@) + names_bytes(
            items@,
            items@.len() as int,
        ),
{
    proof {
        assert(comp@ + Seq::<EntryView>::empty() =~= comp@);
        reveal_strlit(".");
        vstd::utf8::is_ascii_chars_encode_utf8("."@);
    }
    if str_len(dir) >= PATH_LIMIT {
        return;
    }
    let room = dir_room_of(dir);
    let mut strict = false;
    let mut i: usize = 0;
    while i < items.len()
        invariant
            i <= items.len(),
            room == dir_room(dir@),
            room <= PATH_LIMIT,
            strict == (exists|k: int|
                0 <= k < i && is_candidate(dir@, prefix@, dirs_only, #[trigger] items@[k])
                    && has_prefix(items@[k].name@, prefix@)),
        decreases items.len() - i,
    {
        let item = &items[i];
        if accepts(room, prefix, dirs_only, item, Ghost(dir@)) && has_byte_prefix(
            item.name.as_str().as_bytes(),
            prefix.as_bytes(),
        ) {
            assert(is_candidate(dir@, prefix@, dirs_only, items@[i as int]));
            strict = true;
        }
        i += 1;
    }
    i = 0;
    assert(comp@ + chosen(dir@, prefix@, dirs_only, items@, strict, 0) =~= comp@);
    while i < items.len()
        invariant
            i <= items.len(),
            room == dir_room(dir@),
            room <= PATH_LIMIT,
            strict == any_prefix(dir@, prefix@, dirs_only, items@),
            comp.wf(),
            comp@ == old(comp)@ + chosen(dir@, prefix@, dirs_only, items@, strict, i as int),
            byte_len(comp.names@) <= byte_len(old(comp).names@) + names_bytes(items@, i as int),
            arena_room(byte_len(old(comp).names@), items@),
        decreases items.len() - i,
    {
        let item = &items[i];
        let ghost had = comp@;
        let ghost names = comp.names@;
        if accepts(room, prefix, dirs_only, item, Ghost(dir@)) && (!strict || has_byte_prefix(
            item.name.as_str().as_bytes(),
            prefix.as_bytes(),
        )) {
            proof {
                lemma_names_bytes(items@, i as int, items@.len() as int);
                lemma_encode_concat(names, item.name@);
            }
            let dir_bit = is_directory(item.mode);
            comp.push_with_mtime(
                item.name.as_str(),
                dir_bit,
                item.is_link,
                !dir_bit && item.mode & 0x49 != 0,
                item.mtime,
            );
            assert(comp@ =~= old(comp)@ + chosen(
                dir@,
                prefix@,
                dirs_only,
                items@,
                strict,
                i + 1,
            ));
        }
        i += 1;
    }
}

/// Complete entries in `dir` matching `prefix`: those that start with it or, where none
/// does, those that hold it up to case (so "tom" finds "Cargo.toml").
pub fn complete_in_dir(
    dir: &str,
    prefix: &str,
    dirs_only: bool,
    items: &Vec<DirItem>,
    comp: &mut Completions,
)
    requires
        old(comp).wf(),
        arena_room(byte_len(old(comp).names@), items@),
    ensures
        final(comp).wf(),
        byte_len(dir_path(dir@)) >= PATH_LIMIT ==> final(comp)@ == old(comp)@,
        byte_len(dir_path(dir@)) < PATH_LIMIT ==> stable_sorted(
            old(comp)@ + listed(dir@, prefix@, dirs_only, items@),
            final(comp)@,
            time_order(),
        ),
        byte_len(final(comp).names@) <= byte_len(old(comp).names@) + names_bytes(
            items@,
            items@.len() as int,
        ),
{
    append_listed(dir, prefix, dirs_only, items, comp);
    proof {
        assert(old(comp)@ + Seq::<EntryView>::empty() =~= old(comp)@);
        reveal_strlit(".");
        vstd::utf8::is_ascii_chars_encode_utf8("."@);
    }
    if str_len(dir) < PATH_LIMIT {
        comp.sort_by_mtime();
    }
}

/// The candidates for a path from the listing of its directory, the newest first.
pub open spec fn path_candidates(
    partial: Seq<char>,
    dirs_only: bool,
    items: Seq<DirItem>,
    r: Seq<EntryView>,
) -> bool {
    stable_sorted(
        listed(dir_part(partial), name_part(partial), dirs_only, items),
        r,
        time_order(),
    )
}

/// Generate file completions for the given partial word from the listing of its directory.
/// If `dirs_only` is true, only return directories (and symlinks to directories).
pub fn complete_path(partial: &str, dirs_only: bool, items: &Vec<DirItem>) -> (r: Completions)
    requires
        arena_room(0, items@),
    ensures
        r.wf(),
        path_candidates(partial@, dirs_only, items@, r@),
{
    let mut comp = Completions::new();
    let ghost found = listed(dir_part(partial@), name_part(partial@), dirs_only, items@);
    proof {
        assert(Seq::<EntryView>::empty() + found =~= found);
        assert(byte_len(comp.names@) == 0);
        reveal_strlit(".");
        vstd::utf8::is_ascii_chars_encode_utf8("."@);
    }
    complete_path_into(partial, dirs_only, Some(items), &mut comp);
    if str_len(split_path(partial).0) >= PATH_LIMIT {
        comp.sort_by_mtime();
    }
    comp
}

/// What becomes of the entries when the candidates for a path are added to them: nothing
/// where its directory cannot be opened, and else all of them, the newest first.
pub open spec fn path_added(
    partial: Seq<char>,
    dirs_only: bool,
    listing: Option<Seq<DirItem>>,
    before: Seq<EntryView>,
    after: Seq<EntryView>,
) -> bool {
    match listing {
        Some(items) if byte_len(dir_path(dir_part(partial))) < PATH_LIMIT => stable_sorted(
            before + listed(dir_part(partial), name_part(partial), dirs_only, items),
            after,
            time_order(),
        ),
        _ => after == before,
    }
}

pub open spec fn listing_view(listing: Option<&Vec<DirItem>>) -> Option<Seq<DirItem>> {
    match listing {
        Some(items) => Some(items@),
        None => None,
    }
}

/// Like `complete_path` but appends into a caller-owned `Completions`. There is no listing of a
/// directory that cannot be opened.
pub fn complete_path_into(
    partial: &str,
    dirs_only: bool,
    listing: Option<&Vec<DirItem>>,
    comp: &mut Completions,
)
    requires
        old(comp).wf(),
        listing matches Some(items) ==> arena_room(byte_len(old(comp).names@), items@),
    ensures
        final(comp).wf(),
        path_added(partial@, dirs_only, listing_view(listing), old(comp)@, final(comp)@),
        listing matches Some(items) ==> byte_len(final(comp).names@) <= byte_len(
            old(comp).names@,
        ) + names_bytes(items@, items@.len() as int),
        listing is None ==> *final(comp) == *old(comp),
{
    if let Some(items) = listing {
        let (dir, prefix) = split_path(partial);
        complete_in_dir(dir, prefix, dirs_only, items, comp);
    }
}

/// As a multiset, the entries to which the candidates for a path were added are those that were
/// there and those that `complete_path` gives: none is dropped or renamed.
pub proof fn law_path_candidates_are_added(
    partial: Seq<char>,
    dirs_only: bool,
    items: Seq<DirItem>,
    before: Seq<EntryView>,
    after: Seq<EntryView>,
    found: Seq<EntryView>,
)
    requires
        path_added(partial, dirs_only, Some(items), before, after),
        path_candidates(partial, dirs_only, items, found),
        before.len() + listed(dir_part(partial), name_part(partial), dirs_only, items).len()
            <= usize::MAX,
    ensures
        after.to_multiset() == before.to_multiset().add(found.to_multiset()),
{
    let all = listed(dir_part(partial), name_part(partial), dirs_only, items);
    lemma_sorted_multiset(all, found, time_order());
    vstd::seq_lib::lemma_multiset_commutative(before, all);
    if byte_len(dir_path(dir_part(partial))) < PATH_LIMIT {
        lemma_sorted_multiset(before + all, after, time_order());
    } else {
        assert(before + all =~= before);
    }
}

/// Where the directory cannot be opened the entries stay as they are.
pub proof fn law_unopened_directory_adds_nothing(
    partial: Seq<char>,
    dirs_only: bool,
    before: Seq<EntryView>,
    after: Seq<EntryView>,
)
    requires
        path_added(partial, dirs_only, None, before, after),
    ensures
        after == before,
{
}

/// Candidates that start with the prefix are preferred: where there is one, only such are
/// listed.
pub proof fn law_prefix_preferred(
    dir: Seq<char>,
    prefix: Seq<char>,
    dirs_only: bool,
    items: Seq<DirItem>,
    n: int,
)
    requires
        any_prefix(dir, prefix, dirs_only, items),
        0 <= n <= items.len(),
    ensures
        forall|k: int|
            0 <= k < chosen(dir, prefix, dirs_only, items, true, n).len() ==> exists|i: int|
                0 <= i < items.len() && has_prefix(#[trigger] items[i].name@, prefix)
                    && #[trigger] chosen(dir, prefix, dirs_only, items, true, n)[k] == item_entry(
                    items[i],
                ),
    decreases n,
{
    if n > 0 {
        law_prefix_preferred(dir, prefix, dirs_only, items, n - 1);
        let before = chosen(dir, prefix, dirs_only, items, true, n - 1);
        let all = chosen(dir, prefix, dirs_only, items, true, n);
        assert forall|k: int| 0 <= k < all.len() implies exists|i: int|
            0 <= i < items.len() && has_prefix(#[trigger] items[i].name@, prefix)
                && #[trigger] all[k] == item_entry(items[i]) by {
            if k < before.len() {
                assert(all[k] == before[k]);
            } else {
                assert(has_prefix(items[n - 1].name@, prefix));
                assert(all[k] == item_entry(items[n - 1]));
            }
        }
    }
}

// -- Abbreviated paths --

/// What has to be known to go on.
#[derive(Debug)]
pub enum Query {
    /// Whether this is a directory.
    IsDir(String),
    /// The entries of this directory.
    List(String),
}

/// Most directories that an abbreviated path stands for.
pub const MAX_PARTIAL_DIRS: usize = 64;

/// The search for the directories that an abbreviated path stands for: each of its
/// components is a prefix. e.g., "/home/user/de" stands for "/home/user/dev",
/// "/home/user/Desktop", ...
pub struct PartialDir {
    asking: Option<String>,
    components: Vec<String>,
    dirs: Vec<String>,
    found: Vec<String>,
}

#[verifier::ext_equal]
pub struct PartialView {
    /// The path that may be a directory; its parent is asked for where it is none.
    pub asking: Option<Seq<char>>,
    /// The components after that path, the last one first.
    pub components: Seq<Seq<char>>,
    /// The directories in which the next component is looked for.
    pub dirs: Seq<Seq<char>>,
    /// The directories found for it so far.
    pub found: Seq<Seq<char>>,
}

impl View for PartialDir {
    type V = PartialView;

    closed spec fn view(&self) -> PartialView {
        PartialView {
            asking: match self.asking {
                Some(s) => Some(s@),
                None => None,
            },
            components: strs(self.components@),
            dirs: strs(self.dirs@),
            found: strs(self.found@),
        }
    }
}

/// Parent of a path without a trailing slash.
pub open spec fn parent_of(d: Seq<char>) -> Seq<char> {
    let i = last_slash(d);
    if i < 0 {
        "."@
    } else if slashes_trimmed(d.take(i)).len() == 0 {
        "/"@
    } else {
        slashes_trimmed(d.take(i))
    }
}

/// Whether a directory of `dir` continues an abbreviated path with `component`.
pub open spec fn continues_path(dir: Seq<char>, component: Seq<char>, item: DirItem) -> bool {
    let name = item.name@;
    &&& !is_dot_entry(name)
    &&& has_prefix(name, component)
    &&& is_hidden(name) ==> is_hidden(component)
    &&& dir_room(dir) + byte_len(name) < PATH_LIMIT
    &&& spec_is_directory(item.mode)
}

/// The directories among the first `n` items of `dir` that continue with `component`.
pub open spec fn continued(
    dir: Seq<char>,
    component: Seq<char>,
    items: Seq<DirItem>,
    n: int,
) -> Seq<Seq<char>>
    decreases n,
{
    if n <= 0 {
        Seq::empty()
    } else {
        let before = continued(dir, component, items, n - 1);
        if continues_path(dir, component, items[n - 1]) {
            before.push(joined_path(dir, items[n - 1].name@))
        } else {
            before
        }
    }
}

impl PartialView {
    pub open spec fn none() -> PartialView {
        PartialView {
            asking: None,
            components: Seq::empty(),
            dirs: Seq::empty(),
            found: Seq::empty(),
        }
    }

    pub open spec fn start(dir: Seq<char>) -> PartialView {
        let d = slashes_trimmed(dir);
        PartialView {
            asking: if d.len() == 0 {
                None
            } else {
                Some(d)
            },
            ..PartialView::none()
        }
    }

    /// Where no directory is left for a component, those found are searched for the next.
    pub open spec fn settled(self) -> PartialView
        decreases self.components.len(),
    {
        if self.asking is None && self.dirs.len() == 0 && self.components.len() > 0 {
            PartialView {
                asking: None,
                components: self.components.drop_last(),
                dirs: self.found,
                found: Seq::empty(),
            }.settled()
        } else {
            self
        }
    }

    pub open spec fn answered(self, is_dir: bool) -> PartialView {
        let d = self.asking->0;
        let component = name_part(d);
        if is_dir {
            PartialView { asking: None, dirs: seq![d], ..self }
        } else if component.len() == 0 || d == "."@ {
            PartialView::none()
        } else {
            PartialView {
                asking: Some(parent_of(d)),
                components: self.components.push(component),
                ..self
            }
        }
    }

    pub open spec fn fed(self, items: Seq<DirItem>) -> PartialView {
        let more = self.found + continued(
            self.dirs[0],
            self.components.last(),
            items,
            items.len() as int,
        );
        if more.len() > MAX_PARTIAL_DIRS {
            PartialView {
                found: more.take(MAX_PARTIAL_DIRS as int),
                dirs: Seq::empty(),
                ..self
            }.settled()
        } else {
            PartialView { found: more, dirs: self.dirs.drop_first(), ..self }.settled()
        }
    }
}

impl PartialDir {
    /// Starts the search for a directory path.
    pub fn new(dir: &str) -> (r: Self)
        ensures
            r@ == PartialView::start(dir@),
    {
        let d = trim_slashes(dir);
        let asking = if d.as_str().is_empty() {
            None
        } else {
            Some(d)
        };
        let r = PartialDir {
            asking,
            components: Vec::new(),
            dirs: Vec::new(),
            found: Vec::new(),
        };
        assert(r@ =~= PartialView::start(dir@)) by {
            assert(r@.components =~= Seq::empty());
            assert(r@.dirs =~= Seq::empty());
            assert(r@.found =~= Seq::empty());
        }
        r
    }

    /// What has to be known next.
    pub fn pending(&self) -> (r: Option<Query>)
        ensures
            match r {
                Some(Query::IsDir(d)) => self@.asking == Some(d@),
                Some(Query::List(d)) => self@.asking is None && self@.components.len() > 0
                    && self@.dirs.len() > 0 && d@ == self@.dirs[0],
                None => self@.asking is None && (self@.components.len() == 0
                    || self@.dirs.len() == 0),
            },
    {
        match &self.asking {
            Some(d) => Some(Query::IsDir(d.clone())),
            None => if self.components.len() > 0 && self.dirs.len() > 0 {
                Some(Query::List(self.dirs[0].clone()))
            } else {
                None
            },
        }
    }

    /// Takes the answer whether the path asked for is a directory.
    pub fn answer(&mut self, is_dir: bool)
        requires
            old(self)@.asking is Some,
        ensures
            final(self)@ == old(self)@.answered(is_dir),
    {
        let ghost before = self@;
        let d = match &self.asking {
            Some(d) => d.clone(),
            None => String::new(),
        };
        if is_dir {
            self.asking = None;
            let mut dirs: Vec<String> = Vec::new();
            dirs.push(d);
            self.dirs = dirs;
            assert(self@.dirs =~= seq![before.asking->0]);
            return;
        }
        let v = chars_of(d.as_str());
        let k = after_last_slash(&v);
        let component = substring(&v, k, v.len());
        assert(component@ =~= name_part(d@));
        if component.as_str().is_empty() || str_eq(d.as_str(), ".") {
            self.asking = None;
            self.components = Vec::new();
            self.dirs = Vec::new();
            self.found = Vec::new();
            assert(self@ =~= PartialView::none()) by {
                assert(self@.components =~= Seq::empty());
                assert(self@.dirs =~= Seq::empty());
                assert(self@.found =~= Seq::empty());
            }
            return;
        }
        let parent = if k == 0 {
            ".".to_owned()
        } else {
            let head = substring(&v, 0, k - 1);
            assert(head@ =~= d@.take(k - 1));
            let t = trim_slashes(head.as_str());
            if t.as_str().is_empty() {
                "/".to_owned()
            } else {
                t
            }
        };
        self.asking = Some(parent);
        self.components.push(component);
        assert(self@.components =~= before.components.push(name_part(d@)));
    }

    fn settle(&mut self)
        ensures
            final(self)@ == old(self)@.settled(),
    {
        while self.asking.is_none() && self.dirs.len() == 0 && self.components.len() > 0
            invariant
                self@.settled() == old(self)@.settled(),
            decreases self.components.len(),
        {
            let ghost before = self@;
            self.components.pop();
            let mut found: Vec<String> = Vec::new();
            core::mem::swap(&mut self.found, &mut found);
            self.dirs = found;
            assert(self@ =~= (PartialView {
                asking: None,
                components: before.components.drop_last(),
                dirs: before.found,
                found: Seq::empty(),
            })) by {
                assert(self@.components =~= before.components.drop_last());
                assert(self@.dirs =~= before.found);
                assert(self@.found =~= Seq::empty());
            }
        }
    }

    /// Takes the entries of the pending directory; none where it cannot be listed.
    pub fn feed(&mut self, items: &Vec<DirItem>)
        requires
            old(self)@.asking is None,
            old(self)@.components.len() > 0,
            old(self)@.dirs.len() > 0,
        ensures
            final(self)@ == old(self)@.fed(items@),
    {
        let ghost before = self@;
        assert(before.dirs[0] == self.dirs@[0]@);
        assert(before.components.last() == self.components@[self.components@.len() - 1]@);
        let dir = self.dirs.remove(0);
        assert(strs(self.dirs@) =~= before.dirs.drop_first());
        let component = self.components[self.components.len() - 1].clone();
        collect_continued(dir.as_str(), component.as_str(), items, &mut self.found);
        if self.found.len() > MAX_PARTIAL_DIRS {
            let ghost more = strs(self.found@);
            self.found.truncate(MAX_PARTIAL_DIRS);
            self.dirs = Vec::new();
            assert(strs(self.found@) =~= more.take(MAX_PARTIAL_DIRS as int));
            assert(strs(self.dirs@) =~= Seq::empty());
        }
        self.settle();
    }

    /// The directories that the path stands for.
    pub fn results(self) -> (r: Vec<String>)
        requires
            self@.asking is None,
            self@.components.len() == 0,
        ensures
            strs(r@) == self@.dirs,
    {
        self.dirs
    }
}

fn collect_continued(dir: &str, component: &str, items: &Vec<DirItem>, out: &mut Vec<String>)
    ensures
        strs(final(out)@) == strs(old(out)@) + continued(
            dir@,
            component@,
            items@,
            items@.len() as int,
        ),
{
    let mut i: usize = 0;
    assert(strs(out@) =~= strs(old(out)@) + continued(dir@, component@, items@, 0));
    while i < items.len()
        invariant
            i <= items.len(),
            strs(out@) == strs(old(out)@) + continued(dir@, component@, items@, i as int),
        decreases items.len() - i,
    {
        let item = &items[i];
        let name = item.name.as_str();
        if is_continued(dir, component, item) {
            let path = join_path(dir, name);
            let ghost had = strs(out@);
            let ghost pv = path@;
            out.push(path);
            assert(strs(out@) =~= had.push(pv));
            assert(strs(out@) =~= strs(old(out)@) + continued(
                dir@,
                component@,
                items@,
                i + 1,
            ));
        }
        i += 1;
    }
}

fn is_continued(dir: &str, component: &str, item: &DirItem) -> (r: bool)
    ensures
        r == continues_path(dir@, component@, *item),
{
    let name = item.name.as_str();
    if is_dots(name) || !has_byte_prefix(name.as_bytes(), component.as_bytes()) {
        return false;
    }
    if starts_with_dot(name) && !starts_with_dot(component) {
        return false;
    }
    proof {
        reveal_strlit(".");
        vstd::utf8::is_ascii_chars_encode_utf8("."@);
    }
    if str_len(dir) >= PATH_LIMIT {
        return false;
    }
    let room = dir_room_of(dir);
    str_len(name) < PATH_LIMIT - room && is_directory(item.mode)
}

/// The directory part of a word that may be abbreviated, without its trailing slashes.
pub fn partial_dir(partial: &str) -> (r: String)
    ensures
        r@ == slashes_trimmed(dir_part(partial@)),
{
    trim_slashes(split_path(partial).0)
}

/// The first `n` lists one after the other.
pub open spec fn concat(segs: Seq<Seq<EntryView>>, n: int) -> Seq<EntryView>
    decreases n,
{
    if n <= 0 {
        Seq::empty()
    } else {
        concat(segs, n - 1) + segs[n - 1]
    }
}

/// Each directory with candidates, where they start in the concatenation, and how many they
/// are.
pub open spec fn groups_of(
    dirs: Seq<Seq<char>>,
    segs: Seq<Seq<EntryView>>,
    n: int,
) -> Seq<(Seq<char>, int, int)>
    decreases n,
{
    if n <= 0 {
        Seq::empty()
    } else {
        let before = groups_of(dirs, segs, n - 1);
        if segs[n - 1].len() > 0 {
            before.push(
                (
                    dirs[n - 1] + "/"@,
                    concat(segs, n - 1).len() as int,
                    segs[n - 1].len() as int,
                ),
            )
        } else {
            before
        }
    }
}

pub open spec fn group_views(g: Seq<(String, usize, usize)>) -> Seq<(Seq<char>, int, int)> {
    Seq::new(g.len(), |i: int| (g[i].0@, g[i].1 as int, g[i].2 as int))
}

/// Bytes of the names in the first `n` listings.
pub open spec fn listings_bytes(listings: Seq<Vec<DirItem>>, n: int) -> nat
    decreases n,
{
    if n <= 0 {
        0
    } else {
        listings_bytes(listings, n - 1) + names_bytes(
            listings[n - 1]@,
            listings[n - 1]@.len() as int,
        )
    }
}

proof fn lemma_listings_bytes(listings: Seq<Vec<DirItem>>, n: int, m: int)
    requires
        n <= m,
    ensures
        listings_bytes(listings, n) <= listings_bytes(listings, m),
    decreases m,
{
    if n < m && m > 0 {
        lemma_listings_bytes(listings, n, m - 1);
    }
}

/// The candidates in `dirs`, sorted within each, and the groups that say which are in which.
pub open spec fn partial_result(
    prefix: Seq<char>,
    dirs_only: bool,
    dirs: Seq<Seq<char>>,
    listings: Seq<Vec<DirItem>>,
    segs: Seq<Seq<EntryView>>,
) -> bool {
    &&& segs.len() == dirs.len()
    &&& forall|i: int|
        0 <= i < dirs.len() ==> stable_sorted(
            listed(#[trigger] dirs[i], prefix, dirs_only, listings[i]@),
            segs[i],
            time_order(),
        )
}

/// The candidates for `prefix` in some directories, the newest of each first, and the groups they
/// form.
pub open spec fn partial_found(
    prefix: Seq<char>,
    dirs_only: bool,
    dirs: Seq<Seq<char>>,
    listings: Seq<Vec<DirItem>>,
    entries: Seq<EntryView>,
    groups: Seq<(Seq<char>, int, int)>,
) -> bool {
    exists|segs: Seq<Seq<EntryView>>|
        {
            &&& #[trigger] partial_result(prefix, dirs_only, dirs, listings, segs)
            &&& entries == concat(segs, segs.len() as int)
            &&& groups == groups_of(dirs, segs, segs.len() as int)
        }
}

/// What is searched for a path that may be abbreviated: nothing where it has no directory part,
/// or where that part names a directory as it stands.
pub open spec fn searched<A>(partial: Seq<char>, dir_exists: bool, v: Seq<A>) -> Seq<A> {
    if dir_part(partial).len() == 0 || dir_exists {
        Seq::empty()
    } else {
        v
    }
}

/// Fish-style partial path completion: the candidates for a path in the directories that its
/// directory part may stand for, from their listings. `dir_exists` tells whether the directory
/// part names a directory as it stands. Returns (directory with slash, start, count) tuples
/// indexing into the candidates.
pub fn complete_partial_path(
    partial: &str,
    dirs_only: bool,
    dir_exists: bool,
    dirs: &Vec<String>,
    listings: &Vec<Vec<DirItem>>,
) -> (r: (Completions, Vec<(String, usize, usize)>))
    requires
        dirs.len() == listings.len(),
        listings_bytes(listings@, listings@.len() as int) <= u32::MAX,
    ensures
        r.0.wf(),
        partial_found(
            name_part(partial@),
            dirs_only,
            searched(partial@, dir_exists, strs(dirs@)),
            searched(partial@, dir_exists, listings@),
            r.0@,
            group_views(r.1@),
        ),
{
    let (dir, prefix) = split_path(partial);
    if dir_exists || chars_of(dir).len() == 0 {
        let no_dirs: Vec<String> = Vec::new();
        let no_listings: Vec<Vec<DirItem>> = Vec::new();
        assert(strs(no_dirs@) =~= Seq::empty());
        assert(no_listings@ =~= Seq::empty());
        return complete_in_dirs(prefix, dirs_only, &no_dirs, &no_listings);
    }
    complete_in_dirs(prefix, dirs_only, dirs, listings)
}

/// The candidates for `prefix` in some directories, from their listings.
fn complete_in_dirs(
    prefix: &str,
    dirs_only: bool,
    dirs: &Vec<String>,
    listings: &Vec<Vec<DirItem>>,
) -> (r: (Completions, Vec<(String, usize, usize)>))
    requires
        dirs.len() == listings.len(),
        listings_bytes(listings@, listings@.len() as int) <= u32::MAX,
    ensures
        r.0.wf(),
        partial_found(
            prefix@,
            dirs_only,
            strs(dirs@),
            listings@,
            r.0@,
            group_views(r.1@),
        ),
{
    let mut comp = Completions::new();
    let mut groups: Vec<(String, usize, usize)> = Vec::new();
    let mut i: usize = 0;
    let ghost mut segs: Seq<Seq<EntryView>> = Seq::empty();
    let ghost ds = strs(dirs@);
    assert(group_views(groups@) =~= Seq::empty());
    assert(byte_len(comp.names@) == 0);
    while i < dirs.len()
        invariant
            i <= dirs.len() == listings.len(),
            ds == strs(dirs@),
            segs.len() == i,
            comp.wf(),
            comp@ == concat(segs, i as int),
            group_views(groups@) == groups_of(ds, segs, i as int),
            forall|k: int|
                0 <= k < i ==> stable_sorted(
                    listed(#[trigger] ds[k], prefix@, dirs_only, listings@[k]@),
                    segs[k],
                    time_order(),
                ),
            byte_len(comp.names@) <= listings_bytes(listings@, i as int),
            listings_bytes(listings@, listings@.len() as int) <= u32::MAX,
        decreases dirs.len() - i,
    {
        let ghost had = comp@;
        let ghost old_segs = segs;
        let start = comp.entries.len();
        proof {
            lemma_listings_bytes(listings@, i + 1, listings@.len() as int);
        }
        append_listed(dirs[i].as_str(), prefix, dirs_only, &listings[i], &mut comp);
        let ghost found = listed(dirs@[i as int]@, prefix@, dirs_only, listings@[i as int]@);
        assert(comp@.skip(start as int) =~= found);
        assert(comp@.take(start as int) =~= had);
        comp.sort_tail_by_mtime(start);
        let count = comp.entries.len() - start;
        proof {
            let seg = comp@.skip(start as int);
            segs = segs.push(seg);
            lemma_concat_prefix(old_segs, segs, i as int);
            lemma_groups_prefix(ds, old_segs, segs, i as int);
            assert(comp@ =~= had + seg);
            assert(ds[i as int] == dirs@[i as int]@);
        }
        if count > 0 {
            let mut name = chars_of(dirs[i].as_str());
            push_str(&mut name, "/");
            let ghost before = group_views(groups@);
            let text = string_of(name.as_slice());
            let ghost tv = text@;
            groups.push((text, start, count));
            assert(group_views(groups@) =~= before.push((tv, start as int, count as int)));
        }
        i += 1;
    }
    assert(partial_result(prefix@, dirs_only, strs(dirs@), listings@, segs));
    (comp, groups)
}

/// Group number `g` holds what `complete_path` gives for directory number `i`.
#[verifier::opaque]
pub open spec fn group_is_listing(
    prefix: Seq<char>,
    dirs_only: bool,
    dirs: Seq<Seq<char>>,
    listings: Seq<Vec<DirItem>>,
    entries: Seq<EntryView>,
    groups: Seq<(Seq<char>, int, int)>,
    g: int,
    i: int,
) -> bool {
    let (dir, start, count) = groups[g];
    &&& 0 <= i < dirs.len()
    &&& dir == dirs[i] + "/"@
    &&& dir.last() == '/'
    &&& count > 0
    &&& 0 <= start
    &&& start + count <= entries.len()
    &&& path_candidates(
        dir + prefix,
        dirs_only,
        listings[i]@,
        entries.subrange(start, start + count),
    )
}

/// Where group number `g` starts: the groups follow each other without a gap.
pub open spec fn group_start(groups: Seq<(Seq<char>, int, int)>, g: int) -> int {
    if g <= 0 {
        0
    } else {
        groups[g - 1].1 + groups[g - 1].2
    }
}

/// Each group is what `complete_path` gives for its directory, and the groups follow each other
/// without a gap and hold all candidates.
pub open spec fn groups_are_listings(
    prefix: Seq<char>,
    dirs_only: bool,
    dirs: Seq<Seq<char>>,
    listings: Seq<Vec<DirItem>>,
    entries: Seq<EntryView>,
    groups: Seq<(Seq<char>, int, int)>,
) -> bool {
    &&& forall|g: int|
        #![trigger groups[g]]
        0 <= g < groups.len() ==> groups[g].1 == group_start(groups, g) && exists|i: int|
            group_is_listing(prefix, dirs_only, dirs, listings, entries, groups, g, i)
    &&& entries.len() == group_start(groups, groups.len() as int)
}

/// The candidates in plain directories come in groups, each of which is what `complete_path`
/// gives for its directory. There are none where no directory is searched.
#[verifier::spinoff_prover]
pub proof fn law_groups_are_listings(
    prefix: Seq<char>,
    dirs_only: bool,
    dirs: Seq<Seq<char>>,
    listings: Seq<Vec<DirItem>>,
    entries: Seq<EntryView>,
    groups: Seq<(Seq<char>, int, int)>,
)
    requires
        partial_found(prefix, dirs_only, dirs, listings, entries, groups),
        !prefix.contains('/'),
        all_plain(dirs),
    ensures
        groups_are_listings(prefix, dirs_only, dirs, listings, entries, groups),
        dirs.len() == 0 ==> entries.len() == 0 && groups.len() == 0,
{
    let segs = choose|segs: Seq<Seq<EntryView>>|
        {
            &&& #[trigger] partial_result(prefix, dirs_only, dirs, listings, segs)
            &&& entries == concat(segs, segs.len() as int)
            &&& groups == groups_of(dirs, segs, segs.len() as int)
        };
    lemma_groups(prefix, dirs_only, dirs, listings, segs, segs.len() as int);
}

/// The candidates for a path whose directory part may be abbreviated come in groups, each of
/// which is what `complete_path` gives for a directory that the search results in. There are
/// none where the path has no directory part, or where that is a directory.
pub proof fn law_abbreviated_path_groups(
    partial: Seq<char>,
    dirs_only: bool,
    dir_exists: bool,
    all: Seq<Told>,
    n: nat,
    listings: Seq<Vec<DirItem>>,
    entries: Seq<EntryView>,
    groups: Seq<(Seq<char>, int, int)>,
)
    requires
        n <= all.len(),
        forall|k: int| 0 <= k < n ==> names_only(#[trigger] all[k]),
        slashes_trimmed(dir_part(partial)).len() > 0 ==> n > 0 && all[0] == Told::Answer(
            dir_exists,
        ),
        ({
            let v = PartialView::start(dir_part(partial)).after(all, n);
            &&& v.asking is None
            &&& v.components.len() == 0
            &&& partial_found(
                name_part(partial),
                dirs_only,
                searched(partial, dir_exists, v.dirs),
                searched(partial, dir_exists, listings),
                entries,
                groups,
            )
        }),
    ensures
        groups_are_listings(
            name_part(partial),
            dirs_only,
            searched(
                partial,
                dir_exists,
                PartialView::start(dir_part(partial)).after(all, n).dirs,
            ),
            searched(partial, dir_exists, listings),
            entries,
            groups,
        ),
        dir_part(partial).len() == 0 || dir_exists ==> entries.len() == 0 && groups.len() == 0,
{
    let start = PartialView::start(dir_part(partial));
    let v = start.after(all, n);
    let dirs = searched(partial, dir_exists, v.dirs);
    if slashes_trimmed(dir_part(partial)).len() > 0 {
        law_results_are_plain(dir_part(partial), all, n);
    } else {
        lemma_nothing_to_search(start, all, n);
    }
    assert(all_plain(dirs));
    let prefix = name_part(partial);
    lemma_last_slash(partial);
    assert(!prefix.contains('/')) by {
        if prefix.contains('/') {
            let k = choose|k: int| 0 <= k < prefix.len() && prefix[k] == '/';
            assert(partial[k + last_slash(partial) + 1] == '/');
        }
    }
    law_groups_are_listings(
        prefix,
        dirs_only,
        dirs,
        searched(partial, dir_exists, listings),
        entries,
        groups,
    );
}

proof fn lemma_nothing_to_search(v: PartialView, all: Seq<Told>, n: nat)
    requires
        v == PartialView::none(),
    ensures
        v.after(all, n) == v,
    decreases n,
{
    if n > 0 {
        lemma_nothing_to_search(v, all, (n - 1) as nat);
    }
}

/// A directory as a path names it: not the current one, and without a slash at its end.
pub open spec fn is_plain_dir(d: Seq<char>) -> bool {
    d.len() > 0 && d.last() != '/' && d != "."@
}

/// The directories that continue an abbreviated path are named so: names hold no slash, and a
/// component is not empty.
pub proof fn law_continued_dirs_are_plain(
    dir: Seq<char>,
    component: Seq<char>,
    items: Seq<DirItem>,
    n: int,
)
    requires
        dir.len() > 0,
        component.len() > 0,
        0 <= n <= items.len(),
        forall|i: int| 0 <= i < items.len() ==> !(#[trigger] items[i]).name@.contains('/'),
    ensures
        forall|k: int|
            0 <= k < continued(dir, component, items, n).len() ==> is_plain_dir(
                #[trigger] continued(dir, component, items, n)[k],
            ),
    decreases n,
{
    if n > 0 {
        law_continued_dirs_are_plain(dir, component, items, n - 1);
        let name = items[n - 1].name@;
        if continues_path(dir, component, items[n - 1]) {
            let path = joined_path(dir, name);
            reveal_strlit("/");
            reveal_strlit(".");
            encode_utf8_decode_utf8(name);
            encode_utf8_decode_utf8(component);
            assert(name.len() > 0) by {
                if name.len() == 0 {
                    assert(name =~= Seq::<char>::empty());
                    assert(encode_utf8(name).len() == 0);
                    assert(encode_utf8(component).len() > 0) by {
                        lemma_encode_concat(component.take(1), component.skip(1));
                        assert(component.take(1) + component.skip(1) =~= component);
                        assert(byte_len(component) > 0);
                    }
                }
            }
            assert(path.last() == name.last());
            assert(name.contains(name.last()));
            if dir != "."@ {
                assert(path.len() > 1);
            }
            assert(is_plain_dir(path));
        }
        let before = continued(dir, component, items, n - 1);
        let all = continued(dir, component, items, n);
        assert forall|k: int| 0 <= k < all.len() implies is_plain_dir(#[trigger] all[k]) by {
            if k < before.len() {
                assert(all[k] == before[k]);
            }
        }
    }
}

/// What a search is told: whether a path is a directory, or the entries of one.
pub enum Told {
    Answer(bool),
    Entries(Seq<DirItem>),
}

impl PartialView {
    /// The search once it has been told what it asked for.
    pub open spec fn told(self, t: Told) -> PartialView {
        match t {
            Told::Answer(is_dir) => if self.asking is Some {
                self.answered(is_dir)
            } else {
                self
            },
            Told::Entries(items) => if self.asking is None && self.dirs.len() > 0
                && self.components.len() > 0 {
                self.fed(items)
            } else {
                self
            },
        }
    }

    /// The search once it has been told the first `n` things.
    pub open spec fn after(self, all: Seq<Told>, n: nat) -> PartialView
        decreases n,
    {
        if n == 0 {
            self
        } else {
            self.after(all, (n - 1) as nat).told(all[n - 1])
        }
    }
}

/// The names of entries hold no slash.
pub open spec fn names_only(t: Told) -> bool {
    t matches Told::Entries(items) ==> forall|i: int|
        0 <= i < items.len() ==> !(#[trigger] items[i]).name@.contains('/')
}

pub open spec fn all_plain(v: Seq<Seq<char>>) -> bool {
    forall|k: int| 0 <= k < v.len() ==> is_plain_dir(#[trigger] v[k])
}

/// How a search for the path `d` stands: it asks for a path that is not empty, looks for
/// components that are not empty in directories that are not, and has found plain directories.
/// `given` tells whether `d` itself may still be the result.
spec fn on_course(v: PartialView, d: Seq<char>, given: bool) -> bool {
    &&& all_plain(v.found)
    &&& forall|k: int| 0 <= k < v.components.len() ==> (#[trigger] v.components[k]).len() > 0
    &&& forall|k: int| 0 <= k < v.dirs.len() ==> (#[trigger] v.dirs[k]).len() > 0
    &&& v.asking matches Some(a) ==> a.len() > 0 && v.dirs.len() == 0 && v.found.len() == 0 && (
    v.components.len() == 0 ==> given && a == d)
    &&& v.asking is None && v.components.len() == 0 ==> all_plain(v.dirs) || given && v.dirs
        =~= seq![d]
}

proof fn lemma_settled_on_course(v: PartialView, d: Seq<char>, given: bool)
    requires
        on_course(v, d, given),
    ensures
        on_course(v.settled(), d, given),
    decreases v.components.len(),
{
    if v.asking is None && v.dirs.len() == 0 && v.components.len() > 0 {
        let next = PartialView {
            asking: None,
            components: v.components.drop_last(),
            dirs: v.found,
            found: Seq::empty(),
        };
        assert(on_course(next, d, given));
        lemma_settled_on_course(next, d, given);
    }
}

proof fn lemma_told_on_course(v: PartialView, t: Told, d: Seq<char>, given: bool)
    requires
        on_course(v, d, given),
        names_only(t),
    ensures
        on_course(v.told(t), d, given),
{
    match t {
        Told::Answer(is_dir) => if v.asking is Some {
            let a = v.asking->0;
            reveal_strlit(".");
            reveal_strlit("/");
            if !is_dir && name_part(a).len() > 0 && a != "."@ {
                let next = v.answered(is_dir);
                assert(parent_of(a).len() > 0);
                assert(next.components.last().len() > 0);
            }
            assert(on_course(v.answered(is_dir), d, given));
        },
        Told::Entries(items) => if v.asking is None && v.dirs.len() > 0 && v.components.len() > 0 {
            let n = items.len() as int;
            let dir = v.dirs[0];
            let component = v.components.last();
            law_continued_dirs_are_plain(dir, component, items, n);
            let new = continued(dir, component, items, n);
            let more = v.found + new;
            assert forall|k: int| 0 <= k < more.len() implies is_plain_dir(#[trigger] more[k]) by {
                if k < v.found.len() {
                    assert(more[k] == v.found[k]);
                } else {
                    assert(more[k] == new[k - v.found.len()]);
                }
            }
            let cut = PartialView {
                found: more.take(MAX_PARTIAL_DIRS as int),
                dirs: Seq::empty(),
                ..v
            };
            let rest = PartialView { found: more, dirs: v.dirs.drop_first(), ..v };
            if more.len() > MAX_PARTIAL_DIRS {
                assert(on_course(cut, d, given));
                lemma_settled_on_course(cut, d, given);
            } else {
                assert(on_course(rest, d, given));
                lemma_settled_on_course(rest, d, given);
            }
        },
    }
}

/// Whatever a search is told, each directory that it results in is not empty, is named without a
/// slash at its end, and is not the current one, unless that is the path that was given. Where
/// that path is no directory there is no exception.
pub proof fn law_results_are_plain(dir: Seq<char>, all: Seq<Told>, n: nat)
    requires
        n <= all.len(),
        forall|k: int| 0 <= k < n ==> names_only(#[trigger] all[k]),
    ensures
        ({
            let v = PartialView::start(dir).after(all, n);
            v.asking is None && v.components.len() == 0 ==> {
                &&& forall|k: int|
                    0 <= k < v.dirs.len() ==> {
                        &&& (#[trigger] v.dirs[k]).len() > 0
                        &&& v.dirs[k].last() != '/'
                        &&& v.dirs[k] == "."@ ==> slashes_trimmed(dir) == "."@
                    }
                &&& n > 0 && all[0] == Told::Answer(false) ==> all_plain(v.dirs)
            }
        }),
{
    let d = slashes_trimmed(dir);
    lemma_after_on_course(dir, all, n, true);
    lemma_slashes_trimmed(dir);
    let v = PartialView::start(dir).after(all, n);
    if v.asking is None && v.components.len() == 0 && !all_plain(v.dirs) {
        assert(v.dirs[0] == d);
    }
    if n > 0 && all[0] == Told::Answer(false) {
        lemma_after_on_course(dir, all, n, false);
    }
}

proof fn lemma_after_on_course(dir: Seq<char>, all: Seq<Told>, n: nat, given: bool)
    requires
        n <= all.len(),
        forall|k: int| 0 <= k < n ==> names_only(#[trigger] all[k]),
        given || n > 0 && all[0] == Told::Answer(false),
    ensures
        on_course(PartialView::start(dir).after(all, n), slashes_trimmed(dir), given),
    decreases n,
{
    let start = PartialView::start(dir);
    let d = slashes_trimmed(dir);
    if n == 1 && !given {
        assert(start.after(all, 0) == start);
        assert(start.after(all, 1) == start.told(all[0]));
        reveal_strlit(".");
        reveal_strlit("/");
        if start.asking is Some && name_part(d).len() > 0 && d != "."@ {
            assert(parent_of(d).len() > 0);
            assert(start.told(all[0]).components =~= seq![name_part(d)]);
        }
    } else if n > 0 {
        lemma_after_on_course(dir, all, (n - 1) as nat, given);
        lemma_told_on_course(start.after(all, (n - 1) as nat), all[n - 1], d, given);
    }
}

/// A group stays what it is when more follows.
proof fn lemma_group_kept(
    prefix: Seq<char>,
    dirs_only: bool,
    dirs: Seq<Seq<char>>,
    listings: Seq<Vec<DirItem>>,
    had: Seq<EntryView>,
    more: Seq<EntryView>,
    before: Seq<(Seq<char>, int, int)>,
    groups: Seq<(Seq<char>, int, int)>,
    g: int,
)
    requires
        0 <= g < before.len() <= groups.len(),
        groups[g] == before[g],
        exists|i: int| group_is_listing(prefix, dirs_only, dirs, listings, had, before, g, i),
    ensures
        exists|i: int|
            group_is_listing(prefix, dirs_only, dirs, listings, had + more, groups, g, i),
{
    let i = choose|i: int|
        group_is_listing(prefix, dirs_only, dirs, listings, had, before, g, i);
    reveal(group_is_listing);
    let (dir, start, count) = groups[g];
    assert((had + more).subrange(start, start + count) =~= had.subrange(start, start + count));
    assert(group_is_listing(prefix, dirs_only, dirs, listings, had + more, groups, g, i));
}

/// The candidates of a directory, behind others, are the group of that directory.
proof fn lemma_group_new(
    prefix: Seq<char>,
    dirs_only: bool,
    dirs: Seq<Seq<char>>,
    listings: Seq<Vec<DirItem>>,
    had: Seq<EntryView>,
    more: Seq<EntryView>,
    groups: Seq<(Seq<char>, int, int)>,
    g: int,
    i: int,
)
    requires
        0 <= i < dirs.len(),
        0 <= g < groups.len(),
        is_plain_dir(dirs[i]),
        !prefix.contains('/'),
        more.len() > 0,
        groups[g] == (dirs[i] + "/"@, had.len() as int, more.len() as int),
        stable_sorted(listed(dirs[i], prefix, dirs_only, listings[i]@), more, time_order()),
    ensures
        group_is_listing(prefix, dirs_only, dirs, listings, had + more, groups, g, i),
{
    reveal(group_is_listing);
    reveal_strlit("/");
    lemma_listed_with_slash(dirs[i], prefix, dirs_only, listings[i]@);
    assert((had + more).subrange(had.len() as int, (had.len() + more.len()) as int) =~= more);
}

#[verifier::spinoff_prover]
proof fn lemma_groups(
    prefix: Seq<char>,
    dirs_only: bool,
    dirs: Seq<Seq<char>>,
    listings: Seq<Vec<DirItem>>,
    segs: Seq<Seq<EntryView>>,
    n: int,
)
    requires
        partial_result(prefix, dirs_only, dirs, listings, segs),
        !prefix.contains('/'),
        all_plain(dirs),
        0 <= n <= segs.len(),
    ensures
        groups_are_listings(
            prefix,
            dirs_only,
            dirs,
            listings,
            concat(segs, n),
            groups_of(dirs, segs, n),
        ),
    decreases n,
{
    if n > 0 {
        lemma_groups(prefix, dirs_only, dirs, listings, segs, n - 1);
        let before = groups_of(dirs, segs, n - 1);
        let had = concat(segs, n - 1);
        let more = segs[n - 1];
        let groups = groups_of(dirs, segs, n);
        assert(is_plain_dir(dirs[n - 1]));
        assert(more.len() > 0 ==> groups.last() == groups[groups.len() - 1]);
        assert forall|g: int| #![trigger groups[g]] 0 <= g < groups.len() implies groups[g].1
            == group_start(groups, g) && exists|i: int|
            group_is_listing(prefix, dirs_only, dirs, listings, had + more, groups, g, i) by {
            assert(g > 0 ==> groups[g - 1] == before[g - 1]);
            if g < before.len() {
                assert(groups[g] == before[g]);
                lemma_group_kept(
                    prefix,
                    dirs_only,
                    dirs,
                    listings,
                    had,
                    more,
                    before,
                    groups,
                    g,
                );
            } else {
                lemma_group_new(
                    prefix,
                    dirs_only,
                    dirs,
                    listings,
                    had,
                    more,
                    groups,
                    g,
                    n - 1,
                );
            }
        }
    }
}

/// A directory has the same candidates under the path that ends in a slash.
proof fn lemma_listed_with_slash(
    d: Seq<char>,
    prefix: Seq<char>,
    dirs_only: bool,
    items: Seq<DirItem>,
)
    requires
        is_plain_dir(d),
        !prefix.contains('/'),
    ensures
        ({
            let partial = d + "/"@ + prefix;
            listed(dir_part(partial), name_part(partial), dirs_only, items) == listed(
                d,
                prefix,
                dirs_only,
                items,
            )
        }),
{
    let partial = d + "/"@ + prefix;
    let ds = d + "/"@;
    reveal_strlit("/");
    reveal_strlit(".");
    lemma_last_slash(partial);
    assert(last_slash(partial) == d.len()) by {
        assert(partial[d.len() as int] == '/');
        assert forall|k: int| d.len() < k < partial.len() implies partial[k] != '/' by {
            assert(partial[k] == prefix[k - d.len() - 1]);
            assert(prefix.contains(prefix[k - d.len() - 1]));
        }
    }
    assert(dir_part(partial) =~= ds);
    assert(name_part(partial) =~= prefix);
    lemma_encode_concat(d, "/"@);
    vstd::utf8::is_ascii_chars_encode_utf8("/"@);
    assert(byte_len(ds) == byte_len(d) + 1);
    assert(ds.last() == '/');
    assert(ds != "."@);
    assert(dir_room(ds) == dir_room(d));
    assert forall|item: DirItem| is_candidate(ds, prefix, dirs_only, item) == is_candidate(
        d,
        prefix,
        dirs_only,
        item,
    ) by {}
    assert(any_prefix(ds, prefix, dirs_only, items) == any_prefix(d, prefix, dirs_only, items)) by {
        if any_prefix(ds, prefix, dirs_only, items) {
            let i = choose|i: int|
                0 <= i < items.len() && is_candidate(ds, prefix, dirs_only, #[trigger] items[i])
                    && has_prefix(items[i].name@, prefix);
            assert(is_candidate(d, prefix, dirs_only, items[i]));
        }
        if any_prefix(d, prefix, dirs_only, items) {
            let i = choose|i: int|
                0 <= i < items.len() && is_candidate(d, prefix, dirs_only, #[trigger] items[i])
                    && has_prefix(items[i].name@, prefix);
            assert(is_candidate(ds, prefix, dirs_only, items[i]));
        }
    }
    lemma_chosen_same(
        ds,
        d,
        prefix,
        dirs_only,
        items,
        any_prefix(d, prefix, dirs_only, items),
        items.len() as int,
    );
    if byte_len(ds) >= PATH_LIMIT {
        lemma_no_room(d, prefix, dirs_only, items, any_prefix(d, prefix, dirs_only, items), items.len() as int);
    }
}

proof fn lemma_chosen_same(
    a: Seq<char>,
    b: Seq<char>,
    prefix: Seq<char>,
    dirs_only: bool,
    items: Seq<DirItem>,
    strict: bool,
    n: int,
)
    requires
        dir_room(a) == dir_room(b),
        0 <= n <= items.len(),
    ensures
        chosen(a, prefix, dirs_only, items, strict, n) == chosen(
            b,
            prefix,
            dirs_only,
            items,
            strict,
            n,
        ),
    decreases n,
{
    if n > 0 {
        lemma_chosen_same(a, b, prefix, dirs_only, items, strict, n - 1);
    }
}

/// No entry fits behind a directory that takes all the room.
proof fn lemma_no_room(
    dir: Seq<char>,
    prefix: Seq<char>,
    dirs_only: bool,
    items: Seq<DirItem>,
    strict: bool,
    n: int,
)
    requires
        dir_room(dir) >= PATH_LIMIT,
        0 <= n <= items.len(),
    ensures
        chosen(dir, prefix, dirs_only, items, strict, n).len() == 0,
    decreases n,
{
    if n > 0 {
        lemma_no_room(dir, prefix, dirs_only, items, strict, n - 1);
    }
}

proof fn lemma_concat_prefix(a: Seq<Seq<EntryView>>, b: Seq<Seq<EntryView>>, n: int)
    requires
        0 <= n <= a.len(),
        n <= b.len(),
        forall|k: int| 0 <= k < n ==> a[k] == b[k],
    ensures
        concat(a, n) == concat(b, n),
    decreases n,
{
    if n > 0 {
        lemma_concat_prefix(a, b, n - 1);
    }
}

proof fn lemma_groups_prefix(
    dirs: Seq<Seq<char>>,
    a: Seq<Seq<EntryView>>,
    b: Seq<Seq<EntryView>>,
    n: int,
)
    requires
        0 <= n <= a.len(),
        n <= b.len(),
        forall|k: int| 0 <= k < n ==> a[k] == b[k],
    ensures
        groups_of(dirs, a, n) == groups_of(dirs, b, n),
    decreases n,
{
    if n > 0 {
        lemma_groups_prefix(dirs, a, b, n - 1);
        lemma_concat_prefix(a, b, n - 1);
    }
}

// -- SSH --

/// Hosts of a `Host` line that are no patterns.
pub open spec fn plain_hosts(ws: Seq<Seq<char>>, n: int) -> Seq<Seq<char>>
    decreases n,
{
    if n <= 0 {
        Seq::empty()
    } else {
        let before = plain_hosts(ws, n - 1);
        let h = ws[n - 1];
        if !h.contains('*') && !h.contains('?') && h != "."@ {
            before.push(h)
        } else {
            before
        }
    }
}

/// Hosts of one line of an SSH configuration.
pub open spec fn config_line_hosts(line: Seq<char>) -> Seq<Seq<char>> {
    let t = trimmed(line);
    if starts_with(t, "Host "@) || starts_with(t, "Host\t"@) {
        let ws = words(t.skip(5));
        plain_hosts(ws, ws.len() as int)
    } else {
        Seq::empty()
    }
}

/// A host without the brackets and port around it.
pub open spec fn bare_host(entry: Seq<char>) -> Seq<char> {
    if entry.len() > 0 && entry[0] == '[' {
        entry.subrange(1, index_from(entry, ']', 1))
    } else {
        entry
    }
}

/// The names among the first `n` aliases of a known host.
pub open spec fn alias_hosts(aliases: Seq<Seq<char>>, n: int) -> Seq<Seq<char>>
    decreases n,
{
    if n <= 0 {
        Seq::empty()
    } else {
        let before = alias_hosts(aliases, n - 1);
        let h = bare_host(aliases[n - 1]);
        if h.len() > 0 && !h.contains('*') {
            before.push(h)
        } else {
            before
        }
    }
}

/// Hosts of one line of the known hosts: its first field, unless it is hashed.
pub open spec fn known_line_hosts(line: Seq<char>) -> Seq<Seq<char>> {
    let t = trimmed(line);
    let ws = words(t);
    if t.len() == 0 || t[0] == '#' || t[0] == '|' || ws.len() == 0 {
        Seq::empty()
    } else {
        let aliases = split(ws[0], ',');
        alias_hosts(aliases, aliases.len() as int)
    }
}

/// Hosts of the first `n` lines of a file, which is a configuration or a list of known hosts.
pub open spec fn file_hosts(ls: Seq<Seq<char>>, config: bool, n: int) -> Seq<Seq<char>>
    decreases n,
{
    if n <= 0 {
        Seq::empty()
    } else {
        file_hosts(ls, config, n - 1) + if config {
            config_line_hosts(ls[n - 1])
        } else {
            known_line_hosts(ls[n - 1])
        }
    }
}

/// All hosts of the two files.
pub open spec fn all_hosts(config: Seq<char>, known: Seq<char>) -> Seq<Seq<char>> {
    file_hosts(lines(config), true, lines(config).len() as int) + file_hosts(
        lines(known),
        false,
        lines(known).len() as int,
    )
}

/// `v` without the strings equal to the one kept before them.
pub open spec fn strings_deduped(v: Seq<Seq<char>>) -> Seq<Seq<char>>
    decreases v.len(),
{
    if v.len() == 0 {
        v
    } else {
        let t = strings_deduped(v.drop_last());
        if t.len() > 0 && t.last() == v.last() {
            t
        } else {
            t.push(v.last())
        }
    }
}

fn push_string(out: &mut Vec<String>, s: String)
    ensures
        strs(final(out)@) == strs(old(out)@).push(s@),
{
    out.push(s);
    assert(strs(out@) =~= strs(old(out)@).push(s@));
}

fn collect_config_hosts(line: &str, out: &mut Vec<String>)
    ensures
        strs(final(out)@) == strs(old(out)@) + config_line_hosts(line@),
{
    let t = trim(line);
    let v = chars_of(t.as_str());
    let a = chars_of("Host ");
    let b = chars_of("Host\t");
    assert(strs(out@) + Seq::<Seq<char>>::empty() =~= strs(out@));
    proof {
        reveal_strlit("Host ");
        reveal_strlit("Host\t");
    }
    if matches_at(&v, &a, 0) || matches_at(&v, &b, 0) {
        let rest = substring(&v, 5, v.len());
        assert(rest@ =~= t@.skip(5));
        let ws = words_of(rest.as_str());
        let ghost wv = strs(ws@);
        let mut i: usize = 0;
        assert(strs(out@) + plain_hosts(wv, 0) =~= strs(out@));
        while i < ws.len()
            invariant
                i <= ws.len(),
                wv == strs(ws@),
                strs(out@) == strs(old(out)@) + plain_hosts(wv, i as int),
            decreases ws.len() - i,
        {
            let h = chars_of(ws[i].as_str());
            assert(wv[i as int] == ws@[i as int]@);
            if !has_char(&h, '*') && !has_char(&h, '?') && !str_eq(ws[i].as_str(), ".") {
                let ghost had = strs(out@);
                push_string(out, ws[i].clone());
                assert(strs(out@) =~= strs(old(out)@) + plain_hosts(wv, i + 1));
            }
            i += 1;
        }
    }
}

fn bare(entry: &str) -> (r: String)
    ensures
        r@ == bare_host(entry@),
{
    let v = chars_of(entry);
    if v.len() > 0 && v[0] == '[' {
        let e = find_char(&v, ']', 1);
        substring(&v, 1, e)
    } else {
        entry.to_owned()
    }
}

fn collect_known_hosts(line: &str, out: &mut Vec<String>)
    ensures
        strs(final(out)@) == strs(old(out)@) + known_line_hosts(line@),
{
    let t = trim(line);
    let v = chars_of(t.as_str());
    let ws = words_of(t.as_str());
    assert(strs(out@) + Seq::<Seq<char>>::empty() =~= strs(out@));
    if v.len() == 0 || v[0] == '#' || v[0] == '|' || ws.len() == 0 {
        return;
    }
    assert(strs(ws@)[0] == ws@[0]@);
    let field = chars_of(ws[0].as_str());
    let aliases = split_on(&field, ',');
    let ghost av = strs(aliases@);
    let mut i: usize = 0;
    assert(strs(out@) + alias_hosts(av, 0) =~= strs(out@));
    while i < aliases.len()
        invariant
            i <= aliases.len(),
            av == strs(aliases@),
            strs(out@) == strs(old(out)@) + alias_hosts(av, i as int),
        decreases aliases.len() - i,
    {
        assert(av[i as int] == aliases@[i as int]@);
        let h = bare(aliases[i].as_str());
        let hv = chars_of(h.as_str());
        if hv.len() > 0 && !has_char(&hv, '*') {
            push_string(out, h);
            assert(strs(out@) =~= strs(old(out)@) + alias_hosts(av, i + 1));
        }
        i += 1;
    }
}

fn collect_file_hosts(text: &str, config: bool, out: &mut Vec<String>)
    ensures
        strs(final(out)@) == strs(old(out)@) + file_hosts(
            lines(text@),
            config,
            lines(text@).len() as int,
        ),
{
    let ls = lines_of(text);
    let ghost lv = strs(ls@);
    let mut i: usize = 0;
    assert(strs(out@) + file_hosts(lv, config, 0) =~= strs(out@));
    while i < ls.len()
        invariant
            i <= ls.len(),
            lv == strs(ls@),
            strs(out@) == strs(old(out)@) + file_hosts(lv, config, i as int),
        decreases ls.len() - i,
    {
        let ghost had = strs(out@);
        assert(lv[i as int] == ls@[i as int]@);
        if config {
            collect_config_hosts(ls[i].as_str(), out);
        } else {
            collect_known_hosts(ls[i].as_str(), out);
        }
        assert(strs(out@) =~= strs(old(out)@) + file_hosts(lv, config, i + 1));
        i += 1;
    }
}

fn dedup_strings(v: &Vec<String>) -> (r: Vec<String>)
    ensures
        strs(r@) == strings_deduped(strs(v@)),
{
    let mut out: Vec<String> = Vec::new();
    let mut i: usize = 0;
    assert(strs(out@) =~= strings_deduped(strs(v@).take(0)));
    while i < v.len()
        invariant
            i <= v.len(),
            strs(out@) == strings_deduped(strs(v@).take(i as int)),
        decreases v.len() - i,
    {
        let ghost t = strs(out@);
        assert(strs(v@).take(i + 1).drop_last() =~= strs(v@).take(i as int));
        let same = if out.len() > 0 {
            assert(t.last() == out@[out@.len() - 1]@);
            str_eq(out[out.len() - 1].as_str(), v[i].as_str())
        } else {
            false
        };
        if !same {
            push_string(&mut out, v[i].clone());
        }
        i += 1;
    }
    assert(strs(v@).take(i as int) =~= strs(v@));
    out
}

/// Hostnames from the contents of `~/.ssh/config` and `~/.ssh/known_hosts`, sorted, each
/// once. A file that cannot be read is empty.
pub fn parse_ssh_hosts(config: &str, known_hosts: &str) -> (r: Vec<String>)
    ensures
        exists|sorted: Seq<Seq<char>>|
            #[trigger] strings_sorted(all_hosts(config@, known_hosts@), sorted) && strs(r@)
                == strings_deduped(sorted),
{
    let mut hosts: Vec<String> = Vec::new();
    assert(strs(hosts@) =~= Seq::empty());
    collect_file_hosts(config, true, &mut hosts);
    collect_file_hosts(known_hosts, false, &mut hosts);
    assert(strs(hosts@) =~= all_hosts(config@, known_hosts@));
    let sorted = sorted_strings(&hosts);
    dedup_strings(&sorted)
}

/// The entries of those of the first `n` hosts that start with `prefix`.
pub open spec fn host_entries(
    hosts: Seq<Seq<char>>,
    prefix: Seq<char>,
    n: int,
) -> Seq<EntryView>
    decreases n,
{
    if n <= 0 {
        Seq::empty()
    } else {
        let before = host_entries(hosts, prefix, n - 1);
        if starts_with(hosts[n - 1], prefix) {
            before.push(host_entry(hosts[n - 1]))
        } else {
            before
        }
    }
}

/// Bytes of the first `n` strings.
pub open spec fn strings_bytes(v: Seq<Seq<char>>, n: int) -> nat
    decreases n,
{
    if n <= 0 {
        0
    } else {
        strings_bytes(v, n - 1) + byte_len(v[n - 1])
    }
}

pub proof fn lemma_strings_bytes(v: Seq<Seq<char>>, n: int, m: int)
    requires
        n <= m,
    ensures
        strings_bytes(v, n) <= strings_bytes(v, m),
    decreases m,
{
    if n < m && m > 0 {
        lemma_strings_bytes(v, n, m - 1);
    }
}

/// Complete SSH hostnames matching `prefix`.
pub fn complete_hostnames(prefix: &str, hosts: &Vec<String>, comp: &mut Completions)
    requires
        old(comp).wf(),
        byte_len(old(comp).names@) + strings_bytes(strs(hosts@), hosts@.len() as int)
            <= u32::MAX,
    ensures
        final(comp).wf(),
        final(comp)@ == old(comp)@ + host_entries(strs(hosts@), prefix@, hosts@.len() as int),
        byte_len(final(comp).names@) <= byte_len(old(comp).names@) + strings_bytes(
            strs(hosts@),
            hosts@.len() as int,
        ),
{
    let p = chars_of(prefix);
    let ghost hv = strs(hosts@);
    let mut i: usize = 0;
    assert(comp@ + host_entries(hv, prefix@, 0) =~= comp@);
    while i < hosts.len()
        invariant
            i <= hosts.len(),
            p@ == prefix@,
            hv == strs(hosts@),
            comp.wf(),
            comp@ == old(comp)@ + host_entries(hv, prefix@, i as int),
            byte_len(comp.names@) <= byte_len(old(comp).names@) + strings_bytes(hv, i as int),
            byte_len(old(comp).names@) + strings_bytes(hv, hosts@.len() as int) <= u32::MAX,
        decreases hosts.len() - i,
    {
        let h = chars_of(hosts[i].as_str());
        assert(hv[i as int] == hosts@[i as int]@);
        if matches_at(&h, &p, 0) {
            proof {
                lemma_strings_bytes(hv, i as int, hosts@.len() as int);
                lemma_encode_concat(comp.names@, hv[i as int]);
            }
            comp.push_host(hosts[i].as_str());
            assert(comp@ =~= old(comp)@ + host_entries(hv, prefix@, i + 1));
        }
        i += 1;
    }
}

/// `s` with each single quote closed, escaped and opened again.
pub open spec fn quotes_escaped(s: Seq<char>) -> Seq<char>
    decreases s.len(),
{
    if s.len() == 0 {
        s
    } else if s.last() == '\'' {
        quotes_escaped(s.drop_last()) + "'\\''"@
    } else {
        quotes_escaped(s.drop_last()).push(s.last())
    }
}

/// Minimal shell escaping for use inside single quotes in an ssh command.
pub fn shell_escape(s: &str) -> (r: String)
    ensures
        r@ == quotes_escaped(s@),
{
    let v = chars_of(s);
    let mut out: Vec<char> = Vec::new();
    let mut i: usize = 0;
    while i < v.len()
        invariant
            i <= v.len(),
            out@ == quotes_escaped(v@.take(i as int)),
        decreases v.len() - i,
    {
        assert(v@.take(i + 1).drop_last() =~= v@.take(i as int));
        if v[i] == '\'' {
            push_str(&mut out, "'\\''");
        } else {
            out.push(v[i]);
        }
        i += 1;
    }
    assert(v@.take(i as int) =~= v@);
    string_of(out.as_slice())
}

/// The command that lists the remote files that start with `path_prefix`.
pub open spec fn remote_command(host: Seq<char>, path_prefix: Seq<char>) -> Seq<char> {
    "ssh -o BatchMode=yes -o ConnectTimeout=2 "@ + host + " 'ls -dp "@ + quotes_escaped(
        path_prefix,
    ) + "* 2>/dev/null'"@
}

/// The command that lists the remote files that start with `path_prefix`.
pub fn remote_list_command(host: &str, path_prefix: &str) -> (r: String)
    ensures
        r@ == remote_command(host@, path_prefix@),
{
    let mut v = chars_of("ssh -o BatchMode=yes -o ConnectTimeout=2 ");
    push_str(&mut v, host);
    push_str(&mut v, " 'ls -dp ");
    push_str(&mut v, shell_escape(path_prefix).as_str());
    push_str(&mut v, "* 2>/dev/null'");
    string_of(v.as_slice())
}

/// Name of a listed path below the directory part of what was asked for.
pub open spec fn remote_name(line: Seq<char>, path_prefix: Seq<char>) -> Seq<char> {
    let path = slashes_trimmed(line);
    let dir = dir_part(path_prefix);
    if dir.len() > 0 {
        if starts_with(path, dir) {
            path.skip(dir.len() as int)
        } else {
            path
        }
    } else {
        name_part(path)
    }
}

/// The entries of the first `n` lines of a remote listing.
pub open spec fn remote_entries(
    ls: Seq<Seq<char>>,
    path_prefix: Seq<char>,
    n: int,
) -> Seq<EntryView>
    decreases n,
{
    if n <= 0 {
        Seq::empty()
    } else {
        let before = remote_entries(ls, path_prefix, n - 1);
        let line = ls[n - 1];
        let name = remote_name(line, path_prefix);
        if name.len() > 0 {
            before.push(file_entry(name, line.last() == '/', false, false, 0))
        } else {
            before
        }
    }
}

proof fn lemma_remote_name_len(line: Seq<char>, path_prefix: Seq<char>)
    ensures
        byte_len(remote_name(line, path_prefix)) <= byte_len(line),
        line.len() == 0 ==> remote_name(line, path_prefix).len() == 0,
{
    lemma_slashes_trimmed(line);
    let path = slashes_trimmed(line);
    lemma_byte_len_take(line, path.len() as int);
    lemma_last_slash(path);
    lemma_byte_len_take(path, last_slash(path) + 1);
    let dir = dir_part(path_prefix);
    if dir.len() > 0 && starts_with(path, dir) {
        lemma_byte_len_take(path, dir.len() as int);
    }
}

/// Adds the files of a remote listing, which marks directories with a slash.
pub fn complete_remote_path(output: &str, path_prefix: &str, comp: &mut Completions)
    requires
        old(comp).wf(),
        byte_len(old(comp).names@) + strings_bytes(lines(output@), lines(output@).len() as int)
            <= u32::MAX,
    ensures
        final(comp).wf(),
        final(comp)@ == old(comp)@ + remote_entries(
            lines(output@),
            path_prefix@,
            lines(output@).len() as int,
        ),
{
    let ls = lines_of(output);
    let ghost lv = strs(ls@);
    let dir = split_path(path_prefix).0;
    let dv = chars_of(dir);
    let mut i: usize = 0;
    assert(comp@ + remote_entries(lv, path_prefix@, 0) =~= comp@);
    while i < ls.len()
        invariant
            i <= ls.len(),
            lv == strs(ls@),
            dv@ == dir_part(path_prefix@),
            comp.wf(),
            comp@ == old(comp)@ + remote_entries(lv, path_prefix@, i as int),
            byte_len(comp.names@) <= byte_len(old(comp).names@) + strings_bytes(lv, i as int),
            byte_len(old(comp).names@) + strings_bytes(lv, ls@.len() as int) <= u32::MAX,
        decreases ls.len() - i,
    {
        let line = ls[i].as_str();
        assert(lv[i as int] == ls@[i as int]@);
        proof {
            lemma_remote_name_len(line@, path_prefix@);
            lemma_strings_bytes(lv, i + 1, ls@.len() as int);
        }
        let lc = chars_of(line);
        if lc.len() > 0 {
            let is_dir = lc[lc.len() - 1] == '/';
            let path = trim_slashes(line);
            let pc = chars_of(path.as_str());
            let name = if dv.len() > 0 {
                if matches_at(&pc, &dv, 0) {
                    let t = substring(&pc, dv.len(), pc.len());
                    assert(t@ =~= path@.skip(dv@.len() as int));
                    t
                } else {
                    path
                }
            } else {
                let k = after_last_slash(&pc);
                let t = substring(&pc, k, pc.len());
                assert(t@ =~= name_part(path@));
                t
            };
            if !name.as_str().is_empty() {
                proof {
                    lemma_encode_concat(comp.names@, name@);
                }
                comp.push(name.as_str(), is_dir, false, false);
                assert(comp@ =~= old(comp)@ + remote_entries(lv, path_prefix@, i + 1));
            }
        }
        i += 1;
    }
}

} // verus!
