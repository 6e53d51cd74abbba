//! The commands in the directories of `$PATH`.
use std::collections::HashSet;
use vstd::prelude::*;
use vstd::utf8::*;

use crate::candidates::{
    has_prefix, is_dot_entry, is_hidden, names_bytes, spec_is_directory, spec_is_executable,
    DirItem,
};
use crate::complete::{file_entry, Completions, EntryView};
use crate::text::{
    byte_len, chars_of, lemma_encode_concat, push_str, split, split_on, str_eq, str_len, string_of,
    strs,
};

verus! {

broadcast use vstd::std_specs::hash::group_hash_axioms;

/// Paths of this many bytes or more are not looked at.
pub const PATH_ROOM: usize = 4096;

/// One step of the FNV-1a hash.
pub open spec fn fnv_step(h: u64, b: u8) -> u64 {
    (h ^ (b as u64)).wrapping_mul(0x100000001b3)
}

/// The FNV-1a hash of some bytes.
pub open spec fn fnv(s: Seq<u8>) -> u64
    decreases s.len(),
{
    if s.len() == 0 {
        0xcbf29ce484222325
    } else {
        fnv_step(fnv(s.drop_last()), s.last())
    }
}

pub fn fnv1a(s: &[u8]) -> (r: u64)
    ensures
        r == fnv(s@),
{
    let mut h: u64 = 0xcbf29ce484222325;
    let mut i: usize = 0;
    while i < s.len()
        invariant
            i <= s.len(),
            h == fnv(s@.take(i as int)),
        decreases s.len() - i,
    {
        h = (h ^ (s[i] as u64)).wrapping_mul(0x100000001b3);
        assert(s@.take(i + 1).drop_last() =~= s@.take(i as int));
        i += 1;
    }
    assert(s@.take(i as int) =~= s@);
    h
}

pub open spec fn name_hash(name: Seq<char>) -> u64 {
    fnv(encode_utf8(name))
}

// -- The directories --

/// Whether a part of `$PATH` is a directory to look in.
pub open spec fn is_search_dir(dir: Seq<char>) -> bool {
    0 < dir.len() && byte_len(dir) < PATH_ROOM
}

/// The directories to look in among the first `n` parts of `$PATH`.
pub open spec fn search_dirs(parts: Seq<Seq<char>>, n: int) -> Seq<Seq<char>>
    decreases n,
{
    if n <= 0 {
        Seq::empty()
    } else if is_search_dir(parts[n - 1]) {
        search_dirs(parts, n - 1).push(parts[n - 1])
    } else {
        search_dirs(parts, n - 1)
    }
}

/// The directories of `$PATH`, which colons separate.
pub fn path_dirs(path: &str) -> (r: Vec<String>)
    ensures
        strs(r@) == search_dirs(split(path@, ':'), split(path@, ':').len() as int),
{
    let s = chars_of(path);
    let parts = split_on(&s, ':');
    let ghost pv = strs(parts@);
    let mut out: Vec<String> = Vec::new();
    let mut i: usize = 0;
    assert(strs(out@) =~= Seq::empty());
    while i < parts.len()
        invariant
            i <= parts.len(),
            pv == strs(parts@),
            strs(out@) == search_dirs(pv, i as int),
        decreases parts.len() - i,
    {
        assert(pv[i as int] == parts@[i as int]@);
        if chars_of(parts[i].as_str()).len() > 0 && str_len(parts[i].as_str()) < PATH_ROOM {
            let ghost had = strs(out@);
            out.push(parts[i].clone());
            assert(strs(out@) =~= had.push(pv[i as int]));
        }
        i += 1;
    }
    out
}

/// A directory of `$PATH` and what it holds.
pub struct PathDir {
    pub dir: String,
    pub items: Vec<DirItem>,
}

/// The path of an entry is short enough.
pub open spec fn has_room(dir: Seq<char>, name: Seq<char>) -> bool {
    byte_len(dir) + 1 + byte_len(name) < PATH_ROOM
}

fn path_fits(dir: &str, name: &str) -> (r: bool)
    ensures
        r == has_room(dir@, name@),
{
    let a = str_len(dir);
    let b = str_len(name);
    a < PATH_ROOM && b < PATH_ROOM && a + 1 + b < PATH_ROOM
}

/// A regular file that someone may execute: the cache and the search of `$PATH` take it for a
/// command.
pub open spec fn spec_is_command(mode: u32) -> bool {
    mode & 0xF000 == 0x8000 && mode & 0x49 != 0
}

pub fn is_command(mode: u32) -> (r: bool)
    ensures
        r == spec_is_command(mode),
{
    mode & 0xF000 == 0x8000 && mode & 0x49 != 0
}

// -- The cache --

/// Whether an entry of a directory is a command.
pub open spec fn is_path_command(dir: Seq<char>, item: DirItem) -> bool {
    !is_dot_entry(item.name@) && has_room(dir, item.name@) && spec_is_command(item.mode)
}

/// The hashes of the commands among the first `n` entries of a directory.
pub open spec fn dir_commands(dir: Seq<char>, items: Seq<DirItem>, n: int) -> Set<u64>
    decreases n,
{
    if n <= 0 {
        Set::empty()
    } else if is_path_command(dir, items[n - 1]) {
        dir_commands(dir, items, n - 1).insert(name_hash(items[n - 1].name@))
    } else {
        dir_commands(dir, items, n - 1)
    }
}

/// The hashes of the commands in the first `n` directories.
pub open spec fn path_commands(dirs: Seq<PathDir>, n: int) -> Set<u64>
    decreases n,
{
    if n <= 0 {
        Set::empty()
    } else {
        path_commands(dirs, n - 1).union(
            dir_commands(dirs[n - 1].dir@, dirs[n - 1].items@, dirs[n - 1].items@.len() as int),
        )
    }
}

/// O(1) command existence cache built from $PATH directories.
/// Stores FNV-1a hashes of executable names in a `HashSet<u64>`.
pub struct PathCache {
    commands: HashSet<u64>,
    path_hash: u64,
}

#[verifier::ext_equal]
pub struct PathCacheView {
    pub commands: Set<u64>,
    pub path_hash: u64,
}

impl View for PathCache {
    type V = PathCacheView;

    closed spec fn view(&self) -> PathCacheView {
        PathCacheView { commands: self.commands@, path_hash: self.path_hash }
    }
}

impl PathCacheView {
    pub open spec fn empty() -> PathCacheView {
        PathCacheView { commands: Set::empty(), path_hash: 0 }
    }

    /// The cache must be built anew for this `$PATH`.
    pub open spec fn is_stale(self, path: Option<Seq<char>>) -> bool {
        match path {
            Some(p) => name_hash(p) != self.path_hash || self.commands == Set::<u64>::empty(),
            None => false,
        }
    }

    /// Without a `$PATH` there are no commands.
    pub open spec fn checked(self, path: Option<Seq<char>>) -> PathCacheView {
        if path is None && self.path_hash != 0 {
            PathCacheView::empty()
        } else {
            self
        }
    }
}

impl Default for PathCache {
    fn default() -> (r: Self)
        ensures
            r@ == PathCacheView::empty(),
    {
        PathCache::new()
    }
}

impl PathCache {
    pub fn new() -> (r: Self)
        ensures
            r@ == PathCacheView::empty(),
    {
        PathCache { commands: HashSet::new(), path_hash: 0 }
    }

    /// Check if `cmd` is an executable on $PATH, as of the last rebuild.
    pub fn contains(&self, cmd: &str) -> (r: bool)
        ensures
            r == self@.commands.contains(name_hash(cmd@)),
    {
        let h = fnv1a(cmd.as_bytes());
        self.commands.contains(&h)
    }

    /// Whether the cache must be rebuilt, as $PATH has changed.
    pub fn ensure_fresh(&mut self, path: &Option<String>) -> (stale: bool)
        ensures
            final(self)@ == old(self)@.checked(
                match path {
                    Some(p) => Some(p@),
                    None => None,
                },
            ),
            stale == old(self)@.is_stale(
                match path {
                    Some(p) => Some(p@),
                    None => None,
                },
            ),
    {
        match path {
            None => {
                if self.path_hash != 0 {
                    self.commands.clear();
                    self.path_hash = 0;
                }
                false
            },
            Some(p) => {
                let current = fnv1a(p.as_str().as_bytes());
                let fresh = current == self.path_hash && !self.commands.is_empty();
                assert(self.commands@.is_empty() == (self.commands@ =~= Set::<u64>::empty()));
                !fresh
            },
        }
    }

    /// Insert hashes of the executable names in each directory of $PATH.
    pub fn rebuild(&mut self, path: &str, dirs: &Vec<PathDir>)
        ensures
            final(self)@ == (PathCacheView {
                commands: path_commands(dirs@, dirs@.len() as int),
                path_hash: name_hash(path@),
            }),
    {
        self.path_hash = fnv1a(path.as_bytes());
        self.commands.clear();
        let mut i: usize = 0;
        while i < dirs.len()
            invariant
                i <= dirs.len(),
                self.path_hash == name_hash(path@),
                self.commands@ =~= path_commands(dirs@, i as int),
            decreases dirs.len() - i,
        {
            let d = &dirs[i];
            let ghost had = path_commands(dirs@, i as int);
            let mut k: usize = 0;
            assert(had.union(dir_commands(d.dir@, d.items@, 0)) =~= had);
            while k < d.items.len()
                invariant
                    k <= d.items.len(),
                    self.path_hash == name_hash(path@),
                    self.commands@ =~= had.union(dir_commands(d.dir@, d.items@, k as int)),
                decreases d.items.len() - k,
            {
                let name = d.items[k].name.as_str();
                if !str_eq(name, ".") && !str_eq(name, "..") && path_fits(d.dir.as_str(), name)
                    && is_command(d.items[k].mode) {
                    let h = fnv1a(name.as_bytes());
                    self.commands.insert(h);
                    assert(had.union(dir_commands(d.dir@, d.items@, k + 1)) =~= had.union(
                        dir_commands(d.dir@, d.items@, k as int),
                    ).insert(h));
                }
                k += 1;
            }
            i += 1;
        }
    }
}

proof fn lemma_dir_commands(dir: Seq<char>, items: Seq<DirItem>, n: int, k: int)
    requires
        0 <= k < n,
        is_path_command(dir, items[k]),
    ensures
        dir_commands(dir, items, n).contains(name_hash(items[k].name@)),
    decreases n,
{
    if k < n - 1 {
        lemma_dir_commands(dir, items, n - 1, k);
    }
}

/// After a rebuild every command in the directories of `$PATH` is found.
pub proof fn law_rebuild_finds_commands(dirs: Seq<PathDir>, n: int, d: int, k: int)
    requires
        0 <= d < n <= dirs.len(),
        0 <= k < dirs[d].items@.len(),
        is_path_command(dirs[d].dir@, dirs[d].items@[k]),
    ensures
        path_commands(dirs, n).contains(name_hash(dirs[d].items@[k].name@)),
    decreases n,
{
    if d < n - 1 {
        law_rebuild_finds_commands(dirs, n - 1, d, k);
    } else {
        lemma_dir_commands(dirs[d].dir@, dirs[d].items@, dirs[d].items@.len() as int, k);
    }
}

// -- Completion --

/// Whether an entry of a directory completes a prefix to a command.
pub open spec fn completes(dir: Seq<char>, prefix: Seq<char>, item: DirItem) -> bool {
    let name = item.name@;
    &&& !is_dot_entry(name)
    &&& has_prefix(name, prefix)
    &&& is_hidden(name) ==> is_hidden(prefix)
    &&& has_room(dir, name)
    &&& !spec_is_directory(item.mode)
    &&& spec_is_executable(item.mode)
}

/// The entries of the commands among the first `n` entries of a directory.
pub open spec fn dir_matches(
    dir: Seq<char>,
    prefix: Seq<char>,
    items: Seq<DirItem>,
    n: int,
) -> Seq<EntryView>
    decreases n,
{
    if n <= 0 {
        Seq::empty()
    } else if completes(dir, prefix, items[n - 1]) {
        dir_matches(dir, prefix, items, n - 1).push(
            file_entry(items[n - 1].name@, false, false, true, 0),
        )
    } else {
        dir_matches(dir, prefix, items, n - 1)
    }
}

/// The entries of the commands in the first `n` directories.
pub open spec fn command_matches(prefix: Seq<char>, dirs: Seq<PathDir>, n: int) -> Seq<EntryView>
    decreases n,
{
    if n <= 0 {
        Seq::empty()
    } else {
        command_matches(prefix, dirs, n - 1) + dir_matches(
            dirs[n - 1].dir@,
            prefix,
            dirs[n - 1].items@,
            dirs[n - 1].items@.len() as int,
        )
    }
}

/// Bytes of the names in the first `n` directories.
pub open spec fn dirs_bytes(dirs: Seq<PathDir>, n: int) -> nat
    decreases n,
{
    if n <= 0 {
        0
    } else {
        dirs_bytes(dirs, n - 1) + names_bytes(
            dirs[n - 1].items@,
            dirs[n - 1].items@.len() as int,
        )
    }
}

proof fn lemma_dirs_bytes(dirs: Seq<PathDir>, n: int, m: int)
    requires
        n <= m,
    ensures
        dirs_bytes(dirs, n) <= dirs_bytes(dirs, m),
    decreases m,
{
    if n < m && m > 0 {
        lemma_dirs_bytes(dirs, n, m - 1);
    }
}

proof fn lemma_names_bytes(items: Seq<DirItem>, n: int, m: int)
    requires
        n <= m,
    ensures
        names_bytes(items, n) <= names_bytes(items, m),
    decreases m,
{
    if n < m && m > 0 {
        lemma_names_bytes(items, n, m - 1);
    }
}

fn is_match(dir: &str, prefix: &str, item: &DirItem) -> (r: bool)
    ensures
        r == completes(dir@, prefix@, *item),
{
    let name = item.name.as_str();
    if str_eq(name, ".") || str_eq(name, "..") {
        return false;
    }
    if !crate::text::has_byte_prefix(name.as_bytes(), prefix.as_bytes()) {
        return false;
    }
    let n = chars_of(name);
    let p = chars_of(prefix);
    if n.len() > 0 && n[0] == '.' && !(p.len() > 0 && p[0] == '.') {
        return false;
    }
    path_fits(dir, name) && !crate::candidates::is_directory(item.mode) && item.mode & 0x49 != 0
}

/// Collect executable names from $PATH matching `prefix` into `comp`.
pub fn complete_commands(prefix: &str, dirs: &Vec<PathDir>, comp: &mut Completions)
    requires
        old(comp).wf(),
        byte_len(old(comp).names@) + dirs_bytes(dirs@, dirs@.len() as int) <= u32::MAX,
    ensures
        final(comp).wf(),
        final(comp)@ == old(comp)@ + command_matches(prefix@, dirs@, dirs@.len() as int),
        byte_len(final(comp).names@) <= byte_len(old(comp).names@) + dirs_bytes(
            dirs@,
            dirs@.len() as int,
        ),
{
    let mut i: usize = 0;
    assert(comp@ + command_matches(prefix@, dirs@, 0) =~= comp@);
    while i < dirs.len()
        invariant
            i <= dirs.len(),
            comp.wf(),
            comp@ == old(comp)@ + command_matches(prefix@, dirs@, i as int),
            byte_len(comp.names@) <= byte_len(old(comp).names@) + dirs_bytes(dirs@, i as int),
            byte_len(old(comp).names@) + dirs_bytes(dirs@, dirs@.len() as int) <= u32::MAX,
        decreases dirs.len() - i,
    {
        let d = &dirs[i];
        let ghost had = comp@;
        let ghost used = byte_len(comp.names@);
        let ghost goal = d.items@.len() as int;
        let mut k: usize = 0;
        proof {
            lemma_dirs_bytes(dirs@, i + 1, dirs@.len() as int);
            assert(had + dir_matches(d.dir@, prefix@, d.items@, 0) =~= had);
        }
        while k < d.items.len()
            invariant
                k <= d.items.len(),
                goal == d.items@.len(),
                comp.wf(),
                comp@ == had + dir_matches(d.dir@, prefix@, d.items@, k as int),
                byte_len(comp.names@) <= used + names_bytes(d.items@, k as int),
                used + names_bytes(d.items@, goal) <= u32::MAX,
            decreases d.items.len() - k,
        {
            proof {
                lemma_names_bytes(d.items@, k + 1, goal);
            }
            if is_match(d.dir.as_str(), prefix, &d.items[k]) {
                proof {
                    lemma_encode_concat(comp.names@, d.items@[k as int].name@);
                }
                comp.push(d.items[k].name.as_str(), false, false, true);
                assert(comp@ =~= had + dir_matches(d.dir@, prefix@, d.items@, k + 1));
            }
            k += 1;
        }
        assert(had + dir_matches(d.dir@, prefix@, d.items@, goal) =~= old(comp)@
            + command_matches(prefix@, dirs@, i + 1));
        i += 1;
    }
}

// -- Search --

/// The path of an entry of a directory.
pub open spec fn entry_path(dir: Seq<char>, name: Seq<char>) -> Seq<char> {
    dir + "/"@ + name
}

/// The paths at which a command may stand, in the first `n` parts of `$PATH`.
pub open spec fn search_paths(parts: Seq<Seq<char>>, cmd: Seq<char>, n: int) -> Seq<Seq<char>>
    decreases n,
{
    if n <= 0 {
        Seq::empty()
    } else if parts[n - 1].len() > 0 && has_room(parts[n - 1], cmd) {
        search_paths(parts, cmd, n - 1).push(entry_path(parts[n - 1], cmd))
    } else {
        search_paths(parts, cmd, n - 1)
    }
}

/// The paths at which a command may stand, in the order of `$PATH`.
pub fn command_paths(cmd: &str, path: &str) -> (r: Vec<String>)
    ensures
        strs(r@) == search_paths(split(path@, ':'), cmd@, split(path@, ':').len() as int),
{
    let s = chars_of(path);
    let parts = split_on(&s, ':');
    let ghost pv = strs(parts@);
    let mut out: Vec<String> = Vec::new();
    let mut i: usize = 0;
    assert(strs(out@) =~= Seq::empty());
    while i < parts.len()
        invariant
            i <= parts.len(),
            pv == strs(parts@),
            strs(out@) == search_paths(pv, cmd@, i as int),
        decreases parts.len() - i,
    {
        assert(pv[i as int] == parts@[i as int]@);
        let mut p = chars_of(parts[i].as_str());
        if p.len() > 0 && path_fits(parts[i].as_str(), cmd) {
            let ghost had = strs(out@);
            push_str(&mut p, "/");
            push_str(&mut p, cmd);
            out.push(string_of(p.as_slice()));
            assert(strs(out@) =~= had.push(entry_path(pv[i as int], cmd@)));
        }
        i += 1;
    }
    out
}

/// The first path from `i` on at which a command stands.
pub open spec fn first_command(
    paths: Seq<Seq<char>>,
    modes: Seq<Option<u32>>,
    i: int,
) -> Option<Seq<char>>
    decreases paths.len() - i,
{
    if i < 0 || i >= paths.len() || i >= modes.len() {
        None
    } else {
        match modes[i] {
            Some(mode) => if spec_is_command(mode) {
                Some(paths[i])
            } else {
                first_command(paths, modes, i + 1)
            },
            None => first_command(paths, modes, i + 1),
        }
    }
}

/// Find the full path to a command: the first of the paths at which a file stands that may be
/// executed. `modes` holds the mode of the file at each path, where there is one.
pub fn scan_path(paths: &Vec<String>, modes: &Vec<Option<u32>>) -> (r: Option<String>)
    ensures
        (match r {
            Some(p) => Some(p@),
            None => None,
        }) == first_command(strs(paths@), modes@, 0),
{
    let mut i: usize = 0;
    while i < paths.len() && i < modes.len()
        invariant
            i <= paths.len(),
            i <= modes.len(),
            first_command(strs(paths@), modes@, 0) == first_command(strs(paths@), modes@, i as int),
        decreases paths.len() - i,
    {
        assert(strs(paths@)[i as int] == paths@[i as int]@);
        if let Some(mode) = modes[i] {
            if is_command(mode) {
                return Some(paths[i].clone());
            }
        }
        i += 1;
    }
    None
}

} // verus!
