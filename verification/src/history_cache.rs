//! The binary cache of the history, and the older formats that are still read.
//!
//! All numbers are little-endian. The current format is: magic (4), number of entries (4),
//! bytes of the commands (4), bytes of the directories (4), the times (8 each), the
//! commands and the directories, each followed by a zero byte.
use vstd::prelude::*;
use vstd::utf8::*;

use crate::history_log::opt_view;
use crate::text::{
    chars_of, index_from, lemma_encode_concat, lemma_index_from, split, split_from, split_on,
    strs,
};
use crate::utf8_bytes::{law_text_round_trip, text_at, text_of};

verus! {

/// An entry as the cache holds it.
#[derive(Debug)]
pub struct CachedEntry {
    pub text: String,
    /// Epoch milliseconds.
    pub timestamp: u64,
    pub cwd: Option<String>,
}

#[verifier::ext_equal]
pub struct CachedView {
    pub text: Seq<char>,
    pub timestamp: u64,
    pub cwd: Option<Seq<char>>,
}

impl View for CachedEntry {
    type V = CachedView;

    open spec fn view(&self) -> CachedView {
        CachedView { text: self.text@, timestamp: self.timestamp, cwd: opt_view(self.cwd) }
    }
}

pub open spec fn cached_views(v: Seq<CachedEntry>) -> Seq<CachedView> {
    Seq::new(v.len(), |i: int| v[i]@)
}

// -- Numbers --

/// The number that little-endian bytes stand for.
pub open spec fn le_value(s: Seq<u8>) -> nat
    decreases s.len(),
{
    if s.len() == 0 {
        0
    } else {
        s[0] as nat + 256 * le_value(s.drop_first())
    }
}

/// The `n` low bytes of a number.
pub open spec fn le_bytes(x: nat, n: nat) -> Seq<u8>
    decreases n,
{
    if n == 0 {
        Seq::empty()
    } else {
        seq![(x % 256) as u8] + le_bytes(x / 256, (n - 1) as nat)
    }
}

/// The first number that needs more than `n` bytes.
pub open spec fn byte_limit(n: nat) -> nat
    decreases n,
{
    if n == 0 {
        1
    } else {
        256 * byte_limit((n - 1) as nat)
    }
}

proof fn lemma_limits()
    ensures
        byte_limit(4) == 0x1_0000_0000,
        byte_limit(8) == 0x1_0000_0000_0000_0000,
{
    reveal_with_fuel(byte_limit, 9);
}

proof fn lemma_le_value_bound(s: Seq<u8>)
    ensures
        le_value(s) < byte_limit(s.len()),
    decreases s.len(),
{
    if s.len() > 0 {
        lemma_le_value_bound(s.drop_first());
    }
}

/// The bytes of a number stand for it.
pub proof fn law_le_round_trip(x: nat, n: nat)
    requires
        x < byte_limit(n),
    ensures
        le_bytes(x, n).len() == n,
        le_value(le_bytes(x, n)) == x,
    decreases n,
{
    if n > 0 {
        law_le_round_trip(x / 256, (n - 1) as nat);
        let s = le_bytes(x, n);
        assert(s.drop_first() =~= le_bytes(x / 256, (n - 1) as nat));
    }
}

/// Number of `n` bytes at `o`.
pub open spec fn number_at(data: Seq<u8>, o: int, n: int) -> nat {
    le_value(data.subrange(o, o + n))
}

fn read_le(data: &Vec<u8>, o: usize, n: usize) -> (r: u64)
    requires
        n <= 8,
        o + n <= data.len(),
    ensures
        r == number_at(data@, o as int, n as int),
        r < byte_limit(n as nat),
{
    let mut v: u64 = 0;
    let mut i: usize = n;
    assert(data@.subrange(o + n, o + n) =~= Seq::<u8>::empty());
    while i > 0
        invariant
            i <= n <= 8,
            o + n <= data.len(),
            v == le_value(data@.subrange(o + i, o + n)),
        decreases i,
    {
        let ghost rest = data@.subrange(o + i, o + n);
        let ghost s = data@.subrange(o + i - 1, o + n);
        proof {
            assert(s.drop_first() =~= rest);
            assert(s[0] == data@[o + i - 1]);
            lemma_le_value_bound(s);
            lemma_limits();
            lemma_limit_grows(s.len(), 8);
        }
        v = v * 256 + data[o + (i - 1)] as u64;
        i -= 1;
    }
    proof {
        lemma_le_value_bound(data@.subrange(o as int, o + n));
    }
    v
}

proof fn lemma_limit_grows(a: nat, b: nat)
    requires
        a <= b,
    ensures
        byte_limit(a) <= byte_limit(b),
    decreases b,
{
    if a < b {
        lemma_limit_grows(a, (b - 1) as nat);
    }
}

fn push_le(out: &mut Vec<u8>, x: u64, n: usize)
    ensures
        final(out)@ == old(out)@ + le_bytes(x as nat, n as nat),
{
    let mut v: u64 = x;
    let mut i: usize = 0;
    assert(out@ + le_bytes(x as nat, n as nat) =~= old(out)@ + le_bytes(x as nat, n as nat));
    while i < n
        invariant
            i <= n,
            old(out)@ + le_bytes(x as nat, n as nat) == out@ + le_bytes(v as nat, (n - i) as nat),
        decreases n - i,
    {
        let ghost had = out@;
        let b: u8 = (v % 256) as u8;
        out.push(b);
        assert(had + (seq![b] + le_bytes((v / 256) as nat, (n - i - 1) as nat)) =~= out@
            + le_bytes((v / 256) as nat, (n - i - 1) as nat));
        v = v / 256;
        i += 1;
    }
    assert(out@ + Seq::<u8>::empty() =~= out@);
}

// -- Times --

/// 1998-01-01T00:00:00 UTC as Unix epoch milliseconds.
pub const TS_EPOCH_MILLIS: u64 = 883_612_800_000;

/// The time that a stored number stands for: milliseconds since 1998, modulo 64 bits.
pub open spec fn time_from_stored(stored: u64) -> u64 {
    if stored as int + TS_EPOCH_MILLIS <= u64::MAX {
        (stored + TS_EPOCH_MILLIS) as u64
    } else {
        (stored + TS_EPOCH_MILLIS - 0x1_0000_0000_0000_0000) as u64
    }
}

pub open spec fn time_to_stored(ts: u64) -> u64 {
    if ts >= TS_EPOCH_MILLIS {
        (ts - TS_EPOCH_MILLIS) as u64
    } else {
        (ts - TS_EPOCH_MILLIS + 0x1_0000_0000_0000_0000) as u64
    }
}

fn from_stored(stored: u64) -> (r: u64)
    ensures
        r == time_from_stored(stored),
{
    if stored <= 0xffff_ffff_ffff_ffff - TS_EPOCH_MILLIS {
        stored + TS_EPOCH_MILLIS
    } else {
        stored - (0xffff_ffff_ffff_ffff - TS_EPOCH_MILLIS) - 1
    }
}

fn to_stored(ts: u64) -> (r: u64)
    ensures
        r == time_to_stored(ts),
{
    if ts >= TS_EPOCH_MILLIS {
        ts - TS_EPOCH_MILLIS
    } else {
        ts + (0xffff_ffff_ffff_ffff - TS_EPOCH_MILLIS) + 1
    }
}

/// How a format stores times.
#[derive(Clone, Copy)]
pub enum TimeFormat {
    /// None: all times are zero.
    Absent,
    /// Seconds since the Unix epoch, four bytes.
    UnixSeconds,
    /// Seconds since 1998, four bytes.
    Seconds,
    /// Milliseconds since 1998, eight bytes.
    Millis,
}

pub open spec fn time_size(f: TimeFormat) -> int {
    match f {
        TimeFormat::Absent => 0,
        TimeFormat::UnixSeconds => 4,
        TimeFormat::Seconds => 4,
        TimeFormat::Millis => 8,
    }
}

pub open spec fn time_at(data: Seq<u8>, f: TimeFormat, start: int, i: int) -> u64 {
    match f {
        TimeFormat::Absent => 0,
        TimeFormat::UnixSeconds => (number_at(data, start + i * 4, 4) * 1000) as u64,
        TimeFormat::Seconds => (number_at(data, start + i * 4, 4) * 1000 + TS_EPOCH_MILLIS)
            as u64,
        TimeFormat::Millis => time_from_stored(number_at(data, start + i * 8, 8) as u64),
    }
}

fn read_times(data: &Vec<u8>, f: TimeFormat, start: usize, n: usize) -> (r: Vec<u64>)
    requires
        start + n * time_size(f) <= data.len(),
    ensures
        r@.len() == n,
        forall|i: int|
            0 <= i < n ==> #[trigger] r@[i] == time_at(data@, f, start as int, i),
{
    let mut out: Vec<u64> = Vec::new();
    let mut i: usize = 0;
    while i < n
        invariant
            i <= n,
            start + n * time_size(f) <= data.len(),
            out@.len() == i,
            forall|k: int|
                0 <= k < i ==> #[trigger] out@[k] == time_at(data@, f, start as int, k),
        decreases n - i,
    {
        proof {
            lemma_limits();
            assert(i * time_size(f) + time_size(f) <= n * time_size(f)) by (nonlinear_arith)
                requires
                    i < n,
                    0 <= time_size(f),
            ;
        }
        let t: u64 = match f {
            TimeFormat::Absent => 0,
            TimeFormat::UnixSeconds => read_le(data, start + i * 4, 4) * 1000,
            TimeFormat::Seconds => read_le(data, start + i * 4, 4) * 1000 + TS_EPOCH_MILLIS,
            TimeFormat::Millis => from_stored(read_le(data, start + i * 8, 8)),
        };
        out.push(t);
        i += 1;
    }
    out
}

// -- Reading --

/// The strings of `parts` that are not empty.
pub open spec fn non_empty(parts: Seq<Seq<char>>, n: int) -> Seq<Seq<char>>
    decreases n,
{
    if n <= 0 {
        Seq::empty()
    } else if parts[n - 1].len() > 0 {
        non_empty(parts, n - 1).push(parts[n - 1])
    } else {
        non_empty(parts, n - 1)
    }
}

/// The commands in an arena: the strings between zero characters that are not empty.
pub open spec fn arena_texts(data: Seq<u8>, start: int, size: int) -> Option<Seq<Seq<char>>> {
    match text_of(data.subrange(start, start + size)) {
        None => None,
        Some(t) => {
            let parts = split(t, '\0');
            Some(non_empty(parts, parts.len() as int))
        },
    }
}

/// The directories in an arena of `n` entries; an empty one is not known.
pub open spec fn arena_cwds(data: Seq<u8>, start: int, size: int, n: int) -> Option<
    Seq<Option<Seq<char>>>,
> {
    match text_of(data.subrange(start, start + size)) {
        None => None,
        Some(t) => {
            let parts = split(t, '\0');
            if parts.len() == n + 1 && parts[n].len() == 0 {
                Some(
                    Seq::new(
                        n as nat,
                        |i: int|
                            if parts[i].len() > 0 {
                                Some(parts[i])
                            } else {
                                None
                            },
                    ),
                )
            } else {
                None
            }
        },
    }
}

pub open spec fn cached_entries(
    data: Seq<u8>,
    texts: Seq<Seq<char>>,
    f: TimeFormat,
    ts_start: int,
    cwds: Seq<Option<Seq<char>>>,
) -> Seq<CachedView> {
    Seq::new(
        texts.len(),
        |i: int|
            CachedView {
                text: texts[i],
                timestamp: time_at(data, f, ts_start, i),
                cwd: cwds[i],
            },
    )
}

pub open spec fn no_cwds(n: int) -> Seq<Option<Seq<char>>> {
    Seq::new(n as nat, |i: int| None)
}

/// The entries of a cache with delimited commands: the times start at `ts_start`, the
/// commands follow them.
pub open spec fn delimited(
    data: Seq<u8>,
    f: TimeFormat,
    ts_start: int,
    n: int,
    size: int,
    cwds: Option<Seq<Option<Seq<char>>>>,
) -> Option<Seq<CachedView>> {
    let texts = arena_texts(data, ts_start + n * time_size(f), size);
    if texts is Some && cwds is Some && texts->0.len() == n {
        Some(cached_entries(data, texts->0, f, ts_start, cwds->0))
    } else {
        None
    }
}

pub open spec fn parsed_v5(data: Seq<u8>) -> Option<Seq<CachedView>> {
    let n = number_at(data, 4, 4) as int;
    let size = number_at(data, 8, 4) as int;
    let cwd_size = number_at(data, 12, 4) as int;
    if data.len() < 16 || data.len() != 16 + n * 8 + size + cwd_size {
        None
    } else {
        delimited(
            data,
            TimeFormat::Millis,
            16,
            n,
            size,
            arena_cwds(data, 16 + n * 8 + size, cwd_size, n),
        )
    }
}

pub open spec fn parsed_v4(data: Seq<u8>) -> Option<Seq<CachedView>> {
    let n = number_at(data, 4, 4) as int;
    let size = number_at(data, 8, 4) as int;
    if data.len() < 12 || data.len() != 12 + n * 8 + size {
        None
    } else {
        delimited(data, TimeFormat::Millis, 12, n, size, Some(no_cwds(n)))
    }
}

pub open spec fn parsed_v3(data: Seq<u8>) -> Option<Seq<CachedView>> {
    let n = number_at(data, 4, 4) as int;
    let size = number_at(data, 8, 4) as int;
    if data.len() < 12 || data.len() != 12 + n * 4 + size {
        None
    } else {
        delimited(data, TimeFormat::Seconds, 12, n, size, Some(no_cwds(n)))
    }
}

/// Command of the `i`-th entry of an older cache, whose offsets start at `offsets` and whose
/// commands start at `arena`.
pub open spec fn offset_text(data: Seq<u8>, offsets: int, arena: int, size: int, i: int) -> Option<
    Seq<char>,
> {
    let start = number_at(data, offsets + i * 6, 4) as int;
    let len = number_at(data, offsets + i * 6 + 4, 2) as int;
    if start + len > size {
        None
    } else {
        text_of(data.subrange(arena + start, arena + start + len))
    }
}

/// Every entry of an older cache has a command.
pub open spec fn all_readable(data: Seq<u8>, offsets: int, arena: int, size: int, n: int) -> bool {
    forall|i: int|
        0 <= i < n ==> (#[trigger] offset_text(data, offsets, arena, size, i)) is Some
}

/// The older formats: magic (4), unused (8), number of entries (4), bytes of the commands
/// (4), hashes (8 each), times, offsets (4) and lengths (2), commands.
pub open spec fn parsed_v1v2(data: Seq<u8>, version: int) -> Option<Seq<CachedView>> {
    let f = if version >= 2 {
        TimeFormat::UnixSeconds
    } else {
        TimeFormat::Absent
    };
    let n = number_at(data, 12, 4) as int;
    let size = number_at(data, 16, 4) as int;
    let ts_start = 20 + n * 8;
    let offsets = ts_start + n * time_size(f);
    let arena = offsets + n * 6;
    if data.len() < 20 || data.len() != arena + size || text_of(data.subrange(arena, arena + size))
        is None || !all_readable(data, offsets, arena, size, n) {
        None
    } else {
        Some(
            cached_entries(
                data,
                Seq::new(n as nat, |i: int| offset_text(data, offsets, arena, size, i)->0),
                f,
                ts_start,
                no_cwds(n),
            ),
        )
    }
}

/// The first four bytes of a cache of the given version.
pub open spec fn magic(version: int) -> Seq<u8> {
    seq![73u8, 83u8, 72u8, version as u8]
}

/// The entries of a cache, unless it is corrupt.
pub open spec fn parsed_cache(data: Seq<u8>) -> Option<Seq<CachedView>> {
    if data.len() < 4 {
        None
    } else if data.take(4) == magic(5) {
        parsed_v5(data)
    } else if data.take(4) == magic(4) {
        parsed_v4(data)
    } else if data.take(4) == magic(3) {
        parsed_v3(data)
    } else if data.take(4) == magic(2) {
        parsed_v1v2(data, 2)
    } else if data.take(4) == magic(1) {
        parsed_v1v2(data, 1)
    } else {
        None
    }
}

/// The version of a cache whose magic is known.
fn cache_version(data: &Vec<u8>) -> (r: u8)
    requires
        data.len() >= 4,
    ensures
        1 <= r <= 5 ==> data@.take(4) == magic(r as int),
        r == 0 ==> forall|v: int| 1 <= v <= 5 ==> data@.take(4) != magic(v),
        r <= 5,
        forall|v: int| 1 <= v <= 5 && v != r ==> data@.take(4) != magic(v),
{
    let known = data[0] == 73 && data[1] == 83 && data[2] == 72 && data[3] >= 1 && data[3] <= 5;
    proof {
        let t = data@.take(4);
        assert forall|v: int| 1 <= v <= 5 && (!known || v != data@[3]) implies t != magic(v) by {
            if t == magic(v) {
                assert(t[0] == 73 && t[1] == 83 && t[2] == 72 && t[3] == v as u8);
            }
        }
        if known {
            assert(t =~= magic(data@[3] as int));
        }
    }
    if known {
        data[3]
    } else {
        0
    }
}

spec fn opt_cached(r: Option<Vec<CachedEntry>>) -> Option<Seq<CachedView>> {
    match r {
        Some(v) => Some(cached_views(v@)),
        None => None,
    }
}

fn split_texts(text: &str) -> (r: Vec<String>)
    ensures
        strs(r@) == non_empty(split(text@, '\0'), split(text@, '\0').len() as int),
{
    let v = chars_of(text);
    let parts = split_on(&v, '\0');
    let ghost pv = strs(parts@);
    let mut out: Vec<String> = Vec::new();
    let mut i: usize = 0;
    assert(strs(out@) =~= non_empty(pv, 0));
    while i < parts.len()
        invariant
            i <= parts.len(),
            pv == strs(parts@),
            strs(out@) == non_empty(pv, i as int),
        decreases parts.len() - i,
    {
        assert(pv[i as int] == parts@[i as int]@);
        if !parts[i].as_str().is_empty() {
            let ghost had = strs(out@);
            out.push(parts[i].clone());
            assert(strs(out@) =~= had.push(pv[i as int]));
        }
        i += 1;
    }
    out
}

spec fn cwd_views(v: Seq<Option<String>>) -> Seq<Option<Seq<char>>> {
    Seq::new(v.len(), |i: int| opt_view(v[i]))
}

fn split_cwds(text: &str, n: usize) -> (r: Option<Vec<Option<String>>>)
    ensures
        ({
            let parts = split(text@, '\0');
            if parts.len() == n + 1 && parts[n as int].len() == 0 {
                &&& r matches Some(v)
                &&& cwd_views(v@) == Seq::new(
                    n as nat,
                    |i: int|
                        if parts[i].len() > 0 {
                            Some(parts[i])
                        } else {
                            None
                        },
                )
            } else {
                r is None
            }
        }),
{
    let v = chars_of(text);
    let parts = split_on(&v, '\0');
    let ghost pv = strs(parts@);
    if parts.len() == 0 || parts.len() - 1 != n {
        return None;
    }
    assert(pv[n as int] == parts@[n as int]@);
    if !parts[n].as_str().is_empty() {
        return None;
    }
    let mut out: Vec<Option<String>> = Vec::new();
    let mut i: usize = 0;
    while i < n
        invariant
            i <= n,
            parts.len() == n + 1,
            pv == strs(parts@),
            out.len() == i,
            forall|k: int|
                0 <= k < i ==> opt_view(#[trigger] out@[k]) == (if pv[k].len() > 0 {
                    Some(pv[k])
                } else {
                    None
                }),
        decreases n - i,
    {
        assert(pv[i as int] == parts@[i as int]@);
        if parts[i].as_str().is_empty() {
            out.push(None);
        } else {
            out.push(Some(parts[i].clone()));
        }
        i += 1;
    }
    assert(cwd_views(out@) =~= Seq::new(
        n as nat,
        |i: int|
            if pv[i].len() > 0 {
                Some(pv[i])
            } else {
                None
            },
    ));
    Some(out)
}

fn absent_cwds(n: usize) -> (r: Vec<Option<String>>)
    ensures
        cwd_views(r@) == no_cwds(n as int),
{
    let mut out: Vec<Option<String>> = Vec::new();
    let mut i: usize = 0;
    while i < n
        invariant
            i <= n,
            out.len() == i,
            forall|k: int| 0 <= k < i ==> (#[trigger] out@[k]) is None,
        decreases n - i,
    {
        out.push(None);
        i += 1;
    }
    assert(cwd_views(out@) =~= no_cwds(n as int));
    out
}

fn clone_opt(s: &Option<String>) -> (r: Option<String>)
    ensures
        opt_view(r) == opt_view(*s),
{
    match s {
        Some(t) => Some(t.clone()),
        None => None,
    }
}

/// Puts commands, times and directories together.
fn zip_entries(texts: &Vec<String>, times: &Vec<u64>, cwds: &Vec<Option<String>>) -> (r: Vec<
    CachedEntry,
>)
    requires
        times.len() == texts.len(),
        cwds.len() == texts.len(),
    ensures
        r.len() == texts.len(),
        forall|i: int|
            0 <= i < texts.len() ==> (#[trigger] r@[i])@ == (CachedView {
                text: texts@[i]@,
                timestamp: times@[i],
                cwd: opt_view(cwds@[i]),
            }),
{
    let mut out: Vec<CachedEntry> = Vec::new();
    let mut i: usize = 0;
    while i < texts.len()
        invariant
            i <= texts.len(),
            times.len() == texts.len(),
            cwds.len() == texts.len(),
            out.len() == i,
            forall|k: int|
                0 <= k < i ==> (#[trigger] out@[k])@ == (CachedView {
                    text: texts@[k]@,
                    timestamp: times@[k],
                    cwd: opt_view(cwds@[k]),
                }),
        decreases texts.len() - i,
    {
        let cwd = clone_opt(&cwds[i]);
        out.push(CachedEntry { text: texts[i].clone(), timestamp: times[i], cwd });
        i += 1;
    }
    out
}

fn parse_delimited(
    data: &Vec<u8>,
    f: TimeFormat,
    ts_start: usize,
    n: usize,
    size: usize,
    cwds: &Vec<Option<String>>,
) -> (r: Option<Vec<CachedEntry>>)
    requires
        ts_start + n * time_size(f) + size <= data.len(),
        cwds.len() == n,
    ensures
        opt_cached(r) == delimited(
            data@,
            f,
            ts_start as int,
            n as int,
            size as int,
            Some(cwd_views(cwds@)),
        ),
{
    let width: usize = match f {
        TimeFormat::Absent => 0,
        TimeFormat::UnixSeconds => 4,
        TimeFormat::Seconds => 4,
        TimeFormat::Millis => 8,
    };
    assert(0 <= n * width) by (nonlinear_arith);
    let start = ts_start + n * width;
    let text = match text_at(data, start, start + size) {
        Some(t) => t,
        None => {
            return None;
        },
    };
    let texts = split_texts(text.as_str());
    if texts.len() != n {
        return None;
    }
    let times = read_times(data, f, ts_start, n);
    let r = zip_entries(&texts, &times, cwds);
    proof {
        let tv = strs(texts@);
        let goal = cached_entries(data@, tv, f, ts_start as int, cwd_views(cwds@));
        assert forall|i: int| 0 <= i < n implies cached_views(r@)[i] == goal[i] by {
            assert(r@[i]@.text == tv[i]);
            assert(times@[i] == time_at(data@, f, ts_start as int, i));
        }
        assert(cached_views(r@) =~= goal);
    }
    Some(r)
}

fn parse_v5(data: &Vec<u8>) -> (r: Option<Vec<CachedEntry>>)
    ensures
        opt_cached(r) == parsed_v5(data@),
{
    if data.len() < 16 {
        return None;
    }
    proof {
        lemma_limits();
    }
    let n64 = read_le(data, 4, 4);
    let size64 = read_le(data, 8, 4);
    let cwd64 = read_le(data, 12, 4);
    if data.len() as u64 != 16 + n64 * 8 + size64 + cwd64 {
        return None;
    }
    let n = n64 as usize;
    let size = size64 as usize;
    let cwd_size = cwd64 as usize;
    let cwd_start = 16 + n * 8 + size;
    let cwd_text = match text_at(data, cwd_start, cwd_start + cwd_size) {
        Some(t) => t,
        None => {
            return None;
        },
    };
    let cwds = match split_cwds(cwd_text.as_str(), n) {
        Some(c) => c,
        None => {
            return None;
        },
    };
    proof {
        assert(cwd_views(cwds@).len() == n);
    }
    parse_delimited(data, TimeFormat::Millis, 16, n, size, &cwds)
}

pub fn parse_v4(data: &Vec<u8>) -> (r: Option<Vec<CachedEntry>>)
    ensures
        match parsed_v4(data@) {
            Some(v) => r matches Some(x) && cached_views(x@) == v,
            None => r is None,
        },
{
    if data.len() < 12 {
        return None;
    }
    proof {
        lemma_limits();
    }
    let n64 = read_le(data, 4, 4);
    let size64 = read_le(data, 8, 4);
    if data.len() as u64 != 12 + n64 * 8 + size64 {
        return None;
    }
    let n = n64 as usize;
    let cwds = absent_cwds(n);
    assert(cwd_views(cwds@).len() == n);
    parse_delimited(data, TimeFormat::Millis, 12, n, size64 as usize, &cwds)
}

fn parse_v3(data: &Vec<u8>) -> (r: Option<Vec<CachedEntry>>)
    ensures
        opt_cached(r) == parsed_v3(data@),
{
    if data.len() < 12 {
        return None;
    }
    proof {
        lemma_limits();
    }
    let n64 = read_le(data, 4, 4);
    let size64 = read_le(data, 8, 4);
    if data.len() as u64 != 12 + n64 * 4 + size64 {
        return None;
    }
    let n = n64 as usize;
    let cwds = absent_cwds(n);
    assert(cwd_views(cwds@).len() == n);
    parse_delimited(data, TimeFormat::Seconds, 12, n, size64 as usize, &cwds)
}

fn parse_v1v2(data: &Vec<u8>, version: u8) -> (r: Option<Vec<CachedEntry>>)
    requires
        1 <= version <= 2,
    ensures
        opt_cached(r) == parsed_v1v2(data@, version as int),
{
    if data.len() < 20 {
        return None;
    }
    proof {
        lemma_limits();
    }
    let f = if version >= 2 {
        TimeFormat::UnixSeconds
    } else {
        TimeFormat::Absent
    };
    let width: u64 = if version >= 2 {
        4
    } else {
        0
    };
    let n64 = read_le(data, 12, 4);
    let size64 = read_le(data, 16, 4);
    assert(n64 * width <= n64 * 4) by (nonlinear_arith)
        requires
            width <= 4,
    ;
    assert(n64 * width == n64 * time_size(f));
    if data.len() as u64 != 20 + n64 * 8 + n64 * width + n64 * 6 + size64 {
        return None;
    }
    let n = n64 as usize;
    let size = size64 as usize;
    let ts_start = 20 + n * 8;
    let offsets = ts_start + n * (width as usize);
    let arena = offsets + n * 6;
    if text_at(data, arena, arena + size).is_none() {
        return None;
    }
    let mut texts: Vec<String> = Vec::new();
    let mut i: usize = 0;
    proof {
        let f2 = if version as int >= 2 {
            TimeFormat::UnixSeconds
        } else {
            TimeFormat::Absent
        };
        assert(f == f2);
        assert(width == time_size(f));
        assert(n * (width as usize) == n * time_size(f));
        assert(n as int == number_at(data@, 12, 4) as int);
        assert(offsets as int == 20 + n * 8 + n * time_size(f2));
    }
    while i < n
        invariant
            i <= n,
            arena == offsets + n * 6,
            arena + size == data.len(),
            texts.len() == i,
            forall|k: int|
                0 <= k < i ==> offset_text(
                    data@,
                    offsets as int,
                    arena as int,
                    size as int,
                    k,
                ) == Some((#[trigger] texts@[k])@),
            parsed_v1v2(data@, version as int) is Some ==> all_readable(
                data@,
                offsets as int,
                arena as int,
                size as int,
                n as int,
            ),
        decreases n - i,
    {
        proof {
            lemma_limits();
            reveal_with_fuel(byte_limit, 3);
        }
        let start = read_le(data, offsets + i * 6, 4) as usize;
        let len = read_le(data, offsets + i * 6 + 4, 2) as usize;
        if start > size || len > size - start {
            assert(offset_text(data@, offsets as int, arena as int, size as int, i as int)
                is None);
            return None;
        }
        match text_at(data, arena + start, arena + start + len) {
            Some(t) => {
                texts.push(t);
            },
            None => {
                assert(offset_text(data@, offsets as int, arena as int, size as int, i as int)
                    is None);
                return None;
            },
        }
        i += 1;
    }
    let times = read_times(data, f, ts_start, n);
    let cwds = absent_cwds(n);
    assert(cwd_views(cwds@).len() == n);
    let r = zip_entries(&texts, &times, &cwds);
    proof {
        assert(all_readable(data@, offsets as int, arena as int, size as int, n as int)) by {
            assert forall|k: int| 0 <= k < n implies (#[trigger] offset_text(
                data@,
                offsets as int,
                arena as int,
                size as int,
                k,
            )) is Some by {
                assert(texts@[k]@ == texts@[k]@);
            }
        }
        let tv = Seq::new(
            n as nat,
            |k: int|
                offset_text(data@, offsets as int, arena as int, size as int, k)->0,
        );
        let goal = cached_entries(data@, tv, f, ts_start as int, no_cwds(n as int));
        assert forall|k: int| 0 <= k < n implies cached_views(r@)[k] == goal[k] by {
            assert(r@[k]@.text == texts@[k]@);
            assert(times@[k] == time_at(data@, f, ts_start as int, k));
            assert(cwd_views(cwds@)[k] == opt_view(cwds@[k]));
        }
        assert(cached_views(r@) =~= goal);
    }
    Some(r)
}

/// The entries of a cache, unless it is corrupt.
pub fn parse_cache(data: &Vec<u8>) -> (r: Option<Vec<CachedEntry>>)
    ensures
        match parsed_cache(data@) {
            Some(v) => r matches Some(x) && cached_views(x@) == v,
            None => r is None,
        },
{
    if data.len() < 4 {
        return None;
    }
    let version = cache_version(data);
    if version == 5 {
        parse_v5(data)
    } else if version == 4 {
        parse_v4(data)
    } else if version == 3 {
        parse_v3(data)
    } else if version == 2 {
        parse_v1v2(data, 2)
    } else if version == 1 {
        parse_v1v2(data, 1)
    } else {
        None
    }
}

// -- Writing --

/// The commands from `i` on, each followed by a zero character.
pub open spec fn texts_joined(v: Seq<CachedView>, i: int) -> Seq<char>
    decreases v.len() - i,
{
    if i < 0 || i >= v.len() {
        Seq::empty()
    } else {
        v[i].text + (seq!['\0'] + texts_joined(v, i + 1))
    }
}

pub open spec fn cwd_text(c: Option<Seq<char>>) -> Seq<char> {
    match c {
        Some(d) => d,
        None => Seq::empty(),
    }
}

/// The directories from `i` on, each followed by a zero character.
pub open spec fn cwds_joined(v: Seq<CachedView>, i: int) -> Seq<char>
    decreases v.len() - i,
{
    if i < 0 || i >= v.len() {
        Seq::empty()
    } else {
        cwd_text(v[i].cwd) + (seq!['\0'] + cwds_joined(v, i + 1))
    }
}

/// The times from `i` on.
pub open spec fn times_bytes(v: Seq<CachedView>, i: int) -> Seq<u8>
    decreases v.len() - i,
{
    if i < 0 || i >= v.len() {
        Seq::empty()
    } else {
        le_bytes(time_to_stored(v[i].timestamp) as nat, 8) + times_bytes(v, i + 1)
    }
}

/// The cache of the given entries.
pub open spec fn encoded(v: Seq<CachedView>) -> Seq<u8> {
    let arena = encode_utf8(texts_joined(v, 0));
    let cwds = encode_utf8(cwds_joined(v, 0));
    magic(5) + le_bytes(v.len() as u32 as nat, 4) + le_bytes(arena.len() as u32 as nat, 4)
        + le_bytes(cwds.len() as u32 as nat, 4) + times_bytes(v, 0) + arena + cwds
}

fn push_bytes(out: &mut Vec<u8>, more: &[u8])
    ensures
        final(out)@ == old(out)@ + more@,
{
    let mut i: usize = 0;
    assert(more@.take(0) =~= Seq::<u8>::empty());
    while i < more.len()
        invariant
            i <= more.len(),
            out@ == old(out)@ + more@.take(i as int),
        decreases more.len() - i,
    {
        out.push(more[i]);
        i += 1;
        assert(more@.take(i as int) =~= more@.take(i - 1).push(more@[i - 1]));
    }
    assert(more@.take(i as int) =~= more@);
}

proof fn lemma_encode_zero()
    ensures
        encode_utf8(seq!['\0']) == seq![0u8],
{
    is_ascii_chars_encode_utf8(seq!['\0']);
    assert(encode_utf8(seq!['\0']) =~= seq![0u8]);
}

/// Writes the cache of the given entries.
pub fn encode_cache(entries: &Vec<CachedEntry>) -> (r: Vec<u8>)
    ensures
        r@ == encoded(cached_views(entries@)),
{
    let ghost v = cached_views(entries@);
    let mut arena: Vec<u8> = Vec::new();
    let mut cwds: Vec<u8> = Vec::new();
    let mut times: Vec<u8> = Vec::new();
    let mut i: usize = 0;
    proof {
        lemma_encode_zero();
        assert(arena@ + encode_utf8(texts_joined(v, 0)) =~= encode_utf8(texts_joined(v, 0)));
        assert(cwds@ + encode_utf8(cwds_joined(v, 0)) =~= encode_utf8(cwds_joined(v, 0)));
        assert(times@ + times_bytes(v, 0) =~= times_bytes(v, 0));
    }
    while i < entries.len()
        invariant
            i <= entries.len(),
            v == cached_views(entries@),
            encode_utf8(seq!['\0']) == seq![0u8],
            encode_utf8(texts_joined(v, 0)) == arena@ + encode_utf8(texts_joined(v, i as int)),
            encode_utf8(cwds_joined(v, 0)) == cwds@ + encode_utf8(cwds_joined(v, i as int)),
            times_bytes(v, 0) == times@ + times_bytes(v, i as int),
        decreases entries.len() - i,
    {
        let e = &entries[i];
        assert(v[i as int] == e@);
        let ghost a0 = arena@;
        let ghost c0 = cwds@;
        let ghost t0 = times@;
        push_bytes(&mut arena, e.text.as_str().as_bytes());
        arena.push(0);
        match &e.cwd {
            Some(d) => {
                push_bytes(&mut cwds, d.as_str().as_bytes());
            },
            None => {},
        }
        cwds.push(0);
        push_le(&mut times, to_stored(e.timestamp), 8);
        proof {
            let rest = texts_joined(v, i + 1);
            lemma_encode_concat(e@.text, seq!['\0'] + rest);
            lemma_encode_concat(seq!['\0'], rest);
            assert(a0 + (encode_utf8(e@.text) + (seq![0u8] + encode_utf8(rest))) =~= arena@
                + encode_utf8(rest));
            let crest = cwds_joined(v, i + 1);
            let ct = cwd_text(e@.cwd);
            lemma_encode_concat(ct, seq!['\0'] + crest);
            lemma_encode_concat(seq!['\0'], crest);
            if e@.cwd is None {
                assert(encode_utf8(ct) =~= Seq::<u8>::empty());
            }
            assert(c0 + (encode_utf8(ct) + (seq![0u8] + encode_utf8(crest))) =~= cwds@
                + encode_utf8(crest));
            let b = le_bytes(time_to_stored(e@.timestamp) as nat, 8);
            assert(t0 + (b + times_bytes(v, i + 1)) =~= times@ + times_bytes(v, i + 1));
        }
        i += 1;
    }
    proof {
        assert(encode_utf8(texts_joined(v, i as int)) =~= Seq::<u8>::empty());
        assert(encode_utf8(cwds_joined(v, i as int)) =~= Seq::<u8>::empty());
        assert(arena@ + Seq::<u8>::empty() =~= arena@);
        assert(cwds@ + Seq::<u8>::empty() =~= cwds@);
        assert(times@ + Seq::<u8>::empty() =~= times@);
    }
    let mut out: Vec<u8> = Vec::new();
    out.push(73);
    out.push(83);
    out.push(72);
    out.push(5);
    assert(out@ =~= magic(5));
    push_le(&mut out, entries.len() as u32 as u64, 4);
    push_le(&mut out, arena.len() as u32 as u64, 4);
    push_le(&mut out, cwds.len() as u32 as u64, 4);
    push_bytes(&mut out, times.as_slice());
    push_bytes(&mut out, arena.as_slice());
    push_bytes(&mut out, cwds.as_slice());
    out
}

/// How many entries an existing cache says it has.
pub open spec fn stated_count(existing: Seq<u8>) -> int {
    if existing.len() < 4 {
        0
    } else if existing.take(4) == magic(5) && existing.len() >= 16 || (existing.take(4) == magic(4)
        || existing.take(4) == magic(3)) && existing.len() >= 12 {
        number_at(existing, 4, 4) as int
    } else if existing.len() >= 20 {
        number_at(existing, 12, 4) as int
    } else {
        0
    }
}

/// Refuse to overwrite a larger cache with a much smaller one: the count of the existing
/// cache, where it has more than a hundred entries and more than twice as many.
pub fn shrink_refused(existing: &Vec<u8>, entry_count: usize) -> (r: Option<usize>)
    ensures
        match r {
            Some(old) => old == stated_count(existing@) && entry_count < old / 2 && old > 100,
            None => !(entry_count < stated_count(existing@) / 2 && stated_count(existing@) > 100),
        },
{
    proof {
        lemma_limits();
    }
    let old: usize = if existing.len() < 4 {
        0
    } else {
        let version = cache_version(existing);
        if (version == 5 && existing.len() >= 16) || ((version == 4 || version == 3)
            && existing.len() >= 12) {
            read_le(existing, 4, 4) as usize
        } else if existing.len() >= 20 {
            read_le(existing, 12, 4) as usize
        } else {
            0
        }
    };
    if entry_count < old / 2 && old > 100 {
        Some(old)
    } else {
        None
    }
}

// -- Laws --

/// An entry that the cache keeps: its command is not empty, and neither it nor its directory
/// holds a zero character.
pub open spec fn storable(e: CachedView) -> bool {
    &&& e.text.len() > 0
    &&& !e.text.contains('\0')
    &&& e.cwd matches Some(d) ==> d.len() > 0 && !d.contains('\0')
}

proof fn lemma_split_step(head: Seq<char>, tail: Seq<char>)
    requires
        !head.contains('\0'),
    ensures
        split(head + (seq!['\0'] + tail), '\0') == seq![head] + split(tail, '\0'),
{
    let all = head + (seq!['\0'] + tail);
    lemma_index_zero(head, tail, 0);
    let k = head.len() as int;
    assert(all.subrange(0, k) =~= head);
    let pre = head + seq!['\0'];
    assert(all =~= pre + tail);
    lemma_split_shift(pre, tail, 0);
}

proof fn lemma_index_zero(head: Seq<char>, tail: Seq<char>, from: int)
    requires
        0 <= from <= head.len(),
        !head.contains('\0'),
    ensures
        index_from(head + (seq!['\0'] + tail), '\0', from) == head.len(),
    decreases head.len() - from,
{
    let all = head + (seq!['\0'] + tail);
    if from < head.len() {
        assert(all[from] == head[from]);
        assert(head.contains(head[from]));
        lemma_index_zero(head, tail, from + 1);
    } else {
        assert(all[from] == '\0');
    }
}

proof fn lemma_index_shift(pre: Seq<char>, tail: Seq<char>, i: int)
    requires
        0 <= i <= tail.len(),
    ensures
        index_from(pre + tail, '\0', pre.len() + i) == pre.len() + index_from(tail, '\0', i),
    decreases tail.len() - i,
{
    let all = pre + tail;
    if i < tail.len() {
        assert(all[pre.len() + i] == tail[i]);
        if tail[i] != '\0' {
            lemma_index_shift(pre, tail, i + 1);
        }
    }
}

proof fn lemma_split_shift(pre: Seq<char>, tail: Seq<char>, i: int)
    requires
        0 <= i <= tail.len(),
    ensures
        split_from(pre + tail, '\0', pre.len() + i) == split_from(tail, '\0', i),
    decreases tail.len() - i,
{
    let all = pre + tail;
    lemma_index_shift(pre, tail, i);
    lemma_index_from(tail, '\0', i);
    let k = index_from(tail, '\0', i);
    if k >= tail.len() {
        assert(all.skip(pre.len() + i) =~= tail.skip(i));
    } else {
        assert(all.subrange(pre.len() + i, pre.len() + k) =~= tail.subrange(i, k));
        lemma_split_shift(pre, tail, k + 1);
    }
}

proof fn lemma_split_texts(v: Seq<CachedView>, i: int)
    requires
        0 <= i <= v.len(),
        forall|k: int| 0 <= k < v.len() ==> storable(#[trigger] v[k]),
    ensures
        ({
            let parts = split(texts_joined(v, i), '\0');
            &&& parts.len() == v.len() - i + 1
            &&& forall|k: int| 0 <= k < v.len() - i ==> #[trigger] parts[k] == v[i + k].text
            &&& parts[v.len() - i].len() == 0
        }),
    decreases v.len() - i,
{
    let parts = split(texts_joined(v, i), '\0');
    if i == v.len() {
        let e = Seq::<char>::empty();
        assert(e.skip(0) =~= e);
    } else {
        lemma_split_texts(v, i + 1);
        assert(storable(v[i]));
        lemma_split_step(v[i].text, texts_joined(v, i + 1));
        let rest = split(texts_joined(v, i + 1), '\0');
        assert forall|k: int| 0 <= k < v.len() - i implies #[trigger] parts[k] == v[i + k].text by {
            if k > 0 {
                assert(parts[k] == rest[k - 1]);
            }
        }
        assert(parts[v.len() - i] == rest[v.len() - i - 1]);
    }
}

proof fn lemma_split_cwds(v: Seq<CachedView>, i: int)
    requires
        0 <= i <= v.len(),
        forall|k: int| 0 <= k < v.len() ==> storable(#[trigger] v[k]),
    ensures
        ({
            let parts = split(cwds_joined(v, i), '\0');
            &&& parts.len() == v.len() - i + 1
            &&& forall|k: int|
                0 <= k < v.len() - i ==> #[trigger] parts[k] == cwd_text(v[i + k].cwd)
            &&& parts[v.len() - i].len() == 0
        }),
    decreases v.len() - i,
{
    let parts = split(cwds_joined(v, i), '\0');
    if i == v.len() {
        let e = Seq::<char>::empty();
        assert(e.skip(0) =~= e);
    } else {
        lemma_split_cwds(v, i + 1);
        assert(storable(v[i]));
        lemma_split_step(cwd_text(v[i].cwd), cwds_joined(v, i + 1));
        let rest = split(cwds_joined(v, i + 1), '\0');
        assert forall|k: int| 0 <= k < v.len() - i implies #[trigger] parts[k] == cwd_text(
            v[i + k].cwd,
        ) by {
            if k > 0 {
                assert(parts[k] == rest[k - 1]);
            }
        }
        assert(parts[v.len() - i] == rest[v.len() - i - 1]);
    }
}

proof fn lemma_non_empty(parts: Seq<Seq<char>>, n: int)
    requires
        0 <= n < parts.len(),
        forall|k: int| 0 <= k < n ==> (#[trigger] parts[k]).len() > 0,
    ensures
        non_empty(parts, n) == parts.take(n),
    decreases n,
{
    if n > 0 {
        lemma_non_empty(parts, n - 1);
        assert(parts.take(n) =~= parts.take(n - 1).push(parts[n - 1]));
    } else {
        assert(parts.take(n) =~= Seq::empty());
    }
}

proof fn lemma_times(v: Seq<CachedView>, i: int)
    requires
        0 <= i <= v.len(),
    ensures
        times_bytes(v, i).len() == 8 * (v.len() - i),
        forall|k: int|
            0 <= k < v.len() - i ==> #[trigger] number_at(times_bytes(v, i), k * 8, 8)
                == time_to_stored(v[i + k].timestamp),
    decreases v.len() - i,
{
    lemma_limits();
    if i < v.len() {
        lemma_times(v, i + 1);
        let b = le_bytes(time_to_stored(v[i].timestamp) as nat, 8);
        law_le_round_trip(time_to_stored(v[i].timestamp) as nat, 8);
        let rest = times_bytes(v, i + 1);
        let all = times_bytes(v, i);
        assert forall|k: int| 0 <= k < v.len() - i implies #[trigger] number_at(all, k * 8, 8)
            == time_to_stored(v[i + k].timestamp) by {
            if k == 0 {
                assert(all.subrange(0, 8) =~= b);
            } else {
                assert(number_at(rest, (k - 1) * 8, 8) == time_to_stored(v[i + k].timestamp));
                assert(all.subrange(k * 8, k * 8 + 8) =~= rest.subrange(
                    (k - 1) * 8,
                    (k - 1) * 8 + 8,
                ));
            }
        }
    }
}

proof fn lemma_time_round_trip(ts: u64)
    ensures
        time_from_stored(time_to_stored(ts)) == ts,
{
}

/// Reading a cache gives back the entries that were written.
pub proof fn law_cache_round_trip(v: Seq<CachedView>)
    requires
        forall|k: int| 0 <= k < v.len() ==> storable(#[trigger] v[k]),
        v.len() <= u32::MAX,
        encode_utf8(texts_joined(v, 0)).len() <= u32::MAX,
        encode_utf8(cwds_joined(v, 0)).len() <= u32::MAX,
    ensures
        parsed_cache(encoded(v)) == Some(v),
{
    let arena = encode_utf8(texts_joined(v, 0));
    let cwds = encode_utf8(cwds_joined(v, 0));
    let times = times_bytes(v, 0);
    let n = v.len() as int;
    let data = encoded(v);
    lemma_limits();
    law_le_round_trip(v.len(), 4);
    law_le_round_trip(arena.len(), 4);
    law_le_round_trip(cwds.len(), 4);
    lemma_times(v, 0);
    assert(data.take(4) =~= magic(5));
    assert(data.subrange(4, 8) =~= le_bytes(v.len(), 4));
    assert(data.subrange(8, 12) =~= le_bytes(arena.len(), 4));
    assert(data.subrange(12, 16) =~= le_bytes(cwds.len(), 4));
    let a = 16 + n * 8;
    let c = a + arena.len() as int;
    assert(data.len() == c + cwds.len());
    assert(data.subrange(a, c) =~= arena);
    assert(data.subrange(c, c + cwds.len() as int) =~= cwds);
    law_text_round_trip(texts_joined(v, 0));
    law_text_round_trip(cwds_joined(v, 0));
    lemma_split_texts(v, 0);
    lemma_split_cwds(v, 0);
    let parts = split(texts_joined(v, 0), '\0');
    assert forall|k: int| 0 <= k < n implies (#[trigger] parts[k]).len() > 0 by {
        assert(storable(v[k]));
    }
    lemma_non_empty(parts, n);
    assert(non_empty(parts, n + 1) == parts.take(n));
    let texts = parts.take(n);
    let cparts = split(cwds_joined(v, 0), '\0');
    let got = arena_cwds(data, c, cwds.len() as int, n)->0;
    let goal = cached_entries(data, texts, TimeFormat::Millis, 16, got);
    assert forall|i: int| 0 <= i < n implies goal[i] == v[i] by {
        assert(storable(v[i]));
        assert(parts[i] == v[i].text);
        assert(cparts[i] == cwd_text(v[i].cwd));
        assert(number_at(times, i * 8, 8) == time_to_stored(v[i].timestamp));
        assert(data.subrange(16 + i * 8, 16 + i * 8 + 8) =~= times.subrange(i * 8, i * 8 + 8));
        lemma_time_round_trip(v[i].timestamp);
        assert(goal[i] =~= v[i]);
    }
    assert(goal =~= v);
}

} // verus!
