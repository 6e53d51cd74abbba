//! Directory listings, in the manner of `ls -plAhG`.
//!
//! The caller reads directories and what is known of their entries.
use vstd::prelude::*;

use crate::sort::{
    arranged, lemma_members, lemma_sorted_by_keys, order_of, stable_sorted,
};
use crate::text::{
    byte_len, chars_of, decimal, decimal_of, lemma_byte_len_lower, lex_le, push_all, push_str, signed_decimal,
    signed_decimal_of, str_len, string_of,
};

verus! {

// -- Case --

/// The lower case of a text.
pub uninterp spec fn lowercase_text(s: Seq<char>) -> Seq<char>;

/// Calls `str::to_lowercase`: the result is the lower case of the text and depends on the text
/// alone.
#[verifier::external_body]
fn lowercase(s: &str) -> (r: String)
    ensures
        r@ == lowercase_text(s@),
{
    s.to_lowercase()
}

// -- Names --

/// The control characters.
pub open spec fn spec_is_control(c: char) -> bool {
    (c as u32) < 0x20 || (0x7f <= c as u32 && c as u32 <= 0x9f)
}

/// A name with a replacement character for each control character.
pub open spec fn sanitized(s: Seq<char>) -> Seq<char> {
    Seq::new(
        s.len(),
        |i: int|
            if spec_is_control(s[i]) {
                '\u{FFFD}'
            } else {
                s[i]
            },
    )
}

fn sanitize(v: &Vec<char>) -> (out: Vec<char>)
    ensures
        out@ == sanitized(v@),
{
    let mut out: Vec<char> = Vec::new();
    let mut i: usize = 0;
    while i < v.len()
        invariant
            i <= v.len(),
            out@ == sanitized(v@).take(i as int),
        decreases v.len() - i,
    {
        let ghost had = out@;
        let c = v[i];
        let u = c as u32;
        if u < 0x20 || (0x7f <= u && u <= 0x9f) {
            out.push('\u{FFFD}');
        } else {
            out.push(c);
        }
        assert(sanitized(v@).take(i + 1) =~= had.push(sanitized(v@)[i as int]));
        i += 1;
    }
    assert(sanitized(v@).take(i as int) =~= sanitized(v@));
    out
}

/// Puts a replacement character in place of each control character of a name, so that a name
/// cannot act on the terminal.
pub fn sanitize_name(name: &str) -> (r: String)
    ensures
        r@ == sanitized(name@),
{
    let v = chars_of(name);
    string_of(sanitize(&v).as_slice())
}

/// A sanitized name holds no control character, and is not changed by being sanitized again.
pub proof fn law_sanitized_is_clean(s: Seq<char>)
    ensures
        forall|i: int| 0 <= i < sanitized(s).len() ==> !spec_is_control(#[trigger] sanitized(s)[i]),
        sanitized(sanitized(s)) == sanitized(s),
{
    assert(sanitized(sanitized(s)) =~= sanitized(s));
}

// -- Modes --

/// The character of a file's type.
pub open spec fn type_char(mode: u32) -> char {
    let kind = mode & 0o170000;
    if kind == 0o040000 {
        'd'
    } else if kind == 0o120000 {
        'l'
    } else if kind == 0o020000 {
        'c'
    } else if kind == 0o060000 {
        'b'
    } else if kind == 0o010000 {
        'p'
    } else if kind == 0o140000 {
        's'
    } else {
        '-'
    }
}

pub open spec fn flag(mode: u32, bit: u32, c: char) -> char {
    if mode & bit != 0 {
        c
    } else {
        '-'
    }
}

/// The character of an execute permission, which a set bit changes.
pub open spec fn exec_char(mode: u32, x: u32, set: u32, with: char, without: char) -> char {
    if mode & set != 0 {
        if mode & x != 0 {
            with
        } else {
            without
        }
    } else {
        flag(mode, x, 'x')
    }
}

/// The type and permissions of a file, as `ls -l` writes them.
pub open spec fn mode_text(mode: u32) -> Seq<char> {
    seq![
        type_char(mode),
        flag(mode, 0o400, 'r'),
        flag(mode, 0o200, 'w'),
        exec_char(mode, 0o100, 0o4000, 's', 'S'),
        flag(mode, 0o040, 'r'),
        flag(mode, 0o020, 'w'),
        exec_char(mode, 0o010, 0o2000, 's', 'S'),
        flag(mode, 0o004, 'r'),
        flag(mode, 0o002, 'w'),
        exec_char(mode, 0o001, 0o1000, 't', 'T'),
    ]
}

fn flag_char(mode: u32, bit: u32, c: char) -> (r: char)
    ensures
        r == flag(mode, bit, c),
{
    if mode & bit != 0 {
        c
    } else {
        '-'
    }
}

fn execute_char(mode: u32, x: u32, set: u32, with: char, without: char) -> (r: char)
    ensures
        r == exec_char(mode, x, set, with, without),
{
    if mode & set != 0 {
        if mode & x != 0 {
            with
        } else {
            without
        }
    } else {
        flag_char(mode, x, 'x')
    }
}

fn mode_chars(mode: u32) -> (s: Vec<char>)
    ensures
        s@ == mode_text(mode),
{
    let kind = mode & 0o170000;
    let first = if kind == 0o040000 {
        'd'
    } else if kind == 0o120000 {
        'l'
    } else if kind == 0o020000 {
        'c'
    } else if kind == 0o060000 {
        'b'
    } else if kind == 0o010000 {
        'p'
    } else if kind == 0o140000 {
        's'
    } else {
        '-'
    };
    let mut s: Vec<char> = Vec::new();
    s.push(first);
    s.push(flag_char(mode, 0o400, 'r'));
    s.push(flag_char(mode, 0o200, 'w'));
    s.push(execute_char(mode, 0o100, 0o4000, 's', 'S'));
    s.push(flag_char(mode, 0o040, 'r'));
    s.push(flag_char(mode, 0o020, 'w'));
    s.push(execute_char(mode, 0o010, 0o2000, 's', 'S'));
    s.push(flag_char(mode, 0o004, 'r'));
    s.push(flag_char(mode, 0o002, 'w'));
    s.push(execute_char(mode, 0o001, 0o1000, 't', 'T'));
    assert(s@ =~= mode_text(mode));
    s
}

/// The type and permissions of a file, as `ls -l` writes them.
pub fn format_mode(mode: u32) -> (r: String)
    ensures
        r@ == mode_text(mode),
{
    string_of(mode_chars(mode).as_slice())
}

// -- Sizes --

/// Tenths of a unit, rounded to the nearest, halves to the even one.
pub open spec fn tenths(size: int, unit: int) -> int {
    let n = size * 10;
    let rest = n % unit;
    if 2 * rest > unit || (2 * rest == unit && (n / unit) % 2 == 1) {
        n / unit + 1
    } else {
        n / unit
    }
}

pub open spec fn scaled(size: int, unit: int, suffix: char) -> Seq<char> {
    let t = tenths(size, unit);
    decimal((t / 10) as nat) + seq!['.'] + decimal((t % 10) as nat) + seq![suffix]
}

/// A size for people: bytes, or kilo-, mega- or gigabytes with one decimal.
pub open spec fn size_text(size: int) -> Seq<char> {
    if size < 1024 {
        decimal(size as nat) + seq!['B']
    } else if size < 0x100000 {
        scaled(size, 1024, 'K')
    } else if size < 0x40000000 {
        scaled(size, 0x100000, 'M')
    } else {
        scaled(size, 0x40000000, 'G')
    }
}

fn scale(size: u64, unit: u64, suffix: char) -> (out: Vec<char>)
    requires
        unit == 1024 || unit == 0x100000 || unit == 0x40000000,
        size >= unit,
    ensures
        out@ == scaled(size as int, unit as int, suffix),
{
    let whole: u128 = size as u128 * 10;
    let q: u128 = whole / (unit as u128);
    let rest: u128 = whole % (unit as u128);
    let up = 2 * rest > unit as u128 || (2 * rest == unit as u128 && q % 2 == 1);
    let t: u128 = if up {
        q + 1
    } else {
        q
    };
    assert(t == tenths(size as int, unit as int));
    assert(q <= 0xffffffffffffffffu64 * 10 / 1024) by (nonlinear_arith)
        requires
            q == whole / (unit as u128),
            whole <= 0xffffffffffffffffu64 * 10,
            unit >= 1024,
    ;
    let mut out = decimal_of((t / 10) as u64);
    out.push('.');
    let low = decimal_of((t % 10) as u64);
    push_all(&mut out, low.as_slice());
    out.push(suffix);
    assert(out@ =~= scaled(size as int, unit as int, suffix));
    out
}

fn size_chars(size: u64) -> (out: Vec<char>)
    ensures
        out@ == size_text(size as int),
{
    if size < 1024 {
        let mut out = decimal_of(size);
        out.push('B');
        assert(out@ =~= size_text(size as int));
        out
    } else if size < 0x100000 {
        scale(size, 1024, 'K')
    } else if size < 0x40000000 {
        scale(size, 0x100000, 'M')
    } else {
        scale(size, 0x40000000, 'G')
    }
}

/// A size for people.
pub fn human_size(size: u64) -> (r: String)
    ensures
        r@ == size_text(size as int),
{
    string_of(size_chars(size).as_slice())
}

// -- Times --

/// A time in parts: the month and the years since 1900 count from zero.
#[derive(Debug, Clone, Copy)]
pub struct BrokenTime {
    pub year: i32,
    pub month: u32,
    pub day: u32,
    pub hour: u32,
    pub minute: u32,
}

pub open spec fn month_name(month: u32) -> Seq<char> {
    if month == 0 {
        "Jan"@
    } else if month == 1 {
        "Feb"@
    } else if month == 2 {
        "Mar"@
    } else if month == 3 {
        "Apr"@
    } else if month == 4 {
        "May"@
    } else if month == 5 {
        "Jun"@
    } else if month == 6 {
        "Jul"@
    } else if month == 7 {
        "Aug"@
    } else if month == 8 {
        "Sep"@
    } else if month == 9 {
        "Oct"@
    } else if month == 10 {
        "Nov"@
    } else if month == 11 {
        "Dec"@
    } else {
        "???"@
    }
}

fn month_str(month: u32) -> (r: &'static str)
    ensures
        r@ == month_name(month),
{
    if month == 0 {
        "Jan"
    } else if month == 1 {
        "Feb"
    } else if month == 2 {
        "Mar"
    } else if month == 3 {
        "Apr"
    } else if month == 4 {
        "May"
    } else if month == 5 {
        "Jun"
    } else if month == 6 {
        "Jul"
    } else if month == 7 {
        "Aug"
    } else if month == 8 {
        "Sep"
    } else if month == 9 {
        "Oct"
    } else if month == 10 {
        "Nov"
    } else if month == 11 {
        "Dec"
    } else {
        "???"
    }
}

/// A text with enough of a character before it to take `width` characters.
pub open spec fn padded_left(s: Seq<char>, width: int, c: char) -> Seq<char> {
    Seq::new(
        (if s.len() < width {
            width - s.len()
        } else {
            0
        }) as nat,
        |i: int| c,
    ) + s
}

/// A text with enough spaces behind it to take `width` characters.
pub open spec fn padded_right(s: Seq<char>, width: int) -> Seq<char> {
    s + Seq::new(
        (if s.len() < width {
            width - s.len()
        } else {
            0
        }) as nat,
        |i: int| ' ',
    )
}

fn push_repeated(out: &mut Vec<char>, c: char, n: usize)
    ensures
        final(out)@ == old(out)@ + Seq::new(n as nat, |i: int| c),
{
    let ghost had = out@;
    let mut i: usize = 0;
    assert(had + Seq::new(0, |i: int| c) =~= had);
    while i < n
        invariant
            i <= n,
            out@ == had + Seq::new(i as nat, |i: int| c),
        decreases n - i,
    {
        out.push(c);
        assert(out@ =~= had + Seq::new((i + 1) as nat, |i: int| c));
        i += 1;
    }
}

fn push_padded_left(out: &mut Vec<char>, s: &Vec<char>, width: usize, c: char)
    ensures
        final(out)@ == old(out)@ + padded_left(s@, width as int, c),
{
    let ghost had = out@;
    let n: usize = if s.len() < width {
        width - s.len()
    } else {
        0
    };
    push_repeated(out, c, n);
    push_all(out, s.as_slice());
    assert(out@ =~= had + padded_left(s@, width as int, c));
}

fn push_padded_right(out: &mut Vec<char>, s: &Vec<char>, width: usize)
    ensures
        final(out)@ == old(out)@ + padded_right(s@, width as int),
{
    let ghost had = out@;
    let n: usize = if s.len() < width {
        width - s.len()
    } else {
        0
    };
    push_all(out, s.as_slice());
    push_repeated(out, ' ', n);
    assert(out@ =~= had + padded_right(s@, width as int));
}

/// Half a year, in seconds.
pub const HALF_YEAR: i128 = 15552000;

/// A time for people: the time of day where it is within half a year of now, else the year.
pub open spec fn time_text(now: int, mtime: int, tm: BrokenTime) -> Seq<char> {
    let age = now - mtime;
    let day = month_name(tm.month) + seq![' '] + padded_left(decimal(tm.day as nat), 2, ' ');
    if -HALF_YEAR < age < HALF_YEAR {
        day + seq![' '] + padded_left(decimal(tm.hour as nat), 2, '0') + seq![':'] + padded_left(
            decimal(tm.minute as nat),
            2,
            '0',
        )
    } else {
        day + seq![' ', ' '] + signed_decimal(tm.year + 1900)
    }
}

/// A time for people, from its parts.
pub fn format_time(now: i64, mtime: i64, tm: BrokenTime) -> (r: String)
    requires
        tm.year + 1900 <= i32::MAX,
    ensures
        r@ == time_text(now as int, mtime as int, tm),
{
    let mut out = chars_of(month_str(tm.month));
    out.push(' ');
    let day = decimal_of(tm.day as u64);
    push_padded_left(&mut out, &day, 2, ' ');
    let age: i128 = now as i128 - mtime as i128;
    if -HALF_YEAR < age && age < HALF_YEAR {
        out.push(' ');
        let hour = decimal_of(tm.hour as u64);
        push_padded_left(&mut out, &hour, 2, '0');
        out.push(':');
        let minute = decimal_of(tm.minute as u64);
        push_padded_left(&mut out, &minute, 2, '0');
    } else {
        out.push(' ');
        out.push(' ');
        let year = signed_decimal_of(tm.year + 1900);
        push_all(&mut out, year.as_slice());
    }
    assert(out@ =~= time_text(now as int, mtime as int, tm));
    string_of(out.as_slice())
}

// -- Entries --

/// What is known of a directory entry.
pub struct EntryInfo {
    pub name: String,
    pub mode: u32,
    pub is_link: bool,
    /// The entry is a directory, or a link to one.
    pub is_dir: bool,
    pub nlink: u64,
    pub owner: String,
    pub group: String,
    pub size: u64,
    pub date: String,
    pub target: Option<String>,
}

/// One line of a listing.
pub struct Entry {
    pub mode_str: String,
    pub nlink_str: String,
    pub owner: String,
    pub group: String,
    pub size_str: String,
    pub date_str: String,
    pub display_name: String,
    pub link_target: Option<String>,
    pub color_start: String,
}

#[verifier::ext_equal]
pub struct EntryView {
    pub mode: Seq<char>,
    pub nlink: Seq<char>,
    pub owner: Seq<char>,
    pub group: Seq<char>,
    pub size: Seq<char>,
    pub date: Seq<char>,
    pub name: Seq<char>,
    pub target: Option<Seq<char>>,
    pub color: Seq<char>,
}

impl View for Entry {
    type V = EntryView;

    open spec fn view(&self) -> EntryView {
        EntryView {
            mode: self.mode_str@,
            nlink: self.nlink_str@,
            owner: self.owner@,
            group: self.group@,
            size: self.size_str@,
            date: self.date_str@,
            name: self.display_name@,
            target: match self.link_target {
                Some(t) => Some(t@),
                None => None,
            },
            color: self.color_start@,
        }
    }
}

/// The color of an entry's name: links before directories, directories before files that run as
/// their owner, those before files that run.
pub open spec fn entry_color(info: EntryInfo) -> Seq<char> {
    if info.is_link {
        "\x1b[36m"@
    } else if info.is_dir {
        "\x1b[34m"@
    } else if info.mode & 0o4000 != 0 {
        "\x1b[31m"@
    } else if info.mode & 0o111 != 0 {
        "\x1b[32m"@
    } else {
        ""@
    }
}

pub open spec fn entry_view(info: EntryInfo) -> EntryView {
    EntryView {
        mode: mode_text(info.mode),
        nlink: decimal(info.nlink as nat),
        owner: info.owner@,
        group: info.group@,
        size: size_text(info.size as int),
        date: info.date@,
        name: if info.is_dir {
            sanitized(info.name@).push('/')
        } else {
            sanitized(info.name@)
        },
        target: match info.target {
            Some(t) => if info.is_link {
                Some(sanitized(t@))
            } else {
                None
            },
            None => None,
        },
        color: entry_color(info),
    }
}

/// The line of a directory entry.
pub fn build_entry(info: &EntryInfo) -> (r: Entry)
    ensures
        r@ == entry_view(*info),
{
    let name = chars_of(info.name.as_str());
    let mut shown = sanitize(&name);
    if info.is_dir {
        shown.push('/');
    }
    let link_target = match &info.target {
        Some(t) => if info.is_link {
            Some(sanitize_name(t.as_str()))
        } else {
            None
        },
        None => None,
    };
    let color_start = if info.is_link {
        String::from_str("\x1b[36m")
    } else if info.is_dir {
        String::from_str("\x1b[34m")
    } else if info.mode & 0o4000 != 0 {
        String::from_str("\x1b[31m")
    } else if info.mode & 0o111 != 0 {
        String::from_str("\x1b[32m")
    } else {
        String::from_str("")
    };
    let r = Entry {
        mode_str: format_mode(info.mode),
        nlink_str: string_of(decimal_of(info.nlink).as_slice()),
        owner: info.owner.clone(),
        group: info.group.clone(),
        size_str: human_size(info.size),
        date_str: info.date.clone(),
        display_name: string_of(shown.as_slice()),
        link_target,
        color_start,
    };
    assert(r@ =~= entry_view(*info));
    r
}

pub open spec fn entry_views(v: Seq<Entry>) -> Seq<EntryView> {
    Seq::new(v.len(), |i: int| v[i]@)
}

/// Whether one entry may stand before another, whatever the case of their names.
pub open spec fn entry_le() -> spec_fn(EntryView, EntryView) -> bool {
    |a: EntryView, b: EntryView| lex_le(lowercase_text(a.name), lowercase_text(b.name))
}

fn clone_entry(e: &Entry) -> (r: Entry)
    ensures
        r@ == e@,
{
    Entry {
        mode_str: e.mode_str.clone(),
        nlink_str: e.nlink_str.clone(),
        owner: e.owner.clone(),
        group: e.group.clone(),
        size_str: e.size_str.clone(),
        date_str: e.date_str.clone(),
        display_name: e.display_name.clone(),
        link_target: match &e.link_target {
            Some(t) => Some(t.clone()),
            None => None,
        },
        color_start: e.color_start.clone(),
    }
}

/// The entries of a listing, sorted by name whatever the case.
pub fn sort_entries(entries: &Vec<Entry>) -> (r: Vec<Entry>)
    ensures
        stable_sorted(entry_views(entries@), entry_views(r@), entry_le()),
        r.len() == entries.len(),
{
    let n = entries.len();
    let mut keys: Vec<String> = Vec::new();
    let mut i: usize = 0;
    while i < n
        invariant
            i <= n == entries.len(),
            keys.len() == i,
            forall|k: int|
                0 <= k < i ==> (#[trigger] keys@[k])@ == lowercase_text(entries@[k]@.name),
        decreases n - i,
    {
        keys.push(lowercase(entries[i].display_name.as_str()));
        i += 1;
    }
    let o = order_of(&keys);
    proof {
        lemma_members(o@, 0, n as int);
        let v = entry_views(entries@);
        assert forall|i: int, j: int|
            #![trigger keys@[i], keys@[j]]
            0 <= i < v.len() && 0 <= j < v.len() implies crate::sort::Ranked::at_most(
            &keys@[i],
            &keys@[j],
        ) == entry_le()(v[i], v[j]) by {
            assert(v[i] == entries@[i]@ && v[j] == entries@[j]@);
        }
        lemma_sorted_by_keys(keys@, v, o@, entry_le());
    }
    let mut out: Vec<Entry> = Vec::new();
    let mut j: usize = 0;
    while j < o.len()
        invariant
            j <= o.len(),
            out.len() == j,
            forall|a: int| 0 <= a < o.len() ==> (#[trigger] o@[a]) < entries.len(),
            forall|a: int| 0 <= a < j ==> (#[trigger] out@[a])@ == entries@[o@[a] as int]@,
        decreases o.len() - j,
    {
        out.push(clone_entry(&entries[o[j]]));
        j += 1;
    }
    assert(entry_views(out@) =~= arranged(entry_views(entries@), o@));
    out
}

// -- Listings --

/// The widths of the columns of a listing.
#[verifier::ext_equal]
pub struct Widths {
    pub nlink: int,
    pub owner: int,
    pub group: int,
    pub size: int,
}

pub open spec fn larger(a: int, b: int) -> int {
    if a >= b {
        a
    } else {
        b
    }
}

/// The widths that the first `n` entries need.
pub open spec fn widths(v: Seq<EntryView>, n: int) -> Widths
    decreases n,
{
    if n <= 0 {
        Widths { nlink: 0, owner: 0, group: 0, size: 0 }
    } else {
        let w = widths(v, n - 1);
        let e = v[n - 1];
        Widths {
            nlink: larger(w.nlink, byte_len(e.nlink) as int),
            owner: larger(w.owner, byte_len(e.owner) as int),
            group: larger(w.group, byte_len(e.group) as int),
            size: larger(w.size, byte_len(e.size) as int),
        }
    }
}

/// What stands before an entry's name.
pub open spec fn entry_columns(e: EntryView, w: Widths) -> Seq<char> {
    e.mode + seq![' '] + padded_left(e.nlink, w.nlink, ' ') + seq![' '] + padded_right(
        e.owner,
        w.owner,
    ) + seq![' ', ' '] + padded_right(e.group, w.group) + seq![' ', ' '] + padded_left(
        e.size,
        w.size,
        ' ',
    ) + seq![' '] + e.date + seq![' ']
}

/// An entry's name in its color, and where it leads.
pub open spec fn entry_name(e: EntryView) -> Seq<char> {
    e.color + e.name + (if e.color.len() > 0 {
        "\x1b[0m"@
    } else {
        Seq::empty()
    }) + (match e.target {
        Some(t) => " -> "@ + t,
        None => Seq::empty(),
    }) + seq!['\n']
}

/// The line of an entry.
pub open spec fn entry_line(e: EntryView, w: Widths) -> Seq<char> {
    entry_columns(e, w) + entry_name(e)
}

/// The lines of the first `n` entries.
pub open spec fn entry_lines(v: Seq<EntryView>, w: Widths, n: int) -> Seq<char>
    decreases n,
{
    if n <= 0 {
        Seq::empty()
    } else {
        entry_lines(v, w, n - 1) + entry_line(v[n - 1], w)
    }
}

/// A listing: one line for each entry, in columns.
pub open spec fn listing(v: Seq<EntryView>) -> Seq<char> {
    entry_lines(v, widths(v, v.len() as int), v.len() as int)
}

fn columns_of(e: &Entry, nw: usize, ow: usize, gw: usize, sw: usize) -> (out: Vec<char>)
    ensures
        out@ == entry_columns(
            e@,
            (Widths { nlink: nw as int, owner: ow as int, group: gw as int, size: sw as int }),
        ),
{
    let mut out = chars_of(e.mode_str.as_str());
    out.push(' ');
    let nlink = chars_of(e.nlink_str.as_str());
    push_padded_left(&mut out, &nlink, nw, ' ');
    out.push(' ');
    let owner = chars_of(e.owner.as_str());
    push_padded_right(&mut out, &owner, ow);
    let ghost first = out@;
    assert(first == e@.mode + seq![' '] + padded_left(e@.nlink, nw as int, ' ') + seq![' ']
        + padded_right(e@.owner, ow as int));
    out.push(' ');
    out.push(' ');
    assert(out@ =~= first + seq![' ', ' ']);
    let group = chars_of(e.group.as_str());
    push_padded_right(&mut out, &group, gw);
    let ghost second = out@;
    out.push(' ');
    out.push(' ');
    assert(out@ =~= second + seq![' ', ' ']);
    let size = chars_of(e.size_str.as_str());
    push_padded_left(&mut out, &size, sw, ' ');
    out.push(' ');
    push_str(&mut out, e.date_str.as_str());
    out.push(' ');
    out
}

fn push_name(out: &mut Vec<char>, e: &Entry)
    ensures
        final(out)@ == old(out)@ + entry_name(e@),
{
    let ghost had = out@;
    let color = chars_of(e.color_start.as_str());
    push_all(out, color.as_slice());
    push_str(out, e.display_name.as_str());
    if color.len() > 0 {
        push_str(out, "\x1b[0m");
    }
    match &e.link_target {
        Some(t) => {
            push_str(out, " -> ");
            push_str(out, t.as_str());
        },
        None => {},
    }
    out.push('\n');
    assert(out@ =~= had + entry_name(e@));
}

fn push_entry(out: &mut Vec<char>, e: &Entry, nw: usize, ow: usize, gw: usize, sw: usize)
    ensures
        final(out)@ == old(out)@ + entry_line(
            e@,
            (Widths { nlink: nw as int, owner: ow as int, group: gw as int, size: sw as int }),
        ),
{
    let ghost had = out@;
    let columns = columns_of(e, nw, ow, gw, sw);
    push_all(out, columns.as_slice());
    push_name(out, e);
    assert(out@ =~= had + (columns@ + entry_name(e@)));
}

fn max(a: usize, b: usize) -> (r: usize)
    ensures
        r == larger(a as int, b as int),
{
    if a >= b {
        a
    } else {
        b
    }
}

/// The text of a listing.
pub fn list_dir(entries: &Vec<Entry>) -> (r: String)
    ensures
        r@ == listing(entry_views(entries@)),
{
    let ghost v = entry_views(entries@);
    let mut nw: usize = 0;
    let mut ow: usize = 0;
    let mut gw: usize = 0;
    let mut sw: usize = 0;
    let mut i: usize = 0;
    while i < entries.len()
        invariant
            i <= entries.len(),
            v == entry_views(entries@),
            widths(v, i as int) == (Widths {
                nlink: nw as int,
                owner: ow as int,
                group: gw as int,
                size: sw as int,
            }),
        decreases entries.len() - i,
    {
        assert(v[i as int] == entries@[i as int]@);
        nw = max(nw, str_len(entries[i].nlink_str.as_str()));
        ow = max(ow, str_len(entries[i].owner.as_str()));
        gw = max(gw, str_len(entries[i].group.as_str()));
        sw = max(sw, str_len(entries[i].size_str.as_str()));
        i += 1;
    }
    let ghost w = widths(v, v.len() as int);
    let mut out: Vec<char> = Vec::new();
    let mut j: usize = 0;
    while j < entries.len()
        invariant
            j <= entries.len(),
            v == entry_views(entries@),
            w == (Widths {
                nlink: nw as int,
                owner: ow as int,
                group: gw as int,
                size: sw as int,
            }),
            out@ == entry_lines(v, w, j as int),
        decreases entries.len() - j,
    {
        assert(v[j as int] == entries@[j as int]@);
        push_entry(&mut out, &entries[j], nw, ow, gw, sw);
        j += 1;
    }
    string_of(out.as_slice())
}

proof fn lemma_widths(v: Seq<EntryView>, i: int, n: int)
    requires
        0 <= i < n <= v.len(),
    ensures
        byte_len(v[i].nlink) <= widths(v, n).nlink,
        byte_len(v[i].owner) <= widths(v, n).owner,
        byte_len(v[i].group) <= widths(v, n).group,
        byte_len(v[i].size) <= widths(v, n).size,
    decreases n,
{
    if i < n - 1 {
        lemma_widths(v, i, n - 1);
    }
}

/// The columns of a listing are straight: what stands in one takes the same width on every line.
pub proof fn law_columns_are_straight(v: Seq<EntryView>, i: int)
    requires
        0 <= i < v.len(),
    ensures
        ({
            let w = widths(v, v.len() as int);
            &&& padded_left(v[i].nlink, w.nlink, ' ').len() == w.nlink
            &&& padded_right(v[i].owner, w.owner).len() == w.owner
            &&& padded_right(v[i].group, w.group).len() == w.group
            &&& padded_left(v[i].size, w.size, ' ').len() == w.size
        }),
{
    lemma_widths(v, i, v.len() as int);
    lemma_byte_len_lower(v[i].nlink);
    lemma_byte_len_lower(v[i].owner);
    lemma_byte_len_lower(v[i].group);
    lemma_byte_len_lower(v[i].size);
}

} // verus!
