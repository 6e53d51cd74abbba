//! What stands on the lines of a directory listing.
use vstd::prelude::*;

use crate::ls::{
    entry_color, entry_columns, entry_line, entry_lines, entry_name, entry_view,
    law_columns_are_straight, law_sanitized_is_clean, listing, mode_text, month_name, padded_left,
    padded_right, sanitized, size_text, tenths, time_text, widths, BrokenTime, EntryInfo, EntryView,
    Widths,
};
use crate::text::{
    all_digits, decimal, digits_value, law_decimal_value, signed_decimal, spec_is_digit,
};

verus! {

/// A column holds a text at its right end, and spaces before it.
pub open spec fn right_aligned(col: Seq<char>, x: Seq<char>) -> bool {
    &&& x.len() <= col.len()
    &&& col.skip(col.len() - x.len()) == x
    &&& forall|i: int| 0 <= i < col.len() - x.len() ==> col[i] == ' '
}

/// A column holds a text at its left end, and spaces behind it.
pub open spec fn left_aligned(col: Seq<char>, x: Seq<char>) -> bool {
    &&& x.len() <= col.len()
    &&& col.take(x.len() as int) == x
    &&& forall|i: int| x.len() <= i < col.len() ==> col[i] == ' '
}

/// A text holds another one that starts a line there.
pub open spec fn holds_line(text: Seq<char>, a: Seq<char>, line: Seq<char>, b: Seq<char>) -> bool {
    &&& text == a + line + b
    &&& a.len() == 0 || a.last() == '\n'
}

proof fn lemma_lines_end(v: Seq<EntryView>, w: Widths, n: int)
    requires
        0 <= n <= v.len(),
    ensures
        entry_lines(v, w, n).len() == 0 || entry_lines(v, w, n).last() == '\n',
        n > 0 ==> entry_lines(v, w, n).len() > 0,
{
    if n > 0 {
        let l = entry_line(v[n - 1], w);
        assert(l.last() == '\n');
        assert(entry_lines(v, w, n) == entry_lines(v, w, n - 1) + l);
    }
}

proof fn lemma_lines_part(v: Seq<EntryView>, w: Widths, i: int, n: int) -> (rest: Seq<char>)
    requires
        0 <= i < n <= v.len(),
    ensures
        entry_lines(v, w, n) == entry_lines(v, w, i) + entry_line(v[i], w) + rest,
    decreases n,
{
    if n == i + 1 {
        assert(entry_lines(v, w, i) + entry_line(v[i], w) + Seq::<char>::empty() =~= entry_lines(
            v,
            w,
            n,
        ));
        Seq::empty()
    } else {
        let r = lemma_lines_part(v, w, i, n - 1);
        let rest = r + entry_line(v[n - 1], w);
        assert(entry_lines(v, w, n) =~= entry_lines(v, w, i) + entry_line(v[i], w) + rest);
        rest
    }
}

/// Every entry has its line in the listing.
pub proof fn law_every_entry_is_listed(v: Seq<EntryView>, i: int)
    requires
        0 <= i < v.len(),
    ensures
        exists|a: Seq<char>, b: Seq<char>| #[trigger]
            holds_line(listing(v), a, entry_line(v[i], widths(v, v.len() as int)), b),
{
    let w = widths(v, v.len() as int);
    let rest = lemma_lines_part(v, w, i, v.len() as int);
    lemma_lines_end(v, w, i);
    assert(holds_line(listing(v), entry_lines(v, w, i), entry_line(v[i], w), rest));
}

/// Entries are listed by name, whatever the case of the letters, and none is lost.
pub proof fn law_entries_in_order(v: Seq<EntryView>, r: Seq<EntryView>, e: EntryView, i: int, j: int)
    requires
        v.len() <= usize::MAX,
        crate::sort::stable_sorted(v, r, crate::ls::entry_le()),
        0 <= i < j < r.len(),
    ensures
        crate::text::lex_le(
            crate::ls::lowercase_text(r[i].name),
            crate::ls::lowercase_text(r[j].name),
        ),
        r.len() == v.len(),
        r.contains(e) == v.contains(e),
{
    crate::sort::law_sort_permutes(v, r, crate::ls::entry_le());
    broadcast use vstd::seq_lib::group_to_multiset_ensures;

    assert(r.to_multiset().count(e) == v.to_multiset().count(e));
}

/// Entries stand in the listing as they were given: the lines of those at the front are not
/// changed by one at the end that needs no wider columns.
pub proof fn law_listing_grows(v: Seq<EntryView>, e: EntryView)
    requires
        widths(v.push(e), v.len() as int + 1) == widths(v, v.len() as int),
    ensures
        listing(v.push(e)) == listing(v) + entry_line(e, widths(v, v.len() as int)),
        listing(Seq::empty()).len() == 0,
{
    let u = v.push(e);
    let w = widths(v, v.len() as int);
    lemma_lines_same(v, u, w, v.len() as int);
}

proof fn lemma_lines_same(v: Seq<EntryView>, u: Seq<EntryView>, w: Widths, n: int)
    requires
        0 <= n <= v.len(),
        n <= u.len(),
        forall|i: int| 0 <= i < n ==> v[i] == u[i],
    ensures
        entry_lines(v, w, n) == entry_lines(u, w, n),
    decreases n,
{
    if n > 0 {
        lemma_lines_same(v, u, w, n - 1);
    }
}

/// Where a link leads is shown at the end of its line, behind an arrow; where there is no target
/// the line ends with the name.
pub proof fn law_target_is_shown(e: EntryView, w: Widths)
    ensures
        ({
            let line = entry_line(e, w);
            let name = if e.color.len() > 0 {
                e.color + e.name + seq!['\x1b', '[', '0', 'm']
            } else {
                e.color + e.name
            };
            let end = match e.target {
                Some(t) => name + seq![' ', '-', '>', ' '] + t + seq!['\n'],
                None => name + seq!['\n'],
            };
            &&& end.len() <= line.len()
            &&& line.skip(line.len() - end.len()) == end
        }),
{
    reveal_strlit("\x1b[0m");
    reveal_strlit(" -> ");
    let line = entry_line(e, w);
    let end = entry_name(e);
    let c = entry_columns(e, w);
    assert(line.skip(c.len() as int) =~= end);
    let name = if e.color.len() > 0 {
        e.color + e.name + seq!['\x1b', '[', '0', 'm']
    } else {
        e.color + e.name
    };
    let want = match e.target {
        Some(t) => name + seq![' ', '-', '>', ' '] + t + seq!['\n'],
        None => name + seq!['\n'],
    };
    assert("\x1b[0m"@ =~= seq!['\x1b', '[', '0', 'm']);
    assert(" -> "@ =~= seq![' ', '-', '>', ' ']);
    assert(end =~= want);
}

/// Where the columns of a line of a listing end.
pub open spec fn column_end(e: EntryView, w: Widths, k: int) -> int {
    if k == 0 {
        e.mode.len() as int
    } else if k == 1 {
        e.mode.len() + 1 + w.nlink
    } else if k == 2 {
        e.mode.len() + 1 + w.nlink + 1 + w.owner
    } else if k == 3 {
        e.mode.len() + 1 + w.nlink + 1 + w.owner + 2 + w.group
    } else if k == 4 {
        e.mode.len() + 1 + w.nlink + 1 + w.owner + 2 + w.group + 2 + w.size
    } else {
        e.mode.len() + 1 + w.nlink + 1 + w.owner + 2 + w.group + 2 + w.size + 1 + e.date.len()
    }
}

proof fn lemma_padded(s: Seq<char>, width: int)
    requires
        s.len() <= width,
    ensures
        right_aligned(padded_left(s, width, ' '), s),
        left_aligned(padded_right(s, width), s),
        padded_left(s, width, ' ').len() == width,
        padded_right(s, width).len() == width,
{
    let l = padded_left(s, width, ' ');
    let r = padded_right(s, width);
    assert(l.skip(l.len() - s.len()) =~= s);
    assert(r.take(s.len() as int) =~= s);
}

proof fn lemma_parts(
    a: Seq<char>,
    b: Seq<char>,
    c: Seq<char>,
    d: Seq<char>,
    e: Seq<char>,
    f: Seq<char>,
    line: Seq<char>,
    rest: Seq<char>,
)
    requires
        line == a + seq![' '] + b + seq![' '] + c + seq![' ', ' '] + d + seq![' ', ' '] + e
            + seq![' '] + f + seq![' '] + rest,
    ensures
        ({
            let n1 = a.len() + 1 + b.len();
            let n2 = n1 + 1 + c.len();
            let n3 = n2 + 2 + d.len();
            let n4 = n3 + 2 + e.len();
            let n5 = n4 + 1 + f.len();
            &&& line.subrange(0, a.len() as int) == a
            &&& line.subrange(a.len() as int + 1, n1 as int) == b
            &&& line.subrange(n1 as int + 1, n2 as int) == c
            &&& line.subrange(n2 as int + 2, n3 as int) == d
            &&& line.subrange(n3 as int + 2, n4 as int) == e
            &&& line.subrange(n4 as int + 1, n5 as int) == f
            &&& line.skip(n5 as int + 1) == rest
            &&& line[a.len() as int] == ' '
            &&& line[n1 as int] == ' '
            &&& line[n2 as int] == ' '
            &&& line[n2 as int + 1] == ' '
            &&& line[n3 as int] == ' '
            &&& line[n3 as int + 1] == ' '
            &&& line[n4 as int] == ' '
            &&& line[n5 as int] == ' '
        }),
{
    let n1 = a.len() + 1 + b.len();
    let n2 = n1 + 1 + c.len();
    let n3 = n2 + 2 + d.len();
    let n4 = n3 + 2 + e.len();
    let n5 = n4 + 1 + f.len();
    assert(line.subrange(0, a.len() as int) =~= a);
    assert(line.subrange(a.len() as int + 1, n1 as int) =~= b);
    assert(line.subrange(n1 as int + 1, n2 as int) =~= c);
    assert(line.subrange(n2 as int + 2, n3 as int) =~= d);
    assert(line.subrange(n3 as int + 2, n4 as int) =~= e);
    assert(line.subrange(n4 as int + 1, n5 as int) =~= f);
    assert(line.skip(n5 as int + 1) =~= rest);
}

/// On each line the mode, the number of links, the owner, the group, the size and the date stand
/// in columns of the same width, with spaces between them; the name comes last.
pub proof fn law_line_shows_columns(v: Seq<EntryView>, i: int)
    requires
        0 <= i < v.len(),
    ensures
        ({
            let w = widths(v, v.len() as int);
            let e = v[i];
            let line = entry_line(e, w);
            &&& line.subrange(0, column_end(e, w, 0)) == e.mode
            &&& right_aligned(
                line.subrange(column_end(e, w, 0) + 1, column_end(e, w, 1)),
                e.nlink,
            )
            &&& left_aligned(line.subrange(column_end(e, w, 1) + 1, column_end(e, w, 2)), e.owner)
            &&& left_aligned(line.subrange(column_end(e, w, 2) + 2, column_end(e, w, 3)), e.group)
            &&& right_aligned(line.subrange(column_end(e, w, 3) + 2, column_end(e, w, 4)), e.size)
            &&& line.subrange(column_end(e, w, 4) + 1, column_end(e, w, 5)) == e.date
            &&& line[column_end(e, w, 0)] == ' '
            &&& line[column_end(e, w, 1)] == ' '
            &&& line[column_end(e, w, 2)] == ' '
            &&& line[column_end(e, w, 2) + 1] == ' '
            &&& line[column_end(e, w, 3)] == ' '
            &&& line[column_end(e, w, 3) + 1] == ' '
            &&& line[column_end(e, w, 4)] == ' '
            &&& line[column_end(e, w, 5)] == ' '
            &&& line.skip(column_end(e, w, 5) + 1).take((e.color.len() + e.name.len()) as int)
                == e.color + e.name
        }),
{
    let w = widths(v, v.len() as int);
    let e = v[i];
    let line = entry_line(e, w);
    law_columns_are_straight(v, i);
    lemma_padded(e.nlink, w.nlink);
    lemma_padded(e.owner, w.owner);
    lemma_padded(e.group, w.group);
    lemma_padded(e.size, w.size);
    lemma_parts(
        e.mode,
        padded_left(e.nlink, w.nlink, ' '),
        padded_right(e.owner, w.owner),
        padded_right(e.group, w.group),
        padded_left(e.size, w.size, ' '),
        e.date,
        line,
        entry_name(e),
    );
    assert(entry_name(e).take((e.color.len() + e.name.len()) as int) =~= e.color + e.name);
}

/// An entry shows what is known of it: its number of links, its owner, its group and its date as
/// they are, its name with a slash behind a directory's, and where a link leads. A control
/// character of a name or a target shows as a replacement character.
pub proof fn law_entry_shows(info: EntryInfo)
    ensures
        ({
            let e = entry_view(info);
            let n = info.name@.len() as int;
            &&& all_digits(e.nlink) && digits_value(e.nlink) == info.nlink
            &&& e.owner == info.owner@
            &&& e.group == info.group@
            &&& e.date == info.date@
            &&& info.is_dir ==> e.name.len() == n + 1 && e.name[n] == '/'
            &&& !info.is_dir ==> e.name.len() == n
            &&& forall|i: int|
                0 <= i < n ==> #[trigger] e.name[i] == (if (info.name@[i] as u32) < 32 || 127
                    <= info.name@[i] as u32 <= 159 {
                    '\u{FFFD}'
                } else {
                    info.name@[i]
                })
            &&& e.target is Some <==> info.is_link && info.target is Some
            &&& e.target is Some ==> e.target->0.len() == info.target->0@.len() && forall|i: int|
                0 <= i < e.target->0.len() ==> #[trigger] e.target->0[i] == (if (
                info.target->0@[i] as u32) < 32 || 127 <= info.target->0@[i] as u32 <= 159 {
                    '\u{FFFD}'
                } else {
                    info.target->0@[i]
                })
        }),
{
    law_decimal_value(info.nlink as nat);
}

/// A link is cyan, a directory blue, a file that runs as its owner red, one that runs green; any
/// other name has no color. A link to a directory is a link.
pub proof fn law_colors(info: EntryInfo)
    ensures
        ({
            let c = entry_color(info);
            &&& info.is_link ==> c == seq!['\x1b', '[', '3', '6', 'm']
            &&& !info.is_link && info.is_dir ==> c == seq!['\x1b', '[', '3', '4', 'm']
            &&& !info.is_link && !info.is_dir && info.mode & 0o4000 != 0 ==> c == seq![
                '\x1b',
                '[',
                '3',
                '1',
                'm',
            ]
            &&& !info.is_link && !info.is_dir && info.mode & 0o4000 == 0 && (info.mode & 0o100 != 0
                || info.mode & 0o010 != 0 || info.mode & 0o001 != 0) ==> c == seq![
                '\x1b',
                '[',
                '3',
                '2',
                'm',
            ]
            &&& !info.is_link && !info.is_dir && info.mode & 0o4000 == 0 && info.mode & 0o100 == 0
                && info.mode & 0o010 == 0 && info.mode & 0o001 == 0 ==> c.len() == 0
            &&& entry_view(info).color == c
        }),
{
    reveal_strlit("\x1b[36m");
    reveal_strlit("\x1b[34m");
    reveal_strlit("\x1b[31m");
    reveal_strlit("\x1b[32m");
    reveal_strlit("");
    let m = info.mode;
    assert(m & 0o111u32 != 0 <==> (m & 0o100u32 != 0 || m & 0o010u32 != 0 || m & 0o001u32 != 0))
        by (bit_vector);
    assert("\x1b[36m"@ =~= seq!['\x1b', '[', '3', '6', 'm']);
    assert("\x1b[34m"@ =~= seq!['\x1b', '[', '3', '4', 'm']);
    assert("\x1b[31m"@ =~= seq!['\x1b', '[', '3', '1', 'm']);
    assert("\x1b[32m"@ =~= seq!['\x1b', '[', '3', '2', 'm']);
}

/// A mode shows as a type and three groups of permissions, for the owner, the group and the
/// others: `r` and `w` where they may read and write, and `x` or a small letter where they may
/// run the file. A letter `s` or `t` tells that a file runs as its owner or group, or is sticky.
pub proof fn law_mode_shows(mode: u32)
    ensures
        ({
            let m = mode_text(mode);
            let kind = mode & 0o170000;
            &&& m.len() == 10
            &&& (m[0] == 'd') == (kind == 0o040000)
            &&& (m[0] == 'l') == (kind == 0o120000)
            &&& (m[0] == 'c') == (kind == 0o020000)
            &&& (m[0] == 'b') == (kind == 0o060000)
            &&& (m[0] == 'p') == (kind == 0o010000)
            &&& (m[0] == 's') == (kind == 0o140000)
            &&& kind == 0o100000 ==> m[0] == '-'
            &&& (m[1] == 'r') == (mode & 0o400 != 0) && (m[1] == 'r' || m[1] == '-')
            &&& (m[2] == 'w') == (mode & 0o200 != 0) && (m[2] == 'w' || m[2] == '-')
            &&& (m[3] == 'x' || m[3] == 's') == (mode & 0o100 != 0)
            &&& (m[3] == 's' || m[3] == 'S') == (mode & 0o4000 != 0)
            &&& m[3] == 'x' || m[3] == 's' || m[3] == 'S' || m[3] == '-'
            &&& (m[4] == 'r') == (mode & 0o040 != 0) && (m[4] == 'r' || m[4] == '-')
            &&& (m[5] == 'w') == (mode & 0o020 != 0) && (m[5] == 'w' || m[5] == '-')
            &&& (m[6] == 'x' || m[6] == 's') == (mode & 0o010 != 0)
            &&& (m[6] == 's' || m[6] == 'S') == (mode & 0o2000 != 0)
            &&& m[6] == 'x' || m[6] == 's' || m[6] == 'S' || m[6] == '-'
            &&& (m[7] == 'r') == (mode & 0o004 != 0) && (m[7] == 'r' || m[7] == '-')
            &&& (m[8] == 'w') == (mode & 0o002 != 0) && (m[8] == 'w' || m[8] == '-')
            &&& (m[9] == 'x' || m[9] == 't') == (mode & 0o001 != 0)
            &&& (m[9] == 't' || m[9] == 'T') == (mode & 0o1000 != 0)
            &&& m[9] == 'x' || m[9] == 't' || m[9] == 'T' || m[9] == '-'
        }),
{
}

/// A size shows as whole bytes below 1024, and else as the nearest tenth of a kilobyte, a
/// megabyte from 1024 of those on, or a gigabyte from 1024 of those on.
pub proof fn law_size_is_nearest(size: u64) -> (t: int)
    ensures
        size < 1024 ==> t == size && all_digits(size_text(size as int).drop_last()) && digits_value(
            size_text(size as int).drop_last(),
        ) == size && size_text(size as int).last() == 'B',
        size >= 1024 ==> ({
            let s = size_text(size as int);
            let n = s.len() as int;
            let unit: int = if size < 1048576 {
                1024
            } else if size < 1073741824 {
                1048576
            } else {
                1073741824
            };
            &&& n >= 4
            &&& s[n - 1] == if size < 1048576 {
                'K'
            } else if size < 1073741824 {
                'M'
            } else {
                'G'
            }
            &&& s[n - 3] == '.'
            &&& all_digits(s.take(n - 3))
            &&& spec_is_digit(s[n - 2])
            &&& t == 10 * digits_value(s.take(n - 3)) + (s[n - 2] as int - '0' as int)
            &&& -unit <= 2 * (10 * size - t * unit) <= unit
        }),
{
    let x = size as int;
    if size < 1024 {
        law_decimal_value(size as nat);
        assert(size_text(x).drop_last() =~= decimal(size as nat));
        x
    } else {
        let unit: int = if size < 1048576 {
            1024
        } else if size < 1073741824 {
            1048576
        } else {
            1073741824
        };
        let t = tenths(x, unit);
        let s = size_text(x);
        let n = s.len() as int;
        let whole = (t / 10) as nat;
        law_decimal_value(whole);
        assert(decimal((t % 10) as nat).len() == 1);
        assert(s.take(n - 3) =~= decimal(whole));
        assert(t >= 0);
        t
    }
}

proof fn lemma_no_space_aligned(p: Seq<char>, q: Seq<char>, width: int)
    requires
        p.len() <= width,
        q.len() <= width,
        !p.contains(' '),
        !q.contains(' '),
    ensures
        padded_left(p, width, ' ') == padded_left(q, width, ' ') ==> p == q,
        padded_right(p, width) == padded_right(q, width) ==> p == q,
{
    if padded_left(p, width, ' ') == padded_left(q, width, ' ') {
        let l = padded_left(p, width, ' ');
        let m = padded_left(q, width, ' ');
        if p.len() < q.len() {
            assert(l[width - q.len()] == ' ');
            assert(m[width - q.len()] == q[0]);
            assert(q.contains(q[0]));
        } else if q.len() < p.len() {
            assert(m[width - p.len()] == ' ');
            assert(l[width - p.len()] == p[0]);
            assert(p.contains(p[0]));
        } else {
            assert(l.skip(width - p.len()) =~= p);
            assert(m.skip(width - p.len()) =~= q);
        }
    }
    if padded_right(p, width) == padded_right(q, width) {
        let l = padded_right(p, width);
        let m = padded_right(q, width);
        if p.len() < q.len() {
            assert(l[q.len() - 1] == ' ');
            assert(m[q.len() - 1] == q[q.len() - 1]);
            assert(q.contains(q[q.len() - 1]));
        } else if q.len() < p.len() {
            assert(m[p.len() - 1] == ' ');
            assert(l[p.len() - 1] == p[p.len() - 1]);
            assert(p.contains(p[p.len() - 1]));
        } else {
            assert(l.take(p.len() as int) =~= p);
            assert(m.take(p.len() as int) =~= q);
        }
    }
}

/// The name of an entry cannot start a color.
proof fn lemma_name_is_clean(info: EntryInfo)
    ensures
        !entry_view(info).name.contains('\x1b'),
{
    let e = entry_view(info);
    law_sanitized_is_clean(info.name@);
    if e.name.contains('\x1b') {
        let i = choose|i: int| 0 <= i < e.name.len() && e.name[i] == '\x1b';
        assert(sanitized(info.name@)[i] == '\x1b');
    }
}

proof fn lemma_names_told_apart(a: EntryInfo, b: EntryInfo)
    requires
        entry_name(entry_view(a)) == entry_name(entry_view(b)),
    ensures
        entry_view(a).name == entry_view(b).name,
        entry_view(a).target == entry_view(b).target,
        entry_view(a).color == entry_view(b).color,
{
    reveal_strlit("\x1b[0m");
    reveal_strlit(" -> ");
    let x = entry_view(a);
    let y = entry_view(b);
    let s = entry_name(x);
    let t = entry_name(y);
    law_colors(a);
    law_colors(b);
    lemma_name_is_clean(a);
    lemma_name_is_clean(b);
    let m = x.name.len() as int;
    let n = y.name.len() as int;
    let c = x.color.len() as int;
    assert(c == 0 || c == 5 && s[0] == '\x1b');
    assert(y.color.len() == 0 || y.color.len() == 5 && t[0] == '\x1b');
    if c == 0 && y.color.len() > 0 {
        assert(x.target is None);
        if m > 0 {
            assert(s[0] == x.name[0]);
            assert(x.name.contains(x.name[0]));
        }
    }
    if y.color.len() == 0 && c > 0 {
        assert(y.target is None);
        if n > 0 {
            assert(t[0] == y.name[0]);
            assert(y.name.contains(y.name[0]));
        }
    }
    assert(c == y.color.len());
    if c == 0 {
        assert(x.target is None && y.target is None);
        assert(s.take(m) =~= x.name);
        assert(t.take(n) =~= y.name);
        assert(s.len() == m + 1 && t.len() == n + 1);
        assert(x.color =~= y.color);
    } else {
        assert(s.take(5) =~= x.color);
        assert(t.take(5) =~= y.color);
        assert(s[5 + m] == '\x1b');
        assert(t[5 + n] == '\x1b');
        if m < n {
            assert(t[5 + m] == y.name[m]);
            assert(y.name.contains(y.name[m]));
        }
        if n < m {
            assert(s[5 + n] == x.name[n]);
            assert(x.name.contains(x.name[n]));
        }
        assert(s.subrange(5, 5 + m) =~= x.name);
        assert(t.subrange(5, 5 + n) =~= y.name);
        match (x.target, y.target) {
            (Some(p), Some(q)) => {
                assert(s.subrange(13 + m, s.len() - 1) =~= p);
                assert(t.subrange(13 + n, t.len() - 1) =~= q);
            },
            _ => {},
        }
    }
}

/// Entries that differ in what is shown of them have different lines: a line tells the mode, the
/// number of links, the owner, the group, the shown size, the date, the shown name and the target.
pub proof fn law_lines_told_apart(v: Seq<EntryView>, i: int, j: int, a: EntryInfo, b: EntryInfo)
    requires
        0 <= i < v.len(),
        0 <= j < v.len(),
        v[i] == entry_view(a),
        v[j] == entry_view(b),
        a.date@.len() == b.date@.len(),
        !a.owner@.contains(' '),
        !b.owner@.contains(' '),
        !a.group@.contains(' '),
        !b.group@.contains(' '),
        entry_line(v[i], widths(v, v.len() as int)) == entry_line(v[j], widths(v, v.len() as int)),
    ensures
        entry_view(a) == entry_view(b),
        a.nlink == b.nlink,
        a.owner@ == b.owner@,
        a.group@ == b.group@,
        a.date@ == b.date@,
{
    let w = widths(v, v.len() as int);
    let x = v[i];
    let y = v[j];
    law_columns_are_straight(v, i);
    law_columns_are_straight(v, j);
    law_decimal_value(a.nlink as nat);
    law_decimal_value(b.nlink as nat);
    lemma_digits_no_space(x.nlink);
    lemma_digits_no_space(y.nlink);
    lemma_size_no_space(a.size);
    lemma_size_no_space(b.size);
    lemma_parts(
        x.mode,
        padded_left(x.nlink, w.nlink, ' '),
        padded_right(x.owner, w.owner),
        padded_right(x.group, w.group),
        padded_left(x.size, w.size, ' '),
        x.date,
        entry_line(x, w),
        entry_name(x),
    );
    lemma_parts(
        y.mode,
        padded_left(y.nlink, w.nlink, ' '),
        padded_right(y.owner, w.owner),
        padded_right(y.group, w.group),
        padded_left(y.size, w.size, ' '),
        y.date,
        entry_line(y, w),
        entry_name(y),
    );
    lemma_no_space_aligned(x.nlink, y.nlink, w.nlink);
    lemma_no_space_aligned(x.owner, y.owner, w.owner);
    lemma_no_space_aligned(x.group, y.group, w.group);
    lemma_no_space_aligned(x.size, y.size, w.size);
    lemma_names_told_apart(a, b);
}

proof fn lemma_digits_no_space(s: Seq<char>)
    requires
        all_digits(s),
    ensures
        !s.contains(' '),
{
    if s.contains(' ') {
        let i = choose|i: int| 0 <= i < s.len() && s[i] == ' ';
        assert(spec_is_digit(s[i]));
    }
}

proof fn lemma_size_no_space(size: u64)
    ensures
        !size_text(size as int).contains(' '),
{
    let t = law_size_is_nearest(size);
    let s = size_text(size as int);
    let n = s.len() as int;
    if s.contains(' ') {
        let i = choose|i: int| 0 <= i < s.len() && s[i] == ' ';
        if size < 1024 {
            if i < n - 1 {
                assert(spec_is_digit(s.drop_last()[i]));
            }
        } else if i < n - 3 {
            assert(spec_is_digit(s.take(n - 3)[i]));
        }
    }
}

/// The months have the names that stand one behind the other here.
pub proof fn law_month_names(month: u32)
    requires
        month < 12,
    ensures
        month_name(month) == "JanFebMarAprMayJunJulAugSepOctNovDec"@.subrange(
            3 * month as int,
            3 * month as int + 3,
        ),
{
    reveal_strlit("JanFebMarAprMayJunJulAugSepOctNovDec");
    reveal_strlit("Jan");
    reveal_strlit("Feb");
    reveal_strlit("Mar");
    reveal_strlit("Apr");
    reveal_strlit("May");
    reveal_strlit("Jun");
    reveal_strlit("Jul");
    reveal_strlit("Aug");
    reveal_strlit("Sep");
    reveal_strlit("Oct");
    reveal_strlit("Nov");
    reveal_strlit("Dec");
    assert(month_name(month) =~= "JanFebMarAprMayJunJulAugSepOctNovDec"@.subrange(
        3 * month as int,
        3 * month as int + 3,
    ));
}

/// A time shows as its month, its day and, where it is less than 180 days from now, the hour and
/// the minute with two digits each; else the year.
pub proof fn law_time_shows(now: int, mtime: int, tm: BrokenTime)
    requires
        tm.day < 100,
        tm.hour < 100,
        tm.minute < 100,
        1000 <= tm.year + 1900 < 10000,
        tm.month < 12,
    ensures
        ({
            let s = time_text(now, mtime, tm);
            let days = 180 * 24 * 60 * 60;
            &&& s.len() == 12
            &&& s.subrange(0, 3) == month_name(tm.month)
            &&& s[3] == ' '
            &&& right_aligned(s.subrange(4, 6), decimal(tm.day as nat))
            &&& s[6] == ' '
            &&& mtime - days < now < mtime + days ==> s[9] == ':' && all_digits(s.subrange(7, 9))
                && digits_value(s.subrange(7, 9)) == tm.hour && all_digits(s.subrange(10, 12))
                && digits_value(s.subrange(10, 12)) == tm.minute
            &&& now >= mtime + days || now <= mtime - days ==> s[7] == ' ' && all_digits(
                s.subrange(8, 12),
            ) && digits_value(s.subrange(8, 12)) == tm.year + 1900
        }),
{
    reveal_strlit("Jan");
    reveal_strlit("Feb");
    reveal_strlit("Mar");
    reveal_strlit("Apr");
    reveal_strlit("May");
    reveal_strlit("Jun");
    reveal_strlit("Jul");
    reveal_strlit("Aug");
    reveal_strlit("Sep");
    reveal_strlit("Oct");
    reveal_strlit("Nov");
    reveal_strlit("Dec");
    let s = time_text(now, mtime, tm);
    let m = month_name(tm.month);
    assert(m.len() == 3);
    lemma_two_digits(tm.day as nat);
    lemma_two_digits(tm.hour as nat);
    lemma_two_digits(tm.minute as nat);
    let day = padded_left(decimal(tm.day as nat), 2, ' ');
    lemma_padded(decimal(tm.day as nat), 2);
    let hour = padded_left(decimal(tm.hour as nat), 2, '0');
    let minute = padded_left(decimal(tm.minute as nat), 2, '0');
    let year = (tm.year + 1900) as nat;
    law_decimal_value(year);
    assert(decimal(year).len() == 4) by {
        reveal_with_fuel(decimal, 4);
    }
    if -15552000 < now - mtime < 15552000 {
        assert(s =~= m + seq![' '] + day + seq![' '] + hour + seq![':'] + minute);
        assert(s.subrange(7, 9) =~= hour);
        assert(s.subrange(10, 12) =~= minute);
    } else {
        assert(signed_decimal(tm.year + 1900) == decimal(year));
        assert(s =~= m + seq![' '] + day + seq![' ', ' '] + decimal(year));
        assert(s.subrange(8, 12) =~= decimal(year));
    }
    assert(s.subrange(0, 3) =~= m);
    assert(s.subrange(4, 6) =~= day);
}

proof fn lemma_two_digits(n: nat)
    requires
        n < 100,
    ensures
        decimal(n).len() <= 2,
        padded_left(decimal(n), 2, '0').len() == 2,
        all_digits(padded_left(decimal(n), 2, '0')),
        digits_value(padded_left(decimal(n), 2, '0')) == n,
{
    reveal_with_fuel(decimal, 2);
    law_decimal_value(n);
    let p = padded_left(decimal(n), 2, '0');
    if n < 10 {
        assert(p =~= seq!['0', decimal(n)[0]]);
        assert(p.drop_last() =~= seq!['0']);
        reveal_with_fuel(digits_value, 3);
        assert(spec_is_digit(decimal(n)[0]));
    } else {
        assert(decimal(n).len() == 2);
        assert(p =~= decimal(n));
    }
}

} // verus!
