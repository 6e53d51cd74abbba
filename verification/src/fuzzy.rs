//! Case-insensitive matching of a query against the text of a history entry.
use vstd::prelude::*;

use crate::sort::Ranked;
use crate::text::{chars_of, lower_char, push_all};

verus! {

/// What `char::to_lowercase` makes of a character.
pub uninterp spec fn lowercase_of(c: char) -> Seq<char>;

/// `char::to_lowercase` yields the lowercase mapping of a character as one or more
/// characters; for an ASCII character that is the one letter or the character itself.
#[verifier::external_body]
fn to_lowercase(c: char) -> (r: Vec<char>)
    ensures
        r@ == lowercase_of(c),
        r@.len() >= 1,
        (c as u32) < 128 ==> r@ == seq![lower_char(c)],
{
    c.to_lowercase().collect()
}

/// The first lowercase character of each character of `s`.
pub open spec fn folded(s: Seq<char>) -> Seq<char> {
    Seq::new(s.len(), |i: int| lowercase_of(s[i])[0])
}

/// The lowercase of `s`.
pub open spec fn lowercased(s: Seq<char>) -> Seq<char>
    decreases s.len(),
{
    if s.len() == 0 {
        s
    } else {
        lowercased(s.drop_last()) + lowercase_of(s.last())
    }
}

/// The first lowercase character of each character of a text.
pub fn fold(text: &str) -> (r: Vec<char>)
    ensures
        r@ == folded(text@),
{
    let v = chars_of(text);
    let mut out: Vec<char> = Vec::new();
    let mut i: usize = 0;
    while i < v.len()
        invariant
            i <= v.len(),
            v@ == text@,
            out@ =~= folded(text@.take(i as int)),
        decreases v.len() - i,
    {
        let l = to_lowercase(v[i]);
        out.push(l[0]);
        i += 1;
    }
    assert(text@.take(i as int) =~= text@);
    out
}

/// The lowercase of a query.
pub fn lowercase_query(query: &str) -> (r: Vec<char>)
    ensures
        r@ == lowercased(query@),
{
    let v = chars_of(query);
    let mut out: Vec<char> = Vec::new();
    let mut i: usize = 0;
    while i < v.len()
        invariant
            i <= v.len(),
            v@ == query@,
            out@ == lowercased(query@.take(i as int)),
        decreases v.len() - i,
    {
        assert(query@.take(i + 1).drop_last() =~= query@.take(i as int));
        let l = to_lowercase(v[i]);
        push_all(&mut out, l.as_slice());
        i += 1;
    }
    assert(query@.take(i as int) =~= query@);
    out
}

// -- Subsequences --

/// Most matched positions that are kept.
pub const MAX_POSITIONS: usize = 32;

/// Where the first match of `q` from `qi` on ends in `t` from `ti` on.
pub open spec fn forward_end(q: Seq<char>, t: Seq<char>, qi: int, ti: int) -> Option<int>
    decreases t.len() - ti,
{
    if qi >= q.len() {
        Some(ti - 1)
    } else if ti >= t.len() {
        None
    } else if t[ti] == q[qi] {
        forward_end(q, t, qi + 1, ti + 1)
    } else {
        forward_end(q, t, qi, ti + 1)
    }
}

/// The last place of `c` in `t` from `ti` on, or `best`.
pub open spec fn last_from(t: Seq<char>, c: char, ti: int, best: int) -> int
    decreases t.len() - ti,
{
    if ti >= t.len() {
        best
    } else {
        last_from(
            t,
            c,
            ti + 1,
            if t[ti] == c {
                ti
            } else {
                best
            },
        )
    }
}

/// Where the last match of the first `qi` characters of `q` that ends at or before `ti`
/// starts.
pub open spec fn back_start(q: Seq<char>, t: Seq<char>, qi: int, ti: int) -> int
    decreases ti + 1,
{
    if qi <= 0 {
        ti + 1
    } else if ti < 0 {
        0
    } else if t[ti] == q[qi - 1] {
        back_start(q, t, qi - 1, ti - 1)
    } else {
        back_start(q, t, qi, ti - 1)
    }
}

/// The window in which `q` is matched: the one that ends where the first match ends, or the
/// one that ends with the last occurrence of its last character, whichever is tighter.
pub open spec fn window(q: Seq<char>, t: Seq<char>) -> Option<(int, int)> {
    match forward_end(q, t, 0, 0) {
        None => None,
        Some(e1) => {
            let e2 = last_from(t, q.last(), e1 + 1, e1);
            let s1 = back_start(q, t, q.len() as int, e1);
            let s2 = back_start(q, t, q.len() as int, e2);
            if e2 != e1 && e2 - s2 < e1 - s1 {
                Some((s2, e2))
            } else {
                Some((s1, e1))
            }
        },
    }
}

/// The first places of the characters of `q` from `qi` on, one after the other, in `t` from
/// `ti` to `end`.
pub open spec fn picks(q: Seq<char>, t: Seq<char>, qi: int, ti: int, end: int) -> Seq<int>
    decreases end + 1 - ti,
{
    if qi >= q.len() || ti > end || ti < 0 {
        Seq::empty()
    } else if t[ti] == q[qi] {
        seq![ti] + picks(q, t, qi + 1, ti + 1, end)
    } else {
        picks(q, t, qi, ti + 1, end)
    }
}

/// The first positions that are kept, as 16-bit numbers; zeros after them.
pub open spec fn position_array(ps: Seq<int>) -> Seq<u16> {
    Seq::new(
        MAX_POSITIONS as nat,
        |i: int|
            if i < ps.len() {
                ps[i] as u16
            } else {
                0
            },
    )
}

pub open spec fn kept_count(n: nat) -> int {
    if n <= MAX_POSITIONS {
        n as int
    } else {
        MAX_POSITIONS as int
    }
}

/// The places at which `q` is matched in `t`, and how many are kept.
pub open spec fn subsequence(q: Seq<char>, t: Seq<char>) -> Option<(Seq<u16>, int)> {
    if q.len() == 0 {
        Some((position_array(Seq::empty()), 0))
    } else {
        match window(q, t) {
            None => None,
            Some((start, end)) => Some(
                (position_array(picks(q, t, 0, start, end)), kept_count(q.len())),
            ),
        }
    }
}

fn find_forward_end(q: &[char], t: &Vec<char>) -> (r: Option<usize>)
    requires
        q.len() > 0,
    ensures
        match forward_end(q@, t@, 0, 0) {
            Some(e) => r matches Some(k) && k == e && k < t.len(),
            None => r is None,
        },
{
    let mut qi: usize = 0;
    let mut ti: usize = 0;
    while ti < t.len()
        invariant
            qi < q.len(),
            ti <= t.len(),
            forward_end(q@, t@, 0, 0) == forward_end(q@, t@, qi as int, ti as int),
        decreases t.len() - ti,
    {
        if t[ti] == q[qi] {
            qi += 1;
            if qi == q.len() {
                assert(forward_end(q@, t@, qi as int, ti + 1) == Some(ti as int));
                return Some(ti);
            }
        }
        ti += 1;
    }
    None
}

fn find_last_end(t: &Vec<char>, c: char, first: usize) -> (r: usize)
    requires
        first < t.len(),
    ensures
        r == last_from(t@, c, first + 1, first as int),
        first <= r < t.len(),
{
    let mut best: usize = first;
    let mut ti: usize = first + 1;
    while ti < t.len()
        invariant
            first < ti <= t.len(),
            first <= best < ti,
            last_from(t@, c, first + 1, first as int) == last_from(
                t@,
                c,
                ti as int,
                best as int,
            ),
        decreases t.len() - ti,
    {
        if t[ti] == c {
            best = ti;
        }
        ti += 1;
    }
    best
}

/// Backward scan from `end` (inclusive) to find the tightest window start.
fn find_back_start(q: &[char], t: &Vec<char>, end: usize) -> (r: usize)
    requires
        q.len() > 0,
        end < t.len(),
    ensures
        r == back_start(q@, t@, q@.len() as int, end as int),
        r <= end,
{
    let mut qi: usize = q.len();
    let mut n: usize = end + 1;
    while n > 0
        invariant
            0 < qi <= q.len(),
            n <= end + 1 <= t.len(),
            back_start(q@, t@, q@.len() as int, end as int) == back_start(
                q@,
                t@,
                qi as int,
                n - 1,
            ),
        decreases n,
    {
        if t[n - 1] == q[qi - 1] {
            qi -= 1;
            if qi == 0 {
                assert(back_start(q@, t@, 0, n - 2) == n - 1);
                return n - 1;
            }
        }
        n -= 1;
    }
    0
}

fn find_window(q: &[char], t: &Vec<char>) -> (r: Option<(usize, usize)>)
    requires
        q.len() > 0,
    ensures
        match window(q@, t@) {
            Some((s, e)) => r matches Some((x, y)) && x == s && y == e && x <= y < t.len(),
            None => r is None,
        },
{
    match find_forward_end(q, t) {
        None => None,
        Some(e1) => {
            let e2 = find_last_end(t, q[q.len() - 1], e1);
            let s1 = find_back_start(q, t, e1);
            if e2 == e1 {
                return Some((s1, e1));
            }
            let s2 = find_back_start(q, t, e2);
            if e2 - s2 < e1 - s1 {
                Some((s2, e2))
            } else {
                Some((s1, e1))
            }
        },
    }
}

/// The first places of the characters of `q`, one after the other, from `start` to `end`.
fn collect_picks(q: &[char], t: &Vec<char>, start: usize, end: usize) -> (r: Vec<usize>)
    requires
        start <= end < t.len(),
    ensures
        r@.map_values(|x: usize| x as int) == picks(q@, t@, 0, start as int, end as int),
{
    let mut out: Vec<usize> = Vec::new();
    let mut qi: usize = 0;
    let mut ti: usize = start;
    let ghost f = |x: usize| x as int;
    let ghost all = picks(q@, t@, 0, start as int, end as int);
    assert(out@.map_values(f) + all =~= all);
    while ti <= end && qi < q.len()
        invariant
            start <= ti <= end + 1 <= t.len(),
            qi <= q.len(),
            f == (|x: usize| x as int),
            all == picks(q@, t@, 0, start as int, end as int),
            all == out@.map_values(f) + picks(q@, t@, qi as int, ti as int, end as int),
        decreases end + 1 - ti,
    {
        let ghost had = out@.map_values(f);
        if t[ti] == q[qi] {
            proof {
                let rest = picks(q@, t@, qi + 1, ti + 1, end as int);
                assert(had + (seq![ti as int] + rest) =~= (had + seq![ti as int]) + rest);
            }
            out.push(ti);
            assert(out@.map_values(f) =~= had + seq![ti as int]);
            qi += 1;
        }
        ti += 1;
    }
    assert(out@.map_values(f) + Seq::<int>::empty() =~= out@.map_values(f));
    out
}

fn to_array(ps: &Vec<usize>) -> (r: [u16; 32])
    ensures
        r@ == position_array(ps@.map_values(|x: usize| x as int)),
{
    let mut a: [u16; 32] = [0; 32];
    let ghost pv = ps@.map_values(|x: usize| x as int);
    let mut i: usize = 0;
    while i < ps.len() && i < 32
        invariant
            i <= ps.len(),
            i <= 32,
            pv == ps@.map_values(|x: usize| x as int),
            forall|k: int| 0 <= k < i ==> #[trigger] a@[k] == pv[k] as u16,
            forall|k: int| i <= k < 32 ==> #[trigger] a@[k] == 0,
        decreases ps.len() - i,
    {
        a[i] = ps[i] as u16;
        i += 1;
    }
    assert(a@ =~= position_array(pv));
    a
}

/// The view of a match of positions.
pub open spec fn positions_view(r: Option<([u16; 32], u8)>) -> Option<(Seq<u16>, int)> {
    match r {
        Some((a, n)) => Some((a@, n as int)),
        None => None,
    }
}

/// Check if `query` chars appear in `text` in order (case-insensitive; the query is
/// lowercase). Uses a forward-then-backward scan to find the tightest match window,
/// then a final forward pass within that window for optimal positions.
/// Returns a fixed-size array of matched character indices and the count.
pub fn subsequence_match(query: &[char], text: &str) -> (r: Option<([u16; 32], u8)>)
    ensures
        positions_view(r) == subsequence(query@, folded(text@)),
{
    let t = fold(text);
    match_folded(query, &t)
}

fn match_folded(query: &[char], t: &Vec<char>) -> (r: Option<([u16; 32], u8)>)
    ensures
        positions_view(r) == subsequence(query@, t@),
{
    if query.len() == 0 {
        let none: Vec<usize> = Vec::new();
        assert(none@.map_values(|x: usize| x as int) =~= Seq::<int>::empty());
        return Some((to_array(&none), 0));
    }
    match find_window(query, t) {
        None => None,
        Some((start, end)) => {
            let ps = collect_picks(query, t, start, end);
            let n: u8 = if query.len() <= MAX_POSITIONS {
                query.len() as u8
            } else {
                32
            };
            Some((to_array(&ps), n))
        },
    }
}

// -- Tiers --

/// The characters that a word can start after.
pub open spec fn spec_is_word_boundary(c: char) -> bool {
    c == '/' || c == '-' || c == '_' || c == '.' || c == ' ' || c == '\t'
}

fn is_word_boundary_char(c: char) -> (r: bool)
    ensures
        r == spec_is_word_boundary(c),
{
    c == '/' || c == '-' || c == '_' || c == '.' || c == ' ' || c == '\t'
}

/// Whether `q` stands at `i` of `t`.
pub open spec fn stands_at(q: Seq<char>, t: Seq<char>, i: int) -> bool {
    0 <= i && i + q.len() <= t.len() && t.subrange(i, i + q.len()) == q
}

/// The first place from `i` on at which `q` stands in `t`; at the start of a word of `text`
/// where `boundary_only`.
pub open spec fn substring_from(
    q: Seq<char>,
    t: Seq<char>,
    text: Seq<char>,
    boundary_only: bool,
    i: int,
) -> Option<int>
    decreases t.len() + 1 - i,
{
    if i < 0 || i + q.len() > t.len() {
        None
    } else if stands_at(q, t, i) && (boundary_only && i > 0 ==> spec_is_word_boundary(text[i - 1])) {
        Some(i)
    } else {
        substring_from(q, t, text, boundary_only, i + 1)
    }
}

fn chars_stand_at(q: &[char], t: &Vec<char>, i: usize) -> (r: bool)
    requires
        i + q.len() <= t.len(),
    ensures
        r == stands_at(q@, t@, i as int),
{
    let mut k: usize = 0;
    while k < q.len()
        invariant
            k <= q.len(),
            i + q.len() <= t.len(),
            forall|m: int| 0 <= m < k ==> t@[i + m] == q@[m],
        decreases q.len() - k,
    {
        if t[i + k] != q[k] {
            assert(t@.subrange(i as int, i + q@.len())[k as int] == t@[i + k]);
            return false;
        }
        k += 1;
    }
    assert(t@.subrange(i as int, i + q@.len()) =~= q@);
    true
}

fn find_substring_icase(
    q: &[char],
    t: &Vec<char>,
    text: &Vec<char>,
    boundary_only: bool,
) -> (r: Option<usize>)
    requires
        text.len() == t.len(),
    ensures
        match substring_from(q@, t@, text@, boundary_only, 0) {
            Some(i) => r matches Some(k) && k == i && k + q@.len() <= t@.len(),
            None => r is None,
        },
{
    if q.len() > t.len() {
        return None;
    }
    let last = t.len() - q.len();
    let mut i: usize = 0;
    loop
        invariant
            i <= last,
            last == t.len() - q.len(),
            text.len() == t.len(),
            substring_from(q@, t@, text@, boundary_only, 0) == substring_from(
                q@,
                t@,
                text@,
                boundary_only,
                i as int,
            ),
        decreases last - i,
    {
        if (!boundary_only || i == 0 || is_word_boundary_char(text[i - 1])) && chars_stand_at(
            q,
            t,
            i,
        ) {
            return Some(i);
        }
        if i == last {
            assert(substring_from(q@, t@, text@, boundary_only, i + 1) is None);
            return None;
        }
        i += 1;
    }
}

/// One match of a query in an entry.
#[derive(Clone, Copy)]
pub struct FuzzyMatch {
    pub entry_idx: usize,
    /// Matched character indices.
    pub match_positions: [u16; 32],
    pub match_count: u8,
    /// Match tier. Higher = stronger literal match.
    /// 3 = prefix, 2 = boundary substring, 1 = substring, 0 = subsequence fallback.
    /// Entries of the directory searched for get 4 more.
    pub score: i16,
}

#[verifier::ext_equal]
pub struct MatchView {
    pub idx: int,
    pub positions: Seq<u16>,
    pub count: int,
    pub score: int,
}

impl View for FuzzyMatch {
    type V = MatchView;

    open spec fn view(&self) -> MatchView {
        MatchView {
            idx: self.entry_idx as int,
            positions: self.match_positions@,
            count: self.match_count as int,
            score: self.score as int,
        }
    }
}

/// Higher scores first; among equal scores, later entries first.
impl Ranked for FuzzyMatch {
    open spec fn at_most(&self, other: &Self) -> bool {
        self.score > other.score || self.score == other.score && self.entry_idx
            >= other.entry_idx
    }

    proof fn at_most_total(a: &Self, b: &Self) {
    }

    proof fn at_most_transitive(a: &Self, b: &Self, c: &Self) {
    }

    fn is_at_most(&self, other: &Self) -> (r: bool) {
        self.score > other.score || (self.score == other.score && self.entry_idx
            >= other.entry_idx)
    }
}

/// Higher scores first; among equal scores, later entries first.
pub open spec fn rank_order() -> spec_fn(MatchView, MatchView) -> bool {
    |a: MatchView, b: MatchView| a.score > b.score || a.score == b.score && a.idx >= b.idx
}

pub open spec fn match_views(v: Seq<FuzzyMatch>) -> Seq<MatchView> {
    Seq::new(v.len(), |i: int| v[i]@)
}

/// The positions from `start` on, one for each of `n` characters, as far as they are kept.
pub open spec fn contiguous(start: int, n: nat) -> Seq<u16> {
    Seq::new(
        MAX_POSITIONS as nat,
        |i: int|
            if i < n {
                (start + i) as u16
            } else {
                0
            },
    )
}

fn contiguous_match(entry_idx: usize, score: i16, start: usize, len: usize) -> (r: FuzzyMatch)
    requires
        start + len <= usize::MAX,
    ensures
        r@ == (MatchView {
            idx: entry_idx as int,
            positions: contiguous(start as int, len as nat),
            count: kept_count(len as nat),
            score: score as int,
        }),
{
    let mut a: [u16; 32] = [0; 32];
    let mut i: usize = 0;
    while i < len && i < 32
        invariant
            i <= len,
            i <= 32,
            start + len <= usize::MAX,
            forall|k: int| 0 <= k < i ==> #[trigger] a@[k] == (start + k) as u16,
            forall|k: int| i <= k < 32 ==> #[trigger] a@[k] == 0,
        decreases len - i,
    {
        a[i] = (start + i) as u16;
        i += 1;
    }
    assert(a@ =~= contiguous(start as int, len as nat));
    FuzzyMatch { entry_idx, match_positions: a, match_count: i as u8, score }
}

/// The match of a lowercase query in a text: a prefix, else the first occurrence at the
/// start of a word, else the first occurrence, else a subsequence.
pub open spec fn classified(q: Seq<char>, text: Seq<char>, idx: int) -> Option<MatchView> {
    let t = folded(text);
    if stands_at(q, t, 0) {
        Some(
            MatchView {
                idx,
                positions: contiguous(0, q.len()),
                count: kept_count(q.len()),
                score: 3,
            },
        )
    } else if substring_from(q, t, text, true, 0) is Some {
        Some(
            MatchView {
                idx,
                positions: contiguous(substring_from(q, t, text, true, 0)->0, q.len()),
                count: kept_count(q.len()),
                score: 2,
            },
        )
    } else if substring_from(q, t, text, false, 0) is Some {
        Some(
            MatchView {
                idx,
                positions: contiguous(substring_from(q, t, text, false, 0)->0, q.len()),
                count: kept_count(q.len()),
                score: 1,
            },
        )
    } else {
        match subsequence(q, t) {
            None => None,
            Some((positions, count)) => Some(MatchView { idx, positions, count, score: 0 }),
        }
    }
}

pub fn classify_match(query: &[char], text: &str, entry_idx: usize) -> (r: Option<FuzzyMatch>)
    ensures
        match classified(query@, text@, entry_idx as int) {
            Some(m) => r matches Some(x) && x@ == m,
            None => r is None,
        },
{
    let t = fold(text);
    let chars = chars_of(text);
    if query.len() <= t.len() && chars_stand_at(query, &t, 0) {
        return Some(contiguous_match(entry_idx, 3, 0, query.len()));
    }
    match find_substring_icase(query, &t, &chars, true) {
        Some(start) => {
            return Some(contiguous_match(entry_idx, 2, start, query.len()));
        },
        None => {},
    }
    match find_substring_icase(query, &t, &chars, false) {
        Some(start) => {
            return Some(contiguous_match(entry_idx, 1, start, query.len()));
        },
        None => {},
    }
    match match_folded(query, &t) {
        None => None,
        Some((positions, count)) => {
            let m = FuzzyMatch {
                entry_idx,
                match_positions: positions,
                match_count: count,
                score: 0,
            };
            assert(m@ =~= classified(query@, text@, entry_idx as int)->0);
            Some(m)
        },
    }
}

/// The positions are consecutive.
pub open spec fn is_contiguous(positions: Seq<u16>, n: int) -> bool {
    forall|i: int| 1 <= i < n ==> #[trigger] positions[i] == positions[i - 1] + 1
}

/// The literal-match tier of the first `n` positions.
pub open spec fn tier_of(positions: Seq<u16>, n: int, text: Seq<char>) -> int {
    let start = positions[0] as int;
    if n == 0 || !is_contiguous(positions, n) {
        0
    } else if start == 0 {
        3
    } else if start - 1 < text.len() && spec_is_word_boundary(text[start - 1]) {
        2
    } else {
        1
    }
}

/// Returns the literal-match tier for a precomputed match window.
pub fn score_match(positions: &[u16; 32], count: u8, text: &str, _pwd_basename: &str) -> (r: i16)
    requires
        count <= 32 || !is_contiguous(positions@, 32),
    ensures
        r == tier_of(positions@, count as int, text@),
{
    if count == 0 {
        return 0;
    }
    let n: usize = if count <= 32 {
        count as usize
    } else {
        32
    };
    let mut i: usize = 1;
    while i < n
        invariant
            1 <= i <= n <= 32,
            n <= count,
            is_contiguous(positions@, i as int),
        decreases n - i,
    {
        if positions[i] as u32 != positions[i - 1] as u32 + 1 {
            assert(positions@[i as int] != positions@[i - 1] + 1);
            return 0;
        }
        i += 1;
    }
    let start = positions[0] as usize;
    if start == 0 {
        return 3;
    }
    let v = chars_of(text);
    if start - 1 < v.len() && is_word_boundary_char(v[start - 1]) {
        2
    } else {
        1
    }
}

// -- Laws --

/// `f` gives a place in `t` to every character of `q`, in order.
pub open spec fn embeds(q: Seq<char>, t: Seq<char>, f: Seq<int>) -> bool {
    &&& f.len() == q.len()
    &&& forall|i: int| 0 <= i < f.len() ==> 0 <= #[trigger] f[i] < t.len() && t[f[i]] == q[i]
    &&& forall|i: int, j: int| 0 <= i < j < f.len() ==> #[trigger] f[i] < #[trigger] f[j]
}

/// The characters of `q` from `k` on stand in order in `t` from `lo` up to `hi`.
spec fn fsub(q: Seq<char>, t: Seq<char>, k: int, lo: int, hi: int) -> bool
    decreases hi - lo,
{
    if k >= q.len() {
        true
    } else if lo >= hi {
        false
    } else if t[lo] == q[k] {
        fsub(q, t, k + 1, lo + 1, hi)
    } else {
        fsub(q, t, k, lo + 1, hi)
    }
}

/// The first `k` characters of `q` stand in order in `t` up to `hi`.
spec fn bsub(q: Seq<char>, t: Seq<char>, k: int, hi: int) -> bool
    decreases hi,
{
    if k <= 0 {
        true
    } else if hi <= 0 {
        false
    } else if t[hi - 1] == q[k - 1] {
        bsub(q, t, k - 1, hi - 1)
    } else {
        bsub(q, t, k, hi - 1)
    }
}

proof fn lemma_fsub_drop(q: Seq<char>, t: Seq<char>, k: int, lo: int, hi: int)
    requires
        fsub(q, t, k, lo, hi),
        k >= 0,
    ensures
        fsub(q, t, k + 1, lo, hi),
    decreases hi - lo,
{
    if k + 1 < q.len() && lo < hi {
        if t[lo] == q[k] {
            if t[lo] == q[k + 1] {
                lemma_fsub_drop(q, t, k + 1, lo + 1, hi);
            }
        } else {
            lemma_fsub_drop(q, t, k, lo + 1, hi);
            if t[lo] == q[k + 1] {
                lemma_fsub_drop(q, t, k + 1, lo + 1, hi);
            }
        }
    }
}

proof fn lemma_bsub_drop(q: Seq<char>, t: Seq<char>, k: int, hi: int)
    requires
        bsub(q, t, k, hi),
        0 <= k <= q.len(),
    ensures
        bsub(q, t, k - 1, hi),
    decreases hi,
{
    if k - 1 > 0 && hi > 0 {
        if t[hi - 1] == q[k - 1] {
            if t[hi - 1] == q[k - 2] {
                lemma_bsub_drop(q, t, k - 1, hi - 1);
            }
        } else {
            lemma_bsub_drop(q, t, k, hi - 1);
            if t[hi - 1] == q[k - 2] {
                lemma_bsub_drop(q, t, k - 1, hi - 1);
            }
        }
    }
}

proof fn lemma_bsub_grow(q: Seq<char>, t: Seq<char>, k: int, lo: int, hi: int)
    requires
        bsub(q, t, k, lo),
        0 <= k <= q.len(),
        0 <= lo <= hi,
    ensures
        bsub(q, t, k, hi),
    decreases hi - lo,
{
    if lo < hi {
        lemma_bsub_grow(q, t, k, lo, hi - 1);
        if k > 0 && t[hi - 1] == q[k - 1] {
            lemma_bsub_drop(q, t, k, hi - 1);
        }
    }
}

proof fn lemma_forward(q: Seq<char>, t: Seq<char>, qi: int, ti: int)
    requires
        0 <= qi <= q.len(),
        0 <= ti <= t.len(),
        bsub(q, t, qi, ti),
    ensures
        match forward_end(q, t, qi, ti) {
            Some(e) => ti - 1 <= e < t.len() && bsub(q, t, q.len() as int, e + 1),
            None => true,
        },
        forward_end(q, t, qi, ti) is Some == fsub(q, t, qi, ti, t.len() as int),
    decreases t.len() - ti,
{
    if qi < q.len() && ti < t.len() {
        if t[ti] == q[qi] {
            lemma_forward(q, t, qi + 1, ti + 1);
        } else {
            lemma_bsub_grow(q, t, qi, ti, ti + 1);
            lemma_forward(q, t, qi, ti + 1);
        }
    }
}

proof fn lemma_last_from(t: Seq<char>, c: char, ti: int, best: int)
    requires
        0 <= best < ti <= t.len(),
    ensures
        best <= last_from(t, c, ti, best) < t.len(),
    decreases t.len() - ti,
{
    if ti < t.len() {
        lemma_last_from(
            t,
            c,
            ti + 1,
            if t[ti] == c {
                ti
            } else {
                best
            },
        );
    }
}

proof fn lemma_back(q: Seq<char>, t: Seq<char>, k: int, h: int, end: int)
    requires
        0 <= k <= q.len(),
        0 <= h <= end + 1 <= t.len(),
        bsub(q, t, k, h),
        fsub(q, t, k, h, end + 1),
    ensures
        0 <= back_start(q, t, k, h - 1) <= h,
        fsub(q, t, 0, back_start(q, t, k, h - 1), end + 1),
    decreases h,
{
    if k > 0 && h > 0 {
        if t[h - 1] == q[k - 1] {
            lemma_back(q, t, k - 1, h - 1, end);
        } else {
            if k < q.len() && t[h - 1] == q[k] {
                lemma_fsub_drop(q, t, k, h, end + 1);
            }
            lemma_back(q, t, k, h - 1, end);
        }
    }
}

proof fn lemma_picks(q: Seq<char>, t: Seq<char>, qi: int, ti: int, end: int)
    requires
        0 <= qi <= q.len(),
        0 <= ti <= end + 1 <= t.len(),
        fsub(q, t, qi, ti, end + 1),
    ensures
        ({
            let f = picks(q, t, qi, ti, end);
            &&& f.len() == q.len() - qi
            &&& forall|i: int|
                0 <= i < f.len() ==> ti <= #[trigger] f[i] <= end && t[f[i]] == q[qi + i]
            &&& forall|i: int, j: int| 0 <= i < j < f.len() ==> #[trigger] f[i] < #[trigger] f[j]
        }),
    decreases end + 1 - ti,
{
    if qi < q.len() && ti <= end {
        if t[ti] == q[qi] {
            lemma_picks(q, t, qi + 1, ti + 1, end);
            let rest = picks(q, t, qi + 1, ti + 1, end);
            let f = picks(q, t, qi, ti, end);
            assert(f == seq![ti] + rest);
            assert forall|i: int| 0 <= i < f.len() implies ti <= #[trigger] f[i] <= end && t[f[i]]
                == q[qi + i] by {
                if i > 0 {
                    assert(f[i] == rest[i - 1]);
                }
            }
            assert forall|i: int, j: int| 0 <= i < j < f.len() implies #[trigger] f[i]
                < #[trigger] f[j] by {
                assert(f[j] == rest[j - 1]);
                if i > 0 {
                    assert(f[i] == rest[i - 1]);
                }
            }
        } else {
            lemma_picks(q, t, qi, ti + 1, end);
        }
    }
}

proof fn lemma_embedding_found(q: Seq<char>, t: Seq<char>, f: Seq<int>, k: int, lo: int)
    requires
        embeds(q, t, f),
        0 <= k <= q.len(),
        0 <= lo <= t.len(),
        k < q.len() ==> lo <= f[k],
    ensures
        fsub(q, t, k, lo, t.len() as int),
    decreases t.len() - lo,
{
    if k < q.len() {
        assert(0 <= f[k] < t.len());
        if t[lo] == q[k] {
            if k + 1 < q.len() {
                assert(f[k] < f[k + 1]);
            }
            lemma_embedding_found(q, t, f, k + 1, lo + 1);
        } else {
            lemma_embedding_found(q, t, f, k, lo + 1);
        }
    }
}

/// A query is found exactly where its characters stand in the text in order, and the
/// places reported are such places.
pub proof fn law_match_is_subsequence(q: Seq<char>, t: Seq<char>)
    requires
        q.len() > 0,
    ensures
        window(q, t) is Some <==> exists|f: Seq<int>| embeds(q, t, f),
        window(q, t) matches Some((start, end)) ==> embeds(q, t, picks(q, t, 0, start, end)),
{
    lemma_forward(q, t, 0, 0);
    if let Some(e1) = forward_end(q, t, 0, 0) {
        let n = q.len() as int;
        if e1 < 0 {
            assert(bsub(q, t, n, 0));
        }
        let e2 = last_from(t, q.last(), e1 + 1, e1);
        lemma_last_from(t, q.last(), e1 + 1, e1);
        lemma_bsub_grow(q, t, n, e1 + 1, e2 + 1);
        lemma_back(q, t, n, e1 + 1, e1);
        lemma_back(q, t, n, e2 + 1, e2);
        let (start, end) = window(q, t)->0;
        lemma_picks(q, t, 0, start, end);
        assert(embeds(q, t, picks(q, t, 0, start, end)));
    }
    if exists|f: Seq<int>| embeds(q, t, f) {
        let f = choose|f: Seq<int>| embeds(q, t, f);
        assert(0 <= f[0]);
        lemma_embedding_found(q, t, f, 0, 0);
    }
}

proof fn lemma_stands_embeds(q: Seq<char>, t: Seq<char>, i: int)
    requires
        stands_at(q, t, i),
    ensures
        exists|f: Seq<int>| embeds(q, t, f),
{
    let f = Seq::new(q.len(), |j: int| i + j);
    assert forall|j: int| 0 <= j < f.len() implies 0 <= #[trigger] f[j] < t.len() && t[f[j]]
        == q[j] by {
        assert(t.subrange(i, i + q.len())[j] == t[i + j]);
    }
    assert(embeds(q, t, f));
}

proof fn lemma_substring_stands(
    q: Seq<char>,
    t: Seq<char>,
    text: Seq<char>,
    boundary_only: bool,
    i: int,
)
    ensures
        substring_from(q, t, text, boundary_only, i) matches Some(k) ==> stands_at(q, t, k),
    decreases t.len() + 1 - i,
{
    if 0 <= i && i + q.len() <= t.len() && !(stands_at(q, t, i) && (boundary_only && i > 0
        ==> spec_is_word_boundary(text[i - 1]))) {
        lemma_substring_stands(q, t, text, boundary_only, i + 1);
    }
}

/// A text matches a query exactly where the characters of the query stand in it in order.
pub proof fn law_classified_is_subsequence(q: Seq<char>, text: Seq<char>, idx: int)
    requires
        q.len() > 0,
    ensures
        classified(q, text, idx) is Some <==> exists|f: Seq<int>| embeds(q, folded(text), f),
{
    let t = folded(text);
    law_match_is_subsequence(q, t);
    lemma_substring_stands(q, t, text, true, 0);
    lemma_substring_stands(q, t, text, false, 0);
    if stands_at(q, t, 0) {
        lemma_stands_embeds(q, t, 0);
    } else if substring_from(q, t, text, true, 0) is Some {
        lemma_stands_embeds(q, t, substring_from(q, t, text, true, 0)->0);
    } else if substring_from(q, t, text, false, 0) is Some {
        lemma_stands_embeds(q, t, substring_from(q, t, text, false, 0)->0);
    }
}

/// Typing on narrows a search: what matches a query matches its start.
pub proof fn law_longer_query_narrows(q: Seq<char>, more: Seq<char>, text: Seq<char>, idx: int)
    requires
        classified(q + more, text, idx) is Some,
    ensures
        classified(q, text, idx) is Some,
{
    let t = folded(text);
    if q.len() == 0 {
        assert(t.subrange(0, 0) =~= q);
    } else {
        law_classified_is_subsequence(q + more, text, idx);
        law_classified_is_subsequence(q, text, idx);
        let f = choose|f: Seq<int>| embeds(q + more, t, f);
        let g = f.take(q.len() as int);
        assert forall|i: int| 0 <= i < g.len() implies 0 <= #[trigger] g[i] < t.len() && t[g[i]]
            == q[i] by {
            assert(g[i] == f[i]);
            assert((q + more)[i] == q[i]);
        }
        assert forall|i: int, j: int| 0 <= i < j < g.len() implies #[trigger] g[i]
            < #[trigger] g[j] by {
            assert(f[i] < f[j]);
        }
        assert(embeds(q, t, g));
    }
}

pub proof fn lemma_lowercased_concat(a: Seq<char>, b: Seq<char>)
    ensures
        lowercased(a + b) == lowercased(a) + lowercased(b),
    decreases b.len(),
{
    if b.len() == 0 {
        assert(a + b =~= a);
        assert(lowercased(a) + lowercased(b) =~= lowercased(a));
    } else {
        lemma_lowercased_concat(a, b.drop_last());
        assert((a + b).drop_last() =~= a + b.drop_last());
        assert(lowercased(a) + (lowercased(b.drop_last()) + lowercase_of(b.last())) =~= (
        lowercased(a) + lowercased(b.drop_last())) + lowercase_of(b.last()));
    }
}

} // verus!
