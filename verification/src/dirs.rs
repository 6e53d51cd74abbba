//! File paths as text: their parts, their parents, and names joined to them.
use vstd::prelude::*;

use crate::text::{chars_of, push_str, split, split_on, str_eq, string_of, strs, substring};

verus! {

/// Whether a piece between slashes is a part of the path: empty pieces and dots are not, but for
/// a dot that a relative path starts with.
pub open spec fn is_part(pieces: Seq<Seq<char>>, i: int) -> bool {
    pieces[i] != ""@ && (pieces[i] != "."@ || i == 0)
}

/// The parts among the pieces from `i` on.
pub open spec fn parts_from(pieces: Seq<Seq<char>>, i: int) -> Seq<Seq<char>>
    decreases pieces.len() - i,
{
    if i >= pieces.len() {
        Seq::empty()
    } else if is_part(pieces, i) {
        seq![pieces[i]] + parts_from(pieces, i + 1)
    } else {
        parts_from(pieces, i + 1)
    }
}

/// The parts of a path: the root, where the path starts at it, then the names.
pub open spec fn parts(path: Seq<char>) -> Seq<Seq<char>> {
    if path.len() > 0 && path[0] == '/' {
        seq!["/"@] + parts_from(split(path, '/'), 0)
    } else {
        parts_from(split(path, '/'), 0)
    }
}

/// The parts of a path.
pub fn parts_of(path: &str) -> (r: Vec<String>)
    ensures
        strs(r@) == parts(path@),
{
    let s = chars_of(path);
    let mut out: Vec<String> = Vec::new();
    if s.len() > 0 && s[0] == '/' {
        out.push(String::from_str("/"));
        assert(strs(out@) =~= seq!["/"@]);
    }
    let pieces = split_on(&s, '/');
    let ghost all = strs(pieces@);
    let ghost front = strs(out@);
    let mut i: usize = 0;
    assert(front + parts_from(all, 0) =~= strs(out@) + parts_from(all, 0));
    assert(s@.len() == 0 || s@[0] != '/' ==> front =~= Seq::empty());
    while i < pieces.len()
        invariant
            i <= pieces.len(),
            all == strs(pieces@),
            front + parts_from(all, 0) == strs(out@) + parts_from(all, i as int),
        decreases pieces.len() - i,
    {
        assert(all[i as int] == pieces@[i as int]@);
        if !str_eq(pieces[i].as_str(), "") && (i == 0 || !str_eq(pieces[i].as_str(), ".")) {
            let ghost had = strs(out@);
            let piece = pieces[i].clone();
            out.push(piece);
            assert(strs(out@) =~= had + seq![all[i as int]]);
            assert(had + (seq![all[i as int]] + parts_from(all, i + 1)) =~= (had
                + seq![all[i as int]]) + parts_from(all, i + 1));
        }
        i += 1;
    }
    assert(strs(out@) + parts_from(all, i as int) =~= strs(out@));
    assert(front + parts_from(all, 0) =~= parts(path@));
    out
}

/// Whether a path is another one or lies below it.
pub open spec fn within(path: Seq<char>, dir: Seq<char>) -> bool {
    parts(dir).len() <= parts(path).len() && parts(path).take(parts(dir).len() as int) == parts(
        dir,
    )
}

/// Whether a path is another one or lies below it.
pub fn is_within(path: &str, dir: &str) -> (r: bool)
    ensures
        r == within(path@, dir@),
{
    let a = parts_of(path);
    let b = parts_of(dir);
    let ghost av = strs(a@);
    let ghost bv = strs(b@);
    assert(av.len() == a@.len() && bv.len() == b@.len());
    if b.len() > a.len() {
        return false;
    }
    let mut i: usize = 0;
    while i < b.len()
        invariant
            i <= b.len() <= a.len(),
            av == strs(a@),
            bv == strs(b@),
            av == parts(path@),
            bv == parts(dir@),
            av.len() == a@.len(),
            bv.len() == b@.len(),
            forall|k: int| 0 <= k < i ==> av[k] == bv[k],
        decreases b.len() - i,
    {
        assert(av[i as int] == a@[i as int]@ && bv[i as int] == b@[i as int]@);
        if !str_eq(a[i].as_str(), b[i].as_str()) {
            assert(av.take(bv.len() as int)[i as int] != bv[i as int]);
            return false;
        }
        i += 1;
    }
    assert(av.take(bv.len() as int) =~= bv);
    true
}

/// Where the last part of the first `n` characters ends: slashes and dots behind it do not count.
pub open spec fn path_end(s: Seq<char>, n: int) -> int
    decreases n,
{
    if n <= 0 {
        0
    } else if n == 1 {
        1
    } else if s[n - 1] == '/' || (s[n - 1] == '.' && s[n - 2] == '/') {
        path_end(s, n - 1)
    } else {
        n
    }
}

proof fn lemma_path_end(s: Seq<char>, n: int)
    requires
        n >= 0,
    ensures
        0 <= path_end(s, n) <= n,
        n > 0 ==> path_end(s, n) > 0,
    decreases n,
{
    if n > 1 {
        lemma_path_end(s, n - 1);
    }
}

/// Where the last name of the first `n` characters starts.
pub open spec fn name_start(s: Seq<char>, n: int) -> int
    decreases n,
{
    if n <= 0 || s[n - 1] == '/' {
        n
    } else {
        name_start(s, n - 1)
    }
}

proof fn lemma_name_start(s: Seq<char>, n: int)
    requires
        n >= 0,
    ensures
        0 <= name_start(s, n) <= n,
    decreases n,
{
    if n > 0 && s[n - 1] != '/' {
        lemma_name_start(s, n - 1);
    }
}

/// The path above a path. The root and the empty path have none.
pub open spec fn parent(s: Seq<char>) -> Option<Seq<char>> {
    let e = path_end(s, s.len() as int);
    if e == 0 || (e == 1 && s[0] == '/') {
        None
    } else {
        Some(s.take(path_end(s, name_start(s, e))))
    }
}

pub proof fn lemma_parent_shorter(s: Seq<char>)
    ensures
        parent(s) is Some ==> parent(s)->0.len() < s.len(),
{
    let n = s.len() as int;
    lemma_path_end(s, n);
    let e = path_end(s, n);
    if parent(s) is Some {
        lemma_name_before(s, n);
        lemma_name_start(s, e);
        lemma_path_end(s, name_start(s, e));
    }
}

/// What does not end in a slash has a name at its end.
proof fn lemma_name_before(s: Seq<char>, n: int)
    requires
        0 < n <= s.len(),
        !(path_end(s, n) == 1 && s[0] == '/'),
    ensures
        name_start(s, path_end(s, n)) < path_end(s, n),
    decreases n,
{
    if n > 1 {
        lemma_path_end(s, n - 1);
    }
    if n > 1 && path_end(s, n) != n {
        lemma_name_before(s, n - 1);
    } else {
        lemma_name_start(s, n - 1);
    }
}

fn find_path_end(s: &Vec<char>, n: usize) -> (r: usize)
    requires
        n <= s.len(),
    ensures
        r == path_end(s@, n as int),
        r <= n,
{
    let mut k: usize = n;
    while k > 1 && (s[k - 1] == '/' || (s[k - 1] == '.' && s[k - 2] == '/'))
        invariant
            k <= n <= s.len(),
            path_end(s@, k as int) == path_end(s@, n as int),
        decreases k,
    {
        k -= 1;
    }
    k
}

fn find_name_start(s: &Vec<char>, n: usize) -> (r: usize)
    requires
        n <= s.len(),
    ensures
        r == name_start(s@, n as int),
        r <= n,
{
    let mut k: usize = n;
    while k > 0 && s[k - 1] != '/'
        invariant
            k <= n <= s.len(),
            name_start(s@, k as int) == name_start(s@, n as int),
        decreases k,
    {
        k -= 1;
    }
    k
}

/// The path above a path.
pub fn parent_of(path: &str) -> (r: Option<String>)
    ensures
        match (r, parent(path@)) {
            (Some(p), Some(q)) => p@ == q,
            (None, None) => true,
            _ => false,
        },
{
    let s = chars_of(path);
    let e = find_path_end(&s, s.len());
    if e == 0 || (e == 1 && s[0] == '/') {
        return None;
    }
    let k = find_name_start(&s, e);
    let end = find_path_end(&s, k);
    assert(s@.subrange(0, end as int) =~= s@.take(end as int));
    Some(substring(&s, 0, end))
}

/// The name at the end of a path. The root, dots and the empty path have none.
pub open spec fn file_name(s: Seq<char>) -> Option<Seq<char>> {
    let e = path_end(s, s.len() as int);
    let name = s.subrange(name_start(s, e), e);
    if parent(s) is None || name == "."@ || name == ".."@ {
        None
    } else {
        Some(name)
    }
}

/// The name at the end of a path.
pub fn file_name_of(path: &str) -> (r: Option<String>)
    ensures
        match (r, file_name(path@)) {
            (Some(p), Some(q)) => p@ == q,
            (None, None) => true,
            _ => false,
        },
{
    let s = chars_of(path);
    let e = find_path_end(&s, s.len());
    if e == 0 || (e == 1 && s[0] == '/') {
        return None;
    }
    let k = find_name_start(&s, e);
    let name = substring(&s, k, e);
    if str_eq(name.as_str(), ".") || str_eq(name.as_str(), "..") {
        None
    } else {
        Some(name)
    }
}

/// A path with another name at its end.
pub open spec fn renamed(s: Seq<char>, name: Seq<char>) -> Seq<char> {
    if file_name(s) is Some {
        joined_path(parent(s)->0, name)
    } else {
        joined_path(s, name)
    }
}

/// A path with another name at its end. Where it has none the name is added.
pub fn with_file_name(path: &str, name: &str) -> (r: String)
    ensures
        r@ == renamed(path@, name@),
{
    if file_name_of(path).is_some() {
        if let Some(dir) = parent_of(path) {
            return join_path(dir.as_str(), name);
        }
    }
    join_path(path, name)
}

/// A path and all the paths above it.
pub open spec fn ancestors(s: Seq<char>) -> Seq<Seq<char>>
    decreases s.len(),
{
    proof {
        lemma_parent_shorter(s);
    }
    match parent(s) {
        Some(p) => seq![s] + ancestors(p),
        None => seq![s],
    }
}

/// A path and all the paths above it.
pub fn ancestors_of(path: &str) -> (r: Vec<String>)
    ensures
        strs(r@) == ancestors(path@),
        r.len() >= 1,
{
    let mut out: Vec<String> = Vec::new();
    let mut at = string_of(chars_of(path).as_slice());
    assert(strs(out@) + ancestors(at@) =~= ancestors(path@));
    loop
        invariant
            strs(out@) + ancestors(at@) == ancestors(path@),
        decreases at@.len(),
    {
        let up = parent_of(at.as_str());
        let ghost had = strs(out@);
        let ghost av = at@;
        proof {
            lemma_parent_shorter(av);
        }
        out.push(at);
        assert(strs(out@) =~= had + seq![av]);
        match up {
            Some(p) => {
                assert(had + (seq![av] + ancestors(p@)) =~= (had + seq![av]) + ancestors(p@));
                at = p;
            },
            None => {
                return out;
            },
        }
    }
}

/// A name below a path.
pub open spec fn joined_path(dir: Seq<char>, name: Seq<char>) -> Seq<char> {
    if name.len() > 0 && name[0] == '/' {
        name
    } else if dir.len() == 0 || dir.last() == '/' {
        dir + name
    } else {
        dir.push('/') + name
    }
}

/// A name below a path. A name that starts at the root stands for itself.
pub fn join_path(dir: &str, name: &str) -> (r: String)
    ensures
        r@ == joined_path(dir@, name@),
{
    let n = chars_of(name);
    if n.len() > 0 && n[0] == '/' {
        return string_of(n.as_slice());
    }
    let mut d = chars_of(dir);
    if d.len() > 0 && d[d.len() - 1] != '/' {
        d.push('/');
    }
    push_str(&mut d, name);
    string_of(d.as_slice())
}

/// A path lies within itself, and within every path that holds one it lies in.
pub proof fn law_within_orders(a: Seq<char>, b: Seq<char>, c: Seq<char>)
    ensures
        within(a, a),
        within(a, b) && within(b, c) ==> within(a, c),
{
    assert(parts(a).take(parts(a).len() as int) =~= parts(a));
    if within(a, b) && within(b, c) {
        let n = parts(c).len() as int;
        assert(parts(a).take(n) =~= parts(a).take(parts(b).len() as int).take(n));
    }
}

} // verus!
