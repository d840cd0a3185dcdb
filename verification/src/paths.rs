//! File paths, taken apart and put together the way `std::path` does it on
//! Unix: components separated by '/', empty and "." components skipped
//! except for a leading "./", ".." never a file name.

use vstd::prelude::*;
use crate::text::{chars_of, push_char, push_chars};

verus! {

/// Index of the last '/' among the first `n` characters of `p`, or -1.
pub open spec fn last_sep_before(p: Seq<char>, n: int) -> int
    decreases n,
{
    if n <= 0 {
        -1
    } else if p[n - 1] == '/' {
        n - 1
    } else {
        last_sep_before(p, n - 1)
    }
}

pub proof fn lemma_last_sep_before_bounds(p: Seq<char>, n: int)
    ensures
        -1 <= last_sep_before(p, n) < n || (n <= 0 && last_sep_before(p, n) == -1),
        last_sep_before(p, n) >= 0 ==> p[last_sep_before(p, n)] == '/',
    decreases n,
{
    if n > 0 && p[n - 1] != '/' {
        lemma_last_sep_before_bounds(p, n - 1);
    }
}

/// The path starts at the root.
pub open spec fn has_root(p: Seq<char>) -> bool {
    p.len() > 0 && p[0] == '/'
}

/// The path starts with the current directory, "." alone or followed by '/'.
pub open spec fn has_cur_dir(p: Seq<char>) -> bool {
    !has_root(p) && p.len() > 0 && p[0] == '.' && (p.len() == 1 || p[1] == '/')
}

/// Length of what comes before the components proper: the root or a leading ".".
pub open spec fn body_start(p: Seq<char>) -> int {
    if has_root(p) || has_cur_dir(p) { 1 } else { 0 }
}

/// Where the last component of `p[..n]` starts.
pub open spec fn comp_start(p: Seq<char>, n: int, b: int) -> int {
    if last_sep_before(p, n) >= b { last_sep_before(p, n) + 1 } else { b }
}

/// Length of `p[..n]` once its last component and the '/' before it are gone.
pub open spec fn comp_cut(p: Seq<char>, n: int, b: int) -> int {
    if last_sep_before(p, n) >= b { last_sep_before(p, n) } else { b }
}

/// An empty or "." component, which paths skip.
pub open spec fn is_skipped(c: Seq<char>) -> bool {
    c.len() == 0 || (c.len() == 1 && c[0] == '.')
}

/// The component "..".
pub open spec fn is_parent_dir(c: Seq<char>) -> bool {
    c.len() == 2 && c[0] == '.' && c[1] == '.'
}

/// Length of `p[..n]` once trailing skipped components are gone, never below `b`.
pub open spec fn strip_back(p: Seq<char>, n: int, b: int) -> int
    decreases n,
{
    if n <= b || n > p.len() || b < 0 {
        n
    } else if is_skipped(p.subrange(comp_start(p, n, b), n)) {
        proof {
            lemma_last_sep_before_bounds(p, n);
        }
        strip_back(p, comp_cut(p, n, b), b)
    } else {
        n
    }
}

/// Length of `p` without its trailing separators and "." components.
pub open spec fn path_end(p: Seq<char>) -> int {
    strip_back(p, p.len() as int, body_start(p))
}

/// The last component of the path, unless it is "..", the root or absent
/// (`Path::file_name`).
pub open spec fn file_name(p: Seq<char>) -> Option<Seq<char>> {
    let b = body_start(p);
    let n = path_end(p);
    if n > b {
        let c = p.subrange(comp_start(p, n, b), n);
        if is_parent_dir(c) { None } else { Some(c) }
    } else {
        None
    }
}

/// Index of the last '.' in `name`, or -1.
pub open spec fn last_dot(name: Seq<char>) -> int {
    last_char_before(name, '.', name.len() as int)
}

/// Index of the last `c` among the first `n` characters of `s`, or -1.
pub open spec fn last_char_before(s: Seq<char>, c: char, n: int) -> int
    decreases n,
{
    if n <= 0 {
        -1
    } else if s[n - 1] == c {
        n - 1
    } else {
        last_char_before(s, c, n - 1)
    }
}

/// The file name without its extension (`Path::file_stem`): the part before
/// the last '.', or the whole name if it has no '.' or only a leading one.
pub open spec fn file_stem(p: Seq<char>) -> Option<Seq<char>> {
    match file_name(p) {
        Some(name) => if last_dot(name) > 0 { Some(name.subrange(0, last_dot(name))) } else { Some(name) },
        None => None,
    }
}

/// The extension of the file name (`Path::extension`): the part after the
/// last '.', if the name has a '.' that is not its first character.
pub open spec fn extension(p: Seq<char>) -> Option<Seq<char>> {
    match file_name(p) {
        Some(name) => if last_dot(name) > 0 { Some(name.subrange(last_dot(name) + 1, name.len() as int)) } else { None },
        None => None,
    }
}

/// The path without its last component (`Path::parent`): `None` for the
/// root or an empty path, "" for a lone file name or ".".
pub open spec fn parent(p: Seq<char>) -> Option<Seq<char>> {
    let b = body_start(p);
    let n = path_end(p);
    if n > b {
        Some(p.subrange(0, strip_back(p, comp_cut(p, n, b), b)))
    } else if has_cur_dir(p) {
        Some(Seq::empty())
    } else {
        None
    }
}

/// `name` appended to `base` (`Path::join`): a '/' goes between them unless
/// `base` is empty or already ends in one; an absolute `name` replaces `base`.
pub open spec fn join(base: Seq<char>, name: Seq<char>) -> Seq<char> {
    if has_root(name) {
        name
    } else if base.len() == 0 || base.last() == '/' {
        base + name
    } else {
        base + seq!['/'] + name
    }
}

/// The path with its extension replaced by `ext` (`Path::with_extension`):
/// cut right after the file stem, then '.' and `ext` unless `ext` is empty.
/// A path without a file name comes back unchanged.
pub open spec fn with_extension(p: Seq<char>, ext: Seq<char>) -> Seq<char> {
    match file_stem(p) {
        Some(stem) => {
            let cut = comp_start(p, path_end(p), body_start(p)) + stem.len();
            if ext.len() == 0 { p.subrange(0, cut) } else { p.subrange(0, cut) + seq!['.'] + ext }
        },
        None => p,
    }
}

// ---------------------------------------------------------------------------
// Executable versions

fn last_sep_before_exec(v: &Vec<char>, n: usize) -> (r: Option<usize>)
    requires
        n <= v@.len(),
    ensures
        match r {
            Some(k) => k as int == last_sep_before(v@, n as int) && k < n,
            None => last_sep_before(v@, n as int) == -1,
        },
{
    let mut i = n;
    while i > 0
        invariant
            i <= n <= v@.len(),
            last_sep_before(v@, i as int) == last_sep_before(v@, n as int),
        decreases i,
    {
        if v[i - 1] == '/' {
            return Some(i - 1);
        }
        i = i - 1;
    }
    None
}

fn has_root_exec(v: &Vec<char>) -> (r: bool)
    ensures
        r == has_root(v@),
{
    v.len() > 0 && v[0] == '/'
}

fn body_start_exec(v: &Vec<char>) -> (b: usize)
    ensures
        b as int == body_start(v@),
        b <= 1,
        b <= v@.len(),
{
    if v.len() > 0 && (v[0] == '/' || (v[0] == '.' && (v.len() == 1 || v[1] == '/'))) {
        1
    } else {
        0
    }
}

fn comp_bounds(v: &Vec<char>, n: usize, b: usize) -> (r: (usize, usize))
    requires
        b < n <= v@.len(),
    ensures
        r.0 as int == comp_start(v@, n as int, b as int),
        r.1 as int == comp_cut(v@, n as int, b as int),
        b <= r.1 < n,
        r.1 <= r.0 <= n,
{
    match last_sep_before_exec(v, n) {
        Some(k) => if k >= b { (k + 1, k) } else { (b, b) },
        None => (b, b),
    }
}

fn is_skipped_exec(v: &Vec<char>, s: usize, n: usize) -> (r: bool)
    requires
        s <= n <= v@.len(),
    ensures
        r == is_skipped(v@.subrange(s as int, n as int)),
{
    n == s || (n == s + 1 && v[s] == '.')
}

fn strip_back_exec(v: &Vec<char>, n: usize, b: usize) -> (m: usize)
    requires
        b <= n <= v@.len(),
    ensures
        m as int == strip_back(v@, n as int, b as int),
        b <= m <= n,
{
    let mut m = n;
    while m > b
        invariant
            b <= m <= n <= v@.len(),
            strip_back(v@, m as int, b as int) == strip_back(v@, n as int, b as int),
        decreases m,
    {
        let (s, cut) = comp_bounds(v, m, b);
        if is_skipped_exec(v, s, m) {
            m = cut;
        } else {
            return m;
        }
    }
    m
}

/// Where the file name lies in the path: `(start, end)`, if there is one.
fn file_name_bounds(v: &Vec<char>) -> (r: Option<(usize, usize)>)
    ensures
        match r {
            Some((s, e)) => {
                &&& file_name(v@) == Some(v@.subrange(s as int, e as int))
                &&& s <= e <= v@.len()
                &&& s as int == comp_start(v@, path_end(v@), body_start(v@))
                &&& e as int == path_end(v@)
            },
            None => file_name(v@) is None,
        },
{
    let b = body_start_exec(v);
    let n = strip_back_exec(v, v.len(), b);
    if n > b {
        let (s, _cut) = comp_bounds(v, n, b);
        if n - s == 2 && v[s] == '.' && v[s + 1] == '.' {
            None
        } else {
            Some((s, n))
        }
    } else {
        None
    }
}

fn string_of(v: &Vec<char>, from: usize, to: usize) -> (s: String)
    requires
        from <= to <= v@.len(),
    ensures
        s@ == v@.subrange(from as int, to as int),
{
    let mut s = String::new();
    push_chars(&mut s, v, from, to);
    assert(s@ =~= v@.subrange(from as int, to as int));
    s
}

/// The last component of `path`, as `Path::file_name` gives it.
pub fn path_file_name(path: &str) -> (r: Option<String>)
    ensures
        match r {
            Some(s) => file_name(path@) == Some(s@),
            None => file_name(path@) is None,
        },
{
    let v = chars_of(path);
    match file_name_bounds(&v) {
        Some((s, e)) => Some(string_of(&v, s, e)),
        None => None,
    }
}


/// Where the last '.' of the file name lies, if it is not the name's first
/// character: the stem ends there and the extension follows it.
fn stem_end(v: &Vec<char>, s: usize, e: usize) -> (r: Option<usize>)
    requires
        s <= e <= v@.len(),
    ensures
        ({
            let name = v@.subrange(s as int, e as int);
            match r {
                Some(d) => last_dot(name) > 0 && d as int == s + last_dot(name) && s < d < e,
                None => last_dot(name) <= 0,
            }
        }),
{
    let ghost name = v@.subrange(s as int, e as int);
    let mut i = e;
    while i > s
        invariant
            s <= i <= e <= v@.len(),
            name == v@.subrange(s as int, e as int),
            last_char_before(name, '.', (i - s) as int) == last_dot(name),
        decreases i,
    {
        if v[i - 1] == '.' {
            assert(name[(i - s) - 1] == v@[i - 1]);
            if i - 1 > s {
                return Some(i - 1);
            } else {
                return None;
            }
        }
        assert(name[(i - s) - 1] == v@[i - 1]);
        i = i - 1;
    }
    None
}

/// The file name of `path` without its extension, as `Path::file_stem` gives it.
pub fn path_file_stem(path: &str) -> (r: Option<String>)
    ensures
        match r {
            Some(s) => file_stem(path@) == Some(s@),
            None => file_stem(path@) is None,
        },
{
    let v = chars_of(path);
    match file_name_bounds(&v) {
        Some((s, e)) => match stem_end(&v, s, e) {
            Some(d) => {
                let r = string_of(&v, s, d);
                assert(r@ =~= v@.subrange(s as int, e as int).subrange(0, d - s));
                Some(r)
            },
            None => Some(string_of(&v, s, e)),
        },
        None => None,
    }
}

/// The extension of `path`, as `Path::extension` gives it.
pub fn path_extension(path: &str) -> (r: Option<String>)
    ensures
        match r {
            Some(s) => extension(path@) == Some(s@),
            None => extension(path@) is None,
        },
{
    let v = chars_of(path);
    match file_name_bounds(&v) {
        Some((s, e)) => match stem_end(&v, s, e) {
            Some(d) => {
                let r = string_of(&v, d + 1, e);
                assert(r@ =~= v@.subrange(s as int, e as int).subrange(d - s + 1, e - s));
                Some(r)
            },
            None => None,
        },
        None => None,
    }
}

/// `path` without its last component, as `Path::parent` gives it.
pub fn path_parent(path: &str) -> (r: Option<String>)
    ensures
        match r {
            Some(s) => parent(path@) == Some(s@),
            None => parent(path@) is None,
        },
{
    let v = chars_of(path);
    let b = body_start_exec(&v);
    let n = strip_back_exec(&v, v.len(), b);
    if n > b {
        let (_s, cut) = comp_bounds(&v, n, b);
        let m = strip_back_exec(&v, cut, b);
        Some(string_of(&v, 0, m))
    } else if v.len() > 0 && v[0] == '.' && (v.len() == 1 || v[1] == '/') {
        let r = String::new();
        assert(r@ =~= Seq::<char>::empty());
        Some(r)
    } else {
        None
    }
}

/// `name` appended to `base`, as `Path::join` does it.
pub fn path_join(base: &str, name: &str) -> (r: String)
    ensures
        r@ == join(base@, name@),
{
    let nv = chars_of(name);
    let bv = chars_of(base);
    let mut r = String::new();
    if has_root_exec(&nv) {
        r.append(name);
    } else {
        r.append(base);
        if bv.len() > 0 && bv[bv.len() - 1] != '/' {
            push_char(&mut r, '/');
        }
        r.append(name);
    }
    assert(r@ =~= join(base@, name@));
    r
}

/// `path` with its extension replaced by `ext`, as `Path::with_extension` does it.
pub fn path_with_extension(path: &str, ext: &str) -> (r: String)
    ensures
        r@ == with_extension(path@, ext@),
{
    let v = chars_of(path);
    let ev = chars_of(ext);
    match file_name_bounds(&v) {
        Some((s, e)) => {
            let cut = match stem_end(&v, s, e) {
                Some(d) => d,
                None => e,
            };
            let mut r = string_of(&v, 0, cut);
            if ev.len() > 0 {
                push_char(&mut r, '.');
                r.append(ext);
            }
            proof {
                let name = v@.subrange(s as int, e as int);
                let stem = file_stem(path@).unwrap();
                if last_dot(name) > 0 {
                    assert(stem == name.subrange(0, last_dot(name)));
                } else {
                    assert(stem == name);
                }
                assert(cut == comp_start(v@, path_end(v@), body_start(v@)) + stem.len());
            }
            assert(r@ =~= with_extension(path@, ext@));
            r
        },
        None => {
            let mut r = String::new();
            r.append(path);
            assert(r@ =~= with_extension(path@, ext@));
            r
        },
    }
}


// ---------------------------------------------------------------------------
// Laws

proof fn lemma_last_sep_no_sep(p: Seq<char>, k: int, n: int)
    requires
        0 <= k <= n <= p.len(),
        forall|j: int| k <= j < n ==> p[j] != '/',
    ensures
        last_sep_before(p, n) == last_sep_before(p, k),
    decreases n - k,
{
    if n > k {
        lemma_last_sep_no_sep(p, k, n - 1);
    }
}

proof fn lemma_last_sep_prefix(p: Seq<char>, q: Seq<char>, n: int)
    requires
        0 <= n <= p.len(),
        n <= q.len(),
        forall|j: int| 0 <= j < n ==> p[j] == q[j],
    ensures
        last_sep_before(p, n) == last_sep_before(q, n),
    decreases n,
{
    if n > 0 {
        lemma_last_sep_prefix(p, q, n - 1);
    }
}

proof fn lemma_no_sep_after_last(p: Seq<char>, n: int)
    requires
        0 <= n <= p.len(),
    ensures
        forall|j: int| last_sep_before(p, n) < j < n ==> p[j] != '/',
    decreases n,
{
    if n > 0 && p[n - 1] != '/' {
        lemma_no_sep_after_last(p, n - 1);
    }
}

proof fn lemma_strip_back_prefix(p: Seq<char>, q: Seq<char>, n: int, b: int)
    requires
        0 <= b,
        0 <= n <= p.len(),
        n <= q.len(),
        forall|j: int| 0 <= j < n ==> p[j] == q[j],
    ensures
        strip_back(p, n, b) == strip_back(q, n, b),
    decreases n,
{
    if n > b {
        lemma_last_sep_prefix(p, q, n);
        lemma_last_sep_before_bounds(p, n);
        let s = comp_start(p, n, b);
        assert(p.subrange(s, n) =~= q.subrange(s, n));
        if is_skipped(p.subrange(s, n)) {
            lemma_strip_back_prefix(p, q, comp_cut(p, n, b), b);
        }
    }
}

proof fn lemma_strip_back_bounds(p: Seq<char>, n: int, b: int)
    requires
        0 <= b <= n <= p.len(),
    ensures
        b <= strip_back(p, n, b) <= n,
        strip_back(p, n, b) > b ==> !is_skipped(
            p.subrange(comp_start(p, strip_back(p, n, b), b), strip_back(p, n, b)),
        ),
    decreases n,
{
    if n > b {
        lemma_last_sep_before_bounds(p, n);
        if is_skipped(p.subrange(comp_start(p, n, b), n)) {
            lemma_strip_back_bounds(p, comp_cut(p, n, b), b);
        }
    }
}

/// Where the last component of `p[..n]` starts, it runs free of '/' up to `n`.
proof fn lemma_component_has_no_sep(p: Seq<char>, n: int, b: int)
    requires
        0 <= b <= n <= p.len(),
    ensures
        b <= comp_start(p, n, b) <= n,
        forall|j: int| comp_start(p, n, b) <= j < n ==> p[j] != '/',
{
    lemma_no_sep_after_last(p, n);
    lemma_last_sep_before_bounds(p, n);
}

/// A file name is not empty, not "." or "..", and holds no '/'.
pub proof fn lemma_file_name_shape(p: Seq<char>)
    ensures
        file_name(p) matches Some(c) ==> !is_skipped(c) && !is_parent_dir(c) && !c.contains('/'),
{
    let b = body_start(p);
    lemma_strip_back_bounds(p, p.len() as int, b);
    let n = path_end(p);
    if n > b {
        lemma_component_has_no_sep(p, n, b);
        let c = p.subrange(comp_start(p, n, b), n);
        if c.contains('/') {
            let j = choose|j: int| 0 <= j < c.len() && c[j] == '/';
            assert(p[comp_start(p, n, b) + j] == '/');
        }
    }
}

/// A name that can stand as a file name: not empty, not "." or "..", no '/'.
pub open spec fn plain_name(n: Seq<char>) -> bool {
    !is_skipped(n) && !is_parent_dir(n) && !n.contains('/')
}

/// Joining a plain name, the name starts at the end of what came before.
proof fn lemma_join_plain(base: Seq<char>, name: Seq<char>)
    requires
        plain_name(name),
    ensures
        ({
            let p = join(base, name);
            let at = p.len() - name.len();
            &&& p.subrange(at, p.len() as int) == name
            &&& body_start(p) <= at
            &&& comp_start(p, p.len() as int, body_start(p)) == at
            &&& path_end(p) == p.len()
        }),
{
    let p = join(base, name);
    let at = p.len() - name.len();
    assert(!has_root(name)) by {
        if has_root(name) {
            assert(name.contains(name[0]));
        }
    }
    assert(p.subrange(at, p.len() as int) =~= name);
    assert forall|j: int| at <= j < p.len() implies p[j] != '/' by {
        assert(p[j] == name[j - at]);
        if name[j - at] == '/' {
            assert(name.contains(name[j - at]));
        }
    }
    lemma_last_sep_no_sep(p, at, p.len() as int);
    let bs = body_start(p);
    if base.len() == 0 {
        assert(p =~= name);
        assert(at == 0);
        assert(!has_cur_dir(name)) by {
            if has_cur_dir(name) {
                if name.len() == 1 {
                } else {
                    assert(name.contains(name[1]));
                }
            }
        }
        assert(last_sep_before(p, 0) == -1);
        assert(p.subrange(0, at) =~= base);
    } else {
        assert(p[at - 1] == '/');
        assert(last_sep_before(p, at) == at - 1);
        if base.last() == '/' {
            assert(p.subrange(0, at) =~= base);
        } else {
            assert(p.subrange(0, at - 1) =~= base);
            assert(p.subrange(0, at) =~= base + seq!['/']);
        }
    }
    lemma_last_sep_before_bounds(p, p.len() as int);
    assert(bs <= at);
    assert(comp_start(p, p.len() as int, bs) == at);
    assert(p.subrange(at, p.len() as int) == name);
    assert(p.len() > bs);
    assert(!is_skipped(p.subrange(comp_start(p, p.len() as int, bs), p.len() as int)));
    assert(strip_back(p, p.len() as int, bs) == p.len());
}

/// Law: replacing the extension of a joined plain name that has one cuts
/// the path right after the name's stem.
pub proof fn with_extension_of_join(base: Seq<char>, name: Seq<char>, ext: Seq<char>)
    requires
        plain_name(name),
        last_dot(name) > 0,
        ext.len() > 0,
    ensures
        ({
            let p = join(base, name);
            &&& p.subrange(p.len() - name.len(), p.len() as int) == name
            &&& with_extension(p, ext) == p.subrange(0, p.len() - name.len() + last_dot(name)) + seq!['.'] + ext
        }),
{
    lemma_join_plain(base, name);
    lemma_last_char_before_bounds(name, '.', name.len() as int);
    let p = join(base, name);
    assert(file_name(p) == Some(name));
    assert(file_stem(p) == Some(name.subrange(0, last_dot(name))));
}

/// The last `c` before `n` lies before `n`, or there is none (-1).
pub proof fn lemma_last_char_before_bounds(s: Seq<char>, c: char, n: int)
    requires
        0 <= n <= s.len(),
    ensures
        -1 <= last_char_before(s, c, n) < n,
        last_char_before(s, c, n) >= 0 ==> s[last_char_before(s, c, n)] == c,
    decreases n,
{
    if n > 0 && s[n - 1] != c {
        lemma_last_char_before_bounds(s, c, n - 1);
    }
}

/// Law: a plain name after a '/' is the file name, whatever comes before.
pub proof fn file_name_after_separator(dir: Seq<char>, name: Seq<char>)
    requires
        plain_name(name),
    ensures
        file_name(dir + seq!['/'] + name) == Some(name),
{
    let q = dir + seq!['/'];
    let p = q + name;
    assert(p =~= dir + seq!['/'] + name);
    let len = p.len() as int;
    let at = q.len() as int;
    assert(p.subrange(at, len) =~= name);
    assert forall|j: int| at <= j < len implies p[j] != '/' by {
        assert(p[j] == name[j - at]);
        if name[j - at] == '/' {
            assert(name.contains(name[j - at]));
        }
    }
    lemma_last_sep_no_sep(p, at, len);
    assert(p[at - 1] == '/');
    assert(last_sep_before(p, at) == at - 1);
    let bs = body_start(p);
    assert(bs <= at);
    assert(comp_start(p, len, bs) == at);
    assert(len > bs);
    assert(!is_skipped(p.subrange(at, len)));
    assert(path_end(p) == len);
}

/// Law: a plain name joined to any base makes a stable directory, one that
/// `parent` gives back below a further joined name.
pub proof fn join_plain_is_stable(base: Seq<char>, name: Seq<char>)
    requires
        plain_name(name),
    ensures
        stable_dir(join(base, name)),
{
    lemma_join_plain(base, name);
    let p = join(base, name);
    assert(p.last() == name.last()) by {
        assert(p.last() == p.subrange(p.len() - name.len(), p.len() as int)[name.len() - 1]);
    }
    if name.last() == '/' {
        assert(name.contains(name[name.len() - 1]));
    }
}

/// Law: joining a plain name gives a path whose file name is that name.
pub proof fn file_name_of_join(base: Seq<char>, name: Seq<char>)
    requires
        plain_name(name),
    ensures
        file_name(join(base, name)) == Some(name),
{
    lemma_join_plain(base, name);
}


/// A directory path that `parent` gives back unchanged below a joined name:
/// empty, the root, or ending in a component that is kept.
pub open spec fn stable_dir(d: Seq<char>) -> bool {
    ||| d.len() == 0
    ||| d == seq!['/']
    ||| (d.last() != '/' && strip_back(d, d.len() as int, body_start(d)) == d.len())
}

/// Law: the parent of a plain name joined to a stable directory is that directory.
pub proof fn parent_of_join(d: Seq<char>, name: Seq<char>)
    requires
        plain_name(name),
        stable_dir(d),
    ensures
        parent(join(d, name)) == Some(d),
{
    lemma_join_plain(d, name);
    let p = join(d, name);
    let len = p.len() as int;
    let at = len - name.len();
    let bs = body_start(p);
    assert forall|j: int| at <= j < len implies p[j] != '/' by {
        assert(p[j] == p.subrange(at, len)[j - at]);
        if name[j - at] == '/' {
            assert(name.contains(name[j - at]));
        }
    }
    lemma_last_sep_no_sep(p, at, len);
    if d.len() == 0 {
        assert(at == 0);
        assert(p.subrange(0, 0) =~= d);
    } else if d == seq!['/'] {
        assert(at == 1);
        assert(p[0] == '/');
        assert(bs == 1);
        assert(last_sep_before(p, 1) == 0);
        assert(p.subrange(0, 1) =~= d);
    } else {
        let dl = d.len() as int;
        assert(p =~= d + seq!['/'] + name);
        assert(at == dl + 1);
        assert(last_sep_before(p, at) == dl);
        assert(body_start(p) == body_start(d)) by {
            if dl >= 2 {
                assert(p[1] == d[1]);
            }
        }
        assert(forall|j: int| 0 <= j < dl ==> p[j] == d[j]);
        lemma_strip_back_prefix(p, d, dl, bs);
        assert(p.subrange(0, dl) =~= d);
    }
}

/// Law: what `parent` gives is a stable directory, so a name joined to it
/// has it for parent again.
pub proof fn parent_is_stable(v: Seq<char>)
    ensures
        parent(v) matches Some(d) ==> stable_dir(d),
{
    let bs = body_start(v);
    lemma_strip_back_bounds(v, v.len() as int, bs);
    let n = path_end(v);
    if n > bs {
        lemma_last_sep_before_bounds(v, n);
        let cut = comp_cut(v, n, bs);
        lemma_strip_back_bounds(v, cut, bs);
        let m = strip_back(v, cut, bs);
        let d = v.subrange(0, m);
        if m == bs {
            if bs == 1 {
                if has_root(v) {
                    assert(d =~= seq!['/']);
                } else {
                    assert(d.last() == '.');
                    assert(body_start(d) == 1);
                }
            }
        } else {
            lemma_component_has_no_sep(v, m, bs);
            let cs = comp_start(v, m, bs);
            let c = v.subrange(cs, m);
            assert(!is_skipped(c));
            assert(c.len() >= 1);
            assert(v[m - 1] == c[c.len() - 1]);
            assert(d.last() == v[m - 1]);
            assert(body_start(d) == bs) by {
                if m >= 2 {
                    assert(d[0] == v[0] && d[1] == v[1]);
                } else {
                    assert(cs == 0);
                    assert(c[0] == v[0]);
                }
            }
            assert(forall|j: int| 0 <= j < m ==> d[j] == v[j]);
            lemma_strip_back_prefix(d, v, m, bs);
        }
    }
}

} // verus!
