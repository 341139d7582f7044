//! Small operations on strings and '/'-separated paths.

use vstd::prelude::*;

verus! {

/// Whether two strings hold the same characters.
pub fn str_eq(a: &str, b: &str) -> (r: bool)
    ensures
        r == (a@ == b@),
{
    let n = a.unicode_len();
    if n != b.unicode_len() {
        return false;
    }
    let mut i: usize = 0;
    while i < n
        invariant
            n == a@.len() == b@.len(),
            i <= n,
            a@.subrange(0, i as int) == b@.subrange(0, i as int),
        decreases n - i,
    {
        if a.get_char(i) != b.get_char(i) {
            assert(a@[i as int] != b@[i as int]);
            return false;
        }
        assert(a@.subrange(0, i + 1) =~= a@.subrange(0, i as int).push(a@[i as int]));
        assert(b@.subrange(0, i + 1) =~= b@.subrange(0, i as int).push(b@[i as int]));
        i = i + 1;
    }
    assert(a@ =~= a@.subrange(0, n as int));
    assert(b@ =~= b@.subrange(0, n as int));
    true
}

pub open spec fn ends_with(s: Seq<char>, suffix: Seq<char>) -> bool {
    suffix.len() <= s.len() && s.subrange(s.len() - suffix.len(), s.len() as int) == suffix
}

/// Whether `s` ends with `suffix`.
pub fn str_ends_with(s: &str, suffix: &str) -> (r: bool)
    ensures
        r == ends_with(s@, suffix@),
{
    let n = s.unicode_len();
    let m = suffix.unicode_len();
    if m > n {
        return false;
    }
    let tail = s.substring_char(n - m, n);
    str_eq(tail, suffix)
}

/// The index of the last '/' in `s`, if any.
pub open spec fn last_slash(s: Seq<char>) -> Option<int>
    decreases s.len(),
{
    if s.len() == 0 {
        None
    } else if s.last() == '/' {
        Some(s.len() - 1)
    } else {
        last_slash(s.drop_last())
    }
}

proof fn lemma_last_slash_bounds(s: Seq<char>)
    ensures
        last_slash(s) matches Some(i) ==> 0 <= i < s.len() && s[i] == '/',
    decreases s.len(),
{
    if s.len() > 0 && s.last() != '/' {
        lemma_last_slash_bounds(s.drop_last());
    }
}

/// The final component of a path: what follows its last '/'.
pub open spec fn file_name(s: Seq<char>) -> Seq<char> {
    match last_slash(s) {
        Some(i) => s.subrange(i + 1, s.len() as int),
        None => s,
    }
}

/// The directory of a path: what precedes its last '/' (empty without one).
pub open spec fn parent(s: Seq<char>) -> Seq<char> {
    match last_slash(s) {
        Some(i) => s.subrange(0, i),
        None => Seq::empty(),
    }
}

fn find_last_slash(s: &str) -> (r: Option<usize>)
    ensures
        r matches Some(i) ==> last_slash(s@) == Some(i as int),
        r is None ==> last_slash(s@) is None,
{
    let n = s.unicode_len();
    let mut i: usize = n;
    assert(s@.subrange(0, n as int) =~= s@);
    while i > 0
        invariant
            i <= n == s@.len(),
            last_slash(s@) == last_slash(s@.subrange(0, i as int)),
        decreases i,
    {
        let c = s.get_char(i - 1);
        let ghost t = s@.subrange(0, i as int);
        if c == '/' {
            return Some(i - 1);
        }
        assert(t.drop_last() =~= s@.subrange(0, i - 1));
        i = i - 1;
    }
    assert(s@.subrange(0, 0) =~= Seq::<char>::empty());
    None
}

/// The final component of a path.
pub fn path_file_name(s: &str) -> (r: String)
    ensures
        r@ == file_name(s@),
{
    proof {
        lemma_last_slash_bounds(s@);
    }
    match find_last_slash(s) {
        Some(i) => {
            let n = s.unicode_len();
            assert(i < n);
            s.substring_char(i + 1, n).to_string()
        },
        None => s.to_string(),
    }
}

/// The directory part of a path.
pub fn path_parent(s: &str) -> (r: String)
    ensures
        r@ == parent(s@),
{
    proof {
        lemma_last_slash_bounds(s@);
    }
    match find_last_slash(s) {
        Some(i) => {
            assert(i < s@.len());
            s.substring_char(0, i).to_string()
        },
        None => String::new(),
    }
}

/// The index of the last `c` in `s`, if any.
pub open spec fn last_index(s: Seq<char>, c: char) -> Option<int>
    decreases s.len(),
{
    if s.len() == 0 {
        None
    } else if s.last() == c {
        Some(s.len() - 1)
    } else {
        last_index(s.drop_last(), c)
    }
}

proof fn lemma_last_index_bounds(s: Seq<char>, c: char)
    ensures
        last_index(s, c) matches Some(i) ==> 0 <= i < s.len() && s[i] == c,
    decreases s.len(),
{
    if s.len() > 0 && s.last() != c {
        lemma_last_index_bounds(s.drop_last(), c);
    }
}

fn find_last(s: &str, c: char) -> (r: Option<usize>)
    ensures
        r matches Some(i) ==> last_index(s@, c) == Some(i as int),
        r is None ==> last_index(s@, c) is None,
{
    let n = s.unicode_len();
    let mut i: usize = n;
    assert(s@.subrange(0, n as int) =~= s@);
    while i > 0
        invariant
            i <= n == s@.len(),
            last_index(s@, c) == last_index(s@.subrange(0, i as int), c),
        decreases i,
    {
        let ghost t = s@.subrange(0, i as int);
        if s.get_char(i - 1) == c {
            return Some(i - 1);
        }
        assert(t.drop_last() =~= s@.subrange(0, i - 1));
        i = i - 1;
    }
    None
}

/// The extension of a path's final component: what follows its last '.',
/// where that '.' is not the component's first character; empty where there is none.
pub open spec fn extension(path: Seq<char>) -> Seq<char> {
    let name = file_name(path);
    match last_index(name, '.') {
        Some(i) => if i > 0 { name.subrange(i + 1, name.len() as int) } else { Seq::empty() },
        None => Seq::empty(),
    }
}

/// The extension of a path (empty where it has none).
pub fn path_extension(path: &str) -> (r: String)
    ensures
        r@ == extension(path@),
{
    let name = path_file_name(path);
    proof {
        lemma_last_index_bounds(name@, '.');
    }
    match find_last(name.as_str(), '.') {
        Some(i) => {
            if i > 0 {
                let n = name.as_str().unicode_len();
                name.as_str().substring_char(i + 1, n).to_string()
            } else {
                String::new()
            }
        },
        None => String::new(),
    }
}

/// `base` joined with `part`: `part` itself where it is absolute.
pub open spec fn join(base: Seq<char>, part: Seq<char>) -> Seq<char> {
    if part.len() > 0 && part[0] == '/' {
        part
    } else if base.len() > 0 && base.last() == '/' {
        base + part
    } else {
        base + seq!['/'] + part
    }
}

pub fn path_join(base: &str, part: &str) -> (r: String)
    ensures
        r@ == join(base@, part@),
{
    let m = part.unicode_len();
    if m > 0 && part.get_char(0) == '/' {
        return part.to_string();
    }
    let n = base.unicode_len();
    let mut r = base.to_string();
    if n > 0 && base.get_char(n - 1) == '/' {
        r.append(part);
        return r;
    }
    proof {
        reveal_strlit("/");
    }
    r.append("/");
    r.append(part);
    assert(r@ =~= base@ + seq!['/'] + part@);
    r
}

} // verus!
