use vstd::prelude::*;
use vstd::string::*;

verus! {

/// Index of the last `/` in `s`, or -1 when there is none.
pub open spec fn last_slash(s: Seq<char>) -> int
    decreases s.len(),
{
    if s.len() == 0 {
        -1
    } else if s.last() == '/' {
        s.len() - 1
    } else {
        last_slash(s.drop_last())
    }
}

/// The parent-directory string of a path: everything before its last `/`.
pub open spec fn parent_of(s: Seq<char>) -> Seq<char> {
    if last_slash(s) < 0 {
        Seq::empty()
    } else {
        s.take(last_slash(s))
    }
}

/// The final component of a path: everything after its last `/`.
pub open spec fn name_of(s: Seq<char>) -> Seq<char> {
    s.skip(last_slash(s) + 1)
}

/// `p` lies strictly beneath the directory `dir`.
pub open spec fn beneath(dir: Seq<char>, p: Seq<char>) -> bool {
    &&& p.len() > dir.len()
    &&& p.take(dir.len() as int) == dir
    &&& p[dir.len() as int] == '/'
}

/// `p` is `dir` itself or lies beneath it.
pub open spec fn within(dir: Seq<char>, p: Seq<char>) -> bool {
    p == dir || beneath(dir, p)
}

pub proof fn lemma_last_slash_bounds(s: Seq<char>)
    ensures
        -1 <= last_slash(s) < s.len(),
        last_slash(s) >= 0 ==> s[last_slash(s)] == '/',
        forall|j: int| last_slash(s) < j < s.len() ==> s[j] != '/',
    decreases s.len(),
{
    if s.len() > 0 && s.last() != '/' {
        lemma_last_slash_bounds(s.drop_last());
        assert forall|j: int| last_slash(s) < j < s.len() implies s[j] != '/' by {
            if j < s.len() - 1 {
                assert(s.drop_last()[j] == s[j]);
            }
        }
    }
}

/// A path with a `/` lies beneath its parent directory.
pub proof fn lemma_beneath_parent(s: Seq<char>)
    requires
        last_slash(s) >= 0,
    ensures
        beneath(parent_of(s), s),
{
    lemma_last_slash_bounds(s);
    assert(s.take(last_slash(s)).len() == last_slash(s));
}

/// Whatever lies beneath a path within `dir` lies beneath `dir` too.
pub proof fn lemma_beneath_within(dir: Seq<char>, q: Seq<char>, p: Seq<char>)
    requires
        within(dir, q),
        beneath(q, p),
    ensures
        beneath(dir, p),
{
    if q != dir {
        assert(p.take(dir.len() as int) =~= q.take(dir.len() as int));
        assert(p[dir.len() as int] == q[dir.len() as int]);
    }
}

/// Position of the last `/` of `s`.
pub fn last_slash_index(s: &str) -> (r: Option<usize>)
    ensures
        match r {
            Some(i) => i as int == last_slash(s@),
            None => last_slash(s@) == -1,
        },
{
    let mut i: usize = s.unicode_len();
    assert(s@.take(i as int) =~= s@);
    while i > 0
        invariant
            i <= s@.len(),
            last_slash(s@) == last_slash(s@.take(i as int)),
        decreases i,
    {
        let c = s.get_char(i - 1);
        let ghost t = s@.take(i as int);
        if c == '/' {
            assert(t.last() == '/');
            return Some(i - 1);
        }
        assert(t.drop_last() =~= s@.take(i - 1));
        i = i - 1;
    }
    None
}

/// The parent-directory string of `path`.
pub fn parent_path(path: &str) -> (r: String)
    ensures
        r@ == parent_of(path@),
{
    proof {
        lemma_last_slash_bounds(path@);
    }
    match last_slash_index(path) {
        None => String::new(),
        Some(i) => String::from_str(path.substring_char(0, i)),
    }
}

/// The final component of `path`.
pub fn file_name(path: &str) -> (r: String)
    ensures
        r@ == name_of(path@),
{
    proof {
        lemma_last_slash_bounds(path@);
    }
    let n = path.unicode_len();
    match last_slash_index(path) {
        None => {
            assert(path@.skip(0) =~= path@);
            String::from_str(path)
        },
        Some(i) => String::from_str(path.substring_char(i + 1, n)),
    }
}

/// Whether `path` lies strictly beneath the directory `dir`.
pub fn is_beneath(dir: &str, path: &str) -> (r: bool)
    ensures
        r == beneath(dir@, path@),
{
    let d = dir.unicode_len();
    let n = path.unicode_len();
    if n <= d {
        return false;
    }
    let mut i: usize = 0;
    while i < d
        invariant
            d == dir@.len(),
            n == path@.len(),
            d < n,
            i <= d,
            path@.take(i as int) == dir@.take(i as int),
        decreases d - i,
    {
        if path.get_char(i) != dir.get_char(i) {
            assert(path@.take(dir@.len() as int)[i as int] != dir@[i as int]);
            return false;
        }
        assert(path@.take(i + 1) =~= path@.take(i as int).push(path@[i as int]));
        assert(dir@.take(i + 1) =~= dir@.take(i as int).push(dir@[i as int]));
        i = i + 1;
    }
    assert(dir@.take(d as int) =~= dir@);
    path.get_char(d) == '/'
}

/// Whether two strings hold the same characters.
pub fn same_text(a: &str, b: &str) -> (r: bool)
    ensures
        r == (a@ == b@),
{
    let n = a.unicode_len();
    if n != b.unicode_len() {
        return false;
    }
    let mut i: usize = 0;
    while i < n
        invariant
            n == a@.len(),
            n == b@.len(),
            i <= n,
            forall|j: int| 0 <= j < i ==> a@[j] == b@[j],
        decreases n - i,
    {
        if a.get_char(i) != b.get_char(i) {
            return false;
        }
        i = i + 1;
    }
    assert(a@ =~= b@);
    true
}

/// Whether `path` is `dir` itself or lies beneath it.
pub fn is_within(dir: &str, path: &str) -> (r: bool)
    ensures
        r == within(dir@, path@),
{
    same_text(dir, path) || is_beneath(dir, path)
}

} // verus!
