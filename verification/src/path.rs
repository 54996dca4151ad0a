//! Paths on a volume: components separated by slashes.

use vstd::prelude::*;
use vstd::string::StrSliceExecFns;
use crate::text::{chars_of, string_of};

verus! {

/// The length of `s` without its trailing slashes.
pub open spec fn trim_len(s: Seq<char>) -> nat
    decreases s.len(),
{
    if s.len() == 0 {
        0
    } else if s.last() == '/' {
        trim_len(s.drop_last())
    } else {
        s.len()
    }
}

/// Where the component that ends at `n` starts: behind the last slash before `n`.
pub open spec fn name_start(s: Seq<char>, n: nat) -> nat
    decreases n,
{
    if n == 0 {
        0
    } else if s[n - 1] == '/' {
        n
    } else {
        name_start(s, (n - 1) as nat)
    }
}

/// The non-empty components of a path.
pub open spec fn parts(s: Seq<char>) -> Seq<Seq<char>>
    decreases s.len(),
{
    let n = trim_len(s);
    let k = name_start(s, n);
    if n == 0 {
        seq![]
    } else {
        proof {
            lemma_split_bounds(s);
        }
        parts(s.take(k as int)).push(s.subrange(k as int, n as int))
    }
}

/// Everything before the last component: the directory that holds it.
pub open spec fn parent_of(s: Seq<char>) -> Seq<char> {
    let k = name_start(s, trim_len(s));
    if k <= 1 {
        seq!['/']
    } else {
        s.take(k - 1)
    }
}

/// The last component, or nothing.
pub open spec fn name_of(s: Seq<char>) -> Seq<char> {
    let n = trim_len(s);
    s.subrange(name_start(s, n) as int, n as int)
}

pub proof fn lemma_trim_len(s: Seq<char>)
    ensures
        trim_len(s) <= s.len(),
        trim_len(s) > 0 ==> s[trim_len(s) - 1] != '/',
        forall|i: int| trim_len(s) <= i < s.len() ==> s[i] == '/',
    decreases s.len(),
{
    if s.len() > 0 && s.last() == '/' {
        let t = s.drop_last();
        lemma_trim_len(t);
        assert forall|i: int| trim_len(s) <= i < s.len() implies s[i] == '/' by {
            if i < t.len() {
                assert(t[i] == s[i]);
            }
        }
    }
}

pub proof fn lemma_name_start(s: Seq<char>, n: nat)
    requires
        n <= s.len(),
    ensures
        name_start(s, n) <= n,
        n > 0 && s[n - 1] != '/' ==> name_start(s, n) < n,
        name_start(s, n) > 0 ==> s[name_start(s, n) - 1] == '/',
        forall|i: int| name_start(s, n) <= i < n ==> s[i] != '/',
    decreases n,
{
    if n > 0 && s[n - 1] != '/' {
        lemma_name_start(s, (n - 1) as nat);
    }
}

pub proof fn lemma_split_bounds(s: Seq<char>)
    ensures
        name_start(s, trim_len(s)) <= trim_len(s) <= s.len(),
        trim_len(s) > 0 ==> name_start(s, trim_len(s)) < trim_len(s),
{
    lemma_trim_len(s);
    lemma_name_start(s, trim_len(s));
}

proof fn lemma_trim_unique(s: Seq<char>, n: nat)
    requires
        n <= s.len(),
        n > 0 ==> s[n - 1] != '/',
        forall|i: int| n <= i < s.len() ==> s[i] == '/',
    ensures
        trim_len(s) == n,
    decreases s.len(),
{
    if s.len() > n {
        assert(s.last() == '/');
        lemma_trim_unique(s.drop_last(), n);
    }
}

proof fn lemma_name_start_agrees(s: Seq<char>, t: Seq<char>, n: nat)
    requires
        n <= s.len(),
        n <= t.len(),
        s.take(n as int) == t.take(n as int),
    ensures
        name_start(s, n) == name_start(t, n),
    decreases n,
{
    if n > 0 {
        assert(s[n - 1] == s.take(n as int)[n - 1]);
        assert(t[n - 1] == t.take(n as int)[n - 1]);
        assert(s.take(n - 1) =~= s.take(n as int).take(n - 1));
        assert(t.take(n - 1) =~= t.take(n as int).take(n - 1));
        lemma_name_start_agrees(s, t, (n - 1) as nat);
    }
}

/// A trailing slash changes nothing.
pub proof fn lemma_parts_trailing_slash(s: Seq<char>)
    ensures
        parts(s.push('/')) == parts(s),
{
    let t = s.push('/');
    assert(t.drop_last() =~= s);
    let n = trim_len(s);
    assert(trim_len(t) == n);
    lemma_split_bounds(s);
    assert(s.take(n as int) =~= t.take(n as int));
    lemma_name_start_agrees(s, t, n);
    let k = name_start(s, n);
    assert(s.take(k as int) =~= t.take(k as int));
    assert(s.subrange(k as int, n as int) =~= t.subrange(k as int, n as int));
}

/// A path with at least one component leads through its parent to its name.
pub proof fn law_parts_of_split(path: Seq<char>)
    requires
        name_of(path).len() > 0,
    ensures
        parts(path) == parts(parent_of(path)).push(name_of(path)),
{
    let n = trim_len(path);
    let k = name_start(path, n);
    lemma_split_bounds(path);
    lemma_name_start(path, n);
    assert(n > 0);
    let head = path.take(k as int);
    let root = seq!['/'];
    assert(root.drop_last() =~= Seq::<char>::empty());
    assert(trim_len(root) == 0) by {
        reveal_with_fuel(trim_len, 2);
    }
    assert(parts(path) == parts(head).push(name_of(path)));
    assert(parts(root) =~= seq![]);
    assert(parts(Seq::<char>::empty()) =~= seq![]);
    if k == 0 {
        assert(head =~= Seq::<char>::empty());
    } else {
        assert(head =~= path.take(k - 1).push('/'));
        lemma_parts_trailing_slash(path.take(k - 1));
        if k == 1 {
            assert(path.take(0) =~= Seq::<char>::empty());
        }
    }
}

/// A name: it is not empty and holds no slash.
pub open spec fn is_component(name: Seq<char>) -> bool {
    name.len() > 0 && forall|i: int| 0 <= i < name.len() ==> #[trigger] name[i] != '/'
}

/// A path made of a directory, a slash and a name has that name in that directory.
pub proof fn lemma_child_path(dir: Seq<char>, name: Seq<char>)
    requires
        is_component(name),
    ensures
        name_of(dir + "/"@ + name) == name,
        parts(parent_of(dir + "/"@ + name)) == parts(dir),
{
    reveal_strlit("/");
    let path = dir + "/"@ + name;
    let n = path.len();
    let k = dir.len() + 1;
    assert(path.last() == name[name.len() - 1]);
    assert(trim_len(path) == n);
    assert forall|m: int| k <= m < n implies path[m] != '/' by {
        assert(path[m] == name[m - k]);
    }
    assert(path[k - 1] == '/');
    lemma_name_start(path, n);
    let start = name_start(path, n);
    assert(start == k) by {
        if start < k {
            assert(path[k - 1] != '/');
        }
        if start > k {
            assert(path[start - 1] != '/');
        }
    }
    assert(path.subrange(k as int, n as int) =~= name);
    let root = seq!['/'];
    if k <= 1 {
        assert(dir.len() == 0);
        assert(root =~= dir.push('/'));
        lemma_parts_trailing_slash(dir);
    } else {
        assert(path.take(k - 1) =~= dir);
    }
}

/// The path of a name in a directory has that name in that directory.
pub proof fn lemma_joined_path(dir: Seq<char>, name: Seq<char>)
    requires
        is_component(name),
    ensures
        name_of(joined_path(dir, name)) == name,
        parts(parent_of(joined_path(dir, name))) == parts(dir),
{
    let n = trim_len(dir);
    let short = dir.take(n as int);
    lemma_trim_len(dir);
    lemma_child_path(short, name);
    lemma_trim_unique(short, n);
    lemma_split_bounds(dir);
    assert(short.take(n as int) =~= dir.take(n as int));
    lemma_name_start_agrees(short, dir, n);
    let k = name_start(dir, n);
    assert(short.take(k as int) =~= dir.take(k as int));
    assert(short.subrange(k as int, n as int) =~= dir.subrange(k as int, n as int));
}

/// No component of a path is empty or holds a slash.
pub proof fn law_parts_are_names(path: Seq<char>)
    ensures
        forall|i: int|
            0 <= i < parts(path).len() ==> (#[trigger] parts(path)[i]).len() > 0 && !parts(
                path,
            )[i].contains('/'),
    decreases path.len(),
{
    let n = trim_len(path);
    if n > 0 {
        lemma_split_bounds(path);
        lemma_name_start(path, n);
        let k = name_start(path, n);
        let head = path.take(k as int);
        let name = path.subrange(k as int, n as int);
        law_parts_are_names(head);
        assert(parts(path) == parts(head).push(name));
        assert(!name.contains('/')) by {
            assert forall|i: int| 0 <= i < name.len() implies name[i] != '/' by {
                assert(name[i] == path[k + i]);
            }
        }
        assert forall|i: int| 0 <= i < parts(path).len() implies (#[trigger] parts(path)[i]).len()
            > 0 && !parts(path)[i].contains('/') by {
            if i < parts(head).len() {
                assert(parts(path)[i] == parts(head)[i]);
            }
        }
    }
}

fn find_trim_len(v: &Vec<char>, end: usize) -> (n: usize)
    requires
        end <= v.len(),
    ensures
        n == trim_len(v@.take(end as int)),
        n <= end,
{
    let mut n: usize = end;
    proof {
        lemma_trim_len(v@.take(end as int));
    }
    while n > 0 && v[n - 1] == '/'
        invariant
            n <= end <= v.len(),
            trim_len(v@.take(n as int)) == trim_len(v@.take(end as int)),
        decreases n,
    {
        assert(v@.take(n as int).drop_last() =~= v@.take(n - 1));
        n = n - 1;
    }
    proof {
        if n > 0 {
            assert(v@.take(n as int).last() == v@[n - 1]);
        }
    }
    n
}

fn find_name_start(v: &Vec<char>, n: usize) -> (k: usize)
    requires
        n <= v.len(),
    ensures
        k == name_start(v@, n as nat),
        k <= n,
{
    let mut k: usize = n;
    while k > 0 && v[k - 1] != '/'
        invariant
            k <= n <= v.len(),
            name_start(v@, k as nat) == name_start(v@, n as nat),
        decreases k,
    {
        k = k - 1;
    }
    k
}

/// Splits a path into the path of the directory that holds its last component, and that
/// component: "/saves/game1.sav" gives "/saves" and "game1.sav", "/readme.txt" gives "/"
/// and "readme.txt".
pub fn split_path(path: &str) -> (r: (&str, &str))
    ensures
        r.0@ == parent_of(path@),
        r.1@ == name_of(path@),
{
    let v = chars_of(path);
    assert(v@.take(v@.len() as int) =~= v@);
    let n = find_trim_len(&v, v.len());
    let k = find_name_start(&v, n);
    let name = path.substring_char(k, n);
    if k <= 1 {
        proof {
            reveal_strlit("/");
            assert("/"@ =~= seq!['/']);
        }
        ("/", name)
    } else {
        let parent = path.substring_char(0, k - 1);
        assert(parent@ =~= path@.take(k - 1));
        (parent, name)
    }
}

/// The views of strings.
pub open spec fn strings_view(v: Seq<String>) -> Seq<Seq<char>> {
    v.map_values(|s: String| s@)
}

fn parts_before(v: &Vec<char>, end: usize) -> (r: Vec<String>)
    requires
        end <= v.len(),
    ensures
        strings_view(r@) == parts(v@.take(end as int)),
    decreases end,
{
    let ghost s = v@.take(end as int);
    let n = find_trim_len(v, end);
    if n == 0 {
        let r: Vec<String> = Vec::new();
        assert(strings_view(r@) =~= Seq::<Seq<char>>::empty());
        return r;
    }
    let k = find_name_start(v, n);
    proof {
        lemma_split_bounds(s);
        assert(s.take(n as int) =~= v@.take(n as int));
        lemma_name_start_agrees(s, v@, n as nat);
    }
    let mut r = parts_before(v, k);
    let ghost before = r@;
    let name = string_of(v, k, n);
    r.push(name);
    proof {
        assert(s.take(k as int) =~= v@.take(k as int));
        assert(s.subrange(k as int, n as int) =~= v@.subrange(k as int, n as int));
        assert(strings_view(r@) =~= strings_view(before).push(name@));
    }
    r
}

/// The components of a path.
pub fn path_parts(path: &str) -> (r: Vec<String>)
    ensures
        strings_view(r@) == parts(path@),
{
    let v = chars_of(path);
    assert(v@.take(v@.len() as int) =~= v@);
    parts_before(&v, v.len())
}

/// The path of `name` in the directory `dir`.
pub open spec fn joined_path(dir: Seq<char>, name: Seq<char>) -> Seq<char> {
    dir.take(trim_len(dir) as int) + "/"@ + name
}

/// `s` without the slashes it ends in.
pub fn trim_slashes(s: &str) -> (t: String)
    ensures
        t@ == s@.take(trim_len(s@) as int),
{
    let v = chars_of(s);
    assert(v@.take(v@.len() as int) =~= v@);
    let n = find_trim_len(&v, v.len());
    proof {
        lemma_trim_len(s@);
        assert(v@.subrange(0, n as int) =~= s@.take(n as int));
    }
    string_of(&v, 0, n)
}

/// The path of `name` in the directory `dir`.
pub fn join_path(dir: &str, name: &str) -> (s: String)
    ensures
        s@ == joined_path(dir@, name@),
{
    let mut s = trim_slashes(dir);
    vstd::string::StringExecFns::append(&mut s, "/");
    vstd::string::StringExecFns::append(&mut s, name);
    s
}

} // verus!
