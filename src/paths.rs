//! The path scheme: raw and sanitized trees, day and log file names, and the
//! split of a path into its parent directory and its final component.

use vstd::prelude::*;
use crate::text::{chars_of, string_of};

verus! {

/// Why a path could not be split or a command line gave no program name.
#[derive(Debug, Clone, Copy, PartialEq, Eq)]
pub enum PathError {
    /// The path has no final component.
    NotFileName,
    /// A path component is not valid text.
    InvalidUnicode,
    /// The command line holds no program token.
    NoMatch,
}

/// The segment that marks the raw tree.
pub open spec fn raw_marker() -> Seq<char> {
    seq!['/', 'R', 'A', 'W', '/']
}

pub open spec fn starts_with_raw(s: Seq<char>) -> bool {
    s.len() >= 5 && s.take(5) == raw_marker()
}

/// `s` with each `/RAW/` (left to right, without overlap) replaced by `/`.
pub open spec fn san_of(s: Seq<char>) -> Seq<char>
    decreases s.len(),
{
    if s.len() == 0 {
        s
    } else if starts_with_raw(s) {
        seq!['/'] + san_of(s.skip(5))
    } else {
        seq![s[0]] + san_of(s.skip(1))
    }
}

proof fn lemma_san_step(s: Seq<char>, i: int)
    requires
        0 <= i < s.len(),
    ensures
        starts_with_raw(s.skip(i)) ==> san_of(s.skip(i)) == seq!['/'] + san_of(s.skip(i + 5)),
        !starts_with_raw(s.skip(i)) ==> san_of(s.skip(i)) == seq![s[i]] + san_of(s.skip(i + 1)),
{
    assert(s.skip(i).skip(1) =~= s.skip(i + 1));
    if starts_with_raw(s.skip(i)) {
        assert(s.skip(i).skip(5) =~= s.skip(i + 5));
    }
}

/// Maps a raw log path to its sanitized counterpart by dropping the `RAW`
/// segment.
pub fn raw_to_san(raw: &str) -> (r: String)
    ensures
        r@ == san_of(raw@),
{
    let v = chars_of(raw);
    let n = v.len();
    let mut out: Vec<char> = Vec::new();
    let mut i: usize = 0;
    assert(v@.skip(0) =~= v@);
    assert(out@ + san_of(v@) =~= san_of(v@));
    while i < n
        invariant
            n == v@.len(),
            i <= n,
            out@ + san_of(v@.skip(i as int)) == san_of(v@),
        decreases n - i,
    {
        proof {
            lemma_san_step(v@, i as int);
        }
        let is_raw = n - i >= 5 && v[i] == '/' && v[i + 1] == 'R' && v[i + 2] == 'A' && v[i
            + 3] == 'W' && v[i + 4] == '/';
        assert(is_raw == starts_with_raw(v@.skip(i as int))) by {
            if n - i >= 5 {
                if is_raw {
                    assert(v@.skip(i as int).take(5) =~= raw_marker());
                } else if starts_with_raw(v@.skip(i as int)) {
                    assert(v@.skip(i as int).take(5)[0] == v@[i as int]);
                    assert(v@.skip(i as int).take(5)[1] == v@[i + 1]);
                    assert(v@.skip(i as int).take(5)[2] == v@[i + 2]);
                    assert(v@.skip(i as int).take(5)[3] == v@[i + 3]);
                    assert(v@.skip(i as int).take(5)[4] == v@[i + 4]);
                }
            }
        }
        let ghost before = out@;
        if is_raw {
            out.push('/');
            i = i + 5;
        } else {
            out.push(v[i]);
            i = i + 1;
        }
        assert(out@ + san_of(v@.skip(i as int)) =~= before + san_of(v@.skip(i as int - (if is_raw { 5int } else { 1int })))) by {
            if is_raw {
                assert(seq!['/'] + san_of(v@.skip(i as int)) == san_of(v@.skip(i - 5)));
            } else {
                assert(seq![v@[i - 1]] + san_of(v@.skip(i as int)) == san_of(v@.skip(i - 1)));
            }
        }
    }
    assert(v@.skip(n as int) =~= Seq::<char>::empty());
    assert(v@.skip(0) =~= v@);
    assert(out@ + Seq::<char>::empty() =~= out@);
    string_of(&out)
}

/// `dir/name`.
pub open spec fn joined(dir: Seq<char>, name: Seq<char>) -> Seq<char> {
    dir + seq!['/'] + name
}

/// `dir/name`.
pub fn join(dir: &str, name: &str) -> (r: String)
    ensures
        r@ == joined(dir@, name@),
{
    let mut v = chars_of(dir);
    v.push('/');
    let mut w = chars_of(name);
    v.append(&mut w);
    string_of(&v)
}

/// The position of the last `/` in `s`, or -1 when it holds none.
pub open spec fn last_slash(s: Seq<char>) -> int
    decreases s.len(),
{
    if s.len() == 0 {
        -1
    } else if s.last() == '/' {
        s.len() - 1
    } else {
        last_slash(s.drop_last())
    }
}

pub proof fn lemma_last_slash(s: Seq<char>)
    ensures
        -1 <= last_slash(s) < s.len(),
        last_slash(s) >= 0 ==> s[last_slash(s)] == '/',
        forall|i: int| last_slash(s) < i < s.len() ==> s[i] != '/',
    decreases s.len(),
{
    if s.len() > 0 && s.last() != '/' {
        lemma_last_slash(s.drop_last());
        assert forall|i: int| last_slash(s) < i < s.len() implies s[i] != '/' by {
            if i < s.len() - 1 {
                assert(s.drop_last()[i] == s[i]);
            }
        }
    }
}

/// What follows the last `/` of `s` (all of `s` when it holds none).
pub open spec fn final_component(s: Seq<char>) -> Seq<char> {
    s.skip(last_slash(s) + 1)
}

/// `s` without its trailing `/` separators and `.` components.
pub open spec fn trimmed(s: Seq<char>) -> Seq<char>
    decreases s.len(),
{
    if s.len() > 0 && s.last() == '/' {
        trimmed(s.drop_last())
    } else if s.len() >= 2 && s.last() == '.' && s[s.len() - 2] == '/' {
        trimmed(s.drop_last())
    } else {
        s
    }
}

/// The final component of a path, once trailing separators and `.`
/// components are dropped.
pub open spec fn file_part(s: Seq<char>) -> Seq<char> {
    final_component(trimmed(s))
}

/// The directory that holds the final component: empty for a bare name,
/// `/` for a name at the root.
pub open spec fn dir_part(s: Seq<char>) -> Seq<char> {
    let t = trimmed(s);
    let i = last_slash(t);
    if i < 0 {
        Seq::empty()
    } else if trimmed(t.take(i)).len() == 0 {
        seq!['/']
    } else {
        trimmed(t.take(i))
    }
}

/// The length of `v` cut to `k` and then trimmed.
fn trim_len(v: &Vec<char>, k: usize) -> (r: usize)
    requires
        k <= v@.len(),
    ensures
        r <= k,
        trimmed(v@.take(k as int)) == v@.take(r as int),
{
    let mut j: usize = k;
    while j > 0 && (v[j - 1] == '/' || (j >= 2 && v[j - 1] == '.' && v[j - 2] == '/'))
        invariant
            j <= k <= v@.len(),
            trimmed(v@.take(k as int)) == trimmed(v@.take(j as int)),
        decreases j,
    {
        assert(v@.take(j - 1) =~= v@.take(j as int).drop_last());
        j = j - 1;
    }
    j
}

fn copy_range(v: &Vec<char>, from: usize, to: usize) -> (r: Vec<char>)
    requires
        from <= to <= v@.len(),
    ensures
        r@ == v@.subrange(from as int, to as int),
{
    let mut r: Vec<char> = Vec::new();
    let mut i: usize = from;
    while i < to
        invariant
            from <= i <= to <= v@.len(),
            r@ == v@.subrange(from as int, i as int),
        decreases to - i,
    {
        r.push(v[i]);
        i = i + 1;
        assert(r@ =~= v@.subrange(from as int, i as int));
    }
    r
}

/// A final component that names nothing: empty, `.` or `..`.
pub open spec fn names_nothing(c: Seq<char>) -> bool {
    c.len() == 0 || c == seq!['.'] || c == seq!['.', '.']
}

/// Splits `path` into the directory that holds its final component and
/// that component, once trailing separators and `.` components are dropped.
/// A path whose final component is empty or `..` has none.
pub fn split_path(path: &str) -> (r: Result<(String, String), PathError>)
    ensures
        r is Err <==> names_nothing(file_part(path@)),
        r matches Err(e) ==> e == PathError::NotFileName,
        r matches Ok((d, f)) ==> d@ == dir_part(path@) && f@ == file_part(path@),
{
    let v = chars_of(path);
    assert(v@.take(v@.len() as int) =~= v@);
    let n = trim_len(&v, v.len());
    let ghost t = v@.take(n as int);
    let mut k: usize = n;
    assert(t.take(k as int) =~= t);
    while k > 0 && v[k - 1] != '/'
        invariant
            k <= n <= v@.len(),
            t == v@.take(n as int),
            last_slash(t) == last_slash(t.take(k as int)),
        decreases k,
    {
        assert(t.take(k - 1) =~= t.take(k as int).drop_last());
        k = k - 1;
    }
    proof {
        if k > 0 {
            assert(t.take(k as int).last() == '/');
        }
        assert(t.take(0) =~= Seq::<char>::empty());
    }
    let name = copy_range(&v, k, n);
    assert(name@ =~= final_component(t));
    if name.len() == 0 || (name.len() == 1 && name[0] == '.') || (name.len() == 2 && name[0] == '.'
        && name[1] == '.') {
        assert(names_nothing(name@)) by {
            if name.len() == 1 {
                assert(name@ =~= seq!['.']);
            } else if name.len() == 2 {
                assert(name@ =~= seq!['.', '.']);
            }
        }
        return Err(PathError::NotFileName);
    }
    assert(!names_nothing(name@)) by {
        if name@ == seq!['.'] {
            assert(name@[0] == '.');
        }
        if name@ == seq!['.', '.'] {
            assert(name@[0] == '.' && name@[1] == '.');
        }
    }
    let dir: Vec<char> = if k == 0 {
        Vec::new()
    } else {
        let p = trim_len(&v, k - 1);
        assert(t.take(k - 1) =~= v@.take(k - 1));
        if p == 0 {
            assert(v@.take(0) =~= Seq::<char>::empty());
            vec!['/']
        } else {
            let d = copy_range(&v, 0, p);
            assert(d@ =~= v@.take(p as int));
            d
        }
    };
    assert(dir@ =~= dir_part(path@));
    Ok((string_of(&dir), string_of(&name)))
}

} // verus!
