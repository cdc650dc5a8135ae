//! A path as a sequence of characters: its directory part and its last
//! component, the file name, stem and the sibling with another name.
//! Both `/` and `\` separate components.

use vstd::prelude::*;
use crate::text::{lemma_rfind_from, rfind, rfind_exec, slice_chars, concat, eq_chars, push_all};

verus! {

pub open spec fn is_sep(c: char) -> bool {
    c == '/' || c == '\\'
}

/// Where the last component of `s` starts.
pub open spec fn name_start(s: Seq<char>) -> int
    decreases s.len(),
{
    if s.len() == 0 {
        0
    } else if is_sep(s.last()) {
        s.len() as int
    } else {
        name_start(s.drop_last())
    }
}

/// Everything up to and including the last separator.
pub open spec fn dir_of(s: Seq<char>) -> Seq<char> {
    s.subrange(0, name_start(s))
}

/// Everything after the last separator.
pub open spec fn last_component(s: Seq<char>) -> Seq<char> {
    s.subrange(name_start(s), s.len() as int)
}

/// `s` without trailing separators and trailing `.` components, which do
/// not change what the path names (`a/b/` and `a/b/.` name `a/b`).
pub open spec fn tail_trimmed(s: Seq<char>) -> Seq<char>
    decreases s.len(),
{
    if s.len() > 0 && is_sep(s.last()) {
        tail_trimmed(s.drop_last())
    } else if s.len() >= 2 && s.last() == '.' && is_sep(s[s.len() - 2]) {
        tail_trimmed(s.subrange(0, s.len() - 2))
    } else {
        s
    }
}

/// The file name: the last component once trailing separators and `.`
/// components are dropped, unless it is empty, `.` or `..` (what
/// `Path::file_name` gives: `fotos/` names `fotos`).
pub open spec fn file_name(s: Seq<char>) -> Option<Seq<char>> {
    let n = last_component(tail_trimmed(s));
    if n.len() == 0 || n == seq!['.'] || n == seq!['.', '.'] {
        None
    } else {
        Some(n)
    }
}

/// `s` with `name` added as one more component (a separator is put between
/// them when `s` does not end in one).
pub open spec fn push_name(s: Seq<char>, name: Seq<char>) -> Seq<char> {
    if s.len() == 0 || is_sep(s.last()) {
        s + name
    } else {
        s + seq!['/'] + name
    }
}

/// `s` with its file name replaced by `name` (`Path::with_file_name`): the
/// directory of what `s` names, then `name`; a path with no file name gets
/// `name` added below it.
pub open spec fn with_file_name(s: Seq<char>, name: Seq<char>) -> Seq<char> {
    match file_name(s) {
        Some(_) => dir_of(tail_trimmed(s)) + name,
        None => push_name(s, name),
    }
}

/// The stem of a file name: the part before its last `.`, unless that dot
/// is the first character (`.bashrc` is its own stem).
pub open spec fn stem_of(name: Seq<char>) -> Seq<char> {
    match rfind(name, seq!['.']) {
        Some(i) => if i > 0 { name.subrange(0, i) } else { name },
        None => name,
    }
}

pub proof fn lemma_name_start(s: Seq<char>)
    ensures
        0 <= name_start(s) <= s.len(),
        forall|i: int| name_start(s) <= i < s.len() ==> !is_sep(#[trigger] s[i]),
        name_start(s) > 0 ==> is_sep(s[name_start(s) - 1]),
    decreases s.len(),
{
    if s.len() > 0 && !is_sep(s.last()) {
        lemma_name_start(s.drop_last());
        assert forall|i: int| name_start(s) <= i < s.len() implies !is_sep(#[trigger] s[i]) by {
            if i < s.len() - 1 {
                assert(s[i] == s.drop_last()[i]);
            }
        }
        if name_start(s) > 0 {
            assert(s[name_start(s) - 1] == s.drop_last()[name_start(s) - 1]);
        }
    }
}

/// The name start of `d + name`, where `d` is empty or ends at a separator and
/// `name` has no separator, is `d.len()`.
pub proof fn lemma_name_start_after(d: Seq<char>, name: Seq<char>)
    requires
        d.len() == 0 || is_sep(d.last()),
        forall|i: int| 0 <= i < name.len() ==> !is_sep(#[trigger] name[i]),
    ensures
        name_start(d + name) == d.len(),
    decreases name.len(),
{
    if name.len() == 0 {
        assert(d + name =~= d);
        if d.len() > 0 {
            assert((d + name).last() == d.last());
        }
    } else {
        assert((d + name).drop_last() =~= d + name.drop_last());
        assert((d + name).last() == name.last());
        lemma_name_start_after(d, name.drop_last());
    }
}

/// The directory part of a sibling is the directory part of what the path
/// names, and a sibling with an ordinary name has nothing to trim.
pub proof fn lemma_sibling(s: Seq<char>, name: Seq<char>)
    requires
        file_name(s) is Some,
        forall|i: int| 0 <= i < name.len() ==> !is_sep(#[trigger] name[i]),
    ensures
        dir_of(with_file_name(s, name)) == dir_of(tail_trimmed(s)),
        last_component(with_file_name(s, name)) == name,
        name.len() > 0 && name != seq!['.'] ==> tail_trimmed(with_file_name(s, name)) == with_file_name(s, name),
{
    let t = tail_trimmed(s);
    lemma_name_start(t);
    let d = dir_of(t);
    if d.len() > 0 {
        assert(d.last() == t[name_start(t) - 1]);
    }
    lemma_name_start_after(d, name);
    let x = with_file_name(s, name);
    assert(dir_of(x) =~= d);
    assert(last_component(x) =~= name);
    if name.len() > 0 && name != seq!['.'] {
        assert(x.last() == name.last());
        if x.len() >= 2 && x.last() == '.' && is_sep(x[x.len() - 2]) {
            if name.len() >= 2 {
                assert(x[x.len() - 2] == name[name.len() - 2]);
            } else {
                assert(name =~= seq!['.']);
            }
        }
    }
}

/// The file name of a path holds no separator.
pub proof fn lemma_file_name_no_sep(p: Seq<char>)
    requires
        file_name(p) is Some,
    ensures
        forall|i: int| 0 <= i < file_name(p).unwrap().len() ==> !is_sep(#[trigger] file_name(p).unwrap()[i]),
{
    let t = tail_trimmed(p);
    lemma_name_start(t);
    let n = file_name(p).unwrap();
    assert forall|i: int| 0 <= i < n.len() implies !is_sep(#[trigger] n[i]) by {
        assert(n[i] == t[name_start(t) + i]);
    }
}

/// The trimmed form, computed.
pub fn tail_trimmed_exec(s: &Vec<char>) -> (r: Vec<char>)
    ensures
        r@ == tail_trimmed(s@),
{
    let mut e: usize = s.len();
    assert(s@.subrange(0, e as int) =~= s@);
    while e > 0 && ((s[e - 1] == '/' || s[e - 1] == '\\') || (e >= 2 && s[e - 1] == '.' && (s[e - 2] == '/'
        || s[e - 2] == '\\')))
        invariant
            e <= s.len(),
            tail_trimmed(s@.subrange(0, e as int)) == tail_trimmed(s@),
        decreases e,
    {
        let ghost u = s@.subrange(0, e as int);
        if s[e - 1] == '/' || s[e - 1] == '\\' {
            assert(u.drop_last() =~= s@.subrange(0, e - 1));
            e = e - 1;
        } else {
            assert(u.subrange(0, u.len() - 2) =~= s@.subrange(0, e - 2));
            e = e - 2;
        }
    }
    let r = slice_chars(s, 0, e);
    proof {
        let u = s@.subrange(0, e as int);
        assert(r@ == u);
        if e > 0 {
            assert(u.last() == s@[e - 1]);
            if e >= 2 {
                assert(u[u.len() - 2] == s@[e - 2]);
            }
        }
    }
    r
}

pub fn name_start_exec(s: &Vec<char>) -> (r: usize)
    ensures
        r == name_start(s@),
{
    let mut i: usize = s.len();
    assert(s@.subrange(0, s.len() as int) =~= s@);
    while i > 0 && !(s[i - 1] == '/' || s[i - 1] == '\\')
        invariant
            i <= s.len(),
            name_start(s@.subrange(0, i as int)) == name_start(s@),
        decreases i,
    {
        assert(s@.subrange(0, i as int).drop_last() =~= s@.subrange(0, i - 1));
        i = i - 1;
    }
    assert(s@.subrange(0, s.len() as int) =~= s@);
    if i > 0 {
        assert(s@.subrange(0, i as int).last() == s@[i - 1]);
    }
    i
}

/// The file name of `s`, as `Path::file_name` gives it.
pub fn file_name_exec(s: &Vec<char>) -> (r: Option<Vec<char>>)
    ensures
        match r {
            Some(n) => file_name(s@) == Some(n@),
            None => file_name(s@) is None,
        },
{
    let t = tail_trimmed_exec(s);
    let k = name_start_exec(&t);
    proof { lemma_name_start(t@); }
    let n = slice_chars(&t, k, t.len());
    let dot = vec!['.'];
    let dotdot = vec!['.', '.'];
    assert(dot@ =~= seq!['.']);
    assert(dotdot@ =~= seq!['.', '.']);
    if n.len() == 0 || eq_chars(&n, &dot) || eq_chars(&n, &dotdot) {
        None
    } else {
        Some(n)
    }
}

/// The sibling of `s` called `name`.
pub fn with_file_name_exec(s: &Vec<char>, name: &Vec<char>) -> (r: Vec<char>)
    ensures
        r@ == with_file_name(s@, name@),
{
    match file_name_exec(s) {
        Some(_) => {
            let t = tail_trimmed_exec(s);
            let k = name_start_exec(&t);
            proof { lemma_name_start(t@); }
            let d = slice_chars(&t, 0, k);
            concat(&d, name)
        },
        None => {
            let mut r = slice_chars(s, 0, s.len());
            if s.len() > 0 && !(s[s.len() - 1] == '/' || s[s.len() - 1] == '\\') {
                r.push('/');
            }
            push_all(&mut r, name);
            r
        },
    }
}

/// The stem of a file name.
pub fn stem_exec(name: &Vec<char>) -> (r: Vec<char>)
    ensures
        r@ == stem_of(name@),
{
    let dot = vec!['.'];
    assert(dot@ =~= seq!['.']);
    proof { lemma_rfind_from(name@, dot@, name@.len() - 1); }
    match rfind_exec(name, &dot) {
        Some(i) => if i > 0 {
            slice_chars(name, 0, i)
        } else {
            slice_chars(name, 0, name.len())
        },
        None => slice_chars(name, 0, name.len()),
    }
}

} // verus!
