//! The archive engine's rules: which format a name is, how inner paths are
//! normalised and joined under a destination (nothing may escape it), which
//! entries a selection takes, the listing summary with its zip-bomb warning,
//! and the per-entry plan that extraction and integrity tests follow.

use vstd::prelude::*;
use crate::text::{
    chars_of, concat, ends_with, ends_with_exec, eq_chars, lower, lower_exec, push_all,
    slice_chars, starts_with, starts_with_exec, string_of,
};
use crate::split::{names_of, numeric_suffix, numeric_suffix_spec};
use crate::rar::{is_old_volume_chars, is_old_volume_name_spec};

verus! {

/// The archive formats the engine reads.
#[derive(Clone, Copy, PartialEq, Eq, Structural, Debug)]
pub enum Format {
    Zip,
    Tar,
    TarGz,
    TarXz,
    TarBz2,
    TarZst,
    SevenZ,
    Rar,
}

/// One item of an archive listing.
#[derive(Clone, Debug)]
pub struct AEntry {
    /// Path inside the archive, `/`-separated, without a trailing slash.
    pub path: String,
    pub is_dir: bool,
    pub size: u64,
    /// Compressed size (only zip and RAR report it; 0 elsewhere).
    pub compressed: u64,
    pub modified_ms: i64,
    pub encrypted: bool,
}

/// What opening an archive shows: its entries and totals.
#[derive(Clone, Debug)]
pub struct ArchiveInfo {
    pub path: String,
    pub format: Format,
    pub entries: Vec<AEntry>,
    pub total_size: u64,
    pub archive_bytes: u64,
    /// A huge expansion ratio: possibly a zip bomb (the UI warns).
    pub bomb_suspect: bool,
}

/// Progress of a long operation.
#[derive(Clone, Debug)]
pub struct OpProgress {
    pub op_id: u64,
    pub done_files: u64,
    pub total_files: u64,
    pub done_bytes: u64,
    pub total_bytes: u64,
    pub current: String,
}

/// End of a long operation.
#[derive(Clone, Debug)]
pub struct OpDone {
    pub op_id: u64,
    pub ok: bool,
    pub canceled: bool,
    pub error: Option<String>,
    /// Extraction: the destination folder; creation: the archive created.
    pub output: Option<String>,
}

/// Outcome of an integrity test.
#[derive(Clone, Debug)]
pub struct IntegrityResult {
    pub ok: bool,
    pub tested: u64,
    /// Name of the first item that failed (empty when all is well).
    pub bad: String,
    pub error: Option<String>,
}

// ---------- inner paths ----------

pub open spec fn backslash_to_slash(s: Seq<char>) -> Seq<char> {
    s.map_values(|c: char| if c == '\\' { '/' } else { c })
}

/// `s` without its leading run of `/` and `./` pieces (`/./a` gives `a`).
pub open spec fn strip_lead(s: Seq<char>) -> Seq<char>
    decreases s.len(),
{
    if s.len() > 0 && s[0] == '/' {
        strip_lead(s.drop_first())
    } else if s.len() >= 2 && s[0] == '.' && s[1] == '/' {
        strip_lead(s.subrange(2, s.len() as int))
    } else {
        s
    }
}

pub open spec fn trim_end_slash(s: Seq<char>) -> Seq<char>
    decreases s.len(),
{
    if s.len() > 0 && s.last() == '/' {
        trim_end_slash(s.drop_last())
    } else {
        s
    }
}

/// The normal form of a path inside an archive: `/` as separator, with no
/// leading `/` or `./` and no trailing slash.
pub open spec fn norm_inner_spec(raw: Seq<char>) -> Seq<char> {
    trim_end_slash(strip_lead(backslash_to_slash(raw)))
}

pub proof fn lemma_trim_end(s: Seq<char>, i: int)
    requires
        0 <= i <= s.len(),
        forall|j: int| i <= j < s.len() ==> s[j] == '/',
    ensures
        trim_end_slash(s) == trim_end_slash(s.subrange(0, i)),
    decreases s.len() - i,
{
    if i < s.len() {
        assert(s.drop_last().subrange(0, i) =~= s.subrange(0, i));
        assert forall|j: int| i <= j < s.drop_last().len() implies s.drop_last()[j] == '/' by {
            assert(s.drop_last()[j] == s[j]);
        }
        lemma_trim_end(s.drop_last(), i);
    } else {
        assert(s.subrange(0, s.len() as int) =~= s);
    }
}

fn slashes_only(s: &Vec<char>) -> (t: Vec<char>)
    ensures
        t@ == backslash_to_slash(s@),
        forall|k: int| 0 <= k < t@.len() ==> t@[k] != '\\',
{
    let mut t: Vec<char> = Vec::new();
    let mut i: usize = 0;
    while i < s.len()
        invariant
            i <= s.len(),
            t@ == backslash_to_slash(s@.subrange(0, i as int)),
        decreases s.len() - i,
    {
        let c = if s[i] == '\\' { '/' } else { s[i] };
        t.push(c);
        assert(backslash_to_slash(s@.subrange(0, i + 1)) =~= backslash_to_slash(s@.subrange(0, i as int)).push(c));
        i = i + 1;
    }
    assert(s@.subrange(0, s.len() as int) =~= s@);
    t
}

/// `t` without its leading `/` and `./` pieces and its trailing slashes.
fn trim_slashed(t: &Vec<char>) -> (r: Vec<char>)
    ensures
        r@ == trim_end_slash(strip_lead(t@)),
        r@.len() > 0 ==> r@[0] != '/' && r@.last() != '/',
        !(r@.len() >= 2 && r@[0] == '.' && r@[1] == '/'),
        (forall|k: int| 0 <= k < t@.len() ==> t@[k] != '\\') ==> (forall|k: int| 0 <= k < r@.len() ==> r@[k] != '\\'),
{
    let n = t.len();
    let mut lo: usize = 0;
    assert(t@.subrange(0, n as int) =~= t@);
    while lo < n && (t[lo] == '/' || (t[lo] == '.' && lo + 1 < n && t[lo + 1] == '/'))
        invariant
            lo <= n == t@.len(),
            strip_lead(t@.subrange(lo as int, n as int)) == strip_lead(t@),
        decreases n - lo,
    {
        let ghost u = t@.subrange(lo as int, n as int);
        if t[lo] == '/' {
            assert(u.drop_first() =~= t@.subrange(lo + 1, n as int));
            lo = lo + 1;
        } else {
            assert(u.subrange(2, u.len() as int) =~= t@.subrange(lo + 2, n as int));
            lo = lo + 2;
        }
    }
    let ghost v = t@.subrange(lo as int, n as int);
    assert(strip_lead(v) == v) by {
        if v.len() > 0 {
            assert(v[0] == t@[lo as int]);
        }
        if v.len() >= 2 {
            assert(v[1] == t@[lo + 1]);
        }
    }
    let mut hi: usize = n;
    while hi > lo && t[hi - 1] == '/'
        invariant
            lo <= hi <= n == t@.len(),
            forall|j: int| hi <= j < n ==> t@[j] == '/',
        decreases hi,
    {
        hi = hi - 1;
    }
    proof {
        lemma_trim_end(v, hi - lo);
        assert(v.subrange(0, hi - lo) =~= t@.subrange(lo as int, hi as int));
        assert(trim_end_slash(t@.subrange(lo as int, hi as int)) == t@.subrange(lo as int, hi as int)) by {
            if hi > lo {
                assert(t@.subrange(lo as int, hi as int).last() == t@[hi - 1]);
            }
        }
    }
    let r = slice_chars(t, lo, hi);
    proof {
        if r@.len() > 0 {
            assert(r@[0] == t@[lo as int]);
            assert(r@.last() == t@[hi - 1]);
        }
        if r@.len() >= 2 {
            assert(r@[1] == t@[lo + 1]);
        }
        if forall|k: int| 0 <= k < t@.len() ==> t@[k] != '\\' {
            assert forall|k: int| 0 <= k < r@.len() implies r@[k] != '\\' by {
                assert(r@[k] == t@[lo + k]);
            }
        }
    }
    r
}

/// Normalises a path inside an archive: `\` becomes `/`, leading `/` and
/// `./` pieces are dropped and trailing slashes trimmed (`./a/b/` and
/// `/./a/b` give `a/b`).
pub fn norm_inner(raw: &str) -> (r: String)
    ensures
        r@ == norm_inner_spec(raw@),
        forall|i: int| 0 <= i < r@.len() ==> r@[i] != '\\',
        r@.len() > 0 ==> r@[0] != '/' && r@.last() != '/',
        !(r@.len() >= 2 && r@[0] == '.' && r@[1] == '/'),
{
    let s = chars_of(raw);
    let t = slashes_only(&s);
    let r = trim_slashed(&t);
    string_of(&r)
}


// ---------- selection ----------

/// The names of a selection, when there is one.
pub open spec fn filter_names(f: Option<Vec<String>>) -> Option<Seq<Seq<char>>> {
    match f {
        Some(v) => Some(names_of(v@)),
        None => None,
    }
}

/// `inner` is `sel` itself or lies below it.
pub open spec fn under(inner: Seq<char>, sel: Seq<char>) -> bool {
    inner == sel || starts_with(inner, sel.push('/'))
}

/// No selection takes everything; a selection takes what is equal to or
/// below one of its paths.
pub open spec fn selected_spec(inner: Seq<char>, chosen: Option<Seq<Seq<char>>>) -> bool {
    match chosen {
        None => true,
        Some(l) => exists|i: int| 0 <= i < l.len() && #[trigger] under(inner, l[i]),
    }
}

pub proof fn lemma_selected_intro(x: Seq<char>, l: Seq<Seq<char>>, i: int)
    requires
        0 <= i < l.len(),
        under(x, l[i]),
    ensures
        selected_spec(x, Some(l)),
{
    assert(exists|k: int| 0 <= k < l.len() && #[trigger] under(x, l[k]));
    let o: Option<Seq<Seq<char>>> = Some(l);
    assert(o->0 == l);
}

/// Whether the item `inner` is among the selected ones (equal to one of
/// them, or a descendant of one); no selection means everything.
pub fn selected(inner: &str, filter: &Option<Vec<String>>) -> (r: bool)
    ensures
        r == selected_spec(inner@, filter_names(*filter)),
{
    match filter {
        None => true,
        Some(list) => {
            let s = chars_of(inner);
            let mut i: usize = 0;
            assert(filter_names(*filter) == Some(names_of(list@)));
            while i < list.len()
                invariant
                    i <= list.len(),
                    s@ == inner@,
                    filter_names(*filter) == Some(names_of(list@)),
                    forall|j: int| 0 <= j < i ==> !#[trigger] under(inner@, names_of(list@)[j]),
                decreases list.len() - i,
            {
                let p = chars_of(list[i].as_str());
                let mut ps = p.clone();
                assert(ps@ =~= p@);
                ps.push('/');
                if eq_chars(&s, &p) || starts_with_exec(&s, &ps) {
                    let ghost l = names_of(list@);
                    assert(under(inner@, l[i as int]));
                    assert(0 <= i < l.len());
                    proof { lemma_selected_intro(inner@, l, i as int); }
                    return true;
                }
                i = i + 1;
            }
            assert(filter_names(*filter) == Some(names_of(list@)));
            false
        },
    }
}

/// Selecting a path also selects everything below it.
pub proof fn law_selection_takes_descendants(inner: Seq<char>, rest: Seq<char>, filter: Option<Seq<Seq<char>>>)
    requires
        selected_spec(inner, filter),
    ensures
        selected_spec(inner + seq!['/'] + rest, filter),
{
    match filter {
        None => {},
        Some(l) => {
            let i = choose|i: int| 0 <= i < l.len() && #[trigger] under(inner, l[i]);
            let sel = l[i];
            let x = inner + seq!['/'] + rest;
            if inner == sel {
                assert(x.subrange(0, sel.push('/').len() as int) =~= sel.push('/'));
            } else {
                assert(x.subrange(0, sel.push('/').len() as int) =~= inner.subrange(0, sel.push('/').len() as int));
            }
            assert(under(x, l[i]));
            assert(exists|k: int| 0 <= k < l.len() && #[trigger] under(x, l[k]));
        },
    }
}


// ---------- joining under a destination ----------

/// `s` cut at every `/` (empty pieces included).
pub open spec fn pieces(s: Seq<char>) -> Seq<Seq<char>>
    decreases s.len(),
{
    if s.len() == 0 {
        seq![Seq::<char>::empty()]
    } else {
        let p = pieces(s.drop_last());
        if s.last() == '/' {
            p.push(Seq::<char>::empty())
        } else {
            p.update(p.len() - 1, p.last().push(s.last()))
        }
    }
}

pub open spec fn dot() -> Seq<char> {
    seq!['.']
}

pub open spec fn dot_dot() -> Seq<char> {
    seq!['.', '.']
}

/// A component that names a child: not empty, not `.` and not `..`.
pub open spec fn is_normal(c: Seq<char>) -> bool {
    c.len() > 0 && c != dot() && c != dot_dot()
}

/// The normal pieces, in order.
pub open spec fn kept(ps: Seq<Seq<char>>) -> Seq<Seq<char>>
    decreases ps.len(),
{
    if ps.len() == 0 {
        Seq::empty()
    } else if is_normal(ps.last()) {
        kept(ps.drop_last()).push(ps.last())
    } else {
        kept(ps.drop_last())
    }
}

pub open spec fn is_ascii_alpha(c: char) -> bool {
    (65 <= (c as u32) && (c as u32) <= 90) || (97 <= (c as u32) && (c as u32) <= 122)
}

/// A drive designator (`C:`) at the start.
pub open spec fn has_drive(s: Seq<char>) -> bool {
    s.len() >= 2 && is_ascii_alpha(s[0]) && s[1] == ':'
}

/// The components of an inner path that are joined under the destination,
/// or `None` when the path is absolute, starts at a drive, or has a `..`
/// component: such a path could leave the destination. `drives`: the
/// platform reads a leading `C:` as a drive (Windows does; elsewhere `C:` is
/// an ordinary name).
pub open spec fn safe_parts_spec(inner: Seq<char>, drives: bool) -> Option<Seq<Seq<char>>> {
    let s = backslash_to_slash(inner);
    if (s.len() > 0 && s[0] == '/') || (drives && has_drive(s)) || pieces(s).contains(dot_dot()) {
        None
    } else {
        Some(kept(pieces(s)))
    }
}

/// `base` with one more component (a separator is added when needed).
pub open spec fn push_component(base: Seq<char>, c: Seq<char>) -> Seq<char> {
    if base.len() == 0 {
        c
    } else if crate::names::is_sep(base.last()) {
        base + c
    } else {
        base + seq!['/'] + c
    }
}

pub open spec fn join_all(base: Seq<char>, cs: Seq<Seq<char>>) -> Seq<char>
    decreases cs.len(),
{
    if cs.len() == 0 {
        base
    } else {
        push_component(join_all(base, cs.drop_last()), cs.last())
    }
}

pub open spec fn suspicious_path_message(inner: Seq<char>) -> Seq<char> {
    "caminho suspeito no arquivo: "@ + inner
}

pub proof fn lemma_pieces(s: Seq<char>)
    ensures
        pieces(s).len() >= 1,
        forall|i: int, j: int| 0 <= i < pieces(s).len() && 0 <= j < pieces(s)[i].len() ==> #[trigger] pieces(s)[i][j] != '/',
    decreases s.len(),
{
    if s.len() > 0 {
        lemma_pieces(s.drop_last());
        let p = pieces(s.drop_last());
        if s.last() != '/' {
            assert forall|i: int, j: int| 0 <= i < pieces(s).len() && 0 <= j < pieces(s)[i].len() implies #[trigger] pieces(s)[i][j] != '/' by {
                if i == p.len() - 1 {
                    if j < p.last().len() {
                        assert(pieces(s)[i][j] == p[i][j]);
                    }
                } else {
                    assert(pieces(s)[i] == p[i]);
                }
            }
        } else {
            assert forall|i: int, j: int| 0 <= i < pieces(s).len() && 0 <= j < pieces(s)[i].len() implies #[trigger] pieces(s)[i][j] != '/' by {
                if i < p.len() {
                    assert(pieces(s)[i] == p[i]);
                }
            }
        }
    }
}

pub proof fn lemma_kept(ps: Seq<Seq<char>>)
    ensures
        forall|i: int| 0 <= i < kept(ps).len() ==> is_normal(#[trigger] kept(ps)[i]) && ps.contains(kept(ps)[i]),
    decreases ps.len(),
{
    if ps.len() > 0 {
        lemma_kept(ps.drop_last());
        let k = kept(ps.drop_last());
        assert forall|i: int| 0 <= i < kept(ps).len() implies is_normal(#[trigger] kept(ps)[i]) && ps.contains(kept(ps)[i]) by {
            if i < k.len() {
                assert(kept(ps)[i] == k[i]);
                let j = choose|j: int| 0 <= j < ps.drop_last().len() && ps.drop_last()[j] == k[i];
                assert(ps[j] == k[i]);
            } else {
                assert(kept(ps)[i] == ps.last());
                assert(ps[ps.len() - 1] == ps.last());
            }
        }
    }
}

pub proof fn lemma_join_prefix(base: Seq<char>, cs: Seq<Seq<char>>)
    ensures
        starts_with(join_all(base, cs), base),
    decreases cs.len(),
{
    if cs.len() > 0 {
        lemma_join_prefix(base, cs.drop_last());
        let b = join_all(base, cs.drop_last());
        let r = join_all(base, cs);
        let c = cs.last();
        if b.len() == 0 {
            assert(base.len() == 0);
            assert(r.subrange(0, 0) =~= base);
        } else {
            assert(r.subrange(0, b.len() as int) =~= b);
            assert(r.subrange(0, base.len() as int) =~= b.subrange(0, base.len() as int));
        }
    } else {
        assert(base.subrange(0, base.len() as int) =~= base);
    }
}

/// Zip-slip: a joined path starts with the destination and adds only
/// components that name children (no `..`, no `.`, no empty component, no
/// separator inside a component).
pub proof fn law_safe_join_stays_in_dest(dest: Seq<char>, inner: Seq<char>, drives: bool)
    requires
        safe_parts_spec(inner, drives) is Some,
    ensures
        starts_with(join_all(dest, safe_parts_spec(inner, drives).unwrap()), dest),
        forall|i: int| 0 <= i < safe_parts_spec(inner, drives).unwrap().len() ==> {
            let c = #[trigger] safe_parts_spec(inner, drives).unwrap()[i];
            &&& is_normal(c)
            &&& forall|j: int| 0 <= j < c.len() ==> !crate::names::is_sep(c[j])
        },
{
    let s = backslash_to_slash(inner);
    let ps = pieces(s);
    let cs = kept(ps);
    lemma_join_prefix(dest, cs);
    lemma_kept(ps);
    lemma_pieces(s);
    assert forall|i: int| 0 <= i < cs.len() implies {
        let c = #[trigger] cs[i];
        &&& is_normal(c)
        &&& forall|j: int| 0 <= j < c.len() ==> !crate::names::is_sep(c[j])
    } by {
        let c = cs[i];
        let k = choose|k: int| 0 <= k < ps.len() && ps[k] == c;
        assert forall|j: int| 0 <= j < c.len() implies !crate::names::is_sep(c[j]) by {
            assert(ps[k][j] != '/');
            let x = ps[k][j];
            assert(x != '\\') by {
                lemma_pieces_of_slashed(inner, k, j);
            }
        }
    }
}

/// A path with no `\` cuts into pieces with no `\`.
pub proof fn lemma_pieces_of_slashed(inner: Seq<char>, k: int, j: int)
    requires
        0 <= k < pieces(backslash_to_slash(inner)).len(),
        0 <= j < pieces(backslash_to_slash(inner))[k].len(),
    ensures
        pieces(backslash_to_slash(inner))[k][j] != '\\',
{
    let s = backslash_to_slash(inner);
    assert forall|i: int| 0 <= i < s.len() implies s[i] != '\\' by {}
    lemma_pieces_no_char(s, '\\', k, j);
}

pub proof fn lemma_pieces_no_char(s: Seq<char>, c: char, k: int, j: int)
    requires
        forall|i: int| 0 <= i < s.len() ==> s[i] != c,
        0 <= k < pieces(s).len(),
        0 <= j < pieces(s)[k].len(),
    ensures
        pieces(s)[k][j] != c,
    decreases s.len(),
{
    if s.len() > 0 {
        lemma_pieces(s.drop_last());
        let p = pieces(s.drop_last());
        assert forall|i: int| 0 <= i < s.drop_last().len() implies s.drop_last()[i] != c by {
            assert(s.drop_last()[i] == s[i]);
        }
        if s.last() == '/' {
            if k < p.len() {
                lemma_pieces_no_char(s.drop_last(), c, k, j);
            }
        } else {
            if k < p.len() - 1 {
                lemma_pieces_no_char(s.drop_last(), c, k, j);
            } else if j < p.last().len() {
                lemma_pieces_no_char(s.drop_last(), c, k, j);
            } else {
                assert(pieces(s)[k][j] == s.last());
            }
        }
    }
}


pub open spec fn views(v: Seq<Vec<char>>) -> Seq<Seq<char>> {
    v.map_values(|x: Vec<char>| x@)
}

/// `s` cut at every `/`.
fn split_pieces(s: &Vec<char>) -> (r: Vec<Vec<char>>)
    ensures
        views(r@) == pieces(s@),
{
    let mut done: Vec<Vec<char>> = Vec::new();
    let mut cur: Vec<char> = Vec::new();
    let mut i: usize = 0;
    assert(s@.subrange(0, 0) =~= Seq::<char>::empty());
    assert(views(done@) + seq![cur@] =~= pieces(Seq::<char>::empty()));
    while i < s.len()
        invariant
            i <= s.len(),
            views(done@) + seq![cur@] == pieces(s@.subrange(0, i as int)),
        decreases s.len() - i,
    {
        let ghost prev = s@.subrange(0, i as int);
        assert(s@.subrange(0, i + 1).drop_last() =~= prev);
        assert(s@.subrange(0, i + 1).last() == s@[i as int]);
        if s[i] == '/' {
            let piece = cur;
            done.push(piece);
            cur = Vec::new();
            assert(views(done@) + seq![cur@] =~= pieces(prev).push(Seq::<char>::empty()));
        } else {
            let ghost old_cur = cur@;
            cur.push(s[i]);
            assert(views(done@) + seq![cur@] =~= pieces(prev).update(
                pieces(prev).len() - 1,
                pieces(prev).last().push(s@[i as int]),
            ));
        }
        i = i + 1;
    }
    assert(s@.subrange(0, s.len() as int) =~= s@);
    done.push(cur);
    assert(views(done@) =~= pieces(s@));
    done
}

fn is_normal_exec(c: &Vec<char>) -> (r: bool)
    ensures
        r == is_normal(c@),
{
    let d = vec!['.'];
    let dd = vec!['.', '.'];
    assert(d@ =~= dot());
    assert(dd@ =~= dot_dot());
    c.len() > 0 && !eq_chars(c, &d) && !eq_chars(c, &dd)
}

fn push_component_exec(out: &mut Vec<char>, c: &Vec<char>)
    ensures
        final(out)@ == push_component(old(out)@, c@),
{
    if out.len() == 0 {
        push_all(out, c);
        assert(out@ =~= c@);
    } else {
        let last = out[out.len() - 1];
        if !(last == '/' || last == '\\') {
            out.push('/');
        }
        push_all(out, c);
    }
}

fn suspicious_path(inner: &str) -> (e: String)
    ensures
        e@ == suspicious_path_message(inner@),
{
    let mut e = String::from_str("caminho suspeito no arquivo: ");
    e.append(inner);
    e
}

/// Joins `dest` with an inner path, refusing any path that could leave
/// `dest` (zip-slip): an absolute path, one that starts at a drive, or one
/// with a `..` component. `.` and empty components are skipped. `drives`:
/// the platform reads a leading `C:` as a drive.
pub fn safe_join(dest: &str, inner: &str, drives: bool) -> (r: Result<String, String>)
    ensures
        match r {
            Ok(out) => safe_parts_spec(inner@, drives) matches Some(cs) && out@ == join_all(dest@, cs),
            Err(e) => safe_parts_spec(inner@, drives) is None && e@ == suspicious_path_message(inner@),
        },
{
    let raw = chars_of(inner);
    let s = slashes_only(&raw);
    assert(s@ == backslash_to_slash(inner@));
    if s.len() > 0 && s[0] == '/' {
        return Err(suspicious_path(inner));
    }
    if drives && s.len() >= 2 && s[1] == ':' {
        let cu: u32 = s[0] as u32;
        if (65 <= cu && cu <= 90) || (97 <= cu && cu <= 122) {
            assert(has_drive(s@));
            return Err(suspicious_path(inner));
        }
    }
    assert(!(drives && has_drive(s@)));
    let ps = split_pieces(&s);
    let dd = vec!['.', '.'];
    assert(dd@ =~= dot_dot());
    let mut k: usize = 0;
    while k < ps.len()
        invariant
            k <= ps.len(),
            views(ps@) == pieces(s@),
            dd@ == dot_dot(),
            s@ == backslash_to_slash(inner@),
            forall|j: int| 0 <= j < k ==> ps@[j]@ != dot_dot(),
        decreases ps.len() - k,
    {
        if eq_chars(&ps[k], &dd) {
            assert(views(ps@)[k as int] == ps@[k as int]@);
            assert(pieces(s@)[k as int] == dot_dot());
            assert(pieces(s@).contains(dot_dot()));
            return Err(suspicious_path(inner));
        }
        k = k + 1;
    }
    assert(!pieces(s@).contains(dot_dot())) by {
        if pieces(s@).contains(dot_dot()) {
            let j = choose|j: int| 0 <= j < pieces(s@).len() && pieces(s@)[j] == dot_dot();
            assert(views(ps@)[j] == ps@[j]@);
        }
    }
    let mut out = chars_of(dest);
    let mut k: usize = 0;
    assert(views(ps@.subrange(0, 0)) =~= Seq::<Seq<char>>::empty());
    while k < ps.len()
        invariant
            k <= ps.len(),
            views(ps@) == pieces(s@),
            out@ == join_all(dest@, kept(views(ps@.subrange(0, k as int)))),
        decreases ps.len() - k,
    {
        let ghost before = views(ps@.subrange(0, k as int));
        let ghost after = views(ps@.subrange(0, k + 1));
        assert(after =~= before.push(ps@[k as int]@));
        assert(after.drop_last() =~= before);
        assert(after.last() == ps@[k as int]@);
        if is_normal_exec(&ps[k]) {
            push_component_exec(&mut out, &ps[k]);
            assert(kept(after) == kept(before).push(ps@[k as int]@));
            assert(kept(after).drop_last() =~= kept(before));
        } else {
            assert(kept(after) == kept(before));
        }
        k = k + 1;
    }
    assert(ps@.subrange(0, ps@.len() as int) =~= ps@);
    Ok(string_of(&out))
}


// ---------- format by name ----------

/// The format that a lowercased name ends in.
pub open spec fn format_of_lower(l: Seq<char>) -> Option<Format> {
    if ends_with(l, seq!['.', 'r', 'a', 'r']) || is_old_volume_name_spec(l) {
        Some(Format::Rar)
    } else if ends_with(l, seq!['.', 'z', 'i', 'p']) {
        Some(Format::Zip)
    } else if ends_with(l, seq!['.', 't', 'a', 'r', '.', 'g', 'z']) || ends_with(l, seq!['.', 't', 'g', 'z']) {
        Some(Format::TarGz)
    } else if ends_with(l, seq!['.', 't', 'a', 'r', '.', 'x', 'z']) || ends_with(l, seq!['.', 't', 'x', 'z']) {
        Some(Format::TarXz)
    } else if ends_with(l, seq!['.', 't', 'a', 'r', '.', 'b', 'z', '2']) || ends_with(l, seq!['.', 't', 'b', 'z', '2'])
        || ends_with(l, seq!['.', 't', 'b', 'z']) {
        Some(Format::TarBz2)
    } else if ends_with(l, seq!['.', 't', 'a', 'r', '.', 'z', 's', 't']) || ends_with(l, seq!['.', 't', 'z', 's', 't']) {
        Some(Format::TarZst)
    } else if ends_with(l, seq!['.', 't', 'a', 'r']) {
        Some(Format::Tar)
    } else if ends_with(l, seq!['.', '7', 'z']) {
        Some(Format::SevenZ)
    } else {
        None
    }
}

/// The name the format is read from: a raw-cut volume (`foo.zip.001`)
/// counts by its name without the volume number.
pub open spec fn format_name(p: Seq<char>) -> Seq<char> {
    match numeric_suffix_spec(p) {
        Some((base, _, _)) => base,
        None => p,
    }
}

/// The format of an archive by its name (letter case does not matter).
pub open spec fn detect_format_spec(p: Seq<char>) -> Option<Format> {
    format_of_lower(lower(format_name(p)))
}

pub open spec fn unsupported_format_message() -> Seq<char> {
    "formato não suportado (zip, rar, 7z, tar, tar.gz/xz/bz2/zst)"@
}

fn ends_lit(l: &Vec<char>, lit: Vec<char>) -> (r: bool)
    ensures
        r == ends_with(l@, lit@),
{
    ends_with_exec(l, &lit)
}

fn format_of_lower_exec(l: &Vec<char>) -> (r: Option<Format>)
    ensures
        r == format_of_lower(l@),
{
    let rar = vec!['.', 'r', 'a', 'r'];
    assert(rar@ =~= seq!['.', 'r', 'a', 'r']);
    if ends_lit(l, rar) || is_old_volume_chars(l) {
        return Some(Format::Rar);
    }
    let zip = vec!['.', 'z', 'i', 'p'];
    assert(zip@ =~= seq!['.', 'z', 'i', 'p']);
    if ends_lit(l, zip) {
        return Some(Format::Zip);
    }
    let a = vec!['.', 't', 'a', 'r', '.', 'g', 'z'];
    let b = vec!['.', 't', 'g', 'z'];
    assert(a@ =~= seq!['.', 't', 'a', 'r', '.', 'g', 'z']);
    assert(b@ =~= seq!['.', 't', 'g', 'z']);
    if ends_lit(l, a) || ends_lit(l, b) {
        return Some(Format::TarGz);
    }
    let a = vec!['.', 't', 'a', 'r', '.', 'x', 'z'];
    let b = vec!['.', 't', 'x', 'z'];
    assert(a@ =~= seq!['.', 't', 'a', 'r', '.', 'x', 'z']);
    assert(b@ =~= seq!['.', 't', 'x', 'z']);
    if ends_lit(l, a) || ends_lit(l, b) {
        return Some(Format::TarXz);
    }
    let a = vec!['.', 't', 'a', 'r', '.', 'b', 'z', '2'];
    let b = vec!['.', 't', 'b', 'z', '2'];
    let c = vec!['.', 't', 'b', 'z'];
    assert(a@ =~= seq!['.', 't', 'a', 'r', '.', 'b', 'z', '2']);
    assert(b@ =~= seq!['.', 't', 'b', 'z', '2']);
    assert(c@ =~= seq!['.', 't', 'b', 'z']);
    if ends_lit(l, a) || ends_lit(l, b) || ends_lit(l, c) {
        return Some(Format::TarBz2);
    }
    let a = vec!['.', 't', 'a', 'r', '.', 'z', 's', 't'];
    let b = vec!['.', 't', 'z', 's', 't'];
    assert(a@ =~= seq!['.', 't', 'a', 'r', '.', 'z', 's', 't']);
    assert(b@ =~= seq!['.', 't', 'z', 's', 't']);
    if ends_lit(l, a) || ends_lit(l, b) {
        return Some(Format::TarZst);
    }
    let a = vec!['.', 't', 'a', 'r'];
    assert(a@ =~= seq!['.', 't', 'a', 'r']);
    if ends_lit(l, a) {
        return Some(Format::Tar);
    }
    let a = vec!['.', '7', 'z'];
    assert(a@ =~= seq!['.', '7', 'z']);
    if ends_lit(l, a) {
        return Some(Format::SevenZ);
    }
    None
}

/// The archive format by name; a raw-cut volume (`foo.tar.gz.002`) counts
/// by its name without the volume number.
pub fn detect_format(path: &str) -> (r: Result<Format, String>)
    ensures
        match r {
            Ok(f) => detect_format_spec(path@) == Some(f),
            Err(e) => detect_format_spec(path@) is None && e@ == unsupported_format_message(),
        },
{
    let base: Vec<char> = match numeric_suffix(path) {
        Some((b, _, _)) => chars_of(b.as_str()),
        None => chars_of(path),
    };
    assert(base@ == format_name(path@));
    let l = lower_exec(&base);
    match format_of_lower_exec(&l) {
        Some(f) => Ok(f),
        None => Err(String::from_str("formato não suportado (zip, rar, 7z, tar, tar.gz/xz/bz2/zst)")),
    }
}

/// A raw-cut volume has the format of its name without the volume number
/// (`foo.zip.001` is a zip, `foo.tar.gz.002` a tar.gz).
pub proof fn law_volume_has_format_of_base(p: Seq<char>)
    requires
        numeric_suffix_spec(p) matches Some((base, _, _)) && numeric_suffix_spec(base) is None,
    ensures
        detect_format_spec(p) == detect_format_spec(numeric_suffix_spec(p).unwrap().0),
{
}

/// Every old-style RAR volume name (`foo.r00`) is detected as RAR.
pub proof fn law_old_volume_names_are_rar(p: Seq<char>)
    requires
        is_old_volume_name_spec(lower(format_name(p))),
    ensures
        detect_format_spec(p) == Some(Format::Rar),
{
}


// ---------- dates ----------

/// `(14 - mo) / 12` rounded toward zero.
pub open spec fn month_shift(mo: int) -> int {
    if mo <= 14 {
        (14 - mo) / 12
    } else {
        -((mo - 14) / 12)
    }
}

/// Julian day number of a civil date.
pub open spec fn julian_day(y: int, mo: int, d: int) -> int {
    let a = month_shift(mo);
    let y2 = y + 4800 - a;
    let m2 = mo + 12 * a - 3;
    d + (153 * m2 + 2) / 5 + 365 * y2 + y2 / 4 - y2 / 100 + y2 / 400 - 32045
}

/// Milliseconds since 1970-01-01 of a civil date and time (as read, with no
/// time zone applied).
pub open spec fn epoch_ms(y: int, mo: int, d: int, h: int, mi: int, s: int) -> int {
    ((julian_day(y, mo, d) - 2440588) * 86400 + h * 3600 + mi * 60 + s) * 1000
}

/// Milliseconds since 1970-01-01 of a civil date and time, by the Julian day
/// number (what a zip entry's date shows as).
pub fn civil_epoch_ms(y: u16, mo: u8, d: u8, h: u8, mi: u8, s: u8) -> (r: i64)
    ensures
        r as int == epoch_ms(y as int, mo as int, d as int, h as int, mi as int, s as int),
{
    let mo64: i64 = mo as i64;
    let a: i64 = if mo <= 14 {
        (14 - mo64) / 12
    } else {
        -((mo64 - 14) / 12)
    };
    assert(a == month_shift(mo as int));
    let y2: i64 = y as i64 + 4800 - a;
    let m2: i64 = mo64 + 12 * a - 3;
    assert(m2 >= 0);
    assert(y2 > 0);
    let jdn: i64 = d as i64 + (153 * m2 + 2) / 5 + 365 * y2 + y2 / 4 - y2 / 100 + y2 / 400 - 32045;
    assert(jdn == julian_day(y as int, mo as int, d as int));
    let days: i64 = jdn - 2440588;
    (days * 86400 + h as i64 * 3600 + mi as i64 * 60 + s as i64) * 1000
}


// ---------- listing summary ----------

/// A raw entry with its path normalised.
pub open spec fn normalised_ok(raw: AEntry, e: AEntry) -> bool {
    &&& e.path@ == norm_inner_spec(raw.path@)
    &&& e.is_dir == raw.is_dir
    &&& e.size == raw.size
    &&& e.compressed == raw.compressed
    &&& e.modified_ms == raw.modified_ms
    &&& e.encrypted == raw.encrypted
}

/// The raw entries that a listing keeps: those whose normalised path is not
/// empty (the archive's own root entry, for instance, is dropped).
pub open spec fn kept_entries(es: Seq<AEntry>) -> Seq<AEntry>
    decreases es.len(),
{
    if es.len() == 0 {
        Seq::empty()
    } else if norm_inner_spec(es.last().path@).len() > 0 {
        kept_entries(es.drop_last()).push(es.last())
    } else {
        kept_entries(es.drop_last())
    }
}

/// The listing of raw entries (as the archive stores them): paths
/// normalised, entries with an empty path dropped, order kept.
pub fn listing(raw: &Vec<AEntry>) -> (r: Vec<AEntry>)
    ensures
        r@.len() == kept_entries(raw@).len(),
        forall|i: int| 0 <= i < r@.len() ==> normalised_ok(kept_entries(raw@)[i], #[trigger] r@[i]),
{
    let mut out: Vec<AEntry> = Vec::new();
    let mut i: usize = 0;
    while i < raw.len()
        invariant
            i <= raw.len(),
            out@.len() == kept_entries(raw@.subrange(0, i as int)).len(),
            forall|k: int| 0 <= k < out@.len() ==> normalised_ok(
                kept_entries(raw@.subrange(0, i as int))[k],
                #[trigger] out@[k],
            ),
        decreases raw.len() - i,
    {
        let ghost before = raw@.subrange(0, i as int);
        let ghost after = raw@.subrange(0, i + 1);
        assert(after.drop_last() =~= before);
        assert(after.last() == raw@[i as int]);
        let e = &raw[i];
        let inner = norm_inner(e.path.as_str());
        if inner.unicode_len() > 0 {
            out.push(AEntry {
                path: inner,
                is_dir: e.is_dir,
                size: e.size,
                compressed: e.compressed,
                modified_ms: e.modified_ms,
                encrypted: e.encrypted,
            });
            assert(kept_entries(after) == kept_entries(before).push(raw@[i as int]));
            assert forall|k: int| 0 <= k < out@.len() implies normalised_ok(
                kept_entries(after)[k],
                #[trigger] out@[k],
            ) by {
                if k < out@.len() - 1 {
                    assert(kept_entries(after)[k] == kept_entries(before)[k]);
                }
            }
        } else {
            assert(kept_entries(after) == kept_entries(before));
        }
        i = i + 1;
    }
    assert(raw@.subrange(0, raw@.len() as int) =~= raw@);
    out
}

/// Total size of the files (not directories) among `es`.
pub open spec fn files_size(es: Seq<AEntry>) -> nat
    decreases es.len(),
{
    if es.len() == 0 {
        0
    } else {
        files_size(es.drop_last()) + if es.last().is_dir {
            0nat
        } else {
            es.last().size as nat
        }
    }
}

/// The zip-bomb heuristic: more than 500 MiB expanded at a ratio above 200.
pub open spec fn bomb_spec(total: nat, archive_bytes: nat) -> bool {
    total > 500 * 1024 * 1024 && archive_bytes > 0 && total / archive_bytes > 200
}

/// Total size of the files among `entries`, when it fits in a `u64`.
pub fn files_total(entries: &Vec<AEntry>) -> (r: Option<u64>)
    ensures
        match r {
            Some(t) => t as nat == files_size(entries@),
            None => files_size(entries@) > u64::MAX,
        },
{
    let mut t: u64 = 0;
    let mut i: usize = 0;
    while i < entries.len()
        invariant
            i <= entries.len(),
            t as nat == files_size(entries@.subrange(0, i as int)),
        decreases entries.len() - i,
    {
        let ghost before = entries@.subrange(0, i as int);
        assert(entries@.subrange(0, i + 1).drop_last() =~= before);
        if !entries[i].is_dir {
            if entries[i].size > u64::MAX - t {
                proof { lemma_files_size_prefix(entries@, i + 1); }
                return None;
            }
            t = t + entries[i].size;
        }
        i = i + 1;
    }
    assert(entries@.subrange(0, entries@.len() as int) =~= entries@);
    Some(t)
}

/// The files' size of a prefix is at most the whole's.
pub proof fn lemma_files_size_prefix(es: Seq<AEntry>, k: int)
    requires
        0 <= k <= es.len(),
    ensures
        files_size(es.subrange(0, k)) <= files_size(es),
    decreases es.len() - k,
{
    if k < es.len() {
        lemma_files_size_prefix(es, k + 1);
        assert(es.subrange(0, k + 1).drop_last() =~= es.subrange(0, k));
    } else {
        assert(es.subrange(0, k) =~= es);
    }
}

/// What opening an archive shows, from its listing and its size on disk
/// (for a volume set, the sum of the volumes): the files' total size and the
/// zip-bomb warning.
pub fn archive_info(path: &str, format: Format, entries: Vec<AEntry>, archive_bytes: u64) -> (r: ArchiveInfo)
    requires
        files_size(entries@) <= u64::MAX,
    ensures
        r.path@ == path@,
        r.format == format,
        r.entries@ == entries@,
        r.total_size as nat == files_size(entries@),
        r.archive_bytes == archive_bytes,
        r.bomb_suspect == bomb_spec(files_size(entries@), archive_bytes as nat),
{
    let total_size = match files_total(&entries) {
        Some(t) => t,
        None => 0,
    };
    let bomb_suspect = total_size > 500 * 1024 * 1024 && archive_bytes > 0 && total_size / archive_bytes > 200;
    ArchiveInfo { path: path.to_owned(), format, entries, total_size, archive_bytes, bomb_suspect }
}

// ---------- selection totals ----------

/// Count and size of the selected files (not directories) of a listing.
pub open spec fn selection_spec(es: Seq<AEntry>, filter: Option<Seq<Seq<char>>>) -> (nat, nat)
    decreases es.len(),
{
    if es.len() == 0 {
        (0, 0)
    } else {
        let (n, b) = selection_spec(es.drop_last(), filter);
        let e = es.last();
        if !e.is_dir && selected_spec(e.path@, filter) {
            (n + 1, b + e.size as nat)
        } else {
            (n, b)
        }
    }
}

/// How many files, and how many bytes, a selection takes from a listing
/// (what progress counts against).
pub fn selection_totals(entries: &Vec<AEntry>, filter: &Option<Vec<String>>) -> (r: (u64, u64))
    requires
        entries@.len() <= u64::MAX,
        files_size(entries@) <= u64::MAX,
    ensures
        (r.0 as nat, r.1 as nat) == selection_spec(entries@, filter_names(*filter)),
{
    let mut n: u64 = 0;
    let mut b: u64 = 0;
    let mut i: usize = 0;
    while i < entries.len()
        invariant
            i <= entries.len() <= u64::MAX,
            files_size(entries@) <= u64::MAX,
            (n as nat, b as nat) == selection_spec(entries@.subrange(0, i as int), filter_names(*filter)),
            n <= i,
            b <= files_size(entries@.subrange(0, i as int)),
        decreases entries.len() - i,
    {
        let ghost before = entries@.subrange(0, i as int);
        assert(entries@.subrange(0, i + 1).drop_last() =~= before);
        proof { lemma_files_size_prefix(entries@, i + 1); }
        if !entries[i].is_dir && selected(entries[i].path.as_str(), filter) {
            n = n + 1;
            b = b + entries[i].size;
        }
        i = i + 1;
    }
    assert(entries@.subrange(0, entries@.len() as int) =~= entries@);
    (n, b)
}

} // verus!
