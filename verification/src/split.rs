//! Raw-cut split volumes (`foo.zip.001`, `foo.zip.002`, ...): recognising a
//! volume name, finding the whole set from any one volume, and telling a real
//! multi-disk zip (`foo.z01`) apart.
//!
//! The file system is not read here: callers pass `siblings`, the names of
//! the regular files in the directory of the path they ask about.

use vstd::prelude::*;
use vstd::set_lib::*;
use crate::text::{decimal, pow10, lemma_decimal_len, lemma_padded_value, lemma_rfind_dot, all_digits, all_digits_exec, digits_value, parse_usize, rfind, rfind_exec, rsplit_once, slice_chars, string_of, lemma_rfind_from, chars_of, eq_chars, padded, padded_exec, push_all, lemma_padded_injective, lower, lower_exec, ends_with, ends_with_exec};

use crate::names::{is_sep, name_start, tail_trimmed, push_name, lemma_name_start_after, lemma_file_name_no_sep, dir_of, last_component, lemma_name_start, file_name, file_name_exec, with_file_name, with_file_name_exec, stem_of, stem_exec};

verus! {

/// The names in a list of strings.
pub open spec fn names_of(v: Seq<String>) -> Seq<Seq<char>> {
    v.map_values(|s: String| s@)
}

/// The `i`-th name of a numbered family: `prefix`, `i` padded to `width`
/// digits, then `suffix`.
pub open spec fn numbered(prefix: Seq<char>, i: nat, width: nat, suffix: Seq<char>) -> Seq<char> {
    prefix + padded(i, width) + suffix
}

/// Two members of one numbered family with the same name have the same number.
pub proof fn lemma_numbered_injective(prefix: Seq<char>, a: nat, b: nat, w: nat, suffix: Seq<char>)
    requires
        numbered(prefix, a, w, suffix) == numbered(prefix, b, w, suffix),
    ensures
        a == b,
{
    let x = numbered(prefix, a, w, suffix);
    let y = numbered(prefix, b, w, suffix);
    assert(x.len() == y.len());
    assert(padded(a, w).len() == padded(b, w).len());
    assert(x.subrange(prefix.len() as int, (prefix.len() + padded(a, w).len()) as int) =~= padded(a, w));
    assert(y.subrange(prefix.len() as int, (prefix.len() + padded(b, w).len()) as int) =~= padded(b, w));
    lemma_padded_injective(a, b, w);
}

/// Copies each string's characters.
pub fn char_lists(v: &Vec<String>) -> (r: Vec<Vec<char>>)
    ensures
        r@.len() == v@.len(),
        forall|i: int| 0 <= i < v@.len() ==> (#[trigger] r@[i])@ == v@[i]@,
{
    let mut r: Vec<Vec<char>> = Vec::new();
    let mut i: usize = 0;
    while i < v.len()
        invariant
            i <= v.len(),
            r@.len() == i,
            forall|j: int| 0 <= j < i ==> (#[trigger] r@[j])@ == v@[j]@,
        decreases v.len() - i,
    {
        r.push(chars_of(v[i].as_str()));
        i = i + 1;
    }
    r
}

/// Where `n` is in `names`, if anywhere.
pub fn position_of(names: &Vec<Vec<char>>, n: &Vec<char>) -> (r: Option<usize>)
    ensures
        match r {
            Some(j) => j < names@.len() && names@[j as int]@ == n@,
            None => forall|j: int| 0 <= j < names@.len() ==> (#[trigger] names@[j])@ != n@,
        },
{
    let mut j: usize = 0;
    while j < names.len()
        invariant
            j <= names.len(),
            forall|k: int| 0 <= k < j ==> (#[trigger] names@[k])@ != n@,
        decreases names.len() - j,
    {
        if eq_chars(&names[j], n) {
            return Some(j);
        }
        j = j + 1;
    }
    None
}

/// Whether `names` holds `n`.
pub open spec fn holds(names: Seq<Seq<char>>, n: Seq<char>) -> bool {
    exists|j: int| 0 <= j < names.len() && names[j] == n
}

/// `s` as a file system compares it: lowercased where names are compared
/// without regard to letter case (`fold`), as is.
pub open spec fn folded(s: Seq<char>, fold: bool) -> Seq<char> {
    if fold {
        lower(s)
    } else {
        s
    }
}

pub open spec fn folded_names(names: Seq<Seq<char>>, fold: bool) -> Seq<Seq<char>> {
    names.map_values(|n: Seq<char>| folded(n, fold))
}

/// A file called `n` is among `names`, letter case aside when `fold`.
pub open spec fn present(names: Seq<Seq<char>>, n: Seq<char>, fold: bool) -> bool {
    holds(folded_names(names, fold), folded(n, fold))
}

pub fn fold_exec(s: &Vec<char>, fold: bool) -> (r: Vec<char>)
    ensures
        r@ == folded(s@, fold),
{
    if fold {
        lower_exec(s)
    } else {
        s.clone()
    }
}

/// The names of `v`, each as the file system compares it.
pub fn sibling_lists(v: &Vec<String>, fold: bool) -> (r: Vec<Vec<char>>)
    ensures
        r@.len() == v@.len(),
        r@.map_values(|c: Vec<char>| c@) == folded_names(names_of(v@), fold),
{
    let mut r: Vec<Vec<char>> = Vec::new();
    let mut i: usize = 0;
    while i < v.len()
        invariant
            i <= v.len(),
            r@.len() == i,
            forall|j: int| 0 <= j < i ==> (#[trigger] r@[j])@ == folded(v@[j]@, fold),
        decreases v.len() - i,
    {
        let c = chars_of(v[i].as_str());
        r.push(fold_exec(&c, fold));
        i = i + 1;
    }
    assert(r@.map_values(|c: Vec<char>| c@) =~= folded_names(names_of(v@), fold));
    r
}

/// Whether a file called `n` is among the names `sibs` (already folded).
fn present_exec(sibs: &Vec<Vec<char>>, n: &Vec<char>) -> (r: bool)
    ensures
        r == holds(sibs@.map_values(|c: Vec<char>| c@), n@),
{
    let ghost names = sibs@.map_values(|c: Vec<char>| c@);
    match position_of(sibs, n) {
        Some(j) => {
            assert(names[j as int] == sibs@[j as int]@);
            true
        },
        None => {
            assert(!holds(names, n@)) by {
                if holds(names, n@) {
                    let j = choose|j: int| 0 <= j < names.len() && names[j] == n@;
                    assert(names[j] == sibs@[j]@);
                }
            }
            false
        },
    }
}

/// How many members of a numbered family exist one after the other,
/// counting from number `start`.
pub fn consecutive_run(
    sibs: &Vec<Vec<char>>,
    prefix: &Vec<char>,
    start: usize,
    width: usize,
    suffix: &Vec<char>,
) -> (r: usize)
    requires
        start <= 1,
        sibs@.len() < usize::MAX,
    ensures
        r <= sibs@.len(),
        forall|k: nat| k < r ==> holds(
            sibs@.map_values(|c: Vec<char>| c@),
            #[trigger] numbered(prefix@, (start + k) as nat, width as nat, suffix@),
        ),
        !holds(sibs@.map_values(|c: Vec<char>| c@), numbered(prefix@, (start + r) as nat, width as nat, suffix@)),
{
    let ghost names = sibs@.map_values(|c: Vec<char>| c@);
    let ghost mut used: Set<int> = Set::empty();
    let mut i: usize = start;
    loop
        invariant
            start <= 1,
            sibs@.len() < usize::MAX,
            start <= i,
            i - start <= sibs@.len(),
            names == sibs@.map_values(|c: Vec<char>| c@),
            used.finite(),
            used.len() == i - start,
            forall|j: int| used.contains(j) ==> 0 <= j < sibs@.len(),
            forall|j: int| #![trigger used.contains(j)] used.contains(j) ==> exists|k: nat|
                start <= k < i && names[j] == #[trigger] numbered(prefix@, k, width as nat, suffix@),
            forall|k: nat| start <= k < i ==> holds(names, #[trigger] numbered(prefix@, k, width as nat, suffix@)),
        decreases sibs@.len() - (i - start),
    {
        let mut cand = prefix.clone();
        proof { assert(cand@ =~= prefix@); }
        let digits = padded_exec(i, width);
        push_all(&mut cand, &digits);
        push_all(&mut cand, suffix);
        assert(cand@ == numbered(prefix@, i as nat, width as nat, suffix@));
        match position_of(sibs, &cand) {
            None => {
                proof {
                    assert forall|k: nat| k < i - start implies holds(names, #[trigger] numbered(prefix@, (start + k) as nat, width as nat, suffix@)) by {
                        assert(start <= start + k < i);
                    }
                    if holds(names, cand@) {
                        let j = choose|j: int| 0 <= j < names.len() && names[j] == cand@;
                        assert(names[j] == sibs@[j]@);
                    }
                }
                return i - start;
            },
            Some(j0) => {
                proof {
                    assert(names[j0 as int] == sibs@[j0 as int]@);
                    if used.contains(j0 as int) {
                        let k = choose|k: nat| start <= k < i && names[j0 as int] == numbered(prefix@, k, width as nat, suffix@);
                        lemma_numbered_injective(prefix@, k, i as nat, width as nat, suffix@);
                    }
                    let old_used = used;
                    used = used.insert(j0 as int);
                    assert forall|j: int| #![trigger used.contains(j)] used.contains(j) implies exists|k: nat|
                        start <= k < i + 1 && names[j] == #[trigger] numbered(prefix@, k, width as nat, suffix@) by {
                        if j == j0 as int {
                            assert(names[j] == numbered(prefix@, i as nat, width as nat, suffix@));
                        } else {
                            assert(old_used.contains(j));
                        }
                    }
                    assert(used.subset_of(set_int_range(0, sibs@.len() as int)));
                    lemma_int_range(0, sibs@.len() as int);
                    lemma_len_subset(used, set_int_range(0, sibs@.len() as int));
                    assert(holds(names, numbered(prefix@, i as nat, width as nat, suffix@)));
                }
                i = i + 1;
            },
        }
    }
}


/// `(base, number, width)` when the file name of `p` ends in a raw-cut volume
/// number: a dot and at least three decimal digits (`foo.zip.001` gives
/// `foo.zip`, 1 and 3).
pub open spec fn numeric_suffix_spec(p: Seq<char>) -> Option<(Seq<char>, nat, nat)> {
    match file_name(p) {
        None => None,
        Some(name) => match rsplit_once(name, seq!['.']) {
            None => None,
            Some((stem, num)) => if num.len() < 3 || !all_digits(num) || digits_value(num)
                > usize::MAX {
                None
            } else {
                Some((with_file_name(p, stem), digits_value(num), num.len()))
            },
        },
    }
}

/// `(base, number, width)` of a raw-cut volume name, or `None` when `path`
/// is not one.
pub fn numeric_suffix(path: &str) -> (r: Option<(String, usize, usize)>)
    ensures
        match r {
            Some((base, n, w)) => numeric_suffix_spec(path@) == Some((base@, n as nat, w as nat)),
            None => numeric_suffix_spec(path@) is None,
        },
{
    let p = chars_of(path);
    let name = match file_name_exec(&p) {
        Some(n) => n,
        None => return None,
    };
    let dot = vec!['.'];
    assert(dot@ =~= seq!['.']);
    proof { lemma_rfind_from(name@, dot@, name@.len() - 1); }
    let i = match rfind_exec(&name, &dot) {
        Some(i) => i,
        None => return None,
    };
    let stem = slice_chars(&name, 0, i);
    let num = slice_chars(&name, i + 1, name.len());
    if num.len() < 3 || !all_digits_exec(&num) {
        return None;
    }
    let n = match parse_usize(&num) {
        Some(n) => n,
        None => return None,
    };
    let base = with_file_name_exec(&p, &stem);
    Some((string_of(&base), n, num.len()))
}

/// The name without its raw-cut volume number (`foo.zip.001` gives
/// `foo.zip`): the format of a volume set is read from it.
pub fn volume_base_name(path: &str) -> (r: Option<String>)
    ensures
        match r {
            Some(b) => numeric_suffix_spec(path@) matches Some((base, _, _)) && b@ == base,
            None => numeric_suffix_spec(path@) is None,
        },
{
    match numeric_suffix(path) {
        Some((base, _, _)) => Some(base),
        None => None,
    }
}

/// The name of the first disk of a real multi-disk zip next to `p`: only a
/// `.zip` (any letter case) has one.
pub open spec fn first_disk_name(p: Seq<char>) -> Option<Seq<char>> {
    match file_name(p) {
        Some(n) => if ends_with(lower(n), seq!['.', 'z', 'i', 'p']) {
            Some(stem_of(n) + seq!['.', 'z', '0', '1'])
        } else {
            None
        },
        None => None,
    }
}

/// A `.zip` with a `.z01` sibling is a real multi-disk zip (its central
/// directory offsets are per disk, so joining the disks would not help).
pub fn multi_disk_zip(path: &str, siblings: &Vec<String>, fold: bool) -> (r: bool)
    ensures
        r == (first_disk_name(path@) matches Some(n) && present(names_of(siblings@), n, fold)),
{
    let p = chars_of(path);
    let name = match file_name_exec(&p) {
        Some(n) => n,
        None => return false,
    };
    let zip = vec!['.', 'z', 'i', 'p'];
    assert(zip@ =~= seq!['.', 'z', 'i', 'p']);
    if !ends_with_exec(&lower_exec(&name), &zip) {
        return false;
    }
    let mut first = stem_exec(&name);
    first.push('.');
    first.push('z');
    first.push('0');
    first.push('1');
    assert(first@ =~= stem_of(name@) + seq!['.', 'z', '0', '1']);
    let sibs = sibling_lists(siblings, fold);
    present_exec(&sibs, &fold_exec(&first, fold))
}


/// Exactly `c` members of a numbered family exist one after the other from
/// number `start`.
pub open spec fn run_exact(
    names: Seq<Seq<char>>,
    prefix: Seq<char>,
    start: nat,
    width: nat,
    suffix: Seq<char>,
    c: nat,
) -> bool {
    &&& forall|k: nat| k < c ==> holds(names, #[trigger] numbered(prefix, start + k, width, suffix))
    &&& !holds(names, numbered(prefix, start + c, width, suffix))
}

/// The length of the run of consecutive numbered members from `start`.
pub open spec fn run_len(
    names: Seq<Seq<char>>,
    prefix: Seq<char>,
    start: nat,
    width: nat,
    suffix: Seq<char>,
) -> nat {
    choose|c: nat| run_exact(names, prefix, start, width, suffix, c)
}

pub proof fn lemma_run_unique(
    names: Seq<Seq<char>>,
    prefix: Seq<char>,
    start: nat,
    width: nat,
    suffix: Seq<char>,
    c: nat,
)
    requires
        run_exact(names, prefix, start, width, suffix, c),
    ensures
        run_len(names, prefix, start, width, suffix) == c,
{
    let d = run_len(names, prefix, start, width, suffix);
    assert(run_exact(names, prefix, start, width, suffix, d));
    if d < c {
        assert(holds(names, numbered(prefix, start + d, width, suffix)));
    } else if c < d {
        assert(holds(names, numbered(prefix, start + c, width, suffix)));
    }
}

/// The file name of a base path, or nothing.
pub open spec fn name_or_empty(p: Seq<char>) -> Seq<char> {
    match file_name(p) {
        Some(n) => n,
        None => Seq::empty(),
    }
}

/// A numbered sibling of `base` leads back to the same family: its own
/// sibling named after `base`'s name (or nothing) has that same name and
/// the same siblings as `base`, whatever `base` ends with.
pub proof fn lemma_rebase(base: Seq<char>, nq: Seq<char>)
    requires
        nq.len() > 2,
        forall|i: int| 0 <= i < nq.len() ==> !is_sep(#[trigger] nq[i]),
    ensures
        file_name(with_file_name(base, nq)) == Some(nq),
        name_or_empty(with_file_name(with_file_name(base, nq), name_or_empty(base))) == name_or_empty(base),
        forall|x: Seq<char>|
            #[trigger] with_file_name(with_file_name(with_file_name(base, nq), name_or_empty(base)), x)
                == with_file_name(base, x),
{
    let bn = name_or_empty(base);
    let q = with_file_name(base, nq);
    assert(nq != seq!['.'] && nq != seq!['.', '.']) by {
        assert(nq.len() != 1 && nq.len() != 2);
    }
    let d: Seq<char> = match file_name(base) {
        Some(_) => dir_of(tail_trimmed(base)),
        None => if base.len() == 0 || is_sep(base.last()) { base } else { base + seq!['/'] },
    };
    assert(d.len() == 0 || is_sep(d.last())) by {
        if file_name(base) is Some {
            let t = tail_trimmed(base);
            lemma_name_start(t);
            if d.len() > 0 {
                assert(d.last() == t[name_start(t) - 1]);
            }
        }
    }
    assert(q =~= d + nq);
    lemma_name_start_after(d, nq);
    assert(dir_of(q) =~= d);
    assert(last_component(q) =~= nq);
    assert(q.last() == nq.last());
    assert(tail_trimmed(q) == q) by {
        if q.len() >= 2 && q.last() == '.' && is_sep(q[q.len() - 2]) {
            assert(q[q.len() - 2] == nq[nq.len() - 2]);
        }
    }
    assert(file_name(q) == Some(nq));
    let base2 = with_file_name(q, bn);
    assert(base2 == d + bn);
    match file_name(base) {
        Some(n) => {
            lemma_file_name_no_sep(base);
            assert(bn == n);
            lemma_name_start_after(d, bn);
            assert(last_component(base2) =~= bn);
            assert(dir_of(base2) =~= d);
            assert(bn.len() > 0 && bn != seq!['.']);
            assert(base2.last() == bn.last());
            assert(tail_trimmed(base2) == base2) by {
                if base2.len() >= 2 && base2.last() == '.' && is_sep(base2[base2.len() - 2]) {
                    if bn.len() >= 2 {
                        assert(base2[base2.len() - 2] == bn[bn.len() - 2]);
                    } else {
                        assert(bn =~= seq!['.']);
                    }
                }
            }
            assert(file_name(base2) == Some(bn));
            assert forall|x: Seq<char>| #[trigger] with_file_name(base2, x) == with_file_name(base, x) by {}
        },
        None => {
            assert(bn.len() == 0);
            assert(base2 =~= d);
            // `d` is `base` with a separator at most: it names the same thing
            assert(tail_trimmed(d) == tail_trimmed(base)) by {
                if d.len() > 0 && d != base {
                    assert(d.drop_last() =~= base);
                }
            }
            assert(file_name(base2) is None);
            assert forall|x: Seq<char>| #[trigger] with_file_name(base2, x) == with_file_name(base, x) by {
                assert(push_name(d, x) =~= push_name(base, x));
            }
        },
    }
}

/// The volumes of a raw-cut set, in order, as paths.
///
/// Numbering starts at `000` when that volume exists, else at `001`; the set
/// is the longest run of consecutive numbers that exist, and fewer than two
/// volumes is no set at all.
pub open spec fn volume_parts_spec(p: Seq<char>, names: Seq<Seq<char>>, fold: bool) -> Option<Seq<Seq<char>>> {
    match numeric_suffix_spec(p) {
        None => None,
        Some((base, _, w)) => {
            let pre = name_or_empty(base) + seq!['.'];
            let fnames = folded_names(names, fold);
            let fpre = folded(pre, fold);
            let st: nat = if holds(fnames, numbered(fpre, 0, w, seq![])) { 0 } else { 1 };
            let c = run_len(fnames, fpre, st, w, seq![]);
            if c < 2 {
                None
            } else {
                Some(Seq::new(c, |k: int| with_file_name(base, numbered(pre, (st + k) as nat, w, seq![]))))
            }
        },
    }
}

/// The volumes of the raw-cut set that `path` belongs to, in order, from any
/// of its volumes; `None` when `path` is not a volume or stands alone.
pub fn volume_parts(path: &str, siblings: &Vec<String>, fold: bool) -> (r: Option<Vec<String>>)
    requires
        siblings@.len() < usize::MAX,
    ensures
        match r {
            Some(v) => volume_parts_spec(path@, names_of(siblings@), fold) == Some(names_of(v@)),
            None => volume_parts_spec(path@, names_of(siblings@), fold) is None,
        },
{
    let ghost names = folded_names(names_of(siblings@), fold);
    let (base, _n, width) = match numeric_suffix(path) {
        Some(t) => t,
        None => return None,
    };
    let b = chars_of(base.as_str());
    let mut pre = match file_name_exec(&b) {
        Some(n) => n,
        None => Vec::new(),
    };
    pre.push('.');
    let ghost pre_s = name_or_empty(b@) + seq!['.'];
    assert(pre@ =~= pre_s);
    let sibs = sibling_lists(siblings, fold);
    let fpre = fold_exec(&pre, fold);
    let ghost fpre_s = folded(pre_s, fold);
    let empty: Vec<char> = Vec::new();
    assert(empty@ =~= seq![]);
    let mut zero = fpre.clone();
    assert(zero@ =~= fpre@);
    let z = padded_exec(0, width);
    push_all(&mut zero, &z);
    assert(zero@ =~= numbered(fpre_s, 0, width as nat, seq![]));
    let start: usize = if present_exec(&sibs, &zero) { 0 } else { 1 };
    let count = consecutive_run(&sibs, &fpre, start, width, &empty);
    proof {
        lemma_run_unique(names, fpre_s, start as nat, width as nat, seq![], count as nat);
    }
    if count < 2 {
        return None;
    }
    let mut out: Vec<String> = Vec::new();
    let mut k: usize = 0;
    while k < count
        invariant
            k <= count,
            count <= sibs@.len() < usize::MAX,
            start <= 1,
            pre@ == pre_s,
            b@ == base@,
            out@.len() == k,
            forall|j: int| 0 <= j < k ==> (#[trigger] out@[j])@ == with_file_name(
                base@,
                numbered(pre_s, (start + j) as nat, width as nat, seq![]),
            ),
        decreases count - k,
    {
        let mut name = pre.clone();
        assert(name@ =~= pre@);
        let digits = padded_exec(start + k, width);
        push_all(&mut name, &digits);
        assert(name@ =~= numbered(pre_s, (start + k) as nat, width as nat, seq![]));
        let full = with_file_name_exec(&b, &name);
        out.push(string_of(&full));
        k = k + 1;
    }
    assert(names_of(out@) =~= Seq::new(
        count as nat,
        |j: int| with_file_name(base@, numbered(pre_s, (start + j) as nat, width as nat, seq![])),
    ));
    Some(out)
}


/// Opening a raw-cut set by any of its volumes whose number prints in the
/// set's digit width finds the same set, in the same order (a volume
/// numbered past that width, such as `.1000` in a `.001` set, reads as a
/// family of its own).
pub proof fn law_volume_parts_any_volume(p: Seq<char>, names: Seq<Seq<char>>, fold: bool, k: int)
    requires
        volume_parts_spec(p, names, fold) is Some,
        0 <= k < volume_parts_spec(p, names, fold).unwrap().len(),
        volume_parts_spec(p, names, fold).unwrap().len() < usize::MAX,
        numeric_suffix_spec(p) is Some,
        numeric_suffix_spec(volume_parts_spec(p, names, fold).unwrap()[k]) is Some,
        numeric_suffix_spec(volume_parts_spec(p, names, fold).unwrap()[k]).unwrap().2 == numeric_suffix_spec(p).unwrap().2,
    ensures
        volume_parts_spec(volume_parts_spec(p, names, fold).unwrap()[k], names, fold) == volume_parts_spec(
            p,
            names,
            fold,
        ),
{
    let (base, n, w) = numeric_suffix_spec(p).unwrap();
    let dot = seq!['.'];
    let bn = name_or_empty(base);
    assert(forall|x: int| 0 <= x < bn.len() ==> !is_sep(#[trigger] bn[x])) by {
        if file_name(base) is Some {
            lemma_file_name_no_sep(base);
        }
    }
    let pre = bn + dot;
    let fnames = folded_names(names, fold);
    let fpre = folded(pre, fold);
    let st: nat = if holds(fnames, numbered(fpre, 0, w, seq![])) { 0 } else { 1 };
    let c = run_len(fnames, fpre, st, w, seq![]);
    let v = volume_parts_spec(p, names, fold).unwrap();
    assert(v.len() == c);
    let j: nat = (st + k) as nat;
    assert(w >= 3);
    lemma_padded_value(j, w);
    let d = crate::text::padded(j, w);
    let nq = pre + d;
    assert(numbered(pre, j, w, seq![]) =~= nq);
    assert(v[k] == with_file_name(base, nq));
    assert forall|x: int| 0 <= x < nq.len() implies !is_sep(#[trigger] nq[x]) by {
        if x < bn.len() {
            assert(nq[x] == bn[x]);
        } else if x == bn.len() {
            assert(nq[x] == '.');
        } else {
            assert(nq[x] == d[x - bn.len() - 1]);
            assert(crate::text::is_digit(d[x - bn.len() - 1]));
        }
    }
    let q = with_file_name(base, nq);
    lemma_rebase(base, nq);
    lemma_rfind_dot(bn, d);
    assert(bn + dot + d =~= nq);
    assert(nq.subrange(0, bn.len() as int) =~= bn);
    assert(nq.subrange(bn.len() + 1int, nq.len() as int) =~= d);
    assert(rsplit_once(nq, dot) == Some((bn, d)));
    let base2 = with_file_name(q, bn);
    assert(numeric_suffix_spec(q) == Some((base2, j, d.len())));
    assert(d.len() == w);
    assert(name_or_empty(base2) == bn);
    let r = Seq::new(c, |t: int| with_file_name(base2, numbered(pre, (st + t) as nat, w, seq![])));
    assert forall|t: int| 0 <= t < c implies r[t] == v[t] by {
        assert(with_file_name(base2, numbered(pre, (st + t) as nat, w, seq![])) == with_file_name(
            base,
            numbered(pre, (st + t) as nat, w, seq![]),
        ));
    }
    assert(r =~= v);
}


// ---------- one stream over the volumes ----------

/// Sum of `lens`.
pub open spec fn sum_lens(lens: Seq<u64>) -> nat
    decreases lens.len(),
{
    if lens.len() == 0 {
        0
    } else {
        sum_lens(lens.drop_last()) + lens.last() as nat
    }
}

/// The size of a set of volumes: the sum of their sizes, when it fits in a
/// `u64`.
pub fn sum_sizes(lens: &Vec<u64>) -> (r: Option<u64>)
    ensures
        match r {
            Some(t) => t as nat == sum_lens(lens@),
            None => sum_lens(lens@) > u64::MAX,
        },
{
    let mut t: u64 = 0;
    let mut i: usize = 0;
    while i < lens.len()
        invariant
            i <= lens.len(),
            t as nat == sum_lens(lens@.subrange(0, i as int)),
        decreases lens.len() - i,
    {
        assert(lens@.subrange(0, i + 1).drop_last() =~= lens@.subrange(0, i as int));
        if lens[i] > u64::MAX - t {
            proof { lemma_sum_prefix(lens@, i + 1); }
            return None;
        }
        t = t + lens[i];
        i = i + 1;
    }
    assert(lens@.subrange(0, lens@.len() as int) =~= lens@);
    Some(t)
}

/// Where a seek goes from.
#[derive(Clone, Copy, Debug)]
pub enum SeekPos {
    Start(u64),
    End(i64),
    Current(i64),
}

/// The volumes of a raw-cut set seen as one stream: volume `i` holds the
/// bytes `starts[i] .. starts[i] + lens[i]` of the whole, and nothing is
/// copied anywhere.
pub struct SplitLayout {
    starts: Vec<u64>,
    lens: Vec<u64>,
    total: u64,
    pos: u64,
}

impl SplitLayout {
    pub closed spec fn lens_view(&self) -> Seq<u64> {
        self.lens@
    }

    pub closed spec fn starts_view(&self) -> Seq<u64> {
        self.starts@
    }

    pub closed spec fn total_view(&self) -> u64 {
        self.total
    }

    pub closed spec fn pos_view(&self) -> u64 {
        self.pos
    }

    /// Each volume starts where the ones before it end, and the total is
    /// the sum of the volumes.
    pub closed spec fn wf(&self) -> bool {
        &&& self.starts@.len() == self.lens@.len()
        &&& forall|i: int| 0 <= i < self.lens@.len() ==> self.starts@[i] as nat == sum_lens(
            #[trigger] self.lens@.subrange(0, i),
        )
        &&& self.total as nat == sum_lens(self.lens@)
    }

    /// The layout of volumes of the given sizes, positioned at the start.
    pub fn from_lengths(lens: Vec<u64>) -> (r: Self)
        requires
            sum_lens(lens@) <= u64::MAX,
        ensures
            r.wf(),
            r.lens_view() == lens@,
            r.total_view() as nat == sum_lens(lens@),
            r.pos_view() == 0,
    {
        let mut starts: Vec<u64> = Vec::new();
        let mut off: u64 = 0;
        let mut i: usize = 0;
        while i < lens.len()
            invariant
                i <= lens.len(),
                sum_lens(lens@) <= u64::MAX,
                starts@.len() == i,
                off as nat == sum_lens(lens@.subrange(0, i as int)),
                forall|k: int| 0 <= k < i ==> starts@[k] as nat == sum_lens(#[trigger] lens@.subrange(0, k)),
            decreases lens.len() - i,
        {
            assert(lens@.subrange(0, i + 1).drop_last() =~= lens@.subrange(0, i as int));
            proof { lemma_sum_prefix(lens@, i + 1); }
            starts.push(off);
            off = off + lens[i];
            i = i + 1;
        }
        assert(lens@.subrange(0, lens@.len() as int) =~= lens@);
        SplitLayout { starts, lens, total: off, pos: 0 }
    }

    /// Total bytes of the set (the sum of the volumes).
    pub fn total(&self) -> (r: u64)
        ensures
            r == self.total_view(),
    {
        self.total
    }

    /// The current position in the whole stream.
    pub fn position(&self) -> (r: u64)
        ensures
            r == self.pos_view(),
    {
        self.pos
    }

    /// Where the next read of up to `buf_len` bytes goes: the volume holding
    /// the current position, the offset in it, and how many bytes to take
    /// (never past the end of that volume: the caller reads again for the
    /// rest). `None` at the end of the stream or for an empty buffer.
    pub fn read_plan(&self, buf_len: usize) -> (r: Option<(usize, u64, usize)>)
        requires
            self.wf(),
        ensures
            (buf_len == 0 || self.pos_view() >= self.total_view()) ==> r is None,
            r matches Some((i, inner, take)) ==> {
                &&& 0 <= i < self.lens_view().len()
                &&& self.starts_view()[i as int] <= self.pos_view()
                &&& self.pos_view() < self.starts_view()[i as int] + self.lens_view()[i as int]
                &&& inner == self.pos_view() - self.starts_view()[i as int]
                &&& 1 <= take <= buf_len
                &&& take <= self.lens_view()[i as int] - inner
                &&& (take == buf_len || take == self.lens_view()[i as int] - inner)
                &&& forall|j: int| 0 <= j < i ==> !(self.starts_view()[j] <= self.pos_view()
                    && self.pos_view() < self.starts_view()[j] + self.lens_view()[j])
            },
            (buf_len > 0 && self.pos_view() < self.total_view()) ==> r is Some,
    {
        if buf_len == 0 || self.pos >= self.total {
            return None;
        }
        let mut i: usize = 0;
        while i < self.lens.len()
            invariant
                self.wf(),
                self.pos < self.total,
                buf_len > 0,
                i <= self.lens@.len(),
                forall|j: int| 0 <= j < i ==> !(self.starts@[j] <= self.pos && self.pos < self.starts@[j] + self.lens@[j]),
                self.pos as nat >= sum_lens(self.lens@.subrange(0, i as int)),
            decreases self.lens@.len() - i,
        {
            let start = self.starts[i];
            let len = self.lens[i];
            proof {
                lemma_sum_prefix(self.lens@, i + 1);
                assert(self.lens@.subrange(0, i + 1).drop_last() =~= self.lens@.subrange(0, i as int));
                assert(self.starts@[i as int] as nat == sum_lens(self.lens@.subrange(0, i as int)));
            }
            if start <= self.pos && self.pos - start < len {
                let inner = self.pos - start;
                let room = len - inner;
                let take: usize = if room < buf_len as u64 { room as usize } else { buf_len };
                return Some((i, inner, take));
            }
            i = i + 1;
        }
        proof {
            assert(self.lens@.subrange(0, self.lens@.len() as int) =~= self.lens@);
        }
        None
    }

    /// Moves the position forward by the `n` bytes just read.
    pub fn advance(&mut self, n: u64)
        requires
            old(self).pos_view() + n <= old(self).total_view(),
        ensures
            final(self).pos_view() == old(self).pos_view() + n,
            final(self).total_view() == old(self).total_view(),
            final(self).lens_view() == old(self).lens_view(),
            final(self).starts_view() == old(self).starts_view(),
            old(self).wf() ==> final(self).wf(),
    {
        self.pos = self.pos + n;
    }

    /// Moves the position; a target before the start is refused and leaves
    /// the position as it was. A target past the end is allowed (reads there
    /// give nothing).
    pub fn seek(&mut self, from: SeekPos) -> (r: Result<u64, ()>)
        requires
            from matches SeekPos::End(n) ==> old(self).total_view() + n <= i64::MAX && old(self).total_view()
                <= i64::MAX,
            from matches SeekPos::Current(n) ==> old(self).pos_view() + n <= i64::MAX && old(self).pos_view()
                <= i64::MAX,
        ensures
            final(self).total_view() == old(self).total_view(),
            final(self).lens_view() == old(self).lens_view(),
            final(self).starts_view() == old(self).starts_view(),
            old(self).wf() ==> final(self).wf(),
            ({
                let target: int = match from {
                    SeekPos::Start(n) => if n <= i64::MAX { n as int } else { -1 },
                    SeekPos::End(n) => old(self).total_view() + n,
                    SeekPos::Current(n) => old(self).pos_view() + n,
                };
                if target < 0 {
                    r is Err && final(self).pos_view() == old(self).pos_view()
                } else {
                    r == Ok::<u64, ()>(target as u64) && final(self).pos_view() == target
                }
            }),
    {
        let new: i64 = match from {
            SeekPos::Start(n) => if n <= i64::MAX as u64 { n as i64 } else { -1 },
            SeekPos::End(n) => self.total as i64 + n,
            SeekPos::Current(n) => self.pos as i64 + n,
        };
        if new < 0 {
            return Err(());
        }
        self.pos = new as u64;
        Ok(self.pos)
    }
}

/// Where volume `i` starts in the whole stream.
pub open spec fn start_of(lens: Seq<u64>, i: int) -> nat {
    sum_lens(lens.subrange(0, i))
}

/// Sums of prefixes grow with the prefix.
pub proof fn lemma_start_monotone(lens: Seq<u64>, i: int, j: int)
    requires
        0 <= i < j <= lens.len(),
    ensures
        start_of(lens, i) + lens[i] <= start_of(lens, j),
    decreases j - i,
{
    assert(lens.subrange(0, i + 1).drop_last() =~= lens.subrange(0, i));
    if j > i + 1 {
        lemma_start_monotone(lens, i + 1, j);
    }
}

/// Every position before the total lies in some volume.
pub proof fn lemma_position_covered(lens: Seq<u64>, p: nat)
    requires
        p < sum_lens(lens),
    ensures
        exists|i: int| 0 <= i < lens.len() && #[trigger] start_of(lens, i) <= p < start_of(lens, i) + lens[i],
    decreases lens.len(),
{
    let k = lens.len() - 1;
    assert(lens.subrange(0, k) =~= lens.drop_last());
    if p < sum_lens(lens.drop_last()) {
        lemma_position_covered(lens.drop_last(), p);
        let i = choose|i: int| 0 <= i < lens.drop_last().len() && #[trigger] start_of(lens.drop_last(), i) <= p
            < start_of(lens.drop_last(), i) + lens.drop_last()[i];
        assert(lens.drop_last().subrange(0, i) =~= lens.subrange(0, i));
        assert(start_of(lens, i) <= p < start_of(lens, i) + lens[i]);
    } else {
        assert(start_of(lens, k) <= p < start_of(lens, k) + lens[k]);
    }
}

/// Splicing the volumes in order gives back the whole: every byte of the
/// stream lies in exactly one volume, at the offset that the volumes before
/// it leave, so reading through the layout visits each byte once.
pub proof fn law_layout_splices_volumes(l: SplitLayout, p: u64)
    requires
        l.wf(),
        p < l.total_view(),
    ensures
        exists|i: int| 0 <= i < l.lens_view().len() && #[trigger] l.starts_view()[i] <= p < l.starts_view()[i]
            + l.lens_view()[i],
        forall|i: int, j: int|
            0 <= i < l.lens_view().len() && 0 <= j < l.lens_view().len() && #[trigger] l.starts_view()[i] <= p
                < l.starts_view()[i] + l.lens_view()[i] && #[trigger] l.starts_view()[j] <= p < l.starts_view()[j]
                + l.lens_view()[j] ==> i == j,
        forall|i: int| 0 <= i < l.lens_view().len() ==> #[trigger] l.starts_view()[i] == start_of(l.lens_view(), i),
{
    let lens = l.lens_view();
    lemma_position_covered(lens, p as nat);
    let i = choose|i: int| 0 <= i < lens.len() && #[trigger] start_of(lens, i) <= p < start_of(lens, i) + lens[i];
    assert(l.starts_view()[i] == start_of(lens, i));
    assert forall|a: int, b: int|
        0 <= a < lens.len() && 0 <= b < lens.len() && #[trigger] l.starts_view()[a] <= p < l.starts_view()[a]
            + lens[a] && #[trigger] l.starts_view()[b] <= p < l.starts_view()[b] + lens[b] implies a == b by {
        assert(l.starts_view()[a] == start_of(lens, a));
        assert(l.starts_view()[b] == start_of(lens, b));
        if a < b {
            lemma_start_monotone(lens, a, b);
        } else if b < a {
            lemma_start_monotone(lens, b, a);
        }
    }
}

pub proof fn lemma_sum_prefix(lens: Seq<u64>, k: int)
    requires
        0 <= k <= lens.len(),
    ensures
        sum_lens(lens.subrange(0, k)) <= sum_lens(lens),
    decreases lens.len() - k,
{
    if k < lens.len() {
        lemma_sum_prefix(lens, k + 1);
        assert(lens.subrange(0, k + 1).drop_last() =~= lens.subrange(0, k));
    } else {
        assert(lens.subrange(0, k) =~= lens);
    }
}

} // verus!
