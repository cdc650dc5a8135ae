//! RAR naming: the two volume numberings (`foo.part1.rar` ... and the old
//! `foo.rar`, `foo.r00`, `foo.r01` ...), finding a whole volume set from any
//! of its volumes, the member listing and the error codes shown to the user.
//!
//! The file system is not read here: callers pass `siblings`, the names of
//! the regular files in the directory of the path they ask about.

use vstd::prelude::*;
use crate::text::{
    all_digits, all_digits_exec, digits_value, ends_with, ends_with_exec, lower, lower_exec,
    parse_usize, rfind_exec, rsplit_once, slice_chars, string_of, chars_of, lemma_rfind_from,
    padded_exec, push_all, padded, pow10, lemma_decimal_len, lemma_padded_value, lemma_rfind_mark,
    lemma_lower_concat, lemma_lower_fixed, lemma_digits_plain, is_ascii_upper, rfind,
};
use crate::names::{
    file_name, file_name_exec, with_file_name, with_file_name_exec, stem_of, stem_exec,
    last_component, dir_of, is_sep, name_start, lemma_sibling, lemma_name_start, lemma_file_name_no_sep,
};
use crate::archive::{AEntry, civil_epoch_ms, epoch_ms, norm_inner, norm_inner_spec};
use crate::split::{names_of, holds, present, folded, folded_names, fold_exec, sibling_lists, numbered, run_len, run_exact, lemma_run_unique, name_or_empty, consecutive_run, position_of};

verus! {

pub open spec fn rar_ext() -> Seq<char> {
    seq!['.', 'r', 'a', 'r']
}

pub open spec fn part_mark() -> Seq<char> {
    seq!['.', 'p', 'a', 'r', 't']
}

pub open spec fn old_mark() -> Seq<char> {
    seq!['.', 'r']
}

/// `(base, number, width)` of a new-style volume name: `foo.part07.rar`
/// gives `foo`, 7 and 2 (letter case of the marks does not matter; the base
/// keeps the case it was written in).
pub open spec fn part_suffix_spec(p: Seq<char>) -> Option<(Seq<char>, nat, nat)> {
    match file_name(p) {
        None => None,
        Some(name) => {
            let l = lower(name);
            if !ends_with(l, rar_ext()) {
                None
            } else {
                match rsplit_once(l.subrange(0, l.len() - 4), part_mark()) {
                    None => None,
                    Some((stem, num)) => if num.len() == 0 || !all_digits(num) || digits_value(num)
                        > usize::MAX {
                        None
                    } else {
                        Some((with_file_name(p, name.subrange(0, stem.len() as int)), digits_value(num), num.len()))
                    },
                }
            }
        },
    }
}

/// The first volume of an old-style set: `foo.r00` gives `foo.rar`.
pub open spec fn old_naming_head_spec(p: Seq<char>) -> Option<Seq<char>> {
    match file_name(p) {
        None => None,
        Some(name) => match rsplit_once(lower(name), old_mark()) {
            None => None,
            Some((stem, num)) => if num.len() != 2 || !all_digits(num) {
                None
            } else {
                Some(with_file_name(p, name.subrange(0, stem.len() as int) + rar_ext()))
            },
        },
    }
}

/// A lowercased name is an old-style volume (`foo.r00`, `foo.r07`): it does
/// not end in `.rar` and is a RAR all the same.
pub open spec fn is_old_volume_name_spec(lower_name: Seq<char>) -> bool {
    match rsplit_once(lower_name, old_mark()) {
        Some((stem, num)) => stem.len() > 0 && num.len() == 2 && all_digits(num),
        None => false,
    }
}

pub fn is_old_volume_name(lower_name: &str) -> (r: bool)
    ensures
        r == is_old_volume_name_spec(lower_name@),
{
    let s = chars_of(lower_name);
    is_old_volume_chars(&s)
}

pub fn is_old_volume_chars(s: &Vec<char>) -> (r: bool)
    ensures
        r == is_old_volume_name_spec(s@),
{
    let mark = vec!['.', 'r'];
    assert(mark@ =~= old_mark());
    proof { lemma_rfind_from(s@, mark@, s@.len() - mark@.len()); }
    match rfind_exec(s, &mark) {
        Some(i) => {
            assert(crate::text::matches_at(s@, mark@, i as int));
            assert(mark@.len() == 2);
            assert(i + 2 <= s@.len());
            assert(s@.len() == s.len());
            let num = slice_chars(s, i + 2, s.len());
            i > 0 && num.len() == 2 && all_digits_exec(&num)
        },
        None => false,
    }
}

/// `(base, number, width)` of a new-style volume name.
pub fn part_suffix(path: &Vec<char>) -> (r: Option<(Vec<char>, usize, usize)>)
    ensures
        match r {
            Some((b, n, w)) => part_suffix_spec(path@) == Some((b@, n as nat, w as nat)),
            None => part_suffix_spec(path@) is None,
        },
{
    let name = match file_name_exec(path) {
        Some(n) => n,
        None => return None,
    };
    let l = lower_exec(&name);
    let ext = vec!['.', 'r', 'a', 'r'];
    assert(ext@ =~= rar_ext());
    if !ends_with_exec(&l, &ext) {
        return None;
    }
    let rest = slice_chars(&l, 0, l.len() - 4);
    let mark = vec!['.', 'p', 'a', 'r', 't'];
    assert(mark@ =~= part_mark());
    proof { lemma_rfind_from(rest@, mark@, rest@.len() - mark@.len()); }
    let i = match rfind_exec(&rest, &mark) {
        Some(i) => i,
        None => return None,
    };
    let num = slice_chars(&rest, i + 5, rest.len());
    if num.len() == 0 || !all_digits_exec(&num) {
        return None;
    }
    let n = match parse_usize(&num) {
        Some(n) => n,
        None => return None,
    };
    let stem = slice_chars(&name, 0, i);
    let base = with_file_name_exec(path, &stem);
    Some((base, n, num.len()))
}

/// The first volume of an old-style set (`foo.r00` gives `foo.rar`).
pub fn old_naming_head(path: &Vec<char>) -> (r: Option<Vec<char>>)
    ensures
        match r {
            Some(h) => old_naming_head_spec(path@) == Some(h@),
            None => old_naming_head_spec(path@) is None,
        },
{
    let name = match file_name_exec(path) {
        Some(n) => n,
        None => return None,
    };
    let l = lower_exec(&name);
    let mark = vec!['.', 'r'];
    assert(mark@ =~= old_mark());
    proof { lemma_rfind_from(l@, mark@, l@.len() - mark@.len()); }
    let i = match rfind_exec(&l, &mark) {
        Some(i) => i,
        None => return None,
    };
    let num = slice_chars(&l, i + 2, l.len());
    if num.len() != 2 || !all_digits_exec(&num) {
        return None;
    }
    let mut head_name = slice_chars(&name, 0, i);
    let ext = vec!['.', 'r', 'a', 'r'];
    assert(ext@ =~= rar_ext());
    push_all(&mut head_name, &ext);
    Some(with_file_name_exec(path, &head_name))
}


/// The volumes of a set entered by its `.rar` name, in order.
pub open spec fn rar_set_spec(p: Seq<char>, names: Seq<Seq<char>>, fold: bool) -> Seq<Seq<char>> {
    let fnames = folded_names(names, fold);
    match part_suffix_spec(p) {
        Some((base, _, w)) => {
            let pre = name_or_empty(base) + part_mark();
            let c = run_len(fnames, folded(pre, fold), 1, w, rar_ext());
            if c > 0 {
                Seq::new(c, |k: int| with_file_name(base, numbered(pre, (1 + k) as nat, w, rar_ext())))
            } else {
                seq![p]
            }
        },
        None => {
            let stem_path = match file_name(p) {
                Some(n) => with_file_name(p, stem_of(n)),
                None => p,
            };
            let pre = name_or_empty(stem_path) + old_mark();
            let c = run_len(fnames, folded(pre, fold), 0, 2, seq![]);
            seq![p] + Seq::new(c, |k: int| with_file_name(stem_path, numbered(pre, k as nat, 2, seq![])))
        },
    }
}

/// The volumes of the RAR set that `p` belongs to, in order, from any of its
/// volumes. A single-volume RAR gives just itself. `names` are the files
/// next to `p`; `fold`: they compare without regard to letter case.
pub open spec fn volume_set_spec(p: Seq<char>, names: Seq<Seq<char>>, fold: bool) -> Seq<Seq<char>> {
    if !ends_with(lower(p), rar_ext()) {
        match old_naming_head_spec(p) {
            Some(head) => if present(names, last_component(head), fold) {
                rar_set_spec(head, names, fold)
            } else {
                seq![p]
            },
            None => seq![p],
        }
    } else {
        rar_set_spec(p, names, fold)
    }
}

fn rar_set(p: &Vec<char>, sibs: &Vec<Vec<char>>, fold: bool, Ghost(orig): Ghost<Seq<Seq<char>>>) -> (r: Vec<String>)
    requires
        sibs@.len() < usize::MAX,
        sibs@.map_values(|c: Vec<char>| c@) == folded_names(orig, fold),
    ensures
        names_of(r@) == rar_set_spec(p@, orig, fold),
{
    let ghost names = sibs@.map_values(|c: Vec<char>| c@);
    match part_suffix(p) {
        Some((base, _n, width)) => {
            let mut pre = match file_name_exec(&base) {
                Some(n) => n,
                None => Vec::new(),
            };
            let mark = vec!['.', 'p', 'a', 'r', 't'];
            assert(mark@ =~= part_mark());
            push_all(&mut pre, &mark);
            let ghost pre_s = name_or_empty(base@) + part_mark();
            assert(pre@ =~= pre_s);
            let ext = vec!['.', 'r', 'a', 'r'];
            assert(ext@ =~= rar_ext());
            let fpre = fold_exec(&pre, fold);
            let count = consecutive_run(sibs, &fpre, 1, width, &ext);
            proof { lemma_run_unique(names, folded(pre_s, fold), 1, width as nat, rar_ext(), count as nat); }
            if count == 0 {
                let mut out: Vec<String> = Vec::new();
                out.push(string_of(p));
                assert(names_of(out@) =~= seq![p@]);
                return out;
            }
            let mut out: Vec<String> = Vec::new();
            let mut k: usize = 0;
            while k < count
                invariant
                    k <= count,
                    count <= sibs@.len() < usize::MAX,
                    pre@ == pre_s,
                    ext@ == rar_ext(),
                    out@.len() == k,
                    forall|j: int| 0 <= j < k ==> (#[trigger] out@[j])@ == with_file_name(
                        base@,
                        numbered(pre_s, (1 + j) as nat, width as nat, rar_ext()),
                    ),
                decreases count - k,
            {
                let mut name = pre.clone();
                assert(name@ =~= pre@);
                let digits = padded_exec(1 + k, width);
                push_all(&mut name, &digits);
                push_all(&mut name, &ext);
                assert(name@ =~= numbered(pre_s, (1 + k) as nat, width as nat, rar_ext()));
                let full = with_file_name_exec(&base, &name);
                out.push(string_of(&full));
                k = k + 1;
            }
            assert(names_of(out@) =~= Seq::new(
                count as nat,
                |j: int| with_file_name(base@, numbered(pre_s, (1 + j) as nat, width as nat, rar_ext())),
            ));
            out
        },
        None => {
            let stem_path = match file_name_exec(p) {
                Some(n) => {
                    let st = stem_exec(&n);
                    with_file_name_exec(p, &st)
                },
                None => {
                    let c = slice_chars(p, 0, p.len());
                    assert(c@ =~= p@);
                    c
                },
            };
            let mut pre = match file_name_exec(&stem_path) {
                Some(n) => n,
                None => Vec::new(),
            };
            pre.push('.');
            pre.push('r');
            let ghost pre_s = name_or_empty(stem_path@) + old_mark();
            assert(pre@ =~= pre_s);
            let empty: Vec<char> = Vec::new();
            assert(empty@ =~= seq![]);
            let fpre = fold_exec(&pre, fold);
            let count = consecutive_run(sibs, &fpre, 0, 2, &empty);
            proof { lemma_run_unique(names, folded(pre_s, fold), 0, 2, seq![], count as nat); }
            let mut out: Vec<String> = Vec::new();
            out.push(string_of(p));
            let mut k: usize = 0;
            while k < count
                invariant
                    k <= count,
                    count <= sibs@.len() < usize::MAX,
                    pre@ == pre_s,
                    out@.len() == k + 1,
                    out@[0]@ == p@,
                    forall|j: int| 0 <= j < k ==> (#[trigger] out@[j + 1])@ == with_file_name(
                        stem_path@,
                        numbered(pre_s, j as nat, 2, seq![]),
                    ),
                decreases count - k,
            {
                let mut name = pre.clone();
                assert(name@ =~= pre@);
                let digits = padded_exec(k, 2);
                push_all(&mut name, &digits);
                assert(name@ =~= numbered(pre_s, k as nat, 2, seq![]));
                let full = with_file_name_exec(&stem_path, &name);
                out.push(string_of(&full));
                k = k + 1;
            }
            let ghost tail = Seq::new(
                count as nat,
                |j: int| with_file_name(stem_path@, numbered(pre_s, j as nat, 2, seq![])),
            );
            assert forall|i: int| 0 <= i < out@.len() implies names_of(out@)[i] == (seq![p@] + tail)[i] by {
                if i > 0 {
                    assert(out@[(i - 1) + 1]@ == tail[i - 1]);
                }
            }
            assert(names_of(out@) =~= seq![p@] + tail);
            out
        },
    }
}

/// The volumes of the RAR set that `path` belongs to, in order, from any of
/// its volumes; a single-volume RAR gives a list of one.
pub fn volume_set(path: &str, siblings: &Vec<String>, fold: bool) -> (r: Vec<String>)
    requires
        siblings@.len() < usize::MAX,
    ensures
        names_of(r@) == volume_set_spec(path@, names_of(siblings@), fold),
{
    let p = chars_of(path);
    let sibs = sibling_lists(siblings, fold);
    let ghost fnames = folded_names(names_of(siblings@), fold);
    let l = lower_exec(&p);
    let ext = vec!['.', 'r', 'a', 'r'];
    assert(ext@ =~= rar_ext());
    if !ends_with_exec(&l, &ext) {
        match old_naming_head(&p) {
            Some(head) => {
                let hs = crate::names::name_start_exec(&head);
                proof { crate::names::lemma_name_start(head@); }
                let hn = fold_exec(&slice_chars(&head, hs, head.len()), fold);
                match position_of(&sibs, &hn) {
                    Some(j) => {
                        assert(fnames[j as int] == sibs@[j as int]@);
                        rar_set(&head, &sibs, fold, Ghost(names_of(siblings@)))
                    },
                    None => {
                        assert(!holds(fnames, hn@)) by {
                            if holds(fnames, hn@) {
                                let j = choose|j: int| 0 <= j < fnames.len() && fnames[j] == hn@;
                                assert(fnames[j] == sibs@[j]@);
                            }
                        }
                        let mut out: Vec<String> = Vec::new();
                        out.push(path.to_owned());
                        assert(names_of(out@) =~= seq![path@]);
                        out
                    },
                }
            },
            None => {
                let mut out: Vec<String> = Vec::new();
                out.push(path.to_owned());
                assert(names_of(out@) =~= seq![path@]);
                out
            },
        }
    } else {
        rar_set(&p, &sibs, fold, Ghost(names_of(siblings@)))
    }
}


// ---------- listing ----------

/// Fields of a DOS/FAT timestamp (what RAR stores): year, month, day, hour,
/// minute, second.
pub open spec fn dos_fields(t: u32) -> (int, int, int, int, int, int) {
    (
        1980 + ((t >> 25u32) & 0x7f) as int,
        ((t >> 21u32) & 0x0f) as int,
        ((t >> 16u32) & 0x1f) as int,
        ((t >> 11u32) & 0x1f) as int,
        ((t >> 5u32) & 0x3f) as int,
        ((t & 0x1f) * 2) as int,
    )
}

/// A DOS timestamp as milliseconds since 1970; absent, zero, or with month
/// or day zero, it is 0.
pub open spec fn dos_time_ms_spec(t: Option<u32>) -> int {
    match t {
        None => 0,
        Some(t) => if t == 0 {
            0
        } else {
            let (y, mo, d, h, mi, s) = dos_fields(t);
            if mo == 0 || d == 0 {
                0
            } else {
                epoch_ms(y, mo, d, h, mi, s)
            }
        },
    }
}

/// DOS/FAT timestamp to milliseconds since 1970.
pub fn dos_time_ms(t: Option<u32>) -> (r: i64)
    ensures
        r as int == dos_time_ms_spec(t),
{
    let t = match t {
        None => return 0,
        Some(t) => t,
    };
    if t == 0 {
        return 0;
    }
    let y: u32 = (t >> 25u32) & 0x7f;
    let mo: u32 = (t >> 21u32) & 0x0f;
    let d: u32 = (t >> 16u32) & 0x1f;
    let h: u32 = (t >> 11u32) & 0x1f;
    let mi: u32 = (t >> 5u32) & 0x3f;
    let s: u32 = t & 0x1f;
    assert(y <= 127 && mo <= 15 && d <= 31 && h <= 31 && mi <= 63 && s <= 31) by (bit_vector)
        requires
            y == (t >> 25u32) & 0x7f,
            mo == (t >> 21u32) & 0x0f,
            d == (t >> 16u32) & 0x1f,
            h == (t >> 11u32) & 0x1f,
            mi == (t >> 5u32) & 0x3f,
            s == t & 0x1f,
    ;
    if mo == 0 || d == 0 {
        return 0;
    }
    civil_epoch_ms((1980 + y) as u16, mo as u8, d as u8, h as u8, mi as u8, (s * 2) as u8)
}

/// One member of a RAR volume as its header describes it.
#[derive(Clone, Debug)]
pub struct RarMember {
    /// Name as stored (lossily decoded).
    pub name: String,
    /// The member continues from the previous volume.
    pub is_split_before: bool,
    pub is_directory: bool,
    pub unpacked_size: u64,
    pub packed_size: u64,
    /// DOS timestamp, when the header has one.
    pub file_time: Option<u32>,
    pub is_encrypted: bool,
}

/// The listing entry a member gives.
pub open spec fn member_entry_ok(m: RarMember, e: AEntry) -> bool {
    &&& e.path@ == norm_inner_spec(m.name@)
    &&& e.is_dir == m.is_directory
    &&& e.size == m.unpacked_size
    &&& e.compressed == m.packed_size
    &&& e.modified_ms as int == dos_time_ms_spec(m.file_time)
    &&& e.encrypted == m.is_encrypted
}

/// A member that starts a listing entry: not a continuation from the
/// previous volume, and with a non-empty normalised name.
pub open spec fn lists(m: RarMember) -> bool {
    !m.is_split_before && norm_inner_spec(m.name@).len() > 0
}

/// The members that a listing shows, in order.
pub open spec fn listed(ms: Seq<RarMember>) -> Seq<RarMember>
    decreases ms.len(),
{
    if ms.len() == 0 {
        Seq::empty()
    } else if lists(ms.last()) {
        listed(ms.drop_last()).push(ms.last())
    } else {
        listed(ms.drop_last())
    }
}

/// The listing of a RAR set from its members (all volumes, in order): a
/// member that crosses a volume boundary appears in each volume it touches,
/// and only its first part makes an entry.
pub fn list(members: &Vec<RarMember>) -> (r: Vec<AEntry>)
    ensures
        r@.len() == listed(members@).len(),
        forall|i: int| 0 <= i < r@.len() ==> member_entry_ok(listed(members@)[i], #[trigger] r@[i]),
{
    let mut out: Vec<AEntry> = Vec::new();
    let mut i: usize = 0;
    while i < members.len()
        invariant
            i <= members.len(),
            out@.len() == listed(members@.subrange(0, i as int)).len(),
            forall|k: int| 0 <= k < out@.len() ==> member_entry_ok(
                listed(members@.subrange(0, i as int))[k],
                #[trigger] out@[k],
            ),
        decreases members.len() - i,
    {
        let ghost before = members@.subrange(0, i as int);
        let ghost after = members@.subrange(0, i + 1);
        assert(after.drop_last() =~= before);
        assert(after.last() == members@[i as int]);
        let m = &members[i];
        if !m.is_split_before {
            let inner = norm_inner(m.name.as_str());
            if inner.unicode_len() > 0 {
                let e = AEntry {
                    path: inner,
                    is_dir: m.is_directory,
                    size: m.unpacked_size,
                    compressed: m.packed_size,
                    modified_ms: dos_time_ms(m.file_time),
                    encrypted: m.is_encrypted,
                };
                out.push(e);
                assert(listed(after) == listed(before).push(members@[i as int]));
                assert forall|k: int| 0 <= k < out@.len() implies member_entry_ok(
                    listed(after)[k],
                    #[trigger] out@[k],
                ) by {
                    if k < out@.len() - 1 {
                        assert(listed(after)[k] == listed(before)[k]);
                    }
                }
            } else {
                assert(listed(after) == listed(before));
            }
        } else {
            assert(listed(after) == listed(before));
        }
        i = i + 1;
    }
    assert(members@.subrange(0, members@.len() as int) =~= members@);
    out
}


/// How many members an integrity test checks: each file once (not the
/// continuation parts, not directories).
pub open spec fn tested_spec(ms: Seq<RarMember>) -> nat
    decreases ms.len(),
{
    if ms.len() == 0 {
        0
    } else {
        tested_spec(ms.drop_last()) + if !ms.last().is_split_before && !ms.last().is_directory {
            1nat
        } else {
            0nat
        }
    }
}

/// Every member that starts an entry (not the continuation of a member from
/// the previous volume, with a name that does not normalise to nothing) is
/// listed, whatever else its header says: encrypted, sizes, times.
pub proof fn law_list_keeps_every_member(ms: Seq<RarMember>, i: int)
    requires
        0 <= i < ms.len(),
        !ms[i].is_split_before,
        norm_inner_spec(ms[i].name@).len() > 0,
    ensures
        listed(ms).contains(ms[i]),
    decreases ms.len(),
{
    let rest = ms.drop_last();
    if i == ms.len() - 1 {
        assert(listed(ms) == listed(rest).push(ms[i]));
        assert(listed(ms)[listed(rest).len() as int] == ms[i]);
    } else {
        assert(rest[i] == ms[i]);
        law_list_keeps_every_member(rest, i);
        let k = choose|k: int| 0 <= k < listed(rest).len() && listed(rest)[k] == ms[i];
        if lists(ms.last()) {
            assert(listed(ms)[k] == listed(rest)[k]);
        }
    }
}

/// How many entries a listing has depends only on which members continue
/// a previous volume and on their names: two sets of members that agree on
/// those list as many entries, however their encryption, sizes or times
/// differ.
pub proof fn law_list_count_ignores_other_fields(ms: Seq<RarMember>, ns: Seq<RarMember>)
    requires
        ms.len() == ns.len(),
        forall|i: int| 0 <= i < ms.len() ==> (#[trigger] ms[i]).is_split_before == ns[i].is_split_before && ms[i].name@
            == ns[i].name@,
    ensures
        listed(ms).len() == listed(ns).len(),
    decreases ms.len(),
{
    if ms.len() > 0 {
        let k = ms.len() - 1;
        assert(ms[k].is_split_before == ns[k].is_split_before && ms[k].name@ == ns[k].name@);
        assert forall|i: int| 0 <= i < ms.drop_last().len() implies (#[trigger] ms.drop_last()[i]).is_split_before
            == ns.drop_last()[i].is_split_before && ms.drop_last()[i].name@ == ns.drop_last()[i].name@ by {
            assert(ms.drop_last()[i] == ms[i]);
            assert(ns.drop_last()[i] == ns[i]);
        }
        law_list_count_ignores_other_fields(ms.drop_last(), ns.drop_last());
    }
}

/// An integrity test counts every file that is not the continuation of a
/// member from the previous volume: the count depends on nothing else
/// (two sets of members that agree on continuations and directories give
/// the same count), and a set made only of such files counts all of them.
pub proof fn law_tested_counts_every_file(ms: Seq<RarMember>, ns: Seq<RarMember>)
    requires
        ms.len() == ns.len(),
        forall|i: int| 0 <= i < ms.len() ==> (#[trigger] ms[i]).is_split_before == ns[i].is_split_before
            && ms[i].is_directory == ns[i].is_directory,
    ensures
        tested_spec(ms) == tested_spec(ns),
        (forall|i: int| 0 <= i < ms.len() ==> !(#[trigger] ms[i]).is_split_before && !ms[i].is_directory)
            ==> tested_spec(ms) == ms.len(),
    decreases ms.len(),
{
    if ms.len() > 0 {
        let k = ms.len() - 1;
        assert(ms[k].is_split_before == ns[k].is_split_before && ms[k].is_directory == ns[k].is_directory);
        assert forall|i: int| 0 <= i < ms.drop_last().len() implies (#[trigger] ms.drop_last()[i]).is_split_before
            == ns.drop_last()[i].is_split_before && ms.drop_last()[i].is_directory == ns.drop_last()[i].is_directory by {
            assert(ms.drop_last()[i] == ms[i]);
            assert(ns.drop_last()[i] == ns[i]);
        }
        law_tested_counts_every_file(ms.drop_last(), ns.drop_last());
        if forall|i: int| 0 <= i < ms.len() ==> !(#[trigger] ms[i]).is_split_before && !ms[i].is_directory {
            assert forall|i: int| 0 <= i < ms.drop_last().len() implies !(#[trigger] ms.drop_last()[i]).is_split_before
                && !ms.drop_last()[i].is_directory by {
                assert(ms.drop_last()[i] == ms[i]);
            }
            assert(!ms[k].is_split_before && !ms[k].is_directory);
        }
    }
}

pub fn tested_count(members: &Vec<RarMember>) -> (r: u64)
    requires
        members@.len() <= u64::MAX,
    ensures
        r as nat == tested_spec(members@),
{
    let mut n: u64 = 0;
    let mut i: usize = 0;
    while i < members.len()
        invariant
            i <= members.len() <= u64::MAX,
            n as nat == tested_spec(members@.subrange(0, i as int)),
            n <= i,
        decreases members.len() - i,
    {
        assert(members@.subrange(0, i + 1).drop_last() =~= members@.subrange(0, i as int));
        if !members[i].is_split_before && !members[i].is_directory {
            n = n + 1;
        }
        i = i + 1;
    }
    assert(members@.subrange(0, members@.len() as int) =~= members@);
    n
}

// ---------- errors ----------

/// What went wrong while reading a RAR set.
#[derive(Debug)]
pub enum RarError {
    /// Raised while handling one member.
    AtEntry { name: Vec<u8>, source: Box<RarError> },
    /// Raised at an offset in a volume.
    AtArchiveOffset { source: Box<RarError> },
    NeedPassword,
    /// The checks failed at the end: wrong password or corrupt data (the
    /// format cannot tell which).
    WrongPasswordOrCorruptData,
    /// An I/O error: its message, and how the error reads.
    Io { message: String, text: String },
    /// Anything else, and how it reads.
    Other { text: String },
}

/// The error under the `AtEntry`/`AtArchiveOffset` wrappers.
pub open spec fn root_cause_spec(e: RarError) -> RarError
    decreases e,
{
    match e {
        RarError::AtEntry { source, .. } => root_cause_spec(*source),
        RarError::AtArchiveOffset { source } => root_cause_spec(*source),
        other => other,
    }
}

pub fn root_cause(e: &RarError) -> (r: &RarError)
    ensures
        *r == root_cause_spec(*e),
    decreases e,
{
    match e {
        RarError::AtEntry { source, .. } => root_cause(source),
        RarError::AtArchiveOffset { source } => root_cause(source),
        other => other,
    }
}

pub open spec fn contains_seq(s: Seq<char>, p: Seq<char>) -> bool {
    exists|i: int| crate::text::matches_at(s, p, i)
}

/// The code the user sees for a failure.
pub open spec fn classify_spec(e: RarError, has_password: bool) -> Seq<char> {
    match root_cause_spec(e) {
        RarError::NeedPassword => "NEED_PASSWORD"@,
        RarError::WrongPasswordOrCorruptData => if has_password {
            "WRONG_PASSWORD"@
        } else {
            "NEED_PASSWORD"@
        },
        RarError::Io { message, text } => if contains_seq(message@, "canceled"@) {
            "canceled"@
        } else {
            text@
        },
        RarError::Other { text } => text@,
        _ => Seq::empty(),
    }
}

/// Whether `p` occurs in `s`.
pub fn contains_chars(s: &Vec<char>, p: &Vec<char>) -> (r: bool)
    ensures
        r == contains_seq(s@, p@),
{
    proof { lemma_rfind_from(s@, p@, s@.len() - p@.len()); }
    match rfind_exec(s, p) {
        Some(_) => true,
        None => {
            assert forall|i: int| !crate::text::matches_at(s@, p@, i) by {
                if crate::text::matches_at(s@, p@, i) {
                    assert(i <= s@.len() - p@.len());
                }
            }
            false
        },
    }
}

/// Turns a failure into the code the user sees: a missing password, a
/// wrong one (with a password given, a failed check most likely means a
/// wrong password; without one, a missing one), a cancel, or the error's
/// own text.
pub fn classify(e: &RarError, has_password: bool) -> (r: String)
    ensures
        r@ == classify_spec(*e, has_password),
{
    match root_cause(e) {
        RarError::NeedPassword => String::from_str("NEED_PASSWORD"),
        RarError::WrongPasswordOrCorruptData => if has_password {
            String::from_str("WRONG_PASSWORD")
        } else {
            String::from_str("NEED_PASSWORD")
        },
        RarError::Io { message, text } => {
            let m = chars_of(message.as_str());
            let c = chars_of("canceled");
            if contains_chars(&m, &c) {
                String::from_str("canceled")
            } else {
                text.clone()
            }
        },
        RarError::Other { text } => text.clone(),
        _ => String::new(),
    }
}


// ---------- entering a set by any volume ----------

/// Sequences of plain characters (no capitals, no separators).
pub open spec fn plain(s: Seq<char>) -> bool {
    forall|i: int| 0 <= i < s.len() ==> !is_ascii_upper(#[trigger] s[i]) && !is_sep(s[i])
}

pub proof fn lemma_marks_plain()
    ensures
        plain(rar_ext()),
        plain(part_mark()),
        plain(old_mark()),
        forall|j: int| 1 <= j < rar_ext().len() ==> rar_ext()[j] != '.',
        forall|j: int| 1 <= j < part_mark().len() ==> part_mark()[j] != '.',
        forall|j: int| 1 <= j < old_mark().len() ==> old_mark()[j] != '.',
{
    assert(rar_ext()[0] == '.' && rar_ext()[1] == 'r' && rar_ext()[2] == 'a' && rar_ext()[3] == 'r');
    assert(part_mark()[1] == 'p' && part_mark()[2] == 'a' && part_mark()[3] == 'r' && part_mark()[4] == 't');
    assert(old_mark()[1] == 'r');
}

/// A path is its directory part followed by its last component.
pub proof fn lemma_dir_plus_last(p: Seq<char>)
    ensures
        p == dir_of(p) + last_component(p),
{
    lemma_name_start(p);
    assert(p =~= dir_of(p) + last_component(p));
}

/// A digit string `d` padded to width `w` with its number `j`.
pub proof fn lemma_fits(j: nat, w: nat)
    requires
        w >= 1,
        j < pow10(w),
    ensures
        padded(j, w).len() == w,
        crate::text::all_digits(padded(j, w)),
        crate::text::digits_value(padded(j, w)) == j,
{
    lemma_decimal_len(j, w);
    lemma_padded_value(j, w);
}

/// Entering a new-style set (`foo.part2.rar`) by any of its volumes whose
/// number prints in the set's digit width finds the same volumes in the
/// same order (`part10` in a `part1` set is read with width 2, as a family
/// of its own).
#[verifier::rlimit(40)]
pub proof fn law_volume_set_any_part(p: Seq<char>, names: Seq<Seq<char>>, fold: bool, k: int)
    requires
        ends_with(lower(p), rar_ext()),
        part_suffix_spec(p) is Some,
        part_suffix_spec(volume_set_spec(p, names, fold)[k]) is Some,
        part_suffix_spec(volume_set_spec(p, names, fold)[k]).unwrap().2 == part_suffix_spec(p).unwrap().2,
        volume_set_spec(p, names, fold).len() < usize::MAX,
        0 <= k < volume_set_spec(p, names, fold).len(),
    ensures
        volume_set_spec(volume_set_spec(p, names, fold)[k], names, fold) == volume_set_spec(p, names, fold),
{
    let (base, n, w) = part_suffix_spec(p).unwrap();
    let bn = name_or_empty(base);
    let pre = bn + part_mark();
    let c = run_len(folded_names(names, fold), folded(pre, fold), 1, w, rar_ext());
    let v = volume_set_spec(p, names, fold);
    if c == 0 {
        assert(v == seq![p]);
        return;
    }
    lemma_marks_plain();
    assert(forall|x: int| 0 <= x < bn.len() ==> !is_sep(#[trigger] bn[x])) by {
        if file_name(base) is Some {
            lemma_file_name_no_sep(base);
        }
    }
    // the k-th volume
    let j: nat = (1 + k) as nat;
    assert(w >= 1);
    lemma_padded_value(j, w);
    let d = padded(j, w);
    lemma_digits_plain(d);
    let nq = pre + d + rar_ext();
    assert(numbered(pre, j, w, rar_ext()) =~= nq);
    let q = with_file_name(base, nq);
    assert(v[k] == q);
    assert forall|x: int| 0 <= x < nq.len() implies !is_sep(#[trigger] nq[x]) by {
        if x < bn.len() {
            assert(nq[x] == bn[x]);
        } else if x < pre.len() {
            assert(nq[x] == part_mark()[x - bn.len()]);
        } else if x < pre.len() + d.len() {
            assert(nq[x] == d[x - pre.len()]);
        } else {
            assert(nq[x] == rar_ext()[x - pre.len() - d.len()]);
        }
    }
    crate::split::lemma_rebase(base, nq);
    // lowercased forms
    lemma_lower_fixed(part_mark());
    lemma_lower_fixed(rar_ext());
    lemma_lower_fixed(d);
    lemma_lower_concat(bn, part_mark());
    lemma_lower_concat(pre, d);
    lemma_lower_concat(pre + d, rar_ext());
    let lq = lower(nq);
    assert(lq == lower(bn) + part_mark() + d + rar_ext());
    assert(lq.subrange(lq.len() - 4, lq.len() as int) =~= rar_ext());
    assert(ends_with(lq, rar_ext()));
    let rest_q = lq.subrange(0, lq.len() - 4);
    assert(rest_q =~= lower(bn) + part_mark() + d);
    lemma_rfind_mark(lower(bn), part_mark(), d);
    assert(rsplit_once(rest_q, part_mark()) == Some((lower(bn), d))) by {
        assert(rest_q.subrange(0, bn.len() as int) =~= lower(bn));
        assert(rest_q.subrange(bn.len() + 5int, rest_q.len() as int) =~= d);
    }
    assert(nq.subrange(0, bn.len() as int) =~= bn);
    let base2 = with_file_name(q, bn);
    assert(part_suffix_spec(q) == Some((base2, j, d.len())));
    assert(d.len() == w);
    // q ends with .rar too
    lemma_dir_plus_last(q);
    lemma_lower_concat(dir_of(q), nq);
    assert(lower(q).subrange(lower(q).len() - 4, lower(q).len() as int) =~= lq.subrange(lq.len() - 4, lq.len() as int));
    assert(ends_with(lower(q), rar_ext()));
    // the same family again
    assert(name_or_empty(base2) == bn);
    let r = Seq::new(c, |t: int| with_file_name(base2, numbered(pre, (1 + t) as nat, w, rar_ext())));
    assert forall|t: int| 0 <= t < c implies r[t] == v[t] by {
        assert(with_file_name(base2, numbered(pre, (1 + t) as nat, w, rar_ext())) == with_file_name(
            base,
            numbered(pre, (1 + t) as nat, w, rar_ext()),
        ));
    }
    assert(r =~= v);
}


/// Entering an old-style set (`foo.rar`, `foo.r00`, `foo.r01` ...) by any
/// two-digit `.rNN` volume finds the same set as entering by its `.rar`
/// (`.r100` and later, which the set may still hold, are not read as
/// volume names).
pub proof fn law_volume_set_any_old_volume(p: Seq<char>, names: Seq<Seq<char>>, fold: bool, x: Seq<char>, k: int)
    requires
        file_name(p) == Some(x + rar_ext()),
        x.len() > 0,
        x != crate::archive::dot(),
        x != crate::archive::dot_dot(),
        part_suffix_spec(p) is None,
        present(names, x + rar_ext(), fold),
        0 <= k < volume_set_spec(p, names, fold).len(),
        k <= 100,
    ensures
        volume_set_spec(volume_set_spec(p, names, fold)[k], names, fold) == volume_set_spec(p, names, fold),
{
    lemma_marks_plain();
    let name_p = x + rar_ext();
    lemma_lower_fixed(rar_ext());
    lemma_lower_concat(x, rar_ext());
    if crate::names::tail_trimmed(p) != p {
        // `foo.rar/`: not a volume name at all, the set is the path alone
        assert(p.len() > 0);
        assert(is_sep(p.last()) || p.last() == '.');
        let lp = lower(p);
        assert(lp.last() == crate::text::lower_char(p.last()));
        assert(!ends_with(lp, rar_ext())) by {
            if ends_with(lp, rar_ext()) {
                assert(lp.subrange(lp.len() - 4, lp.len() as int)[3] == rar_ext()[3]);
            }
        }
        let ar = seq!['a', 'r'];
        assert(lower(name_p) =~= lower(x) + old_mark() + ar);
        lemma_rfind_mark(lower(x), old_mark(), ar);
        assert(rsplit_once(lower(name_p), old_mark()) == Some((lower(x), ar))) by {
            assert(lower(name_p).subrange(0, x.len() as int) =~= lower(x));
            assert(lower(name_p).subrange(x.len() + 2int, lower(name_p).len() as int) =~= ar);
        }
        assert(!crate::text::is_digit(ar[0]));
        assert(old_naming_head_spec(p) is None);
        assert(volume_set_spec(p, names, fold) == seq![p]);
        return;
    }
    lemma_file_name_no_sep(p);
    assert forall|i: int| 0 <= i < x.len() implies !is_sep(#[trigger] x[i]) by {
        assert(x[i] == name_p[i]);
    }
    // p ends with .rar
    lemma_dir_plus_last(p);
    lemma_lower_fixed(rar_ext());
    lemma_lower_concat(x, rar_ext());
    lemma_lower_concat(dir_of(p), name_p);
    assert(lower(p) == lower(dir_of(p)) + lower(x) + rar_ext());
    assert(lower(p).subrange(lower(p).len() - 4, lower(p).len() as int) =~= rar_ext());
    assert(ends_with(lower(p), rar_ext()));
    let v = volume_set_spec(p, names, fold);
    if k == 0 {
        return;
    }
    // the stem of p's name is x
    let rar_tail = seq!['r', 'a', 'r'];
    assert(name_p =~= x + seq!['.'] + rar_tail);
    lemma_rfind_mark(x, seq!['.'], rar_tail);
    assert(stem_of(name_p) == x) by {
        assert(name_p.subrange(0, x.len() as int) =~= x);
    }
    let stem_path = with_file_name(p, x);
    lemma_sibling(p, x);
    assert(name_or_empty(stem_path) == x);
    let pre = x + old_mark();
    let c = run_len(folded_names(names, fold), folded(pre, fold), 0, 2, seq![]);
    let t: nat = (k - 1) as nat;
    assert(t < 100);
    assert(pow10(2) == 100) by {
        assert(pow10(0) == 1);
        assert(pow10(1) == 10);
    }
    lemma_fits(t, 2);
    let d = padded(t, 2);
    lemma_digits_plain(d);
    let nq = pre + d;
    assert(numbered(pre, t, 2, seq![]) =~= nq);
    let q = with_file_name(stem_path, nq);
    assert(v[k] == q);
    assert forall|i: int| 0 <= i < nq.len() implies !is_sep(#[trigger] nq[i]) by {
        if i < x.len() {
            assert(nq[i] == x[i]);
        } else if i < pre.len() {
            assert(nq[i] == old_mark()[i - x.len()]);
        } else {
            assert(nq[i] == d[i - pre.len()]);
        }
    }
    lemma_sibling(stem_path, nq);
    assert(file_name(q) == Some(nq)) by {
        assert(nq.len() > 2);
    }
    // q does not end with .rar
    lemma_dir_plus_last(q);
    lemma_lower_fixed(old_mark());
    lemma_lower_fixed(d);
    lemma_lower_concat(x, old_mark());
    lemma_lower_concat(pre, d);
    lemma_lower_concat(dir_of(q), nq);
    let lq = lower(nq);
    assert(lq == lower(x) + old_mark() + d);
    assert(!ends_with(lower(q), rar_ext())) by {
        let lqq = lower(q);
        assert(lqq == lower(dir_of(q)) + lq);
        assert(lqq[lqq.len() - 2] == d[0]);
        assert(crate::text::is_digit(d[0]));
        if ends_with(lqq, rar_ext()) {
            assert(lqq.subrange(lqq.len() - 4, lqq.len() as int)[2] == rar_ext()[2]);
        }
    }
    // its head is p
    lemma_rfind_mark(lower(x), old_mark(), d);
    assert(rsplit_once(lq, old_mark()) == Some((lower(x), d))) by {
        assert(lq.subrange(0, x.len() as int) =~= lower(x));
        assert(lq.subrange(x.len() + 2int, lq.len() as int) =~= d);
    }
    assert(nq.subrange(0, x.len() as int) =~= x);
    let head = with_file_name(q, x + rar_ext());
    assert(old_naming_head_spec(q) == Some(head));
    assert(head =~= p);
    assert(last_component(head) == name_p);
}

} // verus!
