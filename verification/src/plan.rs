//! Decisions taken while an archive is being read, extracted, tested or
//! rewritten: what to do with each entry, which code a failure shows as,
//! which entries survive an update, and what a creation request asks for.

use vstd::prelude::*;
use crate::text::{chars_of, string_of, eq_chars};
use crate::names::{file_name, file_name_exec};
use crate::split::{names_of, holds, char_lists, position_of, volume_parts, volume_parts_spec, multi_disk_zip, first_disk_name, present};
use crate::archive::{
    norm_inner, norm_inner_spec, selected, selected_spec, filter_names, safe_join, safe_parts_spec,
    join_all, suspicious_path_message, detect_format, detect_format_spec, unsupported_format_message,
    Format,
};

verus! {

/// What extraction does with one entry.
#[derive(Debug)]
pub enum EntryPlan {
    /// Not selected, a link, or an empty name: nothing is written.
    Skip,
    /// Create this directory.
    Dir { target: String },
    /// Write the entry's content to this file; `decrypt` when it is
    /// encrypted and the password is to be used.
    File { target: String, decrypt: bool },
}

/// The plan as plain values.
pub enum PlanView {
    Skip,
    Dir(Seq<char>),
    File(Seq<char>, bool),
}

pub open spec fn plan_view(p: EntryPlan) -> PlanView {
    match p {
        EntryPlan::Skip => PlanView::Skip,
        EntryPlan::Dir { target } => PlanView::Dir(target@),
        EntryPlan::File { target, decrypt } => PlanView::File(target@, decrypt),
    }
}

pub open spec fn need_password_code() -> Seq<char> {
    "NEED_PASSWORD"@
}

pub open spec fn wrong_password_code() -> Seq<char> {
    "WRONG_PASSWORD"@
}

pub open spec fn canceled_code() -> Seq<char> {
    "canceled"@
}

/// What a canceled operation ends with (not an error to show).
pub fn canceled() -> (r: String)
    ensures
        r@ == canceled_code(),
{
    String::from_str("canceled")
}

/// The plan for an entry stored as `raw_name`, extracted under `dest`:
/// entries with an empty name, not selected, or links are skipped; a path
/// that could leave `dest` is refused; an encrypted file needs a password.
/// `drives`: the platform reads a leading `C:` as a drive.
pub open spec fn plan_spec(
    dest: Seq<char>,
    raw_name: Seq<char>,
    is_dir: bool,
    is_link: bool,
    encrypted: bool,
    filter: Option<Seq<Seq<char>>>,
    has_password: bool,
    drives: bool,
) -> Result<PlanView, Seq<char>> {
    let inner = norm_inner_spec(raw_name);
    if inner.len() == 0 || !selected_spec(inner, filter) || is_link {
        Ok(PlanView::Skip)
    } else {
        match safe_parts_spec(inner, drives) {
            None => Err(suspicious_path_message(inner)),
            Some(cs) => if is_dir {
                Ok(PlanView::Dir(join_all(dest, cs)))
            } else if encrypted && !has_password {
                Err(need_password_code())
            } else {
                Ok(PlanView::File(join_all(dest, cs), encrypted))
            },
        }
    }
}

/// The path a plan writes to, if any.
pub open spec fn written_path(r: Result<PlanView, Seq<char>>) -> Option<Seq<char>> {
    match r {
        Ok(PlanView::Dir(t)) => Some(t),
        Ok(PlanView::File(t, _)) => Some(t),
        _ => None,
    }
}

/// Zip-slip, for extraction: whatever name an archive gives an entry, what
/// extraction writes lies under the destination, reached only by components
/// that name children; a link is never written, and an encrypted file is
/// never written without a password.
pub proof fn law_extraction_stays_in_dest(
    dest: Seq<char>,
    raw_name: Seq<char>,
    is_dir: bool,
    is_link: bool,
    encrypted: bool,
    filter: Option<Seq<Seq<char>>>,
    has_password: bool,
    drives: bool,
)
    ensures
        written_path(plan_spec(dest, raw_name, is_dir, is_link, encrypted, filter, has_password, drives)) matches Some(t)
            ==> {
            let cs = safe_parts_spec(norm_inner_spec(raw_name), drives).unwrap();
            &&& safe_parts_spec(norm_inner_spec(raw_name), drives) is Some
            &&& t == join_all(dest, cs)
            &&& crate::text::starts_with(t, dest)
            &&& forall|i: int| 0 <= i < cs.len() ==> crate::archive::is_normal(#[trigger] cs[i])
        },
        is_link ==> plan_spec(dest, raw_name, is_dir, is_link, encrypted, filter, has_password, drives) == Ok::<
            PlanView,
            Seq<char>,
        >(PlanView::Skip),
        (!is_dir && encrypted && !has_password) ==> !(plan_spec(
            dest,
            raw_name,
            is_dir,
            is_link,
            encrypted,
            filter,
            has_password,
            drives,
        ) matches Ok(PlanView::File(_, _))),
{
    let inner = norm_inner_spec(raw_name);
    if safe_parts_spec(inner, drives) is Some {
        crate::archive::law_safe_join_stays_in_dest(dest, inner, drives);
    }
}

/// Extraction decides on an entry's normalised path, never on how the
/// archive happened to spell it: `./docs/a.txt`, `docs\\a.txt` and
/// `docs/a.txt` are one entry and get one plan.
pub proof fn law_plan_follows_normalised_name(
    dest: Seq<char>,
    r1: Seq<char>,
    r2: Seq<char>,
    is_dir: bool,
    is_link: bool,
    encrypted: bool,
    filter: Option<Seq<Seq<char>>>,
    has_password: bool,
    drives: bool,
)
    requires
        norm_inner_spec(r1) == norm_inner_spec(r2),
    ensures
        plan_spec(dest, r1, is_dir, is_link, encrypted, filter, has_password, drives) == plan_spec(
            dest,
            r2,
            is_dir,
            is_link,
            encrypted,
            filter,
            has_password,
            drives,
        ),
{
}

/// `inner` is picked: nothing was selected, or it is one of the selected
/// paths, or it lies below one of them.
pub open spec fn picked_by(filter: Option<Seq<Seq<char>>>, inner: Seq<char>) -> bool {
    match filter {
        None => true,
        Some(l) => exists|j: int| #[trigger] picked_at(l, inner, j),
    }
}

/// The `j`-th selected path is `inner` or one of its ancestors.
pub open spec fn picked_at(l: Seq<Seq<char>>, inner: Seq<char>, j: int) -> bool {
    0 <= j < l.len() && (l[j] == inner || crate::text::starts_with(inner, l[j].push('/')))
}

/// A selected entry is written: when its normalised path is not empty, is
/// one of the selected paths or lies below one (or nothing was selected),
/// is not a link and can be joined safely, extraction writes it at that
/// path under the destination, a file that needs a missing password aside.
pub proof fn law_selected_entry_is_written(
    dest: Seq<char>,
    raw_name: Seq<char>,
    is_dir: bool,
    is_link: bool,
    encrypted: bool,
    filter: Option<Seq<Seq<char>>>,
    has_password: bool,
    drives: bool,
)
    requires
        norm_inner_spec(raw_name).len() > 0,
        !is_link,
        safe_parts_spec(norm_inner_spec(raw_name), drives) is Some,
        picked_by(filter, norm_inner_spec(raw_name)),
        is_dir || !encrypted || has_password,
    ensures
        written_path(plan_spec(dest, raw_name, is_dir, is_link, encrypted, filter, has_password, drives))
            == Some(join_all(dest, safe_parts_spec(norm_inner_spec(raw_name), drives).unwrap())),
        plan_spec(dest, raw_name, is_dir, is_link, encrypted, filter, has_password, drives) matches Ok(
            PlanView::File(_, d),
        ) ==> d == encrypted,
{
    let inner = norm_inner_spec(raw_name);
    match filter {
        None => {},
        Some(l) => {
            let j = choose|j: int| picked_at(l, inner, j);
            crate::archive::lemma_selected_intro(inner, l, j);
        },
    }
}

/// What extraction does with the entry stored as `raw_name`.
pub fn plan_entry(
    dest: &str,
    raw_name: &str,
    is_dir: bool,
    is_link: bool,
    encrypted: bool,
    filter: &Option<Vec<String>>,
    has_password: bool,
    drives: bool,
) -> (r: Result<EntryPlan, String>)
    ensures
        match r {
            Ok(p) => plan_spec(dest@, raw_name@, is_dir, is_link, encrypted, filter_names(*filter), has_password, drives)
                == Ok::<PlanView, Seq<char>>(plan_view(p)),
            Err(e) => plan_spec(dest@, raw_name@, is_dir, is_link, encrypted, filter_names(*filter), has_password, drives)
                == Err::<PlanView, Seq<char>>(e@),
        },
{
    let inner = norm_inner(raw_name);
    if inner.unicode_len() == 0 || !selected(inner.as_str(), filter) || is_link {
        return Ok(EntryPlan::Skip);
    }
    let target = match safe_join(dest, inner.as_str(), drives) {
        Ok(t) => t,
        Err(e) => return Err(e),
    };
    if is_dir {
        Ok(EntryPlan::Dir { target })
    } else if encrypted && !has_password {
        Err(String::from_str("NEED_PASSWORD"))
    } else {
        Ok(EntryPlan::File { target, decrypt: encrypted })
    }
}

/// What an integrity test does with one zip entry.
#[derive(Clone, Copy, PartialEq, Eq, Structural, Debug)]
pub enum CheckStep {
    /// A directory: no content to check.
    Skip,
    /// Read the content (its checksum is verified on the way).
    Read,
    /// Read the content with the password.
    Decrypt,
    /// Encrypted and no password given.
    NeedPassword,
}

/// Directories never have their content opened, and only encrypted
/// entries go through the password.
pub fn check_step(is_dir: bool, encrypted: bool, has_password: bool) -> (r: CheckStep)
    ensures
        r == (if is_dir {
            CheckStep::Skip
        } else if !encrypted {
            CheckStep::Read
        } else if has_password {
            CheckStep::Decrypt
        } else {
            CheckStep::NeedPassword
        }),
{
    if is_dir {
        CheckStep::Skip
    } else if !encrypted {
        CheckStep::Read
    } else if has_password {
        CheckStep::Decrypt
    } else {
        CheckStep::NeedPassword
    }
}

/// How many items a test checked: `checked[i]` tells whether item `i` was
/// read through.
pub open spec fn checked_spec(checked: Seq<bool>) -> nat
    decreases checked.len(),
{
    if checked.len() == 0 {
        0
    } else {
        checked_spec(checked.drop_last()) + if checked.last() {
            1nat
        } else {
            0nat
        }
    }
}

pub fn checked_count(checked: &Vec<bool>) -> (r: u64)
    requires
        checked@.len() <= u64::MAX,
    ensures
        r as nat == checked_spec(checked@),
{
    let mut n: u64 = 0;
    let mut i: usize = 0;
    while i < checked.len()
        invariant
            i <= checked.len() <= u64::MAX,
            n as nat == checked_spec(checked@.subrange(0, i as int)),
            n <= i,
        decreases checked.len() - i,
    {
        assert(checked@.subrange(0, i + 1).drop_last() =~= checked@.subrange(0, i as int));
        if checked[i] {
            n = n + 1;
        }
        i = i + 1;
    }
    assert(checked@.subrange(0, checked@.len() as int) =~= checked@);
    n
}

pub open spec fn multi_disk_code() -> Seq<char> {
    "MULTI_DISK_ZIP"@
}

/// Whether an archive can be read as one stream: a real multi-disk zip (a
/// `.zip` with a `.z01` among `siblings`) cannot, and is refused with its
/// own code rather than a confusing error from the zip reader. `fold`: the
/// file system compares names without regard to letter case.
pub fn reader_check(path: &str, siblings: &Vec<String>, fold: bool) -> (r: Result<(), String>)
    ensures
        r is Ok <==> !(first_disk_name(path@) matches Some(n) && present(names_of(siblings@), n, fold)),
        r matches Err(e) ==> e@ == multi_disk_code(),
{
    if multi_disk_zip(path, siblings, fold) {
        Err(String::from_str("MULTI_DISK_ZIP"))
    } else {
        Ok(())
    }
}

/// How many items of a 7z listing have content that a test reads: files
/// (not directories) that carry a stream. Each item is `(is_dir, has_stream)`.
pub open spec fn streams_spec(items: Seq<(bool, bool)>) -> nat
    decreases items.len(),
{
    if items.len() == 0 {
        0
    } else {
        streams_spec(items.drop_last()) + if !items.last().0 && items.last().1 {
            1nat
        } else {
            0nat
        }
    }
}

pub fn stream_count(items: &Vec<(bool, bool)>) -> (r: u64)
    requires
        items@.len() <= u64::MAX,
    ensures
        r as nat == streams_spec(items@),
{
    let mut n: u64 = 0;
    let mut i: usize = 0;
    while i < items.len()
        invariant
            i <= items.len() <= u64::MAX,
            n as nat == streams_spec(items@.subrange(0, i as int)),
            n <= i,
        decreases items.len() - i,
    {
        assert(items@.subrange(0, i + 1).drop_last() =~= items@.subrange(0, i as int));
        let (is_dir, has_stream) = items[i];
        if !is_dir && has_stream {
            n = n + 1;
        }
        i = i + 1;
    }
    assert(items@.subrange(0, items@.len() as int) =~= items@);
    n
}

/// How reading a zip entry failed.
#[derive(Debug)]
pub enum ZipFailure {
    /// The entry is encrypted and no password was given.
    NeedPassword,
    /// The password check at opening failed.
    InvalidPassword,
    /// Reading the content failed (bad checksum, truncated data...).
    Read { encrypted: bool, text: String },
    /// Anything else, and how it reads.
    Other { text: String },
}

/// The code a zip failure shows as. A read error on an encrypted entry is
/// taken as a wrong password: the legacy cipher's check at opening is one
/// byte, so a wrong password passes it once in 256 and then fails here.
pub open spec fn zip_failure_spec(f: ZipFailure) -> Seq<char> {
    match f {
        ZipFailure::NeedPassword => need_password_code(),
        ZipFailure::InvalidPassword => wrong_password_code(),
        ZipFailure::Read { encrypted, text } => if encrypted {
            wrong_password_code()
        } else {
            text@
        },
        ZipFailure::Other { text } => text@,
    }
}

pub fn zip_failure_code(f: ZipFailure) -> (r: String)
    ensures
        r@ == zip_failure_spec(f),
{
    match f {
        ZipFailure::NeedPassword => String::from_str("NEED_PASSWORD"),
        ZipFailure::InvalidPassword => String::from_str("WRONG_PASSWORD"),
        ZipFailure::Read { encrypted, text } => if encrypted {
            String::from_str("WRONG_PASSWORD")
        } else {
            text
        },
        ZipFailure::Other { text } => text,
    }
}

/// How decoding a 7z archive failed.
#[derive(Debug)]
pub enum SevenZFailure {
    PasswordRequired,
    /// The decoder suspects the password.
    MaybeBadPassword,
    Other { text: String },
}

/// The code a 7z extraction shows: a cancel wins; a suspected password is
/// a wrong one when a password was given and a missing one otherwise.
pub open spec fn sevenz_failure_spec(f: SevenZFailure, canceled: bool, has_password: bool) -> Seq<char> {
    if canceled {
        canceled_code()
    } else {
        match f {
            SevenZFailure::PasswordRequired => need_password_code(),
            SevenZFailure::MaybeBadPassword => if has_password {
                wrong_password_code()
            } else {
                need_password_code()
            },
            SevenZFailure::Other { text } => text@,
        }
    }
}

pub fn sevenz_failure_code(f: SevenZFailure, canceled: bool, has_password: bool) -> (r: String)
    ensures
        r@ == sevenz_failure_spec(f, canceled, has_password),
{
    if canceled {
        return String::from_str("canceled");
    }
    match f {
        SevenZFailure::PasswordRequired => String::from_str("NEED_PASSWORD"),
        SevenZFailure::MaybeBadPassword => if has_password {
            String::from_str("WRONG_PASSWORD")
        } else {
            String::from_str("NEED_PASSWORD")
        },
        SevenZFailure::Other { text } => text,
    }
}


// ---------- adding to and removing from a zip ----------

pub open spec fn update_only_zip_code() -> Seq<char> {
    "UPDATE_ONLY_ZIP"@
}

pub open spec fn update_not_on_split_code() -> Seq<char> {
    "UPDATE_NOT_ON_SPLIT"@
}

/// Whether an update may go ahead: only a zip that is not a raw-cut volume
/// set can be rewritten. `Ok(false)` when there is nothing to add or remove.
pub open spec fn update_check_spec(
    archive: Seq<char>,
    names: Seq<Seq<char>>,
    fold: bool,
    add_empty: bool,
    remove_empty: bool,
) -> Result<bool, Seq<char>> {
    match detect_format_spec(archive) {
        None => Err(unsupported_format_message()),
        Some(f) => if f != Format::Zip {
            Err(update_only_zip_code())
        } else if volume_parts_spec(archive, names, fold) is Some {
            Err(update_not_on_split_code())
        } else {
            Ok(!(add_empty && remove_empty))
        },
    }
}

/// Checks an update request before anything is read (`siblings` are the
/// names of the files next to `archive`; `fold`: they compare without regard
/// to letter case).
pub fn update_check(
    archive: &str,
    siblings: &Vec<String>,
    fold: bool,
    add_empty: bool,
    remove_empty: bool,
) -> (r: Result<bool, String>)
    requires
        siblings@.len() < usize::MAX,
    ensures
        match r {
            Ok(b) => update_check_spec(archive@, names_of(siblings@), fold, add_empty, remove_empty) == Ok::<
                bool,
                Seq<char>,
            >(b),
            Err(e) => update_check_spec(archive@, names_of(siblings@), fold, add_empty, remove_empty) == Err::<
                bool,
                Seq<char>,
            >(e@),
        },
{
    let f = match detect_format(archive) {
        Ok(f) => f,
        Err(e) => return Err(e),
    };
    if f != Format::Zip {
        return Err(String::from_str("UPDATE_ONLY_ZIP"));
    }
    if volume_parts(archive, siblings, fold).is_some() {
        return Err(String::from_str("UPDATE_NOT_ON_SPLIT"));
    }
    Ok(!(add_empty && remove_empty))
}

/// An entry is taken out by the removal list (an empty list removes nothing).
pub open spec fn removed_by(inner: Seq<char>, remove: Seq<Seq<char>>) -> bool {
    remove.len() > 0 && selected_spec(inner, Some(remove))
}

/// An existing entry stays in a rebuilt zip: it has a name, it is not
/// replaced by a new file of the same name, and it is not removed.
pub open spec fn keeps(raw: Seq<char>, new_names: Seq<Seq<char>>, remove: Seq<Seq<char>>) -> bool {
    let inner = norm_inner_spec(raw);
    inner.len() > 0 && !holds(new_names, inner) && !removed_by(inner, remove)
}

/// A new file has the name of an existing entry.
pub open spec fn collides(existing: Seq<Seq<char>>, new_names: Seq<Seq<char>>) -> bool {
    exists|i: int| 0 <= i < existing.len() && holds(new_names, norm_inner_spec(#[trigger] existing[i]))
}

/// Entries that survive (for progress): not replaced and not removed.
pub open spec fn survivors_spec(existing: Seq<Seq<char>>, new_names: Seq<Seq<char>>, remove: Seq<Seq<char>>) -> nat
    decreases existing.len(),
{
    if existing.len() == 0 {
        0
    } else {
        let inner = norm_inner_spec(existing.last());
        survivors_spec(existing.drop_last(), new_names, remove) + if !holds(new_names, inner) && !removed_by(inner, remove) {
            1nat
        } else {
            0nat
        }
    }
}

/// How an update rewrites a zip.
#[derive(Debug)]
pub struct UpdatePlan {
    /// Rebuild into a new file (a removal, or a new file replacing an
    /// existing entry); otherwise the new files are appended and the old
    /// bytes are not even read.
    pub rebuild: bool,
    /// For a rebuild, which existing entries are copied over (as stored,
    /// still compressed).
    pub keep: Vec<bool>,
    /// How many existing entries survive.
    pub survivors: u64,
}

/// Plans an update of a zip whose entries are stored as `existing`, adding
/// files whose inner names are `new_names` and removing `remove` (paths
/// inside the zip, each with what lies below it).
pub fn plan_update(existing: &Vec<String>, new_names: &Vec<String>, remove: &Vec<String>) -> (r: UpdatePlan)
    requires
        existing@.len() <= u64::MAX,
    ensures
        r.rebuild == (remove@.len() > 0 || collides(names_of(existing@), names_of(new_names@))),
        r.keep@.len() == existing@.len(),
        forall|i: int| 0 <= i < existing@.len() ==> r.keep@[i] == keeps(
            (#[trigger] existing@[i])@,
            names_of(new_names@),
            names_of(remove@),
        ),
        r.survivors as nat == survivors_spec(names_of(existing@), names_of(new_names@), names_of(remove@)),
{
    let news = char_lists(new_names);
    let ghost nn = names_of(new_names@);
    assert(news@.map_values(|c: Vec<char>| c@) =~= nn);
    let rm: Option<Vec<String>> = if remove.len() == 0 {
        None
    } else {
        Some(remove.clone())
    };
    proof {
        if remove.len() > 0 {
            assert(rm.unwrap()@ =~= remove@);
        }
    }
    let mut keep: Vec<bool> = Vec::new();
    let mut collide = false;
    let mut survivors: u64 = 0;
    let mut i: usize = 0;
    while i < existing.len()
        invariant
            i <= existing.len() <= u64::MAX,
            nn == names_of(new_names@),
            news@.map_values(|c: Vec<char>| c@) == nn,
            rm is None <==> remove@.len() == 0,
            rm is Some ==> rm.unwrap()@ == remove@,
            keep@.len() == i,
            forall|k: int| 0 <= k < i ==> keep@[k] == keeps((#[trigger] existing@[k])@, nn, names_of(remove@)),
            collide == (exists|k: int| 0 <= k < i && holds(nn, norm_inner_spec(#[trigger] names_of(existing@)[k]))),
            survivors as nat == survivors_spec(names_of(existing@).subrange(0, i as int), nn, names_of(remove@)),
            survivors <= i,
        decreases existing.len() - i,
    {
        let inner = norm_inner(existing[i].as_str());
        let ic = chars_of(inner.as_str());
        let hit = position_of(&news, &ic);
        let is_new = hit.is_some();
        proof {
            if is_new {
                let j = hit.unwrap() as int;
                assert(nn[j] == news@[j]@);
            } else {
                assert forall|j: int| 0 <= j < nn.len() implies nn[j] != ic@ by {
                    assert(nn[j] == news@[j]@);
                }
            }
        }
        assert(is_new == holds(nn, inner@));
        let is_removed = match &rm {
            None => false,
            Some(_) => selected(inner.as_str(), &rm),
        };
        proof {
            if rm is Some {
                assert(filter_names(rm) == Some(names_of(remove@)));
            }
        }
        assert(is_removed == removed_by(inner@, names_of(remove@)));
        keep.push(inner.unicode_len() > 0 && !is_new && !is_removed);
        let ghost before = names_of(existing@).subrange(0, i as int);
        assert(names_of(existing@).subrange(0, i + 1).drop_last() =~= before);
        assert(names_of(existing@)[i as int] == existing@[i as int]@);
        if !is_new && !is_removed {
            survivors = survivors + 1;
        }
        if is_new {
            collide = true;
        }
        i = i + 1;
    }
    assert(names_of(existing@).subrange(0, existing@.len() as int) =~= names_of(existing@));
    UpdatePlan { rebuild: remove.len() > 0 || collide, keep, survivors }
}

/// Every path of the removal list takes out the entry it names and
/// everything below it: such an entry is never copied over, the zip is
/// rebuilt, and it is not counted among the survivors.
pub proof fn law_update_removes_every_listed_path(
    existing: Seq<Seq<char>>,
    new_names: Seq<Seq<char>>,
    remove: Seq<Seq<char>>,
    i: int,
    j: int,
)
    requires
        0 <= i < existing.len(),
        0 <= j < remove.len(),
        norm_inner_spec(existing[i]) == remove[j] || crate::text::starts_with(
            norm_inner_spec(existing[i]),
            remove[j].push('/'),
        ),
    ensures
        !keeps(existing[i], new_names, remove),
        removed_by(norm_inner_spec(existing[i]), remove),
        survivors_spec(existing, new_names, remove) < existing.len(),
{
    crate::archive::lemma_selected_intro(norm_inner_spec(existing[i]), remove, j);
    lemma_survivors_below(existing, new_names, remove, i);
}

/// The survivors of an update are at most its entries, and fewer when one
/// of them is removed.
pub proof fn lemma_survivors_below(existing: Seq<Seq<char>>, new_names: Seq<Seq<char>>, remove: Seq<Seq<char>>, i: int)
    requires
        0 <= i < existing.len(),
        removed_by(norm_inner_spec(existing[i]), remove),
    ensures
        survivors_spec(existing, new_names, remove) < existing.len(),
    decreases existing.len(),
{
    lemma_survivors_at_most(existing.drop_last(), new_names, remove);
    if i < existing.len() - 1 {
        assert(existing.drop_last()[i] == existing[i]);
        lemma_survivors_below(existing.drop_last(), new_names, remove, i);
    }
}

pub proof fn lemma_survivors_at_most(existing: Seq<Seq<char>>, new_names: Seq<Seq<char>>, remove: Seq<Seq<char>>)
    ensures
        survivors_spec(existing, new_names, remove) <= existing.len(),
    decreases existing.len(),
{
    if existing.len() > 0 {
        lemma_survivors_at_most(existing.drop_last(), new_names, remove);
    }
}

/// An update never leaves two entries with one name: when new files are
/// only appended, no existing entry has a new file's name, and when the zip
/// is rebuilt, no entry that is copied over has one. Removed entries are
/// never copied over.
pub proof fn law_update_never_duplicates(
    existing: Seq<Seq<char>>,
    new_names: Seq<Seq<char>>,
    remove: Seq<Seq<char>>,
    rebuild: bool,
    i: int,
)
    requires
        rebuild == (remove.len() > 0 || collides(existing, new_names)),
        0 <= i < existing.len(),
    ensures
        !rebuild ==> !holds(new_names, norm_inner_spec(existing[i])),
        rebuild && keeps(existing[i], new_names, remove) ==> !holds(new_names, norm_inner_spec(existing[i])),
        removed_by(norm_inner_spec(existing[i]), remove) ==> !keeps(existing[i], new_names, remove),
{
    if !rebuild && holds(new_names, norm_inner_spec(existing[i])) {
        assert(collides(existing, new_names));
    }
}

// ---------- creating ----------

/// What a creation request asks for.
#[derive(Debug)]
pub enum CreateKind {
    /// A zip (Deflate), encrypted with AES-256 when a password is given.
    Zip { password: Option<String> },
    /// A tar.gz.
    TarGz,
}

pub open spec fn unknown_create_format_message(format: Seq<char>) -> Seq<char> {
    "formato de criação desconhecido: "@ + format
}

pub open spec fn nothing_to_pack_message() -> Seq<char> {
    "nada pra compactar"@
}

/// A creation needs at least one source.
pub fn check_sources(count: usize) -> (r: Result<(), String>)
    ensures
        r is Ok <==> count > 0,
        r matches Err(e) ==> e@ == nothing_to_pack_message(),
{
    if count == 0 {
        Err(String::from_str("nada pra compactar"))
    } else {
        Ok(())
    }
}

/// A creation request as plain values.
pub enum CreateView {
    Zip(Option<Seq<char>>),
    TarGz,
}

pub open spec fn create_view(k: CreateKind) -> CreateView {
    match k {
        CreateKind::Zip { password } => CreateView::Zip(opt_view(password)),
        CreateKind::TarGz => CreateView::TarGz,
    }
}

pub open spec fn opt_view(o: Option<String>) -> Option<Seq<char>> {
    match o {
        Some(s) => Some(s@),
        None => None,
    }
}

pub open spec fn create_spec(format: Seq<char>, password: Option<Seq<char>>) -> Result<CreateView, Seq<char>> {
    if format == "zip"@ {
        Ok(CreateView::Zip(match password {
            Some(p) => if p.len() > 0 { Some(p) } else { None },
            None => None,
        }))
    } else if format == "targz"@ {
        Ok(CreateView::TarGz)
    } else {
        Err(unknown_create_format_message(format))
    }
}

/// The password a new zip entry is encrypted with: none for an empty one.
pub fn effective_password(password: Option<String>) -> (r: Option<String>)
    ensures
        opt_view(r) == match opt_view(password) {
            Some(p) => if p.len() > 0 { Some(p) } else { None },
            None => None,
        },
{
    match password {
        Some(p) => if p.unicode_len() > 0 { Some(p) } else { None },
        None => None,
    }
}

/// The kind of archive to create: `zip` (a non-empty password turns on
/// AES-256; an empty one means none) or `targz`.
pub fn create_kind(format: &str, password: Option<String>) -> (r: Result<CreateKind, String>)
    ensures
        match r {
            Ok(k) => create_spec(format@, opt_view(password)) == Ok::<CreateView, Seq<char>>(create_view(k)),
            Err(e) => create_spec(format@, opt_view(password)) == Err::<CreateView, Seq<char>>(e@),
        },
{
    let f = chars_of(format);
    let zip = chars_of("zip");
    let targz = chars_of("targz");
    if eq_chars(&f, &zip) {
        Ok(CreateKind::Zip { password: effective_password(password) })
    } else if eq_chars(&f, &targz) {
        Ok(CreateKind::TarGz)
    } else {
        let mut e = String::from_str("formato de criação desconhecido: ");
        e.append(format);
        Err(e)
    }
}

pub open spec fn invalid_source_message(src: Seq<char>) -> Seq<char> {
    "origem inválida: "@ + src
}

/// The name a source takes inside a new archive: its own file name (packing
/// the folder `fotos` gives `fotos/...`).
pub fn source_root_name(src: &str) -> (r: Result<String, String>)
    ensures
        match r {
            Ok(n) => file_name(src@) == Some(n@),
            Err(e) => file_name(src@) is None && e@ == invalid_source_message(src@),
        },
{
    let p = chars_of(src);
    match file_name_exec(&p) {
        Some(n) => Ok(string_of(&n)),
        None => {
            let mut e = String::from_str("origem inválida: ");
            e.append(src);
            Err(e)
        },
    }
}

} // verus!
