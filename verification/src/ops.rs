//! Bookkeeping of long operations: the registry of running operations and
//! their cancel flags, progress counting with its throttle, the end-of-
//! operation message, the integrity report, and the file given at launch.

use vstd::prelude::*;
use std::collections::HashMap;
use crate::text::{chars_of};
use crate::archive::{OpProgress, OpDone, IntegrityResult};

verus! {

broadcast use vstd::std_specs::hash::group_hash_axioms;

/// Running operations (operation id to its cancel flag).
pub struct OpsState<F> {
    ops: HashMap<u64, F>,
    next_id: u64,
}

impl<F> OpsState<F> {
    /// The running operations.
    pub closed spec fn ops_view(&self) -> Map<u64, F> {
        self.ops@
    }

    /// The last id handed out (0 before the first).
    pub closed spec fn last_id(&self) -> u64 {
        self.next_id
    }

    /// Every running operation has an id already handed out.
    pub closed spec fn wf(&self) -> bool {
        forall|id: u64| self.ops@.contains_key(id) ==> 1 <= id <= self.next_id
    }

    pub fn new() -> (r: Self)
        ensures
            r.wf(),
            r.ops_view() == Map::<u64, F>::empty(),
            r.last_id() == 0,
    {
        OpsState { ops: HashMap::new(), next_id: 0 }
    }

    /// Registers a new operation with its cancel flag and gives its id: one
    /// more than the last id handed out.
    pub fn register(&mut self, flag: F) -> (id: u64)
        requires
            old(self).last_id() < u64::MAX,
        ensures
            id == old(self).last_id() + 1,
            final(self).last_id() == id,
            final(self).ops_view() == old(self).ops_view().insert(id, flag),
            old(self).wf() ==> final(self).wf(),
    {
        let id = self.next_id + 1;
        self.next_id = id;
        self.ops.insert(id, flag);
        id
    }

    /// The cancel flag of a running operation, to raise it; nothing for an
    /// id that is not running.
    pub fn cancel(&self, id: u64) -> (r: Option<&F>)
        ensures
            match r {
                Some(f) => self.ops_view().contains_key(id) && *f == self.ops_view()[id],
                None => !self.ops_view().contains_key(id),
            },
    {
        self.ops.get(&id)
    }

    /// The last id handed out, so that a caller can tell whether another
    /// one is left.
    pub fn last(&self) -> (r: u64)
        ensures
            r == self.last_id(),
    {
        self.next_id
    }

    /// Whether some operation is still running (closing the window must not
    /// kill it).
    pub fn any_running(&self) -> (r: bool)
        ensures
            r == !self.ops_view().is_empty(),
    {
        !self.ops.is_empty()
    }

    /// Forgets a finished operation.
    pub fn finish(&mut self, id: u64)
        ensures
            final(self).ops_view() == old(self).ops_view().remove(id),
            final(self).last_id() == old(self).last_id(),
            old(self).wf() ==> final(self).wf(),
    {
        self.ops.remove(&id);
    }
}

/// A new operation never gets the id of one still running, and once
/// finished an operation can no longer be canceled.
pub proof fn law_register_fresh_finish_forgets<F>(s: OpsState<F>, id: u64, other: u64)
    requires
        s.wf(),
    ensures
        !s.ops_view().contains_key((s.last_id() + 1) as u64) || s.last_id() == u64::MAX,
        !s.ops_view().remove(id).contains_key(id),
        other != id ==> s.ops_view().remove(id).contains_key(other) == s.ops_view().contains_key(other),
{
}

/// Canceling reaches exactly the operation asked for: once an operation is
/// registered with its flag, looking its id up gives that flag and every
/// other operation keeps its own; once it is finished, or for an id never
/// handed out, the lookup finds nothing (and `cancel` returns `None`).
pub proof fn law_cancel_reaches_only_its_operation<F>(s: OpsState<F>, flag: F, other: u64)
    requires
        s.wf(),
        s.last_id() < u64::MAX,
    ensures
        ({
            let id = (s.last_id() + 1) as u64;
            let m = s.ops_view().insert(id, flag);
            &&& m.contains_key(id) && m[id] == flag
            &&& other != id ==> m.contains_key(other) == s.ops_view().contains_key(other)
            &&& (other != id && s.ops_view().contains_key(other)) ==> m[other] == s.ops_view()[other]
            &&& !m.remove(id).contains_key(id)
            &&& other > id ==> !m.contains_key(other)
        }),
{
}

// ---------- progress ----------

/// Milliseconds between two progress events for bytes.
pub open spec fn throttle_ms() -> u64 {
    150
}

/// Progress counting of one operation. Time is given by the caller, in
/// milliseconds from any fixed start.
pub struct Reporter {
    pub op_id: u64,
    pub done_files: u64,
    pub total_files: u64,
    pub done_bytes: u64,
    pub total_bytes: u64,
    /// When progress was last reported.
    pub last_ms: u64,
}

impl Reporter {
    pub open spec fn progress_of(&self, current: Seq<char>, p: OpProgress) -> bool {
        &&& p.op_id == self.op_id
        &&& p.done_files == self.done_files
        &&& p.total_files == self.total_files
        &&& p.done_bytes == self.done_bytes
        &&& p.total_bytes == self.total_bytes
        &&& p.current@ == current
    }

    pub fn new(op_id: u64, total_files: u64, total_bytes: u64, now_ms: u64) -> (r: Self)
        ensures
            r.op_id == op_id,
            r.done_files == 0,
            r.total_files == total_files,
            r.done_bytes == 0,
            r.total_bytes == total_bytes,
            r.last_ms == now_ms,
    {
        Reporter { op_id, done_files: 0, total_files, done_bytes: 0, total_bytes, last_ms: now_ms }
    }

    fn emit(&mut self, current: &str, now_ms: u64) -> (p: OpProgress)
        ensures
            final(self).last_ms == now_ms,
            final(self).op_id == old(self).op_id,
            final(self).done_files == old(self).done_files,
            final(self).total_files == old(self).total_files,
            final(self).done_bytes == old(self).done_bytes,
            final(self).total_bytes == old(self).total_bytes,
            final(self).progress_of(current@, p),
    {
        self.last_ms = now_ms;
        OpProgress {
            op_id: self.op_id,
            done_files: self.done_files,
            total_files: self.total_files,
            done_bytes: self.done_bytes,
            total_bytes: self.total_bytes,
            current: current.to_owned(),
        }
    }

    /// Counts `n` more bytes of `current`; progress is reported only when at
    /// least 150 ms passed since the last report.
    pub fn bytes(&mut self, n: u64, current: &str, now_ms: u64) -> (r: Option<OpProgress>)
        requires
            old(self).done_bytes + n <= u64::MAX,
        ensures
            final(self).done_bytes == old(self).done_bytes + n,
            final(self).done_files == old(self).done_files,
            final(self).op_id == old(self).op_id,
            final(self).total_files == old(self).total_files,
            final(self).total_bytes == old(self).total_bytes,
            (now_ms >= old(self).last_ms && now_ms - old(self).last_ms >= throttle_ms()) ==> (r matches Some(p)
                && final(self).progress_of(current@, p) && final(self).last_ms == now_ms),
            !(now_ms >= old(self).last_ms && now_ms - old(self).last_ms >= throttle_ms()) ==> (r is None
                && final(self).last_ms == old(self).last_ms),
    {
        self.done_bytes = self.done_bytes + n;
        if now_ms >= self.last_ms && now_ms - self.last_ms >= 150 {
            Some(self.emit(current, now_ms))
        } else {
            None
        }
    }

    /// Counts one more finished file and always reports progress.
    pub fn file_done(&mut self, current: &str, now_ms: u64) -> (p: OpProgress)
        requires
            old(self).done_files < u64::MAX,
        ensures
            final(self).done_files == old(self).done_files + 1,
            final(self).done_bytes == old(self).done_bytes,
            final(self).op_id == old(self).op_id,
            final(self).total_files == old(self).total_files,
            final(self).total_bytes == old(self).total_bytes,
            final(self).last_ms == now_ms,
            final(self).progress_of(current@, p),
    {
        self.done_files = self.done_files + 1;
        self.emit(current, now_ms)
    }
}

// ---------- end of an operation ----------

/// The end-of-operation message: a success is `ok` unless it was canceled;
/// a failure reading `canceled` is a cancel, not an error.
pub open spec fn done_ok(result: Result<Option<String>, String>, canceled: bool) -> bool {
    match result {
        Ok(_) => !canceled,
        Err(_) => false,
    }
}

pub fn done_event(op_id: u64, result: Result<Option<String>, String>, canceled: bool) -> (r: OpDone)
    ensures
        r.op_id == op_id,
        r.canceled == canceled,
        r.ok == done_ok(result, canceled),
        match result {
            Ok(out) => r.error is None && r.output == out,
            Err(e) => r.output is None && if e@ == "canceled"@ {
                r.error is None
            } else {
                r.error == Some(e)
            },
        },
{
    match result {
        Ok(out) => OpDone { op_id, ok: !canceled, canceled, error: None, output: out },
        Err(e) => {
            let c = String::from_str("canceled");
            if e == c {
                OpDone { op_id, ok: false, canceled, error: None, output: None }
            } else {
                OpDone { op_id, ok: false, canceled, error: Some(e), output: None }
            }
        },
    }
}

/// The report of an integrity test from its outcome: how many items were
/// checked, or the first bad item and why.
pub fn test_integrity(outcome: Result<u64, (String, String)>) -> (r: IntegrityResult)
    ensures
        match outcome {
            Ok(n) => r.ok && r.tested == n && r.bad@.len() == 0 && r.error is None,
            Err((bad, error)) => !r.ok && r.tested == 0 && r.bad == bad && r.error == Some(error),
        },
{
    match outcome {
        Ok(tested) => IntegrityResult { ok: true, tested, bad: String::new(), error: None },
        Err((bad, error)) => IntegrityResult { ok: false, tested: 0, bad, error: Some(error) },
    }
}

// ---------- launch arguments ----------

/// The file given at launch: the first argument that is not a flag (does
/// not start with `-`) and is a file (`is_file[i]` tells, for `args[i]`).
pub open spec fn startup_spec(args: Seq<Seq<char>>, is_file: Seq<bool>, i: int) -> bool {
    &&& 0 <= i < args.len()
    &&& !(args[i].len() > 0 && args[i][0] == '-')
    &&& is_file[i]
}

pub fn startup_file_from(args: &Vec<String>, is_file: &Vec<bool>) -> (r: Option<String>)
    requires
        args@.len() == is_file@.len(),
    ensures
        match r {
            Some(a) => exists|i: int| #[trigger] startup_spec(crate::split::names_of(args@), is_file@, i)
                && a@ == args@[i]@ && forall|j: int| 0 <= j < i ==> !startup_spec(crate::split::names_of(args@), is_file@, j),
            None => forall|j: int| !#[trigger] startup_spec(crate::split::names_of(args@), is_file@, j),
        },
{
    let ghost names = crate::split::names_of(args@);
    let mut i: usize = 0;
    while i < args.len()
        invariant
            i <= args.len() == is_file@.len(),
            names == crate::split::names_of(args@),
            forall|j: int| 0 <= j < i ==> !startup_spec(names, is_file@, j),
        decreases args.len() - i,
    {
        let a = chars_of(args[i].as_str());
        let flag = a.len() > 0 && a[0] == '-';
        if !flag && is_file[i] {
            assert(startup_spec(names, is_file@, i as int));
            return Some(args[i].clone());
        }
        i = i + 1;
    }
    None
}

} // verus!
