//! Start-at-login and close-to-tray decisions. The user's intent lives in
//! the app's settings; the operating system's entry is only its effect, and
//! is re-imposed from the intent at each start.

use vstd::prelude::*;
use crate::text::{chars_of, eq_chars, lower_char, lower_char_exec};

verus! {

/// What the operating system has, from the point of view of "does it need
/// fixing?".
#[derive(Clone, Copy, PartialEq, Eq, Structural, Debug)]
pub enum OsAutostart {
    /// The entry is there and points at the current executable.
    Current,
    /// Missing, or pointing at another path (the app moved or was
    /// reinstalled).
    Broken,
    /// Turned off by the user in the system's own startup manager.
    UserDisabled,
}

/// What to do with the system entry after reconciling.
#[derive(Clone, Copy, PartialEq, Eq, Structural, Debug)]
pub enum Fix {
    Nothing,
    Enable,
    Disable,
}

/// What closing the window does.
#[derive(Clone, Copy, PartialEq, Eq, Structural, Debug)]
pub enum CloseAction {
    /// Really quit.
    Exit,
    /// Hide in the tray and keep running.
    ToTray,
}

/// Settings kept by the app itself (read at start, before any window).
#[derive(Clone, Debug, Default)]
pub struct Settings {
    /// `None`: the user never decided (older install); the system's state
    /// is inherited once.
    pub autostart: Option<bool>,
    pub close_to_tray: bool,
}

/// The startup manager's override (flag word, then the time it was turned
/// off): bit 0 of the flag set, or a non-zero time, means turned off.
pub open spec fn user_disabled(b: Seq<u8>) -> bool {
    ||| (b.len() > 0 && b[0] & 1u8 != 0)
    ||| (b.len() >= 12 && exists|i: int| 4 <= i < 12 && b[i] != 0)
}

/// Unicode white space (what `char::is_whitespace` accepts).
pub open spec fn is_ws(c: char) -> bool {
    let u = c as u32;
    (9 <= u && u <= 13) || u == 32 || u == 0x85 || u == 0xA0 || u == 0x1680 || (0x2000 <= u && u
        <= 0x200A) || u == 0x2028 || u == 0x2029 || u == 0x202F || u == 0x205F || u == 0x3000
}

pub open spec fn trim_start_ws(s: Seq<char>) -> Seq<char>
    decreases s.len(),
{
    if s.len() > 0 && is_ws(s[0]) {
        trim_start_ws(s.drop_first())
    } else {
        s
    }
}

pub open spec fn trim_end_ws(s: Seq<char>) -> Seq<char>
    decreases s.len(),
{
    if s.len() > 0 && is_ws(s.last()) {
        trim_end_ws(s.drop_last())
    } else {
        s
    }
}

/// `s` without white space at either end.
pub open spec fn trim_ws(s: Seq<char>) -> Seq<char> {
    trim_end_ws(trim_start_ws(s))
}

/// Equal when ASCII letter case is ignored.
pub open spec fn eq_ignore_ascii_case(a: Seq<char>, b: Seq<char>) -> bool {
    a.len() == b.len() && forall|i: int| 0 <= i < a.len() ==> lower_char(a[i]) == lower_char(b[i])
}

/// The system's state from the raw startup entries: `run` is the command
/// registered to run at login, `approved` the startup manager's override,
/// `expected` the command for the current executable.
pub open spec fn os_state_spec(run: Option<Seq<char>>, approved: Option<Seq<u8>>, expected: Seq<char>) -> OsAutostart {
    if approved matches Some(b) && user_disabled(b) {
        OsAutostart::UserDisabled
    } else if run matches Some(v) && eq_ignore_ascii_case(trim_ws(v), trim_ws(expected)) {
        OsAutostart::Current
    } else {
        OsAutostart::Broken
    }
}

fn is_ws_exec(c: char) -> (r: bool)
    ensures
        r == is_ws(c),
{
    let u = c as u32;
    (9 <= u && u <= 13) || u == 32 || u == 0x85 || u == 0xA0 || u == 0x1680 || (0x2000 <= u && u
        <= 0x200A) || u == 0x2028 || u == 0x2029 || u == 0x202F || u == 0x205F || u == 0x3000
}

pub proof fn lemma_trim_start_ws(s: Seq<char>, i: int)
    requires
        0 <= i <= s.len(),
        forall|j: int| 0 <= j < i ==> is_ws(s[j]),
    ensures
        trim_start_ws(s) == trim_start_ws(s.subrange(i, s.len() as int)),
    decreases i,
{
    if i > 0 {
        assert(s.drop_first().subrange(i - 1, s.drop_first().len() as int) =~= s.subrange(i, s.len() as int));
        assert forall|j: int| 0 <= j < i - 1 implies is_ws(s.drop_first()[j]) by {
            assert(s.drop_first()[j] == s[j + 1]);
        }
        lemma_trim_start_ws(s.drop_first(), i - 1);
    } else {
        assert(s.subrange(0, s.len() as int) =~= s);
    }
}

pub proof fn lemma_trim_end_ws(s: Seq<char>, i: int)
    requires
        0 <= i <= s.len(),
        forall|j: int| i <= j < s.len() ==> is_ws(s[j]),
    ensures
        trim_end_ws(s) == trim_end_ws(s.subrange(0, i)),
    decreases s.len() - i,
{
    if i < s.len() {
        assert(s.drop_last().subrange(0, i) =~= s.subrange(0, i));
        assert forall|j: int| i <= j < s.drop_last().len() implies is_ws(s.drop_last()[j]) by {
            assert(s.drop_last()[j] == s[j]);
        }
        lemma_trim_end_ws(s.drop_last(), i);
    } else {
        assert(s.subrange(0, s.len() as int) =~= s);
    }
}

/// `s` without white space at either end.
fn trim_ws_exec(s: &Vec<char>) -> (r: Vec<char>)
    ensures
        r@ == trim_ws(s@),
{
    let mut lo: usize = 0;
    while lo < s.len() && is_ws_exec(s[lo])
        invariant
            lo <= s.len(),
            forall|j: int| 0 <= j < lo ==> is_ws(s@[j]),
        decreases s.len() - lo,
    {
        lo = lo + 1;
    }
    proof { lemma_trim_start_ws(s@, lo as int); }
    let mut hi: usize = s.len();
    while hi > lo && is_ws_exec(s[hi - 1])
        invariant
            lo <= hi <= s.len(),
            forall|j: int| hi <= j < s@.len() ==> is_ws(s@[j]),
        decreases hi,
    {
        hi = hi - 1;
    }
    let ghost v = s@.subrange(lo as int, s@.len() as int);
    proof {
        assert(trim_start_ws(v) == v) by {
            if v.len() > 0 {
                assert(v[0] == s@[lo as int]);
            }
        }
        lemma_trim_end_ws(v, hi - lo);
        assert(v.subrange(0, hi - lo) =~= s@.subrange(lo as int, hi as int));
        assert(trim_end_ws(s@.subrange(lo as int, hi as int)) == s@.subrange(lo as int, hi as int)) by {
            if hi > lo {
                assert(s@.subrange(lo as int, hi as int).last() == s@[hi - 1]);
            }
        }
    }
    crate::text::slice_chars(s, lo, hi)
}

fn eq_ignore_ascii_case_exec(a: &Vec<char>, b: &Vec<char>) -> (r: bool)
    ensures
        r == eq_ignore_ascii_case(a@, b@),
{
    if a.len() != b.len() {
        return false;
    }
    let mut i: usize = 0;
    while i < a.len()
        invariant
            i <= a.len() == b.len(),
            forall|j: int| 0 <= j < i ==> lower_char(a@[j]) == lower_char(b@[j]),
        decreases a.len() - i,
    {
        if lower_char_exec(a[i]) != lower_char_exec(b[i]) {
            return false;
        }
        i = i + 1;
    }
    true
}

/// Reads the system's state from the raw startup entries.
pub fn os_state_from(run: Option<&str>, approved: Option<&[u8]>, expected: &str) -> (r: OsAutostart)
    ensures
        r == os_state_spec(
            match run {
                Some(v) => Some(v@),
                None => None,
            },
            match approved {
                Some(b) => Some(b@),
                None => None,
            },
            expected@,
        ),
{
    if let Some(b) = approved {
        let flag_off = b.len() > 0 && b[0] & 1u8 != 0;
        let mut stamped_off = false;
        if b.len() >= 12 {
            let mut i: usize = 4;
            while i < 12
                invariant
                    4 <= i <= 12,
                    b@.len() >= 12,
                    stamped_off == exists|j: int| 4 <= j < i && b@[j] != 0,
                decreases 12 - i,
            {
                if b[i] != 0 {
                    stamped_off = true;
                }
                i = i + 1;
            }
        }
        if flag_off || stamped_off {
            return OsAutostart::UserDisabled;
        }
    }
    match run {
        Some(v) => {
            let vc = chars_of(v);
            let ec = chars_of(expected);
            let tv = trim_ws_exec(&vc);
            let te = trim_ws_exec(&ec);
            if eq_ignore_ascii_case_exec(&tv, &te) {
                OsAutostart::Current
            } else {
                OsAutostart::Broken
            }
        },
        None => OsAutostart::Broken,
    }
}

/// The registered command counts as the current one exactly when, white
/// space at the ends aside, it is the expected command letter for letter up
/// to ASCII case: same length, same characters. A command that is only a
/// part of the expected one, or longer, is broken and gets rewritten; and
/// the comparison does not depend on which side is which.
pub proof fn law_current_only_for_the_same_command(v: Seq<char>, expected: Seq<char>)
    ensures
        os_state_spec(Some(v), None, expected) == OsAutostart::Current <==> (trim_ws(v).len() == trim_ws(
            expected,
        ).len() && forall|i: int|
            0 <= i < trim_ws(v).len() ==> #[trigger] lower_char(trim_ws(v)[i]) == lower_char(trim_ws(expected)[i])),
        trim_ws(v).len() != trim_ws(expected).len() ==> os_state_spec(Some(v), None, expected)
            == OsAutostart::Broken,
        os_state_spec(Some(v), None, expected) == os_state_spec(Some(expected), None, v),
{
    let a = trim_ws(v);
    let b = trim_ws(expected);
    if eq_ignore_ascii_case(a, b) {
        assert forall|i: int| 0 <= i < b.len() implies lower_char(b[i]) == lower_char(a[i]) by {
            assert(lower_char(a[i]) == lower_char(b[i]));
        }
        assert(eq_ignore_ascii_case(b, a));
    }
    if eq_ignore_ascii_case(b, a) {
        assert forall|i: int| 0 <= i < a.len() implies lower_char(a[i]) == lower_char(b[i]) by {
            assert(lower_char(b[i]) == lower_char(a[i]));
        }
        assert(eq_ignore_ascii_case(a, b));
    }
}

pub open spec fn reconcile_spec(intent: bool, state: OsAutostart) -> (bool, Fix) {
    if intent && state == OsAutostart::UserDisabled {
        (false, Fix::Nothing)
    } else if intent && state == OsAutostart::Broken {
        (true, Fix::Enable)
    } else if !intent && state == OsAutostart::Current {
        (false, Fix::Disable)
    } else {
        (intent, Fix::Nothing)
    }
}

/// Whether the system starts the current executable at login once `fix`
/// is applied to `state`.
pub open spec fn starts_at_login(state: OsAutostart, fix: Fix) -> bool {
    match fix {
        Fix::Enable => true,
        Fix::Disable => false,
        Fix::Nothing => state == OsAutostart::Current,
    }
}

/// Matches the kept intent with the system's state; gives the effective
/// intent and the fix to apply. A turn-off in the system's own startup
/// manager wins (and is not fought at every start); otherwise the intent is
/// never read from the system: a stale entry is rewritten, not obeyed.
pub fn reconcile_decision(intent: bool, state: OsAutostart) -> (r: (bool, Fix))
    ensures
        r == reconcile_spec(intent, state),
{
    if intent && state == OsAutostart::UserDisabled {
        return (false, Fix::Nothing);
    }
    match (intent, state) {
        (true, OsAutostart::Broken) => (true, Fix::Enable),
        (false, OsAutostart::Current) => (false, Fix::Disable),
        _ => (intent, Fix::Nothing),
    }
}

/// The user's intent survives a stale or missing system entry, and once the
/// fix is applied the system does what the intent says; a turn-off in the
/// system's startup manager is obeyed without touching the entry.
pub proof fn law_reconcile_follows_intent(intent: bool, state: OsAutostart)
    ensures
        state != OsAutostart::UserDisabled ==> reconcile_spec(intent, state).0 == intent,
        state != OsAutostart::UserDisabled ==> starts_at_login(state, reconcile_spec(intent, state).1)
            == reconcile_spec(intent, state).0,
        state == OsAutostart::UserDisabled ==> !reconcile_spec(intent, state).0 && reconcile_spec(
            intent,
            state,
        ).1 == Fix::Nothing,
{
}

/// The intent kept in the settings; with none recorded (an older install),
/// what the system has is inherited, once.
pub open spec fn intent_spec(s: Settings, os_enabled: bool) -> bool {
    match s.autostart {
        Some(b) => b,
        None => os_enabled,
    }
}

/// The intent to act on: the recorded one, or the system's state when none
/// was ever recorded.
pub fn effective_intent(s: &Settings, os_enabled: bool) -> (r: bool)
    ensures
        r == intent_spec(*s, os_enabled),
{
    match s.autostart {
        Some(b) => b,
        None => os_enabled,
    }
}

/// One reconciliation at start: the settings to keep (the effective intent
/// becomes the recorded one) and the fix to apply to the system's entry.
pub fn reconcile_settings(s: Settings, state: OsAutostart, os_enabled: bool) -> (r: (Settings, Fix))
    ensures
        r.0.autostart == Some(reconcile_spec(intent_spec(s, os_enabled), state).0),
        r.0.close_to_tray == s.close_to_tray,
        r.1 == reconcile_spec(intent_spec(s, os_enabled), state).1,
{
    let intent = effective_intent(&s, os_enabled);
    let (want, fix) = reconcile_decision(intent, state);
    (Settings { autostart: Some(want), close_to_tray: s.close_to_tray }, fix)
}

/// A start at login (`--hidden` among the arguments) opens straight in the
/// tray, but only with close-to-tray on: otherwise the hidden window could
/// only be closed, and the app would idle out of sight.
pub fn start_hidden(args: &Vec<String>, close_to_tray: bool) -> (r: bool)
    ensures
        r == (close_to_tray && exists|i: int| 0 <= i < args@.len() && #[trigger] args@[i]@ == "--hidden"@),
{
    if !close_to_tray {
        return false;
    }
    let flag = chars_of("--hidden");
    let mut i: usize = 0;
    while i < args.len()
        invariant
            i <= args.len(),
            close_to_tray,
            flag@ == "--hidden"@,
            forall|j: int| 0 <= j < i ==> (#[trigger] args@[j])@ != "--hidden"@,
        decreases args.len() - i,
    {
        let a = chars_of(args[i].as_str());
        if eq_chars(&a, &flag) {
            assert(args@[i as int]@ == "--hidden"@);
            return true;
        }
        i = i + 1;
    }
    false
}

/// Closing with an operation running never kills it: the window goes to
/// the tray. Otherwise the close-to-tray setting decides.
pub fn decide_close(close_to_tray: bool, ops_running: bool) -> (r: CloseAction)
    ensures
        r == (if close_to_tray || ops_running {
            CloseAction::ToTray
        } else {
            CloseAction::Exit
        }),
{
    if close_to_tray || ops_running {
        CloseAction::ToTray
    } else {
        CloseAction::Exit
    }
}

} // verus!
