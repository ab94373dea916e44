//! Mounting the open vault as a drive, by a process of its own.
//!
//! The vault is closed before the process starts, so that there is never more than one writer,
//! and opened again whenever the mount fails.

use crate::text::{chars_of, string_of, trim};
use vstd::prelude::*;

verus! {

/// How far a mount is.
#[derive(Clone, Copy, Debug, PartialEq, Eq, Structural)]
pub enum Stage {
    Idle,
    /// The mount point is being checked.
    Pointing,
    /// The program that mounts is being looked for.
    Locating,
    /// The program is being started.
    Starting,
    /// The program runs; it is not known yet whether the drive is there.
    Confirming,
    Mounted,
}

/// The drive of the application.
#[derive(Clone, Copy, Debug, PartialEq, Eq, Structural)]
pub struct Drive {
    pub stage: Stage,
    /// The application has the vault open.
    pub vault_open: bool,
}

/// What happened.
#[derive(Clone, Copy, Debug, PartialEq, Eq, Structural)]
pub enum Event {
    /// A mount is asked for.
    Request,
    /// The mount point was checked; `true` if it can be used.
    PointChecked(bool),
    /// The program was looked for.
    ProgramFound(bool),
    /// The program was started, or not.
    Started(bool),
    /// The program was looked at.
    Polled { exited: bool, ready: bool, late: bool },
    /// The vault was opened again, or not.
    Reopened(bool),
    /// An end of the mount is asked for.
    Release,
}

/// Why there is no drive.
#[derive(Clone, Copy, Debug, PartialEq, Eq, Structural)]
pub enum Reason {
    /// A mount is going on.
    Busy,
    AlreadyMounted,
    BadPoint,
    NoVault,
    NoProgram,
    NotStarted,
    /// The program ended by itself.
    Exited,
}

/// What is to be done.
#[derive(Clone, Copy, Debug, PartialEq, Eq, Structural)]
pub enum Action {
    CheckPoint,
    FindProgram,
    /// Close the vault, then start the program.
    Start,
    /// Wait a little and look at the program.
    Poll,
    /// The drive is there: keep the program.
    Keep,
    /// Tell that there is no drive; nothing was closed.
    Refuse(Reason),
    /// Open the vault again and tell that there is no drive.
    Reopen(Reason),
    /// End the program.
    End,
    Nothing,
}

/// What an event makes of the drive, and what is to be done.
pub open spec fn next(d: Drive, e: Event) -> (Drive, Action) {
    match (d.stage, e) {
        (Stage::Idle, Event::Request) => (
            Drive { stage: Stage::Pointing, ..d },
            Action::CheckPoint,
        ),
        (Stage::Mounted, Event::Request) => (d, Action::Refuse(Reason::AlreadyMounted)),
        (_, Event::Request) => (d, Action::Refuse(Reason::Busy)),
        (Stage::Pointing, Event::PointChecked(ok)) => if !ok {
            (Drive { stage: Stage::Idle, ..d }, Action::Refuse(Reason::BadPoint))
        } else if !d.vault_open {
            (Drive { stage: Stage::Idle, ..d }, Action::Refuse(Reason::NoVault))
        } else {
            (Drive { stage: Stage::Locating, ..d }, Action::FindProgram)
        },
        (Stage::Locating, Event::ProgramFound(ok)) => if ok {
            (Drive { stage: Stage::Starting, vault_open: false }, Action::Start)
        } else {
            (Drive { stage: Stage::Idle, ..d }, Action::Refuse(Reason::NoProgram))
        },
        (Stage::Starting, Event::Started(ok)) => if ok {
            (Drive { stage: Stage::Confirming, ..d }, Action::Poll)
        } else {
            (Drive { stage: Stage::Idle, ..d }, Action::Reopen(Reason::NotStarted))
        },
        (Stage::Confirming, Event::Polled { exited, ready, late }) => if exited {
            (Drive { stage: Stage::Idle, ..d }, Action::Reopen(Reason::Exited))
        } else if ready || late {
            (Drive { stage: Stage::Mounted, ..d }, Action::Keep)
        } else {
            (d, Action::Poll)
        },
        (Stage::Idle, Event::Reopened(ok)) => (
            Drive { vault_open: d.vault_open || ok, ..d },
            Action::Nothing,
        ),
        (Stage::Mounted, Event::Release) => (Drive { stage: Stage::Idle, ..d }, Action::End),
        _ => (d, Action::Nothing),
    }
}

impl Drive {
    /// No mount, with the vault open or not.
    pub fn new(vault_open: bool) -> (r: Drive)
        ensures
            r == (Drive { stage: Stage::Idle, vault_open }),
    {
        Drive { stage: Stage::Idle, vault_open }
    }

    /// The application does not write to the vault while the program has it.
    pub open spec fn one_writer(self) -> bool {
        self.stage is Starting || self.stage is Confirming || self.stage is Mounted
            ==> !self.vault_open
    }

    /// Goes on with an event and says what is to be done.
    pub fn advance(&mut self, e: Event) -> (r: Action)
        ensures
            (*final(self), r) == next(*old(self), e),
    {
        let idle = Drive { stage: Stage::Idle, vault_open: self.vault_open };
        match (self.stage, e) {
            (Stage::Idle, Event::Request) => {
                self.stage = Stage::Pointing;
                Action::CheckPoint
            },
            (Stage::Mounted, Event::Request) => Action::Refuse(Reason::AlreadyMounted),
            (_, Event::Request) => Action::Refuse(Reason::Busy),
            (Stage::Pointing, Event::PointChecked(ok)) => {
                if !ok {
                    *self = idle;
                    Action::Refuse(Reason::BadPoint)
                } else if !self.vault_open {
                    *self = idle;
                    Action::Refuse(Reason::NoVault)
                } else {
                    self.stage = Stage::Locating;
                    Action::FindProgram
                }
            },
            (Stage::Locating, Event::ProgramFound(ok)) => {
                if ok {
                    self.stage = Stage::Starting;
                    self.vault_open = false;
                    Action::Start
                } else {
                    *self = idle;
                    Action::Refuse(Reason::NoProgram)
                }
            },
            (Stage::Starting, Event::Started(ok)) => {
                if ok {
                    self.stage = Stage::Confirming;
                    Action::Poll
                } else {
                    *self = idle;
                    Action::Reopen(Reason::NotStarted)
                }
            },
            (Stage::Confirming, Event::Polled { exited, ready, late }) => {
                if exited {
                    *self = idle;
                    Action::Reopen(Reason::Exited)
                } else if ready || late {
                    self.stage = Stage::Mounted;
                    Action::Keep
                } else {
                    Action::Poll
                }
            },
            (Stage::Idle, Event::Reopened(ok)) => {
                self.vault_open = self.vault_open || ok;
                Action::Nothing
            },
            (Stage::Mounted, Event::Release) => {
                *self = idle;
                Action::End
            },
            _ => Action::Nothing,
        }
    }
}

/// No event makes the application and the program write to the vault at once.
pub proof fn never_two_writers(d: Drive, e: Event)
    requires
        d.one_writer(),
    ensures
        next(d, e).0.one_writer(),
{
}

/// A mount that fails leaves the vault open, or has it opened again.
pub proof fn failed_mount_keeps_vault(d: Drive, e: Event)
    requires
        d.one_writer(),
    ensures
        ({
            let (after, action) = next(d, e);
            &&& action is Refuse ==> after.vault_open == d.vault_open
            &&& action is Reopen ==> after.stage is Idle && next(
                after,
                Event::Reopened(true),
            ).0.vault_open
            &&& d.vault_open && !after.vault_open ==> action is Start
        }),
{
}

/// A program that runs is not given up because of the time: only its end is a failure.
pub proof fn live_mount_is_kept(d: Drive, ready: bool, late: bool)
    requires
        d.stage is Confirming,
    ensures
        next(d, (Event::Polled { exited: false, ready, late })).0.stage is Confirming || next(
            d,
            (Event::Polled { exited: false, ready, late }),
        ).1 is Keep,
        late ==> next(d, (Event::Polled { exited: false, ready, late })).0.stage is Mounted,
{
}

/// What is known of a program that is to end.
#[derive(Clone, Copy, Debug, PartialEq, Eq, Structural)]
pub enum Waited {
    Ended,
    Running,
    /// It could not be asked.
    Unknown,
}

/// What is done with a program that is to end.
#[derive(Clone, Copy, Debug, PartialEq, Eq, Structural)]
pub enum EndStep {
    Done,
    Wait,
    Kill,
}

/// A program that is to end is waited for, and killed when it takes too long.
pub fn end_step(w: Waited, late: bool) -> (r: EndStep)
    ensures
        r == (match w {
            Waited::Ended => EndStep::Done,
            Waited::Running => if late {
                EndStep::Kill
            } else {
                EndStep::Wait
            },
            Waited::Unknown => EndStep::Kill,
        }),
{
    match w {
        Waited::Ended => EndStep::Done,
        Waited::Running => if late {
            EndStep::Kill
        } else {
            EndStep::Wait
        },
        Waited::Unknown => EndStep::Kill,
    }
}

/// A place where the program that mounts may be.
#[derive(Clone, Copy, Debug, PartialEq, Eq, Structural)]
pub enum Place {
    /// Where the environment says.
    Environment,
    /// Beside the application.
    Beside,
    /// In the resources beside the application.
    Resources,
    /// In a build directory, so many directories above the application.
    Build { up: usize, release: bool },
}

/// How many directories are gone up.
pub const LEVELS: usize = 8;

/// The place that is looked at in turn `i`: the environment, beside the application, and then
/// upwards, each time the debug build first.
pub open spec fn place(i: int) -> Option<Place> {
    if i == 0 {
        Some(Place::Environment)
    } else if i == 1 {
        Some(Place::Beside)
    } else if i == 2 {
        Some(Place::Resources)
    } else if 3 <= i < 3 + 2 * LEVELS {
        Some(Place::Build { up: ((i - 3) / 2) as usize, release: (i - 3) % 2 == 1 })
    } else {
        None
    }
}

/// The place that is looked at in turn `i`.
pub fn place_to_look(i: usize) -> (r: Option<Place>)
    ensures
        r == place(i as int),
{
    if i == 0 {
        Some(Place::Environment)
    } else if i == 1 {
        Some(Place::Beside)
    } else if i == 2 {
        Some(Place::Resources)
    } else if i < 3 + 2 * LEVELS {
        Some(Place::Build { up: (i - 3) / 2, release: (i - 3) % 2 == 1 })
    } else {
        None
    }
}

/// Why a mount point cannot be a drive of Windows.
#[derive(Clone, Copy, Debug, PartialEq, Eq, Structural)]
pub enum PointError {
    Missing,
    Invalid,
}

/// `s` without the slashes of either kind it ends with.
pub open spec fn without_slashes(s: Seq<char>) -> Seq<char>
    decreases s.len(),
{
    if s.len() > 0 && (s.last() == '\\' || s.last() == '/') {
        without_slashes(s.drop_last())
    } else {
        s
    }
}

/// The letter in upper case, if it is one of the alphabet.
pub open spec fn upper_letter(c: char) -> Option<char> {
    if 'A' <= c <= 'Z' {
        Some(c)
    } else if 'a' <= c <= 'z' {
        Some((c as u32 - 32) as char)
    } else {
        None
    }
}

/// The drive letter that a mount point names: a letter, with or without a colon.
pub open spec fn letter_of(mp: Seq<char>) -> Result<char, PointError> {
    let t = without_slashes(crate::text::trimmed(mp));
    if t.len() == 0 {
        Err(PointError::Missing)
    } else if upper_letter(t[0]) is Some && (t.len() == 1 || (t.len() == 2 && t[1] == ':')) {
        Ok(upper_letter(t[0])->0)
    } else {
        Err(PointError::Invalid)
    }
}

fn to_upper_letter(c: char) -> (r: Option<char>)
    ensures
        r == upper_letter(c),
{
    if 'A' <= c && c <= 'Z' {
        return Some(c);
    }
    if 'a' <= c && c <= 'z' {
        let u: u8 = c as u8 - 32;
        return Some(u as char);
    }
    None
}

/// The drive letter that a mount point names.
pub fn drive_letter(mp: &str) -> (r: Result<char, PointError>)
    ensures
        r == letter_of(mp@),
{
    let t = trim(mp);
    let cs = chars_of(t.as_str());
    let mut n: usize = cs.len();
    assert(cs@.take(n as int) =~= cs@);
    while n > 0 && (cs[n - 1] == '\\' || cs[n - 1] == '/')
        invariant
            n <= cs@.len(),
            without_slashes(cs@.take(n as int)) == without_slashes(cs@),
        decreases n,
    {
        assert(cs@.take(n as int).drop_last() =~= cs@.take(n - 1));
        n = n - 1;
    }
    if n == 0 {
        return Err(PointError::Missing);
    }
    match to_upper_letter(cs[0]) {
        Some(u) => if n == 1 || (n == 2 && cs[1] == ':') {
            Ok(u)
        } else {
            Err(PointError::Invalid)
        },
        None => Err(PointError::Invalid),
    }
}

/// Where `c` stands in `s` first from `i` on, or the end of `s`.
pub open spec fn next_of(s: Seq<char>, i: int, c: char) -> int
    decreases s.len() - i,
{
    if i < 0 || i >= s.len() {
        s.len() as int
    } else if s[i] == c {
        i
    } else {
        next_of(s, i + 1, c)
    }
}

/// The second of the parts of `line` between spaces.
pub open spec fn second_part(line: Seq<char>) -> Option<Seq<char>> {
    let a = next_of(line, 0, ' ');
    if a < line.len() {
        Some(line.subrange(a + 1, next_of(line, a + 1, ' ')))
    } else {
        None
    }
}

/// The line of `s` that starts at `i`, without the end of the line.
pub open spec fn line_at(s: Seq<char>, i: int) -> Seq<char> {
    let e = next_of(s, i, '\n');
    s.subrange(
        i,
        if e < s.len() && e > i && s[e - 1] == '\r' {
            e - 1
        } else {
            e
        },
    )
}

/// One of the lines from `i` on has `point` as its second part.
pub open spec fn has_point(s: Seq<char>, i: int, point: Seq<char>) -> bool
    decreases s.len() - i,
{
    if i < 0 || i >= s.len() {
        false
    } else if second_part(line_at(s, i)) == Some(point) {
        true
    } else if i <= next_of(s, i, '\n') < s.len() {
        has_point(s, next_of(s, i, '\n') + 1, point)
    } else {
        false
    }
}

fn find_next(s: &Vec<char>, i: usize, c: char) -> (r: usize)
    requires
        i <= s@.len(),
    ensures
        i <= r <= s@.len(),
        r == next_of(s@, i as int, c),
{
    let mut k: usize = i;
    while k < s.len() && s[k] != c
        invariant
            i <= k <= s@.len(),
            next_of(s@, k as int, c) == next_of(s@, i as int, c),
        decreases s@.len() - k,
    {
        k = k + 1;
    }
    k
}

fn is_second_part(line: &Vec<char>, point: &str) -> (r: bool)
    ensures
        r == (second_part(line@) == Some(point@)),
{
    let a: usize = find_next(line, 0, ' ');
    if a == line.len() {
        return false;
    }
    let b: usize = find_next(line, a + 1, ' ');
    let part = string_of(line, a + 1, b);
    part == point.to_owned()
}

/// Whether the table of mounts in `table` has a mount at `point`.
pub fn is_mount_point(table: &str, point: &str) -> (r: bool)
    ensures
        r == has_point(table@, 0, point@),
{
    let cs = chars_of(table);
    let mut i: usize = 0;
    while i < cs.len()
        invariant
            cs@ == table@,
            i <= cs@.len(),
            has_point(cs@, i as int, point@) == has_point(cs@, 0, point@),
        decreases cs@.len() - i,
    {
        let e: usize = find_next(&cs, i, '\n');
        let stop: usize = if e < cs.len() && e > i && cs[e - 1] == '\r' {
            e - 1
        } else {
            e
        };
        let text = string_of(&cs, i, stop);
        let line = chars_of(text.as_str());
        assert(line@ =~= line_at(cs@, i as int));
        if is_second_part(&line, point) {
            return true;
        }
        if e == cs.len() {
            return false;
        }
        i = e + 1;
    }
    false
}

/// What the program that mounts is told: where the vault and the mount point are and, if there
/// is one, that the password comes by its standard input. The password itself is never among
/// these.
pub fn mount_args(vault: &str, point: &str, has_password: bool) -> (r: Vec<String>)
    ensures
        crate::vault::moves::names(r@) == (if has_password {
            seq![vault@, point@, "--password-stdin"@]
        } else {
            seq![vault@, point@]
        }),
{
    let mut args: Vec<String> = Vec::new();
    args.push(vault.to_owned());
    args.push(point.to_owned());
    if has_password {
        args.push("--password-stdin".to_owned());
        assert(crate::vault::moves::names(args@) =~= seq![vault@, point@, "--password-stdin"@]);
    } else {
        assert(crate::vault::moves::names(args@) =~= seq![vault@, point@]);
    }
    args
}

/// The line that hands the password to the program that mounts.
pub fn password_line(password: &str) -> (r: Vec<u8>)
    ensures
        r@ == vstd::utf8::encode_utf8(password@).push(10),
{
    let mut line: Vec<u8> = Vec::new();
    line.extend_from_slice(password.as_bytes());
    line.push(10);
    assert(line@ =~= vstd::utf8::encode_utf8(password@).push(10));
    line
}

/// A mount that is asked for begins only where none is going on; otherwise the request is refused
/// and changes nothing.
pub proof fn one_mount_at_a_time(d: Drive)
    ensures
        ({
            let (after, action) = next(d, Event::Request);
            &&& after.vault_open == d.vault_open
            &&& d.stage == Stage::Idle ==> after.stage == Stage::Pointing && action
                == Action::CheckPoint
            &&& d.stage != Stage::Idle ==> after == d
            &&& d.stage == Stage::Mounted ==> action == Action::Refuse(Reason::AlreadyMounted)
            &&& d.stage != Stage::Idle && d.stage != Stage::Mounted ==> action == Action::Refuse(
                Reason::Busy,
            )
        }),
{
}

/// A mount goes through exactly if the point can be used, the vault is open, and the program is
/// found and starts; the first of these that fails is the reason that is told, and the drive is
/// idle again. Until the program is started the vault stays open, and from there on it is closed.
pub proof fn mount_needs_every_step(open: bool, point: bool, program: bool, started: bool)
    ensures
        ({
            let idle = Drive { stage: Stage::Idle, vault_open: open };
            let a = next(idle, Event::Request).0;
            let b = next(a, Event::PointChecked(point));
            let c = next(b.0, Event::ProgramFound(program));
            let d = next(c.0, Event::Started(started));
            &&& !point ==> b == (idle, Action::Refuse(Reason::BadPoint))
            &&& point && !open ==> b == (idle, Action::Refuse(Reason::NoVault))
            &&& point && open ==> b.1 == Action::FindProgram && b.0.vault_open
            &&& point && open && !program ==> c == (idle, Action::Refuse(Reason::NoProgram))
            &&& point && open && program ==> c.1 == Action::Start && !c.0.vault_open
            &&& point && open && program && !started ==> d == (
                Drive { stage: Stage::Idle, vault_open: false },
                Action::Reopen(Reason::NotStarted),
            )
            &&& point && open && program && started ==> d == (
                Drive { stage: Stage::Confirming, vault_open: false },
                Action::Poll,
            )
        }),
{
}

/// A program that runs is waited for until the drive is there or the time is up, and then kept;
/// one that ends by itself is told, and the vault is opened again.
pub proof fn program_is_waited_for(open: bool, exited: bool, ready: bool, late: bool)
    ensures
        ({
            let d = Drive { stage: Stage::Confirming, vault_open: open };
            let (after, action) = next(d, (Event::Polled { exited, ready, late }));
            &&& after.vault_open == open
            &&& exited ==> after.stage == Stage::Idle && action == Action::Reopen(Reason::Exited)
            &&& !exited && (ready || late) ==> after.stage == Stage::Mounted && action
                == Action::Keep
            &&& !exited && !ready && !late ==> after == d && action == Action::Poll
        }),
{
}

/// A drive that is released ends its program and is idle; the vault is open again once it was
/// opened, and stays open if that fails while it is.
pub proof fn released_drive_is_idle(open: bool, reopened: bool)
    ensures
        ({
            let d = Drive { stage: Stage::Mounted, vault_open: open };
            let (after, action) = next(d, Event::Release);
            &&& after == (Drive { stage: Stage::Idle, vault_open: open })
            &&& action == Action::End
            &&& next(after, Event::Reopened(reopened)) == (
                Drive { stage: Stage::Idle, vault_open: open || reopened },
                Action::Nothing,
            )
        }),
{
}

/// What happens at a stage that does not wait for it changes nothing.
pub proof fn stray_event_changes_nothing(d: Drive, ok: bool, exited: bool, ready: bool, late: bool)
    ensures
        d.stage != Stage::Pointing ==> next(d, Event::PointChecked(ok)) == (d, Action::Nothing),
        d.stage != Stage::Locating ==> next(d, Event::ProgramFound(ok)) == (d, Action::Nothing),
        d.stage != Stage::Starting ==> next(d, Event::Started(ok)) == (d, Action::Nothing),
        d.stage != Stage::Confirming ==> next(d, (Event::Polled { exited, ready, late })) == (
            d,
            Action::Nothing,
        ),
        d.stage != Stage::Idle ==> next(d, Event::Reopened(ok)) == (d, Action::Nothing),
        d.stage != Stage::Mounted ==> next(d, Event::Release) == (d, Action::Nothing),
{
}

/// The program is looked for where the environment says, beside this one, among the resources,
/// and then in eight directories upwards, in each in the build for work before that for release.
pub proof fn places_are_looked_at_in_order(up: usize, release: bool, i: int)
    ensures
        place(0) == Some(Place::Environment),
        place(1) == Some(Place::Beside),
        place(2) == Some(Place::Resources),
        up < 8 ==> place(3 + 2 * up + if release {
            1int
        } else {
            0
        }) == Some(Place::Build { up, release }),
        i < 0 || i >= 19 ==> place(i) is None,
{
}

proof fn lemma_slashes_cut(core: Seq<char>, tail: Seq<char>)
    requires
        core.len() > 0 ==> core.last() != '\\' && core.last() != '/',
        forall|i: int| 0 <= i < tail.len() ==> tail[i] == '\\' || tail[i] == '/',
    ensures
        without_slashes(core + tail) == core,
    decreases tail.len(),
{
    let s = core + tail;
    if tail.len() > 0 {
        assert(s.last() == tail.last());
        assert(tail[tail.len() - 1] == tail.last());
        assert(s.drop_last() =~= core + tail.drop_last());
        lemma_slashes_cut(core, tail.drop_last());
    } else {
        assert(s =~= core);
    }
}

/// A mount point of Windows is a letter, with a colon or without, whatever slashes follow it and
/// whatever white space stands around it; the drive is the letter in upper case. Slashes alone
/// are no mount point, and nothing else is a valid one.
pub proof fn mount_point_is_a_letter(
    front: Seq<char>,
    core: Seq<char>,
    tail: Seq<char>,
    back: Seq<char>,
)
    requires
        forall|i: int| 0 <= i < front.len() ==> crate::text::is_space(front[i]),
        forall|i: int| 0 <= i < back.len() ==> crate::text::is_space(back[i]),
        forall|i: int| 0 <= i < tail.len() ==> tail[i] == '\\' || tail[i] == '/',
        core.len() > 0 ==> core.last() != '\\' && core.last() != '/' && !crate::text::is_space(
            core[0],
        ),
        core.len() > 0 && tail.len() == 0 ==> !crate::text::is_space(core.last()),
    ensures
        ({
            let r = letter_of(front + (core + tail) + back);
            let form = core.len() == 1 || (core.len() == 2 && core[1] == ':');
            &&& core.len() == 0 ==> r == Err::<char, PointError>(PointError::Missing)
            &&& form && 'A' <= core[0] <= 'Z' ==> r == Ok::<char, PointError>(core[0])
            &&& form && 'a' <= core[0] <= 'z' ==> r == Ok::<char, PointError>(
                (core[0] as u32 - 32) as char,
            )
            &&& core.len() > 0 && !(form && ('A' <= core[0] <= 'Z' || 'a' <= core[0] <= 'z')) ==> r
                == Err::<char, PointError>(PointError::Invalid)
        }),
{
    let t = core + tail;
    if t.len() > 0 {
        if core.len() > 0 {
            assert(t[0] == core[0]);
        } else {
            assert(t[0] == tail[0]);
        }
        if tail.len() > 0 {
            assert(t.last() == tail[tail.len() - 1]);
        } else {
            assert(t =~= core);
        }
    }
    crate::text::trim_cuts_the_margins(front, t, back);
    lemma_slashes_cut(core, tail);
}

proof fn lemma_next_behind(front: Seq<char>, rest: Seq<char>, i: int, c: char)
    requires
        0 <= i <= rest.len(),
    ensures
        next_of(front + rest, front.len() + i, c) == front.len() + next_of(rest, i, c),
        i <= next_of(rest, i, c) <= rest.len(),
    decreases rest.len() - i,
{
    let s = front + rest;
    if i < rest.len() {
        assert(s[front.len() + i] == rest[i]);
        if rest[i] != c {
            lemma_next_behind(front, rest, i + 1, c);
        }
    }
}

proof fn lemma_next_is(s: Seq<char>, i: int, c: char, at: int)
    requires
        0 <= i <= at <= s.len(),
        forall|j: int| i <= j < at ==> s[j] != c,
        at < s.len() ==> s[at] == c,
    ensures
        next_of(s, i, c) == at,
    decreases at - i,
{
    if i < at {
        lemma_next_is(s, i + 1, c, at);
    }
}

proof fn lemma_point_behind(front: Seq<char>, rest: Seq<char>, i: int, point: Seq<char>)
    requires
        0 <= i <= rest.len(),
    ensures
        has_point(front + rest, front.len() + i, point) == has_point(rest, i, point),
    decreases rest.len() - i,
{
    let s = front + rest;
    let j = front.len() + i;
    lemma_next_behind(front, rest, i, '\n');
    let e = next_of(rest, i, '\n');
    if i < rest.len() {
        if e < rest.len() && e > i {
            assert(s[front.len() + e - 1] == rest[e - 1]);
        }
        assert(line_at(s, j) =~= line_at(rest, i));
        if e < rest.len() {
            lemma_point_behind(front, rest, e + 1, point);
        }
    }
}

/// The second part of a line is what stands between its first space and its second one, or its
/// end; a line without a space has none.
pub proof fn second_part_stands_behind_the_first_space(
    a: Seq<char>,
    b: Seq<char>,
    rest: Seq<char>,
)
    requires
        !a.contains(' '),
        !b.contains(' '),
        rest.len() > 0 ==> rest[0] == ' ',
    ensures
        second_part(a) is None,
        second_part(a + seq![' '] + b + rest) == Some(b),
{
    assert forall|j: int| 0 <= j < a.len() implies a[j] != ' ' by {
        assert(a.contains(a[j]));
    }
    lemma_next_is(a, 0, ' ', a.len() as int);
    let s = a + seq![' '] + b + rest;
    assert forall|j: int| 0 <= j < a.len() implies s[j] != ' ' by {
        assert(s[j] == a[j]);
    }
    assert(s[a.len() as int] == ' ');
    lemma_next_is(s, 0, ' ', a.len() as int);
    let from = a.len() + 1;
    let to = a.len() + 1 + b.len();
    assert forall|j: int| from <= j < to implies s[j] != ' ' by {
        assert(s[j] == b[j - from]);
        assert(b.contains(b[j - from]));
    }
    if rest.len() > 0 {
        assert(s[to as int] == rest[0]);
    }
    lemma_next_is(s, from as int, ' ', to as int);
    assert(s.subrange(from as int, to as int) =~= b);
}

/// A point is mounted exactly if it is the second part of some line of the table: of the first
/// one, without the carriage return at its end, or of one behind it. A table without lines has
/// no point.
pub proof fn point_is_looked_for_in_every_line(
    line: Seq<char>,
    rest: Seq<char>,
    point: Seq<char>,
)
    requires
        !line.contains('\n'),
    ensures
        !has_point(Seq::empty(), 0, point),
        has_point(line, 0, point) <==> line.len() > 0 && second_part(line) == Some(point),
        has_point(line + seq!['\n'] + rest, 0, point) <==> second_part(
            if line.len() > 0 && line.last() == '\r' {
                line.drop_last()
            } else {
                line
            },
        ) == Some(point) || has_point(rest, 0, point),
{
    let n = line.len() as int;
    assert forall|j: int| 0 <= j < n implies line[j] != '\n' by {
        assert(line.contains(line[j]));
    }
    lemma_next_is(line, 0, '\n', n);
    assert(line.subrange(0, n) =~= line);
    let front = line + seq!['\n'];
    let s = front + rest;
    assert(s =~= line + seq!['\n'] + rest);
    assert forall|j: int| 0 <= j < n implies s[j] != '\n' by {
        assert(s[j] == line[j]);
    }
    assert(s[n] == '\n');
    lemma_next_is(s, 0, '\n', n);
    lemma_point_behind(front, rest, 0, point);
    if n > 0 {
        assert(s[n - 1] == line.last());
        assert(s.subrange(0, n - 1) =~= line.drop_last());
    }
    assert(s.subrange(0, n) =~= line);
    assert(front.len() == n + 1);
}

/// A program that was found is started with the vault closed, and one that did not start opens it
/// again, whatever the vault was before.
pub proof fn vault_is_closed_for_the_program(open: bool, ok: bool)
    ensures
        ({
            let d = Drive { stage: Stage::Locating, vault_open: open };
            let r = next(d, Event::ProgramFound(ok));
            &&& ok ==> r == (Drive { stage: Stage::Starting, vault_open: false }, Action::Start)
            &&& !ok ==> r == (
                Drive { stage: Stage::Idle, vault_open: open },
                Action::Refuse(Reason::NoProgram),
            )
        }),
        ({
            let d = Drive { stage: Stage::Starting, vault_open: open };
            let r = next(d, Event::Started(ok));
            &&& ok ==> r == (Drive { stage: Stage::Confirming, vault_open: open }, Action::Poll)
            &&& !ok ==> r == (
                Drive { stage: Stage::Idle, vault_open: open },
                Action::Reopen(Reason::NotStarted),
            )
        }),
{
}

} // verus!
