//! Sessions: the clock stamp, the names of day directories and log files,
//! the choice of a free log name, and the plan that starts a session.

use chrono::{Datelike, Timelike};
use vstd::prelude::*;
use crate::chain::{lemma_register_newest, register_actions, register_plan, slot_link};
use crate::fsmodel::{Action, Fs, Node, Op, node_at, ops_of, run, step, lemma_run_concat};
use crate::paths::{
    PathError, file_part, join, joined, names_nothing, raw_to_san, san_of, split_path,
};
use crate::pattern::{TextPattern, bytes_compiles, first_group, text_compiles};
use crate::sanitize::{CONTROL_PATTERN, LINE_END_PATTERN, ORPHAN_CR_PATTERN};
use crate::sanitize::Sanitizer;
use crate::text::{
    chars_of, decimal, decimal_chars, lemma_decimal_injective, padded, padded_chars, string_of,
};

verus! {

/// A local date and time of day, as the clock gave it.
#[derive(Debug, Clone, Copy, PartialEq, Eq)]
pub struct Stamp {
    pub year: i32,
    pub month: u32,
    pub day: u32,
    pub hour: u32,
    pub minute: u32,
    pub second: u32,
}

#[verifier::external_type_specification]
#[verifier::external_body]
pub struct ExSystemTime(std::time::SystemTime);

/// Relies on `SystemTime::now`: the system clock's reading.
#[verifier::external_body]
fn clock_now() -> (r: std::time::SystemTime) {
    std::time::SystemTime::now()
}

/// Relies on `SystemTime::duration_since(UNIX_EPOCH)`: the whole seconds
/// since the epoch, or `None` when `t` is before it.
#[verifier::external_body]
fn epoch_seconds(t: &std::time::SystemTime) -> (r: Option<u64>) {
    match t.duration_since(std::time::UNIX_EPOCH) {
        Ok(d) => Some(d.as_secs()),
        Err(_) => None,
    }
}

/// Relies on `chrono::DateTime::from_timestamp` (`None` out of its range) and
/// `with_timezone(&Local)`, read through `Datelike` and `Timelike`: the month
/// runs from 1 to 12, the day from 1 to 31, the hour from 0 to 23, the minute
/// and the second from 0 to 59.
#[verifier::external_body]
fn local_stamp(secs: i64) -> (r: Option<Stamp>)
    ensures
        r matches Some(s) ==> s.wf(),
{
    match chrono::DateTime::from_timestamp(secs, 0) {
        Some(utc) => {
            let t = utc.with_timezone(&chrono::Local);
            Some(Stamp {
                year: t.year(),
                month: t.month(),
                day: t.day(),
                hour: t.hour(),
                minute: t.minute(),
                second: t.second(),
            })
        },
        None => None,
    }
}

/// The year as a date prints it: four digits at least, with a sign outside
/// 0 to 9999.
pub open spec fn year_text(y: int) -> Seq<char> {
    if 0 <= y <= 9999 {
        padded(y as nat, 4)
    } else if y < 0 {
        seq!['-'] + padded((-y) as nat, 4)
    } else {
        seq!['+'] + padded(y as nat, 4)
    }
}

/// `YYYY-MM-DD`.
pub open spec fn day_text(s: Stamp) -> Seq<char> {
    year_text(s.year as int) + seq!['-'] + padded(s.month as nat, 2) + seq!['-'] + padded(
        s.day as nat,
        2,
    )
}

/// `HH:MM:SS`.
pub open spec fn time_text(s: Stamp) -> Seq<char> {
    padded(s.hour as nat, 2) + seq![':'] + padded(s.minute as nat, 2) + seq![':'] + padded(
        s.second as nat,
        2,
    )
}

impl Stamp {
    pub open spec fn wf(&self) -> bool {
        &&& 1 <= self.month <= 12
        &&& 1 <= self.day <= 31
        &&& self.hour < 24
        &&& self.minute < 60
        &&& self.second < 60
    }

    /// The local date and time now; `None` when the clock reads before the
    /// epoch or beyond what a date can hold.
    pub fn now() -> (r: Option<Stamp>)
        ensures
            r matches Some(s) ==> s.wf(),
    {
        let t = clock_now();
        match epoch_seconds(&t) {
            Some(secs) => if secs <= i64::MAX as u64 {
                local_stamp(secs as i64)
            } else {
                None
            },
            None => None,
        }
    }

    /// The date, as `YYYY-MM-DD`.
    pub fn day_text(&self) -> (r: String)
        ensures
            r@ == day_text(*self),
    {
        let mut v: Vec<char> = Vec::new();
        if self.year < 0 {
            v.push('-');
            let m: i64 = -(self.year as i64);
            let mut d = padded_chars(m as u64, 4);
            v.append(&mut d);
        } else {
            if self.year > 9999 {
                v.push('+');
            }
            let mut d = padded_chars(self.year as u64, 4);
            v.append(&mut d);
        }
        assert(v@ == year_text(self.year as int));
        v.push('-');
        let mut mo = padded_chars(self.month as u64, 2);
        v.append(&mut mo);
        v.push('-');
        let mut dd = padded_chars(self.day as u64, 2);
        v.append(&mut dd);
        string_of(&v)
    }

    /// The time of day, as `HH:MM:SS`.
    pub fn time_text(&self) -> (r: String)
        ensures
            r@ == time_text(*self),
    {
        let mut v = padded_chars(self.hour as u64, 2);
        v.push(':');
        let mut mi = padded_chars(self.minute as u64, 2);
        v.append(&mut mi);
        v.push(':');
        let mut se = padded_chars(self.second as u64, 2);
        v.append(&mut se);
        string_of(&v)
    }
}

/// The name of the `n`-th log of a second: `HH:MM:SS-n.log`.
pub open spec fn log_name(time: Seq<char>, n: nat) -> Seq<char> {
    time + seq!['-'] + decimal(n) + seq!['.', 'l', 'o', 'g']
}

pub proof fn lemma_log_name_injective(time: Seq<char>, a: nat, b: nat)
    requires
        log_name(time, a) == log_name(time, b),
    ensures
        a == b,
{
    let la = log_name(time, a);
    let lb = log_name(time, b);
    let s: int = time.len() as int + 1;
    assert(decimal(a).len() == decimal(b).len()) by {
        assert(la.len() == lb.len());
    }
    assert(la.subrange(s, s + decimal(a).len() as int) =~= decimal(a));
    assert(lb.subrange(s, s + decimal(b).len() as int) =~= decimal(b));
    lemma_decimal_injective(a, b);
}

/// The strings of a list, as sequences of characters.
pub open spec fn names_of(v: Seq<String>) -> Seq<Seq<char>> {
    v.map_values(|s: String| s@)
}

/// The names `log_name(time, m)` for every `m < c`.
pub open spec fn log_names_below(time: Seq<char>, c: nat) -> Set<Seq<char>>
    decreases c,
{
    if c == 0 {
        Set::empty()
    } else {
        log_names_below(time, (c - 1) as nat).insert(log_name(time, (c - 1) as nat))
    }
}

proof fn lemma_log_names_below(time: Seq<char>, c: nat)
    ensures
        log_names_below(time, c).finite(),
        log_names_below(time, c).len() == c,
        forall|x: Seq<char>|
            #[trigger] log_names_below(time, c).contains(x) <==> exists|m: nat|
                m < c && x == log_name(time, m),
    decreases c,
{
    if c > 0 {
        let prev = (c - 1) as nat;
        lemma_log_names_below(time, prev);
        if log_names_below(time, prev).contains(log_name(time, prev)) {
            let m = choose|m: nat| m < prev && log_name(time, prev) == log_name(time, m);
            lemma_log_name_injective(time, prev, m);
        }
        assert forall|x: Seq<char>|
            #[trigger] log_names_below(time, c).contains(x) implies exists|m: nat|
                m < c && x == log_name(time, m) by {
            if x != log_name(time, prev) {
                let m = choose|m: nat| m < prev && x == log_name(time, m);
                assert(m < c && x == log_name(time, m));
            }
        }
    }
}

/// Where every name below `c` is taken, there are at least `c` names.
proof fn lemma_taken_bound(time: Seq<char>, names: Seq<Seq<char>>, c: nat)
    requires
        forall|m: nat| m < c ==> names.contains(#[trigger] log_name(time, m)),
    ensures
        c <= names.len(),
{
    lemma_log_names_below(time, c);
    assert(log_names_below(time, c).subset_of(names.to_set()));
    names.lemma_cardinality_of_set();
    vstd::set_lib::lemma_len_subset(log_names_below(time, c), names.to_set());
}

fn holds_name(existing: &Vec<String>, cand: &String) -> (r: bool)
    ensures
        r == names_of(existing@).contains(cand@),
{
    let mut i: usize = 0;
    while i < existing.len()
        invariant
            i <= existing@.len(),
            forall|j: int| 0 <= j < i ==> existing@[j]@ != cand@,
        decreases existing.len() - i,
    {
        if existing[i] == *cand {
            assert(names_of(existing@)[i as int] == cand@);
            return true;
        }
        i = i + 1;
    }
    assert forall|j: int| 0 <= j < names_of(existing@).len() implies names_of(existing@)[j] != cand@ by {
        assert(names_of(existing@)[j] == existing@[j]@);
    }
    false
}

/// The least `n` whose log name is not among `existing`, the names already
/// in the day's directory: sessions started in one second take 0, 1, 2, ...
/// in turn, and none takes a name that is already there.
pub fn first_free(time: &str, existing: &Vec<String>) -> (r: u64)
    ensures
        !names_of(existing@).contains(log_name(time@, r as nat)),
        forall|m: nat| m < r ==> names_of(existing@).contains(#[trigger] log_name(time@, m)),
{
    let mut n: usize = 0;
    let len = existing.len();
    loop
        invariant
            len == existing@.len(),
            n <= len,
            forall|m: nat| m < n ==> names_of(existing@).contains(#[trigger] log_name(time@, m)),
        decreases existing@.len() - n,
    {
        let cand = log_file_name(time, n as u64);
        if !holds_name(existing, &cand) {
            return n as u64;
        }
        proof {
            assert forall|m: nat| m < n + 1 implies names_of(existing@).contains(
                #[trigger] log_name(time@, m),
            ) by {
                if m == n {
                    assert(cand@ == log_name(time@, m));
                }
            }
            lemma_taken_bound(time@, names_of(existing@), (n + 1) as nat);
            assert(names_of(existing@).len() == len);
        }
        n = n + 1;
    }
}

/// `HH:MM:SS-n.log`.
pub fn log_file_name(time: &str, n: u64) -> (r: String)
    ensures
        r@ == log_name(time@, n as nat),
{
    let mut v = chars_of(time);
    v.push('-');
    let mut d = decimal_chars(n);
    v.append(&mut d);
    v.push('.');
    v.push('l');
    v.push('o');
    v.push('g');
    assert(v@ =~= log_name(time@, n as nat));
    string_of(&v)
}

/// The program token of a command line: what follows any leading
/// parentheses and whitespace, up to the next whitespace.
pub const PROGRAM_PATTERN: &'static str = r"^[()\s]*(\S+)";

/// The log root where none is configured.
pub const DEFAULT_ROOT: &'static str = "/tmp/tanlog";

pub open spec fn raw_name() -> Seq<char> {
    seq!['R', 'A', 'W']
}

pub open spec fn today_name() -> Seq<char> {
    seq!['T', 'O', 'D', 'A', 'Y']
}

pub open spec fn dot_today_name() -> Seq<char> {
    seq!['.', 'T', 'O', 'D', 'A', 'Y']
}

/// The root of the raw tree.
pub open spec fn raw_root(root: Seq<char>) -> Seq<char> {
    joined(root, raw_name())
}

/// The raw log directory of a day.
pub open spec fn day_dir(root: Seq<char>, day: Seq<char>) -> Seq<char> {
    joined(raw_root(root), day)
}

/// Republish the "today" pointer under `base` to `dir`: build the new link
/// aside, then rename it into place.
pub open spec fn pointer_ops(base: Seq<char>, dir: Seq<char>) -> Seq<Op> {
    seq![
        Op::CreateDirAll(dir),
        Op::RemoveFile(joined(base, dot_today_name())),
        Op::Symlink(dir, joined(base, dot_today_name())),
        Op::Rename(joined(base, dot_today_name()), joined(base, today_name())),
    ]
}

/// The day pointers of both trees.
pub open spec fn pointer_plan(root: Seq<char>, day: Seq<char>) -> Seq<Op> {
    pointer_ops(raw_root(root), day_dir(root, day)) + pointer_ops(root, san_of(day_dir(root, day)))
}

/// The header line of a log.
pub open spec fn header(cmd: Seq<char>) -> Seq<char> {
    seq!['$', ' '] + cmd + seq!['\n']
}

/// Link `log`, named `name`, into the directory `dir` and register it in
/// the chain there.
pub open spec fn link_ops(dir: Seq<char>, log: Seq<char>, name: Seq<char>) -> Seq<Op> {
    seq![Op::CreateDirAll(dir), Op::Symlink(log, joined(dir, name))] + register_plan(dir, log)
}

/// Link the log into a command directory, in the raw tree and the sanitized one.
pub open spec fn scope_ops(dir: Seq<char>, log: Seq<char>, name: Seq<char>) -> Seq<Op> {
    link_ops(dir, log, name) + link_ops(san_of(dir), san_of(log), name)
}

/// The scope key of a command line: the final component of its program token.
pub open spec fn program_of(cmd: Seq<char>) -> Result<Seq<char>, PathError> {
    match first_group(PROGRAM_PATTERN@, cmd) {
        None => Err(PathError::NoMatch),
        Some(tok) => if names_nothing(file_part(tok)) {
            Err(PathError::NotFileName)
        } else {
            Ok(file_part(tok))
        },
    }
}

/// Everything that starts a session whose log is the `n`-th of its second.
pub open spec fn start_ops(
    root: Seq<char>,
    day: Seq<char>,
    time: Seq<char>,
    n: nat,
    cmd: Seq<char>,
) -> Seq<Op> {
    let name = log_name(time, n);
    let log = joined(day_dir(root, day), name);
    pointer_plan(root, day) + seq![
        Op::CreateLog(log, header(cmd)),
        Op::StartCapture(log),
        Op::PrintPath(log),
    ] + register_plan(joined(root, today_name()), san_of(log)) + match program_of(cmd) {
        Ok(p) => scope_ops(joined(raw_root(root), p), log, name) + scope_ops(
            joined(day_dir(root, day), p),
            log,
            name,
        ),
        Err(_) => Seq::empty(),
    }
}

/// What starting a session does.
pub struct StartPlan {
    /// The raw log file.
    pub log_path: String,
    /// Its number within its second.
    pub seq: u64,
    /// The steps, in order.
    pub actions: Vec<Action>,
    /// Why the command scope could not be set up, if it could not: the
    /// caller reports it after performing the steps.
    pub failure: Option<PathError>,
}

/// The log root and the compiled patterns.
pub struct Config {
    pub root: String,
    pub sanitizer: Sanitizer,
    pub program: TextPattern,
}

fn push_all(out: &mut Vec<Action>, more: Vec<Action>)
    ensures
        ops_of(final(out)@) == ops_of(old(out)@) + ops_of(more@),
{
    let mut m = more;
    let ghost a = old(out)@;
    let ghost b = m@;
    out.append(&mut m);
    assert(ops_of(out@) =~= ops_of(a) + ops_of(b));
}

fn pointer_actions(base: &str, dir: &str) -> (r: Vec<Action>)
    ensures
        ops_of(r@) == pointer_ops(base@, dir@),
{
    let dot = join(base, ".TODAY");
    let today = join(base, "TODAY");
    proof {
        reveal_strlit(".TODAY");
        reveal_strlit("TODAY");
        assert(".TODAY"@ =~= dot_today_name());
        assert("TODAY"@ =~= today_name());
    }
    let r = vec![
        Action::CreateDirAll { path: String::from_str(dir) },
        Action::RemoveFile { path: dot.clone() },
        Action::Symlink { target: String::from_str(dir), link: dot.clone() },
        Action::Rename { from: dot, to: today },
    ];
    assert(ops_of(r@) =~= pointer_ops(base@, dir@));
    r
}

fn link_actions(dir: &str, log: &str, name: &str) -> (r: Vec<Action>)
    ensures
        ops_of(r@) == link_ops(dir@, log@, name@),
{
    let mut r = vec![
        Action::CreateDirAll { path: String::from_str(dir) },
        Action::Symlink { target: String::from_str(log), link: join(dir, name) },
    ];
    assert(ops_of(r@) =~= seq![Op::CreateDirAll(dir@), Op::Symlink(log@, joined(dir@, name@))]);
    push_all(&mut r, register_actions(log, dir));
    r
}

fn scope_actions(dir: &str, log: &str, name: &str) -> (r: Vec<Action>)
    ensures
        ops_of(r@) == scope_ops(dir@, log@, name@),
{
    let mut r = link_actions(dir, log, name);
    let sdir = raw_to_san(dir);
    let slog = raw_to_san(log);
    push_all(&mut r, link_actions(sdir.as_str(), slog.as_str(), name));
    r
}

impl Config {
    pub open spec fn wf(&self) -> bool {
        &&& self.sanitizer.wf()
        &&& self.program.source() == PROGRAM_PATTERN@
    }

    /// A configuration rooted at `root`; `None` when the regular expression
    /// engine refuses one of the patterns.
    pub fn new(root: &str) -> (r: Option<Config>)
        ensures
            r is Some <==> (bytes_compiles(CONTROL_PATTERN@) && bytes_compiles(LINE_END_PATTERN@)
                && bytes_compiles(ORPHAN_CR_PATTERN@) && text_compiles(PROGRAM_PATTERN@)),
            r matches Some(c) ==> c.wf() && c.root@ == root@,
    {
        let sanitizer = match Sanitizer::new() {
            Some(s) => s,
            None => return None,
        };
        let program = match TextPattern::compile(PROGRAM_PATTERN) {
            Some(p) => p,
            None => return None,
        };
        Some(Config { root: String::from_str(root), sanitizer, program })
    }

    /// The scope key of a command line: its program token reduced to its
    /// final path component (`/usr/bin/foo -x` gives `foo`).
    pub fn program_name(&self, cmd: &str) -> (r: Result<String, PathError>)
        requires
            self.wf(),
        ensures
            match r {
                Ok(s) => program_of(cmd@) == Ok::<Seq<char>, PathError>(s@),
                Err(e) => program_of(cmd@) == Err::<Seq<char>, PathError>(e),
            },
    {
        match self.program.group_one(cmd) {
            None => Err(PathError::NoMatch),
            Some(tok) => match split_path(tok.as_str()) {
                Ok((_, name)) => Ok(name),
                Err(e) => Err(e),
            },
        }
    }

    /// The raw log directory of the day of `now`.
    pub fn day_dir(&self, now: &Stamp) -> (r: String)
        ensures
            r@ == day_dir(self.root@, day_text(*now)),
    {
        let raw = join(self.root.as_str(), "RAW");
        proof {
            reveal_strlit("RAW");
            assert("RAW"@ =~= raw_name());
        }
        let day = now.day_text();
        join(raw.as_str(), day.as_str())
    }

    /// The plan that starts a session for the command line `cmd` at `now`,
    /// where `existing` names what the day's raw directory already holds.
    /// The log takes the first free number of its second.
    pub fn plan_start(&self, now: &Stamp, existing: &Vec<String>, cmd: &str) -> (r: StartPlan)
        requires
            self.wf(),
        ensures
            !names_of(existing@).contains(log_name(time_text(*now), r.seq as nat)),
            forall|m: nat|
                m < r.seq ==> names_of(existing@).contains(#[trigger] log_name(time_text(*now), m)),
            r.log_path@ == joined(
                day_dir(self.root@, day_text(*now)),
                log_name(time_text(*now), r.seq as nat),
            ),
            ops_of(r.actions@) == start_ops(
                self.root@,
                day_text(*now),
                time_text(*now),
                r.seq as nat,
                cmd@,
            ),
            r.failure is None <==> program_of(cmd@) is Ok,
            r.failure matches Some(e) ==> program_of(cmd@) == Err::<Seq<char>, PathError>(e),
    {
        let root = self.root.as_str();
        let dir = self.day_dir(now);
        let sdir = raw_to_san(dir.as_str());
        let raw = join(root, "RAW");
        proof {
            reveal_strlit("RAW");
            assert("RAW"@ =~= raw_name());
        }
        let mut actions = pointer_actions(raw.as_str(), dir.as_str());
        push_all(&mut actions, pointer_actions(root, sdir.as_str()));
        let time = now.time_text();
        let n = first_free(time.as_str(), existing);
        let name = log_file_name(time.as_str(), n);
        let log = join(dir.as_str(), name.as_str());
        let mut hv: Vec<char> = vec!['$', ' '];
        let mut cv = chars_of(cmd);
        hv.append(&mut cv);
        hv.push('\n');
        assert(hv@ =~= header(cmd@));
        let tail = vec![
            Action::CreateLog { path: log.clone(), header: string_of(&hv) },
            Action::StartCapture { path: log.clone() },
            Action::PrintPath { path: log.clone() },
        ];
        assert(ops_of(tail@) =~= seq![
            Op::CreateLog(log@, header(cmd@)),
            Op::StartCapture(log@),
            Op::PrintPath(log@),
        ]);
        push_all(&mut actions, tail);
        let slog = raw_to_san(log.as_str());
        let today = join(root, "TODAY");
        proof {
            reveal_strlit("TODAY");
            assert("TODAY"@ =~= today_name());
        }
        push_all(&mut actions, register_actions(slog.as_str(), today.as_str()));
        let failure = match self.program_name(cmd) {
            Ok(p) => {
                let d1 = join(raw.as_str(), p.as_str());
                push_all(&mut actions, scope_actions(d1.as_str(), log.as_str(), name.as_str()));
                let d2 = join(dir.as_str(), p.as_str());
                push_all(&mut actions, scope_actions(d2.as_str(), log.as_str(), name.as_str()));
                None
            },
            Err(e) => {
                assert(ops_of(actions@) + Seq::<Op>::empty() =~= ops_of(actions@));
                Some(e)
            },
        };
        StartPlan { log_path: log, seq: n, actions, failure }
    }
}

proof fn lemma_pointer_ops(fs: Fs, base: Seq<char>, dir: Seq<char>)
    ensures
        node_at(run(fs, pointer_ops(base, dir)), joined(base, today_name())) == Some(
            Node::Link(dir),
        ),
        forall|p: Seq<char>|
            p != joined(base, today_name()) && p != joined(base, dot_today_name())
                && #[trigger] fs.contains_key(p) ==> node_at(run(fs, pointer_ops(base, dir)), p)
                == node_at(fs, p),
{
    let ops = pointer_ops(base, dir);
    let dot = joined(base, dot_today_name());
    let today = joined(base, today_name());
    assert(dot.len() != today.len());
    assert(ops.drop_last() =~= seq![ops[0], ops[1], ops[2]]);
    assert(ops.drop_last().drop_last() =~= seq![ops[0], ops[1]]);
    assert(ops.drop_last().drop_last().drop_last() =~= seq![ops[0]]);
    assert(ops.drop_last().drop_last().drop_last().drop_last() =~= Seq::<Op>::empty());
    let s1 = step(fs, ops[0]);
    let s2 = step(s1, ops[1]);
    let s3 = step(s2, ops[2]);
    let s4 = step(s3, ops[3]);
    assert(seq![ops[0]].drop_last() =~= Seq::<Op>::empty());
    assert(seq![ops[0], ops[1]].drop_last() =~= seq![ops[0]]);
    assert(seq![ops[0], ops[1], ops[2]].drop_last() =~= seq![ops[0], ops[1]]);
    assert(run(fs, Seq::<Op>::empty()) == fs);
    assert(run(fs, seq![ops[0]]) == s1);
    assert(run(fs, seq![ops[0], ops[1]]) == s2);
    assert(run(fs, seq![ops[0], ops[1], ops[2]]) == s3);
    assert(run(fs, ops) == s4);
    assert(!s2.contains_key(dot));
    assert(s3[dot] == Node::Link(dir));
}

/// After the day pointers are republished, the raw tree's `TODAY` links to
/// the day's raw directory and the sanitized tree's `TODAY` to its
/// sanitized counterpart, whatever stood there before.
pub proof fn lemma_today_pointers(fs: Fs, root: Seq<char>, day: Seq<char>)
    ensures
        node_at(run(fs, pointer_plan(root, day)), joined(raw_root(root), today_name())) == Some(
            Node::Link(day_dir(root, day)),
        ),
        node_at(run(fs, pointer_plan(root, day)), joined(root, today_name())) == Some(
            Node::Link(san_of(day_dir(root, day))),
        ),
{
    let p1 = pointer_ops(raw_root(root), day_dir(root, day));
    let p2 = pointer_ops(root, san_of(day_dir(root, day)));
    lemma_run_concat(fs, p1, p2);
    let mid = run(fs, p1);
    lemma_pointer_ops(fs, raw_root(root), day_dir(root, day));
    lemma_pointer_ops(mid, root, san_of(day_dir(root, day)));
    let raw_today = joined(raw_root(root), today_name());
    assert(raw_today.len() != joined(root, today_name()).len());
    assert(raw_today.len() != joined(root, dot_today_name()).len());
    assert(mid.contains_key(raw_today));
}

/// Starting a session for a command whose program is `p` registers the
/// session's sanitized log in the global today chain, in the sanitized chain
/// of `p`, and in the sanitized chain of `p` within the day's directory;
/// right after each registration, slot 0 of that chain links to it.
pub proof fn lemma_start_links_session(
    fs: Fs,
    root: Seq<char>,
    day: Seq<char>,
    time: Seq<char>,
    n: nat,
    cmd: Seq<char>,
    p: Seq<char>,
)
    requires
        program_of(cmd) == Ok::<Seq<char>, PathError>(p),
    ensures
        ({
            let ops = start_ops(root, day, time, n, cmd);
            let slog = san_of(joined(day_dir(root, day), log_name(time, n)));
            &&& node_at(run(fs, ops.take(21)), slot_link(joined(root, today_name()), 0)) == Some(
                Node::Link(slog),
            )
            &&& node_at(run(fs, ops.take(45)), slot_link(san_of(joined(raw_root(root), p)), 0))
                == Some(Node::Link(slog))
            &&& node_at(run(fs, ops.take(69)), slot_link(san_of(joined(day_dir(root, day), p)), 0))
                == Some(Node::Link(slog))
        }),
{
    let ops = start_ops(root, day, time, n, cmd);
    let name = log_name(time, n);
    let log = joined(day_dir(root, day), name);
    let slog = san_of(log);
    let today = joined(root, today_name());
    let head = pointer_plan(root, day) + seq![
        Op::CreateLog(log, header(cmd)),
        Op::StartCapture(log),
        Op::PrintPath(log),
    ];
    let d1 = joined(raw_root(root), p);
    let rest = scope_ops(d1, log, name) + scope_ops(joined(day_dir(root, day), p), log, name);
    assert(ops == head + register_plan(today, slog) + rest);
    assert(head.len() == 11);
    assert(ops.take(21) =~= head + register_plan(today, slog));
    lemma_run_concat(fs, head, register_plan(today, slog));
    lemma_register_newest(run(fs, head), today, slog);
    let pre = head + register_plan(today, slog) + link_ops(d1, log, name) + seq![
        Op::CreateDirAll(san_of(d1)),
        Op::Symlink(slog, joined(san_of(d1), name)),
    ];
    assert(pre.len() == 35);
    assert(ops.take(45) =~= pre + register_plan(san_of(d1), slog));
    lemma_run_concat(fs, pre, register_plan(san_of(d1), slog));
    lemma_register_newest(run(fs, pre), san_of(d1), slog);
    let d2 = joined(day_dir(root, day), p);
    let pre2 = pre + register_plan(san_of(d1), slog) + link_ops(d2, log, name) + seq![
        Op::CreateDirAll(san_of(d2)),
        Op::Symlink(slog, joined(san_of(d2), name)),
    ];
    assert(pre2.len() == 59);
    assert(ops.take(69) =~= pre2 + register_plan(san_of(d2), slog));
    lemma_run_concat(fs, pre2, register_plan(san_of(d2), slog));
    lemma_register_newest(run(fs, pre2), san_of(d2), slog);
}

/// While the day pointer under `base` is republished, it never goes
/// missing: after each step it links to what it linked to before or to the
/// new directory.
pub proof fn lemma_pointer_never_missing(fs: Fs, base: Seq<char>, dir: Seq<char>, j: int)
    requires
        0 <= j <= 4,
        fs.contains_key(joined(base, today_name())),
    ensures
        ({
            let now = node_at(run(fs, pointer_ops(base, dir).take(j)), joined(base, today_name()));
            now == node_at(fs, joined(base, today_name())) || now == Some(Node::Link(dir))
        }),
    decreases j,
{
    let ops = pointer_ops(base, dir);
    let dot = joined(base, dot_today_name());
    let today = joined(base, today_name());
    assert(dot.len() != today.len());
    if j == 0 {
        assert(ops.take(0) =~= Seq::<Op>::empty());
    } else {
        lemma_pointer_never_missing(fs, base, dir, j - 1);
        assert(ops.take(j).drop_last() =~= ops.take(j - 1));
        assert(ops.take(j).last() == ops[j - 1]);
        if j == 4 {
            lemma_pointer_ops(fs, base, dir);
            assert(ops.take(4) =~= ops);
        }
    }
}

/// The log that a session opens is new: where `existing` lists every log
/// name of the second that stands in the day's directory, the chosen path is
/// absent, and differs from each earlier session's log, which opening it
/// therefore leaves as it was.
pub proof fn lemma_new_log_fresh(
    fs: Fs,
    dir: Seq<char>,
    time: Seq<char>,
    existing: Seq<String>,
    n: nat,
)
    requires
        forall|m: nat|
            #[trigger] fs.contains_key(joined(dir, log_name(time, m))) ==> names_of(
                existing,
            ).contains(log_name(time, m)),
        !names_of(existing).contains(log_name(time, n)),
    ensures
        !fs.contains_key(joined(dir, log_name(time, n))),
        forall|m: nat|
            m != n ==> node_at(
                step(fs, Op::CreateLog(joined(dir, log_name(time, n)), Seq::empty())),
                #[trigger] joined(dir, log_name(time, m)),
            ) == node_at(fs, joined(dir, log_name(time, m))),
{
    assert forall|m: nat| m != n implies joined(dir, log_name(time, m)) != joined(
        dir,
        log_name(time, n),
    ) by {
        if joined(dir, log_name(time, m)) == joined(dir, log_name(time, n)) {
            let a = joined(dir, log_name(time, m));
            let b = joined(dir, log_name(time, n));
            assert(a.skip(dir.len() as int + 1) =~= log_name(time, m));
            assert(b.skip(dir.len() as int + 1) =~= log_name(time, n));
            lemma_log_name_injective(time, m, n);
        }
    }
}

} // verus!
