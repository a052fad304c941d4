//! The processes of a server: which of them earlier runs left behind, how those
//! are cleaned up, how a server is stopped, and what its log keeps.
use vstd::prelude::*;
use vstd::string::*;

use crate::effects::{
    fail, failed, said_yes, why_failed, Effect, Heard, Reply, StaleProcessCleanupOutcome, Step,
    StopProcessOutcome, Task, TaskView, Told,
};
use crate::numbers::{
    all_digits, is_digit, law_parsed_is_at_most, parse_number, parsed, NumberFault,
};
use crate::order::{sorted, sorted_once, views, without_repeats};
use crate::outside::{lossy_text, utf8_lossy};
use crate::paths::{path_steps, steps, without_dots};
use crate::text::{
    ascii_lower, cat2, cat3, cat4, has_prefix, has_text, holds_text, lines, opt_str, opt_text,
    replace_char, replaced, same_text, split_lines, split_words, texts, to_ascii_lower, trim,
    trimmed, words,
};

verus! {

/// What the system tells of a process: the name of its directory in the process
/// table, its short name, its command line as bytes, its working directory and its
/// program, each as far as it can be read.
pub struct ProcessInfo<T, B> {
    pub pid_text: T,
    pub comm: Option<T>,
    pub cmdline: B,
    pub cwd: Option<T>,
    pub exe: Option<T>,
}

impl View for ProcessInfo<String, Vec<u8>> {
    type V = ProcessInfo<Seq<char>, Seq<u8>>;

    open spec fn view(&self) -> ProcessInfo<Seq<char>, Seq<u8>> {
        ProcessInfo {
            pid_text: self.pid_text@,
            comm: opt_text(self.comm),
            cmdline: self.cmdline@,
            cwd: opt_text(self.cwd),
            exe: opt_text(self.exe),
        }
    }
}

/// The bytes cut apart at each zero.
pub open spec fn zero_parts(bytes: Seq<u8>) -> Seq<Seq<u8>>
    decreases bytes.len(),
{
    if bytes.len() == 0 {
        seq![Seq::empty()]
    } else {
        let before = zero_parts(bytes.drop_last());
        if bytes.last() == 0 {
            before.push(Seq::empty())
        } else {
            before.drop_last().push(before.last().push(bytes.last()))
        }
    }
}

/// Whether a text names the directory or a path below it.
pub open spec fn text_names_root(text: Seq<char>, root: Seq<char>) -> bool {
    text == root || (root + "/"@).is_prefix_of(text)
}

/// Whether an argument names the directory or a path below it.
pub open spec fn names_root(arg: Seq<u8>, root: Seq<char>) -> bool {
    arg.len() > 0 && text_names_root(utf8_lossy(arg), root)
}

/// Whether one of the arguments on a command line names the directory or a path
/// below it.
pub open spec fn cmdline_names(bytes: Seq<u8>, root: Seq<char>) -> bool {
    exists|i: int| 0 <= i < zero_parts(bytes).len() && names_root(#[trigger] zero_parts(bytes)[i], root)
}

/// Whether a path starts at the top of the tree.
pub open spec fn is_rooted(path: Seq<char>) -> bool {
    path.len() > 0 && path[0] == '/'
}

/// What comes before the steps of a path where paths are compared: the top of the
/// tree, or the step in place that a relative path starts with.
pub open spec fn first_step(path: Seq<char>) -> Seq<Seq<char>> {
    if is_rooted(path) {
        seq!["/"@]
    } else if steps(path).len() > 0 && steps(path)[0] == "."@ {
        seq!["."@]
    } else {
        Seq::empty()
    }
}

/// The steps by which paths are compared: where they start, and no other steps that
/// stay in place.
pub open spec fn compared_steps(path: Seq<char>) -> Seq<Seq<char>> {
    first_step(path) + without_dots(steps(path))
}

/// Whether a path leads to the directory or below it, step by step.
pub open spec fn path_within(path: Seq<char>, root: Seq<char>) -> bool {
    compared_steps(root).is_prefix_of(compared_steps(path))
}

/// Whether the path, where there is one, leads to the directory or below it.
pub open spec fn link_within(path: Option<Seq<char>>, root: Seq<char>) -> bool {
    match path {
        Some(p) => path_within(p, root),
        None => false,
    }
}

/// The name of a server or of what it runs under.
pub open spec fn is_runtime(name: Seq<char>) -> bool {
    name == "bedrock_server"@ || name == "bionilux"@ || name == "box64"@
}

/// Whether a text names a server or what it runs under.
pub open spec fn mentions_runtime(text: Seq<char>) -> bool {
    holds_text(text, "bedrock_server"@) || holds_text(text, "bionilux"@) || holds_text(
        text,
        "box64"@,
    )
}

/// Whether a short name and a command line, as text, are those of a server's
/// process: one of the two is enough.
pub open spec fn is_server_text(comm: Option<Seq<char>>, cmdline: Seq<char>) -> bool {
    ||| (comm matches Some(c) && is_runtime(ascii_lower(trimmed(c))))
    ||| mentions_runtime(ascii_lower(replaced(cmdline, '\0', ' ')))
}

/// Whether a process is a server's, by its short name or by its command line.
pub open spec fn runs_server(p: ProcessInfo<Seq<char>, Seq<u8>>) -> bool {
    is_server_text(p.comm, utf8_lossy(p.cmdline))
}

/// The largest process id.
pub const MAX_PID: u64 = 2147483647;

/// The id of a process that an earlier run of the instance's server left behind,
/// if the process is one. The panel itself and the first process never are.
pub open spec fn stale_pid(
    p: ProcessInfo<Seq<char>, Seq<u8>>,
    root: Seq<char>,
    self_pid: i32,
) -> Option<i32> {
    if !all_digits(p.pid_text) || parsed(p.pid_text, MAX_PID as nat) is Err {
        None
    } else {
        let pid = parsed(p.pid_text, MAX_PID as nat)->Ok_0 as i32;
        if pid <= 1 || pid == self_pid || !runs_server(p) {
            None
        } else if cmdline_names(p.cmdline, root) || link_within(p.cwd, root) || link_within(
            p.exe,
            root,
        ) {
            Some(pid)
        } else {
            None
        }
    }
}

/// The ids of the processes that were left behind, in the order in which the
/// processes are listed.
pub open spec fn stale_pids(
    list: Seq<ProcessInfo<Seq<char>, Seq<u8>>>,
    root: Seq<char>,
    self_pid: i32,
) -> Seq<i32>
    decreases list.len(),
{
    if list.len() == 0 {
        Seq::empty()
    } else {
        let before = stale_pids(list.drop_last(), root, self_pid);
        match stale_pid(list.last(), root, self_pid) {
            Some(pid) => before.push(pid),
            None => before,
        }
    }
}

/// Whether all characters are digits.
fn only_digits(s: &str) -> (b: bool)
    ensures
        b == all_digits(s@),
{
    let n: usize = s.unicode_len();
    let mut i: usize = 0;
    while i < n
        invariant
            n == s@.len(),
            i <= n,
            forall|j: int| 0 <= j < i ==> is_digit(#[trigger] s@[j]),
        decreases n - i,
    {
        let c = s.get_char(i);
        if !('0' <= c && c <= '9') {
            return false;
        }
        i = i + 1;
    }
    true
}

/// Whether the text names the directory or a path below it.
pub fn names_directory(text: &str, root: &str) -> (b: bool)
    ensures
        b == text_names_root(text@, root@),
{
    same_text(text, root) || has_prefix(text, cat2(root, "/").as_str())
}

/// Whether the argument names the directory or a path below it.
fn argument_names(arg: &Vec<u8>, root: &str) -> (b: bool)
    ensures
        b == names_root(arg@, root@),
{
    arg.len() > 0 && names_directory(lossy_text(arg.as_slice()).as_str(), root)
}

/// Cuts the bytes apart at each zero.
fn split_at_zeros(bytes: &Vec<u8>) -> (r: Vec<Vec<u8>>)
    ensures
        r@.len() == zero_parts(bytes@).len(),
        forall|i: int| 0 <= i < r@.len() ==> (#[trigger] r@[i])@ == zero_parts(bytes@)[i],
{
    let mut done: Vec<Vec<u8>> = Vec::new();
    let mut part: Vec<u8> = Vec::new();
    let mut i: usize = 0;
    assert(zero_parts(bytes@.take(0)) =~= seq![Seq::<u8>::empty()]);
    while i < bytes.len()
        invariant
            i <= bytes.len(),
            zero_parts(bytes@.take(i as int)).len() == done@.len() + 1,
            zero_parts(bytes@.take(i as int)).last() == part@,
            forall|j: int|
                0 <= j < done@.len() ==> (#[trigger] done@[j])@ == zero_parts(
                    bytes@.take(i as int),
                )[j],
        decreases bytes.len() - i,
    {
        assert(bytes@.take(i + 1).drop_last() =~= bytes@.take(i as int));
        let b: u8 = bytes[i];
        if b == 0 {
            done.push(part);
            part = Vec::new();
            assert(part@ =~= Seq::<u8>::empty());
        } else {
            part.push(b);
        }
        i = i + 1;
    }
    assert(bytes@.take(bytes@.len() as int) =~= bytes@);
    done.push(part);
    done
}

/// Whether one of the arguments on the command line names the directory or a path
/// below it.
fn some_argument_names(bytes: &Vec<u8>, root: &str) -> (b: bool)
    ensures
        b == cmdline_names(bytes@, root@),
{
    let list = split_at_zeros(bytes);
    let mut i: usize = 0;
    while i < list.len()
        invariant
            i <= list.len(),
            list@.len() == zero_parts(bytes@).len(),
            forall|j: int| 0 <= j < list@.len() ==> (#[trigger] list@[j])@ == zero_parts(bytes@)[j],
            forall|j: int| 0 <= j < i ==> !names_root(#[trigger] zero_parts(bytes@)[j], root@),
        decreases list.len() - i,
    {
        assert(list@[i as int]@ == zero_parts(bytes@)[i as int]);
        if argument_names(&list[i], root) {
            return true;
        }
        i = i + 1;
    }
    false
}

/// The steps by which paths are compared.
fn real_steps(path: &str) -> (r: Vec<String>)
    ensures
        texts(r@) == compared_steps(path@),
{
    let all = path_steps(path);
    let ghost s = steps(path@);
    assert(s.len() == all@.len());
    let mut out: Vec<String> = Vec::new();
    if is_absolute(path) {
        out.push("/".to_owned());
    } else if all.len() > 0 {
        assert(s[0] == all@[0]@);
        if same_text(all[0].as_str(), ".") {
            out.push(".".to_owned());
        }
    }
    let ghost lead = texts(out@);
    assert(lead =~= first_step(path@));
    let mut i: usize = 0;
    assert(texts(out@) =~= lead + without_dots(s.take(0)));
    while i < all.len()
        invariant
            i <= all.len(),
            s == steps(path@),
            texts(all@) == s,
            texts(out@) == lead + without_dots(s.take(i as int)),
        decreases all.len() - i,
    {
        assert(s.take(i + 1).drop_last() =~= s.take(i as int));
        assert(s.take(i + 1).last() == all@[i as int]@);
        if !same_text(all[i].as_str(), ".") {
            let ghost before = out@;
            out.push(all[i].clone());
            assert(texts(out@) =~= texts(before).push(all@[i as int]@));
            assert(texts(out@) =~= lead + without_dots(s.take(i + 1)));
        }
        i = i + 1;
    }
    assert(s.take(s.len() as int) =~= s);
    assert(texts(out@) =~= compared_steps(path@));
    out
}

/// Whether the path starts at the top of the tree.
fn is_absolute(path: &str) -> (b: bool)
    ensures
        b == is_rooted(path@),
{
    path.unicode_len() > 0 && path.get_char(0) == '/'
}

/// Whether the path leads to the directory or below it.
fn leads_within(path: &str, root: &str) -> (b: bool)
    ensures
        b == path_within(path@, root@),
{
    let way = real_steps(path);
    let base = real_steps(root);
    let ghost w = compared_steps(path@);
    let ghost s = compared_steps(root@);
    assert(w.len() == way@.len() && s.len() == base@.len());
    if base.len() > way.len() {
        return false;
    }
    let mut i: usize = 0;
    while i < base.len()
        invariant
            i <= base.len() <= way.len(),
            texts(way@) == w,
            texts(base@) == s,
            w == compared_steps(path@),
            s == compared_steps(root@),
            forall|j: int| 0 <= j < i ==> s[j] == w[j],
        decreases base.len() - i,
    {
        assert(s[i as int] == base@[i as int]@);
        assert(w[i as int] == way@[i as int]@);
        if !same_text(base[i].as_str(), way[i].as_str()) {
            assert(w.subrange(0, s.len() as int)[i as int] != s[i as int]);
            return false;
        }
        i = i + 1;
    }
    assert(s =~= w.subrange(0, s.len() as int));
    true
}

/// Whether the path, where there is one, leads to the directory or below it.
fn link_leads_within(path: &Option<String>, root: &str) -> (b: bool)
    ensures
        b == link_within(opt_text(*path), root@),
{
    match path {
        Some(p) => leads_within(p.as_str(), root),
        None => false,
    }
}

/// Whether the short name and the command line, as text, are those of a server's
/// process.
pub fn looks_like_server(comm: &Option<String>, cmdline: &str) -> (b: bool)
    ensures
        b == is_server_text(opt_text(*comm), cmdline@),
{
    if let Some(comm) = comm {
        let name = to_ascii_lower(trim(comm.as_str()));
        if same_text(name.as_str(), "bedrock_server") || same_text(name.as_str(), "bionilux")
            || same_text(name.as_str(), "box64") {
            return true;
        }
    }
    let lower = to_ascii_lower(replace_char(cmdline, '\0', ' ').as_str());
    has_text(lower.as_str(), "bedrock_server") || has_text(lower.as_str(), "bionilux") || has_text(
        lower.as_str(),
        "box64",
    )
}

/// Whether the process is a server's.
fn is_server_process(p: &ProcessInfo<String, Vec<u8>>) -> (b: bool)
    ensures
        b == runs_server(p@),
{
    looks_like_server(&p.comm, lossy_text(p.cmdline.as_slice()).as_str())
}

/// The id of the process, if an earlier run of the instance's server left it
/// behind.
fn pid_if_stale(p: &ProcessInfo<String, Vec<u8>>, root: &str, self_pid: i32) -> (r: Option<i32>)
    ensures
        r == stale_pid(p@, root@, self_pid),
{
    if !only_digits(p.pid_text.as_str()) {
        return None;
    }
    let pid: i32 = match parse_number(p.pid_text.as_str(), MAX_PID) {
        Ok(n) => n as i32,
        Err(_) => return None,
    };
    if pid <= 1 || pid == self_pid || !is_server_process(p) {
        return None;
    }
    if some_argument_names(&p.cmdline, root) || link_leads_within(&p.cwd, root) || link_leads_within(
        &p.exe,
        root,
    ) {
        Some(pid)
    } else {
        None
    }
}

/// The ids of the processes that earlier runs of the instance's server left
/// behind, in ascending order and each of them once.
pub fn list_stale_instance_runtime_pids(
    processes: &Vec<ProcessInfo<String, Vec<u8>>>,
    canonical_root: &str,
    self_pid: i32,
) -> (r: Vec<i32>)
    ensures
        r@ == without_repeats(
            sorted::<i32>(stale_pids(views(processes@), canonical_root@, self_pid)),
        ),
{
    let ghost all = views(processes@);
    let mut pids: Vec<i32> = Vec::new();
    let mut i: usize = 0;
    assert(pids@ =~= stale_pids(all.take(0), canonical_root@, self_pid));
    while i < processes.len()
        invariant
            i <= processes.len(),
            all == views(processes@),
            pids@ == stale_pids(all.take(i as int), canonical_root@, self_pid),
        decreases processes.len() - i,
    {
        assert(all.take(i + 1).drop_last() =~= all.take(i as int));
        assert(all.take(i + 1).last() == processes@[i as int]@);
        if let Some(pid) = pid_if_stale(&processes[i], canonical_root, self_pid) {
            pids.push(pid);
        }
        i = i + 1;
    }
    assert(all.take(all.len() as int) =~= all);
    sorted_once(pids)
}

/// The first process and the panel itself are never taken for left behind, and
/// neither is a process that is no server's.
pub proof fn law_stale_processes_are_servers(
    list: Seq<ProcessInfo<Seq<char>, Seq<u8>>>,
    root: Seq<char>,
    self_pid: i32,
)
    ensures
        forall|i: int|
            0 <= i < stale_pids(list, root, self_pid).len() ==> {
                let pid = #[trigger] stale_pids(list, root, self_pid)[i];
                &&& pid > 1
                &&& pid != self_pid
                &&& exists|j: int|
                    0 <= j < list.len() && runs_server(#[trigger] list[j]) && stale_pid(
                        list[j],
                        root,
                        self_pid,
                    ) == Some(pid)
            },
    decreases list.len(),
{
    if list.len() > 0 {
        let front = list.drop_last();
        law_stale_processes_are_servers(front, root, self_pid);
        let all = stale_pids(list, root, self_pid);
        let before = stale_pids(front, root, self_pid);
        assert forall|i: int| 0 <= i < all.len() implies {
            let pid = #[trigger] all[i];
            &&& pid > 1
            &&& pid != self_pid
            &&& exists|j: int|
                0 <= j < list.len() && runs_server(#[trigger] list[j]) && stale_pid(
                    list[j],
                    root,
                    self_pid,
                ) == Some(pid)
        } by {
            if i < before.len() {
                assert(all[i] == before[i]);
                let j = choose|j: int|
                    0 <= j < front.len() && runs_server(#[trigger] front[j]) && stale_pid(
                        front[j],
                        root,
                        self_pid,
                    ) == Some(before[i]);
                assert(list[j] == front[j]);
            } else {
                assert(runs_server(list[list.len() - 1]));
            }
        }
    }
}

/// Whether a process is alive by what the system tells of its state: it is known,
/// and its third word is not that of a process that waits to be collected.
pub open spec fn alive_by(stat: Option<Seq<char>>) -> bool {
    match stat {
        None => false,
        Some(text) => words(text).len() < 3 || words(text)[2] != "Z"@,
    }
}

/// Whether the process is alive by what the system tells of its state.
pub fn pid_is_alive(stat: &Option<String>) -> (b: bool)
    ensures
        b == alive_by(opt_text(*stat)),
{
    match stat {
        None => false,
        Some(text) => {
            let list = split_words(text.as_str());
            assert(texts(list@).len() == list@.len());
            if list.len() < 3 {
                true
            } else {
                assert(texts(list@)[2] == list@[2]@);
                !same_text(list[2].as_str(), "Z")
            }
        },
    }
}

/// The processes among the first that are alive by their states.
pub open spec fn alive_among(pids: Seq<i32>, stats: Seq<Option<String>>) -> Seq<i32>
    decreases pids.len(),
{
    if pids.len() == 0 {
        Seq::empty()
    } else {
        let before = alive_among(pids.drop_last(), stats);
        if pids.len() <= stats.len() && alive_by(opt_text(stats[pids.len() - 1])) {
            before.push(pids.last())
        } else {
            before
        }
    }
}

/// The processes that are alive, each by the state at its place.
pub fn still_alive(pids: &Vec<i32>, stats: &Vec<Option<String>>) -> (r: Vec<i32>)
    ensures
        r@ == alive_among(pids@, stats@),
{
    let mut out: Vec<i32> = Vec::new();
    let mut i: usize = 0;
    while i < pids.len()
        invariant
            i <= pids.len(),
            out@ == alive_among(pids@.take(i as int), stats@),
        decreases pids.len() - i,
    {
        assert(pids@.take(i + 1).drop_last() =~= pids@.take(i as int));
        if i < stats.len() && pid_is_alive(&stats[i]) {
            out.push(pids[i]);
        }
        i = i + 1;
    }
    assert(pids@.take(pids@.len() as int) =~= pids@);
    out
}

/// How long processes have to go after they were asked to, and again after they
/// were killed, in milliseconds.
pub const CLEANUP_WAIT_MS: u64 = 1200;

/// How long to sleep between two looks, in milliseconds.
pub const POLL_MS: u64 = 120;

/// What to do next about the processes that were left behind.
#[derive(Debug, PartialEq, Eq)]
pub enum CleanupStep<P> {
    /// Look again after a sleep.
    Sleep,
    /// Kill these, and start the second wait.
    Kill(P),
    /// It is over.
    Over(StaleProcessCleanupOutcome),
}

impl View for CleanupStep<Vec<i32>> {
    type V = CleanupStep<Seq<i32>>;

    open spec fn view(&self) -> CleanupStep<Seq<i32>> {
        match self {
            CleanupStep::Sleep => CleanupStep::Sleep,
            CleanupStep::Kill(p) => CleanupStep::Kill(p@),
            CleanupStep::Over(o) => CleanupStep::Over(*o),
        }
    }
}

/// The cleaning up of processes that were left behind. All of them have been asked
/// to go when it starts.
pub struct Cleanup {
    /// The processes in question.
    pub pids: Vec<i32>,
    /// Whether the second wait has begun.
    pub killing: bool,
}

/// What is next in a clean-up of `matched` processes, of which some are alive.
pub open spec fn cleanup_step(matched: nat, killing: bool, alive: Seq<i32>, passed: bool) -> CleanupStep<
    Seq<i32>,
> {
    if !killing {
        if alive.len() == 0 || passed {
            CleanupStep::Kill(alive)
        } else {
            CleanupStep::Sleep
        }
    } else if alive.len() == 0 || passed {
        CleanupStep::Over(
            StaleProcessCleanupOutcome {
                matched: matched as usize,
                cleaned: (if alive.len() <= matched {
                    matched - alive.len()
                } else {
                    0
                }) as usize,
                remaining: alive.len() as usize,
            },
        )
    } else {
        CleanupStep::Sleep
    }
}

impl Cleanup {
    /// A clean-up of the processes; none where there are none.
    pub fn begin(pids: Vec<i32>) -> (r: Option<Cleanup>)
        ensures
            match r {
                Some(c) => pids@.len() > 0 && c.pids@ == pids@ && !c.killing,
                None => pids@.len() == 0,
            },
    {
        if pids.len() == 0 {
            None
        } else {
            Some(Cleanup { pids, killing: false })
        }
    }

    /// What is next, by the states of the processes and by whether the wait is
    /// over.
    pub fn next(&mut self, stats: &Vec<Option<String>>, passed: bool) -> (s: CleanupStep<Vec<i32>>)
        ensures
            s@ == cleanup_step(
                old(self).pids@.len(),
                old(self).killing,
                alive_among(old(self).pids@, stats@),
                passed,
            ),
            final(self).pids == old(self).pids,
            final(self).killing == (old(self).killing || s@ is Kill),
    {
        let alive = still_alive(&self.pids, stats);
        if !self.killing {
            if alive.len() == 0 || passed {
                self.killing = true;
                return CleanupStep::Kill(alive);
            }
            return CleanupStep::Sleep;
        }
        if alive.len() == 0 || passed {
            let matched: usize = self.pids.len();
            return CleanupStep::Over(
                StaleProcessCleanupOutcome {
                    matched,
                    cleaned: matched.saturating_sub(alive.len()),
                    remaining: alive.len(),
                },
            );
        }
        CleanupStep::Sleep
    }
}

/// Of the processes in question, those that are alive are some.
pub proof fn law_alive_are_among(pids: Seq<i32>, stats: Seq<Option<String>>)
    ensures
        alive_among(pids, stats).len() <= pids.len(),
        forall|i: int|
            0 <= i < alive_among(pids, stats).len() ==> pids.contains(
                #[trigger] alive_among(pids, stats)[i],
            ),
    decreases pids.len(),
{
    if pids.len() > 0 {
        let front = pids.drop_last();
        law_alive_are_among(front, stats);
        let all = alive_among(pids, stats);
        let before = alive_among(front, stats);
        assert forall|i: int| 0 <= i < all.len() implies pids.contains(#[trigger] all[i]) by {
            if i < before.len() {
                assert(front.contains(before[i]));
                let k = choose|k: int| 0 <= k < front.len() && front[k] == before[i];
                assert(pids[k] == all[i]);
            } else {
                assert(pids[pids.len() - 1] == all[i]);
            }
        }
    }
}

/// A clean-up accounts for every process: it was cleaned, or it remains. None
/// remains exactly where none is alive.
pub proof fn law_cleanup_accounts_for_all(pids: Seq<i32>, stats: Seq<Option<String>>, passed: bool)
    requires
        pids.len() <= usize::MAX,
    ensures
        cleanup_step(pids.len(), true, alive_among(pids, stats), passed) matches CleanupStep::Over(o)
            ==> {
            &&& o.matched == pids.len()
            &&& o.cleaned + o.remaining == o.matched
            &&& o.remaining == 0 <==> alive_among(pids, stats).len() == 0
        },
{
    law_alive_are_among(pids, stats);
}

/// What is seen of a server's process.
#[derive(Clone, Copy, Debug, PartialEq, Eq, Structural)]
pub enum SlotCheck {
    /// There is none.
    Empty,
    Running,
    Exited,
    /// Its state cannot be told.
    Unknown,
}

/// Whether the server is running, and whether its process is to be forgotten.
pub fn process_slot_is_running(seen: SlotCheck) -> (r: (bool, bool))
    ensures
        r.0 == (seen == SlotCheck::Running),
        r.1 == (seen == SlotCheck::Exited || seen == SlotCheck::Unknown),
{
    match seen {
        SlotCheck::Empty => (false, false),
        SlotCheck::Running => (true, false),
        SlotCheck::Exited => (false, true),
        SlotCheck::Unknown => (false, true),
    }
}

/// Waiting for a server to be gone, from reply `i` on: whether it runs, whether
/// the time has passed, and a sleep.
pub open spec fn wait_walk(timeout_ms: u64, r: Seq<Told>, i: int) -> TaskView
    decreases r.len() - i,
{
    if i < 0 || i >= r.len() {
        Step::Ask(Effect::SlotRunning)
    } else if !r[i].yes() {
        Step::Answer(Reply::Flag(true))
    } else if i + 1 >= r.len() {
        Step::Ask(Effect::HasPassed(timeout_ms))
    } else if r[i + 1].yes() {
        Step::Answer(Reply::Flag(false))
    } else if i + 2 >= r.len() {
        Step::Ask(Effect::Sleep(POLL_MS))
    } else {
        wait_walk(timeout_ms, r, i + 3)
    }
}

/// Waits for the server to be gone. The answer is whether it is.
pub fn wait_for_slot_exit(timeout_ms: u64, replies: &Vec<Heard>) -> (s: Task)
    ensures
        s@ == wait_walk(timeout_ms, views(replies@), 0),
{
    let ghost r = views(replies@);
    let n: usize = replies.len();
    let mut i: usize = 0;
    while i < n
        invariant
            n == replies@.len(),
            i <= n,
            r == views(replies@),
            wait_walk(timeout_ms, r, 0) == wait_walk(timeout_ms, r, i as int),
        decreases n - i,
    {
        if !said_yes(replies, i) {
            return Step::Answer(Reply::Flag(true));
        }
        if i + 1 >= n {
            return Step::Ask(Effect::HasPassed(timeout_ms));
        }
        if said_yes(replies, i + 1) {
            return Step::Answer(Reply::Flag(false));
        }
        if i + 2 >= n {
            return Step::Ask(Effect::Sleep(POLL_MS));
        }
        i = i + 3;
    }
    Step::Ask(Effect::SlotRunning)
}

/// The place of look `k` of a wait that starts at reply `i`. The reply after it
/// tells whether the time has passed.
pub open spec fn look(i: int, k: int) -> int {
    i + 3 * k
}

/// A wait ends with the server gone only where a look found it gone, and with the
/// server still there only where a look found it running and the time had passed.
pub proof fn law_wait_tells_what_it_saw(timeout_ms: u64, r: Seq<Told>, i: int)
    requires
        0 <= i <= r.len(),
    ensures
        match wait_walk(timeout_ms, r, i) {
            Step::Answer(Reply::Flag(true)) => exists|k: int|
                0 <= k && #[trigger] look(i, k) < r.len() && !r[look(i, k)].yes(),
            Step::Answer(Reply::Flag(false)) => exists|k: int|
                0 <= k && #[trigger] look(i, k) + 1 < r.len() && r[look(i, k)].yes() && r[look(i, k)
                    + 1].yes(),
            Step::Answer(_) => false,
            Step::Ask(_) => true,
        },
    decreases r.len() - i,
{
    assert(look(i, 0) == i);
    if i < r.len() && r[i].yes() && i + 2 < r.len() && !r[i + 1].yes() {
        law_wait_tells_what_it_saw(timeout_ms, r, i + 3);
        match wait_walk(timeout_ms, r, i) {
            Step::Answer(Reply::Flag(true)) => {
                let k = choose|k: int|
                    0 <= k && #[trigger] look(i + 3, k) < r.len() && !r[look(i + 3, k)].yes();
                assert(look(i, k + 1) == look(i + 3, k));
            },
            Step::Answer(Reply::Flag(false)) => {
                let k = choose|k: int|
                    0 <= k && #[trigger] look(i + 3, k) + 1 < r.len() && r[look(i + 3, k)].yes()
                        && r[look(i + 3, k) + 1].yes();
                assert(look(i, k + 1) == look(i + 3, k));
            },
            _ => {},
        }
    }
}

/// Asking a server to stop with an interrupt. A server that is gone counts as
/// asked.
pub open spec fn interrupting(r: Seq<Told>) -> TaskView {
    if r.len() == 0 {
        Step::Ask(Effect::SlotPid)
    } else {
        match r[0] {
            Reply::Pid(None) => failed("child pid is unavailable"@),
            Reply::Pid(Some(pid)) => if pid > i32::MAX {
                failed("child pid is out of range"@)
            } else if r.len() == 1 {
                Step::Ask(Effect::Interrupt(pid as i32))
            } else {
                match r[1].failure() {
                    Some(e) => failed(e),
                    None => Step::Answer(Reply::Done),
                }
            },
            _ => Step::Answer(Reply::Done),
        }
    }
}

/// Asks the server to stop with an interrupt.
pub fn send_ctrl_c_to_slot(replies: &Vec<Heard>) -> (s: Task)
    ensures
        s@ == interrupting(views(replies@)),
{
    let ghost r = views(replies@);
    if replies.len() == 0 {
        return Step::Ask(Effect::SlotPid);
    }
    assert(r[0] == replies@[0]@);
    match &replies[0] {
        Reply::Pid(None) => fail("child pid is unavailable"),
        Reply::Pid(Some(pid)) => {
            if *pid > 2147483647 {
                return fail("child pid is out of range");
            }
            if replies.len() == 1 {
                return Step::Ask(Effect::Interrupt(*pid as i32));
            }
            match why_failed(replies, 1) {
                Some(e) => fail(e.as_str()),
                None => Step::Answer(Reply::Done),
            }
        },
        _ => Step::Answer(Reply::Done),
    }
}

/// Stopping a server by force. A server that is gone counts as stopped.
pub open spec fn killing(r: Seq<Told>) -> TaskView {
    if r.len() == 0 {
        Step::Ask(Effect::SlotKill)
    } else {
        match r[0].failure() {
            Some(e) => failed(e),
            None => Step::Answer(Reply::Done),
        }
    }
}

/// Stops the server by force.
pub fn force_kill_slot(replies: &Vec<Heard>) -> (s: Task)
    ensures
        s@ == killing(views(replies@)),
{
    if replies.len() == 0 {
        return Step::Ask(Effect::SlotKill);
    }
    match why_failed(replies, 0) {
        Some(e) => fail(e.as_str()),
        None => Step::Answer(Reply::Done),
    }
}

/// How long a server has to stop after each attempt, in milliseconds.
pub const STOP_WAIT_MS: u64 = 5000;

/// The answer of an attempt to stop a server.
pub open spec fn stopped(o: StopProcessOutcome<Seq<char>>) -> TaskView {
    Step::Answer(Reply::Outcome(o))
}

/// Stopping a server by force, from reply `k` on, after the interrupt failed or
/// not.
pub open spec fn stopping_by_force(r: Seq<Told>, k: int, interrupt_failed: Option<Seq<char>>) -> TaskView {
    if r.len() <= k {
        Step::Ask(Effect::ForceKill)
    } else if r[k].failure() is Some {
        let e = r[k].failure()->0;
        stopped(
            StopProcessOutcome::Error(
                match interrupt_failed {
                    Some(c) => "Ctrl+C fallback failed ("@ + c + ") and force kill failed: "@ + e,
                    None => "Force kill failed: "@ + e,
                },
            ),
        )
    } else if r.len() == k + 1 {
        Step::Ask(Effect::WaitExit(STOP_WAIT_MS))
    } else if r[k + 1].failure() is Some {
        stopped(
            StopProcessOutcome::Error("Force kill check failed: "@ + r[k + 1].failure()->0),
        )
    } else if r[k + 1].yes() {
        stopped(StopProcessOutcome::ForceKilled)
    } else {
        stopped(StopProcessOutcome::ForceKillTimedOut)
    }
}

/// Stopping a server, harder and harder: by its own command, by an interrupt, and
/// by force, with a wait after each.
pub open spec fn stopping(r: Seq<Told>) -> TaskView {
    if r.len() == 0 {
        Step::Ask(Effect::SlotRunning)
    } else if !r[0].yes() {
        stopped(StopProcessOutcome::NoProcess)
    } else if r.len() == 1 {
        Step::Ask(Effect::SendInput("stop\n"@))
    } else if r.len() == 2 {
        Step::Ask(Effect::WaitExit(STOP_WAIT_MS))
    } else if r[2].failure() is Some {
        stopped(StopProcessOutcome::Error("Stop check failed: "@ + r[2].failure()->0))
    } else if r[2].yes() {
        stopped(StopProcessOutcome::Graceful)
    } else if r.len() == 3 {
        Step::Ask(Effect::CtrlC)
    } else if r[3].failure() is Some {
        stopping_by_force(r, 4, r[3].failure())
    } else if r.len() == 4 {
        Step::Ask(Effect::WaitExit(STOP_WAIT_MS))
    } else if r[4].failure() is Some {
        stopped(StopProcessOutcome::Error("Ctrl+C stop check failed: "@ + r[4].failure()->0))
    } else if r[4].yes() {
        stopped(StopProcessOutcome::CtrlCFallback)
    } else {
        stopping_by_force(r, 5, None)
    }
}

/// Stops the server by force.
fn stop_by_force(replies: &Vec<Heard>, k: usize, interrupt_failed: Option<String>) -> (s: Task)
    requires
        k <= replies@.len(),
        k < 10,
    ensures
        s@ == stopping_by_force(views(replies@), k as int, opt_text(interrupt_failed)),
{
    let n: usize = replies.len();
    if n == k {
        return Step::Ask(Effect::ForceKill);
    }
    if let Some(e) = why_failed(replies, k) {
        let message = match interrupt_failed {
            Some(c) => cat4(
                "Ctrl+C fallback failed (",
                c.as_str(),
                ") and force kill failed: ",
                e.as_str(),
            ),
            None => cat2("Force kill failed: ", e.as_str()),
        };
        return Step::Answer(Reply::Outcome(StopProcessOutcome::Error(message)));
    }
    if n == k + 1 {
        return Step::Ask(Effect::WaitExit(STOP_WAIT_MS));
    }
    if let Some(e) = why_failed(replies, k + 1) {
        let message = cat2("Force kill check failed: ", e.as_str());
        return Step::Answer(Reply::Outcome(StopProcessOutcome::Error(message)));
    }
    if said_yes(replies, k + 1) {
        Step::Answer(Reply::Outcome(StopProcessOutcome::ForceKilled))
    } else {
        Step::Answer(Reply::Outcome(StopProcessOutcome::ForceKillTimedOut))
    }
}

/// Stops the server, harder and harder.
pub fn stop_process_with_escalation(replies: &Vec<Heard>) -> (s: Task)
    ensures
        s@ == stopping(views(replies@)),
{
    let n: usize = replies.len();
    if n == 0 {
        return Step::Ask(Effect::SlotRunning);
    }
    if !said_yes(replies, 0) {
        return Step::Answer(Reply::Outcome(StopProcessOutcome::NoProcess));
    }
    if n == 1 {
        return Step::Ask(Effect::SendInput("stop\n".to_owned()));
    }
    if n == 2 {
        return Step::Ask(Effect::WaitExit(STOP_WAIT_MS));
    }
    if let Some(e) = why_failed(replies, 2) {
        let message = cat2("Stop check failed: ", e.as_str());
        return Step::Answer(Reply::Outcome(StopProcessOutcome::Error(message)));
    }
    if said_yes(replies, 2) {
        return Step::Answer(Reply::Outcome(StopProcessOutcome::Graceful));
    }
    if n == 3 {
        return Step::Ask(Effect::CtrlC);
    }
    if let Some(e) = why_failed(replies, 3) {
        return stop_by_force(replies, 4, Some(e));
    }
    if n == 4 {
        return Step::Ask(Effect::WaitExit(STOP_WAIT_MS));
    }
    if let Some(e) = why_failed(replies, 4) {
        let message = cat2("Ctrl+C stop check failed: ", e.as_str());
        return Step::Answer(Reply::Outcome(StopProcessOutcome::Error(message)));
    }
    if said_yes(replies, 4) {
        return Step::Answer(Reply::Outcome(StopProcessOutcome::CtrlCFallback));
    }
    stop_by_force(replies, 5, None)
}

/// A server is asked with an interrupt only after it was asked by its own command
/// and did not go, and killed only after the interrupt did not help either.
pub proof fn law_stopping_gets_harder(r: Seq<Told>)
    ensures
        stopping(r) matches Step::Ask(Effect::CtrlC) ==> {
            &&& r.len() == 3
            &&& r[0].yes()
            &&& stopping(r.take(1)) == Step::<Seq<char>, Seq<u8>, Told>::Ask(Effect::SendInput("stop\n"@))
            &&& !r[2].yes()
        },
        stopping(r) matches Step::Ask(Effect::ForceKill) ==> {
            &&& r[0].yes()
            &&& !r[2].yes()
            &&& stopping(r.take(3)) == Step::<Seq<char>, Seq<u8>, Told>::Ask(Effect::CtrlC)
            &&& r[3].failure() is Some || !r[4].yes()
        },
{
    if r.len() >= 3 {
        assert forall|i: int| 0 <= i < 3 implies r.take(3)[i] == r[i] by {}
    }
}

/// What the panel shows of an attempt to stop a server.
pub open spec fn outcome_html(o: StopProcessOutcome<Seq<char>>) -> Seq<char> {
    match o {
        StopProcessOutcome::NoProcess => "<span class='text-slate-500'>No process found</span>"@,
        StopProcessOutcome::Graceful => {
            "<span class='text-rose-400'>Shutdown complete (graceful)</span>"@
        },
        StopProcessOutcome::CtrlCFallback => {
            "<span class='text-amber-300'>Shutdown complete (Ctrl+C fallback)</span>"@
        },
        StopProcessOutcome::ForceKilled => {
            "<span class='text-amber-300'>Shutdown complete (force killed)</span>"@
        },
        StopProcessOutcome::ForceKillTimedOut => {
            "<span class='text-red-500'>Force kill timed out</span>"@
        },
        StopProcessOutcome::Error(e) => "<span class='text-red-500'>"@ + e + "</span>"@,
    }
}

/// What the panel shows of the attempt to stop the server.
pub fn stop_outcome_to_html(outcome: &StopProcessOutcome<String>) -> (r: String)
    ensures
        r@ == outcome_html(outcome@),
{
    match outcome {
        StopProcessOutcome::NoProcess => {
            "<span class='text-slate-500'>No process found</span>".to_owned()
        },
        StopProcessOutcome::Graceful => {
            "<span class='text-rose-400'>Shutdown complete (graceful)</span>".to_owned()
        },
        StopProcessOutcome::CtrlCFallback => {
            "<span class='text-amber-300'>Shutdown complete (Ctrl+C fallback)</span>".to_owned()
        },
        StopProcessOutcome::ForceKilled => {
            "<span class='text-amber-300'>Shutdown complete (force killed)</span>".to_owned()
        },
        StopProcessOutcome::ForceKillTimedOut => {
            "<span class='text-red-500'>Force kill timed out</span>".to_owned()
        },
        StopProcessOutcome::Error(e) => cat3(
            "<span class='text-red-500'>",
            e.as_str(),
            "</span>",
        ),
    }
}

/// How many lines a log keeps.
pub const LOG_LINES: usize = 200;

/// A log with one more line. Past its limit the oldest line leaves.
pub open spec fn logged(log: Seq<Seq<char>>, line: Seq<char>) -> Seq<Seq<char>> {
    if log.len() >= LOG_LINES {
        log.push(line).drop_first()
    } else {
        log.push(line)
    }
}

/// Adds a line to the log. Past its limit the oldest line leaves.
pub fn push_log(log: &mut Vec<String>, line: String)
    ensures
        texts(final(log)@) == logged(texts(old(log)@), line@),
{
    let ghost before = log@;
    log.push(line);
    assert(texts(log@) =~= texts(before).push(line@));
    if log.len() > LOG_LINES {
        let _ = log.remove(0);
        assert(texts(log@) =~= texts(before).push(line@).drop_first());
    }
}

/// A log of at most its limit stays within it, and ends with the newest line.
pub proof fn law_log_stays_short(log: Seq<Seq<char>>, line: Seq<char>)
    requires
        log.len() <= LOG_LINES,
    ensures
        logged(log, line).len() <= LOG_LINES,
        logged(log, line).last() == line,
{
}

/// What the console shows for a line of the log, or in place of lines that were
/// lost.
pub open spec fn console_line(line: Option<Seq<char>>) -> Seq<char> {
    match line {
        Some(text) => "<div>"@ + text + "</div>"@,
        None => "<div>[Log Overflow]</div>"@,
    }
}

/// What the console shows for the line.
pub fn stream_line(line: Option<&str>) -> (r: String)
    ensures
        r@ == console_line(opt_str(line)),
{
    match line {
        Some(text) => cat3("<div>", text, "</div>"),
        None => "<div>[Log Overflow]</div>".to_owned(),
    }
}

/// What the console shows first to whoever follows it: of an instance that is not
/// known, that it was not found.
pub fn stream_greeting(known: bool) -> (r: Option<String>)
    ensures
        opt_text(r) == (if known {
            None
        } else {
            Some("Instance not found"@)
        }),
{
    if known {
        None
    } else {
        Some("Instance not found".to_owned())
    }
}

/// What the system tells of a process's memory: the name of its directory in the
/// process table, its short name, and its status, each as far as it can be read.
pub struct ProcessStatus<T> {
    pub pid_text: Option<T>,
    pub comm: Option<T>,
    pub status: Option<T>,
}

impl View for ProcessStatus<String> {
    type V = ProcessStatus<Seq<char>>;

    open spec fn view(&self) -> ProcessStatus<Seq<char>> {
        ProcessStatus {
            pid_text: opt_text(self.pid_text),
            comm: opt_text(self.comm),
            status: opt_text(self.status),
        }
    }
}

/// The place of the first line that tells the memory in use, from line `i` on.
pub open spec fn memory_line(list: Seq<Seq<char>>, i: int) -> Option<int>
    decreases list.len() - i,
{
    if i < 0 || i >= list.len() {
        None
    } else if "VmRSS:"@.is_prefix_of(list[i]) {
        Some(i)
    } else {
        memory_line(list, i + 1)
    }
}

/// The memory of the server, as the system writes it, in the processes from `i` on:
/// that of the first server that tells it. Where a name or a file on the way there
/// cannot be read, it is not told.
pub open spec fn server_memory(list: Seq<ProcessStatus<Seq<char>>>, i: int) -> Option<Seq<char>>
    decreases list.len() - i,
{
    if i < 0 || i >= list.len() {
        None
    } else {
        let p = list[i];
        if p.pid_text is None {
            None
        } else if !all_digits(p.pid_text->0) {
            server_memory(list, i + 1)
        } else if p.comm is None {
            None
        } else if trimmed(p.comm->0) != "bedrock_server"@ {
            server_memory(list, i + 1)
        } else if p.status is None {
            None
        } else {
            match memory_line(lines(p.status->0), 0) {
                Some(k) => {
                    let w = words(lines(p.status->0)[k]);
                    if w.len() > 1 {
                        Some(w[1])
                    } else {
                        None
                    }
                },
                None => server_memory(list, i + 1),
            }
        }
    }
}

/// The place of the first line that tells the memory in use.
fn find_memory_line(list: &Vec<String>) -> (r: Option<usize>)
    ensures
        match r {
            Some(k) => k < list@.len() && memory_line(texts(list@), 0) == Some(k as int),
            None => memory_line(texts(list@), 0) is None,
        },
{
    let ghost all = texts(list@);
    let mut i: usize = 0;
    while i < list.len()
        invariant
            i <= list.len(),
            all == texts(list@),
            memory_line(all, 0) == memory_line(all, i as int),
        decreases list.len() - i,
    {
        assert(all[i as int] == list@[i as int]@);
        if has_prefix(list[i].as_str(), "VmRSS:") {
            return Some(i);
        }
        i = i + 1;
    }
    assert(all.len() == list@.len());
    None
}

/// The memory of the server, as the system writes it.
pub fn find_server_memory(processes: &Vec<ProcessStatus<String>>) -> (r: Option<String>)
    ensures
        opt_text(r) == server_memory(views(processes@), 0),
{
    let ghost all = views(processes@);
    let mut i: usize = 0;
    while i < processes.len()
        invariant
            i <= processes.len(),
            all == views(processes@),
            server_memory(all, 0) == server_memory(all, i as int),
        decreases processes.len() - i,
    {
        assert(all[i as int] == processes@[i as int]@);
        let p = &processes[i];
        match &p.pid_text {
            None => {
                return None;
            },
            Some(pid_text) => {
                if !only_digits(pid_text.as_str()) {
                    i = i + 1;
                    continue;
                }
            },
        }
        match &p.comm {
            None => {
                return None;
            },
            Some(comm) => {
                if !same_text(trim(comm.as_str()), "bedrock_server") {
                    i = i + 1;
                    continue;
                }
            },
        }
        let list: Vec<String> = match &p.status {
            None => {
                return None;
            },
            Some(status) => split_lines(status.as_str()),
        };
        if let Some(k) = find_memory_line(&list) {
            assert(texts(list@)[k as int] == list@[k as int]@);
            let w = split_words(list[k].as_str());
            assert(texts(w@).len() == w@.len());
            if w.len() > 1 {
                assert(texts(w@)[1] == w@[1]@);
                return Some(w[1].clone());
            }
            return None;
        }
        i = i + 1;
    }
    None
}

/// Where a wait leads once the reply has come.
proof fn lemma_wait_goes_on(timeout_ms: u64, r: Seq<Told>, i: int, x: Told)
    requires
        0 <= i <= r.len(),
    ensures
        ({
            let next = wait_walk(timeout_ms, r.push(x), i);
            match wait_walk(timeout_ms, r, i) {
                Step::Ask(Effect::SlotRunning) => next == (if x == Told::Flag(true) {
                    TaskView::Ask(Effect::HasPassed(timeout_ms))
                } else {
                    TaskView::Answer(Reply::Flag(true))
                }),
                Step::Ask(Effect::HasPassed(ms)) => ms == timeout_ms && next == (if x == Told::Flag(
                    true,
                ) {
                    TaskView::Answer(Reply::Flag(false))
                } else {
                    TaskView::Ask(Effect::Sleep(120))
                }),
                Step::Ask(Effect::Sleep(_)) => next == TaskView::Ask(Effect::SlotRunning),
                Step::Ask(_) => false,
                Step::Answer(a) => next == TaskView::Answer(a),
            }
        }),
    decreases r.len() - i,
{
    reveal_with_fuel(wait_walk, 2);
    let q = r.push(x);
    assert forall|j: int| 0 <= j < r.len() implies q[j] == r[j] by {}
    assert(q[r.len() as int] == x);
    if i + 2 < r.len() {
        lemma_wait_goes_on(timeout_ms, r, i + 3, x);
    }
}

/// A wait for a server's end goes on as each reply asks for: it looks, and as long as
/// the server runs and the time has not passed it sleeps and looks again. It tells
/// whether the server is gone.
pub proof fn law_wait_goes_on(timeout_ms: u64, r: Seq<Told>, x: Told)
    ensures
        wait_walk(timeout_ms, Seq::empty(), 0) == TaskView::Ask(Effect::SlotRunning),
        ({
            let next = wait_walk(timeout_ms, r.push(x), 0);
            match wait_walk(timeout_ms, r, 0) {
                Step::Ask(Effect::SlotRunning) => next == (if x == Told::Flag(true) {
                    TaskView::Ask(Effect::HasPassed(timeout_ms))
                } else {
                    TaskView::Answer(Reply::Flag(true))
                }),
                Step::Ask(Effect::HasPassed(ms)) => ms == timeout_ms && next == (if x == Told::Flag(
                    true,
                ) {
                    TaskView::Answer(Reply::Flag(false))
                } else {
                    TaskView::Ask(Effect::Sleep(120))
                }),
                Step::Ask(Effect::Sleep(_)) => next == TaskView::Ask(Effect::SlotRunning),
                Step::Ask(_) => false,
                Step::Answer(a) => next == TaskView::Answer(a),
            }
        }),
{
    lemma_wait_goes_on(timeout_ms, r, 0, x);
}

/// Stopping a server goes on as each reply asks for: it is asked to stop, interrupted,
/// and killed, each only where what came before did not end it within five seconds, and
/// the answer tells which of these did.
pub proof fn law_stopping_goes_on(r: Seq<Told>, x: Told)
    ensures
        stopping(Seq::empty()) == TaskView::Ask(Effect::SlotRunning),
        ({
            let ends = |o: StopProcessOutcome<Seq<char>>| TaskView::Answer(Reply::Outcome(o));
            let next = stopping(r.push(x));
            match stopping(r) {
                Step::Ask(Effect::SlotRunning) => next == (if x == Told::Flag(true) {
                    TaskView::Ask(Effect::SendInput("stop\n"@))
                } else {
                    ends(StopProcessOutcome::NoProcess)
                }),
                Step::Ask(Effect::SendInput(_)) => next == TaskView::Ask(Effect::WaitExit(5000)),
                Step::Ask(Effect::CtrlC) => next == TaskView::Ask(
                    if x is Failed {
                        Effect::ForceKill
                    } else {
                        Effect::WaitExit(5000)
                    },
                ),
                Step::Ask(Effect::ForceKill) => next == match x {
                    Reply::Failed(e) => ends(
                        StopProcessOutcome::Error(
                            match r.last() {
                                Reply::Failed(c) => "Ctrl+C fallback failed ("@ + c
                                    + ") and force kill failed: "@ + e,
                                _ => "Force kill failed: "@ + e,
                            },
                        ),
                    ),
                    _ => TaskView::Ask(Effect::WaitExit(5000)),
                },
                Step::Ask(Effect::WaitExit(_)) => {
                    &&& r.len() > 0
                    &&& match stopping(r.drop_last()) {
                        Step::Ask(Effect::SendInput(_)) => next == match x {
                            Reply::Failed(e) => ends(
                                StopProcessOutcome::Error("Stop check failed: "@ + e),
                            ),
                            Reply::Flag(true) => ends(StopProcessOutcome::Graceful),
                            _ => TaskView::Ask(Effect::CtrlC),
                        },
                        Step::Ask(Effect::CtrlC) => next == match x {
                            Reply::Failed(e) => ends(
                                StopProcessOutcome::Error("Ctrl+C stop check failed: "@ + e),
                            ),
                            Reply::Flag(true) => ends(StopProcessOutcome::CtrlCFallback),
                            _ => TaskView::Ask(Effect::ForceKill),
                        },
                        Step::Ask(Effect::ForceKill) => next == match x {
                            Reply::Failed(e) => ends(
                                StopProcessOutcome::Error("Force kill check failed: "@ + e),
                            ),
                            Reply::Flag(true) => ends(StopProcessOutcome::ForceKilled),
                            _ => ends(StopProcessOutcome::ForceKillTimedOut),
                        },
                        _ => false,
                    }
                },
                Step::Ask(_) => false,
                Step::Answer(a) => next == TaskView::Answer(a),
            }
        }),
{
    let q = r.push(x);
    assert forall|j: int| 0 <= j < r.len() implies q[j] == r[j] by {}
    assert(q[r.len() as int] == x);
    if r.len() > 0 {
        let p = r.drop_last();
        assert forall|j: int| 0 <= j < p.len() implies p[j] == r[j] by {}
    }
}

/// An interrupt goes to the process that the panel holds, and a kill to it as well; a
/// process that is not there needs neither.
pub proof fn law_interrupt_and_kill_go_on(r: Seq<Told>, x: Told)
    ensures
        interrupting(Seq::empty()) == TaskView::Ask(Effect::SlotPid),
        ({
            let next = interrupting(r.push(x));
            match interrupting(r) {
                Step::Ask(Effect::SlotPid) => match x {
                    Reply::Pid(None) => next == failed("child pid is unavailable"@),
                    Reply::Pid(Some(pid)) => if pid <= 0x7fff_ffff {
                        next matches Step::Ask(Effect::Interrupt(p)) && p == pid
                    } else {
                        next == failed("child pid is out of range"@)
                    },
                    _ => next == TaskView::Answer(Reply::Done),
                },
                Step::Ask(Effect::Interrupt(_)) => next == match x {
                    Reply::Failed(e) => failed(e),
                    _ => TaskView::Answer(Reply::Done),
                },
                Step::Ask(_) => false,
                Step::Answer(a) => next == TaskView::Answer(a),
            }
        }),
        killing(Seq::empty()) == TaskView::Ask(Effect::SlotKill),
        killing(r) is Ask ==> killing(r.push(x)) == match x {
            Reply::Failed(e) => failed(e),
            _ => TaskView::Answer(Reply::Done),
        },
        killing(r) matches Step::Answer(a) ==> killing(r.push(x)) == TaskView::Answer(a),
{
    let q = r.push(x);
    assert forall|j: int| 0 <= j < r.len() implies q[j] == r[j] by {}
    assert(q[r.len() as int] == x);
}

/// The console shows each line as it is, in an element of its own.
pub proof fn law_console_shows_each_line(line: Seq<char>)
    ensures
        console_line(Some(line)) == "<div>"@ + line + "</div>"@,
        console_line(None) == "<div>[Log Overflow]</div>"@,
{
}

/// A log takes up each new line at its end and keeps the others in their order; from two
/// hundred lines on the oldest one leaves.
pub proof fn law_log_keeps_the_newest(log: Seq<Seq<char>>, line: Seq<char>)
    ensures
        ({
            let now = logged(log, line);
            &&& now.last() == line
            &&& log.len() < 200 ==> now.drop_last() == log
            &&& log.len() >= 200 ==> now.drop_last() == log.skip(1)
        }),
{
    let now = logged(log, line);
    if log.len() >= 200 {
        assert(now.drop_last() =~= log.skip(1));
    } else {
        assert(now.drop_last() =~= log);
    }
}

/// A line of a status that tells the memory that a process uses.
pub open spec fn tells_memory(line: Seq<char>) -> bool {
    line.len() >= 6 && line.take(6) == seq!['V', 'm', 'R', 'S', 'S', ':']
}

proof fn lemma_memory_line(list: Seq<Seq<char>>, i: int)
    requires
        0 <= i,
    ensures
        match memory_line(list, i) {
            Some(k) => {
                &&& i <= k < list.len()
                &&& tells_memory(list[k])
                &&& forall|j: int| i <= j < k ==> !tells_memory(#[trigger] list[j])
            },
            None => forall|j: int| i <= j < list.len() ==> !tells_memory(#[trigger] list[j]),
        },
    decreases list.len() - i,
{
    reveal_strlit("VmRSS:");
    let mark = seq!['V', 'm', 'R', 'S', 'S', ':'];
    assert("VmRSS:"@ =~= mark);
    if i < list.len() {
        assert(mark.is_prefix_of(list[i]) <==> tells_memory(list[i])) by {
            if list[i].len() >= 6 {
                assert(list[i].take(6) =~= list[i].subrange(0, 6));
            }
        }
        lemma_memory_line(list, i + 1);
    }
}

/// The memory that is told of a process is the second word of the first line of its
/// status that starts with `VmRSS:`, and of no other line.
pub proof fn law_memory_is_told_by_its_line(list: Seq<Seq<char>>)
    ensures
        match memory_line(list, 0) {
            Some(k) => {
                &&& 0 <= k < list.len()
                &&& tells_memory(list[k])
                &&& forall|j: int| 0 <= j < k ==> !tells_memory(#[trigger] list[j])
            },
            None => forall|j: int| 0 <= j < list.len() ==> !tells_memory(#[trigger] list[j]),
        },
{
    lemma_memory_line(list, 0);
}

/// Whether the process is passed over in the search for a server's memory: it is no
/// process, no server, or a server whose status does not tell its memory.
pub open spec fn is_passed_over(p: ProcessStatus<Seq<char>>) -> bool {
    p.pid_text matches Some(pid) && {
        ||| exists|k: int| 0 <= k < pid.len() && !('0' <= #[trigger] pid[k] && pid[k] <= '9')
        ||| p.comm matches Some(comm) && {
            ||| trimmed(comm) != "bedrock_server"@
            ||| p.status matches Some(status) && forall|k: int|
                0 <= k < lines(status).len() ==> !tells_memory(#[trigger] lines(status)[k])
        }
    }
}

proof fn lemma_server_memory(list: Seq<ProcessStatus<Seq<char>>>, i: int)
    requires
        0 <= i,
    ensures
        match server_memory(list, i) {
            Some(told) => exists|j: int| #[trigger]
                tells_memory_first(list, i, j, told),
            None => forall|j: int, told: Seq<char>| !#[trigger] tells_memory_first(list, i, j, told),
        },
    decreases list.len() - i,
{
    if i < list.len() {
        let p = list[i];
        lemma_server_memory(list, i + 1);
        assert forall|j: int, told: Seq<char>| is_passed_over(p) && i < j implies #[trigger]
            tells_memory_first(list, i, j, told) == tells_memory_first(list, i + 1, j, told) by {
            if tells_memory_first(list, i + 1, j, told) {
                assert forall|m: int| i <= m < j implies is_passed_over(#[trigger] list[m]) by {}
            }
        }
        if p.status is Some {
            lemma_memory_line(lines(p.status->0), 0);
        }
        if p.pid_text is Some {
            let pid = p.pid_text->0;
            assert(all_digits(pid) <==> !(exists|k: int|
                0 <= k < pid.len() && !('0' <= #[trigger] pid[k] && pid[k] <= '9'))) by {
                if !all_digits(pid) {
                    let k = choose|k: int| 0 <= k < pid.len() && !is_digit(#[trigger] pid[k]);
                    assert(!('0' <= pid[k] && pid[k] <= '9'));
                }
            }
        }
        if is_passed_over(p) {
            assert(server_memory(list, i) == server_memory(list, i + 1));
            if let Some(told) = server_memory(list, i) {
                let j = choose|j: int| #[trigger] tells_memory_first(list, i + 1, j, told);
                assert(tells_memory_first(list, i, j, told));
            } else {
                assert forall|j: int, told: Seq<char>| !#[trigger]
                    tells_memory_first(list, i, j, told) by {
                    if tells_memory_first(list, i, j, told) {
                        if j > i {
                            assert(tells_memory_first(list, i + 1, j, told));
                        } else {
                            assert(is_passed_over(list[j]));
                        }
                    }
                }
            }
        } else {
            if let Some(told) = server_memory(list, i) {
                assert(tells_memory_first(list, i, i, told));
            } else {
                assert forall|j: int, told: Seq<char>| !#[trigger]
                    tells_memory_first(list, i, j, told) by {
                    if tells_memory_first(list, i, j, told) {
                        if j > i {
                            assert(is_passed_over(list[i]));
                        }
                    }
                }
            }
        }
    }
}

/// Whether process `j` is the first from `i` on that is not passed over, and its status
/// tells this memory: the second word of its first line that starts with `VmRSS:`.
pub open spec fn tells_memory_first(
    list: Seq<ProcessStatus<Seq<char>>>,
    i: int,
    j: int,
    told: Seq<char>,
) -> bool {
    &&& i <= j < list.len()
    &&& forall|m: int| i <= m < j ==> is_passed_over(#[trigger] list[m])
    &&& !is_passed_over(list[j])
    &&& list[j].pid_text is Some
    &&& list[j].comm matches Some(comm) && trimmed(comm) == "bedrock_server"@
    &&& list[j].status matches Some(status) && exists|k: int|
        {
            &&& 0 <= k < lines(status).len()
            &&& tells_memory(#[trigger] lines(status)[k])
            &&& forall|m: int| 0 <= m < k ==> !tells_memory(#[trigger] lines(status)[m])
            &&& words(lines(status)[k]).len() > 1
            &&& words(lines(status)[k])[1] == told
        }
}

/// The memory that is told of a server is that of the first server whose status tells
/// it, and it is told wherever there is one before which all others can be passed over.
pub proof fn law_memory_of_the_first_server(list: Seq<ProcessStatus<Seq<char>>>)
    ensures
        match server_memory(list, 0) {
            Some(told) => exists|j: int| #[trigger] tells_memory_first(list, 0, j, told),
            None => forall|j: int, told: Seq<char>| !#[trigger] tells_memory_first(list, 0, j, told),
        },
{
    lemma_server_memory(list, 0);
}

proof fn lemma_zero_parts_is_not_empty(a: Seq<u8>)
    ensures
        zero_parts(a).len() > 0,
    decreases a.len(),
{
    if a.len() > 0 {
        lemma_zero_parts_is_not_empty(a.drop_last());
    }
}

/// The arguments of a command line are what stands between its zero bytes.
pub proof fn law_arguments_stand_between_zeros(a: Seq<u8>, b: Seq<u8>)
    ensures
        !a.contains(0) ==> zero_parts(a) == seq![a],
        zero_parts(a + seq![0u8] + b) == zero_parts(a) + zero_parts(b),
    decreases a.len() + b.len(),
{
    if !a.contains(0) && a.len() > 0 {
        let front = a.drop_last();
        assert forall|i: int| 0 <= i < front.len() implies front[i] != 0 by {
            assert(a.contains(a[i]));
        }
        assert(!front.contains(0));
        law_arguments_stand_between_zeros(front, Seq::empty());
        assert(a.contains(a.last()));
        assert(front.push(a.last()) =~= a);
        assert(zero_parts(a) =~= seq![a]);
    } else if a.len() == 0 {
        assert(a =~= Seq::<u8>::empty());
        assert(zero_parts(a) =~= seq![a]);
    }
    let all = a + seq![0u8] + b;
    if b.len() == 0 {
        assert(all.drop_last() =~= a);
        assert(zero_parts(all) =~= zero_parts(a) + zero_parts(b));
    } else {
        law_arguments_stand_between_zeros(a, b.drop_last());
        lemma_zero_parts_is_not_empty(b.drop_last());
        assert(all.drop_last() =~= a + seq![0u8] + b.drop_last());
        assert(zero_parts(all) =~= zero_parts(a) + zero_parts(b));
    }
}

/// A text names a directory where it is its path, or a path that goes on from it behind a
/// separator; a longer name that begins alike is another.
pub proof fn law_what_names_a_directory(root: Seq<char>, rest: Seq<char>, text: Seq<char>)
    ensures
        text_names_root(root, root),
        text_names_root(root + seq!['/'] + rest, root),
        text_names_root(text, root) ==> text == root || text.len() > root.len() && text.take(
            root.len() as int,
        ) == root && text[root.len() as int] == '/',
        rest.len() > 0 && rest[0] != '/' ==> !text_names_root(root + rest, root),
{
    reveal_strlit("/");
    assert("/"@ =~= seq!['/']);
    let long = root + "/"@;
    assert(long.is_prefix_of(root + seq!['/'] + rest)) by {
        assert((root + seq!['/'] + rest).take(long.len() as int) =~= long);
    }
    if text != root && text_names_root(text, root) {
        assert(text.take(root.len() as int) =~= root) by {
            assert forall|i: int| 0 <= i < root.len() implies text[i] == root[i] by {
                assert(text[i] == long[i]);
            }
        }
        assert(text[root.len() as int] == long[root.len() as int]);
    }
    if rest.len() > 0 && rest[0] != '/' {
        let other = root + rest;
        assert(other[root.len() as int] == rest[0]);
        if long.is_prefix_of(other) {
            assert(other[root.len() as int] == long[root.len() as int]);
        }
    }
}

/// An argument counts where it names the directory, and a command line names the directory
/// where one of its arguments does.
pub proof fn law_command_line_names_a_directory(a: Seq<u8>, b: Seq<u8>, root: Seq<char>)
    ensures
        !a.contains(0) ==> (cmdline_names(a, root) <==> a.len() > 0 && text_names_root(
            utf8_lossy(a),
            root,
        )),
        cmdline_names(a + seq![0u8] + b, root) <==> cmdline_names(a, root) || cmdline_names(b, root),
{
    law_arguments_stand_between_zeros(a, b);
    let all = a + seq![0u8] + b;
    let pa = zero_parts(a);
    let pb = zero_parts(b);
    if !a.contains(0) {
        assert(pa[0] == a);
    }
    if cmdline_names(a, root) {
        let i = choose|i: int| 0 <= i < pa.len() && names_root(#[trigger] pa[i], root);
        assert(zero_parts(all)[i] == pa[i]);
    }
    if cmdline_names(b, root) {
        let i = choose|i: int| 0 <= i < pb.len() && names_root(#[trigger] pb[i], root);
        assert(zero_parts(all)[pa.len() + i] == pb[i]);
    }
    if cmdline_names(all, root) {
        let i = choose|i: int|
            0 <= i < zero_parts(all).len() && names_root(#[trigger] zero_parts(all)[i], root);
        if i < pa.len() {
            assert(pa[i] == zero_parts(all)[i]);
        } else {
            assert(pb[i - pa.len()] == zero_parts(all)[i]);
        }
    }
}

/// A path lies within another where both begin at the same place and its steps begin with
/// those of the other; steps that stay where they are do not count.
pub proof fn law_what_lies_within(path: Seq<char>, root: Seq<char>)
    ensures
        ({
            let p = without_dots(steps(path));
            let q = without_dots(steps(root));
            let rooted = |s: Seq<char>| s.len() > 0 && s[0] == '/';
            let dotted = |s: Seq<char>| steps(s).len() > 0 && steps(s)[0] == "."@;
            &&& rooted(path) && rooted(root) ==> (path_within(path, root) <==> q.is_prefix_of(p))
            &&& !rooted(path) && !rooted(root) && dotted(path) == dotted(root) ==> (path_within(
                path,
                root,
            ) <==> q.is_prefix_of(p))
        }),
        link_within(Some(path), root) == path_within(path, root),
        !link_within(None, root),
{
    let p = without_dots(steps(path));
    let q = without_dots(steps(root));
    let head = first_step(path);
    if first_step(root) == head {
        if q.is_prefix_of(p) {
            assert((head + p).take((head + q).len() as int) =~= head + q);
        }
        if (head + q).is_prefix_of(head + p) {
            assert forall|i: int| 0 <= i < q.len() implies q[i] == p[i] by {
                assert((head + q)[head.len() + i] == (head + p)[head.len() + i]);
            }
            assert(p.take(q.len() as int) =~= q);
        }
    }
}

/// A process is a server's where its short name is that of one of the three programs, or
/// its command line mentions one of them; capitals make no difference.
pub proof fn law_what_is_a_server(comm: Seq<char>, cmdline: Seq<char>)
    ensures
        ({
            let line = ascii_lower(replaced(cmdline, '\0', ' '));
            let mentioned = holds_text(line, "bedrock_server"@) || holds_text(line, "bionilux"@)
                || holds_text(line, "box64"@);
            let name = ascii_lower(trimmed(comm));
            &&& is_server_text(None, cmdline) <==> mentioned
            &&& is_server_text(Some(comm), cmdline) <==> mentioned || name == "bedrock_server"@
                || name == "bionilux"@ || name == "box64"@
        }),
{
}

/// A process was left behind where its directory is named by a number above one that is
/// not the panel's own, it is a server's, and its command line, its working directory or
/// its program names the instance.
pub proof fn law_what_was_left_behind(
    p: ProcessInfo<Seq<char>, Seq<u8>>,
    root: Seq<char>,
    self_pid: i32,
    pid: i32,
)
    ensures
        stale_pid(p, root, self_pid) == Some(pid) <==> {
            &&& all_digits(p.pid_text)
            &&& parsed(p.pid_text, 2147483647) == Ok::<nat, NumberFault>(pid as nat)
            &&& pid > 1
            &&& pid != self_pid
            &&& is_server_text(p.comm, utf8_lossy(p.cmdline))
            &&& cmdline_names(p.cmdline, root) || (p.cwd matches Some(d) && path_within(d, root))
                || (p.exe matches Some(d) && path_within(d, root))
        },
{
    law_parsed_is_at_most(p.pid_text, 2147483647);
}

/// The processes that were left behind are those among the first and those among the rest,
/// each found by itself.
pub proof fn law_each_process_is_looked_at(
    a: Seq<ProcessInfo<Seq<char>, Seq<u8>>>,
    b: Seq<ProcessInfo<Seq<char>, Seq<u8>>>,
    p: ProcessInfo<Seq<char>, Seq<u8>>,
    root: Seq<char>,
    self_pid: i32,
)
    ensures
        stale_pids(Seq::empty(), root, self_pid) == Seq::<i32>::empty(),
        stale_pids(seq![p], root, self_pid) == match stale_pid(p, root, self_pid) {
            Some(pid) => seq![pid],
            None => Seq::empty(),
        },
        stale_pids(a + b, root, self_pid) == stale_pids(a, root, self_pid) + stale_pids(
            b,
            root,
            self_pid,
        ),
    decreases b.len(),
{
    reveal_with_fuel(stale_pids, 2);
    assert(seq![p].drop_last() =~= Seq::<ProcessInfo<Seq<char>, Seq<u8>>>::empty());
    if b.len() == 0 {
        assert(a + b =~= a);
        assert(stale_pids(a, root, self_pid) + stale_pids(b, root, self_pid) =~= stale_pids(
            a,
            root,
            self_pid,
        ));
    } else {
        law_each_process_is_looked_at(a, b.drop_last(), p, root, self_pid);
        assert((a + b).drop_last() =~= a + b.drop_last());
        assert(stale_pids(a + b, root, self_pid) =~= stale_pids(a, root, self_pid) + stale_pids(
            b,
            root,
            self_pid,
        ));
    }
}

/// A process lives where the system tells of it and its state, the third word, is not that
/// of one that has ended.
pub proof fn law_what_lives(text: Seq<char>)
    ensures
        !alive_by(None),
        words(text).len() >= 3 ==> (alive_by(Some(text)) <==> words(text)[2] != seq!['Z']),
        words(text).len() < 3 ==> alive_by(Some(text)),
{
    reveal_strlit("Z");
    assert("Z"@ =~= seq!['Z']);
}

/// Each process is asked for by itself: one more is among those that live where the system
/// tells so of it.
pub proof fn law_each_process_is_asked_for(
    pids: Seq<i32>,
    pid: i32,
    stats: Seq<Option<String>>,
)
    ensures
        alive_among(Seq::empty(), stats) == Seq::<i32>::empty(),
        alive_among(pids.push(pid), stats) == (if stats.len() > pids.len() && alive_by(
            opt_text(stats[pids.len() as int]),
        ) {
            alive_among(pids, stats).push(pid)
        } else {
            alive_among(pids, stats)
        }),
{
    assert(pids.push(pid).drop_last() =~= pids);
}

/// Cleaning up waits while processes live and time is left. Then those that live are
/// killed, and after a second wait it is told how many there were, how many are gone and
/// how many are left.
pub proof fn law_cleanup_goes_on(matched: nat, alive: Seq<i32>, passed: bool)
    requires
        alive.len() <= matched <= usize::MAX,
    ensures
        alive.len() > 0 && !passed ==> {
            &&& cleanup_step(matched, false, alive, passed) == CleanupStep::<Seq<i32>>::Sleep
            &&& cleanup_step(matched, true, alive, passed) == CleanupStep::<Seq<i32>>::Sleep
        },
        alive.len() == 0 || passed ==> {
            &&& cleanup_step(matched, false, alive, passed) == CleanupStep::Kill(alive)
            &&& cleanup_step(matched, true, alive, passed) matches CleanupStep::Over(o) && {
                &&& o.matched == matched
                &&& o.remaining == alive.len()
                &&& o.cleaned == matched - alive.len()
            }
        },
        CLEANUP_WAIT_MS == 10 * POLL_MS,
        POLL_MS == 120,
{
}

/// What came of stopping is shown in words of its own, and an error as it was told.
pub proof fn law_outcome_is_shown(e: Seq<char>)
    ensures
        outcome_html(StopProcessOutcome::NoProcess)
            == "<span class='text-slate-500'>No process found</span>"@,
        outcome_html(StopProcessOutcome::Graceful)
            == "<span class='text-rose-400'>Shutdown complete (graceful)</span>"@,
        outcome_html(StopProcessOutcome::CtrlCFallback)
            == "<span class='text-amber-300'>Shutdown complete (Ctrl+C fallback)</span>"@,
        outcome_html(StopProcessOutcome::ForceKilled)
            == "<span class='text-amber-300'>Shutdown complete (force killed)</span>"@,
        outcome_html(StopProcessOutcome::ForceKillTimedOut)
            == "<span class='text-red-500'>Force kill timed out</span>"@,
        outcome_html(StopProcessOutcome::Error(e)) == "<span class='text-red-500'>"@ + e
            + "</span>"@,
{
}

} // verus!
