//! The requests that start and stop a server and talk to it.
use vstd::prelude::*;
use vstd::string::*;

use crate::effects::{
    said_yes, text_told, why_failed, Answer, Effect, Heard, Launch, Move, MoveView, Reply, Said,
    StaleProcessCleanupOutcome, Step, StopProcessOutcome, Told,
};
use crate::numbers::{decimal, decimal_text};
use crate::order::views;
use crate::outside::lower_text;
use crate::paths::{join_path, joined_path};
use crate::processes::{outcome_html, stop_outcome_to_html};
use crate::properties::pairs;
use crate::text::{
    cat2, cat3, cat5, has_text, holds_text, opt_str, opt_text, same_text, texts, trim, trimmed,
};

verus! {

/// The answer to a request that is answered with a piece of a page.
pub open spec fn shown(html: Seq<char>) -> MoveView {
    Step::Answer(Answer::Html(html))
}

/// The answer to a request that is answered with a piece of a page.
fn show(html: &str) -> (s: Move)
    ensures
        s@ == shown(html@),
{
    Step::Answer(Answer::Html(html.to_owned()))
}

/// What a reply tells of processes that were left behind; nothing where it tells
/// nothing.
pub open spec fn cleanup_told(reply: Told) -> StaleProcessCleanupOutcome {
    match reply {
        Reply::Cleanup(c) => c,
        _ => StaleProcessCleanupOutcome { matched: 0, cleaned: 0, remaining: 0 },
    }
}

/// What reply `i` tells of processes that were left behind.
fn told_cleanup(replies: &Vec<Heard>, i: usize) -> (c: StaleProcessCleanupOutcome)
    requires
        i < replies@.len(),
    ensures
        c == cleanup_told(views(replies@)[i as int]),
{
    match &replies[i] {
        Reply::Cleanup(c) => *c,
        _ => StaleProcessCleanupOutcome::none(),
    }
}

/// What the console shows of processes that were cleaned up before a start.
pub open spec fn cleanup_line(c: StaleProcessCleanupOutcome) -> Seq<char> {
    if c.remaining == 0 {
        "Recovered: cleaned "@ + decimal(c.cleaned as nat) + " stale process(es) before startup."@
    } else {
        "Warning: detected "@ + decimal(c.matched as nat) + " stale process(es), cleaned "@ + decimal(
            c.cleaned as nat,
        ) + (", "@ + decimal(c.remaining as nat) + " still running."@)
    }
}

/// What the console shows of processes that were cleaned up before a start.
fn line_of_cleanup(c: StaleProcessCleanupOutcome) -> (r: String)
    ensures
        r@ == cleanup_line(c),
{
    let cleaned = decimal_text(c.cleaned as u64);
    if c.remaining == 0 {
        cat3("Recovered: cleaned ", cleaned.as_str(), " stale process(es) before startup.")
    } else {
        let rest = cat3(", ", decimal_text(c.remaining as u64).as_str(), " still running.");
        cat5(
            "Warning: detected ",
            decimal_text(c.matched as u64).as_str(),
            " stale process(es), cleaned ",
            cleaned.as_str(),
            rest.as_str(),
        )
    }
}

/// Whether a server runs under bionilux: always, but in development mode only on
/// machines that need it.
pub open spec fn needs_bionilux(development_mode: bool, arch: Seq<char>) -> bool {
    !development_mode || arch == "aarch64"@
}

/// Whether a server runs under bionilux.
pub fn use_bionilux(development_mode: bool, arch: &str) -> (b: bool)
    ensures
        b == needs_bionilux(development_mode, arch@),
{
    !development_mode || same_text(arch, "aarch64")
}

/// Where Box64 finds its settings.
pub open spec fn rcfile_place(home: Seq<char>) -> Seq<char> {
    joined_path(home, ".box64rc"@)
}

/// The warning about the settings of Box64, if there is reason for one: from the
/// home directory and from what came of opening the file.
pub open spec fn rcfile_warning(home: Option<Seq<char>>, opened: Told) -> Option<Seq<char>> {
    match home {
        None => Some("Warning: HOME is not set, cannot resolve ~/.box64rc"@),
        Some(h) => match opened {
            Reply::NotFound => Some("Warning: BOX64_RCFILE not found at "@ + rcfile_place(h)),
            Reply::Failed(e) => Some(
                "Warning: BOX64_RCFILE is not readable at "@ + rcfile_place(h) + " ("@ + e + ")"@,
            ),
            _ => None,
        },
    }
}

/// The warning about the settings of Box64, where the home directory is known and
/// reply `i` tells what came of opening the file.
fn warn_of_rcfile(home: &str, replies: &Vec<Heard>, i: usize) -> (r: Option<String>)
    requires
        i < replies@.len(),
    ensures
        opt_text(r) == rcfile_warning(Some(home@), views(replies@)[i as int]),
{
    let place = join_path(home, ".box64rc");
    match &replies[i] {
        Reply::NotFound => Some(cat2("Warning: BOX64_RCFILE not found at ", place.as_str())),
        Reply::Failed(e) => Some(
            cat5(
                "Warning: BOX64_RCFILE is not readable at ",
                place.as_str(),
                " (",
                e.as_str(),
                ")",
            ),
        ),
        _ => None,
    }
}

/// Starting the server's process, from reply `k` on.
pub open spec fn spawning(launch: Launch<Seq<char>>, r: Seq<Told>, k: int) -> MoveView {
    if r.len() <= k {
        Step::Ask(Effect::Spawn(launch))
    } else {
        match r[k].failure() {
            None => shown("<span class='text-green-400'>Server started</span>"@),
            Some(e) => if r.len() == k + 1 {
                Step::Ask(Effect::PublishBeyond("Failed to start server: "@ + e))
            } else {
                shown("<span class='text-red-500'>Failed to start server: "@ + e + "</span>"@)
            },
        }
    }
}

/// Preparing what the server runs under and starting it, from reply `k` on.
pub open spec fn launching(
    path: Seq<char>,
    bionilux: bool,
    home: Option<Seq<char>>,
    r: Seq<Told>,
    k: int,
) -> MoveView {
    if !bionilux {
        spawning(Launch { bionilux, rcfile: None, directory: path }, r, k)
    } else {
        let launch = Launch {
            bionilux,
            rcfile: match home {
                Some(h) => Some(rcfile_place(h)),
                None => None,
            },
            directory: path,
        };
        if r.len() <= k {
            Step::Ask(Effect::Publish("$ bionilux ./bedrock_server"@))
        } else {
            match home {
                None => if r.len() == k + 1 {
                    Step::Ask(Effect::Publish(rcfile_warning(home, Reply::Done)->0))
                } else {
                    spawning(launch, r, k + 2)
                },
                Some(h) => if r.len() == k + 1 {
                    Step::Ask(Effect::OpenFile(rcfile_place(h)))
                } else {
                    match rcfile_warning(home, r[k + 1]) {
                        Some(warning) => if r.len() == k + 2 {
                            Step::Ask(Effect::Publish(warning))
                        } else {
                            spawning(launch, r, k + 3)
                        },
                        None => spawning(launch, r, k + 2),
                    }
                },
            }
        }
    }
}

/// Starting an instance's server. Processes that earlier runs left behind are
/// cleaned up first, and where some remain the server is not started.
pub open spec fn starting(
    instances: Seq<char>,
    name: Seq<char>,
    development_mode: bool,
    arch: Seq<char>,
    home: Option<Seq<char>>,
    r: Seq<Told>,
) -> MoveView {
    let path = instances + "/"@ + name;
    if r.len() == 0 {
        Step::Ask(Effect::IsDir(path))
    } else if !r[0].yes() {
        shown("<span class='text-red-500'>Instance not found</span>"@)
    } else if r.len() == 1 {
        Step::Ask(Effect::Register(name))
    } else if r.len() == 2 {
        Step::Ask(Effect::SlotRunning)
    } else if r[2].yes() {
        shown("<span class='text-yellow-500'>Server is already running.</span>"@)
    } else if r.len() == 3 {
        Step::Ask(Effect::CleanupStale(path))
    } else {
        let c = cleanup_told(r[3]);
        if c.matched > 0 && r.len() == 4 {
            Step::Ask(Effect::Publish(cleanup_line(c)))
        } else if c.remaining > 0 {
            shown(
                "<span class='text-red-500'>Found "@ + decimal(c.remaining as nat)
                    + " stale process(es) still running for this instance. Please press Stop again and retry.</span>"@,
            )
        } else {
            let k: int = if c.matched > 0 {
                5
            } else {
                4
            };
            launching(path, needs_bionilux(development_mode, arch), home, r, k)
        }
    }
}

/// A command: its program, its arguments, and the variables that are set for it.
#[derive(Debug, PartialEq, Eq)]
pub struct CommandLine<T, L, P> {
    pub program: T,
    pub args: L,
    pub vars: P,
}

impl View for CommandLine<String, Vec<String>, Vec<(String, String)>> {
    type V = CommandLine<Seq<char>, Seq<Seq<char>>, Seq<(Seq<char>, Seq<char>)>>;

    open spec fn view(&self) -> CommandLine<
        Seq<char>,
        Seq<Seq<char>>,
        Seq<(Seq<char>, Seq<char>)>,
    > {
        CommandLine { program: self.program@, args: texts(self.args@), vars: pairs(self.vars@) }
    }
}

/// The variables for a server under bionilux: the device stays awake, what Box64
/// says at its start is shown in the console, and Box64 finds its settings.
pub open spec fn bionilux_vars(rcfile: Option<Seq<char>>) -> Seq<(Seq<char>, Seq<char>)> {
    let fixed = seq![
        ("BIONILUX_WAKELOCK"@, "1"@),
        ("BOX64_LOG"@, "1"@),
        ("BOX64_NOBANNER"@, "0"@),
    ];
    match rcfile {
        Some(place) => fixed.push(("BOX64_RCFILE"@, place)),
        None => fixed,
    }
}

/// The command that starts a server, in the directory of its instance.
pub open spec fn command_for(launch: Launch<Seq<char>>) -> CommandLine<
    Seq<char>,
    Seq<Seq<char>>,
    Seq<(Seq<char>, Seq<char>)>,
> {
    if launch.bionilux {
        CommandLine {
            program: "bionilux"@,
            args: seq!["./bedrock_server"@],
            vars: bionilux_vars(launch.rcfile),
        }
    } else {
        CommandLine { program: "./bedrock_server"@, args: Seq::empty(), vars: Seq::empty() }
    }
}

/// The command that starts the server.
pub fn launch_command(launch: &Launch<String>) -> (r: CommandLine<
    String,
    Vec<String>,
    Vec<(String, String)>,
>)
    ensures
        r@ == command_for(launch@),
{
    let mut args: Vec<String> = Vec::new();
    let mut vars: Vec<(String, String)> = Vec::new();
    if !launch.bionilux {
        assert(texts(args@) =~= Seq::empty());
        assert(pairs(vars@) =~= Seq::empty());
        return CommandLine { program: "./bedrock_server".to_owned(), args, vars };
    }
    args.push("./bedrock_server".to_owned());
    vars.push(("BIONILUX_WAKELOCK".to_owned(), "1".to_owned()));
    vars.push(("BOX64_LOG".to_owned(), "1".to_owned()));
    vars.push(("BOX64_NOBANNER".to_owned(), "0".to_owned()));
    if let Some(place) = &launch.rcfile {
        vars.push(("BOX64_RCFILE".to_owned(), place.clone()));
    }
    assert(texts(args@) =~= seq!["./bedrock_server"@]);
    assert(pairs(vars@) =~= bionilux_vars(opt_text(launch.rcfile)));
    CommandLine { program: "bionilux".to_owned(), args, vars }
}

/// Starts the server's process.
fn spawn(launch: Launch<String>, replies: &Vec<Heard>, k: usize) -> (s: Move)
    requires
        k < 10,
    ensures
        s@ == spawning(launch@, views(replies@), k as int),
{
    let n: usize = replies.len();
    if n <= k {
        return Step::Ask(Effect::Spawn(launch));
    }
    match why_failed(replies, k) {
        None => show("<span class='text-green-400'>Server started</span>"),
        Some(e) => if n == k + 1 {
            Step::Ask(Effect::PublishBeyond(cat2("Failed to start server: ", e.as_str())))
        } else {
            show(
                cat3(
                    "<span class='text-red-500'>Failed to start server: ",
                    e.as_str(),
                    "</span>",
                ).as_str(),
            )
        },
    }
}

/// Prepares what the server runs under and starts it.
fn launch_server(
    path: String,
    bionilux: bool,
    home: Option<&str>,
    replies: &Vec<Heard>,
    k: usize,
) -> (s: Move)
    requires
        k < 6,
    ensures
        s@ == launching(path@, bionilux, opt_str(home), views(replies@), k as int),
{
    let n: usize = replies.len();
    if !bionilux {
        return spawn(Launch { bionilux, rcfile: None, directory: path }, replies, k);
    }
    if n <= k {
        return Step::Ask(Effect::Publish("$ bionilux ./bedrock_server".to_owned()));
    }
    match home {
        None => {
            if n == k + 1 {
                return Step::Ask(
                    Effect::Publish(
                        "Warning: HOME is not set, cannot resolve ~/.box64rc".to_owned(),
                    ),
                );
            }
            spawn(Launch { bionilux, rcfile: None, directory: path }, replies, k + 2)
        },
        Some(h) => {
            let place = join_path(h, ".box64rc");
            if n == k + 1 {
                return Step::Ask(Effect::OpenFile(place));
            }
            let launch = Launch { bionilux, rcfile: Some(place), directory: path };
            match warn_of_rcfile(h, replies, k + 1) {
                Some(warning) => {
                    if n == k + 2 {
                        return Step::Ask(Effect::Publish(warning));
                    }
                    spawn(launch, replies, k + 3)
                },
                None => spawn(launch, replies, k + 2),
            }
        },
    }
}

/// Starts the instance's server.
pub fn start_server(
    instances_dir: &str,
    name: &str,
    development_mode: bool,
    host_arch: &str,
    home: Option<&str>,
    replies: &Vec<Heard>,
) -> (s: Move)
    ensures
        s@ == starting(
            instances_dir@,
            name@,
            development_mode,
            host_arch@,
            opt_str(home),
            views(replies@),
        ),
{
    let n: usize = replies.len();
    let path = cat3(instances_dir, "/", name);
    if n == 0 {
        return Step::Ask(Effect::IsDir(path));
    }
    if !said_yes(replies, 0) {
        return show("<span class='text-red-500'>Instance not found</span>");
    }
    if n == 1 {
        return Step::Ask(Effect::Register(name.to_owned()));
    }
    if n == 2 {
        return Step::Ask(Effect::SlotRunning);
    }
    if said_yes(replies, 2) {
        return show("<span class='text-yellow-500'>Server is already running.</span>");
    }
    if n == 3 {
        return Step::Ask(Effect::CleanupStale(path));
    }
    let c = told_cleanup(replies, 3);
    if c.matched > 0 && n == 4 {
        return Step::Ask(Effect::Publish(line_of_cleanup(c)));
    }
    if c.remaining > 0 {
        return show(
            cat3(
                "<span class='text-red-500'>Found ",
                decimal_text(c.remaining as u64).as_str(),
                " stale process(es) still running for this instance. Please press Stop again and retry.</span>",
            ).as_str(),
        );
    }
    let k: usize = if c.matched > 0 {
        5
    } else {
        4
    };
    launch_server(path, use_bionilux(development_mode, host_arch), home, replies, k)
}

/// A server is started only in a directory that is there, only while none is
/// running, and only where no process of an earlier run remains.
pub proof fn law_server_is_started_once(
    instances: Seq<char>,
    name: Seq<char>,
    development_mode: bool,
    arch: Seq<char>,
    home: Option<Seq<char>>,
    r: Seq<Told>,
)
    ensures
        starting(instances, name, development_mode, arch, home, r) matches Step::Ask(
            Effect::Spawn(launch),
        ) ==> {
            &&& launch.directory == instances + "/"@ + name
            &&& launch.bionilux == needs_bionilux(development_mode, arch)
            &&& r[0].yes()
            &&& !r[2].yes()
            &&& cleanup_told(r[3]).remaining == 0
        },
{
}

/// The command that is started: bionilux with the server for its argument and its
/// variables set, in production and on machines that need it; else the server by
/// itself.
pub proof fn law_started_command(
    instances: Seq<char>,
    name: Seq<char>,
    development_mode: bool,
    arch: Seq<char>,
    home: Option<Seq<char>>,
    r: Seq<Told>,
)
    ensures
        starting(instances, name, development_mode, arch, home, r) matches Step::Ask(
            Effect::Spawn(launch),
        ) ==> {
            let c = command_for(launch);
            if !development_mode || arch == "aarch64"@ {
                &&& c.program == "bionilux"@
                &&& c.args == seq!["./bedrock_server"@]
                &&& c.vars == bionilux_vars(
                    match home {
                        Some(h) => Some(rcfile_place(h)),
                        None => None,
                    },
                )
            } else {
                &&& c.program == "./bedrock_server"@
                &&& c.args.len() == 0
                &&& c.vars.len() == 0
            }
        },
{
}

/// A request to start a server starts one at most: after it was asked for once, it
/// is not asked for again.
pub proof fn law_server_is_spawned_once(
    instances: Seq<char>,
    name: Seq<char>,
    development_mode: bool,
    arch: Seq<char>,
    home: Option<Seq<char>>,
    r: Seq<Told>,
    n: int,
)
    requires
        0 <= n < r.len(),
        starting(instances, name, development_mode, arch, home, r.take(n)) matches Step::Ask(
            Effect::Spawn(_),
        ),
    ensures
        !(starting(instances, name, development_mode, arch, home, r) matches Step::Ask(
            Effect::Spawn(_),
        )),
{
    assert forall|i: int| 0 <= i < n implies r.take(n)[i] == r[i] by {}
}

/// In production the server always runs under bionilux.
pub proof fn law_production_uses_bionilux(arch: Seq<char>)
    ensures
        needs_bionilux(false, arch),
{
}

/// What the panel shows after it cleaned up processes that were left behind in
/// place of a server to stop.
pub open spec fn cleanup_html(c: StaleProcessCleanupOutcome) -> Seq<char> {
    if c.remaining == 0 {
        "<span class='text-amber-300'>Shutdown complete (cleaned "@ + decimal(c.cleaned as nat)
            + " stale process"@ + (if c.cleaned == 1 {
            ""@
        } else {
            "es"@
        }) + ")</span>"@
    } else {
        "<span class='text-red-500'>Cleaned "@ + decimal(c.cleaned as nat)
            + " stale process(es), but "@ + decimal(c.remaining as nat) + " still running</span>"@
    }
}

/// Stopping an instance's server. Where none is running, processes that earlier
/// runs left behind are cleaned up.
pub open spec fn stopping_server(instances: Seq<char>, name: Seq<char>, r: Seq<Told>) -> MoveView {
    if r.len() == 0 {
        Step::Ask(Effect::IsRegistered(name))
    } else if !r[0].yes() {
        shown("<span class='text-red-500'>Instance not found</span>"@)
    } else if r.len() == 1 {
        Step::Ask(Effect::StopProcess)
    } else {
        match r[1] {
            Reply::Outcome(StopProcessOutcome::NoProcess) => if r.len() == 2 {
                Step::Ask(Effect::CleanupStale(joined_path(instances, name)))
            } else if cleanup_told(r[2]).matched > 0 {
                shown(cleanup_html(cleanup_told(r[2])))
            } else {
                shown(outcome_html(StopProcessOutcome::NoProcess))
            },
            Reply::Outcome(o) => shown(outcome_html(o)),
            _ => shown(outcome_html(StopProcessOutcome::NoProcess)),
        }
    }
}

/// Stops the instance's server.
pub fn stop_server(instances_dir: &str, name: &str, replies: &Vec<Heard>) -> (s: Move)
    ensures
        s@ == stopping_server(instances_dir@, name@, views(replies@)),
{
    let ghost r = views(replies@);
    let n: usize = replies.len();
    if n == 0 {
        return Step::Ask(Effect::IsRegistered(name.to_owned()));
    }
    if !said_yes(replies, 0) {
        return show("<span class='text-red-500'>Instance not found</span>");
    }
    if n == 1 {
        return Step::Ask(Effect::StopProcess);
    }
    let nothing: StopProcessOutcome<String> = StopProcessOutcome::NoProcess;
    assert(r[1] == replies@[1]@);
    match &replies[1] {
        Reply::Outcome(StopProcessOutcome::NoProcess) => {
            if n == 2 {
                return Step::Ask(Effect::CleanupStale(join_path(instances_dir, name)));
            }
            let c = told_cleanup(replies, 2);
            if c.matched > 0 {
                let cleaned = decimal_text(c.cleaned as u64);
                if c.remaining == 0 {
                    return show(
                        cat5(
                            "<span class='text-amber-300'>Shutdown complete (cleaned ",
                            cleaned.as_str(),
                            " stale process",
                            if c.cleaned == 1 {
                                ""
                            } else {
                                "es"
                            },
                            ")</span>",
                        ).as_str(),
                    );
                }
                return show(
                    cat5(
                        "<span class='text-red-500'>Cleaned ",
                        cleaned.as_str(),
                        " stale process(es), but ",
                        decimal_text(c.remaining as u64).as_str(),
                        " still running</span>",
                    ).as_str(),
                );
            }
            show(stop_outcome_to_html(&nothing).as_str())
        },
        Reply::Outcome(o) => show(stop_outcome_to_html(o).as_str()),
        _ => show(stop_outcome_to_html(&nothing).as_str()),
    }
}

/// What another request was answered, as a reply tells it.
pub open spec fn html_told(reply: Told) -> Seq<char> {
    match reply.text() {
        Some(t) => t,
        None => Seq::empty(),
    }
}

/// What another request was answered, as reply `i` tells it.
fn told_html(replies: &Vec<Heard>, i: usize) -> (r: String)
    requires
        i < replies@.len(),
    ensures
        r@ == html_told(views(replies@)[i as int]),
{
    match text_told(replies, i) {
        Some(t) => t,
        None => {
            let nothing = String::new();
            assert(nothing@ =~= Seq::<char>::empty());
            nothing
        },
    }
}

/// How long to wait between a stop and a start, in milliseconds.
pub const RESTART_WAIT_MS: u64 = 900;

/// Restarting a server from the console, after the command was shown.
pub open spec fn restarting(name: Seq<char>, r: Seq<Told>) -> MoveView {
    if r.len() <= 2 {
        Step::Ask(Effect::StopServer(name))
    } else {
        let stop = html_told(r[2]);
        let sleeps = holds_text(stop, "Shutdown complete"@);
        let k: int = if sleeps {
            4
        } else {
            3
        };
        if holds_text(stop, "Instance not found"@) {
            shown(stop)
        } else if sleeps && r.len() == 3 {
            Step::Ask(Effect::Sleep(RESTART_WAIT_MS))
        } else if r.len() == k {
            Step::Ask(Effect::StartServer(name))
        } else {
            shown(html_told(r[k]))
        }
    }
}

/// A command from the console: one for the panel, or a line for the server.
pub open spec fn commanding(name: Seq<char>, input: Seq<char>, r: Seq<Told>) -> MoveView {
    let raw = trimmed(input);
    let command = lower_text(raw);
    if r.len() == 0 {
        Step::Ask(Effect::IsRegistered(name))
    } else if !r[0].yes() {
        shown("<span class='text-red-500'>Instance not found</span>"@)
    } else if command.len() == 0 {
        shown("<span class='text-slate-500'>Command is empty</span>"@)
    } else if r.len() == 1 {
        Step::Ask(Effect::Publish("> "@ + raw))
    } else if command == "start"@ {
        if r.len() == 2 {
            Step::Ask(Effect::StartServer(name))
        } else {
            shown(html_told(r[2]))
        }
    } else if command == "stop"@ {
        if r.len() == 2 {
            Step::Ask(Effect::StopServer(name))
        } else {
            shown(html_told(r[2]))
        }
    } else if command == "restart"@ {
        restarting(name, r)
    } else if r.len() == 2 {
        Step::Ask(Effect::SlotRunning)
    } else if !r[2].yes() {
        shown("<span class='text-red-500'>Server Offline</span>"@)
    } else if r.len() == 3 {
        Step::Ask(Effect::SendInput(raw + "\n"@))
    } else if r[3] is Nothing {
        shown("<span class='text-red-500'>Server Offline</span>"@)
    } else {
        shown("<span class='text-blue-400'>Command sent</span>"@)
    }
}

/// Restarts the server from the console.
fn restart_server(name: &str, replies: &Vec<Heard>) -> (s: Move)
    requires
        replies@.len() >= 2,
    ensures
        s@ == restarting(name@, views(replies@)),
{
    let n: usize = replies.len();
    if n == 2 {
        return Step::Ask(Effect::StopServer(name.to_owned()));
    }
    let stop = told_html(replies, 2);
    if has_text(stop.as_str(), "Instance not found") {
        return show(stop.as_str());
    }
    let mut k: usize = 3;
    if has_text(stop.as_str(), "Shutdown complete") {
        if n == 3 {
            return Step::Ask(Effect::Sleep(RESTART_WAIT_MS));
        }
        k = 4;
    }
    if n == k {
        return Step::Ask(Effect::StartServer(name.to_owned()));
    }
    show(told_html(replies, k).as_str())
}

/// Handles a command from the console.
pub fn send_input(name: &str, input: &str, replies: &Vec<Heard>) -> (s: Move)
    ensures
        s@ == commanding(name@, input@, views(replies@)),
{
    let ghost r = views(replies@);
    let n: usize = replies.len();
    if n == 0 {
        return Step::Ask(Effect::IsRegistered(name.to_owned()));
    }
    if !said_yes(replies, 0) {
        return show("<span class='text-red-500'>Instance not found</span>");
    }
    let raw = trim(input);
    let command = raw.to_lowercase();
    if command.as_str().is_empty() {
        return show("<span class='text-slate-500'>Command is empty</span>");
    }
    if n == 1 {
        return Step::Ask(Effect::Publish(cat2("> ", raw)));
    }
    if same_text(command.as_str(), "start") {
        if n == 2 {
            return Step::Ask(Effect::StartServer(name.to_owned()));
        }
        return show(told_html(replies, 2).as_str());
    }
    if same_text(command.as_str(), "stop") {
        if n == 2 {
            return Step::Ask(Effect::StopServer(name.to_owned()));
        }
        return show(told_html(replies, 2).as_str());
    }
    if same_text(command.as_str(), "restart") {
        return restart_server(name, replies);
    }
    if n == 2 {
        return Step::Ask(Effect::SlotRunning);
    }
    if !said_yes(replies, 2) {
        return show("<span class='text-red-500'>Server Offline</span>");
    }
    if n == 3 {
        return Step::Ask(Effect::SendInput(cat2(raw, "\n")));
    }
    assert(r[3] == replies@[3]@);
    if matches!(&replies[3], Reply::Nothing) {
        show("<span class='text-red-500'>Server Offline</span>")
    } else {
        show("<span class='text-blue-400'>Command sent</span>")
    }
}

/// A line goes to the server only where the server runs, and the panel's own
/// commands never do.
pub proof fn law_panel_commands_stay_in_the_panel(name: Seq<char>, input: Seq<char>, r: Seq<Told>)
    ensures
        commanding(name, input, r) matches Step::Ask(Effect::SendInput(line)) ==> {
            let command = lower_text(trimmed(input));
            &&& line == trimmed(input) + "\n"@
            &&& command != "start"@
            &&& command != "stop"@
            &&& command != "restart"@
            &&& r[2].yes()
        },
{
}

/// A restart starts the server only after the request to stop it was answered, and
/// not where the instance is gone.
pub proof fn law_restart_stops_first(name: Seq<char>, r: Seq<Told>)
    requires
        r.len() >= 2,
    ensures
        restarting(name, r.take(2)) == Step::<Seq<char>, Seq<u8>, Said>::Ask(Effect::StopServer(name)),
        restarting(name, r) matches Step::Ask(Effect::StartServer(_)) ==> r.len() > 2
            && !holds_text(html_told(r[2]), "Instance not found"@),
{
}

/// Whoever restarts a server from the console waits after every stop that
/// succeeded: what such a stop is answered reads as a shutdown.
pub proof fn law_shutdown_is_recognised(o: StopProcessOutcome<Seq<char>>)
    requires
        o is Graceful || o is CtrlCFallback || o is ForceKilled,
    ensures
        holds_text(outcome_html(o), "Shutdown complete"@),
{
    reveal_strlit("Shutdown complete");
    reveal_strlit("<span class='text-rose-400'>Shutdown complete (graceful)</span>");
    reveal_strlit("<span class='text-amber-300'>Shutdown complete (Ctrl+C fallback)</span>");
    reveal_strlit("<span class='text-amber-300'>Shutdown complete (force killed)</span>");
    let s = outcome_html(o);
    let p = "Shutdown complete"@;
    let at: int = if o is Graceful {
        28
    } else {
        29
    };
    let rest = s.skip(at);
    assert(p =~= rest.subrange(0, p.len() as int));
}

/// A stop that cleaned up all that earlier runs left behind reads as a shutdown.
pub proof fn law_cleanup_reads_as_shutdown(c: StaleProcessCleanupOutcome)
    requires
        c.remaining == 0,
    ensures
        holds_text(cleanup_html(c), "Shutdown complete"@),
{
    reveal_strlit("Shutdown complete");
    reveal_strlit("<span class='text-amber-300'>Shutdown complete (cleaned ");
    let s = cleanup_html(c);
    let p = "Shutdown complete"@;
    let rest = s.skip(29);
    assert(p =~= rest.subrange(0, p.len() as int));
}

/// Starting a server comes to an end after ten replies at most, and stopping one
/// after three.
pub proof fn law_starting_and_stopping_end(
    instances: Seq<char>,
    name: Seq<char>,
    development_mode: bool,
    arch: Seq<char>,
    home: Option<Seq<char>>,
    r: Seq<Told>,
)
    ensures
        r.len() >= 10 ==> starting(instances, name, development_mode, arch, home, r) is Answer,
        r.len() >= 3 ==> stopping_server(instances, name, r) is Answer,
{
}

/// A line for the console goes on as each reply asks for. It is echoed as it was typed,
/// trimmed. Where it reads `start`, `stop` or `restart`, in whatever case, the panel
/// does that; any other line goes to a server that runs, with a line feed, and to
/// nothing else.
pub proof fn law_command_goes_on(name: Seq<char>, input: Seq<char>, r: Seq<Told>, x: Told)
    ensures
        commanding(name, input, Seq::empty()) == MoveView::Ask(Effect::IsRegistered(name)),
        ({
            let raw = trimmed(input);
            let command = lower_text(raw);
            let offline = MoveView::Answer(
                Answer::Html("<span class='text-red-500'>Server Offline</span>"@),
            );
            let next = commanding(name, input, r.push(x));
            match commanding(name, input, r) {
                Step::Ask(Effect::IsRegistered(n)) => n == name && next == (if x != Told::Flag(
                    true,
                ) {
                    MoveView::Answer(
                        Answer::Html("<span class='text-red-500'>Instance not found</span>"@),
                    )
                } else if command.len() == 0 {
                    MoveView::Answer(
                        Answer::Html("<span class='text-slate-500'>Command is empty</span>"@),
                    )
                } else {
                    MoveView::Ask(Effect::Publish("> "@ + raw))
                }),
                Step::Ask(Effect::Publish(_)) => next == MoveView::Ask(
                    if command == "start"@ {
                        Effect::StartServer(name)
                    } else if command == "stop"@ || command == "restart"@ {
                        Effect::StopServer(name)
                    } else {
                        Effect::SlotRunning
                    },
                ),
                Step::Ask(Effect::SlotRunning) => {
                    &&& command != "start"@ && command != "stop"@ && command != "restart"@
                    &&& next == if x == Told::Flag(true) {
                        MoveView::Ask(Effect::SendInput(raw + "\n"@))
                    } else {
                        offline
                    }
                },
                Step::Ask(Effect::SendInput(_)) => next == (if x is Nothing {
                    offline
                } else {
                    MoveView::Answer(
                        Answer::Html("<span class='text-blue-400'>Command sent</span>"@),
                    )
                }),
                Step::Ask(Effect::StopServer(n)) => {
                    &&& n == name
                    &&& command == "stop"@ || command == "restart"@
                    &&& x matches Reply::Text(html) ==> next == if command == "stop"@ || holds_text(
                        html,
                        "Instance not found"@,
                    ) {
                        MoveView::Answer(Answer::Html(html))
                    } else if holds_text(html, "Shutdown complete"@) {
                        MoveView::Ask(Effect::Sleep(900))
                    } else {
                        MoveView::Ask(Effect::StartServer(name))
                    }
                },
                Step::Ask(Effect::Sleep(_)) => command == "restart"@ && next == MoveView::Ask(
                    Effect::StartServer(name),
                ),
                Step::Ask(Effect::StartServer(n)) => {
                    &&& n == name
                    &&& command == "start"@ || command == "restart"@
                    &&& x matches Reply::Text(html) ==> next == MoveView::Answer(Answer::Html(html))
                },
                Step::Ask(_) => false,
                Step::Answer(a) => next == MoveView::Answer(a),
            }
        }),
{
    reveal_strlit("start");
    reveal_strlit("stop");
    reveal_strlit("restart");
    assert("start"@.len() == 5 && "stop"@.len() == 4 && "restart"@.len() == 7);
    let q = r.push(x);
    assert forall|j: int| 0 <= j < r.len() implies q[j] == r[j] by {}
    assert(q[r.len() as int] == x);
}

/// Starting a server goes on as each reply asks for. A server that runs is left alone,
/// and one with processes left over from before is not started until they are gone. It
/// runs under bionilux in production and on ARM, with the settings of Box64 in the home
/// directory; what stands in the way of those is shown and does not stop it.
pub proof fn law_starting_goes_on(
    instances: Seq<char>,
    name: Seq<char>,
    development_mode: bool,
    arch: Seq<char>,
    home: Option<Seq<char>>,
    r: Seq<Told>,
    x: Told,
)
    ensures
        starting(instances, name, development_mode, arch, home, Seq::empty()) == MoveView::Ask(
            Effect::IsDir(instances + "/"@ + name),
        ),
        ({
            let path = instances + "/"@ + name;
            let bionilux = !development_mode || arch == "aarch64"@;
            let spawn = MoveView::Ask(
                Effect::Spawn(
                    Launch {
                        bionilux,
                        rcfile: match home {
                            Some(h) if bionilux => Some(joined_path(h, ".box64rc"@)),
                            _ => None,
                        },
                        directory: path,
                    },
                ),
            );
            let launch = if bionilux {
                MoveView::Ask(Effect::Publish("$ bionilux ./bedrock_server"@))
            } else {
                spawn
            };
            let next = starting(instances, name, development_mode, arch, home, r.push(x));
            match starting(instances, name, development_mode, arch, home, r) {
                Step::Ask(Effect::IsDir(p)) => p == path && next == (if x == Told::Flag(true) {
                    MoveView::Ask(Effect::Register(name))
                } else {
                    MoveView::Answer(
                        Answer::Html("<span class='text-red-500'>Instance not found</span>"@),
                    )
                }),
                Step::Ask(Effect::Register(_)) => next == MoveView::Ask(Effect::SlotRunning),
                Step::Ask(Effect::SlotRunning) => next == (if x == Told::Flag(true) {
                    MoveView::Answer(
                        Answer::Html(
                            "<span class='text-yellow-500'>Server is already running.</span>"@,
                        ),
                    )
                } else {
                    MoveView::Ask(Effect::CleanupStale(path))
                }),
                Step::Ask(Effect::CleanupStale(p)) => p == path && (x matches Reply::Cleanup(c)
                    ==> if c.matched == 0 && c.remaining == 0 {
                    next == launch
                } else if c.matched > 0 {
                    next == MoveView::Ask(
                        Effect::Publish(
                            if c.remaining == 0 {
                                "Recovered: cleaned "@ + decimal(c.cleaned as nat)
                                    + " stale process(es) before startup."@
                            } else {
                                "Warning: detected "@ + decimal(c.matched as nat)
                                    + " stale process(es), cleaned "@ + decimal(c.cleaned as nat)
                                    + (", "@ + decimal(c.remaining as nat) + " still running."@)
                            },
                        ),
                    )
                } else {
                    next matches Step::Answer(Answer::Html(_))
                }),
                Step::Ask(Effect::Publish(line)) => {
                    &&& r.len() > 3
                    &&& next == match r[3] {
                        Reply::Cleanup(c) if r.len() == 4 && c.matched > 0 => if c.remaining == 0 {
                            launch
                        } else {
                            MoveView::Answer(
                                Answer::Html(
                                    "<span class='text-red-500'>Found "@ + decimal(
                                        c.remaining as nat,
                                    )
                                        + " stale process(es) still running for this instance. Please press Stop again and retry.</span>"@,
                                ),
                            )
                        },
                        _ => if line == "$ bionilux ./bedrock_server"@ {
                            MoveView::Ask(
                                match home {
                                    Some(h) => Effect::OpenFile(joined_path(h, ".box64rc"@)),
                                    None => Effect::Publish(
                                        "Warning: HOME is not set, cannot resolve ~/.box64rc"@,
                                    ),
                                },
                            )
                        } else {
                            spawn
                        },
                    }
                },
                Step::Ask(Effect::OpenFile(p)) => {
                    &&& home matches Some(h) && p == joined_path(h, ".box64rc"@)
                    &&& next == match x {
                        Reply::NotFound => MoveView::Ask(
                            Effect::Publish("Warning: BOX64_RCFILE not found at "@ + p),
                        ),
                        Reply::Failed(e) => MoveView::Ask(
                            Effect::Publish(
                                "Warning: BOX64_RCFILE is not readable at "@ + p + " ("@ + e + ")"@,
                            ),
                        ),
                        _ => spawn,
                    }
                },
                Step::Ask(Effect::Spawn(_)) => next == match x {
                    Reply::Failed(e) => MoveView::Ask(
                        Effect::PublishBeyond("Failed to start server: "@ + e),
                    ),
                    _ => MoveView::Answer(
                        Answer::Html("<span class='text-green-400'>Server started</span>"@),
                    ),
                },
                Step::Ask(Effect::PublishBeyond(_)) => {
                    &&& r.len() > 0
                    &&& r.last() matches Reply::Failed(e) && next == MoveView::Answer(
                        Answer::Html(
                            "<span class='text-red-500'>Failed to start server: "@ + e
                                + "</span>"@,
                        ),
                    )
                },
                Step::Ask(_) => false,
                Step::Answer(a) => next == MoveView::Answer(a),
            }
        }),
{
    reveal_strlit("$ bionilux ./bedrock_server");
    reveal_strlit("Warning: HOME is not set, cannot resolve ~/.box64rc");
    reveal_strlit("Warning: BOX64_RCFILE not found at ");
    reveal_strlit("Warning: BOX64_RCFILE is not readable at ");
    let shown_line = "$ bionilux ./bedrock_server"@;
    assert(shown_line[0] == '$');
    if let Some(h) = home {
        let p = joined_path(h, ".box64rc"@);
        assert(("Warning: BOX64_RCFILE not found at "@ + p)[0] == 'W');
        assert forall|e: Seq<char>| #[trigger]
            ("Warning: BOX64_RCFILE is not readable at "@ + p + " ("@ + e + ")"@)[0] == 'W' by {}
    }
    let q = r.push(x);
    assert forall|j: int| 0 <= j < r.len() implies q[j] == r[j] by {}
    assert(q[r.len() as int] == x);
}

/// A server that is started under bionilux keeps the device awake, shows what Box64 says
/// at its start, and finds the settings of Box64; one that is started by itself has no
/// variables of its own.
pub proof fn law_command_of_a_server(launch: Launch<Seq<char>>)
    ensures
        ({
            let c = command_for(launch);
            if launch.bionilux {
                &&& c.program == "bionilux"@
                &&& c.args == seq!["./bedrock_server"@]
                &&& c.vars.contains(("BIONILUX_WAKELOCK"@, "1"@))
                &&& c.vars.contains(("BOX64_LOG"@, "1"@))
                &&& c.vars.contains(("BOX64_NOBANNER"@, "0"@))
                &&& launch.rcfile matches Some(p) ==> c.vars.contains(("BOX64_RCFILE"@, p))
                &&& c.vars.len() == if launch.rcfile is Some {
                    4int
                } else {
                    3int
                }
            } else {
                &&& c.program == "./bedrock_server"@
                &&& c.args.len() == 0
                &&& c.vars.len() == 0
            }
        }),
{
    let v = bionilux_vars(launch.rcfile);
    assert(v[0] == ("BIONILUX_WAKELOCK"@, "1"@));
    assert(v[1] == ("BOX64_LOG"@, "1"@));
    assert(v[2] == ("BOX64_NOBANNER"@, "0"@));
    if let Some(p) = launch.rcfile {
        assert(v[3] == ("BOX64_RCFILE"@, p));
    }
}

/// Stopping a server on request goes on as each reply asks for. What came of it is
/// shown; where there was no process, those left over from before are cleaned up, and
/// it is shown how many that were.
pub proof fn law_stop_request_goes_on(
    instances: Seq<char>,
    name: Seq<char>,
    r: Seq<Told>,
    x: Told,
)
    ensures
        stopping_server(instances, name, Seq::empty()) == MoveView::Ask(Effect::IsRegistered(name)),
        ({
            let none = "<span class='text-slate-500'>No process found</span>"@;
            let next = stopping_server(instances, name, r.push(x));
            match stopping_server(instances, name, r) {
                Step::Ask(Effect::IsRegistered(n)) => n == name && next == (if x == Told::Flag(
                    true,
                ) {
                    MoveView::Ask(Effect::StopProcess)
                } else {
                    MoveView::Answer(
                        Answer::Html("<span class='text-red-500'>Instance not found</span>"@),
                    )
                }),
                Step::Ask(Effect::StopProcess) => x matches Reply::Outcome(o) ==> next == match o {
                    StopProcessOutcome::NoProcess => MoveView::Ask(
                        Effect::CleanupStale(joined_path(instances, name)),
                    ),
                    StopProcessOutcome::Graceful => MoveView::Answer(
                        Answer::Html(
                            "<span class='text-rose-400'>Shutdown complete (graceful)</span>"@,
                        ),
                    ),
                    StopProcessOutcome::CtrlCFallback => MoveView::Answer(
                        Answer::Html(
                            "<span class='text-amber-300'>Shutdown complete (Ctrl+C fallback)</span>"@,
                        ),
                    ),
                    StopProcessOutcome::ForceKilled => MoveView::Answer(
                        Answer::Html(
                            "<span class='text-amber-300'>Shutdown complete (force killed)</span>"@,
                        ),
                    ),
                    StopProcessOutcome::ForceKillTimedOut => MoveView::Answer(
                        Answer::Html("<span class='text-red-500'>Force kill timed out</span>"@),
                    ),
                    StopProcessOutcome::Error(e) => MoveView::Answer(
                        Answer::Html("<span class='text-red-500'>"@ + e + "</span>"@),
                    ),
                },
                Step::Ask(Effect::CleanupStale(p)) => x matches Reply::Cleanup(c) ==> next
                    == MoveView::Answer(
                    Answer::Html(
                        if c.matched == 0 {
                            none
                        } else if c.remaining > 0 {
                            "<span class='text-red-500'>Cleaned "@ + decimal(c.cleaned as nat)
                                + " stale process(es), but "@ + decimal(c.remaining as nat)
                                + " still running</span>"@
                        } else if c.cleaned == 1 {
                            "<span class='text-amber-300'>Shutdown complete (cleaned "@ + decimal(1)
                                + " stale process"@ + ""@ + ")</span>"@
                        } else {
                            "<span class='text-amber-300'>Shutdown complete (cleaned "@ + decimal(
                                c.cleaned as nat,
                            ) + " stale process"@ + "es"@ + ")</span>"@
                        },
                    ),
                ),
                Step::Ask(_) => false,
                Step::Answer(a) => next == MoveView::Answer(a),
            }
        }),
{
    let q = r.push(x);
    assert forall|j: int| 0 <= j < r.len() implies q[j] == r[j] by {}
    assert(q[r.len() as int] == x);
}

} // verus!
