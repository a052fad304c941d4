use minara::effects::{
    Answer, Effect, Given, Heard, Launch, Move, Reply, StaleProcessCleanupOutcome, Step,
    StopProcessOutcome, Task,
};
use minara::processes::{
    find_server_memory, force_kill_slot, list_stale_instance_runtime_pids, looks_like_server,
    names_directory, pid_is_alive,
    process_slot_is_running, push_log, send_ctrl_c_to_slot, still_alive, stop_outcome_to_html,
    stop_process_with_escalation, stream_greeting, stream_line, wait_for_slot_exit, Cleanup, CleanupStep, ProcessInfo,
    ProcessStatus, SlotCheck,
};
use minara::server_api::{launch_command, send_input, start_server, stop_server, use_bionilux, CommandLine};

fn s(t: &str) -> String {
    t.to_string()
}

fn text(t: &str) -> Heard {
    Reply::Text(s(t))
}

fn failed(t: &str) -> Heard {
    Reply::Failed(s(t))
}

fn yes() -> Heard {
    Reply::Flag(true)
}

fn no() -> Heard {
    Reply::Flag(false)
}

fn html(t: &str) -> Given {
    Answer::Html(s(t))
}

fn cleanup(matched: usize, cleaned: usize, remaining: usize) -> Heard {
    Reply::Cleanup(StaleProcessCleanupOutcome { matched, cleaned, remaining })
}

fn drive(f: &dyn Fn(&Vec<Heard>) -> Move, script: Vec<Heard>) -> (Vec<Effect<String, Vec<u8>>>, Given) {
    let mut asked = Vec::new();
    let mut replies = Vec::new();
    let mut next = script.into_iter();
    loop {
        match f(&replies) {
            Step::Ask(e) => {
                asked.push(e);
                replies.push(next.next().unwrap());
            }
            Step::Answer(a) => return (asked, a),
        }
    }
}

fn run(f: &dyn Fn(&Vec<Heard>) -> Task, script: Vec<Heard>) -> (Vec<Effect<String, Vec<u8>>>, Heard) {
    let mut asked = Vec::new();
    let mut replies = Vec::new();
    let mut next = script.into_iter();
    loop {
        match f(&replies) {
            Step::Ask(e) => {
                asked.push(e);
                replies.push(next.next().unwrap());
            }
            Step::Answer(a) => return (asked, a),
        }
    }
}

fn process(pid: &str, comm: &str, cmdline: &[u8], cwd: Option<&str>, exe: Option<&str>) -> ProcessInfo<String, Vec<u8>> {
    ProcessInfo {
        pid_text: s(pid),
        comm: Some(s(comm)),
        cmdline: cmdline.to_vec(),
        cwd: cwd.map(|p| p.to_string()),
        exe: exe.map(|p| p.to_string()),
    }
}

#[test]
fn processes_that_were_left_behind() {
    let list = vec![
        process("900", "bedrock_server\n", b"./bedrock_server\0", Some("/i/one"), None),
        process("30", "BOX64", b"box64\0/i/one/bedrock_server\0", None, None),
        process("31", "sh", b"sh\0-c\0BioNilux ./x\0/i/one\0", None, None),
        process("32", "bedrock_server", b"./bedrock_server\0", Some("/i/one2"), Some("/i/one2/x")),
        process("33", "bedrock_server", b"x\0", None, Some("/i/one/bin/bedrock_server")),
        process("34", "vim", b"vim\0/i/one/server.properties\0", Some("/i/one"), None),
        process("77", "bedrock_server", b"x\0", Some("/i/one"), None),
        process("1", "bedrock_server", b"x\0", Some("/i/one"), None),
        process("self", "bedrock_server", b"x\0", Some("/i/one"), None),
        process("99999999999", "bedrock_server", b"x\0", Some("/i/one"), None),
        process("900", "bedrock_server", b"", Some("/i/one/"), None),
        process("35", "bedrock_server", b"\xff\0/i/oneX\0", None, None),
    ];
    assert_eq!(list_stale_instance_runtime_pids(&list, "/i/one", 77), vec![30, 31, 33, 900]);
    assert_eq!(list_stale_instance_runtime_pids(&vec![], "/i/one", 77), Vec::<i32>::new());
}

#[test]
fn relative_places_of_processes() {
    let found = |cwd: &str, root: &str| {
        let list = vec![process("30", "bedrock_server", b"x\0", Some(cwd), None)];
        list_stale_instance_runtime_pids(&list, root, 77) == vec![30]
    };
    for path in ["a", "a/b", "./a", "./a/b", "a/./b", "/a", "/./a", ".", "", "b"] {
        for root in ["a", "./a", "a/.", "/a", ".", "", "/"] {
            let expected = std::path::Path::new(path).starts_with(root);
            assert_eq!(found(path, root), expected, "{} {}", path, root);
        }
    }
}

#[test]
fn a_process_without_a_name_goes_by_its_command_line() {
    let mut p = process("40", "", b"/i/one/bedrock_server\0", None, None);
    p.comm = None;
    assert_eq!(list_stale_instance_runtime_pids(&vec![p], "/i/one", 1), vec![40]);
}

#[test]
fn processes_by_their_texts() {
    assert!(looks_like_server(&Some(s(" Bionilux\n")), ""));
    assert!(looks_like_server(&None, "qemu\0BOX64\0"));
    assert!(!looks_like_server(&Some(s("sh")), "box\06\04"));
    assert!(names_directory("/i/one", "/i/one"));
    assert!(names_directory("/i/one/x", "/i/one"));
    assert!(!names_directory("/i/one2", "/i/one"));
}

#[test]
fn states_of_processes() {
    assert!(pid_is_alive(&Some(s("12 (bedrock) S 1 2"))));
    assert!(!pid_is_alive(&Some(s("12 (bedrock) Z 1 2"))));
    assert!(pid_is_alive(&Some(s("12 (a b) Z"))));
    assert!(pid_is_alive(&Some(s("12"))));
    assert!(!pid_is_alive(&None));
    assert_eq!(
        still_alive(&vec![1, 2, 3], &vec![Some(s("1 (x) R")), None, Some(s("3 (x) Z"))]),
        vec![1]
    );
}

#[test]
fn processes_are_cleaned_up_in_two_waits() {
    let alive = || Some(s("1 (x) S"));
    let mut c = Cleanup::begin(vec![10, 20, 30]).unwrap();
    assert_eq!(c.next(&vec![alive(), alive(), alive()], false), CleanupStep::Sleep);
    assert_eq!(c.next(&vec![None, alive(), alive()], true), CleanupStep::Kill(vec![20, 30]));
    assert_eq!(c.next(&vec![None, alive(), alive()], false), CleanupStep::Sleep);
    assert_eq!(
        c.next(&vec![None, None, alive()], true),
        CleanupStep::Over(StaleProcessCleanupOutcome { matched: 3, cleaned: 2, remaining: 1 })
    );
    let mut c = Cleanup::begin(vec![10]).unwrap();
    assert_eq!(c.next(&vec![None], false), CleanupStep::Kill(vec![]));
    assert_eq!(
        c.next(&vec![None], false),
        CleanupStep::Over(StaleProcessCleanupOutcome { matched: 1, cleaned: 1, remaining: 0 })
    );
    assert!(Cleanup::begin(vec![]).is_none());
    assert_eq!(
        StaleProcessCleanupOutcome::none(),
        StaleProcessCleanupOutcome { matched: 0, cleaned: 0, remaining: 0 }
    );
}

#[test]
fn what_is_seen_of_a_server() {
    assert_eq!(process_slot_is_running(SlotCheck::Empty), (false, false));
    assert_eq!(process_slot_is_running(SlotCheck::Running), (true, false));
    assert_eq!(process_slot_is_running(SlotCheck::Exited), (false, true));
    assert_eq!(process_slot_is_running(SlotCheck::Unknown), (false, true));
}

#[test]
fn waiting_for_a_server_to_be_gone() {
    let wait = |r: &Vec<Heard>| wait_for_slot_exit(5000, r);
    let (asked, answer) = run(&wait, vec![yes(), no(), Reply::Done, no()]);
    assert_eq!(
        asked,
        vec![
            Effect::SlotRunning,
            Effect::HasPassed(5000),
            Effect::Sleep(120),
            Effect::SlotRunning,
        ]
    );
    assert_eq!(answer, yes());
    assert_eq!(run(&wait, vec![yes(), yes()]).1, no());
    assert_eq!(run(&wait, vec![no()]).1, yes());
}

#[test]
fn interrupts() {
    let (asked, answer) = run(&send_ctrl_c_to_slot, vec![Reply::Pid(Some(42)), Reply::Done]);
    assert_eq!(asked, vec![Effect::SlotPid, Effect::Interrupt(42)]);
    assert_eq!(answer, Reply::Done);
    assert_eq!(run(&send_ctrl_c_to_slot, vec![Reply::Pid(Some(42)), Reply::NotFound]).1, Reply::Done);
    assert_eq!(run(&send_ctrl_c_to_slot, vec![Reply::Pid(Some(42)), failed("e")]).1, failed("e"));
    assert_eq!(run(&send_ctrl_c_to_slot, vec![Reply::Nothing]).1, Reply::Done);
    assert_eq!(
        run(&send_ctrl_c_to_slot, vec![Reply::Pid(None)]).1,
        failed("child pid is unavailable")
    );
    assert_eq!(
        run(&send_ctrl_c_to_slot, vec![Reply::Pid(Some(2147483648))]).1,
        failed("child pid is out of range")
    );
    let (asked, _) = run(&send_ctrl_c_to_slot, vec![Reply::Pid(Some(2147483647)), Reply::Done]);
    assert_eq!(asked[1], Effect::Interrupt(2147483647));
}

#[test]
fn kills() {
    assert_eq!(run(&force_kill_slot, vec![Reply::Done]).1, Reply::Done);
    assert_eq!(run(&force_kill_slot, vec![Reply::NotFound]).1, Reply::Done);
    assert_eq!(run(&force_kill_slot, vec![Reply::Nothing]).1, Reply::Done);
    assert_eq!(run(&force_kill_slot, vec![failed("e")]).1, failed("e"));
}

fn stop(script: Vec<Heard>) -> (Vec<Effect<String, Vec<u8>>>, StopProcessOutcome<String>) {
    match run(&stop_process_with_escalation, script) {
        (asked, Reply::Outcome(o)) => (asked, o),
        (_, other) => panic!("{:?}", other),
    }
}

#[test]
fn a_server_is_stopped_harder_and_harder() {
    assert_eq!(stop(vec![no()]).1, StopProcessOutcome::NoProcess);
    assert_eq!(stop(vec![yes(), Reply::Done, yes()]).1, StopProcessOutcome::Graceful);
    assert_eq!(
        stop(vec![yes(), Reply::Done, no(), Reply::Done, yes()]).1,
        StopProcessOutcome::CtrlCFallback
    );
    let (asked, outcome) = stop(vec![yes(), Reply::Done, no(), Reply::Done, no(), Reply::Done, yes()]);
    assert_eq!(
        asked,
        vec![
            Effect::SlotRunning,
            Effect::SendInput(s("stop\n")),
            Effect::WaitExit(5000),
            Effect::CtrlC,
            Effect::WaitExit(5000),
            Effect::ForceKill,
            Effect::WaitExit(5000),
        ]
    );
    assert_eq!(outcome, StopProcessOutcome::ForceKilled);
    let (asked, outcome) = stop(vec![yes(), Reply::Done, no(), failed("e"), Reply::Done, no()]);
    assert_eq!(asked[4], Effect::ForceKill);
    assert_eq!(outcome, StopProcessOutcome::ForceKillTimedOut);
}

#[test]
fn each_failure_to_stop() {
    let e = |t: &str| StopProcessOutcome::Error(s(t));
    assert_eq!(stop(vec![yes(), Reply::Done, failed("x")]).1, e("Stop check failed: x"));
    assert_eq!(
        stop(vec![yes(), Reply::Done, no(), Reply::Done, failed("x")]).1,
        e("Ctrl+C stop check failed: x")
    );
    assert_eq!(
        stop(vec![yes(), Reply::Done, no(), failed("c"), failed("x")]).1,
        e("Ctrl+C fallback failed (c) and force kill failed: x")
    );
    assert_eq!(
        stop(vec![yes(), Reply::Done, no(), Reply::Done, no(), failed("x")]).1,
        e("Force kill failed: x")
    );
    assert_eq!(
        stop(vec![yes(), Reply::Done, no(), failed("c"), Reply::Done, failed("x")]).1,
        e("Force kill check failed: x")
    );
}

#[test]
fn what_is_shown_of_a_stop() {
    let shown = |o: StopProcessOutcome<String>| stop_outcome_to_html(&o);
    assert_eq!(
        shown(StopProcessOutcome::NoProcess),
        "<span class='text-slate-500'>No process found</span>"
    );
    assert_eq!(
        shown(StopProcessOutcome::ForceKillTimedOut),
        "<span class='text-red-500'>Force kill timed out</span>"
    );
    assert_eq!(
        shown(StopProcessOutcome::Error(s("why"))),
        "<span class='text-red-500'>why</span>"
    );
    for o in [
        StopProcessOutcome::Graceful,
        StopProcessOutcome::CtrlCFallback,
        StopProcessOutcome::ForceKilled,
    ] {
        assert!(shown(o).contains("Shutdown complete"));
    }
}

#[test]
fn a_log_keeps_its_newest_lines() {
    let mut log: Vec<String> = Vec::new();
    let mut i = 0;
    while i < 250 {
        push_log(&mut log, format!("line {}", i));
        i += 1;
    }
    assert_eq!(log.len(), 200);
    assert_eq!(log[0], "line 50");
    assert_eq!(log[199], "line 249");
}

#[test]
fn lines_of_the_console() {
    assert_eq!(stream_line(Some("hello")), "<div>hello</div>");
    assert_eq!(stream_line(None), "<div>[Log Overflow]</div>");
    assert_eq!(stream_greeting(true), None);
    assert_eq!(stream_greeting(false), Some(s("Instance not found")));
}

fn status(pid: Option<&str>, comm: Option<&str>, status: Option<&str>) -> ProcessStatus<String> {
    ProcessStatus {
        pid_text: pid.map(|t| t.to_string()),
        comm: comm.map(|t| t.to_string()),
        status: status.map(|t| t.to_string()),
    }
}

#[test]
fn the_memory_of_a_server() {
    let told = "Name:\tbedrock_server\nVmRSS:\t  123456 kB\nVmSwap: 0 kB\n";
    let list = vec![
        status(Some("acpi"), None, None),
        status(Some("7"), Some("sh\n"), None),
        status(Some("8"), Some("bedrock_server\n"), Some("Name: x\n")),
        status(Some("9"), Some("bedrock_server\n"), Some(told)),
    ];
    assert_eq!(find_server_memory(&list), Some(s("123456")));
    assert_eq!(find_server_memory(&vec![]), None);
    assert_eq!(
        find_server_memory(&vec![status(None, None, None), status(Some("9"), Some("bedrock_server"), Some(told))]),
        None
    );
    assert_eq!(
        find_server_memory(&vec![status(Some("1"), None, None), status(Some("9"), Some("bedrock_server"), Some(told))]),
        None
    );
    assert_eq!(find_server_memory(&vec![status(Some("9"), Some("bedrock_server"), None)]), None);
    assert_eq!(
        find_server_memory(&vec![status(Some("9"), Some("bedrock_server"), Some("VmRSS:\n"))]),
        None
    );
}

fn start(development: bool, arch: &str, home: Option<&str>, script: Vec<Heard>) -> (Vec<Effect<String, Vec<u8>>>, Given) {
    let step = |r: &Vec<Heard>| start_server("/i", "one", development, arch, home, r);
    drive(&step, script)
}

#[test]
fn a_server_is_started_under_bionilux() {
    let (asked, answer) = start(
        false,
        "x86_64",
        Some("/home/u"),
        vec![
            yes(),
            Reply::Done,
            no(),
            cleanup(0, 0, 0),
            Reply::Done,
            Reply::Done,
            Reply::Done,
        ],
    );
    assert_eq!(
        asked,
        vec![
            Effect::IsDir(s("/i/one")),
            Effect::Register(s("one")),
            Effect::SlotRunning,
            Effect::CleanupStale(s("/i/one")),
            Effect::Publish(s("$ bionilux ./bedrock_server")),
            Effect::OpenFile(s("/home/u/.box64rc")),
            Effect::Spawn(Launch {
                bionilux: true,
                rcfile: Some(s("/home/u/.box64rc")),
                directory: s("/i/one"),
            }),
        ]
    );
    assert_eq!(answer, html("<span class='text-green-400'>Server started</span>"));
}

#[test]
fn a_server_is_started_by_itself_in_development() {
    let (asked, _) = start(
        true,
        "x86_64",
        None,
        vec![yes(), Reply::Done, no(), cleanup(2, 2, 0), Reply::Done, Reply::Done],
    );
    assert_eq!(
        asked[4..],
        vec![
            Effect::Publish(s("Recovered: cleaned 2 stale process(es) before startup.")),
            Effect::Spawn(Launch { bionilux: false, rcfile: None, directory: s("/i/one") }),
        ]
    );
    assert!(use_bionilux(true, "aarch64"));
    assert!(!use_bionilux(true, "x86_64"));
    assert!(use_bionilux(false, "x86_64"));
}

#[test]
fn the_command_of_a_server() {
    let launch = |bionilux: bool, rcfile: Option<&str>| Launch {
        bionilux,
        rcfile: rcfile.map(|p| p.to_string()),
        directory: s("/i/one"),
    };
    let fixed = vec![
        (s("BIONILUX_WAKELOCK"), s("1")),
        (s("BOX64_LOG"), s("1")),
        (s("BOX64_NOBANNER"), s("0")),
    ];
    assert_eq!(
        launch_command(&launch(false, None)),
        CommandLine { program: s("./bedrock_server"), args: vec![], vars: vec![] }
    );
    assert_eq!(
        launch_command(&launch(true, None)),
        CommandLine { program: s("bionilux"), args: vec![s("./bedrock_server")], vars: fixed.clone() }
    );
    let mut vars = fixed;
    vars.push((s("BOX64_RCFILE"), s("/home/u/.box64rc")));
    assert_eq!(
        launch_command(&launch(true, Some("/home/u/.box64rc"))),
        CommandLine { program: s("bionilux"), args: vec![s("./bedrock_server")], vars }
    );
}

#[test]
fn warnings_about_box64() {
    let begun = |reply: Heard| vec![yes(), Reply::Done, no(), cleanup(0, 0, 0), Reply::Done, reply, Reply::Done, Reply::Done];
    let (asked, _) = start(false, "a", Some("/h"), begun(Reply::NotFound));
    assert_eq!(asked[6], Effect::Publish(s("Warning: BOX64_RCFILE not found at /h/.box64rc")));
    assert!(matches!(asked[7], Effect::Spawn(_)));
    let (asked, _) = start(false, "a", Some("/h"), begun(failed("denied")));
    assert_eq!(
        asked[6],
        Effect::Publish(s("Warning: BOX64_RCFILE is not readable at /h/.box64rc (denied)"))
    );
    let (asked, _) = start(
        false,
        "a",
        None,
        vec![yes(), Reply::Done, no(), cleanup(0, 0, 0), Reply::Done, Reply::Done, Reply::Done],
    );
    assert_eq!(
        asked[5],
        Effect::Publish(s("Warning: HOME is not set, cannot resolve ~/.box64rc"))
    );
    assert_eq!(
        asked[6],
        Effect::Spawn(Launch { bionilux: true, rcfile: None, directory: s("/i/one") })
    );
}

#[test]
fn each_failure_to_start() {
    assert_eq!(
        start(false, "a", None, vec![no()]).1,
        html("<span class='text-red-500'>Instance not found</span>")
    );
    assert_eq!(
        start(false, "a", None, vec![yes(), Reply::Done, yes()]).1,
        html("<span class='text-yellow-500'>Server is already running.</span>")
    );
    let (asked, answer) = start(
        false,
        "a",
        None,
        vec![yes(), Reply::Done, no(), cleanup(3, 1, 2), Reply::Done],
    );
    assert_eq!(
        asked[4],
        Effect::Publish(s(
            "Warning: detected 3 stale process(es), cleaned 1, 2 still running."
        ))
    );
    assert_eq!(
        answer,
        html("<span class='text-red-500'>Found 2 stale process(es) still running for this instance. Please press Stop again and retry.</span>")
    );
    let (asked, answer) = start(
        true,
        "a",
        None,
        vec![yes(), Reply::Done, no(), cleanup(0, 0, 0), failed("no such file"), Reply::Done],
    );
    assert_eq!(asked[5], Effect::PublishBeyond(s("Failed to start server: no such file")));
    assert_eq!(
        answer,
        html("<span class='text-red-500'>Failed to start server: no such file</span>")
    );
}

fn halt(script: Vec<Heard>) -> (Vec<Effect<String, Vec<u8>>>, Given) {
    let step = |r: &Vec<Heard>| stop_server("/i", "one", r);
    drive(&step, script)
}

#[test]
fn a_server_is_stopped_on_request() {
    assert_eq!(
        halt(vec![no()]).1,
        html("<span class='text-red-500'>Instance not found</span>")
    );
    let (asked, answer) = halt(vec![yes(), Reply::Outcome(StopProcessOutcome::Graceful)]);
    assert_eq!(asked, vec![Effect::IsRegistered(s("one")), Effect::StopProcess]);
    assert_eq!(answer, html("<span class='text-rose-400'>Shutdown complete (graceful)</span>"));
    let gone = || Reply::Outcome(StopProcessOutcome::NoProcess);
    let (asked, answer) = halt(vec![yes(), gone(), cleanup(0, 0, 0)]);
    assert_eq!(asked[2], Effect::CleanupStale(s("/i/one")));
    assert_eq!(answer, html("<span class='text-slate-500'>No process found</span>"));
    assert_eq!(
        halt(vec![yes(), gone(), cleanup(1, 1, 0)]).1,
        html("<span class='text-amber-300'>Shutdown complete (cleaned 1 stale process)</span>")
    );
    assert_eq!(
        halt(vec![yes(), gone(), cleanup(2, 2, 0)]).1,
        html("<span class='text-amber-300'>Shutdown complete (cleaned 2 stale processes)</span>")
    );
    assert_eq!(
        halt(vec![yes(), gone(), cleanup(3, 1, 2)]).1,
        html("<span class='text-red-500'>Cleaned 1 stale process(es), but 2 still running</span>")
    );
}

fn input(command: &str, script: Vec<Heard>) -> (Vec<Effect<String, Vec<u8>>>, Given) {
    let step = |r: &Vec<Heard>| send_input("one", command, r);
    drive(&step, script)
}

#[test]
fn commands_for_the_server() {
    let (asked, answer) = input("  Say Hi ", vec![yes(), Reply::Done, yes(), Reply::Done]);
    assert_eq!(
        asked,
        vec![
            Effect::IsRegistered(s("one")),
            Effect::Publish(s("> Say Hi")),
            Effect::SlotRunning,
            Effect::SendInput(s("Say Hi\n")),
        ]
    );
    assert_eq!(answer, html("<span class='text-blue-400'>Command sent</span>"));
    let offline = || html("<span class='text-red-500'>Server Offline</span>");
    assert_eq!(input("x", vec![yes(), Reply::Done, no()]).1, offline());
    assert_eq!(input("x", vec![yes(), Reply::Done, yes(), Reply::Nothing]).1, offline());
    assert_eq!(
        input("   ", vec![yes()]).1,
        html("<span class='text-slate-500'>Command is empty</span>")
    );
    assert_eq!(
        input("x", vec![no()]).1,
        html("<span class='text-red-500'>Instance not found</span>")
    );
}

#[test]
fn commands_for_the_panel() {
    let (asked, answer) = input("START", vec![yes(), Reply::Done, text("started")]);
    assert_eq!(asked[1], Effect::Publish(s("> START")));
    assert_eq!(asked[2], Effect::StartServer(s("one")));
    assert_eq!(answer, html("started"));
    let (asked, answer) = input("Stop", vec![yes(), Reply::Done, text("stopped")]);
    assert_eq!(asked[2], Effect::StopServer(s("one")));
    assert_eq!(answer, html("stopped"));
}

#[test]
fn a_restart_waits_after_a_shutdown() {
    let (asked, answer) = input(
        "restart",
        vec![yes(), Reply::Done, text("Shutdown complete (graceful)"), Reply::Done, text("up")],
    );
    assert_eq!(
        asked[2..],
        vec![
            Effect::StopServer(s("one")),
            Effect::Sleep(900),
            Effect::StartServer(s("one")),
        ]
    );
    assert_eq!(answer, html("up"));
    let (asked, _) = input("restart", vec![yes(), Reply::Done, text("No process found"), text("up")]);
    assert_eq!(asked[3], Effect::StartServer(s("one")));
    let (asked, answer) = input("restart", vec![yes(), Reply::Done, text("<b>Instance not found</b>")]);
    assert_eq!(asked.len(), 3);
    assert_eq!(answer, html("<b>Instance not found</b>"));
}
