use minara::effects::{Answer, Effect, Given, Heard, HostStats, Move, Reply, Step, Task};
use minara::startup::{
    api_device_stats, base_url, best_private_address, check_asmo_readiness,
    detect_panel_host_ip, detect_private_ipv4_from_hostname, detect_private_ipv4_from_udp_probe,
    ensure_minara_data_dirs, get_backups_dir, get_instances_dir, get_minara_data_dir, ip_text,
    panel_url, parse_ipv4, private_ipv4_priority, startup_banner, tell_device, Ipv4,
};
use minara::system_stats::{
    api_host_stats, cpu_counts_fit, cpu_usage, format_uptime_human, host_counts_fit, memory_fits,
    read_first_word, read_host_cpu_snapshot, read_host_disk_mb, read_host_memory_mb, HostCpuSnapshot,
};

fn s(t: &str) -> String {
    t.to_string()
}

fn text(t: &str) -> Heard {
    Reply::Text(s(t))
}

fn failed(t: &str) -> Heard {
    Reply::Failed(s(t))
}

fn error(t: &str) -> Given {
    Answer::Error(s(t))
}

fn ok(t: &str) -> Result<String, String> {
    Ok(s(t))
}

fn drive(f: &dyn Fn(&Vec<Heard>) -> Move, script: Vec<Heard>) -> (Vec<Effect<String, Vec<u8>>>, Given) {
    let mut asked = Vec::new();
    let mut replies = Vec::new();
    let mut next = script.into_iter();
    loop {
        match f(&replies) {
            Step::Ask(e) => {
                asked.push(e);
                replies.push(next.next().unwrap());
            }
            Step::Answer(a) => return (asked, a),
        }
    }
}

fn run(f: &dyn Fn(&Vec<Heard>) -> Task, script: Vec<Heard>) -> (Vec<Effect<String, Vec<u8>>>, Heard) {
    let mut asked = Vec::new();
    let mut replies = Vec::new();
    let mut next = script.into_iter();
    loop {
        match f(&replies) {
            Step::Ask(e) => {
                asked.push(e);
                replies.push(next.next().unwrap());
            }
            Step::Answer(a) => return (asked, a),
        }
    }
}

const STAT: &str = "intr 5\ncpu  10 1 5 100 20 0 x 4\ncpu0 1 1 1 1\n";
const MEMINFO: &str = "MemTotal:       8192000 kB\nMemFree:  1 kB\nMemAvailable:   4096000 kB\n";
const DF: &str = "Filesystem 1024-blocks Used Available\n/dev/sda1 2048000 1024000 1 50% /\n";

#[test]
fn counts_of_the_processor() {
    let snapshot = read_host_cpu_snapshot(&ok(STAT));
    assert_eq!(snapshot, Ok(HostCpuSnapshot { total: 140, idle: 120 }));
    assert_eq!(
        read_host_cpu_snapshot(&ok("cpu  1 2 3 4")),
        Ok(HostCpuSnapshot { total: 10, idle: 4 })
    );
    assert_eq!(
        read_host_cpu_snapshot(&ok("cpu  1 2 3")),
        Err(s("CPU stats were incomplete"))
    );
    assert_eq!(
        read_host_cpu_snapshot(&ok("cpu0 1 2 3 4")),
        Err(s("CPU stats line not found in /proc/stat"))
    );
    assert_eq!(
        read_host_cpu_snapshot(&Err(s("denied"))),
        Err(s("Failed to read /proc/stat: denied"))
    );
    assert!(cpu_counts_fit(&ok(STAT)));
    assert!(!cpu_counts_fit(&ok("cpu  18446744073709551615 1 0 0")));
}

#[test]
fn usage_of_the_processor() {
    let at = |total: u64, idle: u64| HostCpuSnapshot { total, idle };
    assert_eq!(cpu_usage(None, at(100, 50)), (0, 0));
    assert_eq!(cpu_usage(Some(at(100, 50)), at(200, 75)), (75, 100));
    assert_eq!(cpu_usage(Some(at(100, 50)), at(110, 90)), (0, 10));
    assert_eq!(cpu_usage(Some(at(100, 50)), at(90, 40)), (0, 0));
}

#[test]
fn counts_of_the_memory() {
    assert_eq!(read_host_memory_mb(&ok(MEMINFO)), Ok((8000, 4000)));
    let old = "MemTotal: 4096 kB\nMemFree: 1024 kB\n\nBuffers: x\nCached: 1024 kB\n";
    assert_eq!(read_host_memory_mb(&ok(old)), Ok((4, 2)));
    assert_eq!(read_host_memory_mb(&ok("MemTotal: 10\nMemAvailable: 20\n")), Ok((0, 0)));
    assert_eq!(
        read_host_memory_mb(&ok("MemTotal: 1024\nMemTotal: x\n")),
        Err(s("MemTotal missing in /proc/meminfo"))
    );
    assert_eq!(
        read_host_memory_mb(&Err(s("denied"))),
        Err(s("Failed to read /proc/meminfo: denied"))
    );
    assert!(memory_fits(&ok(MEMINFO)));
    assert!(!memory_fits(&ok("MemTotal: 1\nMemFree: 18446744073709551615\nCached: 1\n")));
    let untold = ok("MemFree: 18446744073709551615\nCached: 1\n");
    assert!(memory_fits(&untold));
    assert_eq!(read_host_memory_mb(&untold), Err(s("MemTotal missing in /proc/meminfo")));
    assert!(memory_fits(&Err(s("x"))));
}

#[test]
fn counts_of_the_disk() {
    let output = |t: &str| Reply::Bytes(t.as_bytes().to_vec());
    assert_eq!(read_host_disk_mb(&output(DF)), Ok((2000, 1000)));
    assert_eq!(read_host_disk_mb(&output("head\n")), Err(s("No disk stats returned by df")));
    assert_eq!(read_host_disk_mb(&output("h\na 1\n")), Err(s("Unexpected df output format")));
    assert_eq!(
        read_host_disk_mb(&output("h\na x 1\n")),
        Err(s("Invalid disk total from df: invalid digit found in string"))
    );
    assert_eq!(
        read_host_disk_mb(&output("h\na 1 99999999999999999999\n")),
        Err(s("Invalid disk used from df: number too large to fit in target type"))
    );
    assert_eq!(read_host_disk_mb(&failed("none")), Err(s("Failed to execute df: none")));
    assert_eq!(read_host_disk_mb(&Reply::Nothing), Err(s("df command failed")));
}

#[test]
fn first_words() {
    assert_eq!(read_first_word("/proc/uptime", &ok("12.5 3\n")), ok("12.5"));
    assert_eq!(
        read_first_word("/proc/uptime", &ok(" \n")),
        Err(s("Invalid /proc/uptime format"))
    );
    assert_eq!(
        read_first_word("/proc/loadavg", &Err(s("e"))),
        Err(s("Failed to read /proc/loadavg: e"))
    );
}

#[test]
fn uptimes_as_a_person_reads_them() {
    assert_eq!(format_uptime_human(0), "0m");
    assert_eq!(format_uptime_human(59), "0m");
    assert_eq!(format_uptime_human(3599), "59m");
    assert_eq!(format_uptime_human(3600), "1h 0m");
    assert_eq!(format_uptime_human(86399), "23h 59m");
    assert_eq!(format_uptime_human(86400), "1d 0h");
    assert_eq!(format_uptime_human(200000), "2d 7h");
}

fn host_script() -> Vec<Heard> {
    vec![
        text(STAT),
        Reply::Stats(40, 70),
        text(MEMINFO),
        Reply::Bytes(DF.as_bytes().to_vec()),
        text("3600.5 1\n"),
        Reply::Number(3600),
        text("0.25 0.5\n"),
        Reply::Done,
    ]
}

#[test]
fn the_state_of_the_machine() {
    let (asked, answer) = drive(&api_host_stats, host_script());
    assert_eq!(
        asked,
        vec![
            Effect::ReadText(s("/proc/stat")),
            Effect::SwapSnapshot(140, 120),
            Effect::ReadText(s("/proc/meminfo")),
            Effect::DiskFree(s(".")),
            Effect::ReadText(s("/proc/uptime")),
            Effect::ParseSeconds(s("3600.5")),
            Effect::ReadText(s("/proc/loadavg")),
            Effect::ParseLoad(s("0.25")),
        ]
    );
    assert_eq!(
        answer,
        Answer::HostStats(HostStats {
            cpu_busy: 50,
            cpu_total: 100,
            memory_total_mb: 8000,
            memory_used_mb: 4000,
            disk_total_mb: 2000,
            disk_used_mb: 1000,
            uptime_seconds: 3600,
            uptime_human: s("1h 0m"),
        })
    );
    assert!(host_counts_fit(&host_script()));
    assert!(!host_counts_fit(&vec![text("cpu  18446744073709551615 1 0 0")]));
}

#[test]
fn each_failure_to_tell_the_state() {
    let stop_at = |n: usize, reply: Heard| {
        let mut script: Vec<Heard> = host_script().into_iter().take(n).collect();
        script.push(reply);
        drive(&api_host_stats, script).1
    };
    assert_eq!(stop_at(0, failed("e")), error("Failed to read /proc/stat: e"));
    assert_eq!(stop_at(2, failed("e")), error("Failed to read /proc/meminfo: e"));
    assert_eq!(stop_at(3, failed("e")), error("Failed to execute df: e"));
    assert_eq!(stop_at(4, text("")), error("Invalid /proc/uptime format"));
    assert_eq!(stop_at(5, failed("e")), error("Invalid uptime value: e"));
    assert_eq!(stop_at(6, failed("e")), error("Failed to read /proc/loadavg: e"));
    assert_eq!(stop_at(7, failed("e")), error("Invalid load average value: e"));
}

#[test]
fn where_the_data_stands() {
    assert_eq!(get_minara_data_dir(Some("/home/u")), "/home/u/.local/share/minara");
    assert_eq!(get_minara_data_dir(None), ".minara");
    assert_eq!(get_instances_dir(Some("/home/u")), "/home/u/.local/share/minara/instances");
    assert_eq!(get_backups_dir(None), ".minara/backups");
    let prepare = |r: &Vec<Heard>| ensure_minara_data_dirs(None, r);
    let (asked, answer) = run(&prepare, vec![Reply::Done, Reply::Done]);
    assert_eq!(
        asked,
        vec![
            Effect::CreateDirAll(s(".minara/instances")),
            Effect::CreateDirAll(s(".minara/backups")),
        ]
    );
    assert_eq!(answer, Reply::Done);
    assert_eq!(
        run(&prepare, vec![failed("e")]).1,
        failed("Failed to create instances directory .minara/instances: e")
    );
    assert_eq!(
        run(&prepare, vec![Reply::Done, failed("e")]).1,
        failed("Failed to create backups directory .minara/backups: e")
    );
}

fn ip(a: u8, b: u8, c: u8, d: u8) -> Ipv4 {
    Ipv4 { a, b, c, d }
}

#[test]
fn addresses_are_read_and_written() {
    assert_eq!(parse_ipv4("192.168.0.1"), Some(ip(192, 168, 0, 1)));
    assert_eq!(parse_ipv4("0.0.0.0"), Some(ip(0, 0, 0, 0)));
    for t in ["", "1.2.3", "1.2.3.4.5", "256.1.1.1", "01.2.3.4", "1.2.3.+4", "1.2.3.4 ", "a.b.c.d", "1..2.3", "::1", "1.2.3.0004"] {
        assert_eq!(parse_ipv4(t), None, "{}", t);
    }
    for a in [ip(1, 2, 3, 4), ip(255, 0, 10, 99), ip(192, 168, 100, 200)] {
        assert_eq!(parse_ipv4(&ip_text(a)), Some(a));
    }
    assert_eq!(ip_text(ip(10, 0, 0, 255)), "10.0.0.255");
}

#[test]
fn private_addresses() {
    assert_eq!(private_ipv4_priority(ip(192, 168, 1, 1)), Some(0));
    assert_eq!(private_ipv4_priority(ip(10, 9, 8, 7)), Some(1));
    assert_eq!(private_ipv4_priority(ip(172, 16, 0, 1)), Some(2));
    assert_eq!(private_ipv4_priority(ip(172, 31, 0, 1)), Some(2));
    assert_eq!(private_ipv4_priority(ip(172, 32, 0, 1)), None);
    assert_eq!(private_ipv4_priority(ip(169, 254, 0, 1)), Some(3));
    assert_eq!(private_ipv4_priority(ip(8, 8, 8, 8)), None);
    assert_eq!(
        best_private_address("8.8.8.8 fe80::1 10.0.0.1 192.168.0.5 192.168.0.6 172.17.0.1 \n"),
        Some(ip(192, 168, 0, 5))
    );
    assert_eq!(best_private_address("8.8.8.8"), None);
}

#[test]
fn the_host_of_the_panel() {
    let from = detect_private_ipv4_from_hostname(&Reply::Bytes(b"1.1.1.1 10.1.2.3\n".to_vec()));
    assert_eq!(from, Some(ip(10, 1, 2, 3)));
    assert_eq!(detect_private_ipv4_from_hostname(&Reply::Nothing), None);
    assert_eq!(detect_private_ipv4_from_hostname(&failed("e")), None);
    let probe = detect_private_ipv4_from_udp_probe(Some(ip(192, 168, 7, 7)));
    assert_eq!(probe, Some(ip(192, 168, 7, 7)));
    assert_eq!(detect_private_ipv4_from_udp_probe(Some(ip(9, 9, 9, 9))), None);
    assert_eq!(detect_private_ipv4_from_udp_probe(None), None);
    assert_eq!(detect_panel_host_ip(from, probe), "10.1.2.3");
    assert_eq!(detect_panel_host_ip(None, probe), "192.168.7.7");
    assert_eq!(detect_panel_host_ip(None, None), "localhost");
    assert_eq!(panel_url("10.1.2.3"), "http://10.1.2.3:7777");
}

#[test]
fn the_address_of_the_monitor() {
    assert_eq!(base_url(" localhost:3000/ "), "http://localhost:3000");
    assert_eq!(base_url("https://h//"), "https://h");
    assert_eq!(base_url("http://h"), "http://h");
    assert_eq!(base_url(""), "http://");
}

#[test]
fn the_monitor_answers_or_not() {
    let probe = |r: &Vec<Heard>| check_asmo_readiness("h", r);
    let (asked, answer) = run(&probe, vec![Reply::Number(204)]);
    assert_eq!(asked, vec![Effect::Get(s("http://h/stats"))]);
    assert_eq!(answer, Reply::Flag(true));
    let (asked, answer) = run(&probe, vec![Reply::Number(404), Reply::Number(200)]);
    assert_eq!(asked[1], Effect::Get(s("http://h/")));
    assert_eq!(answer, Reply::Flag(true));
    assert_eq!(run(&probe, vec![Reply::Number(300), Reply::Number(500)]).1, Reply::Flag(false));
    assert_eq!(run(&probe, vec![Reply::Number(500), failed("e")]).1, Reply::Flag(false));
    assert_eq!(run(&probe, vec![failed("e")]).1, Reply::Flag(false));
}

#[test]
fn the_figures_of_the_device() {
    let told = |development: bool, host: Option<&str>, script: Vec<Heard>| {
        let step = |r: &Vec<Heard>| api_device_stats(development, host, "fixed:1", r);
        drive(&step, script)
    };
    let (asked, answer) = told(false, Some("other"), vec![Reply::Number(200), text(" {} ")]);
    assert_eq!(
        asked,
        vec![Effect::Get(s("http://fixed:1/stats")), Effect::ReadBody]
    );
    assert_eq!(answer, Answer::DeviceData(s("{}")));
    assert_eq!(
        told(false, None, vec![Reply::Number(500), text("{ \"cpu\": [1, 2.5, null],\n \"a\": \"b\" }")]).1,
        Answer::DeviceData(s("{\"a\":\"b\",\"cpu\":[1,2.5,null]}"))
    );
    let (asked, _) = told(true, Some(" other/ "), vec![Reply::Done, failed("e")]);
    assert_eq!(
        asked,
        vec![Effect::SaveHost(s("other/")), Effect::Get(s("http://other/stats"))]
    );
    let (asked, _) = told(true, Some(" "), vec![text("saved"), failed("e")]);
    assert_eq!(asked, vec![Effect::LoadHost, Effect::Get(s("http://saved/stats"))]);
    let (asked, answer) = told(true, None, vec![Reply::Nothing, failed("e")]);
    assert_eq!(asked[1], Effect::Get(s("http://fixed:1/stats")));
    assert_eq!(answer, Answer::DeviceError(s("Could not reach device: e")));
    assert_eq!(
        told(false, None, vec![Reply::Number(200), failed("e")]).1,
        Answer::DeviceError(s("Failed to read response: e"))
    );
    assert_eq!(
        told(false, None, vec![Reply::Number(200), text("x")]).1,
        Answer::DeviceError(s("Failed to parse response: expected value at line 1 column 1"))
    );
    assert_eq!(
        told(false, None, vec![Reply::Number(200), text("")]).1,
        Answer::DeviceError(s("Failed to parse response: EOF while parsing a value at line 1 column 0"))
    );
}

#[test]
fn figures_that_were_read_or_not() {
    assert_eq!(tell_device(ok("[1]")), Step::Answer(Answer::DeviceData(s("[1]"))));
    assert_eq!(
        tell_device(Err(s("e"))),
        Step::Answer(Answer::DeviceError(s("Failed to parse response: e")))
    );
}

#[test]
fn the_banner() {
    assert_eq!(
        startup_banner(false, "http://h:7777", true),
        "Minara Panel\nMode        : Production\nPanel URL   : http://h:7777\nAsmo Status : Works\nSetup Guide : https://github.com/theonuverse/asmo\n"
    );
    assert!(startup_banner(true, "u", false).contains("Development"));
    assert!(startup_banner(true, "u", false).contains("Setup required"));
}
