use minara::effects::{Answer, Effect, EntryKind, Given, Heard, Move, Relinking, Reply, Step, Task};
use minara::identity::sha256_hex;
use minara::instance_api::{
    api_check_version, api_create_instance, api_delete_instance, api_instance_ready, api_instances,
    api_rename_instance, api_versions, check_url_exists, download_and_install, download_progress,
    fetch_archive, fetch_versions, index, unpack,
};

const RELEASE: &str =
    "https://www.minecraft.net/bedrockdedicatedserver/bin-linux/bedrock-server-1.2.3.4.zip";
const PREVIEW: &str =
    "https://www.minecraft.net/bedrockdedicatedserver/bin-linux-preview/bedrock-server-1.2.3.4.zip";

fn s(t: &str) -> String {
    t.to_string()
}

fn text(t: &str) -> Heard {
    Reply::Text(s(t))
}

fn failed(t: &str) -> Heard {
    Reply::Failed(s(t))
}

fn yes() -> Heard {
    Reply::Flag(true)
}

fn no() -> Heard {
    Reply::Flag(false)
}

fn error(t: &str) -> Given {
    Answer::Error(s(t))
}

fn drive(f: &dyn Fn(&Vec<Heard>) -> Move, script: Vec<Heard>) -> (Vec<Effect<String, Vec<u8>>>, Given) {
    let mut asked = Vec::new();
    let mut replies = Vec::new();
    let mut next = script.into_iter();
    loop {
        match f(&replies) {
            Step::Ask(e) => {
                asked.push(e);
                replies.push(next.next().unwrap());
            }
            Step::Answer(a) => return (asked, a),
        }
    }
}

fn run(f: &dyn Fn(&Vec<Heard>) -> Task, script: Vec<Heard>) -> (Vec<Effect<String, Vec<u8>>>, Heard) {
    let mut asked = Vec::new();
    let mut replies = Vec::new();
    let mut next = script.into_iter();
    loop {
        match f(&replies) {
            Step::Ask(e) => {
                asked.push(e);
                replies.push(next.next().unwrap());
            }
            Step::Answer(a) => return (asked, a),
        }
    }
}

fn list(f: &dyn Fn(&Vec<Heard>) -> Step<String, Vec<u8>, Vec<String>>, script: Vec<Heard>) -> (Vec<Effect<String, Vec<u8>>>, Vec<String>) {
    let mut asked = Vec::new();
    let mut replies = Vec::new();
    let mut next = script.into_iter();
    loop {
        match f(&replies) {
            Step::Ask(e) => {
                asked.push(e);
                replies.push(next.next().unwrap());
            }
            Step::Answer(a) => return (asked, a),
        }
    }
}

fn entry(name: &str) -> Heard {
    Reply::Entry(format!("/i/{}", name), Some(s(name)))
}

fn directory() -> Heard {
    Reply::Kind(EntryKind::Directory)
}

#[test]
fn instances_are_listed_in_order() {
    let for_page = |r: &Vec<Heard>| index("/i", r);
    let script = vec![
        Reply::Done,
        entry("b"),
        directory(),
        entry("file"),
        Reply::Kind(EntryKind::File),
        failed("unreadable"),
        Reply::Entry(s("/i/\u{fffd}"), None),
        directory(),
        entry("gone"),
        failed("gone"),
        entry("link"),
        Reply::Kind(EntryKind::Other),
        entry("a"),
        directory(),
        entry("B"),
        directory(),
        Reply::Nothing,
    ];
    let (asked, names) = list(&for_page, script);
    assert_eq!(names, vec![s("B"), s("a"), s("b")]);
    assert_eq!(
        asked[..3],
        [Effect::OpenDir(s("/i")), Effect::NextEntry(s("/i")), Effect::EntryKind(s("/i/b"))]
    );
    assert!(!asked.iter().any(|e| matches!(e, Effect::EnsureIdentity(_))));
    assert_eq!(list(&for_page, vec![failed("denied")]).1, Vec::<String>::new());
    assert_eq!(list(&for_page, vec![Reply::Done, Reply::Nothing]).1, Vec::<String>::new());
}

#[test]
fn listed_instances_get_an_identity() {
    let for_request = |r: &Vec<Heard>| api_instances("/i", r);
    let script = vec![
        Reply::Done,
        entry("b"),
        directory(),
        text("id"),
        entry("file"),
        Reply::Kind(EntryKind::File),
        Reply::Entry(s("/i/\u{fffd}"), None),
        directory(),
        failed("read only"),
        entry("a"),
        directory(),
        failed("read only"),
        Reply::Nothing,
    ];
    let (asked, names) = list(&for_request, script);
    assert_eq!(names, vec![s("a"), s("b")]);
    let identified: Vec<&Effect<String, Vec<u8>>> =
        asked.iter().filter(|e| matches!(e, Effect::EnsureIdentity(_))).collect();
    assert_eq!(
        identified,
        vec![
            &Effect::EnsureIdentity(s("/i/b")),
            &Effect::EnsureIdentity(s("/i/\u{fffd}")),
            &Effect::EnsureIdentity(s("/i/a")),
        ]
    );
}

#[test]
fn addresses_that_can_be_downloaded() {
    let probe = |r: &Vec<Heard>| check_url_exists("u", r);
    let (asked, answer) = run(&probe, vec![Reply::Number(200)]);
    assert_eq!(asked, vec![Effect::Head(s("u"))]);
    assert_eq!(answer, yes());
    let (asked, answer) = run(&probe, vec![Reply::Number(404), Reply::Number(206)]);
    assert_eq!(asked[1], Effect::GetRange(s("u")));
    assert_eq!(answer, yes());
    assert_eq!(run(&probe, vec![failed("e"), Reply::Number(200)]).1, yes());
    assert_eq!(run(&probe, vec![Reply::Number(301), Reply::Number(404)]).1, no());
    assert_eq!(run(&probe, vec![failed("e"), failed("e")]).1, no());
}

#[test]
fn versions_that_can_be_had() {
    let check = |r: &Vec<Heard>| api_check_version("1.2.3.4", r);
    let found = || Answer::VersionFound { found: true, message: s("Version found!") };
    let (asked, answer) = drive(&check, vec![yes()]);
    assert_eq!(asked, vec![Effect::UrlExists(s(RELEASE))]);
    assert_eq!(answer, found());
    let (asked, answer) = drive(&check, vec![no(), yes()]);
    assert_eq!(asked[1], Effect::UrlExists(s(PREVIEW)));
    assert_eq!(answer, found());
    assert_eq!(
        drive(&check, vec![no(), no()]).1,
        Answer::VersionFound {
            found: false,
            message: s("Version 1.2.3.4 was not found on Minecraft's servers.")
        }
    );
    let bad = |r: &Vec<Heard>| api_check_version("1.2", r);
    assert_eq!(
        drive(&bad, vec![]).1,
        Answer::VersionFound {
            found: false,
            message: s("Invalid version format. Use format like: 1.21.0.3")
        }
    );
}

#[test]
fn versions_from_the_page() {
    let mut page = b"<b>Release:</b> <a>1.2.3.4</a> ".to_vec();
    page.push(0xff);
    let versions = fetch_versions(&Reply::Bytes(page)).unwrap();
    assert_eq!(versions.release, Some(s("1.2.3.4")));
    assert_eq!(versions.preview, None);
    assert_eq!(
        fetch_versions(&failed("no curl")),
        Err(s("curl not found or failed: no curl"))
    );
    assert_eq!(fetch_versions(&Reply::Nothing), Err(s("Failed to fetch wiki page")));
    assert_eq!(api_versions(fetch_versions(&Reply::Nothing)).release, None);
    assert_eq!(api_versions(Ok(versions)).release, Some(s("1.2.3.4")));
}

#[test]
fn the_share_of_a_download() {
    assert_eq!(download_progress(0, 100), 0);
    assert_eq!(download_progress(50, 100), 45);
    assert_eq!(download_progress(99, 100), 89);
    assert_eq!(download_progress(100, 100), 90);
    assert_eq!(download_progress(500, 100), 90);
    assert_eq!(download_progress(u64::MAX - 1, u64::MAX), 89);
    let mut last = 0;
    let mut received = 0;
    while received < 1000 {
        let now = download_progress(received, 777);
        assert!(last <= now && now <= 90);
        last = now;
        received += 13;
    }
}

#[test]
fn an_archive_is_downloaded() {
    let fetch = |r: &Vec<Heard>| fetch_archive("u", r);
    let (asked, answer) = run(
        &fetch,
        vec![
            Reply::Number(8),
            Reply::Bytes(vec![1, 2]),
            Reply::Done,
            Reply::Bytes(vec![3, 4, 5, 6, 7, 8]),
            Reply::Done,
            Reply::Nothing,
        ],
    );
    assert_eq!(
        asked,
        vec![
            Effect::Connect(s("u")),
            Effect::NextChunk,
            Effect::SetProgress(22),
            Effect::NextChunk,
            Effect::SetProgress(90),
            Effect::NextChunk,
        ]
    );
    assert_eq!(answer, Reply::Bytes(vec![1, 2, 3, 4, 5, 6, 7, 8]));
    let (asked, answer) = run(
        &fetch,
        vec![Reply::Number(0), Reply::Bytes(vec![9]), Reply::Bytes(vec![8, 7]), Reply::Nothing],
    );
    assert_eq!(asked.len(), 4);
    assert_eq!(answer, Reply::Bytes(vec![9, 8, 7]));
    assert_eq!(run(&fetch, vec![Reply::Number(3), Reply::Nothing]).1, Reply::Bytes(vec![]));
    assert_eq!(run(&fetch, vec![failed("e")]).1, failed("Failed to connect: e"));
    assert_eq!(run(&fetch, vec![Reply::Number(9), failed("e")]).1, failed("Download error: e"));
}

/// A zip archive without files.
fn archive() -> Vec<u8> {
    let mut bytes = b"PK\x05\x06".to_vec();
    bytes.extend(vec![0u8; 18]);
    bytes
}

fn got() -> Heard {
    Reply::Bytes(archive())
}

fn install(script: Vec<Heard>) -> (Vec<Effect<String, Vec<u8>>>, Heard) {
    let step = |r: &Vec<Heard>| download_and_install("/i", "one", "1.2.3.4", r);
    run(&step, script)
}

#[test]
fn a_server_is_installed() {
    let (asked, answer) = install(vec![
        no(),
        no(),
        yes(),
        got(),
        Reply::Done,
        Reply::Done,
        Reply::Done,
        yes(),
        Reply::Done,
        text("id"),
        Reply::Done,
    ]);
    assert_eq!(
        asked,
        vec![
            Effect::Exists(s("/i/one")),
            Effect::UrlExists(s(RELEASE)),
            Effect::UrlExists(s(PREVIEW)),
            Effect::FetchArchive(s(PREVIEW)),
            Effect::SetProgress(90),
            Effect::CreateDirAll(s("/i/one")),
            Effect::Extract(s("/i/one"), archive()),
            Effect::Exists(s("/i/one/bedrock_server")),
            Effect::MakeExecutable(s("/i/one/bedrock_server")),
            Effect::AssignIdentity(s("/i/one")),
            Effect::SetProgress(100),
        ]
    );
    assert_eq!(answer, text("Instance 'one' created successfully!"));
}

#[test]
fn each_failure_to_install() {
    let start = || vec![no(), yes()];
    let with = |rest: Vec<Heard>| {
        let mut script = start();
        script.extend(rest);
        install(script)
    };
    assert_eq!(install(vec![yes()]).1, failed("Instance already exists"));
    assert_eq!(
        install(vec![no(), no(), no()]).1,
        failed("Version 1.2.3.4 not found on any server")
    );
    let (asked, answer) = with(vec![failed("Failed to connect: e")]);
    assert_eq!(asked[2], Effect::FetchArchive(s(RELEASE)));
    assert_eq!(answer, failed("Failed to connect: e"));
    assert_eq!(
        with(vec![got(), Reply::Done, failed("e")]).1,
        failed("Failed to create instance directory: e")
    );
    let (asked, answer) =
        with(vec![Reply::Bytes(b"no archive".to_vec()), Reply::Done, Reply::Done, Reply::Done]);
    assert_eq!(asked[asked.len() - 1], Effect::RemoveDirAll(s("/i/one")));
    assert_eq!(answer, failed("Failed to extract zip: invalid Zip archive: Could not find EOCD"));
    assert_eq!(
        with(vec![got(), Reply::Done, Reply::Done, failed("e")]).1,
        failed("Failed to extract: e")
    );
    assert_eq!(
        with(vec![
            got(),
            Reply::Done,
            Reply::Done,
            Reply::Done,
            yes(),
            failed("e")
        ])
        .1,
        failed("Failed to set executable: e")
    );
    let (asked, answer) = with(vec![
        got(),
        Reply::Done,
        Reply::Done,
        Reply::Done,
        no(),
        failed("e"),
        Reply::Done,
    ]);
    assert_eq!(asked[asked.len() - 1], Effect::RemoveDirAll(s("/i/one")));
    assert_eq!(answer, failed("e"));
}

#[test]
fn an_archive_opens_or_not() {
    let open = |r: &Vec<Heard>| unpack("one", "/p", &vec![7], None, r, 0);
    let (asked, answer) = run(&open, vec![Reply::Done, no(), text("id"), Reply::Done]);
    assert_eq!(
        asked,
        vec![
            Effect::Extract(s("/p"), vec![7]),
            Effect::Exists(s("/p/bedrock_server")),
            Effect::AssignIdentity(s("/p")),
            Effect::SetProgress(100),
        ]
    );
    assert_eq!(answer, text("Instance 'one' created successfully!"));
    let shut = |r: &Vec<Heard>| unpack("one", "/p", &vec![7], Some(s("bad")), r, 0);
    let (asked, answer) = run(&shut, vec![failed("e")]);
    assert_eq!(asked, vec![Effect::RemoveDirAll(s("/p"))]);
    assert_eq!(answer, failed("Failed to extract zip: bad"));
}

#[test]
fn an_instance_is_created() {
    let create = |r: &Vec<Heard>| api_create_instance("one", "1.2.3.4", r);
    let (asked, answer) = drive(&create, vec![Reply::Done]);
    assert_eq!(asked, vec![Effect::StartInstall(s("one"), s("1.2.3.4"))]);
    assert_eq!(
        answer,
        Answer::Downloading(s("Creating instance 'one' with version 1.2.3.4..."))
    );
    let named = |r: &Vec<Heard>| api_create_instance("", "1.2.3.4", r);
    assert_eq!(drive(&named, vec![]).1, error("Instance name cannot be empty"));
    let versioned = |r: &Vec<Heard>| api_create_instance("one", "latest", r);
    assert_eq!(
        drive(&versioned, vec![]).1,
        error("Invalid version format. Use format like: 1.21.0.3")
    );
}

#[test]
fn an_instance_is_awaited() {
    let ready = |r: &Vec<Heard>| api_instance_ready("/i", "one", r);
    let (asked, answer) = drive(&ready, vec![yes()]);
    assert_eq!(asked, vec![Effect::Exists(s("/i/one/bedrock_server"))]);
    assert_eq!(answer, Answer::Ready { ready: true, message: s("Instance ready!") });
    assert_eq!(
        drive(&ready, vec![no()]).1,
        Answer::Ready { ready: false, message: s("Still downloading and extracting...") }
    );
}

#[test]
fn an_instance_is_deleted() {
    let delete = |r: &Vec<Heard>| api_delete_instance("/i", "one", r);
    let (asked, answer) = drive(&delete, vec![yes(), Reply::Done, Reply::Done]);
    assert_eq!(
        asked,
        vec![
            Effect::Exists(s("/i/one")),
            Effect::Unregister(s("one")),
            Effect::RemoveDirAll(s("/i/one")),
        ]
    );
    assert_eq!(answer, Answer::InstanceDeleted(s("Instance deleted successfully")));
    assert_eq!(drive(&delete, vec![no()]).1, error("Instance does not exist"));
    assert_eq!(
        drive(&delete, vec![yes(), Reply::Done, failed("e")]).1,
        error("Failed to delete instance: e")
    );
    let up = |r: &Vec<Heard>| api_delete_instance("/i", "..", r);
    assert_eq!(drive(&up, vec![]).1, error("'..' is a reserved name"));
}

fn rename(to: &str, script: Vec<Heard>) -> (Vec<Effect<String, Vec<u8>>>, Given) {
    let step = |r: &Vec<Heard>| api_rename_instance("/i", "old", to, r);
    drive(&step, script)
}

fn renamed(count: u64, warning: Option<&str>) -> Given {
    Answer::Renamed {
        message: s("Instance renamed from 'old' to 'new'"),
        old_name: s("old"),
        new_name: s("new"),
        relinked_backups: count,
        warning: warning.map(|w| w.to_string()),
    }
}

#[test]
fn an_instance_is_renamed() {
    let (asked, answer) = rename(
        " new ",
        vec![yes(), no(), no(), Reply::Done, text("id"), Reply::Number(3), Reply::Done],
    );
    assert_eq!(
        asked,
        vec![
            Effect::IsDir(s("/i/old")),
            Effect::Exists(s("/i/new")),
            Effect::IsRunning(s("old")),
            Effect::Rename(s("/i/old"), s("/i/new")),
            Effect::EnsureIdentity(s("/i/new")),
            Effect::Relink(Relinking {
                old_name: s("old"),
                new_name: s("new"),
                identity: s("id"),
                digest: sha256_hex("id"),
            }),
            Effect::RenameRegistered(s("old"), s("new")),
        ]
    );
    assert_eq!(answer, renamed(3, None));
}

#[test]
fn a_rename_warns_where_backups_are_not_linked() {
    let (_, answer) = rename(
        "new",
        vec![yes(), no(), no(), Reply::Done, text("id"), failed("e"), Reply::Done],
    );
    assert_eq!(answer, renamed(0, Some("e")));
    let (asked, answer) =
        rename("new", vec![yes(), no(), no(), Reply::Done, failed("e"), Reply::Done]);
    assert_eq!(asked[5], Effect::RenameRegistered(s("old"), s("new")));
    assert_eq!(
        answer,
        renamed(0, Some("Rename succeeded but backup relink was skipped: e"))
    );
}

#[test]
fn each_failure_to_rename() {
    assert_eq!(
        rename(" old ", vec![]).1,
        Answer::NameUnchanged { message: s("Instance name is unchanged"), new_name: s("old") }
    );
    assert_eq!(rename("a/b", vec![]).1, error("Instance name cannot contain '/'"));
    let odd = |r: &Vec<Heard>| api_rename_instance("/i", "a*", "new", r);
    assert_eq!(drive(&odd, vec![]).1, error("Instance name cannot contain '*'"));
    assert_eq!(rename("new", vec![no()]).1, error("Instance does not exist"));
    assert_eq!(
        rename("new", vec![yes(), yes()]).1,
        error("An instance with the new name already exists")
    );
    assert_eq!(
        rename("new", vec![yes(), no(), yes()]).1,
        error("Stop the server before renaming this instance")
    );
    assert_eq!(
        rename("new", vec![yes(), no(), no(), failed("e")]).1,
        error("Failed to rename instance: e")
    );
}
