use minara::backup_api::{api_create_backup, api_delete_backup, api_restore_backup};
use minara::backups::{
    collect_backups, could_be_orphan, find_backup_by_id, heal_metadata, relink_backup_metadata_source_names,
    relink_metadata, Collected,
};
use minara::effects::{
    Answer, BackupMetadata, Effect, EntryKind, Given, Heard, Move, Relinking, Reply, Step, Task,
};
use minara::identity::sha256_hex;
use minara::names::validate_backup_id;
use minara::trees::{compute_dir_stats, copy_dir_recursive, stats_fit};

fn s(t: &str) -> String {
    t.to_string()
}

fn text(t: &str) -> Heard {
    Reply::Text(s(t))
}

fn failed(t: &str) -> Heard {
    Reply::Failed(s(t))
}

fn yes() -> Heard {
    Reply::Flag(true)
}

fn no() -> Heard {
    Reply::Flag(false)
}

fn error(t: &str) -> Given {
    Answer::Error(s(t))
}

fn at(path: &str) -> Heard {
    Reply::Entry(s(path), Some(s("x")))
}

fn drive(f: &dyn Fn(&Vec<Heard>) -> Move, script: Vec<Heard>) -> (Vec<Effect<String, Vec<u8>>>, Given) {
    let mut asked = Vec::new();
    let mut replies = Vec::new();
    let mut next = script.into_iter();
    loop {
        match f(&replies) {
            Step::Ask(e) => {
                asked.push(e);
                replies.push(next.next().unwrap());
            }
            Step::Answer(a) => return (asked, a),
        }
    }
}

fn run(f: &dyn Fn(&Vec<Heard>) -> Task, script: Vec<Heard>) -> (Vec<Effect<String, Vec<u8>>>, Heard) {
    let mut asked = Vec::new();
    let mut replies = Vec::new();
    let mut next = script.into_iter();
    loop {
        match f(&replies) {
            Step::Ask(e) => {
                asked.push(e);
                replies.push(next.next().unwrap());
            }
            Step::Answer(a) => return (asked, a),
        }
    }
}

fn meta(source: &str, identity: Option<&str>, proof: Option<String>, created: u64) -> BackupMetadata<String> {
    BackupMetadata {
        id: s("5-6"),
        source_instance: s(source),
        created_at_unix: created,
        size_bytes: 10,
        file_count: 2,
        source_instance_proof_sha256: proof,
        source_instance_id: identity.map(|i| i.to_string()),
    }
}

fn linked(source: &str, identity: &str) -> BackupMetadata<String> {
    meta(source, Some(identity), Some(sha256_hex(identity)), 5)
}

fn relinking() -> Relinking<String> {
    Relinking {
        old_name: s("old"),
        new_name: s("new"),
        identity: s("id"),
        digest: sha256_hex("id"),
    }
}

#[test]
fn which_backups_are_relinked() {
    let q = relinking();
    let proof = sha256_hex("id");
    let other = sha256_hex("other");
    let linked_now = Some(linked("new", "id"));
    assert_eq!(relink_metadata(&meta("x", Some("id"), None, 5), &q, false), linked_now);
    assert_eq!(relink_metadata(&meta("x", None, Some(proof.clone()), 5), &q, false), linked_now);
    assert_eq!(relink_metadata(&meta("old", None, None, 5), &q, false), linked_now);
    assert_eq!(relink_metadata(&meta("old", None, Some(other.clone()), 5), &q, true), linked_now);
    assert_eq!(relink_metadata(&meta("old", None, Some(other.clone()), 5), &q, false), None);
    assert_eq!(relink_metadata(&meta("x", Some("other"), None, 5), &q, false), None);
    assert!(could_be_orphan(&meta("old", None, Some(other.clone()), 5), &q));
    assert!(!could_be_orphan(&meta("old", None, None, 5), &q));
    assert!(!could_be_orphan(&meta("x", None, Some(other), 5), &q));
    assert!(!could_be_orphan(&meta("old", None, Some(proof), 5), &q));
}

#[test]
fn relinking_twice_changes_nothing() {
    let q = relinking();
    assert_eq!(relink_metadata(&linked("new", "id"), &q, true), None);
}

#[test]
fn metadata_is_completed() {
    let index = vec![(sha256_hex("id"), s("now"))];
    let (m, changed) = heal_metadata(&meta("was", None, None, 5), Some(s("id")), &index);
    assert!(changed);
    assert_eq!(m, linked("now", "id"));
    let (again, changed) = heal_metadata(&m, Some(s("id")), &index);
    assert!(!changed);
    assert_eq!(again, m);
    let (m, changed) = heal_metadata(&meta("was", None, None, 5), None, &index);
    assert!(!changed);
    assert_eq!(m, meta("was", None, None, 5));
    let (m, changed) = heal_metadata(&linked("was", "unknown"), None, &index);
    assert!(!changed);
    assert_eq!(m.source_instance, "was");
}

fn walk_to(path: &str, m: BackupMetadata<String>) -> Vec<Heard> {
    vec![at(path), yes(), yes(), text("json"), Reply::Metadata(m)]
}

#[test]
fn relinking_walks_through_all_backups() {
    let q = relinking();
    let relink = |r: &Vec<Heard>| relink_backup_metadata_source_names("/b", &q, r);
    let mut script = vec![yes(), Reply::Done];
    script.push(at("/b/stray"));
    script.push(no());
    script.push(at("/b/old"));
    script.push(yes());
    script.push(Reply::Done);
    script.push(at("/b/old/file"));
    script.push(no());
    script.push(at("/b/old/empty"));
    script.push(yes());
    script.push(no());
    script.push(at("/b/old/unread"));
    script.push(yes());
    script.push(yes());
    script.push(failed("denied"));
    script.push(at("/b/old/broken"));
    script.push(yes());
    script.push(yes());
    script.push(text("{"));
    script.push(failed("bad json"));
    script.extend(walk_to("/b/old/1", meta("old", Some("id"), None, 5)));
    script.push(text("json-1"));
    script.push(Reply::Done);
    script.extend(walk_to("/b/old/2", meta("old", None, Some(s("orphan")), 5)));
    script.push(Reply::Nothing);
    script.push(text("json-2"));
    script.push(Reply::Done);
    script.extend(walk_to("/b/old/3", meta("old", None, Some(s("held")), 5)));
    script.push(Reply::Instance(s("x"), s("/i/x")));
    script.push(Reply::Nothing);
    script.push(Reply::Nothing);
    let (asked, answer) = run(&relink, script);
    assert_eq!(answer, Reply::Number(2));
    assert!(asked.contains(&Effect::FindByProof(s("orphan"))));
    assert!(asked.contains(&Effect::EncodeMetadata(linked("new", "id"))));
    assert!(asked.contains(&Effect::WriteText(s("/b/old/1/meta.json"), s("json-1"))));
    assert!(asked.contains(&Effect::WriteText(s("/b/old/2/meta.json"), s("json-2"))));
    assert_eq!(asked[2], Effect::NextEntry(s("/b")));
    assert_eq!(asked[6], Effect::OpenDir(s("/b/old")));
    assert_eq!(asked[7], Effect::NextEntry(s("/b/old")));
    assert_eq!(asked[asked.len() - 1], Effect::NextEntry(s("/b")));
}

#[test]
fn a_second_relinking_writes_nothing() {
    let q = relinking();
    let relink = |r: &Vec<Heard>| relink_backup_metadata_source_names("/b", &q, r);
    let start = || vec![yes(), Reply::Done, at("/b/old"), yes(), Reply::Done];
    let held = || meta("old", None, Some(s("held")), 5);
    let mut first = start();
    first.extend(walk_to("/b/old/1", meta("old", Some("id"), None, 5)));
    first.push(text("json"));
    first.push(Reply::Done);
    first.extend(walk_to("/b/old/2", held()));
    first.push(Reply::Instance(s("x"), s("/i/x")));
    first.push(Reply::Nothing);
    first.push(Reply::Nothing);
    let (asked, answer) = run(&relink, first);
    assert_eq!(answer, Reply::Number(1));
    assert!(asked.contains(&Effect::EncodeMetadata(linked("new", "id"))));
    let mut second = start();
    second.extend(walk_to("/b/old/1", linked("new", "id")));
    second.extend(walk_to("/b/old/2", held()));
    second.push(Reply::Instance(s("x"), s("/i/x")));
    second.push(Reply::Nothing);
    second.push(Reply::Nothing);
    let (asked, answer) = run(&relink, second);
    assert_eq!(answer, Reply::Number(0));
    assert!(!asked
        .iter()
        .any(|e| matches!(e, Effect::EncodeMetadata(_) | Effect::WriteText(_, _))));
}

#[test]
fn each_failure_of_relinking() {
    let q = relinking();
    let relink = |r: &Vec<Heard>| relink_backup_metadata_source_names("/b", &q, r);
    let inside = || vec![yes(), Reply::Done, at("/b/old"), yes(), Reply::Done];
    assert_eq!(run(&relink, vec![no()]).1, Reply::Number(0));
    assert_eq!(run(&relink, vec![yes(), failed("e")]).1, failed("Failed to read backups root: e"));
    assert_eq!(
        run(&relink, vec![yes(), Reply::Done, failed("e")]).1,
        failed("Failed to read backups entry: e")
    );
    assert_eq!(
        run(&relink, vec![yes(), Reply::Done, at("/b/old"), yes(), failed("e")]).1,
        failed("Failed to read instance backup folder: e")
    );
    let mut script = inside();
    script.push(failed("e"));
    assert_eq!(run(&relink, script).1, failed("Failed to read backup entry: e"));
    let mut script = inside();
    script.extend(walk_to("/b/old/1", meta("old", None, None, 5)));
    script.push(failed("e"));
    assert_eq!(
        run(&relink, script).1,
        failed("Failed to encode backup metadata /b/old/1/meta.json: e")
    );
    let mut script = inside();
    script.extend(walk_to("/b/old/1", meta("old", None, None, 5)));
    script.push(text("json"));
    script.push(failed("e"));
    assert_eq!(
        run(&relink, script).1,
        failed("Failed to write backup metadata /b/old/1/meta.json: e")
    );
}

fn collect(script: Vec<Heard>) -> (Vec<Effect<String, Vec<u8>>>, Collected<Vec<BackupMetadata<String>>, String>) {
    let mut asked = Vec::new();
    let mut replies = Vec::new();
    let mut next = script.into_iter();
    loop {
        match collect_backups("/b", &replies) {
            Step::Ask(e) => {
                asked.push(e);
                replies.push(next.next().unwrap());
            }
            Step::Answer(a) => return (asked, a),
        }
    }
}

#[test]
fn backups_are_told_newest_first_and_completed() {
    let index = vec![(sha256_hex("id"), s("now"))];
    let mut script = vec![yes(), Reply::Index(index), Reply::Done, at("/b/one"), yes(), Reply::Done];
    script.extend(walk_to("/b/one/1", meta("one", None, None, 3)));
    script.push(Reply::Nothing);
    script.extend(walk_to("/b/one/2", meta("one", None, None, 7)));
    script.push(text("id"));
    script.push(text("json"));
    script.push(failed("read only"));
    script.extend(walk_to("/b/one/3", meta("now", Some("id"), Some(sha256_hex("id")), 7)));
    script.extend(walk_to("/b/one/4", meta("one", Some("x"), None, 5)));
    script.push(failed("no text"));
    script.push(Reply::Nothing);
    script.push(Reply::Nothing);
    let (asked, answer) = collect(script);
    let expected = vec![
        meta("now", Some("id"), Some(sha256_hex("id")), 7),
        meta("now", Some("id"), Some(sha256_hex("id")), 7),
        meta("one", Some("x"), Some(sha256_hex("x")), 5),
        meta("one", None, None, 3),
    ];
    assert_eq!(answer, Collected::Backups(expected));
    assert_eq!(
        asked[..3],
        [Effect::IsDir(s("/b")), Effect::IndexProofs, Effect::OpenDir(s("/b"))]
    );
    assert!(asked.contains(&Effect::ReadIdentity(s("/b/one/1/files"))));
    assert!(asked.contains(&Effect::WriteText(s("/b/one/2/meta.json"), s("json"))));
    let writes = asked.iter().filter(|e| matches!(e, Effect::WriteText(_, _))).count();
    assert_eq!(writes, 1);
}

#[test]
fn backups_that_cannot_be_told() {
    assert_eq!(collect(vec![no()]), (vec![Effect::IsDir(s("/b"))], Collected::Backups(vec![])));
    assert_eq!(
        collect(vec![yes(), Reply::Index(vec![]), failed("e")]).1,
        Collected::Failed(s("Failed to read backups root: e"))
    );
    assert_eq!(
        collect(vec![yes(), Reply::Index(vec![]), Reply::Done, failed("e")]).1,
        Collected::Failed(s("Failed to read backups entry: e"))
    );
}

#[test]
fn backups_are_told_without_an_index() {
    let mut script = vec![yes(), failed("denied"), Reply::Done, at("/b/one"), yes(), Reply::Done];
    script.extend(walk_to("/b/one/1", linked("was", "id")));
    script.push(Reply::Nothing);
    script.push(Reply::Nothing);
    assert_eq!(collect(script).1, Collected::Backups(vec![linked("was", "id")]));
}

#[test]
fn a_backup_is_found_by_its_id() {
    let find = |r: &Vec<Heard>| find_backup_by_id("/b", "7-8", r);
    let (asked, answer) = run(
        &find,
        vec![
            yes(),
            Reply::Done,
            at("/b/file"),
            no(),
            at("/b/one"),
            yes(),
            no(),
            at("/b/two"),
            yes(),
            yes(),
            yes(),
            text("json"),
            Reply::Metadata(linked("two", "id")),
        ],
    );
    assert_eq!(answer, Reply::Backup(s("/b/two"), s("/b/two/7-8"), linked("two", "id")));
    assert_eq!(asked[6], Effect::IsDir(s("/b/one/7-8")));
    assert_eq!(asked[10], Effect::IsFile(s("/b/two/7-8/meta.json")));
    assert_eq!(asked[12], Effect::ParseMetadata(s("json")));
}

#[test]
fn each_failure_to_find_a_backup() {
    let find = |r: &Vec<Heard>| find_backup_by_id("/b", "7-8", r);
    let there = || vec![yes(), Reply::Done, at("/b/two"), yes(), yes()];
    assert_eq!(run(&find, vec![no()]).1, failed("No backups found"));
    assert_eq!(run(&find, vec![yes(), failed("e")]).1, failed("Failed to read backups root: e"));
    assert_eq!(
        run(&find, vec![yes(), Reply::Done, failed("e")]).1,
        failed("Failed to read backups entry: e")
    );
    assert_eq!(run(&find, vec![yes(), Reply::Done, Reply::Nothing]).1, failed("Backup not found"));
    let mut script = there();
    script.push(no());
    assert_eq!(run(&find, script).1, failed("Backup metadata is missing"));
    let mut script = there();
    script.push(yes());
    script.push(failed("e"));
    assert_eq!(
        run(&find, script).1,
        failed("Failed to read backup metadata /b/two/7-8/meta.json: e")
    );
    let mut script = there();
    script.push(yes());
    script.push(text("{"));
    script.push(failed("e"));
    assert_eq!(run(&find, script).1, failed("Invalid backup metadata /b/two/7-8/meta.json: e"));
}

#[test]
fn a_directory_is_copied() {
    let copy = |r: &Vec<Heard>| copy_dir_recursive("/a", "/z", r);
    let named = |path: &str, name: &str| Reply::Entry(s(path), Some(s(name)));
    let (asked, answer) = run(
        &copy,
        vec![
            yes(),
            Reply::Done,
            Reply::Done,
            named("/a/d", "d"),
            Reply::Kind(EntryKind::Directory),
            Reply::Done,
            named("/a/f", "f"),
            Reply::Kind(EntryKind::File),
            Reply::Done,
            failed("mode"),
            named("/a/link", "link"),
            Reply::Kind(EntryKind::Other),
            Reply::Nothing,
        ],
    );
    assert_eq!(answer, Reply::Done);
    assert_eq!(
        asked,
        vec![
            Effect::IsDir(s("/a")),
            Effect::CreateDirAll(s("/z")),
            Effect::OpenDir(s("/a")),
            Effect::NextEntry(s("/a")),
            Effect::EntryKind(s("/a/d")),
            Effect::CopyTree(s("/a/d"), s("/z/d")),
            Effect::NextEntry(s("/a")),
            Effect::EntryKind(s("/a/f")),
            Effect::CopyFile(s("/a/f"), s("/z/f")),
            Effect::CopyMode(s("/a/f"), s("/z/f")),
            Effect::NextEntry(s("/a")),
            Effect::EntryKind(s("/a/link")),
            Effect::NextEntry(s("/a")),
        ]
    );
}

#[test]
fn each_failure_to_copy() {
    let copy = |r: &Vec<Heard>| copy_dir_recursive("/a", "/z", r);
    let start = || vec![yes(), Reply::Done, Reply::Done];
    let one = || Reply::Entry(s("/a/f"), Some(s("f")));
    assert_eq!(run(&copy, vec![no()]).1, failed("Source path is not a directory: /a"));
    assert_eq!(run(&copy, vec![yes(), failed("e")]).1, failed("Failed to create directory /z: e"));
    assert_eq!(
        run(&copy, vec![yes(), Reply::Done, failed("e")]).1,
        failed("Failed to read directory /a: e")
    );
    let mut script = start();
    script.push(failed("e"));
    assert_eq!(run(&copy, script).1, failed("Failed to read directory entry: e"));
    let mut script = start();
    script.push(one());
    script.push(failed("e"));
    assert_eq!(run(&copy, script).1, failed("Failed to get file type for /a/f: e"));
    let mut script = start();
    script.push(one());
    script.push(Reply::Kind(EntryKind::Directory));
    script.push(failed("below"));
    assert_eq!(run(&copy, script).1, failed("below"));
    let mut script = start();
    script.push(one());
    script.push(Reply::Kind(EntryKind::File));
    script.push(failed("e"));
    assert_eq!(run(&copy, script).1, failed("Failed to copy /a/f to /z/f: e"));
}

#[test]
fn a_directory_is_measured() {
    let measure = |r: &Vec<Heard>| compute_dir_stats("/a", r);
    let (asked, answer) = run(
        &measure,
        vec![
            no(),
            yes(),
            Reply::Done,
            at("/a/f"),
            Reply::Stats(10, 1),
            at("/a/d"),
            Reply::Stats(32, 4),
            Reply::Nothing,
        ],
    );
    assert_eq!(answer, Reply::Stats(42, 5));
    assert_eq!(asked[4], Effect::DirStats(s("/a/f")));
    assert_eq!(run(&measure, vec![yes(), Reply::Number(7)]).1, Reply::Stats(7, 1));
    assert_eq!(run(&measure, vec![no(), no()]).1, Reply::Stats(0, 0));
}

#[test]
fn each_failure_to_measure() {
    let measure = |r: &Vec<Heard>| compute_dir_stats("/a", r);
    assert_eq!(
        run(&measure, vec![yes(), failed("e")]).1,
        failed("Failed to read file metadata /a: e")
    );
    assert_eq!(
        run(&measure, vec![no(), yes(), failed("e")]).1,
        failed("Failed to read directory /a: e")
    );
    assert_eq!(
        run(&measure, vec![no(), yes(), Reply::Done, failed("e")]).1,
        failed("Failed to read directory entry: e")
    );
    assert_eq!(
        run(&measure, vec![no(), yes(), Reply::Done, at("/a/f"), failed("below")]).1,
        failed("below")
    );
}

#[test]
fn measures_that_cannot_be_counted_are_known() {
    let big = |a: u64, b: u64| {
        vec![no(), yes(), Reply::Done, at("/a/1"), Reply::Stats(u64::MAX, 1), at("/a/2"), Reply::Stats(a, b)]
    };
    assert!(stats_fit(&big(0, 1)));
    assert!(!stats_fit(&big(1, 1)));
    assert!(!stats_fit(&big(0, u64::MAX)));
    assert!(stats_fit(&vec![]));
}

#[test]
fn a_backup_is_made() {
    let make = |r: &Vec<Heard>| api_create_backup("/i", "/b", "one", r);
    let (asked, answer) = drive(
        &make,
        vec![
            yes(),
            text("id"),
            Reply::Clock(5, 6),
            Reply::Done,
            Reply::Done,
            Reply::Stats(10, 2),
            text("json"),
            Reply::Done,
        ],
    );
    assert_eq!(
        asked,
        vec![
            Effect::IsDir(s("/i/one")),
            Effect::EnsureIdentity(s("/i/one")),
            Effect::Clock,
            Effect::CreateDirAll(s("/b/one/5-6/files")),
            Effect::CopyTree(s("/i/one"), s("/b/one/5-6/files")),
            Effect::DirStats(s("/b/one/5-6/files")),
            Effect::EncodeMetadata(linked("one", "id")),
            Effect::WriteText(s("/b/one/5-6/meta.json"), s("json")),
        ]
    );
    assert_eq!(
        answer,
        Answer::BackupCreated { message: s("Backup created successfully"), backup: linked("one", "id") }
    );
    assert_eq!(validate_backup_id("5-6"), Ok(()));
}

#[test]
fn a_backup_that_fails_is_removed() {
    let make = |r: &Vec<Heard>| api_create_backup("/i", "/b", "one", r);
    let start = || vec![yes(), text("id"), Reply::Clock(5, 6), Reply::Done];
    let cases: Vec<(Vec<Heard>, &str)> = vec![
        (vec![failed("copy")], "copy"),
        (vec![Reply::Done, failed("measure")], "measure"),
        (vec![Reply::Done, Reply::Stats(1, 1), failed("e")], "Failed to encode metadata: e"),
        (
            vec![Reply::Done, Reply::Stats(1, 1), text("json"), failed("e")],
            "Failed to write metadata: e",
        ),
    ];
    for (rest, message) in cases {
        let mut script = start();
        script.extend(rest);
        script.push(failed("even if that fails"));
        let (asked, answer) = drive(&make, script);
        assert_eq!(asked[asked.len() - 1], Effect::RemoveDirAll(s("/b/one/5-6")));
        assert_eq!(answer, error(message));
    }
}

#[test]
fn each_failure_before_a_backup_begins() {
    let make = |r: &Vec<Heard>| api_create_backup("/i", "/b", "one", r);
    let named = |r: &Vec<Heard>| api_create_backup("/i", "/b", "a/b", r);
    assert_eq!(drive(&named, vec![]).1, error("Instance name cannot contain '/'"));
    assert_eq!(drive(&make, vec![no()]).1, error("Instance does not exist"));
    assert_eq!(drive(&make, vec![yes(), failed("e")]).1, error("e"));
    assert_eq!(
        drive(&make, vec![yes(), text("id"), Reply::Clock(5, 6), failed("e")]).1,
        error("Failed to create backup folder: e")
    );
}

fn found(m: BackupMetadata<String>) -> Heard {
    Reply::Backup(s("/b/one"), s("/b/one/5-6"), m)
}

fn restore(mode: &str, name: Option<&str>, script: Vec<Heard>) -> (Vec<Effect<String, Vec<u8>>>, Given) {
    let step = |r: &Vec<Heard>| api_restore_backup("/i", "5-6", mode, name, r);
    drive(&step, script)
}

#[test]
fn a_backup_is_restored_over_its_instance() {
    let (asked, answer) = restore(
        "override",
        None,
        vec![
            found(linked("one", "id")),
            yes(),
            Reply::Instance(s("renamed"), s("/i/renamed")),
            text("id"),
            no(),
            Reply::Done,
            Reply::Done,
            Reply::Done,
            Reply::Done,
        ],
    );
    assert_eq!(
        asked,
        vec![
            Effect::FindBackup(s("5-6")),
            Effect::IsDir(s("/b/one/5-6/files")),
            Effect::FindByProof(sha256_hex("id")),
            Effect::EnsureIdentity(s("/i/renamed")),
            Effect::IsRunning(s("renamed")),
            Effect::RemoveDirAll(s("/i/renamed")),
            Effect::CreateDirAll(s("/i/renamed")),
            Effect::CopyTree(s("/b/one/5-6/files"), s("/i/renamed")),
            Effect::WriteIdentity(s("/i/renamed"), s("id")),
        ]
    );
    assert_eq!(
        answer,
        Answer::Restored {
            message: s("Backup restored over instance 'renamed'"),
            instance: s("renamed")
        }
    );
}

#[test]
fn a_backup_without_a_proof_goes_by_name_or_identity() {
    let (asked, _) = restore("override", None, vec![found(meta("one", None, None, 5)), yes(), no()]);
    assert_eq!(asked[2], Effect::IsDir(s("/i/one")));
    let (asked, _) = restore(
        "override",
        None,
        vec![found(meta("one", Some("id"), None, 5)), yes(), Reply::Nothing],
    );
    assert_eq!(asked[2], Effect::FindByProof(sha256_hex("id")));
}

#[test]
fn each_failure_to_restore_over_an_instance() {
    let over = |rest: Vec<Heard>| {
        let mut script = vec![found(linked("one", "id")), yes()];
        script.extend(rest);
        restore("override", None, script).1
    };
    let target = || Reply::Instance(s("one"), s("/i/one"));
    assert_eq!(
        over(vec![Reply::Nothing]),
        error("No matching instance identity was found for this backup override")
    );
    assert_eq!(over(vec![failed("two of them")]), error("two of them"));
    assert_eq!(over(vec![target(), failed("e")]), error("e"));
    assert_eq!(
        over(vec![target(), text("id"), yes()]),
        error("Stop the server before overriding this instance")
    );
    assert_eq!(
        over(vec![target(), text("id"), no(), failed("e")]),
        error("Failed to clear target instance: e")
    );
    assert_eq!(
        over(vec![target(), text("id"), no(), Reply::Done, failed("e")]),
        error("Failed to recreate target instance: e")
    );
    assert_eq!(
        over(vec![target(), text("id"), no(), Reply::Done, Reply::Done, failed("e")]),
        error("e")
    );
    assert_eq!(
        over(vec![target(), text("id"), no(), Reply::Done, Reply::Done, Reply::Done, failed("e")]),
        error("e")
    );
    assert_eq!(
        restore("override", None, vec![found(meta("one", None, None, 5)), yes(), no()]).1,
        error("Target instance does not exist for override")
    );
}

#[test]
fn a_backup_is_restored_into_a_new_instance() {
    let (asked, answer) = restore(
        "new",
        Some(" copy "),
        vec![
            found(linked("one", "id")),
            yes(),
            Reply::Instance(s("one"), s("/i/one")),
            Reply::Done,
            no(),
            Reply::Done,
            Reply::Done,
            text("fresh"),
            Reply::Done,
        ],
    );
    assert_eq!(
        asked[2..],
        vec![
            Effect::FindByProof(sha256_hex("id")),
            Effect::CreateDirAll(s("/i")),
            Effect::Exists(s("/i/copy")),
            Effect::CreateDirAll(s("/i/copy")),
            Effect::CopyTree(s("/b/one/5-6/files"), s("/i/copy")),
            Effect::AssignIdentity(s("/i/copy")),
            Effect::Register(s("copy")),
        ]
    );
    assert_eq!(
        answer,
        Answer::Restored {
            message: s("Backup restored into new instance 'copy'"),
            instance: s("copy")
        }
    );
}

#[test]
fn an_identity_that_nobody_holds_is_passed_on() {
    let rest = || vec![Reply::Done, no(), Reply::Done, Reply::Done, Reply::Done, Reply::Done];
    let mut script = vec![found(linked("one", "id")), yes(), Reply::Nothing];
    script.extend(rest());
    let (asked, _) = restore("new", None, script);
    assert_eq!(asked[7], Effect::WriteIdentity(s("/i/one"), s("id")));
    let mut script = vec![
        found(meta("one", None, Some(s("p")), 5)),
        yes(),
        Reply::Nothing,
        text("from-files"),
    ];
    script.extend(rest());
    let (asked, _) = restore("new", None, script);
    assert_eq!(asked[3], Effect::ReadIdentity(s("/b/one/5-6/files")));
    assert_eq!(asked[8], Effect::WriteIdentity(s("/i/one"), s("from-files")));
    let mut script = vec![found(meta("one", Some("id"), None, 5)), yes()];
    script.extend(rest());
    let (asked, _) = restore("new", Some("  "), script);
    assert_eq!(asked[6], Effect::AssignIdentity(s("/i/one")));
}

#[test]
fn each_failure_to_restore_into_a_new_instance() {
    let new = |rest: Vec<Heard>| {
        let mut script = vec![found(meta("one", None, None, 5)), yes()];
        script.extend(rest);
        restore("new", None, script)
    };
    assert_eq!(
        new(vec![failed("e")]).1,
        error("Failed to prepare instances directory: e")
    );
    assert_eq!(new(vec![Reply::Done, yes()]).1, error("Target instance already exists"));
    assert_eq!(
        new(vec![Reply::Done, no(), failed("e")]).1,
        error("Failed to create new instance directory: e")
    );
    let (asked, answer) = new(vec![Reply::Done, no(), Reply::Done, failed("e"), Reply::Done]);
    assert_eq!(asked[asked.len() - 1], Effect::RemoveDirAll(s("/i/one")));
    assert_eq!(answer, error("e"));
    let (asked, answer) = new(vec![Reply::Done, no(), Reply::Done, Reply::Done, failed("e"), Reply::Done]);
    assert_eq!(asked[asked.len() - 1], Effect::RemoveDirAll(s("/i/one")));
    assert_eq!(answer, error("e"));
    assert_eq!(
        restore("new", Some("a:b"), vec![found(meta("one", None, None, 5)), yes()]).1,
        error("Instance name cannot contain ':'")
    );
}

#[test]
fn each_failure_before_a_restore_begins() {
    let bad = |r: &Vec<Heard>| api_restore_backup("/i", "../x", "new", None, r);
    assert_eq!(drive(&bad, vec![]).1, error("Backup id contains invalid characters"));
    assert_eq!(restore("new", None, vec![failed("Backup not found")]).1, error("Backup not found"));
    assert_eq!(
        restore("new", None, vec![found(linked("one", "id")), no()]).1,
        error("Backup data is missing")
    );
    assert_eq!(
        restore("merge", None, vec![found(linked("one", "id")), yes()]).1,
        error("Invalid restore mode. Use 'new' or 'override'.")
    );
}

#[test]
fn a_backup_is_deleted() {
    let delete = |r: &Vec<Heard>| api_delete_backup("5-6", r);
    let (asked, answer) = drive(&delete, vec![found(linked("one", "id")), Reply::Done, yes(), Reply::Done]);
    assert_eq!(
        asked,
        vec![
            Effect::FindBackup(s("5-6")),
            Effect::RemoveDirAll(s("/b/one/5-6")),
            Effect::IsEmptyDir(s("/b/one")),
            Effect::RemoveDir(s("/b/one")),
        ]
    );
    assert_eq!(
        answer,
        Answer::BackupDeleted { message: s("Backup deleted"), source_instance: s("one") }
    );
    let (asked, _) = drive(&delete, vec![found(linked("one", "id")), Reply::Done, no()]);
    assert_eq!(asked.len(), 3);
    assert_eq!(
        drive(&delete, vec![found(linked("one", "id")), failed("e")]).1,
        error("Failed to delete backup: e")
    );
    assert_eq!(drive(&delete, vec![failed("gone")]).1, error("gone"));
    let bad = |r: &Vec<Heard>| api_delete_backup("", r);
    assert_eq!(drive(&bad, vec![]).1, error("Backup id cannot be empty"));
}

#[test]
fn a_backup_follows_its_renamed_instance() {
    let made = linked("old", "id");
    let renamed = relink_metadata(&made, &relinking(), false).unwrap();
    assert_eq!(renamed.source_instance, "new");
    let index = vec![(sha256_hex("id"), s("newer"))];
    let (told, _) = heal_metadata(&renamed, None, &index);
    assert_eq!(told.source_instance, "newer");
}

#[test]
fn a_restore_copies_what_was_backed_up() {
    let make = |r: &Vec<Heard>| api_create_backup("/i", "/b", "one", r);
    let (asked, _) = drive(
        &make,
        vec![yes(), text("id"), Reply::Clock(5, 6), Reply::Done, failed("e"), Reply::Done],
    );
    let copy = match &asked[4] {
        Effect::CopyTree(_, to) => to.clone(),
        other => panic!("{:?}", other),
    };
    let find = |r: &Vec<Heard>| find_backup_by_id("/b", "5-6", r);
    let (_, backup) = run(
        &find,
        vec![
            yes(),
            Reply::Done,
            at("/b/one"),
            yes(),
            yes(),
            yes(),
            text("json"),
            Reply::Metadata(linked("one", "id")),
        ],
    );
    let (asked, _) = restore(
        "override",
        None,
        vec![
            backup,
            yes(),
            Reply::Instance(s("one"), s("/i/one")),
            text("id"),
            no(),
            Reply::Done,
            Reply::Done,
            failed("e"),
        ],
    );
    assert_eq!(asked[7], Effect::CopyTree(copy, s("/i/one")));
}
