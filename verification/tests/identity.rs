use minara::effects::{BackupMetadata, Effect, Heard, Reply, Step, Task};
use minara::identity::{
    assign_new_instance_identity, backup_source_identity, build_instance_proof_index,
    ensure_instance_identity, find_in_index, find_instance_by_identity_proof, fresh_identity,
    instance_identity_path, read_instance_identity, sha256_hex, to_hex,
    write_instance_identity,
};

fn text(s: &str) -> Heard {
    Reply::Text(s.to_string())
}

fn failed(s: &str) -> Heard {
    Reply::Failed(s.to_string())
}

fn entry(name: &str) -> Heard {
    Reply::Entry(format!("/i/{}", name), Some(name.to_string()))
}

fn run(f: &dyn Fn(&Vec<Heard>) -> Task, script: Vec<Heard>) -> (Vec<Effect<String, Vec<u8>>>, Heard) {
    let mut asked = Vec::new();
    let mut replies = Vec::new();
    let mut next = script.into_iter();
    loop {
        match f(&replies) {
            Step::Ask(e) => {
                asked.push(e);
                replies.push(next.next().unwrap());
            }
            Step::Answer(a) => return (asked, a),
        }
    }
}

#[test]
fn digests_in_hexadecimal() {
    assert_eq!(
        sha256_hex(""),
        "e3b0c44298fc1c149afbf4c8996fb92427ae41e4649b934ca495991b7852b855"
    );
    assert_eq!(
        sha256_hex("abc"),
        "ba7816bf8f01cfea414140de5dae2223b00361a396177a9cb410ff61f20015ad"
    );
    assert_eq!(to_hex(&vec![0, 9, 10, 255]), "00090aff");
}

#[test]
fn the_place_of_an_identity() {
    assert_eq!(instance_identity_path("/i/one"), "/i/one/.minara_instance_id");
}

#[test]
fn made_up_identities_are_random_uuids() {
    let mut seen: Vec<String> = Vec::new();
    let mut i = 0;
    while i < 50 {
        let id = match fresh_identity() {
            Reply::Text(t) => t,
            _ => panic!("no text"),
        };
        assert_eq!(id.len(), 36);
        assert_eq!(id.as_bytes()[14], b'4');
        assert!(id.chars().all(|c| c == '-' || c.is_ascii_digit() || ('a'..='f').contains(&c)));
        assert!(!seen.contains(&id));
        seen.push(id);
        i += 1;
    }
}

#[test]
fn an_identity_is_read_trimmed() {
    let read = |r: &Vec<Heard>| read_instance_identity("/i/one", r);
    let (asked, answer) = run(&read, vec![text(" id-1 \n")]);
    assert_eq!(asked, vec![Effect::ReadText("/i/one/.minara_instance_id".to_string())]);
    assert_eq!(answer, text("id-1"));
    assert_eq!(run(&read, vec![text(" \n")]).1, Reply::Nothing);
    assert_eq!(run(&read, vec![failed("none")]).1, Reply::Nothing);
}

#[test]
fn an_identity_that_was_written_is_read_back() {
    let write = |r: &Vec<Heard>| write_instance_identity("/i/one", "  id-1 ", r);
    let (asked, answer) = run(&write, vec![Reply::Done]);
    assert_eq!(answer, Reply::Done);
    match &asked[0] {
        Effect::WriteText(path, written) => {
            assert_eq!(path, "/i/one/.minara_instance_id");
            assert_eq!(written, "id-1\n");
            let read = |r: &Vec<Heard>| read_instance_identity("/i/one", r);
            assert_eq!(run(&read, vec![text(written)]).1, text("id-1"));
        }
        other => panic!("{:?}", other),
    }
}

#[test]
fn identities_that_cannot_be_written() {
    let blank = |r: &Vec<Heard>| write_instance_identity("/i/one", "  ", r);
    assert_eq!(run(&blank, vec![]).1, failed("Instance identity cannot be empty"));
    let write = |r: &Vec<Heard>| write_instance_identity("/i/one", "id", r);
    assert_eq!(
        run(&write, vec![failed("full")]).1,
        failed("Failed to write instance identity /i/one/.minara_instance_id: full")
    );
}

#[test]
fn a_new_identity_is_written_and_told() {
    let assign = |r: &Vec<Heard>| assign_new_instance_identity("/i/one", r);
    let (asked, answer) = run(&assign, vec![text("fresh"), Reply::Done]);
    assert_eq!(
        asked,
        vec![
            Effect::FreshIdentity,
            Effect::WriteIdentity("/i/one".to_string(), "fresh".to_string())
        ]
    );
    assert_eq!(answer, text("fresh"));
    assert_eq!(run(&assign, vec![text("fresh"), failed("no")]).1, failed("no"));
}

#[test]
fn an_identity_is_kept_or_assigned() {
    let ensure = |r: &Vec<Heard>| ensure_instance_identity("/i/one", r);
    let (asked, answer) = run(&ensure, vec![text("old")]);
    assert_eq!(asked, vec![Effect::ReadIdentity("/i/one".to_string())]);
    assert_eq!(answer, text("old"));
    let (asked, answer) = run(&ensure, vec![Reply::Nothing, text("new")]);
    assert_eq!(asked[1], Effect::AssignIdentity("/i/one".to_string()));
    assert_eq!(answer, text("new"));
    assert_eq!(run(&ensure, vec![Reply::Nothing, failed("no")]).1, failed("no"));
}

#[test]
fn the_only_holder_of_a_proof_is_found() {
    let proof = sha256_hex("id-2");
    let find = |r: &Vec<Heard>| find_instance_by_identity_proof("/i", &proof, r);
    let (asked, answer) = run(
        &find,
        vec![
            Reply::Flag(true),
            Reply::Done,
            entry("one"),
            Reply::Flag(true),
            text("id-1"),
            entry("file"),
            Reply::Flag(false),
            Reply::Entry("/i/odd".to_string(), None),
            Reply::Flag(true),
            entry("blank"),
            Reply::Flag(true),
            Reply::Nothing,
            entry("two"),
            Reply::Flag(true),
            text("id-2"),
            Reply::Nothing,
        ],
    );
    assert_eq!(answer, Reply::Instance("two".to_string(), "/i/two".to_string()));
    assert_eq!(asked[0], Effect::IsDir("/i".to_string()));
    assert_eq!(asked[1], Effect::OpenDir("/i".to_string()));
    assert_eq!(asked[2], Effect::NextEntry("/i".to_string()));
    assert_eq!(asked[3], Effect::IsDir("/i/one".to_string()));
    assert_eq!(asked[4], Effect::ReadIdentity("/i/one".to_string()));
}

#[test]
fn two_holders_of_a_proof_are_refused() {
    let proof = sha256_hex("id");
    let find = |r: &Vec<Heard>| find_instance_by_identity_proof("/i", &proof, r);
    let script = vec![
        Reply::Flag(true),
        Reply::Done,
        entry("one"),
        Reply::Flag(true),
        text("id"),
        entry("two"),
        Reply::Flag(true),
        text("id"),
    ];
    assert_eq!(
        run(&find, script).1,
        failed("Multiple instances match this backup identity proof; refusing unsafe override")
    );
}

#[test]
fn searches_that_find_nothing_or_fail() {
    let find = |r: &Vec<Heard>| find_instance_by_identity_proof("/i", "x", r);
    assert_eq!(run(&find, vec![Reply::Flag(false)]).1, Reply::Nothing);
    assert_eq!(run(&find, vec![Reply::Flag(true), Reply::Done, Reply::Nothing]).1, Reply::Nothing);
    assert_eq!(
        run(&find, vec![Reply::Flag(true), failed("denied")]).1,
        failed("Failed to read instances directory /i: denied")
    );
    assert_eq!(
        run(&find, vec![Reply::Flag(true), Reply::Done, failed("gone")]).1,
        failed("Failed to read instance entry: gone")
    );
}

#[test]
fn the_index_keeps_the_first_holder() {
    let script = vec![
        Reply::Flag(true),
        Reply::Done,
        entry("one"),
        Reply::Flag(true),
        text("id"),
        entry("two"),
        Reply::Flag(true),
        text("id"),
        entry("three"),
        Reply::Flag(true),
        failed("no"),
        entry("four"),
        Reply::Flag(true),
        text("other"),
        Reply::Nothing,
    ];
    let mut replies: Vec<Heard> = Vec::new();
    let mut next = script.into_iter();
    let mut asked = Vec::new();
    let index = loop {
        match build_instance_proof_index("/i", &replies) {
            Step::Ask(e) => {
                asked.push(e);
                replies.push(next.next().unwrap());
            }
            Step::Answer(Reply::Index(p)) => break p,
            Step::Answer(other) => panic!("{:?}", other),
        }
    };
    assert_eq!(asked[4], Effect::EnsureIdentity("/i/one".to_string()));
    assert_eq!(
        index,
        vec![
            (sha256_hex("id"), "one".to_string()),
            (sha256_hex("other"), "four".to_string())
        ]
    );
    assert_eq!(find_in_index(&index, &sha256_hex("other")), Some("four".to_string()));
    assert_eq!(find_in_index(&index, "unknown"), None);
}

#[test]
fn indexes_that_fail() {
    assert_eq!(
        build_instance_proof_index("/i", &vec![Reply::Flag(false)]),
        Step::Answer(Reply::Index(vec![]))
    );
    assert_eq!(
        build_instance_proof_index("/i", &vec![Reply::Flag(true), failed("denied")]),
        Step::Answer(failed("Failed to read instances directory /i: denied"))
    );
    assert_eq!(
        build_instance_proof_index("/i", &vec![Reply::Flag(true), Reply::Done, failed("gone")]),
        Step::Answer(failed("Failed to read instance entry: gone"))
    );
}

#[test]
fn where_a_backup_came_from() {
    let mut m = BackupMetadata {
        id: "1-2".to_string(),
        source_instance: "one".to_string(),
        created_at_unix: 1,
        size_bytes: 0,
        file_count: 0,
        source_instance_proof_sha256: None,
        source_instance_id: Some("id".to_string()),
    };
    assert_eq!(backup_source_identity(&m, Some("file".to_string())), Some("id".to_string()));
    m.source_instance_id = None;
    assert_eq!(backup_source_identity(&m, Some("file".to_string())), Some("file".to_string()));
    assert_eq!(backup_source_identity(&m, None), None);
}
