use minara::effects::{Answer, Effect, Given, Heard, Move, Reply, Step};
use minara::file_api::api_save_instance_settings;
use minara::properties::{
    accept_settings, merge_server_properties_content, parse_property_key_from_line,
    parse_server_properties, SaveSettingItem,
};

fn pairs(list: &[(&str, &str)]) -> Vec<(String, String)> {
    list.iter().map(|(k, v)| (k.to_string(), v.to_string())).collect()
}

fn read(text: &str) -> Vec<(String, String)> {
    parse_server_properties(Some(text)).into_iter().map(|p| (p.key, p.value)).collect()
}

fn items(list: &[(&str, &str)]) -> Vec<SaveSettingItem> {
    list.iter()
        .map(|(k, v)| SaveSettingItem { key: k.to_string(), value: v.to_string() })
        .collect()
}

#[test]
fn settings_are_read_from_their_lines() {
    let text = "# comment\nserver-name = My = World \r\n\nno equals\n=orphan\nmax-players=10\n  #x=1\n";
    assert_eq!(
        read(text),
        pairs(&[("server-name", "My = World"), ("", "orphan"), ("max-players", "10")])
    );
    assert_eq!(parse_server_properties(None).len(), 0);
}

#[test]
fn keys_of_lines() {
    assert_eq!(parse_property_key_from_line(" a = b "), Some("a".to_string()));
    assert_eq!(parse_property_key_from_line("=b"), None);
    assert_eq!(parse_property_key_from_line("#a=b"), None);
    assert_eq!(parse_property_key_from_line(""), None);
    assert_eq!(parse_property_key_from_line("plain"), None);
}

#[test]
fn a_value_is_replaced_in_its_place() {
    let merged = merge_server_properties_content(
        "# head\nfirst=1\nsecond = 2\n\n# tail\n",
        &pairs(&[("second", "two")]),
    );
    assert_eq!(merged, "# head\nfirst=1\nsecond=two\n\n# tail\n");
}

#[test]
fn new_settings_come_after_a_blank_line() {
    assert_eq!(
        merge_server_properties_content("a=1", &pairs(&[("b", "2"), ("c", "3")])),
        "a=1\n\nb=2\nc=3\n"
    );
    assert_eq!(
        merge_server_properties_content("a=1\n  \n", &pairs(&[("b", "2")])),
        "a=1\n  \nb=2\n"
    );
    assert_eq!(merge_server_properties_content("", &pairs(&[("b", "2")])), "b=2\n");
    assert_eq!(merge_server_properties_content("", &pairs(&[])), "");
    assert_eq!(merge_server_properties_content("\n", &pairs(&[])), "");
}

#[test]
fn the_last_of_equal_updates_counts() {
    assert_eq!(
        merge_server_properties_content("a=0\n", &pairs(&[("a", "1"), ("a", "2")])),
        "a=2\n"
    );
    assert_eq!(
        merge_server_properties_content("", &pairs(&[("a", "1"), ("a", "2")])),
        "a=1\na=2\n"
    );
}

#[test]
fn saved_settings_read_back() {
    let before = "# world\r\nlevel-name=Old\nlevel-name = Older\nother=kept\nkeyless\n";
    let updates = pairs(&[("level-name", "New"), ("gamemode", "creative"), ("empty", "")]);
    let after = merge_server_properties_content(before, &updates);
    assert_eq!(
        read(&after),
        pairs(&[
            ("level-name", "New"),
            ("level-name", "New"),
            ("other", "kept"),
            ("gamemode", "creative"),
            ("empty", ""),
        ])
    );
}

#[test]
fn a_saved_line_reads_back_without_the_white_around_it() {
    assert_eq!(
        read("\t a =  b = c \n"),
        pairs(&[("a", "b = c")])
    );
    let after = merge_server_properties_content("", &pairs(&[(" k ", " v=w ")]));
    assert_eq!(read(&after), pairs(&[("k", "v=w")]));
}

#[test]
fn saving_the_same_again_changes_nothing() {
    let updates = pairs(&[("level-name", "New"), ("gamemode", "creative"), ("empty", "")]);
    for before in ["", "\n", "# world\r\nlevel-name=Old\nother=kept\nkeyless", "a=1\n\n\n"] {
        let once = merge_server_properties_content(before, &updates);
        assert_eq!(merge_server_properties_content(&once, &updates), once, "{}", before);
    }
    let spaced = pairs(&[("a", " 1 \r"), ("b", "\t"), ("c", "same"), ("c", "same")]);
    for before in ["", "a=0\r\r\n", "x=1"] {
        let once = merge_server_properties_content(before, &spaced);
        assert_eq!(merge_server_properties_content(&once, &spaced), once, "{}", before);
    }
    let double = pairs(&[("a", "1"), ("a", "2")]);
    let once = merge_server_properties_content("a=0\n", &double);
    assert_eq!(merge_server_properties_content(&once, &double), once);
}

#[test]
fn saving_again_where_a_line_is_not_read_as_it_was_written() {
    let comment = pairs(&[("#k", "v")]);
    let once = merge_server_properties_content("", &comment);
    assert_eq!(once, "#k=v\n");
    assert_eq!(merge_server_properties_content(&once, &comment), "#k=v\n\n#k=v\n");
    let double = pairs(&[("a", "1"), ("a", "2")]);
    let once = merge_server_properties_content("", &double);
    assert_eq!(once, "a=1\na=2\n");
    assert_eq!(merge_server_properties_content(&once, &double), "a=2\na=2\n");
    let none = pairs(&[]);
    assert_eq!(merge_server_properties_content("x\r\r\n", &none), "x\r\n");
    assert_eq!(merge_server_properties_content("x\r\n", &none), "x\n");
}

#[test]
fn a_key_like_a_comment_does_not_read_back() {
    let after = merge_server_properties_content("a=1\n", &pairs(&[("#k", "v")]));
    assert_eq!(after, "a=1\n\n#k=v\n");
    assert_eq!(read(&after), pairs(&[("a", "1")]));
}

#[test]
fn requests_to_save_settings() {
    assert_eq!(
        accept_settings(&items(&[(" a ", " x\ny\r "), ("", "z"), ("a", "again"), ("b", "")])),
        Ok(pairs(&[("a", "x y"), ("b", "")]))
    );
    assert_eq!(
        accept_settings(&items(&[("a", "1"), ("b=c", "2")])),
        Err("Invalid setting key: b=c".to_string())
    );
    assert_eq!(
        accept_settings(&items(&[("b\nc", "2")])),
        Err("Invalid setting key: b\nc".to_string())
    );
    assert_eq!(
        accept_settings(&items(&[("b\rc", "2")])),
        Err("Invalid setting key: b\rc".to_string())
    );
    assert_eq!(
        accept_settings(&items(&[("  ", "2")])),
        Err("Add at least one valid setting before saving".to_string())
    );
}

fn drive(f: &dyn Fn(&Vec<Heard>) -> Move, script: Vec<Heard>) -> (Vec<Effect<String, Vec<u8>>>, Given) {
    let mut asked = Vec::new();
    let mut replies = Vec::new();
    let mut next = script.into_iter();
    loop {
        match f(&replies) {
            Step::Ask(e) => {
                asked.push(e);
                replies.push(next.next().unwrap());
            }
            Step::Answer(a) => return (asked, a),
        }
    }
}

fn error(message: &str) -> Given {
    Answer::Error(message.to_string())
}

#[test]
fn saving_merges_into_the_file() {
    let wanted = items(&[("max-players", "20"), ("new", "1")]);
    let save = |r: &Vec<Heard>| api_save_instance_settings("/i", "one", &wanted, r);
    let (asked, answer) = drive(
        &save,
        vec![
            Reply::Flag(true),
            Reply::Flag(true),
            Reply::Text("max-players=10\n".to_string()),
            Reply::Done,
        ],
    );
    assert_eq!(
        asked,
        vec![
            Effect::IsDir("/i/one".to_string()),
            Effect::Exists("/i/one/server.properties".to_string()),
            Effect::ReadText("/i/one/server.properties".to_string()),
            Effect::WriteText(
                "/i/one/server.properties".to_string(),
                "max-players=20\n\nnew=1\n".to_string()
            ),
        ]
    );
    assert_eq!(
        answer,
        Answer::SettingsSaved { message: "server.properties saved".to_string(), count: 2 }
    );
}

#[test]
fn saving_starts_a_file_where_there_is_none() {
    let wanted = items(&[("a", "1")]);
    let save = |r: &Vec<Heard>| api_save_instance_settings("/i", "one", &wanted, r);
    let (asked, _) = drive(&save, vec![Reply::Flag(true), Reply::Flag(false), Reply::Done]);
    assert_eq!(
        asked[2],
        Effect::WriteText("/i/one/server.properties".to_string(), "a=1\n".to_string())
    );
}

#[test]
fn each_failure_to_save_settings() {
    let wanted = items(&[("a", "1")]);
    let save = |r: &Vec<Heard>| api_save_instance_settings("/i", "one", &wanted, r);
    assert_eq!(drive(&save, vec![Reply::Flag(false)]).1, error("Instance does not exist"));
    assert_eq!(
        drive(
            &save,
            vec![Reply::Flag(true), Reply::Flag(true), Reply::Failed("denied".to_string())]
        )
        .1,
        error("Failed to read existing server.properties: denied")
    );
    assert_eq!(
        drive(
            &save,
            vec![Reply::Flag(true), Reply::Flag(false), Reply::Failed("full".to_string())]
        )
        .1,
        error("Failed to write server.properties: full")
    );
    let bad = items(&[("a=b", "1")]);
    let refuse = |r: &Vec<Heard>| api_save_instance_settings("/i", "one", &bad, r);
    assert_eq!(drive(&refuse, vec![Reply::Flag(true)]).1, error("Invalid setting key: a=b"));
}
