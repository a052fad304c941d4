use minara::effects::{Answer, Effect, Given, Heard, Move, Reply, Step};
use minara::file_api::{
    api_create_instance_folder, api_delete_instance_entry, api_get_instance_file_content,
    api_save_instance_file_content, api_upload_instance_files, console, download_instance_file,
    files_view, instance_files, instance_settings,
};
use minara::paths::ListedEntry;

fn s(t: &str) -> String {
    t.to_string()
}

fn text(t: &str) -> Heard {
    Reply::Text(s(t))
}

fn failed(t: &str) -> Heard {
    Reply::Failed(s(t))
}

fn yes() -> Heard {
    Reply::Flag(true)
}

fn no() -> Heard {
    Reply::Flag(false)
}

fn error(t: &str) -> Given {
    Answer::Error(s(t))
}

fn drive(f: &dyn Fn(&Vec<Heard>) -> Move, script: Vec<Heard>) -> (Vec<Effect<String, Vec<u8>>>, Given) {
    let mut asked = Vec::new();
    let mut replies = Vec::new();
    let mut next = script.into_iter();
    loop {
        match f(&replies) {
            Step::Ask(e) => {
                asked.push(e);
                replies.push(next.next().unwrap());
            }
            Step::Answer(a) => return (asked, a),
        }
    }
}

#[test]
fn pages_of_an_instance() {
    let open = |r: &Vec<Heard>| console("/i", "one", r);
    let (asked, answer) = drive(&open, vec![yes()]);
    assert_eq!(asked, vec![Effect::IsDir(s("/i/one"))]);
    assert_eq!(answer, Answer::Page);
    assert_eq!(drive(&open, vec![no()]).1, Answer::Home);
    let settings = |r: &Vec<Heard>| instance_settings("/i", "one", r);
    let (asked, answer) = drive(&settings, vec![yes(), text("a=1")]);
    assert_eq!(asked[1], Effect::ReadText(s("/i/one/server.properties")));
    assert_eq!(answer, Answer::SettingsPage(Some(s("a=1"))));
    assert_eq!(drive(&settings, vec![yes(), failed("none")]).1, Answer::SettingsPage(None));
    assert_eq!(drive(&settings, vec![no()]).1, Answer::Home);
}

#[test]
fn the_page_of_the_files() {
    let show = |path: Option<&str>, script: Vec<Heard>| {
        let step = |r: &Vec<Heard>| instance_files("/i", "one", path, r);
        drive(&step, script)
    };
    let (asked, answer) = show(Some("worlds"), vec![yes(), yes()]);
    assert_eq!(asked[1], Effect::IsDir(s("/i/one/worlds")));
    assert_eq!(
        answer,
        Answer::FilesPage { directory: s("/i/one/worlds"), current_path: s("worlds") }
    );
    let top = || Answer::FilesPage { directory: s("/i/one"), current_path: s("") };
    assert_eq!(show(Some("gone"), vec![yes(), no()]).1, top());
    let (asked, answer) = show(Some("../x"), vec![yes(), yes()]);
    assert_eq!(asked[1], Effect::IsDir(s("/i/one")));
    assert_eq!(answer, top());
    assert_eq!(show(None, vec![no()]).1, Answer::Home);
}

#[test]
fn what_the_page_of_the_files_shows() {
    let listed = vec![
        ListedEntry { name: Some(s("b")), is_directory: false, size: Some(3) },
        ListedEntry { name: Some(s("d")), is_directory: true, size: Some(3) },
        ListedEntry { name: Some(s("a")), is_directory: false, size: None },
    ];
    let view = files_view(&listed, "x/y");
    let names: Vec<String> = view.entries.iter().map(|e| e.name.clone()).collect();
    assert_eq!(names, vec![s("d"), s("a"), s("b")]);
    assert_eq!(view.directory_count, 1);
    assert_eq!(view.file_count, 2);
    assert_eq!(view.parent_path, Some(s("x")));
    assert_eq!(view.breadcrumbs.len(), 3);
    assert_eq!(files_view(&vec![], "").parent_path, None);
}

#[test]
fn a_file_is_read_as_text() {
    let read = |r: &Vec<Heard>| api_get_instance_file_content("/i", "one", " ./a.txt", r);
    let (asked, answer) = drive(&read, vec![yes(), yes(), Reply::Bytes("héllo".as_bytes().to_vec())]);
    assert_eq!(
        asked,
        vec![
            Effect::IsDir(s("/i/one")),
            Effect::IsFile(s("/i/one/a.txt")),
            Effect::ReadBytes(s("/i/one/a.txt")),
        ]
    );
    assert_eq!(answer, Answer::Content { path: s("a.txt"), content: s("héllo") });
    assert_eq!(
        drive(&read, vec![yes(), yes(), Reply::Bytes(vec![0xff, 0xfe])]).1,
        error("This file is not UTF-8 text and cannot be edited here")
    );
    assert_eq!(drive(&read, vec![yes(), yes(), failed("e")]).1, error("Failed to read file: e"));
    assert_eq!(drive(&read, vec![yes(), no()]).1, error("File does not exist"));
    assert_eq!(drive(&read, vec![no()]).1, error("Instance does not exist"));
}

#[test]
fn files_that_are_not_read() {
    let read = |path: &str, script: Vec<Heard>| {
        let step = |r: &Vec<Heard>| api_get_instance_file_content("/i", "one", path, r);
        drive(&step, script).1
    };
    assert_eq!(read(".", vec![yes()]), error("File does not exist"));
    assert_eq!(read("/etc/passwd", vec![yes()]), error("Absolute paths are not allowed"));
    assert_eq!(read("../two/x", vec![yes()]), error("Invalid path"));
    assert_eq!(read(".minara_instance_id", vec![yes(), yes()]), error("This file is protected"));
}

fn save(path: &str, original: Option<&str>, script: Vec<Heard>) -> (Vec<Effect<String, Vec<u8>>>, Given) {
    let step = |r: &Vec<Heard>| api_save_instance_file_content("/i", "one", path, original, "new", r);
    drive(&step, script)
}

#[test]
fn a_file_is_saved_in_place() {
    let (asked, answer) = save("d/a.txt", None, vec![yes(), yes(), no(), yes(), Reply::Done]);
    assert_eq!(
        asked,
        vec![
            Effect::IsDir(s("/i/one")),
            Effect::IsFile(s("/i/one/d/a.txt")),
            Effect::IsDir(s("/i/one/d/a.txt")),
            Effect::IsDir(s("/i/one/d")),
            Effect::WriteText(s("/i/one/d/a.txt"), s("new")),
        ]
    );
    assert_eq!(answer, Answer::FileSaved { message: s("File saved"), path: s("d/a.txt") });
    let (asked, _) = save("a.txt", Some("./a.txt"), vec![yes(), yes(), no(), yes(), Reply::Done]);
    assert_eq!(asked[3], Effect::IsDir(s("/i/one")));
    assert_eq!(asked[4], Effect::WriteText(s("/i/one/a.txt"), s("new")));
}

#[test]
fn a_file_is_renamed_and_saved() {
    let (asked, answer) = save(
        "b.txt",
        Some("a.txt"),
        vec![yes(), yes(), no(), yes(), no(), Reply::Done, Reply::Done],
    );
    assert_eq!(
        asked[4..],
        vec![
            Effect::Exists(s("/i/one/b.txt")),
            Effect::Rename(s("/i/one/a.txt"), s("/i/one/b.txt")),
            Effect::WriteText(s("/i/one/b.txt"), s("new")),
        ]
    );
    assert_eq!(
        answer,
        Answer::FileSaved { message: s("File renamed and saved"), path: s("b.txt") }
    );
}

#[test]
fn each_failure_to_save_a_file() {
    assert_eq!(save("a", None, vec![no()]).1, error("Instance does not exist"));
    assert_eq!(save("a", Some("../x"), vec![yes()]).1, error("Invalid path"));
    assert_eq!(save("/a", Some("x"), vec![yes()]).1, error("Absolute paths are not allowed"));
    assert_eq!(save("", None, vec![yes()]).1, error("Invalid file path"));
    assert_eq!(
        save("x/.minara_instance_id", Some("a"), vec![yes()]).1,
        error("This file is protected")
    );
    assert_eq!(save("a", Some(".minara_instance_id"), vec![yes()]).1, error("This file is protected"));
    assert_eq!(save("a", None, vec![yes(), no()]).1, error("Source file does not exist"));
    assert_eq!(save("a", None, vec![yes(), yes(), yes()]).1, error("Cannot save to a directory"));
    assert_eq!(
        save("a", None, vec![yes(), yes(), no(), no()]).1,
        error("Parent directory does not exist")
    );
    assert_eq!(
        save("b", Some("a"), vec![yes(), yes(), no(), yes(), yes()]).1,
        error("Target file already exists")
    );
    assert_eq!(
        save("b", Some("a"), vec![yes(), yes(), no(), yes(), no(), failed("e")]).1,
        error("Failed to rename file: e")
    );
    assert_eq!(
        save("a", None, vec![yes(), yes(), no(), yes(), failed("e")]).1,
        error("Failed to save file: e")
    );
}

fn field(name: &str) -> Heard {
    Reply::Field(Some(s(name)))
}

fn upload(path: Option<&str>, script: Vec<Heard>) -> (Vec<Effect<String, Vec<u8>>>, Given) {
    let step = |r: &Vec<Heard>| api_upload_instance_files("/i", "one", path, r);
    drive(&step, script)
}

#[test]
fn files_are_uploaded() {
    let (asked, answer) = upload(
        Some("worlds"),
        vec![
            yes(),
            yes(),
            field("../../a.txt"),
            Reply::Bytes(vec![1, 2]),
            Reply::Done,
            Reply::Field(None),
            field(".."),
            field(".minara_instance_id"),
            field("b.txt"),
            Reply::Bytes(vec![3]),
            Reply::Done,
            Reply::Nothing,
        ],
    );
    assert_eq!(
        asked,
        vec![
            Effect::IsDir(s("/i/one")),
            Effect::IsDir(s("/i/one/worlds")),
            Effect::NextField,
            Effect::ReadField,
            Effect::WriteBytes(s("/i/one/worlds/a.txt"), vec![1, 2]),
            Effect::NextField,
            Effect::NextField,
            Effect::NextField,
            Effect::NextField,
            Effect::ReadField,
            Effect::WriteBytes(s("/i/one/worlds/b.txt"), vec![3]),
            Effect::NextField,
        ]
    );
    assert_eq!(
        answer,
        Answer::Uploaded {
            message: s("Uploaded 2 file(s)"),
            path: s("worlds"),
            files: vec![s("a.txt"), s("b.txt")]
        }
    );
}

#[test]
fn each_failure_to_upload() {
    assert_eq!(upload(None, vec![no()]).1, error("Instance does not exist"));
    assert_eq!(upload(Some("a/.."), vec![yes()]).1, error("Invalid path"));
    assert_eq!(upload(None, vec![yes(), no()]).1, error("Upload target is not a directory"));
    assert_eq!(upload(None, vec![yes(), yes(), failed("e")]).1, error("Upload stream error: e"));
    assert_eq!(
        upload(None, vec![yes(), yes(), field("a"), failed("e")]).1,
        error("Failed to read uploaded data: e")
    );
    assert_eq!(
        upload(None, vec![yes(), yes(), field("a"), Reply::Bytes(vec![]), failed("e")]).1,
        error("Failed to store a: e")
    );
    assert_eq!(upload(None, vec![yes(), yes(), Reply::Nothing]).1, error("No files were uploaded"));
}

fn folder(current: Option<&str>, name: &str, script: Vec<Heard>) -> (Vec<Effect<String, Vec<u8>>>, Given) {
    let step = |r: &Vec<Heard>| api_create_instance_folder("/i", "one", current, name, r);
    drive(&step, script)
}

#[test]
fn a_folder_is_made() {
    let (asked, answer) = folder(Some("a/b"), " new ", vec![yes(), yes(), no(), Reply::Done]);
    assert_eq!(
        asked,
        vec![
            Effect::IsDir(s("/i/one")),
            Effect::IsDir(s("/i/one/a/b")),
            Effect::Exists(s("/i/one/a/b/new")),
            Effect::CreateDir(s("/i/one/a/b/new")),
        ]
    );
    assert_eq!(answer, Answer::FolderCreated { message: s("Folder created"), path: s("a/b/new") });
    let (asked, answer) = folder(None, "new", vec![yes(), yes(), no(), Reply::Done]);
    assert_eq!(asked[3], Effect::CreateDir(s("/i/one/new")));
    assert_eq!(answer, Answer::FolderCreated { message: s("Folder created"), path: s("new") });
}

#[test]
fn each_failure_to_make_a_folder() {
    assert_eq!(folder(None, "x", vec![no()]).1, error("Instance does not exist"));
    assert_eq!(folder(None, "  ", vec![yes()]).1, error("Folder name cannot be empty"));
    for name in [".", "..", "a/b", "a\\b"] {
        assert_eq!(
            folder(None, name, vec![yes()]).1,
            error("Folder name contains invalid characters")
        );
    }
    assert_eq!(folder(Some("/x"), "a", vec![yes()]).1, error("Absolute paths are not allowed"));
    assert_eq!(folder(None, "a", vec![yes(), no()]).1, error("Target directory does not exist"));
    assert_eq!(
        folder(None, "a", vec![yes(), yes(), yes()]).1,
        error("A file or folder with that name already exists")
    );
    assert_eq!(
        folder(None, "a", vec![yes(), yes(), no(), failed("e")]).1,
        error("Failed to create folder: e")
    );
}

fn delete(path: &str, script: Vec<Heard>) -> (Vec<Effect<String, Vec<u8>>>, Given) {
    let step = |r: &Vec<Heard>| api_delete_instance_entry("/i", "one", path, r);
    drive(&step, script)
}

#[test]
fn files_and_folders_are_deleted() {
    let (asked, answer) = delete("a", vec![yes(), yes(), yes(), Reply::Done]);
    assert_eq!(asked[3], Effect::RemoveDirAll(s("/i/one/a")));
    assert_eq!(
        answer,
        Answer::Deleted { message: s("Folder deleted"), path: s("a"), kind: s("folder") }
    );
    let (asked, answer) = delete("a", vec![yes(), yes(), no(), Reply::Done]);
    assert_eq!(asked[3], Effect::RemoveFile(s("/i/one/a")));
    assert_eq!(answer, Answer::Deleted { message: s("File deleted"), path: s("a"), kind: s("file") });
}

#[test]
fn each_failure_to_delete() {
    assert_eq!(delete("a", vec![no()]).1, error("Instance does not exist"));
    assert_eq!(delete("..", vec![yes()]).1, error("Invalid path"));
    assert_eq!(delete("./", vec![yes()]).1, error("Cannot delete the instance root"));
    assert_eq!(delete(".minara_instance_id", vec![yes()]).1, error("This file is protected"));
    assert_eq!(delete("a", vec![yes(), no()]).1, error("Path does not exist"));
    assert_eq!(
        delete("a", vec![yes(), yes(), yes(), failed("e")]).1,
        error("Failed to delete folder: e")
    );
    assert_eq!(
        delete("a", vec![yes(), yes(), no(), failed("e")]).1,
        error("Failed to delete file: e")
    );
}

#[test]
fn a_file_is_handed_out() {
    let get = |path: &str, script: Vec<Heard>| {
        let step = |r: &Vec<Heard>| download_instance_file("/i", "one", path, r);
        drive(&step, script).1
    };
    assert_eq!(
        get("d/a.zip", vec![yes(), yes(), Reply::Bytes(vec![1, 2])]),
        Answer::Download { disposition: Some(s("attachment; filename=\"a.zip\"")) }
    );
    assert_eq!(
        get("d/\u{e9}\tb", vec![yes(), yes(), Reply::Bytes(vec![])]),
        Answer::Download { disposition: Some(s("attachment; filename=\"\u{e9}\tb\"")) }
    );
    for name in ["a\nb", "a\u{7f}", "\u{1}"] {
        assert_eq!(
            get(name, vec![yes(), yes(), Reply::Bytes(vec![])]),
            Answer::Download { disposition: None }
        );
    }
    assert_eq!(get("a", vec![no()]), Answer::Refused(404, s("Instance not found")));
    assert_eq!(get("/a", vec![yes()]), Answer::Refused(400, s("Absolute paths are not allowed")));
    assert_eq!(get("", vec![yes()]), Answer::Refused(404, s("File not found")));
    assert_eq!(get("a", vec![yes(), no()]), Answer::Refused(404, s("File not found")));
    assert_eq!(
        get("a", vec![yes(), yes(), failed("e")]),
        Answer::Refused(500, s("Failed to read file: e"))
    );
}

#[test]
fn a_saved_file_is_read_back() {
    let (asked, answer) = save(" d\\a.txt", None, vec![yes(), yes(), no(), yes(), Reply::Done]);
    let path = match answer {
        Answer::FileSaved { path, .. } => path,
        other => panic!("{:?}", other),
    };
    let (file, written) = match &asked[4] {
        Effect::WriteText(file, written) => (file.clone(), written.clone()),
        other => panic!("{:?}", other),
    };
    let read = |r: &Vec<Heard>| api_get_instance_file_content("/i", "one", &path, r);
    let (asked, answer) = drive(&read, vec![yes(), yes(), Reply::Bytes(written.clone().into_bytes())]);
    assert_eq!(asked[2], Effect::ReadBytes(file));
    assert_eq!(answer, Answer::Content { path: s("d/a.txt"), content: written });
}
