//! The requests on an instance's settings and files.
use vstd::prelude::*;
use vstd::string::*;
use vstd::utf8::{
    decode_utf8, encode_utf8, encode_utf8_decode_utf8, encode_utf8_valid_utf8, valid_utf8,
};

use crate::effects::{
    bytes_told, changes, fault, fault_told, refuse, refused, said_yes, text_told, why_failed,
    Answer, Effect, Heard, Move, MoveView, Reply, Said, Step, Told,
};
use crate::numbers::{decimal, decimal_text};
use crate::order::{sorted, views};
use crate::outside::{is_header_text, is_header_value, utf8_text};
use crate::paths::{
    below, build_file_breadcrumbs, collect_instance_entries, content_disposition, count_entries,
    directory_count, disposition, is_protected, is_trail, is_way_down, join_path, joined_path,
    law_relative_path_comes_back, law_requested_place_is_below, law_step_from_requested_place,
    law_upload_name_is_one_step, leads_to_identity, parent_of, parent_relative_path, path_below, resolve_instance_subpath,
    resolved, sanitize_upload_filename, shown_entries, steps, upload_name, FileBreadcrumb,
    InstanceFileEntry, ListedEntry, INSTANCE_ID_FILENAME,
};
use crate::properties::{
    accept_settings, accepted_settings, is_comment, item_pairs, law_accepted_settings_are_writable,
    law_saved_settings_hold, merge_server_properties_content, merged, pairs, settings_in,
    settings_request, SaveSettingItem,
};
use crate::text::{cat2, cat3, cat4, has_char, opt_str, opt_text, same_text, texts, trim, trimmed};

verus! {

/// Whether a page of an instance is there to be shown.
pub open spec fn opening_page(instances: Seq<char>, name: Seq<char>, r: Seq<Told>) -> MoveView {
    if r.len() == 0 {
        Step::Ask(Effect::IsDir(instances + "/"@ + name))
    } else if r[0].yes() {
        Step::Answer(Answer::Page)
    } else {
        Step::Answer(Answer::Home)
    }
}

/// Opens the console of the instance.
pub fn console(instances_dir: &str, name: &str, replies: &Vec<Heard>) -> (s: Move)
    ensures
        s@ == opening_page(instances_dir@, name@, views(replies@)),
{
    if replies.len() == 0 {
        Step::Ask(Effect::IsDir(cat3(instances_dir, "/", name)))
    } else if said_yes(replies, 0) {
        Step::Answer(Answer::Page)
    } else {
        Step::Answer(Answer::Home)
    }
}

/// Where an instance keeps its settings.
pub open spec fn settings_place(instances: Seq<char>, name: Seq<char>) -> Seq<char> {
    joined_path(joined_path(instances, name), "server.properties"@)
}

/// Showing an instance's settings.
pub open spec fn showing_settings(instances: Seq<char>, name: Seq<char>, r: Seq<Told>) -> MoveView {
    if r.len() == 0 {
        Step::Ask(Effect::IsDir(joined_path(instances, name)))
    } else if !r[0].yes() {
        Step::Answer(Answer::Home)
    } else if r.len() == 1 {
        Step::Ask(Effect::ReadText(settings_place(instances, name)))
    } else {
        Step::Answer(Answer::SettingsPage(r[1].text()))
    }
}

/// Shows the instance's settings.
pub fn instance_settings(instances_dir: &str, name: &str, replies: &Vec<Heard>) -> (s: Move)
    ensures
        s@ == showing_settings(instances_dir@, name@, views(replies@)),
{
    let root = join_path(instances_dir, name);
    if replies.len() == 0 {
        return Step::Ask(Effect::IsDir(root));
    }
    if !said_yes(replies, 0) {
        return Step::Answer(Answer::Home);
    }
    if replies.len() == 1 {
        return Step::Ask(Effect::ReadText(join_path(root.as_str(), "server.properties")));
    }
    Step::Answer(Answer::SettingsPage(text_told(replies, 1)))
}

/// Saving settings: those of the request are merged into the settings file.
pub open spec fn saving_settings(
    instances: Seq<char>,
    name: Seq<char>,
    items: Seq<(Seq<char>, Seq<char>)>,
    r: Seq<Told>,
) -> MoveView {
    let file = settings_place(instances, name);
    if r.len() == 0 {
        Step::Ask(Effect::IsDir(joined_path(instances, name)))
    } else if !r[0].yes() {
        refused("Instance does not exist"@)
    } else {
        match settings_request(items) {
            Err(e) => refused(e),
            Ok(list) => if r.len() == 1 {
                Step::Ask(Effect::Exists(file))
            } else if r[1].yes() && r.len() == 2 {
                Step::Ask(Effect::ReadText(file))
            } else if r[1].yes() && r[2].text() is None {
                refused("Failed to read existing server.properties: "@ + fault(r[2]))
            } else {
                let k: int = if r[1].yes() {
                    3
                } else {
                    2
                };
                let content = if r[1].yes() {
                    r[2].text()->0
                } else {
                    Seq::empty()
                };
                if r.len() == k {
                    Step::Ask(Effect::WriteText(file, merged(content, list)))
                } else if r[k].failure() is Some {
                    refused("Failed to write server.properties: "@ + r[k].failure()->0)
                } else {
                    Step::Answer(
                        Answer::SettingsSaved {
                            message: "server.properties saved"@,
                            count: list.len() as u64,
                        },
                    )
                }
            },
        }
    }
}

/// Saves settings of the instance.
pub fn api_save_instance_settings(
    instances_dir: &str,
    name: &str,
    settings: &Vec<SaveSettingItem>,
    replies: &Vec<Heard>,
) -> (s: Move)
    ensures
        s@ == saving_settings(
            instances_dir@,
            name@,
            item_pairs(settings@),
            views(replies@),
        ),
{
    let n: usize = replies.len();
    let root = join_path(instances_dir, name);
    let file = join_path(root.as_str(), "server.properties");
    if n == 0 {
        return Step::Ask(Effect::IsDir(root));
    }
    if !said_yes(replies, 0) {
        return refuse("Instance does not exist");
    }
    let list = match accept_settings(settings) {
        Ok(list) => list,
        Err(e) => return refuse(e.as_str()),
    };
    if n == 1 {
        return Step::Ask(Effect::Exists(file));
    }
    let mut content = String::new();
    assert(content@ =~= Seq::<char>::empty());
    let mut k: usize = 2;
    if said_yes(replies, 1) {
        if n == 2 {
            return Step::Ask(Effect::ReadText(file));
        }
        content = match text_told(replies, 2) {
            Some(text) => text,
            None => {
                return refuse(
                    cat2(
                        "Failed to read existing server.properties: ",
                        fault_told(replies, 2).as_str(),
                    ).as_str(),
                );
            },
        };
        k = 3;
    }
    if n == k {
        return Step::Ask(
            Effect::WriteText(file, merge_server_properties_content(content.as_str(), &list)),
        );
    }
    if let Some(e) = why_failed(replies, k) {
        return refuse(cat2("Failed to write server.properties: ", e.as_str()).as_str());
    }
    assert(pairs(list@).len() == list@.len());
    Step::Answer(
        Answer::SettingsSaved {
            message: "server.properties saved".to_owned(),
            count: list.len() as u64,
        },
    )
}

/// What is written when settings are saved goes to the settings file and, read
/// again, gives each setting of the request the value that it asked for. The one
/// exception is a key that starts like a comment.
pub proof fn law_saved_settings_can_be_read(
    instances: Seq<char>,
    name: Seq<char>,
    items: Seq<(Seq<char>, Seq<char>)>,
    r: Seq<Told>,
    i: int,
)
    requires
        accepted_settings(items) is Ok,
        0 <= i < accepted_settings(items)->Ok_0.len(),
        !is_comment(accepted_settings(items)->Ok_0[i]),
    ensures
        saving_settings(instances, name, items, r) matches Step::Ask(Effect::WriteText(path, text))
            ==> {
            let p = accepted_settings(items)->Ok_0[i];
            &&& path == settings_place(instances, name)
            &&& settings_in(text).contains(p)
            &&& forall|j: int|
                0 <= j < settings_in(text).len() && (#[trigger] settings_in(text)[j]).0 == p.0
                    ==> settings_in(text)[j] == p
        },
{
    if let Step::Ask(Effect::WriteText(path, text)) = saving_settings(instances, name, items, r) {
        let list = accepted_settings(items)->Ok_0;
        law_accepted_settings_are_writable(items);
        let content = if r[1].yes() {
            r[2].text()->0
        } else {
            Seq::empty()
        };
        assert(text == merged(content, list));
        law_saved_settings_hold(content, list, i);
    }
}

/// Which directory of an instance is shown: the one that the request names, or the
/// instance's own where it names none that is there.
pub open spec fn showing_files(
    instances: Seq<char>,
    name: Seq<char>,
    path: Option<Seq<char>>,
    r: Seq<Told>,
) -> MoveView {
    let root = joined_path(instances, name);
    let (directory, relative) = match resolved(root, path) {
        Ok((p, rel)) => (p, rel),
        Err(_) => (root, Seq::empty()),
    };
    if r.len() == 0 {
        Step::Ask(Effect::IsDir(root))
    } else if !r[0].yes() {
        Step::Answer(Answer::Home)
    } else if r.len() == 1 {
        Step::Ask(Effect::IsDir(directory))
    } else if r[1].yes() {
        Step::Answer(Answer::FilesPage { directory, current_path: relative })
    } else {
        Step::Answer(Answer::FilesPage { directory: root, current_path: Seq::empty() })
    }
}

/// Shows a directory of the instance.
pub fn instance_files(
    instances_dir: &str,
    name: &str,
    path: Option<&str>,
    replies: &Vec<Heard>,
) -> (s: Move)
    ensures
        s@ == showing_files(instances_dir@, name@, opt_str(path), views(replies@)),
{
    let root = join_path(instances_dir, name);
    if replies.len() == 0 {
        return Step::Ask(Effect::IsDir(root));
    }
    if !said_yes(replies, 0) {
        return Step::Answer(Answer::Home);
    }
    let top = String::new();
    assert(top@ =~= Seq::<char>::empty());
    let (directory, relative): (String, String) = match resolve_instance_subpath(
        root.as_str(),
        path,
    ) {
        Ok(place) => place,
        Err(_) => (root.clone(), top.clone()),
    };
    if replies.len() == 1 {
        return Step::Ask(Effect::IsDir(directory));
    }
    if said_yes(replies, 1) {
        Step::Answer(Answer::FilesPage { directory, current_path: relative })
    } else {
        Step::Answer(Answer::FilesPage { directory: root, current_path: top })
    }
}

/// What the page of a directory shows.
pub struct FilesView {
    pub parent_path: Option<String>,
    pub breadcrumbs: Vec<FileBreadcrumb>,
    pub entries: Vec<InstanceFileEntry<String>>,
    pub directory_count: usize,
    pub file_count: usize,
}

/// What the page of the directory shows, from the entries that were listed.
pub fn files_view(listed: &Vec<ListedEntry<String>>, current_path: &str) -> (r: FilesView)
    ensures
        views(r.entries@) == sorted::<InstanceFileEntry<String>>(
            shown_entries(views(listed@), current_path@),
        ),
        r.directory_count == directory_count(views(r.entries@)),
        r.file_count == r.entries@.len() - directory_count(views(r.entries@)),
        is_trail(r.breadcrumbs@, current_path@),
        opt_text(r.parent_path) == parent_of(current_path@),
{
    let entries = collect_instance_entries(listed, current_path);
    let (directories, files): (usize, usize) = count_entries(&entries);
    FilesView {
        parent_path: parent_relative_path(current_path),
        breadcrumbs: build_file_breadcrumbs(current_path),
        entries,
        directory_count: directories,
        file_count: files,
    }
}

/// Reading a file of an instance as text.
pub open spec fn reading_content(
    instances: Seq<char>,
    name: Seq<char>,
    path: Seq<char>,
    r: Seq<Told>,
) -> MoveView {
    let root = joined_path(instances, name);
    if r.len() == 0 {
        Step::Ask(Effect::IsDir(root))
    } else if !r[0].yes() {
        refused("Instance does not exist"@)
    } else {
        match resolved(root, Some(path)) {
            Err(e) => refused(e),
            Ok((file, relative)) => if relative.len() == 0 {
                refused("File does not exist"@)
            } else if r.len() == 1 {
                Step::Ask(Effect::IsFile(file))
            } else if !r[1].yes() {
                refused("File does not exist"@)
            } else if is_protected(file) {
                refused("This file is protected"@)
            } else if r.len() == 2 {
                Step::Ask(Effect::ReadBytes(file))
            } else {
                match r[2] {
                    Reply::Bytes(bytes) => if valid_utf8(bytes) {
                        Step::Answer(
                            Answer::Content { path: relative, content: decode_utf8(bytes) },
                        )
                    } else {
                        refused("This file is not UTF-8 text and cannot be edited here"@)
                    },
                    _ => refused("Failed to read file: "@ + fault(r[2])),
                }
            },
        }
    }
}

/// Reads the file of the instance as text.
pub fn api_get_instance_file_content(
    instances_dir: &str,
    name: &str,
    path: &str,
    replies: &Vec<Heard>,
) -> (s: Move)
    ensures
        s@ == reading_content(instances_dir@, name@, path@, views(replies@)),
{
    let ghost r = views(replies@);
    let n: usize = replies.len();
    let root = join_path(instances_dir, name);
    if n == 0 {
        return Step::Ask(Effect::IsDir(root));
    }
    if !said_yes(replies, 0) {
        return refuse("Instance does not exist");
    }
    let (file, relative): (String, String) = match resolve_instance_subpath(
        root.as_str(),
        Some(path),
    ) {
        Ok(place) => place,
        Err(e) => return refuse(e.as_str()),
    };
    if relative.as_str().is_empty() {
        return refuse("File does not exist");
    }
    if n == 1 {
        return Step::Ask(Effect::IsFile(file));
    }
    if !said_yes(replies, 1) {
        return refuse("File does not exist");
    }
    if leads_to_identity(file.as_str()) {
        return refuse("This file is protected");
    }
    if n == 2 {
        return Step::Ask(Effect::ReadBytes(file));
    }
    assert(r[2] == replies@[2]@);
    match &replies[2] {
        Reply::Bytes(bytes) => match utf8_text(bytes.clone()) {
            Some(content) => Step::Answer(Answer::Content { path: relative, content }),
            None => refuse("This file is not UTF-8 text and cannot be edited here"),
        },
        _ => refuse(cat2("Failed to read file: ", fault_told(replies, 2).as_str()).as_str()),
    }
}

/// The directory that holds what is at a relative path below a root.
pub open spec fn holder(root: Seq<char>, relative: Seq<char>) -> Seq<char> {
    match parent_of(relative) {
        Some(up) => if up.len() == 0 {
            root
        } else {
            joined_path(root, up)
        },
        None => root,
    }
}

/// The directory that holds what is at the relative path below the root.
fn holder_of(root: &str, relative: &str) -> (r: String)
    ensures
        r@ == holder(root@, relative@),
{
    match parent_relative_path(relative) {
        Some(up) => if up.as_str().is_empty() {
            root.to_owned()
        } else {
            join_path(root, up.as_str())
        },
        None => root.to_owned(),
    }
}

/// Saving a file of an instance, and renaming it first where the request gives it
/// another path than it had.
pub open spec fn saving_content(
    instances: Seq<char>,
    name: Seq<char>,
    path: Seq<char>,
    original: Option<Seq<char>>,
    content: Seq<char>,
    r: Seq<Told>,
) -> MoveView {
    let root = joined_path(instances, name);
    let reference = match original {
        Some(o) => o,
        None => path,
    };
    if r.len() == 0 {
        Step::Ask(Effect::IsDir(root))
    } else if !r[0].yes() {
        refused("Instance does not exist"@)
    } else {
        match (resolved(root, Some(reference)), resolved(root, Some(path))) {
            (Err(e), _) => refused(e),
            (_, Err(e)) => refused(e),
            (Ok((source, source_relative)), Ok((target, target_relative))) => {
                let moves = source_relative != target_relative;
                let k: int = if moves {
                    6
                } else {
                    4
                };
                if source_relative.len() == 0 || target_relative.len() == 0 {
                    refused("Invalid file path"@)
                } else if is_protected(source) || is_protected(target) {
                    refused("This file is protected"@)
                } else if r.len() == 1 {
                    Step::Ask(Effect::IsFile(source))
                } else if !r[1].yes() {
                    refused("Source file does not exist"@)
                } else if r.len() == 2 {
                    Step::Ask(Effect::IsDir(target))
                } else if r[2].yes() {
                    refused("Cannot save to a directory"@)
                } else if r.len() == 3 {
                    Step::Ask(Effect::IsDir(holder(root, target_relative)))
                } else if !r[3].yes() {
                    refused("Parent directory does not exist"@)
                } else if moves && r.len() == 4 {
                    Step::Ask(Effect::Exists(target))
                } else if moves && r[4].yes() {
                    refused("Target file already exists"@)
                } else if moves && r.len() == 5 {
                    Step::Ask(Effect::Rename(source, target))
                } else if moves && r[5].failure() is Some {
                    refused("Failed to rename file: "@ + r[5].failure()->0)
                } else if r.len() == k {
                    Step::Ask(Effect::WriteText(target, content))
                } else if r[k].failure() is Some {
                    refused("Failed to save file: "@ + r[k].failure()->0)
                } else {
                    Step::Answer(
                        Answer::FileSaved {
                            message: if moves {
                                "File renamed and saved"@
                            } else {
                                "File saved"@
                            },
                            path: target_relative,
                        },
                    )
                }
            },
        }
    }
}

/// Saves the file of the instance.
pub fn api_save_instance_file_content(
    instances_dir: &str,
    name: &str,
    path: &str,
    original_path: Option<&str>,
    content: &str,
    replies: &Vec<Heard>,
) -> (s: Move)
    ensures
        s@ == saving_content(
            instances_dir@,
            name@,
            path@,
            opt_str(original_path),
            content@,
            views(replies@),
        ),
{
    let n: usize = replies.len();
    let root = join_path(instances_dir, name);
    if n == 0 {
        return Step::Ask(Effect::IsDir(root));
    }
    if !said_yes(replies, 0) {
        return refuse("Instance does not exist");
    }
    let reference = match original_path {
        Some(original) => original,
        None => path,
    };
    let (source, source_relative): (String, String) = match resolve_instance_subpath(
        root.as_str(),
        Some(reference),
    ) {
        Ok(place) => place,
        Err(e) => return refuse(e.as_str()),
    };
    let (target, target_relative): (String, String) = match resolve_instance_subpath(
        root.as_str(),
        Some(path),
    ) {
        Ok(place) => place,
        Err(e) => return refuse(e.as_str()),
    };
    if source_relative.as_str().is_empty() || target_relative.as_str().is_empty() {
        return refuse("Invalid file path");
    }
    if leads_to_identity(source.as_str()) || leads_to_identity(target.as_str()) {
        return refuse("This file is protected");
    }
    if n == 1 {
        return Step::Ask(Effect::IsFile(source));
    }
    if !said_yes(replies, 1) {
        return refuse("Source file does not exist");
    }
    if n == 2 {
        return Step::Ask(Effect::IsDir(target));
    }
    if said_yes(replies, 2) {
        return refuse("Cannot save to a directory");
    }
    if n == 3 {
        return Step::Ask(Effect::IsDir(holder_of(root.as_str(), target_relative.as_str())));
    }
    if !said_yes(replies, 3) {
        return refuse("Parent directory does not exist");
    }
    let moves = !same_text(source_relative.as_str(), target_relative.as_str());
    let mut k: usize = 4;
    if moves {
        if n == 4 {
            return Step::Ask(Effect::Exists(target));
        }
        if said_yes(replies, 4) {
            return refuse("Target file already exists");
        }
        if n == 5 {
            return Step::Ask(Effect::Rename(source, target));
        }
        if let Some(e) = why_failed(replies, 5) {
            return refuse(cat2("Failed to rename file: ", e.as_str()).as_str());
        }
        k = 6;
    }
    if n == k {
        return Step::Ask(Effect::WriteText(target, content.to_owned()));
    }
    if let Some(e) = why_failed(replies, k) {
        return refuse(cat2("Failed to save file: ", e.as_str()).as_str());
    }
    Step::Answer(
        Answer::FileSaved {
            message: if moves {
                "File renamed and saved".to_owned()
            } else {
                "File saved".to_owned()
            },
            path: target_relative,
        },
    )
}

/// Storing the files of an upload from reply `i` on, after those in the list: a
/// field, its bytes, and the writing. A field without a usable file name is passed
/// over, and so is one that would go to the identity file.
pub open spec fn upload_walk(
    directory: Seq<char>,
    relative: Seq<char>,
    r: Seq<Told>,
    i: int,
    stored: Seq<Seq<char>>,
) -> MoveView
    decreases r.len() - i,
{
    if i < 0 || i >= r.len() {
        Step::Ask(Effect::NextField)
    } else {
        match r[i] {
            Reply::Failed(e) => refused("Upload stream error: "@ + e),
            Reply::Field(raw) => match stored_name(raw) {
                None => upload_walk(directory, relative, r, i + 1, stored),
                Some(name) => if i + 1 >= r.len() {
                    Step::Ask(Effect::ReadField)
                } else if r[i + 1].failure() is Some {
                    refused("Failed to read uploaded data: "@ + r[i + 1].failure()->0)
                } else if i + 2 >= r.len() {
                    Step::Ask(
                        Effect::WriteBytes(joined_path(directory, name), bytes_told(r[i + 1])),
                    )
                } else if r[i + 2].failure() is Some {
                    refused("Failed to store "@ + name + ": "@ + r[i + 2].failure()->0)
                } else {
                    upload_walk(directory, relative, r, i + 3, stored.push(name))
                },
            },
            _ => if stored.len() == 0 {
                refused("No files were uploaded"@)
            } else {
                Step::Answer(
                    Answer::Uploaded {
                        message: "Uploaded "@ + decimal(stored.len()) + " file(s)"@,
                        path: relative,
                        files: stored,
                    },
                )
            },
        }
    }
}

/// The name under which the file of an upload field is stored, if it is.
pub open spec fn stored_name(raw: Option<Seq<char>>) -> Option<Seq<char>> {
    match raw {
        Some(raw) => match upload_name(raw) {
            Some(name) => if name == INSTANCE_ID_FILENAME@ {
                None
            } else {
                Some(name)
            },
            None => None,
        },
        None => None,
    }
}

/// Storing the files of an upload in a directory of an instance.
pub open spec fn uploading(
    instances: Seq<char>,
    name: Seq<char>,
    path: Option<Seq<char>>,
    r: Seq<Told>,
) -> MoveView {
    let root = joined_path(instances, name);
    if r.len() == 0 {
        Step::Ask(Effect::IsDir(root))
    } else if !r[0].yes() {
        refused("Instance does not exist"@)
    } else {
        match resolved(root, path) {
            Err(e) => refused(e),
            Ok((directory, relative)) => if r.len() == 1 {
                Step::Ask(Effect::IsDir(directory))
            } else if !r[1].yes() {
                refused("Upload target is not a directory"@)
            } else {
                upload_walk(directory, relative, r, 2, Seq::empty())
            },
        }
    }
}

/// The name under which the file of an upload field is stored, if it is.
fn name_to_store(raw: &Option<String>) -> (r: Option<String>)
    ensures
        opt_text(r) == stored_name(opt_text(*raw)),
{
    match raw {
        Some(raw) => match sanitize_upload_filename(raw.as_str()) {
            Some(name) => if same_text(name.as_str(), INSTANCE_ID_FILENAME) {
                None
            } else {
                Some(name)
            },
            None => None,
        },
        None => None,
    }
}

/// Stores the files of the upload.
pub fn api_upload_instance_files(
    instances_dir: &str,
    name: &str,
    path: Option<&str>,
    replies: &Vec<Heard>,
) -> (s: Move)
    ensures
        s@ == uploading(instances_dir@, name@, opt_str(path), views(replies@)),
{
    let ghost r = views(replies@);
    let n: usize = replies.len();
    let root = join_path(instances_dir, name);
    if n == 0 {
        return Step::Ask(Effect::IsDir(root));
    }
    if !said_yes(replies, 0) {
        return refuse("Instance does not exist");
    }
    let (directory, relative): (String, String) = match resolve_instance_subpath(
        root.as_str(),
        path,
    ) {
        Ok(place) => place,
        Err(e) => return refuse(e.as_str()),
    };
    if n == 1 {
        return Step::Ask(Effect::IsDir(directory));
    }
    if !said_yes(replies, 1) {
        return refuse("Upload target is not a directory");
    }
    let mut stored: Vec<String> = Vec::new();
    assert(texts(stored@) =~= Seq::empty());
    let mut i: usize = 2;
    let ghost goal = upload_walk(directory@, relative@, r, 2, Seq::empty());
    while i < n
        invariant
            n == replies@.len(),
            i <= n,
            r == views(replies@),
            goal == uploading(instances_dir@, name@, opt_str(path), r),
            goal == upload_walk(directory@, relative@, r, i as int, texts(stored@)),
        decreases n - i,
    {
        assert(r[i as int] == replies@[i as int]@);
        match &replies[i] {
            Reply::Failed(e) => {
                return refuse(cat2("Upload stream error: ", e.as_str()).as_str());
            },
            Reply::Field(raw) => {
                let file = match name_to_store(raw) {
                    Some(file) => file,
                    None => {
                        i = i + 1;
                        continue;
                    },
                };
                if i + 1 >= n {
                    return Step::Ask(Effect::ReadField);
                }
                if let Some(e) = why_failed(replies, i + 1) {
                    return refuse(cat2("Failed to read uploaded data: ", e.as_str()).as_str());
                }
                if i + 2 >= n {
                    let place = join_path(directory.as_str(), file.as_str());
                    assert(r[i + 1] == replies@[i + 1]@);
                    return Step::Ask(
                        match &replies[i + 1] {
                            Reply::Bytes(bytes) => Effect::WriteBytes(place, bytes.clone()),
                            _ => {
                                let none: Vec<u8> = Vec::new();
                                assert(none@ =~= Seq::empty());
                                Effect::WriteBytes(place, none)
                            },
                        },
                    );
                }
                if let Some(e) = why_failed(replies, i + 2) {
                    return refuse(
                        cat4("Failed to store ", file.as_str(), ": ", e.as_str()).as_str(),
                    );
                }
                let ghost before = stored@;
                stored.push(file);
                assert(texts(stored@) =~= texts(before).push(file@));
                i = i + 3;
            },
            _ => {
                assert(texts(stored@).len() == stored@.len());
                if stored.len() == 0 {
                    return refuse("No files were uploaded");
                }
                return Step::Answer(
                    Answer::Uploaded {
                        message: cat3(
                            "Uploaded ",
                            decimal_text(stored.len() as u64).as_str(),
                            " file(s)",
                        ),
                        path: relative,
                        files: stored,
                    },
                );
            },
        }
    }
    Step::Ask(Effect::NextField)
}

/// Whether a folder cannot have the name.
pub open spec fn is_bad_folder_name(folder: Seq<char>) -> bool {
    ||| folder == "."@
    ||| folder == ".."@
    ||| folder.contains('/')
    ||| folder.contains('\\')
}

/// Making a folder in a directory of an instance.
pub open spec fn making_folder(
    instances: Seq<char>,
    name: Seq<char>,
    current: Option<Seq<char>>,
    wanted: Seq<char>,
    r: Seq<Told>,
) -> MoveView {
    let root = joined_path(instances, name);
    let folder = trimmed(wanted);
    if r.len() == 0 {
        Step::Ask(Effect::IsDir(root))
    } else if !r[0].yes() {
        refused("Instance does not exist"@)
    } else if folder.len() == 0 {
        refused("Folder name cannot be empty"@)
    } else if is_bad_folder_name(folder) {
        refused("Folder name contains invalid characters"@)
    } else {
        match resolved(root, current) {
            Err(e) => refused(e),
            Ok((parent, relative)) => if r.len() == 1 {
                Step::Ask(Effect::IsDir(parent))
            } else if !r[1].yes() {
                refused("Target directory does not exist"@)
            } else if r.len() == 2 {
                Step::Ask(Effect::Exists(joined_path(parent, folder)))
            } else if r[2].yes() {
                refused("A file or folder with that name already exists"@)
            } else if r.len() == 3 {
                Step::Ask(Effect::CreateDir(joined_path(parent, folder)))
            } else if r[3].failure() is Some {
                refused("Failed to create folder: "@ + r[3].failure()->0)
            } else {
                Step::Answer(
                    Answer::FolderCreated {
                        message: "Folder created"@,
                        path: below(relative, folder),
                    },
                )
            },
        }
    }
}

/// Makes a folder in a directory of the instance.
pub fn api_create_instance_folder(
    instances_dir: &str,
    name: &str,
    current_path: Option<&str>,
    folder_name: &str,
    replies: &Vec<Heard>,
) -> (s: Move)
    ensures
        s@ == making_folder(
            instances_dir@,
            name@,
            opt_str(current_path),
            folder_name@,
            views(replies@),
        ),
{
    let n: usize = replies.len();
    let root = join_path(instances_dir, name);
    if n == 0 {
        return Step::Ask(Effect::IsDir(root));
    }
    if !said_yes(replies, 0) {
        return refuse("Instance does not exist");
    }
    let folder = trim(folder_name);
    if folder.is_empty() {
        return refuse("Folder name cannot be empty");
    }
    if same_text(folder, ".") || same_text(folder, "..") || has_char(folder, '/') || has_char(
        folder,
        '\\',
    ) {
        return refuse("Folder name contains invalid characters");
    }
    let (parent, relative): (String, String) = match resolve_instance_subpath(
        root.as_str(),
        current_path,
    ) {
        Ok(place) => place,
        Err(e) => return refuse(e.as_str()),
    };
    if n == 1 {
        return Step::Ask(Effect::IsDir(parent));
    }
    if !said_yes(replies, 1) {
        return refuse("Target directory does not exist");
    }
    let place = join_path(parent.as_str(), folder);
    if n == 2 {
        return Step::Ask(Effect::Exists(place));
    }
    if said_yes(replies, 2) {
        return refuse("A file or folder with that name already exists");
    }
    if n == 3 {
        return Step::Ask(Effect::CreateDir(place));
    }
    if let Some(e) = why_failed(replies, 3) {
        return refuse(cat2("Failed to create folder: ", e.as_str()).as_str());
    }
    Step::Answer(
        Answer::FolderCreated {
            message: "Folder created".to_owned(),
            path: path_below(relative.as_str(), folder),
        },
    )
}

/// Deleting a file or a folder of an instance.
pub open spec fn deleting_entry(
    instances: Seq<char>,
    name: Seq<char>,
    path: Seq<char>,
    r: Seq<Told>,
) -> MoveView {
    let root = joined_path(instances, name);
    if r.len() == 0 {
        Step::Ask(Effect::IsDir(root))
    } else if !r[0].yes() {
        refused("Instance does not exist"@)
    } else {
        match resolved(root, Some(path)) {
            Err(e) => refused(e),
            Ok((target, relative)) => if relative.len() == 0 {
                refused("Cannot delete the instance root"@)
            } else if is_protected(target) {
                refused("This file is protected"@)
            } else if r.len() == 1 {
                Step::Ask(Effect::Exists(target))
            } else if !r[1].yes() {
                refused("Path does not exist"@)
            } else if r.len() == 2 {
                Step::Ask(Effect::IsDir(target))
            } else {
                let is_folder = r[2].yes();
                if r.len() == 3 {
                    if is_folder {
                        Step::Ask(Effect::RemoveDirAll(target))
                    } else {
                        Step::Ask(Effect::RemoveFile(target))
                    }
                } else if r[3].failure() is Some {
                    refused(
                        if is_folder {
                            "Failed to delete folder: "@ + r[3].failure()->0
                        } else {
                            "Failed to delete file: "@ + r[3].failure()->0
                        },
                    )
                } else {
                    Step::Answer(
                        Answer::Deleted {
                            message: if is_folder {
                                "Folder deleted"@
                            } else {
                                "File deleted"@
                            },
                            path: relative,
                            kind: if is_folder {
                                "folder"@
                            } else {
                                "file"@
                            },
                        },
                    )
                }
            },
        }
    }
}

/// Deletes the file or folder of the instance.
pub fn api_delete_instance_entry(
    instances_dir: &str,
    name: &str,
    path: &str,
    replies: &Vec<Heard>,
) -> (s: Move)
    ensures
        s@ == deleting_entry(instances_dir@, name@, path@, views(replies@)),
{
    let n: usize = replies.len();
    let root = join_path(instances_dir, name);
    if n == 0 {
        return Step::Ask(Effect::IsDir(root));
    }
    if !said_yes(replies, 0) {
        return refuse("Instance does not exist");
    }
    let (target, relative): (String, String) = match resolve_instance_subpath(
        root.as_str(),
        Some(path),
    ) {
        Ok(place) => place,
        Err(e) => return refuse(e.as_str()),
    };
    if relative.as_str().is_empty() {
        return refuse("Cannot delete the instance root");
    }
    if leads_to_identity(target.as_str()) {
        return refuse("This file is protected");
    }
    if n == 1 {
        return Step::Ask(Effect::Exists(target));
    }
    if !said_yes(replies, 1) {
        return refuse("Path does not exist");
    }
    if n == 2 {
        return Step::Ask(Effect::IsDir(target));
    }
    let is_folder = said_yes(replies, 2);
    if n == 3 {
        return if is_folder {
            Step::Ask(Effect::RemoveDirAll(target))
        } else {
            Step::Ask(Effect::RemoveFile(target))
        };
    }
    if let Some(e) = why_failed(replies, 3) {
        return if is_folder {
            refuse(cat2("Failed to delete folder: ", e.as_str()).as_str())
        } else {
            refuse(cat2("Failed to delete file: ", e.as_str()).as_str())
        };
    }
    Step::Answer(
        if is_folder {
            Answer::Deleted {
                message: "Folder deleted".to_owned(),
                path: relative,
                kind: "folder".to_owned(),
            }
        } else {
            Answer::Deleted {
                message: "File deleted".to_owned(),
                path: relative,
                kind: "file".to_owned(),
            }
        },
    )
}

/// The header that offers a file under its name, where a header can tell that name.
pub open spec fn offered_name(path: Seq<char>) -> Option<Seq<char>> {
    if is_header_text(disposition(path)) {
        Some(disposition(path))
    } else {
        None
    }
}

/// The header that offers the file under its name, where a header can tell that
/// name.
fn offer_name(path: &str) -> (r: Option<String>)
    ensures
        opt_text(r) == offered_name(path@),
{
    let text = content_disposition(path);
    if is_header_value(text.as_str()) {
        Some(text)
    } else {
        None
    }
}

/// Handing out a file of an instance.
pub open spec fn downloading(
    instances: Seq<char>,
    name: Seq<char>,
    path: Seq<char>,
    r: Seq<Told>,
) -> MoveView {
    let root = joined_path(instances, name);
    if r.len() == 0 {
        Step::Ask(Effect::IsDir(root))
    } else if !r[0].yes() {
        Step::Answer(Answer::Refused(404, "Instance not found"@))
    } else {
        match resolved(root, Some(path)) {
            Err(e) => Step::Answer(Answer::Refused(400, e)),
            Ok((file, relative)) => if relative.len() == 0 {
                Step::Answer(Answer::Refused(404, "File not found"@))
            } else if r.len() == 1 {
                Step::Ask(Effect::IsFile(file))
            } else if !r[1].yes() {
                Step::Answer(Answer::Refused(404, "File not found"@))
            } else if r.len() == 2 {
                Step::Ask(Effect::ReadBytes(file))
            } else if r[2] is Bytes {
                Step::Answer(Answer::Download { disposition: offered_name(file) })
            } else {
                Step::Answer(Answer::Refused(500, "Failed to read file: "@ + fault(r[2])))
            },
        }
    }
}

/// Hands out the file of the instance.
pub fn download_instance_file(
    instances_dir: &str,
    name: &str,
    path: &str,
    replies: &Vec<Heard>,
) -> (s: Move)
    ensures
        s@ == downloading(instances_dir@, name@, path@, views(replies@)),
{
    let ghost r = views(replies@);
    let n: usize = replies.len();
    let root = join_path(instances_dir, name);
    if n == 0 {
        return Step::Ask(Effect::IsDir(root));
    }
    if !said_yes(replies, 0) {
        return Step::Answer(Answer::Refused(404, "Instance not found".to_owned()));
    }
    let (file, relative): (String, String) = match resolve_instance_subpath(
        root.as_str(),
        Some(path),
    ) {
        Ok(place) => place,
        Err(e) => return Step::Answer(Answer::Refused(400, e)),
    };
    if relative.as_str().is_empty() {
        return Step::Answer(Answer::Refused(404, "File not found".to_owned()));
    }
    if n == 1 {
        return Step::Ask(Effect::IsFile(file));
    }
    if !said_yes(replies, 1) {
        return Step::Answer(Answer::Refused(404, "File not found".to_owned()));
    }
    if n == 2 {
        return Step::Ask(Effect::ReadBytes(file));
    }
    assert(r[2] == replies@[2]@);
    match &replies[2] {
        Reply::Bytes(_) => Step::Answer(
            Answer::Download { disposition: offer_name(file.as_str()) },
        ),
        _ => Step::Answer(
            Answer::Refused(500, cat2("Failed to read file: ", fault_told(replies, 2).as_str())),
        ),
    }
}

/// Whether the path is a way down from the directory and does not end at the
/// identity file.
pub open spec fn is_free_below(root: Seq<char>, path: Seq<char>) -> bool {
    exists|rel: Seq<char>|
        {
            &&& #[trigger] is_way_down(rel)
            &&& path == joined_path(root, rel)
            &&& steps(rel).last() != INSTANCE_ID_FILENAME@
        }
}

proof fn lemma_free_below(root: Seq<char>, requested: Option<Seq<char>>)
    ensures
        resolved(root, requested) matches Ok((place, rel)) ==> (rel.len() > 0 && !is_protected(place)
            ==> is_free_below(root, place)),
{
    law_requested_place_is_below(root, requested);
    if let Ok((place, rel)) = resolved(root, requested) {
        if rel.len() > 0 && !is_protected(place) {
            assert(is_way_down(rel));
        }
    }
}

/// Saving a file changes only what is below the instance's directory, and never
/// the identity file, whatever the request and whatever the replies.
pub proof fn law_saving_stays_below(
    instances: Seq<char>,
    name: Seq<char>,
    path: Seq<char>,
    original: Option<Seq<char>>,
    content: Seq<char>,
    r: Seq<Told>,
)
    ensures
        saving_content(instances, name, path, original, content, r) matches Step::Ask(e) ==> forall|
            p: Seq<char>,
        |
            changes(e).contains(p) ==> is_free_below(joined_path(instances, name), p),
{
    let root = joined_path(instances, name);
    let reference = match original {
        Some(o) => o,
        None => path,
    };
    lemma_free_below(root, Some(reference));
    lemma_free_below(root, Some(path));
}

/// A file is renamed only to a place where there was nothing, and saving succeeds
/// only for a file that was there.
pub proof fn law_saving_replaces_no_other_file(
    instances: Seq<char>,
    name: Seq<char>,
    path: Seq<char>,
    original: Option<Seq<char>>,
    content: Seq<char>,
    r: Seq<Told>,
)
    ensures
        saving_content(instances, name, path, original, content, r) matches Step::Ask(
            Effect::Rename(a, b),
        ) ==> {
            &&& r.len() == 5
            &&& r[1].yes()
            &&& saving_content(instances, name, path, original, content, r.take(4)) == Step::<
                Seq<char>,
                Seq<u8>,
                Said,
            >::Ask(Effect::Exists(b))
            &&& !r[4].yes()
        },
        saving_content(instances, name, path, original, content, r) matches Step::Answer(
            Answer::FileSaved { .. },
        ) ==> r[1].yes(),
{
    if r.len() == 5 {
        assert forall|i: int| 0 <= i < 4 implies r.take(4)[i] == r[i] by {}
    }
}

/// Deleting changes only what is below the instance's directory, never that
/// directory itself and never the identity file.
pub proof fn law_deleting_stays_below(
    instances: Seq<char>,
    name: Seq<char>,
    path: Seq<char>,
    r: Seq<Told>,
)
    ensures
        deleting_entry(instances, name, path, r) matches Step::Ask(e) ==> forall|p: Seq<char>|
            changes(e).contains(p) ==> is_free_below(joined_path(instances, name), p),
{
    lemma_free_below(joined_path(instances, name), Some(path));
}

/// A folder is made below the instance's directory, and only where there was
/// nothing.
pub proof fn law_folder_is_made_below(
    instances: Seq<char>,
    name: Seq<char>,
    current: Option<Seq<char>>,
    wanted: Seq<char>,
    r: Seq<Told>,
)
    ensures
        making_folder(instances, name, current, wanted, r) matches Step::Ask(e) ==> forall|
            p: Seq<char>,
        |
            changes(e).contains(p) ==> {
                &&& exists|rel: Seq<char>|
                    #[trigger] is_way_down(rel) && p == joined_path(
                        joined_path(instances, name),
                        rel,
                    )
                &&& !r[2].yes()
            },
        making_folder(instances, name, current, wanted, r) matches Step::Answer(
            Answer::FolderCreated { path, .. },
        ) ==> is_way_down(path),
{
    let root = joined_path(instances, name);
    let folder = trimmed(wanted);
    if folder.len() > 0 && !is_bad_folder_name(folder) {
        law_step_from_requested_place(root, current, folder);
    }
}

proof fn lemma_upload_stores(
    root: Seq<char>,
    requested: Option<Seq<char>>,
    r: Seq<Told>,
    i: int,
    stored: Seq<Seq<char>>,
)
    requires
        resolved(root, requested) is Ok,
    ensures
        ({
            let (directory, relative) = resolved(root, requested)->Ok_0;
            upload_walk(directory, relative, r, i, stored) matches Step::Ask(e) ==> forall|
                p: Seq<char>,
            |
                changes(e).contains(p) ==> is_free_below(root, p)
        }),
    decreases r.len() - i,
{
    let (directory, relative) = resolved(root, requested)->Ok_0;
    if 0 <= i && i < r.len() {
        if let Reply::Field(raw) = r[i] {
            match stored_name(raw) {
                None => {
                    lemma_upload_stores(root, requested, r, i + 1, stored);
                },
                Some(name) => {
                    law_upload_name_is_one_step(raw->0);
                    law_step_from_requested_place(root, requested, name);
                    assert(is_way_down(below(relative, name)));
                    assert(is_free_below(root, joined_path(directory, name)));
                    if i + 2 < r.len() {
                        lemma_upload_stores(root, requested, r, i + 3, stored.push(name));
                    }
                },
            }
        }
    }
}

/// An upload changes only what is below the instance's directory, and never the
/// identity file, whatever names its files come with.
pub proof fn law_upload_stays_below(
    instances: Seq<char>,
    name: Seq<char>,
    path: Option<Seq<char>>,
    r: Seq<Told>,
)
    ensures
        uploading(instances, name, path, r) matches Step::Ask(e) ==> forall|p: Seq<char>|
            changes(e).contains(p) ==> is_free_below(joined_path(instances, name), p),
{
    let root = joined_path(instances, name);
    if resolved(root, path) is Ok {
        lemma_upload_stores(root, path, r, 2, Seq::empty());
    }
}

/// A write of an upload follows the reading of a field.
proof fn lemma_upload_writes(
    directory: Seq<char>,
    relative: Seq<char>,
    r: Seq<Told>,
    i: int,
    stored: Seq<Seq<char>>,
)
    requires
        0 <= i,
    ensures
        upload_walk(directory, relative, r, i, stored) matches Step::Ask(Effect::WriteBytes(p, b))
            ==> {
            &&& r.len() > i
            &&& upload_walk(directory, relative, r.drop_last(), i, stored) == MoveView::Ask(
                Effect::ReadField,
            )
            &&& b == bytes_told(r.last())
        },
    decreases r.len() - i,
{
    if i < r.len() {
        let q = r.drop_last();
        assert(i < q.len() ==> q[i] == r[i]);
        if let Reply::Field(raw) = r[i] {
            match stored_name(raw) {
                None => {
                    lemma_upload_writes(directory, relative, r, i + 1, stored);
                },
                Some(name) => {
                    assert(i + 1 < q.len() ==> q[i + 1] == r[i + 1]);
                    assert(i + 2 < q.len() ==> q[i + 2] == r[i + 2]);
                    if i + 2 < r.len() {
                        lemma_upload_writes(directory, relative, r, i + 3, stored.push(name));
                    }
                },
            }
        }
    }
}

/// What an upload stores is what was read of the field just before.
pub proof fn law_upload_stores_what_was_read(
    instances: Seq<char>,
    name: Seq<char>,
    path: Option<Seq<char>>,
    r: Seq<Told>,
)
    ensures
        uploading(instances, name, path, r) matches Step::Ask(Effect::WriteBytes(p, b)) ==> {
            &&& r.len() > 0
            &&& uploading(instances, name, path, r.drop_last()) == MoveView::Ask(Effect::ReadField)
            &&& b == bytes_told(r.last())
        },
{
    if let Ok((directory, relative)) = resolved(joined_path(instances, name), path) {
        lemma_upload_writes(directory, relative, r, 2, Seq::empty());
        if r.len() > 2 {
            assert(r.drop_last()[0] == r[0] && r.drop_last()[1] == r[1]);
        }
    }
}

/// Saving a file comes to an end after seven replies at most.
pub proof fn law_saving_ends(
    instances: Seq<char>,
    name: Seq<char>,
    path: Seq<char>,
    original: Option<Seq<char>>,
    content: Seq<char>,
    r: Seq<Told>,
)
    requires
        r.len() >= 7,
    ensures
        saving_content(instances, name, path, original, content, r) is Answer,
{
}

/// A file that was saved is read back: the path that the answer gives leads to the
/// file that was written, and its bytes are answered as the text that was saved.
/// The exception is a path with white space at an end.
pub proof fn law_saved_file_is_read_back(
    instances: Seq<char>,
    name: Seq<char>,
    path: Seq<char>,
    original: Option<Seq<char>>,
    content: Seq<char>,
    r: Seq<Told>,
    given: Seq<char>,
)
    requires
        r.len() > 0,
        saving_content(instances, name, path, original, content, r) matches Step::Answer(
            Answer::FileSaved { path: p, .. },
        ) && p == given,
        saving_content(instances, name, path, original, content, r.drop_last()) is Ask,
        trimmed(given) == given,
    ensures
        saving_content(instances, name, path, original, content, r.drop_last()) matches Step::Ask(
            Effect::WriteText(file, text),
        ) && {
            &&& text == content
            &&& reading_content(instances, name, given, seq![Reply::Flag(true), Reply::Flag(true)])
                == Step::<Seq<char>, Seq<u8>, Said>::Ask(Effect::ReadBytes(file))
            &&& reading_content(
                instances,
                name,
                given,
                seq![Reply::Flag(true), Reply::Flag(true), Reply::Bytes(encode_utf8(content))],
            ) == Step::<Seq<char>, Seq<u8>, Said>::Answer(Answer::Content { path: given, content })
        },
{
    let root = joined_path(instances, name);
    let q = r.drop_last();
    assert forall|i: int| 0 <= i < q.len() implies q[i] == r[i] by {}
    law_relative_path_comes_back(root, Some(path));
    encode_utf8_valid_utf8(content);
    encode_utf8_decode_utf8(content);
}

/// A page of an instance is shown where the instance is there, and otherwise the page of
/// all instances. The settings page shows the settings file where it can be read, and the
/// files page the wanted directory where it is one, and otherwise the topmost.
pub proof fn law_pages_are_shown(
    instances: Seq<char>,
    name: Seq<char>,
    path: Option<Seq<char>>,
    x: Told,
    y: Told,
)
    ensures
        ({
            let root = joined_path(instances, name);
            let home = MoveView::Answer(Answer::Home);
            let there = x == Told::Flag(true);
            &&& opening_page(instances, name, Seq::empty()) == MoveView::Ask(
                Effect::IsDir(instances + "/"@ + name),
            )
            &&& opening_page(instances, name, seq![x]) == (if there {
                MoveView::Answer(Answer::Page)
            } else {
                home
            })
            &&& showing_settings(instances, name, Seq::empty()) == MoveView::Ask(
                Effect::IsDir(root),
            )
            &&& showing_settings(instances, name, seq![x]) == (if there {
                MoveView::Ask(Effect::ReadText(joined_path(root, "server.properties"@)))
            } else {
                home
            })
            &&& there ==> showing_settings(instances, name, seq![x, y]) == MoveView::Answer(
                Answer::SettingsPage(
                    match y {
                        Reply::Text(text) => Some(text),
                        _ => None,
                    },
                ),
            )
            &&& showing_files(instances, name, path, Seq::empty()) == MoveView::Ask(
                Effect::IsDir(root),
            )
            &&& showing_files(instances, name, path, seq![x]) == (if there {
                MoveView::Ask(
                    Effect::IsDir(
                        match resolved(root, path) {
                            Ok((directory, _)) => directory,
                            Err(_) => root,
                        },
                    ),
                )
            } else {
                home
            })
            &&& there ==> showing_files(instances, name, path, seq![x, y]) == MoveView::Answer(
                match resolved(root, path) {
                    Ok((directory, current_path)) if y == Told::Flag(true) => Answer::FilesPage {
                        directory,
                        current_path,
                    },
                    _ => Answer::FilesPage { directory: root, current_path: Seq::empty() },
                },
            )
        }),
{
}

/// Saving settings goes on as each reply asks for: what the file holds is read where
/// there is one, and what is written is that with the accepted settings in it.
pub proof fn law_saving_settings_goes_on(
    instances: Seq<char>,
    name: Seq<char>,
    items: Seq<(Seq<char>, Seq<char>)>,
    r: Seq<Told>,
    x: Told,
)
    ensures
        saving_settings(instances, name, items, Seq::empty()) == MoveView::Ask(
            Effect::IsDir(joined_path(instances, name)),
        ),
        ({
            let error = |e: Seq<char>| MoveView::Answer(Answer::Error(e));
            let file = joined_path(joined_path(instances, name), "server.properties"@);
            let next = saving_settings(instances, name, items, r.push(x));
            match (saving_settings(instances, name, items, r), settings_request(items)) {
                (Step::Ask(Effect::IsDir(_)), Err(e)) => next == error(
                    if x == Told::Flag(true) {
                        e
                    } else {
                        "Instance does not exist"@
                    },
                ),
                (Step::Ask(Effect::IsDir(_)), Ok(_)) => next == (if x == Told::Flag(true) {
                    MoveView::Ask(Effect::Exists(file))
                } else {
                    error("Instance does not exist"@)
                }),
                (Step::Ask(Effect::Exists(_)), Ok(list)) => next == MoveView::Ask(
                    if x == Told::Flag(true) {
                        Effect::ReadText(file)
                    } else {
                        Effect::WriteText(file, merged(Seq::empty(), list))
                    },
                ),
                (Step::Ask(Effect::ReadText(_)), Ok(list)) => match x {
                    Reply::Text(text) => next == MoveView::Ask(
                        Effect::WriteText(file, merged(text, list)),
                    ),
                    Reply::Failed(e) => next == error(
                        "Failed to read existing server.properties: "@ + e,
                    ),
                    _ => next matches Step::Answer(Answer::Error(_)),
                },
                (Step::Ask(Effect::WriteText(_, _)), Ok(list)) => next == match x {
                    Reply::Failed(e) => error("Failed to write server.properties: "@ + e),
                    _ => MoveView::Answer(
                        Answer::SettingsSaved {
                            message: "server.properties saved"@,
                            count: list.len() as u64,
                        },
                    ),
                },
                (Step::Ask(_), _) => false,
                (Step::Answer(a), _) => next == MoveView::Answer(a),
            }
        }),
{
    let q = r.push(x);
    assert forall|j: int| 0 <= j < r.len() implies q[j] == r[j] by {}
    assert(q[r.len() as int] == x);
}

/// Reading a file goes on as each reply asks for: a file below the instance that is not
/// protected is read, and its text is given as it stands.
pub proof fn law_reading_goes_on(
    instances: Seq<char>,
    name: Seq<char>,
    path: Seq<char>,
    r: Seq<Told>,
    x: Told,
)
    ensures
        reading_content(instances, name, path, Seq::empty()) == MoveView::Ask(
            Effect::IsDir(joined_path(instances, name)),
        ),
        ({
            let error = |e: Seq<char>| MoveView::Answer(Answer::Error(e));
            let next = reading_content(instances, name, path, r.push(x));
            match (
                reading_content(instances, name, path, r),
                resolved(joined_path(instances, name), Some(path)),
            ) {
                (Step::Ask(Effect::IsDir(_)), target) => next == (if x != Told::Flag(true) {
                    error("Instance does not exist"@)
                } else {
                    match target {
                        Err(e) => error(e),
                        Ok((_, relative)) if relative.len() == 0 => error("File does not exist"@),
                        Ok((file, _)) => MoveView::Ask(Effect::IsFile(file)),
                    }
                }),
                (Step::Ask(Effect::IsFile(p)), Ok((file, _))) => p == file && next == (if x
                    != Told::Flag(true) {
                    error("File does not exist"@)
                } else if is_protected(file) {
                    error("This file is protected"@)
                } else {
                    MoveView::Ask(Effect::ReadBytes(file))
                }),
                (Step::Ask(Effect::ReadBytes(_)), Ok((_, relative))) => match x {
                    Reply::Bytes(bytes) => next == (if valid_utf8(bytes) {
                        MoveView::Answer(
                            Answer::Content { path: relative, content: decode_utf8(bytes) },
                        )
                    } else {
                        error("This file is not UTF-8 text and cannot be edited here"@)
                    }),
                    Reply::Failed(e) => next == error("Failed to read file: "@ + e),
                    _ => next matches Step::Answer(Answer::Error(_)),
                },
                (Step::Ask(_), _) => false,
                (Step::Answer(a), _) => next == MoveView::Answer(a),
            }
        }),
{
    let q = r.push(x);
    assert forall|j: int| 0 <= j < r.len() implies q[j] == r[j] by {}
    assert(q[r.len() as int] == x);
}

/// Saving a file goes on as each reply asks for. The file that is there is renamed first
/// where it gets another path, which must be free, in a directory that is there; then the
/// content is written as it was given.
pub proof fn law_saving_goes_on(
    instances: Seq<char>,
    name: Seq<char>,
    path: Seq<char>,
    original: Option<Seq<char>>,
    content: Seq<char>,
    r: Seq<Told>,
    x: Told,
)
    ensures
        saving_content(instances, name, path, original, content, Seq::empty()) == MoveView::Ask(
            Effect::IsDir(joined_path(instances, name)),
        ),
        ({
            let error = |e: Seq<char>| MoveView::Answer(Answer::Error(e));
            let root = joined_path(instances, name);
            let next = saving_content(instances, name, path, original, content, r.push(x));
            let from = resolved(
                root,
                Some(
                    match original {
                        Some(o) => o,
                        None => path,
                    },
                ),
            );
            let to = resolved(root, Some(path));
            let now = saving_content(instances, name, path, original, content, r);
            if r.len() == 0 {
                next == (if x != Told::Flag(true) {
                    error("Instance does not exist"@)
                } else {
                    match (from, to) {
                        (Err(e), _) => error(e),
                        (Ok(_), Err(e)) => error(e),
                        (Ok((source, old_way)), Ok((target, new_way))) => if old_way.len() == 0
                            || new_way.len() == 0 {
                            error("Invalid file path"@)
                        } else if is_protected(source) || is_protected(target) {
                            error("This file is protected"@)
                        } else {
                            MoveView::Ask(Effect::IsFile(source))
                        },
                    }
                })
            } else {
                match (now, from, to) {
                    (Step::Answer(a), _, _) => next == MoveView::Answer(a),
                    (Step::Ask(e), Ok((source, old_way)), Ok((target, new_way))) => match e {
                        Effect::IsFile(_) => next == (if x == Told::Flag(true) {
                            MoveView::Ask(Effect::IsDir(target))
                        } else {
                            error("Source file does not exist"@)
                        }),
                        Effect::IsDir(_) if r.len() == 2 => next == (if x == Told::Flag(true) {
                            error("Cannot save to a directory"@)
                        } else {
                            MoveView::Ask(
                                Effect::IsDir(
                                    match parent_of(new_way) {
                                        Some(up) if up.len() > 0 => joined_path(root, up),
                                        _ => root,
                                    },
                                ),
                            )
                        }),
                        Effect::IsDir(_) => next == (if x == Told::Flag(true) {
                            MoveView::Ask(
                                if old_way == new_way {
                                    Effect::WriteText(target, content)
                                } else {
                                    Effect::Exists(target)
                                },
                            )
                        } else {
                            error("Parent directory does not exist"@)
                        }),
                        Effect::Exists(_) => next == (if x == Told::Flag(true) {
                            error("Target file already exists"@)
                        } else {
                            MoveView::Ask(Effect::Rename(source, target))
                        }),
                        Effect::Rename(_, _) => next == match x {
                            Reply::Failed(e) => error("Failed to rename file: "@ + e),
                            _ => MoveView::Ask(Effect::WriteText(target, content)),
                        },
                        Effect::WriteText(_, _) => next == match x {
                            Reply::Failed(e) => error("Failed to save file: "@ + e),
                            _ => MoveView::Answer(
                                Answer::FileSaved {
                                    message: if old_way == new_way {
                                        "File saved"@
                                    } else {
                                        "File renamed and saved"@
                                    },
                                    path: new_way,
                                },
                            ),
                        },
                        _ => false,
                    },
                    _ => false,
                }
            }
        }),
{
    let q = r.push(x);
    assert forall|j: int| 0 <= j < r.len() implies q[j] == r[j] by {}
    assert(q[r.len() as int] == x);
}

/// Making a folder goes on as each reply asks for: its name is a single step, its place
/// is a directory, and nothing of that name is there.
pub proof fn law_making_folder_goes_on(
    instances: Seq<char>,
    name: Seq<char>,
    current: Option<Seq<char>>,
    wanted: Seq<char>,
    r: Seq<Told>,
    x: Told,
)
    ensures
        making_folder(instances, name, current, wanted, Seq::empty()) == MoveView::Ask(
            Effect::IsDir(joined_path(instances, name)),
        ),
        ({
            let error = |e: Seq<char>| MoveView::Answer(Answer::Error(e));
            let folder = trimmed(wanted);
            let place = resolved(joined_path(instances, name), current);
            let next = making_folder(instances, name, current, wanted, r.push(x));
            if r.len() == 0 {
                next == (if x != Told::Flag(true) {
                    error("Instance does not exist"@)
                } else if folder.len() == 0 {
                    error("Folder name cannot be empty"@)
                } else if folder == "."@ || folder == ".."@ || folder.contains('/')
                    || folder.contains('\\') {
                    error("Folder name contains invalid characters"@)
                } else {
                    match place {
                        Err(e) => error(e),
                        Ok((parent, _)) => MoveView::Ask(Effect::IsDir(parent)),
                    }
                })
            } else {
                match (making_folder(instances, name, current, wanted, r), place) {
                    (Step::Answer(a), _) => next == MoveView::Answer(a),
                    (Step::Ask(Effect::IsDir(_)), Ok((parent, _))) => next == (if x == Told::Flag(
                        true,
                    ) {
                        MoveView::Ask(Effect::Exists(joined_path(parent, folder)))
                    } else {
                        error("Target directory does not exist"@)
                    }),
                    (Step::Ask(Effect::Exists(_)), Ok((parent, _))) => next == (if x == Told::Flag(
                        true,
                    ) {
                        error("A file or folder with that name already exists"@)
                    } else {
                        MoveView::Ask(Effect::CreateDir(joined_path(parent, folder)))
                    }),
                    (Step::Ask(Effect::CreateDir(_)), Ok((_, relative))) => next == match x {
                        Reply::Failed(e) => error("Failed to create folder: "@ + e),
                        _ => MoveView::Answer(
                            Answer::FolderCreated {
                                message: "Folder created"@,
                                path: if relative.len() == 0 {
                                    folder
                                } else {
                                    relative + "/"@ + folder
                                },
                            },
                        ),
                    },
                    _ => false,
                }
            }
        }),
{
    let q = r.push(x);
    assert forall|j: int| 0 <= j < r.len() implies q[j] == r[j] by {}
    assert(q[r.len() as int] == x);
}

/// Deleting a file or folder goes on as each reply asks for: it lies below the instance,
/// is not protected and is there; a folder goes with all that is in it.
pub proof fn law_deleting_goes_on(
    instances: Seq<char>,
    name: Seq<char>,
    path: Seq<char>,
    r: Seq<Told>,
    x: Told,
)
    ensures
        deleting_entry(instances, name, path, Seq::empty()) == MoveView::Ask(
            Effect::IsDir(joined_path(instances, name)),
        ),
        ({
            let error = |e: Seq<char>| MoveView::Answer(Answer::Error(e));
            let place = resolved(joined_path(instances, name), Some(path));
            let next = deleting_entry(instances, name, path, r.push(x));
            if r.len() == 0 {
                next == (if x != Told::Flag(true) {
                    error("Instance does not exist"@)
                } else {
                    match place {
                        Err(e) => error(e),
                        Ok((target, relative)) => if relative.len() == 0 {
                            error("Cannot delete the instance root"@)
                        } else if is_protected(target) {
                            error("This file is protected"@)
                        } else {
                            MoveView::Ask(Effect::Exists(target))
                        },
                    }
                })
            } else {
                match (deleting_entry(instances, name, path, r), place) {
                    (Step::Answer(a), _) => next == MoveView::Answer(a),
                    (Step::Ask(Effect::Exists(_)), Ok((target, _))) => next == (if x == Told::Flag(
                        true,
                    ) {
                        MoveView::Ask(Effect::IsDir(target))
                    } else {
                        error("Path does not exist"@)
                    }),
                    (Step::Ask(Effect::IsDir(_)), Ok((target, _))) => next == MoveView::Ask(
                        if x == Told::Flag(true) {
                            Effect::RemoveDirAll(target)
                        } else {
                            Effect::RemoveFile(target)
                        },
                    ),
                    (Step::Ask(Effect::RemoveDirAll(_)), Ok((_, relative))) => next == match x {
                        Reply::Failed(e) => error("Failed to delete folder: "@ + e),
                        _ => MoveView::Answer(
                            Answer::Deleted {
                                message: "Folder deleted"@,
                                path: relative,
                                kind: "folder"@,
                            },
                        ),
                    },
                    (Step::Ask(Effect::RemoveFile(_)), Ok((_, relative))) => next == match x {
                        Reply::Failed(e) => error("Failed to delete file: "@ + e),
                        _ => MoveView::Answer(
                            Answer::Deleted {
                                message: "File deleted"@,
                                path: relative,
                                kind: "file"@,
                            },
                        ),
                    },
                    _ => false,
                }
            }
        }),
{
    let q = r.push(x);
    assert forall|j: int| 0 <= j < r.len() implies q[j] == r[j] by {}
    assert(q[r.len() as int] == x);
}

/// Sending a file goes on as each reply asks for: a file below the instance is sent under
/// its own name, as far as a header can hold it.
pub proof fn law_sending_goes_on(
    instances: Seq<char>,
    name: Seq<char>,
    path: Seq<char>,
    r: Seq<Told>,
    x: Told,
)
    ensures
        downloading(instances, name, path, Seq::empty()) == MoveView::Ask(
            Effect::IsDir(joined_path(instances, name)),
        ),
        ({
            let refuse = |code: u16, e: Seq<char>| MoveView::Answer(Answer::Refused(code, e));
            let next = downloading(instances, name, path, r.push(x));
            match (
                downloading(instances, name, path, r),
                resolved(joined_path(instances, name), Some(path)),
            ) {
                (Step::Answer(a), _) => next == MoveView::Answer(a),
                (Step::Ask(Effect::IsDir(_)), place) => next == (if x != Told::Flag(true) {
                    refuse(404, "Instance not found"@)
                } else {
                    match place {
                        Err(e) => refuse(400, e),
                        Ok((_, relative)) if relative.len() == 0 => refuse(404, "File not found"@),
                        Ok((file, _)) => MoveView::Ask(Effect::IsFile(file)),
                    }
                }),
                (Step::Ask(Effect::IsFile(_)), Ok((file, _))) => next == (if x == Told::Flag(true) {
                    MoveView::Ask(Effect::ReadBytes(file))
                } else {
                    refuse(404, "File not found"@)
                }),
                (Step::Ask(Effect::ReadBytes(p)), Ok((file, _))) => p == file && match x {
                    Reply::Bytes(_) => next == MoveView::Answer(
                        Answer::Download {
                            disposition: if is_header_text(disposition(file)) {
                                Some(disposition(file))
                            } else {
                                None
                            },
                        },
                    ),
                    Reply::Failed(e) => next == refuse(500, "Failed to read file: "@ + e),
                    _ => next matches Step::Answer(Answer::Refused(500, _)),
                },
                _ => false,
            }
        }),
{
    let q = r.push(x);
    assert forall|j: int| 0 <= j < r.len() implies q[j] == r[j] by {}
    assert(q[r.len() as int] == x);
}

/// Uploading begins with the instance and the wanted directory, both of which must be
/// there.
pub proof fn law_upload_begins(
    instances: Seq<char>,
    name: Seq<char>,
    path: Option<Seq<char>>,
    x: Told,
    y: Told,
)
    ensures
        ({
            let error = |e: Seq<char>| MoveView::Answer(Answer::Error(e));
            let root = joined_path(instances, name);
            &&& uploading(instances, name, path, Seq::empty()) == MoveView::Ask(Effect::IsDir(root))
            &&& uploading(instances, name, path, seq![x]) == (if x != Told::Flag(true) {
                error("Instance does not exist"@)
            } else {
                match resolved(root, path) {
                    Err(e) => error(e),
                    Ok((directory, _)) => MoveView::Ask(Effect::IsDir(directory)),
                }
            })
            &&& x == Told::Flag(true) && resolved(root, path) is Ok ==> uploading(
                instances,
                name,
                path,
                seq![x, y],
            ) == (if y == Told::Flag(true) {
                MoveView::Ask(Effect::NextField)
            } else {
                error("Upload target is not a directory"@)
            })
        }),
{
}

proof fn lemma_upload_goes_on(
    directory: Seq<char>,
    relative: Seq<char>,
    r: Seq<Told>,
    i: int,
    stored: Seq<Seq<char>>,
    x: Told,
)
    requires
        0 <= i <= r.len(),
    ensures
        ({
            let error = |e: Seq<char>| MoveView::Answer(Answer::Error(e));
            let next = upload_walk(directory, relative, r.push(x), i, stored);
            match upload_walk(directory, relative, r, i, stored) {
                Step::Ask(Effect::NextField) => match x {
                    Reply::Failed(e) => next == error("Upload stream error: "@ + e),
                    Reply::Field(raw) => next == MoveView::Ask(
                        if stored_name(raw) is Some {
                            Effect::ReadField
                        } else {
                            Effect::NextField
                        },
                    ),
                    _ => next is Answer,
                },
                Step::Ask(Effect::ReadField) => {
                    &&& r.len() > i
                    &&& r.last() matches Reply::Field(raw) && stored_name(raw) is Some && match x {
                        Reply::Failed(e) => next == error("Failed to read uploaded data: "@ + e),
                        Reply::Bytes(b) => next == MoveView::Ask(
                            Effect::WriteBytes(joined_path(directory, stored_name(raw)->0), b),
                        ),
                        _ => next is Ask,
                    }
                },
                Step::Ask(Effect::WriteBytes(p, _)) => {
                    &&& r.len() > i + 1
                    &&& r[r.len() - 2] matches Reply::Field(raw) && stored_name(raw) is Some && {
                        &&& p == joined_path(directory, stored_name(raw)->0)
                        &&& next == match x {
                            Reply::Failed(e) => error(
                                "Failed to store "@ + stored_name(raw)->0 + ": "@ + e,
                            ),
                            _ => MoveView::Ask(Effect::NextField),
                        }
                    }
                },
                Step::Ask(_) => false,
                Step::Answer(a) => next == MoveView::Answer(a),
            }
        }),
    decreases r.len() - i,
{
    reveal_with_fuel(upload_walk, 2);
    let q = r.push(x);
    assert forall|j: int| 0 <= j < r.len() implies q[j] == r[j] by {}
    assert(q[r.len() as int] == x);
    if i < r.len() {
        if let Reply::Field(raw) = r[i] {
            if stored_name(raw) is None {
                lemma_upload_goes_on(directory, relative, r, i + 1, stored, x);
            } else if i + 2 < r.len() {
                lemma_upload_goes_on(
                    directory,
                    relative,
                    r,
                    i + 3,
                    stored.push(stored_name(raw)->0),
                    x,
                );
            }
        }
    }
}

/// An upload goes on as each reply asks for: each file that is sent under a name that may
/// be stored is read and written below the wanted directory under that name, and every
/// other is passed over.
pub proof fn law_upload_goes_on(
    instances: Seq<char>,
    name: Seq<char>,
    path: Option<Seq<char>>,
    r: Seq<Told>,
    x: Told,
)
    requires
        r.len() >= 2,
        r[0] == Told::Flag(true),
        r[1] == Told::Flag(true),
        resolved(joined_path(instances, name), path) is Ok,
    ensures
        ({
            let error = |e: Seq<char>| MoveView::Answer(Answer::Error(e));
            let directory = resolved(joined_path(instances, name), path)->Ok_0.0;
            let kept = |raw: Option<Seq<char>>|
                raw is Some && upload_name(raw->0) is Some && upload_name(raw->0)->0
                    != ".minara_instance_id"@;
            let next = uploading(instances, name, path, r.push(x));
            match uploading(instances, name, path, r) {
                Step::Ask(Effect::NextField) => match x {
                    Reply::Failed(e) => next == error("Upload stream error: "@ + e),
                    Reply::Field(raw) => next == MoveView::Ask(
                        if kept(raw) {
                            Effect::ReadField
                        } else {
                            Effect::NextField
                        },
                    ),
                    _ => next is Answer,
                },
                Step::Ask(Effect::ReadField) => r.last() matches Reply::Field(Some(raw)) && match x {
                    Reply::Failed(e) => next == error("Failed to read uploaded data: "@ + e),
                    Reply::Bytes(b) => next == MoveView::Ask(
                        Effect::WriteBytes(joined_path(directory, upload_name(raw)->0), b),
                    ),
                    _ => next is Ask,
                },
                Step::Ask(Effect::WriteBytes(_, _)) => r[r.len() - 2] matches Reply::Field(
                    Some(raw),
                ) && next == match x {
                    Reply::Failed(e) => error("Failed to store "@ + upload_name(raw)->0 + ": "@ + e),
                    _ => MoveView::Ask(Effect::NextField),
                },
                Step::Ask(_) => false,
                Step::Answer(a) => next == MoveView::Answer(a),
            }
        }),
{
    let (directory, relative) = resolved(joined_path(instances, name), path)->Ok_0;
    lemma_upload_goes_on(directory, relative, r, 2, Seq::empty(), x);
    let q = r.push(x);
    assert forall|j: int| 0 <= j < r.len() implies q[j] == r[j] by {}
    assert(q[r.len() as int] == x);
}

proof fn lemma_upload_tells(
    directory: Seq<char>,
    relative: Seq<char>,
    r: Seq<Told>,
    i: int,
    stored: Seq<Seq<char>>,
    raw: Option<Seq<char>>,
    b: Told,
    w: Told,
) -> (all: Seq<Seq<char>>)
    requires
        0 <= i <= r.len(),
        upload_walk(directory, relative, r, i, stored) == MoveView::Ask(Effect::NextField),
        !(b is Failed),
        !(w is Failed),
    ensures
        upload_walk(directory, relative, r.push(Told::Nothing), i, stored) == tells(relative, all),
        stored_name(raw) is None ==> upload_walk(
            directory,
            relative,
            r.push(Told::Field(raw)).push(Told::Nothing),
            i,
            stored,
        ) == tells(relative, all),
        stored_name(raw) matches Some(n) ==> upload_walk(
            directory,
            relative,
            r.push(Told::Field(raw)).push(b).push(w).push(Told::Nothing),
            i,
            stored,
        ) == tells(relative, all.push(n)),
        i == r.len() ==> all == stored,
    decreases r.len() - i,
{
    reveal_with_fuel(upload_walk, 3);
    let q = r.push(Told::Nothing);
    let s = r.push(Told::Field(raw)).push(Told::Nothing);
    let t = r.push(Told::Field(raw)).push(b).push(w).push(Told::Nothing);
    assert forall|j: int| 0 <= j < r.len() implies q[j] == r[j] && s[j] == r[j] && t[j] == r[j] by {}
    let n = r.len() as int;
    assert(q[n] == Told::Nothing);
    assert(s[n] == Told::Field(raw) && s[n + 1] == Told::Nothing);
    assert(t[n] == Told::Field(raw) && t[n + 1] == b && t[n + 2] == w && t[n + 3]
        == Told::Nothing);
    if i == r.len() {
        stored
    } else {
        match r[i] {
            Reply::Field(head) => match stored_name(head) {
                None => lemma_upload_tells(directory, relative, r, i + 1, stored, raw, b, w),
                Some(name) => lemma_upload_tells(
                    directory,
                    relative,
                    r,
                    i + 3,
                    stored.push(name),
                    raw,
                    b,
                    w,
                ),
            },
            _ => stored,
        }
    }
}

/// What is answered after an upload of the given files.
pub open spec fn tells(relative: Seq<char>, files: Seq<Seq<char>>) -> MoveView {
    Step::Answer(
        if files.len() == 0 {
            Answer::Error("No files were uploaded"@)
        } else {
            Answer::Uploaded {
                message: "Uploaded "@ + decimal(files.len()) + " file(s)"@,
                path: relative,
                files,
            }
        },
    )
}

/// An upload tells of each file that was stored, in order, and of no other: one that is
/// passed over changes nothing of what is told in the end, and one that is stored is told
/// of behind those before it. An upload of nothing is refused.
pub proof fn law_upload_tells_of_each_file(
    instances: Seq<char>,
    name: Seq<char>,
    path: Option<Seq<char>>,
    r: Seq<Told>,
    raw: Seq<char>,
    b: Seq<u8>,
    w: Told,
) -> (files: Seq<Seq<char>>)
    requires
        r.len() >= 2,
        uploading(instances, name, path, r) == MoveView::Ask(Effect::NextField),
        !(w is Failed),
    ensures
        ({
            let relative = resolved(joined_path(instances, name), path)->Ok_0.1;
            let field = r.push(Told::Field(Some(raw)));
            let end = |q: Seq<Told>| uploading(instances, name, path, q.push(Told::Nothing));
            &&& end(r) == tells(relative, files)
            &&& r.len() == 2 ==> files == Seq::<Seq<char>>::empty()
            &&& end(r.push(Told::Field(None))) == tells(relative, files)
            &&& match upload_name(raw) {
                Some(n) if n != ".minara_instance_id"@ => end(
                    field.push(Told::Bytes(b)).push(w),
                ) == tells(relative, files.push(n)),
                _ => end(field) == tells(relative, files),
            }
        }),
{
    let (directory, relative) = resolved(joined_path(instances, name), path)->Ok_0;
    let files = lemma_upload_tells(
        directory,
        relative,
        r,
        2,
        Seq::empty(),
        Some(raw),
        Told::Bytes(b),
        w,
    );
    let none = lemma_upload_tells(
        directory,
        relative,
        r,
        2,
        Seq::empty(),
        None,
        Told::Bytes(b),
        w,
    );
    assert(tells(relative, none) == tells(relative, files));
    assert(r.push(Told::Nothing)[0] == r[0] && r.push(Told::Nothing)[1] == r[1]);
    let f = r.push(Told::Field(Some(raw)));
    let g = f.push(Told::Nothing);
    let h = f.push(Told::Bytes(b)).push(w).push(Told::Nothing);
    assert(g[0] == r[0] && g[1] == r[1] && h[0] == r[0] && h[1] == r[1]);
    let k = r.push(Told::Field(None)).push(Told::Nothing);
    assert(k[0] == r[0] && k[1] == r[1]);
    files
}

} // verus!
