//! The requests that make, rename, delete and list instances, and the
//! installation of a server.
use vstd::prelude::*;
use vstd::string::*;

use crate::backup_api::name_check;
use crate::effects::{
    bytes_told, changes, fail, failed, fault, fault_told, refuse, refused, said_yes, text_told, why_failed,
    Answer, Effect, EntryKind, Heard, Move, MoveView, Relinking, Reply, Step, Task, TaskView, Told,
};
use crate::identity::{identity_place, proof_of, sha256_hex};
use crate::names::{
    law_accepted_name_is_one_step, validate_instance_name, validate_version_format, version_verdict,
    versions_on_page, VersionResponse, PREVIEW_PATTERN, RELEASE_PATTERN,
};
use crate::order::{in_order, law_dictionary_order, law_sorted, sort_stable, sorted, views};
use crate::outside::{archive_fault, lossy_text, open_archive, regex_group, regex_match, utf8_lossy, VERSION_PATTERN};
use crate::paths::{join_path, joined_path};
use crate::text::{cat2, cat3, cat4, cat5, opt_text, same_text, trim, trimmed};

verus! {

/// What a list of the instances comes to, or what it asks for.
pub type ListView = Step<Seq<char>, Seq<u8>, Seq<Seq<char>>>;

/// Going through the entries of the instances' directory, from reply `i` on, with
/// the names found so far. What is a directory is an instance, and gets an identity
/// where that is wanted; one whose name is not text is not told. An entry that
/// cannot be read is passed over.
pub open spec fn listing(
    root: Seq<char>,
    identify: bool,
    r: Seq<Told>,
    i: int,
    found: Seq<Seq<char>>,
) -> ListView
    decreases r.len() - i,
{
    if i >= r.len() {
        Step::Ask(Effect::NextEntry(root))
    } else {
        match r[i] {
            Reply::Entry(path, name) => if i + 1 >= r.len() {
                Step::Ask(Effect::EntryKind(path))
            } else if r[i + 1] != Reply::<Seq<char>, Seq<u8>, Seq<(Seq<char>, Seq<char>)>>::Kind(
                EntryKind::Directory,
            ) {
                listing(root, identify, r, i + 2, found)
            } else if identify && i + 2 >= r.len() {
                Step::Ask(Effect::EnsureIdentity(path))
            } else {
                let more = match name {
                    Some(n) => found.push(n),
                    None => found,
                };
                listing(
                    root,
                    identify,
                    r,
                    if identify {
                        i + 3
                    } else {
                        i + 2
                    },
                    more,
                )
            },
            Reply::Failed(_) => listing(root, identify, r, i + 1, found),
            _ => Step::Answer(sorted::<String>(found)),
        }
    }
}

/// Listing the instances: their names in alphabetical order; none where their
/// directory cannot be read.
pub open spec fn listed_instances(root: Seq<char>, identify: bool, r: Seq<Told>) -> ListView {
    if r.len() == 0 {
        Step::Ask(Effect::OpenDir(root))
    } else if r[0].failure() is Some {
        Step::Answer(Seq::empty())
    } else {
        listing(root, identify, r, 1, Seq::empty())
    }
}

/// Lists the instances, and gives each an identity where that is wanted.
fn list_instances(instances_dir: &str, identify: bool, replies: &Vec<Heard>) -> (s: Step<
    String,
    Vec<u8>,
    Vec<String>,
>)
    ensures
        match s {
            Step::Ask(e) => listed_instances(instances_dir@, identify, views(replies@))
                == ListView::Ask(e@),
            Step::Answer(l) => listed_instances(instances_dir@, identify, views(replies@))
                == ListView::Answer(views(l@)),
        },
{
    let ghost r = views(replies@);
    let n: usize = replies.len();
    let mut found: Vec<String> = Vec::new();
    assert(views(found@) =~= Seq::empty());
    if n == 0 {
        return Step::Ask(Effect::OpenDir(instances_dir.to_owned()));
    }
    if why_failed(replies, 0).is_some() {
        return Step::Answer(found);
    }
    let mut i: usize = 1;
    let ghost goal = listed_instances(instances_dir@, identify, r);
    while i < n
        invariant
            n == replies@.len(),
            1 <= i <= n,
            r == views(replies@),
            goal == listing(instances_dir@, identify, r, i as int, views(found@)),
            goal == listed_instances(instances_dir@, identify, r),
        decreases n - i,
    {
        assert(r[i as int] == replies@[i as int]@);
        match &replies[i] {
            Reply::Entry(path, name) => {
                if i + 1 >= n {
                    return Step::Ask(Effect::EntryKind(path.clone()));
                }
                assert(r[i + 1] == replies@[i + 1]@);
                if !matches!(replies[i + 1], Reply::Kind(EntryKind::Directory)) {
                    i = i + 2;
                    continue;
                }
                if identify && i + 2 >= n {
                    return Step::Ask(Effect::EnsureIdentity(path.clone()));
                }
                if let Some(name) = name {
                    let ghost before = found@;
                    found.push(name.clone());
                    assert(views(found@) =~= views(before).push(name@));
                }
                i = if identify {
                    i + 3
                } else {
                    i + 2
                };
            },
            Reply::Failed(_) => {
                i = i + 1;
            },
            _ => {
                return Step::Answer(sort_stable(found));
            },
        }
    }
    Step::Ask(Effect::NextEntry(instances_dir.to_owned()))
}

/// Lists the instances and sees to it that each has an identity.
pub fn api_instances(instances_dir: &str, replies: &Vec<Heard>) -> (s: Step<String, Vec<u8>, Vec<String>>)
    ensures
        match s {
            Step::Ask(e) => listed_instances(instances_dir@, true, views(replies@))
                == ListView::Ask(e@),
            Step::Answer(l) => listed_instances(instances_dir@, true, views(replies@))
                == ListView::Answer(views(l@)),
        },
{
    list_instances(instances_dir, true, replies)
}

/// Lists the instances for a page.
pub fn index(instances_dir: &str, replies: &Vec<Heard>) -> (s: Step<String, Vec<u8>, Vec<String>>)
    ensures
        match s {
            Step::Ask(e) => listed_instances(instances_dir@, false, views(replies@))
                == ListView::Ask(e@),
            Step::Answer(l) => listed_instances(instances_dir@, false, views(replies@))
                == ListView::Answer(views(l@)),
        },
{
    list_instances(instances_dir, false, replies)
}

/// A directory is identified once it is known to be one.
proof fn lemma_listing_identifies(
    root: Seq<char>,
    r: Seq<Told>,
    i: int,
    found: Seq<Seq<char>>,
    path: Seq<char>,
)
    requires
        0 <= i,
        listing(root, true, r, i, found) == ListView::Ask(Effect::EntryKind(path)),
    ensures
        listing(root, true, r.push(Reply::Kind(EntryKind::Directory)), i, found)
            == ListView::Ask(Effect::EnsureIdentity(path)),
    decreases r.len() - i,
{
    let q = r.push(Reply::Kind(EntryKind::Directory));
    if i < r.len() {
        assert(q[i] == r[i]);
        if let Reply::Entry(_, name) = r[i] {
            if i + 1 < r.len() {
                assert(q[i + 1] == r[i + 1]);
                if r[i + 1] != Reply::<Seq<char>, Seq<u8>, Seq<(Seq<char>, Seq<char>)>>::Kind(
                    EntryKind::Directory,
                ) {
                    lemma_listing_identifies(root, r, i + 2, found, path);
                } else if i + 2 < r.len() {
                    let more = match name {
                        Some(n) => found.push(n),
                        None => found,
                    };
                    lemma_listing_identifies(root, r, i + 3, more, path);
                }
            }
        } else if r[i] is Failed {
            lemma_listing_identifies(root, r, i + 1, found, path);
        }
    }
}

/// Each directory among the instances that is listed for a request gets an identity,
/// before the list goes on.
pub proof fn law_listed_instance_is_identified(root: Seq<char>, r: Seq<Told>, path: Seq<char>)
    requires
        listed_instances(root, true, r) == ListView::Ask(Effect::EntryKind(path)),
    ensures
        listed_instances(root, true, r.push(Reply::Kind(EntryKind::Directory))) == ListView::Ask(
            Effect::EnsureIdentity(path),
        ),
{
    lemma_listing_identifies(root, r, 1, Seq::empty(), path);
    assert(r.push(Reply::Kind(EntryKind::Directory))[0] == r[0]);
}

/// Going through the entries for a page changes nothing, and ends with the names in
/// order.
proof fn lemma_listing_looks(root: Seq<char>, r: Seq<Told>, i: int, found: Seq<Seq<char>>)
    ensures
        match listing(root, false, r, i, found) {
            Step::Ask(e) => changes(e) == Set::<Seq<char>>::empty(),
            Step::Answer(l) => in_order::<String>(l),
        },
    decreases r.len() - i,
{
    if i < r.len() {
        match r[i] {
            Reply::Entry(_, name) => if i + 1 < r.len() {
                let more = match name {
                    Some(n) => found.push(n),
                    None => found,
                };
                lemma_listing_looks(root, r, i + 2, found);
                lemma_listing_looks(root, r, i + 2, more);
            },
            Reply::Failed(_) => {
                lemma_listing_looks(root, r, i + 1, found);
            },
            _ => {
                law_sorted::<String>(found);
            },
        }
    }
}

/// A page that lists the instances changes nothing, and lists them in alphabetical
/// order.
pub proof fn law_page_lists_in_order(root: Seq<char>, r: Seq<Told>)
    ensures
        match listed_instances(root, false, r) {
            Step::Ask(e) => changes(e) == Set::<Seq<char>>::empty(),
            Step::Answer(l) => in_order::<String>(l),
        },
{
    lemma_listing_looks(root, r, 1, Seq::empty());
}

/// Where a release of the server can be downloaded.
pub open spec fn release_url(version: Seq<char>) -> Seq<char> {
    "https://www.minecraft.net/bedrockdedicatedserver/bin-linux/bedrock-server-"@ + version + ".zip"@
}

/// Where a preview of the server can be downloaded.
pub open spec fn preview_url(version: Seq<char>) -> Seq<char> {
    "https://www.minecraft.net/bedrockdedicatedserver/bin-linux-preview/bedrock-server-"@ + version
        + ".zip"@
}

/// Where the release of the version can be downloaded.
fn url_of_release(version: &str) -> (r: String)
    ensures
        r@ == release_url(version@),
{
    cat3(
        "https://www.minecraft.net/bedrockdedicatedserver/bin-linux/bedrock-server-",
        version,
        ".zip",
    )
}

/// Where the preview of the version can be downloaded.
fn url_of_preview(version: &str) -> (r: String)
    ensures
        r@ == preview_url(version@),
{
    cat3(
        "https://www.minecraft.net/bedrockdedicatedserver/bin-linux-preview/bedrock-server-",
        version,
        ".zip",
    )
}

/// The number that a reply tells; 0 where it tells none.
pub open spec fn number_told(reply: Told) -> u64 {
    match reply {
        Reply::Number(n) => n,
        _ => 0,
    }
}

/// Finding out whether an address can be downloaded: by its head, or else by its
/// first bytes.
pub open spec fn probing(url: Seq<char>, r: Seq<Told>) -> TaskView {
    if r.len() == 0 {
        Step::Ask(Effect::Head(url))
    } else if number_told(r[0]) == 200 {
        Step::Answer(Reply::Flag(true))
    } else if r.len() == 1 {
        Step::Ask(Effect::GetRange(url))
    } else {
        Step::Answer(Reply::Flag(number_told(r[1]) == 200 || number_told(r[1]) == 206))
    }
}

/// The number that reply `i` tells.
fn told_number(replies: &Vec<Heard>, i: usize) -> (n: u64)
    requires
        i < replies@.len(),
    ensures
        n == number_told(views(replies@)[i as int]),
{
    match &replies[i] {
        Reply::Number(n) => *n,
        _ => 0,
    }
}

/// Finds out whether the address can be downloaded.
pub fn check_url_exists(url: &str, replies: &Vec<Heard>) -> (s: Task)
    ensures
        s@ == probing(url@, views(replies@)),
{
    if replies.len() == 0 {
        return Step::Ask(Effect::Head(url.to_owned()));
    }
    if told_number(replies, 0) == 200 {
        return Step::Answer(Reply::Flag(true));
    }
    if replies.len() == 1 {
        return Step::Ask(Effect::GetRange(url.to_owned()));
    }
    let status = told_number(replies, 1);
    Step::Answer(Reply::Flag(status == 200 || status == 206))
}

/// What is said of the format of a version.
pub open spec fn version_check(version: Seq<char>) -> Result<(), Seq<char>> {
    version_verdict(regex_match(VERSION_PATTERN@, version))
}

/// Finding out whether a version of the server can be had.
pub open spec fn checking_version(version: Seq<char>, r: Seq<Told>) -> MoveView {
    if version_check(version) is Err {
        Step::Answer(
            Answer::VersionFound { found: false, message: version_check(version)->Err_0 },
        )
    } else if r.len() == 0 {
        Step::Ask(Effect::UrlExists(release_url(version)))
    } else if r.len() == 1 && !r[0].yes() {
        Step::Ask(Effect::UrlExists(preview_url(version)))
    } else if r[0].yes() || r[1].yes() {
        Step::Answer(Answer::VersionFound { found: true, message: "Version found!"@ })
    } else {
        Step::Answer(
            Answer::VersionFound {
                found: false,
                message: "Version "@ + version + " was not found on Minecraft's servers."@,
            },
        )
    }
}

/// Finds out whether the version of the server can be had.
pub fn api_check_version(version: &str, replies: &Vec<Heard>) -> (s: Move)
    ensures
        s@ == checking_version(version@, views(replies@)),
{
    if let Err(e) = validate_version_format(version) {
        return Step::Answer(Answer::VersionFound { found: false, message: e });
    }
    if replies.len() == 0 {
        return Step::Ask(Effect::UrlExists(url_of_release(version)));
    }
    if !said_yes(replies, 0) {
        if replies.len() == 1 {
            return Step::Ask(Effect::UrlExists(url_of_preview(version)));
        }
        if !said_yes(replies, 1) {
            return Step::Answer(
                Answer::VersionFound {
                    found: false,
                    message: cat3("Version ", version, " was not found on Minecraft's servers."),
                },
            );
        }
    }
    Step::Answer(Answer::VersionFound { found: true, message: "Version found!".to_owned() })
}

/// The page that names the current versions.
pub const VERSIONS_PAGE: &'static str = "https://minecraft.wiki/w/Bedrock_Dedicated_Server";

/// The versions that the page names, from what came of downloading it, or why
/// there is none.
pub fn fetch_versions(page: &Heard) -> (r: Result<VersionResponse, String>)
    ensures
        match page@ {
            Reply::Bytes(bytes) => r matches Ok(v) && opt_text(v.release) == regex_group(
                RELEASE_PATTERN@,
                utf8_lossy(bytes),
            ) && opt_text(v.preview) == regex_group(PREVIEW_PATTERN@, utf8_lossy(bytes)),
            Reply::Failed(e) => r matches Err(m) && m@ == "curl not found or failed: "@ + e,
            _ => r matches Err(m) && m@ == "Failed to fetch wiki page"@,
        },
{
    match page {
        Reply::Bytes(bytes) => Ok(versions_on_page(lossy_text(bytes.as_slice()).as_str())),
        Reply::Failed(e) => Err(cat2("curl not found or failed: ", e.as_str())),
        _ => Err("Failed to fetch wiki page".to_owned()),
    }
}

/// The versions that are shown: those that were found, or none.
pub fn api_versions(found: Result<VersionResponse, String>) -> (r: VersionResponse)
    ensures
        match found {
            Ok(v) => r == v,
            Err(_) => r.release is None && r.preview is None,
        },
{
    match found {
        Ok(v) => v,
        Err(_) => VersionResponse { release: None, preview: None },
    }
}

/// How far a download is when so many bytes of a total have come, in percent. The
/// last tenth is left for unpacking.
pub open spec fn download_share(received: nat, total: nat) -> nat
    recommends
        total > 0,
{
    if received * 90 / total < 90 {
        received * 90 / total
    } else {
        90
    }
}

/// How far the download is when so many bytes of the total have come.
pub fn download_progress(received: u64, total: u64) -> (r: u64)
    requires
        total > 0,
    ensures
        r == download_share(received as nat, total as nat),
{
    proof {
        lemma_share_is_whole(received as nat, total as nat);
    }
    if received >= total {
        90
    } else {
        let product: u128 = received as u128 * 90;
        (product / (total as u128)) as u64
    }
}

/// A download of which all has come, or more, is whole.
proof fn lemma_share_is_whole(received: nat, total: nat)
    requires
        total > 0,
    ensures
        received >= total ==> received * 90 / total >= 90,
        received < total ==> received * 90 / total < 90,
{
    if received >= total {
        assert(received * 90 / total >= 90) by (nonlinear_arith)
            requires
                received >= total,
                total > 0,
        ;
    } else {
        assert(received * 90 / total < 90) by (nonlinear_arith)
            requires
                received < total,
                total > 0,
        ;
    }
}

/// A download's progress never goes back, and never passes 90.
pub proof fn law_download_moves_forward(received: nat, more: nat, total: nat)
    requires
        total > 0,
    ensures
        download_share(received, total) <= download_share(received + more, total) <= 90,
{
    assert(received * 90 / total <= (received + more) * 90 / total) by (nonlinear_arith)
        requires
            total > 0,
    ;
}

/// Downloading from reply `i` on, after the bytes that were received: more of them,
/// and the showing of the progress where the total is known.
pub open spec fn fetch_walk(total: u64, r: Seq<Told>, i: int, received: Seq<u8>) -> TaskView
    decreases r.len() - i,
{
    if i < 0 || i >= r.len() {
        Step::Ask(Effect::NextChunk)
    } else {
        match r[i] {
            Reply::Failed(e) => failed("Download error: "@ + e),
            Reply::Bytes(piece) => {
                let all = received + piece;
                if total == 0 {
                    fetch_walk(total, r, i + 1, all)
                } else if i + 1 >= r.len() {
                    Step::Ask(Effect::SetProgress(download_share(all.len(), total as nat) as u64))
                } else {
                    fetch_walk(total, r, i + 2, all)
                }
            },
            _ => Step::Answer(Reply::Bytes(received)),
        }
    }
}

/// Downloading an archive, to the bytes of it. A total of nothing stands for one that
/// is not known.
pub open spec fn fetching(url: Seq<char>, r: Seq<Told>) -> TaskView {
    if r.len() == 0 {
        Step::Ask(Effect::Connect(url))
    } else {
        match r[0].failure() {
            Some(e) => failed("Failed to connect: "@ + e),
            None => fetch_walk(number_told(r[0]), r, 1, Seq::empty()),
        }
    }
}

/// The number, or the largest that can be held where it is larger.
pub open spec fn capped(n: nat) -> u64 {
    if n <= u64::MAX {
        n as u64
    } else {
        u64::MAX
    }
}

/// The bytes of a download that is complete, put together.
fn join_download(total: u64, replies: &Vec<Heard>) -> (b: Vec<u8>)
    requires
        fetch_walk(total, views(replies@), 1, Seq::empty()) matches Step::Answer(Reply::Bytes(_)),
    ensures
        fetch_walk(total, views(replies@), 1, Seq::empty()) == TaskView::Answer(Reply::Bytes(b@)),
{
    let ghost r = views(replies@);
    let ghost goal = fetch_walk(total, r, 1, Seq::empty());
    let n: usize = replies.len();
    let mut all: Vec<u8> = Vec::new();
    assert(all@ =~= Seq::empty());
    let mut i: usize = 1;
    while i < n
        invariant
            n == replies@.len(),
            r == views(replies@),
            goal == fetch_walk(total, r, 1, Seq::empty()),
            goal matches Step::Answer(Reply::Bytes(_)),
            goal == fetch_walk(total, r, i as int, all@),
        decreases n - i,
    {
        assert(r[i as int] == replies@[i as int]@);
        match &replies[i] {
            Reply::Bytes(piece) => {
                let ghost before = all@;
                all.extend_from_slice(piece.as_slice());
                assert(all@ =~= before + piece@);
                i = if total == 0 {
                    i + 1
                } else {
                    i + 2
                };
            },
            _ => {
                return all;
            },
        }
    }
    all
}

/// Downloads the archive.
pub fn fetch_archive(url: &str, replies: &Vec<Heard>) -> (s: Task)
    ensures
        s@ == fetching(url@, views(replies@)),
{
    let ghost r = views(replies@);
    let n: usize = replies.len();
    if n == 0 {
        return Step::Ask(Effect::Connect(url.to_owned()));
    }
    if let Some(e) = why_failed(replies, 0) {
        return fail(cat2("Failed to connect: ", e.as_str()).as_str());
    }
    let total: u64 = told_number(replies, 0);
    let mut received: u64 = 0;
    let ghost mut all: Seq<u8> = Seq::empty();
    let mut i: usize = 1;
    let ghost goal = fetch_walk(total, r, 1, all);
    while i < n
        invariant
            n == replies@.len(),
            i <= n,
            r == views(replies@),
            goal == fetching(url@, r),
            goal == fetch_walk(total, r, 1, Seq::empty()),
            goal == fetch_walk(total, r, i as int, all),
            received == capped(all.len()),
        decreases n - i,
    {
        assert(r[i as int] == replies@[i as int]@);
        match &replies[i] {
            Reply::Failed(e) => {
                return fail(cat2("Download error: ", e.as_str()).as_str());
            },
            Reply::Bytes(piece) => {
                proof {
                    all = all + piece@;
                }
                received = received.saturating_add(piece.len() as u64);
                if total == 0 {
                    i = i + 1;
                    continue;
                }
                if i + 1 >= n {
                    proof {
                        lemma_share_is_whole(all.len(), total as nat);
                        lemma_share_is_whole(received as nat, total as nat);
                    }
                    return Step::Ask(Effect::SetProgress(download_progress(received, total)));
                }
                i = i + 2;
            },
            _ => {
                return Step::Answer(Reply::Bytes(join_download(total, replies)));
            },
        }
    }
    Step::Ask(Effect::NextChunk)
}

/// Giving up an installation: what was begun at the path is removed, and the task
/// fails. The removal is reply `i`; it does not matter whether it succeeds.
pub open spec fn abandoned(path: Seq<char>, r: Seq<Told>, i: int, message: Seq<char>) -> TaskView {
    if r.len() <= i {
        Step::Ask(Effect::RemoveDirAll(path))
    } else {
        failed(message)
    }
}

/// Gives up an installation.
fn abandon(path: &str, replies: &Vec<Heard>, i: usize, message: &str) -> (s: Task)
    ensures
        s@ == abandoned(path@, views(replies@), i as int, message@),
{
    if replies.len() <= i {
        Step::Ask(Effect::RemoveDirAll(path.to_owned()))
    } else {
        fail(message)
    }
}

/// Installing a server at a path from its archive, which opens unless there is a
/// fault, from reply `k` on.
pub open spec fn unpacking(
    name: Seq<char>,
    path: Seq<char>,
    bytes: Seq<u8>,
    fault: Option<Seq<char>>,
    r: Seq<Told>,
    k: int,
) -> TaskView {
    let binary = path + "/bedrock_server"@;
    let j = if r.len() > k + 1 && r[k + 1].yes() {
        k + 3
    } else {
        k + 2
    };
    if fault is Some {
        abandoned(path, r, k, "Failed to extract zip: "@ + fault->0)
    } else if r.len() <= k {
        Step::Ask(Effect::Extract(path, bytes))
    } else if r[k].failure() is Some {
        failed("Failed to extract: "@ + r[k].failure()->0)
    } else if r.len() == k + 1 {
        Step::Ask(Effect::Exists(binary))
    } else if r[k + 1].yes() && r.len() == k + 2 {
        Step::Ask(Effect::MakeExecutable(binary))
    } else if r[k + 1].yes() && r[k + 2].failure() is Some {
        failed("Failed to set executable: "@ + r[k + 2].failure()->0)
    } else if r.len() == j {
        Step::Ask(Effect::AssignIdentity(path))
    } else if r[j].failure() is Some {
        abandoned(path, r, j + 1, r[j].failure()->0)
    } else if r.len() == j + 1 {
        Step::Ask(Effect::SetProgress(100))
    } else {
        Step::Answer(Reply::Text("Instance '"@ + name + "' created successfully!"@))
    }
}

/// Installing a server at a path from the bytes of its archive, from reply `k` on.
pub open spec fn placing(
    name: Seq<char>,
    path: Seq<char>,
    bytes: Seq<u8>,
    r: Seq<Told>,
    k: int,
) -> TaskView {
    if r.len() <= k {
        Step::Ask(Effect::SetProgress(90))
    } else if r.len() == k + 1 {
        Step::Ask(Effect::CreateDirAll(path))
    } else if r[k + 1].failure() is Some {
        failed("Failed to create instance directory: "@ + r[k + 1].failure()->0)
    } else {
        unpacking(name, path, bytes, archive_fault(bytes), r, k + 2)
    }
}

/// Installing a version of the server as a new instance.
pub open spec fn installing(
    instances: Seq<char>,
    name: Seq<char>,
    version: Seq<char>,
    r: Seq<Told>,
) -> TaskView {
    let path = instances + "/"@ + name;
    if r.len() == 0 {
        Step::Ask(Effect::Exists(path))
    } else if r[0].yes() {
        failed("Instance already exists"@)
    } else if r.len() == 1 {
        Step::Ask(Effect::UrlExists(release_url(version)))
    } else if !r[1].yes() && r.len() == 2 {
        Step::Ask(Effect::UrlExists(preview_url(version)))
    } else if !r[1].yes() && !r[2].yes() {
        failed("Version "@ + version + " not found on any server"@)
    } else {
        let url = if r[1].yes() {
            release_url(version)
        } else {
            preview_url(version)
        };
        let k: int = if r[1].yes() {
            2
        } else {
            3
        };
        if r.len() == k {
            Step::Ask(Effect::FetchArchive(url))
        } else if r[k].failure() is Some {
            failed(r[k].failure()->0)
        } else {
            placing(name, path, bytes_told(r[k]), r, k + 1)
        }
    }
}

/// Installs the server at the path from its archive, which opens unless there is a
/// fault.
pub fn unpack(
    name: &str,
    path: &str,
    bytes: &Vec<u8>,
    fault: Option<String>,
    replies: &Vec<Heard>,
    k: usize,
) -> (s: Task)
    ensures
        s@ == unpacking(name@, path@, bytes@, opt_text(fault), views(replies@), k as int),
{
    let n: usize = replies.len();
    if let Some(e) = fault {
        let e = cat2("Failed to extract zip: ", e.as_str());
        return abandon(path, replies, k, e.as_str());
    }
    if n <= k {
        return Step::Ask(Effect::Extract(path.to_owned(), bytes.clone()));
    }
    if let Some(e) = why_failed(replies, k) {
        return fail(cat2("Failed to extract: ", e.as_str()).as_str());
    }
    let binary = cat2(path, "/bedrock_server");
    if n == k + 1 {
        return Step::Ask(Effect::Exists(binary));
    }
    let mut j: usize = k + 2;
    if said_yes(replies, k + 1) {
        if n == k + 2 {
            return Step::Ask(Effect::MakeExecutable(binary));
        }
        if let Some(e) = why_failed(replies, k + 2) {
            return fail(cat2("Failed to set executable: ", e.as_str()).as_str());
        }
        j = k + 3;
    }
    if n == j {
        return Step::Ask(Effect::AssignIdentity(path.to_owned()));
    }
    if let Some(e) = why_failed(replies, j) {
        return abandon(path, replies, j + 1, e.as_str());
    }
    if n == j + 1 {
        return Step::Ask(Effect::SetProgress(100));
    }
    Step::Answer(Reply::Text(cat3("Instance '", name, "' created successfully!")))
}

/// Installs the server at the path from the bytes of its archive.
fn place(name: &str, path: &str, bytes: &Vec<u8>, replies: &Vec<Heard>, k: usize) -> (s: Task)
    requires
        k <= replies@.len(),
    ensures
        s@ == placing(name@, path@, bytes@, views(replies@), k as int),
{
    let n: usize = replies.len();
    if n == k {
        return Step::Ask(Effect::SetProgress(90));
    }
    if n == k + 1 {
        return Step::Ask(Effect::CreateDirAll(path.to_owned()));
    }
    if let Some(e) = why_failed(replies, k + 1) {
        return fail(cat2("Failed to create instance directory: ", e.as_str()).as_str());
    }
    unpack(name, path, bytes, open_archive(bytes), replies, k + 2)
}

/// Installs the version of the server as a new instance.
pub fn download_and_install(
    instances_dir: &str,
    instance_name: &str,
    version: &str,
    replies: &Vec<Heard>,
) -> (s: Task)
    ensures
        s@ == installing(instances_dir@, instance_name@, version@, views(replies@)),
{
    let n: usize = replies.len();
    let path = cat3(instances_dir, "/", instance_name);
    if n == 0 {
        return Step::Ask(Effect::Exists(path));
    }
    if said_yes(replies, 0) {
        return fail("Instance already exists");
    }
    if n == 1 {
        return Step::Ask(Effect::UrlExists(url_of_release(version)));
    }
    let mut url = url_of_release(version);
    let mut k: usize = 2;
    if !said_yes(replies, 1) {
        url = url_of_preview(version);
        if n == 2 {
            return Step::Ask(Effect::UrlExists(url));
        }
        if !said_yes(replies, 2) {
            return fail(cat3("Version ", version, " not found on any server").as_str());
        }
        k = 3;
    }
    if n == k {
        return Step::Ask(Effect::FetchArchive(url));
    }
    if let Some(e) = why_failed(replies, k) {
        return fail(e.as_str());
    }
    match &replies[k] {
        Reply::Bytes(bytes) => place(instance_name, path.as_str(), bytes, replies, k + 1),
        _ => {
            let none: Vec<u8> = Vec::new();
            assert(none@ =~= Seq::empty());
            place(instance_name, path.as_str(), &none, replies, k + 1)
        },
    }
}

/// An installation changes nothing but the new instance's directory, and that only
/// where there was nothing.
pub proof fn law_installing_overwrites_nothing(
    instances: Seq<char>,
    name: Seq<char>,
    version: Seq<char>,
    r: Seq<Told>,
)
    ensures
        installing(instances, name, version, r) matches Step::Ask(e) ==> forall|p: Seq<char>|
            changes(e).contains(p) ==> {
                let path = instances + "/"@ + name;
                &&& r.len() > 0
                &&& !r[0].yes()
                &&& p == path || p == path + "/bedrock_server"@ || p == identity_place(path)
            },
{
}

/// An installation that succeeded has given the instance an identity of its own.
pub proof fn law_installed_instance_has_an_identity(
    instances: Seq<char>,
    name: Seq<char>,
    version: Seq<char>,
    r: Seq<Told>,
)
    requires
        installing(instances, name, version, r) matches Step::Answer(Reply::Text(_)),
        r.len() > 0,
        installing(instances, name, version, r.drop_last()) is Ask,
    ensures
        r.len() > 1,
        installing(instances, name, version, r.take(r.len() - 2)) == Step::<Seq<char>, Seq<u8>, Told>::Ask(
            Effect::AssignIdentity(instances + "/"@ + name),
        ),
        r[r.len() - 2].failure() is None,
{
    let q = r.drop_last();
    let t = r.take(r.len() - 2);
    assert forall|i: int| 0 <= i < q.len() implies q[i] == r[i] by {}
    assert forall|i: int| 0 <= i < t.len() implies t[i] == r[i] by {}
}

/// What is unpacked is what was downloaded, and it is an archive.
pub proof fn law_download_is_unpacked(
    instances: Seq<char>,
    name: Seq<char>,
    version: Seq<char>,
    r: Seq<Told>,
    path: Seq<char>,
    bytes: Seq<u8>,
)
    requires
        installing(instances, name, version, r) == TaskView::Ask(Effect::Extract(path, bytes)),
    ensures
        path == instances + "/"@ + name,
        archive_fault(bytes) is None,
        r.len() > 3,
        installing(instances, name, version, r.take(r.len() - 3)) matches Step::Ask(
            Effect::FetchArchive(_),
        ),
        bytes == bytes_told(r[r.len() - 3]),
{
    let t = r.take(r.len() - 3);
    assert forall|i: int| 0 <= i < t.len() implies t[i] == r[i] by {}
}

/// Making an instance: the request is checked, and the installation begins.
pub open spec fn creating(name: Seq<char>, version: Seq<char>, r: Seq<Told>) -> MoveView {
    if name_check(name) is Err {
        refused(name_check(name)->Err_0)
    } else if version_check(version) is Err {
        refused(version_check(version)->Err_0)
    } else if r.len() == 0 {
        Step::Ask(Effect::StartInstall(name, version))
    } else {
        Step::Answer(
            Answer::Downloading(
                "Creating instance '"@ + name + "' with version "@ + version + "..."@,
            ),
        )
    }
}

/// Makes an instance.
pub fn api_create_instance(name: &str, version: &str, replies: &Vec<Heard>) -> (s: Move)
    ensures
        s@ == creating(name@, version@, views(replies@)),
{
    if let Err(e) = validate_instance_name(name) {
        return refuse(e.as_str());
    }
    if let Err(e) = validate_version_format(version) {
        return refuse(e.as_str());
    }
    if replies.len() == 0 {
        return Step::Ask(Effect::StartInstall(name.to_owned(), version.to_owned()));
    }
    Step::Answer(
        Answer::Downloading(
            cat5("Creating instance '", name, "' with version ", version, "..."),
        ),
    )
}

/// Finding out whether an instance's server is there.
pub open spec fn awaiting(instances: Seq<char>, name: Seq<char>, r: Seq<Told>) -> MoveView {
    if r.len() == 0 {
        Step::Ask(Effect::Exists(instances + "/"@ + name + "/bedrock_server"@))
    } else if r[0].yes() {
        Step::Answer(Answer::Ready { ready: true, message: "Instance ready!"@ })
    } else {
        Step::Answer(
            Answer::Ready { ready: false, message: "Still downloading and extracting..."@ },
        )
    }
}

/// Finds out whether the instance's server is there.
pub fn api_instance_ready(instances_dir: &str, name: &str, replies: &Vec<Heard>) -> (s: Move)
    ensures
        s@ == awaiting(instances_dir@, name@, views(replies@)),
{
    if replies.len() == 0 {
        return Step::Ask(Effect::Exists(cat4(instances_dir, "/", name, "/bedrock_server")));
    }
    if said_yes(replies, 0) {
        Step::Answer(Answer::Ready { ready: true, message: "Instance ready!".to_owned() })
    } else {
        Step::Answer(
            Answer::Ready {
                ready: false,
                message: "Still downloading and extracting...".to_owned(),
            },
        )
    }
}

/// Deleting an instance.
pub open spec fn deleting_instance(instances: Seq<char>, name: Seq<char>, r: Seq<Told>) -> MoveView {
    let path = instances + "/"@ + name;
    if name_check(name) is Err {
        refused(name_check(name)->Err_0)
    } else if r.len() == 0 {
        Step::Ask(Effect::Exists(path))
    } else if !r[0].yes() {
        refused("Instance does not exist"@)
    } else if r.len() == 1 {
        Step::Ask(Effect::Unregister(name))
    } else if r.len() == 2 {
        Step::Ask(Effect::RemoveDirAll(path))
    } else if r[2].failure() is Some {
        refused("Failed to delete instance: "@ + r[2].failure()->0)
    } else {
        Step::Answer(Answer::InstanceDeleted("Instance deleted successfully"@))
    }
}

/// Deletes the instance.
pub fn api_delete_instance(instances_dir: &str, name: &str, replies: &Vec<Heard>) -> (s: Move)
    ensures
        s@ == deleting_instance(instances_dir@, name@, views(replies@)),
{
    let n: usize = replies.len();
    if let Err(e) = validate_instance_name(name) {
        return refuse(e.as_str());
    }
    let path = cat3(instances_dir, "/", name);
    if n == 0 {
        return Step::Ask(Effect::Exists(path));
    }
    if !said_yes(replies, 0) {
        return refuse("Instance does not exist");
    }
    if n == 1 {
        return Step::Ask(Effect::Unregister(name.to_owned()));
    }
    if n == 2 {
        return Step::Ask(Effect::RemoveDirAll(path));
    }
    if let Some(e) = why_failed(replies, 2) {
        return refuse(cat2("Failed to delete instance: ", e.as_str()).as_str());
    }
    Step::Answer(Answer::InstanceDeleted("Instance deleted successfully".to_owned()))
}

/// Deleting an instance removes one directory of the instances' directory, and
/// never that one itself or what is above it.
pub proof fn law_deleting_removes_one_instance(
    instances: Seq<char>,
    name: Seq<char>,
    r: Seq<Told>,
)
    ensures
        deleting_instance(instances, name, r) matches Step::Ask(e) ==> forall|p: Seq<char>|
            changes(e).contains(p) ==> {
                &&& p == instances + "/"@ + name
                &&& name.len() > 0
                &&& !name.contains('/')
                &&& name != "."@
                &&& name != ".."@
            },
{
    if name_check(name) is Ok {
        law_accepted_name_is_one_step(name);
    }
}

/// The last steps of renaming, once the instance's directory has its new name:
/// what the relinking of its backups came to, and the panel's own lists, which is
/// reply `k`.
pub open spec fn renamed(
    name: Seq<char>,
    new_name: Seq<char>,
    r: Seq<Told>,
    k: int,
    count: u64,
    warning: Option<Seq<char>>,
) -> MoveView {
    if r.len() <= k {
        Step::Ask(Effect::RenameRegistered(name, new_name))
    } else {
        Step::Answer(
            Answer::Renamed {
                message: "Instance renamed from '"@ + name + "' to '"@ + new_name + "'"@,
                old_name: name,
                new_name,
                relinked_backups: count,
                warning,
            },
        )
    }
}

/// Renaming an instance: its directory, the links of its backups, and the panel's
/// own lists. Backups that cannot be linked are no reason to fail.
pub open spec fn renaming(
    instances: Seq<char>,
    name: Seq<char>,
    wanted: Seq<char>,
    r: Seq<Told>,
) -> MoveView {
    let new_name = trimmed(wanted);
    let old_path = joined_path(instances, name);
    let new_path = joined_path(instances, new_name);
    if name_check(name) is Err {
        refused(name_check(name)->Err_0)
    } else if name_check(new_name) is Err {
        refused(name_check(new_name)->Err_0)
    } else if new_name == name {
        Step::Answer(
            Answer::NameUnchanged { message: "Instance name is unchanged"@, new_name },
        )
    } else if r.len() == 0 {
        Step::Ask(Effect::IsDir(old_path))
    } else if !r[0].yes() {
        refused("Instance does not exist"@)
    } else if r.len() == 1 {
        Step::Ask(Effect::Exists(new_path))
    } else if r[1].yes() {
        refused("An instance with the new name already exists"@)
    } else if r.len() == 2 {
        Step::Ask(Effect::IsRunning(name))
    } else if r[2].yes() {
        refused("Stop the server before renaming this instance"@)
    } else if r.len() == 3 {
        Step::Ask(Effect::Rename(old_path, new_path))
    } else if r[3].failure() is Some {
        refused("Failed to rename instance: "@ + r[3].failure()->0)
    } else if r.len() == 4 {
        Step::Ask(Effect::EnsureIdentity(new_path))
    } else {
        match r[4].text() {
            None => renamed(
                name,
                new_name,
                r,
                5,
                0,
                Some("Rename succeeded but backup relink was skipped: "@ + fault(r[4])),
            ),
            Some(identity) => if r.len() == 5 {
                Step::Ask(
                    Effect::Relink(
                        Relinking {
                            old_name: name,
                            new_name,
                            identity,
                            digest: proof_of(identity),
                        },
                    ),
                )
            } else {
                renamed(name, new_name, r, 6, number_told(r[5]), r[5].failure())
            },
        }
    }
}

/// The last steps of renaming.
fn finish_rename(
    name: &str,
    new_name: &str,
    replies: &Vec<Heard>,
    k: usize,
    count: u64,
    warning: Option<String>,
) -> (s: Move)
    ensures
        s@ == renamed(
            name@,
            new_name@,
            views(replies@),
            k as int,
            count,
            opt_text(warning),
        ),
{
    if replies.len() <= k {
        return Step::Ask(Effect::RenameRegistered(name.to_owned(), new_name.to_owned()));
    }
    Step::Answer(
        Answer::Renamed {
            message: cat5("Instance renamed from '", name, "' to '", new_name, "'"),
            old_name: name.to_owned(),
            new_name: new_name.to_owned(),
            relinked_backups: count,
            warning,
        },
    )
}

/// Renames the instance.
pub fn api_rename_instance(
    instances_dir: &str,
    name: &str,
    wanted: &str,
    replies: &Vec<Heard>,
) -> (s: Move)
    ensures
        s@ == renaming(instances_dir@, name@, wanted@, views(replies@)),
{
    let n: usize = replies.len();
    if let Err(e) = validate_instance_name(name) {
        return refuse(e.as_str());
    }
    let new_name = trim(wanted);
    if let Err(e) = validate_instance_name(new_name) {
        return refuse(e.as_str());
    }
    if same_text(new_name, name) {
        return Step::Answer(
            Answer::NameUnchanged {
                message: "Instance name is unchanged".to_owned(),
                new_name: new_name.to_owned(),
            },
        );
    }
    let old_path = join_path(instances_dir, name);
    let new_path = join_path(instances_dir, new_name);
    if n == 0 {
        return Step::Ask(Effect::IsDir(old_path));
    }
    if !said_yes(replies, 0) {
        return refuse("Instance does not exist");
    }
    if n == 1 {
        return Step::Ask(Effect::Exists(new_path));
    }
    if said_yes(replies, 1) {
        return refuse("An instance with the new name already exists");
    }
    if n == 2 {
        return Step::Ask(Effect::IsRunning(name.to_owned()));
    }
    if said_yes(replies, 2) {
        return refuse("Stop the server before renaming this instance");
    }
    if n == 3 {
        return Step::Ask(Effect::Rename(old_path, new_path));
    }
    if let Some(e) = why_failed(replies, 3) {
        return refuse(cat2("Failed to rename instance: ", e.as_str()).as_str());
    }
    if n == 4 {
        return Step::Ask(Effect::EnsureIdentity(new_path));
    }
    let identity = match text_told(replies, 4) {
        Some(identity) => identity,
        None => {
            let warning = cat2(
                "Rename succeeded but backup relink was skipped: ",
                fault_told(replies, 4).as_str(),
            );
            return finish_rename(name, new_name, replies, 5, 0, Some(warning));
        },
    };
    if n == 5 {
        let digest = sha256_hex(identity.as_str());
        return Step::Ask(
            Effect::Relink(
                Relinking {
                    old_name: name.to_owned(),
                    new_name: new_name.to_owned(),
                    identity,
                    digest,
                },
            ),
        );
    }
    let count: u64 = told_number(replies, 5);
    finish_rename(name, new_name, replies, 6, count, why_failed(replies, 5))
}

/// An instance is renamed only while its server does not run, and only to a place
/// where there was nothing; nothing else is moved.
pub proof fn law_renaming_overwrites_nothing(
    instances: Seq<char>,
    name: Seq<char>,
    wanted: Seq<char>,
    r: Seq<Told>,
)
    ensures
        renaming(instances, name, wanted, r) matches Step::Ask(Effect::Rename(a, b)) ==> {
            &&& a == joined_path(instances, name)
            &&& b == joined_path(instances, trimmed(wanted))
            &&& r.len() == 3
            &&& r[0].yes()
            &&& !r[1].yes()
            &&& !r[2].yes()
        },
        renaming(instances, name, wanted, r) matches Step::Answer(Answer::Renamed { .. })
            ==> r[3].failure() is None,
{
}

/// Renaming links the backups by the identity that the instance has under its new
/// name, and by the proof of that identity.
pub proof fn law_renaming_relinks_by_identity(
    instances: Seq<char>,
    name: Seq<char>,
    wanted: Seq<char>,
    r: Seq<Told>,
)
    ensures
        renaming(instances, name, wanted, r) matches Step::Ask(Effect::Relink(q)) ==> {
            &&& q.old_name == name
            &&& q.new_name == trimmed(wanted)
            &&& r[4].text() == Some(q.identity)
            &&& q.digest == proof_of(q.identity)
        },
{
}

/// Renaming an instance comes to an end after seven replies at most, and an
/// installation after twelve.
pub proof fn law_renaming_and_installing_end(
    instances: Seq<char>,
    name: Seq<char>,
    wanted: Seq<char>,
    version: Seq<char>,
    r: Seq<Told>,
)
    ensures
        r.len() >= 7 ==> renaming(instances, name, wanted, r) is Answer,
        r.len() >= 12 ==> installing(instances, name, version, r) is Answer,
{
}

/// A rename that succeeded has given the directory its new name and ends with the
/// panel's own lists; backups that could not be linked show as a warning and in
/// nothing else.
pub proof fn law_rename_ends_with_the_lists(
    instances: Seq<char>,
    name: Seq<char>,
    wanted: Seq<char>,
    r: Seq<Told>,
)
    requires
        r.len() > 0,
        renaming(instances, name, wanted, r) matches Step::Answer(Answer::Renamed { .. }),
        renaming(instances, name, wanted, r.drop_last()) is Ask,
    ensures
        renaming(instances, name, wanted, r.drop_last()) == MoveView::Ask(
            Effect::RenameRegistered(name, trimmed(wanted)),
        ),
        r.len() > 4,
        renaming(instances, name, wanted, r.take(3)) == MoveView::Ask(
            Effect::Rename(joined_path(instances, name), joined_path(instances, trimmed(wanted))),
        ),
        r[3].failure() is None,
        renaming(instances, name, wanted, r) matches Step::Answer(
            Answer::Renamed { old_name, new_name, warning, .. },
        ) && {
            &&& old_name == name
            &&& new_name == trimmed(wanted)
            &&& warning is Some <==> r[4].text() is None || r[5].failure() is Some
        },
{
    let q = r.drop_last();
    let t = r.take(3);
    assert forall|i: int| 0 <= i < q.len() implies q[i] == r[i] by {}
    assert forall|i: int| 0 <= i < t.len() implies t[i] == r[i] by {}
}

/// Once the directory has its new name, renaming does not fail any more.
pub proof fn law_renamed_directory_is_told(
    instances: Seq<char>,
    name: Seq<char>,
    wanted: Seq<char>,
    r: Seq<Told>,
)
    requires
        r.len() > 3,
        renaming(instances, name, wanted, r.take(3)) matches Step::Ask(Effect::Rename(..)),
        r[3].failure() is None,
    ensures
        match renaming(instances, name, wanted, r) {
            Step::Ask(e) => e is EnsureIdentity || e is Relink || e is RenameRegistered,
            Step::Answer(a) => a is Renamed,
        },
{
    let t = r.take(3);
    assert forall|i: int| 0 <= i < t.len() implies t[i] == r[i] by {}
}

/// Where a step of a download leads once its reply has come.
proof fn lemma_fetch_goes_on(total: u64, r: Seq<Told>, i: int, received: Seq<u8>, x: Told)
    requires
        0 <= i <= r.len(),
    ensures
        ({
            let next = fetch_walk(total, r.push(x), i, received);
            match fetch_walk(total, r, i, received) {
                Step::Ask(Effect::NextChunk) => match x {
                    Reply::Bytes(_) => if total == 0 {
                        next == TaskView::Ask(Effect::NextChunk)
                    } else {
                        next matches Step::Ask(Effect::SetProgress(_))
                    },
                    Reply::Failed(e) => next == failed("Download error: "@ + e),
                    _ => next matches Step::Answer(Reply::Bytes(_)),
                },
                Step::Ask(Effect::SetProgress(_)) => next == TaskView::Ask(Effect::NextChunk),
                Step::Ask(_) => false,
                Step::Answer(a) => next == TaskView::Answer(a),
            }
        }),
    decreases r.len() - i,
{
    reveal_with_fuel(fetch_walk, 2);
    let q = r.push(x);
    if i < r.len() {
        assert(q[i] == r[i]);
        if let Reply::Bytes(piece) = r[i] {
            if total == 0 {
                lemma_fetch_goes_on(total, r, i + 1, received + piece, x);
            } else if i + 1 < r.len() {
                lemma_fetch_goes_on(total, r, i + 2, received + piece, x);
            }
        }
    } else {
        assert(q[i] == x);
    }
}

/// More bytes are put behind those that were received.
proof fn lemma_fetch_grows(
    total: u64,
    r: Seq<Told>,
    i: int,
    received: Seq<u8>,
    b: Seq<u8>,
    piece: Seq<u8>,
    y: Told,
)
    requires
        0 <= i <= r.len(),
        fetch_walk(total, r, i, received) == TaskView::Ask(Effect::NextChunk),
        fetch_walk(total, r.push(Reply::Nothing), i, received) == TaskView::Answer(Reply::Bytes(b)),
    ensures
        total == 0 ==> fetch_walk(
            total,
            r.push(Reply::Bytes(piece)).push(Reply::Nothing),
            i,
            received,
        ) == TaskView::Answer(Reply::Bytes(b + piece)),
        total > 0 ==> {
            &&& fetch_walk(total, r.push(Reply::Bytes(piece)), i, received) == TaskView::Ask(
                Effect::SetProgress(download_share((b + piece).len(), total as nat) as u64),
            )
            &&& fetch_walk(
                total,
                r.push(Reply::Bytes(piece)).push(y).push(Reply::Nothing),
                i,
                received,
            ) == TaskView::Answer(Reply::Bytes(b + piece))
        },
    decreases r.len() - i,
{
    reveal_with_fuel(fetch_walk, 3);
    let q = r.push(Reply::Nothing);
    let one = r.push(Reply::Bytes(piece));
    let end = one.push(Reply::Nothing);
    let told = one.push(y).push(Reply::Nothing);
    if i < r.len() {
        assert(q[i] == r[i] && one[i] == r[i] && end[i] == r[i] && told[i] == r[i]);
        if let Reply::Bytes(p) = r[i] {
            if total == 0 {
                lemma_fetch_grows(total, r, i + 1, received + p, b, piece, y);
            } else {
                assert(i + 1 < r.len());
                lemma_fetch_grows(total, r, i + 2, received + p, b, piece, y);
            }
        }
    } else {
        assert(q[i] == Told::Nothing);
        assert(one[i] == Told::Bytes(piece) && end[i] == Told::Bytes(piece) && told[i]
            == Told::Bytes(piece));
        assert(end[i + 1] == Told::Nothing);
        assert(told[i + 2] == Told::Nothing);
    }
}

/// A download goes on as each reply asks for: after each piece the progress is shown
/// where the length is known, and the next piece is asked for, until there is none.
pub proof fn law_download_goes_on(url: Seq<char>, r: Seq<Told>, x: Told)
    ensures
        fetching(url, Seq::empty()) == TaskView::Ask(Effect::Connect(url)),
        ({
            let next = fetching(url, r.push(x));
            match fetching(url, r) {
                Step::Ask(Effect::Connect(_)) => next == match x {
                    Reply::Failed(e) => failed("Failed to connect: "@ + e),
                    _ => TaskView::Ask(Effect::NextChunk),
                },
                Step::Ask(Effect::NextChunk) => match x {
                    Reply::Bytes(_) => if r[0] matches Reply::Number(total) && total > 0 {
                        next matches Step::Ask(Effect::SetProgress(_))
                    } else {
                        next == TaskView::Ask(Effect::NextChunk)
                    },
                    Reply::Failed(e) => next == failed("Download error: "@ + e),
                    _ => next matches Step::Answer(Reply::Bytes(_)),
                },
                Step::Ask(Effect::SetProgress(_)) => next == TaskView::Ask(Effect::NextChunk),
                Step::Ask(_) => false,
                Step::Answer(a) => next == TaskView::Answer(a),
            }
        }),
{
    let q = r.push(x);
    if r.len() > 0 {
        assert(q[0] == r[0]);
        lemma_fetch_goes_on(number_told(r[0]), r, 1, Seq::empty(), x);
    } else {
        assert(q[0] == x);
    }
}

/// One more piece is put behind the bytes that a download has brought so far, and
/// where the length is known the share of what has come then is shown, of ninety.
pub proof fn law_download_is_put_together(
    url: Seq<char>,
    r: Seq<Told>,
    b: Seq<u8>,
    piece: Seq<u8>,
    y: Told,
)
    requires
        fetching(url, r) == TaskView::Ask(Effect::NextChunk),
        fetching(url, r.push(Reply::Nothing)) == TaskView::Answer(Reply::Bytes(b)),
    ensures
        r.len() == 1 ==> b == Seq::<u8>::empty(),
        match r[0] {
            Reply::Number(total) if total > 0 => {
                &&& fetching(url, r.push(Reply::Bytes(piece))) matches Step::Ask(
                    Effect::SetProgress(n),
                ) && n <= 90 && (n < 90 ==> n * total <= (b.len() + piece.len()) * 90 < (n + 1)
                    * total) && (n == 90 ==> (b.len() + piece.len()) * 90 >= 90 * total)
                &&& fetching(url, r.push(Reply::Bytes(piece)).push(y).push(Reply::Nothing))
                    == TaskView::Answer(Reply::Bytes(b + piece))
            },
            _ => fetching(url, r.push(Reply::Bytes(piece)).push(Reply::Nothing))
                == TaskView::Answer(Reply::Bytes(b + piece)),
        },
{
    let total = number_told(r[0]);
    assert(r.push(Reply::Nothing)[0] == r[0]);
    assert(r.push(Reply::Bytes(piece))[0] == r[0]);
    assert(r.push(Reply::Bytes(piece)).push(Reply::Nothing)[0] == r[0]);
    assert(r.push(Reply::Bytes(piece)).push(y).push(Reply::Nothing)[0] == r[0]);
    lemma_fetch_grows(total, r, 1, Seq::empty(), b, piece, y);
    if total > 0 {
        let got = (b + piece).len();
        let t = total as nat;
        let n = download_share(got, t);
        lemma_share_is_whole(got, t);
        assert((got * 90 / t) * t <= got * 90 < (got * 90 / t + 1) * t) by (nonlinear_arith)
            requires
                t > 0,
        ;
        if got * 90 / t >= 90 {
            assert((got * 90 / t) * t >= 90 * t) by (nonlinear_arith)
                requires
                    got * 90 / t >= 90,
                    t > 0,
            ;
        }
    }
    if r.len() == 1 {
        reveal_with_fuel(fetch_walk, 2);
        assert(r.push(Reply::Nothing)[1] == Told::Nothing);
    }
}

/// What is heard of a download of so many bytes in these pieces, up to its end.
pub open spec fn heard_pieces(total: u64, pieces: Seq<Seq<u8>>) -> Seq<Told>
    decreases pieces.len(),
{
    if pieces.len() == 0 {
        seq![Reply::Number(total)]
    } else {
        let before = heard_pieces(total, pieces.drop_last()).push(Reply::Bytes(pieces.last()));
        if total > 0 {
            before.push(Reply::Done)
        } else {
            before
        }
    }
}

/// A download that has ended gives all the pieces that came, one behind the other.
pub proof fn law_download_is_whole(url: Seq<char>, total: u64, pieces: Seq<Seq<u8>>)
    ensures
        fetching(url, heard_pieces(total, pieces)) == TaskView::Ask(Effect::NextChunk),
        fetching(url, heard_pieces(total, pieces).push(Reply::Nothing)) == TaskView::Answer(
            Reply::Bytes(pieces.flatten()),
        ),
    decreases pieces.len(),
{
    let h = heard_pieces(total, pieces);
    if pieces.len() == 0 {
        reveal_with_fuel(fetch_walk, 2);
        assert(pieces.flatten() =~= Seq::empty());
        assert(h.push(Reply::Nothing)[0] == Told::Number(total));
    } else {
        let front = pieces.drop_last();
        let before = heard_pieces(total, front);
        lemma_pieces_start(total, front);
        law_download_is_whole(url, total, front);
        law_download_is_put_together(url, before, front.flatten(), pieces.last(), Reply::Done);
        law_download_goes_on(url, before, Reply::Bytes(pieces.last()));
        if total > 0 {
            law_download_goes_on(url, before.push(Reply::Bytes(pieces.last())), Reply::Done);
        }
        assert(front.push(pieces.last()) =~= pieces);
        front.lemma_flatten_push(pieces.last());
    }
}

proof fn lemma_pieces_start(total: u64, pieces: Seq<Seq<u8>>)
    ensures
        heard_pieces(total, pieces).len() > 0,
        heard_pieces(total, pieces)[0] == Told::Number(total),
    decreases pieces.len(),
{
    if pieces.len() > 0 {
        lemma_pieces_start(total, pieces.drop_last());
    }
}

/// An installation goes on as each reply asks for. An instance that is there is left
/// alone. The release is tried before the preview, and what is there is downloaded.
/// The directory is made and the archive unpacked to it; the server's program is made
/// executable where there is one, and the instance gets an identity of its own.
/// What is no archive, and an instance without an identity, are removed again.
pub proof fn law_installing_goes_on(
    instances: Seq<char>,
    name: Seq<char>,
    version: Seq<char>,
    r: Seq<Told>,
    x: Told,
)
    ensures
        installing(instances, name, version, Seq::empty()) == TaskView::Ask(
            Effect::Exists(instances + "/"@ + name),
        ),
        ({
            let path = instances + "/"@ + name;
            let binary = path + "/bedrock_server"@;
            let release = "https://www.minecraft.net/bedrockdedicatedserver/bin-linux/bedrock-server-"@
                + version + ".zip"@;
            let preview =
                "https://www.minecraft.net/bedrockdedicatedserver/bin-linux-preview/bedrock-server-"@
                + version + ".zip"@;
            let yes = x == Told::Flag(true);
            let next = installing(instances, name, version, r.push(x));
            match installing(instances, name, version, r) {
                Step::Ask(Effect::Exists(p)) => if r.len() == 0 {
                    p == path && next == (if yes {
                        failed("Instance already exists"@)
                    } else {
                        TaskView::Ask(Effect::UrlExists(release))
                    })
                } else {
                    p == binary && next == TaskView::Ask(
                        if yes {
                            Effect::MakeExecutable(binary)
                        } else {
                            Effect::AssignIdentity(path)
                        },
                    )
                },
                Step::Ask(Effect::UrlExists(u)) => {
                    &&& u == if r.len() == 1 {
                        release
                    } else {
                        preview
                    }
                    &&& next == (if yes {
                        TaskView::Ask(Effect::FetchArchive(u))
                    } else if r.len() == 1 {
                        TaskView::Ask(Effect::UrlExists(preview))
                    } else {
                        failed("Version "@ + version + " not found on any server"@)
                    })
                },
                Step::Ask(Effect::FetchArchive(_)) => next == match x {
                    Reply::Failed(e) => failed(e),
                    _ => TaskView::Ask(Effect::SetProgress(90)),
                },
                Step::Ask(Effect::SetProgress(n)) => if n == 90 {
                    next == TaskView::Ask(Effect::CreateDirAll(path))
                } else {
                    n == 100 && next == TaskView::Answer(
                        Reply::Text("Instance '"@ + name + "' created successfully!"@),
                    )
                },
                Step::Ask(Effect::CreateDirAll(p)) => {
                    &&& p == path
                    &&& r.len() >= 2
                    &&& match (x, archive_fault(bytes_told(r[r.len() - 2]))) {
                        (Reply::Failed(e), _) => next == failed(
                            "Failed to create instance directory: "@ + e,
                        ),
                        (_, Some(_)) => next == TaskView::Ask(Effect::RemoveDirAll(path)),
                        (_, None) => next == TaskView::Ask(
                            Effect::Extract(path, bytes_told(r[r.len() - 2])),
                        ),
                    }
                },
                Step::Ask(Effect::Extract(p, _)) => p == path && next == match x {
                    Reply::Failed(e) => failed("Failed to extract: "@ + e),
                    _ => TaskView::Ask(Effect::Exists(binary)),
                },
                Step::Ask(Effect::MakeExecutable(p)) => p == binary && next == match x {
                    Reply::Failed(e) => failed("Failed to set executable: "@ + e),
                    _ => TaskView::Ask(Effect::AssignIdentity(path)),
                },
                Step::Ask(Effect::AssignIdentity(p)) => p == path && next == TaskView::Ask(
                    match x {
                        Reply::Failed(_) => Effect::RemoveDirAll(path),
                        _ => Effect::SetProgress(100),
                    },
                ),
                Step::Ask(Effect::RemoveDirAll(p)) => {
                    &&& p == path
                    &&& r.len() >= 3
                    &&& next == match r.last() {
                        Reply::Failed(e) => failed(e),
                        _ => failed(
                            "Failed to extract zip: "@ + archive_fault(
                                bytes_told(r[r.len() - 3]),
                            )->0,
                        ),
                    }
                },
                Step::Ask(_) => false,
                Step::Answer(a) => next == TaskView::Answer(a),
            }
        }),
{
    let q = r.push(x);
    assert forall|j: int| 0 <= j < r.len() implies q[j] == r[j] by {}
    assert(q[r.len() as int] == x);
}

/// Where a step of listing leads once its reply has come.
proof fn lemma_listing_goes_on(
    root: Seq<char>,
    identify: bool,
    r: Seq<Told>,
    i: int,
    found: Seq<Seq<char>>,
    x: Told,
)
    requires
        0 <= i <= r.len(),
    ensures
        ({
            let next = listing(root, identify, r.push(x), i, found);
            match listing(root, identify, r, i, found) {
                Step::Ask(Effect::NextEntry(d)) => d == root && match x {
                    Reply::Entry(path, _) => next == ListView::Ask(Effect::EntryKind(path)),
                    Reply::Failed(_) => next == ListView::Ask(Effect::NextEntry(root)),
                    _ => next is Answer,
                },
                Step::Ask(Effect::EntryKind(path)) => next == ListView::Ask(
                    if identify && x == Told::Kind(EntryKind::Directory) {
                        Effect::EnsureIdentity(path)
                    } else {
                        Effect::NextEntry(root)
                    },
                ),
                Step::Ask(Effect::EnsureIdentity(_)) => identify && next == ListView::Ask(
                    Effect::NextEntry(root),
                ),
                Step::Ask(_) => false,
                Step::Answer(a) => next == ListView::Answer(a),
            }
        }),
    decreases r.len() - i,
{
    reveal_with_fuel(listing, 2);
    let q = r.push(x);
    if i < r.len() {
        assert(q[i] == r[i]);
        match r[i] {
            Reply::Entry(_, name) => {
                let more = match name {
                    Some(n) => found.push(n),
                    None => found,
                };
                if i + 1 < r.len() {
                    assert(q[i + 1] == r[i + 1]);
                    if r[i + 1] != Told::Kind(EntryKind::Directory) {
                        lemma_listing_goes_on(root, identify, r, i + 2, found, x);
                    } else if !identify {
                        lemma_listing_goes_on(root, identify, r, i + 2, more, x);
                    } else if i + 2 < r.len() {
                        lemma_listing_goes_on(root, identify, r, i + 3, more, x);
                    }
                } else {
                    assert(q[i + 1] == x);
                }
            },
            Reply::Failed(_) => {
                lemma_listing_goes_on(root, identify, r, i + 1, found, x);
            },
            _ => {},
        }
    } else {
        assert(q[i] == x);
    }
}

/// The replies to the questions that an entry of the instances' directory gives rise
/// to.
pub open spec fn heard_entry(
    identify: bool,
    path: Seq<char>,
    name: Option<Seq<char>>,
    kind: Told,
    y: Told,
) -> Seq<Told> {
    if identify && kind == Told::Kind(EntryKind::Directory) {
        seq![Reply::Entry(path, name), kind, y]
    } else {
        seq![Reply::Entry(path, name), kind]
    }
}

/// One more entry adds its name where it is a directory with one.
proof fn lemma_listing_grows(
    root: Seq<char>,
    identify: bool,
    r: Seq<Told>,
    i: int,
    found: Seq<Seq<char>>,
    path: Seq<char>,
    name: Option<Seq<char>>,
    kind: Told,
    y: Told,
    before: Seq<Seq<char>>,
)
    requires
        0 <= i <= r.len(),
        listing(root, identify, r, i, found) == ListView::Ask(Effect::NextEntry(root)),
        listing(root, identify, r.push(Reply::Nothing), i, found) == ListView::Answer(before),
    ensures
        ({
            let more = (r + heard_entry(identify, path, name, kind, y)).push(Reply::Nothing);
            listing(root, identify, more, i, found) matches Step::Answer(l) && if kind
                == Told::Kind(EntryKind::Directory) && name is Some {
                l.to_multiset() == before.to_multiset().insert(name->0)
            } else {
                l == before
            }
        }),
    decreases r.len() - i,
{
    reveal_with_fuel(listing, 3);
    let q = r.push(Reply::Nothing);
    let h = heard_entry(identify, path, name, kind, y);
    let t = (r + h).push(Reply::Nothing);
    assert forall|j: int| 0 <= j < r.len() implies q[j] == r[j] && t[j] == r[j] by {}
    if i < r.len() {
        match r[i] {
            Reply::Entry(_, n) => {
                let more = match n {
                    Some(n) => found.push(n),
                    None => found,
                };
                assert(i + 1 < r.len());
                if r[i + 1] != Told::Kind(EntryKind::Directory) {
                    lemma_listing_grows(
                        root,
                        identify,
                        r,
                        i + 2,
                        found,
                        path,
                        name,
                        kind,
                        y,
                        before,
                    );
                } else if !identify {
                    lemma_listing_grows(root, identify, r, i + 2, more, path, name, kind, y, before);
                } else {
                    assert(i + 2 < r.len());
                    lemma_listing_grows(root, identify, r, i + 3, more, path, name, kind, y, before);
                }
            },
            Reply::Failed(_) => {
                lemma_listing_grows(root, identify, r, i + 1, found, path, name, kind, y, before);
            },
            _ => {},
        }
    } else {
        broadcast use vstd::seq_lib::group_to_multiset_ensures;

        assert(q[i] == Told::Nothing);
        assert forall|j: int| 0 <= j < h.len() implies t[i + j] == h[j] by {}
        assert(t[i + h.len()] == Told::Nothing);
        assert(t[i] == Told::Entry(path, name) && t[i + 1] == kind);
        law_sorted::<String>(found);
        if let Some(n) = name {
            law_sorted::<String>(found.push(n));
        }
    }
}

/// Listing the instances goes on as each reply asks for: each entry is looked at,
/// wherever in the list it stands, and where identities are wanted each directory gets
/// one; what cannot be read is passed over.
pub proof fn law_listing_goes_on(root: Seq<char>, identify: bool, r: Seq<Told>, x: Told)
    ensures
        listed_instances(root, identify, Seq::empty()) == ListView::Ask(Effect::OpenDir(root)),
        ({
            let next = listed_instances(root, identify, r.push(x));
            match listed_instances(root, identify, r) {
                Step::Ask(Effect::OpenDir(_)) => next == match x {
                    Reply::Failed(_) => ListView::Answer(Seq::empty()),
                    _ => ListView::Ask(Effect::NextEntry(root)),
                },
                Step::Ask(Effect::NextEntry(d)) => d == root && match x {
                    Reply::Entry(path, _) => next == ListView::Ask(Effect::EntryKind(path)),
                    Reply::Failed(_) => next == ListView::Ask(Effect::NextEntry(root)),
                    _ => next is Answer,
                },
                Step::Ask(Effect::EntryKind(path)) => next == ListView::Ask(
                    if identify && x == Told::Kind(EntryKind::Directory) {
                        Effect::EnsureIdentity(path)
                    } else {
                        Effect::NextEntry(root)
                    },
                ),
                Step::Ask(Effect::EnsureIdentity(_)) => identify && next == ListView::Ask(
                    Effect::NextEntry(root),
                ),
                Step::Ask(_) => false,
                Step::Answer(a) => next == ListView::Answer(a),
            }
        }),
{
    let q = r.push(x);
    if r.len() > 0 {
        assert(q[0] == r[0]);
        lemma_listing_goes_on(root, identify, r, 1, Seq::empty(), x);
    } else {
        assert(q[0] == x);
    }
}

/// Each directory whose name is text is listed, whatever was listed before; nothing
/// else is, and an empty directory holds no instances.
pub proof fn law_each_directory_is_listed(
    root: Seq<char>,
    identify: bool,
    r: Seq<Told>,
    path: Seq<char>,
    name: Option<Seq<char>>,
    kind: Told,
    y: Told,
    before: Seq<Seq<char>>,
)
    requires
        listed_instances(root, identify, r) == ListView::Ask(Effect::NextEntry(root)),
        listed_instances(root, identify, r.push(Reply::Nothing)) == ListView::Answer(before),
    ensures
        r.len() == 1 ==> before == Seq::<Seq<char>>::empty(),
        ({
            let more = (r + heard_entry(identify, path, name, kind, y)).push(Reply::Nothing);
            listed_instances(root, identify, more) matches Step::Answer(l) && if kind
                == Told::Kind(EntryKind::Directory) && name is Some {
                l.to_multiset() == before.to_multiset().insert(name->0)
            } else {
                l == before
            }
        }),
{
    assert(r.push(Reply::Nothing)[0] == r[0]);
    assert((r + heard_entry(identify, path, name, kind, y)).push(Reply::Nothing)[0] == r[0]);
    lemma_listing_grows(root, identify, r, 1, Seq::empty(), path, name, kind, y, before);
    if r.len() == 1 {
        reveal_with_fuel(listing, 2);
        assert(r.push(Reply::Nothing)[1] == Told::Nothing);
        assert(before =~= Seq::empty());
    }
}

proof fn lemma_listing_in_order(
    root: Seq<char>,
    identify: bool,
    r: Seq<Told>,
    i: int,
    found: Seq<Seq<char>>,
)
    ensures
        listing(root, identify, r, i, found) matches Step::Answer(l) ==> in_order::<String>(l),
    decreases r.len() - i,
{
    if i < r.len() {
        match r[i] {
            Reply::Entry(_, name) => if i + 1 < r.len() {
                let more = match name {
                    Some(n) => found.push(n),
                    None => found,
                };
                lemma_listing_in_order(root, identify, r, i + 2, found);
                lemma_listing_in_order(root, identify, r, i + 2, more);
                if i + 2 < r.len() {
                    lemma_listing_in_order(root, identify, r, i + 3, more);
                }
            },
            Reply::Failed(_) => {
                lemma_listing_in_order(root, identify, r, i + 1, found);
            },
            _ => {
                law_sorted::<String>(found);
            },
        }
    }
}

/// Instances are listed by their names, in the order of the code points.
pub proof fn law_instances_are_listed_in_order(
    root: Seq<char>,
    identify: bool,
    r: Seq<Told>,
    a: int,
    b: int,
)
    ensures
        listed_instances(root, identify, r) matches Step::Answer(l) ==> 0 <= a < b < l.len() ==> {
            ||| l[a].is_prefix_of(l[b])
            ||| exists|k: int|
                #![trigger l[a][k]]
                0 <= k < l[a].len() && k < l[b].len() && l[a][k] < l[b][k] && l[a].take(k)
                    == l[b].take(k)
        },
{
    if r.len() > 0 {
        lemma_listing_in_order(root, identify, r, 1, Seq::empty());
    }
    if let Step::Answer(l) = listed_instances(root, identify, r) {
        if 0 <= a < b < l.len() {
            law_dictionary_order(l[a], l[b]);
        }
    }
}

/// A version is looked for at its address, by its head and, where that is not
/// answered with 200, by its first bytes, which count with 200 and 206.
pub proof fn law_address_is_probed(url: Seq<char>, r: Seq<Told>, x: Told)
    ensures
        probing(url, Seq::empty()) == TaskView::Ask(Effect::Head(url)),
        ({
            let next = probing(url, r.push(x));
            match probing(url, r) {
                Step::Ask(Effect::Head(_)) => next == (if x == Told::Number(200) {
                    TaskView::Answer(Reply::Flag(true))
                } else {
                    TaskView::Ask(Effect::GetRange(url))
                }),
                Step::Ask(Effect::GetRange(u)) => u == url && next == TaskView::Answer(
                    Reply::Flag(x == Told::Number(200) || x == Told::Number(206)),
                ),
                Step::Ask(_) => false,
                Step::Answer(a) => next == TaskView::Answer(a),
            }
        }),
{
    let q = r.push(x);
    assert forall|j: int| 0 <= j < r.len() implies q[j] == r[j] by {}
    assert(q[r.len() as int] == x);
}

/// A version that is written as one is found where its release or its preview can be
/// downloaded, the release being tried first, and nowhere else.
pub proof fn law_version_is_looked_for(version: Seq<char>, r: Seq<Told>, x: Told)
    ensures
        ({
            let release = "https://www.minecraft.net/bedrockdedicatedserver/bin-linux/bedrock-server-"@
                + version + ".zip"@;
            let preview =
                "https://www.minecraft.net/bedrockdedicatedserver/bin-linux-preview/bedrock-server-"@
                + version + ".zip"@;
            let ok = regex_match(VERSION_PATTERN@, version) == Some(true);
            let found = MoveView::Answer(
                Answer::VersionFound { found: true, message: "Version found!"@ },
            );
            let next = checking_version(version, r.push(x));
            &&& checking_version(version, Seq::empty()) == if ok {
                MoveView::Ask(Effect::UrlExists(release))
            } else {
                MoveView::Answer(
                    Answer::VersionFound {
                        found: false,
                        message: "Invalid version format. Use format like: 1.21.0.3"@,
                    },
                )
            }
            &&& match checking_version(version, r) {
                Step::Ask(Effect::UrlExists(u)) => if r.len() == 0 {
                    u == release && next == (if x == Told::Flag(true) {
                        found
                    } else {
                        MoveView::Ask(Effect::UrlExists(preview))
                    })
                } else {
                    u == preview && next == (if x == Told::Flag(true) {
                        found
                    } else {
                        MoveView::Answer(
                            Answer::VersionFound {
                                found: false,
                                message: "Version "@ + version
                                    + " was not found on Minecraft's servers."@,
                            },
                        )
                    })
                },
                Step::Ask(_) => false,
                Step::Answer(a) => next == MoveView::Answer(a),
            }
        }),
{
    let q = r.push(x);
    assert forall|j: int| 0 <= j < r.len() implies q[j] == r[j] by {}
    assert(q[r.len() as int] == x);
}

/// A request to make an instance is refused for a name or a version that is not
/// accepted, the name first; else the installation begins, once.
pub proof fn law_instance_is_created(name: Seq<char>, version: Seq<char>, r: Seq<Told>)
    ensures
        creating(name, version, r) == match name_check(name) {
            Err(e) => MoveView::Answer(Answer::Error(e)),
            Ok(()) => if regex_match(VERSION_PATTERN@, version) != Some(true) {
                MoveView::Answer(
                    Answer::Error("Invalid version format. Use format like: 1.21.0.3"@),
                )
            } else if r.len() == 0 {
                MoveView::Ask(Effect::StartInstall(name, version))
            } else {
                MoveView::Answer(
                    Answer::Downloading(
                        "Creating instance '"@ + name + "' with version "@ + version + "..."@,
                    ),
                )
            },
        },
{
}

/// An instance is ready exactly where its server's program is there.
pub proof fn law_instance_is_ready_with_its_server(instances: Seq<char>, name: Seq<char>, x: Told)
    ensures
        awaiting(instances, name, Seq::empty()) == MoveView::Ask(
            Effect::Exists(instances + "/"@ + name + "/bedrock_server"@),
        ),
        awaiting(instances, name, seq![x]) matches Step::Answer(Answer::Ready { ready, message })
            && ready == (x == Told::Flag(true)) && message == if ready {
            "Instance ready!"@
        } else {
            "Still downloading and extracting..."@
        },
{
}

/// Deleting an instance goes on as each reply asks for: one that is there is taken out
/// of the panel's list and then removed.
pub proof fn law_deleting_instance_goes_on(
    instances: Seq<char>,
    name: Seq<char>,
    r: Seq<Told>,
    x: Told,
)
    ensures
        ({
            let path = instances + "/"@ + name;
            let next = deleting_instance(instances, name, r.push(x));
            &&& deleting_instance(instances, name, Seq::empty()) == match name_check(name) {
                Ok(()) => MoveView::Ask(Effect::Exists(path)),
                Err(e) => MoveView::Answer(Answer::Error(e)),
            }
            &&& match deleting_instance(instances, name, r) {
                Step::Ask(Effect::Exists(p)) => p == path && next == (if x == Told::Flag(true) {
                    MoveView::Ask(Effect::Unregister(name))
                } else {
                    MoveView::Answer(Answer::Error("Instance does not exist"@))
                }),
                Step::Ask(Effect::Unregister(_)) => next == MoveView::Ask(
                    Effect::RemoveDirAll(path),
                ),
                Step::Ask(Effect::RemoveDirAll(_)) => next == MoveView::Answer(
                    match x {
                        Reply::Failed(e) => Answer::Error("Failed to delete instance: "@ + e),
                        _ => Answer::InstanceDeleted("Instance deleted successfully"@),
                    },
                ),
                Step::Ask(_) => false,
                Step::Answer(a) => next == MoveView::Answer(a),
            }
        }),
{
    let q = r.push(x);
    assert forall|j: int| 0 <= j < r.len() implies q[j] == r[j] by {}
    assert(q[r.len() as int] == x);
}

/// Renaming an instance goes on as each reply asks for. Names that are not accepted are
/// refused, and so are an instance that is not there, a new name that is taken, and a
/// server that runs. Then the directory is renamed, its identity seen to, the backups
/// of that identity linked, and the panel's lists follow; the answer tells how many
/// backups were linked, and what went wrong with that.
pub proof fn law_renaming_goes_on(
    instances: Seq<char>,
    name: Seq<char>,
    wanted: Seq<char>,
    r: Seq<Told>,
    x: Told,
)
    ensures
        ({
            let new_name = trimmed(wanted);
            let old_path = joined_path(instances, name);
            let new_path = joined_path(instances, new_name);
            let yes = x == Told::Flag(true);
            let next = renaming(instances, name, wanted, r.push(x));
            &&& renaming(instances, name, wanted, Seq::empty()) == match (
                name_check(name),
                name_check(new_name),
            ) {
                (Err(e), _) => MoveView::Answer(Answer::Error(e)),
                (_, Err(e)) => MoveView::Answer(Answer::Error(e)),
                _ => if new_name == name {
                    MoveView::Answer(
                        Answer::NameUnchanged { message: "Instance name is unchanged"@, new_name },
                    )
                } else {
                    MoveView::Ask(Effect::IsDir(old_path))
                },
            }
            &&& match renaming(instances, name, wanted, r) {
                Step::Ask(Effect::IsDir(p)) => p == old_path && next == (if yes {
                    MoveView::Ask(Effect::Exists(new_path))
                } else {
                    MoveView::Answer(Answer::Error("Instance does not exist"@))
                }),
                Step::Ask(Effect::Exists(p)) => p == new_path && next == (if yes {
                    MoveView::Answer(
                        Answer::Error("An instance with the new name already exists"@),
                    )
                } else {
                    MoveView::Ask(Effect::IsRunning(name))
                }),
                Step::Ask(Effect::IsRunning(n)) => n == name && next == (if yes {
                    MoveView::Answer(
                        Answer::Error("Stop the server before renaming this instance"@),
                    )
                } else {
                    MoveView::Ask(Effect::Rename(old_path, new_path))
                }),
                Step::Ask(Effect::Rename(_, _)) => next == match x {
                    Reply::Failed(e) => MoveView::Answer(
                        Answer::Error("Failed to rename instance: "@ + e),
                    ),
                    _ => MoveView::Ask(Effect::EnsureIdentity(new_path)),
                },
                Step::Ask(Effect::EnsureIdentity(p)) => p == new_path && next == match x {
                    Reply::Text(id) => MoveView::Ask(
                        Effect::Relink(
                            Relinking {
                                old_name: name,
                                new_name,
                                identity: id,
                                digest: proof_of(id),
                            },
                        ),
                    ),
                    _ => MoveView::Ask(Effect::RenameRegistered(name, new_name)),
                },
                Step::Ask(Effect::Relink(_)) => next == MoveView::Ask(
                    Effect::RenameRegistered(name, new_name),
                ),
                Step::Ask(Effect::RenameRegistered(_, _)) => {
                    &&& r.len() > 0
                    &&& next matches Step::Answer(
                        Answer::Renamed {
                            message,
                            old_name,
                            new_name: told_name,
                            relinked_backups,
                            warning,
                        },
                    ) && {
                        &&& message == "Instance renamed from '"@ + name + "' to '"@ + new_name
                            + "'"@
                        &&& old_name == name
                        &&& told_name == new_name
                        &&& relinked_backups == match r.last() {
                            Reply::Number(n) if r.len() == 6 => n,
                            _ => 0,
                        }
                        &&& warning == match r.last() {
                            Reply::Failed(e) => Some(
                                if r.len() == 6 {
                                    e
                                } else {
                                    "Rename succeeded but backup relink was skipped: "@ + e
                                },
                            ),
                            _ => if r.len() == 6 {
                                None
                            } else {
                                Some("Rename succeeded but backup relink was skipped: "@)
                            },
                        }
                    }
                },
                Step::Ask(_) => false,
                Step::Answer(a) => next == MoveView::Answer(a),
            }
        }),
{
    let q = r.push(x);
    assert forall|j: int| 0 <= j < r.len() implies q[j] == r[j] by {}
    assert(q[r.len() as int] == x);
    assert("Rename succeeded but backup relink was skipped: "@ + Seq::<char>::empty()
        =~= "Rename succeeded but backup relink was skipped: "@);
}

/// The share of a download is that of the bytes that have come, of ninety, rounded down,
/// and never more than ninety.
pub proof fn law_share_of_a_download(received: nat, total: nat)
    requires
        total > 0,
    ensures
        ({
            let share = download_share(received, total);
            &&& received >= total ==> share == 90
            &&& received < total ==> share * total <= received * 90 < (share + 1) * total
        }),
{
    let q = received * 90 / total;
    assert(q * total <= received * 90 < (q + 1) * total) by (nonlinear_arith)
        requires
            total > 0,
            q == received * 90 / total,
    ;
    assert(received >= total ==> q >= 90) by (nonlinear_arith)
        requires
            total > 0,
            q == received * 90 / total,
    ;
    assert(received < total ==> q < 90) by (nonlinear_arith)
        requires
            total > 0,
            q * total <= received * 90,
    ;
}

} // verus!
