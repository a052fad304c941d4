//! The backups: what is known of them, how they are found, and how they keep to
//! the instance that they were made of when that is renamed.
//!
//! Below the backups' directory stands a folder for each instance, in it one for
//! each backup, and in that the copied files under `files` and the metadata in
//! `meta.json`.
use vstd::prelude::*;
use vstd::string::*;

use crate::effects::{
    changes, fail, failed, fault, fault_told, said_yes, text_told, why_failed, BackupMetadata,
    Effect, Heard, Relinking, Reply, Step, Task, TaskView, Told,
};
use crate::identity::{
    backup_source_identity, find_in_index, index_told, indexed, proof_of, sha256_hex, source_identity,
};
use crate::order::{in_order, law_sorted, sort_stable, sorted, views, Ranked};
use crate::paths::{join_path, joined_path};
use crate::properties::pairs;
use crate::text::{cat2, cat4, opt_is, opt_text, same_text};

verus! {

/// Where a backup's metadata stands.
pub open spec fn meta_place(backup: Seq<char>) -> Seq<char> {
    joined_path(backup, "meta.json"@)
}

/// Where a backup's files stand.
pub open spec fn files_place(backup: Seq<char>) -> Seq<char> {
    joined_path(backup, "files"@)
}

/// Whether the metadata names the instance: by its identity, by its proof, or,
/// where it has no proof, by its old name.
pub open spec fn names_instance(m: BackupMetadata<Seq<char>>, q: Relinking<Seq<char>>) -> bool {
    ||| m.source_instance_id == Some(q.identity)
    ||| m.source_instance_proof_sha256 == Some(q.digest)
    ||| m.source_instance == q.old_name && m.source_instance_proof_sha256 is None
}

/// Whether the metadata has the instance's old name and the proof of another
/// identity: it is the instance's if no instance holds that proof.
pub open spec fn may_be_orphan(m: BackupMetadata<Seq<char>>, q: Relinking<Seq<char>>) -> bool {
    &&& m.source_instance == q.old_name
    &&& m.source_instance_id != Some(q.identity)
    &&& m.source_instance_proof_sha256 is Some
    &&& m.source_instance_proof_sha256 != Some(q.digest)
}

/// The metadata, linked to the instance under its new name.
pub open spec fn relinked(m: BackupMetadata<Seq<char>>, q: Relinking<Seq<char>>) -> BackupMetadata<
    Seq<char>,
> {
    BackupMetadata {
        source_instance: q.new_name,
        source_instance_proof_sha256: Some(q.digest),
        source_instance_id: Some(q.identity),
        ..m
    }
}

/// What is to be written for the metadata, if anything: the links to the instance,
/// where the backup is the instance's and they are not there yet.
pub open spec fn relink_update(
    m: BackupMetadata<Seq<char>>,
    q: Relinking<Seq<char>>,
    orphan: bool,
) -> Option<BackupMetadata<Seq<char>>> {
    if (names_instance(m, q) || orphan) && relinked(m, q) != m {
        Some(relinked(m, q))
    } else {
        None
    }
}

/// Metadata by its texts.
pub open spec fn opt_metadata(m: Option<BackupMetadata<String>>) -> Option<BackupMetadata<Seq<char>>> {
    match m {
        Some(m) => Some(m@),
        None => None,
    }
}

/// Whether the backup may be the instance's although its proof is another.
pub fn could_be_orphan(m: &BackupMetadata<String>, q: &Relinking<String>) -> (r: bool)
    ensures
        r == may_be_orphan(m@, q@),
{
    same_text(m.source_instance.as_str(), q.old_name.as_str()) && !opt_is(
        &m.source_instance_id,
        q.identity.as_str(),
    ) && m.source_instance_proof_sha256.is_some() && !opt_is(
        &m.source_instance_proof_sha256,
        q.digest.as_str(),
    )
}

/// What is to be written for the metadata, if anything.
pub fn relink_metadata(m: &BackupMetadata<String>, q: &Relinking<String>, orphan: bool) -> (r: Option<
    BackupMetadata<String>,
>)
    ensures
        opt_metadata(r) == relink_update(m@, q@, orphan),
{
    let id_match = opt_is(&m.source_instance_id, q.identity.as_str());
    let proof_match = opt_is(&m.source_instance_proof_sha256, q.digest.as_str());
    let legacy_name_match = same_text(m.source_instance.as_str(), q.old_name.as_str())
        && m.source_instance_proof_sha256.is_none();
    if !id_match && !proof_match && !legacy_name_match && !orphan {
        return None;
    }
    if id_match && proof_match && same_text(m.source_instance.as_str(), q.new_name.as_str()) {
        return None;
    }
    Some(
        BackupMetadata {
            id: m.id.clone(),
            source_instance: q.new_name.clone(),
            created_at_unix: m.created_at_unix,
            size_bytes: m.size_bytes,
            file_count: m.file_count,
            source_instance_proof_sha256: Some(q.digest.clone()),
            source_instance_id: Some(q.identity.clone()),
        },
    )
}

/// Linking a backup a second time changes nothing.
pub proof fn law_relinked_twice(m: BackupMetadata<Seq<char>>, q: Relinking<Seq<char>>, orphan: bool)
    ensures
        relink_update(relinked(m, q), q, orphan) is None,
{
}

/// A backup that carries the proof of another identity is left alone, unless it
/// was found to be an orphan.
pub proof fn law_foreign_backup_is_left_alone(m: BackupMetadata<Seq<char>>, q: Relinking<Seq<char>>)
    requires
        m.source_instance_id != Some(q.identity),
        m.source_instance_proof_sha256 is Some,
        m.source_instance_proof_sha256 != Some(q.digest),
    ensures
        relink_update(m, q, false) is None,
{
}

/// The metadata with what can be found out of its source: the identity from the
/// backup's files, the proof from the identity, and the name that the instance
/// with that proof has now.
pub open spec fn healed(
    m: BackupMetadata<Seq<char>>,
    in_files: Option<Seq<char>>,
    index: Seq<(Seq<char>, Seq<char>)>,
) -> BackupMetadata<Seq<char>> {
    let identity = source_identity(m, in_files);
    let digest = match m.source_instance_proof_sha256 {
        Some(d) => Some(d),
        None => match identity {
            Some(id) => Some(proof_of(id)),
            None => None,
        },
    };
    let name = match digest {
        Some(d) => match indexed(index, d) {
            Some(now) => now,
            None => m.source_instance,
        },
        None => m.source_instance,
    };
    BackupMetadata {
        source_instance: name,
        source_instance_proof_sha256: digest,
        source_instance_id: identity,
        ..m
    }
}

/// The metadata with what can be found out of its source, and whether that is
/// anything new.
pub fn heal_metadata(
    m: &BackupMetadata<String>,
    in_files: Option<String>,
    index: &Vec<(String, String)>,
) -> (r: (BackupMetadata<String>, bool))
    ensures
        r.0@ == healed(m@, opt_text(in_files), pairs(index@)),
        r.1 == (r.0@ != m@),
{
    let identity = backup_source_identity(m, in_files);
    let mut changed = m.source_instance_id.is_none() && identity.is_some();
    let digest: Option<String> = match &m.source_instance_proof_sha256 {
        Some(d) => Some(d.clone()),
        None => match &identity {
            Some(id) => {
                changed = true;
                Some(sha256_hex(id.as_str()))
            },
            None => None,
        },
    };
    let mut name = m.source_instance.clone();
    if let Some(d) = &digest {
        if let Some(now) = find_in_index(index, d.as_str()) {
            if !same_text(now.as_str(), m.source_instance.as_str()) {
                name = now;
                changed = true;
            }
        }
    }
    let next = BackupMetadata {
        id: m.id.clone(),
        source_instance: name,
        created_at_unix: m.created_at_unix,
        size_bytes: m.size_bytes,
        file_count: m.file_count,
        source_instance_proof_sha256: digest,
        source_instance_id: identity,
    };
    (next, changed)
}

/// Metadata that was completed once is complete: doing it again changes nothing.
pub proof fn law_healed_twice(
    m: BackupMetadata<Seq<char>>,
    in_files: Option<Seq<char>>,
    index: Seq<(Seq<char>, Seq<char>)>,
)
    ensures
        healed(healed(m, in_files, index), in_files, index) == healed(m, in_files, index),
{
}

/// The backup that carries the proof of an instance in the index goes by that
/// instance's name.
pub proof fn law_healed_follows_the_proof(
    m: BackupMetadata<Seq<char>>,
    in_files: Option<Seq<char>>,
    index: Seq<(Seq<char>, Seq<char>)>,
    digest: Seq<char>,
)
    requires
        m.source_instance_proof_sha256 == Some(digest),
        indexed(index, digest) is Some,
    ensures
        healed(m, in_files, index).source_instance == indexed(index, digest)->0,
{
}

/// How far a walk through the backups is: one more effect, a failure, the end, or
/// the next backup, with the number of replies used up to then.
pub enum Walked<T, B, N> {
    Ask(Effect<T, B>),
    Failed(T),
    End,
    Backup { folder: T, path: T, metadata: BackupMetadata<T>, next: N },
}

impl View for Walked<String, Vec<u8>, usize> {
    type V = Walked<Seq<char>, Seq<u8>, int>;

    open spec fn view(&self) -> Walked<Seq<char>, Seq<u8>, int> {
        match self {
            Walked::Ask(e) => Walked::Ask(e@),
            Walked::Failed(e) => Walked::Failed(e@),
            Walked::End => Walked::End,
            Walked::Backup { folder, path, metadata, next } => Walked::Backup {
                folder: folder@,
                path: path@,
                metadata: metadata@,
                next: *next as int,
            },
        }
    }
}

/// The walk from reply `i` on, in a folder of the backups' directory or above
/// them. What is no directory is passed over, and in a folder what has no metadata
/// that can be read.
pub open spec fn walked(root: Seq<char>, folder: Option<Seq<char>>, r: Seq<Told>, i: int) -> Walked<
    Seq<char>,
    Seq<u8>,
    int,
>
    decreases r.len() - i,
{
    match folder {
        None => if i < 0 || i >= r.len() {
            Walked::Ask(Effect::NextEntry(root))
        } else {
            match r[i] {
                Reply::Failed(e) => Walked::Failed("Failed to read backups entry: "@ + e),
                Reply::Entry(path, _) => if i + 1 >= r.len() {
                    Walked::Ask(Effect::IsDir(path))
                } else if !r[i + 1].yes() {
                    walked(root, None, r, i + 2)
                } else if i + 2 >= r.len() {
                    Walked::Ask(Effect::OpenDir(path))
                } else {
                    match r[i + 2].failure() {
                        Some(e) => Walked::Failed("Failed to read instance backup folder: "@ + e),
                        None => walked(root, Some(path), r, i + 3),
                    }
                },
                _ => Walked::End,
            }
        },
        Some(inside) => if i < 0 || i >= r.len() {
            Walked::Ask(Effect::NextEntry(inside))
        } else {
            match r[i] {
                Reply::Failed(e) => Walked::Failed("Failed to read backup entry: "@ + e),
                Reply::Entry(path, _) => if i + 1 >= r.len() {
                    Walked::Ask(Effect::IsDir(path))
                } else if !r[i + 1].yes() {
                    walked(root, folder, r, i + 2)
                } else if i + 2 >= r.len() {
                    Walked::Ask(Effect::IsFile(meta_place(path)))
                } else if !r[i + 2].yes() {
                    walked(root, folder, r, i + 3)
                } else if i + 3 >= r.len() {
                    Walked::Ask(Effect::ReadText(meta_place(path)))
                } else {
                    match r[i + 3].text() {
                        None => walked(root, folder, r, i + 4),
                        Some(text) => if i + 4 >= r.len() {
                            Walked::Ask(Effect::ParseMetadata(text))
                        } else {
                            match r[i + 4] {
                                Reply::Metadata(metadata) => Walked::Backup {
                                    folder: inside,
                                    path,
                                    metadata,
                                    next: i + 5,
                                },
                                _ => walked(root, folder, r, i + 5),
                            }
                        },
                    }
                },
                _ => walked(root, None, r, i + 1),
            }
        },
    }
}

/// A walk that comes to a backup has used at least one reply, and none that is
/// not there.
pub proof fn lemma_walk_moves(root: Seq<char>, folder: Option<Seq<char>>, r: Seq<Told>, i: int)
    ensures
        walked(root, folder, r, i) matches Walked::Backup { next, .. } ==> i < next <= r.len(),
    decreases r.len() - i,
{
    if 0 <= i && i < r.len() {
        if let Reply::Entry(path, _) = r[i] {
            if i + 1 < r.len() {
                lemma_walk_moves(root, folder, r, i + 2);
                if i + 2 < r.len() {
                    lemma_walk_moves(root, folder, r, i + 3);
                    lemma_walk_moves(root, Some(path), r, i + 3);
                    if i + 3 < r.len() {
                        lemma_walk_moves(root, folder, r, i + 4);
                        if i + 4 < r.len() {
                            lemma_walk_moves(root, folder, r, i + 5);
                        }
                    }
                }
            }
        } else if folder is Some {
            lemma_walk_moves(root, None, r, i + 1);
        }
    }
}

/// Walks on to the next backup.
fn walk(root: &str, folder: Option<String>, replies: &Vec<Heard>, from: usize) -> (w: Walked<
    String,
    Vec<u8>,
    usize,
>)
    requires
        from <= replies@.len(),
    ensures
        w@ == walked(root@, opt_text(folder), views(replies@), from as int),
{
    let ghost r = views(replies@);
    let ghost goal = walked(root@, opt_text(folder), r, from as int);
    let n: usize = replies.len();
    let mut inside: Option<String> = folder;
    let mut i: usize = from;
    while i < n
        invariant
            n == replies@.len(),
            i <= n,
            r == views(replies@),
            goal == walked(root@, opt_text(inside), r, i as int),
            goal == walked(root@, opt_text(folder), r, from as int),
        decreases n - i,
    {
        assert(r[i as int] == replies@[i as int]@);
        match &replies[i] {
            Reply::Failed(e) => {
                return Walked::Failed(
                    if inside.is_none() {
                        cat2("Failed to read backups entry: ", e.as_str())
                    } else {
                        cat2("Failed to read backup entry: ", e.as_str())
                    },
                );
            },
            Reply::Entry(path, _) => {
                if i + 1 >= n {
                    return Walked::Ask(Effect::IsDir(path.clone()));
                }
                if !said_yes(replies, i + 1) {
                    i = i + 2;
                    continue;
                }
                if inside.is_none() {
                    if i + 2 >= n {
                        return Walked::Ask(Effect::OpenDir(path.clone()));
                    }
                    if let Some(e) = why_failed(replies, i + 2) {
                        return Walked::Failed(
                            cat2("Failed to read instance backup folder: ", e.as_str()),
                        );
                    }
                    inside = Some(path.clone());
                    i = i + 3;
                    continue;
                }
                let meta = join_path(path.as_str(), "meta.json");
                if i + 2 >= n {
                    return Walked::Ask(Effect::IsFile(meta));
                }
                if !said_yes(replies, i + 2) {
                    i = i + 3;
                    continue;
                }
                if i + 3 >= n {
                    return Walked::Ask(Effect::ReadText(meta));
                }
                let text = match text_told(replies, i + 3) {
                    Some(text) => text,
                    None => {
                        i = i + 4;
                        continue;
                    },
                };
                if i + 4 >= n {
                    return Walked::Ask(Effect::ParseMetadata(text));
                }
                assert(r[i + 4] == replies@[i + 4]@);
                match &replies[i + 4] {
                    Reply::Metadata(metadata) => {
                        if let Some(folder) = inside {
                            return Walked::Backup {
                                folder,
                                path: path.clone(),
                                metadata: metadata.copy(),
                                next: i + 5,
                            };
                        }
                        return Walked::End;
                    },
                    _ => {
                        i = i + 5;
                    },
                }
            },
            _ => {
                if inside.is_none() {
                    return Walked::End;
                }
                inside = None;
                i = i + 1;
            },
        }
    }
    match inside {
        None => Walked::Ask(Effect::NextEntry(root.to_owned())),
        Some(folder) => Walked::Ask(Effect::NextEntry(folder)),
    }
}

/// Linking the backups from reply `i` on, after `count` of them were linked. A
/// backup that may be an orphan is one if no instance holds its proof.
pub open spec fn relink_walk(
    root: Seq<char>,
    q: Relinking<Seq<char>>,
    r: Seq<Told>,
    i: int,
    folder: Option<Seq<char>>,
    count: nat,
) -> TaskView
    decreases r.len() - i,
{
    proof {
        lemma_walk_moves(root, folder, r, i);
    }
    match walked(root, folder, r, i) {
        Walked::Ask(e) => Step::Ask(e),
        Walked::Failed(e) => failed(e),
        Walked::End => Step::Answer(Reply::Number(count as u64)),
        Walked::Backup { folder: inside, path, metadata, next } => {
            let asks = may_be_orphan(metadata, q);
            if asks && next >= r.len() {
                Step::Ask(Effect::FindByProof(metadata.source_instance_proof_sha256->0))
            } else {
                let orphan = asks && r[next] is Nothing;
                let at = if asks {
                    next + 1
                } else {
                    next
                };
                match relink_update(metadata, q, orphan) {
                    None => relink_walk(root, q, r, at, Some(inside), count),
                    Some(m) => if at >= r.len() {
                        Step::Ask(Effect::EncodeMetadata(m))
                    } else {
                        match r[at].text() {
                            None => failed(
                                "Failed to encode backup metadata "@ + meta_place(path) + ": "@
                                    + fault(r[at]),
                            ),
                            Some(text) => if at + 1 >= r.len() {
                                Step::Ask(Effect::WriteText(meta_place(path), text))
                            } else {
                                match r[at + 1].failure() {
                                    Some(e) => failed(
                                        "Failed to write backup metadata "@ + meta_place(path)
                                            + ": "@ + e,
                                    ),
                                    None => relink_walk(
                                        root,
                                        q,
                                        r,
                                        at + 2,
                                        Some(inside),
                                        count + 1,
                                    ),
                                }
                            },
                        }
                    },
                }
            }
        },
    }
}

/// Linking an instance's backups to its new name. The answer is how many were
/// linked.
pub open spec fn relinking(root: Seq<char>, q: Relinking<Seq<char>>, r: Seq<Told>) -> TaskView {
    if r.len() == 0 {
        Step::Ask(Effect::IsDir(root))
    } else if !r[0].yes() {
        Step::Answer(Reply::Number(0))
    } else if r.len() == 1 {
        Step::Ask(Effect::OpenDir(root))
    } else {
        match r[1].failure() {
            Some(e) => failed("Failed to read backups root: "@ + e),
            None => relink_walk(root, q, r, 2, None, 0),
        }
    }
}

/// Links the instance's backups to its new name.
pub fn relink_backup_metadata_source_names(
    backups_root: &str,
    q: &Relinking<String>,
    replies: &Vec<Heard>,
) -> (s: Task)
    ensures
        s@ == relinking(backups_root@, q@, views(replies@)),
{
    let ghost r = views(replies@);
    let n: usize = replies.len();
    if n == 0 {
        return Step::Ask(Effect::IsDir(backups_root.to_owned()));
    }
    if !said_yes(replies, 0) {
        return Step::Answer(Reply::Number(0));
    }
    if n == 1 {
        return Step::Ask(Effect::OpenDir(backups_root.to_owned()));
    }
    if let Some(e) = why_failed(replies, 1) {
        return fail(cat2("Failed to read backups root: ", e.as_str()).as_str());
    }
    let mut i: usize = 2;
    let mut folder: Option<String> = None;
    let mut count: u64 = 0;
    let ghost goal = relink_walk(backups_root@, q@, r, 2, None, 0);
    loop
        invariant
            n == replies@.len(),
            i <= n,
            count <= i,
            r == views(replies@),
            goal == relinking(backups_root@, q@, r),
            goal == relink_walk(backups_root@, q@, r, i as int, opt_text(folder), count as nat),
        decreases n - i,
    {
        proof {
            lemma_walk_moves(backups_root@, opt_text(folder), r, i as int);
        }
        match walk(backups_root, folder, replies, i) {
            Walked::Ask(e) => {
                return Step::Ask(e);
            },
            Walked::Failed(e) => {
                return fail(e.as_str());
            },
            Walked::End => {
                return Step::Answer(Reply::Number(count));
            },
            Walked::Backup { folder: inside, path, metadata, next } => {
                let asks = could_be_orphan(&metadata, q);
                let mut at: usize = next;
                let mut orphan = false;
                if asks {
                    if next >= n {
                        if let Some(digest) = metadata.source_instance_proof_sha256 {
                            return Step::Ask(Effect::FindByProof(digest));
                        }
                    } else {
                        assert(r[next as int] == replies@[next as int]@);
                        orphan = matches!(&replies[next], Reply::Nothing);
                        at = next + 1;
                    }
                }
                if let Some(m) = relink_metadata(&metadata, q, orphan) {
                    let meta = join_path(path.as_str(), "meta.json");
                    if at >= n {
                        return Step::Ask(Effect::EncodeMetadata(m));
                    }
                    let text = match text_told(replies, at) {
                        Some(text) => text,
                        None => {
                            return fail(
                                cat4(
                                    "Failed to encode backup metadata ",
                                    meta.as_str(),
                                    ": ",
                                    fault_told(replies, at).as_str(),
                                ).as_str(),
                            );
                        },
                    };
                    if at + 1 >= n {
                        return Step::Ask(Effect::WriteText(meta, text));
                    }
                    if let Some(e) = why_failed(replies, at + 1) {
                        return fail(
                            cat4(
                                "Failed to write backup metadata ",
                                meta.as_str(),
                                ": ",
                                e.as_str(),
                            ).as_str(),
                        );
                    }
                    at = at + 2;
                    count = count + 1;
                }
                folder = Some(inside);
                i = at;
            },
        }
    }
}

impl Ranked for BackupMetadata<String> {
    /// The newest come first.
    open spec fn at_most(a: BackupMetadata<Seq<char>>, b: BackupMetadata<Seq<char>>) -> bool {
        a.created_at_unix >= b.created_at_unix
    }

    fn is_at_most(&self, other: &Self) -> (b: bool) {
        self.created_at_unix >= other.created_at_unix
    }

    proof fn order_is_total(a: BackupMetadata<Seq<char>>, b: BackupMetadata<Seq<char>>) {
    }

    proof fn order_is_transitive(
        a: BackupMetadata<Seq<char>>,
        b: BackupMetadata<Seq<char>>,
        c: BackupMetadata<Seq<char>>,
    ) {
    }
}

/// All the backups, or why they cannot be told.
#[derive(Debug, PartialEq, Eq)]
pub enum Collected<L, T> {
    Failed(T),
    Backups(L),
}

impl View for Collected<Vec<BackupMetadata<String>>, String> {
    type V = Collected<Seq<BackupMetadata<Seq<char>>>, Seq<char>>;

    open spec fn view(&self) -> Collected<Seq<BackupMetadata<Seq<char>>>, Seq<char>> {
        match self {
            Collected::Failed(e) => Collected::Failed(e@),
            Collected::Backups(l) => Collected::Backups(views(l@)),
        }
    }
}

/// A step in collecting the backups, as contracts speak of it.
pub type CollectView = Step<Seq<char>, Seq<u8>, Collected<Seq<BackupMetadata<Seq<char>>>, Seq<char>>>;

/// Collecting the backups from reply `i` on, after those in the list. Metadata is
/// completed on the way, and written back where that brings anything new; whether
/// it can be written does not matter.
pub open spec fn collect_walk(
    root: Seq<char>,
    index: Seq<(Seq<char>, Seq<char>)>,
    r: Seq<Told>,
    i: int,
    folder: Option<Seq<char>>,
    list: Seq<BackupMetadata<Seq<char>>>,
) -> CollectView
    decreases r.len() - i,
{
    proof {
        lemma_walk_moves(root, folder, r, i);
    }
    match walked(root, folder, r, i) {
        Walked::Ask(e) => Step::Ask(e),
        Walked::Failed(e) => Step::Answer(Collected::Failed(e)),
        Walked::End => Step::Answer(Collected::Backups(sorted::<BackupMetadata<String>>(list))),
        Walked::Backup { folder: inside, path, metadata, next } => {
            let asks = metadata.source_instance_id is None;
            if asks && next >= r.len() {
                Step::Ask(Effect::ReadIdentity(files_place(path)))
            } else {
                let in_files = if asks {
                    r[next].text()
                } else {
                    None
                };
                let at = if asks {
                    next + 1
                } else {
                    next
                };
                let m = healed(metadata, in_files, index);
                if m == metadata {
                    collect_walk(root, index, r, at, Some(inside), list.push(m))
                } else if at >= r.len() {
                    Step::Ask(Effect::EncodeMetadata(m))
                } else {
                    match r[at].text() {
                        None => collect_walk(root, index, r, at + 1, Some(inside), list.push(m)),
                        Some(text) => if at + 1 >= r.len() {
                            Step::Ask(Effect::WriteText(meta_place(path), text))
                        } else {
                            collect_walk(root, index, r, at + 2, Some(inside), list.push(m))
                        },
                    }
                }
            }
        },
    }
}

/// Collecting the backups, the newest first. Where there is a directory of backups,
/// the instances are indexed by their proofs; without an index the backups keep the
/// names that they have.
pub open spec fn collecting(root: Seq<char>, r: Seq<Told>) -> CollectView {
    if r.len() == 0 {
        Step::Ask(Effect::IsDir(root))
    } else if !r[0].yes() {
        Step::Answer(Collected::Backups(Seq::empty()))
    } else if r.len() == 1 {
        Step::Ask(Effect::IndexProofs)
    } else if r.len() == 2 {
        Step::Ask(Effect::OpenDir(root))
    } else {
        match r[2].failure() {
            Some(e) => Step::Answer(Collected::Failed("Failed to read backups root: "@ + e)),
            None => collect_walk(root, index_told(r[1]), r, 3, None, Seq::empty()),
        }
    }
}

/// Collects the backups, the newest first.
pub fn collect_backups(backups_root: &str, replies: &Vec<Heard>) -> (s: Step<
    String,
    Vec<u8>,
    Collected<Vec<BackupMetadata<String>>, String>,
>)
    ensures
        s@ == collecting(backups_root@, views(replies@)),
{
    let ghost r = views(replies@);
    let n: usize = replies.len();
    let mut list: Vec<BackupMetadata<String>> = Vec::new();
    assert(views(list@) =~= Seq::empty());
    if n == 0 {
        return Step::Ask(Effect::IsDir(backups_root.to_owned()));
    }
    if !said_yes(replies, 0) {
        return Step::Answer(Collected::Backups(list));
    }
    if n == 1 {
        return Step::Ask(Effect::IndexProofs);
    }
    if n == 2 {
        return Step::Ask(Effect::OpenDir(backups_root.to_owned()));
    }
    if let Some(e) = why_failed(replies, 2) {
        return Step::Answer(Collected::Failed(cat2("Failed to read backups root: ", e.as_str())));
    }
    let none: Vec<(String, String)> = Vec::new();
    assert(pairs(none@) =~= Seq::empty());
    assert(r[1] == replies@[1]@);
    let proof_index: &Vec<(String, String)> = match &replies[1] {
        Reply::Index(found) => found,
        _ => &none,
    };
    let ghost index = index_told(r[1]);
    let mut i: usize = 3;
    let mut folder: Option<String> = None;
    let ghost goal = collect_walk(backups_root@, index, r, 3, None, Seq::empty());
    loop
        invariant
            n == replies@.len(),
            i <= n,
            r == views(replies@),
            index == pairs(proof_index@),
            goal == collecting(backups_root@, r),
            goal == collect_walk(
                backups_root@,
                index,
                r,
                i as int,
                opt_text(folder),
                views(list@),
            ),
        decreases n - i,
    {
        proof {
            lemma_walk_moves(backups_root@, opt_text(folder), r, i as int);
        }
        match walk(backups_root, folder, replies, i) {
            Walked::Ask(e) => {
                return Step::Ask(e);
            },
            Walked::Failed(e) => {
                return Step::Answer(Collected::Failed(e));
            },
            Walked::End => {
                return Step::Answer(Collected::Backups(sort_stable(list)));
            },
            Walked::Backup { folder: inside, path, metadata, next } => {
                let asks = metadata.source_instance_id.is_none();
                let mut at: usize = next;
                let mut in_files: Option<String> = None;
                if asks {
                    if next >= n {
                        return Step::Ask(Effect::ReadIdentity(join_path(path.as_str(), "files")));
                    }
                    in_files = text_told(replies, next);
                    at = next + 1;
                }
                let (m, changed) = heal_metadata(&metadata, in_files, proof_index);
                if changed {
                    if at >= n {
                        return Step::Ask(Effect::EncodeMetadata(m));
                    }
                    match text_told(replies, at) {
                        Some(text) => {
                            if at + 1 >= n {
                                return Step::Ask(
                                    Effect::WriteText(join_path(path.as_str(), "meta.json"), text),
                                );
                            }
                            at = at + 2;
                        },
                        None => {
                            at = at + 1;
                        },
                    }
                }
                let ghost before = list@;
                list.push(m);
                assert(views(list@) =~= views(before).push(m@));
                folder = Some(inside);
                i = at;
            },
        }
    }
}

/// The search for a backup from reply `i` on. The replies go through the folders:
/// an entry, whether it is a directory, and whether it holds the backup.
pub open spec fn locate_walk(root: Seq<char>, id: Seq<char>, r: Seq<Told>, i: int) -> TaskView
    decreases r.len() - i,
{
    if i < 0 || i >= r.len() {
        Step::Ask(Effect::NextEntry(root))
    } else {
        match r[i] {
            Reply::Failed(e) => failed("Failed to read backups entry: "@ + e),
            Reply::Entry(folder, _) => {
                let path = joined_path(folder, id);
                if i + 1 >= r.len() {
                    Step::Ask(Effect::IsDir(folder))
                } else if !r[i + 1].yes() {
                    locate_walk(root, id, r, i + 2)
                } else if i + 2 >= r.len() {
                    Step::Ask(Effect::IsDir(path))
                } else if !r[i + 2].yes() {
                    locate_walk(root, id, r, i + 3)
                } else if i + 3 >= r.len() {
                    Step::Ask(Effect::IsFile(meta_place(path)))
                } else if !r[i + 3].yes() {
                    failed("Backup metadata is missing"@)
                } else if i + 4 >= r.len() {
                    Step::Ask(Effect::ReadText(meta_place(path)))
                } else {
                    match r[i + 4].text() {
                        None => failed(
                            "Failed to read backup metadata "@ + meta_place(path) + ": "@ + fault(
                                r[i + 4],
                            ),
                        ),
                        Some(text) => if i + 5 >= r.len() {
                            Step::Ask(Effect::ParseMetadata(text))
                        } else {
                            match r[i + 5] {
                                Reply::Metadata(m) => Step::Answer(Reply::Backup(folder, path, m)),
                                _ => failed(
                                    "Invalid backup metadata "@ + meta_place(path) + ": "@ + fault(
                                        r[i + 5],
                                    ),
                                ),
                            }
                        },
                    }
                }
            },
            _ => failed("Backup not found"@),
        }
    }
}

/// The search for the backup with an id. The answer is the first one found.
pub open spec fn locating(root: Seq<char>, id: Seq<char>, r: Seq<Told>) -> TaskView {
    if r.len() == 0 {
        Step::Ask(Effect::IsDir(root))
    } else if !r[0].yes() {
        failed("No backups found"@)
    } else if r.len() == 1 {
        Step::Ask(Effect::OpenDir(root))
    } else {
        match r[1].failure() {
            Some(e) => failed("Failed to read backups root: "@ + e),
            None => locate_walk(root, id, r, 2),
        }
    }
}

/// Finds the backup with the id.
pub fn find_backup_by_id(backups_root: &str, id: &str, replies: &Vec<Heard>) -> (s: Task)
    ensures
        s@ == locating(backups_root@, id@, views(replies@)),
{
    let ghost r = views(replies@);
    let n: usize = replies.len();
    if n == 0 {
        return Step::Ask(Effect::IsDir(backups_root.to_owned()));
    }
    if !said_yes(replies, 0) {
        return fail("No backups found");
    }
    if n == 1 {
        return Step::Ask(Effect::OpenDir(backups_root.to_owned()));
    }
    if let Some(e) = why_failed(replies, 1) {
        return fail(cat2("Failed to read backups root: ", e.as_str()).as_str());
    }
    let mut i: usize = 2;
    let ghost goal = locate_walk(backups_root@, id@, r, 2);
    while i < n
        invariant
            n == replies@.len(),
            i <= n,
            r == views(replies@),
            goal == locating(backups_root@, id@, r),
            goal == locate_walk(backups_root@, id@, r, i as int),
        decreases n - i,
    {
        assert(r[i as int] == replies@[i as int]@);
        let folder: &String = match &replies[i] {
            Reply::Failed(e) => {
                return fail(cat2("Failed to read backups entry: ", e.as_str()).as_str());
            },
            Reply::Entry(folder, _) => folder,
            _ => {
                return fail("Backup not found");
            },
        };
        let path = join_path(folder.as_str(), id);
        if i + 1 >= n {
            return Step::Ask(Effect::IsDir(folder.clone()));
        }
        if !said_yes(replies, i + 1) {
            i = i + 2;
            continue;
        }
        if i + 2 >= n {
            return Step::Ask(Effect::IsDir(path));
        }
        if !said_yes(replies, i + 2) {
            i = i + 3;
            continue;
        }
        let meta = join_path(path.as_str(), "meta.json");
        if i + 3 >= n {
            return Step::Ask(Effect::IsFile(meta));
        }
        if !said_yes(replies, i + 3) {
            return fail("Backup metadata is missing");
        }
        if i + 4 >= n {
            return Step::Ask(Effect::ReadText(meta));
        }
        let text = match text_told(replies, i + 4) {
            Some(text) => text,
            None => {
                return fail(
                    cat4(
                        "Failed to read backup metadata ",
                        meta.as_str(),
                        ": ",
                        fault_told(replies, i + 4).as_str(),
                    ).as_str(),
                );
            },
        };
        if i + 5 >= n {
            return Step::Ask(Effect::ParseMetadata(text));
        }
        assert(r[i + 5] == replies@[i + 5]@);
        match &replies[i + 5] {
            Reply::Metadata(m) => {
                return Step::Answer(Reply::Backup(folder.clone(), path, m.copy()));
            },
            _ => {
                return fail(
                    cat4(
                        "Invalid backup metadata ",
                        meta.as_str(),
                        ": ",
                        fault_told(replies, i + 5).as_str(),
                    ).as_str(),
                );
            },
        }
    }
    Step::Ask(Effect::NextEntry(backups_root.to_owned()))
}

/// Whether the replies tell of a directory entry with this path.
pub open spec fn was_listed(r: Seq<Told>, path: Seq<char>) -> bool {
    exists|j: int| 0 <= j < r.len() && (#[trigger] r[j] matches Reply::Entry(p, _) && p == path)
}

/// Whether one of the replies tells of a failure.
pub open spec fn some_failure(r: Seq<Told>) -> bool {
    exists|j: int| 0 <= j < r.len() && (#[trigger] r[j]) is Failed
}

/// A walk only looks, fails only where a reply did, and what it comes to was listed.
proof fn lemma_walk_looks(root: Seq<char>, folder: Option<Seq<char>>, r: Seq<Told>, i: int)
    ensures
        walked(root, folder, r, i) matches Walked::Ask(e) ==> changes(e) == Set::<Seq<char>>::empty()
            && !(e is EncodeMetadata),
        walked(root, folder, r, i) is Failed ==> some_failure(r),
        walked(root, folder, r, i) matches Walked::Backup { path, .. } ==> was_listed(r, path),
    decreases r.len() - i,
{
    if 0 <= i && i < r.len() {
        assert(r[i] is Failed ==> some_failure(r));
        if let Reply::Entry(path, _) = r[i] {
            assert(was_listed(r, path));
            assert(i + 2 < r.len() && r[i + 2] is Failed ==> some_failure(r));
            if i + 1 < r.len() {
                lemma_walk_looks(root, folder, r, i + 2);
                if i + 2 < r.len() {
                    lemma_walk_looks(root, folder, r, i + 3);
                    lemma_walk_looks(root, Some(path), r, i + 3);
                    if i + 3 < r.len() {
                        lemma_walk_looks(root, folder, r, i + 4);
                        if i + 4 < r.len() {
                            lemma_walk_looks(root, folder, r, i + 5);
                        }
                    }
                }
            }
        } else if folder is Some {
            lemma_walk_looks(root, None, r, i + 1);
        }
    }
}

proof fn lemma_relink_writes(
    root: Seq<char>,
    q: Relinking<Seq<char>>,
    r: Seq<Told>,
    i: int,
    folder: Option<Seq<char>>,
    count: nat,
)
    ensures
        relink_walk(root, q, r, i, folder, count) matches Step::Ask(e) ==> forall|p: Seq<char>|
            changes(e).contains(p) ==> exists|b: Seq<char>|
                #[trigger] was_listed(r, b) && p == meta_place(b),
    decreases r.len() - i,
{
    lemma_walk_moves(root, folder, r, i);
    lemma_walk_looks(root, folder, r, i);
    if let Walked::Backup { folder: inside, path, metadata, next } = walked(root, folder, r, i) {
        let asks = may_be_orphan(metadata, q);
        if !(asks && next >= r.len()) {
            let orphan = asks && r[next] is Nothing;
            let at = if asks {
                next + 1
            } else {
                next
            };
            if relink_update(metadata, q, orphan) is None {
                lemma_relink_writes(root, q, r, at, Some(inside), count);
            } else if at + 1 < r.len() {
                lemma_relink_writes(root, q, r, at + 2, Some(inside), count + 1);
            }
        }
    }
}

/// Linking backups writes nothing but the metadata of backups that were listed.
pub proof fn law_relinking_writes_metadata_only(
    root: Seq<char>,
    q: Relinking<Seq<char>>,
    r: Seq<Told>,
)
    ensures
        relinking(root, q, r) matches Step::Ask(e) ==> forall|p: Seq<char>|
            changes(e).contains(p) ==> exists|b: Seq<char>|
                #[trigger] was_listed(r, b) && p == meta_place(b),
{
    lemma_relink_writes(root, q, r, 2, None, 0);
}

proof fn lemma_collect(
    root: Seq<char>,
    index: Seq<(Seq<char>, Seq<char>)>,
    r: Seq<Told>,
    i: int,
    folder: Option<Seq<char>>,
    list: Seq<BackupMetadata<Seq<char>>>,
)
    ensures
        match collect_walk(root, index, r, i, folder, list) {
            Step::Ask(e) => forall|p: Seq<char>|
                changes(e).contains(p) ==> exists|b: Seq<char>|
                    #[trigger] was_listed(r, b) && p == meta_place(b),
            Step::Answer(Collected::Backups(found)) => in_order::<BackupMetadata<String>>(found),
            _ => true,
        },
    decreases r.len() - i,
{
    lemma_walk_moves(root, folder, r, i);
    lemma_walk_looks(root, folder, r, i);
    law_sorted::<BackupMetadata<String>>(list);
    if let Walked::Backup { folder: inside, path, metadata, next } = walked(root, folder, r, i) {
        let asks = metadata.source_instance_id is None;
        if !(asks && next >= r.len()) {
            let in_files = if asks {
                r[next].text()
            } else {
                None
            };
            let at = if asks {
                next + 1
            } else {
                next
            };
            let m = healed(metadata, in_files, index);
            if m == metadata {
                lemma_collect(root, index, r, at, Some(inside), list.push(m));
            } else if at < r.len() {
                if r[at].text() is None {
                    lemma_collect(root, index, r, at + 1, Some(inside), list.push(m));
                } else if at + 1 < r.len() {
                    lemma_collect(root, index, r, at + 2, Some(inside), list.push(m));
                }
            }
        }
    }
}

/// The backups are told newest first, and collecting them writes nothing but the
/// metadata of backups that were listed.
pub proof fn law_backups_are_told_newest_first(root: Seq<char>, r: Seq<Told>)
    ensures
        match collecting(root, r) {
            Step::Ask(e) => forall|p: Seq<char>|
                changes(e).contains(p) ==> exists|b: Seq<char>|
                    #[trigger] was_listed(r, b) && p == meta_place(b),
            Step::Answer(Collected::Backups(found)) => in_order::<BackupMetadata<String>>(found),
            _ => true,
        },
{
    lemma_collect(root, index_told(r[1]), r, 3, None, Seq::empty());
}

proof fn lemma_locate(root: Seq<char>, id: Seq<char>, r: Seq<Told>, i: int)
    ensures
        match locate_walk(root, id, r, i) {
            Step::Ask(e) => changes(e) == Set::<Seq<char>>::empty(),
            Step::Answer(Reply::Backup(folder, path, m)) => {
                &&& was_listed(r, folder)
                &&& path == joined_path(folder, id)
                &&& r.contains(Reply::Metadata(m))
            },
            Step::Answer(_) => true,
        },
    decreases r.len() - i,
{
    if 0 <= i && i < r.len() {
        if let Reply::Entry(folder, _) = r[i] {
            assert(was_listed(r, folder));
            if i + 1 < r.len() {
                lemma_locate(root, id, r, i + 2);
                if i + 2 < r.len() {
                    lemma_locate(root, id, r, i + 3);
                    if i + 5 < r.len() {
                        assert(r.contains(r[i + 5]));
                    }
                }
            }
        }
    }
}

/// A backup that is found stands under its id in a folder that was listed, and its
/// metadata is what was read there; looking for it changes nothing.
pub proof fn law_found_backup_has_the_id(root: Seq<char>, id: Seq<char>, r: Seq<Told>)
    ensures
        match locating(root, id, r) {
            Step::Ask(e) => changes(e) == Set::<Seq<char>>::empty(),
            Step::Answer(Reply::Backup(folder, path, m)) => {
                &&& was_listed(r, folder)
                &&& path == joined_path(folder, id)
                &&& r.contains(Reply::Metadata(m))
            },
            Step::Answer(_) => true,
        },
{
    lemma_locate(root, id, r, 2);
}

/// What a run of linking leaves behind, from reply `i` on: for each backup that it
/// came to, its path, its metadata as it is then, and whether it was found to be an
/// orphan.
pub open spec fn left_behind(
    root: Seq<char>,
    q: Relinking<Seq<char>>,
    r: Seq<Told>,
    i: int,
    folder: Option<Seq<char>>,
) -> Seq<(Seq<char>, BackupMetadata<Seq<char>>, bool)>
    decreases r.len() - i,
{
    proof {
        lemma_walk_moves(root, folder, r, i);
    }
    match walked(root, folder, r, i) {
        Walked::Backup { folder: inside, path, metadata, next } => {
            let asks = may_be_orphan(metadata, q);
            if asks && next >= r.len() {
                Seq::empty()
            } else {
                let orphan = asks && r[next] is Nothing;
                let at = if asks {
                    next + 1
                } else {
                    next
                };
                match relink_update(metadata, q, orphan) {
                    None => seq![(path, metadata, orphan)] + left_behind(
                        root,
                        q,
                        r,
                        at,
                        Some(inside),
                    ),
                    Some(m) => seq![(path, m, orphan)] + (if at + 1 < r.len() {
                        left_behind(root, q, r, at + 2, Some(inside))
                    } else {
                        Seq::empty()
                    }),
                }
            }
        },
        _ => Seq::empty(),
    }
}

/// Whether the replies from `i` on tell of backups as they were left behind: each
/// with a path and metadata that were, and held by an instance or not as it was.
pub open spec fn as_left_behind(
    root: Seq<char>,
    q: Relinking<Seq<char>>,
    r: Seq<Told>,
    i: int,
    folder: Option<Seq<char>>,
    left: Seq<(Seq<char>, BackupMetadata<Seq<char>>, bool)>,
) -> bool
    decreases r.len() - i,
{
    proof {
        lemma_walk_moves(root, folder, r, i);
    }
    match walked(root, folder, r, i) {
        Walked::Backup { folder: inside, path, metadata, next } => {
            let asks = may_be_orphan(metadata, q);
            &&& exists|k: int|
                {
                    &&& 0 <= k < left.len()
                    &&& (#[trigger] left[k]).0 == path
                    &&& left[k].1 == metadata
                    &&& asks && next < r.len() ==> (r[next] is Nothing) == left[k].2
                }
            &&& if asks {
                next < r.len() ==> as_left_behind(root, q, r, next + 1, Some(inside), left)
            } else {
                as_left_behind(root, q, r, next, Some(inside), left)
            }
        },
        _ => true,
    }
}

/// Whether a backup, as it was left behind, has no more to be linked.
pub open spec fn is_settled(
    e: (Seq<char>, BackupMetadata<Seq<char>>, bool),
    q: Relinking<Seq<char>>,
) -> bool {
    relink_update(e.1, q, may_be_orphan(e.1, q) && e.2) is None
}

/// A run of linking leaves every backup that it came to settled.
proof fn lemma_left_settled(
    root: Seq<char>,
    q: Relinking<Seq<char>>,
    r: Seq<Told>,
    i: int,
    folder: Option<Seq<char>>,
)
    ensures
        forall|k: int|
            0 <= k < left_behind(root, q, r, i, folder).len() ==> is_settled(
                #[trigger] left_behind(root, q, r, i, folder)[k],
                q,
            ),
    decreases r.len() - i,
{
    lemma_walk_moves(root, folder, r, i);
    if let Walked::Backup { folder: inside, path, metadata, next } = walked(root, folder, r, i) {
        let asks = may_be_orphan(metadata, q);
        if !(asks && next >= r.len()) {
            let orphan = asks && r[next] is Nothing;
            let at = if asks {
                next + 1
            } else {
                next
            };
            let all = left_behind(root, q, r, i, folder);
            let rest = if relink_update(metadata, q, orphan) is None {
                lemma_left_settled(root, q, r, at, Some(inside));
                left_behind(root, q, r, at, Some(inside))
            } else if at + 1 < r.len() {
                lemma_left_settled(root, q, r, at + 2, Some(inside));
                left_behind(root, q, r, at + 2, Some(inside))
            } else {
                Seq::empty()
            };
            assert(all.len() == rest.len() + 1);
            assert(is_settled(all[0], q));
            assert forall|k: int| 0 <= k < all.len() implies is_settled(#[trigger] all[k], q) by {
                if k > 0 {
                    assert(all[k] == rest[k - 1]);
                }
            }
        }
    }
}

/// Over settled backups, linking writes nothing and counts nothing.
proof fn lemma_relink_settled(
    root: Seq<char>,
    q: Relinking<Seq<char>>,
    r: Seq<Told>,
    i: int,
    folder: Option<Seq<char>>,
    left: Seq<(Seq<char>, BackupMetadata<Seq<char>>, bool)>,
)
    requires
        as_left_behind(root, q, r, i, folder, left),
        forall|k: int| 0 <= k < left.len() ==> is_settled(#[trigger] left[k], q),
    ensures
        match relink_walk(root, q, r, i, folder, 0) {
            Step::Ask(e) => changes(e) == Set::<Seq<char>>::empty() && !(e is EncodeMetadata),
            Step::Answer(a) => a == Told::Number(0) || a is Failed && some_failure(r),
        },
    decreases r.len() - i,
{
    lemma_walk_moves(root, folder, r, i);
    lemma_walk_looks(root, folder, r, i);
    if let Walked::Backup { folder: inside, path, metadata, next } = walked(root, folder, r, i) {
        let asks = may_be_orphan(metadata, q);
        if !(asks && next >= r.len()) {
            let k = choose|k: int|
                {
                    &&& 0 <= k < left.len()
                    &&& (#[trigger] left[k]).0 == path
                    &&& left[k].1 == metadata
                    &&& asks && next < r.len() ==> (r[next] is Nothing) == left[k].2
                };
            assert(is_settled(left[k], q));
            let orphan = asks && r[next] is Nothing;
            assert(relink_update(metadata, q, orphan) is None);
            let at = if asks {
                next + 1
            } else {
                next
            };
            lemma_relink_settled(root, q, r, at, Some(inside), left);
        }
    }
}

/// Linking the same backups to the same name again writes nothing and counts none:
/// where a second run finds the backups as a first one left them, it asks for no
/// change and encodes no metadata, and comes to zero unless it fails, which takes a reply that tells of a failure.
pub proof fn law_relinking_twice_writes_nothing(
    root: Seq<char>,
    q: Relinking<Seq<char>>,
    first: Seq<Told>,
    second: Seq<Told>,
)
    requires
        as_left_behind(root, q, second, 2, None, left_behind(root, q, first, 2, None)),
    ensures
        match relinking(root, q, second) {
            Step::Ask(e) => changes(e) == Set::<Seq<char>>::empty() && !(e is EncodeMetadata),
            Step::Answer(a) => a == Told::Number(0) || a is Failed && some_failure(second),
        },
{
    lemma_left_settled(root, q, first, 2, None);
    lemma_relink_settled(root, q, second, 2, None, left_behind(root, q, first, 2, None));
    assert(second.len() > 1 && second[1] is Failed ==> some_failure(second));
}

/// Walking depends on the replies from where it goes on, and on nothing before.
proof fn lemma_walk_from(
    root: Seq<char>,
    folder: Option<Seq<char>>,
    r: Seq<Told>,
    i: int,
    s: Seq<Told>,
    j: int,
)
    requires
        0 <= i <= r.len(),
        0 <= j <= s.len(),
        r.len() - i == s.len() - j,
        forall|k: int| i <= k < r.len() ==> #[trigger] r[k] == s[k - i + j],
    ensures
        match walked(root, folder, r, i) {
            Walked::Backup { folder: inside, path, metadata, next } => {
                walked(root, folder, s, j) == Walked::<Seq<char>, Seq<u8>, int>::Backup {
                    folder: inside,
                    path,
                    metadata,
                    next: next - i + j,
                }
            },
            w => walked(root, folder, s, j) == w,
        },
    decreases r.len() - i,
{
    if i < r.len() {
        assert(r[i] == s[j]);
        if let Reply::Entry(path, _) = r[i] {
            if i + 1 < r.len() {
                assert(r[i + 1] == s[j + 1]);
                lemma_walk_from(root, folder, r, i + 2, s, j + 2);
                if i + 2 < r.len() {
                    assert(r[i + 2] == s[j + 2]);
                    lemma_walk_from(root, folder, r, i + 3, s, j + 3);
                    lemma_walk_from(root, Some(path), r, i + 3, s, j + 3);
                    if i + 3 < r.len() {
                        assert(r[i + 3] == s[j + 3]);
                        lemma_walk_from(root, folder, r, i + 4, s, j + 4);
                        if i + 4 < r.len() {
                            assert(r[i + 4] == s[j + 4]);
                            lemma_walk_from(root, folder, r, i + 5, s, j + 5);
                        }
                    }
                }
            }
        } else if folder is Some {
            lemma_walk_from(root, None, r, i + 1, s, j + 1);
        }
    }
}

/// A walk that asks for an entry has come to the end of what it was told, in the folder
/// whose entry it asks for; one that has come to a backup comes to it with more as well.
proof fn lemma_walk_comes_to(root: Seq<char>, folder: Option<Seq<char>>, r: Seq<Told>, i: int) -> (
    inside: Option<Seq<char>>)
    requires
        0 <= i <= r.len(),
    ensures
        walked(root, folder, r, i) matches Walked::Ask(Effect::NextEntry(d)) ==> {
            &&& d == (match inside {
                Some(f) => f,
                None => root,
            })
            &&& forall|u: Seq<Told>| #[trigger]
                walked(root, folder, r + u, i) == walked(root, inside, r + u, r.len() as int)
            &&& i == r.len() ==> inside == folder
        },
        walked(root, folder, r, i) is Backup ==> forall|u: Seq<Told>| #[trigger]
            walked(root, folder, r + u, i) == walked(root, folder, r, i),
    decreases r.len() - i,
{
    let (then, k) = if i == r.len() {
        (folder, i)
    } else {
        match r[i] {
            Reply::Entry(path, _) => if i + 1 >= r.len() {
                (folder, i)
            } else if !r[i + 1].yes() {
                (folder, i + 2)
            } else if i + 2 >= r.len() {
                (folder, i)
            } else if folder is None {
                (Some(path), i + 3)
            } else if !r[i + 2].yes() {
                (folder, i + 3)
            } else if i + 3 >= r.len() {
                (folder, i)
            } else if r[i + 3].text() is None {
                (folder, i + 4)
            } else if i + 4 >= r.len() || r[i + 4] is Metadata {
                (folder, i)
            } else {
                (folder, i + 5)
            },
            Reply::Failed(_) => (folder, i),
            _ => if folder is Some {
                (None, i + 1)
            } else {
                (folder, i)
            },
        }
    };
    let inside = if k > i {
        lemma_walk_comes_to(root, then, r, k)
    } else {
        folder
    };
    assert forall|u: Seq<Told>| (match walked(root, folder, r, i) {
        Walked::Ask(Effect::NextEntry(_)) => (#[trigger] walked(root, folder, r + u, i)) == walked(
            root,
            inside,
            r + u,
            r.len() as int,
        ),
        Walked::Backup { .. } => walked(root, folder, r + u, i) == walked(root, folder, r, i),
        _ => true,
    }) by {
        let q = r + u;
        assert forall|j: int| 0 <= j < r.len() implies #[trigger] q[j] == r[j] by {}
        assert(q.len() >= r.len());
        if k > i && !(walked(root, folder, r, i) is Failed) {
            assert(walked(root, folder, r, i) == walked(root, then, r, k));
            assert(walked(root, folder, q, i) == walked(root, then, r + u, k));
        }
    }
    inside
}

proof fn lemma_walk_passes_over(
    root: Seq<char>,
    inside: Option<Seq<char>>,
    r: Seq<Told>,
    s: Seq<Told>,
    p: Seq<char>,
    b: Option<Seq<char>>,
    x: Told,
    text: Seq<char>,
)
    ensures
        ({
            let n = r.len() as int;
            let over = |u: Seq<Told>|
                walked(root, inside, r + u + s, n) == walked(
                    root,
                    inside,
                    r + u + s,
                    n + u.len(),
                );
            &&& x != Told::Flag(true) ==> over(seq![Told::Entry(p, b), x])
            &&& inside is None && !(x is Failed) ==> over(
                seq![Told::Entry(p, b), Told::Flag(true), x, Told::Nothing],
            )
            &&& inside is Some && x != Told::Flag(true) ==> over(
                seq![Told::Entry(p, b), Told::Flag(true), x],
            )
            &&& inside is Some && !(x is Text) ==> over(
                seq![Told::Entry(p, b), Told::Flag(true), Told::Flag(true), x],
            )
            &&& inside is Some && !(x is Metadata) ==> over(
                seq![
                    Told::Entry(p, b),
                    Told::Flag(true),
                    Told::Flag(true),
                    Told::Text(text),
                    x,
                ],
            )
        }),
{
    reveal_with_fuel(walked, 3);
    let n = r.len() as int;
    let one = r + seq![Told::Entry(p, b), x] + s;
    let two = r + seq![Told::Entry(p, b), Told::Flag(true), x] + s;
    let three = r + seq![Told::Entry(p, b), Told::Flag(true), Told::Flag(true), x] + s;
    let four = r + seq![
        Told::Entry(p, b),
        Told::Flag(true),
        Told::Flag(true),
        Told::Text(text),
        x,
    ] + s;
    let empty = r + seq![Told::Entry(p, b), Told::Flag(true), x, Told::Nothing] + s;
    assert(one[n] == Told::Entry(p, b) && one[n + 1] == x);
    assert(two[n] == Told::Entry(p, b) && two[n + 1] == Told::Flag(true) && two[n + 2] == x);
    assert(three[n] == Told::Entry(p, b) && three[n + 1] == Told::Flag(true) && three[n + 2]
        == Told::Flag(true) && three[n + 3] == x);
    assert(four[n] == Told::Entry(p, b) && four[n + 1] == Told::Flag(true) && four[n + 2]
        == Told::Flag(true) && four[n + 3] == Told::Text(text) && four[n + 4] == x);
    assert(empty[n] == Told::Entry(p, b) && empty[n + 1] == Told::Flag(true) && empty[n + 2] == x
        && empty[n + 3] == Told::Nothing);
}

proof fn lemma_walk_finds(
    root: Seq<char>,
    inside: Seq<char>,
    r: Seq<Told>,
    p: Seq<char>,
    b: Option<Seq<char>>,
    text: Seq<char>,
    m: BackupMetadata<Seq<char>>,
    w: Seq<Told>,
)
    ensures
        walked(root, Some(inside), r + (heard_backup(p, b, text, m) + w), r.len() as int)
            == (Walked::<Seq<char>, Seq<u8>, int>::Backup {
            folder: inside,
            path: p,
            metadata: m,
            next: r.len() as int + 5,
        }),
        forall|j: int|
            0 <= j < w.len() ==> #[trigger] (r + (heard_backup(p, b, text, m) + w))[r.len() + 5 + j]
                == w[j],
        walked(root, Some(inside), r, r.len() as int) == Walked::<Seq<char>, Seq<u8>, int>::Ask(
            Effect::NextEntry(inside),
        ),
        walked(root, Some(inside), r + seq![Told::Nothing, Told::Nothing], r.len() as int)
            == Walked::<Seq<char>, Seq<u8>, int>::End,
{
    reveal_with_fuel(walked, 3);
    let n = r.len() as int;
    let q = r + (heard_backup(p, b, text, m) + w);
    assert(q[n] == Told::Entry(p, b) && q[n + 1] == Told::Flag(true) && q[n + 2] == Told::Flag(true)
        && q[n + 3] == Told::Text(text) && q[n + 4] == Told::Metadata(m));
    let e = r + seq![Told::Nothing, Told::Nothing];
    assert(e[n] == Told::Nothing && e[n + 1] == Told::Nothing);
}

proof fn lemma_collect_from(
    root: Seq<char>,
    index: Seq<(Seq<char>, Seq<char>)>,
    folder: Option<Seq<char>>,
    list: Seq<BackupMetadata<Seq<char>>>,
    r: Seq<Told>,
    i: int,
    s: Seq<Told>,
    j: int,
)
    requires
        0 <= i <= r.len(),
        0 <= j <= s.len(),
        r.len() - i == s.len() - j,
        forall|k: int| i <= k < r.len() ==> #[trigger] r[k] == s[k - i + j],
    ensures
        collect_walk(root, index, r, i, folder, list) == collect_walk(
            root,
            index,
            s,
            j,
            folder,
            list,
        ),
    decreases r.len() - i,
{
    lemma_walk_from(root, folder, r, i, s, j);
    lemma_walk_moves(root, folder, r, i);
    if let Walked::Backup { folder: inside, path, metadata, next } = walked(root, folder, r, i) {
        let asks = metadata.source_instance_id is None;
        let other = next - i + j;
        if !asks || next < r.len() {
            if asks {
                assert(r[next] == s[other]);
            }
            let in_files = if asks {
                r[next].text()
            } else {
                None
            };
            let at = if asks {
                next + 1
            } else {
                next
            };
            let m = healed(metadata, in_files, index);
            let more = list.push(m);
            lemma_collect_from(root, index, Some(inside), more, r, at, s, at - i + j);
            if at < r.len() {
                assert(r[at] == s[at - i + j]);
                lemma_collect_from(root, index, Some(inside), more, r, at + 1, s, at + 1 - i + j);
                if at + 1 < r.len() {
                    assert(r[at + 1] == s[at + 1 - i + j]);
                    lemma_collect_from(
                        root,
                        index,
                        Some(inside),
                        more,
                        r,
                        at + 2,
                        s,
                        at + 2 - i + j,
                    );
                }
            }
        }
    }
}

proof fn lemma_collect_comes_to(
    root: Seq<char>,
    index: Seq<(Seq<char>, Seq<char>)>,
    r: Seq<Told>,
    i: int,
    folder: Option<Seq<char>>,
    list: Seq<BackupMetadata<Seq<char>>>,
) -> (at: (Option<Seq<char>>, Seq<BackupMetadata<Seq<char>>>))
    requires
        0 <= i <= r.len(),
        collect_walk(root, index, r, i, folder, list) matches Step::Ask(Effect::NextEntry(_)),
    ensures
        collect_walk(root, index, r, i, folder, list) matches Step::Ask(Effect::NextEntry(d)) && d
            == (match at.0 {
            Some(f) => f,
            None => root,
        }),
        forall|u: Seq<Told>| #[trigger]
            collect_walk(root, index, r + u, i, folder, list) == collect_walk(
                root,
                index,
                r + u,
                r.len() as int,
                at.0,
                at.1,
            ),
        i == r.len() ==> at == (folder, list),
    decreases r.len() - i,
{
    reveal_with_fuel(collect_walk, 2);
    assert forall|u: Seq<Told>, j: int| 0 <= j < r.len() implies #[trigger] (r + u)[j] == r[j] by {}
    let inside = lemma_walk_comes_to(root, folder, r, i);
    lemma_walk_moves(root, folder, r, i);
    match walked(root, folder, r, i) {
        Walked::Backup { folder: inside, path, metadata, next } => {
            let asks = metadata.source_instance_id is None;
            let in_files = if asks {
                r[next].text()
            } else {
                None
            };
            let at = if asks {
                next + 1
            } else {
                next
            };
            let m = healed(metadata, in_files, index);
            let more = list.push(m);
            let k = if m == metadata {
                at
            } else if r[at].text() is None {
                at + 1
            } else {
                at + 2
            };
            let end = lemma_collect_comes_to(root, index, r, k, Some(inside), more);
            assert forall|u: Seq<Told>| #[trigger]
                collect_walk(root, index, r + u, i, folder, list) == collect_walk(
                    root,
                    index,
                    r + u,
                    r.len() as int,
                    end.0,
                    end.1,
                ) by {
                assert(walked(root, folder, r + u, i) == walked(root, folder, r, i));
                assert(collect_walk(root, index, r + u, i, folder, list) == collect_walk(
                    root,
                    index,
                    r + u,
                    k,
                    Some(inside),
                    more,
                ));
            }
            end
        },
        _ => {
            assert forall|u: Seq<Told>| #[trigger]
                collect_walk(root, index, r + u, i, folder, list) == collect_walk(
                    root,
                    index,
                    r + u,
                    r.len() as int,
                    inside,
                    list,
                ) by {
                assert(walked(root, folder, r + u, i) == walked(
                    root,
                    inside,
                    r + u,
                    r.len() as int,
                ));
            }
            (inside, list)
        },
    }
}

proof fn lemma_relink_from(
    root: Seq<char>,
    q: Relinking<Seq<char>>,
    folder: Option<Seq<char>>,
    count: nat,
    r: Seq<Told>,
    i: int,
    s: Seq<Told>,
    j: int,
)
    requires
        0 <= i <= r.len(),
        0 <= j <= s.len(),
        r.len() - i == s.len() - j,
        forall|k: int| i <= k < r.len() ==> #[trigger] r[k] == s[k - i + j],
    ensures
        relink_walk(root, q, r, i, folder, count) == relink_walk(root, q, s, j, folder, count),
    decreases r.len() - i,
{
    lemma_walk_from(root, folder, r, i, s, j);
    lemma_walk_moves(root, folder, r, i);
    if let Walked::Backup { folder: inside, path, metadata, next } = walked(root, folder, r, i) {
        let asks = may_be_orphan(metadata, q);
        if !asks || next < r.len() {
            if asks {
                assert(r[next] == s[next - i + j]);
            }
            let at = if asks {
                next + 1
            } else {
                next
            };
            lemma_relink_from(root, q, Some(inside), count, r, at, s, at - i + j);
            if at < r.len() {
                assert(r[at] == s[at - i + j]);
                if at + 1 < r.len() {
                    assert(r[at + 1] == s[at + 1 - i + j]);
                    lemma_relink_from(
                        root,
                        q,
                        Some(inside),
                        count + 1,
                        r,
                        at + 2,
                        s,
                        at + 2 - i + j,
                    );
                }
            }
        }
    }
}

proof fn lemma_relink_comes_to(
    root: Seq<char>,
    q: Relinking<Seq<char>>,
    r: Seq<Told>,
    i: int,
    folder: Option<Seq<char>>,
    count: nat,
) -> (at: (Option<Seq<char>>, nat))
    requires
        0 <= i <= r.len(),
        relink_walk(root, q, r, i, folder, count) matches Step::Ask(Effect::NextEntry(_)),
    ensures
        relink_walk(root, q, r, i, folder, count) matches Step::Ask(Effect::NextEntry(d)) && d == (
        match at.0 {
            Some(f) => f,
            None => root,
        }),
        forall|u: Seq<Told>| #[trigger]
            relink_walk(root, q, r + u, i, folder, count) == relink_walk(
                root,
                q,
                r + u,
                r.len() as int,
                at.0,
                at.1,
            ),
        i == r.len() ==> at == (folder, count),
        at.1 <= count + (r.len() - i),
    decreases r.len() - i,
{
    reveal_with_fuel(relink_walk, 2);
    assert forall|u: Seq<Told>, j: int| 0 <= j < r.len() implies #[trigger] (r + u)[j] == r[j] by {}
    let inside = lemma_walk_comes_to(root, folder, r, i);
    lemma_walk_moves(root, folder, r, i);
    match walked(root, folder, r, i) {
        Walked::Backup { folder: inside, path, metadata, next } => {
            let asks = may_be_orphan(metadata, q);
            let orphan = asks && r[next] is Nothing;
            let at = if asks {
                next + 1
            } else {
                next
            };
            let same = relink_update(metadata, q, orphan) is None;
            let k = if same {
                at
            } else {
                at + 2
            };
            let more = if same {
                count
            } else {
                count + 1
            };
            let end = lemma_relink_comes_to(root, q, r, k, Some(inside), more);
            assert forall|u: Seq<Told>| #[trigger]
                relink_walk(root, q, r + u, i, folder, count) == relink_walk(
                    root,
                    q,
                    r + u,
                    r.len() as int,
                    end.0,
                    end.1,
                ) by {
                assert(walked(root, folder, r + u, i) == walked(root, folder, r, i));
                assert(relink_walk(root, q, r + u, i, folder, count) == relink_walk(
                    root,
                    q,
                    r + u,
                    k,
                    Some(inside),
                    more,
                ));
            }
            end
        },
        _ => {
            assert forall|u: Seq<Told>| #[trigger]
                relink_walk(root, q, r + u, i, folder, count) == relink_walk(
                    root,
                    q,
                    r + u,
                    r.len() as int,
                    inside,
                    count,
                ) by {
                assert(walked(root, folder, r + u, i) == walked(
                    root,
                    inside,
                    r + u,
                    r.len() as int,
                ));
            }
            (inside, count)
        },
    }
}

proof fn lemma_collecting_comes_to(
    root: Seq<char>,
    r: Seq<Told>,
) -> (at: (Option<Seq<char>>, Seq<BackupMetadata<Seq<char>>>))
    requires
        collecting(root, r) matches Step::Ask(Effect::NextEntry(_)),
    ensures
        r.len() >= 3,
        collecting(root, r) == CollectView::Ask(
            Effect::NextEntry(
                match at.0 {
                    Some(f) => f,
                    None => root,
                },
            ),
        ),
        forall|u: Seq<Told>| #[trigger]
            collecting(root, r + u) == collect_walk(root, index_told(r[1]), r + u, r.len() as int, at.0, at.1),
        r.len() == 3 ==> at == (None::<Seq<char>>, Seq::<BackupMetadata<Seq<char>>>::empty()),

{
    let at = lemma_collect_comes_to(root, index_told(r[1]), r, 3, None, Seq::empty());
    assert forall|u: Seq<Told>| #[trigger]
        collecting(root, r + u) == collect_walk(root, index_told(r[1]), r + u, r.len() as int, at.0, at.1) by {
        let t = r + u;
        assert forall|j: int| 0 <= j < r.len() implies #[trigger] t[j] == r[j] by {}
        assert(collecting(root, t) == collect_walk(root, index_told(r[1]), r + u, 3, None, Seq::empty()));
    }
    at
}

proof fn lemma_relinking_comes_to(
    root: Seq<char>,
    q: Relinking<Seq<char>>,
    r: Seq<Told>,
) -> (at: (Option<Seq<char>>, nat))
    requires
        relinking(root, q, r) matches Step::Ask(Effect::NextEntry(_)),
    ensures
        r.len() >= 2,
        relinking(root, q, r) == TaskView::Ask(
            Effect::NextEntry(
                match at.0 {
                    Some(f) => f,
                    None => root,
                },
            ),
        ),
        forall|u: Seq<Told>| #[trigger]
            relinking(root, q, r + u) == relink_walk(root, q, r + u, r.len() as int, at.0, at.1),
        r.len() == 2 ==> at == (None::<Seq<char>>, 0nat),
        at.1 <= r.len(),
{
    let at = lemma_relink_comes_to(root, q, r, 2, None, 0);
    assert forall|u: Seq<Told>| #[trigger]
        relinking(root, q, r + u) == relink_walk(root, q, r + u, r.len() as int, at.0, at.1) by {
        let t = r + u;
        assert forall|j: int| 0 <= j < r.len() implies #[trigger] t[j] == r[j] by {}
        assert(relinking(root, q, t) == relink_walk(root, q, r + u, 2, None, 0));
    }
    at
}

/// Collecting the backups begins with their directory: where there is none there are none
/// to be told. What stands in it are the folders of the instances.
pub proof fn law_collecting_begins(
    root: Seq<char>,
    x: Told,
    y: Told,
    z: Told,
    p: Seq<char>,
    b: Option<Seq<char>>,
)
    ensures
        collecting(root, Seq::empty()) == CollectView::Ask(Effect::IsDir(root)),
        collecting(root, seq![x]) == (if x == Told::Flag(true) {
            CollectView::Ask(Effect::IndexProofs)
        } else {
            CollectView::Answer(Collected::Backups(Seq::empty()))
        }),
        collecting(root, seq![Told::Flag(true), y]) == CollectView::Ask(Effect::OpenDir(root)),
        collecting(root, seq![Told::Flag(true), y, z]) == match z {
            Reply::Failed(e) => CollectView::Answer(Collected::Failed("Failed to read backups root: "@ + e)),
            _ => CollectView::Ask(Effect::NextEntry(root)),
        },
        !(z is Failed) ==> {
            &&& collecting(root, seq![Told::Flag(true), y, z, Told::Entry(p, b), Told::Flag(true)]) == CollectView::Ask(Effect::OpenDir(p))
            &&& collecting(root, seq![Told::Flag(true), y, z, Told::Nothing]) == CollectView::Answer(
                Collected::Backups(Seq::empty()),
            )
        },
{
    reveal_with_fuel(walked, 2);
    assert(seq![Told::Flag(true), y, z, Told::Entry(p, b), Told::Flag(true)].len() == 5);
    assert(seq![Told::Flag(true), y, z, Told::Nothing].len() == 4);
}

/// Collecting goes on as each reply asks for. An entry of the backups' directory that is a
/// directory is opened, and an entry of such a folder that is one and holds metadata is a
/// backup; where a folder ends the next one follows, and where the directory ends all
/// is told.
pub proof fn law_collecting_goes_on(
    root: Seq<char>,
    r: Seq<Told>,
    p: Seq<char>,
    b: Option<Seq<char>>,
    p2: Seq<char>,
    b2: Option<Seq<char>>,
    e: Seq<char>,
    x: Told,
    text: Seq<char>,
) -> (inside: Option<Seq<char>>)
    requires
        collecting(root, r) matches Step::Ask(Effect::NextEntry(_)),
        !(x is Failed),
    ensures
        ({
            let then = |u: Seq<Told>| collecting(root, r + u);
            &&& then(seq![Told::Entry(p, b)]) == CollectView::Ask(Effect::IsDir(p))
            &&& match inside {
                None => {
                    &&& collecting(root, r) == CollectView::Ask(Effect::NextEntry(root))
                    &&& then(seq![Told::Failed(e)]) == CollectView::Answer(Collected::Failed("Failed to read backups entry: "@ + e))
                    &&& then(seq![Told::Entry(p, b), Told::Flag(true)]) == CollectView::Ask(Effect::OpenDir(p))
                    &&& then(seq![Told::Entry(p, b), Told::Flag(true), Told::Failed(e)]) == CollectView::Answer(Collected::Failed("Failed to read instance backup folder: "@ + e))
                    &&& then(seq![Told::Entry(p, b), Told::Flag(true), x]) == CollectView::Ask(Effect::NextEntry(p))
                    &&& then(seq![Told::Entry(p, b), Told::Flag(true), x, Told::Entry(p2, b2), Told::Flag(true)]) == CollectView::Ask(Effect::IsFile(joined_path(p2, "meta.json"@)))
                    &&& then(seq![Told::Nothing]) is Answer
                },
                Some(f) => {
                    &&& collecting(root, r) == CollectView::Ask(Effect::NextEntry(f))
                    &&& then(seq![Told::Failed(e)]) == CollectView::Answer(Collected::Failed("Failed to read backup entry: "@ + e))
                    &&& then(seq![Told::Entry(p, b), Told::Flag(true)]) == CollectView::Ask(Effect::IsFile(joined_path(p, "meta.json"@)))
                    &&& then(seq![Told::Entry(p, b), Told::Flag(true), Told::Flag(true)]) == CollectView::Ask(Effect::ReadText(joined_path(p, "meta.json"@)))
                    &&& then(seq![Told::Entry(p, b), Told::Flag(true), Told::Flag(true), Told::Text(text)]) == CollectView::Ask(Effect::ParseMetadata(text))
                    &&& then(seq![Told::Nothing]) == CollectView::Ask(Effect::NextEntry(root))
                    &&& then(seq![Told::Nothing, Told::Entry(p, b), Told::Flag(true)]) == CollectView::Ask(Effect::OpenDir(p))
                    &&& then(seq![Told::Nothing, Told::Nothing]) is Answer
                },
            }
        }),
{
    reveal_with_fuel(walked, 3);
    let at = lemma_collecting_comes_to(root, r);
    let n = r.len() as int;
    assert forall|u: Seq<Told>, j: int| 0 <= j < u.len() implies #[trigger] (r + u)[n + j] == u[j] by {}
    at.0
}

proof fn lemma_collecting_passes_over(
    root: Seq<char>,
    r: Seq<Told>,
    u: Seq<Told>,
    s: Seq<Told>,
    inside: Option<Seq<char>>,
    list: Seq<BackupMetadata<Seq<char>>>,
)
    requires
        r.len() >= 2,
        walked(root, inside, r + u + s, r.len() as int) == walked(
            root,
            inside,
            r + u + s,
            r.len() as int + u.len(),
        ),
        forall|w: Seq<Told>| #[trigger]
            collecting(root, r + w) == collect_walk(root, index_told(r[1]), r + w, r.len() as int, inside, list),
    ensures
        collecting(root, r + u + s) == collecting(root, r + s),
{
    let n = r.len() as int;
    let m = n + u.len();
    let a = r + u + s;
    let c = r + s;
    assert(a =~= r + (u + s));
    assert(collecting(root, r + (u + s)) == collect_walk(root, index_told(r[1]), r + (u + s), n, inside, list));
    assert forall|k: int| m <= k < a.len() implies #[trigger] a[k] == c[k - m + n] by {}
    lemma_collect_from(root, index_told(r[1]), inside, list, a, m, c, n);
    assert(collect_walk(root, index_told(r[1]), a, n, inside, list) == collect_walk(root, index_told(r[1]), a, m, inside, list));
}

/// What is no backup is passed over: an entry that is no directory, one without metadata
/// or with such as cannot be read, and a folder with nothing in it. All goes on as if it
/// had not been there.
pub proof fn law_collecting_passes_over(
    root: Seq<char>,
    r: Seq<Told>,
    s: Seq<Told>,
    p: Seq<char>,
    b: Option<Seq<char>>,
    x: Told,
    text: Seq<char>,
)
    requires
        collecting(root, r) matches Step::Ask(Effect::NextEntry(_)),
    ensures
        ({
            let then = |u: Seq<Told>| collecting(root, r + u + s);
            let rest = collecting(root, r + s);
            &&& x != Told::Flag(true) ==> then(seq![Told::Entry(p, b), x]) == rest
            &&& match collecting(root, r + seq![Told::Entry(p, b), Told::Flag(true)]) {
                Step::Ask(Effect::OpenDir(_)) => !(x is Failed) ==> then(
                    seq![Told::Entry(p, b), Told::Flag(true), x, Told::Nothing],
                ) == rest,
                _ => {
                    &&& x != Told::Flag(true) ==> then(seq![Told::Entry(p, b), Told::Flag(true), x]) == rest
                    &&& !(x is Text) ==> then(seq![Told::Entry(p, b), Told::Flag(true), Told::Flag(true), x]) == rest
                    &&& !(x is Metadata) ==> then(
                        seq![Told::Entry(p, b), Told::Flag(true), Told::Flag(true), Told::Text(text), x],
                    ) == rest
                },
            }
        }),
{
    let (inside, sofar) = lemma_collecting_comes_to(root, r);
    lemma_walk_passes_over(root, inside, r, s, p, b, x, text);
    let n = r.len() as int;
    let way = r + seq![Told::Entry(p, b), Told::Flag(true)];
    assert(way[n] == Told::Entry(p, b) && way[n + 1] == Told::Flag(true));
    assert(collecting(root, r + seq![Told::Entry(p, b), Told::Flag(true)]) is Ask);
    if x != Told::Flag(true) {
        lemma_collecting_passes_over(root, r, seq![Told::Entry(p, b), x], s, inside, sofar);
    }
    if inside is Some && x != Told::Flag(true) {
        lemma_collecting_passes_over(root, r, seq![Told::Entry(p, b), Told::Flag(true), x], s, inside, sofar);
    }
    if inside is Some && !(x is Text) {
        lemma_collecting_passes_over(root, r, seq![Told::Entry(p, b), Told::Flag(true), Told::Flag(true), x], s, inside, sofar);
    }
    if inside is Some && !(x is Metadata) {
        lemma_collecting_passes_over(root, r, seq![Told::Entry(p, b), Told::Flag(true), Told::Flag(true), Told::Text(text), x], s, inside, sofar);
    }
    if inside is None && !(x is Failed) {
        lemma_collecting_passes_over(root, r, seq![Told::Entry(p, b), Told::Flag(true), x, Told::Nothing], s, inside, sofar);
    }
}

/// Relinking the backups begins with their directory: where there is none there are none
/// to be relinked. What stands in it are the folders of the instances.
pub proof fn law_relinking_begins(
    root: Seq<char>,
    q: Relinking<Seq<char>>,
    x: Told,
    y: Told,
    z: Told,
    p: Seq<char>,
    b: Option<Seq<char>>,
)
    ensures
        relinking(root, q, Seq::empty()) == TaskView::Ask(Effect::IsDir(root)),
        relinking(root, q, seq![x]) == (if x == Told::Flag(true) {
            TaskView::Ask(Effect::OpenDir(root))
        } else {
            TaskView::Answer(Told::Number(0))
        }),
        relinking(root, q, seq![Told::Flag(true), z]) == match z {
            Reply::Failed(e) => TaskView::Answer(Told::Failed("Failed to read backups root: "@ + e)),
            _ => TaskView::Ask(Effect::NextEntry(root)),
        },
        !(z is Failed) ==> {
            &&& relinking(root, q, seq![Told::Flag(true), z, Told::Entry(p, b), Told::Flag(true)]) == TaskView::Ask(Effect::OpenDir(p))
            &&& relinking(root, q, seq![Told::Flag(true), z, Told::Nothing]) == TaskView::Answer(
                Told::Number(0),
            )
        },
{
    reveal_with_fuel(walked, 2);
    assert(seq![Told::Flag(true), z, Told::Entry(p, b), Told::Flag(true)].len() == 4);
    assert(seq![Told::Flag(true), z, Told::Nothing].len() == 3);
}

/// Relinking goes on as each reply asks for. An entry of the backups' directory that is a
/// directory is opened, and an entry of such a folder that is one and holds metadata is a
/// backup; where a folder ends the next one follows, and where the directory ends all
/// is done.
pub proof fn law_relinking_goes_on(
    root: Seq<char>,
    q: Relinking<Seq<char>>,
    r: Seq<Told>,
    p: Seq<char>,
    b: Option<Seq<char>>,
    p2: Seq<char>,
    b2: Option<Seq<char>>,
    e: Seq<char>,
    x: Told,
    text: Seq<char>,
) -> (inside: Option<Seq<char>>)
    requires
        relinking(root, q, r) matches Step::Ask(Effect::NextEntry(_)),
        !(x is Failed),
    ensures
        ({
            let then = |u: Seq<Told>| relinking(root, q, r + u);
            &&& then(seq![Told::Entry(p, b)]) == TaskView::Ask(Effect::IsDir(p))
            &&& match inside {
                None => {
                    &&& relinking(root, q, r) == TaskView::Ask(Effect::NextEntry(root))
                    &&& then(seq![Told::Failed(e)]) == TaskView::Answer(Told::Failed("Failed to read backups entry: "@ + e))
                    &&& then(seq![Told::Entry(p, b), Told::Flag(true)]) == TaskView::Ask(Effect::OpenDir(p))
                    &&& then(seq![Told::Entry(p, b), Told::Flag(true), Told::Failed(e)]) == TaskView::Answer(Told::Failed("Failed to read instance backup folder: "@ + e))
                    &&& then(seq![Told::Entry(p, b), Told::Flag(true), x]) == TaskView::Ask(Effect::NextEntry(p))
                    &&& then(seq![Told::Entry(p, b), Told::Flag(true), x, Told::Entry(p2, b2), Told::Flag(true)]) == TaskView::Ask(Effect::IsFile(joined_path(p2, "meta.json"@)))
                    &&& then(seq![Told::Nothing]) is Answer
                },
                Some(f) => {
                    &&& relinking(root, q, r) == TaskView::Ask(Effect::NextEntry(f))
                    &&& then(seq![Told::Failed(e)]) == TaskView::Answer(Told::Failed("Failed to read backup entry: "@ + e))
                    &&& then(seq![Told::Entry(p, b), Told::Flag(true)]) == TaskView::Ask(Effect::IsFile(joined_path(p, "meta.json"@)))
                    &&& then(seq![Told::Entry(p, b), Told::Flag(true), Told::Flag(true)]) == TaskView::Ask(Effect::ReadText(joined_path(p, "meta.json"@)))
                    &&& then(seq![Told::Entry(p, b), Told::Flag(true), Told::Flag(true), Told::Text(text)]) == TaskView::Ask(Effect::ParseMetadata(text))
                    &&& then(seq![Told::Nothing]) == TaskView::Ask(Effect::NextEntry(root))
                    &&& then(seq![Told::Nothing, Told::Entry(p, b), Told::Flag(true)]) == TaskView::Ask(Effect::OpenDir(p))
                    &&& then(seq![Told::Nothing, Told::Nothing]) is Answer
                },
            }
        }),
{
    reveal_with_fuel(walked, 3);
    let at = lemma_relinking_comes_to(root, q, r);
    let n = r.len() as int;
    assert forall|u: Seq<Told>, j: int| 0 <= j < u.len() implies #[trigger] (r + u)[n + j] == u[j] by {}
    at.0
}

proof fn lemma_relinking_passes_over(
    root: Seq<char>,
    q: Relinking<Seq<char>>,
    r: Seq<Told>,
    u: Seq<Told>,
    s: Seq<Told>,
    inside: Option<Seq<char>>,
    count: nat,
)
    requires
        r.len() >= 2,
        walked(root, inside, r + u + s, r.len() as int) == walked(
            root,
            inside,
            r + u + s,
            r.len() as int + u.len(),
        ),
        forall|w: Seq<Told>| #[trigger]
            relinking(root, q, r + w) == relink_walk(root, q, r + w, r.len() as int, inside, count),
    ensures
        relinking(root, q, r + u + s) == relinking(root, q, r + s),
{
    let n = r.len() as int;
    let m = n + u.len();
    let a = r + u + s;
    let c = r + s;
    assert(a =~= r + (u + s));
    assert(relinking(root, q, r + (u + s)) == relink_walk(root, q, r + (u + s), n, inside, count));
    assert forall|k: int| m <= k < a.len() implies #[trigger] a[k] == c[k - m + n] by {}
    lemma_relink_from(root, q, inside, count, a, m, c, n);
    assert(relink_walk(root, q, a, n, inside, count) == relink_walk(root, q, a, m, inside, count));
}

/// What is no backup is passed over: an entry that is no directory, one without metadata
/// or with such as cannot be read, and a folder with nothing in it. All goes on as if it
/// had not been there.
pub proof fn law_relinking_passes_over(
    root: Seq<char>,
    q: Relinking<Seq<char>>,
    r: Seq<Told>,
    s: Seq<Told>,
    p: Seq<char>,
    b: Option<Seq<char>>,
    x: Told,
    text: Seq<char>,
)
    requires
        relinking(root, q, r) matches Step::Ask(Effect::NextEntry(_)),
    ensures
        ({
            let then = |u: Seq<Told>| relinking(root, q, r + u + s);
            let rest = relinking(root, q, r + s);
            &&& x != Told::Flag(true) ==> then(seq![Told::Entry(p, b), x]) == rest
            &&& match relinking(root, q, r + seq![Told::Entry(p, b), Told::Flag(true)]) {
                Step::Ask(Effect::OpenDir(_)) => !(x is Failed) ==> then(
                    seq![Told::Entry(p, b), Told::Flag(true), x, Told::Nothing],
                ) == rest,
                _ => {
                    &&& x != Told::Flag(true) ==> then(seq![Told::Entry(p, b), Told::Flag(true), x]) == rest
                    &&& !(x is Text) ==> then(seq![Told::Entry(p, b), Told::Flag(true), Told::Flag(true), x]) == rest
                    &&& !(x is Metadata) ==> then(
                        seq![Told::Entry(p, b), Told::Flag(true), Told::Flag(true), Told::Text(text), x],
                    ) == rest
                },
            }
        }),
{
    let (inside, sofar) = lemma_relinking_comes_to(root, q, r);
    lemma_walk_passes_over(root, inside, r, s, p, b, x, text);
    let n = r.len() as int;
    let way = r + seq![Told::Entry(p, b), Told::Flag(true)];
    assert(way[n] == Told::Entry(p, b) && way[n + 1] == Told::Flag(true));
    assert(relinking(root, q, r + seq![Told::Entry(p, b), Told::Flag(true)]) is Ask);
    if x != Told::Flag(true) {
        lemma_relinking_passes_over(root, q, r, seq![Told::Entry(p, b), x], s, inside, sofar);
    }
    if inside is Some && x != Told::Flag(true) {
        lemma_relinking_passes_over(root, q, r, seq![Told::Entry(p, b), Told::Flag(true), x], s, inside, sofar);
    }
    if inside is Some && !(x is Text) {
        lemma_relinking_passes_over(root, q, r, seq![Told::Entry(p, b), Told::Flag(true), Told::Flag(true), x], s, inside, sofar);
    }
    if inside is Some && !(x is Metadata) {
        lemma_relinking_passes_over(root, q, r, seq![Told::Entry(p, b), Told::Flag(true), Told::Flag(true), Told::Text(text), x], s, inside, sofar);
    }
    if inside is None && !(x is Failed) {
        lemma_relinking_passes_over(root, q, r, seq![Told::Entry(p, b), Told::Flag(true), x, Told::Nothing], s, inside, sofar);
    }
}

/// A backup is healed where its metadata leaves something unsaid: the identity is the one
/// that its files hold, the proof is that of the identity, and the name is the one that
/// the instance with that proof bears now. Nothing else of it changes, and nothing that
/// it says of itself is replaced but the name.
pub proof fn law_what_is_healed(
    m: BackupMetadata<Seq<char>>,
    in_files: Option<Seq<char>>,
    index: Seq<(Seq<char>, Seq<char>)>,
)
    ensures
        ({
            let h = healed(m, in_files, index);
            &&& h.id == m.id
            &&& h.created_at_unix == m.created_at_unix
            &&& h.size_bytes == m.size_bytes
            &&& h.file_count == m.file_count
            &&& m.source_instance_id is Some ==> h.source_instance_id == m.source_instance_id
            &&& m.source_instance_id is None ==> h.source_instance_id == in_files
            &&& m.source_instance_proof_sha256 is Some ==> h.source_instance_proof_sha256
                == m.source_instance_proof_sha256
            &&& m.source_instance_proof_sha256 is None ==> match h.source_instance_id {
                Some(identity) => h.source_instance_proof_sha256 == Some(proof_of(identity)),
                None => h.source_instance_proof_sha256 is None,
            }
            &&& match h.source_instance_proof_sha256 {
                Some(d) => if indexed(index, d) is Some {
                    h.source_instance == indexed(index, d)->0
                } else {
                    h.source_instance == m.source_instance
                },
                None => h.source_instance == m.source_instance,
            }
        }),
{
}

/// A backup is relinked where it is of the renamed instance, by its identity or its proof,
/// or by the old name where it has no proof or where its proof is that of no instance; and
/// only where that changes it. It then has the new name and the instance's identity and
/// proof, and is otherwise as it was.
pub proof fn law_what_is_relinked(
    m: BackupMetadata<Seq<char>>,
    q: Relinking<Seq<char>>,
    orphan: bool,
)
    ensures
        ({
            let of_it = m.source_instance_id == Some(q.identity) || m.source_instance_proof_sha256
                == Some(q.digest) || m.source_instance == q.old_name
                && m.source_instance_proof_sha256 is None;
            let is_so = m.source_instance == q.new_name && m.source_instance_id == Some(q.identity)
                && m.source_instance_proof_sha256 == Some(q.digest);
            match relink_update(m, q, orphan) {
                None => !(of_it || orphan) || is_so,
                Some(now) => {
                    &&& of_it || orphan
                    &&& !is_so
                    &&& now.source_instance == q.new_name
                    &&& now.source_instance_id == Some(q.identity)
                    &&& now.source_instance_proof_sha256 == Some(q.digest)
                    &&& now.id == m.id
                    &&& now.created_at_unix == m.created_at_unix
                    &&& now.size_bytes == m.size_bytes
                    &&& now.file_count == m.file_count
                },
            }
        }),
        may_be_orphan(m, q) <==> {
            &&& m.source_instance == q.old_name
            &&& m.source_instance_id != Some(q.identity)
            &&& m.source_instance_proof_sha256 is Some
            &&& m.source_instance_proof_sha256 != Some(q.digest)
        },
{
}

/// What is heard of a backup up to its metadata.
pub open spec fn heard_backup(
    p: Seq<char>,
    b: Option<Seq<char>>,
    text: Seq<char>,
    m: BackupMetadata<Seq<char>>,
) -> Seq<Told> {
    seq![
        Told::Entry(p, b),
        Told::Flag(true),
        Told::Flag(true),
        Told::Text(text),
        Told::Metadata(m),
    ]
}

/// What is told of the backups where nothing more of them is there.
pub open spec fn collected_in_the_end(
    root: Seq<char>,
    r: Seq<Told>,
    found: Seq<BackupMetadata<Seq<char>>>,
) -> bool {
    collecting(root, r + seq![Told::Nothing, Told::Nothing]) == CollectView::Answer(
        Collected::Backups(found),
    )
}

proof fn lemma_collect_takes(
    root: Seq<char>,
    index: Seq<(Seq<char>, Seq<char>)>,
    r: Seq<Told>,
    f: Seq<char>,
    list: Seq<BackupMetadata<Seq<char>>>,
    p: Seq<char>,
    b: Option<Seq<char>>,
    text: Seq<char>,
    m: BackupMetadata<Seq<char>>,
    pre: Seq<Told>,
    tail: Seq<Told>,
)
    requires
        pre.len() == (if m.source_instance_id is None {
            1int
        } else {
            0
        }),
    ensures
        ({
            let q = r + (heard_backup(p, b, text, m) + (pre + tail));
            let k = r.len() + 5 + pre.len();
            let in_files = if pre.len() == 1 {
                pre[0].text()
            } else {
                None
            };
            let h = healed(m, in_files, index);
            let go = |j: int| collect_walk(root, index, q, k + j, Some(f), list.push(h));
            collect_walk(root, index, q, r.len() as int, Some(f), list) == (if h == m {
                go(0)
            } else if tail.len() == 0 {
                CollectView::Ask(Effect::EncodeMetadata(h))
            } else {
                match tail[0] {
                    Reply::Text(json) => if tail.len() == 1 {
                        CollectView::Ask(Effect::WriteText(joined_path(p, "meta.json"@), json))
                    } else {
                        go(2)
                    },
                    _ => go(1),
                }
            })
        }),
        pre.len() == 1 ==> collect_walk(
            root,
            index,
            r + heard_backup(p, b, text, m),
            r.len() as int,
            Some(f),
            list,
        ) == CollectView::Ask(Effect::ReadIdentity(joined_path(p, "files"@))),
{
    let n = r.len() as int;
    let q = r + (heard_backup(p, b, text, m) + (pre + tail));
    lemma_walk_finds(root, f, r, p, b, text, m, pre + tail);
    lemma_walk_finds(root, f, r, p, b, text, m, Seq::empty());
    assert(heard_backup(p, b, text, m) + Seq::<Told>::empty() =~= heard_backup(p, b, text, m));
    if pre.len() == 1 {
        assert(q[n + 5 + 0] == pre[0]);
    }
    if tail.len() > 0 {
        assert(q[n + 5 + pre.len()] == tail[0]);
    }
}

proof fn lemma_collect_ends(
    root: Seq<char>,
    index: Seq<(Seq<char>, Seq<char>)>,
    r: Seq<Told>,
    f: Seq<char>,
    list: Seq<BackupMetadata<Seq<char>>>,
)
    ensures
        collect_walk(root, index, r, r.len() as int, Some(f), list) == CollectView::Ask(
            Effect::NextEntry(f),
        ),
        collect_walk(
            root,
            index,
            r + seq![Told::Nothing, Told::Nothing],
            r.len() as int,
            Some(f),
            list,
        ) == CollectView::Answer(Collected::Backups(sorted::<BackupMetadata<String>>(list))),
{
    reveal_with_fuel(walked, 3);
    let e = r + seq![Told::Nothing, Told::Nothing];
    assert(e[r.len() as int] == Told::Nothing && e[r.len() as int + 1] == Told::Nothing);
}

proof fn lemma_collected(
    root: Seq<char>,
    r: Seq<Told>,
    f: Seq<char>,
    list: Seq<BackupMetadata<Seq<char>>>,
    p: Seq<char>,
    b: Option<Seq<char>>,
    text: Seq<char>,
    m: BackupMetadata<Seq<char>>,
    h: BackupMetadata<Seq<char>>,
    pre: Seq<Told>,
    tail: Seq<Told>,
    known: Seq<Told>,
)
    requires
        forall|w: Seq<Told>| #[trigger]
            collecting(root, r + w) == collect_walk(
                root,
                index_told(r[1]),
                r + w,
                r.len() as int,
                Some(f),
                list,
            ),
        pre.len() == (if m.source_instance_id is None {
            1int
        } else {
            0
        }),
        h == healed(
            m,
            if pre.len() == 1 {
                pre[0].text()
            } else {
                None
            },
            index_told(r[1]),
        ),
        known == r + (heard_backup(p, b, text, m) + (pre + tail)),
        tail.len() == (if h == m {
            0int
        } else {
            match tail[0] {
                Reply::Text(_) => 2,
                _ => 1,
            }
        }),
    ensures
        collecting(root, known) == CollectView::Ask(Effect::NextEntry(f)),
        collected_in_the_end(root, known, sorted::<BackupMetadata<String>>(list.push(h))),
{
    let index = index_told(r[1]);
    let two = seq![Told::Nothing, Told::Nothing];
    let u = heard_backup(p, b, text, m);
    lemma_collect_takes(root, index, r, f, list, p, b, text, m, pre, tail);
    lemma_collect_takes(root, index, r, f, list, p, b, text, m, pre, tail + two);
    lemma_collect_ends(root, index, known, f, list.push(h));
    assert(known + two =~= r + (u + (pre + (tail + two))));
    if tail.len() > 0 {
        assert((tail + two)[0] == tail[0]);
    } else {
        assert(pre + (tail + two) =~= pre + two);
    }
}

/// Each backup is collected, whatever was collected before: it is healed, by the identity
/// in its files where it names none, is told of among the others, and what changed is
/// written beside it as far as that can be done.
pub proof fn law_each_backup_is_collected(
    root: Seq<char>,
    r: Seq<Told>,
    p: Seq<char>,
    b: Option<Seq<char>>,
    text: Seq<char>,
    m: BackupMetadata<Seq<char>>,
    x: Told,
    y: Told,
    z: Told,
    before: Seq<BackupMetadata<Seq<char>>>,
) -> (after: Seq<BackupMetadata<Seq<char>>>)
    requires
        collecting(root, r) matches Step::Ask(Effect::NextEntry(_)),
        collecting(root, r + seq![Told::Entry(p, b), Told::Flag(true)]) matches Step::Ask(
            Effect::IsFile(_),
        ),
        collected_in_the_end(root, r, before),
    ensures
        ({
            let index = match r[1] {
                Reply::Index(index) => index,
                _ => Seq::empty(),
            };
            let asks = m.source_instance_id is None;
            let in_files = match x {
                Reply::Text(identity) if asks => Some(identity),
                _ => None,
            };
            let h = healed(m, in_files, index);
            let found = r + heard_backup(p, b, text, m);
            let known = if asks {
                found + seq![x]
            } else {
                found
            };
            &&& after.to_multiset() == before.to_multiset().insert(h)
            &&& in_order::<BackupMetadata<String>>(after)
            &&& asks ==> collecting(root, found) == CollectView::Ask(
                Effect::ReadIdentity(joined_path(p, "files"@)),
            )
            &&& if h == m {
                &&& collecting(root, known) == collecting(root, r)
                &&& collected_in_the_end(root, known, after)
            } else {
                &&& collecting(root, known) == CollectView::Ask(Effect::EncodeMetadata(h))
                &&& match y {
                    Reply::Text(json) => {
                        &&& collecting(root, known + seq![y]) == CollectView::Ask(
                            Effect::WriteText(joined_path(p, "meta.json"@), json),
                        )
                        &&& collecting(root, known + seq![y, z]) == collecting(root, r)
                        &&& collected_in_the_end(root, known + seq![y, z], after)
                    },
                    _ => {
                        &&& collecting(root, known + seq![y]) == collecting(root, r)
                        &&& collected_in_the_end(root, known + seq![y], after)
                    },
                }
            }
        }),
{
    let (inside, list) = lemma_collecting_comes_to(root, r);
    let n = r.len() as int;
    let u = heard_backup(p, b, text, m);
    let two = seq![Told::Nothing, Told::Nothing];
    let asks = m.source_instance_id is None;
    let none = Seq::<Told>::empty();
    let pre = if asks {
        seq![x]
    } else {
        none
    };
    let known = if asks {
        r + u + seq![x]
    } else {
        r + u
    };
    let way = r + seq![Told::Entry(p, b), Told::Flag(true)];
    assert(way[n] == Told::Entry(p, b) && way[n + 1] == Told::Flag(true));
    assert(collecting(root, way) is Ask);
    assert(inside is Some);
    let f = inside->0;
    let index = index_told(r[1]);
    let in_files = match x {
        Reply::Text(identity) if asks => Some(identity),
        _ => None,
    };
    let h = healed(m, in_files, index);
    let more = list.push(h);
    lemma_collect_ends(root, index, r, f, list);
    assert(collecting(root, r + two) == collect_walk(root, index, r + two, n, inside, list));
    assert(known =~= r + (u + (pre + none)));
    lemma_collect_takes(root, index, r, f, list, p, b, text, m, pre, none);
    if h == m {
        lemma_collected(root, r, f, list, p, b, text, m, h, pre, none, known);
    } else if y is Text {
        assert(known + seq![y] =~= r + (u + (pre + seq![y])));
        lemma_collect_takes(root, index, r, f, list, p, b, text, m, pre, seq![y]);
        assert(known + seq![y, z] =~= r + (u + (pre + seq![y, z])));
        let both = seq![y, z];
        lemma_collected(root, r, f, list, p, b, text, m, h, pre, both, known + both);
    } else {
        assert(known + seq![y] =~= r + (u + (pre + seq![y])));
        lemma_collected(root, r, f, list, p, b, text, m, h, pre, seq![y], known + seq![y]);
    }
    law_sorted::<BackupMetadata<String>>(list);
    law_sorted::<BackupMetadata<String>>(more);
    assert(more.to_multiset() == list.to_multiset().insert(h)) by {
        broadcast use vstd::seq_lib::group_to_multiset_ensures;

    }
    sorted::<BackupMetadata<String>>(list.push(h))
}

/// How many backups were relinked where nothing more of them is there.
pub open spec fn relinked_in_the_end(
    root: Seq<char>,
    q: Relinking<Seq<char>>,
    r: Seq<Told>,
    count: u64,
) -> bool {
    relinking(root, q, r + seq![Told::Nothing, Told::Nothing]) == TaskView::Answer(
        Told::Number(count),
    )
}

proof fn lemma_relink_takes(
    root: Seq<char>,
    q: Relinking<Seq<char>>,
    r: Seq<Told>,
    f: Seq<char>,
    count: nat,
    p: Seq<char>,
    b: Option<Seq<char>>,
    text: Seq<char>,
    m: BackupMetadata<Seq<char>>,
    pre: Seq<Told>,
    tail: Seq<Told>,
)
    requires
        pre.len() == (if may_be_orphan(m, q) {
            1int
        } else {
            0
        }),
    ensures
        ({
            let t = r + (heard_backup(p, b, text, m) + (pre + tail));
            let k = r.len() + 5 + pre.len();
            let meta = joined_path(p, "meta.json"@);
            let orphan = pre.len() == 1 && pre[0] is Nothing;
            let now = relink_walk(root, q, t, r.len() as int, Some(f), count);
            match relink_update(m, q, orphan) {
                None => now == relink_walk(root, q, t, k as int, Some(f), count),
                Some(new) => if tail.len() == 0 {
                    now == TaskView::Ask(Effect::EncodeMetadata(new))
                } else {
                    match tail[0] {
                        Reply::Text(json) => if tail.len() == 1 {
                            now == TaskView::Ask(Effect::WriteText(meta, json))
                        } else {
                            match tail[1] {
                                Reply::Failed(e) => now == TaskView::Answer(
                                    Told::Failed(
                                        "Failed to write backup metadata "@ + meta + ": "@ + e,
                                    ),
                                ),
                                _ => now == relink_walk(root, q, t, k as int + 2, Some(f), count + 1),
                            }
                        },
                        Reply::Failed(e) => now == TaskView::Answer(
                            Told::Failed("Failed to encode backup metadata "@ + meta + ": "@ + e),
                        ),
                        _ => now matches Step::Answer(Reply::Failed(_)),
                    }
                },
            }
        }),
        pre.len() == 1 ==> relink_walk(
            root,
            q,
            r + heard_backup(p, b, text, m),
            r.len() as int,
            Some(f),
            count,
        ) == TaskView::Ask(Effect::FindByProof(m.source_instance_proof_sha256->0)),
{
    let n = r.len() as int;
    let t = r + (heard_backup(p, b, text, m) + (pre + tail));
    lemma_walk_finds(root, f, r, p, b, text, m, pre + tail);
    lemma_walk_finds(root, f, r, p, b, text, m, Seq::empty());
    assert(heard_backup(p, b, text, m) + Seq::<Told>::empty() =~= heard_backup(p, b, text, m));
    if pre.len() == 1 {
        assert(t[n + 5 + 0] == pre[0]);
    }
    if tail.len() > 0 {
        assert(t[n + 5 + pre.len()] == tail[0]);
    }
    if tail.len() > 1 {
        assert(t[n + 5 + (pre.len() + 1)] == tail[1]);
    }
}

proof fn lemma_relink_ends(
    root: Seq<char>,
    q: Relinking<Seq<char>>,
    r: Seq<Told>,
    f: Seq<char>,
    count: nat,
)
    ensures
        relink_walk(root, q, r, r.len() as int, Some(f), count) == TaskView::Ask(
            Effect::NextEntry(f),
        ),
        relink_walk(
            root,
            q,
            r + seq![Told::Nothing, Told::Nothing],
            r.len() as int,
            Some(f),
            count,
        ) == TaskView::Answer(Told::Number(count as u64)),
{
    reveal_with_fuel(walked, 3);
    let e = r + seq![Told::Nothing, Told::Nothing];
    assert(e[r.len() as int] == Told::Nothing && e[r.len() as int + 1] == Told::Nothing);
}

proof fn lemma_relinked(
    root: Seq<char>,
    q: Relinking<Seq<char>>,
    r: Seq<Told>,
    f: Seq<char>,
    count: nat,
    p: Seq<char>,
    b: Option<Seq<char>>,
    text: Seq<char>,
    m: BackupMetadata<Seq<char>>,
    pre: Seq<Told>,
    tail: Seq<Told>,
    known: Seq<Told>,
)
    requires
        forall|w: Seq<Told>| #[trigger]
            relinking(root, q, r + w) == relink_walk(
                root,
                q,
                r + w,
                r.len() as int,
                Some(f),
                count,
            ),
        pre.len() == (if may_be_orphan(m, q) {
            1int
        } else {
            0
        }),
        known == r + (heard_backup(p, b, text, m) + (pre + tail)),
        match relink_update(m, q, pre.len() == 1 && pre[0] is Nothing) {
            None => tail.len() == 0,
            Some(_) => tail.len() == 2 && tail[0] is Text && !(tail[1] is Failed),
        },
    ensures
        relinking(root, q, known) == TaskView::Ask(Effect::NextEntry(f)),
        relinked_in_the_end(
            root,
            q,
            known,
            (if tail.len() == 0 {
                count
            } else {
                count + 1
            }) as u64,
        ),
{
    let two = seq![Told::Nothing, Told::Nothing];
    let u = heard_backup(p, b, text, m);
    lemma_relink_takes(root, q, r, f, count, p, b, text, m, pre, tail);
    lemma_relink_takes(root, q, r, f, count, p, b, text, m, pre, tail + two);
    lemma_relink_ends(root, q, known, f, count);
    lemma_relink_ends(root, q, known, f, count + 1);
    assert(known + two =~= r + (u + (pre + (tail + two))));
    if tail.len() > 0 {
        assert((tail + two)[0] == tail[0]);
        assert((tail + two)[1] == tail[1]);
    } else {
        assert(pre + (tail + two) =~= pre + two);
    }
}

/// Each backup is looked at, whatever came before: one that may have lost its instance is
/// an orphan where no instance has its proof; one that is relinked is written with its new
/// metadata and counted, and every other is left as it is.
pub proof fn law_each_backup_is_relinked(
    root: Seq<char>,
    q: Relinking<Seq<char>>,
    r: Seq<Told>,
    p: Seq<char>,
    b: Option<Seq<char>>,
    text: Seq<char>,
    m: BackupMetadata<Seq<char>>,
    x: Told,
    y: Told,
    z: Told,
    count: u64,
)
    requires
        relinking(root, q, r) matches Step::Ask(Effect::NextEntry(_)),
        relinking(root, q, r + seq![Told::Entry(p, b), Told::Flag(true)]) matches Step::Ask(
            Effect::IsFile(_),
        ),
        relinked_in_the_end(root, q, r, count),
        r.len() < u64::MAX,
    ensures
        ({
            let asks = may_be_orphan(m, q);
            let update = relink_update(m, q, asks && x is Nothing);
            let found = r + heard_backup(p, b, text, m);
            let known = if asks {
                found + seq![x]
            } else {
                found
            };
            let meta = joined_path(p, "meta.json"@);
            &&& asks ==> m.source_instance_proof_sha256 is Some && relinking(root, q, found)
                == TaskView::Ask(Effect::FindByProof(m.source_instance_proof_sha256->0))
            &&& match update {
                None => {
                    &&& relinking(root, q, known) == relinking(root, q, r)
                    &&& relinked_in_the_end(root, q, known, count)
                },
                Some(now) => {
                    &&& relinking(root, q, known) == TaskView::Ask(Effect::EncodeMetadata(now))
                    &&& match y {
                        Reply::Text(json) => {
                            &&& relinking(root, q, known + seq![y]) == TaskView::Ask(
                                Effect::WriteText(meta, json),
                            )
                            &&& match z {
                                Reply::Failed(e) => relinking(root, q, known + seq![y, z])
                                    == TaskView::Answer(
                                    Told::Failed(
                                        "Failed to write backup metadata "@ + meta + ": "@ + e,
                                    ),
                                ),
                                _ => {
                                    &&& relinking(root, q, known + seq![y, z]) == relinking(
                                        root,
                                        q,
                                        r,
                                    )
                                    &&& count < u64::MAX
                                    &&& relinked_in_the_end(
                                        root,
                                        q,
                                        known + seq![y, z],
                                        (count + 1) as u64,
                                    )
                                },
                            }
                        },
                        Reply::Failed(e) => relinking(root, q, known + seq![y])
                            == TaskView::Answer(
                            Told::Failed("Failed to encode backup metadata "@ + meta + ": "@ + e),
                        ),
                        _ => relinking(root, q, known + seq![y]) matches Step::Answer(
                            Reply::Failed(_),
                        ),
                    }
                },
            }
        }),
{
    let (inside, told) = lemma_relinking_comes_to(root, q, r);
    let n = r.len() as int;
    let u = heard_backup(p, b, text, m);
    let two = seq![Told::Nothing, Told::Nothing];
    let asks = may_be_orphan(m, q);
    let none = Seq::<Told>::empty();
    let pre = if asks {
        seq![x]
    } else {
        none
    };
    let known = if asks {
        r + u + seq![x]
    } else {
        r + u
    };
    let way = r + seq![Told::Entry(p, b), Told::Flag(true)];
    assert(way[n] == Told::Entry(p, b) && way[n + 1] == Told::Flag(true));
    assert(relinking(root, q, way) is Ask);
    assert(inside is Some);
    let f = inside->0;
    lemma_relink_ends(root, q, r, f, told);
    assert(relinking(root, q, r + two) == relink_walk(root, q, r + two, n, inside, told));
    assert(told == count);
    assert(known =~= r + (u + (pre + none)));
    lemma_relink_takes(root, q, r, f, told, p, b, text, m, pre, none);
    if relink_update(m, q, asks && x is Nothing) is None {
        lemma_relinked(root, q, r, f, told, p, b, text, m, pre, none, known);
    } else {
        assert(known + seq![y] =~= r + (u + (pre + seq![y])));
        lemma_relink_takes(root, q, r, f, told, p, b, text, m, pre, seq![y]);
        if y is Text {
            let both = seq![y, z];
            assert(known + both =~= r + (u + (pre + both)));
            if z is Failed {
                lemma_relink_takes(root, q, r, f, told, p, b, text, m, pre, both);
            } else {
                lemma_relinked(root, q, r, f, told, p, b, text, m, pre, both, known + both);
            }
        }
    }
}

proof fn lemma_locate_goes_on(root: Seq<char>, id: Seq<char>, r: Seq<Told>, i: int, x: Told)
    requires
        0 <= i <= r.len(),
    ensures
        ({
            let fault = |e: Seq<char>| TaskView::Answer(Told::Failed(e));
            let next = locate_walk(root, id, r.push(x), i);
            match locate_walk(root, id, r, i) {
                Step::Ask(Effect::NextEntry(d)) => d == root && next == match x {
                    Reply::Failed(e) => fault("Failed to read backups entry: "@ + e),
                    Reply::Entry(folder, _) => TaskView::Ask(Effect::IsDir(folder)),
                    _ => fault("Backup not found"@),
                },
                Step::Ask(Effect::IsDir(d)) => if r.len() > i && r.last() is Entry {
                    &&& r.last()->Entry_0 == d
                    &&& next == TaskView::Ask(
                        if x == Told::Flag(true) {
                            Effect::IsDir(joined_path(d, id))
                        } else {
                            Effect::NextEntry(root)
                        },
                    )
                } else {
                    &&& r.len() > i + 1
                    &&& r[r.len() - 2] is Entry
                    &&& d == joined_path(r[r.len() - 2]->Entry_0, id)
                    &&& next == TaskView::Ask(
                        if x == Told::Flag(true) {
                            Effect::IsFile(joined_path(d, "meta.json"@))
                        } else {
                            Effect::NextEntry(root)
                        },
                    )
                },
                Step::Ask(Effect::IsFile(meta)) => {
                    &&& r.len() > i + 2
                    &&& r[r.len() - 3] is Entry
                    &&& meta == joined_path(
                        joined_path(r[r.len() - 3]->Entry_0, id),
                        "meta.json"@,
                    )
                    &&& next == (if x == Told::Flag(true) {
                        TaskView::Ask(Effect::ReadText(meta))
                    } else {
                        fault("Backup metadata is missing"@)
                    })
                },
                Step::Ask(Effect::ReadText(meta)) => {
                    &&& r.len() > i + 3
                    &&& r[r.len() - 4] is Entry
                    &&& meta == joined_path(
                        joined_path(r[r.len() - 4]->Entry_0, id),
                        "meta.json"@,
                    )
                    &&& match x {
                        Reply::Text(text) => next == TaskView::Ask(Effect::ParseMetadata(text)),
                        Reply::Failed(e) => next == fault(
                            "Failed to read backup metadata "@ + meta + ": "@ + e,
                        ),
                        _ => next matches Step::Answer(Reply::Failed(_)),
                    }
                },
                Step::Ask(Effect::ParseMetadata(_)) => {
                    let folder = r[r.len() - 5]->Entry_0;
                    let path = joined_path(folder, id);
                    &&& r.len() > i + 4
                    &&& r[r.len() - 5] is Entry
                    &&& match x {
                        Reply::Metadata(m) => next == TaskView::Answer(
                            Told::Backup(folder, path, m),
                        ),
                        Reply::Failed(e) => next == fault(
                            "Invalid backup metadata "@ + joined_path(path, "meta.json"@) + ": "@
                                + e,
                        ),
                        _ => next matches Step::Answer(Reply::Failed(_)),
                    }
                },
                Step::Ask(_) => false,
                Step::Answer(a) => next == TaskView::Answer(a),
            }
        }),
    decreases r.len() - i,
{
    reveal_with_fuel(locate_walk, 2);
    let q = r.push(x);
    assert forall|j: int| 0 <= j < r.len() implies q[j] == r[j] by {}
    assert(q[r.len() as int] == x);
    if i < r.len() && r[i] is Entry && i + 1 < r.len() {
        if !r[i + 1].yes() {
            lemma_locate_goes_on(root, id, r, i + 2, x);
        } else if i + 2 < r.len() && !r[i + 2].yes() {
            lemma_locate_goes_on(root, id, r, i + 3, x);
        }
    }
}

/// Finding a backup goes on as each reply asks for. In each folder of the backups'
/// directory the backup is looked for by its identifier, and the first that is there is
/// the one: its metadata is read, or it is told why that could not be done.
pub proof fn law_finding_backup_goes_on(root: Seq<char>, id: Seq<char>, r: Seq<Told>, x: Told)
    ensures
        locating(root, id, Seq::empty()) == TaskView::Ask(Effect::IsDir(root)),
        locating(root, id, seq![x]) == (if x == Told::Flag(true) {
            TaskView::Ask(Effect::OpenDir(root))
        } else {
            TaskView::Answer(Told::Failed("No backups found"@))
        }),
        locating(root, id, seq![Told::Flag(true), x]) == match x {
            Reply::Failed(e) => TaskView::Answer(
                Told::Failed("Failed to read backups root: "@ + e),
            ),
            _ => TaskView::Ask(Effect::NextEntry(root)),
        },
        r.len() >= 2 ==> ({
            let fault = |e: Seq<char>| TaskView::Answer(Told::Failed(e));
            let next = locating(root, id, r.push(x));
            match locating(root, id, r) {
                Step::Ask(Effect::NextEntry(d)) => d == root && next == match x {
                    Reply::Failed(e) => fault("Failed to read backups entry: "@ + e),
                    Reply::Entry(folder, _) => TaskView::Ask(Effect::IsDir(folder)),
                    _ => fault("Backup not found"@),
                },
                Step::Ask(Effect::IsDir(d)) => if r.last() is Entry {
                    &&& r.last()->Entry_0 == d
                    &&& next == TaskView::Ask(
                        if x == Told::Flag(true) {
                            Effect::IsDir(joined_path(d, id))
                        } else {
                            Effect::NextEntry(root)
                        },
                    )
                } else {
                    &&& r[r.len() - 2] is Entry
                    &&& d == joined_path(r[r.len() - 2]->Entry_0, id)
                    &&& next == TaskView::Ask(
                        if x == Told::Flag(true) {
                            Effect::IsFile(joined_path(d, "meta.json"@))
                        } else {
                            Effect::NextEntry(root)
                        },
                    )
                },
                Step::Ask(Effect::IsFile(meta)) => next == (if x == Told::Flag(true) {
                    TaskView::Ask(Effect::ReadText(meta))
                } else {
                    fault("Backup metadata is missing"@)
                }),
                Step::Ask(Effect::ReadText(meta)) => match x {
                    Reply::Text(text) => next == TaskView::Ask(Effect::ParseMetadata(text)),
                    Reply::Failed(e) => next == fault(
                        "Failed to read backup metadata "@ + meta + ": "@ + e,
                    ),
                    _ => next matches Step::Answer(Reply::Failed(_)),
                },
                Step::Ask(Effect::ParseMetadata(_)) => {
                    let folder = r[r.len() - 5]->Entry_0;
                    let path = joined_path(folder, id);
                    &&& r.len() >= 7
                    &&& r[r.len() - 5] is Entry
                    &&& match x {
                        Reply::Metadata(m) => next == TaskView::Answer(
                            Told::Backup(folder, path, m),
                        ),
                        Reply::Failed(e) => next == fault(
                            "Invalid backup metadata "@ + joined_path(path, "meta.json"@) + ": "@
                                + e,
                        ),
                        _ => next matches Step::Answer(Reply::Failed(_)),
                    }
                },
                Step::Ask(_) => r.len() < 2,
                Step::Answer(a) => next == TaskView::Answer(a),
            }
        }),
{
    if r.len() >= 2 {
        assert(r.push(x)[0] == r[0] && r.push(x)[1] == r[1]);
        if !(r[1] is Failed) {
            lemma_locate_goes_on(root, id, r, 2, x);
        }
    }
}

/// The backups are told from the newest to the oldest.
pub proof fn law_newer_backup_comes_first(root: Seq<char>, r: Seq<Told>, i: int, j: int)
    ensures
        collecting(root, r) matches Step::Answer(Collected::Backups(found)) ==> (0 <= i < j
            < found.len() ==> found[i].created_at_unix >= found[j].created_at_unix),
{
    law_backups_are_told_newest_first(root, r);
}

} // verus!
