//! The requests that make, restore and delete backups.
use vstd::arithmetic::power::pow;
use vstd::prelude::*;
use vstd::string::*;
use vstd::utf8::{is_ascii_chars, is_ascii_chars_encode_utf8};

use crate::backups::{files_place, healed, meta_place, relink_update};
use crate::effects::{
    changes, fault, fault_told, refuse, refused, said_yes, text_told, why_failed, Answer,
    BackupMetadata, Effect, Heard, Move, MoveView, Relinking, Reply, Step, Told,
};
use crate::identity::{
    backup_source_identity, identity_place, indexed, proof_of, sha256_hex, source_identity,
};
use crate::names::{id_verdict, name_verdict, validate_backup_id, validate_instance_name};
use crate::numbers::{decimal, decimal_text, law_decimal_reads_back};
use crate::order::views;
use crate::outside::{is_id_char, upper_text};
use crate::paths::{join_path, joined_path};
use crate::text::{cat2, cat3, opt_str, opt_text, same_text, trim, trimmed};

verus! {

/// What an instance may be called, as a request learns it.
pub open spec fn name_check(name: Seq<char>) -> Result<(), Seq<char>> {
    name_verdict(name, upper_text(name))
}

/// Giving up: what was begun at the path is removed, and the request is answered
/// why. The removal is reply `i`; it does not matter whether it succeeds.
pub open spec fn undone(path: Seq<char>, r: Seq<Told>, i: int, message: Seq<char>) -> MoveView {
    if r.len() <= i {
        Step::Ask(Effect::RemoveDirAll(path))
    } else {
        refused(message)
    }
}

/// Gives up: what was begun at the path is removed, and the request is answered
/// why.
pub fn undo(path: &str, replies: &Vec<Heard>, i: usize, message: &str) -> (s: Move)
    ensures
        s@ == undone(path@, views(replies@), i as int, message@),
{
    if replies.len() <= i {
        Step::Ask(Effect::RemoveDirAll(path.to_owned()))
    } else {
        refuse(message)
    }
}

/// The id of a backup that is made at a time.
pub open spec fn id_at(secs: u64, nanos: u32) -> Seq<char> {
    decimal(secs as nat) + "-"@ + decimal(nanos as nat)
}

/// What is known of a new backup.
pub open spec fn new_metadata(
    name: Seq<char>,
    identity: Seq<char>,
    secs: u64,
    nanos: u32,
    size: u64,
    files: u64,
) -> BackupMetadata<Seq<char>> {
    BackupMetadata {
        id: id_at(secs, nanos),
        source_instance: name,
        created_at_unix: secs,
        size_bytes: size,
        file_count: files,
        source_instance_proof_sha256: Some(proof_of(identity)),
        source_instance_id: Some(identity),
    }
}

/// The time that a reply tells; the start of 1970 where it tells none.
pub open spec fn time_told(reply: Told) -> (u64, u32) {
    match reply {
        Reply::Clock(secs, nanos) => (secs, nanos),
        _ => (0, 0),
    }
}

/// Making a backup of an instance: its files are copied, measured and described.
pub open spec fn making_backup(
    instances: Seq<char>,
    backups: Seq<char>,
    name: Seq<char>,
    r: Seq<Told>,
) -> MoveView {
    let source = joined_path(instances, name);
    let (secs, nanos) = time_told(r[2]);
    let root = joined_path(joined_path(backups, name), id_at(secs, nanos));
    let files = files_place(root);
    if name_check(name) is Err {
        refused(name_check(name)->Err_0)
    } else if r.len() == 0 {
        Step::Ask(Effect::IsDir(source))
    } else if !r[0].yes() {
        refused("Instance does not exist"@)
    } else if r.len() == 1 {
        Step::Ask(Effect::EnsureIdentity(source))
    } else if r[1].text() is None {
        refused(fault(r[1]))
    } else if r.len() == 2 {
        Step::Ask(Effect::Clock)
    } else if r.len() == 3 {
        Step::Ask(Effect::CreateDirAll(files))
    } else if r[3].failure() is Some {
        refused("Failed to create backup folder: "@ + r[3].failure()->0)
    } else if r.len() == 4 {
        Step::Ask(Effect::CopyTree(source, files))
    } else if r[4].failure() is Some {
        undone(root, r, 5, r[4].failure()->0)
    } else if r.len() == 5 {
        Step::Ask(Effect::DirStats(files))
    } else {
        match r[5] {
            Reply::Stats(size, count) => {
                let m = new_metadata(name, r[1].text()->0, secs, nanos, size, count);
                if r.len() == 6 {
                    Step::Ask(Effect::EncodeMetadata(m))
                } else {
                    match r[6].text() {
                        None => undone(
                            root,
                            r,
                            7,
                            "Failed to encode metadata: "@ + fault(r[6]),
                        ),
                        Some(text) => if r.len() == 7 {
                            Step::Ask(Effect::WriteText(meta_place(root), text))
                        } else if r[7].failure() is Some {
                            undone(
                                root,
                                r,
                                8,
                                "Failed to write metadata: "@ + r[7].failure()->0,
                            )
                        } else {
                            Step::Answer(
                                Answer::BackupCreated {
                                    message: "Backup created successfully"@,
                                    backup: m,
                                },
                            )
                        },
                    }
                }
            },
            _ => undone(root, r, 6, fault(r[5])),
        }
    }
}

/// Makes a backup of the instance.
#[verifier::rlimit(40)]
pub fn api_create_backup(
    instances_dir: &str,
    backups_dir: &str,
    instance_name: &str,
    replies: &Vec<Heard>,
) -> (s: Move)
    ensures
        s@ == making_backup(instances_dir@, backups_dir@, instance_name@, views(replies@)),
{
    let ghost r = views(replies@);
    let n: usize = replies.len();
    if let Err(e) = validate_instance_name(instance_name) {
        return refuse(e.as_str());
    }
    let source = join_path(instances_dir, instance_name);
    if n == 0 {
        return Step::Ask(Effect::IsDir(source));
    }
    if !said_yes(replies, 0) {
        return refuse("Instance does not exist");
    }
    if n == 1 {
        return Step::Ask(Effect::EnsureIdentity(source));
    }
    let identity = match text_told(replies, 1) {
        Some(identity) => identity,
        None => return refuse(fault_told(replies, 1).as_str()),
    };
    if n == 2 {
        return Step::Ask(Effect::Clock);
    }
    assert(r[2] == replies@[2]@);
    let (secs, nanos): (u64, u32) = match &replies[2] {
        Reply::Clock(secs, nanos) => (*secs, *nanos),
        _ => (0, 0),
    };
    let id = cat3(decimal_text(secs).as_str(), "-", decimal_text(nanos as u64).as_str());
    let root = join_path(join_path(backups_dir, instance_name).as_str(), id.as_str());
    let files = join_path(root.as_str(), "files");
    if n == 3 {
        return Step::Ask(Effect::CreateDirAll(files));
    }
    if let Some(e) = why_failed(replies, 3) {
        return refuse(cat2("Failed to create backup folder: ", e.as_str()).as_str());
    }
    if n == 4 {
        return Step::Ask(Effect::CopyTree(source, files));
    }
    if let Some(e) = why_failed(replies, 4) {
        return undo(root.as_str(), replies, 5, e.as_str());
    }
    if n == 5 {
        return Step::Ask(Effect::DirStats(files));
    }
    assert(r[5] == replies@[5]@);
    let (size, count): (u64, u64) = match &replies[5] {
        Reply::Stats(size, count) => (*size, *count),
        _ => return undo(root.as_str(), replies, 6, fault_told(replies, 5).as_str()),
    };
    let metadata = BackupMetadata {
        id,
        source_instance: instance_name.to_owned(),
        created_at_unix: secs,
        size_bytes: size,
        file_count: count,
        source_instance_proof_sha256: Some(sha256_hex(identity.as_str())),
        source_instance_id: Some(identity),
    };
    if n == 6 {
        return Step::Ask(Effect::EncodeMetadata(metadata));
    }
    let text = match text_told(replies, 6) {
        Some(text) => text,
        None => {
            let e = cat2("Failed to encode metadata: ", fault_told(replies, 6).as_str());
            return undo(root.as_str(), replies, 7, e.as_str());
        },
    };
    if n == 7 {
        return Step::Ask(Effect::WriteText(join_path(root.as_str(), "meta.json"), text));
    }
    if let Some(e) = why_failed(replies, 7) {
        let e = cat2("Failed to write metadata: ", e.as_str());
        return undo(root.as_str(), replies, 8, e.as_str());
    }
    Step::Answer(
        Answer::BackupCreated {
            message: "Backup created successfully".to_owned(),
            backup: metadata,
        },
    )
}

/// Making a backup changes nothing of the instance but to give it an identity
/// where it has none, and else nothing but the backup's own folder.
pub proof fn law_backup_leaves_the_instance(
    instances: Seq<char>,
    backups: Seq<char>,
    name: Seq<char>,
    r: Seq<Told>,
)
    ensures
        making_backup(instances, backups, name, r) matches Step::Ask(e) ==> {
            let (secs, nanos) = time_told(r[2]);
            let root = joined_path(joined_path(backups, name), id_at(secs, nanos));
            forall|p: Seq<char>|
                changes(e).contains(p) ==> p == identity_place(joined_path(instances, name)) || p
                    == root || p == files_place(root) || p == meta_place(root)
        },
{
}

/// A backup that fails once its folder is there is removed before the request is
/// answered.
pub proof fn law_failed_backup_is_removed(
    instances: Seq<char>,
    backups: Seq<char>,
    name: Seq<char>,
    r: Seq<Told>,
)
    requires
        making_backup(instances, backups, name, r) matches Step::Answer(Answer::Error(_)),
        r.len() > 4,
        making_backup(instances, backups, name, r.drop_last()) is Ask,
    ensures
        ({
            let (secs, nanos) = time_told(r[2]);
            let root = joined_path(joined_path(backups, name), id_at(secs, nanos));
            making_backup(instances, backups, name, r.drop_last()) == Step::<
                Seq<char>,
                Seq<u8>,
                Answer<Seq<char>, Seq<Seq<char>>>,
            >::Ask(Effect::RemoveDirAll(root))
        }),
{
    let q = r.drop_last();
    assert forall|i: int| 0 <= i < q.len() implies q[i] == r[i] by {}
}

/// A backup that was made knows the instance that it was made of: its metadata
/// carries the instance's identity and the proof of it.
pub proof fn law_backup_knows_its_source(
    instances: Seq<char>,
    backups: Seq<char>,
    name: Seq<char>,
    r: Seq<Told>,
)
    ensures
        making_backup(instances, backups, name, r) matches Step::Answer(
            Answer::BackupCreated { backup, .. },
        ) ==> {
            &&& r[1].text() is Some
            &&& backup.source_instance == name
            &&& backup.source_instance_id == r[1].text()
            &&& backup.source_instance_proof_sha256 == Some(proof_of(r[1].text()->0))
        },
{
}

/// The proof by which the instance to restore over is found.
pub open spec fn override_proof(m: BackupMetadata<Seq<char>>) -> Option<Seq<char>> {
    match m.source_instance_proof_sha256 {
        Some(d) => Some(d),
        None => match m.source_instance_id {
            Some(id) => Some(proof_of(id)),
            None => None,
        },
    }
}

/// The proof by which the instance to restore over is found.
fn proof_for_override(m: &BackupMetadata<String>) -> (r: Option<String>)
    ensures
        opt_text(r) == override_proof(m@),
{
    match &m.source_instance_proof_sha256 {
        Some(d) => Some(d.clone()),
        None => match &m.source_instance_id {
            Some(id) => Some(sha256_hex(id.as_str())),
            None => None,
        },
    }
}

/// The instance to restore over, as reply `i` tells it: the one with the backup's
/// proof, or, for a backup without one, the one with the source's name.
pub open spec fn override_target(
    instances: Seq<char>,
    m: BackupMetadata<Seq<char>>,
    reply: Told,
) -> Result<(Seq<char>, Seq<char>), Seq<char>> {
    match override_proof(m) {
        Some(_) => match reply {
            Reply::Instance(name, path) => Ok((name, path)),
            Reply::Failed(e) => Err(e),
            _ => Err("No matching instance identity was found for this backup override"@),
        },
        None => if reply.yes() {
            Ok((m.source_instance, joined_path(instances, m.source_instance)))
        } else {
            Err("Target instance does not exist for override"@)
        },
    }
}

/// Restoring a backup over an instance, from the third reply on.
pub open spec fn restoring_over(
    instances: Seq<char>,
    files: Seq<char>,
    m: BackupMetadata<Seq<char>>,
    r: Seq<Told>,
) -> MoveView {
    if r.len() <= 2 {
        match override_proof(m) {
            Some(d) => Step::Ask(Effect::FindByProof(d)),
            None => Step::Ask(Effect::IsDir(joined_path(instances, m.source_instance))),
        }
    } else {
        match override_target(instances, m, r[2]) {
            Err(e) => refused(e),
            Ok((name, path)) => if r.len() == 3 {
                Step::Ask(Effect::EnsureIdentity(path))
            } else if r[3].text() is None {
                refused(fault(r[3]))
            } else if r.len() == 4 {
                Step::Ask(Effect::IsRunning(name))
            } else if r[4].yes() {
                refused("Stop the server before overriding this instance"@)
            } else if r.len() == 5 {
                Step::Ask(Effect::RemoveDirAll(path))
            } else if r[5].failure() is Some {
                refused("Failed to clear target instance: "@ + r[5].failure()->0)
            } else if r.len() == 6 {
                Step::Ask(Effect::CreateDirAll(path))
            } else if r[6].failure() is Some {
                refused("Failed to recreate target instance: "@ + r[6].failure()->0)
            } else if r.len() == 7 {
                Step::Ask(Effect::CopyTree(files, path))
            } else if r[7].failure() is Some {
                refused(r[7].failure()->0)
            } else if r.len() == 8 {
                Step::Ask(Effect::WriteIdentity(path, r[3].text()->0))
            } else if r[8].failure() is Some {
                refused(r[8].failure()->0)
            } else {
                Step::Answer(
                    Answer::Restored {
                        message: "Backup restored over instance '"@ + name + "'"@,
                        instance: name,
                    },
                )
            },
        }
    }
}

/// The name of the instance to restore into: the one that was asked for, or, where
/// that is missing or blank, the source's.
pub open spec fn restored_name(m: BackupMetadata<Seq<char>>, wanted: Option<Seq<char>>) -> Seq<char> {
    let name = match wanted {
        Some(w) => trimmed(w),
        None => trimmed(m.source_instance),
    };
    if name.len() == 0 {
        trimmed(m.source_instance)
    } else {
        name
    }
}

/// The name of the instance to restore into.
fn name_for_restore(m: &BackupMetadata<String>, wanted: Option<&str>) -> (r: String)
    ensures
        r@ == restored_name(m@, opt_str(wanted)),
{
    let name = match wanted {
        Some(w) => trim(w),
        None => trim(m.source_instance.as_str()),
    };
    if name.is_empty() {
        trim(m.source_instance.as_str()).to_owned()
    } else {
        name.to_owned()
    }
}

/// How many replies it takes to settle the identity of the restored instance, and
/// whether the next one is still to come. A backup with a proof that no instance
/// holds passes its identity on.
pub open spec fn lineage_replies(m: BackupMetadata<Seq<char>>, r: Seq<Told>) -> int {
    if m.source_instance_proof_sha256 is None {
        2
    } else if r.len() > 2 && r[2] is Nothing && m.source_instance_id is None {
        4
    } else {
        3
    }
}

/// The identity that the restored instance takes over, if it takes one over.
pub open spec fn lineage(m: BackupMetadata<Seq<char>>, r: Seq<Told>) -> Option<Seq<char>> {
    if m.source_instance_proof_sha256 is Some && r[2] is Nothing {
        source_identity(m, r[3].text())
    } else {
        None
    }
}

/// Restoring a backup into a new instance, from the third reply on.
pub open spec fn restoring_new(
    instances: Seq<char>,
    files: Seq<char>,
    m: BackupMetadata<Seq<char>>,
    wanted: Option<Seq<char>>,
    r: Seq<Told>,
) -> MoveView {
    let name = restored_name(m, wanted);
    let path = joined_path(instances, name);
    let k = lineage_replies(m, r);
    if name_check(name) is Err {
        refused(name_check(name)->Err_0)
    } else if r.len() < k {
        if r.len() <= 2 {
            Step::Ask(Effect::FindByProof(m.source_instance_proof_sha256->0))
        } else {
            Step::Ask(Effect::ReadIdentity(files))
        }
    } else if r.len() == k {
        Step::Ask(Effect::CreateDirAll(instances))
    } else if r[k].failure() is Some {
        refused("Failed to prepare instances directory: "@ + r[k].failure()->0)
    } else if r.len() == k + 1 {
        Step::Ask(Effect::Exists(path))
    } else if r[k + 1].yes() {
        refused("Target instance already exists"@)
    } else if r.len() == k + 2 {
        Step::Ask(Effect::CreateDirAll(path))
    } else if r[k + 2].failure() is Some {
        refused("Failed to create new instance directory: "@ + r[k + 2].failure()->0)
    } else if r.len() == k + 3 {
        Step::Ask(Effect::CopyTree(files, path))
    } else if r[k + 3].failure() is Some {
        undone(path, r, k + 4, r[k + 3].failure()->0)
    } else if r.len() == k + 4 {
        match lineage(m, r) {
            Some(id) => Step::Ask(Effect::WriteIdentity(path, id)),
            None => Step::Ask(Effect::AssignIdentity(path)),
        }
    } else if r[k + 4].failure() is Some {
        undone(path, r, k + 5, r[k + 4].failure()->0)
    } else if r.len() == k + 5 {
        Step::Ask(Effect::Register(name))
    } else {
        Step::Answer(
            Answer::Restored {
                message: "Backup restored into new instance '"@ + name + "'"@,
                instance: name,
            },
        )
    }
}

/// Restoring the backup with an id, over the instance that it was made of or into
/// a new one.
pub open spec fn restoring(
    instances: Seq<char>,
    id: Seq<char>,
    mode: Seq<char>,
    wanted: Option<Seq<char>>,
    r: Seq<Told>,
) -> MoveView {
    if id_verdict(id) is Err {
        refused(id_verdict(id)->Err_0)
    } else if r.len() == 0 {
        Step::Ask(Effect::FindBackup(id))
    } else {
        match r[0] {
            Reply::Backup(_, backup, m) => if r.len() == 1 {
                Step::Ask(Effect::IsDir(files_place(backup)))
            } else if !r[1].yes() {
                refused("Backup data is missing"@)
            } else if mode == "override"@ {
                restoring_over(instances, files_place(backup), m, r)
            } else if mode == "new"@ {
                restoring_new(instances, files_place(backup), m, wanted, r)
            } else {
                refused("Invalid restore mode. Use 'new' or 'override'."@)
            },
            _ => refused(fault(r[0])),
        }
    }
}

/// Restores the backup over the instance that it was made of.
fn restore_over(
    instances_dir: &str,
    files: &str,
    m: &BackupMetadata<String>,
    replies: &Vec<Heard>,
) -> (s: Move)
    requires
        replies@.len() >= 2,
    ensures
        s@ == restoring_over(instances_dir@, files@, m@, views(replies@)),
{
    let ghost r = views(replies@);
    let n: usize = replies.len();
    let digest = proof_for_override(m);
    let fallback = join_path(instances_dir, m.source_instance.as_str());
    if n == 2 {
        return match digest {
            Some(d) => Step::Ask(Effect::FindByProof(d)),
            None => Step::Ask(Effect::IsDir(fallback)),
        };
    }
    assert(r[2] == replies@[2]@);
    let (name, path): (String, String) = if digest.is_some() {
        match &replies[2] {
            Reply::Instance(name, path) => (name.clone(), path.clone()),
            Reply::Failed(e) => return refuse(e.as_str()),
            _ => return refuse("No matching instance identity was found for this backup override"),
        }
    } else if said_yes(replies, 2) {
        (m.source_instance.clone(), fallback)
    } else {
        return refuse("Target instance does not exist for override");
    };
    if n == 3 {
        return Step::Ask(Effect::EnsureIdentity(path));
    }
    let identity = match text_told(replies, 3) {
        Some(identity) => identity,
        None => return refuse(fault_told(replies, 3).as_str()),
    };
    if n == 4 {
        return Step::Ask(Effect::IsRunning(name));
    }
    if said_yes(replies, 4) {
        return refuse("Stop the server before overriding this instance");
    }
    if n == 5 {
        return Step::Ask(Effect::RemoveDirAll(path));
    }
    if let Some(e) = why_failed(replies, 5) {
        return refuse(cat2("Failed to clear target instance: ", e.as_str()).as_str());
    }
    if n == 6 {
        return Step::Ask(Effect::CreateDirAll(path));
    }
    if let Some(e) = why_failed(replies, 6) {
        return refuse(cat2("Failed to recreate target instance: ", e.as_str()).as_str());
    }
    if n == 7 {
        return Step::Ask(Effect::CopyTree(files.to_owned(), path));
    }
    if let Some(e) = why_failed(replies, 7) {
        return refuse(e.as_str());
    }
    if n == 8 {
        return Step::Ask(Effect::WriteIdentity(path, identity));
    }
    if let Some(e) = why_failed(replies, 8) {
        return refuse(e.as_str());
    }
    Step::Answer(
        Answer::Restored {
            message: cat3("Backup restored over instance '", name.as_str(), "'"),
            instance: name,
        },
    )
}

/// Restores the backup into a new instance.
fn restore_new(
    instances_dir: &str,
    files: &str,
    m: &BackupMetadata<String>,
    wanted: Option<&str>,
    replies: &Vec<Heard>,
) -> (s: Move)
    requires
        replies@.len() >= 2,
    ensures
        s@ == restoring_new(instances_dir@, files@, m@, opt_str(wanted), views(replies@)),
{
    let ghost r = views(replies@);
    let n: usize = replies.len();
    let name = name_for_restore(m, wanted);
    if let Err(e) = validate_instance_name(name.as_str()) {
        return refuse(e.as_str());
    }
    let path = join_path(instances_dir, name.as_str());
    let mut inherited: Option<String> = None;
    let mut k: usize = 2;
    if let Some(digest) = &m.source_instance_proof_sha256 {
        if n == 2 {
            return Step::Ask(Effect::FindByProof(digest.clone()));
        }
        k = 3;
        assert(r[2] == replies@[2]@);
        if matches!(&replies[2], Reply::Nothing) {
            let mut in_files: Option<String> = None;
            if m.source_instance_id.is_none() {
                if n == 3 {
                    return Step::Ask(Effect::ReadIdentity(files.to_owned()));
                }
                k = 4;
                in_files = text_told(replies, 3);
            }
            inherited = backup_source_identity(m, in_files);
        }
    }
    assert(k == lineage_replies(m@, r));
    if n == k {
        return Step::Ask(Effect::CreateDirAll(instances_dir.to_owned()));
    }
    if let Some(e) = why_failed(replies, k) {
        return refuse(cat2("Failed to prepare instances directory: ", e.as_str()).as_str());
    }
    if n == k + 1 {
        return Step::Ask(Effect::Exists(path));
    }
    if said_yes(replies, k + 1) {
        return refuse("Target instance already exists");
    }
    if n == k + 2 {
        return Step::Ask(Effect::CreateDirAll(path));
    }
    if let Some(e) = why_failed(replies, k + 2) {
        return refuse(cat2("Failed to create new instance directory: ", e.as_str()).as_str());
    }
    if n == k + 3 {
        return Step::Ask(Effect::CopyTree(files.to_owned(), path));
    }
    if let Some(e) = why_failed(replies, k + 3) {
        return undo(path.as_str(), replies, k + 4, e.as_str());
    }
    if n == k + 4 {
        return match inherited {
            Some(identity) => Step::Ask(Effect::WriteIdentity(path, identity)),
            None => Step::Ask(Effect::AssignIdentity(path)),
        };
    }
    if let Some(e) = why_failed(replies, k + 4) {
        return undo(path.as_str(), replies, k + 5, e.as_str());
    }
    if n == k + 5 {
        return Step::Ask(Effect::Register(name));
    }
    Step::Answer(
        Answer::Restored {
            message: cat3("Backup restored into new instance '", name.as_str(), "'"),
            instance: name,
        },
    )
}

/// Restores the backup with the id.
pub fn api_restore_backup(
    instances_dir: &str,
    id: &str,
    mode: &str,
    new_instance_name: Option<&str>,
    replies: &Vec<Heard>,
) -> (s: Move)
    ensures
        s@ == restoring(
            instances_dir@,
            id@,
            mode@,
            opt_str(new_instance_name),
            views(replies@),
        ),
{
    let ghost r = views(replies@);
    let n: usize = replies.len();
    if let Err(e) = validate_backup_id(id) {
        return refuse(e.as_str());
    }
    if n == 0 {
        return Step::Ask(Effect::FindBackup(id.to_owned()));
    }
    assert(r[0] == replies@[0]@);
    match &replies[0] {
        Reply::Backup(_, backup, m) => {
            let files = join_path(backup.as_str(), "files");
            if n == 1 {
                return Step::Ask(Effect::IsDir(files));
            }
            if !said_yes(replies, 1) {
                return refuse("Backup data is missing");
            }
            if same_text(mode, "override") {
                return restore_over(instances_dir, files.as_str(), m, replies);
            }
            if same_text(mode, "new") {
                return restore_new(instances_dir, files.as_str(), m, new_instance_name, replies);
            }
            refuse("Invalid restore mode. Use 'new' or 'override'.")
        },
        _ => refuse(fault_told(replies, 0).as_str()),
    }
}

/// Deleting the backup with an id, and the folder that held it where that is empty
/// then.
pub open spec fn deleting_backup(id: Seq<char>, r: Seq<Told>) -> MoveView {
    if id_verdict(id) is Err {
        refused(id_verdict(id)->Err_0)
    } else if r.len() == 0 {
        Step::Ask(Effect::FindBackup(id))
    } else {
        match r[0] {
            Reply::Backup(folder, backup, m) => if r.len() == 1 {
                Step::Ask(Effect::RemoveDirAll(backup))
            } else if r[1].failure() is Some {
                refused("Failed to delete backup: "@ + r[1].failure()->0)
            } else if r.len() == 2 {
                Step::Ask(Effect::IsEmptyDir(folder))
            } else if r[2].yes() && r.len() == 3 {
                Step::Ask(Effect::RemoveDir(folder))
            } else {
                Step::Answer(
                    Answer::BackupDeleted {
                        message: "Backup deleted"@,
                        source_instance: m.source_instance,
                    },
                )
            },
            _ => refused(fault(r[0])),
        }
    }
}

/// Deletes the backup with the id.
pub fn api_delete_backup(id: &str, replies: &Vec<Heard>) -> (s: Move)
    ensures
        s@ == deleting_backup(id@, views(replies@)),
{
    let ghost r = views(replies@);
    let n: usize = replies.len();
    if let Err(e) = validate_backup_id(id) {
        return refuse(e.as_str());
    }
    if n == 0 {
        return Step::Ask(Effect::FindBackup(id.to_owned()));
    }
    assert(r[0] == replies@[0]@);
    match &replies[0] {
        Reply::Backup(folder, backup, m) => {
            if n == 1 {
                return Step::Ask(Effect::RemoveDirAll(backup.clone()));
            }
            if let Some(e) = why_failed(replies, 1) {
                return refuse(cat2("Failed to delete backup: ", e.as_str()).as_str());
            }
            if n == 2 {
                return Step::Ask(Effect::IsEmptyDir(folder.clone()));
            }
            if n == 3 && said_yes(replies, 2) {
                return Step::Ask(Effect::RemoveDir(folder.clone()));
            }
            Step::Answer(
                Answer::BackupDeleted {
                    message: "Backup deleted".to_owned(),
                    source_instance: m.source_instance.clone(),
                },
            )
        },
        _ => refuse(fault_told(replies, 0).as_str()),
    }
}

proof fn lemma_decimal_length(n: nat, k: nat)
    requires
        k > 0,
        n < pow(10, k),
    ensures
        decimal(n).len() <= k,
    decreases k,
{
    reveal(pow);
    if n >= 10 {
        if k == 1 {
            assert(pow(10, 1) == 10 * pow(10, 0));
        } else {
            assert(pow(10, k) == 10 * pow(10, (k - 1) as nat));
            lemma_decimal_length(n / 10, (k - 1) as nat);
        }
    }
}

/// The id that a new backup gets is one that can be asked for.
pub proof fn law_made_id_is_accepted(secs: u64, nanos: u32)
    ensures
        id_verdict(id_at(secs, nanos)) is Ok,
{
    let a = decimal(secs as nat);
    let b = decimal(nanos as nat);
    let id = id_at(secs, nanos);
    reveal_strlit("-");
    law_decimal_reads_back(secs as nat);
    law_decimal_reads_back(nanos as nat);
    assert(pow(10, 20) == 100_000_000_000_000_000_000) by {
        reveal(pow);
        reveal_with_fuel(pow, 21);
    }
    lemma_decimal_length(secs as nat, 20);
    lemma_decimal_length(nanos as nat, 20);
    assert forall|i: int| 0 <= i < id.len() implies is_id_char(#[trigger] id[i]) by {
        if i < a.len() {
            assert(id[i] == a[i]);
        } else if i > a.len() {
            assert(id[i] == b[i - a.len() - 1]);
        }
    }
    assert(is_ascii_chars(id)) by {
        assert forall|i: int| 0 <= i < id.len() implies (0 <= #[trigger] id[i] < 128) by {
            assert(is_id_char(id[i]));
        }
    }
    is_ascii_chars_encode_utf8(id);
}

/// Restoring over an instance changes only that instance's directory, and beyond
/// making sure of its identity only once its server was found not to run.
pub proof fn law_override_waits_for_the_server(
    instances: Seq<char>,
    files: Seq<char>,
    m: BackupMetadata<Seq<char>>,
    r: Seq<Told>,
)
    ensures
        restoring_over(instances, files, m, r) matches Step::Ask(e) ==> forall|p: Seq<char>|
            changes(e).contains(p) ==> {
                &&& r.len() > 2
                &&& override_target(instances, m, r[2]) matches Ok((_, path)) && (p == path || p
                    == identity_place(path))
                &&& r.len() > 4 && !r[4].yes() || e == Effect::<Seq<char>, Seq<u8>>::EnsureIdentity(
                    override_target(instances, m, r[2])->Ok_0.1,
                )
            },
{
}

/// An instance that a backup was restored over has the identity that it had
/// before: the last thing done was to write it.
pub proof fn law_override_keeps_the_identity(
    instances: Seq<char>,
    files: Seq<char>,
    m: BackupMetadata<Seq<char>>,
    r: Seq<Told>,
)
    requires
        r.len() == 9,
        restoring_over(instances, files, m, r) matches Step::Answer(Answer::Restored { .. }),
    ensures
        ({
            let (name, path) = override_target(instances, m, r[2])->Ok_0;
            &&& restoring_over(instances, files, m, r.take(3)) == Step::<
                Seq<char>,
                Seq<u8>,
                Answer<Seq<char>, Seq<Seq<char>>>,
            >::Ask(Effect::EnsureIdentity(path))
            &&& r[3].text() is Some
            &&& restoring_over(instances, files, m, r.take(8)) == Step::<
                Seq<char>,
                Seq<u8>,
                Answer<Seq<char>, Seq<Seq<char>>>,
            >::Ask(Effect::WriteIdentity(path, r[3].text()->0))
            &&& r[8].failure() is None
        }),
{
    assert forall|i: int| 0 <= i < 8 implies r.take(8)[i] == r[i] by {}
    assert forall|i: int| 0 <= i < 3 implies r.take(3)[i] == r[i] by {}
}

/// Restoring into a new instance changes nothing but the instances' directory
/// itself and the new instance's, and that one only where there was nothing.
pub proof fn law_new_restore_overwrites_nothing(
    instances: Seq<char>,
    files: Seq<char>,
    m: BackupMetadata<Seq<char>>,
    wanted: Option<Seq<char>>,
    r: Seq<Told>,
)
    requires
        r.len() >= 2,
    ensures
        restoring_new(instances, files, m, wanted, r) matches Step::Ask(e) ==> forall|p: Seq<char>|
            changes(e).contains(p) ==> {
                let k = lineage_replies(m, r);
                let path = joined_path(instances, restored_name(m, wanted));
                ||| e == Effect::<Seq<char>, Seq<u8>>::CreateDirAll(instances)
                ||| {
                    &&& p == path || p == identity_place(path)
                    &&& r.len() > k + 1
                    &&& !r[k + 1].yes()
                }
            },
{
}

/// A new instance that could not be filled or named is removed before the request
/// is answered.
pub proof fn law_failed_restore_is_removed(
    instances: Seq<char>,
    files: Seq<char>,
    m: BackupMetadata<Seq<char>>,
    wanted: Option<Seq<char>>,
    r: Seq<Told>,
)
    requires
        r.len() > lineage_replies(m, r) + 3,
        restoring_new(instances, files, m, wanted, r) matches Step::Answer(Answer::Error(_)),
        restoring_new(instances, files, m, wanted, r.drop_last()) is Ask,
    ensures
        restoring_new(instances, files, m, wanted, r.drop_last()) == Step::<
            Seq<char>,
            Seq<u8>,
            Answer<Seq<char>, Seq<Seq<char>>>,
        >::Ask(Effect::RemoveDirAll(joined_path(instances, restored_name(m, wanted)))),
{
    let q = r.drop_last();
    assert forall|i: int| 0 <= i < q.len() implies q[i] == r[i] by {}
}

/// A restored instance takes the backup's identity over only where no instance
/// holds it.
pub proof fn law_identity_is_passed_on_once(
    instances: Seq<char>,
    files: Seq<char>,
    m: BackupMetadata<Seq<char>>,
    wanted: Option<Seq<char>>,
    r: Seq<Told>,
)
    requires
        r.len() >= 2,
    ensures
        restoring_new(instances, files, m, wanted, r) matches Step::Ask(
            Effect::WriteIdentity(_, id),
        ) ==> {
            &&& m.source_instance_proof_sha256 is Some
            &&& restoring_new(instances, files, m, wanted, r.take(2)) == Step::<
                Seq<char>,
                Seq<u8>,
                Answer<Seq<char>, Seq<Seq<char>>>,
            >::Ask(Effect::FindByProof(m.source_instance_proof_sha256->0))
            &&& r[2] is Nothing
            &&& m.source_instance_id == Some(id) || r[3].text() == Some(id)
        },
{
}

/// Deleting a backup removes the backup's folder and, once that is gone and the
/// folder above it was found empty, that one, and nothing else.
pub proof fn law_deleting_removes_the_backup_only(id: Seq<char>, r: Seq<Told>)
    ensures
        deleting_backup(id, r) matches Step::Ask(e) ==> forall|p: Seq<char>|
            changes(e).contains(p) ==> (r[0] matches Reply::Backup(folder, backup, _) && (p
                == backup || (p == folder && e == Effect::<Seq<char>, Seq<u8>>::RemoveDir(folder) && r.len() == 3
                && r[2].yes()))),
{
}

/// A backup follows its instance: when the instance is renamed the backup is linked
/// to the new name; when the backups are told it goes by the name that the holder
/// of its proof has; and restoring it over an instance goes by that proof.
pub proof fn law_backup_follows_its_instance(
    name: Seq<char>,
    new_name: Seq<char>,
    identity: Seq<char>,
    secs: u64,
    nanos: u32,
    size: u64,
    files: u64,
    in_files: Option<Seq<char>>,
    index: Seq<(Seq<char>, Seq<char>)>,
)
    ensures
        ({
            let m = new_metadata(name, identity, secs, nanos, size, files);
            let now = new_metadata(new_name, identity, secs, nanos, size, files);
            let q = Relinking {
                old_name: name,
                new_name,
                identity,
                digest: proof_of(identity),
            };
            &&& new_name != name ==> relink_update(m, q, false) == Some(now)
            &&& indexed(index, proof_of(identity)) == Some(new_name) ==> healed(m, in_files, index)
                == now
            &&& override_proof(m) == Some(proof_of(identity))
        }),
{
}

/// Making a backup comes to an end after nine replies at most.
pub proof fn law_making_backup_ends(
    instances: Seq<char>,
    backups: Seq<char>,
    name: Seq<char>,
    r: Seq<Told>,
)
    requires
        r.len() >= 9,
    ensures
        making_backup(instances, backups, name, r) is Answer,
{
}

/// Restoring a backup comes to an end after ten replies at most.
pub proof fn law_restoring_ends(
    instances: Seq<char>,
    id: Seq<char>,
    mode: Seq<char>,
    wanted: Option<Seq<char>>,
    r: Seq<Told>,
)
    requires
        r.len() >= 10,
    ensures
        restoring(instances, id, mode, wanted, r) is Answer,
{
}

/// What a restore copies is what the backup was copied to: a backup that was made
/// of an instance and is found in that instance's folder under its id is restored
/// from the very directory that the instance's files went to.
pub proof fn law_restore_copies_the_backup(
    instances: Seq<char>,
    backups: Seq<char>,
    name: Seq<char>,
    made: Seq<Told>,
    mode: Seq<char>,
    wanted: Option<Seq<char>>,
    m: BackupMetadata<Seq<char>>,
    r: Seq<Told>,
)
    requires
        made.len() > 2,
        r.len() > 0,
        r[0] == Told::Backup(
            joined_path(backups, name),
            joined_path(joined_path(backups, name), id_at(time_told(made[2]).0, time_told(made[2]).1)),
            m,
        ),
    ensures
        ({
            let id = id_at(time_told(made[2]).0, time_told(made[2]).1);
            making_backup(instances, backups, name, made) matches Step::Ask(
                Effect::CopyTree(source, copy),
            ) ==> restoring(instances, id, mode, wanted, r) matches Step::Ask(
                Effect::CopyTree(from, _),
            ) ==> from == copy && source == joined_path(instances, name)
        }),
{
}

/// Making a backup goes on as each reply asks for. The instance is seen to have an
/// identity; its files are copied to a folder of the backup's own, named after the time;
/// the copy is measured, and the metadata tells all of this and is written beside it.
/// What fails on the way takes the backup away again.
pub proof fn law_making_backup_goes_on(
    instances: Seq<char>,
    backups: Seq<char>,
    name: Seq<char>,
    r: Seq<Told>,
    x: Told,
)
    requires
        r.len() > 2 ==> r[2] is Clock,
    ensures
        making_backup(instances, backups, name, Seq::empty()) == match name_check(name) {
            Ok(()) => MoveView::Ask(Effect::IsDir(joined_path(instances, name))),
            Err(e) => MoveView::Answer(Answer::Error(e)),
        },
        ({
            let source = joined_path(instances, name);
            let error = |e: Seq<char>| MoveView::Answer(Answer::Error(e));
            let id = |secs: u64, nanos: u32| decimal(secs as nat) + "-"@ + decimal(nanos as nat);
            let root = joined_path(
                joined_path(backups, name),
                id(r[2]->Clock_0, r[2]->Clock_1),
            );
            let next = making_backup(instances, backups, name, r.push(x));
            match making_backup(instances, backups, name, r) {
                Step::Ask(Effect::IsDir(p)) => p == source && next == (if x == Told::Flag(true) {
                    MoveView::Ask(Effect::EnsureIdentity(source))
                } else {
                    error("Instance does not exist"@)
                }),
                Step::Ask(Effect::EnsureIdentity(p)) => p == source && match x {
                    Reply::Text(_) => next == MoveView::Ask(Effect::Clock),
                    Reply::Failed(e) => next == error(e),
                    _ => next matches Step::Answer(Answer::Error(_)),
                },
                Step::Ask(Effect::Clock) => x matches Reply::Clock(secs, nanos) ==> next
                    == MoveView::Ask(
                    Effect::CreateDirAll(
                        joined_path(
                            joined_path(joined_path(backups, name), id(secs, nanos)),
                            "files"@,
                        ),
                    ),
                ),
                Step::Ask(Effect::CreateDirAll(p)) => p == joined_path(root, "files"@) && next
                    == match x {
                    Reply::Failed(e) => error("Failed to create backup folder: "@ + e),
                    _ => MoveView::Ask(Effect::CopyTree(source, p)),
                },
                Step::Ask(Effect::CopyTree(_, p)) => p == joined_path(root, "files"@) && next
                    == MoveView::Ask(
                    match x {
                        Reply::Failed(_) => Effect::RemoveDirAll(root),
                        _ => Effect::DirStats(p),
                    },
                ),
                Step::Ask(Effect::DirStats(_)) => match x {
                    Reply::Stats(size, files) => {
                        &&& r[1] is Text
                        &&& next == MoveView::Ask(
                            Effect::EncodeMetadata(
                                BackupMetadata {
                                    id: id(r[2]->Clock_0, r[2]->Clock_1),
                                    source_instance: name,
                                    created_at_unix: r[2]->Clock_0,
                                    size_bytes: size,
                                    file_count: files,
                                    source_instance_proof_sha256: Some(proof_of(r[1]->Text_0)),
                                    source_instance_id: Some(r[1]->Text_0),
                                },
                            ),
                        )
                    },
                    _ => next == MoveView::Ask(Effect::RemoveDirAll(root)),
                },
                Step::Ask(Effect::EncodeMetadata(_)) => next == MoveView::Ask(
                    match x {
                        Reply::Text(text) => Effect::WriteText(
                            joined_path(root, "meta.json"@),
                            text,
                        ),
                        _ => Effect::RemoveDirAll(root),
                    },
                ),
                Step::Ask(Effect::WriteText(_, _)) => {
                    &&& r.len() > 0
                    &&& match x {
                        Reply::Failed(_) => next == MoveView::Ask(Effect::RemoveDirAll(root)),
                        _ => making_backup(instances, backups, name, r.drop_last()) matches Step::Ask(
                            Effect::EncodeMetadata(m),
                        ) && next == MoveView::Answer(
                            Answer::BackupCreated {
                                message: "Backup created successfully"@,
                                backup: m,
                            },
                        ),
                    }
                },
                Step::Ask(Effect::RemoveDirAll(p)) => {
                    &&& p == root
                    &&& r.len() > 0
                    &&& r.last() matches Reply::Failed(e) ==> next == error(
                        match making_backup(instances, backups, name, r.drop_last()) {
                            Step::Ask(Effect::EncodeMetadata(_)) => "Failed to encode metadata: "@
                                + e,
                            Step::Ask(Effect::WriteText(_, _)) => "Failed to write metadata: "@ + e,
                            _ => e,
                        },
                    )
                },
                Step::Ask(_) => false,
                Step::Answer(a) => next == MoveView::Answer(a),
            }
        }),
{
    let q = r.push(x);
    assert forall|j: int| 0 <= j < r.len() implies q[j] == r[j] by {}
    assert(q[r.len() as int] == x);
    if r.len() > 0 {
        let p = r.drop_last();
        assert forall|j: int| 0 <= j < p.len() implies p[j] == r[j] by {}
    }
}

/// Restoring a backup begins with finding it and its files, and goes on only in one of
/// two modes.
pub proof fn law_restoring_begins(
    instances: Seq<char>,
    id: Seq<char>,
    mode: Seq<char>,
    wanted: Option<Seq<char>>,
    x: Told,
    y: Told,
)
    ensures
        restoring(instances, id, mode, wanted, Seq::empty()) == match id_verdict(id) {
            Ok(()) => MoveView::Ask(Effect::FindBackup(id)),
            Err(e) => MoveView::Answer(Answer::Error(e)),
        },
        id_verdict(id) is Ok ==> match x {
            Reply::Backup(_, backup, _) => {
                &&& restoring(instances, id, mode, wanted, seq![x]) == MoveView::Ask(
                    Effect::IsDir(joined_path(backup, "files"@)),
                )
                &&& y != Told::Flag(true) ==> restoring(instances, id, mode, wanted, seq![x, y])
                    == MoveView::Answer(Answer::Error("Backup data is missing"@))
                &&& y == Told::Flag(true) && mode != "override"@ && mode != "new"@ ==> restoring(
                    instances,
                    id,
                    mode,
                    wanted,
                    seq![x, y],
                ) == MoveView::Answer(
                    Answer::Error("Invalid restore mode. Use 'new' or 'override'."@),
                )
            },
            Reply::Failed(e) => restoring(instances, id, mode, wanted, seq![x])
                == MoveView::Answer(Answer::Error(e)),
            _ => restoring(instances, id, mode, wanted, seq![x]) matches Step::Answer(
                Answer::Error(_),
            ),
        },
{
}

/// Restoring a backup over an instance goes on as each reply asks for. The instance is
/// the one whose identity has the backup's proof, or for a backup without one the one
/// that it names. Its identity is remembered, a server that runs is left alone, its files
/// are replaced by those of the backup, and its own identity is written again.
pub proof fn law_override_goes_on(
    instances: Seq<char>,
    id: Seq<char>,
    wanted: Option<Seq<char>>,
    folder: Seq<char>,
    backup: Seq<char>,
    m: BackupMetadata<Seq<char>>,
    r: Seq<Told>,
    x: Told,
)
    requires
        id_verdict(id) is Ok,
        r.len() >= 2,
        r[0] == Told::Backup(folder, backup, m),
        r[1] == Told::Flag(true),
    ensures
        ({
            let error = |e: Seq<char>| MoveView::Answer(Answer::Error(e));
            let named = joined_path(instances, m.source_instance);
            let (name, path) = match r[2] {
                Reply::Instance(n, p) => (n, p),
                _ => (m.source_instance, named),
            };
            let next = restoring(instances, id, "override"@, wanted, r.push(x));
            match restoring(instances, id, "override"@, wanted, r) {
                Step::Ask(Effect::FindByProof(d)) => {
                    &&& r.len() == 2
                    &&& match x {
                        Reply::Instance(_, p) => next == MoveView::Ask(Effect::EnsureIdentity(p)),
                        Reply::Failed(e) => next == error(e),
                        _ => next == error(
                            "No matching instance identity was found for this backup override"@,
                        ),
                    }
                    &&& match m.source_instance_proof_sha256 {
                        Some(told) => d == told,
                        None => m.source_instance_id matches Some(i) && d == proof_of(i),
                    }
                },
                Step::Ask(Effect::IsDir(p)) => {
                    &&& r.len() == 2
                    &&& p == named
                    &&& m.source_instance_proof_sha256 is None
                    &&& m.source_instance_id is None
                    &&& next == if x == Told::Flag(true) {
                        MoveView::Ask(Effect::EnsureIdentity(named))
                    } else {
                        error("Target instance does not exist for override"@)
                    }
                },
                Step::Ask(Effect::EnsureIdentity(p)) => p == path && match x {
                    Reply::Text(_) => next == MoveView::Ask(Effect::IsRunning(name)),
                    Reply::Failed(e) => next == error(e),
                    _ => next matches Step::Answer(Answer::Error(_)),
                },
                Step::Ask(Effect::IsRunning(n)) => n == name && next == (if x == Told::Flag(true) {
                    error("Stop the server before overriding this instance"@)
                } else {
                    MoveView::Ask(Effect::RemoveDirAll(path))
                }),
                Step::Ask(Effect::RemoveDirAll(_)) => next == match x {
                    Reply::Failed(e) => error("Failed to clear target instance: "@ + e),
                    _ => MoveView::Ask(Effect::CreateDirAll(path)),
                },
                Step::Ask(Effect::CreateDirAll(_)) => next == match x {
                    Reply::Failed(e) => error("Failed to recreate target instance: "@ + e),
                    _ => MoveView::Ask(Effect::CopyTree(joined_path(backup, "files"@), path)),
                },
                Step::Ask(Effect::CopyTree(_, _)) => {
                    &&& r[3] is Text
                    &&& next == match x {
                        Reply::Failed(e) => error(e),
                        _ => MoveView::Ask(Effect::WriteIdentity(path, r[3]->Text_0)),
                    }
                },
                Step::Ask(Effect::WriteIdentity(_, _)) => next == match x {
                    Reply::Failed(e) => error(e),
                    _ => MoveView::Answer(
                        Answer::Restored {
                            message: "Backup restored over instance '"@ + name + "'"@,
                            instance: name,
                        },
                    ),
                },
                Step::Ask(_) => false,
                Step::Answer(a) => next == MoveView::Answer(a),
            }
        }),
{
    let q = r.push(x);
    assert forall|j: int| 0 <= j < r.len() implies q[j] == r[j] by {}
    assert(q[r.len() as int] == x);
}

/// Restoring a backup into a new instance goes on as each reply asks for. The instance
/// gets the wanted name, or that of the backup's source; one that is there is left alone.
/// The backup's files are copied, and the instance carries on the identity of the source
/// where no other instance does, else it gets a new one. What fails on the way takes the
/// new instance away again.
pub proof fn law_new_restore_goes_on(
    instances: Seq<char>,
    id: Seq<char>,
    wanted: Option<Seq<char>>,
    folder: Seq<char>,
    backup: Seq<char>,
    m: BackupMetadata<Seq<char>>,
    r: Seq<Told>,
    x: Told,
)
    requires
        id_verdict(id) is Ok,
        r.len() >= 2,
        r[0] == Told::Backup(folder, backup, m),
        r[1] == Told::Flag(true),
    ensures
        ({
            let error = |e: Seq<char>| MoveView::Answer(Answer::Error(e));
            let name = match wanted {
                Some(w) if trimmed(w).len() > 0 => trimmed(w),
                _ => trimmed(m.source_instance),
            };
            let path = joined_path(instances, name);
            let files = joined_path(backup, "files"@);
            let prepare = MoveView::Ask(Effect::CreateDirAll(instances));
            let next = restoring(instances, id, "new"@, wanted, r.push(x));
            &&& r.len() == 2 ==> restoring(instances, id, "new"@, wanted, r) == match name_check(
                name,
            ) {
                Err(e) => error(e),
                Ok(()) => match m.source_instance_proof_sha256 {
                    Some(d) => MoveView::Ask(Effect::FindByProof(d)),
                    None => prepare,
                },
            }
            &&& match restoring(instances, id, "new"@, wanted, r) {
                Step::Ask(Effect::FindByProof(_)) => next == (if x is Nothing
                    && m.source_instance_id is None {
                    MoveView::Ask(Effect::ReadIdentity(files))
                } else {
                    prepare
                }),
                Step::Ask(Effect::ReadIdentity(_)) => next == prepare,
                Step::Ask(Effect::CreateDirAll(p)) => match restoring(
                    instances,
                    id,
                    "new"@,
                    wanted,
                    r.drop_last(),
                ) {
                    Step::Ask(Effect::Exists(_)) => p == path && next == match x {
                        Reply::Failed(e) => error("Failed to create new instance directory: "@ + e),
                        _ => MoveView::Ask(Effect::CopyTree(files, path)),
                    },
                    _ => p == instances && next == match x {
                        Reply::Failed(e) => error("Failed to prepare instances directory: "@ + e),
                        _ => MoveView::Ask(Effect::Exists(path)),
                    },
                },
                Step::Ask(Effect::Exists(p)) => p == path && next == (if x == Told::Flag(true) {
                    error("Target instance already exists"@)
                } else {
                    MoveView::Ask(Effect::CreateDirAll(path))
                }),
                Step::Ask(Effect::CopyTree(_, _)) => next == MoveView::Ask(
                    match x {
                        Reply::Failed(_) => Effect::RemoveDirAll(path),
                        _ => if m.source_instance_proof_sha256 is None || !(r[2] is Nothing) {
                            Effect::AssignIdentity(path)
                        } else {
                            match (m.source_instance_id, r[3]) {
                                (Some(i), _) => Effect::WriteIdentity(path, i),
                                (None, Reply::Text(i)) => Effect::WriteIdentity(path, i),
                                _ => Effect::AssignIdentity(path),
                            }
                        },
                    },
                ),
                Step::Ask(Effect::WriteIdentity(_, _)) => next == MoveView::Ask(
                    match x {
                        Reply::Failed(_) => Effect::RemoveDirAll(path),
                        _ => Effect::Register(name),
                    },
                ),
                Step::Ask(Effect::AssignIdentity(_)) => next == MoveView::Ask(
                    match x {
                        Reply::Failed(_) => Effect::RemoveDirAll(path),
                        _ => Effect::Register(name),
                    },
                ),
                Step::Ask(Effect::RemoveDirAll(p)) => p == path && (r.last() matches Reply::Failed(e)
                    && next == error(e)),
                Step::Ask(Effect::Register(_)) => next == MoveView::Answer(
                    Answer::Restored {
                        message: "Backup restored into new instance '"@ + name + "'"@,
                        instance: name,
                    },
                ),
                Step::Ask(_) => false,
                Step::Answer(a) => next == MoveView::Answer(a),
            }
        }),
{
    reveal_strlit("new");
    reveal_strlit("override");
    assert("new"@.len() == 3 && "override"@.len() == 8);
    let q = r.push(x);
    assert forall|j: int| 0 <= j < r.len() implies q[j] == r[j] by {}
    assert(q[r.len() as int] == x);
    if r.len() > 0 {
        let p = r.drop_last();
        assert forall|j: int| 0 <= j < p.len() implies p[j] == r[j] by {}
    }
}

/// Deleting a backup goes on as each reply asks for: it is found and removed, and the
/// folder of its instance as well where nothing is left in it.
pub proof fn law_deleting_backup_goes_on(id: Seq<char>, r: Seq<Told>, x: Told)
    ensures
        deleting_backup(id, Seq::empty()) == match id_verdict(id) {
            Ok(()) => MoveView::Ask(Effect::FindBackup(id)),
            Err(e) => MoveView::Answer(Answer::Error(e)),
        },
        ({
            let error = |e: Seq<char>| MoveView::Answer(Answer::Error(e));
            let done = MoveView::Answer(
                Answer::BackupDeleted {
                    message: "Backup deleted"@,
                    source_instance: r[0]->Backup_2.source_instance,
                },
            );
            let next = deleting_backup(id, r.push(x));
            match deleting_backup(id, r) {
                Step::Ask(Effect::FindBackup(i)) => i == id && match x {
                    Reply::Backup(_, backup, _) => next == MoveView::Ask(
                        Effect::RemoveDirAll(backup),
                    ),
                    Reply::Failed(e) => next == error(e),
                    _ => next matches Step::Answer(Answer::Error(_)),
                },
                Step::Ask(Effect::RemoveDirAll(_)) => r[0] is Backup && next == match x {
                    Reply::Failed(e) => error("Failed to delete backup: "@ + e),
                    _ => MoveView::Ask(Effect::IsEmptyDir(r[0]->Backup_0)),
                },
                Step::Ask(Effect::IsEmptyDir(_)) => r[0] is Backup && next == (if x == Told::Flag(
                    true,
                ) {
                    MoveView::Ask(Effect::RemoveDir(r[0]->Backup_0))
                } else {
                    done
                }),
                Step::Ask(Effect::RemoveDir(_)) => next == done,
                Step::Ask(_) => false,
                Step::Answer(a) => next == MoveView::Answer(a),
            }
        }),
{
    let q = r.push(x);
    assert forall|j: int| 0 <= j < r.len() implies q[j] == r[j] by {}
    assert(q[r.len() as int] == x);
}

} // verus!
