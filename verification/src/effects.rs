//! What the panel's rules ask of the world, and what they hear back.
//!
//! A request is handled in steps. Each handler is a function of the request and
//! of all the replies so far: it either asks for one more effect, or gives its
//! answer. Whoever runs it performs the effect and adds the reply.
use vstd::prelude::*;
use vstd::string::*;

use crate::order::views;
use crate::paths::{joined_path, INSTANCE_ID_FILENAME};
use crate::properties::pairs;
use crate::text::{copy_opt, opt_text, texts};

verus! {

/// What is known of a backup.
#[derive(Debug, PartialEq, Eq)]
pub struct BackupMetadata<T> {
    pub id: T,
    pub source_instance: T,
    pub created_at_unix: u64,
    pub size_bytes: u64,
    pub file_count: u64,
    pub source_instance_proof_sha256: Option<T>,
    pub source_instance_id: Option<T>,
}

impl View for BackupMetadata<String> {
    type V = BackupMetadata<Seq<char>>;

    open spec fn view(&self) -> BackupMetadata<Seq<char>> {
        BackupMetadata {
            id: self.id@,
            source_instance: self.source_instance@,
            created_at_unix: self.created_at_unix,
            size_bytes: self.size_bytes,
            file_count: self.file_count,
            source_instance_proof_sha256: opt_text(self.source_instance_proof_sha256),
            source_instance_id: opt_text(self.source_instance_id),
        }
    }
}

impl BackupMetadata<String> {
    /// A copy.
    pub fn copy(&self) -> (r: Self)
        ensures
            r@ == self@,
    {
        BackupMetadata {
            id: self.id.clone(),
            source_instance: self.source_instance.clone(),
            created_at_unix: self.created_at_unix,
            size_bytes: self.size_bytes,
            file_count: self.file_count,
            source_instance_proof_sha256: copy_opt(&self.source_instance_proof_sha256),
            source_instance_id: copy_opt(&self.source_instance_id),
        }
    }
}

/// Which backups to link to an instance's new name.
#[derive(Debug, PartialEq, Eq)]
pub struct Relinking<T> {
    pub old_name: T,
    pub new_name: T,
    pub identity: T,
    pub digest: T,
}

impl View for Relinking<String> {
    type V = Relinking<Seq<char>>;

    open spec fn view(&self) -> Relinking<Seq<char>> {
        Relinking {
            old_name: self.old_name@,
            new_name: self.new_name@,
            identity: self.identity@,
            digest: self.digest@,
        }
    }
}

/// How a server is started.
#[derive(Debug, PartialEq, Eq)]
pub struct Launch<T> {
    /// Whether the server runs under bionilux.
    pub bionilux: bool,
    /// The settings file for Box64, where there is one to name.
    pub rcfile: Option<T>,
    /// The directory to start in.
    pub directory: T,
}

impl View for Launch<String> {
    type V = Launch<Seq<char>>;

    open spec fn view(&self) -> Launch<Seq<char>> {
        Launch {
            bionilux: self.bionilux,
            rcfile: opt_text(self.rcfile),
            directory: self.directory@,
        }
    }
}

/// How an attempt to stop a server ended.
#[derive(Debug, PartialEq, Eq)]
pub enum StopProcessOutcome<T> {
    NoProcess,
    Graceful,
    CtrlCFallback,
    ForceKilled,
    ForceKillTimedOut,
    Error(T),
}

impl View for StopProcessOutcome<String> {
    type V = StopProcessOutcome<Seq<char>>;

    open spec fn view(&self) -> StopProcessOutcome<Seq<char>> {
        match self {
            StopProcessOutcome::NoProcess => StopProcessOutcome::NoProcess,
            StopProcessOutcome::Graceful => StopProcessOutcome::Graceful,
            StopProcessOutcome::CtrlCFallback => StopProcessOutcome::CtrlCFallback,
            StopProcessOutcome::ForceKilled => StopProcessOutcome::ForceKilled,
            StopProcessOutcome::ForceKillTimedOut => StopProcessOutcome::ForceKillTimedOut,
            StopProcessOutcome::Error(e) => StopProcessOutcome::Error(e@),
        }
    }
}

/// What became of the processes that earlier runs of a server left behind.
#[derive(Clone, Copy, Debug, PartialEq, Eq)]
pub struct StaleProcessCleanupOutcome {
    pub matched: usize,
    pub cleaned: usize,
    pub remaining: usize,
}

impl StaleProcessCleanupOutcome {
    /// Nothing was left behind.
    pub fn none() -> (r: Self)
        ensures
            r.matched == 0,
            r.cleaned == 0,
            r.remaining == 0,
    {
        StaleProcessCleanupOutcome { matched: 0, cleaned: 0, remaining: 0 }
    }
}

/// One thing to do or to find out. The texts are paths unless the doc says
/// otherwise.
#[derive(Debug, PartialEq, Eq)]
pub enum Effect<T, B> {
    /// Is the path a directory?
    IsDir(T),
    /// Is the path a file?
    IsFile(T),
    /// Does the path exist?
    Exists(T),
    /// What is the directory entry itself, links not followed?
    EntryKind(T),
    /// How many bytes does the file hold?
    FileSize(T),
    /// Can the file be opened for reading?
    OpenFile(T),
    /// Read the file as text.
    ReadText(T),
    /// Read the file as bytes.
    ReadBytes(T),
    /// Write the second text to the file that the first one names.
    WriteText(T, T),
    /// Start to list the directory.
    OpenDir(T),
    /// The next entry of a directory that is being listed.
    NextEntry(T),
    /// Is the directory empty?
    IsEmptyDir(T),
    /// Make the directory.
    CreateDir(T),
    /// Make the directory and those above it.
    CreateDirAll(T),
    /// Remove the file.
    RemoveFile(T),
    /// Remove the empty directory.
    RemoveDir(T),
    /// Remove the directory and all below it.
    RemoveDirAll(T),
    /// Give the first path the second name.
    Rename(T, T),
    /// Copy the first file to the second place.
    CopyFile(T, T),
    /// Give the second file the permissions of the first.
    CopyMode(T, T),
    /// Copy the first directory and all below it to the second place.
    CopyTree(T, T),
    /// Let the file be executed.
    MakeExecutable(T),
    /// How many bytes and files are at the path and below it?
    DirStats(T),
    /// What time is it?
    Clock,
    /// Make up an identity.
    FreshIdentity,
    /// Read the identity of the instance at the path.
    ReadIdentity(T),
    /// Give the instance at the first path the second text for its identity.
    WriteIdentity(T, T),
    /// Give the instance at the path a new identity.
    AssignIdentity(T),
    /// Read the identity of the instance at the path, or give it one.
    EnsureIdentity(T),
    /// Find the instance whose identity has this proof.
    FindByProof(T),
    /// Index the instances by the proofs of their identities.
    IndexProofs,
    /// Find the backup with this id.
    FindBackup(T),
    /// Read a backup's metadata from text.
    ParseMetadata(T),
    /// Write a backup's metadata as text.
    EncodeMetadata(BackupMetadata<T>),
    /// Link backups to an instance's new name.
    Relink(Relinking<T>),
    /// The next field of the upload.
    NextField,
    /// Read the bytes of the field that came last.
    ReadField,
    /// Write the bytes to the path.
    WriteBytes(T, B),
    /// Can the address be downloaded?
    UrlExists(T),
    /// The status of a request for the address's head.
    Head(T),
    /// The status of a request for the first bytes at the address.
    GetRange(T),
    /// Download the archive at the address, and tell its bytes.
    FetchArchive(T),
    /// Start to download from the address.
    Connect(T),
    /// The bytes of the download that come next.
    NextChunk,
    /// Unpack the archive that the bytes hold to the directory.
    Extract(T, B),
    /// Show how far the installation is, in percent.
    SetProgress(u64),
    /// Install the version, the second text, as the instance that the first one names, in the
    /// background.
    StartInstall(T, T),
    /// Run `df` on the path.
    DiskFree(T),
    /// Keep these counts of the processor, total and idle, and tell the last ones.
    SwapSnapshot(u64, u64),
    /// Read a text as a number of seconds.
    ParseSeconds(T),
    /// Read a text as a load.
    ParseLoad(T),
    /// Remember the address of the device.
    SaveHost(T),
    /// The address of the device that is remembered.
    LoadHost,
    /// Request the address.
    Get(T),
    /// The text of the response.
    ReadBody,
    /// Is the instance known to the panel?
    IsRegistered(T),
    /// Make the instance known to the panel, unless it is.
    Register(T),
    /// Let the panel forget the instance.
    Unregister(T),
    /// Let the panel know the first instance by the second name, in its lists of
    /// instances and of installations.
    RenameRegistered(T, T),
    /// Is the instance known and its server running?
    IsRunning(T),
    /// Is the server running?
    SlotRunning,
    /// The process id of the server.
    SlotPid,
    /// Kill the server.
    SlotKill,
    /// Send an interrupt to the process group.
    Interrupt(i32),
    /// Ask the server to stop with an interrupt.
    CtrlC,
    /// Stop the server by force.
    ForceKill,
    /// Wait until the server is gone, for so many milliseconds at most.
    WaitExit(u64),
    /// Have so many milliseconds passed since the wait began?
    HasPassed(u64),
    /// Sleep for so many milliseconds.
    Sleep(u64),
    /// Stop the server, harder and harder.
    StopProcess,
    /// Write the text to the server's input.
    SendInput(T),
    /// Stop what earlier runs left running in the instance's directory.
    CleanupStale(T),
    /// Show the line in the console and keep it in the log.
    Publish(T),
    /// Show the line in the console and keep it in the log, however long that is.
    PublishBeyond(T),
    /// Start the server.
    Spawn(Launch<T>),
    /// Start the instance's server, as a request to do so would.
    StartServer(T),
    /// Stop the instance's server, as a request to do so would.
    StopServer(T),
}

impl View for Effect<String, Vec<u8>> {
    type V = Effect<Seq<char>, Seq<u8>>;

    open spec fn view(&self) -> Effect<Seq<char>, Seq<u8>> {
        match self {
            Effect::IsDir(a) => Effect::IsDir(a@),
            Effect::IsFile(a) => Effect::IsFile(a@),
            Effect::Exists(a) => Effect::Exists(a@),
            Effect::EntryKind(a) => Effect::EntryKind(a@),
            Effect::FileSize(a) => Effect::FileSize(a@),
            Effect::OpenFile(a) => Effect::OpenFile(a@),
            Effect::ReadText(a) => Effect::ReadText(a@),
            Effect::ReadBytes(a) => Effect::ReadBytes(a@),
            Effect::WriteText(a, b) => Effect::WriteText(a@, b@),
            Effect::OpenDir(a) => Effect::OpenDir(a@),
            Effect::NextEntry(a) => Effect::NextEntry(a@),
            Effect::IsEmptyDir(a) => Effect::IsEmptyDir(a@),
            Effect::CreateDir(a) => Effect::CreateDir(a@),
            Effect::CreateDirAll(a) => Effect::CreateDirAll(a@),
            Effect::RemoveFile(a) => Effect::RemoveFile(a@),
            Effect::RemoveDir(a) => Effect::RemoveDir(a@),
            Effect::RemoveDirAll(a) => Effect::RemoveDirAll(a@),
            Effect::Rename(a, b) => Effect::Rename(a@, b@),
            Effect::CopyFile(a, b) => Effect::CopyFile(a@, b@),
            Effect::CopyMode(a, b) => Effect::CopyMode(a@, b@),
            Effect::CopyTree(a, b) => Effect::CopyTree(a@, b@),
            Effect::MakeExecutable(a) => Effect::MakeExecutable(a@),
            Effect::DirStats(a) => Effect::DirStats(a@),
            Effect::Clock => Effect::Clock,
            Effect::FreshIdentity => Effect::FreshIdentity,
            Effect::ReadIdentity(a) => Effect::ReadIdentity(a@),
            Effect::WriteIdentity(a, b) => Effect::WriteIdentity(a@, b@),
            Effect::AssignIdentity(a) => Effect::AssignIdentity(a@),
            Effect::EnsureIdentity(a) => Effect::EnsureIdentity(a@),
            Effect::FindByProof(a) => Effect::FindByProof(a@),
            Effect::IndexProofs => Effect::IndexProofs,
            Effect::FindBackup(a) => Effect::FindBackup(a@),
            Effect::ParseMetadata(a) => Effect::ParseMetadata(a@),
            Effect::EncodeMetadata(a) => Effect::EncodeMetadata(a@),
            Effect::Relink(a) => Effect::Relink(a@),
            Effect::NextField => Effect::NextField,
            Effect::ReadField => Effect::ReadField,
            Effect::WriteBytes(a, b) => Effect::WriteBytes(a@, b@),
            Effect::UrlExists(a) => Effect::UrlExists(a@),
            Effect::Head(a) => Effect::Head(a@),
            Effect::GetRange(a) => Effect::GetRange(a@),
            Effect::FetchArchive(a) => Effect::FetchArchive(a@),
            Effect::Connect(a) => Effect::Connect(a@),
            Effect::NextChunk => Effect::NextChunk,
            Effect::Extract(a, b) => Effect::Extract(a@, b@),
            Effect::SetProgress(a) => Effect::SetProgress(*a),
            Effect::StartInstall(a, b) => Effect::StartInstall(a@, b@),
            Effect::DiskFree(a) => Effect::DiskFree(a@),
            Effect::SwapSnapshot(a, b) => Effect::SwapSnapshot(*a, *b),
            Effect::ParseSeconds(a) => Effect::ParseSeconds(a@),
            Effect::ParseLoad(a) => Effect::ParseLoad(a@),
            Effect::SaveHost(a) => Effect::SaveHost(a@),
            Effect::LoadHost => Effect::LoadHost,
            Effect::Get(a) => Effect::Get(a@),
            Effect::ReadBody => Effect::ReadBody,
            Effect::IsRegistered(a) => Effect::IsRegistered(a@),
            Effect::Register(a) => Effect::Register(a@),
            Effect::Unregister(a) => Effect::Unregister(a@),
            Effect::RenameRegistered(a, b) => Effect::RenameRegistered(a@, b@),
            Effect::IsRunning(a) => Effect::IsRunning(a@),
            Effect::SlotRunning => Effect::SlotRunning,
            Effect::SlotPid => Effect::SlotPid,
            Effect::SlotKill => Effect::SlotKill,
            Effect::Interrupt(a) => Effect::Interrupt(*a),
            Effect::CtrlC => Effect::CtrlC,
            Effect::ForceKill => Effect::ForceKill,
            Effect::WaitExit(a) => Effect::WaitExit(*a),
            Effect::HasPassed(a) => Effect::HasPassed(*a),
            Effect::Sleep(a) => Effect::Sleep(*a),
            Effect::StopProcess => Effect::StopProcess,
            Effect::SendInput(a) => Effect::SendInput(a@),
            Effect::CleanupStale(a) => Effect::CleanupStale(a@),
            Effect::Publish(a) => Effect::Publish(a@),
            Effect::PublishBeyond(a) => Effect::PublishBeyond(a@),
            Effect::Spawn(a) => Effect::Spawn(a@),
            Effect::StartServer(a) => Effect::StartServer(a@),
            Effect::StopServer(a) => Effect::StopServer(a@),
        }
    }
}

/// What an entry of a directory is.
#[derive(Clone, Copy, Debug, PartialEq, Eq, Structural)]
pub enum EntryKind {
    Directory,
    File,
    Other,
}

/// What came of an effect.
#[derive(Debug, PartialEq, Eq)]
pub enum Reply<T, B, P> {
    /// Yes or no.
    Flag(bool),
    /// It is done.
    Done,
    /// There is none, or there are no more.
    Nothing,
    /// It failed, for the reason given.
    Failed(T),
    /// It failed: what it was about is not there.
    NotFound,
    Text(T),
    Bytes(B),
    /// Proofs of identities, each with the name of the instance that holds it.
    Index(P),
    Number(u64),
    /// Bytes and files.
    Stats(u64, u64),
    /// Seconds since 1970, and nanoseconds.
    Clock(u64, u32),
    Kind(EntryKind),
    /// The path of a directory entry, and its name where that is text.
    Entry(T, Option<T>),
    /// The folder that holds a backup, the backup's own, and its metadata.
    Backup(T, T, BackupMetadata<T>),
    Metadata(BackupMetadata<T>),
    /// The name and path of an instance.
    Instance(T, T),
    /// The file name that an upload field gives, if it gives one.
    Field(Option<T>),
    Cleanup(StaleProcessCleanupOutcome),
    Outcome(StopProcessOutcome<T>),
    /// The process id of a server, as far as it is known.
    Pid(Option<u32>),
}

/// A reply as it arrives.
pub type Heard = Reply<String, Vec<u8>, Vec<(String, String)>>;

/// A reply as contracts speak of it.
pub type Told = Reply<Seq<char>, Seq<u8>, Seq<(Seq<char>, Seq<char>)>>;

impl View for Reply<String, Vec<u8>, Vec<(String, String)>> {
    type V = Reply<Seq<char>, Seq<u8>, Seq<(Seq<char>, Seq<char>)>>;

    open spec fn view(&self) -> Reply<Seq<char>, Seq<u8>, Seq<(Seq<char>, Seq<char>)>> {
        match self {
            Reply::Flag(b) => Reply::Flag(*b),
            Reply::Done => Reply::Done,
            Reply::Nothing => Reply::Nothing,
            Reply::Failed(e) => Reply::Failed(e@),
            Reply::NotFound => Reply::NotFound,
            Reply::Text(t) => Reply::Text(t@),
            Reply::Bytes(b) => Reply::Bytes(b@),
            Reply::Index(p) => Reply::Index(pairs(p@)),
            Reply::Number(n) => Reply::Number(*n),
            Reply::Stats(a, b) => Reply::Stats(*a, *b),
            Reply::Clock(a, b) => Reply::Clock(*a, *b),
            Reply::Kind(k) => Reply::Kind(*k),
            Reply::Entry(p, n) => Reply::Entry(p@, opt_text(*n)),
            Reply::Backup(f, p, m) => Reply::Backup(f@, p@, m@),
            Reply::Metadata(m) => Reply::Metadata(m@),
            Reply::Instance(n, p) => Reply::Instance(n@, p@),
            Reply::Field(n) => Reply::Field(opt_text(*n)),
            Reply::Cleanup(c) => Reply::Cleanup(*c),
            Reply::Outcome(o) => Reply::Outcome(o@),
            Reply::Pid(p) => Reply::Pid(*p),
        }
    }
}

impl<T, B, P> Reply<T, B, P> {
    /// Whether the reply is a yes.
    pub open spec fn yes(self) -> bool {
        match self {
            Reply::Flag(b) => b,
            _ => false,
        }
    }

    /// Why the effect failed, if it did.
    pub open spec fn failure(self) -> Option<T> {
        match self {
            Reply::Failed(e) => Some(e),
            _ => None,
        }
    }

    /// The text that came back, if one did.
    pub open spec fn text(self) -> Option<T> {
        match self {
            Reply::Text(t) => Some(t),
            _ => None,
        }
    }
}

/// Whether reply `i` is a yes.
pub fn said_yes(replies: &Vec<Heard>, i: usize) -> (r: bool)
    requires
        i < replies@.len(),
    ensures
        r == views(replies@)[i as int].yes(),
{
    match &replies[i] {
        Reply::Flag(b) => *b,
        _ => false,
    }
}

/// Why effect `i` failed, if it did.
pub fn why_failed(replies: &Vec<Heard>, i: usize) -> (r: Option<String>)
    requires
        i < replies@.len(),
    ensures
        opt_text(r) == views(replies@)[i as int].failure(),
{
    match &replies[i] {
        Reply::Failed(e) => Some(e.clone()),
        _ => None,
    }
}

/// The text that effect `i` gave, if it gave one.
pub fn text_told(replies: &Vec<Heard>, i: usize) -> (r: Option<String>)
    requires
        i < replies@.len(),
    ensures
        opt_text(r) == views(replies@)[i as int].text(),
{
    match &replies[i] {
        Reply::Text(t) => Some(t.clone()),
        _ => None,
    }
}

/// The bytes that a reply tells; none where it tells none.
pub open spec fn bytes_told(reply: Told) -> Seq<u8> {
    match reply {
        Reply::Bytes(b) => b,
        _ => Seq::empty(),
    }
}

/// Why an effect that was to give something else failed; empty where it does not
/// say.
pub open spec fn fault(reply: Told) -> Seq<char> {
    match reply.failure() {
        Some(e) => e,
        None => Seq::empty(),
    }
}

/// Why effect `i`, which was to give something else, failed.
pub fn fault_told(replies: &Vec<Heard>, i: usize) -> (r: String)
    requires
        i < replies@.len(),
    ensures
        r@ == fault(views(replies@)[i as int]),
{
    match why_failed(replies, i) {
        Some(e) => e,
        None => {
            let nothing = String::new();
            assert(nothing@ =~= Seq::<char>::empty());
            nothing
        },
    }
}

/// The next step of a handler: one more effect, or the answer.
#[derive(Debug, PartialEq, Eq)]
pub enum Step<T, B, A> {
    Ask(Effect<T, B>),
    Answer(A),
}

impl<A: View> View for Step<String, Vec<u8>, A> {
    type V = Step<Seq<char>, Seq<u8>, A::V>;

    open spec fn view(&self) -> Step<Seq<char>, Seq<u8>, A::V> {
        match self {
            Step::Ask(e) => Step::Ask(e@),
            Step::Answer(a) => Step::Answer(a@),
        }
    }
}

/// What is told of the machine. The share of the processor in use is
/// `cpu_busy` of `cpu_total`, nothing where the total is zero.
#[derive(Debug, PartialEq, Eq)]
pub struct HostStats<T> {
    pub cpu_busy: u64,
    pub cpu_total: u64,
    pub memory_total_mb: u64,
    pub memory_used_mb: u64,
    pub disk_total_mb: u64,
    pub disk_used_mb: u64,
    pub uptime_seconds: u64,
    pub uptime_human: T,
}

impl View for HostStats<String> {
    type V = HostStats<Seq<char>>;

    open spec fn view(&self) -> HostStats<Seq<char>> {
        HostStats {
            cpu_busy: self.cpu_busy,
            cpu_total: self.cpu_total,
            memory_total_mb: self.memory_total_mb,
            memory_used_mb: self.memory_used_mb,
            disk_total_mb: self.disk_total_mb,
            disk_used_mb: self.disk_used_mb,
            uptime_seconds: self.uptime_seconds,
            uptime_human: self.uptime_human@,
        }
    }
}

/// What a request is answered.
#[derive(Debug, PartialEq, Eq)]
pub enum Answer<T, L> {
    /// The request failed or is refused, for the reason given.
    Error(T),
    /// A refusal with a status code.
    Refused(u16, T),
    /// Back to the start page.
    Home,
    /// The page that was asked for.
    Page,
    /// The page of the settings, with the text of the settings file if it can be
    /// read.
    SettingsPage(Option<T>),
    /// The page of the files in a directory, and the path that it is shown under.
    FilesPage { directory: T, current_path: T },
    Html(T),
    SettingsSaved { message: T, count: u64 },
    Content { path: T, content: T },
    FileSaved { message: T, path: T },
    Uploaded { message: T, path: T, files: L },
    FolderCreated { message: T, path: T },
    Deleted { message: T, path: T, kind: T },
    /// The bytes that were read last, offered under a name where a header can tell it.
    Download { disposition: Option<T> },
    BackupCreated { message: T, backup: BackupMetadata<T> },
    Restored { message: T, instance: T },
    BackupDeleted { message: T, source_instance: T },
    /// The installation goes on in the background.
    Downloading(T),
    NameUnchanged { message: T, new_name: T },
    Renamed { message: T, old_name: T, new_name: T, relinked_backups: u64, warning: Option<T> },
    InstanceDeleted(T),
    Ready { ready: bool, message: T },
    VersionFound { found: bool, message: T },
    HostStats(HostStats<T>),
    /// What the device told, as JSON.
    DeviceData(T),
    DeviceError(T),
}

/// An answer as it is given.
pub type Given = Answer<String, Vec<String>>;

/// An answer as contracts speak of it.
pub type Said = Answer<Seq<char>, Seq<Seq<char>>>;

impl View for Answer<String, Vec<String>> {
    type V = Answer<Seq<char>, Seq<Seq<char>>>;

    open spec fn view(&self) -> Answer<Seq<char>, Seq<Seq<char>>> {
        match self {
            Answer::Error(e) => Answer::Error(e@),
            Answer::Refused(c, e) => Answer::Refused(*c, e@),
            Answer::Home => Answer::Home,
            Answer::Page => Answer::Page,
            Answer::SettingsPage(t) => Answer::SettingsPage(opt_text(*t)),
            Answer::FilesPage { directory, current_path } => Answer::FilesPage {
                directory: directory@,
                current_path: current_path@,
            },
            Answer::Html(t) => Answer::Html(t@),
            Answer::SettingsSaved { message, count } => Answer::SettingsSaved {
                message: message@,
                count: *count,
            },
            Answer::Content { path, content } => Answer::Content { path: path@, content: content@ },
            Answer::FileSaved { message, path } => Answer::FileSaved {
                message: message@,
                path: path@,
            },
            Answer::Uploaded { message, path, files } => Answer::Uploaded {
                message: message@,
                path: path@,
                files: texts(files@),
            },
            Answer::FolderCreated { message, path } => Answer::FolderCreated {
                message: message@,
                path: path@,
            },
            Answer::Deleted { message, path, kind } => Answer::Deleted {
                message: message@,
                path: path@,
                kind: kind@,
            },
            Answer::Download { disposition } => Answer::Download {
                disposition: opt_text(*disposition),
            },
            Answer::BackupCreated { message, backup } => Answer::BackupCreated {
                message: message@,
                backup: backup@,
            },
            Answer::Restored { message, instance } => Answer::Restored {
                message: message@,
                instance: instance@,
            },
            Answer::BackupDeleted { message, source_instance } => Answer::BackupDeleted {
                message: message@,
                source_instance: source_instance@,
            },
            Answer::Downloading(m) => Answer::Downloading(m@),
            Answer::NameUnchanged { message, new_name } => Answer::NameUnchanged {
                message: message@,
                new_name: new_name@,
            },
            Answer::Renamed { message, old_name, new_name, relinked_backups, warning } => Answer::Renamed {
                message: message@,
                old_name: old_name@,
                new_name: new_name@,
                relinked_backups: *relinked_backups,
                warning: opt_text(*warning),
            },
            Answer::InstanceDeleted(m) => Answer::InstanceDeleted(m@),
            Answer::Ready { ready, message } => Answer::Ready { ready: *ready, message: message@ },
            Answer::VersionFound { found, message } => Answer::VersionFound {
                found: *found,
                message: message@,
            },
            Answer::HostStats(h) => Answer::HostStats(h@),
            Answer::DeviceData(d) => Answer::DeviceData(d@),
            Answer::DeviceError(m) => Answer::DeviceError(m@),
        }
    }
}

/// The step of a handler of requests.
pub type Move = Step<String, Vec<u8>, Given>;

/// The step of a handler of requests, as contracts speak of it.
pub type MoveView = Step<Seq<char>, Seq<u8>, Said>;

/// The step of a task whose answer is the reply to another handler's effect.
pub type Task = Step<String, Vec<u8>, Heard>;

/// The step of such a task, as contracts speak of it.
pub type TaskView = Step<Seq<char>, Seq<u8>, Told>;

/// The answer to a request that failed or is refused.
pub open spec fn refused(message: Seq<char>) -> MoveView {
    Step::Answer(Answer::Error(message))
}

/// The answer to a request that failed or is refused.
pub fn refuse(message: &str) -> (r: Move)
    ensures
        r@ == refused(message@),
{
    Step::Answer(Answer::Error(message.to_owned()))
}

/// The answer of a task that failed.
pub open spec fn failed(message: Seq<char>) -> TaskView {
    Step::Answer(Reply::Failed(message))
}

/// The answer of a task that failed.
pub fn fail(message: &str) -> (r: Task)
    ensures
        r@ == failed(message@),
{
    Step::Answer(Reply::Failed(message.to_owned()))
}

/// The paths that an effect itself makes, writes, moves or removes. For an effect
/// on a directory and all below it that is the directory.
pub open spec fn changes(e: Effect<Seq<char>, Seq<u8>>) -> Set<Seq<char>> {
    match e {
        Effect::WriteText(p, _) => set![p],
        Effect::CreateDir(p) => set![p],
        Effect::CreateDirAll(p) => set![p],
        Effect::RemoveFile(p) => set![p],
        Effect::RemoveDir(p) => set![p],
        Effect::RemoveDirAll(p) => set![p],
        Effect::Rename(a, b) => set![a, b],
        Effect::CopyFile(_, b) => set![b],
        Effect::CopyMode(_, b) => set![b],
        Effect::CopyTree(_, b) => set![b],
        Effect::MakeExecutable(p) => set![p],
        Effect::WriteIdentity(p, _) => set![joined_path(p, INSTANCE_ID_FILENAME@)],
        Effect::AssignIdentity(p) => set![joined_path(p, INSTANCE_ID_FILENAME@)],
        Effect::EnsureIdentity(p) => set![joined_path(p, INSTANCE_ID_FILENAME@)],
        Effect::WriteBytes(p, _) => set![p],
        Effect::Extract(p, _) => set![p],
        _ => Set::empty(),
    }
}

} // verus!
