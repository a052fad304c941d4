//! The identity of an instance: a text in a file of its own, which stays with the
//! instance when it is renamed. A backup knows where it came from by the identity
//! or by its proof, the SHA-256 digest of the identity.
use vstd::prelude::*;
use vstd::string::*;
use vstd::utf8::encode_utf8;

use crate::effects::{
    fail, failed, fault, fault_told, said_yes, text_told, why_failed, BackupMetadata, Effect, Heard,
    Reply, Step, Task, TaskView, Told,
};
use crate::order::views;
use crate::outside::{is_lower_hex, is_uuid_v4, random_uuid, sha256, sha256_digest};
use crate::paths::{join_path, joined_path, INSTANCE_ID_FILENAME};
use crate::properties::pairs;
use crate::text::{
    cat2, cat4, lemma_trimmed, lemma_trimmed_already, opt_text, same_text, trim, trim_back,
    trim_front, trimmed,
};

verus! {

/// A hexadecimal digit in lower case.
pub open spec fn hex_digit(n: u8) -> char {
    if n < 10 {
        (('0' as u32 + n) as u32) as char
    } else {
        (('a' as u32 + n - 10) as u32) as char
    }
}

/// The bytes in hexadecimal, two digits each.
pub open spec fn hex_text(bytes: Seq<u8>) -> Seq<char> {
    Seq::new(
        2 * bytes.len(),
        |i: int|
            hex_digit(
                if i % 2 == 0 {
                    bytes[i / 2] / 16
                } else {
                    bytes[i / 2] % 16
                },
            ),
    )
}

/// The proof of an identity: its digest in hexadecimal.
pub open spec fn proof_of(identity: Seq<char>) -> Seq<char> {
    hex_text(sha256_digest(encode_utf8(identity)))
}

/// A hexadecimal digit in lower case.
fn hex_char(n: u8) -> (c: char)
    requires
        n < 16,
    ensures
        c == hex_digit(n),
{
    if n < 10 {
        (48 + n) as char
    } else {
        (87 + n) as char
    }
}

/// The bytes in hexadecimal.
pub fn to_hex(bytes: &Vec<u8>) -> (r: String)
    ensures
        r@ == hex_text(bytes@),
{
    let mut out = String::new();
    let ghost want = hex_text(bytes@);
    let mut i: usize = 0;
    assert(out@ =~= want.take(0));
    while i < bytes.len()
        invariant
            i <= bytes.len(),
            want == hex_text(bytes@),
            out@ == want.take(2 * i),
        decreases bytes.len() - i,
    {
        let b: u8 = bytes[i];
        let high = hex_char(b / 16);
        let low = hex_char(b % 16);
        out.push(high);
        out.push(low);
        assert(want[2 * i] == high);
        assert(want[2 * i + 1] == low);
        assert(out@ =~= want.take(2 * (i + 1)));
        i = i + 1;
    }
    assert(want.take(want.len() as int) =~= want);
    out
}

/// The SHA-256 digest of a text in hexadecimal.
pub fn sha256_hex(input: &str) -> (r: String)
    ensures
        r@ == proof_of(input@),
        r@.len() == 64,
{
    let digest = sha256(input.as_bytes());
    to_hex(&digest)
}

/// Where an instance keeps its identity.
pub open spec fn identity_place(instance: Seq<char>) -> Seq<char> {
    joined_path(instance, INSTANCE_ID_FILENAME@)
}

/// Where the instance keeps its identity.
pub fn instance_identity_path(instance_path: &str) -> (r: String)
    ensures
        r@ == identity_place(instance_path@),
{
    join_path(instance_path, INSTANCE_ID_FILENAME)
}

/// The identity that the file's text holds, unless it is blank.
pub open spec fn identity_in(text: Seq<char>) -> Option<Seq<char>> {
    if trimmed(text).len() == 0 {
        None
    } else {
        Some(trimmed(text))
    }
}

/// The text that is written for an identity, unless that is blank.
pub open spec fn identity_text(identity: Seq<char>) -> Option<Seq<char>> {
    if trimmed(identity).len() == 0 {
        None
    } else {
        Some(trimmed(identity) + "\n"@)
    }
}

/// An identity that was written is read back as it was, trimmed.
pub proof fn law_written_identity_reads_back(identity: Seq<char>)
    ensures
        match identity_text(identity) {
            Some(text) => identity_in(text) == Some(trimmed(identity)),
            None => identity_in(identity) is None,
        },
{
    reveal_strlit("\n");
    let t = trimmed(identity);
    if t.len() > 0 {
        lemma_trimmed(identity);
        lemma_trimmed_already(t);
        let text = t + "\n"@;
        assert(text =~= t.push('\n'));
        assert(trim_front(text) == text);
        assert(text.drop_last() =~= t);
        assert(trim_back(text) == trim_back(t));
    }
}

/// Reading an instance's identity: the answer is the text, or nothing where there
/// is none to read.
pub open spec fn reading(instance: Seq<char>, r: Seq<Told>) -> TaskView {
    if r.len() == 0 {
        Step::Ask(Effect::ReadText(identity_place(instance)))
    } else {
        Step::Answer(
            match r[0].text() {
                Some(t) => match identity_in(t) {
                    Some(id) => Reply::Text(id),
                    None => Reply::Nothing,
                },
                None => Reply::Nothing,
            },
        )
    }
}

/// Reads the instance's identity.
pub fn read_instance_identity(instance_path: &str, replies: &Vec<Heard>) -> (s: Task)
    ensures
        s@ == reading(instance_path@, views(replies@)),
{
    if replies.len() == 0 {
        return Step::Ask(Effect::ReadText(instance_identity_path(instance_path)));
    }
    match text_told(replies, 0) {
        Some(text) => {
            let identity = trim(text.as_str());
            if identity.is_empty() {
                Step::Answer(Reply::Nothing)
            } else {
                Step::Answer(Reply::Text(identity.to_owned()))
            }
        },
        None => Step::Answer(Reply::Nothing),
    }
}

/// Writing an instance's identity.
pub open spec fn writing(instance: Seq<char>, identity: Seq<char>, r: Seq<Told>) -> TaskView {
    match identity_text(identity) {
        None => failed("Instance identity cannot be empty"@),
        Some(text) => if r.len() == 0 {
            Step::Ask(Effect::WriteText(identity_place(instance), text))
        } else {
            match r[0].failure() {
                Some(e) => failed(
                    "Failed to write instance identity "@ + identity_place(instance) + ": "@ + e,
                ),
                None => Step::Answer(Reply::Done),
            }
        },
    }
}

/// Gives the instance an identity.
pub fn write_instance_identity(instance_path: &str, identity: &str, replies: &Vec<Heard>) -> (s: Task)
    ensures
        s@ == writing(instance_path@, identity@, views(replies@)),
{
    let text = trim(identity);
    if text.is_empty() {
        return fail("Instance identity cannot be empty");
    }
    let place = instance_identity_path(instance_path);
    if replies.len() == 0 {
        return Step::Ask(Effect::WriteText(place, cat2(text, "\n")));
    }
    match why_failed(replies, 0) {
        Some(e) => fail(
            cat4("Failed to write instance identity ", place.as_str(), ": ", e.as_str()).as_str(),
        ),
        None => Step::Answer(Reply::Done),
    }
}

/// An identity that no other instance has, but for a chance too small to count
/// on: a random UUID.
pub fn fresh_identity() -> (r: Heard)
    ensures
        r@ matches Reply::Text(t) && is_uuid_v4(t),
{
    Reply::Text(random_uuid())
}

/// Giving an instance a new identity: the answer is the identity.
pub open spec fn assigning(instance: Seq<char>, r: Seq<Told>) -> TaskView {
    if r.len() == 0 {
        Step::Ask(Effect::FreshIdentity)
    } else {
        match r[0].text() {
            None => failed("Instance identity cannot be empty"@),
            Some(id) => if r.len() == 1 {
                Step::Ask(Effect::WriteIdentity(instance, id))
            } else {
                match r[1].failure() {
                    Some(e) => failed(e),
                    None => Step::Answer(Reply::Text(id)),
                }
            },
        }
    }
}

/// Gives the instance a new identity.
pub fn assign_new_instance_identity(instance_path: &str, replies: &Vec<Heard>) -> (s: Task)
    ensures
        s@ == assigning(instance_path@, views(replies@)),
{
    if replies.len() == 0 {
        return Step::Ask(Effect::FreshIdentity);
    }
    let identity = match text_told(replies, 0) {
        Some(identity) => identity,
        None => return fail("Instance identity cannot be empty"),
    };
    if replies.len() == 1 {
        return Step::Ask(Effect::WriteIdentity(instance_path.to_owned(), identity));
    }
    match why_failed(replies, 1) {
        Some(e) => fail(e.as_str()),
        None => Step::Answer(Reply::Text(identity)),
    }
}

/// Reading an instance's identity, or giving it one where it has none.
pub open spec fn ensuring(instance: Seq<char>, r: Seq<Told>) -> TaskView {
    if r.len() == 0 {
        Step::Ask(Effect::ReadIdentity(instance))
    } else {
        match r[0].text() {
            Some(id) => Step::Answer(Reply::Text(id)),
            None => if r.len() == 1 {
                Step::Ask(Effect::AssignIdentity(instance))
            } else {
                match r[1].text() {
                    Some(id) => Step::Answer(Reply::Text(id)),
                    None => failed(fault(r[1])),
                }
            },
        }
    }
}

/// Reads the instance's identity, or gives it one where it has none.
pub fn ensure_instance_identity(instance_path: &str, replies: &Vec<Heard>) -> (s: Task)
    ensures
        s@ == ensuring(instance_path@, views(replies@)),
{
    if replies.len() == 0 {
        return Step::Ask(Effect::ReadIdentity(instance_path.to_owned()));
    }
    if let Some(identity) = text_told(replies, 0) {
        return Step::Answer(Reply::Text(identity));
    }
    if replies.len() == 1 {
        return Step::Ask(Effect::AssignIdentity(instance_path.to_owned()));
    }
    if let Some(identity) = text_told(replies, 1) {
        return Step::Answer(Reply::Text(identity));
    }
    fail(fault_told(replies, 1).as_str())
}

/// An identity that an instance has is kept: nothing is written.
pub proof fn law_identity_is_kept(instance: Seq<char>, r: Seq<Told>)
    requires
        r.len() > 0,
        r[0].text() is Some,
    ensures
        ensuring(instance, r) == Step::<Seq<char>, Seq<u8>, Told>::Answer(Reply::Text(r[0].text()->0)),
{
}

/// The identity of the instance that a backup was made of, as its metadata tells
/// it, or else as the identity file among the backup's files does.
pub open spec fn source_identity(m: BackupMetadata<Seq<char>>, in_files: Option<Seq<char>>) -> Option<
    Seq<char>,
> {
    match m.source_instance_id {
        Some(id) => Some(id),
        None => in_files,
    }
}

/// The identity of the instance that the backup was made of.
pub fn backup_source_identity(m: &BackupMetadata<String>, in_files: Option<String>) -> (r: Option<
    String,
>)
    ensures
        opt_text(r) == source_identity(m@, opt_text(in_files)),
{
    match &m.source_instance_id {
        Some(id) => Some(id.clone()),
        None => in_files,
    }
}

/// The search for the instance with a proof, from reply `i` on, after one was
/// found or not. The replies go through the instances' directory: an entry,
/// whether it is a directory, and its identity.
pub open spec fn proof_search(
    root: Seq<char>,
    digest: Seq<char>,
    r: Seq<Told>,
    i: int,
    found: Option<(Seq<char>, Seq<char>)>,
) -> TaskView
    decreases r.len() - i,
{
    if i < 0 || i >= r.len() {
        Step::Ask(Effect::NextEntry(root))
    } else {
        match r[i] {
            Reply::Failed(e) => failed("Failed to read instance entry: "@ + e),
            Reply::Entry(path, name) => if i + 1 >= r.len() {
                Step::Ask(Effect::IsDir(path))
            } else if !r[i + 1].yes() || name is None {
                proof_search(root, digest, r, i + 2, found)
            } else if i + 2 >= r.len() {
                Step::Ask(Effect::ReadIdentity(path))
            } else if !has_proof(r[i + 2], digest) {
                proof_search(root, digest, r, i + 3, found)
            } else if found is Some {
                failed(
                    "Multiple instances match this backup identity proof; refusing unsafe override"@,
                )
            } else {
                proof_search(root, digest, r, i + 3, Some((name->0, path)))
            },
            _ => Step::Answer(
                match found {
                    Some((name, path)) => Reply::Instance(name, path),
                    None => Reply::Nothing,
                },
            ),
        }
    }
}

/// Whether the reply is an identity with the proof.
pub open spec fn has_proof(reply: Told, digest: Seq<char>) -> bool {
    match reply.text() {
        Some(id) => proof_of(id) == digest,
        None => false,
    }
}

/// The search for the one instance whose identity has a proof. The answer is the
/// instance, or nothing where no instance has it.
pub open spec fn finding(root: Seq<char>, digest: Seq<char>, r: Seq<Told>) -> TaskView {
    if r.len() == 0 {
        Step::Ask(Effect::IsDir(root))
    } else if !r[0].yes() {
        Step::Answer(Reply::Nothing)
    } else if r.len() == 1 {
        Step::Ask(Effect::OpenDir(root))
    } else {
        match r[1].failure() {
            Some(e) => failed("Failed to read instances directory "@ + root + ": "@ + e),
            None => proof_search(root, digest, r, 2, None),
        }
    }
}

/// Pairs of strings by their texts.
pub open spec fn opt_pair(p: Option<(String, String)>) -> Option<(Seq<char>, Seq<char>)> {
    match p {
        Some((a, b)) => Some((a@, b@)),
        None => None,
    }
}

/// Whether reply `i` is an identity with the proof.
fn shows_proof(replies: &Vec<Heard>, i: usize, digest: &str) -> (r: bool)
    requires
        i < replies@.len(),
    ensures
        r == has_proof(views(replies@)[i as int], digest@),
{
    match text_told(replies, i) {
        Some(identity) => same_text(sha256_hex(identity.as_str()).as_str(), digest),
        None => false,
    }
}

/// Finds the one instance whose identity has the proof.
pub fn find_instance_by_identity_proof(
    instances_root: &str,
    proof_sha256: &str,
    replies: &Vec<Heard>,
) -> (s: Task)
    ensures
        s@ == finding(instances_root@, proof_sha256@, views(replies@)),
{
    let ghost r = views(replies@);
    let n: usize = replies.len();
    if n == 0 {
        return Step::Ask(Effect::IsDir(instances_root.to_owned()));
    }
    if !said_yes(replies, 0) {
        return Step::Answer(Reply::Nothing);
    }
    if n == 1 {
        return Step::Ask(Effect::OpenDir(instances_root.to_owned()));
    }
    if let Some(e) = why_failed(replies, 1) {
        return fail(
            cat4("Failed to read instances directory ", instances_root, ": ", e.as_str()).as_str(),
        );
    }
    let mut found: Option<(String, String)> = None;
    let mut i: usize = 2;
    let ghost goal = proof_search(instances_root@, proof_sha256@, r, 2, None);
    while i < n
        invariant
            n == replies@.len(),
            2 <= i <= n,
            r == views(replies@),
            goal == proof_search(instances_root@, proof_sha256@, r, i as int, opt_pair(found)),
            goal == finding(instances_root@, proof_sha256@, r),
        decreases n - i,
    {
        assert(r[i as int] == replies@[i as int]@);
        match &replies[i] {
            Reply::Failed(e) => {
                return fail(cat2("Failed to read instance entry: ", e.as_str()).as_str());
            },
            Reply::Entry(path, name) => {
                if i + 1 >= n {
                    return Step::Ask(Effect::IsDir(path.clone()));
                }
                let name = match name {
                    Some(name) if said_yes(replies, i + 1) => name,
                    _ => {
                        i = i + 2;
                        continue;
                    },
                };
                if i + 2 >= n {
                    return Step::Ask(Effect::ReadIdentity(path.clone()));
                }
                if shows_proof(replies, i + 2, proof_sha256) {
                    if found.is_some() {
                        return fail(
                            "Multiple instances match this backup identity proof; refusing unsafe override",
                        );
                    }
                    found = Some((name.clone(), path.clone()));
                }
                i = i + 3;
            },
            _ => {
                return Step::Answer(
                    match found {
                        Some((name, path)) => Reply::Instance(name, path),
                        None => Reply::Nothing,
                    },
                );
            },
        }
    }
    Step::Ask(Effect::NextEntry(instances_root.to_owned()))
}

/// The instances that the replies tell of from reply `i` on and whose identity
/// has the proof: their names and paths.
pub open spec fn holders(digest: Seq<char>, r: Seq<Told>, i: int) -> Seq<(Seq<char>, Seq<char>)>
    decreases r.len() - i,
{
    if i < 0 || i >= r.len() {
        Seq::empty()
    } else {
        match r[i] {
            Reply::Entry(path, name) => if i + 1 >= r.len() {
                Seq::empty()
            } else if !r[i + 1].yes() || name is None {
                holders(digest, r, i + 2)
            } else if i + 2 >= r.len() {
                Seq::empty()
            } else if has_proof(r[i + 2], digest) {
                seq![(name->0, path)] + holders(digest, r, i + 3)
            } else {
                holders(digest, r, i + 3)
            },
            _ => Seq::empty(),
        }
    }
}

/// What a search is refused with where more than one instance holds the proof.
pub open spec fn ambiguous() -> TaskView {
    failed("Multiple instances match this backup identity proof; refusing unsafe override"@)
}

proof fn lemma_search_holders(
    root: Seq<char>,
    digest: Seq<char>,
    r: Seq<Told>,
    i: int,
    found: Option<(Seq<char>, Seq<char>)>,
)
    ensures
        match proof_search(root, digest, r, i, found) {
            Step::Answer(Reply::Instance(name, path)) => match found {
                Some(f) => f == (name, path) && holders(digest, r, i).len() == 0,
                None => holders(digest, r, i) == seq![(name, path)],
            },
            Step::Answer(Reply::Nothing) => found is None && holders(digest, r, i).len() == 0,
            _ => true,
        },
        proof_search(root, digest, r, i, found) == ambiguous() <==> {
            let n = holders(digest, r, i).len();
            n >= 2 || found is Some && n == 1
        },
    decreases r.len() - i,
{
    reveal_strlit("Multiple instances match this backup identity proof; refusing unsafe override");
    reveal_strlit("Failed to read instance entry: ");
    if 0 <= i && i < r.len() && r[i] is Failed {
        let e = r[i]->Failed_0;
        assert(("Failed to read instance entry: "@ + e)[0] == 'F');
    }
    if 0 <= i && i < r.len() {
        if let Reply::Entry(path, name) = r[i] {
            if i + 1 < r.len() {
                if !r[i + 1].yes() || name is None {
                    lemma_search_holders(root, digest, r, i + 2, found);
                } else if i + 2 < r.len() {
                    if !has_proof(r[i + 2], digest) {
                        lemma_search_holders(root, digest, r, i + 3, found);
                    } else if found is None {
                        lemma_search_holders(root, digest, r, i + 3, Some((name->0, path)));
                        let rest = holders(digest, r, i + 3);
                        assert(rest.len() == 0 ==> seq![(name->0, path)] + rest =~= seq![
                            (name->0, path),
                        ]);
                    }
                }
            }
        }
    }
}

/// An instance is found by its proof only where it is the only one to hold it, the
/// search comes back empty only where none does, and it is refused exactly where
/// two or more do. A search that cannot open the directory sees none of them.
pub proof fn law_found_instance_is_the_only_one(root: Seq<char>, digest: Seq<char>, r: Seq<Told>)
    requires
        r.len() > 0,
        r[0].yes(),
    ensures
        match finding(root, digest, r) {
            Step::Answer(Reply::Instance(name, path)) => holders(digest, r, 2) == seq![(name, path)],
            Step::Answer(Reply::Nothing) => holders(digest, r, 2).len() == 0,
            _ => true,
        },
        finding(root, digest, r) == ambiguous() <==> r.len() > 1 && r[1].failure() is None
            && holders(digest, r, 2).len() >= 2,
{
    lemma_search_holders(root, digest, r, 2, None);
    reveal_strlit("Multiple instances match this backup identity proof; refusing unsafe override");
    reveal_strlit("Failed to read instances directory ");
    if r.len() > 1 && r[1] is Failed {
        let e = r[1]->Failed_0;
        assert(("Failed to read instances directory "@ + root + ": "@ + e)[0] == 'F');
    }
}

/// The instance that an index gives for a proof.
pub open spec fn indexed(index: Seq<(Seq<char>, Seq<char>)>, digest: Seq<char>) -> Option<Seq<char>>
    decreases index.len(),
{
    if index.len() == 0 {
        None
    } else if index[0].0 == digest {
        Some(index[0].1)
    } else {
        indexed(index.drop_first(), digest)
    }
}

/// The instance that the index gives for the proof.
pub fn find_in_index(index: &Vec<(String, String)>, digest: &str) -> (r: Option<String>)
    ensures
        opt_text(r) == indexed(pairs(index@), digest@),
{
    let ghost all = pairs(index@);
    let mut i: usize = 0;
    assert(all.skip(0) =~= all);
    while i < index.len()
        invariant
            i <= index.len(),
            all == pairs(index@),
            indexed(all.skip(i as int), digest@) == indexed(all, digest@),
        decreases index.len() - i,
    {
        assert(all.skip(i as int)[0] == (index@[i as int].0@, index@[i as int].1@));
        assert(all.skip(i as int).drop_first() =~= all.skip(i + 1));
        if same_text(index[i].0.as_str(), digest) {
            return Some(index[i].1.clone());
        }
        i = i + 1;
    }
    assert(all.skip(all.len() as int).len() == 0);
    None
}

/// The index with one more instance, unless its proof is there.
pub open spec fn with_proof(
    index: Seq<(Seq<char>, Seq<char>)>,
    digest: Seq<char>,
    name: Seq<char>,
) -> Seq<(Seq<char>, Seq<char>)> {
    if indexed(index, digest) is Some {
        index
    } else {
        index.push((digest, name))
    }
}

/// Of two instances with one proof, the index keeps the first; the others stay as
/// they were.
pub proof fn law_first_instance_is_indexed(
    index: Seq<(Seq<char>, Seq<char>)>,
    digest: Seq<char>,
    name: Seq<char>,
    other: Seq<char>,
)
    ensures
        indexed(with_proof(index, digest, name), digest) == Some(
            match indexed(index, digest) {
                Some(first) => first,
                None => name,
            },
        ),
        other != digest ==> indexed(with_proof(index, digest, name), other) == indexed(index, other),
    decreases index.len(),
{
    if indexed(index, digest) is None {
        let more = index.push((digest, name));
        if index.len() > 0 {
            law_first_instance_is_indexed(index.drop_first(), digest, name, other);
            assert(more.drop_first() =~= index.drop_first().push((digest, name)));
            assert(more[0] == index[0]);
        } else {
            assert(more.drop_first() =~= Seq::empty());
            assert(indexed(more.drop_first(), other) is None);
        }
    }
}

/// Building the index from reply `i` on. The replies go through the instances'
/// directory: an entry, whether it is a directory, and its identity.
pub open spec fn index_build(
    root: Seq<char>,
    r: Seq<Told>,
    i: int,
    index: Seq<(Seq<char>, Seq<char>)>,
) -> TaskView
    decreases r.len() - i,
{
    if i < 0 || i >= r.len() {
        Step::Ask(Effect::NextEntry(root))
    } else {
        match r[i] {
            Reply::Failed(e) => failed("Failed to read instance entry: "@ + e),
            Reply::Entry(path, name) => if i + 1 >= r.len() {
                Step::Ask(Effect::IsDir(path))
            } else if !r[i + 1].yes() || name is None {
                index_build(root, r, i + 2, index)
            } else if i + 2 >= r.len() {
                Step::Ask(Effect::EnsureIdentity(path))
            } else {
                match r[i + 2].text() {
                    Some(id) => index_build(
                        root,
                        r,
                        i + 3,
                        with_proof(index, proof_of(id), name->0),
                    ),
                    None => index_build(root, r, i + 3, index),
                }
            },
            _ => Step::Answer(Reply::Index(index)),
        }
    }
}

/// Building the index of the instances by the proofs of their identities.
pub open spec fn indexing(root: Seq<char>, r: Seq<Told>) -> TaskView {
    if r.len() == 0 {
        Step::Ask(Effect::IsDir(root))
    } else if !r[0].yes() {
        Step::Answer(Reply::Index(Seq::empty()))
    } else if r.len() == 1 {
        Step::Ask(Effect::OpenDir(root))
    } else {
        match r[1].failure() {
            Some(e) => failed("Failed to read instances directory "@ + root + ": "@ + e),
            None => index_build(root, r, 2, Seq::empty()),
        }
    }
}

/// Builds the index of the instances by the proofs of their identities.
pub fn build_instance_proof_index(instances_root: &str, replies: &Vec<Heard>) -> (s: Task)
    ensures
        s@ == indexing(instances_root@, views(replies@)),
{
    let ghost r = views(replies@);
    let n: usize = replies.len();
    let mut index: Vec<(String, String)> = Vec::new();
    assert(pairs(index@) =~= Seq::empty());
    if n == 0 {
        return Step::Ask(Effect::IsDir(instances_root.to_owned()));
    }
    if !said_yes(replies, 0) {
        return Step::Answer(Reply::Index(index));
    }
    if n == 1 {
        return Step::Ask(Effect::OpenDir(instances_root.to_owned()));
    }
    if let Some(e) = why_failed(replies, 1) {
        return fail(
            cat4("Failed to read instances directory ", instances_root, ": ", e.as_str()).as_str(),
        );
    }
    let mut i: usize = 2;
    let ghost goal = index_build(instances_root@, r, 2, Seq::empty());
    while i < n
        invariant
            n == replies@.len(),
            2 <= i <= n,
            r == views(replies@),
            goal == index_build(instances_root@, r, i as int, pairs(index@)),
            goal == indexing(instances_root@, r),
        decreases n - i,
    {
        assert(r[i as int] == replies@[i as int]@);
        match &replies[i] {
            Reply::Failed(e) => {
                return fail(cat2("Failed to read instance entry: ", e.as_str()).as_str());
            },
            Reply::Entry(path, name) => {
                if i + 1 >= n {
                    return Step::Ask(Effect::IsDir(path.clone()));
                }
                let name = match name {
                    Some(name) if said_yes(replies, i + 1) => name,
                    _ => {
                        i = i + 2;
                        continue;
                    },
                };
                if i + 2 >= n {
                    return Step::Ask(Effect::EnsureIdentity(path.clone()));
                }
                if let Some(identity) = text_told(replies, i + 2) {
                    let proof_text = sha256_hex(identity.as_str());
                    if find_in_index(&index, proof_text.as_str()).is_none() {
                        let ghost before = index@;
                        index.push((proof_text, name.clone()));
                        assert(pairs(index@) =~= pairs(before).push((proof_text@, name@)));
                    }
                }
                i = i + 3;
            },
            _ => {
                return Step::Answer(Reply::Index(index));
            },
        }
    }
    Step::Ask(Effect::NextEntry(instances_root.to_owned()))
}

/// The index that a reply tells; an empty one where it tells none.
pub open spec fn index_told(reply: Told) -> Seq<(Seq<char>, Seq<char>)> {
    match reply {
        Reply::Index(p) => p,
        _ => Seq::empty(),
    }
}

/// Reading an instance's identity after it was written gives it back, trimmed: what
/// is written goes to the file that is read.
pub proof fn law_identity_survives(instance: Seq<char>, identity: Seq<char>)
    requires
        trimmed(identity).len() > 0,
    ensures
        writing(instance, identity, Seq::empty()) matches Step::Ask(Effect::WriteText(path, text)) && {
            &&& reading(instance, Seq::empty()) == Step::<Seq<char>, Seq<u8>, Told>::Ask(
                Effect::ReadText(path),
            )
            &&& reading(instance, seq![Reply::Text(text)]) == Step::<Seq<char>, Seq<u8>, Told>::Answer(
                Reply::Text(trimmed(identity)),
            )
        },
{
    law_written_identity_reads_back(identity);
}

/// An identity that was made up can be written, and is read back as it is.
pub proof fn law_fresh_identity_is_whole(identity: Seq<char>)
    requires
        is_uuid_v4(identity),
    ensures
        trimmed(identity) == identity,
        identity.len() > 0,
{
    assert(is_lower_hex(identity[0]));
    assert(is_lower_hex(identity[35]));
    lemma_trimmed_already(identity);
}

/// A proof is written in small hexadecimal digits, two for each byte, the upper half
/// first.
pub proof fn law_proof_is_hexadecimal(bytes: Seq<u8>, i: int)
    ensures
        hex_text(bytes).len() == 2 * bytes.len(),
        0 <= i < bytes.len() ==> {
            let digits = seq![
                '0', '1', '2', '3', '4', '5', '6', '7', '8', '9', 'a', 'b', 'c', 'd', 'e', 'f',
            ];
            &&& hex_text(bytes)[2 * i] == digits[bytes[i] as int / 16]
            &&& hex_text(bytes)[2 * i + 1] == digits[bytes[i] as int % 16]
        },
{
    if 0 <= i < bytes.len() {
        let h = bytes[i] / 16;
        let l = bytes[i] % 16;
        assert((2 * i) / 2 == i && (2 * i) % 2 == 0);
        assert((2 * i + 1) / 2 == i && (2 * i + 1) % 2 == 1);
        assert(hex_text(bytes)[2 * i] == hex_digit(h));
        assert(hex_text(bytes)[2 * i + 1] == hex_digit(l));
        assert(h < 16 && l < 16);
    }
}

/// The identity of an instance is read from its file, trimmed; where that cannot be read
/// or is blank there is none.
pub proof fn law_identity_is_read(instance: Seq<char>, x: Told)
    ensures
        reading(instance, Seq::empty()) == TaskView::Ask(
            Effect::ReadText(joined_path(instance, ".minara_instance_id"@)),
        ),
        reading(instance, seq![x]) == TaskView::Answer(
            match x {
                Reply::Text(t) => if trimmed(t).len() > 0 {
                    Reply::Text(trimmed(t))
                } else {
                    Reply::Nothing
                },
                _ => Reply::Nothing,
            },
        ),
{
}

/// An identity is written to the instance's file, trimmed and with a line feed; a blank
/// one is refused.
pub proof fn law_identity_is_written(instance: Seq<char>, identity: Seq<char>, x: Told)
    ensures
        ({
            let place = joined_path(instance, ".minara_instance_id"@);
            if trimmed(identity).len() == 0 {
                &&& writing(instance, identity, Seq::empty()) == failed(
                    "Instance identity cannot be empty"@,
                )
            } else {
                &&& writing(instance, identity, Seq::empty()) == TaskView::Ask(
                    Effect::WriteText(place, trimmed(identity) + "\n"@),
                )
                &&& writing(instance, identity, seq![x]) == match x {
                    Reply::Failed(e) => failed(
                        "Failed to write instance identity "@ + place + ": "@ + e,
                    ),
                    _ => TaskView::Answer(Reply::Done),
                }
            }
        }),
{
}

/// A new identity is made up and written; it is told once it is written.
pub proof fn law_identity_is_assigned(instance: Seq<char>, id: Seq<char>, x: Told)
    ensures
        assigning(instance, Seq::empty()) == TaskView::Ask(Effect::FreshIdentity),
        assigning(instance, seq![Reply::Text(id)]) == TaskView::Ask(
            Effect::WriteIdentity(instance, id),
        ),
        assigning(instance, seq![Reply::Text(id), x]) == match x {
            Reply::Failed(e) => failed(e),
            _ => TaskView::Answer(Reply::Text(id)),
        },
{
}

/// An instance keeps the identity that it has, and gets a new one only where it has none.
pub proof fn law_identity_is_ensured(instance: Seq<char>, x: Told, y: Told)
    ensures
        ensuring(instance, Seq::empty()) == TaskView::Ask(Effect::ReadIdentity(instance)),
        ensuring(instance, seq![x]) == match x {
            Reply::Text(id) => TaskView::Answer(Reply::Text(id)),
            _ => TaskView::Ask(Effect::AssignIdentity(instance)),
        },
        !(x is Text) ==> match y {
            Reply::Text(id) => ensuring(instance, seq![x, y]) == TaskView::Answer(Reply::Text(id)),
            Reply::Failed(e) => ensuring(instance, seq![x, y]) == failed(e),
            _ => ensuring(instance, seq![x, y]) matches Step::Answer(Reply::Failed(_)),
        },
{
}

/// The identity of a backup is what its metadata tells, and else what stands in its files.
pub proof fn law_source_of_a_backup(m: BackupMetadata<Seq<char>>, in_files: Option<Seq<char>>)
    ensures
        source_identity(m, in_files) == if m.source_instance_id is Some {
            m.source_instance_id
        } else {
            in_files
        },
{
}

/// Where a step of the search for a proof leads once its reply has come.
proof fn lemma_search_goes_on(
    root: Seq<char>,
    digest: Seq<char>,
    r: Seq<Told>,
    i: int,
    found: Option<(Seq<char>, Seq<char>)>,
    x: Told,
)
    requires
        0 <= i <= r.len(),
    ensures
        ({
            let next = proof_search(root, digest, r.push(x), i, found);
            match proof_search(root, digest, r, i, found) {
                Step::Ask(Effect::NextEntry(d)) => d == root && match x {
                    Reply::Entry(path, _) => next == TaskView::Ask(Effect::IsDir(path)),
                    Reply::Failed(e) => next == failed("Failed to read instance entry: "@ + e),
                    _ => next is Answer,
                },
                Step::Ask(Effect::IsDir(path)) => {
                    &&& r.len() > i
                    &&& r.last() matches Reply::Entry(p, name) && p == path && next
                        == TaskView::Ask(
                        if x == Told::Flag(true) && name is Some {
                            Effect::ReadIdentity(path)
                        } else {
                            Effect::NextEntry(root)
                        },
                    )
                },
                Step::Ask(Effect::ReadIdentity(_)) => {
                    ||| next == TaskView::Ask(Effect::NextEntry(root))
                    ||| next == ambiguous() && (x matches Reply::Text(id) && proof_of(id) == digest)
                },
                Step::Ask(_) => false,
                Step::Answer(a) => next == TaskView::Answer(a),
            }
        }),
    decreases r.len() - i,
{
    reveal_with_fuel(proof_search, 2);
    let q = r.push(x);
    assert forall|j: int| 0 <= j < r.len() implies q[j] == r[j] by {}
    assert(q[r.len() as int] == x);
    if i < r.len() {
        if let Reply::Entry(path, name) = r[i] {
            if i + 1 < r.len() {
                if !r[i + 1].yes() || name is None {
                    lemma_search_goes_on(root, digest, r, i + 2, found, x);
                } else if i + 2 < r.len() {
                    if !has_proof(r[i + 2], digest) {
                        lemma_search_goes_on(root, digest, r, i + 3, found, x);
                    } else if found is None {
                        lemma_search_goes_on(root, digest, r, i + 3, Some((name->0, path)), x);
                    }
                }
            }
        }
    }
}

/// One more instance with an identity makes a difference to the search exactly where its
/// identity has the proof.
proof fn lemma_search_sees_each(
    root: Seq<char>,
    digest: Seq<char>,
    r: Seq<Told>,
    i: int,
    found: Option<(Seq<char>, Seq<char>)>,
    path: Seq<char>,
    name: Seq<char>,
    id: Seq<char>,
    before: Told,
)
    requires
        0 <= i <= r.len(),
        proof_search(root, digest, r, i, found) == TaskView::Ask(Effect::NextEntry(root)),
        proof_search(root, digest, r.push(Reply::Nothing), i, found) == TaskView::Answer(before),
    ensures
        before is Nothing || before is Instance,
        ({
            let more = r.push(Reply::Entry(path, Some(name))).push(Reply::Flag(true)).push(
                Reply::Text(id),
            );
            if proof_of(id) != digest {
                proof_search(root, digest, more.push(Reply::Nothing), i, found)
                    == TaskView::Answer(before)
            } else if before is Nothing {
                proof_search(root, digest, more.push(Reply::Nothing), i, found)
                    == TaskView::Answer(Reply::Instance(name, path))
            } else {
                proof_search(root, digest, more, i, found) == ambiguous()
            }
        }),
    decreases r.len() - i,
{
    reveal_with_fuel(proof_search, 3);
    let q = r.push(Reply::Nothing);
    let more = r.push(Reply::Entry(path, Some(name))).push(Reply::Flag(true)).push(Reply::Text(id));
    let end = more.push(Reply::Nothing);
    assert forall|j: int| 0 <= j < r.len() implies q[j] == r[j] && more[j] == r[j] && end[j]
        == r[j] by {}
    if i < r.len() {
        if let Reply::Entry(p, n) = r[i] {
            assert(i + 1 < r.len());
            if !r[i + 1].yes() || n is None {
                lemma_search_sees_each(root, digest, r, i + 2, found, path, name, id, before);
            } else {
                assert(i + 2 < r.len());
                if !has_proof(r[i + 2], digest) {
                    lemma_search_sees_each(root, digest, r, i + 3, found, path, name, id, before);
                } else {
                    lemma_search_sees_each(
                        root,
                        digest,
                        r,
                        i + 3,
                        Some((n->0, p)),
                        path,
                        name,
                        id,
                        before,
                    );
                }
            }
        }
    } else {
        assert(q[i] == Told::Nothing);
        assert(more[i] == Told::Entry(path, Some(name)) && more[i + 1] == Told::Flag(true) && more[i
            + 2] == Told::Text(id));
        assert(end[i] == Told::Entry(path, Some(name)) && end[i + 1] == Told::Flag(true) && end[i
            + 2] == Told::Text(id) && end[i + 3] == Told::Nothing);
    }
}

/// The search for an instance by its proof goes on as each reply asks for: of each entry
/// that is a directory with a name the identity is read, wherever in the list it stands.
pub proof fn law_search_goes_on(root: Seq<char>, digest: Seq<char>, r: Seq<Told>, x: Told)
    ensures
        finding(root, digest, Seq::empty()) == TaskView::Ask(Effect::IsDir(root)),
        ({
            let next = finding(root, digest, r.push(x));
            match finding(root, digest, r) {
                Step::Ask(Effect::IsDir(path)) => if r.len() == 0 {
                    next == if x == Told::Flag(true) {
                        TaskView::Ask(Effect::OpenDir(root))
                    } else {
                        TaskView::Answer(Reply::Nothing)
                    }
                } else {
                    r.last() matches Reply::Entry(p, name) && p == path && next == TaskView::Ask(
                        if x == Told::Flag(true) && name is Some {
                            Effect::ReadIdentity(path)
                        } else {
                            Effect::NextEntry(root)
                        },
                    )
                },
                Step::Ask(Effect::OpenDir(d)) => d == root && next == match x {
                    Reply::Failed(e) => failed(
                        "Failed to read instances directory "@ + root + ": "@ + e,
                    ),
                    _ => TaskView::Ask(Effect::NextEntry(root)),
                },
                Step::Ask(Effect::NextEntry(d)) => d == root && match x {
                    Reply::Entry(path, _) => next == TaskView::Ask(Effect::IsDir(path)),
                    Reply::Failed(e) => next == failed("Failed to read instance entry: "@ + e),
                    _ => next is Answer,
                },
                Step::Ask(Effect::ReadIdentity(_)) => {
                    ||| next == TaskView::Ask(Effect::NextEntry(root))
                    ||| next == failed(
                        "Multiple instances match this backup identity proof; refusing unsafe override"@,
                    ) && (x matches Reply::Text(id) && proof_of(id) == digest)
                },
                Step::Ask(_) => false,
                Step::Answer(a) => next == TaskView::Answer(a),
            }
        }),
{
    let q = r.push(x);
    assert forall|j: int| 0 <= j < r.len() implies q[j] == r[j] by {}
    assert(q[r.len() as int] == x);
    if r.len() >= 2 {
        lemma_search_goes_on(root, digest, r, 2, None, x);
    }
}

/// The first instance whose identity has the proof is found, a second one makes the
/// search fail, and every other instance makes no difference to it.
pub proof fn law_search_sees_each_instance(
    root: Seq<char>,
    digest: Seq<char>,
    r: Seq<Told>,
    path: Seq<char>,
    name: Seq<char>,
    id: Seq<char>,
    before: Told,
)
    requires
        finding(root, digest, r) == TaskView::Ask(Effect::NextEntry(root)),
        finding(root, digest, r.push(Reply::Nothing)) == TaskView::Answer(before),
    ensures
        r.len() == 2 ==> before is Nothing,
        before is Nothing || before is Instance,
        ({
            let more = r.push(Reply::Entry(path, Some(name))).push(Reply::Flag(true)).push(
                Reply::Text(id),
            );
            if proof_of(id) != digest {
                finding(root, digest, more.push(Reply::Nothing)) == TaskView::Answer(before)
            } else if before is Nothing {
                finding(root, digest, more.push(Reply::Nothing)) == TaskView::Answer(
                    Reply::Instance(name, path),
                )
            } else {
                finding(root, digest, more) == failed(
                    "Multiple instances match this backup identity proof; refusing unsafe override"@,
                )
            }
        }),
{
    let q = r.push(Reply::Nothing);
    let more = r.push(Reply::Entry(path, Some(name))).push(Reply::Flag(true)).push(Reply::Text(id));
    let end = more.push(Reply::Nothing);
    assert(r.len() >= 2);
    assert forall|j: int| 0 <= j < 2 implies q[j] == r[j] && more[j] == r[j] && end[j] == r[j] by {}
    lemma_search_sees_each(root, digest, r, 2, None, path, name, id, before);
    if r.len() == 2 {
        reveal_with_fuel(proof_search, 2);
        assert(q[2] == Told::Nothing);
    }
}

/// Where a step of indexing leads once its reply has come.
proof fn lemma_index_goes_on(
    root: Seq<char>,
    r: Seq<Told>,
    i: int,
    index: Seq<(Seq<char>, Seq<char>)>,
    x: Told,
)
    requires
        0 <= i <= r.len(),
    ensures
        ({
            let next = index_build(root, r.push(x), i, index);
            match index_build(root, r, i, index) {
                Step::Ask(Effect::NextEntry(d)) => d == root && match x {
                    Reply::Entry(path, _) => next == TaskView::Ask(Effect::IsDir(path)),
                    Reply::Failed(e) => next == failed("Failed to read instance entry: "@ + e),
                    _ => next matches Step::Answer(Reply::Index(_)),
                },
                Step::Ask(Effect::IsDir(path)) => {
                    &&& r.len() > i
                    &&& r.last() matches Reply::Entry(p, name) && p == path && next
                        == TaskView::Ask(
                        if x == Told::Flag(true) && name is Some {
                            Effect::EnsureIdentity(path)
                        } else {
                            Effect::NextEntry(root)
                        },
                    )
                },
                Step::Ask(Effect::EnsureIdentity(_)) => next == TaskView::Ask(
                    Effect::NextEntry(root),
                ),
                Step::Ask(_) => false,
                Step::Answer(a) => next == TaskView::Answer(a),
            }
        }),
    decreases r.len() - i,
{
    reveal_with_fuel(index_build, 2);
    let q = r.push(x);
    assert forall|j: int| 0 <= j < r.len() implies q[j] == r[j] by {}
    assert(q[r.len() as int] == x);
    if i < r.len() {
        if let Reply::Entry(path, name) = r[i] {
            if i + 1 < r.len() {
                if !r[i + 1].yes() || name is None {
                    lemma_index_goes_on(root, r, i + 2, index, x);
                } else if i + 2 < r.len() {
                    match r[i + 2].text() {
                        Some(id) => {
                            lemma_index_goes_on(
                                root,
                                r,
                                i + 3,
                                with_proof(index, proof_of(id), name->0),
                                x,
                            );
                        },
                        None => {
                            lemma_index_goes_on(root, r, i + 3, index, x);
                        },
                    }
                }
            }
        }
    }
}

proof fn lemma_index_grows(
    root: Seq<char>,
    r: Seq<Told>,
    i: int,
    index: Seq<(Seq<char>, Seq<char>)>,
    path: Seq<char>,
    name: Seq<char>,
    x: Told,
    before: Seq<(Seq<char>, Seq<char>)>,
)
    requires
        0 <= i <= r.len(),
        index_build(root, r, i, index) == TaskView::Ask(Effect::NextEntry(root)),
        index_build(root, r.push(Reply::Nothing), i, index) == TaskView::Answer(
            Reply::Index(before),
        ),
    ensures
        index_build(
            root,
            r.push(Reply::Entry(path, Some(name))).push(Reply::Flag(true)).push(x).push(
                Reply::Nothing,
            ),
            i,
            index,
        ) == TaskView::Answer(
            Reply::Index(
                match x {
                    Reply::Text(id) => with_proof(before, proof_of(id), name),
                    _ => before,
                },
            ),
        ),
    decreases r.len() - i,
{
    reveal_with_fuel(index_build, 3);
    let q = r.push(Reply::Nothing);
    let end = r.push(Reply::Entry(path, Some(name))).push(Reply::Flag(true)).push(x).push(
        Reply::Nothing,
    );
    assert forall|j: int| 0 <= j < r.len() implies q[j] == r[j] && end[j] == r[j] by {}
    if i < r.len() {
        if let Reply::Entry(p, n) = r[i] {
            assert(i + 1 < r.len());
            if !r[i + 1].yes() || n is None {
                lemma_index_grows(root, r, i + 2, index, path, name, x, before);
            } else {
                assert(i + 2 < r.len());
                match r[i + 2].text() {
                    Some(id) => {
                        lemma_index_grows(
                            root,
                            r,
                            i + 3,
                            with_proof(index, proof_of(id), n->0),
                            path,
                            name,
                            x,
                            before,
                        );
                    },
                    None => {
                        lemma_index_grows(root, r, i + 3, index, path, name, x, before);
                    },
                }
            }
        }
    } else {
        assert(q[i] == Told::Nothing);
        assert(end[i] == Told::Entry(path, Some(name)) && end[i + 1] == Told::Flag(true) && end[i
            + 2] == x && end[i + 3] == Told::Nothing);
    }
}

/// Indexing the instances goes on as each reply asks for: each entry that is a directory
/// with a name gets an identity where it has none, wherever in the list it stands.
pub proof fn law_indexing_goes_on(root: Seq<char>, r: Seq<Told>, x: Told)
    ensures
        indexing(root, Seq::empty()) == TaskView::Ask(Effect::IsDir(root)),
        ({
            let next = indexing(root, r.push(x));
            match indexing(root, r) {
                Step::Ask(Effect::IsDir(path)) => if r.len() == 0 {
                    next == if x == Told::Flag(true) {
                        TaskView::Ask(Effect::OpenDir(root))
                    } else {
                        TaskView::Answer(Reply::Index(Seq::empty()))
                    }
                } else {
                    r.last() matches Reply::Entry(p, name) && p == path && next == TaskView::Ask(
                        if x == Told::Flag(true) && name is Some {
                            Effect::EnsureIdentity(path)
                        } else {
                            Effect::NextEntry(root)
                        },
                    )
                },
                Step::Ask(Effect::OpenDir(d)) => d == root && next == match x {
                    Reply::Failed(e) => failed(
                        "Failed to read instances directory "@ + root + ": "@ + e,
                    ),
                    _ => TaskView::Ask(Effect::NextEntry(root)),
                },
                Step::Ask(Effect::NextEntry(d)) => d == root && match x {
                    Reply::Entry(path, _) => next == TaskView::Ask(Effect::IsDir(path)),
                    Reply::Failed(e) => next == failed("Failed to read instance entry: "@ + e),
                    _ => next matches Step::Answer(Reply::Index(_)),
                },
                Step::Ask(Effect::EnsureIdentity(_)) => next == TaskView::Ask(
                    Effect::NextEntry(root),
                ),
                Step::Ask(_) => false,
                Step::Answer(a) => next == TaskView::Answer(a),
            }
        }),
{
    let q = r.push(x);
    assert forall|j: int| 0 <= j < r.len() implies q[j] == r[j] by {}
    assert(q[r.len() as int] == x);
    if r.len() >= 2 {
        lemma_index_goes_on(root, r, 2, Seq::empty(), x);
    }
}

/// An instance is put behind the others in the index, under the proof of its identity,
/// unless another one holds that already.
pub proof fn law_each_instance_is_indexed(
    root: Seq<char>,
    r: Seq<Told>,
    path: Seq<char>,
    name: Seq<char>,
    x: Told,
    before: Seq<(Seq<char>, Seq<char>)>,
)
    requires
        indexing(root, r) == TaskView::Ask(Effect::NextEntry(root)),
        indexing(root, r.push(Reply::Nothing)) == TaskView::Answer(Reply::Index(before)),
    ensures
        r.len() == 2 ==> before.len() == 0,
        indexing(
            root,
            r.push(Reply::Entry(path, Some(name))).push(Reply::Flag(true)).push(x).push(
                Reply::Nothing,
            ),
        ) == TaskView::Answer(
            Reply::Index(
                match x {
                    Reply::Text(id) => if (exists|k: int|
                        0 <= k < before.len() && (#[trigger] before[k]).0 == proof_of(id)) {
                        before
                    } else {
                        before.push((proof_of(id), name))
                    },
                    _ => before,
                },
            ),
        ),
{
    let q = r.push(Reply::Nothing);
    let end = r.push(Reply::Entry(path, Some(name))).push(Reply::Flag(true)).push(x).push(
        Reply::Nothing,
    );
    assert(r.len() >= 2);
    assert forall|j: int| 0 <= j < 2 implies q[j] == r[j] && end[j] == r[j] by {}
    lemma_index_grows(root, r, 2, Seq::empty(), path, name, x, before);
    if let Reply::Text(id) = x {
        law_index_gives_the_first(before, proof_of(id));
    }
    if r.len() == 2 {
        reveal_with_fuel(index_build, 2);
        assert(q[2] == Told::Nothing);
    }
}

/// An index gives the name that stands first with a proof, and none where the proof does
/// not stand in it.
pub proof fn law_index_gives_the_first(index: Seq<(Seq<char>, Seq<char>)>, digest: Seq<char>)
    ensures
        match indexed(index, digest) {
            Some(name) => exists|k: int|
                {
                    &&& 0 <= k < index.len()
                    &&& #[trigger] index[k] == (digest, name)
                    &&& forall|j: int| 0 <= j < k ==> (#[trigger] index[j]).0 != digest
                },
            None => forall|k: int| 0 <= k < index.len() ==> (#[trigger] index[k]).0 != digest,
        },
    decreases index.len(),
{
    if index.len() > 0 {
        let rest = index.drop_first();
        law_index_gives_the_first(rest, digest);
        assert forall|j: int| 0 < j < index.len() implies #[trigger] index[j] == rest[j - 1] by {}
        if index[0].0 == digest {
            assert(index[0] == (digest, index[0].1));
        } else if let Some(name) = indexed(rest, digest) {
            let k = choose|k: int|
                {
                    &&& 0 <= k < rest.len()
                    &&& #[trigger] rest[k] == (digest, name)
                    &&& forall|j: int| 0 <= j < k ==> (#[trigger] rest[j]).0 != digest
                };
            assert(index[k + 1] == (digest, name));
            assert forall|j: int| 0 <= j < k + 1 implies (#[trigger] index[j]).0 != digest by {
                if j > 0 {
                    assert(rest[j - 1] == index[j]);
                }
            }
        } else {
            assert forall|k: int| 0 <= k < index.len() implies (#[trigger] index[k]).0 != digest by {
                if k > 0 {
                    assert(rest[k - 1] == index[k]);
                }
            }
        }
    }
}

} // verus!
