//! Copying a directory with all that is below it, and measuring one.
use vstd::prelude::*;
use vstd::string::*;

use crate::effects::{
    changes, fail, failed, fault, fault_told, said_yes, why_failed, Effect, EntryKind, Heard, Reply,
    Step, Task, TaskView, Told,
};
use crate::order::views;
use crate::paths::{file_name, join_path, joined_path, path_file_name};
use crate::text::{cat2, cat3, cat4, opt_text};

verus! {

/// The name of a directory entry: as it is told, or else as its path ends.
pub open spec fn entry_name(path: Seq<char>, name: Option<Seq<char>>) -> Seq<char> {
    match name {
        Some(n) => n,
        None => match file_name(path) {
            Some(n) => n,
            None => path,
        },
    }
}

/// The name of a directory entry.
fn name_of_entry(path: &String, name: &Option<String>) -> (r: String)
    ensures
        r@ == entry_name(path@, opt_text(*name)),
{
    match name {
        Some(n) => n.clone(),
        None => match path_file_name(path.as_str()) {
            Some(n) => n,
            None => path.clone(),
        },
    }
}

/// Copying the entries of a directory from reply `i` on: an entry, what it is, and
/// the copy. Directories and files are copied, what else there is is passed over.
/// Permissions are copied as far as that can be done.
pub open spec fn copy_walk(src: Seq<char>, dst: Seq<char>, r: Seq<Told>, i: int) -> TaskView
    decreases r.len() - i,
{
    if i < 0 || i >= r.len() {
        Step::Ask(Effect::NextEntry(src))
    } else {
        match r[i] {
            Reply::Failed(e) => failed("Failed to read directory entry: "@ + e),
            Reply::Entry(from, name) => {
                let to = joined_path(dst, entry_name(from, name));
                if i + 1 >= r.len() {
                    Step::Ask(Effect::EntryKind(from))
                } else {
                    match r[i + 1] {
                        Reply::Failed(e) => failed(
                            "Failed to get file type for "@ + from + ": "@ + e,
                        ),
                        Reply::Kind(EntryKind::Directory) => if i + 2 >= r.len() {
                            Step::Ask(Effect::CopyTree(from, to))
                        } else {
                            match r[i + 2].failure() {
                                Some(e) => failed(e),
                                None => copy_walk(src, dst, r, i + 3),
                            }
                        },
                        Reply::Kind(EntryKind::File) => if i + 2 >= r.len() {
                            Step::Ask(Effect::CopyFile(from, to))
                        } else {
                            match r[i + 2].failure() {
                                Some(e) => failed(
                                    "Failed to copy "@ + from + " to "@ + (to + ": "@ + e),
                                ),
                                None => if i + 3 >= r.len() {
                                    Step::Ask(Effect::CopyMode(from, to))
                                } else {
                                    copy_walk(src, dst, r, i + 4)
                                },
                            }
                        },
                        _ => copy_walk(src, dst, r, i + 2),
                    }
                }
            },
            _ => Step::Answer(Reply::Done),
        }
    }
}

/// Copying a directory with all that is below it.
pub open spec fn copying(src: Seq<char>, dst: Seq<char>, r: Seq<Told>) -> TaskView {
    if r.len() == 0 {
        Step::Ask(Effect::IsDir(src))
    } else if !r[0].yes() {
        failed("Source path is not a directory: "@ + src)
    } else if r.len() == 1 {
        Step::Ask(Effect::CreateDirAll(dst))
    } else if r[1].failure() is Some {
        failed("Failed to create directory "@ + dst + ": "@ + r[1].failure()->0)
    } else if r.len() == 2 {
        Step::Ask(Effect::OpenDir(src))
    } else if r[2].failure() is Some {
        failed("Failed to read directory "@ + src + ": "@ + r[2].failure()->0)
    } else {
        copy_walk(src, dst, r, 3)
    }
}

/// Copies the directory with all that is below it.
pub fn copy_dir_recursive(src: &str, dst: &str, replies: &Vec<Heard>) -> (s: Task)
    ensures
        s@ == copying(src@, dst@, views(replies@)),
{
    let ghost r = views(replies@);
    let n: usize = replies.len();
    if n == 0 {
        return Step::Ask(Effect::IsDir(src.to_owned()));
    }
    if !said_yes(replies, 0) {
        return fail(cat2("Source path is not a directory: ", src).as_str());
    }
    if n == 1 {
        return Step::Ask(Effect::CreateDirAll(dst.to_owned()));
    }
    if let Some(e) = why_failed(replies, 1) {
        return fail(cat4("Failed to create directory ", dst, ": ", e.as_str()).as_str());
    }
    if n == 2 {
        return Step::Ask(Effect::OpenDir(src.to_owned()));
    }
    if let Some(e) = why_failed(replies, 2) {
        return fail(cat4("Failed to read directory ", src, ": ", e.as_str()).as_str());
    }
    let mut i: usize = 3;
    let ghost goal = copy_walk(src@, dst@, r, 3);
    while i < n
        invariant
            n == replies@.len(),
            i <= n,
            r == views(replies@),
            goal == copying(src@, dst@, r),
            goal == copy_walk(src@, dst@, r, i as int),
        decreases n - i,
    {
        assert(r[i as int] == replies@[i as int]@);
        match &replies[i] {
            Reply::Failed(e) => {
                return fail(cat2("Failed to read directory entry: ", e.as_str()).as_str());
            },
            Reply::Entry(from, name) => {
                let to = join_path(dst, name_of_entry(from, name).as_str());
                if i + 1 >= n {
                    return Step::Ask(Effect::EntryKind(from.clone()));
                }
                assert(r[i + 1] == replies@[i + 1]@);
                match &replies[i + 1] {
                    Reply::Failed(e) => {
                        return fail(
                            cat4(
                                "Failed to get file type for ",
                                from.as_str(),
                                ": ",
                                e.as_str(),
                            ).as_str(),
                        );
                    },
                    Reply::Kind(EntryKind::Directory) => {
                        if i + 2 >= n {
                            return Step::Ask(Effect::CopyTree(from.clone(), to));
                        }
                        if let Some(e) = why_failed(replies, i + 2) {
                            return fail(e.as_str());
                        }
                        i = i + 3;
                    },
                    Reply::Kind(EntryKind::File) => {
                        if i + 2 >= n {
                            return Step::Ask(Effect::CopyFile(from.clone(), to));
                        }
                        if let Some(e) = why_failed(replies, i + 2) {
                            let place = cat3(to.as_str(), ": ", e.as_str());
                            return fail(
                                cat4(
                                    "Failed to copy ",
                                    from.as_str(),
                                    " to ",
                                    place.as_str(),
                                ).as_str(),
                            );
                        }
                        if i + 3 >= n {
                            return Step::Ask(Effect::CopyMode(from.clone(), to));
                        }
                        i = i + 4;
                    },
                    _ => {
                        i = i + 2;
                    },
                }
            },
            _ => {
                return Step::Answer(Reply::Done);
            },
        }
    }
    Step::Ask(Effect::NextEntry(src.to_owned()))
}

/// Whether the path is the place in the copy of an entry that the replies tell of.
pub open spec fn copies_listed(r: Seq<Told>, dst: Seq<char>, path: Seq<char>) -> bool {
    exists|j: int|
        0 <= j < r.len() && (#[trigger] r[j] matches Reply::Entry(from, name) && path == joined_path(
            dst,
            entry_name(from, name),
        ))
}

proof fn lemma_copy_writes(src: Seq<char>, dst: Seq<char>, r: Seq<Told>, i: int)
    ensures
        copy_walk(src, dst, r, i) matches Step::Ask(e) ==> forall|p: Seq<char>|
            changes(e).contains(p) ==> copies_listed(r, dst, p),
    decreases r.len() - i,
{
    if 0 <= i && i < r.len() {
        if let Reply::Entry(from, name) = r[i] {
            assert(copies_listed(r, dst, joined_path(dst, entry_name(from, name))));
            if i + 1 < r.len() {
                lemma_copy_writes(src, dst, r, i + 2);
                if i + 2 < r.len() {
                    lemma_copy_writes(src, dst, r, i + 3);
                    if i + 3 < r.len() {
                        lemma_copy_writes(src, dst, r, i + 4);
                    }
                }
            }
        }
    }
}

/// Copying a directory changes nothing but the copy: its directory, and in it the
/// places of the entries that were listed.
pub proof fn law_copying_changes_the_copy_only(src: Seq<char>, dst: Seq<char>, r: Seq<Told>)
    ensures
        copying(src, dst, r) matches Step::Ask(e) ==> forall|p: Seq<char>|
            changes(e).contains(p) ==> p == dst || copies_listed(r, dst, p),
{
    lemma_copy_writes(src, dst, r, 3);
}

/// The bytes and files that the replies tell of from reply `i` on: an entry of the
/// directory, and what is at it and below.
pub open spec fn told_stats(r: Seq<Told>, i: int) -> (nat, nat)
    decreases r.len() - i,
{
    if i < 0 || i + 1 >= r.len() {
        (0, 0)
    } else {
        match (r[i], r[i + 1]) {
            (Reply::Entry(_, _), Reply::Stats(size, files)) => {
                let rest = told_stats(r, i + 2);
                (size as nat + rest.0, files as nat + rest.1)
            },
            _ => (0, 0),
        }
    }
}

/// Measuring the entries of a directory from reply `i` on, after so many bytes and
/// files.
pub open spec fn stats_walk(path: Seq<char>, r: Seq<Told>, i: int, size: nat, files: nat) -> TaskView
    decreases r.len() - i,
{
    if i < 0 || i >= r.len() {
        Step::Ask(Effect::NextEntry(path))
    } else {
        match r[i] {
            Reply::Failed(e) => failed("Failed to read directory entry: "@ + e),
            Reply::Entry(child, _) => if i + 1 >= r.len() {
                Step::Ask(Effect::DirStats(child))
            } else {
                match r[i + 1] {
                    Reply::Stats(a, b) => stats_walk(
                        path,
                        r,
                        i + 2,
                        size + a as nat,
                        files + b as nat,
                    ),
                    _ => failed(fault(r[i + 1])),
                }
            },
            _ => Step::Answer(Reply::Stats(size as u64, files as u64)),
        }
    }
}

/// Measuring what is at a path and below it: a file counts for itself, a
/// directory for what it holds, and what is neither for nothing.
pub open spec fn measuring(path: Seq<char>, r: Seq<Told>) -> TaskView {
    if r.len() == 0 {
        Step::Ask(Effect::IsFile(path))
    } else if r[0].yes() {
        if r.len() == 1 {
            Step::Ask(Effect::FileSize(path))
        } else {
            match r[1] {
                Reply::Number(size) => Step::Answer(Reply::Stats(size, 1)),
                _ => failed("Failed to read file metadata "@ + path + ": "@ + fault(r[1])),
            }
        }
    } else if r.len() == 1 {
        Step::Ask(Effect::IsDir(path))
    } else if !r[1].yes() {
        Step::Answer(Reply::Stats(0, 0))
    } else if r.len() == 2 {
        Step::Ask(Effect::OpenDir(path))
    } else if r[2].failure() is Some {
        failed("Failed to read directory "@ + path + ": "@ + r[2].failure()->0)
    } else {
        stats_walk(path, r, 3, 0, 0)
    }
}

/// Whether the bytes and files that the replies tell of can be counted.
pub open spec fn can_count(r: Seq<Told>) -> bool {
    told_stats(r, 3).0 <= u64::MAX && told_stats(r, 3).1 <= u64::MAX
}

/// Whether the bytes and files that the replies tell of can be counted.
pub fn stats_fit(replies: &Vec<Heard>) -> (b: bool)
    ensures
        b == can_count(views(replies@)),
{
    let ghost r = views(replies@);
    let n: usize = replies.len();
    if n < 3 {
        return true;
    }
    let mut size: u64 = 0;
    let mut files: u64 = 0;
    let mut i: usize = 3;
    let ghost all = told_stats(r, 3);
    while n - i >= 2
        invariant
            n == replies@.len(),
            3 <= i <= n,
            r == views(replies@),
            all == told_stats(r, 3),
            all.0 == size + told_stats(r, i as int).0,
            all.1 == files + told_stats(r, i as int).1,
        decreases n - i,
    {
        assert(r[i as int] == replies@[i as int]@);
        assert(r[i + 1] == replies@[i + 1]@);
        match (&replies[i], &replies[i + 1]) {
            (Reply::Entry(_, _), Reply::Stats(a, b)) => {
                size = match size.checked_add(*a) {
                    Some(sum) => sum,
                    None => return false,
                };
                files = match files.checked_add(*b) {
                    Some(sum) => sum,
                    None => return false,
                };
            },
            _ => return true,
        }
        i = i + 2;
    }
    true
}

/// Measures what is at the path and below it.
pub fn compute_dir_stats(path: &str, replies: &Vec<Heard>) -> (s: Task)
    requires
        can_count(views(replies@)),
    ensures
        s@ == measuring(path@, views(replies@)),
{
    let ghost r = views(replies@);
    let n: usize = replies.len();
    if n == 0 {
        return Step::Ask(Effect::IsFile(path.to_owned()));
    }
    if said_yes(replies, 0) {
        if n == 1 {
            return Step::Ask(Effect::FileSize(path.to_owned()));
        }
        assert(r[1] == replies@[1]@);
        return match &replies[1] {
            Reply::Number(size) => Step::Answer(Reply::Stats(*size, 1)),
            _ => fail(
                cat4(
                    "Failed to read file metadata ",
                    path,
                    ": ",
                    fault_told(replies, 1).as_str(),
                ).as_str(),
            ),
        };
    }
    if n == 1 {
        return Step::Ask(Effect::IsDir(path.to_owned()));
    }
    if !said_yes(replies, 1) {
        return Step::Answer(Reply::Stats(0, 0));
    }
    if n == 2 {
        return Step::Ask(Effect::OpenDir(path.to_owned()));
    }
    if let Some(e) = why_failed(replies, 2) {
        return fail(cat4("Failed to read directory ", path, ": ", e.as_str()).as_str());
    }
    let mut size: u64 = 0;
    let mut files: u64 = 0;
    let mut i: usize = 3;
    let ghost goal = stats_walk(path@, r, 3, 0, 0);
    while i < n
        invariant
            n == replies@.len(),
            3 <= i <= n,
            r == views(replies@),
            goal == measuring(path@, r),
            goal == stats_walk(path@, r, i as int, size as nat, files as nat),
            size + told_stats(r, i as int).0 <= u64::MAX,
            files + told_stats(r, i as int).1 <= u64::MAX,
        decreases n - i,
    {
        assert(r[i as int] == replies@[i as int]@);
        match &replies[i] {
            Reply::Failed(e) => {
                return fail(cat2("Failed to read directory entry: ", e.as_str()).as_str());
            },
            Reply::Entry(child, _) => {
                if i + 1 >= n {
                    return Step::Ask(Effect::DirStats(child.clone()));
                }
                assert(r[i + 1] == replies@[i + 1]@);
                match &replies[i + 1] {
                    Reply::Stats(a, b) => {
                        size = size + *a;
                        files = files + *b;
                        i = i + 2;
                    },
                    _ => {
                        return fail(fault_told(replies, i + 1).as_str());
                    },
                }
            },
            _ => {
                return Step::Answer(Reply::Stats(size, files));
            },
        }
    }
    Step::Ask(Effect::NextEntry(path.to_owned()))
}

proof fn lemma_stats_add_up(path: Seq<char>, r: Seq<Told>, i: int, size: nat, files: nat)
    ensures
        stats_walk(path, r, i, size, files) matches Step::Answer(Reply::Stats(a, b)) ==> a == (size
            + told_stats(r, i).0) as u64 && b == (files + told_stats(r, i).1) as u64,
        stats_walk(path, r, i, size, files) matches Step::Ask(e) ==> changes(e) == Set::<
            Seq<char>,
        >::empty(),
    decreases r.len() - i,
{
    if 0 <= i && i < r.len() {
        if let Reply::Entry(child, _) = r[i] {
            if i + 1 < r.len() {
                if let Reply::Stats(a, b) = r[i + 1] {
                    lemma_stats_add_up(path, r, i + 2, size + a as nat, files + b as nat);
                }
            }
        }
    }
}

/// A directory measures what its entries measure together, and measuring changes
/// nothing.
pub proof fn law_directory_measures_its_entries(path: Seq<char>, r: Seq<Told>)
    requires
        can_count(r),
        r.len() > 2,
        !r[0].yes(),
        r[1].yes(),
    ensures
        measuring(path, r) matches Step::Answer(Reply::Stats(a, b)) ==> (a as nat, b as nat)
            == told_stats(r, 3),
        measuring(path, r) matches Step::Ask(e) ==> changes(e) == Set::<Seq<char>>::empty(),
{
    lemma_stats_add_up(path, r, 3, 0, 0);
}

/// Where a step of copying leads once its reply has come.
proof fn lemma_copy_goes_on(src: Seq<char>, dst: Seq<char>, r: Seq<Told>, i: int, x: Told)
    requires
        0 <= i <= r.len(),
    ensures
        ({
            let next = copy_walk(src, dst, r.push(x), i);
            match copy_walk(src, dst, r, i) {
                Step::Ask(Effect::NextEntry(d)) => d == src && match x {
                    Reply::Entry(from, _) => next == TaskView::Ask(Effect::EntryKind(from)),
                    Reply::Failed(e) => next == failed("Failed to read directory entry: "@ + e),
                    _ => next == TaskView::Answer(Reply::Done),
                },
                Step::Ask(Effect::EntryKind(from)) => {
                    &&& r.len() > i
                    &&& r.last() matches Reply::Entry(listed, name) && listed == from && match x {
                        Reply::Kind(EntryKind::Directory) => next == TaskView::Ask(
                            Effect::CopyTree(from, joined_path(dst, entry_name(from, name))),
                        ),
                        Reply::Kind(EntryKind::File) => next == TaskView::Ask(
                            Effect::CopyFile(from, joined_path(dst, entry_name(from, name))),
                        ),
                        Reply::Failed(e) => next == failed(
                            "Failed to get file type for "@ + from + ": "@ + e,
                        ),
                        _ => next == TaskView::Ask(Effect::NextEntry(src)),
                    }
                },
                Step::Ask(Effect::CopyTree(_, _)) => next == match x {
                    Reply::Failed(e) => failed(e),
                    _ => TaskView::Ask(Effect::NextEntry(src)),
                },
                Step::Ask(Effect::CopyFile(from, to)) => next == match x {
                    Reply::Failed(e) => failed("Failed to copy "@ + from + " to "@ + (to + ": "@ + e)),
                    _ => TaskView::Ask(Effect::CopyMode(from, to)),
                },
                Step::Ask(Effect::CopyMode(_, _)) => next == TaskView::Ask(Effect::NextEntry(src)),
                Step::Ask(_) => false,
                Step::Answer(a) => next == TaskView::Answer(a),
            }
        }),
    decreases r.len() - i,
{
    reveal_with_fuel(copy_walk, 2);
    let q = r.push(x);
    if i < r.len() {
        assert(q[i] == r[i]);
        if let Reply::Entry(from, name) = r[i] {
            if i + 1 < r.len() {
                assert(q[i + 1] == r[i + 1]);
                match r[i + 1] {
                    Reply::Kind(EntryKind::Directory) => if i + 2 < r.len() {
                        assert(q[i + 2] == r[i + 2]);
                        lemma_copy_goes_on(src, dst, r, i + 3, x);
                    } else {
                        assert(q[i + 2] == x);
                    },
                    Reply::Kind(EntryKind::File) => if i + 2 < r.len() {
                        assert(q[i + 2] == r[i + 2]);
                        if i + 3 < r.len() {
                            lemma_copy_goes_on(src, dst, r, i + 4, x);
                        }
                    } else {
                        assert(q[i + 2] == x);
                    },
                    _ => {
                        lemma_copy_goes_on(src, dst, r, i + 2, x);
                    },
                }
            } else {
                assert(q[i + 1] == x);
            }
        }
    } else {
        assert(q[i] == x);
    }
}

/// Copying a directory goes on as each reply asks for. It starts by making the copy
/// and opening the directory. An entry that is listed is looked at; one that is a
/// directory is copied as a tree, one that is a file as a file and then its
/// permissions, to the place of the same name in the copy, and what else there is is
/// passed over; then the next entry is asked for, wherever in the list it stands. The
/// end of the list ends the copy, and a failure fails it, but for that of copying
/// permissions.
pub proof fn law_copy_goes_on(src: Seq<char>, dst: Seq<char>, r: Seq<Told>, x: Told)
    ensures
        copying(src, dst, Seq::empty()) == TaskView::Ask(Effect::IsDir(src)),
        ({
            let next = copying(src, dst, r.push(x));
            match copying(src, dst, r) {
                Step::Ask(Effect::IsDir(d)) => d == src && next == (if x == Told::Flag(true) {
                    TaskView::Ask(Effect::CreateDirAll(dst))
                } else {
                    failed("Source path is not a directory: "@ + src)
                }),
                Step::Ask(Effect::CreateDirAll(d)) => d == dst && next == match x {
                    Reply::Failed(e) => failed("Failed to create directory "@ + dst + ": "@ + e),
                    _ => TaskView::Ask(Effect::OpenDir(src)),
                },
                Step::Ask(Effect::OpenDir(d)) => d == src && next == match x {
                    Reply::Failed(e) => failed("Failed to read directory "@ + src + ": "@ + e),
                    _ => TaskView::Ask(Effect::NextEntry(src)),
                },
                Step::Ask(Effect::NextEntry(d)) => d == src && next == match x {
                    Reply::Entry(from, _) => TaskView::Ask(Effect::EntryKind(from)),
                    Reply::Failed(e) => failed("Failed to read directory entry: "@ + e),
                    _ => TaskView::Answer(Reply::Done),
                },
                Step::Ask(Effect::EntryKind(from)) => {
                    &&& r.len() > 0
                    &&& r.last() matches Reply::Entry(listed, name) && listed == from && match x {
                        Reply::Kind(EntryKind::Directory) => next matches Step::Ask(
                            Effect::CopyTree(a, b),
                        ) && a == from && (name matches Some(n) ==> b == joined_path(dst, n)),
                        Reply::Kind(EntryKind::File) => next matches Step::Ask(
                            Effect::CopyFile(a, b),
                        ) && a == from && (name matches Some(n) ==> b == joined_path(dst, n)),
                        Reply::Failed(e) => next == failed(
                            "Failed to get file type for "@ + from + ": "@ + e,
                        ),
                        _ => next == TaskView::Ask(Effect::NextEntry(src)),
                    }
                },
                Step::Ask(Effect::CopyTree(_, _)) => next == match x {
                    Reply::Failed(e) => failed(e),
                    _ => TaskView::Ask(Effect::NextEntry(src)),
                },
                Step::Ask(Effect::CopyFile(from, to)) => next == match x {
                    Reply::Failed(e) => failed("Failed to copy "@ + from + " to "@ + (to + ": "@ + e)),
                    _ => TaskView::Ask(Effect::CopyMode(from, to)),
                },
                Step::Ask(Effect::CopyMode(_, _)) => next == TaskView::Ask(Effect::NextEntry(src)),
                Step::Ask(_) => false,
                Step::Answer(a) => next == TaskView::Answer(a),
            }
        }),
{
    let q = r.push(x);
    assert forall|j: int| 0 <= j < r.len() implies q[j] == r[j] by {}
    assert(q[r.len() as int] == x);
    if r.len() >= 3 {
        lemma_copy_goes_on(src, dst, r, 3, x);
    }
}

/// What was answered stays answered.
proof fn lemma_copy_stays_answered(src: Seq<char>, dst: Seq<char>, r: Seq<Told>, k: int)
    requires
        0 <= k <= r.len(),
        copying(src, dst, r.take(k)) is Answer,
    ensures
        copying(src, dst, r) == copying(src, dst, r.take(k)),
    decreases r.len() - k,
{
    if k < r.len() {
        law_copy_goes_on(src, dst, r.take(k), r[k]);
        assert(r.take(k).push(r[k]) =~= r.take(k + 1));
        lemma_copy_stays_answered(src, dst, r, k + 1);
    } else {
        assert(r.take(k) =~= r);
    }
}

/// A copy that is done leaves nothing out: each entry that was listed as a directory
/// was copied as a tree, and each that was listed as a file was copied as one, to its
/// place in the copy, and none of that failed.
pub proof fn law_copy_leaves_nothing_out(
    src: Seq<char>,
    dst: Seq<char>,
    r: Seq<Told>,
    j: int,
    from: Seq<char>,
    name: Seq<char>,
)
    requires
        copying(src, dst, r) == TaskView::Answer(Reply::Done),
        0 <= j < r.len(),
        copying(src, dst, r.take(j)) == TaskView::Ask(Effect::NextEntry(src)),
        r[j] == Told::Entry(from, Some(name)),
    ensures
        j + 1 < r.len(),
        copying(src, dst, r.take(j + 1)) == TaskView::Ask(Effect::EntryKind(from)),
        r[j + 1] == Told::Kind(EntryKind::Directory) ==> {
            &&& j + 2 < r.len()
            &&& copying(src, dst, r.take(j + 2)) == TaskView::Ask(
                Effect::CopyTree(from, joined_path(dst, name)),
            )
            &&& !(r[j + 2] is Failed)
        },
        r[j + 1] == Told::Kind(EntryKind::File) ==> {
            &&& j + 2 < r.len()
            &&& copying(src, dst, r.take(j + 2)) == TaskView::Ask(
                Effect::CopyFile(from, joined_path(dst, name)),
            )
            &&& !(r[j + 2] is Failed)
        },
{
    assert(r.take(r.len() as int) =~= r);
    law_copy_goes_on(src, dst, r.take(j), r[j]);
    assert(r.take(j).push(r[j]) =~= r.take(j + 1));
    assert(r.take(j + 1).last() == r[j]);
    if j + 1 < r.len() {
        law_copy_goes_on(src, dst, r.take(j + 1), r[j + 1]);
        assert(r.take(j + 1).push(r[j + 1]) =~= r.take(j + 2));
        if j + 2 < r.len() {
            law_copy_goes_on(src, dst, r.take(j + 2), r[j + 2]);
            assert(r.take(j + 2).push(r[j + 2]) =~= r.take(j + 3));
            if copying(src, dst, r.take(j + 3)) is Answer {
                lemma_copy_stays_answered(src, dst, r, j + 3);
            }
        }
    }
}

/// Where a step of measuring the entries of a directory leads once its reply has come.
proof fn lemma_stats_go_on(path: Seq<char>, r: Seq<Told>, i: int, size: nat, files: nat, x: Told)
    requires
        0 <= i <= r.len(),
    ensures
        ({
            let next = stats_walk(path, r.push(x), i, size, files);
            match stats_walk(path, r, i, size, files) {
                Step::Ask(Effect::NextEntry(d)) => d == path && match x {
                    Reply::Entry(child, _) => next == TaskView::Ask(Effect::DirStats(child)),
                    Reply::Failed(e) => next == failed("Failed to read directory entry: "@ + e),
                    _ => next matches Step::Answer(Reply::Stats(_, _)),
                },
                Step::Ask(Effect::DirStats(_)) => match x {
                    Reply::Stats(_, _) => next == TaskView::Ask(Effect::NextEntry(path)),
                    Reply::Failed(e) => next == failed(e),
                    _ => next matches Step::Answer(Reply::Failed(_)),
                },
                Step::Ask(_) => false,
                Step::Answer(a) => next == TaskView::Answer(a),
            }
        }),
    decreases r.len() - i,
{
    reveal_with_fuel(stats_walk, 2);
    let q = r.push(x);
    if i < r.len() {
        assert(q[i] == r[i]);
        if let Reply::Entry(child, _) = r[i] {
            if i + 1 < r.len() {
                assert(q[i + 1] == r[i + 1]);
                if let Reply::Stats(a, b) = r[i + 1] {
                    lemma_stats_go_on(path, r, i + 2, size + a as nat, files + b as nat, x);
                }
            } else {
                assert(q[i + 1] == x);
            }
        }
    } else {
        assert(q[i] == x);
    }
}

/// One more entry adds what it measures.
proof fn lemma_more_is_told(
    path: Seq<char>,
    r: Seq<Told>,
    i: int,
    size: nat,
    files: nat,
    child: Seq<char>,
    name: Option<Seq<char>>,
    a: u64,
    b: u64,
)
    requires
        0 <= i <= r.len(),
        stats_walk(path, r, i, size, files) == TaskView::Ask(Effect::NextEntry(path)),
    ensures
        ({
            let before = told_stats(r.push(Reply::Nothing), i);
            let more = r.push(Reply::Entry(child, name)).push(Reply::Stats(a, b)).push(
                Reply::Nothing,
            );
            told_stats(more, i) == (before.0 + a as nat, before.1 + b as nat)
        }),
    decreases r.len() - i,
{
    reveal_with_fuel(told_stats, 3);
    let q = r.push(Reply::Nothing);
    let t = r.push(Reply::Entry(child, name)).push(Reply::Stats(a, b)).push(Reply::Nothing);
    if i < r.len() {
        assert(q[i] == r[i] && t[i] == r[i]);
        assert(i + 1 < r.len());
        assert(q[i + 1] == r[i + 1] && t[i + 1] == r[i + 1]);
        if let Reply::Stats(c, d) = r[i + 1] {
            lemma_more_is_told(
                path,
                r,
                i + 2,
                size + c as nat,
                files + d as nat,
                child,
                name,
                a,
                b,
            );
        }
    } else {
        assert(t[i] == Told::Entry(child, name) && t[i + 1] == Told::Stats(a, b));
    }
}

/// Measuring goes on as each reply asks for. A file measures its size and one file,
/// what is neither file nor directory nothing, and of a directory each entry is
/// measured, wherever in the list it stands.
pub proof fn law_measuring_goes_on(path: Seq<char>, r: Seq<Told>, x: Told)
    ensures
        measuring(path, Seq::empty()) == TaskView::Ask(Effect::IsFile(path)),
        ({
            let next = measuring(path, r.push(x));
            match measuring(path, r) {
                Step::Ask(Effect::IsFile(p)) => p == path && next == (if x == Told::Flag(true) {
                    TaskView::Ask(Effect::FileSize(path))
                } else {
                    TaskView::Ask(Effect::IsDir(path))
                }),
                Step::Ask(Effect::FileSize(_)) => match x {
                    Reply::Number(n) => next == TaskView::Answer(Reply::Stats(n, 1)),
                    Reply::Failed(e) => next == failed(
                        "Failed to read file metadata "@ + path + ": "@ + e,
                    ),
                    _ => next matches Step::Answer(Reply::Failed(_)),
                },
                Step::Ask(Effect::IsDir(p)) => p == path && next == (if x == Told::Flag(true) {
                    TaskView::Ask(Effect::OpenDir(path))
                } else {
                    TaskView::Answer(Reply::Stats(0, 0))
                }),
                Step::Ask(Effect::OpenDir(_)) => next == match x {
                    Reply::Failed(e) => failed("Failed to read directory "@ + path + ": "@ + e),
                    _ => TaskView::Ask(Effect::NextEntry(path)),
                },
                Step::Ask(Effect::NextEntry(d)) => d == path && match x {
                    Reply::Entry(child, _) => next == TaskView::Ask(Effect::DirStats(child)),
                    Reply::Failed(e) => next == failed("Failed to read directory entry: "@ + e),
                    _ => next matches Step::Answer(Reply::Stats(_, _)),
                },
                Step::Ask(Effect::DirStats(_)) => match x {
                    Reply::Stats(_, _) => next == TaskView::Ask(Effect::NextEntry(path)),
                    Reply::Failed(e) => next == failed(e),
                    _ => next matches Step::Answer(Reply::Failed(_)),
                },
                Step::Ask(_) => false,
                Step::Answer(a) => next == TaskView::Answer(a),
            }
        }),
{
    let q = r.push(x);
    assert forall|j: int| 0 <= j < r.len() implies q[j] == r[j] by {}
    assert(q[r.len() as int] == x);
    if r.len() >= 3 {
        lemma_stats_go_on(path, r, 3, 0, 0, x);
    }
}

/// An empty directory measures nothing, and one more entry adds to a directory just
/// what it measures itself.
pub proof fn law_each_entry_is_measured(
    path: Seq<char>,
    r: Seq<Told>,
    child: Seq<char>,
    name: Option<Seq<char>>,
    a: u64,
    b: u64,
)
    requires
        measuring(path, r) == TaskView::Ask(Effect::NextEntry(path)),
        can_count(
            r.push(Reply::Entry(child, name)).push(Reply::Stats(a, b)).push(Reply::Nothing),
        ),
    ensures
        r.len() == 3 ==> measuring(path, r.push(Reply::Nothing)) == TaskView::Answer(
            Reply::Stats(0, 0),
        ),
        measuring(path, r.push(Reply::Nothing)) matches Step::Answer(Reply::Stats(size, files)) && {
            &&& size + a <= u64::MAX
            &&& files + b <= u64::MAX
            &&& measuring(
                path,
                r.push(Reply::Entry(child, name)).push(Reply::Stats(a, b)).push(Reply::Nothing),
            ) == TaskView::Answer(Reply::Stats((size + a) as u64, (files + b) as u64))
        },
{
    let q = r.push(Reply::Nothing);
    let r1 = r.push(Reply::Entry(child, name));
    let r2 = r1.push(Reply::Stats(a, b));
    let t = r2.push(Reply::Nothing);
    assert(r.len() >= 3);
    assert forall|j: int| 0 <= j < 3 implies q[j] == r[j] && t[j] == r[j] by {}
    law_measuring_goes_on(path, r, Reply::Nothing);
    law_measuring_goes_on(path, r, Reply::Entry(child, name));
    law_measuring_goes_on(path, r1, Reply::Stats(a, b));
    law_measuring_goes_on(path, r2, Reply::Nothing);
    lemma_more_is_told(path, r, 3, 0, 0, child, name, a, b);
    lemma_stats_add_up(path, q, 3, 0, 0);
    lemma_stats_add_up(path, t, 3, 0, 0);
    if r.len() == 3 {
        reveal_with_fuel(told_stats, 2);
    }
}

} // verus!
