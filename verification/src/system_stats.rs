//! What the system tells of the machine: its processor, memory, disk and uptime.
use vstd::prelude::*;
use vstd::string::*;

use crate::effects::{
    fault, fault_told, refuse, refused, text_told, why_failed, Answer, Effect, Heard, HostStats,
    Move, MoveView, Reply, Step, Told,
};
use crate::numbers::{decimal, decimal_text, parse_number, parsed};
use crate::order::views;
use crate::outside::{lossy_text, utf8_lossy};
use crate::text::{
    cat2, cat3, cat4, has_prefix, lines, opt_text, same_text, split_lines, split_words,
    text_outcome, texts, words,
};

verus! {

/// The time that the processor has counted, in all and idle.
#[derive(Clone, Copy, Debug, PartialEq, Eq)]
pub struct HostCpuSnapshot {
    pub total: u64,
    pub idle: u64,
}

/// The first of the lines, from `i` on, that starts with a text.
pub open spec fn line_with(list: Seq<Seq<char>>, start: Seq<char>, i: int) -> Option<Seq<char>>
    decreases list.len() - i,
{
    if i < 0 || i >= list.len() {
        None
    } else if start.is_prefix_of(list[i]) {
        Some(list[i])
    } else {
        line_with(list, start, i + 1)
    }
}

/// The first line of the text that starts so.
fn find_line(text: &str, start: &str) -> (r: Option<String>)
    ensures
        opt_text(r) == line_with(lines(text@), start@, 0),
{
    let list = split_lines(text);
    let ghost all = lines(text@);
    let mut i: usize = 0;
    while i < list.len()
        invariant
            i <= list.len(),
            texts(list@) == all,
            line_with(all, start@, 0) == line_with(all, start@, i as int),
            all == lines(text@),
        decreases list.len() - i,
    {
        assert(all[i as int] == list@[i as int]@);
        if has_prefix(list[i].as_str(), start) {
            return Some(list[i].clone());
        }
        i = i + 1;
    }
    assert(all.len() == list@.len());
    None
}

/// The number that a word writes, if it is one.
pub open spec fn number_in(word: Seq<char>) -> Option<nat> {
    match parsed(word, u64::MAX as nat) {
        Ok(n) => Some(n),
        Err(_) => None,
    }
}

/// The numbers among the words.
pub open spec fn numbers_among(list: Seq<Seq<char>>) -> Seq<nat>
    decreases list.len(),
{
    if list.len() == 0 {
        Seq::empty()
    } else {
        let before = numbers_among(list.drop_last());
        match number_in(list.last()) {
            Some(n) => before.push(n),
            None => before,
        }
    }
}

/// The sum of the numbers.
pub open spec fn sum_of(list: Seq<nat>) -> nat
    decreases list.len(),
{
    if list.len() == 0 {
        0
    } else {
        sum_of(list.drop_last()) + list.last()
    }
}

/// The words but the first.
pub open spec fn after_first(list: Seq<Seq<char>>) -> Seq<Seq<char>> {
    if list.len() == 0 {
        list
    } else {
        list.drop_first()
    }
}

/// The counts of the processor, in all and idle, that a text of the kind of
/// `/proc/stat` tells: the sum of the numbers on its first line for all
/// processors, and the fourth of them with the fifth.
pub open spec fn cpu_counts(text: Result<Seq<char>, Seq<char>>) -> Result<(nat, nat), Seq<char>> {
    match text {
        Err(e) => Err("Failed to read /proc/stat: "@ + e),
        Ok(t) => match line_with(lines(t), "cpu "@, 0) {
            None => Err("CPU stats line not found in /proc/stat"@),
            Some(line) => {
                let v = numbers_among(after_first(words(line)));
                if v.len() < 4 {
                    Err("CPU stats were incomplete"@)
                } else {
                    Ok(
                        (
                            sum_of(v),
                            v[3] + (if v.len() > 4 {
                                v[4]
                            } else {
                                0
                            }),
                        ),
                    )
                }
            },
        },
    }
}

/// The numbers of a list as they are.
pub open spec fn as_nats(list: Seq<u64>) -> Seq<nat> {
    list.map_values(|n: u64| n as nat)
}

/// The numbers among the words of the line but the first.
fn numbers_on(line: &str) -> (r: Vec<u64>)
    ensures
        as_nats(r@) == numbers_among(after_first(words(line@))),
{
    let list = split_words(line);
    let ghost all = after_first(words(line@));
    let mut out: Vec<u64> = Vec::new();
    assert(texts(list@).len() == list@.len());
    assert(as_nats(out@) =~= numbers_among(all.take(0)));
    if list.len() == 0 {
        assert(all.take(0) =~= all);
        return out;
    }
    let mut i: usize = 1;
    while i < list.len()
        invariant
            1 <= i <= list.len(),
            texts(list@) == words(line@),
            all == words(line@).drop_first(),
            as_nats(out@) == numbers_among(all.take(i - 1)),
        decreases list.len() - i,
    {
        assert(all.take(i as int).drop_last() =~= all.take(i - 1));
        assert(all.take(i as int).last() == list@[i as int]@);
        if let Ok(n) = parse_number(list[i].as_str(), u64::MAX) {
            let ghost before = out@;
            out.push(n);
            assert(as_nats(out@) =~= as_nats(before).push(n as nat));
        }
        i = i + 1;
    }
    assert(all.take(all.len() as int) =~= all);
    out
}

/// The sum of the numbers.
fn sum_up(list: &Vec<u64>) -> (r: u128)
    ensures
        r == sum_of(as_nats(list@)),
        r <= list@.len() * 0xffff_ffff_ffff_ffff,
{
    let ghost all = as_nats(list@);
    let mut sum: u128 = 0;
    let mut i: usize = 0;
    while i < list.len()
        invariant
            i <= list.len(),
            all == as_nats(list@),
            sum == sum_of(all.take(i as int)),
            sum <= i * 0xffff_ffff_ffff_ffff,
        decreases list.len() - i,
    {
        assert(all.take(i + 1).drop_last() =~= all.take(i as int));
        assert(all.take(i + 1).last() == list@[i as int] as nat);
        sum = sum + list[i] as u128;
        i = i + 1;
    }
    assert(all.take(all.len() as int) =~= all);
    sum
}

/// The counts of the processor as wide numbers.
fn read_cpu_counts(stat_text: &Result<String, String>) -> (r: Result<(u128, u128), String>)
    ensures
        match r {
            Ok((total, idle)) => cpu_counts(text_outcome(*stat_text)) == Ok::<
                (nat, nat),
                Seq<char>,
            >((total as nat, idle as nat)),
            Err(e) => cpu_counts(text_outcome(*stat_text)) == Err::<(nat, nat), Seq<char>>(e@),
        },
{
    let text = match stat_text {
        Ok(text) => text,
        Err(e) => return Err(cat2("Failed to read /proc/stat: ", e.as_str())),
    };
    let line = match find_line(text.as_str(), "cpu ") {
        Some(line) => line,
        None => return Err("CPU stats line not found in /proc/stat".to_owned()),
    };
    let values = numbers_on(line.as_str());
    let ghost v = as_nats(values@);
    assert(v.len() == values@.len());
    if values.len() < 4 {
        return Err("CPU stats were incomplete".to_owned());
    }
    assert(v[3] == values@[3] as nat);
    let mut idle: u128 = values[3] as u128;
    if values.len() > 4 {
        assert(v[4] == values@[4] as nat);
        idle = idle + values[4] as u128;
    }
    Ok((sum_up(&values), idle))
}

/// Whether the counts of the processor that the text tells can be held.
pub open spec fn cpu_counts_can_be_held(text: Result<Seq<char>, Seq<char>>) -> bool {
    cpu_counts(text) matches Ok((total, idle)) ==> total <= u64::MAX && idle <= u64::MAX
}

/// Whether the counts of the processor that the text tells can be held.
pub fn cpu_counts_fit(stat_text: &Result<String, String>) -> (b: bool)
    ensures
        b == cpu_counts_can_be_held(text_outcome(*stat_text)),
{
    match read_cpu_counts(stat_text) {
        Ok((total, idle)) => total <= 0xffff_ffff_ffff_ffff && idle <= 0xffff_ffff_ffff_ffff,
        Err(_) => true,
    }
}

/// A snapshot by its counts.
pub open spec fn snapshot_outcome(r: Result<HostCpuSnapshot, String>) -> Result<
    (nat, nat),
    Seq<char>,
> {
    match r {
        Ok(s) => Ok((s.total as nat, s.idle as nat)),
        Err(e) => Err(e@),
    }
}

/// The counts of the processor that the text tells.
pub fn read_host_cpu_snapshot(stat_text: &Result<String, String>) -> (r: Result<
    HostCpuSnapshot,
    String,
>)
    requires
        cpu_counts_can_be_held(text_outcome(*stat_text)),
    ensures
        snapshot_outcome(r) == cpu_counts(text_outcome(*stat_text)),
{
    match read_cpu_counts(stat_text) {
        Ok((total, idle)) => Ok(HostCpuSnapshot { total: total as u64, idle: idle as u64 }),
        Err(e) => Err(e),
    }
}

/// The share of the processor that was in use between two snapshots: so much of
/// so much. Before the first snapshot it is nothing of nothing.
pub open spec fn usage_since(last: Option<HostCpuSnapshot>, now: HostCpuSnapshot) -> (nat, nat) {
    match last {
        None => (0, 0),
        Some(before) => {
            let total = less(now.total as nat, before.total as nat);
            let idle = less(now.idle as nat, before.idle as nat);
            (less(total, idle), total)
        },
    }
}

/// The difference of two numbers, or zero where it would be less.
pub open spec fn less(a: nat, b: nat) -> nat {
    if a >= b {
        (a - b) as nat
    } else {
        0
    }
}

/// The share of the processor that was in use between two snapshots.
pub fn cpu_usage(last: Option<HostCpuSnapshot>, now: HostCpuSnapshot) -> (r: (u64, u64))
    ensures
        (r.0 as nat, r.1 as nat) == usage_since(last, now),
{
    match last {
        None => (0, 0),
        Some(before) => {
            let total: u64 = now.total.saturating_sub(before.total);
            let idle: u64 = now.idle.saturating_sub(before.idle);
            (total.saturating_sub(idle), total)
        },
    }
}

/// The processor is never in use for more than all of the time.
pub proof fn law_usage_is_a_share(last: Option<HostCpuSnapshot>, now: HostCpuSnapshot)
    ensures
        usage_since(last, now).0 <= usage_since(last, now).1,
{
}

/// The number that the last line with a key tells; none where there is no such
/// line, or where that line tells none.
pub open spec fn told_under(list: Seq<Seq<char>>, key: Seq<char>) -> Option<nat>
    decreases list.len(),
{
    if list.len() == 0 {
        None
    } else {
        let w = words(list.last());
        if w.len() > 0 && w[0] == key {
            if w.len() > 1 {
                number_in(w[1])
            } else {
                None
            }
        } else {
            told_under(list.drop_last(), key)
        }
    }
}

/// The number, or zero where there is none.
pub open spec fn or_zero(n: Option<nat>) -> nat {
    match n {
        Some(n) => n,
        None => 0,
    }
}

/// The memory that can be had, in kilobytes: as the system tells it, or else what
/// is free, in buffers and in the cache.
pub open spec fn available_memory(list: Seq<Seq<char>>) -> nat {
    match told_under(list, "MemAvailable:"@) {
        Some(n) => n,
        None => or_zero(told_under(list, "MemFree:"@)) + or_zero(told_under(list, "Buffers:"@))
            + or_zero(told_under(list, "Cached:"@)),
    }
}

/// The memory, in all and in use, in megabytes, that a text of the kind of
/// `/proc/meminfo` tells.
pub open spec fn memory_counts(text: Result<Seq<char>, Seq<char>>) -> Result<(nat, nat), Seq<char>> {
    match text {
        Err(e) => Err("Failed to read /proc/meminfo: "@ + e),
        Ok(t) => match told_under(lines(t), "MemTotal:"@) {
            None => Err("MemTotal missing in /proc/meminfo"@),
            Some(total) => Ok(
                (total / 1024, less(total, available_memory(lines(t))) / 1024),
            ),
        },
    }
}

/// The number that the last line with the key tells.
fn find_under(list: &Vec<String>, key: &str) -> (r: Option<u64>)
    ensures
        match r {
            Some(n) => told_under(texts(list@), key@) == Some(n as nat),
            None => told_under(texts(list@), key@) is None,
        },
{
    let ghost all = texts(list@);
    let mut n: usize = list.len();
    assert(all.take(n as int) =~= all);
    while n > 0
        invariant
            n <= list.len(),
            all == texts(list@),
            told_under(all.take(n as int), key@) == told_under(all, key@),
        decreases n,
    {
        assert(all.take(n as int).last() == list@[n - 1]@);
        assert(all.take(n as int).drop_last() =~= all.take(n - 1));
        let w = split_words(list[n - 1].as_str());
        assert(texts(w@).len() == w@.len());
        if w.len() > 0 {
            assert(texts(w@)[0] == w@[0]@);
            if same_text(w[0].as_str(), key) {
                if w.len() > 1 {
                    assert(texts(w@)[1] == w@[1]@);
                    return match parse_number(w[1].as_str(), u64::MAX) {
                        Ok(value) => Some(value),
                        Err(_) => None,
                    };
                }
                return None;
            }
        }
        n = n - 1;
    }
    None
}

/// The number, or zero where there is none.
fn zero_if_none(n: Option<u64>) -> (r: u64)
    ensures
        r as nat == (match n {
            Some(n) => n as nat,
            None => 0,
        }),
{
    match n {
        Some(n) => n,
        None => 0,
    }
}

/// The memory that can be had, in kilobytes, as a wide number.
fn count_available(list: &Vec<String>) -> (r: u128)
    ensures
        r == available_memory(texts(list@)),
{
    match find_under(list, "MemAvailable:") {
        Some(n) => n as u128,
        None => {
            let free: u64 = zero_if_none(find_under(list, "MemFree:"));
            let buffers: u64 = zero_if_none(find_under(list, "Buffers:"));
            let cached: u64 = zero_if_none(find_under(list, "Cached:"));
            free as u128 + buffers as u128 + cached as u128
        },
    }
}

/// Whether the memory that can be had, by a text that tells how much there is, can be
/// held as a number.
pub open spec fn memory_can_be_held(text: Result<Seq<char>, Seq<char>>) -> bool {
    text matches Ok(t) ==> told_under(lines(t), "MemTotal:"@) is Some ==> available_memory(lines(t))
        <= u64::MAX
}

/// Whether the memory that can be had, by a text that tells how much there is, can be
/// held as a number.
pub fn memory_fits(meminfo: &Result<String, String>) -> (b: bool)
    ensures
        b == memory_can_be_held(text_outcome(*meminfo)),
{
    match meminfo {
        Ok(text) => {
            let list = split_lines(text.as_str());
            find_under(&list, "MemTotal:").is_none() || count_available(&list)
                <= 0xffff_ffff_ffff_ffff
        },
        Err(_) => true,
    }
}

/// Two counts, or why there are none.
pub open spec fn counts_outcome(r: Result<(u64, u64), String>) -> Result<(nat, nat), Seq<char>> {
    match r {
        Ok((a, b)) => Ok((a as nat, b as nat)),
        Err(e) => Err(e@),
    }
}

/// The memory, in all and in use, in megabytes, that the text tells.
pub fn read_host_memory_mb(meminfo: &Result<String, String>) -> (r: Result<(u64, u64), String>)
    requires
        memory_can_be_held(text_outcome(*meminfo)),
    ensures
        counts_outcome(r) == memory_counts(text_outcome(*meminfo)),
{
    let list = match meminfo {
        Ok(text) => split_lines(text.as_str()),
        Err(e) => return Err(cat2("Failed to read /proc/meminfo: ", e.as_str())),
    };
    let total: u64 = match find_under(&list, "MemTotal:") {
        Some(total) => total,
        None => return Err("MemTotal missing in /proc/meminfo".to_owned()),
    };
    let available: u64 = count_available(&list) as u64;
    let used: u64 = total.saturating_sub(available);
    Ok((total / 1024, used / 1024))
}

/// No more memory is in use than there is.
pub proof fn law_memory_in_use_is_there(text: Result<Seq<char>, Seq<char>>)
    ensures
        memory_counts(text) matches Ok((total, used)) ==> used <= total,
{
}

/// The disk's size and what is in use of it, in megabytes, by what `df` printed:
/// the second and third word of the second line.
pub open spec fn disk_in(text: Seq<char>) -> Result<(nat, nat), Seq<char>> {
    let list = lines(text);
    let w = words(list[1]);
    if list.len() < 2 {
        Err("No disk stats returned by df"@)
    } else if w.len() < 3 {
        Err("Unexpected df output format"@)
    } else {
        match (parsed(w[1], u64::MAX as nat), parsed(w[2], u64::MAX as nat)) {
            (Err(e), _) => Err("Invalid disk total from df: "@ + e.words()),
            (_, Err(e)) => Err("Invalid disk used from df: "@ + e.words()),
            (Ok(total), Ok(used)) => Ok((total / 1024, used / 1024)),
        }
    }
}

/// The disk's size and what is in use of it, in megabytes, by what came of running
/// `df`.
pub open spec fn disk_counts(output: Told) -> Result<(nat, nat), Seq<char>> {
    match output {
        Reply::Failed(e) => Err("Failed to execute df: "@ + e),
        Reply::Bytes(bytes) => disk_in(utf8_lossy(bytes)),
        _ => Err("df command failed"@),
    }
}

/// The disk's size and what is in use of it, in megabytes, by the lines that `df`
/// printed.
pub fn read_disk_lines(text: &str) -> (r: Result<(u64, u64), String>)
    ensures
        counts_outcome(r) == disk_in(text@),
{
    let list = split_lines(text);
    assert(texts(list@).len() == list@.len());
    if list.len() < 2 {
        return Err("No disk stats returned by df".to_owned());
    }
    assert(texts(list@)[1] == list@[1]@);
    let w = split_words(list[1].as_str());
    assert(texts(w@).len() == w@.len());
    if w.len() < 3 {
        return Err("Unexpected df output format".to_owned());
    }
    assert(texts(w@)[1] == w@[1]@);
    assert(texts(w@)[2] == w@[2]@);
    let total: u64 = match parse_number(w[1].as_str(), u64::MAX) {
        Ok(total) => total,
        Err(e) => return Err(cat2("Invalid disk total from df: ", e.message().as_str())),
    };
    let used: u64 = match parse_number(w[2].as_str(), u64::MAX) {
        Ok(used) => used,
        Err(e) => return Err(cat2("Invalid disk used from df: ", e.message().as_str())),
    };
    Ok((total / 1024, used / 1024))
}

/// The disk's size and what is in use of it, in megabytes, by what came of running
/// `df`.
pub fn read_host_disk_mb(output: &Heard) -> (r: Result<(u64, u64), String>)
    ensures
        counts_outcome(r) == disk_counts(output@),
{
    match output {
        Reply::Failed(e) => Err(cat2("Failed to execute df: ", e.as_str())),
        Reply::Bytes(bytes) => read_disk_lines(lossy_text(bytes.as_slice()).as_str()),
        _ => Err("df command failed".to_owned()),
    }
}

/// The first word of a file's text, or why there is none.
pub open spec fn first_word(file: Seq<char>, text: Result<Seq<char>, Seq<char>>) -> Result<
    Seq<char>,
    Seq<char>,
> {
    match text {
        Err(e) => Err("Failed to read "@ + file + ": "@ + e),
        Ok(t) => if words(t).len() == 0 {
            Err("Invalid "@ + file + " format"@)
        } else {
            Ok(words(t)[0])
        },
    }
}

/// The first word of the file's text, or why there is none.
pub fn read_first_word(file: &str, text: &Result<String, String>) -> (r: Result<String, String>)
    ensures
        text_outcome(r) == first_word(file@, text_outcome(*text)),
{
    match text {
        Err(e) => Err(cat4("Failed to read ", file, ": ", e.as_str())),
        Ok(t) => {
            let w = split_words(t.as_str());
            assert(texts(w@).len() == w@.len());
            if w.len() == 0 {
                return Err(cat3("Invalid ", file, " format"));
            }
            assert(texts(w@)[0] == w@[0]@);
            Ok(w[0].clone())
        },
    }
}

/// An uptime as a person reads it: days and hours, hours and minutes, or
/// minutes, by the largest that is not zero.
pub open spec fn human_uptime(seconds: nat) -> Seq<char> {
    let days = seconds / 86_400;
    let hours = (seconds % 86_400) / 3_600;
    let minutes = (seconds % 3_600) / 60;
    if days > 0 {
        decimal(days) + "d "@ + decimal(hours) + "h"@
    } else if hours > 0 {
        decimal(hours) + "h "@ + decimal(minutes) + "m"@
    } else {
        decimal(minutes) + "m"@
    }
}

/// An uptime in seconds as a person reads it.
pub fn format_uptime_human(seconds: u64) -> (r: String)
    ensures
        r@ == human_uptime(seconds as nat),
{
    let days: u64 = seconds / 86_400;
    let hours: u64 = (seconds % 86_400) / 3_600;
    let minutes: u64 = (seconds % 3_600) / 60;
    if days > 0 {
        let d = decimal_text(days);
        let h = decimal_text(hours);
        cat4(d.as_str(), "d ", h.as_str(), "h")
    } else if hours > 0 {
        let h = decimal_text(hours);
        let m = decimal_text(minutes);
        cat4(h.as_str(), "h ", m.as_str(), "m")
    } else {
        let m = decimal_text(minutes);
        cat2(m.as_str(), "m")
    }
}

/// A text that an effect was to read, as a reply tells it.
pub open spec fn told_text(reply: Told) -> Result<Seq<char>, Seq<char>> {
    match reply.text() {
        Some(t) => Ok(t),
        None => Err(fault(reply)),
    }
}

/// The text that effect `i` was to read.
fn read_told(replies: &Vec<Heard>, i: usize) -> (r: Result<String, String>)
    requires
        i < replies@.len(),
    ensures
        text_outcome(r) == told_text(views(replies@)[i as int]),
{
    match text_told(replies, i) {
        Some(t) => Ok(t),
        None => Err(fault_told(replies, i)),
    }
}

/// The last snapshot that a reply tells, if there was one.
pub open spec fn told_snapshot(reply: Told) -> Option<HostCpuSnapshot> {
    match reply {
        Reply::Stats(total, idle) => Some(HostCpuSnapshot { total, idle }),
        _ => None,
    }
}

/// Telling the state of the machine: the processor since the last time, the
/// memory, the disk, the uptime and the load, and the first failure among them.
pub open spec fn telling_host(r: Seq<Told>) -> MoveView {
    if r.len() == 0 {
        Step::Ask(Effect::ReadText("/proc/stat"@))
    } else {
        match cpu_counts(told_text(r[0])) {
            Err(e) => refused(e),
            Ok((total, idle)) => {
                let now = HostCpuSnapshot { total: total as u64, idle: idle as u64 };
                if r.len() == 1 {
                    Step::Ask(Effect::SwapSnapshot(now.total, now.idle))
                } else if r.len() == 2 {
                    Step::Ask(Effect::ReadText("/proc/meminfo"@))
                } else {
                    telling_rest(usage_since(told_snapshot(r[1]), now), r)
                }
            },
        }
    }
}

/// Telling the state of the machine, from the memory on.
pub open spec fn telling_rest(usage: (nat, nat), r: Seq<Told>) -> MoveView {
    match memory_counts(told_text(r[2])) {
        Err(e) => refused(e),
        Ok((memory_total, memory_used)) => if r.len() == 3 {
            Step::Ask(Effect::DiskFree("."@))
        } else {
            match disk_counts(r[3]) {
                Err(e) => refused(e),
                Ok((disk_total, disk_used)) => if r.len() == 4 {
                    Step::Ask(Effect::ReadText("/proc/uptime"@))
                } else {
                    match first_word("/proc/uptime"@, told_text(r[4])) {
                        Err(e) => refused(e),
                        Ok(uptime) => if r.len() == 5 {
                            Step::Ask(Effect::ParseSeconds(uptime))
                        } else {
                            match r[5] {
                                Reply::Number(seconds) => if r.len() == 6 {
                                    Step::Ask(Effect::ReadText("/proc/loadavg"@))
                                } else {
                                    telling_load(
                                        HostStats {
                                            cpu_busy: usage.0 as u64,
                                            cpu_total: usage.1 as u64,
                                            memory_total_mb: memory_total as u64,
                                            memory_used_mb: memory_used as u64,
                                            disk_total_mb: disk_total as u64,
                                            disk_used_mb: disk_used as u64,
                                            uptime_seconds: seconds,
                                            uptime_human: human_uptime(seconds as nat),
                                        },
                                        r,
                                    )
                                },
                                _ => refused("Invalid uptime value: "@ + fault(r[5])),
                            }
                        },
                    }
                },
            }
        },
    }
}

/// Telling the state of the machine, from the load on.
pub open spec fn telling_load(stats: HostStats<Seq<char>>, r: Seq<Told>) -> MoveView {
    match first_word("/proc/loadavg"@, told_text(r[6])) {
        Err(e) => refused(e),
        Ok(load) => if r.len() == 7 {
            Step::Ask(Effect::ParseLoad(load))
        } else if r[7].failure() is Some {
            refused("Invalid load average value: "@ + r[7].failure()->0)
        } else {
            Step::Answer(Answer::HostStats(stats))
        },
    }
}

/// Whether the counts that the replies tell can be held.
pub open spec fn host_counts_can_be_held(r: Seq<Told>) -> bool {
    &&& r.len() > 0 ==> cpu_counts_can_be_held(told_text(r[0]))
    &&& r.len() > 2 ==> memory_can_be_held(told_text(r[2]))
}

/// Whether the counts that the replies tell can be held.
pub fn host_counts_fit(replies: &Vec<Heard>) -> (b: bool)
    ensures
        b == host_counts_can_be_held(views(replies@)),
{
    if replies.len() > 0 && !cpu_counts_fit(&read_told(replies, 0)) {
        return false;
    }
    if replies.len() > 2 && !memory_fits(&read_told(replies, 2)) {
        return false;
    }
    true
}

/// Tells the state of the machine.
pub fn api_host_stats(replies: &Vec<Heard>) -> (s: Move)
    requires
        host_counts_can_be_held(views(replies@)),
    ensures
        s@ == telling_host(views(replies@)),
{
    let ghost r = views(replies@);
    let n: usize = replies.len();
    if n == 0 {
        return Step::Ask(Effect::ReadText("/proc/stat".to_owned()));
    }
    let now: HostCpuSnapshot = match read_host_cpu_snapshot(&read_told(replies, 0)) {
        Ok(now) => now,
        Err(e) => return refuse(e.as_str()),
    };
    if n == 1 {
        return Step::Ask(Effect::SwapSnapshot(now.total, now.idle));
    }
    if n == 2 {
        return Step::Ask(Effect::ReadText("/proc/meminfo".to_owned()));
    }
    assert(r[1] == replies@[1]@);
    let last: Option<HostCpuSnapshot> = match &replies[1] {
        Reply::Stats(total, idle) => Some(HostCpuSnapshot { total: *total, idle: *idle }),
        _ => None,
    };
    let (cpu_busy, cpu_total): (u64, u64) = cpu_usage(last, now);
    let (memory_total_mb, memory_used_mb): (u64, u64) = match read_host_memory_mb(
        &read_told(replies, 2),
    ) {
        Ok(counts) => counts,
        Err(e) => return refuse(e.as_str()),
    };
    if n == 3 {
        return Step::Ask(Effect::DiskFree(".".to_owned()));
    }
    assert(r[3] == replies@[3]@);
    let (disk_total_mb, disk_used_mb): (u64, u64) = match read_host_disk_mb(&replies[3]) {
        Ok(counts) => counts,
        Err(e) => return refuse(e.as_str()),
    };
    if n == 4 {
        return Step::Ask(Effect::ReadText("/proc/uptime".to_owned()));
    }
    let uptime = match read_first_word("/proc/uptime", &read_told(replies, 4)) {
        Ok(uptime) => uptime,
        Err(e) => return refuse(e.as_str()),
    };
    if n == 5 {
        return Step::Ask(Effect::ParseSeconds(uptime));
    }
    assert(r[5] == replies@[5]@);
    let seconds: u64 = match &replies[5] {
        Reply::Number(seconds) => *seconds,
        _ => {
            let e = cat2("Invalid uptime value: ", fault_told(replies, 5).as_str());
            return refuse(e.as_str());
        },
    };
    if n == 6 {
        return Step::Ask(Effect::ReadText("/proc/loadavg".to_owned()));
    }
    let load = match read_first_word("/proc/loadavg", &read_told(replies, 6)) {
        Ok(load) => load,
        Err(e) => return refuse(e.as_str()),
    };
    if n == 7 {
        return Step::Ask(Effect::ParseLoad(load));
    }
    if let Some(e) = why_failed(replies, 7) {
        return refuse(cat2("Invalid load average value: ", e.as_str()).as_str());
    }
    Step::Answer(
        Answer::HostStats(
            HostStats {
                cpu_busy,
                cpu_total,
                memory_total_mb,
                memory_used_mb,
                disk_total_mb,
                disk_used_mb,
                uptime_seconds: seconds,
                uptime_human: format_uptime_human(seconds),
            },
        ),
    )
}

/// The line that is taken is the first one that begins so, and there is none only where
/// no line does.
pub proof fn law_first_line_with(list: Seq<Seq<char>>, start: Seq<char>, i: int)
    requires
        0 <= i <= list.len(),
    ensures
        match line_with(list, start, i) {
            Some(line) => exists|k: int|
                {
                    &&& i <= k < list.len()
                    &&& #[trigger] list[k] == line
                    &&& start.is_prefix_of(line)
                    &&& forall|j: int| i <= j < k ==> !start.is_prefix_of(#[trigger] list[j])
                },
            None => forall|j: int| i <= j < list.len() ==> !start.is_prefix_of(#[trigger] list[j]),
        },
    decreases list.len() - i,
{
    if i < list.len() {
        if start.is_prefix_of(list[i]) {
            assert(list[i] == line_with(list, start, i)->0);
        } else {
            law_first_line_with(list, start, i + 1);
            if let Some(line) = line_with(list, start, i + 1) {
                let k = choose|k: int|
                    {
                        &&& i + 1 <= k < list.len()
                        &&& #[trigger] list[k] == line
                        &&& start.is_prefix_of(line)
                        &&& forall|j: int|
                            i + 1 <= j < k ==> !start.is_prefix_of(#[trigger] list[j])
                    };
                assert(list[k] == line);
                assert forall|j: int| i <= j < k implies !start.is_prefix_of(#[trigger] list[j]) by {
                    if j > i {
                        assert(!start.is_prefix_of(list[j]));
                    }
                }
            }
        }
    }
}

/// The numbers among some words are those of the first part and then those of the rest,
/// each word that is a number giving its own; their sum is that of both parts.
pub proof fn law_numbers_among(a: Seq<Seq<char>>, b: Seq<Seq<char>>, word: Seq<char>, c: Seq<nat>, d: Seq<nat>, n: nat)
    ensures
        numbers_among(Seq::empty()) == Seq::<nat>::empty(),
        numbers_among(a + b) == numbers_among(a) + numbers_among(b),
        numbers_among(seq![word]) == match parsed(word, 0xffff_ffff_ffff_ffff) {
            Ok(n) => seq![n],
            Err(_) => Seq::empty(),
        },
        sum_of(Seq::empty()) == 0,
        sum_of(seq![n]) == n,
        sum_of(c + d) == sum_of(c) + sum_of(d),
    decreases b.len() + d.len(),
{
    reveal_with_fuel(numbers_among, 2);
    reveal_with_fuel(sum_of, 2);
    assert(seq![word].drop_last() =~= Seq::<Seq<char>>::empty());
    assert(seq![n].drop_last() =~= Seq::<nat>::empty());
    if b.len() == 0 {
        assert(a + b =~= a);
        assert(numbers_among(a) + numbers_among(b) =~= numbers_among(a));
    } else {
        law_numbers_among(a, b.drop_last(), word, c, Seq::empty(), n);
        assert((a + b).drop_last() =~= a + b.drop_last());
        assert(numbers_among(a + b) =~= numbers_among(a) + numbers_among(b));
    }
    if d.len() == 0 {
        assert(c + d =~= c);
    } else {
        law_numbers_among(a, Seq::empty(), word, c, d.drop_last(), n);
        assert((c + d).drop_last() =~= c + d.drop_last());
    }
}

/// The processor's time is the sum of the numbers in its line, and its idle time the
/// fourth of them together with the fifth where there is one.
pub proof fn law_processor_time(text: Seq<char>, e: Seq<char>, line: Seq<char>)
    ensures
        cpu_counts(Err(e)) == Err::<(nat, nat), Seq<char>>("Failed to read /proc/stat: "@ + e),
        line_with(lines(text), "cpu "@, 0) is None ==> cpu_counts(Ok(text)) == Err::<
            (nat, nat),
            Seq<char>,
        >("CPU stats line not found in /proc/stat"@),
        line_with(lines(text), "cpu "@, 0) == Some(line) && words(line).len() > 0 ==> ({
            let v = numbers_among(words(line).skip(1));
            cpu_counts(Ok(text)) == (if v.len() < 4 {
                Err::<(nat, nat), Seq<char>>("CPU stats were incomplete"@)
            } else if v.len() == 4 {
                Ok((sum_of(v), v[3]))
            } else {
                Ok((sum_of(v), v[3] + v[4]))
            })
        }),
{
    if words(line).len() > 0 {
        assert(after_first(words(line)) =~= words(line).skip(1));
    }
}

/// Between two snapshots the processor was at work for the time that passed without the
/// idle part of it; before the first there is nothing to tell.
pub proof fn law_usage_between(
    before: HostCpuSnapshot,
    now: HostCpuSnapshot,
    passed: nat,
    idle: nat,
)
    ensures
        usage_since(None, now) == (0nat, 0nat),
        now.total == before.total + passed && now.idle == before.idle + idle ==> {
            &&& idle <= passed ==> usage_since(Some(before), now) == ((passed - idle) as nat, passed)
            &&& idle > passed ==> usage_since(Some(before), now) == (0nat, passed)
        },
        now.total <= before.total ==> usage_since(Some(before), now) == (0nat, 0nat),
        now.total == before.total + passed && now.idle <= before.idle ==> usage_since(
            Some(before),
            now,
        ) == (passed, passed),
{
}

/// What is told under a key stands behind it on its last line: a further line with the
/// key first replaces what was told, and any other changes nothing.
pub proof fn law_told_under(list: Seq<Seq<char>>, line: Seq<char>, key: Seq<char>)
    ensures
        told_under(Seq::empty(), key) is None,
        words(line).len() > 0 && words(line)[0] == key ==> told_under(list.push(line), key) == (
        if words(line).len() == 1 {
            None
        } else {
            match parsed(words(line)[1], 0xffff_ffff_ffff_ffff) {
                Ok(n) => Some(n),
                Err(_) => None,
            }
        }),
        !(words(line).len() > 0 && words(line)[0] == key) ==> told_under(list.push(line), key)
            == told_under(list, key),
{
    assert(list.push(line).drop_last() =~= list);
}

/// The memory that is there and that is in use, in MB of the KB that are told: in use is
/// what is not available, and where that is not told what is not free, buffered or cached.
pub proof fn law_memory_is_told(text: Seq<char>, e: Seq<char>, total: nat, available: nat)
    ensures
        memory_counts(Err(e)) == Err::<(nat, nat), Seq<char>>(
            "Failed to read /proc/meminfo: "@ + e,
        ),
        ({
            let list = lines(text);
            let sum = |k: Seq<char>|
                match told_under(list, k) {
                    Some(n) => n,
                    None => 0nat,
                };
            &&& told_under(list, "MemTotal:"@) is None ==> memory_counts(Ok(text)) == Err::<
                (nat, nat),
                Seq<char>,
            >("MemTotal missing in /proc/meminfo"@)
            &&& told_under(list, "MemTotal:"@) == Some(total) && (match told_under(
                list,
                "MemAvailable:"@,
            ) {
                Some(n) => available == n,
                None => available == sum("MemFree:"@) + sum("Buffers:"@) + sum("Cached:"@),
            }) ==> memory_counts(Ok(text)) == Ok::<(nat, nat), Seq<char>>(
                (
                    total / 1024,
                    if available <= total {
                        ((total - available) as nat) / 1024
                    } else {
                        0
                    },
                ),
            )
        }),
{
}

/// The disk is told on the second line, in the second and third word, in KB; it is given
/// in MB.
pub proof fn law_disk_is_told(text: Seq<char>, e: Seq<char>, bytes: Seq<u8>)
    ensures
        disk_counts(Told::Failed(e)) == Err::<(nat, nat), Seq<char>>("Failed to execute df: "@ + e),
        disk_counts(Told::Nothing) == Err::<(nat, nat), Seq<char>>("df command failed"@),
        disk_counts(Told::Bytes(bytes)) == disk_in(utf8_lossy(bytes)),
        lines(text).len() < 2 ==> disk_in(text) == Err::<(nat, nat), Seq<char>>(
            "No disk stats returned by df"@,
        ),
        lines(text).len() >= 2 ==> ({
            let w = words(lines(text)[1]);
            &&& w.len() < 3 ==> disk_in(text) == Err::<(nat, nat), Seq<char>>(
                "Unexpected df output format"@,
            )
            &&& w.len() >= 3 ==> disk_in(text) == match (
                parsed(w[1], 0xffff_ffff_ffff_ffff),
                parsed(w[2], 0xffff_ffff_ffff_ffff),
            ) {
                (Ok(total), Ok(used)) => Ok::<(nat, nat), Seq<char>>((total / 1024, used / 1024)),
                (Err(fault), _) => Err("Invalid disk total from df: "@ + fault.words()),
                (Ok(_), Err(fault)) => Err("Invalid disk used from df: "@ + fault.words()),
            }
        }),
{
}

/// The first word of a file is taken, and a file without one is no good.
pub proof fn law_first_word(file: Seq<char>, text: Seq<char>, e: Seq<char>)
    ensures
        first_word(file, Err(e)) == Err::<Seq<char>, Seq<char>>(
            "Failed to read "@ + file + ": "@ + e,
        ),
        words(text).len() > 0 ==> first_word(file, Ok(text)) == Ok::<Seq<char>, Seq<char>>(
            words(text)[0],
        ),
        words(text).len() == 0 ==> first_word(file, Ok(text)) == Err::<Seq<char>, Seq<char>>(
            "Invalid "@ + file + " format"@,
        ),
{
}

/// An uptime is told in days and hours, below a day in hours and minutes, and below an
/// hour in minutes.
pub proof fn law_uptime_is_told(days: nat, hours: nat, minutes: nat, seconds: nat)
    requires
        hours < 24,
        minutes < 60,
        seconds < 60,
    ensures
        human_uptime(((days * 24 + hours) * 60 + minutes) * 60 + seconds) == (if days > 0 {
            decimal(days) + "d "@ + decimal(hours) + "h"@
        } else if hours > 0 {
            decimal(hours) + "h "@ + decimal(minutes) + "m"@
        } else {
            decimal(minutes) + "m"@
        }),
{
    let all = ((days * 24 + hours) * 60 + minutes) * 60 + seconds;
    assert(all == days * 86_400 + hours * 3_600 + minutes * 60 + seconds);
    assert(all / 86_400 == days);
    assert(all % 86_400 == hours * 3_600 + minutes * 60 + seconds);
    assert((all % 86_400) / 3_600 == hours);
    assert(all % 3_600 == minutes * 60 + seconds);
}

/// Telling of the machine goes on as each reply asks for, and in the end tells all of it:
/// the processor's use since the last time, memory, disk and uptime.
pub proof fn law_telling_of_the_machine_goes_on(r: Seq<Told>, x: Told)
    ensures
        telling_host(Seq::empty()) == MoveView::Ask(Effect::ReadText("/proc/stat"@)),
        ({
            let error = |e: Seq<char>| MoveView::Answer(Answer::Error(e));
            let next = telling_host(r.push(x));
            let read = |t: Told| t is Text || t is Failed;
            let text = |t: Told|
                match t {
                    Reply::Text(text) => Ok::<Seq<char>, Seq<char>>(text),
                    _ => Err(t->Failed_0),
                };
            match telling_host(r) {
                Step::Answer(a) => next == MoveView::Answer(a),
                Step::Ask(Effect::ReadText(file)) => read(x) ==> if r.len() == 0 {
                    next == match cpu_counts(text(x)) {
                        Err(e) => error(e),
                        Ok((total, idle)) => MoveView::Ask(
                            Effect::SwapSnapshot(total as u64, idle as u64),
                        ),
                    }
                } else if r.len() == 2 {
                    file == "/proc/meminfo"@ && next == match memory_counts(text(x)) {
                        Err(e) => error(e),
                        Ok(_) => MoveView::Ask(Effect::DiskFree("."@)),
                    }
                } else if r.len() == 4 {
                    file == "/proc/uptime"@ && next == match first_word("/proc/uptime"@, text(x)) {
                        Err(e) => error(e),
                        Ok(word) => MoveView::Ask(Effect::ParseSeconds(word)),
                    }
                } else {
                    r.len() == 6 && file == "/proc/loadavg"@ && next == match first_word(
                        "/proc/loadavg"@,
                        text(x),
                    ) {
                        Err(e) => error(e),
                        Ok(word) => MoveView::Ask(Effect::ParseLoad(word)),
                    }
                },
                Step::Ask(Effect::SwapSnapshot(_, _)) => r.len() == 1 && next == MoveView::Ask(
                    Effect::ReadText("/proc/meminfo"@),
                ),
                Step::Ask(Effect::DiskFree(_)) => r.len() == 3 && next == match disk_counts(x) {
                    Err(e) => error(e),
                    Ok(_) => MoveView::Ask(Effect::ReadText("/proc/uptime"@)),
                },
                Step::Ask(Effect::ParseSeconds(_)) => r.len() == 5 && match x {
                    Reply::Number(_) => next == MoveView::Ask(Effect::ReadText("/proc/loadavg"@)),
                    Reply::Failed(e) => next == error("Invalid uptime value: "@ + e),
                    _ => next matches Step::Answer(Answer::Error(_)),
                },
                Step::Ask(Effect::ParseLoad(_)) => r.len() == 7 && match x {
                    Reply::Failed(e) => next == error("Invalid load average value: "@ + e),
                    _ => read(r[0]) && read(r[2]) ==> {
                        let counts = cpu_counts(text(r[0]))->Ok_0;
                        let now = HostCpuSnapshot { total: counts.0 as u64, idle: counts.1 as u64 };
                        let usage = usage_since(
                            match r[1] {
                                Reply::Stats(total, idle) => Some(HostCpuSnapshot { total, idle }),
                                _ => None,
                            },
                            now,
                        );
                        let memory = memory_counts(text(r[2]))->Ok_0;
                        let disk = disk_counts(r[3])->Ok_0;
                        next == MoveView::Answer(
                            Answer::HostStats(
                                HostStats {
                                    cpu_busy: usage.0 as u64,
                                    cpu_total: usage.1 as u64,
                                    memory_total_mb: memory.0 as u64,
                                    memory_used_mb: memory.1 as u64,
                                    disk_total_mb: disk.0 as u64,
                                    disk_used_mb: disk.1 as u64,
                                    uptime_seconds: r[5]->Number_0,
                                    uptime_human: human_uptime(r[5]->Number_0 as nat),
                                },
                            ),
                        )
                    },
                },
                Step::Ask(_) => false,
            }
        }),
{
    let q = r.push(x);
    assert forall|j: int| 0 <= j < r.len() implies q[j] == r[j] by {}
    assert(q[r.len() as int] == x);
}

} // verus!
