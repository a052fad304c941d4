//! What the panel settles when it starts: where its data stands, under which
//! address it can be reached, and whether the device's monitor answers.
use vstd::prelude::*;
use vstd::string::*;

use crate::effects::{
    fail, failed, fault, fault_told, text_told, why_failed, Answer, Effect, Heard, Move, MoveView,
    Reply, Step, Task, TaskView, Told,
};
use crate::numbers::{
    all_digits, decimal, decimal_text, digit_char, law_decimal_reads_back, lemma_digit_run,
    lemma_digit_run_bounds, parse_number, unsigned_digits, value,
};
use crate::order::views;
use crate::outside::{json_value, lossy_text, parse_json, utf8_lossy};
use crate::paths::{join_path, joined_path};
use crate::text::{
    cat2, cat3, cat4, cat5, has_prefix, joined, law_joined_parts_come_apart, opt_str, parts,
    split_parts, split_words, strip_back, text_outcome, texts, trim, trim_end_char, trimmed, words, Cut,
};

verus! {

/// The directory of the panel's data: in the home directory, or where that is not
/// known, in the current one.
pub open spec fn data_place(home: Option<Seq<char>>) -> Seq<char> {
    match home {
        Some(h) => joined_path(joined_path(joined_path(h, ".local"@), "share"@), "minara"@),
        None => ".minara"@,
    }
}

/// The directory of the panel's data.
pub fn get_minara_data_dir(home: Option<&str>) -> (r: String)
    ensures
        r@ == data_place(opt_str(home)),
{
    match home {
        Some(h) => join_path(
            join_path(join_path(h, ".local").as_str(), "share").as_str(),
            "minara",
        ),
        None => ".minara".to_owned(),
    }
}

/// The directory of the instances.
pub fn get_instances_dir(home: Option<&str>) -> (r: String)
    ensures
        r@ == joined_path(data_place(opt_str(home)), "instances"@),
{
    join_path(get_minara_data_dir(home).as_str(), "instances")
}

/// The directory of the backups.
pub fn get_backups_dir(home: Option<&str>) -> (r: String)
    ensures
        r@ == joined_path(data_place(opt_str(home)), "backups"@),
{
    join_path(get_minara_data_dir(home).as_str(), "backups")
}

/// Making the directories of the panel's data.
pub open spec fn preparing(home: Option<Seq<char>>, r: Seq<Told>) -> TaskView {
    let instances = joined_path(data_place(home), "instances"@);
    let backups = joined_path(data_place(home), "backups"@);
    if r.len() == 0 {
        Step::Ask(Effect::CreateDirAll(instances))
    } else if r[0].failure() is Some {
        failed(
            "Failed to create instances directory "@ + instances + ": "@ + r[0].failure()->0,
        )
    } else if r.len() == 1 {
        Step::Ask(Effect::CreateDirAll(backups))
    } else if r[1].failure() is Some {
        failed("Failed to create backups directory "@ + backups + ": "@ + r[1].failure()->0)
    } else {
        Step::Answer(Reply::Done)
    }
}

/// Makes the directories of the panel's data.
pub fn ensure_minara_data_dirs(home: Option<&str>, replies: &Vec<Heard>) -> (s: Task)
    ensures
        s@ == preparing(opt_str(home), views(replies@)),
{
    let instances = get_instances_dir(home);
    let backups = get_backups_dir(home);
    if replies.len() == 0 {
        return Step::Ask(Effect::CreateDirAll(instances));
    }
    if let Some(e) = why_failed(replies, 0) {
        return fail(
            cat4(
                "Failed to create instances directory ",
                instances.as_str(),
                ": ",
                e.as_str(),
            ).as_str(),
        );
    }
    if replies.len() == 1 {
        return Step::Ask(Effect::CreateDirAll(backups));
    }
    if let Some(e) = why_failed(replies, 1) {
        return fail(
            cat4(
                "Failed to create backups directory ",
                backups.as_str(),
                ": ",
                e.as_str(),
            ).as_str(),
        );
    }
    Step::Answer(Reply::Done)
}

/// An address of the fourth version of the Internet protocol.
#[derive(Clone, Copy, Debug, PartialEq, Eq, Structural)]
pub struct Ipv4 {
    pub a: u8,
    pub b: u8,
    pub c: u8,
    pub d: u8,
}

/// The address as text: its four numbers with points between them.
pub open spec fn dotted(ip: Ipv4) -> Seq<char> {
    decimal(ip.a as nat) + "."@ + decimal(ip.b as nat) + "."@ + (decimal(ip.c as nat) + "."@ + decimal(
        ip.d as nat,
    ))
}

/// The address as text.
pub fn ip_text(ip: Ipv4) -> (r: String)
    ensures
        r@ == dotted(ip),
{
    let a = decimal_text(ip.a as u64);
    let b = decimal_text(ip.b as u64);
    let c = decimal_text(ip.c as u64);
    let d = decimal_text(ip.d as u64);
    let rest = cat3(c.as_str(), ".", d.as_str());
    cat5(a.as_str(), ".", b.as_str(), ".", rest.as_str())
}

/// The number that a field of an address writes: digits, without needless zeros
/// in front, and at most 255.
pub open spec fn octet(field: Seq<char>) -> Option<u8> {
    if field.len() > 0 && all_digits(field) && (field.len() == 1 || field[0] != '0') && value(field)
        <= 255 {
        Some(value(field) as u8)
    } else {
        None
    }
}

/// The address that a text writes, if it writes one.
pub open spec fn address_in(text: Seq<char>) -> Option<Ipv4> {
    let p = parts(text, Cut::At('.'));
    if p.len() != 4 {
        None
    } else {
        match (octet(p[0]), octet(p[1]), octet(p[2]), octet(p[3])) {
            (Some(a), Some(b), Some(c), Some(d)) => Some(Ipv4 { a, b, c, d }),
            _ => None,
        }
    }
}

/// The number that the field of an address writes.
fn read_octet(field: &str) -> (r: Option<u8>)
    ensures
        r == octet(field@),
{
    let n: usize = field.unicode_len();
    if n == 0 {
        return None;
    }
    let first = field.get_char(0);
    if !('0' <= first && first <= '9') {
        assert(!all_digits(field@));
        return None;
    }
    if n > 1 && first == '0' {
        return None;
    }
    proof {
        assert(unsigned_digits(field@) == field@);
        if all_digits(field@) {
            lemma_digit_run(field@, field@.len() as int);
            assert(field@.take(field@.len() as int) =~= field@);
        } else {
            lemma_digit_run_bounds(field@);
        }
    }
    match parse_number(field, 255) {
        Ok(v) => Some(v as u8),
        Err(_) => None,
    }
}

/// The address that the text writes, if it writes one.
pub fn parse_ipv4(text: &str) -> (r: Option<Ipv4>)
    ensures
        r == address_in(text@),
{
    let p = split_parts(text, Cut::At('.'));
    let ghost g = parts(text@, Cut::At('.'));
    assert(texts(p@).len() == p@.len());
    if p.len() != 4 {
        return None;
    }
    assert(g[0] == p@[0]@ && g[1] == p@[1]@ && g[2] == p@[2]@ && g[3] == p@[3]@);
    match (
        read_octet(p[0].as_str()),
        read_octet(p[1].as_str()),
        read_octet(p[2].as_str()),
        read_octet(p[3].as_str()),
    ) {
        (Some(a), Some(b), Some(c), Some(d)) => Some(Ipv4 { a, b, c, d }),
        _ => None,
    }
}

/// How well a private address serves to reach the panel, the lowest best; none for
/// an address that is not private.
pub open spec fn private_rank(ip: Ipv4) -> Option<u8> {
    if ip.a == 192 && ip.b == 168 {
        Some(0)
    } else if ip.a == 10 {
        Some(1)
    } else if ip.a == 172 && 16 <= ip.b <= 31 {
        Some(2)
    } else if ip.a == 169 && ip.b == 254 {
        Some(3)
    } else {
        None
    }
}

/// How well the private address serves to reach the panel.
pub fn private_ipv4_priority(ip: Ipv4) -> (r: Option<u8>)
    ensures
        r == private_rank(ip),
{
    if ip.a == 192 && ip.b == 168 {
        Some(0)
    } else if ip.a == 10 {
        Some(1)
    } else if ip.a == 172 && 16 <= ip.b && ip.b <= 31 {
        Some(2)
    } else if ip.a == 169 && ip.b == 254 {
        Some(3)
    } else {
        None
    }
}

/// The rank and the address that a word writes, if that is a private one.
pub open spec fn private_in(word: Seq<char>) -> Option<(u8, Ipv4)> {
    match address_in(word) {
        Some(ip) => match private_rank(ip) {
            Some(rank) => Some((rank, ip)),
            None => None,
        },
        None => None,
    }
}

/// The best private address among the words, with its rank. Of equally good ones
/// the first counts.
pub open spec fn best_private(list: Seq<Seq<char>>) -> Option<(u8, Ipv4)>
    decreases list.len(),
{
    if list.len() == 0 {
        None
    } else {
        let best = best_private(list.drop_last());
        match (best, private_in(list.last())) {
            (b, None) => b,
            (None, found) => found,
            (Some((rank, ip)), Some((other, found))) => if rank <= other {
                Some((rank, ip))
            } else {
                Some((other, found))
            },
        }
    }
}

/// The best private address on a line of addresses.
pub fn best_private_address(text: &str) -> (r: Option<Ipv4>)
    ensures
        r == (match best_private(words(text@)) {
            Some((_, ip)) => Some(ip),
            None => None,
        }),
{
    let list = split_words(text);
    let ghost all = words(text@);
    let mut best: Option<(u8, Ipv4)> = None;
    let mut i: usize = 0;
    assert(best_private(all.take(0)) is None);
    while i < list.len()
        invariant
            i <= list.len(),
            texts(list@) == all,
            all == words(text@),
            best == best_private(all.take(i as int)),
        decreases list.len() - i,
    {
        assert(all.take(i + 1).drop_last() =~= all.take(i as int));
        assert(all.take(i + 1).last() == list@[i as int]@);
        if let Some(ip) = parse_ipv4(list[i].as_str()) {
            if let Some(rank) = private_ipv4_priority(ip) {
                let better = match best {
                    Some((current, _)) => current > rank,
                    None => true,
                };
                if better {
                    best = Some((rank, ip));
                }
            }
        }
        i = i + 1;
    }
    assert(all.take(all.len() as int) =~= all);
    match best {
        Some((_, ip)) => Some(ip),
        None => None,
    }
}

/// Whether word `i` holds the private address with this rank, and each one before it
/// ranks worse.
pub open spec fn is_first_private(list: Seq<Seq<char>>, i: int, best: (u8, Ipv4)) -> bool {
    &&& 0 <= i < list.len()
    &&& private_in(list[i]) == Some(best)
    &&& forall|j: int|
        0 <= j < i ==> (private_in(#[trigger] list[j]) matches Some((other, _)) ==> best.0 < other)
}

/// Where a private address is written, the best one is private and written among the
/// words, no other ranks before it, and it is the first of its rank.
pub proof fn law_best_private_is_best(list: Seq<Seq<char>>)
    ensures
        match best_private(list) {
            Some((rank, ip)) => {
                &&& exists|i: int| #[trigger] is_first_private(list, i, (rank, ip))
                &&& forall|i: int|
                    0 <= i < list.len() ==> (private_in(#[trigger] list[i]) matches Some((other, _))
                        ==> rank <= other)
            },
            None => forall|i: int| 0 <= i < list.len() ==> private_in(#[trigger] list[i]) is None,
        },
    decreases list.len(),
{
    if list.len() > 0 {
        let front = list.drop_last();
        law_best_private_is_best(front);
        assert forall|i: int| 0 <= i < front.len() implies front[i] == list[i] by {}
        if let Some((rank, ip)) = best_private(list) {
            if best_private(front) == Some((rank, ip)) {
                let k = choose|k: int| #[trigger] is_first_private(front, k, (rank, ip));
                assert forall|j: int| 0 <= j < k implies (private_in(
                    #[trigger] list[j],
                ) matches Some((other, _)) ==> rank < other) by {
                    assert(private_in(front[j]) == private_in(list[j]));
                }
                assert(is_first_private(list, k, (rank, ip)));
            } else {
                assert forall|j: int| 0 <= j < front.len() implies (private_in(
                    #[trigger] list[j],
                ) matches Some((other, _)) ==> rank < other) by {
                    assert(private_in(front[j]) == private_in(list[j]));
                }
                assert(is_first_private(list, list.len() - 1, (rank, ip)));
            }
            assert forall|i: int| 0 <= i < list.len() implies (private_in(
                #[trigger] list[i],
            ) matches Some((other, _)) ==> rank <= other) by {
                if i < front.len() {
                    assert(private_in(front[i]) == private_in(list[i]));
                }
            }
        } else {
            assert forall|i: int| 0 <= i < list.len() implies private_in(#[trigger] list[i]) is None by {
                if i < front.len() {
                    assert(private_in(front[i]) is None);
                }
            }
        }
    }
}

/// An address is read back from the text that it is written as.
pub proof fn law_address_reads_back(ip: Ipv4)
    ensures
        address_in(dotted(ip)) == Some(ip),
{
    reveal_strlit(".");
    let a = decimal(ip.a as nat);
    let b = decimal(ip.b as nat);
    let c = decimal(ip.c as nat);
    let d = decimal(ip.d as nat);
    lemma_octet(ip.a);
    lemma_octet(ip.b);
    lemma_octet(ip.c);
    lemma_octet(ip.d);
    let list = seq![a, b, c, d];
    assert forall|i: int| 0 <= i < list.len() implies !(#[trigger] list[i]).contains('.') by {
        assert(all_digits(list[i]));
    }
    law_joined_parts_come_apart(list, '.');
    let sep = seq!['.'];
    let l3 = list.drop_last();
    let l2 = l3.drop_last();
    let l1 = l2.drop_last();
    assert(l3 =~= seq![a, b, c]);
    assert(l2 =~= seq![a, b]);
    assert(l1 =~= seq![a]);
    assert(joined(l1, sep) =~= a);
    assert(joined(l2, sep) =~= a + sep + b);
    assert(joined(l3, sep) =~= a + sep + b + sep + c);
    assert(joined(list, sep) =~= a + sep + b + sep + c + sep + d);
    assert("."@ =~= sep);
    assert(dotted(ip) =~= joined(list, sep));
}

/// The field that a number of an address is written as is read back.
proof fn lemma_octet(n: u8)
    ensures
        octet(decimal(n as nat)) == Some(n),
        all_digits(decimal(n as nat)),
{
    law_decimal_reads_back(n as nat);
    let s = decimal(n as nat);
    if n >= 10 {
        lemma_no_zero_in_front(n as nat);
    } else {
        assert(s.len() == 1);
    }
}

proof fn lemma_no_zero_in_front(n: nat)
    requires
        n > 0,
    ensures
        decimal(n).len() > 0,
        decimal(n)[0] != '0',
    decreases n,
{
    if n >= 10 {
        lemma_no_zero_in_front(n / 10);
        assert(decimal(n) == decimal(n / 10).push(digit_char(n % 10)));
    }
}

/// The private address by which the machine names itself, from what came of asking
/// it.
pub fn detect_private_ipv4_from_hostname(output: &Heard) -> (r: Option<Ipv4>)
    ensures
        r == (match output@ {
            Reply::Bytes(bytes) => match best_private(words(utf8_lossy(bytes))) {
                Some((_, ip)) => Some(ip),
                None => None,
            },
            _ => None,
        }),
{
    match output {
        Reply::Bytes(bytes) => best_private_address(lossy_text(bytes.as_slice()).as_str()),
        _ => None,
    }
}

/// The address from which the machine reaches out, if it is private.
pub fn detect_private_ipv4_from_udp_probe(local: Option<Ipv4>) -> (r: Option<Ipv4>)
    ensures
        r == (match local {
            Some(ip) => if private_rank(ip) is Some {
                Some(ip)
            } else {
                None
            },
            None => None,
        }),
{
    match local {
        Some(ip) => if private_ipv4_priority(ip).is_some() {
            Some(ip)
        } else {
            None
        },
        None => None,
    }
}

/// The host under which the panel can be reached: by the name that the machine has
/// for itself, or else by how it reaches out, or else on the machine itself.
pub fn detect_panel_host_ip(from_hostname: Option<Ipv4>, from_probe: Option<Ipv4>) -> (r: String)
    ensures
        r@ == (match (from_hostname, from_probe) {
            (Some(ip), _) => dotted(ip),
            (None, Some(ip)) => dotted(ip),
            (None, None) => "localhost"@,
        }),
{
    match (from_hostname, from_probe) {
        (Some(ip), _) => ip_text(ip),
        (None, Some(ip)) => ip_text(ip),
        (None, None) => "localhost".to_owned(),
    }
}

/// The address of the device's monitor, from the host that is set for it: trimmed,
/// without slashes at the end, and over HTTP where it says nothing else.
pub open spec fn monitor_base(host: Seq<char>) -> Seq<char> {
    let h = strip_back(trimmed(host), '/');
    if "http://"@.is_prefix_of(h) || "https://"@.is_prefix_of(h) {
        h
    } else {
        "http://"@ + h
    }
}

/// The address of the device's monitor.
pub fn base_url(host: &str) -> (r: String)
    ensures
        r@ == monitor_base(host@),
{
    let h = trim_end_char(trim(host), '/');
    if has_prefix(h, "http://") || has_prefix(h, "https://") {
        h.to_owned()
    } else {
        cat2("http://", h)
    }
}

/// Whether a reply tells of success, by its status code.
pub open spec fn is_success(reply: Told) -> bool {
    reply matches Reply::Number(n) && 200 <= n < 300
}

/// Finding out whether the device's monitor answers: its figures, or, where it
/// answers but does not have them, its first page.
pub open spec fn probing_monitor(host: Seq<char>, r: Seq<Told>) -> TaskView {
    let base = monitor_base(host);
    if r.len() == 0 {
        Step::Ask(Effect::Get(base + "/stats"@))
    } else if is_success(r[0]) {
        Step::Answer(Reply::Flag(true))
    } else if !(r[0] is Number) {
        Step::Answer(Reply::Flag(false))
    } else if r.len() == 1 {
        Step::Ask(Effect::Get(base + "/"@))
    } else {
        Step::Answer(Reply::Flag(is_success(r[1])))
    }
}

/// Whether reply `i` tells of success.
fn told_success(replies: &Vec<Heard>, i: usize) -> (b: bool)
    requires
        i < replies@.len(),
    ensures
        b == is_success(views(replies@)[i as int]),
{
    match &replies[i] {
        Reply::Number(n) => 200 <= *n && *n < 300,
        _ => false,
    }
}

/// Finds out whether the device's monitor answers.
pub fn check_asmo_readiness(host: &str, replies: &Vec<Heard>) -> (s: Task)
    ensures
        s@ == probing_monitor(host@, views(replies@)),
{
    let ghost r = views(replies@);
    let base = base_url(host);
    if replies.len() == 0 {
        return Step::Ask(Effect::Get(cat2(base.as_str(), "/stats")));
    }
    if told_success(replies, 0) {
        return Step::Answer(Reply::Flag(true));
    }
    assert(r[0] == replies@[0]@);
    if !matches!(&replies[0], Reply::Number(_)) {
        return Step::Answer(Reply::Flag(false));
    }
    if replies.len() == 1 {
        return Step::Ask(Effect::Get(cat2(base.as_str(), "/")));
    }
    Step::Answer(Reply::Flag(told_success(replies, 1)))
}

/// The answer that tells the figures of the device, from its response read as JSON.
pub open spec fn device_told(value: Result<Seq<char>, Seq<char>>) -> MoveView {
    match value {
        Ok(data) => Step::Answer(Answer::DeviceData(data)),
        Err(e) => Step::Answer(Answer::DeviceError("Failed to parse response: "@ + e)),
    }
}

/// The answer that tells the figures of the device, from its response read as JSON.
pub fn tell_device(value: Result<String, String>) -> (s: Move)
    ensures
        s@ == device_told(text_outcome(value)),
{
    match value {
        Ok(data) => Step::Answer(Answer::DeviceData(data)),
        Err(e) => Step::Answer(
            Answer::DeviceError(cat2("Failed to parse response: ", e.as_str())),
        ),
    }
}

/// Asking the device's monitor for its figures at a host, from reply `k` on.
pub open spec fn asking_monitor(host: Seq<char>, r: Seq<Told>, k: int) -> MoveView {
    if r.len() <= k {
        Step::Ask(Effect::Get(monitor_base(host) + "/stats"@))
    } else if r[k].failure() is Some {
        Step::Answer(Answer::DeviceError("Could not reach device: "@ + r[k].failure()->0))
    } else if r.len() == k + 1 {
        Step::Ask(Effect::ReadBody)
    } else {
        match r[k + 1].text() {
            None => Step::Answer(
                Answer::DeviceError("Failed to read response: "@ + fault(r[k + 1])),
            ),
            Some(text) => device_told(json_value(text)),
        }
    }
}

/// Telling the figures of the device. Only in development mode can a request name
/// the host; the panel remembers the last one.
pub open spec fn telling_device(
    development_mode: bool,
    requested: Option<Seq<char>>,
    fixed: Seq<char>,
    r: Seq<Told>,
) -> MoveView {
    let wanted = match requested {
        Some(h) => trimmed(h),
        None => Seq::empty(),
    };
    if !development_mode {
        asking_monitor(fixed, r, 0)
    } else if wanted.len() > 0 {
        if r.len() == 0 {
            Step::Ask(Effect::SaveHost(wanted))
        } else {
            asking_monitor(wanted, r, 1)
        }
    } else if r.len() == 0 {
        Step::Ask(Effect::LoadHost)
    } else {
        asking_monitor(
            match r[0].text() {
                Some(saved) => saved,
                None => fixed,
            },
            r,
            1,
        )
    }
}

/// Asks the device's monitor for its figures at the host.
fn ask_monitor(host: &str, replies: &Vec<Heard>, k: usize) -> (s: Move)
    requires
        k <= replies@.len(),
        k < 10,
    ensures
        s@ == asking_monitor(host@, views(replies@), k as int),
{
    let n: usize = replies.len();
    if n == k {
        return Step::Ask(Effect::Get(cat2(base_url(host).as_str(), "/stats")));
    }
    if let Some(e) = why_failed(replies, k) {
        return Step::Answer(Answer::DeviceError(cat2("Could not reach device: ", e.as_str())));
    }
    if n == k + 1 {
        return Step::Ask(Effect::ReadBody);
    }
    match text_told(replies, k + 1) {
        None => Step::Answer(
            Answer::DeviceError(
                cat2("Failed to read response: ", fault_told(replies, k + 1).as_str()),
            ),
        ),
        Some(text) => tell_device(parse_json(text.as_str())),
    }
}

/// Tells the figures of the device.
pub fn api_device_stats(
    development_mode: bool,
    requested_host: Option<&str>,
    fixed_device_host: &str,
    replies: &Vec<Heard>,
) -> (s: Move)
    ensures
        s@ == telling_device(
            development_mode,
            opt_str(requested_host),
            fixed_device_host@,
            views(replies@),
        ),
{
    if !development_mode {
        return ask_monitor(fixed_device_host, replies, 0);
    }
    if let Some(requested) = requested_host {
        let wanted = trim(requested);
        if !wanted.is_empty() {
            if replies.len() == 0 {
                return Step::Ask(Effect::SaveHost(wanted.to_owned()));
            }
            return ask_monitor(wanted, replies, 1);
        }
    }
    if replies.len() == 0 {
        return Step::Ask(Effect::LoadHost);
    }
    match text_told(replies, 0) {
        Some(saved) => ask_monitor(saved.as_str(), replies, 1),
        None => ask_monitor(fixed_device_host, replies, 1),
    }
}

/// In production a request cannot choose the device: whatever it asks for, the
/// panel goes to the fixed host and remembers nothing.
pub proof fn law_production_keeps_its_device(
    requested: Option<Seq<char>>,
    other: Option<Seq<char>>,
    fixed: Seq<char>,
    r: Seq<Told>,
)
    ensures
        telling_device(false, requested, fixed, r) == telling_device(false, other, fixed, r),
        telling_device(false, requested, fixed, r) matches Step::Ask(Effect::Get(url)) ==> url
            == monitor_base(fixed) + "/stats"@,
        !(telling_device(false, requested, fixed, r) matches Step::Ask(Effect::SaveHost(_))),
{
}

/// The lines that greet whoever starts the panel.
pub open spec fn banner(development_mode: bool, panel_url: Seq<char>, asmo_ready: bool) -> Seq<char> {
    let mode = if development_mode {
        "Development"@
    } else {
        "Production"@
    };
    let status = if asmo_ready {
        "Works"@
    } else {
        "Setup required"@
    };
    "Minara Panel\nMode        : "@ + mode + "\nPanel URL   : "@ + panel_url
        + ("\nAsmo Status : "@ + status
        + "\nSetup Guide : https://github.com/theonuverse/asmo\n"@)
}

/// The lines that greet whoever starts the panel.
pub fn startup_banner(development_mode: bool, panel_url: &str, asmo_ready: bool) -> (r: String)
    ensures
        r@ == banner(development_mode, panel_url@, asmo_ready),
{
    let mode = if development_mode {
        "Development"
    } else {
        "Production"
    };
    let status = if asmo_ready {
        "Works"
    } else {
        "Setup required"
    };
    let rest = cat3(
        "\nAsmo Status : ",
        status,
        "\nSetup Guide : https://github.com/theonuverse/asmo\n",
    );
    cat5("Minara Panel\nMode        : ", mode, "\nPanel URL   : ", panel_url, rest.as_str())
}

/// The address of the panel at a host.
pub fn panel_url(host: &str) -> (r: String)
    ensures
        r@ == "http://"@ + host@ + ":7777"@,
{
    cat3("http://", host, ":7777")
}

/// All that the panel keeps stands below the user's own data directory, or below the
/// working directory where there is no home.
pub proof fn law_data_stands_below_home(home: Seq<char>)
    ensures
        data_place(Some(home)) == joined_path(
            joined_path(joined_path(home, ".local"@), "share"@),
            "minara"@,
        ),
        data_place(None) == ".minara"@,
{
}

/// Preparing the directories goes on as each reply asks for: first that of the instances
/// and then that of the backups is made, and what fails is told.
pub proof fn law_preparing_goes_on(home: Option<Seq<char>>, r: Seq<Told>, x: Told)
    ensures
        ({
            let instances = joined_path(data_place(home), "instances"@);
            let backups = joined_path(data_place(home), "backups"@);
            let next = preparing(home, r.push(x));
            &&& preparing(home, Seq::empty()) == TaskView::Ask(Effect::CreateDirAll(instances))
            &&& match preparing(home, r) {
                Step::Ask(Effect::CreateDirAll(p)) => if r.len() == 0 {
                    next == match x {
                        Reply::Failed(e) => TaskView::Answer(
                            Told::Failed(
                                "Failed to create instances directory "@ + instances + ": "@ + e,
                            ),
                        ),
                        _ => TaskView::Ask(Effect::CreateDirAll(backups)),
                    }
                } else {
                    r.len() == 1 && p == backups && next == match x {
                        Reply::Failed(e) => TaskView::Answer(
                            Told::Failed(
                                "Failed to create backups directory "@ + backups + ": "@ + e,
                            ),
                        ),
                        _ => TaskView::Answer(Told::Done),
                    }
                },
                Step::Ask(_) => false,
                Step::Answer(a) => next == TaskView::Answer(a),
            }
        }),
{
    let q = r.push(x);
    assert forall|j: int| 0 <= j < r.len() implies q[j] == r[j] by {}
    assert(q[r.len() as int] == x);
}

/// An address is four numbers with points between them, each written without a zero in
/// front and none above two hundred and fifty-five.
pub proof fn law_what_is_an_address(
    text: Seq<char>,
    a: Seq<char>,
    b: Seq<char>,
    c: Seq<char>,
    d: Seq<char>,
)
    ensures
        address_in(text) matches Some(ip) ==> {
            let p = parts(text, Cut::At('.'));
            &&& p.len() == 4
            &&& ip.a == value(p[0])
            &&& ip.b == value(p[1])
            &&& ip.c == value(p[2])
            &&& ip.d == value(p[3])
        },
        address_in(text) is Some <==> {
            let p = parts(text, Cut::At('.'));
            &&& p.len() == 4
            &&& forall|i: int|
                0 <= i < 4 ==> {
                    &&& (#[trigger] p[i]).len() > 0
                    &&& all_digits(p[i])
                    &&& p[i].len() == 1 || p[i][0] != '0'
                    &&& value(p[i]) <= 255
                }
        },
        parts(text, Cut::At('.')) == seq![a, b, c, d] ==> (address_in(text) is Some <==> octet(a)
            is Some && octet(b) is Some && octet(c) is Some && octet(d) is Some),
{
    let p = parts(text, Cut::At('.'));
    if p.len() == 4 {
        assert(octet(p[0]) is Some <==> p[0].len() > 0 && all_digits(p[0]) && (p[0].len() == 1
            || p[0][0] != '0') && value(p[0]) <= 255);
        assert(octet(p[1]) is Some <==> p[1].len() > 0 && all_digits(p[1]) && (p[1].len() == 1
            || p[1][0] != '0') && value(p[1]) <= 255);
        assert(octet(p[2]) is Some <==> p[2].len() > 0 && all_digits(p[2]) && (p[2].len() == 1
            || p[2][0] != '0') && value(p[2]) <= 255);
        assert(octet(p[3]) is Some <==> p[3].len() > 0 && all_digits(p[3]) && (p[3].len() == 1
            || p[3][0] != '0') && value(p[3]) <= 255);
    }
}

/// The private networks are ranked: those of the home first, then those of ten, of
/// a hundred and seventy-two, and of the link alone; no other address is private.
pub proof fn law_private_networks(ip: Ipv4)
    ensures
        private_rank(ip) == Some(0u8) <==> ip.a == 192 && ip.b == 168,
        private_rank(ip) == Some(1u8) <==> ip.a == 10,
        private_rank(ip) == Some(2u8) <==> ip.a == 172 && 16 <= ip.b < 32,
        private_rank(ip) == Some(3u8) <==> ip.a == 169 && ip.b == 254,
        private_rank(ip) matches Some(rank) ==> rank < 4,
{
}

/// A word is a private address where it is an address and that is private; it is told
/// with its rank.
pub proof fn law_private_word(word: Seq<char>)
    ensures
        match private_in(word) {
            Some((rank, ip)) => address_in(word) == Some(ip) && private_rank(ip) == Some(rank),
            None => address_in(word) is None || private_rank(address_in(word)->0) is None,
        },
{
}

/// The address of the monitor is the host without blanks around it and without slashes
/// behind it, below `http` where it does not say otherwise.
pub proof fn law_address_of_the_monitor(host: Seq<char>, h: Seq<char>)
    requires
        h == strip_back(trimmed(host), '/'),
    ensures
        ({
            let told = "http://"@.is_prefix_of(h) || "https://"@.is_prefix_of(h);
            monitor_base(host) == (if told {
                h
            } else {
                "http://"@ + h
            })
        }),
{
}

/// The monitor is ready where it answers the first request with success, or any other way
/// and then the second with success.
pub proof fn law_readiness(host: Seq<char>, x: Told, y: Told)
    ensures
        ({
            let base = monitor_base(host);
            let flag = |b: bool| TaskView::Answer(Told::Flag(b));
            &&& probing_monitor(host, Seq::empty()) == TaskView::Ask(Effect::Get(base + "/stats"@))
            &&& match x {
                Reply::Number(n) => if 200 <= n < 300 {
                    probing_monitor(host, seq![x]) == flag(true)
                } else {
                    &&& probing_monitor(host, seq![x]) == TaskView::Ask(Effect::Get(base + "/"@))
                    &&& probing_monitor(host, seq![x, y]) == flag(
                        match y {
                            Reply::Number(k) => 200 <= k < 300,
                            _ => false,
                        },
                    )
                },
                _ => probing_monitor(host, seq![x]) == flag(false),
            }
        }),
{
}

/// Telling of the device goes on as each reply asks for. In development it is the wanted
/// host, which is remembered, else the one that is remembered, else the fixed one;
/// otherwise it is always the fixed one. Its answer is passed on as it reads as JSON.
pub proof fn law_telling_of_the_device_goes_on(
    development_mode: bool,
    requested: Option<Seq<char>>,
    fixed: Seq<char>,
    r: Seq<Told>,
    x: Told,
)
    ensures
        ({
            let wanted = match requested {
                Some(h) if trimmed(h).len() > 0 => Some(trimmed(h)),
                _ => None,
            };
            let get = |host: Seq<char>| MoveView::Ask(Effect::Get(monitor_base(host) + "/stats"@));
            let error = |e: Seq<char>| MoveView::Answer(Answer::DeviceError(e));
            let next = telling_device(development_mode, requested, fixed, r.push(x));
            &&& telling_device(development_mode, requested, fixed, Seq::empty()) == (
            if !development_mode {
                get(fixed)
            } else {
                match wanted {
                    Some(h) => MoveView::Ask(Effect::SaveHost(h)),
                    None => MoveView::Ask(Effect::LoadHost),
                }
            })
            &&& match telling_device(development_mode, requested, fixed, r) {
                Step::Ask(Effect::SaveHost(h)) => next == get(h),
                Step::Ask(Effect::LoadHost) => next == get(
                    match x {
                        Reply::Text(saved) => saved,
                        _ => fixed,
                    },
                ),
                Step::Ask(Effect::Get(_)) => next == match x {
                    Reply::Failed(e) => error("Could not reach device: "@ + e),
                    _ => MoveView::Ask(Effect::ReadBody),
                },
                Step::Ask(Effect::ReadBody) => match x {
                    Reply::Text(text) => next == match json_value(text) {
                        Ok(data) => MoveView::Answer(Answer::DeviceData(data)),
                        Err(e) => error("Failed to parse response: "@ + e),
                    },
                    Reply::Failed(e) => next == error("Failed to read response: "@ + e),
                    _ => next matches Step::Answer(Answer::DeviceError(_)),
                },
                Step::Ask(_) => false,
                Step::Answer(a) => next == MoveView::Answer(a),
            }
        }),
{
    let q = r.push(x);
    assert forall|j: int| 0 <= j < r.len() implies q[j] == r[j] by {}
    assert(q[r.len() as int] == x);
}

/// The banner names the mode, the panel's address and whether the monitor works.
pub proof fn law_banner(panel_url: Seq<char>)
    ensures
        ({
            let told = |mode: Seq<char>, status: Seq<char>|
                "Minara Panel\nMode        : "@ + mode + "\nPanel URL   : "@ + panel_url
                    + "\nAsmo Status : "@ + status
                    + "\nSetup Guide : https://github.com/theonuverse/asmo\n"@;
            &&& banner(true, panel_url, true) == told("Development"@, "Works"@)
            &&& banner(true, panel_url, false) == told("Development"@, "Setup required"@)
            &&& banner(false, panel_url, true) == told("Production"@, "Works"@)
            &&& banner(false, panel_url, false) == told("Production"@, "Setup required"@)
        }),
{
    let told = |mode: Seq<char>, status: Seq<char>|
        "Minara Panel\nMode        : "@ + mode + "\nPanel URL   : "@ + panel_url
            + "\nAsmo Status : "@ + status
            + "\nSetup Guide : https://github.com/theonuverse/asmo\n"@;
    assert(banner(true, panel_url, true) =~= told("Development"@, "Works"@));
    assert(banner(true, panel_url, false) =~= told("Development"@, "Setup required"@));
    assert(banner(false, panel_url, true) =~= told("Production"@, "Works"@));
    assert(banner(false, panel_url, false) =~= told("Production"@, "Setup required"@));
}

} // verus!
