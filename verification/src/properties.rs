//! The server's settings file: reading it, and writing changed settings into it
//! without touching the rest.
use vstd::prelude::*;
use vstd::string::*;

use crate::text::{
    cat2, cat3, cut_once, first_at, has_char, is_white, join, joined, law_cut_at_the_first,
    law_joined_parts_come_apart, law_replaced, lemma_first_at, lemma_parts_hold_no_cut,
    lemma_parts_nonempty, lemma_parts_push, lemma_parts_single, lemma_trim_back, lemma_trim_front,
    lemma_trimmed, lemma_trimmed_already, lines, opt_text, parts, replace_char, replaced, same_text,
    split_lines, split_once, strip_cr, texts, trim, trim_back, trim_front, trimmed, Cut,
};

verus! {

/// One setting of the server.
#[derive(Debug, PartialEq, Eq)]
pub struct ServerProperty {
    pub key: String,
    pub value: String,
}

/// One setting that a request wants to save.
pub struct SaveSettingItem {
    pub key: String,
    pub value: String,
}

/// A setting as a pair of key and value.
pub open spec fn property_pairs(list: Seq<ServerProperty>) -> Seq<(Seq<char>, Seq<char>)> {
    list.map_values(|p: ServerProperty| (p.key@, p.value@))
}

/// The settings of a request as pairs of key and value.
pub open spec fn item_pairs(list: Seq<SaveSettingItem>) -> Seq<(Seq<char>, Seq<char>)> {
    list.map_values(|p: SaveSettingItem| (p.key@, p.value@))
}

/// Pairs of strings as pairs of texts.
pub open spec fn pairs(list: Seq<(String, String)>) -> Seq<(Seq<char>, Seq<char>)> {
    list.map_values(|p: (String, String)| (p.0@, p.1@))
}

/// The setting that a line holds: what stands before and after its first `=`,
/// trimmed. Empty lines, comments and lines without `=` hold none.
pub open spec fn line_setting(line: Seq<char>) -> Option<(Seq<char>, Seq<char>)> {
    let t = trimmed(line);
    if t.len() == 0 || t[0] == '#' {
        None
    } else {
        match cut_once(t, '=') {
            Some((k, v)) => Some((trimmed(k), trimmed(v))),
            None => None,
        }
    }
}

/// The settings that the lines hold, in order.
pub open spec fn settings_of(list: Seq<Seq<char>>) -> Seq<(Seq<char>, Seq<char>)>
    decreases list.len(),
{
    if list.len() == 0 {
        Seq::empty()
    } else {
        let before = settings_of(list.drop_last());
        match line_setting(list.last()) {
            Some(p) => before.push(p),
            None => before,
        }
    }
}

/// The settings that a file holds, in order.
pub open spec fn settings_in(content: Seq<char>) -> Seq<(Seq<char>, Seq<char>)> {
    settings_of(lines(content))
}

/// The key and the value of the setting that the line holds, if it holds one.
fn read_line(line: &str) -> (r: Option<(String, String)>)
    ensures
        match r {
            Some((k, v)) => line_setting(line@) == Some((k@, v@)),
            None => line_setting(line@) is None,
        },
{
    let t = trim(line);
    if t.is_empty() || t.get_char(0) == '#' {
        return None;
    }
    match split_once(t, '=') {
        Some((k, v)) => Some((trim(k).to_owned(), trim(v).to_owned())),
        None => None,
    }
}

/// The settings that the settings file holds, in order; none where there is no
/// file to read.
pub fn parse_server_properties(content: Option<&str>) -> (r: Vec<ServerProperty>)
    ensures
        property_pairs(r@) == (match content {
            Some(text) => settings_in(text@),
            None => Seq::empty(),
        }),
{
    let mut out: Vec<ServerProperty> = Vec::new();
    let text = match content {
        Some(text) => text,
        None => {
            assert(property_pairs(out@) =~= Seq::empty());
            return out;
        },
    };
    let all = split_lines(text);
    let ghost l = lines(text@);
    let mut i: usize = 0;
    assert(property_pairs(out@) =~= settings_of(l.take(0)));
    while i < all.len()
        invariant
            i <= all.len(),
            texts(all@) == l,
            property_pairs(out@) == settings_of(l.take(i as int)),
        decreases all.len() - i,
    {
        assert(l.take(i + 1).drop_last() =~= l.take(i as int));
        assert(l.take(i + 1).last() == all@[i as int]@);
        if let Some((key, value)) = read_line(all[i].as_str()) {
            let ghost before = out@;
            out.push(ServerProperty { key, value });
            assert(property_pairs(out@) =~= property_pairs(before).push((key@, value@)));
        }
        i = i + 1;
    }
    assert(l.take(l.len() as int) =~= l);
    out
}

/// The key of the setting that a line holds, unless it is empty.
pub open spec fn line_key(line: Seq<char>) -> Option<Seq<char>> {
    match line_setting(line) {
        Some((k, _)) => if k.len() == 0 {
            None
        } else {
            Some(k)
        },
        None => None,
    }
}

/// The key of the setting that the line holds, unless it is empty.
pub fn parse_property_key_from_line(line: &str) -> (r: Option<String>)
    ensures
        opt_text(r) == line_key(line@),
{
    match read_line(line) {
        Some((key, _)) => if key.as_str().is_empty() {
            None
        } else {
            Some(key)
        },
        None => None,
    }
}

/// The value that the updates give a key; the last one counts.
pub open spec fn new_value(updates: Seq<(Seq<char>, Seq<char>)>, key: Seq<char>) -> Option<Seq<char>>
    decreases updates.len(),
{
    if updates.len() == 0 {
        None
    } else if updates.last().0 == key {
        Some(updates.last().1)
    } else {
        new_value(updates.drop_last(), key)
    }
}

/// A setting as a line.
pub open spec fn setting_line(p: (Seq<char>, Seq<char>)) -> Seq<char> {
    p.0 + "="@ + p.1
}

/// The line with its setting updated, where the updates give it a new value.
pub open spec fn updated_line(line: Seq<char>, updates: Seq<(Seq<char>, Seq<char>)>) -> Seq<char> {
    match line_key(line) {
        Some(k) => match new_value(updates, k) {
            Some(v) => setting_line((k, v)),
            None => line,
        },
        None => line,
    }
}

/// Whether a line holds a setting with the key.
pub open spec fn has_key(list: Seq<Seq<char>>, key: Seq<char>) -> bool {
    exists|i: int| 0 <= i < list.len() && line_key(#[trigger] list[i]) == Some(key)
}

/// The updates whose keys no line holds, as lines.
pub open spec fn added_lines(
    list: Seq<Seq<char>>,
    updates: Seq<(Seq<char>, Seq<char>)>,
) -> Seq<Seq<char>>
    decreases updates.len(),
{
    if updates.len() == 0 {
        Seq::empty()
    } else if has_key(list, updates.last().0) {
        added_lines(list, updates.drop_last())
    } else {
        added_lines(list, updates.drop_last()).push(setting_line(updates.last()))
    }
}

/// The lines of the file after the update: each line in its place, updated where
/// there is a new value; then the settings that are new, set off by one blank
/// line.
pub open spec fn merged_lines(
    list: Seq<Seq<char>>,
    updates: Seq<(Seq<char>, Seq<char>)>,
) -> Seq<Seq<char>> {
    let kept = list.map_values(|l: Seq<char>| updated_line(l, updates));
    let added = added_lines(list, updates);
    if added.len() == 0 {
        kept
    } else if kept.len() > 0 && trimmed(kept.last()).len() > 0 {
        kept.push(Seq::empty()) + added
    } else {
        kept + added
    }
}

/// The lines as a file: line feeds between them, and one at the end of a text
/// that is not empty.
pub open spec fn file_text(list: Seq<Seq<char>>) -> Seq<char> {
    let t = joined(list, "\n"@);
    if t.len() == 0 {
        t
    } else {
        t.push('\n')
    }
}

/// The content of the settings file after the update.
pub open spec fn merged(content: Seq<char>, updates: Seq<(Seq<char>, Seq<char>)>) -> Seq<char> {
    file_text(merged_lines(lines(content), updates))
}

/// The value that the updates give the key; the last one counts.
fn find_value(updates: &Vec<(String, String)>, key: &str) -> (r: Option<usize>)
    ensures
        match r {
            Some(i) => i < updates@.len() && new_value(pairs(updates@), key@) == Some(
                updates@[i as int].1@,
            ),
            None => new_value(pairs(updates@), key@) is None,
        },
{
    let ghost u = pairs(updates@);
    let mut n: usize = updates.len();
    assert(u.take(n as int) =~= u);
    while n > 0
        invariant
            n <= updates.len(),
            u == pairs(updates@),
            new_value(u.take(n as int), key@) == new_value(u, key@),
        decreases n,
    {
        assert(u.take(n as int).last() == (updates@[n - 1].0@, updates@[n - 1].1@));
        assert(u.take(n as int).drop_last() =~= u.take(n - 1));
        if same_text(updates[n - 1].0.as_str(), key) {
            return Some(n - 1);
        }
        n = n - 1;
    }
    None
}

/// Whether one of the lines holds a setting with the key.
fn some_line_has(list: &Vec<String>, key: &str) -> (r: bool)
    ensures
        r == has_key(texts(list@), key@),
{
    let mut i: usize = 0;
    while i < list.len()
        invariant
            i <= list.len(),
            forall|j: int| 0 <= j < i ==> line_key(#[trigger] texts(list@)[j]) != Some(key@),
        decreases list.len() - i,
    {
        let k = parse_property_key_from_line(list[i].as_str());
        assert(texts(list@)[i as int] == list@[i as int]@);
        if let Some(found) = k {
            if same_text(found.as_str(), key) {
                return true;
            }
        }
        i = i + 1;
    }
    false
}

/// The lines of the file, each updated where there is a new value.
fn update_lines(list: &Vec<String>, updates: &Vec<(String, String)>) -> (r: Vec<String>)
    ensures
        texts(r@) == texts(list@).map_values(|l: Seq<char>| updated_line(l, pairs(updates@))),
{
    let mut out: Vec<String> = Vec::new();
    let ghost want = texts(list@).map_values(|l: Seq<char>| updated_line(l, pairs(updates@)));
    let mut i: usize = 0;
    while i < list.len()
        invariant
            i <= list.len(),
            want == texts(list@).map_values(|l: Seq<char>| updated_line(l, pairs(updates@))),
            texts(out@) =~= want.take(i as int),
        decreases list.len() - i,
    {
        let key = parse_property_key_from_line(list[i].as_str());
        let next: String = match key {
            Some(k) => match find_value(updates, k.as_str()) {
                Some(j) => cat3(k.as_str(), "=", updates[j].1.as_str()),
                None => list[i].clone(),
            },
            None => list[i].clone(),
        };
        assert(want[i as int] == updated_line(list@[i as int]@, pairs(updates@)));
        assert(next@ == want[i as int]);
        let ghost before = out@;
        out.push(next);
        assert(texts(out@) =~= texts(before).push(next@));
        i = i + 1;
    }
    assert(want.take(want.len() as int) =~= want);
    out
}

/// The updates whose keys no line holds, as lines.
fn new_lines(list: &Vec<String>, updates: &Vec<(String, String)>) -> (r: Vec<String>)
    ensures
        texts(r@) == added_lines(texts(list@), pairs(updates@)),
{
    let mut out: Vec<String> = Vec::new();
    let ghost u = pairs(updates@);
    let mut i: usize = 0;
    assert(texts(out@) =~= added_lines(texts(list@), u.take(0)));
    while i < updates.len()
        invariant
            i <= updates.len(),
            u == pairs(updates@),
            texts(out@) == added_lines(texts(list@), u.take(i as int)),
        decreases updates.len() - i,
    {
        assert(u.take(i + 1).drop_last() =~= u.take(i as int));
        assert(u.take(i + 1).last() == (updates@[i as int].0@, updates@[i as int].1@));
        if !some_line_has(list, updates[i].0.as_str()) {
            let next = cat3(updates[i].0.as_str(), "=", updates[i].1.as_str());
            let ghost before = out@;
            out.push(next);
            assert(texts(out@) =~= texts(before).push(next@));
        }
        i = i + 1;
    }
    assert(u.take(u.len() as int) =~= u);
    out
}

/// The content of the settings file after the update.
pub fn merge_server_properties_content(
    existing_content: &str,
    updates_in_order: &Vec<(String, String)>,
) -> (r: String)
    ensures
        r@ == merged(existing_content@, pairs(updates_in_order@)),
{
    let list = split_lines(existing_content);
    let mut out = update_lines(&list, updates_in_order);
    let mut added = new_lines(&list, updates_in_order);
    let ghost kept = texts(out@);
    let ghost fresh = texts(added@);
    assert(fresh.len() == added@.len());
    assert(kept.len() == out@.len());
    if added.len() > 0 {
        let n: usize = out.len();
        if n > 0 {
            assert(kept.last() == out@[n - 1]@);
            if !trim(out[n - 1].as_str()).is_empty() {
                let ghost before = out@;
                let blank = String::new();
                assert(blank@ =~= Seq::<char>::empty());
                out.push(blank);
                assert(texts(out@) =~= texts(before).push(Seq::empty()));
            }
        }
        let ghost before = out@;
        let ghost more = added@;
        out.append(&mut added);
        assert(texts(out@) =~= texts(before) + texts(more));
    }
    assert(texts(out@) == merged_lines(lines(existing_content@), pairs(updates_in_order@)));
    let mut text = join(&out, "\n");
    if !text.as_str().is_empty() {
        text.push('\n');
    }
    text
}

/// A value as it is saved: in one line, and trimmed.
pub open spec fn saved_value(value: Seq<char>) -> Seq<char> {
    trimmed(replaced(replaced(value, '\n', ' '), '\r', ' '))
}

/// The settings of a request that are saved: those with a key, each key once,
/// the first time it comes. A key that would not stay in one piece refuses the
/// request.
pub open spec fn accepted_settings(items: Seq<(Seq<char>, Seq<char>)>) -> Result<
    Seq<(Seq<char>, Seq<char>)>,
    Seq<char>,
>
    decreases items.len(),
{
    if items.len() == 0 {
        Ok(Seq::empty())
    } else {
        match accepted_settings(items.drop_last()) {
            Err(e) => Err(e),
            Ok(list) => {
                let key = trimmed(items.last().0);
                if key.len() == 0 {
                    Ok(list)
                } else if key.contains('=') || key.contains('\n') || key.contains('\r') {
                    Err("Invalid setting key: "@ + key)
                } else if new_value(list, key) is Some {
                    Ok(list)
                } else {
                    Ok(list.push((key, saved_value(items.last().1))))
                }
            },
        }
    }
}

/// What a request to save settings comes to before the file is touched.
pub open spec fn settings_request(items: Seq<(Seq<char>, Seq<char>)>) -> Result<
    Seq<(Seq<char>, Seq<char>)>,
    Seq<char>,
> {
    match accepted_settings(items) {
        Err(e) => Err(e),
        Ok(list) => if list.len() == 0 {
            Err("Add at least one valid setting before saving"@)
        } else {
            Ok(list)
        },
    }
}

/// The outcome of a settings request by its texts.
pub open spec fn pairs_outcome(r: Result<Vec<(String, String)>, String>) -> Result<
    Seq<(Seq<char>, Seq<char>)>,
    Seq<char>,
> {
    match r {
        Ok(v) => Ok(pairs(v@)),
        Err(e) => Err(e@),
    }
}

/// A refusal of the settings so far is a refusal of them all.
proof fn lemma_refusal_stands(items: Seq<(Seq<char>, Seq<char>)>, i: int)
    requires
        0 <= i <= items.len(),
        accepted_settings(items.take(i)) is Err,
    ensures
        accepted_settings(items) == accepted_settings(items.take(i)),
    decreases items.len(),
{
    if i == items.len() {
        assert(items.take(i) =~= items);
    } else {
        let front = items.drop_last();
        assert(front.take(i) =~= items.take(i));
        lemma_refusal_stands(front, i);
    }
}

/// The settings of the request that are saved, or why the request is refused.
pub fn accept_settings(items: &Vec<SaveSettingItem>) -> (r: Result<Vec<(String, String)>, String>)
    ensures
        pairs_outcome(r) == settings_request(item_pairs(items@)),
{
    let mut list: Vec<(String, String)> = Vec::new();
    let ghost all = item_pairs(items@);
    let mut i: usize = 0;
    assert(pairs(list@) =~= Seq::empty());
    while i < items.len()
        invariant
            i <= items.len(),
            all == item_pairs(items@),
            accepted_settings(all.take(i as int)) == Ok::<Seq<(Seq<char>, Seq<char>)>, Seq<char>>(
                pairs(list@),
            ),
        decreases items.len() - i,
    {
        assert(all.take(i + 1).drop_last() =~= all.take(i as int));
        assert(all.take(i + 1).last() == (items@[i as int].key@, items@[i as int].value@));
        let key = trim(items[i].key.as_str());
        if !key.is_empty() {
            if has_char(key, '=') || has_char(key, '\n') || has_char(key, '\r') {
                proof {
                    lemma_refusal_stands(all, i + 1);
                }
                return Err(cat2("Invalid setting key: ", key));
            }
            if find_value(&list, key).is_none() {
                let one = replace_char(items[i].value.as_str(), '\n', ' ');
                let two = replace_char(one.as_str(), '\r', ' ');
                let value = trim(two.as_str()).to_owned();
                let ghost before = list@;
                list.push((key.to_owned(), value));
                assert(pairs(list@) =~= pairs(before).push((key@, value@)));
            }
        }
        i = i + 1;
    }
    assert(all.take(all.len() as int) =~= all);
    if list.len() == 0 {
        Err("Add at least one valid setting before saving".to_owned())
    } else {
        Ok(list)
    }
}

/// A setting that can be written as one line: a trimmed key that is not empty and
/// holds no `=`, and a trimmed value, both in one line.
pub open spec fn is_writable(p: (Seq<char>, Seq<char>)) -> bool {
    &&& p.0.len() > 0
    &&& trimmed(p.0) == p.0
    &&& trimmed(p.1) == p.1
    &&& !p.0.contains('=')
    &&& !p.0.contains('\n')
    &&& !p.1.contains('\n')
}

/// A setting whose line is read as a comment.
pub open spec fn is_comment(p: (Seq<char>, Seq<char>)) -> bool {
    p.0.len() > 0 && p.0[0] == '#'
}

/// Every setting that a request saves has a key of its own and can be written as
/// one line.
pub proof fn law_accepted_settings_are_writable(items: Seq<(Seq<char>, Seq<char>)>)
    ensures
        accepted_settings(items) matches Ok(list) ==> {
            &&& forall|i: int| 0 <= i < list.len() ==> is_writable(#[trigger] list[i])
            &&& forall|i: int, j: int|
                0 <= i < j < list.len() ==> (#[trigger] list[i]).0 != (#[trigger] list[j]).0
        },
    decreases items.len(),
{
    if items.len() > 0 {
        let front = items.drop_last();
        law_accepted_settings_are_writable(front);
        if let Ok(list) = accepted_settings(items) {
            let before = accepted_settings(front)->Ok_0;
            let key = trimmed(items.last().0);
            if list != before {
                let value = saved_value(items.last().1);
                let one = replaced(items.last().1, '\n', ' ');
                let two = replaced(one, '\r', ' ');
                lemma_trimmed(items.last().0);
                lemma_trimmed(two);
                lemma_trimmed_already(key);
                lemma_trimmed_already(value);
                assert(!two.contains('\n')) by {
                    if two.contains('\n') {
                        let k = choose|k: int| 0 <= k < two.len() && two[k] == '\n';
                        assert(one[k] != '\n');
                    }
                }
                assert(!value.contains('\n'));
                assert forall|i: int| 0 <= i < list.len() implies is_writable(
                    #[trigger] list[i],
                ) by {
                    if i < before.len() {
                        assert(list[i] == before[i]);
                    }
                }
                assert forall|i: int, j: int| 0 <= i < j < list.len() implies (#[trigger] list[i]).0
                    != (#[trigger] list[j]).0 by {
                    assert(list[i] == before[i]);
                    if j < before.len() {
                        assert(list[j] == before[j]);
                    } else {
                        lemma_no_value(before, key, i);
                    }
                }
            }
        }
    }
}

/// A key without a value is the key of no update.
proof fn lemma_no_value(updates: Seq<(Seq<char>, Seq<char>)>, key: Seq<char>, i: int)
    requires
        new_value(updates, key) is None,
        0 <= i < updates.len(),
    ensures
        updates[i].0 != key,
    decreases updates.len(),
{
    if i < updates.len() - 1 {
        lemma_no_value(updates.drop_last(), key, i);
        assert(updates.drop_last()[i] == updates[i]);
    }
}

/// Where keys come once, an update gives its key its value.
proof fn lemma_own_value(updates: Seq<(Seq<char>, Seq<char>)>, i: int)
    requires
        forall|a: int, b: int|
            0 <= a < b < updates.len() ==> (#[trigger] updates[a]).0 != (#[trigger] updates[b]).0,
        0 <= i < updates.len(),
    ensures
        new_value(updates, updates[i].0) == Some(updates[i].1),
    decreases updates.len(),
{
    if i < updates.len() - 1 {
        assert(updates[i].0 != updates[updates.len() - 1].0);
        let front = updates.drop_last();
        assert forall|a: int, b: int| 0 <= a < b < front.len() implies (#[trigger] front[a]).0 != (
        #[trigger] front[b]).0 by {
            assert(updates[a].0 != updates[b].0);
        }
        lemma_own_value(front, i);
        assert(front[i] == updates[i]);
    }
}

/// A new value comes from one of the updates.
proof fn lemma_value_source(updates: Seq<(Seq<char>, Seq<char>)>, key: Seq<char>) -> (i: int)
    requires
        new_value(updates, key) is Some,
    ensures
        0 <= i < updates.len(),
        updates[i].0 == key,
        new_value(updates, key) == Some(updates[i].1),
    decreases updates.len(),
{
    if updates.last().0 == key {
        updates.len() - 1
    } else {
        let i = lemma_value_source(updates.drop_last(), key);
        assert(updates.drop_last()[i] == updates[i]);
        i
    }
}

/// White space in front of a line leaves with the white space in front of its key.
proof fn lemma_front_of_line(k: Seq<char>, v: Seq<char>)
    ensures
        trim_front(k + seq!['='] + v) == trim_front(k) + seq!['='] + v,
    decreases k.len(),
{
    let line = k + seq!['='] + v;
    if k.len() > 0 && is_white(k[0]) {
        lemma_front_of_line(k.drop_first(), v);
        assert(line.drop_first() =~= k.drop_first() + seq!['='] + v);
    } else {
        assert(!is_white(line[0]));
    }
}

/// White space at the back of a line leaves with the white space at the back of its
/// value.
proof fn lemma_back_of_line(k: Seq<char>, v: Seq<char>)
    ensures
        trim_back(k + seq!['='] + v) == k + seq!['='] + trim_back(v),
    decreases v.len(),
{
    let line = k + seq!['='] + v;
    if v.len() > 0 && is_white(v.last()) {
        lemma_back_of_line(k, v.drop_last());
        assert(line.drop_last() =~= k + seq!['='] + v.drop_last());
    } else {
        assert(!is_white(line.last()));
    }
}

/// Trimming the back first makes no difference.
proof fn lemma_back_then_both(s: Seq<char>)
    ensures
        trimmed(trim_back(s)) == trimmed(s),
    decreases s.len(),
{
    if s.len() > 0 && is_white(s.last()) {
        lemma_back_then_both(s.drop_last());
        lemma_trimmed_push(s.drop_last(), s.last());
        assert(s.drop_last().push(s.last()) =~= s);
    }
}

/// A setting written as a line is read back from that line, trimmed, unless it reads
/// as a comment. The one exception is a key that holds `=`.
pub proof fn law_setting_line_reads_back(p: (Seq<char>, Seq<char>))
    requires
        !p.0.contains('='),
    ensures
        line_setting(setting_line(p)) == (if is_comment((trimmed(p.0), p.1)) {
            None
        } else {
            Some((trimmed(p.0), trimmed(p.1)))
        }),
{
    reveal_strlit("=");
    assert("="@ =~= seq!['=']);
    let (k, v) = p;
    let f = trim_front(k);
    let b = trim_back(v);
    let line = k + seq!['='] + v;
    let t = f + seq!['='] + b;
    assert(setting_line(p) =~= line);
    lemma_front_of_line(k, v);
    lemma_back_of_line(f, v);
    assert(trimmed(line) == t);
    lemma_trim_front(k);
    lemma_trim_back(f);
    assert(trim_front(f) == f);
    if f.len() > 0 {
        assert(trim_back(f).len() > 0) by {
            if trim_back(f).len() == 0 {
                lemma_all_white(f);
                assert(is_white(f[0]));
            }
        }
        assert(trimmed(k)[0] == f[0]);
        assert(t[0] == f[0]);
    } else {
        assert(t[0] == '=');
    }
    assert forall|j: int| 0 <= j < f.len() implies t[j] != '=' by {
        assert(t[j] == f[j]);
        assert(f[j] == k[k.len() - f.len() + j]);
        assert(k.contains(k[k.len() - f.len() + j]));
    }
    lemma_first_at(t, '=', f.len() as int);
    assert(t.take(f.len() as int) =~= f);
    assert(t.skip(f.len() as int + 1) =~= b);
    lemma_back_then_both(v);
}

/// A text of which nothing is left at the back is white throughout.
proof fn lemma_all_white(s: Seq<char>)
    requires
        trim_back(s).len() == 0,
    ensures
        forall|i: int| 0 <= i < s.len() ==> is_white(#[trigger] s[i]),
    decreases s.len(),
{
    if s.len() > 0 {
        let front = s.drop_last();
        lemma_all_white(front);
        assert forall|i: int| 0 <= i < s.len() implies is_white(#[trigger] s[i]) by {
            if i < front.len() {
                assert(front[i] == s[i]);
            }
        }
    }
}

/// White space at the back of a line changes nothing that is read from it.
proof fn lemma_trimmed_push(s: Seq<char>, c: char)
    requires
        is_white(c),
    ensures
        trimmed(s.push(c)) == trimmed(s),
    decreases s.len(),
{
    let t = s.push(c);
    if s.len() == 0 {
        assert(t.drop_first() =~= s);
        assert(trim_front(t) == trim_front(t.drop_first()));
    } else if is_white(s[0]) {
        assert(t.drop_first() =~= s.drop_first().push(c));
        lemma_trimmed_push(s.drop_first(), c);
        assert(trim_front(t) == trim_front(t.drop_first()));
        assert(trim_front(s) == trim_front(s.drop_first()));
    } else {
        assert(trim_front(t) == t);
        assert(t.drop_last() =~= s);
    }
}

/// A carriage return at the end of a line changes nothing that is read from it.
proof fn lemma_cr_is_ignored(line: Seq<char>)
    ensures
        line_setting(strip_cr(line)) == line_setting(line),
{
    if line.len() > 0 && line.last() == '\r' {
        lemma_trimmed_push(line.drop_last(), '\r');
        assert(line.drop_last().push('\r') =~= line);
    }
}

/// No line holds a line feed.
proof fn lemma_lines_hold_no_feed(s: Seq<char>)
    ensures
        forall|i: int| 0 <= i < lines(s).len() ==> !(#[trigger] lines(s)[i]).contains('\n'),
{
    let p = parts(s, Cut::At('\n'));
    lemma_parts_nonempty(s, Cut::At('\n'));
    lemma_parts_hold_no_cut(s, '\n');
    let ended = p.drop_last().map_values(|l: Seq<char>| strip_cr(l));
    assert forall|i: int| 0 <= i < lines(s).len() implies !(#[trigger] lines(s)[i]).contains(
        '\n',
    ) by {
        assert(!p[i].contains('\n'));
        if i < ended.len() {
            assert(lines(s)[i] == strip_cr(p[i]));
            let l = lines(s)[i];
            if l.contains('\n') {
                let k = choose|k: int| 0 <= k < l.len() && l[k] == '\n';
                assert(p[i][k] == '\n');
            }
        } else {
            assert(lines(s)[i] == p[i]);
        }
    }
}

/// A file made of lines is read back as those lines, but for a carriage return
/// at the end of each.
proof fn lemma_file_text_lines(list: Seq<Seq<char>>)
    requires
        forall|i: int| 0 <= i < list.len() ==> !(#[trigger] list[i]).contains('\n'),
        file_text(list).len() > 0,
    ensures
        lines(file_text(list)) == list.map_values(|l: Seq<char>| strip_cr(l)),
{
    reveal_strlit("\n");
    assert("\n"@ =~= seq!['\n']);
    let t = joined(list, "\n"@);
    let f = t.push('\n');
    assert(list.len() > 0);
    law_joined_parts_come_apart(list, '\n');
    assert(f =~= t + seq!['\n'] + Seq::<char>::empty());
    lemma_parts_push(t, '\n', Seq::<char>::empty(), Cut::At('\n'));
    let p = parts(f, Cut::At('\n'));
    assert(p =~= list.push(Seq::empty()));
    assert(p.drop_last() =~= list);
}

/// The settings of lines depend on each line's setting alone.
proof fn lemma_settings_same(a: Seq<Seq<char>>, b: Seq<Seq<char>>)
    requires
        a.len() == b.len(),
        forall|i: int| 0 <= i < a.len() ==> line_setting(#[trigger] a[i]) == line_setting(b[i]),
    ensures
        settings_of(a) == settings_of(b),
    decreases a.len(),
{
    if a.len() > 0 {
        let x = a.drop_last();
        let y = b.drop_last();
        assert forall|i: int| 0 <= i < x.len() implies line_setting(#[trigger] x[i])
            == line_setting(y[i]) by {
            assert(line_setting(a[i]) == line_setting(b[i]));
        }
        lemma_settings_same(x, y);
        assert(line_setting(a[a.len() - 1]) == line_setting(b[b.len() - 1]));
    }
}

/// The settings of two lists of lines, one after the other.
proof fn lemma_settings_concat(a: Seq<Seq<char>>, b: Seq<Seq<char>>)
    ensures
        settings_of(a + b) == settings_of(a) + settings_of(b),
    decreases b.len(),
{
    if b.len() == 0 {
        assert(a + b =~= a);
        assert(settings_of(a) + settings_of(b) =~= settings_of(a));
    } else {
        assert((a + b).drop_last() =~= a + b.drop_last());
        lemma_settings_concat(a, b.drop_last());
        assert(settings_of(a + b) =~= settings_of(a) + settings_of(b));
    }
}

/// The updates that are added, as settings that can be read.
pub open spec fn added_settings(
    list: Seq<Seq<char>>,
    updates: Seq<(Seq<char>, Seq<char>)>,
) -> Seq<(Seq<char>, Seq<char>)>
    decreases updates.len(),
{
    if updates.len() == 0 {
        Seq::empty()
    } else if has_key(list, updates.last().0) || is_comment(updates.last()) {
        added_settings(list, updates.drop_last())
    } else {
        added_settings(list, updates.drop_last()).push(updates.last())
    }
}

proof fn lemma_added(list: Seq<Seq<char>>, updates: Seq<(Seq<char>, Seq<char>)>)
    requires
        forall|i: int| 0 <= i < updates.len() ==> is_writable(#[trigger] updates[i]),
    ensures
        settings_of(added_lines(list, updates)) == added_settings(list, updates),
        forall|i: int|
            0 <= i < added_lines(list, updates).len() ==> !(#[trigger] added_lines(
                list,
                updates,
            )[i]).contains('\n'),
        forall|i: int|
            0 <= i < added_settings(list, updates).len() ==> updates.contains(
                #[trigger] added_settings(list, updates)[i],
            ),
        forall|i: int|
            0 <= i < updates.len() && !has_key(list, (#[trigger] updates[i]).0) && !is_comment(
                updates[i],
            ) ==> added_settings(list, updates).contains(updates[i]),
    decreases updates.len(),
{
    if updates.len() > 0 {
        let front = updates.drop_last();
        let last = updates.last();
        assert forall|i: int| 0 <= i < front.len() implies is_writable(#[trigger] front[i]) by {
            assert(is_writable(updates[i]));
        }
        lemma_added(list, front);
        assert(is_writable(updates[updates.len() - 1]));
        law_setting_line_reads_back(last);
        let al = added_lines(list, updates);
        let bl = added_lines(list, front);
        let a = added_settings(list, updates);
        let b = added_settings(list, front);
        if !has_key(list, last.0) {
            assert(al.drop_last() =~= bl);
        }
        assert forall|i: int| 0 <= i < al.len() implies !(#[trigger] al[i]).contains('\n') by {
            if i < bl.len() {
                assert(al[i] == bl[i]);
            } else {
                reveal_strlit("=");
                let l = al[i];
                assert(l == setting_line(last));
                if l.contains('\n') {
                    let k = choose|k: int| 0 <= k < l.len() && l[k] == '\n';
                    if k < last.0.len() {
                        assert(last.0[k] == '\n');
                    } else if k > last.0.len() {
                        assert(last.1[k - last.0.len() - 1] == '\n');
                    }
                }
            }
        }
        assert forall|i: int| 0 <= i < a.len() implies updates.contains(#[trigger] a[i]) by {
            if i < b.len() {
                assert(a[i] == b[i]);
                let k = choose|k: int| 0 <= k < front.len() && front[k] == b[i];
                assert(updates[k] == a[i]);
            } else {
                assert(updates[updates.len() - 1] == a[i]);
            }
        }
        assert forall|i: int|
            0 <= i < updates.len() && !has_key(list, (#[trigger] updates[i]).0) && !is_comment(
                updates[i],
            ) implies a.contains(updates[i]) by {
            if i < front.len() {
                assert(front[i] == updates[i]);
                let k = choose|k: int| 0 <= k < b.len() && b[k] == front[i];
                assert(a[k] == updates[i]);
            } else {
                assert(a[a.len() - 1] == updates[i]);
            }
        }
    }
}

/// What an update does to the setting of one line: a new value under the same
/// key, or nothing.
pub open spec fn updated_setting(
    p: (Seq<char>, Seq<char>),
    updates: Seq<(Seq<char>, Seq<char>)>,
) -> (Seq<char>, Seq<char>) {
    match new_value(updates, p.0) {
        Some(v) => if p.0.len() > 0 {
            (p.0, v)
        } else {
            p
        },
        None => p,
    }
}

/// A key that was read from a line can be written again.
proof fn lemma_key_from_line(line: Seq<char>)
    requires
        line_key(line) is Some,
    ensures
        ({
            let k = line_key(line)->0;
            &&& k.len() > 0
            &&& trimmed(k) == k
            &&& !k.contains('=')
            &&& k[0] != '#'
            &&& !line.contains('\n') ==> !k.contains('\n')
        }),
{
    let t = trimmed(line);
    lemma_trimmed(line);
    let n = first_at(t, '=');
    lemma_first_at_bounds(t, '=');
    let k0 = t.take(n);
    let k = trimmed(k0);
    lemma_trimmed(k0);
    lemma_trimmed_already(k);
    assert(!k0.contains('='));
    assert(n > 0) by {
        if n == 0 {
            assert(k0 =~= Seq::<char>::empty());
        }
    }
    assert(k0[0] == t[0]);
    assert(trim_front(k0) == k0);
    lemma_trim_back(k0);
    assert(k[0] == k0[0]);
    assert(!line.contains('\n') ==> !k.contains('\n')) by {
        if k.contains('\n') {
            assert(k0.contains('\n'));
            let j = choose|j: int| 0 <= j < k0.len() && k0[j] == '\n';
            assert(t[j] == '\n');
            assert(t.contains('\n'));
        }
    }
}

proof fn lemma_first_at_bounds(s: Seq<char>, c: char)
    ensures
        0 <= first_at(s, c) <= s.len(),
        forall|j: int| 0 <= j < first_at(s, c) ==> s[j] != c,
    decreases s.len(),
{
    if s.len() > 0 && s[0] != c {
        lemma_first_at_bounds(s.drop_first(), c);
        assert forall|j: int| 0 <= j < first_at(s, c) implies s[j] != c by {
            if j > 0 {
                assert(s.drop_first()[j - 1] == s[j]);
            }
        }
    }
}

proof fn lemma_updated_line(line: Seq<char>, updates: Seq<(Seq<char>, Seq<char>)>)
    requires
        forall|i: int| 0 <= i < updates.len() ==> is_writable(#[trigger] updates[i]),
        !line.contains('\n'),
    ensures
        line_setting(updated_line(line, updates)) == (match line_setting(line) {
            Some(p) => Some(updated_setting(p, updates)),
            None => None,
        }),
        !updated_line(line, updates).contains('\n'),
{
    if let Some(k) = line_key(line) {
        if new_value(updates, k) is Some {
            lemma_key_from_line(line);
            let i = lemma_value_source(updates, k);
            assert(is_writable(updates[i]));
            let v = new_value(updates, k)->0;
            assert(is_writable((k, v)));
            law_setting_line_reads_back((k, v));
            reveal_strlit("=");
            let l = setting_line((k, v));
            if l.contains('\n') {
                let j = choose|j: int| 0 <= j < l.len() && l[j] == '\n';
                if j < k.len() {
                    assert(k[j] == '\n');
                } else if j > k.len() {
                    assert(v[j - k.len() - 1] == '\n');
                }
            }
        }
    }
}

/// The settings with their new values.
pub open spec fn updated_settings(
    list: Seq<(Seq<char>, Seq<char>)>,
    updates: Seq<(Seq<char>, Seq<char>)>,
) -> Seq<(Seq<char>, Seq<char>)> {
    list.map_values(|p: (Seq<char>, Seq<char>)| updated_setting(p, updates))
}

proof fn lemma_kept_settings(list: Seq<Seq<char>>, updates: Seq<(Seq<char>, Seq<char>)>)
    requires
        forall|i: int| 0 <= i < updates.len() ==> is_writable(#[trigger] updates[i]),
        forall|i: int| 0 <= i < list.len() ==> !(#[trigger] list[i]).contains('\n'),
    ensures
        ({
            let kept = list.map_values(|l: Seq<char>| updated_line(l, updates));
            &&& settings_of(kept) == updated_settings(settings_of(list), updates)
            &&& forall|i: int| 0 <= i < kept.len() ==> !(#[trigger] kept[i]).contains('\n')
        }),
    decreases list.len(),
{
    let kept = list.map_values(|l: Seq<char>| updated_line(l, updates));
    if list.len() == 0 {
        assert(settings_of(kept) =~= updated_settings(settings_of(list), updates));
    } else {
        let front = list.drop_last();
        assert forall|i: int| 0 <= i < front.len() implies !(#[trigger] front[i]).contains('\n') by {
            assert(!list[i].contains('\n'));
        }
        lemma_kept_settings(front, updates);
        assert(!list[list.len() - 1].contains('\n'));
        lemma_updated_line(list.last(), updates);
        let fk = front.map_values(|l: Seq<char>| updated_line(l, updates));
        assert(kept.drop_last() =~= fk);
        assert(kept.last() == updated_line(list.last(), updates));
        assert(settings_of(kept) =~= updated_settings(settings_of(list), updates));
        assert forall|i: int| 0 <= i < kept.len() implies !(#[trigger] kept[i]).contains('\n') by {
            assert(!list[i].contains('\n'));
            lemma_updated_line(list[i], updates);
        }
    }
}

/// Saving settings and reading the file again gives the settings that were in
/// the file, in their order, with the new values under their keys, and after
/// them the settings whose keys were not there.
pub proof fn law_saved_file_reads_back(content: Seq<char>, updates: Seq<(Seq<char>, Seq<char>)>)
    requires
        updates.len() > 0,
        forall|i: int| 0 <= i < updates.len() ==> is_writable(#[trigger] updates[i]),
    ensures
        settings_in(merged(content, updates)) == updated_settings(settings_in(content), updates)
            + added_settings(lines(content), updates),
{
    let list = lines(content);
    let kept = list.map_values(|l: Seq<char>| updated_line(l, updates));
    let added = added_lines(list, updates);
    let out = merged_lines(list, updates);
    lemma_lines_hold_no_feed(content);
    lemma_kept_settings(list, updates);
    lemma_added(list, updates);
    let blank = Seq::<char>::empty();
    assert(line_setting(blank) is None);
    assert forall|i: int| 0 <= i < out.len() implies !(#[trigger] out[i]).contains('\n') by {
        if i < kept.len() {
            assert(out[i] == kept[i]);
        } else if added.len() > 0 {
            if kept.len() > 0 && trimmed(kept.last()).len() > 0 {
                if i > kept.len() {
                    assert(out[i] == added[i - kept.len() - 1]);
                }
            } else {
                assert(out[i] == added[i - kept.len()]);
            }
        }
    }
    assert(settings_of(out) =~= settings_of(kept) + settings_of(added)) by {
        if added.len() == 0 {
            assert(settings_of(kept) + settings_of(added) =~= settings_of(kept));
        } else if kept.len() > 0 && trimmed(kept.last()).len() > 0 {
            lemma_settings_concat(kept.push(blank), added);
            assert(kept.push(blank).drop_last() =~= kept);
        } else {
            lemma_settings_concat(kept, added);
        }
    }
    lemma_file_not_empty(list, updates);
    lemma_file_text_lines(out);
    let again = out.map_values(|l: Seq<char>| strip_cr(l));
    assert forall|i: int| 0 <= i < again.len() implies line_setting(#[trigger] again[i])
        == line_setting(out[i]) by {
        lemma_cr_is_ignored(out[i]);
    }
    lemma_settings_same(again, out);
}

/// A file into which a setting was saved is not empty.
proof fn lemma_file_not_empty(list: Seq<Seq<char>>, updates: Seq<(Seq<char>, Seq<char>)>)
    requires
        updates.len() > 0,
    ensures
        file_text(merged_lines(list, updates)).len() > 0,
{
    reveal_strlit("=");
    let out = merged_lines(list, updates);
    let kept = list.map_values(|l: Seq<char>| updated_line(l, updates));
    let first = updates[0];
    if has_key(list, first.0) {
        let i = choose|i: int| 0 <= i < list.len() && line_key(#[trigger] list[i]) == Some(first.0);
        lemma_first_value(updates, first.0, 0);
        assert(kept[i].len() > 0);
        assert(out[i] == kept[i]);
        lemma_joined_not_empty(out, "\n"@, i);
    } else {
        let added = added_lines(list, updates);
        lemma_new_key_is_added(list, updates, 0);
        lemma_added_not_empty(list, updates);
        assert(out.last() == added.last());
        assert(out[out.len() - 1].len() > 0);
        lemma_joined_not_empty(out, "\n"@, out.len() - 1);
    }
}

proof fn lemma_new_key_is_added(
    list: Seq<Seq<char>>,
    updates: Seq<(Seq<char>, Seq<char>)>,
    i: int,
)
    requires
        0 <= i < updates.len(),
        !has_key(list, updates[i].0),
    ensures
        added_lines(list, updates).len() > 0,
    decreases updates.len(),
{
    if has_key(list, updates.last().0) {
        assert(updates.drop_last()[i] == updates[i]);
        lemma_new_key_is_added(list, updates.drop_last(), i);
    }
}

proof fn lemma_added_not_empty(list: Seq<Seq<char>>, updates: Seq<(Seq<char>, Seq<char>)>)
    ensures
        forall|i: int|
            0 <= i < added_lines(list, updates).len() ==> (#[trigger] added_lines(
                list,
                updates,
            )[i]).len() > 0,
    decreases updates.len(),
{
    reveal_strlit("=");
    if updates.len() > 0 {
        let all = added_lines(list, updates);
        let front = added_lines(list, updates.drop_last());
        lemma_added_not_empty(list, updates.drop_last());
        assert forall|i: int| 0 <= i < all.len() implies (#[trigger] all[i]).len() > 0 by {
            if i < front.len() {
                assert(all[i] == front[i]);
            }
        }
    }
}

/// A key of an update has a new value.
proof fn lemma_first_value(updates: Seq<(Seq<char>, Seq<char>)>, key: Seq<char>, i: int)
    requires
        0 <= i < updates.len(),
        updates[i].0 == key,
    ensures
        new_value(updates, key) is Some,
    decreases updates.len(),
{
    if updates.last().0 != key {
        assert(updates.drop_last()[i] == updates[i]);
        lemma_first_value(updates.drop_last(), key, i);
    }
}

proof fn lemma_joined_not_empty(list: Seq<Seq<char>>, sep: Seq<char>, i: int)
    requires
        0 <= i < list.len(),
        list[i].len() > 0,
    ensures
        joined(list, sep).len() > 0,
    decreases list.len(),
{
    if list.len() > 1 && i < list.len() - 1 {
        assert(list.drop_last()[i] == list[i]);
        lemma_joined_not_empty(list.drop_last(), sep, i);
    }
}

/// After saving settings, the file holds each of them, and under each of their
/// keys no other value. The one exception is a key that starts like a comment.
pub proof fn law_saved_settings_hold(
    content: Seq<char>,
    updates: Seq<(Seq<char>, Seq<char>)>,
    i: int,
)
    requires
        forall|a: int| 0 <= a < updates.len() ==> is_writable(#[trigger] updates[a]),
        forall|a: int, b: int|
            0 <= a < b < updates.len() ==> (#[trigger] updates[a]).0 != (#[trigger] updates[b]).0,
        0 <= i < updates.len(),
        !is_comment(updates[i]),
    ensures
        settings_in(merged(content, updates)).contains(updates[i]),
        forall|j: int|
            0 <= j < settings_in(merged(content, updates)).len() && (#[trigger] settings_in(
                merged(content, updates),
            )[j]).0 == updates[i].0 ==> settings_in(merged(content, updates))[j] == updates[i],
{
    law_saved_file_reads_back(content, updates);
    let list = lines(content);
    let had = settings_in(content);
    let kept = updated_settings(had, updates);
    let added = added_settings(list, updates);
    let now = settings_in(merged(content, updates));
    lemma_added(list, updates);
    lemma_own_value(updates, i);
    let (k, v) = updates[i];
    assert(is_writable(updates[i]));
    assert(now.contains(updates[i])) by {
        if has_key(list, k) {
            let m = choose|m: int| 0 <= m < list.len() && line_key(#[trigger] list[m]) == Some(k);
            let j = lemma_setting_of_line(list, m);
            assert(kept[j] == updates[i]);
            assert(now[j] == updates[i]);
        } else {
            let j = choose|j: int| 0 <= j < added.len() && added[j] == updates[i];
            assert(now[kept.len() + j] == updates[i]);
        }
    }
    assert forall|j: int| 0 <= j < now.len() && (#[trigger] now[j]).0 == k implies now[j]
        == updates[i] by {
        if j < kept.len() {
            assert(now[j] == updated_setting(had[j], updates));
        } else {
            assert(now[j] == added[j - kept.len()]);
            let m = choose|m: int| 0 <= m < updates.len() && updates[m] == now[j];
            if m < i {
                assert(updates[m].0 != updates[i].0);
            } else if i < m {
                assert(updates[i].0 != updates[m].0);
            }
        }
    }
}

/// The setting of a line is among the settings of the lines.
proof fn lemma_setting_of_line(list: Seq<Seq<char>>, m: int) -> (j: int)
    requires
        0 <= m < list.len(),
        line_setting(list[m]) is Some,
    ensures
        0 <= j < settings_of(list).len(),
        settings_of(list)[j] == line_setting(list[m])->0,
    decreases list.len(),
{
    if m == list.len() - 1 {
        settings_of(list).len() - 1
    } else {
        assert(list.drop_last()[m] == list[m]);
        lemma_setting_of_line(list.drop_last(), m)
    }
}

/// A setting that takes up one line under its own key: a trimmed key that is not
/// empty, holds no `=` and does not start like a comment, and no line feed.
pub open spec fn is_plain_setting(p: (Seq<char>, Seq<char>)) -> bool {
    &&& p.0.len() > 0
    &&& trimmed(p.0) == p.0
    &&& !p.0.contains('=')
    &&& !p.0.contains('\n')
    &&& !p.1.contains('\n')
    &&& !is_comment(p)
}

/// Whether the updates give the line's setting a new value.
pub open spec fn is_updated(line: Seq<char>, updates: Seq<(Seq<char>, Seq<char>)>) -> bool {
    line_key(line) matches Some(k) && new_value(updates, k) is Some
}

/// The line of a plain setting holds its key, with and without a carriage return at
/// the end.
proof fn lemma_plain_line(p: (Seq<char>, Seq<char>))
    requires
        is_plain_setting(p),
    ensures
        line_key(setting_line(p)) == Some(p.0),
        line_key(strip_cr(setting_line(p))) == Some(p.0),
        !setting_line(p).contains('\n'),
{
    law_setting_line_reads_back(p);
    let l = setting_line(p);
    lemma_cr_is_ignored(l);
    reveal_strlit("=");
    if l.contains('\n') {
        let j = choose|j: int| 0 <= j < l.len() && l[j] == '\n';
        if j < p.0.len() {
            assert(p.0[j] == '\n');
        } else if j > p.0.len() {
            assert(p.1[j - p.0.len() - 1] == '\n');
        }
    }
}

/// A line that was brought up to date is so when it is read again.
proof fn lemma_updated_line_stays(line: Seq<char>, updates: Seq<(Seq<char>, Seq<char>)>)
    requires
        forall|i: int| 0 <= i < updates.len() ==> is_plain_setting(#[trigger] updates[i]),
        !line.contains('\n'),
        !is_updated(line, updates) ==> strip_cr(line) == line,
    ensures
        ({
            let l = updated_line(line, updates);
            &&& updated_line(strip_cr(l), updates) == l
            &&& !l.contains('\n')
            &&& line_key(strip_cr(l)) == line_key(line)
        }),
{
    if is_updated(line, updates) {
        let k = line_key(line)->0;
        lemma_key_from_line(line);
        let i = lemma_value_source(updates, k);
        assert(is_plain_setting(updates[i]));
        lemma_plain_line((k, updates[i].1));
    }
}

/// Each line that is added is that of an update whose key is new, and each such
/// update adds its line.
proof fn lemma_added_sources(list: Seq<Seq<char>>, updates: Seq<(Seq<char>, Seq<char>)>)
    ensures
        forall|i: int|
            0 <= i < added_lines(list, updates).len() ==> exists|j: int|
                0 <= j < updates.len() && !has_key(list, updates[j].0) && (#[trigger] added_lines(
                    list,
                    updates,
                )[i]) == setting_line(#[trigger] updates[j]),
        forall|j: int|
            0 <= j < updates.len() && !has_key(list, (#[trigger] updates[j]).0) ==> added_lines(
                list,
                updates,
            ).contains(setting_line(updates[j])),
    decreases updates.len(),
{
    if updates.len() > 0 {
        let front = updates.drop_last();
        let n = updates.len() - 1;
        lemma_added_sources(list, front);
        let now = added_lines(list, updates);
        let before = added_lines(list, front);
        assert forall|i: int| 0 <= i < now.len() implies exists|j: int|
            0 <= j < updates.len() && !has_key(list, updates[j].0) && (#[trigger] now[i])
                == setting_line(#[trigger] updates[j]) by {
            if i < before.len() {
                assert(now[i] == before[i]);
                let j = choose|j: int|
                    0 <= j < front.len() && !has_key(list, front[j].0) && before[i]
                        == setting_line(#[trigger] front[j]);
                assert(front[j] == updates[j]);
            } else {
                assert(now[i] == setting_line(updates[n]));
            }
        }
        assert forall|j: int|
            0 <= j < updates.len() && !has_key(
                list,
                (#[trigger] updates[j]).0,
            ) implies now.contains(setting_line(updates[j])) by {
            if j < n {
                assert(front[j] == updates[j]);
                let i = choose|i: int|
                    0 <= i < before.len() && before[i] == setting_line(front[j]);
                assert(now[i] == before[i]);
            } else {
                assert(now[now.len() - 1] == setting_line(updates[n]));
            }
        }
    }
}

/// With every key in the file, nothing is added.
proof fn lemma_nothing_to_add(list: Seq<Seq<char>>, updates: Seq<(Seq<char>, Seq<char>)>)
    requires
        forall|j: int| 0 <= j < updates.len() ==> has_key(list, (#[trigger] updates[j]).0),
    ensures
        added_lines(list, updates).len() == 0,
    decreases updates.len(),
{
    if updates.len() > 0 {
        assert(has_key(list, updates[updates.len() - 1].0));
        let front = updates.drop_last();
        assert forall|j: int| 0 <= j < front.len() implies has_key(
            list,
            (#[trigger] front[j]).0,
        ) by {
            assert(front[j] == updates[j]);
        }
        lemma_nothing_to_add(list, front);
    }
}

/// Saving the same settings again changes nothing. The exceptions are a setting that
/// is not plain, a key that is new and comes with two values, and a line that is not
/// updated and ends with a carriage return besides the one that ends it.
pub proof fn law_merged_twice(content: Seq<char>, updates: Seq<(Seq<char>, Seq<char>)>)
    requires
        forall|i: int| 0 <= i < updates.len() ==> is_plain_setting(#[trigger] updates[i]),
        forall|a: int, b: int|
            0 <= a < b < updates.len() && (#[trigger] updates[a]).0 == (#[trigger] updates[b]).0
                ==> has_key(lines(content), updates[a].0) || updates[a].1 == updates[b].1,
        forall|i: int|
            0 <= i < lines(content).len() && !is_updated(
                #[trigger] lines(content)[i],
                updates,
            ) ==> strip_cr(lines(content)[i]) == lines(content)[i],
    ensures
        merged(merged(content, updates), updates) == merged(content, updates),
{
    let list = lines(content);
    let kept = list.map_values(|l: Seq<char>| updated_line(l, updates));
    let added = added_lines(list, updates);
    let out = merged_lines(list, updates);
    let text = file_text(out);
    let blank = Seq::<char>::empty();
    lemma_lines_hold_no_feed(content);
    lemma_added_sources(list, updates);
    if text.len() == 0 {
        if updates.len() > 0 {
            lemma_file_not_empty(list, updates);
        }
        assert(lines(text) =~= Seq::empty()) by {
            lemma_parts_nonempty(text, Cut::At('\n'));
            assert(text =~= blank);
            lemma_parts_single(blank, Cut::At('\n'));
        }
        let none = merged_lines(Seq::empty(), updates);
        assert(none =~= Seq::empty());
        assert(joined(none, "\n"@).len() == 0);
        assert(merged(text, updates) =~= text);
    } else {
        let again = out.map_values(|l: Seq<char>| strip_cr(l));
        assert forall|i: int| 0 <= i < out.len() implies {
            let l = #[trigger] out[i];
            &&& !l.contains('\n')
            &&& updated_line(strip_cr(l), updates) == l
            &&& i < kept.len() ==> line_key(strip_cr(l)) == line_key(list[i])
        } by {
            if i < kept.len() {
                assert(out[i] == kept[i]);
                assert(kept[i] == updated_line(list[i], updates));
                assert(!list[i].contains('\n'));
                lemma_updated_line_stays(list[i], updates);
            } else if kept.len() > 0 && trimmed(kept.last()).len() > 0 && i == kept.len() {
                assert(out[i] =~= blank);
            } else {
                let m = if kept.len() > 0 && trimmed(kept.last()).len() > 0 {
                    i - kept.len() - 1
                } else {
                    i - kept.len()
                };
                assert(out[i] == added[m]);
                let j = choose|j: int|
                    0 <= j < updates.len() && !has_key(list, updates[j].0) && added[m]
                        == setting_line(#[trigger] updates[j]);
                lemma_plain_line(updates[j]);
                lemma_first_value(updates, updates[j].0, j);
                let s = lemma_value_source(updates, updates[j].0);
                assert(updates[s].0 == updates[j].0);
                assert(updates[s].1 == updates[j].1);
            }
        }
        lemma_file_text_lines(out);
        assert(lines(text) == again);
        assert forall|j: int| 0 <= j < updates.len() implies has_key(
            again,
            (#[trigger] updates[j]).0,
        ) by {
            let k = updates[j].0;
            if has_key(list, k) {
                let i = choose|i: int|
                    0 <= i < list.len() && line_key(#[trigger] list[i]) == Some(k);
                assert(out[i] == kept[i]);
                assert(line_key(again[i]) == Some(k));
            } else {
                let i = choose|i: int| 0 <= i < added.len() && added[i] == setting_line(updates[j]);
                lemma_plain_line(updates[j]);
                let m = if kept.len() > 0 && trimmed(kept.last()).len() > 0 {
                    kept.len() + 1 + i
                } else {
                    kept.len() + i
                };
                assert(out[m] == added[i]);
                assert(line_key(again[m]) == Some(k));
            }
        }
        lemma_nothing_to_add(again, updates);
        let kept_again = again.map_values(|l: Seq<char>| updated_line(l, updates));
        assert forall|i: int| 0 <= i < out.len() implies kept_again[i] == out[i] by {
            assert(updated_line(strip_cr(out[i]), updates) == out[i]);
        }
        assert(kept_again =~= out);
        assert(merged_lines(again, updates) =~= out);
    }
}

/// A value is saved as it is, but for the white space at its ends, and with a space for
/// each line feed and carriage return in it.
pub proof fn law_value_is_saved_as_it_is(value: Seq<char>)
    ensures
        !value.contains('\n') && !value.contains('\r') ==> saved_value(value) == trimmed(value),
        exists|flat: Seq<char>|
            {
                &&& #[trigger] trimmed(flat) == saved_value(value)
                &&& flat.len() == value.len()
                &&& forall|i: int|
                    0 <= i < value.len() ==> flat[i] == if value[i] == '\n' || value[i] == '\r' {
                        ' '
                    } else {
                        #[trigger] value[i]
                    }
            },
{
    let one = replaced(value, '\n', ' ');
    let flat = replaced(one, '\r', ' ');
    assert forall|i: int| 0 <= i < value.len() implies flat[i] == if value[i] == '\n' || value[i]
        == '\r' {
        ' '
    } else {
        #[trigger] value[i]
    } by {
        law_replaced(value, '\n', ' ', i);
        law_replaced(one, '\r', ' ', i);
    }
    law_replaced(value, '\n', ' ', 0);
    law_replaced(one, '\r', ' ', 0);
    assert(trimmed(flat) == saved_value(value));
}

/// A request is accepted exactly where no key holds `=` or a line end; the refusal
/// names the first such key.
pub proof fn law_bad_keys_are_refused(items: Seq<(Seq<char>, Seq<char>)>)
    ensures
        match accepted_settings(items) {
            Ok(_) => forall|i: int|
                0 <= i < items.len() ==> !is_bad_key(trimmed((#[trigger] items[i]).0)),
            Err(e) => exists|i: int|
                {
                    &&& 0 <= i < items.len()
                    &&& is_bad_key(trimmed((#[trigger] items[i]).0))
                    &&& e == "Invalid setting key: "@ + trimmed(items[i].0)
                    &&& forall|j: int|
                        0 <= j < i ==> !is_bad_key(trimmed((#[trigger] items[j]).0))
                },
        },
    decreases items.len(),
{
    if items.len() > 0 {
        let front = items.drop_last();
        let n = items.len() - 1;
        law_bad_keys_are_refused(front);
        assert forall|j: int| 0 <= j < n implies front[j] == items[j] by {}
        match accepted_settings(front) {
            Ok(_) => {
                assert forall|j: int| 0 <= j < n implies !is_bad_key(
                    trimmed((#[trigger] items[j]).0),
                ) by {
                    assert(front[j] == items[j]);
                }
                assert(items[n] == items.last());
                let key = trimmed(items[n].0);
                assert(is_bad_key(key) ==> key.len() > 0);
                if !is_bad_key(key) {
                    assert(accepted_settings(items) is Ok);
                }
            },
            Err(e) => {
                let i = choose|i: int|
                    {
                        &&& 0 <= i < front.len()
                        &&& is_bad_key(trimmed((#[trigger] front[i]).0))
                        &&& e == "Invalid setting key: "@ + trimmed(front[i].0)
                        &&& forall|j: int|
                            0 <= j < i ==> !is_bad_key(trimmed((#[trigger] front[j]).0))
                    };
                assert(items[i] == front[i]);
                assert forall|j: int| 0 <= j < i implies !is_bad_key(
                    trimmed((#[trigger] items[j]).0),
                ) by {
                    assert(front[j] == items[j]);
                }
            },
        }
    }
}

/// A key that would not stay in one piece in the file.
pub open spec fn is_bad_key(key: Seq<char>) -> bool {
    key.contains('=') || key.contains('\n') || key.contains('\r')
}

/// Whether item `i` is the first one of the request with its key, and has one.
pub open spec fn is_first_of_its_key(items: Seq<(Seq<char>, Seq<char>)>, i: int) -> bool {
    &&& 0 <= i < items.len()
    &&& trimmed(items[i].0).len() > 0
    &&& forall|j: int| 0 <= j < i ==> trimmed((#[trigger] items[j]).0) != trimmed(items[i].0)
}

/// Whether a setting is saved from item `i`: the first one of its key, under the trimmed
/// key and with its own value. A value without line ends is saved as it is, but for the
/// white space at its ends.
pub open spec fn is_saved_from(
    items: Seq<(Seq<char>, Seq<char>)>,
    i: int,
    p: (Seq<char>, Seq<char>),
) -> bool {
    &&& is_first_of_its_key(items, i)
    &&& p.0 == trimmed(items[i].0)
    &&& p.1 == saved_value(items[i].1)
    &&& !items[i].1.contains('\n') && !items[i].1.contains('\r') ==> p.1 == trimmed(items[i].1)
}

/// The first items of the keys are those of the items before, and the last one where its
/// key is new.
proof fn lemma_firsts(items: Seq<(Seq<char>, Seq<char>)>)
    requires
        items.len() > 0,
    ensures
        forall|i: int|
            0 <= i < items.len() - 1 ==> #[trigger] is_first_of_its_key(items, i)
                == is_first_of_its_key(items.drop_last(), i),
        is_first_of_its_key(items, items.len() - 1) <==> {
            &&& trimmed(items.last().0).len() > 0
            &&& forall|j: int|
                0 <= j < items.len() - 1 ==> trimmed((#[trigger] items.drop_last()[j]).0)
                    != trimmed(items.last().0)
        },
{
    let front = items.drop_last();
    let n = items.len() - 1;
    assert forall|i: int| 0 <= i < n implies #[trigger] is_first_of_its_key(items, i)
        == is_first_of_its_key(front, i) by {
        assert(front[i] == items[i]);
        if is_first_of_its_key(front, i) {
            assert forall|j: int| 0 <= j < i implies trimmed((#[trigger] items[j]).0) != trimmed(
                items[i].0,
            ) by {
                assert(front[j] == items[j]);
            }
        }
        if is_first_of_its_key(items, i) {
            assert forall|j: int| 0 <= j < i implies trimmed((#[trigger] front[j]).0) != trimmed(
                front[i].0,
            ) by {
                assert(front[j] == items[j]);
            }
        }
    }
    if is_first_of_its_key(items, n) {
        assert forall|j: int| 0 <= j < n implies trimmed((#[trigger] front[j]).0) != trimmed(
            items.last().0,
        ) by {
            assert(front[j] == items[j]);
        }
    } else {
        if trimmed(items.last().0).len() > 0 {
            let j = choose|j: int|
                0 <= j < n && trimmed((#[trigger] items[j]).0) == trimmed(items[n].0);
            assert(front[j] == items[j]);
        }
    }
}

/// A key that came before is saved already, and no other.
proof fn lemma_key_came_before(items: Seq<(Seq<char>, Seq<char>)>, key: Seq<char>)
    requires
        accepted_settings(items) is Ok,
        key.len() > 0,
    ensures
        new_value(accepted_settings(items)->Ok_0, key) is Some <==> exists|j: int|
            0 <= j < items.len() && trimmed((#[trigger] items[j]).0) == key,
    decreases items.len(),
{
    let list = accepted_settings(items)->Ok_0;
    if items.len() > 0 {
        let front = items.drop_last();
        let n = items.len() - 1;
        let before = accepted_settings(front)->Ok_0;
        lemma_key_came_before(front, key);
        if new_value(before, key) is Some {
            let j = choose|j: int| 0 <= j < front.len() && trimmed((#[trigger] front[j]).0) == key;
            assert(trimmed(items[j].0) == key);
        } else if trimmed(items[n].0) == key {
            assert(list.drop_last() =~= before);
            assert(list.last().0 == key);
        } else {
            if list != before {
                assert(list.drop_last() =~= before);
            }
            assert forall|j: int| 0 <= j < items.len() implies trimmed((#[trigger] items[j]).0)
                != key by {
                if j < n {
                    assert(front[j] == items[j]);
                }
            }
        }
        if new_value(before, key) is Some && list != before {
            assert(list.drop_last() =~= before);
        }
    }
}

/// Whether the setting is saved from one of the items.
pub open spec fn is_saved_from_one(
    items: Seq<(Seq<char>, Seq<char>)>,
    p: (Seq<char>, Seq<char>),
) -> bool {
    exists|i: int| #[trigger] is_saved_from(items, i, p)
}

/// What is saved of a request are the first items of each key.
pub proof fn law_first_of_each_key_is_saved(items: Seq<(Seq<char>, Seq<char>)>)
    ensures
        accepted_settings(items) matches Ok(list) ==> forall|k: int|
            0 <= k < list.len() ==> is_saved_from_one(items, #[trigger] list[k]),
        accepted_settings(items) matches Ok(list) ==> forall|i: int| #[trigger]
            is_first_of_its_key(items, i) ==> list.contains(
                (trimmed(items[i].0), saved_value(items[i].1)),
            ),
    decreases items.len(),
{
    if items.len() > 0 && accepted_settings(items) is Ok {
        let front = items.drop_last();
        let n = items.len() - 1;
        let list = accepted_settings(items)->Ok_0;
        let before = accepted_settings(front)->Ok_0;
        let key = trimmed(items[n].0);
        let new = (key, saved_value(items[n].1));
        law_first_of_each_key_is_saved(front);
        lemma_firsts(items);
        if key.len() > 0 {
            lemma_key_came_before(front, key);
        }
        assert(list == if is_first_of_its_key(items, n) {
            before.push(new)
        } else {
            before
        });
        assert forall|k: int| 0 <= k < list.len() implies is_saved_from_one(
            items,
            #[trigger] list[k],
        ) by {
            if k < before.len() {
                assert(list[k] == before[k]);
                assert(is_saved_from_one(front, before[k]));
                let i = choose|i: int| #[trigger] is_saved_from(front, i, before[k]);
                assert(front[i] == items[i]);
                assert(is_first_of_its_key(items, i));
                assert(is_saved_from(items, i, list[k]));
            } else {
                law_value_is_saved_as_it_is(items[n].1);
                assert(is_saved_from(items, n, list[k]));
            }
        }
        assert forall|i: int| #[trigger] is_first_of_its_key(items, i) implies list.contains(
            (trimmed(items[i].0), saved_value(items[i].1)),
        ) by {
            if i < n {
                assert(is_first_of_its_key(front, i));
                assert(front[i] == items[i]);
                let m = choose|m: int|
                    0 <= m < before.len() && before[m] == (
                        trimmed(front[i].0),
                        saved_value(front[i].1),
                    );
                assert(list[m] == before[m]);
            } else {
                assert(list[list.len() - 1] == new);
            }
        }
    }
}

/// Each key of a request that is accepted is saved.
proof fn lemma_saved_keys(items: Seq<(Seq<char>, Seq<char>)>)
    ensures
        accepted_settings(items) matches Ok(list) ==> forall|j: int|
            0 <= j < items.len() && trimmed((#[trigger] items[j]).0).len() > 0 ==> exists|m: int|
                0 <= m < list.len() && (#[trigger] list[m]).0 == trimmed(items[j].0),
    decreases items.len(),
{
    if items.len() > 0 {
        let front = items.drop_last();
        let n = items.len() - 1;
        lemma_saved_keys(front);
        if let Ok(list) = accepted_settings(items) {
            let before = accepted_settings(front)->Ok_0;
            assert forall|j: int|
                0 <= j < items.len() && trimmed((#[trigger] items[j]).0).len() > 0 implies exists|
                m: int,
            |
                0 <= m < list.len() && (#[trigger] list[m]).0 == trimmed(items[j].0) by {
                if j < n {
                    assert(front[j] == items[j]);
                    let m = choose|m: int|
                        0 <= m < before.len() && (#[trigger] before[m]).0 == trimmed(front[j].0);
                    assert(list[m] == before[m]);
                } else {
                    let key = trimmed(items[n].0);
                    if new_value(before, key) is Some {
                        let m = lemma_value_source(before, key);
                        assert(list[m].0 == key);
                    } else {
                        assert(list[list.len() - 1].0 == key);
                    }
                }
            }
        }
    }
}

/// A request without a key to save is refused, and no other that is accepted.
pub proof fn law_request_needs_a_key(items: Seq<(Seq<char>, Seq<char>)>)
    ensures
        match accepted_settings(items) {
            Err(e) => settings_request(items) == Err::<Seq<(Seq<char>, Seq<char>)>, Seq<char>>(e),
            Ok(list) => if list.len() > 0 {
                settings_request(items) == Ok::<Seq<(Seq<char>, Seq<char>)>, Seq<char>>(list)
            } else {
                settings_request(items) == Err::<Seq<(Seq<char>, Seq<char>)>, Seq<char>>(
                    "Add at least one valid setting before saving"@,
                )
            },
        },
        accepted_settings(items) matches Ok(list) ==> (list.len() == 0 <==> forall|i: int|
            0 <= i < items.len() ==> trimmed((#[trigger] items[i]).0).len() == 0),
{
    lemma_saved_keys(items);
    law_first_of_each_key_is_saved(items);
    if let Ok(list) = accepted_settings(items) {
        if list.len() > 0 {
            assert(is_saved_from_one(items, list[0]));
            let i = choose|i: int| #[trigger] is_saved_from(items, i, list[0]);
            assert(trimmed(items[i].0).len() > 0);
        }
    }
}

/// A line with `=` tells what stands before the first one and what stands behind it,
/// both trimmed; a comment, and a line without `=`, tell nothing.
pub proof fn law_line_is_read(k: Seq<char>, v: Seq<char>, line: Seq<char>)
    ensures
        !k.contains('=') ==> line_setting(k + "="@ + v) == (if trimmed(k).len() > 0 && trimmed(k)[0]
            == '#' {
            None
        } else {
            Some((trimmed(k), trimmed(v)))
        }),
        !line.contains('=') ==> line_setting(line) is None,
        trimmed(line).len() > 0 && trimmed(line)[0] == '#' ==> line_setting(line) is None,
        line_setting(line) matches Some((key, _)) ==> line_key(line) == if key.len() > 0 {
            Some(key)
        } else {
            None
        },
        line_setting(line) is None ==> line_key(line) is None,
{
    if !k.contains('=') {
        law_setting_line_reads_back((k, v));
    }
    lemma_trimmed(line);
    law_cut_at_the_first(trimmed(line), '=');
    if let Some((a, b)) = cut_once(trimmed(line), '=') {
        assert(trimmed(line)[a.len() as int] == '=');
        assert(trimmed(line).contains('='));
    }
}

/// The settings of a file are those of its lines, one after the other.
pub proof fn law_settings_of_lines(a: Seq<Seq<char>>, line: Seq<char>, b: Seq<Seq<char>>)
    ensures
        settings_of(Seq::empty()) == Seq::<(Seq<char>, Seq<char>)>::empty(),
        settings_of(seq![line]) == match line_setting(line) {
            Some(p) => seq![p],
            None => Seq::empty(),
        },
        settings_of(a + b) == settings_of(a) + settings_of(b),
{
    lemma_settings_concat(a, b);
    reveal_with_fuel(settings_of, 2);
    let one = seq![line];
    assert(one.drop_last() =~= Seq::<Seq<char>>::empty());
    assert(settings_of(one) =~= match line_setting(line) {
        Some(p) => seq![p],
        None => Seq::empty(),
    });
}

/// The value that updates give a key is that of the last one with the key.
pub proof fn law_last_update_counts(updates: Seq<(Seq<char>, Seq<char>)>, key: Seq<char>)
    ensures
        match new_value(updates, key) {
            Some(v) => exists|i: int|
                {
                    &&& 0 <= i < updates.len()
                    &&& #[trigger] updates[i] == (key, v)
                    &&& forall|j: int| i < j < updates.len() ==> (#[trigger] updates[j]).0 != key
                },
            None => forall|i: int| 0 <= i < updates.len() ==> (#[trigger] updates[i]).0 != key,
        },
    decreases updates.len(),
{
    if updates.len() > 0 {
        let front = updates.drop_last();
        let n = updates.len() - 1;
        law_last_update_counts(front, key);
        assert forall|j: int| 0 <= j < n implies front[j] == updates[j] by {}
        if updates[n].0 == key {
            assert(updates[n] == (key, updates[n].1));
        } else if let Some(v) = new_value(front, key) {
            let i = choose|i: int|
                {
                    &&& 0 <= i < front.len()
                    &&& #[trigger] front[i] == (key, v)
                    &&& forall|j: int| i < j < front.len() ==> (#[trigger] front[j]).0 != key
                };
            assert(updates[i] == (key, v));
            assert forall|j: int| i < j < updates.len() implies (#[trigger] updates[j]).0 != key by {
                if j < n {
                    assert(front[j] == updates[j]);
                }
            }
        } else {
            assert forall|i: int| 0 <= i < updates.len() implies (#[trigger] updates[i]).0 != key by {
                if i < n {
                    assert(front[i] == updates[i]);
                }
            }
        }
    }
}

/// Saving settings leaves the rest of the file as it is. Each line keeps its place; one
/// whose key is updated holds the key and the new value, and every other line is the
/// same. What is new follows, in its order, behind one blank line where the file does
/// not end with one.
pub proof fn law_rest_of_the_file_stays(content: Seq<char>, updates: Seq<(Seq<char>, Seq<char>)>)
    ensures
        ({
            let list = lines(content);
            let new = updates.filter(|p: (Seq<char>, Seq<char>)| !has_key(list, p.0)).map_values(
                |p: (Seq<char>, Seq<char>)| p.0 + "="@ + p.1,
            );
            exists|kept: Seq<Seq<char>>, gap: Seq<Seq<char>>|
                {
                    &&& merged(content, updates) == #[trigger] ended_lines(kept + gap + new)
                    &&& kept.len() == list.len()
                    &&& forall|i: int|
                        0 <= i < list.len() ==> #[trigger] kept[i] == match line_key(list[i]) {
                            Some(k) => match new_value(updates, k) {
                                Some(v) => k + "="@ + v,
                                None => list[i],
                            },
                            None => list[i],
                        }
                    &&& gap == if new.len() > 0 && kept.len() > 0 && trimmed(kept.last()).len() > 0 {
                        seq![Seq::<char>::empty()]
                    } else {
                        Seq::empty()
                    }
                }
        }),
{
    let list = lines(content);
    let kept = list.map_values(|l: Seq<char>| updated_line(l, updates));
    let added = added_lines(list, updates);
    let new = updates.filter(|p: (Seq<char>, Seq<char>)| !has_key(list, p.0)).map_values(
        |p: (Seq<char>, Seq<char>)| p.0 + "="@ + p.1,
    );
    lemma_added_are_new(list, updates);
    assert(added == new);
    let gap = if new.len() > 0 && kept.len() > 0 && trimmed(kept.last()).len() > 0 {
        seq![Seq::<char>::empty()]
    } else {
        Seq::empty()
    };
    let out = merged_lines(list, updates);
    assert(out =~= kept + gap + new);
    assert("\n"@ =~= seq!['\n']) by {
        reveal_strlit("\n");
    }
    assert(merged(content, updates) =~= ended_lines(kept + gap + new));
}

/// Lines with a line feed between each two, and one at the end of a text that is not
/// empty.
pub open spec fn ended_lines(list: Seq<Seq<char>>) -> Seq<char> {
    if joined(list, seq!['\n']).len() == 0 {
        Seq::empty()
    } else {
        joined(list, seq!['\n']) + seq!['\n']
    }
}

proof fn lemma_added_are_new(list: Seq<Seq<char>>, updates: Seq<(Seq<char>, Seq<char>)>)
    ensures
        added_lines(list, updates) == updates.filter(
            |p: (Seq<char>, Seq<char>)| !has_key(list, p.0),
        ).map_values(|p: (Seq<char>, Seq<char>)| p.0 + "="@ + p.1),
    decreases updates.len(),
{
    reveal(Seq::filter);
    let keep = |p: (Seq<char>, Seq<char>)| !has_key(list, p.0);
    let write = |p: (Seq<char>, Seq<char>)| p.0 + "="@ + p.1;
    if updates.len() > 0 {
        let front = updates.drop_last();
        lemma_added_are_new(list, front);
        let f = front.filter(keep);
        if keep(updates.last()) {
            assert(f.push(updates.last()).map_values(write) =~= f.map_values(write).push(
                write(updates.last()),
            ));
        }
    } else {
        assert(updates.filter(keep).map_values(write) =~= Seq::empty());
    }
}

} // verus!
