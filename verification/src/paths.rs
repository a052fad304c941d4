//! Paths: how requests name files below an instance, and how the files of a
//! directory are shown.
//!
//! A path is text with `/` between its steps. A path that a request names is
//! taken below the instance's directory, and never leaves it.
use vstd::prelude::*;
use vstd::string::*;

use crate::numbers::{format_bytes, human_size};
use crate::order::{
    lemma_text_order_total, lemma_text_order_transitive, sort_stable, sorted, text_at_most,
    text_is_at_most, views, Ranked,
};
use crate::outside::lower_text;
use crate::text::{
    cat2, cat3, has_prefix, join, joined, keep_non_empty, law_joined_parts_come_apart, law_without,
    lemma_non_empty, lemma_non_empty_concat, lemma_non_empty_keeps, lemma_parts_concat,
    lemma_parts_hold_no_cut, lemma_parts_single, lemma_trimmed, lemma_trimmed_already, non_empty,
    opt_str, opt_text, parts, remove_char, replace_char, replaced, same_text, split_parts, texts,
    trim, trimmed, without, Cut,
};

verus! {

/// The file that holds an instance's identity. The file pages do not show it, and
/// no request can edit, upload or delete it.
pub const INSTANCE_ID_FILENAME: &'static str = ".minara_instance_id";

/// `rel` taken below `base`; an absolute `rel` stands for itself.
pub open spec fn joined_path(base: Seq<char>, rel: Seq<char>) -> Seq<char> {
    if rel.len() > 0 && rel[0] == '/' {
        rel
    } else if base.len() == 0 || base.last() == '/' {
        base + rel
    } else {
        base + "/"@ + rel
    }
}

/// `rel` taken below `base`; an absolute `rel` stands for itself.
pub fn join_path(base: &str, rel: &str) -> (r: String)
    ensures
        r@ == joined_path(base@, rel@),
{
    proof {
        reveal_strlit("/");
        assert("/"@ =~= seq!['/']);
    }
    if has_prefix(rel, "/") {
        assert(rel@[0] == rel@.subrange(0, 1)[0]);
        return rel.to_owned();
    }
    assert(rel@.len() > 0 ==> rel@[0] != '/') by {
        if rel@.len() > 0 && rel@[0] == '/' {
            assert("/"@ =~= rel@.subrange(0, 1));
        }
    }
    let n: usize = base.unicode_len();
    if n == 0 || base.get_char(n - 1) == '/' {
        cat2(base, rel)
    } else {
        cat3(base, "/", rel)
    }
}

/// The steps of a path: what stands between its separators.
pub open spec fn steps(path: Seq<char>) -> Seq<Seq<char>> {
    non_empty(parts(path, Cut::At('/')))
}

/// The steps of the path: what stands between its separators.
pub fn path_steps(path: &str) -> (r: Vec<String>)
    ensures
        texts(r@) == steps(path@),
{
    keep_non_empty(split_parts(path, Cut::At('/')))
}

/// The steps without those that stay where they are.
pub open spec fn without_dots(list: Seq<Seq<char>>) -> Seq<Seq<char>>
    decreases list.len(),
{
    if list.len() == 0 {
        list
    } else if list.last() == "."@ {
        without_dots(list.drop_last())
    } else {
        without_dots(list.drop_last()).push(list.last())
    }
}

/// What a request writes, trimmed and with `/` for each backslash.
pub open spec fn cleaned(raw: Seq<char>) -> Seq<char> {
    replaced(trimmed(raw), '\\', '/')
}

/// The steps down from an instance's directory that a request names. An absolute
/// path and a step up are refused; steps that stay in place are left out.
pub open spec fn normalized(raw: Seq<char>) -> Result<Seq<Seq<char>>, Seq<char>> {
    let path = cleaned(raw);
    if path.len() > 0 && path[0] == '/' {
        Err("Absolute paths are not allowed"@)
    } else if steps(path).contains(".."@) {
        Err("Invalid path"@)
    } else {
        Ok(without_dots(steps(path)))
    }
}

/// The outcome of a normalisation by its texts.
pub open spec fn steps_outcome(r: Result<Vec<String>, String>) -> Result<Seq<Seq<char>>, Seq<char>> {
    match r {
        Ok(v) => Ok(texts(v@)),
        Err(e) => Err(e@),
    }
}

/// The steps down from an instance's directory that a request names.
pub fn normalize_relative_path(raw_path: &str) -> (r: Result<Vec<String>, String>)
    ensures
        steps_outcome(r) == normalized(raw_path@),
{
    let path = replace_char(trim(raw_path), '\\', '/');
    if path.as_str().unicode_len() > 0 && path.as_str().get_char(0) == '/' {
        return Err("Absolute paths are not allowed".to_owned());
    }
    let all = path_steps(path.as_str());
    let ghost s = steps(path@);
    let mut kept: Vec<String> = Vec::new();
    let mut i: usize = 0;
    assert(texts(kept@) =~= without_dots(s.take(0)));
    while i < all.len()
        invariant
            i <= all.len(),
            path@ == cleaned(raw_path@),
            path@.len() > 0 ==> path@[0] != '/',
            s == steps(path@),
            texts(all@) == s,
            texts(kept@) == without_dots(s.take(i as int)),
            forall|j: int| 0 <= j < i ==> s[j] != ".."@,
        decreases all.len() - i,
    {
        assert(s[i as int] == all@[i as int]@);
        assert(s.take(i + 1).drop_last() =~= s.take(i as int));
        assert(s.take(i + 1).last() == s[i as int]);
        if same_text(all[i].as_str(), "..") {
            assert(s.contains(".."@));
            return Err("Invalid path".to_owned());
        }
        if !same_text(all[i].as_str(), ".") {
            let ghost before = kept@;
            kept.push(all[i].clone());
            assert(texts(kept@) =~= texts(before).push(s[i as int]));
        }
        i = i + 1;
    }
    assert(s.take(s.len() as int) =~= s);
    Ok(kept)
}

/// The steps as one relative path.
pub open spec fn relative_text(list: Seq<Seq<char>>) -> Seq<char> {
    joined(list, "/"@)
}

/// The steps as one relative path.
pub fn relative_path_to_string(path: &Vec<String>) -> (r: String)
    ensures
        r@ == relative_text(texts(path@)),
{
    join(path, "/")
}

/// The place below `root` that a request names, and the same relative to
/// `root`. Where the request names nothing, it is `root` itself.
pub open spec fn resolved(root: Seq<char>, requested: Option<Seq<char>>) -> Result<
    (Seq<char>, Seq<char>),
    Seq<char>,
> {
    let list = match requested {
        Some(raw) => if trimmed(raw).len() > 0 {
            normalized(raw)
        } else {
            Ok(Seq::empty())
        },
        None => Ok(Seq::empty()),
    };
    match list {
        Ok(s) => Ok((joined_path(root, relative_text(s)), relative_text(s))),
        Err(e) => Err(e),
    }
}

/// The outcome of a resolution by its texts.
pub open spec fn place_outcome(r: Result<(String, String), String>) -> Result<
    (Seq<char>, Seq<char>),
    Seq<char>,
> {
    match r {
        Ok((a, b)) => Ok((a@, b@)),
        Err(e) => Err(e@),
    }
}

/// The place below `instance_root` that a request names, and the same relative
/// to `instance_root`.
pub fn resolve_instance_subpath(instance_root: &str, requested_path: Option<&str>) -> (r: Result<
    (String, String),
    String,
>)
    ensures
        place_outcome(r) == resolved(instance_root@, opt_str(requested_path)),
{
    let relative: Vec<String> = match requested_path {
        Some(raw) => {
            if trim(raw).is_empty() {
                Vec::new()
            } else {
                match normalize_relative_path(raw) {
                    Ok(list) => list,
                    Err(e) => {
                        return Err(e);
                    },
                }
            }
        },
        None => Vec::new(),
    };
    assert(relative@.len() == 0 ==> texts(relative@) =~= Seq::<Seq<char>>::empty());
    let text = relative_path_to_string(&relative);
    Ok((join_path(instance_root, text.as_str()), text))
}

/// Whether the text is a real step down: not empty, without a separator, and
/// neither the place itself nor its parent.
pub open spec fn is_plain_step(s: Seq<char>) -> bool {
    &&& s.len() > 0
    &&& !s.contains('/')
    &&& s != "."@
    &&& s != ".."@
}

proof fn lemma_without_dots(list: Seq<Seq<char>>)
    ensures
        forall|i: int|
            0 <= i < without_dots(list).len() ==> (#[trigger] without_dots(list)[i]) != "."@
                && list.contains(without_dots(list)[i]),
    decreases list.len(),
{
    if list.len() > 0 {
        let front = list.drop_last();
        lemma_without_dots(front);
        let now = without_dots(list);
        assert forall|i: int| 0 <= i < now.len() implies (#[trigger] now[i]) != "."@
            && list.contains(now[i]) by {
            if i < without_dots(front).len() {
                assert(now[i] == without_dots(front)[i]);
                let k = choose|k: int| 0 <= k < front.len() && front[k] == now[i];
                assert(list[k] == now[i]);
            } else {
                assert(list[list.len() - 1] == now[i]);
            }
        }
    }
}

/// Steps that do not stay in place are all kept.
proof fn lemma_without_dots_keeps(list: Seq<Seq<char>>)
    requires
        forall|i: int| 0 <= i < list.len() ==> (#[trigger] list[i]) != "."@,
    ensures
        without_dots(list) == list,
    decreases list.len(),
{
    if list.len() > 0 {
        let front = list.drop_last();
        assert forall|i: int| 0 <= i < front.len() implies (#[trigger] front[i]) != "."@ by {
            assert(list[i] != "."@);
        }
        lemma_without_dots_keeps(front);
        assert(list[list.len() - 1] != "."@);
        assert(list =~= front.push(list.last()));
    }
}

/// Every step that a request names is a real step down.
pub proof fn law_requests_step_down(raw: Seq<char>)
    ensures
        normalized(raw) matches Ok(list) ==> forall|i: int|
            0 <= i < list.len() ==> is_plain_step(#[trigger] list[i]),
{
    if normalized(raw) is Ok {
        let path = cleaned(raw);
        let all = steps(path);
        let list = without_dots(all);
        lemma_parts_hold_no_cut(path, '/');
        lemma_non_empty(parts(path, Cut::At('/')));
        lemma_without_dots(all);
        assert forall|i: int| 0 <= i < list.len() implies is_plain_step(#[trigger] list[i]) by {
            assert(all.contains(list[i]));
            let k = choose|k: int| 0 <= k < all.len() && all[k] == list[i];
            assert(parts(path, Cut::At('/')).contains(all[k]));
            let m = choose|m: int|
                0 <= m < parts(path, Cut::At('/')).len() && parts(path, Cut::At('/'))[m] == all[k];
            assert(!parts(path, Cut::At('/'))[m].contains('/'));
            if list[i] == ".."@ {
                assert(all.contains(".."@));
            }
        }
    }
}

/// The steps of a relative path are the steps that it was made of.
pub proof fn law_steps_of_relative_text(list: Seq<Seq<char>>)
    requires
        forall|i: int|
            0 <= i < list.len() ==> (#[trigger] list[i]).len() > 0 && !list[i].contains('/'),
    ensures
        steps(relative_text(list)) == list,
        relative_text(list).len() > 0 ==> relative_text(list)[0] != '/',
        relative_text(list).len() == 0 <==> list.len() == 0,
{
    reveal_strlit("/");
    assert("/"@ =~= seq!['/']);
    let t = relative_text(list);
    if list.len() == 0 {
        assert(parts(t, Cut::At('/')) =~= seq![Seq::<char>::empty()]);
        let one = seq![Seq::<char>::empty()];
        assert(one.drop_last() =~= Seq::<Seq<char>>::empty());
        assert(non_empty(one) == non_empty(one.drop_last()));
        assert(non_empty(one) =~= list);
    } else {
        law_joined_parts_come_apart(list, '/');
        lemma_non_empty_keeps(list);
        lemma_joined_starts(list, "/"@);
        assert(list[0].contains(list[0][0]));
    }
}

proof fn lemma_joined_starts(list: Seq<Seq<char>>, sep: Seq<char>)
    requires
        list.len() > 0,
        list[0].len() > 0,
    ensures
        joined(list, sep).len() > 0,
        joined(list, sep)[0] == list[0][0],
    decreases list.len(),
{
    if list.len() > 1 {
        lemma_joined_starts(list.drop_last(), sep);
        assert(list.drop_last()[0] == list[0]);
    }
}

/// Whatever a request names, it resolves below the instance's directory: the
/// place starts with that directory, and only real steps down follow.
pub proof fn law_resolved_stays_below(root: Seq<char>, requested: Option<Seq<char>>)
    ensures
        resolved(root, requested) matches Ok((place, rel)) ==> {
            &&& root.is_prefix_of(place)
            &&& place == joined_path(root, rel)
            &&& rel.len() > 0 ==> rel[0] != '/'
            &&& forall|i: int| 0 <= i < steps(rel).len() ==> is_plain_step(#[trigger] steps(rel)[i])
        },
{
    if let Ok((place, rel)) = resolved(root, requested) {
        let list = match requested {
            Some(raw) => if trimmed(raw).len() > 0 {
                law_requests_step_down(raw);
                normalized(raw)->Ok_0
            } else {
                Seq::empty()
            },
            None => Seq::empty(),
        };
        assert forall|i: int| 0 <= i < list.len() implies is_plain_step(#[trigger] list[i]) by {}
        law_steps_of_relative_text(list);
        assert(root =~= place.subrange(0, root.len() as int));
    }
}

/// Steps down, written as a path without white space at its ends and without
/// backslashes, are read as those steps.
proof fn lemma_plain_text_resolves(root: Seq<char>, list: Seq<Seq<char>>)
    requires
        forall|i: int|
            0 <= i < list.len() ==> is_plain_step(#[trigger] list[i]) && !list[i].contains('\\'),
        trimmed(relative_text(list)) == relative_text(list),
    ensures
        resolved(root, Some(relative_text(list))) == Ok::<(Seq<char>, Seq<char>), Seq<char>>(
            (joined_path(root, relative_text(list)), relative_text(list)),
        ),
{
    let rel = relative_text(list);
    law_steps_of_relative_text(list);
    if rel.len() > 0 {
        reveal_strlit("/");
        lemma_joined_holds(list, "/"@, '\\');
        assert(!rel.contains('\\'));
        assert(cleaned(rel) =~= rel) by {
            assert forall|i: int| 0 <= i < rel.len() implies rel[i] != '\\' by {
                assert(rel.contains(rel[i]));
            }
        }
        assert forall|i: int| 0 <= i < list.len() implies (#[trigger] list[i]) != "."@ by {
            assert(is_plain_step(list[i]));
        }
        lemma_without_dots_keeps(list);
        assert(!list.contains(".."@)) by {
            if list.contains(".."@) {
                let k = choose|k: int| 0 <= k < list.len() && list[k] == ".."@;
                assert(is_plain_step(list[k]));
            }
        }
        assert(normalized(rel) == Ok::<Seq<Seq<char>>, Seq<char>>(list));
    } else {
        assert(rel =~= Seq::<char>::empty());
        assert(list =~= Seq::<Seq<char>>::empty());
    }
}

/// A relative path that the panel handed out names the same place when it comes
/// back, unless it starts or ends with white space.
pub proof fn law_relative_path_comes_back(root: Seq<char>, requested: Option<Seq<char>>)
    ensures
        resolved(root, requested) matches Ok((place, rel)) ==> (trimmed(rel) == rel ==> resolved(
            root,
            Some(rel),
        ) == Ok::<(Seq<char>, Seq<char>), Seq<char>>((place, rel))),
{
    if let Ok((place, rel)) = resolved(root, requested) {
        if trimmed(rel) == rel {
            let list = lemma_resolved_steps(root, requested);
            lemma_plain_text_resolves(root, list);
        }
    }
}

/// An entry that is shown in a directory can be opened by the path that it is shown
/// with: the path leads to the entry. The exceptions are a name with a backslash,
/// and a path with white space at an end.
pub proof fn law_shown_entry_can_be_opened(
    root: Seq<char>,
    requested: Option<Seq<char>>,
    name: Seq<char>,
)
    requires
        is_plain_step(name),
        !name.contains('\\'),
    ensures
        resolved(root, requested) matches Ok((place, rel)) ==> (trimmed(below(rel, name)) == below(
            rel,
            name,
        ) ==> resolved(root, Some(below(rel, name))) == Ok::<(Seq<char>, Seq<char>), Seq<char>>(
            (joined_path(place, name), below(rel, name)),
        )),
{
    if let Ok((place, rel)) = resolved(root, requested) {
        if trimmed(below(rel, name)) == below(rel, name) {
            let list = lemma_resolved_steps(root, requested);
            let more = list.push(name);
            law_step_from_requested_place(root, requested, name);
            law_steps_of_relative_text(list);
            assert(more.drop_last() =~= list);
            if list.len() == 0 {
                assert(rel =~= Seq::<char>::empty());
                assert(more =~= seq![name]);
            }
            assert(relative_text(more) =~= below(rel, name));
            assert forall|i: int| 0 <= i < more.len() implies is_plain_step(#[trigger] more[i])
                && !more[i].contains('\\') by {
                if i < list.len() {
                    assert(is_plain_step(list[i]));
                }
            }
            lemma_plain_text_resolves(root, more);
        }
    }
}

proof fn lemma_normalized_has_no_backslash(raw: Seq<char>)
    ensures
        normalized(raw) matches Ok(list) ==> forall|i: int|
            0 <= i < list.len() ==> !(#[trigger] list[i]).contains('\\'),
{
    if let Ok(list) = normalized(raw) {
        let path = cleaned(raw);
        let all = steps(path);
        lemma_without_dots(all);
        lemma_non_empty(parts(path, Cut::At('/')));
        lemma_parts_from_text(path, Cut::At('/'), '\\');
        assert(!path.contains('\\'));
        assert forall|i: int| 0 <= i < list.len() implies !(#[trigger] list[i]).contains('\\') by {
            assert(all.contains(list[i]));
            let k = choose|k: int| 0 <= k < all.len() && all[k] == list[i];
            assert(parts(path, Cut::At('/')).contains(all[k]));
            let m = choose|m: int|
                0 <= m < parts(path, Cut::At('/')).len() && parts(path, Cut::At('/'))[m] == all[k];
            assert(!parts(path, Cut::At('/'))[m].contains('\\'));
        }
    }
}

/// The parts of a text hold only characters of the text.
proof fn lemma_parts_from_text(s: Seq<char>, cut: Cut, c: char)
    requires
        !s.contains(c),
    ensures
        forall|i: int| 0 <= i < parts(s, cut).len() ==> !(#[trigger] parts(s, cut)[i]).contains(c),
    decreases s.len(),
{
    crate::text::lemma_parts_nonempty(s, cut);
    if s.len() == 0 {
        assert(!Seq::<char>::empty().contains(c));
    } else {
        let before = parts(s.drop_last(), cut);
        crate::text::lemma_parts_nonempty(s.drop_last(), cut);
        assert(!s.drop_last().contains(c)) by {
            if s.drop_last().contains(c) {
                let k = choose|k: int| 0 <= k < s.drop_last().len() && s.drop_last()[k] == c;
                assert(s[k] == c);
            }
        }
        lemma_parts_from_text(s.drop_last(), cut, c);
        let now = parts(s, cut);
        assert(s.contains(s.last()));
        assert forall|i: int| 0 <= i < now.len() implies !(#[trigger] now[i]).contains(c) by {
            if cut.ends_part(s.last()) {
                if i < before.len() {
                    assert(now[i] == before[i]);
                }
            } else if i < before.len() - 1 {
                assert(now[i] == before[i]);
            } else {
                let old_last = before[before.len() - 1];
                assert(!old_last.contains(c));
                assert(now[i] =~= old_last.push(s.last()));
                if now[i].contains(c) {
                    let k = choose|k: int| 0 <= k < now[i].len() && now[i][k] == c;
                    assert(old_last[k] == c);
                }
            }
        }
    }
}

/// A joined text holds only what its parts and the separator hold.
proof fn lemma_joined_holds(list: Seq<Seq<char>>, sep: Seq<char>, c: char)
    requires
        !sep.contains(c),
        forall|i: int| 0 <= i < list.len() ==> !(#[trigger] list[i]).contains(c),
    ensures
        !joined(list, sep).contains(c),
    decreases list.len(),
{
    if list.len() == 1 {
        assert(!list[0].contains(c));
    } else if list.len() > 1 {
        let front = list.drop_last();
        assert forall|i: int| 0 <= i < front.len() implies !(#[trigger] front[i]).contains(c) by {
            assert(!list[i].contains(c));
        }
        lemma_joined_holds(front, sep, c);
        let a = joined(front, sep);
        let t = joined(list, sep);
        assert(!list[list.len() - 1].contains(c));
        if t.contains(c) {
            let k = choose|k: int| 0 <= k < t.len() && t[k] == c;
            if k < a.len() {
                assert(a[k] == c);
            } else if k < a.len() + sep.len() {
                assert(sep[k - a.len()] == c);
            } else {
                assert(list.last()[k - a.len() - sep.len()] == c);
            }
        }
    }
}

/// The name of the file that a path leads to: its last step, unless the path has
/// none or ends with a step up.
pub open spec fn file_name(path: Seq<char>) -> Option<Seq<char>> {
    let list = without_dots(steps(path));
    if list.len() == 0 || list.last() == ".."@ {
        None
    } else {
        Some(list.last())
    }
}

/// The name of the file that the path leads to.
pub fn path_file_name(path: &str) -> (r: Option<String>)
    ensures
        opt_text(r) == file_name(path@),
{
    let all = path_steps(path);
    let ghost s = steps(path@);
    let mut n: usize = all.len();
    assert(s.take(n as int) =~= s);
    while n > 0
        invariant
            n <= all.len(),
            s == steps(path@),
            texts(all@) == s,
            without_dots(s.take(n as int)) == without_dots(s),
        decreases n,
    {
        assert(s.take(n as int).last() == all@[n - 1]@);
        assert(s.take(n as int).drop_last() =~= s.take(n - 1));
        if same_text(all[n - 1].as_str(), ".") {
            n = n - 1;
        } else {
            if same_text(all[n - 1].as_str(), "..") {
                return None;
            }
            return Some(all[n - 1].clone());
        }
    }
    None
}

/// The steps of a path below another are the steps of both.
pub proof fn law_steps_of_joined_path(root: Seq<char>, rel: Seq<char>)
    requires
        rel.len() > 0,
        rel[0] != '/',
    ensures
        steps(joined_path(root, rel)) == steps(root) + steps(rel),
{
    reveal_strlit("/");
    let cut = Cut::At('/');
    let nothing = Seq::<char>::empty();
    assert(parts(nothing, cut) =~= seq![nothing]);
    assert(non_empty(seq![nothing]) =~= Seq::<Seq<char>>::empty()) by {
        assert(seq![nothing].drop_last() =~= Seq::<Seq<char>>::empty());
        assert(non_empty(seq![nothing]) == non_empty(seq![nothing].drop_last()));
    }
    if root.len() == 0 {
        assert(root =~= nothing);
        assert(joined_path(root, rel) =~= rel);
        assert(steps(root) + steps(rel) =~= steps(rel));
    } else if root.last() == '/' {
        let front = root.drop_last();
        assert(root =~= front + seq!['/'] + nothing);
        assert(joined_path(root, rel) =~= front + seq!['/'] + rel);
        lemma_parts_concat(front, '/', nothing, cut);
        lemma_parts_concat(front, '/', rel, cut);
        lemma_non_empty_concat(parts(front, cut), parts(nothing, cut));
        lemma_non_empty_concat(parts(front, cut), parts(rel, cut));
        assert(steps(root) =~= non_empty(parts(front, cut)));
    } else {
        assert(joined_path(root, rel) =~= root + seq!['/'] + rel);
        lemma_parts_concat(root, '/', rel, cut);
        lemma_non_empty_concat(parts(root, cut), parts(rel, cut));
    }
}

/// Whether the text is a way down from a directory: one real step or more.
pub open spec fn is_way_down(rel: Seq<char>) -> bool {
    &&& rel.len() > 0
    &&& rel[0] != '/'
    &&& steps(rel).len() > 0
    &&& forall|i: int| 0 <= i < steps(rel).len() ==> is_plain_step(#[trigger] steps(rel)[i])
}

/// A place that a request names, other than the instance's own directory, is a way
/// down from there, and its file name is the last step of that way.
pub proof fn law_requested_place_is_below(root: Seq<char>, requested: Option<Seq<char>>)
    ensures
        resolved(root, requested) matches Ok((place, rel)) ==> (rel.len() > 0 ==> {
            &&& is_way_down(rel)
            &&& place == joined_path(root, rel)
            &&& file_name(place) == Some(steps(rel).last())
        }),
{
    if let Ok((place, rel)) = resolved(root, requested) {
        if rel.len() > 0 {
            let list = lemma_resolved_steps(root, requested);
            law_steps_of_relative_text(list);
            law_steps_of_joined_path(root, rel);
            let all = steps(root) + list;
            let last = list.last();
            assert(is_plain_step(list[list.len() - 1]));
            assert(all.last() == last);
            assert(without_dots(all).last() == last);
        }
    }
}

/// The steps that a request names.
proof fn lemma_resolved_steps(root: Seq<char>, requested: Option<Seq<char>>) -> (list: Seq<Seq<char>>)
    requires
        resolved(root, requested) is Ok,
    ensures
        resolved(root, requested)->Ok_0.1 == relative_text(list),
        forall|i: int|
            0 <= i < list.len() ==> is_plain_step(#[trigger] list[i]) && !list[i].contains('\\'),
{
    match requested {
        Some(raw) => if trimmed(raw).len() > 0 {
            law_requests_step_down(raw);
            lemma_normalized_has_no_backslash(raw);
            normalized(raw)->Ok_0
        } else {
            Seq::empty()
        },
        None => Seq::empty(),
    }
}

/// One real step down from a place that a request names is a way down from the
/// instance's directory, and ends with that step.
pub proof fn law_step_from_requested_place(
    root: Seq<char>,
    requested: Option<Seq<char>>,
    name: Seq<char>,
)
    requires
        is_plain_step(name),
    ensures
        resolved(root, requested) matches Ok((place, rel)) ==> {
            &&& is_way_down(below(rel, name))
            &&& joined_path(place, name) == joined_path(root, below(rel, name))
            &&& steps(below(rel, name)).last() == name
        },
{
    if let Ok((place, rel)) = resolved(root, requested) {
        let list = lemma_resolved_steps(root, requested);
        let more = list.push(name);
        reveal_strlit("/");
        assert(more.drop_last() =~= list);
        assert forall|i: int| 0 <= i < more.len() implies is_plain_step(#[trigger] more[i]) by {
            if i < list.len() {
                assert(is_plain_step(list[i]));
            }
        }
        law_steps_of_relative_text(list);
        law_steps_of_relative_text(more);
        if list.len() == 0 {
            assert(rel =~= Seq::<char>::empty());
            assert(more =~= seq![name]);
        }
        assert(relative_text(more) =~= below(rel, name));
        assert(name.contains(name[0]));
        assert(rel.len() > 0 ==> rel.last() != '/') by {
            if rel.len() > 0 {
                lemma_joined_ends(list, "/"@);
                let last = list.last();
                assert(is_plain_step(list[list.len() - 1]));
                assert(last.contains(last[last.len() - 1]));
            }
        }
        assert(joined_path(place, name) =~= joined_path(root, below(rel, name)));
    }
}

proof fn lemma_joined_ends(list: Seq<Seq<char>>, sep: Seq<char>)
    requires
        list.len() > 0,
        list.last().len() > 0,
    ensures
        joined(list, sep).len() > 0,
        joined(list, sep).last() == list.last().last(),
{
}

/// Whether the path leads to the file that holds an instance's identity.
pub open spec fn is_protected(path: Seq<char>) -> bool {
    file_name(path) == Some(INSTANCE_ID_FILENAME@)
}

/// Whether the path leads to the file that holds an instance's identity.
pub fn leads_to_identity(path: &str) -> (r: bool)
    ensures
        r == is_protected(path@),
{
    match path_file_name(path) {
        Some(name) => same_text(name.as_str(), INSTANCE_ID_FILENAME),
        None => false,
    }
}

/// The name under which an uploaded file is stored: the last step of the name it
/// came with, trimmed; none where nothing is left of it.
pub open spec fn upload_name(raw: Seq<char>) -> Option<Seq<char>> {
    match file_name(trimmed(raw)) {
        Some(base) => {
            let name = trimmed(base);
            if name.len() == 0 || name == "."@ || name == ".."@ {
                None
            } else {
                Some(name)
            }
        },
        None => None,
    }
}

/// The name under which an uploaded file is stored.
pub fn sanitize_upload_filename(raw_name: &str) -> (r: Option<String>)
    ensures
        opt_text(r) == upload_name(raw_name@),
{
    match path_file_name(trim(raw_name)) {
        Some(base) => {
            let name = trim(base.as_str());
            if name.is_empty() || same_text(name, ".") || same_text(name, "..") {
                None
            } else {
                Some(name.to_owned())
            }
        },
        None => None,
    }
}

/// A name under which an uploaded file is stored is one real step down.
pub proof fn law_upload_name_is_one_step(raw: Seq<char>)
    ensures
        upload_name(raw) matches Some(name) ==> is_plain_step(name),
{
    let path = trimmed(raw);
    let all = steps(path);
    let list = without_dots(all);
    lemma_without_dots(all);
    lemma_non_empty(parts(path, Cut::At('/')));
    lemma_parts_hold_no_cut(path, '/');
    if let Some(name) = upload_name(raw) {
        let base = list.last();
        assert(list[list.len() - 1] == base);
        assert(all.contains(base));
        let k = choose|k: int| 0 <= k < all.len() && all[k] == base;
        assert(parts(path, Cut::At('/')).contains(all[k]));
        let m = choose|m: int|
            0 <= m < parts(path, Cut::At('/')).len() && parts(path, Cut::At('/'))[m] == all[k];
        assert(!parts(path, Cut::At('/'))[m].contains('/'));
        lemma_trimmed(base);
        assert(!name.contains('/'));
    }
}

/// The name under which an uploaded file is stored is kept when the file comes with
/// that name.
pub proof fn law_upload_name_is_kept(raw: Seq<char>)
    ensures
        upload_name(raw) matches Some(name) ==> upload_name(name) == Some(name),
{
    if let Some(name) = upload_name(raw) {
        law_upload_name_is_one_step(raw);
        let base = file_name(trimmed(raw))->0;
        lemma_trimmed(base);
        lemma_trimmed_already(name);
        let cut = Cut::At('/');
        assert forall|i: int| 0 <= i < name.len() implies !cut.ends_part(#[trigger] name[i]) by {
            assert(name.contains(name[i]));
        }
        lemma_parts_single(name, cut);
        let one = seq![name];
        assert(one.drop_last() =~= Seq::<Seq<char>>::empty());
        lemma_non_empty_keeps(one);
        assert(steps(name) == one);
        assert(without_dots(one) == without_dots(one.drop_last()).push(name));
        assert(without_dots(one).last() == name);
    }
}

/// The relative path one step up, where there is a step to go up.
pub open spec fn parent_of(path: Seq<char>) -> Option<Seq<char>> {
    if steps(path).len() == 0 {
        None
    } else {
        Some(relative_text(steps(path).drop_last()))
    }
}

/// The relative path one step up, where there is a step to go up.
pub fn parent_relative_path(path: &str) -> (r: Option<String>)
    ensures
        opt_text(r) == parent_of(path@),
{
    let mut list = path_steps(path);
    let ghost all = list@;
    match list.pop() {
        Some(_) => {
            assert(texts(list@) =~= texts(all).drop_last());
            Some(relative_path_to_string(&list))
        },
        None => None,
    }
}

/// One link of the trail from an instance's directory to a place below it.
#[derive(Debug, PartialEq, Eq)]
pub struct FileBreadcrumb {
    pub label: String,
    pub path: String,
    pub is_current: bool,
}

/// The trail from an instance's directory to a place below it: a link for the
/// directory and one for each step, the last one marked as current.
pub open spec fn is_trail(r: Seq<FileBreadcrumb>, path: Seq<char>) -> bool {
    let list = steps(path);
    &&& r.len() == list.len() + 1
    &&& r[0].label@ == "root"@
    &&& r[0].path@ == Seq::<char>::empty()
    &&& forall|i: int|
        0 < i < r.len() ==> (#[trigger] r[i]).label@ == list[i - 1] && r[i].path@ == relative_text(
            list.take(i),
        )
    &&& forall|i: int| 0 <= i < r.len() ==> (#[trigger] r[i]).is_current == (i == r.len() - 1)
}

/// The trail from an instance's directory to the place.
pub fn build_file_breadcrumbs(current_path: &str) -> (r: Vec<FileBreadcrumb>)
    ensures
        is_trail(r@, current_path@),
{
    let list = path_steps(current_path);
    let n: usize = list.len();
    let ghost s = steps(current_path@);
    let mut crumbs: Vec<FileBreadcrumb> = Vec::new();
    crumbs.push(
        FileBreadcrumb { label: "root".to_owned(), path: String::new(), is_current: n == 0 },
    );
    let mut walked: Vec<String> = Vec::new();
    let mut i: usize = 0;
    while i < n
        invariant
            i <= n,
            n == list@.len(),
            texts(list@) == s,
            texts(walked@) =~= s.take(i as int),
            crumbs@.len() == i + 1,
            crumbs@[0].label@ == "root"@,
            crumbs@[0].path@ == Seq::<char>::empty(),
            forall|k: int|
                0 < k < crumbs@.len() ==> (#[trigger] crumbs@[k]).label@ == s[k - 1]
                    && crumbs@[k].path@ == relative_text(s.take(k)),
            forall|k: int|
                0 <= k < crumbs@.len() ==> (#[trigger] crumbs@[k]).is_current == (k == n),
        decreases n - i,
    {
        let ghost before = walked@;
        walked.push(list[i].clone());
        assert(texts(walked@) =~= s.take(i + 1)) by {
            assert(texts(walked@) =~= texts(before).push(s[i as int]));
            assert(s.take(i + 1) =~= s.take(i as int).push(s[i as int]));
        }
        crumbs.push(
            FileBreadcrumb {
                label: list[i].clone(),
                path: relative_path_to_string(&walked),
                is_current: i + 1 == n,
            },
        );
        i = i + 1;
    }
    crumbs
}

/// The steps of a path are not empty and hold no separator.
proof fn lemma_steps(path: Seq<char>)
    ensures
        forall|k: int|
            0 <= k < steps(path).len() ==> (#[trigger] steps(path)[k]).len() > 0 && !steps(
                path,
            )[k].contains('/'),
{
    let all = parts(path, Cut::At('/'));
    lemma_parts_hold_no_cut(path, '/');
    lemma_non_empty(all);
    assert forall|k: int| 0 <= k < steps(path).len() implies (#[trigger] steps(path)[k]).len() > 0
        && !steps(path)[k].contains('/') by {
        assert(all.contains(steps(path)[k]));
        let m = choose|m: int| 0 <= m < all.len() && all[m] == steps(path)[k];
        assert(!all[m].contains('/'));
    }
}

/// Each link of a trail leads one step up from the link after it.
pub proof fn law_trail_leads_up(path: Seq<char>, i: int)
    requires
        0 <= i < steps(path).len(),
    ensures
        parent_of(relative_text(steps(path).take(i + 1))) == Some(
            relative_text(steps(path).take(i)),
        ),
{
    let list = steps(path);
    let upto = list.take(i + 1);
    lemma_steps(path);
    assert forall|k: int| 0 <= k < upto.len() implies (#[trigger] upto[k]).len() > 0
        && !upto[k].contains('/') by {
        assert(upto[k] == list[k]);
    }
    law_steps_of_relative_text(upto);
    assert(upto.drop_last() =~= list.take(i));
}

/// One entry of a directory, as the host lists it. The name is missing where it
/// is not text; the size is missing where it could not be read.
#[derive(Debug, PartialEq, Eq)]
pub struct ListedEntry<T> {
    pub name: Option<T>,
    pub is_directory: bool,
    pub size: Option<u64>,
}

/// One entry of a directory, as the panel shows it.
#[derive(Debug, PartialEq, Eq)]
pub struct InstanceFileEntry<T> {
    pub name: T,
    pub is_directory: bool,
    pub size_label: T,
    pub relative_path: T,
}

impl View for ListedEntry<String> {
    type V = ListedEntry<Seq<char>>;

    open spec fn view(&self) -> ListedEntry<Seq<char>> {
        ListedEntry {
            name: opt_text(self.name),
            is_directory: self.is_directory,
            size: self.size,
        }
    }
}

impl View for InstanceFileEntry<String> {
    type V = InstanceFileEntry<Seq<char>>;

    open spec fn view(&self) -> InstanceFileEntry<Seq<char>> {
        InstanceFileEntry {
            name: self.name@,
            is_directory: self.is_directory,
            size_label: self.size_label@,
            relative_path: self.relative_path@,
        }
    }
}

impl Ranked for InstanceFileEntry<String> {
    /// Directories stand before files; among each, names go by their lower case.
    open spec fn at_most(a: InstanceFileEntry<Seq<char>>, b: InstanceFileEntry<Seq<char>>) -> bool {
        if a.is_directory != b.is_directory {
            a.is_directory
        } else {
            text_at_most(lower_text(a.name), lower_text(b.name))
        }
    }

    fn is_at_most(&self, other: &Self) -> (b: bool) {
        if self.is_directory != other.is_directory {
            self.is_directory
        } else {
            let x = self.name.as_str().to_lowercase();
            let y = other.name.as_str().to_lowercase();
            text_is_at_most(x.as_str(), y.as_str())
        }
    }

    proof fn order_is_total(
        a: InstanceFileEntry<Seq<char>>,
        b: InstanceFileEntry<Seq<char>>,
    ) {
        lemma_text_order_total(lower_text(a.name), lower_text(b.name));
    }

    proof fn order_is_transitive(
        a: InstanceFileEntry<Seq<char>>,
        b: InstanceFileEntry<Seq<char>>,
        c: InstanceFileEntry<Seq<char>>,
    ) {
        if a.is_directory == b.is_directory && b.is_directory == c.is_directory {
            lemma_text_order_transitive(lower_text(a.name), lower_text(b.name), lower_text(c.name));
        }
    }
}

/// `name` taken below the relative path `dir`.
pub open spec fn below(dir: Seq<char>, name: Seq<char>) -> Seq<char> {
    if dir.len() == 0 {
        name
    } else {
        dir + "/"@ + name
    }
}

/// `name` taken below the relative path `dir`.
pub fn path_below(dir: &str, name: &str) -> (r: String)
    ensures
        r@ == below(dir@, name@),
{
    if dir.is_empty() {
        name.to_owned()
    } else {
        cat3(dir, "/", name)
    }
}

/// The entry as it is shown below `dir`, unless it is not shown: one without a
/// name in text, and the file with the identity.
pub open spec fn shown_entry(e: ListedEntry<Seq<char>>, dir: Seq<char>) -> Option<
    InstanceFileEntry<Seq<char>>,
> {
    match e.name {
        Some(name) => if name == INSTANCE_ID_FILENAME@ {
            None
        } else {
            Some(
                InstanceFileEntry {
                    name,
                    is_directory: e.is_directory,
                    size_label: if e.is_directory {
                        "-"@
                    } else {
                        match e.size {
                            Some(n) => human_size(n as nat),
                            None => "--"@,
                        }
                    },
                    relative_path: below(dir, name),
                },
            )
        },
        None => None,
    }
}

/// The entries that are shown, in the order in which they were listed.
pub open spec fn shown_entries(list: Seq<ListedEntry<Seq<char>>>, dir: Seq<char>) -> Seq<
    InstanceFileEntry<Seq<char>>,
>
    decreases list.len(),
{
    if list.len() == 0 {
        Seq::empty()
    } else {
        let before = shown_entries(list.drop_last(), dir);
        match shown_entry(list.last(), dir) {
            Some(e) => before.push(e),
            None => before,
        }
    }
}

/// The entry as it is shown below `dir`, unless it is not shown.
fn show_entry(e: &ListedEntry<String>, dir: &str) -> (r: Option<InstanceFileEntry<String>>)
    ensures
        match r {
            Some(x) => shown_entry(e@, dir@) == Some(x@),
            None => shown_entry(e@, dir@) is None,
        },
{
    match &e.name {
        Some(name) => {
            if same_text(name.as_str(), INSTANCE_ID_FILENAME) {
                return None;
            }
            let size_label = if e.is_directory {
                "-".to_owned()
            } else {
                match e.size {
                    Some(n) => format_bytes(n),
                    None => "--".to_owned(),
                }
            };
            Some(
                InstanceFileEntry {
                    name: name.clone(),
                    is_directory: e.is_directory,
                    size_label,
                    relative_path: path_below(dir, name.as_str()),
                },
            )
        },
        None => None,
    }
}

/// The entries of a directory as the panel shows them: directories first, each
/// kind by name without regard to case.
pub fn collect_instance_entries(listed: &Vec<ListedEntry<String>>, current_path: &str) -> (r: Vec<
    InstanceFileEntry<String>,
>)
    ensures
        views(r@) == sorted::<InstanceFileEntry<String>>(
            shown_entries(views(listed@), current_path@),
        ),
{
    let mut out: Vec<InstanceFileEntry<String>> = Vec::new();
    let mut i: usize = 0;
    let ghost all = views(listed@);
    assert(views(out@) =~= shown_entries(all.take(0), current_path@));
    while i < listed.len()
        invariant
            i <= listed.len(),
            all == views(listed@),
            views(out@) == shown_entries(all.take(i as int), current_path@),
        decreases listed.len() - i,
    {
        assert(all.take(i + 1).drop_last() =~= all.take(i as int));
        assert(all.take(i + 1).last() == listed@[i as int]@);
        if let Some(e) = show_entry(&listed[i], current_path) {
            let ghost before = out@;
            out.push(e);
            assert(views(out@) =~= views(before).push(e@));
        }
        i = i + 1;
    }
    assert(all.take(listed@.len() as int) =~= all);
    sort_stable(out)
}

/// The file with the identity is never among the entries that are shown.
pub proof fn law_identity_is_not_shown(list: Seq<ListedEntry<Seq<char>>>, dir: Seq<char>)
    ensures
        forall|i: int|
            0 <= i < shown_entries(list, dir).len() ==> (#[trigger] shown_entries(
                list,
                dir,
            )[i]).name != INSTANCE_ID_FILENAME@,
    decreases list.len(),
{
    if list.len() > 0 {
        law_identity_is_not_shown(list.drop_last(), dir);
        let before = shown_entries(list.drop_last(), dir);
        let now = shown_entries(list, dir);
        assert forall|i: int| 0 <= i < now.len() implies (#[trigger] now[i]).name
            != INSTANCE_ID_FILENAME@ by {
            if i < before.len() {
                assert(now[i] == before[i]);
            }
        }
    }
}

/// How many of the entries are directories.
pub open spec fn directory_count(list: Seq<InstanceFileEntry<Seq<char>>>) -> nat
    decreases list.len(),
{
    if list.len() == 0 {
        0
    } else {
        directory_count(list.drop_last()) + (if list.last().is_directory {
            1nat
        } else {
            0nat
        })
    }
}

/// How many of the entries are directories, and how many are not.
pub fn count_entries(entries: &Vec<InstanceFileEntry<String>>) -> (r: (usize, usize))
    ensures
        r.0 == directory_count(views(entries@)),
        r.0 + r.1 == entries@.len(),
{
    let mut dirs: usize = 0;
    let mut i: usize = 0;
    let ghost all = views(entries@);
    while i < entries.len()
        invariant
            i <= entries.len(),
            all == views(entries@),
            dirs == directory_count(all.take(i as int)),
            dirs <= i,
        decreases entries.len() - i,
    {
        assert(all.take(i + 1).drop_last() =~= all.take(i as int));
        assert(all.take(i + 1).last() == entries@[i as int]@);
        if entries[i].is_directory {
            dirs = dirs + 1;
        }
        i = i + 1;
    }
    assert(all.take(entries@.len() as int) =~= all);
    (dirs, entries.len() - dirs)
}

/// The name that a download is offered under: the file's own, without quotes.
pub open spec fn download_name(path: Seq<char>) -> Seq<char> {
    match file_name(path) {
        Some(name) => without(name, '"'),
        None => "download.bin"@,
    }
}

/// The header that offers a download under the file's name.
pub open spec fn disposition(path: Seq<char>) -> Seq<char> {
    "attachment; filename=\""@ + download_name(path) + "\""@
}

/// The header that offers a download under the file's name.
pub fn content_disposition(path: &str) -> (r: String)
    ensures
        r@ == disposition(path@),
{
    let name = match path_file_name(path) {
        Some(name) => remove_char(name.as_str(), '"'),
        None => "download.bin".to_owned(),
    };
    cat3("attachment; filename=\"", name.as_str(), "\"")
}

/// A name is joined to a directory with one separator between them; a path from the top
/// of the tree stays what it is.
pub proof fn law_joined_path(base: Seq<char>, rel: Seq<char>)
    ensures
        rel.len() > 0 && rel[0] == '/' ==> joined_path(base, rel) == rel,
        rel.len() > 0 && rel[0] != '/' && base.len() > 0 && base.last() != '/' ==> joined_path(
            base,
            rel,
        ) == base + seq!['/'] + rel,
        rel.len() > 0 && rel[0] != '/' && base.len() > 0 && base.last() == '/' ==> joined_path(
            base,
            rel,
        ) == base + rel,
        base.len() == 0 ==> joined_path(base, rel) == rel,
        base.is_prefix_of(joined_path(base, rel)) || rel.len() > 0 && rel[0] == '/',
{
    reveal_strlit("/");
    assert("/"@ =~= seq!['/']);
    if base.len() == 0 {
        assert(base + rel =~= rel);
    }
    assert((base + rel).subrange(0, base.len() as int) =~= base);
    assert((base + "/"@ + rel).subrange(0, base.len() as int) =~= base);
}

/// The steps of a path are what its separators leave between them.
pub proof fn law_steps(a: Seq<char>, b: Seq<char>)
    ensures
        steps(Seq::empty()) == Seq::<Seq<char>>::empty(),
        a.len() > 0 && !a.contains('/') ==> steps(a) == seq![a],
        steps(a + seq!['/'] + b) == steps(a) + steps(b),
{
    reveal_with_fuel(crate::text::non_empty, 2);
    let e = Seq::<char>::empty();
    let cut = Cut::At('/');
    assert(parts(e, cut) =~= seq![e]);
    assert(seq![e].drop_last() =~= Seq::<Seq<char>>::empty());
    assert(steps(e) =~= Seq::<Seq<char>>::empty());
    if a.len() > 0 && !a.contains('/') {
        assert forall|i: int| 0 <= i < a.len() implies !cut.ends_part(#[trigger] a[i]) by {
            assert(a.contains(a[i]));
        }
        lemma_parts_single(a, cut);
        lemma_non_empty_keeps(seq![a]);
    }
    lemma_parts_concat(a, '/', b, cut);
    lemma_non_empty_concat(parts(a, cut), parts(b, cut));
}

proof fn lemma_dots_are_filtered(list: Seq<Seq<char>>)
    ensures
        without_dots(list) == list.filter(|s: Seq<char>| s != "."@),
    decreases list.len(),
{
    reveal(Seq::filter);
    if list.len() > 0 {
        lemma_dots_are_filtered(list.drop_last());
    } else {
        assert(without_dots(list) =~= list.filter(|s: Seq<char>| s != "."@));
    }
}

/// A path that a request names is read from its trimmed text, with a separator for each
/// backslash. It is refused where it starts at the top of the tree, and where it steps
/// up; else it leads down its steps, without those that stay in place.
pub proof fn law_request_is_normalized(raw: Seq<char>)
    ensures
        ({
            let path = replaced(trimmed(raw), '\\', '/');
            normalized(raw) == if path.len() > 0 && path[0] == '/' {
                Err("Absolute paths are not allowed"@)
            } else if (exists|i: int| 0 <= i < steps(path).len() && #[trigger] steps(path)[i] == ".."@) {
                Err("Invalid path"@)
            } else {
                Ok(steps(path).filter(|s: Seq<char>| s != "."@))
            }
        }),
{
    let path = replaced(trimmed(raw), '\\', '/');
    lemma_dots_are_filtered(steps(path));
}

/// A request without a path is for the instance's own directory, and one with a path is
/// for the place that this leads to from there; both are told as text, and as a relative
/// path.
pub proof fn law_request_is_resolved(root: Seq<char>, raw: Seq<char>)
    ensures
        resolved(root, None) == Ok::<(Seq<char>, Seq<char>), Seq<char>>(
            (joined_path(root, Seq::empty()), Seq::empty()),
        ),
        trimmed(raw).len() == 0 ==> resolved(root, Some(raw)) == resolved(root, None),
        trimmed(raw).len() > 0 ==> resolved(root, Some(raw)) == match normalized(raw) {
            Ok(list) => Ok((joined_path(root, joined(list, "/"@)), joined(list, "/"@))),
            Err(e) => Err(e),
        },
{
}

/// The name of the file that a path leads to is its last step that does not stay in
/// place, unless that steps up.
pub proof fn law_file_name(dir: Seq<char>, name: Seq<char>, path: Seq<char>)
    ensures
        is_plain_step(name) ==> file_name(name) == Some(name) && file_name(dir + seq!['/'] + name)
            == Some(name),
        file_name(dir + seq!['/'] + "."@) == file_name(dir),
        file_name(path) is None <==> steps(path).filter(|s: Seq<char>| s != "."@).len() == 0
            || steps(path).filter(|s: Seq<char>| s != "."@).last() == ".."@,
{
    lemma_dots_are_filtered(steps(path));
    law_steps(dir, name);
    law_steps(name, name);
    law_steps(dir, "."@);
    reveal_strlit(".");
    assert("."@ =~= seq!['.']);
    assert(!"."@.contains('/'));
    law_steps("."@, name);
    let s = steps(dir);
    let t = s + seq!["."@];
    assert(t.drop_last() =~= s);
    assert(t.last() == "."@);
    if is_plain_step(name) {
        let u = s + seq![name];
        assert(u.drop_last() =~= s);
        assert(u.last() == name);
        let v = seq![name];
        assert(v.last() == name);
        assert(without_dots(v).last() == name);
        assert(without_dots(u).last() == name);
    }
}

/// A file is protected exactly where its name is that of the identity file.
pub proof fn law_identity_file_is_protected(dir: Seq<char>, name: Seq<char>, path: Seq<char>)
    ensures
        is_protected(path) <==> file_name(path) == Some(".minara_instance_id"@),
        is_plain_step(name) ==> (is_protected(dir + seq!['/'] + name) <==> name
            == ".minara_instance_id"@),
{
    law_file_name(dir, name, path);
}

/// A file is stored under the last step of the name that it comes with, trimmed.
pub proof fn law_upload_goes_by_its_file_name(raw: Seq<char>)
    ensures
        upload_name(raw) == match file_name(trimmed(raw)) {
            Some(base) => if trimmed(base).len() == 0 || trimmed(base) == "."@ || trimmed(base)
                == ".."@ {
                None
            } else {
                Some(trimmed(base))
            },
            None => None,
        },
        is_plain_step(raw) && trimmed(raw) == raw ==> upload_name(raw) == Some(raw),
{
    if is_plain_step(raw) && trimmed(raw) == raw {
        law_file_name(raw, raw, raw);
    }
}

/// One step up from a path is the path without its last step.
pub proof fn law_parent(list: Seq<Seq<char>>, name: Seq<char>)
    requires
        forall|i: int|
            0 <= i < list.len() ==> (#[trigger] list[i]).len() > 0 && !list[i].contains('/'),
        name.len() > 0,
        !name.contains('/'),
    ensures
        parent_of(joined(list.push(name), "/"@)) == Some(joined(list, "/"@)),
        parent_of(Seq::empty()) is None,
{
    let all = list.push(name);
    assert forall|i: int| 0 <= i < all.len() implies (#[trigger] all[i]).len() > 0
        && !all[i].contains('/') by {
        if i < list.len() {
            assert(all[i] == list[i]);
        }
    }
    law_steps_of_relative_text(all);
    assert(all.drop_last() =~= list);
    law_steps(Seq::empty(), Seq::empty());
}

/// A trail leads from the root to the path, one link for each step, and only the last
/// link is where one is.
pub proof fn law_trail(r: Seq<FileBreadcrumb>, path: Seq<char>, i: int)
    requires
        is_trail(r, path),
        0 <= i <= steps(path).len(),
    ensures
        r.len() == steps(path).len() + 1,
        r[i].label@ == if i == 0 {
            "root"@
        } else {
            steps(path)[i - 1]
        },
        r[i].path@ == joined(steps(path).take(i), "/"@),
        r[i].is_current <==> i == steps(path).len(),
{
    if i == 0 {
        assert(steps(path).take(0) =~= Seq::empty());
    }
}

/// An entry of a directory is shown with its name and its place below the directory: a
/// directory without a size, a file with its own where that is known. The identity file
/// is not shown, and neither is what has no name.
pub proof fn law_entry_is_shown(e: ListedEntry<Seq<char>>, dir: Seq<char>)
    ensures
        match shown_entry(e, dir) {
            None => e.name is None || e.name == Some(".minara_instance_id"@),
            Some(s) => {
                &&& e.name == Some(s.name)
                &&& s.name != ".minara_instance_id"@
                &&& s.is_directory == e.is_directory
                &&& s.relative_path == if dir.len() == 0 {
                    s.name
                } else {
                    dir + "/"@ + s.name
                }
                &&& s.size_label == if e.is_directory {
                    "-"@
                } else if e.size is Some {
                    human_size(e.size->0 as nat)
                } else {
                    "--"@
                }
            },
        },
{
}

/// The entries that are shown are those of the list, one after the other.
pub proof fn law_all_entries_are_shown(
    a: Seq<ListedEntry<Seq<char>>>,
    e: ListedEntry<Seq<char>>,
    b: Seq<ListedEntry<Seq<char>>>,
    dir: Seq<char>,
)
    ensures
        shown_entries(Seq::empty(), dir) == Seq::<InstanceFileEntry<Seq<char>>>::empty(),
        shown_entries(seq![e], dir) == match shown_entry(e, dir) {
            Some(s) => seq![s],
            None => Seq::empty(),
        },
        shown_entries(a + b, dir) == shown_entries(a, dir) + shown_entries(b, dir),
    decreases b.len(),
{
    reveal_with_fuel(shown_entries, 2);
    let one = seq![e];
    assert(one.drop_last() =~= Seq::<ListedEntry<Seq<char>>>::empty());
    assert(shown_entries(one, dir) =~= match shown_entry(e, dir) {
        Some(s) => seq![s],
        None => Seq::empty(),
    });
    if b.len() > 0 {
        law_all_entries_are_shown(a, e, b.drop_last(), dir);
        assert((a + b).drop_last() =~= a + b.drop_last());
        assert(shown_entries(a + b, dir) =~= shown_entries(a, dir) + shown_entries(b, dir));
    } else {
        assert(a + b =~= a);
        assert(shown_entries(a, dir) + shown_entries(b, dir) =~= shown_entries(a, dir));
    }
}

/// Directories are shown before files, and each by its name in small letters.
pub proof fn law_order_of_entries(
    a: InstanceFileEntry<Seq<char>>,
    b: InstanceFileEntry<Seq<char>>,
)
    ensures
        a.is_directory && !b.is_directory ==> InstanceFileEntry::<String>::at_most(a, b)
            && !InstanceFileEntry::<String>::at_most(b, a),
        a.is_directory == b.is_directory ==> InstanceFileEntry::<String>::at_most(a, b)
            == text_at_most(lower_text(a.name), lower_text(b.name)),
{
}

/// The directories are counted among the entries.
pub proof fn law_directories_are_counted(list: Seq<InstanceFileEntry<Seq<char>>>)
    ensures
        directory_count(list) == list.filter(
            |e: InstanceFileEntry<Seq<char>>| e.is_directory,
        ).len(),
    decreases list.len(),
{
    reveal(Seq::filter);
    if list.len() > 0 {
        law_directories_are_counted(list.drop_last());
    }
}

/// A file is offered for download under its own name, without quotes in it.
pub proof fn law_offered_under_its_name(path: Seq<char>)
    ensures
        disposition(path) == "attachment; filename=\""@ + (match file_name(path) {
            Some(name) => name.filter(|c: char| c != '"'),
            None => "download.bin"@,
        }) + "\""@,
{
    if let Some(name) = file_name(path) {
        law_without(name, '"');
    }
}

} // verus!
