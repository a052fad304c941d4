//! Which names, versions and ids the panel accepts.
use vstd::prelude::*;
use vstd::string::*;
use vstd::utf8::{encode_utf8, is_ascii_chars};

use crate::outside::{
    ascii_upper, is_id_char, is_id_text, is_version_text, regex_first_group, regex_group,
    regex_is_match, regex_match, upper_text, BACKUP_ID_PATTERN, VERSION_PATTERN,
};
use crate::text::{cat3, has_char, opt_text, same_text};

verus! {

/// A verdict with its message as a sequence of characters.
pub open spec fn verdict(r: Result<(), String>) -> Result<(), Seq<char>> {
    match r {
        Ok(()) => Ok(()),
        Err(e) => Err(e@),
    }
}

/// The characters that no instance name may hold, in the order in which they
/// are looked for.
pub open spec fn forbidden_chars() -> Seq<char> {
    seq!['/', '\\', ':', '*', '?', '"', '<', '>', '|', '\n', '\r', '\t']
}

/// The first of the characters in `list` that the name holds.
pub open spec fn first_found(name: Seq<char>, list: Seq<char>) -> Option<char>
    decreases list.len(),
{
    if list.len() == 0 {
        None
    } else if name.contains(list[0]) {
        Some(list[0])
    } else {
        first_found(name, list.drop_first())
    }
}

/// The names that are reserved, in upper case.
pub open spec fn is_reserved(upper: Seq<char>) -> bool {
    ||| upper == "."@
    ||| upper == ".."@
    ||| upper == "CON"@
    ||| upper == "PRN"@
    ||| upper == "AUX"@
    ||| upper == "NUL"@
}

/// What is said of an instance name, given the name in upper case. The length is
/// counted in bytes.
pub open spec fn name_verdict(name: Seq<char>, upper: Seq<char>) -> Result<(), Seq<char>> {
    if name.len() == 0 {
        Err("Instance name cannot be empty"@)
    } else if encode_utf8(name).len() > 64 {
        Err("Instance name is too long (max 64 characters)"@)
    } else if first_found(name, forbidden_chars()) is Some {
        Err(
            "Instance name cannot contain '"@ + seq![first_found(name, forbidden_chars())->0]
                + "'"@,
        )
    } else if is_reserved(upper) {
        Err("'"@ + name + "' is a reserved name"@)
    } else {
        Ok(())
    }
}

/// The first forbidden character that the name holds.
fn find_forbidden(name: &str) -> (r: Option<char>)
    ensures
        r == first_found(name@, forbidden_chars()),
{
    let list: [char; 12] = ['/', '\\', ':', '*', '?', '"', '<', '>', '|', '\n', '\r', '\t'];
    assert(list@ =~= forbidden_chars());
    let mut i: usize = 0;
    assert(forbidden_chars().skip(0) =~= forbidden_chars());
    while i < 12
        invariant
            i <= 12,
            list@ == forbidden_chars(),
            list@.len() == 12,
            first_found(name@, forbidden_chars().skip(i as int)) == first_found(
                name@,
                forbidden_chars(),
            ),
        decreases 12 - i,
    {
        assert(forbidden_chars().skip(i as int)[0] == list@[i as int]);
        if has_char(name, list[i]) {
            return Some(list[i]);
        }
        assert(forbidden_chars().skip(i as int).drop_first() =~= forbidden_chars().skip(i + 1));
        i = i + 1;
    }
    None
}

/// What is said of an instance name, given the name in upper case.
pub fn check_instance_name(name: &str, upper: &str) -> (r: Result<(), String>)
    ensures
        verdict(r) == name_verdict(name@, upper@),
{
    if name.is_empty() {
        return Err("Instance name cannot be empty".to_owned());
    }
    let bytes = name.as_bytes();
    if bytes.len() > 64 {
        return Err("Instance name is too long (max 64 characters)".to_owned());
    }
    if let Some(c) = find_forbidden(name) {
        let mut shown = String::new();
        shown.push(c);
        assert(shown@ =~= seq![c]);
        return Err(cat3("Instance name cannot contain '", shown.as_str(), "'"));
    }
    if same_text(upper, ".") || same_text(upper, "..") || same_text(upper, "CON") || same_text(
        upper,
        "PRN",
    ) || same_text(upper, "AUX") || same_text(upper, "NUL") {
        return Err(cat3("'", name, "' is a reserved name"));
    }
    Ok(())
}

/// Whether the name can be given to an instance; if not, why.
pub fn validate_instance_name(name: &str) -> (r: Result<(), String>)
    ensures
        verdict(r) == name_verdict(name@, upper_text(name@)),
{
    let upper = name.to_uppercase();
    check_instance_name(name, upper.as_str())
}

/// A list of characters holds one that a name holds exactly where one is found.
proof fn lemma_first_found(name: Seq<char>, list: Seq<char>, c: char)
    requires
        first_found(name, list) is None,
        list.contains(c),
    ensures
        !name.contains(c),
    decreases list.len(),
{
    if list.len() > 0 && list[0] != c {
        let k = choose|k: int| 0 <= k < list.len() && list[k] == c;
        assert(list.drop_first()[k - 1] == c);
        lemma_first_found(name, list.drop_first(), c);
    }
}

/// A name that is accepted is not empty, fits in 64 bytes and holds none of the
/// forbidden characters.
pub proof fn law_accepted_name_is_plain(name: Seq<char>, upper: Seq<char>)
    requires
        name_verdict(name, upper) is Ok,
    ensures
        0 < name.len(),
        encode_utf8(name).len() <= 64,
        forall|c: char| forbidden_chars().contains(c) ==> !name.contains(c),
{
    assert forall|c: char| forbidden_chars().contains(c) implies !name.contains(c) by {
        lemma_first_found(name, forbidden_chars(), c);
    }
}

/// A name that is accepted is one step down a directory tree: it holds no
/// separator and is neither the directory itself nor its parent.
pub proof fn law_accepted_name_is_one_step(name: Seq<char>)
    requires
        name_verdict(name, upper_text(name)) is Ok,
    ensures
        !name.contains('/'),
        !name.contains('\\'),
        name != "."@,
        name != ".."@,
{
    law_accepted_name_is_plain(name, upper_text(name));
    assert(forbidden_chars()[0] == '/');
    assert(forbidden_chars()[1] == '\\');
    reveal_strlit(".");
    reveal_strlit("..");
    assert(is_ascii_chars("."@));
    assert(is_ascii_chars(".."@));
    if name == "."@ {
        assert(ascii_upper(name) =~= "."@);
    }
    if name == ".."@ {
        assert(ascii_upper(name) =~= ".."@);
    }
}

/// What is said of a version, given whether the version pattern matched it.
pub open spec fn version_verdict(matched: Option<bool>) -> Result<(), Seq<char>> {
    if matched == Some(true) {
        Ok(())
    } else {
        Err("Invalid version format. Use format like: 1.21.0.3"@)
    }
}

/// What is said of a version, given whether the version pattern matched it.
pub fn check_version_format(matched: Option<bool>) -> (r: Result<(), String>)
    ensures
        verdict(r) == version_verdict(matched),
{
    match matched {
        Some(true) => Ok(()),
        _ => Err("Invalid version format. Use format like: 1.21.0.3".to_owned()),
    }
}

/// Whether the text is a server version; if not, why. A version in ASCII has
/// four fields of digits.
pub fn validate_version_format(version: &str) -> (r: Result<(), String>)
    ensures
        verdict(r) == version_verdict(regex_match(VERSION_PATTERN@, version@)),
        is_ascii_chars(version@) ==> (r is Ok <==> is_version_text(version@)),
{
    check_version_format(regex_is_match(VERSION_PATTERN, version))
}

/// What is said of a backup id. The length is counted in bytes.
pub open spec fn id_verdict(id: Seq<char>) -> Result<(), Seq<char>> {
    if id.len() == 0 {
        Err("Backup id cannot be empty"@)
    } else if encode_utf8(id).len() > 128 {
        Err("Backup id is too long"@)
    } else if !is_id_text(id) {
        Err("Backup id contains invalid characters"@)
    } else {
        Ok(())
    }
}

/// Whether the text can be the id of a backup; if not, why.
pub fn validate_backup_id(id: &str) -> (r: Result<(), String>)
    ensures
        verdict(r) == id_verdict(id@),
{
    if id.is_empty() {
        return Err("Backup id cannot be empty".to_owned());
    }
    let bytes = id.as_bytes();
    if bytes.len() > 128 {
        return Err("Backup id is too long".to_owned());
    }
    match regex_is_match(BACKUP_ID_PATTERN, id) {
        Some(true) => Ok(()),
        _ => Err("Backup id contains invalid characters".to_owned()),
    }
}

/// An id that is accepted is one step down a directory tree.
pub proof fn law_accepted_id_is_one_step(id: Seq<char>)
    requires
        id_verdict(id) is Ok,
    ensures
        id.len() > 0,
        !id.contains('/'),
        !id.contains('.'),
        id != "."@,
        id != ".."@,
{
    reveal_strlit(".");
    reveal_strlit("..");
    assert forall|i: int| 0 <= i < id.len() implies id[i] != '/' && id[i] != '.' by {
        assert(is_id_char(id[i]));
    }
}

/// The release and the preview version that a page names.
#[derive(Debug, PartialEq, Eq)]
pub struct VersionResponse {
    pub release: Option<String>,
    pub preview: Option<String>,
}

/// How the page introduces the release version.
pub const RELEASE_PATTERN: &'static str =
    r#"<b>Release:</b>.*?<a[^>]*>(\d+\.\d+\.\d+\.\d+)</a>"#;

/// How the page introduces the preview version.
pub const PREVIEW_PATTERN: &'static str =
    r#"<b>Preview:</b>.*?<a[^>]*>(\d+\.\d+\.\d+\.\d+)</a>"#;

/// The versions that the page names, each where its pattern finds one.
pub fn versions_on_page(html: &str) -> (r: VersionResponse)
    ensures
        opt_text(r.release) == regex_group(RELEASE_PATTERN@, html@),
        opt_text(r.preview) == regex_group(PREVIEW_PATTERN@, html@),
{
    VersionResponse {
        release: regex_first_group(RELEASE_PATTERN, html),
        preview: regex_first_group(PREVIEW_PATTERN, html),
    }
}

/// A name is accepted exactly where it is not empty, takes up no more than 64 bytes,
/// holds no separator, drive mark, wildcard, quote, bracket, bar, line end or tab, and
/// is not reserved. The refusal tells the first of these that does not hold.
pub proof fn law_names_that_are_accepted(name: Seq<char>, upper: Seq<char>)
    ensures
        ({
            let bad = |c: char|
                c == '/' || c == '\\' || c == ':' || c == '*' || c == '?' || c == '"' || c == '<' || c
                    == '>' || c == '|' || c == '\n' || c == '\r' || c == '\t';
            let holds_bad = exists|i: int| 0 <= i < name.len() && bad(#[trigger] name[i]);
            let reserved = upper == "."@ || upper == ".."@ || upper == "CON"@ || upper == "PRN"@
                || upper == "AUX"@ || upper == "NUL"@;
            match name_verdict(name, upper) {
                Ok(()) => name.len() > 0 && encode_utf8(name).len() <= 64 && !holds_bad && !reserved,
                Err(e) => if name.len() == 0 {
                    e == "Instance name cannot be empty"@
                } else if encode_utf8(name).len() > 64 {
                    e == "Instance name is too long (max 64 characters)"@
                } else if holds_bad {
                    exists|c: char|
                        name.contains(c) && #[trigger] bad(c) && e
                            == "Instance name cannot contain '"@ + seq![c] + "'"@
                } else {
                    reserved && e == "'"@ + name + "' is a reserved name"@
                },
            }
        }),
{
    let bad = |c: char|
        c == '/' || c == '\\' || c == ':' || c == '*' || c == '?' || c == '"' || c == '<' || c == '>'
            || c == '|' || c == '\n' || c == '\r' || c == '\t';
    let all = forbidden_chars();
    lemma_found_is_in_both(name, all);
    assert forall|c: char| #[trigger] bad(c) implies all.contains(c) by {
        assert(all[0] == '/' && all[1] == '\\' && all[2] == ':' && all[3] == '*');
        assert(all[4] == '?' && all[5] == '"' && all[6] == '<' && all[7] == '>');
        assert(all[8] == '|' && all[9] == '\n' && all[10] == '\r' && all[11] == '\t');
    }
    assert forall|c: char| #[trigger] all.contains(c) implies bad(c) by {}
    if let Some(c) = first_found(name, all) {
        let k = choose|k: int| 0 <= k < name.len() && name[k] == c;
        assert(bad(name[k]));
    } else {
        assert forall|i: int| 0 <= i < name.len() implies !bad(#[trigger] name[i]) by {
            if bad(name[i]) {
                assert(all.contains(name[i]));
                assert(name.contains(name[i]));
            }
        }
    }
}

proof fn lemma_found_is_in_both(name: Seq<char>, list: Seq<char>)
    ensures
        match first_found(name, list) {
            Some(c) => name.contains(c) && list.contains(c),
            None => forall|c: char| list.contains(c) ==> !name.contains(c),
        },
    decreases list.len(),
{
    if list.len() > 0 {
        assert(list.contains(list[0]));
        let rest = list.drop_first();
        lemma_found_is_in_both(name, rest);
        assert forall|c: char| #[trigger] list.contains(c) implies c == list[0] || rest.contains(
            c,
        ) by {
            let k = choose|k: int| 0 <= k < list.len() && list[k] == c;
            if k > 0 {
                assert(rest[k - 1] == c);
            }
        }
        assert forall|c: char| #[trigger] rest.contains(c) implies list.contains(c) by {
            let k = choose|k: int| 0 <= k < rest.len() && rest[k] == c;
            assert(list[k + 1] == c);
        }
    }
}

/// An id is accepted exactly where it is not empty, takes up no more than 128 bytes, and
/// holds only letters and digits of ASCII, `_` and `-`.
pub proof fn law_ids_that_are_accepted(id: Seq<char>)
    ensures
        ({
            let plain = forall|i: int|
                0 <= i < id.len() ==> {
                    let c = #[trigger] id[i];
                    ||| 'a' <= c && c <= 'z'
                    ||| 'A' <= c && c <= 'Z'
                    ||| '0' <= c && c <= '9'
                    ||| c == '_'
                    ||| c == '-'
                };
            id_verdict(id) == if id.len() == 0 {
                Err("Backup id cannot be empty"@)
            } else if encode_utf8(id).len() > 128 {
                Err("Backup id is too long"@)
            } else if !plain {
                Err("Backup id contains invalid characters"@)
            } else {
                Ok(())
            }
        }),
{
}

/// A version is accepted exactly where it is written as one.
pub proof fn law_versions_that_are_accepted(matched: Option<bool>)
    ensures
        version_verdict(matched) == if matched == Some(true) {
            Ok(())
        } else {
            Err("Invalid version format. Use format like: 1.21.0.3"@)
        },
{
}

} // verus!
