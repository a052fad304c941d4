//! Text: what the panel reads off strings, stated over sequences of characters.
//!
//! Every function here works on whole characters, so nothing depends on how a
//! string is laid out in bytes.
use vstd::prelude::*;
use vstd::string::*;

verus! {

/// `String::push` appends one character at the end of the string.
pub assume_specification[ String::push ](s: &mut String, c: char)
    ensures
        final(s)@ == old(s)@.push(c),
;

/// The characters with the Unicode property `White_Space`.
pub open spec fn is_white(c: char) -> bool {
    let u = c as u32;
    ||| 0x9 <= u <= 0xd
    ||| u == 0x20
    ||| u == 0x85
    ||| u == 0xa0
    ||| u == 0x1680
    ||| 0x2000 <= u <= 0x200a
    ||| u == 0x2028
    ||| u == 0x2029
    ||| u == 0x202f
    ||| u == 0x205f
    ||| u == 0x3000
}

/// Whether the character is white space.
pub fn is_whitespace(c: char) -> (b: bool)
    ensures
        b == is_white(c),
{
    let u: u32 = c as u32;
    (0x9 <= u && u <= 0xd) || u == 0x20 || u == 0x85 || u == 0xa0 || u == 0x1680 || (0x2000 <= u
        && u <= 0x200a) || u == 0x2028 || u == 0x2029 || u == 0x202f || u == 0x205f || u == 0x3000
}

/// The strings of a list, as sequences of characters.
pub open spec fn texts(list: Seq<String>) -> Seq<Seq<char>> {
    list.map_values(|t: String| t@)
}

/// An optional string, as an optional sequence of characters.
pub open spec fn opt_text(t: Option<String>) -> Option<Seq<char>> {
    match t {
        Some(s) => Some(s@),
        None => None,
    }
}

/// An optional borrowed string, as an optional sequence of characters.
pub open spec fn opt_str(t: Option<&str>) -> Option<Seq<char>> {
    match t {
        Some(s) => Some(s@),
        None => None,
    }
}

/// A text that was to be had, or why it could not be.
pub open spec fn text_outcome(t: Result<String, String>) -> Result<Seq<char>, Seq<char>> {
    match t {
        Ok(text) => Ok(text@),
        Err(e) => Err(e@),
    }
}

/// The characters of a string, one by one.
pub fn chars_of(s: &str) -> (r: Vec<char>)
    ensures
        r@ == s@,
{
    let mut out: Vec<char> = Vec::new();
    for c in it: s.chars()
        invariant
            out@ == s@.take(it.index() as int),
            it.seq() == s@,
    {
        out.push(c);
    }
    out
}

/// Whether the two strings hold the same characters.
pub fn same_text(a: &str, b: &str) -> (r: bool)
    ensures
        r == (a@ == b@),
{
    let x = chars_of(a);
    let y = chars_of(b);
    if x.len() != y.len() {
        return false;
    }
    let mut i: usize = 0;
    while i < x.len()
        invariant
            i <= x.len(),
            x.len() == y.len(),
            x@ == a@,
            y@ == b@,
            forall|j: int| 0 <= j < i ==> x@[j] == y@[j],
        decreases x.len() - i,
    {
        if x[i] != y[i] {
            assert(x@[i as int] != y@[i as int]);
            return false;
        }
        i = i + 1;
    }
    assert(a@ =~= b@);
    true
}

/// The two strings, one after the other.
pub fn cat2(a: &str, b: &str) -> (r: String)
    ensures
        r@ == a@ + b@,
{
    let mut out = a.to_owned();
    out.append(b);
    out
}

/// The three strings, one after the other.
pub fn cat3(a: &str, b: &str, c: &str) -> (r: String)
    ensures
        r@ == a@ + b@ + c@,
{
    let mut out = a.to_owned();
    out.append(b);
    out.append(c);
    out
}

/// The four strings, one after the other.
pub fn cat4(a: &str, b: &str, c: &str, d: &str) -> (r: String)
    ensures
        r@ == a@ + b@ + c@ + d@,
{
    let mut out = a.to_owned();
    out.append(b);
    out.append(c);
    out.append(d);
    out
}

/// The five strings, one after the other.
pub fn cat5(a: &str, b: &str, c: &str, d: &str, e: &str) -> (r: String)
    ensures
        r@ == a@ + b@ + c@ + d@ + e@,
{
    let mut out = a.to_owned();
    out.append(b);
    out.append(c);
    out.append(d);
    out.append(e);
    out
}

/// A copy of the optional string.
pub fn copy_opt(t: &Option<String>) -> (r: Option<String>)
    ensures
        opt_text(r) == opt_text(*t),
{
    match t {
        Some(s) => Some(s.clone()),
        None => None,
    }
}

/// Whether the optional string is there and reads `b`.
pub fn opt_is(t: &Option<String>, b: &str) -> (r: bool)
    ensures
        r == (opt_text(*t) == Some(b@)),
{
    match t {
        Some(s) => same_text(s.as_str(), b),
        None => false,
    }
}

/// `s` without the white space at its front.
pub open spec fn trim_front(s: Seq<char>) -> Seq<char>
    decreases s.len(),
{
    if s.len() > 0 && is_white(s[0]) {
        trim_front(s.drop_first())
    } else {
        s
    }
}

/// `s` without the white space at its back.
pub open spec fn trim_back(s: Seq<char>) -> Seq<char>
    decreases s.len(),
{
    if s.len() > 0 && is_white(s.last()) {
        trim_back(s.drop_last())
    } else {
        s
    }
}

/// `s` without the white space at its two ends.
pub open spec fn trimmed(s: Seq<char>) -> Seq<char> {
    trim_back(trim_front(s))
}

/// The string without the white space at its two ends.
pub fn trim(s: &str) -> (r: &str)
    ensures
        r@ == trimmed(s@),
{
    let cs = chars_of(s);
    let n: usize = cs.len();
    let mut start: usize = 0;
    assert(cs@.skip(0) =~= cs@);
    while start < n && is_whitespace(cs[start])
        invariant
            start <= n,
            n == cs@.len(),
            trim_front(cs@.skip(start as int)) == trim_front(cs@),
        decreases n - start,
    {
        assert(cs@.skip(start as int).drop_first() =~= cs@.skip(start + 1));
        start = start + 1;
    }
    let mut end: usize = n;
    assert(cs@.subrange(start as int, n as int) =~= cs@.skip(start as int));
    assert(trim_front(cs@) == cs@.skip(start as int));
    while end > start && is_whitespace(cs[end - 1])
        invariant
            start <= end <= n,
            n == cs@.len(),
            trim_back(cs@.subrange(start as int, end as int)) == trimmed(cs@),
        decreases end,
    {
        assert(cs@.subrange(start as int, end as int).drop_last() =~= cs@.subrange(
            start as int,
            end - 1,
        ));
        end = end - 1;
    }
    s.substring_char(start, end)
}

/// Where a text is cut into parts.
#[derive(Clone, Copy)]
pub enum Cut {
    /// At each occurrence of one character.
    At(char),
    /// At each white space character.
    White,
}

impl Cut {
    /// Whether the character ends a part.
    pub open spec fn ends_part(self, c: char) -> bool {
        match self {
            Cut::At(d) => c == d,
            Cut::White => is_white(c),
        }
    }

    /// Whether the character ends a part.
    pub fn hits(&self, c: char) -> (b: bool)
        ensures
            b == self.ends_part(c),
    {
        match self {
            Cut::At(d) => c == *d,
            Cut::White => is_whitespace(c),
        }
    }
}

/// The parts of `s`: a cut character starts a new part, every other character
/// extends the last one.
pub open spec fn parts(s: Seq<char>, cut: Cut) -> Seq<Seq<char>>
    decreases s.len(),
{
    if s.len() == 0 {
        seq![Seq::empty()]
    } else {
        let before = parts(s.drop_last(), cut);
        if cut.ends_part(s.last()) {
            before.push(Seq::empty())
        } else {
            before.drop_last().push(before.last().push(s.last()))
        }
    }
}

/// The parts that hold at least one character.
pub open spec fn non_empty(list: Seq<Seq<char>>) -> Seq<Seq<char>>
    decreases list.len(),
{
    if list.len() == 0 {
        Seq::empty()
    } else if list.last().len() == 0 {
        non_empty(list.drop_last())
    } else {
        non_empty(list.drop_last()).push(list.last())
    }
}

/// The words of `s`: its longest runs without white space.
pub open spec fn words(s: Seq<char>) -> Seq<Seq<char>> {
    non_empty(parts(s, Cut::White))
}

/// A text has at least one part.
pub proof fn lemma_parts_nonempty(s: Seq<char>, cut: Cut)
    ensures
        parts(s, cut).len() >= 1,
    decreases s.len(),
{
    if s.len() > 0 {
        lemma_parts_nonempty(s.drop_last(), cut);
    }
}

/// The parts of the string, cut where `cut` says.
pub fn split_parts(s: &str, cut: Cut) -> (r: Vec<String>)
    ensures
        texts(r@) == parts(s@, cut),
{
    let cs = chars_of(s);
    let n: usize = cs.len();
    let mut out: Vec<String> = Vec::new();
    let mut last = String::new();
    let mut i: usize = 0;
    assert(texts(out@).push(last@) =~= parts(cs@.take(0), cut));
    while i < n
        invariant
            i <= n,
            n == cs@.len(),
            texts(out@).push(last@) == parts(cs@.take(i as int), cut),
        decreases n - i,
    {
        let c = cs[i];
        assert(cs@.take(i + 1).drop_last() =~= cs@.take(i as int));
        assert(cs@.take(i + 1).last() == c);
        if cut.hits(c) {
            let ghost before = out@;
            let ghost done = last@;
            out.push(last);
            assert(texts(out@) =~= texts(before).push(done));
            last = String::new();
        } else {
            assert(texts(out@).push(last@).drop_last() =~= texts(out@));
            last.push(c);
        }
        i = i + 1;
    }
    assert(cs@.take(n as int) =~= cs@);
    let ghost before = out@;
    let ghost done = last@;
    out.push(last);
    assert(texts(out@) =~= texts(before).push(done));
    out
}

/// The parts of the list that hold at least one character, in order.
pub fn keep_non_empty(list: Vec<String>) -> (r: Vec<String>)
    ensures
        texts(r@) == non_empty(texts(list@)),
{
    let mut out: Vec<String> = Vec::new();
    let mut i: usize = 0;
    assert(texts(out@) =~= non_empty(texts(list@).take(0)));
    while i < list.len()
        invariant
            i <= list.len(),
            texts(out@) == non_empty(texts(list@).take(i as int)),
        decreases list.len() - i,
    {
        assert(texts(list@).take(i + 1).drop_last() =~= texts(list@).take(i as int));
        assert(texts(list@).take(i + 1).last() == list@[i as int]@);
        if !list[i].as_str().is_empty() {
            let ghost before = out@;
            out.push(list[i].clone());
            assert(texts(out@) =~= texts(before).push(list@[i as int]@));
        }
        i = i + 1;
    }
    assert(texts(list@).take(list@.len() as int) =~= texts(list@));
    out
}

/// The words of the string, in order.
pub fn split_words(s: &str) -> (r: Vec<String>)
    ensures
        texts(r@) == words(s@),
{
    keep_non_empty(split_parts(s, Cut::White))
}

/// `s` without one carriage return at its end.
pub open spec fn strip_cr(s: Seq<char>) -> Seq<char> {
    if s.len() > 0 && s.last() == '\r' {
        s.drop_last()
    } else {
        s
    }
}

/// The lines of `s`. A line ends at a line feed, which may follow a carriage
/// return; what follows the last line feed is a line only if it is not empty.
pub open spec fn lines(s: Seq<char>) -> Seq<Seq<char>> {
    let p = parts(s, Cut::At('\n'));
    let ended = p.drop_last().map_values(|l: Seq<char>| strip_cr(l));
    if p.last().len() > 0 {
        ended.push(p.last())
    } else {
        ended
    }
}

/// The string without one carriage return at its end.
fn without_cr(s: &str) -> (r: String)
    ensures
        r@ == strip_cr(s@),
{
    let cs = chars_of(s);
    let n: usize = cs.len();
    if n > 0 && cs[n - 1] == '\r' {
        let t = s.substring_char(0, n - 1);
        assert(t@ =~= s@.drop_last());
        t.to_owned()
    } else {
        s.to_owned()
    }
}

/// The lines of the string, in order.
pub fn split_lines(s: &str) -> (r: Vec<String>)
    ensures
        texts(r@) == lines(s@),
{
    let p = split_parts(s, Cut::At('\n'));
    proof {
        lemma_parts_nonempty(s@, Cut::At('\n'));
    }
    let ghost q = parts(s@, Cut::At('\n'));
    let ghost ended = q.drop_last().map_values(|l: Seq<char>| strip_cr(l));
    assert(texts(p@).len() == p@.len());
    let n: usize = p.len() - 1;
    let mut out: Vec<String> = Vec::new();
    let mut i: usize = 0;
    while i < n
        invariant
            i <= n,
            n == p@.len() - 1,
            q == texts(p@),
            ended == q.drop_last().map_values(|l: Seq<char>| strip_cr(l)),
            texts(out@) == ended.take(i as int),
        decreases n - i,
    {
        let ghost before = out@;
        out.push(without_cr(p[i].as_str()));
        assert(texts(out@) =~= texts(before).push(strip_cr(q[i as int])));
        assert(ended.take(i + 1) =~= ended.take(i as int).push(strip_cr(q[i as int])));
        i = i + 1;
    }
    assert(ended.take(n as int) =~= ended);
    assert(q.last() == p@[n as int]@);
    if !p[n].as_str().is_empty() {
        let ghost before = out@;
        out.push(p[n].clone());
        assert(texts(out@) =~= texts(before).push(q.last()));
    }
    out
}

/// The parts one after the other, with `sep` between each two of them.
pub open spec fn joined(list: Seq<Seq<char>>, sep: Seq<char>) -> Seq<char>
    decreases list.len(),
{
    if list.len() == 0 {
        Seq::empty()
    } else if list.len() == 1 {
        list[0]
    } else {
        joined(list.drop_last(), sep) + sep + list.last()
    }
}

/// The strings one after the other, with `sep` between each two of them.
pub fn join(list: &Vec<String>, sep: &str) -> (r: String)
    ensures
        r@ == joined(texts(list@), sep@),
{
    let mut out = String::new();
    let mut i: usize = 0;
    let ghost all = texts(list@);
    while i < list.len()
        invariant
            i <= list.len(),
            all == texts(list@),
            out@ == joined(all.take(i as int), sep@),
        decreases list.len() - i,
    {
        assert(all.take(i + 1).drop_last() =~= all.take(i as int));
        assert(all.take(i + 1).last() == list@[i as int]@);
        if i > 0 {
            out.append(sep);
        }
        out.append(list[i].as_str());
        assert(i == 0 ==> out@ =~= list@[0]@);
        i = i + 1;
    }
    assert(all.take(list@.len() as int) =~= all);
    out
}

/// The place of the first `c` in `s`, or the length of `s` where there is none.
pub open spec fn first_at(s: Seq<char>, c: char) -> int
    decreases s.len(),
{
    if s.len() == 0 || s[0] == c {
        0
    } else {
        1 + first_at(s.drop_first(), c)
    }
}

/// `first_at` is the one place before which there is no `c` and at which there
/// is one, unless it is the end.
pub proof fn lemma_first_at(s: Seq<char>, c: char, k: int)
    requires
        0 <= k <= s.len(),
        forall|j: int| 0 <= j < k ==> s[j] != c,
        k < s.len() ==> s[k] == c,
    ensures
        first_at(s, c) == k,
    decreases s.len(),
{
    if s.len() > 0 && k > 0 {
        assert(s[0] != c);
        let t = s.drop_first();
        assert forall|j: int| 0 <= j < k - 1 implies t[j] != c by {
            assert(t[j] == s[j + 1]);
        }
        lemma_first_at(t, c, k - 1);
    }
}

/// What stands before and after the first `c`, where there is one.
pub open spec fn cut_once(s: Seq<char>, c: char) -> Option<(Seq<char>, Seq<char>)> {
    let k = first_at(s, c);
    if k < s.len() {
        Some((s.take(k), s.skip(k + 1)))
    } else {
        None
    }
}

/// What stands before and after the first `c` of the string, where there is one.
pub fn split_once(s: &str, c: char) -> (r: Option<(&str, &str)>)
    ensures
        match r {
            Some((a, b)) => cut_once(s@, c) == Some((a@, b@)),
            None => cut_once(s@, c) is None,
        },
{
    let cs = chars_of(s);
    let n: usize = cs.len();
    let mut i: usize = 0;
    while i < n && cs[i] != c
        invariant
            i <= n,
            n == cs@.len(),
            forall|j: int| 0 <= j < i ==> cs@[j] != c,
        decreases n - i,
    {
        i = i + 1;
    }
    proof {
        lemma_first_at(s@, c, i as int);
    }
    if i < n {
        let a = s.substring_char(0, i);
        let b = s.substring_char(i + 1, n);
        assert(a@ =~= s@.take(i as int));
        assert(b@ =~= s@.skip(i + 1));
        Some((a, b))
    } else {
        None
    }
}

/// Whether the string holds the character.
pub fn has_char(s: &str, c: char) -> (r: bool)
    ensures
        r == s@.contains(c),
{
    let cs = chars_of(s);
    let mut i: usize = 0;
    while i < cs.len()
        invariant
            i <= cs.len(),
            cs@ == s@,
            forall|j: int| 0 <= j < i ==> cs@[j] != c,
        decreases cs.len() - i,
    {
        if cs[i] == c {
            assert(s@[i as int] == c);
            return true;
        }
        i = i + 1;
    }
    false
}

/// Whether the string starts with `p`.
pub fn has_prefix(s: &str, p: &str) -> (r: bool)
    ensures
        r == p@.is_prefix_of(s@),
{
    let cs = chars_of(s);
    let ps = chars_of(p);
    if ps.len() > cs.len() {
        return false;
    }
    let t = s.substring_char(0, ps.len());
    same_text(p, t)
}

/// Whether `p` stands somewhere in `s`.
pub open spec fn holds_text(s: Seq<char>, p: Seq<char>) -> bool {
    exists|i: int| #![trigger s.skip(i)] 0 <= i <= s.len() && p.is_prefix_of(s.skip(i))
}

/// Whether `p` stands somewhere in the string.
pub fn has_text(s: &str, p: &str) -> (r: bool)
    ensures
        r == holds_text(s@, p@),
{
    let cs = chars_of(s);
    let n: usize = cs.len();
    let mut i: usize = 0;
    loop
        invariant
            i <= n,
            n == s@.len(),
            forall|j: int| #![trigger s@.skip(j)] 0 <= j < i ==> !p@.is_prefix_of(s@.skip(j)),
        decreases n - i,
    {
        let rest = s.substring_char(i, n);
        assert(rest@ =~= s@.skip(i as int));
        if has_prefix(rest, p) {
            return true;
        }
        if i == n {
            assert(!holds_text(s@, p@));
            return false;
        }
        i = i + 1;
    }
}

/// `s` with `b` in place of each `a`.
pub open spec fn replaced(s: Seq<char>, a: char, b: char) -> Seq<char> {
    s.map_values(|c: char| if c == a { b } else { c })
}

/// The string with `b` in place of each `a`.
pub fn replace_char(s: &str, a: char, b: char) -> (r: String)
    ensures
        r@ == replaced(s@, a, b),
{
    let cs = chars_of(s);
    let mut out = String::new();
    let mut i: usize = 0;
    while i < cs.len()
        invariant
            i <= cs.len(),
            cs@ == s@,
            out@ =~= replaced(s@, a, b).take(i as int),
        decreases cs.len() - i,
    {
        if cs[i] == a {
            out.push(b);
        } else {
            out.push(cs[i]);
        }
        i = i + 1;
    }
    assert(replaced(s@, a, b).take(s@.len() as int) =~= replaced(s@, a, b));
    out
}

/// `s` without each `c`.
pub open spec fn without(s: Seq<char>, c: char) -> Seq<char>
    decreases s.len(),
{
    if s.len() == 0 {
        s
    } else if s.last() == c {
        without(s.drop_last(), c)
    } else {
        without(s.drop_last(), c).push(s.last())
    }
}

/// The string without each `c`.
pub fn remove_char(s: &str, c: char) -> (r: String)
    ensures
        r@ == without(s@, c),
{
    let cs = chars_of(s);
    let mut out = String::new();
    let mut i: usize = 0;
    while i < cs.len()
        invariant
            i <= cs.len(),
            cs@ == s@,
            out@ == without(s@.take(i as int), c),
        decreases cs.len() - i,
    {
        assert(s@.take(i + 1).drop_last() =~= s@.take(i as int));
        if cs[i] != c {
            out.push(cs[i]);
        }
        i = i + 1;
    }
    assert(s@.take(s@.len() as int) =~= s@);
    out
}

/// `s` without the `c`s at its back.
pub open spec fn strip_back(s: Seq<char>, c: char) -> Seq<char>
    decreases s.len(),
{
    if s.len() > 0 && s.last() == c {
        strip_back(s.drop_last(), c)
    } else {
        s
    }
}

/// The string without the `c`s at its back.
pub fn trim_end_char(s: &str, c: char) -> (r: &str)
    ensures
        r@ == strip_back(s@, c),
{
    let cs = chars_of(s);
    let mut end: usize = cs.len();
    assert(s@.take(end as int) =~= s@);
    while end > 0 && cs[end - 1] == c
        invariant
            end <= cs.len(),
            cs@ == s@,
            strip_back(s@.take(end as int), c) == strip_back(s@, c),
        decreases end,
    {
        assert(s@.take(end as int).drop_last() =~= s@.take(end - 1));
        end = end - 1;
    }
    s.substring_char(0, end)
}

/// `c` in lower case where it is an ASCII letter, else itself.
pub open spec fn ascii_lower_char(c: char) -> char {
    if 'A' <= c && c <= 'Z' {
        ((c as u32 + 32) as u32) as char
    } else {
        c
    }
}

/// `s` with its ASCII letters in lower case.
pub open spec fn ascii_lower(s: Seq<char>) -> Seq<char> {
    s.map_values(|c: char| ascii_lower_char(c))
}

/// The string with its ASCII letters in lower case.
pub fn to_ascii_lower(s: &str) -> (r: String)
    ensures
        r@ == ascii_lower(s@),
{
    let cs = chars_of(s);
    let mut out = String::new();
    let mut i: usize = 0;
    while i < cs.len()
        invariant
            i <= cs.len(),
            cs@ == s@,
            out@ =~= ascii_lower(s@).take(i as int),
        decreases cs.len() - i,
    {
        let c = cs[i];
        if 'A' <= c && c <= 'Z' {
            let u: u8 = c as u8;
            let low: u8 = u + 32;
            out.push(low as char);
        } else {
            out.push(c);
        }
        i = i + 1;
    }
    assert(ascii_lower(s@).take(s@.len() as int) =~= ascii_lower(s@));
    out
}

/// Characters that are no cut extend the last part.
pub proof fn lemma_parts_extend(s: Seq<char>, t: Seq<char>, cut: Cut)
    requires
        forall|i: int| 0 <= i < t.len() ==> !cut.ends_part(#[trigger] t[i]),
    ensures
        parts(s + t, cut) == parts(s, cut).drop_last().push(parts(s, cut).last() + t),
    decreases t.len(),
{
    lemma_parts_nonempty(s, cut);
    if t.len() == 0 {
        assert(s + t =~= s);
        assert(parts(s, cut).last() + t =~= parts(s, cut).last());
        assert(parts(s, cut) =~= parts(s, cut).drop_last().push(parts(s, cut).last()));
    } else {
        let u = t.drop_last();
        lemma_parts_extend(s, u, cut);
        assert((s + t).drop_last() =~= s + u);
        assert((s + t).last() == t.last());
        let b = parts(s + u, cut);
        assert(b.drop_last() =~= parts(s, cut).drop_last());
        assert(b.last() =~= parts(s, cut).last() + u);
        assert(b.last().push(t.last()) =~= parts(s, cut).last() + t);
    }
}

/// A text without a cut is one part.
pub proof fn lemma_parts_single(s: Seq<char>, cut: Cut)
    requires
        forall|i: int| 0 <= i < s.len() ==> !cut.ends_part(#[trigger] s[i]),
    ensures
        parts(s, cut) == seq![s],
{
    let e = Seq::<char>::empty();
    lemma_parts_extend(e, s, cut);
    assert(e + s =~= s);
    assert(parts(e, cut) =~= seq![e]);
    assert(parts(s, cut) =~= seq![s]);
}

/// A cut and what follows it without another cut are one more part.
pub proof fn lemma_parts_push(s: Seq<char>, c: char, t: Seq<char>, cut: Cut)
    requires
        cut.ends_part(c),
        forall|i: int| 0 <= i < t.len() ==> !cut.ends_part(#[trigger] t[i]),
    ensures
        parts(s + seq![c] + t, cut) == parts(s, cut).push(t),
{
    let sc = s + seq![c];
    assert(sc.drop_last() =~= s);
    assert(sc.last() == c);
    lemma_parts_extend(sc, t, cut);
    assert(parts(sc, cut).drop_last() =~= parts(s, cut));
    assert(parts(sc, cut).last() + t =~= t);
}

/// Parts joined by one character that none of them holds are cut apart again at
/// that character.
pub proof fn law_joined_parts_come_apart(list: Seq<Seq<char>>, c: char)
    requires
        list.len() > 0,
        forall|i: int| 0 <= i < list.len() ==> !(#[trigger] list[i]).contains(c),
    ensures
        parts(joined(list, seq![c]), Cut::At(c)) == list,
    decreases list.len(),
{
    let cut = Cut::At(c);
    let last = list.last();
    assert(!list[list.len() - 1].contains(c));
    assert forall|i: int| 0 <= i < last.len() implies !cut.ends_part(#[trigger] last[i]) by {
        if last[i] == c {
            assert(last.contains(c));
        }
    }
    if list.len() == 1 {
        lemma_parts_single(last, cut);
        assert(list =~= seq![last]);
    } else {
        let front = list.drop_last();
        assert forall|i: int| 0 <= i < front.len() implies !(#[trigger] front[i]).contains(c) by {
            assert(!list[i].contains(c));
        }
        law_joined_parts_come_apart(front, c);
        lemma_parts_push(joined(front, seq![c]), c, last, cut);
        assert(list =~= front.push(last));
    }
}

/// The parts on the two sides of a cut.
pub proof fn lemma_parts_concat(s: Seq<char>, c: char, t: Seq<char>, cut: Cut)
    requires
        cut.ends_part(c),
    ensures
        parts(s + seq![c] + t, cut) == parts(s, cut) + parts(t, cut),
    decreases t.len(),
{
    let all = s + seq![c] + t;
    lemma_parts_nonempty(s, cut);
    if t.len() == 0 {
        lemma_parts_push(s, c, t, cut);
        lemma_parts_single(t, cut);
        assert(parts(s, cut).push(t) =~= parts(s, cut) + seq![t]);
    } else {
        let u = t.drop_last();
        lemma_parts_concat(s, c, u, cut);
        lemma_parts_nonempty(u, cut);
        assert(all.drop_last() =~= s + seq![c] + u);
        assert(all.last() == t.last());
        let a = parts(s, cut) + parts(u, cut);
        assert(a.last() == parts(u, cut).last());
        assert(a.drop_last() =~= parts(s, cut) + parts(u, cut).drop_last());
        assert(parts(all, cut) =~= parts(s, cut) + parts(t, cut));
    }
}

/// What is not empty of two lists, one after the other.
pub proof fn lemma_non_empty_concat(a: Seq<Seq<char>>, b: Seq<Seq<char>>)
    ensures
        non_empty(a + b) == non_empty(a) + non_empty(b),
    decreases b.len(),
{
    if b.len() == 0 {
        assert(a + b =~= a);
        assert(non_empty(a) + non_empty(b) =~= non_empty(a));
    } else {
        assert((a + b).drop_last() =~= a + b.drop_last());
        lemma_non_empty_concat(a, b.drop_last());
        assert(non_empty(a + b) =~= non_empty(a) + non_empty(b));
    }
}

/// A list of parts that are not empty is kept whole.
pub proof fn lemma_non_empty_keeps(list: Seq<Seq<char>>)
    requires
        forall|i: int| 0 <= i < list.len() ==> (#[trigger] list[i]).len() > 0,
    ensures
        non_empty(list) == list,
    decreases list.len(),
{
    if list.len() > 0 {
        let front = list.drop_last();
        assert forall|i: int| 0 <= i < front.len() implies (#[trigger] front[i]).len() > 0 by {
            assert(list[i].len() > 0);
        }
        lemma_non_empty_keeps(front);
        assert(list[list.len() - 1].len() > 0);
        assert(list =~= front.push(list.last()));
    } else {
        assert(list =~= Seq::<Seq<char>>::empty());
    }
}

/// What is kept is not empty, and it was there before.
pub proof fn lemma_non_empty(list: Seq<Seq<char>>)
    ensures
        forall|i: int|
            0 <= i < non_empty(list).len() ==> (#[trigger] non_empty(list)[i]).len() > 0
                && list.contains(non_empty(list)[i]),
    decreases list.len(),
{
    if list.len() > 0 {
        let front = list.drop_last();
        lemma_non_empty(front);
        assert forall|i: int| 0 <= i < non_empty(list).len() implies (#[trigger] non_empty(
            list,
        )[i]).len() > 0 && list.contains(non_empty(list)[i]) by {
            if i < non_empty(front).len() {
                assert(front.contains(non_empty(front)[i]));
                let k = choose|k: int| 0 <= k < front.len() && front[k] == non_empty(front)[i];
                assert(list[k] == non_empty(list)[i]);
            } else {
                assert(list[list.len() - 1] == non_empty(list)[i]);
            }
        }
    }
}

/// No part holds a character at which the text was cut.
pub proof fn lemma_parts_hold_no_cut(s: Seq<char>, c: char)
    ensures
        forall|i: int|
            0 <= i < parts(s, Cut::At(c)).len() ==> !(#[trigger] parts(s, Cut::At(
                c,
            ))[i]).contains(c),
    decreases s.len(),
{
    let cut = Cut::At(c);
    if s.len() == 0 {
        assert(!Seq::<char>::empty().contains(c));
    } else {
        let before = parts(s.drop_last(), cut);
        lemma_parts_nonempty(s.drop_last(), cut);
        lemma_parts_hold_no_cut(s.drop_last(), c);
        let now = parts(s, cut);
        assert forall|i: int| 0 <= i < now.len() implies !(#[trigger] now[i]).contains(c) by {
            if s.last() == c {
                if i < before.len() {
                    assert(now[i] == before[i]);
                }
            } else if i < before.len() - 1 {
                assert(now[i] == before[i]);
            } else {
                let old_last = before[before.len() - 1];
                assert(!old_last.contains(c));
                assert(now[i] =~= old_last.push(s.last()));
                if now[i].contains(c) {
                    let k = choose|k: int| 0 <= k < now[i].len() && now[i][k] == c;
                    assert(old_last[k] == c);
                }
            }
        }
    }
}

/// Trimming takes away a piece at the front and a piece at the back.
pub proof fn lemma_trim_front(s: Seq<char>)
    ensures
        trim_front(s).len() <= s.len(),
        trim_front(s) == s.skip(s.len() - trim_front(s).len()),
        trim_front(s).len() > 0 ==> !is_white(trim_front(s)[0]),
    decreases s.len(),
{
    if s.len() > 0 && is_white(s[0]) {
        lemma_trim_front(s.drop_first());
        let t = trim_front(s);
        assert(s.drop_first().skip(s.len() - 1 - t.len()) =~= s.skip(s.len() - t.len()));
    } else {
        assert(s.skip(0) =~= s);
    }
}

/// Trimming the back keeps the front.
pub proof fn lemma_trim_back(s: Seq<char>)
    ensures
        trim_back(s).len() <= s.len(),
        trim_back(s) == s.take(trim_back(s).len() as int),
        trim_back(s).len() > 0 ==> !is_white(trim_back(s).last()),
    decreases s.len(),
{
    if s.len() > 0 && is_white(s.last()) {
        lemma_trim_back(s.drop_last());
        let t = trim_back(s);
        assert(s.drop_last().take(t.len() as int) =~= s.take(t.len() as int));
    } else {
        assert(s.take(s.len() as int) =~= s);
    }
}

/// A trimmed text has no white space at its ends and is a piece of the text.
pub proof fn lemma_trimmed(s: Seq<char>)
    ensures
        trimmed(s).len() <= s.len(),
        trimmed(s).len() > 0 ==> !is_white(trimmed(s)[0]) && !is_white(trimmed(s).last()),
        forall|c: char| trimmed(s).contains(c) ==> s.contains(c),
{
    let f = trim_front(s);
    lemma_trim_front(s);
    lemma_trim_back(f);
    let t = trimmed(s);
    assert forall|c: char| t.contains(c) implies s.contains(c) by {
        let k = choose|k: int| 0 <= k < t.len() && t[k] == c;
        assert(f[k] == c);
        assert(s[s.len() - f.len() + k] == c);
    }
}

/// A text with no white space at its ends is trimmed already.
pub proof fn lemma_trimmed_already(s: Seq<char>)
    requires
        s.len() > 0 ==> !is_white(s[0]) && !is_white(s.last()),
    ensures
        trimmed(s) == s,
{
}

/// Trimming twice is trimming once.
pub proof fn law_trimmed_twice(s: Seq<char>)
    ensures
        trimmed(trimmed(s)) == trimmed(s),
{
    lemma_trimmed(s);
    lemma_trimmed_already(trimmed(s));
}

/// White space is the space, the tab, the line ends and form feeds, and the other
/// spaces and separators of Unicode; no other character of ASCII is.
pub proof fn law_white_space(c: char)
    ensures
        is_white(c) <==> {
            ||| c == ' ' || c == '\t' || c == '\n' || c == '\r' || c == '\x0b' || c == '\x0c'
            ||| c == '\u{85}' || c == '\u{a0}' || c == '\u{1680}'
            ||| '\u{2000}' <= c && c <= '\u{200a}'
            ||| c == '\u{2028}' || c == '\u{2029}' || c == '\u{202f}' || c == '\u{205f}'
            ||| c == '\u{3000}'
        },
{
}

/// A trimmed text is what is left of the text when all the white space at its front
/// and at its back is taken away, and nothing else.
pub proof fn law_trimmed_is_the_middle(s: Seq<char>)
    ensures
        ({
            let t = trimmed(s);
            &&& t.len() > 0 ==> !is_white(t[0]) && !is_white(t.last())
            &&& exists|a: int|
                {
                    &&& 0 <= a <= a + t.len() <= s.len()
                    &&& #[trigger] s.subrange(a, a + t.len()) == t
                    &&& forall|j: int| 0 <= j < a ==> is_white(#[trigger] s[j])
                    &&& forall|j: int| a + t.len() <= j < s.len() ==> is_white(#[trigger] s[j])
                }
        }),
{
    let f = trim_front(s);
    let t = trimmed(s);
    lemma_trimmed(s);
    lemma_trim_front(s);
    lemma_trim_back(f);
    lemma_front_is_white(s);
    lemma_back_is_white(f);
    let a = s.len() - f.len();
    assert(s.subrange(a, a + t.len()) =~= t);
    assert forall|j: int| a + t.len() <= j < s.len() implies is_white(#[trigger] s[j]) by {
        assert(f[j - a] == s[j]);
    }
}

proof fn lemma_front_is_white(s: Seq<char>)
    ensures
        forall|j: int| 0 <= j < s.len() - trim_front(s).len() ==> is_white(#[trigger] s[j]),
    decreases s.len(),
{
    if s.len() > 0 && is_white(s[0]) {
        let t = s.drop_first();
        lemma_front_is_white(t);
        assert forall|j: int| 0 <= j < s.len() - trim_front(s).len() implies is_white(
            #[trigger] s[j],
        ) by {
            if j > 0 {
                assert(t[j - 1] == s[j]);
            }
        }
    }
}

proof fn lemma_back_is_white(s: Seq<char>)
    ensures
        forall|j: int| trim_back(s).len() <= j < s.len() ==> is_white(#[trigger] s[j]),
    decreases s.len(),
{
    if s.len() > 0 && is_white(s.last()) {
        let t = s.drop_last();
        lemma_back_is_white(t);
        assert forall|j: int| trim_back(s).len() <= j < s.len() implies is_white(
            #[trigger] s[j],
        ) by {
            if j < t.len() {
                assert(t[j] == s[j]);
            }
        }
    }
}

/// A text comes together again from its parts, and a part does not hold the character
/// that they were cut at.
pub proof fn law_parts_come_together(s: Seq<char>, c: char)
    ensures
        joined(parts(s, Cut::At(c)), seq![c]) == s,
        forall|i: int|
            0 <= i < parts(s, Cut::At(c)).len() ==> !(#[trigger] parts(s, Cut::At(c))[i]).contains(
                c,
            ),
    decreases s.len(),
{
    let cut = Cut::At(c);
    lemma_parts_hold_no_cut(s, c);
    if s.len() > 0 {
        let front = s.drop_last();
        let before = parts(front, cut);
        law_parts_come_together(front, c);
        lemma_parts_nonempty(front, cut);
        if s.last() == c {
            let now = before.push(Seq::empty());
            assert(now.drop_last() =~= before);
            assert(joined(now, seq![c]) =~= front + seq![c]);
        } else {
            let last = before.last().push(s.last());
            let now = before.drop_last().push(last);
            assert(now.drop_last() =~= before.drop_last());
            assert(joined(now, seq![c]) =~= joined(before, seq![c]).push(s.last()));
        }
        assert(front.push(s.last()) =~= s);
    }
}

/// The words of a text are what white space leaves between it: an empty text has none,
/// a text without white space is one, and white space parts the words before it from
/// those behind it.
pub proof fn law_words(a: Seq<char>, w: char, b: Seq<char>)
    ensures
        words(Seq::empty()) == Seq::<Seq<char>>::empty(),
        a.len() > 0 && (forall|i: int| 0 <= i < a.len() ==> !is_white(#[trigger] a[i])) ==> words(a)
            == seq![a],
        is_white(w) ==> words(a + seq![w] + b) == words(a) + words(b),
{
    reveal_with_fuel(non_empty, 2);
    let e = Seq::<char>::empty();
    assert(parts(e, Cut::White) =~= seq![e]);
    assert(seq![e].drop_last() =~= Seq::<Seq<char>>::empty());
    assert(words(e) =~= Seq::<Seq<char>>::empty());
    if a.len() > 0 && (forall|i: int| 0 <= i < a.len() ==> !is_white(#[trigger] a[i])) {
        assert forall|i: int| 0 <= i < a.len() implies !Cut::White.ends_part(#[trigger] a[i]) by {}
        lemma_parts_single(a, Cut::White);
        lemma_non_empty_keeps(seq![a]);
    }
    if is_white(w) {
        lemma_parts_concat(a, w, b, Cut::White);
        lemma_non_empty_concat(parts(a, Cut::White), parts(b, Cut::White));
    }
}

/// The lines of a text are what its line feeds end, each without one carriage return in
/// front of that, and what follows the last one, unless that is empty.
pub proof fn law_lines(a: Seq<char>, b: Seq<char>)
    ensures
        lines(Seq::empty()) == Seq::<Seq<char>>::empty(),
        a.len() > 0 && !a.contains('\n') ==> lines(a) == seq![a],
        !a.contains('\n') ==> lines(a + seq!['\n'] + b) == seq![
            if a.len() > 0 && a.last() == '\r' {
                a.drop_last()
            } else {
                a
            },
        ] + lines(b),
{
    let e = Seq::<char>::empty();
    let cut = Cut::At('\n');
    assert(parts(e, cut) =~= seq![e]);
    assert(lines(e) =~= Seq::<Seq<char>>::empty());
    if !a.contains('\n') {
        assert forall|i: int| 0 <= i < a.len() implies !cut.ends_part(#[trigger] a[i]) by {
            assert(a.contains(a[i]));
        }
        lemma_parts_single(a, cut);
        assert(seq![a].drop_last() =~= Seq::<Seq<char>>::empty());
        if a.len() > 0 {
            assert(lines(a) =~= seq![a]);
        }
        lemma_parts_concat(a, '\n', b, cut);
        lemma_parts_nonempty(b, cut);
        let p = parts(b, cut);
        let q = seq![a] + p;
        assert(q.drop_last() =~= seq![a] + p.drop_last());
        assert(q.last() == p.last());
        let f = |l: Seq<char>| strip_cr(l);
        assert(q.drop_last().map_values(f) =~= seq![strip_cr(a)] + p.drop_last().map_values(f));
        assert(lines(a + seq!['\n'] + b) =~= seq![strip_cr(a)] + lines(b));
    }
}

/// Texts are joined in their order with the separator between each two of them.
pub proof fn law_joined(a: Seq<Seq<char>>, b: Seq<Seq<char>>, sep: Seq<char>)
    ensures
        joined(Seq::empty(), sep) == Seq::<char>::empty(),
        a.len() == 1 ==> joined(a, sep) == a[0],
        a.len() > 0 && b.len() > 0 ==> joined(a + b, sep) == joined(a, sep) + sep + joined(b, sep),
    decreases b.len(),
{
    if a.len() > 0 && b.len() > 0 {
        let c = b.drop_last();
        assert((a + b).drop_last() =~= a + c);
        if c.len() > 0 {
            law_joined(a, c, sep);
        } else {
            assert(a + c =~= a);
        }
        assert(joined(a + b, sep) =~= joined(a, sep) + sep + joined(b, sep));
    }
}

/// A text is cut once at the first place of the character, where it holds it.
pub proof fn law_cut_at_the_first(s: Seq<char>, c: char)
    ensures
        match cut_once(s, c) {
            Some((a, b)) => s == a + seq![c] + b && !a.contains(c),
            None => !s.contains(c),
        },
    decreases s.len(),
{
    let k = first_at(s, c);
    lemma_first_place(s, c);
    if k < s.len() {
        assert(s =~= s.take(k) + seq![c] + s.skip(k + 1));
    }
}

proof fn lemma_first_place(s: Seq<char>, c: char)
    ensures
        0 <= first_at(s, c) <= s.len(),
        forall|j: int| 0 <= j < first_at(s, c) ==> #[trigger] s[j] != c,
        first_at(s, c) < s.len() ==> s[first_at(s, c)] == c,
    decreases s.len(),
{
    if s.len() > 0 && s[0] != c {
        let t = s.drop_first();
        lemma_first_place(t, c);
        assert forall|j: int| 0 <= j < first_at(s, c) implies #[trigger] s[j] != c by {
            if j > 0 {
                assert(t[j - 1] == s[j]);
            }
        }
        assert(first_at(t, c) < t.len() ==> t[first_at(t, c)] == s[first_at(s, c)]);
    }
}

/// Replacing a character changes each place where it stands, and no other.
pub proof fn law_replaced(s: Seq<char>, a: char, b: char, i: int)
    ensures
        replaced(s, a, b).len() == s.len(),
        0 <= i < s.len() ==> replaced(s, a, b)[i] == if s[i] == a {
            b
        } else {
            s[i]
        },
        !s.contains(a) ==> replaced(s, a, b) == s,
{
    if !s.contains(a) {
        assert forall|j: int| 0 <= j < s.len() implies replaced(s, a, b)[j] == s[j] by {
            assert(s.contains(s[j]));
        }
        assert(replaced(s, a, b) =~= s);
    }
}

/// Without a character, a text holds all the others in their order.
pub proof fn law_without(s: Seq<char>, c: char)
    ensures
        without(s, c) == s.filter(|d: char| d != c),
    decreases s.len(),
{
    reveal(Seq::filter);
    if s.len() > 0 {
        law_without(s.drop_last(), c);
    } else {
        assert(without(s, c) =~= s.filter(|d: char| d != c));
    }
}

/// Stripped of a character at the back, a text ends otherwise, and only that character
/// was taken away.
pub proof fn law_strip_back(s: Seq<char>, c: char)
    ensures
        ({
            let t = strip_back(s, c);
            &&& t.is_prefix_of(s)
            &&& t.len() > 0 ==> t.last() != c
            &&& forall|j: int| t.len() <= j < s.len() ==> #[trigger] s[j] == c
        }),
    decreases s.len(),
{
    if s.len() > 0 && s.last() == c {
        let front = s.drop_last();
        law_strip_back(front, c);
        let t = strip_back(s, c);
        assert(t =~= s.subrange(0, t.len() as int)) by {
            assert(t =~= front.subrange(0, t.len() as int));
        }
        assert forall|j: int| t.len() <= j < s.len() implies #[trigger] s[j] == c by {
            if j < front.len() {
                assert(front[j] == s[j]);
            }
        }
    } else {
        assert(s =~= s.subrange(0, s.len() as int));
    }
}

/// In lower case the letters of ASCII are small, and all other characters are the same.
pub proof fn law_ascii_lower(s: Seq<char>, i: int)
    ensures
        ascii_lower(s).len() == s.len(),
        0 <= i < s.len() ==> {
            let c = ascii_lower(s)[i];
            &&& !('A' <= c && c <= 'Z')
            &&& if 'A' <= s[i] && s[i] <= 'Z' {
                c as u32 == s[i] as u32 + 32
            } else {
                c == s[i]
            }
        },
{
}

/// A text holds another where it is that with something before and something behind.
pub proof fn law_holds_text(a: Seq<char>, p: Seq<char>, b: Seq<char>)
    ensures
        holds_text(a + p + b, p),
        p.len() > a.len() ==> !holds_text(a, p),
{
    let s = a + p + b;
    assert(s.skip(a.len() as int).subrange(0, p.len() as int) =~= p);
    assert(p.is_prefix_of(s.skip(a.len() as int)));
}

/// Where a text holds another, that stands in it.
pub proof fn law_held_text_stands_in_it(s: Seq<char>, p: Seq<char>)
    requires
        holds_text(s, p),
    ensures
        exists|i: int|
            0 <= i <= i + p.len() <= s.len() && #[trigger] s.subrange(i, i + p.len()) == p,
{
    let i = choose|i: int| #![trigger s.skip(i)] 0 <= i <= s.len() && p.is_prefix_of(s.skip(i));
    assert(s.subrange(i, i + p.len()) =~= s.skip(i).subrange(0, p.len() as int));
}

} // verus!
