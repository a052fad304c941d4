//! The lists that the panel keeps by the names of instances: what runs, and what is
//! being installed.
use vstd::prelude::*;
use vstd::string::*;

use crate::text::same_text;

verus! {

/// A list of values by name. No name comes twice.
pub struct Registry<V> {
    entries: Vec<(String, V)>,
}

/// The value under a name: the first in the list.
pub open spec fn value_at<V>(list: Seq<(String, V)>, name: Seq<char>) -> Option<V>
    decreases list.len(),
{
    if list.len() == 0 {
        None
    } else if list[0].0@ == name {
        Some(list[0].1)
    } else {
        value_at(list.drop_first(), name)
    }
}

/// What a list holds, by name.
pub open spec fn contents<V>(list: Seq<(String, V)>) -> Map<Seq<char>, V> {
    Map::new(|name: Seq<char>| value_at(list, name) is Some, |name: Seq<char>| value_at(list, name)->0)
}

/// What the map holds under one name, under another name in its place; what the
/// other name had before is lost.
pub open spec fn moved<V>(m: Map<Seq<char>, V>, old: Seq<char>, new: Seq<char>) -> Map<Seq<char>, V> {
    if m.contains_key(old) {
        m.remove(old).insert(new, m[old])
    } else {
        m
    }
}

impl<V> View for Registry<V> {
    type V = Map<Seq<char>, V>;

    closed spec fn view(&self) -> Map<Seq<char>, V> {
        contents(self.entries@)
    }
}

/// Whether no name comes twice.
pub open spec fn names_once<V>(list: Seq<(String, V)>) -> bool {
    forall|i: int, j: int|
        0 <= i < j < list.len() ==> (#[trigger] list[i]).0@ != (#[trigger] list[j]).0@
}

/// Where a name comes once, the value under it is the one beside it.
proof fn lemma_value_at<V>(list: Seq<(String, V)>, i: int)
    requires
        names_once(list),
        0 <= i < list.len(),
    ensures
        value_at(list, list[i].0@) == Some(list[i].1),
    decreases list.len(),
{
    if i > 0 {
        let rest = list.drop_first();
        assert(list[0].0@ != list[i].0@);
        assert(rest[i - 1] == list[i]);
        assert forall|a: int, b: int| 0 <= a < b < rest.len() implies (#[trigger] rest[a]).0@ != (
        #[trigger] rest[b]).0@ by {
            assert(list[a + 1].0@ != list[b + 1].0@);
        }
        lemma_value_at(rest, i - 1);
    }
}

/// A name that is not in the list has no value.
proof fn lemma_no_value_at<V>(list: Seq<(String, V)>, name: Seq<char>)
    requires
        forall|i: int| 0 <= i < list.len() ==> (#[trigger] list[i]).0@ != name,
    ensures
        value_at(list, name) is None,
    decreases list.len(),
{
    if list.len() > 0 {
        let rest = list.drop_first();
        assert(list[0].0@ != name);
        assert forall|i: int| 0 <= i < rest.len() implies (#[trigger] rest[i]).0@ != name by {
            assert(list[i + 1].0@ != name);
        }
        lemma_no_value_at(rest, name);
    }
}

/// The value under a name stands beside that name.
proof fn lemma_value_source<V>(list: Seq<(String, V)>, name: Seq<char>) -> (i: int)
    requires
        value_at(list, name) is Some,
    ensures
        0 <= i < list.len(),
        list[i].0@ == name,
        value_at(list, name) == Some(list[i].1),
    decreases list.len(),
{
    if list[0].0@ == name {
        0
    } else {
        let i = lemma_value_source(list.drop_first(), name);
        assert(list.drop_first()[i] == list[i + 1]);
        i + 1
    }
}

/// A list with one entry more, under a name that was not there.
proof fn lemma_pushed<V>(list: Seq<(String, V)>, entry: (String, V))
    requires
        names_once(list),
        value_at(list, entry.0@) is None,
    ensures
        names_once(list.push(entry)),
        contents(list.push(entry)) == contents(list).insert(entry.0@, entry.1),
{
    let more = list.push(entry);
    assert forall|i: int, j: int| 0 <= i < j < more.len() implies (#[trigger] more[i]).0@ != (
    #[trigger] more[j]).0@ by {
        if j < list.len() {
            assert(list[i].0@ != list[j].0@);
        } else {
            lemma_value_at(list, i);
        }
    }
    assert forall|name: Seq<char>| value_at(more, name) == (if name == entry.0@ {
        Some(entry.1)
    } else {
        value_at(list, name)
    }) by {
        if name == entry.0@ {
            lemma_value_at(more, list.len() as int);
        } else if value_at(list, name) is Some {
            let i = lemma_value_source(list, name);
            assert(more[i] == list[i]);
            lemma_value_at(more, i);
        } else {
            assert forall|i: int| 0 <= i < more.len() implies (#[trigger] more[i]).0@ != name by {
                if i < list.len() {
                    lemma_value_at(list, i);
                    assert(more[i] == list[i]);
                }
            }
            lemma_no_value_at(more, name);
        }
    }
    assert(contents(more) =~= contents(list).insert(entry.0@, entry.1));
}

/// A list without one of its entries.
proof fn lemma_removed<V>(list: Seq<(String, V)>, k: int)
    requires
        names_once(list),
        0 <= k < list.len(),
    ensures
        names_once(list.remove(k)),
        contents(list.remove(k)) == contents(list).remove(list[k].0@),
{
    let less = list.remove(k);
    let gone = list[k].0@;
    assert forall|i: int| 0 <= i < less.len() implies #[trigger] less[i] == (if i < k {
        list[i]
    } else {
        list[i + 1]
    }) by {}
    assert forall|i: int, j: int| 0 <= i < j < less.len() implies (#[trigger] less[i]).0@ != (
    #[trigger] less[j]).0@ by {
        let a = if i < k {
            i
        } else {
            i + 1
        };
        let b = if j < k {
            j
        } else {
            j + 1
        };
        assert(list[a].0@ != list[b].0@);
    }
    assert forall|name: Seq<char>| value_at(less, name) == (if name == gone {
        None
    } else {
        value_at(list, name)
    }) by {
        if name == gone {
            assert forall|i: int| 0 <= i < less.len() implies (#[trigger] less[i]).0@ != name by {
                if i < k {
                    assert(list[i].0@ != list[k].0@);
                } else {
                    assert(list[k].0@ != list[i + 1].0@);
                }
            }
            lemma_no_value_at(less, name);
        } else if value_at(list, name) is Some {
            let i = lemma_value_source(list, name);
            let a = if i < k {
                i
            } else {
                i - 1
            };
            assert(less[a] == list[i]);
            lemma_value_at(less, a);
        } else {
            assert forall|i: int| 0 <= i < less.len() implies (#[trigger] less[i]).0@ != name by {
                let a = if i < k {
                    i
                } else {
                    i + 1
                };
                lemma_value_at(list, a);
            }
            lemma_no_value_at(less, name);
        }
    }
    assert(contents(less) =~= contents(list).remove(gone));
}

/// The place of the name in the list, if it is there.
fn find<V>(list: &Vec<(String, V)>, name: &str) -> (r: Option<usize>)
    requires
        names_once(list@),
    ensures
        match r {
            Some(i) => i < list@.len() && list@[i as int].0@ == name@ && value_at(list@, name@)
                == Some(list@[i as int].1),
            None => value_at(list@, name@) is None,
        },
{
    let mut i: usize = 0;
    while i < list.len()
        invariant
            i <= list.len(),
            names_once(list@),
            forall|j: int| 0 <= j < i ==> (#[trigger] list@[j]).0@ != name@,
        decreases list.len() - i,
    {
        if same_text(list[i].0.as_str(), name) {
            proof {
                lemma_value_at(list@, i as int);
            }
            return Some(i);
        }
        i = i + 1;
    }
    proof {
        lemma_no_value_at(list@, name@);
    }
    None
}

/// Puts the value under the name.
fn put<V>(list: &mut Vec<(String, V)>, name: &str, value: V)
    requires
        names_once(old(list)@),
    ensures
        names_once(final(list)@),
        contents(final(list)@) == contents(old(list)@).insert(name@, value),
{
    let _ = take(list, name);
    let ghost before = list@;
    let entry: (String, V) = (name.to_owned(), value);
    proof {
        assert(value_at(before, name@) is None) by {
            if value_at(before, name@) is Some {
                assert(contents(before).contains_key(name@));
            }
        }
        lemma_pushed(before, entry);
    }
    list.push(entry);
    assert(contents(list@) =~= contents(old(list)@).insert(name@, value));
}

/// Takes out what stands under the name.
fn take<V>(list: &mut Vec<(String, V)>, name: &str) -> (r: Option<V>)
    requires
        names_once(old(list)@),
    ensures
        names_once(final(list)@),
        contents(final(list)@) == contents(old(list)@).remove(name@),
        r == value_at(old(list)@, name@),
{
    match find(list, name) {
        Some(k) => {
            proof {
                lemma_removed(list@, k as int);
            }
            let (_, value) = list.remove(k);
            Some(value)
        },
        None => {
            assert(contents(list@) =~= contents(list@).remove(name@));
            None
        },
    }
}

impl<V> Registry<V> {
    /// No name comes twice.
    #[verifier::type_invariant]
    closed spec fn well_formed(&self) -> bool {
        names_once(self.entries@)
    }

    /// A list without entries.
    pub fn new() -> (r: Registry<V>)
        ensures
            r@ == Map::<Seq<char>, V>::empty(),
    {
        let r = Registry { entries: Vec::new() };
        assert(r@ =~= Map::<Seq<char>, V>::empty());
        r
    }

    /// What stands under the name.
    pub fn get(&self, name: &str) -> (r: Option<&V>)
        ensures
            match r {
                Some(v) => self@.contains_key(name@) && self@[name@] == *v,
                None => !self@.contains_key(name@),
            },
    {
        proof {
            use_type_invariant(self);
        }
        match find(&self.entries, name) {
            Some(i) => Some(&self.entries[i].1),
            None => None,
        }
    }

    /// Puts the value under the name.
    pub fn insert(&mut self, name: &str, value: V)
        ensures
            final(self)@ == old(self)@.insert(name@, value),
    {
        let mut whole: Registry<V> = Registry::new();
        std::mem::swap(self, &mut whole);
        proof {
            use_type_invariant(&whole);
        }
        let mut entries: Vec<(String, V)> = whole.entries;
        put(&mut entries, name, value);
        *self = Registry { entries };
    }

    /// Puts the value under the name, unless the name is there.
    pub fn insert_missing(&mut self, name: &str, value: V)
        ensures
            final(self)@ == (if old(self)@.contains_key(name@) {
                old(self)@
            } else {
                old(self)@.insert(name@, value)
            }),
    {
        if self.get(name).is_none() {
            self.insert(name, value);
        }
    }

    /// Takes out what stands under the name.
    pub fn remove(&mut self, name: &str) -> (r: Option<V>)
        ensures
            final(self)@ == old(self)@.remove(name@),
            match r {
                Some(v) => old(self)@.contains_key(name@) && old(self)@[name@] == v,
                None => !old(self)@.contains_key(name@),
            },
    {
        let mut whole: Registry<V> = Registry::new();
        std::mem::swap(self, &mut whole);
        proof {
            use_type_invariant(&whole);
        }
        let mut entries: Vec<(String, V)> = whole.entries;
        let taken = take(&mut entries, name);
        *self = Registry { entries };
        taken
    }

    /// Puts what stands under the old name under the new one.
    pub fn rename(&mut self, old_name: &str, new_name: &str)
        ensures
            final(self)@ == moved(old(self)@, old_name@, new_name@),
    {
        if let Some(value) = self.remove(old_name) {
            self.insert(new_name, value);
        } else {
            assert(old(self)@.remove(old_name@) =~= old(self)@);
        }
    }
}

/// Lets the panel know an instance by its new name: in its list of instances and in
/// its list of installations.
pub fn rename_registered<A, B>(
    instances: &mut Registry<A>,
    progress: &mut Registry<B>,
    old_name: &str,
    new_name: &str,
)
    ensures
        final(instances)@ == moved(old(instances)@, old_name@, new_name@),
        final(progress)@ == moved(old(progress)@, old_name@, new_name@),
{
    instances.rename(old_name, new_name);
    progress.rename(old_name, new_name);
}

/// After a name was changed, the old one is gone, what stood under it stands under
/// the new one, and every other name keeps what it had.
pub proof fn law_rename_moves_one_entry<V>(
    m: Map<Seq<char>, V>,
    old: Seq<char>,
    new: Seq<char>,
    other: Seq<char>,
)
    requires
        old != new,
    ensures
        !moved(m, old, new).contains_key(old),
        m.contains_key(old) ==> moved(m, old, new).contains_key(new) && moved(m, old, new)[new]
            == m[old],
        other != old && other != new ==> {
            &&& moved(m, old, new).contains_key(other) == m.contains_key(other)
            &&& m.contains_key(other) ==> moved(m, old, new)[other] == m[other]
        },
{
}

/// A name under which nothing stands changes nothing when it is changed, and neither does
/// a change of a name into itself.
pub proof fn law_rename_without_effect<V>(m: Map<Seq<char>, V>, old: Seq<char>, new: Seq<char>)
    ensures
        !m.contains_key(old) ==> moved(m, old, new) == m,
        moved(m, old, old) == m,
{
    if m.contains_key(old) {
        assert(moved(m, old, old) =~= m);
    }
}

} // verus!
