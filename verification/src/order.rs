//! Orders, and sorting that keeps ties in place.
use vstd::prelude::*;
use vstd::string::*;

use crate::text::chars_of;

verus! {

/// Values with a total order, in which different values may be on a par.
pub trait Ranked: View + Sized {
    /// Whether `a` may stand before `b`.
    spec fn at_most(a: Self::V, b: Self::V) -> bool;

    /// Whether `self` may stand before `other`.
    fn is_at_most(&self, other: &Self) -> (b: bool)
        ensures
            b == Self::at_most(self@, other@),
    ;

    /// Of two values, one may stand before the other.
    proof fn order_is_total(a: Self::V, b: Self::V)
        ensures
            Self::at_most(a, b) || Self::at_most(b, a),
    ;

    /// What may stand before the first of two values may stand before the second.
    proof fn order_is_transitive(a: Self::V, b: Self::V, c: Self::V)
        requires
            Self::at_most(a, b),
            Self::at_most(b, c),
        ensures
            Self::at_most(a, c),
    ;
}

/// The values of a list, each by its view.
pub open spec fn views<A: View>(list: Seq<A>) -> Seq<A::V> {
    list.map_values(|a: A| a@)
}

/// `s` with `x` behind every value that may stand before it, counted from the
/// back.
pub open spec fn inserted<A: Ranked>(s: Seq<A::V>, x: A::V) -> Seq<A::V>
    decreases s.len(),
{
    if s.len() == 0 || A::at_most(s.last(), x) {
        s.push(x)
    } else {
        inserted::<A>(s.drop_last(), x).push(s.last())
    }
}

/// The values in order; those on a par stay in the order they came in.
pub open spec fn sorted<A: Ranked>(s: Seq<A::V>) -> Seq<A::V>
    decreases s.len(),
{
    if s.len() == 0 {
        s
    } else {
        inserted::<A>(sorted::<A>(s.drop_last()), s.last())
    }
}

/// Whether each value may stand before all that follow it.
pub open spec fn in_order<A: Ranked>(s: Seq<A::V>) -> bool {
    forall|i: int, j: int| #![trigger s[i], s[j]] 0 <= i < j < s.len() ==> A::at_most(s[i], s[j])
}

/// The values in order; those on a par stay in the order they came in.
pub fn sort_stable<A: Ranked>(list: Vec<A>) -> (r: Vec<A>)
    ensures
        views(r@) == sorted::<A>(views(list@)),
{
    let mut rest = list;
    let mut out: Vec<A> = Vec::new();
    let ghost all = views(list@);
    let ghost mut taken: int = 0;
    assert(all.take(0) =~= Seq::<A::V>::empty());
    assert(views(out@) =~= Seq::<A::V>::empty());
    while rest.len() > 0
        invariant
            0 <= taken <= all.len(),
            views(rest@) =~= all.skip(taken),
            views(out@) == sorted::<A>(all.take(taken)),
        decreases rest.len(),
    {
        let ghost left = rest@;
        let x = rest.remove(0);
        assert(views(left).len() == left.len());
        assert(views(left)[0] == all.skip(taken)[0]);
        assert(x@ == all[taken]);
        let mut j: usize = out.len();
        let ghost o = views(out@);
        assert(o.take(j as int) =~= o);
        assert(inserted::<A>(o, x@) =~= inserted::<A>(o.take(j as int), x@) + o.skip(j as int));
        while j > 0 && !out[j - 1].is_at_most(&x)
            invariant
                j <= out.len(),
                o == views(out@),
                inserted::<A>(o, x@) == inserted::<A>(o.take(j as int), x@) + o.skip(j as int),
            decreases j,
        {
            assert(o.take(j as int).drop_last() =~= o.take(j - 1));
            assert(o.take(j as int).last() == out@[j - 1]@);
            assert(inserted::<A>(o.take(j as int), x@) + o.skip(j as int) =~= inserted::<A>(
                o.take(j - 1),
                x@,
            ) + o.skip(j - 1));
            j = j - 1;
        }
        let ghost before = out@;
        if j > 0 {
            assert(o.take(j as int).last() == out@[j - 1]@);
        }
        out.insert(j, x);
        assert(views(out@) =~= o.take(j as int).push(x@) + o.skip(j as int));
        proof {
            assert(all.take(taken + 1).drop_last() =~= all.take(taken));
            assert(views(rest@) =~= all.skip(taken + 1)) by {
                assert forall|i: int| 0 <= i < rest@.len() implies views(rest@)[i] == all[taken + 1
                    + i] by {
                    assert(rest@[i] == left[i + 1]);
                    assert(views(left)[i + 1] == all.skip(taken)[i + 1]);
                }
            }
            taken = taken + 1;
        }
    }
    assert(all.take(taken) =~= all);
    out
}

/// Inserting into values in order leaves them in order and adds the one value.
proof fn lemma_inserted<A: Ranked>(s: Seq<A::V>, x: A::V)
    requires
        in_order::<A>(s),
    ensures
        in_order::<A>(inserted::<A>(s, x)),
        inserted::<A>(s, x).to_multiset() =~= s.to_multiset().insert(x),
        inserted::<A>(s, x).len() == s.len() + 1,
    decreases s.len(),
{
    broadcast use vstd::seq_lib::group_to_multiset_ensures;

    if s.len() == 0 || A::at_most(s.last(), x) {
        let r = s.push(x);
        assert forall|i: int, j: int| #![trigger r[i], r[j]] 0 <= i < j < r.len() implies A::at_most(r[i], r[j]) by {
            if j == s.len() && i < s.len() - 1 {
                assert(A::at_most(s[i], s[s.len() - 1]));
                A::order_is_transitive(s[i], s.last(), x);
            }
        }
    } else {
        let t = s.drop_last();
        let y = s.last();
        lemma_inserted::<A>(t, x);
        let p = inserted::<A>(t, x);
        let r = p.push(y);
        A::order_is_total(x, y);
        assert(s =~= t.push(y));
        assert forall|i: int| 0 <= i < p.len() implies A::at_most(#[trigger] p[i], y) by {
            assert(p.to_multiset().count(p[i]) > 0) by {
                assert(p.contains(p[i]));
            }
            if p[i] != x {
                assert(t.to_multiset().count(p[i]) > 0);
                assert(t.contains(p[i]));
                let k = choose|k: int| 0 <= k < t.len() && t[k] == p[i];
                assert(A::at_most(s[k], s[s.len() - 1]));
            }
        }
        assert forall|i: int, j: int| #![trigger r[i], r[j]] 0 <= i < j < r.len() implies A::at_most(r[i], r[j]) by {
            if j == p.len() {
                assert(A::at_most(p[i], y));
            } else {
                assert(A::at_most(p[i], p[j]));
            }
        }
        assert(r.to_multiset() =~= s.to_multiset().insert(x));
    }
}

/// Sorting leaves the values in order, and neither adds nor loses one.
pub proof fn law_sorted<A: Ranked>(s: Seq<A::V>)
    ensures
        in_order::<A>(sorted::<A>(s)),
        sorted::<A>(s).to_multiset() =~= s.to_multiset(),
        sorted::<A>(s).len() == s.len(),
    decreases s.len(),
{
    broadcast use vstd::seq_lib::group_to_multiset_ensures;

    if s.len() > 0 {
        law_sorted::<A>(s.drop_last());
        lemma_inserted::<A>(sorted::<A>(s.drop_last()), s.last());
        assert(s =~= s.drop_last().push(s.last()));
    }
}

/// Values that are in order already stay as they are.
pub proof fn law_sorted_in_order<A: Ranked>(s: Seq<A::V>)
    requires
        in_order::<A>(s),
    ensures
        sorted::<A>(s) == s,
    decreases s.len(),
{
    if s.len() > 0 {
        let t = s.drop_last();
        assert forall|i: int, j: int| #![trigger t[i], t[j]] 0 <= i < j < t.len() implies A::at_most(t[i], t[j]) by {
            assert(A::at_most(s[i], s[j]));
        }
        law_sorted_in_order::<A>(t);
        if t.len() > 0 {
            assert(A::at_most(s[s.len() - 2], s[s.len() - 1]));
        }
        assert(t.push(s.last()) =~= s);
    }
}

/// Sorting twice is sorting once.
pub proof fn law_sorted_twice<A: Ranked>(s: Seq<A::V>)
    ensures
        sorted::<A>(sorted::<A>(s)) == sorted::<A>(s),
{
    law_sorted::<A>(s);
    law_sorted_in_order::<A>(sorted::<A>(s));
}

/// The dictionary order of texts by the code points of their characters.
pub open spec fn text_at_most(a: Seq<char>, b: Seq<char>) -> bool
    decreases a.len(),
{
    if a.len() == 0 {
        true
    } else if b.len() == 0 {
        false
    } else if a[0] == b[0] {
        text_at_most(a.drop_first(), b.drop_first())
    } else {
        a[0] < b[0]
    }
}

/// Of two texts, one stands before the other.
pub proof fn lemma_text_order_total(a: Seq<char>, b: Seq<char>)
    ensures
        text_at_most(a, b) || text_at_most(b, a),
    decreases a.len(),
{
    if a.len() > 0 && b.len() > 0 && a[0] == b[0] {
        lemma_text_order_total(a.drop_first(), b.drop_first());
    }
}

/// The dictionary order is transitive.
pub proof fn lemma_text_order_transitive(a: Seq<char>, b: Seq<char>, c: Seq<char>)
    requires
        text_at_most(a, b),
        text_at_most(b, c),
    ensures
        text_at_most(a, c),
    decreases a.len(),
{
    if a.len() > 0 && b.len() > 0 && c.len() > 0 && a[0] == b[0] && b[0] == c[0] {
        lemma_text_order_transitive(a.drop_first(), b.drop_first(), c.drop_first());
    }
}

/// Texts that stand before each other are the same.
#[verifier::spinoff_prover]
pub proof fn lemma_text_order_antisymmetric(a: Seq<char>, b: Seq<char>)
    requires
        text_at_most(a, b),
        text_at_most(b, a),
    ensures
        a == b,
    decreases a.len(),
{
    if a.len() > 0 && b.len() > 0 {
        let x = a.drop_first();
        let y = b.drop_first();
        assert(a[0] == b[0]);
        lemma_text_order_antisymmetric(x, y);
        assert(x.len() == y.len());
        assert forall|i: int| 0 <= i < a.len() implies a[i] == b[i] by {
            if i > 0 {
                assert(x[i - 1] == a[i]);
                assert(y[i - 1] == b[i]);
            }
        }
    }
    assert(a =~= b);
}

/// Whether the first string stands before the second one, or is the same.
pub fn text_is_at_most(a: &str, b: &str) -> (r: bool)
    ensures
        r == text_at_most(a@, b@),
{
    let x = chars_of(a);
    let y = chars_of(b);
    let mut i: usize = 0;
    assert(x@.skip(0) =~= x@);
    assert(y@.skip(0) =~= y@);
    while i < x.len() && i < y.len() && x[i] == y[i]
        invariant
            i <= x.len(),
            i <= y.len(),
            text_at_most(x@.skip(i as int), y@.skip(i as int)) == text_at_most(x@, y@),
        decreases x.len() - i,
    {
        assert(x@.skip(i as int).drop_first() =~= x@.skip(i + 1));
        assert(y@.skip(i as int).drop_first() =~= y@.skip(i + 1));
        i = i + 1;
    }
    if i == x.len() {
        true
    } else if i == y.len() {
        false
    } else {
        x[i] < y[i]
    }
}

impl Ranked for String {
    open spec fn at_most(a: Seq<char>, b: Seq<char>) -> bool {
        text_at_most(a, b)
    }

    fn is_at_most(&self, other: &Self) -> (b: bool) {
        text_is_at_most(self.as_str(), other.as_str())
    }

    proof fn order_is_total(a: Seq<char>, b: Seq<char>) {
        lemma_text_order_total(a, b);
    }

    proof fn order_is_transitive(a: Seq<char>, b: Seq<char>, c: Seq<char>) {
        lemma_text_order_transitive(a, b, c);
    }
}

impl Ranked for i32 {
    open spec fn at_most(a: i32, b: i32) -> bool {
        a <= b
    }

    fn is_at_most(&self, other: &Self) -> (b: bool) {
        *self <= *other
    }

    proof fn order_is_total(a: i32, b: i32) {
    }

    proof fn order_is_transitive(a: i32, b: i32, c: i32) {
    }
}

/// The values without those that equal the one just before them.
pub open spec fn without_repeats(s: Seq<i32>) -> Seq<i32>
    decreases s.len(),
{
    if s.len() <= 1 {
        s
    } else {
        let before = without_repeats(s.drop_last());
        if s[s.len() - 2] == s.last() {
            before
        } else {
            before.push(s.last())
        }
    }
}

/// The numbers in ascending order, each of them once.
pub fn sorted_once(list: Vec<i32>) -> (r: Vec<i32>)
    ensures
        r@ == without_repeats(sorted::<i32>(list@)),
{
    let s = sort_stable(list);
    assert(views(list@) =~= list@);
    assert(views(s@) =~= s@);
    let mut out: Vec<i32> = Vec::new();
    let mut i: usize = 0;
    while i < s.len()
        invariant
            i <= s.len(),
            out@ == without_repeats(s@.take(i as int)),
        decreases s.len() - i,
    {
        assert(s@.take(i + 1).drop_last() =~= s@.take(i as int));
        if i == 0 {
            out.push(s[i]);
            assert(out@ =~= s@.take(1));
        } else if s[i] != s[i - 1] {
            out.push(s[i]);
        }
        i = i + 1;
    }
    assert(s@.take(s@.len() as int) =~= s@);
    out
}

/// The numbers come out in strictly ascending order, and they are the numbers
/// that came in.
pub proof fn law_sorted_once(s: Seq<i32>)
    ensures
        ({
            let r = without_repeats(sorted::<i32>(s));
            &&& forall|i: int, j: int| 0 <= i < j < r.len() ==> r[i] < r[j]
            &&& forall|x: i32| r.contains(x) <==> s.contains(x)
        }),
{
    broadcast use vstd::seq_lib::group_to_multiset_ensures;

    law_sorted::<i32>(s);
    lemma_without_repeats(sorted::<i32>(s));
    assert forall|x: i32| without_repeats(sorted::<i32>(s)).contains(x) <==> s.contains(x) by {
        assert(sorted::<i32>(s).to_multiset().count(x) == s.to_multiset().count(x));
        assert(sorted::<i32>(s).contains(x) <==> s.contains(x));
    }
}

proof fn lemma_without_repeats(s: Seq<i32>)
    requires
        in_order::<i32>(s),
    ensures
        ({
            let r = without_repeats(s);
            &&& s.len() > 0 ==> r.len() > 0 && r.last() == s.last()
            &&& forall|i: int, j: int| 0 <= i < j < r.len() ==> r[i] < r[j]
            &&& forall|x: i32| r.contains(x) <==> s.contains(x)
        }),
    decreases s.len(),
{
    if s.len() > 1 {
        let t = s.drop_last();
        assert forall|i: int, j: int| #![trigger t[i], t[j]] 0 <= i < j < t.len() implies i32::at_most(t[i], t[j]) by {
            assert(i32::at_most(s[i], s[j]));
        }
        lemma_without_repeats(t);
        let b = without_repeats(t);
        let r = without_repeats(s);
        assert(i32::at_most(s[s.len() - 2], s[s.len() - 1]));
        assert(t.last() == s[s.len() - 2]);
        assert(s =~= t.push(s.last()));
        assert forall|x: i32| r.contains(x) <==> s.contains(x) by {
            assert(b.contains(x) <==> t.contains(x));
            if s.contains(x) && x != s.last() {
                let k = choose|k: int| 0 <= k < s.len() && s[k] == x;
                assert(t[k] == x);
            }
            if t.contains(x) {
                let k = choose|k: int| 0 <= k < t.len() && t[k] == x;
                assert(s[k] == x);
            }
            if b.contains(x) {
                let k = choose|k: int| 0 <= k < b.len() && b[k] == x;
                assert(r[k] == x);
            }
            if r.contains(x) {
                let k = choose|k: int| 0 <= k < r.len() && r[k] == x;
                if k < b.len() {
                    assert(b[k] == x);
                }
            }
            if x == s.last() {
                assert(s[s.len() - 1] == x);
                assert(r[r.len() - 1] == x);
            }
        }
    }
}

/// One text may stand before another where it begins it, or where at the first
/// character in which they differ its own is the smaller one; and only there.
pub proof fn law_dictionary_order(a: Seq<char>, b: Seq<char>)
    ensures
        text_at_most(a, b) <==> {
            ||| a.is_prefix_of(b)
            ||| exists|k: int|
                #![trigger a[k]]
                0 <= k < a.len() && k < b.len() && a[k] < b[k] && a.take(k) == b.take(k)
        },
    decreases a.len(),
{
    if a.len() > 0 && b.len() > 0 {
        let x = a.drop_first();
        let y = b.drop_first();
        if a[0] == b[0] {
            law_dictionary_order(x, y);
            assert(seq![a[0]] + x =~= a && seq![b[0]] + y =~= b);
            if text_at_most(a, b) && !a.is_prefix_of(b) {
                if x.is_prefix_of(y) {
                    assert(y.subrange(0, x.len() as int) =~= x);
                    assert(b.subrange(0, a.len() as int) =~= a);
                }
                let k = choose|k: int|
                    #![trigger x[k]]
                    0 <= k < x.len() && k < y.len() && x[k] < y[k] && x.take(k) == y.take(k);
                assert(a[k + 1] == x[k] && b[k + 1] == y[k]);
                assert(a.take(k + 1) =~= seq![a[0]] + x.take(k));
                assert(b.take(k + 1) =~= seq![b[0]] + y.take(k));
            }
            if a.is_prefix_of(b) {
                assert(x =~= y.subrange(0, x.len() as int)) by {
                    assert forall|j: int| 0 <= j < x.len() implies x[j] == y[j] by {
                        assert(a[j + 1] == b.subrange(0, a.len() as int)[j + 1]);
                    }
                }
            }
            assert forall|k: int|
                #![trigger a[k]]
                0 <= k < a.len() && k < b.len() && a[k] < b[k] && a.take(k) == b.take(
                    k,
                ) implies text_at_most(a, b) by {
                assert(k > 0);
                assert(x[k - 1] == a[k] && y[k - 1] == b[k]);
                assert(x.take(k - 1) =~= a.take(k).drop_first());
                assert(y.take(k - 1) =~= b.take(k).drop_first());
            }
        } else {
            if a.is_prefix_of(b) {
                assert(a[0] == b.subrange(0, a.len() as int)[0]);
            }
            assert(a.take(0) =~= b.take(0));
            assert forall|k: int|
                #![trigger a[k]]
                0 <= k < a.len() && k < b.len() && a[k] < b[k] && a.take(k) == b.take(
                    k,
                ) implies k == 0 by {
                if k > 0 {
                    assert(a.take(k)[0] == b.take(k)[0]);
                }
            }
        }
    } else if a.len() == 0 {
        assert(a =~= b.subrange(0, 0));
    }
}

proof fn lemma_inserted_behind_its_like<A: Ranked>(s: Seq<A::V>, x: A::V, y: A::V)
    ensures
        inserted::<A>(s, x).filter(|v: A::V| A::at_most(v, y) && A::at_most(y, v)) == s.push(
            x,
        ).filter(|v: A::V| A::at_most(v, y) && A::at_most(y, v)),
    decreases s.len(),
{
    reveal(Seq::filter);
    let like = |v: A::V| A::at_most(v, y) && A::at_most(y, v);
    if s.len() > 0 && !A::at_most(s.last(), x) {
        let front = s.drop_last();
        lemma_inserted_behind_its_like::<A>(front, x, y);
        let all = inserted::<A>(s, x);
        assert(all.drop_last() =~= inserted::<A>(front, x));
        assert(all.last() == s.last());
        assert(s.push(x).drop_last() =~= s);
        assert(s.push(x).last() == x);
        assert(front.push(x).drop_last() =~= front);
        assert(front.push(x).last() == x);
        if like(x) && like(s.last()) {
            A::order_is_transitive(s.last(), y, x);
        }
        assert(s.filter(like) == (if like(s.last()) {
            front.filter(like).push(s.last())
        } else {
            front.filter(like)
        }));
        assert(front.push(x).filter(like) == (if like(x) {
            front.filter(like).push(x)
        } else {
            front.filter(like)
        }));
        assert(s.push(x).filter(like) == (if like(x) {
            s.filter(like).push(x)
        } else {
            s.filter(like)
        }));
        assert(all.filter(like) == (if like(s.last()) {
            inserted::<A>(front, x).filter(like).push(s.last())
        } else {
            inserted::<A>(front, x).filter(like)
        }));
    }
}

/// Values on a par stay in the order in which they came.
pub proof fn law_sorted_keeps_the_order_of_its_like<A: Ranked>(s: Seq<A::V>, y: A::V)
    ensures
        sorted::<A>(s).filter(|v: A::V| A::at_most(v, y) && A::at_most(y, v)) == s.filter(
            |v: A::V| A::at_most(v, y) && A::at_most(y, v),
        ),
    decreases s.len(),
{
    reveal(Seq::filter);
    if s.len() > 0 {
        let before = sorted::<A>(s.drop_last());
        law_sorted_keeps_the_order_of_its_like::<A>(s.drop_last(), y);
        lemma_inserted_behind_its_like::<A>(before, s.last(), y);
        assert(before.push(s.last()).drop_last() =~= before);
    }
}

/// The order of whole numbers is their own.
pub proof fn law_order_of_numbers(a: i32, b: i32)
    ensures
        <i32 as Ranked>::at_most(a, b) <==> a <= b,
{
}

} // verus!
