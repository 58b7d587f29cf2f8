//! Lists of package names and the subtraction that decides what to remove
//! and what to install.
use vstd::prelude::*;
use crate::text::texts;
use vstd::multiset::Multiset;

verus! {

broadcast use vstd::multiset::group_multiset_axioms;

/// `s` with one occurrence of each of `items` taken out, in the order of
/// `items`: an item that `s` no longer holds is passed over.
pub open spec fn remove_each(s: Seq<Seq<char>>, items: Seq<Seq<char>>) -> Seq<Seq<char>>
    decreases items.len(),
{
    if items.len() == 0 {
        s
    } else {
        remove_each(s, items.drop_last()).remove_value(items.last())
    }
}

/// Taking out `a + b` is taking out `a`, then `b`.
pub proof fn lemma_remove_each_append(s: Seq<Seq<char>>, a: Seq<Seq<char>>, b: Seq<Seq<char>>)
    ensures
        remove_each(s, a + b) == remove_each(remove_each(s, a), b),
    decreases b.len(),
{
    if b.len() == 0 {
        assert(a + b =~= a);
    } else {
        assert((a + b).drop_last() =~= a + b.drop_last());
        assert((a + b).last() == b.last());
        lemma_remove_each_append(s, a, b.drop_last());
    }
}

/// Removing a value removes its first occurrence.
pub proof fn lemma_remove_value_at(s: Seq<Seq<char>>, x: Seq<char>, i: int)
    requires
        0 <= i < s.len(),
        s[i] == x,
        forall|j: int| 0 <= j < i ==> s[j] != x,
    ensures
        s.remove_value(x) == s.remove(i),
{
    s.index_of_first_ensures(x);
    let k = s.index_of_first(x).unwrap();
    if k < i {
        assert(s[k] != x);
    } else if k > i {
        assert(s[i] != x);
    }
}

/// Removing a value that is not there changes nothing.
pub proof fn lemma_remove_value_absent(s: Seq<Seq<char>>, x: Seq<char>)
    requires
        !s.contains(x),
    ensures
        s.remove_value(x) == s,
{
    s.index_of_first_ensures(x);
}

proof fn lemma_first_index_exists(s: Seq<Seq<char>>, x: Seq<char>) -> (i: int)
    requires
        s.contains(x),
    ensures
        0 <= i < s.len(),
        s[i] == x,
        forall|j: int| 0 <= j < i ==> s[j] != x,
{
    s.index_of_first_ensures(x);
    s.index_of_first(x).unwrap()
}

proof fn lemma_remove_value_commute_ordered(s: Seq<Seq<char>>, x: Seq<char>, y: Seq<char>, ix: int, iy: int)
    requires
        0 <= ix < iy < s.len(),
        s[ix] == x,
        s[iy] == y,
        x != y,
        forall|j: int| 0 <= j < ix ==> s[j] != x,
        forall|j: int| 0 <= j < iy ==> s[j] != y,
    ensures
        s.remove_value(x).remove_value(y) == s.remove_value(y).remove_value(x),
{
    lemma_remove_value_at(s, x, ix);
    lemma_remove_value_at(s, y, iy);
    let t = s.remove(ix);
    let u = s.remove(iy);
    assert(t[iy - 1] == y);
    assert forall|j: int| 0 <= j < iy - 1 implies t[j] != y by {
        if j < ix {
            assert(t[j] == s[j]);
        } else {
            assert(t[j] == s[j + 1]);
        }
    }
    lemma_remove_value_at(t, y, iy - 1);
    assert(u[ix] == x);
    assert forall|j: int| 0 <= j < ix implies u[j] != x by {
        assert(u[j] == s[j]);
    }
    lemma_remove_value_at(u, x, ix);
    assert(t.remove(iy - 1) =~= u.remove(ix));
}

/// Removing two values gives the same in either order.
pub proof fn lemma_remove_value_commute(s: Seq<Seq<char>>, x: Seq<char>, y: Seq<char>)
    ensures
        s.remove_value(x).remove_value(y) == s.remove_value(y).remove_value(x),
{
    if x == y {
        return;
    }
    if !s.contains(x) {
        lemma_remove_value_absent(s, x);
        if s.contains(y) {
            let iy = lemma_first_index_exists(s, y);
            lemma_remove_value_at(s, y, iy);
            assert(!s.remove(iy).contains(x)) by {
                if s.remove(iy).contains(x) {
                    let k = choose|k: int| 0 <= k < s.remove(iy).len() && s.remove(iy)[k] == x;
                    if k < iy {
                        assert(s[k] == x);
                    } else {
                        assert(s[k + 1] == x);
                    }
                }
            }
            lemma_remove_value_absent(s.remove(iy), x);
        } else {
            lemma_remove_value_absent(s, y);
        }
    } else if !s.contains(y) {
        lemma_remove_value_absent(s, y);
        let ix = lemma_first_index_exists(s, x);
        lemma_remove_value_at(s, x, ix);
        assert(!s.remove(ix).contains(y)) by {
            if s.remove(ix).contains(y) {
                let k = choose|k: int| 0 <= k < s.remove(ix).len() && s.remove(ix)[k] == y;
                if k < ix {
                    assert(s[k] == y);
                } else {
                    assert(s[k + 1] == y);
                }
            }
        }
        lemma_remove_value_absent(s.remove(ix), y);
    } else {
        let ix = lemma_first_index_exists(s, x);
        let iy = lemma_first_index_exists(s, y);
        if ix < iy {
            lemma_remove_value_commute_ordered(s, x, y, ix, iy);
        } else {
            lemma_remove_value_commute_ordered(s, y, x, iy, ix);
        }
    }
}

proof fn lemma_remove_each_value_commute(s: Seq<Seq<char>>, b: Seq<Seq<char>>, x: Seq<char>)
    ensures
        remove_each(s.remove_value(x), b) == remove_each(s, b).remove_value(x),
    decreases b.len(),
{
    if b.len() > 0 {
        lemma_remove_each_value_commute(s, b.drop_last(), x);
        lemma_remove_value_commute(remove_each(s, b.drop_last()), x, b.last());
    }
}

/// Law: taking out one list and then another gives the same as taking them
/// out the other way round; and taking out nothing changes nothing.
pub proof fn lemma_remove_each_order(s: Seq<Seq<char>>, a: Seq<Seq<char>>, b: Seq<Seq<char>>)
    ensures
        remove_each(remove_each(s, a), b) == remove_each(remove_each(s, b), a),
        remove_each(s, Seq::empty()) == s,
    decreases a.len(),
{
    if a.len() > 0 {
        lemma_remove_each_order(s, a.drop_last(), b);
        lemma_remove_each_value_commute(remove_each(s, a.drop_last()), b, a.last());
    }
}

/// What `remove_value` does to the multiset of a sequence.
pub proof fn lemma_remove_value_multiset(s: Seq<Seq<char>>, x: Seq<char>)
    ensures
        s.remove_value(x).to_multiset() == s.to_multiset().remove(x),
{
    broadcast use vstd::seq_lib::group_to_multiset_ensures;
    s.index_of_first_ensures(x);
    match s.index_of_first(x) {
        Some(i) => {
            vstd::seq_lib::to_multiset_remove(s, i);
        },
        None => {
            assert(s.to_multiset().count(x) == 0);
            assert(s.to_multiset().remove(x) =~= s.to_multiset());
        },
    }
}

/// Law: the packages left after taking out a list are, counted with their
/// multiplicity, the packages there were less those in the list
/// (multiset difference).
pub proof fn lemma_remove_each_multiset(s: Seq<Seq<char>>, items: Seq<Seq<char>>)
    ensures
        remove_each(s, items).to_multiset() == s.to_multiset().sub(items.to_multiset()),
    decreases items.len(),
{
    broadcast use vstd::seq_lib::group_to_multiset_ensures;
    if items.len() == 0 {
        assert(items.to_multiset() =~= Multiset::empty());
        assert(s.to_multiset().sub(items.to_multiset()) =~= s.to_multiset());
    } else {
        let init = items.drop_last();
        let x = items.last();
        lemma_remove_each_multiset(s, init);
        lemma_remove_value_multiset(remove_each(s, init), x);
        assert(items =~= init.push(x));
        assert(items.to_multiset() =~= init.to_multiset().insert(x));
        assert(remove_each(s, items).to_multiset() =~= s.to_multiset().sub(items.to_multiset()));
    }
}

/// Law: where `s` names each package once, what is left is exactly the set
/// of names in `s` that `items` does not name, and it still names each once.
pub proof fn lemma_remove_each_set(s: Seq<Seq<char>>, items: Seq<Seq<char>>)
    requires
        s.no_duplicates(),
    ensures
        remove_each(s, items).no_duplicates(),
        remove_each(s, items).to_set() == s.to_set().difference(items.to_set()),
{
    broadcast use vstd::seq_lib::group_to_multiset_ensures;
    let r = remove_each(s, items);
    lemma_remove_each_multiset(s, items);
    s.lemma_multiset_has_no_duplicates();
    assert forall|x: Seq<char>| #[trigger] r.to_multiset().count(x) <= 1 by {
        assert(s.to_multiset().count(x) <= 1);
    }
    r.lemma_multiset_has_no_duplicates_conv();
    assert forall|x: Seq<char>| #[trigger] r.to_set().contains(x) == s.to_set().difference(items.to_set()).contains(x) by {
        assert(r.contains(x) <==> r.to_multiset().count(x) > 0);
        assert(s.contains(x) <==> s.to_multiset().count(x) > 0);
        assert(items.contains(x) <==> items.to_multiset().count(x) > 0);
        assert(s.to_multiset().count(x) <= 1);
    }
    assert(r.to_set() =~= s.to_set().difference(items.to_set()));
}

/// Takes the first element equal to `x` out of `v`, if there is one.
pub fn remove_first(v: &mut Vec<String>, x: &String)
    ensures
        texts(final(v)@) == texts(old(v)@).remove_value(x@),
{
    let ghost s = texts(v@);
    proof {
        s.index_of_first_ensures(x@);
    }
    let mut i: usize = 0;
    while i < v.len()
        invariant
            i <= v.len(),
            s == texts(v@),
            s == texts(old(v)@),
            forall|j: int| 0 <= j < i ==> s[j] != x@,
        decreases v.len() - i,
    {
        if v[i] == *x {
            proof {
                s.index_of_first_ensures(x@);
                assert(s[i as int] == x@);
                let k = s.index_of_first(x@).unwrap();
                assert(s[i as int] == x@);
                assert(k == i) by {
                    if k < i {
                        assert(s[k] != x@);
                    }
                }
            }
            v.remove(i);
            proof {
                assert(texts(v@) =~= s.remove(i as int));
                assert(s.index_of_first(x@) == Some(i as int));
                assert(s.remove_value(x@) == s.remove(i as int));
            }
            return;
        }
        i = i + 1;
    }
    proof {
        s.index_of_first_ensures(x@);
        assert(!s.contains(x@));
    }
}

/// `v` with one occurrence of each of `items` taken out, in order.
pub fn subtract_names(v: Vec<String>, items: &Vec<String>) -> (r: Vec<String>)
    ensures
        texts(r@) == remove_each(texts(v@), texts(items@)),
{
    let mut r = v;
    let mut k: usize = 0;
    while k < items.len()
        invariant
            k <= items.len(),
            texts(r@) == remove_each(texts(v@), texts(items@).take(k as int)),
        decreases items.len() - k,
    {
        remove_first(&mut r, &items[k]);
        proof {
            assert(texts(items@).take(k + 1).drop_last() =~= texts(items@).take(k as int));
        }
        k = k + 1;
    }
    proof {
        assert(texts(items@).take(k as int) =~= texts(items@));
    }
    r
}

/// Whether `v` holds a string equal to `x`.
pub fn contains_name(v: &Vec<String>, x: &String) -> (r: bool)
    ensures
        r == texts(v@).contains(x@),
{
    let mut i: usize = 0;
    while i < v.len()
        invariant
            i <= v.len(),
            forall|j: int| 0 <= j < i ==> texts(v@)[j] != x@,
        decreases v.len() - i,
    {
        if v[i] == *x {
            proof {
                assert(texts(v@)[i as int] == x@);
            }
            return true;
        }
        i = i + 1;
    }
    false
}

} // verus!
