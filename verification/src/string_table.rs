//! A table from strings to strings, each key held once.
use vstd::prelude::*;

verus! {

/// Keys and values as character sequences, in the order they are kept.
pub open spec fn pair_texts(es: Seq<(String, String)>) -> Seq<(Seq<char>, Seq<char>)> {
    es.map_values(|p: (String, String)| (p.0@, p.1@))
}

/// No key occurs twice.
pub open spec fn keys_unique(es: Seq<(Seq<char>, Seq<char>)>) -> bool {
    forall|i: int, j: int| 0 <= i < es.len() && 0 <= j < es.len() && i != j ==> #[trigger] es[i].0 != #[trigger] es[j].0
}

/// The map that a list of pairs with distinct keys stands for.
pub open spec fn pairs_map(es: Seq<(Seq<char>, Seq<char>)>) -> Map<Seq<char>, Seq<char>> {
    Map::new(
        |k: Seq<char>| exists|i: int| 0 <= i < es.len() && es[i].0 == k,
        |k: Seq<char>| es[choose|i: int| 0 <= i < es.len() && es[i].0 == k].1,
    )
}

/// A table from strings to strings; inserting a key that is there replaces its value.
pub struct StringTable {
    entries: Vec<(String, String)>,
}

impl View for StringTable {
    type V = Map<Seq<char>, Seq<char>>;

    closed spec fn view(&self) -> Map<Seq<char>, Seq<char>> {
        pairs_map(pair_texts(self.entries@))
    }
}

impl StringTable {
    /// The table keeps each key once.
    pub closed spec fn wf(&self) -> bool {
        keys_unique(pair_texts(self.entries@))
    }

    /// An empty table.
    pub fn new() -> (t: StringTable)
        ensures
            t.wf(),
            t@ == Map::<Seq<char>, Seq<char>>::empty(),
    {
        let t = StringTable { entries: Vec::new() };
        proof {
            assert(t@ =~= Map::<Seq<char>, Seq<char>>::empty());
        }
        t
    }

    /// The position of `key`, if the table holds it.
    fn position(&self, key: &str) -> (r: Option<usize>)
        requires
            self.wf(),
        ensures
            match r {
                Some(i) => i < self.entries@.len() && pair_texts(self.entries@)[i as int].0 == key@,
                None => !self@.contains_key(key@),
            },
    {
        let ghost es = pair_texts(self.entries@);
        let k = crate::command::owned(key);
        let mut i: usize = 0;
        while i < self.entries.len()
            invariant
                i <= self.entries.len(),
                es == pair_texts(self.entries@),
                k@ == key@,
                forall|j: int| 0 <= j < i ==> es[j].0 != key@,
            decreases self.entries.len() - i,
        {
            if self.entries[i].0 == k {
                return Some(i);
            }
            i = i + 1;
        }
        proof {
            if self@.contains_key(key@) {
                let j = choose|j: int| 0 <= j < es.len() && es[j].0 == key@;
                assert(es[j].0 == key@);
            }
        }
        None
    }

    /// Whether the table holds `key`.
    pub fn contains_key(&self, key: &str) -> (r: bool)
        requires
            self.wf(),
        ensures
            r == self@.contains_key(key@),
    {
        match self.position(key) {
            Some(i) => {
                proof {
                    assert(pair_texts(self.entries@)[i as int].0 == key@);
                }
                true
            },
            None => false,
        }
    }

    /// The value of `key`, if the table holds it.
    pub fn get(&self, key: &str) -> (r: Option<String>)
        requires
            self.wf(),
        ensures
            match r {
                Some(v) => self@.contains_key(key@) && v@ == self@[key@],
                None => !self@.contains_key(key@),
            },
    {
        match self.position(key) {
            Some(i) => {
                proof {
                    let es = pair_texts(self.entries@);
                    assert(es[i as int].0 == key@);
                    let c = choose|c: int| 0 <= c < es.len() && es[c].0 == key@;
                    assert(c == i);
                }
                Some(self.entries[i].1.clone())
            },
            None => None,
        }
    }

    /// Sets the value of `key` to `value`, in place of any it had.
    pub fn insert(&mut self, key: String, value: String)
        requires
            old(self).wf(),
        ensures
            final(self).wf(),
            final(self)@ == old(self)@.insert(key@, value@),
    {
        let ghost es = pair_texts(self.entries@);
        match self.position(key.as_str()) {
            Some(i) => {
                let ghost kv = key@;
                let ghost vv = value@;
                self.entries.set(i, (key, value));
                proof {
                    let ns = pair_texts(self.entries@);
                    assert(ns =~= es.update(i as int, (kv, vv)));
                    assert(keys_unique(ns));
                    assert forall|k: Seq<char>| #[trigger] pairs_map(ns).contains_key(k) == old(self)@.insert(kv, vv).contains_key(k) by {
                        if k == kv {
                            assert(ns[i as int].0 == kv);
                        } else {
                            if pairs_map(ns).contains_key(k) {
                                let j = choose|j: int| 0 <= j < ns.len() && ns[j].0 == k;
                                assert(es[j].0 == k);
                            }
                            if old(self)@.contains_key(k) {
                                let j = choose|j: int| 0 <= j < es.len() && es[j].0 == k;
                                assert(ns[j].0 == k);
                            }
                        }
                    }
                    assert forall|k: Seq<char>| #[trigger] pairs_map(ns).contains_key(k) implies pairs_map(ns)[k] == old(self)@.insert(kv, vv)[k] by {
                        let j = choose|j: int| 0 <= j < ns.len() && ns[j].0 == k;
                        if k == kv {
                            assert(j == i);
                        } else {
                            let c = choose|c: int| 0 <= c < es.len() && es[c].0 == k;
                            assert(es[j].0 == k);
                            assert(c == j);
                        }
                    }
                    assert(pairs_map(ns) =~= old(self)@.insert(kv, vv));
                }
            },
            None => {
                let ghost kv = key@;
                let ghost vv = value@;
                self.entries.push((key, value));
                proof {
                    let ns = pair_texts(self.entries@);
                    assert(ns =~= es.push((kv, vv)));
                    assert(!old(self)@.contains_key(kv));
                    assert forall|j: int| 0 <= j < es.len() implies es[j].0 != kv by {
                        if es[j].0 == kv {
                            assert(old(self)@.contains_key(kv));
                        }
                    }
                    assert(keys_unique(ns));
                    assert forall|k: Seq<char>| #[trigger] pairs_map(ns).contains_key(k) == old(self)@.insert(kv, vv).contains_key(k) by {
                        if k == kv {
                            assert(ns[es.len() as int].0 == kv);
                        } else {
                            if pairs_map(ns).contains_key(k) {
                                let j = choose|j: int| 0 <= j < ns.len() && ns[j].0 == k;
                                assert(es[j].0 == k);
                            }
                            if old(self)@.contains_key(k) {
                                let j = choose|j: int| 0 <= j < es.len() && es[j].0 == k;
                                assert(ns[j].0 == k);
                            }
                        }
                    }
                    assert forall|k: Seq<char>| #[trigger] pairs_map(ns).contains_key(k) implies pairs_map(ns)[k] == old(self)@.insert(kv, vv)[k] by {
                        let j = choose|j: int| 0 <= j < ns.len() && ns[j].0 == k;
                        if k == kv {
                            assert(j == es.len());
                        } else {
                            let c = choose|c: int| 0 <= c < es.len() && es[c].0 == k;
                            assert(es[j].0 == k);
                            assert(c == j);
                        }
                    }
                    assert(pairs_map(ns) =~= old(self)@.insert(kv, vv));
                }
            },
        }
    }
}

} // verus!
