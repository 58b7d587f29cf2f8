//! The package lists of the configuration, as plain values.
use vstd::prelude::*;
use crate::text::texts;

verus! {

/// A package given as a table: `base` names the build directory (and the
/// AUR repository), `sub` the packages that its build installs, `url` an
/// optional repository to clone from in place of the AUR.
pub struct PackageTable {
    pub base: Option<String>,
    pub sub: Vec<String>,
    pub url: Option<String>,
}

/// One element of a package list in the configuration.
pub enum PackageEntry {
    /// A package given by its name alone.
    Name(String),
    /// A package given as a table.
    Table(PackageTable),
    /// A value that is neither a name nor a table.
    Other,
}

/// The value of a key in a table of a package list, as the configuration
/// gives it: its text (as Lua's `tostring` writes it) and, where it is a
/// table, the texts of its elements in order.
pub struct LuaField {
    pub text: String,
    pub items: Option<Vec<String>>,
}

/// An element of a package list, as the configuration gives it.
pub enum LuaEntry {
    /// A string.
    Text(String),
    /// A table: its keys (as text) and values.
    Table(Vec<(String, LuaField)>),
    /// Any other value.
    Other,
}

/// The text of the last field with key `key`, if any.
pub open spec fn field_text(fields: Seq<(String, LuaField)>, key: Seq<char>) -> Option<Seq<char>>
    decreases fields.len(),
{
    if fields.len() == 0 {
        None
    } else if fields.last().0@ == key {
        Some(fields.last().1.text@)
    } else {
        field_text(fields.drop_last(), key)
    }
}

/// The elements of the `sub` fields, in order.
pub open spec fn sub_items(fields: Seq<(String, LuaField)>) -> Seq<Seq<char>>
    decreases fields.len(),
{
    if fields.len() == 0 {
        Seq::empty()
    } else if fields.last().0@ == "sub"@ {
        sub_items(fields.drop_last()) + match fields.last().1.items {
            Some(v) => texts(v@),
            None => Seq::empty(),
        }
    } else {
        sub_items(fields.drop_last())
    }
}

/// An entry that can be read as a package: each of its `sub` fields is a table.
pub open spec fn lua_entry_readable(e: LuaEntry) -> bool {
    match e {
        LuaEntry::Table(fs) => forall|i: int|
            0 <= i < fs@.len() && (#[trigger] fs@[i]).0@ == "sub"@ ==> fs@[i].1.items is Some,
        _ => true,
    }
}

/// An optional string, as text.
pub open spec fn opt_text(o: Option<String>) -> Option<Seq<char>> {
    match o {
        Some(s) => Some(s@),
        None => None,
    }
}

/// `r` is the package that the configuration entry `e` gives.
pub open spec fn reads_as(e: LuaEntry, r: PackageEntry) -> bool {
    match (e, r) {
        (LuaEntry::Text(s), PackageEntry::Name(n)) => n@ == s@,
        (LuaEntry::Table(fs), PackageEntry::Table(t)) => {
            &&& opt_text(t.base) == field_text(fs@, "base"@)
            &&& texts(t.sub@) == sub_items(fs@)
            &&& opt_text(t.url) == field_text(fs@, "url"@)
        },
        (LuaEntry::Other, PackageEntry::Other) => true,
        _ => false,
    }
}

/// The package that a configuration entry gives: a string names a package;
/// a table gives its `base`, its `sub` packages and its `url`.
pub fn package_entry(raw: &LuaEntry) -> (r: PackageEntry)
    requires
        lua_entry_readable(*raw),
    ensures
        reads_as(*raw, r),
{
    match raw {
        LuaEntry::Text(s) => PackageEntry::Name(s.clone()),
        LuaEntry::Other => PackageEntry::Other,
        LuaEntry::Table(fields) => {
            let base_key = crate::command::owned("base");
            let sub_key = crate::command::owned("sub");
            let url_key = crate::command::owned("url");
            let mut base: Option<String> = None;
            let mut url: Option<String> = None;
            let mut sub: Vec<String> = Vec::new();
            let mut i: usize = 0;
            proof {
                assert(fields@.take(0) =~= Seq::<(String, LuaField)>::empty());
                assert(texts(sub@) =~= Seq::<Seq<char>>::empty());
            }
            while i < fields.len()
                invariant
                    i <= fields.len(),
                    lua_entry_readable(*raw),
                    *raw == LuaEntry::Table(*fields),
                    base_key@ == "base"@,
                    sub_key@ == "sub"@,
                    url_key@ == "url"@,
                    opt_text(base) == field_text(fields@.take(i as int), "base"@),
                    opt_text(url) == field_text(fields@.take(i as int), "url"@),
                    texts(sub@) == sub_items(fields@.take(i as int)),
                decreases fields.len() - i,
            {
                proof {
                    assert(fields@.take(i + 1).drop_last() =~= fields@.take(i as int));
                    assert(fields@.take(i + 1).last() == fields@[i as int]);
                }
                let (key, field) = &fields[i];
                if *key == base_key {
                    base = Some(field.text.clone());
                }
                if *key == url_key {
                    url = Some(field.text.clone());
                }
                if *key == sub_key {
                    proof {
                        assert(fields@[i as int].0@ == "sub"@);
                    }
                    match &field.items {
                        Some(items) => {
                            extend_strings(&mut sub, items);
                        },
                        None => {},
                    }
                }
                proof {
                    reveal_strlit("base");
                    reveal_strlit("url");
                    reveal_strlit("sub");
                }
                i = i + 1;
            }
            proof {
                assert(fields@.take(i as int) =~= fields@);
            }
            PackageEntry::Table(PackageTable { base, sub, url })
        },
    }
}

/// Whether a configuration entry can be read as a package.
pub fn lua_entry_is_readable(raw: &LuaEntry) -> (r: bool)
    ensures
        r == lua_entry_readable(*raw),
{
    match raw {
        LuaEntry::Table(fields) => {
            let sub_key = crate::command::owned("sub");
            let mut i: usize = 0;
            while i < fields.len()
                invariant
                    i <= fields.len(),
                    *raw == LuaEntry::Table(*fields),
                    sub_key@ == "sub"@,
                    forall|k: int| 0 <= k < i && (#[trigger] fields@[k]).0@ == "sub"@ ==> fields@[k].1.items is Some,
                decreases fields.len() - i,
            {
                if fields[i].0 == sub_key && fields[i].1.items.is_none() {
                    proof {
                        assert(fields@[i as int].0@ == "sub"@);
                    }
                    return false;
                }
                i = i + 1;
            }
            true
        },
        _ => true,
    }
}

/// The packages that a configuration list gives, in order.
pub fn package_entries(raw: &Vec<LuaEntry>) -> (r: Vec<PackageEntry>)
    requires
        forall|i: int| 0 <= i < raw.len() ==> lua_entry_readable(#[trigger] raw@[i]),
    ensures
        r.len() == raw.len(),
        forall|i: int| 0 <= i < raw.len() ==> reads_as(#[trigger] raw@[i], r@[i]),
{
    let mut r: Vec<PackageEntry> = Vec::new();
    let mut i: usize = 0;
    while i < raw.len()
        invariant
            i <= raw.len(),
            r.len() == i,
            forall|k: int| 0 <= k < raw.len() ==> lua_entry_readable(#[trigger] raw@[k]),
            forall|k: int| 0 <= k < i ==> reads_as(#[trigger] raw@[k], r@[k]),
        decreases raw.len() - i,
    {
        r.push(package_entry(&raw[i]));
        i = i + 1;
    }
    r
}

/// The packages that an entry installs: a name installs itself, a table its
/// `sub` packages.
pub open spec fn entry_provides(e: PackageEntry) -> Seq<Seq<char>> {
    match e {
        PackageEntry::Name(n) => seq![n@],
        PackageEntry::Table(t) => texts(t.sub@),
        PackageEntry::Other => Seq::empty(),
    }
}

/// The packages that a list of entries installs, in order.
pub open spec fn provided(es: Seq<PackageEntry>) -> Seq<Seq<char>>
    decreases es.len(),
{
    if es.len() == 0 {
        Seq::empty()
    } else {
        provided(es.drop_last()) + entry_provides(es.last())
    }
}

/// The build directory of an entry: a name is its own, a table names its
/// `base` (if it has one).
pub open spec fn entry_base(e: PackageEntry) -> Seq<Seq<char>> {
    match e {
        PackageEntry::Name(n) => seq![n@],
        PackageEntry::Table(t) => match t.base {
            Some(b) => seq![b@],
            None => Seq::empty(),
        },
        PackageEntry::Other => Seq::empty(),
    }
}

/// The build directories of a list of entries, in order.
pub open spec fn bases(es: Seq<PackageEntry>) -> Seq<Seq<char>>
    decreases es.len(),
{
    if es.len() == 0 {
        Seq::empty()
    } else {
        bases(es.drop_last()) + entry_base(es.last())
    }
}

/// The names given directly (not in a table), in order.
pub open spec fn plain_names(es: Seq<PackageEntry>) -> Seq<Seq<char>>
    decreases es.len(),
{
    if es.len() == 0 {
        Seq::empty()
    } else {
        match es.last() {
            PackageEntry::Name(n) => plain_names(es.drop_last()).push(n@),
            _ => plain_names(es.drop_last()),
        }
    }
}

/// Law: a package given by its name alone is the table whose `base` and
/// only `sub` package are that name: it installs and builds the same.
pub proof fn lemma_name_is_table(n: String, t: PackageTable)
    requires
        t.base == Some(n),
        texts(t.sub@) == seq![n@],
    ensures
        entry_provides(PackageEntry::Name(n)) == entry_provides(PackageEntry::Table(t)),
        entry_base(PackageEntry::Name(n)) == entry_base(PackageEntry::Table(t)),
{
}

/// Law: a list declares every package that one of its entries names: a
/// name given alone, and each `sub` package of a table, whatever the
/// table's other keys (`base`, `url`). Conversely, everything it declares
/// is such a package.
pub proof fn lemma_provided_members(es: Seq<PackageEntry>)
    ensures
        forall|i: int|
            0 <= i < es.len() && (#[trigger] es[i]) is Name ==> provided(es).contains(es[i]->Name_0@),
        forall|i: int, k: int|
            0 <= i < es.len() && es[i] is Table && 0 <= k < es[i]->Table_0.sub.len() ==> provided(
                es,
            ).contains(#[trigger] es[i]->Table_0.sub@[k]@),
        forall|x: Seq<char>|
            #[trigger] provided(es).contains(x) ==> exists|i: int|
                0 <= i < es.len() && (#[trigger] entry_provides(es[i])).contains(x),
    decreases es.len(),
{
    if es.len() > 0 {
        let init = es.drop_last();
        let last = es.len() - 1;
        lemma_provided_members(init);
        assert(es[last] == es.last());
        let p = provided(es);
        assert(p == provided(init) + entry_provides(es.last()));
        assert forall|i: int| 0 <= i < es.len() && (#[trigger] es[i]) is Name implies p.contains(
            es[i]->Name_0@,
        ) by {
            if i < last {
                assert(init[i] == es[i]);
                let j = choose|j: int| 0 <= j < provided(init).len() && provided(init)[j] == es[i]->Name_0@;
                assert(p[j] == provided(init)[j]);
            } else {
                assert(p[provided(init).len() as int] == es[i]->Name_0@);
            }
        }
        assert forall|i: int, k: int|
            0 <= i < es.len() && es[i] is Table && 0 <= k < es[i]->Table_0.sub.len() implies p.contains(
            #[trigger] es[i]->Table_0.sub@[k]@,
        ) by {
            if i < last {
                assert(init[i] == es[i]);
                let x = es[i]->Table_0.sub@[k]@;
                assert(provided(init).contains(x));
                let j = choose|j: int| 0 <= j < provided(init).len() && provided(init)[j] == x;
                assert(p[j] == provided(init)[j]);
            } else {
                assert(entry_provides(es.last())[k] == es[i]->Table_0.sub@[k]@);
                assert(p[provided(init).len() + k] == es[i]->Table_0.sub@[k]@);
            }
        }
        assert forall|x: Seq<char>| #[trigger] p.contains(x) implies exists|i: int|
            0 <= i < es.len() && (#[trigger] entry_provides(es[i])).contains(x) by {
            let j = choose|j: int| 0 <= j < p.len() && p[j] == x;
            if j < provided(init).len() {
                assert(provided(init)[j] == x);
                assert(provided(init).contains(x));
                let i = choose|i: int| 0 <= i < init.len() && (#[trigger] entry_provides(init[i])).contains(x);
                assert(init[i] == es[i]);
            } else {
                assert(entry_provides(es.last())[j - provided(init).len()] == x);
                assert(entry_provides(es[last]).contains(x));
            }
        }
    }
}

/// Law: a list names as build directories every name given alone and the
/// `base` of every table, whatever the table's other keys (`sub`, `url`).
/// Conversely, every build directory it names is such a name or base.
pub proof fn lemma_bases_members(es: Seq<PackageEntry>)
    ensures
        forall|i: int|
            0 <= i < es.len() && (#[trigger] es[i]) is Name ==> bases(es).contains(es[i]->Name_0@),
        forall|i: int|
            0 <= i < es.len() && (#[trigger] es[i]) is Table && es[i]->Table_0.base is Some ==> bases(
                es,
            ).contains(es[i]->Table_0.base->0@),
        forall|x: Seq<char>|
            #[trigger] bases(es).contains(x) ==> exists|i: int|
                0 <= i < es.len() && (#[trigger] entry_base(es[i])).contains(x),
    decreases es.len(),
{
    if es.len() > 0 {
        let init = es.drop_last();
        let last = es.len() - 1;
        lemma_bases_members(init);
        assert(es[last] == es.last());
        let p = bases(es);
        assert(p == bases(init) + entry_base(es.last()));
        assert forall|i: int| 0 <= i < es.len() && (#[trigger] es[i]) is Name implies p.contains(
            es[i]->Name_0@,
        ) by {
            if i < last {
                assert(init[i] == es[i]);
                let j = choose|j: int| 0 <= j < bases(init).len() && bases(init)[j] == es[i]->Name_0@;
                assert(p[j] == bases(init)[j]);
            } else {
                assert(p[bases(init).len() as int] == es[i]->Name_0@);
            }
        }
        assert forall|i: int|
            0 <= i < es.len() && (#[trigger] es[i]) is Table && es[i]->Table_0.base is Some implies p.contains(
            es[i]->Table_0.base->0@,
        ) by {
            if i < last {
                assert(init[i] == es[i]);
                let j = choose|j: int| 0 <= j < bases(init).len() && bases(init)[j] == es[i]->Table_0.base->0@;
                assert(p[j] == bases(init)[j]);
            } else {
                assert(p[bases(init).len() as int] == es[i]->Table_0.base->0@);
            }
        }
        assert forall|x: Seq<char>| #[trigger] p.contains(x) implies exists|i: int|
            0 <= i < es.len() && (#[trigger] entry_base(es[i])).contains(x) by {
            let j = choose|j: int| 0 <= j < p.len() && p[j] == x;
            if j < bases(init).len() {
                assert(bases(init)[j] == x);
                assert(bases(init).contains(x));
                let i = choose|i: int| 0 <= i < init.len() && (#[trigger] entry_base(init[i])).contains(x);
                assert(init[i] == es[i]);
            } else {
                assert(entry_base(es.last())[j - bases(init).len()] == x);
                assert(entry_base(es[last]).contains(x));
            }
        }
    }
}

/// Appends a copy of each of `from` to `to`.
pub fn extend_strings(to: &mut Vec<String>, from: &Vec<String>)
    ensures
        texts(final(to)@) == texts(old(to)@) + texts(from@),
{
    let ghost start = texts(to@);
    let mut i: usize = 0;
    while i < from.len()
        invariant
            i <= from.len(),
            start == texts(old(to)@),
            texts(to@) == start + texts(from@).take(i as int),
        decreases from.len() - i,
    {
        let s = from[i].clone();
        let ghost before = texts(to@);
        to.push(s);
        proof {
            assert(texts(to@) =~= before.push(from@[i as int]@));
            assert(texts(from@).take(i + 1) =~= texts(from@).take(i as int).push(from@[i as int]@));
        }
        i = i + 1;
    }
    proof {
        assert(texts(from@).take(i as int) =~= texts(from@));
    }
}

/// The packages that `entries` installs, in order.
pub fn provided_names(entries: &Vec<PackageEntry>) -> (r: Vec<String>)
    ensures
        texts(r@) == provided(entries@),
{
    let mut r: Vec<String> = Vec::new();
    let mut i: usize = 0;
    while i < entries.len()
        invariant
            i <= entries.len(),
            texts(r@) == provided(entries@.take(i as int)),
        decreases entries.len() - i,
    {
        proof {
            assert(entries@.take(i + 1).drop_last() =~= entries@.take(i as int));
        }
        match &entries[i] {
            PackageEntry::Name(n) => {
                let ghost before = texts(r@);
                r.push(n.clone());
                proof {
                    assert(texts(r@) =~= before + seq![n@]);
                }
            },
            PackageEntry::Table(t) => {
                extend_strings(&mut r, &t.sub);
            },
            PackageEntry::Other => {
                proof {
                    assert(texts(r@) =~= texts(r@) + Seq::<Seq<char>>::empty());
                }
            },
        }
        i = i + 1;
    }
    proof {
        assert(entries@.take(i as int) =~= entries@);
    }
    r
}

/// The build directories that `entries` names, in order.
pub fn base_names(entries: &Vec<PackageEntry>) -> (r: Vec<String>)
    ensures
        texts(r@) == bases(entries@),
{
    let mut r: Vec<String> = Vec::new();
    let mut i: usize = 0;
    while i < entries.len()
        invariant
            i <= entries.len(),
            texts(r@) == bases(entries@.take(i as int)),
        decreases entries.len() - i,
    {
        proof {
            assert(entries@.take(i + 1).drop_last() =~= entries@.take(i as int));
        }
        let ghost before = texts(r@);
        match &entries[i] {
            PackageEntry::Name(n) => {
                r.push(n.clone());
                proof {
                    assert(texts(r@) =~= before + seq![n@]);
                }
            },
            PackageEntry::Table(t) => {
                match &t.base {
                    Some(b) => {
                        r.push(b.clone());
                        proof {
                            assert(texts(r@) =~= before + seq![b@]);
                        }
                    },
                    None => {
                        proof {
                            assert(texts(r@) =~= before + Seq::<Seq<char>>::empty());
                        }
                    },
                }
            },
            PackageEntry::Other => {
                proof {
                    assert(texts(r@) =~= before + Seq::<Seq<char>>::empty());
                }
            },
        }
        i = i + 1;
    }
    proof {
        assert(entries@.take(i as int) =~= entries@);
    }
    r
}

/// The names that `entries` gives directly, in order.
pub fn plain_name_list(entries: &Vec<PackageEntry>) -> (r: Vec<String>)
    ensures
        texts(r@) == plain_names(entries@),
{
    let mut r: Vec<String> = Vec::new();
    let mut i: usize = 0;
    while i < entries.len()
        invariant
            i <= entries.len(),
            texts(r@) == plain_names(entries@.take(i as int)),
        decreases entries.len() - i,
    {
        proof {
            assert(entries@.take(i + 1).drop_last() =~= entries@.take(i as int));
        }
        match &entries[i] {
            PackageEntry::Name(n) => {
                let ghost before = texts(r@);
                r.push(n.clone());
                proof {
                    assert(texts(r@) =~= before.push(n@));
                }
            },
            _ => {},
        }
        i = i + 1;
    }
    proof {
        assert(entries@.take(i as int) =~= entries@);
    }
    r
}

} // verus!
