//! The decisions of a run: what to remove, what to install, what to update.
use vstd::prelude::*;
use crate::entries::{entry_provides, plain_names, plain_name_list, provided, PackageEntry};
use crate::package_list::{contains_name, lemma_remove_each_append, remove_each, remove_first};
use crate::text::texts;

verus! {

broadcast use vstd::multiset::group_multiset_axioms;

/// The explicitly installed packages that neither the official nor the AUR
/// list installs: those are removed.
pub fn packages_to_remove(system_packages: Vec<String>, official: &Vec<PackageEntry>, aur: &Vec<PackageEntry>) -> (r: Vec<String>)
    ensures
        texts(r@) == remove_each(texts(system_packages@), provided(official@) + provided(aur@)),
{
    let ghost sv = texts(system_packages@);
    let left = crate::official::subtract_vec(system_packages, official);
    let r = crate::official::subtract_vec(left, aur);
    proof {
        lemma_remove_each_append(sv, provided(official@), provided(aur@));
    }
    r
}

/// Law: where each package is installed once, the packages removed are
/// exactly the installed ones that neither list declares.
pub proof fn lemma_removed_are_undeclared(system: Seq<Seq<char>>, official: Seq<PackageEntry>, aur: Seq<PackageEntry>)
    requires
        system.no_duplicates(),
    ensures
        remove_each(system, provided(official) + provided(aur)).to_set() == system.to_set().difference(
            provided(official).to_set().union(provided(aur).to_set()),
        ),
{
    let declared = provided(official) + provided(aur);
    crate::package_list::lemma_remove_each_set(system, declared);
    assert forall|x: Seq<char>| #[trigger] declared.to_set().contains(x) == provided(official).to_set().union(provided(aur).to_set()).contains(x) by {
        if declared.contains(x) {
            let i = choose|i: int| 0 <= i < declared.len() && declared[i] == x;
            if i < provided(official).len() {
                assert(provided(official)[i] == x);
            } else {
                assert(provided(aur)[i - provided(official).len()] == x);
            }
        }
        if provided(official).contains(x) {
            let i = choose|i: int| 0 <= i < provided(official).len() && provided(official)[i] == x;
            assert(declared[i] == x);
        }
        if provided(aur).contains(x) {
            let i = choose|i: int| 0 <= i < provided(aur).len() && provided(aur)[i] == x;
            assert(declared[i + provided(official).len()] == x);
        }
    }
    assert(declared.to_set() =~= provided(official).to_set().union(provided(aur).to_set()));
}

/// Law: where each package is installed once, no package that the
/// official or the AUR list declares is removed: neither a name given
/// alone nor a `sub` package of a table, whatever the table's other keys.
pub proof fn lemma_declared_packages_kept(system: Seq<Seq<char>>, official: Seq<PackageEntry>, aur: Seq<PackageEntry>)
    requires
        system.no_duplicates(),
    ensures
        forall|i: int|
            0 <= i < official.len() && (#[trigger] official[i]) is Name ==> !remove_each(
                system,
                provided(official) + provided(aur),
            ).contains(official[i]->Name_0@),
        forall|i: int|
            0 <= i < aur.len() && (#[trigger] aur[i]) is Name ==> !remove_each(
                system,
                provided(official) + provided(aur),
            ).contains(aur[i]->Name_0@),
        forall|i: int, k: int|
            0 <= i < official.len() && official[i] is Table && 0 <= k < official[i]->Table_0.sub.len()
                ==> !remove_each(system, provided(official) + provided(aur)).contains(
                #[trigger] official[i]->Table_0.sub@[k]@,
            ),
        forall|i: int, k: int|
            0 <= i < aur.len() && aur[i] is Table && 0 <= k < aur[i]->Table_0.sub.len() ==> !remove_each(
                system,
                provided(official) + provided(aur),
            ).contains(#[trigger] aur[i]->Table_0.sub@[k]@),
{
    let r = remove_each(system, provided(official) + provided(aur));
    lemma_removed_are_undeclared(system, official, aur);
    crate::entries::lemma_provided_members(official);
    crate::entries::lemma_provided_members(aur);
    assert forall|x: Seq<char>| provided(official).contains(x) || provided(aur).contains(x) implies !r.contains(
        x,
    ) by {
        if r.contains(x) {
            assert(r.to_set().contains(x));
            assert(provided(official).to_set().contains(x) || provided(aur).to_set().contains(x));
        }
    }
}

/// Going through the names in order: a name that is (still) among the
/// installed packages is taken out of them once, any other is to install.
/// The result is (to install, installed packages not yet claimed).
pub open spec fn install_plan(installed: Seq<Seq<char>>, names: Seq<Seq<char>>) -> (Seq<Seq<char>>, Seq<Seq<char>>)
    decreases names.len(),
{
    if names.len() == 0 {
        (Seq::empty(), installed)
    } else {
        let prev = install_plan(installed, names.drop_last());
        let n = names.last();
        if prev.1.contains(n) {
            (prev.0, prev.1.remove_value(n))
        } else {
            (prev.0.push(n), prev.1)
        }
    }
}

/// The names of `wanted` (its plain names; tables and other values are
/// passed over) that are to be installed, and the installed packages that
/// none of them claimed.
pub fn plan_installs(installed: Vec<String>, wanted: &Vec<PackageEntry>) -> (r: (Vec<String>, Vec<String>))
    ensures
        (texts(r.0@), texts(r.1@)) == install_plan(texts(installed@), plain_names(wanted@)),
{
    let names = plain_name_list(wanted);
    let ghost nv = texts(names@);
    let mut todo: Vec<String> = Vec::new();
    let mut left = installed;
    let ghost iv = texts(left@);
    proof {
        assert(nv.take(0) =~= Seq::<Seq<char>>::empty());
        assert(texts(todo@) =~= Seq::<Seq<char>>::empty());
    }
    let mut i: usize = 0;
    while i < names.len()
        invariant
            i <= names.len(),
            nv == texts(names@),
            nv == plain_names(wanted@),
            (texts(todo@), texts(left@)) == install_plan(iv, nv.take(i as int)),
        decreases names.len() - i,
    {
        proof {
            assert(nv.take(i + 1).drop_last() =~= nv.take(i as int));
            assert(nv.take(i + 1).last() == names@[i as int]@);
        }
        if contains_name(&left, &names[i]) {
            remove_first(&mut left, &names[i]);
        } else {
            let ghost before = texts(todo@);
            todo.push(names[i].clone());
            proof {
                assert(texts(todo@) =~= before.push(names@[i as int]@));
            }
        }
        i = i + 1;
    }
    proof {
        assert(nv.take(i as int) =~= nv);
    }
    (todo, left)
}

/// Law: the installed packages left unclaimed are those that the removal
/// step computes for the same names; and every name is either to install or
/// claims an installed package: as multisets, the names are the ones to
/// install plus the installed packages claimed.
pub proof fn lemma_install_plan(installed: Seq<Seq<char>>, names: Seq<Seq<char>>)
    ensures
        install_plan(installed, names).1 == remove_each(installed, names),
        names.to_multiset() == install_plan(installed, names).0.to_multiset().add(
            installed.to_multiset().sub(install_plan(installed, names).1.to_multiset()),
        ),
        install_plan(installed, names).1.to_multiset().subset_of(installed.to_multiset()),
    decreases names.len(),
{
    broadcast use vstd::seq_lib::group_to_multiset_ensures;
    if names.len() == 0 {
        assert(names.to_multiset() =~= vstd::multiset::Multiset::empty());
        assert(installed.to_multiset().sub(installed.to_multiset()) =~= vstd::multiset::Multiset::empty());
        assert(Seq::<Seq<char>>::empty().to_multiset() =~= vstd::multiset::Multiset::empty());
        assert(names.to_multiset() =~= install_plan(installed, names).0.to_multiset().add(
            installed.to_multiset().sub(install_plan(installed, names).1.to_multiset()),
        ));
    } else {
        let init = names.drop_last();
        let n = names.last();
        lemma_install_plan(installed, init);
        let prev = install_plan(installed, init);
        assert(names =~= init.push(n));
        assert(names.to_multiset() =~= init.to_multiset().insert(n));
        if prev.1.contains(n) {
            crate::package_list::lemma_remove_value_multiset(prev.1, n);
            assert(prev.1.to_multiset().count(n) > 0);
            assert(names.to_multiset() =~= install_plan(installed, names).0.to_multiset().add(
                installed.to_multiset().sub(install_plan(installed, names).1.to_multiset()),
            ));
        } else {
            prev.1.index_of_first_ensures(n);
            assert(prev.1.remove_value(n) == prev.1);
            assert(prev.0.push(n).to_multiset() =~= prev.0.to_multiset().insert(n));
            assert(prev.1.to_multiset().count(n) == 0);
            crate::package_list::lemma_remove_value_multiset(prev.1, n);
            assert(prev.1.to_multiset().remove(n) =~= prev.1.to_multiset());
            assert(names.to_multiset() =~= install_plan(installed, names).0.to_multiset().add(
                installed.to_multiset().sub(install_plan(installed, names).1.to_multiset()),
            ));
        }
    }
}

/// Law: where the installed packages and the names are each without
/// repeats, the packages to install are exactly the names not installed.
pub proof fn lemma_install_plan_set(installed: Seq<Seq<char>>, names: Seq<Seq<char>>)
    requires
        installed.no_duplicates(),
        names.no_duplicates(),
    ensures
        install_plan(installed, names).0.to_set() == names.to_set().difference(installed.to_set()),
{
    broadcast use vstd::seq_lib::group_to_multiset_ensures;
    lemma_install_plan(installed, names);
    let todo = install_plan(installed, names).0;
    let left = install_plan(installed, names).1;
    installed.lemma_multiset_has_no_duplicates();
    names.lemma_multiset_has_no_duplicates();
    crate::package_list::lemma_remove_each_multiset(installed, names);
    assert forall|x: Seq<char>| #[trigger] todo.to_set().contains(x) == names.to_set().difference(installed.to_set()).contains(x) by {
        assert(todo.contains(x) <==> todo.to_multiset().count(x) > 0);
        assert(names.contains(x) <==> names.to_multiset().count(x) > 0);
        assert(installed.contains(x) <==> installed.to_multiset().count(x) > 0);
        assert(left.to_multiset().count(x) == installed.to_multiset().sub(names.to_multiset()).count(x));
    }
    assert(todo.to_set() =~= names.to_set().difference(installed.to_set()));
}

/// The packages an AUR entry installs: a name itself, a table its `sub` packages.
pub fn aur_entry_packages(entry: &PackageEntry) -> (r: Vec<String>)
    ensures
        texts(r@) == entry_provides(*entry),
{
    let mut r: Vec<String> = Vec::new();
    match entry {
        PackageEntry::Name(n) => {
            r.push(n.clone());
            proof {
                assert(texts(r@) =~= seq![n@]);
            }
        },
        PackageEntry::Table(t) => {
            crate::entries::extend_strings(&mut r, &t.sub);
            proof {
                assert(texts(r@) =~= texts(t.sub@));
            }
        },
        PackageEntry::Other => {
            proof {
                assert(texts(r@) =~= Seq::<Seq<char>>::empty());
            }
        },
    }
    r
}

/// Whether every one of `packages` is among `installed`.
pub fn all_installed(installed: &Vec<String>, packages: &Vec<String>) -> (r: bool)
    ensures
        r == (forall|i: int| 0 <= i < packages.len() ==> texts(installed@).contains(#[trigger] texts(packages@)[i])),
{
    let mut i: usize = 0;
    while i < packages.len()
        invariant
            i <= packages.len(),
            forall|j: int| 0 <= j < i ==> texts(installed@).contains(#[trigger] texts(packages@)[j]),
        decreases packages.len() - i,
    {
        if !contains_name(installed, &packages[i]) {
            proof {
                assert(texts(packages@)[i as int] == packages@[i as int]@);
            }
            return false;
        }
        i = i + 1;
    }
    true
}

/// What to do with an AUR entry.
pub enum AurStep {
    /// Its packages are installed and its build directory is there: pull,
    /// and build again where the PKGBUILD changed.
    Update,
    /// Clone and build it; `create_dir` where its build directory is to be
    /// made first (its packages are installed but the directory is gone).
    Install { create_dir: bool },
}

/// What to do with an AUR entry, given whether its packages are all
/// installed and whether its build directory exists.
pub fn aur_step(packages_installed: bool, directory_exists: bool) -> (r: AurStep)
    ensures
        packages_installed && directory_exists ==> r == AurStep::Update,
        packages_installed && !directory_exists ==> r == (AurStep::Install { create_dir: true }),
        !packages_installed ==> r == (AurStep::Install { create_dir: false }),
{
    if packages_installed {
        if directory_exists {
            AurStep::Update
        } else {
            AurStep::Install { create_dir: true }
        }
    } else {
        AurStep::Install { create_dir: false }
    }
}

} // verus!
