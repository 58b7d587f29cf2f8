//! Packages built from PKGBUILDs: the AUR, or another git repository.
use vstd::prelude::*;
use vstd::utf8::encode_utf8;
use crate::command::{flag_if, owned, push_arg, push_arg_if, Invocation};
use crate::entries::{base_names, bases, PackageEntry};
use crate::package_list::{remove_each, subtract_names};
use crate::text::{has_infix, split_by, split_on, str_contains, texts};

verus! {

/// Each of `names`, with `prefix` put before it.
pub open spec fn prefixed(prefix: Seq<char>, names: Seq<Seq<char>>) -> Seq<Seq<char>> {
    names.map_values(|n: Seq<char>| prefix + n)
}

/// The paths of the build directories that no entry of `aur_table` names
/// any more: the directory names in `entry_names`, less one occurrence of
/// each entry's base (a name is its own base), each put behind `aur_location`.
pub fn remove_uninstalled_aur_directories(aur_table: &Vec<PackageEntry>, entry_names: Vec<String>, aur_location: &str) -> (r: Vec<String>)
    ensures
        texts(r@) == prefixed(aur_location@, remove_each(texts(entry_names@), bases(aur_table@))),
{
    let keep = base_names(aur_table);
    let stale = subtract_names(entry_names, &keep);
    let ghost sv = texts(stale@);
    let mut r: Vec<String> = Vec::new();
    let mut i: usize = 0;
    while i < stale.len()
        invariant
            i <= stale.len(),
            sv == texts(stale@),
            texts(r@) == prefixed(aur_location@, sv.take(i as int)),
        decreases stale.len() - i,
    {
        let mut path = owned(aur_location);
        path.append(stale[i].as_str());
        let ghost before = texts(r@);
        r.push(path);
        proof {
            assert(sv[i as int] == stale@[i as int]@);
            assert(texts(r@) =~= before.push(aur_location@ + sv[i as int]));
            assert(texts(r@) =~= prefixed(aur_location@, sv.take(i + 1)));
        }
        i = i + 1;
    }
    proof {
        assert(sv.take(i as int) =~= sv);
    }
    r
}

/// Law: where each directory name occurs once, the directories removed are
/// exactly those that no entry names as its base.
pub proof fn lemma_stale_directories(aur_table: Seq<PackageEntry>, entry_names: Seq<Seq<char>>)
    requires
        entry_names.no_duplicates(),
    ensures
        remove_each(entry_names, bases(aur_table)).to_set() == entry_names.to_set().difference(
            bases(aur_table).to_set(),
        ),
{
    crate::package_list::lemma_remove_each_set(entry_names, bases(aur_table));
}

/// Law: where each directory name occurs once, the build directory of a
/// configured package is never among the paths removed: not that of a name
/// given alone, and not that of the `base` of a table, whatever the
/// table's other keys (`sub`, `url`).
pub proof fn lemma_configured_directories_kept(aur_table: Seq<PackageEntry>, entry_names: Seq<Seq<char>>, aur_location: Seq<char>)
    requires
        entry_names.no_duplicates(),
    ensures
        forall|i: int|
            0 <= i < aur_table.len() && (#[trigger] aur_table[i]) is Name ==> !prefixed(
                aur_location,
                remove_each(entry_names, bases(aur_table)),
            ).contains(aur_location + aur_table[i]->Name_0@),
        forall|i: int|
            0 <= i < aur_table.len() && (#[trigger] aur_table[i]) is Table && aur_table[i]->Table_0.base is Some
                ==> !prefixed(aur_location, remove_each(entry_names, bases(aur_table))).contains(
                aur_location + aur_table[i]->Table_0.base->0@,
            ),
{
    let r = remove_each(entry_names, bases(aur_table));
    lemma_stale_directories(aur_table, entry_names);
    crate::entries::lemma_bases_members(aur_table);
    assert forall|x: Seq<char>| bases(aur_table).contains(x) implies !prefixed(aur_location, r).contains(
        aur_location + x,
    ) by {
        if prefixed(aur_location, r).contains(aur_location + x) {
            let j = choose|j: int| 0 <= j < prefixed(aur_location, r).len() && prefixed(aur_location, r)[j] == aur_location + x;
            assert(prefixed(aur_location, r)[j] == aur_location + r[j]);
            assert((aur_location + r[j]).skip(aur_location.len() as int) =~= r[j]);
            assert((aur_location + x).skip(aur_location.len() as int) =~= x);
            assert(r[j] == x);
            assert(r.to_set().contains(x));
            assert(bases(aur_table).to_set().contains(x));
        }
    }
}

/// The build directory of `package`: `aur_location/package`.
pub fn package_directory(aur_location: &str, package: &str) -> (r: String)
    ensures
        r@ == aur_location@ + "/"@ + package@,
{
    let mut r = owned(aur_location);
    r.append("/");
    r.append(package);
    r
}

/// `git pull`: fetches the latest PKGBUILD into the build directory.
pub fn pull_invocation() -> (r: Invocation)
    ensures
        r.program@ == "git"@,
        texts(r.args@) == seq!["pull"@],
{
    let mut args: Vec<String> = Vec::new();
    push_arg(&mut args, "pull");
    proof {
        assert(texts(args@) =~= seq!["pull"@]);
    }
    Invocation { program: owned("git"), args }
}

/// Whether a package needs building again after `git pull`: unless git
/// reported exactly `Already up to date.` and a line end.
pub fn pull_needs_build(git_stdout: &str) -> (r: bool)
    ensures
        r == (git_stdout@ != "Already up to date.\n"@),
{
    let got = owned(git_stdout);
    let up_to_date = owned("Already up to date.\n");
    !(got == up_to_date)
}

/// Where to clone a package from: `url` where one is given, else the AUR
/// repository of `package`.
pub open spec fn clone_source(package: Seq<char>, url: Seq<char>) -> Seq<char> {
    if url.len() == 0 {
        "https://aur.archlinux.org/"@ + package + ".git"@
    } else {
        url
    }
}

/// `git clone` of the repository of `package` (or of `url`, where it is not empty).
pub fn clone_package_invocation(package: &str, url: &str) -> (r: Invocation)
    ensures
        r.program@ == "git"@,
        texts(r.args@) == seq!["clone"@, clone_source(package@, url@)],
{
    let mut args: Vec<String> = Vec::new();
    push_arg(&mut args, "clone");
    if url.is_empty() {
        let mut source = owned("https://aur.archlinux.org/");
        source.append(package);
        source.append(".git");
        let ghost before = texts(args@);
        args.push(source);
        proof {
            assert(texts(args@) =~= before.push(clone_source(package@, url@)));
        }
    } else {
        push_arg(&mut args, url);
    }
    proof {
        assert(texts(args@) =~= seq!["clone"@, clone_source(package@, url@)]);
    }
    Invocation { program: owned("git"), args }
}

/// `makepkg -s`: builds the package in the current directory.
pub fn makepkg_invocation(assume_yes: bool) -> (r: Invocation)
    ensures
        r.program@ == "makepkg"@,
        texts(r.args@) == seq!["-s"@] + flag_if(assume_yes, "--noconfirm"@),
{
    let mut args: Vec<String> = Vec::new();
    push_arg(&mut args, "-s");
    push_arg_if(&mut args, assume_yes, "--noconfirm");
    proof {
        assert(texts(args@) =~= seq!["-s"@] + flag_if(assume_yes, "--noconfirm"@));
    }
    Invocation { program: owned("makepkg"), args }
}

/// A built package archive: a name with `.pkg.tar.zst` in it.
pub open spec fn is_package_file(name: Seq<char>) -> bool {
    has_infix(name, ".pkg.tar.zst"@)
}

/// The built package archives that a directory listing names, one per line.
pub open spec fn package_files_of(listing: Seq<char>) -> Seq<Seq<char>> {
    split_by(listing, '\n').filter(|n: Seq<char>| is_package_file(n))
}

/// The built package archives that the output of `ls` names, in order.
pub fn built_package_files(listing: &str) -> (r: Vec<String>)
    ensures
        texts(r@) == package_files_of(listing@),
{
    let names = split_on(listing, '\n');
    let ghost nv = split_by(listing@, '\n');
    let mut r: Vec<String> = Vec::new();
    let mut i: usize = 0;
    while i < names.len()
        invariant
            i <= names.len(),
            nv == split_by(listing@, '\n'),
            texts(names@) == nv,
            texts(r@) == nv.take(i as int).filter(|n: Seq<char>| is_package_file(n)),
        decreases names.len() - i,
    {
        proof {
            assert(nv.take(i + 1).drop_last() =~= nv.take(i as int));
            assert(nv[i as int] == names@[i as int]@);
            reveal(Seq::filter);
        }
        let ghost before = texts(r@);
        if str_contains(names[i].as_str(), ".pkg.tar.zst") {
            r.push(names[i].clone());
            proof {
                assert(texts(r@) =~= before.push(nv[i as int]));
            }
        }
        i = i + 1;
    }
    proof {
        assert(nv.take(i as int) =~= nv);
    }
    r
}

/// The length in bytes of a string with these characters, as `str::len`
/// reports it.
pub open spec fn byte_len(s: Seq<char>) -> nat {
    (encode_utf8(s).len() as usize) as nat
}

/// An archive that may be installed for `package`: its name holds the
/// package's name and is under 9999 bytes long.
pub open spec fn file_matches(file: Seq<char>, package: Seq<char>) -> bool {
    has_infix(file, package) && byte_len(file) < 9999
}

/// `files[i]` is the archive chosen for `package`: the first of the
/// shortest that match.
pub open spec fn is_chosen_file(files: Seq<Seq<char>>, package: Seq<char>, i: int) -> bool {
    &&& 0 <= i < files.len()
    &&& file_matches(files[i], package)
    &&& forall|j: int| 0 <= j < files.len() && file_matches(#[trigger] files[j], package)
        ==> byte_len(files[i]) <= byte_len(files[j])
    &&& forall|j: int| 0 <= j < i && file_matches(#[trigger] files[j], package)
        ==> byte_len(files[i]) < byte_len(files[j])
}

/// The archive to install for `package`: the first of the shortest archives
/// whose name holds the package's name, or the empty string where none does.
pub open spec fn chosen_file(files: Seq<Seq<char>>, package: Seq<char>) -> Seq<char> {
    if exists|i: int| is_chosen_file(files, package, i) {
        files[choose|i: int| is_chosen_file(files, package, i)]
    } else {
        Seq::empty()
    }
}

/// Law: there is at most one chosen archive.
pub proof fn lemma_chosen_file_unique(files: Seq<Seq<char>>, package: Seq<char>, i: int, k: int)
    requires
        is_chosen_file(files, package, i),
        is_chosen_file(files, package, k),
    ensures
        i == k,
{
    if i < k {
        assert(file_matches(files[i], package));
    } else if k < i {
        assert(file_matches(files[k], package));
    }
}

/// Law: where no archive matches, none is chosen.
pub proof fn lemma_chosen_file_none(files: Seq<Seq<char>>, package: Seq<char>)
    requires
        forall|j: int| 0 <= j < files.len() ==> !file_matches(#[trigger] files[j], package),
    ensures
        chosen_file(files, package) == Seq::<char>::empty(),
{
}

proof fn lemma_chosen_exists(files: Seq<Seq<char>>, package: Seq<char>)
    requires
        exists|j: int| 0 <= j < files.len() && file_matches(#[trigger] files[j], package),
    ensures
        exists|i: int| is_chosen_file(files, package, i),
    decreases files.len(),
{
    let init = files.drop_last();
    let last = files.len() - 1;
    if exists|j: int| 0 <= j < init.len() && file_matches(#[trigger] init[j], package) {
        lemma_chosen_exists(init, package);
        let i0 = choose|i: int| is_chosen_file(init, package, i);
        assert(init[i0] == files[i0]);
        assert forall|j: int| 0 <= j < last implies init[j] == files[j] by {}
        if file_matches(files[last], package) && byte_len(files[last]) < byte_len(files[i0]) {
            assert forall|j: int| 0 <= j < files.len() && file_matches(#[trigger] files[j], package)
                implies byte_len(files[last]) <= byte_len(files[j]) by {
                if j < last {
                    assert(init[j] == files[j]);
                }
            }
            assert forall|j: int| 0 <= j < last && file_matches(#[trigger] files[j], package)
                implies byte_len(files[last]) < byte_len(files[j]) by {
                assert(init[j] == files[j]);
            }
            assert(is_chosen_file(files, package, last));
        } else {
            assert forall|j: int| 0 <= j < files.len() && file_matches(#[trigger] files[j], package)
                implies byte_len(files[i0]) <= byte_len(files[j]) by {
                if j < last {
                    assert(init[j] == files[j]);
                }
            }
            assert forall|j: int| 0 <= j < i0 && file_matches(#[trigger] files[j], package)
                implies byte_len(files[i0]) < byte_len(files[j]) by {
                assert(init[j] == files[j]);
            }
            assert(is_chosen_file(files, package, i0));
        }
    } else {
        let w = choose|j: int| 0 <= j < files.len() && file_matches(#[trigger] files[j], package);
        if w < last {
            assert(init[w] == files[w]);
        }
        assert forall|j: int| 0 <= j < last implies !file_matches(#[trigger] files[j], package) by {
            assert(init[j] == files[j]);
        }
        assert(is_chosen_file(files, package, last));
    }
}

/// Law: where some archive's name holds the package's name (and is under
/// 9999 bytes long), the archive chosen is one of the files, holds the
/// package's name, and is no longer than any other that does: a shorter
/// match is never passed over for a longer one.
pub proof fn lemma_chosen_file_shortest(files: Seq<Seq<char>>, package: Seq<char>)
    requires
        exists|j: int| 0 <= j < files.len() && file_matches(#[trigger] files[j], package),
    ensures
        files.contains(chosen_file(files, package)),
        has_infix(chosen_file(files, package), package),
        forall|j: int|
            0 <= j < files.len() && has_infix(#[trigger] files[j], package) && byte_len(files[j]) < 9999
                ==> byte_len(chosen_file(files, package)) <= byte_len(files[j]),
{
    lemma_chosen_exists(files, package);
    let i = choose|i: int| is_chosen_file(files, package, i);
    assert(chosen_file(files, package) == files[i]);
    assert forall|j: int|
        0 <= j < files.len() && has_infix(#[trigger] files[j], package) && byte_len(files[j]) < 9999
            implies byte_len(chosen_file(files, package)) <= byte_len(files[j]) by {
        assert(file_matches(files[j], package));
    }
}

/// The archive to install for `package` among `files`.
pub fn select_package_file(files: &Vec<String>, package: &str) -> (r: String)
    ensures
        r@ == chosen_file(texts(files@), package@),
{
    let ghost fv = texts(files@);
    let mut best: Option<usize> = None;
    let mut best_length: usize = 9999;
    let mut i: usize = 0;
    while i < files.len()
        invariant
            i <= files.len(),
            fv == texts(files@),
            best_length <= 9999,
            match best {
                None => best_length == 9999 && forall|j: int| 0 <= j < i ==> !file_matches(#[trigger] fv[j], package@),
                Some(b) => {
                    &&& b < i
                    &&& best_length == byte_len(fv[b as int])
                    &&& file_matches(fv[b as int], package@)
                    &&& forall|j: int| 0 <= j < i && file_matches(#[trigger] fv[j], package@)
                        ==> byte_len(fv[b as int]) <= byte_len(fv[j])
                    &&& forall|j: int| 0 <= j < b && file_matches(#[trigger] fv[j], package@)
                        ==> byte_len(fv[b as int]) < byte_len(fv[j])
                },
            },
        decreases files.len() - i,
    {
        let name = files[i].as_str();
        proof {
            assert(fv[i as int] == name@);
        }
        if str_contains(name, package) {
            if name.len() < best_length {
                best = Some(i);
                best_length = name.len();
            }
        }
        i = i + 1;
    }
    match best {
        Some(b) => {
            proof {
                assert(is_chosen_file(fv, package@, b as int));
                let c = choose|c: int| is_chosen_file(fv, package@, c);
                lemma_chosen_file_unique(fv, package@, b as int, c);
            }
            files[b].clone()
        },
        None => {
            proof {
                lemma_chosen_file_none(fv, package@);
            }
            String::new()
        },
    }
}

/// `pacman -U` of the archive chosen for each of `sub_packages`.
pub fn install_built_invocation(files: &Vec<String>, sub_packages: &Vec<String>, assume_yes: bool) -> (r: Invocation)
    ensures
        r.program@ == "pacman"@,
        texts(r.args@) == seq!["-U"@] + texts(sub_packages@).map_values(
            |p: Seq<char>| chosen_file(texts(files@), p),
        ) + flag_if(assume_yes, "--noconfirm"@),
{
    let ghost chosen = texts(sub_packages@).map_values(|p: Seq<char>| chosen_file(texts(files@), p));
    let mut args: Vec<String> = Vec::new();
    push_arg(&mut args, "-U");
    let mut i: usize = 0;
    while i < sub_packages.len()
        invariant
            i <= sub_packages.len(),
            chosen == texts(sub_packages@).map_values(|p: Seq<char>| chosen_file(texts(files@), p)),
            texts(args@) == seq!["-U"@] + chosen.take(i as int),
        decreases sub_packages.len() - i,
    {
        let file = select_package_file(files, sub_packages[i].as_str());
        let ghost before = texts(args@);
        let ghost fview = file@;
        args.push(file);
        proof {
            assert(texts(args@) =~= before.push(fview));
            assert(chosen[i as int] == chosen_file(texts(files@), sub_packages@[i as int]@));
            assert(texts(args@) =~= seq!["-U"@] + chosen.take(i + 1));
        }
        i = i + 1;
    }
    push_arg_if(&mut args, assume_yes, "--noconfirm");
    proof {
        assert(chosen.take(i as int) =~= chosen);
        assert(texts(args@) =~= seq!["-U"@] + chosen + flag_if(assume_yes, "--noconfirm"@));
    }
    Invocation { program: owned("pacman"), args }
}

} // verus!
