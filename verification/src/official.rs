//! Packages of the official repositories, handled through pacman.
use vstd::prelude::*;
use crate::command::{flag_if, owned, push_arg, push_arg_if, Invocation};
use crate::entries::{provided, provided_names, PackageEntry};
use crate::package_list::{contains_name, remove_each, remove_first, subtract_names};
use crate::text::{has_infix, lines, lines_of, split_by, split_on, str_contains, texts};
use crate::entries::extend_strings;

verus! {

/// The installed packages that none of `lua_table` installs: one occurrence
/// of each package that an entry installs (a name itself, a table its `sub`
/// packages) is taken out of `rust_table`, in order.
pub fn subtract_vec(rust_table: Vec<String>, lua_table: &Vec<PackageEntry>) -> (r: Vec<String>)
    ensures
        texts(r@) == remove_each(texts(rust_table@), provided(lua_table@)),
{
    let names = provided_names(lua_table);
    subtract_names(rust_table, &names)
}

/// Law: subtracting one package list and then another gives the same as the
/// other way round, and subtracting an empty list changes nothing.
pub proof fn lemma_subtract_vec_order(rust_table: Seq<Seq<char>>, a: Seq<PackageEntry>, b: Seq<PackageEntry>)
    ensures
        remove_each(remove_each(rust_table, provided(a)), provided(b)) == remove_each(
            remove_each(rust_table, provided(b)),
            provided(a),
        ),
        remove_each(rust_table, provided(Seq::<PackageEntry>::empty())) == rust_table,
{
    crate::package_list::lemma_remove_each_order(rust_table, provided(a), provided(b));
    assert(provided(Seq::<PackageEntry>::empty()) == Seq::<Seq<char>>::empty());
}

/// `pacman -S` of the given packages, run through `auth_agent`.
pub fn install_packages_invocation(package_names: &Vec<String>, assume_yes: bool, auth_agent: &str) -> (r: Invocation)
    ensures
        r.program@ == auth_agent@,
        texts(r.args@) == seq!["pacman"@, "-S"@] + texts(package_names@) + flag_if(assume_yes, "--noconfirm"@),
{
    let mut args: Vec<String> = Vec::new();
    push_arg(&mut args, "pacman");
    push_arg(&mut args, "-S");
    extend_strings(&mut args, package_names);
    push_arg_if(&mut args, assume_yes, "--noconfirm");
    proof {
        assert(texts(args@) =~= seq!["pacman"@, "-S"@] + texts(package_names@) + flag_if(assume_yes, "--noconfirm"@));
    }
    Invocation { program: owned(auth_agent), args }
}

/// `pacman -D --asexplicit` of one package, run through `auth_agent`.
pub fn mark_package_as_explicit_invocation(package: &str, auth_agent: &str) -> (r: Invocation)
    ensures
        r.program@ == auth_agent@,
        texts(r.args@) == seq!["pacman"@, "-D"@, "--asexplicit"@, package@],
{
    let mut args: Vec<String> = Vec::new();
    push_arg(&mut args, "pacman");
    push_arg(&mut args, "-D");
    push_arg(&mut args, "--asexplicit");
    push_arg(&mut args, package);
    proof {
        assert(texts(args@) =~= seq!["pacman"@, "-D"@, "--asexplicit"@, package@]);
    }
    Invocation { program: owned(auth_agent), args }
}

/// `pacman --asdep -D` of one package, run through `auth_agent`: marks a
/// package that others depend on as a dependency.
pub fn mark_package_as_dependency_invocation(package: &str, auth_agent: &str) -> (r: Invocation)
    ensures
        r.program@ == auth_agent@,
        texts(r.args@) == seq!["pacman"@, "--asdep"@, "-D"@, package@],
{
    let mut args: Vec<String> = Vec::new();
    push_arg(&mut args, "pacman");
    push_arg(&mut args, "--asdep");
    push_arg(&mut args, "-D");
    push_arg(&mut args, package);
    proof {
        assert(texts(args@) =~= seq!["pacman"@, "--asdep"@, "-D"@, package@]);
    }
    Invocation { program: owned(auth_agent), args }
}

/// `pacman -Syu`, run through `auth_agent`.
pub fn upgrade_all_packages_invocation(assume_yes: bool, auth_agent: &str) -> (r: Invocation)
    ensures
        r.program@ == auth_agent@,
        texts(r.args@) == seq!["pacman"@, "-Syu"@] + flag_if(assume_yes, "--noconfirm"@),
{
    let mut args: Vec<String> = Vec::new();
    push_arg(&mut args, "pacman");
    push_arg(&mut args, "-Syu");
    push_arg_if(&mut args, assume_yes, "--noconfirm");
    proof {
        assert(texts(args@) =~= seq!["pacman"@, "-Syu"@] + flag_if(assume_yes, "--noconfirm"@));
    }
    Invocation { program: owned(auth_agent), args }
}

/// `pacman -Rns` of the given packages, run through `auth_agent`.
pub fn remove_packages_invocation(package_names: &Vec<String>, assume_yes: bool, auth_agent: &str) -> (r: Invocation)
    ensures
        r.program@ == auth_agent@,
        texts(r.args@) == seq!["pacman"@, "-Rns"@] + flag_if(assume_yes, "--noconfirm"@) + texts(package_names@),
{
    let mut args: Vec<String> = Vec::new();
    push_arg(&mut args, "pacman");
    push_arg(&mut args, "-Rns");
    push_arg_if(&mut args, assume_yes, "--noconfirm");
    extend_strings(&mut args, package_names);
    proof {
        assert(texts(args@) =~= seq!["pacman"@, "-Rns"@] + flag_if(assume_yes, "--noconfirm"@) + texts(package_names@));
    }
    Invocation { program: owned(auth_agent), args }
}

/// The shell line that removes the packages nothing depends on any more.
pub fn orphan_cleanup_script(assume_yes: bool, auth_agent: &str) -> (r: String)
    ensures
        r@ == "pacman -Qtdq | "@ + auth_agent@ + (if assume_yes {
            " pacman -Rns --noconfirm -"@
        } else {
            " pacman -Rns -"@
        }),
{
    let mut r = owned("pacman -Qtdq | ");
    r.append(auth_agent);
    if assume_yes {
        r.append(" pacman -Rns --noconfirm -");
    } else {
        r.append(" pacman -Rns -");
    }
    r
}

/// `pacman -Sg` of one name: lists the members of the group of that name.
pub fn group_query_invocation(package: &str) -> (r: Invocation)
    ensures
        r.program@ == "pacman"@,
        texts(r.args@) == seq!["-Sg"@, package@],
{
    let mut args: Vec<String> = Vec::new();
    push_arg(&mut args, "-Sg");
    push_arg(&mut args, package);
    proof {
        assert(texts(args@) =~= seq!["-Sg"@, package@]);
    }
    Invocation { program: owned("pacman"), args }
}

/// Whether the output of `pacman -Sg` names a group: it has a line.
pub fn is_group_listing(listing: &str) -> (r: bool)
    ensures
        r == (lines_of(listing@).len() > 0),
{
    let ls = lines(listing);
    ls.len() > 0
}

/// The members that the output of `pacman -Sg` lists, one per line.
pub fn group_members(listing: &str) -> (r: Vec<String>)
    ensures
        texts(r@) == lines_of(listing@),
{
    lines(listing)
}

/// A line of pacman's output that reports a dependency that a removal would break.
pub open spec fn breaks_dependency(line: Seq<char>) -> bool {
    has_infix(line, "breaks dependency"@)
}

/// The package that such a line names: its third space-separated word.
pub open spec fn blocker_of(line: Seq<char>) -> Seq<char> {
    split_by(line, ' ')[2]
}

/// Each line that reports a broken dependency has a third word.
pub open spec fn blockers_readable(stdout: Seq<char>) -> bool {
    forall|i: int|
        0 <= i < split_by(stdout, '\n').len() && breaks_dependency(#[trigger] split_by(stdout, '\n')[i])
            ==> split_by(split_by(stdout, '\n')[i], ' ').len() >= 3
}

/// Whether every line of `stdout` that reports a broken dependency has a third word.
pub fn blockers_are_readable(stdout: &str) -> (r: bool)
    ensures
        r == blockers_readable(stdout@),
{
    let ls = split_on(stdout, '\n');
    let ghost lv = split_by(stdout@, '\n');
    let mut i: usize = 0;
    while i < ls.len()
        invariant
            i <= ls.len(),
            lv == split_by(stdout@, '\n'),
            texts(ls@) == lv,
            forall|k: int| 0 <= k < i && breaks_dependency(#[trigger] lv[k]) ==> split_by(lv[k], ' ').len() >= 3,
        decreases ls.len() - i,
    {
        proof {
            assert(lv[i as int] == ls@[i as int]@);
        }
        if str_contains(ls[i].as_str(), "breaks dependency") {
            let words = split_on(ls[i].as_str(), ' ');
            if words.len() < 3 {
                proof {
                    assert(texts(words@).len() == words.len());
                }
                return false;
            }
        }
        i = i + 1;
    }
    true
}

/// Going through the lines in order, each package that a line reports as
/// needed by others and that is still among `names` moves (once) from the
/// names to the blockers. The result is (blockers, names left).
pub open spec fn scan_blockers(lines: Seq<Seq<char>>, names: Seq<Seq<char>>) -> (Seq<Seq<char>>, Seq<Seq<char>>)
    decreases lines.len(),
{
    if lines.len() == 0 {
        (Seq::empty(), names)
    } else {
        let prev = scan_blockers(lines.drop_last(), names);
        let line = lines.last();
        if breaks_dependency(line) && prev.1.contains(blocker_of(line)) {
            (prev.0.push(blocker_of(line)), prev.1.remove_value(blocker_of(line)))
        } else {
            prev
        }
    }
}

/// After a failed `pacman -Rns`, the packages that others still depend on
/// (to be marked as dependencies) and the packages left to remove.
pub fn dependency_blockers(stdout: &str, package_names: &Vec<String>) -> (r: (Vec<String>, Vec<String>))
    requires
        blockers_readable(stdout@),
    ensures
        (texts(r.0@), texts(r.1@)) == scan_blockers(split_by(stdout@, '\n'), texts(package_names@)),
{
    let ls = split_on(stdout, '\n');
    let ghost lv = split_by(stdout@, '\n');
    let mut deps: Vec<String> = Vec::new();
    let mut rest: Vec<String> = Vec::new();
    extend_strings(&mut rest, package_names);
    proof {
        assert(texts(deps@) =~= Seq::<Seq<char>>::empty());
        assert(texts(rest@) =~= texts(package_names@));
        assert(lv.take(0) =~= Seq::<Seq<char>>::empty());
    }
    let mut i: usize = 0;
    while i < ls.len()
        invariant
            i <= ls.len(),
            lv == split_by(stdout@, '\n'),
            texts(ls@) == lv,
            blockers_readable(stdout@),
            (texts(deps@), texts(rest@)) == scan_blockers(lv.take(i as int), texts(package_names@)),
        decreases ls.len() - i,
    {
        proof {
            assert(lv.take(i + 1).drop_last() =~= lv.take(i as int));
            assert(lv.take(i + 1).last() == lv[i as int]);
            assert(lv[i as int] == ls@[i as int]@);
        }
        let line = &ls[i];
        if str_contains(line.as_str(), "breaks dependency") {
            let words = split_on(line.as_str(), ' ');
            proof {
                assert(breaks_dependency(lv[i as int]));
                assert(texts(words@).len() >= 3);
            }
            let target = words[2].clone();
            proof {
                assert(target@ == blocker_of(lv[i as int]));
            }
            if contains_name(&rest, &target) {
                let ghost before = texts(deps@);
                remove_first(&mut rest, &target);
                deps.push(target);
                proof {
                    assert(texts(deps@) =~= before.push(blocker_of(lv[i as int])));
                }
            }
        }
        i = i + 1;
    }
    proof {
        assert(lv.take(i as int) =~= lv);
    }
    (deps, rest)
}

/// Law: the blockers and the names left are, together, the names there were
/// (as a multiset); and where there is a blocker, fewer names are left, so
/// retrying the removal with what is left ends.
pub proof fn lemma_blockers_partition(lines: Seq<Seq<char>>, names: Seq<Seq<char>>)
    ensures
        (scan_blockers(lines, names).0 + scan_blockers(lines, names).1).to_multiset() == names.to_multiset(),
        scan_blockers(lines, names).0.len() + scan_blockers(lines, names).1.len() == names.len(),
        scan_blockers(lines, names).0.len() > 0 ==> scan_blockers(lines, names).1.len() < names.len(),
    decreases lines.len(),
{
    broadcast use vstd::seq_lib::group_to_multiset_ensures;
    broadcast use vstd::multiset::group_multiset_axioms;
    if lines.len() > 0 {
        lemma_blockers_partition(lines.drop_last(), names);
        let prev = scan_blockers(lines.drop_last(), names);
        let line = lines.last();
        if breaks_dependency(line) && prev.1.contains(blocker_of(line)) {
            let b = blocker_of(line);
            crate::package_list::lemma_remove_value_multiset(prev.1, b);
            prev.1.index_of_first_ensures(b);
            let i = prev.1.index_of_first(b).unwrap();
            vstd::seq_lib::lemma_multiset_commutative(prev.0, prev.1);
            vstd::seq_lib::lemma_multiset_commutative(prev.0.push(b), prev.1.remove_value(b));
            assert(prev.1.to_multiset().count(b) > 0);
            assert((prev.0.push(b) + prev.1.remove_value(b)).to_multiset() =~= (prev.0 + prev.1).to_multiset());
        }
    }
}

/// Where no package is reported as needed by others, the names are left as
/// they were.
proof fn lemma_no_blockers(lines: Seq<Seq<char>>, names: Seq<Seq<char>>)
    ensures
        scan_blockers(lines, names).0.len() == 0 ==> scan_blockers(lines, names).1 == names,
    decreases lines.len(),
{
    if lines.len() > 0 {
        lemma_no_blockers(lines.drop_last(), names);
    }
}

/// The `pacman -Rns` to run for the packages left to remove; none where no
/// package is left.
pub fn removal_start(package_names: &Vec<String>, assume_yes: bool, auth_agent: &str) -> (r: Option<Invocation>)
    ensures
        r is None <==> package_names.len() == 0,
        r matches Some(inv) ==> inv.words() == (
            auth_agent@,
            seq!["pacman"@, "-Rns"@] + flag_if(assume_yes, "--noconfirm"@) + texts(package_names@),
        ),
{
    if package_names.len() == 0 {
        None
    } else {
        Some(remove_packages_invocation(package_names, assume_yes, auth_agent))
    }
}

/// What follows a `pacman -Rns` of some packages.
pub enum RemovalStep {
    /// It succeeded: the packages are gone.
    Removed,
    /// It failed and no package was reported as needed by others: these
    /// (all of them) could not be removed.
    GiveUp(Vec<String>),
    /// It failed because others need some of the packages: run `marks`
    /// (which mark those as dependencies), then remove `rest` afresh.
    Retry { marks: Vec<Invocation>, rest: Vec<String> },
}

/// What follows a `pacman -Rns` of `package_names` that succeeded or not,
/// given its output: done on success; on failure, the packages that others
/// need are marked as dependencies and the removal is tried again with the
/// rest, which is shorter, or, where none is needed by others, the removal
/// gives up.
pub fn removal_after(package_names: &Vec<String>, succeeded: bool, stdout: &str, auth_agent: &str) -> (r: RemovalStep)
    requires
        !succeeded ==> blockers_readable(stdout@),
    ensures
        succeeded <==> r is Removed,
        !succeeded ==> ({
            let scan = scan_blockers(split_by(stdout@, '\n'), texts(package_names@));
            match r {
                RemovalStep::Removed => false,
                RemovalStep::GiveUp(left) => scan.0.len() == 0 && texts(left@) == texts(package_names@),
                RemovalStep::Retry { marks, rest } => {
                    &&& scan.0.len() > 0
                    &&& texts(rest@) == scan.1
                    &&& rest.len() < package_names.len()
                    &&& marks.len() == scan.0.len()
                    &&& forall|i: int|
                        0 <= i < marks.len() ==> (#[trigger] marks@[i]).words() == (
                            auth_agent@,
                            seq!["pacman"@, "--asdep"@, "-D"@, scan.0[i]],
                        )
                },
            }
        }),
{
    if succeeded {
        return RemovalStep::Removed;
    }
    let (blockers, rest) = dependency_blockers(stdout, package_names);
    let ghost scan = scan_blockers(split_by(stdout@, '\n'), texts(package_names@));
    proof {
        lemma_blockers_partition(split_by(stdout@, '\n'), texts(package_names@));
        lemma_no_blockers(split_by(stdout@, '\n'), texts(package_names@));
        assert(texts(blockers@).len() == blockers.len());
        assert(texts(rest@).len() == rest.len());
    }
    if blockers.len() == 0 {
        return RemovalStep::GiveUp(rest);
    }
    let mut marks: Vec<Invocation> = Vec::new();
    let mut i: usize = 0;
    while i < blockers.len()
        invariant
            i <= blockers.len(),
            marks.len() == i,
            texts(blockers@) == scan.0,
            forall|j: int|
                0 <= j < i ==> (#[trigger] marks@[j]).words() == (
                    auth_agent@,
                    seq!["pacman"@, "--asdep"@, "-D"@, scan.0[j]],
                ),
        decreases blockers.len() - i,
    {
        proof {
            assert(blockers@[i as int]@ == scan.0[i as int]);
        }
        marks.push(mark_package_as_dependency_invocation(blockers[i].as_str(), auth_agent));
        i = i + 1;
    }
    RemovalStep::Retry { marks, rest }
}

} // verus!
