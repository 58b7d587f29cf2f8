//! Flatpak applications.
use vstd::prelude::*;
use crate::command::{flag_if, owned, push_arg, push_arg_if, Invocation};
use crate::entries::extend_strings;
use crate::package_list::{remove_each, subtract_names};
use crate::text::{lines, lines_of, texts};

verus! {

/// The installed applications that `lua_table` does not list: one
/// occurrence of each listed name is taken out of `rust_table`, in order.
pub fn subtract_vec(rust_table: Vec<String>, lua_table: &Vec<String>) -> (r: Vec<String>)
    ensures
        texts(r@) == remove_each(texts(rust_table@), texts(lua_table@)),
{
    subtract_names(rust_table, lua_table)
}

/// `flatpak list --app --columns=application`: lists the installed applications.
pub fn list_invocation() -> (r: Invocation)
    ensures
        r.program@ == "flatpak"@,
        texts(r.args@) == seq!["list"@, "--app"@, "--columns=application"@],
{
    let mut args: Vec<String> = Vec::new();
    push_arg(&mut args, "list");
    push_arg(&mut args, "--app");
    push_arg(&mut args, "--columns=application");
    proof {
        assert(texts(args@) =~= seq!["list"@, "--app"@, "--columns=application"@]);
    }
    Invocation { program: owned("flatpak"), args }
}

/// The applications that the output of `flatpak list` names: its lines,
/// less the first one where a line is the header `Application ID`.
pub open spec fn listed_applications(listing: Seq<char>) -> Seq<Seq<char>> {
    let ls = lines_of(listing);
    if ls.contains("Application ID"@) {
        ls.remove(0)
    } else {
        ls
    }
}

/// The applications that the output of `flatpak list` names.
pub fn installed_applications(listing: &str) -> (r: Vec<String>)
    ensures
        texts(r@) == listed_applications(listing@),
{
    let mut ls = lines(listing);
    let header = owned("Application ID");
    let mut i: usize = 0;
    while i < ls.len()
        invariant
            i <= ls.len(),
            texts(ls@) == lines_of(listing@),
            header@ == "Application ID"@,
            forall|j: int| 0 <= j < i ==> texts(ls@)[j] != header@,
        decreases ls.len() - i,
    {
        if ls[i] == header {
            proof {
                assert(texts(ls@)[i as int] == header@);
            }
            let ghost before = texts(ls@);
            ls.remove(0);
            proof {
                assert(texts(ls@) =~= before.remove(0));
            }
            return ls;
        }
        i = i + 1;
    }
    ls
}

/// `flatpak uninstall` of the given applications, then
/// `flatpak uninstall --unused`; nothing when there is nothing to remove.
pub fn remove_packages_invocations(package_names: &Vec<String>, assume_yes: bool) -> (r: Vec<Invocation>)
    ensures
        package_names.len() == 0 ==> r.len() == 0,
        package_names.len() > 0 ==> {
            &&& r.len() == 2
            &&& r[0].words() == ("flatpak"@, seq!["uninstall"@] + flag_if(assume_yes, "--assumeyes"@)
                + texts(package_names@))
            &&& r[1].words() == ("flatpak"@, seq!["uninstall"@, "--unused"@] + flag_if(
                assume_yes,
                "--assumeyes"@,
            ))
        },
{
    let mut r: Vec<Invocation> = Vec::new();
    if package_names.len() > 0 {
        let mut args: Vec<String> = Vec::new();
        push_arg(&mut args, "uninstall");
        push_arg_if(&mut args, assume_yes, "--assumeyes");
        extend_strings(&mut args, package_names);
        let mut unused: Vec<String> = Vec::new();
        push_arg(&mut unused, "uninstall");
        push_arg(&mut unused, "--unused");
        push_arg_if(&mut unused, assume_yes, "--assumeyes");
        proof {
            assert(texts(args@) =~= seq!["uninstall"@] + flag_if(assume_yes, "--assumeyes"@) + texts(package_names@));
            assert(texts(unused@) =~= seq!["uninstall"@, "--unused"@] + flag_if(assume_yes, "--assumeyes"@));
        }
        r.push(Invocation { program: owned("flatpak"), args });
        r.push(Invocation { program: owned("flatpak"), args: unused });
    }
    r
}

/// `flatpak install` of the given applications.
pub fn install_packages_invocation(package_names: &Vec<String>, assume_yes: bool) -> (r: Invocation)
    ensures
        r.program@ == "flatpak"@,
        texts(r.args@) == seq!["install"@] + texts(package_names@) + flag_if(assume_yes, "--assumeyes"@),
{
    let mut args: Vec<String> = Vec::new();
    push_arg(&mut args, "install");
    extend_strings(&mut args, package_names);
    push_arg_if(&mut args, assume_yes, "--assumeyes");
    proof {
        assert(texts(args@) =~= seq!["install"@] + texts(package_names@) + flag_if(assume_yes, "--assumeyes"@));
    }
    Invocation { program: owned("flatpak"), args }
}

/// `flatpak update`.
pub fn upgrade_all_packages_invocation(assume_yes: bool) -> (r: Invocation)
    ensures
        r.program@ == "flatpak"@,
        texts(r.args@) == seq!["update"@] + flag_if(assume_yes, "--assumeyes"@),
{
    let mut args: Vec<String> = Vec::new();
    push_arg(&mut args, "update");
    push_arg_if(&mut args, assume_yes, "--assumeyes");
    proof {
        assert(texts(args@) =~= seq!["update"@] + flag_if(assume_yes, "--assumeyes"@));
    }
    Invocation { program: owned("flatpak"), args }
}

} // verus!
