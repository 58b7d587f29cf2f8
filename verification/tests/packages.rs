use config_king::aur::{
    built_package_files, clone_package_invocation, install_built_invocation, makepkg_invocation,
    package_directory, pull_invocation, pull_needs_build, remove_uninstalled_aur_directories,
    select_package_file,
};
use config_king::command::Invocation;
use config_king::entries::{lua_entry_is_readable, package_entries, LuaEntry, LuaField, PackageEntry, PackageTable};
use config_king::flatpak;
use config_king::official;
use config_king::plan::{aur_entry_packages, aur_step, all_installed, packages_to_remove, plan_installs, AurStep};

fn strings(v: &[&str]) -> Vec<String> {
    v.iter().map(|s| s.to_string()).collect()
}

fn words(i: &Invocation) -> (String, Vec<String>) {
    (i.program.clone(), i.args.clone())
}

fn name(s: &str) -> PackageEntry {
    PackageEntry::Name(s.to_string())
}

fn table(base: Option<&str>, sub: &[&str], url: Option<&str>) -> PackageEntry {
    PackageEntry::Table(PackageTable {
        base: base.map(|s| s.to_string()),
        sub: strings(sub),
        url: url.map(|s| s.to_string()),
    })
}

#[test]
fn official_subtract_vec_takes_out_names_and_sub_packages() {
    let installed = strings(&["vim", "nvidia-utils-beta", "opencl-nvidia-beta", "htop", "git"]);
    let table_entries = vec![
        name("git"),
        table(Some("nvidia-utils-beta"), &["nvidia-utils-beta", "opencl-nvidia-beta"], None),
        PackageEntry::Other,
        name("not-installed"),
    ];
    assert_eq!(official::subtract_vec(installed, &table_entries), strings(&["vim", "htop"]));
}

#[test]
fn packages_to_remove_combines_both_lists() {
    let installed = strings(&["vim", "git", "yay", "htop"]);
    let official_list = vec![name("git")];
    let aur_list = vec![name("yay")];
    assert_eq!(packages_to_remove(installed, &official_list, &aur_list), strings(&["vim", "htop"]));
}

#[test]
fn official_invocations() {
    let names = strings(&["a", "b"]);
    assert_eq!(
        words(&official::install_packages_invocation(&names, true, "sudo")),
        ("sudo".to_string(), strings(&["pacman", "-S", "a", "b", "--noconfirm"]))
    );
    assert_eq!(
        words(&official::install_packages_invocation(&names, false, "doas")),
        ("doas".to_string(), strings(&["pacman", "-S", "a", "b"]))
    );
    assert_eq!(
        words(&official::remove_packages_invocation(&names, true, "sudo")),
        ("sudo".to_string(), strings(&["pacman", "-Rns", "--noconfirm", "a", "b"]))
    );
    assert_eq!(
        words(&official::upgrade_all_packages_invocation(true, "sudo")),
        ("sudo".to_string(), strings(&["pacman", "-Syu", "--noconfirm"]))
    );
    assert_eq!(
        words(&official::mark_package_as_explicit_invocation("a", "sudo")),
        ("sudo".to_string(), strings(&["pacman", "-D", "--asexplicit", "a"]))
    );
    assert_eq!(
        words(&official::mark_package_as_dependency_invocation("a", "sudo")),
        ("sudo".to_string(), strings(&["pacman", "--asdep", "-D", "a"]))
    );
    assert_eq!(
        words(&official::group_query_invocation("gnome")),
        ("pacman".to_string(), strings(&["-Sg", "gnome"]))
    );
}

#[test]
fn orphan_cleanup_script_text() {
    assert_eq!(official::orphan_cleanup_script(true, "sudo"), "pacman -Qtdq | sudo pacman -Rns --noconfirm -");
    assert_eq!(official::orphan_cleanup_script(false, "doas"), "pacman -Qtdq | doas pacman -Rns -");
}

#[test]
fn dependency_blockers_move_once_each() {
    let out = "checking dependencies...\n:: removing glib2 breaks dependency 'glib2' required by gtk3\n:: removing glib2 breaks dependency 'glib2' required by foo\n:: removing zzz breaks dependency 'zzz' required by bar\n";
    let (deps, rest) = official::dependency_blockers(out, &strings(&["vim", "glib2", "htop"]));
    assert_eq!(deps, strings(&["glib2"]));
    assert_eq!(rest, strings(&["vim", "htop"]));
    let (deps, rest) = official::dependency_blockers("error: nothing\n", &strings(&["vim"]));
    assert!(deps.is_empty());
    assert_eq!(rest, strings(&["vim"]));
}

#[test]
fn group_listing() {
    assert!(official::is_group_listing("gnome gdm\ngnome nautilus\n"));
    assert!(!official::is_group_listing(""));
    assert_eq!(official::group_members("gnome gdm\ngnome nautilus\n"), strings(&["gnome gdm", "gnome nautilus"]));
}

#[test]
fn flatpak_lists_and_invocations() {
    assert_eq!(
        flatpak::installed_applications("Application ID\norg.gimp.GIMP\ncom.bitwarden.desktop\n"),
        strings(&["org.gimp.GIMP", "com.bitwarden.desktop"])
    );
    assert_eq!(flatpak::installed_applications("org.gimp.GIMP\n"), strings(&["org.gimp.GIMP"]));
    assert_eq!(
        flatpak::subtract_vec(strings(&["a", "b", "c"]), &strings(&["b"])),
        strings(&["a", "c"])
    );
    assert!(flatpak::remove_packages_invocations(&Vec::new(), true).is_empty());
    let r = flatpak::remove_packages_invocations(&strings(&["x"]), true);
    assert_eq!(r.len(), 2);
    assert_eq!(words(&r[0]), ("flatpak".to_string(), strings(&["uninstall", "--assumeyes", "x"])));
    assert_eq!(words(&r[1]), ("flatpak".to_string(), strings(&["uninstall", "--unused", "--assumeyes"])));
    assert_eq!(
        words(&flatpak::install_packages_invocation(&strings(&["x", "y"]), false)),
        ("flatpak".to_string(), strings(&["install", "x", "y"]))
    );
    assert_eq!(
        words(&flatpak::upgrade_all_packages_invocation(true)),
        ("flatpak".to_string(), strings(&["update", "--assumeyes"]))
    );
    assert_eq!(
        words(&flatpak::list_invocation()),
        ("flatpak".to_string(), strings(&["list", "--app", "--columns=application"]))
    );
}

#[test]
fn stale_aur_directories() {
    let entries = vec![name("yay"), table(Some("nvidia-utils-beta"), &["a", "b"], None), table(None, &["c"], None)];
    let dirs = strings(&["yay", "old-package", "nvidia-utils-beta", "c"]);
    assert_eq!(
        remove_uninstalled_aur_directories(&entries, dirs, "/home/u/.config-king/aur/"),
        strings(&["/home/u/.config-king/aur/old-package", "/home/u/.config-king/aur/c"])
    );
}

#[test]
fn aur_commands() {
    assert_eq!(package_directory("/aur", "yay"), "/aur/yay");
    assert!(!pull_needs_build("Already up to date.\n"));
    assert!(pull_needs_build("Updating 1234..5678\n"));
    assert!(pull_needs_build("Already up to date."));
    assert_eq!(
        words(&clone_package_invocation("yay", "")),
        ("git".to_string(), strings(&["clone", "https://aur.archlinux.org/yay.git"]))
    );
    assert_eq!(
        words(&clone_package_invocation("vpn", "https://github.com/x/vpn.git")),
        ("git".to_string(), strings(&["clone", "https://github.com/x/vpn.git"]))
    );
    assert_eq!(words(&makepkg_invocation(true)), ("makepkg".to_string(), strings(&["-s", "--noconfirm"])));
    assert_eq!(words(&pull_invocation()), ("git".to_string(), strings(&["pull"])));
}

#[test]
fn built_files_and_selection() {
    let listing = "PKGBUILD\nfoo-1.0-1-x86_64.pkg.tar.zst\nfoo-debug-1.0-1-x86_64.pkg.tar.zst\nsrc\n";
    let files = built_package_files(listing);
    assert_eq!(files, strings(&["foo-1.0-1-x86_64.pkg.tar.zst", "foo-debug-1.0-1-x86_64.pkg.tar.zst"]));
    assert_eq!(select_package_file(&files, "foo"), "foo-1.0-1-x86_64.pkg.tar.zst");
    assert_eq!(select_package_file(&files, "debug"), "foo-debug-1.0-1-x86_64.pkg.tar.zst");
    assert_eq!(select_package_file(&files, "bar"), "");
    // the first of the shortest
    let same = strings(&["ab1", "ab2", "abcd"]);
    assert_eq!(select_package_file(&same, "ab"), "ab1");
    // names of 9999 bytes or more are never chosen
    let long = vec!["x".repeat(9999), "y".to_string()];
    assert_eq!(select_package_file(&long, "x"), "");
    assert_eq!(
        words(&install_built_invocation(&files, &strings(&["foo", "bar"]), true)),
        ("pacman".to_string(), strings(&["-U", "foo-1.0-1-x86_64.pkg.tar.zst", "", "--noconfirm"]))
    );
}

#[test]
fn install_plans() {
    let installed = strings(&["git", "vim", "htop"]);
    let wanted = vec![name("vim"), name("zsh"), table(Some("t"), &["git"], None), name("vim")];
    let (todo, left) = plan_installs(installed, &wanted);
    assert_eq!(todo, strings(&["zsh", "vim"]));
    assert_eq!(left, strings(&["git", "htop"]));
}

#[test]
fn aur_entries_and_steps() {
    assert_eq!(aur_entry_packages(&name("yay")), strings(&["yay"]));
    assert_eq!(aur_entry_packages(&table(Some("b"), &["x", "y"], None)), strings(&["x", "y"]));
    assert!(aur_entry_packages(&PackageEntry::Other).is_empty());
    let installed = strings(&["x", "y", "z"]);
    assert!(all_installed(&installed, &strings(&["x", "z"])));
    assert!(!all_installed(&installed, &strings(&["x", "w"])));
    assert!(all_installed(&installed, &Vec::new()));
    assert!(matches!(aur_step(true, true), AurStep::Update));
    assert!(matches!(aur_step(true, false), AurStep::Install { create_dir: true }));
    assert!(matches!(aur_step(false, true), AurStep::Install { create_dir: false }));
}

#[test]
fn configuration_entries_read_as_packages() {
    let field = |text: &str, items: Option<&[&str]>| LuaField { text: text.to_string(), items: items.map(strings) };
    let raw = vec![
        LuaEntry::Text("git".to_string()),
        LuaEntry::Table(vec![
            ("base".to_string(), field("nvidia-utils-beta", None)),
            ("sub".to_string(), field("table: 0x1", Some(&["nvidia-utils-beta", "opencl-nvidia-beta"]))),
            ("url".to_string(), field("https://x/y.git", None)),
            ("other".to_string(), field("1", None)),
        ]),
        LuaEntry::Other,
    ];
    assert!(raw.iter().all(lua_entry_is_readable));
    let entries = package_entries(&raw);
    assert!(matches!(&entries[0], PackageEntry::Name(n) if n == "git"));
    match &entries[1] {
        PackageEntry::Table(t) => {
            assert_eq!(t.base.as_deref(), Some("nvidia-utils-beta"));
            assert_eq!(t.sub, strings(&["nvidia-utils-beta", "opencl-nvidia-beta"]));
            assert_eq!(t.url.as_deref(), Some("https://x/y.git"));
        }
        _ => panic!("expected a table"),
    }
    assert!(matches!(&entries[2], PackageEntry::Other));
    let bad = LuaEntry::Table(vec![("sub".to_string(), field("x", None))]);
    assert!(!lua_entry_is_readable(&bad));
}

#[test]
fn a_name_acts_as_its_own_table() {
    let installed = strings(&["yay", "vim"]);
    let by_name = official::subtract_vec(installed.clone(), &vec![name("yay")]);
    let by_table = official::subtract_vec(installed, &vec![table(Some("yay"), &["yay"], None)]);
    assert_eq!(by_name, by_table);
    let dirs = strings(&["yay", "old"]);
    assert_eq!(
        remove_uninstalled_aur_directories(&vec![name("yay")], dirs.clone(), "/a/"),
        remove_uninstalled_aur_directories(&vec![table(Some("yay"), &["yay"], None)], dirs, "/a/")
    );
}

#[test]
fn removal_steps_retry_with_the_rest() {
    let names = strings(&["a", "b", "c"]);
    assert!(official::removal_start(&Vec::new(), true, "sudo").is_none());
    let start = official::removal_start(&names, true, "sudo").unwrap();
    assert_eq!(words(&start), ("sudo".to_string(), strings(&["pacman", "-Rns", "--noconfirm", "a", "b", "c"])));
    assert!(matches!(official::removal_after(&names, true, "", "sudo"), official::RemovalStep::Removed));
    let out = "checking dependencies...\nerror: failed to prepare transaction\n:: removing b breaks dependency 'b' required by x\n:: removing b breaks dependency 'b' required by y\n";
    match official::removal_after(&names, false, out, "sudo") {
        official::RemovalStep::Retry { marks, rest } => {
            assert_eq!(rest, strings(&["a", "c"]));
            assert_eq!(marks.len(), 1);
            assert_eq!(words(&marks[0]), ("sudo".to_string(), strings(&["pacman", "--asdep", "-D", "b"])));
        }
        _ => panic!("expected a retry"),
    }
    match official::removal_after(&names, false, "error: target not found: z\n", "sudo") {
        official::RemovalStep::GiveUp(left) => assert_eq!(left, names),
        _ => panic!("expected to give up"),
    }
}
