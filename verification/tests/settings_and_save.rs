use config_king::globals::{
    arguments_without_separator, classify_arguments, flag_setting, match_arguments, parse_u32,
    settings_from_arguments, split_argument, warn_limit_setting, ArgumentNote,
};
use config_king::save::{
    element_identifier, link_item_list, load_save, read_save, read_save_readable, save_file_elements,
    save_is_readable, symlinks_save_message,
};
use config_king::string_table::StringTable;
use config_king::save::save_file_location;
use config_king::symlinks::{
    keep_saved_symlink, link_creation_plan, next_link_step, saved_link_path, symlink_test_invocation, LinkStep,
};
use config_king::utilities::{
    confirmation_answer, convert_lua_dictionary_to_hashmap_string, read_confirmation,
    remove_path_after_answer, remove_path_invocation, remove_path_start, removal_needs_confirmation, runs_as_root,
    vec_str_to_string, PathRemoval,
};

fn strings(v: &[&str]) -> Vec<String> {
    v.iter().map(|s| s.to_string()).collect()
}

#[test]
fn arguments_last_one_wins() {
    let args = strings(&["SEE_STDOUT=false", "junk", "SEE_STDOUT=true", "DIRECTORY=/c=d.lua"]);
    assert_eq!(match_arguments(&args, "SEE_STDOUT"), "true");
    assert_eq!(match_arguments(&args, "DIRECTORY"), "/c=d.lua");
    assert_eq!(match_arguments(&args, "ASSUME_YES"), "");
    assert_eq!(arguments_without_separator(&args), strings(&["junk"]));
    assert_eq!(split_argument("a=b=c"), Some(("a".to_string(), "b=c".to_string())));
    assert_eq!(split_argument("abc"), None);
}

#[test]
fn parse_u32_reads_as_std_does() {
    for s in ["0", "5", "+5", "007", "4294967295", "4294967296", "", "+", "-0", "-1", "12a", " 1", "99999999999999999999"] {
        assert_eq!(parse_u32(s), s.parse::<u32>().ok(), "input {:?}", s);
    }
}

#[test]
fn settings_defaults_and_values() {
    let s = settings_from_arguments(&Vec::new()).unwrap();
    assert_eq!(s.directory, "");
    assert_eq!(s.package_remove_warn_limit, 5);
    assert!(s.see_stderr && s.see_stdout && s.assume_yes && s.default_yes);
    let s = settings_from_arguments(&strings(&[
        "PACKAGE_REMOVE_WARN_LIMIT=0",
        "SEE_STDERR=false",
        "ASSUME_YES=no",
        "DEFAULT_YES=false",
        "DIRECTORY=/x/config.lua",
    ]))
    .unwrap();
    assert_eq!(s.package_remove_warn_limit, 0);
    assert!(!s.see_stderr);
    assert!(s.see_stdout);
    assert!(s.assume_yes);
    assert!(!s.default_yes);
    assert_eq!(s.directory, "/x/config.lua");
    assert!(s.root_check);
    assert!(settings_from_arguments(&strings(&["PACKAGE_REMOVE_WARN_LIMIT=lots"])).is_none());
    let s = settings_from_arguments(&strings(&[
        "PACKGE_REMOVE_WARN_LIMIT=9",
        "PACKAGE_REMOVE_WARN_LIMIT=2",
        "ROOT_CHECK=false",
    ]))
    .unwrap();
    assert_eq!(s.package_remove_warn_limit, 9);
    assert!(!s.root_check);
    let s = settings_from_arguments(&strings(&["PACKAGE_REMOVE_WARN_LIMIT=2"])).unwrap();
    assert_eq!(s.package_remove_warn_limit, 2);
    assert!(settings_from_arguments(&strings(&["PACKGE_REMOVE_WARN_LIMIT=-1"])).is_none());
    assert!(flag_setting("FALSE"));
    assert!(!flag_setting("false"));
    assert_eq!(warn_limit_setting(""), Some(5));
    assert_eq!(warn_limit_setting("x"), None);
}

#[test]
fn classify_config_arguments() {
    let notes = classify_arguments(&strings(&[
        "DIRECTORY=/a.lua",
        "directory=/b.lua",
        "SEE_STDOUT=false",
        "PACKGE_REMOVE_WARN_LIMIT=3",
        "other=1",
        "plain",
    ]));
    assert_eq!(notes.len(), 6);
    assert!(matches!(&notes[0], ArgumentNote::Directory(p) if p == "/a.lua"));
    assert!(matches!(&notes[1], ArgumentNote::Unrecognised(k) if k == "directory"));
    assert!(matches!(&notes[2], ArgumentNote::Setting(k) if k == "SEE_STDOUT"));
    assert!(matches!(&notes[3], ArgumentNote::Setting(k) if k == "PACKGE_REMOVE_WARN_LIMIT"));
    assert!(matches!(&notes[4], ArgumentNote::Unrecognised(k) if k == "other"));
    assert!(matches!(&notes[5], ArgumentNote::NoSeparator(a) if a == "plain"));
}

#[test]
fn confirmation_answers() {
    assert_eq!(confirmation_answer("yes", false), Some(true));
    assert_eq!(confirmation_answer("ye", false), Some(true));
    assert_eq!(confirmation_answer("nah", true), Some(false));
    assert_eq!(confirmation_answer("", true), Some(true));
    assert_eq!(confirmation_answer("", false), Some(false));
    assert_eq!(confirmation_answer("maybe", true), None);
    assert_eq!(read_confirmation("  YES \n", false), Some(true));
    assert_eq!(read_confirmation("N\r\n", true), Some(false));
    assert_eq!(read_confirmation("\t\n", false), Some(false));
    assert_eq!(read_confirmation("Yep\n", true), None);
}

#[test]
fn utilities() {
    assert_eq!(vec_str_to_string(vec!["a", "b"]), strings(&["a", "b"]));
    let r = remove_path_invocation("/tmp/x", true);
    assert_eq!((r.program.as_str(), r.args.clone()), ("sudo", strings(&["rm", "-r", "/tmp/x"])));
    let r = remove_path_invocation("/tmp/x", false);
    assert_eq!(r.args, strings(&["rm", "/tmp/x"]));
    assert!(removal_needs_confirmation(3, 3, 5));
    assert!(!removal_needs_confirmation(3, 2, 5));
    assert!(removal_needs_confirmation(1, 0, 0));
    assert!(!removal_needs_confirmation(0, 0, 0));
}

#[test]
fn string_table_replaces_values() {
    let mut t = StringTable::new();
    t.insert("Aur".to_string(), "/a".to_string());
    t.insert("Base".to_string(), "/b".to_string());
    t.insert("Aur".to_string(), "/c".to_string());
    assert_eq!(t.get("Aur"), Some("/c".to_string()));
    assert!(t.contains_key("Base"));
    assert!(!t.contains_key("Save"));
    assert_eq!(t.get("Save"), None);
    let pairs = vec![
        ("a".to_string(), Some("1".to_string())),
        ("b".to_string(), None),
        ("a".to_string(), Some("2".to_string())),
    ];
    let d = convert_lua_dictionary_to_hashmap_string(&pairs);
    assert_eq!(d.get("a"), Some("2".to_string()));
    assert!(!d.contains_key("b"));
}

fn pairs(v: &[(&str, Option<&str>)]) -> Vec<(String, Option<String>)> {
    v.iter().map(|(k, t)| (k.to_string(), t.map(|s| s.to_string()))).collect()
}

#[test]
fn symlinks_message_text() {
    let p = pairs(&[("/home/p/.config/hypr/hyprland.conf", Some("/home/p/Config/hyprland.conf")), ("x", None), ("/etc/fstab", Some("/home/p/Config/boot/fstab"))]);
    assert_eq!(
        symlinks_save_message(&p),
        "symlinks=[\"/home/p/.config/hypr/hyprland.conf=/home/p/Config/hyprland.conf\",\"/etc/fstab=/home/p/Config/boot/fstab\"];"
    );
    assert_eq!(symlinks_save_message(&Vec::new()), "symlinks=[];");
}

#[test]
fn save_round_trip() {
    let p = pairs(&[("/a/link", Some("/b/target")), ("/c/\"odd\"", Some("/d=e")), ("/x", None)]);
    let message = symlinks_save_message(&p);
    assert!(save_is_readable(&message));
    let loaded = load_save(&message);
    assert_eq!(loaded.symlinks, link_item_list(&p));
    assert_eq!(loaded.symlinks, strings(&["/a/link=/b/target", "/c/\"odd\"=/d=e"]));
    assert!(loaded.unknown.is_empty());
    let empty = load_save(&symlinks_save_message(&Vec::new()));
    assert!(empty.symlinks.is_empty());
}

#[test]
fn save_file_reading() {
    assert_eq!(save_file_elements("a=1;\n\nb=2;\n;"), strings(&["a=1", "\n\nb=2"]));
    // a line end after ';' stays at the start of the next element
    let content = "other=x;\nsymlinks=[\"/l=/t\"];\n";
    assert!(save_is_readable(content));
    let loaded = load_save(content);
    assert!(loaded.symlinks.is_empty());
    assert_eq!(loaded.unknown, strings(&["other", "\nsymlinks"]));
    let content = "other=x;symlinks=[\"/l=/t\"];\n";
    let loaded = load_save(content);
    assert_eq!(loaded.symlinks, strings(&["/l=/t"]));
    assert_eq!(loaded.unknown, strings(&["other"]));
    // an element without '=' cannot be read
    assert!(!save_is_readable("symlinks;"));
    // an item of one character cannot be unquoted
    assert!(!save_is_readable("symlinks=[x];"));
    assert!(!save_is_readable("symlinks=];"));
    assert_eq!(element_identifier("symlinks=[]"), Some(("symlinks".to_string(), 8)));
    assert_eq!(element_identifier("nothing"), None);
    // the bound counts bytes, as string slicing does
    assert_eq!(element_identifier("é=[\"ab\"]"), Some(("é".to_string(), 2)));
    assert!(read_save_readable(2, "é=[\"ab\"]"));
    assert_eq!(read_save(2, "é=[\"ab\"]".to_string()), strings(&["ab"]));
    assert_eq!(read_save(1, "é=[\"ab\"]".to_string()), strings(&["\"ab"]));
    assert!(read_save_readable(8, "symlinks=[\"a=b\",,\"c=d\"]"));
    assert_eq!(read_save(8, "symlinks=[\"a=b\",,\"c=d\"]".to_string()), strings(&["a=b", "c=d"]));
}

#[test]
fn saved_symlinks_kept_or_removed() {
    let mut t = StringTable::new();
    t.insert("/l".to_string(), "/t".to_string());
    assert_eq!(saved_link_path("/l=/t"), "/l");
    assert!(keep_saved_symlink("/l=/t", &t, true, true));
    assert!(!keep_saved_symlink("/l=/other", &t, true, true));
    assert!(!keep_saved_symlink("/l=/t", &t, false, true));
    assert!(!keep_saved_symlink("/l=/t", &t, true, false));
    assert!(!keep_saved_symlink("/m=/t", &t, true, true));
}

#[test]
fn link_plans() {
    let plan = link_creation_plan("sudo", "/home/p/Config/grub", "/etc/default/grub").unwrap();
    assert_eq!(plan.parent, "/etc/default");
    assert_eq!(plan.test_parent.args, strings(&["test", "-d", "/etc/default"]));
    assert_eq!(plan.make_parent.args, strings(&["mkdir", "-p", "/etc/default"]));
    assert_eq!(plan.link.args, strings(&["ln", "-s", "/home/p/Config/grub", "/etc/default/grub"]));
    assert_eq!(plan.link.program, "sudo");
    assert!(link_creation_plan("sudo", "/x", "/").is_none());
    assert_eq!(symlink_test_invocation("sudo", "/l").args, strings(&["test", "-L", "/l"]));
}

#[test]
fn unchanged_table_keeps_saved_links() {
    let p = pairs(&[("/home/p/.bashrc", Some("/home/p/Config/bashrc")), ("/etc/fstab", Some("/home/p/Config/fstab"))]);
    let saved = load_save(&symlinks_save_message(&p)).symlinks;
    let table = convert_lua_dictionary_to_hashmap_string(&p);
    for value in &saved {
        let link = saved_link_path(value);
        assert!(table.contains_key(&link));
        assert!(keep_saved_symlink(value, &table, true, true));
    }
    let changed = convert_lua_dictionary_to_hashmap_string(&pairs(&[("/home/p/.bashrc", Some("/elsewhere"))]));
    assert!(!keep_saved_symlink(&saved[0], &changed, true, true));
    assert!(!keep_saved_symlink(&saved[1], &changed, true, true));
}

#[test]
fn link_steps_follow_the_outcomes() {
    // already a symlink: nothing more
    assert!(next_link_step(LinkStep::TestSymlink, true) == LinkStep::Done);
    // something in the way, parent missing, user declines: remove, test, ask, link
    let mut step = LinkStep::TestSymlink;
    let mut seen = vec![step];
    for outcome in [false, true, true, false, false, true] {
        step = next_link_step(step, outcome);
        seen.push(step);
    }
    assert!(seen == vec![
        LinkStep::TestSymlink,
        LinkStep::CheckPath,
        LinkStep::RemovePath,
        LinkStep::TestParent,
        LinkStep::AskParent,
        LinkStep::Link,
        LinkStep::Done,
    ]);
    assert!(next_link_step(LinkStep::AskParent, true) == LinkStep::MakeParent);
    assert!(next_link_step(LinkStep::MakeParent, false) == LinkStep::Link);
    assert!(next_link_step(LinkStep::TestParent, true) == LinkStep::Link);
    assert!(next_link_step(LinkStep::Done, false) == LinkStep::Done);
}

#[test]
fn path_removal_asks_then_removes_once() {
    assert!(remove_path_start(false, true) == PathRemoval::Absent);
    assert!(remove_path_start(true, true) == PathRemoval::Ask { is_dir: true });
    assert!(remove_path_start(true, false) == PathRemoval::Ask { is_dir: false });
    assert!(remove_path_after_answer("/x", true, false).is_none());
    let inv = remove_path_after_answer("/x", true, true).unwrap();
    assert_eq!(inv.program, "sudo");
    assert_eq!(inv.args, strings(&["rm", "-r", "/x"]));
    assert_eq!(remove_path_after_answer("/f", false, true).unwrap().args, strings(&["rm", "/f"]));
}

#[test]
fn root_and_save_location() {
    assert!(runs_as_root("0\n"));
    assert!(runs_as_root("0"));
    assert!(!runs_as_root("1000\n"));
    assert!(!runs_as_root(""));
    assert!(!runs_as_root("0\n0\n"));
    assert_eq!(save_file_location("/home/p/.config-king"), "/home/p/.config-king/save.king");
}
