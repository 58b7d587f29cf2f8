//! The program's settings, read from `KEY=VALUE` arguments.
use vstd::prelude::*;
use crate::command::owned;
use crate::string_table::StringTable;
use crate::text::{first_position, find_char, from_chars, texts, to_chars};

verus! {

/// The key and value of a `KEY=VALUE` argument, split at its first `=`.
pub open spec fn key_value(arg: Seq<char>) -> Option<(Seq<char>, Seq<char>)> {
    match first_position(arg, '=') {
        Some(i) => Some((arg.take(i), arg.skip(i + 1))),
        None => None,
    }
}

/// The settings that the arguments give: for each key, the value of its
/// last argument. An argument without `=` gives none.
pub open spec fn configured(args: Seq<Seq<char>>) -> Map<Seq<char>, Seq<char>>
    decreases args.len(),
{
    if args.len() == 0 {
        Map::empty()
    } else {
        let m = configured(args.drop_last());
        match key_value(args.last()) {
            Some(kv) => m.insert(kv.0, kv.1),
            None => m,
        }
    }
}

/// The value that the arguments give `target`, or the empty string.
pub open spec fn argument_value(args: Seq<Seq<char>>, target: Seq<char>) -> Seq<char> {
    if configured(args).contains_key(target) {
        configured(args)[target]
    } else {
        Seq::empty()
    }
}

/// Splits a `KEY=VALUE` argument at its first `=`.
pub fn split_argument(arg: &str) -> (r: Option<(String, String)>)
    ensures
        match r {
            Some(kv) => key_value(arg@) == Some((kv.0@, kv.1@)),
            None => key_value(arg@) is None,
        },
{
    let v = to_chars(arg);
    match find_char(v.as_slice(), '=') {
        Some(i) => {
            let key = from_chars(v.as_slice(), 0, i);
            let value = from_chars(v.as_slice(), i + 1, v.len());
            proof {
                assert(key@ =~= arg@.take(i as int));
                assert(value@ =~= arg@.skip(i + 1));
            }
            Some((key, value))
        },
        None => None,
    }
}

/// The value that the (program-name-less) arguments give `target`: that of
/// the last `target=...` argument, or the empty string where there is none.
pub fn match_arguments(arguments: &Vec<String>, target: &str) -> (r: String)
    ensures
        r@ == argument_value(texts(arguments@), target@),
{
    let ghost av = texts(arguments@);
    let mut table = StringTable::new();
    let mut i: usize = 0;
    while i < arguments.len()
        invariant
            i <= arguments.len(),
            av == texts(arguments@),
            table.wf(),
            table@ == configured(av.take(i as int)),
        decreases arguments.len() - i,
    {
        proof {
            assert(av.take(i + 1).drop_last() =~= av.take(i as int));
            assert(av.take(i + 1).last() == arguments@[i as int]@);
        }
        match split_argument(arguments[i].as_str()) {
            Some(kv) => {
                let (k, v) = kv;
                table.insert(k, v);
            },
            None => {},
        }
        i = i + 1;
    }
    proof {
        assert(av.take(i as int) =~= av);
    }
    match table.get(target) {
        Some(v) => v,
        None => String::new(),
    }
}

/// The arguments that hold no `=` (each is warned about and skipped).
pub fn arguments_without_separator(arguments: &Vec<String>) -> (r: Vec<String>)
    ensures
        texts(r@) == texts(arguments@).filter(|a: Seq<char>| key_value(a) is None),
{
    let ghost av = texts(arguments@);
    let mut r: Vec<String> = Vec::new();
    let mut i: usize = 0;
    while i < arguments.len()
        invariant
            i <= arguments.len(),
            av == texts(arguments@),
            texts(r@) == av.take(i as int).filter(|a: Seq<char>| key_value(a) is None),
        decreases arguments.len() - i,
    {
        proof {
            assert(av.take(i + 1).drop_last() =~= av.take(i as int));
            assert(av[i as int] == arguments@[i as int]@);
            reveal(Seq::filter);
        }
        let ghost before = texts(r@);
        if split_argument(arguments[i].as_str()).is_none() {
            r.push(arguments[i].clone());
            proof {
                assert(texts(r@) =~= before.push(av[i as int]));
            }
        }
        i = i + 1;
    }
    proof {
        assert(av.take(i as int) =~= av);
    }
    r
}

/// A decimal digit.
pub open spec fn is_digit(c: char) -> bool {
    '0' <= c && c <= '9'
}

/// The number that a run of decimal digits writes.
pub open spec fn digits_value(ds: Seq<char>) -> int
    decreases ds.len(),
{
    if ds.len() == 0 {
        0
    } else {
        digits_value(ds.drop_last()) * 10 + (ds.last() as int - '0' as int)
    }
}

/// `s` without one leading `+`.
pub open spec fn unsigned_digits(s: Seq<char>) -> Seq<char> {
    if s.len() > 0 && s[0] == '+' {
        s.skip(1)
    } else {
        s
    }
}

/// Every character of `ds` is a decimal digit.
pub open spec fn all_digits(ds: Seq<char>) -> bool {
    forall|i: int| 0 <= i < ds.len() ==> is_digit(#[trigger] ds[i])
}

/// The `u32` that `s` writes as `str::parse::<u32>` reads it: an optional
/// `+`, then one or more decimal digits, of a value that fits; else none.
pub open spec fn parsed_u32(s: Seq<char>) -> Option<u32> {
    let ds = unsigned_digits(s);
    if ds.len() > 0 && all_digits(ds) && digits_value(ds) <= u32::MAX {
        Some(digits_value(ds) as u32)
    } else {
        None
    }
}

proof fn lemma_digits_value_grows(ds: Seq<char>, i: int)
    requires
        0 <= i <= ds.len(),
        forall|j: int| 0 <= j < ds.len() ==> is_digit(#[trigger] ds[j]),
    ensures
        digits_value(ds) >= digits_value(ds.take(i)),
        digits_value(ds) >= 0,
    decreases ds.len(),
{
    if ds.len() == 0 {
        assert(ds.take(i) =~= ds);
    } else if i == ds.len() {
        assert(ds.take(i) =~= ds);
        lemma_digits_value_grows(ds.drop_last(), 0);
    } else {
        assert(forall|j: int| 0 <= j < ds.drop_last().len() ==> ds.drop_last()[j] == ds[j]);
        lemma_digits_value_grows(ds.drop_last(), i);
        assert(ds.drop_last().take(i) =~= ds.take(i));
        assert(is_digit(ds.last()));
    }
}

/// Reads a `u32` written in decimal, as `str::parse::<u32>` does.
pub fn parse_u32(s: &str) -> (r: Option<u32>)
    ensures
        r == parsed_u32(s@),
{
    let v = to_chars(s);
    let start: usize = if v.len() > 0 && v[0] == '+' { 1 } else { 0 };
    let ghost ds = unsigned_digits(s@);
    proof {
        assert(ds =~= v@.skip(start as int));
    }
    if start >= v.len() {
        return None;
    }
    let mut acc: u64 = 0;
    let mut i: usize = start;
    while i < v.len()
        invariant
            start <= i <= v.len(),
            v@ == s@,
            ds == unsigned_digits(s@),
            ds == v@.skip(start as int),
            forall|j: int| 0 <= j < i - start ==> is_digit(#[trigger] ds[j]),
            acc == digits_value(ds.take(i - start)),
            acc <= u32::MAX,
        decreases v.len() - i,
    {
        let c = v[i];
        proof {
            assert(ds[i - start] == v@[i as int]);
        }
        if !('0' <= c && c <= '9') {
            proof {
                assert(!is_digit(ds[i - start]));
            }
            return None;
        }
        let d = (c as u32 - '0' as u32) as u64;
        proof {
            assert(ds.take(i + 1 - start).drop_last() =~= ds.take(i - start));
            assert(ds.take(i + 1 - start).last() == c);
        }
        acc = acc * 10 + d;
        proof {
            assert(d == c as int - '0' as int);
            assert(acc == digits_value(ds.take(i + 1 - start)));
            assert(is_digit(ds[i - start]));
        }
        if acc > 0xffff_ffffu64 {
            proof {
                if forall|j: int| 0 <= j < ds.len() ==> is_digit(#[trigger] ds[j]) {
                    lemma_digits_value_grows(ds, i + 1 - start);
                }
            }
            return None;
        }
        i = i + 1;
    }
    proof {
        assert(ds.take(i - start) =~= ds);
    }
    Some(acc as u32)
}

/// The program's settings.
pub struct Settings {
    /// Where the configuration file is (empty: `config.lua` in the current directory).
    pub directory: String,
    /// How many packages may be removed before the user is asked to confirm.
    pub package_remove_warn_limit: u32,
    /// Whether the program checks that it runs as root.
    pub root_check: bool,
    /// Whether commands' error output is shown.
    pub see_stderr: bool,
    /// Whether commands' regular output is shown.
    pub see_stdout: bool,
    /// Whether commands are told to assume the default answer.
    pub assume_yes: bool,
    /// What pressing enter at a y/n question answers.
    pub default_yes: bool,
}

/// A yes/no setting: anything but `false` is `true`.
pub fn flag_setting(raw: &str) -> (r: bool)
    ensures
        r == (raw@ != "false"@),
{
    !(owned(raw) == owned("false"))
}

/// The warn limit: 5 where none is given, else the number given (none where
/// it does not read as a `u32`).
pub fn warn_limit_setting(raw: &str) -> (r: Option<u32>)
    ensures
        raw@.len() == 0 ==> r == Some(5u32),
        raw@.len() != 0 ==> r == parsed_u32(raw@),
{
    if raw.is_empty() {
        Some(5)
    } else {
        parse_u32(raw)
    }
}

/// The warn limit as the arguments give it: under the documented key
/// `PACKGE_REMOVE_WARN_LIMIT`, or else under `PACKAGE_REMOVE_WARN_LIMIT`.
pub open spec fn warn_limit_argument(args: Seq<Seq<char>>) -> Seq<char> {
    if argument_value(args, "PACKGE_REMOVE_WARN_LIMIT"@).len() != 0 {
        argument_value(args, "PACKGE_REMOVE_WARN_LIMIT"@)
    } else {
        argument_value(args, "PACKAGE_REMOVE_WARN_LIMIT"@)
    }
}

/// The settings that the arguments give; none where the warn limit given
/// does not read as a `u32`.
pub fn settings_from_arguments(arguments: &Vec<String>) -> (r: Option<Settings>)
    ensures
        match r {
            Some(s) => {
                &&& s.directory@ == argument_value(texts(arguments@), "DIRECTORY"@)
                &&& (warn_limit_argument(texts(arguments@)).len() == 0 ==> s.package_remove_warn_limit == 5)
                &&& (warn_limit_argument(texts(arguments@)).len() != 0
                    ==> parsed_u32(warn_limit_argument(texts(arguments@))) == Some(s.package_remove_warn_limit))
                &&& s.root_check == (argument_value(texts(arguments@), "ROOT_CHECK"@) != "false"@)
                &&& s.see_stderr == (argument_value(texts(arguments@), "SEE_STDERR"@) != "false"@)
                &&& s.see_stdout == (argument_value(texts(arguments@), "SEE_STDOUT"@) != "false"@)
                &&& s.assume_yes == (argument_value(texts(arguments@), "ASSUME_YES"@) != "false"@)
                &&& s.default_yes == (argument_value(texts(arguments@), "DEFAULT_YES"@) != "false"@)
            },
            None => {
                &&& warn_limit_argument(texts(arguments@)).len() != 0
                &&& parsed_u32(warn_limit_argument(texts(arguments@))) is None
            },
        },
{
    let directory = match_arguments(arguments, "DIRECTORY");
    let documented = match_arguments(arguments, "PACKGE_REMOVE_WARN_LIMIT");
    let limit_raw = if documented.as_str().is_empty() {
        match_arguments(arguments, "PACKAGE_REMOVE_WARN_LIMIT")
    } else {
        documented
    };
    let limit = warn_limit_setting(limit_raw.as_str());
    match limit {
        Some(package_remove_warn_limit) => {
            let root_check = flag_setting(match_arguments(arguments, "ROOT_CHECK").as_str());
            let see_stderr = flag_setting(match_arguments(arguments, "SEE_STDERR").as_str());
            let see_stdout = flag_setting(match_arguments(arguments, "SEE_STDOUT").as_str());
            let assume_yes = flag_setting(match_arguments(arguments, "ASSUME_YES").as_str());
            let default_yes = flag_setting(match_arguments(arguments, "DEFAULT_YES").as_str());
            Some(
                Settings {
                    directory,
                    package_remove_warn_limit,
                    root_check,
                    see_stderr,
                    see_stdout,
                    assume_yes,
                    default_yes,
                },
            )
        },
        None => None,
    }
}

/// A key that names a setting (other than `DIRECTORY`).
pub open spec fn is_setting_key(k: Seq<char>) -> bool {
    ||| k == "PACKGE_REMOVE_WARN_LIMIT"@
    ||| k == "PACKAGE_REMOVE_WARN_LIMIT"@
    ||| k == "ROOT_CHECK"@
    ||| k == "SEE_STDERR"@
    ||| k == "SEE_STDOUT"@
    ||| k == "ASSUME_YES"@
    ||| k == "DEFAULT_YES"@
}

/// Whether `k` names a setting (other than `DIRECTORY`).
pub fn setting_key(k: &String) -> (r: bool)
    ensures
        r == is_setting_key(k@),
{
    *k == owned("PACKGE_REMOVE_WARN_LIMIT") || *k == owned("PACKAGE_REMOVE_WARN_LIMIT") || *k == owned(
        "ROOT_CHECK",
    ) || *k == owned("SEE_STDERR") || *k == owned("SEE_STDOUT") || *k == owned("ASSUME_YES") || *k
        == owned("DEFAULT_YES")
}

/// What the program makes of one of its arguments when it looks for the
/// configuration file.
pub enum ArgumentNote {
    /// `DIRECTORY=PATH`: read the configuration from `PATH`.
    Directory(String),
    /// `KEY=...` with the key of another setting.
    Setting(String),
    /// `KEY=...` with a key that names no setting: skipped without a word.
    Unrecognised(String),
    /// No `=` in the argument: warned about and skipped.
    NoSeparator(String),
}

/// What an argument is, as the search for the configuration file reads it.
pub open spec fn note_of(arg: Seq<char>) -> (int, Seq<char>) {
    match key_value(arg) {
        Some(kv) => if kv.0 == "DIRECTORY"@ {
            (0, kv.1)
        } else if is_setting_key(kv.0) {
            (3, kv.0)
        } else {
            (1, kv.0)
        },
        None => (2, arg),
    }
}

/// The kind and text of a note, as `note_of` writes them.
pub open spec fn note_view(n: ArgumentNote) -> (int, Seq<char>) {
    match n {
        ArgumentNote::Directory(p) => (0, p@),
        ArgumentNote::Setting(k) => (3, k@),
        ArgumentNote::Unrecognised(k) => (1, k@),
        ArgumentNote::NoSeparator(a) => (2, a@),
    }
}

/// How the search for the configuration file reads each argument, in order.
pub fn classify_arguments(arguments: &Vec<String>) -> (r: Vec<ArgumentNote>)
    ensures
        r.len() == arguments.len(),
        forall|i: int| 0 <= i < r.len() ==> note_view(#[trigger] r@[i]) == note_of(arguments@[i]@),
{
    let mut r: Vec<ArgumentNote> = Vec::new();
    let mut i: usize = 0;
    let directory = owned("DIRECTORY");
    while i < arguments.len()
        invariant
            i <= arguments.len(),
            r.len() == i,
            directory@ == "DIRECTORY"@,
            forall|j: int| 0 <= j < i ==> note_view(#[trigger] r@[j]) == note_of(arguments@[j]@),
        decreases arguments.len() - i,
    {
        let note = match split_argument(arguments[i].as_str()) {
            Some(kv) => {
                let (k, v) = kv;
                if k == directory {
                    ArgumentNote::Directory(v)
                } else if setting_key(&k) {
                    ArgumentNote::Setting(k)
                } else {
                    ArgumentNote::Unrecognised(k)
                }
            },
            None => ArgumentNote::NoSeparator(arguments[i].clone()),
        };
        r.push(note);
        i = i + 1;
    }
    r
}

} // verus!
