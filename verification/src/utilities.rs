//! Small helpers shared by the steps of a run.
use vstd::prelude::*;
use crate::command::{owned, push_arg, Invocation};
use crate::string_table::StringTable;
use crate::text::{lines, lines_of, texts};

verus! {

/// Owned copies of the given strings, in order.
pub fn vec_str_to_string(vector: Vec<&str>) -> (r: Vec<String>)
    ensures
        r.len() == vector.len(),
        forall|i: int| 0 <= i < r.len() ==> #[trigger] r@[i]@ == vector@[i]@,
{
    let mut r: Vec<String> = Vec::new();
    let mut i: usize = 0;
    while i < vector.len()
        invariant
            i <= vector.len(),
            r.len() == i,
            forall|j: int| 0 <= j < i ==> #[trigger] r@[j]@ == vector@[j]@,
        decreases vector.len() - i,
    {
        r.push(owned(vector[i]));
        i = i + 1;
    }
    r
}

/// `sudo rm -r PATH` for a directory, `sudo rm PATH` for anything else.
pub fn remove_path_invocation(path: &str, is_dir: bool) -> (r: Invocation)
    ensures
        r.program@ == "sudo"@,
        is_dir ==> texts(r.args@) == seq!["rm"@, "-r"@, path@],
        !is_dir ==> texts(r.args@) == seq!["rm"@, path@],
{
    let mut args: Vec<String> = Vec::new();
    push_arg(&mut args, "rm");
    if is_dir {
        push_arg(&mut args, "-r");
    }
    push_arg(&mut args, path);
    proof {
        if is_dir {
            assert(texts(args@) =~= seq!["rm"@, "-r"@, path@]);
        } else {
            assert(texts(args@) =~= seq!["rm"@, path@]);
        }
    }
    Invocation { program: owned("sudo"), args }
}

/// A character with the Unicode `White_Space` property.
pub open spec fn is_white_space(c: char) -> bool {
    let n = c as u32;
    ||| 0x9 <= n <= 0xd
    ||| n == 0x20
    ||| n == 0x85
    ||| n == 0xa0
    ||| n == 0x1680
    ||| 0x2000 <= n <= 0x200a
    ||| n == 0x2028
    ||| n == 0x2029
    ||| n == 0x202f
    ||| n == 0x205f
    ||| n == 0x3000
}

/// `s` without its leading white space.
pub open spec fn trim_start_ws(s: Seq<char>) -> Seq<char>
    decreases s.len(),
{
    if s.len() > 0 && is_white_space(s[0]) {
        trim_start_ws(s.drop_first())
    } else {
        s
    }
}

/// `s` without its trailing white space.
pub open spec fn trim_end_ws(s: Seq<char>) -> Seq<char>
    decreases s.len(),
{
    if s.len() > 0 && is_white_space(s.last()) {
        trim_end_ws(s.drop_last())
    } else {
        s
    }
}

/// `s` without leading and trailing white space.
pub open spec fn trimmed(s: Seq<char>) -> Seq<char> {
    trim_end_ws(trim_start_ws(s))
}

/// `str::trim`: its documentation says that it removes leading and trailing
/// white space, white space being the characters with the Unicode
/// `White_Space` property; the contract states that of the characters.
#[verifier::external_body]
fn trim_white_space(s: &str) -> (r: &str)
    ensures
        r@ == trimmed(s@),
{
    s.trim()
}

/// What `str::to_lowercase` gives for a string: the lowercase mapping of
/// Unicode, which depends on the characters alone.
pub uninterp spec fn lowercase_of(s: Seq<char>) -> Seq<char>;

/// `str::to_lowercase`: the contract names its result and claims nothing
/// else of it (the Unicode case tables are not restated here).
#[verifier::external_body]
fn to_lowercase(s: &str) -> (r: String)
    ensures
        r@ == lowercase_of(s@),
{
    s.to_lowercase()
}

/// The answer that a (trimmed, lowercased) reply gives to a y/n question:
/// yes, no, the default for an empty reply, or none (ask again).
pub open spec fn answer_of(reply: Seq<char>, default_yes: bool) -> Option<bool> {
    if reply == "yes"@ || reply == "y"@ || reply == "ye"@ {
        Some(true)
    } else if reply == "no"@ || reply == "n"@ || reply == "nah"@ {
        Some(false)
    } else if reply.len() == 0 {
        Some(default_yes)
    } else {
        None
    }
}

/// Law: a non-empty reply answers yes exactly when it starts `yes` (`y`,
/// `ye`, `yes`), and no exactly when it is `n`, `no` or `nah`, whatever the
/// default; the default decides only the empty reply.
pub proof fn lemma_answers(reply: Seq<char>, default_yes: bool)
    ensures
        reply.len() == 0 ==> answer_of(reply, default_yes) == Some(default_yes),
        reply.len() > 0 ==> answer_of(reply, default_yes) == answer_of(reply, !default_yes),
        reply.len() > 0 ==> ((answer_of(reply, default_yes) == Some(true)) <==> (reply.len() <= 3
            && reply == "yes"@.take(reply.len() as int))),
        reply.len() > 0 ==> ((answer_of(reply, default_yes) == Some(false)) <==> ((reply.len() <= 2
            && reply == "no"@.take(reply.len() as int)) || reply == "nah"@)),
{
    reveal_strlit("yes");
    reveal_strlit("y");
    reveal_strlit("ye");
    reveal_strlit("no");
    reveal_strlit("n");
    reveal_strlit("nah");
    assert("y"@ =~= seq!['y']);
    assert("ye"@ =~= seq!['y', 'e']);
    assert("yes"@ =~= seq!['y', 'e', 's']);
    assert("n"@ =~= seq!['n']);
    assert("no"@ =~= seq!['n', 'o']);
    assert("nah"@ =~= seq!['n', 'a', 'h']);
    assert("yes"@.take(1) =~= "y"@);
    assert("yes"@.take(2) =~= "ye"@);
    assert("yes"@.take(3) =~= "yes"@);
    assert("no"@.take(1) =~= "n"@);
    assert("no"@.take(2) =~= "no"@);
    if reply.len() == 0 {
        assert(reply != "yes"@ && reply != "y"@ && reply != "ye"@);
        assert(reply != "no"@ && reply != "n"@ && reply != "nah"@);
    }
    if reply.len() == 1 {
        assert(reply == "y"@ <==> reply =~= "y"@);
        assert(reply == "n"@ <==> reply =~= "n"@);
    }
    if reply.len() == 2 {
        assert(reply == "ye"@ <==> reply =~= "ye"@);
        assert(reply == "no"@ <==> reply =~= "no"@);
    }
    if reply.len() == 3 {
        assert(reply == "yes"@ <==> reply =~= "yes"@);
        assert(reply == "nah"@ <==> reply =~= "nah"@);
    }
}

/// The answer that a trimmed, lowercased reply gives; none means that the
/// question is asked again.
pub fn confirmation_answer(reply: &str, default_yes: bool) -> (r: Option<bool>)
    ensures
        r == answer_of(reply@, default_yes),
{
    let s = owned(reply);
    if s == owned("yes") || s == owned("y") || s == owned("ye") {
        Some(true)
    } else if s == owned("no") || s == owned("n") || s == owned("nah") {
        Some(false)
    } else if reply.is_empty() {
        Some(default_yes)
    } else {
        None
    }
}

/// The answer that a line typed at a y/n question gives: it is trimmed and
/// lowercased first; a line with nothing but white space gives the default.
/// None means that the question is asked again.
pub fn read_confirmation(response: &str, default_yes: bool) -> (r: Option<bool>)
    ensures
        trimmed(response@).len() == 0 ==> r == Some(default_yes),
        trimmed(response@).len() != 0 ==> r == answer_of(lowercase_of(trimmed(response@)), default_yes),
{
    let t = trim_white_space(response);
    if t.is_empty() {
        return Some(default_yes);
    }
    let lower = to_lowercase(t);
    confirmation_answer(lower.as_str(), default_yes)
}

/// The pairs of a Lua table whose values are strings, as a map; a later pair
/// replaces an earlier one with the same key.
pub open spec fn string_dictionary(pairs: Seq<(String, Option<String>)>) -> Map<Seq<char>, Seq<char>>
    decreases pairs.len(),
{
    if pairs.len() == 0 {
        Map::empty()
    } else {
        let m = string_dictionary(pairs.drop_last());
        match pairs.last().1 {
            Some(v) => m.insert(pairs.last().0@, v@),
            None => m,
        }
    }
}

/// The string-valued pairs of a Lua table (key, and value where it is a
/// string), as a table.
pub fn convert_lua_dictionary_to_hashmap_string(lua_string_dictionary: &Vec<(String, Option<String>)>) -> (r: StringTable)
    ensures
        r.wf(),
        r@ == string_dictionary(lua_string_dictionary@),
{
    let mut table = StringTable::new();
    let mut i: usize = 0;
    while i < lua_string_dictionary.len()
        invariant
            i <= lua_string_dictionary.len(),
            table.wf(),
            table@ == string_dictionary(lua_string_dictionary@.take(i as int)),
        decreases lua_string_dictionary.len() - i,
    {
        proof {
            assert(lua_string_dictionary@.take(i + 1).drop_last() =~= lua_string_dictionary@.take(i as int));
        }
        let (key, value) = &lua_string_dictionary[i];
        match value {
            Some(v) => {
                table.insert(key.clone(), v.clone());
            },
            None => {},
        }
        i = i + 1;
    }
    proof {
        assert(lua_string_dictionary@.take(i as int) =~= lua_string_dictionary@);
    }
    table
}

/// Whether the output of `id -u` names the root user: its one line is `0`.
pub fn runs_as_root(id_output: &str) -> (r: bool)
    ensures
        r == (lines_of(id_output@) == seq!["0"@]),
{
    let ls = lines(id_output);
    proof {
        assert(texts(ls@).len() == ls.len());
    }
    if ls.len() != 1 {
        proof {
            assert(lines_of(id_output@).len() != 1);
        }
        return false;
    }
    let r = ls[0] == owned("0");
    proof {
        assert(texts(ls@)[0] == ls@[0]@);
        if r {
            assert(lines_of(id_output@) =~= seq!["0"@]);
        } else {
            assert(lines_of(id_output@)[0] != "0"@);
        }
    }
    r
}

/// What removing a path asks for first.
#[derive(Clone, Copy, PartialEq, Eq, Structural)]
pub enum PathRemoval {
    /// Nothing stands at the path: nothing is done.
    Absent,
    /// Ask the user whether to remove the directory (or the file) there.
    Ask { is_dir: bool },
}

/// What removing a path asks for, given whether something stands there and
/// whether it is a directory.
pub fn remove_path_start(exists: bool, is_dir: bool) -> (r: PathRemoval)
    ensures
        !exists ==> r == PathRemoval::Absent,
        exists ==> r == (PathRemoval::Ask { is_dir }),
{
    if exists {
        PathRemoval::Ask { is_dir }
    } else {
        PathRemoval::Absent
    }
}

/// The one command that removes the path, after the user's answer: `rm`
/// where the answer is yes, nothing where it is no.
pub fn remove_path_after_answer(path: &str, is_dir: bool, yes: bool) -> (r: Option<Invocation>)
    ensures
        r is Some <==> yes,
        r matches Some(inv) ==> {
            &&& inv.program@ == "sudo"@
            &&& is_dir ==> texts(inv.args@) == seq!["rm"@, "-r"@, path@]
            &&& !is_dir ==> texts(inv.args@) == seq!["rm"@, path@]
        },
{
    if yes {
        Some(remove_path_invocation(path, is_dir))
    } else {
        None
    }
}

/// Whether removing this many packages asks for confirmation first: when
/// there are more than the warn limit.
pub fn removal_needs_confirmation(system_count: usize, flatpak_count: usize, limit: u32) -> (r: bool)
    ensures
        r == (system_count + flatpak_count > limit),
{
    (system_count as u128) + (flatpak_count as u128) > (limit as u128)
}

} // verus!
