//! Symlinks: which saved ones are stale, and the commands that make new ones.
use vstd::prelude::*;
use crate::command::{owned, push_arg, Invocation};
use crate::string_table::StringTable;
use crate::save::{link_item, link_items, loaded, lemma_save_roundtrip, pairs_savable, save_elements_of, symlinks_message};
use crate::text::{split_by, split_on, texts};
use crate::utilities::string_dictionary;

verus! {

/// The parts of a saved `LINK=TARGET` item, cut at every `=`.
pub open spec fn saved_parts(value: Seq<char>) -> Seq<Seq<char>> {
    split_by(value, '=')
}

/// The link of a saved item: what comes before its first `=`.
pub fn saved_link_path(value: &str) -> (r: String)
    ensures
        r@ == saved_parts(value@)[0],
{
    let parts = split_on(value, '=');
    proof {
        crate::text::lemma_split_len_positive(value@, '=');
        assert(parts@[0]@ == texts(parts@)[0]);
    }
    parts[0].clone()
}

/// Whether a saved symlink stays: its link exists and is a symlink, and the
/// new table maps the link to the same target.
pub open spec fn keeps_saved(value: Seq<char>, table: Map<Seq<char>, Seq<char>>, exists: bool, is_symlink: bool) -> bool {
    let parts = saved_parts(value);
    &&& exists
    &&& table.contains_key(parts[0])
    &&& is_symlink
    &&& table[parts[0]] == parts[1]
}

/// Whether a saved symlink stays, given whether its link exists and is a
/// symlink; one that does not stay is removed.
pub fn keep_saved_symlink(value: &str, new_symlinks: &StringTable, exists: bool, is_symlink: bool) -> (r: bool)
    requires
        new_symlinks.wf(),
        exists && new_symlinks@.contains_key(saved_parts(value@)[0]) && is_symlink ==> saved_parts(
            value@,
        ).len() >= 2,
    ensures
        r == keeps_saved(value@, new_symlinks@, exists, is_symlink),
{
    let parts = split_on(value, '=');
    proof {
        crate::text::lemma_split_len_positive(value@, '=');
        assert(parts@[0]@ == texts(parts@)[0]);
    }
    if !exists {
        return false;
    }
    match new_symlinks.get(parts[0].as_str()) {
        Some(target) => {
            if !is_symlink {
                return false;
            }
            proof {
                assert(parts@[1]@ == texts(parts@)[1]);
            }
            target == parts[1]
        },
        None => false,
    }
}

/// Whether a saved item has a part after its first `=`.
pub fn saved_item_has_target(value: &str) -> (r: bool)
    ensures
        r == (saved_parts(value@).len() >= 2),
{
    let parts = split_on(value, '=');
    proof {
        assert(texts(parts@).len() == parts.len());
    }
    parts.len() >= 2
}

/// `AUTH test -L LINK`: whether a symlink is at `link`.
pub fn symlink_test_invocation(auth_agent: &str, link: &str) -> (r: Invocation)
    ensures
        r.program@ == auth_agent@,
        texts(r.args@) == seq!["test"@, "-L"@, link@],
{
    let mut args: Vec<String> = Vec::new();
    push_arg(&mut args, "test");
    push_arg(&mut args, "-L");
    push_arg(&mut args, link);
    proof {
        assert(texts(args@) =~= seq!["test"@, "-L"@, link@]);
    }
    Invocation { program: owned(auth_agent), args }
}

/// What `Path::parent` gives for a path, as text (none for a root or an
/// empty path); it depends on the path alone.
pub uninterp spec fn path_parent(path: Seq<char>) -> Option<Seq<char>>;

/// `std::path::Path::parent`: the contract names its result and claims
/// nothing else of it (the rules for separators and prefixes are not
/// restated). The parent of a UTF-8 path is a part of it, hence UTF-8.
#[verifier::external_body]
fn parent_of(path: &str) -> (r: Option<String>)
    ensures
        match r {
            Some(p) => path_parent(path@) == Some(p@),
            None => path_parent(path@) is None,
        },
{
    match std::path::Path::new(path).parent() {
        Some(p) => Some(p.to_string_lossy().into_owned()),
        None => None,
    }
}

/// The commands that make a symlink: test that the parent directory is
/// there, make it where it is not (when the user agrees), then link.
pub struct LinkPlan {
    /// The directory the link goes in.
    pub parent: String,
    /// `AUTH test -d PARENT`.
    pub test_parent: Invocation,
    /// `AUTH mkdir -p PARENT`.
    pub make_parent: Invocation,
    /// `AUTH ln -s TARGET LINK`.
    pub link: Invocation,
}

/// The commands that make a symlink at `link` to `target`; none where
/// `link` has no parent directory.
pub fn link_creation_plan(auth_agent: &str, target: &str, link: &str) -> (r: Option<LinkPlan>)
    ensures
        match r {
            Some(plan) => {
                &&& path_parent(link@) == Some(plan.parent@)
                &&& plan.test_parent.words() == (auth_agent@, seq!["test"@, "-d"@, plan.parent@])
                &&& plan.make_parent.words() == (auth_agent@, seq!["mkdir"@, "-p"@, plan.parent@])
                &&& plan.link.words() == (auth_agent@, seq!["ln"@, "-s"@, target@, link@])
            },
            None => path_parent(link@) is None,
        },
{
    match parent_of(link) {
        Some(parent) => {
            let mut test_args: Vec<String> = Vec::new();
            push_arg(&mut test_args, "test");
            push_arg(&mut test_args, "-d");
            push_arg(&mut test_args, parent.as_str());
            let mut mkdir_args: Vec<String> = Vec::new();
            push_arg(&mut mkdir_args, "mkdir");
            push_arg(&mut mkdir_args, "-p");
            push_arg(&mut mkdir_args, parent.as_str());
            let mut ln_args: Vec<String> = Vec::new();
            push_arg(&mut ln_args, "ln");
            push_arg(&mut ln_args, "-s");
            push_arg(&mut ln_args, target);
            push_arg(&mut ln_args, link);
            proof {
                assert(texts(test_args@) =~= seq!["test"@, "-d"@, parent@]);
                assert(texts(mkdir_args@) =~= seq!["mkdir"@, "-p"@, parent@]);
                assert(texts(ln_args@) =~= seq!["ln"@, "-s"@, target@, link@]);
            }
            Some(LinkPlan {
                test_parent: Invocation { program: owned(auth_agent), args: test_args },
                make_parent: Invocation { program: owned(auth_agent), args: mkdir_args },
                link: Invocation { program: owned(auth_agent), args: ln_args },
                parent,
            })
        },
        None => None,
    }
}

/// Law: a run with an unchanged symlinks table keeps the symlinks it made:
/// the saved item `LINK=TARGET` of a link the table still maps to the same
/// target, where the link exists as a symlink, stays (and can be read); one
/// whose target changed goes. Paths with `=` in them are left out: the item
/// is cut at every `=`.
pub proof fn lemma_saved_link_kept(link: Seq<char>, target: Seq<char>, table: Map<Seq<char>, Seq<char>>)
    requires
        !link.contains('='),
        !target.contains('='),
        table.contains_key(link),
    ensures
        saved_parts(crate::save::link_item(link, target)).len() == 2,
        saved_parts(crate::save::link_item(link, target))[0] == link,
        keeps_saved(crate::save::link_item(link, target), table, true, true) == (table[link] == target),
{
    reveal_strlit("=");
    assert(crate::save::link_item(link, target) =~= link + seq!['='] + target);
    crate::save::lemma_split_concat(link, target, '=');
    crate::save::lemma_split_none(link, '=');
    crate::save::lemma_split_none(target, '=');
    assert(saved_parts(crate::save::link_item(link, target)) =~= seq![link, target]);
}

/// Where the making of one symlink stands. Each step but `Done` is one
/// action of the caller, whose outcome (a `bool`) picks the next step.
#[derive(Clone, Copy, PartialEq, Eq, Structural)]
pub enum LinkStep {
    /// Run `AUTH test -L LINK`; the outcome is whether it succeeded.
    TestSymlink,
    /// Look whether anything stands at the link's path; the outcome is whether it does.
    CheckPath,
    /// Remove what stands at the link's path (the user is asked first).
    RemovePath,
    /// Run `AUTH test -d PARENT`; the outcome is whether it succeeded.
    TestParent,
    /// Ask whether to make the missing parent directory; the outcome is the answer.
    AskParent,
    /// Run `AUTH mkdir -p PARENT`.
    MakeParent,
    /// Run `AUTH ln -s TARGET LINK`.
    Link,
    /// Nothing more is done for this link.
    Done,
}

/// The step after `step`, given its outcome: a link that already is a
/// symlink is left alone; otherwise whatever stands in its way is removed,
/// a missing parent directory is made where the user agrees, and the link
/// is made (also where the user declined).
pub open spec fn link_step_after(step: LinkStep, outcome: bool) -> LinkStep {
    match step {
        LinkStep::TestSymlink => if outcome { LinkStep::Done } else { LinkStep::CheckPath },
        LinkStep::CheckPath => if outcome { LinkStep::RemovePath } else { LinkStep::TestParent },
        LinkStep::RemovePath => LinkStep::TestParent,
        LinkStep::TestParent => if outcome { LinkStep::Link } else { LinkStep::AskParent },
        LinkStep::AskParent => if outcome { LinkStep::MakeParent } else { LinkStep::Link },
        LinkStep::MakeParent => LinkStep::Link,
        LinkStep::Link => LinkStep::Done,
        LinkStep::Done => LinkStep::Done,
    }
}

/// The step after `step`, given the outcome of its action.
pub fn next_link_step(step: LinkStep, outcome: bool) -> (r: LinkStep)
    ensures
        r == link_step_after(step, outcome),
{
    match step {
        LinkStep::TestSymlink => if outcome { LinkStep::Done } else { LinkStep::CheckPath },
        LinkStep::CheckPath => if outcome { LinkStep::RemovePath } else { LinkStep::TestParent },
        LinkStep::RemovePath => LinkStep::TestParent,
        LinkStep::TestParent => if outcome { LinkStep::Link } else { LinkStep::AskParent },
        LinkStep::AskParent => if outcome { LinkStep::MakeParent } else { LinkStep::Link },
        LinkStep::MakeParent => LinkStep::Link,
        LinkStep::Link => LinkStep::Done,
        LinkStep::Done => LinkStep::Done,
    }
}

/// How far along a step is.
pub open spec fn link_step_rank(step: LinkStep) -> int {
    match step {
        LinkStep::TestSymlink => 0,
        LinkStep::CheckPath => 1,
        LinkStep::RemovePath => 2,
        LinkStep::TestParent => 3,
        LinkStep::AskParent => 4,
        LinkStep::MakeParent => 5,
        LinkStep::Link => 6,
        LinkStep::Done => 7,
    }
}

/// Law: every step but the last moves forward, so a link takes at most
/// seven actions and `ln` runs at most once; a link that already is a
/// symlink gets no `ln`; the parent directory is made only after a yes;
/// `ln` follows a found parent, a declined question or a made parent.
pub proof fn lemma_link_steps(step: LinkStep, outcome: bool)
    ensures
        step != LinkStep::Done ==> link_step_rank(link_step_after(step, outcome)) > link_step_rank(step),
        link_step_after(LinkStep::TestSymlink, true) == LinkStep::Done,
        (link_step_after(step, outcome) == LinkStep::MakeParent) == (step == LinkStep::AskParent && outcome),
        link_step_after(step, outcome) == LinkStep::Link ==> {
            ||| step == LinkStep::TestParent && outcome
            ||| step == LinkStep::AskParent && !outcome
            ||| step == LinkStep::MakeParent
        },
{
}

/// Whether the steps from `step`, with these outcomes of their actions in
/// turn, come to `Link` (the step that runs `ln -s`).
pub open spec fn comes_to_link(step: LinkStep, outcomes: Seq<bool>) -> bool
    decreases outcomes.len(),
{
    if step == LinkStep::Link {
        true
    } else if outcomes.len() == 0 {
        false
    } else {
        comes_to_link(link_step_after(step, outcomes[0]), outcomes.drop_first())
    }
}

/// Law: a link that is not already a symlink is always made. From any step
/// after the symlink test (whatever stands in the way, whether the parent
/// exists, whatever the user answers), five actions come to `ln -s`; so
/// does the test when it finds no symlink. The steps end without `ln -s`
/// only where the test finds a symlink already there.
pub proof fn lemma_link_always_made(step: LinkStep, outcomes: Seq<bool>)
    ensures
        step != LinkStep::TestSymlink && step != LinkStep::Done && outcomes.len() + link_step_rank(step) >= 6
            ==> comes_to_link(step, outcomes),
        step != LinkStep::TestSymlink && step != LinkStep::Done && outcomes.len() >= 5 ==> comes_to_link(
            step,
            outcomes,
        ),
        step == LinkStep::TestSymlink && outcomes.len() >= 6 && !outcomes[0] ==> comes_to_link(step, outcomes),
        forall|o: bool|
            #[trigger] link_step_after(step, o) == LinkStep::Done ==> (step == LinkStep::Link || step
                == LinkStep::Done || (step == LinkStep::TestSymlink && o)),
    decreases outcomes.len(),
{
    if step != LinkStep::Link && step != LinkStep::Done && outcomes.len() > 0 {
        let next = link_step_after(step, outcomes[0]);
        lemma_link_always_made(next, outcomes.drop_first());
        assert(step != LinkStep::TestSymlink ==> link_step_rank(next) > link_step_rank(step));
    }
}

/// The paths of the string-valued pairs hold no `=`.
pub open spec fn paths_without_equals(pairs: Seq<(String, Option<String>)>) -> bool {
    forall|i: int|
        0 <= i < pairs.len() && (#[trigger] pairs[i]).1 is Some ==> !pairs[i].0@.contains('=')
            && !pairs[i].1.unwrap()@.contains('=')
}

/// No two pairs have the same key, as in a Lua table.
pub open spec fn keys_distinct(pairs: Seq<(String, Option<String>)>) -> bool {
    forall|i: int, j: int| 0 <= i < j < pairs.len() ==> (#[trigger] pairs[i]).0@ != (#[trigger] pairs[j]).0@
}

proof fn lemma_link_item_source(pairs: Seq<(String, Option<String>)>, i: int)
    requires
        0 <= i < link_items(pairs).len(),
    ensures
        exists|j: int|
            0 <= j < pairs.len() && (#[trigger] pairs[j]).1 is Some && link_items(pairs)[i] == link_item(
                pairs[j].0@,
                pairs[j].1.unwrap()@,
            ),
    decreases pairs.len(),
{
    let init = pairs.drop_last();
    let last = pairs.len() - 1;
    assert(pairs[last] == pairs.last());
    if pairs.last().1 is Some && i == link_items(init).len() {
        assert(link_items(pairs)[i] == link_item(pairs[last].0@, pairs[last].1.unwrap()@));
    } else {
        lemma_link_item_source(init, i);
        let j = choose|j: int|
            0 <= j < init.len() && (#[trigger] init[j]).1 is Some && link_items(init)[i] == link_item(
                init[j].0@,
                init[j].1.unwrap()@,
            );
        assert(init[j] == pairs[j]);
    }
}

proof fn lemma_dictionary_holds(pairs: Seq<(String, Option<String>)>, j: int)
    requires
        keys_distinct(pairs),
        0 <= j < pairs.len(),
        pairs[j].1 is Some,
    ensures
        string_dictionary(pairs).contains_key(pairs[j].0@),
        string_dictionary(pairs)[pairs[j].0@] == pairs[j].1.unwrap()@,
    decreases pairs.len(),
{
    let init = pairs.drop_last();
    let last = pairs.len() - 1;
    assert(pairs[last] == pairs.last());
    if j < last {
        assert forall|a: int, b: int| 0 <= a < b < init.len() implies (#[trigger] init[a]).0@ != (
        #[trigger] init[b]).0@ by {
            assert(init[a] == pairs[a] && init[b] == pairs[b]);
        }
        assert(init[j] == pairs[j]);
        lemma_dictionary_holds(init, j);
        assert(pairs[j].0@ != pairs[last].0@);
    }
}

/// Law: a run whose symlinks table is unchanged since the save file was
/// written removes none of the symlinks it made. Every item that the written
/// file reads back has a link and a target, and stays where its link exists
/// as a symlink. The table's keys are distinct, as a Lua table's are; its
/// paths hold no `;` or `,` (which the file format cuts at) and no `=` (which
/// the saved item is cut at).
pub proof fn lemma_unchanged_table_keeps_links(pairs: Seq<(String, Option<String>)>)
    requires
        pairs_savable(pairs),
        paths_without_equals(pairs),
        keys_distinct(pairs),
    ensures
        forall|i: int|
            0 <= i < loaded(save_elements_of(symlinks_message(pairs))).0.len() ==> {
                let v = #[trigger] loaded(save_elements_of(symlinks_message(pairs))).0[i];
                &&& saved_parts(v).len() >= 2
                &&& keeps_saved(v, string_dictionary(pairs), true, true)
            },
{
    lemma_save_roundtrip(pairs);
    let items = link_items(pairs);
    assert forall|i: int| 0 <= i < items.len() implies saved_parts(#[trigger] items[i]).len() >= 2
        && keeps_saved(items[i], string_dictionary(pairs), true, true) by {
        lemma_link_item_source(pairs, i);
        let j = choose|j: int|
            0 <= j < pairs.len() && (#[trigger] pairs[j]).1 is Some && items[i] == link_item(
                pairs[j].0@,
                pairs[j].1.unwrap()@,
            );
        lemma_dictionary_holds(pairs, j);
        lemma_saved_link_kept(pairs[j].0@, pairs[j].1.unwrap()@, string_dictionary(pairs));
    }
}

} // verus!
