//! Command lines, as values: what to run and with which arguments.
use vstd::prelude::*;
use crate::text::texts;

verus! {

/// A program to run and the arguments to hand it.
pub struct Invocation {
    pub program: String,
    pub args: Vec<String>,
}

impl Invocation {
    /// The program and the arguments, as character sequences.
    pub open spec fn words(&self) -> (Seq<char>, Seq<Seq<char>>) {
        (self.program@, texts(self.args@))
    }
}

/// A fresh `String` holding the characters of `s`.
pub fn owned(s: &str) -> (r: String)
    ensures
        r@ == s@,
{
    s.to_owned()
}

/// Appends the argument `s`.
pub fn push_arg(args: &mut Vec<String>, s: &str)
    ensures
        texts(final(args)@) == texts(old(args)@).push(s@),
{
    let ghost before = texts(args@);
    args.push(owned(s));
    proof {
        assert(texts(args@) =~= before.push(s@));
    }
}

/// The arguments `s` when `yes` holds, none otherwise.
pub open spec fn flag_if(yes: bool, s: Seq<char>) -> Seq<Seq<char>> {
    if yes {
        seq![s]
    } else {
        Seq::empty()
    }
}

/// Appends the argument `s` when `yes` holds.
pub fn push_arg_if(args: &mut Vec<String>, yes: bool, s: &str)
    ensures
        texts(final(args)@) == texts(old(args)@) + flag_if(yes, s@),
{
    let ghost before = texts(args@);
    if yes {
        push_arg(args, s);
        proof {
            assert(texts(args@) =~= before + flag_if(yes, s@));
        }
    } else {
        proof {
            assert(texts(args@) =~= before + flag_if(yes, s@));
        }
    }
}

} // verus!
