//! Recognition of driver flags on the command line.
//!
//! A token is a flag when it is a `/`, one or more word characters, and
//! optionally `=` followed by anything.  Every other token names a manifest
//! file.

use vstd::prelude::*;
use vstd::string::*;
use crate::task::BuildError;

verus! {

/// A word character: an ASCII letter, a digit, or an underscore.
pub open spec fn is_word_char(c: char) -> bool {
    ('a' <= c && c <= 'z') || ('A' <= c && c <= 'Z') || ('0' <= c && c <= '9') || c == '_'
}

/// After the leading word run, a flag either ends or continues with `=`.
pub open spec fn flag_tail_ok(s: Seq<char>, i: int) -> bool
    decreases s.len() - i,
{
    if i >= s.len() {
        true
    } else if is_word_char(s[i]) {
        flag_tail_ok(s, i + 1)
    } else {
        s[i] == '='
    }
}

/// The flag shape: `/`, one or more word characters, then optionally `=` and
/// arbitrary text.
pub open spec fn is_flag_spec(s: Seq<char>) -> bool {
    s.len() >= 2 && s[0] == '/' && is_word_char(s[1]) && flag_tail_ok(s, 2)
}

fn word_char(c: char) -> (r: bool)
    ensures
        r == is_word_char(c),
{
    ('a' <= c && c <= 'z') || ('A' <= c && c <= 'Z') || ('0' <= c && c <= '9') || c == '_'
}

/// Does `arg` have the shape of a driver flag?
pub fn is_flag(arg: &str) -> (r: bool)
    ensures
        r == is_flag_spec(arg@),
{
    let n = arg.unicode_len();
    if n < 2 {
        return false;
    }
    if arg.get_char(0) != '/' {
        return false;
    }
    if !word_char(arg.get_char(1)) {
        return false;
    }
    let mut i: usize = 2;
    while i < n
        invariant
            n == arg@.len(),
            2 <= i <= n,
            arg@[0] == '/',
            is_word_char(arg@[1]),
            flag_tail_ok(arg@, 2) == flag_tail_ok(arg@, i as int),
        decreases n - i,
    {
        let c = arg.get_char(i);
        if c == '=' {
            return true;
        }
        if !word_char(c) {
            return false;
        }
        i = i + 1;
    }
    true
}

/// The manifest file names among the driver's arguments, in order: every
/// token that is not a flag.
pub open spec fn non_flag_files(s: Seq<String>) -> Seq<String>
    decreases s.len(),
{
    if s.len() == 0 {
        Seq::empty()
    } else if !is_flag_spec(s.last()@) {
        non_flag_files(s.drop_last()).push(s.last())
    } else {
        non_flag_files(s.drop_last())
    }
}

/// Select the manifest file names among the driver's arguments: every token
/// that is not a flag.  With no file left the run is refused.
pub fn select_task_files(args: &Vec<String>) -> (r: Result<Vec<String>, BuildError>)
    ensures
        match r {
            Ok(files) => {
                &&& files@ == non_flag_files(args@)
                &&& files@.len() > 0
            },
            Err(e) => {
                &&& e == BuildError::NoTasks
                &&& non_flag_files(args@).len() == 0
            },
        },
{
    let mut files: Vec<String> = Vec::new();
    let n = args.len();
    let mut i: usize = 0;
    proof {
        assert(args@.subrange(0, 0) =~= Seq::<String>::empty());
    }
    while i < n
        invariant
            n == args@.len(),
            i <= n,
            files@ == non_flag_files(args@.subrange(0, i as int)),
        decreases n - i,
    {
        let ghost prefix = args@.subrange(0, i as int);
        let keep = !is_flag(args[i].as_str());
        if keep {
            files.push(args[i].clone());
        }
        proof {
            assert(args@.subrange(0, i + 1).drop_last() =~= prefix);
            assert(args@.subrange(0, i + 1).last() == args@[i as int]);
        }
        i = i + 1;
    }
    proof {
        assert(args@.subrange(0, n as int) =~= args@);
    }
    if files.len() == 0 {
        Err(BuildError::NoTasks)
    } else {
        Ok(files)
    }
}

} // verus!
