//! Small helpers: comparing numbers, and printing a command line.

use vstd::prelude::*;
use crate::CalmakeError;
use crate::toolchain::CommandLine;
use crate::text::push_str;

verus! {

/// Whether two numbers are equal.
pub fn comparenums(a: i32, b: i32) -> (r: Result<bool, CalmakeError>)
    ensures
        r matches Ok(x) && x == (a == b),
{
    return Ok(a == b);
}

/// The arguments, each after a space.
pub open spec fn spaced_args(args: Seq<Seq<char>>) -> Seq<char>
    decreases args.len(),
{
    if args.len() == 0 {
        seq![]
    } else {
        spaced_args(args.drop_last()) + " "@ + args.last()
    }
}

/// A command line as one line of text: the program, then each argument
/// after a space.
pub fn pretty_cmd(cmd: &CommandLine) -> (r: String)
    ensures
        r@ == cmd@.program + spaced_args(cmd@.args),
{
    let mut s = String::new();
    push_str(&mut s, cmd.program.as_str());
    let ghost args = cmd@.args;
    let mut i: usize = 0;
    assert(args.take(0) =~= seq![]);
    assert(s@ =~= cmd@.program + spaced_args(args.take(0)));
    while i < cmd.args.len()
        invariant
            i <= cmd.args.len(),
            args == cmd.args.deep_view(),
            s@ == cmd@.program + spaced_args(args.take(i as int)),
        decreases cmd.args.len() - i,
    {
        push_str(&mut s, " ");
        push_str(&mut s, cmd.args[i].as_str());
        assert(args.take(i + 1).drop_last() =~= args.take(i as int));
        assert(args[i as int] == cmd.args@[i as int]@);
        assert(s@ =~= cmd@.program + spaced_args(args.take(i + 1)));
        i = i + 1;
    }
    assert(args.take(i as int) =~= args);
    s
}

} // verus!
