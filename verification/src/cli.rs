//! What the program tells a user who did not start it as root: the command
//! line to run again, and with which tool.

use vstd::prelude::*;
use crate::text::{chars_of, push_range, push_str, push_char, is_space, char_is_space};

verus! {

broadcast use vstd::string::group_string_axioms;

/// An argument as the suggested command line shows it: in single quotes when
/// it holds white space.
pub open spec fn shown_arg(a: Seq<char>) -> Seq<char> {
    if exists|k: int| 0 <= k < a.len() && is_space(#[trigger] a[k]) {
        seq!['\''] + a + seq!['\'']
    } else {
        a
    }
}

/// The arguments after the program, each after a space.
pub open spec fn shown_args(args: Seq<Seq<char>>) -> Seq<char>
    decreases args.len(),
{
    if args.len() == 0 {
        Seq::empty()
    } else {
        shown_args(args.drop_last()) + seq![' '] + shown_arg(args.last())
    }
}

/// The command line that started the program, to repeat as root: the
/// program (`gentooplz` when unknown) and its arguments, each quoted as
/// [`shown_arg`] quotes it so that the line splits back into the same words.
pub open spec fn command_line_text(args: Seq<Seq<char>>) -> Seq<char> {
    if args.len() == 0 {
        "gentooplz"@
    } else {
        shown_arg(args[0]) + shown_args(args.drop_first())
    }
}

/// The command line shows the program first and alone, then each further
/// argument after a single space: as it is, or in single quotes when it
/// holds white space.
pub proof fn lemma_command_line_grows(args: Seq<Seq<char>>, a: Seq<char>)
    ensures
        command_line_text(seq![a]) == shown_arg(a),
        args.len() > 0 ==> command_line_text(args.push(a)) == command_line_text(args) + seq![' ']
            + shown_arg(a),
        (forall|k: int| 0 <= k < a.len() ==> !is_space(#[trigger] a[k])) ==> shown_arg(a) == a,
        (exists|k: int| 0 <= k < a.len() && is_space(#[trigger] a[k])) ==> shown_arg(a) == seq![
            '\'',
        ] + a + seq!['\''],
{
    let one = seq![a];
    assert(one[0] == a);
    assert(one.drop_first() =~= Seq::<Seq<char>>::empty());
    assert(shown_arg(a) + shown_args(Seq::<Seq<char>>::empty()) =~= shown_arg(a));
    if args.len() > 0 {
        let longer = args.push(a);
        assert(longer[0] == args[0]);
        assert(longer.drop_first() =~= args.drop_first().push(a));
        assert(args.drop_first().push(a).drop_last() =~= args.drop_first());
        assert(shown_arg(args[0]) + (shown_args(args.drop_first()) + seq![' '] + shown_arg(a))
            =~= shown_arg(args[0]) + shown_args(args.drop_first()) + seq![' '] + shown_arg(a));
    }
}

fn has_space(v: &Vec<char>) -> (r: bool)
    ensures
        r == exists|k: int| 0 <= k < v@.len() && is_space(#[trigger] v@[k]),
{
    let mut k: usize = 0;
    while k < v.len()
        invariant
            k <= v@.len(),
            forall|m: int| 0 <= m < k ==> !is_space(#[trigger] v@[m]),
        decreases v@.len() - k,
    {
        if char_is_space(v[k]) {
            return true;
        }
        k = k + 1;
    }
    false
}

/// Appends an argument as [`shown_arg`] shows it.
fn push_shown_arg(out: &mut String, a: &str)
    ensures
        final(out)@ == old(out)@ + shown_arg(a@),
{
    let v = chars_of(a);
    let quote = has_space(&v);
    if quote {
        push_char(out, '\'');
    }
    push_range(out, &v, 0, v.len());
    if quote {
        push_char(out, '\'');
    }
    assert(v@.subrange(0, v@.len() as int) =~= v@);
    assert(out@ =~= old(out)@ + shown_arg(a@));
}

/// Rebuilds the command line from the program's arguments (see
/// [`command_line_text`]).
pub fn command_line(args: &Vec<String>) -> (r: String)
    ensures
        r@ == command_line_text(args@.map_values(|a: String| a@)),
{
    let ghost views = args@.map_values(|a: String| a@);
    if args.len() == 0 {
        let mut out = String::new();
        push_str(&mut out, "gentooplz");
        assert(out@ =~= command_line_text(views));
        return out;
    }
    let mut out = String::new();
    push_shown_arg(&mut out, args[0].as_str());
    let ghost rest = views.drop_first();
    assert(rest.take(0) =~= Seq::<Seq<char>>::empty());
    assert(out@ =~= shown_arg(args@[0]@) + shown_args(rest.take(0)));
    let mut i: usize = 1;
    while i < args.len()
        invariant
            1 <= i <= args@.len(),
            views == args@.map_values(|a: String| a@),
            rest == views.drop_first(),
            out@ == shown_arg(args@[0]@) + shown_args(rest.take(i - 1)),
        decreases args@.len() - i,
    {
        push_char(&mut out, ' ');
        push_shown_arg(&mut out, args[i].as_str());
        proof {
            assert(rest.take(i as int).drop_last() =~= rest.take(i - 1));
            assert(rest.take(i as int).last() == args@[i as int]@);
            assert(out@ =~= shown_arg(args@[0]@) + shown_args(rest.take(i as int)));
        }
        i = i + 1;
    }
    assert(rest.take(i - 1) =~= rest);
    out
}

/// Which command to suggest for running as root.
#[derive(Debug, Clone, Copy, PartialEq, Eq, Structural)]
pub enum RootAdvice {
    /// Only `doas` is installed.
    Doas,
    /// Only `sudo` is installed.
    Sudo,
    /// Both are: either will do.
    Either,
    /// Neither is: log in as root with `su`.
    Su,
}

/// The advice for the tools found on the `PATH`.
pub fn root_advice(has_doas: bool, has_sudo: bool) -> (r: RootAdvice)
    ensures
        r == if has_doas && has_sudo {
            RootAdvice::Either
        } else if has_doas {
            RootAdvice::Doas
        } else if has_sudo {
            RootAdvice::Sudo
        } else {
            RootAdvice::Su
        },
{
    match (has_doas, has_sudo) {
        (true, false) => RootAdvice::Doas,
        (false, true) => RootAdvice::Sudo,
        (true, true) => RootAdvice::Either,
        (false, false) => RootAdvice::Su,
    }
}

} // verus!
