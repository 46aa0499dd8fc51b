//! Splitting a raw argument list into leading arguments, requested tags,
//! and the command to run per path.

use vstd::prelude::*;
use vstd::string::StrSliceExecFns;

verus! {

/// The three parts of an argument list: the tag arguments, what came
/// before the first tag, and what came after the tags.
#[derive(Debug, PartialOrd, PartialEq)]
pub struct ParsedArgs {
    pub tags: Vec<String>,
    pub before_tags: Vec<String>,
    pub after_tags: Vec<String>,
}

/// Whether an argument requests a tag: it starts with the `+` marker.
pub open spec fn is_tag_arg(a: Seq<char>) -> bool {
    a.len() > 0 && a[0] == '+'
}

/// One step of the argument scan. A tag argument joins `tags` while no
/// argument has been routed after the tags yet; once at least one tag has
/// been seen, every other argument is routed after the tags; before the
/// first tag, arguments are routed before the tags.
pub open spec fn parse_step(
    acc: (Seq<Seq<char>>, Seq<Seq<char>>, Seq<Seq<char>>),
    a: Seq<char>,
) -> (Seq<Seq<char>>, Seq<Seq<char>>, Seq<Seq<char>>) {
    if is_tag_arg(a) && acc.2.len() == 0 {
        (acc.0.push(a), acc.1, acc.2)
    } else if acc.0.len() != 0 {
        (acc.0, acc.1, acc.2.push(a))
    } else {
        (acc.0, acc.1.push(a), acc.2)
    }
}

/// The arguments split as `(tags, before_tags, after_tags)`, scanning
/// left to right.
pub open spec fn parse_args_spec(args: Seq<Seq<char>>) -> (
    Seq<Seq<char>>,
    Seq<Seq<char>>,
    Seq<Seq<char>>,
)
    decreases args.len(),
{
    if args.len() == 0 {
        (Seq::empty(), Seq::empty(), Seq::empty())
    } else {
        parse_step(parse_args_spec(args.drop_last()), args.last())
    }
}

/// Takes the full list of arguments and splits it into the tags found at
/// the start of the tag run, the arguments before the first tag, and the
/// remaining arguments after the tags.
pub fn find_tags_in_args(args: &Vec<String>) -> (r: ParsedArgs)
    ensures
        (r.tags.deep_view(), r.before_tags.deep_view(), r.after_tags.deep_view())
            == parse_args_spec(args.deep_view()),
{
    let mut tags: Vec<String> = Vec::new();
    let mut before_tags: Vec<String> = Vec::new();
    let mut after_tags: Vec<String> = Vec::new();
    let mut i: usize = 0;
    while i < args.len()
        invariant
            i <= args.len(),
            (tags.deep_view(), before_tags.deep_view(), after_tags.deep_view())
                == parse_args_spec(args.deep_view().take(i as int)),
        decreases args.len() - i,
    {
        let a = &args[i];
        let is_tag = !a.as_str().is_empty() && a.as_str().get_char(0) == '+';
        assert(is_tag == is_tag_arg(a@));
        if is_tag && after_tags.len() == 0 {
            tags.push(a.clone());
        } else if tags.len() != 0 {
            after_tags.push(a.clone());
        } else {
            before_tags.push(a.clone());
        }
        proof {
            let dv = args.deep_view();
            assert(dv.take(i + 1).drop_last() =~= dv.take(i as int));
            assert(dv.take(i + 1).last() == a@);
        }
        i = i + 1;
    }
    proof {
        assert(args.deep_view().take(args.len() as int) =~= args.deep_view());
    }
    ParsedArgs { tags, before_tags, after_tags }
}

} // verus!
