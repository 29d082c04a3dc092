use vstd::prelude::*;
use vstd::string::StringExecFns;

verus! {

/// Why the command line was not accepted.
#[derive(Debug, PartialEq)]
pub enum Error {
    /// `--help` was given: the usage is to be shown instead of running.
    HelpRequested,
    /// An option that takes a value came last.
    MissingArgValue(String),
    /// Options that are not known, in the order given.
    UnexpectedArgs(Vec<String>),
    /// Ways of giving the program that exclude each other.
    ConflictingArgs(Vec<String>),
}

/// What an error holds, as text.
pub enum ErrorView {
    HelpRequested,
    MissingArgValue(Seq<char>),
    UnexpectedArgs(Seq<Seq<char>>),
    ConflictingArgs(Seq<Seq<char>>),
}

/// The texts of a list of strings.
pub open spec fn texts(v: Seq<String>) -> Seq<Seq<char>> {
    v.map_values(|s: String| s@)
}

impl View for Error {
    type V = ErrorView;

    open spec fn view(&self) -> ErrorView {
        match self {
            Error::HelpRequested => ErrorView::HelpRequested,
            Error::MissingArgValue(s) => ErrorView::MissingArgValue(s@),
            Error::UnexpectedArgs(v) => ErrorView::UnexpectedArgs(texts(v@)),
            Error::ConflictingArgs(v) => ErrorView::ConflictingArgs(texts(v@)),
        }
    }
}

/// The items of `xs` with `sep` between each two of them.
pub open spec fn join(xs: Seq<Seq<char>>, sep: Seq<char>) -> Seq<char>
    decreases xs.len(),
{
    if xs.len() == 0 {
        Seq::empty()
    } else if xs.len() == 1 {
        xs[0]
    } else {
        join(xs.drop_last(), sep) + sep + xs.last()
    }
}

/// The message for unknown options.
pub open spec fn unexpected_message(args: Seq<Seq<char>>) -> Seq<char> {
    if args.len() == 1 {
        "unexpected argument '"@ + args[0] + "' found"@
    } else {
        "unexpected arguments found: '"@ + join(args, "', '"@) + "'"@
    }
}

/// The message for options that exclude each other: the first against the others.
pub open spec fn conflicting_message(args: Seq<Seq<char>>) -> Seq<char> {
    if args.len() == 2 {
        "the argument '"@ + args[0] + "' cannot be used with '"@ + args[1] + "'"@
    } else {
        "the argument '"@ + args[0] + "' cannot be used with:\n  "@ + join(args.drop_first(), "\n  "@)
    }
}

/// What is shown for an error; empty where the error speaks for itself.
pub open spec fn message(e: ErrorView) -> Seq<char> {
    match e {
        ErrorView::UnexpectedArgs(args) => unexpected_message(args),
        ErrorView::ConflictingArgs(args) => conflicting_message(args),
        _ => Seq::empty(),
    }
}

/// Whether the error holds what its message needs: one unknown option at
/// least, or two conflicting ones at least.
pub open spec fn showable(e: ErrorView) -> bool {
    match e {
        ErrorView::UnexpectedArgs(args) => args.len() >= 1,
        ErrorView::ConflictingArgs(args) => args.len() >= 2,
        _ => true,
    }
}

/// Appends to `out` the strings of `args` from index `from` on, with `sep`
/// between each two of them.
fn append_joined(out: &mut String, args: &Vec<String>, from: usize, sep: &str)
    requires
        from < args.len(),
    ensures
        final(out)@ == old(out)@ + join(texts(args@).subrange(from as int, args.len() as int), sep@),
{
    let ghost xs = texts(args@);
    out.append(args[from].as_str());
    let mut i = from + 1;
    proof {
        assert(xs.subrange(from as int, i as int) =~= seq![xs[from as int]]);
    }
    while i < args.len()
        invariant
            from < i <= args.len(),
            xs == texts(args@),
            out@ == old(out)@ + join(xs.subrange(from as int, i as int), sep@),
        decreases args.len() - i,
    {
        out.append(sep);
        out.append(args[i].as_str());
        proof {
            let prev = xs.subrange(from as int, i as int);
            let next = xs.subrange(from as int, i + 1);
            assert(next.drop_last() =~= prev);
            assert(next.last() == xs[i as int]);
        }
        i = i + 1;
    }
}

impl Error {
    /// The message for unknown options: one quoted, or several listed.
    pub fn format_unexpected_args(args: &Vec<String>) -> (r: String)
        requires
            args.len() >= 1,
        ensures
            r@ == unexpected_message(texts(args@)),
    {
        let ghost xs = texts(args@);
        if args.len() == 1 {
            let mut r = String::from_str("unexpected argument '");
            r.append(args[0].as_str());
            r.append("' found");
            r
        } else {
            let mut r = String::from_str("unexpected arguments found: '");
            append_joined(&mut r, args, 0, "', '");
            r.append("'");
            assert(xs.subrange(0, args.len() as int) =~= xs);
            r
        }
    }

    /// The message for conflicting options: the first one against the others.
    pub fn format_conflicting_args(args: &Vec<String>) -> (r: String)
        requires
            args.len() >= 2,
        ensures
            r@ == conflicting_message(texts(args@)),
    {
        let ghost xs = texts(args@);
        let mut r = String::from_str("the argument '");
        r.append(args[0].as_str());
        if args.len() == 2 {
            r.append("' cannot be used with '");
            r.append(args[1].as_str());
            r.append("'");
        } else {
            r.append("' cannot be used with:\n  ");
            append_joined(&mut r, args, 1, "\n  ");
            assert(xs.subrange(1, args.len() as int) =~= xs.drop_first());
        }
        r
    }

    /// The message shown for the error.
    pub fn to_string(&self) -> (r: String)
        requires
            showable(self@),
        ensures
            r@ == message(self@),
    {
        match self {
            Error::UnexpectedArgs(args) => Error::format_unexpected_args(args),
            Error::ConflictingArgs(args) => Error::format_conflicting_args(args),
            _ => String::new(),
        }
    }
}

} // verus!
