use vstd::prelude::*;
use vstd::string::StringExecFns;
use crate::cli_error::{texts, Error, ErrorView};
use crate::text::collect_chars;

verus! {

broadcast use vstd::string::group_string_axioms;

/// What the command line asks for.
#[derive(Debug, PartialEq)]
pub struct Args {
    /// The file holding the program to run.
    pub input_file: Option<String>,
    /// The program itself, given on the command line.
    pub input_command: Option<String>,
    /// Whether the program is read from the standard input.
    pub input_is_stdin: bool,
    /// Whether to run interactively.
    pub interactive: bool,
    /// Whether the usage was asked for.
    pub help: bool,
    /// Whether the version was asked for.
    pub version: bool,
    /// The arguments handed on to the program.
    pub script_arguments: Vec<String>,
}

/// What `Args` holds, as text.
pub struct ArgsView {
    pub input_file: Option<Seq<char>>,
    pub input_command: Option<Seq<char>>,
    pub input_is_stdin: bool,
    pub interactive: bool,
    pub help: bool,
    pub version: bool,
    pub script_arguments: Seq<Seq<char>>,
}

pub open spec fn opt_text(o: Option<String>) -> Option<Seq<char>> {
    match o {
        Some(s) => Some(s@),
        None => None,
    }
}

impl View for Args {
    type V = ArgsView;

    open spec fn view(&self) -> ArgsView {
        ArgsView {
            input_file: opt_text(self.input_file),
            input_command: opt_text(self.input_command),
            input_is_stdin: self.input_is_stdin,
            interactive: self.interactive,
            help: self.help,
            version: self.version,
            script_arguments: texts(self.script_arguments@),
        }
    }
}

/// The texts of the given arguments.
pub open spec fn arg_texts(a: Seq<&str>) -> Seq<Seq<char>> {
    a.map_values(|s: &str| s@)
}

pub open spec fn result_view<T: View>(r: Result<T, Error>) -> Result<T::V, ErrorView> {
    match r {
        Ok(a) => Ok(a@),
        Err(e) => Err(e@),
    }
}

/// Nothing asked for yet.
pub open spec fn empty_args() -> ArgsView {
    ArgsView {
        input_file: None,
        input_command: None,
        input_is_stdin: false,
        interactive: false,
        help: false,
        version: false,
        script_arguments: Seq::empty(),
    }
}

/// Where reading the command line stands: what was understood, the unknown
/// options met, and whether the remaining arguments belong to the program.
pub struct ParseState {
    pub args: ArgsView,
    pub unexpected: Seq<Seq<char>>,
    pub end: bool,
}

/// The outcome once every argument was read: unknown options, if any, are an error.
pub open spec fn finish(st: ParseState) -> Result<ArgsView, ErrorView> {
    if st.unexpected.len() > 0 {
        Err(ErrorView::UnexpectedArgs(st.unexpected))
    } else {
        Ok(st.args)
    }
}

pub open spec fn is_option(arg: Seq<char>) -> bool {
    arg.len() > 0 && arg[0] == '-'
}

/// Reads the arguments of `a` from index `i` on, in state `st`.
///
/// `--` and the first argument that names the program (a file, `--command`
/// with its value, or `--stdin`) end the options: whatever follows is handed
/// on to the program, but for one `--` right after them.
pub open spec fn parse_rest(a: Seq<Seq<char>>, i: int, st: ParseState) -> Result<ArgsView, ErrorView>
    decreases a.len() - i,
{
    if i < 0 || i >= a.len() {
        finish(st)
    } else {
        let arg = a[i];
        if st.end {
            let rest = a.subrange(i + 1, a.len() as int);
            let forwarded = if arg == "--"@ {
                rest
            } else {
                seq![arg] + rest
            };
            finish(
                ParseState {
                    args: ArgsView {
                        script_arguments: st.args.script_arguments + forwarded,
                        ..st.args
                    },
                    ..st
                },
            )
        } else if is_option(arg) {
            if arg == "--"@ {
                parse_rest(a, i + 1, ParseState { end: true, ..st })
            } else if arg == "-c"@ || arg == "--command"@ {
                if i + 1 < a.len() {
                    parse_rest(
                        a,
                        i + 2,
                        ParseState {
                            args: ArgsView { input_command: Some(a[i + 1]), ..st.args },
                            end: true,
                            ..st
                        },
                    )
                } else {
                    Err(ErrorView::MissingArgValue("--command"@))
                }
            } else if arg == "-h"@ || arg == "--help"@ {
                parse_rest(a, i + 1, ParseState { args: ArgsView { help: true, ..st.args }, ..st })
            } else if arg == "-i"@ || arg == "--interactive"@ {
                parse_rest(
                    a,
                    i + 1,
                    ParseState { args: ArgsView { interactive: true, ..st.args }, ..st },
                )
            } else if arg == "-s"@ || arg == "--stdin"@ {
                parse_rest(
                    a,
                    i + 1,
                    ParseState {
                        args: ArgsView { input_is_stdin: true, ..st.args },
                        end: true,
                        ..st
                    },
                )
            } else if arg == "-v"@ || arg == "--version"@ {
                parse_rest(a, i + 1, ParseState { args: ArgsView { version: true, ..st.args }, ..st })
            } else {
                parse_rest(a, i + 1, ParseState { unexpected: st.unexpected.push(arg), ..st })
            }
        } else if st.args.input_file is None {
            parse_rest(
                a,
                i + 1,
                ParseState { args: ArgsView { input_file: Some(arg), ..st.args }, end: true, ..st },
            )
        } else {
            parse_rest(
                a,
                i + 1,
                ParseState {
                    args: ArgsView {
                        script_arguments: st.args.script_arguments.push(arg),
                        ..st.args
                    },
                    end: true,
                    ..st
                },
            )
        }
    }
}

/// The command line `a`, whose first item names the executable, read without
/// any check on how the options combine.
pub open spec fn parse_options(a: Seq<Seq<char>>) -> Result<ArgsView, ErrorView> {
    parse_rest(a, 1, ParseState { args: empty_args(), unexpected: Seq::empty(), end: false })
}

/// The ways of giving the program that `a` asks for together, when there are
/// two or more of them.
pub open spec fn conflicts(a: ArgsView) -> Seq<Seq<char>> {
    match (a.input_command, a.input_file, a.input_is_stdin) {
        (None, Some(_), true) => seq!["<file>"@, "--stdin"@],
        (Some(_), None, true) => seq!["--command=<command>"@, "--stdin"@],
        (Some(_), Some(_), false) => seq!["--command=<command>"@, "<file>"@],
        (Some(_), Some(_), true) => seq!["--command=<command>"@, "<file>"@, "--stdin"@],
        _ => Seq::empty(),
    }
}

/// The command line `a`, checked: `--help` comes before any other check, then
/// the ways of giving the program must not conflict.
pub open spec fn parse_spec(a: Seq<Seq<char>>) -> Result<ArgsView, ErrorView> {
    match parse_options(a) {
        Ok(args) => if args.help {
            Err(ErrorView::HelpRequested)
        } else if conflicts(args).len() > 0 {
            Err(ErrorView::ConflictingArgs(conflicts(args)))
        } else {
            Ok(args)
        },
        Err(e) => Err(e),
    }
}

/// Whether two strings hold the same characters.
fn str_eq(a: &str, b: &str) -> (r: bool)
    ensures
        r == (a@ == b@),
{
    let x = collect_chars(a);
    let y = collect_chars(b);
    if x.len() != y.len() {
        return false;
    }
    let mut i: usize = 0;
    while i < x.len()
        invariant
            x@ == a@,
            y@ == b@,
            x.len() == y.len(),
            i <= x.len(),
            x@.take(i as int) == y@.take(i as int),
        decreases x.len() - i,
    {
        if x[i] != y[i] {
            assert(a@[i as int] != b@[i as int]);
            return false;
        }
        assert(x@.take(i + 1) =~= x@.take(i as int).push(x@[i as int]));
        assert(y@.take(i + 1) =~= y@.take(i as int).push(y@[i as int]));
        i = i + 1;
    }
    assert(x@ =~= x@.take(i as int));
    assert(y@ =~= y@.take(i as int));
    true
}

/// Whether the argument is an option: it starts with `-`.
fn starts_with_dash(arg: &str) -> (r: bool)
    ensures
        r == is_option(arg@),
{
    if arg.unicode_len() == 0 {
        false
    } else {
        arg.get_char(0) == '-'
    }
}


/// Appends `s` to the list `v`.
fn push_text(v: &mut Vec<String>, s: &str)
    ensures
        texts(final(v)@) == texts(old(v)@).push(s@),
{
    v.push(String::from_str(s));
    assert(texts(v@) =~= texts(old(v)@).push(s@));
}

impl Args {
    /// Reads the command line `args`, whose first item names the executable,
    /// and checks it: `--help` wins over every other check, then the ways of
    /// giving the program must not conflict.
    pub fn parse_from(args: &[&str]) -> (r: Result<Args, Error>)
        requires
            args.len() >= 1,
        ensures
            result_view(r) == parse_spec(arg_texts(args@)),
    {
        let args = match Args::inner_parse_from(args) {
            Ok(args) => args,
            Err(e) => {
                return Err(e);
            },
        };
        if args.help {
            // Help is handled first, before any check.
            return Err(Error::HelpRequested);
        }
        match args.validate() {
            Ok(()) => Ok(args),
            Err(e) => Err(e),
        }
    }

    /// Reads the command line `args`, whose first item names the executable,
    /// without checking how the options combine.
    pub fn inner_parse_from(args: &[&str]) -> (r: Result<Args, Error>)
        requires
            args.len() >= 1,
        ensures
            result_view(r) == parse_options(arg_texts(args@)),
    {
        let ghost a = arg_texts(args@);
        let mut result = Args {
            input_file: None,
            input_command: None,
            input_is_stdin: false,
            interactive: false,
            help: false,
            version: false,
            script_arguments: Vec::new(),
        };
        let mut unexpected_args: Vec<String> = Vec::new();
        let mut end_of_arg_list = false;
        let mut i: usize = 1;
        proof {
            assert(result@ == empty_args()) by {
                assert(texts(result.script_arguments@) =~= Seq::<Seq<char>>::empty());
            }
            assert(texts(unexpected_args@) =~= Seq::<Seq<char>>::empty());
        }
        while i < args.len()
            invariant
                1 <= i <= args.len(),
                a == arg_texts(args@),
                a.len() == args.len(),
                parse_rest(
                    a,
                    i as int,
                    ParseState { args: result@, unexpected: texts(unexpected_args@), end: end_of_arg_list },
                ) == parse_options(a),
            decreases args.len() - i,
        {
            let arg = args[i];
            let ghost i0 = i as int;
            let ghost st = ParseState { args: result@, unexpected: texts(unexpected_args@), end: end_of_arg_list };
            assert(a[i as int] == arg@);
            if end_of_arg_list {
                // Hand the current argument on, unless it is `--`, then all the rest.
                if !str_eq(arg, "--") {
                    push_text(&mut result.script_arguments, arg);
                }
                let ghost base = texts(result.script_arguments@);
                let ghost pre = result@;
                let mut j = i + 1;
                while j < args.len()
                    invariant
                        i < j <= args.len(),
                        result@ == (ArgsView { script_arguments: texts(result.script_arguments@), ..pre }),
                        a == arg_texts(args@),
                        texts(result.script_arguments@) == base + a.subrange(i + 1, j as int),
                    decreases args.len() - j,
                {
                    push_text(&mut result.script_arguments, args[j]);
                    assert(a.subrange(i + 1, j + 1) =~= a.subrange(i + 1, j as int).push(a[j as int]));
                    j = j + 1;
                }
                proof {
                    let rest = a.subrange(i + 1, a.len() as int);
                    let forwarded = if a[i0] == "--"@ {
                        rest
                    } else {
                        seq![a[i0]] + rest
                    };
                    assert(base + rest =~= st.args.script_arguments + forwarded);
                }
                i = args.len();
            } else {
                if starts_with_dash(arg) {
                    if str_eq(arg, "--") {
                        end_of_arg_list = true;
                    } else if str_eq(arg, "-c") || str_eq(arg, "--command") {
                        if i + 1 < args.len() {
                            result.input_command = Some(String::from_str(args[i + 1]));
                            end_of_arg_list = true;
                            i = i + 1;
                        } else {
                            return Err(Error::MissingArgValue(String::from_str("--command")));
                        }
                    } else if str_eq(arg, "-h") || str_eq(arg, "--help") {
                        result.help = true;
                    } else if str_eq(arg, "-i") || str_eq(arg, "--interactive") {
                        result.interactive = true;
                    } else if str_eq(arg, "-s") || str_eq(arg, "--stdin") {
                        result.input_is_stdin = true;
                        end_of_arg_list = true;
                    } else if str_eq(arg, "-v") || str_eq(arg, "--version") {
                        result.version = true;
                    } else {
                        push_text(&mut unexpected_args, arg);
                    }
                } else if result.input_file.is_none() {
                    result.input_file = Some(String::from_str(arg));
                    end_of_arg_list = true;
                } else {
                    push_text(&mut result.script_arguments, arg);
                    end_of_arg_list = true;
                }
                i = i + 1;
            }
        }
        if unexpected_args.len() > 0 {
            Err(Error::UnexpectedArgs(unexpected_args))
        } else {
            Ok(result)
        }
    }

    /// Checks that at most one way of giving the program was used.
    pub fn validate_no_input_args_conflict(&self) -> (r: Result<(), Error>)
        ensures
            r is Ok <==> conflicts(self@).len() == 0,
            r matches Err(e) ==> e@ == ErrorView::ConflictingArgs(conflicts(self@)),
    {
        let mut conflicting_args: Vec<String> = Vec::new();
        match (&self.input_command, &self.input_file, self.input_is_stdin) {
            (None, Some(_), true) => {
                push_text(&mut conflicting_args, "<file>");
                push_text(&mut conflicting_args, "--stdin");
            },
            (Some(_), None, true) => {
                push_text(&mut conflicting_args, "--command=<command>");
                push_text(&mut conflicting_args, "--stdin");
            },
            (Some(_), Some(_), false) => {
                push_text(&mut conflicting_args, "--command=<command>");
                push_text(&mut conflicting_args, "<file>");
            },
            (Some(_), Some(_), true) => {
                push_text(&mut conflicting_args, "--command=<command>");
                push_text(&mut conflicting_args, "<file>");
                push_text(&mut conflicting_args, "--stdin");
            },
            _ => {},
        }
        assert(texts(conflicting_args@) =~= conflicts(self@));
        if conflicting_args.len() > 0 {
            return Err(Error::ConflictingArgs(conflicting_args));
        }
        Ok(())
    }

    /// Checks how the options combine.
    pub fn validate(&self) -> (r: Result<(), Error>)
        ensures
            r is Ok <==> conflicts(self@).len() == 0,
            r matches Err(e) ==> e@ == ErrorView::ConflictingArgs(conflicts(self@)),
    {
        self.validate_no_input_args_conflict()
    }
}

} // verus!
