//! The command line: what the arguments ask for.

use vstd::prelude::*;
use vstd::string::StrSliceExecFns;
use crate::api::Compression;
use crate::strings::{push_str_chars, str_eq, string_from_chars};

verus! {

/// The usage line.
pub fn usage() -> (r: &'static str)
    ensures
        r@ == usage_text(),
{
    "Usage: AozoraEpub3-to-azw3 <input.epub> [-o <output.azw3>] [-c0 | -c1] [-verbose] [-dont_append_source] [-donotaddsource]"
}

/// The usage line.
pub open spec fn usage_text() -> Seq<char> {
    "Usage: AozoraEpub3-to-azw3 <input.epub> [-o <output.azw3>] [-c0 | -c1] [-verbose] [-dont_append_source] [-donotaddsource]"@
}

/// What the arguments ask for. A conversion names its input and output
/// arguments by position.
#[derive(Debug, Clone, PartialEq, Eq)]
pub enum CommandLine {
    /// `-h` or `--help`.
    Help,
    /// `-V` or `--version`.
    Version,
    /// Convert the input argument into the output argument (by default the
    /// input with the `azw3` extension).
    Convert { input: usize, output: Option<usize>, compression: Compression, verbose: bool },
    /// A refused command line, with its message.
    Fail(String),
}

/// What the arguments ask for, as mathematical values.
pub enum CommandLineView {
    Help,
    Version,
    Convert { input: int, output: Option<int>, compression: Compression, verbose: bool },
    Fail(Seq<char>),
}

impl View for CommandLine {
    type V = CommandLineView;

    open spec fn view(&self) -> CommandLineView {
        match self {
            CommandLine::Help => CommandLineView::Help,
            CommandLine::Version => CommandLineView::Version,
            CommandLine::Convert { input, output, compression, verbose } => CommandLineView::Convert {
                input: *input as int,
                output: match output {
                    Some(o) => Some(*o as int),
                    None => None,
                },
                compression: *compression,
                verbose: *verbose,
            },
            CommandLine::Fail(m) => CommandLineView::Fail(m@),
        }
    }
}

/// The options read so far.
pub struct ArgState {
    pub input: Option<int>,
    pub output: Option<int>,
    pub compression: Compression,
    pub selected: bool,
    pub verbose: bool,
}

/// Whether the text starts with `-`.
pub open spec fn is_option(a: Seq<char>) -> bool {
    a.len() > 0 && a[0] == '-'
}

/// What the arguments from `i` on ask for, after the options before.
/// `-h`/`--help` and `-V`/`--version` answer at once; `-o` takes the next
/// argument as the output; `-c0` and `-c1` choose the compression, once;
/// `-c2` is refused; `-verbose` reports the stages; `-dont_append_source`
/// and `-donotaddsource` are accepted and ignored; any other option is
/// refused; the one argument that is no option is the input.
pub open spec fn parse_from(args: Seq<Seq<char>>, i: int, st: ArgState) -> CommandLineView
    decreases args.len() - i,
{
    if i < 0 || i >= args.len() {
        match st.input {
            Some(k) => CommandLineView::Convert {
                input: k,
                output: st.output,
                compression: st.compression,
                verbose: st.verbose,
            },
            None => CommandLineView::Fail("an EPUB input path is required"@),
        }
    } else {
        let a = args[i];
        if a == "-h"@ || a == "--help"@ {
            CommandLineView::Help
        } else if a == "-V"@ || a == "--version"@ {
            CommandLineView::Version
        } else if a == "-o"@ {
            if i + 1 < args.len() {
                parse_from(args, i + 2, ArgState { output: Some(i + 1), ..st })
            } else {
                CommandLineView::Fail("-o requires an output path"@)
            }
        } else if a == "-c0"@ || a == "-c1"@ {
            if st.selected {
                CommandLineView::Fail("-c0 and -c1 cannot be combined"@)
            } else {
                parse_from(
                    args,
                    i + 1,
                    ArgState {
                        compression: if a == "-c0"@ {
                            Compression::Uncompressed
                        } else {
                            Compression::PalmDoc
                        },
                        selected: true,
                        ..st
                    },
                )
            }
        } else if a == "-c2"@ {
            CommandLineView::Fail("-c2 / HUFF-CDIC compression is not supported"@)
        } else if a == "-verbose"@ {
            parse_from(args, i + 1, ArgState { verbose: true, ..st })
        } else if a == "-dont_append_source"@ || a == "-donotaddsource"@ {
            parse_from(args, i + 1, st)
        } else if is_option(a) {
            CommandLineView::Fail("unsupported option: "@ + a)
        } else if st.input is None {
            parse_from(args, i + 1, ArgState { input: Some(i), ..st })
        } else {
            CommandLineView::Fail("only one EPUB input path is supported"@)
        }
    }
}

/// The options before any argument: PalmDOC compression, quiet.
pub open spec fn initial_args() -> ArgState {
    ArgState { input: None, output: None, compression: Compression::PalmDoc, selected: false, verbose: false }
}

fn fail_with(message: &str) -> (r: CommandLine)
    ensures
        r@ == CommandLineView::Fail(message@),
{
    CommandLine::Fail(message.to_owned())
}

/// What the command-line arguments ask for.
pub fn parse_arguments(args: &[String]) -> (r: CommandLine)
    ensures
        r@ == parse_from(args@.map_values(|a: String| a@), 0, initial_args()),
{
    let ghost v = args@.map_values(|a: String| a@);
    let n = args.len();
    let mut input: Option<usize> = None;
    let mut output: Option<usize> = None;
    let mut compression = Compression::PalmDoc;
    let mut selected = false;
    let mut verbose = false;
    let mut i: usize = 0;
    while i < n
        invariant
            n == args@.len(),
            v == args@.map_values(|a: String| a@),
            i <= n + 1,
            parse_from(
                v,
                i as int,
                ArgState {
                    input: match input {
                        Some(k) => Some(k as int),
                        None => None,
                    },
                    output: match output {
                        Some(k) => Some(k as int),
                        None => None,
                    },
                    compression,
                    selected,
                    verbose,
                },
            ) == parse_from(v, 0, initial_args()),
        decreases n + 1 - i,
    {
        let a = args[i].as_str();
        assert(v[i as int] == a@);
        if str_eq(a, "-h") || str_eq(a, "--help") {
            return CommandLine::Help;
        } else if str_eq(a, "-V") || str_eq(a, "--version") {
            return CommandLine::Version;
        } else if str_eq(a, "-o") {
            if i + 1 < n {
                output = Some(i + 1);
                i = i + 2;
            } else {
                return fail_with("-o requires an output path");
            }
        } else if str_eq(a, "-c0") || str_eq(a, "-c1") {
            if selected {
                return fail_with("-c0 and -c1 cannot be combined");
            }
            compression = if str_eq(a, "-c0") {
                Compression::Uncompressed
            } else {
                Compression::PalmDoc
            };
            selected = true;
            i = i + 1;
        } else if str_eq(a, "-c2") {
            return fail_with("-c2 / HUFF-CDIC compression is not supported");
        } else if str_eq(a, "-verbose") {
            verbose = true;
            i = i + 1;
        } else if str_eq(a, "-dont_append_source") || str_eq(a, "-donotaddsource") {
            i = i + 1;
        } else if a.unicode_len() > 0 && a.get_char(0) == '-' {
            let mut m: Vec<char> = Vec::new();
            push_str_chars(&mut m, "unsupported option: ");
            push_str_chars(&mut m, a);
            return CommandLine::Fail(string_from_chars(m.as_slice()));
        } else {
            if input.is_none() {
                input = Some(i);
                i = i + 1;
            } else {
                return fail_with("only one EPUB input path is supported");
            }
        }
    }
    match input {
        Some(k) => CommandLine::Convert { input: k, output, compression, verbose },
        None => fail_with("an EPUB input path is required"),
    }
}

} // verus!
