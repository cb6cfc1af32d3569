//! Command-line options of the encoder program.
use vstd::prelude::*;

use crate::text::{parse_unsigned, spec_parse_unsigned};
use crate::types::Subsampling;

verus! {

/// Parsed command-line options.
#[derive(Debug)]
pub struct Options {
    /// Path of the input PPM file.
    pub input: String,
    /// Path of the output JPEG file.
    pub output: String,
    /// Quality factor (1..=100).
    pub quality: u8,
    /// Chroma subsampling mode.
    pub subsampling: Subsampling,
    /// Restart interval in MCUs (0 = disabled).
    pub restart_interval: u16,
}

/// The path `path` with its extension set to `ext`, as
/// `Path::with_extension` forms it.
pub uninterp spec fn path_with_extension(path: Seq<char>, ext: Seq<char>) -> Seq<char>;

/// The path with its extension set to `ext`.
///
/// Calls `std::path::Path::with_extension` and converts the path back to a
/// string (lossless for a path made from a string); the result is named
/// `path_with_extension`: it depends on the path and the extension alone.
/// `with_extension` panics on an extension that holds a path separator, so
/// the extension may hold neither `/` nor `\`.
#[verifier::external_body]
fn with_extension(path: &str, ext: &str) -> (out: String)
    requires
        forall|i: int| 0 <= i < ext@.len() ==> ext@[i] != '/' && ext@[i] != '\\',
    ensures
        out@ == path_with_extension(path@, ext@),
{
    std::path::Path::new(path).with_extension(ext).to_string_lossy().into_owned()
}

/// The extension of the default output file.
pub open spec fn output_extension() -> Seq<char> {
    seq!['j', 'p', 'g']
}

/// Whether two strings are equal.
fn str_eq(a: &str, b: &str) -> (r: bool)
    ensures
        r == (a@ == b@),
{
    let n = a.unicode_len();
    if n != b.unicode_len() {
        return false;
    }
    let mut i: usize = 0;
    while i < n
        invariant
            n == a@.len(),
            n == b@.len(),
            i <= n,
            a@.subrange(0, i as int) == b@.subrange(0, i as int),
        decreases n - i,
    {
        if a.get_char(i) != b.get_char(i) {
            assert(a@[i as int] != b@[i as int]);
            return false;
        }
        proof {
            assert(a@.subrange(0, i + 1) =~= a@.subrange(0, i as int).push(a@[i as int]));
            assert(b@.subrange(0, i + 1) =~= b@.subrange(0, i as int).push(b@[i as int]));
        }
        i = i + 1;
    }
    assert(a@ =~= a@.subrange(0, n as int));
    assert(b@ =~= b@.subrange(0, n as int));
    true
}

/// The options gathered so far: input, output, quality, subsampling,
/// restart interval.
pub type ArgState = (Option<Seq<char>>, Option<Seq<char>>, u8, Subsampling, u16);

/// The options before any argument.
pub open spec fn initial_args() -> ArgState {
    (None, None, 85, Subsampling::S420, 0)
}

/// The outcome of the arguments from index `i` on, in state `st`: the
/// final state, or the message of the first error.
pub open spec fn args_from(args: Seq<Seq<char>>, i: int, st: ArgState) -> Result<ArgState, Seq<char>>
    decreases args.len() - i,
{
    if i < 0 || i >= args.len() {
        Ok(st)
    } else {
        let a = args[i];
        let has_value = i + 1 < args.len();
        if a == "-o"@ || a == "--output"@ {
            if !has_value {
                Err("-o requires a filename"@)
            } else {
                args_from(args, i + 2, (st.0, Some(args[i + 1]), st.2, st.3, st.4))
            }
        } else if a == "-q"@ || a == "--quality"@ {
            if !has_value {
                Err("-q requires a value"@)
            } else {
                match spec_parse_unsigned(args[i + 1], 255) {
                    Err(_) => Err("quality must be a number 1-100"@),
                    Ok(v) => if v == 0 || v > 100 {
                        Err("quality must be 1-100"@)
                    } else {
                        args_from(args, i + 2, (st.0, st.1, v as u8, st.3, st.4))
                    },
                }
            }
        } else if a == "-s"@ || a == "--subsampling"@ {
            if has_value && args[i + 1] == "444"@ {
                args_from(args, i + 2, (st.0, st.1, st.2, Subsampling::S444, st.4))
            } else if has_value && args[i + 1] == "422"@ {
                args_from(args, i + 2, (st.0, st.1, st.2, Subsampling::S422, st.4))
            } else if has_value && args[i + 1] == "420"@ {
                args_from(args, i + 2, (st.0, st.1, st.2, Subsampling::S420, st.4))
            } else {
                Err("subsampling must be 444, 422, or 420"@)
            }
        } else if a == "-r"@ || a == "--restart"@ {
            if !has_value {
                Err("-r requires a value"@)
            } else {
                match spec_parse_unsigned(args[i + 1], 65535) {
                    Err(_) => Err("restart interval must be a number 0-65535"@),
                    Ok(v) => args_from(args, i + 2, (st.0, st.1, st.2, st.3, v as u16)),
                }
            }
        } else if a == "-h"@ || a == "--help"@ {
            Err("__help__"@)
        } else if a.len() > 0 && a[0] == '-' {
            Err("unknown option: "@ + a)
        } else if st.0 is Some {
            Err("multiple input files not supported"@)
        } else {
            args_from(args, i + 1, (Some(a), st.1, st.2, st.3, st.4))
        }
    }
}

/// The outcome of a whole argument list: the options, or the error
/// message. Without `-o` the output is the input path with extension
/// `jpg`; without an input file the list is refused.
pub open spec fn spec_parse_args(args: Seq<Seq<char>>) -> Result<
    (Seq<char>, Seq<char>, u8, Subsampling, u16),
    Seq<char>,
> {
    match args_from(args, 0, initial_args()) {
        Err(m) => Err(m),
        Ok(st) => match st.0 {
            None => Err("no input file specified"@),
            Some(input) => Ok(
                (
                    input,
                    match st.1 {
                        Some(o) => o,
                        None => path_with_extension(input, output_extension()),
                    },
                    st.2,
                    st.3,
                    st.4,
                ),
            ),
        },
    }
}

/// `r` is the outcome `s`.
pub open spec fn args_result(r: Result<Options, String>, s: Result<(Seq<char>, Seq<char>, u8, Subsampling, u16), Seq<char>>) -> bool {
    match s {
        Ok((input, output, q, sub, ri)) => r matches Ok(o) && o.input@ == input && o.output@ == output
            && o.quality == q && o.subsampling == sub && o.restart_interval == ri,
        Err(m) => r matches Err(e) && e@ == m,
    }
}

/// The views of the arguments.
pub open spec fn arg_views(args: Seq<String>) -> Seq<Seq<char>> {
    Seq::new(args.len(), |i: int| args[i]@)
}

/// Parse the command-line arguments (without the program name).
///
/// `-o`/`--output <file>`, `-q`/`--quality <1-100>`,
/// `-s`/`--subsampling <444|422|420>`, `-r`/`--restart <0-65535>` and one
/// input path; `-h`/`--help` gives the error `"__help__"`. Errors are
/// messages for the user.
pub fn parse_args(args: &[String]) -> (r: Result<Options, String>)
    ensures
        args_result(r, spec_parse_args(arg_views(args@))),
{
    let ghost views = arg_views(args@);
    let mut input: Option<String> = None;
    let mut output: Option<String> = None;
    let mut quality: u8 = 85;
    let mut subsampling = Subsampling::S420;
    let mut restart_interval: u16 = 0;
    let ghost target = args_from(views, 0, initial_args());

    let mut i: usize = 0;
    while i < args.len()
        invariant
            i <= args@.len(),
            views == arg_views(args@),
            target == args_from(views, 0, initial_args()),
            args_from(views, i as int, (
                match input { Some(s) => Some(s@), None => None },
                match output { Some(s) => Some(s@), None => None },
                quality,
                subsampling,
                restart_interval,
            )) == target,
        decreases args@.len() - i,
    {
        let a = args[i].as_str();
        let has_value = i + 1 < args.len();
        proof {
            assert(views[i as int] == a@);
        }
        if str_eq(a, "-o") || str_eq(a, "--output") {
            if !has_value {
                return Err(String::from_str("-o requires a filename"));
            }
            output = Some(args[i + 1].clone());
            proof {
                assert(views[i + 1] == args@[i + 1]@);
            }
            i += 2;
        } else if str_eq(a, "-q") || str_eq(a, "--quality") {
            if !has_value {
                return Err(String::from_str("-q requires a value"));
            }
            proof {
                assert(views[i + 1] == args@[i + 1]@);
            }
            let val = match parse_unsigned(args[i + 1].as_str(), 255) {
                Ok(v) => v,
                Err(_) => {
                    return Err(String::from_str("quality must be a number 1-100"));
                },
            };
            if val == 0 || val > 100 {
                return Err(String::from_str("quality must be 1-100"));
            }
            quality = val as u8;
            i += 2;
        } else if str_eq(a, "-s") || str_eq(a, "--subsampling") {
            if has_value {
                proof {
                    assert(views[i + 1] == args@[i + 1]@);
                }
            }
            if has_value && str_eq(args[i + 1].as_str(), "444") {
                subsampling = Subsampling::S444;
            } else if has_value && str_eq(args[i + 1].as_str(), "422") {
                subsampling = Subsampling::S422;
            } else if has_value && str_eq(args[i + 1].as_str(), "420") {
                subsampling = Subsampling::S420;
            } else {
                return Err(String::from_str("subsampling must be 444, 422, or 420"));
            }
            i += 2;
        } else if str_eq(a, "-r") || str_eq(a, "--restart") {
            if !has_value {
                return Err(String::from_str("-r requires a value"));
            }
            proof {
                assert(views[i + 1] == args@[i + 1]@);
            }
            let val = match parse_unsigned(args[i + 1].as_str(), 65535) {
                Ok(v) => v,
                Err(_) => {
                    return Err(String::from_str("restart interval must be a number 0-65535"));
                },
            };
            restart_interval = val as u16;
            i += 2;
        } else if str_eq(a, "-h") || str_eq(a, "--help") {
            return Err(String::from_str("__help__"));
        } else {
            if a.unicode_len() > 0 && a.get_char(0) == '-' {
                return Err(String::from_str("unknown option: ").concat(a));
            }
            if input.is_some() {
                return Err(String::from_str("multiple input files not supported"));
            }
            input = Some(String::from_str(a));
            i += 1;
        }
    }

    let input = match input {
        Some(s) => s,
        None => {
            return Err(String::from_str("no input file specified"));
        },
    };
    let output = match output {
        Some(o) => o,
        None => {
            let ext = "jpg";
            proof {
                reveal_strlit("jpg");
                assert(ext@ =~= output_extension());
            }
            with_extension(input.as_str(), ext)
        },
    };
    Ok(Options { input, output, quality, subsampling, restart_interval })
}

/// The usage message.
pub open spec fn usage() -> Seq<char> {
    "Usage: jpeg-encode <input.ppm> [options]\n\
     \n\
     Options:\n\
     \x20 -o, --output <file>       Output JPEG file (default: input.jpg)\n\
     \x20 -q, --quality <1-100>     Quality factor (default: 85)\n\
     \x20 -s, --subsampling <mode>  Chroma subsampling: 444, 422, 420 (default: 420)\n\
     \x20 -r, --restart <n>         Restart interval in MCUs (default: 0 = disabled)\n\
     \x20 -h, --help                Show this help"@
}

/// The usage message listing every option.
pub fn usage_text() -> (s: &'static str)
    ensures
        s@ == usage(),
{
    "Usage: jpeg-encode <input.ppm> [options]\n\
     \n\
     Options:\n\
     \x20 -o, --output <file>       Output JPEG file (default: input.jpg)\n\
     \x20 -q, --quality <1-100>     Quality factor (default: 85)\n\
     \x20 -s, --subsampling <mode>  Chroma subsampling: 444, 422, 420 (default: 420)\n\
     \x20 -r, --restart <n>         Restart interval in MCUs (default: 0 = disabled)\n\
     \x20 -h, --help                Show this help"
}

} // verus!
