//! Command-line request parsing for the run-in-group tool.
//!
//! The grammar is `<bin> [--] <cgroup> <cmd> [args...]`. The first token is
//! the binary's own name. `--help` and `--version` (with or without an `=`
//! value) ask for the usual requests instead; a lone `--` escapes whatever
//! follows, so group and command may start with `-`; any other token that
//! starts with `-` where the group or the command is expected is rejected.
//! Everything after the command is passed through untouched, separators
//! included.
//!
//! Tokens are byte strings, exactly as the arguments arrive on this
//! platform; the parser never needs them decoded.

use crate::text::{names, slice_to_vec, DASH, EQUALS};
use vstd::prelude::*;

verus! {

/// A parsed run-in-group command line.
#[derive(Debug)]
pub struct Cli {
    /// Name of the control group. May be relative (appended to the control
    /// group of the current process) or absolute (starting with `/`).
    pub cgroup: Vec<u8>,
    /// The subcommand to run.
    pub cmd: Vec<u8>,
    /// Arguments to the subcommand.
    pub args: Vec<Vec<u8>>,
}

/// What the command line asks for.
#[derive(Debug)]
pub enum CliRequest {
    /// Run a command in a group.
    Run { cli: Cli },
    /// Print the description and usage.
    Help { bin_name: Vec<u8> },
    /// Print the version.
    Version,
}

/// Why a command line was rejected.
#[derive(Debug)]
pub enum CliError {
    /// A flag or argument where none is accepted.
    Unexpected { arg: Vec<u8>, bin_name: Vec<u8> },
    /// The control group is missing.
    MissingCgroup { bin_name: Vec<u8> },
    /// The subcommand is missing.
    MissingCommand { bin_name: Vec<u8> },
}

/// Spec-level value of a [`CliRequest`].
pub enum CliRequestV {
    Run { cgroup: Seq<u8>, cmd: Seq<u8>, args: Seq<Seq<u8>> },
    Help { bin_name: Seq<u8> },
    Version,
}

/// Spec-level value of a [`CliError`].
pub enum CliErrorV {
    Unexpected { arg: Seq<u8>, bin_name: Seq<u8> },
    MissingCgroup { bin_name: Seq<u8> },
    MissingCommand { bin_name: Seq<u8> },
}

impl View for CliRequest {
    type V = CliRequestV;

    open spec fn view(&self) -> CliRequestV {
        match self {
            CliRequest::Run { cli } => CliRequestV::Run {
                cgroup: cli.cgroup@,
                cmd: cli.cmd@,
                args: names(cli.args@),
            },
            CliRequest::Help { bin_name } => CliRequestV::Help { bin_name: bin_name@ },
            CliRequest::Version => CliRequestV::Version,
        }
    }
}

impl View for CliError {
    type V = CliErrorV;

    open spec fn view(&self) -> CliErrorV {
        match self {
            CliError::Unexpected { arg, bin_name } => CliErrorV::Unexpected {
                arg: arg@,
                bin_name: bin_name@,
            },
            CliError::MissingCgroup { bin_name } => CliErrorV::MissingCgroup {
                bin_name: bin_name@,
            },
            CliError::MissingCommand { bin_name } => CliErrorV::MissingCommand {
                bin_name: bin_name@,
            },
        }
    }
}

/// The bytes of `help`.
pub open spec fn help_name() -> Seq<u8> {
    seq![104u8, 101, 108, 112]
}

/// The bytes of `version`.
pub open spec fn version_name() -> Seq<u8> {
    seq![118u8, 101, 114, 115, 105, 111, 110]
}

/// The escape token `--`.
pub open spec fn escape_token() -> Seq<u8> {
    seq![DASH, DASH]
}

/// Holds when `t` is the long flag `--<name>`, alone or with an `=` and
/// anything after it: the part between `--` and the first `=` is `name`.
pub open spec fn is_long_flag(t: Seq<u8>, name: Seq<u8>) -> bool {
    &&& t.len() >= 2 + name.len()
    &&& t[0] == DASH
    &&& t[1] == DASH
    &&& t.subrange(2, 2 + name.len() as int) == name
    &&& (t.len() == 2 + name.len() || t[2 + name.len() as int] == EQUALS)
}

/// Holds when `t` would be taken for a flag: it starts with `-`. This
/// covers long flags, short flags, the escape `--` and the lone `-`.
pub open spec fn is_flag_like(t: Seq<u8>) -> bool {
    t.len() > 0 && t[0] == DASH
}

/// What parsing a token sequence yields. The first token is the binary
/// name; the following ones are examined as the module doc describes.
pub open spec fn parse_cli(tokens: Seq<Seq<u8>>) -> Result<CliRequestV, CliErrorV> {
    let bin_name = tokens[0];
    if tokens.len() < 2 {
        Result::Err(CliErrorV::MissingCgroup { bin_name })
    } else {
        let t1 = tokens[1];
        if is_long_flag(t1, help_name()) {
            Result::Ok(CliRequestV::Help { bin_name })
        } else if is_long_flag(t1, version_name()) {
            Result::Ok(CliRequestV::Version)
        } else if t1 == escape_token() {
            if tokens.len() < 3 {
                Result::Err(CliErrorV::MissingCgroup { bin_name })
            } else if tokens.len() < 4 {
                Result::Err(CliErrorV::MissingCommand { bin_name })
            } else {
                Result::Ok(CliRequestV::Run {
                    cgroup: tokens[2],
                    cmd: tokens[3],
                    args: tokens.skip(4),
                })
            }
        } else if is_flag_like(t1) {
            Result::Err(CliErrorV::Unexpected { arg: t1, bin_name })
        } else if tokens.len() < 3 {
            Result::Err(CliErrorV::MissingCommand { bin_name })
        } else {
            let t2 = tokens[2];
            if is_flag_like(t2) {
                Result::Err(CliErrorV::Unexpected { arg: t2, bin_name })
            } else {
                Result::Ok(CliRequestV::Run { cgroup: t1, cmd: t2, args: tokens.skip(3) })
            }
        }
    }
}

/// Relates an executable parse outcome to its spec-level counterpart.
pub open spec fn cli_outcome_matches(
    r: Result<CliRequest, CliError>,
    s: Result<CliRequestV, CliErrorV>,
) -> bool {
    match r {
        Result::Ok(req) => match s {
            Result::Ok(sv) => req@ == sv,
            Result::Err(_) => false,
        },
        Result::Err(e) => match s {
            Result::Ok(_) => false,
            Result::Err(ev) => e@ == ev,
        },
    }
}

/// Builds the bytes of `help`.
fn help_token() -> (r: Vec<u8>)
    ensures
        r@ == help_name(),
{
    let mut r: Vec<u8> = Vec::new();
    r.push(104);  // h
    r.push(101);  // e
    r.push(108);  // l
    r.push(112);  // p
    proof {
        assert(r@ =~= help_name());
    }
    r
}

/// Builds the bytes of `version`.
fn version_token() -> (r: Vec<u8>)
    ensures
        r@ == version_name(),
{
    let mut r: Vec<u8> = Vec::new();
    r.push(118);  // v
    r.push(101);  // e
    r.push(114);  // r
    r.push(115);  // s
    r.push(105);  // i
    r.push(111);  // o
    r.push(110);  // n
    proof {
        assert(r@ =~= version_name());
    }
    r
}

/// Says whether `t` is the long flag `--<name>`, alone or with a value.
fn matches_long(t: &[u8], name: &[u8]) -> (r: bool)
    ensures
        r == is_long_flag(t@, name@),
{
    if t.len() < 2 || t[0] != DASH || t[1] != DASH {
        return false;
    }
    if t.len() - 2 < name.len() {
        return false;
    }
    let mut i: usize = 0;
    while i < name.len()
        invariant
            i <= name@.len(),
            name@.len() + 2 <= t@.len(),
            t@.len() <= usize::MAX,
            forall|m: int| 0 <= m < i ==> t@[m + 2] == name@[m],
        decreases name@.len() - i,
    {
        if t[2 + i] != name[i] {
            proof {
                assert(t@.subrange(2, 2 + name@.len() as int)[i as int] == t@[2 + i]);
            }
            return false;
        }
        i += 1;
    }
    proof {
        assert(t@.subrange(2, 2 + name@.len() as int) =~= name@);
    }
    if t.len() == 2 + name.len() {
        true
    } else {
        t[2 + name.len()] == EQUALS
    }
}

/// Says whether `t` starts with `-`.
fn flag_like(t: &[u8]) -> (r: bool)
    ensures
        r == is_flag_like(t@),
{
    t.len() > 0 && t[0] == DASH
}

/// Says whether `t` is exactly the escape token `--`.
fn is_escape(t: &[u8]) -> (r: bool)
    ensures
        r == (t@ == escape_token()),
{
    if t.len() == 2 && t[0] == DASH && t[1] == DASH {
        proof {
            assert(t@ =~= escape_token());
        }
        true
    } else {
        proof {
            if t@ == escape_token() {
                assert(t@.len() == 2 && t@[0] == DASH && t@[1] == DASH);
            }
        }
        false
    }
}

/// Copies `tokens[start..]` into fresh vectors.
fn tail_of(tokens: &Vec<Vec<u8>>, start: usize) -> (r: Vec<Vec<u8>>)
    requires
        start <= tokens@.len(),
    ensures
        names(r@) == names(tokens@).skip(start as int),
{
    let mut r: Vec<Vec<u8>> = Vec::new();
    let mut i: usize = start;
    while i < tokens.len()
        invariant
            start <= i <= tokens@.len(),
            names(r@) == names(tokens@).subrange(start as int, i as int),
        decreases tokens@.len() - i,
    {
        let ghost prev = names(r@);
        let t = slice_to_vec(tokens[i].as_slice());
        r.push(t);
        proof {
            assert(names(r@) =~= prev.push(names(tokens@)[i as int]));
            assert(names(r@) =~= names(tokens@).subrange(start as int, i + 1));
        }
        i += 1;
    }
    proof {
        assert(names(tokens@).subrange(start as int, names(tokens@).len() as int) =~= names(
            tokens@,
        ).skip(start as int));
    }
    r
}

impl Cli {
    /// Parses a command line, handed over token by token, the binary's own
    /// name first.
    pub fn try_from_tokens(tokens: &Vec<Vec<u8>>) -> (r: Result<CliRequest, CliError>)
        requires
            tokens@.len() >= 1,
        ensures
            cli_outcome_matches(r, parse_cli(names(tokens@))),
    {
        let bin_name = slice_to_vec(tokens[0].as_slice());
        if tokens.len() < 2 {
            return Result::Err(CliError::MissingCgroup { bin_name });
        }
        let t1 = tokens[1].as_slice();
        let help = help_token();
        if matches_long(t1, help.as_slice()) {
            return Result::Ok(CliRequest::Help { bin_name });
        }
        let version = version_token();
        if matches_long(t1, version.as_slice()) {
            return Result::Ok(CliRequest::Version);
        }
        if is_escape(t1) {
            if tokens.len() < 3 {
                return Result::Err(CliError::MissingCgroup { bin_name });
            }
            if tokens.len() < 4 {
                return Result::Err(CliError::MissingCommand { bin_name });
            }
            let cgroup = slice_to_vec(tokens[2].as_slice());
            let cmd = slice_to_vec(tokens[3].as_slice());
            let args = tail_of(tokens, 4);
            return Result::Ok(CliRequest::Run { cli: Cli { cgroup, cmd, args } });
        }
        if flag_like(t1) {
            let arg = slice_to_vec(t1);
            return Result::Err(CliError::Unexpected { arg, bin_name });
        }
        if tokens.len() < 3 {
            return Result::Err(CliError::MissingCommand { bin_name });
        }
        let t2 = tokens[2].as_slice();
        if flag_like(t2) {
            let arg = slice_to_vec(t2);
            return Result::Err(CliError::Unexpected { arg, bin_name });
        }
        let cgroup = slice_to_vec(t1);
        let cmd = slice_to_vec(t2);
        let args = tail_of(tokens, 3);
        Result::Ok(CliRequest::Run { cli: Cli { cgroup, cmd, args } })
    }
}

} // verus!
