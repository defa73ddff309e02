//! Command line of the clang.wasm runner: `<clang.wasm> [--dir HOST::GUEST]... -- <clang args...>`.

use vstd::prelude::*;

verus! {

/// One preopened directory: host directory `host` seen by the guest at path `guest`.
pub struct Preopen {
    pub host: String,
    pub guest: String,
}

/// What the command line asks for.
pub struct Invocation {
    /// Path of the clang.wasm module.
    pub wasm: String,
    /// The directories to preopen, in order.
    pub preopens: Vec<Preopen>,
    /// The arguments handed to clang (its `argv`).
    pub clang_args: Vec<String>,
}

/// Why a command line was refused.
#[derive(Debug, Clone, PartialEq, Eq)]
pub enum ArgError {
    /// No wasm path.
    MissingWasm,
    /// `--dir` was the last argument.
    DirNeedsSpec,
    /// The value of `--dir` has no `::`.
    DirSpecMalformed,
    /// An argument before `--` that is neither `--dir` nor its value.
    UnexpectedArg(String),
    /// Nothing after `--`.
    NoClangArgs,
}

/// What reading a command line gives, over the characters of its arguments.
pub enum Reading {
    /// The wasm path, the `(host, guest)` pairs, and the clang arguments.
    Read(Seq<char>, Seq<(Seq<char>, Seq<char>)>, Seq<Seq<char>>),
    /// Refused, for the reason given.
    Refused(ArgError),
    /// Refused for an unexpected argument, these characters.
    Unexpected(Seq<char>),
}

/// The first `::` in `s` at or after `i`.
pub open spec fn find_sep(s: Seq<char>, i: int) -> Option<int>
    decreases s.len() - i,
{
    if i < 0 || i + 1 >= s.len() {
        None
    } else if s[i] == ':' && s[i + 1] == ':' {
        Some(i)
    } else {
        find_sep(s, i + 1)
    }
}

/// The options after the wasm path, read until `--`: the `(host, guest)` pairs of
/// `--dir HOST::GUEST` (split at the first `::`), then the clang arguments.
pub open spec fn read_options(toks: Seq<Seq<char>>, wasm: Seq<char>, pre: Seq<(Seq<char>, Seq<char>)>) -> Reading
    decreases toks.len(),
{
    if toks.len() == 0 {
        Reading::Read(wasm, pre, seq![])
    } else if toks[0] == "--"@ {
        Reading::Read(wasm, pre, toks.drop_first())
    } else if toks[0] == "--dir"@ {
        if toks.len() < 2 {
            Reading::Refused(ArgError::DirNeedsSpec)
        } else {
            match find_sep(toks[1], 0) {
                None => Reading::Refused(ArgError::DirSpecMalformed),
                Some(i) => read_options(
                    toks.skip(2),
                    wasm,
                    pre.push((toks[1].take(i), toks[1].skip(i + 2))),
                ),
            }
        }
    } else {
        Reading::Unexpected(toks[0])
    }
}

/// The reading of a whole command line (without the program name): the wasm path, then
/// the options; at least one clang argument is needed.
pub open spec fn read_command(args: Seq<Seq<char>>) -> Reading {
    if args.len() == 0 {
        Reading::Refused(ArgError::MissingWasm)
    } else {
        match read_options(args.drop_first(), args[0], seq![]) {
            Reading::Read(w, pre, ca) => if ca.len() == 0 {
                Reading::Refused(ArgError::NoClangArgs)
            } else {
                Reading::Read(w, pre, ca)
            },
            other => other,
        }
    }
}

/// The characters of each string.
pub open spec fn views(v: Seq<String>) -> Seq<Seq<char>> {
    v.map_values(|s: String| s@)
}

/// `r` is what `reading` describes.
pub open spec fn gives(r: Result<Invocation, ArgError>, reading: Reading) -> bool {
    match reading {
        Reading::Read(w, pre, ca) => match r {
            Ok(inv) => {
                &&& inv.wasm@ == w
                &&& inv.preopens@.len() == pre.len()
                &&& forall|k: int|
                    0 <= k < pre.len() ==> (#[trigger] inv.preopens@[k]).host@ == pre[k].0
                        && inv.preopens@[k].guest@ == pre[k].1
                &&& views(inv.clang_args@) == ca
            },
            Err(_) => false,
        },
        Reading::Refused(e) => r == Err::<Invocation, ArgError>(e),
        Reading::Unexpected(t) => match r {
            Err(ArgError::UnexpectedArg(s)) => s@ == t,
            _ => false,
        },
    }
}

/// Whether `s` reads `lit`.
fn is_word(s: &String, lit: &str) -> (b: bool)
    ensures
        b == (s@ == lit@),
{
    let a = s.as_str();
    let n = a.unicode_len();
    if n != lit.unicode_len() {
        return false;
    }
    let mut i: usize = 0;
    while i < n
        invariant
            n == a@.len(),
            n == lit@.len(),
            a@ == s@,
            i <= n,
            forall|j: int| 0 <= j < i ==> a@[j] == lit@[j],
        decreases n - i,
    {
        if a.get_char(i) != lit.get_char(i) {
            return false;
        }
        i += 1;
    }
    proof {
        assert(a@ =~= lit@);
    }
    true
}

/// The first `::` in `s`.
fn find_double_colon(s: &str) -> (r: Option<usize>)
    ensures
        match r {
            Some(i) => find_sep(s@, 0) == Some(i as int) && i + 1 < s@.len(),
            None => find_sep(s@, 0) is None,
        },
{
    let n = s.unicode_len();
    let mut i: usize = 0;
    while n > 0 && i < n - 1
        invariant
            n == s@.len(),
            find_sep(s@, i as int) == find_sep(s@, 0),
        decreases n - i,
    {
        if s.get_char(i) == ':' && s.get_char(i + 1) == ':' {
            return Some(i);
        }
        i += 1;
    }
    None
}

/// Reads the runner's command line, without the program name: the path of clang.wasm,
/// then any number of `--dir HOST::GUEST` (split at the first `::`), then `--` and the
/// arguments for clang, of which there must be one at least.
pub fn parse_args(args: &Vec<String>) -> (r: Result<Invocation, ArgError>)
    ensures
        gives(r, read_command(views(args@))),
{
    if args.len() == 0 {
        return Err(ArgError::MissingWasm);
    }
    let ghost toks = views(args@);
    let wasm = args[0].clone();
    let mut preopens: Vec<Preopen> = Vec::new();
    let ghost mut pre: Seq<(Seq<char>, Seq<char>)> = seq![];
    let mut i: usize = 1;
    proof {
        assert(toks.skip(1) =~= toks.drop_first());
    }
    while i < args.len()
        invariant
            1 <= i <= args@.len(),
            toks == views(args@),
            toks.len() == args@.len(),
            wasm@ == toks[0],
            read_options(toks.skip(i as int), toks[0], pre) == read_options(toks.drop_first(), toks[0], seq![]),
            preopens@.len() == pre.len(),
            forall|k: int|
                0 <= k < pre.len() ==> (#[trigger] preopens@[k]).host@ == pre[k].0
                    && preopens@[k].guest@ == pre[k].1,
        decreases args@.len() - i,
    {
        let ghost rest = toks.skip(i as int);
        proof {
            assert(rest[0] == toks[i as int]);
            assert(toks[i as int] == args@[i as int]@);
        }
        if is_word(&args[i], "--") {
            let mut clang_args: Vec<String> = Vec::new();
            let mut j: usize = i + 1;
            proof {
                assert(rest.drop_first() =~= toks.skip(i + 1));
                assert(toks.skip(i + 1).take(0) =~= views(clang_args@));
            }
            while j < args.len()
                invariant
                    i < j <= args@.len(),
                    toks == views(args@),
                    toks.len() == args@.len(),
                    views(clang_args@) == toks.skip(i + 1).take(j - (i + 1)),
                decreases args@.len() - j,
            {
                let a = args[j].clone();
                let ghost before = clang_args@;
                clang_args.push(a);
                proof {
                    assert(views(clang_args@) =~= views(before).push(toks[j as int]));
                    assert(toks.skip(i + 1).take(j + 1 - (i + 1)) =~= toks.skip(i + 1).take(j - (i + 1)).push(toks[j as int]));
                }
                j += 1;
            }
            proof {
                assert(toks.skip(i + 1).take(j - (i + 1)) =~= toks.skip(i + 1));
            }
            if clang_args.len() == 0 {
                return Err(ArgError::NoClangArgs);
            }
            return Ok(Invocation { wasm, preopens, clang_args });
        } else if is_word(&args[i], "--dir") {
            if i + 1 >= args.len() {
                return Err(ArgError::DirNeedsSpec);
            }
            let spec = args[i + 1].as_str();
            proof {
                assert(rest[1] == toks[i + 1]);
                assert(toks[i + 1] == args@[i + 1]@);
                assert(spec@ == args@[i + 1]@);
                assert(spec@ == rest[1]);
            }
            match find_double_colon(spec) {
                None => {
                    return Err(ArgError::DirSpecMalformed);
                },
                Some(k) => {
                    let n = spec.unicode_len();
                    let host = spec.substring_char(0, k).to_owned();
                    let guest = spec.substring_char(k + 2, n).to_owned();
                    let ghost item = (rest[1].take(k as int), rest[1].skip(k + 2));
                    proof {
                        assert(host@ =~= item.0);
                        assert(guest@ =~= item.1);
                    }
                    let ghost before = preopens@;
                    preopens.push(Preopen { host, guest });
                    proof {
                        let old_pre = pre;
                        assert(rest[0] != "--"@);
                        assert(rest[0] == "--dir"@);
                        assert(find_sep(rest[1], 0) == Some(k as int));
                        assert(read_options(rest, toks[0], old_pre) == read_options(rest.skip(2), toks[0], old_pre.push(item)));
                        pre = pre.push(item);
                        assert(rest.skip(2) =~= toks.skip(i + 2));
                        assert forall|t: int| 0 <= t < pre.len() implies (#[trigger] preopens@[t]).host@ == pre[t].0
                            && preopens@[t].guest@ == pre[t].1 by {
                            if t < before.len() {
                                assert(preopens@[t] == before[t]);
                            }
                        }
                    }
                    i += 2;
                },
            }
        } else {
            return Err(ArgError::UnexpectedArg(args[i].clone()));
        }
    }
    proof {
        assert(toks.skip(i as int) =~= Seq::<Seq<char>>::empty());
    }
    Err(ArgError::NoClangArgs)
}

} // verus!
