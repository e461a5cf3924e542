//! The command-line surface: one or more duration tokens as positional
//! arguments, a progress flag, and the usual help and version requests.
//!
//! An argument of two or more characters that starts with `-` is an
//! option; everything else is a positional duration token.  The options
//! are `-p`/`--progress`, `-h`/`--help` and `-V`/`--version`; any other
//! option is rejected.  Help, version and unknown-option requests are
//! reported for the first such argument in input order.

use crate::Args;
use vstd::prelude::*;

verus! {

/// Why an argument list was rejected.
#[derive(Debug, Clone, Copy, PartialEq, Eq, Structural)]
pub enum CliError {
    /// Help was requested with `-h` or `--help`.
    Help,
    /// The version was requested with `-V` or `--version`.
    Version,
    /// An option that the tool does not define was given.
    UnknownArgument,
    /// No duration token was given.
    MissingNumber,
}

/// An argument that is treated as an option rather than a positional.
pub open spec fn is_flag_like(a: Seq<char>) -> bool {
    a.len() >= 2 && a[0] == '-'
}

pub open spec fn is_help_arg(a: Seq<char>) -> bool {
    a == "-h"@ || a == "--help"@
}

pub open spec fn is_version_arg(a: Seq<char>) -> bool {
    a == "-V"@ || a == "--version"@
}

pub open spec fn is_progress_arg(a: Seq<char>) -> bool {
    a == "-p"@ || a == "--progress"@
}

/// An option that stops parsing: anything flag-like except the progress
/// flag (help and version requests included).
pub open spec fn is_special_arg(a: Seq<char>) -> bool {
    is_flag_like(a) && !is_progress_arg(a)
}

/// The arguments after the program name.
pub open spec fn rest_of(argv: Seq<Seq<char>>) -> Seq<Seq<char>> {
    if argv.len() > 0 {
        argv.skip(1)
    } else {
        argv
    }
}

/// The positional arguments of `s`, in order.
pub open spec fn positionals(s: Seq<Seq<char>>) -> Seq<Seq<char>>
    decreases s.len(),
{
    if s.len() == 0 {
        Seq::<Seq<char>>::empty()
    } else if is_flag_like(s.last()) {
        positionals(s.drop_last())
    } else {
        positionals(s.drop_last()).push(s.last())
    }
}

pub open spec fn has_progress(s: Seq<Seq<char>>) -> bool {
    exists|i: int| 0 <= i < s.len() && is_progress_arg(#[trigger] s[i])
}

pub open spec fn has_special(s: Seq<Seq<char>>) -> bool {
    exists|i: int| 0 <= i < s.len() && is_special_arg(#[trigger] s[i])
}

/// `i` is the position of the first parsing-stopping option.
pub open spec fn is_first_special(s: Seq<Seq<char>>, i: int) -> bool {
    &&& 0 <= i < s.len()
    &&& is_special_arg(s[i])
    &&& forall|j: int| 0 <= j < i ==> !is_special_arg(#[trigger] s[j])
}

/// Character-for-character string equality.
fn str_eq(a: &str, b: &str) -> (r: bool)
    ensures
        r == (a@ == b@),
{
    let la = a.unicode_len();
    let lb = b.unicode_len();
    if la != lb {
        return false;
    }
    let mut i: usize = 0;
    while i < la
        invariant
            i <= la,
            la == a@.len(),
            la == b@.len(),
            forall|j: int| 0 <= j < i ==> a@[j] == b@[j],
        decreases la - i,
    {
        let ca = a.get_char(i);
        let cb = b.get_char(i);
        if ca != cb {
            return false;
        }
        i = i + 1;
    }
    proof {
        assert(a@ =~= b@);
    }
    true
}

impl Args {
    /// Parse a raw argument list, whose first element is the program name.
    ///
    /// The parse succeeds exactly when no help, version or unknown option
    /// occurs and at least one positional argument is present; the
    /// positionals become the duration tokens and the progress flag
    /// records whether `-p`/`--progress` occurred.  Otherwise the error
    /// names the first stopping option in input order, or the missing
    /// positionals.
    #[verifier::rlimit(50)]
    pub fn try_parse_from(argv: &[&str]) -> (r: Result<Args, CliError>)
        ensures
            ({
                let rest = rest_of(argv.deep_view());
                &&& (r is Ok <==> (!has_special(rest) && positionals(rest).len() > 0))
                &&& (r matches Ok(a) ==> a.number.deep_view() == positionals(rest) && a.progress
                    == has_progress(rest))
                &&& (r matches Err(e) ==> match e {
                    CliError::Help => exists|i: int|
                        #[trigger] is_first_special(rest, i) && is_help_arg(rest[i]),
                    CliError::Version => exists|i: int|
                        #[trigger] is_first_special(rest, i) && is_version_arg(rest[i]),
                    CliError::UnknownArgument => exists|i: int|
                        #[trigger] is_first_special(rest, i) && !is_help_arg(rest[i])
                            && !is_version_arg(rest[i]),
                    CliError::MissingNumber => !has_special(rest) && positionals(rest).len() == 0,
                })
            }),
    {
        let ghost av = argv.deep_view();
        let ghost rest = rest_of(av);
        let n = argv.len();
        proof {
            assert(av.len() == n);
        }
        if n == 0 {
            proof {
                assert(!has_special(rest));
                assert(positionals(rest).len() == 0);
            }
            return Err(CliError::MissingNumber);
        }
        let mut number: Vec<String> = Vec::new();
        let mut progress = false;
        let mut i: usize = 1;
        proof {
            assert(rest.len() == n - 1);
            assert(number.deep_view() =~= positionals(rest.take(0)));
        }
        while i < n
            invariant
                1 <= i <= n,
                n == argv.len(),
                av == argv.deep_view(),
                av.len() == n,
                rest == rest_of(av),
                rest.len() == n - 1,
                forall|j: int| 0 <= j < i - 1 ==> !is_special_arg(#[trigger] rest[j]),
                progress == exists|j: int| 0 <= j < i - 1 && is_progress_arg(#[trigger] rest[j]),
                number.deep_view() == positionals(rest.take(i - 1)),
            decreases n - i,
        {
            let a: &str = argv[i];
            proof {
                assert(rest[i - 1] == av[i as int]);
                assert(av[i as int] == argv@[i as int]@);
                assert(rest.take(i as int).drop_last() =~= rest.take(i - 1));
                assert(rest.take(i as int).last() == rest[i - 1]);
                reveal_strlit("-p");
                reveal_strlit("--progress");
                reveal_strlit("-h");
                reveal_strlit("--help");
                reveal_strlit("-V");
                reveal_strlit("--version");
            }
            let la = a.unicode_len();
            let flag_like = la >= 2 && a.get_char(0) == '-';
            proof {
                assert(flag_like == is_flag_like(a@));
            }
            if flag_like {
                proof {
                    assert(positionals(rest.take(i as int)) == positionals(rest.take(i - 1)));
                }
                if str_eq(a, "-p") || str_eq(a, "--progress") {
                    progress = true;
                } else if str_eq(a, "-h") || str_eq(a, "--help") {
                    proof {
                        assert(is_first_special(rest, i - 1));
                    }
                    return Err(CliError::Help);
                } else if str_eq(a, "-V") || str_eq(a, "--version") {
                    proof {
                        assert(is_first_special(rest, i - 1));
                    }
                    return Err(CliError::Version);
                } else {
                    proof {
                        assert(is_first_special(rest, i - 1));
                    }
                    return Err(CliError::UnknownArgument);
                }
            } else {
                let ghost olddv = number.deep_view();
                number.push(a.to_owned());
                proof {
                    assert(number.deep_view() =~= olddv.push(rest[i - 1]));
                    assert(!is_progress_arg(rest[i - 1]));
                    assert(!is_special_arg(rest[i - 1]));
                    assert(positionals(rest.take(i as int)) == positionals(rest.take(i - 1)).push(
                        rest[i - 1],
                    ));
                }
            }
            i = i + 1;
        }
        proof {
            assert(rest.take(n - 1) =~= rest);
        }
        if number.len() == 0 {
            proof {
                assert(positionals(rest).len() == number.deep_view().len());
            }
            return Err(CliError::MissingNumber);
        }
        Ok(Args { number, progress })
    }
}

} // verus!
