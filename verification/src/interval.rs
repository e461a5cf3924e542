//! Summing duration tokens into one millisecond count.
//!
//! Each token contributes `value * multiplier` milliseconds; the total is
//! rounded half away from zero to whole milliseconds and clamped to the
//! `u64` range.  The first malformed token aborts the computation and is
//! reported verbatim.

use crate::number::{
    token_scaled, token_tame, token_valid, SCALED_CAP, SCALE, SCALE_HALF,
};
use crate::Args;
use vstd::prelude::*;

verus! {

/// The error produced by a malformed duration token; `origin` holds the
/// token exactly as it was given.
#[derive(Debug)]
pub struct InvalidTimeInterval {
    pub origin: String,
}

impl InvalidTimeInterval {
    /// The user-facing message text.
    pub open spec fn spec_message(&self) -> Seq<char> {
        "invalid time interval '"@ + self.origin@ + "'"@
    }

    /// Render the message: `invalid time interval '<token>'`.
    pub fn message(&self) -> (r: String)
        ensures
            r@ == self.spec_message(),
    {
        let mut m = String::from_str("invalid time interval '");
        m.append(self.origin.as_str());
        m.append("'");
        m
    }
}

pub open spec fn all_tokens_valid(ts: Seq<Seq<char>>) -> bool {
    forall|i: int| 0 <= i < ts.len() ==> token_valid(#[trigger] ts[i])
}

/// The exact total of the tokens' values, in `1 / SCALE` milliseconds.
pub open spec fn total_scaled(ts: Seq<Seq<char>>) -> int
    decreases ts.len(),
{
    if ts.len() == 0 {
        0
    } else {
        total_scaled(ts.drop_last()) + token_scaled(ts.last())
    }
}

/// Every running total stays within the saturation bound.
pub open spec fn prefixes_bounded(ts: Seq<Seq<char>>) -> bool {
    forall|k: int|
        0 <= k <= ts.len() ==> -(SCALED_CAP as int) <= #[trigger] total_scaled(ts.take(k))
            <= SCALED_CAP as int
}

/// A token list whose total is computed exactly: every token is tame and
/// every running total stays in bounds.
pub open spec fn tokens_tame(ts: Seq<Seq<char>>) -> bool {
    (forall|i: int| 0 <= i < ts.len() ==> token_tame(#[trigger] ts[i])) && prefixes_bounded(ts)
}

/// `i` is the position of the first malformed token.
pub open spec fn is_first_invalid(ts: Seq<Seq<char>>, i: int) -> bool {
    &&& 0 <= i < ts.len()
    &&& !token_valid(ts[i])
    &&& forall|j: int| 0 <= j < i ==> token_valid(#[trigger] ts[j])
}

/// Round a scaled total to whole milliseconds, half away from zero,
/// clamped to the `u64` range (negative totals clamp to zero).
pub open spec fn round_to_millis(total: int) -> int {
    if total <= 0 {
        0
    } else {
        let r = (total + SCALE_HALF as int) / (SCALE as int);
        if r > u64::MAX as int {
            u64::MAX as int
        } else {
            r
        }
    }
}

/// Sum the duration tokens of `args` into a millisecond count.
///
/// Succeeds exactly when every token is a valid duration; the result is
/// then the rounded sum of the tokens' values whenever the computation is
/// exactly representable (`tokens_tame`).  Otherwise the first malformed
/// token, in input order, is reported verbatim; later tokens play no part.
#[verifier::rlimit(50)]
pub fn parse_interval(args: &Args) -> (r: Result<u64, InvalidTimeInterval>)
    ensures
        r is Ok <==> all_tokens_valid(args.number.deep_view()),
        r matches Ok(ms) ==> (tokens_tame(args.number.deep_view()) ==> ms as int
            == round_to_millis(total_scaled(args.number.deep_view()))),
        r matches Err(e) ==> exists|i: int|
            #[trigger] is_first_invalid(args.number.deep_view(), i) && e.origin@
                == args.number.deep_view()[i],
{
    let ghost ts = args.number.deep_view();
    let n = args.number.len();
    proof {
        assert(ts.len() == n);
    }
    let mut sum: i128 = 0;
    let mut i: usize = 0;
    while i < n
        invariant
            i <= n,
            n == args.number.len(),
            ts == args.number.deep_view(),
            ts.len() == n,
            forall|j: int| 0 <= j < i ==> token_valid(#[trigger] ts[j]),
            -(SCALED_CAP as int) <= sum <= SCALED_CAP as int,
            ((forall|j: int| 0 <= j < i ==> token_tame(#[trigger] ts[j])) && (forall|k: int|
                0 <= k <= i ==> -(SCALED_CAP as int) <= #[trigger] total_scaled(ts.take(k))
                    <= SCALED_CAP as int)) ==> sum as int == total_scaled(ts.take(i as int)),
        decreases n - i,
    {
        let tok: &String = &args.number[i];
        proof {
            assert(ts[i as int] == args.number@[i as int]@);
        }
        match crate::number::parse_token(tok.as_str()) {
            Some(c) => {
                let ghost oldsum = sum;
                let s2 = sum + c;
                sum = if s2 > SCALED_CAP as i128 {
                    SCALED_CAP as i128
                } else if s2 < -(SCALED_CAP as i128) {
                    -(SCALED_CAP as i128)
                } else {
                    s2
                };
                proof {
                    assert(ts.take(i + 1).drop_last() =~= ts.take(i as int));
                    assert(ts.take(i + 1).last() == ts[i as int]);
                    assert(total_scaled(ts.take(i + 1)) == total_scaled(ts.take(i as int))
                        + token_scaled(ts[i as int]));
                    if (forall|j: int| 0 <= j < i + 1 ==> token_tame(#[trigger] ts[j])) && (
                    forall|k: int|
                        0 <= k <= i + 1 ==> -(SCALED_CAP as int) <= #[trigger] total_scaled(
                            ts.take(k),
                        ) <= SCALED_CAP as int) {
                        assert(oldsum as int == total_scaled(ts.take(i as int)));
                        assert(token_tame(ts[i as int]));
                        assert(c as int == token_scaled(ts[i as int]));
                        assert(-(SCALED_CAP as int) <= total_scaled(ts.take(i + 1))
                            <= SCALED_CAP as int);
                        assert(sum as int == total_scaled(ts.take(i + 1)));
                    }
                }
            },
            None => {
                proof {
                    assert(!token_valid(ts[i as int]));
                    assert(is_first_invalid(ts, i as int));
                }
                return Err(InvalidTimeInterval { origin: tok.clone() });
            },
        }
        i = i + 1;
    }
    proof {
        assert(ts.take(n as int) =~= ts);
    }
    let ms: u64 = if sum <= 0 {
        0
    } else {
        let su = sum as u128;
        let r = (su + SCALE_HALF) / SCALE;
        if r > u64::MAX as u128 {
            u64::MAX
        } else {
            r as u64
        }
    };
    Ok(ms)
}

/// The progress flag plays no part in the interval computation: argument
/// sets with the same duration tokens agree on validity, on the first
/// malformed token, on tameness, and on the rounded total, whatever their
/// flags.
pub proof fn lemma_progress_independent(a: Args, b: Args)
    requires
        a.number.deep_view() == b.number.deep_view(),
    ensures
        all_tokens_valid(a.number.deep_view()) == all_tokens_valid(b.number.deep_view()),
        tokens_tame(a.number.deep_view()) == tokens_tame(b.number.deep_view()),
        total_scaled(a.number.deep_view()) == total_scaled(b.number.deep_view()),
        round_to_millis(total_scaled(a.number.deep_view())) == round_to_millis(
            total_scaled(b.number.deep_view()),
        ),
        forall|i: int|
            #[trigger] is_first_invalid(a.number.deep_view(), i) == is_first_invalid(
                b.number.deep_view(),
                i,
            ),
{
}

} // verus!


