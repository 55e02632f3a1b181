//! The request-independent parts of the System One client: the retry
//! policy (3×, exponential from 250 ms, only 408/429/5xx) and the
//! response-cache file names, keyed by sha256 of the serialized request body
//! so that entries never go stale.

use vstd::prelude::*;
use vstd::string::StringSliceAdditionalSpecFns;
use sha2::{Digest, Sha256};
use crate::text::{chars_of, hex_lower, hex_string, string_from_chars};

verus! {

broadcast use vstd::string::group_string_axioms;

/// Retries after the first attempt.
pub const MAX_RETRIES: u32 = 3;

/// First retry delay in milliseconds; each later retry doubles it.
pub const BASE_DELAY_MS: u64 = 250;

/// The SHA-256 digest of a byte string.
pub uninterp spec fn sha256_digest(data: Seq<u8>) -> Seq<u8>;

/// Calls `sha2::Sha256::digest`: the 32-byte SHA-256 digest of `data`.
#[verifier::external_body]
fn sha256(data: &[u8]) -> (d: Vec<u8>)
    ensures
        d@ == sha256_digest(data@),
        d@.len() == 32,
{
    Sha256::digest(data).to_vec()
}

/// File name of the cached response for a serialized request body: the
/// lowercase hex SHA-256 of its bytes, then `.json`.
pub fn cache_file_name(body_json: &str) -> (name: String)
    ensures
        name@ == hex_lower(sha256_digest(body_json.spec_bytes())) + ".json"@,
{
    let digest = sha256(body_json.as_bytes());
    let mut name = hex_string(&digest);
    name.append(".json");
    name
}

/// Delay before retry `retry` (0-based), in milliseconds: 250 ms doubled
/// per earlier retry.
pub fn retry_delay(retry: u32) -> (ms: u64)
    requires
        retry < 64,
    ensures
        ms == BASE_DELAY_MS << retry,
        retry <= 55 ==> ms == BASE_DELAY_MS * vstd::arithmetic::power2::pow2(retry as nat),
{
    proof {
        if retry <= 55 {
            vstd::arithmetic::power2::lemma2_to64_rest();
            if retry < 55 {
                vstd::arithmetic::power2::lemma_pow2_strictly_increases(retry as nat, 55);
            }
            vstd::arithmetic::mul::lemma_mul_inequality(
                vstd::arithmetic::power2::pow2(retry as nat) as int,
                vstd::arithmetic::power2::pow2(55) as int,
                250,
            );
            vstd::bits::lemma_u64_shl_is_mul(250u64, retry as u64);
        }
    }
    BASE_DELAY_MS << retry
}

/// Statuses worth retrying: request timeout, rate limiting, server errors.
pub fn is_retryable(status: u16) -> (r: bool)
    ensures
        r == retryable(status),
{
    status == 408 || status == 429 || (500 <= status && status <= 599)
}

/// Characters of an error response body kept in the error message.
pub const DETAIL_CHARS: usize = 500;

/// The part of an error response body quoted in the error message: its
/// first `DETAIL_CHARS` characters.
pub fn error_detail(body: &str) -> (d: String)
    ensures
        d@ == body@.take(if body@.len() < DETAIL_CHARS { body@.len() as int } else { DETAIL_CHARS as int }),
{
    let cs = chars_of(body);
    let n = if cs.len() < DETAIL_CHARS {
        cs.len()
    } else {
        DETAIL_CHARS
    };
    let d = string_from_chars(&cs[0..n]);
    proof {
        assert(d@ =~= body@.take(n as int));
    }
    d
}

/// What one attempt of a request came to.
#[derive(Clone, Copy, PartialEq, Eq, Debug, Structural)]
pub enum AttemptOutcome {
    /// A 2xx answer.
    Success,
    /// A non-2xx HTTP status.
    Status(u16),
    /// The request did not complete (connection, timeout, …).
    Transport,
}

/// What the client does next.
#[derive(Clone, Copy, PartialEq, Eq, Debug, Structural)]
pub enum NextStep {
    /// The answer is in.
    Done,
    /// A non-retryable status: give up with it now.
    Fail,
    /// Wait this many milliseconds, then try again.
    RetryAfter(u64),
    /// Every attempt failed.
    GiveUp,
}

/// Whether a status is worth retrying: request timeout, rate limiting,
/// server errors.
pub open spec fn retryable(status: u16) -> bool {
    status == 408 || status == 429 || (500 <= status && status <= 599)
}

/// The retry policy as a function of the attempt number and its outcome.
pub open spec fn retry_policy(retry: u32, outcome: AttemptOutcome) -> NextStep {
    match outcome {
        AttemptOutcome::Success => NextStep::Done,
        AttemptOutcome::Status(code) => if !retryable(code) {
            NextStep::Fail
        } else if retry < MAX_RETRIES {
            NextStep::RetryAfter((BASE_DELAY_MS << retry) as u64)
        } else {
            NextStep::GiveUp
        },
        AttemptOutcome::Transport => if retry < MAX_RETRIES {
            NextStep::RetryAfter((BASE_DELAY_MS << retry) as u64)
        } else {
            NextStep::GiveUp
        },
    }
}

/// The retry policy: after attempt `retry` (0-based) came to `outcome`,
/// what to do next.
pub fn next_step(retry: u32, outcome: AttemptOutcome) -> (s: NextStep)
    requires
        retry <= MAX_RETRIES,
    ensures
        s == retry_policy(retry, outcome),
{
    match outcome {
        AttemptOutcome::Success => NextStep::Done,
        AttemptOutcome::Status(code) => {
            if !is_retryable(code) {
                NextStep::Fail
            } else if retry < MAX_RETRIES {
                NextStep::RetryAfter(retry_delay(retry))
            } else {
                NextStep::GiveUp
            }
        },
        AttemptOutcome::Transport => {
            if retry < MAX_RETRIES {
                NextStep::RetryAfter(retry_delay(retry))
            } else {
                NextStep::GiveUp
            }
        },
    }
}

/// A request makes at most `MAX_RETRIES + 1` attempts: only a transient
/// failure (a retryable status or a transport error) before the last
/// attempt is retried, after a delay of 250 ms doubled per earlier retry;
/// a success ends the request, and any other status fails it at once.
pub proof fn law_retries_are_bounded_and_exponential(retry: u32, outcome: AttemptOutcome)
    requires
        retry <= MAX_RETRIES,
    ensures
        retry_policy(retry, outcome) is RetryAfter ==> retry < MAX_RETRIES,
        retry_policy(retry, outcome) is RetryAfter ==> retry_policy(retry, outcome)->0 == BASE_DELAY_MS * vstd::arithmetic::power2::pow2(retry as nat),
        retry_policy(retry, outcome) is RetryAfter <==> (retry < MAX_RETRIES && match outcome {
            AttemptOutcome::Success => false,
            AttemptOutcome::Status(code) => retryable(code),
            AttemptOutcome::Transport => true,
        }),
        retry_policy(retry, outcome) is Done <==> outcome is Success,
        retry == MAX_RETRIES ==> !(retry_policy(retry, outcome) is RetryAfter),
{
    if retry < MAX_RETRIES {
        vstd::arithmetic::power2::lemma2_to64();
        assert(250u64 << 0u32 == 250) by (bit_vector);
        assert(250u64 << 1u32 == 500) by (bit_vector);
        assert(250u64 << 2u32 == 1000) by (bit_vector);
    }
}

} // verus!
