//! Network downloads: the one place that decides curl's retry and timeout
//! flags, and the retry schedule of in-process fetches.

use vstd::prelude::*;
use crate::text::chars_of;

verus! {

/// Number of times a transient failure is retried.
pub const RETRY_ATTEMPTS: &'static str = "3";

/// Seconds to wait between retries.
pub const RETRY_DELAY_SECS: &'static str = "2";

/// Seconds allowed to establish a connection (never the transfer itself).
pub const CONNECT_TIMEOUT_SECS: &'static str = "30";

/// The retry and timeout flags shared by every download.
pub open spec fn retry_args_spec() -> Seq<&'static str> {
    seq![
        "--retry",
        RETRY_ATTEMPTS,
        "--retry-delay",
        RETRY_DELAY_SECS,
        "--retry-connrefused",
        "--retry-all-errors",
        "--connect-timeout",
        CONNECT_TIMEOUT_SECS,
    ]
}

/// The retry and timeout flags: `--retry-connrefused` and
/// `--retry-all-errors` make the retries cover a connection reset during
/// the handshake.
pub fn retry_args() -> (r: Vec<&'static str>)
    ensures
        r@ == retry_args_spec(),
{
    vec![
        "--retry",
        RETRY_ATTEMPTS,
        "--retry-delay",
        RETRY_DELAY_SECS,
        "--retry-connrefused",
        "--retry-all-errors",
        "--connect-timeout",
        CONNECT_TIMEOUT_SECS,
    ]
}

/// The argv that downloads `url` to `dest`.
pub open spec fn curl_argv_spec(url: Seq<char>, dest: Seq<char>) -> Seq<Seq<char>> {
    seq!["curl"@, "-fsSL"@] + retry_args_spec().map_values(|a: &'static str| a@) + seq!["-o"@, dest, url]
}

/// The argv for downloading `url` to `dest`, retries included: `curl
/// -fsSL`, the retry flags, `-o dest`, then the url last. No limit is put
/// on the transfer's total time.
pub fn curl_argv(url: &str, dest: &str) -> (r: Vec<String>)
    ensures
        crate::text::strs(r@) == curl_argv_spec(url@, dest@),
{
    let mut argv: Vec<String> = Vec::new();
    argv.push(String::from_str("curl"));
    argv.push(String::from_str("-fsSL"));
    let flags: Vec<&'static str> = retry_args();
    let mut i: usize = 0;
    while i < flags.len()
        invariant
            0 <= i <= flags.len(),
            flags@ == retry_args_spec(),
            crate::text::strs(argv@) == seq!["curl"@, "-fsSL"@] + retry_args_spec().take(i as int).map_values(
                |a: &'static str| a@,
            ),
        decreases flags.len() - i,
    {
        let ghost a0 = crate::text::strs(argv@);
        argv.push(String::from_str(flags[i]));
        proof {
            assert(retry_args_spec().take(i + 1).map_values(|a: &'static str| a@) =~= retry_args_spec().take(
                i as int,
            ).map_values(|a: &'static str| a@).push(flags@[i as int]@));
            assert(crate::text::strs(argv@) =~= a0.push(flags@[i as int]@));
        }
        i = i + 1;
    }
    proof {
        assert(retry_args_spec().take(8) =~= retry_args_spec());
    }
    let ghost a1 = crate::text::strs(argv@);
    argv.push(String::from_str("-o"));
    argv.push(String::from_str(dest));
    argv.push(String::from_str(url));
    proof {
        assert(crate::text::strs(argv@) =~= a1 + seq!["-o"@, dest@, url@]);
    }
    argv
}

/// The value of a string of decimal digits, when it is one and fits.
pub open spec fn digits_value(s: Seq<char>) -> int
    decreases s.len(),
{
    if s.len() == 0 {
        0
    } else {
        digits_value(s.drop_last()) * 10 + digit_value(s.last())
    }
}

/// The value of a decimal digit (0 for any other character).
pub open spec fn digit_value(c: char) -> int {
    if c == '1' { 1 }
    else if c == '2' { 2 }
    else if c == '3' { 3 }
    else if c == '4' { 4 }
    else if c == '5' { 5 }
    else if c == '6' { 6 }
    else if c == '7' { 7 }
    else if c == '8' { 8 }
    else if c == '9' { 9 }
    else { 0 }
}

/// `c` is a decimal digit.
pub open spec fn is_digit(c: char) -> bool {
    c == '0' || c == '1' || c == '2' || c == '3' || c == '4' || c == '5' || c == '6' || c == '7' || c == '8' || c == '9'
}

fn digit_of(c: char) -> (r: Option<u64>)
    ensures
        r matches Some(d) ==> is_digit(c) && d == digit_value(c),
        r is None ==> !is_digit(c),
{
    if c == '0' { Some(0) }
    else if c == '1' { Some(1) }
    else if c == '2' { Some(2) }
    else if c == '3' { Some(3) }
    else if c == '4' { Some(4) }
    else if c == '5' { Some(5) }
    else if c == '6' { Some(6) }
    else if c == '7' { Some(7) }
    else if c == '8' { Some(8) }
    else if c == '9' { Some(9) }
    else { None }
}

/// Every character of `s` is a decimal digit.
pub open spec fn all_digits(s: Seq<char>) -> bool {
    forall|i: int| 0 <= i < s.len() ==> is_digit(#[trigger] s[i])
}

/// `str::parse::<u32>` on plain digits: the value, or `None` when `s` is
/// empty, holds another character, or is too large.
pub fn parse_u32(s: &str) -> (r: Option<u32>)
    ensures
        r matches Some(v) ==> s@.len() > 0 && all_digits(s@) && v as int == digits_value(s@),
        r is None ==> s@.len() == 0 || !all_digits(s@) || digits_value(s@) > u32::MAX,
{
    let cs = chars_of(s);
    if cs.len() == 0 {
        return None;
    }
    let mut v: u64 = 0;
    let mut i: usize = 0;
    while i < cs.len()
        invariant
            0 <= i <= cs.len(),
            cs@ == s@,
            all_digits(cs@.take(i as int)),
            v as int == digits_value(cs@.take(i as int)),
            v <= u32::MAX,
        decreases cs.len() - i,
    {
        let c: char = cs[i];
        proof {
            assert(cs@.take(i + 1).drop_last() =~= cs@.take(i as int));
        }
        let d: u64 = match digit_of(c) {
            Some(d) => d,
            None => {
                proof {
                    assert(!all_digits(s@)) by {
                        assert(s@[i as int] == c);
                    }
                }
                return None;
            },
        };
        let next: u64 = v * 10 + d;
        if next > 4294967295 {
            proof {
                assert(cs@.take(i + 1) =~= cs@.take(i as int).push(c));
                if all_digits(s@) {
                    lemma_digits_value_grows(s@, i + 1);
                }
            }
            return None;
        }
        v = next;
        i = i + 1;
    }
    proof {
        assert(cs@.take(cs.len() as int) =~= cs@);
    }
    Some(v as u32)
}

proof fn lemma_digits_value_grows(s: Seq<char>, k: int)
    requires
        0 <= k <= s.len(),
        all_digits(s),
    ensures
        digits_value(s) >= digits_value(s.take(k)),
        digits_value(s) >= 0,
    decreases s.len(),
{
    if s.len() > 0 {
        assert(all_digits(s.drop_last())) by {
            assert forall|i: int| 0 <= i < s.drop_last().len() implies is_digit(#[trigger] s.drop_last()[i]) by {
                assert(s.drop_last()[i] == s[i]);
            }
        }
        assert(is_digit(s[s.len() - 1]));
        if k == s.len() {
            assert(s.take(k) =~= s);
            lemma_digits_value_grows(s.drop_last(), 0);
        } else {
            assert(s.drop_last().take(k) =~= s.take(k));
            lemma_digits_value_grows(s.drop_last(), k);
        }
    } else {
        assert(s.take(k) =~= s);
    }
}

/// What to do after an attempt of a retried fetch.
#[derive(Debug, Clone, Copy, PartialEq, Eq, Structural)]
pub enum RetryAction {
    /// Hand back this attempt's result: it succeeded, or it was the last.
    Return,
    /// Pause for `delay_secs`, then make another attempt.
    PauseAndRetry,
}

/// The retry schedule of an in-process fetch: a number of attempts (at
/// least one), with a pause before every attempt but the first. The
/// caller makes an attempt and passes its outcome to `record`, which
/// counts it; on `PauseAndRetry` it pauses `delay_secs` and makes the next
/// attempt, on `Return` it hands back that attempt's result.
pub struct RetryLoop {
    attempts: u32,
    done: u32,
}

impl RetryLoop {
    /// Attempts allowed.
    pub closed spec fn max_attempts(&self) -> nat {
        self.attempts as nat
    }

    /// Attempts made (recorded) so far.
    pub closed spec fn started(&self) -> nat {
        self.done as nat
    }

    /// The schedule of `with_retry`: as many attempts as the curl retry
    /// count says (3), at least one.
    pub fn start() -> (r: RetryLoop)
        ensures
            r.max_attempts() == 3,
            r.started() == 0,
    {
        proof {
            reveal_strlit("3");
            assert(RETRY_ATTEMPTS@ =~= seq!['3']);
            assert(seq!['3'].drop_last() =~= Seq::<char>::empty());
            assert(digits_value(Seq::<char>::empty()) == 0);
            assert(seq!['3'].last() == '3');
            assert(digits_value(seq!['3']) == 3);
            assert(all_digits(seq!['3']));
        }
        let parsed: u32 = match parse_u32(RETRY_ATTEMPTS) {
            Some(n) => n,
            None => 3,
        };
        let attempts: u32 = if parsed > 1 {
            parsed
        } else {
            1
        };
        RetryLoop { attempts, done: 0 }
    }

    /// Seconds to pause between attempts (2).
    pub fn delay_secs(&self) -> (r: u64)
        ensures
            r == 2,
    {
        2
    }

    /// Records the outcome of the attempt just made (`ok`: it succeeded)
    /// and says what to do: a success is returned at once; a failure is
    /// retried after a pause while attempts remain, and the failure of the
    /// last attempt is returned.
    pub fn record(&mut self, ok: bool) -> (r: RetryAction)
        requires
            old(self).started() < old(self).max_attempts(),
        ensures
            final(self).max_attempts() == old(self).max_attempts(),
            final(self).started() == old(self).started() + 1,
            ok ==> r == RetryAction::Return,
            !ok && final(self).started() < final(self).max_attempts() ==> r == RetryAction::PauseAndRetry,
            !ok && final(self).started() == final(self).max_attempts() ==> r == RetryAction::Return,
    {
        self.done = self.done + 1;
        if ok {
            RetryAction::Return
        } else if self.done < self.attempts {
            RetryAction::PauseAndRetry
        } else {
            RetryAction::Return
        }
    }
}

} // verus!
