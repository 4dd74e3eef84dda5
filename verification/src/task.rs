//! Assembly of a validated `Task` from raw named inputs.
//!
//! The builder consumes a flat mapping of named raw inputs, pre-defaulted by
//! an external argument-parsing collaborator, and produces either a fully
//! validated `Task` or the first typed failure encountered. Fields are parsed
//! in declaration order: `threads` before `requests` before the header
//! specifications, so the error that surfaces when several inputs are
//! malformed is deterministic.

use vstd::prelude::*;

use crate::header::{header_of, Header, HeaderView};

verus! {

/// The failure produced when a raw input cannot be coerced to its typed form.
#[derive(Debug, Clone, Copy, PartialEq, Eq)]
pub enum ParseFailure {
    /// A numeric field was not a well-formed non-negative decimal integer
    /// representable in 32 bits.
    InvalidNumber,
}

/// The raw named inputs to a build, with defaults already applied by the
/// caller: one string per scalar field, and an ordered list of raw header
/// specification strings (possibly empty).
#[derive(Debug, Clone, PartialEq, Eq)]
pub struct Inputs {
    pub endpoint: String,
    pub body: Option<String>,
    pub threads: String,
    pub requests: String,
    pub headers: Vec<String>,
}

/// The mathematical model of the raw inputs.
#[verifier::ext_equal]
pub struct InputsView {
    pub endpoint: Seq<char>,
    pub body: Option<Seq<char>>,
    pub threads: Seq<char>,
    pub requests: Seq<char>,
    pub headers: Seq<Seq<char>>,
}

impl View for Inputs {
    type V = InputsView;

    open spec fn view(&self) -> InputsView {
        InputsView {
            endpoint: self.endpoint@,
            body: self.body.deep_view(),
            threads: self.threads@,
            requests: self.requests@,
            headers: self.headers.deep_view(),
        }
    }
}

/// The fully validated, immutable description of a load-test run. Only ever
/// observable in a valid state: construction is all-or-nothing.
#[derive(Debug, Clone, PartialEq, Eq)]
pub struct Task {
    /// Target URL/address, taken verbatim from input.
    pub endpoint: String,
    /// Request payload; `None` means no body field was supplied, which is
    /// distinct from an empty string.
    pub body: Option<String>,
    /// Headers to send with every request, in input order.
    pub headers: Vec<Header>,
    /// Number of concurrent workers for the downstream engine.
    pub threads: u32,
    /// Total requests to send; `0` means "unbounded" by convention of the
    /// downstream engine, not enforced here.
    pub requests: u32,
}

/// The mathematical model of a `Task`.
#[verifier::ext_equal]
pub struct TaskView {
    pub endpoint: Seq<char>,
    pub body: Option<Seq<char>>,
    pub headers: Seq<HeaderView>,
    pub threads: u32,
    pub requests: u32,
}

impl View for Task {
    type V = TaskView;

    open spec fn view(&self) -> TaskView {
        TaskView {
            endpoint: self.endpoint@,
            body: self.body.deep_view(),
            headers: self.headers.deep_view(),
            threads: self.threads,
            requests: self.requests,
        }
    }
}

/// Whether a character is a decimal digit.
pub open spec fn is_digit(c: char) -> bool {
    '0' <= c && c <= '9'
}

/// The numeric value of a decimal digit character.
pub open spec fn digit_val(c: char) -> int {
    c as int - '0' as int
}

/// The value of a string of decimal digits, most significant first.
pub open spec fn dec_val(s: Seq<char>) -> int
    decreases s.len(),
{
    if s.len() == 0 {
        0
    } else {
        dec_val(s.drop_last()) * 10 + digit_val(s.last())
    }
}

/// Whether a string is a well-formed non-negative decimal integer: non-empty
/// and all digits. Leading or trailing whitespace, signs, and any other
/// non-digit characters are rejected.
pub open spec fn is_dec_string(s: Seq<char>) -> bool {
    s.len() > 0 && forall|i: int| 0 <= i < s.len() ==> is_digit(s[i])
}

/// Whether a string coerces to an unsigned 32-bit integer: a well-formed
/// decimal integer whose value is representable in 32 bits.
pub open spec fn is_u32_string(s: Seq<char>) -> bool {
    is_dec_string(s) && dec_val(s) <= u32::MAX
}

/// The value of a digit string is non-negative.
proof fn lemma_dec_val_nonneg(s: Seq<char>)
    requires
        forall|i: int| 0 <= i < s.len() ==> is_digit(s[i]),
    ensures
        dec_val(s) >= 0,
    decreases s.len(),
{
    if s.len() != 0 {
        lemma_dec_val_nonneg(s.drop_last());
    }
}

/// The value of a digit string is at least the value of any of its prefixes,
/// so a prefix that already exceeds a bound dooms the whole string.
proof fn lemma_dec_val_prefix(s: Seq<char>, k: int)
    requires
        forall|i: int| 0 <= i < s.len() ==> is_digit(s[i]),
        0 <= k <= s.len(),
    ensures
        dec_val(s.take(k)) <= dec_val(s),
    decreases s.len(),
{
    if k == s.len() {
        assert(s.take(k) =~= s);
    } else {
        assert(s.drop_last().take(k) =~= s.take(k));
        lemma_dec_val_prefix(s.drop_last(), k);
        lemma_dec_val_nonneg(s.drop_last());
    }
}

/// Coerces a string to an unsigned 32-bit integer via a strict base-10
/// parse: succeeds exactly when the whole string is one or more decimal
/// digits whose value fits in 32 bits; no signs, whitespace, or partial
/// parsing.
pub fn parse_u32(s: &str) -> (r: Result<u32, ParseFailure>)
    ensures
        match r {
            Ok(v) => is_u32_string(s@) && v == dec_val(s@),
            Err(e) => !is_u32_string(s@) && e == ParseFailure::InvalidNumber,
        },
{
    let n = s.unicode_len();
    if n == 0 {
        return Err(ParseFailure::InvalidNumber);
    }
    let mut acc: u32 = 0;
    let mut i: usize = 0;
    proof {
        assert(s@.take(0) =~= Seq::<char>::empty());
    }
    while i < n
        invariant
            n == s@.len(),
            0 < n,
            i <= n,
            forall|j: int| 0 <= j < i ==> is_digit(s@[j]),
            acc == dec_val(s@.take(i as int)),
        decreases n - i,
    {
        let ghost prefix = s@.take(i as int);
        let c = s.get_char(i);
        if c < '0' || c > '9' {
            proof {
                assert(!is_digit(s@[i as int]));
            }
            return Err(ParseFailure::InvalidNumber);
        }
        let d: u32 = (c as u32) - ('0' as u32);
        let wide: u64 = (acc as u64) * 10 + (d as u64);
        proof {
            assert(s@.take(i + 1).drop_last() =~= prefix);
            assert(s@.take(i + 1).last() == s@[i as int]);
            assert(d == digit_val(s@[i as int]));
            assert(wide == dec_val(s@.take(i + 1)));
        }
        if wide > u32::MAX as u64 {
            proof {
                if is_dec_string(s@) {
                    lemma_dec_val_prefix(s@, i + 1);
                }
            }
            return Err(ParseFailure::InvalidNumber);
        }
        acc = wide as u32;
        i = i + 1;
    }
    proof {
        assert(s@.take(n as int) =~= s@);
    }
    Ok(acc)
}

/// The task denoted by the raw inputs, or the first failure in field order:
/// `threads`, then `requests`, then the header specifications (which cannot
/// fail).
pub open spec fn task_of(i: InputsView) -> Result<TaskView, ParseFailure> {
    if !is_u32_string(i.threads) {
        Err(ParseFailure::InvalidNumber)
    } else if !is_u32_string(i.requests) {
        Err(ParseFailure::InvalidNumber)
    } else {
        Ok(
            TaskView {
                endpoint: i.endpoint,
                body: i.body,
                headers: i.headers.map_values(|h: Seq<char>| header_of(h)),
                threads: dec_val(i.threads) as u32,
                requests: dec_val(i.requests) as u32,
            },
        )
    }
}

impl Task {
    /// Builds a validated task from the raw named inputs. All-or-nothing: on
    /// success every field of the result is determined by the inputs; the
    /// first coercion failure aborts the build, and no partial task escapes.
    pub fn new_from_input(inputs: &Inputs) -> (r: Result<Task, ParseFailure>)
        ensures
            match r {
                Ok(t) => task_of(inputs@) == Ok::<TaskView, ParseFailure>(t@),
                Err(e) => task_of(inputs@) == Err::<TaskView, ParseFailure>(e),
            },
    {
        let threads = match parse_u32(inputs.threads.as_str()) {
            Ok(v) => v,
            Err(e) => {
                return Err(e);
            },
        };
        let requests = match parse_u32(inputs.requests.as_str()) {
            Ok(v) => v,
            Err(e) => {
                return Err(e);
            },
        };
        let mut headers: Vec<Header> = Vec::new();
        let mut k: usize = 0;
        proof {
            assert(headers.deep_view() =~= inputs@.headers.take(0).map_values(
                |h: Seq<char>| header_of(h),
            ));
        }
        while k < inputs.headers.len()
            invariant
                inputs@.headers.len() == inputs.headers.len(),
                k <= inputs.headers.len(),
                headers.deep_view() == inputs@.headers.take(k as int).map_values(
                    |h: Seq<char>| header_of(h),
                ),
            decreases inputs.headers.len() - k,
        {
            let ghost done = headers.deep_view();
            let h = Header::parse_header(inputs.headers[k].as_str());
            headers.push(h);
            k = k + 1;
            proof {
                assert(inputs@.headers[k - 1] == inputs.headers@[k - 1]@);
                assert(headers.deep_view() =~= done.push(h@));
                assert(inputs@.headers.take(k as int).drop_last() =~= inputs@.headers.take(
                    k as int - 1,
                ));
                assert(inputs@.headers.take(k as int).map_values(
                    |hh: Seq<char>| header_of(hh),
                ) =~= done.push(h@));
            }
        }
        let body = match &inputs.body {
            Some(b) => Some(b.clone()),
            None => None,
        };
        let t = Task { endpoint: inputs.endpoint.clone(), body, headers, threads, requests };
        proof {
            assert(inputs@.headers.take(inputs@.headers.len() as int) =~= inputs@.headers);
            assert(t@ =~= task_of(inputs@).unwrap());
        }
        Ok(t)
    }
}

/// Building a task is deterministic and stateless: one description of inputs
/// determines one task, so two builds from structurally equal inputs yield
/// structurally equal tasks.
pub proof fn lemma_build_deterministic(i: InputsView, t1: TaskView, t2: TaskView)
    requires
        task_of(i) == Ok::<TaskView, ParseFailure>(t1),
        task_of(i) == Ok::<TaskView, ParseFailure>(t2),
    ensures
        t1 == t2,
{
}

} // verus!
