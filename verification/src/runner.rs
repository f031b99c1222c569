//! Running probe jobs over a pluggable traceroute runner.
//!
//! The runner trait is the seam for callers: anything that can turn a target
//! into raw traceroute output. `run_traces` walks the targets in order,
//! repeats each one, parses every output and collects one job result per
//! (target, repeat) pair — results are in job order no matter how the runner
//! behaves.

use vstd::prelude::*;
use crate::model::HopView;
use crate::parser::{ParsedTraceRun, ParseError, parse_traceroute_n_with_target, spec_parse_run,
    spec_parse_error_text};

verus! {

/// Probe settings for one traceroute invocation.
#[derive(Clone, Copy, Debug, PartialEq)]
pub struct TraceSettings {
    pub max_hops: u32,
    pub probes: u32,
    pub timeout_ms: u64,
}

impl Default for TraceSettings {
    /// 30 hops, 3 probes, a 2 second timeout.
    fn default() -> (r: TraceSettings)
        ensures
            r.max_hops == 30,
            r.probes == 3,
            r.timeout_ms == 2000,
    {
        TraceSettings { max_hops: 30, probes: 3, timeout_ms: 2000 }
    }
}

/// Anything that can produce raw traceroute output for a target. Nothing is
/// promised of the output: `run_traces` states what holds of every outcome.
pub trait TracerouteRunner {
    fn run(&self, target: &str, settings: &TraceSettings) -> Result<String, String>;
}

/// The outcome of one probe job.
#[derive(Debug, PartialEq)]
pub struct TraceJobResult {
    pub target: String,
    pub repeat: u32,
    pub result: Result<ParsedTraceRun, String>,
}

/// Relies on `String::push_str` from std: appending a string slice appends
/// exactly its characters.
pub assume_specification[ String::push_str ](s: &mut String, other: &str)
    ensures
        final(s)@ == old(s)@ + other@,
;

/// The decimal digits of a number, most significant first.
pub open spec fn spec_u32_chars(n: int) -> Seq<char>
    decreases n,
{
    if n < 10 {
        seq![(48 + (if n < 0 {
            0int
        } else {
            n
        })) as char]
    } else {
        spec_u32_chars(n / 10).push((48 + n % 10) as char)
    }
}

/// The character of one decimal-digit scalar value.
fn digit_char(d: u32) -> (r: char)
    requires
        48 <= d <= 57,
    ensures
        r == ((d as int) as char),
{
    (d as u8) as char
}

/// Relies on `String::push` from std: appending one character appends
/// exactly it.
pub assume_specification[ String::push ](s: &mut String, c: char)
    ensures
        final(s)@ == old(s)@.push(c),
;

/// Append a number in decimal.
fn push_u32(s: &mut String, n: u32)
    ensures
        final(s)@ == old(s)@ + spec_u32_chars(n as int),
    decreases n,
{
    if n >= 10 {
        push_u32(s, n / 10);
        let d = digit_char(48 + n % 10);
        s.push(d);
        proof {
            assert(s@ =~= old(s)@ + spec_u32_chars(n as int));
        }
    } else {
        let d = digit_char(48 + n);
        s.push(d);
        proof {
            assert(spec_u32_chars(n as int) =~= seq![(48 + n as int) as char]);
            assert(s@ =~= old(s)@ + spec_u32_chars(n as int));
        }
    }
}

/// The log line for a failed traceroute invocation.
pub open spec fn spec_run_error(target: Seq<char>, repeat: int, message: Seq<char>) -> Seq<char> {
    "traceroute failed for "@ + target + " (repeat "@ + spec_u32_chars(repeat) + "): "@ + message
}

pub fn format_run_error(target: &str, repeat: u32, message: &str) -> (r: String)
    ensures
        r@ == spec_run_error(target@, repeat as int, message@),
{
    let mut s = String::new();
    s.push_str("traceroute failed for ");
    s.push_str(target);
    s.push_str(" (repeat ");
    push_u32(&mut s, repeat);
    s.push_str("): ");
    s.push_str(message);
    s
}

/// The log line for output that would not parse.
pub open spec fn spec_parse_error_msg(
    target: Seq<char>,
    repeat: int,
    message: Seq<char>,
) -> Seq<char> {
    "parse failed for "@ + target + " (repeat "@ + spec_u32_chars(repeat) + "): "@ + message
}

pub fn format_parse_error(target: &str, repeat: u32, message: &str) -> (r: String)
    ensures
        r@ == spec_parse_error_msg(target@, repeat as int, message@),
{
    let mut s = String::new();
    s.push_str("parse failed for ");
    s.push_str(target);
    s.push_str(" (repeat ");
    push_u32(&mut s, repeat);
    s.push_str("): ");
    s.push_str(message);
    s
}

/// What one job's outcome can be, given its target and repeat count: a run
/// that some runner output parses to under the target fallback, or a
/// formatted invocation failure, or a formatted parse failure whose message
/// names the parse error some runner output produces.
pub open spec fn spec_job_result(
    res: Result<ParsedTraceRun, String>,
    tgt: Seq<char>,
    rep: int,
) -> bool {
    match res {
        Result::Ok(run) => exists|out: Seq<char>|
            #[trigger] spec_parse_run(out, Option::Some(tgt)) == Result::<
                (Seq<char>, Seq<HopView>),
                ParseError,
            >::Ok((run@.target, run@.hops)),
        Result::Err(m) => (exists|msg: Seq<char>| m@ == #[trigger] spec_run_error(tgt, rep, msg))
            || (exists|out: Seq<char>, e: ParseError|
            #![trigger spec_parse_run(out, Option::Some(tgt)), spec_parse_error_text(e)]
            spec_parse_run(out, Option::Some(tgt)) == Result::<
                (Seq<char>, Seq<HopView>),
                ParseError,
            >::Err(e) && m@ == spec_parse_error_msg(tgt, rep, spec_parse_error_text(e))),
    }
}

/// Run every (target, repeat) probe job in order: invoke the runner, parse
/// its output (the target itself is the parse fallback), and record either
/// the parsed run or a formatted failure. One result per job, in job order
/// (targets outermost), whatever the runner returns; an empty target list or
/// a zero repeat count yields no jobs. One failing job never discards the
/// others: every job gets exactly one entry.
pub fn run_traces<R: TracerouteRunner>(
    targets: &Vec<String>,
    settings: &TraceSettings,
    repeat: u32,
    runner: &R,
) -> (r: Vec<TraceJobResult>)
    requires
        targets@.len() * repeat <= 0xffff_ffff,
    ensures
        targets@.len() == 0 || repeat == 0 ==> r@.len() == 0,
        targets@.len() > 0 && repeat > 0 ==> r@.len() == targets@.len() * repeat,
        forall|k: int|
            0 <= k < r@.len() ==> (#[trigger] r@[k]).target@ == targets@[k / (repeat as int)]@
                && r@[k].repeat == k % (repeat as int),
        forall|k: int|
            0 <= k < r@.len() ==> spec_job_result(
                (#[trigger] r@[k]).result,
                targets@[k / (repeat as int)]@,
                k % (repeat as int),
            ),
{
    let mut out: Vec<TraceJobResult> = Vec::new();
    if targets.len() == 0 || repeat == 0 {
        return out;
    }
    let nt = targets.len();
    let mut ti: usize = 0;
    while ti < nt
        invariant
            ti <= nt,
            nt == targets@.len(),
            repeat > 0,
            nt * repeat <= 0xffff_ffff,
            out@.len() == ti * (repeat as int),
            forall|k: int|
                0 <= k < out@.len() ==> (#[trigger] out@[k]).target@ == targets@[k / (
                repeat as int)]@ && out@[k].repeat == k % (repeat as int),
            forall|k: int|
                0 <= k < out@.len() ==> spec_job_result(
                    (#[trigger] out@[k]).result,
                    targets@[k / (repeat as int)]@,
                    k % (repeat as int),
                ),
        decreases nt - ti,
    {
        proof {
            assert((ti + 1) * (repeat as int) == ti * (repeat as int) + repeat) by (nonlinear_arith);
            assert((ti + 1) * (repeat as int) <= nt * (repeat as int)) by (nonlinear_arith)
                requires
                    0 <= ti < nt,
                    repeat >= 1,
            ;
        }
        let mut rep: u32 = 0;
        while rep < repeat
            invariant
                rep <= repeat,
                ti < nt,
                nt == targets@.len(),
                repeat > 0,
                nt * repeat <= 0xffff_ffff,
                out@.len() == ti * (repeat as int) + rep,
                ti * (repeat as int) + repeat <= nt * (repeat as int),
                forall|k: int|
                    0 <= k < out@.len() ==> (#[trigger] out@[k]).target@ == targets@[k / (
                    repeat as int)]@ && out@[k].repeat == k % (repeat as int),
                forall|k: int|
                    0 <= k < out@.len() ==> spec_job_result(
                        (#[trigger] out@[k]).result,
                        targets@[k / (repeat as int)]@,
                        k % (repeat as int),
                    ),
            decreases repeat - rep,
        {
            let target = &targets[ti];
            let ghost tgt = targets@[ti as int]@;
            let raw = runner.run(target.as_str(), settings);
            let result: Result<ParsedTraceRun, String> = match raw {
                Ok(output) => {
                    match parse_traceroute_n_with_target(output.as_str(), target.as_str()) {
                        Ok(parsed) => {
                            proof {
                                assert(spec_parse_run(output@, Option::Some(tgt)) == Result::<
                                    (Seq<char>, Seq<HopView>),
                                    ParseError,
                                >::Ok((parsed@.target, parsed@.hops)));
                            }
                            Ok(parsed)
                        },
                        Err(e) => {
                            let m = format_parse_error(target.as_str(), rep, e.message());
                            proof {
                                assert(spec_parse_run(output@, Option::Some(tgt)) == Result::<
                                    (Seq<char>, Seq<HopView>),
                                    ParseError,
                                >::Err(e));
                                assert(m@ == spec_parse_error_msg(
                                    tgt,
                                    rep as int,
                                    spec_parse_error_text(e),
                                ));
                            }
                            Err(m)
                        },
                    }
                },
                Err(err) => {
                    let ghost msg = err@;
                    let m = format_run_error(target.as_str(), rep, err.as_str());
                    proof {
                        assert(m@ == spec_run_error(tgt, rep as int, msg));
                    }
                    Err(m)
                },
            };
            proof {
                assert(spec_job_result(result, tgt, rep as int));
            }
            let job = TraceJobResult { target: target.clone(), repeat: rep, result };
            let ghost olds = out@;
            out.push(job);
            proof {
                let k0 = olds.len() as int;
                assert(k0 == ti * (repeat as int) + rep);
                assert(k0 / (repeat as int) == ti && k0 % (repeat as int) == rep)
                    by (nonlinear_arith)
                    requires
                        k0 == ti * (repeat as int) + rep,
                        0 <= rep < repeat,
                        0 <= ti,
                ;
                assert forall|k: int| 0 <= k < out@.len() implies (#[trigger] out@[k]).target@
                    == targets@[k / (repeat as int)]@ && out@[k].repeat == k % (repeat as int) by {
                    if k < k0 {
                        assert(out@[k] == olds[k]);
                    }
                }
            }
            rep += 1;
        }
        ti += 1;
    }
    proof {
        assert(out@.len() == nt * (repeat as int));
    }
    out
}

} // verus!
