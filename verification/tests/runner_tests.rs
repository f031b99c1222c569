use ptroute::runner::{format_run_error, run_traces, TraceJobResult, TraceSettings, TracerouteRunner};

struct FakeRunner;

impl TracerouteRunner for FakeRunner {
    fn run(&self, target: &str, _settings: &TraceSettings) -> Result<String, String> {
        Ok(format!(
            "traceroute to {0} ({0}), 30 hops max\n 1  {0}  1.0 ms",
            target
        ))
    }
}

struct FailingRunner;

impl TracerouteRunner for FailingRunner {
    fn run(&self, _target: &str, _settings: &TraceSettings) -> Result<String, String> {
        Err("boom".to_string())
    }
}

fn order_of(results: Vec<TraceJobResult>) -> Vec<(String, u32)> {
    results.into_iter().map(|job| (job.target, job.repeat)).collect()
}

#[test]
fn ordering_is_stable_with_concurrency() {
    let targets = vec!["slow".to_string(), "fast".to_string()];
    let settings = TraceSettings::default();

    let results = run_traces(&targets, &settings, 2, &FakeRunner);

    let order = order_of(results);
    assert_eq!(
        order,
        vec![
            ("slow".to_string(), 0),
            ("slow".to_string(), 1),
            ("fast".to_string(), 0),
            ("fast".to_string(), 1)
        ]
    );
}

#[test]
fn ordering_matches_between_concurrency_levels() {
    let targets = vec!["a".to_string(), "b".to_string(), "c".to_string()];
    let settings = TraceSettings::default();

    let order_one = order_of(run_traces(&targets, &settings, 2, &FakeRunner));
    let order_two = order_of(run_traces(&targets, &settings, 2, &FakeRunner));

    assert_eq!(order_one, order_two);
}

#[test]
fn parsed_runs_carry_the_probed_target() {
    let targets = vec!["10.0.0.9".to_string()];
    let settings = TraceSettings::default();
    let results = run_traces(&targets, &settings, 1, &FakeRunner);
    assert_eq!(results.len(), 1);
    let run = results[0].result.as_ref().unwrap();
    assert_eq!(run.target, "10.0.0.9");
    assert_eq!(run.hops.len(), 1);
    assert_eq!(run.hops[0].rtt_micros, vec![Some(1000)]);
}

#[test]
fn failing_runner_formats_the_error() {
    let targets = vec!["x".to_string()];
    let settings = TraceSettings::default();
    let results = run_traces(&targets, &settings, 1, &FailingRunner);
    assert_eq!(results.len(), 1);
    let err = results[0].result.as_ref().unwrap_err();
    assert_eq!(err, "traceroute failed for x (repeat 0): boom");
}

#[test]
fn no_targets_or_no_repeats_yield_no_jobs() {
    let settings = TraceSettings::default();
    let none: Vec<String> = vec![];
    assert!(run_traces(&none, &settings, 3, &FakeRunner).is_empty());
    let some = vec!["a".to_string()];
    assert!(run_traces(&some, &settings, 0, &FakeRunner).is_empty());
}

#[test]
fn default_trace_settings() {
    let s = TraceSettings::default();
    assert_eq!(s.max_hops, 30);
    assert_eq!(s.probes, 3);
    assert_eq!(s.timeout_ms, 2000);
}

#[test]
fn run_error_message_shape() {
    let msg = format_run_error("host", 7, "timed out");
    assert_eq!(msg, "traceroute failed for host (repeat 7): timed out");
}
