use batchopt::output::{set_fingerprint, solution_to_string, to_dec_string};
use batchopt::schedule::{Game, Plan};
use batchopt::timer::LocalTimer;

fn s(x: &str) -> String {
    x.to_string()
}

#[test]
fn decimal_rendering_is_exact() {
    assert_eq!(to_dec_string(0), "0");
    assert_eq!(to_dec_string(7), "7");
    assert_eq!(to_dec_string(10), "10");
    assert_eq!(to_dec_string(123), "123");
    assert_eq!(to_dec_string(90001), "90001");
}

#[test]
fn empty_solution_renders_empty() {
    let out = solution_to_string(Vec::new());
    assert_eq!(out, "");
}

#[test]
fn solution_lists_count_then_plan_blocks() {
    let plans = vec![
        Plan { project_name: s("Logging"), contributors: vec![s("Ann"), s("Ben")] },
        Plan { project_name: s("WebServer"), contributors: vec![s("Carl")] },
    ];
    let out = solution_to_string(plans);
    assert_eq!(out, "2\nLogging\nAnn Ben\nWebServer\nCarl\n");
}

#[test]
fn end_to_end_solution_file_body() {
    let mut g = Game::new();
    g.add_contributor(s("Ann"), vec![(s("C++"), 3)]);
    g.add_project(s("P1"), 5, 10, 20, vec![(s("C++"), 2)]);
    let plans = g.greedy();
    assert_eq!(solution_to_string(plans), "1\nP1\nAnn\n");
}

#[test]
fn unfillable_project_renders_empty_body() {
    let mut g = Game::new();
    g.add_contributor(s("Ann"), vec![(s("C++"), 1)]);
    g.add_project(s("P1"), 5, 10, 20, vec![(s("C++"), 2)]);
    let plans = g.greedy();
    assert_eq!(solution_to_string(plans), "");
}

#[test]
fn fingerprint_joins_sorted_tokens() {
    assert_eq!(set_fingerprint(&vec![3, 1, 2]), "1-2-3");
    assert_eq!(set_fingerprint(&vec![7]), "7");
    assert_eq!(set_fingerprint(&Vec::new()), "");
    assert_eq!(set_fingerprint(&vec![12, 5]), "5-12");
}

#[test]
fn timer_reports_elapsed_time() {
    let timer = LocalTimer::new();
    let elapsed = timer.start.elapsed();
    assert!(elapsed.as_nanos() < u128::MAX);
}
