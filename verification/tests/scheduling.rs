use batchopt::schedule::Game;

fn s(x: &str) -> String {
    x.to_string()
}

fn skills(xs: &[(&str, usize)]) -> Vec<(String, usize)> {
    xs.iter().map(|(n, l)| (n.to_string(), *l)).collect()
}

#[test]
fn single_contributor_fills_single_project() {
    let mut g = Game::new();
    g.add_contributor(s("Ann"), skills(&[("C++", 3)]));
    g.add_project(s("P1"), 5, 10, 20, skills(&[("C++", 2)]));
    let plans = g.greedy();
    assert_eq!(plans.len(), 1);
    assert_eq!(plans[0].project_name, "P1");
    assert_eq!(plans[0].contributors, vec![s("Ann")]);
}

#[test]
fn underqualified_contributor_fills_nothing() {
    let mut g = Game::new();
    g.add_contributor(s("Ann"), skills(&[("C++", 1)]));
    g.add_project(s("P1"), 5, 10, 20, skills(&[("C++", 2)]));
    let plans = g.greedy();
    assert_eq!(plans.len(), 0);
}

#[test]
fn plan_covers_every_slot_or_is_discarded() {
    // P1 needs two skills but nobody knows Rust, so it is discarded whole;
    // P2's single slot is filled.
    let mut g = Game::new();
    g.add_contributor(s("Ann"), skills(&[("C++", 3)]));
    g.add_contributor(s("Ben"), skills(&[("Java", 2)]));
    g.add_project(s("P1"), 4, 100, 10, skills(&[("C++", 1), ("Rust", 1)]));
    g.add_project(s("P2"), 4, 10, 10, skills(&[("Java", 1)]));
    let plans = g.greedy();
    assert_eq!(plans.len(), 1);
    assert_eq!(plans[0].project_name, "P2");
    assert_eq!(plans[0].contributors.len(), 1);
}

#[test]
fn one_worker_cannot_fill_two_slots_of_one_project() {
    // Carl holds both skills, but a project needs two distinct people; with
    // Dana around both slots can be filled.
    let mut g = Game::new();
    g.add_contributor(s("Carl"), skills(&[("C++", 3), ("Java", 3)]));
    g.add_project(s("Solo"), 2, 10, 10, skills(&[("C++", 1), ("Java", 1)]));
    let plans = g.greedy();
    assert_eq!(plans.len(), 0);

    let mut g2 = Game::new();
    g2.add_contributor(s("Carl"), skills(&[("C++", 3), ("Java", 3)]));
    g2.add_contributor(s("Dana"), skills(&[("Java", 2)]));
    g2.add_project(s("Duo"), 2, 10, 10, skills(&[("C++", 1), ("Java", 1)]));
    let plans2 = g2.greedy();
    assert_eq!(plans2.len(), 1);
    assert_eq!(plans2[0].contributors, vec![s("Carl"), s("Dana")]);
}

#[test]
fn projects_are_visited_by_score_density() {
    // Rich: score 90 over 3 days (30/day); Lean: score 20 over 1 day
    // (20/day). Only one qualified worker exists, so the denser project
    // gets them and the other is discarded.
    let mut g = Game::new();
    g.add_contributor(s("Ann"), skills(&[("C++", 5)]));
    g.add_project(s("Lean"), 1, 20, 10, skills(&[("C++", 1)]));
    g.add_project(s("Rich"), 3, 90, 10, skills(&[("C++", 1)]));
    let plans = g.greedy();
    assert_eq!(plans.len(), 2);
    assert_eq!(plans[0].project_name, "Rich");
    assert_eq!(plans[1].project_name, "Lean");
}

#[test]
fn density_tie_keeps_input_order() {
    // Same density 10/day: the earlier project in the input goes first.
    let mut g = Game::new();
    g.add_contributor(s("Ann"), skills(&[("C++", 5)]));
    g.add_project(s("Second"), 2, 20, 10, skills(&[("C++", 1)]));
    g.add_project(s("First"), 1, 10, 10, skills(&[("C++", 1)]));
    let plans = g.greedy();
    assert_eq!(plans.len(), 2);
    assert_eq!(plans[0].project_name, "Second");
    assert_eq!(plans[1].project_name, "First");
}

#[test]
fn load_counter_spreads_work() {
    // Both Ann and Ben qualify for every slot. Ann is picked first (index
    // order on equal load); the next project must then prefer Ben, whose
    // load is lower.
    let mut g = Game::new();
    g.add_contributor(s("Ann"), skills(&[("C++", 3)]));
    g.add_contributor(s("Ben"), skills(&[("C++", 3)]));
    g.add_project(s("P1"), 2, 20, 10, skills(&[("C++", 1)]));
    g.add_project(s("P2"), 2, 10, 10, skills(&[("C++", 1)]));
    let plans = g.greedy();
    assert_eq!(plans.len(), 2);
    assert_eq!(plans[0].project_name, "P1");
    assert_eq!(plans[0].contributors, vec![s("Ann")]);
    assert_eq!(plans[1].project_name, "P2");
    assert_eq!(plans[1].contributors, vec![s("Ben")]);
}

#[test]
fn discarded_project_leaves_loads_untouched() {
    // Huge is densest but cannot be filled (needs Rust); its attempt must
    // not count Ann's load, so the two fillable projects still alternate
    // between Ann and Ben.
    let mut g = Game::new();
    g.add_contributor(s("Ann"), skills(&[("C++", 3)]));
    g.add_contributor(s("Ben"), skills(&[("C++", 3)]));
    g.add_project(s("Huge"), 1, 1000, 10, skills(&[("C++", 1), ("Rust", 1)]));
    g.add_project(s("P1"), 2, 20, 10, skills(&[("C++", 1)]));
    g.add_project(s("P2"), 2, 10, 10, skills(&[("C++", 1)]));
    let plans = g.greedy();
    assert_eq!(plans.len(), 2);
    assert_eq!(plans[0].contributors, vec![s("Ann")]);
    assert_eq!(plans[1].contributors, vec![s("Ben")]);
}

#[test]
fn least_loaded_qualifying_worker_wins_each_slot() {
    // Eve is the only one with level 5; Ann covers the easy slots. After
    // Eve works the first project, the second project's easy slot goes to
    // Ann (load 0) even though Eve also qualifies.
    let mut g = Game::new();
    g.add_contributor(s("Eve"), skills(&[("C++", 5)]));
    g.add_contributor(s("Ann"), skills(&[("C++", 2)]));
    g.add_project(s("Hard"), 1, 100, 10, skills(&[("C++", 5)]));
    g.add_project(s("Easy"), 1, 50, 10, skills(&[("C++", 1)]));
    let plans = g.greedy();
    assert_eq!(plans.len(), 2);
    assert_eq!(plans[0].project_name, "Hard");
    assert_eq!(plans[0].contributors, vec![s("Eve")]);
    assert_eq!(plans[1].project_name, "Easy");
    assert_eq!(plans[1].contributors, vec![s("Ann")]);
}

#[test]
fn slots_are_filled_in_declared_order() {
    let mut g = Game::new();
    g.add_contributor(s("Ann"), skills(&[("Java", 2)]));
    g.add_contributor(s("Ben"), skills(&[("C++", 2)]));
    g.add_project(s("P"), 1, 10, 10, skills(&[("C++", 1), ("Java", 1)]));
    let plans = g.greedy();
    assert_eq!(plans.len(), 1);
    assert_eq!(plans[0].contributors, vec![s("Ben"), s("Ann")]);
}
