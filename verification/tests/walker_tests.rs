use wikiscraper::walker::select_first_link;
use wikiscraper::walker::qualifies;
use wikiscraper::walker::WalkAction;
use wikiscraper::walker::WalkOutcome;
use wikiscraper::walker::Walker;

fn run_walk(mut w: Walker, graph: &[(&str, Vec<&str>)]) -> WalkOutcome {
    loop {
        match w.next_action() {
            WalkAction::Finished(o) => return o,
            WalkAction::Fetch(page) => {
                let entry = graph.iter().find(|(name, _)| *name == page);
                let outcome = match entry {
                    Some((_, links)) => {
                        let ls: Vec<String> = links.iter().map(|l| l.to_string()).collect();
                        w.on_fetch_result(true, &ls)
                    }
                    None => w.on_fetch_result(false, &Vec::new()),
                };
                if let Some(o) = outcome {
                    return o;
                }
            }
        }
    }
}

#[test]
fn direct_hit_reaches_without_fetch() {
    let w = Walker::new("Philosophy".to_string(), "Philosophy".to_string());
    match w.next_action() {
        WalkAction::Finished(WalkOutcome::Reached { target, steps }) => {
            assert_eq!(target, "Philosophy");
            assert_eq!(steps, 0);
        }
        _ => panic!("expected the walk to finish at once"),
    }
}

#[test]
fn self_link_detects_cycle_after_one_step() {
    let graph = [("A", vec!["A"])];
    let w = Walker::new("A".to_string(), "B".to_string());
    let mut w2 = Walker::new("A".to_string(), "B".to_string());
    match w2.next_action() {
        WalkAction::Fetch(p) => assert_eq!(p, "A"),
        _ => panic!("expected a fetch first"),
    }
    assert!(w2.on_fetch_result(true, &vec!["A".to_string()]).is_none());
    assert_eq!(w2.steps, 1);
    match run_walk(w, &graph) {
        WalkOutcome::CycleDetected { page } => assert_eq!(page, "A"),
        _ => panic!("expected a cycle"),
    }
}

#[test]
fn namespace_links_are_skipped() {
    let links = vec![
        "Help:X".to_string(),
        "Template:Y".to_string(),
        "RealArticle".to_string(),
    ];
    assert_eq!(select_first_link(&links), Some("RealArticle".to_string()));
    assert!(!qualifies(&"Help:X".to_string()));
    assert!(!qualifies(&"Template:Y".to_string()));
    assert!(qualifies(&"RealArticle".to_string()));
}

#[test]
fn namespace_only_links_are_a_dead_end() {
    let links = vec!["Help:X".to_string(), "Template:Y".to_string()];
    assert_eq!(select_first_link(&links), None);
    let graph = [("A", vec!["Help:X", "Template:Y"])];
    let w = Walker::new("A".to_string(), "B".to_string());
    match run_walk(w, &graph) {
        WalkOutcome::DeadEnd { page } => assert_eq!(page, "A"),
        _ => panic!("expected a dead end"),
    }
}

#[test]
fn missing_page_is_reported() {
    let graph = [("A", vec!["Ghost"])];
    let w = Walker::new("A".to_string(), "B".to_string());
    match run_walk(w, &graph) {
        WalkOutcome::PageNotFound { page } => assert_eq!(page, "Ghost"),
        _ => panic!("expected a missing page"),
    }
}

#[test]
fn chain_reaches_target_with_step_count() {
    let graph = [("A", vec!["B"]), ("B", vec!["C"]), ("C", vec!["D"])];
    let w = Walker::new("A".to_string(), "D".to_string());
    match run_walk(w, &graph) {
        WalkOutcome::Reached { target, steps } => {
            assert_eq!(target, "D");
            assert_eq!(steps, 3);
        }
        _ => panic!("expected to reach the target"),
    }
}

#[test]
fn endless_fresh_pages_hit_the_step_limit() {
    let mut w = Walker::new("p0".to_string(), "target".to_string());
    let mut rounds = 0usize;
    let outcome = loop {
        rounds += 1;
        assert!(rounds <= 501, "the walk did not halt within the ceiling");
        let page = match w.next_action() {
            WalkAction::Finished(o) => break o,
            WalkAction::Fetch(p) => p,
        };
        let idx: usize = page[1..].parse().unwrap();
        let links = vec![format!("p{}", idx + 1)];
        if let Some(o) = w.on_fetch_result(true, &links) {
            break o;
        }
    };
    assert!(matches!(outcome, WalkOutcome::StepLimitExceeded));
    assert_eq!(w.steps, 500);
}

#[test]
fn revisiting_an_earlier_page_is_a_cycle() {
    let graph = [("A", vec!["B"]), ("B", vec!["C"]), ("C", vec!["A"])];
    let w = Walker::new("A".to_string(), "Z".to_string());
    match run_walk(w, &graph) {
        WalkOutcome::CycleDetected { page } => assert_eq!(page, "A"),
        _ => panic!("expected a cycle"),
    }
}
