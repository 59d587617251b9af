use threat_harvester::engine::build_tasks;
use threat_harvester::engine::merge_results;
use threat_harvester::engine::AliasResolver;
use threat_harvester::engine::Engine;
use threat_harvester::engine::TaskResult;
use threat_harvester::models::Indicator;
use threat_harvester::models::IndicatorType;
use threat_harvester::models::QueryConfig;
use threat_harvester::models::ThreatEntity;
use threat_harvester::sources::MockAlienVault;
use threat_harvester::sources::MockThreatFox;
use threat_harvester::sources::ThreatSource;

fn indicator(value: &str, indicator_type: IndicatorType, source: &str, confidence: u8) -> Indicator {
    Indicator {
        value: value.to_owned(),
        indicator_type,
        source: source.to_owned(),
        first_seen: None,
        confidence_level: confidence,
        tags: Vec::new(),
    }
}

fn config(target: &str) -> QueryConfig {
    QueryConfig {
        target_name: target.to_owned(),
        target_type: ThreatEntity::MalwareFamily,
        lookback_days: 30,
    }
}

/// A feed that answers every term with one fixed domain indicator,
/// except one term on which it fails.
struct FailingFeed {
    fail_on: String,
}

impl ThreatSource for FailingFeed {
    fn name(&self) -> &str {
        "Failing Feed"
    }

    fn fetch(&self, query: &str) -> Result<Vec<Indicator>, String> {
        if query == self.fail_on {
            Err(format!("feed unavailable for {}", query))
        } else {
            Ok(vec![indicator("evil.example", IndicatorType::Domain, "Failing Feed", 70)])
        }
    }
}

/// A feed that answers every term with one fixed indicator.
struct FixedFeed {
    name: String,
    value: String,
    indicator_type: IndicatorType,
}

impl ThreatSource for FixedFeed {
    fn name(&self) -> &str {
        &self.name
    }

    fn fetch(&self, _query: &str) -> Result<Vec<Indicator>, String> {
        Ok(vec![indicator(&self.value, self.indicator_type.clone(), &self.name, 75)])
    }
}

#[test]
fn resolve_known_target_lists_all_aliases() {
    let resolver = AliasResolver::new();
    let terms = resolver.resolve("Lazarus");
    assert_eq!(terms, vec!["Hidden Cobra", "Zinc", "Lazarus"]);
}

#[test]
fn resolve_other_known_target() {
    let resolver = AliasResolver::new();
    let terms = resolver.resolve("BlackNevas");
    assert_eq!(terms, vec!["Trigona", "BlackNevas"]);
}

#[test]
fn resolve_unknown_target_falls_back_to_identity() {
    let resolver = AliasResolver::new();
    let terms = resolver.resolve("NoSuchActor");
    assert_eq!(terms, vec!["NoSuchActor"]);
}

#[test]
fn resolve_appends_target_when_entry_omits_it() {
    let resolver = AliasResolver::from_entries(vec![(
        "APT1".to_owned(),
        vec!["Comment Crew".to_owned()],
    )]);
    let terms = resolver.resolve("APT1");
    assert_eq!(terms, vec!["Comment Crew", "APT1"]);
}

#[test]
fn resolve_is_case_sensitive() {
    let resolver = AliasResolver::new();
    let terms = resolver.resolve("lazarus");
    assert_eq!(terms, vec!["lazarus"]);
}

#[test]
fn expand_terms_removes_duplicates_keeping_first_occurrence() {
    let resolver = AliasResolver::from_entries(vec![(
        "A".to_owned(),
        vec!["B".to_owned(), "A".to_owned(), "B".to_owned()],
    )]);
    let terms = threat_harvester::engine::expand_terms(&resolver, "A");
    assert_eq!(terms, vec!["B", "A"]);
}

#[test]
fn fan_out_is_feed_major_term_minor() {
    let sources = vec!["FeedA".to_owned(), "FeedB".to_owned()];
    let terms = vec!["x".to_owned(), "y".to_owned(), "z".to_owned()];
    let tasks = build_tasks(&sources, &terms);
    assert_eq!(tasks.len(), 6);
    let pairs: Vec<(&str, &str)> =
        tasks.iter().map(|t| (t.source.as_str(), t.term.as_str())).collect();
    assert_eq!(
        pairs,
        vec![
            ("FeedA", "x"),
            ("FeedA", "y"),
            ("FeedA", "z"),
            ("FeedB", "x"),
            ("FeedB", "y"),
            ("FeedB", "z"),
        ]
    );
}

#[test]
fn fan_out_with_no_feeds_is_empty() {
    let sources: Vec<String> = Vec::new();
    let terms = vec!["x".to_owned()];
    let tasks = build_tasks(&sources, &terms);
    assert_eq!(tasks.len(), 0);
}

#[test]
fn merge_keeps_first_of_two_indicators_with_one_key() {
    let first = indicator("203.0.113.5", IndicatorType::IPv4, "FeedA", 80);
    let second = indicator("203.0.113.5", IndicatorType::IPv4, "FeedB", 20);
    let outcomes = vec![
        TaskResult {
            source: "FeedA".to_owned(),
            term: "t".to_owned(),
            outcome: Ok(vec![first]),
        },
        TaskResult {
            source: "FeedB".to_owned(),
            term: "t".to_owned(),
            outcome: Ok(vec![second]),
        },
    ];
    let (indicators, failures) = merge_results(outcomes);
    assert_eq!(indicators.len(), 1);
    assert_eq!(indicators[0].source, "FeedA");
    assert_eq!(indicators[0].confidence_level, 80);
    assert!(failures.is_empty());
}

#[test]
fn merge_distinguishes_value_and_type() {
    let by_value = indicator("a.example", IndicatorType::Domain, "FeedA", 50);
    let by_type = indicator("a.example", IndicatorType::URL, "FeedA", 50);
    let outcomes = vec![TaskResult {
        source: "FeedA".to_owned(),
        term: "t".to_owned(),
        outcome: Ok(vec![by_value, by_type]),
    }];
    let (indicators, _) = merge_results(outcomes);
    assert_eq!(indicators.len(), 2);
}

#[test]
fn merge_twice_yields_the_same_list() {
    let outcomes = vec![
        TaskResult {
            source: "FeedA".to_owned(),
            term: "t".to_owned(),
            outcome: Ok(vec![
                indicator("203.0.113.5", IndicatorType::IPv4, "FeedA", 80),
                indicator("evil.example", IndicatorType::Domain, "FeedA", 60),
                indicator("203.0.113.5", IndicatorType::IPv4, "FeedA", 10),
            ]),
        },
    ];
    let (once, _) = merge_results(outcomes);
    let again = vec![TaskResult {
        source: "FeedA".to_owned(),
        term: "t".to_owned(),
        outcome: Ok(once.clone()),
    }];
    let (twice, _) = merge_results(again);
    assert_eq!(once.len(), twice.len());
    for (a, b) in once.iter().zip(twice.iter()) {
        assert_eq!(a.value, b.value);
        assert_eq!(a.source, b.source);
        assert_eq!(a.confidence_level, b.confidence_level);
    }
}

#[test]
fn merge_does_not_short_circuit_on_failure() {
    let outcomes = vec![
        TaskResult {
            source: "FeedA".to_owned(),
            term: "t".to_owned(),
            outcome: Ok(vec![indicator("203.0.113.5", IndicatorType::IPv4, "FeedA", 80)]),
        },
        TaskResult {
            source: "FeedB".to_owned(),
            term: "t".to_owned(),
            outcome: Err("boom".to_owned()),
        },
        TaskResult {
            source: "FeedC".to_owned(),
            term: "t".to_owned(),
            outcome: Ok(vec![indicator("evil.example", IndicatorType::Domain, "FeedC", 60)]),
        },
    ];
    let (indicators, failures) = merge_results(outcomes);
    assert_eq!(indicators.len(), 2);
    assert_eq!(indicators[0].value, "203.0.113.5");
    assert_eq!(indicators[1].value, "evil.example");
    assert_eq!(failures.len(), 1);
    assert_eq!(failures[0].source, "FeedB");
    assert_eq!(failures[0].term, "t");
    assert_eq!(failures[0].detail, "boom");
}

#[test]
fn run_with_zero_feeds_returns_empty_result_and_no_failures() {
    let engine = Engine::new(Vec::new());
    let (indicators, failures) = engine.run(&config("X"));
    assert!(indicators.is_empty());
    assert!(failures.is_empty());
}

#[test]
fn run_collapses_all_terms_per_feed() {
    let sources: Vec<Box<dyn ThreatSource>> =
        vec![Box::new(MockAlienVault), Box::new(MockThreatFox)];
    let engine = Engine::new(sources);
    let (indicators, failures) = engine.run(&config("Lazarus"));
    assert_eq!(indicators.len(), 2);
    assert_eq!(indicators[0].value, "192.168.1.100");
    assert!(matches!(indicators[0].indicator_type, IndicatorType::IPv4));
    assert_eq!(indicators[0].source, "AlienVault OTX (Mock)");
    assert_eq!(indicators[1].value, "malicious-domain.com");
    assert!(matches!(indicators[1].indicator_type, IndicatorType::Domain));
    assert_eq!(indicators[1].source, "ThreatFox (Mock)");
    assert!(failures.is_empty());
    // the kept indicator of each feed is the one its first term produced
    assert_eq!(indicators[0].tags, vec!["Hidden Cobra", "C2"]);
}

#[test]
fn three_terms_and_two_feeds_collapse_to_two_indicators() {
    let sources: Vec<Box<dyn ThreatSource>> = vec![
        Box::new(FixedFeed {
            name: "FeedA".to_owned(),
            value: "203.0.113.5".to_owned(),
            indicator_type: IndicatorType::IPv4,
        }),
        Box::new(FixedFeed {
            name: "FeedB".to_owned(),
            value: "evil.example".to_owned(),
            indicator_type: IndicatorType::Domain,
        }),
    ];
    let resolver = AliasResolver::from_entries(vec![(
        "Lazarus".to_owned(),
        vec!["Hidden Cobra".to_owned(), "Zinc".to_owned(), "Lazarus".to_owned()],
    )]);
    let engine = Engine::with_resolver(sources, resolver);
    let (indicators, failures) = engine.run(&config("Lazarus"));
    // six fetches were issued, but all three terms collapse per feed
    assert_eq!(indicators.len(), 2);
    assert_eq!(indicators[0].value, "203.0.113.5");
    assert!(matches!(indicators[0].indicator_type, IndicatorType::IPv4));
    assert_eq!(indicators[1].value, "evil.example");
    assert!(matches!(indicators[1].indicator_type, IndicatorType::Domain));
    assert!(failures.is_empty());
}

#[test]
fn run_keeps_results_when_one_term_of_one_feed_fails() {
    let sources: Vec<Box<dyn ThreatSource>> = vec![
        Box::new(MockAlienVault),
        Box::new(FailingFeed { fail_on: "Zinc".to_owned() }),
    ];
    let engine = Engine::new(sources);
    let (indicators, failures) = engine.run(&config("Lazarus"));
    assert_eq!(indicators.len(), 2);
    assert_eq!(indicators[0].value, "192.168.1.100");
    assert_eq!(indicators[1].value, "evil.example");
    assert!(matches!(indicators[1].indicator_type, IndicatorType::Domain));
    assert_eq!(failures.len(), 1);
    assert_eq!(failures[0].source, "Failing Feed");
    assert_eq!(failures[0].term, "Zinc");
}

#[test]
fn run_with_all_tasks_failing_returns_empty_list_and_every_failure() {
    let sources: Vec<Box<dyn ThreatSource>> = vec![
        Box::new(FailingFeed { fail_on: "X".to_owned() }),
        Box::new(FailingFeed { fail_on: "X".to_owned() }),
    ];
    let engine = Engine::new(sources);
    let (indicators, failures) = engine.run(&config("X"));
    assert!(indicators.is_empty());
    assert_eq!(failures.len(), 2);
}

#[test]
fn mock_feeds_tag_with_the_query_term() {
    let answer = MockAlienVault.fetch("Lazarus").unwrap();
    assert_eq!(answer.len(), 1);
    assert_eq!(answer[0].value, "192.168.1.100");
    assert_eq!(answer[0].confidence_level, 80);
    assert_eq!(answer[0].first_seen.as_deref(), Some("2023-10-01"));
    assert_eq!(answer[0].tags, vec!["Lazarus", "C2"]);
    let answer = MockThreatFox.fetch("Zinc").unwrap();
    assert_eq!(answer.len(), 1);
    assert_eq!(answer[0].value, "malicious-domain.com");
    assert_eq!(answer[0].confidence_level, 90);
    assert_eq!(answer[0].first_seen.as_deref(), Some("2023-10-05"));
    assert_eq!(answer[0].tags, vec!["Zinc", "Botnet"]);
    assert_eq!(MockAlienVault.name(), "AlienVault OTX (Mock)");
    assert_eq!(MockThreatFox.name(), "ThreatFox (Mock)");
}
