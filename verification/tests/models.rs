use threat_harvester::models::Indicator;
use threat_harvester::models::IndicatorType;

fn indicator(value: &str, indicator_type: IndicatorType) -> Indicator {
    Indicator {
        value: value.to_owned(),
        indicator_type,
        source: "Feed".to_owned(),
        first_seen: None,
        confidence_level: 50,
        tags: Vec::new(),
    }
}

#[test]
fn same_type_distinguishes_variants() {
    assert!(IndicatorType::IPv4.same_type(&IndicatorType::IPv4));
    assert!(!IndicatorType::IPv4.same_type(&IndicatorType::IPv6));
    assert!(!IndicatorType::SHA256.same_type(&IndicatorType::MD5));
    assert!(!IndicatorType::Domain.same_type(&IndicatorType::URL));
}

#[test]
fn same_type_compares_other_labels_by_content() {
    let a = IndicatorType::Other("ja3".to_owned());
    let b = IndicatorType::Other("ja3".to_owned());
    let c = IndicatorType::Other("ssdeep".to_owned());
    assert!(a.same_type(&b));
    assert!(!a.same_type(&c));
    assert!(!a.same_type(&IndicatorType::Domain));
}

#[test]
fn same_key_ignores_source_and_confidence() {
    let mut a = indicator("203.0.113.5", IndicatorType::IPv4);
    let mut b = indicator("203.0.113.5", IndicatorType::IPv4);
    a.source = "FeedA".to_owned();
    a.confidence_level = 10;
    b.source = "FeedB".to_owned();
    b.confidence_level = 90;
    assert!(a.same_key(&b));
}

#[test]
fn same_key_distinguishes_value_and_type() {
    let a = indicator("203.0.113.5", IndicatorType::IPv4);
    let b = indicator("203.0.113.6", IndicatorType::IPv4);
    let c = indicator("203.0.113.5", IndicatorType::Domain);
    assert!(!a.same_key(&b));
    assert!(!a.same_key(&c));
}
