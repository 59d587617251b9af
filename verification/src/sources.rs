//! The feed capability interface and two built-in mock feeds.

use vstd::prelude::*;

use crate::models::Indicator;
use crate::models::IndicatorType;

verus! {

/// An external source of indicators. A feed is queried with one search
/// term and answers with a list of indicators or a descriptive failure;
/// nothing is promised of the answer, so the engine must cope with any
/// outcome.
pub trait ThreatSource {
    /// Returns the name of the source.
    fn name(&self) -> (r: &str);

    /// Fetches indicators based on the query string.
    fn fetch(&self, query: &str) -> (r: Result<Vec<Indicator>, String>);
}

/// A stand-in feed that always answers with one fixed IPv4 indicator.
pub struct MockAlienVault;

impl MockAlienVault {
    /// The one indicator this mock returns, tagged with the query term.
    pub fn sample_indicator(query: &str) -> (r: Indicator)
        ensures
            r.value@ == "192.168.1.100"@,
            r.indicator_type@ is IPv4,
            r.source@ == "AlienVault OTX (Mock)"@,
            r.first_seen matches Some(d) && d@ == "2023-10-01"@,
            r.confidence_level == 80,
            r.tags.deep_view() == seq![query@, "C2"@],
    {
        let mut tags: Vec<String> = Vec::new();
        tags.push(query.to_owned());
        tags.push("C2".to_owned());
        proof {
            assert(tags.deep_view() =~= seq![query@, "C2"@]);
        }
        Indicator {
            value: "192.168.1.100".to_owned(),
            indicator_type: IndicatorType::IPv4,
            source: "AlienVault OTX (Mock)".to_owned(),
            first_seen: Some("2023-10-01".to_owned()),
            confidence_level: 80,
            tags,
        }
    }
}

impl ThreatSource for MockAlienVault {
    fn name(&self) -> (r: &str)
        ensures
            r@ == "AlienVault OTX (Mock)"@,
    {
        "AlienVault OTX (Mock)"
    }

    /// Always succeeds, with exactly the one sample indicator.
    fn fetch(&self, query: &str) -> (r: Result<Vec<Indicator>, String>)
        ensures
            r matches Ok(list) && {
                &&& list@.len() == 1
                &&& list@[0].value@ == "192.168.1.100"@
                &&& list@[0].indicator_type@ is IPv4
                &&& list@[0].source@ == "AlienVault OTX (Mock)"@
                &&& list@[0].first_seen matches Some(d) && d@ == "2023-10-01"@
                &&& list@[0].confidence_level == 80
                &&& list@[0].tags.deep_view() == seq![query@, "C2"@]
            },
    {
        let mut list: Vec<Indicator> = Vec::new();
        list.push(Self::sample_indicator(query));
        Ok(list)
    }
}

/// A stand-in feed that always answers with one fixed domain indicator.
pub struct MockThreatFox;

impl MockThreatFox {
    /// The one indicator this mock returns, tagged with the query term.
    pub fn sample_indicator(query: &str) -> (r: Indicator)
        ensures
            r.value@ == "malicious-domain.com"@,
            r.indicator_type@ is Domain,
            r.source@ == "ThreatFox (Mock)"@,
            r.first_seen matches Some(d) && d@ == "2023-10-05"@,
            r.confidence_level == 90,
            r.tags.deep_view() == seq![query@, "Botnet"@],
    {
        let mut tags: Vec<String> = Vec::new();
        tags.push(query.to_owned());
        tags.push("Botnet".to_owned());
        proof {
            assert(tags.deep_view() =~= seq![query@, "Botnet"@]);
        }
        Indicator {
            value: "malicious-domain.com".to_owned(),
            indicator_type: IndicatorType::Domain,
            source: "ThreatFox (Mock)".to_owned(),
            first_seen: Some("2023-10-05".to_owned()),
            confidence_level: 90,
            tags,
        }
    }
}

impl ThreatSource for MockThreatFox {
    fn name(&self) -> (r: &str)
        ensures
            r@ == "ThreatFox (Mock)"@,
    {
        "ThreatFox (Mock)"
    }

    /// Always succeeds, with exactly the one sample indicator.
    fn fetch(&self, query: &str) -> (r: Result<Vec<Indicator>, String>)
        ensures
            r matches Ok(list) && {
                &&& list@.len() == 1
                &&& list@[0].value@ == "malicious-domain.com"@
                &&& list@[0].indicator_type@ is Domain
                &&& list@[0].source@ == "ThreatFox (Mock)"@
                &&& list@[0].first_seen matches Some(d) && d@ == "2023-10-05"@
                &&& list@[0].confidence_level == 90
                &&& list@[0].tags.deep_view() == seq![query@, "Botnet"@]
            },
    {
        let mut list: Vec<Indicator> = Vec::new();
        list.push(Self::sample_indicator(query));
        Ok(list)
    }
}

} // verus!
