//! Data model: indicators, their type tags, and the per-run query
//! configuration.

use vstd::prelude::*;

verus! {

/// The closed tag set for observable artifacts, with an open `Other`
/// variant for extensibility.
#[derive(Debug, Clone)]
pub enum IndicatorType {
    IPv4,
    IPv6,
    Domain,
    URL,
    SHA256,
    MD5,
    Other(String),
}

/// Mathematical image of an `IndicatorType`: the `Other` label is a
/// character sequence, so that equality is by content.
pub ghost enum IndicatorTypeView {
    IPv4,
    IPv6,
    Domain,
    URL,
    SHA256,
    MD5,
    Other(Seq<char>),
}

impl View for IndicatorType {
    type V = IndicatorTypeView;

    open spec fn view(&self) -> IndicatorTypeView {
        match self {
            IndicatorType::IPv4 => IndicatorTypeView::IPv4,
            IndicatorType::IPv6 => IndicatorTypeView::IPv6,
            IndicatorType::Domain => IndicatorTypeView::Domain,
            IndicatorType::URL => IndicatorTypeView::URL,
            IndicatorType::SHA256 => IndicatorTypeView::SHA256,
            IndicatorType::MD5 => IndicatorTypeView::MD5,
            IndicatorType::Other(label) => IndicatorTypeView::Other(label@),
        }
    }
}

impl IndicatorType {
    /// Content equality on type tags: `Other` labels compare by their
    /// characters.
    pub fn same_type(&self, other: &IndicatorType) -> (r: bool)
        ensures
            r == (self@ == other@),
    {
        match self {
            IndicatorType::IPv4 => match other {
                IndicatorType::IPv4 => true,
                _ => false,
            },
            IndicatorType::IPv6 => match other {
                IndicatorType::IPv6 => true,
                _ => false,
            },
            IndicatorType::Domain => match other {
                IndicatorType::Domain => true,
                _ => false,
            },
            IndicatorType::URL => match other {
                IndicatorType::URL => true,
                _ => false,
            },
            IndicatorType::SHA256 => match other {
                IndicatorType::SHA256 => true,
                _ => false,
            },
            IndicatorType::MD5 => match other {
                IndicatorType::MD5 => true,
                _ => false,
            },
            IndicatorType::Other(a) => match other {
                IndicatorType::Other(b) => *a == *b,
                _ => false,
            },
        }
    }
}

/// The kind of entity a query is about.
#[derive(Debug, Clone, PartialEq, Eq, Structural)]
pub enum ThreatEntity {
    Actor,
    MalwareFamily,
    Campaign,
}

/// A single observable artifact of threat activity. The engine never
/// mutates an indicator; it only decides whether to keep or discard a
/// duplicate.
#[derive(Debug, Clone)]
pub struct Indicator {
    pub value: String,
    pub indicator_type: IndicatorType,
    pub source: String,
    pub first_seen: Option<String>,
    pub confidence_level: u8,
    pub tags: Vec<String>,
}

/// The deduplication key of an indicator: the pair (value, type), by
/// content. Two indicators with the same key are the same real-world
/// observable, whatever feed or term produced them.
pub open spec fn dedup_key(i: Indicator) -> (Seq<char>, IndicatorTypeView) {
    (i.value@, i.indicator_type@)
}

impl Indicator {
    /// Whether two indicators share a deduplication key.
    pub fn same_key(&self, other: &Indicator) -> (r: bool)
        ensures
            r == (dedup_key(*self) == dedup_key(*other)),
    {
        self.value == other.value && self.indicator_type.same_type(&other.indicator_type)
    }
}

/// The input to one engine run.
pub struct QueryConfig {
    pub target_name: String,
    pub target_type: ThreatEntity,
    pub lookback_days: u32,
}

} // verus!
