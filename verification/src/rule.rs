//! Traffic rules: what is limited, how far, and whether the limit adapts.
//!
//! Rates and speeds are counted throughout the crate in thirds of a millionth of a byte per second,
//! so that limits, sums, comparisons, and averages of up to six byte counts are exact.

use vstd::prelude::*;

verus! {

/// One byte per second.
pub const BYTE_PER_SEC: u64 = 3_000_000;

/// Which way traffic flows.
#[derive(Debug, Clone, Copy, PartialEq, Eq, Hash, Structural)]
pub enum Direction {
    Download,
    Upload,
}

impl Direction {
    pub fn is_upload(self) -> (r: bool)
        ensures
            r == (self == Direction::Upload),
    {
        match self {
            Direction::Upload => true,
            Direction::Download => false,
        }
    }
}

/// What applies to one process, to a group of processes, or to all traffic.
#[derive(Debug, Clone, Copy, PartialEq, Eq, Structural)]
pub struct ProcessRule {
    pub block_all: bool,
    pub limit_download: bool,
    pub download_kbps: u32,
    pub limit_upload: bool,
    pub upload_kbps: u32,
    pub adaptive: bool,
    pub adjusted_dl_bps: u64,
    pub adjusted_ul_bps: u64,
}

/// The rule for all traffic.
pub type GlobalRule = ProcessRule;

impl Default for ProcessRule {
    fn default() -> (r: Self)
        ensures
            r == ProcessRule::none(),
    {
        ProcessRule {
            block_all: false,
            limit_download: false,
            download_kbps: 0,
            limit_upload: false,
            upload_kbps: 0,
            adaptive: false,
            adjusted_dl_bps: 0,
            adjusted_ul_bps: 0,
        }
    }
}

impl ProcessRule {
    /// The rule that changes nothing.
    pub open spec fn none() -> ProcessRule {
        ProcessRule {
            block_all: false,
            limit_download: false,
            download_kbps: 0,
            limit_upload: false,
            upload_kbps: 0,
            adaptive: false,
            adjusted_dl_bps: 0,
            adjusted_ul_bps: 0,
        }
    }

    /// Whether the rule holds anything that the user set; a limit that is only a draft
    /// counts.
    pub open spec fn any(self) -> bool {
        ||| self.block_all
        ||| self.limit_download
        ||| self.download_kbps > 0
        ||| self.limit_upload
        ||| self.upload_kbps > 0
        ||| self.adaptive
    }

    /// The limit that is switched on for `direction`, as a rate.
    pub open spec fn target(self, direction: Direction) -> Option<u64> {
        match direction {
            Direction::Download => if self.limit_download && self.download_kbps > 0 {
                Some((self.download_kbps * 1024 * BYTE_PER_SEC) as u64)
            } else {
                None
            },
            Direction::Upload => if self.limit_upload && self.upload_kbps > 0 {
                Some((self.upload_kbps * 1024 * BYTE_PER_SEC) as u64)
            } else {
                None
            },
        }
    }

    /// The adjusted rate for `direction`; 0 while there is none.
    pub open spec fn adjusted(self, direction: Direction) -> u64 {
        match direction {
            Direction::Download => self.adjusted_dl_bps,
            Direction::Upload => self.adjusted_ul_bps,
        }
    }

    /// The rule with another adjusted rate for `direction`.
    pub open spec fn with_adjusted(self, direction: Direction, rate: u64) -> ProcessRule {
        match direction {
            Direction::Download => ProcessRule { adjusted_dl_bps: rate, ..self },
            Direction::Upload => ProcessRule { adjusted_ul_bps: rate, ..self },
        }
    }

    /// The rate that traffic is held to: the adjusted one where the rule adapts and has one,
    /// the limit itself otherwise, and nothing where no limit is switched on.
    pub open spec fn effective(self, direction: Direction) -> Option<u64> {
        match self.target(direction) {
            None => None,
            Some(t) => if self.adaptive && self.adjusted(direction) > 0 {
                Some(self.adjusted(direction))
            } else {
                Some(t)
            },
        }
    }

    pub fn has_any_rule(&self) -> (r: bool)
        ensures
            r == self.any(),
    {
        self.block_all || self.limit_download || self.download_kbps > 0 || self.limit_upload
            || self.upload_kbps > 0 || self.adaptive
    }

    pub fn target_bps(&self, direction: Direction) -> (r: Option<u64>)
        ensures
            r == self.target(direction),
    {
        match direction {
            Direction::Download => if self.limit_download && self.download_kbps > 0 {
                Some(self.download_kbps as u64 * 1024 * BYTE_PER_SEC)
            } else {
                None
            },
            Direction::Upload => if self.limit_upload && self.upload_kbps > 0 {
                Some(self.upload_kbps as u64 * 1024 * BYTE_PER_SEC)
            } else {
                None
            },
        }
    }

    pub fn effective_bps(&self, direction: Direction) -> (r: Option<u64>)
        ensures
            r == self.effective(direction),
    {
        match self.target_bps(direction) {
            None => None,
            Some(target) => {
                if !self.adaptive {
                    return Some(target);
                }
                let adjusted: u64 = match direction {
                    Direction::Download => self.adjusted_dl_bps,
                    Direction::Upload => self.adjusted_ul_bps,
                };
                Some(
                    if adjusted > 0 {
                        adjusted
                    } else {
                        target
                    },
                )
            },
        }
    }
}

/// The rule as the limiter applies it: limits whose switch is off are left out, and a rule
/// that limits nothing does not adapt.
pub open spec fn runtime(rule: ProcessRule) -> ProcessRule {
    let a = if rule.limit_download {
        rule
    } else {
        ProcessRule { download_kbps: 0, adjusted_dl_bps: 0, ..rule }
    };
    let b = if rule.limit_upload {
        a
    } else {
        ProcessRule { upload_kbps: 0, adjusted_ul_bps: 0, ..a }
    };
    if b.target(Direction::Download) is None && b.target(Direction::Upload) is None {
        ProcessRule { adaptive: false, adjusted_dl_bps: 0, adjusted_ul_bps: 0, ..b }
    } else {
        b
    }
}

pub fn runtime_rule(rule: &ProcessRule) -> (r: ProcessRule)
    ensures
        r == runtime(*rule),
{
    let mut out: ProcessRule = *rule;
    if !out.limit_download {
        out.download_kbps = 0;
        out.adjusted_dl_bps = 0;
    }
    if !out.limit_upload {
        out.upload_kbps = 0;
        out.adjusted_ul_bps = 0;
    }
    if out.target_bps(Direction::Download).is_none() && out.target_bps(
        Direction::Upload,
    ).is_none() {
        out.adaptive = false;
        out.adjusted_dl_bps = 0;
        out.adjusted_ul_bps = 0;
    }
    out
}

/// A limit value alone is a draft: until its switch is on, it limits nothing.
pub proof fn drafts_do_not_limit(rule: ProcessRule)
    ensures
        !rule.limit_download ==> rule.effective(Direction::Download) is None && runtime(
            rule,
        ).download_kbps == 0,
        !rule.limit_upload ==> rule.effective(Direction::Upload) is None && runtime(
            rule,
        ).upload_kbps == 0,
{
}

/// Leaving drafts out changes neither what is blocked nor the rate that traffic is held to.
pub proof fn runtime_rule_limits_alike(rule: ProcessRule, direction: Direction)
    ensures
        runtime(rule).block_all == rule.block_all,
        runtime(rule).target(direction) == rule.target(direction),
        runtime(rule).effective(direction) == rule.effective(direction),
{
}

/// Leaving drafts out twice is leaving them out once.
pub proof fn runtime_rule_is_stable(rule: ProcessRule)
    ensures
        runtime(runtime(rule)) == runtime(rule),
{
}

/// A rule that limits or blocks anything counts as one.
pub proof fn limiting_rules_count(rule: ProcessRule, direction: Direction)
    requires
        rule.block_all || rule.effective(direction) is Some,
    ensures
        rule.any(),
        runtime(rule).any(),
{
}

/// A limit is a number of KiB in every second: it holds where its switch is on and it is not zero,
/// and then amounts to 1024 bytes for each, whatever else the rule says.
pub proof fn limits_are_kibibytes(rule: ProcessRule)
    ensures
        rule.target(Direction::Download) is Some == (rule.limit_download && rule.download_kbps > 0),
        rule.target(Direction::Upload) is Some == (rule.limit_upload && rule.upload_kbps > 0),
        rule.target(Direction::Download) matches Some(t) ==> t == rule.download_kbps
            * 3_072_000_000,
        rule.target(Direction::Upload) matches Some(t) ==> t == rule.upload_kbps * 3_072_000_000,
{
}

/// Traffic is held to a rate just where a limit is on: to the adjusted rate of its direction where
/// the rule adapts and has one, and to the limit itself in all other cases.
pub proof fn adjusted_rates_stand_in_for_limits(rule: ProcessRule)
    ensures
        rule.effective(Direction::Download) is Some == (rule.limit_download && rule.download_kbps
            > 0),
        rule.effective(Direction::Upload) is Some == (rule.limit_upload && rule.upload_kbps > 0),
        rule.effective(Direction::Download) matches Some(r) ==> if rule.adaptive
            && rule.adjusted_dl_bps > 0 {
            r == rule.adjusted_dl_bps
        } else {
            r == rule.download_kbps * 3_072_000_000
        },
        rule.effective(Direction::Upload) matches Some(r) ==> if rule.adaptive
            && rule.adjusted_ul_bps > 0 {
            r == rule.adjusted_ul_bps
        } else {
            r == rule.upload_kbps * 3_072_000_000
        },
{
}

/// A rule counts just where it differs from the rule that changes nothing in something other than
/// an adjusted rate.
pub proof fn rules_count_where_they_differ_from_none(rule: ProcessRule)
    ensures
        rule.any() == ((ProcessRule { adjusted_dl_bps: 0, adjusted_ul_bps: 0, ..rule }) != (
        ProcessRule {
            block_all: false,
            limit_download: false,
            download_kbps: 0,
            limit_upload: false,
            upload_kbps: 0,
            adaptive: false,
            adjusted_dl_bps: 0,
            adjusted_ul_bps: 0,
        })),
{
}

/// Leaving drafts out keeps every limit that is on, with its adjusted rate, and keeps a rule that
/// limits anything adapting.
pub proof fn runtime_rule_keeps_what_is_on(rule: ProcessRule)
    ensures
        runtime(rule).limit_download == rule.limit_download,
        runtime(rule).limit_upload == rule.limit_upload,
        runtime(rule).download_kbps == if rule.limit_download {
            rule.download_kbps
        } else {
            0
        },
        runtime(rule).upload_kbps == if rule.limit_upload {
            rule.upload_kbps
        } else {
            0
        },
        rule.limit_download && rule.download_kbps > 0 ==> runtime(rule).adaptive == rule.adaptive
            && runtime(rule).adjusted_dl_bps == rule.adjusted_dl_bps,
        rule.limit_upload && rule.upload_kbps > 0 ==> runtime(rule).adaptive == rule.adaptive
            && runtime(rule).adjusted_ul_bps == rule.adjusted_ul_bps,
        !(rule.limit_download && rule.download_kbps > 0) && !(rule.limit_upload && rule.upload_kbps
            > 0) ==> !runtime(rule).adaptive && runtime(rule).adjusted_dl_bps == 0 && runtime(
            rule,
        ).adjusted_ul_bps == 0,
{
}

} // verus!
