//! The records kept by the registry.
use vstd::prelude::*;
use crate::index::opt_view;
use crate::text::{copy_opt_string, copy_opt_strings, copy_strings};

verus! {

/// An address reported as spam.
pub struct Spam {
    pub address: String,
    pub profile: SpamProfile,
    pub tags: Vec<String>,
    pub is_forgiven: bool,
    pub report_count: u32,
}

pub struct SpamProfile {
    pub is_contract: bool,
    pub name: Option<String>,
    pub description: Option<String>,
    pub image_url: Option<String>,
    pub url: Option<String>,
}

/// An address allowed to file reports.
pub struct Reporter {
    pub address: Option<String>,
    pub name: String,
    pub description: Option<String>,
    pub url: Option<Vec<String>>,
}

/// The block a report was filed in; `time` is in nanoseconds.
pub struct BlockInfo {
    pub height: u64,
    pub time: u64,
    pub chain_id: String,
}

/// One reporter's report against one address.
pub struct Report {
    pub address: String,
    pub reported_at: u64,
    pub reported_by: Option<String>,
    pub tags: Vec<String>,
    pub comment: Option<String>,
    pub tx_hashes: Option<Vec<String>>,
    pub block: BlockInfo,
}

/// One appellant's appeal for one address, accepted one reporter at a time.
pub struct Appeal {
    pub address: String,
    pub appealed_by: Option<String>,
    pub accepted_by: Vec<String>,
    pub reported_by: Vec<String>,
    pub argument: String,
}

pub struct Endorsement {
    pub address: String,
    pub comment: Option<String>,
    pub tx_hashes: Option<Vec<String>>,
}

/// A spam record as mathematical values.
pub struct SpamView {
    pub address: Seq<char>,
    pub is_contract: bool,
    pub name: Option<Seq<char>>,
    pub description: Option<Seq<char>>,
    pub image_url: Option<Seq<char>>,
    pub url: Option<Seq<char>>,
    pub tags: Seq<Seq<char>>,
    pub is_forgiven: bool,
    pub report_count: u32,
}

impl View for Spam {
    type V = SpamView;

    open spec fn view(&self) -> SpamView {
        SpamView {
            address: self.address@,
            is_contract: self.profile.is_contract,
            name: opt_view(&self.profile.name),
            description: opt_view(&self.profile.description),
            image_url: opt_view(&self.profile.image_url),
            url: opt_view(&self.profile.url),
            tags: self.tags.deep_view(),
            is_forgiven: self.is_forgiven,
            report_count: self.report_count,
        }
    }
}

/// A report as mathematical values.
pub struct ReportView {
    pub address: Seq<char>,
    pub reported_at: u64,
    pub reported_by: Option<Seq<char>>,
    pub tags: Seq<Seq<char>>,
    pub comment: Option<Seq<char>>,
    pub tx_hashes: Option<Seq<Seq<char>>>,
    pub height: u64,
    pub time: u64,
    pub chain_id: Seq<char>,
}

impl View for Report {
    type V = ReportView;

    open spec fn view(&self) -> ReportView {
        ReportView {
            address: self.address@,
            reported_at: self.reported_at,
            reported_by: opt_view(&self.reported_by),
            tags: self.tags.deep_view(),
            comment: opt_view(&self.comment),
            tx_hashes: self.tx_hashes.deep_view(),
            height: self.block.height,
            time: self.block.time,
            chain_id: self.block.chain_id@,
        }
    }
}

/// An appeal as mathematical values.
pub struct AppealView {
    pub address: Seq<char>,
    pub appealed_by: Option<Seq<char>>,
    pub accepted_by: Seq<Seq<char>>,
    pub reported_by: Seq<Seq<char>>,
    pub argument: Seq<char>,
}

impl View for Appeal {
    type V = AppealView;

    open spec fn view(&self) -> AppealView {
        AppealView {
            address: self.address@,
            appealed_by: opt_view(&self.appealed_by),
            accepted_by: self.accepted_by.deep_view(),
            reported_by: self.reported_by.deep_view(),
            argument: self.argument@,
        }
    }
}

/// Is `s` one of the strings in `v`?
pub fn contains_str(v: &Vec<String>, s: &String) -> (r: bool)
    ensures
        r == v.deep_view().contains(s@),
{
    let mut i: usize = 0;
    while i < v.len()
        invariant
            i <= v.len(),
            forall|j: int| 0 <= j < i ==> v.deep_view()[j] != s@,
        decreases v.len() - i,
    {
        if v[i] == *s {
            assert(v.deep_view()[i as int] == s@);
            return true;
        }
        i = i + 1;
    }
    false
}

impl SpamProfile {
    /// A profile with no descriptive fields set.
    pub fn new(is_contract: bool) -> (r: Self)
        ensures
            r.is_contract == is_contract,
            r.name.is_none(),
            r.description.is_none(),
            r.image_url.is_none(),
            r.url.is_none(),
    {
        SpamProfile { is_contract, name: None, description: None, image_url: None, url: None }
    }

    pub fn copy(&self) -> (r: Self)
        ensures
            r.is_contract == self.is_contract,
            opt_view(&r.name) == opt_view(&self.name),
            opt_view(&r.description) == opt_view(&self.description),
            opt_view(&r.image_url) == opt_view(&self.image_url),
            opt_view(&r.url) == opt_view(&self.url),
    {
        SpamProfile {
            is_contract: self.is_contract,
            name: copy_opt_string(&self.name),
            description: copy_opt_string(&self.description),
            image_url: copy_opt_string(&self.image_url),
            url: copy_opt_string(&self.url),
        }
    }
}

impl Spam {
    pub fn copy(&self) -> (r: Self)
        ensures
            r@ == self@,
    {
        Spam {
            address: self.address.clone(),
            profile: self.profile.copy(),
            tags: copy_strings(&self.tags),
            is_forgiven: self.is_forgiven,
            report_count: self.report_count,
        }
    }
}

impl BlockInfo {
    pub fn copy(&self) -> (r: Self)
        ensures
            r.height == self.height,
            r.time == self.time,
            r.chain_id@ == self.chain_id@,
    {
        BlockInfo { height: self.height, time: self.time, chain_id: self.chain_id.clone() }
    }
}

impl Report {
    pub fn copy(&self) -> (r: Self)
        ensures
            r@ == self@,
    {
        Report {
            address: self.address.clone(),
            reported_at: self.reported_at,
            reported_by: copy_opt_string(&self.reported_by),
            tags: copy_strings(&self.tags),
            comment: copy_opt_string(&self.comment),
            tx_hashes: copy_opt_strings(&self.tx_hashes),
            block: self.block.copy(),
        }
    }
}

impl Appeal {
    pub fn copy(&self) -> (r: Self)
        ensures
            r@ == self@,
    {
        Appeal {
            address: self.address.clone(),
            appealed_by: copy_opt_string(&self.appealed_by),
            accepted_by: copy_strings(&self.accepted_by),
            reported_by: copy_strings(&self.reported_by),
            argument: self.argument.clone(),
        }
    }

    /// Records `reporter`'s acceptance. Only a reporter of the snapshot that
    /// has not accepted yet counts; anyone else leaves the appeal unchanged.
    pub fn accept(&mut self, reporter: &String) -> (r: bool)
        ensures
            r == (old(self).reported_by.deep_view().contains(reporter@)
                && !old(self).accepted_by.deep_view().contains(reporter@)),
            r ==> final(self).accepted_by.deep_view() == old(self).accepted_by.deep_view().push(
                reporter@,
            ),
            !r ==> final(self).accepted_by.deep_view() == old(self).accepted_by.deep_view(),
            final(self).address == old(self).address,
            final(self).appealed_by == old(self).appealed_by,
            final(self).reported_by == old(self).reported_by,
            final(self).argument == old(self).argument,
    {
        let is_valid_reporter = contains_str(&self.reported_by, reporter);
        let has_accepted = contains_str(&self.accepted_by, reporter);
        if is_valid_reporter && !has_accepted {
            let ghost prev = self.accepted_by@;
            self.accepted_by.push(reporter.clone());
            assert(self.accepted_by@ =~= prev.push(*reporter));
            assert(self.accepted_by.deep_view() =~= old(self).accepted_by.deep_view().push(reporter@));
            true
        } else {
            false
        }
    }

    /// Every reporter of the snapshot has accepted.
    pub fn is_satisfied(&self) -> (r: bool)
        ensures
            r == (self.reported_by@.len() == self.accepted_by@.len()),
    {
        self.reported_by.len() == self.accepted_by.len()
    }
}

} // verus!
