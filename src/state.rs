//! The registry's persisted state: the records, the allow-list, the owner
//! and the four secondary indices, with the invariant tying them together.
use vstd::prelude::*;
use vstd::utf8::encode_utf8;
use crate::error::ContractError;
use crate::index::{opt_view, Index};
use crate::msg::InstantiateMsg;
use crate::models::{Appeal, AppealView, Report, ReportView, Spam};
use crate::text::{tag_key, listed, order_by_key, str_before, trimmed_len, trimmed_tag_len};

verus! {

pub const MAX_TAG_LEN: usize = 50;

pub const MAX_TAG_COUNT: usize = 5;

/// Who configures the registry: one address, or an access-control service
/// at the given address that answers for it.
pub enum Owner {
    Address(String),
    Acl(String),
}

impl Owner {
    pub fn copy(&self) -> (r: Owner)
        ensures
            r == *self,
    {
        match self {
            Owner::Address(a) => Owner::Address(a.clone()),
            Owner::Acl(a) => Owner::Acl(a.clone()),
        }
    }
}

pub struct Registry {
    pub owner: Owner,
    pub spam: Vec<Spam>,
    pub reporters: Vec<String>,
    pub reports: Vec<Report>,
    pub appeals: Vec<Appeal>,
    pub ix_tag: Index<String>,
    pub ix_time: Index<u64>,
    pub ix_report_count: Index<u32>,
    pub ix_reporter: Index<String>,
}

/// Number of reports filed against `a`.
pub open spec fn count_reports(rs: Seq<Report>, a: Seq<char>) -> nat
    decreases rs.len(),
{
    if rs.len() == 0 {
        0
    } else {
        count_reports(rs.drop_last(), a) + if rs.last().address@ == a {
            1nat
        } else {
            0nat
        }
    }
}

/// The address an optional counterpart names.
pub open spec fn who(o: Option<Seq<char>>) -> Seq<char> {
    match o {
        Some(x) => x,
        None => Seq::empty(),
    }
}

/// `x` is a report filed for `a`.
pub open spec fn report_filed(rs: Seq<Report>, a: Seq<char>, x: ReportView) -> bool {
    exists|k: int| 0 <= k < rs.len() && rs[k].address@ == a && rs[k]@ == x
}

/// `v` lists the reports filed for `a`, each once, ascending by reporter.
pub open spec fn report_listing(rs: Seq<Report>, a: Seq<char>, v: Seq<ReportView>) -> bool {
    &&& forall|i: int| 0 <= i < v.len() ==> #[trigger] report_filed(rs, a, v[i])
    &&& forall|k: int| 0 <= k < rs.len() && (#[trigger] rs[k]).address@ == a ==> v.contains(rs[k]@)
    &&& forall|i: int, j: int|
        0 <= i < j < v.len() ==> str_before(who((#[trigger] v[i]).reported_by), who((#[trigger] v[j]).reported_by))
}

/// `x` is a appeal filed for `a`.
pub open spec fn appeal_filed(rs: Seq<Appeal>, a: Seq<char>, x: AppealView) -> bool {
    exists|k: int| 0 <= k < rs.len() && rs[k].address@ == a && rs[k]@ == x
}

/// `v` lists the appeals filed for `a`, each once, ascending by appellant.
pub open spec fn appeal_listing(rs: Seq<Appeal>, a: Seq<char>, v: Seq<AppealView>) -> bool {
    &&& forall|i: int| 0 <= i < v.len() ==> #[trigger] appeal_filed(rs, a, v[i])
    &&& forall|k: int| 0 <= k < rs.len() && (#[trigger] rs[k]).address@ == a ==> v.contains(rs[k]@)
    &&& forall|i: int, j: int|
        0 <= i < j < v.len() ==> str_before(who((#[trigger] v[i]).appealed_by), who((#[trigger] v[j]).appealed_by))
}

pub proof fn lemma_count_absent(rs: Seq<Report>, a: Seq<char>)
    requires
        forall|i: int| 0 <= i < rs.len() ==> (#[trigger] rs[i]).address@ != a,
    ensures
        count_reports(rs, a) == 0,
    decreases rs.len(),
{
    if rs.len() > 0 {
        lemma_count_absent(rs.drop_last(), a);
    }
}

/// The outcome of the tag checks: too many tags, then a tag too long once trimmed.
pub open spec fn tags_check(tags: Seq<Seq<char>>) -> Result<(), ContractError> {
    if tags.len() > MAX_TAG_COUNT {
        Err(ContractError::TooManyTags)
    } else if exists|k: int| 0 <= k < tags.len() && trimmed_len(#[trigger] tags[k]) > MAX_TAG_LEN {
        Err(ContractError::InvalidTag)
    } else {
        Ok(())
    }
}

/// An address of the length that contract addresses have.
pub open spec fn is_contract_address(a: Seq<char>) -> bool {
    encode_utf8(a).len() as usize == 63
}

impl Registry {
    pub open spec fn has_spam(&self, a: Seq<char>) -> bool {
        exists|i: int| 0 <= i < self.spam@.len() && (#[trigger] self.spam@[i]).address@ == a
    }

    pub open spec fn has_report(&self, a: Seq<char>, reporter: Seq<char>) -> bool {
        exists|i: int|
            0 <= i < self.reports@.len() && (#[trigger] self.reports@[i]).address@ == a && opt_view(
                &self.reports@[i].reported_by,
            ) == Some(reporter)
    }

    pub open spec fn has_appeal(&self, a: Seq<char>, appellant: Seq<char>) -> bool {
        exists|i: int|
            0 <= i < self.appeals@.len() && (#[trigger] self.appeals@[i]).address@ == a && opt_view(
                &self.appeals@[i].appealed_by,
            ) == Some(appellant)
    }

    pub open spec fn is_reporter(&self, a: Seq<char>) -> bool {
        self.reporters.deep_view().contains(a)
    }
}

/// `p` is (tag key, subject) of a tag carried by a stored report.
pub open spec fn tag_from_reports(rs: Seq<Report>, p: (Seq<char>, Seq<char>)) -> bool {
    exists|k: int, t: int|
        0 <= k < rs.len() && (#[trigger] rs[k]).address@ == p.1 && 0 <= t < rs[k].tags@.len() && tag_key(
            #[trigger] rs[k].tags@[t]@,
        ) == p.0
}

/// `p` is (time, subject) of a stored report.
pub open spec fn time_from_reports(rs: Seq<Report>, p: (u64, Seq<char>)) -> bool {
    exists|k: int| 0 <= k < rs.len() && (#[trigger] rs[k]).address@ == p.1 && rs[k].reported_at == p.0
}

/// `p` is (reporter, subject) of a stored report.
pub open spec fn reporter_from_reports(rs: Seq<Report>, p: (Seq<char>, Seq<char>)) -> bool {
    exists|k: int|
        0 <= k < rs.len() && (#[trigger] rs[k]).address@ == p.1 && opt_view(&rs[k].reported_by) == Some(p.0)
}

/// Acceptances come from the snapshot's reporters, each at most once.
pub open spec fn appeal_wf(ap: AppealView) -> bool {
    &&& ap.accepted_by.no_duplicates()
    &&& ap.reported_by.no_duplicates()
    &&& forall|x: Seq<char>| ap.accepted_by.contains(x) ==> ap.reported_by.contains(x)
}

impl Registry {
    /// The registry's invariant.
    pub open spec fn wf(&self) -> bool {
        &&& forall|i: int, j: int|
            0 <= i < j < self.spam@.len() ==> (#[trigger] self.spam@[i]).address@ != (
            #[trigger] self.spam@[j]).address@
        &&& forall|i: int|
            0 <= i < self.reports@.len() ==> (#[trigger] self.reports@[i]).reported_by.is_some()
                && self.has_spam(self.reports@[i].address@)
        &&& forall|i: int, j: int|
            0 <= i < j < self.reports@.len() ==> ((#[trigger] self.reports@[i]).address@, opt_view(
                &self.reports@[i].reported_by,
            )) != ((#[trigger] self.reports@[j]).address@, opt_view(&self.reports@[j].reported_by))
        &&& forall|i: int|
            0 <= i < self.appeals@.len() ==> (#[trigger] self.appeals@[i]).appealed_by.is_some()
        &&& forall|i: int, j: int|
            0 <= i < j < self.appeals@.len() ==> ((#[trigger] self.appeals@[i]).address@, opt_view(
                &self.appeals@[i].appealed_by,
            )) != ((#[trigger] self.appeals@[j]).address@, opt_view(&self.appeals@[j].appealed_by))
        &&& forall|i: int| 0 <= i < self.appeals@.len() ==> appeal_wf(#[trigger] self.appeals@[i]@)
        &&& forall|i: int|
            0 <= i < self.spam@.len() ==> (#[trigger] self.spam@[i]).report_count == count_reports(
                self.reports@,
                self.spam@[i].address@,
            )
        &&& forall|i: int, v: u32|
            0 <= i < self.spam@.len() ==> (#[trigger] self.ix_report_count.keys().contains(
                (v, self.spam@[i].address@),
            ) <==> v == self.spam@[i].report_count)
        &&& forall|p: (Seq<char>, Seq<char>)|
            #![trigger self.ix_tag.keys().contains(p)]
            #![trigger tag_from_reports(self.reports@, p)]
            self.ix_tag.keys().contains(p) <==> tag_from_reports(self.reports@, p)
        &&& forall|p: (u64, Seq<char>)|
            #![trigger self.ix_time.keys().contains(p)]
            #![trigger time_from_reports(self.reports@, p)]
            self.ix_time.keys().contains(p) <==> time_from_reports(self.reports@, p)
        &&& forall|p: (Seq<char>, Seq<char>)|
            #![trigger self.ix_reporter.keys().contains(p)]
            #![trigger reporter_from_reports(self.reports@, p)]
            self.ix_reporter.keys().contains(p) <==> reporter_from_reports(self.reports@, p)
        &&& forall|p: (Seq<char>, Seq<char>)| #[trigger]
            self.ix_tag.keys().contains(p) ==> self.has_spam(p.1)
        &&& forall|p: (u64, Seq<char>)| #[trigger]
            self.ix_time.keys().contains(p) ==> self.has_spam(p.1)
        &&& forall|p: (u32, Seq<char>)| #[trigger]
            self.ix_report_count.keys().contains(p) ==> self.has_spam(p.1)
        &&& forall|p: (Seq<char>, Seq<char>)| #[trigger]
            self.ix_reporter.keys().contains(p) ==> self.has_spam(p.1)
    }

    /// An empty registry with the given owner.
    pub fn new(owner: Owner) -> (r: Registry)
        ensures
            r.wf(),
            r.owner == owner,
            r.spam@.len() == 0,
            r.reporters@.len() == 0,
            r.reports@.len() == 0,
            r.appeals@.len() == 0,
    {
        Registry {
            owner,
            spam: Vec::new(),
            reporters: Vec::new(),
            reports: Vec::new(),
            appeals: Vec::new(),
            ix_tag: Index::new(),
            ix_time: Index::new(),
            ix_report_count: Index::new(),
            ix_reporter: Index::new(),
        }
    }

    /// Puts `address` on the allow-list of reporters.
    pub fn add_reporter(&mut self, address: String)
        requires
            old(self).wf(),
        ensures
            final(self).wf(),
            forall|a: Seq<char>| #[trigger]
                final(self).is_reporter(a) <==> old(self).is_reporter(a) || a == address@,
            final(self).owner == old(self).owner,
            final(self).spam == old(self).spam,
            final(self).reports == old(self).reports,
            final(self).appeals == old(self).appeals,
            final(self).ix_tag == old(self).ix_tag,
            final(self).ix_time == old(self).ix_time,
            final(self).ix_report_count == old(self).ix_report_count,
            final(self).ix_reporter == old(self).ix_reporter,
    {
        let ghost prev = self.reporters@;
        self.reporters.push(address);
        proof {
            assert(self.reporters@ =~= prev.push(address));
            assert(self.reporters.deep_view() =~= old(self).reporters.deep_view().push(address@));
            assert forall|a: Seq<char>| #[trigger]
                self.is_reporter(a) <==> old(self).is_reporter(a) || a == address@ by {
                if old(self).is_reporter(a) {
                    let k = choose|k: int|
                        0 <= k < old(self).reporters.deep_view().len()
                            && old(self).reporters.deep_view()[k] == a;
                    assert(self.reporters.deep_view()[k] == a);
                }
                if a == address@ {
                    assert(self.reporters.deep_view()[prev.len() as int] == a);
                }
            }
            assert(forall|i: int| 0 <= i < self.spam@.len() ==> old(self).has_spam(#[trigger] self.spam@[i].address@));
        }
    }

    /// Position of the spam record for `address`.
    pub fn find_spam(&self, address: &String) -> (r: Option<usize>)
        ensures
            match r {
                Some(i) => i < self.spam@.len() && self.spam@[i as int].address@ == address@,
                None => !self.has_spam(address@),
            },
    {
        let mut i: usize = 0;
        while i < self.spam.len()
            invariant
                i <= self.spam@.len(),
                forall|j: int| 0 <= j < i ==> (#[trigger] self.spam@[j]).address@ != address@,
            decreases self.spam.len() - i,
        {
            if self.spam[i].address == *address {
                return Some(i);
            }
            i = i + 1;
        }
        None
    }

    /// Position of the report that `reporter` filed against `address`.
    pub fn find_report(&self, address: &String, reporter: &String) -> (r: Option<usize>)
        ensures
            match r {
                Some(i) => i < self.reports@.len() && self.reports@[i as int].address@ == address@
                    && opt_view(&self.reports@[i as int].reported_by) == Some(reporter@),
                None => !self.has_report(address@, reporter@),
            },
    {
        let mut i: usize = 0;
        while i < self.reports.len()
            invariant
                i <= self.reports@.len(),
                forall|j: int|
                    0 <= j < i ==> !((#[trigger] self.reports@[j]).address@ == address@ && opt_view(
                        &self.reports@[j].reported_by,
                    ) == Some(reporter@)),
            decreases self.reports.len() - i,
        {
            let r = &self.reports[i];
            if r.address == *address {
                match &r.reported_by {
                    Some(by) => {
                        if *by == *reporter {
                            return Some(i);
                        }
                    },
                    None => {},
                }
            }
            i = i + 1;
        }
        None
    }

    /// Position of the appeal that `appellant` filed for `address`.
    pub fn find_appeal(&self, address: &String, appellant: &String) -> (r: Option<usize>)
        ensures
            match r {
                Some(i) => i < self.appeals@.len() && self.appeals@[i as int].address@ == address@
                    && opt_view(&self.appeals@[i as int].appealed_by) == Some(appellant@),
                None => !self.has_appeal(address@, appellant@),
            },
    {
        let mut i: usize = 0;
        while i < self.appeals.len()
            invariant
                i <= self.appeals@.len(),
                forall|j: int|
                    0 <= j < i ==> !((#[trigger] self.appeals@[j]).address@ == address@ && opt_view(
                        &self.appeals@[j].appealed_by,
                    ) == Some(appellant@)),
            decreases self.appeals.len() - i,
        {
            let a = &self.appeals[i];
            if a.address == *address {
                match &a.appealed_by {
                    Some(by) => {
                        if *by == *appellant {
                            return Some(i);
                        }
                    },
                    None => {},
                }
            }
            i = i + 1;
        }
        None
    }
}

/// Loads the spam record for `address`.
pub fn load_spam(reg: &Registry, address: &String) -> (r: Result<Spam, ContractError>)
    ensures
        reg.has_spam(address@) <==> r is Ok,
        r is Err ==> r == Err::<Spam, ContractError>(ContractError::SpamEntryNotFound),
        r matches Ok(s) ==> exists|i: int|
            0 <= i < reg.spam@.len() && (#[trigger] reg.spam@[i]).address@ == address@ && s@
                == reg.spam@[i]@,
{
    match reg.find_spam(address) {
        Some(i) => Ok(reg.spam[i].copy()),
        None => Err(ContractError::SpamEntryNotFound),
    }
}

/// All appeals filed for `address`, each with its appellant, ascending by appellant.
pub fn load_appeals(reg: &Registry, address: &String) -> (r: Result<Vec<Appeal>, ContractError>)
    requires
        reg.wf(),
    ensures
        r matches Ok(v) && appeal_listing(reg.appeals@, address@, v@.map_values(|x: Appeal| x@)),
{
    let ghost rs = reg.appeals@;
    let mut pos: Vec<usize> = Vec::new();
    let mut keys: Vec<String> = Vec::new();
    let mut i: usize = 0;
    while i < reg.appeals.len()
        invariant
            rs == reg.appeals@,
            i <= rs.len(),
            pos@.len() == keys@.len(),
            forall|m: int|
                0 <= m < pos@.len() ==> (#[trigger] pos@[m]) < i && rs[pos@[m] as int].address@ == address@
                    && keys@[m]@ == who(opt_view(&rs[pos@[m] as int].appealed_by)),
            forall|m1: int, m2: int| 0 <= m1 < m2 < pos@.len() ==> (#[trigger] pos@[m1]) < (#[trigger] pos@[m2]),
            forall|k: int| 0 <= k < i && (#[trigger] rs[k]).address@ == address@ ==> listed(pos@, k),
        decreases rs.len() - i,
    {
        let x = &reg.appeals[i];
        if x.address == *address {
            let w = match &x.appealed_by {
                Some(y) => y.clone(),
                None => String::new(),
            };
            let ghost p0 = pos@;
            pos.push(i);
            keys.push(w);
            proof {
                assert forall|k: int| 0 <= k < i + 1 && (#[trigger] rs[k]).address@ == address@ implies listed(pos@, k) by {
                    if k == i {
                        assert(pos@[p0.len() as int] == k);
                    } else {
                        assert(listed(p0, k));
                        let m = choose|m: int| 0 <= m < p0.len() && p0[m] == k;
                        assert(pos@[m] == k);
                    }
                }
            }
        }
        i = i + 1;
    }
    proof {
        assert forall|m1: int, m2: int| 0 <= m1 < m2 < keys@.len() implies (#[trigger] keys@[m1])@ != (#[trigger] keys@[m2])@ by {
            let k1 = pos@[m1] as int;
            let k2 = pos@[m2] as int;
            assert(k1 < k2);
            assert((rs[k1].address@, opt_view(&rs[k1].appealed_by)) != (rs[k2].address@, opt_view(&rs[k2].appealed_by)));
            assert(rs[k1].appealed_by.is_some() && rs[k2].appealed_by.is_some());
        }
    }
    let order = order_by_key(&keys);
    let mut out: Vec<Appeal> = Vec::new();
    let mut t: usize = 0;
    while t < order.len()
        invariant
            rs == reg.appeals@,
            t <= order@.len(),
            out@.len() == t,
            forall|q: int| 0 <= q < order@.len() ==> #[trigger] order@[q] < keys@.len(),
            forall|m: int| 0 <= m < pos@.len() ==> (#[trigger] pos@[m]) < rs.len(),
            pos@.len() == keys@.len(),
            forall|q: int| 0 <= q < t ==> (#[trigger] out@[q])@ == rs[pos@[order@[q] as int] as int]@,
        decreases order.len() - t,
    {
        out.push(reg.appeals[pos[order[t]]].copy());
        t = t + 1;
    }
    proof {
        let v = out@.map_values(|x: Appeal| x@);
        assert forall|q: int| 0 <= q < v.len() implies v[q] == rs[pos@[order@[q] as int] as int]@ by {
            assert(v[q] == out@[q]@);
        }
        assert forall|q: int| 0 <= q < v.len() implies #[trigger] appeal_filed(rs, address@, v[q]) by {
            let k = pos@[order@[q] as int] as int;
            assert(rs[k].address@ == address@);
        }
        assert forall|k: int| 0 <= k < rs.len() && (#[trigger] rs[k]).address@ == address@ implies v.contains(rs[k]@) by {
            assert(listed(pos@, k));
            let m = choose|m: int| 0 <= m < pos@.len() && pos@[m] == k;
            assert(listed(order@, m));
            let q = choose|q: int| 0 <= q < order@.len() && order@[q] == m;
            assert(v[q] == rs[k]@);
        }
        assert forall|q1: int, q2: int| 0 <= q1 < q2 < v.len() implies str_before(
            who((#[trigger] v[q1]).appealed_by),
            who((#[trigger] v[q2]).appealed_by),
        ) by {
            assert(str_before(keys@[order@[q1] as int]@, keys@[order@[q2] as int]@));
            assert(v[q1] == rs[pos@[order@[q1] as int] as int]@);
            assert(v[q2] == rs[pos@[order@[q2] as int] as int]@);
        }
    }
    Ok(out)
}

/// All reports filed for `address`, each with its reporter, ascending by reporter.
pub fn load_reports(reg: &Registry, address: &String) -> (r: Result<Vec<Report>, ContractError>)
    requires
        reg.wf(),
    ensures
        r matches Ok(v) && report_listing(reg.reports@, address@, v@.map_values(|x: Report| x@)),
{
    let ghost rs = reg.reports@;
    let mut pos: Vec<usize> = Vec::new();
    let mut keys: Vec<String> = Vec::new();
    let mut i: usize = 0;
    while i < reg.reports.len()
        invariant
            rs == reg.reports@,
            i <= rs.len(),
            pos@.len() == keys@.len(),
            forall|m: int|
                0 <= m < pos@.len() ==> (#[trigger] pos@[m]) < i && rs[pos@[m] as int].address@ == address@
                    && keys@[m]@ == who(opt_view(&rs[pos@[m] as int].reported_by)),
            forall|m1: int, m2: int| 0 <= m1 < m2 < pos@.len() ==> (#[trigger] pos@[m1]) < (#[trigger] pos@[m2]),
            forall|k: int| 0 <= k < i && (#[trigger] rs[k]).address@ == address@ ==> listed(pos@, k),
        decreases rs.len() - i,
    {
        let x = &reg.reports[i];
        if x.address == *address {
            let w = match &x.reported_by {
                Some(y) => y.clone(),
                None => String::new(),
            };
            let ghost p0 = pos@;
            pos.push(i);
            keys.push(w);
            proof {
                assert forall|k: int| 0 <= k < i + 1 && (#[trigger] rs[k]).address@ == address@ implies listed(pos@, k) by {
                    if k == i {
                        assert(pos@[p0.len() as int] == k);
                    } else {
                        assert(listed(p0, k));
                        let m = choose|m: int| 0 <= m < p0.len() && p0[m] == k;
                        assert(pos@[m] == k);
                    }
                }
            }
        }
        i = i + 1;
    }
    proof {
        assert forall|m1: int, m2: int| 0 <= m1 < m2 < keys@.len() implies (#[trigger] keys@[m1])@ != (#[trigger] keys@[m2])@ by {
            let k1 = pos@[m1] as int;
            let k2 = pos@[m2] as int;
            assert(k1 < k2);
            assert((rs[k1].address@, opt_view(&rs[k1].reported_by)) != (rs[k2].address@, opt_view(&rs[k2].reported_by)));
            assert(rs[k1].reported_by.is_some() && rs[k2].reported_by.is_some());
        }
    }
    let order = order_by_key(&keys);
    let mut out: Vec<Report> = Vec::new();
    let mut t: usize = 0;
    while t < order.len()
        invariant
            rs == reg.reports@,
            t <= order@.len(),
            out@.len() == t,
            forall|q: int| 0 <= q < order@.len() ==> #[trigger] order@[q] < keys@.len(),
            forall|m: int| 0 <= m < pos@.len() ==> (#[trigger] pos@[m]) < rs.len(),
            pos@.len() == keys@.len(),
            forall|q: int| 0 <= q < t ==> (#[trigger] out@[q])@ == rs[pos@[order@[q] as int] as int]@,
        decreases order.len() - t,
    {
        out.push(reg.reports[pos[order[t]]].copy());
        t = t + 1;
    }
    proof {
        let v = out@.map_values(|x: Report| x@);
        assert forall|q: int| 0 <= q < v.len() implies v[q] == rs[pos@[order@[q] as int] as int]@ by {
            assert(v[q] == out@[q]@);
        }
        assert forall|q: int| 0 <= q < v.len() implies #[trigger] report_filed(rs, address@, v[q]) by {
            let k = pos@[order@[q] as int] as int;
            assert(rs[k].address@ == address@);
        }
        assert forall|k: int| 0 <= k < rs.len() && (#[trigger] rs[k]).address@ == address@ implies v.contains(rs[k]@) by {
            assert(listed(pos@, k));
            let m = choose|m: int| 0 <= m < pos@.len() && pos@[m] == k;
            assert(listed(order@, m));
            let q = choose|q: int| 0 <= q < order@.len() && order@[q] == m;
            assert(v[q] == rs[k]@);
        }
        assert forall|q1: int, q2: int| 0 <= q1 < q2 < v.len() implies str_before(
            who((#[trigger] v[q1]).reported_by),
            who((#[trigger] v[q2]).reported_by),
        ) by {
            assert(str_before(keys@[order@[q1] as int]@, keys@[order@[q2] as int]@));
            assert(v[q1] == rs[pos@[order@[q1] as int] as int]@);
            assert(v[q2] == rs[pos@[order@[q2] as int] as int]@);
        }
    }
    Ok(out)
}

/// Sets up the registry; without a configured owner, the sender owns it.
pub fn initialize(msg: &InstantiateMsg, sender: &String) -> (r: Registry)
    ensures
        r.wf(),
        match msg.owner {
            Some(o) => r.owner == o,
            None => r.owner matches Owner::Address(a) && a@ == sender@,
        },
        r.spam@.len() == 0,
        r.reporters@.len() == 0,
        r.reports@.len() == 0,
        r.appeals@.len() == 0,
{
    let owner = match &msg.owner {
        Some(o) => o.copy(),
        None => Owner::Address(sender.clone()),
    };
    Registry::new(owner)
}

/// Succeeds when `principal` owns the registry. Where the owner is an
/// access-control service, `acl_allows` is that service's answer for
/// `principal` and `action`.
pub fn require_sender_is_owner(reg: &Registry, principal: &String, action: &str, acl_allows: bool) -> (r:
    Result<(), ContractError>)
    ensures
        r is Ok <==> match reg.owner {
            Owner::Address(a) => a@ == principal@,
            Owner::Acl(_) => acl_allows,
        },
        r is Err ==> r == Err::<(), ContractError>(ContractError::NotAuthorized),
{
    let allowed = match &reg.owner {
        Owner::Address(a) => *principal == *a,
        Owner::Acl(_) => acl_allows,
    };
    if !allowed {
        Err(ContractError::NotAuthorized)
    } else {
        Ok(())
    }
}

/// Succeeds when `addr` is on the allow-list of reporters.
pub fn require_authorized_reporter(reg: &Registry, addr: &String) -> (r: Result<(), ContractError>)
    ensures
        r is Ok <==> reg.is_reporter(addr@),
        r is Err ==> r == Err::<(), ContractError>(ContractError::NotAuthorized),
{
    if !crate::models::contains_str(&reg.reporters, addr) {
        Err(ContractError::NotAuthorized)
    } else {
        Ok(())
    }
}

/// At most five tags, none longer than fifty characters once trimmed.
pub fn require_valid_tags(tags: &Vec<String>) -> (r: Result<(), ContractError>)
    ensures
        r == tags_check(tags.deep_view()),
{
    if tags.len() > MAX_TAG_COUNT {
        return Err(ContractError::TooManyTags);
    }
    let mut i: usize = 0;
    while i < tags.len()
        invariant
            i <= tags@.len(),
            tags@.len() <= MAX_TAG_COUNT,
            forall|k: int| 0 <= k < i ==> trimmed_len(#[trigger] tags.deep_view()[k]) <= MAX_TAG_LEN as nat,
        decreases tags.len() - i,
    {
        let n = trimmed_tag_len(&tags[i]);
        assert(tags.deep_view()[i as int] == tags@[i as int]@);
        if n > MAX_TAG_LEN {
            assert(trimmed_len(tags.deep_view()[i as int]) > MAX_TAG_LEN);
            assert(tags.deep_view().len() == tags@.len());
            return Err(ContractError::InvalidTag);
        }
        i = i + 1;
    }
    assert(tags.deep_view().len() == tags@.len());
    Ok(())
}

/// Succeeds when the address validator accepted every address; `verdicts`
/// holds its answer for each.
pub fn require_valid_addresses(verdicts: &Vec<bool>) -> (r: Result<(), ContractError>)
    ensures
        r is Ok <==> forall|k: int| 0 <= k < verdicts@.len() ==> #[trigger] verdicts@[k],
        r is Err ==> r == Err::<(), ContractError>(ContractError::ValidationError),
{
    let mut i: usize = 0;
    while i < verdicts.len()
        invariant
            i <= verdicts@.len(),
            forall|k: int| 0 <= k < i ==> #[trigger] verdicts@[k],
        decreases verdicts.len() - i,
    {
        if !verdicts[i] {
            return Err(ContractError::ValidationError);
        }
        i = i + 1;
    }
    Ok(())
}

} // verus!
