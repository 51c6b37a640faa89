//! The three operations that change the registry: filing a report, filing
//! an appeal, and a reporter's acceptance of an appeal.
use vstd::prelude::*;
use crate::error::ContractError;
use crate::index::{opt_view, Index};
use crate::models::{Appeal, AppealView, BlockInfo, Report, ReportView, Spam, SpamProfile, SpamView};
use crate::state::{
    count_reports, is_contract_address, reporter_from_reports, tag_from_reports, time_from_reports, lemma_count_absent, require_authorized_reporter,
    require_valid_tags, tags_check, Registry,
};
use crate::text::{copy_strings, lemma_str_order, listed, normalize_tag, order_by_key, str_before, tag_key};

verus! {

/// The tags of a request; none given means none at all.
pub open spec fn tag_list(tags: Option<Vec<String>>) -> Seq<Seq<char>> {
    match tags {
        Some(t) => t.deep_view(),
        None => Seq::empty(),
    }
}

/// The tag-index keys that a report with `tags` against `a` adds.
pub open spec fn tag_keys(a: Seq<char>, tags: Seq<Seq<char>>) -> Set<(Seq<char>, Seq<char>)> {
    Set::new(
        |p: (Seq<char>, Seq<char>)|
            p.1 == a && exists|k: int| 0 <= k < tags.len() && p.0 == tag_key(#[trigger] tags[k]),
    )
}

/// The checks a report goes through, in order.
pub open spec fn report_check(
    reg: Registry,
    sender: Seq<char>,
    address: Seq<char>,
    address_valid: bool,
    tags: Seq<Seq<char>>,
) -> Result<(), ContractError> {
    if !reg.is_reporter(sender) {
        Err(ContractError::NotAuthorized)
    } else if !address_valid {
        Err(ContractError::ValidationError)
    } else if tags_check(tags) is Err {
        tags_check(tags)
    } else if reg.has_report(address, sender) {
        Err(ContractError::DuplicateReport)
    } else {
        Ok(())
    }
}

/// The record created by the first report against `a`.
pub open spec fn new_spam_view(a: Seq<char>, tags: Seq<Seq<char>>) -> SpamView {
    SpamView {
        address: a,
        is_contract: is_contract_address(a),
        name: None,
        description: None,
        image_url: None,
        url: None,
        tags: tags,
        is_forgiven: false,
        report_count: 1,
    }
}

/// Adds the key of each tag, lower-cased and trimmed, for `address`.
fn index_tags(ix: &mut Index<String>, tags: &Vec<String>, address: &String)
    ensures
        final(ix).keys() == old(ix).keys() + tag_keys(address@, tags.deep_view()),
{
    let mut k: usize = 0;
    while k < tags.len()
        invariant
            k <= tags@.len(),
            ix.keys() == old(ix).keys() + tag_keys(address@, tags.deep_view().take(k as int)),
        decreases tags.len() - k,
    {
        let key = normalize_tag(&tags[k]);
        let ghost before = ix.keys();
        ix.insert(key, address.clone());
        proof {
            let t = tags.deep_view();
            assert(t[k as int] == tags@[k as int]@);
            assert forall|p: (Seq<char>, Seq<char>)|
                tag_keys(address@, t.take(k as int + 1)).contains(p) == (tag_keys(
                    address@,
                    t.take(k as int),
                ).contains(p) || p == (tag_key(t[k as int]), address@)) by {
                if tag_keys(address@, t.take(k as int + 1)).contains(p) {
                    let j = choose|j: int|
                        0 <= j < t.take(k as int + 1).len() && p.0 == tag_key(
                            #[trigger] t.take(k as int + 1)[j],
                        );
                    if j < k {
                        assert(t.take(k as int)[j] == t[j]);
                    }
                }
                if tag_keys(address@, t.take(k as int)).contains(p) {
                    let j = choose|j: int|
                        0 <= j < t.take(k as int).len() && p.0 == tag_key(#[trigger] t.take(k as int)[j]);
                    assert(t.take(k as int + 1)[j] == t[j]);
                }
                if p == (tag_key(t[k as int]), address@) {
                    assert(t.take(k as int + 1)[k as int] == t[k as int]);
                }
            }
            assert(key@ == tag_key(t[k as int]));
            assert(ix.keys() == before.insert((key@, address@)));
            assert forall|p: (Seq<char>, Seq<char>)|
                ix.keys().contains(p) == (old(ix).keys() + tag_keys(address@, t.take(k as int + 1))).contains(
                    p,
                ) by {}
            assert(ix.keys() =~= old(ix).keys() + tag_keys(address@, t.take(k as int + 1)));
        }
        k = k + 1;
    }
    assert(tags.deep_view().take(tags@.len() as int) =~= tags.deep_view());
}

/// Files `sender`'s report against `address`. `address_valid` is the
/// address validator's verdict on `address`; `block` is the current block.
/// The report count of an address cannot grow past `u32::MAX`.
#[verifier::rlimit(50)]
pub fn report(
    reg: &mut Registry,
    block: &BlockInfo,
    sender: &String,
    address: String,
    address_valid: bool,
    comment: Option<String>,
    tags: Option<Vec<String>>,
    tx_hashes: Option<Vec<String>>,
) -> (r: Result<(), ContractError>)
    requires
        old(reg).wf(),
        forall|i: int|
            0 <= i < old(reg).spam@.len() && (#[trigger] old(reg).spam@[i]).address@ == address@
                ==> old(reg).spam@[i].report_count < u32::MAX,
    ensures
        r == report_check(*old(reg), sender@, address@, address_valid, tag_list(tags)),
        final(reg).wf(),
        r is Err ==> *final(reg) == *old(reg),
        r is Ok ==> {
            &&& final(reg).owner == old(reg).owner
            &&& final(reg).reporters == old(reg).reporters
            &&& final(reg).appeals == old(reg).appeals
            &&& final(reg).reports@.len() == old(reg).reports@.len() + 1
            &&& final(reg).reports@.drop_last() == old(reg).reports@
            &&& final(reg).reports@.last()@ == (ReportView {
                address: address@,
                reported_at: block.time,
                reported_by: Some(sender@),
                tags: tag_list(tags),
                comment: opt_view(&comment),
                tx_hashes: tx_hashes.deep_view(),
                height: block.height,
                time: block.time,
                chain_id: block.chain_id@,
            })
            &&& old(reg).has_spam(address@) ==> {
                &&& final(reg).spam@.len() == old(reg).spam@.len()
                &&& forall|i: int|
                    0 <= i < old(reg).spam@.len() ==> if (#[trigger] old(reg).spam@[i]).address@
                        == address@ {
                        final(reg).spam@[i]@ == (SpamView {
                            report_count: (old(reg).spam@[i].report_count + 1) as u32,
                            ..old(reg).spam@[i]@
                        })
                    } else {
                        final(reg).spam@[i] == old(reg).spam@[i]
                    }
            }
            &&& !old(reg).has_spam(address@) ==> {
                &&& final(reg).spam@.len() == old(reg).spam@.len() + 1
                &&& final(reg).spam@.drop_last() == old(reg).spam@
                &&& final(reg).spam@.last()@ == new_spam_view(address@, tag_list(tags))
            }
            &&& final(reg).ix_tag.keys() == old(reg).ix_tag.keys() + tag_keys(
                address@,
                tag_list(tags),
            )
            &&& final(reg).ix_time.keys() == old(reg).ix_time.keys().insert((block.time, address@))
            &&& final(reg).ix_reporter.keys() == old(reg).ix_reporter.keys().insert(
                (sender@, address@),
            )
            &&& final(reg).ix_report_count.keys() == old(reg).ix_report_count.keys().remove(
                ((count_reports(final(reg).reports@, address@) - 1) as u32, address@),
            ).insert((count_reports(final(reg).reports@, address@) as u32, address@))
        },
{
    let ghost given = tag_list(tags);
    let tags: Vec<String> = match tags {
        Some(t) => t,
        None => Vec::new(),
    };
    assert(tags.deep_view() =~= given);
    require_authorized_reporter(reg, sender)?;
    if !address_valid {
        return Err(ContractError::ValidationError);
    }
    require_valid_tags(&tags)?;
    if reg.find_report(&address, sender).is_some() {
        return Err(ContractError::DuplicateReport);
    }
    let ghost g = *reg;
    let ghost a = address@;
    let pos = reg.find_spam(&address);
    let count: u32 = match pos {
        Some(i) => {
            let mut rec = Spam {
                address: String::new(),
                profile: SpamProfile::new(false),
                tags: Vec::new(),
                is_forgiven: false,
                report_count: 0,
            };
            reg.spam.set_and_swap(i, &mut rec);
            rec.report_count = rec.report_count + 1;
            let c = rec.report_count;
            reg.spam.set_and_swap(i, &mut rec);
            c
        },
        None => {
            let is_contract = address.as_str().len() == 63;
            reg.spam.push(
                Spam {
                    address: address.clone(),
                    profile: SpamProfile::new(is_contract),
                    tags: copy_strings(&tags),
                    is_forgiven: false,
                    report_count: 1,
                },
            );
            1
        },
    };
    reg.reports.push(
        Report {
            address: address.clone(),
            reported_at: block.time,
            reported_by: Some(sender.clone()),
            tags: copy_strings(&tags),
            comment,
            tx_hashes,
            block: block.copy(),
        },
    );
    index_tags(&mut reg.ix_tag, &tags, &address);
    reg.ix_report_count.remove(&(count - 1), &address);
    reg.ix_report_count.insert(count, address.clone());
    reg.ix_time.insert(block.time, address.clone());
    reg.ix_reporter.insert(sender.clone(), address.clone());
    proof {
        let n = *reg;
        let gl = g.spam@.len() as int;
        assert(n.reports@.drop_last() =~= g.reports@);
        let x = n.reports@.last();
        assert(x.address@ == a && opt_view(&x.reported_by) == Some(sender@));
        assert forall|y: Seq<char>| g.has_spam(y) implies n.has_spam(y) by {
            let i = choose|i: int| 0 <= i < gl && (#[trigger] g.spam@[i]).address@ == y;
            assert(n.spam@[i].address@ == y);
        }
        match pos {
            Some(i) => {
                assert(n.spam@[i as int].address@ == a);
            },
            None => {
                assert(n.spam@[gl].address@ == a);
                assert forall|j: int| 0 <= j < g.reports@.len() implies (#[trigger] g.reports@[j]).address@
                    != a by {
                    assert(g.has_spam(g.reports@[j].address@));
                }
                lemma_count_absent(g.reports@, a);
            },
        }
        assert(n.has_spam(a));
        assert forall|y: Seq<char>| n.has_spam(y) implies g.has_spam(y) || y == a by {
            let i = choose|i: int| 0 <= i < n.spam@.len() && (#[trigger] n.spam@[i]).address@ == y;
            if i < gl {
                assert(g.spam@[i].address@ == y);
            }
        }
        assert forall|y: Seq<char>|
            count_reports(n.reports@, y) == count_reports(g.reports@, y) + if y == a {
                1nat
            } else {
                0nat
            } by {}
        assert(count == count_reports(n.reports@, a));
        // records stay unique, each with its count
        assert forall|i: int, j: int|
            0 <= i < j < n.spam@.len() implies (#[trigger] n.spam@[i]).address@ != (
            #[trigger] n.spam@[j]).address@ by {
            if j >= gl {
                assert(!g.has_spam(a));
                assert(g.spam@[i].address@ == n.spam@[i].address@);
            } else {
                assert(g.spam@[i].address@ == n.spam@[i].address@);
                assert(g.spam@[j].address@ == n.spam@[j].address@);
            }
        }
        assert forall|i: int| 0 <= i < n.spam@.len() implies (#[trigger] n.spam@[i]).report_count
            == count_reports(n.reports@, n.spam@[i].address@) by {
            if i < gl && g.spam@[i].address@ != a {
                assert(n.spam@[i] == g.spam@[i]);
            }
        }
        assert forall|i: int, v: u32|
            0 <= i < n.spam@.len() implies (#[trigger] n.ix_report_count.keys().contains(
                (v, n.spam@[i].address@),
            ) <==> v == n.spam@[i].report_count) by {
            let y = n.spam@[i].address@;
            if y != a {
                assert(i < gl);
                assert(n.spam@[i] == g.spam@[i]);
                assert(g.ix_report_count.keys().contains((v, y)) <==> v == g.spam@[i].report_count);
            } else {
                if g.ix_report_count.keys().contains((v, y)) {
                    assert(g.has_spam(y));
                    let j = choose|j: int| 0 <= j < gl && (#[trigger] g.spam@[j]).address@ == y;
                    assert(g.ix_report_count.keys().contains((v, g.spam@[j].address@)));
                    assert(v == g.spam@[j].report_count);
                }
            }
        }
        assert forall|i: int|
            0 <= i < n.reports@.len() implies (#[trigger] n.reports@[i]).reported_by.is_some()
                && n.has_spam(n.reports@[i].address@) by {
            if i < g.reports@.len() {
                assert(n.reports@[i] == g.reports@[i]);
            }
        }
        assert forall|i: int, j: int|
            0 <= i < j < n.reports@.len() implies ((#[trigger] n.reports@[i]).address@, opt_view(
                &n.reports@[i].reported_by,
            )) != ((#[trigger] n.reports@[j]).address@, opt_view(&n.reports@[j].reported_by)) by {
            assert(n.reports@[i] == g.reports@[i]);
            if j < g.reports@.len() {
                assert(n.reports@[j] == g.reports@[j]);
            }
        }
        assert forall|p: (Seq<char>, Seq<char>)| #[trigger] n.ix_tag.keys().contains(p) implies n.has_spam(
            p.1,
        ) by {
            if g.ix_tag.keys().contains(p) {
                assert(g.has_spam(p.1));
            }
        }
        assert forall|p: (u64, Seq<char>)| #[trigger] n.ix_time.keys().contains(p) implies n.has_spam(
            p.1,
        ) by {
            if g.ix_time.keys().contains(p) {
                assert(g.has_spam(p.1));
            }
        }
        assert forall|p: (u32, Seq<char>)| #[trigger]
            n.ix_report_count.keys().contains(p) implies n.has_spam(p.1) by {
            if g.ix_report_count.keys().contains(p) {
                assert(g.has_spam(p.1));
            }
        }
        assert forall|p: (Seq<char>, Seq<char>)| #[trigger]
            n.ix_reporter.keys().contains(p) implies n.has_spam(p.1) by {
            if g.ix_reporter.keys().contains(p) {
                assert(g.has_spam(p.1));
            }
        }
        let nr = g.reports@.len() as int;
        assert(n.reports@[nr] == x);
        assert(x.tags.deep_view() == tags.deep_view());
        assert forall|k: int| 0 <= k < nr implies #[trigger] n.reports@[k] == g.reports@[k] by {
            assert(n.reports@.drop_last()[k] == n.reports@[k]);
        }
        assert forall|p: (Seq<char>, Seq<char>)|
            n.ix_tag.keys().contains(p) <==> #[trigger] tag_from_reports(n.reports@, p) by {
            if tag_from_reports(n.reports@, p) {
                let (k, t) = choose|k: int, t: int|
                    0 <= k < n.reports@.len() && (#[trigger] n.reports@[k]).address@ == p.1 && 0 <= t
                        < n.reports@[k].tags@.len() && tag_key(#[trigger] n.reports@[k].tags@[t]@) == p.0;
                if k < nr {
                    assert(g.reports@[k] == n.reports@[k]);
                    assert(tag_from_reports(g.reports@, p));
                } else {
                    assert(tags.deep_view()[t] == x.tags.deep_view()[t]);
                    assert(tag_keys(a, tags.deep_view()).contains(p));
                }
            }
            if g.ix_tag.keys().contains(p) {
                assert(tag_from_reports(g.reports@, p));
                let (k, t) = choose|k: int, t: int|
                    0 <= k < g.reports@.len() && (#[trigger] g.reports@[k]).address@ == p.1 && 0 <= t
                        < g.reports@[k].tags@.len() && tag_key(#[trigger] g.reports@[k].tags@[t]@) == p.0;
                assert(n.reports@[k] == g.reports@[k]);
                assert(n.reports@[k].tags@[t]@ == g.reports@[k].tags@[t]@);
            }
            if tag_keys(a, tags.deep_view()).contains(p) {
                let t = choose|t: int| 0 <= t < tags.deep_view().len() && p.0 == tag_key(#[trigger] tags.deep_view()[t]);
                assert(x.tags.deep_view()[t] == x.tags@[t]@);
                assert(n.reports@[nr].tags@[t]@ == tags.deep_view()[t]);
            }
        }
        assert forall|p: (u64, Seq<char>)|
            n.ix_time.keys().contains(p) <==> #[trigger] time_from_reports(n.reports@, p) by {
            if time_from_reports(n.reports@, p) {
                let k = choose|k: int| 0 <= k < n.reports@.len() && (#[trigger] n.reports@[k]).address@ == p.1
                    && n.reports@[k].reported_at == p.0;
                if k < nr {
                    assert(g.reports@[k] == n.reports@[k]);
                    assert(time_from_reports(g.reports@, p));
                }
            }
            if g.ix_time.keys().contains(p) {
                assert(time_from_reports(g.reports@, p));
                let k = choose|k: int| 0 <= k < g.reports@.len() && (#[trigger] g.reports@[k]).address@ == p.1
                    && g.reports@[k].reported_at == p.0;
                assert(n.reports@[k] == g.reports@[k]);
            }
            if p == (block.time, a) {
                assert(n.reports@[nr].address@ == p.1);
            }
        }
        assert forall|p: (Seq<char>, Seq<char>)|
            n.ix_reporter.keys().contains(p) <==> #[trigger] reporter_from_reports(n.reports@, p) by {
            if reporter_from_reports(n.reports@, p) {
                let k = choose|k: int| 0 <= k < n.reports@.len() && (#[trigger] n.reports@[k]).address@ == p.1
                    && opt_view(&n.reports@[k].reported_by) == Some(p.0);
                if k < nr {
                    assert(g.reports@[k] == n.reports@[k]);
                    assert(reporter_from_reports(g.reports@, p));
                }
            }
            if g.ix_reporter.keys().contains(p) {
                assert(reporter_from_reports(g.reports@, p));
                let k = choose|k: int| 0 <= k < g.reports@.len() && (#[trigger] g.reports@[k]).address@ == p.1
                    && opt_view(&g.reports@[k].reported_by) == Some(p.0);
                assert(n.reports@[k] == g.reports@[k]);
            }
            if p == (sender@, a) {
                assert(n.reports@[nr].address@ == p.1);
            }
        }
        assert(n.spam@.drop_last() =~= g.spam@ || g.has_spam(a));
        assert(n.reports@.last()@ == (ReportView {
                address: address@,
                reported_at: block.time,
                reported_by: Some(sender@),
                tags: tags.deep_view(),
                comment: opt_view(&x.comment),
                tx_hashes: x.tx_hashes.deep_view(),
                height: block.height,
                time: block.time,
                chain_id: block.chain_id@,
            }));
        assert(n.ix_tag.keys() == g.ix_tag.keys() + tag_keys(a, tags.deep_view()));
        assert(n.ix_report_count.keys() == g.ix_report_count.keys().remove(((count - 1) as u32, a)).insert((count, a)));
        assert(!g.has_spam(a) ==> n.spam@.last()@ == new_spam_view(a, tags.deep_view()));
        assert(g.has_spam(a) ==> forall|i: int|
                    0 <= i < gl ==> if (#[trigger] g.spam@[i]).address@
                        == a {
                        n.spam@[i]@ == (SpamView {
                            report_count: (g.spam@[i].report_count + 1) as u32,
                            ..g.spam@[i]@
                        })
                    } else {
                        n.spam@[i] == g.spam@[i]
                    });
    }
    Ok(())
}

/// The reporter a stored report names.
pub open spec fn reporter_of(r: Report) -> Seq<char> {
    match r.reported_by {
        Some(x) => x@,
        None => Seq::empty(),
    }
}

/// `x` reported `a`.
pub open spec fn reporter_filed(rs: Seq<Report>, a: Seq<char>, x: Seq<char>) -> bool {
    exists|k: int| 0 <= k < rs.len() && rs[k].address@ == a && reporter_of(rs[k]) == x
}

/// `v` lists the reporters of `a`, each once, in ascending order.
pub open spec fn reporter_listing(rs: Seq<Report>, a: Seq<char>, v: Seq<Seq<char>>) -> bool {
    &&& forall|i: int| 0 <= i < v.len() ==> #[trigger] reporter_filed(rs, a, v[i])
    &&& forall|k: int| 0 <= k < rs.len() && (#[trigger] rs[k]).address@ == a ==> v.contains(reporter_of(rs[k]))
    &&& forall|i: int, j: int| 0 <= i < j < v.len() ==> str_before(#[trigger] v[i], #[trigger] v[j])
}

/// `appellant` may appeal for `a`: anyone for a contract, only `a` itself otherwise.
pub open spec fn may_appeal(reg: Registry, appellant: Seq<char>, a: Seq<char>) -> bool {
    exists|i: int|
        0 <= i < reg.spam@.len() && (#[trigger] reg.spam@[i]).address@ == a && (
        reg.spam@[i].profile.is_contract || appellant == a)
}

/// The checks an appeal goes through, in order.
pub open spec fn appeal_check(reg: Registry, appellant: Seq<char>, a: Seq<char>) -> Result<
    (),
    ContractError,
> {
    if !reg.has_spam(a) {
        Err(ContractError::SpamEntryNotFound)
    } else if !may_appeal(reg, appellant, a) {
        Err(ContractError::NotAuthorized)
    } else if reg.has_appeal(a, appellant) {
        Err(ContractError::NotAuthorized)
    } else {
        Ok(())
    }
}

/// The reporters that have reported `address` so far, ascending.
fn current_reporters(reg: &Registry, address: &String) -> (r: Vec<String>)
    requires
        reg.wf(),
    ensures
        reporter_listing(reg.reports@, address@, r.deep_view()),
        r.deep_view().no_duplicates(),
{
    let ghost rs = reg.reports@;
    let mut keys: Vec<String> = Vec::new();
    let mut pos: Vec<usize> = Vec::new();
    let mut i: usize = 0;
    while i < reg.reports.len()
        invariant
            rs == reg.reports@,
            i <= rs.len(),
            pos@.len() == keys@.len(),
            forall|m: int|
                0 <= m < pos@.len() ==> (#[trigger] pos@[m]) < i && rs[pos@[m] as int].address@ == address@
                    && keys@[m]@ == reporter_of(rs[pos@[m] as int]),
            forall|m1: int, m2: int| 0 <= m1 < m2 < pos@.len() ==> (#[trigger] pos@[m1]) < (#[trigger] pos@[m2]),
            forall|k: int| 0 <= k < i && (#[trigger] rs[k]).address@ == address@ ==> listed(pos@, k),
        decreases rs.len() - i,
    {
        let x = &reg.reports[i];
        if x.address == *address {
            let w = match &x.reported_by {
                Some(y) => y.clone(),
                None => String::new(),
            };
            let ghost p0 = pos@;
            pos.push(i);
            keys.push(w);
            proof {
                assert forall|k: int| 0 <= k < i + 1 && (#[trigger] rs[k]).address@ == address@ implies listed(pos@, k) by {
                    if k == i {
                        assert(pos@[p0.len() as int] == k);
                    } else {
                        assert(listed(p0, k));
                        let m = choose|m: int| 0 <= m < p0.len() && p0[m] == k;
                        assert(pos@[m] == k);
                    }
                }
            }
        }
        i = i + 1;
    }
    proof {
        assert forall|m1: int, m2: int| 0 <= m1 < m2 < keys@.len() implies (#[trigger] keys@[m1])@ != (#[trigger] keys@[m2])@ by {
            let k1 = pos@[m1] as int;
            let k2 = pos@[m2] as int;
            assert(k1 < k2);
            assert((rs[k1].address@, opt_view(&rs[k1].reported_by)) != (rs[k2].address@, opt_view(&rs[k2].reported_by)));
            assert(rs[k1].reported_by.is_some() && rs[k2].reported_by.is_some());
        }
    }
    let order = order_by_key(&keys);
    let mut out: Vec<String> = Vec::new();
    let mut t: usize = 0;
    while t < order.len()
        invariant
            t <= order@.len(),
            out@.len() == t,
            forall|q: int| 0 <= q < order@.len() ==> #[trigger] order@[q] < keys@.len(),
            forall|q: int| 0 <= q < t ==> (#[trigger] out@[q])@ == keys@[order@[q] as int]@,
        decreases order.len() - t,
    {
        out.push(keys[order[t]].clone());
        t = t + 1;
    }
    proof {
        let v = out.deep_view();
        assert forall|q: int| 0 <= q < v.len() implies v[q] == keys@[order@[q] as int]@ by {
            assert(v[q] == out@[q]@);
        }
        assert forall|q: int| 0 <= q < v.len() implies #[trigger] reporter_filed(rs, address@, v[q]) by {
            let k = pos@[order@[q] as int] as int;
            assert(rs[k].address@ == address@);
        }
        assert forall|k: int| 0 <= k < rs.len() && (#[trigger] rs[k]).address@ == address@ implies v.contains(reporter_of(rs[k])) by {
            assert(listed(pos@, k));
            let m = choose|m: int| 0 <= m < pos@.len() && pos@[m] == k;
            assert(listed(order@, m));
            let q = choose|q: int| 0 <= q < order@.len() && order@[q] == m;
            assert(v[q] == reporter_of(rs[k]));
        }
        assert forall|q1: int, q2: int| 0 <= q1 < q2 < v.len() implies str_before(#[trigger] v[q1], #[trigger] v[q2]) by {
            assert(str_before(keys@[order@[q1] as int]@, keys@[order@[q2] as int]@));
        }
        assert forall|q1: int, q2: int| 0 <= q1 < q2 < v.len() implies v[q1] != v[q2] by {
            lemma_str_order(v[q1], v[q2], v[q2]);
        }
    }
    out
}

/// Files `sender`'s appeal for `address`, taking a snapshot of the
/// reporters of `address` as they stand.
pub fn appeal(reg: &mut Registry, sender: &String, address: String, argument: String) -> (r: Result<
    (),
    ContractError,
>)
    requires
        old(reg).wf(),
    ensures
        r == appeal_check(*old(reg), sender@, address@),
        final(reg).wf(),
        r is Err ==> *final(reg) == *old(reg),
        r is Ok ==> {
            &&& final(reg).owner == old(reg).owner
            &&& final(reg).spam == old(reg).spam
            &&& final(reg).reporters == old(reg).reporters
            &&& final(reg).reports == old(reg).reports
            &&& final(reg).ix_tag == old(reg).ix_tag
            &&& final(reg).ix_time == old(reg).ix_time
            &&& final(reg).ix_report_count == old(reg).ix_report_count
            &&& final(reg).ix_reporter == old(reg).ix_reporter
            &&& final(reg).appeals@.len() == old(reg).appeals@.len() + 1
            &&& final(reg).appeals@.drop_last() == old(reg).appeals@
            &&& final(reg).appeals@.last()@ == (AppealView {
                address: address@,
                appealed_by: Some(sender@),
                accepted_by: Seq::empty(),
                reported_by: final(reg).appeals@.last()@.reported_by,
                argument: argument@,
            })
            &&& reporter_listing(old(reg).reports@, address@, final(reg).appeals@.last()@.reported_by)
        },
{
    let i = match reg.find_spam(&address) {
        Some(i) => i,
        None => {
            return Err(ContractError::SpamEntryNotFound);
        },
    };
    if !(reg.spam[i].profile.is_contract || address == *sender) {
        proof {
            assert forall|k: int|
                0 <= k < reg.spam@.len() && (#[trigger] reg.spam@[k]).address@ == address@ implies !(
                reg.spam@[k].profile.is_contract || sender@ == address@) by {
                if k != i {
                    if k < i {
                        assert(reg.spam@[k].address@ != reg.spam@[i as int].address@);
                    } else {
                        assert(reg.spam@[i as int].address@ != reg.spam@[k].address@);
                    }
                }
            }
        }
        return Err(ContractError::NotAuthorized);
    }
    if reg.find_appeal(&address, sender).is_some() {
        return Err(ContractError::NotAuthorized);
    }
    let reported_by = current_reporters(reg, &address);
    let ghost g = *reg;
    let new_appeal = Appeal {
        address,
        appealed_by: Some(sender.clone()),
        accepted_by: Vec::new(),
        reported_by,
        argument,
    };
    assert(new_appeal.accepted_by.deep_view() =~= Seq::<Seq<char>>::empty());
    reg.appeals.push(new_appeal);
    proof {
        let n = *reg;
        assert(n.appeals@.drop_last() =~= g.appeals@);
        assert forall|k: int, l: int|
            0 <= k < l < n.appeals@.len() implies ((#[trigger] n.appeals@[k]).address@, opt_view(
                &n.appeals@[k].appealed_by,
            )) != ((#[trigger] n.appeals@[l]).address@, opt_view(&n.appeals@[l].appealed_by)) by {
            assert(n.appeals@[k] == g.appeals@[k]);
            if l < g.appeals@.len() {
                assert(n.appeals@[l] == g.appeals@[l]);
            }
        }
        assert forall|k: int| 0 <= k < n.appeals@.len() implies (
        #[trigger] n.appeals@[k]).appealed_by.is_some() by {
            if k < g.appeals@.len() {
                assert(n.appeals@[k] == g.appeals@[k]);
            }
        }
        assert(forall|x: Seq<char>| n.has_spam(x) == g.has_spam(x));
        assert forall|k: int| 0 <= k < n.appeals@.len() implies crate::state::appeal_wf(
            #[trigger] n.appeals@[k]@,
        ) by {
            if k < g.appeals@.len() {
                assert(n.appeals@[k] == g.appeals@[k]);
            }
        }
    }
    Ok(())
}

/// `r` is one of the snapshot's reporters and has not accepted yet.
pub open spec fn accepts(ap: AppealView, r: Seq<char>) -> bool {
    ap.reported_by.contains(r) && !ap.accepted_by.contains(r)
}

/// The appeal that `appellant` filed for `a` would take `r`'s acceptance.
pub open spec fn appeal_accepts(reg: Registry, a: Seq<char>, appellant: Seq<char>, r: Seq<char>) -> bool {
    exists|j: int|
        0 <= j < reg.appeals@.len() && (#[trigger] reg.appeals@[j]).address@ == a && opt_view(
            &reg.appeals@[j].appealed_by,
        ) == Some(appellant) && accepts(reg.appeals@[j]@, r)
}

/// The checks an acceptance goes through, in order.
pub open spec fn forgive_check(reg: Registry, reporter: Seq<char>, a: Seq<char>, appellant: Seq<char>) -> Result<
    (),
    ContractError,
> {
    if !reg.has_spam(a) {
        Err(ContractError::SpamEntryNotFound)
    } else if !reg.has_appeal(a, appellant) {
        Err(ContractError::AppealNotFound)
    } else if !appeal_accepts(reg, a, appellant, reporter) {
        Err(ContractError::AppealAlreadyAccepted)
    } else {
        Ok(())
    }
}

/// `sender`, a reporter, accepts the appeal that `appellant` filed for
/// `address`. Once every reporter of the appeal's snapshot has accepted,
/// the address is forgiven.
#[verifier::rlimit(50)]
pub fn forgive(reg: &mut Registry, sender: &String, address: String, appellant: String) -> (r: Result<
    (),
    ContractError,
>)
    requires
        old(reg).wf(),
    ensures
        r == forgive_check(*old(reg), sender@, address@, appellant@),
        final(reg).wf(),
        r is Err ==> *final(reg) == *old(reg),
        r is Ok ==> {
            &&& final(reg).owner == old(reg).owner
            &&& final(reg).reporters == old(reg).reporters
            &&& final(reg).reports == old(reg).reports
            &&& final(reg).ix_tag == old(reg).ix_tag
            &&& final(reg).ix_time == old(reg).ix_time
            &&& final(reg).ix_report_count == old(reg).ix_report_count
            &&& final(reg).ix_reporter == old(reg).ix_reporter
            &&& final(reg).appeals@.len() == old(reg).appeals@.len()
            &&& final(reg).spam@.len() == old(reg).spam@.len()
            &&& forall|j: int|
                0 <= j < old(reg).appeals@.len() ==> if (#[trigger] old(reg).appeals@[j]).address@
                    == address@ && opt_view(&old(reg).appeals@[j].appealed_by) == Some(appellant@) {
                    final(reg).appeals@[j]@ == (AppealView {
                        accepted_by: old(reg).appeals@[j]@.accepted_by.push(sender@),
                        ..old(reg).appeals@[j]@
                    })
                } else {
                    final(reg).appeals@[j] == old(reg).appeals@[j]
                }
            &&& forall|j: int, i: int|
                0 <= j < old(reg).appeals@.len() && 0 <= i < old(reg).spam@.len()
                    && (#[trigger] old(reg).appeals@[j]).address@ == address@ && opt_view(
                    &old(reg).appeals@[j].appealed_by,
                ) == Some(appellant@) && (#[trigger] old(reg).spam@[i]).address@ == address@
                    ==> final(reg).spam@[i]@ == (SpamView {
                    is_forgiven: old(reg).spam@[i].is_forgiven || final(reg).appeals@[j]@.reported_by.len()
                        == final(reg).appeals@[j]@.accepted_by.len(),
                    ..old(reg).spam@[i]@
                })
            &&& forall|i: int|
                0 <= i < old(reg).spam@.len() && (#[trigger] old(reg).spam@[i]).address@ != address@
                    ==> final(reg).spam@[i] == old(reg).spam@[i]
        },
{
    let i = match reg.find_spam(&address) {
        Some(i) => i,
        None => {
            return Err(ContractError::SpamEntryNotFound);
        },
    };
    let j = match reg.find_appeal(&address, &appellant) {
        Some(j) => j,
        None => {
            return Err(ContractError::AppealNotFound);
        },
    };
    let ghost g = *reg;
    proof {
        assert forall|k: int|
            0 <= k < g.appeals@.len() && (#[trigger] g.appeals@[k]).address@ == address@ && opt_view(
                &g.appeals@[k].appealed_by,
            ) == Some(appellant@) implies k == j by {
            if k < j {
                assert(((g.appeals@[k]).address@, opt_view(&g.appeals@[k].appealed_by)) != (
                (g.appeals@[j as int]).address@, opt_view(&g.appeals@[j as int].appealed_by)));
            } else if k > j {
                assert(((g.appeals@[j as int]).address@, opt_view(&g.appeals@[j as int].appealed_by)) != (
                (g.appeals@[k]).address@, opt_view(&g.appeals@[k].appealed_by)));
            }
        }
        assert forall|k: int|
            0 <= k < g.spam@.len() && (#[trigger] g.spam@[k]).address@ == address@ implies k == i by {
            if k < i {
                assert(g.spam@[k].address@ != g.spam@[i as int].address@);
            } else if k > i {
                assert(g.spam@[i as int].address@ != g.spam@[k].address@);
            }
        }
    }
    let can_accept = crate::models::contains_str(&reg.appeals[j].reported_by, sender)
        && !crate::models::contains_str(&reg.appeals[j].accepted_by, sender);
    if !can_accept {
        return Err(ContractError::AppealAlreadyAccepted);
    }
    let mut ap = Appeal {
        address: String::new(),
        appealed_by: None,
        accepted_by: Vec::new(),
        reported_by: Vec::new(),
        argument: String::new(),
    };
    reg.appeals.set_and_swap(j, &mut ap);
    let accepted = ap.accept(sender);
    let satisfied = ap.is_satisfied();
    reg.appeals.set_and_swap(j, &mut ap);
    let ghost g2 = *reg;
    if satisfied {
        let mut rec = Spam {
            address: String::new(),
            profile: crate::models::SpamProfile::new(false),
            tags: Vec::new(),
            is_forgiven: false,
            report_count: 0,
        };
        reg.spam.set_and_swap(i, &mut rec);
        rec.is_forgiven = true;
        reg.spam.set_and_swap(i, &mut rec);
    }
    proof {
        let n = *reg;
        assert(accepted);
        assert(n.appeals@ == g.appeals@.update(j as int, n.appeals@[j as int]));
        assert(n.spam@.len() == g.spam@.len());
        assert forall|k: int| 0 <= k < n.spam@.len() implies (#[trigger] n.spam@[k]).address@
            == g.spam@[k].address@ && n.spam@[k].report_count == g.spam@[k].report_count by {
            if k != i {
                assert(n.spam@[k] == g.spam@[k]);
            }
        }
        assert forall|x: Seq<char>| n.has_spam(x) == g.has_spam(x) by {
            if n.has_spam(x) {
                let k = choose|k: int| 0 <= k < n.spam@.len() && (#[trigger] n.spam@[k]).address@ == x;
                assert(g.spam@[k].address@ == x);
            }
            if g.has_spam(x) {
                let k = choose|k: int| 0 <= k < g.spam@.len() && (#[trigger] g.spam@[k]).address@ == x;
                assert(n.spam@[k].address@ == x);
            }
        }
        assert forall|k: int| 0 <= k < n.appeals@.len() implies (#[trigger] n.appeals@[k]).address@
            == g.appeals@[k].address@ && n.appeals@[k].appealed_by == g.appeals@[k].appealed_by by {
            if k != j {
                assert(n.appeals@[k] == g.appeals@[k]);
            }
        }
        assert(n.spam@[i as int].is_forgiven == (g.spam@[i as int].is_forgiven || n.appeals@[j as int]@.reported_by.len()
            == n.appeals@[j as int]@.accepted_by.len()));
        assert(appeal_accepts(g, address@, appellant@, sender@));
    }
    Ok(())
}

} // verus!
