//! Properties that relate several operations, or hold of every state.
use vstd::prelude::*;
use crate::error::ContractError;
use crate::execute::{accepts, report_check};
use crate::index::{in_order, in_range, is_page, key_before, lemma_key_order, IndexValue};
use crate::models::Spam;
use crate::query::{page_result, record_of, resolves};
use crate::index::opt_view;
use crate::state::{count_reports, report_filed, report_listing, reporter_from_reports, who, Registry};
use crate::text::{lemma_str_order, str_before};

verus! {

/// Every spam record counts exactly the reports filed against it.
pub proof fn lemma_report_count_matches(reg: Registry, i: int)
    requires
        reg.wf(),
        0 <= i < reg.spam@.len(),
    ensures
        reg.spam@[i].report_count == count_reports(reg.reports@, reg.spam@[i].address@),
{
}

/// The report-count index holds exactly one key for each recorded address,
/// at its current count.
pub proof fn lemma_one_count_entry(reg: Registry, i: int)
    requires
        reg.wf(),
        0 <= i < reg.spam@.len(),
    ensures
        reg.ix_report_count.keys().contains((reg.spam@[i].report_count, reg.spam@[i].address@)),
        forall|v: u32|
            #[trigger] reg.ix_report_count.keys().contains((v, reg.spam@[i].address@)) ==> v
                == reg.spam@[i].report_count,
{
    assert(reg.ix_report_count.keys().contains((reg.spam@[i].report_count, reg.spam@[i].address@)));
}

/// Once a reporter's report against an address is stored, another report
/// by the same reporter against it is refused; when every other check
/// passes, the refusal is `DuplicateReport`.
pub proof fn lemma_second_report_refused(
    reg: Registry,
    reporter: Seq<char>,
    address: Seq<char>,
    address_valid: bool,
    tags: Seq<Seq<char>>,
)
    requires
        reg.reports@.len() > 0,
        reg.reports@.last()@.address == address,
        reg.reports@.last()@.reported_by == Some(reporter),
    ensures
        report_check(reg, reporter, address, address_valid, tags) is Err,
        reg.is_reporter(reporter) && address_valid && crate::state::tags_check(tags) is Ok
            ==> report_check(reg, reporter, address, address_valid, tags) == Err::<
            (),
            ContractError,
        >(ContractError::DuplicateReport),
{
    let last = reg.reports@.len() - 1;
    assert(reg.reports@[last] == reg.reports@.last());
    assert(reg.has_report(address, reporter));
}

/// A reporter's acceptance counts once: after it, the same reporter is
/// refused, and the list of acceptances holds no one twice.
pub proof fn lemma_accept_once(ap: crate::models::AppealView, reporter: Seq<char>)
    requires
        accepts(ap, reporter),
        ap.accepted_by.no_duplicates(),
    ensures
        !accepts(
            crate::models::AppealView { accepted_by: ap.accepted_by.push(reporter), ..ap },
            reporter,
        ),
        ap.accepted_by.push(reporter).no_duplicates(),
{
    let n = ap.accepted_by.len() as int;
    assert(ap.accepted_by.push(reporter)[n] == reporter);
    assert forall|i: int, j: int|
        0 <= i < j < n + 1 implies ap.accepted_by.push(reporter)[i] != ap.accepted_by.push(
            reporter,
        )[j] by {
        if j == n {
            assert(ap.accepted_by[i] == ap.accepted_by.push(reporter)[i]);
        }
    }
}

/// A supplied cursor value is an exclusive bound in both directions: no
/// key of the page has that value, and every key lies past it in the
/// direction of the scan.
pub proof fn lemma_bound_exclusive<K: IndexValue>(
    keys: Set<(K::V, Seq<char>)>,
    bound: K::V,
    reversed: bool,
    limit: nat,
    page: Seq<(K::V, Seq<char>)>,
    i: int,
)
    requires
        is_page::<K>(keys, Some((bound, None)), reversed, limit, page),
        0 <= i < page.len(),
    ensures
        page[i].0 != bound,
        reversed ==> K::before(page[i].0, bound),
        !reversed ==> K::before(bound, page[i].0),
{
    K::lemma_order(bound, bound, bound);
    assert(in_range::<K>(Some((bound, None)), reversed, page[i]));
}

/// A key past the bound is followed, in scan order, only by keys past it.
pub proof fn lemma_range_trans<K: IndexValue>(
    bound: Option<(K::V, Option<Seq<char>>)>,
    reversed: bool,
    p: (K::V, Seq<char>),
    q: (K::V, Seq<char>),
)
    requires
        in_range::<K>(bound, reversed, p),
        in_order::<K>(p, q, reversed),
    ensures
        in_range::<K>(bound, reversed, q),
{
    match bound {
        None => {},
        Some((b, None)) => {
            K::lemma_order(b, p.0, q.0);
            K::lemma_order(q.0, p.0, b);
        },
        Some((b, Some(sb))) => {
            lemma_key_order::<K>((b, sb), p, q);
            lemma_key_order::<K>(q, p, (b, sb));
        },
    }
}

/// Resuming a full page from the continuation key (its last key) gives the
/// next page: together the two are the page of twice the size, with
/// nothing repeated and nothing skipped, in either direction.
pub proof fn lemma_resume_after_page<K: IndexValue>(
    keys: Set<(K::V, Seq<char>)>,
    bound: Option<(K::V, Option<Seq<char>>)>,
    reversed: bool,
    limit: nat,
    first: Seq<(K::V, Seq<char>)>,
    second: Seq<(K::V, Seq<char>)>,
)
    requires
        limit > 0,
        is_page::<K>(keys, bound, reversed, limit, first),
        first.len() == limit,
        is_page::<K>(keys, Some((first.last().0, Some(first.last().1))), reversed, limit, second),
    ensures
        is_page::<K>(keys, bound, reversed, 2 * limit, first + second),
{
    let c = first + second;
    let last = first.last();
    let nb = Some((last.0, Some(last.1)));
    let n = first.len() as int;
    assert(first[n - 1] == last);
    assert(in_range::<K>(bound, reversed, first[n - 1]));
    assert forall|i: int| 0 <= i < c.len() implies keys.contains(#[trigger] c[i]) && in_range::<K>(
        bound,
        reversed,
        c[i],
    ) by {
        if i >= n {
            let s = second[i - n];
            assert(c[i] == s);
            assert(in_range::<K>(nb, reversed, s));
            lemma_range_trans::<K>(bound, reversed, last, s);
        } else {
            assert(c[i] == first[i]);
        }
    }
    assert forall|i: int, j: int| 0 <= i < j < c.len() implies in_order::<K>(
        #[trigger] c[i],
        #[trigger] c[j],
        reversed,
    ) by {
        if j < n {
            assert(c[i] == first[i] && c[j] == first[j]);
        } else if i >= n {
            assert(c[i] == second[i - n] && c[j] == second[j - n]);
        } else {
            let s = second[j - n];
            assert(c[i] == first[i] && c[j] == s);
            assert(in_range::<K>(nb, reversed, s));
            assert(in_order::<K>(last, s, reversed));
            if i < n - 1 {
                assert(in_order::<K>(first[i], first[n - 1], reversed));
                lemma_key_order::<K>(first[i], last, s);
                lemma_key_order::<K>(s, last, first[i]);
            }
        }
    }
    assert forall|p: (K::V, Seq<char>)|
        #[trigger] keys.contains(p) && in_range::<K>(bound, reversed, p) && !c.contains(p) implies c.len()
            == 2 * limit && (c.len() == 0 || in_order::<K>(c.last(), p, reversed)) by {
        assert(!first.contains(p)) by {
            if first.contains(p) {
                let i = choose|i: int| 0 <= i < first.len() && first[i] == p;
                assert(c[i] == p);
            }
        }
        assert(in_order::<K>(last, p, reversed));
        assert(in_range::<K>(nb, reversed, p));
        assert(!second.contains(p)) by {
            if second.contains(p) {
                let i = choose|i: int| 0 <= i < second.len() && second[i] == p;
                assert(c[n + i] == p);
            }
        }
        assert(c.last() == second.last());
    }
}

/// Quorum is unanimity of the snapshot: when acceptances come only from
/// the snapshot's reporters, each at most once, they reach the snapshot's
/// size exactly when every reporter of the snapshot has accepted.
pub proof fn lemma_satisfied_iff_unanimous(ap: crate::models::AppealView)
    requires
        ap.accepted_by.no_duplicates(),
        ap.reported_by.no_duplicates(),
        forall|x: Seq<char>| ap.accepted_by.contains(x) ==> ap.reported_by.contains(x),
    ensures
        (ap.accepted_by.len() == ap.reported_by.len()) <==> (forall|x: Seq<char>|
            ap.reported_by.contains(x) ==> ap.accepted_by.contains(x)),
{
    broadcast use vstd::seq_lib::group_seq_properties;

    let a = ap.accepted_by.to_set();
    let r = ap.reported_by.to_set();
    ap.accepted_by.unique_seq_to_set();
    ap.reported_by.unique_seq_to_set();
    assert(a.subset_of(r));
    if ap.accepted_by.len() == ap.reported_by.len() {
        vstd::set_lib::lemma_subset_equality(a, r);
        assert forall|x: Seq<char>| ap.reported_by.contains(x) implies ap.accepted_by.contains(x) by {
            assert(r.contains(x));
        }
    }
    if forall|x: Seq<char>| ap.reported_by.contains(x) ==> ap.accepted_by.contains(x) {
        assert(a =~= r);
    }
}

/// In a consistent registry every stored appeal is satisfied, the state in
/// which acceptance forgives its address, exactly when every reporter of
/// its snapshot has accepted it.
pub proof fn lemma_appeal_quorum(reg: Registry, j: int)
    requires
        reg.wf(),
        0 <= j < reg.appeals@.len(),
    ensures
        (reg.appeals@[j]@.accepted_by.len() == reg.appeals@[j]@.reported_by.len()) <==> (forall|
            x: Seq<char>,
        |
            reg.appeals@[j]@.reported_by.contains(x) ==> reg.appeals@[j]@.accepted_by.contains(x)),
{
    lemma_satisfied_iff_unanimous(reg.appeals@[j]@);
}

/// A reversed scan is the ascending scan turned around: its page descends,
/// starts from the largest keys below the bound (from the index's end when
/// there is none), and every key it leaves out lies below its last key.
pub proof fn lemma_reversed_page_descends<K: IndexValue>(
    keys: Set<(K::V, Seq<char>)>,
    bound: Option<(K::V, Option<Seq<char>>)>,
    limit: nat,
    page: Seq<(K::V, Seq<char>)>,
)
    requires
        is_page::<K>(keys, bound, true, limit, page),
    ensures
        forall|i: int, j: int|
            0 <= i < j < page.len() ==> key_before::<K>(#[trigger] page[j], #[trigger] page[i]),
        forall|p: (K::V, Seq<char>)|
            #[trigger] keys.contains(p) && in_range::<K>(bound, true, p) && !page.contains(p) ==> page.len()
                == limit && (page.len() == 0 || key_before::<K>(p, page.last())),
        forall|i: int| 0 <= i < page.len() ==> match bound {
            Some((b, None)) => K::before((#[trigger] page[i]).0, b),
            Some((b, Some(sb))) => key_before::<K>(page[i], (b, sb)),
            None => true,
        },
{
    assert forall|i: int| 0 <= i < page.len() implies match bound {
        Some((b, None)) => K::before((#[trigger] page[i]).0, b),
        Some((b, Some(sb))) => key_before::<K>(page[i], (b, sb)),
        None => true,
    } by {
        assert(in_range::<K>(bound, true, page[i]));
    }
}

/// Paginating again from the cursor that a full page returned gives the
/// records of the next page: the two pages together hold the records of
/// the page of twice the size, with no key repeated and none skipped.
pub proof fn lemma_paginate_resume<K: IndexValue>(
    keys: Set<(K::V, Seq<char>)>,
    spam: Seq<Spam>,
    bound: Option<(K::V, Option<Seq<char>>)>,
    reversed: bool,
    limit: nat,
    first: Seq<Spam>,
    next: Option<(K::V, Option<Seq<char>>)>,
    second: Seq<Spam>,
    next2: Option<(K::V, Option<Seq<char>>)>,
)
    requires
        limit > 0,
        page_result::<K>(keys, spam, bound, reversed, limit, first, next),
        next is Some,
        page_result::<K>(keys, spam, next, reversed, limit, second, next2),
    ensures
        exists|ks: Seq<(K::V, Seq<char>)>|
            #[trigger] is_page::<K>(keys, bound, reversed, 2 * limit, ks) && resolves(spam, ks, first + second),
{
    let ks1 = choose|ks: Seq<(K::V, Seq<char>)>|
        #[trigger] is_page::<K>(keys, bound, reversed, limit, ks) && resolves(spam, ks, first) && next == (
        if ks.len() == limit && ks.len() > 0 {
            Some((ks.last().0, Some(ks.last().1)))
        } else {
            None
        });
    let ks2 = choose|ks: Seq<(K::V, Seq<char>)>|
        #[trigger] is_page::<K>(keys, next, reversed, limit, ks) && resolves(spam, ks, second) && next2 == (
        if ks.len() == limit && ks.len() > 0 {
            Some((ks.last().0, Some(ks.last().1)))
        } else {
            None
        });
    lemma_resume_after_page::<K>(keys, bound, reversed, limit, ks1, ks2);
    let ks = ks1 + ks2;
    let pg = first + second;
    assert forall|k: int| 0 <= k < ks.len() implies #[trigger] record_of(spam, ks[k].1, pg[k]) by {
        if k < ks1.len() {
            assert(ks[k] == ks1[k] && pg[k] == first[k]);
        } else {
            assert(ks[k] == ks2[k - ks1.len()] && pg[k] == second[k - ks1.len()]);
        }
    }
    assert(resolves(spam, ks, pg));
}

/// The reporters of `a` among `rs`.
pub open spec fn reporter_set(rs: Seq<crate::models::Report>, a: Seq<char>) -> Set<Seq<char>> {
    Set::new(|r: Seq<char>| reporter_from_reports(rs, (r, a)))
}

proof fn lemma_reporter_set_count(rs: Seq<crate::models::Report>, a: Seq<char>)
    requires
        forall|i: int| 0 <= i < rs.len() ==> (#[trigger] rs[i]).reported_by.is_some(),
        forall|i: int, j: int|
            0 <= i < j < rs.len() ==> ((#[trigger] rs[i]).address@, opt_view(&rs[i].reported_by)) != (
            (#[trigger] rs[j]).address@, opt_view(&rs[j].reported_by)),
    ensures
        reporter_set(rs, a).finite(),
        reporter_set(rs, a).len() == count_reports(rs, a),
    decreases rs.len(),
{
    if rs.len() == 0 {
        assert(reporter_set(rs, a) =~= Set::<Seq<char>>::empty());
    } else {
        let prev = rs.drop_last();
        let n = rs.len() - 1;
        let x = rs.last();
        assert(rs[n] == x);
        assert forall|i: int| 0 <= i < prev.len() implies #[trigger] prev[i] == rs[i] by {}
        lemma_reporter_set_count(prev, a);
        let sp = reporter_set(prev, a);
        let sr = reporter_set(rs, a);
        if x.address@ == a {
            let w = who(opt_view(&x.reported_by));
            assert forall|r: Seq<char>| sr.contains(r) <==> sp.insert(w).contains(r) by {
                if sr.contains(r) {
                    let k = choose|k: int| 0 <= k < rs.len() && (#[trigger] rs[k]).address@ == a && opt_view(
                        &rs[k].reported_by,
                    ) == Some(r);
                    if k < n {
                        assert(prev[k] == rs[k]);
                        assert(reporter_from_reports(prev, (r, a)));
                    }
                }
                if sp.contains(r) {
                    let k = choose|k: int| 0 <= k < prev.len() && (#[trigger] prev[k]).address@ == a && opt_view(
                        &prev[k].reported_by,
                    ) == Some(r);
                    assert(rs[k] == prev[k]);
                }
                if r == w {
                    assert(rs[n].address@ == a);
                }
            }
            assert(sr =~= sp.insert(w));
            assert(!sp.contains(w)) by {
                if sp.contains(w) {
                    let k = choose|k: int| 0 <= k < prev.len() && (#[trigger] prev[k]).address@ == a && opt_view(
                        &prev[k].reported_by,
                    ) == Some(w);
                    assert(rs[k] == prev[k]);
                    assert((rs[k].address@, opt_view(&rs[k].reported_by)) != (rs[n].address@, opt_view(&rs[n].reported_by)));
                }
            }
        } else {
            assert forall|r: Seq<char>| sr.contains(r) <==> sp.contains(r) by {
                if sr.contains(r) {
                    let k = choose|k: int| 0 <= k < rs.len() && (#[trigger] rs[k]).address@ == a && opt_view(
                        &rs[k].reported_by,
                    ) == Some(r);
                    assert(k < n);
                    assert(prev[k] == rs[k]);
                    assert(reporter_from_reports(prev, (r, a)));
                }
                if sp.contains(r) {
                    let k = choose|k: int| 0 <= k < prev.len() && (#[trigger] prev[k]).address@ == a && opt_view(
                        &prev[k].reported_by,
                    ) == Some(r);
                    assert(rs[k] == prev[k]);
                }
            }
            assert(sr =~= sp);
        }
    }
}

/// The reports that `details` lists for an address are as many as its
/// record's report count.
pub proof fn lemma_listing_counts_reports(reg: Registry, i: int, v: Seq<crate::models::ReportView>)
    requires
        reg.wf(),
        0 <= i < reg.spam@.len(),
        report_listing(reg.reports@, reg.spam@[i].address@, v),
    ensures
        v.len() == reg.spam@[i].report_count,
{
    broadcast use vstd::seq_lib::group_seq_properties;

    let rs = reg.reports@;
    let a = reg.spam@[i].address@;
    lemma_reporter_set_count(rs, a);
    let w = v.map_values(|r: crate::models::ReportView| who(r.reported_by));
    assert forall|p: int, q: int| 0 <= p < q < w.len() implies w[p] != w[q] by {
        lemma_str_order(w[p], w[q], w[q]);
        assert(str_before(who(v[p].reported_by), who(v[q].reported_by)));
    }
    assert(w.no_duplicates());
    w.unique_seq_to_set();
    assert forall|r: Seq<char>| w.to_set().contains(r) <==> reporter_set(rs, a).contains(r) by {
        if w.to_set().contains(r) {
            assert(w.contains(r));
            let p = choose|p: int| 0 <= p < w.len() && w[p] == r;
            assert(report_filed(rs, a, v[p]));
            let k = choose|k: int| 0 <= k < rs.len() && rs[k].address@ == a && rs[k]@ == v[p];
            assert(rs[k].reported_by.is_some());
            assert(reporter_from_reports(rs, (r, a)));
        }
        if reporter_set(rs, a).contains(r) {
            let k = choose|k: int| 0 <= k < rs.len() && (#[trigger] rs[k]).address@ == a && opt_view(
                &rs[k].reported_by,
            ) == Some(r);
            assert(v.contains(rs[k]@));
            let p = choose|p: int| 0 <= p < v.len() && v[p] == rs[k]@;
            assert(w[p] == r);
            assert(w.contains(r));
        }
    }
    assert(w.to_set() =~= reporter_set(rs, a));
}

} // verus!
