//! Read-only queries: one address in detail, pages of an index, and the
//! owner configuration.
use vstd::prelude::*;
use crate::error::ContractError;
use crate::index::{bound_view, is_page, Index, IndexValue, KeyBound};
use crate::models::{contains_str, Spam};
use crate::msg::{Cursor, PaginationResponse, SelectResponse, SpamResponse};
use crate::state::{appeal_listing, load_appeals, load_reports, load_spam, report_listing, Registry};

verus! {

pub const MAX_LIMIT: u32 = 50;

/// The page size used for a requested limit: fifty by default, and
/// otherwise the request brought into the range one to fifty.
pub open spec fn effective_limit(limit: Option<u32>) -> nat {
    match limit {
        None => MAX_LIMIT as nat,
        Some(l) => if l < 1 {
            1
        } else if l > MAX_LIMIT {
            MAX_LIMIT as nat
        } else {
            l as nat
        },
    }
}

/// `rec` is the stored record of `subject`.
pub open spec fn record_of(spam: Seq<Spam>, subject: Seq<char>, rec: Spam) -> bool {
    exists|i: int| 0 <= i < spam.len() && (#[trigger] spam[i]).address@ == subject && rec@ == spam[i]@
}

/// Each key's subject resolved to its spam record.
pub open spec fn resolves<V>(spam: Seq<Spam>, keys: Seq<(V, Seq<char>)>, page: Seq<Spam>) -> bool {
    &&& page.len() == keys.len()
    &&& forall|k: int| 0 <= k < keys.len() ==> #[trigger] record_of(spam, keys[k].1, page[k])
}

/// `page` holds the records of the first `limit` keys past `bound`, and
/// `next` is the last key, value and subject, when the page is full.
pub open spec fn page_result<K: IndexValue>(
    keys: Set<(K::V, Seq<char>)>,
    spam: Seq<Spam>,
    bound: Option<(K::V, Option<Seq<char>>)>,
    reversed: bool,
    limit: nat,
    page: Seq<Spam>,
    next: Option<(K::V, Option<Seq<char>>)>,
) -> bool {
    exists|ks: Seq<(K::V, Seq<char>)>|
        #[trigger] is_page::<K>(keys, bound, reversed, limit, ks) && resolves(spam, ks, page) && next == (
        if ks.len() == limit && ks.len() > 0 {
            Some((ks.last().0, Some(ks.last().1)))
        } else {
            None
        })
}

/// Position of the record for `address` among `spam`.
fn position(spam: &Vec<Spam>, address: &String) -> (r: Option<usize>)
    ensures
        match r {
            Some(i) => i < spam@.len() && spam@[i as int].address@ == address@,
            None => forall|i: int| 0 <= i < spam@.len() ==> (#[trigger] spam@[i]).address@ != address@,
        },
{
    let mut i: usize = 0;
    while i < spam.len()
        invariant
            i <= spam@.len(),
            forall|j: int| 0 <= j < i ==> (#[trigger] spam@[j]).address@ != address@,
        decreases spam.len() - i,
    {
        if spam[i].address == *address {
            return Some(i);
        }
        i = i + 1;
    }
    None
}

/// Scans `ix` and resolves each subject found.
fn scan_page<K: IndexValue>(
    spam: &Vec<Spam>,
    ix: &Index<K>,
    bound: &Option<KeyBound<K>>,
    reversed: bool,
    limit: usize,
) -> (r: (Vec<Spam>, Option<KeyBound<K>>))
    requires
        forall|p: (K::V, Seq<char>)| #[trigger]
            ix.keys().contains(p) ==> exists|i: int|
                0 <= i < spam@.len() && (#[trigger] spam@[i]).address@ == p.1,
    ensures
        page_result::<K>(ix.keys(), spam@, bound_view(bound), reversed, limit as nat, r.0@, bound_view(&r.1)),
{
    let pos = ix.scan(bound, reversed, limit);
    let ghost ks = ix.keys_at(pos@);
    let mut page: Vec<Spam> = Vec::new();
    let mut k: usize = 0;
    while k < pos.len()
        invariant
            ks == ix.keys_at(pos@),
            k <= pos@.len(),
            page@.len() == k,
            forall|m: int| 0 <= m < pos@.len() ==> #[trigger] pos@[m] < ix.entries@.len(),
            forall|p: (K::V, Seq<char>)| #[trigger]
                ix.keys().contains(p) ==> exists|i: int|
                    0 <= i < spam@.len() && (#[trigger] spam@[i]).address@ == p.1,
            forall|m: int| 0 <= m < k ==> #[trigger] record_of(spam@, ks[m].1, page@[m]),
        decreases pos.len() - k,
    {
        let e = &ix.entries[pos[k]];
        proof {
            let p = ks[k as int];
            assert(ix.keys().contains(p));
            assert(p.1 == e.subject@);
        }
        match position(spam, &e.subject) {
            Some(i) => {
                let ghost prev = page@;
                page.push(spam[i].copy());
                proof {
                    assert forall|m: int| 0 <= m < k + 1 implies #[trigger] record_of(
                        spam@,
                        ks[m].1,
                        page@[m],
                    ) by {
                        if m < k {
                            assert(page@[m] == prev[m]);
                            assert(record_of(spam@, ks[m].1, prev[m]));
                        } else {
                            assert(spam@[i as int].address@ == ks[m].1);
                        }
                    }
                }
            },
            None => {
                assert(false);
                return (page, None);
            },
        }
        k = k + 1;
    }
    let next = if pos.len() == limit && pos.len() > 0 {
        let e = &ix.entries[pos[pos.len() - 1]];
        Some(KeyBound { value: e.value.duplicate(), subject: Some(e.subject.clone()) })
    } else {
        None
    };
    assert(is_page::<K>(ix.keys(), bound_view(bound), reversed, limit as nat, ks));
    assert(ks.len() == pos@.len());
    assert(page@.len() == ks.len());
    assert(resolves(spam@, ks, page@));
    (page, next)
}

/// One page of the index that `cursor` selects, resuming strictly after
/// the cursor's bound when it has one: a value alone, or the whole key
/// that a full page hands back as its continuation.
pub fn paginate(
    reg: &Registry,
    cursor: Cursor,
    maybe_limit: Option<u32>,
    maybe_reversed: Option<bool>,
) -> (r: Result<PaginationResponse, ContractError>)
    requires
        reg.wf(),
    ensures
        r matches Ok(resp) && ({
            let rev = match maybe_reversed {
                Some(x) => x,
                None => false,
            };
            let lim = effective_limit(maybe_limit);
            match cursor {
                Cursor::ReportCount(b) => page_result::<u32>(
                    reg.ix_report_count.keys(),
                    reg.spam@,
                    bound_view(&b),
                    rev,
                    lim,
                    resp.page@,
                    match resp.next {
                        Some(Cursor::ReportCount(c)) => bound_view(&c),
                        _ => None,
                    },
                ) && (resp.next is None || resp.next matches Some(Cursor::ReportCount(Some(_)))),
                Cursor::Timestamp(b) => page_result::<u64>(
                    reg.ix_time.keys(),
                    reg.spam@,
                    bound_view(&b),
                    rev,
                    lim,
                    resp.page@,
                    match resp.next {
                        Some(Cursor::Timestamp(c)) => bound_view(&c),
                        _ => None,
                    },
                ) && (resp.next is None || resp.next matches Some(Cursor::Timestamp(Some(_)))),
                Cursor::Reporter(b) => page_result::<String>(
                    reg.ix_reporter.keys(),
                    reg.spam@,
                    bound_view(&b),
                    rev,
                    lim,
                    resp.page@,
                    match resp.next {
                        Some(Cursor::Reporter(c)) => bound_view(&c),
                        _ => None,
                    },
                ) && (resp.next is None || resp.next matches Some(Cursor::Reporter(Some(_)))),
                Cursor::Tag(b) => page_result::<String>(
                    reg.ix_tag.keys(),
                    reg.spam@,
                    bound_view(&b),
                    rev,
                    lim,
                    resp.page@,
                    match resp.next {
                        Some(Cursor::Tag(c)) => bound_view(&c),
                        _ => None,
                    },
                ) && (resp.next is None || resp.next matches Some(Cursor::Tag(Some(_)))),
            }
        }),
{
    let requested: u32 = match maybe_limit {
        Some(l) => l,
        None => MAX_LIMIT,
    };
    let limit: usize = if requested < 1 {
        1
    } else if requested > MAX_LIMIT {
        MAX_LIMIT as usize
    } else {
        requested as usize
    };
    let reversed = match maybe_reversed {
        Some(x) => x,
        None => false,
    };
    assert forall|p: (u32, Seq<char>)| #[trigger]
        reg.ix_report_count.keys().contains(p) implies exists|i: int|
            0 <= i < reg.spam@.len() && (#[trigger] reg.spam@[i]).address@ == p.1 by {
        assert(reg.has_spam(p.1));
    }
    assert forall|p: (u64, Seq<char>)| #[trigger]
        reg.ix_time.keys().contains(p) implies exists|i: int|
            0 <= i < reg.spam@.len() && (#[trigger] reg.spam@[i]).address@ == p.1 by {
        assert(reg.has_spam(p.1));
    }
    assert forall|p: (Seq<char>, Seq<char>)| #[trigger]
        reg.ix_reporter.keys().contains(p) implies exists|i: int|
            0 <= i < reg.spam@.len() && (#[trigger] reg.spam@[i]).address@ == p.1 by {
        assert(reg.has_spam(p.1));
    }
    assert forall|p: (Seq<char>, Seq<char>)| #[trigger]
        reg.ix_tag.keys().contains(p) implies exists|i: int|
            0 <= i < reg.spam@.len() && (#[trigger] reg.spam@[i]).address@ == p.1 by {
        assert(reg.has_spam(p.1));
    }
    let resp = match cursor {
        Cursor::ReportCount(b) => {
            let (page, next) = scan_page(&reg.spam, &reg.ix_report_count, &b, reversed, limit);
            let next = match next {
                Some(v) => Some(Cursor::ReportCount(Some(v))),
                None => None,
            };
            PaginationResponse { page, next }
        },
        Cursor::Timestamp(b) => {
            let (page, next) = scan_page(&reg.spam, &reg.ix_time, &b, reversed, limit);
            let next = match next {
                Some(v) => Some(Cursor::Timestamp(Some(v))),
                None => None,
            };
            PaginationResponse { page, next }
        },
        Cursor::Reporter(b) => {
            let (page, next) = scan_page(&reg.spam, &reg.ix_reporter, &b, reversed, limit);
            let next = match next {
                Some(v) => Some(Cursor::Reporter(Some(v))),
                None => None,
            };
            PaginationResponse { page, next }
        },
        Cursor::Tag(b) => {
            let (page, next) = scan_page(&reg.spam, &reg.ix_tag, &b, reversed, limit);
            let next = match next {
                Some(v) => Some(Cursor::Tag(Some(v))),
                None => None,
            };
            PaginationResponse { page, next }
        },
    };
    Ok(resp)
}

/// The record of `address` with every report and appeal filed about it,
/// ascending by reporter and by appellant.
pub fn details(reg: &Registry, address: &String) -> (r: Result<SpamResponse, ContractError>)
    requires
        reg.wf(),
    ensures
        r is Ok <==> reg.has_spam(address@),
        r is Err ==> r == Err::<SpamResponse, ContractError>(ContractError::SpamEntryNotFound),
        r matches Ok(resp) ==> {
            &&& record_of(reg.spam@, address@, resp.spam)
            &&& report_listing(reg.reports@, address@, resp.reports@.map_values(|x: crate::models::Report| x@))
            &&& appeal_listing(reg.appeals@, address@, resp.appeals@.map_values(|x: crate::models::Appeal| x@))
        },
{
    let spam = load_spam(reg, address)?;
    let reports = match load_reports(reg, address) {
        Ok(v) => v,
        Err(e) => {
            return Err(e);
        },
    };
    let appeals = match load_appeals(reg, address) {
        Ok(v) => v,
        Err(e) => {
            return Err(e);
        },
    };
    Ok(SpamResponse { spam, reports, appeals })
}

/// Is the owner among the requested fields? No list asks for every field.
pub open spec fn wants_owner(fields: Option<Seq<Seq<char>>>) -> bool {
    match fields {
        None => true,
        Some(f) => f.contains(seq!['o', 'w', 'n', 'e', 'r']),
    }
}

/// The owner configuration, when the requested fields include it. The
/// owner is the same for every account, so `account` does not change it.
pub fn select(reg: &Registry, fields: &Option<Vec<String>>, account: &Option<String>) -> (r: SelectResponse)
    ensures
        wants_owner(fields.deep_view()) ==> r.owner == Some(reg.owner),
        !wants_owner(fields.deep_view()) ==> r.owner is None,
{
    let name = String::from_str("owner");
    proof {
        reveal_strlit("owner");
        assert(name@ =~= seq!['o', 'w', 'n', 'e', 'r']);
    }
    let wanted = match fields {
        None => true,
        Some(f) => contains_str(f, &name),
    };
    if wanted {
        SelectResponse { owner: Some(reg.owner.copy()) }
    } else {
        SelectResponse { owner: None }
    }
}

} // verus!
