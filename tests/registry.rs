use spam_registry::error::ContractError;
use spam_registry::execute::{appeal, forgive, report};
use spam_registry::models::{Appeal, BlockInfo, SpamProfile};
use spam_registry::index::KeyBound;
use spam_registry::msg::{Cursor, InstantiateMsg};
use spam_registry::query::{details, paginate, select};
use spam_registry::state::{
    initialize, load_appeals, load_reports, load_spam, require_sender_is_owner, require_valid_addresses, require_valid_tags,
    Owner, Registry,
};

fn s(x: &str) -> String {
    x.to_string()
}

fn block(time: u64) -> BlockInfo {
    BlockInfo { height: 7, time, chain_id: s("test-1") }
}

fn registry(reporters: &[&str]) -> Registry {
    let mut reg = Registry::new(Owner::Address(s("owner")));
    for r in reporters {
        reg.add_reporter(s(r));
    }
    reg
}

fn file(reg: &mut Registry, time: u64, reporter: &str, subject: &str, tags: &[&str]) -> Result<(), ContractError> {
    let tags: Vec<String> = tags.iter().map(|t| s(t)).collect();
    report(reg, &block(time), &s(reporter), s(subject), true, None, Some(tags), None)
}

fn count_of(reg: &Registry, subject: &str) -> u32 {
    load_spam(reg, &s(subject)).unwrap().report_count
}

fn contract_address() -> String {
    "c".repeat(63)
}

#[test]
fn three_reports_then_unanimous_forgiveness() {
    let mut reg = registry(&["r1", "r2", "r3"]);
    for (k, r) in ["r1", "r2", "r3"].iter().enumerate() {
        file(&mut reg, 100 + k as u64, r, "A", &["scam"]).unwrap();
    }
    assert_eq!(count_of(&reg, "A"), 3);
    assert_eq!(reg.reports.len(), 3);
    appeal(&mut reg, &s("A"), s("A"), s("not spam")).unwrap();
    assert_eq!(reg.appeals[0].reported_by, vec![s("r1"), s("r2"), s("r3")]);
    assert!(reg.appeals[0].accepted_by.is_empty());
    forgive(&mut reg, &s("r1"), s("A"), s("A")).unwrap();
    forgive(&mut reg, &s("r2"), s("A"), s("A")).unwrap();
    assert!(!load_spam(&reg, &s("A")).unwrap().is_forgiven);
    forgive(&mut reg, &s("r3"), s("A"), s("A")).unwrap();
    assert!(load_spam(&reg, &s("A")).unwrap().is_forgiven);
    assert_eq!(reg.appeals[0].accepted_by.len(), 3);
}

#[test]
fn first_report_creates_record() {
    let mut reg = registry(&["r1"]);
    file(&mut reg, 5, "r1", "addr1", &["bot"]).unwrap();
    let spam = load_spam(&reg, &s("addr1")).unwrap();
    assert_eq!(spam.report_count, 1);
    assert_eq!(spam.tags, vec![s("bot")]);
    assert!(!spam.is_forgiven);
    assert!(!spam.profile.is_contract);
    assert_eq!(reg.reports[0].reported_by, Some(s("r1")));
    assert_eq!(reg.reports[0].reported_at, 5);
}

#[test]
fn contract_shaped_address_is_classified() {
    let mut reg = registry(&["r1"]);
    file(&mut reg, 5, "r1", &contract_address(), &[]).unwrap();
    assert!(load_spam(&reg, &contract_address()).unwrap().profile.is_contract);
}

#[test]
fn duplicate_report_is_refused_without_change() {
    let mut reg = registry(&["r1"]);
    file(&mut reg, 1, "r1", "A", &["scam"]).unwrap();
    let keys_before = reg.ix_time.entries.len();
    assert_eq!(file(&mut reg, 2, "r1", "A", &["other"]), Err(ContractError::DuplicateReport));
    assert_eq!(count_of(&reg, "A"), 1);
    assert_eq!(reg.reports.len(), 1);
    assert_eq!(reg.ix_time.entries.len(), keys_before);
    assert_eq!(reg.ix_tag.entries.len(), 1);
}

#[test]
fn unknown_reporter_is_refused() {
    let mut reg = registry(&["r1"]);
    assert_eq!(file(&mut reg, 1, "stranger", "A", &[]), Err(ContractError::NotAuthorized));
    assert!(reg.spam.is_empty());
}

#[test]
fn invalid_address_is_refused() {
    let mut reg = registry(&["r1"]);
    let r = report(&mut reg, &block(1), &s("r1"), s("A"), false, None, None, None);
    assert_eq!(r, Err(ContractError::ValidationError));
    assert!(reg.spam.is_empty());
}

#[test]
fn too_many_tags_creates_nothing() {
    let mut reg = registry(&["r1"]);
    let r = file(&mut reg, 1, "r1", "A", &["a", "b", "c", "d", "e", "f"]);
    assert_eq!(r, Err(ContractError::TooManyTags));
    assert!(reg.spam.is_empty());
    assert!(reg.reports.is_empty());
    assert!(reg.ix_tag.entries.is_empty());
}

#[test]
fn overlong_tag_creates_nothing() {
    let mut reg = registry(&["r1"]);
    let long = "x".repeat(51);
    assert_eq!(file(&mut reg, 1, "r1", "A", &[&long]), Err(ContractError::InvalidTag));
    assert!(reg.spam.is_empty());
    let padded = format!("   {}   ", "y".repeat(50));
    file(&mut reg, 1, "r1", "A", &[&padded, "a", "b", "c", "d"]).unwrap();
    assert_eq!(count_of(&reg, "A"), 1);
}

#[test]
fn tag_checks() {
    assert_eq!(require_valid_tags(&vec![s("a"); 5]), Ok(()));
    assert_eq!(require_valid_tags(&vec![s("a"); 6]), Err(ContractError::TooManyTags));
    assert_eq!(require_valid_tags(&vec![s(&"z".repeat(50))]), Ok(()));
    assert_eq!(require_valid_tags(&vec![s(&"z".repeat(51))]), Err(ContractError::InvalidTag));
    assert_eq!(require_valid_tags(&vec![]), Ok(()));
}

#[test]
fn address_checks() {
    assert_eq!(require_valid_addresses(&vec![true, true]), Ok(()));
    assert_eq!(require_valid_addresses(&vec![true, false]), Err(ContractError::ValidationError));
    assert_eq!(require_valid_addresses(&vec![]), Ok(()));
}

#[test]
fn owner_checks() {
    let reg = registry(&[]);
    assert_eq!(require_sender_is_owner(&reg, &s("owner"), "act", false), Ok(()));
    assert_eq!(require_sender_is_owner(&reg, &s("other"), "act", true), Err(ContractError::NotAuthorized));
    let acl = Registry::new(Owner::Acl(s("acl")));
    assert_eq!(require_sender_is_owner(&acl, &s("anyone"), "act", true), Ok(()));
    assert_eq!(require_sender_is_owner(&acl, &s("anyone"), "act", false), Err(ContractError::NotAuthorized));
}

#[test]
fn initialize_defaults_owner_to_sender() {
    let reg = initialize(&InstantiateMsg { owner: None }, &s("boss"));
    assert!(matches!(&reg.owner, Owner::Address(a) if a == "boss"));
    let reg = initialize(&InstantiateMsg { owner: Some(Owner::Acl(s("svc"))) }, &s("boss"));
    assert!(matches!(&reg.owner, Owner::Acl(a) if a == "svc"));
}

#[test]
fn select_returns_owner_when_asked() {
    let reg = registry(&[]);
    assert!(matches!(select(&reg, &None, &None).owner, Some(Owner::Address(a)) if a == "owner"));
    assert!(select(&reg, &Some(vec![s("owner")]), &Some(s("acct"))).owner.is_some());
    assert!(select(&reg, &Some(vec![s("other")]), &None).owner.is_none());
}

#[test]
fn appeal_rules() {
    let mut reg = registry(&["r1"]);
    assert_eq!(appeal(&mut reg, &s("A"), s("A"), s("x")), Err(ContractError::SpamEntryNotFound));
    file(&mut reg, 1, "r1", "A", &[]).unwrap();
    assert_eq!(appeal(&mut reg, &s("B"), s("A"), s("x")), Err(ContractError::NotAuthorized));
    appeal(&mut reg, &s("A"), s("A"), s("x")).unwrap();
    assert_eq!(appeal(&mut reg, &s("A"), s("A"), s("again")), Err(ContractError::NotAuthorized));
    assert_eq!(reg.appeals.len(), 1);
    assert_eq!(reg.appeals[0].appealed_by, Some(s("A")));
    let c = contract_address();
    file(&mut reg, 2, "r1", &c, &[]).unwrap();
    appeal(&mut reg, &s("B"), c.clone(), s("x")).unwrap();
    assert_eq!(reg.appeals.len(), 2);
}

#[test]
fn snapshot_ignores_later_reports() {
    let mut reg = registry(&["r1", "r2"]);
    file(&mut reg, 1, "r1", "A", &[]).unwrap();
    appeal(&mut reg, &s("A"), s("A"), s("x")).unwrap();
    file(&mut reg, 2, "r2", "A", &[]).unwrap();
    assert_eq!(reg.appeals[0].reported_by, vec![s("r1")]);
    assert_eq!(forgive(&mut reg, &s("r2"), s("A"), s("A")), Err(ContractError::AppealAlreadyAccepted));
    forgive(&mut reg, &s("r1"), s("A"), s("A")).unwrap();
    assert!(load_spam(&reg, &s("A")).unwrap().is_forgiven);
}

#[test]
fn forgive_errors() {
    let mut reg = registry(&["r1", "r2"]);
    assert_eq!(forgive(&mut reg, &s("r1"), s("A"), s("A")), Err(ContractError::SpamEntryNotFound));
    file(&mut reg, 1, "r1", "A", &[]).unwrap();
    file(&mut reg, 2, "r2", "A", &[]).unwrap();
    assert_eq!(forgive(&mut reg, &s("r1"), s("A"), s("A")), Err(ContractError::AppealNotFound));
    appeal(&mut reg, &s("A"), s("A"), s("x")).unwrap();
    forgive(&mut reg, &s("r1"), s("A"), s("A")).unwrap();
    assert_eq!(forgive(&mut reg, &s("r1"), s("A"), s("A")), Err(ContractError::AppealAlreadyAccepted));
    assert_eq!(reg.appeals[0].accepted_by, vec![s("r1")]);
    assert!(!load_spam(&reg, &s("A")).unwrap().is_forgiven);
}

#[test]
fn accept_counts_each_reporter_once() {
    let mut ap = Appeal {
        address: s("A"),
        appealed_by: Some(s("A")),
        accepted_by: vec![],
        reported_by: vec![s("r1"), s("r2")],
        argument: s("x"),
    };
    assert!(ap.accept(&s("r1")));
    assert!(!ap.accept(&s("r1")));
    assert!(!ap.accept(&s("r9")));
    assert_eq!(ap.accepted_by, vec![s("r1")]);
    assert!(!ap.is_satisfied());
    assert!(ap.accept(&s("r2")));
    assert!(ap.is_satisfied());
}

#[test]
fn profile_new_is_blank() {
    let p = SpamProfile::new(true);
    assert!(p.is_contract);
    assert!(p.name.is_none() && p.description.is_none() && p.image_url.is_none() && p.url.is_none());
}

#[test]
fn error_messages() {
    assert_eq!(ContractError::DuplicateReport.message(), "DuplicateReport");
    assert_eq!(ContractError::InvalidTag.message(), "InvalidTag");
}

#[test]
fn details_lists_reports_and_appeals() {
    let mut reg = registry(&["r1", "r2"]);
    file(&mut reg, 1, "r1", "A", &["t"]).unwrap();
    file(&mut reg, 2, "r2", "B", &[]).unwrap();
    file(&mut reg, 3, "r2", "A", &[]).unwrap();
    appeal(&mut reg, &s("A"), s("A"), s("x")).unwrap();
    let d = details(&reg, &s("A")).unwrap();
    assert_eq!(d.spam.report_count, 2);
    assert_eq!(d.reports.len(), 2);
    assert_eq!(d.reports[0].reported_by, Some(s("r1")));
    assert_eq!(d.reports[1].reported_by, Some(s("r2")));
    assert_eq!(d.appeals.len(), 1);
    assert_eq!(d.appeals[0].appealed_by, Some(s("A")));
    assert!(matches!(details(&reg, &s("Z")), Err(ContractError::SpamEntryNotFound)));
}

fn at<K>(value: K) -> Option<KeyBound<K>> {
    Some(KeyBound { value, subject: None })
}

fn resume_key(c: &Option<Cursor>) -> Option<(String, String)> {
    let (v, sub) = match c {
        Some(Cursor::ReportCount(Some(b))) => (b.value.to_string(), &b.subject),
        Some(Cursor::Timestamp(Some(b))) => (b.value.to_string(), &b.subject),
        Some(Cursor::Reporter(Some(b))) => (b.value.clone(), &b.subject),
        Some(Cursor::Tag(Some(b))) => (b.value.clone(), &b.subject),
        _ => return None,
    };
    Some((v, sub.clone()?))
}

fn key(v: &str, subject: &str) -> Option<(String, String)> {
    Some((s(v), s(subject)))
}

fn addresses(page: &[spam_registry::models::Spam]) -> Vec<String> {
    page.iter().map(|x| x.address.clone()).collect()
}

fn counts_registry() -> Registry {
    // A: 1 report, B: 2, C: 3, D: 4
    let mut reg = registry(&["r1", "r2", "r3", "r4"]);
    let mut t = 0;
    for (subject, n) in [("A", 1), ("B", 2), ("C", 3), ("D", 4)] {
        for r in ["r1", "r2", "r3", "r4"].iter().take(n) {
            t += 1;
            file(&mut reg, t, r, subject, &[]).unwrap();
        }
    }
    reg
}

#[test]
fn report_count_index_has_one_entry_per_subject() {
    let reg = counts_registry();
    assert_eq!(reg.ix_report_count.entries.len(), 4);
    for e in &reg.ix_report_count.entries {
        assert_eq!(e.value, count_of(&reg, &e.subject));
    }
}

#[test]
fn paginate_by_report_count_resumes_without_overlap() {
    let reg = counts_registry();
    let first = paginate(&reg, Cursor::ReportCount(None), Some(2), None).unwrap();
    assert_eq!(addresses(&first.page), vec![s("A"), s("B")]);
    assert_eq!(resume_key(&first.next), key("2", "B"));
    let next = first.next.unwrap();
    let second = paginate(&reg, next, Some(2), None).unwrap();
    assert_eq!(addresses(&second.page), vec![s("C"), s("D")]);
    let third = paginate(&reg, second.next.unwrap(), Some(2), None).unwrap();
    assert!(third.page.is_empty());
    assert!(third.next.is_none());
}

#[test]
fn paginate_reversed_is_exclusive_below() {
    let reg = counts_registry();
    let all = paginate(&reg, Cursor::ReportCount(None), None, Some(true)).unwrap();
    assert_eq!(addresses(&all.page), vec![s("D"), s("C"), s("B"), s("A")]);
    assert!(all.next.is_none());
    let below = paginate(&reg, Cursor::ReportCount(at(3)), Some(1), Some(true)).unwrap();
    assert_eq!(addresses(&below.page), vec![s("B")]);
    assert_eq!(resume_key(&below.next), key("2", "B"));
    let above = paginate(&reg, Cursor::ReportCount(at(3)), None, Some(false)).unwrap();
    assert_eq!(addresses(&above.page), vec![s("D")]);
}

#[test]
fn paginate_limit_is_clamped() {
    let reg = counts_registry();
    let one = paginate(&reg, Cursor::ReportCount(None), Some(0), None).unwrap();
    assert_eq!(one.page.len(), 1);
    assert_eq!(resume_key(&one.next), key("1", "A"));
    let mut reg = registry(&["r1"]);
    for k in 0..60u64 {
        file(&mut reg, k, "r1", &format!("s{:02}", k), &[]).unwrap();
    }
    let big = paginate(&reg, Cursor::Timestamp(None), Some(500), None).unwrap();
    assert_eq!(big.page.len(), 50);
    assert_eq!(resume_key(&big.next), key("49", "s49"));
    let rest = paginate(&reg, big.next.unwrap(), None, None).unwrap();
    assert_eq!(rest.page.len(), 10);
    assert_eq!(rest.page[0].address, "s50");
}

#[test]
fn paginate_by_time_repeats_subjects() {
    let reg = counts_registry();
    let page = paginate(&reg, Cursor::Timestamp(at(2)), Some(3), None).unwrap();
    assert_eq!(addresses(&page.page), vec![s("B"), s("C"), s("C")]);
    assert_eq!(resume_key(&page.next), key("5", "C"));
}

#[test]
fn paginate_by_reporter() {
    let reg = counts_registry();
    let page = paginate(&reg, Cursor::Reporter(at(s("r2"))), None, None).unwrap();
    assert_eq!(addresses(&page.page), vec![s("C"), s("D"), s("D")]);
    let first = paginate(&reg, Cursor::Reporter(None), Some(4), None).unwrap();
    assert_eq!(addresses(&first.page), vec![s("A"), s("B"), s("C"), s("D")]);
    assert_eq!(resume_key(&first.next), key("r1", "D"));
    let rest = paginate(&reg, first.next.unwrap(), Some(4), None).unwrap();
    assert_eq!(addresses(&rest.page), vec![s("B"), s("C"), s("D"), s("C")]);
}

#[test]
fn paginate_by_tag_uses_normalized_tags() {
    let mut reg = registry(&["r1", "r2"]);
    file(&mut reg, 1, "r1", "A", &["  SCAM "]).unwrap();
    file(&mut reg, 2, "r2", "B", &["scam", "Bot"]).unwrap();
    let page = paginate(&reg, Cursor::Tag(None), Some(1), None).unwrap();
    assert_eq!(addresses(&page.page), vec![s("B")]);
    assert_eq!(resume_key(&page.next), key("bot", "B"));
    let rest = paginate(&reg, page.next.unwrap(), None, None).unwrap();
    assert_eq!(addresses(&rest.page), vec![s("A"), s("B")]);
    let mut tags: Vec<String> = reg.ix_tag.entries.iter().map(|e| e.value.clone()).collect();
    tags.sort();
    assert_eq!(tags, vec![s("bot"), s("scam"), s("scam")]);
}

#[test]
fn paginate_empty_index() {
    let reg = registry(&[]);
    let page = paginate(&reg, Cursor::Tag(at(s("x"))), None, Some(true)).unwrap();
    assert!(page.page.is_empty());
    assert!(page.next.is_none());
}

#[test]
fn lists_come_ascending_by_counterpart() {
    let mut reg = registry(&["r2", "r1", "r3"]);
    let c = contract_address();
    file(&mut reg, 1, "r2", &c, &[]).unwrap();
    file(&mut reg, 2, "r3", &c, &[]).unwrap();
    file(&mut reg, 3, "r1", &c, &[]).unwrap();
    file(&mut reg, 4, "r1", "other", &[]).unwrap();
    let reports = load_reports(&reg, &c).unwrap();
    let by: Vec<Option<String>> = reports.iter().map(|r| r.reported_by.clone()).collect();
    assert_eq!(by, vec![Some(s("r1")), Some(s("r2")), Some(s("r3"))]);
    appeal(&mut reg, &s("zed"), c.clone(), s("x")).unwrap();
    appeal(&mut reg, &s("amy"), c.clone(), s("y")).unwrap();
    let appeals = load_appeals(&reg, &c).unwrap();
    let by: Vec<Option<String>> = appeals.iter().map(|a| a.appealed_by.clone()).collect();
    assert_eq!(by, vec![Some(s("amy")), Some(s("zed"))]);
    let d = details(&reg, &c).unwrap();
    assert_eq!(d.reports[0].reported_by, Some(s("r1")));
    assert_eq!(d.appeals[0].appealed_by, Some(s("amy")));
    assert!(load_reports(&reg, &s("nobody")).unwrap().is_empty());
}

#[test]
fn tag_length_counts_characters() {
    let wide = "é".repeat(26);
    assert_eq!(require_valid_tags(&vec![wide]), Ok(()));
    assert_eq!(require_valid_tags(&vec![s(&"é".repeat(50))]), Ok(()));
    assert_eq!(require_valid_tags(&vec![s(&"é".repeat(51))]), Err(ContractError::InvalidTag));
    assert_eq!(require_valid_tags(&vec![s(&"a".repeat(51))]), Err(ContractError::InvalidTag));
    let padded = format!("\u{3000}\t{}\n", "b".repeat(50));
    assert_eq!(require_valid_tags(&vec![padded]), Ok(()));
}

#[test]
fn resuming_keeps_subjects_that_share_a_value() {
    let mut reg = registry(&["r1"]);
    for subject in ["A", "B", "C"] {
        file(&mut reg, 1, "r1", subject, &["same"]).unwrap();
    }
    let mut seen: Vec<String> = Vec::new();
    let mut cursor = Cursor::ReportCount(None);
    loop {
        let page = paginate(&reg, cursor, Some(1), None).unwrap();
        seen.extend(addresses(&page.page));
        match page.next {
            Some(c) => cursor = c,
            None => break,
        }
    }
    assert_eq!(seen, vec![s("A"), s("B"), s("C")]);
    let first = paginate(&reg, Cursor::Tag(None), Some(2), Some(true)).unwrap();
    assert_eq!(addresses(&first.page), vec![s("C"), s("B")]);
    let second = paginate(&reg, first.next.unwrap(), Some(2), Some(true)).unwrap();
    assert_eq!(addresses(&second.page), vec![s("A")]);
    let after_value = paginate(&reg, Cursor::Tag(at(s("same"))), None, None).unwrap();
    assert!(after_value.page.is_empty());
}
