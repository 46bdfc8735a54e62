use eznote::models::{Note, NoteError, Priority, Stats};
use eznote::service::{day_start_of, NoteService, MICROS_PER_DAY};

// 2024-03-15T10:30:00Z in microseconds since the epoch.
const NOW: i64 = 1_710_498_600_000_000;

fn tags(names: &[&str]) -> Vec<String> {
    names.iter().map(|s| s.to_string()).collect()
}

fn sorted_tags(note: &Note) -> Vec<String> {
    let mut t = note.tags.clone();
    t.sort();
    t
}

#[test]
fn priority_full_names_and_aliases() {
    for (word, p) in [
        ("low", Priority::Low),
        ("l", Priority::Low),
        ("medium", Priority::Medium),
        ("med", Priority::Medium),
        ("m", Priority::Medium),
        ("high", Priority::High),
        ("h", Priority::High),
        ("urgent", Priority::Urgent),
        ("u", Priority::Urgent),
    ] {
        assert_eq!(Priority::from_str(word), Ok(p));
        assert_eq!(Priority::from_str(word), Priority::from_str(p.to_string()));
    }
}

#[test]
fn priority_ignores_case() {
    assert_eq!(Priority::from_str("HIGH"), Ok(Priority::High));
    assert_eq!(Priority::from_str("Urgent"), Ok(Priority::Urgent));
    assert_eq!(Priority::from_str("MeD"), Ok(Priority::Medium));
    assert_eq!(Priority::from_str("L"), Ok(Priority::Low));
}

#[test]
fn priority_from_lowercase_is_exact() {
    assert_eq!(Priority::from_lowercase("high"), Some(Priority::High));
    assert_eq!(Priority::from_lowercase("HIGH"), None);
    assert_eq!(Priority::from_lowercase("hi"), None);
    assert_eq!(Priority::from_lowercase(""), None);
}

#[test]
fn priority_canonical_names() {
    assert_eq!(Priority::Low.to_string(), "low");
    assert_eq!(Priority::Medium.to_string(), "medium");
    assert_eq!(Priority::High.to_string(), "high");
    assert_eq!(Priority::Urgent.to_string(), "urgent");
}

#[test]
fn invalid_priority_names_valid_options() {
    let e = Priority::from_str("bogus").unwrap_err();
    assert_eq!(e, NoteError::InvalidPriority("bogus".to_string()));
    assert_eq!(e.message(), "Invalid priority: bogus. Use: low, medium, high, urgent");
}

#[test]
fn invalid_priority_persists_nothing() {
    let mut svc = NoteService::new();
    let parsed = Priority::from_str("bogus");
    assert!(parsed.is_err());
    if let Ok(p) = parsed {
        svc.add_note("never", vec![], p, NOW).unwrap();
    }
    assert!(svc.list_recent(20).is_empty());
    assert_eq!(svc.get_stats(NOW).total, 0);
}

#[test]
fn add_then_get_returns_same_note() {
    let mut svc = NoteService::new();
    let added = svc.add_note("Write report", tags(&["work", "q1"]), Priority::High, NOW).unwrap();
    assert_eq!(added.id, Some(1));
    let got = svc.get_note(1).unwrap();
    assert_eq!(got.content, "Write report");
    assert_eq!(got.priority, Priority::High);
    assert_eq!(sorted_tags(&got), tags(&["q1", "work"]));
    assert_eq!(got.created_at, got.updated_at);
    assert_eq!(got.created_at, NOW);
    assert!(!got.is_archived);
}

#[test]
fn duplicate_tags_collapse() {
    let mut svc = NoteService::new();
    let n = svc.add_note("x", tags(&["a", "a"]), Priority::Low, NOW).unwrap();
    assert_eq!(n.tags, tags(&["a"]));
    assert_eq!(svc.get_note(1).unwrap().tags.len(), 1);
}

#[test]
fn empty_content_rejected() {
    let mut svc = NoteService::new();
    assert_eq!(svc.add_note("", vec![], Priority::Low, NOW).unwrap_err(), NoteError::EmptyContent);
    assert!(svc.list_recent(20).is_empty());
    assert_eq!(NoteError::EmptyContent.message(), "Note content cannot be empty");
}

#[test]
fn unknown_id_not_found() {
    let svc = NoteService::new();
    assert_eq!(svc.get_note(7).unwrap_err(), NoteError::NotFound(7));
}

#[test]
fn identities_increase_and_are_not_reused() {
    let mut svc = NoteService::new();
    svc.add_note("a", vec![], Priority::Low, NOW).unwrap();
    svc.add_note("b", vec![], Priority::Low, NOW).unwrap();
    svc.delete_note(2);
    let c = svc.add_note("c", vec![], Priority::Low, NOW).unwrap();
    assert_eq!(c.id, Some(3));
}

#[test]
fn ids_exhausted_after_reserving_everything() {
    let mut svc = NoteService::new();
    svc.reserve_identities(i64::MAX);
    assert_eq!(svc.add_note("a", vec![], Priority::Low, NOW).unwrap_err(), NoteError::IdsExhausted);
}

#[test]
fn list_recent_newest_first_and_limited() {
    let mut svc = NoteService::new();
    svc.add_note("first", vec![], Priority::Low, NOW).unwrap();
    svc.add_note("second", vec![], Priority::Low, NOW + 10).unwrap();
    svc.add_note("third", vec![], Priority::Low, NOW + 5).unwrap();
    let all: Vec<i64> = svc.list_recent(20).iter().map(|n| n.id.unwrap()).collect();
    assert_eq!(all, vec![2, 3, 1]);
    let two: Vec<i64> = svc.list_recent(2).iter().map(|n| n.id.unwrap()).collect();
    assert_eq!(two, vec![2, 3]);
    assert!(svc.list_recent(0).is_empty());
}

#[test]
fn equal_timestamps_order_by_identity() {
    let mut svc = NoteService::new();
    svc.add_note("a", vec![], Priority::Low, NOW).unwrap();
    svc.add_note("b", vec![], Priority::Low, NOW).unwrap();
    let ids: Vec<i64> = svc.list_recent(20).iter().map(|n| n.id.unwrap()).collect();
    assert_eq!(ids, vec![2, 1]);
}

#[test]
fn list_today_only_from_day_start() {
    let mut svc = NoteService::new();
    let start = day_start_of(NOW) as i64;
    svc.add_note("yesterday", vec![], Priority::Low, start - 1).unwrap();
    svc.add_note("midnight", vec![], Priority::Low, start).unwrap();
    svc.add_note("morning", vec![], Priority::Low, NOW).unwrap();
    let today: Vec<String> = svc.list_today(100, NOW).iter().map(|n| n.content.clone()).collect();
    assert_eq!(today, vec!["morning".to_string(), "midnight".to_string()]);
    assert_eq!(svc.list_today(1, NOW).len(), 1);
}

#[test]
fn day_start_exact_values() {
    assert_eq!(day_start_of(NOW), 1_710_460_800_000_000);
    assert_eq!(day_start_of(0), 0);
    assert_eq!(day_start_of(MICROS_PER_DAY - 1), 0);
    assert_eq!(day_start_of(-1), -(MICROS_PER_DAY as i128));
    assert_eq!(day_start_of(i64::MIN) % (MICROS_PER_DAY as i128), 0);
}

#[test]
fn list_by_tag_exact_match() {
    let mut svc = NoteService::new();
    svc.add_note("a", tags(&["Work"]), Priority::Low, NOW).unwrap();
    svc.add_note("b", tags(&["work"]), Priority::Low, NOW + 1).unwrap();
    svc.add_note("c", tags(&["work", "home"]), Priority::Low, NOW + 2).unwrap();
    let ids: Vec<i64> = svc.list_by_tag("work", 20).iter().map(|n| n.id.unwrap()).collect();
    assert_eq!(ids, vec![3, 2]);
    assert_eq!(svc.list_by_tag("work", 1).len(), 1);
    assert!(svc.list_by_tag("wor", 20).is_empty());
}

#[test]
fn search_returns_matched_notes_unlimited() {
    let mut svc = NoteService::new();
    for k in 0..30 {
        svc.add_note("milk", vec![], Priority::Low, NOW + k).unwrap();
    }
    svc.add_note("bread", vec![], Priority::Low, NOW + 100).unwrap();
    let matched: Vec<i64> = (1..=30).collect();
    let found = svc.search(&matched);
    assert_eq!(found.len(), 30);
    assert_eq!(found[0].id, Some(30));
    assert!(found.iter().all(|n| n.content == "milk"));
    assert!(svc.search(&vec![]).is_empty());
    assert!(svc.search(&vec![99]).is_empty());
}

#[test]
fn delete_removes_everywhere() {
    let mut svc = NoteService::new();
    svc.add_note("keep", tags(&["t"]), Priority::Low, NOW).unwrap();
    svc.add_note("drop", tags(&["t", "gone"]), Priority::Low, NOW + 1).unwrap();
    svc.delete_note(2);
    assert_eq!(svc.get_note(2).unwrap_err(), NoteError::NotFound(2));
    assert!(svc.list_recent(20).iter().all(|n| n.id != Some(2)));
    assert!(svc.search(&vec![1, 2]).iter().all(|n| n.id != Some(2)));
    assert!(svc.list_by_tag("gone", 20).is_empty());
    // tag names outlive the notes that used them
    assert!(svc.tag_names().contains(&"gone".to_string()));
    svc.delete_note(42);
    assert_eq!(svc.list_recent(20).len(), 1);
}

#[test]
fn stats_total_matches_lookups() {
    let mut svc = NoteService::new();
    for k in 0..4 {
        svc.add_note("n", vec![], Priority::Medium, NOW + k).unwrap();
    }
    svc.delete_note(3);
    let total = svc.get_stats(NOW).total;
    let found = (1..=4).filter(|i| svc.get_note(*i).is_ok()).count();
    assert_eq!(total, found);
    assert_eq!(total, 3);
}

#[test]
fn stats_windows() {
    let mut svc = NoteService::new();
    let start = day_start_of(NOW) as i64;
    svc.add_note("today", vec![], Priority::Low, NOW).unwrap();
    svc.add_note("three days", vec![], Priority::Low, start - 3 * MICROS_PER_DAY).unwrap();
    svc.add_note("twenty days", vec![], Priority::Low, start - 20 * MICROS_PER_DAY).unwrap();
    svc.add_note("forty days", vec![], Priority::Low, start - 40 * MICROS_PER_DAY).unwrap();
    let s = svc.get_stats(NOW);
    assert_eq!((s.total, s.today, s.week, s.month), (4, 1, 2, 3));
}

#[test]
fn end_to_end_milk() {
    let mut svc = NoteService::new();
    let n = svc.add_note("Buy milk", tags(&["errand"]), Priority::from_str("low").unwrap(), NOW).unwrap();
    assert_eq!(n.id, Some(1));
    let recent = svc.list_recent(20);
    assert_eq!(recent.len(), 1);
    assert_eq!(recent[0].id, Some(1));
    assert_eq!(recent[0].content, "Buy milk");
    assert_eq!(recent[0].priority, Priority::Low);
    assert_eq!(recent[0].tags, tags(&["errand"]));
    let found = svc.search(&vec![1]);
    assert_eq!(found.len(), 1);
    assert_eq!(found[0].content, "Buy milk");
    assert!(svc.get_note(1).is_ok());
    svc.delete_note(1);
    assert_eq!(svc.get_note(1).unwrap_err(), NoteError::NotFound(1));
}

#[test]
fn end_to_end_priority_stats() {
    let mut svc = NoteService::new();
    for p in ["urgent", "high", "high"] {
        svc.add_note("n", vec![], Priority::from_str(p).unwrap(), NOW).unwrap();
    }
    let s = svc.get_stats(NOW);
    assert_eq!(
        s,
        Stats { total: 3, today: 3, week: 3, month: 3, urgent: 1, high: 2, medium: 0, low: 0 }
    );
}

#[test]
fn restore_rebuilds_state() {
    let mut svc = NoteService::new();
    let stored = Note {
        id: Some(5),
        content: "old".to_string(),
        priority: Priority::Urgent,
        created_at: NOW - 1,
        updated_at: NOW - 1,
        is_archived: false,
        tags: tags(&["x", "x", "y"]),
    };
    assert_eq!(svc.restore_note(stored.clone()), Ok(()));
    assert_eq!(svc.restore_note(stored.clone()), Err(NoteError::CorruptRecord(5)));
    let mut no_id = stored.clone();
    no_id.id = None;
    assert_eq!(svc.restore_note(no_id), Err(NoteError::CorruptRecord(0)));
    svc.restore_tag("orphan".to_string());
    svc.restore_tag("x".to_string());
    assert_eq!(svc.tag_names(), tags(&["x", "y", "orphan"]));
    let got = svc.get_note(5).unwrap();
    assert_eq!(got.tags, tags(&["x", "y"]));
    let next = svc.add_note("new", vec![], Priority::Low, NOW).unwrap();
    assert_eq!(next.id, Some(6));
}

#[test]
fn archived_notes_are_not_listed_or_counted() {
    let mut svc = NoteService::new();
    let archived = Note {
        id: Some(1),
        content: "hidden".to_string(),
        priority: Priority::High,
        created_at: NOW,
        updated_at: NOW,
        is_archived: true,
        tags: tags(&["t"]),
    };
    svc.restore_note(archived).unwrap();
    assert!(svc.list_recent(20).is_empty());
    assert!(svc.list_by_tag("t", 20).is_empty());
    assert!(svc.search(&vec![1]).is_empty());
    assert_eq!(svc.get_stats(NOW).total, 0);
    assert!(svc.get_note(1).is_ok());
}

#[test]
fn error_messages() {
    assert_eq!(NoteError::NotFound(3).message(), "Note not found");
    assert!(!NoteError::IdsExhausted.message().is_empty());
    assert!(!NoteError::CorruptRecord(1).message().is_empty());
}
