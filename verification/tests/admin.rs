use homesec_advisor::admin::{
    aggregate_threads, default_correction_rationale_text, first_occurrence_index,
    next_internal_offset, paginate_summaries, resolved_days, resolved_limit, summarize_turns,
    PageWalk, ThreadSummary, ThreadsPage, TurnRow, MAX_INTERNAL_FETCH_ROUNDS, STATS_DEFAULT_DAYS,
    STATS_MAX_DAYS, THREADS_DEFAULT_LIMIT, THREADS_FETCH_PAGE_SIZE,
};
use homesec_advisor::attrs::AttrMap;
use homesec_advisor::cursor::{decode_cursor, encode_cursor};
use std::collections::HashMap;

fn attr_map(map: &HashMap<String, String>) -> AttrMap {
    AttrMap::from_pairs(map.iter().map(|(k, v)| (k.clone(), v.clone())).collect())
}

fn row(
    case_id: &str,
    turn_id: &str,
    seq: u32,
    created_at: &str,
    question: &str,
    reply_kind: &str,
    end_user_id: Option<&str>,
) -> TurnRow {
    TurnRow {
        case_id: case_id.to_string(),
        turn_id: turn_id.to_string(),
        seq,
        created_at: created_at.to_string(),
        question: question.to_string(),
        reply_text: "回答".to_string(),
        reply_kind: reply_kind.to_string(),
        audit_event_id: "audit-1".to_string(),
        end_user_id: end_user_id.map(str::to_string),
    }
}

#[test]
fn turn_row_from_attrs_parses_all_fields() {
    let attrs: HashMap<String, String> = [
        ("case_id", "case-1"),
        ("turn_id", "turn-1"),
        ("seq", "2"),
        ("created_at", "2026-08-16T00:00:00+00:00"),
        ("question", "質問"),
        ("reply_text", "回答"),
        ("reply_kind", "answer"),
        ("audit_event_id", "audit-1"),
        ("end_user_id", "eu-1"),
    ]
    .into_iter()
    .map(|(k, v)| (k.to_string(), v.to_string()))
    .collect();
    let row = TurnRow::from_attrs(&attr_map(&attrs)).unwrap();
    assert_eq!(row.case_id, "case-1");
    assert_eq!(row.seq, 2);
    assert_eq!(row.end_user_id.as_deref(), Some("eu-1"));
}

#[test]
fn turn_row_from_attrs_treats_empty_end_user_id_as_none() {
    let attrs: HashMap<String, String> = [
        ("case_id", "case-1"),
        ("turn_id", "turn-1"),
        ("created_at", "2026-08-16T00:00:00+00:00"),
        ("end_user_id", ""),
    ]
    .into_iter()
    .map(|(k, v)| (k.to_string(), v.to_string()))
    .collect();
    let row = TurnRow::from_attrs(&attr_map(&attrs)).unwrap();
    assert_eq!(row.end_user_id, None);
}

#[test]
fn turn_row_from_attrs_rejects_missing_required_keys() {
    let attrs: HashMap<String, String> = [("turn_id", "turn-1")]
        .into_iter()
        .map(|(k, v)| (k.to_string(), v.to_string()))
        .collect();
    assert!(TurnRow::from_attrs(&attr_map(&attrs)).is_none());
}

#[test]
fn aggregate_threads_groups_by_case_and_counts_turns() {
    let rows = vec![
        row(
            "case-a",
            "t1",
            1,
            "2026-08-16T00:00:00+00:00",
            "質問1",
            "clarify",
            None,
        ),
        row(
            "case-a",
            "t2",
            2,
            "2026-08-16T00:05:00+00:00",
            "質問1続き",
            "answer",
            None,
        ),
        row(
            "case-b",
            "t3",
            1,
            "2026-08-16T00:02:00+00:00",
            "質問2",
            "escalation",
            Some("eu-1"),
        ),
    ];
    let summaries = aggregate_threads(rows);
    assert_eq!(summaries.len(), 2);
    let a = summaries.iter().find(|s| s.case_id == "case-a").unwrap();
    assert_eq!(a.turn_count, 2);
    assert_eq!(a.last_reply_kind, "answer");
    assert_eq!(a.question_preview, "質問1");
    let b = summaries.iter().find(|s| s.case_id == "case-b").unwrap();
    assert_eq!(b.end_user_id.as_deref(), Some("eu-1"));
}

#[test]
fn aggregate_threads_sorts_by_last_created_at_descending() {
    let rows = vec![
        row(
            "case-old",
            "t1",
            1,
            "2026-08-16T00:00:00+00:00",
            "古い",
            "answer",
            None,
        ),
        row(
            "case-new",
            "t2",
            1,
            "2026-08-16T01:00:00+00:00",
            "新しい",
            "answer",
            None,
        ),
    ];
    let summaries = aggregate_threads(rows);
    assert_eq!(summaries[0].case_id, "case-new");
    assert_eq!(summaries[1].case_id, "case-old");
}

#[test]
fn aggregate_threads_truncates_question_preview_to_80_chars() {
    let long_question = "あ".repeat(200);
    let rows = vec![row(
        "case-a",
        "t1",
        1,
        "2026-08-16T00:00:00+00:00",
        &long_question,
        "answer",
        None,
    )];
    let summaries = aggregate_threads(rows);

    assert_eq!(summaries[0].question_preview.chars().count(), 81);
    assert!(summaries[0].question_preview.ends_with('…'));
}

#[test]
fn aggregate_threads_falls_back_to_first_turn_when_seq_one_is_missing() {
    let rows = vec![row(
        "case-a",
        "t2",
        2,
        "2026-08-16T00:00:00+00:00",
        "seq2の質問",
        "answer",
        None,
    )];
    let summaries = aggregate_threads(rows);
    assert_eq!(summaries[0].question_preview, "seq2の質問");
}

#[test]
fn next_internal_offset_stops_when_limit_reached() {
    assert_eq!(next_internal_offset(200, 200, 20, 20, 400), None);
}

#[test]
fn next_internal_offset_stops_when_source_is_exhausted() {
    assert_eq!(next_internal_offset(50, 200, 5, 20, 250), None);
}

#[test]
fn next_internal_offset_continues_with_the_advanced_offset() {
    assert_eq!(next_internal_offset(200, 200, 5, 20, 400), Some(400));
}

#[test]
fn next_internal_offset_stops_when_no_rows_were_returned() {
    assert_eq!(next_internal_offset(0, 200, 0, 20, 0), None);
}

#[test]
fn first_occurrence_index_records_the_first_position_per_case() {
    let rows = vec![
        row("case-a", "t1", 1, "t", "q", "answer", None),
        row("case-b", "t2", 1, "t", "q", "answer", None),
        row("case-a", "t3", 2, "t", "q", "answer", None),
    ];
    let order = first_occurrence_index(&rows);
    assert_eq!(order.get("case-a"), Some(0));
    assert_eq!(order.get("case-b"), Some(1));
}

#[test]
fn paginate_summaries_returns_no_cursor_when_under_limit_and_source_exhausted() {
    let summaries = vec![ThreadSummary {
        case_id: "case-a".to_string(),
        end_user_id: None,
        question_preview: "q".to_string(),
        turn_count: 1,
        last_reply_kind: "answer".to_string(),
        last_created_at: "2026-08-16T00:00:00+00:00".to_string(),
    }];
    let rows = vec![row(
        "case-a",
        "t1",
        1,
        "2026-08-16T00:00:00+00:00",
        "q",
        "answer",
        None,
    )];
    let (page, next_cursor) = paginate_summaries(summaries, 20, &rows, 0, true);
    assert_eq!(page.len(), 1);
    assert_eq!(next_cursor, None);
}

#[test]
fn paginate_summaries_emits_a_cursor_when_under_limit_but_source_not_exhausted() {
    let summaries = vec![ThreadSummary {
        case_id: "case-a".to_string(),
        end_user_id: None,
        question_preview: "q".to_string(),
        turn_count: 1,
        last_reply_kind: "answer".to_string(),
        last_created_at: "2026-08-16T00:00:00+00:00".to_string(),
    }];
    let rows = vec![row(
        "case-a",
        "t1",
        1,
        "2026-08-16T00:00:00+00:00",
        "q",
        "answer",
        None,
    )];
    let (page, next_cursor) = paginate_summaries(summaries, 20, &rows, 100, false);
    assert_eq!(page.len(), 1);
    assert_eq!(decode_cursor(&next_cursor.unwrap()), Some(101));
}

#[test]
fn paginate_summaries_truncates_and_emits_a_cursor_when_over_limit() {
    let summaries: Vec<ThreadSummary> = (0..5)
        .map(|i| ThreadSummary {
            case_id: format!("case-{i}"),
            end_user_id: None,
            question_preview: "q".to_string(),
            turn_count: 1,
            last_reply_kind: "answer".to_string(),
            last_created_at: format!("2026-08-16T00:0{i}:00+00:00"),
        })
        .collect();

    let rows: Vec<TurnRow> = (0..5)
        .map(|i| {
            row(
                &format!("case-{i}"),
                &format!("t{i}"),
                1,
                &format!("2026-08-16T00:0{i}:00+00:00"),
                "q",
                "answer",
                None,
            )
        })
        .collect();

    let (page, next_cursor) = paginate_summaries(summaries, 3, &rows, 0, false);
    assert_eq!(page.len(), 3);
    let cursor = next_cursor.unwrap();
    assert_eq!(decode_cursor(&cursor), Some(3));
}

#[test]
fn paginate_summaries_offsets_the_cutoff_by_initial_offset() {
    let summaries: Vec<ThreadSummary> = (0..3)
        .map(|i| ThreadSummary {
            case_id: format!("case-{i}"),
            end_user_id: None,
            question_preview: "q".to_string(),
            turn_count: 1,
            last_reply_kind: "answer".to_string(),
            last_created_at: format!("2026-08-16T00:0{i}:00+00:00"),
        })
        .collect();
    let rows: Vec<TurnRow> = (0..3)
        .map(|i| {
            row(
                &format!("case-{i}"),
                &format!("t{i}"),
                1,
                &format!("2026-08-16T00:0{i}:00+00:00"),
                "q",
                "answer",
                None,
            )
        })
        .collect();
    let (page, next_cursor) = paginate_summaries(summaries, 1, &rows, 100, false);
    assert_eq!(page.len(), 1);
    assert_eq!(decode_cursor(&next_cursor.unwrap()), Some(101));
}

#[test]
fn cursor_roundtrips_through_encode_and_decode() {
    let original = 42;
    let encoded = encode_cursor(original);
    assert_eq!(decode_cursor(&encoded), Some(original));
}

#[test]
fn decode_cursor_returns_none_for_garbage_input() {
    assert_eq!(decode_cursor("not valid base64!!"), None);
}

#[test]
fn decode_cursor_returns_none_for_empty_string() {
    assert_eq!(decode_cursor(""), None);
}

#[test]
fn decode_cursor_returns_none_for_negative_offset() {
    assert_eq!(decode_cursor(&encode_cursor(-1)), None);
}

#[test]
fn summarize_turns_counts_reply_kind_distribution_and_uniques() {
    let rows = vec![
        row(
            "case-a",
            "t1",
            1,
            "2026-08-16T00:00:00+00:00",
            "q",
            "answer",
            Some("eu-1"),
        ),
        row(
            "case-a",
            "t2",
            2,
            "2026-08-16T00:01:00+00:00",
            "q",
            "clarify",
            Some("eu-1"),
        ),
        row(
            "case-b",
            "t3",
            1,
            "2026-08-16T00:02:00+00:00",
            "q",
            "answer",
            Some("eu-2"),
        ),
    ];
    let summary = summarize_turns(7, &rows);
    assert_eq!(summary.turn_count, 3);
    assert_eq!(summary.thread_count, 2);
    assert_eq!(summary.unique_end_user_count, 2);
    assert_eq!(summary.reply_kind_counts.get("answer"), Some(2));
    assert_eq!(summary.reply_kind_counts.get("clarify"), Some(1));
}

#[test]
fn summarize_turns_ignores_turns_without_end_user_id() {
    let rows = vec![row(
        "case-a",
        "t1",
        1,
        "2026-08-16T00:00:00+00:00",
        "q",
        "answer",
        None,
    )];
    let summary = summarize_turns(1, &rows);
    assert_eq!(summary.unique_end_user_count, 0);
}

#[test]
fn summarize_turns_on_empty_input_returns_zeros() {
    let summary = summarize_turns(7, &[]);
    assert_eq!(summary.turn_count, 0);
    assert_eq!(summary.thread_count, 0);
    assert_eq!(summary.unique_end_user_count, 0);
    assert!(summary.reply_kind_counts.is_empty());
}

#[test]
fn resolved_limit_uses_default_when_absent() {
    assert_eq!(resolved_limit(None), THREADS_DEFAULT_LIMIT);
}

#[test]
fn resolved_limit_uses_default_when_zero() {
    assert_eq!(resolved_limit(Some(0)), THREADS_DEFAULT_LIMIT);
}

#[test]
fn resolved_limit_passes_through_a_positive_value() {
    assert_eq!(resolved_limit(Some(5)), 5);
}

#[test]
fn threads_pagination_with_tied_created_at_covers_every_case_exactly_once() {
    let tied = "2026-08-16T00:00:00+00:00";
    let all_rows: Vec<TurnRow> = (0..6)
        .map(|i| {
            row(
                &format!("case-{i}"),
                &format!("t{i}"),
                1,
                tied,
                "q",
                "answer",
                None,
            )
        })
        .collect();
    let all_rows = std::sync::Arc::new(all_rows);
    let limit = 3;

    let mut seen: Vec<String> = Vec::new();
    let mut offset = 0i32;
    for _round in 0..10 {
        let page = build_threads_page(limit, offset, slice_fetcher(all_rows.clone()));
        assert!(!page.threads.is_empty());
        for t in &page.threads {
            assert!(!seen.contains(&t.case_id));
            seen.push(t.case_id.clone());
        }
        match page.next_cursor {
            Some(c) => {
                offset = decode_cursor(&c).unwrap()
            }
            None => break,
        }
    }
    let mut expected: Vec<String> = (0..6).map(|i| format!("case-{i}")).collect();
    let mut seen_sorted = seen.clone();
    seen_sorted.sort();
    expected.sort();
    assert_eq!(seen_sorted, expected);
}

fn slice_fetcher(source: std::sync::Arc<Vec<TurnRow>>) -> impl FnMut(i32, i32) -> Vec<TurnRow> {
    move |offset, page_size| {
        let start = offset.max(0) as usize;
        let end = (start + page_size as usize).min(source.len());
        if start >= source.len() {
            Vec::new()
        } else {
            source[start..end].to_vec()
        }
    }
}

fn build_threads_page(
    limit: usize,
    initial_offset: i32,
    mut fetch_page: impl FnMut(i32, i32) -> Vec<TurnRow>,
) -> ThreadsPage {
    let mut walk = PageWalk::start(limit, initial_offset);
    while let Some(offset) = walk.next_fetch() {
        let rows = fetch_page(offset, THREADS_FETCH_PAGE_SIZE);
        assert!(rows.len() <= walk.room());
        walk.absorb(rows);
    }
    walk.finish()
}

fn page_size_boundary_dataset(distinct: usize, tail_len: usize) -> Vec<TurnRow> {
    let page_size = THREADS_FETCH_PAGE_SIZE as usize;
    let mut rows: Vec<TurnRow> = (0..page_size)
        .map(|i| {
            row(
                &format!("case-{}", i % distinct),
                &format!("t{i}"),
                1,
                "2026-08-16T00:00:00+00:00",
                "q",
                "answer",
                None,
            )
        })
        .collect();
    rows.extend((0..tail_len).map(|i| {
        row(
            "case-tail",
            &format!("tail-{i}"),
            1,
            "2026-08-16T01:00:00+00:00",
            "q",
            "answer",
            None,
        )
    }));
    rows
}

#[test]
fn build_threads_page_emits_a_cursor_when_distinct_equals_limit_but_source_not_exhausted()
{
    let limit = 3;
    let dataset = std::sync::Arc::new(page_size_boundary_dataset(limit, 5));

    let page = build_threads_page(limit, 0, slice_fetcher(dataset.clone()));
    assert_eq!(page.threads.len(), limit);
    let cursor = page
        .next_cursor
        .unwrap();
    let next_offset = decode_cursor(&cursor).unwrap();
    assert_eq!(next_offset, THREADS_FETCH_PAGE_SIZE);

    let next_page = build_threads_page(limit, next_offset, slice_fetcher(dataset));
    assert_eq!(next_page.threads.len(), 1);
    assert_eq!(next_page.threads[0].case_id, "case-tail");
    assert_eq!(next_page.next_cursor, None);
}

#[test]
fn build_threads_page_across_pages_covers_every_case_exactly_once_at_the_page_size_boundary(
) {
    let limit = 3;
    let dataset = std::sync::Arc::new(page_size_boundary_dataset(limit, 5));

    let mut seen: Vec<String> = Vec::new();
    let mut offset = 0i32;
    loop {
        let page = build_threads_page(limit, offset, slice_fetcher(dataset.clone()));
        assert!(!page.threads.is_empty());
        for t in &page.threads {
            assert!(!seen.contains(&t.case_id));
            seen.push(t.case_id.clone());
        }
        match page.next_cursor {
            Some(c) => {
                offset = decode_cursor(&c).unwrap()
            }
            None => break,
        }
    }
    let mut expected: Vec<String> = (0..limit).map(|i| format!("case-{i}")).collect();
    expected.push("case-tail".to_string());
    let mut seen_sorted = seen.clone();
    seen_sorted.sort();
    expected.sort();
    assert_eq!(seen_sorted, expected);
}

#[test]
fn build_threads_page_returns_no_cursor_at_the_true_end() {
    let dataset = std::sync::Arc::new(vec![
        row(
            "case-a",
            "t1",
            1,
            "2026-08-16T00:00:00+00:00",
            "q",
            "answer",
            None,
        ),
        row(
            "case-b",
            "t2",
            1,
            "2026-08-16T00:01:00+00:00",
            "q",
            "answer",
            None,
        ),
    ]);
    let page = build_threads_page(10, 0, slice_fetcher(dataset));
    assert_eq!(page.threads.len(), 2);
    assert_eq!(page.next_cursor, None);
}

#[test]
fn build_threads_page_emits_a_cursor_when_the_round_limit_is_hit_before_reaching_limit() {
    let limit = 3;
    let page_size = THREADS_FETCH_PAGE_SIZE as usize;
    let fetch_page = |offset: i32, requested: i32| -> Vec<TurnRow> {
        (0..requested as usize)
            .map(|i| {
                row(
                    "case-solo",
                    &format!("t-{offset}-{i}"),
                    1,
                    "2026-08-16T00:00:00+00:00",
                    "q",
                    "answer",
                    None,
                )
            })
            .collect()
    };
    let page = build_threads_page(limit, 0, fetch_page);
    assert_eq!(page.threads.len(), 1);
    let cursor = page.next_cursor.unwrap();
    let offset = decode_cursor(&cursor).unwrap();
    assert_eq!(offset, (MAX_INTERNAL_FETCH_ROUNDS * page_size) as i32);
}

#[test]
fn resolved_days_uses_default_when_absent() {
    assert_eq!(resolved_days(None), Ok(STATS_DEFAULT_DAYS));
}

#[test]
fn resolved_days_uses_default_when_zero() {
    assert_eq!(resolved_days(Some(0)), Ok(STATS_DEFAULT_DAYS));
}

#[test]
fn resolved_days_passes_through_a_value_within_the_cap() {
    assert_eq!(resolved_days(Some(STATS_MAX_DAYS)), Ok(STATS_MAX_DAYS));
}

#[test]
fn resolved_days_rejects_a_value_beyond_the_cap() {
    assert!(resolved_days(Some(STATS_MAX_DAYS + 1)).is_err());
}

#[test]
fn default_correction_rationale_text_includes_case_and_turn_ids() {
    let text = default_correction_rationale_text("case-42", "turn-7");
    assert!(text.contains("case-42"));
    assert!(text.contains("turn-7"));
}
