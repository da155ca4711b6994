use homesec_advisor::admin::{
    correction_origin, correction_rationale, resolved_days, resolved_offset, rows_from_attrs,
    summarize_turns, thread_turns, PageWalk, ThreadsPage, TurnRow, THREADS_FETCH_PAGE_SIZE,
};
use homesec_advisor::api::{decide_turn, lead_lost, turn_can_be_counted, TimeSearch};
use homesec_advisor::attrs::AttrMap;
use homesec_advisor::canned::FALLBACK_TEXT;
use homesec_advisor::cards::{image_path_of, is_safe_filename_component, select_cards};
use homesec_advisor::conversation::{
    handle_time_pref, lie_outside_hours, CaseConvState, PrefWindow, TimePrefAction,
    TimePrefExtraction,
};
use homesec_advisor::cs_support::{
    after_evaluated, after_state_loaded, after_time_searched, build_known_facts,
    clarify_question, escalation_ack, finish_turn, gate_customer_reply_draft, gate_generated_text,
    is_final_clarify_turn, missing_to_text, open_support_turn, search_can_be_counted,
    EvaluationOutcome, ReplyHistoryRole, ReplyHistoryTurn, SupportReplyKind, SupportStep,
};
use homesec_advisor::cursor::encode_cursor;
use homesec_advisor::decide::{
    decide_time_pref, decide_time_pref_extraction_failed, AdvisorAction, AdvisorCaseAttrs,
};
use homesec_advisor::draft_meta::{
    parse_draft_meta, recover_meta_from_body_json, separate_draft_meta, ClosingKind, DraftMeta,
    MetaSeparationOutcome, RawDraftMeta, ReaderAnswer, ADVISOR_META_MARKER,
};
use homesec_advisor::draftgen::{
    build_advisor_user_message, candidate_allowed, clear_candidates, conclude_draft,
    extract_http_url_candidates, house_allowlist, trim_trailing_delimiters, url_allowlist_gate,
    warn_on_meta_separation_outcome, DraftMode, UrlCandidate,
};
use homesec_advisor::hours::{BusinessHoursConfig, ClockTime, PrefDays};
use homesec_advisor::materials::{
    assemble_material, match_advisor_known_resolution, material_fault, select_materials_from_hits,
    select_materials_of_kind, AdvisorMaterial, KnownResolution, MaterialFault, NodeResult,
    SearchHit, SignalSet,
};
use homesec_advisor::product_gate::ProductAllowlist;
use homesec_advisor::prompt_input::{truncate_question, NgDictionary, ReplyDraft};
use homesec_advisor::understand::{normalize_condition, ConditionKey, Understanding};
use homesec_advisor::urls::UrlParts;

fn strings(items: &[&str]) -> Vec<String> {
    items.iter().map(|s| s.to_string()).collect()
}

fn attrs(pairs: &[(&str, &str)]) -> AttrMap {
    AttrMap::from_pairs(
        pairs
            .iter()
            .map(|(k, v)| (k.to_string(), v.to_string()))
            .collect(),
    )
}

fn conv() -> CaseConvState {
    CaseConvState {
        clarify_turns: 0,
        awaiting_time_pref: false,
        time_pref_false_count: 0,
        preferred_contact_time: None,
        time_pref_extraction_error_count: 0,
    }
}

/// Reads `{proposal}` and the like.
fn short_note(s: &str) -> ReaderAnswer {
    let end = s.find('}')?;
    let closing = s.get(1..end)?;
    let raw = RawDraftMeta {
        featured: Vec::new(),
        closing: closing.to_string(),
        choices: Vec::new(),
    };
    Some((raw, s[..end + 1].chars().count()))
}

#[test]
fn recovery_leaves_nothing_to_recover() {
    let (body, note) = recover_meta_from_body_json("一{proposal}二{question_open}三 ", &short_note).unwrap();
    assert_eq!(body, "一二三");
    assert_eq!(note.closing, ClosingKind::QuestionOpen);
    assert_eq!(recover_meta_from_body_json(&body, &short_note), None);
}

#[test]
fn a_removal_that_makes_a_new_note_is_followed_up() {
    let (body, note) = recover_meta_from_body_json("{pro{proposal}posal}", &short_note).unwrap();
    assert_eq!(body, "");
    assert_eq!(note.closing, ClosingKind::Proposal);
}

#[test]
fn what_follows_the_marker_has_no_bearing_on_the_text() {
    let one = format!("本文\n{ADVISOR_META_MARKER}\n{{proposal}}");
    let other = format!("本文\n{ADVISOR_META_MARKER}何か");
    let (a, note, how) = separate_draft_meta(&one, &short_note);
    let (b, none, failed) = separate_draft_meta(&other, &short_note);
    assert_eq!(a, b);
    assert_eq!(how, MetaSeparationOutcome::Parsed);
    assert_eq!(failed, MetaSeparationOutcome::ParseFailed);
    assert!(note.is_some());
    assert_eq!(none, None);
    assert_eq!(parse_draft_meta(" {proposal} x", &short_note), None);
}

#[test]
fn separating_what_came_out_gives_it_back() {
    let drafts = [
        "一{proposal}二",
        "{pro{proposal}posal}",
        " 何もない ",
        "本文{ADVISOR_META proposal}",
        "一{proposal}二{question_open ADVISOR_META}三",
        "{ } ADVISOR_META",
    ];
    for raw in drafts {
        let (body, _, _) = separate_draft_meta(raw, &short_note);
        let (again, note, how) = separate_draft_meta(&body, &short_note);
        assert_eq!(again, body);
        assert_eq!(note, None);
        assert_eq!(how, MetaSeparationOutcome::NoMarker);
    }
    let (body, _, how) = separate_draft_meta("一{proposal}二{question_open ADVISOR_META}三", &short_note);
    assert_eq!(body, "一二{question_open");
    assert_eq!(how, MetaSeparationOutcome::RecoveredWithoutMarker);
}

#[test]
fn a_long_question_is_cut_in_the_message() {
    let message = build_advisor_user_message(&[], &[], "<窓>が心配です", "履歴の要約です", 4);
    assert!(message.contains("<顧客の発話>\n＜窓＞が\n</顧客の発話>"));
    assert!(message.contains("<会話履歴の要約>\n履歴の要約です\n</会話履歴の要約>"));
    let empty = build_advisor_user_message(&[], &[], "質問", "履歴", 0);
    assert!(empty.contains("<顧客の発話>\n\n</顧客の発話>"));
}

#[test]
fn allowing_more_addresses_keeps_what_passes() {
    let text = "こちら https://example.com/a です";
    let one = strings(&["https://example.com/a"]);
    let more = strings(&["https://example.com/b", "https://example.com/a"]);
    assert!(url_allowlist_gate(text, &one));
    assert!(url_allowlist_gate(text, &more));
    assert!(!url_allowlist_gate(text, &more[..1]));
}

#[test]
fn questions_are_cut_to_their_limit() {
    assert_eq!(truncate_question("防犯カメラ", 2), "防犯");
    assert_eq!(truncate_question("防犯カメラ", 5), "防犯カメラ");
    assert_eq!(truncate_question("防犯カメラ", 6), "防犯カメラ");
    assert_eq!(truncate_question("防犯カメラ", 0), "");
}

#[test]
fn endings_have_their_words() {
    assert_eq!(ClosingKind::QuestionChoice.as_str(), "question_choice");
    assert_eq!(ClosingKind::QuestionOpen.as_str(), "question_open");
    assert_eq!(ClosingKind::Proposal.as_str(), "proposal");
}

#[test]
fn odd_notes_are_worth_a_warning() {
    let missing = [ConditionKey::Concern];
    let ask = DraftMode::Clarify { missing: &missing };
    assert!(!warn_on_meta_separation_outcome(MetaSeparationOutcome::Parsed, &DraftMode::Answer));
    assert!(warn_on_meta_separation_outcome(MetaSeparationOutcome::NoMarker, &DraftMode::Answer));
    assert!(!warn_on_meta_separation_outcome(MetaSeparationOutcome::NoMarker, &ask));
    assert!(warn_on_meta_separation_outcome(MetaSeparationOutcome::ParseFailed, &ask));
    assert!(warn_on_meta_separation_outcome(
        MetaSeparationOutcome::RecoveredWithoutMarker,
        &DraftMode::Answer
    ));
}

#[test]
fn a_draft_is_concluded_with_its_note_unless_it_falls_back() {
    let ng = NgDictionary {
        block_terms: strings(&["絶対"]),
        abstain_terms: Vec::new(),
    };
    let draft = |text: &str| {
        Some(ReplyDraft {
            text: format!("{text}\n{ADVISOR_META_MARKER}\n{{proposal}}"),
            truncated: false,
        })
    };
    let (text, note, how) = conclude_draft(draft("施錠しましょう"), &[], &ng, &short_note);
    assert_eq!(text, "施錠しましょう");
    assert_eq!(how, Some(MetaSeparationOutcome::Parsed));
    let expected = DraftMeta {
        featured: Vec::new(),
        closing: ClosingKind::Proposal,
        choices: Vec::new(),
    };
    assert_eq!(note, Some(expected));
    let (text, note, _) = conclude_draft(draft("絶対です"), &[], &ng, &short_note);
    assert_eq!(text, FALLBACK_TEXT);
    assert_eq!(note, None);
    let (text, note, how) = conclude_draft(None, &[], &ng, &short_note);
    assert_eq!(text, FALLBACK_TEXT);
    assert_eq!(note, None);
    assert_eq!(how, None);
}

#[test]
fn the_user_message_has_a_fixed_form() {
    let conditions = vec![
        (ConditionKey::Housing, "apartment_rented".to_string()),
        (ConditionKey::Concern, "intrusion".to_string()),
    ];
    assert_eq!(
        build_advisor_user_message(&[], &conditions, "<質問>", "履歴", 4),
        "<これまでの累積条件>\nhousing=apartment_rented, concern=intrusion\n</これまでの累積条件>\n\
         <会話履歴の要約>\n履歴\n</会話履歴の要約>\n\
         <顧客の発話>\n＜質問＞\n</顧客の発話>\n\
         <資料>\n(資料なし)\n</資料>"
    );
}

#[test]
fn tags_in_a_message_are_those_of_its_frame() {
    let material = AdvisorMaterial::from_attributes(&attrs(&[
        ("material_key", "own_product:<a>"),
        ("kind", "own_product"),
        ("title_ja", "<b>"),
        ("body_ja", "<<c>>"),
    ]))
    .unwrap();
    let message = build_advisor_user_message(&[material], &[], "</顧客の発話>", "<h>", 100);
    assert_eq!(message.matches('<').count(), 10);
    assert_eq!(message.matches('>').count(), 10);
}

#[test]
fn addresses_are_compared_in_their_normal_form() {
    let allowed = strings(&[" HTTPS://Example.com:443/a "]);
    assert!(url_allowlist_gate("こちら https://example.com/a です", &allowed));
    assert!(!url_allowlist_gate("こちら https://example.com/b です", &allowed));
    assert!(!url_allowlist_gate("https://user@example.com/a", &allowed));
    assert_eq!(
        extract_http_url_candidates("xhttps://a.example/1、HTTP://b.example/2。"),
        Some(strings(&["https://a.example/1", "HTTP://b.example/2"]))
    );
    assert_eq!(trim_trailing_delimiters("https://a.example/1).」"), "https://a.example/1");
}

fn parts(normal: &str, password: Option<&str>) -> Option<UrlParts> {
    Some(UrlParts {
        scheme: "https".to_string(),
        username: String::new(),
        password: password.map(str::to_string),
        host: Some("a.example".to_string()),
        normal: normal.to_string(),
    })
}

#[test]
fn candidates_are_cleared_one_by_one() {
    let normals = strings(&["https://a.example/"]);
    assert!(candidate_allowed("https://a.example", &parts("https://a.example/", None), &normals));
    assert!(!candidate_allowed("https://a.example", &parts("https://b.example/", None), &normals));
    assert!(!candidate_allowed(
        "https://a.example",
        &parts("https://a.example/", Some("")),
        &normals
    ));
    assert!(!candidate_allowed("https://@a.example", &parts("https://a.example/", None), &normals));
    assert!(!candidate_allowed("https://a.example", &None, &normals));
    let candidate = UrlCandidate {
        text: "https://a.example.".to_string(),
        parsed: None,
        undelimited_parsed: parts("https://a.example/", None),
    };
    let rest = clear_candidates("見て https://a.example. ね", &[candidate], &normals);
    assert_eq!(rest.as_deref(), Some("見て  ね"));
}

#[test]
fn the_house_has_seven_models() {
    let allow = house_allowlist();
    assert_eq!(allow.models.len(), 7);
    assert!(allow.is_in_scope("ADC-VC827P"));
    assert!(!allow.is_in_scope("ADC-VC827"));
}

#[test]
fn each_fault_of_a_material_is_told() {
    let base = [
        ("material_key", "own_product:a"),
        ("kind", "own_product"),
        ("title_ja", "題"),
        ("body_ja", "本文"),
    ];
    let with = |extra: &[(&str, &str)]| {
        let mut pairs = base.to_vec();
        pairs.extend_from_slice(extra);
        attrs(&pairs)
    };
    assert_eq!(material_fault(&with(&[])), None);
    assert_eq!(material_fault(&with(&[("title_ja", " ")])), Some(MaterialFault::Incomplete));
    assert_eq!(material_fault(&with(&[("kind", "x")])), Some(MaterialFault::UnknownKind));
    assert_eq!(
        material_fault(&with(&[("kind", "statistic")])),
        Some(MaterialFault::SourceMissing)
    );
    assert_eq!(
        material_fault(&with(&[("source_url", "http://a.example")])),
        Some(MaterialFault::SourceUnsound)
    );
    let unsound_page = with(&[("product_page_url", "ftp://a.example")]);
    assert_eq!(material_fault(&unsound_page), Some(MaterialFault::PageUnsound));
    assert!(AdvisorMaterial::from_attributes(&unsound_page).is_some());
    let page = with(&[("product_page_url", "https://a.example")]);
    assert_eq!(assemble_material(&page, false, false).unwrap().product_page_url, None);
    let source = with(&[("source_url", "https://a.example")]);
    assert!(assemble_material(&source, false, true).is_none());
}

fn node(id: &str, key: &str) -> NodeResult {
    NodeResult {
        node_id: id.to_string(),
        attributes: attrs(&[
            ("material_key", key),
            ("kind", "own_product"),
            ("title_ja", "題"),
            ("body_ja", "本文"),
        ]),
    }
}

#[test]
fn of_nodes_with_one_id_the_last_counts() {
    let id = "homesec:gen1:advisor_material:x";
    let nodes = vec![node(id, "own_product:old"), node("other", "own_product:b"), node(id, "own_product:a")];
    let hit = SearchHit {
        id: Some(id.to_string()),
    };
    assert_eq!(select_materials_from_hits(&[hit], &nodes)[0].material_key, "own_product:a");
    let keys: Vec<String> = select_materials_of_kind(&nodes, "own_product")
        .into_iter()
        .map(|m| m.material_key)
        .collect();
    assert_eq!(keys, strings(&["own_product:a", "own_product:b"]));
}

#[test]
fn a_resolution_applies_to_just_its_signals() {
    let kr = |id: &str, signals: &[&str]| KnownResolution {
        id: id.to_string(),
        signal_set: SignalSet {
            signals: strings(signals),
        },
        answer: "回答".to_string(),
    };
    let conditions = vec![
        (ConditionKey::Concern, "intrusion".to_string()),
        (ConditionKey::Housing, "apartment_rented".to_string()),
    ];
    let resolutions = vec![
        kr("kr-0", &["concern:intrusion"]),
        kr("kr-1", &["housing:apartment_rented", "concern:intrusion"]),
        kr("kr-2", &["concern:intrusion", "housing:apartment_rented"]),
    ];
    let applied = match_advisor_known_resolution(&resolutions, &conditions);
    assert_eq!(applied.map(|k| k.id.as_str()), Some("kr-1"));
}

#[test]
fn conditions_have_fixed_values() {
    assert_eq!(
        normalize_condition("budget", "10k_50k"),
        Some((ConditionKey::Budget, "10k_50k".to_string()))
    );
    assert_eq!(normalize_condition("budget", "intrusion"), None);
    assert_eq!(normalize_condition("color", "red"), None);
}

#[test]
fn image_names_cannot_lead_out_of_their_directory() {
    assert!(is_safe_filename_component("adc-v724.jpg"));
    assert!(!is_safe_filename_component(""));
    assert!(!is_safe_filename_component("a..jpg"));
    assert!(!is_safe_filename_component("../a.jpg"));
    assert!(!is_safe_filename_component("A.jpg"));
    assert!(!is_safe_filename_component("あ.jpg"));
    let images = strings(&["../a.jpg", "a.jpg"]);
    assert_eq!(image_path_of(&Some("../a.jpg".to_string()), &images), None);
    assert_eq!(
        image_path_of(&Some("a.jpg".to_string()), &images).as_deref(),
        Some("/static/products/a.jpg")
    );
    assert_eq!(image_path_of(&Some("b.jpg".to_string()), &images), None);
    assert_eq!(image_path_of(&None, &images), None);
}

#[test]
fn product_names_are_lowered_for_their_images() {
    let mut m = AdvisorMaterial::from_attributes(&attrs(&[
        ("material_key", "own_product:k"),
        ("kind", "own_product"),
        ("title_ja", "製品"),
        ("body_ja", "本文"),
        ("product_key", "ADC-V724"),
        ("card_description", "説明"),
    ]))
    .unwrap();
    let images = strings(&["adc-v724.jpg", "ADC-V724.jpg"]);
    let cards = select_cards("製品です", &[m.clone()], "", &images);
    assert_eq!(cards[0].image_url.as_deref(), Some("/static/products/adc-v724.jpg"));
    m.product_key = Some("Ä".to_string());
    let cards = select_cards("製品です", &[m], "", &strings(&["ä.jpg"]));
    assert_eq!(cards[0].image_url, None);
}

fn row(case_id: &str, seq: u32, created_at: &str) -> TurnRow {
    TurnRow {
        case_id: case_id.to_string(),
        turn_id: format!("{case_id}-{seq}"),
        seq,
        created_at: created_at.to_string(),
        question: "q".to_string(),
        reply_text: "r".to_string(),
        reply_kind: "answer".to_string(),
        audit_event_id: String::new(),
        end_user_id: None,
    }
}

#[test]
fn every_conversation_is_found_on_some_page() {
    let mut rows: Vec<TurnRow> = Vec::new();
    for i in 0..450_u32 {
        rows.push(row(&format!("case-{}", i % 37), i, &format!("2026-08-{:05}", 99999 - i)));
    }
    let mut seen: Vec<String> = Vec::new();
    let mut offset: i32 = 0;
    loop {
        let mut walk = PageWalk::start(5, offset);
        while let Some(next) = walk.next_fetch() {
            let end = (next + THREADS_FETCH_PAGE_SIZE).min(rows.len() as i32);
            walk.absorb(rows[next as usize..end as usize].to_vec());
        }
        assert!(!walk.gave_up());
        let page = walk.finish();
        seen.extend(page.threads.into_iter().map(|t| t.case_id));
        let next = match page.next_cursor {
            Some(cursor) => resolved_offset(Some(&cursor)),
            None => break,
        };
        assert!(next > offset);
        offset = next;
    }
    seen.sort();
    seen.dedup();
    assert_eq!(seen.len(), 37);
}

fn turn_node(case_id: &str, seq: u32, created_at: &str) -> AttrMap {
    attrs(&[
        ("case_id", case_id),
        ("turn_id", &format!("t{seq}")),
        ("seq", &seq.to_string()),
        ("created_at", created_at),
    ])
}

fn page_of_nodes(nodes: &[AttrMap], limit: usize, offset: i32) -> ThreadsPage {
    let mut walk = PageWalk::start(limit, offset);
    while let Some(next) = walk.next_fetch() {
        let end = (next + THREADS_FETCH_PAGE_SIZE).min(nodes.len() as i32);
        let list = &nodes[next as usize..end as usize];
        assert!(list.len() <= walk.room());
        walk.absorb_fetched(list);
    }
    walk.finish()
}

#[test]
fn a_node_without_a_turn_does_not_end_the_list() {
    let mut nodes: Vec<AttrMap> = Vec::new();
    for i in 0..200_u32 {
        nodes.push(turn_node(&format!("case-{}", i % 3), i, &format!("2026-08-{:05}", 99999 - i)));
    }
    nodes[57] = attrs(&[("turn_id", "t57")]);
    let full = page_of_nodes(&nodes, 3, 0);
    assert_eq!(full.threads.len(), 3);
    assert_eq!(full.next_cursor, Some(encode_cursor(200)));
    for i in 200..205_u32 {
        nodes.push(turn_node("case-tail", i, &format!("2026-08-{:05}", 99999 - i)));
    }
    let more = page_of_nodes(&nodes, 4, 0);
    assert_eq!(more.threads.len(), 4);
    assert_eq!(more.next_cursor, None);
    let last = page_of_nodes(&nodes, 3, 200);
    assert_eq!(last.threads.len(), 1);
    assert_eq!(last.threads[0].case_id, "case-tail");
    assert_eq!(last.threads[0].turn_count, 5);
    assert_eq!(last.next_cursor, None);
}

#[test]
fn a_cut_page_goes_on_behind_the_node_of_its_last_conversation() {
    let nodes = vec![
        attrs(&[("turn_id", "x")]),
        turn_node("a", 1, "2026-08-05"),
        attrs(&[]),
        turn_node("b", 2, "2026-08-04"),
        turn_node("c", 3, "2026-08-03"),
    ];
    let page = page_of_nodes(&nodes, 2, 0);
    let cases: Vec<&str> = page.threads.iter().map(|t| t.case_id.as_str()).collect();
    assert_eq!(cases, ["a", "b"]);
    assert_eq!(page.next_cursor, Some(encode_cursor(4)));
}

#[test]
fn single_turns_are_listed_exactly_once() {
    let mut nodes: Vec<AttrMap> = Vec::new();
    let mut expected: Vec<String> = Vec::new();
    for i in 0..430_u32 {
        if i % 11 == 5 {
            nodes.push(attrs(&[("turn_id", "x")]));
        } else {
            let case_id = format!("case-{i}");
            nodes.push(turn_node(&case_id, i, &format!("2026-08-{:05}", 99999 - i / 7)));
            expected.push(case_id);
        }
    }
    let mut seen: Vec<String> = Vec::new();
    let mut offset: i32 = 0;
    loop {
        let page = page_of_nodes(&nodes, 9, offset);
        seen.extend(page.threads.into_iter().map(|t| t.case_id));
        match page.next_cursor {
            Some(cursor) => offset = resolved_offset(Some(&cursor)),
            None => break,
        }
    }
    assert_eq!(seen, expected);
}

#[test]
fn offsets_start_at_zero_without_a_cursor() {
    assert_eq!(resolved_offset(None), 0);
    assert_eq!(resolved_offset(Some("!")), 0);
    assert_eq!(resolved_offset(Some(&encode_cursor(-5))), 0);
    assert_eq!(resolved_offset(Some(&encode_cursor(7))), 7);
}

#[test]
fn kinds_of_replies_are_counted_in_their_order() {
    let turn = |kind: &str| TurnRow {
        reply_kind: kind.to_string(),
        ..row("c", 1, "t")
    };
    let rows = [turn("lead"), turn("answer"), turn("time_pref"), turn("answer"), turn("é")];
    let summary = summarize_turns(7, &rows);
    let entries: Vec<(&str, u32)> = summary
        .reply_kind_counts
        .entries
        .iter()
        .map(|(kind, n)| (kind.as_str(), *n))
        .collect();
    assert_eq!(entries, [("answer", 2), ("lead", 1), ("time_pref", 1), ("é", 1)]);
    let mut turned = rows.to_vec();
    turned.reverse();
    assert_eq!(summarize_turns(7, &turned), summary);
}

#[test]
fn a_reason_that_was_given_is_kept() {
    assert_eq!(correction_rationale(Some("確認済み"), "c", "t"), "確認済み");
    assert_eq!(correction_rationale(Some(""), "c", "t"), "");
    assert_eq!(
        correction_rationale(None, "c", "t"),
        "管理画面からの訂正登録（case: c, turn: t）"
    );
}

#[test]
fn too_many_days_are_refused_in_words() {
    assert_eq!(
        resolved_days(Some(3651)),
        Err("days must be between 1 and 3650, got 3651".to_string())
    );
}

#[test]
fn turns_are_shown_in_the_order_of_their_numbers() {
    let turn = |id: &str, seq: &str| {
        attrs(&[("case_id", "c"), ("turn_id", id), ("seq", seq), ("created_at", "t")])
    };
    let list = vec![turn("b", "2"), attrs(&[("turn_id", "x")]), turn("a", "1"), turn("c", "2"), turn("z", "no")];
    let ids: Vec<String> = thread_turns(&list).into_iter().map(|t| t.turn_id).collect();
    assert_eq!(ids, strings(&["z", "a", "b", "c"]));
    assert_eq!(rows_from_attrs(&list).len(), 4);
    assert!(thread_turns(&[]).is_empty());
    assert_eq!(summarize_turns(1, &rows_from_attrs(&list)).reply_kind_counts.get(""), Some(4));
    assert_eq!(correction_origin("c", "t"), "case:c:turn:t");
}

fn house() -> ProductAllowlist {
    ProductAllowlist::from_models(strings(&["ADC-V724"]))
}

fn outcome() -> EvaluationOutcome {
    EvaluationOutcome {
        allowed: true,
        missing: Vec::new(),
        clarification_allowed: false,
        lexicon_fallback: false,
        customer_reply_draft: None,
        customer_reply_draft_truncated: false,
        case_id: "case-1".to_string(),
        new_signals: strings(&["mold"]),
    }
}

#[test]
fn a_support_turn_takes_its_steps_in_order() {
    assert!(matches!(open_support_turn("映りません", &house(), true), SupportStep::LoadState));
    let mut c = conv();
    assert!(matches!(
        after_state_loaded(&c),
        SupportStep::Evaluate {
            state_changed: false
        }
    ));
    c.awaiting_time_pref = true;
    c.time_pref_extraction_error_count = 2;
    assert!(matches!(after_state_loaded(&c), SupportStep::SearchTime));
    let named = Some(TimePrefExtraction {
        is_time_preference: true,
        windows: Vec::new(),
        raw: "午後".to_string(),
    });
    let mut noted = c.clone();
    let hours = BusinessHoursConfig::default();
    assert!(matches!(
        after_time_searched(&named, &mut noted, &hours, "(時間外)"),
        SupportStep::ReplyTimeNoted
    ));
    assert_eq!(noted.preferred_contact_time.as_deref(), Some("午後"));
    assert_eq!(noted.time_pref_extraction_error_count, 0);
    assert!(matches!(
        after_time_searched(&None, &mut c, &hours, "(時間外)"),
        SupportStep::Evaluate {
            state_changed: true
        }
    ));
    assert!(!c.awaiting_time_pref);
    assert!(matches!(after_evaluated(&outcome(), None), SupportStep::LoadEvaluatedState));
    match after_evaluated(&outcome(), Some(" 他社カメラ ")) {
        SupportStep::Demote {
            surface,
            case_id,
            discarded_signals,
        } => {
            assert_eq!(surface, "他社カメラ");
            assert_eq!(case_id, "case-1");
            assert_eq!(discarded_signals, strings(&["mold"]));
        }
        _ => panic!("a confirmed product of someone else is turned away"),
    }
}

fn named(start: u32, end: u32) -> TimePrefExtraction {
    TimePrefExtraction {
        is_time_preference: true,
        windows: vec![PrefWindow {
            days: PrefDays::Weekday,
            start: Some(ClockTime { hour: start, minute: 0 }),
            end: Some(ClockTime { hour: end, minute: 0 }),
        }],
        raw: "その時間に".to_string(),
    }
}

#[test]
fn a_time_outside_business_hours_is_noted_as_such() {
    let hours = BusinessHoursConfig::default();
    let mut c = conv();
    c.awaiting_time_pref = true;
    assert_eq!(handle_time_pref(&named(20, 21), &mut c, &hours, "(時間外)"), TimePrefAction::Reply);
    assert_eq!(c.preferred_contact_time.as_deref(), Some("その時間に(時間外)"));
    assert!(!c.awaiting_time_pref);
    c.time_pref_false_count = u32::MAX;
    assert_eq!(handle_time_pref(&named(16, 20), &mut c, &hours, "(時間外)"), TimePrefAction::Reply);
    assert_eq!(c.preferred_contact_time.as_deref(), Some("その時間に"));
    assert_eq!(c.time_pref_false_count, 0);
    assert!(lie_outside_hours(&named(18, 19).windows, &hours));
    assert!(!lie_outside_hours(&[], &hours));
}

fn understood(emergency: bool) -> Understanding {
    Understanding {
        in_domain: true,
        emergency,
        urtect_support: false,
        lead_interest: false,
        product_intent: false,
        summary_ja: String::new(),
        conditions: Vec::new(),
    }
}

#[test]
fn an_emergency_is_answered_whatever_was_counted() {
    let hours = BusinessHoursConfig::default();
    let worn = CaseConvState {
        clarify_turns: u32::MAX,
        awaiting_time_pref: true,
        time_pref_false_count: u32::MAX,
        preferred_contact_time: None,
        time_pref_extraction_error_count: u32::MAX,
    };
    let mut c = worn.clone();
    let u = understood(true);
    assert_eq!(
        decide_time_pref(&u, &named(20, 21), &mut c, &hours, false, 3),
        AdvisorAction::Safety
    );
    assert_eq!(c, worn);
    assert_eq!(
        decide_time_pref_extraction_failed(&u, &mut c, false, 3),
        AdvisorAction::Safety
    );
    assert_eq!(c, worn);
    let mut kept = AdvisorCaseAttrs::default();
    assert!(turn_can_be_counted(&u, &TimeSearch::NotMade, &c));
    let action = decide_turn(&u, &TimeSearch::NotMade, &mut c, &mut kept, &hours, 3);
    assert_eq!(action, AdvisorAction::Safety);
    assert!(!c.awaiting_time_pref);
    let calm = understood(false);
    assert!(!turn_can_be_counted(&calm, &TimeSearch::Failed, &worn));
    assert!(!turn_can_be_counted(&calm, &TimeSearch::Found(named(20, 21)), &worn));
    assert!(turn_can_be_counted(&calm, &TimeSearch::NotMade, &worn));
    assert!(turn_can_be_counted(&calm, &TimeSearch::Failed, &c));
}

#[test]
fn a_lead_is_lost_to_times_that_do_not_fit_and_to_failed_searches() {
    let hours = BusinessHoursConfig::default();
    let calm = understood(false);
    let mut c = conv();
    c.awaiting_time_pref = true;
    let late = TimeSearch::Found(named(20, 21));
    assert!(!lead_lost(&calm, &late, &c, &hours));
    c.time_pref_false_count = 1;
    assert!(lead_lost(&calm, &late, &c, &hours));
    assert!(!lead_lost(&understood(true), &late, &c, &hours));
    assert!(!lead_lost(&calm, &TimeSearch::Found(named(11, 12)), &c, &hours));
    let mut other = named(20, 21);
    other.is_time_preference = false;
    assert!(!lead_lost(&calm, &TimeSearch::Found(other), &c, &hours));
    assert!(!lead_lost(&calm, &TimeSearch::Failed, &c, &hours));
    c.time_pref_extraction_error_count = 2;
    assert!(lead_lost(&calm, &TimeSearch::Failed, &c, &hours));
    assert!(!lead_lost(&calm, &TimeSearch::NotMade, &c, &hours));
    let mut kept = AdvisorCaseAttrs::default();
    let action = decide_turn(&calm, &late, &mut c, &mut kept, &hours, 0);
    assert_eq!(action, AdvisorAction::Answer);
    assert!(!c.awaiting_time_pref);
    assert_eq!(c.preferred_contact_time, None);
    assert!(!lead_lost(&calm, &late, &c, &hours));
}

#[test]
fn no_more_is_asked_back_once_the_counter_is_full() {
    let hours = BusinessHoursConfig::default();
    let mut c = conv();
    c.clarify_turns = u32::MAX;
    let mut kept = AdvisorCaseAttrs::default();
    let u = understood(false);
    let action = decide_turn(&u, &TimeSearch::NotMade, &mut c, &mut kept, &hours, u32::MAX);
    assert_eq!(action, AdvisorAction::Answer);
    assert_eq!(c.clarify_turns, u32::MAX);
}

#[test]
fn only_what_is_counted_has_to_fit() {
    let mut c = conv();
    c.time_pref_false_count = u32::MAX;
    c.time_pref_extraction_error_count = 1;
    let mut other = named(20, 21);
    assert!(search_can_be_counted(&Some(other.clone()), &c));
    other.is_time_preference = false;
    assert!(!search_can_be_counted(&Some(other), &c));
    assert!(search_can_be_counted(&None, &c));
    c.time_pref_extraction_error_count = u32::MAX;
    assert!(!search_can_be_counted(&None, &c));
}

#[test]
fn texts_about_foreign_models_are_not_sent() {
    let text = "ADC-X1を見てください".to_string();
    assert_eq!(gate_generated_text(text.clone(), &house(), "代わり"), "代わり");
    assert_eq!(gate_generated_text("ADC-V724です".to_string(), &house(), "代わり"), "ADC-V724です");
    assert_eq!(gate_customer_reply_draft(Some(text.clone()), &house()), None);
    assert_eq!(gate_customer_reply_draft(None, &house()), None);
    let mut c = conv();
    let question = clarify_question(Some(text.clone()), &house(), "固定", "(最後)", true, &mut c);
    assert_eq!(question, "固定(最後)");
    assert_eq!(c.clarify_turns, 1);
    assert_eq!(escalation_ack(Some(text), &house(), "承りました", &mut c), "承りました");
    assert_eq!(c.clarify_turns, 0);
}

#[test]
fn the_last_question_back_is_known() {
    let mut c = conv();
    assert!(!is_final_clarify_turn(&c, 3));
    c.clarify_turns = 2;
    assert!(is_final_clarify_turn(&c, 3));
    assert!(is_final_clarify_turn(&conv(), 0));
    assert_eq!(
        missing_to_text(&[]),
        "情報が不足しており、現在の内容では回答の根拠が十分ではありません。"
    );
}

#[test]
fn known_facts_are_the_labels_and_the_last_words() {
    let said = |role: ReplyHistoryRole, text: &str| ReplyHistoryTurn {
        role,
        text: text.to_string(),
    };
    let history = vec![
        said(ReplyHistoryRole::Customer, "古い"),
        said(ReplyHistoryRole::Assistant, "返答"),
        said(ReplyHistoryRole::Customer, " \n"),
        said(ReplyHistoryRole::Customer, "新し\nい"),
    ];
    assert_eq!(
        build_known_facts(&strings(&["カビ", "臭い"]), &history, 1),
        "- 把握済みの条件語: カビ、臭い\n- 顧客発話: 新し い"
    );
    assert_eq!(build_known_facts(&[], &[], 3), "");
    let long = "あ".repeat(101);
    let line = build_known_facts(&[], &[said(ReplyHistoryRole::Customer, &long)], 3);
    assert_eq!(line.chars().count(), "- 顧客発話: ".chars().count() + 101);
    assert!(line.ends_with('…'));
}

#[test]
fn support_replies_are_plain_and_named() {
    let done = finish_turn(
        SupportReplyKind::Escalation,
        "- 承りました",
        "case-1".to_string(),
        String::new(),
    );
    assert_eq!(done.reply_text, "・承りました");
    assert_eq!(done.reply_kind.as_str(), "escalation");
    assert_eq!(SupportReplyKind::Answer.as_str(), "answer");
    assert_eq!(SupportReplyKind::Clarify.as_str(), "clarify");
    assert_eq!(SupportReplyKind::TimePref.as_str(), "time_pref");
    assert_eq!(SupportReplyKind::OutOfScope.as_str(), "out_of_scope");
}
