use homesec_advisor::api::{
    append_shown_product_cards, apply_action_contract, build_accumulated_digest,
    build_history_digest, clarify_meta_for_upstream, log_turn_decision, merge_support_case_attrs,
    should_burn_lead_offered, should_select_cards, HistoryEntry, HistoryRole,
};
use homesec_advisor::attrs::AttrMap;
use homesec_advisor::canned::FALLBACK_TEXT;
use homesec_advisor::cards::ProductCard;
use homesec_advisor::conversation::CaseConvState;
use homesec_advisor::decide::{AdvisorAction, AdvisorCaseAttrs};
use homesec_advisor::draft_meta::{ClosingKind, DraftMeta};
use homesec_advisor::draftgen::LEAD_OFFER_MARKER;
use homesec_advisor::materials::AdvisorMaterial;
use homesec_advisor::prompt_input::to_plain_text;
use homesec_advisor::understand::ConditionKey;
use std::collections::HashMap;

fn attr_map(map: &HashMap<String, String>) -> AttrMap {
    AttrMap::from_pairs(map.iter().map(|(k, v)| (k.clone(), v.clone())).collect())
}

#[test]
fn build_history_digest_returns_empty_string_when_no_history() {
    assert_eq!(build_history_digest(&[]), "");
}

#[test]
fn build_history_digest_labels_customer_and_assistant_lines_in_order() {
    let history = vec![
        HistoryEntry {
            role: HistoryRole::Customer,
            text: "玄関の防犯が心配です".to_string(),
        },
        HistoryEntry {
            role: HistoryRole::Assistant,
            text: "詳しく教えてください".to_string(),
        },
    ];
    assert_eq!(build_history_digest(&history), "顧客: 玄関の防犯が心配です\nアドバイザー: 詳しく教えてください");
}

#[test]
fn build_accumulated_digest_returns_empty_string_when_no_conditions() {
    assert_eq!(build_accumulated_digest(&[]), "");
}

#[test]
fn build_accumulated_digest_formats_key_colon_value_lines() {
    let conditions = vec![
        (ConditionKey::Housing, "apartment_rented".to_string()),
        (ConditionKey::Concern, "intrusion".to_string()),
    ];
    assert_eq!(build_accumulated_digest(&conditions), "housing:apartment_rented\nconcern:intrusion");
}

#[test]
fn append_shown_product_cards_appends_to_existing_csv() {
    assert_eq!(
        append_shown_product_cards(
            "own_product:adc-v724",
            &["partner_product:alsok", "own_product:adc-v523"]
        ),
        "own_product:adc-v724,partner_product:alsok,own_product:adc-v523"
    );
}

#[test]
fn append_shown_product_cards_from_empty_existing_yields_only_new_keys() {
    assert_eq!(append_shown_product_cards("", &["own_product:adc-v724"]), "own_product:adc-v724");
}

#[test]
fn append_shown_product_cards_returns_existing_unchanged_when_no_new_keys() {
    assert_eq!(append_shown_product_cards("own_product:adc-v724", &[]), "own_product:adc-v724");
}

#[test]
fn apply_action_contract_safety_disarms_time_pref_and_resets_false_count() {
    let mut conv = base_conv();
    conv.awaiting_time_pref = true;
    conv.time_pref_false_count = 2;
    let mut attrs = base_advisor_attrs();

    apply_action_contract(&AdvisorAction::Safety, &mut conv, &mut attrs);

    assert!(!conv.awaiting_time_pref);
    assert_eq!(conv.time_pref_false_count, 0);
    assert_eq!(attrs, base_advisor_attrs());
}

#[test]
fn apply_action_contract_lead_solicit_arms_time_pref_and_resets_clarify_turns() {
    let mut conv = base_conv();
    conv.awaiting_time_pref = false;
    conv.time_pref_false_count = 1;
    conv.clarify_turns = 2;
    let mut attrs = base_advisor_attrs();

    apply_action_contract(&AdvisorAction::LeadSolicit, &mut conv, &mut attrs);

    assert!(conv.awaiting_time_pref);
    assert_eq!(conv.time_pref_false_count, 0);
    assert_eq!(conv.clarify_turns, 0);
    assert_eq!(attrs, base_advisor_attrs());
}

#[test]
fn apply_action_contract_clarify_increments_clarify_turns_from_zero() {
    let mut conv = base_conv();
    conv.clarify_turns = 0;
    let mut attrs = base_advisor_attrs();

    apply_action_contract(
        &AdvisorAction::Clarify {
            missing: vec![ConditionKey::Concern],
        },
        &mut conv,
        &mut attrs,
    );

    assert_eq!(conv.clarify_turns, 1);
}

#[test]
fn apply_action_contract_clarify_increments_clarify_turns_from_nonzero() {
    let mut conv = base_conv();
    conv.clarify_turns = 2;
    let mut attrs = base_advisor_attrs();

    apply_action_contract(
        &AdvisorAction::Clarify {
            missing: vec![ConditionKey::Housing],
        },
        &mut conv,
        &mut attrs,
    );

    assert_eq!(conv.clarify_turns, 3);
}

#[test]
fn apply_action_contract_lead_confirmed_sets_lead_requested() {
    let mut conv = base_conv();
    let mut attrs = base_advisor_attrs();

    apply_action_contract(
        &AdvisorAction::LeadConfirmed {
            slot: "平日13:00〜15:00".to_string(),
        },
        &mut conv,
        &mut attrs,
    );

    assert!(attrs.lead_requested);
    assert_eq!(conv, base_conv());
}

#[test]
fn apply_action_contract_answer_handoff_out_of_domain_and_time_pref_continue_touch_nothing() {
    for action in [
        AdvisorAction::Answer,
        AdvisorAction::Handoff,
        AdvisorAction::OutOfDomain,
        AdvisorAction::TimePrefContinue,
    ] {
        let mut conv = base_conv();
        conv.clarify_turns = 1;
        conv.awaiting_time_pref = true;
        conv.time_pref_false_count = 1;
        let mut attrs = base_advisor_attrs();
        attrs.lead_offered = true;

        let conv_before = conv.clone();
        let attrs_before = attrs.clone();

        apply_action_contract(&action, &mut conv, &mut attrs);

        assert_eq!(conv, conv_before);
        assert_eq!(attrs, attrs_before);
    }
}

#[test]
fn should_burn_lead_offered_true_when_draft_contains_the_marker_and_not_yet_offered() {
    let text = format!("ご希望であれば{}。", LEAD_OFFER_MARKER);
    assert!(should_burn_lead_offered(false, &text));
}

#[test]
fn should_burn_lead_offered_false_when_draft_does_not_contain_the_marker() {
    assert!(!should_burn_lead_offered(
        false,
        "まずは施錠の徹底をおすすめします。"
    )
    );
}

#[test]
fn should_burn_lead_offered_false_when_the_draft_is_the_fallback_text() {
    assert!(!should_burn_lead_offered(false, FALLBACK_TEXT));
}

#[test]
fn should_burn_lead_offered_false_when_already_offered_even_if_marker_present() {
    let text = format!("{}。", LEAD_OFFER_MARKER);
    assert!(!should_burn_lead_offered(true, &text));
}

#[test]
fn should_burn_lead_offered_false_for_a_negated_mention_of_the_marker_word() {
    assert!(!should_burn_lead_offered(
        false,
        "担当者に連絡する必要はありません。まずはご自身で確認してみてください。"
    )
    );
}

#[test]
fn should_burn_lead_offered_false_for_a_partner_service_mention_of_the_marker_word() {
    assert!(!should_burn_lead_offered(
        false,
        "警備会社の担当者が駆けつけるサービスもあります。"
    )
    );
}

#[test]
fn clarify_meta_for_upstream_discards_a_leaked_llm_meta() {
    let leaked = DraftMeta {
        featured: vec!["own_product:adc-v724".to_string()],
        closing: ClosingKind::Proposal,
        choices: Vec::new(),
    };
    assert_eq!(clarify_meta_for_upstream(Some(leaked)), None);
}

#[test]
fn clarify_meta_for_upstream_is_a_noop_when_there_is_no_meta() {
    assert_eq!(clarify_meta_for_upstream(None), None);
}

#[test]
fn fallback_text_never_contains_the_lead_offer_marker() {
    assert!(!FALLBACK_TEXT.contains(LEAD_OFFER_MARKER));
}

#[test]
fn should_select_cards_false_for_fallback_reply_kind() {
    assert!(!should_select_cards("fallback"));
}

#[test]
fn should_select_cards_true_for_non_fallback_reply_kinds() {
    for kind in [
        "answer",
        "clarify",
        "safety",
        "out_of_domain",
        "handoff",
        "time_pref",
        "lead",
    ] {
        assert!(should_select_cards(kind));
    }
}

#[test]
fn fallback_text_survives_plain_text_normalization_unchanged() {
    assert_eq!(to_plain_text(FALLBACK_TEXT), FALLBACK_TEXT);
}

fn base_conv() -> CaseConvState {
    CaseConvState {
        clarify_turns: 1,
        awaiting_time_pref: false,
        time_pref_false_count: 0,
        preferred_contact_time: None,
        time_pref_extraction_error_count: 0,
    }
}

fn base_advisor_attrs() -> AdvisorCaseAttrs {
    AdvisorCaseAttrs {
        lead_offered: false,
        lead_requested: false,
        shown_product_cards: String::new(),
        question_streak: 0,
    }
}

#[test]
fn merge_support_case_attrs_preserves_unrelated_existing_keys() {
    let mut existing = HashMap::new();
    existing.insert("turn_count".to_string(), "3".to_string());
    existing.insert(
        "actor".to_string(),
        "service:homesec-answer-api".to_string(),
    );

    let attrs = merge_support_case_attrs(
        &attr_map(&existing),
        "case-1",
        "質問文",
        None,
        &base_conv(),
        &base_advisor_attrs(),
        &[],
        "2026-08-18T00:00:00Z",
    );
    let map: HashMap<String, String> = attrs.into_iter().collect();
    assert_eq!(map.get("turn_count").map(String::as_str), Some("3"));
    assert_eq!(map.get("actor").map(String::as_str), Some("service:homesec-answer-api"));
}

#[test]
fn merge_support_case_attrs_always_overwrites_case_id_and_question() {
    let mut existing = HashMap::new();
    existing.insert("case_id".to_string(), "stale-id".to_string());
    existing.insert("question".to_string(), "古い質問".to_string());

    let attrs = merge_support_case_attrs(
        &attr_map(&existing),
        "case-1",
        "新しい質問",
        None,
        &base_conv(),
        &base_advisor_attrs(),
        &[],
        "2026-08-18T00:00:00Z",
    );
    let map: HashMap<String, String> = attrs.into_iter().collect();
    assert_eq!(map.get("case_id").map(String::as_str), Some("case-1"));
    assert_eq!(map.get("question").map(String::as_str), Some("新しい質問"));
}

#[test]
fn merge_support_case_attrs_sets_created_at_when_missing() {
    let existing: HashMap<String, String> = HashMap::new();
    let attrs = merge_support_case_attrs(
        &attr_map(&existing),
        "case-1",
        "質問文",
        None,
        &base_conv(),
        &base_advisor_attrs(),
        &[],
        "2026-08-18T00:00:00Z",
    );
    let map: HashMap<String, String> = attrs.into_iter().collect();
    assert_eq!(map.get("created_at").map(String::as_str), Some("2026-08-18T00:00:00Z"));
}

#[test]
fn merge_support_case_attrs_preserves_existing_created_at_without_overwriting() {
    let mut existing = HashMap::new();
    existing.insert("created_at".to_string(), "2026-01-01T00:00:00Z".to_string());
    let attrs = merge_support_case_attrs(
        &attr_map(&existing),
        "case-1",
        "質問文",
        None,
        &base_conv(),
        &base_advisor_attrs(),
        &[],
        "2026-08-18T00:00:00Z",
    );
    let map: HashMap<String, String> = attrs.into_iter().collect();
    assert_eq!(map.get("created_at").map(String::as_str), Some("2026-01-01T00:00:00Z"));
}

#[test]
fn merge_support_case_attrs_sets_end_user_id_when_absent_and_provided() {
    let existing: HashMap<String, String> = HashMap::new();
    let attrs = merge_support_case_attrs(
        &attr_map(&existing),
        "case-1",
        "質問文",
        Some("end-user-abc"),
        &base_conv(),
        &base_advisor_attrs(),
        &[],
        "2026-08-18T00:00:00Z",
    );
    let map: HashMap<String, String> = attrs.into_iter().collect();
    assert_eq!(map.get("end_user_id").map(String::as_str), Some("end-user-abc"));
}

#[test]
fn merge_support_case_attrs_does_not_overwrite_existing_end_user_id() {
    let mut existing = HashMap::new();
    existing.insert("end_user_id".to_string(), "original-user".to_string());
    let attrs = merge_support_case_attrs(
        &attr_map(&existing),
        "case-1",
        "質問文",
        Some("different-user"),
        &base_conv(),
        &base_advisor_attrs(),
        &[],
        "2026-08-18T00:00:00Z",
    );
    let map: HashMap<String, String> = attrs.into_iter().collect();
    assert_eq!(map.get("end_user_id").map(String::as_str), Some("original-user"));
}

#[test]
fn merge_support_case_attrs_writes_conv_state_advisor_attrs_and_conditions() {
    let existing: HashMap<String, String> = HashMap::new();
    let mut conv = base_conv();
    conv.awaiting_time_pref = true;
    conv.time_pref_false_count = 1;
    conv.preferred_contact_time = Some("平日13:00〜15:00".to_string());
    conv.time_pref_extraction_error_count = 2;
    let advisor_attrs = AdvisorCaseAttrs {
        lead_offered: true,
        lead_requested: true,
        shown_product_cards: "own_product:adc-v724".to_string(),
        question_streak: 3,
    };
    let conditions = vec![
        (ConditionKey::Concern, "intrusion".to_string()),
        (ConditionKey::Housing, "apartment_rented".to_string()),
    ];

    let attrs = merge_support_case_attrs(
        &attr_map(&existing),
        "case-1",
        "質問文",
        None,
        &conv,
        &advisor_attrs,
        &conditions,
        "2026-08-18T00:00:00Z",
    );
    let map: HashMap<String, String> = attrs.into_iter().collect();

    assert_eq!(map.get("clarify_turns").map(String::as_str), Some("1"));
    assert_eq!(map.get("awaiting_time_pref").map(String::as_str), Some("true"));
    assert_eq!(map.get("time_pref_false_count").map(String::as_str), Some("1"));
    assert_eq!(map.get("preferred_contact_time").map(String::as_str), Some("平日13:00〜15:00"));
    assert_eq!(
        map.get("time_pref_extraction_error_count")
            .map(String::as_str),
        Some("2")
    );
    assert_eq!(map.get("lead_offered").map(String::as_str), Some("true"));
    assert_eq!(map.get("lead_requested").map(String::as_str), Some("true"));
    assert_eq!(map.get("shown_product_cards").map(String::as_str), Some("own_product:adc-v724"));
    assert_eq!(map.get("question_streak").map(String::as_str), Some("3"));
    assert_eq!(map.get("advisor_cond_concern").map(String::as_str), Some("intrusion"));
    assert_eq!(map.get("advisor_cond_housing").map(String::as_str), Some("apartment_rented"));
    assert!(!map.contains_key("advisor_cond_target"));
}

fn material_fixture(kind: &str, material_key: &str) -> AdvisorMaterial {
    AdvisorMaterial {
        material_key: material_key.to_string(),
        kind: kind.to_string(),
        title_ja: "タイトル".to_string(),
        body_ja: "本文".to_string(),
        source_url: None,
        category: None,
        product_key: None,
        price_band: None,
        card_description: None,
        card_match_terms: None,
        product_page_url: None,
    }
}

#[test]
fn log_turn_decision_emits_info_with_action_kind_and_material_and_card_keys() {
    let materials = vec![material_fixture("own_product", "own_product:adc-v724")];
    let cards = vec![sample_card()];

    let expected_material_key = materials[0].material_key.clone();
    let meta = DraftMeta {
        featured: vec!["own_product:adc-v724".to_string()],
        closing: ClosingKind::Proposal,
        choices: Vec::new(),
    };

    let logs = log_turn_decision(
            "req-1",
            "case-1",
            "answer",
            &materials,
            Some(&cards),
            Some(&meta),
            2,
        );

    assert!(logs.contains("INFO"));
    assert!(logs.contains("homesec advisor turn decision"));
    assert!(logs.contains("request_id"));
    assert!(logs.contains("req-1"));
    assert!(logs.contains("case-1"));
    assert!(logs.contains("action_kind=answer") || logs.contains("action_kind=\"answer\""));
    assert!(logs.contains(&expected_material_key));
    assert!(!logs.contains("own_product:own_product:"));
    assert!(logs.contains(&sample_card().material_key));

    assert!(logs.contains("closing=proposal") || logs.contains("closing=\"proposal\""));
    assert!(logs.contains("featured_len=1"));
    assert!(logs.contains("question_streak=2"));
}

#[test]
fn log_turn_decision_never_includes_customer_facing_material_text() {
    let mut material = material_fixture("statistic", "statistic:musimari");
    material.title_ja = "ログに出てはいけない材料タイトルマーカー".to_string();
    material.body_ja = "ログに出てはいけない材料本文マーカー".to_string();

    let logs = log_turn_decision("req-1", "case-1", "answer", &[material], None, None, 0);

    assert!(!logs.contains("ログに出てはいけない材料本文マーカー"));
    assert!(!logs.contains("ログに出てはいけない材料タイトルマーカー"));
}

#[test]
fn log_turn_decision_handles_no_product_cards_without_panicking() {
    let logs = log_turn_decision("req-1", "case-1", "fallback", &[], None, None, 0);

    assert!(logs.contains("INFO"));
    assert!(logs.contains("card_keys=[]"));
    assert!(logs.contains("material_keys=[]"));

    assert!(logs.contains("closing=none") || logs.contains("closing=\"none\""));
    assert!(logs.contains("featured_len=0"));
}

fn sample_card() -> ProductCard {
    ProductCard {
        material_key: "own_product:adc-v724".to_string(),
        title: "URTECT ADC-V724".to_string(),
        description: "屋外対応・夜間撮影".to_string(),
        image_url: Some("https://advisor.example.com/static/products/adc-v724.jpg".to_string()),
        button_text: "この製品について聞く".to_string(),
        button_message: "ADC-V724について詳しく教えて".to_string(),
    }
}
