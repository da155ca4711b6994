use homesec_advisor::api::{
    advisor_service_principal, answer_reply, attach_cards, canned_reply, clarify_reply,
    complete_turn, decide_turn, fallback_reply, internal_error_message, is_under_way,
    needs_time_search, plan_turn, prepare_materials, refuse_request, reply_with_draft,
    with_known_conditions, HistoryEntry, HistoryRole, Refusal, ReplyKind, TimeSearch, TurnPlan,
    TurnReply,
};
use homesec_advisor::attrs::AttrMap;
use homesec_advisor::canned::{
    lead_confirmed, lead_solicit, lead_time_pref_reask, FALLBACK_TEXT, OUT_OF_DOMAIN_TEXT,
    SAFETY_TEXT,
};
use homesec_advisor::conversation::{CaseConvState, PrefWindow, TimePrefExtraction};
use homesec_advisor::decide::{
    next_question_streak, parse_accumulated_conditions, parse_advisor_case_attrs, AdvisorAction,
    AdvisorCaseAttrs,
};
use homesec_advisor::draft_meta::{ClosingKind, DraftMeta};
use homesec_advisor::draftgen::LEAD_OFFER_MARKER;
use homesec_advisor::hours::{BusinessHoursConfig, PrefDays};
use homesec_advisor::materials::{AdvisorMaterial, KnownResolution, SignalSet};
use homesec_advisor::quick_replies::{for_answer, for_clarify, for_time_pref};
use homesec_advisor::understand::{ConditionKey, Understanding};

fn understanding() -> Understanding {
    Understanding {
        in_domain: true,
        emergency: false,
        urtect_support: false,
        lead_interest: false,
        product_intent: false,
        summary_ja: "要約".to_string(),
        conditions: vec![(ConditionKey::Concern, "monitoring".to_string())],
    }
}

fn conv() -> CaseConvState {
    CaseConvState {
        clarify_turns: 0,
        awaiting_time_pref: false,
        time_pref_false_count: 0,
        preferred_contact_time: None,
        time_pref_extraction_error_count: 0,
    }
}

fn attrs() -> AdvisorCaseAttrs {
    AdvisorCaseAttrs {
        lead_offered: false,
        lead_requested: false,
        shown_product_cards: String::new(),
        question_streak: 0,
    }
}

fn found(days: PrefDays) -> TimeSearch {
    TimeSearch::Found(TimePrefExtraction {
        is_time_preference: true,
        windows: vec![PrefWindow {
            days,
            start: None,
            end: None,
        }],
        raw: "お任せします".to_string(),
    })
}

fn meta(closing: ClosingKind, featured: &[&str], choices: &[&str]) -> DraftMeta {
    DraftMeta {
        featured: featured.iter().map(|s| s.to_string()).collect(),
        closing,
        choices: choices.iter().map(|s| s.to_string()).collect(),
    }
}

fn product(key: &str, term: &str) -> AdvisorMaterial {
    AdvisorMaterial {
        material_key: key.to_string(),
        kind: "own_product".to_string(),
        title_ja: "製品".to_string(),
        body_ja: "本文".to_string(),
        source_url: None,
        category: Some("monitoring".to_string()),
        product_key: Some("ADC-V724".to_string()),
        price_band: None,
        card_description: Some("説明".to_string()),
        card_match_terms: Some(term.to_string()),
        product_page_url: None,
    }
}

fn plan(
    u: &Understanding,
    search: &TimeSearch,
    conv: &mut CaseConvState,
    attrs: &mut AdvisorCaseAttrs,
) -> (AdvisorAction, TurnPlan) {
    let cfg = BusinessHoursConfig::default();
    plan_turn(u, search, conv, attrs, &cfg, 3, "窓口です")
}

#[test]
fn an_emergency_ends_the_wait_for_a_time() {
    let mut u = understanding();
    u.emergency = true;
    let mut c = conv();
    c.awaiting_time_pref = true;
    c.time_pref_false_count = 1;
    assert!(!needs_time_search(&u, &c));
    let (action, plan) = plan(&u, &TimeSearch::NotMade, &mut c, &mut attrs());
    assert_eq!(action, AdvisorAction::Safety);
    assert!(!c.awaiting_time_pref);
    assert_eq!(c.time_pref_false_count, 0);
    match plan {
        TurnPlan::Reply(reply) => {
            assert_eq!(reply.text, SAFETY_TEXT);
            assert_eq!(reply.kind, ReplyKind::Safety);
            assert_eq!(reply.quick_replies, None);
        }
        TurnPlan::Draft { .. } => panic!("safety needs no draft"),
    }
}

#[test]
fn a_time_that_fits_is_fixed_and_noted() {
    let u = understanding();
    let mut c = conv();
    c.awaiting_time_pref = true;
    let mut a = attrs();
    assert!(needs_time_search(&u, &c));
    let (action, plan) = plan(&u, &found(PrefDays::Any), &mut c, &mut a);
    assert_eq!(
        action,
        AdvisorAction::LeadConfirmed {
            slot: "平日10:00〜18:00".to_string()
        }
    );
    assert!(a.lead_requested);
    assert!(!c.awaiting_time_pref);
    match plan {
        TurnPlan::Reply(reply) => {
            assert_eq!(reply.text, lead_confirmed("平日10:00〜18:00"));
            assert_eq!(reply.kind.as_str(), "lead");
        }
        TurnPlan::Draft { .. } => panic!("a fixed time needs no draft"),
    }
}

#[test]
fn a_time_that_does_not_fit_is_asked_for_once_more() {
    let cfg = BusinessHoursConfig::default();
    let u = understanding();
    let mut c = conv();
    c.awaiting_time_pref = true;
    let (action, plan) = plan(&u, &found(PrefDays::Weekend), &mut c, &mut attrs());
    assert_eq!(action, AdvisorAction::TimePrefContinue);
    assert_eq!(c.time_pref_false_count, 1);
    match plan {
        TurnPlan::Reply(reply) => {
            assert_eq!(reply.text, lead_time_pref_reask(&cfg));
            assert_eq!(reply.kind.as_str(), "time_pref");
            assert_eq!(reply.quick_replies, for_time_pref());
        }
        TurnPlan::Draft { .. } => panic!("asking for a time needs no draft"),
    }
}

#[test]
fn the_third_failed_search_ends_the_wait() {
    let u = understanding();
    let mut c = conv();
    c.awaiting_time_pref = true;
    let mut a = attrs();
    for expected in [true, true, false] {
        plan(&u, &TimeSearch::Failed, &mut c, &mut a);
        assert_eq!(c.awaiting_time_pref, expected);
    }
    assert_eq!(c.time_pref_extraction_error_count, 0);
}

#[test]
fn interest_starts_the_wait_and_a_fixed_time_keeps_it_from_starting_again() {
    let cfg = BusinessHoursConfig::default();
    let mut u = understanding();
    u.lead_interest = true;
    let mut c = conv();
    c.clarify_turns = 2;
    let mut a = attrs();
    let (action, first) = plan(&u, &TimeSearch::NotMade, &mut c, &mut a);
    assert_eq!(action, AdvisorAction::LeadSolicit);
    assert!(c.awaiting_time_pref);
    assert_eq!(c.clarify_turns, 0);
    match first {
        TurnPlan::Reply(reply) => assert_eq!(reply.text, lead_solicit(&cfg)),
        TurnPlan::Draft { .. } => panic!("asking for a time needs no draft"),
    }
    a.lead_requested = true;
    let (action, second) = plan(&u, &TimeSearch::NotMade, &mut conv(), &mut a);
    assert_eq!(action, AdvisorAction::Answer);
    assert!(matches!(second, TurnPlan::Draft { missing: None }));
}

#[test]
fn foreign_matters_and_support_have_fixed_replies() {
    let mut u = understanding();
    u.in_domain = false;
    let (_, out) = plan(&u, &TimeSearch::NotMade, &mut conv(), &mut attrs());
    match out {
        TurnPlan::Reply(reply) => {
            assert_eq!(reply.text, OUT_OF_DOMAIN_TEXT);
            assert_eq!(reply.kind.as_str(), "out_of_domain");
        }
        TurnPlan::Draft { .. } => panic!("no draft for foreign matters"),
    }
    u.in_domain = true;
    u.urtect_support = true;
    let (_, handoff) = plan(&u, &TimeSearch::NotMade, &mut conv(), &mut attrs());
    match handoff {
        TurnPlan::Reply(reply) => {
            assert_eq!(reply.text, "窓口です");
            assert_eq!(reply.kind.as_str(), "handoff");
        }
        TurnPlan::Draft { .. } => panic!("no draft for support"),
    }
}

#[test]
fn missing_conditions_are_asked_for_and_counted() {
    let mut u = understanding();
    u.conditions.clear();
    let mut c = conv();
    let (_, asked) = plan(&u, &TimeSearch::NotMade, &mut c, &mut attrs());
    match asked {
        TurnPlan::Draft { missing } => assert_eq!(missing, Some(vec![ConditionKey::Concern])),
        TurnPlan::Reply(_) => panic!("asking back needs a draft"),
    }
    assert_eq!(c.clarify_turns, 1);
    c.clarify_turns = 3;
    let cfg = BusinessHoursConfig::default();
    let action = decide_turn(&u, &TimeSearch::NotMade, &mut c, &mut attrs(), &cfg, 3);
    assert_eq!(action, AdvisorAction::Answer);
    assert!(canned_reply(&action, &cfg, "").is_none());
}

#[test]
fn earlier_conditions_are_known_in_later_turns() {
    let accumulated = vec![(ConditionKey::Housing, "apartment_rented".to_string())];
    let u = with_known_conditions(&accumulated, understanding());
    assert_eq!(
        u.conditions,
        vec![
            (ConditionKey::Housing, "apartment_rented".to_string()),
            (ConditionKey::Concern, "monitoring".to_string()),
        ]
    );
    assert_eq!(u.summary_ja, "要約");
}

#[test]
fn a_draft_that_asks_back_never_has_a_note() {
    let mut a = attrs();
    let leaked = meta(ClosingKind::Proposal, &["own_product:a"], &[]);
    let reply = clarify_reply(
        &[ConditionKey::Housing],
        "お住まいは?".to_string(),
        Some(leaked),
        &mut a,
    );
    assert_eq!(reply.meta, None);
    assert_eq!(reply.kind, ReplyKind::Clarify);
    assert_eq!(reply.quick_replies, for_clarify(&[ConditionKey::Housing]));
    assert_eq!(a, attrs());
}

#[test]
fn the_fallback_promises_nothing() {
    let mut a = attrs();
    a.question_streak = 1;
    let before = a.clone();
    let asked = clarify_reply(&[ConditionKey::Concern], FALLBACK_TEXT.to_string(), None, &mut a);
    assert_eq!(asked.kind, ReplyKind::Fallback);
    assert_eq!(asked.quick_replies, None);
    let answered = answer_reply(FALLBACK_TEXT.to_string(), None, &mut a);
    assert_eq!(answered.kind, ReplyKind::Fallback);
    assert_eq!(answered.quick_replies, None);
    assert_eq!(a, before);
    let none = fallback_reply();
    assert_eq!(none.text, FALLBACK_TEXT);
    let materials = vec![product("own_product:a", "製品")];
    assert_eq!(attach_cards(&none, "製品", &materials, &[], "h", &mut a), None);
    assert_eq!(a, before);
}

#[test]
fn questions_are_counted_and_a_proposal_starts_over() {
    assert_eq!(next_question_streak(1, Some(ClosingKind::QuestionOpen)), 2);
    assert_eq!(next_question_streak(1, Some(ClosingKind::QuestionChoice)), 2);
    assert_eq!(next_question_streak(5, Some(ClosingKind::Proposal)), 0);
    assert_eq!(next_question_streak(5, None), 5);
    assert_eq!(next_question_streak(i32::MAX, Some(ClosingKind::QuestionOpen)), i32::MAX);
    let mut a = attrs();
    let note = meta(ClosingKind::QuestionChoice, &[], &["はい", "いいえ"]);
    let reply = reply_with_draft(&None, "どちらですか?".to_string(), Some(note.clone()), &mut a);
    assert_eq!(reply.quick_replies, for_answer(Some(&note)));
    assert_eq!(reply.meta, Some(note));
    assert_eq!(a.question_streak, 1);
}

#[test]
fn an_offer_is_noted_once_and_stays_noted() {
    let mut a = attrs();
    let text = format!("{LEAD_OFFER_MARKER}。");
    reply_with_draft(&Some(vec![ConditionKey::Concern]), text, None, &mut a);
    assert!(a.lead_offered);
    reply_with_draft(&None, "別の話です".to_string(), None, &mut a);
    assert!(a.lead_offered);
}

#[test]
fn cards_go_with_proposals_alone_and_only_once() {
    let mut a = attrs();
    let materials = vec![product("own_product:a", "カメラ"), product("own_product:b", "カメラ")];
    let images = vec!["adc-v724.jpg".to_string()];
    let proposal = |closing: ClosingKind| TurnReply {
        text: "カメラをどうぞ".to_string(),
        kind: ReplyKind::Answer,
        quick_replies: None,
        meta: Some(meta(closing, &["own_product:b"], &[])),
    };
    let open = proposal(ClosingKind::QuestionOpen);
    assert_eq!(attach_cards(&open, "カメラ", &materials, &images, "h.example", &mut a), None);
    let closed = proposal(ClosingKind::Proposal);
    let cards = attach_cards(&closed, "カメラ", &materials, &images, "h.example", &mut a).unwrap();
    assert_eq!(cards.len(), 1);
    assert_eq!(cards[0].material_key, "own_product:b");
    assert_eq!(
        cards[0].image_url.as_deref(),
        Some("https://h.example/static/products/adc-v724.jpg")
    );
    assert_eq!(a.shown_product_cards, "own_product:b");
    assert_eq!(attach_cards(&closed, "カメラ", &materials, &images, "h.example", &mut a), None);
}

#[test]
fn what_a_turn_keeps_is_what_the_next_turn_finds() {
    let mut existing = AttrMap::new();
    existing.set("turn_count", "3");
    existing.set("created_at", "2026-01-01T00:00:00Z");
    let mut a = attrs();
    a.lead_requested = true;
    a.question_streak = -2;
    let before = a.clone();
    let reply = TurnReply {
        text: "- 一つ".to_string(),
        kind: ReplyKind::Answer,
        quick_replies: None,
        meta: None,
    };
    let conditions = vec![(ConditionKey::Budget, "under_10k".to_string())];
    let turn = complete_turn(
        reply,
        &[],
        &[],
        "h.example",
        &existing,
        "case-1",
        "質問",
        Some("user-1"),
        &conv(),
        &mut a,
        &conditions,
        "2026-08-18T00:00:00Z",
    );
    assert_eq!(turn.response.reply_text, "・一つ");
    assert_eq!(turn.response.case_id, "case-1");
    assert_eq!(turn.response.product_cards, None);
    assert_eq!(a, before);
    let kept = AttrMap::from_pairs(turn.case_attrs);
    assert_eq!(kept.get("turn_count"), Some("3"));
    assert_eq!(kept.get("created_at"), Some("2026-01-01T00:00:00Z"));
    assert_eq!(kept.get("end_user_id"), Some("user-1"));
    assert_eq!(kept.get("preferred_contact_time"), Some(""));
    assert_eq!(parse_advisor_case_attrs(&kept), before);
    assert_eq!(parse_accumulated_conditions(&kept), conditions);
}

#[test]
fn materials_are_prepared_in_their_order() {
    let kr = KnownResolution {
        id: "kr-1".to_string(),
        signal_set: SignalSet {
            signals: vec!["concern:monitoring".to_string()],
        },
        answer: "回答".to_string(),
    };
    let conditions = vec![(ConditionKey::Concern, "monitoring".to_string())];
    let mut statistic = product("statistic:s", "x");
    statistic.kind = "statistic".to_string();
    let own = vec![product("own_product:a", "x")];
    let searched = vec![product("own_product:z", "x")];
    let pool = vec![statistic];
    let keys = |ms: Vec<AdvisorMaterial>| -> Vec<String> {
        ms.into_iter().map(|m| m.material_key).collect()
    };
    let full = prepare_materials(Some(&kr), searched.clone(), &own, &pool, &conditions, false);
    assert_eq!(
        keys(full),
        vec!["known_resolution:kr-1", "own_product:z", "own_product:a", "statistic:s"]
    );
    let bare = prepare_materials(None, searched, &own, &pool, &[], false);
    assert_eq!(keys(bare), vec!["own_product:z"]);
}

#[test]
fn requests_are_refused_in_a_fixed_order() {
    assert_eq!(refuse_request(false, false, false), Some(Refusal::Unauthorized));
    assert_eq!(refuse_request(true, false, false), Some(Refusal::UnknownProject));
    assert_eq!(refuse_request(true, true, false), Some(Refusal::InvalidRequest));
    assert_eq!(refuse_request(true, true, true), None);
    assert_eq!(Refusal::Unauthorized.status(), 401);
    assert_eq!(Refusal::UnknownProject.as_str(), "unknown_project");
    assert_eq!(Refusal::InvalidRequest.status(), 400);
    assert_eq!(Refusal::Internal.status(), 500);
    let message = internal_error_message("req-9");
    assert!(message.contains("request_id=req-9"));
    assert!(!message.contains("knowledge"));
}

#[test]
fn a_conversation_is_under_way_with_history_or_a_case() {
    let entry = HistoryEntry {
        role: HistoryRole::Assistant,
        text: "前".to_string(),
    };
    assert!(is_under_way(&[entry], None));
    assert!(is_under_way(&[], Some("case-1")));
    assert!(!is_under_way(&[], None));
    assert_eq!(advisor_service_principal().sub, "service:homesec-answer-api");
}
