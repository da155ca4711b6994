use homesec_advisor::conversation::CaseConvState;
use homesec_advisor::cs_support::{
    arm_time_pref_solicitation, build_post_evaluate_reply, clarify_question, escalation_ack,
    finish_turn, is_continuation, missing_to_text, note_time_pref_extraction_failure,
    open_support_turn, EvaluationOutcome, EvidenceRequirement, ReplyHistoryRole, ReplyHistoryTurn,
    SupportReplyKind, SupportStep,
};
use homesec_advisor::product_gate::ProductAllowlist;

fn default_conv_state() -> CaseConvState {
    CaseConvState {
        clarify_turns: 0,
        awaiting_time_pref: false,
        time_pref_false_count: 0,
        preferred_contact_time: None,
        time_pref_extraction_error_count: 0,
    }
}

fn base_outcome(allowed: bool, clarification_allowed: bool) -> EvaluationOutcome {
    EvaluationOutcome {
        allowed,
        missing: if allowed {
            Vec::new()
        } else {
            vec![EvidenceRequirement::DirectManualCoverage {
                required: "0.80".to_string(),
                best: "0.50".to_string(),
            }]
        },
        clarification_allowed,
        lexicon_fallback: false,
        customer_reply_draft: None,
        customer_reply_draft_truncated: false,
        case_id: "case-12345678-abcd".to_string(),
        new_signals: Vec::new(),
    }
}

fn allowlist() -> ProductAllowlist {
    ProductAllowlist::from_models(vec!["ADC-V724".to_string()])
}

#[test]
fn run_support_turn_returns_a_canned_reply_for_an_out_of_scope_model_without_calling_evaluate() {
    let step = open_support_turn("ADC-V999は使えますか", &allowlist(), false);
    match step {
        SupportStep::ReplyOutOfScope { model } => {
            assert_eq!(model, "ADC-V999");
            let outcome = finish_turn(
                SupportReplyKind::OutOfScope,
                &format!("{model}は当社では取り扱いがございません。"),
                "case-1".to_string(),
                String::new(),
            );
            assert_eq!(outcome.reply_kind, SupportReplyKind::OutOfScope);
            assert_eq!(outcome.reply_kind.as_str(), "out_of_scope");
            assert!(outcome.reply_text.contains("ADC-V999"));
            assert!(outcome.reply_text.contains("取り扱いがございません"));
            assert!(!outcome.case_id.is_empty());
        }
        _ => panic!("a foreign model must be turned away first"),
    }
}

#[test]
fn run_support_turn_passes_through_an_in_scope_model_to_the_evaluate_error_path() {
    let step = open_support_turn("ADC-V724の録画が見られません", &allowlist(), false);
    assert!(matches!(
        step,
        SupportStep::Evaluate {
            state_changed: false
        }
    )
    );
}

#[test]
fn build_post_evaluate_reply_answers_when_allowed_with_a_non_truncated_draft() {
    let conv = default_conv_state();
    let mut outcome = base_outcome(true, false);
    outcome.customer_reply_draft = Some("下書き本文です。".to_string());
    outcome.customer_reply_draft_truncated = false;
    match build_post_evaluate_reply(&mut outcome, &conv, &allowlist(), 3) {
        SupportStep::ReplyAnswer { text } => assert_eq!(text, "下書き本文です。"),
        _ => panic!("an allowed message with a whole draft must be answered"),
    }
    assert_eq!(conv, default_conv_state());
}

#[test]
fn build_post_evaluate_reply_clarifies_when_gray_escalate_with_turns_remaining() {
    let mut conv = default_conv_state();
    conv.clarify_turns = 0;
    let mut outcome = base_outcome(false, true);
    match build_post_evaluate_reply(&mut outcome, &conv, &allowlist(), 3) {
        SupportStep::DraftClarify { is_final, .. } => {
            assert!(!is_final);
            let text =
                clarify_question(None, &allowlist(), "固定の質問です。", "(最後)", is_final, &mut conv);
            assert_eq!(text, "固定の質問です。");
        }
        _ => panic!("a message that may be asked back about must be"),
    }
    assert_eq!(conv.clarify_turns, 1);
}

#[test]
fn build_post_evaluate_reply_escalates_when_clarify_turns_are_exhausted() {
    let mut conv = default_conv_state();
    conv.clarify_turns = 3;
    let mut outcome = base_outcome(false, true);
    let step = build_post_evaluate_reply(&mut outcome, &conv, &allowlist(), 3);
    assert!(matches!(step, SupportStep::DraftAck));
    let ack = escalation_ack(None, &allowlist(), "承りました。", &mut conv);
    assert_eq!(ack, "承りました。");
    assert!(conv.awaiting_time_pref);
}

#[test]
fn build_post_evaluate_reply_escalates_when_clarification_is_not_allowed() {
    let conv = default_conv_state();
    let mut outcome = base_outcome(false, false);
    let step = build_post_evaluate_reply(&mut outcome, &conv, &allowlist(), 3);
    assert!(matches!(step, SupportStep::DraftAck));
}

#[test]
fn build_post_evaluate_reply_fails_closed_to_escalation_on_lexicon_fallback() {
    let conv = default_conv_state();
    let mut outcome = base_outcome(true, false);
    outcome.customer_reply_draft = Some("下書き本文です。".to_string());
    outcome.customer_reply_draft_truncated = false;
    outcome.lexicon_fallback = true;
    let step = build_post_evaluate_reply(&mut outcome, &conv, &allowlist(), 3);
    assert!(matches!(step, SupportStep::DraftAck));
}

#[test]
fn is_continuation_is_true_when_history_is_non_empty() {
    let history = vec![ReplyHistoryTurn {
        role: ReplyHistoryRole::Customer,
        text: "前回の発話".to_string(),
    }];
    assert!(is_continuation(&history, None));
}

#[test]
fn is_continuation_is_true_when_case_id_is_present() {
    assert!(is_continuation(&[], Some("case-1")));
}

#[test]
fn is_continuation_is_false_for_a_fresh_conversation() {
    assert!(!is_continuation(&[], None));
}

#[test]
fn note_time_pref_extraction_failure_third_time_clears_all_three_counters() {
    let mut conv = default_conv_state();
    conv.awaiting_time_pref = true;
    conv.time_pref_extraction_error_count = 2;
    conv.time_pref_false_count = 1;

    note_time_pref_extraction_failure(&mut conv);

    assert!(!conv.awaiting_time_pref);
    assert_eq!(conv.time_pref_false_count, 0);
    assert_eq!(conv.time_pref_extraction_error_count, 0);
}

#[test]
fn arm_time_pref_solicitation_sets_awaiting_and_resets_false_and_clarify_counters() {
    let mut conv = default_conv_state();
    conv.time_pref_false_count = 2;
    conv.clarify_turns = 3;

    arm_time_pref_solicitation(&mut conv);

    assert!(conv.awaiting_time_pref);
    assert_eq!(conv.time_pref_false_count, 0);
    assert_eq!(conv.clarify_turns, 0);
}

#[test]
fn missing_to_text_reports_the_required_and_current_scores() {
    let missing = vec![EvidenceRequirement::DirectManualCoverage {
        required: "0.80".to_string(),
        best: "0.50".to_string(),
    }];
    let text = missing_to_text(&missing);
    assert!(text.contains("0.80"));
    assert!(text.contains("0.50"));
}

#[test]
fn missing_to_text_matches_api_rs_byte_for_byte() {
    let missing = vec![EvidenceRequirement::DirectManualCoverage {
        required: "0.80".to_string(),
        best: "0.50".to_string(),
    }];
    let text = missing_to_text(&missing);

    assert_eq!(text, "マニュアルとの一致度が必要水準に届いていません（必要: 0.80 以上、現在: 0.50）");
}
