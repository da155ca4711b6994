use homesec_advisor::canned::{
    lead_confirmed, lead_solicit, lead_time_pref_reask, FALLBACK_TEXT, OUT_OF_DOMAIN_TEXT,
    SAFETY_TEXT,
};
use homesec_advisor::hours::{business_hours_label, BusinessHoursConfig};
use homesec_advisor::prompt_input::{egress_gate, EgressVerdict, NgDictionary};

/// The words that no text may hold: what promises too much, and what sounds like
/// a hotline.
fn ng_dictionary() -> NgDictionary {
    let words = |list: &[&str]| list.iter().map(|w| w.to_string()).collect();
    NgDictionary {
        block_terms: words(&["絶対に防げます", "100%安全", "必ず防げ", "当社の"]),
        abstain_terms: words(&[
            "ご相談ありがとうございます",
            "お問い合わせいただき",
            "ご利用いただき",
            "他にご不明な点が",
        ]),
    }
}

fn assert_passes_ng_gate(text: &str) {
    assert_eq!(egress_gate(text, &ng_dictionary()), EgressVerdict::Pass, "{text:?}");
}

#[test]
fn safety_text_passes_ng_gate() {
    assert_passes_ng_gate(SAFETY_TEXT);
}

#[test]
fn out_of_domain_text_passes_ng_gate() {
    assert_passes_ng_gate(OUT_OF_DOMAIN_TEXT);
}

#[test]
fn fallback_text_passes_ng_gate() {
    assert_passes_ng_gate(FALLBACK_TEXT);
}

#[test]
fn lead_solicit_text_passes_ng_gate() {
    assert_passes_ng_gate(&lead_solicit(&BusinessHoursConfig::default()));
}

#[test]
fn lead_time_pref_reask_text_passes_ng_gate() {
    assert_passes_ng_gate(&lead_time_pref_reask(&BusinessHoursConfig::default()));
}

#[test]
fn lead_confirmed_text_passes_ng_gate() {
    assert_passes_ng_gate(&lead_confirmed("平日13:00〜15:00"));
}

#[test]
fn safety_text_matches_dialogue_example_pattern_6_verbatim() {
    assert_eq!(
        SAFETY_TEXT,
        "まず安全を最優先してください。少しでも危険を感じたら、ためらわず 110 番に電話\
         してください。緊急でない場合は警察相談専用電話 #9110 でも相談できます。ドアと窓の\
         施錠を確認して、無理に外へ出たり声をかけたりしないでください。"
    );
}

#[test]
fn lead_solicit_includes_the_business_hours_label_and_follows_config_changes() {
    let cfg = BusinessHoursConfig::default();
    let text = lead_solicit(&cfg);
    assert!(text.contains(&business_hours_label(&cfg)));

    let mut other_cfg = cfg.clone();
    other_cfg.days = "everyday".to_string();
    other_cfg.start = "09:00".to_string();
    other_cfg.end = "21:00".to_string();
    let other_text = lead_solicit(&other_cfg);
    assert!(other_text.contains(&business_hours_label(&other_cfg)));
    assert_ne!(text, other_text);
}

#[test]
fn lead_time_pref_reask_includes_the_business_hours_label_and_follows_config_changes() {
    let cfg = BusinessHoursConfig::default();
    let text = lead_time_pref_reask(&cfg);
    assert!(text.contains(&business_hours_label(&cfg)));

    let mut other_cfg = cfg.clone();
    other_cfg.start = "08:00".to_string();
    let other_text = lead_time_pref_reask(&other_cfg);
    assert!(other_text.contains(&business_hours_label(&other_cfg)));
    assert_ne!(text, other_text);
}

#[test]
fn lead_confirmed_includes_the_given_slot_verbatim() {
    let text = lead_confirmed("平日13:00〜15:00");
    assert!(text.contains("平日13:00〜15:00"));
}
