use homesec_advisor::api::{lead_lost, TimeSearch};
use homesec_advisor::attrs::AttrMap;
use homesec_advisor::canned::lead_confirmed;
use homesec_advisor::conversation::{CaseConvState, PrefWindow, TimePrefExtraction};
use homesec_advisor::decide::{
    accumulated_condition_updates, advisor_attr_updates, decide, decide_time_pref,
    decide_time_pref_extraction_failed, effective_business_window, format_confirmed_slot,
    merge_conditions, parse_accumulated_conditions, parse_advisor_case_attrs,
    window_fits_business_hours, AdvisorAction, AdvisorCaseAttrs,
};
use homesec_advisor::hours::{parse_hm, BusinessHoursConfig, ClockTime, PrefDays};
use homesec_advisor::understand::{ConditionKey, Understanding};
use std::collections::HashMap;

fn attr_map(map: &HashMap<String, String>) -> AttrMap {
    AttrMap::from_pairs(map.iter().map(|(k, v)| (k.clone(), v.clone())).collect())
}

fn base_understanding() -> Understanding {
    Understanding {
        in_domain: true,
        emergency: false,
        urtect_support: false,
        lead_interest: false,
        product_intent: false,
        summary_ja: "テスト用の要約".to_string(),
        conditions: Vec::new(),
    }
}

fn base_conv() -> CaseConvState {
    CaseConvState {
        clarify_turns: 0,
        awaiting_time_pref: false,
        time_pref_false_count: 0,
        preferred_contact_time: None,
        time_pref_extraction_error_count: 0,
    }
}

fn time(s: &str) -> ClockTime {
    parse_hm(s).unwrap()
}

#[test]
fn emergency_returns_safety_regardless_of_other_fields() {
    let mut u = base_understanding();
    u.emergency = true;
    u.in_domain = false;
    u.urtect_support = true;
    u.lead_interest = true;
    let conv = base_conv();

    assert_eq!(decide(&u, &conv, false, false, 3), AdvisorAction::Safety);
}

#[test]
fn awaiting_time_pref_returns_time_pref_continue() {
    let u = base_understanding();
    let mut conv = base_conv();
    conv.awaiting_time_pref = true;

    assert_eq!(decide(&u, &conv, false, false, 3), AdvisorAction::TimePrefContinue);
}

#[test]
fn out_of_domain_when_not_in_domain() {
    let mut u = base_understanding();
    u.in_domain = false;
    let conv = base_conv();

    assert_eq!(decide(&u, &conv, false, false, 3), AdvisorAction::OutOfDomain);
}

#[test]
fn handoff_when_urtect_support() {
    let mut u = base_understanding();
    u.urtect_support = true;
    let conv = base_conv();

    assert_eq!(decide(&u, &conv, false, false, 3), AdvisorAction::Handoff);
}

#[test]
fn lead_solicit_when_lead_interest_and_not_yet_requested() {
    let mut u = base_understanding();
    u.lead_interest = true;
    let conv = base_conv();

    assert_eq!(decide(&u, &conv, false, false, 3), AdvisorAction::LeadSolicit);
}

#[test]
fn clarify_missing_concern_when_no_conditions_captured() {
    let u = base_understanding();
    let conv = base_conv();

    assert_eq!(
        decide(&u, &conv, false, false, 3),
        AdvisorAction::Clarify {
            missing: vec![ConditionKey::Concern]
        }
    );
}

#[test]
fn clarify_missing_housing_when_concern_is_intrusion_without_housing() {
    let mut u = base_understanding();
    u.conditions
        .push((ConditionKey::Concern, "intrusion".to_string()));
    let conv = base_conv();

    assert_eq!(
        decide(&u, &conv, false, false, 3),
        AdvisorAction::Clarify {
            missing: vec![ConditionKey::Housing]
        }
    );
}

#[test]
fn answer_when_concern_is_non_intrusion_and_housing_not_required() {
    let mut u = base_understanding();
    u.conditions
        .push((ConditionKey::Concern, "monitoring".to_string()));
    let conv = base_conv();

    assert_eq!(decide(&u, &conv, false, false, 3), AdvisorAction::Answer);
}

#[test]
fn answer_when_clarify_budget_exhausted_even_with_missing_conditions() {
    let u = base_understanding();
    let mut conv = base_conv();
    conv.clarify_turns = 3;

    assert_eq!(decide(&u, &conv, false, false, 3), AdvisorAction::Answer);
}

#[test]
fn answer_when_no_conditions_are_missing() {
    let mut u = base_understanding();
    u.conditions
        .push((ConditionKey::Concern, "intrusion".to_string()));
    u.conditions
        .push((ConditionKey::Housing, "detached_owned".to_string()));
    let conv = base_conv();

    assert_eq!(decide(&u, &conv, false, false, 3), AdvisorAction::Answer);
}

#[test]
fn emergency_wins_over_lead_interest() {
    let mut u = base_understanding();
    u.emergency = true;
    u.lead_interest = true;
    let conv = base_conv();

    assert_eq!(decide(&u, &conv, false, false, 3), AdvisorAction::Safety);
}

#[test]
fn emergency_wins_over_awaiting_time_pref() {
    let mut u = base_understanding();
    u.emergency = true;
    let mut conv = base_conv();
    conv.awaiting_time_pref = true;

    assert_eq!(decide(&u, &conv, false, false, 3), AdvisorAction::Safety);
}

#[test]
fn awaiting_time_pref_wins_over_out_of_domain() {
    let mut u = base_understanding();
    u.in_domain = false;
    let mut conv = base_conv();
    conv.awaiting_time_pref = true;

    assert_eq!(decide(&u, &conv, false, false, 3), AdvisorAction::TimePrefContinue);
}

#[test]
fn out_of_domain_wins_over_handoff() {
    let mut u = base_understanding();
    u.in_domain = false;
    u.urtect_support = true;
    let conv = base_conv();

    assert_eq!(decide(&u, &conv, false, false, 3), AdvisorAction::OutOfDomain);
}

#[test]
fn handoff_wins_over_lead_solicit() {
    let mut u = base_understanding();
    u.urtect_support = true;
    u.lead_interest = true;
    let conv = base_conv();

    assert_eq!(decide(&u, &conv, false, false, 3), AdvisorAction::Handoff);
}

#[test]
fn lead_solicit_is_skipped_once_lead_already_requested() {
    let mut u = base_understanding();
    u.lead_interest = true;
    let conv = base_conv();

    assert_eq!(
        decide(&u, &conv, false, true, 3),
        AdvisorAction::Clarify {
            missing: vec![ConditionKey::Concern]
        }
    );
}

#[test]
fn merge_conditions_overwrites_value_for_the_same_key() {
    let accumulated = vec![(ConditionKey::Housing, "detached_owned".to_string())];
    let observed = vec![(ConditionKey::Housing, "apartment_rented".to_string())];

    let merged = merge_conditions(&accumulated, &observed);

    assert_eq!(merged, vec![(ConditionKey::Housing, "apartment_rented".to_string())]);
}

#[test]
fn merge_conditions_keeps_accumulated_keys_not_observed_this_turn_and_appends_new_ones() {
    let accumulated = vec![(ConditionKey::Concern, "intrusion".to_string())];
    let observed = vec![(ConditionKey::Housing, "apartment_rented".to_string())];

    let merged = merge_conditions(&accumulated, &observed);

    assert_eq!(
        merged,
        vec![
            (ConditionKey::Concern, "intrusion".to_string()),
            (ConditionKey::Housing, "apartment_rented".to_string()),
        ]
    );
}

#[test]
fn parse_accumulated_conditions_ignores_missing_and_empty_attrs() {
    let mut attrs = HashMap::new();
    attrs.insert("advisor_cond_concern".to_string(), "intrusion".to_string());
    attrs.insert("advisor_cond_housing".to_string(), "".to_string());

    let conditions = parse_accumulated_conditions(&attr_map(&attrs));

    assert_eq!(conditions, vec![(ConditionKey::Concern, "intrusion".to_string())]);
}

#[test]
fn accumulated_condition_updates_omits_absent_keys_instead_of_writing_empty_string() {
    let conditions = vec![(ConditionKey::Concern, "intrusion".to_string())];

    let updates = accumulated_condition_updates(&conditions);

    assert_eq!(updates, vec![("advisor_cond_concern".to_string(), "intrusion".to_string())]);
}

#[test]
fn accumulates_conditions_across_two_turns_so_previously_captured_conditions_are_not_reasked() {
    let conv = base_conv();

    let mut turn1 = base_understanding();
    turn1
        .conditions
        .push((ConditionKey::Concern, "intrusion".to_string()));

    let action1 = decide(&turn1, &conv, false, false, 3);
    assert_eq!(
        action1,
        AdvisorAction::Clarify {
            missing: vec![ConditionKey::Housing]
        }
    );

    let mut attrs = HashMap::new();
    for (key, value) in accumulated_condition_updates(&turn1.conditions) {
        attrs.insert(key, value);
    }

    let accumulated = parse_accumulated_conditions(&attr_map(&attrs));
    let observed_turn2 = vec![(ConditionKey::Housing, "apartment_rented".to_string())];
    let merged = merge_conditions(&accumulated, &observed_turn2);

    let mut turn2 = base_understanding();
    turn2.conditions = merged;

    let action2 = decide(&turn2, &conv, false, false, 3);

    assert_eq!(action2, AdvisorAction::Answer);
}

fn default_hours() -> BusinessHoursConfig {
    BusinessHoursConfig::default()
}

#[test]
fn window_fits_business_hours_true_when_fully_within_business_hours() {
    let cfg = default_hours();
    let w = PrefWindow {
        days: PrefDays::Weekday,
        start: Some(time("11:00")),
        end: Some(time("15:00")),
    };
    assert!(window_fits_business_hours(&w, &cfg));
}

#[test]
fn window_fits_business_hours_false_when_only_partially_overlapping() {
    let cfg = default_hours();
    let w = PrefWindow {
        days: PrefDays::Weekday,
        start: Some(time("16:00")),
        end: Some(time("20:00")),
    };
    assert!(!window_fits_business_hours(&w, &cfg));
}

#[test]
fn window_fits_business_hours_true_when_both_bounds_omitted() {
    let cfg = default_hours();
    let w = PrefWindow {
        days: PrefDays::Weekday,
        start: None,
        end: None,
    };
    assert!(window_fits_business_hours(&w, &cfg));
}

#[test]
fn window_fits_business_hours_false_when_end_is_before_business_start() {
    let cfg = default_hours();
    let w = PrefWindow {
        days: PrefDays::Weekday,
        start: None,
        end: Some(time("09:00")),
    };
    assert!(!window_fits_business_hours(&w, &cfg));
}

#[test]
fn window_fits_business_hours_false_when_days_do_not_match_configured_business_days() {
    let cfg = default_hours();
    let w = PrefWindow {
        days: PrefDays::Weekend,
        start: None,
        end: None,
    };
    assert!(!window_fits_business_hours(&w, &cfg));
}

#[test]
fn effective_business_window_any_with_both_bounds_omitted_yields_full_business_hours() {
    let cfg = default_hours();
    let w = PrefWindow {
        days: PrefDays::Any,
        start: None,
        end: None,
    };
    assert_eq!(effective_business_window(&w, &cfg), Some((time("10:00"), time("18:00"))));
}

#[test]
fn effective_business_window_start_only_extends_to_business_close() {
    let cfg = default_hours();
    let w = PrefWindow {
        days: PrefDays::Weekday,
        start: Some(time("17:00")),
        end: None,
    };
    assert_eq!(effective_business_window(&w, &cfg), Some((time("17:00"), time("18:00"))));
}

#[test]
fn effective_business_window_end_only_starts_from_business_open() {
    let cfg = default_hours();
    let w = PrefWindow {
        days: PrefDays::Weekday,
        start: None,
        end: Some(time("17:00")),
    };
    assert_eq!(effective_business_window(&w, &cfg), Some((time("10:00"), time("17:00"))));
}

#[test]
fn effective_business_window_both_bounds_given_are_returned_as_is() {
    let cfg = default_hours();
    let w = PrefWindow {
        days: PrefDays::Weekday,
        start: Some(time("13:00")),
        end: Some(time("15:00")),
    };
    assert_eq!(effective_business_window(&w, &cfg), Some((time("13:00"), time("15:00"))));
}

#[test]
fn effective_business_window_none_when_only_partially_overlapping() {
    let cfg = default_hours();
    let w = PrefWindow {
        days: PrefDays::Weekday,
        start: Some(time("16:00")),
        end: Some(time("20:00")),
    };
    assert_eq!(effective_business_window(&w, &cfg), None);
}

#[test]
fn effective_business_window_none_when_days_do_not_match_configured_business_days() {
    let cfg = default_hours();
    let w = PrefWindow {
        days: PrefDays::Weekend,
        start: None,
        end: None,
    };
    assert_eq!(effective_business_window(&w, &cfg), None);
}

#[test]
fn any_days_fits_mon_fri_business_hours() {
    let cfg = default_hours();
    let w = PrefWindow {
        days: PrefDays::Any,
        start: None,
        end: None,
    };
    assert!(window_fits_business_hours(&w, &cfg));
}

#[test]
fn any_days_fits_everyday_business_hours() {
    let mut cfg = default_hours();
    cfg.days = "everyday".to_string();
    let w = PrefWindow {
        days: PrefDays::Any,
        start: None,
        end: None,
    };
    assert!(window_fits_business_hours(&w, &cfg));
    assert_eq!(effective_business_window(&w, &cfg), Some((time("10:00"), time("18:00"))));
}

#[test]
fn effective_business_window_none_when_cfg_days_is_unrecognized() {
    let mut cfg = default_hours();
    cfg.days = "sometimes".to_string();
    let w = PrefWindow {
        days: PrefDays::Weekday,
        start: None,
        end: None,
    };
    assert_eq!(effective_business_window(&w, &cfg), None);
}

#[test]
fn effective_business_window_none_when_cfg_start_is_not_a_time() {
    let mut cfg = default_hours();
    cfg.start = "not-a-time".to_string();
    let w = PrefWindow {
        days: PrefDays::Weekday,
        start: None,
        end: None,
    };
    assert_eq!(effective_business_window(&w, &cfg), None);
}

#[test]
fn format_confirmed_slot_renders_the_effective_range_for_weekday() {
    let cfg = default_hours();
    assert_eq!(
        format_confirmed_slot(PrefDays::Weekday, (time("13:00"), time("15:00")), &cfg),
        "平日13:00〜15:00"
    );
}

#[test]
fn format_confirmed_slot_renders_the_effective_range_for_weekend() {
    let cfg = default_hours();
    assert_eq!(
        format_confirmed_slot(PrefDays::Weekend, (time("10:00"), time("12:00")), &cfg),
        "土日10:00〜12:00"
    );
}

#[test]
fn format_confirmed_slot_any_renders_as_weekday_when_config_is_mon_fri() {
    let cfg = default_hours();
    assert_eq!(
        format_confirmed_slot(PrefDays::Any, (time("10:00"), time("18:00")), &cfg),
        "平日10:00〜18:00"
    );
}

#[test]
fn format_confirmed_slot_any_renders_as_everyday_when_config_is_everyday() {
    let mut cfg = default_hours();
    cfg.days = "everyday".to_string();
    assert_eq!(
        format_confirmed_slot(PrefDays::Any, (time("10:00"), time("18:00")), &cfg),
        "毎日10:00〜18:00"
    );
}

#[test]
fn format_confirmed_slot_matches_effective_window_for_all_bound_combinations() {
    let cfg = default_hours();

    let cases = [

        (
            "いつでもいいです",
            PrefWindow {
                days: PrefDays::Any,
                start: None,
                end: None,
            },
            "平日10:00〜18:00",
        ),
        (
            "17時以降で",
            PrefWindow {
                days: PrefDays::Weekday,
                start: Some(time("17:00")),
                end: None,
            },
            "平日17:00〜18:00",
        ),
        (
            "17時までに",
            PrefWindow {
                days: PrefDays::Weekday,
                start: None,
                end: Some(time("17:00")),
            },
            "平日10:00〜17:00",
        ),
        (
            "13時から15時",
            PrefWindow {
                days: PrefDays::Weekday,
                start: Some(time("13:00")),
                end: Some(time("15:00")),
            },
            "平日13:00〜15:00",
        ),
    ];

    for (label, w, expected) in cases {
        let eff = effective_business_window(&w, &cfg)
            .unwrap_or_else(|| panic!("{label}: window must fit business hours"));
        assert_eq!(format_confirmed_slot(w.days, eff, &cfg), expected);
    }
}

fn extraction_false(raw: &str) -> TimePrefExtraction {
    TimePrefExtraction {
        is_time_preference: false,
        windows: Vec::new(),
        raw: raw.to_string(),
    }
}

fn extraction_true(windows: Vec<PrefWindow>, raw: &str) -> TimePrefExtraction {
    TimePrefExtraction {
        is_time_preference: true,
        windows,
        raw: raw.to_string(),
    }
}

#[test]
fn decide_time_pref_emergency_wins_even_while_awaiting() {
    let cfg = default_hours();
    let mut u = base_understanding();
    u.emergency = true;
    let mut conv = base_conv();
    conv.awaiting_time_pref = true;
    let extraction = extraction_false("別の話です");

    assert_eq!(decide_time_pref(&u, &extraction, &mut conv, &cfg, false, 3), AdvisorAction::Safety);
    assert!(conv.awaiting_time_pref);
}

#[test]
fn decide_time_pref_false_extraction_defers_to_normal_flow_and_keeps_awaiting_until_two_in_a_row(
) {
    let cfg = default_hours();
    let u = base_understanding();
    let mut conv = base_conv();
    conv.awaiting_time_pref = true;
    let extraction = extraction_false("別の話です");

    let action1 = decide_time_pref(&u, &extraction, &mut conv, &cfg, false, 3);
    assert_eq!(
        action1,
        AdvisorAction::Clarify {
            missing: vec![ConditionKey::Concern]
        }
    );
    assert!(conv.awaiting_time_pref);

    let action2 = decide_time_pref(&u, &extraction, &mut conv, &cfg, false, 3);
    assert_eq!(
        action2,
        AdvisorAction::Clarify {
            missing: vec![ConditionKey::Concern]
        }
    );
    assert!(!conv.awaiting_time_pref);
}

#[test]
fn decide_time_pref_confirms_with_normalized_slot_when_window_fully_fits_business_hours() {
    let cfg = default_hours();
    let u = base_understanding();
    let mut conv = base_conv();
    conv.awaiting_time_pref = true;
    let w = PrefWindow {
        days: PrefDays::Weekday,
        start: None,
        end: None,
    };
    let extraction = extraction_true(vec![w.clone()], "金曜の17時ごろ");

    let action = decide_time_pref(&u, &extraction, &mut conv, &cfg, false, 3);

    match &action {
        AdvisorAction::LeadConfirmed { slot } => {
            assert_eq!(slot, "平日10:00〜18:00");
            assert_ne!(slot, "金曜の17時ごろ");
        }
        other => panic!("expected LeadConfirmed, got {other:?}"),
    }
    assert!(!conv.awaiting_time_pref);
    assert_eq!(conv.preferred_contact_time.as_deref(), Some("金曜の17時ごろ"));
}

#[test]
fn decide_time_pref_confirmed_slot_produces_the_expected_customer_facing_text_for_all_bound_combinations(
) {
    let cfg = default_hours();
    let u = base_understanding();

    let cases = [
        (
            PrefWindow {
                days: PrefDays::Any,
                start: None,
                end: None,
            },
            "平日10:00〜18:00ですね、担当者からご連絡します。それまでに気になることが出て\
             きたら、いつでもここで聞いてくださいね。",
        ),
        (
            PrefWindow {
                days: PrefDays::Weekday,
                start: Some(time("17:00")),
                end: None,
            },
            "平日17:00〜18:00ですね、担当者からご連絡します。それまでに気になることが出て\
             きたら、いつでもここで聞いてくださいね。",
        ),
        (
            PrefWindow {
                days: PrefDays::Weekday,
                start: None,
                end: Some(time("17:00")),
            },
            "平日10:00〜17:00ですね、担当者からご連絡します。それまでに気になることが出て\
             きたら、いつでもここで聞いてくださいね。",
        ),
        (
            PrefWindow {
                days: PrefDays::Weekday,
                start: Some(time("13:00")),
                end: Some(time("15:00")),
            },
            "平日13:00〜15:00ですね、担当者からご連絡します。それまでに気になることが出て\
             きたら、いつでもここで聞いてくださいね。",
        ),
    ];

    for (w, expected_text) in cases {
        let mut conv = base_conv();
        conv.awaiting_time_pref = true;
        let extraction = extraction_true(vec![w], "テスト発話");

        let action = decide_time_pref(&u, &extraction, &mut conv, &cfg, false, 3);
        let AdvisorAction::LeadConfirmed { slot } = action else {
            panic!("expected LeadConfirmed, got {action:?}");
        };
        assert_eq!(lead_confirmed(&slot), expected_text);
    }
}

#[test]
fn decide_time_pref_reasks_when_window_day_does_not_fit_business_days() {
    let cfg = default_hours();
    let u = base_understanding();
    let mut conv = base_conv();
    conv.awaiting_time_pref = true;
    let extraction = extraction_true(
        vec![PrefWindow {
            days: PrefDays::Weekend,
            start: None,
            end: None,
        }],
        "土曜の午前中",
    );

    let action = decide_time_pref(&u, &extraction, &mut conv, &cfg, false, 3);

    assert_eq!(action, AdvisorAction::TimePrefContinue);
    assert!(conv.awaiting_time_pref);
    assert_eq!(conv.preferred_contact_time, None);
    assert_eq!(conv.time_pref_false_count, 1);
}

#[test]
fn decide_time_pref_reasks_when_window_only_partially_overlaps_business_hours_time_range() {
    let cfg = default_hours();
    let u = base_understanding();
    let mut conv = base_conv();
    conv.awaiting_time_pref = true;
    let extraction = extraction_true(
        vec![PrefWindow {
            days: PrefDays::Weekday,
            start: Some(time("16:00")),
            end: Some(time("20:00")),
        }],
        "16時から20時なら",
    );

    let action = decide_time_pref(&u, &extraction, &mut conv, &cfg, false, 3);

    assert_eq!(action, AdvisorAction::TimePrefContinue);
    assert!(conv.awaiting_time_pref);
}

#[test]
fn decide_time_pref_true_extraction_with_empty_windows_rearms_fail_closed() {
    let cfg = default_hours();
    let u = base_understanding();
    let mut conv = base_conv();
    conv.awaiting_time_pref = true;
    let extraction = TimePrefExtraction {
        is_time_preference: true,
        windows: Vec::new(),
        raw: "よくわからない時間帯の話".to_string(),
    };

    let action = decide_time_pref(&u, &extraction, &mut conv, &cfg, false, 3);

    assert_eq!(action, AdvisorAction::TimePrefContinue);
    assert!(conv.awaiting_time_pref);
}

#[test]
fn decide_time_pref_gives_up_after_two_consecutive_non_fitting_turns_and_defers_to_normal_flow()
{
    let cfg = default_hours();
    let mut u = base_understanding();
    u.conditions
        .push((ConditionKey::Concern, "monitoring".to_string()));
    let mut conv = base_conv();
    conv.awaiting_time_pref = true;
    let extraction = extraction_true(
        vec![PrefWindow {
            days: PrefDays::Weekend,
            start: None,
            end: None,
        }],
        "土曜の午前中",
    );

    let action1 = decide_time_pref(&u, &extraction, &mut conv, &cfg, false, 3);
    assert_eq!(action1, AdvisorAction::TimePrefContinue);
    assert!(conv.awaiting_time_pref);
    assert_eq!(conv.time_pref_false_count, 1);

    let action2 = decide_time_pref(&u, &extraction, &mut conv, &cfg, false, 3);
    assert_eq!(action2, AdvisorAction::Answer);
    assert!(!conv.awaiting_time_pref);
    assert_eq!(conv.time_pref_false_count, 0);
}

#[test]
fn decide_time_pref_gives_up_after_two_consecutive_non_fitting_turns_warns_the_lead_loss() {
    let cfg = default_hours();
    let mut u = base_understanding();
    u.conditions
        .push((ConditionKey::Concern, "monitoring".to_string()));
    let mut conv = base_conv();
    conv.awaiting_time_pref = true;
    let extraction = extraction_true(
        vec![PrefWindow {
            days: PrefDays::Weekend,
            start: None,
            end: None,
        }],
        "土曜の午前中",
    );
    decide_time_pref(&u, &extraction, &mut conv, &cfg, false, 3);

    let search = TimeSearch::Found(extraction.clone());
    let lost = lead_lost(&u, &search, &conv, &cfg);
    let action2 = decide_time_pref(&u, &extraction, &mut conv, &cfg, false, 3);

    assert_eq!(action2, AdvisorAction::Answer);
    assert!(lost);
    assert_eq!(conv.preferred_contact_time, None);
}

#[test]
fn decide_time_pref_extraction_failed_first_time_keeps_awaiting_and_continues() {
    let u = base_understanding();
    let mut conv = base_conv();
    conv.awaiting_time_pref = true;

    let action = decide_time_pref_extraction_failed(&u, &mut conv, false, 3);

    assert_eq!(action, AdvisorAction::TimePrefContinue);
    assert!(conv.awaiting_time_pref);
    assert_eq!(conv.time_pref_extraction_error_count, 1);
}

#[test]
fn decide_time_pref_extraction_failed_second_time_keeps_awaiting_and_continues() {
    let u = base_understanding();
    let mut conv = base_conv();
    conv.awaiting_time_pref = true;
    conv.time_pref_extraction_error_count = 1;

    let action = decide_time_pref_extraction_failed(&u, &mut conv, false, 3);

    assert_eq!(action, AdvisorAction::TimePrefContinue);
    assert!(conv.awaiting_time_pref);
    assert_eq!(conv.time_pref_extraction_error_count, 2);
}

#[test]
fn decide_time_pref_extraction_failed_third_time_gives_up_and_defers_to_normal_flow() {
    let mut u = base_understanding();
    u.conditions
        .push((ConditionKey::Concern, "monitoring".to_string()));
    let mut conv = base_conv();
    conv.awaiting_time_pref = true;
    conv.time_pref_extraction_error_count = 2;

    let action = decide_time_pref_extraction_failed(&u, &mut conv, false, 3);

    assert_eq!(action, AdvisorAction::Answer);
    assert!(!conv.awaiting_time_pref);
    assert_eq!(conv.time_pref_extraction_error_count, 0);
    assert_eq!(conv.time_pref_false_count, 0);
}

#[test]
fn decide_time_pref_extraction_failed_third_time_warns_the_lead_loss() {
    let mut u = base_understanding();
    u.conditions
        .push((ConditionKey::Concern, "monitoring".to_string()));
    let mut conv = base_conv();
    conv.awaiting_time_pref = true;
    conv.time_pref_extraction_error_count = 2;

    let lost = lead_lost(&u, &TimeSearch::Failed, &conv, &default_hours());
    let action = decide_time_pref_extraction_failed(&u, &mut conv, false, 3);

    assert_eq!(action, AdvisorAction::Answer);
    assert!(lost);
}

#[test]
fn decide_time_pref_gives_up_does_not_resume_lead_solicit_even_when_lead_interest_true() {
    let cfg = default_hours();
    let mut u = base_understanding();
    u.conditions
        .push((ConditionKey::Concern, "monitoring".to_string()));
    u.lead_interest = true;
    let mut conv = base_conv();
    conv.awaiting_time_pref = true;
    let extraction = extraction_true(
        vec![PrefWindow {
            days: PrefDays::Weekend,
            start: None,
            end: None,
        }],
        "土曜の午前中でお願いします",
    );

    let action1 = decide_time_pref(&u, &extraction, &mut conv, &cfg, false, 3);
    assert_eq!(action1, AdvisorAction::TimePrefContinue);

    let action2 = decide_time_pref(&u, &extraction, &mut conv, &cfg, false, 3);

    assert_ne!(action2, AdvisorAction::LeadSolicit);
    assert_eq!(action2, AdvisorAction::Answer);
    assert!(!conv.awaiting_time_pref);
}

#[test]
fn decide_time_pref_pass_to_evaluate_does_not_resume_lead_solicit_even_when_lead_interest_true()
{
    let cfg = default_hours();
    let mut u = base_understanding();
    u.conditions
        .push((ConditionKey::Concern, "monitoring".to_string()));
    u.lead_interest = true;
    let mut conv = base_conv();
    conv.awaiting_time_pref = true;
    let extraction = extraction_false("全然関係ない質問です");

    let action = decide_time_pref(&u, &extraction, &mut conv, &cfg, false, 3);

    assert_ne!(action, AdvisorAction::LeadSolicit);
    assert_eq!(action, AdvisorAction::Answer);
}

#[test]
fn decide_time_pref_extraction_failed_third_time_does_not_resume_lead_solicit_even_when_lead_interest_true(
) {
    let mut u = base_understanding();
    u.conditions
        .push((ConditionKey::Concern, "monitoring".to_string()));
    u.lead_interest = true;
    let mut conv = base_conv();
    conv.awaiting_time_pref = true;
    conv.time_pref_extraction_error_count = 2;

    let action = decide_time_pref_extraction_failed(&u, &mut conv, false, 3);

    assert_ne!(action, AdvisorAction::LeadSolicit);
    assert_eq!(action, AdvisorAction::Answer);
    assert!(!conv.awaiting_time_pref);
}

#[test]
fn decide_time_pref_resets_extraction_error_count_on_successful_extraction() {
    let cfg = default_hours();
    let u = base_understanding();
    let mut conv = base_conv();
    conv.awaiting_time_pref = true;
    conv.time_pref_extraction_error_count = 2;
    let extraction = extraction_false("別の話です");

    decide_time_pref(&u, &extraction, &mut conv, &cfg, false, 3);

    assert_eq!(conv.time_pref_extraction_error_count, 0);
}

#[test]
fn decide_time_pref_extraction_failed_emergency_wins() {
    let mut u = base_understanding();
    u.emergency = true;
    let mut conv = base_conv();
    conv.awaiting_time_pref = true;
    conv.time_pref_extraction_error_count = 2;

    assert_eq!(decide_time_pref_extraction_failed(&u, &mut conv, false, 3), AdvisorAction::Safety);
    assert_eq!(conv.time_pref_extraction_error_count, 2);
}

#[test]
fn parse_advisor_case_attrs_defaults_when_missing() {
    let attrs = HashMap::new();

    assert_eq!(parse_advisor_case_attrs(&attr_map(&attrs)), AdvisorCaseAttrs::default());
}

#[test]
fn parse_advisor_case_attrs_reads_present_values() {
    let attrs: HashMap<String, String> = [
        ("lead_offered".to_string(), "true".to_string()),
        ("lead_requested".to_string(), "true".to_string()),
        (
            "shown_product_cards".to_string(),
            "own_product:adc-v724,partner_product:foo".to_string(),
        ),
    ]
    .into_iter()
    .collect();

    assert_eq!(
        parse_advisor_case_attrs(&attr_map(&attrs)),
        AdvisorCaseAttrs {
            lead_offered: true,
            lead_requested: true,
            shown_product_cards: "own_product:adc-v724,partner_product:foo".to_string(),
            question_streak: 0,
        }
    );
}

#[test]
fn advisor_attr_updates_serializes_bools_as_true_false_strings() {
    let attrs = AdvisorCaseAttrs {
        lead_offered: true,
        lead_requested: false,
        shown_product_cards: "statistic:foo".to_string(),
        question_streak: 0,
    };

    let updates = advisor_attr_updates(&attrs);

    assert_eq!(updates.len(), 3);
    let map: HashMap<_, _> = updates.into_iter().collect();
    assert_eq!(map.get("lead_offered").map(String::as_str), Some("true"));
    assert_eq!(map.get("lead_requested").map(String::as_str), Some("false"));
    assert_eq!(map.get("shown_product_cards").map(String::as_str), Some("statistic:foo"));
}
