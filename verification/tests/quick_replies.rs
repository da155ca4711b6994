use homesec_advisor::draft_meta::{ClosingKind, DraftMeta};
use homesec_advisor::quick_replies::{
    cap, concern_vocabulary, for_answer, for_clarify, for_time_pref, housing_vocabulary, item,
    time_pref_vocabulary, truncate_label, QuickReplyItem, CHOICE_MAX_CHARS,
};
use homesec_advisor::understand::ConditionKey;

#[test]
fn concern_vocabulary_has_5_items_in_the_specified_order() {
    let items = concern_vocabulary();
    let expected = [
        ("侵入・空き巣が心配", "侵入や空き巣が心配です"),
        ("留守中の見守り", "留守中の様子を見守りたいです"),
        ("宅配便の盗難防止", "宅配便の盗難が心配です"),
        ("ストーカー・不審者対策", "ストーカーや不審者が心配です"),
        ("火災・災害対策", "火災や災害が心配です"),
    ];
    assert_eq!(items.len(), 5);
    for (item, (label, message)) in items.iter().zip(expected.iter()) {
        assert_eq!(item.label, *label);
        assert_eq!(item.message, *message);
    }
}

#[test]
fn housing_vocabulary_has_4_items_in_the_specified_order() {
    let items = housing_vocabulary();
    let expected = [
        ("一戸建て(持ち家)", "持ち家の一戸建てです"),
        ("一戸建て(賃貸)", "賃貸の一戸建てです"),
        (
            "マンション・アパート(持ち家)",
            "持ち家のマンション・アパートです",
        ),
        (
            "マンション・アパート(賃貸)",
            "賃貸のマンション・アパートです",
        ),
    ];
    assert_eq!(items.len(), 4);
    for (item, (label, message)) in items.iter().zip(expected.iter()) {
        assert_eq!(item.label, *label);
        assert_eq!(item.message, *message);
    }
}

#[test]
fn time_pref_vocabulary_has_3_items_in_the_specified_order() {
    let items = time_pref_vocabulary();
    let expected = [
        ("平日10-12時", "平日10時から12時にお願いします"),
        ("平日13-15時", "平日13時から15時にお願いします"),
        ("平日16-18時", "平日16時から18時にお願いします"),
    ];
    assert_eq!(items.len(), 3);
    for (item, (label, message)) in items.iter().zip(expected.iter()) {
        assert_eq!(item.label, *label);
        assert_eq!(item.message, *message);
    }
}

#[test]
fn for_clarify_returns_concern_vocabulary_when_missing_first_is_concern() {
    let result = for_clarify(&[ConditionKey::Concern]);
    let expected: Vec<QuickReplyItem> = concern_vocabulary().into_iter().take(4).collect();
    assert_eq!(result, Some(expected));
}

#[test]
fn for_clarify_returns_housing_vocabulary_when_missing_first_is_housing() {
    let result = for_clarify(&[ConditionKey::Housing]);
    assert_eq!(result, Some(housing_vocabulary()));
}

#[test]
fn for_clarify_only_looks_at_the_first_element() {
    let result = for_clarify(&[ConditionKey::Concern, ConditionKey::Housing]);
    let expected: Vec<QuickReplyItem> = concern_vocabulary().into_iter().take(4).collect();
    assert_eq!(result, Some(expected));
}

#[test]
fn for_clarify_returns_none_when_missing_is_empty() {
    assert_eq!(for_clarify(&[]), None);
}

#[test]
fn for_clarify_returns_none_when_missing_first_is_neither_concern_nor_housing() {
    assert_eq!(for_clarify(&[ConditionKey::Budget]), None);
}

#[test]
fn for_time_pref_returns_the_time_pref_vocabulary() {
    assert_eq!(for_time_pref(), Some(time_pref_vocabulary()));
}

#[test]
fn truncate_label_keeps_a_label_at_exactly_20_chars_untouched() {
    let label: String = "あ".repeat(20);
    assert_eq!(truncate_label(&label), label);
}

#[test]
fn truncate_label_truncates_a_label_over_20_chars() {
    let label: String = "あ".repeat(25);
    let truncated = truncate_label(&label);
    assert_eq!(truncated.chars().count(), 20);
    assert_eq!(truncated, "あ".repeat(20));
}

#[test]
fn cap_limits_to_4_items() {
    let items: Vec<QuickReplyItem> = (0..8)
        .map(|i| item(&format!("項目{i}"), &format!("メッセージ{i}")))
        .collect();
    let capped = cap(items);
    assert_eq!(capped.len(), 4);
    assert_eq!(capped[0].label, "項目0");
    assert_eq!(capped[3].label, "項目3");
}

#[test]
fn cap_keeps_all_items_when_under_the_limit() {
    let items = vec![item("A", "a"), item("B", "b")];
    let capped = cap(items);
    assert_eq!(capped.len(), 2);
}

fn meta(closing: ClosingKind, choices: &[&str]) -> DraftMeta {
    DraftMeta {
        featured: Vec::new(),
        closing,
        choices: choices.iter().map(|s| s.to_string()).collect(),
    }
}

#[test]
fn for_answer_returns_choices_when_closing_is_question_choice() {
    let m = meta(ClosingKind::QuestionChoice, &["侵入が心配", "留守中が心配"]);
    let result = for_answer(Some(&m)).unwrap();
    assert_eq!(
        result,
        vec![
            QuickReplyItem {
                label: "侵入が心配".to_string(),
                message: "侵入が心配".to_string(),
            },
            QuickReplyItem {
                label: "留守中が心配".to_string(),
                message: "留守中が心配".to_string(),
            },
        ]
    );
}

#[test]
fn for_answer_returns_none_when_closing_is_question_open() {
    let m = meta(ClosingKind::QuestionOpen, &[]);
    assert_eq!(for_answer(Some(&m)), None);
}

#[test]
fn for_answer_returns_none_when_closing_is_proposal() {
    let m = meta(ClosingKind::Proposal, &[]);
    assert_eq!(for_answer(Some(&m)), None);
}

#[test]
fn for_answer_returns_none_when_meta_is_none() {
    assert_eq!(for_answer(None), None);
}

#[test]
fn for_answer_returns_none_when_closing_is_question_choice_but_choices_is_empty() {
    let m = meta(ClosingKind::QuestionChoice, &[]);
    assert_eq!(for_answer(Some(&m)), None);
}

#[test]
fn for_answer_deduplicates_choices_preserving_order() {
    let m = meta(
        ClosingKind::QuestionChoice,
        &["侵入が心配", "留守中が心配", "侵入が心配"],
    );
    let result = for_answer(Some(&m)).unwrap();
    assert_eq!(result.iter().map(|i| i.label.as_str()).collect::<Vec<_>>(), vec!["侵入が心配", "留守中が心配"]);
}

#[test]
fn for_answer_caps_choices_to_max_quick_replies() {
    let choices = ["選択肢1", "選択肢2", "選択肢3", "選択肢4", "選択肢5"];
    let m = meta(ClosingKind::QuestionChoice, &choices);
    let result = for_answer(Some(&m)).unwrap();
    assert_eq!(result.len(), 4);
}

#[test]
fn for_answer_discards_blank_and_whitespace_only_choices() {
    let m = meta(
        ClosingKind::QuestionChoice,
        &["侵入が心配", "", "   ", "留守中が心配"],
    );
    let result = for_answer(Some(&m)).unwrap();
    assert_eq!(result.iter().map(|i| i.label.as_str()).collect::<Vec<_>>(), vec!["侵入が心配", "留守中が心配"]);
}

#[test]
fn for_answer_returns_none_when_all_choices_are_blank_or_whitespace_only() {
    let m = meta(ClosingKind::QuestionChoice, &["", "   ", "\t"]);
    assert_eq!(for_answer(Some(&m)), None);
}

#[test]
fn for_answer_truncates_each_choice_label_to_20_chars_but_keeps_the_message_untouched() {
    let long_choice = "あ".repeat(25);
    let m = meta(ClosingKind::QuestionChoice, &[&long_choice]);
    let result = for_answer(Some(&m)).unwrap();
    assert_eq!(result[0].label.chars().count(), 20);
    assert_eq!(result[0].message, long_choice);
}

#[test]
fn for_answer_merges_duplicates_that_only_differ_by_surrounding_whitespace() {
    let m = meta(ClosingKind::QuestionChoice, &["はい", " はい ", "いいえ"]);
    let result = for_answer(Some(&m)).unwrap();
    assert_eq!(result.iter().map(|i| i.label.as_str()).collect::<Vec<_>>(), vec!["はい", "いいえ"]);
}

#[test]
fn for_answer_discards_a_choice_containing_a_control_character() {
    let m = meta(
        ClosingKind::QuestionChoice,
        &["侵入が心配", "見守り\nしたい", "留守中が心配"],
    );
    let result = for_answer(Some(&m)).unwrap();
    assert_eq!(result.iter().map(|i| i.label.as_str()).collect::<Vec<_>>(), vec!["侵入が心配", "留守中が心配"]);
}

#[test]
fn for_answer_discards_a_choice_exceeding_the_length_limit() {
    let too_long = "あ".repeat(CHOICE_MAX_CHARS + 1);
    let m = meta(ClosingKind::QuestionChoice, &["侵入が心配", &too_long]);
    let result = for_answer(Some(&m)).unwrap();
    assert_eq!(result.iter().map(|i| i.label.as_str()).collect::<Vec<_>>(), vec!["侵入が心配"]);
}

#[test]
fn for_answer_returns_none_when_every_choice_is_discarded() {
    let too_long = "あ".repeat(CHOICE_MAX_CHARS + 1);
    let m = meta(ClosingKind::QuestionChoice, &["", "\n", &too_long]);
    assert_eq!(for_answer(Some(&m)), None);
}
