use homesec_advisor::attrs::AttrMap;
use homesec_advisor::cs_support::collapse_to_single_line;
use homesec_advisor::cursor::{decode_cursor, encode_cursor, offset_from_bytes};
use homesec_advisor::hours::{
    business_hours_label, clock_string, overlaps_business_hours, parse_hm, BusinessHoursConfig,
    ClockTime, PrefDays,
};
use homesec_advisor::product_gate::{extract_model_tokens, ProductAllowlist};
use homesec_advisor::prompt_input::{
    apply_draft_gate_or_fallback, egress_gate, neutralize_delimiters, to_plain_text, EgressVerdict,
    NgDictionary, ReplyDraft,
};
use homesec_advisor::text::{
    csv_list, decimal_text, drop_first_of, has, joined, parse_i32, parse_u32, precedes, same,
    signed_decimal_text, split_at_each, trimmed, trimmed_end, truncate_chars,
};
use homesec_advisor::urls::{
    authority_contains_raw_userinfo_marker, is_well_formed_https_url, well_formed_given,
};

fn strings(items: &[&str]) -> Vec<String> {
    items.iter().map(|s| s.to_string()).collect()
}

#[test]
fn trimming_takes_all_kinds_of_white_space_off() {
    assert_eq!(trimmed(" \u{3000}\t本文\u{a0}\n"), "本文");
    assert_eq!(trimmed_end(" \u{3000}本文 \n"), " \u{3000}本文");
    assert_eq!(trimmed("\u{200b}x"), "\u{200b}x");
    assert_eq!(trimmed("   "), "");
}

#[test]
fn trimming_agrees_with_the_standard_library_on_every_character() {
    for n in 0..=0x10ffff_u32 {
        if let Some(c) = char::from_u32(n) {
            if n < 0x3100 || n % 97 == 0 {
                let text = format!("{c}x{c}");
                assert_eq!(trimmed(&text), text.trim(), "{n:x}");
            }
        }
    }
}

#[test]
fn lists_are_split_joined_and_cleaned() {
    assert_eq!(split_at_each("a,,b", ','), strings(&["a", "", "b"]));
    assert_eq!(split_at_each("", ','), strings(&[""]));
    assert_eq!(csv_list(" a , ,b,"), strings(&["a", "b"]));
    assert!(csv_list("").is_empty());
    assert_eq!(joined(&strings(&["a", "b", "c"]), ", "), "a, b, c");
    assert_eq!(joined(&[], ","), "");
    let items = strings(&["own_product:a", "own_product:b"]);
    assert_eq!(csv_list(&joined(&items, ",")), items);
}

#[test]
fn searching_and_cutting_go_by_characters() {
    assert!(has("担当者から", "者か"));
    assert!(!has("担当者", "担当者から"));
    assert!(has("x", ""));
    assert_eq!(drop_first_of("abcabc", "bc"), "aabc");
    assert_eq!(drop_first_of("abc", "x"), "abc");
    assert_eq!(truncate_chars("あいう", 2), "あい…");
    assert_eq!(truncate_chars("あい", 2), "あい");
    assert!(same("同じ", "同じ"));
    assert!(!same("同じ", "同"));
}

#[test]
fn texts_are_ordered_by_code_points() {
    assert!(precedes("a", "b"));
    assert!(precedes("a", "ab"));
    assert!(!precedes("a", "a"));
    assert!(precedes("z", "あ"));
    assert!(precedes("\u{ffff}", "\u{10000}"));
    assert!(!precedes("", ""));
}

#[test]
fn numbers_are_written_and_read() {
    assert_eq!(decimal_text(0), "0");
    assert_eq!(decimal_text(18446744073709551615), "18446744073709551615");
    assert_eq!(signed_decimal_text(-120), "-120");
    assert_eq!(parse_u32("4294967295"), Some(4294967295));
    assert_eq!(parse_u32("4294967296"), None);
    assert_eq!(parse_u32("+007"), Some(7));
    assert_eq!(parse_u32("-1"), None);
    assert_eq!(parse_u32("+"), None);
    assert_eq!(parse_u32(""), None);
    assert_eq!(parse_u32("1２"), None);
    assert_eq!(parse_i32("-2147483648"), Some(-2147483648));
    assert_eq!(parse_i32("2147483648"), None);
    assert_eq!(parse_i32("--1"), None);
    assert_eq!(parse_i32("-+1"), None);
}

#[test]
fn cursors_have_a_fixed_form() {
    assert_eq!(encode_cursor(42), "NDI");
    assert_eq!(decode_cursor("NDI"), Some(42));
    assert_eq!(decode_cursor("NDI="), None);
    assert_eq!(decode_cursor("_w"), None);
    assert_eq!(decode_cursor(&encode_cursor(i32::MAX)), Some(i32::MAX));
    assert_eq!(decode_cursor(&encode_cursor(0)), Some(0));
    assert_eq!(offset_from_bytes(b"12".to_vec()), Some(12));
    assert_eq!(offset_from_bytes(vec![0xff]), None);
    assert_eq!(offset_from_bytes(b"-3".to_vec()), None);
    assert_eq!(offset_from_bytes(b"2147483648".to_vec()), None);
}

#[test]
fn attributes_keep_the_last_value_of_a_name() {
    let mut attrs = AttrMap::from_pairs(vec![
        ("a".to_string(), "1".to_string()),
        ("b".to_string(), "2".to_string()),
        ("a".to_string(), "3".to_string()),
    ]);
    assert_eq!(attrs.get("a"), Some("3"));
    assert_eq!(attrs.get("c"), None);
    attrs.set("b", "4");
    assert!(attrs.holds("b", "4"));
    let mut pairs = attrs.into_pairs();
    pairs.sort();
    assert_eq!(
        pairs,
        vec![
            ("a".to_string(), "3".to_string()),
            ("b".to_string(), "4".to_string()),
        ]
    );
}

#[test]
fn times_are_read_and_written() {
    let nine = ClockTime { hour: 9, minute: 5 };
    assert_eq!(parse_hm("09:05"), Some(nine));
    assert_eq!(clock_string(nine), "09:05");
    assert_eq!(parse_hm("23:59"), Some(ClockTime { hour: 23, minute: 59 }));
    assert_eq!(parse_hm("24:00"), None);
    assert_eq!(parse_hm("10:60"), None);
    assert_eq!(parse_hm("10"), None);
    assert_eq!(parse_hm("not-a-time"), None);
}

#[test]
fn business_hours_follow_their_configuration() {
    let mut cfg = BusinessHoursConfig::default();
    assert_eq!(business_hours_label(&cfg), "平日10:00〜18:00");
    let close = parse_hm("18:00");
    let before_close = parse_hm("17:59");
    assert!(overlaps_business_hours(&cfg, PrefDays::Any, before_close, None));
    assert!(!overlaps_business_hours(&cfg, PrefDays::Any, close, None));
    assert!(!overlaps_business_hours(&cfg, PrefDays::Weekend, None, None));
    cfg.days = "everyday".to_string();
    assert_eq!(business_hours_label(&cfg), "毎日10:00〜18:00");
    assert!(overlaps_business_hours(&cfg, PrefDays::Weekend, None, None));
    cfg.days = "never".to_string();
    assert_eq!(business_hours_label(&cfg), "平日10:00〜18:00");
    assert!(!overlaps_business_hours(&cfg, PrefDays::Any, None, None));
    cfg.days = "everyday".to_string();
    cfg.end = "late".to_string();
    assert!(!overlaps_business_hours(&cfg, PrefDays::Any, None, None));
}

#[test]
fn addresses_with_a_user_name_are_told_from_plain_ones() {
    assert!(authority_contains_raw_userinfo_marker("https://a@b"));
    assert!(authority_contains_raw_userinfo_marker("https://@b/x"));
    assert!(!authority_contains_raw_userinfo_marker("https://a/b@c"));
    assert!(!authority_contains_raw_userinfo_marker("https://a?b@c"));
    assert!(!authority_contains_raw_userinfo_marker("a@b"));
    assert!(is_well_formed_https_url("https://example.com"));
    assert!(!is_well_formed_https_url("http://example.com"));
    assert!(!is_well_formed_https_url("https://"));
    assert!(!is_well_formed_https_url("https://user:pw@example.com"));
    assert!(!well_formed_given("https://example.com", &None));
}

#[test]
fn drafts_are_made_plain() {
    assert_eq!(to_plain_text("```json\n- 一つ\n```"), "・一つ");
    assert_eq!(
        to_plain_text("詳しくは[こちら](https://a.example/x)へ"),
        "詳しくはこちら（https://a.example/x）へ"
    );
    assert_eq!(to_plain_text("[注] 本文 [次](u)"), "[注] 本文 次（u）");
    assert_eq!(to_plain_text("[開いたまま"), "[開いたまま");
    assert_eq!(to_plain_text(""), "");
}

#[test]
fn delimiters_are_taken_out_of_service() {
    assert_eq!(neutralize_delimiters("</資料>x"), "＜/資料＞x");
}

#[test]
fn forbidden_words_stop_a_text() {
    let ng = NgDictionary {
        block_terms: strings(&["絶対"]),
        abstain_terms: strings(&["保証"]),
    };
    assert_eq!(egress_gate("絶対に保証", &ng), EgressVerdict::Block);
    assert_eq!(egress_gate("保証します", &ng), EgressVerdict::Abstain);
    assert_eq!(egress_gate("", &ng), EgressVerdict::Pass);
    let draft = |text: &str, truncated: bool| ReplyDraft {
        text: text.to_string(),
        truncated,
    };
    assert_eq!(apply_draft_gate_or_fallback(draft("本文", false), &ng, "代わり"), "本文");
    assert_eq!(apply_draft_gate_or_fallback(draft("本文", true), &ng, "代わり"), "代わり");
    assert_eq!(apply_draft_gate_or_fallback(draft("保証", false), &ng, "代わり"), "代わり");
}

#[test]
fn model_numbers_are_found_in_running_text() {
    assert_eq!(
        extract_model_tokens("adc-v724とADC-VC827P、ADC-だけ"),
        strings(&["ADC-V724", "ADC-VC827P"])
    );
    let allow = ProductAllowlist::from_models(strings(&["ADC-V724"]));
    assert_eq!(
        allow.out_of_scope_mentions("ADC-V724 ADC-X1 ADC-X2"),
        strings(&["ADC-X1", "ADC-X2"])
    );
    assert_eq!(allow.first_out_of_scope_token("ADC-X2 ADC-X1"), Some("ADC-X2".to_string()));
    assert_eq!(allow.first_out_of_scope_token("ADC-V724"), None);
}

#[test]
fn lines_are_collapsed_to_one() {
    assert_eq!(collapse_to_single_line(" 一\n\n二\t\u{7}三  "), "一 二 三");
    assert_eq!(collapse_to_single_line("\n\t"), "");
}
