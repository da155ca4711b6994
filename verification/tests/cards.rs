use homesec_advisor::cards::select_cards;
use homesec_advisor::materials::AdvisorMaterial;

struct Images {
    path: Vec<String>,
}

impl Images {
    fn new(_name: &str) -> Self {
        Self { path: Vec::new() }
    }

    fn touch(&mut self, filename: &str) {
        self.path.push(filename.to_string());
    }
}

fn own_product(material_key: &str, title_ja: &str, product_key: &str) -> AdvisorMaterial {
    AdvisorMaterial {
        material_key: material_key.to_string(),
        kind: "own_product".to_string(),
        title_ja: title_ja.to_string(),
        body_ja: "本文".to_string(),
        source_url: None,
        category: Some("monitoring".to_string()),
        product_key: Some(product_key.to_string()),
        price_band: None,
        card_description: Some("屋外対応・夜間撮影".to_string()),
        card_match_terms: Some(format!("{product_key},屋外")),
        product_page_url: None,
    }
}

fn partner_product(material_key: &str, title_ja: &str, category: &str) -> AdvisorMaterial {
    AdvisorMaterial {
        material_key: material_key.to_string(),
        kind: "partner_product".to_string(),
        title_ja: title_ja.to_string(),
        body_ja: "本文".to_string(),
        source_url: Some("https://example.com/partner".to_string()),
        category: Some(category.to_string()),
        product_key: None,
        price_band: None,
        card_description: Some("駆けつけ対応付きサービス".to_string()),
        card_match_terms: Some("ALSOK,駆けつけ".to_string()),
        product_page_url: None,
    }
}

#[test]
fn matching_via_card_match_terms_produces_a_card() {
    let dir = Images::new("match-terms");
    let m = own_product("own_product:adc-v724", "URTECT ADC-V724", "ADC-V724");
    let cards = select_cards("ADC-V724がおすすめです", &[m], "", &dir.path);
    assert_eq!(cards.len(), 1);
    assert_eq!(cards[0].material_key, "own_product:adc-v724");
}

#[test]
fn matching_via_title_ja_fallback_when_match_terms_is_absent() {
    let dir = Images::new("title-fallback");
    let mut m = own_product("own_product:adc-v724", "URTECT ADC-V724", "ADC-V724");
    m.card_match_terms = None;
    let cards = select_cards(
        "URTECT ADC-V724のカメラをご検討ください",
        &[m],
        "",
        &dir.path,
    );
    assert_eq!(cards.len(), 1);
}

#[test]
fn matching_via_product_key_fallback_when_match_terms_is_absent() {
    let dir = Images::new("product-key-fallback");
    let mut m = own_product("own_product:adc-v724", "屋外カメラ", "ADC-V724");
    m.card_match_terms = None;

    let cards = select_cards("ADC-V724がおすすめです", &[m], "", &dir.path);
    assert_eq!(cards.len(), 1);
}

#[test]
fn no_match_produces_no_card() {
    let dir = Images::new("no-match");
    let m = own_product("own_product:adc-v724", "URTECT ADC-V724", "ADC-V724");
    let cards = select_cards("窓の防犯フィルムが有効です", &[m], "", &dir.path);
    assert!(cards.is_empty());
}

#[test]
fn material_without_card_description_is_never_a_candidate_even_if_it_matches() {
    let dir = Images::new("no-card-description");
    let mut m = own_product("own_product:adc-v724", "URTECT ADC-V724", "ADC-V724");
    m.card_description = None;
    let cards = select_cards("ADC-V724がおすすめです", &[m], "", &dir.path);
    assert!(cards.is_empty());
}

#[test]
fn a_statistic_material_with_card_description_never_becomes_a_card() {
    let dir = Images::new("kind-statistic-not-a-card");
    let m = AdvisorMaterial {
        material_key: "statistic:mujimari".to_string(),
        kind: "statistic".to_string(),
        title_ja: "無締り統計".to_string(),
        body_ja: "無締りが侵入手口の最多です".to_string(),
        source_url: Some("https://example.com/stat".to_string()),
        category: Some("intrusion".to_string()),
        product_key: None,
        price_band: None,

        card_description: Some("無締り対策の統計データ".to_string()),
        card_match_terms: Some("無締り".to_string()),
        product_page_url: None,
    };
    let cards = select_cards("無締りにご注意ください", &[m], "", &dir.path);
    assert!(cards.is_empty());
}

#[test]
fn a_scenario_material_with_card_description_never_becomes_a_card() {
    let dir = Images::new("kind-scenario-not-a-card");
    let m = AdvisorMaterial {
        material_key: "scenario:rental-single".to_string(),
        kind: "scenario".to_string(),
        title_ja: "賃貸一人暮らし".to_string(),
        body_ja: "賃貸一人暮らしのシナリオです".to_string(),
        source_url: None,
        category: None,
        product_key: None,
        price_band: None,
        card_description: Some("賃貸一人暮らし向けの案内".to_string()),
        card_match_terms: Some("賃貸一人暮らし".to_string()),
        product_page_url: None,
    };
    let cards = select_cards("賃貸一人暮らしの防犯対策です", &[m], "", &dir.path);
    assert!(cards.is_empty());
}

#[test]
fn own_product_is_ordered_before_partner_product_when_both_match() {
    let dir = Images::new("own-before-partner");
    let partner = partner_product(
        "partner_product:alsok",
        "ALSOKホームセキュリティ",
        "intrusion",
    );
    let own = own_product("own_product:adc-v724", "URTECT ADC-V724", "ADC-V724");

    let cards = select_cards(
        "ADC-V724とALSOK駆けつけの両方が候補です",
        &[partner, own],
        "",
        &dir.path,
    );
    assert_eq!(cards.len(), 2);
    assert_eq!(cards[0].material_key, "own_product:adc-v724");
    assert_eq!(cards[1].material_key, "partner_product:alsok");
}

#[test]
fn more_than_three_matches_are_truncated_to_three_preserving_own_first_order() {
    let dir = Images::new("truncate-to-three");
    let mut partner_a = partner_product("partner_product:a", "A社サービス", "intrusion");
    partner_a.card_match_terms = None;
    let mut partner_b = partner_product("partner_product:b", "B社サービス", "monitoring");
    partner_b.card_match_terms = None;
    let materials = vec![
        partner_a,
        own_product("own_product:adc-v523", "URTECT ADC-V523", "ADC-V523"),
        partner_b,
        own_product("own_product:adc-v724", "URTECT ADC-V724", "ADC-V724"),
    ];
    let final_text = "ADC-V523 ADC-V724 A社サービス B社サービス が候補です";
    let cards = select_cards(final_text, &materials, "", &dir.path);
    assert_eq!(cards.len(), 3);
    assert_eq!(cards[0].material_key, "own_product:adc-v523");
    assert_eq!(cards[1].material_key, "own_product:adc-v724");
    assert_eq!(cards[2].material_key, "partner_product:a");
}

#[test]
fn a_material_key_already_in_shown_csv_is_not_shown_again() {
    let dir = Images::new("shown-suppressed");
    let m = own_product("own_product:adc-v724", "URTECT ADC-V724", "ADC-V724");
    let cards = select_cards(
        "ADC-V724がおすすめです",
        &[m],
        "own_product:adc-v724",
        &dir.path,
    );
    assert!(cards.is_empty());
}

#[test]
fn own_product_image_url_is_some_when_the_file_exists() {
    let mut dir = Images::new("image-exists-own");
    dir.touch("adc-v724.jpg");
    let m = own_product("own_product:adc-v724", "URTECT ADC-V724", "ADC-V724");
    let cards = select_cards("ADC-V724がおすすめです", &[m], "", &dir.path);
    assert_eq!(cards[0].image_url.as_deref(), Some("/static/products/adc-v724.jpg"));
}

#[test]
fn image_url_is_none_when_the_file_does_not_exist_but_the_card_still_forms() {
    let dir = Images::new("image-missing");
    let m = own_product("own_product:adc-v724", "URTECT ADC-V724", "ADC-V724");
    let cards = select_cards("ADC-V724がおすすめです", &[m], "", &dir.path);
    assert_eq!(cards.len(), 1);
    assert_eq!(cards[0].image_url, None);
}

#[test]
fn image_url_is_none_when_product_key_attempts_path_traversal() {
    let dir = Images::new("path-traversal-product-key");
    let m = own_product("own_product:evil", "怪しい製品", "../../etc/passwd");

    let final_text = "../../etc/passwdがおすすめです";
    let cards = select_cards(final_text, &[m], "", &dir.path);
    assert_eq!(cards.len(), 1);
    assert_eq!(cards[0].image_url, None);
}

#[test]
fn partner_product_image_url_uses_the_category_filename_when_the_file_exists() {
    let mut dir = Images::new("image-exists-partner");
    dir.touch("intrusion.jpg");
    let m = partner_product(
        "partner_product:alsok",
        "ALSOKホームセキュリティ",
        "intrusion",
    );
    let cards = select_cards("ALSOK駆けつけがおすすめです", &[m], "", &dir.path);
    assert_eq!(cards[0].image_url.as_deref(), Some("/static/products/intrusion.jpg"));
}

#[test]
fn card_fields_are_built_from_the_material() {
    let dir = Images::new("card-fields");
    let m = own_product("own_product:adc-v724", "URTECT ADC-V724", "ADC-V724");
    let cards = select_cards("ADC-V724がおすすめです", &[m], "", &dir.path);
    let card = &cards[0];
    assert_eq!(card.title, "URTECT ADC-V724");
    assert_eq!(card.description, "屋外対応・夜間撮影");
    assert_eq!(card.button_text, "この製品について聞く");
    assert_eq!(card.button_message, "URTECT ADC-V724について詳しく教えて");
}
