//! The product cards that go with an answer.
use crate::materials::{views, AdvisorMaterial, MaterialView};
use crate::text::{
    among, chars_of, contained_in_a_sum, contains, csv_items, csv_list, csv_reads_back, has, is_item,
    join, occurs_at, same, take_next, texts,
};
use crate::urls::opt_text;
use vstd::prelude::*;

verus! {

/// What the button of a card says.
pub const BUTTON_TEXT: &'static str = "この製品について聞く";

/// How many cards go with an answer at most.
pub const MAX_CARDS: usize = 3;

/// A product card.
#[derive(Debug, Clone, PartialEq, Eq)]
pub struct ProductCard {
    pub material_key: String,
    pub title: String,
    pub description: String,
    pub image_url: Option<String>,
    pub button_text: String,
    pub button_message: String,
}

/// What a product card says.
#[verifier::ext_equal]
pub struct CardView {
    pub material_key: Seq<char>,
    pub title: Seq<char>,
    pub description: Seq<char>,
    pub image_url: Option<Seq<char>>,
    pub button_text: Seq<char>,
    pub button_message: Seq<char>,
}

impl View for ProductCard {
    type V = CardView;

    open spec fn view(&self) -> CardView {
        CardView {
            material_key: self.material_key@,
            title: self.title@,
            description: self.description@,
            image_url: opt_text(self.image_url),
            button_text: self.button_text@,
            button_message: self.button_message@,
        }
    }
}

/// What product cards say.
pub open spec fn card_views(cards: Seq<ProductCard>) -> Seq<CardView> {
    cards.map_values(|c: ProductCard| c@)
}

/// `c` in lower case, where it is an ASCII letter.
pub open spec fn lower_ascii(c: char) -> char {
    if 'A' as int <= c as int <= 'Z' as int {
        (c as int + 32) as char
    } else {
        c
    }
}

/// The text that `str::to_lowercase` gives.
pub uninterp spec fn lowercase(s: Seq<char>) -> Seq<char>;

/// Calls `str::to_lowercase`. The result depends on the text alone; of a text
/// of ASCII characters it is the text with its ASCII letters in lower case. What
/// becomes of other characters is left to the name.
#[verifier::external_body]
pub(crate) fn to_lower(s: &str) -> (r: String)
    ensures
        r@ == lowercase(s@),
        (forall|i: int| 0 <= i < s@.len() ==> (#[trigger] s@[i]) as int <= 0x7f) ==> r@
            == s@.map_values(|c: char| lower_ascii(c)),
{
    s.to_lowercase()
}

/// `c` may stand in the name of an image.
pub open spec fn name_char(c: char) -> bool {
    ||| 'a' as u32 <= c as u32 <= 'z' as u32
    ||| '0' as u32 <= c as u32 <= '9' as u32
    ||| c == '.'
    ||| c == '_'
    ||| c == '-'
}

/// The name can stand in a path without leading out of its directory.
pub open spec fn safe_name(name: Seq<char>) -> bool {
    &&& name.len() > 0
    &&& !contains(name, ".."@)
    &&& forall|i: int| 0 <= i < name.len() ==> name_char(#[trigger] name[i])
}

fn allowed_char(c: char) -> (r: bool)
    ensures
        r == name_char(c),
{
    let n: u32 = c as u32;
    (97 <= n && n <= 122) || (48 <= n && n <= 57) || c == '.' || c == '_' || c == '-'
}

/// Whether the name can stand in a path without leading out of its directory.
pub fn is_safe_filename_component(filename: &str) -> (r: bool)
    ensures
        r == safe_name(filename@),
{
    let v = chars_of(filename);
    if v.len() == 0 || has(filename, "..") {
        return false;
    }
    let mut i: usize = 0;
    while i < v.len()
        invariant
            v@ == filename@,
            i <= v.len(),
            forall|j: int| 0 <= j < i ==> name_char(#[trigger] v@[j]),
        decreases v.len() - i,
    {
        if !allowed_char(v[i]) {
            return false;
        }
        i = i + 1;
    }
    true
}

/// The name of the image of a material: after its product where it is an own
/// product, after its category where it is a partner's.
pub open spec fn image_name(m: MaterialView) -> Option<Seq<char>> {
    if m.kind == "own_product"@ {
        match m.product_key {
            Some(key) => Some(lowercase(key) + ".jpg"@),
            None => None,
        }
    } else if m.kind == "partner_product"@ {
        match m.category {
            Some(category) => Some(category + ".jpg"@),
            None => None,
        }
    } else {
        None
    }
}

/// Where the image with the given name is found: nowhere, unless the name is
/// safe and there is such an image.
pub open spec fn image_path(name: Option<Seq<char>>, images: Seq<Seq<char>>) -> Option<Seq<char>> {
    match name {
        Some(f) => if safe_name(f) && images.contains(f) {
            Some("/static/products/"@ + f)
        } else {
            None
        },
        None => None,
    }
}

/// Where the image with the given name is found.
pub fn image_path_of(name: &Option<String>, images: &[String]) -> (r: Option<String>)
    ensures
        opt_text(r) == image_path(opt_text(*name), texts(images@)),
{
    match name {
        Some(f) => if is_safe_filename_component(f.as_str()) && among(images, f.as_str()) {
            let mut url = "/static/products/".to_owned();
            url.append(f.as_str());
            Some(url)
        } else {
            None
        },
        None => None,
    }
}

/// Where the image of a material is found. `images` are the names of the images
/// that there are.
pub fn resolve_image_url(material: &AdvisorMaterial, images: &[String]) -> (r: Option<String>)
    ensures
        opt_text(r) == image_path(image_name(material@), texts(images@)),
{
    let name = if same(material.kind.as_str(), "own_product") {
        match &material.product_key {
            Some(key) => {
                let mut f = to_lower(key.as_str());
                f.append(".jpg");
                Some(f)
            },
            None => None,
        }
    } else if same(material.kind.as_str(), "partner_product") {
        match &material.category {
            Some(category) => {
                let mut f = category.clone();
                f.append(".jpg");
                Some(f)
            },
            None => None,
        }
    } else {
        None
    };
    image_path_of(&name, images)
}

/// The text holds one of the terms.
pub open spec fn holds_any(text: Seq<char>, terms: Seq<Seq<char>>) -> bool {
    exists|i: int| 0 <= i < terms.len() && contains(text, #[trigger] terms[i])
}

/// The text speaks of the material: it holds one of the material's terms, or,
/// where it has no terms, its title or its product.
pub open spec fn spoken_of(m: MaterialView, text: Seq<char>) -> bool {
    match m.card_match_terms {
        Some(terms) => holds_any(text, csv_items(terms)),
        None => contains(text, m.title_ja) || (m.product_key is Some && contains(
            text,
            m.product_key->0,
        )),
    }
}

/// Whether the text speaks of the material.
pub fn matches_final_text(material: &AdvisorMaterial, final_text: &str) -> (r: bool)
    ensures
        r == spoken_of(material@, final_text@),
{
    match &material.card_match_terms {
        Some(terms) => {
            let items = csv_list(terms.as_str());
            let ghost all = csv_items(terms@);
            let mut i: usize = 0;
            while i < items.len()
                invariant
                    i <= items.len(),
                    all == texts(items@),
                    all == csv_items(terms@),
                    material@.card_match_terms == Some(terms@),
                    forall|j: int| 0 <= j < i ==> !contains(final_text@, #[trigger] all[j]),
                decreases items.len() - i,
            {
                assert(all[i as int] == items@[i as int]@);
                if has(final_text, items[i].as_str()) {
                    assert(holds_any(final_text@, all));
                    return true;
                }
                i = i + 1;
            }
            false
        },
        None => {
            if has(final_text, material.title_ja.as_str()) {
                return true;
            }
            match &material.product_key {
                Some(key) => has(final_text, key.as_str()),
                None => false,
            }
        },
    }
}

/// The rank of a kind of material among the cards: own products come first.
pub fn kind_priority(kind: &str) -> (r: u8)
    ensures
        r == if kind@ == "own_product"@ {
            0u8
        } else {
            1u8
        },
{
    if same(kind, "own_product") {
        0
    } else {
        1
    }
}

/// A material of the given kind gets a card: it has a description for one, the
/// text speaks of it, and its card was not shown before.
pub open spec fn gets_card(
    m: MaterialView,
    kind: Seq<char>,
    text: Seq<char>,
    shown: Seq<Seq<char>>,
) -> bool {
    &&& m.kind == kind
    &&& m.card_description is Some
    &&& spoken_of(m, text)
    &&& !shown.contains(m.material_key)
}

/// The materials of the given kind that get a card, in their order.
pub open spec fn card_materials(
    ms: Seq<MaterialView>,
    kind: Seq<char>,
    text: Seq<char>,
    shown: Seq<Seq<char>>,
) -> Seq<MaterialView>
    decreases ms.len(),
{
    if ms.len() == 0 {
        ms
    } else {
        let rest = card_materials(ms.drop_last(), kind, text, shown);
        if gets_card(ms.last(), kind, text, shown) {
            rest.push(ms.last())
        } else {
            rest
        }
    }
}

/// The card of a material.
pub open spec fn card_of(m: MaterialView, images: Seq<Seq<char>>) -> CardView {
    CardView {
        material_key: m.material_key,
        title: m.title_ja,
        description: match m.card_description {
            Some(d) => d,
            None => Seq::empty(),
        },
        image_url: image_path(image_name(m), images),
        button_text: BUTTON_TEXT@,
        button_message: m.title_ja + "について詳しく教えて"@,
    }
}

/// The card of a material.
pub fn to_product_card(material: &AdvisorMaterial, images: &[String]) -> (r: ProductCard)
    ensures
        r@ == card_of(material@, texts(images@)),
{
    let mut button_message = material.title_ja.clone();
    button_message.append("について詳しく教えて");
    ProductCard {
        material_key: material.material_key.clone(),
        title: material.title_ja.clone(),
        description: match &material.card_description {
            Some(d) => d.clone(),
            None => String::new(),
        },
        image_url: resolve_image_url(material, images),
        button_text: BUTTON_TEXT.to_owned(),
        button_message,
    }
}

/// The materials that get a card: own products first, then partner products,
/// each in their order, and no more than go with an answer.
pub open spec fn chosen(ms: Seq<MaterialView>, text: Seq<char>, shown: Seq<Seq<char>>) -> Seq<
    MaterialView,
> {
    let all = card_materials(ms, "own_product"@, text, shown) + card_materials(
        ms,
        "partner_product"@,
        text,
        shown,
    );
    if all.len() <= MAX_CARDS {
        all
    } else {
        all.take(MAX_CARDS as int)
    }
}

/// The cards that go with a text.
pub open spec fn cards_for(
    text: Seq<char>,
    ms: Seq<MaterialView>,
    shown_csv: Seq<char>,
    images: Seq<Seq<char>>,
) -> Seq<CardView> {
    chosen(ms, text, csv_items(shown_csv)).map_values(|m: MaterialView| card_of(m, images))
}

fn pick_cards(
    out: &mut Vec<ProductCard>,
    injected: &[AdvisorMaterial],
    priority: u8,
    kind: &str,
    final_text: &str,
    shown: &[String],
    images: &[String],
)
    requires
        kind@ == "own_product"@ && priority == 0 || kind@ == "partner_product"@ && priority == 1,
    ensures
        card_views(final(out)@) == card_views(old(out)@) + card_materials(
            views(injected@),
            kind@,
            final_text@,
            texts(shown@),
        ).map_values(|m: MaterialView| card_of(m, texts(images@))),
{
    let ghost start = card_views(out@);
    let ghost all = views(injected@);
    let ghost f = |m: MaterialView| card_of(m, texts(images@));
    let mut i: usize = 0;
    assert(card_views(out@) =~= start + card_materials(
        all.take(0),
        kind@,
        final_text@,
        texts(shown@),
    ).map_values(f));
    while i < injected.len()
        invariant
            i <= injected.len(),
            all == views(injected@),
            f == (|m: MaterialView| card_of(m, texts(images@))),
            kind@ == "own_product"@ && priority == 0 || kind@ == "partner_product"@ && priority == 1,
            card_views(out@) == start + card_materials(
                all.take(i as int),
                kind@,
                final_text@,
                texts(shown@),
            ).map_values(f),
        decreases injected.len() - i,
    {
        proof {
            take_next(all, i as int);
            reveal_strlit("own_product");
            reveal_strlit("partner_product");
        }
        let m = &injected[i];
        assert(all[i as int] == m@);
        if kind_priority(m.kind.as_str()) == priority && same(m.kind.as_str(), kind)
            && m.card_description.is_some() && matches_final_text(m, final_text) && !among(
            shown,
            m.material_key.as_str(),
        ) {
            let ghost o0 = out@;
            let ghost before_push = card_materials(
                all.take(i as int),
                kind@,
                final_text@,
                texts(shown@),
            );
            let card = to_product_card(m, images);
            let ghost v0 = card@;
            out.push(card);
            proof {
                assert(card_views(out@) =~= card_views(o0).push(v0));
                assert(before_push.push(m@).map_values(f) =~= before_push.map_values(f).push(v0));
                assert(start + before_push.push(m@).map_values(f) =~= (start
                    + before_push.map_values(f)).push(v0));
            }
        }
        i = i + 1;
    }
    assert(all.take(all.len() as int) =~= all);
}

/// The cards that go with a text: for materials that the text speaks of and
/// that were not shown before. `shown_csv` holds the keys of those that were,
/// `images` the names of the images that there are.
pub fn select_cards(
    final_text: &str,
    injected: &[AdvisorMaterial],
    shown_csv: &str,
    images: &[String],
) -> (r: Vec<ProductCard>)
    ensures
        card_views(r@) == cards_for(final_text@, views(injected@), shown_csv@, texts(images@)),
{
    let shown = csv_list(shown_csv);
    let mut r: Vec<ProductCard> = Vec::new();
    assert(card_views(r@) =~= Seq::<CardView>::empty());
    pick_cards(&mut r, injected, 0, "own_product", final_text, shown.as_slice(), images);
    let ghost a = card_materials(views(injected@), "own_product"@, final_text@, texts(shown@));
    let ghost f = |m: MaterialView| card_of(m, texts(images@));
    assert(card_views(r@) =~= a.map_values(f));
    pick_cards(&mut r, injected, 1, "partner_product", final_text, shown.as_slice(), images);
    let ghost b = card_materials(views(injected@), "partner_product"@, final_text@, texts(shown@));
    assert(card_views(r@) =~= (a + b).map_values(f));
    if r.len() > MAX_CARDS {
        let ghost uncut = card_views(r@);
        r.truncate(MAX_CARDS);
        assert(card_views(r@) =~= uncut.take(MAX_CARDS as int));
        assert(card_views(r@) =~= (a + b).take(MAX_CARDS as int).map_values(f));
    }
    r
}

proof fn card_materials_get_cards(
    ms: Seq<MaterialView>,
    kind: Seq<char>,
    text: Seq<char>,
    shown: Seq<Seq<char>>,
)
    ensures
        forall|i: int|
            0 <= i < card_materials(ms, kind, text, shown).len() ==> gets_card(
                #[trigger] card_materials(ms, kind, text, shown)[i],
                kind,
                text,
                shown,
            ),
    decreases ms.len(),
{
    if ms.len() > 0 {
        let rest = card_materials(ms.drop_last(), kind, text, shown);
        let all = card_materials(ms, kind, text, shown);
        card_materials_get_cards(ms.drop_last(), kind, text, shown);
        assert forall|i: int| 0 <= i < all.len() implies gets_card(
            #[trigger] all[i],
            kind,
            text,
            shown,
        ) by {
            if i < rest.len() {
                assert(all[i] == rest[i]);
            }
        }
    }
}

/// Cards are few, none was shown before, each is for a product that the text
/// speaks of, and own products come before those of partners.
pub proof fn chosen_cards_are_fit_to_show(
    ms: Seq<MaterialView>,
    text: Seq<char>,
    shown: Seq<Seq<char>>,
)
    ensures
        chosen(ms, text, shown).len() <= MAX_CARDS,
        forall|i: int|
            0 <= i < chosen(ms, text, shown).len() ==> {
                let m = #[trigger] chosen(ms, text, shown)[i];
                &&& m.kind == "own_product"@ || m.kind == "partner_product"@
                &&& m.card_description is Some
                &&& spoken_of(m, text)
                &&& !shown.contains(m.material_key)
            },
        forall|i: int, j: int|
            0 <= i < j < chosen(ms, text, shown).len() && (#[trigger] chosen(ms, text, shown)[j]).kind
                == "own_product"@ ==> (#[trigger] chosen(ms, text, shown)[i]).kind == "own_product"@,
{
    reveal_strlit("own_product");
    reveal_strlit("partner_product");
    card_materials_get_cards(ms, "own_product"@, text, shown);
    card_materials_get_cards(ms, "partner_product"@, text, shown);
    let a = card_materials(ms, "own_product"@, text, shown);
    let b = card_materials(ms, "partner_product"@, text, shown);
    let r = chosen(ms, text, shown);
    assert("own_product"@ != "partner_product"@) by {
        assert("own_product"@[0] == 'o');
        assert("partner_product"@[0] == 'p');
    }
    assert forall|i: int| 0 <= i < r.len() implies {
        let m = #[trigger] r[i];
        &&& i < a.len() ==> gets_card(m, "own_product"@, text, shown)
        &&& i >= a.len() ==> gets_card(m, "partner_product"@, text, shown)
    } by {
        if i < a.len() {
            assert(r[i] == a[i]);
        } else {
            assert(r[i] == b[i - a.len()]);
        }
    }
}

/// An image is found only under the directory of the product images, by a name
/// that does not lead out of it.
pub proof fn images_stay_in_their_directory(name: Option<Seq<char>>, images: Seq<Seq<char>>)
    requires
        image_path(name, images) is Some,
    ensures
        exists|f: Seq<char>|
            image_path(name, images) == Some("/static/products/"@ + f) && #[trigger] safe_name(f)
                && images.contains(f),
{
    assert(safe_name(name->0));
}

/// A text speaks of a material with terms just where it holds one of them,
/// whichever place the term has in the list.
pub proof fn any_term_is_enough(m: MaterialView, text: Seq<char>, terms: Seq<Seq<char>>)
    requires
        terms.len() > 0,
        forall|i: int| 0 <= i < terms.len() ==> is_item(#[trigger] terms[i]),
        m.card_match_terms == Some(join(terms, ","@)),
    ensures
        spoken_of(m, text) <==> exists|i: int|
            0 <= i < terms.len() && contains(text, #[trigger] terms[i]),
{
    csv_reads_back(terms);
}

/// The order of its terms has no bearing on whether a text speaks of a material.
pub proof fn order_of_terms_has_no_bearing(
    m: MaterialView,
    other: MaterialView,
    text: Seq<char>,
    terms: Seq<Seq<char>>,
    others: Seq<Seq<char>>,
)
    requires
        terms.len() > 0,
        others.len() > 0,
        forall|i: int| 0 <= i < terms.len() ==> is_item(#[trigger] terms[i]),
        forall|i: int| 0 <= i < others.len() ==> is_item(#[trigger] others[i]),
        forall|t: Seq<char>| terms.contains(t) <==> #[trigger] others.contains(t),
        m.card_match_terms == Some(join(terms, ","@)),
        other.card_match_terms == Some(join(others, ","@)),
    ensures
        spoken_of(m, text) == spoken_of(other, text),
{
    csv_reads_back(terms);
    csv_reads_back(others);
    if spoken_of(m, text) {
        let i = choose|i: int| 0 <= i < terms.len() && contains(text, #[trigger] terms[i]);
        assert(others.contains(terms[i]));
        let k = choose|k: int| 0 <= k < others.len() && others[k] == terms[i];
        assert(contains(text, others[k]));
    }
    if spoken_of(other, text) {
        let k = choose|k: int| 0 <= k < others.len() && contains(text, #[trigger] others[k]);
        assert(others.contains(others[k]));
        assert(terms.contains(others[k]));
        let i = choose|i: int| 0 <= i < terms.len() && terms[i] == others[k];
        assert(contains(text, terms[i]));
    }
}

/// A text that stands between others speaks of all that it speaks of by itself.
pub proof fn more_text_speaks_of_more(
    m: MaterialView,
    a: Seq<char>,
    text: Seq<char>,
    b: Seq<char>,
)
    requires
        spoken_of(m, text),
    ensures
        spoken_of(m, a + text + b),
{
    match m.card_match_terms {
        Some(terms) => {
            let items = csv_items(terms);
            let i = choose|i: int| 0 <= i < items.len() && contains(text, #[trigger] items[i]);
            contained_in_a_sum(a, text, b, items[i]);
            assert(contains(a + text + b, items[i]));
        },
        None => {
            if contains(text, m.title_ja) {
                contained_in_a_sum(a, text, b, m.title_ja);
            } else {
                contained_in_a_sum(a, text, b, m.product_key->0);
            }
        },
    }
}

/// A material without terms is known by its title or its product, and by nothing
/// else.
pub proof fn without_terms_title_or_product(m: MaterialView, text: Seq<char>)
    requires
        m.card_match_terms is None,
    ensures
        spoken_of(m, text) <==> contains(text, m.title_ja) || (m.product_key is Some && contains(
            text,
            m.product_key->0,
        )),
{
}

/// The materials of a kind that get a card are, in their order, all those of the
/// kind with a description that the text speaks of and whose card was not shown.
pub proof fn all_materials_that_qualify_get_cards(
    ms: Seq<MaterialView>,
    kind: Seq<char>,
    text: Seq<char>,
    shown: Seq<Seq<char>>,
)
    ensures
        card_materials(ms, kind, text, shown) =~= ms.filter(
            |m: MaterialView|
                m.kind == kind && m.card_description is Some && !shown.contains(m.material_key)
                    && spoken_of(m, text),
        ),
    decreases ms.len(),
{
    reveal(Seq::filter);
    if ms.len() > 0 {
        all_materials_that_qualify_get_cards(ms.drop_last(), kind, text, shown);
    }
}

/// No product that qualifies is passed over as long as there is room: with no more
/// than go with an answer, each own and each partner product that qualifies has
/// its card.
pub proof fn no_card_is_passed_over(
    ms: Seq<MaterialView>,
    text: Seq<char>,
    shown: Seq<Seq<char>>,
    i: int,
)
    requires
        0 <= i < ms.len(),
        ms[i].kind == "own_product"@ || ms[i].kind == "partner_product"@,
        ms[i].card_description is Some,
        spoken_of(ms[i], text),
        !shown.contains(ms[i].material_key),
    ensures
        chosen(ms, text, shown).contains(ms[i]) || chosen(ms, text, shown).len() == MAX_CARDS,
{
    let a = card_materials(ms, "own_product"@, text, shown);
    let b = card_materials(ms, "partner_product"@, text, shown);
    let all = a + b;
    if ms[i].kind == "own_product"@ {
        qualified_is_there(ms, "own_product"@, text, shown, i);
        let k = choose|k: int| 0 <= k < a.len() && a[k] == ms[i];
        assert(all[k] == ms[i]);
    } else {
        qualified_is_there(ms, "partner_product"@, text, shown, i);
        let k = choose|k: int| 0 <= k < b.len() && b[k] == ms[i];
        assert(all[a.len() + k] == ms[i]);
    }
}

proof fn qualified_is_there(
    ms: Seq<MaterialView>,
    kind: Seq<char>,
    text: Seq<char>,
    shown: Seq<Seq<char>>,
    i: int,
)
    requires
        0 <= i < ms.len(),
        gets_card(ms[i], kind, text, shown),
    ensures
        card_materials(ms, kind, text, shown).contains(ms[i]),
    decreases ms.len(),
{
    let rest = card_materials(ms.drop_last(), kind, text, shown);
    let all = card_materials(ms, kind, text, shown);
    if i == ms.len() - 1 {
        assert(all[rest.len() as int] == ms[i]);
    } else {
        qualified_is_there(ms.drop_last(), kind, text, shown, i);
        let k = choose|k: int| 0 <= k < rest.len() && rest[k] == ms[i];
        assert(all[k] == ms[i]);
    }
}

/// Each card is for the material chosen in its place: its key, title and
/// description are those of the material, its message asks about that title, and
/// its image is the one that belongs to the material.
pub proof fn cards_say_what_their_materials_say(
    text: Seq<char>,
    ms: Seq<MaterialView>,
    shown_csv: Seq<char>,
    images: Seq<Seq<char>>,
    i: int,
)
    requires
        0 <= i < cards_for(text, ms, shown_csv, images).len(),
    ensures
        ({
            let card = cards_for(text, ms, shown_csv, images)[i];
            let m = chosen(ms, text, csv_items(shown_csv))[i];
            &&& cards_for(text, ms, shown_csv, images).len() == chosen(
                ms,
                text,
                csv_items(shown_csv),
            ).len()
            &&& card.material_key == m.material_key
            &&& card.title == m.title_ja
            &&& m.card_description == Some(card.description)
            &&& card.button_message.len() == m.title_ja.len() + 10
            &&& card.button_message.take(m.title_ja.len() as int) == m.title_ja
            &&& card.button_text == BUTTON_TEXT@
        }),
{
    reveal_strlit("について詳しく教えて");
    let m = chosen(ms, text, csv_items(shown_csv))[i];
    chosen_cards_are_fit_to_show(ms, text, csv_items(shown_csv));
    assert((m.title_ja + "について詳しく教えて"@).take(m.title_ja.len() as int) =~= m.title_ja);
}

/// The image of an own product is named after its product in small letters, that
/// of a partner's after its category, and there is none for anything else; it is
/// shown where there is such an image with a safe name.
pub proof fn images_are_named_after_their_material(m: MaterialView, images: Seq<Seq<char>>)
    ensures
        m.kind == "own_product"@ && m.product_key is Some ==> image_name(m) == Some(
            lowercase(m.product_key->0) + ".jpg"@,
        ),
        m.kind == "own_product"@ && m.product_key is None ==> image_name(m) is None,
        m.kind == "partner_product"@ && m.category is Some ==> image_name(m) == Some(
            m.category->0 + ".jpg"@,
        ),
        m.kind == "partner_product"@ && m.category is None ==> image_name(m) is None,
        m.kind != "own_product"@ && m.kind != "partner_product"@ ==> image_name(m) is None,
        forall|f: Seq<char>|
            #![trigger image_path(Some(f), images)]
            safe_name(f) && images.contains(f) ==> image_path(Some(f), images) == Some(
                "/static/products/"@ + f,
            ),
        forall|f: Seq<char>|
            #![trigger image_path(Some(f), images)]
            !safe_name(f) || !images.contains(f) ==> image_path(Some(f), images) is None,
{
    reveal_strlit("own_product");
    reveal_strlit("partner_product");
    assert("own_product"@[0] == 'o');
    assert("partner_product"@[0] == 'p');
}

/// A name with a slash, a backslash, a space, a capital letter or two dots in a
/// row is never safe, nor is the empty one.
pub proof fn unsafe_names(name: Seq<char>, i: int)
    requires
        0 <= i <= name.len(),
        i < name.len() ==> {
            ||| name[i] == '/'
            ||| name[i] == '\\'
            ||| name[i] == ' '
            ||| 'A' as int <= name[i] as int <= 'Z' as int
            ||| name[i] as int > 0x7f
            ||| (i + 1 < name.len() && name[i] == '.' && name[i + 1] == '.')
        },
        i == name.len() ==> name.len() == 0,
    ensures
        !safe_name(name),
{
    reveal_strlit("..");
    if i < name.len() && i + 1 < name.len() && name[i] == '.' && name[i + 1] == '.' {
        assert(name.subrange(i, i + 2) =~= ".."@);
        assert(occurs_at(name, ".."@, i));
    } else if i < name.len() {
        no_name_char(name[i]);
    }
}

proof fn no_name_char(c: char)
    requires
        c == '/' || c == '\\' || c == ' ' || 'A' as int <= c as int <= 'Z' as int || c as int > 0x7f,
    ensures
        !name_char(c),
{
}

/// Small letters, digits, dots, hyphens and low lines can stand in the name of an
/// image; capital letters, slashes, blanks and what is not ASCII cannot.
pub proof fn names_of_images_are_plain(c: char)
    ensures
        name_char('_'),
        name_char('-'),
        name_char('.'),
        'a' as int <= c as int <= 'z' as int ==> name_char(c),
        '0' as int <= c as int <= '9' as int ==> name_char(c),
        'A' as int <= c as int <= 'Z' as int ==> !name_char(c),
        c as int > 0x7a ==> !name_char(c),
        c as int <= 0x20 ==> !name_char(c),
        !name_char('/'),
        !name_char('\\'),
        !name_char(':'),
        !name_char('%'),
{
}

} // verus!
