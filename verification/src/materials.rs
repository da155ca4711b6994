//! The materials that a drafted answer may rest on: where they come from, and
//! which of them a draft is given.
use crate::attrs::AttrMap;
use crate::text::{
    among, before, before_is_one_way, contains, has, join, joined, joined_text_holds_each_part,
    not_before_chains, precedes, same, take_next, texts, trim, trimmed,
};
use crate::understand::ConditionKey;
use crate::urls::{is_well_formed_https_url, opt_text, well_formed_https};
use vstd::prelude::*;

verus! {

/// One piece of material.
#[derive(Debug, Clone, PartialEq, Eq)]
pub struct AdvisorMaterial {
    pub material_key: String,
    pub kind: String,
    pub title_ja: String,
    pub body_ja: String,
    pub source_url: Option<String>,
    pub category: Option<String>,
    pub product_key: Option<String>,
    pub price_band: Option<String>,
    pub card_description: Option<String>,
    pub card_match_terms: Option<String>,
    /// Where the button of the material's card leads.
    pub product_page_url: Option<String>,
}

/// What a piece of material says.
#[verifier::ext_equal]
pub struct MaterialView {
    pub material_key: Seq<char>,
    pub kind: Seq<char>,
    pub title_ja: Seq<char>,
    pub body_ja: Seq<char>,
    pub source_url: Option<Seq<char>>,
    pub category: Option<Seq<char>>,
    pub product_key: Option<Seq<char>>,
    pub price_band: Option<Seq<char>>,
    pub card_description: Option<Seq<char>>,
    pub card_match_terms: Option<Seq<char>>,
    pub product_page_url: Option<Seq<char>>,
}

impl View for AdvisorMaterial {
    type V = MaterialView;

    open spec fn view(&self) -> MaterialView {
        MaterialView {
            material_key: self.material_key@,
            kind: self.kind@,
            title_ja: self.title_ja@,
            body_ja: self.body_ja@,
            source_url: opt_text(self.source_url),
            category: opt_text(self.category),
            product_key: opt_text(self.product_key),
            price_band: opt_text(self.price_band),
            card_description: opt_text(self.card_description),
            card_match_terms: opt_text(self.card_match_terms),
            product_page_url: opt_text(self.product_page_url),
        }
    }
}

/// What the pieces of material say.
pub open spec fn views(ms: Seq<AdvisorMaterial>) -> Seq<MaterialView> {
    ms.map_values(|m: AdvisorMaterial| m@)
}

fn copy_opt(o: &Option<String>) -> (r: Option<String>)
    ensures
        r == *o,
{
    match o {
        Some(s) => Some(s.clone()),
        None => None,
    }
}

impl AdvisorMaterial {
    /// A copy of this piece of material.
    pub fn copied(&self) -> (r: AdvisorMaterial)
        ensures
            r == *self,
    {
        AdvisorMaterial {
            material_key: self.material_key.clone(),
            kind: self.kind.clone(),
            title_ja: self.title_ja.clone(),
            body_ja: self.body_ja.clone(),
            source_url: copy_opt(&self.source_url),
            category: copy_opt(&self.category),
            product_key: copy_opt(&self.product_key),
            price_band: copy_opt(&self.price_band),
            card_description: copy_opt(&self.card_description),
            card_match_terms: copy_opt(&self.card_match_terms),
            product_page_url: copy_opt(&self.product_page_url),
        }
    }
}

/// The value with the given name, trimmed; none where there is none or it is blank.
pub open spec fn attribute(attrs: Map<Seq<char>, Seq<char>>, name: Seq<char>) -> Option<Seq<char>> {
    if attrs.contains_key(name) && trim(attrs[name]).len() > 0 {
        Some(trim(attrs[name]))
    } else {
        None
    }
}

/// The value with the given name, trimmed; none where there is none or it is blank.
pub fn trimmed_non_empty(attrs: &AttrMap, name: &str) -> (r: Option<String>)
    ensures
        opt_text(r) == attribute(attrs@, name@),
{
    match attrs.get(name) {
        Some(v) => {
            let t = trimmed(v);
            if t.as_str().is_empty() {
                None
            } else {
                Some(t)
            }
        },
        None => None,
    }
}

/// `kind` is one of the kinds of material.
pub open spec fn valid_kind(kind: Seq<char>) -> bool {
    kind == "statistic"@ || kind == "own_product"@ || kind == "partner_product"@ || kind == "scenario"@
}

fn is_valid_kind(kind: &str) -> (r: bool)
    ensures
        r == valid_kind(kind@),
{
    same(kind, "statistic") || same(kind, "own_product") || same(kind, "partner_product") || same(
        kind,
        "scenario",
    )
}

/// Material of this kind has to name its source.
pub open spec fn needs_source(kind: Seq<char>) -> bool {
    kind == "statistic"@ || kind == "partner_product"@
}

/// Whether material of this kind has to name its source.
pub fn kind_requires_source_url(kind: &str) -> (r: bool)
    ensures
        r == needs_source(kind@),
{
    same(kind, "statistic") || same(kind, "partner_product")
}

/// The material that attributes describe, given whether the source and the
/// product page that they name are sound addresses. A missing key, kind, title
/// or body, an unknown kind, and a source that is missing where it is needed or
/// is not sound make it no material; a product page that is not sound is left out.
pub open spec fn material_given(
    attrs: Map<Seq<char>, Seq<char>>,
    source_ok: bool,
    page_ok: bool,
) -> Option<MaterialView> {
    let source = attribute(attrs, "source_url"@);
    let page = attribute(attrs, "product_page_url"@);
    match (
        attribute(attrs, "material_key"@),
        attribute(attrs, "kind"@),
        attribute(attrs, "title_ja"@),
        attribute(attrs, "body_ja"@),
    ) {
        (Some(material_key), Some(kind), Some(title_ja), Some(body_ja)) => {
            if !valid_kind(kind) || (needs_source(kind) && source is None) || (source is Some
                && !source_ok) {
                None
            } else {
                Some(
                    (MaterialView {
                        material_key,
                        kind,
                        title_ja,
                        body_ja,
                        source_url: source,
                        category: attribute(attrs, "category"@),
                        product_key: attribute(attrs, "product_key"@),
                        price_band: attribute(attrs, "price_band"@),
                        card_description: attribute(attrs, "card_description"@),
                        card_match_terms: attribute(attrs, "card_match_terms"@),
                        product_page_url: if page_ok {
                            page
                        } else {
                            None
                        },
                    }),
                )
            }
        },
        _ => None,
    }
}

/// The address with the given name is sound.
pub open spec fn sound(attrs: Map<Seq<char>, Seq<char>>, name: Seq<char>) -> bool {
    match attribute(attrs, name) {
        Some(url) => well_formed_https(url),
        None => false,
    }
}

/// The material that attributes describe.
pub open spec fn material_of(attrs: Map<Seq<char>, Seq<char>>) -> Option<MaterialView> {
    material_given(attrs, sound(attrs, "source_url"@), sound(attrs, "product_page_url"@))
}

/// `r` says what `v` says.
pub open spec fn shows(r: Option<AdvisorMaterial>, v: Option<MaterialView>) -> bool {
    match r {
        Some(m) => v == Some(m@),
        None => v is None,
    }
}

/// The material that the attributes describe, given whether the source and the
/// product page that they name are sound addresses.
pub fn assemble_material(attrs: &AttrMap, source_ok: bool, page_ok: bool) -> (r: Option<AdvisorMaterial>)
    ensures
        shows(r, material_given(attrs@, source_ok, page_ok)),
{
    let material_key = match trimmed_non_empty(attrs, "material_key") {
        Some(v) => v,
        None => return None,
    };
    let kind = match trimmed_non_empty(attrs, "kind") {
        Some(v) => v,
        None => return None,
    };
    let title_ja = match trimmed_non_empty(attrs, "title_ja") {
        Some(v) => v,
        None => return None,
    };
    let body_ja = match trimmed_non_empty(attrs, "body_ja") {
        Some(v) => v,
        None => return None,
    };
    if !is_valid_kind(kind.as_str()) {
        return None;
    }
    let source_url = trimmed_non_empty(attrs, "source_url");
    if kind_requires_source_url(kind.as_str()) && source_url.is_none() {
        return None;
    }
    if source_url.is_some() && !source_ok {
        return None;
    }
    let product_page_url = if page_ok {
        trimmed_non_empty(attrs, "product_page_url")
    } else {
        None
    };
    Some(
        AdvisorMaterial {
            material_key,
            kind,
            title_ja,
            body_ja,
            source_url,
            category: trimmed_non_empty(attrs, "category"),
            product_key: trimmed_non_empty(attrs, "product_key"),
            price_band: trimmed_non_empty(attrs, "price_band"),
            card_description: trimmed_non_empty(attrs, "card_description"),
            card_match_terms: trimmed_non_empty(attrs, "card_match_terms"),
            product_page_url,
        },
    )
}

fn is_sound(attrs: &AttrMap, name: &str) -> (r: bool)
    ensures
        r == sound(attrs@, name@),
{
    match trimmed_non_empty(attrs, name) {
        Some(url) => is_well_formed_https_url(url.as_str()),
        None => false,
    }
}

impl AdvisorMaterial {
    /// The material that the attributes of a node describe.
    pub fn from_attributes(attrs: &AttrMap) -> (r: Option<AdvisorMaterial>)
        ensures
            shows(r, material_of(attrs@)),
    {
        let source_ok = is_sound(attrs, "source_url");
        let page_ok = is_sound(attrs, "product_page_url");
        assemble_material(attrs, source_ok, page_ok)
    }
}

/// What is wrong with the attributes of a material.
#[derive(Debug, Clone, Copy, PartialEq, Eq, Structural)]
pub enum MaterialFault {
    /// The key, the kind, the title or the body is missing.
    Incomplete,
    /// The kind is none of the kinds of material.
    UnknownKind,
    /// The kind needs a source, and there is none.
    SourceMissing,
    /// The source is not a sound address.
    SourceUnsound,
    /// The product page is not a sound address.
    PageUnsound,
}

/// What is wrong with attributes, the gravest fault first.
pub open spec fn fault_in(attrs: Map<Seq<char>, Seq<char>>) -> Option<MaterialFault> {
    let source = attribute(attrs, "source_url"@);
    let page = attribute(attrs, "product_page_url"@);
    if attribute(attrs, "material_key"@) is None || attribute(attrs, "kind"@) is None || attribute(
        attrs,
        "title_ja"@,
    ) is None || attribute(attrs, "body_ja"@) is None {
        Some(MaterialFault::Incomplete)
    } else if !valid_kind(attribute(attrs, "kind"@)->0) {
        Some(MaterialFault::UnknownKind)
    } else if needs_source(attribute(attrs, "kind"@)->0) && source is None {
        Some(MaterialFault::SourceMissing)
    } else if source is Some && !well_formed_https(source->0) {
        Some(MaterialFault::SourceUnsound)
    } else if page is Some && !well_formed_https(page->0) {
        Some(MaterialFault::PageUnsound)
    } else {
        None
    }
}

/// What is wrong with the attributes of a node, so that it can be told to whoever
/// looks after them. All faults but that of the product page keep the node from
/// being material.
pub fn material_fault(attrs: &AttrMap) -> (r: Option<MaterialFault>)
    ensures
        r == fault_in(attrs@),
        material_of(attrs@) is None <==> r is Some && r != Some(MaterialFault::PageUnsound),
{
    let kind = match trimmed_non_empty(attrs, "kind") {
        Some(v) => v,
        None => return Some(MaterialFault::Incomplete),
    };
    if trimmed_non_empty(attrs, "material_key").is_none() || trimmed_non_empty(
        attrs,
        "title_ja",
    ).is_none() || trimmed_non_empty(attrs, "body_ja").is_none() {
        return Some(MaterialFault::Incomplete);
    }
    if !is_valid_kind(kind.as_str()) {
        return Some(MaterialFault::UnknownKind);
    }
    match trimmed_non_empty(attrs, "source_url") {
        Some(url) => {
            if !is_well_formed_https_url(url.as_str()) {
                return Some(MaterialFault::SourceUnsound);
            }
        },
        None => {
            if kind_requires_source_url(kind.as_str()) {
                return Some(MaterialFault::SourceMissing);
            }
        },
    }
    match trimmed_non_empty(attrs, "product_page_url") {
        Some(url) => {
            if !is_well_formed_https_url(url.as_str()) {
                return Some(MaterialFault::PageUnsound);
            }
        },
        None => {},
    }
    None
}

/// What is accepted as material is complete, of a known kind, and names only
/// sound addresses; where its kind needs a source, it has one.
pub proof fn accepted_material_is_sound(attrs: Map<Seq<char>, Seq<char>>)
    requires
        material_of(attrs) is Some,
    ensures
        ({
            let m = material_of(attrs)->0;
            &&& m.material_key.len() > 0
            &&& m.title_ja.len() > 0
            &&& m.body_ja.len() > 0
            &&& valid_kind(m.kind)
            &&& needs_source(m.kind) ==> m.source_url is Some
            &&& m.source_url is Some ==> well_formed_https(m.source_url->0)
            &&& m.product_page_url is Some ==> well_formed_https(m.product_page_url->0)
        }),
{
}

/// A product page that is not sound costs the material nothing but the page.
pub proof fn unsound_page_costs_only_the_page(
    attrs: Map<Seq<char>, Seq<char>>,
    source_ok: bool,
)
    ensures
        match (material_given(attrs, source_ok, true), material_given(attrs, source_ok, false)) {
            (Some(with), Some(without)) => without == (MaterialView { product_page_url: None, ..with }),
            (None, None) => true,
            _ => false,
        },
{
}

/// The words of a search: the question and the values of the conditions.
pub open spec fn search_words(query: Seq<char>, conditions: Seq<(ConditionKey, String)>) -> Seq<
    Seq<char>,
> {
    seq![query] + conditions.map_values(|c: (ConditionKey, String)| c.1@)
}

/// What is searched for: the question, then the values of the conditions, with
/// a space before each.
pub fn build_material_search_text(query: &str, conditions: &[(ConditionKey, String)]) -> (r: String)
    ensures
        r@ == join(search_words(query@, conditions@), " "@),
{
    let mut parts: Vec<String> = Vec::new();
    parts.push(query.to_owned());
    let mut i: usize = 0;
    while i < conditions.len()
        invariant
            i <= conditions.len(),
            texts(parts@) =~= search_words(query@, conditions@.take(i as int)),
        decreases conditions.len() - i,
    {
        proof {
            take_next(conditions@, i as int);
        }
        let ghost p0 = parts@;
        parts.push(conditions[i].1.clone());
        proof {
            let f = |c: (ConditionKey, String)| c.1@;
            assert(texts(parts@) =~= texts(p0).push(conditions@[i as int].1@));
            assert(conditions@.take(i + 1).map_values(f) =~= conditions@.take(i as int).map_values(
                f,
            ).push(conditions@[i as int].1@));
        }
        i = i + 1;
    }
    assert(conditions@.take(conditions@.len() as int) =~= conditions@);
    joined(parts.as_slice(), " ")
}

/// What a search found: the id of a node, where it has one.
#[derive(Debug, Clone, PartialEq, Eq)]
pub struct SearchHit {
    pub id: Option<String>,
}

/// A node of the store with its attributes.
#[derive(Debug, Clone)]
pub struct NodeResult {
    pub node_id: String,
    pub attributes: AttrMap,
}

/// What the id of a node of the given kind holds.
pub open spec fn kind_mark(kind: Seq<char>) -> Seq<char> {
    seq![':'] + kind + seq![':']
}

/// What the id of a node of the given kind holds.
pub fn kind_marker(kind: &str) -> (r: String)
    ensures
        r@ == kind_mark(kind@),
{
    let mut r = String::new();
    r.push(':');
    r.append(kind);
    r.push(':');
    assert(r@ =~= kind_mark(kind@));
    r
}

/// A later node has the id of the node at `i`, and takes its place.
pub open spec fn superseded(nodes: Seq<NodeResult>, i: int) -> bool {
    exists|j: int| i < j < nodes.len() && (#[trigger] nodes[j]).node_id@ == nodes[i].node_id@
}

/// The attributes of the node with the given id.
pub open spec fn attributes_of(nodes: Seq<NodeResult>, id: Seq<char>) -> Option<
    Map<Seq<char>, Seq<char>>,
>
    decreases nodes.len(),
{
    if nodes.len() == 0 {
        None
    } else if nodes.last().node_id@ == id {
        Some(nodes.last().attributes@)
    } else {
        attributes_of(nodes.drop_last(), id)
    }
}

/// The material that a hit stands for: its id is that of a material, and its
/// node describes one.
pub open spec fn material_of_hit(hit: SearchHit, nodes: Seq<NodeResult>) -> Option<MaterialView> {
    match opt_text(hit.id) {
        Some(id) => if contains(id, kind_mark("advisor_material"@)) {
            match attributes_of(nodes, id) {
                Some(attrs) => material_of(attrs),
                None => None,
            }
        } else {
            None
        },
        None => None,
    }
}

/// The materials that the hits stand for, in the order of the hits.
pub open spec fn materials_of_hits(hits: Seq<SearchHit>, nodes: Seq<NodeResult>) -> Seq<MaterialView>
    decreases hits.len(),
{
    if hits.len() == 0 {
        Seq::empty()
    } else {
        let rest = materials_of_hits(hits.drop_last(), nodes);
        match material_of_hit(hits.last(), nodes) {
            Some(m) => rest.push(m),
            None => rest,
        }
    }
}

fn find_node<'a>(nodes: &'a [NodeResult], id: &str) -> (r: Option<&'a AttrMap>)
    ensures
        match r {
            Some(a) => attributes_of(nodes@, id@) == Some(a@),
            None => attributes_of(nodes@, id@) is None,
        },
{
    let mut i: usize = nodes.len();
    assert(nodes@.take(i as int) =~= nodes@);
    while i > 0
        invariant
            i <= nodes.len(),
            attributes_of(nodes@, id@) == attributes_of(nodes@.take(i as int), id@),
        decreases i,
    {
        proof {
            take_next(nodes@, i - 1);
        }
        if same(nodes[i - 1].node_id.as_str(), id) {
            return Some(&nodes[i - 1].attributes);
        }
        i = i - 1;
    }
    None
}

/// The materials that the hits stand for, in the order of the hits. Hits on
/// anything but material are passed over.
pub fn select_materials_from_hits(hits: &[SearchHit], nodes: &[NodeResult]) -> (r: Vec<
    AdvisorMaterial,
>)
    ensures
        views(r@) == materials_of_hits(hits@, nodes@),
{
    let marker = kind_marker("advisor_material");
    let mut r: Vec<AdvisorMaterial> = Vec::new();
    let mut i: usize = 0;
    assert(views(r@) =~= materials_of_hits(hits@.take(0), nodes@));
    while i < hits.len()
        invariant
            i <= hits.len(),
            marker@ == kind_mark("advisor_material"@),
            views(r@) == materials_of_hits(hits@.take(i as int), nodes@),
        decreases hits.len() - i,
    {
        proof {
            take_next(hits@, i as int);
        }
        if let Some(id) = &hits[i].id {
            if has(id.as_str(), marker.as_str()) {
                if let Some(attrs) = find_node(nodes, id.as_str()) {
                    if let Some(m) = AdvisorMaterial::from_attributes(attrs) {
                        let ghost r0 = r@;
                        let ghost v0 = m@;
                        r.push(m);
                        assert(views(r@) =~= views(r0).push(v0));
                    }
                }
            }
        }
        i = i + 1;
    }
    assert(hits@.take(hits@.len() as int) =~= hits@);
    r
}

/// `ms` with `m` put in by its key: behind everything whose key does not come
/// after its own.
pub open spec fn put_in(ms: Seq<MaterialView>, m: MaterialView) -> Seq<MaterialView>
    decreases ms.len(),
{
    if ms.len() == 0 || !before(m.material_key, ms.last().material_key) {
        ms.push(m)
    } else {
        put_in(ms.drop_last(), m).push(ms.last())
    }
}

/// `ms` in the order of their keys; materials with one key keep their order.
pub open spec fn by_key(ms: Seq<MaterialView>) -> Seq<MaterialView>
    decreases ms.len(),
{
    if ms.len() == 0 {
        ms
    } else {
        put_in(by_key(ms.drop_last()), ms.last())
    }
}

/// No material comes behind one with a later key.
pub open spec fn in_key_order(ms: Seq<MaterialView>) -> bool {
    forall|i: int, j: int|
        0 <= i < j < ms.len() ==> !before(
            (#[trigger] ms[j]).material_key,
            (#[trigger] ms[i]).material_key,
        )
}

proof fn put_in_keeps_order(ms: Seq<MaterialView>, m: MaterialView)
    requires
        in_key_order(ms),
    ensures
        in_key_order(put_in(ms, m)),
        put_in(ms, m).to_multiset() =~= ms.to_multiset().insert(m),
        put_in(ms, m).len() == ms.len() + 1,
    decreases ms.len(),
{
    broadcast use vstd::seq_lib::group_to_multiset_ensures;

    if ms.len() == 0 || !before(m.material_key, ms.last().material_key) {
        let r = ms.push(m);
        assert forall|i: int, j: int| 0 <= i < j < r.len() implies !before(
            (#[trigger] r[j]).material_key,
            (#[trigger] r[i]).material_key,
        ) by {
            if j == ms.len() {
                let l = ms.last();
                if i < ms.len() - 1 {
                    assert(!before(ms[ms.len() - 1].material_key, ms[i].material_key));
                }
                if i == ms.len() - 1 {
                } else {
                    not_before_chains(m.material_key, l.material_key, ms[i].material_key);
                }
            }
        }
    } else {
        let head = ms.drop_last();
        let l = ms.last();
        assert(in_key_order(head)) by {
            assert forall|i: int, j: int| 0 <= i < j < head.len() implies !before(
                (#[trigger] head[j]).material_key,
                (#[trigger] head[i]).material_key,
            ) by {
                assert(!before(ms[j].material_key, ms[i].material_key));
            }
        }
        put_in_keeps_order(head, m);
        let h = put_in(head, m);
        let r = h.push(l);
        before_is_one_way(m.material_key, l.material_key);
        assert forall|i: int, j: int| 0 <= i < j < r.len() implies !before(
            (#[trigger] r[j]).material_key,
            (#[trigger] r[i]).material_key,
        ) by {
            if j == h.len() {
                assert(h.to_multiset().count(h[i]) > 0) by {
                    assert(h.contains(h[i]));
                }
                if h[i] != m {
                    assert(head.to_multiset().count(h[i]) > 0);
                    assert(head.contains(h[i]));
                    let k = choose|k: int| 0 <= k < head.len() && head[k] == h[i];
                    assert(!before(ms[ms.len() - 1].material_key, ms[k].material_key));
                }
            } else {
                assert(!before(h[j].material_key, h[i].material_key));
            }
        }
        assert(ms =~= head.push(l));
        assert(r.to_multiset() =~= h.to_multiset().insert(l));
        assert(ms.to_multiset() =~= head.to_multiset().insert(l));
    }
}

/// Ordering by key gives the same materials, each as often as before, in the
/// order of their keys.
pub proof fn by_key_orders(ms: Seq<MaterialView>)
    ensures
        in_key_order(by_key(ms)),
        by_key(ms).to_multiset() =~= ms.to_multiset(),
        by_key(ms).len() == ms.len(),
    decreases ms.len(),
{
    broadcast use vstd::seq_lib::group_to_multiset_ensures;

    if ms.len() > 0 {
        by_key_orders(ms.drop_last());
        put_in_keeps_order(by_key(ms.drop_last()), ms.last());
        assert(ms =~= ms.drop_last().push(ms.last()));
    }
}

fn insert_by_key(ms: &mut Vec<AdvisorMaterial>, m: AdvisorMaterial)
    ensures
        views(final(ms)@) == put_in(views(old(ms)@), m@),
{
    let ghost before_call = views(ms@);
    let n: usize = ms.len();
    let mut i: usize = n;
    proof {
        assert(before_call.take(n as int) =~= before_call);
        assert(before_call.skip(n as int) =~= Seq::<MaterialView>::empty());
        assert(put_in(before_call, m@) =~= put_in(before_call.take(n as int), m@)
            + before_call.skip(n as int));
    }
    while i > 0 && precedes(m.material_key.as_str(), ms[i - 1].material_key.as_str())
        invariant
            i <= n == ms.len(),
            before_call == views(ms@),
            put_in(before_call, m@) == put_in(before_call.take(i as int), m@) + before_call.skip(
                i as int,
            ),
        decreases i,
    {
        proof {
            take_next(before_call, i - 1);
            let head = before_call.take(i - 1);
            assert(put_in(head, m@).push(before_call[i - 1]) + before_call.skip(i as int)
                =~= put_in(head, m@) + before_call.skip(i - 1));
        }
        i = i - 1;
    }
    proof {
        if i > 0 {
            take_next(before_call, i - 1);
        }
        assert(put_in(before_call.take(i as int), m@) == before_call.take(i as int).push(m@));
    }
    let ghost v0 = m@;
    let ghost ms0 = ms@;
    ms.insert(i, m);
    assert(views(ms@) =~= before_call.take(i as int).push(v0) + before_call.skip(i as int)) by {
        assert(ms@ =~= ms0.insert(i as int, m));
    }
}

/// The nodes from `i` on that no later node supersedes.
pub open spec fn current_from(nodes: Seq<NodeResult>, i: int) -> Seq<NodeResult>
    decreases nodes.len() - i,
{
    if i < 0 || i >= nodes.len() {
        Seq::empty()
    } else if superseded(nodes, i) {
        current_from(nodes, i + 1)
    } else {
        seq![nodes[i]] + current_from(nodes, i + 1)
    }
}

/// The materials of the given kinds that the nodes describe.
pub open spec fn materials_in(nodes: Seq<NodeResult>, kinds: Seq<Seq<char>>) -> Seq<MaterialView>
    decreases nodes.len(),
{
    if nodes.len() == 0 {
        Seq::empty()
    } else {
        let rest = materials_in(nodes.drop_last(), kinds);
        match material_of(nodes.last().attributes@) {
            Some(m) => if kinds.contains(m.kind) {
                rest.push(m)
            } else {
                rest
            },
            None => rest,
        }
    }
}

/// The materials of the given kinds that the nodes describe, in the order of
/// their keys; of nodes with one id the last counts.
pub open spec fn materials_of_kinds(nodes: Seq<NodeResult>, kinds: Seq<Seq<char>>) -> Seq<
    MaterialView,
> {
    by_key(materials_in(current_from(nodes, 0), kinds))
}

fn is_superseded(nodes: &[NodeResult], i: usize) -> (r: bool)
    requires
        i < nodes.len(),
    ensures
        r == superseded(nodes@, i as int),
{
    let mut j: usize = i + 1;
    while j < nodes.len()
        invariant
            i < j <= nodes.len(),
            forall|k: int| i < k < j ==> (#[trigger] nodes@[k]).node_id@ != nodes@[i as int].node_id@,
        decreases nodes.len() - j,
    {
        if same(nodes[j].node_id.as_str(), nodes[i].node_id.as_str()) {
            return true;
        }
        j = j + 1;
    }
    false
}

/// The materials of the given kinds that the nodes describe, in the order of
/// their keys; of nodes with one id the last counts.
pub fn select_materials_of_kinds(nodes: &[NodeResult], kinds: &[String]) -> (r: Vec<AdvisorMaterial>)
    ensures
        views(r@) == materials_of_kinds(nodes@, texts(kinds@)),
        in_key_order(views(r@)),
{
    let ghost ks = texts(kinds@);
    let mut r: Vec<AdvisorMaterial> = Vec::new();
    let mut i: usize = 0;
    let ghost mut seen: Seq<NodeResult> = Seq::empty();
    assert(seen + current_from(nodes@, 0) =~= current_from(nodes@, 0));
    assert(views(r@) =~= by_key(materials_in(seen, ks)));
    while i < nodes.len()
        invariant
            i <= nodes.len(),
            ks == texts(kinds@),
            seen + current_from(nodes@, i as int) == current_from(nodes@, 0),
            views(r@) == by_key(materials_in(seen, ks)),
        decreases nodes.len() - i,
    {
        if !is_superseded(nodes, i) {
            proof {
                let old_seen = seen;
                assert(seen + (seq![nodes@[i as int]] + current_from(nodes@, i + 1)) =~= seen.push(
                    nodes@[i as int],
                ) + current_from(nodes@, i + 1));
                seen = seen.push(nodes@[i as int]);
                assert(seen.drop_last() =~= old_seen);
            }
            if let Some(m) = AdvisorMaterial::from_attributes(&nodes[i].attributes) {
                if among(kinds, m.kind.as_str()) {
                    proof {
                        let base = materials_in(seen.drop_last(), ks);
                        assert(base.push(m@).drop_last() =~= base);
                    }
                    insert_by_key(&mut r, m);
                }
            }
        }
        i = i + 1;
    }
    proof {
        assert(seen + Seq::<NodeResult>::empty() =~= seen);
        by_key_orders(materials_in(seen, ks));
    }
    r
}

/// The materials of the given kind that the nodes describe, in the order of
/// their keys.
pub fn select_materials_of_kind(nodes: &[NodeResult], kind: &str) -> (r: Vec<AdvisorMaterial>)
    ensures
        views(r@) == materials_of_kinds(nodes@, seq![kind@]),
        in_key_order(views(r@)),
{
    let mut kinds: Vec<String> = Vec::new();
    kinds.push(kind.to_owned());
    assert(texts(kinds@) =~= seq![kind@]);
    select_materials_of_kinds(nodes, kinds.as_slice())
}

/// The kinds of material that are offered by category.
pub open spec fn pool_kinds() -> Seq<Seq<char>> {
    seq!["statistic"@, "partner_product"@, "scenario"@]
}

/// What a search and a listing of nodes give: the materials that the search hit,
/// the own products, and the materials that are offered by category. Where
/// either of the two failed, there is nothing.
pub fn materials_from_results(
    search_result: Result<Vec<SearchHit>, String>,
    nodes_result: Result<Vec<NodeResult>, String>,
) -> (r: (Vec<AdvisorMaterial>, Vec<AdvisorMaterial>, Vec<AdvisorMaterial>))
    ensures
        match (search_result, nodes_result) {
            (Ok(hits), Ok(nodes)) => {
                &&& views(r.0@) == materials_of_hits(hits@, nodes@)
                &&& views(r.1@) == materials_of_kinds(nodes@, seq!["own_product"@])
                &&& views(r.2@) == materials_of_kinds(nodes@, pool_kinds())
            },
            _ => r.0@.len() == 0 && r.1@.len() == 0 && r.2@.len() == 0,
        },
{
    let hits = match search_result {
        Ok(hits) => hits,
        Err(_) => return (Vec::new(), Vec::new(), Vec::new()),
    };
    let nodes = match nodes_result {
        Ok(nodes) => nodes,
        Err(_) => return (Vec::new(), Vec::new(), Vec::new()),
    };
    let searched = select_materials_from_hits(hits.as_slice(), nodes.as_slice());
    let own_products = select_materials_of_kind(nodes.as_slice(), "own_product");
    let mut kinds: Vec<String> = Vec::new();
    kinds.push("statistic".to_owned());
    kinds.push("partner_product".to_owned());
    kinds.push("scenario".to_owned());
    assert(texts(kinds@) =~= pool_kinds());
    let category_pool = select_materials_of_kinds(nodes.as_slice(), kinds.as_slice());
    (searched, own_products, category_pool)
}

/// The signals of a conversation, each once.
#[derive(Debug, Clone)]
pub struct SignalSet {
    pub signals: Vec<String>,
}

impl SignalSet {
    /// The signals, as a set.
    pub open spec fn members(&self) -> Set<Seq<char>> {
        texts(self.signals@).to_set()
    }

    /// No signal is there twice.
    pub open spec fn well_formed(&self) -> bool {
        texts(self.signals@).no_duplicates()
    }

    /// Whether the signal is there.
    pub fn contains(&self, signal: &str) -> (r: bool)
        ensures
            r == self.members().contains(signal@),
    {
        let r = among(self.signals.as_slice(), signal);
        proof {
            let t = texts(self.signals@);
            if r {
                let i = choose|i: int| 0 <= i < t.len() && t[i] == signal@;
                assert(t.to_set().contains(t[i]));
            }
        }
        r
    }

    /// How many signals there are.
    pub fn len(&self) -> (r: usize)
        requires
            self.well_formed(),
        ensures
            r == self.members().len(),
    {
        proof {
            texts(self.signals@).unique_seq_to_set();
        }
        self.signals.len()
    }

    /// Whether all signals of `self` are signals of `other`.
    pub fn within(&self, other: &SignalSet) -> (r: bool)
        ensures
            r == self.members().subset_of(other.members()),
    {
        let mut i: usize = 0;
        while i < self.signals.len()
            invariant
                i <= self.signals.len(),
                forall|j: int| 0 <= j < i ==> other.members().contains((#[trigger] self.signals@[j])@),
            decreases self.signals.len() - i,
        {
            if !other.contains(self.signals[i].as_str()) {
                assert(texts(self.signals@)[i as int] == self.signals@[i as int]@);
                assert(self.members().contains(self.signals@[i as int]@));
                return false;
            }
            i = i + 1;
        }
        assert forall|t: Seq<char>| self.members().contains(t) implies other.members().contains(t) by {
            let k = choose|k: int| 0 <= k < texts(self.signals@).len() && texts(self.signals@)[k] == t;
            assert(self.signals@[k]@ == t);
        }
        true
    }
}

/// A condition as a signal: its name, a colon and its value.
pub open spec fn signal_of(c: (ConditionKey, String)) -> Seq<char> {
    c.0.name() + seq![':'] + c.1@
}

/// A condition as a signal: its name, a colon and its value.
pub fn condition_signal(key: ConditionKey, value: &str) -> (r: String)
    ensures
        r@ == key.name() + seq![':'] + value@,
{
    let mut r = key.as_str().to_owned();
    r.push(':');
    r.append(value);
    assert(r@ =~= key.name() + seq![':'] + value@);
    r
}

/// The signals of the conditions.
pub open spec fn condition_signals(conditions: Seq<(ConditionKey, String)>) -> Set<Seq<char>> {
    conditions.map_values(|c: (ConditionKey, String)| signal_of(c)).to_set()
}

/// The conditions as signals.
pub fn conditions_to_signal_set(conditions: &[(ConditionKey, String)]) -> (r: SignalSet)
    ensures
        r.well_formed(),
        r.members() == condition_signals(conditions@),
{
    let mut r: SignalSet = SignalSet { signals: Vec::new() };
    let mut i: usize = 0;
    while i < conditions.len()
        invariant
            i <= conditions.len(),
            r.well_formed(),
            forall|j: int| 0 <= j < i ==> r.members().contains(signal_of(#[trigger] conditions@[j])),
            forall|k: int|
                0 <= k < r.signals@.len() ==> exists|j: int|
                    0 <= j < conditions@.len() && signal_of(#[trigger] conditions@[j])
                        == (#[trigger] r.signals@[k])@,
        decreases conditions.len() - i,
    {
        let signal = condition_signal(conditions[i].0, conditions[i].1.as_str());
        assert(signal@ == signal_of(conditions@[i as int]));
        if !r.contains(signal.as_str()) {
            let ghost before_push = r.signals@;
            let ghost t0 = signal@;
            r.signals.push(signal);
            proof {
                let a = texts(before_push);
                let b = texts(r.signals@);
                assert(b =~= a.push(t0));
                assert(!a.contains(t0)) by {
                    if a.contains(t0) {
                        assert(a.to_set().contains(t0));
                    }
                }
                assert forall|t: Seq<char>| a.to_set().contains(t) implies b.to_set().contains(t) by {
                    let k = choose|k: int| 0 <= k < a.len() && a[k] == t;
                    assert(b[k] == t);
                }
                assert(b[a.len() as int] == t0);
                assert(b.to_set().contains(t0));
                assert forall|k: int| 0 <= k < r.signals@.len() implies exists|j: int|
                    0 <= j < conditions@.len() && signal_of(#[trigger] conditions@[j])
                        == (#[trigger] r.signals@[k])@ by {
                    if k < before_push.len() {
                        assert(r.signals@[k] == before_push[k]);
                    } else {
                        assert(signal_of(conditions@[i as int]) == r.signals@[k]@);
                    }
                }
            }
        }
        i = i + 1;
    }
    proof {
        let all = conditions@.map_values(|c: (ConditionKey, String)| signal_of(c));
        assert forall|t: Seq<char>| r.members().contains(t) <==> all.to_set().contains(t) by {
            if r.members().contains(t) {
                let k = choose|k: int| 0 <= k < texts(r.signals@).len() && texts(r.signals@)[k] == t;
                assert(r.signals@[k]@ == t);
                let j = choose|j: int|
                    0 <= j < conditions@.len() && signal_of(#[trigger] conditions@[j])
                        == r.signals@[k]@;
                assert(all[j] == t);
            }
            if all.to_set().contains(t) {
                let j = choose|j: int| 0 <= j < all.len() && all[j] == t;
                assert(signal_of(conditions@[j]) == t);
            }
        }
        assert(r.members() =~= condition_signals(conditions@));
    }
    r
}

/// An answer that was approved for a set of signals.
#[derive(Debug, Clone)]
pub struct KnownResolution {
    pub id: String,
    pub signal_set: SignalSet,
    pub answer: String,
}

/// The first resolution for just the signals of the conditions. One whose
/// signals differ from those of the conditions, on either side, does not apply.
pub fn match_advisor_known_resolution<'a>(
    resolutions: &'a [KnownResolution],
    conditions: &[(ConditionKey, String)],
) -> (r: Option<&'a KnownResolution>)
    ensures
        match r {
            Some(kr) => exists|i: int|
                {
                    &&& 0 <= i < resolutions@.len()
                    &&& *kr == #[trigger] resolutions@[i]
                    &&& kr.signal_set.members() == condition_signals(conditions@)
                    &&& forall|j: int|
                        0 <= j < i ==> (#[trigger] resolutions@[j]).signal_set.members()
                            != condition_signals(conditions@)
                },
            None => forall|j: int|
                0 <= j < resolutions@.len() ==> (#[trigger] resolutions@[j]).signal_set.members()
                    != condition_signals(conditions@),
        },
{
    let asked = conditions_to_signal_set(conditions);
    let mut i: usize = 0;
    while i < resolutions.len()
        invariant
            i <= resolutions.len(),
            asked.members() == condition_signals(conditions@),
            forall|j: int|
                0 <= j < i ==> (#[trigger] resolutions@[j]).signal_set.members()
                    != condition_signals(conditions@),
        decreases resolutions.len() - i,
    {
        let candidate = &resolutions[i];
        if candidate.signal_set.within(&asked) && asked.within(&candidate.signal_set) {
            assert(candidate.signal_set.members() =~= asked.members());
            assert(*candidate == resolutions@[i as int]);
            return Some(candidate);
        }
        i = i + 1;
    }
    None
}

/// The material that a known resolution makes. It never has a card.
pub open spec fn resolution_view(id: Seq<char>, answer: Seq<char>) -> MaterialView {
    MaterialView {
        material_key: "known_resolution:"@ + id,
        kind: "known_resolution"@,
        title_ja: "過去の相談から"@,
        body_ja: answer,
        source_url: None,
        category: None,
        product_key: None,
        price_band: None,
        card_description: None,
        card_match_terms: None,
        product_page_url: None,
    }
}

/// The material that a known resolution makes.
pub fn known_resolution_to_material(kr: &KnownResolution) -> (r: AdvisorMaterial)
    ensures
        r@ == resolution_view(kr.id@, kr.answer@),
{
    let mut material_key = "known_resolution:".to_owned();
    material_key.append(kr.id.as_str());
    AdvisorMaterial {
        material_key,
        kind: "known_resolution".to_owned(),
        title_ja: "過去の相談から".to_owned(),
        body_ja: kr.answer.clone(),
        source_url: None,
        category: None,
        product_key: None,
        price_band: None,
        card_description: None,
        card_match_terms: None,
        product_page_url: None,
    }
}

/// Appends copies of the materials of `more`.
fn append_all(ms: &mut Vec<AdvisorMaterial>, more: &[AdvisorMaterial])
    ensures
        final(ms)@ == old(ms)@ + more@,
{
    let ghost start = ms@;
    let mut i: usize = 0;
    while i < more.len()
        invariant
            i <= more.len(),
            ms@ =~= start + more@.take(i as int),
        decreases more.len() - i,
    {
        let m = more[i].copied();
        ms.push(m);
        i = i + 1;
    }
    assert(more@.take(more@.len() as int) =~= more@);
}

/// The materials that the search hit, behind the material of the known
/// resolution where there is one.
pub open spec fn composed_of(kr: Option<&KnownResolution>, searched: Seq<MaterialView>) -> Seq<
    MaterialView,
> {
    match kr {
        Some(k) => seq![resolution_view(k.id@, k.answer@)] + searched,
        None => searched,
    }
}

/// The materials that the search hit, behind the material of the known
/// resolution where there is one.
pub fn compose_materials(kr: Option<&KnownResolution>, searched: Vec<AdvisorMaterial>) -> (r: Vec<
    AdvisorMaterial,
>)
    ensures
        views(r@) == composed_of(kr, views(searched@)),
        r@.skip(r@.len() - searched@.len()) == searched@,
{
    match kr {
        Some(k) => {
            let mut composed: Vec<AdvisorMaterial> = Vec::new();
            composed.push(known_resolution_to_material(k));
            let ghost first = composed@;
            append_all(&mut composed, searched.as_slice());
            assert(composed@ =~= first + searched@);
            assert(composed@.skip(1) =~= searched@);
            assert(views(composed@) =~= composed_of(kr, views(searched@)));
            composed
        },
        None => {
            assert(searched@.skip(0) =~= searched@);
            searched
        },
    }
}

/// One of the conditions is of the given kind.
pub open spec fn has_condition(conditions: Seq<(ConditionKey, String)>, key: ConditionKey) -> bool {
    exists|i: int| 0 <= i < conditions.len() && (#[trigger] conditions[i]).0 == key
}

/// The value of the first condition of the given kind.
pub open spec fn first_value(conditions: Seq<(ConditionKey, String)>, key: ConditionKey) -> Option<
    Seq<char>,
>
    decreases conditions.len(),
{
    if conditions.len() == 0 {
        None
    } else if conditions[0].0 == key {
        Some(conditions[0].1@)
    } else {
        first_value(conditions.drop_first(), key)
    }
}

/// The value of the first condition of the given kind.
pub fn value_of<'a>(conditions: &'a [(ConditionKey, String)], key: ConditionKey) -> (r: Option<&'a str>)
    ensures
        match r {
            Some(v) => first_value(conditions@, key) == Some(v@),
            None => first_value(conditions@, key) is None,
        },
        r is Some <==> has_condition(conditions@, key),
{
    let mut i: usize = 0;
    assert(conditions@.skip(0) =~= conditions@);
    while i < conditions.len()
        invariant
            i <= conditions.len(),
            first_value(conditions@, key) == first_value(conditions@.skip(i as int), key),
            forall|j: int| 0 <= j < i ==> (#[trigger] conditions@[j]).0 != key,
        decreases conditions.len() - i,
    {
        assert(conditions@.skip(i as int)[0] == conditions@[i as int]);
        assert(conditions@.skip(i as int).drop_first() =~= conditions@.skip(i + 1));
        if conditions[i].0 == key {
            return Some(conditions[i].1.as_str());
        }
        i = i + 1;
    }
    None
}

/// Whether the own products are offered whatever the search hit: the customer
/// asks for products, or what they worry about is known.
pub fn should_guarantee_own_products(
    product_intent: bool,
    conditions: &[(ConditionKey, String)],
) -> (r: bool)
    ensures
        r == (product_intent || has_condition(conditions@, ConditionKey::Concern)),
{
    product_intent || value_of(conditions, ConditionKey::Concern).is_some()
}

/// What the customer worries about.
pub fn concern_category<'a>(conditions: &'a [(ConditionKey, String)]) -> (r: Option<&'a str>)
    ensures
        match r {
            Some(v) => first_value(conditions@, ConditionKey::Concern) == Some(v@),
            None => first_value(conditions@, ConditionKey::Concern) is None,
        },
{
    value_of(conditions, ConditionKey::Concern)
}

/// The text that a reference may give.
pub open spec fn opt_str(o: Option<&str>) -> Option<Seq<char>> {
    match o {
        Some(s) => Some(s@),
        None => None,
    }
}

/// The materials of the given category.
pub open spec fn in_category(ms: Seq<MaterialView>, category: Seq<char>) -> Seq<MaterialView>
    decreases ms.len(),
{
    if ms.len() == 0 {
        ms
    } else {
        let rest = in_category(ms.drop_last(), category);
        if ms.last().category == Some(category) {
            rest.push(ms.last())
        } else {
            rest
        }
    }
}

fn of_category(m: &AdvisorMaterial, category: &str) -> (r: bool)
    ensures
        r == (m@.category == Some(category@)),
{
    match &m.category {
        Some(c) => same(c.as_str(), category),
        None => false,
    }
}

/// The own products to offer: those of the category, and all of them where
/// there is no category or none of that category.
pub open spec fn own_products_for(ms: Seq<MaterialView>, category: Option<Seq<char>>) -> Seq<
    MaterialView,
> {
    match category {
        Some(c) => if in_category(ms, c).len() > 0 {
            in_category(ms, c)
        } else {
            ms
        },
        None => ms,
    }
}

/// The own products to offer: those of the category, and all of them where
/// there is no category or none of that category.
pub fn select_own_product_materials(
    own_products: &[AdvisorMaterial],
    concern_category: Option<&str>,
) -> (r: Vec<AdvisorMaterial>)
    ensures
        views(r@) == own_products_for(views(own_products@), opt_str(concern_category)),
{
    if let Some(category) = concern_category {
        let ghost all = views(own_products@);
        let mut matched: Vec<AdvisorMaterial> = Vec::new();
        let mut i: usize = 0;
        assert(views(matched@) =~= in_category(all.take(0), category@));
        while i < own_products.len()
            invariant
                i <= own_products.len(),
                all == views(own_products@),
                views(matched@) == in_category(all.take(i as int), category@),
            decreases own_products.len() - i,
        {
            proof {
                take_next(all, i as int);
                assert(all[i as int] == own_products@[i as int]@);
            }
            if of_category(&own_products[i], category) {
                let ghost m0 = matched@;
                let m = own_products[i].copied();
                matched.push(m);
                assert(views(matched@) =~= views(m0).push(all[i as int]));
            }
            i = i + 1;
        }
        assert(all.take(all.len() as int) =~= all);
        if matched.len() > 0 {
            return matched;
        }
    }
    let mut all: Vec<AdvisorMaterial> = Vec::new();
    append_all(&mut all, own_products);
    assert(all@ =~= own_products@);
    all
}

/// The most materials that a draft is given, own products aside.
pub const MAX_TOTAL_MATERIALS: usize = 12;

/// The materials of the given kind and category.
pub open spec fn of_kind_in_category(
    ms: Seq<MaterialView>,
    kind: Seq<char>,
    category: Seq<char>,
) -> Seq<MaterialView>
    decreases ms.len(),
{
    if ms.len() == 0 {
        ms
    } else {
        let rest = of_kind_in_category(ms.drop_last(), kind, category);
        if ms.last().kind == kind && ms.last().category == Some(category) {
            rest.push(ms.last())
        } else {
            rest
        }
    }
}

/// The first `limit` materials of the given kind and category, in the order of
/// their keys.
pub open spec fn picked(
    ms: Seq<MaterialView>,
    kind: Seq<char>,
    category: Seq<char>,
    limit: nat,
) -> Seq<MaterialView> {
    let ordered = by_key(of_kind_in_category(ms, kind, category));
    if ordered.len() <= limit {
        ordered
    } else {
        ordered.take(limit as int)
    }
}

/// The materials that a category calls for: up to two statistics, up to two
/// partner products, up to one scenario.
pub open spec fn picked_for(ms: Seq<MaterialView>, category: Option<Seq<char>>) -> Seq<MaterialView> {
    match category {
        Some(c) => picked(ms, "statistic"@, c, 2) + picked(ms, "partner_product"@, c, 2) + picked(
            ms,
            "scenario"@,
            c,
            1,
        ),
        None => Seq::empty(),
    }
}

fn pick(pool: &[AdvisorMaterial], kind: &str, category: &str, limit: usize) -> (r: Vec<AdvisorMaterial>)
    ensures
        views(r@) == picked(views(pool@), kind@, category@, limit as nat),
{
    let ghost all = views(pool@);
    let mut r: Vec<AdvisorMaterial> = Vec::new();
    let mut i: usize = 0;
    assert(views(r@) =~= by_key(of_kind_in_category(all.take(0), kind@, category@)));
    while i < pool.len()
        invariant
            i <= pool.len(),
            all == views(pool@),
            views(r@) == by_key(of_kind_in_category(all.take(i as int), kind@, category@)),
        decreases pool.len() - i,
    {
        proof {
            take_next(all, i as int);
        }
        if same(pool[i].kind.as_str(), kind) && of_category(&pool[i], category) {
            proof {
                let rest = of_kind_in_category(all.take(i as int), kind@, category@);
                assert(rest.push(all[i as int]).drop_last() =~= rest);
            }
            let m = pool[i].copied();
            insert_by_key(&mut r, m);
        }
        i = i + 1;
    }
    assert(all.take(all.len() as int) =~= all);
    if r.len() > limit {
        let ghost before_cut = views(r@);
        r.truncate(limit);
        assert(views(r@) =~= before_cut.take(limit as int));
    }
    r
}

/// The materials that the category calls for: up to two statistics, up to two
/// partner products and up to one scenario of that category, each kind in the
/// order of the keys.
pub fn select_category_materials(
    category_pool: &[AdvisorMaterial],
    concern_category: Option<&str>,
) -> (r: Vec<AdvisorMaterial>)
    ensures
        views(r@) == picked_for(views(category_pool@), opt_str(concern_category)),
{
    match concern_category {
        None => {
            let r: Vec<AdvisorMaterial> = Vec::new();
            assert(views(r@) =~= Seq::<MaterialView>::empty());
            r
        },
        Some(category) => {
            let mut r = pick(category_pool, "statistic", category, 2);
            let ghost a = views(r@);
            let partners = pick(category_pool, "partner_product", category, 2);
            append_all(&mut r, partners.as_slice());
            assert(views(r@) =~= a + views(partners@));
            let ghost b = views(r@);
            let scenarios = pick(category_pool, "scenario", category, 1);
            append_all(&mut r, scenarios.as_slice());
            assert(views(r@) =~= b + views(scenarios@));
            r
        },
    }
}

/// One of the materials has the given key.
pub open spec fn has_key(ms: Seq<MaterialView>, key: Seq<char>) -> bool {
    exists|i: int| 0 <= i < ms.len() && (#[trigger] ms[i]).material_key == key
}

/// `composed` with each of `more` behind it whose key is not there yet.
pub open spec fn injected(composed: Seq<MaterialView>, more: Seq<MaterialView>) -> Seq<
    MaterialView,
>
    decreases more.len(),
{
    if more.len() == 0 {
        composed
    } else {
        let c = injected(composed, more.drop_last());
        if has_key(c, more.last().material_key) {
            c
        } else {
            c.push(more.last())
        }
    }
}

/// `composed` with each of `more` behind it whose key is not there yet, as long
/// as there are fewer than the most that a draft is given.
pub open spec fn injected_within(composed: Seq<MaterialView>, more: Seq<MaterialView>) -> Seq<
    MaterialView,
>
    decreases more.len(),
{
    if more.len() == 0 {
        composed
    } else {
        let c = injected_within(composed, more.drop_last());
        if c.len() >= MAX_TOTAL_MATERIALS || has_key(c, more.last().material_key) {
            c
        } else {
            c.push(more.last())
        }
    }
}

fn key_there(ms: &[AdvisorMaterial], key: &str) -> (r: bool)
    ensures
        r == has_key(views(ms@), key@),
{
    let mut i: usize = 0;
    while i < ms.len()
        invariant
            i <= ms.len(),
            forall|j: int| 0 <= j < i ==> (#[trigger] views(ms@)[j]).material_key != key@,
        decreases ms.len() - i,
    {
        assert(views(ms@)[i as int] == ms@[i as int]@);
        if same(ms[i].material_key.as_str(), key) {
            return true;
        }
        i = i + 1;
    }
    false
}

/// The composed materials, with each guaranteed one behind them whose key is
/// not there yet.
pub fn inject_guaranteed_own_products(
    composed: Vec<AdvisorMaterial>,
    guaranteed: Vec<AdvisorMaterial>,
) -> (r: Vec<AdvisorMaterial>)
    ensures
        views(r@) == injected(views(composed@), views(guaranteed@)),
{
    let ghost start = views(composed@);
    let ghost all = views(guaranteed@);
    let mut r = composed;
    let mut i: usize = 0;
    while i < guaranteed.len()
        invariant
            i <= guaranteed.len(),
            all == views(guaranteed@),
            views(r@) == injected(start, all.take(i as int)),
        decreases guaranteed.len() - i,
    {
        proof {
            take_next(all, i as int);
            assert(all[i as int] == guaranteed@[i as int]@);
        }
        if !key_there(r.as_slice(), guaranteed[i].material_key.as_str()) {
            let ghost r0 = r@;
            let m = guaranteed[i].copied();
            r.push(m);
            assert(views(r@) =~= views(r0).push(all[i as int]));
        }
        i = i + 1;
    }
    assert(all.take(all.len() as int) =~= all);
    r
}

/// The composed materials, with each candidate behind them whose key is not
/// there yet, as long as there are fewer than the most that a draft is given.
pub fn inject_category_materials(
    composed: Vec<AdvisorMaterial>,
    candidates: Vec<AdvisorMaterial>,
) -> (r: Vec<AdvisorMaterial>)
    ensures
        views(r@) == injected_within(views(composed@), views(candidates@)),
{
    let ghost start = views(composed@);
    let ghost all = views(candidates@);
    let mut r = composed;
    let mut i: usize = 0;
    while i < candidates.len()
        invariant
            i <= candidates.len(),
            all == views(candidates@),
            views(r@) == injected_within(start, all.take(i as int)),
        decreases candidates.len() - i,
    {
        proof {
            take_next(all, i as int);
            assert(all[i as int] == candidates@[i as int]@);
        }
        if r.len() < MAX_TOTAL_MATERIALS && !key_there(
            r.as_slice(),
            candidates[i].material_key.as_str(),
        ) {
            let ghost r0 = r@;
            let m = candidates[i].copied();
            r.push(m);
            assert(views(r@) =~= views(r0).push(all[i as int]));
        }
        i = i + 1;
    }
    assert(all.take(all.len() as int) =~= all);
    r
}

/// No key is there twice.
pub open spec fn keys_distinct(ms: Seq<MaterialView>) -> bool {
    forall|i: int, j: int|
        0 <= i < j < ms.len() ==> (#[trigger] ms[i]).material_key != (#[trigger] ms[j]).material_key
}

/// Guaranteed products all get in, the composed materials stay in front of them
/// as they were, and no key comes in twice.
pub proof fn guaranteed_products_get_in(
    composed: Seq<MaterialView>,
    more: Seq<MaterialView>,
)
    ensures
        injected(composed, more).len() >= composed.len(),
        injected(composed, more).take(composed.len() as int) == composed,
        forall|i: int|
            0 <= i < more.len() ==> has_key(
                injected(composed, more),
                (#[trigger] more[i]).material_key,
            ),
        keys_distinct(composed) ==> keys_distinct(injected(composed, more)),
    decreases more.len(),
{
    if more.len() == 0 {
        assert(composed.take(composed.len() as int) =~= composed);
    } else {
        let c = injected(composed, more.drop_last());
        let m = more.last();
        let r = injected(composed, more);
        guaranteed_products_get_in(composed, more.drop_last());
        assert(r.take(composed.len() as int) =~= c.take(composed.len() as int));
        assert forall|i: int| 0 <= i < more.len() implies has_key(r, (#[trigger] more[i]).material_key) by {
            if i < more.len() - 1 {
                assert(more.drop_last()[i] == more[i]);
                let k = choose|k: int|
                    0 <= k < c.len() && (#[trigger] c[k]).material_key == more[i].material_key;
                assert(r[k] == c[k]);
            } else if !has_key(c, m.material_key) {
                assert(r[c.len() as int] == m);
            }
        }
    }
}

/// Materials by category never take the list past its limit, never displace
/// what is there, and never bring a key in twice.
pub proof fn category_materials_stay_within_the_limit(
    composed: Seq<MaterialView>,
    more: Seq<MaterialView>,
)
    ensures
        injected_within(composed, more).len() >= composed.len(),
        injected_within(composed, more).take(composed.len() as int) == composed,
        composed.len() <= MAX_TOTAL_MATERIALS ==> injected_within(composed, more).len()
            <= MAX_TOTAL_MATERIALS,
        composed.len() >= MAX_TOTAL_MATERIALS ==> injected_within(composed, more) == composed,
        keys_distinct(composed) ==> keys_distinct(injected_within(composed, more)),
    decreases more.len(),
{
    if more.len() == 0 {
        assert(composed.take(composed.len() as int) =~= composed);
    } else {
        let c = injected_within(composed, more.drop_last());
        category_materials_stay_within_the_limit(composed, more.drop_last());
        assert(injected_within(composed, more).take(composed.len() as int) =~= c.take(
            composed.len() as int,
        ));
    }
}

/// A search hit on anything but material changes nothing: conversations and
/// cases never get into the materials, whatever their nodes say.
pub proof fn foreign_hits_change_nothing(
    hits: Seq<SearchHit>,
    foreign: SearchHit,
    more: Seq<SearchHit>,
    nodes: Seq<NodeResult>,
)
    requires
        opt_text(foreign.id) is Some ==> !contains(
            opt_text(foreign.id)->0,
            kind_mark("advisor_material"@),
        ),
    ensures
        materials_of_hits(hits.push(foreign) + more, nodes) == materials_of_hits(hits + more, nodes),
    decreases more.len(),
{
    if more.len() == 0 {
        assert(hits.push(foreign) + more =~= hits.push(foreign));
        assert(hits.push(foreign).drop_last() =~= hits);
        assert(hits + more =~= hits);
    } else {
        foreign_hits_change_nothing(hits, foreign, more.drop_last(), nodes);
        assert((hits.push(foreign) + more).drop_last() =~= hits.push(foreign) + more.drop_last());
        assert((hits + more).drop_last() =~= hits + more.drop_last());
    }
}

/// The value of a kind of condition is that of its first entry, wherever in the
/// list that stands; there is none only where no entry is of the kind.
pub proof fn first_entry_of_a_kind_counts(
    conditions: Seq<(ConditionKey, String)>,
    key: ConditionKey,
    i: int,
)
    requires
        0 <= i <= conditions.len(),
        forall|j: int| 0 <= j < i ==> (#[trigger] conditions[j]).0 != key,
        i < conditions.len() ==> conditions[i].0 == key,
    ensures
        i < conditions.len() ==> first_value(conditions, key) == Some(conditions[i].1@),
        i == conditions.len() ==> first_value(conditions, key) is None,
        has_condition(conditions, key) <==> i < conditions.len(),
    decreases conditions.len(),
{
    if i < conditions.len() {
        assert(conditions[i].0 == key);
    }
    if conditions.len() > 0 && i > 0 {
        let rest = conditions.drop_first();
        assert forall|j: int| 0 <= j < i - 1 implies (#[trigger] rest[j]).0 != key by {
            assert(rest[j] == conditions[j + 1]);
        }
        first_entry_of_a_kind_counts(rest, key, i - 1);
        assert(conditions[0].0 != key);
    }
}

/// Where the first entry of a kind stands; the length where there is none.
pub proof fn first_of_kind(conditions: Seq<(ConditionKey, String)>, key: ConditionKey) -> (i: int)
    ensures
        0 <= i <= conditions.len(),
        forall|j: int| 0 <= j < i ==> (#[trigger] conditions[j]).0 != key,
        i < conditions.len() ==> conditions[i].0 == key,
    decreases conditions.len(),
{
    if conditions.len() == 0 || conditions[0].0 == key {
        0
    } else {
        let rest = conditions.drop_first();
        let k = first_of_kind(rest, key);
        assert forall|j: int| 0 <= j < k + 1 implies (#[trigger] conditions[j]).0 != key by {
            if j > 0 {
                assert(rest[j - 1] == conditions[j]);
            }
        }
        k + 1
    }
}

/// An entry of another kind has no bearing on the value of a kind, wherever it is
/// put in.
pub proof fn other_kinds_have_no_bearing(
    conditions: Seq<(ConditionKey, String)>,
    at: int,
    c: (ConditionKey, String),
    key: ConditionKey,
)
    requires
        0 <= at <= conditions.len(),
        c.0 != key,
    ensures
        first_value(conditions.insert(at, c), key) == first_value(conditions, key),
        has_condition(conditions.insert(at, c), key) == has_condition(conditions, key),
{
    let all = conditions.insert(at, c);
    let i = first_of_kind(conditions, key);
    let k = if i < at {
        i
    } else {
        i + 1
    };
    assert forall|j: int| 0 <= j < k implies (#[trigger] all[j]).0 != key by {
        if j < at {
            assert(all[j] == conditions[j]);
        } else if j > at {
            assert(all[j] == conditions[j - 1]);
        }
    }
    first_entry_of_a_kind_counts(conditions, key, i);
    first_entry_of_a_kind_counts(all, key, k);
}

/// The eleven names under which a material is kept.
pub open spec fn material_names() -> Seq<Seq<char>> {
    seq![
        "material_key"@,
        "kind"@,
        "title_ja"@,
        "body_ja"@,
        "source_url"@,
        "category"@,
        "product_key"@,
        "price_band"@,
        "card_description"@,
        "card_match_terms"@,
        "product_page_url"@,
    ]
}

proof fn material_names_differ()
    ensures
        material_names().no_duplicates(),
        "material_key"@ == material_names()[0],
        "kind"@ == material_names()[1],
        "title_ja"@ == material_names()[2],
        "body_ja"@ == material_names()[3],
        "source_url"@ == material_names()[4],
        "category"@ == material_names()[5],
        "product_key"@ == material_names()[6],
        "price_band"@ == material_names()[7],
        "card_description"@ == material_names()[8],
        "card_match_terms"@ == material_names()[9],
        "product_page_url"@ == material_names()[10],
{
    reveal_strlit("material_key");
    reveal_strlit("kind");
    reveal_strlit("title_ja");
    reveal_strlit("body_ja");
    reveal_strlit("source_url");
    reveal_strlit("category");
    reveal_strlit("product_key");
    reveal_strlit("price_band");
    reveal_strlit("card_description");
    reveal_strlit("card_match_terms");
    reveal_strlit("product_page_url");
    assert("material_key"@.len() == 12);
    assert("kind"@.len() == 4);
    assert("title_ja"@.len() == 8 && "title_ja"@[0] == 't');
    assert("body_ja"@.len() == 7);
    assert("source_url"@.len() == 10 && "source_url"@[0] == 's');
    assert("category"@.len() == 8 && "category"@[0] == 'c');
    assert("product_key"@.len() == 11);
    assert("price_band"@.len() == 10 && "price_band"@[0] == 'p');
    assert("card_description"@.len() == 16 && "card_description"@[5] == 'd');
    assert("card_match_terms"@.len() == 16 && "card_match_terms"@[5] == 'm');
    assert("product_page_url"@.len() == 16 && "product_page_url"@[5] == 'c' && "product_page_url"@[0]
        == 'p');
    assert("card_match_terms"@[0] == 'c' && "card_description"@[0] == 'c');
}

/// A value is given trimmed, and a blank one is none.
pub open spec fn given(value: Seq<char>) -> Option<Seq<char>> {
    if trim(value).len() > 0 {
        Some(trim(value))
    } else {
        None
    }
}

/// A material carries, in each field, the trimmed value of the attribute of that
/// field's own name: writing one attribute of a material changes just that field,
/// as long as the key, the title and the body are not made blank.
pub proof fn each_attribute_fills_its_own_part(
    attrs: Map<Seq<char>, Seq<char>>,
    source_ok: bool,
    value: Seq<char>,
)
    requires
        material_given(attrs, source_ok, true) is Some,
    ensures
        ({
            let m = material_given(attrs, source_ok, true)->0;
            &&& trim(value).len() > 0 ==> material_given(
                attrs.insert("material_key"@, value),
                source_ok,
                true,
            ) == Some((MaterialView { material_key: trim(value), ..m }))
            &&& trim(value).len() > 0 ==> material_given(
                attrs.insert("title_ja"@, value),
                source_ok,
                true,
            ) == Some((MaterialView { title_ja: trim(value), ..m }))
            &&& trim(value).len() > 0 ==> material_given(
                attrs.insert("body_ja"@, value),
                source_ok,
                true,
            ) == Some((MaterialView { body_ja: trim(value), ..m }))
            &&& trim(value).len() > 0 && source_ok ==> material_given(
                attrs.insert("source_url"@, value),
                source_ok,
                true,
            ) == Some((MaterialView { source_url: Some(trim(value)), ..m }))
            &&& material_given(attrs.insert("category"@, value), source_ok, true) == Some(
                (MaterialView { category: given(value), ..m }),
            )
            &&& material_given(attrs.insert("product_key"@, value), source_ok, true) == Some(
                (MaterialView { product_key: given(value), ..m }),
            )
            &&& material_given(attrs.insert("price_band"@, value), source_ok, true) == Some(
                (MaterialView { price_band: given(value), ..m }),
            )
            &&& material_given(attrs.insert("card_description"@, value), source_ok, true) == Some(
                (MaterialView { card_description: given(value), ..m }),
            )
            &&& material_given(attrs.insert("card_match_terms"@, value), source_ok, true) == Some(
                (MaterialView { card_match_terms: given(value), ..m }),
            )
            &&& material_given(attrs.insert("product_page_url"@, value), source_ok, true) == Some(
                (MaterialView { product_page_url: given(value), ..m }),
            )
        }),
{
    material_names_differ();
    let names = material_names();
    assert forall|i: int, j: int| 0 <= i < names.len() && 0 <= j < names.len() && i != j implies names[i]
        != names[j] by {}
}

/// Attributes describe a material just where key, kind, title and body are there
/// and not blank, the kind is one of the four, a statistic and a partner's product
/// name a source, and a source that is named is sound.
pub proof fn what_makes_a_material(attrs: Map<Seq<char>, Seq<char>>, source_ok: bool, page_ok: bool)
    ensures
        ({
            let filled = |name: Seq<char>| attrs.contains_key(name) && trim(attrs[name]).len() > 0;
            let kind = trim(attrs["kind"@]);
            material_given(attrs, source_ok, page_ok) is Some <==> {
                &&& filled("material_key"@)
                &&& filled("kind"@)
                &&& filled("title_ja"@)
                &&& filled("body_ja"@)
                &&& kind == "statistic"@ || kind == "own_product"@ || kind == "partner_product"@
                    || kind == "scenario"@
                &&& kind == "statistic"@ || kind == "partner_product"@ ==> filled("source_url"@)
                &&& filled("source_url"@) ==> source_ok
            }
        }),
        material_given(attrs, source_ok, page_ok) is Some ==> (material_given(
            attrs,
            source_ok,
            page_ok,
        )->0).kind == trim(attrs["kind"@]),
{
}

/// What keeps attributes from being a material is told: there is none of the four
/// grave faults just where they are one, and where they are one the only fault can
/// be its page.
pub proof fn faults_tell_what_is_no_material(attrs: Map<Seq<char>, Seq<char>>)
    ensures
        material_of(attrs) is Some <==> fault_in(attrs) is None || fault_in(attrs) == Some(
            MaterialFault::PageUnsound,
        ),
        fault_in(attrs) == Some(MaterialFault::PageUnsound) ==> (
        material_of(attrs)->0).product_page_url is None,
        fault_in(attrs) is None && attribute(attrs, "product_page_url"@) is Some ==> (material_of(
            attrs,
        )->0).product_page_url == attribute(attrs, "product_page_url"@),
{
}

/// What is searched for starts with the question and holds the value of every
/// condition; each of them adds its length and a space, and nothing else does.
pub proof fn searches_name_every_condition(
    query: Seq<char>,
    conditions: Seq<(ConditionKey, String)>,
    i: int,
)
    requires
        0 <= i < conditions.len(),
    ensures
        contains(join(search_words(query, conditions), " "@), conditions[i].1@),
        contains(join(search_words(query, conditions), " "@), query),
        search_words(query, conditions).len() == conditions.len() + 1,
        search_words(query, conditions)[0] == query,
        search_words(query, conditions)[i + 1] == conditions[i].1@,
{
    let words = search_words(query, conditions);
    joined_text_holds_each_part(words, " "@, i + 1);
    joined_text_holds_each_part(words, " "@, 0);
}

/// Of nodes with one id the last counts: its attributes are those of the id.
pub proof fn last_node_of_an_id_counts(nodes: Seq<NodeResult>, id: Seq<char>, i: int)
    requires
        -1 <= i < nodes.len(),
        i >= 0 ==> nodes[i].node_id@ == id,
        forall|j: int| i < j < nodes.len() ==> (#[trigger] nodes[j]).node_id@ != id,
    ensures
        i >= 0 ==> attributes_of(nodes, id) == Some(nodes[i].attributes@),
        i == -1 ==> attributes_of(nodes, id) is None,
    decreases nodes.len(),
{
    if nodes.len() > 0 && i < nodes.len() - 1 {
        assert(nodes.last() == nodes[nodes.len() - 1]);
        last_node_of_an_id_counts(nodes.drop_last(), id, i);
    }
}

/// The materials that a search hit come hit by hit: those of the first hits, then
/// those of the rest.
pub proof fn hits_are_taken_one_by_one(a: Seq<SearchHit>, b: Seq<SearchHit>, nodes: Seq<NodeResult>)
    ensures
        materials_of_hits(a + b, nodes) =~= materials_of_hits(a, nodes) + materials_of_hits(
            b,
            nodes,
        ),
    decreases b.len(),
{
    if b.len() == 0 {
        assert(a + b =~= a);
    } else {
        hits_are_taken_one_by_one(a, b.drop_last(), nodes);
        assert((a + b).drop_last() =~= a + b.drop_last());
    }
}

/// A hit on the node of a material brings that material, and nothing else.
pub proof fn a_hit_on_a_material_brings_it(hit: SearchHit, nodes: Seq<NodeResult>, i: int)
    requires
        hit.id is Some,
        contains((hit.id->0)@, seq![':'] + "advisor_material"@ + seq![':']),
        0 <= i < nodes.len(),
        nodes[i].node_id@ == (hit.id->0)@,
        forall|j: int| i < j < nodes.len() ==> (#[trigger] nodes[j]).node_id@ != (hit.id->0)@,
        material_of(nodes[i].attributes@) is Some,
    ensures
        materials_of_hits(seq![hit], nodes) =~= seq![material_of(nodes[i].attributes@)->0],
{
    last_node_of_an_id_counts(nodes, (hit.id->0)@, i);
    reveal_with_fuel(materials_of_hits, 2);
    assert(seq![hit].drop_last() =~= Seq::empty());
    assert(seq![hit].last() == hit);
}

/// The materials of some kinds are just those that a node with the last word on
/// its id describes and whose kind is one of them.
pub proof fn every_current_material_is_listed(
    nodes: Seq<NodeResult>,
    kinds: Seq<Seq<char>>,
    m: MaterialView,
)
    ensures
        materials_of_kinds(nodes, kinds).contains(m) <==> kinds.contains(m.kind) && exists|i: int|
            {
                &&& 0 <= i < nodes.len()
                &&& material_of((#[trigger] nodes[i]).attributes@) == Some(m)
                &&& forall|j: int|
                    i < j < nodes.len() ==> (#[trigger] nodes[j]).node_id@ != nodes[i].node_id@
            },
{
    broadcast use vstd::seq_lib::group_to_multiset_ensures;

    let current = current_from(nodes, 0);
    let listed = materials_in(current, kinds);
    by_key_orders(listed);
    let sorted = by_key(listed);
    assert(sorted.contains(m) <==> listed.contains(m)) by {
        assert(sorted.to_multiset().count(m) > 0 <==> sorted.contains(m));
        assert(listed.to_multiset().count(m) > 0 <==> listed.contains(m));
    }
    described_materials(current, kinds, m);
    if listed.contains(m) {
        let k = choose|k: int|
            0 <= k < current.len() && material_of((#[trigger] current[k]).attributes@) == Some(m);
        assert(current.contains(current[k]));
        current_nodes(nodes, 0, current[k]);
        let i = choose|i: int|
            0 <= i < nodes.len() && #[trigger] nodes[i] == current[k] && !superseded(nodes, i);
        assert(material_of(nodes[i].attributes@) == Some(m));
    }
    if kinds.contains(m.kind) && exists|i: int|
        {
            &&& 0 <= i < nodes.len()
            &&& material_of((#[trigger] nodes[i]).attributes@) == Some(m)
            &&& forall|j: int|
                i < j < nodes.len() ==> (#[trigger] nodes[j]).node_id@ != nodes[i].node_id@
        } {
        let i = choose|i: int|
            {
                &&& 0 <= i < nodes.len()
                &&& material_of((#[trigger] nodes[i]).attributes@) == Some(m)
                &&& forall|j: int|
                    i < j < nodes.len() ==> (#[trigger] nodes[j]).node_id@ != nodes[i].node_id@
            };
        assert(!superseded(nodes, i));
        current_nodes(nodes, 0, nodes[i]);
        let k = choose|k: int| 0 <= k < current.len() && current[k] == nodes[i];
        assert(material_of(current[k].attributes@) == Some(m));
    }
}

proof fn current_nodes(nodes: Seq<NodeResult>, from: int, node: NodeResult)
    requires
        0 <= from,
    ensures
        current_from(nodes, from).contains(node) <==> exists|i: int|
            from <= i < nodes.len() && #[trigger] nodes[i] == node && !superseded(nodes, i),
    decreases nodes.len() - from,
{
    if from < nodes.len() {
        let rest = current_from(nodes, from + 1);
        let all = current_from(nodes, from);
        current_nodes(nodes, from + 1, node);
        if all.contains(node) {
            let k = choose|k: int| 0 <= k < all.len() && all[k] == node;
            if superseded(nodes, from) || k > 0 {
                assert(rest.contains(node)) by {
                    if superseded(nodes, from) {
                        assert(rest[k] == node);
                    } else {
                        assert(rest[k - 1] == node);
                    }
                }
                let i = choose|i: int|
                    from + 1 <= i < nodes.len() && #[trigger] nodes[i] == node && !superseded(
                        nodes,
                        i,
                    );
                assert(from <= i && nodes[i] == node);
            } else {
                assert(nodes[from] == node);
            }
        }
        if exists|i: int|
            from <= i < nodes.len() && #[trigger] nodes[i] == node && !superseded(nodes, i) {
            let i = choose|i: int|
                from <= i < nodes.len() && #[trigger] nodes[i] == node && !superseded(nodes, i);
            if i == from {
                assert(all[0] == node);
            } else {
                assert(rest.contains(node));
                let k = choose|k: int| 0 <= k < rest.len() && rest[k] == node;
                if superseded(nodes, from) {
                    assert(all[k] == node);
                } else {
                    assert(all[k + 1] == node);
                }
            }
        }
    }
}

proof fn described_materials(nodes: Seq<NodeResult>, kinds: Seq<Seq<char>>, m: MaterialView)
    ensures
        materials_in(nodes, kinds).contains(m) <==> kinds.contains(m.kind) && exists|i: int|
            0 <= i < nodes.len() && material_of((#[trigger] nodes[i]).attributes@) == Some(m),
    decreases nodes.len(),
{
    if nodes.len() > 0 {
        let head = nodes.drop_last();
        let rest = materials_in(head, kinds);
        let all = materials_in(nodes, kinds);
        described_materials(head, kinds, m);
        if all.contains(m) {
            let k = choose|k: int| 0 <= k < all.len() && all[k] == m;
            if k < rest.len() {
                assert(rest[k] == m);
                let i = choose|i: int|
                    0 <= i < head.len() && material_of((#[trigger] head[i]).attributes@) == Some(m);
                assert(material_of(nodes[i].attributes@) == Some(m));
            } else {
                assert(material_of(nodes[nodes.len() - 1].attributes@) == Some(m));
            }
        }
        if kinds.contains(m.kind) && exists|i: int|
            0 <= i < nodes.len() && material_of((#[trigger] nodes[i]).attributes@) == Some(m) {
            let i = choose|i: int|
                0 <= i < nodes.len() && material_of((#[trigger] nodes[i]).attributes@) == Some(m);
            if i < head.len() {
                assert(material_of(head[i].attributes@) == Some(m));
                let k = choose|k: int| 0 <= k < rest.len() && rest[k] == m;
                assert(all[k] == m);
            } else {
                assert(all[rest.len() as int] == m);
            }
        }
    }
}

/// Materials with one key keep their order when they are put in the order of keys.
pub proof fn materials_with_one_key_keep_their_order(ms: Seq<MaterialView>, key: Seq<char>)
    ensures
        by_key(ms).filter(|m: MaterialView| m.material_key == key) =~= ms.filter(
            |m: MaterialView| m.material_key == key,
        ),
    decreases ms.len(),
{
    reveal(Seq::filter);
    if ms.len() > 0 {
        materials_with_one_key_keep_their_order(ms.drop_last(), key);
        let sorted = by_key(ms.drop_last());
        put_in_behind_its_key(sorted, ms.last(), key);
        assert(sorted.push(ms.last()).drop_last() =~= sorted);
    }
}

proof fn put_in_behind_its_key(ms: Seq<MaterialView>, m: MaterialView, key: Seq<char>)
    ensures
        put_in(ms, m).filter(|x: MaterialView| x.material_key == key) =~= ms.push(m).filter(
            |x: MaterialView| x.material_key == key,
        ),
    decreases ms.len(),
{
    reveal(Seq::filter);
    let f = |x: MaterialView| x.material_key == key;
    assert(ms.push(m).drop_last() =~= ms);
    if ms.len() > 0 && before(m.material_key, ms.last().material_key) {
        before_is_one_way(m.material_key, ms.last().material_key);
        let head = ms.drop_last();
        put_in_behind_its_key(head, m, key);
        let p = put_in(head, m);
        assert(p.push(ms.last()).drop_last() =~= p);
        assert(head.push(m).drop_last() =~= head);
        assert(put_in(ms, m) == p.push(ms.last()));
        assert(ms.filter(f) =~= if f(ms.last()) {
            head.filter(f).push(ms.last())
        } else {
            head.filter(f)
        });
    }
}

/// The signals of conditions are their names and values with a colon between, one
/// for each condition.
pub proof fn signals_are_names_and_values(conditions: Seq<(ConditionKey, String)>, signal: Seq<char>)
    ensures
        condition_signals(conditions).contains(signal) <==> exists|i: int|
            0 <= i < conditions.len() && (#[trigger] conditions[i]).0.name() + seq![':']
                + conditions[i].1@ == signal,
{
    let all = conditions.map_values(|c: (ConditionKey, String)| signal_of(c));
    if condition_signals(conditions).contains(signal) {
        let i = choose|i: int| 0 <= i < all.len() && all[i] == signal;
        assert(conditions[i].0.name() + seq![':'] + conditions[i].1@ == signal);
    }
    if exists|i: int|
        0 <= i < conditions.len() && (#[trigger] conditions[i]).0.name() + seq![':']
            + conditions[i].1@ == signal {
        let i = choose|i: int|
            0 <= i < conditions.len() && (#[trigger] conditions[i]).0.name() + seq![':']
                + conditions[i].1@ == signal;
        assert(all[i] == signal);
    }
}

/// A known resolution comes first, with its answer as the body and no card, and
/// what was searched follows unchanged; without one there is just what was searched.
pub proof fn a_known_resolution_comes_first(kr: KnownResolution, searched: Seq<MaterialView>)
    ensures
        composed_of(Some(&kr), searched).len() == searched.len() + 1,
        composed_of(Some(&kr), searched).skip(1) =~= searched,
        composed_of(Some(&kr), searched)[0].body_ja == kr.answer@,
        composed_of(Some(&kr), searched)[0].material_key =~= "known_resolution:"@ + kr.id@,
        composed_of(Some(&kr), searched)[0].card_description is None,
        composed_of(Some(&kr), searched)[0].source_url is None,
        composed_of(None, searched) == searched,
{
}

/// The materials of a category are all those that are of it, in their order.
pub proof fn a_category_has_all_of_its_materials(ms: Seq<MaterialView>, category: Seq<char>)
    ensures
        in_category(ms, category) =~= ms.filter(|m: MaterialView| m.category == Some(category)),
    decreases ms.len(),
{
    reveal(Seq::filter);
    if ms.len() > 0 {
        a_category_has_all_of_its_materials(ms.drop_last(), category);
    }
}

/// The own products that are offered are those of the category where there are
/// any, and all of them otherwise.
pub proof fn own_products_of_the_category_or_all(
    ms: Seq<MaterialView>,
    category: Seq<char>,
)
    ensures
        (exists|i: int| 0 <= i < ms.len() && (#[trigger] ms[i]).category == Some(category))
            ==> own_products_for(ms, Some(category)) =~= ms.filter(
            |m: MaterialView| m.category == Some(category),
        ),
        (forall|i: int| 0 <= i < ms.len() ==> (#[trigger] ms[i]).category != Some(category))
            ==> own_products_for(ms, Some(category)) == ms,
        own_products_for(ms, None) == ms,
{
    a_category_has_all_of_its_materials(ms, category);
    one_of_the_category_is_enough(ms, category);
}

proof fn one_of_the_category_is_enough(ms: Seq<MaterialView>, category: Seq<char>)
    ensures
        in_category(ms, category).len() > 0 <==> exists|i: int|
            0 <= i < ms.len() && (#[trigger] ms[i]).category == Some(category),
    decreases ms.len(),
{
    if ms.len() > 0 {
        let head = ms.drop_last();
        one_of_the_category_is_enough(head, category);
        if in_category(ms, category).len() > 0 {
            if in_category(head, category).len() > 0 {
                let i = choose|i: int|
                    0 <= i < head.len() && (#[trigger] head[i]).category == Some(category);
                assert(ms[i].category == Some(category));
            } else {
                assert(ms[ms.len() - 1].category == Some(category));
            }
        }
        if exists|i: int| 0 <= i < ms.len() && (#[trigger] ms[i]).category == Some(category) {
            let i = choose|i: int|
                0 <= i < ms.len() && (#[trigger] ms[i]).category == Some(category);
            if i < head.len() {
                assert(head[i].category == Some(category));
            }
        }
    }
}

proof fn kind_and_category_filter(ms: Seq<MaterialView>, kind: Seq<char>, category: Seq<char>)
    ensures
        of_kind_in_category(ms, kind, category) =~= ms.filter(
            |m: MaterialView| m.kind == kind && m.category == Some(category),
        ),
    decreases ms.len(),
{
    reveal(Seq::filter);
    if ms.len() > 0 {
        kind_and_category_filter(ms.drop_last(), kind, category);
    }
}

/// What is picked of a kind for a category is of that kind and category and from
/// the pool; as many are picked as there are, up to the limit; they come in the
/// order of their keys, and none that was left comes before one that was picked.
pub proof fn the_first_by_key_are_picked(
    ms: Seq<MaterialView>,
    kind: Seq<char>,
    category: Seq<char>,
    limit: nat,
)
    ensures
        ({
            let all = ms.filter(|m: MaterialView| m.kind == kind && m.category == Some(category));
            let r = picked(ms, kind, category, limit);
            &&& r.len() == if all.len() < limit {
                all.len()
            } else {
                limit
            }
            &&& in_key_order(r)
            &&& forall|i: int|
                0 <= i < r.len() ==> (#[trigger] r[i]).kind == kind && r[i].category == Some(
                    category,
                ) && ms.contains(r[i])
            &&& forall|m: MaterialView|
                #![trigger all.contains(m)]
                all.contains(m) && !r.contains(m) ==> forall|i: int|
                    0 <= i < r.len() ==> !before(m.material_key, (#[trigger] r[i]).material_key)
        }),
{
    broadcast use vstd::seq_lib::group_to_multiset_ensures;

    let f = |m: MaterialView| m.kind == kind && m.category == Some(category);
    let all = ms.filter(f);
    let r = picked(ms, kind, category, limit);
    kind_and_category_filter(ms, kind, category);
    by_key_orders(all);
    let sorted = by_key(all);
    assert(sorted.len() == all.len()) by {
        assert(sorted.to_multiset().len() == sorted.len());
        assert(all.to_multiset().len() == all.len());
    }
    assert forall|i: int| 0 <= i < r.len() implies (#[trigger] r[i]).kind == kind && r[i].category
        == Some(category) && ms.contains(r[i]) by {
        assert(r[i] == sorted[i]);
        assert(sorted.contains(sorted[i]));
        assert(sorted.to_multiset().count(sorted[i]) > 0);
        assert(all.to_multiset().count(sorted[i]) > 0);
        assert(all.contains(r[i]));
        filter_keeps_what_qualifies(ms, kind, category, r[i]);
    }
    assert forall|m: MaterialView|
        #![trigger all.contains(m)]
        all.contains(m) && !r.contains(m) implies forall|i: int|
        0 <= i < r.len() ==> !before(m.material_key, (#[trigger] r[i]).material_key) by {
        assert(all.to_multiset().count(m) > 0);
        assert(sorted.to_multiset().count(m) > 0);
        assert(sorted.contains(m));
        let k = choose|k: int| 0 <= k < sorted.len() && sorted[k] == m;
        if k < r.len() {
            assert(r[k] == m);
        }
        assert forall|i: int| 0 <= i < r.len() implies !before(
            m.material_key,
            (#[trigger] r[i]).material_key,
        ) by {
            assert(r[i] == sorted[i]);
            assert(!before(sorted[k].material_key, sorted[i].material_key));
        }
    }
}

proof fn filter_keeps_what_qualifies(
    ms: Seq<MaterialView>,
    kind: Seq<char>,
    category: Seq<char>,
    m: MaterialView,
)
    requires
        of_kind_in_category(ms, kind, category).contains(m),
    ensures
        ms.contains(m),
        m.kind == kind,
        m.category == Some(category),
    decreases ms.len(),
{
    let all = of_kind_in_category(ms, kind, category);
    let k = choose|k: int| 0 <= k < all.len() && all[k] == m;
    if ms.len() > 0 {
        let rest = of_kind_in_category(ms.drop_last(), kind, category);
        if k < rest.len() {
            assert(rest[k] == m);
            filter_keeps_what_qualifies(ms.drop_last(), kind, category, m);
            let i = choose|i: int| 0 <= i < ms.drop_last().len() && ms.drop_last()[i] == m;
            assert(ms[i] == m);
        } else {
            assert(ms[ms.len() - 1] == m);
        }
    }
}

/// A category calls for up to two statistics, then up to two partner products, then
/// up to one scenario; no category calls for nothing.
pub proof fn a_category_calls_for_five_at_most(ms: Seq<MaterialView>, category: Seq<char>)
    ensures
        ({
            let r = picked_for(ms, Some(category));
            let a = picked(ms, "statistic"@, category, 2).len() as int;
            let b = picked(ms, "partner_product"@, category, 2).len() as int;
            &&& r.take(a) =~= picked(ms, "statistic"@, category, 2)
            &&& r.subrange(a, a + b) =~= picked(ms, "partner_product"@, category, 2)
            &&& r.skip(a + b) =~= picked(ms, "scenario"@, category, 1)
            &&& r.len() <= 5
        }),
        picked_for(ms, None).len() == 0,
{
}

/// Materials that are put in come from what is to be put in, behind what was there;
/// where all their keys are new and differ they are all put in, as they stand.
pub proof fn nothing_else_is_put_in(composed: Seq<MaterialView>, more: Seq<MaterialView>)
    ensures
        forall|k: int|
            composed.len() <= k < injected(composed, more).len() ==> more.contains(
                #[trigger] injected(composed, more)[k],
            ),
        keys_distinct(composed + more) ==> injected(composed, more) =~= composed + more,
        forall|k: int|
            composed.len() <= k < injected_within(composed, more).len() ==> more.contains(
                #[trigger] injected_within(composed, more)[k],
            ),
        keys_distinct(composed + more) && composed.len() + more.len() <= MAX_TOTAL_MATERIALS
            ==> injected_within(composed, more) =~= composed + more,
        injected_within(composed, more).len() < MAX_TOTAL_MATERIALS ==> forall|i: int|
            0 <= i < more.len() ==> has_key(
                injected_within(composed, more),
                (#[trigger] more[i]).material_key,
            ),
    decreases more.len(),
{
    guaranteed_products_get_in(composed, more);
    category_materials_stay_within_the_limit(composed, more);
    if more.len() == 0 {
        assert(composed + more =~= composed);
    } else {
        let head = more.drop_last();
        let m = more.last();
        nothing_else_is_put_in(composed, head);
        category_materials_stay_within_the_limit(composed, head);
        let c = injected(composed, head);
        let w = injected_within(composed, head);
        assert forall|k: int| composed.len() <= k < injected(composed, more).len() implies more.contains(
            #[trigger] injected(composed, more)[k],
        ) by {
            if k < c.len() {
                assert(injected(composed, more)[k] == c[k]);
                let i = choose|i: int| 0 <= i < head.len() && head[i] == c[k];
                assert(more[i] == c[k]);
            } else {
                assert(more[more.len() - 1] == m);
            }
        }
        assert forall|k: int|
            composed.len() <= k < injected_within(composed, more).len() implies more.contains(
            #[trigger] injected_within(composed, more)[k],
        ) by {
            if k < w.len() {
                assert(injected_within(composed, more)[k] == w[k]);
                let i = choose|i: int| 0 <= i < head.len() && head[i] == w[k];
                assert(more[i] == w[k]);
            } else {
                assert(more[more.len() - 1] == m);
            }
        }
        if keys_distinct(composed + more) {
            let all = composed + more;
            let before_last = composed + head;
            assert(keys_distinct(before_last)) by {
                assert forall|i: int, j: int| 0 <= i < j < before_last.len() implies (
                #[trigger] before_last[i]).material_key != (#[trigger] before_last[j]).material_key by {
                    assert(before_last[i] == all[i] && before_last[j] == all[j]);
                }
            }
            assert(all[all.len() - 1] == m);
            assert(!has_key(before_last, m.material_key)) by {
                if has_key(before_last, m.material_key) {
                    let i = choose|i: int|
                        0 <= i < before_last.len() && (#[trigger] before_last[i]).material_key
                            == m.material_key;
                    assert(all[i].material_key != all[all.len() - 1].material_key);
                }
            }
            assert(all =~= before_last.push(m));
        }
        let r = injected_within(composed, more);
        if r.len() < MAX_TOTAL_MATERIALS {
            assert forall|i: int| 0 <= i < more.len() implies has_key(
                r,
                (#[trigger] more[i]).material_key,
            ) by {
                if i < head.len() {
                    assert(head[i] == more[i]);
                    let k = choose|k: int|
                        0 <= k < w.len() && (#[trigger] w[k]).material_key == more[i].material_key;
                    assert(r[k] == w[k]);
                } else if !has_key(w, m.material_key) {
                    assert(r[w.len() as int] == m);
                }
            }
        }
    }
}

/// A material shows what it says and nothing else, and none shows none.
pub proof fn materials_show_what_they_say(r: Option<AdvisorMaterial>, v: Option<MaterialView>)
    ensures
        shows(r, v) ==> (r is Some <==> v is Some),
        shows(r, v) && r is Some ==> v->0 == (r->0)@,
        r is Some ==> shows(r, Some((r->0)@)),
        shows(None, None),
{
}

} // verus!
