//! One turn of a conversation with the advisor, from what was understood of a
//! message to what is sent and kept.
use crate::attrs::{
    map_of, names_distinct, pair_views, put_all, text_or_empty, the_last_pair_of_a_name_counts, AttrMap,
};
use crate::canned::{
    confirmed_text, lead_confirmed, lead_solicit, lead_time_pref_reask, reask_text, solicit_text,
    texts_name_hours_and_slots, FALLBACK_TEXT, OUT_OF_DOMAIN_TEXT, SAFETY_TEXT,
};
use crate::cards::{
    card_views, cards_for, chosen, chosen_cards_are_fit_to_show, select_cards, CardView, ProductCard,
};
use crate::conversation::{
    CaseConvState, ConvView, TimePrefExtraction, TIME_PREF_EXTRACTION_ERROR_LIMIT,
    TIME_PREF_FALSE_LIMIT,
};
use crate::decide::{
    accumulated_condition_updates, advisor_attr_updates, condition_attr, condition_keys, condition_updates,
    condition_views, decide, decide_time_pref, decide_time_pref_extraction_failed, failure_decided,
    find_slot, first_slot, flow, merge_conditions, merged, next_question_streak, reads_as,
    says_true, streak_after, time_pref_decided, truth_text, truth_word, ActionView, AdvisorAction,
    AdvisorCaseAttrs,
};
use crate::draft_meta::{ClosingKind, DraftMeta, MetaView};
use crate::draftgen::{meta_view, LEAD_OFFER_MARKER};
use crate::hours::{hours_label, BusinessHoursConfig};
use crate::materials::{
    category_materials_stay_within_the_limit, compose_materials, composed_of, concern_category,
    condition_signal, first_entry_of_a_kind_counts, first_of_kind, first_value, guaranteed_products_get_in, has_condition, has_key,
    inject_category_materials, inject_guaranteed_own_products, injected, injected_within,
    nothing_else_is_put_in, opt_str, own_products_for, picked_for, select_category_materials,
    select_own_product_materials, should_guarantee_own_products, signal_of, views, AdvisorMaterial,
    KnownResolution, MaterialView,
};
use crate::prompt_input::{plain_text, to_plain_text};
use crate::quick_replies::{
    answer_items, capped, clarify_items, for_answer, for_clarify, for_time_pref, note_view, offered,
    time_pref_items, ItemView, QuickReplyItem,
};
use crate::text::{
    among, contained_in_a_sum, contains, csv_gives_items, csv_items, csv_list, csv_reads_back, decimal,
    decimal_text, has, is_item, join, joined, joined_text_holds_each_part, middle_is_contained, occurs_at,
    same, signed_decimal, signed_decimal_reads_back, signed_decimal_text, signed_value, take_next, texts,
};
use crate::understand::{ConditionKey, Understanding};
use vstd::prelude::*;

verus! {

/// Who spoke.
#[derive(Debug, Clone, Copy, PartialEq, Eq, Structural)]
pub enum HistoryRole {
    Customer,
    Assistant,
}

/// What was said earlier in a conversation.
#[derive(Debug, Clone, PartialEq, Eq)]
pub struct HistoryEntry {
    pub role: HistoryRole,
    pub text: String,
}

/// Who a request is made for.
#[derive(Debug, Clone, PartialEq, Eq)]
pub struct VerifiedIdentity {
    pub sub: String,
    pub email: String,
}

/// The identity under which the advisor itself acts.
pub fn advisor_service_principal() -> (r: VerifiedIdentity)
    ensures
        r.sub@ == "service:homesec-answer-api"@,
        r.email@ == "homesec-answer-api@cs-support.internal"@,
{
    VerifiedIdentity {
        sub: "service:homesec-answer-api".to_owned(),
        email: "homesec-answer-api@cs-support.internal".to_owned(),
    }
}

/// What was said, with who said it.
pub open spec fn history_line(entry: HistoryEntry) -> Seq<char> {
    (match entry.role {
        HistoryRole::Customer => "顧客"@,
        HistoryRole::Assistant => "アドバイザー"@,
    }) + ": "@ + entry.text@
}

/// What was said earlier, one line each, with who said it.
pub fn build_history_digest(history: &[HistoryEntry]) -> (r: String)
    ensures
        r@ == join(history@.map_values(|e: HistoryEntry| history_line(e)), "\n"@),
{
    let ghost all = history@.map_values(|e: HistoryEntry| history_line(e));
    let mut lines: Vec<String> = Vec::new();
    let mut i: usize = 0;
    while i < history.len()
        invariant
            i <= history.len(),
            all == history@.map_values(|e: HistoryEntry| history_line(e)),
            texts(lines@) =~= all.take(i as int),
        decreases history.len() - i,
    {
        let ghost l0 = lines@;
        let mut line = match history[i].role {
            HistoryRole::Customer => "顧客".to_owned(),
            HistoryRole::Assistant => "アドバイザー".to_owned(),
        };
        line.append(": ");
        line.append(history[i].text.as_str());
        let ghost t0 = line@;
        lines.push(line);
        proof {
            take_next(all, i as int);
            assert(t0 == history_line(history@[i as int]));
            assert(texts(lines@) =~= texts(l0).push(t0));
        }
        i = i + 1;
    }
    assert(all.take(all.len() as int) =~= all);
    joined(lines.as_slice(), "\n")
}

/// What is known of the customer's situation, one line each.
pub fn build_accumulated_digest(conditions: &[(ConditionKey, String)]) -> (r: String)
    ensures
        r@ == join(conditions@.map_values(|c: (ConditionKey, String)| signal_of(c)), "\n"@),
{
    let ghost all = conditions@.map_values(|c: (ConditionKey, String)| signal_of(c));
    let mut lines: Vec<String> = Vec::new();
    let mut i: usize = 0;
    while i < conditions.len()
        invariant
            i <= conditions.len(),
            all == conditions@.map_values(|c: (ConditionKey, String)| signal_of(c)),
            texts(lines@) =~= all.take(i as int),
        decreases conditions.len() - i,
    {
        let ghost l0 = lines@;
        let line = condition_signal(conditions[i].0, conditions[i].1.as_str());
        let ghost t0 = line@;
        lines.push(line);
        proof {
            take_next(all, i as int);
            assert(t0 == signal_of(conditions@[i as int]));
            assert(texts(lines@) =~= texts(l0).push(t0));
        }
        i = i + 1;
    }
    assert(all.take(all.len() as int) =~= all);
    joined(lines.as_slice(), "\n")
}

/// The texts of a list of references.
pub open spec fn str_texts(v: Seq<&str>) -> Seq<Seq<char>> {
    v.map_values(|s: &str| s@)
}

/// The keys of the materials whose cards were shown, with those of the cards
/// that are shown now behind them.
pub fn append_shown_product_cards(existing_csv: &str, new_keys: &[&str]) -> (r: String)
    ensures
        r@ == join(csv_items(existing_csv@) + str_texts(new_keys@), ","@),
{
    let mut keys = csv_list(existing_csv);
    let ghost start = texts(keys@);
    let ghost all = str_texts(new_keys@);
    let mut i: usize = 0;
    while i < new_keys.len()
        invariant
            i <= new_keys.len(),
            all == str_texts(new_keys@),
            texts(keys@) =~= start + all.take(i as int),
        decreases new_keys.len() - i,
    {
        let ghost k0 = keys@;
        let key = new_keys[i].to_owned();
        let ghost t0 = key@;
        keys.push(key);
        proof {
            take_next(all, i as int);
            assert(texts(keys@) =~= texts(k0).push(t0));
        }
        i = i + 1;
    }
    assert(all.take(all.len() as int) =~= all);
    joined(keys.as_slice(), ",")
}

/// The state of the conversation once a reply of the given kind is out: safety
/// ends the wait for a time to call, asking for one starts it, and asking back
/// is counted.
pub open spec fn conv_after(action: ActionView, conv: ConvView) -> ConvView {
    match action {
        ActionView::Safety => ConvView {
            awaiting_time_pref: false,
            time_pref_false_count: 0,
            ..conv
        },
        ActionView::LeadSolicit => ConvView {
            awaiting_time_pref: true,
            time_pref_false_count: 0,
            clarify_turns: 0,
            ..conv
        },
        ActionView::Clarify { missing } => ConvView {
            clarify_turns: (conv.clarify_turns + 1) as u32,
            ..conv
        },
        _ => conv,
    }
}

/// Does to the state of the conversation, and to what is kept with the case,
/// what a reply of the given kind brings with it.
pub fn apply_action_contract(
    action: &AdvisorAction,
    conv: &mut CaseConvState,
    advisor_attrs: &mut AdvisorCaseAttrs,
)
    requires
        action@ is Clarify ==> old(conv).clarify_turns < u32::MAX,
    ensures
        final(conv)@ == conv_after(action@, old(conv)@),
        *final(advisor_attrs) == (AdvisorCaseAttrs {
            lead_requested: old(advisor_attrs).lead_requested || action@ is LeadConfirmed,
            ..*old(advisor_attrs)
        }),
{
    match action {
        AdvisorAction::Safety => {
            conv.awaiting_time_pref = false;
            conv.time_pref_false_count = 0;
        },
        AdvisorAction::LeadSolicit => {
            conv.awaiting_time_pref = true;
            conv.time_pref_false_count = 0;
            conv.clarify_turns = 0;
        },
        AdvisorAction::Clarify { .. } => {
            conv.clarify_turns = conv.clarify_turns + 1;
        },
        AdvisorAction::LeadConfirmed { .. } => {
            advisor_attrs.lead_requested = true;
        },
        _ => {},
    }
}

/// A text that is not the fallback offers that a person gets in touch.
pub open spec fn offers_lead(text: Seq<char>) -> bool {
    text != FALLBACK_TEXT@ && contains(text, LEAD_OFFER_MARKER@)
}

/// Whether to note that a person getting in touch was offered: it was not
/// before, and the text, which is not the fallback, does.
pub fn should_burn_lead_offered(already_offered: bool, drafted_text: &str) -> (r: bool)
    ensures
        r == (!already_offered && offers_lead(drafted_text@)),
{
    !already_offered && !same(drafted_text, FALLBACK_TEXT) && has(drafted_text, LEAD_OFFER_MARKER)
}

/// The note of a draft that asks back: none, whatever was drafted.
pub fn clarify_meta_for_upstream(_llm_meta: Option<DraftMeta>) -> (r: Option<DraftMeta>)
    ensures
        r is None,
{
    None
}

/// Whether cards may go with a reply of the given kind: not with the fallback.
pub fn should_select_cards(reply_kind: &str) -> (r: bool)
    ensures
        r == (reply_kind@ != "fallback"@),
{
    !same(reply_kind, "fallback")
}

/// What the customer is told where something went wrong inside.
pub fn internal_error_message(request_id: &str) -> (r: String)
    ensures
        r@ == "internal error processing the request; request_id="@ + request_id@,
{
    let mut r = "internal error processing the request; request_id=".to_owned();
    r.append(request_id);
    r
}

/// The attributes with the value, unless they have one of that name.
pub open spec fn unless_there(
    attrs: Map<Seq<char>, Seq<char>>,
    name: Seq<char>,
    value: Option<Seq<char>>,
) -> Map<Seq<char>, Seq<char>> {
    if attrs.contains_key(name) || value is None {
        attrs
    } else {
        attrs.insert(name, value->0)
    }
}

/// The attributes that say where a conversation stands.
pub open spec fn conv_pairs(conv: ConvView) -> Seq<(Seq<char>, Seq<char>)> {
    seq![
        ("clarify_turns"@, decimal(conv.clarify_turns as nat)),
        ("awaiting_time_pref"@, truth_word(conv.awaiting_time_pref)),
        ("time_pref_false_count"@, decimal(conv.time_pref_false_count as nat)),
        (
            "preferred_contact_time"@,
            match conv.preferred_contact_time {
                Some(t) => t,
                None => Seq::empty(),
            },
        ),
        (
            "time_pref_extraction_error_count"@,
            decimal(conv.time_pref_extraction_error_count as nat),
        ),
    ]
}

/// The attributes that say what else is kept with a case.
pub open spec fn advisor_pairs(attrs: AdvisorCaseAttrs) -> Seq<(Seq<char>, Seq<char>)> {
    seq![
        ("lead_offered"@, truth_word(attrs.lead_offered)),
        ("lead_requested"@, truth_word(attrs.lead_requested)),
        ("shown_product_cards"@, attrs.shown_product_cards@),
        ("question_streak"@, signed_decimal(attrs.question_streak as int)),
    ]
}

/// The attributes of a case after a turn. The case and the question are those of
/// the turn; when the case was opened and whose it is stays as it is where it is
/// known; the state, what is kept with the case and the conditions are written;
/// all else stays.
pub open spec fn case_attrs_after(
    existing: Map<Seq<char>, Seq<char>>,
    case_id: Seq<char>,
    question: Seq<char>,
    end_user_id: Option<Seq<char>>,
    conv: ConvView,
    advisor_attrs: AdvisorCaseAttrs,
    conditions: Seq<(ConditionKey, Seq<char>)>,
    now: Seq<char>,
) -> Map<Seq<char>, Seq<char>> {
    let named = existing.insert("case_id"@, case_id).insert("question"@, question);
    let opened = unless_there(named, "created_at"@, Some(now));
    let owned = unless_there(opened, "end_user_id"@, end_user_id);
    put_all(
        put_all(put_all(owned, conv_pairs(conv)), advisor_pairs(advisor_attrs)),
        condition_updates(conditions, condition_keys()),
    )
}

fn conv_updates(conv: &CaseConvState) -> (r: Vec<(String, String)>)
    ensures
        pair_views(r@) == conv_pairs(conv@),
{
    let mut r: Vec<(String, String)> = Vec::new();
    r.push(("clarify_turns".to_owned(), decimal_text(conv.clarify_turns as u64)));
    r.push(("awaiting_time_pref".to_owned(), truth_text(conv.awaiting_time_pref)));
    r.push(("time_pref_false_count".to_owned(), decimal_text(conv.time_pref_false_count as u64)));
    let time = match &conv.preferred_contact_time {
        Some(t) => t.clone(),
        None => String::new(),
    };
    r.push(("preferred_contact_time".to_owned(), time));
    r.push(
        (
            "time_pref_extraction_error_count".to_owned(),
            decimal_text(conv.time_pref_extraction_error_count as u64),
        ),
    );
    assert(pair_views(r@) =~= conv_pairs(conv@));
    r
}

/// The attributes of a case after a turn.
pub fn merge_support_case_attrs(
    existing: &AttrMap,
    case_id: &str,
    question: &str,
    end_user_id: Option<&str>,
    conv: &CaseConvState,
    advisor_attrs: &AdvisorCaseAttrs,
    conditions: &[(ConditionKey, String)],
    now_rfc3339: &str,
) -> (r: Vec<(String, String)>)
    ensures
        map_of(r@) == case_attrs_after(
            existing@,
            case_id@,
            question@,
            opt_str(end_user_id),
            conv@,
            *advisor_attrs,
            condition_views(conditions@),
            now_rfc3339@,
        ),
        names_distinct(r@),
{
    let mut attrs = existing.copied();
    attrs.set("case_id", case_id);
    attrs.set("question", question);
    if attrs.get("created_at").is_none() {
        attrs.set("created_at", now_rfc3339);
    }
    if let Some(id) = end_user_id {
        if attrs.get("end_user_id").is_none() {
            attrs.set("end_user_id", id);
        }
    }
    let state = conv_updates(conv);
    attrs.set_all(state.as_slice());
    let mut kept = advisor_attr_updates(advisor_attrs);
    kept.push(
        ("question_streak".to_owned(), signed_decimal_text(advisor_attrs.question_streak as i64)),
    );
    assert(pair_views(kept@) =~= advisor_pairs(*advisor_attrs));
    attrs.set_all(kept.as_slice());
    let known = accumulated_condition_updates(conditions);
    attrs.set_all(known.as_slice());
    attrs.into_pairs()
}

/// What the search for a time to call brought.
pub enum TimeSearch {
    /// There was no search.
    NotMade,
    /// What the message says about when to call.
    Found(TimePrefExtraction),
    /// The message could not be searched.
    Failed,
}

/// What was understood of the message, with all conditions that are known by
/// now in place of those of this message.
pub fn with_known_conditions(
    accumulated: &[(ConditionKey, String)],
    understanding: Understanding,
) -> (r: Understanding)
    ensures
        condition_views(r.conditions@) == merged(
            condition_views(accumulated@),
            condition_views(understanding.conditions@),
        ),
        r == (Understanding { conditions: r.conditions, ..understanding }),
{
    let conditions = merge_conditions(accumulated, understanding.conditions.as_slice());
    Understanding {
        in_domain: understanding.in_domain,
        emergency: understanding.emergency,
        urtect_support: understanding.urtect_support,
        lead_interest: understanding.lead_interest,
        product_intent: understanding.product_intent,
        summary_ja: understanding.summary_ja,
        conditions,
    }
}

/// Whether the message has to be searched for a time to call before the reply
/// can be decided on. In an emergency it never is: nothing may hold up the reply.
pub fn needs_time_search(understanding: &Understanding, conv: &CaseConvState) -> (r: bool)
    ensures
        r == (!understanding.emergency && conv.awaiting_time_pref),
{
    !understanding.emergency && conv.awaiting_time_pref
}

/// The kind of reply of a turn, and the state of the conversation before what
/// the reply brings with it is done.
pub open spec fn turn_decided(
    u: Understanding,
    search: TimeSearch,
    conv: ConvView,
    cfg: BusinessHoursConfig,
    lead_requested: bool,
    clarify_max: int,
) -> (ActionView, ConvView) {
    if u.emergency {
        (ActionView::Safety, conv)
    } else if conv.awaiting_time_pref {
        match search {
            TimeSearch::Found(extraction) => time_pref_decided(
                u,
                extraction,
                conv,
                cfg,
                lead_requested,
                clarify_max,
            ),
            TimeSearch::Failed => failure_decided(u, conv, lead_requested, clarify_max),
            TimeSearch::NotMade => (ActionView::TimePrefContinue, conv),
        }
    } else {
        (flow(u, conv.clarify_turns as int, lead_requested, clarify_max, false), conv)
    }
}

/// The turn gives up on a customer who was asked for a time to call: a second turn
/// in a row without a time that fits named one that does not, or the message could
/// not be searched for the third time in a row.
pub open spec fn gives_up_on_lead(
    u: Understanding,
    search: TimeSearch,
    conv: ConvView,
    cfg: BusinessHoursConfig,
) -> bool {
    !u.emergency && conv.awaiting_time_pref && match search {
        TimeSearch::Found(extraction) => {
            &&& extraction.is_time_preference
            &&& first_slot(extraction.windows@, cfg) is None
            &&& conv.time_pref_false_count + 1 >= TIME_PREF_FALSE_LIMIT
        },
        TimeSearch::Failed => conv.time_pref_extraction_error_count + 1
            >= TIME_PREF_EXTRACTION_ERROR_LIMIT,
        TimeSearch::NotMade => false,
    }
}

/// Whether the turn gives up on a customer who was asked for a time to call, given
/// the state before the turn. Turns about something else end the wait without it.
pub fn lead_lost(
    understanding: &Understanding,
    search: &TimeSearch,
    conv: &CaseConvState,
    cfg: &BusinessHoursConfig,
) -> (r: bool)
    ensures
        r == gives_up_on_lead(*understanding, *search, conv@, *cfg),
{
    if understanding.emergency || !conv.awaiting_time_pref {
        return false;
    }
    match search {
        TimeSearch::Found(extraction) => extraction.is_time_preference
            && conv.time_pref_false_count >= TIME_PREF_FALSE_LIMIT - 1 && find_slot(
            extraction.windows.as_slice(),
            cfg,
        ).is_none(),
        TimeSearch::Failed => conv.time_pref_extraction_error_count
            >= TIME_PREF_EXTRACTION_ERROR_LIMIT - 1,
        TimeSearch::NotMade => false,
    }
}

/// A turn that gives up on a customer ends the wait for a time to call, fixes no
/// time, and does not ask for one again; a time that did not fit is not kept.
pub proof fn giving_up_ends_the_wait(
    u: Understanding,
    search: TimeSearch,
    conv: ConvView,
    cfg: BusinessHoursConfig,
    lead_requested: bool,
    clarify_max: int,
)
    requires
        gives_up_on_lead(u, search, conv, cfg),
    ensures
        ({
            let (action, decided_conv) = turn_decided(
                u,
                search,
                conv,
                cfg,
                lead_requested,
                clarify_max,
            );
            let after = conv_after(action, decided_conv);
            &&& !after.awaiting_time_pref
            &&& !(action is LeadConfirmed)
            &&& action != ActionView::LeadSolicit
            &&& search is Found ==> after.preferred_contact_time is None
        }),
{
}

/// What is counted of a message that came while a time to call was awaited can be
/// counted. In an emergency nothing is.
pub open spec fn turn_counts_fit(u: Understanding, search: TimeSearch, conv: ConvView) -> bool {
    !u.emergency && conv.awaiting_time_pref ==> match search {
        TimeSearch::Found(_) => conv.time_pref_false_count < u32::MAX,
        TimeSearch::Failed => conv.time_pref_extraction_error_count < u32::MAX,
        TimeSearch::NotMade => true,
    }
}

/// Whether what is counted of a message that came while a time to call was
/// awaited can be counted.
pub fn turn_can_be_counted(
    understanding: &Understanding,
    search: &TimeSearch,
    conv: &CaseConvState,
) -> (r: bool)
    ensures
        r == turn_counts_fit(*understanding, *search, conv@),
{
    if understanding.emergency || !conv.awaiting_time_pref {
        true
    } else {
        match search {
            TimeSearch::Found(_) => conv.time_pref_false_count < u32::MAX,
            TimeSearch::Failed => conv.time_pref_extraction_error_count < u32::MAX,
            TimeSearch::NotMade => true,
        }
    }
}

/// Decides on the reply of a turn, and does to the state of the conversation,
/// and to what is kept with the case, what the reply brings with it.
pub fn decide_turn(
    understanding: &Understanding,
    search: &TimeSearch,
    conv: &mut CaseConvState,
    advisor_attrs: &mut AdvisorCaseAttrs,
    cfg: &BusinessHoursConfig,
    clarify_max: u32,
) -> (r: AdvisorAction)
    requires
        turn_counts_fit(*understanding, *search, old(conv)@),
    ensures
        ({
            let (action, decided_conv) = turn_decided(
                *understanding,
                *search,
                old(conv)@,
                *cfg,
                old(advisor_attrs).lead_requested,
                clarify_max as int,
            );
            &&& r@ == action
            &&& final(conv)@ == conv_after(action, decided_conv)
        }),
        *final(advisor_attrs) == (AdvisorCaseAttrs {
            lead_requested: old(advisor_attrs).lead_requested || r@ is LeadConfirmed,
            ..*old(advisor_attrs)
        }),
        understanding.emergency ==> r@ == ActionView::Safety && !final(conv).awaiting_time_pref,
{
    let action = if understanding.emergency {
        AdvisorAction::Safety
    } else if conv.awaiting_time_pref {
        match search {
            TimeSearch::Found(extraction) => decide_time_pref(
                understanding,
                extraction,
                conv,
                cfg,
                advisor_attrs.lead_requested,
                clarify_max,
            ),
            TimeSearch::Failed => decide_time_pref_extraction_failed(
                understanding,
                conv,
                advisor_attrs.lead_requested,
                clarify_max,
            ),
            TimeSearch::NotMade => AdvisorAction::TimePrefContinue,
        }
    } else {
        decide(
            understanding,
            conv,
            advisor_attrs.lead_offered,
            advisor_attrs.lead_requested,
            clarify_max,
        )
    };
    apply_action_contract(&action, conv, advisor_attrs);
    action
}

/// The kinds under which replies are recorded.
#[derive(Debug, Clone, Copy, PartialEq, Eq, Structural)]
pub enum ReplyKind {
    Safety,
    TimePref,
    OutOfDomain,
    Handoff,
    Lead,
    Clarify,
    Answer,
    Fallback,
}

impl ReplyKind {
    /// The word for this kind of reply.
    pub open spec fn word(self) -> Seq<char> {
        match self {
            ReplyKind::Safety => "safety"@,
            ReplyKind::TimePref => "time_pref"@,
            ReplyKind::OutOfDomain => "out_of_domain"@,
            ReplyKind::Handoff => "handoff"@,
            ReplyKind::Lead => "lead"@,
            ReplyKind::Clarify => "clarify"@,
            ReplyKind::Answer => "answer"@,
            ReplyKind::Fallback => "fallback"@,
        }
    }

    /// The word for this kind of reply.
    pub fn as_str(self) -> (r: &'static str)
        ensures
            r@ == self.word(),
            r@ == "fallback"@ <==> self == ReplyKind::Fallback,
    {
        proof {
            reveal_strlit("safety");
            reveal_strlit("time_pref");
            reveal_strlit("out_of_domain");
            reveal_strlit("handoff");
            reveal_strlit("lead");
            reveal_strlit("clarify");
            reveal_strlit("answer");
            reveal_strlit("fallback");
            assert("fallback"@.len() == 8);
            assert("safety"@.len() == 6);
            assert("time_pref"@.len() == 9);
            assert("out_of_domain"@.len() == 13);
            assert("handoff"@.len() == 7);
            assert("lead"@.len() == 4);
            assert("clarify"@.len() == 7);
            assert("answer"@.len() == 6);
        }
        match self {
            ReplyKind::Safety => "safety",
            ReplyKind::TimePref => "time_pref",
            ReplyKind::OutOfDomain => "out_of_domain",
            ReplyKind::Handoff => "handoff",
            ReplyKind::Lead => "lead",
            ReplyKind::Clarify => "clarify",
            ReplyKind::Answer => "answer",
            ReplyKind::Fallback => "fallback",
        }
    }
}

/// What a turn replies: the text, the kind it is recorded under, the short
/// replies that go with it, and the note of an answer.
pub struct TurnReply {
    pub text: String,
    pub kind: ReplyKind,
    pub quick_replies: Option<Vec<QuickReplyItem>>,
    pub meta: Option<DraftMeta>,
}

/// What a turn replies.
#[verifier::ext_equal]
pub struct ReplyView {
    pub text: Seq<char>,
    pub kind: ReplyKind,
    pub quick_replies: Option<Seq<ItemView>>,
    pub meta: Option<MetaView>,
}

impl View for TurnReply {
    type V = ReplyView;

    open spec fn view(&self) -> ReplyView {
        ReplyView {
            text: self.text@,
            kind: self.kind,
            quick_replies: offered(self.quick_replies),
            meta: meta_view(self.meta),
        }
    }
}

/// A reply that is nothing but a text.
pub open spec fn plain_reply(text: Seq<char>, kind: ReplyKind) -> ReplyView {
    ReplyView { text, kind, quick_replies: None, meta: None }
}

/// A reply that asks for a time to call.
pub open spec fn time_reply(text: Seq<char>) -> ReplyView {
    ReplyView {
        text,
        kind: ReplyKind::TimePref,
        quick_replies: Some(capped(time_pref_items())),
        meta: None,
    }
}

/// The reply that needs no draft, for the kinds that have one.
pub open spec fn fixed_reply(action: ActionView, cfg: BusinessHoursConfig, handoff_text: Seq<char>) -> Option<
    ReplyView,
> {
    match action {
        ActionView::Safety => Some(plain_reply(SAFETY_TEXT@, ReplyKind::Safety)),
        ActionView::TimePrefContinue => Some(time_reply(reask_text(hours_label(cfg)))),
        ActionView::OutOfDomain => Some(plain_reply(OUT_OF_DOMAIN_TEXT@, ReplyKind::OutOfDomain)),
        ActionView::Handoff => Some(plain_reply(handoff_text, ReplyKind::Handoff)),
        ActionView::LeadSolicit => Some(time_reply(solicit_text(hours_label(cfg)))),
        ActionView::LeadConfirmed { slot } => Some(plain_reply(confirmed_text(slot), ReplyKind::Lead)),
        ActionView::Clarify { missing } => None,
        ActionView::Answer => None,
    }
}

fn just_text(text: String, kind: ReplyKind) -> (r: TurnReply)
    ensures
        r@ == plain_reply(text@, kind),
{
    TurnReply { text, kind, quick_replies: None, meta: None }
}

/// The reply that needs no draft, for the kinds that have one. `handoff_text`
/// tells where support is to be had.
pub fn canned_reply(action: &AdvisorAction, cfg: &BusinessHoursConfig, handoff_text: &str) -> (r: Option<
    TurnReply,
>)
    ensures
        match r {
            Some(reply) => fixed_reply(action@, *cfg, handoff_text@) == Some(reply@),
            None => fixed_reply(action@, *cfg, handoff_text@) is None,
        },
{
    match action {
        AdvisorAction::Safety => Some(just_text(SAFETY_TEXT.to_owned(), ReplyKind::Safety)),
        AdvisorAction::TimePrefContinue => Some(
            TurnReply {
                text: lead_time_pref_reask(cfg),
                kind: ReplyKind::TimePref,
                quick_replies: for_time_pref(),
                meta: None,
            },
        ),
        AdvisorAction::OutOfDomain => Some(
            just_text(OUT_OF_DOMAIN_TEXT.to_owned(), ReplyKind::OutOfDomain),
        ),
        AdvisorAction::Handoff => Some(just_text(handoff_text.to_owned(), ReplyKind::Handoff)),
        AdvisorAction::LeadSolicit => Some(
            TurnReply {
                text: lead_solicit(cfg),
                kind: ReplyKind::TimePref,
                quick_replies: for_time_pref(),
                meta: None,
            },
        ),
        AdvisorAction::LeadConfirmed { slot } => Some(
            just_text(lead_confirmed(slot.as_str()), ReplyKind::Lead),
        ),
        AdvisorAction::Clarify { .. } => None,
        AdvisorAction::Answer => None,
    }
}

/// How a turn goes on once its kind of reply is decided on.
pub enum TurnPlan {
    /// The reply is fixed.
    Reply(TurnReply),
    /// A draft is needed: one that asks back for the conditions, or an answer.
    Draft { missing: Option<Vec<ConditionKey>> },
}

/// Decides on the reply of a turn, and says how the turn goes on. The state of
/// the conversation and what is kept with the case are as the reply leaves them.
pub fn plan_turn(
    understanding: &Understanding,
    search: &TimeSearch,
    conv: &mut CaseConvState,
    advisor_attrs: &mut AdvisorCaseAttrs,
    cfg: &BusinessHoursConfig,
    clarify_max: u32,
    handoff_text: &str,
) -> (r: (AdvisorAction, TurnPlan))
    requires
        turn_counts_fit(*understanding, *search, old(conv)@),
    ensures
        ({
            let (action, decided_conv) = turn_decided(
                *understanding,
                *search,
                old(conv)@,
                *cfg,
                old(advisor_attrs).lead_requested,
                clarify_max as int,
            );
            &&& r.0@ == action
            &&& final(conv)@ == conv_after(action, decided_conv)
            &&& match fixed_reply(action, *cfg, handoff_text@) {
                Some(reply) => r.1 is Reply && (r.1->Reply_0)@ == reply,
                None => r.1 is Draft && match action {
                    ActionView::Clarify { missing } => r.1->missing is Some && (
                    r.1->missing->0)@ == missing,
                    _ => r.1->missing is None,
                },
            }
        }),
        *final(advisor_attrs) == (AdvisorCaseAttrs {
            lead_requested: old(advisor_attrs).lead_requested || r.0@ is LeadConfirmed,
            ..*old(advisor_attrs)
        }),
{
    let action = decide_turn(understanding, search, conv, advisor_attrs, cfg, clarify_max);
    let plan = match canned_reply(&action, cfg, handoff_text) {
        Some(reply) => TurnPlan::Reply(reply),
        None => TurnPlan::Draft {
            missing: match &action {
                AdvisorAction::Clarify { missing } => Some(copy_keys(missing.as_slice())),
                _ => None,
            },
        },
    };
    (action, plan)
}

fn copy_keys(keys: &[ConditionKey]) -> (r: Vec<ConditionKey>)
    ensures
        r@ == keys@,
{
    let mut r: Vec<ConditionKey> = Vec::new();
    let mut i: usize = 0;
    while i < keys.len()
        invariant
            i <= keys.len(),
            r@ =~= keys@.take(i as int),
        decreases keys.len() - i,
    {
        r.push(keys[i]);
        i = i + 1;
    }
    assert(keys@.take(keys@.len() as int) =~= keys@);
    r
}

/// Whether the conversation is under way: something was said before, or there
/// is a case.
pub fn is_under_way(history: &[HistoryEntry], case_id: Option<&str>) -> (r: bool)
    ensures
        r == (history@.len() > 0 || case_id is Some),
{
    history.len() > 0 || case_id.is_some()
}

/// The reply to a message that could not be understood.
pub fn fallback_reply() -> (r: TurnReply)
    ensures
        r@ == plain_reply(FALLBACK_TEXT@, ReplyKind::Fallback),
{
    just_text(FALLBACK_TEXT.to_owned(), ReplyKind::Fallback)
}

/// What is kept with the case once a drafted text is out.
pub open spec fn noted_offer(attrs: AdvisorCaseAttrs, text: Seq<char>) -> AdvisorCaseAttrs {
    AdvisorCaseAttrs { lead_offered: attrs.lead_offered || offers_lead(text), ..attrs }
}

/// The reply that asks back with a drafted text. The fallback has no short
/// replies, and no draft that asks back has a note.
pub open spec fn asked_back(missing: Seq<ConditionKey>, text: Seq<char>) -> ReplyView {
    if text == FALLBACK_TEXT@ {
        plain_reply(text, ReplyKind::Fallback)
    } else {
        ReplyView {
            text,
            kind: ReplyKind::Clarify,
            quick_replies: clarify_items(missing),
            meta: None,
        }
    }
}

/// Replies with a draft that asks back, and notes what it offers.
pub fn clarify_reply(
    missing: &[ConditionKey],
    text: String,
    llm_meta: Option<DraftMeta>,
    advisor_attrs: &mut AdvisorCaseAttrs,
) -> (r: TurnReply)
    ensures
        r@ == asked_back(missing@, text@),
        *final(advisor_attrs) == noted_offer(*old(advisor_attrs), text@),
{
    let meta = clarify_meta_for_upstream(llm_meta);
    if should_burn_lead_offered(advisor_attrs.lead_offered, text.as_str()) {
        advisor_attrs.lead_offered = true;
    }
    if same(text.as_str(), FALLBACK_TEXT) {
        return TurnReply { text, kind: ReplyKind::Fallback, quick_replies: None, meta };
    }
    TurnReply { text, kind: ReplyKind::Clarify, quick_replies: for_clarify(missing), meta }
}

/// The reply that answers with a drafted text and its note. The fallback has no
/// short replies.
pub open spec fn answered(text: Seq<char>, meta: Option<MetaView>) -> ReplyView {
    if text == FALLBACK_TEXT@ {
        ReplyView { text, kind: ReplyKind::Fallback, quick_replies: None, meta }
    } else {
        ReplyView { text, kind: ReplyKind::Answer, quick_replies: answer_items(meta), meta }
    }
}

/// The ending that a note names.
pub open spec fn closing_of(meta: Option<MetaView>) -> Option<ClosingKind> {
    match meta {
        Some(m) => Some(m.closing),
        None => None,
    }
}

/// Replies with a drafted answer, notes what it offers, and counts the
/// questions that answers end in.
pub fn answer_reply(text: String, meta: Option<DraftMeta>, advisor_attrs: &mut AdvisorCaseAttrs) -> (r:
    TurnReply)
    ensures
        r@ == answered(text@, meta_view(meta)),
        *final(advisor_attrs) == (AdvisorCaseAttrs {
            question_streak: streak_after(
                old(advisor_attrs).question_streak as int,
                closing_of(meta_view(meta)),
            ) as i32,
            ..noted_offer(*old(advisor_attrs), text@)
        }),
{
    if should_burn_lead_offered(advisor_attrs.lead_offered, text.as_str()) {
        advisor_attrs.lead_offered = true;
    }
    let closing = match &meta {
        Some(m) => Some(m.closing),
        None => None,
    };
    advisor_attrs.question_streak = next_question_streak(advisor_attrs.question_streak, closing);
    if same(text.as_str(), FALLBACK_TEXT) {
        return TurnReply { text, kind: ReplyKind::Fallback, quick_replies: None, meta };
    }
    let quick_replies = match &meta {
        Some(m) => for_answer(Some(m)),
        None => for_answer(None),
    };
    TurnReply { text, kind: ReplyKind::Answer, quick_replies, meta }
}

/// Replies with a draft: one that asks back for the conditions where there are
/// any to ask for, and an answer otherwise.
pub fn reply_with_draft(
    missing: &Option<Vec<ConditionKey>>,
    text: String,
    meta: Option<DraftMeta>,
    advisor_attrs: &mut AdvisorCaseAttrs,
) -> (r: TurnReply)
    ensures
        match *missing {
            Some(keys) => {
                &&& r@ == asked_back(keys@, text@)
                &&& *final(advisor_attrs) == noted_offer(*old(advisor_attrs), text@)
            },
            None => {
                &&& r@ == answered(text@, meta_view(meta))
                &&& *final(advisor_attrs) == (AdvisorCaseAttrs {
                    question_streak: streak_after(
                        old(advisor_attrs).question_streak as int,
                        closing_of(meta_view(meta)),
                    ) as i32,
                    ..noted_offer(*old(advisor_attrs), text@)
                })
            },
        },
{
    match missing {
        Some(keys) => clarify_reply(keys.as_slice(), text, meta, advisor_attrs),
        None => answer_reply(text, meta, advisor_attrs),
    }
}

/// The materials that the note puts forward; none unless the answer ends in a
/// proposal.
pub open spec fn featured_of(ms: Seq<MaterialView>, meta: Option<MetaView>) -> Seq<MaterialView>
    decreases ms.len(),
{
    if ms.len() == 0 {
        ms
    } else {
        let rest = featured_of(ms.drop_last(), meta);
        match meta {
            Some(m) => if m.closing == ClosingKind::Proposal && m.featured.contains(
                ms.last().material_key,
            ) {
                rest.push(ms.last())
            } else {
                rest
            },
            None => rest,
        }
    }
}

fn pick_featured(materials: &[AdvisorMaterial], meta: &Option<DraftMeta>) -> (r: Vec<AdvisorMaterial>)
    ensures
        views(r@) == featured_of(views(materials@), meta_view(*meta)),
{
    let ghost all = views(materials@);
    let ghost note = meta_view(*meta);
    let mut r: Vec<AdvisorMaterial> = Vec::new();
    let mut i: usize = 0;
    assert(views(r@) =~= featured_of(all.take(0), note));
    while i < materials.len()
        invariant
            i <= materials.len(),
            all == views(materials@),
            note == meta_view(*meta),
            views(r@) == featured_of(all.take(i as int), note),
        decreases materials.len() - i,
    {
        proof {
            take_next(all, i as int);
            assert(all[i as int] == materials@[i as int]@);
        }
        if let Some(m) = meta {
            if m.closing == ClosingKind::Proposal && among(
                m.featured.as_slice(),
                materials[i].material_key.as_str(),
            ) {
                let ghost r0 = r@;
                let copy = materials[i].copied();
                r.push(copy);
                assert(views(r@) =~= views(r0).push(all[i as int]));
            }
        }
        i = i + 1;
    }
    assert(all.take(all.len() as int) =~= all);
    r
}

/// A card whose image is found at the public host.
pub open spec fn hosted(card: CardView, public_host: Seq<char>) -> CardView {
    CardView {
        image_url: match card.image_url {
            Some(path) => Some("https://"@ + public_host + path),
            None => None,
        },
        ..card
    }
}

/// The cards that go with a reply: none with the fallback, and none unless the
/// answer ends in a proposal.
pub open spec fn cards_with(
    reply: ReplyView,
    final_text: Seq<char>,
    ms: Seq<MaterialView>,
    shown_csv: Seq<char>,
    images: Seq<Seq<char>>,
) -> Seq<CardView> {
    if reply.kind == ReplyKind::Fallback {
        Seq::empty()
    } else {
        cards_for(final_text, featured_of(ms, reply.meta), shown_csv, images)
    }
}

/// The keys of cards.
pub open spec fn card_keys(cards: Seq<CardView>) -> Seq<Seq<char>> {
    cards.map_values(|c: CardView| c.material_key)
}

/// What optional cards say.
pub open spec fn cards_offered(cards: Option<Vec<ProductCard>>) -> Option<Seq<CardView>> {
    match cards {
        Some(v) => Some(card_views(v@)),
        None => None,
    }
}

/// The cards with their images at the public host; nothing where there are none.
pub open spec fn hosted_cards(cards: Seq<CardView>, public_host: Seq<char>) -> Option<Seq<CardView>> {
    if cards.len() == 0 {
        None
    } else {
        Some(cards.map_values(|c: CardView| hosted(c, public_host)))
    }
}

/// The keys of the materials whose cards were shown, once the given cards are.
pub open spec fn shown_after(shown_csv: Seq<char>, cards: Seq<CardView>) -> Seq<char> {
    if cards.len() == 0 {
        shown_csv
    } else {
        join(csv_items(shown_csv) + card_keys(cards), ","@)
    }
}

/// Picks the cards that go with a reply, and notes them as shown. `images` are
/// the names of the images that there are.
pub fn attach_cards(
    reply: &TurnReply,
    final_text: &str,
    materials: &[AdvisorMaterial],
    images: &[String],
    public_host: &str,
    advisor_attrs: &mut AdvisorCaseAttrs,
) -> (r: Option<Vec<ProductCard>>)
    ensures
        ({
            let cards = cards_with(
                reply@,
                final_text@,
                views(materials@),
                old(advisor_attrs).shown_product_cards@,
                texts(images@),
            );
            &&& cards_offered(r) == hosted_cards(cards, public_host@)
            &&& final(advisor_attrs).shown_product_cards@ == shown_after(
                old(advisor_attrs).shown_product_cards@,
                cards,
            )
            &&& *final(advisor_attrs) == (AdvisorCaseAttrs {
                shown_product_cards: final(advisor_attrs).shown_product_cards,
                ..*old(advisor_attrs)
            })
        }),
{
    if !should_select_cards(reply.kind.as_str()) {
        return None;
    }
    let candidates = pick_featured(materials, &reply.meta);
    let selected = select_cards(
        final_text,
        candidates.as_slice(),
        advisor_attrs.shown_product_cards.as_str(),
        images,
    );
    if selected.len() == 0 {
        return None;
    }
    let ghost cards = card_views(selected@);
    let ghost f = |c: CardView| hosted(c, public_host@);
    let mut r: Vec<ProductCard> = Vec::new();
    let mut keys: Vec<&str> = Vec::new();
    let mut i: usize = 0;
    while i < selected.len()
        invariant
            i <= selected.len(),
            cards == card_views(selected@),
            f == (|c: CardView| hosted(c, public_host@)),
            card_views(r@) =~= cards.map_values(f).take(i as int),
            str_texts(keys@) =~= card_keys(cards).take(i as int),
        decreases selected.len() - i,
    {
        let c = &selected[i];
        assert(cards[i as int] == c@);
        let image_url = match &c.image_url {
            Some(path) => {
                let mut url = "https://".to_owned();
                url.append(public_host);
                url.append(path.as_str());
                Some(url)
            },
            None => None,
        };
        let card = ProductCard {
            material_key: c.material_key.clone(),
            title: c.title.clone(),
            description: c.description.clone(),
            image_url,
            button_text: c.button_text.clone(),
            button_message: c.button_message.clone(),
        };
        let ghost r0 = r@;
        let ghost v0 = card@;
        r.push(card);
        let ghost k0 = keys@;
        keys.push(c.material_key.as_str());
        proof {
            take_next(cards.map_values(f), i as int);
            take_next(card_keys(cards), i as int);
            assert(card_views(r@) =~= card_views(r0).push(v0));
            assert(v0 == f(cards[i as int]));
            assert(str_texts(keys@) =~= str_texts(k0).push(c@.material_key));
        }
        i = i + 1;
    }
    proof {
        let all = cards.map_values(f);
        assert(all.take(all.len() as int) =~= all);
        let ks = card_keys(cards);
        assert(ks.take(ks.len() as int) =~= ks);
    }
    advisor_attrs.shown_product_cards = append_shown_product_cards(
        advisor_attrs.shown_product_cards.as_str(),
        keys.as_slice(),
    );
    assert(card_views(r@) =~= cards.map_values(f));
    Some(r)
}

/// The materials that a draft is given: the known resolution first, then what
/// the search hit, then the own products where they are guaranteed, then what
/// the category calls for.
pub open spec fn materials_given(
    kr: Option<&KnownResolution>,
    searched: Seq<MaterialView>,
    own_products: Seq<MaterialView>,
    category_pool: Seq<MaterialView>,
    conditions: Seq<(ConditionKey, String)>,
    product_intent: bool,
) -> Seq<MaterialView> {
    let composed = composed_of(kr, searched);
    let category = first_value(conditions, ConditionKey::Concern);
    let guarantee = product_intent || has_condition(conditions, ConditionKey::Concern);
    injected_within(
        if guarantee {
            injected(composed, own_products_for(own_products, category))
        } else {
            composed
        },
        picked_for(category_pool, category),
    )
}

/// The materials that a draft is given.
pub fn prepare_materials(
    kr: Option<&KnownResolution>,
    searched: Vec<AdvisorMaterial>,
    own_products: &[AdvisorMaterial],
    category_pool: &[AdvisorMaterial],
    conditions: &[(ConditionKey, String)],
    product_intent: bool,
) -> (r: Vec<AdvisorMaterial>)
    ensures
        views(r@) == materials_given(
            kr,
            views(searched@),
            views(own_products@),
            views(category_pool@),
            conditions@,
            product_intent,
        ),
{
    let first = compose_materials(kr, searched);
    let category = concern_category(conditions);
    let second = if should_guarantee_own_products(product_intent, conditions) {
        let guaranteed = select_own_product_materials(own_products, category);
        inject_guaranteed_own_products(first, guaranteed)
    } else {
        first
    };
    let candidates = select_category_materials(category_pool, category);
    inject_category_materials(second, candidates)
}

/// What is sent back for a message.
#[derive(Debug, Clone, PartialEq, Eq)]
pub struct AdvisorReplyResponse {
    pub reply_text: String,
    pub case_id: String,
    pub product_cards: Option<Vec<ProductCard>>,
    pub quick_replies: Option<Vec<QuickReplyItem>>,
}

/// What a turn leaves behind: what is sent, and the attributes of the case.
pub struct CompletedTurn {
    pub response: AdvisorReplyResponse,
    pub case_attrs: Vec<(String, String)>,
}

/// Completes a turn: makes the text plain, picks the cards that go with it, and
/// puts together what is sent and what is kept with the case. `images` are the
/// names of the images that there are.
pub fn complete_turn(
    reply: TurnReply,
    materials: &[AdvisorMaterial],
    images: &[String],
    public_host: &str,
    existing: &AttrMap,
    case_id: &str,
    question: &str,
    end_user_id: Option<&str>,
    conv: &CaseConvState,
    advisor_attrs: &mut AdvisorCaseAttrs,
    conditions: &[(ConditionKey, String)],
    now_rfc3339: &str,
) -> (r: CompletedTurn)
    ensures
        ({
            let cards = cards_with(
                reply@,
                plain_text(reply@.text),
                views(materials@),
                old(advisor_attrs).shown_product_cards@,
                texts(images@),
            );
            &&& r.response.reply_text@ == plain_text(reply@.text)
            &&& r.response.case_id@ == case_id@
            &&& cards_offered(r.response.product_cards) == hosted_cards(cards, public_host@)
            &&& offered(r.response.quick_replies) == reply@.quick_replies
            &&& final(advisor_attrs).shown_product_cards@ == shown_after(
                old(advisor_attrs).shown_product_cards@,
                cards,
            )
            &&& *final(advisor_attrs) == (AdvisorCaseAttrs {
                shown_product_cards: final(advisor_attrs).shown_product_cards,
                ..*old(advisor_attrs)
            })
        }),
        map_of(r.case_attrs@) == case_attrs_after(
            existing@,
            case_id@,
            question@,
            opt_str(end_user_id),
            conv@,
            *final(advisor_attrs),
            condition_views(conditions@),
            now_rfc3339@,
        ),
        names_distinct(r.case_attrs@),
{
    let text = to_plain_text(reply.text.as_str());
    let product_cards = attach_cards(
        &reply,
        text.as_str(),
        materials,
        images,
        public_host,
        advisor_attrs,
    );
    let case_attrs = merge_support_case_attrs(
        existing,
        case_id,
        question,
        end_user_id,
        conv,
        advisor_attrs,
        conditions,
        now_rfc3339,
    );
    CompletedTurn {
        response: AdvisorReplyResponse {
            reply_text: text,
            case_id: case_id.to_owned(),
            product_cards,
            quick_replies: reply.quick_replies,
        },
        case_attrs,
    }
}

/// Why a request is refused.
#[derive(Debug, Clone, Copy, PartialEq, Eq, Structural)]
pub enum Refusal {
    Unauthorized,
    UnknownProject,
    InvalidRequest,
    Internal,
}

impl Refusal {
    /// The word for this refusal.
    pub fn as_str(self) -> (r: &'static str)
        ensures
            r@ == match self {
                Refusal::Unauthorized => "unauthorized"@,
                Refusal::UnknownProject => "unknown_project"@,
                Refusal::InvalidRequest => "invalid_request"@,
                Refusal::Internal => "internal"@,
            },
    {
        match self {
            Refusal::Unauthorized => "unauthorized",
            Refusal::UnknownProject => "unknown_project",
            Refusal::InvalidRequest => "invalid_request",
            Refusal::Internal => "internal",
        }
    }

    /// The status with which this refusal is answered.
    pub fn status(self) -> (r: u16)
        ensures
            r == match self {
                Refusal::Unauthorized => 401u16,
                Refusal::UnknownProject => 404u16,
                Refusal::InvalidRequest => 400u16,
                Refusal::Internal => 500u16,
            },
    {
        match self {
            Refusal::Unauthorized => 401,
            Refusal::UnknownProject => 404,
            Refusal::InvalidRequest => 400,
            Refusal::Internal => 500,
        }
    }
}

/// Why a request is refused, if it is: who asks is looked at before what project
/// they ask about, and that before what they say.
pub fn refuse_request(authorized: bool, project_known: bool, body_valid: bool) -> (r: Option<Refusal>)
    ensures
        r == if !authorized {
            Some(Refusal::Unauthorized)
        } else if !project_known {
            Some(Refusal::UnknownProject)
        } else if !body_valid {
            Some(Refusal::InvalidRequest)
        } else {
            None
        },
{
    if !authorized {
        Some(Refusal::Unauthorized)
    } else if !project_known {
        Some(Refusal::UnknownProject)
    } else if !body_valid {
        Some(Refusal::InvalidRequest)
    } else {
        None
    }
}

/// A turn that ends in the fallback promises nothing: no cards go with it and
/// no short replies, no offer is noted, and without a note the questions are
/// not counted.
pub proof fn fallback_turns_promise_nothing(
    missing: Seq<ConditionKey>,
    final_text: Seq<char>,
    ms: Seq<MaterialView>,
    shown_csv: Seq<char>,
    images: Seq<Seq<char>>,
    attrs: AdvisorCaseAttrs,
)
    ensures
        asked_back(missing, FALLBACK_TEXT@) == plain_reply(FALLBACK_TEXT@, ReplyKind::Fallback),
        answered(FALLBACK_TEXT@, None) == plain_reply(FALLBACK_TEXT@, ReplyKind::Fallback),
        cards_with(
            plain_reply(FALLBACK_TEXT@, ReplyKind::Fallback),
            final_text,
            ms,
            shown_csv,
            images,
        ).len() == 0,
        noted_offer(attrs, FALLBACK_TEXT@) == attrs,
        streak_after(attrs.question_streak as int, None) == attrs.question_streak,
{
}

proof fn featured_only_in_proposals(ms: Seq<MaterialView>, meta: Option<MetaView>)
    requires
        closing_of(meta) != Some(ClosingKind::Proposal),
    ensures
        featured_of(ms, meta).len() == 0,
    decreases ms.len(),
{
    if ms.len() > 0 {
        featured_only_in_proposals(ms.drop_last(), meta);
    }
}

/// Cards go only with answers that end in a proposal, never with a question.
pub proof fn questions_have_no_cards(
    reply: ReplyView,
    final_text: Seq<char>,
    ms: Seq<MaterialView>,
    shown_csv: Seq<char>,
    images: Seq<Seq<char>>,
)
    requires
        closing_of(reply.meta) != Some(ClosingKind::Proposal),
    ensures
        cards_with(reply, final_text, ms, shown_csv, images).len() == 0,
{
    featured_only_in_proposals(ms, reply.meta);
}

/// That a person getting in touch was offered is noted with the text that
/// offers it, and stays noted.
pub proof fn offers_are_remembered(attrs: AdvisorCaseAttrs, text: Seq<char>)
    ensures
        offers_lead(text) ==> noted_offer(attrs, text).lead_offered,
        attrs.lead_offered ==> noted_offer(attrs, text).lead_offered,
        noted_offer(attrs, text).lead_offered ==> attrs.lead_offered || contains(
            text,
            LEAD_OFFER_MARKER@,
        ),
{
}

/// Once a time to call is fixed, the customer is not asked for one again,
/// outside a wait that is still on.
pub proof fn fixed_times_are_not_asked_for_again(
    u: Understanding,
    search: TimeSearch,
    conv: ConvView,
    cfg: BusinessHoursConfig,
    clarify_max: int,
)
    ensures
        turn_decided(u, search, conv, cfg, true, clarify_max).0 != ActionView::LeadSolicit,
{
}

/// A customer is asked back only so often: each time is counted, and once the
/// limit is reached they are not asked back any more.
pub proof fn asking_back_is_counted_and_ends(
    u: Understanding,
    search: TimeSearch,
    conv: ConvView,
    cfg: BusinessHoursConfig,
    lead_requested: bool,
    clarify_max: u32,
)
    ensures
        ({
            let (action, decided_conv) = turn_decided(
                u,
                search,
                conv,
                cfg,
                lead_requested,
                clarify_max as int,
            );
            &&& conv.clarify_turns >= clarify_max ==> !(action is Clarify)
            &&& action is Clarify ==> conv_after(action, decided_conv).clarify_turns
                == conv.clarify_turns + 1
        }),
{
}

/// The names under which a turn writes, the conditions' aside.
pub open spec fn turn_names() -> Seq<Seq<char>> {
    seq![
        "case_id"@,
        "question"@,
        "created_at"@,
        "end_user_id"@,
        "clarify_turns"@,
        "awaiting_time_pref"@,
        "time_pref_false_count"@,
        "preferred_contact_time"@,
        "time_pref_extraction_error_count"@,
        "lead_offered"@,
        "lead_requested"@,
        "shown_product_cards"@,
        "question_streak"@,
    ]
}

proof fn turn_name_lengths()
    ensures
        "case_id"@.len() == 7,
        "question"@.len() == 8,
        "created_at"@.len() == 10,
        "end_user_id"@.len() == 11,
        "clarify_turns"@.len() == 13,
        "awaiting_time_pref"@.len() == 18,
        "time_pref_false_count"@.len() == 21,
        "preferred_contact_time"@.len() == 22,
        "time_pref_extraction_error_count"@.len() == 32,
        "lead_offered"@.len() == 12,
        "lead_requested"@.len() == 14,
        "shown_product_cards"@.len() == 19,
        "shown_product_cards"@[0] == 's',
        "question_streak"@.len() == 15,
        forall|key: ConditionKey|
            (#[trigger] condition_attr(key)).len() >= 19 && condition_attr(key).len() <= 20
                && condition_attr(key)[0] == 'a',
{
    reveal_strlit("case_id");
    reveal_strlit("question");
    reveal_strlit("created_at");
    reveal_strlit("end_user_id");
    reveal_strlit("clarify_turns");
    reveal_strlit("awaiting_time_pref");
    reveal_strlit("time_pref_false_count");
    reveal_strlit("preferred_contact_time");
    reveal_strlit("time_pref_extraction_error_count");
    reveal_strlit("lead_offered");
    reveal_strlit("lead_requested");
    reveal_strlit("shown_product_cards");
    reveal_strlit("question_streak");
    reveal_strlit("advisor_cond_housing");
    reveal_strlit("advisor_cond_target");
    reveal_strlit("advisor_cond_concern");
    reveal_strlit("advisor_cond_budget");
    reveal_strlit("advisor_cond_install");
}

proof fn put_all_leaves(
    attrs: Map<Seq<char>, Seq<char>>,
    pairs: Seq<(Seq<char>, Seq<char>)>,
    name: Seq<char>,
)
    requires
        forall|i: int| 0 <= i < pairs.len() ==> (#[trigger] pairs[i]).0 != name,
    ensures
        put_all(attrs, pairs).contains_key(name) == attrs.contains_key(name),
        attrs.contains_key(name) ==> put_all(attrs, pairs)[name] == attrs[name],
    decreases pairs.len(),
{
    if pairs.len() > 0 {
        let head = pairs.drop_last();
        assert forall|i: int| 0 <= i < head.len() implies (#[trigger] head[i]).0 != name by {
            assert(head[i] == pairs[i]);
        }
        put_all_leaves(attrs, head, name);
        assert(pairs[pairs.len() - 1].0 != name);
    }
}

proof fn condition_names_only(cs: Seq<(ConditionKey, Seq<char>)>, keys: Seq<ConditionKey>)
    ensures
        forall|i: int|
            0 <= i < condition_updates(cs, keys).len() ==> exists|key: ConditionKey| (
            #[trigger] condition_updates(cs, keys)[i]).0 == #[trigger] condition_attr(key),
    decreases keys.len(),
{
    if keys.len() > 0 {
        let rest = condition_updates(cs, keys.drop_last());
        let all = condition_updates(cs, keys);
        condition_names_only(cs, keys.drop_last());
        assert forall|i: int| 0 <= i < all.len() implies exists|key: ConditionKey| (
        #[trigger] all[i]).0 == #[trigger] condition_attr(key) by {
            if i < rest.len() {
                assert(all[i] == rest[i]);
            } else {
                assert(all[i].0 == condition_attr(keys.last()));
            }
        }
    }
}

/// What a turn does not write, it leaves: an attribute under any other name is
/// as it was.
pub proof fn other_attributes_stay(
    existing: Map<Seq<char>, Seq<char>>,
    case_id: Seq<char>,
    question: Seq<char>,
    end_user_id: Option<Seq<char>>,
    conv: ConvView,
    advisor_attrs: AdvisorCaseAttrs,
    conditions: Seq<(ConditionKey, Seq<char>)>,
    now: Seq<char>,
    name: Seq<char>,
)
    requires
        !turn_names().contains(name),
        forall|key: ConditionKey| name != #[trigger] condition_attr(key),
    ensures
        ({
            let after = case_attrs_after(
                existing,
                case_id,
                question,
                end_user_id,
                conv,
                advisor_attrs,
                conditions,
                now,
            );
            &&& after.contains_key(name) == existing.contains_key(name)
            &&& existing.contains_key(name) ==> after[name] == existing[name]
        }),
{
    let names = turn_names();
    assert forall|i: int| 0 <= i < names.len() implies names[i] != name by {}
    assert(names[0] != name && names[1] != name && names[2] != name && names[3] != name);
    assert(names[4] != name && names[5] != name && names[6] != name && names[7] != name);
    assert(names[8] != name && names[9] != name && names[10] != name && names[11] != name);
    assert(names[12] != name);
    let named = existing.insert("case_id"@, case_id).insert("question"@, question);
    let opened = unless_there(named, "created_at"@, Some(now));
    let owned = unless_there(opened, "end_user_id"@, end_user_id);
    let stated = put_all(owned, conv_pairs(conv));
    let kept = put_all(stated, advisor_pairs(advisor_attrs));
    put_all_leaves(owned, conv_pairs(conv), name);
    put_all_leaves(stated, advisor_pairs(advisor_attrs), name);
    let updates = condition_updates(conditions, condition_keys());
    condition_names_only(conditions, condition_keys());
    assert forall|i: int| 0 <= i < updates.len() implies (#[trigger] updates[i]).0 != name by {
        let key = choose|key: ConditionKey| updates[i].0 == #[trigger] condition_attr(key);
        assert(updates[i].0 == condition_attr(key));
    }
    put_all_leaves(kept, updates, name);
}

/// A case keeps the time at which it was opened and the user whose it is: a
/// later turn overwrites neither.
pub proof fn opening_time_and_owner_stay(
    existing: Map<Seq<char>, Seq<char>>,
    case_id: Seq<char>,
    question: Seq<char>,
    end_user_id: Option<Seq<char>>,
    conv: ConvView,
    advisor_attrs: AdvisorCaseAttrs,
    conditions: Seq<(ConditionKey, Seq<char>)>,
    now: Seq<char>,
)
    ensures
        ({
            let after = case_attrs_after(
                existing,
                case_id,
                question,
                end_user_id,
                conv,
                advisor_attrs,
                conditions,
                now,
            );
            &&& after.contains_key("created_at"@)
            &&& after["created_at"@] == if existing.contains_key("created_at"@) {
                existing["created_at"@]
            } else {
                now
            }
            &&& existing.contains_key("end_user_id"@) ==> after.contains_key("end_user_id"@)
                && after["end_user_id"@] == existing["end_user_id"@]
            &&& !existing.contains_key("end_user_id"@) && end_user_id is Some ==> after.contains_key(
                "end_user_id"@,
            ) && after["end_user_id"@] == end_user_id->0
            &&& after.contains_key("case_id"@) && after["case_id"@] == case_id
            &&& after.contains_key("question"@) && after["question"@] == question
        }),
{
    turn_name_lengths();
    let named = existing.insert("case_id"@, case_id).insert("question"@, question);
    let opened = unless_there(named, "created_at"@, Some(now));
    let owned = unless_there(opened, "end_user_id"@, end_user_id);
    let stated = put_all(owned, conv_pairs(conv));
    let kept = put_all(stated, advisor_pairs(advisor_attrs));
    let updates = condition_updates(conditions, condition_keys());
    condition_names_only(conditions, condition_keys());
    early_names_stay(owned, conv, advisor_attrs, updates, "created_at"@);
    early_names_stay(owned, conv, advisor_attrs, updates, "end_user_id"@);
    early_names_stay(owned, conv, advisor_attrs, updates, "case_id"@);
    early_names_stay(owned, conv, advisor_attrs, updates, "question"@);
}

proof fn early_names_stay(
    owned: Map<Seq<char>, Seq<char>>,
    conv: ConvView,
    advisor_attrs: AdvisorCaseAttrs,
    updates: Seq<(Seq<char>, Seq<char>)>,
    name: Seq<char>,
)
    requires
        name.len() <= 11,
        forall|i: int|
            0 <= i < updates.len() ==> exists|key: ConditionKey| (#[trigger] updates[i]).0
                == #[trigger] condition_attr(key),
    ensures
        ({
            let after = put_all(
                put_all(put_all(owned, conv_pairs(conv)), advisor_pairs(advisor_attrs)),
                updates,
            );
            &&& after.contains_key(name) == owned.contains_key(name)
            &&& owned.contains_key(name) ==> after[name] == owned[name]
        }),
{
    turn_name_lengths();
    let stated = put_all(owned, conv_pairs(conv));
    let kept = put_all(stated, advisor_pairs(advisor_attrs));
    put_all_leaves(owned, conv_pairs(conv), name);
    put_all_leaves(stated, advisor_pairs(advisor_attrs), name);
    assert forall|i: int| 0 <= i < updates.len() implies (#[trigger] updates[i]).0 != name by {
        let key = choose|key: ConditionKey| updates[i].0 == #[trigger] condition_attr(key);
        assert(condition_attr(key).len() >= 19);
    }
    put_all_leaves(kept, updates, name);
}

/// What is kept with a case is read back from it: what a turn writes is what
/// the next turn finds.
pub proof fn kept_attributes_read_back(
    existing: Map<Seq<char>, Seq<char>>,
    case_id: Seq<char>,
    question: Seq<char>,
    end_user_id: Option<Seq<char>>,
    conv: ConvView,
    advisor_attrs: AdvisorCaseAttrs,
    conditions: Seq<(ConditionKey, Seq<char>)>,
    now: Seq<char>,
)
    ensures
        reads_as(
            case_attrs_after(
                existing,
                case_id,
                question,
                end_user_id,
                conv,
                advisor_attrs,
                conditions,
                now,
            ),
            advisor_attrs,
        ),
{
    turn_name_lengths();
    let named = existing.insert("case_id"@, case_id).insert("question"@, question);
    let opened = unless_there(named, "created_at"@, Some(now));
    let owned = unless_there(opened, "end_user_id"@, end_user_id);
    let stated = put_all(owned, conv_pairs(conv));
    let pairs = advisor_pairs(advisor_attrs);
    let kept = put_all(stated, pairs);
    let updates = condition_updates(conditions, condition_keys());
    condition_names_only(conditions, condition_keys());
    reveal_with_fuel(put_all, 5);
    let p3 = pairs.drop_last();
    let p2 = p3.drop_last();
    let p1 = p2.drop_last();
    assert(p1.drop_last() =~= Seq::empty());
    assert(kept == stated.insert(pairs[0].0, pairs[0].1).insert(pairs[1].0, pairs[1].1).insert(
        pairs[2].0,
        pairs[2].1,
    ).insert(pairs[3].0, pairs[3].1));
    assert forall|name: Seq<char>|
        name.len() < 19 || (name.len() == 19 && name[0] == 's') implies #[trigger] put_all(
        kept,
        updates,
    ).contains_key(name) == kept.contains_key(name) && (kept.contains_key(name) ==> put_all(
        kept,
        updates,
    )[name] == kept[name]) by {
        assert forall|i: int| 0 <= i < updates.len() implies (#[trigger] updates[i]).0 != name by {
            let key = choose|key: ConditionKey| updates[i].0 == #[trigger] condition_attr(key);
            assert(condition_attr(key)[0] == 'a');
        }
        put_all_leaves(kept, updates, name);
    }
    let after = put_all(kept, updates);
    assert(after.contains_key("lead_offered"@) == kept.contains_key("lead_offered"@));
    assert(after.contains_key("lead_requested"@) == kept.contains_key("lead_requested"@));
    assert(after.contains_key("shown_product_cards"@) == kept.contains_key("shown_product_cards"@));
    assert(after.contains_key("question_streak"@) == kept.contains_key("question_streak"@));
    signed_decimal_reads_back(advisor_attrs.question_streak as int);
    reveal_strlit("true");
    reveal_strlit("false");
    assert("true"@.len() == 4);
    assert("false"@.len() == 5);
}

/// A card that was shown is not shown again in the conversation: with its key
/// noted, it goes with no later text. A key is noted as it is unless it is blank,
/// has white space at an end, or holds a comma.
pub proof fn shown_cards_are_not_shown_again(
    shown_csv: Seq<char>,
    keys: Seq<Seq<char>>,
    key: Seq<char>,
    text: Seq<char>,
    ms: Seq<MaterialView>,
    images: Seq<Seq<char>>,
)
    requires
        forall|i: int| 0 <= i < keys.len() ==> is_item(#[trigger] keys[i]),
        keys.contains(key) || csv_items(shown_csv).contains(key),
    ensures
        ({
            let noted = join(csv_items(shown_csv) + keys, ","@);
            &&& csv_items(noted) == csv_items(shown_csv) + keys
            &&& !card_keys(cards_for(text, ms, noted, images)).contains(key)
        }),
{
    let old_items = csv_items(shown_csv);
    let items = old_items + keys;
    csv_gives_items(shown_csv);
    assert forall|i: int| 0 <= i < items.len() implies is_item(#[trigger] items[i]) by {
        if i < old_items.len() {
            assert(items[i] == old_items[i]);
        } else {
            assert(items[i] == keys[i - old_items.len()]);
        }
    }
    csv_reads_back(items);
    let noted = join(items, ","@);
    assert(items.contains(key)) by {
        if keys.contains(key) {
            let i = choose|i: int| 0 <= i < keys.len() && keys[i] == key;
            assert(items[old_items.len() + i] == key);
        } else {
            let i = choose|i: int| 0 <= i < old_items.len() && old_items[i] == key;
            assert(items[i] == key);
        }
    }
    chosen_cards_are_fit_to_show(ms, text, items);
    let picked = chosen(ms, text, items);
    let cards = cards_for(text, ms, noted, images);
    if card_keys(cards).contains(key) {
        let i = choose|i: int| 0 <= i < card_keys(cards).len() && card_keys(cards)[i] == key;
        assert(cards[i].material_key == picked[i].material_key);
        assert(!items.contains(picked[i].material_key));
    }
}

/// A text in quotes.
pub open spec fn quoted(s: Seq<char>) -> Seq<char> {
    seq!['"'] + s + seq!['"']
}

/// A list of texts in quotes.
pub open spec fn quoted_list(items: Seq<Seq<char>>) -> Seq<char> {
    seq!['['] + join(items.map_values(|t: Seq<char>| quoted(t)), ", "@) + seq![']']
}

fn quoted_list_text(items: &[String]) -> (r: String)
    ensures
        r@ == quoted_list(texts(items@)),
{
    let ghost f = |t: Seq<char>| quoted(t);
    let ghost all = texts(items@).map_values(f);
    let mut parts: Vec<String> = Vec::new();
    let mut i: usize = 0;
    while i < items.len()
        invariant
            i <= items.len(),
            f == (|t: Seq<char>| quoted(t)),
            all == texts(items@).map_values(f),
            texts(parts@) =~= all.take(i as int),
        decreases items.len() - i,
    {
        let ghost p0 = parts@;
        let mut part = String::new();
        part.push('"');
        part.append(items[i].as_str());
        part.push('"');
        let ghost t0 = part@;
        parts.push(part);
        proof {
            take_next(all, i as int);
            assert(texts(items@)[i as int] == items@[i as int]@);
            assert(t0 =~= quoted(items@[i as int]@));
            assert(texts(parts@) =~= texts(p0).push(t0));
        }
        i = i + 1;
    }
    assert(all.take(all.len() as int) =~= all);
    let mut r = String::new();
    r.push('[');
    r.append(joined(parts.as_slice(), ", ").as_str());
    r.push(']');
    assert(r@ =~= quoted_list(texts(items@)));
    r
}

/// The keys of materials.
pub open spec fn material_keys(ms: Seq<MaterialView>) -> Seq<Seq<char>> {
    ms.map_values(|m: MaterialView| m.material_key)
}

/// The line that is logged for a turn: what was decided, and nothing of what
/// the customer said or gets to read.
pub open spec fn decision_line(
    request_id: Seq<char>,
    case_id: Seq<char>,
    reply_kind: Seq<char>,
    materials: Seq<Seq<char>>,
    cards: Seq<Seq<char>>,
    meta: Option<MetaView>,
    question_streak: int,
) -> Seq<char> {
    "INFO homesec advisor turn decision request_id="@ + request_id + " case_id="@ + case_id
        + " action_kind="@ + reply_kind + " material_keys="@ + quoted_list(materials)
        + " card_keys="@ + quoted_list(cards) + " closing="@ + (match meta {
        Some(m) => m.closing.word(),
        None => "none"@,
    }) + " featured_len="@ + decimal(
        match meta {
            Some(m) => m.featured.len(),
            None => 0,
        },
    ) + " question_streak="@ + signed_decimal(question_streak)
}

/// What optional cards say.
pub open spec fn shown_cards(cards: Option<&[ProductCard]>) -> Seq<CardView> {
    match cards {
        Some(v) => card_views(v@),
        None => Seq::empty(),
    }
}

/// The line that is logged for a turn.
pub fn log_turn_decision(
    request_id: &str,
    case_id: &str,
    reply_kind: &str,
    materials_used: &[AdvisorMaterial],
    product_cards: Option<&[ProductCard]>,
    draft_meta: Option<&DraftMeta>,
    question_streak: i32,
) -> (r: String)
    ensures
        r@ == decision_line(
            request_id@,
            case_id@,
            reply_kind@,
            material_keys(views(materials_used@)),
            card_keys(shown_cards(product_cards)),
            note_view(draft_meta),
            question_streak as int,
        ),
{
    let mut used: Vec<String> = Vec::new();
    let mut i: usize = 0;
    while i < materials_used.len()
        invariant
            i <= materials_used.len(),
            texts(used@) =~= material_keys(views(materials_used@)).take(i as int),
        decreases materials_used.len() - i,
    {
        let ghost u0 = used@;
        used.push(materials_used[i].material_key.clone());
        proof {
            let ks = material_keys(views(materials_used@));
            take_next(ks, i as int);
            assert(ks[i as int] == materials_used@[i as int].material_key@);
            assert(texts(used@) =~= texts(u0).push(ks[i as int]));
        }
        i = i + 1;
    }
    proof {
        let ks = material_keys(views(materials_used@));
        assert(ks.take(ks.len() as int) =~= ks);
    }
    let mut shown: Vec<String> = Vec::new();
    if let Some(cards) = product_cards {
        i = 0;
        while i < cards.len()
            invariant
                i <= cards.len(),
                texts(shown@) =~= card_keys(card_views(cards@)).take(i as int),
            decreases cards.len() - i,
        {
            let ghost s0 = shown@;
            shown.push(cards[i].material_key.clone());
            proof {
                let ks = card_keys(card_views(cards@));
                take_next(ks, i as int);
                assert(ks[i as int] == cards@[i as int].material_key@);
                assert(texts(shown@) =~= texts(s0).push(ks[i as int]));
            }
            i = i + 1;
        }
        proof {
            let ks = card_keys(card_views(cards@));
            assert(ks.take(ks.len() as int) =~= ks);
        }
    }
    assert(texts(shown@) =~= card_keys(shown_cards(product_cards)));
    let mut r = "INFO homesec advisor turn decision request_id=".to_owned();
    r.append(request_id);
    r.append(" case_id=");
    r.append(case_id);
    r.append(" action_kind=");
    r.append(reply_kind);
    r.append(" material_keys=");
    r.append(quoted_list_text(used.as_slice()).as_str());
    r.append(" card_keys=");
    r.append(quoted_list_text(shown.as_slice()).as_str());
    r.append(" closing=");
    r.append(
        match draft_meta {
            Some(m) => m.closing.as_str(),
            None => "none",
        },
    );
    r.append(" featured_len=");
    let featured: u64 = match draft_meta {
        Some(m) => m.featured.len() as u64,
        None => 0,
    };
    r.append(decimal_text(featured).as_str());
    r.append(" question_streak=");
    r.append(signed_decimal_text(question_streak as i64).as_str());
    r
}

/// The log knows materials by their keys alone: what else they say has no
/// bearing on the line.
pub proof fn log_knows_materials_by_key(
    request_id: Seq<char>,
    case_id: Seq<char>,
    reply_kind: Seq<char>,
    ms: Seq<MaterialView>,
    others: Seq<MaterialView>,
    cards: Seq<Seq<char>>,
    meta: Option<MetaView>,
    question_streak: int,
)
    requires
        ms.len() == others.len(),
        forall|i: int|
            0 <= i < ms.len() ==> (#[trigger] ms[i]).material_key == others[i].material_key,
    ensures
        decision_line(
            request_id,
            case_id,
            reply_kind,
            material_keys(ms),
            cards,
            meta,
            question_streak,
        ) == decision_line(
            request_id,
            case_id,
            reply_kind,
            material_keys(others),
            cards,
            meta,
            question_streak,
        ),
{
    assert(material_keys(ms) =~= material_keys(others));
}

/// A reply is out: just an emergency ends the wait for a time, just asking for a
/// time starts it, just asking back is counted, and asking for a time starts that
/// count anew. The time that was kept and the count of failed searches stay.
pub proof fn replies_change_just_their_own(action: ActionView, conv: ConvView)
    requires
        conv.clarify_turns < u32::MAX,
    ensures
        ({
            let after = conv_after(action, conv);
            &&& after.awaiting_time_pref == if action == ActionView::LeadSolicit {
                true
            } else {
                conv.awaiting_time_pref && action != ActionView::Safety
            }
            &&& after.time_pref_false_count == if action == ActionView::LeadSolicit || action
                == ActionView::Safety {
                0
            } else {
                conv.time_pref_false_count as int
            }
            &&& action is Clarify ==> after.clarify_turns == conv.clarify_turns + 1
            &&& action == ActionView::LeadSolicit ==> after.clarify_turns == 0
            &&& !(action is Clarify) && action != ActionView::LeadSolicit ==> after.clarify_turns
                == conv.clarify_turns
            &&& after.preferred_contact_time == conv.preferred_contact_time
            &&& after.time_pref_extraction_error_count == conv.time_pref_extraction_error_count
        }),
{
}

proof fn conv_names_read(
    existing: Map<Seq<char>, Seq<char>>,
    case_id: Seq<char>,
    question: Seq<char>,
    end_user_id: Option<Seq<char>>,
    conv: ConvView,
    advisor_attrs: AdvisorCaseAttrs,
    conditions: Seq<(ConditionKey, Seq<char>)>,
    now: Seq<char>,
    i: int,
)
    requires
        0 <= i < 5,
    ensures
        ({
            let after = case_attrs_after(
                existing,
                case_id,
                question,
                end_user_id,
                conv,
                advisor_attrs,
                conditions,
                now,
            );
            &&& after.contains_key(conv_pairs(conv)[i].0)
            &&& after[conv_pairs(conv)[i].0] == conv_pairs(conv)[i].1
        }),
{
    turn_name_lengths();
    let named = existing.insert("case_id"@, case_id).insert("question"@, question);
    let opened = unless_there(named, "created_at"@, Some(now));
    let owned = unless_there(opened, "end_user_id"@, end_user_id);
    let pairs = conv_pairs(conv);
    let name = pairs[i].0;
    let first = put_all(owned, pairs);
    assert forall|j: int| i < j < pairs.len() implies (#[trigger] pairs[j]).0 != name by {}
    the_last_pair_of_a_name_counts(owned, pairs, name, i);
    let theirs = advisor_pairs(advisor_attrs);
    assert forall|j: int| -1 < j < theirs.len() implies (#[trigger] theirs[j]).0 != name by {}
    the_last_pair_of_a_name_counts(first, theirs, name, -1);
    let second = put_all(first, theirs);
    let updates = condition_updates(conditions, condition_keys());
    condition_names_only(conditions, condition_keys());
    assert forall|j: int| -1 < j < updates.len() implies (#[trigger] updates[j]).0 != name by {
        let key = choose|key: ConditionKey| updates[j].0 == #[trigger] condition_attr(key);
        assert(updates[j].0 == condition_attr(key));
    }
    the_last_pair_of_a_name_counts(second, updates, name, -1);
}

/// The state of a conversation is written with the case, each part of it under its
/// own name.
pub proof fn the_state_is_written_part_by_part(
    existing: Map<Seq<char>, Seq<char>>,
    case_id: Seq<char>,
    question: Seq<char>,
    end_user_id: Option<Seq<char>>,
    conv: ConvView,
    advisor_attrs: AdvisorCaseAttrs,
    conditions: Seq<(ConditionKey, Seq<char>)>,
    now: Seq<char>,
)
    ensures
        ({
            let after = case_attrs_after(
                existing,
                case_id,
                question,
                end_user_id,
                conv,
                advisor_attrs,
                conditions,
                now,
            );
            &&& signed_value(text_or_empty(after, "clarify_turns"@)) == Some(
                conv.clarify_turns as int,
            )
            &&& text_or_empty(after, "awaiting_time_pref"@) == truth_word(conv.awaiting_time_pref)
            &&& signed_value(text_or_empty(after, "time_pref_false_count"@)) == Some(
                conv.time_pref_false_count as int,
            )
            &&& conv.preferred_contact_time is Some ==> text_or_empty(
                after,
                "preferred_contact_time"@,
            ) == conv.preferred_contact_time->0
            &&& conv.preferred_contact_time is None ==> text_or_empty(
                after,
                "preferred_contact_time"@,
            ).len() == 0
            &&& signed_value(text_or_empty(after, "time_pref_extraction_error_count"@)) == Some(
                conv.time_pref_extraction_error_count as int,
            )
        }),
{
    conv_names_read(existing, case_id, question, end_user_id, conv, advisor_attrs, conditions, now, 0);
    conv_names_read(existing, case_id, question, end_user_id, conv, advisor_attrs, conditions, now, 1);
    conv_names_read(existing, case_id, question, end_user_id, conv, advisor_attrs, conditions, now, 2);
    conv_names_read(existing, case_id, question, end_user_id, conv, advisor_attrs, conditions, now, 3);
    conv_names_read(existing, case_id, question, end_user_id, conv, advisor_attrs, conditions, now, 4);
    signed_decimal_reads_back(conv.clarify_turns as int);
    signed_decimal_reads_back(conv.time_pref_false_count as int);
    signed_decimal_reads_back(conv.time_pref_extraction_error_count as int);
}

/// Yes and no are two different words, and just the first is read as yes.
pub proof fn yes_is_read_as_yes(attrs: Map<Seq<char>, Seq<char>>, name: Seq<char>, b: bool)
    ensures
        says_true(attrs.insert(name, truth_word(b)), name) == b,
        !attrs.contains_key(name) ==> !says_true(attrs, name),
{
    reveal_strlit("true");
    reveal_strlit("false");
    assert("true"@.len() == 4);
    assert("false"@.len() == 5);
}

/// A reply is fixed unless it asks back or answers. Just while a time is asked for
/// it comes with times to choose from; the hours stand in what asks for a time, and
/// what fixes one starts with the slot.
pub proof fn fixed_replies_fit_their_action(
    action: ActionView,
    cfg: BusinessHoursConfig,
    handoff_text: Seq<char>,
)
    ensures
        ({
            let r = fixed_reply(action, cfg, handoff_text);
            &&& r is None <==> action is Clarify || action == ActionView::Answer
            &&& r is Some ==> (r->0).meta is None
            &&& r is Some ==> ((r->0).quick_replies is Some <==> action
                == ActionView::TimePrefContinue || action == ActionView::LeadSolicit)
            &&& action == ActionView::TimePrefContinue || action == ActionView::LeadSolicit ==> (
            r->0).kind == ReplyKind::TimePref && contains((r->0).text, hours_label(cfg)) && (
            r->0).quick_replies->0 =~= time_pref_items()
            &&& action == ActionView::Safety ==> (r->0).kind == ReplyKind::Safety && (r->0).text
                == SAFETY_TEXT@
            &&& action == ActionView::OutOfDomain ==> (r->0).kind == ReplyKind::OutOfDomain && (
            r->0).text == OUT_OF_DOMAIN_TEXT@
            &&& action == ActionView::Handoff ==> (r->0).kind == ReplyKind::Handoff && (r->0).text
                == handoff_text
            &&& action is LeadConfirmed ==> (r->0).kind == ReplyKind::Lead
                && action->slot.is_prefix_of((r->0).text)
        }),
{
    texts_name_hours_and_slots(hours_label(cfg), hours_label(cfg));
    if action is LeadConfirmed {
        texts_name_hours_and_slots(action->slot, action->slot);
    }
}

/// A draft is sent as it is. The text for when there is no draft makes the reply a
/// fallback without anything to choose from; any other makes it a question back with
/// the replies for what is missing, or an answer with the replies of its note.
pub proof fn drafts_are_sent_as_they_are(
    missing: Seq<ConditionKey>,
    text: Seq<char>,
    meta: Option<MetaView>,
)
    ensures
        asked_back(missing, text).text == text,
        answered(text, meta).text == text,
        asked_back(missing, text).meta is None,
        answered(text, meta).meta == meta,
        asked_back(missing, text).kind == ReplyKind::Fallback <==> text == FALLBACK_TEXT@,
        answered(text, meta).kind == ReplyKind::Fallback <==> text == FALLBACK_TEXT@,
        asked_back(missing, text).kind == ReplyKind::Fallback || asked_back(missing, text).kind
            == ReplyKind::Clarify,
        answered(text, meta).kind == ReplyKind::Fallback || answered(text, meta).kind
            == ReplyKind::Answer,
        text == FALLBACK_TEXT@ ==> asked_back(missing, text).quick_replies is None && answered(
            text,
            meta,
        ).quick_replies is None,
        text != FALLBACK_TEXT@ ==> asked_back(missing, text).quick_replies == clarify_items(missing),
        text != FALLBACK_TEXT@ ==> answered(text, meta).quick_replies == answer_items(meta),
{
}

/// A text offers a person just where it holds the words for it and is not the text
/// for when there is no draft; once that is noted it stays, and nothing else changes.
pub proof fn offers_are_told_by_their_words(
    before: Seq<char>,
    behind: Seq<char>,
    attrs: AdvisorCaseAttrs,
    text: Seq<char>,
)
    ensures
        before + LEAD_OFFER_MARKER@ + behind != FALLBACK_TEXT@ ==> offers_lead(
            before + LEAD_OFFER_MARKER@ + behind,
        ),
        !contains(text, LEAD_OFFER_MARKER@) ==> !offers_lead(text),
        noted_offer(attrs, text).lead_requested == attrs.lead_requested,
        noted_offer(attrs, text).shown_product_cards == attrs.shown_product_cards,
        noted_offer(attrs, text).question_streak == attrs.question_streak,
        !contains(text, LEAD_OFFER_MARKER@) ==> noted_offer(attrs, text) == attrs,
{
    middle_is_contained(before, LEAD_OFFER_MARKER@, behind);
}

/// What a proposal puts forward are all the materials whose keys it names, in their
/// order.
pub proof fn proposals_put_forward_what_they_name(ms: Seq<MaterialView>, m: MetaView)
    ensures
        m.closing == ClosingKind::Proposal ==> featured_of(ms, Some(m)) =~= ms.filter(
            |x: MaterialView| m.featured.contains(x.material_key),
        ),
        m.closing != ClosingKind::Proposal ==> featured_of(ms, Some(m)).len() == 0,
        featured_of(ms, None).len() == 0,
    decreases ms.len(),
{
    reveal(Seq::filter);
    if ms.len() > 0 {
        proposals_put_forward_what_they_name(ms.drop_last(), m);
    }
}

/// A reply that is no fallback and whose note is a proposal naming every material
/// gets the cards of all of them.
pub proof fn proposals_get_the_cards_of_their_materials(
    reply: ReplyView,
    text: Seq<char>,
    ms: Seq<MaterialView>,
    shown_csv: Seq<char>,
    images: Seq<Seq<char>>,
)
    requires
        reply.kind != ReplyKind::Fallback,
        reply.meta is Some,
        (reply.meta->0).closing == ClosingKind::Proposal,
        forall|i: int|
            0 <= i < ms.len() ==> (reply.meta->0).featured.contains(
                (#[trigger] ms[i]).material_key,
            ),
    ensures
        cards_with(reply, text, ms, shown_csv, images) == cards_for(text, ms, shown_csv, images),
    decreases ms.len(),
{
    all_named_are_put_forward(ms, reply.meta->0);
}

proof fn all_named_are_put_forward(ms: Seq<MaterialView>, m: MetaView)
    requires
        m.closing == ClosingKind::Proposal,
        forall|i: int| 0 <= i < ms.len() ==> m.featured.contains((#[trigger] ms[i]).material_key),
    ensures
        featured_of(ms, Some(m)) =~= ms,
    decreases ms.len(),
{
    if ms.len() > 0 {
        let head = ms.drop_last();
        assert forall|i: int| 0 <= i < head.len() implies m.featured.contains(
            (#[trigger] head[i]).material_key,
        ) by {
            assert(head[i] == ms[i]);
        }
        all_named_are_put_forward(head, m);
        assert(m.featured.contains(ms[ms.len() - 1].material_key));
    }
}

/// Cards go out one for one, with nothing changed but the address of the image,
/// which is the path behind the host; without cards nothing goes out.
pub proof fn cards_go_out_one_for_one(cards: Seq<CardView>, host: Seq<char>, i: int)
    ensures
        hosted_cards(cards, host) is None <==> cards.len() == 0,
        0 <= i < cards.len() ==> {
            let out = hosted_cards(cards, host)->0;
            &&& out.len() == cards.len()
            &&& out[i] == (CardView { image_url: out[i].image_url, ..cards[i] })
            &&& cards[i].image_url is None ==> out[i].image_url is None
            &&& cards[i].image_url is Some ==> out[i].image_url is Some && (
            out[i].image_url->0).take(8) =~= "https://"@ && (out[i].image_url->0).skip(8)
                =~= host + cards[i].image_url->0
        },
{
    reveal_strlit("https://");
    assert("https://"@.len() == 8);
}

/// The cards that are shown are noted behind those that were, by their keys; where
/// none is shown the note stays as it is.
pub proof fn shown_cards_are_noted_behind_the_others(shown_csv: Seq<char>, cards: Seq<CardView>)
    requires
        forall|i: int| 0 <= i < cards.len() ==> is_item((#[trigger] cards[i]).material_key),
    ensures
        cards.len() == 0 ==> shown_after(shown_csv, cards) == shown_csv,
        csv_items(shown_after(shown_csv, cards)).len() == csv_items(shown_csv).len() + cards.len(),
        csv_items(shown_csv).is_prefix_of(csv_items(shown_after(shown_csv, cards))),
        forall|i: int|
            0 <= i < cards.len() ==> csv_items(shown_after(shown_csv, cards))[csv_items(
                shown_csv,
            ).len() + i] == (#[trigger] cards[i]).material_key,
{
    let before = csv_items(shown_csv);
    let keys = card_keys(cards);
    let all = before + keys;
    csv_gives_items(shown_csv);
    assert forall|i: int| 0 <= i < all.len() implies is_item(#[trigger] all[i]) by {
        if i >= before.len() {
            assert(is_item(cards[i - before.len()].material_key));
        }
    }
    csv_reads_back(all);
}

/// The materials of a draft start with what was known and what was searched, in
/// their order. Where products are asked for or a worry is known, every own product
/// that is offered is among them. Nothing else is but materials of the worry's
/// category, and without a worry and without asking for products nothing at all.
pub proof fn drafts_get_the_materials_they_need(
    kr: Option<&KnownResolution>,
    searched: Seq<MaterialView>,
    own_products: Seq<MaterialView>,
    pool: Seq<MaterialView>,
    conditions: Seq<(ConditionKey, String)>,
    product_intent: bool,
    k: int,
)
    ensures
        ({
            let r = materials_given(kr, searched, own_products, pool, conditions, product_intent);
            let start = composed_of(kr, searched);
            let worry = first_value(conditions, ConditionKey::Concern);
            let own = own_products_for(own_products, worry);
            &&& start.is_prefix_of(r)
            &&& (product_intent || worry is Some) && 0 <= k < own.len() ==> has_key(
                r,
                own[k].material_key,
            )
            &&& start.len() <= k < r.len() ==> own.contains(r[k]) || picked_for(
                pool,
                worry,
            ).contains(r[k])
            &&& !product_intent && worry is None ==> r == start
        }),
{
    let start = composed_of(kr, searched);
    let worry = first_value(conditions, ConditionKey::Concern);
    let own = own_products_for(own_products, worry);
    let more = picked_for(pool, worry);
    let guarantee = product_intent || has_condition(conditions, ConditionKey::Concern);
    let mid = if guarantee {
        injected(start, own)
    } else {
        start
    };
    let r = injected_within(mid, more);
    let first = first_of_kind(conditions, ConditionKey::Concern);
    first_entry_of_a_kind_counts(conditions, ConditionKey::Concern, first);
    guaranteed_products_get_in(start, own);
    category_materials_stay_within_the_limit(mid, more);
    nothing_else_is_put_in(start, own);
    nothing_else_is_put_in(mid, more);
    assert forall|j: int| 0 <= j < mid.len() implies #[trigger] r[j] == mid[j] by {
        assert(r.take(mid.len() as int)[j] == r[j]);
    }
    assert forall|j: int| 0 <= j < start.len() implies #[trigger] mid[j] == start[j] by {
        assert(mid.take(start.len() as int)[j] == mid[j]);
    }
    assert(start.is_prefix_of(r)) by {
        assert(start =~= r.take(start.len() as int));
    }
    if (product_intent || worry is Some) && 0 <= k < own.len() {
        assert(has_key(mid, own[k].material_key));
        let j = choose|j: int|
            0 <= j < mid.len() && (#[trigger] mid[j]).material_key == own[k].material_key;
        assert(r[j] == mid[j]);
    }
    if start.len() <= k < r.len() {
        if k < mid.len() {
            assert(r[k] == mid[k]);
        }
    }
}

/// A turn of the history is told by who spoke and by all of what they said.
pub proof fn the_history_tells_who_said_what(
    history: Seq<HistoryEntry>,
    a: HistoryEntry,
    b: HistoryEntry,
    i: int,
)
    ensures
        history_line(a).len() > a.text@.len(),
        history_line(a).skip(history_line(a).len() - a.text@.len()) =~= a.text@,
        a.role == b.role && a.text@ == b.text@ ==> history_line(a) == history_line(b),
        a.role == HistoryRole::Customer ==> "顧客: "@.is_prefix_of(history_line(a)),
        a.role == HistoryRole::Assistant ==> "アドバイザー: "@.is_prefix_of(history_line(a)),
        0 <= i < history.len() ==> contains(
            join(history.map_values(|e: HistoryEntry| history_line(e)), "\n"@),
            history_line(history[i]),
        ),
{
    reveal_strlit("顧客");
    reveal_strlit("アドバイザー");
    reveal_strlit(": ");
    reveal_strlit("顧客: ");
    reveal_strlit("アドバイザー: ");
    if 0 <= i < history.len() {
        let lines = history.map_values(|e: HistoryEntry| history_line(e));
        joined_text_holds_each_part(lines, "\n"@, i);
    }
}

/// While no time is awaited, and in an emergency, the search for a time has no
/// bearing on a turn; and no message but one that names a time fixes one.
pub proof fn searches_matter_just_while_a_time_is_awaited(
    u: Understanding,
    search: TimeSearch,
    other: TimeSearch,
    conv: ConvView,
    cfg: BusinessHoursConfig,
    lead_requested: bool,
    clarify_max: int,
)
    ensures
        u.emergency || !conv.awaiting_time_pref ==> turn_decided(
            u,
            search,
            conv,
            cfg,
            lead_requested,
            clarify_max,
        ) == turn_decided(u, other, conv, cfg, lead_requested, clarify_max),
        u.emergency || !conv.awaiting_time_pref ==> turn_decided(
            u,
            search,
            conv,
            cfg,
            lead_requested,
            clarify_max,
        ).1 == conv,
        u.emergency <==> turn_decided(u, search, conv, cfg, lead_requested, clarify_max).0
            == ActionView::Safety,
        turn_decided(u, search, conv, cfg, lead_requested, clarify_max).0 is LeadConfirmed
            ==> conv.awaiting_time_pref && search is Found && (
        search->Found_0).is_time_preference,
{
}

/// A lead is lost just where a time was awaited, the message named one or could not
/// be searched, no slot came of it, and none is awaited any longer.
pub proof fn leads_are_lost_where_the_wait_ends_without_a_slot(
    u: Understanding,
    search: TimeSearch,
    conv: ConvView,
    cfg: BusinessHoursConfig,
    lead_requested: bool,
    clarify_max: int,
)
    requires
        turn_counts_fit(u, search, conv),
    ensures
        ({
            let (action, decided_conv) = turn_decided(
                u,
                search,
                conv,
                cfg,
                lead_requested,
                clarify_max,
            );
            gives_up_on_lead(u, search, conv, cfg) <==> {
                &&& !u.emergency
                &&& conv.awaiting_time_pref
                &&& search is Failed || (search is Found && (search->Found_0).is_time_preference)
                &&& !(action is LeadConfirmed)
                &&& !decided_conv.awaiting_time_pref
            }
        }),
{
}

/// The kinds of reply have different words.
pub proof fn each_kind_of_reply_has_its_word(a: ReplyKind, b: ReplyKind)
    ensures
        a.word() == b.word() ==> a == b,
{
    reveal_strlit("safety");
    reveal_strlit("time_pref");
    reveal_strlit("out_of_domain");
    reveal_strlit("handoff");
    reveal_strlit("lead");
    reveal_strlit("clarify");
    reveal_strlit("answer");
    reveal_strlit("fallback");
    assert("safety"@.len() == 6 && "safety"@[0] == 's');
    assert("time_pref"@.len() == 9);
    assert("out_of_domain"@.len() == 13);
    assert("handoff"@.len() == 7 && "handoff"@[0] == 'h');
    assert("lead"@.len() == 4);
    assert("clarify"@.len() == 7 && "clarify"@[0] == 'c');
    assert("answer"@.len() == 6 && "answer"@[0] == 'a');
    assert("fallback"@.len() == 8);
}

/// A list in a log line stands in brackets and holds each of its items in quotes.
pub proof fn logged_lists_hold_their_items(items: Seq<Seq<char>>, i: int)
    ensures
        quoted_list(items).len() >= 2,
        quoted_list(items)[0] == '[',
        quoted_list(items).last() == ']',
        0 <= i < items.len() ==> contains(quoted_list(items), seq!['"'] + items[i] + seq!['"']),
        items.len() == 0 ==> quoted_list(items).len() == 2,
{
    let parts = items.map_values(|t: Seq<char>| quoted(t));
    let list = join(parts, ", "@);
    if 0 <= i < items.len() {
        joined_text_holds_each_part(parts, ", "@, i);
        contained_in_a_sum(seq!['['], list, seq![']'], quoted(items[i]));
    }
}

proof fn held_in_front(a: Seq<char>, b: Seq<char>, pat: Seq<char>)
    requires
        contains(a, pat),
    ensures
        contains(a + b, pat),
{
    contained_in_a_sum(Seq::empty(), a, b, pat);
    assert(Seq::<char>::empty() + a + b =~= a + b);
}

proof fn named_value(a: Seq<char>, name: Seq<char>, value: Seq<char>)
    ensures
        contains(a + name + value, name + value),
{
    let all = a + name + value;
    let pat = name + value;
    let n = a.len() as int;
    assert(all.subrange(n, n + pat.len()) =~= pat);
    assert(occurs_at(all, pat, n));
}

/// The line that is logged for a turn holds each thing that was decided, under the
/// name for it.
pub proof fn log_lines_hold_what_was_decided(
    request_id: Seq<char>,
    case_id: Seq<char>,
    kind: Seq<char>,
    materials: Seq<Seq<char>>,
    cards: Seq<Seq<char>>,
    m: MetaView,
    streak: int,
)
    ensures
        ({
            let line = decision_line(
                request_id,
                case_id,
                kind,
                materials,
                cards,
                Some(m),
                streak,
            );
            &&& contains(line, " case_id="@ + case_id)
            &&& contains(line, " action_kind="@ + kind)
            &&& contains(line, " material_keys="@ + quoted_list(materials))
            &&& contains(line, " card_keys="@ + quoted_list(cards))
            &&& contains(line, " closing="@ + m.closing.word())
            &&& contains(line, " featured_len="@ + decimal(m.featured.len()))
            &&& contains(line, " question_streak="@ + signed_decimal(streak))
        }),
        ({
            let line = decision_line(request_id, case_id, kind, materials, cards, None, streak);
            &&& contains(line, " closing="@ + "none"@)
            &&& contains(line, " featured_len="@ + decimal(0))
            &&& contains(line, " question_streak="@ + signed_decimal(streak))
        }),
        contains(
            decision_line(request_id, case_id, kind, materials, cards, Some(m), streak),
            "request_id="@ + request_id,
        ),
{
    let l0 = "INFO homesec advisor turn decision request_id="@;
    let l1 = l0 + request_id;
    let l2 = l1 + " case_id="@ + case_id;
    let l3 = l2 + " action_kind="@ + kind;
    let l4 = l3 + " material_keys="@ + quoted_list(materials);
    let l5 = l4 + " card_keys="@ + quoted_list(cards);
    line_starts(l0, request_id);
    let p1 = "request_id="@ + request_id;
    let p2 = " case_id="@ + case_id;
    let p3 = " action_kind="@ + kind;
    let p4 = " material_keys="@ + quoted_list(materials);
    let p5 = " card_keys="@ + quoted_list(cards);
    named_value(l1, " case_id="@, case_id);
    named_value(l2, " action_kind="@, kind);
    named_value(l3, " material_keys="@, quoted_list(materials));
    named_value(l4, " card_keys="@, quoted_list(cards));
    goes_on(l1, " case_id="@, case_id, p1);
    goes_on(l2, " action_kind="@, kind, p1);
    goes_on(l2, " action_kind="@, kind, p2);
    goes_on(l3, " material_keys="@, quoted_list(materials), p1);
    goes_on(l3, " material_keys="@, quoted_list(materials), p2);
    goes_on(l3, " material_keys="@, quoted_list(materials), p3);
    goes_on(l4, " card_keys="@, quoted_list(cards), p1);
    goes_on(l4, " card_keys="@, quoted_list(cards), p2);
    goes_on(l4, " card_keys="@, quoted_list(cards), p3);
    goes_on(l4, " card_keys="@, quoted_list(cards), p4);
    line_ends(l5, m.closing.word(), m.featured.len(), streak, p1);
    line_ends(l5, m.closing.word(), m.featured.len(), streak, p2);
    line_ends(l5, m.closing.word(), m.featured.len(), streak, p3);
    line_ends(l5, m.closing.word(), m.featured.len(), streak, p4);
    line_ends(l5, m.closing.word(), m.featured.len(), streak, p5);
    line_ends(l5, "none"@, 0, streak, p5);
}

proof fn line_starts(l0: Seq<char>, request_id: Seq<char>)
    requires
        l0 == "INFO homesec advisor turn decision request_id="@,
    ensures
        contains(l0 + request_id, "request_id="@ + request_id),
{
    reveal_strlit("INFO homesec advisor turn decision request_id=");
    reveal_strlit("request_id=");
    let head = l0.take(l0.len() - 11);
    assert(l0 =~= head + "request_id="@);
    named_value(head, "request_id="@, request_id);
}

proof fn goes_on(a: Seq<char>, name: Seq<char>, value: Seq<char>, pat: Seq<char>)
    requires
        contains(a, pat),
    ensures
        contains(a + name + value, pat),
{
    held_in_front(a, name, pat);
    held_in_front(a + name, value, pat);
}

proof fn line_ends(a: Seq<char>, word: Seq<char>, n: nat, streak: int, pat: Seq<char>)
    requires
        contains(a, pat),
    ensures
        ({
            let line = a + " closing="@ + word + " featured_len="@ + decimal(n)
                + " question_streak="@ + signed_decimal(streak);
            &&& contains(line, pat)
            &&& contains(line, " closing="@ + word)
            &&& contains(line, " featured_len="@ + decimal(n))
            &&& contains(line, " question_streak="@ + signed_decimal(streak))
        }),
{
    let l6 = a + " closing="@ + word;
    let l7 = l6 + " featured_len="@ + decimal(n);
    named_value(a, " closing="@, word);
    named_value(l6, " featured_len="@, decimal(n));
    named_value(l7, " question_streak="@, signed_decimal(streak));
    goes_on(a, " closing="@, word, pat);
    goes_on(l6, " featured_len="@, decimal(n), pat);
    goes_on(l7, " question_streak="@, signed_decimal(streak), pat);
    goes_on(l6, " featured_len="@, decimal(n), " closing="@ + word);
    goes_on(l7, " question_streak="@, signed_decimal(streak), " closing="@ + word);
    goes_on(l7, " question_streak="@, signed_decimal(streak), " featured_len="@ + decimal(n));
}

} // verus!
