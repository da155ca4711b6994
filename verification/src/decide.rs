//! What kind of reply a turn gets.
use crate::attrs::{pair_views, put_all, text_or_empty, AttrMap};
use crate::conversation::{
    handle_time_pref, time_kept, with_time, without_time, CaseConvState, ConvView, PrefWindow,
    TimePrefAction, TimePrefExtraction, TIME_PREF_EXTRACTION_ERROR_LIMIT, TIME_PREF_FALSE_LIMIT,
};
use crate::draft_meta::ClosingKind;
use crate::hours::{
    clock_string, clock_text, clock_texts_read_as_their_time, days_label, days_meet, is_hhmm, overlaps,
    overlaps_business_hours, parse_hm, time_named, two_digits, BusinessHoursConfig, ClockTime, PrefDays,
};
use crate::materials::{
    first_entry_of_a_kind_counts, first_of_kind, first_value, has_condition,
    other_kinds_have_no_bearing, value_of,
};
use crate::text::{
    parse_i32, same, signed_decimal, signed_decimal_reads_back, signed_value, take_next,
};
use crate::understand::{ConditionKey, Understanding};
use vstd::prelude::*;

verus! {

/// The kinds of reply.
#[derive(Debug, Clone, PartialEq, Eq)]
pub enum AdvisorAction {
    /// Someone may be in danger: safety comes first, and a time to call is no
    /// longer awaited.
    Safety,
    /// A time to call is still awaited.
    TimePrefContinue,
    /// The message is not about home security.
    OutOfDomain,
    /// The customer needs support for a product.
    Handoff,
    /// The customer is asked for a time to call.
    LeadSolicit,
    /// The customer is asked for a condition.
    Clarify { missing: Vec<ConditionKey> },
    /// The customer gets an answer.
    Answer,
    /// A time to call is fixed.
    LeadConfirmed { slot: String },
}

/// The kinds of reply.
#[verifier::ext_equal]
pub enum ActionView {
    Safety,
    TimePrefContinue,
    OutOfDomain,
    Handoff,
    LeadSolicit,
    Clarify { missing: Seq<ConditionKey> },
    Answer,
    LeadConfirmed { slot: Seq<char> },
}

impl View for AdvisorAction {
    type V = ActionView;

    open spec fn view(&self) -> ActionView {
        match self {
            AdvisorAction::Safety => ActionView::Safety,
            AdvisorAction::TimePrefContinue => ActionView::TimePrefContinue,
            AdvisorAction::OutOfDomain => ActionView::OutOfDomain,
            AdvisorAction::Handoff => ActionView::Handoff,
            AdvisorAction::LeadSolicit => ActionView::LeadSolicit,
            AdvisorAction::Clarify { missing } => ActionView::Clarify { missing: missing@ },
            AdvisorAction::Answer => ActionView::Answer,
            AdvisorAction::LeadConfirmed { slot } => ActionView::LeadConfirmed { slot: slot@ },
        }
    }
}

/// The conditions that an answer still lacks: what the customer worries about,
/// and, where that is intrusion, how they live.
pub open spec fn lacking(conditions: Seq<(ConditionKey, String)>) -> Seq<ConditionKey> {
    match first_value(conditions, ConditionKey::Concern) {
        None => seq![ConditionKey::Concern],
        Some(concern) => if concern == "intrusion"@ && !has_condition(
            conditions,
            ConditionKey::Housing,
        ) {
            seq![ConditionKey::Housing]
        } else {
            Seq::empty()
        },
    }
}

/// The conditions that an answer still lacks.
pub fn missing_conditions(u: &Understanding) -> (r: Vec<ConditionKey>)
    ensures
        r@ == lacking(u.conditions@),
{
    let mut r: Vec<ConditionKey> = Vec::new();
    match value_of(u.conditions.as_slice(), ConditionKey::Concern) {
        None => {
            r.push(ConditionKey::Concern);
            assert(r@ =~= seq![ConditionKey::Concern]);
        },
        Some(concern) => {
            if same(concern, "intrusion") && value_of(
                u.conditions.as_slice(),
                ConditionKey::Housing,
            ).is_none() {
                r.push(ConditionKey::Housing);
                assert(r@ =~= seq![ConditionKey::Housing]);
            }
        },
    }
    r
}

/// The reply to a message outside emergencies and outside the wait for a time
/// to call.
pub open spec fn flow(
    u: Understanding,
    clarify_turns: int,
    lead_requested: bool,
    clarify_max: int,
    suppress_lead_solicit: bool,
) -> ActionView {
    if !u.in_domain {
        ActionView::OutOfDomain
    } else if u.urtect_support {
        ActionView::Handoff
    } else if !suppress_lead_solicit && u.lead_interest && !lead_requested {
        ActionView::LeadSolicit
    } else if lacking(u.conditions@).len() > 0 && clarify_turns < clarify_max {
        ActionView::Clarify { missing: lacking(u.conditions@) }
    } else {
        ActionView::Answer
    }
}

/// The reply to a message outside emergencies and outside the wait for a time
/// to call.
pub fn decide_in_domain_flow(
    u: &Understanding,
    conv: &CaseConvState,
    lead_requested: bool,
    clarify_max: u32,
    suppress_lead_solicit: bool,
) -> (r: AdvisorAction)
    ensures
        r@ == flow(
            *u,
            conv.clarify_turns as int,
            lead_requested,
            clarify_max as int,
            suppress_lead_solicit,
        ),
{
    if !u.in_domain {
        return AdvisorAction::OutOfDomain;
    }
    if u.urtect_support {
        return AdvisorAction::Handoff;
    }
    if !suppress_lead_solicit && u.lead_interest && !lead_requested {
        return AdvisorAction::LeadSolicit;
    }
    let missing = missing_conditions(u);
    if missing.len() > 0 && conv.clarify_turns < clarify_max {
        return AdvisorAction::Clarify { missing };
    }
    AdvisorAction::Answer
}

/// The reply to a message: an emergency comes before everything, the wait for a
/// time to call before the rest.
pub open spec fn decided(
    u: Understanding,
    conv: ConvView,
    lead_requested: bool,
    clarify_max: int,
) -> ActionView {
    if u.emergency {
        ActionView::Safety
    } else if conv.awaiting_time_pref {
        ActionView::TimePrefContinue
    } else {
        flow(u, conv.clarify_turns as int, lead_requested, clarify_max, false)
    }
}

/// The reply to a message. Whether a person was offered before has no bearing
/// on it.
pub fn decide(
    u: &Understanding,
    conv: &CaseConvState,
    _lead_offered: bool,
    lead_requested: bool,
    clarify_max: u32,
) -> (r: AdvisorAction)
    ensures
        r@ == decided(*u, conv@, lead_requested, clarify_max as int),
{
    if u.emergency {
        return AdvisorAction::Safety;
    }
    if conv.awaiting_time_pref {
        return AdvisorAction::TimePrefContinue;
    }
    decide_in_domain_flow(u, conv, lead_requested, clarify_max, false)
}

/// The stretch between `open` and `close` that a window stands for, where all of
/// the window lies between them. A bound that is not given is that of the
/// business hours.
pub open spec fn effective_given(w: PrefWindow, open: ClockTime, close: ClockTime) -> Option<
    (ClockTime, ClockTime),
> {
    let start = match w.start {
        Some(t) => t,
        None => open,
    };
    let end = match w.end {
        Some(t) => t,
        None => close,
    };
    if start.minutes() <= end.minutes() && start.minutes() >= open.minutes() && end.minutes()
        <= close.minutes() {
        Some((start, end))
    } else {
        None
    }
}

/// The stretch of the business hours that a window stands for, where all of the
/// window lies in them.
pub open spec fn effective(w: PrefWindow, cfg: BusinessHoursConfig) -> Option<(ClockTime, ClockTime)> {
    match (time_named(cfg.start@), time_named(cfg.end@)) {
        (Some(open), Some(close)) => if overlaps(cfg, w.days, w.start, w.end) {
            effective_given(w, open, close)
        } else {
            None
        },
        _ => None,
    }
}

/// The stretch between `open` and `close` that a window stands for, where all of
/// the window lies between them.
pub fn effective_window_within(w: &PrefWindow, open: ClockTime, close: ClockTime) -> (r: Option<
    (ClockTime, ClockTime),
>)
    ensures
        r == effective_given(*w, open, close),
{
    let start = match w.start {
        Some(t) => t,
        None => open,
    };
    let end = match w.end {
        Some(t) => t,
        None => close,
    };
    if start.minutes_of() <= end.minutes_of() && start.minutes_of() >= open.minutes_of()
        && end.minutes_of() <= close.minutes_of() {
        Some((start, end))
    } else {
        None
    }
}

/// The stretch of the business hours that a window stands for, where all of the
/// window lies in them.
pub fn effective_business_window(w: &PrefWindow, cfg: &BusinessHoursConfig) -> (r: Option<
    (ClockTime, ClockTime),
>)
    ensures
        r == effective(*w, *cfg),
{
    if !overlaps_business_hours(cfg, w.days, w.start, w.end) {
        return None;
    }
    match (parse_hm(cfg.start.as_str()), parse_hm(cfg.end.as_str())) {
        (Some(open), Some(close)) => effective_window_within(w, open, close),
        _ => None,
    }
}

/// Whether all of a window lies in the business hours.
pub fn window_fits_business_hours(w: &PrefWindow, cfg: &BusinessHoursConfig) -> (r: bool)
    ensures
        r == effective(*w, *cfg) is Some,
{
    effective_business_window(w, cfg).is_some()
}

/// The days of a slot in words.
pub open spec fn slot_days(days: PrefDays, configured: Seq<char>) -> Seq<char> {
    match days {
        PrefDays::Weekday => "平日"@,
        PrefDays::Weekend => "土日"@,
        PrefDays::Any => if configured == "everyday"@ {
            "毎日"@
        } else {
            "平日"@
        },
    }
}

/// A slot in words: its days, and the stretch of time that was checked.
pub open spec fn slot_text(days: PrefDays, eff: (ClockTime, ClockTime), configured: Seq<char>) -> Seq<
    char,
> {
    slot_days(days, configured) + clock_text(eff.0) + "〜"@ + clock_text(eff.1)
}

/// A slot in words: its days, and the stretch of time that was checked.
pub fn format_confirmed_slot(
    days: PrefDays,
    eff: (ClockTime, ClockTime),
    cfg: &BusinessHoursConfig,
) -> (r: String)
    ensures
        r@ == slot_text(days, eff, cfg.days@),
{
    let mut r = match days {
        PrefDays::Weekday => "平日".to_owned(),
        PrefDays::Weekend => "土日".to_owned(),
        PrefDays::Any => if same(cfg.days.as_str(), "everyday") {
            "毎日".to_owned()
        } else {
            "平日".to_owned()
        },
    };
    r.append(clock_string(eff.0).as_str());
    r.append("〜");
    r.append(clock_string(eff.1).as_str());
    r
}

/// The first window that lies in the business hours, as a slot in words.
pub open spec fn first_slot(windows: Seq<PrefWindow>, cfg: BusinessHoursConfig) -> Option<Seq<char>>
    decreases windows.len(),
{
    if windows.len() == 0 {
        None
    } else {
        match effective(windows[0], cfg) {
            Some(eff) => Some(slot_text(windows[0].days, eff, cfg.days@)),
            None => first_slot(windows.drop_first(), cfg),
        }
    }
}

/// The first window that lies in the business hours, as a slot in words.
pub fn find_slot(windows: &[PrefWindow], cfg: &BusinessHoursConfig) -> (r: Option<String>)
    ensures
        match r {
            Some(slot) => first_slot(windows@, *cfg) == Some(slot@),
            None => first_slot(windows@, *cfg) is None,
        },
{
    let mut i: usize = 0;
    assert(windows@.skip(0) =~= windows@);
    while i < windows.len()
        invariant
            i <= windows.len(),
            first_slot(windows@, *cfg) == first_slot(windows@.skip(i as int), *cfg),
        decreases windows.len() - i,
    {
        assert(windows@.skip(i as int)[0] == windows@[i as int]);
        assert(windows@.skip(i as int).drop_first() =~= windows@.skip(i + 1));
        if let Some(eff) = effective_business_window(&windows[i], cfg) {
            return Some(format_confirmed_slot(windows[i].days, eff, cfg));
        }
        i = i + 1;
    }
    None
}

/// The state once a message named only times outside the business hours.
pub open spec fn with_no_fit(conv: ConvView) -> ConvView {
    let n = conv.time_pref_false_count + 1;
    if n >= TIME_PREF_FALSE_LIMIT {
        ConvView {
            awaiting_time_pref: false,
            time_pref_false_count: 0,
            preferred_contact_time: None,
            ..conv
        }
    } else {
        ConvView {
            awaiting_time_pref: true,
            time_pref_false_count: n as u32,
            preferred_contact_time: None,
            ..conv
        }
    }
}

/// The reply to a message that came while a time to call was awaited, and the
/// state after it.
pub open spec fn time_pref_decided(
    u: Understanding,
    extraction: TimePrefExtraction,
    conv: ConvView,
    cfg: BusinessHoursConfig,
    lead_requested: bool,
    clarify_max: int,
) -> (ActionView, ConvView) {
    let clean = ConvView { time_pref_extraction_error_count: 0, ..conv };
    let passed_on = flow(u, conv.clarify_turns as int, lead_requested, clarify_max, true);
    if u.emergency {
        (ActionView::Safety, conv)
    } else if !extraction.is_time_preference {
        (passed_on, without_time(clean))
    } else {
        match first_slot(extraction.windows@, cfg) {
            Some(slot) => (ActionView::LeadConfirmed { slot }, with_time(clean, extraction.raw@)),
            None => (
                if conv.time_pref_false_count + 1 >= TIME_PREF_FALSE_LIMIT {
                    passed_on
                } else {
                    ActionView::TimePrefContinue
                },
                with_no_fit(clean),
            ),
        }
    }
}

/// Decides on a message that came while a time to call was awaited. A message
/// about something else is dealt with as any message, except that no time to
/// call is asked for; a time that lies in the business hours is fixed; for any
/// other time the customer is asked once more, and after the second such turn in
/// a row no more.
pub fn decide_time_pref(
    u: &Understanding,
    extraction: &TimePrefExtraction,
    conv: &mut CaseConvState,
    cfg: &BusinessHoursConfig,
    lead_requested: bool,
    clarify_max: u32,
) -> (r: AdvisorAction)
    requires
        !u.emergency ==> old(conv).time_pref_false_count < u32::MAX,
    ensures
        (r@, final(conv)@) == time_pref_decided(
            *u,
            *extraction,
            old(conv)@,
            *cfg,
            lead_requested,
            clarify_max as int,
        ),
        u.emergency ==> r@ == ActionView::Safety && *final(conv) == *old(conv),
        r@ != ActionView::LeadSolicit,
{
    if u.emergency {
        return AdvisorAction::Safety;
    }
    conv.time_pref_extraction_error_count = 0;
    let before: u32 = conv.time_pref_false_count;
    // No note is asked for: a time that is fixed lies in the business hours, and
    // any other is not kept.
    let noted = handle_time_pref(extraction, conv, cfg, "");
    proof {
        reveal_strlit("");
        assert(time_kept(*extraction, *cfg, ""@) =~= extraction.raw@);
    }
    match noted {
        TimePrefAction::PassToEvaluate => decide_in_domain_flow(
            u,
            conv,
            lead_requested,
            clarify_max,
            true,
        ),
        TimePrefAction::Reply => match find_slot(extraction.windows.as_slice(), cfg) {
            Some(slot) => {
                conv.time_pref_false_count = 0;
                AdvisorAction::LeadConfirmed { slot }
            },
            None => {
                conv.preferred_contact_time = None;
                let turns: u32 = before + 1;
                conv.time_pref_false_count = turns;
                if turns >= TIME_PREF_FALSE_LIMIT {
                    conv.awaiting_time_pref = false;
                    conv.time_pref_false_count = 0;
                    decide_in_domain_flow(u, conv, lead_requested, clarify_max, true)
                } else {
                    conv.awaiting_time_pref = true;
                    AdvisorAction::TimePrefContinue
                }
            },
        },
    }
}

/// The state once the search for a time to call failed.
pub open spec fn after_failure(conv: ConvView) -> ConvView {
    let n = conv.time_pref_extraction_error_count + 1;
    if n >= TIME_PREF_EXTRACTION_ERROR_LIMIT {
        ConvView {
            awaiting_time_pref: false,
            time_pref_false_count: 0,
            time_pref_extraction_error_count: 0,
            ..conv
        }
    } else {
        ConvView { time_pref_extraction_error_count: n as u32, ..conv }
    }
}

/// The reply to a message that could not be searched for a time to call, and
/// the state after it.
pub open spec fn failure_decided(
    u: Understanding,
    conv: ConvView,
    lead_requested: bool,
    clarify_max: int,
) -> (ActionView, ConvView) {
    if u.emergency {
        (ActionView::Safety, conv)
    } else if conv.time_pref_extraction_error_count + 1 >= TIME_PREF_EXTRACTION_ERROR_LIMIT {
        (
            flow(u, conv.clarify_turns as int, lead_requested, clarify_max, true),
            after_failure(conv),
        )
    } else {
        (ActionView::TimePrefContinue, after_failure(conv))
    }
}

/// Decides on a message that could not be searched for a time to call. The
/// customer is asked once more; after the third failure in a row the message is
/// dealt with as any other, except that no time to call is asked for.
pub fn decide_time_pref_extraction_failed(
    u: &Understanding,
    conv: &mut CaseConvState,
    lead_requested: bool,
    clarify_max: u32,
) -> (r: AdvisorAction)
    requires
        !u.emergency ==> old(conv).time_pref_extraction_error_count < u32::MAX,
    ensures
        (r@, final(conv)@) == failure_decided(*u, old(conv)@, lead_requested, clarify_max as int),
        u.emergency ==> r@ == ActionView::Safety && *final(conv) == *old(conv),
        r@ != ActionView::LeadSolicit,
{
    if u.emergency {
        return AdvisorAction::Safety;
    }
    conv.time_pref_extraction_error_count = conv.time_pref_extraction_error_count + 1;
    if conv.time_pref_extraction_error_count >= TIME_PREF_EXTRACTION_ERROR_LIMIT {
        conv.awaiting_time_pref = false;
        conv.time_pref_false_count = 0;
        conv.time_pref_extraction_error_count = 0;
        decide_in_domain_flow(u, conv, lead_requested, clarify_max, true)
    } else {
        AdvisorAction::TimePrefContinue
    }
}

/// What is fixed with a customer lies in the business hours: no more is
/// promised than was checked.
pub proof fn fixed_slots_lie_in_business_hours(w: PrefWindow, cfg: BusinessHoursConfig)
    requires
        effective(w, cfg) is Some,
    ensures
        ({
            let (start, end) = effective(w, cfg)->0;
            let open = time_named(cfg.start@)->0;
            let close = time_named(cfg.end@)->0;
            &&& time_named(cfg.start@) is Some
            &&& time_named(cfg.end@) is Some
            &&& open.minutes() <= start.minutes() <= end.minutes() <= close.minutes()
            &&& w.start is Some ==> start == w.start->0
            &&& w.end is Some ==> end == w.end->0
            &&& days_meet(cfg.days@, w.days)
        }),
{
}

/// The customer's own words have no bearing on the reply: they are never
/// repeated in what is fixed.
pub proof fn own_words_are_never_repeated(
    u: Understanding,
    one: TimePrefExtraction,
    other: TimePrefExtraction,
    conv: ConvView,
    cfg: BusinessHoursConfig,
    lead_requested: bool,
    clarify_max: int,
)
    requires
        one.is_time_preference == other.is_time_preference,
        one.windows@ == other.windows@,
    ensures
        time_pref_decided(u, one, conv, cfg, lead_requested, clarify_max).0 == time_pref_decided(
            u,
            other,
            conv,
            cfg,
            lead_requested,
            clarify_max,
        ).0,
{
}

/// The wait for a time to call ends: of two turns in a row outside emergencies,
/// from whatever state, the second has ended it, unless the first fixed a time
/// and so ended it already.
pub proof fn waiting_ends_after_two_turns(
    u1: Understanding,
    e1: TimePrefExtraction,
    u2: Understanding,
    e2: TimePrefExtraction,
    conv: ConvView,
    cfg: BusinessHoursConfig,
    lead_requested: bool,
    clarify_max: int,
)
    requires
        !u1.emergency,
        !u2.emergency,
    ensures
        ({
            let (a1, c1) = time_pref_decided(u1, e1, conv, cfg, lead_requested, clarify_max);
            let (a2, c2) = time_pref_decided(u2, e2, c1, cfg, lead_requested, clarify_max);
            &&& a1 is LeadConfirmed ==> !c1.awaiting_time_pref
            &&& !(a1 is LeadConfirmed) && conv.time_pref_false_count == 0
                ==> !c2.awaiting_time_pref && c2.time_pref_false_count == 0
            &&& conv.time_pref_false_count > 0 ==> !c1.awaiting_time_pref
        }),
{
}

/// Three failures in a row to search a message for a time end the wait for it.
pub proof fn waiting_ends_after_three_failures(
    u1: Understanding,
    u2: Understanding,
    u3: Understanding,
    conv: ConvView,
    lead_requested: bool,
    clarify_max: int,
)
    requires
        !u1.emergency,
        !u2.emergency,
        !u3.emergency,
        conv.time_pref_extraction_error_count == 0,
    ensures
        ({
            let (a1, c1) = failure_decided(u1, conv, lead_requested, clarify_max);
            let (a2, c2) = failure_decided(u2, c1, lead_requested, clarify_max);
            let (a3, c3) = failure_decided(u3, c2, lead_requested, clarify_max);
            &&& a1 == ActionView::TimePrefContinue
            &&& a2 == ActionView::TimePrefContinue
            &&& c1.awaiting_time_pref == conv.awaiting_time_pref
            &&& c2.awaiting_time_pref == conv.awaiting_time_pref
            &&& !c3.awaiting_time_pref
            &&& c3.time_pref_false_count == 0
            &&& c3.time_pref_extraction_error_count == 0
        }),
{
}

/// What is kept with a case besides the state of the conversation.
#[derive(Debug, Clone, PartialEq, Eq)]
pub struct AdvisorCaseAttrs {
    /// A person getting in touch was offered.
    pub lead_offered: bool,
    /// A time to call was fixed.
    pub lead_requested: bool,
    /// The keys of the materials whose cards were shown, with commas between.
    pub shown_product_cards: String,
    /// How many answers in a row ended in a question.
    pub question_streak: i32,
}

impl Default for AdvisorCaseAttrs {
    fn default() -> (r: AdvisorCaseAttrs)
        ensures
            !r.lead_offered,
            !r.lead_requested,
            r.shown_product_cards@ == Seq::<char>::empty(),
            r.question_streak == 0,
    {
        AdvisorCaseAttrs {
            lead_offered: false,
            lead_requested: false,
            shown_product_cards: String::new(),
            question_streak: 0,
        }
    }
}

/// The attribute with the given name says yes.
pub open spec fn says_true(attrs: Map<Seq<char>, Seq<char>>, name: Seq<char>) -> bool {
    attrs.contains_key(name) && attrs[name] == "true"@
}

/// The number with the given name, and zero where there is none that fits.
pub open spec fn number_or_zero(attrs: Map<Seq<char>, Seq<char>>, name: Seq<char>) -> int {
    match signed_value(text_or_empty(attrs, name)) {
        Some(n) => if i32::MIN <= n <= i32::MAX {
            n
        } else {
            0
        },
        None => 0,
    }
}

/// `r` is what the attributes of a case say.
pub open spec fn reads_as(attrs: Map<Seq<char>, Seq<char>>, r: AdvisorCaseAttrs) -> bool {
    &&& r.lead_offered == says_true(attrs, "lead_offered"@)
    &&& r.lead_requested == says_true(attrs, "lead_requested"@)
    &&& r.shown_product_cards@ == text_or_empty(attrs, "shown_product_cards"@)
    &&& r.question_streak == number_or_zero(attrs, "question_streak"@)
}

/// What the attributes of a case say. What is not there is off, empty or zero.
pub fn parse_advisor_case_attrs(attrs: &AttrMap) -> (r: AdvisorCaseAttrs)
    ensures
        reads_as(attrs@, r),
{
    let question_streak: i32 = match attrs.get("question_streak") {
        Some(s) => match parse_i32(s) {
            Some(n) => n,
            None => 0,
        },
        None => 0,
    };
    proof {
        assert(signed_value(Seq::<char>::empty()) is None);
    }
    AdvisorCaseAttrs {
        lead_offered: attrs.holds("lead_offered", "true"),
        lead_requested: attrs.holds("lead_requested", "true"),
        shown_product_cards: match attrs.get("shown_product_cards") {
            Some(s) => s.to_owned(),
            None => String::new(),
        },
        question_streak,
    }
}

/// The word for a truth value.
pub open spec fn truth_word(b: bool) -> Seq<char> {
    if b {
        "true"@
    } else {
        "false"@
    }
}

/// The word for a truth value.
pub fn truth_text(b: bool) -> (r: String)
    ensures
        r@ == truth_word(b),
{
    if b {
        "true".to_owned()
    } else {
        "false".to_owned()
    }
}

/// A pair of a name and a value says the two texts.
pub open spec fn pair_is(p: (String, String), name: Seq<char>, value: Seq<char>) -> bool {
    p.0@ == name && p.1@ == value
}

/// The attributes to write back to a case. The number of questions in a row is
/// written apart from these.
pub fn advisor_attr_updates(attrs: &AdvisorCaseAttrs) -> (r: Vec<(String, String)>)
    ensures
        r@.len() == 3,
        pair_is(r@[0], "lead_offered"@, truth_word(attrs.lead_offered)),
        pair_is(r@[1], "lead_requested"@, truth_word(attrs.lead_requested)),
        pair_is(r@[2], "shown_product_cards"@, attrs.shown_product_cards@),
{
    let mut r: Vec<(String, String)> = Vec::new();
    r.push(("lead_offered".to_owned(), truth_text(attrs.lead_offered)));
    r.push(("lead_requested".to_owned(), truth_text(attrs.lead_requested)));
    r.push(("shown_product_cards".to_owned(), attrs.shown_product_cards.clone()));
    r
}

/// The kinds of condition, in the order in which they are kept with a case.
pub open spec fn condition_keys() -> Seq<ConditionKey> {
    seq![
        ConditionKey::Housing,
        ConditionKey::Target,
        ConditionKey::Concern,
        ConditionKey::Budget,
        ConditionKey::Install,
    ]
}

/// The name under which a condition is kept with a case.
pub open spec fn condition_attr(key: ConditionKey) -> Seq<char> {
    match key {
        ConditionKey::Housing => "advisor_cond_housing"@,
        ConditionKey::Target => "advisor_cond_target"@,
        ConditionKey::Concern => "advisor_cond_concern"@,
        ConditionKey::Budget => "advisor_cond_budget"@,
        ConditionKey::Install => "advisor_cond_install"@,
    }
}

/// The name under which a condition is kept with a case.
pub fn condition_attr_name(key: ConditionKey) -> (r: &'static str)
    ensures
        r@ == condition_attr(key),
{
    match key {
        ConditionKey::Housing => "advisor_cond_housing",
        ConditionKey::Target => "advisor_cond_target",
        ConditionKey::Concern => "advisor_cond_concern",
        ConditionKey::Budget => "advisor_cond_budget",
        ConditionKey::Install => "advisor_cond_install",
    }
}

fn all_condition_keys() -> (r: Vec<ConditionKey>)
    ensures
        r@ == condition_keys(),
{
    let r: Vec<ConditionKey> = vec![
        ConditionKey::Housing,
        ConditionKey::Target,
        ConditionKey::Concern,
        ConditionKey::Budget,
        ConditionKey::Install,
    ];
    assert(r@ =~= condition_keys());
    r
}

/// What conditions say.
pub open spec fn condition_views(cs: Seq<(ConditionKey, String)>) -> Seq<(ConditionKey, Seq<char>)> {
    cs.map_values(|c: (ConditionKey, String)| (c.0, c.1@))
}

/// The value of the first condition of the given kind.
pub open spec fn lookup(cs: Seq<(ConditionKey, Seq<char>)>, key: ConditionKey) -> Option<Seq<char>>
    decreases cs.len(),
{
    if cs.len() == 0 {
        None
    } else if cs[0].0 == key {
        Some(cs[0].1)
    } else {
        lookup(cs.drop_first(), key)
    }
}

proof fn lookup_is_first_value(cs: Seq<(ConditionKey, String)>, key: ConditionKey)
    ensures
        lookup(condition_views(cs), key) == first_value(cs, key),
    decreases cs.len(),
{
    if cs.len() > 0 {
        assert(condition_views(cs).drop_first() =~= condition_views(cs.drop_first()));
        lookup_is_first_value(cs.drop_first(), key);
    }
}

/// The conditions of the given kinds that are kept with a case.
pub open spec fn kept_conditions(
    attrs: Map<Seq<char>, Seq<char>>,
    keys: Seq<ConditionKey>,
) -> Seq<(ConditionKey, Seq<char>)>
    decreases keys.len(),
{
    if keys.len() == 0 {
        Seq::empty()
    } else {
        let rest = kept_conditions(attrs, keys.drop_last());
        let value = text_or_empty(attrs, condition_attr(keys.last()));
        if value.len() > 0 {
            rest.push((keys.last(), value))
        } else {
            rest
        }
    }
}

/// The conditions that are kept with a case. A name that is not there, and an
/// empty value, are no condition.
pub fn parse_accumulated_conditions(attrs: &AttrMap) -> (r: Vec<(ConditionKey, String)>)
    ensures
        condition_views(r@) == kept_conditions(attrs@, condition_keys()),
{
    let keys = all_condition_keys();
    let mut r: Vec<(ConditionKey, String)> = Vec::new();
    let mut i: usize = 0;
    assert(condition_views(r@) =~= kept_conditions(attrs@, keys@.take(0)));
    while i < keys.len()
        invariant
            i <= keys.len(),
            condition_views(r@) == kept_conditions(attrs@, keys@.take(i as int)),
        decreases keys.len() - i,
    {
        proof {
            take_next(keys@, i as int);
        }
        if let Some(value) = attrs.get(condition_attr_name(keys[i])) {
            if !value.is_empty() {
                let ghost r0 = r@;
                r.push((keys[i], value.to_owned()));
                assert(condition_views(r@) =~= condition_views(r0).push(
                    (keys@[i as int], value@),
                ));
            }
        }
        i = i + 1;
    }
    assert(keys@.take(keys@.len() as int) =~= keys@);
    r
}

/// `cs` with the value for `key`: in place of the first value for it, and at the
/// end where there is none.
pub open spec fn with_condition(
    cs: Seq<(ConditionKey, Seq<char>)>,
    key: ConditionKey,
    value: Seq<char>,
) -> Seq<(ConditionKey, Seq<char>)>
    decreases cs.len(),
{
    if cs.len() == 0 {
        seq![(key, value)]
    } else if cs[0].0 == key {
        seq![(key, value)] + cs.drop_first()
    } else {
        seq![cs[0]] + with_condition(cs.drop_first(), key, value)
    }
}

/// `accumulated` with what was observed: a new value takes the place of the old.
pub open spec fn merged(
    accumulated: Seq<(ConditionKey, Seq<char>)>,
    observed: Seq<(ConditionKey, Seq<char>)>,
) -> Seq<(ConditionKey, Seq<char>)>
    decreases observed.len(),
{
    if observed.len() == 0 {
        accumulated
    } else {
        with_condition(
            merged(accumulated, observed.drop_last()),
            observed.last().0,
            observed.last().1,
        )
    }
}

proof fn with_condition_at(
    cs: Seq<(ConditionKey, Seq<char>)>,
    key: ConditionKey,
    value: Seq<char>,
    i: int,
)
    requires
        0 <= i <= cs.len(),
        forall|j: int| 0 <= j < i ==> (#[trigger] cs[j]).0 != key,
        i < cs.len() ==> cs[i].0 == key,
    ensures
        i < cs.len() ==> with_condition(cs, key, value) =~= cs.update(i, (key, value)),
        i == cs.len() ==> with_condition(cs, key, value) =~= cs.push((key, value)),
    decreases cs.len(),
{
    if cs.len() > 0 && i > 0 {
        let rest = cs.drop_first();
        assert forall|j: int| 0 <= j < i - 1 implies (#[trigger] rest[j]).0 != key by {
            assert(rest[j] == cs[j + 1]);
        }
        with_condition_at(rest, key, value, i - 1);
    }
}

/// The accumulated conditions with what was observed this turn: a new value
/// takes the place of the old, and what was not observed stays.
pub fn merge_conditions(
    accumulated: &[(ConditionKey, String)],
    observed_this_turn: &[(ConditionKey, String)],
) -> (r: Vec<(ConditionKey, String)>)
    ensures
        condition_views(r@) == merged(
            condition_views(accumulated@),
            condition_views(observed_this_turn@),
        ),
{
    let mut r: Vec<(ConditionKey, String)> = Vec::new();
    let mut i: usize = 0;
    while i < accumulated.len()
        invariant
            i <= accumulated.len(),
            condition_views(r@) =~= condition_views(accumulated@.take(i as int)),
        decreases accumulated.len() - i,
    {
        let ghost r0 = r@;
        r.push((accumulated[i].0, accumulated[i].1.clone()));
        proof {
            let c = accumulated@[i as int];
            take_next(accumulated@, i as int);
            assert(condition_views(r@) =~= condition_views(r0).push((c.0, c.1@)));
            assert(condition_views(accumulated@.take(i + 1)) =~= condition_views(
                accumulated@.take(i as int),
            ).push((c.0, c.1@)));
        }
        i = i + 1;
    }
    assert(accumulated@.take(accumulated@.len() as int) =~= accumulated@);
    let ghost all = condition_views(observed_this_turn@);
    i = 0;
    while i < observed_this_turn.len()
        invariant
            i <= observed_this_turn.len(),
            all == condition_views(observed_this_turn@),
            condition_views(r@) == merged(condition_views(accumulated@), all.take(i as int)),
        decreases observed_this_turn.len() - i,
    {
        proof {
            take_next(all, i as int);
        }
        let key = observed_this_turn[i].0;
        let value: String = observed_this_turn[i].1.clone();
        let mut k: usize = 0;
        while k < r.len() && r[k].0 != key
            invariant
                k <= r.len(),
                forall|j: int| 0 <= j < k ==> (#[trigger] r@[j]).0 != key,
            decreases r.len() - k,
        {
            k = k + 1;
        }
        let ghost before = condition_views(r@);
        proof {
            assert forall|j: int| 0 <= j < k implies (#[trigger] before[j]).0 != key by {
                assert(r@[j].0 != key);
            }
            with_condition_at(before, key, value@, k as int);
        }
        let ghost v0 = value@;
        if k < r.len() {
            r.set(k, (key, value));
            assert(condition_views(r@) =~= before.update(k as int, (key, v0)));
        } else {
            r.push((key, value));
            assert(condition_views(r@) =~= before.push((key, v0)));
        }
        i = i + 1;
    }
    assert(all.take(all.len() as int) =~= all);
    r
}

/// The attributes to write for the conditions of the given kinds.
pub open spec fn condition_updates(
    cs: Seq<(ConditionKey, Seq<char>)>,
    keys: Seq<ConditionKey>,
) -> Seq<(Seq<char>, Seq<char>)>
    decreases keys.len(),
{
    if keys.len() == 0 {
        Seq::empty()
    } else {
        let rest = condition_updates(cs, keys.drop_last());
        match lookup(cs, keys.last()) {
            Some(value) => if value.len() > 0 {
                rest.push((condition_attr(keys.last()), value))
            } else {
                rest
            },
            None => rest,
        }
    }
}

/// The attributes to write for the conditions. Only conditions with a value are
/// written, so that nothing that is kept with the case is ever blanked.
pub fn accumulated_condition_updates(conditions: &[(ConditionKey, String)]) -> (r: Vec<
    (String, String),
>)
    ensures
        pair_views(r@) == condition_updates(
            condition_views(conditions@),
            condition_keys(),
        ),
{
    let keys = all_condition_keys();
    let ghost cs = condition_views(conditions@);
    let mut r: Vec<(String, String)> = Vec::new();
    let mut i: usize = 0;
    assert(pair_views(r@) =~= condition_updates(cs, keys@.take(0)));
    while i < keys.len()
        invariant
            i <= keys.len(),
            cs == condition_views(conditions@),
            pair_views(r@) == condition_updates(cs, keys@.take(i as int)),
        decreases keys.len() - i,
    {
        proof {
            take_next(keys@, i as int);
            lookup_is_first_value(conditions@, keys@[i as int]);
        }
        if let Some(value) = value_of(conditions, keys[i]) {
            if !value.is_empty() {
                let ghost r0 = r@;
                r.push((condition_attr_name(keys[i]).to_owned(), value.to_owned()));
                assert(pair_views(r@) =~= pair_views(r0).push(
                    (condition_attr(keys@[i as int]), value@),
                ));
            }
        }
        i = i + 1;
    }
    assert(keys@.take(keys@.len() as int) =~= keys@);
    r
}

/// The value of the last condition of the given kind.
pub open spec fn last_value(cs: Seq<(ConditionKey, Seq<char>)>, key: ConditionKey) -> Option<Seq<char>>
    decreases cs.len(),
{
    if cs.len() == 0 {
        None
    } else if cs.last().0 == key {
        Some(cs.last().1)
    } else {
        last_value(cs.drop_last(), key)
    }
}

proof fn lookup_in_with_condition(
    cs: Seq<(ConditionKey, Seq<char>)>,
    key: ConditionKey,
    value: Seq<char>,
    asked: ConditionKey,
)
    ensures
        lookup(with_condition(cs, key, value), asked) == if asked == key {
            Some(value)
        } else {
            lookup(cs, asked)
        },
    decreases cs.len(),
{
    let r = with_condition(cs, key, value);
    if cs.len() == 0 {
        assert(r.drop_first() =~= Seq::empty());
        assert(lookup(r.drop_first(), asked) is None);
    } else if cs[0].0 == key {
        assert(r.drop_first() =~= cs.drop_first());
    } else {
        lookup_in_with_condition(cs.drop_first(), key, value, asked);
        assert(r.drop_first() =~= with_condition(cs.drop_first(), key, value));
    }
}

/// After merging, what was observed this turn holds, and what was not observed
/// is as it was: nothing that the customer said before is forgotten.
pub proof fn merging_forgets_nothing(
    accumulated: Seq<(ConditionKey, Seq<char>)>,
    observed: Seq<(ConditionKey, Seq<char>)>,
    key: ConditionKey,
)
    ensures
        lookup(merged(accumulated, observed), key) == match last_value(observed, key) {
            Some(value) => Some(value),
            None => lookup(accumulated, key),
        },
    decreases observed.len(),
{
    if observed.len() > 0 {
        merging_forgets_nothing(accumulated, observed.drop_last(), key);
        lookup_in_with_condition(
            merged(accumulated, observed.drop_last()),
            observed.last().0,
            observed.last().1,
            key,
        );
    }
}

proof fn condition_attrs_differ()
    ensures
        forall|a: ConditionKey, b: ConditionKey|
            #![trigger condition_attr(a), condition_attr(b)]
            condition_attr(a) == condition_attr(b) ==> a == b,
{
    reveal_strlit("advisor_cond_housing");
    reveal_strlit("advisor_cond_target");
    reveal_strlit("advisor_cond_concern");
    reveal_strlit("advisor_cond_budget");
    reveal_strlit("advisor_cond_install");
    assert("advisor_cond_housing"@[13] == 'h');
    assert("advisor_cond_target"@[13] == 't');
    assert("advisor_cond_concern"@[13] == 'c');
    assert("advisor_cond_budget"@[13] == 'b');
    assert("advisor_cond_install"@[13] == 'i');
}

proof fn updates_reach(
    attrs: Map<Seq<char>, Seq<char>>,
    cs: Seq<(ConditionKey, Seq<char>)>,
    keys: Seq<ConditionKey>,
    key: ConditionKey,
)
    ensures
        ({
            let after = put_all(attrs, condition_updates(cs, keys));
            let name = condition_attr(key);
            if keys.contains(key) && lookup(cs, key) is Some && (lookup(cs, key)->0).len() > 0 {
                after.contains_key(name) && after[name] == lookup(cs, key)->0
            } else {
                text_or_empty(after, name) == text_or_empty(attrs, name)
            }
        }),
    decreases keys.len(),
{
    if keys.len() > 0 {
        condition_attrs_differ();
        updates_reach(attrs, cs, keys.drop_last(), key);
        let u = condition_updates(cs, keys);
        let r = condition_updates(cs, keys.drop_last());
        if u != r {
            assert(u.drop_last() =~= r);
        }
        if keys.contains(key) && !keys.drop_last().contains(key) {
            let i = choose|i: int| 0 <= i < keys.len() && keys[i] == key;
            if i < keys.len() - 1 {
                assert(keys.drop_last()[i] == key);
            }
        }
        if keys.drop_last().contains(key) {
            let i = choose|i: int| 0 <= i < keys.drop_last().len() && keys.drop_last()[i] == key;
            assert(keys[i] == key);
        }
        if keys.last() == key {
            assert(keys[keys.len() - 1] == key);
        }
    }
}

/// Writing conditions to a case never blanks one that is kept there: after the
/// write each condition with a value is kept with that value, and every other
/// condition is kept as it was.
pub proof fn writing_never_blanks_a_condition(
    attrs: Map<Seq<char>, Seq<char>>,
    cs: Seq<(ConditionKey, Seq<char>)>,
    key: ConditionKey,
)
    ensures
        text_or_empty(put_all(attrs, condition_updates(cs, condition_keys())), condition_attr(key))
            == match lookup(cs, key) {
            Some(value) => if value.len() > 0 {
                value
            } else {
                text_or_empty(attrs, condition_attr(key))
            },
            None => text_or_empty(attrs, condition_attr(key)),
        },
{
    updates_reach(attrs, cs, condition_keys(), key);
    let keys = condition_keys();
    assert(keys.contains(key)) by {
        match key {
            ConditionKey::Housing => assert(keys[0] == key),
            ConditionKey::Target => assert(keys[1] == key),
            ConditionKey::Concern => assert(keys[2] == key),
            ConditionKey::Budget => assert(keys[3] == key),
            ConditionKey::Install => assert(keys[4] == key),
        }
    }
}

proof fn lookup_in_kept(
    attrs: Map<Seq<char>, Seq<char>>,
    keys: Seq<ConditionKey>,
    key: ConditionKey,
)
    requires
        keys.no_duplicates(),
    ensures
        lookup(kept_conditions(attrs, keys), key) == if keys.contains(key) && text_or_empty(
            attrs,
            condition_attr(key),
        ).len() > 0 {
            Some(text_or_empty(attrs, condition_attr(key)))
        } else {
            None
        },
    decreases keys.len(),
{
    if keys.len() > 0 {
        let rest = kept_conditions(attrs, keys.drop_last());
        let value = text_or_empty(attrs, condition_attr(keys.last()));
        lookup_in_kept(attrs, keys.drop_last(), key);
        if value.len() > 0 {
            lookup_in_push(rest, (keys.last(), value), key);
        }
        if keys.last() == key {
            assert(keys[keys.len() - 1] == key);
            assert(!keys.drop_last().contains(key)) by {
                if keys.drop_last().contains(key) {
                    let i = choose|i: int|
                        0 <= i < keys.drop_last().len() && keys.drop_last()[i] == key;
                    assert(keys[i] == keys[keys.len() - 1]);
                }
            }
        } else {
            if keys.contains(key) {
                let i = choose|i: int| 0 <= i < keys.len() && keys[i] == key;
                assert(keys.drop_last()[i] == key);
            }
            if keys.drop_last().contains(key) {
                let i = choose|i: int| 0 <= i < keys.drop_last().len() && keys.drop_last()[i] == key;
                assert(keys[i] == key);
            }
        }
    }
}

proof fn lookup_in_push(
    cs: Seq<(ConditionKey, Seq<char>)>,
    c: (ConditionKey, Seq<char>),
    key: ConditionKey,
)
    ensures
        lookup(cs.push(c), key) == match lookup(cs, key) {
            Some(v) => Some(v),
            None => if c.0 == key {
                Some(c.1)
            } else {
                None
            },
        },
    decreases cs.len(),
{
    if cs.len() == 0 {
        assert(cs.push(c).drop_first() =~= Seq::empty());
        assert(lookup(cs.push(c).drop_first(), key) is None);
    } else {
        assert(cs.push(c).drop_first() =~= cs.drop_first().push(c));
        lookup_in_push(cs.drop_first(), c, key);
    }
}

/// What is written to a case is read back: reading after a write gives each
/// condition that was written with a value, and for every other condition what
/// was kept before.
pub proof fn conditions_read_back(
    attrs: Map<Seq<char>, Seq<char>>,
    cs: Seq<(ConditionKey, Seq<char>)>,
    key: ConditionKey,
)
    ensures
        lookup(
            kept_conditions(
                put_all(attrs, condition_updates(cs, condition_keys())),
                condition_keys(),
            ),
            key,
        ) == match lookup(cs, key) {
            Some(value) => if value.len() > 0 {
                Some(value)
            } else {
                lookup(kept_conditions(attrs, condition_keys()), key)
            },
            None => lookup(kept_conditions(attrs, condition_keys()), key),
        },
{
    let keys = condition_keys();
    let after = put_all(attrs, condition_updates(cs, keys));
    assert(keys.no_duplicates());
    writing_never_blanks_a_condition(attrs, cs, key);
    lookup_in_kept(after, keys, key);
    lookup_in_kept(attrs, keys, key);
    assert(keys.contains(key)) by {
        match key {
            ConditionKey::Housing => assert(keys[0] == key),
            ConditionKey::Target => assert(keys[1] == key),
            ConditionKey::Concern => assert(keys[2] == key),
            ConditionKey::Budget => assert(keys[3] == key),
            ConditionKey::Install => assert(keys[4] == key),
        }
    }
}

/// How many answers in a row ended in a question, once an answer with the given
/// ending is out. An answer without a note leaves the number as it is.
pub open spec fn streak_after(current: int, closing: Option<ClosingKind>) -> int {
    match closing {
        Some(ClosingKind::Proposal) => 0,
        Some(_) => if current < i32::MAX {
            current + 1
        } else {
            current
        },
        None => current,
    }
}

/// How many answers in a row ended in a question, once an answer with the given
/// ending is out.
pub fn next_question_streak(current: i32, closing: Option<ClosingKind>) -> (r: i32)
    ensures
        r == streak_after(current as int, closing),
{
    match closing {
        Some(ClosingKind::Proposal) => 0,
        Some(_) => if current < i32::MAX {
            current + 1
        } else {
            current
        },
        None => current,
    }
}

/// What is missing, told from the entries alone: what the customer worries about
/// where no entry says it; how they live where the first such entry says intrusion
/// and no entry says that; and nothing in any other case.
pub proof fn missing_is_told_by_concern_and_housing(
    conditions: Seq<(ConditionKey, String)>,
    i: int,
)
    requires
        0 <= i <= conditions.len(),
        forall|j: int| 0 <= j < i ==> (#[trigger] conditions[j]).0 != ConditionKey::Concern,
        i < conditions.len() ==> conditions[i].0 == ConditionKey::Concern,
    ensures
        i == conditions.len() ==> lacking(conditions) =~= seq![ConditionKey::Concern],
        i < conditions.len() && conditions[i].1@ == "intrusion"@ && (forall|j: int|
            0 <= j < conditions.len() ==> (#[trigger] conditions[j]).0 != ConditionKey::Housing)
            ==> lacking(conditions) =~= seq![ConditionKey::Housing],
        i < conditions.len() && (conditions[i].1@ != "intrusion"@ || exists|j: int|
            0 <= j < conditions.len() && (#[trigger] conditions[j]).0 == ConditionKey::Housing)
            ==> lacking(conditions).len() == 0,
{
    first_entry_of_a_kind_counts(conditions, ConditionKey::Concern, i);
    let h = first_of_kind(conditions, ConditionKey::Housing);
    first_entry_of_a_kind_counts(conditions, ConditionKey::Housing, h);
}

/// What else is known never changes what is missing: an entry of any kind but what
/// the customer worries about and how they live can be put in or taken out
/// anywhere.
pub proof fn other_conditions_change_nothing_missing(
    conditions: Seq<(ConditionKey, String)>,
    at: int,
    c: (ConditionKey, String),
)
    requires
        0 <= at <= conditions.len(),
        c.0 != ConditionKey::Concern,
        c.0 != ConditionKey::Housing,
    ensures
        lacking(conditions.insert(at, c)) == lacking(conditions),
{
    other_kinds_have_no_bearing(conditions, at, c, ConditionKey::Concern);
    other_kinds_have_no_bearing(conditions, at, c, ConditionKey::Housing);
}

/// Each kind of reply comes on just the messages that it is for.
pub proof fn each_reply_has_its_messages(
    u: Understanding,
    conv: ConvView,
    lead_requested: bool,
    clarify_max: int,
)
    ensures
        ({
            let a = decided(u, conv, lead_requested, clarify_max);
            let free = !u.emergency && !conv.awaiting_time_pref;
            let advised = free && u.in_domain && !u.urtect_support;
            let led = u.lead_interest && !lead_requested;
            let unmet = lacking(u.conditions@);
            &&& a == ActionView::Safety <==> u.emergency
            &&& a == ActionView::TimePrefContinue <==> !u.emergency && conv.awaiting_time_pref
            &&& a == ActionView::OutOfDomain <==> free && !u.in_domain
            &&& a == ActionView::Handoff <==> free && u.in_domain && u.urtect_support
            &&& a == ActionView::LeadSolicit <==> advised && led
            &&& a is Clarify <==> advised && !led && unmet.len() > 0 && conv.clarify_turns
                < clarify_max
            &&& a is Clarify ==> a->missing == unmet
            &&& a == ActionView::Answer <==> advised && !led && (unmet.len() == 0
                || conv.clarify_turns >= clarify_max)
            &&& !(a is LeadConfirmed)
        }),
{
}

/// A customer who worries about intrusion and has not said how they live is asked
/// just that, whatever else they have said, as long as they may still be asked.
pub proof fn intrusion_asks_how_the_customer_lives(
    u: Understanding,
    conv: ConvView,
    lead_requested: bool,
    clarify_max: int,
    i: int,
)
    requires
        !u.emergency,
        !conv.awaiting_time_pref,
        u.in_domain,
        !u.urtect_support,
        !u.lead_interest || lead_requested,
        conv.clarify_turns < clarify_max,
        0 <= i < u.conditions@.len(),
        u.conditions@[i].0 == ConditionKey::Concern,
        u.conditions@[i].1@ == "intrusion"@,
        forall|j: int| 0 <= j < i ==> (#[trigger] u.conditions@[j]).0 != ConditionKey::Concern,
        forall|j: int|
            0 <= j < u.conditions@.len() ==> (#[trigger] u.conditions@[j]).0
                != ConditionKey::Housing,
    ensures
        decided(u, conv, lead_requested, clarify_max) == (ActionView::Clarify {
            missing: seq![ConditionKey::Housing],
        }),
{
    missing_is_told_by_concern_and_housing(u.conditions@, i);
}

/// Of the windows that a customer names, the first that lies in the business hours
/// is taken, wherever it stands among those that do not.
pub proof fn first_fitting_window_is_taken(
    windows: Seq<PrefWindow>,
    cfg: BusinessHoursConfig,
    i: int,
)
    requires
        0 <= i < windows.len(),
        effective(windows[i], cfg) is Some,
        forall|j: int| 0 <= j < i ==> effective(#[trigger] windows[j], cfg) is None,
    ensures
        first_slot(windows, cfg) == Some(
            slot_text(windows[i].days, effective(windows[i], cfg)->0, cfg.days@),
        ),
    decreases windows.len(),
{
    if i > 0 {
        let rest = windows.drop_first();
        assert forall|j: int| 0 <= j < i - 1 implies effective(#[trigger] rest[j], cfg) is None by {
            assert(rest[j] == windows[j + 1]);
        }
        assert(effective(windows[0], cfg) is None);
        first_fitting_window_is_taken(rest, cfg, i - 1);
    }
}

/// No time is fixed only where none of the windows lies in the business hours.
pub proof fn no_slot_means_no_window_fits(windows: Seq<PrefWindow>, cfg: BusinessHoursConfig)
    ensures
        first_slot(windows, cfg) is None <==> forall|i: int|
            0 <= i < windows.len() ==> effective(#[trigger] windows[i], cfg) is None,
    decreases windows.len(),
{
    if windows.len() > 0 {
        let rest = windows.drop_first();
        no_slot_means_no_window_fits(rest, cfg);
        if effective(windows[0], cfg) is None {
            if first_slot(windows, cfg) is None {
                assert forall|i: int| 0 <= i < windows.len() implies effective(
                    #[trigger] windows[i],
                    cfg,
                ) is None by {
                    if i > 0 {
                        assert(rest[i - 1] == windows[i]);
                    }
                }
            } else {
                let k = choose|k: int| 0 <= k < rest.len() && effective(#[trigger] rest[k], cfg) is Some;
                assert(windows[k + 1] == rest[k]);
            }
        }
    }
}

/// A window lies in the business hours just where calls are made on its days, some
/// of it lies in the hours, it does not end before it starts, and neither of its
/// bounds lies outside; a bound that is not given is that of the hours.
pub proof fn windows_that_fit_lie_wholly_in_the_hours(
    w: PrefWindow,
    cfg: BusinessHoursConfig,
    open: ClockTime,
    close: ClockTime,
)
    requires
        time_named(cfg.start@) == Some(open),
        time_named(cfg.end@) == Some(close),
    ensures
        ({
            let start = if w.start is Some {
                w.start->0
            } else {
                open
            };
            let end = if w.end is Some {
                w.end->0
            } else {
                close
            };
            let fits = days_meet(cfg.days@, w.days) && open.minutes() <= start.minutes()
                && start.minutes() <= end.minutes() && end.minutes() <= close.minutes() && (
            w.start is Some ==> start.minutes() < close.minutes()) && (w.end is Some
                ==> end.minutes() > open.minutes());
            &&& fits ==> effective(w, cfg) == Some((start, end))
            &&& !fits ==> effective(w, cfg) is None
        }),
{
}

/// Where the business hours name no time, no window lies in them.
pub proof fn nothing_fits_unreadable_hours(w: PrefWindow, cfg: BusinessHoursConfig)
    requires
        time_named(cfg.start@) is None || time_named(cfg.end@) is None,
    ensures
        effective(w, cfg) is None,
{
}

/// A slot in words names its days with two characters, then the checked start, a
/// wave dash and the checked end, each as two digits, a colon and two digits.
pub proof fn slots_name_the_checked_times(
    days: PrefDays,
    start: ClockTime,
    end: ClockTime,
    configured: Seq<char>,
)
    requires
        start.valid(),
        end.valid(),
    ensures
        ({
            let t = slot_text(days, (start, end), configured);
            &&& t.len() == 13
            &&& t.take(2) == slot_days(days, configured)
            &&& is_hhmm(t.subrange(2, 7))
            &&& two_digits(t.subrange(2, 7), 0) == start.hour
            &&& two_digits(t.subrange(2, 7), 3) == start.minute
            &&& t[7] == '〜'
            &&& is_hhmm(t.subrange(8, 13))
            &&& two_digits(t.subrange(8, 13), 0) == end.hour
            &&& two_digits(t.subrange(8, 13), 3) == end.minute
        }),
{
    reveal_strlit("平日");
    reveal_strlit("土日");
    reveal_strlit("毎日");
    reveal_strlit("〜");
    clock_texts_read_as_their_time(start);
    clock_texts_read_as_their_time(end);
    let t = slot_text(days, (start, end), configured);
    assert(t.take(2) =~= slot_days(days, configured));
    assert(t.subrange(2, 7) =~= clock_text(start));
    assert(t.subrange(8, 13) =~= clock_text(end));
}

/// The days of a slot are named as the business hours name theirs: a slot on any
/// day has the word for the days on which calls are made, one on weekdays that for
/// weekdays, and one on weekends neither.
pub proof fn slot_days_agree_with_business_days(configured: Seq<char>)
    ensures
        slot_days(PrefDays::Any, configured) == days_label(configured),
        slot_days(PrefDays::Weekday, configured) == days_label("mon-fri"@),
        slot_days(PrefDays::Weekend, configured) != days_label(configured),
{
    reveal_strlit("平日");
    reveal_strlit("土日");
    reveal_strlit("毎日");
    reveal_strlit("everyday");
    reveal_strlit("mon-fri");
    assert("everyday"@.len() == 8);
    assert("mon-fri"@.len() == 7);
    assert("土日"@[0] == '土');
    assert("平日"@[0] == '平');
    assert("毎日"@[0] == '毎');
}

/// While a time to call is awaited, a named time is fixed just where a window lies
/// in the business hours; the first that does gives the slot, and the customer's
/// words are kept as they are.
pub proof fn named_times_are_fixed_where_one_fits(
    u: Understanding,
    extraction: TimePrefExtraction,
    conv: ConvView,
    cfg: BusinessHoursConfig,
    lead_requested: bool,
    clarify_max: int,
    i: int,
)
    requires
        !u.emergency,
        extraction.is_time_preference,
        0 <= i <= extraction.windows@.len(),
        forall|j: int| 0 <= j < i ==> effective(#[trigger] extraction.windows@[j], cfg) is None,
        i < extraction.windows@.len() ==> effective(extraction.windows@[i], cfg) is Some,
    ensures
        ({
            let (action, after) = time_pref_decided(
                u,
                extraction,
                conv,
                cfg,
                lead_requested,
                clarify_max,
            );
            &&& i < extraction.windows@.len() ==> {
                &&& action == (ActionView::LeadConfirmed {
                    slot: slot_text(
                        extraction.windows@[i].days,
                        effective(extraction.windows@[i], cfg)->0,
                        cfg.days@,
                    ),
                })
                &&& after.preferred_contact_time == Some(extraction.raw@)
                &&& !after.awaiting_time_pref
                &&& after.time_pref_false_count == 0
            }
            &&& i == extraction.windows@.len() ==> {
                &&& !(action is LeadConfirmed)
                &&& after.preferred_contact_time is None
                &&& conv.time_pref_false_count == 0 ==> action == ActionView::TimePrefContinue
                    && after.awaiting_time_pref && after.time_pref_false_count == 1
                &&& conv.time_pref_false_count > 0 ==> !after.awaiting_time_pref
                    && after.time_pref_false_count == 0
            }
            &&& after.clarify_turns == conv.clarify_turns
            &&& after.time_pref_extraction_error_count == 0
        }),
{
    if i < extraction.windows@.len() {
        first_fitting_window_is_taken(extraction.windows@, cfg, i);
    } else {
        no_slot_means_no_window_fits(extraction.windows@, cfg);
    }
}

/// A message about something else is answered as it would be without the wait,
/// except that no time to call is asked for; it is counted, and the second in a
/// row ends the wait. What was kept stays.
pub proof fn other_messages_are_answered_as_any(
    u: Understanding,
    extraction: TimePrefExtraction,
    conv: ConvView,
    cfg: BusinessHoursConfig,
    lead_requested: bool,
    clarify_max: int,
)
    requires
        !u.emergency,
        !extraction.is_time_preference,
    ensures
        ({
            let (action, after) = time_pref_decided(
                u,
                extraction,
                conv,
                cfg,
                lead_requested,
                clarify_max,
            );
            &&& action == decided(
                (Understanding { lead_interest: false, ..u }),
                (ConvView { awaiting_time_pref: false, ..conv }),
                lead_requested,
                clarify_max,
            )
            &&& conv.time_pref_false_count == 0 ==> after.time_pref_false_count == 1
                && after.awaiting_time_pref == conv.awaiting_time_pref
            &&& conv.time_pref_false_count > 0 ==> after.time_pref_false_count == 0
                && !after.awaiting_time_pref
            &&& after.preferred_contact_time == conv.preferred_contact_time
            &&& after.clarify_turns == conv.clarify_turns
            &&& after.time_pref_extraction_error_count == 0
        }),
{
}

/// A message that could not be searched is taken as still awaited for the first
/// two failures in a row, and as any message, without asking for a time, at the
/// third; only the counters and the wait change.
pub proof fn failed_searches_are_counted(
    u: Understanding,
    conv: ConvView,
    lead_requested: bool,
    clarify_max: int,
)
    requires
        !u.emergency,
    ensures
        ({
            let (action, after) = failure_decided(u, conv, lead_requested, clarify_max);
            &&& conv.time_pref_extraction_error_count < 2 ==> {
                &&& action == ActionView::TimePrefContinue
                &&& after.time_pref_extraction_error_count == conv.time_pref_extraction_error_count
                    + 1
                &&& after.awaiting_time_pref == conv.awaiting_time_pref
                &&& after.time_pref_false_count == conv.time_pref_false_count
            }
            &&& conv.time_pref_extraction_error_count >= 2 ==> {
                &&& action == decided(
                    (Understanding { lead_interest: false, ..u }),
                    (ConvView { awaiting_time_pref: false, ..conv }),
                    lead_requested,
                    clarify_max,
                )
                &&& after.time_pref_extraction_error_count == 0
                &&& after.time_pref_false_count == 0
                &&& !after.awaiting_time_pref
            }
            &&& after.preferred_contact_time == conv.preferred_contact_time
            &&& after.clarify_turns == conv.clarify_turns
        }),
{
}

/// An emergency changes nothing of the state, whatever was searched for.
pub proof fn emergencies_leave_the_state(
    u: Understanding,
    extraction: TimePrefExtraction,
    conv: ConvView,
    cfg: BusinessHoursConfig,
    lead_requested: bool,
    clarify_max: int,
)
    requires
        u.emergency,
    ensures
        time_pref_decided(u, extraction, conv, cfg, lead_requested, clarify_max) == (
            ActionView::Safety,
            conv,
        ),
        failure_decided(u, conv, lead_requested, clarify_max) == (ActionView::Safety, conv),
{
}

/// A condition is kept with a case under the name of its kind, behind one and the
/// same beginning.
pub proof fn conditions_are_kept_under_their_kind(key: ConditionKey)
    ensures
        condition_attr(key) =~= "advisor_cond_"@ + key.name(),
{
    reveal_strlit("advisor_cond_");
    reveal_strlit("advisor_cond_housing");
    reveal_strlit("advisor_cond_target");
    reveal_strlit("advisor_cond_concern");
    reveal_strlit("advisor_cond_budget");
    reveal_strlit("advisor_cond_install");
    reveal_strlit("housing");
    reveal_strlit("target");
    reveal_strlit("concern");
    reveal_strlit("budget");
    reveal_strlit("install");
}

/// Of entries of one kind the first is found by looking up, and the last is the
/// latest.
pub proof fn first_entries_are_looked_up(
    cs: Seq<(ConditionKey, Seq<char>)>,
    key: ConditionKey,
    i: int,
)
    requires
        0 <= i < cs.len(),
        cs[i].0 == key,
    ensures
        (forall|j: int| 0 <= j < i ==> (#[trigger] cs[j]).0 != key) ==> lookup(cs, key) == Some(
            cs[i].1,
        ),
        (forall|j: int| i < j < cs.len() ==> (#[trigger] cs[j]).0 != key) ==> last_value(cs, key)
            == Some(cs[i].1),
    decreases cs.len(),
{
    if forall|j: int| 0 <= j < i ==> (#[trigger] cs[j]).0 != key {
        if i > 0 {
            let rest = cs.drop_first();
            assert(cs[0].0 != key);
            assert forall|j: int| 0 <= j < i - 1 implies (#[trigger] rest[j]).0 != key by {
                assert(rest[j] == cs[j + 1]);
            }
            first_entries_are_looked_up(rest, key, i - 1);
        }
    }
    if forall|j: int| i < j < cs.len() ==> (#[trigger] cs[j]).0 != key {
        if i < cs.len() - 1 {
            assert(cs[cs.len() - 1].0 != key);
            let rest = cs.drop_last();
            assert forall|j: int| i < j < rest.len() implies (#[trigger] rest[j]).0 != key by {
                assert(rest[j] == cs[j]);
            }
            first_entries_are_looked_up(rest, key, i);
        }
    }
}

/// A kind that no entry has is not found.
pub proof fn what_is_not_there_is_not_found(cs: Seq<(ConditionKey, Seq<char>)>, key: ConditionKey)
    requires
        forall|j: int| 0 <= j < cs.len() ==> (#[trigger] cs[j]).0 != key,
    ensures
        lookup(cs, key) is None,
        last_value(cs, key) is None,
    decreases cs.len(),
{
    if cs.len() > 0 {
        let rest = cs.drop_first();
        assert forall|j: int| 0 <= j < rest.len() implies (#[trigger] rest[j]).0 != key by {
            assert(rest[j] == cs[j + 1]);
        }
        what_is_not_there_is_not_found(rest, key);
        let head = cs.drop_last();
        assert forall|j: int| 0 <= j < head.len() implies (#[trigger] head[j]).0 != key by {
            assert(head[j] == cs[j]);
        }
        what_is_not_there_is_not_found(head, key);
    }
}

proof fn every_kind_is_kept(key: ConditionKey)
    ensures
        condition_keys().contains(key),
        condition_keys().no_duplicates(),
{
    let keys = condition_keys();
    match key {
        ConditionKey::Housing => assert(keys[0] == key),
        ConditionKey::Target => assert(keys[1] == key),
        ConditionKey::Concern => assert(keys[2] == key),
        ConditionKey::Budget => assert(keys[3] == key),
        ConditionKey::Install => assert(keys[4] == key),
    }
}

/// A condition of any kind is read from the attribute of that kind where that has
/// a value, and is not there otherwise.
pub proof fn each_kind_is_read_from_its_attribute(
    attrs: Map<Seq<char>, Seq<char>>,
    key: ConditionKey,
)
    ensures
        ({
            let name = "advisor_cond_"@ + key.name();
            let kept = kept_conditions(attrs, condition_keys());
            &&& attrs.contains_key(name) && attrs[name].len() > 0 ==> lookup(kept, key) == Some(
                attrs[name],
            )
            &&& !attrs.contains_key(name) || attrs[name].len() == 0 ==> lookup(kept, key) is None
        }),
{
    conditions_are_kept_under_their_kind(key);
    every_kind_is_kept(key);
    lookup_in_kept(attrs, condition_keys(), key);
}

/// What is observed changes values and adds kinds, and leaves the order: the
/// entries that were there stay in their places with their kinds, entries of kinds
/// that were not observed stay as they are, and what is new stands behind them.
pub proof fn merging_keeps_the_order(
    accumulated: Seq<(ConditionKey, Seq<char>)>,
    observed: Seq<(ConditionKey, Seq<char>)>,
)
    ensures
        ({
            let r = merged(accumulated, observed);
            &&& accumulated.len() <= r.len() <= accumulated.len() + observed.len()
            &&& forall|i: int|
                0 <= i < accumulated.len() ==> (#[trigger] r[i]).0 == accumulated[i].0
            &&& forall|i: int|
                0 <= i < accumulated.len() && (forall|j: int|
                    0 <= j < observed.len() ==> (#[trigger] observed[j]).0 != accumulated[i].0)
                    ==> #[trigger] r[i] == accumulated[i]
            &&& forall|i: int|
                accumulated.len() <= i < r.len() ==> lookup(accumulated, (#[trigger] r[i]).0) is None
                    && last_value(observed, r[i].0) is Some
        }),
    decreases observed.len(),
{
    if observed.len() > 0 {
        let head = observed.drop_last();
        let c = observed.last();
        merging_keeps_the_order(accumulated, head);
        let before = merged(accumulated, head);
        let r = merged(accumulated, observed);
        let at = place_of(before, c.0);
        with_condition_at(before, c.0, c.1, at);
        assert forall|i: int|
            0 <= i < accumulated.len() && (forall|j: int|
                0 <= j < observed.len() ==> (#[trigger] observed[j]).0
                    != accumulated[i].0) implies #[trigger] r[i] == accumulated[i] by {
            assert(observed[observed.len() - 1].0 != accumulated[i].0);
            assert forall|j: int| 0 <= j < head.len() implies (#[trigger] head[j]).0
                != accumulated[i].0 by {
                assert(head[j] == observed[j]);
            }
            assert(before[i] == accumulated[i]);
        }
        assert forall|i: int| accumulated.len() <= i < r.len() implies lookup(
            accumulated,
            (#[trigger] r[i]).0,
        ) is None && last_value(observed, r[i].0) is Some by {
            if i < before.len() {
                assert(r[i].0 == before[i].0);
                assert(lookup(accumulated, before[i].0) is None);
            } else {
                assert(at == before.len());
                if lookup(accumulated, c.0) is Some {
                    let k = place_of(accumulated, c.0);
                    if k < accumulated.len() {
                        assert(before[k].0 == c.0);
                    } else {
                        what_is_not_there_is_not_found(accumulated, c.0);
                    }
                }
            }
        }
    }
}

proof fn place_of(cs: Seq<(ConditionKey, Seq<char>)>, key: ConditionKey) -> (i: int)
    ensures
        0 <= i <= cs.len(),
        forall|j: int| 0 <= j < i ==> (#[trigger] cs[j]).0 != key,
        i < cs.len() ==> cs[i].0 == key,
    decreases cs.len(),
{
    if cs.len() == 0 {
        0
    } else {
        let head = cs.drop_last();
        let k = place_of(head, key);
        assert forall|j: int| 0 <= j < k implies (#[trigger] cs[j]).0 != key by {
            assert(head[j] == cs[j]);
        }
        if k < head.len() {
            assert(head[k] == cs[k]);
            k
        } else if cs.last().0 == key {
            cs.len() - 1
        } else {
            cs.len() as int
        }
    }
}

/// Each attribute of a case fills its own field and no other: what was offered and
/// what was fixed say yes just by the word for it, the cards are the text as it
/// stands, and a number that was written is read. Of a case without attributes
/// nothing is so.
pub proof fn each_case_attribute_fills_its_own_field(
    attrs: Map<Seq<char>, Seq<char>>,
    r: AdvisorCaseAttrs,
    changed: AdvisorCaseAttrs,
    value: Seq<char>,
    n: i32,
)
    requires
        reads_as(attrs, r),
    ensures
        reads_as(attrs.insert("lead_offered"@, value), changed) ==> changed.lead_offered == (value
            == "true"@) && changed.lead_requested == r.lead_requested
            && changed.shown_product_cards@ == r.shown_product_cards@ && changed.question_streak
            == r.question_streak,
        reads_as(attrs.insert("lead_requested"@, value), changed) ==> changed.lead_requested == (
        value == "true"@) && changed.lead_offered == r.lead_offered && changed.shown_product_cards@
            == r.shown_product_cards@ && changed.question_streak == r.question_streak,
        reads_as(attrs.insert("shown_product_cards"@, value), changed)
            ==> changed.shown_product_cards@ == value && changed.lead_offered == r.lead_offered
            && changed.lead_requested == r.lead_requested && changed.question_streak
            == r.question_streak,
        reads_as(attrs.insert("question_streak"@, signed_decimal(n as int)), changed)
            ==> changed.question_streak == n && changed.lead_offered == r.lead_offered
            && changed.lead_requested == r.lead_requested && changed.shown_product_cards@
            == r.shown_product_cards@,
        reads_as(attrs.insert("question_streak"@, value), changed) && signed_value(value) is None
            ==> changed.question_streak == 0,
        reads_as(Map::empty(), changed) ==> !changed.lead_offered && !changed.lead_requested
            && changed.shown_product_cards@.len() == 0 && changed.question_streak == 0,
{
    reveal_strlit("lead_offered");
    reveal_strlit("lead_requested");
    reveal_strlit("shown_product_cards");
    reveal_strlit("question_streak");
    assert("lead_offered"@.len() == 12);
    assert("lead_requested"@.len() == 14);
    assert("shown_product_cards"@.len() == 19);
    assert("question_streak"@.len() == 15);
    signed_decimal_reads_back(n as int);
    assert(signed_value(Seq::<char>::empty()) is None);
}

/// How many answers in a row ended in a question, once answers with the given
/// endings are out.
pub open spec fn streak_of(start: int, closings: Seq<Option<ClosingKind>>) -> int
    decreases closings.len(),
{
    if closings.len() == 0 {
        start
    } else {
        streak_after(streak_of(start, closings.drop_last()), closings.last())
    }
}

/// Questions are counted from the last proposal on, of whichever kind they are;
/// answers without a note are passed over.
pub proof fn questions_are_counted_from_the_last_proposal(
    start: int,
    closings: Seq<Option<ClosingKind>>,
    p: int,
)
    requires
        0 <= p < closings.len(),
        closings[p] == Some(ClosingKind::Proposal),
        forall|i: int|
            p < i < closings.len() ==> #[trigger] closings[i] != Some(ClosingKind::Proposal),
        closings.len() < i32::MAX,
    ensures
        streak_of(start, closings) == closings.skip(p).filter(
            |c: Option<ClosingKind>|
                c == Some(ClosingKind::QuestionChoice) || c == Some(ClosingKind::QuestionOpen),
        ).len(),
        streak_of(start, closings) < closings.len() - p,
    decreases closings.len(),
{
    reveal(Seq::filter);
    let f = |c: Option<ClosingKind>|
        c == Some(ClosingKind::QuestionChoice) || c == Some(ClosingKind::QuestionOpen);
    let tail = closings.skip(p);
    assert(tail.last() == closings.last());
    if p == closings.len() - 1 {
        assert(tail.drop_last() =~= Seq::empty());
        assert(tail.drop_last().filter(f).len() == 0);
    } else {
        questions_are_counted_from_the_last_proposal(start, closings.drop_last(), p);
        assert(tail.drop_last() =~= closings.drop_last().skip(p));
        assert(closings[closings.len() - 1] != Some(ClosingKind::Proposal));
    }
}

/// A time that fits nowhere in the hours is asked for again once; at the second
/// message in a row without a fitting time the wait ends and the message is dealt
/// with as any other that does not ask for contact. No time is kept either way.
pub proof fn times_that_do_not_fit_are_asked_for_again_once(
    u: Understanding,
    extraction: TimePrefExtraction,
    conv: ConvView,
    cfg: BusinessHoursConfig,
    lead_requested: bool,
    clarify_max: int,
)
    requires
        !u.emergency,
        extraction.is_time_preference,
        forall|i: int|
            0 <= i < extraction.windows@.len() ==> effective(
                #[trigger] extraction.windows@[i],
                cfg,
            ) is None,
    ensures
        ({
            let (action, after) = time_pref_decided(
                u,
                extraction,
                conv,
                cfg,
                lead_requested,
                clarify_max,
            );
            &&& conv.time_pref_false_count == 0 ==> action == ActionView::TimePrefContinue
                && after.awaiting_time_pref && after.time_pref_false_count == 1
            &&& conv.time_pref_false_count > 0 ==> action == decided(
                (Understanding { lead_interest: false, ..u }),
                (ConvView { awaiting_time_pref: false, ..conv }),
                lead_requested,
                clarify_max,
            ) && !after.awaiting_time_pref && after.time_pref_false_count == 0
            &&& after.preferred_contact_time is None
            &&& after.clarify_turns == conv.clarify_turns
            &&& after.time_pref_extraction_error_count == 0
        }),
{
    no_slot_means_no_window_fits(extraction.windows@, cfg);
}

/// A pair says its name and its value, both of them; the count of questions stays
/// where it can go no higher.
pub proof fn pairs_say_both_parts(p: (String, String), name: Seq<char>, value: Seq<char>)
    ensures
        pair_is(p, name, value) ==> p.0@ == name && p.1@ == value,
        pair_is(p, p.0@, p.1@),
        streak_after(i32::MAX as int, Some(ClosingKind::QuestionOpen)) == i32::MAX,
        streak_after(i32::MAX as int, Some(ClosingKind::QuestionChoice)) == i32::MAX,
{
}

} // verus!
