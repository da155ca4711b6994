//! The state of a conversation, and what a customer says about when to call.
use crate::hours::{overlaps, overlaps_business_hours, BusinessHoursConfig, ClockTime, PrefDays};
use crate::urls::opt_text;
use vstd::prelude::*;

verus! {

/// Where a conversation stands.
#[derive(Debug, Clone, PartialEq, Eq)]
pub struct CaseConvState {
    /// How often the customer was asked back.
    pub clarify_turns: u32,
    /// The customer was asked for a time to call.
    pub awaiting_time_pref: bool,
    /// How many turns in a row brought no time to call.
    pub time_pref_false_count: u32,
    /// When the customer wants to be called, in their own words, with a note
    /// behind them where that is outside business hours.
    pub preferred_contact_time: Option<String>,
    /// How often in a row a message could not be searched for a time.
    pub time_pref_extraction_error_count: u32,
}

/// Where a conversation stands.
#[verifier::ext_equal]
pub struct ConvView {
    pub clarify_turns: u32,
    pub awaiting_time_pref: bool,
    pub time_pref_false_count: u32,
    pub preferred_contact_time: Option<Seq<char>>,
    pub time_pref_extraction_error_count: u32,
}

impl View for CaseConvState {
    type V = ConvView;

    open spec fn view(&self) -> ConvView {
        ConvView {
            clarify_turns: self.clarify_turns,
            awaiting_time_pref: self.awaiting_time_pref,
            time_pref_false_count: self.time_pref_false_count,
            preferred_contact_time: opt_text(self.preferred_contact_time),
            time_pref_extraction_error_count: self.time_pref_extraction_error_count,
        }
    }
}

/// A stretch of time in which a customer can be called.
#[derive(Debug, Clone, Copy, PartialEq, Eq, Structural)]
pub struct PrefWindow {
    pub days: PrefDays,
    pub start: Option<ClockTime>,
    pub end: Option<ClockTime>,
}

/// What a message says about when to call.
#[derive(Debug, Clone, PartialEq, Eq)]
pub struct TimePrefExtraction {
    /// The message speaks of a time to call at all.
    pub is_time_preference: bool,
    pub windows: Vec<PrefWindow>,
    /// The customer's own words.
    pub raw: String,
}

/// What a message means while a time to call is awaited.
#[derive(Debug, Clone, Copy, PartialEq, Eq, Structural)]
pub enum TimePrefAction {
    /// It speaks of something else and is to be dealt with as any message.
    PassToEvaluate,
    /// It names a time, which was noted.
    Reply,
}

/// How many turns in a row may bring no time before it is no longer awaited.
pub const TIME_PREF_FALSE_LIMIT: u32 = 2;

/// How often in a row the search for a time may fail before it is no longer awaited.
pub const TIME_PREF_EXTRACTION_ERROR_LIMIT: u32 = 3;

/// The state once a message brought no time to call.
pub open spec fn without_time(conv: ConvView) -> ConvView {
    let n = conv.time_pref_false_count + 1;
    if n >= TIME_PREF_FALSE_LIMIT {
        ConvView { awaiting_time_pref: false, time_pref_false_count: 0, ..conv }
    } else {
        ConvView { time_pref_false_count: n as u32, ..conv }
    }
}

/// The state once a message named a time to call, with what is kept of it.
pub open spec fn with_time(conv: ConvView, kept: Seq<char>) -> ConvView {
    ConvView {
        awaiting_time_pref: false,
        time_pref_false_count: 0,
        preferred_contact_time: Some(kept),
        ..conv
    }
}

/// The stretches of time lie outside the business hours: there are some, and none
/// has any time in them.
pub open spec fn outside_hours(windows: Seq<PrefWindow>, cfg: BusinessHoursConfig) -> bool {
    &&& windows.len() > 0
    &&& forall|i: int|
        0 <= i < windows.len() ==> !overlaps(
            cfg,
            (#[trigger] windows[i]).days,
            windows[i].start,
            windows[i].end,
        )
}

/// Whether the stretches of time lie outside the business hours.
pub fn lie_outside_hours(windows: &[PrefWindow], cfg: &BusinessHoursConfig) -> (r: bool)
    ensures
        r == outside_hours(windows@, *cfg),
{
    let mut i: usize = 0;
    while i < windows.len()
        invariant
            i <= windows.len(),
            forall|j: int|
                0 <= j < i ==> !overlaps(
                    *cfg,
                    (#[trigger] windows@[j]).days,
                    windows@[j].start,
                    windows@[j].end,
                ),
        decreases windows.len() - i,
    {
        if overlaps_business_hours(cfg, windows[i].days, windows[i].start, windows[i].end) {
            return false;
        }
        i = i + 1;
    }
    windows.len() > 0
}

/// What is kept of a time to call: the customer's own words, and the note behind
/// them where the time lies outside business hours.
pub open spec fn time_kept(
    extraction: TimePrefExtraction,
    cfg: BusinessHoursConfig,
    note: Seq<char>,
) -> Seq<char> {
    if outside_hours(extraction.windows@, cfg) {
        extraction.raw@ + note
    } else {
        extraction.raw@
    }
}

/// Notes what a message says about when to call. A message that names a time
/// ends the wait for it, also where the time lies outside business hours, which
/// the note then says; so does the second message in a row that names none.
pub fn handle_time_pref(
    extraction: &TimePrefExtraction,
    conv: &mut CaseConvState,
    cfg: &BusinessHoursConfig,
    out_of_hours_note: &str,
) -> (r: TimePrefAction)
    requires
        !extraction.is_time_preference ==> old(conv).time_pref_false_count < u32::MAX,
    ensures
        r == if extraction.is_time_preference {
            TimePrefAction::Reply
        } else {
            TimePrefAction::PassToEvaluate
        },
        final(conv)@ == if extraction.is_time_preference {
            with_time(old(conv)@, time_kept(*extraction, *cfg, out_of_hours_note@))
        } else {
            without_time(old(conv)@)
        },
{
    if extraction.is_time_preference {
        conv.awaiting_time_pref = false;
        conv.time_pref_false_count = 0;
        let mut kept = extraction.raw.clone();
        if lie_outside_hours(extraction.windows.as_slice(), cfg) {
            kept.append(out_of_hours_note);
        }
        conv.preferred_contact_time = Some(kept);
        TimePrefAction::Reply
    } else {
        conv.time_pref_false_count = conv.time_pref_false_count + 1;
        if conv.time_pref_false_count >= TIME_PREF_FALSE_LIMIT {
            conv.awaiting_time_pref = false;
            conv.time_pref_false_count = 0;
        }
        TimePrefAction::PassToEvaluate
    }
}

/// What is kept of a time starts with the customer's own words. The note follows
/// just where some stretch is named and none shares a minute with the hours.
pub proof fn own_words_come_first(
    extraction: TimePrefExtraction,
    cfg: BusinessHoursConfig,
    note: Seq<char>,
    i: int,
)
    ensures
        extraction.raw@.is_prefix_of(time_kept(extraction, cfg, note)),
        0 <= i < extraction.windows@.len() && overlaps(
            cfg,
            extraction.windows@[i].days,
            extraction.windows@[i].start,
            extraction.windows@[i].end,
        ) ==> time_kept(extraction, cfg, note) == extraction.raw@,
        extraction.windows@.len() == 0 ==> time_kept(extraction, cfg, note) == extraction.raw@,
        extraction.windows@.len() > 0 && (forall|j: int|
            0 <= j < extraction.windows@.len() ==> !overlaps(
                cfg,
                (#[trigger] extraction.windows@[j]).days,
                extraction.windows@[j].start,
                extraction.windows@[j].end,
            )) ==> time_kept(extraction, cfg, note).len() == extraction.raw@.len() + note.len()
            && time_kept(extraction, cfg, note).skip(extraction.raw@.len() as int) =~= note,
{
}

/// Whether a message brings a time or not, how often the customer was asked back
/// and how often the search failed stay. A time is kept and ends the wait. Without
/// one, what was kept stays, a first message is counted and the wait goes on, and a
/// second in a row ends it.
pub proof fn times_end_the_wait(conv: ConvView, kept: Seq<char>)
    ensures
        with_time(conv, kept).preferred_contact_time == Some(kept),
        !with_time(conv, kept).awaiting_time_pref,
        with_time(conv, kept).time_pref_false_count == 0,
        with_time(conv, kept).clarify_turns == conv.clarify_turns,
        with_time(conv, kept).time_pref_extraction_error_count
            == conv.time_pref_extraction_error_count,
        without_time(conv).preferred_contact_time == conv.preferred_contact_time,
        without_time(conv).clarify_turns == conv.clarify_turns,
        without_time(conv).time_pref_extraction_error_count == conv.time_pref_extraction_error_count,
        conv.time_pref_false_count == 0 ==> without_time(conv).awaiting_time_pref
            == conv.awaiting_time_pref && without_time(conv).time_pref_false_count == 1
            && !without_time(without_time(conv)).awaiting_time_pref && without_time(
            without_time(conv),
        ).time_pref_false_count == 0,
        conv.time_pref_false_count >= 1 ==> !without_time(conv).awaiting_time_pref && without_time(
            conv,
        ).time_pref_false_count == 0,
{
}

} // verus!
