//! One turn of a support conversation: which step follows what came back from
//! the last.
use crate::conversation::{
    handle_time_pref, time_kept, with_time, without_time, CaseConvState, ConvView, TimePrefAction,
    TimePrefExtraction, TIME_PREF_EXTRACTION_ERROR_LIMIT,
};
use crate::decide::after_failure;
use crate::hours::BusinessHoursConfig;
use crate::product_gate::{foreign_models, ProductAllowlist};
use crate::prompt_input::{plain_text, to_plain_text};
use crate::text::{
    chars_of, contained_in_a_sum, contains, cut, is_control, is_white, join, joined,
    joined_text_holds_each_part, middle_is_contained, shortened, take_next, texts, trim, trimmed,
    truncate_chars, white,
};
use crate::urls::opt_text;
use vstd::prelude::*;

verus! {

/// The kinds of reply in a support conversation.
#[derive(Debug, Clone, Copy, PartialEq, Eq, Structural)]
pub enum SupportReplyKind {
    /// The drafted answer.
    Answer,
    /// A question back.
    Clarify,
    /// The case goes to a person.
    Escalation,
    /// A time to call was noted.
    TimePref,
    /// The message is about a product of someone else.
    OutOfScope,
}

impl SupportReplyKind {
    /// The word for this kind of reply.
    pub open spec fn word(self) -> Seq<char> {
        match self {
            SupportReplyKind::Answer => "answer"@,
            SupportReplyKind::Clarify => "clarify"@,
            SupportReplyKind::Escalation => "escalation"@,
            SupportReplyKind::TimePref => "time_pref"@,
            SupportReplyKind::OutOfScope => "out_of_scope"@,
        }
    }

    /// The word for this kind of reply.
    pub fn as_str(self) -> (r: &'static str)
        ensures
            r@ == self.word(),
    {
        match self {
            SupportReplyKind::Answer => "answer",
            SupportReplyKind::Clarify => "clarify",
            SupportReplyKind::Escalation => "escalation",
            SupportReplyKind::TimePref => "time_pref",
            SupportReplyKind::OutOfScope => "out_of_scope",
        }
    }
}

/// What a support turn replies.
pub struct SupportReplyOutcome {
    /// The text, without Markdown.
    pub reply_text: String,
    pub case_id: String,
    pub reply_kind: SupportReplyKind,
    /// Empty where the turn could not be recorded.
    pub audit_event_id: String,
}

/// What a support turn replies with the given text.
pub fn finish_turn(
    reply_kind: SupportReplyKind,
    reply_text: &str,
    case_id: String,
    audit_event_id: String,
) -> (r: SupportReplyOutcome)
    ensures
        r.reply_text@ == plain_text(reply_text@),
        r.case_id == case_id,
        r.reply_kind == reply_kind,
        r.audit_event_id == audit_event_id,
{
    SupportReplyOutcome { reply_text: to_plain_text(reply_text), case_id, reply_kind, audit_event_id }
}

/// Who spoke in a support conversation.
#[derive(Debug, Clone, Copy, PartialEq, Eq, Structural)]
pub enum ReplyHistoryRole {
    Customer,
    Assistant,
}

/// What was said earlier in a support conversation.
#[derive(Debug, Clone, PartialEq, Eq)]
pub struct ReplyHistoryTurn {
    pub role: ReplyHistoryRole,
    pub text: String,
}

/// Whether the conversation is under way: something was said before, or there
/// is a case.
pub fn is_continuation(history: &[ReplyHistoryTurn], case_id: Option<&str>) -> (r: bool)
    ensures
        r == (history@.len() > 0 || case_id is Some),
{
    history.len() > 0 || case_id.is_some()
}

/// Counts a failure to search a message for a time to call. The third in a row
/// ends the wait for one.
pub fn note_time_pref_extraction_failure(conv: &mut CaseConvState)
    requires
        old(conv).time_pref_extraction_error_count < u32::MAX,
    ensures
        final(conv)@ == after_failure(old(conv)@),
{
    conv.time_pref_extraction_error_count = conv.time_pref_extraction_error_count + 1;
    if conv.time_pref_extraction_error_count >= TIME_PREF_EXTRACTION_ERROR_LIMIT {
        conv.awaiting_time_pref = false;
        conv.time_pref_false_count = 0;
        conv.time_pref_extraction_error_count = 0;
    }
}

/// The state once the customer was asked for a time to call.
pub open spec fn armed(conv: ConvView) -> ConvView {
    ConvView { awaiting_time_pref: true, time_pref_false_count: 0, clarify_turns: 0, ..conv }
}

/// Starts the wait for a time to call. How often the search for one failed
/// stays counted.
pub fn arm_time_pref_solicitation(conv: &mut CaseConvState)
    ensures
        final(conv)@ == armed(old(conv)@),
{
    conv.awaiting_time_pref = true;
    conv.time_pref_false_count = 0;
    conv.clarify_turns = 0;
}

/// Whether this is the last time that the customer is asked back.
pub fn is_final_clarify_turn(conv: &CaseConvState, clarify_max_turns: u32) -> (r: bool)
    ensures
        r == (conv.clarify_turns + 1 >= clarify_max_turns),
{
    conv.clarify_turns >= if clarify_max_turns > 0 {
        clarify_max_turns - 1
    } else {
        0
    }
}

/// What an answer would need. The scores are given in words, with two decimals.
#[derive(Debug, Clone, PartialEq, Eq)]
pub enum EvidenceRequirement {
    /// A passage of the manual that speaks of the matter.
    DirectManualCoverage { required: String, best: String },
}

/// What an answer would need, in a sentence.
pub open spec fn requirement_text(m: EvidenceRequirement) -> Seq<char> {
    match m {
        EvidenceRequirement::DirectManualCoverage { required, best } =>
            "マニュアルとの一致度が必要水準に届いていません（必要: "@ + required@ + " 以上、現在: "@ + best@ + "）"@,
    }
}

/// What an answer would need, one sentence a line.
pub fn missing_to_text(missing: &[EvidenceRequirement]) -> (r: String)
    ensures
        r@ == if missing@.len() == 0 {
            "情報が不足しており、現在の内容では回答の根拠が十分ではありません。"@
        } else {
            join(missing@.map_values(|m: EvidenceRequirement| requirement_text(m)), "\n"@)
        },
{
    if missing.len() == 0 {
        return "情報が不足しており、現在の内容では回答の根拠が十分ではありません。".to_owned();
    }
    let ghost all = missing@.map_values(|m: EvidenceRequirement| requirement_text(m));
    let mut lines: Vec<String> = Vec::new();
    let mut i: usize = 0;
    while i < missing.len()
        invariant
            i <= missing.len(),
            all == missing@.map_values(|m: EvidenceRequirement| requirement_text(m)),
            texts(lines@) =~= all.take(i as int),
        decreases missing.len() - i,
    {
        let ghost l0 = lines@;
        let line = match &missing[i] {
            EvidenceRequirement::DirectManualCoverage { required, best } => {
                let mut t = "マニュアルとの一致度が必要水準に届いていません（必要: ".to_owned();
                t.append(required.as_str());
                t.append(" 以上、現在: ");
                t.append(best.as_str());
                t.append("）");
                t
            },
        };
        let ghost t0 = line@;
        lines.push(line);
        proof {
            take_next(all, i as int);
            assert(t0 == requirement_text(missing@[i as int]));
            assert(texts(lines@) =~= texts(l0).push(t0));
        }
        i = i + 1;
    }
    assert(all.take(all.len() as int) =~= all);
    joined(lines.as_slice(), "\n")
}

/// `c` parts words.
pub open spec fn parts_words(c: char) -> bool {
    is_white(c) || is_control(c)
}

/// `s` with every stretch between words made a single space, and none before
/// the first word.
pub open spec fn spaced(s: Seq<char>) -> Seq<char>
    decreases s.len(),
{
    if s.len() == 0 {
        s
    } else {
        let rest = spaced(s.drop_last());
        if !parts_words(s.last()) {
            rest.push(s.last())
        } else if rest.len() == 0 || rest.last() == ' ' {
            rest
        } else {
            rest.push(' ')
        }
    }
}

/// `s` on one line: its words with single spaces between them.
pub open spec fn single_line(s: Seq<char>) -> Seq<char> {
    let r = spaced(s);
    if r.len() > 0 && r.last() == ' ' {
        r.drop_last()
    } else {
        r
    }
}

fn separates(c: char) -> (r: bool)
    ensures
        r == parts_words(c),
{
    let n: u32 = c as u32;
    white(c) || n <= 0x1f || (0x7f <= n && n <= 0x9f)
}

/// The text on one line: its words with single spaces between them.
pub fn collapse_to_single_line(text: &str) -> (r: String)
    ensures
        r@ == single_line(text@),
{
    let v = chars_of(text);
    let mut out: Vec<char> = Vec::new();
    let mut i: usize = 0;
    assert(out@ =~= spaced(v@.take(0)));
    while i < v.len()
        invariant
            v@ == text@,
            i <= v.len(),
            out@ == spaced(v@.take(i as int)),
        decreases v.len() - i,
    {
        proof {
            take_next(v@, i as int);
        }
        if !separates(v[i]) {
            out.push(v[i]);
        } else if out.len() > 0 && out[out.len() - 1] != ' ' {
            out.push(' ');
        }
        i = i + 1;
    }
    assert(v@.take(v@.len() as int) =~= v@);
    let n: usize = out.len();
    if n > 0 && out[n - 1] == ' ' {
        let r = cut(&out, 0, n - 1);
        assert(r@ =~= out@.drop_last());
        r
    } else {
        let r = cut(&out, 0, n);
        assert(r@ =~= out@);
        r
    }
}

/// How much of what a customer said is repeated.
pub const KNOWN_FACT_CHARS: usize = 100;

/// What a customer said, on one line and cut to length.
pub open spec fn fact_line(text: Seq<char>) -> Seq<char> {
    shortened(single_line(text), KNOWN_FACT_CHARS as nat)
}

/// What a customer said, on one line and cut to length.
pub fn normalize_customer_turn_to_single_line(text: &str) -> (r: String)
    ensures
        r@ == fact_line(text@),
{
    truncate_chars(collapse_to_single_line(text).as_str(), KNOWN_FACT_CHARS)
}

/// What the customer said, each on one line; what is blank is left out.
pub open spec fn customer_lines(history: Seq<ReplyHistoryTurn>) -> Seq<Seq<char>>
    decreases history.len(),
{
    if history.len() == 0 {
        Seq::empty()
    } else {
        let rest = customer_lines(history.drop_last());
        let line = fact_line(history.last().text@);
        if history.last().role == ReplyHistoryRole::Customer && line.len() > 0 {
            rest.push(line)
        } else {
            rest
        }
    }
}

/// The last `n` of the lines.
pub open spec fn last_lines(lines: Seq<Seq<char>>, n: int) -> Seq<Seq<char>> {
    if lines.len() <= n {
        lines
    } else {
        lines.skip(lines.len() - n)
    }
}

/// The last things that the customer said, each on one line, at most `max_turns`.
pub fn select_customer_history_for_known_facts(history: &[ReplyHistoryTurn], max_turns: usize) -> (r: Vec<
    String,
>)
    ensures
        texts(r@) == last_lines(customer_lines(history@), max_turns as int),
{
    let mut all: Vec<String> = Vec::new();
    let mut i: usize = 0;
    assert(texts(all@) =~= customer_lines(history@.take(0)));
    while i < history.len()
        invariant
            i <= history.len(),
            texts(all@) == customer_lines(history@.take(i as int)),
        decreases history.len() - i,
    {
        proof {
            take_next(history@, i as int);
        }
        if history[i].role == ReplyHistoryRole::Customer {
            let line = normalize_customer_turn_to_single_line(history[i].text.as_str());
            if !line.as_str().is_empty() {
                let ghost a0 = all@;
                let ghost t0 = line@;
                all.push(line);
                assert(texts(all@) =~= texts(a0).push(t0));
            }
        }
        i = i + 1;
    }
    assert(history@.take(history@.len() as int) =~= history@);
    if all.len() <= max_turns {
        return all;
    }
    let ghost lines = texts(all@);
    let skip: usize = all.len() - max_turns;
    let mut r: Vec<String> = Vec::new();
    i = skip;
    while i < all.len()
        invariant
            skip <= i <= all.len(),
            lines == texts(all@),
            texts(r@) =~= lines.subrange(skip as int, i as int),
        decreases all.len() - i,
    {
        let ghost r0 = r@;
        r.push(all[i].clone());
        assert(texts(r@) =~= texts(r0).push(lines[i as int]));
        i = i + 1;
    }
    assert(lines.subrange(skip as int, lines.len() as int) =~= lines.skip(skip as int));
    r
}

/// The lines that say what is known already.
pub open spec fn known_lines(labels: Seq<Seq<char>>, said: Seq<Seq<char>>) -> Seq<Seq<char>> {
    (if labels.len() > 0 {
        seq!["- 把握済みの条件語: "@ + join(labels, "、"@)]
    } else {
        Seq::empty()
    }) + said.map_values(|t: Seq<char>| "- 顧客発話: "@ + t)
}

/// What is known already: the words for the signals so far, and the last things
/// that the customer said.
pub fn build_known_facts(labels: &[String], history: &[ReplyHistoryTurn], max_turns: usize) -> (r: String)
    ensures
        r@ == join(
            known_lines(
                texts(labels@),
                last_lines(customer_lines(history@), max_turns as int),
            ),
            "\n"@,
        ),
{
    let mut lines: Vec<String> = Vec::new();
    if labels.len() > 0 {
        let mut line = "- 把握済みの条件語: ".to_owned();
        line.append(joined(labels, "、").as_str());
        lines.push(line);
    }
    let ghost head = texts(lines@);
    let said = select_customer_history_for_known_facts(history, max_turns);
    let ghost all = texts(said@);
    let ghost f = |t: Seq<char>| "- 顧客発話: "@ + t;
    let mut i: usize = 0;
    assert(texts(lines@) =~= head + all.map_values(f).take(0));
    while i < said.len()
        invariant
            i <= said.len(),
            all == texts(said@),
            f == (|t: Seq<char>| "- 顧客発話: "@ + t),
            texts(lines@) =~= head + all.map_values(f).take(i as int),
        decreases said.len() - i,
    {
        let ghost l0 = lines@;
        let mut line = "- 顧客発話: ".to_owned();
        line.append(said[i].as_str());
        let ghost t0 = line@;
        lines.push(line);
        proof {
            take_next(all.map_values(f), i as int);
            assert(t0 == f(all[i as int]));
            assert(texts(lines@) =~= texts(l0).push(t0));
        }
        i = i + 1;
    }
    proof {
        let m = all.map_values(f);
        assert(m.take(m.len() as int) =~= m);
        assert(texts(lines@) =~= known_lines(texts(labels@), all));
    }
    joined(lines.as_slice(), "\n")
}

/// The text, and the fallback where the text speaks of a model that is not on
/// the list.
pub fn gate_generated_text(text: String, allowlist: &ProductAllowlist, fallback: &str) -> (r: String)
    ensures
        r@ == if foreign_models(text@, texts(allowlist.models@)).len() > 0 {
            fallback@
        } else {
            text@
        },
{
    if allowlist.out_of_scope_mentions(text.as_str()).len() > 0 {
        fallback.to_owned()
    } else {
        text
    }
}

/// The draft, unless it speaks of a model that is not on the list.
pub open spec fn draft_in_scope(draft: Option<Seq<char>>, models: Seq<Seq<char>>) -> Option<Seq<char>> {
    match draft {
        Some(text) => if foreign_models(text, models).len() > 0 {
            None
        } else {
            Some(text)
        },
        None => None,
    }
}

/// The draft, unless it speaks of a model that is not on the list.
pub fn gate_customer_reply_draft(draft: Option<String>, allowlist: &ProductAllowlist) -> (r: Option<
    String,
>)
    ensures
        opt_text(r) == draft_in_scope(opt_text(draft), texts(allowlist.models@)),
{
    match draft {
        Some(text) => if allowlist.out_of_scope_mentions(text.as_str()).len() > 0 {
            None
        } else {
            Some(text)
        },
        None => None,
    }
}

/// What came back from the evaluation of a message.
pub struct EvaluationOutcome {
    /// The message may be answered; it is to be escalated otherwise.
    pub allowed: bool,
    /// What an answer would need.
    pub missing: Vec<EvidenceRequirement>,
    /// The customer may be asked back.
    pub clarification_allowed: bool,
    /// The signals of the message were read with the word list alone, because
    /// the better way to read them failed.
    pub lexicon_fallback: bool,
    pub customer_reply_draft: Option<String>,
    pub customer_reply_draft_truncated: bool,
    pub case_id: String,
    pub new_signals: Vec<String>,
}

/// What to do about an evaluated message.
pub enum ReplyAction {
    Answer(String),
    Clarify,
    EscalationReply,
}

/// What to do about an evaluated message.
#[verifier::ext_equal]
pub enum ReplyActionView {
    Answer(Seq<char>),
    Clarify,
    EscalationReply,
}

impl View for ReplyAction {
    type V = ReplyActionView;

    open spec fn view(&self) -> ReplyActionView {
        match self {
            ReplyAction::Answer(text) => ReplyActionView::Answer(text@),
            ReplyAction::Clarify => ReplyActionView::Clarify,
            ReplyAction::EscalationReply => ReplyActionView::EscalationReply,
        }
    }
}

/// What to do about an evaluated message: answer where it may be answered and
/// the draft is whole, ask back where that may and can still be done, and
/// escalate otherwise. Where the signals were read with the word list alone, it
/// is always escalated.
pub open spec fn reply_action(
    outcome: EvaluationOutcome,
    draft: Option<Seq<char>>,
    clarify_turns: int,
    clarify_max_turns: int,
) -> ReplyActionView {
    if outcome.lexicon_fallback {
        ReplyActionView::EscalationReply
    } else if outcome.allowed {
        match draft {
            Some(text) => if outcome.customer_reply_draft_truncated {
                ReplyActionView::EscalationReply
            } else {
                ReplyActionView::Answer(text)
            },
            None => ReplyActionView::EscalationReply,
        }
    } else if outcome.clarification_allowed && clarify_turns < clarify_max_turns {
        ReplyActionView::Clarify
    } else {
        ReplyActionView::EscalationReply
    }
}

/// What to do about an evaluated message.
pub fn decide_reply_action(
    outcome: &EvaluationOutcome,
    conv: &CaseConvState,
    clarify_max_turns: u32,
) -> (r: ReplyAction)
    ensures
        r@ == reply_action(
            *outcome,
            opt_text(outcome.customer_reply_draft),
            conv.clarify_turns as int,
            clarify_max_turns as int,
        ),
{
    if outcome.lexicon_fallback {
        return ReplyAction::EscalationReply;
    }
    if outcome.allowed {
        return match &outcome.customer_reply_draft {
            Some(text) => if outcome.customer_reply_draft_truncated {
                ReplyAction::EscalationReply
            } else {
                ReplyAction::Answer(text.clone())
            },
            None => ReplyAction::EscalationReply,
        };
    }
    if outcome.clarification_allowed && conv.clarify_turns < clarify_max_turns {
        ReplyAction::Clarify
    } else {
        ReplyAction::EscalationReply
    }
}

/// The next step of a support turn.
pub enum SupportStep {
    /// Reply that the model is none of the house, and record it.
    ReplyOutOfScope { model: String },
    /// Load the state of the case.
    LoadState,
    /// Search the message for a time to call.
    SearchTime,
    /// Save the state, and reply that the time was noted.
    ReplyTimeNoted,
    /// Evaluate the message, once the state is saved where it has changed.
    Evaluate { state_changed: bool },
    /// Take back what the evaluation noted, and reply that the product is none
    /// of the house.
    Demote { surface: String, case_id: String, discarded_signals: Vec<String> },
    /// Load the state of the case that was evaluated.
    LoadEvaluatedState,
    /// Reply with the draft; the state has not changed.
    ReplyAnswer { text: String },
    /// Draft a question back.
    DraftClarify { missing_text: String, is_final: bool },
    /// Draft a text that takes the message in before it goes to a person.
    DraftAck,
}

/// The first step of a support turn: a model that is none of the house is turned
/// away before anything else, and where there is a case its state is looked at
/// before the message is evaluated.
pub fn open_support_turn(message: &str, allowlist: &ProductAllowlist, has_case: bool) -> (r: SupportStep)
    ensures
        ({
            let foreign = foreign_models(message@, texts(allowlist.models@));
            if foreign.len() > 0 {
                r is ReplyOutOfScope && r->model@ == foreign[0]
            } else if has_case {
                r is LoadState
            } else {
                r is Evaluate && !r->state_changed
            }
        }),
{
    match allowlist.first_out_of_scope_token(message) {
        Some(model) => SupportStep::ReplyOutOfScope { model },
        None => if has_case {
            SupportStep::LoadState
        } else {
            SupportStep::Evaluate { state_changed: false }
        },
    }
}

/// The step once the state of the case is loaded: the message is searched for a
/// time to call where one is awaited.
pub fn after_state_loaded(conv: &CaseConvState) -> (r: SupportStep)
    ensures
        if conv.awaiting_time_pref {
            r is SearchTime
        } else {
            r is Evaluate && !r->state_changed
        },
{
    if conv.awaiting_time_pref {
        SupportStep::SearchTime
    } else {
        SupportStep::Evaluate { state_changed: false }
    }
}

/// The state once the message was searched for a time to call, with what came
/// of it; nothing where the search failed.
pub open spec fn after_search(
    found: Option<TimePrefExtraction>,
    conv: ConvView,
    cfg: BusinessHoursConfig,
    note: Seq<char>,
) -> ConvView {
    match found {
        Some(extraction) => {
            let clean = ConvView { time_pref_extraction_error_count: 0, ..conv };
            if extraction.is_time_preference {
                with_time(clean, time_kept(extraction, cfg, note))
            } else {
                without_time(clean)
            }
        },
        None => after_failure(conv),
    }
}

/// What is counted once the message was searched for a time to call can be
/// counted.
pub open spec fn search_counts_fit(found: Option<TimePrefExtraction>, conv: ConvView) -> bool {
    match found {
        Some(extraction) => extraction.is_time_preference || conv.time_pref_false_count < u32::MAX,
        None => conv.time_pref_extraction_error_count < u32::MAX,
    }
}

/// Whether what is counted once the message was searched for a time to call can
/// be counted.
pub fn search_can_be_counted(found: &Option<TimePrefExtraction>, conv: &CaseConvState) -> (r: bool)
    ensures
        r == search_counts_fit(*found, conv@),
{
    match found {
        Some(extraction) => extraction.is_time_preference || conv.time_pref_false_count < u32::MAX,
        None => conv.time_pref_extraction_error_count < u32::MAX,
    }
}

/// The step once the message was searched for a time to call. Either way the
/// state has changed, and is saved before anything else is done. A time outside
/// business hours is kept with the note behind it.
pub fn after_time_searched(
    found: &Option<TimePrefExtraction>,
    conv: &mut CaseConvState,
    cfg: &BusinessHoursConfig,
    out_of_hours_note: &str,
) -> (r: SupportStep)
    requires
        search_counts_fit(*found, old(conv)@),
    ensures
        final(conv)@ == after_search(*found, old(conv)@, *cfg, out_of_hours_note@),
        if *found is Some && (*found)->0.is_time_preference {
            r is ReplyTimeNoted
        } else {
            r is Evaluate && r->state_changed
        },
{
    match found {
        Some(extraction) => {
            conv.time_pref_extraction_error_count = 0;
            match handle_time_pref(extraction, conv, cfg, out_of_hours_note) {
                TimePrefAction::Reply => SupportStep::ReplyTimeNoted,
                TimePrefAction::PassToEvaluate => SupportStep::Evaluate { state_changed: true },
            }
        },
        None => {
            note_time_pref_extraction_failure(conv);
            SupportStep::Evaluate { state_changed: true }
        },
    }
}

/// A product of someone else that the message was confirmed to be about, with
/// what has to be taken back for it.
pub struct SecondStageShortCircuit {
    pub surface: String,
    pub case_id: String,
    pub discarded_signals: Vec<String>,
}

fn copy_all(v: &[String]) -> (r: Vec<String>)
    ensures
        r@ == v@,
{
    let mut r: Vec<String> = Vec::new();
    let mut i: usize = 0;
    while i < v.len()
        invariant
            i <= v.len(),
            r@ =~= v@.take(i as int),
        decreases v.len() - i,
    {
        r.push(v[i].clone());
        i = i + 1;
    }
    assert(v@.take(v@.len() as int) =~= v@);
    r
}

/// What has to be taken back where the message was confirmed to be about a
/// product of someone else.
pub fn second_stage_short_circuit(outcome: &EvaluationOutcome, confirmed: Option<&str>) -> (r: Option<
    SecondStageShortCircuit,
>)
    ensures
        match r {
            Some(s) => {
                &&& confirmed is Some
                &&& s.surface@ == trim((confirmed->0)@)
                &&& s.case_id@ == outcome.case_id@
                &&& s.discarded_signals@ == outcome.new_signals@
            },
            None => confirmed is None,
        },
{
    match confirmed {
        Some(surface) => Some(
            SecondStageShortCircuit {
                surface: trimmed(surface),
                case_id: outcome.case_id.clone(),
                discarded_signals: copy_all(outcome.new_signals.as_slice()),
            },
        ),
        None => None,
    }
}

/// The step once the message is evaluated. `confirmed` names the product of
/// someone else that the message was confirmed to be about, if any.
pub fn after_evaluated(outcome: &EvaluationOutcome, confirmed: Option<&str>) -> (r: SupportStep)
    ensures
        match confirmed {
            Some(surface) => {
                &&& r is Demote
                &&& r->surface@ == trim(surface@)
                &&& r->case_id@ == outcome.case_id@
                &&& r->discarded_signals@ == outcome.new_signals@
            },
            None => r is LoadEvaluatedState,
        },
{
    match second_stage_short_circuit(outcome, confirmed) {
        Some(s) => SupportStep::Demote {
            surface: s.surface,
            case_id: s.case_id,
            discarded_signals: s.discarded_signals,
        },
        None => SupportStep::LoadEvaluatedState,
    }
}

/// The step once the state of the evaluated case is loaded. A draft that speaks
/// of a model of someone else is dropped first.
pub fn build_post_evaluate_reply(
    outcome: &mut EvaluationOutcome,
    conv: &CaseConvState,
    allowlist: &ProductAllowlist,
    clarify_max_turns: u32,
) -> (r: SupportStep)
    ensures
        opt_text(final(outcome).customer_reply_draft) == draft_in_scope(
            opt_text(old(outcome).customer_reply_draft),
            texts(allowlist.models@),
        ),
        *final(outcome) == (EvaluationOutcome {
            customer_reply_draft: final(outcome).customer_reply_draft,
            ..*old(outcome)
        }),
        match reply_action(
            *final(outcome),
            opt_text(final(outcome).customer_reply_draft),
            conv.clarify_turns as int,
            clarify_max_turns as int,
        ) {
            ReplyActionView::Answer(text) => r is ReplyAnswer && r->text@ == text,
            ReplyActionView::Clarify => {
                &&& r is DraftClarify
                &&& r->is_final == (conv.clarify_turns + 1 >= clarify_max_turns)
                &&& r->missing_text@ == if old(outcome).missing@.len() == 0 {
                    "情報が不足しており、現在の内容では回答の根拠が十分ではありません。"@
                } else {
                    join(
                        old(outcome).missing@.map_values(
                            |m: EvidenceRequirement| requirement_text(m),
                        ),
                        "\n"@,
                    )
                }
            },
            ReplyActionView::EscalationReply => r is DraftAck,
        },
{
    let draft = outcome.customer_reply_draft.take();
    outcome.customer_reply_draft = gate_customer_reply_draft(draft, allowlist);
    match decide_reply_action(outcome, conv, clarify_max_turns) {
        ReplyAction::Answer(text) => SupportStep::ReplyAnswer { text },
        ReplyAction::Clarify => SupportStep::DraftClarify {
            missing_text: missing_to_text(outcome.missing.as_slice()),
            is_final: is_final_clarify_turn(conv, clarify_max_turns),
        },
        ReplyAction::EscalationReply => SupportStep::DraftAck,
    }
}

/// The question back that is sent for what was drafted, and counts it. Where
/// nothing was drafted, and where the draft speaks of a model of someone else,
/// it is the fixed question; the last question has the suffix behind it.
pub fn clarify_question(
    drafted: Option<String>,
    allowlist: &ProductAllowlist,
    fixed_question: &str,
    suffix: &str,
    is_final: bool,
    conv: &mut CaseConvState,
) -> (r: String)
    requires
        old(conv).clarify_turns < u32::MAX,
    ensures
        ({
            let text = match draft_in_scope(opt_text(drafted), texts(allowlist.models@)) {
                Some(t) => t,
                None => fixed_question@,
            };
            r@ == if is_final {
                text + suffix@
            } else {
                text
            }
        }),
        final(conv)@ == (ConvView {
            clarify_turns: (old(conv).clarify_turns + 1) as u32,
            ..old(conv)@
        }),
{
    let mut text = match drafted {
        Some(t) => gate_generated_text(t, allowlist, fixed_question),
        None => fixed_question.to_owned(),
    };
    if is_final {
        text.append(suffix);
    }
    conv.clarify_turns = conv.clarify_turns + 1;
    text
}

/// The text that takes the message in before it goes to a person, for what was
/// drafted, and starts the wait for a time to call.
pub fn escalation_ack(
    drafted: Option<String>,
    allowlist: &ProductAllowlist,
    fixed_ack: &str,
    conv: &mut CaseConvState,
) -> (r: String)
    ensures
        r@ == match draft_in_scope(opt_text(drafted), texts(allowlist.models@)) {
            Some(t) => t,
            None => fixed_ack@,
        },
        final(conv)@ == armed(old(conv)@),
{
    arm_time_pref_solicitation(conv);
    match drafted {
        Some(t) => gate_generated_text(t, allowlist, fixed_ack),
        None => fixed_ack.to_owned(),
    }
}

/// No draft that speaks of a model of someone else is ever sent as an answer.
pub proof fn foreign_drafts_are_never_answers(
    outcome: EvaluationOutcome,
    draft: Seq<char>,
    models: Seq<Seq<char>>,
    clarify_turns: int,
    clarify_max_turns: int,
)
    requires
        foreign_models(draft, models).len() > 0,
    ensures
        !(reply_action(
            outcome,
            draft_in_scope(Some(draft), models),
            clarify_turns,
            clarify_max_turns,
        ) is Answer),
{
}

/// A message whose signals were read with the word list alone always goes to a
/// person.
pub proof fn uncertain_readings_are_escalated(
    outcome: EvaluationOutcome,
    draft: Option<Seq<char>>,
    clarify_turns: int,
    clarify_max_turns: int,
)
    requires
        outcome.lexicon_fallback,
    ensures
        reply_action(outcome, draft, clarify_turns, clarify_max_turns)
            == ReplyActionView::EscalationReply,
{
}

/// A customer is asked back only so often: at the limit every message that may
/// not be answered goes to a person.
pub proof fn asking_back_ends(
    outcome: EvaluationOutcome,
    draft: Option<Seq<char>>,
    clarify_turns: int,
    clarify_max_turns: int,
)
    requires
        clarify_turns >= clarify_max_turns,
    ensures
        reply_action(outcome, draft, clarify_turns, clarify_max_turns) != ReplyActionView::Clarify,
{
}

/// What an answer would need is told with both degrees: the one that is needed
/// first, and the one that there is behind it.
pub proof fn needs_are_told_with_both_degrees(required: String, best: String)
    ensures
        ({
            let text = requirement_text(
                EvidenceRequirement::DirectManualCoverage { required, best },
            );
            &&& contains(text, required@)
            &&& contains(text, best@)
            &&& exists|i: int, j: int|
                #![trigger text.skip(i), text.skip(j)]
                0 <= i <= j <= text.len() && required@.is_prefix_of(text.skip(i))
                    && best@.is_prefix_of(text.skip(j)) && i + required@.len() <= j
        }),
{
    let a = "マニュアルとの一致度が必要水準に届いていません（必要: "@;
    let b = " 以上、現在: "@;
    let c = "）"@;
    let text = requirement_text(EvidenceRequirement::DirectManualCoverage { required, best });
    let i = a.len() as int;
    let j = (a.len() + required@.len() + b.len()) as int;
    middle_is_contained(a, required@, b + best@ + c);
    assert(a + required@ + (b + best@ + c) =~= text);
    middle_is_contained(a + required@ + b, best@, c);
    assert(required@.is_prefix_of(text.skip(i)));
    assert(best@.is_prefix_of(text.skip(j)));
}

/// Every character that parts words in a text.
pub open spec fn all_part_words(s: Seq<char>) -> bool {
    forall|i: int| 0 <= i < s.len() ==> parts_words(#[trigger] s[i])
}

proof fn spaces_part_words()
    ensures
        parts_words(' '),
{
}

proof fn spaced_in_detail(s: Seq<char>)
    ensures
        spaced(s).len() > 0 ==> spaced(s)[0] != ' ',
        forall|i: int|
            0 <= i < spaced(s).len() ==> #[trigger] spaced(s)[i] == ' ' || !parts_words(
                spaced(s)[i],
            ),
        forall|i: int, j: int|
            0 <= i && j == i + 1 && j < spaced(s).len() && #[trigger] spaced(s)[i] == ' '
                ==> #[trigger] spaced(s)[j] != ' ',
        spaced(s).filter(|c: char| !parts_words(c)) =~= s.filter(|c: char| !parts_words(c)),
    decreases s.len(),
{
    reveal(Seq::filter);
    spaces_part_words();
    if s.len() > 0 {
        let rest = spaced(s.drop_last());
        spaced_in_detail(s.drop_last());
        assert(rest.push(' ').drop_last() =~= rest);
        assert(rest.push(s.last()).drop_last() =~= rest);
    }
}

/// A text in one line has no character that parts words but single spaces inside
/// it, and all the other characters of the text in their order.
pub proof fn one_line_keeps_every_word(s: Seq<char>)
    ensures
        ({
            let r = single_line(s);
            &&& r.len() > 0 ==> r[0] != ' ' && r.last() != ' '
            &&& forall|i: int|
                0 <= i < r.len() ==> #[trigger] r[i] == ' ' || !parts_words(r[i])
            &&& forall|i: int, j: int|
                0 <= i && j == i + 1 && j < r.len() && #[trigger] r[i] == ' ' ==> #[trigger] r[j]
                    != ' '
            &&& r.filter(|c: char| !parts_words(c)) =~= s.filter(|c: char| !parts_words(c))
        }),
{
    reveal(Seq::filter);
    spaces_part_words();
    spaced_in_detail(s);
    let q = spaced(s);
    let r = single_line(s);
    if q.len() > 0 && q.last() == ' ' {
        assert(q[q.len() - 1] == ' ');
        if r.len() > 0 {
            assert(r.last() == q[q.len() - 2]);
            assert(q[0] == r[0]);
        }
        assert forall|i: int, j: int|
            0 <= i && j == i + 1 && j < r.len() && #[trigger] r[i] == ' ' implies #[trigger] r[j]
            != ' ' by {
            assert(q[i] == ' ' && q[j] == r[j]);
        }
    }
}

proof fn spaced_from_a_word(x: Seq<char>, y: Seq<char>)
    requires
        y.len() > 0,
        !parts_words(y[0]),
    ensures
        spaced(x + y) =~= spaced(x) + spaced(y),
        spaced(y).len() > 0,
    decreases y.len(),
{
    assert((x + y).drop_last() =~= x + y.drop_last());
    if y.len() == 1 {
        assert(y.drop_last() =~= Seq::empty());
        assert(x + y.drop_last() =~= x);
        assert(spaced(y.drop_last()) =~= Seq::empty());
    } else {
        spaced_from_a_word(x, y.drop_last());
    }
}

proof fn spaced_past_separators(x: Seq<char>, seps: Seq<char>)
    requires
        all_part_words(seps),
    ensures
        seps.len() == 0 || spaced(x).len() == 0 || spaced(x).last() == ' ' ==> spaced(x + seps)
            =~= spaced(x),
        seps.len() > 0 && spaced(x).len() > 0 && spaced(x).last() != ' ' ==> spaced(x + seps)
            =~= spaced(x).push(' '),
    decreases seps.len(),
{
    if seps.len() == 0 {
        assert(x + seps =~= x);
    } else {
        assert((x + seps).drop_last() =~= x + seps.drop_last());
        assert(parts_words(seps[seps.len() - 1]));
        assert forall|i: int| 0 <= i < seps.drop_last().len() implies parts_words(
            #[trigger] seps.drop_last()[i],
        ) by {
            assert(seps[i] == seps.drop_last()[i]);
        }
        spaced_past_separators(x, seps.drop_last());
    }
}

/// Two texts with separators between them make one line with one space between
/// their lines; separators before and behind a text leave nothing; and a text
/// without separators stays as it is.
pub proof fn one_line_parts_words_by_one_space(a: Seq<char>, seps: Seq<char>, b: Seq<char>)
    requires
        a.len() > 0,
        b.len() > 0,
        !parts_words(a.last()),
        !parts_words(b[0]),
        all_part_words(seps),
    ensures
        seps.len() > 0 ==> single_line(a + seps + b) =~= single_line(a) + seq![' '] + single_line(b),
        single_line(a + seps) =~= single_line(a),
        single_line(seps + b) =~= single_line(b),
        (forall|i: int| 0 <= i < b.len() ==> !parts_words(#[trigger] b[i])) ==> single_line(b) =~= b,
{
    spaces_part_words();
    let e = Seq::<char>::empty();
    assert(spaced(a).last() == a.last());
    assert(a.last() != ' ');
    spaced_past_separators(a, seps);
    spaced_from_a_word(a + seps, b);
    assert(e + seps =~= seps);
    spaced_past_separators(e, seps);
    spaced_from_a_word(seps, b);
    assert(spaced(seps) =~= e);
    if forall|i: int| 0 <= i < b.len() ==> !parts_words(#[trigger] b[i]) {
        dark_text_stays(b);
        assert(!parts_words(b[b.len() - 1]));
    }
}

proof fn dark_text_stays(b: Seq<char>)
    requires
        forall|i: int| 0 <= i < b.len() ==> !parts_words(#[trigger] b[i]),
    ensures
        spaced(b) =~= b,
    decreases b.len(),
{
    if b.len() > 0 {
        assert forall|i: int| 0 <= i < b.drop_last().len() implies !parts_words(
            #[trigger] b.drop_last()[i],
        ) by {
            assert(b[i] == b.drop_last()[i]);
        }
        dark_text_stays(b.drop_last());
        assert(!parts_words(b[b.len() - 1]));
    }
}

/// What a customer said is noted by the beginning of its one line.
pub proof fn sayings_are_noted_by_their_beginning(text: Seq<char>)
    ensures
        single_line(text).len() <= 100 ==> fact_line(text) == single_line(text),
        single_line(text).len() > 100 ==> fact_line(text).len() == 101 && fact_line(text).take(100)
            =~= single_line(text).take(100),
{
}

/// What a customer said is noted turn by turn, and what the assistant said is not.
pub proof fn sayings_are_noted_turn_by_turn(
    a: Seq<ReplyHistoryTurn>,
    b: Seq<ReplyHistoryTurn>,
    turn: ReplyHistoryTurn,
)
    ensures
        customer_lines(a + b) =~= customer_lines(a) + customer_lines(b),
        turn.role == ReplyHistoryRole::Assistant ==> customer_lines(seq![turn]).len() == 0,
        turn.role == ReplyHistoryRole::Customer && single_line(turn.text@).len() > 0
            ==> customer_lines(seq![turn]) =~= seq![fact_line(turn.text@)],
        turn.role == ReplyHistoryRole::Customer && single_line(turn.text@).len() == 0
            ==> customer_lines(seq![turn]).len() == 0,
    decreases b.len(),
{
    let one = seq![turn];
    assert(one.drop_last() =~= Seq::empty());
    assert(one.last() == turn);
    assert(customer_lines(one.drop_last()) =~= Seq::empty());
    if b.len() == 0 {
        assert(a + b =~= a);
    } else {
        sayings_are_noted_turn_by_turn(a, b.drop_last(), turn);
        assert((a + b).drop_last() =~= a + b.drop_last());
    }
}

/// Of many lines the last ones are kept, as many as asked for, in their order.
pub proof fn the_last_lines_are_kept(lines: Seq<Seq<char>>, n: int, i: int)
    requires
        0 <= n,
    ensures
        last_lines(lines, n).len() == if lines.len() < n {
            lines.len() as int
        } else {
            n
        },
        0 <= i < last_lines(lines, n).len() ==> last_lines(lines, n)[last_lines(lines, n).len() - 1
            - i] == lines[lines.len() - 1 - i],
{
}

/// What is known is told line by line: the conditions in the first line where there
/// are any, each of them by its name, and behind it one line for each saying.
pub proof fn what_is_known_is_told(labels: Seq<Seq<char>>, said: Seq<Seq<char>>, i: int, k: int)
    ensures
        known_lines(labels, said).len() == said.len() + if labels.len() > 0 {
            1int
        } else {
            0
        },
        0 <= i < labels.len() ==> contains(known_lines(labels, said)[0], labels[i]),
        0 <= k < said.len() ==> {
            let line = known_lines(labels, said)[known_lines(labels, said).len() - said.len() + k];
            &&& contains(line, said[k])
            &&& line.skip(line.len() - said[k].len()) =~= said[k]
        },
{
    if 0 <= i < labels.len() {
        let list = join(labels, "、"@);
        joined_text_holds_each_part(labels, "、"@, i);
        contained_in_a_sum("- 把握済みの条件語: "@, list, Seq::empty(), labels[i]);
        assert("- 把握済みの条件語: "@ + list + Seq::empty() =~= known_lines(labels, said)[0]);
    }
    if 0 <= k < said.len() {
        let line = known_lines(labels, said)[known_lines(labels, said).len() - said.len() + k];
        assert(line =~= "- 顧客発話: "@ + said[k]);
        middle_is_contained("- 顧客発話: "@, said[k], Seq::empty());
        assert("- 顧客発話: "@ + said[k] + Seq::empty() =~= line);
    }
}

/// A draft passes as it is, just where it names no model of someone else.
pub proof fn drafts_pass_as_they_are(draft: Option<Seq<char>>, models: Seq<Seq<char>>)
    ensures
        draft_in_scope(draft, models) is Some ==> draft_in_scope(draft, models) == draft
            && foreign_models(draft->0, models).len() == 0,
        draft is Some && foreign_models(draft->0, models).len() == 0 ==> draft_in_scope(
            draft,
            models,
        ) == draft,
        draft_in_scope(None, models) is None,
{
}

/// A drafted answer is sent just where the message was read well, may be answered,
/// and has a draft that is not cut short; it is sent as it is. The customer is asked
/// back just where the message was read well, may not be answered, may be asked
/// about, and there are turns left for it. Anything else goes to a person.
pub proof fn each_action_has_its_outcomes(
    outcome: EvaluationOutcome,
    draft: Option<Seq<char>>,
    turns: int,
    max_turns: int,
    text: Seq<char>,
)
    ensures
        ({
            let r = reply_action(outcome, draft, turns, max_turns);
            &&& r == ReplyActionView::Answer(text) <==> !outcome.lexicon_fallback && outcome.allowed
                && !outcome.customer_reply_draft_truncated && draft == Some(text)
            &&& r == ReplyActionView::Clarify <==> !outcome.lexicon_fallback && !outcome.allowed
                && outcome.clarification_allowed && turns < max_turns
            &&& r == ReplyActionView::EscalationReply || r == ReplyActionView::Clarify || (draft
                is Some && r == ReplyActionView::Answer(draft->0))
        }),
{
}

/// Asking for a time starts the wait anew and leaves the time that was kept and the
/// count of failed searches.
pub proof fn asking_for_a_time_starts_the_wait(conv: ConvView)
    ensures
        armed(conv).awaiting_time_pref,
        armed(conv).time_pref_false_count == 0,
        armed(conv).clarify_turns == 0,
        armed(conv).preferred_contact_time == conv.preferred_contact_time,
        armed(conv).time_pref_extraction_error_count == conv.time_pref_extraction_error_count,
{
}

/// A search that was made clears the count of failed searches, and one that was not
/// adds to it until the wait ends. A time that was named is kept, with the
/// customer's own words first; otherwise what was kept stays. How often the customer
/// was asked back stays in any case.
pub proof fn searches_are_counted(
    found: Option<TimePrefExtraction>,
    conv: ConvView,
    cfg: BusinessHoursConfig,
    note: Seq<char>,
)
    ensures
        ({
            let after = after_search(found, conv, cfg, note);
            let named = found is Some && (found->0).is_time_preference;
            &&& after.clarify_turns == conv.clarify_turns
            &&& found is Some ==> after.time_pref_extraction_error_count == 0
            &&& found is None && conv.time_pref_extraction_error_count < 2
                ==> after.time_pref_extraction_error_count == conv.time_pref_extraction_error_count
                + 1 && after.awaiting_time_pref == conv.awaiting_time_pref
            &&& found is None && conv.time_pref_extraction_error_count >= 2
                ==> !after.awaiting_time_pref && after.time_pref_extraction_error_count == 0
            &&& named ==> after.preferred_contact_time is Some && (found->0).raw@.is_prefix_of(
                after.preferred_contact_time->0,
            ) && !after.awaiting_time_pref
            &&& !named ==> after.preferred_contact_time == conv.preferred_contact_time
            &&& found is Some && !named && conv.time_pref_false_count == 0
                ==> after.awaiting_time_pref == conv.awaiting_time_pref
                && after.time_pref_false_count == 1
            &&& found is Some && !named && conv.time_pref_false_count >= 1
                ==> !after.awaiting_time_pref
        }),
{
}

} // verus!
