//! The short replies that a customer can tap instead of typing.
use crate::draft_meta::{ClosingKind, DraftMeta, MetaView};
use crate::text::{among, chars_of, cut, is_control, take_next, texts, trim, trimmed};
use crate::understand::ConditionKey;
use vstd::prelude::*;

verus! {

/// How many short replies are offered at most.
pub const MAX_QUICK_REPLIES: usize = 4;

/// How many characters a label has at most.
pub const LABEL_MAX_CHARS: usize = 20;

/// How many characters a drafted reply may have to be offered.
pub const CHOICE_MAX_CHARS: usize = 100;

/// A short reply: what is shown, and what is sent when it is tapped.
#[derive(Debug, Clone, PartialEq, Eq)]
pub struct QuickReplyItem {
    pub label: String,
    pub message: String,
}

/// A short reply: what is shown, and what is sent when it is tapped.
#[verifier::ext_equal]
pub struct ItemView {
    pub label: Seq<char>,
    pub message: Seq<char>,
}

impl View for QuickReplyItem {
    type V = ItemView;

    open spec fn view(&self) -> ItemView {
        ItemView { label: self.label@, message: self.message@ }
    }
}

/// What short replies say.
pub open spec fn item_views(items: Seq<QuickReplyItem>) -> Seq<ItemView> {
    items.map_values(|i: QuickReplyItem| i@)
}

/// What optional short replies say.
pub open spec fn offered(items: Option<Vec<QuickReplyItem>>) -> Option<Seq<ItemView>> {
    match items {
        Some(v) => Some(item_views(v@)),
        None => None,
    }
}

/// `s` cut to the length of a label.
pub open spec fn label_of(s: Seq<char>) -> Seq<char> {
    if s.len() <= LABEL_MAX_CHARS {
        s
    } else {
        s.take(LABEL_MAX_CHARS as int)
    }
}

/// The short reply with the given label and message.
pub open spec fn item_of(label: Seq<char>, message: Seq<char>) -> ItemView {
    ItemView { label: label_of(label), message }
}

/// The text cut to the length of a label.
pub fn truncate_label(label: &str) -> (r: String)
    ensures
        r@ == label_of(label@),
{
    let v = chars_of(label);
    if v.len() <= LABEL_MAX_CHARS {
        label.to_owned()
    } else {
        let r = cut(&v, 0, LABEL_MAX_CHARS);
        assert(r@ =~= label@.take(LABEL_MAX_CHARS as int));
        r
    }
}

/// The short reply with the given label and message.
pub fn item(label: &str, message: &str) -> (r: QuickReplyItem)
    ensures
        r@ == item_of(label@, message@),
{
    QuickReplyItem { label: truncate_label(label), message: message.to_owned() }
}

/// The replies to the question what the customer worries about.
pub open spec fn concern_items() -> Seq<ItemView> {
    seq![
        item_of("侵入・空き巣が心配"@, "侵入や空き巣が心配です"@),
        item_of("留守中の見守り"@, "留守中の様子を見守りたいです"@),
        item_of("宅配便の盗難防止"@, "宅配便の盗難が心配です"@),
        item_of("ストーカー・不審者対策"@, "ストーカーや不審者が心配です"@),
        item_of("火災・災害対策"@, "火災や災害が心配です"@),
    ]
}

/// The replies to the question how the customer lives.
pub open spec fn housing_items() -> Seq<ItemView> {
    seq![
        item_of("一戸建て(持ち家)"@, "持ち家の一戸建てです"@),
        item_of("一戸建て(賃貸)"@, "賃貸の一戸建てです"@),
        item_of("マンション・アパート(持ち家)"@, "持ち家のマンション・アパートです"@),
        item_of("マンション・アパート(賃貸)"@, "賃貸のマンション・アパートです"@),
    ]
}

/// The replies to the question when to call.
pub open spec fn time_pref_items() -> Seq<ItemView> {
    seq![
        item_of("平日10-12時"@, "平日10時から12時にお願いします"@),
        item_of("平日13-15時"@, "平日13時から15時にお願いします"@),
        item_of("平日16-18時"@, "平日16時から18時にお願いします"@),
    ]
}

/// The replies to the question what the customer worries about.
pub fn concern_vocabulary() -> (r: Vec<QuickReplyItem>)
    ensures
        item_views(r@) == concern_items(),
{
    let mut r: Vec<QuickReplyItem> = Vec::new();
    r.push(item("侵入・空き巣が心配", "侵入や空き巣が心配です"));
    r.push(item("留守中の見守り", "留守中の様子を見守りたいです"));
    r.push(item("宅配便の盗難防止", "宅配便の盗難が心配です"));
    r.push(item("ストーカー・不審者対策", "ストーカーや不審者が心配です"));
    r.push(item("火災・災害対策", "火災や災害が心配です"));
    assert(item_views(r@) =~= concern_items());
    r
}

/// The replies to the question how the customer lives.
pub fn housing_vocabulary() -> (r: Vec<QuickReplyItem>)
    ensures
        item_views(r@) == housing_items(),
{
    let mut r: Vec<QuickReplyItem> = Vec::new();
    r.push(item("一戸建て(持ち家)", "持ち家の一戸建てです"));
    r.push(item("一戸建て(賃貸)", "賃貸の一戸建てです"));
    r.push(item("マンション・アパート(持ち家)", "持ち家のマンション・アパートです"));
    r.push(item("マンション・アパート(賃貸)", "賃貸のマンション・アパートです"));
    assert(item_views(r@) =~= housing_items());
    r
}

/// The replies to the question when to call.
pub fn time_pref_vocabulary() -> (r: Vec<QuickReplyItem>)
    ensures
        item_views(r@) == time_pref_items(),
{
    let mut r: Vec<QuickReplyItem> = Vec::new();
    r.push(item("平日10-12時", "平日10時から12時にお願いします"));
    r.push(item("平日13-15時", "平日13時から15時にお願いします"));
    r.push(item("平日16-18時", "平日16時から18時にお願いします"));
    assert(item_views(r@) =~= time_pref_items());
    r
}

/// The first short replies, as many as are offered at most.
pub open spec fn capped(items: Seq<ItemView>) -> Seq<ItemView> {
    if items.len() <= MAX_QUICK_REPLIES {
        items
    } else {
        items.take(MAX_QUICK_REPLIES as int)
    }
}

/// The first short replies, as many as are offered at most.
pub fn cap(items: Vec<QuickReplyItem>) -> (r: Vec<QuickReplyItem>)
    ensures
        item_views(r@) == capped(item_views(items@)),
{
    let ghost all = item_views(items@);
    let mut r = items;
    if r.len() > MAX_QUICK_REPLIES {
        r.truncate(MAX_QUICK_REPLIES);
        assert(item_views(r@) =~= all.take(MAX_QUICK_REPLIES as int));
    }
    r
}

/// The short replies to the question for the first missing condition.
pub open spec fn clarify_items(missing: Seq<ConditionKey>) -> Option<Seq<ItemView>> {
    if missing.len() > 0 && missing[0] == ConditionKey::Concern {
        Some(capped(concern_items()))
    } else if missing.len() > 0 && missing[0] == ConditionKey::Housing {
        Some(capped(housing_items()))
    } else {
        None
    }
}

/// The short replies to the question for the first missing condition.
pub fn for_clarify(missing: &[ConditionKey]) -> (r: Option<Vec<QuickReplyItem>>)
    ensures
        offered(r) == clarify_items(missing@),
{
    if missing.len() == 0 {
        return None;
    }
    match missing[0] {
        ConditionKey::Concern => Some(cap(concern_vocabulary())),
        ConditionKey::Housing => Some(cap(housing_vocabulary())),
        _ => None,
    }
}

/// The short replies to the question when to call.
pub fn for_time_pref() -> (r: Option<Vec<QuickReplyItem>>)
    ensures
        offered(r) == Some(capped(time_pref_items())),
{
    Some(cap(time_pref_vocabulary()))
}

/// A drafted reply may be offered: it is not empty, not too long, and has no
/// control character.
pub open spec fn valid_choice(choice: Seq<char>) -> bool {
    &&& 0 < choice.len() <= CHOICE_MAX_CHARS
    &&& forall|i: int| 0 <= i < choice.len() ==> !is_control(#[trigger] choice[i])
}

fn control(c: char) -> (r: bool)
    ensures
        r == is_control(c),
{
    let n: u32 = c as u32;
    n <= 0x1f || (0x7f <= n && n <= 0x9f)
}

/// Whether a drafted reply may be offered.
pub fn is_valid_answer_choice(choice: &str) -> (r: bool)
    ensures
        r == valid_choice(choice@),
{
    let v = chars_of(choice);
    if v.len() == 0 || v.len() > CHOICE_MAX_CHARS {
        return false;
    }
    let mut i: usize = 0;
    while i < v.len()
        invariant
            v@ == choice@,
            i <= v.len(),
            forall|j: int| 0 <= j < i ==> !is_control(#[trigger] v@[j]),
        decreases v.len() - i,
    {
        if control(v[i]) {
            return false;
        }
        i = i + 1;
    }
    true
}

/// The drafted replies that may be offered: trimmed, each once, in their order.
pub open spec fn valid_choices(choices: Seq<Seq<char>>) -> Seq<Seq<char>>
    decreases choices.len(),
{
    if choices.len() == 0 {
        Seq::empty()
    } else {
        let rest = valid_choices(choices.drop_last());
        let choice = trim(choices.last());
        if valid_choice(choice) && !rest.contains(choice) {
            rest.push(choice)
        } else {
            rest
        }
    }
}

/// The short replies that go with an answer: those drafted, where the answer
/// ends in a question with choices.
pub open spec fn answer_items(meta: Option<MetaView>) -> Option<Seq<ItemView>> {
    match meta {
        Some(m) => {
            let choices = valid_choices(m.choices);
            if m.closing == ClosingKind::QuestionChoice && choices.len() > 0 {
                Some(capped(choices.map_values(|c: Seq<char>| item_of(c, c))))
            } else {
                None
            }
        },
        None => None,
    }
}

fn keep_choices(choices: &[String]) -> (r: Vec<String>)
    ensures
        texts(r@) == valid_choices(texts(choices@)),
{
    let ghost all = texts(choices@);
    let mut r: Vec<String> = Vec::new();
    let mut i: usize = 0;
    assert(texts(r@) =~= valid_choices(all.take(0)));
    while i < choices.len()
        invariant
            i <= choices.len(),
            all == texts(choices@),
            texts(r@) == valid_choices(all.take(i as int)),
        decreases choices.len() - i,
    {
        proof {
            take_next(all, i as int);
        }
        let choice = trimmed(choices[i].as_str());
        if is_valid_answer_choice(choice.as_str()) && !among(r.as_slice(), choice.as_str()) {
            let ghost r0 = r@;
            let ghost t0 = choice@;
            r.push(choice);
            assert(texts(r@) =~= texts(r0).push(t0));
        }
        i = i + 1;
    }
    assert(all.take(all.len() as int) =~= all);
    r
}

/// What an optional note says.
pub open spec fn note_view(meta: Option<&DraftMeta>) -> Option<MetaView> {
    match meta {
        Some(m) => Some(m@),
        None => None,
    }
}

/// The short replies that go with an answer: those drafted, where the answer
/// ends in a question with choices.
pub fn for_answer(meta: Option<&DraftMeta>) -> (r: Option<Vec<QuickReplyItem>>)
    ensures
        offered(r) == answer_items(note_view(meta)),
{
    let m = match meta {
        Some(m) => m,
        None => return None,
    };
    if m.closing != ClosingKind::QuestionChoice {
        return None;
    }
    let choices = keep_choices(m.choices.as_slice());
    if choices.len() == 0 {
        return None;
    }
    let ghost all = texts(choices@).map_values(|c: Seq<char>| item_of(c, c));
    let mut items: Vec<QuickReplyItem> = Vec::new();
    let mut i: usize = 0;
    while i < choices.len()
        invariant
            i <= choices.len(),
            all == texts(choices@).map_values(|c: Seq<char>| item_of(c, c)),
            item_views(items@) =~= all.take(i as int),
        decreases choices.len() - i,
    {
        let ghost i0 = items@;
        let one = item(choices[i].as_str(), choices[i].as_str());
        let ghost v0 = one@;
        items.push(one);
        proof {
            take_next(all, i as int);
            assert(texts(choices@)[i as int] == choices@[i as int]@);
            assert(item_views(items@) =~= item_views(i0).push(v0));
        }
        i = i + 1;
    }
    assert(all.take(all.len() as int) =~= all);
    Some(cap(items))
}

proof fn valid_choices_are_valid(choices: Seq<Seq<char>>)
    ensures
        forall|i: int|
            0 <= i < valid_choices(choices).len() ==> valid_choice(
                #[trigger] valid_choices(choices)[i],
            ),
        valid_choices(choices).no_duplicates(),
    decreases choices.len(),
{
    if choices.len() > 0 {
        valid_choices_are_valid(choices.drop_last());
    }
}

/// What goes with an answer can be offered whatever was drafted: a few replies,
/// no two of them the same, each with a short label, and each with a message
/// that is not empty, not too long, and free of control characters.
pub proof fn drafted_replies_are_fit_to_offer(meta: Option<MetaView>)
    requires
        answer_items(meta) is Some,
    ensures
        ({
            let items = answer_items(meta)->0;
            &&& 0 < items.len() <= MAX_QUICK_REPLIES
            &&& forall|i: int|
                0 <= i < items.len() ==> valid_choice((#[trigger] items[i]).message)
                    && items[i].label.len() <= LABEL_MAX_CHARS
            &&& forall|i: int, j: int|
                0 <= i < j < items.len() ==> (#[trigger] items[i]).message != (
                #[trigger] items[j]).message
        }),
{
    valid_choices_are_valid((meta->0).choices);
}

/// A label is the beginning of what it stands for, all of it where it is short
/// enough; of the replies to choose from the first ones are offered.
pub proof fn labels_and_offers_are_beginnings(s: Seq<char>, items: Seq<ItemView>)
    ensures
        label_of(s).is_prefix_of(s),
        s.len() <= 20 ==> label_of(s) == s,
        s.len() > 20 ==> label_of(s).len() == 20,
        capped(items).is_prefix_of(items),
        items.len() <= 4 ==> capped(items) == items,
        items.len() > 4 ==> capped(items).len() == 4,
{
}

/// The replies that can be offered are just the choices, without white space
/// around them, that are not empty, not too long and without control characters.
pub proof fn every_valid_choice_is_kept(choices: Seq<Seq<char>>, choice: Seq<char>)
    ensures
        valid_choices(choices).contains(choice) <==> {
            &&& 0 < choice.len() <= 100
            &&& forall|i: int| 0 <= i < choice.len() ==> !is_control(#[trigger] choice[i])
            &&& exists|i: int| 0 <= i < choices.len() && trim(#[trigger] choices[i]) == choice
        },
    decreases choices.len(),
{
    if choices.len() > 0 {
        let head = choices.drop_last();
        let rest = valid_choices(head);
        let all = valid_choices(choices);
        every_valid_choice_is_kept(head, choice);
        if all.contains(choice) {
            let k = choose|k: int| 0 <= k < all.len() && all[k] == choice;
            if k < rest.len() {
                assert(rest[k] == choice);
                let i = choose|i: int| 0 <= i < head.len() && trim(#[trigger] head[i]) == choice;
                assert(trim(choices[i]) == choice);
            } else {
                assert(trim(choices[choices.len() - 1]) == choice);
            }
        }
        if valid_choice(choice) && exists|i: int|
            0 <= i < choices.len() && trim(#[trigger] choices[i]) == choice {
            let i = choose|i: int| 0 <= i < choices.len() && trim(#[trigger] choices[i]) == choice;
            if i < head.len() {
                assert(trim(head[i]) == choice);
            }
            if rest.contains(choice) {
                let k = choose|k: int| 0 <= k < rest.len() && rest[k] == choice;
                assert(all[k] == choice);
            } else {
                assert(all[rest.len() as int] == choice);
            }
        }
    }
}

/// Choices keep their order: those of the first choices come before those that the
/// rest adds.
pub proof fn choices_keep_their_order(a: Seq<Seq<char>>, b: Seq<Seq<char>>)
    ensures
        valid_choices(a).is_prefix_of(valid_choices(a + b)),
    decreases b.len(),
{
    if b.len() == 0 {
        assert(a + b =~= a);
    } else {
        choices_keep_their_order(a, b.drop_last());
        assert((a + b).drop_last() =~= a + b.drop_last());
    }
}

/// Replies are offered just where an answer ends in a question with choices and
/// one of them can be offered. Each then sends its choice as it is, and shows the
/// beginning of it.
pub proof fn replies_say_their_choice(m: MetaView, i: int, k: int)
    requires
        0 <= i < m.choices.len(),
        valid_choice(trim(m.choices[i])),
        m.closing == ClosingKind::QuestionChoice,
    ensures
        answer_items(Some(m)) is Some,
        0 <= k < valid_choices(m.choices).len() && k < 4 ==> {
            let items = answer_items(Some(m))->0;
            &&& k < items.len()
            &&& items[k].message == valid_choices(m.choices)[k]
            &&& items[k].label.is_prefix_of(items[k].message)
            &&& items[k].message.len() <= 20 ==> items[k].label == items[k].message
        },
{
    every_valid_choice_is_kept(m.choices, trim(m.choices[i]));
    let all = valid_choices(m.choices);
    let j = choose|j: int| 0 <= j < all.len() && all[j] == trim(m.choices[i]);
    assert(all.len() > 0);
}

/// Without a note, with another ending, and without a choice that can be offered,
/// nothing is offered.
pub proof fn other_answers_offer_nothing(m: MetaView)
    ensures
        answer_items(None) is None,
        m.closing != ClosingKind::QuestionChoice ==> answer_items(Some(m)) is None,
        (forall|i: int| 0 <= i < m.choices.len() ==> !valid_choice(trim(#[trigger] m.choices[i])))
            ==> answer_items(Some(m)) is None,
{
    if forall|i: int| 0 <= i < m.choices.len() ==> !valid_choice(trim(#[trigger] m.choices[i])) {
        let all = valid_choices(m.choices);
        if all.len() > 0 {
            assert(all.contains(all[0]));
            every_valid_choice_is_kept(m.choices, all[0]);
            let i = choose|i: int|
                0 <= i < m.choices.len() && trim(#[trigger] m.choices[i]) == all[0];
            assert(valid_choice(trim(m.choices[i])));
        }
    }
}

/// What is offered when asking back goes by the first condition that is missing
/// alone: there are replies for the worry and for the home, four each and all of
/// them different, and none for any other.
pub proof fn asking_back_offers_by_the_first_missing(missing: Seq<ConditionKey>)
    ensures
        clarify_items(Seq::empty()) is None,
        missing.len() > 0 ==> clarify_items(missing) == clarify_items(missing.take(1)),
        missing.len() > 0 ==> (clarify_items(missing) is Some <==> missing[0]
            == ConditionKey::Concern || missing[0] == ConditionKey::Housing),
        clarify_items(missing) is Some ==> (clarify_items(missing)->0).len() == 4,
        missing.len() > 0 && missing[0] == ConditionKey::Concern ==> clarify_items(missing)->0
            =~= concern_items().take(4),
        missing.len() > 0 && missing[0] == ConditionKey::Housing ==> clarify_items(missing)->0
            =~= housing_items(),
{
}

} // verus!
