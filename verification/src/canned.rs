//! The fixed texts.
use crate::hours::{business_hours_label, hours_label, BusinessHoursConfig};
use crate::text::{contains, middle_is_contained};
use vstd::prelude::*;

verus! {

/// What is said where someone may be in danger.
pub const SAFETY_TEXT: &'static str = "まず安全を最優先してください。少しでも危険を感じたら、ためらわず 110 番に電話してください。緊急でない場合は警察相談専用電話 #9110 でも相談できます。ドアと窓の施錠を確認して、無理に外へ出たり声をかけたりしないでください。";

/// What is said where the message is not about home security.
pub const OUT_OF_DOMAIN_TEXT: &'static str = "ごめんなさい、私はホームセキュリティ専門のアドバイザーなので、その内容にはお答えできないんです。住まいの防犯、ご家族の見守り、火災などの防災まわりなら、なんでも相談してください。";

/// What is said where no text could be drafted, or none that may be sent.
pub const FALLBACK_TEXT: &'static str = "うまく答えを整理できませんでした。もう一度、状況を教えてもらえますか?";

/// Asks for a time to call, naming the business hours.
pub open spec fn solicit_text(hours: Seq<char>) -> Seq<char> {
    "ありがとうございます、では担当者から連絡しますね。ご都合のいい時間帯はありますか?ご連絡できるのは"@
        + hours + "です。"@
}

/// Asks once more for a time to call, naming the business hours.
pub open spec fn reask_text(hours: Seq<char>) -> Seq<char> {
    "ごめんなさい、ご連絡できるのが"@ + hours
        + "の間なんです。この中でしたら、いつがご都合いいですか?"@
}

/// Confirms a time to call.
pub open spec fn confirmed_text(slot: Seq<char>) -> Seq<char> {
    slot
        + "ですね、担当者からご連絡します。それまでに気になることが出てきたら、いつでもここで聞いてくださいね。"@
}

/// Asks for a time to call, naming the business hours.
pub fn lead_solicit(cfg: &BusinessHoursConfig) -> (r: String)
    ensures
        r@ == solicit_text(hours_label(*cfg)),
{
    let mut r =
        "ありがとうございます、では担当者から連絡しますね。ご都合のいい時間帯はありますか?ご連絡できるのは".to_owned();
    r.append(business_hours_label(cfg).as_str());
    r.append("です。");
    r
}

/// Asks once more for a time to call, naming the business hours.
pub fn lead_time_pref_reask(cfg: &BusinessHoursConfig) -> (r: String)
    ensures
        r@ == reask_text(hours_label(*cfg)),
{
    let mut r = "ごめんなさい、ご連絡できるのが".to_owned();
    r.append(business_hours_label(cfg).as_str());
    r.append("の間なんです。この中でしたら、いつがご都合いいですか?");
    r
}

/// Confirms a time to call. The slot is one that was put together from checked
/// times, never the customer's own words.
pub fn lead_confirmed(slot: &str) -> (r: String)
    ensures
        r@ == confirmed_text(slot@),
{
    let mut r = slot.to_owned();
    r.append(
        "ですね、担当者からご連絡します。それまでに気になることが出てきたら、いつでもここで聞いてくださいね。",
    );
    r
}

/// The texts that name the business hours hold them, and the text that fixes a
/// slot starts with it; texts for other hours and other slots are other texts.
pub proof fn texts_name_hours_and_slots(hours: Seq<char>, other: Seq<char>)
    ensures
        contains(solicit_text(hours), hours),
        contains(reask_text(hours), hours),
        hours.is_prefix_of(confirmed_text(hours)),
        hours.len() == other.len() && hours != other ==> solicit_text(hours) != solicit_text(other)
            && reask_text(hours) != reask_text(other) && confirmed_text(hours) != confirmed_text(
            other,
        ),
{
    let a = "ありがとうございます、では担当者から連絡しますね。ご都合のいい時間帯はありますか?ご連絡できるのは"@;
    let b = "です。"@;
    let c = "ごめんなさい、ご連絡できるのが"@;
    let d = "の間なんです。この中でしたら、いつがご都合いいですか?"@;
    middle_is_contained(a, hours, b);
    middle_is_contained(c, hours, d);
    let n = hours.len() as int;
    if hours.len() == other.len() {
        assert(solicit_text(hours).subrange(a.len() as int, a.len() + n) =~= hours);
        assert(solicit_text(other).subrange(a.len() as int, a.len() + n) =~= other);
        assert(reask_text(hours).subrange(c.len() as int, c.len() + n) =~= hours);
        assert(reask_text(other).subrange(c.len() as int, c.len() + n) =~= other);
        assert(confirmed_text(hours).take(n) =~= hours);
        assert(confirmed_text(other).take(n) =~= other);
    }
}

} // verus!
