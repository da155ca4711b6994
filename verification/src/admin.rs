//! The conversations as they are shown to the people who run the advisor.
use crate::attrs::{text_or_empty, AttrMap};
use crate::cursor::{cursor_for, cursors_read_back, decode_cursor, encode_cursor, offset_for};
use crate::text::{
    among, before, before_chains, before_is_one_way, decimal, decimal_reads_back, decimal_text, digit,
    is_digit, neither_before_is_same, not_before_chains, parse_u32, precedes, same, shortened, take_next, texts, truncate_chars,
    unsigned_value,
};
use crate::urls::opt_text;
use vstd::prelude::*;

verus! {

/// How many conversations a page has where nothing else is asked for.
pub const THREADS_DEFAULT_LIMIT: usize = 20;

/// How many turns are fetched at once.
pub const THREADS_FETCH_PAGE_SIZE: i32 = 200;

/// How often turns are fetched for one page.
pub const MAX_INTERNAL_FETCH_ROUNDS: usize = 10;

/// How many days are looked at where nothing else is asked for.
pub const STATS_DEFAULT_DAYS: u32 = 7;

/// How many days can be looked at.
pub const STATS_MAX_DAYS: u32 = 3650;

/// How much of a question is shown in a list.
pub const PREVIEW_CHARS: usize = 80;

/// One turn of a conversation.
#[derive(Debug, Clone, PartialEq, Eq)]
pub struct TurnRow {
    pub case_id: String,
    pub turn_id: String,
    pub seq: u32,
    pub created_at: String,
    pub question: String,
    pub reply_text: String,
    pub reply_kind: String,
    pub audit_event_id: String,
    pub end_user_id: Option<String>,
}

/// What one turn of a conversation says.
#[verifier::ext_equal]
pub struct RowView {
    pub case_id: Seq<char>,
    pub turn_id: Seq<char>,
    pub seq: u32,
    pub created_at: Seq<char>,
    pub question: Seq<char>,
    pub reply_text: Seq<char>,
    pub reply_kind: Seq<char>,
    pub audit_event_id: Seq<char>,
    pub end_user_id: Option<Seq<char>>,
}

impl View for TurnRow {
    type V = RowView;

    open spec fn view(&self) -> RowView {
        RowView {
            case_id: self.case_id@,
            turn_id: self.turn_id@,
            seq: self.seq,
            created_at: self.created_at@,
            question: self.question@,
            reply_text: self.reply_text@,
            reply_kind: self.reply_kind@,
            audit_event_id: self.audit_event_id@,
            end_user_id: opt_text(self.end_user_id),
        }
    }
}

/// What turns say.
pub open spec fn row_views(rows: Seq<TurnRow>) -> Seq<RowView> {
    rows.map_values(|r: TurnRow| r@)
}

/// The turn that attributes describe. The case, the turn and the time have to
/// be there; a number that cannot be read is zero, and an empty user is none.
pub open spec fn row_of(attrs: Map<Seq<char>, Seq<char>>) -> Option<RowView> {
    if attrs.contains_key("case_id"@) && attrs.contains_key("turn_id"@) && attrs.contains_key(
        "created_at"@,
    ) {
        Some(
            (RowView {
                case_id: attrs["case_id"@],
                turn_id: attrs["turn_id"@],
                seq: match unsigned_value(text_or_empty(attrs, "seq"@)) {
                    Some(n) => if n <= u32::MAX {
                        n as u32
                    } else {
                        0
                    },
                    None => 0,
                },
                created_at: attrs["created_at"@],
                question: text_or_empty(attrs, "question"@),
                reply_text: text_or_empty(attrs, "reply_text"@),
                reply_kind: text_or_empty(attrs, "reply_kind"@),
                audit_event_id: text_or_empty(attrs, "audit_event_id"@),
                end_user_id: if text_or_empty(attrs, "end_user_id"@).len() > 0 {
                    Some(attrs["end_user_id"@])
                } else {
                    None
                },
            }),
        )
    } else {
        None
    }
}

fn text_at(attrs: &AttrMap, name: &str) -> (r: String)
    ensures
        r@ == text_or_empty(attrs@, name@),
{
    match attrs.get(name) {
        Some(v) => v.to_owned(),
        None => String::new(),
    }
}

impl TurnRow {
    /// The turn that the attributes of a node describe.
    pub fn from_attrs(attrs: &AttrMap) -> (r: Option<TurnRow>)
        ensures
            match r {
                Some(row) => row_of(attrs@) == Some(row@),
                None => row_of(attrs@) is None,
            },
    {
        let case_id = match attrs.get("case_id") {
            Some(v) => v.to_owned(),
            None => return None,
        };
        let turn_id = match attrs.get("turn_id") {
            Some(v) => v.to_owned(),
            None => return None,
        };
        let created_at = match attrs.get("created_at") {
            Some(v) => v.to_owned(),
            None => return None,
        };
        let number = text_at(attrs, "seq");
        let seq: u32 = match parse_u32(number.as_str()) {
            Some(n) => n,
            None => 0,
        };
        let user = text_at(attrs, "end_user_id");
        Some(
            TurnRow {
                case_id,
                turn_id,
                seq,
                created_at,
                question: text_at(attrs, "question"),
                reply_text: text_at(attrs, "reply_text"),
                reply_kind: text_at(attrs, "reply_kind"),
                audit_event_id: text_at(attrs, "audit_event_id"),
                end_user_id: if user.as_str().is_empty() {
                    None
                } else {
                    Some(user)
                },
            },
        )
    }

    /// A copy of this turn.
    pub fn copied(&self) -> (r: TurnRow)
        ensures
            r == *self,
    {
        TurnRow {
            case_id: self.case_id.clone(),
            turn_id: self.turn_id.clone(),
            seq: self.seq,
            created_at: self.created_at.clone(),
            question: self.question.clone(),
            reply_text: self.reply_text.clone(),
            reply_kind: self.reply_kind.clone(),
            audit_event_id: self.audit_event_id.clone(),
            end_user_id: match &self.end_user_id {
                Some(id) => Some(id.clone()),
                None => None,
            },
        }
    }
}

/// The turns that nodes describe, in their order; a node that describes none is
/// left out.
pub open spec fn described(nodes: Seq<Option<RowView>>) -> Seq<RowView>
    decreases nodes.len(),
{
    if nodes.len() == 0 {
        Seq::empty()
    } else {
        match nodes.last() {
            Some(row) => described(nodes.drop_last()).push(row),
            None => described(nodes.drop_last()),
        }
    }
}

/// What the attributes of each node describe, if they describe a turn.
pub open spec fn nodes_of(list: Seq<AttrMap>) -> Seq<Option<RowView>> {
    list.map_values(|attrs: AttrMap| row_of(attrs@))
}

/// The turns that lists of attributes describe; what describes none is left out.
pub open spec fn rows_of(list: Seq<AttrMap>) -> Seq<RowView> {
    described(nodes_of(list))
}

/// The turns that the attributes of nodes describe, in their order.
pub fn rows_from_attrs(list: &[AttrMap]) -> (r: Vec<TurnRow>)
    ensures
        row_views(r@) == rows_of(list@),
{
    let mut r: Vec<TurnRow> = Vec::new();
    let mut i: usize = 0;
    assert(row_views(r@) =~= rows_of(list@.take(0)));
    while i < list.len()
        invariant
            i <= list.len(),
            row_views(r@) == rows_of(list@.take(i as int)),
        decreases list.len() - i,
    {
        proof {
            let next = nodes_of(list@.take(i + 1));
            assert(next.drop_last() =~= nodes_of(list@.take(i as int)));
            assert(next.last() == row_of(list@[i as int]@));
        }
        if let Some(row) = TurnRow::from_attrs(&list[i]) {
            let ghost r0 = r@;
            let ghost v0 = row@;
            r.push(row);
            assert(row_views(r@) =~= row_views(r0).push(v0));
        }
        i = i + 1;
    }
    assert(list@.take(list@.len() as int) =~= list@);
    r
}

/// Where the turns of a case start.
pub open spec fn first_index(rows: Seq<RowView>, case_id: Seq<char>) -> Option<int>
    decreases rows.len(),
{
    if rows.len() == 0 {
        None
    } else {
        match first_index(rows.drop_last(), case_id) {
            Some(i) => Some(i),
            None => if rows.last().case_id == case_id {
                Some(rows.len() - 1)
            } else {
                None
            },
        }
    }
}

/// The cases of the turns, in the order in which they start.
pub open spec fn cases_of(rows: Seq<RowView>) -> Seq<Seq<char>>
    decreases rows.len(),
{
    if rows.len() == 0 {
        Seq::empty()
    } else {
        let rest = cases_of(rows.drop_last());
        if first_index(rows.drop_last(), rows.last().case_id) is Some {
            rest
        } else {
            rest.push(rows.last().case_id)
        }
    }
}

/// Where the turns of each case start.
pub struct CaseOrder {
    pub starts: Vec<(String, usize)>,
}

impl CaseOrder {
    /// Each entry is a case with its start, and all cases are there in order.
    pub open spec fn of(&self, rows: Seq<RowView>) -> bool {
        &&& self.starts@.len() == cases_of(rows).len()
        &&& forall|k: int|
            0 <= k < self.starts@.len() ==> {
                &&& (#[trigger] self.starts@[k]).0@ == cases_of(rows)[k]
                &&& first_index(rows, self.starts@[k].0@) == Some(self.starts@[k].1 as int)
            }
    }

    /// Where the turns of the case start.
    pub fn get(&self, case_id: &str) -> (r: Option<usize>)
        ensures
            r == start_in(self.starts@, case_id@),
    {
        let mut k: usize = 0;
        assert(self.starts@.take(0) =~= Seq::empty());
        while k < self.starts.len()
            invariant
                k <= self.starts.len(),
                start_in(self.starts@.take(k as int), case_id@) is None,
            decreases self.starts.len() - k,
        {
            proof {
                take_next(self.starts@, k as int);
            }
            if same(self.starts[k].0.as_str(), case_id) {
                proof {
                    start_stays(self.starts@, k + 1, case_id@);
                }
                return Some(self.starts[k].1);
            }
            k = k + 1;
        }
        assert(self.starts@.take(self.starts@.len() as int) =~= self.starts@);
        None
    }
}

/// The start that the first entry for the case has.
pub open spec fn start_in(starts: Seq<(String, usize)>, case_id: Seq<char>) -> Option<usize>
    decreases starts.len(),
{
    if starts.len() == 0 {
        None
    } else {
        match start_in(starts.drop_last(), case_id) {
            Some(i) => Some(i),
            None => if starts.last().0@ == case_id {
                Some(starts.last().1)
            } else {
                None
            },
        }
    }
}

proof fn start_stays(starts: Seq<(String, usize)>, k: int, case_id: Seq<char>)
    requires
        0 <= k <= starts.len(),
        start_in(starts.take(k), case_id) is Some,
    ensures
        start_in(starts, case_id) == start_in(starts.take(k), case_id),
    decreases starts.len() - k,
{
    if k < starts.len() {
        take_next(starts, k);
        start_stays(starts, k + 1, case_id);
    } else {
        assert(starts.take(k) =~= starts);
    }
}

proof fn start_is_an_entry(starts: Seq<(String, usize)>, case_id: Seq<char>)
    ensures
        match start_in(starts, case_id) {
            Some(i) => exists|k: int|
                0 <= k < starts.len() && (#[trigger] starts[k]).0@ == case_id && starts[k].1 == i,
            None => forall|k: int| 0 <= k < starts.len() ==> (#[trigger] starts[k]).0@ != case_id,
        },
    decreases starts.len(),
{
    if starts.len() > 0 {
        let head = starts.drop_last();
        start_is_an_entry(head, case_id);
        assert forall|k: int| 0 <= k < head.len() implies head[k] == #[trigger] starts[k] by {}
        match start_in(head, case_id) {
            Some(i) => {
                let k = choose|k: int|
                    0 <= k < head.len() && (#[trigger] head[k]).0@ == case_id && head[k].1 == i;
                assert(starts[k].0@ == case_id);
            },
            None => {
                if starts.last().0@ == case_id {
                    assert(starts[starts.len() - 1].0@ == case_id);
                } else {
                    assert forall|k: int| 0 <= k < starts.len() implies (#[trigger] starts[k]).0@ != case_id by {
                        if k < head.len() {
                            assert(head[k].0@ != case_id);
                        }
                    }
                }
            },
        }
    }
}

/// The order of the cases tells where the turns of a case start.
pub proof fn order_tells_starts(order: CaseOrder, rows: Seq<RowView>, case_id: Seq<char>)
    requires
        order.of(rows),
    ensures
        match start_in(order.starts@, case_id) {
            Some(i) => first_index(rows, case_id) == Some(i as int),
            None => first_index(rows, case_id) is None,
        },
{
    start_is_an_entry(order.starts@, case_id);
    cases_are_those_that_start(rows, case_id);
    if start_in(order.starts@, case_id) is None && cases_of(rows).contains(case_id) {
        let k = choose|k: int| 0 <= k < cases_of(rows).len() && cases_of(rows)[k] == case_id;
        assert(order.starts@[k].0@ == case_id);
    }
}

proof fn first_index_fits(rows: Seq<RowView>, case_id: Seq<char>)
    ensures
        match first_index(rows, case_id) {
            Some(i) => {
                &&& 0 <= i < rows.len()
                &&& rows[i].case_id == case_id
                &&& forall|j: int| 0 <= j < i ==> (#[trigger] rows[j]).case_id != case_id
            },
            None => forall|j: int| 0 <= j < rows.len() ==> (#[trigger] rows[j]).case_id != case_id,
        },
    decreases rows.len(),
{
    if rows.len() > 0 {
        let head = rows.drop_last();
        first_index_fits(head, case_id);
        assert forall|j: int| 0 <= j < head.len() implies head[j] == #[trigger] rows[j] by {}
    }
}

proof fn cases_are_those_that_start(rows: Seq<RowView>, case_id: Seq<char>)
    ensures
        cases_of(rows).contains(case_id) <==> first_index(rows, case_id) is Some,
    decreases rows.len(),
{
    if rows.len() > 0 {
        let head = rows.drop_last();
        let rest = cases_of(head);
        cases_are_those_that_start(head, case_id);
        cases_are_those_that_start(head, rows.last().case_id);
        if first_index(head, rows.last().case_id) is None {
            let all = rest.push(rows.last().case_id);
            if rest.contains(case_id) {
                let k = choose|k: int| 0 <= k < rest.len() && rest[k] == case_id;
                assert(all[k] == case_id);
            }
            if rows.last().case_id == case_id {
                assert(all[rest.len() as int] == case_id);
            }
            if all.contains(case_id) && !rest.contains(case_id) {
                let k = choose|k: int| 0 <= k < all.len() && all[k] == case_id;
                if k < rest.len() {
                    assert(rest[k] == case_id);
                }
            }
        }
    }
}

proof fn first_index_stays(rows: Seq<RowView>, more: RowView, case_id: Seq<char>)
    requires
        first_index(rows, case_id) is Some,
    ensures
        first_index(rows.push(more), case_id) == first_index(rows, case_id),
{
    assert(rows.push(more).drop_last() =~= rows);
}

/// Where the turns of each case start.
pub fn first_occurrence_index(rows: &[TurnRow]) -> (r: CaseOrder)
    ensures
        r.of(row_views(rows@)),
{
    let ghost all = row_views(rows@);
    let mut r: CaseOrder = CaseOrder { starts: Vec::new() };
    let mut i: usize = 0;
    while i < rows.len()
        invariant
            i <= rows.len(),
            all == row_views(rows@),
            r.of(all.take(i as int)),
        decreases rows.len() - i,
    {
        let ghost head = all.take(i as int);
        proof {
            take_next(all, i as int);
            assert(all[i as int] == rows@[i as int]@);
        }
        let mut k: usize = 0;
        while k < r.starts.len() && !same(r.starts[k].0.as_str(), rows[i].case_id.as_str())
            invariant
                k <= r.starts.len(),
                i < rows.len(),
                r.of(head),
                forall|j: int| 0 <= j < k ==> cases_of(head)[j] != rows@[i as int].case_id@,
            decreases r.starts.len() - k,
        {
            k = k + 1;
        }
        let ghost before_push = r.starts@;
        proof {
            cases_are_those_that_start(head, all[i as int].case_id);
        }
        if k == r.starts.len() {
            assert(!cases_of(head).contains(all[i as int].case_id));
            r.starts.push((rows[i].case_id.clone(), i));
        } else {
            assert(cases_of(head)[k as int] == all[i as int].case_id);
        }
        proof {
            let next = all.take(i + 1);
            assert forall|j: int| 0 <= j < r.starts@.len() implies {
                &&& (#[trigger] r.starts@[j]).0@ == cases_of(next)[j]
                &&& first_index(next, r.starts@[j].0@) == Some(r.starts@[j].1 as int)
            } by {
                if j < before_push.len() {
                    assert(r.starts@[j] == before_push[j]);
                    first_index_stays(head, all[i as int], before_push[j].0@);
                }
            }
        }
        i = i + 1;
    }
    assert(all.take(all.len() as int) =~= all);
    r
}

/// What a list shows of a conversation.
#[derive(Debug, Clone, PartialEq, Eq)]
pub struct ThreadSummary {
    pub case_id: String,
    pub end_user_id: Option<String>,
    pub question_preview: String,
    pub turn_count: u32,
    pub last_reply_kind: String,
    pub last_created_at: String,
}

/// What a list shows of a conversation.
#[verifier::ext_equal]
pub struct SummaryView {
    pub case_id: Seq<char>,
    pub end_user_id: Option<Seq<char>>,
    pub question_preview: Seq<char>,
    pub turn_count: int,
    pub last_reply_kind: Seq<char>,
    pub last_created_at: Seq<char>,
}

impl View for ThreadSummary {
    type V = SummaryView;

    open spec fn view(&self) -> SummaryView {
        SummaryView {
            case_id: self.case_id@,
            end_user_id: opt_text(self.end_user_id),
            question_preview: self.question_preview@,
            turn_count: self.turn_count as int,
            last_reply_kind: self.last_reply_kind@,
            last_created_at: self.last_created_at@,
        }
    }
}

/// What a list shows of conversations.
pub open spec fn summary_views(ss: Seq<ThreadSummary>) -> Seq<SummaryView> {
    ss.map_values(|s: ThreadSummary| s@)
}

/// The turns of a case.
pub open spec fn turns_of(rows: Seq<RowView>, case_id: Seq<char>) -> Seq<RowView>
    decreases rows.len(),
{
    if rows.len() == 0 {
        Seq::empty()
    } else if rows.last().case_id == case_id {
        turns_of(rows.drop_last(), case_id).push(rows.last())
    } else {
        turns_of(rows.drop_last(), case_id)
    }
}

/// The turn with the latest time; of several the last.
pub open spec fn latest(turns: Seq<RowView>) -> Option<RowView>
    decreases turns.len(),
{
    if turns.len() == 0 {
        None
    } else {
        match latest(turns.drop_last()) {
            Some(m) => if before(turns.last().created_at, m.created_at) {
                Some(m)
            } else {
                Some(turns.last())
            },
            None => Some(turns.last()),
        }
    }
}

/// The question of the first turn with the number one.
pub open spec fn numbered_one(turns: Seq<RowView>) -> Option<Seq<char>>
    decreases turns.len(),
{
    if turns.len() == 0 {
        None
    } else {
        match numbered_one(turns.drop_last()) {
            Some(q) => Some(q),
            None => if turns.last().seq == 1 {
                Some(turns.last().question)
            } else {
                None
            },
        }
    }
}

/// The first user that a turn names.
pub open spec fn first_user(turns: Seq<RowView>) -> Option<Seq<char>>
    decreases turns.len(),
{
    if turns.len() == 0 {
        None
    } else {
        match first_user(turns.drop_last()) {
            Some(u) => Some(u),
            None => turns.last().end_user_id,
        }
    }
}

/// What a list shows of a conversation with the given turns: the question it
/// opened with, how many turns it has, and how and when it was last replied to.
pub open spec fn summary_of(case_id: Seq<char>, turns: Seq<RowView>) -> SummaryView {
    SummaryView {
        case_id,
        end_user_id: first_user(turns),
        question_preview: shortened(
            match numbered_one(turns) {
                Some(q) => q,
                None => turns[0].question,
            },
            PREVIEW_CHARS as nat,
        ),
        turn_count: turns.len() as int,
        last_reply_kind: (latest(turns)->0).reply_kind,
        last_created_at: (latest(turns)->0).created_at,
    }
}

/// `ss` with `s` put in by its time: behind everything that is not older.
pub open spec fn put_newest_first(ss: Seq<SummaryView>, s: SummaryView) -> Seq<SummaryView>
    decreases ss.len(),
{
    if ss.len() == 0 || !before(ss.last().last_created_at, s.last_created_at) {
        ss.push(s)
    } else {
        put_newest_first(ss.drop_last(), s).push(ss.last())
    }
}

/// The conversations of the given cases, the newest first; of conversations of
/// one time, the one whose case comes first.
pub open spec fn newest_first(rows: Seq<RowView>, cases: Seq<Seq<char>>) -> Seq<SummaryView>
    decreases cases.len(),
{
    if cases.len() == 0 {
        Seq::empty()
    } else {
        put_newest_first(
            newest_first(rows, cases.drop_last()),
            summary_of(cases.last(), turns_of(rows, cases.last())),
        )
    }
}

/// The conversations that the turns belong to, the newest first; of
/// conversations of one time, the one that starts first in the list of turns.
pub open spec fn threads_of(rows: Seq<RowView>) -> Seq<SummaryView> {
    newest_first(rows, cases_of(rows))
}

proof fn starting_cases_have_turns(rows: Seq<RowView>, case_id: Seq<char>)
    ensures
        first_index(rows, case_id) is Some <==> turns_of(rows, case_id).len() > 0,
        turns_of(rows, case_id).len() <= rows.len(),
    decreases rows.len(),
{
    if rows.len() > 0 {
        starting_cases_have_turns(rows.drop_last(), case_id);
    }
}

fn summarize(rows: &[TurnRow], case_id: &str) -> (r: ThreadSummary)
    requires
        first_index(row_views(rows@), case_id@) is Some,
        rows@.len() <= u32::MAX,
    ensures
        r@ == summary_of(case_id@, turns_of(row_views(rows@), case_id@)),
{
    let ghost all = row_views(rows@);
    let mut count: u32 = 0;
    let mut newest: Option<usize> = None;
    let mut opening: Option<usize> = None;
    let mut head: Option<usize> = None;
    let mut user: Option<String> = None;
    let mut i: usize = 0;
    while i < rows.len()
        invariant
            i <= rows.len() <= u32::MAX,
            all == row_views(rows@),
            count <= i,
            ({
                let turns = turns_of(all.take(i as int), case_id@);
                &&& count == turns.len()
                &&& match newest {
                    Some(k) => k < rows.len() && latest(turns) == Some(rows@[k as int]@),
                    None => turns.len() == 0,
                }
                &&& match opening {
                    Some(k) => k < rows.len() && numbered_one(turns) == Some(
                        rows@[k as int].question@,
                    ),
                    None => numbered_one(turns) is None,
                }
                &&& match head {
                    Some(k) => k < rows.len() && turns.len() > 0 && turns[0] == rows@[k as int]@,
                    None => turns.len() == 0,
                }
                &&& opt_text(user) == first_user(turns)
            }),
        decreases rows.len() - i,
    {
        proof {
            take_next(all, i as int);
            assert(all[i as int] == rows@[i as int]@);
        }
        if same(rows[i].case_id.as_str(), case_id) {
            let ghost turns = turns_of(all.take(i as int), case_id@);
            let ghost next = turns_of(all.take(i + 1), case_id@);
            assert(next == turns.push(all[i as int]));
            assert(next.drop_last() =~= turns);
            count = count + 1;
            newest = match newest {
                Some(k) => if precedes(rows[i].created_at.as_str(), rows[k].created_at.as_str()) {
                    Some(k)
                } else {
                    Some(i)
                },
                None => Some(i),
            };
            if opening.is_none() && rows[i].seq == 1 {
                opening = Some(i);
            }
            if head.is_none() {
                head = Some(i);
            }
            if user.is_none() {
                user = match &rows[i].end_user_id {
                    Some(id) => Some(id.clone()),
                    None => None,
                };
            }
        }
        i = i + 1;
    }
    proof {
        assert(all.take(all.len() as int) =~= all);
        starting_cases_have_turns(all, case_id@);
    }
    let h: usize = head.unwrap();
    let n: usize = newest.unwrap();
    let q: usize = match opening {
        Some(k) => k,
        None => h,
    };
    ThreadSummary {
        case_id: case_id.to_owned(),
        end_user_id: user,
        question_preview: truncate_chars(rows[q].question.as_str(), PREVIEW_CHARS),
        turn_count: count,
        last_reply_kind: rows[n].reply_kind.clone(),
        last_created_at: rows[n].created_at.clone(),
    }
}

fn insert_newest_first(ss: &mut Vec<ThreadSummary>, s: ThreadSummary)
    ensures
        summary_views(final(ss)@) == put_newest_first(summary_views(old(ss)@), s@),
{
    let ghost before_call = summary_views(ss@);
    let n: usize = ss.len();
    let mut i: usize = n;
    proof {
        assert(before_call.take(n as int) =~= before_call);
        assert(before_call.skip(n as int) =~= Seq::<SummaryView>::empty());
        assert(put_newest_first(before_call, s@) =~= put_newest_first(
            before_call.take(n as int),
            s@,
        ) + before_call.skip(n as int));
    }
    while i > 0 && precedes(ss[i - 1].last_created_at.as_str(), s.last_created_at.as_str())
        invariant
            i <= n == ss.len(),
            before_call == summary_views(ss@),
            put_newest_first(before_call, s@) == put_newest_first(before_call.take(i as int), s@)
                + before_call.skip(i as int),
        decreases i,
    {
        proof {
            take_next(before_call, i - 1);
            let head = before_call.take(i - 1);
            assert(put_newest_first(head, s@).push(before_call[i - 1]) + before_call.skip(i as int)
                =~= put_newest_first(head, s@) + before_call.skip(i - 1));
        }
        i = i - 1;
    }
    proof {
        if i > 0 {
            take_next(before_call, i - 1);
        }
        assert(put_newest_first(before_call.take(i as int), s@) == before_call.take(i as int).push(
            s@,
        ));
    }
    let ghost v0 = s@;
    let ghost ss0 = ss@;
    ss.insert(i, s);
    assert(summary_views(ss@) =~= before_call.take(i as int).push(v0) + before_call.skip(i as int))
        by {
        assert(ss@ =~= ss0.insert(i as int, s));
    }
}

/// The conversations that the turns belong to, the newest first.
pub fn aggregate_threads(rows: Vec<TurnRow>) -> (r: Vec<ThreadSummary>)
    requires
        rows@.len() <= u32::MAX,
    ensures
        summary_views(r@) == threads_of(row_views(rows@)),
{
    let ghost all = row_views(rows@);
    let order = first_occurrence_index(rows.as_slice());
    let ghost cases = cases_of(all);
    let mut r: Vec<ThreadSummary> = Vec::new();
    let mut i: usize = 0;
    assert(summary_views(r@) =~= newest_first(all, cases.take(0)));
    while i < order.starts.len()
        invariant
            i <= order.starts.len(),
            rows@.len() <= u32::MAX,
            all == row_views(rows@),
            cases == cases_of(all),
            order.of(all),
            summary_views(r@) == newest_first(all, cases.take(i as int)),
        decreases order.starts.len() - i,
    {
        proof {
            take_next(cases, i as int);
        }
        let s = summarize(rows.as_slice(), order.starts[i].0.as_str());
        insert_newest_first(&mut r, s);
        i = i + 1;
    }
    assert(cases.take(cases.len() as int) =~= cases);
    r
}

/// Where the next fetch starts, if there is one: the page is not full yet, and
/// the last fetch brought as much as was asked for.
pub fn next_internal_offset(
    returned_count: usize,
    fetch_page_size: usize,
    distinct_case_count: usize,
    limit: usize,
    next_offset_if_continuing: i32,
) -> (r: Option<i32>)
    ensures
        r == if distinct_case_count >= limit || returned_count < fetch_page_size {
            None
        } else {
            Some(next_offset_if_continuing)
        },
{
    if distinct_case_count >= limit {
        return None;
    }
    if returned_count < fetch_page_size {
        return None;
    }
    Some(next_offset_if_continuing)
}

/// Nodes each of which describes a turn.
pub open spec fn all_turns(rows: Seq<RowView>) -> Seq<Option<RowView>> {
    rows.map_values(|row: RowView| Some(row))
}

/// Where among the nodes those stand that describe a turn.
pub open spec fn places_of(nodes: Seq<Option<RowView>>) -> Seq<int>
    decreases nodes.len(),
{
    if nodes.len() == 0 {
        Seq::empty()
    } else if nodes.last() is Some {
        places_of(nodes.drop_last()).push(nodes.len() - 1)
    } else {
        places_of(nodes.drop_last())
    }
}

/// Where among the nodes the turns of a case start.
pub open spec fn first_place(nodes: Seq<Option<RowView>>, case_id: Seq<char>) -> Option<int>
    decreases nodes.len(),
{
    if nodes.len() == 0 {
        None
    } else {
        match first_place(nodes.drop_last(), case_id) {
            Some(i) => Some(i),
            None => if nodes.last() is Some && (nodes.last()->0).case_id == case_id {
                Some(nodes.len() - 1)
            } else {
                None
            },
        }
    }
}

proof fn first_place_fits(nodes: Seq<Option<RowView>>, case_id: Seq<char>)
    ensures
        match first_place(nodes, case_id) {
            Some(i) => {
                &&& 0 <= i < nodes.len()
                &&& nodes[i] is Some
                &&& (nodes[i]->0).case_id == case_id
                &&& forall|j: int|
                    0 <= j < i && #[trigger] nodes[j] is Some ==> (nodes[j]->0).case_id != case_id
            },
            None => forall|j: int|
                0 <= j < nodes.len() && #[trigger] nodes[j] is Some ==> (nodes[j]->0).case_id
                    != case_id,
        },
    decreases nodes.len(),
{
    if nodes.len() > 0 {
        let head = nodes.drop_last();
        first_place_fits(head, case_id);
        assert forall|j: int| 0 <= j < head.len() implies head[j] == #[trigger] nodes[j] by {}
    }
}

proof fn places_fit(nodes: Seq<Option<RowView>>)
    ensures
        places_of(nodes).len() == described(nodes).len() <= nodes.len(),
        forall|k: int|
            0 <= k < places_of(nodes).len() ==> {
                &&& 0 <= #[trigger] places_of(nodes)[k] < nodes.len()
                &&& nodes[places_of(nodes)[k]] == Some(described(nodes)[k])
            },
        forall|a: int, b: int|
            0 <= a < b < places_of(nodes).len() ==> #[trigger] places_of(nodes)[a]
                < #[trigger] places_of(nodes)[b],
    decreases nodes.len(),
{
    if nodes.len() > 0 {
        let head = nodes.drop_last();
        places_fit(head);
        let before = places_of(head);
        let all = places_of(nodes);
        assert forall|k: int| 0 <= k < all.len() implies {
            &&& 0 <= #[trigger] all[k] < nodes.len()
            &&& nodes[all[k]] == Some(described(nodes)[k])
        } by {
            if k < before.len() {
                assert(all[k] == before[k]);
                assert(head[before[k]] == nodes[before[k]]);
            }
        }
        assert forall|a: int, b: int| 0 <= a < b < all.len() implies #[trigger] all[a]
            < #[trigger] all[b] by {
            assert(all[a] == before[a]);
            if b < before.len() {
                assert(all[b] == before[b]);
            }
        }
    }
}

proof fn place_of_a_start(nodes: Seq<Option<RowView>>, case_id: Seq<char>)
    ensures
        first_place(nodes, case_id) == match first_index(described(nodes), case_id) {
            Some(k) => Some(places_of(nodes)[k]),
            None => None,
        },
        first_index(described(nodes), case_id) is Some ==> 0 <= first_index(
            described(nodes),
            case_id,
        )->0 < places_of(nodes).len(),
    decreases nodes.len(),
{
    if nodes.len() > 0 {
        let head = nodes.drop_last();
        place_of_a_start(head, case_id);
        places_fit(head);
        if nodes.last() is Some {
            assert(described(nodes).drop_last() =~= described(head));
        }
    }
}

/// Nodes each of which describes a turn describe those turns, each at its own
/// place.
pub proof fn turns_describe_themselves(rows: Seq<RowView>)
    ensures
        described(all_turns(rows)) =~= rows,
        places_of(all_turns(rows)) =~= Seq::new(rows.len(), |i: int| i),
    decreases rows.len(),
{
    if rows.len() > 0 {
        turns_describe_themselves(rows.drop_last());
        assert(all_turns(rows).drop_last() =~= all_turns(rows.drop_last()));
    }
}

/// The last of the places where the turns of the given conversations start.
pub open spec fn last_start(kept: Seq<SummaryView>, nodes: Seq<Option<RowView>>) -> Option<int>
    decreases kept.len(),
{
    if kept.len() == 0 {
        None
    } else {
        let rest = last_start(kept.drop_last(), nodes);
        match first_place(nodes, kept.last().case_id) {
            Some(i) => match rest {
                Some(m) => if m > i {
                    Some(m)
                } else {
                    Some(i)
                },
                None => Some(i),
            },
            None => rest,
        }
    }
}

/// A page of conversations, and the offset at which the next page starts. A
/// page that had to be cut goes on right behind the node at which its last
/// conversation starts; one that had not goes on behind the nodes that were
/// fetched, unless there are no more.
pub open spec fn page_of(
    summaries: Seq<SummaryView>,
    limit: int,
    nodes: Seq<Option<RowView>>,
    initial_offset: int,
    source_exhausted: bool,
) -> (Seq<SummaryView>, Option<int>) {
    if limit == 0 {
        (summaries, None)
    } else if summaries.len() > limit {
        (
            summaries.take(limit),
            match last_start(summaries.take(limit), nodes) {
                Some(i) => Some(initial_offset + i + 1),
                None => None,
            },
        )
    } else if source_exhausted {
        (summaries, None)
    } else {
        (summaries, Some(initial_offset + nodes.len()))
    }
}

/// `cursor` is the cursor for the offset, and stands for it.
pub open spec fn marks(cursor: Option<String>, offset: Option<int>) -> bool {
    match (cursor, offset) {
        (Some(c), Some(n)) => c@ == cursor_for(n) && (n >= 0 ==> offset_for(c@) == Some(n)),
        (None, None) => true,
        _ => false,
    }
}

fn cursor_at(offset: i32) -> (r: Option<String>)
    ensures
        marks(r, Some(offset as int)),
{
    let c = encode_cursor(offset);
    proof {
        cursors_read_back(c@, offset as int);
    }
    Some(c)
}

/// Cuts a list of conversations to a page, and says where the next page starts.
/// Every node that was fetched described a turn.
pub fn paginate_summaries(
    summaries: Vec<ThreadSummary>,
    limit: usize,
    rows: &[TurnRow],
    initial_offset: i32,
    source_exhausted: bool,
) -> (r: (Vec<ThreadSummary>, Option<String>))
    requires
        rows@.len() <= i32::MAX,
        initial_offset + rows@.len() <= i32::MAX,
    ensures
        ({
            let page = page_of(
                summary_views(summaries@),
                limit as int,
                all_turns(row_views(rows@)),
                initial_offset as int,
                source_exhausted,
            );
            summary_views(r.0@) == page.0 && marks(r.1, page.1)
        }),
{
    let ghost all = row_views(rows@);
    let mut places: Vec<usize> = Vec::new();
    let mut i: usize = 0;
    while i < rows.len()
        invariant
            i <= rows.len(),
            places@.len() == i,
            forall|k: int| 0 <= k < i ==> #[trigger] places@[k] == k,
        decreases rows.len() - i,
    {
        places.push(i);
        i = i + 1;
    }
    proof {
        turns_describe_themselves(all);
        assert(places_of(all_turns(all)) =~= places@.map_values(|p: usize| p as int));
    }
    cut_to_page(
        summaries,
        limit,
        Ghost(all_turns(all)),
        rows,
        places.as_slice(),
        rows.len(),
        initial_offset,
        source_exhausted,
    )
}

/// Cuts a list of conversations to a page, and says where the next page starts.
/// `rows` are the turns that the fetched nodes describe, `places` where those
/// nodes stand, and `fetched` how many nodes there are.
fn cut_to_page(
    summaries: Vec<ThreadSummary>,
    limit: usize,
    Ghost(nodes): Ghost<Seq<Option<RowView>>>,
    rows: &[TurnRow],
    places: &[usize],
    fetched: usize,
    initial_offset: i32,
    source_exhausted: bool,
) -> (r: (Vec<ThreadSummary>, Option<String>))
    requires
        row_views(rows@) == described(nodes),
        places@.map_values(|p: usize| p as int) == places_of(nodes),
        fetched == nodes.len(),
        nodes.len() <= i32::MAX,
        initial_offset + nodes.len() <= i32::MAX,
    ensures
        ({
            let page = page_of(
                summary_views(summaries@),
                limit as int,
                nodes,
                initial_offset as int,
                source_exhausted,
            );
            summary_views(r.0@) == page.0 && marks(r.1, page.1)
        }),
{
    if limit == 0 {
        return (summaries, None);
    }
    if summaries.len() > limit {
        let ghost before_cut = summary_views(summaries@);
        let mut kept = summaries;
        kept.truncate(limit);
        let ghost all = row_views(rows@);
        let ghost ks = summary_views(kept@);
        let ghost at = places_of(nodes);
        assert(ks =~= before_cut.take(limit as int));
        let order = first_occurrence_index(rows);
        let mut cutoff: Option<usize> = None;
        let mut i: usize = 0;
        while i < kept.len()
            invariant
                i <= kept.len(),
                all == row_views(rows@),
                all == described(nodes),
                at == places_of(nodes),
                at == places@.map_values(|p: usize| p as int),
                ks == summary_views(kept@),
                order.of(all),
                match cutoff {
                    Some(m) => last_start(ks.take(i as int), nodes) == Some(m as int) && m
                        < nodes.len(),
                    None => last_start(ks.take(i as int), nodes) is None,
                },
            decreases kept.len() - i,
        {
            proof {
                take_next(ks, i as int);
                assert(ks[i as int] == kept@[i as int]@);
                order_tells_starts(order, all, kept@[i as int].case_id@);
                first_index_fits(all, kept@[i as int].case_id@);
                place_of_a_start(nodes, kept@[i as int].case_id@);
                places_fit(nodes);
            }
            if let Some(start) = order.get(kept[i].case_id.as_str()) {
                assert(at[start as int] == places@[start as int]);
                let place: usize = places[start];
                cutoff = match cutoff {
                    Some(m) => if m > place {
                        Some(m)
                    } else {
                        Some(place)
                    },
                    None => Some(place),
                };
            }
            i = i + 1;
        }
        assert(ks.take(ks.len() as int) =~= ks);
        let next_cursor = match cutoff {
            Some(m) => cursor_at(initial_offset + (m as i32 + 1)),
            None => None,
        };
        return (kept, next_cursor);
    }
    if source_exhausted {
        return (summaries, None);
    }
    (summaries, cursor_at(initial_offset + fetched as i32))
}

/// A page of conversations, and the cursor for the next page.
#[derive(Debug, Clone, PartialEq, Eq)]
pub struct ThreadsPage {
    pub threads: Vec<ThreadSummary>,
    pub next_cursor: Option<String>,
}

/// A page in the making: nodes are fetched until there are conversations enough,
/// the nodes run out, or nodes were fetched often enough.
pub struct PageWalk {
    limit: usize,
    initial_offset: i32,
    fetched: Vec<Option<TurnRow>>,
    rounds: usize,
    source_exhausted: bool,
    open: bool,
}

/// What fetched nodes describe.
pub open spec fn node_views(nodes: Seq<Option<TurnRow>>) -> Seq<Option<RowView>> {
    nodes.map_values(
        |node: Option<TurnRow>|
            match node {
                Some(row) => Some(row@),
                None => None,
            },
    )
}

/// How far a page in the making has come.
#[verifier::ext_equal]
pub struct WalkView {
    pub limit: usize,
    pub initial_offset: i32,
    /// The nodes that were fetched: the turn that each describes, if it describes
    /// one.
    pub nodes: Seq<Option<RowView>>,
    /// How often nodes were fetched.
    pub rounds: int,
    /// The last fetch brought less than was asked for.
    pub source_exhausted: bool,
    /// Nodes are to be fetched again.
    pub open: bool,
}

impl View for PageWalk {
    type V = WalkView;

    closed spec fn view(&self) -> WalkView {
        WalkView {
            limit: self.limit,
            initial_offset: self.initial_offset,
            nodes: node_views(self.fetched@),
            rounds: self.rounds as int,
            source_exhausted: self.source_exhausted,
            open: self.open,
        }
    }
}

/// A page before anything was fetched.
pub open spec fn walk_start(limit: usize, initial_offset: i32) -> WalkView {
    WalkView {
        limit,
        initial_offset,
        nodes: Seq::empty(),
        rounds: 0,
        source_exhausted: false,
        open: true,
    }
}

/// A page after a fetch brought the given nodes. Whether there are more is told
/// by how many nodes came, not by how many of them describe a turn.
pub open spec fn walk_step(w: WalkView, nodes: Seq<Option<RowView>>) -> WalkView {
    WalkView {
        nodes: w.nodes + nodes,
        rounds: w.rounds + 1,
        source_exhausted: nodes.len() < THREADS_FETCH_PAGE_SIZE,
        open: w.rounds + 1 < MAX_INTERNAL_FETCH_ROUNDS && cases_of(described(w.nodes + nodes)).len()
            < w.limit && nodes.len() >= THREADS_FETCH_PAGE_SIZE,
        ..w
    }
}

/// The offsets of the fetched nodes fit, and nodes are not fetched too often.
pub open spec fn walk_fits(w: WalkView) -> bool {
    &&& w.nodes.len() <= i32::MAX
    &&& w.initial_offset + w.nodes.len() <= i32::MAX
    &&& 0 <= w.rounds <= MAX_INTERNAL_FETCH_ROUNDS
    &&& w.open ==> w.rounds < MAX_INTERNAL_FETCH_ROUNDS
}

/// The turns that nodes describe, and where those nodes stand.
fn turns_among(nodes: &[Option<TurnRow>]) -> (r: (Vec<TurnRow>, Vec<usize>))
    ensures
        row_views(r.0@) == described(node_views(nodes@)),
        r.1@.map_values(|p: usize| p as int) == places_of(node_views(nodes@)),
{
    let ghost all = node_views(nodes@);
    let mut rows: Vec<TurnRow> = Vec::new();
    let mut places: Vec<usize> = Vec::new();
    let mut i: usize = 0;
    assert(row_views(rows@) =~= described(all.take(0)));
    assert(places@.map_values(|p: usize| p as int) =~= places_of(all.take(0)));
    while i < nodes.len()
        invariant
            i <= nodes.len(),
            all == node_views(nodes@),
            row_views(rows@) == described(all.take(i as int)),
            places@.map_values(|p: usize| p as int) == places_of(all.take(i as int)),
        decreases nodes.len() - i,
    {
        proof {
            take_next(all, i as int);
        }
        if let Some(row) = &nodes[i] {
            let ghost rows0 = rows@;
            let ghost places0 = places@;
            let copy = row.copied();
            let ghost shown = copy@;
            rows.push(copy);
            places.push(i);
            assert(row_views(rows@) =~= row_views(rows0).push(shown));
            assert(places@.map_values(|p: usize| p as int) =~= places0.map_values(
                |p: usize| p as int,
            ).push(i as int));
        }
        i = i + 1;
    }
    assert(all.take(all.len() as int) =~= all);
    (rows, places)
}

impl PageWalk {
    /// A page before anything was fetched.
    pub fn start(limit: usize, initial_offset: i32) -> (r: PageWalk)
        ensures
            r@ == walk_start(limit, initial_offset),
            walk_fits(r@),
    {
        let fetched: Vec<Option<TurnRow>> = Vec::new();
        assert(node_views(fetched@) =~= Seq::<Option<RowView>>::empty());
        PageWalk { limit, initial_offset, fetched, rounds: 0, source_exhausted: false, open: true }
    }

    /// The offset to fetch nodes from, as long as nodes are to be fetched: right
    /// behind those that were fetched.
    pub fn next_fetch(&self) -> (r: Option<i32>)
        requires
            walk_fits(self@),
        ensures
            match r {
                Some(offset) => self@.open && offset == self@.initial_offset + self@.nodes.len(),
                None => !self@.open,
            },
    {
        if self.open {
            Some(self.initial_offset + self.fetched.len() as i32)
        } else {
            None
        }
    }

    /// How many more nodes can be taken in.
    pub fn room(&self) -> (r: usize)
        requires
            walk_fits(self@),
        ensures
            r == if self@.initial_offset < 0 {
                i32::MAX - self@.nodes.len()
            } else {
                i32::MAX - self@.initial_offset - self@.nodes.len()
            },
    {
        let taken: usize = self.fetched.len();
        if self.initial_offset < 0 {
            0x7fff_ffff - taken
        } else {
            0x7fff_ffff - self.initial_offset as usize - taken
        }
    }

    /// Ends a fetch that brought `returned` nodes, which were taken in.
    fn end_fetch(&mut self, returned: usize)
        requires
            old(self)@.open,
            0 <= old(self)@.rounds < MAX_INTERNAL_FETCH_ROUNDS,
            returned <= old(self)@.nodes.len() <= i32::MAX,
            old(self)@.initial_offset + old(self)@.nodes.len() <= i32::MAX,
        ensures
            final(self)@ == (WalkView {
                rounds: old(self)@.rounds + 1,
                source_exhausted: returned < THREADS_FETCH_PAGE_SIZE,
                open: old(self)@.rounds + 1 < MAX_INTERNAL_FETCH_ROUNDS && cases_of(
                    described(old(self)@.nodes),
                ).len() < old(self)@.limit && returned >= THREADS_FETCH_PAGE_SIZE,
                ..old(self)@
            }),
    {
        let turns = turns_among(self.fetched.as_slice());
        let order = first_occurrence_index(turns.0.as_slice());
        let distinct: usize = order.starts.len();
        self.rounds = self.rounds + 1;
        self.source_exhausted = returned < THREADS_FETCH_PAGE_SIZE as usize;
        let again = next_internal_offset(
            returned,
            THREADS_FETCH_PAGE_SIZE as usize,
            distinct,
            self.limit,
            self.initial_offset + self.fetched.len() as i32,
        );
        self.open = self.rounds < MAX_INTERNAL_FETCH_ROUNDS && again.is_some();
    }

    /// Takes in the nodes that a fetch brought. A node whose attributes describe
    /// no turn counts as fetched like any other.
    pub fn absorb_fetched(&mut self, list: &[AttrMap])
        requires
            walk_fits(old(self)@),
            old(self)@.open,
            old(self)@.nodes.len() + list@.len() <= i32::MAX,
            old(self)@.initial_offset + old(self)@.nodes.len() + list@.len() <= i32::MAX,
        ensures
            final(self)@ == walk_step(old(self)@, nodes_of(list@)),
            walk_fits(final(self)@),
    {
        let ghost w = self@;
        let ghost more = nodes_of(list@);
        let mut i: usize = 0;
        while i < list.len()
            invariant
                i <= list.len(),
                more == nodes_of(list@),
                self@ =~= (WalkView { nodes: w.nodes + more.take(i as int), ..w }),
            decreases list.len() - i,
        {
            let ghost f0 = self.fetched@;
            let node = TurnRow::from_attrs(&list[i]);
            self.fetched.push(node);
            proof {
                take_next(more, i as int);
                assert(node_views(self.fetched@) =~= node_views(f0).push(more[i as int]));
            }
            i = i + 1;
        }
        assert(more.take(more.len() as int) =~= more);
        self.end_fetch(list.len());
    }

    /// Takes in the turns that a fetch brought, where every node that came
    /// described one.
    pub fn absorb(&mut self, rows: Vec<TurnRow>)
        requires
            walk_fits(old(self)@),
            old(self)@.open,
            old(self)@.nodes.len() + rows@.len() <= i32::MAX,
            old(self)@.initial_offset + old(self)@.nodes.len() + rows@.len() <= i32::MAX,
        ensures
            final(self)@ == walk_step(old(self)@, all_turns(row_views(rows@))),
            walk_fits(final(self)@),
    {
        let ghost w = self@;
        let ghost more = all_turns(row_views(rows@));
        let mut i: usize = 0;
        while i < rows.len()
            invariant
                i <= rows.len(),
                more == all_turns(row_views(rows@)),
                self@ =~= (WalkView { nodes: w.nodes + more.take(i as int), ..w }),
            decreases rows.len() - i,
        {
            let ghost f0 = self.fetched@;
            let row = rows[i].copied();
            self.fetched.push(Some(row));
            proof {
                take_next(more, i as int);
                assert(node_views(self.fetched@) =~= node_views(f0).push(more[i as int]));
            }
            i = i + 1;
        }
        assert(more.take(more.len() as int) =~= more);
        self.end_fetch(rows.len());
    }

    /// Whether fetching was given up with the page not full and more nodes to
    /// come.
    pub fn gave_up(&self) -> (r: bool)
        ensures
            r == (!self@.source_exhausted && cases_of(described(self@.nodes)).len() < self@.limit),
    {
        let turns = turns_among(self.fetched.as_slice());
        let order = first_occurrence_index(turns.0.as_slice());
        !self.source_exhausted && order.starts.len() < self.limit
    }

    /// The page that the fetched nodes make. It is without a cursor only where
    /// the last fetch brought less than was asked for.
    pub fn finish(self) -> (r: ThreadsPage)
        requires
            walk_fits(self@),
        ensures
            ({
                let page = page_of(
                    threads_of(described(self@.nodes)),
                    self@.limit as int,
                    self@.nodes,
                    self@.initial_offset as int,
                    self@.source_exhausted,
                );
                summary_views(r.threads@) == page.0 && marks(r.next_cursor, page.1)
            }),
            self@.limit > 0 && r.next_cursor is None ==> self@.source_exhausted,
    {
        proof {
            let w = self@;
            places_fit(w.nodes);
            if w.limit > 0 && page_of(
                threads_of(described(w.nodes)),
                w.limit as int,
                w.nodes,
                w.initial_offset as int,
                w.source_exhausted,
            ).1 is None {
                no_cursor_means_the_end(
                    w.nodes,
                    w.limit as int,
                    w.initial_offset as int,
                    w.source_exhausted,
                );
            }
        }
        let (rows, places) = turns_among(self.fetched.as_slice());
        let (copy, _) = turns_among(self.fetched.as_slice());
        let summaries = aggregate_threads(copy);
        let (threads, next_cursor) = cut_to_page(
            summaries,
            self.limit,
            Ghost(self@.nodes),
            rows.as_slice(),
            places.as_slice(),
            self.fetched.len(),
            self.initial_offset,
            self.source_exhausted,
        );
        ThreadsPage { threads, next_cursor }
    }
}

/// The limit that was asked for, and the default where none or zero was.
pub fn resolved_limit(query_limit: Option<usize>) -> (r: usize)
    ensures
        r == match query_limit {
            Some(n) => if n > 0 {
                n
            } else {
                THREADS_DEFAULT_LIMIT
            },
            None => THREADS_DEFAULT_LIMIT,
        },
        r > 0,
{
    match query_limit {
        Some(n) => if n > 0 {
            n
        } else {
            THREADS_DEFAULT_LIMIT
        },
        None => THREADS_DEFAULT_LIMIT,
    }
}

/// The offset that a page starts at: that of the cursor, and zero where there is
/// none or it is broken.
pub fn resolved_offset(cursor: Option<&str>) -> (r: i32)
    ensures
        r == match cursor {
            Some(c) => match offset_for(c@) {
                Some(n) => n,
                None => 0,
            },
            None => 0,
        },
        r >= 0,
{
    match cursor {
        Some(c) => match decode_cursor(c) {
            Some(n) => n,
            None => 0,
        },
        None => 0,
    }
}

/// The days that were asked for, and the default where none or zero were.
pub open spec fn days_asked(query_days: Option<u32>) -> u32 {
    match query_days {
        Some(d) => if d > 0 {
            d
        } else {
            STATS_DEFAULT_DAYS
        },
        None => STATS_DEFAULT_DAYS,
    }
}

/// The days to look at: those that were asked for, and the default where none or
/// zero were. More days than can be looked at are refused.
pub fn resolved_days(query_days: Option<u32>) -> (r: Result<u32, String>)
    ensures
        match r {
            Ok(days) => days == days_asked(query_days) && 1 <= days <= STATS_MAX_DAYS,
            Err(message) => days_asked(query_days) > STATS_MAX_DAYS && message@
                == "days must be between 1 and "@ + decimal(STATS_MAX_DAYS as nat) + ", got "@
                + decimal(days_asked(query_days) as nat),
        },
{
    let days: u32 = match query_days {
        Some(d) => if d > 0 {
            d
        } else {
            STATS_DEFAULT_DAYS
        },
        None => STATS_DEFAULT_DAYS,
    };
    if days > STATS_MAX_DAYS {
        let mut message = "days must be between 1 and ".to_owned();
        message.append(decimal_text(STATS_MAX_DAYS as u64).as_str());
        message.append(", got ");
        message.append(decimal_text(days as u64).as_str());
        return Err(message);
    }
    Ok(days)
}

/// The reason that is noted with a correction where none was given.
pub open spec fn default_rationale(case_id: Seq<char>, turn_id: Seq<char>) -> Seq<char> {
    "管理画面からの訂正登録（case: "@ + case_id + ", turn: "@ + turn_id + "）"@
}

/// The reason that is noted with a correction where none was given.
pub fn default_correction_rationale_text(case_id: &str, turn_id: &str) -> (r: String)
    ensures
        r@ == default_rationale(case_id@, turn_id@),
{
    let mut r = "管理画面からの訂正登録（case: ".to_owned();
    r.append(case_id);
    r.append(", turn: ");
    r.append(turn_id);
    r.append("）");
    r
}

/// The reason that is noted with a correction: the one that was given, or else one
/// that says where the correction was made.
pub fn correction_rationale(given: Option<&str>, case_id: &str, turn_id: &str) -> (r: String)
    ensures
        r@ == match given {
            Some(text) => text@,
            None => default_rationale(case_id@, turn_id@),
        },
{
    match given {
        Some(text) => text.to_owned(),
        None => default_correction_rationale_text(case_id, turn_id),
    }
}

/// Where a correction comes from.
pub fn correction_origin(case_id: &str, turn_id: &str) -> (r: String)
    ensures
        r@ == "case:"@ + case_id@ + ":turn:"@ + turn_id@,
{
    let mut r = "case:".to_owned();
    r.append(case_id);
    r.append(":turn:");
    r.append(turn_id);
    r
}

/// How many turns had each kind of reply, in the order of the kinds.
#[derive(Debug, Clone, PartialEq, Eq)]
pub struct KindCounts {
    pub entries: Vec<(String, u32)>,
}

/// How many of the turns had the given kind of reply.
pub open spec fn count_kind(rows: Seq<RowView>, kind: Seq<char>) -> nat
    decreases rows.len(),
{
    if rows.len() == 0 {
        0
    } else {
        count_kind(rows.drop_last(), kind) + (if rows.last().reply_kind == kind {
            1nat
        } else {
            0nat
        })
    }
}

impl KindCounts {
    /// The kinds stand in their order, each kind that occurs is there with the
    /// number of its turns, and no other kind is there.
    pub open spec fn of(&self, rows: Seq<RowView>) -> bool {
        &&& forall|i: int, j: int|
            0 <= i < j < self.entries@.len() ==> before(
                (#[trigger] self.entries@[i]).0@,
                (#[trigger] self.entries@[j]).0@,
            )
        &&& forall|i: int|
            0 <= i < self.entries@.len() ==> (#[trigger] self.entries@[i]).1 > 0
                && self.entries@[i].1 == count_kind(rows, self.entries@[i].0@)
        &&& forall|kind: Seq<char>| #[trigger]
            count_kind(rows, kind) > 0 ==> exists|i: int|
                0 <= i < self.entries@.len() && (#[trigger] self.entries@[i]).0@ == kind
    }

    /// How many turns had the given kind of reply.
    pub fn get(&self, kind: &str) -> (r: Option<u32>)
        ensures
            match r {
                Some(n) => exists|i: int|
                    0 <= i < self.entries@.len() && (#[trigger] self.entries@[i]).0@ == kind@
                        && self.entries@[i].1 == n,
                None => forall|i: int|
                    0 <= i < self.entries@.len() ==> (#[trigger] self.entries@[i]).0@ != kind@,
            },
    {
        let mut i: usize = 0;
        while i < self.entries.len()
            invariant
                i <= self.entries.len(),
                forall|j: int| 0 <= j < i ==> (#[trigger] self.entries@[j]).0@ != kind@,
            decreases self.entries.len() - i,
        {
            if same(self.entries[i].0.as_str(), kind) {
                return Some(self.entries[i].1);
            }
            i = i + 1;
        }
        None
    }

    /// Whether there is no kind of reply at all.
    pub fn is_empty(&self) -> (r: bool)
        ensures
            r == (self.entries@.len() == 0),
    {
        self.entries.len() == 0
    }
}

proof fn counts_are_bounded(rows: Seq<RowView>, kind: Seq<char>)
    ensures
        count_kind(rows, kind) <= rows.len(),
    decreases rows.len(),
{
    if rows.len() > 0 {
        counts_are_bounded(rows.drop_last(), kind);
    }
}

fn count_kinds(rows: &[TurnRow]) -> (r: KindCounts)
    requires
        rows@.len() <= u32::MAX,
    ensures
        r.of(row_views(rows@)),
{
    let ghost all = row_views(rows@);
    let mut r: KindCounts = KindCounts { entries: Vec::new() };
    let mut i: usize = 0;
    while i < rows.len()
        invariant
            i <= rows.len() <= u32::MAX,
            all == row_views(rows@),
            r.of(all.take(i as int)),
        decreases rows.len() - i,
    {
        let ghost head = all.take(i as int);
        let ghost kind = all[i as int].reply_kind;
        proof {
            take_next(all, i as int);
            assert(all[i as int] == rows@[i as int]@);
            counts_are_bounded(head, kind);
        }
        let mut k: usize = 0;
        while k < r.entries.len() && precedes(
            r.entries[k].0.as_str(),
            rows[i].reply_kind.as_str(),
        )
            invariant
                k <= r.entries.len(),
                i < rows.len(),
                kind == rows@[i as int].reply_kind@,
                forall|j: int| 0 <= j < k ==> before((#[trigger] r.entries@[j]).0@, kind),
            decreases r.entries.len() - k,
        {
            k = k + 1;
        }
        let ghost e0 = r.entries@;
        let ghost next = all.take(i + 1);
        if k < r.entries.len() && same(r.entries[k].0.as_str(), rows[i].reply_kind.as_str()) {
            let name: String = r.entries[k].0.clone();
            let n: u32 = r.entries[k].1;
            r.entries.set(k, (name, n + 1));
            proof {
                assert forall|a: int| 0 <= a < e0.len() && a != k implies (#[trigger] e0[a]).0@
                    != kind by {
                    if a < k {
                        before_is_one_way(e0[a].0@, e0[k as int].0@);
                    } else {
                        before_is_one_way(e0[k as int].0@, e0[a].0@);
                    }
                }
                assert forall|a: int| 0 <= a < r.entries@.len() implies (#[trigger] r.entries@[a]).1 > 0
                    && r.entries@[a].1 == count_kind(next, r.entries@[a].0@) by {
                    assert(e0[a].1 == count_kind(head, e0[a].0@));
                }
                assert forall|a: int, b: int| 0 <= a < b < r.entries@.len() implies before(
                    (#[trigger] r.entries@[a]).0@,
                    (#[trigger] r.entries@[b]).0@,
                ) by {
                    assert(before(e0[a].0@, e0[b].0@));
                }
                assert forall|x: Seq<char>| #[trigger] count_kind(next, x) > 0 implies exists|a: int|
                    0 <= a < r.entries@.len() && (#[trigger] r.entries@[a]).0@ == x by {
                    if x == kind {
                        assert(r.entries@[k as int].0@ == x);
                    } else {
                        assert(count_kind(head, x) > 0);
                        let a = choose|a: int| 0 <= a < e0.len() && (#[trigger] e0[a]).0@ == x;
                        assert(r.entries@[a].0@ == x);
                    }
                }
            }
        } else {
            r.entries.insert(k, (rows[i].reply_kind.clone(), 1));
            proof {
                assert forall|a: int| k <= a < e0.len() implies before(kind, (#[trigger] e0[a]).0@) by {
                    if !before(kind, e0[k as int].0@) {
                        neither_before_is_same(kind, e0[k as int].0@);
                    }
                    if a > k {
                        before_chains(kind, e0[k as int].0@, e0[a].0@);
                    }
                }
                assert forall|a: int| 0 <= a < e0.len() implies (#[trigger] e0[a]).0@ != kind by {
                    if a < k {
                        before_is_one_way(e0[a].0@, kind);
                    } else {
                        before_is_one_way(kind, e0[a].0@);
                    }
                }
                assert(count_kind(head, kind) == 0) by {
                    if count_kind(head, kind) > 0 {
                        let a = choose|a: int| 0 <= a < e0.len() && (#[trigger] e0[a]).0@ == kind;
                        assert(e0[a].0@ != kind);
                    }
                }
                assert forall|a: int| 0 <= a < r.entries@.len() implies (#[trigger] r.entries@[a]).1 > 0
                    && r.entries@[a].1 == count_kind(next, r.entries@[a].0@) by {
                    if a != k {
                        let o = if a < k {
                            a
                        } else {
                            a - 1
                        };
                        assert(r.entries@[a] == e0[o]);
                        assert(e0[o].1 == count_kind(head, e0[o].0@));
                    }
                }
                assert forall|a: int, b: int| 0 <= a < b < r.entries@.len() implies before(
                    (#[trigger] r.entries@[a]).0@,
                    (#[trigger] r.entries@[b]).0@,
                ) by {
                    if a < k {
                        assert(r.entries@[a] == e0[a]);
                        if b < k {
                            assert(r.entries@[b] == e0[b]);
                        } else if b > k {
                            assert(r.entries@[b] == e0[b - 1]);
                        }
                    } else {
                        assert(r.entries@[b] == e0[b - 1]);
                        if a > k {
                            assert(r.entries@[a] == e0[a - 1]);
                        }
                    }
                }
                assert forall|x: Seq<char>| #[trigger] count_kind(next, x) > 0 implies exists|a: int|
                    0 <= a < r.entries@.len() && (#[trigger] r.entries@[a]).0@ == x by {
                    if x == kind {
                        assert(r.entries@[k as int].0@ == x);
                    } else {
                        assert(count_kind(head, x) > 0);
                        let a = choose|a: int| 0 <= a < e0.len() && (#[trigger] e0[a]).0@ == x;
                        if a < k {
                            assert(r.entries@[a].0@ == x);
                        } else {
                            assert(r.entries@[a + 1].0@ == x);
                        }
                    }
                }
            }
        }
        i = i + 1;
    }
    assert(all.take(all.len() as int) =~= all);
    r
}

/// The kinds and their counts, in their order.
pub open spec fn counted(counts: KindCounts) -> Seq<(Seq<char>, u32)> {
    counts.entries@.map_values(|e: (String, u32)| (e.0@, e.1))
}

proof fn kinds_agree_up_to(
    a: KindCounts,
    b: KindCounts,
    rows: Seq<RowView>,
    others: Seq<RowView>,
    n: int,
)
    requires
        a.of(rows),
        b.of(others),
        forall|kind: Seq<char>| count_kind(rows, kind) == #[trigger] count_kind(others, kind),
        0 <= n <= a.entries@.len(),
    ensures
        n <= b.entries@.len(),
        forall|i: int| 0 <= i < n ==> (#[trigger] a.entries@[i]).0@ == b.entries@[i].0@,
    decreases n,
{
    if n > 0 {
        let k = n - 1;
        kinds_agree_up_to(a, b, rows, others, k);
        let x = a.entries@[k].0@;
        assert(count_kind(others, x) > 0);
        let m = choose|m: int| 0 <= m < b.entries@.len() && (#[trigger] b.entries@[m]).0@ == x;
        if m < k {
            assert(a.entries@[m].0@ == b.entries@[m].0@);
            before_is_one_way(a.entries@[m].0@, a.entries@[k].0@);
        }
        let y = b.entries@[k].0@;
        assert(count_kind(others, y) > 0);
        assert(count_kind(rows, y) > 0);
        let l = choose|l: int| 0 <= l < a.entries@.len() && (#[trigger] a.entries@[l]).0@ == y;
        if m > k {
            assert(before(y, x));
            if l < k {
                assert(a.entries@[l].0@ == b.entries@[l].0@);
                before_is_one_way(b.entries@[l].0@, b.entries@[k].0@);
            } else if l > k {
                assert(before(x, y));
                before_is_one_way(x, y);
            } else {
                before_is_one_way(y, x);
            }
        }
        assert(m == k);
    }
}

/// Turns with the same replies count the same: however the turns stand, the kinds
/// and their counts come out as one list in one order.
pub proof fn counts_of_the_same_replies_are_equal(
    a: KindCounts,
    b: KindCounts,
    rows: Seq<RowView>,
    others: Seq<RowView>,
)
    requires
        a.of(rows),
        b.of(others),
        forall|kind: Seq<char>| count_kind(rows, kind) == #[trigger] count_kind(others, kind),
    ensures
        counted(a) =~= counted(b),
{
    assert forall|kind: Seq<char>| count_kind(others, kind) == #[trigger] count_kind(rows, kind) by {
        assert(count_kind(rows, kind) == count_kind(others, kind));
    }
    kinds_agree_up_to(a, b, rows, others, a.entries@.len() as int);
    kinds_agree_up_to(b, a, others, rows, b.entries@.len() as int);
    assert forall|i: int| 0 <= i < a.entries@.len() implies counted(a)[i] == counted(b)[i] by {
        let x = a.entries@[i].0@;
        assert(a.entries@[i].0@ == b.entries@[i].0@);
        assert(count_kind(rows, x) == count_kind(others, x));
        assert(a.entries@[i].1 == count_kind(rows, x));
        assert(b.entries@[i].1 == count_kind(others, x));
    }
}

/// The users that the turns name.
pub open spec fn users_of(rows: Seq<RowView>) -> Set<Seq<char>>
    decreases rows.len(),
{
    if rows.len() == 0 {
        Set::empty()
    } else {
        match rows.last().end_user_id {
            Some(u) => users_of(rows.drop_last()).insert(u),
            None => users_of(rows.drop_last()),
        }
    }
}

fn count_users(rows: &[TurnRow]) -> (r: usize)
    ensures
        r == users_of(row_views(rows@)).len(),
        r <= rows@.len(),
{
    let ghost all = row_views(rows@);
    let mut seen: Vec<String> = Vec::new();
    let mut i: usize = 0;
    assert(texts(seen@).to_set() =~= Set::<Seq<char>>::empty());
    while i < rows.len()
        invariant
            i <= rows.len(),
            seen@.len() <= i,
            all == row_views(rows@),
            texts(seen@).no_duplicates(),
            texts(seen@).to_set() == users_of(all.take(i as int)),
        decreases rows.len() - i,
    {
        proof {
            take_next(all, i as int);
            assert(all[i as int] == rows@[i as int]@);
        }
        if let Some(id) = &rows[i].end_user_id {
            let ghost old_texts = texts(seen@);
            if !among(seen.as_slice(), id.as_str()) {
                seen.push(id.clone());
                proof {
                    assert(texts(seen@) =~= old_texts.push(id@));
                    seen_grows(old_texts, id@);
                }
            } else {
                proof {
                    let k = choose|k: int| 0 <= k < old_texts.len() && old_texts[k] == id@;
                    assert(old_texts.to_set().contains(old_texts[k]));
                    assert(old_texts.to_set().insert(id@) =~= old_texts.to_set());
                }
            }
        }
        i = i + 1;
    }
    proof {
        assert(all.take(all.len() as int) =~= all);
        texts(seen@).unique_seq_to_set();
    }
    seen.len()
}

proof fn seen_grows(s: Seq<Seq<char>>, x: Seq<char>)
    requires
        s.no_duplicates(),
        !s.contains(x),
    ensures
        s.push(x).no_duplicates(),
        s.push(x).to_set() =~= s.to_set().insert(x),
{
    let t = s.push(x);
    assert forall|y: Seq<char>| t.to_set().contains(y) <==> s.to_set().insert(x).contains(y) by {
        if t.to_set().contains(y) {
            let k = choose|k: int| 0 <= k < t.len() && t[k] == y;
            if k < s.len() {
                assert(s[k] == y);
                assert(s.to_set().contains(y));
            }
        }
        if s.to_set().contains(y) {
            let k = choose|k: int| 0 <= k < s.len() && s[k] == y;
            assert(t[k] == y);
        }
        if y == x {
            assert(t[s.len() as int] == y);
        }
    }
}

/// How the advisor was used.
#[derive(Debug, Clone, PartialEq, Eq)]
pub struct StatsSummary {
    pub days: u32,
    pub turn_count: u32,
    pub thread_count: u32,
    pub reply_kind_counts: KindCounts,
    pub unique_end_user_count: u32,
}

/// How the advisor was used in the given turns.
pub fn summarize_turns(days: u32, rows: &[TurnRow]) -> (r: StatsSummary)
    requires
        rows@.len() <= u32::MAX,
    ensures
        r.days == days,
        r.turn_count == rows@.len(),
        r.thread_count == cases_of(row_views(rows@)).len(),
        r.reply_kind_counts.of(row_views(rows@)),
        r.unique_end_user_count == users_of(row_views(rows@)).len(),
{
    let order = first_occurrence_index(rows);
    proof {
        no_more_cases_than_turns(row_views(rows@));
    }
    StatsSummary {
        days,
        turn_count: rows.len() as u32,
        thread_count: order.starts.len() as u32,
        reply_kind_counts: count_kinds(rows),
        unique_end_user_count: count_users(rows) as u32,
    }
}

proof fn no_more_cases_than_turns(rows: Seq<RowView>)
    ensures
        cases_of(rows).len() <= rows.len(),
    decreases rows.len(),
{
    if rows.len() > 0 {
        no_more_cases_than_turns(rows.drop_last());
    }
}

/// One turn as it is shown with its conversation.
#[derive(Debug, Clone, PartialEq, Eq)]
pub struct TurnView {
    pub turn_id: String,
    pub seq: u32,
    pub created_at: String,
    pub question: String,
    pub reply_text: String,
    pub reply_kind: String,
    pub audit_event_id: String,
    pub end_user_id: Option<String>,
}

/// The turn says the same without its case.
pub open spec fn shows_turn(v: TurnView, row: RowView) -> bool {
    &&& v.turn_id@ == row.turn_id
    &&& v.seq == row.seq
    &&& v.created_at@ == row.created_at
    &&& v.question@ == row.question
    &&& v.reply_text@ == row.reply_text
    &&& v.reply_kind@ == row.reply_kind
    &&& v.audit_event_id@ == row.audit_event_id
    &&& opt_text(v.end_user_id) == row.end_user_id
}

/// The turn without its case.
pub open spec fn turn_view_of(row: TurnRow) -> TurnView {
    TurnView {
        turn_id: row.turn_id,
        seq: row.seq,
        created_at: row.created_at,
        question: row.question,
        reply_text: row.reply_text,
        reply_kind: row.reply_kind,
        audit_event_id: row.audit_event_id,
        end_user_id: row.end_user_id,
    }
}

impl vstd::std_specs::convert::FromSpecImpl<TurnRow> for TurnView {
    open spec fn obeys_from_spec() -> bool {
        true
    }

    open spec fn from_spec(row: TurnRow) -> TurnView {
        turn_view_of(row)
    }
}

impl From<TurnRow> for TurnView {
    fn from(row: TurnRow) -> (r: TurnView) {
        TurnView {
            turn_id: row.turn_id,
            seq: row.seq,
            created_at: row.created_at,
            question: row.question,
            reply_text: row.reply_text,
            reply_kind: row.reply_kind,
            audit_event_id: row.audit_event_id,
            end_user_id: row.end_user_id,
        }
    }
}

/// `rows` with `row` put in by its number: behind everything with a number that
/// is not higher.
pub open spec fn put_by_seq(rows: Seq<RowView>, row: RowView) -> Seq<RowView>
    decreases rows.len(),
{
    if rows.len() == 0 || rows.last().seq <= row.seq {
        rows.push(row)
    } else {
        put_by_seq(rows.drop_last(), row).push(rows.last())
    }
}

/// `rows` in the order of their numbers; turns with one number keep their order.
pub open spec fn by_seq(rows: Seq<RowView>) -> Seq<RowView>
    decreases rows.len(),
{
    if rows.len() == 0 {
        rows
    } else {
        put_by_seq(by_seq(rows.drop_last()), rows.last())
    }
}

fn insert_by_seq(rows: &mut Vec<TurnRow>, row: TurnRow)
    ensures
        row_views(final(rows)@) == put_by_seq(row_views(old(rows)@), row@),
{
    let ghost before_call = row_views(rows@);
    let n: usize = rows.len();
    let mut i: usize = n;
    proof {
        assert(before_call.take(n as int) =~= before_call);
        assert(before_call.skip(n as int) =~= Seq::<RowView>::empty());
        assert(put_by_seq(before_call, row@) =~= put_by_seq(before_call.take(n as int), row@)
            + before_call.skip(n as int));
    }
    while i > 0 && rows[i - 1].seq > row.seq
        invariant
            i <= n == rows.len(),
            before_call == row_views(rows@),
            put_by_seq(before_call, row@) == put_by_seq(before_call.take(i as int), row@)
                + before_call.skip(i as int),
        decreases i,
    {
        proof {
            take_next(before_call, i - 1);
            let head = before_call.take(i - 1);
            assert(put_by_seq(head, row@).push(before_call[i - 1]) + before_call.skip(i as int)
                =~= put_by_seq(head, row@) + before_call.skip(i - 1));
        }
        i = i - 1;
    }
    proof {
        if i > 0 {
            take_next(before_call, i - 1);
        }
        assert(put_by_seq(before_call.take(i as int), row@) == before_call.take(i as int).push(
            row@,
        ));
    }
    let ghost v0 = row@;
    let ghost rows0 = rows@;
    rows.insert(i, row);
    assert(row_views(rows@) =~= before_call.take(i as int).push(v0) + before_call.skip(i as int)) by {
        assert(rows@ =~= rows0.insert(i as int, row));
    }
}

/// The turns as they are shown with their conversation, in the order of their
/// numbers. There are none where no node describes a turn.
pub fn thread_turns(list: &[AttrMap]) -> (r: Vec<TurnView>)
    ensures
        r@.len() == by_seq(rows_of(list@)).len(),
        forall|i: int| 0 <= i < r@.len() ==> shows_turn(#[trigger] r@[i], by_seq(rows_of(list@))[i]),
{
    let rows = rows_from_attrs(list);
    let ghost all = row_views(rows@);
    let mut sorted: Vec<TurnRow> = Vec::new();
    let mut i: usize = 0;
    assert(row_views(sorted@) =~= by_seq(all.take(0)));
    while i < rows.len()
        invariant
            i <= rows.len(),
            all == row_views(rows@),
            row_views(sorted@) == by_seq(all.take(i as int)),
        decreases rows.len() - i,
    {
        proof {
            take_next(all, i as int);
        }
        let row = rows[i].copied();
        insert_by_seq(&mut sorted, row);
        i = i + 1;
    }
    assert(all.take(all.len() as int) =~= all);
    let ghost target = by_seq(all);
    let mut r: Vec<TurnView> = Vec::new();
    i = 0;
    while i < sorted.len()
        invariant
            i <= sorted.len(),
            row_views(sorted@) == target,
            r@.len() == i,
            forall|j: int| 0 <= j < i ==> shows_turn(#[trigger] r@[j], target[j]),
        decreases sorted.len() - i,
    {
        assert(target[i as int] == sorted@[i as int]@);
        let row = sorted[i].copied();
        r.push(TurnView::from(row));
        i = i + 1;
    }
    r
}

/// The turns of a conversation are shown in the order of their numbers, each as
/// often as it is there.
pub proof fn by_seq_orders(rows: Seq<RowView>)
    ensures
        forall|i: int, j: int|
            0 <= i < j < by_seq(rows).len() ==> (#[trigger] by_seq(rows)[i]).seq <= (
            #[trigger] by_seq(rows)[j]).seq,
        by_seq(rows).to_multiset() =~= rows.to_multiset(),
    decreases rows.len(),
{
    broadcast use vstd::seq_lib::group_to_multiset_ensures;

    if rows.len() > 0 {
        by_seq_orders(rows.drop_last());
        put_by_seq_keeps_order(by_seq(rows.drop_last()), rows.last());
        assert(rows =~= rows.drop_last().push(rows.last()));
    }
}

proof fn put_by_seq_keeps_order(rows: Seq<RowView>, row: RowView)
    requires
        forall|i: int, j: int|
            0 <= i < j < rows.len() ==> (#[trigger] rows[i]).seq <= (#[trigger] rows[j]).seq,
    ensures
        forall|i: int, j: int|
            0 <= i < j < put_by_seq(rows, row).len() ==> (#[trigger] put_by_seq(rows, row)[i]).seq <= (
            #[trigger] put_by_seq(rows, row)[j]).seq,
        put_by_seq(rows, row).to_multiset() =~= rows.to_multiset().insert(row),
        forall|i: int|
            0 <= i < put_by_seq(rows, row).len() ==> (#[trigger] put_by_seq(rows, row)[i]).seq <= (
            if rows.len() > 0 && rows.last().seq > row.seq {
                rows.last().seq
            } else {
                row.seq
            }),
    decreases rows.len(),
{
    broadcast use vstd::seq_lib::group_to_multiset_ensures;

    if rows.len() == 0 || rows.last().seq <= row.seq {
        assert forall|i: int| 0 <= i < rows.len() implies (#[trigger] rows[i]).seq <= row.seq by {
            assert(rows[i].seq <= rows[rows.len() - 1].seq || i == rows.len() - 1);
        }
    } else {
        let head = rows.drop_last();
        let h = put_by_seq(head, row);
        assert forall|i: int, j: int| 0 <= i < j < head.len() implies (#[trigger] head[i]).seq <= (
        #[trigger] head[j]).seq by {
            assert(rows[i].seq <= rows[j].seq);
        }
        put_by_seq_keeps_order(head, row);
        assert(head.len() > 0 ==> head.last().seq <= rows.last().seq) by {
            if head.len() > 0 {
                assert(rows[head.len() - 1].seq <= rows[rows.len() - 1].seq);
            }
        }
        assert(rows =~= head.push(rows.last()));
        assert(h.push(rows.last()).to_multiset() =~= h.to_multiset().insert(rows.last()));
    }
}

/// The conversations come newest first.
pub open spec fn in_time_order(ss: Seq<SummaryView>) -> bool {
    forall|i: int, j: int|
        0 <= i < j < ss.len() ==> !before(
            (#[trigger] ss[i]).last_created_at,
            (#[trigger] ss[j]).last_created_at,
        )
}

proof fn put_newest_first_keeps_order(ss: Seq<SummaryView>, s: SummaryView)
    requires
        in_time_order(ss),
    ensures
        in_time_order(put_newest_first(ss, s)),
        put_newest_first(ss, s).to_multiset() =~= ss.to_multiset().insert(s),
        put_newest_first(ss, s).len() == ss.len() + 1,
    decreases ss.len(),
{
    broadcast use vstd::seq_lib::group_to_multiset_ensures;

    if ss.len() == 0 || !before(ss.last().last_created_at, s.last_created_at) {
        let r = ss.push(s);
        assert forall|i: int, j: int| 0 <= i < j < r.len() implies !before(
            (#[trigger] r[i]).last_created_at,
            (#[trigger] r[j]).last_created_at,
        ) by {
            if j == ss.len() && i < ss.len() - 1 {
                assert(!before(ss[i].last_created_at, ss[ss.len() - 1].last_created_at));
                not_before_chains(
                    ss[i].last_created_at,
                    ss.last().last_created_at,
                    s.last_created_at,
                );
            }
        }
    } else {
        let head = ss.drop_last();
        let l = ss.last();
        assert(in_time_order(head)) by {
            assert forall|i: int, j: int| 0 <= i < j < head.len() implies !before(
                (#[trigger] head[i]).last_created_at,
                (#[trigger] head[j]).last_created_at,
            ) by {
                assert(!before(ss[i].last_created_at, ss[j].last_created_at));
            }
        }
        put_newest_first_keeps_order(head, s);
        let h = put_newest_first(head, s);
        let r = h.push(l);
        before_is_one_way(l.last_created_at, s.last_created_at);
        assert forall|i: int, j: int| 0 <= i < j < r.len() implies !before(
            (#[trigger] r[i]).last_created_at,
            (#[trigger] r[j]).last_created_at,
        ) by {
            if j == h.len() {
                assert(h.contains(h[i]));
                assert(h.to_multiset().count(h[i]) > 0);
                if h[i] != s {
                    assert(head.to_multiset().count(h[i]) > 0);
                    assert(head.contains(h[i]));
                    let k = choose|k: int| 0 <= k < head.len() && head[k] == h[i];
                    assert(!before(ss[k].last_created_at, ss[ss.len() - 1].last_created_at));
                }
            } else {
                assert(!before(h[i].last_created_at, h[j].last_created_at));
            }
        }
        assert(ss =~= head.push(l));
        assert(r.to_multiset() =~= h.to_multiset().insert(l));
        assert(ss.to_multiset() =~= head.to_multiset().insert(l));
    }
}

/// The conversations of cases, in the order of the cases.
pub open spec fn summaries_of(rows: Seq<RowView>, cases: Seq<Seq<char>>) -> Seq<SummaryView> {
    cases.map_values(|c: Seq<char>| summary_of(c, turns_of(rows, c)))
}

proof fn newest_first_orders(rows: Seq<RowView>, cases: Seq<Seq<char>>)
    ensures
        in_time_order(newest_first(rows, cases)),
        newest_first(rows, cases).to_multiset() =~= summaries_of(rows, cases).to_multiset(),
        newest_first(rows, cases).len() == cases.len(),
    decreases cases.len(),
{
    broadcast use vstd::seq_lib::group_to_multiset_ensures;

    if cases.len() == 0 {
        assert(summaries_of(rows, cases) =~= newest_first(rows, cases));
    } else {
        let c = cases.last();
        let s = summary_of(c, turns_of(rows, c));
        newest_first_orders(rows, cases.drop_last());
        put_newest_first_keeps_order(newest_first(rows, cases.drop_last()), s);
        assert(summaries_of(rows, cases) =~= summaries_of(rows, cases.drop_last()).push(s));
    }
}

proof fn cases_are_distinct(rows: Seq<RowView>)
    ensures
        cases_of(rows).no_duplicates(),
        forall|a: int, b: int|
            0 <= a < b < cases_of(rows).len() ==> first_index(rows, #[trigger] cases_of(rows)[a])->0
                < first_index(rows, #[trigger] cases_of(rows)[b])->0,
        forall|a: int|
            0 <= a < cases_of(rows).len() ==> first_index(rows, #[trigger] cases_of(rows)[a]) is Some,
    decreases rows.len(),
{
    if rows.len() > 0 {
        let head = rows.drop_last();
        let last = rows.last().case_id;
        let rest = cases_of(head);
        let all = cases_of(rows);
        cases_are_distinct(head);
        cases_are_those_that_start(head, last);
        assert(rows =~= head.push(rows.last()));
        assert forall|a: int| 0 <= a < rest.len() implies first_index(rows, #[trigger] rest[a])
            == first_index(head, rest[a]) by {
            first_index_stays(head, rows.last(), rest[a]);
        }
        if first_index(head, last) is None {
            assert(first_index(rows, last) == Some(rows.len() - 1));
            assert forall|a: int| 0 <= a < rest.len() implies first_index(head, #[trigger] rest[a])->0
                < rows.len() - 1 by {
                first_index_fits(head, rest[a]);
            }
            assert forall|a: int, b: int| 0 <= a < b < all.len() implies first_index(
                rows,
                #[trigger] all[a],
            )->0 < first_index(rows, #[trigger] all[b])->0 by {
                assert(all[a] == rest[a]);
                if b < rest.len() {
                    assert(all[b] == rest[b]);
                }
            }
            assert(all.no_duplicates()) by {
                assert forall|a: int, b: int| 0 <= a < all.len() && 0 <= b < all.len() && a != b implies all[a]
                    != all[b] by {
                    if a < rest.len() && b < rest.len() {
                        assert(rest[a] != rest[b]);
                    } else if a < rest.len() {
                        assert(rest.contains(rest[a]));
                    } else {
                        assert(rest.contains(rest[b]));
                    }
                }
            }
            assert forall|a: int| 0 <= a < all.len() implies first_index(rows, #[trigger] all[a]) is Some by {
                if a < rest.len() {
                    assert(all[a] == rest[a]);
                }
            }
        } else {
            assert forall|a: int, b: int| 0 <= a < b < all.len() implies first_index(
                rows,
                #[trigger] all[a],
            )->0 < first_index(rows, #[trigger] all[b])->0 by {
                assert(all[a] == rest[a] && all[b] == rest[b]);
            }
            assert forall|a: int| 0 <= a < all.len() implies first_index(rows, #[trigger] all[a]) is Some by {
                assert(all[a] == rest[a]);
            }
        }
    }
}

/// The list of conversations has each case of the turns just once, with all its
/// turns counted, and comes newest first.
pub proof fn threads_have_each_case_once(rows: Seq<RowView>)
    ensures
        in_time_order(threads_of(rows)),
        threads_of(rows).to_multiset() =~= summaries_of(rows, cases_of(rows)).to_multiset(),
        threads_of(rows).len() == cases_of(rows).len(),
        cases_of(rows).no_duplicates(),
        forall|i: int|
            0 <= i < rows.len() ==> cases_of(rows).contains((#[trigger] rows[i]).case_id),
{
    newest_first_orders(rows, cases_of(rows));
    cases_are_distinct(rows);
    assert forall|i: int| 0 <= i < rows.len() implies cases_of(rows).contains(
        (#[trigger] rows[i]).case_id,
    ) by {
        cases_are_those_that_start(rows, rows[i].case_id);
        first_index_fits(rows, rows[i].case_id);
    }
}

/// The turns come newest first.
pub open spec fn rows_in_time_order(rows: Seq<RowView>) -> bool {
    forall|i: int, j: int|
        0 <= i < j < rows.len() ==> !before(
            (#[trigger] rows[i]).created_at,
            (#[trigger] rows[j]).created_at,
        )
}

proof fn latest_is_first(rows: Seq<RowView>, case_id: Seq<char>)
    requires
        rows_in_time_order(rows),
        first_index(rows, case_id) is Some,
    ensures
        latest(turns_of(rows, case_id)) is Some,
        (latest(turns_of(rows, case_id))->0).created_at == rows[first_index(
            rows,
            case_id,
        )->0].created_at,
    decreases rows.len(),
{
    let head = rows.drop_last();
    let last = rows.last();
    assert(rows_in_time_order(head)) by {
        assert forall|i: int, j: int| 0 <= i < j < head.len() implies !before(
            (#[trigger] head[i]).created_at,
            (#[trigger] head[j]).created_at,
        ) by {
            assert(!before(rows[i].created_at, rows[j].created_at));
        }
    }
    starting_cases_have_turns(head, case_id);
    first_index_fits(head, case_id);
    if first_index(head, case_id) is Some {
        latest_is_first(head, case_id);
        let f = first_index(head, case_id)->0;
        if last.case_id == case_id {
            let turns = turns_of(head, case_id);
            assert(turns.push(last).drop_last() =~= turns);
            let m = latest(turns)->0;
            assert(!before(rows[f].created_at, rows[rows.len() - 1].created_at));
            if !before(last.created_at, m.created_at) {
                neither_before_is_same(last.created_at, m.created_at);
            }
        }
    } else {
        let turns = turns_of(head, case_id);
        assert(turns.len() == 0);
        assert(turns.push(last).drop_last() =~= turns);
        assert(latest(turns) is None);
    }
}

proof fn order_of_starts_is_order_of_time(rows: Seq<RowView>, k: int)
    requires
        rows_in_time_order(rows),
        0 <= k <= cases_of(rows).len(),
    ensures
        newest_first(rows, cases_of(rows).take(k)) =~= summaries_of(rows, cases_of(rows).take(k)),
    decreases k,
{
    let cases = cases_of(rows);
    if k > 0 {
        take_next(cases, k - 1);
        order_of_starts_is_order_of_time(rows, k - 1);
        cases_are_distinct(rows);
        let c = cases[k - 1];
        let s = summary_of(c, turns_of(rows, c));
        let prev = newest_first(rows, cases.take(k - 1));
        if k > 1 {
            let p = cases[k - 2];
            assert(prev.last() == summary_of(p, turns_of(rows, p)));
            latest_is_first(rows, c);
            latest_is_first(rows, p);
            first_index_fits(rows, c);
            first_index_fits(rows, p);
            let a = first_index(rows, p)->0;
            let b = first_index(rows, c)->0;
            assert(a < b);
            assert(!before(rows[a].created_at, rows[b].created_at));
        }
        assert(summaries_of(rows, cases.take(k)) =~= summaries_of(rows, cases.take(k - 1)).push(s));
    }
}

proof fn last_start_is_below(kept: Seq<SummaryView>, nodes: Seq<Option<RowView>>, bound: int)
    requires
        forall|i: int|
            0 <= i < kept.len() && first_place(nodes, (#[trigger] kept[i]).case_id) is Some
                ==> first_place(nodes, kept[i].case_id)->0 < bound,
    ensures
        last_start(kept, nodes) is Some ==> last_start(kept, nodes)->0 < bound,
    decreases kept.len(),
{
    if kept.len() > 0 {
        let head = kept.drop_last();
        assert forall|i: int|
            0 <= i < head.len() && first_place(nodes, (#[trigger] head[i]).case_id) is Some implies first_place(
            nodes,
            head[i].case_id,
        )->0 < bound by {
            assert(head[i] == kept[i]);
        }
        last_start_is_below(head, nodes, bound);
        assert(kept[kept.len() - 1] == kept.last());
    }
}

/// No conversation is lost between pages. Where the turns come newest first,
/// each conversation of the fetched nodes is on the page, or all its turns stand
/// at or behind the offset at which the next page starts.
pub proof fn no_thread_is_lost(
    nodes: Seq<Option<RowView>>,
    limit: int,
    initial_offset: int,
    source_exhausted: bool,
    i: int,
)
    requires
        rows_in_time_order(described(nodes)),
        limit > 0,
        0 <= i < nodes.len(),
        nodes[i] is Some,
    ensures
        ({
            let (page, next) = page_of(
                threads_of(described(nodes)),
                limit,
                nodes,
                initial_offset,
                source_exhausted,
            );
            ||| on_page(page, (nodes[i]->0).case_id)
            ||| next is Some && initial_offset + i >= next->0
        }),
{
    let rows = described(nodes);
    let cases = cases_of(rows);
    let threads = threads_of(rows);
    let (page, next) = page_of(threads, limit, nodes, initial_offset, source_exhausted);
    let c = (nodes[i]->0).case_id;
    order_of_starts_is_order_of_time(rows, cases.len() as int);
    assert(cases.take(cases.len() as int) =~= cases);
    threads_have_each_case_once(rows);
    cases_are_distinct(rows);
    places_fit(nodes);
    first_place_fits(nodes, c);
    place_of_a_start(nodes, c);
    cases_are_those_that_start(rows, c);
    let k = choose|k: int| 0 <= k < cases.len() && cases[k] == c;
    assert(threads[k].case_id == c);
    if k < page.len() {
        assert(page[k].case_id == c);
    } else {
        let kept = threads.take(limit);
        let start = first_place(nodes, c)->0;
        assert(start <= i);
        assert forall|j: int|
            0 <= j < kept.len() && first_place(nodes, (#[trigger] kept[j]).case_id) is Some implies first_place(
            nodes,
            kept[j].case_id,
        )->0 < start by {
            assert(kept[j].case_id == cases[j]);
            assert(first_index(rows, cases[j])->0 < first_index(rows, cases[k])->0);
            place_of_a_start(nodes, cases[j]);
        }
        last_start_is_below(kept, nodes, start);
        assert(last_start(kept, nodes) is Some) by {
            assert(kept.last() == kept[limit - 1]);
            assert(kept[limit - 1].case_id == cases[limit - 1]);
            place_of_a_start(nodes, cases[limit - 1]);
        }
    }
}

/// A page without a cursor is the last one: the nodes have run out, and every
/// conversation is on the page.
pub proof fn no_cursor_means_the_end(
    nodes: Seq<Option<RowView>>,
    limit: int,
    initial_offset: int,
    source_exhausted: bool,
)
    requires
        limit > 0,
        page_of(
            threads_of(described(nodes)),
            limit,
            nodes,
            initial_offset,
            source_exhausted,
        ).1 is None,
    ensures
        source_exhausted,
        page_of(
            threads_of(described(nodes)),
            limit,
            nodes,
            initial_offset,
            source_exhausted,
        ).0 == threads_of(described(nodes)),
{
    let rows = described(nodes);
    let threads = threads_of(rows);
    if threads.len() > limit {
        let kept = threads.take(limit);
        threads_have_each_case_once(rows);
        kept_threads_start(rows, limit - 1);
        place_of_a_start(nodes, threads[limit - 1].case_id);
        assert(kept.last() == threads[limit - 1]);
    }
}

proof fn kept_threads_start(rows: Seq<RowView>, k: int)
    requires
        0 <= k < threads_of(rows).len(),
    ensures
        first_index(rows, threads_of(rows)[k].case_id) is Some,
{
    broadcast use vstd::seq_lib::group_to_multiset_ensures;

    let cases = cases_of(rows);
    let threads = threads_of(rows);
    newest_first_orders(rows, cases);
    cases_are_distinct(rows);
    let all = summaries_of(rows, cases);
    assert(threads.contains(threads[k]));
    assert(threads.to_multiset().count(threads[k]) > 0);
    assert(all.to_multiset().count(threads[k]) > 0);
    assert(all.contains(threads[k]));
    let j = choose|j: int| 0 <= j < all.len() && all[j] == threads[k];
    assert(all[j].case_id == cases[j]);
}

/// A cursor always leads onward: the next page starts behind the one it follows,
/// as long as a fetch that was not the last brought any nodes.
pub proof fn cursors_lead_onward(
    nodes: Seq<Option<RowView>>,
    limit: int,
    initial_offset: int,
    source_exhausted: bool,
)
    requires
        !source_exhausted ==> nodes.len() > 0,
    ensures
        ({
            let next = page_of(
                threads_of(described(nodes)),
                limit,
                nodes,
                initial_offset,
                source_exhausted,
            ).1;
            next is Some ==> initial_offset < next->0 <= initial_offset + nodes.len()
        }),
{
    let threads = threads_of(described(nodes));
    if threads.len() > limit {
        last_start_fits(threads.take(limit), nodes);
    }
}

proof fn last_start_fits(kept: Seq<SummaryView>, nodes: Seq<Option<RowView>>)
    ensures
        last_start(kept, nodes) is Some ==> 0 <= last_start(kept, nodes)->0 < nodes.len(),
    decreases kept.len(),
{
    if kept.len() > 0 {
        last_start_fits(kept.drop_last(), nodes);
        first_place_fits(nodes, kept.last().case_id);
    }
}

/// The nodes that a fetch at the given offset brings: as many as are asked for,
/// or all that are left.
pub open spec fn fetch_at(source: Seq<Option<RowView>>, offset: int) -> Seq<Option<RowView>> {
    if offset + THREADS_FETCH_PAGE_SIZE <= source.len() {
        source.subrange(offset, offset + THREADS_FETCH_PAGE_SIZE)
    } else {
        source.skip(offset)
    }
}

/// The page in the making once all fetches for it are done.
pub open spec fn walk_end(source: Seq<Option<RowView>>, w: WalkView) -> WalkView
    decreases MAX_INTERNAL_FETCH_ROUNDS - w.rounds,
{
    if w.open && w.rounds < MAX_INTERNAL_FETCH_ROUNDS {
        walk_end(source, walk_step(w, fetch_at(source, w.initial_offset + w.nodes.len())))
    } else {
        w
    }
}

/// The page that starts at the given offset, and the offset at which the next
/// one starts.
pub open spec fn page_at(source: Seq<Option<RowView>>, limit: usize, offset: int) -> (
    Seq<SummaryView>,
    Option<int>,
) {
    let w = walk_end(source, walk_start(limit, offset as i32));
    page_of(threads_of(described(w.nodes)), limit as int, w.nodes, offset, w.source_exhausted)
}

/// The page has a conversation with the given case.
pub open spec fn on_page(page: Seq<SummaryView>, case_id: Seq<char>) -> bool {
    exists|k: int| 0 <= k < page.len() && (#[trigger] page[k]).case_id == case_id
}

/// The case is on the page that starts at the given offset, or on one that is
/// come to from there by following cursors.
pub open spec fn reached_from(
    source: Seq<Option<RowView>>,
    limit: usize,
    offset: int,
    case_id: Seq<char>,
) -> bool
    decreases source.len() - offset,
{
    let (page, next) = page_at(source, limit, offset);
    ||| on_page(page, case_id)
    ||| next is Some && offset < next->0 <= source.len() && reached_from(
        source,
        limit,
        next->0,
        case_id,
    )
}

/// The fetched nodes are those of the source from the offset on, and the page
/// knows when there are no more.
spec fn walk_follows(source: Seq<Option<RowView>>, w: WalkView) -> bool {
    let end = w.initial_offset + w.nodes.len();
    &&& 0 <= w.initial_offset <= end <= source.len()
    &&& w.nodes == source.subrange(w.initial_offset as int, end)
    &&& w.source_exhausted ==> end == source.len()
    &&& !w.source_exhausted ==> w.rounds == 0 || w.nodes.len() > 0
}

proof fn walk_end_follows(source: Seq<Option<RowView>>, w: WalkView)
    requires
        walk_follows(source, w),
        0 <= w.rounds <= MAX_INTERNAL_FETCH_ROUNDS,
        w.rounds == 0 ==> w.open,
    ensures
        walk_follows(source, walk_end(source, w)),
        walk_end(source, w).rounds > 0,
        walk_end(source, w).initial_offset == w.initial_offset,
    decreases MAX_INTERNAL_FETCH_ROUNDS - w.rounds,
{
    if w.open && w.rounds < MAX_INTERNAL_FETCH_ROUNDS {
        let end = w.initial_offset + w.nodes.len();
        let more = fetch_at(source, end);
        let next = walk_step(w, more);
        assert(next.nodes =~= source.subrange(w.initial_offset as int, end + more.len()));
        walk_end_follows(source, next);
    }
}

/// The nodes that a page at the offset was made of: those of the source from the
/// offset on.
proof fn page_nodes(source: Seq<Option<RowView>>, limit: usize, offset: int) -> (w: WalkView)
    requires
        source.len() <= i32::MAX,
        0 <= offset <= source.len(),
    ensures
        w == walk_end(source, walk_start(limit, offset as i32)),
        walk_follows(source, w),
        w.rounds > 0,
        w.initial_offset == offset,
        page_at(source, limit, offset).1 is Some ==> offset < page_at(source, limit, offset).1->0
            <= offset + w.nodes.len(),
{
    let start = walk_start(limit, offset as i32);
    let w = walk_end(source, start);
    assert(start.nodes =~= source.subrange(offset, offset));
    walk_end_follows(source, start);
    cursors_lead_onward(w.nodes, limit as int, offset, w.source_exhausted);
    w
}

proof fn described_parts(a: Seq<Option<RowView>>, b: Seq<Option<RowView>>)
    ensures
        described(a + b) =~= described(a) + described(b),
    decreases b.len(),
{
    if b.len() == 0 {
        assert(a + b =~= a);
    } else {
        described_parts(a, b.drop_last());
        assert((a + b).drop_last() =~= a + b.drop_last());
    }
}

proof fn parts_keep_time_order(a: Seq<RowView>, b: Seq<RowView>, c: Seq<RowView>)
    requires
        rows_in_time_order(a + b + c),
    ensures
        rows_in_time_order(b),
{
    let all = a + b + c;
    assert forall|i: int, j: int| 0 <= i < j < b.len() implies !before(
        (#[trigger] b[i]).created_at,
        (#[trigger] b[j]).created_at,
    ) by {
        assert(!before(all[a.len() + i].created_at, all[a.len() + j].created_at));
    }
}

proof fn window_keeps_time_order(source: Seq<Option<RowView>>, from: int, to: int)
    requires
        rows_in_time_order(described(source)),
        0 <= from <= to <= source.len(),
    ensures
        rows_in_time_order(described(source.subrange(from, to))),
{
    let a = source.take(from);
    let b = source.subrange(from, to);
    let c = source.skip(to);
    described_parts(a, b);
    described_parts(a + b, c);
    assert(a + b + c =~= source);
    parts_keep_time_order(described(a), described(b), described(c));
}

/// Every conversation is come to by following cursors: where the turns come
/// newest first, the case of a turn at or behind an offset is on the page that
/// starts there or on one of those that follow.
pub proof fn every_thread_is_reached(
    source: Seq<Option<RowView>>,
    limit: usize,
    offset: int,
    i: int,
)
    requires
        rows_in_time_order(described(source)),
        source.len() <= i32::MAX,
        limit > 0,
        0 <= offset <= i < source.len(),
        source[i] is Some,
    ensures
        reached_from(source, limit, offset, (source[i]->0).case_id),
    decreases source.len() - offset,
{
    let w = page_nodes(source, limit, offset);
    let (page, next) = page_at(source, limit, offset);
    window_keeps_time_order(source, offset, offset + w.nodes.len());
    if i < offset + w.nodes.len() {
        assert(w.nodes[i - offset] == source[i]);
        no_thread_is_lost(w.nodes, limit as int, offset, w.source_exhausted, i - offset);
    } else if next is None {
        no_cursor_means_the_end(w.nodes, limit as int, offset, w.source_exhausted);
    }
    if !on_page(page, (source[i]->0).case_id) {
        every_thread_is_reached(source, limit, next->0, i);
    }
}

/// Following cursors from the given offset comes to an end: each page is the last
/// one, or its cursor leads onward to a page from which the end is come to.
pub open spec fn pages_end(source: Seq<Option<RowView>>, limit: usize, offset: int) -> bool
    decreases source.len() - offset,
{
    let next = page_at(source, limit, offset).1;
    ||| next is None
    ||| offset < next->0 <= source.len() && pages_end(source, limit, next->0)
}

/// The conversations on the page that starts at the given offset, and on those
/// that follow it, page after page.
pub open spec fn listed_from(source: Seq<Option<RowView>>, limit: usize, offset: int) -> Seq<
    SummaryView,
>
    decreases source.len() - offset,
{
    let (page, next) = page_at(source, limit, offset);
    if next is Some && offset < next->0 <= source.len() {
        page + listed_from(source, limit, next->0)
    } else {
        page
    }
}

/// The cases of conversations, in their order.
pub open spec fn listed_cases(page: Seq<SummaryView>) -> Seq<Seq<char>> {
    page.map_values(|s: SummaryView| s.case_id)
}

/// The cases of turns, turn by turn.
pub open spec fn turn_cases(rows: Seq<RowView>) -> Seq<Seq<char>> {
    rows.map_values(|row: RowView| row.case_id)
}

/// Following cursors always comes to an end.
pub proof fn cursors_come_to_an_end(source: Seq<Option<RowView>>, limit: usize, offset: int)
    requires
        source.len() <= i32::MAX,
        0 <= offset <= source.len(),
    ensures
        pages_end(source, limit, offset),
    decreases source.len() - offset,
{
    let w = page_nodes(source, limit, offset);
    let next = page_at(source, limit, offset).1;
    if next is Some {
        cursors_come_to_an_end(source, limit, next->0);
    }
}

proof fn single_turns_start_themselves(rows: Seq<RowView>)
    requires
        turn_cases(rows).no_duplicates(),
    ensures
        cases_of(rows) =~= turn_cases(rows),
        forall|k: int|
            0 <= k < rows.len() ==> first_index(rows, (#[trigger] rows[k]).case_id) == Some(k),
    decreases rows.len(),
{
    let cases = turn_cases(rows);
    assert forall|k: int| 0 <= k < rows.len() implies first_index(
        rows,
        (#[trigger] rows[k]).case_id,
    ) == Some(k) by {
        let c = rows[k].case_id;
        first_index_fits(rows, c);
        let f = first_index(rows, c)->0;
        assert(cases[f] == cases[k]);
    }
    if rows.len() > 0 {
        let head = rows.drop_last();
        assert(turn_cases(head) =~= cases.drop_last());
        single_turns_start_themselves(head);
        first_index_fits(head, rows.last().case_id);
        if first_index(head, rows.last().case_id) is Some {
            let f = first_index(head, rows.last().case_id)->0;
            assert(cases[f] == cases[rows.len() - 1]);
        }
    }
}

proof fn described_up_to(nodes: Seq<Option<RowView>>, k: int)
    requires
        0 <= k < places_of(nodes).len(),
    ensures
        described(nodes.take(places_of(nodes)[k] + 1)) =~= described(nodes).take(k + 1),
    decreases nodes.len(),
{
    let head = nodes.drop_last();
    places_fit(nodes);
    places_fit(head);
    let p = places_of(nodes)[k];
    if p == nodes.len() - 1 {
        assert(nodes.take(p + 1) =~= nodes);
        if k < places_of(head).len() {
            assert(places_of(nodes)[k] == places_of(head)[k]);
        }
    } else {
        described_up_to(head, k);
        assert(head.take(p + 1) =~= nodes.take(p + 1));
    }
}

/// The last start of the first conversations, where every turn has a case of its
/// own: the place of the last of their turns.
proof fn last_start_of_single_turns(
    kept: Seq<SummaryView>,
    nodes: Seq<Option<RowView>>,
)
    requires
        turn_cases(described(nodes)).no_duplicates(),
        0 < kept.len() <= described(nodes).len(),
        forall|k: int|
            0 <= k < kept.len() ==> (#[trigger] kept[k]).case_id == described(nodes)[k].case_id,
    ensures
        last_start(kept, nodes) == Some(places_of(nodes)[kept.len() - 1]),
    decreases kept.len(),
{
    let rows = described(nodes);
    let head = kept.drop_last();
    let k = kept.len() - 1;
    places_fit(nodes);
    single_turns_start_themselves(rows);
    assert(kept[k].case_id == rows[k].case_id);
    place_of_a_start(nodes, rows[k].case_id);
    if head.len() > 0 {
        assert forall|j: int| 0 <= j < head.len() implies (#[trigger] head[j]).case_id
            == rows[j].case_id by {
            assert(head[j] == kept[j]);
        }
        last_start_of_single_turns(head, nodes);
        assert(places_of(nodes)[k - 1] < places_of(nodes)[k]);
    }
}

/// One page of turns that each have a case of their own: it lists the cases of
/// the turns before the next page, in their order.
proof fn page_of_single_turns(
    nodes: Seq<Option<RowView>>,
    limit: int,
    initial_offset: int,
    source_exhausted: bool,
)
    requires
        turn_cases(described(nodes)).no_duplicates(),
        rows_in_time_order(described(nodes)),
        limit > 0,
    ensures
        ({
            let (page, next) = page_of(
                threads_of(described(nodes)),
                limit,
                nodes,
                initial_offset,
                source_exhausted,
            );
            match next {
                Some(n) => {
                    &&& 0 <= n - initial_offset <= nodes.len()
                    &&& listed_cases(page) =~= turn_cases(described(nodes.take(n - initial_offset)))
                },
                None => source_exhausted && listed_cases(page) =~= turn_cases(described(nodes)),
            }
        }),
{
    let rows = described(nodes);
    let cases = cases_of(rows);
    let threads = threads_of(rows);
    single_turns_start_themselves(rows);
    order_of_starts_is_order_of_time(rows, cases.len() as int);
    assert(cases.take(cases.len() as int) =~= cases);
    assert(listed_cases(threads) =~= turn_cases(rows));
    assert forall|k: int| 0 <= k < threads.len() implies (#[trigger] threads[k]).case_id
        == rows[k].case_id by {
        assert(listed_cases(threads)[k] == turn_cases(rows)[k]);
    }
    if threads.len() > limit {
        let kept = threads.take(limit);
        assert forall|k: int| 0 <= k < kept.len() implies (#[trigger] kept[k]).case_id
            == rows[k].case_id by {
            assert(kept[k] == threads[k]);
        }
        places_fit(nodes);
        last_start_of_single_turns(kept, nodes);
        described_up_to(nodes, limit - 1);
    } else {
        assert(nodes.take(nodes.len() as int) =~= nodes);
    }
}

/// Where each case has one turn and the turns come newest first, also where they
/// are of one time, following cursors lists each case exactly once: the pages come
/// to an end, and together they list the cases of the turns in their order.
pub proof fn pages_list_each_case_once(
    source: Seq<Option<RowView>>,
    limit: usize,
    offset: int,
)
    requires
        turn_cases(described(source)).no_duplicates(),
        rows_in_time_order(described(source)),
        source.len() <= i32::MAX,
        limit > 0,
        0 <= offset <= source.len(),
    ensures
        pages_end(source, limit, offset),
        listed_cases(listed_from(source, limit, offset)) =~= turn_cases(
            described(source.skip(offset)),
        ),
        listed_cases(listed_from(source, limit, offset)).no_duplicates(),
    decreases source.len() - offset,
{
    cursors_come_to_an_end(source, limit, offset);
    let w = page_nodes(source, limit, offset);
    let (page, next) = page_at(source, limit, offset);
    window_keeps_time_order(source, offset, offset + w.nodes.len());
    window_keeps_single_turns(source, offset, offset + w.nodes.len());
    window_keeps_single_turns(source, offset, source.len() as int);
    assert(source.subrange(offset, source.len() as int) =~= source.skip(offset));
    page_of_single_turns(w.nodes, limit as int, offset, w.source_exhausted);
    if next is Some {
        let n = next->0;
        pages_list_each_case_once(source, limit, n);
        assert(source.skip(offset) =~= w.nodes.take(n - offset) + source.skip(n));
        described_parts(w.nodes.take(n - offset), source.skip(n));
        assert(listed_cases(page + listed_from(source, limit, n)) =~= listed_cases(page)
            + listed_cases(listed_from(source, limit, n)));
    } else {
        assert(w.nodes =~= source.skip(offset));
    }
    let listed = listed_cases(listed_from(source, limit, offset));
    let there = turn_cases(described(source.skip(offset)));
    assert(there.no_duplicates());
    assert(listed =~= there);
    assert(listed == there);
}

proof fn window_keeps_single_turns(source: Seq<Option<RowView>>, from: int, to: int)
    requires
        turn_cases(described(source)).no_duplicates(),
        0 <= from <= to <= source.len(),
    ensures
        turn_cases(described(source.subrange(from, to))).no_duplicates(),
{
    let a = source.take(from);
    let b = source.subrange(from, to);
    let c = source.skip(to);
    described_parts(a, b);
    described_parts(a + b, c);
    assert(a + b + c =~= source);
    let all = turn_cases(described(source));
    let part = turn_cases(described(b));
    assert forall|i: int, j: int| 0 <= i < part.len() && 0 <= j < part.len() && i != j implies part[i]
        != part[j] by {
        assert(all[described(a).len() + i] == part[i]);
        assert(all[described(a).len() + j] == part[j]);
    }
}

/// The nine names under which a turn is kept.
pub open spec fn row_names() -> Seq<Seq<char>> {
    seq![
        "case_id"@,
        "turn_id"@,
        "seq"@,
        "created_at"@,
        "question"@,
        "reply_text"@,
        "reply_kind"@,
        "audit_event_id"@,
        "end_user_id"@,
    ]
}

proof fn row_names_differ()
    ensures
        row_names().no_duplicates(),
        "case_id"@ == row_names()[0],
        "turn_id"@ == row_names()[1],
        "seq"@ == row_names()[2],
        "created_at"@ == row_names()[3],
        "question"@ == row_names()[4],
        "reply_text"@ == row_names()[5],
        "reply_kind"@ == row_names()[6],
        "audit_event_id"@ == row_names()[7],
        "end_user_id"@ == row_names()[8],
{
    reveal_strlit("case_id");
    reveal_strlit("turn_id");
    reveal_strlit("seq");
    reveal_strlit("created_at");
    reveal_strlit("question");
    reveal_strlit("reply_text");
    reveal_strlit("reply_kind");
    reveal_strlit("audit_event_id");
    reveal_strlit("end_user_id");
    assert("case_id"@.len() == 7 && "case_id"@[0] == 'c');
    assert("turn_id"@.len() == 7 && "turn_id"@[0] == 't');
    assert("seq"@.len() == 3);
    assert("created_at"@.len() == 10 && "created_at"@[0] == 'c');
    assert("question"@.len() == 8);
    assert("reply_text"@.len() == 10 && "reply_text"@[0] == 'r' && "reply_text"@[6] == 't');
    assert("reply_kind"@.len() == 10 && "reply_kind"@[0] == 'r' && "reply_kind"@[6] == 'k');
    assert("audit_event_id"@.len() == 14);
    assert("end_user_id"@.len() == 11);
}

/// A turn carries, in each field, the value of the attribute of that field's own
/// name: writing one attribute of a readable node changes just that field.
pub proof fn each_attribute_fills_its_own_field(
    attrs: Map<Seq<char>, Seq<char>>,
    value: Seq<char>,
)
    requires
        row_of(attrs) is Some,
    ensures
        ({
            let row = row_of(attrs)->0;
            &&& row_of(attrs.insert("case_id"@, value)) == Some((RowView { case_id: value, ..row }))
            &&& row_of(attrs.insert("turn_id"@, value)) == Some((RowView { turn_id: value, ..row }))
            &&& row_of(attrs.insert("created_at"@, value)) == Some(
                (RowView { created_at: value, ..row }),
            )
            &&& row_of(attrs.insert("question"@, value)) == Some((RowView { question: value, ..row }))
            &&& row_of(attrs.insert("reply_text"@, value)) == Some(
                (RowView { reply_text: value, ..row }),
            )
            &&& row_of(attrs.insert("reply_kind"@, value)) == Some(
                (RowView { reply_kind: value, ..row }),
            )
            &&& row_of(attrs.insert("audit_event_id"@, value)) == Some(
                (RowView { audit_event_id: value, ..row }),
            )
            &&& row_of(attrs.insert("end_user_id"@, value)) == Some(
                (RowView {
                    end_user_id: if value.len() > 0 {
                        Some(value)
                    } else {
                        None
                    },
                    ..row
                }),
            )
        }),
{
    row_names_differ();
    let names = row_names();
    assert forall|i: int, j: int| 0 <= i < names.len() && 0 <= j < names.len() && i != j implies names[i]
        != names[j] by {}
}

/// The number of a turn is what the attribute for it stands for: a number up to
/// the most that fits is read as it is, and anything else is zero. Nothing else
/// of the turn depends on it.
pub proof fn numbers_of_turns_are_read(attrs: Map<Seq<char>, Seq<char>>, n: u32, junk: Seq<char>)
    requires
        row_of(attrs) is Some,
        junk.len() == 0 || !is_digit(junk.last()),
    ensures
        row_of(attrs.insert("seq"@, decimal(n as nat))) == Some(
            (RowView { seq: n, ..row_of(attrs)->0 }),
        ),
        row_of(attrs.insert("seq"@, junk)) == Some((RowView { seq: 0, ..row_of(attrs)->0 })),
{
    row_names_differ();
    let names = row_names();
    assert forall|i: int, j: int| 0 <= i < names.len() && 0 <= j < names.len() && i != j implies names[i]
        != names[j] by {}
    decimal_reads_back(n as nat);
    decimal_has_no_sign(n as nat);
    assert(unsigned_value(junk) is None) by {
        if junk.len() > 0 && junk[0] == '+' && junk.len() > 1 {
            assert(junk.drop_first().last() == junk.last());
        }
    }
}

proof fn decimal_has_no_sign(n: nat)
    ensures
        decimal(n).len() > 0,
        is_digit(decimal(n)[0]),
        decimal(n)[0] != '+',
    decreases n,
{
    if n >= 10 {
        decimal_has_no_sign(n / 10);
    } else {
        assert(decimal(n) =~= seq![digit(n)]);
    }
}

/// A node describes a turn just where its case, its turn and its time are there;
/// what else is missing is empty, zero or nobody.
pub proof fn three_attributes_make_a_turn(attrs: Map<Seq<char>, Seq<char>>)
    ensures
        row_of(attrs) is Some <==> attrs.contains_key("case_id"@) && attrs.contains_key("turn_id"@)
            && attrs.contains_key("created_at"@),
        row_of(attrs) is Some ==> ({
            let row = row_of(attrs)->0;
            &&& row.case_id == attrs["case_id"@]
            &&& row.turn_id == attrs["turn_id"@]
            &&& row.created_at == attrs["created_at"@]
            &&& !attrs.contains_key("question"@) ==> row.question.len() == 0
            &&& !attrs.contains_key("reply_text"@) ==> row.reply_text.len() == 0
            &&& !attrs.contains_key("reply_kind"@) ==> row.reply_kind.len() == 0
            &&& !attrs.contains_key("audit_event_id"@) ==> row.audit_event_id.len() == 0
            &&& !attrs.contains_key("seq"@) ==> row.seq == 0
            &&& !attrs.contains_key("end_user_id"@) ==> row.end_user_id is None
        }),
{
}

/// A turn is shown with each part in its place: what was asked as what was asked,
/// and what was replied as what was replied.
pub proof fn turns_are_shown_part_by_part(v: TurnView, row: RowView)
    requires
        shows_turn(v, row),
    ensures
        v.turn_id@ == row.turn_id,
        v.seq == row.seq,
        v.created_at@ == row.created_at,
        v.question@ == row.question,
        v.reply_text@ == row.reply_text,
        v.reply_kind@ == row.reply_kind,
        v.audit_event_id@ == row.audit_event_id,
        match row.end_user_id {
            Some(user) => v.end_user_id is Some && (v.end_user_id->0)@ == user,
            None => v.end_user_id is None,
        },
{
}

/// The turns that nodes describe come node by node: those of the first nodes, then
/// those of the rest, and a single node gives its turn, if it describes one.
pub proof fn turns_come_node_by_node(a: Seq<Option<RowView>>, b: Seq<Option<RowView>>, row: RowView)
    ensures
        described(a + b) =~= described(a) + described(b),
        described(seq![Some(row)]) =~= seq![row],
        described(seq![None]) =~= Seq::<RowView>::empty(),
{
    described_parts(a, b);
    reveal_with_fuel(described, 2);
    assert(seq![Some(row)].drop_last() =~= Seq::empty());
    assert(seq![None::<RowView>].drop_last() =~= Seq::empty());
}

/// The turns of a case are all turns with that case, in their order.
pub proof fn turns_of_a_case_are_all_of_them(rows: Seq<RowView>, case_id: Seq<char>)
    ensures
        turns_of(rows, case_id) =~= rows.filter(|row: RowView| row.case_id == case_id),
    decreases rows.len(),
{
    reveal(Seq::filter);
    if rows.len() > 0 {
        turns_of_a_case_are_all_of_them(rows.drop_last(), case_id);
    }
}

/// The latest of some turns is one of them, none of them is later, and none behind
/// it is of the same time.
pub proof fn latest_turn_is_last_of_its_time(turns: Seq<RowView>)
    requires
        turns.len() > 0,
    ensures
        exists|i: int|
            {
                &&& 0 <= i < turns.len()
                &&& latest(turns) == Some(#[trigger] turns[i])
                &&& forall|j: int|
                    0 <= j < turns.len() ==> !before(
                        turns[i].created_at,
                        (#[trigger] turns[j]).created_at,
                    )
                &&& forall|j: int|
                    i < j < turns.len() ==> before(
                        (#[trigger] turns[j]).created_at,
                        turns[i].created_at,
                    )
            },
    decreases turns.len(),
{
    let head = turns.drop_last();
    let n = turns.len() - 1;
    if head.len() == 0 {
        assert(latest(head) is None);
        assert(latest(turns) == Some(turns[0]));
        not_before_itself(turns[0].created_at);
    } else {
        latest_turn_is_last_of_its_time(head);
        let i = choose|i: int|
            {
                &&& 0 <= i < head.len()
                &&& latest(head) == Some(#[trigger] head[i])
                &&& forall|j: int|
                    0 <= j < head.len() ==> !before(
                        head[i].created_at,
                        (#[trigger] head[j]).created_at,
                    )
                &&& forall|j: int|
                    i < j < head.len() ==> before(
                        (#[trigger] head[j]).created_at,
                        head[i].created_at,
                    )
            };
        assert(turns[i] == head[i]);
        assert forall|j: int| 0 <= j < head.len() implies #[trigger] turns[j] == head[j] by {}
        if before(turns[n].created_at, head[i].created_at) {
            before_is_one_way(turns[n].created_at, head[i].created_at);
            assert(latest(turns) == Some(turns[i]));
        } else {
            assert(latest(turns) == Some(turns[n]));
            assert forall|j: int| 0 <= j < turns.len() implies !before(
                turns[n].created_at,
                (#[trigger] turns[j]).created_at,
            ) by {
                if j < n {
                    assert(!before(head[i].created_at, head[j].created_at));
                    not_before_chains(
                        turns[n].created_at,
                        head[i].created_at,
                        head[j].created_at,
                    );
                } else {
                    not_before_itself(turns[n].created_at);
                }
            }
        }
    }
}

proof fn not_before_itself(s: Seq<char>)
    ensures
        !before(s, s),
{
    if before(s, s) {
        before_is_one_way(s, s);
    }
}

/// A conversation is shown with the question of its first turn that is numbered
/// one, wherever that stands, and else with that of its first turn.
pub proof fn opening_question_is_shown(case_id: Seq<char>, turns: Seq<RowView>, i: int)
    requires
        turns.len() > 0,
        0 <= i <= turns.len(),
        forall|j: int| 0 <= j < i ==> (#[trigger] turns[j]).seq != 1,
        i < turns.len() ==> turns[i].seq == 1,
    ensures
        summary_of(case_id, turns).question_preview == shortened(
            if i < turns.len() {
                turns[i].question
            } else {
                turns[0].question
            },
            80,
        ),
{
    first_numbered_one(turns, i);
}

proof fn first_numbered_one(turns: Seq<RowView>, i: int)
    requires
        0 <= i <= turns.len(),
        forall|j: int| 0 <= j < i ==> (#[trigger] turns[j]).seq != 1,
        i < turns.len() ==> turns[i].seq == 1,
    ensures
        i < turns.len() ==> numbered_one(turns) == Some(turns[i].question),
        i == turns.len() ==> numbered_one(turns) is None,
    decreases turns.len(),
{
    if turns.len() > 0 {
        let head = turns.drop_last();
        assert forall|j: int| 0 <= j < i && j < head.len() implies (#[trigger] head[j]).seq != 1 by {
            assert(head[j] == turns[j]);
        }
        if i < turns.len() - 1 {
            assert(head[i] == turns[i]);
            first_numbered_one(head, i);
        } else {
            first_numbered_one(head, head.len() as int);
        }
    }
}

/// A conversation is shown as that of the first user whom one of its turns names.
pub proof fn first_named_user_is_shown(case_id: Seq<char>, turns: Seq<RowView>, i: int)
    requires
        0 <= i <= turns.len(),
        forall|j: int| 0 <= j < i ==> (#[trigger] turns[j]).end_user_id is None,
        i < turns.len() ==> turns[i].end_user_id is Some,
    ensures
        i < turns.len() ==> summary_of(case_id, turns).end_user_id == turns[i].end_user_id,
        i == turns.len() ==> summary_of(case_id, turns).end_user_id is None,
    decreases turns.len(),
{
    if turns.len() > 0 {
        let head = turns.drop_last();
        assert forall|j: int| 0 <= j < i && j < head.len() implies (
        #[trigger] head[j]).end_user_id is None by {
            assert(head[j] == turns[j]);
        }
        if i < turns.len() - 1 {
            assert(head[i] == turns[i]);
            first_named_user_is_shown(case_id, head, i);
        } else {
            first_named_user_is_shown(case_id, head, head.len() as int);
        }
    }
}

/// A conversation is shown with how many turns it has, and with the kind and the
/// time of its latest reply.
pub proof fn conversations_are_shown_as_of_their_latest_turn(case_id: Seq<char>, turns: Seq<RowView>)
    requires
        turns.len() > 0,
    ensures
        summary_of(case_id, turns).case_id == case_id,
        summary_of(case_id, turns).turn_count == turns.len(),
        exists|i: int|
            {
                &&& 0 <= i < turns.len()
                &&& summary_of(case_id, turns).last_reply_kind == (#[trigger] turns[i]).reply_kind
                &&& summary_of(case_id, turns).last_created_at == turns[i].created_at
                &&& forall|j: int|
                    0 <= j < turns.len() ==> !before(
                        turns[i].created_at,
                        (#[trigger] turns[j]).created_at,
                    )
            },
{
    latest_turn_is_last_of_its_time(turns);
}

/// A kind of reply is counted as often as it occurs.
pub proof fn replies_are_counted_one_by_one(rows: Seq<RowView>, kind: Seq<char>)
    ensures
        count_kind(rows, kind) == rows.filter(|row: RowView| row.reply_kind == kind).len(),
    decreases rows.len(),
{
    reveal(Seq::filter);
    if rows.len() > 0 {
        replies_are_counted_one_by_one(rows.drop_last(), kind);
    }
}

/// The users counted are those whom some turn names, each once.
pub proof fn users_are_those_named(rows: Seq<RowView>, user: Seq<char>)
    ensures
        users_of(rows).contains(user) <==> exists|i: int|
            0 <= i < rows.len() && (#[trigger] rows[i]).end_user_id == Some(user),
    decreases rows.len(),
{
    if rows.len() > 0 {
        let head = rows.drop_last();
        users_are_those_named(head, user);
        if users_of(rows).contains(user) {
            if users_of(head).contains(user) {
                let i = choose|i: int|
                    0 <= i < head.len() && (#[trigger] head[i]).end_user_id == Some(user);
                assert(rows[i].end_user_id == Some(user));
            } else {
                assert(rows[rows.len() - 1].end_user_id == Some(user));
            }
        }
        if exists|i: int| 0 <= i < rows.len() && (#[trigger] rows[i]).end_user_id == Some(user) {
            let i = choose|i: int|
                0 <= i < rows.len() && (#[trigger] rows[i]).end_user_id == Some(user);
            if i < head.len() {
                assert(head[i].end_user_id == Some(user));
            }
        }
    }
}

/// The cases are those of the turns and no others, each once, in the order of
/// their first turns.
pub proof fn cases_are_those_of_the_turns(rows: Seq<RowView>, case_id: Seq<char>)
    ensures
        cases_of(rows).contains(case_id) <==> exists|i: int|
            0 <= i < rows.len() && (#[trigger] rows[i]).case_id == case_id,
        cases_of(rows).no_duplicates(),
        rows.len() > 0 ==> cases_of(rows).len() > 0 && cases_of(rows)[0] == rows[0].case_id,
{
    cases_are_those_that_start(rows, case_id);
    first_index_fits(rows, case_id);
    cases_are_distinct(rows);
    if rows.len() > 0 {
        cases_are_those_that_start(rows, rows[0].case_id);
        first_index_fits(rows, rows[0].case_id);
        let cases = cases_of(rows);
        let k = choose|k: int| 0 <= k < cases.len() && cases[k] == rows[0].case_id;
        assert(first_index(rows, rows[0].case_id) == Some(0int));
        if k > 0 {
            first_index_fits(rows, cases[0]);
            assert(first_index(rows, cases[0])->0 < first_index(rows, cases[k])->0);
        }
    }
}

/// Turns with one number are shown in the order in which they came.
pub proof fn turns_with_one_number_keep_their_order(rows: Seq<RowView>, n: u32)
    ensures
        by_seq(rows).filter(|row: RowView| row.seq == n) =~= rows.filter(
            |row: RowView| row.seq == n,
        ),
    decreases rows.len(),
{
    reveal(Seq::filter);
    if rows.len() > 0 {
        turns_with_one_number_keep_their_order(rows.drop_last(), n);
        let sorted = by_seq(rows.drop_last());
        put_in_behind_its_number(sorted, rows.last(), n);
        assert(sorted.push(rows.last()).drop_last() =~= sorted);
    }
}

proof fn put_in_behind_its_number(rows: Seq<RowView>, row: RowView, n: u32)
    ensures
        put_by_seq(rows, row).filter(|r: RowView| r.seq == n) =~= rows.push(row).filter(
            |r: RowView| r.seq == n,
        ),
    decreases rows.len(),
{
    reveal(Seq::filter);
    let f = |r: RowView| r.seq == n;
    assert(rows.push(row).drop_last() =~= rows);
    if rows.len() > 0 && rows.last().seq > row.seq {
        let head = rows.drop_last();
        put_in_behind_its_number(head, row, n);
        let p = put_by_seq(head, row);
        assert(p.push(rows.last()).drop_last() =~= p);
        assert(head.push(row).drop_last() =~= head);
        assert(put_by_seq(rows, row) == p.push(rows.last()));
        assert(rows.filter(f) =~= if f(rows.last()) {
            head.filter(f).push(rows.last())
        } else {
            head.filter(f)
        });
    }
}

/// The days that are looked at are those asked for; none asked for, and zero, mean
/// the usual number.
pub proof fn days_are_as_asked(d: u32)
    requires
        d > 0,
    ensures
        days_asked(Some(d)) == d,
        days_asked(Some(0)) == days_asked(None),
        days_asked(None) == STATS_DEFAULT_DAYS,
{
}

/// The places of the turns are just those of the nodes that describe one, from the
/// first to the last.
pub proof fn every_turn_has_its_place(nodes: Seq<Option<RowView>>, i: int)
    ensures
        places_of(nodes).contains(i) <==> 0 <= i < nodes.len() && nodes[i] is Some,
        forall|a: int, b: int|
            0 <= a < b < places_of(nodes).len() ==> #[trigger] places_of(nodes)[a]
                < #[trigger] places_of(nodes)[b],
        forall|a: int|
            0 <= a < places_of(nodes).len() ==> 0 <= #[trigger] places_of(nodes)[a] < nodes.len(),
    decreases nodes.len(),
{
    if nodes.len() > 0 {
        let head = nodes.drop_last();
        let rest = places_of(head);
        let all = places_of(nodes);
        every_turn_has_its_place(head, i);
        if all.contains(i) {
            let k = choose|k: int| 0 <= k < all.len() && all[k] == i;
            if k < rest.len() {
                assert(rest[k] == i);
                assert(head[i] == nodes[i]);
            }
        }
        if 0 <= i < nodes.len() && nodes[i] is Some {
            if i < head.len() {
                assert(head[i] == nodes[i]);
                let k = choose|k: int| 0 <= k < rest.len() && rest[k] == i;
                assert(all[k] == i);
            } else {
                assert(all[rest.len() as int] == i);
            }
        }
    }
}

/// The turns of a case start at the first node that describes one of them.
pub proof fn cases_start_at_their_first_turn(
    nodes: Seq<Option<RowView>>,
    case_id: Seq<char>,
    i: int,
)
    requires
        0 <= i <= nodes.len(),
        forall|j: int|
            0 <= j < i && #[trigger] nodes[j] is Some ==> (nodes[j]->0).case_id != case_id,
        i < nodes.len() ==> nodes[i] is Some && (nodes[i]->0).case_id == case_id,
    ensures
        first_place(nodes, case_id) == if i < nodes.len() {
            Some(i)
        } else {
            None
        },
    decreases nodes.len(),
{
    if nodes.len() > 0 {
        let head = nodes.drop_last();
        if i < nodes.len() {
            assert forall|j: int| 0 <= j < i && #[trigger] head[j] is Some implies (
            head[j]->0).case_id != case_id by {
                assert(head[j] == nodes[j]);
            }
            cases_start_at_their_first_turn(head, case_id, i);
        } else {
            assert forall|j: int| 0 <= j < head.len() && #[trigger] head[j] is Some implies (
            head[j]->0).case_id != case_id by {
                assert(head[j] == nodes[j]);
            }
            cases_start_at_their_first_turn(head, case_id, head.len() as int);
            assert(nodes[nodes.len() - 1] == nodes.last());
        }
    }
}

/// The last start is the start of one of the conversations, and none starts behind
/// it.
pub proof fn no_conversation_starts_behind_the_last_start(
    kept: Seq<SummaryView>,
    nodes: Seq<Option<RowView>>,
)
    ensures
        last_start(kept, nodes) is Some ==> exists|k: int|
            0 <= k < kept.len() && first_place(nodes, (#[trigger] kept[k]).case_id) == last_start(
                kept,
                nodes,
            ),
        forall|k: int|
            0 <= k < kept.len() && first_place(nodes, (#[trigger] kept[k]).case_id) is Some
                ==> last_start(kept, nodes) is Some && first_place(nodes, kept[k].case_id)->0
                <= last_start(kept, nodes)->0,
    decreases kept.len(),
{
    if kept.len() > 0 {
        let head = kept.drop_last();
        no_conversation_starts_behind_the_last_start(head, nodes);
        let all = last_start(kept, nodes);
        if all is Some {
            if all == first_place(nodes, kept[kept.len() - 1].case_id) {
            } else {
                let k = choose|k: int|
                    0 <= k < head.len() && first_place(nodes, (#[trigger] head[k]).case_id)
                        == last_start(head, nodes);
                assert(kept[k] == head[k]);
            }
        }
        assert forall|k: int|
            0 <= k < kept.len() && first_place(
                nodes,
                (#[trigger] kept[k]).case_id,
            ) is Some implies all is Some && first_place(nodes, kept[k].case_id)->0 <= all->0 by {
            if k < head.len() {
                assert(head[k] == kept[k]);
            }
        }
    }
}

/// A cursor is there just where an offset is, is the one for it, and where the
/// offset is not negative reads back as it.
pub proof fn cursors_mark_their_offset(cursor: Option<String>, offset: Option<int>)
    requires
        marks(cursor, offset),
    ensures
        cursor is Some <==> offset is Some,
        cursor is Some ==> (cursor->0)@ == cursor_for(offset->0),
        cursor is Some && offset->0 >= 0 ==> offset_for((cursor->0)@) == offset,
{
}

/// Fetching starts with nothing and goes on just while there are rounds left, the
/// page is not full and the last fetch brought all that was asked for. What is
/// fetched stands behind what was, and each fetch is one round.
pub proof fn fetching_goes_on_while_needed(
    w: WalkView,
    nodes: Seq<Option<RowView>>,
    limit: usize,
    offset: i32,
)
    ensures
        ({
            let after = walk_step(w, nodes);
            &&& w.nodes.is_prefix_of(after.nodes)
            &&& after.nodes.skip(w.nodes.len() as int) =~= nodes
            &&& after.rounds == w.rounds + 1
            &&& after.limit == w.limit
            &&& after.initial_offset == w.initial_offset
            &&& after.source_exhausted <==> nodes.len() < 200
            &&& w.rounds >= 9 ==> !after.open
            &&& nodes.len() < 200 ==> !after.open
            &&& cases_of(described(after.nodes)).len() >= w.limit ==> !after.open
            &&& w.rounds < 9 && nodes.len() >= 200 && cases_of(described(after.nodes)).len()
                < w.limit ==> after.open
        }),
        walk_start(limit, offset).open,
        walk_start(limit, offset).nodes.len() == 0,
        walk_start(limit, offset).rounds == 0,
        !walk_start(limit, offset).source_exhausted,
        walk_start(limit, offset).limit == limit,
        walk_start(limit, offset).initial_offset == offset,
{
    assert(w.nodes =~= (w.nodes + nodes).take(w.nodes.len() as int));
}

} // verus!
