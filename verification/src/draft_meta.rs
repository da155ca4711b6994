//! The structured note that a drafted answer carries behind its text, and how
//! it is parted from the text that the customer sees.
use crate::text::{
    chars_of, contains, cut, find, find_is_first, find_some, occurs_at, piece_contains, position,
    same, texts, trim, trim_again, trim_end, trim_end_again, trim_is_piece, trim_start, trimmed,
    trimmed_end,
};
use vstd::prelude::*;

verus! {

/// The line that stands between the text of an answer and its note.
pub const ADVISOR_META_MARKER: &'static str = "<<<ADVISOR_META>>>";

/// The part of the marker that survives when the marker comes out garbled.
pub const ADVISOR_META_SENTINEL: &'static str = "ADVISOR_META";

/// How an answer ends.
#[derive(Debug, Clone, Copy, PartialEq, Eq, Structural)]
pub enum ClosingKind {
    QuestionChoice,
    QuestionOpen,
    Proposal,
}

impl ClosingKind {
    /// The word for this kind of ending in a note.
    pub open spec fn word(self) -> Seq<char> {
        match self {
            ClosingKind::QuestionChoice => "question_choice"@,
            ClosingKind::QuestionOpen => "question_open"@,
            ClosingKind::Proposal => "proposal"@,
        }
    }

    /// The word for this kind of ending in a note.
    pub fn as_str(self) -> (r: &'static str)
        ensures
            r@ == self.word(),
    {
        match self {
            ClosingKind::QuestionChoice => "question_choice",
            ClosingKind::QuestionOpen => "question_open",
            ClosingKind::Proposal => "proposal",
        }
    }
}

/// The note behind a drafted answer.
#[derive(Debug, Clone, PartialEq, Eq)]
pub struct DraftMeta {
    /// The keys of the materials that the answer puts forward.
    pub featured: Vec<String>,
    /// How the answer ends.
    pub closing: ClosingKind,
    /// Short replies to choose from; they matter where the answer ends in a
    /// question with choices.
    pub choices: Vec<String>,
}

/// What a note says.
#[verifier::ext_equal]
pub struct MetaView {
    pub featured: Seq<Seq<char>>,
    pub closing: ClosingKind,
    pub choices: Seq<Seq<char>>,
}

impl View for DraftMeta {
    type V = MetaView;

    open spec fn view(&self) -> MetaView {
        MetaView {
            featured: texts(self.featured@),
            closing: self.closing,
            choices: texts(self.choices@),
        }
    }
}

/// A note as it is written, before the word for its ending is looked at.
#[derive(Debug, Clone, PartialEq, Eq)]
pub struct RawDraftMeta {
    pub featured: Vec<String>,
    pub closing: String,
    pub choices: Vec<String>,
}

/// What a note says before the word for its ending is looked at.
#[verifier::ext_equal]
pub struct RawMetaView {
    pub featured: Seq<Seq<char>>,
    pub closing: Seq<char>,
    pub choices: Seq<Seq<char>>,
}

impl View for RawDraftMeta {
    type V = RawMetaView;

    open spec fn view(&self) -> RawMetaView {
        RawMetaView {
            featured: texts(self.featured@),
            closing: self.closing@,
            choices: texts(self.choices@),
        }
    }
}

/// How the note was come by.
#[derive(Debug, Clone, Copy, PartialEq, Eq, Structural)]
pub enum MetaSeparationOutcome {
    /// The marker was there and a valid note followed it.
    Parsed,
    /// The marker was not there, and no note was found without it.
    NoMarker,
    /// The marker was there, but what followed it is no valid note.
    ParseFailed,
    /// The marker was not there, but a note was found and taken out.
    RecoveredWithoutMarker,
}

/// The note that `raw` stands for: none where the word for the ending is unknown.
pub open spec fn checked(raw: RawMetaView) -> Option<MetaView> {
    if raw.closing == "question_choice"@ {
        Some(
            (MetaView {
                featured: raw.featured,
                closing: ClosingKind::QuestionChoice,
                choices: raw.choices,
            }),
        )
    } else if raw.closing == "question_open"@ {
        Some(
            (MetaView {
                featured: raw.featured,
                closing: ClosingKind::QuestionOpen,
                choices: raw.choices,
            }),
        )
    } else if raw.closing == "proposal"@ {
        Some(
            (MetaView {
                featured: raw.featured,
                closing: ClosingKind::Proposal,
                choices: raw.choices,
            }),
        )
    } else {
        None
    }
}

/// The note that `raw` stands for.
pub fn raw_draft_meta_into_draft_meta(raw: RawDraftMeta) -> (r: Option<DraftMeta>)
    ensures
        match r {
            Some(m) => checked(raw@) == Some(m@),
            None => checked(raw@) is None,
        },
{
    let closing = if same(raw.closing.as_str(), "question_choice") {
        ClosingKind::QuestionChoice
    } else if same(raw.closing.as_str(), "question_open") {
        ClosingKind::QuestionOpen
    } else if same(raw.closing.as_str(), "proposal") {
        ClosingKind::Proposal
    } else {
        return None;
    };
    Some(DraftMeta { featured: raw.featured, closing, choices: raw.choices })
}

/// What a reader of notes answers: the note at the start of a text, and how
/// many characters of the text it takes up.
pub type ReaderAnswer = Option<(RawDraftMeta, usize)>;

/// `read` answers `answer` for the text `s`.
pub open spec fn says<P: Fn(&str) -> ReaderAnswer>(
    read: P,
    s: Seq<char>,
    answer: Option<(RawMetaView, int)>,
) -> bool {
    exists|t: &str, a: ReaderAnswer|
        t@ == s && #[trigger] call_ensures(read, (t,), a) && answer_view(a) == answer
}

/// What a reader's answer says.
pub open spec fn answer_view(a: ReaderAnswer) -> Option<(RawMetaView, int)> {
    match a {
        Some((raw, n)) => Some((raw@, n as int)),
        None => None,
    }
}

/// `read` is a reader of notes: it takes every text, its answer depends on the
/// characters of the text alone, a note that it finds takes up at least one
/// character of the text and no more than there are, and what follows a note does
/// not change how it is read.
pub open spec fn is_reader<P: Fn(&str) -> ReaderAnswer>(read: P) -> bool {
    &&& forall|t: &str| #[trigger] call_requires(read, (t,))
    &&& forall|t: &str, u: &str, a: ReaderAnswer, b: ReaderAnswer|
        t@ == u@ && #[trigger] call_ensures(read, (t,), a) && #[trigger] call_ensures(read, (u,), b)
            ==> answer_view(a) == answer_view(b)
    &&& forall|t: &str, u: &str, a: ReaderAnswer, b: ReaderAnswer|
        t@.is_prefix_of(u@) && a is Some && #[trigger] call_ensures(read, (t,), a)
            && #[trigger] call_ensures(read, (u,), b) ==> answer_view(a) == answer_view(b)
    &&& forall|t: &str, a: ReaderAnswer| #[trigger]
        call_ensures(read, (t,), a) && a is Some ==> 0 < (a->0).1 <= t@.len()
}

/// `read` has an answer for the text `s`.
pub open spec fn answers<P: Fn(&str) -> ReaderAnswer>(read: P, s: Seq<char>) -> bool {
    exists|answer: Option<(RawMetaView, int)>| says(read, s, answer)
}

/// What `read` answers for the text `s`; no note where it has no answer.
pub open spec fn reading<P: Fn(&str) -> ReaderAnswer>(read: P, s: Seq<char>) -> Option<
    (RawMetaView, int),
> {
    if answers(read, s) {
        choose|answer: Option<(RawMetaView, int)>| says(read, s, answer)
    } else {
        None
    }
}

proof fn reading_is<P: Fn(&str) -> ReaderAnswer>(read: P, t: &str, a: ReaderAnswer)
    requires
        is_reader(read),
        call_ensures(read, (t,), a),
    ensures
        reading(read, t@) == answer_view(a),
        answers(read, t@),
{
    assert(says(read, t@, answer_view(a)));
    let r = reading(read, t@);
    assert(says(read, t@, r));
}

/// The valid note at the start of `s`, and how many characters it takes up.
pub open spec fn note_at_start<P: Fn(&str) -> ReaderAnswer>(read: P, s: Seq<char>) -> Option<
    (MetaView, int),
> {
    match reading(read, s) {
        Some((raw, n)) => match checked(raw) {
            Some(m) => Some((m, n)),
            None => None,
        },
        None => None,
    }
}

/// The valid note that makes up the whole of `s`, white space around it left out.
pub open spec fn whole_note<P: Fn(&str) -> ReaderAnswer>(read: P, s: Seq<char>) -> Option<MetaView> {
    match note_at_start(read, trim(s)) {
        Some((m, n)) => if n == trim(s).len() {
            Some(m)
        } else {
            None
        },
        None => None,
    }
}

/// `body` without the first note that starts at or behind position `i`, and
/// that note.
pub open spec fn strip_from<P: Fn(&str) -> ReaderAnswer>(
    read: P,
    body: Seq<char>,
    i: int,
) -> Option<(Seq<char>, MetaView)>
    decreases body.len() - i,
{
    if i < 0 || i >= body.len() {
        None
    } else if body[i] == '{' && note_at_start(read, body.skip(i)) is Some {
        let (m, n) = note_at_start(read, body.skip(i))->0;
        Some((trim(body.take(i) + body.skip(i + n)), m))
    } else {
        strip_from(read, body, i + 1)
    }
}

/// `body` with one note after the other taken out until none is left, and the
/// last note taken out; `last` where none was.
pub open spec fn strip_all<P: Fn(&str) -> ReaderAnswer>(
    read: P,
    body: Seq<char>,
    last: Option<MetaView>,
) -> (Seq<char>, Option<MetaView>)
    decreases body.len(),
{
    match strip_from(read, body, 0) {
        Some((next, m)) => if next.len() < body.len() {
            strip_all(read, next, Some(m))
        } else {
            (body, last)
        },
        None => (body, last),
    }
}

/// No position of `body` starts a valid note.
pub open spec fn no_note_left<P: Fn(&str) -> ReaderAnswer>(read: P, body: Seq<char>) -> bool {
    forall|i: int|
        0 <= i < body.len() && #[trigger] body[i] == '{' ==> note_at_start(read, body.skip(i)) is None
}

/// `read` has an answer for every place of `body` at which a note could start.
pub open spec fn looked_over<P: Fn(&str) -> ReaderAnswer>(read: P, body: Seq<char>) -> bool {
    forall|i: int|
        0 <= i < body.len() && #[trigger] body[i] == '{' ==> answers(read, body.skip(i))
}

/// `body` up to the first trace of the marker.
pub open spec fn sanitized(body: Seq<char>) -> Seq<char> {
    match find(body, ADVISOR_META_SENTINEL@) {
        Some(i) => trim(body.take(i)),
        None => body,
    }
}

/// The text that the customer sees, the note, and how the note was come by.
pub open spec fn separated<P: Fn(&str) -> ReaderAnswer>(read: P, raw: Seq<char>) -> (
    Seq<char>,
    Option<MetaView>,
    MetaSeparationOutcome,
) {
    match find(raw, ADVISOR_META_MARKER@) {
        Some(i) => {
            let note = whole_note(read, raw.skip(i + ADVISOR_META_MARKER@.len()));
            (
                sanitized(trim(raw.take(i))),
                note,
                if note is Some {
                    MetaSeparationOutcome::Parsed
                } else {
                    MetaSeparationOutcome::ParseFailed
                },
            )
        },
        None => {
            let (body, note) = strip_all(read, trim_end(trim(raw)), None);
            if note is Some {
                (sanitized(body), note, MetaSeparationOutcome::RecoveredWithoutMarker)
            } else {
                (sanitized(trim(raw)), None, MetaSeparationOutcome::NoMarker)
            }
        },
    }
}

/// The valid note at the start of `s`, and how many characters it takes up.
pub fn parse_draft_meta_prefix<P: Fn(&str) -> ReaderAnswer>(s: &str, read: &P) -> (r: Option<
    (DraftMeta, usize),
>)
    requires
        is_reader(*read),
    ensures
        match r {
            Some((m, n)) => note_at_start(*read, s@) == Some((m@, n as int)) && 0 < n <= s@.len(),
            None => note_at_start(*read, s@) is None,
        },
        answers(*read, s@),
{
    let a = read(s);
    proof {
        reading_is(*read, s, a);
    }
    match a {
        Some((raw, n)) => match raw_draft_meta_into_draft_meta(raw) {
            Some(m) => Some((m, n)),
            None => None,
        },
        None => None,
    }
}

/// The valid note that makes up the whole of `json_part`, white space around it
/// left out.
pub fn parse_draft_meta<P: Fn(&str) -> ReaderAnswer>(json_part: &str, read: &P) -> (r: Option<
    DraftMeta,
>)
    requires
        is_reader(*read),
    ensures
        match r {
            Some(m) => whole_note(*read, json_part@) == Some(m@),
            None => whole_note(*read, json_part@) is None,
        },
{
    let t = trimmed(json_part);
    let len: usize = chars_of(t.as_str()).len();
    match parse_draft_meta_prefix(t.as_str(), read) {
        Some((m, n)) => if n == len {
            Some(m)
        } else {
            None
        },
        None => None,
    }
}

/// `body` without the first note in it, and that note.
pub fn strip_first_recoverable_meta_json_object<P: Fn(&str) -> ReaderAnswer>(
    body: &str,
    read: &P,
) -> (r: Option<(String, DraftMeta)>)
    requires
        is_reader(*read),
    ensures
        match r {
            Some((rest, m)) => {
                &&& strip_from(*read, body@, 0) == Some((rest@, m@))
                &&& rest@.len() < body@.len()
                &&& trim(rest@) == rest@
            },
            None => {
                &&& strip_from(*read, body@, 0) is None
                &&& no_note_left(*read, body@)
                &&& looked_over(*read, body@)
            },
        },
{
    let v = chars_of(body);
    let mut i: usize = 0;
    while i < v.len()
        invariant
            v@ == body@,
            i <= v.len(),
            is_reader(*read),
            strip_from(*read, body@, 0) == strip_from(*read, body@, i as int),
            forall|j: int|
                0 <= j < i && #[trigger] body@[j] == '{' ==> {
                    &&& note_at_start(*read, body@.skip(j)) is None
                    &&& answers(*read, body@.skip(j))
                },
        decreases v.len() - i,
    {
        if v[i] == '{' {
            let suffix = cut(&v, i, v.len());
            assert(suffix@ =~= body@.skip(i as int));
            if let Some((m, n)) = parse_draft_meta_prefix(suffix.as_str(), read) {
                let mut rest = cut(&v, 0, i);
                let tail = cut(&v, i + n, v.len());
                rest.append(tail.as_str());
                assert(rest@ =~= body@.take(i as int) + body@.skip(i + n));
                proof {
                    trim_is_piece(rest@);
                    trim_again(rest@);
                }
                return Some((trimmed(rest.as_str()), m));
            }
        }
        i = i + 1;
    }
    None
}

/// `body` with every note taken out, and the last one that was taken out.
/// There is no answer where there was no note.
pub fn recover_meta_from_body_json<P: Fn(&str) -> ReaderAnswer>(body: &str, read: &P) -> (r: Option<
    (String, DraftMeta),
>)
    requires
        is_reader(*read),
    ensures
        match r {
            Some((rest, m)) => {
                &&& strip_all(*read, trim_end(body@), None) == (rest@, Some(m@))
                &&& no_note_left(*read, rest@)
                &&& looked_over(*read, rest@)
                &&& trim(rest@) == rest@
            },
            None => {
                &&& strip_all(*read, trim_end(body@), None) == (trim_end(body@), None::<MetaView>)
                &&& no_note_left(*read, trim_end(body@))
                &&& looked_over(*read, trim_end(body@))
            },
        },
{
    let mut current = trimmed_end(body);
    let mut last: Option<DraftMeta> = None;
    let ghost start = current@;
    loop
        invariant
            is_reader(*read),
            start == trim_end(body@),
            strip_all(*read, start, None) == strip_all(
                *read,
                current@,
                match last {
                    Some(m) => Some(m@),
                    None => None,
                },
            ),
            last is None ==> current@ == start,
            last is Some ==> trim(current@) == current@,
        decreases current@.len(),
    {
        match strip_first_recoverable_meta_json_object(current.as_str(), read) {
            Some((next, m)) => {
                current = next;
                last = Some(m);
            },
            None => {
                return match last {
                    Some(m) => Some((current, m)),
                    None => None,
                };
            },
        }
    }
}

/// `body` up to the first trace of the marker.
pub fn sanitize_body_of_meta_fragments(body: String) -> (r: String)
    ensures
        r@ == sanitized(body@),
        !contains(r@, ADVISOR_META_SENTINEL@),
{
    let v = chars_of(body.as_str());
    let p = chars_of(ADVISOR_META_SENTINEL);
    proof {
        sanitized_is_clean(body@);
    }
    match position(&v, &p) {
        Some(i) => {
            let head = cut(&v, 0, i);
            assert(head@ =~= body@.take(i as int));
            trimmed(head.as_str())
        },
        None => body,
    }
}

proof fn sanitized_is_clean(body: Seq<char>)
    ensures
        !contains(sanitized(body), ADVISOR_META_SENTINEL@),
{
    let p = ADVISOR_META_SENTINEL@;
    if contains(body, p) {
        find_some(body, p);
        let i = find(body, p)->0;
        let head = body.take(i);
        trim_is_piece(head);
        let (a, b) = choose|a: int, b: int|
            0 <= a <= b <= head.len() && trim(head) == head.subrange(a, b);
        reveal_strlit("ADVISOR_META");
        if contains(trim(head), p) {
            piece_contains(head, a, b, p);
            let j = choose|j: int| occurs_at(head, p, j);
            assert(body.subrange(j, j + p.len()) =~= head.subrange(j, j + p.len()));
            assert(occurs_at(body, p, j));
        }
    }
}

/// The text that the customer sees, the note, and how the note was come by.
/// Whatever the draft holds, no trace of the marker is left in the text. Where it
/// was without the marker, separating the text again gives that text and no note.
pub fn separate_draft_meta<P: Fn(&str) -> ReaderAnswer>(raw: &str, read: &P) -> (r: (
    String,
    Option<DraftMeta>,
    MetaSeparationOutcome,
))
    requires
        is_reader(*read),
    ensures
        r.0@ == separated(*read, raw@).0,
        match r.1 {
            Some(m) => separated(*read, raw@).1 == Some(m@),
            None => separated(*read, raw@).1 is None,
        },
        r.2 == separated(*read, raw@).2,
        !contains(r.0@, ADVISOR_META_SENTINEL@),
        !contains(raw@, ADVISOR_META_MARKER@) ==> separated(*read, r.0@) == (
            r.0@,
            None::<MetaView>,
            MetaSeparationOutcome::NoMarker,
        ),
{
    let v = chars_of(raw);
    let p = chars_of(ADVISOR_META_MARKER);
    match position(&v, &p) {
        None => {
            let whole = trimmed(raw);
            proof {
                trim_again(raw@);
                trim_end_again(trim_start(raw@));
            }
            match recover_meta_from_body_json(whole.as_str(), read) {
                Some((body, m)) => {
                    proof {
                        separation_is_final(*read, body@);
                    }
                    (
                        sanitize_body_of_meta_fragments(body),
                        Some(m),
                        MetaSeparationOutcome::RecoveredWithoutMarker,
                    )
                },
                None => {
                    proof {
                        separation_is_final(*read, whole@);
                    }
                    (sanitize_body_of_meta_fragments(whole), None, MetaSeparationOutcome::NoMarker)
                },
            }
        },
        Some(i) => {
            assert(occurs_at(v@, p@, i as int));
            let head = cut(&v, 0, i);
            assert(head@ =~= raw@.take(i as int));
            let rest = cut(&v, i + p.len(), v.len());
            assert(rest@ =~= raw@.skip(i + p@.len()));
            let body = sanitize_body_of_meta_fragments(trimmed(head.as_str()));
            match parse_draft_meta(rest.as_str(), read) {
                Some(m) => (body, Some(m), MetaSeparationOutcome::Parsed),
                None => (body, None, MetaSeparationOutcome::ParseFailed),
            }
        },
    }
}

/// Recovery is final: what it leaves behind, recovery leaves as it is, and it
/// finds no further note there.
pub proof fn recovery_is_final<P: Fn(&str) -> ReaderAnswer>(read: P, rest: Seq<char>)
    requires
        no_note_left(read, rest),
        trim_end(rest) == rest,
    ensures
        strip_all(read, trim_end(rest), None) == (rest, None::<MetaView>),
{
    nothing_from(read, rest, 0);
}

proof fn nothing_from<P: Fn(&str) -> ReaderAnswer>(read: P, body: Seq<char>, i: int)
    requires
        no_note_left(read, body),
        0 <= i,
    ensures
        strip_from(read, body, i) is None,
    decreases body.len() - i,
{
    if i < body.len() {
        nothing_from(read, body, i + 1);
    }
}

proof fn beginnings_have_no_note<P: Fn(&str) -> ReaderAnswer>(read: P, s: Seq<char>, whole: Seq<char>)
    requires
        is_reader(read),
        s.is_prefix_of(whole),
        answers(read, whole),
        note_at_start(read, whole) is None,
    ensures
        note_at_start(read, s) is None,
{
    let r = reading(read, s);
    if r is Some {
        assert(says(read, s, r));
        let (t, a) = choose|t: &str, a: ReaderAnswer|
            t@ == s && #[trigger] call_ensures(read, (t,), a) && answer_view(a) == r;
        let w = reading(read, whole);
        assert(says(read, whole, w));
        let (u, b) = choose|u: &str, b: ReaderAnswer|
            u@ == whole && #[trigger] call_ensures(read, (u,), b) && answer_view(b) == w;
        assert(answer_view(a) == answer_view(b));
    }
}

/// Separation is final: a trimmed text in which no note is left, cut at the first
/// trace of the marker, is separated into itself and no note.
pub proof fn separation_is_final<P: Fn(&str) -> ReaderAnswer>(read: P, body: Seq<char>)
    requires
        is_reader(read),
        trim(body) == body,
        no_note_left(read, body),
        looked_over(read, body),
    ensures
        separated(read, sanitized(body)) == (
            sanitized(body),
            None::<MetaView>,
            MetaSeparationOutcome::NoMarker,
        ),
{
    let t = sanitized(body);
    sanitized_is_clean(body);
    marker_holds_the_sentinel(t);
    trim_again(body);
    if contains(body, ADVISOR_META_SENTINEL@) {
        find_some(body, ADVISOR_META_SENTINEL@);
        let i = find(body, ADVISOR_META_SENTINEL@)->0;
        let head = body.take(i);
        trim_again(head);
        trim_is_piece(head);
        let (a, b) = choose|a: int, b: int|
            0 <= a <= b <= head.len() && trim(head) == head.subrange(a, b);
        assert forall|j: int| 0 <= j < t.len() && #[trigger] t[j] == '{' implies note_at_start(
            read,
            t.skip(j),
        ) is None by {
            assert(t[j] == body[a + j]);
            assert(t.skip(j) =~= body.skip(a + j).subrange(0, t.skip(j).len() as int));
            beginnings_have_no_note(read, t.skip(j), body.skip(a + j));
        }
    }
    trim_end_again(trim_start(t));
    recovery_is_final(read, t);
}

/// What stands behind the marker has no bearing on the text: two drafts that
/// agree up to their first marker give the customer the same text.
pub proof fn text_ends_at_the_marker<P: Fn(&str) -> ReaderAnswer>(
    read: P,
    raw: Seq<char>,
    other: Seq<char>,
)
    requires
        find(raw, ADVISOR_META_MARKER@) is Some,
        find(other, ADVISOR_META_MARKER@) is Some,
        raw.take(find(raw, ADVISOR_META_MARKER@)->0) == other.take(
            find(other, ADVISOR_META_MARKER@)->0,
        ),
    ensures
        separated(read, raw).0 == separated(read, other).0,
{
}

/// The marker holds the sentinel, so a text without the sentinel is without
/// the marker.
pub proof fn marker_holds_the_sentinel(body: Seq<char>)
    ensures
        contains(ADVISOR_META_MARKER@, ADVISOR_META_SENTINEL@),
        contains(body, ADVISOR_META_MARKER@) ==> contains(body, ADVISOR_META_SENTINEL@),
{
    reveal_strlit("ADVISOR_META");
    reveal_strlit("<<<ADVISOR_META>>>");
    let m = ADVISOR_META_MARKER@;
    let p = ADVISOR_META_SENTINEL@;
    assert(m.subrange(3, 15) =~= p);
    assert(occurs_at(m, p, 3));
    if contains(body, m) {
        let i = choose|i: int| occurs_at(body, m, i);
        assert(contains(body.subrange(i, i + m.len()), p));
        piece_contains(body, i, i + m.len(), p);
    }
}

proof fn closing_words_differ()
    ensures
        "question_choice"@.len() == 15,
        "question_open"@.len() == 13,
        "proposal"@.len() == 8,
{
    reveal_strlit("question_choice");
    reveal_strlit("question_open");
    reveal_strlit("proposal");
}

/// A note is valid just where its ending is the word for one, which then is its
/// ending; what it puts forward and its choices stay as they are.
pub proof fn notes_end_as_their_word_says(raw: RawMetaView, kind: ClosingKind)
    ensures
        raw.closing == kind.word() ==> checked(raw) is Some && (checked(raw)->0).closing == kind,
        checked(raw) is Some ==> {
            let m = checked(raw)->0;
            &&& m.closing.word() == raw.closing
            &&& m.featured == raw.featured
            &&& m.choices == raw.choices
        },
{
    closing_words_differ();
}

/// A text is told apart at its first marker: what stands before it, without white
/// space around it, is the text, and what follows it is the note.
pub proof fn text_and_note_stand_around_the_marker<P: Fn(&str) -> ReaderAnswer>(
    read: P,
    body: Seq<char>,
    tail: Seq<char>,
)
    requires
        forall|i: int|
            0 <= i < body.len() ==> !#[trigger] occurs_at(
                body + ADVISOR_META_MARKER@,
                ADVISOR_META_MARKER@,
                i,
            ),
    ensures
        ({
            let r = separated(read, body + ADVISOR_META_MARKER@ + tail);
            &&& !contains(trim(body), ADVISOR_META_SENTINEL@) ==> r.0 == trim(body)
            &&& r.1 == whole_note(read, tail)
            &&& r.2 == MetaSeparationOutcome::Parsed <==> whole_note(read, tail) is Some
            &&& r.2 == MetaSeparationOutcome::ParseFailed <==> whole_note(read, tail) is None
        }),
{
    let marker = ADVISOR_META_MARKER@;
    let raw = body + marker + tail;
    let n = body.len() as int;
    assert(raw.subrange(n, n + marker.len()) =~= marker);
    assert(occurs_at(raw, marker, n));
    assert forall|j: int| 0 <= j < n implies !occurs_at(raw, marker, j) by {
        if occurs_at(raw, marker, j) {
            assert((body + marker).subrange(j, j + marker.len()) =~= raw.subrange(
                j,
                j + marker.len(),
            ));
            assert(occurs_at(body + marker, marker, j));
        }
    }
    find_is_first(raw, marker, n);
    assert(raw.take(n) =~= body);
    assert(raw.skip(n + marker.len()) =~= tail);
}

/// A text that speaks of notes is cut before the first place where it does; any
/// other stays as it is.
pub proof fn text_ends_before_the_sentinel(body: Seq<char>, tail: Seq<char>)
    ensures
        !contains(body, ADVISOR_META_SENTINEL@) ==> sanitized(body) == body,
        (forall|i: int|
            0 <= i < body.len() ==> !#[trigger] occurs_at(
                body + ADVISOR_META_SENTINEL@,
                ADVISOR_META_SENTINEL@,
                i,
            )) ==> sanitized(body + ADVISOR_META_SENTINEL@ + tail) == trim(body),
{
    let word = ADVISOR_META_SENTINEL@;
    if forall|i: int| 0 <= i < body.len() ==> !#[trigger] occurs_at(body + word, word, i) {
        let raw = body + word + tail;
        let n = body.len() as int;
        assert(raw.subrange(n, n + word.len()) =~= word);
        assert(occurs_at(raw, word, n));
        assert forall|j: int| 0 <= j < n implies !occurs_at(raw, word, j) by {
            if occurs_at(raw, word, j) {
                assert((body + word).subrange(j, j + word.len()) =~= raw.subrange(j, j + word.len()));
                assert(occurs_at(body + word, word, j));
            }
        }
        find_is_first(raw, word, n);
        assert(raw.take(n) =~= body);
    }
}

/// Of the places where a note starts the first counts: the note there is taken
/// out, with as much of the text as it takes up, and what stands around it stays.
pub proof fn the_first_note_is_taken_out<P: Fn(&str) -> ReaderAnswer>(
    read: P,
    body: Seq<char>,
    k: int,
    m: MetaView,
    n: int,
)
    requires
        0 <= k < body.len(),
        body[k] == '{',
        note_at_start(read, body.skip(k)) == Some((m, n)),
        forall|j: int|
            0 <= j < k && #[trigger] body[j] == '{' ==> note_at_start(read, body.skip(j)) is None,
    ensures
        strip_from(read, body, 0) == Some((trim(body.take(k) + body.skip(k + n)), m)),
{
    notes_are_looked_for_in_order(read, body, 0, k, m, n);
}

proof fn notes_are_looked_for_in_order<P: Fn(&str) -> ReaderAnswer>(
    read: P,
    body: Seq<char>,
    i: int,
    k: int,
    m: MetaView,
    n: int,
)
    requires
        0 <= i <= k < body.len(),
        body[k] == '{',
        note_at_start(read, body.skip(k)) == Some((m, n)),
        forall|j: int|
            i <= j < k && #[trigger] body[j] == '{' ==> note_at_start(read, body.skip(j)) is None,
    ensures
        strip_from(read, body, i) == Some((trim(body.take(k) + body.skip(k + n)), m)),
    decreases k - i,
{
    if i < k {
        notes_are_looked_for_in_order(read, body, i + 1, k, m, n);
    }
}

/// Notes are taken out until none is left, and the last that was taken out counts;
/// a text without notes stays as it is.
pub proof fn the_last_note_taken_out_counts<P: Fn(&str) -> ReaderAnswer>(
    read: P,
    body: Seq<char>,
    next: Seq<char>,
    m: MetaView,
    last: Option<MetaView>,
)
    ensures
        no_note_left(read, body) ==> strip_all(read, body, last) == (body, last),
        strip_from(read, body, 0) == Some((next, m)) && next.len() < body.len() ==> strip_all(
            read,
            body,
            last,
        ) == strip_all(read, next, Some(m)),
        strip_from(read, body, 0) == Some((next, m)) && next.len() < body.len() && no_note_left(
            read,
            next,
        ) ==> strip_all(read, body, last) == (next, Some(m)),
{
    if no_note_left(read, body) {
        nothing_from(read, body, 0);
    }
    if no_note_left(read, next) {
        nothing_from(read, next, 0);
        assert(strip_all(read, next, Some(m)) == (next, Some(m)));
    }
}

/// What follows the marker is a note just where a valid one takes up all of it but
/// white space around it.
pub proof fn a_note_takes_up_the_rest<P: Fn(&str) -> ReaderAnswer>(
    read: P,
    s: Seq<char>,
    raw: RawMetaView,
    n: int,
)
    ensures
        whole_note(read, s) == whole_note(read, trim(s)),
        reading(read, trim(s)) is None ==> whole_note(read, s) is None,
        reading(read, trim(s)) == Some((raw, n)) && n == trim(s).len() ==> whole_note(read, s)
            == checked(raw),
        reading(read, trim(s)) == Some((raw, n)) && n != trim(s).len() ==> whole_note(read, s) is None,
{
    trim_again(s);
}

/// The outcome tells whether the marker was there and whether there is a note.
pub proof fn outcomes_tell_what_was_found<P: Fn(&str) -> ReaderAnswer>(read: P, raw: Seq<char>)
    ensures
        ({
            let r = separated(read, raw);
            &&& contains(raw, ADVISOR_META_MARKER@) <==> r.2 == MetaSeparationOutcome::Parsed || r.2
                == MetaSeparationOutcome::ParseFailed
            &&& r.1 is Some <==> r.2 == MetaSeparationOutcome::Parsed || r.2
                == MetaSeparationOutcome::RecoveredWithoutMarker
            &&& r.2 == MetaSeparationOutcome::NoMarker && !contains(raw, ADVISOR_META_SENTINEL@)
                ==> r.0 == trim(raw)
        }),
{
    trim_is_piece(raw);
    if contains(trim(raw), ADVISOR_META_SENTINEL@) {
        let (a, b) = choose|a: int, b: int| 0 <= a <= b <= raw.len() && trim(raw) == raw.subrange(a, b);
        piece_contains(raw, a, b, ADVISOR_META_SENTINEL@);
    }
}

} // verus!
