//! Texts on their way into a prompt and out of a draft.
use crate::text::{
    chars_of, contains, cut, find, find_is_first, find_some, has, is_white, join, joined,
    joined_parts_are_cut_apart, occurs_at, position, split, split_at_each, start_of, stands_at,
    take_next, texts, trim_start, trim_start_cuts,
};
use vstd::prelude::*;

verus! {

/// The rule that keeps Markdown out of drafted texts.
pub const MARKDOWN_BAN_RULE: &'static str = "- Markdown記法(見出し・太字・リンク・表・コードブロック等)は使わない。プレーンテキストだけで書く。\n";

/// The rule on how a draft opens where the conversation is under way.
pub const CONTINUATION_OPENER_RULE: &'static str = "- 会話の続きなので、名乗りやお礼から書き始めず、直前の発話を受けて本題から書く。\n";

/// `question` where it has at most `limit` characters; its first `limit`
/// characters where it has more.
pub open spec fn within_limit(question: Seq<char>, limit: nat) -> Seq<char> {
    if question.len() <= limit {
        question
    } else {
        question.take(limit as int)
    }
}

/// The question cut to at most `limit` characters.
pub fn truncate_question(question: &str, limit: usize) -> (r: String)
    ensures
        r@ == within_limit(question@, limit as nat),
{
    let v = chars_of(question);
    if v.len() <= limit {
        question.to_owned()
    } else {
        assert(v@.subrange(0, limit as int) =~= v@.take(limit as int));
        cut(&v, 0, limit)
    }
}

/// `c` as it may stand inside a delimited block.
pub open spec fn neutral_char(c: char) -> char {
    if c == '<' {
        '＜'
    } else if c == '>' {
        '＞'
    } else {
        c
    }
}

/// `s` with the characters that open and close delimiters taken out of service.
pub open spec fn neutral(s: Seq<char>) -> Seq<char> {
    s.map_values(|c: char| neutral_char(c))
}

/// No delimiter can be written with what is neutral.
pub proof fn neutral_has_no_delimiter(s: Seq<char>)
    ensures
        !neutral(s).contains('<'),
        !neutral(s).contains('>'),
        neutral(s).len() == s.len(),
{
}

/// The text with the characters that open and close delimiters taken out of
/// service.
pub fn neutralize_delimiters(s: &str) -> (r: String)
    ensures
        r@ == neutral(s@),
{
    let v = chars_of(s);
    let mut r: String = String::new();
    let mut i: usize = 0;
    while i < v.len()
        invariant
            v@ == s@,
            i <= v.len(),
            r@ =~= neutral(s@.take(i as int)),
        decreases v.len() - i,
    {
        let c = v[i];
        r.push(
            if c == '<' {
                '＜'
            } else if c == '>' {
                '＞'
            } else {
                c
            },
        );
        i = i + 1;
    }
    assert(s@.take(s@.len() as int) =~= s@);
    r
}

/// Where a link that starts at the beginning of `s` has its middle and its end.
pub open spec fn link_at_start(s: Seq<char>) -> Option<(int, int)> {
    if s.len() > 0 && s[0] == '[' {
        match find(s, "]("@) {
            Some(j) => match find(s.skip(j + 2), ")"@) {
                Some(k) => if j >= 1 && !s.subrange(1, j).contains('[') {
                    Some((j, j + 2 + k))
                } else {
                    None
                },
                None => None,
            },
            None => None,
        }
    } else {
        None
    }
}

/// `s` with each link written as its words and its address in brackets.
pub open spec fn unlinked(s: Seq<char>) -> Seq<char>
    decreases s.len(),
{
    if s.len() == 0 {
        s
    } else {
        match link_at_start(s) {
            Some((j, k)) => if 1 <= j && j + 2 <= k < s.len() {
                s.subrange(1, j) + seq!['（'] + s.subrange(j + 2, k) + seq!['）'] + unlinked(
                    s.skip(k + 1),
                )
            } else {
                seq![s[0]] + unlinked(s.drop_first())
            },
            None => seq![s[0]] + unlinked(s.drop_first()),
        }
    }
}

/// `line` opens or closes a block of code.
pub open spec fn is_fence(line: Seq<char>) -> bool {
    occurs_at(trim_start(line), "```"@, 0)
}

/// `line` with its list mark made plain, and its links.
pub open spec fn plain_line(line: Seq<char>) -> Seq<char> {
    if occurs_at(line, "- "@, 0) {
        unlinked(seq!['・'] + line.skip(2))
    } else {
        unlinked(line)
    }
}

/// The lines made plain, fences left out.
pub open spec fn plain_lines(lines: Seq<Seq<char>>) -> Seq<Seq<char>>
    decreases lines.len(),
{
    if lines.len() == 0 {
        Seq::empty()
    } else if is_fence(lines.last()) {
        plain_lines(lines.drop_last())
    } else {
        plain_lines(lines.drop_last()).push(plain_line(lines.last()))
    }
}

/// `s` without Markdown.
pub open spec fn plain_text(s: Seq<char>) -> Seq<char> {
    join(plain_lines(split(s, '\n')), "\n"@)
}

proof fn unlinked_without_bracket(s: Seq<char>)
    requires
        !s.contains('['),
    ensures
        unlinked(s) == s,
    decreases s.len(),
{
    if s.len() > 0 {
        assert(s[0] != '[');
        let rest = s.drop_first();
        assert(!rest.contains('[')) by {
            if rest.contains('[') {
                let i = choose|i: int| 0 <= i < rest.len() && rest[i] == '[';
                assert(s[i + 1] == '[');
            }
        }
        unlinked_without_bracket(rest);
        assert(seq![s[0]] + rest =~= s);
    }
}

proof fn one_line(s: Seq<char>)
    requires
        !s.contains('\n'),
    ensures
        split(s, '\n') =~= seq![s],
    decreases s.len(),
{
    if s.len() > 0 {
        let head = s.drop_last();
        assert(!head.contains('\n')) by {
            if head.contains('\n') {
                let i = choose|i: int| 0 <= i < head.len() && head[i] == '\n';
                assert(s[i] == '\n');
            }
        }
        one_line(head);
        assert(s[s.len() - 1] != '\n');
        assert(head.push(s.last()) =~= s);
    } else {
        assert(s =~= Seq::empty());
    }
}

/// A single line without a fence, a list mark or a bracket is plain already.
pub proof fn plain_already(s: Seq<char>)
    requires
        !s.contains('\n'),
        !s.contains('['),
        !occurs_at(s, "- "@, 0),
        !is_fence(s),
    ensures
        plain_text(s) == s,
{
    one_line(s);
    unlinked_without_bracket(s);
    let lines = seq![s];
    assert(lines.drop_last() =~= Seq::empty());
    assert(plain_lines(lines.drop_last()) =~= Seq::empty());
    assert(plain_lines(lines) =~= seq![s]);
}

fn bracket_between(v: &[char], a: usize, b: usize) -> (r: bool)
    requires
        a <= b <= v.len(),
    ensures
        r == v@.subrange(a as int, b as int).contains('['),
{
    let mut i: usize = a;
    while i < b
        invariant
            a <= i <= b <= v.len(),
            forall|j: int| a <= j < i ==> v@[j] != '[',
        decreases b - i,
    {
        if v[i] == '[' {
            assert(v@.subrange(a as int, b as int)[i - a] == '[');
            return true;
        }
        i = i + 1;
    }
    false
}

fn find_link(v: &[char]) -> (r: Option<(usize, usize)>)
    ensures
        match r {
            Some((j, k)) => link_at_start(v@) == Some((j as int, k as int)) && 1 <= j && j + 2 <= k
                < v.len(),
            None => link_at_start(v@) is None,
        },
{
    proof {
        reveal_strlit("](");
        reveal_strlit(")");
    }
    if v.len() == 0 || v[0] != '[' {
        return None;
    }
    let middle = chars_of("](");
    match position(v, &middle) {
        None => None,
        Some(j) => {
            assert(occurs_at(v@, middle@, j as int));
            let end: usize = v.len();
            assert(j + 2 <= end);
            let rest = chars_of(cut(v, j + 2, end).as_str());
            assert(rest@ =~= v@.skip(j + 2));
            let close = chars_of(")");
            match position(&rest, &close) {
                None => None,
                Some(k) => {
                    assert(occurs_at(rest@, close@, k as int));
                    assert(v@.subrange(j as int, j + 2)[0] == ']');
                    assert(j >= 1);
                    if bracket_between(v, 1, j) {
                        None
                    } else {
                        Some((j, j + 2 + k))
                    }
                },
            }
        },
    }
}

/// The text with each link written as its words and its address in brackets.
pub fn unlink(s: &str) -> (r: String)
    ensures
        r@ == unlinked(s@),
{
    let mut rest: Vec<char> = chars_of(s);
    let mut r: String = String::new();
    while rest.len() > 0
        invariant
            r@ + unlinked(rest@) =~= unlinked(s@),
        decreases rest.len(),
    {
        let ghost r0 = r@;
        let ghost rest0 = rest@;
        match find_link(&rest) {
            Some((j, k)) => {
                r.append(cut(&rest, 1, j).as_str());
                r.push('（');
                r.append(cut(&rest, j + 2, k).as_str());
                r.push('）');
                let n: usize = rest.len();
                rest = chars_of(cut(&rest, k + 1, n).as_str());
                assert(rest@ =~= rest0.skip(k + 1));
                assert(r@ =~= r0 + (rest0.subrange(1, j as int) + seq!['（'] + rest0.subrange(
                    j + 2,
                    k as int,
                ) + seq!['）']));
            },
            None => {
                r.push(rest[0]);
                let n: usize = rest.len();
                rest = chars_of(cut(&rest, 1, n).as_str());
                assert(rest@ =~= rest0.drop_first());
                assert(r@ =~= r0 + seq![rest0[0]]);
            },
        }
    }
    r
}

/// The text without Markdown: fences of code blocks are dropped, list marks
/// become middle dots, and links become their words and their address in
/// brackets.
pub fn to_plain_text(s: &str) -> (r: String)
    ensures
        r@ == plain_text(s@),
{
    let lines = split_at_each(s, '\n');
    let ghost all = texts(lines@);
    let fence = chars_of("```");
    let mark = chars_of("- ");
    proof {
        reveal_strlit("- ");
    }
    let mut kept: Vec<String> = Vec::new();
    let mut i: usize = 0;
    assert(texts(kept@) =~= plain_lines(all.take(0)));
    while i < lines.len()
        invariant
            i <= lines.len(),
            all == texts(lines@),
            all == split(s@, '\n'),
            fence@ == "```"@,
            mark@ == "- "@,
            mark@.len() == 2,
            texts(kept@) == plain_lines(all.take(i as int)),
        decreases lines.len() - i,
    {
        proof {
            take_next(all, i as int);
        }
        let v = chars_of(lines[i].as_str());
        let a: usize = start_of(&v);
        let n: usize = v.len();
        let body = chars_of(cut(&v, a, n).as_str());
        assert(body@ =~= trim_start(v@));
        if !stands_at(&body, &fence, 0) {
            let plain = if stands_at(&v, &mark, 0) {
                let mut t: String = String::new();
                t.push('・');
                t.append(cut(&v, 2, n).as_str());
                assert(t@ =~= seq!['・'] + v@.skip(2));
                unlink(t.as_str())
            } else {
                unlink(lines[i].as_str())
            };
            let ghost k0 = kept@;
            let ghost t0 = plain@;
            kept.push(plain);
            assert(texts(kept@) =~= texts(k0).push(t0));
        }
        i = i + 1;
    }
    assert(all.take(all.len() as int) =~= all);
    joined(kept.as_slice(), "\n")
}

/// Words that must not reach a customer.
#[derive(Debug, Clone, PartialEq, Eq)]
pub struct NgDictionary {
    /// Words that stop a text.
    pub block_terms: Vec<String>,
    /// Words on which the advisor rather says nothing.
    pub abstain_terms: Vec<String>,
}

/// What the words in a text mean for sending it.
#[derive(Debug, Clone, Copy, PartialEq, Eq, Structural)]
pub enum EgressVerdict {
    Pass,
    Block,
    Abstain,
}

/// One of the terms stands in the text.
pub open spec fn holds_term(text: Seq<char>, terms: Seq<String>) -> bool {
    exists|i: int| 0 <= i < terms.len() && contains(text, (#[trigger] terms[i])@)
}

/// What the words in `text` mean for sending it.
pub open spec fn verdict(text: Seq<char>, ng: NgDictionary) -> EgressVerdict {
    if holds_term(text, ng.block_terms@) {
        EgressVerdict::Block
    } else if holds_term(text, ng.abstain_terms@) {
        EgressVerdict::Abstain
    } else {
        EgressVerdict::Pass
    }
}

fn any_term(text: &str, terms: &[String]) -> (r: bool)
    ensures
        r == holds_term(text@, terms@),
{
    let mut i: usize = 0;
    while i < terms.len()
        invariant
            i <= terms.len(),
            forall|j: int| 0 <= j < i ==> !contains(text@, (#[trigger] terms@[j])@),
        decreases terms.len() - i,
    {
        if has(text, terms[i].as_str()) {
            return true;
        }
        i = i + 1;
    }
    false
}

/// What the words in the text mean for sending it.
pub fn egress_gate(text: &str, ng: &NgDictionary) -> (r: EgressVerdict)
    ensures
        r == verdict(text@, *ng),
{
    if any_term(text, ng.block_terms.as_slice()) {
        EgressVerdict::Block
    } else if any_term(text, ng.abstain_terms.as_slice()) {
        EgressVerdict::Abstain
    } else {
        EgressVerdict::Pass
    }
}

/// A text as it was drafted.
#[derive(Debug, Clone, PartialEq, Eq)]
pub struct ReplyDraft {
    pub text: String,
    /// The draft broke off before its end.
    pub truncated: bool,
}

/// The text of a draft that is whole and free of forbidden words, and the
/// fallback in place of any other.
pub open spec fn draft_or(
    text: Seq<char>,
    truncated: bool,
    ng: NgDictionary,
    fallback: Seq<char>,
) -> Seq<char> {
    if !truncated && verdict(text, ng) == EgressVerdict::Pass {
        text
    } else {
        fallback
    }
}

/// The text of a draft that is whole and free of forbidden words, and the
/// fallback in place of any other.
pub fn apply_draft_gate_or_fallback(draft: ReplyDraft, ng: &NgDictionary, fallback: &str) -> (r: String)
    ensures
        r@ == draft_or(draft.text@, draft.truncated, *ng, fallback@),
{
    if draft.truncated {
        return fallback.to_owned();
    }
    match egress_gate(draft.text.as_str(), ng) {
        EgressVerdict::Pass => draft.text,
        _ => fallback.to_owned(),
    }
}

/// A question that is cut starts as it was, and has as many characters as it may
/// have or as it had.
pub proof fn cut_questions_keep_their_beginning(question: Seq<char>, limit: nat)
    ensures
        within_limit(question, limit).len() == if question.len() < limit {
            question.len()
        } else {
            limit
        },
        forall|i: int|
            0 <= i < within_limit(question, limit).len() ==> #[trigger] within_limit(
                question,
                limit,
            )[i] == question[i],
{
}

/// Only the two characters that open and close delimiters are changed, each into
/// its wide form; every other character stays in its place.
pub proof fn only_delimiters_are_neutralized(s: Seq<char>, i: int)
    requires
        0 <= i < s.len(),
    ensures
        neutral(s).len() == s.len(),
        s[i] != '<' && s[i] != '>' ==> neutral(s)[i] == s[i],
        s[i] == '<' ==> neutral(s)[i] == '＜',
        s[i] == '>' ==> neutral(s)[i] == '＞',
{
}

/// A link is written as its words and, in wide brackets, its address; what follows
/// it is dealt with by itself.
pub proof fn links_show_words_and_address(words: Seq<char>, address: Seq<char>, rest: Seq<char>)
    requires
        !words.contains('['),
        !words.contains(']'),
        !address.contains(')'),
    ensures
        unlinked(seq!['['] + words + seq![']', '('] + address + seq![')'] + rest) =~= words + seq![
            '（',
        ] + address + seq!['）'] + unlinked(rest),
{
    reveal_strlit("](");
    reveal_strlit(")");
    let s = seq!['['] + words + seq![']', '('] + address + seq![')'] + rest;
    let j = 1 + words.len() as int;
    let k = j + 2 + address.len();
    assert(s.subrange(j, j + 2) =~= "]("@);
    assert forall|p: int| 0 <= p < j implies !occurs_at(s, "]("@, p) by {
        if occurs_at(s, "]("@, p) {
            assert(s.subrange(p, p + 2)[0] == s[p]);
            assert("]("@[0] == ']');
            if p > 0 {
                assert(s[p] == words[p - 1]);
            }
        }
    }
    assert(occurs_at(s, "]("@, j));
    find_is_first(s, "]("@, j);
    let t = s.skip(j + 2);
    let n = address.len() as int;
    assert(t.subrange(n, n + 1) =~= ")"@);
    assert forall|p: int| 0 <= p < n implies !occurs_at(t, ")"@, p) by {
        if occurs_at(t, ")"@, p) {
            assert(t.subrange(p, p + 1)[0] == t[p]);
            assert(")"@[0] == ')');
            assert(t[p] == address[p]);
        }
    }
    assert(occurs_at(t, ")"@, n));
    find_is_first(t, ")"@, n);
    assert(s.subrange(1, j) =~= words);
    assert(s.subrange(j + 2, k) =~= address);
    assert(s.skip(k + 1) =~= rest);
}

/// A character that opens no link stays as it is, before whatever follows.
pub proof fn other_characters_stay(c: char, rest: Seq<char>)
    requires
        c != '[',
    ensures
        unlinked(seq![c] + rest) =~= seq![c] + unlinked(rest),
{
    assert((seq![c] + rest).drop_first() =~= rest);
}

/// Markdown is taken out line by line: lines that open or close a block of code
/// are left out, and each other line is made plain in its place.
pub proof fn markdown_goes_line_by_line(lines: Seq<Seq<char>>)
    requires
        lines.len() > 0,
        forall|i: int| 0 <= i < lines.len() ==> !(#[trigger] lines[i]).contains('\n'),
    ensures
        plain_text(join(lines, seq!['\n'])) == join(
            lines.filter(|l: Seq<char>| !is_fence(l)).map_values(|l: Seq<char>| plain_line(l)),
            "\n"@,
        ),
{
    joined_parts_are_cut_apart(lines, '\n');
    plain_lines_filter(lines);
}

proof fn plain_lines_filter(lines: Seq<Seq<char>>)
    ensures
        plain_lines(lines) =~= lines.filter(|l: Seq<char>| !is_fence(l)).map_values(
            |l: Seq<char>| plain_line(l),
        ),
    decreases lines.len(),
{
    reveal(Seq::filter);
    if lines.len() > 0 {
        plain_lines_filter(lines.drop_last());
    }
}

/// A line that starts with a hyphen and a space starts with a bullet instead, and
/// otherwise has its links written out.
pub proof fn list_marks_become_bullets(rest: Seq<char>, line: Seq<char>)
    requires
        line.len() < 2 || line[0] != '-' || line[1] != ' ',
    ensures
        plain_line(seq!['-', ' '] + rest) =~= seq!['・'] + unlinked(rest),
        plain_line(line) == unlinked(line),
{
    reveal_strlit("- ");
    let marked = seq!['-', ' '] + rest;
    assert(marked.subrange(0, 2) =~= "- "@);
    assert(marked.skip(2) =~= rest);
    other_characters_stay('・', rest);
    if occurs_at(line, "- "@, 0) {
        assert(line.subrange(0, 2)[0] == line[0]);
        assert(line.subrange(0, 2)[1] == line[1]);
        assert("- "@[0] == '-' && "- "@[1] == ' ');
    }
}

/// A line opens or closes a block of code just where its first characters behind
/// white space are three backticks.
pub proof fn fences_are_three_backticks(space: Seq<char>, rest: Seq<char>, line: Seq<char>)
    requires
        forall|i: int| 0 <= i < space.len() ==> is_white(#[trigger] space[i]),
        !line.contains('`'),
    ensures
        is_fence(space + seq!['`', '`', '`'] + rest),
        !is_fence(line),
{
    reveal_strlit("```");
    let marked = seq!['`', '`', '`'] + rest;
    assert(marked.subrange(0, 3) =~= "```"@);
    leading_white_space_goes(space, marked);
    assert(space + seq!['`', '`', '`'] + rest =~= space + marked);
    if is_fence(line) {
        let t = trim_start(line);
        trim_start_cuts(line);
        let a = choose|a: int| 0 <= a <= line.len() && t == line.skip(a);
        assert(t.subrange(0, 3)[0] == t[0]);
        assert("```"@[0] == '`');
        assert(line[a] == '`');
    }
}

proof fn leading_white_space_goes(space: Seq<char>, rest: Seq<char>)
    requires
        forall|i: int| 0 <= i < space.len() ==> is_white(#[trigger] space[i]),
        rest.len() > 0,
        !is_white(rest[0]),
    ensures
        trim_start(space + rest) =~= rest,
    decreases space.len(),
{
    if space.len() > 0 {
        let more = space.drop_first();
        assert forall|i: int| 0 <= i < more.len() implies is_white(#[trigger] more[i]) by {
            assert(more[i] == space[i + 1]);
        }
        assert(is_white(space[0]));
        assert((space + rest).drop_first() =~= more + rest);
        leading_white_space_goes(more, rest);
    } else {
        assert(space + rest =~= rest);
    }
}

/// A text is blocked just where it holds one of the words for that, whichever place
/// the word has in the list; held back where it holds none of those but one of the
/// words for that; and passes where it holds none of either.
pub proof fn every_forbidden_word_counts(text: Seq<char>, ng: NgDictionary)
    ensures
        verdict(text, ng) == EgressVerdict::Block <==> exists|i: int|
            0 <= i < ng.block_terms@.len() && contains(text, (#[trigger] ng.block_terms@[i])@),
        verdict(text, ng) == EgressVerdict::Pass <==> (forall|i: int|
            0 <= i < ng.block_terms@.len() ==> !contains(text, (#[trigger] ng.block_terms@[i])@))
            && (forall|i: int|
            0 <= i < ng.abstain_terms@.len() ==> !contains(text, (#[trigger] ng.abstain_terms@[i])@)),
{
}

/// A draft with a forbidden word anywhere, and one that broke off, is never what is
/// sent on; a whole one without any is, as it stands.
pub proof fn drafts_with_forbidden_words_are_replaced(
    text: Seq<char>,
    truncated: bool,
    ng: NgDictionary,
    fallback: Seq<char>,
)
    ensures
        truncated ==> draft_or(text, truncated, ng, fallback) == fallback,
        (exists|i: int|
            0 <= i < ng.block_terms@.len() && contains(text, (#[trigger] ng.block_terms@[i])@))
            ==> draft_or(text, truncated, ng, fallback) == fallback,
        (exists|i: int|
            0 <= i < ng.abstain_terms@.len() && contains(text, (#[trigger] ng.abstain_terms@[i])@))
            ==> draft_or(text, truncated, ng, fallback) == fallback,
        !truncated && (forall|i: int|
            0 <= i < ng.block_terms@.len() ==> !contains(text, (#[trigger] ng.block_terms@[i])@))
            && (forall|i: int|
            0 <= i < ng.abstain_terms@.len() ==> !contains(text, (#[trigger] ng.abstain_terms@[i])@))
            ==> draft_or(text, truncated, ng, fallback) == text,
{
}

/// A bracket that opens behind another, before that one closes, starts the link: the
/// first is no link and stays.
pub proof fn links_start_at_the_last_bracket(words: Seq<char>, rest: Seq<char>)
    requires
        !words.contains(']'),
    ensures
        unlinked(seq!['['] + words + seq!['['] + rest) =~= seq!['['] + unlinked(
            words + seq!['['] + rest,
        ),
{
    reveal_strlit("](");
    let s = seq!['['] + words + seq!['['] + rest;
    assert(s.drop_first() =~= words + seq!['['] + rest);
    assert(s[0] == '[');
    if contains(s, "]("@) {
        find_some(s, "]("@);
        let j = find(s, "]("@)->0;
        assert(occurs_at(s, "]("@, j));
        assert(s.subrange(j, j + 2)[0] == s[j]);
        assert("]("@[0] == ']');
        let n = words.len() + 1;
        if j <= n {
            if 1 <= j < n {
                assert(s[j] == words[j - 1]);
                assert(words.contains(words[j - 1]));
            }
        }
        assert(j > n);
        assert(s.subrange(1, j)[n - 1] == '[');
        assert(s.subrange(1, j).contains('['));
    }
    assert(link_at_start(s) is None);
}

} // verus!
