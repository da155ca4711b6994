//! Text as sequences of characters: the search, trimming, joining and ordering
//! operations that the rest of the library is stated with.
use vstd::prelude::*;
use vstd::string::*;

verus! {

/// `String::push` appends the given character to the end of the string.
pub assume_specification[ String::push ](s: &mut String, c: char)
    ensures
        final(s)@ == old(s)@.push(c),
;

/// The characters of Unicode's `White_Space` property.
pub open spec fn is_white(c: char) -> bool {
    ||| 0x9 <= c as u32 <= 0xd
    ||| c as u32 == 0x20
    ||| c as u32 == 0x85
    ||| c as u32 == 0xa0
    ||| c as u32 == 0x1680
    ||| 0x2000 <= c as u32 <= 0x200a
    ||| c as u32 == 0x2028
    ||| c as u32 == 0x2029
    ||| c as u32 == 0x202f
    ||| c as u32 == 0x205f
    ||| c as u32 == 0x3000
}

/// The characters of Unicode's general category `Cc`.
pub open spec fn is_control(c: char) -> bool {
    c as u32 <= 0x1f || 0x7f <= c as u32 <= 0x9f
}

/// `s` without its leading white space.
pub open spec fn trim_start(s: Seq<char>) -> Seq<char>
    decreases s.len(),
{
    if s.len() > 0 && is_white(s[0]) {
        trim_start(s.drop_first())
    } else {
        s
    }
}

/// `s` without its trailing white space.
pub open spec fn trim_end(s: Seq<char>) -> Seq<char>
    decreases s.len(),
{
    if s.len() > 0 && is_white(s.last()) {
        trim_end(s.drop_last())
    } else {
        s
    }
}

/// `s` without white space at either end.
pub open spec fn trim(s: Seq<char>) -> Seq<char> {
    trim_end(trim_start(s))
}

/// `pat` stands in `s` at position `i`.
pub open spec fn occurs_at(s: Seq<char>, pat: Seq<char>, i: int) -> bool {
    0 <= i && i + pat.len() <= s.len() && s.subrange(i, i + pat.len()) == pat
}

/// `pat` stands somewhere in `s`.
pub open spec fn contains(s: Seq<char>, pat: Seq<char>) -> bool {
    exists|i: int| occurs_at(s, pat, i)
}

/// `i` is the first position at which `pat` stands in `s`.
pub open spec fn first_at(s: Seq<char>, pat: Seq<char>, i: int) -> bool {
    occurs_at(s, pat, i) && forall|j: int| 0 <= j < i ==> !occurs_at(s, pat, j)
}

/// Where `pat` first stands in `s`.
pub open spec fn find(s: Seq<char>, pat: Seq<char>) -> Option<int> {
    if contains(s, pat) {
        Some(choose|i: int| first_at(s, pat, i))
    } else {
        None
    }
}

/// The first position is unique, and there is one wherever the pattern occurs.
pub proof fn find_is_first(s: Seq<char>, pat: Seq<char>, i: int)
    requires
        first_at(s, pat, i),
    ensures
        find(s, pat) == Some(i),
{
    assert(contains(s, pat));
    let k = choose|k: int| first_at(s, pat, k);
    assert(first_at(s, pat, k));
    assert(k == i) by {
        if k < i {
            assert(!occurs_at(s, pat, k));
        }
        if i < k {
            assert(!occurs_at(s, pat, i));
        }
    }
}

/// Where the pattern occurs, `find` gives its first position.
pub proof fn find_some(s: Seq<char>, pat: Seq<char>)
    requires
        contains(s, pat),
    ensures
        find(s, pat) is Some,
        first_at(s, pat, find(s, pat)->0),
{
    let k = choose|k: int| occurs_at(s, pat, k);
    let f = least_occurrence(s, pat, k);
    assert(first_at(s, pat, f));
}

proof fn least_occurrence(s: Seq<char>, pat: Seq<char>, k: int) -> (f: int)
    requires
        occurs_at(s, pat, k),
    ensures
        first_at(s, pat, f),
    decreases k,
{
    if exists|j: int| 0 <= j < k && occurs_at(s, pat, j) {
        let j = choose|j: int| 0 <= j < k && occurs_at(s, pat, j);
        least_occurrence(s, pat, j)
    } else {
        k
    }
}

/// The parts one after the other, with `sep` between neighbours.
pub open spec fn join(parts: Seq<Seq<char>>, sep: Seq<char>) -> Seq<char>
    decreases parts.len(),
{
    if parts.len() == 0 {
        Seq::empty()
    } else if parts.len() == 1 {
        parts[0]
    } else {
        join(parts.drop_last(), sep) + sep + parts.last()
    }
}

/// The texts that a sequence of strings holds.
pub open spec fn texts(v: Seq<String>) -> Seq<Seq<char>> {
    v.map_values(|s: String| s@)
}

/// `a` comes before `b` in the order of code points, character by character.
pub open spec fn before(a: Seq<char>, b: Seq<char>) -> bool
    decreases a.len(),
{
    if b.len() == 0 {
        false
    } else if a.len() == 0 {
        true
    } else if a[0] != b[0] {
        (a[0] as int) < (b[0] as int)
    } else {
        before(a.drop_first(), b.drop_first())
    }
}

/// Nothing that does not come before `b`, which does not come before `c`,
/// comes before `c`.
pub proof fn not_before_chains(a: Seq<char>, b: Seq<char>, c: Seq<char>)
    requires
        !before(a, b),
        !before(b, c),
    ensures
        !before(a, c),
    decreases a.len(),
{
    if c.len() > 0 {
        assert(b.len() > 0);
        assert(a.len() > 0);
        assert(a[0] as int >= b[0] as int >= c[0] as int);
        if a[0] == c[0] {
            not_before_chains(a.drop_first(), b.drop_first(), c.drop_first());
        }
    }
}

/// What comes before a text comes before all that the text comes before.
pub proof fn before_chains(a: Seq<char>, b: Seq<char>, c: Seq<char>)
    requires
        before(a, b),
        before(b, c),
    ensures
        before(a, c),
{
    before_is_one_way(b, c);
    if !before(a, c) {
        not_before_chains(a, c, b);
    }
}

/// Of two texts only one comes before the other.
pub proof fn before_is_one_way(a: Seq<char>, b: Seq<char>)
    requires
        before(a, b),
    ensures
        !before(b, a),
    decreases a.len(),
{
    if a.len() > 0 && b.len() > 0 && a[0] == b[0] {
        before_is_one_way(a.drop_first(), b.drop_first());
    }
}

/// Texts of which neither comes before the other are the same.
pub proof fn neither_before_is_same(a: Seq<char>, b: Seq<char>)
    requires
        !before(a, b),
        !before(b, a),
    ensures
        a == b,
    decreases a.len(),
{
    if a.len() > 0 && b.len() > 0 {
        assert(a[0] == b[0]);
        neither_before_is_same(a.drop_first(), b.drop_first());
        assert(a =~= seq![a[0]] + a.drop_first());
        assert(b =~= seq![b[0]] + b.drop_first());
    } else {
        assert(a =~= b);
    }
}

/// The decimal digit for `d`.
pub open spec fn digit(d: nat) -> char {
    (('0' as u32) + d) as char
}

/// `n` written in decimal, without leading zeros.
pub open spec fn decimal(n: nat) -> Seq<char>
    decreases n,
{
    if n < 10 {
        seq![digit(n)]
    } else {
        decimal(n / 10).push(digit(n % 10))
    }
}

/// `n` written in decimal, with a leading minus sign where it is negative.
pub open spec fn signed_decimal(n: int) -> Seq<char> {
    if n < 0 {
        seq!['-'] + decimal((-n) as nat)
    } else {
        decimal(n as nat)
    }
}

/// `c` is one of the ten decimal digits.
pub open spec fn is_digit(c: char) -> bool {
    '0' as int <= c as int <= '9' as int
}

/// What a text of decimal digits stands for; a text that is empty or holds
/// anything else stands for nothing.
pub open spec fn digits_value(s: Seq<char>) -> Option<nat>
    decreases s.len(),
{
    if s.len() == 0 || !is_digit(s.last()) {
        None
    } else if s.len() == 1 {
        Some((s[0] as int - '0' as int) as nat)
    } else {
        match digits_value(s.drop_last()) {
            Some(v) => Some(v * 10 + (s.last() as int - '0' as int) as nat),
            None => None,
        }
    }
}

/// What a number of digits with an optional leading plus sign stands for.
pub open spec fn unsigned_value(s: Seq<char>) -> Option<nat> {
    if s.len() > 0 && s[0] == '+' {
        digits_value(s.drop_first())
    } else {
        digits_value(s)
    }
}

/// What a number of digits with an optional leading sign stands for.
pub open spec fn signed_value(s: Seq<char>) -> Option<int> {
    if s.len() > 0 && s[0] == '-' {
        match digits_value(s.drop_first()) {
            Some(v) => Some(-(v as int)),
            None => None,
        }
    } else {
        match unsigned_value(s) {
            Some(v) => Some(v as int),
            None => None,
        }
    }
}

/// `s` cut at every `sep`.
pub open spec fn split(s: Seq<char>, sep: char) -> Seq<Seq<char>>
    decreases s.len(),
{
    if s.len() == 0 {
        seq![Seq::empty()]
    } else {
        let parts = split(s.drop_last(), sep);
        if s.last() == sep {
            parts.push(Seq::empty())
        } else {
            parts.drop_last().push(parts.last().push(s.last()))
        }
    }
}

/// The trimmed parts that are not blank.
pub open spec fn non_blank(parts: Seq<Seq<char>>) -> Seq<Seq<char>>
    decreases parts.len(),
{
    if parts.len() == 0 {
        Seq::empty()
    } else {
        let rest = non_blank(parts.drop_last());
        let item = trim(parts.last());
        if item.len() == 0 {
            rest
        } else {
            rest.push(item)
        }
    }
}

/// The items of a comma-separated list: trimmed, blanks left out.
pub open spec fn csv_items(s: Seq<char>) -> Seq<Seq<char>> {
    non_blank(split(s, ','))
}

/// `s` without the first occurrence of `pat`.
pub open spec fn without_first(s: Seq<char>, pat: Seq<char>) -> Seq<char> {
    match find(s, pat) {
        Some(i) => s.take(i) + s.skip(i + pat.len()),
        None => s,
    }
}

/// `s` where it has at most `n` characters; its first `n` characters and an
/// ellipsis where it has more.
pub open spec fn shortened(s: Seq<char>, n: nat) -> Seq<char> {
    if s.len() <= n {
        s
    } else {
        s.take(n as int).push('…')
    }
}

/// The first `i + 1` elements are the first `i` and the one after them.
pub proof fn take_next<A>(s: Seq<A>, i: int)
    requires
        0 <= i < s.len(),
    ensures
        s.take(i + 1) == s.take(i).push(s[i]),
        s.take(i + 1).drop_last() == s.take(i),
        s.take(i + 1).last() == s[i],
{
    assert(s.take(i + 1) =~= s.take(i).push(s[i]));
    assert(s.take(i + 1).drop_last() =~= s.take(i));
}

/// The decimal form of a number is a text of digits that stands for it.
pub proof fn decimal_reads_back(n: nat)
    ensures
        digits_value(decimal(n)) == Some(n),
        decimal(n).len() >= 1,
        is_digit(decimal(n)[0]),
    decreases n,
{
    if n >= 10 {
        decimal_reads_back(n / 10);
        let d = decimal(n);
        assert(d.drop_last() =~= decimal(n / 10));
        assert(d.len() >= 2);
    }
}

/// The signed decimal form of a number stands for it.
pub proof fn signed_decimal_reads_back(n: int)
    ensures
        signed_value(signed_decimal(n)) == Some(n),
{
    if n < 0 {
        decimal_reads_back((-n) as nat);
        assert(signed_decimal(n).drop_first() =~= decimal((-n) as nat));
    } else {
        decimal_reads_back(n as nat);
        assert(decimal(n as nat)[0] != '-' && decimal(n as nat)[0] != '+');
    }
}

/// `trim_start` takes a prefix of white space off, and nothing else.
pub proof fn trim_start_cuts(s: Seq<char>)
    ensures
        exists|a: int| 0 <= a <= s.len() && trim_start(s) == s.skip(a),
    decreases s.len(),
{
    if s.len() > 0 && is_white(s[0]) {
        trim_start_cuts(s.drop_first());
        let a = choose|a: int|
            0 <= a <= s.drop_first().len() && trim_start(s.drop_first()) == s.drop_first().skip(a);
        assert(s.drop_first().skip(a) =~= s.skip(a + 1));
    } else {
        assert(s.skip(0) =~= s);
    }
}

/// `trim_end` takes a suffix of white space off, and nothing else.
pub proof fn trim_end_cuts(s: Seq<char>)
    ensures
        exists|b: int| 0 <= b <= s.len() && trim_end(s) == s.take(b),
    decreases s.len(),
{
    if s.len() > 0 && is_white(s.last()) {
        trim_end_cuts(s.drop_last());
        let b = choose|b: int|
            0 <= b <= s.drop_last().len() && trim_end(s.drop_last()) == s.drop_last().take(b);
        assert(s.drop_last().take(b) =~= s.take(b));
    } else {
        assert(s.take(s.len() as int) =~= s);
    }
}

/// Trimming the end of a text twice is trimming it once.
pub proof fn trim_end_again(s: Seq<char>)
    ensures
        trim_end(trim_end(s)) == trim_end(s),
    decreases s.len(),
{
    if s.len() > 0 && is_white(s.last()) {
        trim_end_again(s.drop_last());
    }
}

/// A trimmed text is a piece of the text.
pub proof fn trim_is_piece(s: Seq<char>)
    ensures
        exists|a: int, b: int| 0 <= a <= b <= s.len() && trim(s) == s.subrange(a, b),
{
    trim_start_cuts(s);
    let a = choose|a: int| 0 <= a <= s.len() && trim_start(s) == s.skip(a);
    trim_end_cuts(s.skip(a));
    let b = choose|b: int| 0 <= b <= s.skip(a).len() && trim_end(s.skip(a)) == s.skip(a).take(b);
    assert(s.skip(a).take(b) =~= s.subrange(a, a + b));
    assert(trim(s) == s.subrange(a, a + b));
}

/// A pattern in a piece of a text is a pattern in the text.
pub proof fn piece_contains(s: Seq<char>, a: int, b: int, pat: Seq<char>)
    requires
        0 <= a <= b <= s.len(),
        contains(s.subrange(a, b), pat),
    ensures
        contains(s, pat),
{
    let i = choose|i: int| occurs_at(s.subrange(a, b), pat, i);
    assert(s.subrange(a, b).subrange(i, i + pat.len()) =~= s.subrange(a + i, a + i + pat.len()));
    assert(occurs_at(s, pat, a + i));
}

/// An item as it can stand in a comma-separated list: not blank, trimmed, and
/// without a comma.
pub open spec fn is_item(s: Seq<char>) -> bool {
    &&& s.len() > 0
    &&& trim(s) == s
    &&& !s.contains(',')
}

proof fn split_on_from(a: Seq<char>, b: Seq<char>, sep: char)
    requires
        !b.contains(sep),
    ensures
        split(a.push(sep) + b, sep) == split(a, sep).push(b),
    decreases b.len(),
{
    let t = a.push(sep) + b;
    if b.len() == 0 {
        assert(t =~= a.push(sep));
        assert(t.drop_last() =~= a);
        assert(b =~= Seq::empty());
    } else {
        let h = b.drop_last();
        assert(!h.contains(sep)) by {
            if h.contains(sep) {
                let i = choose|i: int| 0 <= i < h.len() && h[i] == sep;
                assert(b[i] == sep);
            }
        }
        split_on_from(a, h, sep);
        assert(t.drop_last() =~= a.push(sep) + h);
        assert(t.last() == b.last());
        assert(b[b.len() - 1] != sep);
        let parts = split(a, sep).push(h);
        assert(parts.drop_last() =~= split(a, sep));
        assert(h.push(b.last()) =~= b);
    }
}

proof fn split_of_one(b: Seq<char>, sep: char)
    requires
        !b.contains(sep),
    ensures
        split(b, sep) =~= seq![b],
    decreases b.len(),
{
    if b.len() > 0 {
        let h = b.drop_last();
        assert(!h.contains(sep)) by {
            if h.contains(sep) {
                let i = choose|i: int| 0 <= i < h.len() && h[i] == sep;
                assert(b[i] == sep);
            }
        }
        split_of_one(h, sep);
        assert(b[b.len() - 1] != sep);
        assert(h.push(b.last()) =~= b);
    } else {
        assert(b =~= Seq::empty());
    }
}

proof fn split_of_join(items: Seq<Seq<char>>)
    requires
        items.len() > 0,
        forall|i: int| 0 <= i < items.len() ==> !(#[trigger] items[i]).contains(','),
    ensures
        split(join(items, ","@), ',') =~= items,
    decreases items.len(),
{
    reveal_strlit(",");
    if items.len() == 1 {
        split_of_one(items[0], ',');
    } else {
        let head = items.drop_last();
        assert forall|i: int| 0 <= i < head.len() implies !(#[trigger] head[i]).contains(',') by {
            assert(head[i] == items[i]);
        }
        split_of_join(head);
        assert(items[items.len() - 1] == items.last());
        split_on_from(join(head, ","@), items.last(), ',');
        assert(","@ =~= seq![',']);
        assert(join(items, ","@) =~= join(head, ","@).push(',') + items.last());
    }
}

proof fn non_blank_of_items(items: Seq<Seq<char>>)
    requires
        forall|i: int| 0 <= i < items.len() ==> is_item(#[trigger] items[i]),
    ensures
        non_blank(items) =~= items,
    decreases items.len(),
{
    if items.len() > 0 {
        let head = items.drop_last();
        assert forall|i: int| 0 <= i < head.len() implies is_item(#[trigger] head[i]) by {
            assert(head[i] == items[i]);
        }
        non_blank_of_items(head);
        assert(is_item(items[items.len() - 1]));
    }
}

/// A list that items were joined to with commas gives the items back.
pub proof fn csv_reads_back(items: Seq<Seq<char>>)
    requires
        forall|i: int| 0 <= i < items.len() ==> is_item(#[trigger] items[i]),
    ensures
        csv_items(join(items, ","@)) == items,
{
    if items.len() > 0 {
        split_of_join(items);
        non_blank_of_items(items);
    } else {
        let e = Seq::<char>::empty();
        assert(split(e, ',') =~= seq![e]);
        let one = seq![e];
        assert(one.drop_last() =~= Seq::empty());
        assert(one.last() == e);
        assert(trim_start(e) == e);
        assert(trim_end(e) == e);
        assert(trim(e).len() == 0);
        assert(non_blank(one.drop_last()) =~= Seq::empty());
        assert(non_blank(one) =~= Seq::empty());
        assert(items =~= Seq::empty());
    }
}

/// A trimmed text is trimmed no further.
pub proof fn trim_again(s: Seq<char>)
    ensures
        trim(trim(s)) == trim(s),
{
    let a = trim_start(s);
    starts_dark(s);
    trim_end_cuts(a);
    let b = choose|b: int| 0 <= b <= a.len() && trim_end(a) == a.take(b);
    let t = trim(s);
    if t.len() > 0 {
        assert(t[0] == a[0]);
    }
    assert(trim_start(t) == t);
    trim_end_again(a);
}

proof fn starts_dark(s: Seq<char>)
    ensures
        trim_start(s).len() > 0 ==> !is_white(trim_start(s)[0]),
    decreases s.len(),
{
    if s.len() > 0 && is_white(s[0]) {
        starts_dark(s.drop_first());
    }
}

proof fn parts_lack_the_separator(s: Seq<char>, sep: char)
    ensures
        forall|i: int| 0 <= i < split(s, sep).len() ==> !(#[trigger] split(s, sep)[i]).contains(sep),
        split(s, sep).len() > 0,
    decreases s.len(),
{
    if s.len() > 0 {
        let parts = split(s.drop_last(), sep);
        let all = split(s, sep);
        parts_lack_the_separator(s.drop_last(), sep);
        assert forall|i: int| 0 <= i < all.len() implies !(#[trigger] all[i]).contains(sep) by {
            if s.last() == sep {
                if i < parts.len() {
                    assert(all[i] == parts[i]);
                }
            } else if i < parts.len() - 1 {
                assert(all[i] == parts[i]);
            } else {
                let p = parts[parts.len() - 1];
                assert(all[i] == p.push(s.last()));
                if all[i].contains(sep) {
                    let k = choose|k: int| 0 <= k < all[i].len() && all[i][k] == sep;
                    if k < p.len() {
                        assert(p[k] == sep);
                    }
                }
            }
        }
    }
}

proof fn non_blank_gives_items(parts: Seq<Seq<char>>)
    requires
        forall|i: int| 0 <= i < parts.len() ==> !(#[trigger] parts[i]).contains(','),
    ensures
        forall|i: int| 0 <= i < non_blank(parts).len() ==> is_item(#[trigger] non_blank(parts)[i]),
    decreases parts.len(),
{
    if parts.len() > 0 {
        let head = parts.drop_last();
        let rest = non_blank(head);
        let all = non_blank(parts);
        assert forall|i: int| 0 <= i < head.len() implies !(#[trigger] head[i]).contains(',') by {
            assert(head[i] == parts[i]);
        }
        non_blank_gives_items(head);
        let last = parts.last();
        assert(!parts[parts.len() - 1].contains(','));
        trim_again(last);
        trim_is_piece(last);
        let (a, b) = choose|a: int, b: int|
            0 <= a <= b <= last.len() && trim(last) == last.subrange(a, b);
        assert(!trim(last).contains(',')) by {
            if trim(last).contains(',') {
                let k = choose|k: int| 0 <= k < trim(last).len() && trim(last)[k] == ',';
                assert(last[a + k] == ',');
            }
        }
        assert forall|i: int| 0 <= i < all.len() implies is_item(#[trigger] all[i]) by {
            if i < rest.len() {
                assert(all[i] == rest[i]);
            }
        }
    }
}

/// What a comma-separated list gives are items.
pub proof fn csv_gives_items(s: Seq<char>)
    ensures
        forall|i: int| 0 <= i < csv_items(s).len() ==> is_item(#[trigger] csv_items(s)[i]),
{
    parts_lack_the_separator(s, ',');
    non_blank_gives_items(split(s, ','));
}

/// The characters of `s`, in order.
pub fn chars_of(s: &str) -> (v: Vec<char>)
    ensures
        v@ == s@,
{
    let mut v: Vec<char> = Vec::new();
    for c in it: s.chars()
        invariant
            it.seq() == s@,
            v@ =~= s@.take(it.index() as int),
    {
        v.push(c);
    }
    assert(s@.take(s@.len() as int) =~= s@);
    v
}

/// `c` is white space.
pub fn white(c: char) -> (r: bool)
    ensures
        r == is_white(c),
{
    let n: u32 = c as u32;
    (0x9 <= n && n <= 0xd) || n == 0x20 || n == 0x85 || n == 0xa0 || n == 0x1680 || (0x2000 <= n
        && n <= 0x200a) || n == 0x2028 || n == 0x2029 || n == 0x202f || n == 0x205f || n == 0x3000
}

/// The characters of `v` from `a` up to `b`, as a string.
pub fn cut(v: &[char], a: usize, b: usize) -> (s: String)
    requires
        a <= b <= v.len(),
    ensures
        s@ == v@.subrange(a as int, b as int),
{
    let mut s: String = String::new();
    let mut i: usize = a;
    while i < b
        invariant
            a <= i <= b <= v.len(),
            s@ =~= v@.subrange(a as int, i as int),
        decreases b - i,
    {
        s.push(v[i]);
        i = i + 1;
    }
    s
}

/// Where the text starts once leading white space is left out.
pub fn start_of(v: &[char]) -> (a: usize)
    ensures
        a <= v.len(),
        trim_start(v@) == v@.skip(a as int),
{
    let mut a: usize = 0;
    assert(v@.skip(0) =~= v@);
    while a < v.len() && white(v[a])
        invariant
            a <= v.len(),
            trim_start(v@) == trim_start(v@.skip(a as int)),
        decreases v.len() - a,
    {
        assert(v@.skip(a as int).drop_first() =~= v@.skip(a + 1));
        a = a + 1;
    }
    a
}

/// Where the text from `a` on ends once trailing white space is left out.
pub fn end_of(v: &[char], a: usize) -> (b: usize)
    requires
        a <= v.len(),
    ensures
        a <= b <= v.len(),
        trim_end(v@.skip(a as int)) == v@.subrange(a as int, b as int),
{
    let mut b: usize = v.len();
    assert(v@.skip(a as int) =~= v@.subrange(a as int, b as int));
    while b > a && white(v[b - 1])
        invariant
            a <= b <= v.len(),
            trim_end(v@.skip(a as int)) == trim_end(v@.subrange(a as int, b as int)),
        decreases b,
    {
        assert(v@.subrange(a as int, b as int).drop_last() =~= v@.subrange(a as int, b - 1));
        b = b - 1;
    }
    b
}

/// The text without white space at either end.
pub fn trimmed(s: &str) -> (r: String)
    ensures
        r@ == trim(s@),
{
    let v = chars_of(s);
    let a: usize = start_of(&v);
    let b: usize = end_of(&v, a);
    cut(&v, a, b)
}

/// The text without trailing white space.
pub fn trimmed_end(s: &str) -> (r: String)
    ensures
        r@ == trim_end(s@),
{
    let v = chars_of(s);
    let b: usize = end_of(&v, 0);
    assert(v@.skip(0) =~= v@);
    cut(&v, 0, b)
}

/// Whether `pat` stands in `s` at position `i`.
pub fn stands_at(s: &[char], pat: &[char], i: usize) -> (r: bool)
    ensures
        r == occurs_at(s@, pat@, i as int),
{
    if i > s.len() || pat.len() > s.len() - i {
        return false;
    }
    let mut k: usize = 0;
    while k < pat.len()
        invariant
            k <= pat.len(),
            i + pat.len() <= s.len(),
            forall|j: int| 0 <= j < k ==> s@[i + j] == pat@[j],
        decreases pat.len() - k,
    {
        if s[i + k] != pat[k] {
            assert(s@.subrange(i as int, i + pat@.len())[k as int] != pat@[k as int]);
            return false;
        }
        k = k + 1;
    }
    assert(s@.subrange(i as int, i + pat@.len()) =~= pat@);
    true
}

/// The first position of `pat` in `s`.
pub fn position(s: &[char], pat: &[char]) -> (r: Option<usize>)
    ensures
        match r {
            Some(i) => find(s@, pat@) == Some(i as int) && first_at(s@, pat@, i as int),
            None => find(s@, pat@) is None && !contains(s@, pat@),
        },
{
    let mut i: usize = 0;
    while i <= s.len()
        invariant
            i <= s.len() + 1,
            forall|j: int| 0 <= j < i ==> !occurs_at(s@, pat@, j),
        decreases s.len() + 1 - i,
    {
        if stands_at(s, pat, i) {
            proof {
                find_is_first(s@, pat@, i as int);
            }
            return Some(i);
        }
        if i == s.len() {
            assert(forall|j: int| occurs_at(s@, pat@, j) ==> 0 <= j <= s@.len());
            return None;
        }
        i = i + 1;
    }
    None
}

/// Whether `pat` stands somewhere in `s`.
pub fn has(s: &str, pat: &str) -> (r: bool)
    ensures
        r == contains(s@, pat@),
{
    let v = chars_of(s);
    let p = chars_of(pat);
    position(&v, &p).is_some()
}

/// Whether two texts are the same.
pub fn same(a: &str, b: &str) -> (r: bool)
    ensures
        r == (a@ == b@),
{
    let x = chars_of(a);
    let y = chars_of(b);
    if x.len() != y.len() {
        return false;
    }
    let mut i: usize = 0;
    while i < x.len()
        invariant
            i <= x.len(),
            x.len() == y.len(),
            x@ == a@,
            y@ == b@,
            forall|j: int| 0 <= j < i ==> x@[j] == y@[j],
        decreases x.len() - i,
    {
        if x[i] != y[i] {
            return false;
        }
        i = i + 1;
    }
    assert(x@ =~= y@);
    true
}

/// Whether the text of a string of `v` is `item`.
pub fn among(v: &[String], item: &str) -> (r: bool)
    ensures
        r == texts(v@).contains(item@),
{
    let mut i: usize = 0;
    while i < v.len()
        invariant
            i <= v.len(),
            forall|j: int| 0 <= j < i ==> (#[trigger] v@[j])@ != item@,
        decreases v.len() - i,
    {
        if same(v[i].as_str(), item) {
            assert(texts(v@)[i as int] == item@);
            return true;
        }
        i = i + 1;
    }
    assert(forall|j: int| 0 <= j < texts(v@).len() ==> texts(v@)[j] == v@[j]@);
    false
}

fn code_point(c: char) -> (r: u32)
    ensures
        r as int == c as int,
{
    c as u32
}

/// Whether `a` comes before `b`.
pub fn precedes(a: &str, b: &str) -> (r: bool)
    ensures
        r == before(a@, b@),
{
    let x = chars_of(a);
    let y = chars_of(b);
    let mut i: usize = 0;
    assert(x@.skip(0) =~= x@);
    assert(y@.skip(0) =~= y@);
    while i < x.len() && i < y.len()
        invariant
            i <= x.len(),
            i <= y.len(),
            before(a@, b@) == before(x@.skip(i as int), y@.skip(i as int)),
        decreases x.len() - i,
    {
        assert(x@.skip(i as int)[0] == x@[i as int]);
        assert(y@.skip(i as int)[0] == y@[i as int]);
        let c: char = x[i];
        let d: char = y[i];
        if c != d {
            return code_point(c) < code_point(d);
        }
        assert(x@.skip(i as int).drop_first() =~= x@.skip(i + 1));
        assert(y@.skip(i as int).drop_first() =~= y@.skip(i + 1));
        i = i + 1;
    }
    i < y.len()
}

/// The parts one after the other, with `sep` between neighbours.
pub fn joined(parts: &[String], sep: &str) -> (r: String)
    ensures
        r@ == join(texts(parts@), sep@),
{
    let mut r: String = String::new();
    let mut i: usize = 0;
    let ghost all = texts(parts@);
    while i < parts.len()
        invariant
            i <= parts.len(),
            all == texts(parts@),
            r@ =~= join(all.take(i as int), sep@),
        decreases parts.len() - i,
    {
        proof {
            take_next(all, i as int);
        }
        if i > 0 {
            r.append(sep);
        }
        r.append(parts[i].as_str());
        i = i + 1;
    }
    assert(all.take(all.len() as int) =~= all);
    r
}

/// The text cut at every `sep`.
pub fn split_at_each(s: &str, sep: char) -> (r: Vec<String>)
    ensures
        texts(r@) == split(s@, sep),
{
    let v = chars_of(s);
    let mut done: Vec<String> = Vec::new();
    let mut current: String = String::new();
    let mut i: usize = 0;
    assert(split(v@.take(0), sep) =~= texts(done@).push(current@));
    while i < v.len()
        invariant
            i <= v.len(),
            split(v@.take(i as int), sep) == texts(done@).push(current@),
        decreases v.len() - i,
    {
        proof {
            take_next(v@, i as int);
        }
        let ghost before_step = texts(done@).push(current@);
        if v[i] == sep {
            let ghost d0 = done@;
            let ghost c0 = current@;
            done.push(current);
            current = String::new();
            assert(texts(done@) =~= texts(d0).push(c0));
        } else {
            assert(before_step.drop_last() =~= texts(done@));
            current.push(v[i]);
        }
        i = i + 1;
    }
    assert(v@.take(v@.len() as int) =~= v@);
    let ghost d0 = done@;
    let ghost c0 = current@;
    done.push(current);
    assert(texts(done@) =~= texts(d0).push(c0));
    done
}

/// The items of a comma-separated list: trimmed, blanks left out.
pub fn csv_list(s: &str) -> (r: Vec<String>)
    ensures
        texts(r@) == csv_items(s@),
{
    let parts = split_at_each(s, ',');
    let ghost all = texts(parts@);
    let mut r: Vec<String> = Vec::new();
    let mut i: usize = 0;
    assert(texts(r@) =~= non_blank(all.take(0)));
    while i < parts.len()
        invariant
            i <= parts.len(),
            all == texts(parts@),
            texts(r@) == non_blank(all.take(i as int)),
        decreases parts.len() - i,
    {
        proof {
            take_next(all, i as int);
        }
        let item = trimmed(parts[i].as_str());
        if !item.as_str().is_empty() {
            let ghost r0 = r@;
            let ghost t0 = item@;
            r.push(item);
            assert(texts(r@) =~= texts(r0).push(t0));
        }
        i = i + 1;
    }
    assert(all.take(all.len() as int) =~= all);
    r
}

/// The text without the first occurrence of `pat`.
pub fn drop_first_of(s: &str, pat: &str) -> (r: String)
    ensures
        r@ == without_first(s@, pat@),
{
    let v = chars_of(s);
    let p = chars_of(pat);
    match position(&v, &p) {
        Some(i) => {
            assert(occurs_at(v@, p@, i as int));
            let end: usize = v.len();
            assert(i + p@.len() <= end);
            let mut r = cut(&v, 0, i);
            let tail = cut(&v, i + p.len(), end);
            r.append(tail.as_str());
            assert(r@ =~= v@.take(i as int) + v@.skip(i + p@.len()));
            r
        },
        None => s.to_owned(),
    }
}

/// The text cut to at most `n` characters, with an ellipsis where it was cut.
pub fn truncate_chars(s: &str, n: usize) -> (r: String)
    ensures
        r@ == shortened(s@, n as nat),
{
    let v = chars_of(s);
    if v.len() <= n {
        s.to_owned()
    } else {
        let mut r = cut(&v, 0, n);
        r.push('…');
        assert(v@.subrange(0, n as int) =~= v@.take(n as int));
        r
    }
}

/// `n` in decimal.
pub fn decimal_text(n: u64) -> (r: String)
    ensures
        r@ == decimal(n as nat),
    decreases n,
{
    if n < 10 {
        let mut r = String::new();
        r.push((48 + n as u8) as char);
        assert(r@ =~= seq![digit(n as nat)]);
        r
    } else {
        let mut r = decimal_text(n / 10);
        r.push((48 + (n % 10) as u8) as char);
        r
    }
}

/// `n` in decimal, with a leading minus sign where it is negative.
pub fn signed_decimal_text(n: i64) -> (r: String)
    requires
        n > i64::MIN,
    ensures
        r@ == signed_decimal(n as int),
{
    if n < 0 {
        let mut r = String::new();
        r.push('-');
        r.append(decimal_text((-n) as u64).as_str());
        assert(r@ =~= seq!['-'] + decimal((-n) as nat));
        r
    } else {
        decimal_text(n as u64)
    }
}

/// What the digits from position `a` on stand for, as far as it is at most `max`.
fn read_digits(v: &[char], a: usize, max: u64) -> (r: Option<u64>)
    requires
        a <= v.len(),
        max <= 0xffff_ffff,
    ensures
        r == match digits_value(v@.skip(a as int)) {
            Some(n) => if n <= max {
                Some(n as u64)
            } else {
                None
            },
            None => None,
        },
{
    let ghost d = v@.skip(a as int);
    if a == v.len() {
        return None;
    }
    let mut n: u64 = 0;
    let mut i: usize = a;
    while i < v.len()
        invariant
            a <= i <= v.len(),
            a < v.len(),
            d == v@.skip(a as int),
            n <= max <= 0xffff_ffff,
            i == a ==> n == 0,
            i > a ==> digits_value(d.take(i - a)) == Some(n as nat),
        decreases v.len() - i,
    {
        proof {
            take_next(d, i - a);
        }
        let c: u32 = code_point(v[i]);
        if c < 48 || c > 57 {
            proof {
                no_value_past(d, i - a + 1);
            }
            return None;
        }
        let next: u64 = n * 10 + (c - 48) as u64;
        assert(digits_value(d.take(i - a + 1)) == Some(next as nat)) by {
            if i == a {
                assert(d.take(1).len() == 1);
            }
        }
        if next > max {
            proof {
                value_grows(d, i - a + 1);
            }
            return None;
        }
        n = next;
        i = i + 1;
    }
    assert(d.take(v.len() - a) =~= d);
    Some(n)
}

proof fn no_value_past(d: Seq<char>, k: int)
    requires
        0 < k <= d.len(),
        digits_value(d.take(k)) is None,
    ensures
        digits_value(d) is None,
    decreases d.len() - k,
{
    if k < d.len() {
        take_next(d, k);
        no_value_past(d, k + 1);
    } else {
        assert(d.take(k) =~= d);
    }
}

proof fn value_grows(d: Seq<char>, k: int)
    requires
        0 < k <= d.len(),
        digits_value(d.take(k)) is Some,
    ensures
        digits_value(d) is Some ==> digits_value(d)->0 >= digits_value(d.take(k))->0,
    decreases d.len() - k,
{
    if k < d.len() {
        take_next(d, k);
        if digits_value(d.take(k + 1)) is Some {
            value_grows(d, k + 1);
        } else {
            no_value_past(d, k + 1);
        }
    } else {
        assert(d.take(k) =~= d);
    }
}

/// The number that the text stands for, where it is an unsigned one that fits.
pub fn parse_u32(s: &str) -> (r: Option<u32>)
    ensures
        r == match unsigned_value(s@) {
            Some(n) => if n <= u32::MAX {
                Some(n as u32)
            } else {
                None
            },
            None => None,
        },
{
    let v = chars_of(s);
    let a: usize = if v.len() > 0 && v[0] == '+' {
        1
    } else {
        0
    };
    assert(v@.skip(0) =~= v@);
    assert(v@.len() > 0 ==> v@.skip(1) =~= v@.drop_first());
    match read_digits(&v, a, 0xffff_ffff) {
        Some(n) => Some(n as u32),
        None => None,
    }
}

/// The number that the text stands for, where it is a signed one that fits.
pub fn parse_i32(s: &str) -> (r: Option<i32>)
    ensures
        r == match signed_value(s@) {
            Some(n) => if i32::MIN <= n <= i32::MAX {
                Some(n as i32)
            } else {
                None
            },
            None => None,
        },
{
    let v = chars_of(s);
    assert(v@.skip(0) =~= v@);
    assert(v@.len() > 0 ==> v@.skip(1) =~= v@.drop_first());
    if v.len() > 0 && v[0] == '-' {
        match read_digits(&v, 1, 0x8000_0000) {
            Some(n) => Some((-(n as i64)) as i32),
            None => None,
        }
    } else {
        let a: usize = if v.len() > 0 && v[0] == '+' {
            1
        } else {
            0
        };
        match read_digits(&v, a, 0x7fff_ffff) {
            Some(n) => Some(n as i32),
            None => None,
        }
    }
}

/// What stands between two texts is in the whole.
pub proof fn middle_is_contained(a: Seq<char>, b: Seq<char>, c: Seq<char>)
    ensures
        contains(a + b + c, b),
{
    assert((a + b + c).subrange(a.len() as int, (a.len() + b.len()) as int) =~= b);
    assert(occurs_at(a + b + c, b, a.len() as int));
}

/// What is in a text is in every text that it is a piece of.
pub proof fn contained_in_a_sum(a: Seq<char>, b: Seq<char>, c: Seq<char>, pat: Seq<char>)
    requires
        contains(b, pat),
    ensures
        contains(a + b + c, pat),
{
    let all = a + b + c;
    assert(all.subrange(a.len() as int, (a.len() + b.len()) as int) =~= b);
    piece_contains(all, a.len() as int, (a.len() + b.len()) as int, pat);
}

/// Each of the parts is in what they are joined to.
pub proof fn joined_text_holds_each_part(parts: Seq<Seq<char>>, sep: Seq<char>, i: int)
    requires
        0 <= i < parts.len(),
    ensures
        contains(join(parts, sep), parts[i]),
    decreases parts.len(),
{
    if parts.len() == 1 {
        middle_is_contained(Seq::empty(), parts[0], Seq::empty());
        assert(Seq::empty() + parts[0] + Seq::empty() =~= parts[0]);
    } else {
        let head = join(parts.drop_last(), sep);
        if i == parts.len() - 1 {
            middle_is_contained(head + sep, parts.last(), Seq::empty());
            assert(head + sep + parts.last() + Seq::empty() =~= join(parts, sep));
        } else {
            joined_text_holds_each_part(parts.drop_last(), sep, i);
            contained_in_a_sum(Seq::empty(), head, sep + parts.last(), parts[i]);
            assert(Seq::empty() + head + (sep + parts.last()) =~= join(parts, sep));
        }
    }
}

/// A joined text is as long as its parts and the separators between them.
pub open spec fn total_length(parts: Seq<Seq<char>>) -> nat
    decreases parts.len(),
{
    if parts.len() == 0 {
        0
    } else {
        total_length(parts.drop_last()) + parts.last().len()
    }
}

/// A joined text has all of its parts and a separator between neighbours, and
/// nothing else.
pub proof fn joined_text_has_nothing_else(parts: Seq<Seq<char>>, sep: Seq<char>)
    requires
        parts.len() > 0,
    ensures
        join(parts, sep).len() == total_length(parts) + (parts.len() - 1) * sep.len(),
    decreases parts.len(),
{
    if parts.len() == 1 {
        assert(total_length(parts.drop_last()) == 0);
        assert(0 * sep.len() == 0) by (nonlinear_arith);
    } else {
        joined_text_has_nothing_else(parts.drop_last(), sep);
        let k = parts.len() - 2;
        let n = sep.len() as int;
        assert((k + 1) * n == k * n + n) by (nonlinear_arith);
    }
}

/// Trimming takes white space off the ends and nothing else: what is left is a
/// piece of the text, all that was taken is white, and what is left neither starts
/// nor ends white.
pub proof fn trimming_takes_white_space_alone(s: Seq<char>)
    ensures
        exists|a: int, b: int|
            {
                &&& 0 <= a <= b <= s.len()
                &&& trim(s) == #[trigger] s.subrange(a, b)
                &&& forall|i: int| 0 <= i < a ==> is_white(#[trigger] s[i])
                &&& forall|i: int| b <= i < s.len() ==> is_white(#[trigger] s[i])
            },
        trim(s).len() > 0 ==> !is_white(trim(s)[0]) && !is_white(trim(s).last()),
{
    let a = trim_start_at(s);
    let t = s.skip(a);
    let b = trim_end_at(t);
    assert(trim(s) =~= s.subrange(a, a + b));
    assert forall|i: int| a + b <= i < s.len() implies is_white(#[trigger] s[i]) by {
        assert(t[i - a] == s[i]);
    }
    if b > 0 {
        assert(trim(s)[0] == t[0]);
        assert(trim(s).last() == t[b - 1]);
    }
}

proof fn trim_start_at(s: Seq<char>) -> (a: int)
    ensures
        0 <= a <= s.len(),
        trim_start(s) == s.skip(a),
        forall|i: int| 0 <= i < a ==> is_white(#[trigger] s[i]),
        a < s.len() ==> !is_white(s[a]),
    decreases s.len(),
{
    if s.len() > 0 && is_white(s[0]) {
        let rest = s.drop_first();
        let k = trim_start_at(rest);
        assert(rest.skip(k) =~= s.skip(k + 1));
        assert forall|i: int| 0 <= i < k + 1 implies is_white(#[trigger] s[i]) by {
            if i > 0 {
                assert(rest[i - 1] == s[i]);
            }
        }
        k + 1
    } else {
        assert(s.skip(0) =~= s);
        0
    }
}

proof fn trim_end_at(s: Seq<char>) -> (b: int)
    ensures
        0 <= b <= s.len(),
        trim_end(s) == s.take(b),
        forall|i: int| b <= i < s.len() ==> is_white(#[trigger] s[i]),
        b > 0 ==> !is_white(s[b - 1]),
    decreases s.len(),
{
    if s.len() > 0 && is_white(s.last()) {
        let rest = s.drop_last();
        let k = trim_end_at(rest);
        assert(rest.take(k) =~= s.take(k));
        assert forall|i: int| k <= i < s.len() implies is_white(#[trigger] s[i]) by {
            if i < rest.len() {
                assert(rest[i] == s[i]);
            }
        }
        k
    } else {
        assert(s.take(s.len() as int) =~= s);
        s.len() as int
    }
}

/// Of the ASCII characters, white are the space and those from tab to carriage
/// return; the ideographic space is white too.
pub proof fn usual_white_space(c: char)
    ensures
        (c as u32) < 0x80 ==> (is_white(c) <==> c == ' ' || 0x9 <= c as u32 <= 0xd),
        is_white('　'),
        0x3041 <= c as u32 ==> !is_white(c),
{
}

/// Of the ASCII characters, those below the space and the last are controls, and
/// no character from the no-break space on is one.
pub proof fn usual_controls(c: char)
    ensures
        (c as u32) < 0x80 ==> (is_control(c) <==> c as u32 <= 0x1f || c as u32 == 0x7f),
        0xa0 <= c as u32 ==> !is_control(c),
        0x80 <= c as u32 <= 0x9f ==> is_control(c),
{
}

/// Cutting a text at every separator loses nothing: the parts joined with it are
/// the text, and no part holds one.
pub proof fn cut_parts_join_back(s: Seq<char>, sep: char)
    ensures
        join(split(s, sep), seq![sep]) =~= s,
        forall|i: int| 0 <= i < split(s, sep).len() ==> !(#[trigger] split(s, sep)[i]).contains(sep),
        split(s, sep).len() > 0,
    decreases s.len(),
{
    parts_lack_the_separator(s, sep);
    if s.len() > 0 {
        let head = s.drop_last();
        cut_parts_join_back(head, sep);
        let parts = split(head, sep);
        let all = split(s, sep);
        if s.last() == sep {
            assert(all.drop_last() =~= parts);
            assert(join(all, seq![sep]) =~= head + seq![sep]);
        } else {
            assert(all.drop_last() =~= parts.drop_last());
            if parts.len() > 1 {
                assert(join(all, seq![sep]) =~= join(parts, seq![sep]).push(s.last()));
            } else {
                assert(parts[0] == parts.last());
            }
        }
    }
}

/// Parts that hold no separator are got back by cutting what they are joined to.
pub proof fn joined_parts_are_cut_apart(parts: Seq<Seq<char>>, sep: char)
    requires
        parts.len() > 0,
        forall|i: int| 0 <= i < parts.len() ==> !(#[trigger] parts[i]).contains(sep),
    ensures
        split(join(parts, seq![sep]), sep) =~= parts,
    decreases parts.len(),
{
    let last = parts.last();
    assert(last == parts[parts.len() - 1]);
    if parts.len() == 1 {
        cut_behind(Seq::empty(), last, sep);
        assert(Seq::<char>::empty() + last =~= last);
        assert(split(Seq::<char>::empty(), sep) =~= seq![Seq::empty()]);
        assert(split(join(parts, seq![sep]), sep) =~= parts);
    } else {
        let head = parts.drop_last();
        assert forall|i: int| 0 <= i < head.len() implies !(#[trigger] head[i]).contains(sep) by {
            assert(head[i] == parts[i]);
        }
        joined_parts_are_cut_apart(head, sep);
        let h = join(head, seq![sep]);
        let hs = h.push(sep);
        assert(hs.drop_last() =~= h);
        assert(split(hs, sep) =~= head.push(Seq::empty()));
        cut_behind(hs, last, sep);
        assert(h + seq![sep] + last =~= hs + last);
        assert(split(hs + last, sep) =~= parts);
    }
}

proof fn cut_behind(s: Seq<char>, t: Seq<char>, sep: char)
    requires
        !t.contains(sep),
    ensures
        split(s, sep).len() > 0,
        split(s + t, sep) =~= split(s, sep).drop_last().push(split(s, sep).last() + t),
    decreases t.len(),
{
    parts_lack_the_separator(s, sep);
    if t.len() == 0 {
        assert(s + t =~= s);
        assert(split(s, sep).last() + t =~= split(s, sep).last());
    } else {
        let u = t.drop_last();
        assert(!u.contains(sep)) by {
            if u.contains(sep) {
                let k = choose|k: int| 0 <= k < u.len() && u[k] == sep;
                assert(t[k] == sep);
            }
        }
        assert(t[t.len() - 1] != sep);
        cut_behind(s, u, sep);
        assert((s + t).drop_last() =~= s + u);
        assert((s + t).last() == t.last());
        assert(split(s, sep).last() + t =~= (split(s, sep).last() + u).push(t.last()));
    }
}

/// The order of texts is told at the first place at which they differ: by the
/// characters there, and where there is none the shorter comes first.
pub proof fn texts_are_ordered_at_the_first_difference(a: Seq<char>, b: Seq<char>, k: int)
    requires
        0 <= k <= a.len(),
        k <= b.len(),
        forall|i: int| 0 <= i < k ==> a[i] == #[trigger] b[i],
        k < a.len() && k < b.len() ==> a[k] != b[k],
    ensures
        before(a, b) == if k < a.len() && k < b.len() {
            (a[k] as int) < (b[k] as int)
        } else {
            k == a.len() && k < b.len()
        },
    decreases k,
{
    if k > 0 {
        let x = a.drop_first();
        let y = b.drop_first();
        assert(a[0] == b[0]);
        assert forall|i: int| 0 <= i < k - 1 implies x[i] == #[trigger] y[i] by {
            assert(a[i + 1] == b[i + 1]);
        }
        texts_are_ordered_at_the_first_difference(x, y, k - 1);
    }
}

/// A shortened text starts as the text does, and has an ellipsis behind the limit
/// just where something was cut off.
pub proof fn shortening_keeps_the_beginning(s: Seq<char>, n: nat)
    ensures
        s.len() <= n ==> shortened(s, n) == s,
        s.len() > n ==> shortened(s, n).len() == n + 1 && shortened(s, n)[n as int] == '…',
        forall|i: int| 0 <= i < n && i < s.len() ==> #[trigger] shortened(s, n)[i] == s[i],
{
}

/// Taking out a pattern takes out its first occurrence, and nothing where there is
/// none.
pub proof fn first_occurrence_is_taken_out(s: Seq<char>, pat: Seq<char>, i: int)
    requires
        0 <= i,
        i + pat.len() <= s.len(),
        s.subrange(i, i + pat.len()) == pat,
        forall|j: int|
            0 <= j < i && j + pat.len() <= s.len() ==> #[trigger] s.subrange(j, j + pat.len()) != pat,
    ensures
        without_first(s, pat) =~= s.take(i) + s.skip(i + pat.len()),
{
    assert forall|j: int| 0 <= j < i implies !occurs_at(s, pat, j) by {
        if occurs_at(s, pat, j) {
            assert(s.subrange(j, j + pat.len()) == pat);
        }
    }
    find_is_first(s, pat, i);
}

/// The items of a comma-separated list are its parts between the commas, trimmed,
/// in their order, blank ones left out: an item is there just where a part trims
/// to it.
pub proof fn items_are_the_parts_between_commas(parts: Seq<Seq<char>>, item: Seq<char>)
    requires
        parts.len() > 0,
        forall|i: int| 0 <= i < parts.len() ==> !(#[trigger] parts[i]).contains(','),
    ensures
        csv_items(join(parts, seq![','])).contains(item) <==> item.len() > 0 && exists|i: int|
            0 <= i < parts.len() && trim(#[trigger] parts[i]) == item,
{
    joined_parts_are_cut_apart(parts, ',');
    non_blank_parts_stay(parts, item);
}

proof fn non_blank_parts_stay(parts: Seq<Seq<char>>, item: Seq<char>)
    ensures
        non_blank(parts).contains(item) <==> item.len() > 0 && exists|i: int|
            0 <= i < parts.len() && trim(#[trigger] parts[i]) == item,
    decreases parts.len(),
{
    if parts.len() > 0 {
        let head = parts.drop_last();
        let rest = non_blank(head);
        let all = non_blank(parts);
        non_blank_parts_stay(head, item);
        if all.contains(item) {
            let k = choose|k: int| 0 <= k < all.len() && all[k] == item;
            if k < rest.len() {
                assert(rest[k] == item);
                let i = choose|i: int| 0 <= i < head.len() && trim(#[trigger] head[i]) == item;
                assert(trim(parts[i]) == item);
            } else {
                assert(trim(parts[parts.len() - 1]) == item);
            }
        }
        if item.len() > 0 && exists|i: int|
            0 <= i < parts.len() && trim(#[trigger] parts[i]) == item {
            let i = choose|i: int| 0 <= i < parts.len() && trim(#[trigger] parts[i]) == item;
            if i < head.len() {
                assert(trim(head[i]) == item);
                let k = choose|k: int| 0 <= k < rest.len() && rest[k] == item;
                assert(all[k] == item);
            } else {
                assert(all[rest.len() as int] == item);
            }
        }
    }
}

/// A text that holds a pattern is something, the pattern, and something.
pub proof fn contained_text_has_two_sides(s: Seq<char>, pat: Seq<char>)
    requires
        contains(s, pat),
    ensures
        exists|a: Seq<char>, c: Seq<char>| s == #[trigger] (a + pat + c),
{
    let i = choose|i: int| occurs_at(s, pat, i);
    let a = s.take(i);
    let c = s.skip(i + pat.len());
    assert(s =~= a + pat + c) by {
        assert forall|k: int| 0 <= k < s.len() implies s[k] == (a + pat + c)[k] by {
            if i <= k < i + pat.len() {
                assert(s.subrange(i, i + pat.len())[k - i] == pat[k - i]);
            }
        }
    }
}

/// A number is written with a sign just where it is negative.
pub proof fn only_negative_numbers_have_a_sign(n: int)
    ensures
        signed_decimal(n).len() > 0,
        signed_decimal(n)[0] == '-' <==> n < 0,
        n >= 0 ==> signed_decimal(n) == decimal(n as nat),
{
    if n >= 0 {
        decimal_reads_back(n as nat);
        assert(decimal(n as nat)[0] != '-');
    }
}

} // verus!
