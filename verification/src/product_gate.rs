//! Model numbers in texts, and the list of models that may be spoken of.
use crate::text::{among, chars_of, take_next, texts};
use vstd::prelude::*;

verus! {

/// `c` in upper case, where it is an ASCII letter.
pub open spec fn upper(c: char) -> char {
    if 'a' as u32 <= c as u32 <= 'z' as u32 {
        (c as u32 - 32) as char
    } else {
        c
    }
}

/// `c` is an ASCII letter or digit.
pub open spec fn is_alnum(c: char) -> bool {
    ||| 'a' as u32 <= c as u32 <= 'z' as u32
    ||| 'A' as u32 <= c as u32 <= 'Z' as u32
    ||| '0' as u32 <= c as u32 <= '9' as u32
}

/// The prefix of a model number, in either case, stands in `s` at `i`.
pub open spec fn prefix_at(s: Seq<char>, i: int) -> bool {
    &&& 0 <= i
    &&& i + 4 <= s.len()
    &&& upper(s[i]) == 'A'
    &&& upper(s[i + 1]) == 'D'
    &&& upper(s[i + 2]) == 'C'
    &&& s[i + 3] == '-'
}

/// Where the run of ASCII letters and digits that starts at `i` ends.
pub open spec fn run_end(s: Seq<char>, i: int) -> int
    decreases s.len() - i,
{
    if 0 <= i < s.len() && is_alnum(s[i]) {
        run_end(s, i + 1)
    } else {
        i
    }
}

/// The model numbers in `s` from `i` on, in upper case: each is the prefix and
/// the letters and digits that follow it.
pub open spec fn models_from(s: Seq<char>, i: int) -> Seq<Seq<char>>
    decreases s.len() - i,
{
    if i < 0 || i >= s.len() {
        Seq::empty()
    } else if prefix_at(s, i) && i + 4 < run_end(s, i + 4) <= s.len() {
        seq![s.subrange(i, run_end(s, i + 4)).map_values(|c: char| upper(c))] + models_from(
            s,
            run_end(s, i + 4),
        )
    } else {
        models_from(s, i + 1)
    }
}

/// The models that may be spoken of.
#[derive(Debug, Clone, PartialEq, Eq)]
pub struct ProductAllowlist {
    pub models: Vec<String>,
}

impl ProductAllowlist {
    /// The list with the given models.
    pub fn from_models(models: Vec<String>) -> (r: ProductAllowlist)
        ensures
            r.models == models,
    {
        ProductAllowlist { models }
    }

    /// Whether the model is on the list.
    pub fn is_in_scope(&self, model: &str) -> (r: bool)
        ensures
            r == texts(self.models@).contains(model@),
    {
        among(self.models.as_slice(), model)
    }
}

fn to_upper(c: char) -> (r: char)
    ensures
        r == upper(c),
{
    let n: u32 = c as u32;
    if 97 <= n && n <= 122 {
        (n as u8 - 32) as char
    } else {
        c
    }
}

fn alnum(c: char) -> (r: bool)
    ensures
        r == is_alnum(c),
{
    let n: u32 = c as u32;
    (97 <= n && n <= 122) || (65 <= n && n <= 90) || (48 <= n && n <= 57)
}

/// The model numbers in the text, in upper case, in the order of the text.
pub fn extract_model_tokens(text: &str) -> (r: Vec<String>)
    ensures
        texts(r@) == models_from(text@, 0),
{
    let v = chars_of(text);
    let mut r: Vec<String> = Vec::new();
    let mut i: usize = 0;
    assert(texts(r@) + models_from(v@, 0) =~= models_from(v@, 0));
    while i < v.len()
        invariant
            v@ == text@,
            i <= v.len(),
            texts(r@) + models_from(v@, i as int) == models_from(text@, 0),
        decreases v.len() - i,
    {
        if v.len() - i >= 4 && to_upper(v[i]) == 'A' && to_upper(v[i + 1]) == 'D' && to_upper(v[i + 2])
            == 'C' && v[i + 3] == '-' {
            let mut token: String = String::new();
            let mut k: usize = i;
            while k < i + 4
                invariant
                    v@ == text@,
                    i <= k <= i + 4 <= v.len(),
                    token@ =~= v@.subrange(i as int, k as int).map_values(|c: char| upper(c)),
                decreases i + 4 - k,
            {
                token.push(to_upper(v[k]));
                k = k + 1;
            }
            while k < v.len() && alnum(v[k])
                invariant
                    v@ == text@,
                    i + 4 <= k <= v.len(),
                    run_end(v@, i + 4) == run_end(v@, k as int),
                    token@ =~= v@.subrange(i as int, k as int).map_values(|c: char| upper(c)),
                decreases v.len() - k,
            {
                token.push(to_upper(v[k]));
                k = k + 1;
            }
            assert(run_end(v@, i + 4) == k);
            assert(prefix_at(v@, i as int));
            if k > i + 4 {
                let ghost r0 = r@;
                let ghost t0 = token@;
                r.push(token);
                assert(texts(r@) =~= texts(r0).push(t0));
                assert(texts(r0) + (seq![t0] + models_from(v@, k as int)) =~= texts(r0).push(t0)
                    + models_from(v@, k as int));
                i = k;
            } else {
                i = i + 1;
            }
        } else {
            i = i + 1;
        }
    }
    assert(texts(r@) + Seq::<Seq<char>>::empty() =~= texts(r@));
    r
}

/// Those of the models that are not on the list.
pub open spec fn foreign_among(models: Seq<Seq<char>>, allowed: Seq<Seq<char>>) -> Seq<Seq<char>>
    decreases models.len(),
{
    if models.len() == 0 {
        models
    } else if allowed.contains(models.last()) {
        foreign_among(models.drop_last(), allowed)
    } else {
        foreign_among(models.drop_last(), allowed).push(models.last())
    }
}

/// The models in a text that are not on the list.
pub open spec fn foreign_models(text: Seq<char>, allowed: Seq<Seq<char>>) -> Seq<Seq<char>> {
    foreign_among(models_from(text, 0), allowed)
}

impl ProductAllowlist {
    /// The models in the text that are not on the list.
    pub fn out_of_scope_mentions(&self, text: &str) -> (r: Vec<String>)
        ensures
            texts(r@) == foreign_models(text@, texts(self.models@)),
    {
        let tokens = extract_model_tokens(text);
        let ghost all = texts(tokens@);
        let mut r: Vec<String> = Vec::new();
        let mut i: usize = 0;
        assert(texts(r@) =~= foreign_among(all.take(0), texts(self.models@)));
        while i < tokens.len()
            invariant
                i <= tokens.len(),
                all == texts(tokens@),
                texts(r@) == foreign_among(all.take(i as int), texts(self.models@)),
            decreases tokens.len() - i,
        {
            proof {
                take_next(all, i as int);
                assert(all[i as int] == tokens@[i as int]@);
            }
            if !self.is_in_scope(tokens[i].as_str()) {
                let ghost r0 = r@;
                r.push(tokens[i].clone());
                assert(texts(r@) =~= texts(r0).push(all[i as int]));
            }
            i = i + 1;
        }
        assert(all.take(all.len() as int) =~= all);
        r
    }

    /// The first model in the text that is not on the list.
    pub fn first_out_of_scope_token(&self, text: &str) -> (r: Option<String>)
        ensures
            match r {
                Some(m) => foreign_models(text@, texts(self.models@)).len() > 0 && m@
                    == foreign_models(text@, texts(self.models@))[0],
                None => foreign_models(text@, texts(self.models@)).len() == 0,
            },
    {
        let all = self.out_of_scope_mentions(text);
        if all.len() > 0 {
            assert(texts(all@)[0] == all@[0]@);
            Some(all[0].clone())
        } else {
            None
        }
    }
}

/// The run of letters and digits from `i` on ends where it ends in the text.
pub proof fn run_ends_at(s: Seq<char>, i: int, e: int)
    requires
        0 <= i <= e <= s.len(),
        forall|j: int| i <= j < e ==> is_alnum(#[trigger] s[j]),
        e < s.len() ==> !is_alnum(s[e]),
    ensures
        run_end(s, i) == e,
    decreases e - i,
{
    if i < e {
        assert(is_alnum(s[i]));
        run_ends_at(s, i + 1, e);
    }
}

proof fn run_end_is_maximal(s: Seq<char>, i: int)
    requires
        0 <= i <= s.len(),
    ensures
        i <= run_end(s, i) <= s.len(),
        forall|j: int| i <= j < run_end(s, i) ==> is_alnum(#[trigger] s[j]),
        run_end(s, i) < s.len() ==> !is_alnum(s[run_end(s, i)]),
    decreases s.len() - i,
{
    if i < s.len() && is_alnum(s[i]) {
        run_end_is_maximal(s, i + 1);
    }
}

/// A piece of the text in upper case.
pub open spec fn raised(s: Seq<char>, a: int, e: int) -> Seq<char> {
    s.subrange(a, e).map_values(|c: char| upper(c))
}

/// A model number stands in the text from `a` to `e`: the letters A, D and C in
/// either case, a hyphen, and all the letters and digits that follow, at least one.
pub open spec fn model_stands(s: Seq<char>, a: int, e: int) -> bool {
    &&& 0 <= a
    &&& a + 4 < e <= s.len()
    &&& s[a] == 'A' || s[a] == 'a'
    &&& s[a + 1] == 'D' || s[a + 1] == 'd'
    &&& s[a + 2] == 'C' || s[a + 2] == 'c'
    &&& s[a + 3] == '-'
    &&& forall|j: int| a + 4 <= j < e ==> is_alnum(#[trigger] s[j])
    &&& e < s.len() ==> !is_alnum(s[e])
}

proof fn prefix_letters(s: Seq<char>, i: int)
    ensures
        prefix_at(s, i) <==> 0 <= i && i + 4 <= s.len() && (s[i] == 'A' || s[i] == 'a') && (s[i + 1]
            == 'D' || s[i + 1] == 'd') && (s[i + 2] == 'C' || s[i + 2] == 'c') && s[i + 3] == '-',
{
    letters_in_either_case(s[i]);
    letters_in_either_case(s[i + 1]);
    letters_in_either_case(s[i + 2]);
}

/// A letter is the same in upper case just where it is that letter, large or small;
/// and what upper case makes of a letter or digit is one.
pub proof fn letters_in_either_case(c: char)
    ensures
        upper(c) == 'A' <==> c == 'A' || c == 'a',
        upper(c) == 'D' <==> c == 'D' || c == 'd',
        upper(c) == 'C' <==> c == 'C' || c == 'c',
        upper(c) == '-' <==> c == '-',
        is_alnum(upper(c)) == is_alnum(c),
        upper(upper(c)) == upper(c),
        'a' as int <= c as int <= 'z' as int ==> upper(c) as int == c as int - 32,
        !('a' as int <= c as int <= 'z' as int) ==> upper(c) == c,
{
}

/// Every model that is found stands in the text, and is given in upper case.
pub proof fn found_models_stand_in_the_text(s: Seq<char>, i: int, k: int)
    requires
        0 <= i,
        0 <= k < models_from(s, i).len(),
    ensures
        exists|a: int, e: int|
            i <= a && #[trigger] model_stands(s, a, e) && models_from(s, i)[k] == raised(s, a, e),
    decreases s.len() - i,
{
    if i < s.len() {
        prefix_letters(s, i);
        if i + 4 <= s.len() {
            run_end_is_maximal(s, i + 4);
        }
        if prefix_at(s, i) && i + 4 < run_end(s, i + 4) <= s.len() {
            let e = run_end(s, i + 4);
            if k == 0 {
                assert(model_stands(s, i, e));
                assert(models_from(s, i)[0] == raised(s, i, e));
            } else {
                found_models_stand_in_the_text(s, e, k - 1);
                let (a, b) = choose|a: int, b: int|
                    e <= a && #[trigger] model_stands(s, a, b) && models_from(s, e)[k - 1]
                        == raised(s, a, b);
                assert(models_from(s, i)[k] == models_from(s, e)[k - 1]);
                assert(i <= a && model_stands(s, a, b));
            }
        } else {
            found_models_stand_in_the_text(s, i + 1, k);
            let (a, b) = choose|a: int, b: int|
                i + 1 <= a && #[trigger] model_stands(s, a, b) && models_from(s, i + 1)[k] == raised(
                    s,
                    a,
                    b,
                );
            assert(i <= a && model_stands(s, a, b));
        }
    }
}

/// Every model that stands in the text by itself is found, however many others
/// stand before it.
pub proof fn models_in_the_text_are_found(s: Seq<char>, a: int, e: int)
    requires
        model_stands(s, a, e),
        a > 0 ==> !is_alnum(s[a - 1]) && s[a - 1] != '-',
    ensures
        models_from(s, 0).contains(raised(s, a, e)),
{
    found_from(s, 0, a, e);
}

proof fn found_from(s: Seq<char>, p: int, a: int, e: int)
    requires
        model_stands(s, a, e),
        a > 0 ==> !is_alnum(s[a - 1]) && s[a - 1] != '-',
        0 <= p <= a,
    ensures
        models_from(s, p).contains(raised(s, a, e)),
    decreases a - p,
{
    prefix_letters(s, p);
    if p == a {
        run_ends_at(s, a + 4, e);
        assert(models_from(s, p)[0] == raised(s, a, e));
    } else {
        if p + 4 <= s.len() {
            run_end_is_maximal(s, p + 4);
        }
        if prefix_at(s, p) && p + 4 < run_end(s, p + 4) <= s.len() {
            let b = run_end(s, p + 4);
            assert(b <= a) by {
                if a - 1 < p + 4 {
                    assert(s[a - 1] == s[p] || s[a - 1] == s[p + 1] || s[a - 1] == s[p + 2]
                        || s[a - 1] == s[p + 3]);
                } else if b > a {
                    assert(is_alnum(s[a - 1]));
                }
            }
            found_from(s, b, a, e);
            let k = choose|k: int|
                0 <= k < models_from(s, b).len() && models_from(s, b)[k] == raised(s, a, e);
            assert(models_from(s, p)[k + 1] == raised(s, a, e));
        } else {
            found_from(s, p + 1, a, e);
        }
    }
}

/// Whether letters are large or small has no bearing on the models in a text.
pub proof fn case_has_no_bearing_on_models(s: Seq<char>, i: int)
    requires
        0 <= i,
    ensures
        models_from(s.map_values(|c: char| upper(c)), i) =~= models_from(s, i),
    decreases s.len() - i,
{
    let t = s.map_values(|c: char| upper(c));
    if i < s.len() {
        if i + 4 <= s.len() {
            assert(t[i] == upper(s[i]) && t[i + 1] == upper(s[i + 1]) && t[i + 2] == upper(s[i + 2])
                && t[i + 3] == upper(s[i + 3]));
            run_end_is_maximal(s, i + 4);
            let e = run_end(s, i + 4);
            assert forall|j: int| i + 4 <= j < e implies is_alnum(#[trigger] t[j]) by {
                assert(is_alnum(s[j]));
            }
            run_ends_at(t, i + 4, e);
            if i + 4 < e {
                assert(raised(t, i, e) =~= raised(s, i, e));
                case_has_no_bearing_on_models(s, e);
            }
        }
        case_has_no_bearing_on_models(s, i + 1);
    }
}

/// The foreign models are those models, in their order, that are not on the list.
pub proof fn foreign_models_are_those_not_listed(
    models: Seq<Seq<char>>,
    allowed: Seq<Seq<char>>,
)
    ensures
        foreign_among(models, allowed) =~= models.filter(|m: Seq<char>| !allowed.contains(m)),
        foreign_among(models, allowed).len() == 0 <==> forall|i: int|
            0 <= i < models.len() ==> allowed.contains(#[trigger] models[i]),
    decreases models.len(),
{
    reveal(Seq::filter);
    if models.len() > 0 {
        let head = models.drop_last();
        foreign_models_are_those_not_listed(head, allowed);
        if foreign_among(models, allowed).len() == 0 {
            assert forall|i: int| 0 <= i < models.len() implies allowed.contains(
                #[trigger] models[i],
            ) by {
                if i < head.len() {
                    assert(head[i] == models[i]);
                }
            }
        } else if foreign_among(head, allowed).len() > 0 {
            let k = choose|k: int| 0 <= k < head.len() && !allowed.contains(#[trigger] head[k]);
            assert(!allowed.contains(models[k]));
        } else {
            assert(!allowed.contains(models[models.len() - 1]));
        }
    }
}

} // verus!
