//! Addresses in texts: finding them, taking them apart, and telling a plain
//! https address from one that hides where it leads.
use crate::text::{chars_of, find, find_is_first, occurs_at, position, same, texts};
use vstd::prelude::*;

verus! {

/// The parts of a parsed address.
pub struct UrlParts {
    pub scheme: String,
    pub username: String,
    pub password: Option<String>,
    pub host: Option<String>,
    /// The address in its normal form.
    pub normal: String,
}

/// What the parts of a parsed address say.
#[verifier::ext_equal]
pub struct UrlView {
    pub scheme: Seq<char>,
    pub username: Seq<char>,
    pub password: Option<Seq<char>>,
    pub host: Option<Seq<char>>,
    pub normal: Seq<char>,
}

/// The text of an optional string.
pub open spec fn opt_text(o: Option<String>) -> Option<Seq<char>> {
    match o {
        Some(s) => Some(s@),
        None => None,
    }
}

impl View for UrlParts {
    type V = UrlView;

    open spec fn view(&self) -> UrlView {
        UrlView {
            scheme: self.scheme@,
            username: self.username@,
            password: opt_text(self.password),
            host: opt_text(self.host),
            normal: self.normal@,
        }
    }
}

/// The parts that `url::Url::parse` finds in a text, as its accessors
/// `scheme`, `username`, `password`, `host_str` and `as_str` give them; nothing
/// where it does not parse.
pub uninterp spec fn parsed_url(text: Seq<char>) -> Option<UrlView>;

/// Calls `url::Url::parse` and reads the parsed address with `scheme`,
/// `username`, `password`, `host_str` and `as_str`. The result depends on the
/// text alone; which texts parse, and into what, is left to the name.
#[verifier::external_body]
pub(crate) fn parse_url(text: &str) -> (r: Option<UrlParts>)
    ensures
        parsed_url(text@) == match r {
            Some(u) => Some(u@),
            None => None,
        },
{
    let u = url::Url::parse(text).ok()?;
    Some(UrlParts {
        scheme: u.scheme().to_string(),
        username: u.username().to_string(),
        password: u.password().map(str::to_string),
        host: u.host_str().map(str::to_string),
        normal: u.as_str().to_string(),
    })
}

/// The texts of the matches that `regex::Regex::find_iter` yields for a pattern,
/// in the order of the text; nothing where `regex::Regex::new` refuses the pattern.
pub uninterp spec fn regex_matches(pattern: Seq<char>, text: Seq<char>) -> Option<Seq<Seq<char>>>;

/// Calls `regex::Regex::new` on the pattern and `find_iter` on the text. The
/// result depends on the pattern and the text alone; there is none where the
/// pattern is refused.
#[verifier::external_body]
pub(crate) fn find_matches(pattern: &str, text: &str) -> (r: Option<Vec<String>>)
    ensures
        regex_matches(pattern@, text@) == match r {
            Some(v) => Some(texts(v@)),
            None => None,
        },
{
    let re = regex::Regex::new(pattern).ok()?;
    Some(re.find_iter(text).map(|m| m.as_str().to_string()).collect())
}

/// Whether `regex::Regex::is_match` finds the pattern somewhere in the text;
/// nothing where `regex::Regex::new` refuses the pattern.
pub uninterp spec fn regex_is_match(pattern: Seq<char>, text: Seq<char>) -> Option<bool>;

/// Calls `regex::Regex::new` on the pattern and `is_match` on the text. The
/// result depends on the pattern and the text alone; there is none where the
/// pattern is refused.
#[verifier::external_body]
pub(crate) fn has_match(pattern: &str, text: &str) -> (r: Option<bool>)
    ensures
        regex_is_match(pattern@, text@) == r,
{
    let re = regex::Regex::new(pattern).ok()?;
    Some(re.is_match(text))
}

/// `c` ends the authority of an address.
pub open spec fn ends_authority(c: char) -> bool {
    c == '/' || c == '?' || c == '#'
}

/// An at sign stands in the authority of the address as it is written: behind
/// the first `://` and before the first slash, question mark or hash after it.
pub open spec fn userinfo_marked(raw: Seq<char>) -> bool {
    match find(raw, "://"@) {
        Some(i) => exists|k: int|
            i + 3 <= k < raw.len() && #[trigger] raw[k] == '@' && forall|j: int|
                i + 3 <= j < k ==> !ends_authority(#[trigger] raw[j]),
        None => false,
    }
}

/// Whether an at sign stands in the authority of the address as it is written.
pub fn authority_contains_raw_userinfo_marker(raw: &str) -> (r: bool)
    ensures
        r == userinfo_marked(raw@),
{
    let v = chars_of(raw);
    let sep = chars_of("://");
    proof {
        reveal_strlit("://");
    }
    match position(&v, &sep) {
        None => false,
        Some(i) => {
            assert(occurs_at(v@, sep@, i as int));
            let end: usize = v.len();
            assert(i + 3 <= end);
            let mut k: usize = i + 3;
            while k < v.len()
                invariant
                    v@ == raw@,
                    find(raw@, "://"@) == Some(i as int),
                    i + 3 <= k <= v.len(),
                    forall|j: int|
                        i + 3 <= j < k ==> !ends_authority(#[trigger] v@[j]) && v@[j] != '@',
                decreases v.len() - k,
            {
                if v[k] == '@' {
                    return true;
                }
                if v[k] == '/' || v[k] == '?' || v[k] == '#' {
                    return false;
                }
                k = k + 1;
            }
            false
        },
    }
}

/// The parts are those of an https address with a host and without user name
/// and password.
pub open spec fn plain_https(u: UrlView) -> bool {
    &&& u.scheme == "https"@
    &&& u.username.len() == 0
    &&& u.password is None
    &&& u.host is Some
}

/// Whether the parts are those of an https address with a host and without
/// user name and password.
pub fn is_plain_https(u: &UrlParts) -> (r: bool)
    ensures
        r == plain_https(u@),
{
    same(u.scheme.as_str(), "https") && u.username.as_str().is_empty() && u.password.is_none()
        && u.host.is_some()
}

/// `raw` is an https address with a host, and no user name or password is
/// written in it, not even an empty one.
pub open spec fn well_formed_https(raw: Seq<char>) -> bool {
    &&& !userinfo_marked(raw)
    &&& parsed_url(raw) is Some
    &&& plain_https(parsed_url(raw)->0)
    &&& (parsed_url(raw)->0).host->0.len() > 0
}

/// Whether `raw` is a plain https address, given what its parse gave.
pub fn well_formed_given(raw: &str, parsed: &Option<UrlParts>) -> (r: bool)
    ensures
        r == (!userinfo_marked(raw@) && match *parsed {
            Some(u) => plain_https(u@) && u@.host->0.len() > 0,
            None => false,
        }),
{
    if authority_contains_raw_userinfo_marker(raw) {
        return false;
    }
    match parsed {
        Some(u) => is_plain_https(u) && match &u.host {
            Some(h) => !h.as_str().is_empty(),
            None => false,
        },
        None => false,
    }
}

/// Whether `raw` is an https address with a host, without a user name or
/// password written in it.
pub fn is_well_formed_https_url(raw: &str) -> (r: bool)
    ensures
        r == well_formed_https(raw@),
{
    let parsed = parse_url(raw);
    well_formed_given(raw, &parsed)
}

/// An address has a name before its host just where an `@` stands behind the first
/// `://` and before the first character that ends the part with the host.
pub proof fn names_before_the_host_are_marked(
    scheme: Seq<char>,
    name: Seq<char>,
    rest: Seq<char>,
)
    requires
        forall|i: int|
            0 <= i < scheme.len() ==> !#[trigger] occurs_at(scheme + "://"@, "://"@, i),
    ensures
        (forall|i: int|
            0 <= i < name.len() ==> #[trigger] name[i] != '/' && name[i] != '?' && name[i] != '#')
            ==> userinfo_marked(scheme + "://"@ + (name + seq!['@'] + rest)),
        (forall|i: int| 0 <= i < name.len() ==> #[trigger] name[i] != '@') ==> !userinfo_marked(
            scheme + "://"@ + (name + seq!['/'] + rest),
        ) && !userinfo_marked(scheme + "://"@ + (name + seq!['?'] + rest)) && !userinfo_marked(
            scheme + "://"@ + (name + seq!['#'] + rest),
        ) && !userinfo_marked(scheme + "://"@ + name),
{
    let sep = "://"@;
    reveal_strlit("://");
    let n = scheme.len() as int;
    let k = n + 3 + name.len();
    if forall|i: int|
        0 <= i < name.len() ==> #[trigger] name[i] != '/' && name[i] != '?' && name[i] != '#' {
        let part = name + seq!['@'] + rest;
        let raw = scheme + sep + part;
        host_part_starts(scheme, part);
        assert(raw[k] == '@');
        assert forall|j: int| n + 3 <= j < k implies !ends_authority(#[trigger] raw[j]) by {
            assert(raw[j] == name[j - n - 3]);
        }
    }
    if forall|i: int| 0 <= i < name.len() ==> #[trigger] name[i] != '@' {
        nothing_is_marked_past_an_end(scheme, name, '/', rest);
        nothing_is_marked_past_an_end(scheme, name, '?', rest);
        nothing_is_marked_past_an_end(scheme, name, '#', rest);
        let raw = scheme + sep + name;
        host_part_starts(scheme, name);
        assert forall|j: int| n + 3 <= j < raw.len() implies #[trigger] raw[j] != '@' by {
            assert(raw[j] == name[j - n - 3]);
        }
    }
}

proof fn host_part_starts(scheme: Seq<char>, part: Seq<char>)
    requires
        forall|i: int|
            0 <= i < scheme.len() ==> !#[trigger] occurs_at(scheme + "://"@, "://"@, i),
    ensures
        find(scheme + "://"@ + part, "://"@) == Some(scheme.len() as int),
{
    let sep = "://"@;
    let raw = scheme + sep + part;
    let n = scheme.len() as int;
    assert(raw.subrange(n, n + sep.len()) =~= sep);
    assert(occurs_at(raw, sep, n));
    assert forall|j: int| 0 <= j < n implies !occurs_at(raw, sep, j) by {
        if occurs_at(raw, sep, j) {
            assert((scheme + sep).subrange(j, j + sep.len()) =~= raw.subrange(j, j + sep.len()));
            assert(occurs_at(scheme + sep, sep, j));
        }
    }
    find_is_first(raw, sep, n);
}

proof fn nothing_is_marked_past_an_end(
    scheme: Seq<char>,
    name: Seq<char>,
    end: char,
    rest: Seq<char>,
)
    requires
        forall|i: int|
            0 <= i < scheme.len() ==> !#[trigger] occurs_at(scheme + "://"@, "://"@, i),
        forall|i: int| 0 <= i < name.len() ==> #[trigger] name[i] != '@',
        end == '/' || end == '?' || end == '#',
    ensures
        !userinfo_marked(scheme + "://"@ + (name + seq![end] + rest)),
{
    let sep = "://"@;
    reveal_strlit("://");
    let n = scheme.len() as int;
    let part = name + seq![end] + rest;
    let raw = scheme + sep + part;
    let k = n + 3 + name.len();
    host_part_starts(scheme, part);
    assert(raw[k] == end);
    assert(ends_authority(raw[k]));
    assert forall|j: int| n + 3 <= j < k implies #[trigger] raw[j] != '@' by {
        assert(raw[j] == name[j - n - 3]);
    }
}

/// An address is plain by its scheme, its lack of a name and a password, and its
/// host: none of them can be otherwise, and nothing else has a bearing.
pub proof fn each_part_keeps_an_address_plain(u: UrlView, other: UrlView, text: Seq<char>)
    requires
        plain_https(u),
    ensures
        plain_https((UrlView { normal: text, ..u })),
        plain_https((UrlView { host: Some(text), ..u })),
        plain_https((UrlView { scheme: text, ..u })) ==> text == "https"@,
        plain_https((UrlView { username: text, ..u })) ==> text.len() == 0,
        !plain_https((UrlView { password: Some(text), ..u })),
        !plain_https((UrlView { host: None, ..u })),
        other.scheme == u.scheme && other.username == u.username && other.password is None
            && other.host is Some ==> plain_https(other),
        u.scheme == "https"@,
        u.username.len() == 0,
{
}

/// A sound address has no name before its host as it is written, and can be read
/// as a plain one with a host that is not empty.
pub proof fn sound_addresses_are_plain(raw: Seq<char>)
    ensures
        userinfo_marked(raw) ==> !well_formed_https(raw),
        parsed_url(raw) is None ==> !well_formed_https(raw),
        well_formed_https(raw) ==> plain_https(parsed_url(raw)->0) && (parsed_url(
            raw,
        )->0).host->0.len() > 0,
        !userinfo_marked(raw) && parsed_url(raw) is Some && plain_https(parsed_url(raw)->0) && (
        parsed_url(raw)->0).host->0.len() > 0 ==> well_formed_https(raw),
{
}

} // verus!
