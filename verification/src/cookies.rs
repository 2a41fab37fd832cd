//! Cookie strings, taken as an argument and handed back as a result: the
//! pairs a cookie string holds, and the string that sets or deletes a cookie.

use crate::percent::decoded;
use crate::percent::encoded;
use crate::text::chars_of;
use crate::text::find_char;
use crate::text::position;
use crate::text::same_text;
use crate::text::trim;
use crate::text::trim_bounds;
use urlencoding::FromUrlEncodingError;
use vstd::hash_map::StringHashMap;
use vstd::prelude::*;
use vstd::string::StrSliceExecFns;
use vstd::string::StringExecFns;

verus! {

/// The key and the value of one segment of a cookie string: what stands
/// before its first `=` and what stands after it, both trimmed. A segment
/// without `=` holds no pair.
pub open spec fn segment_pair(segment: Seq<char>) -> Option<(Seq<char>, Seq<char>)> {
    let at = position(segment, '=');
    if at < segment.len() {
        Some((trim(segment.take(at)), trim(segment.skip(at + 1))))
    } else {
        None
    }
}

/// The segments of a cookie string: what stands between its `;`. There is
/// always at least one, and none holds a `;`.
pub open spec fn segments(s: Seq<char>) -> Seq<Seq<char>>
    decreases s.len(),
{
    let at = position(s, ';');
    if 0 <= at < s.len() {
        seq![s.take(at)] + segments(s.skip(at + 1))
    } else {
        seq![s]
    }
}

/// The pairs of the given segments, in their order.
pub open spec fn pairs_of(segments: Seq<Seq<char>>) -> Seq<(Seq<char>, Seq<char>)>
    decreases segments.len(),
{
    if segments.len() == 0 {
        seq![]
    } else {
        let before = pairs_of(segments.drop_last());
        match segment_pair(segments.last()) {
            Some(pair) => before.push(pair),
            None => before,
        }
    }
}

/// The pairs of a cookie string, in its order, with keys that occur twice
/// kept twice.
pub open spec fn raw_pairs(s: Seq<char>) -> Seq<(Seq<char>, Seq<char>)> {
    pairs_of(segments(s))
}

/// The characters of each key and value.
pub open spec fn pairs_view<'a>(pairs: Seq<(&'a str, &'a str)>) -> Seq<(Seq<char>, Seq<char>)> {
    pairs.map_values(|pair: (&'a str, &'a str)| (pair.0@, pair.1@))
}

/// The bounds of the key and of the value of the segment `v[lo..hi]`.
fn pair_bounds(v: &Vec<char>, lo: usize, hi: usize) -> (r: Option<(usize, usize, usize, usize)>)
    requires
        lo <= hi <= v@.len(),
    ensures
        match r {
            Some((a, b, c, d)) => {
                &&& a <= b <= v@.len()
                &&& c <= d <= v@.len()
                &&& segment_pair(v@.subrange(lo as int, hi as int)) == Some(
                    (v@.subrange(a as int, b as int), v@.subrange(c as int, d as int)),
                )
            },
            None => segment_pair(v@.subrange(lo as int, hi as int)) is None,
        },
{
    let at = find_char(v, lo, hi, '=');
    if at == hi {
        return None;
    }
    let key = trim_bounds(v, lo, at);
    let value = trim_bounds(v, at + 1, hi);
    proof {
        let segment = v@.subrange(lo as int, hi as int);
        assert(segment.take(at - lo) =~= v@.subrange(lo as int, at as int));
        assert(segment.skip(at - lo + 1) =~= v@.subrange(at as int + 1, hi as int));
    }
    Some((key.0, key.1, value.0, value.1))
}

/// Splits one segment of a cookie string into its key and its value, or
/// fails where the segment holds no `=`.
pub fn process_key_value_str<'a>(key_value_str: &'a str) -> (r: Result<(&'a str, &'a str), ()>)
    ensures
        match r {
            Ok((key, value)) => segment_pair(key_value_str@) == Some((key@, value@)),
            Err(_) => segment_pair(key_value_str@) is None,
        },
{
    let v = chars_of(key_value_str);
    assert(v@.subrange(0, v@.len() as int) =~= key_value_str@);
    match pair_bounds(&v, 0, v.len()) {
        Some((a, b, c, d)) => Ok(
            (key_value_str.substring_char(a, b), key_value_str.substring_char(c, d)),
        ),
        None => Err(()),
    }
}

/// Returns the pairs of a cookie string in its order, with undecoded keys
/// and values.
pub fn all_iter_raw<'a>(cookie_string: &'a str) -> (pairs: Vec<(&'a str, &'a str)>)
    ensures
        pairs_view(pairs@) == raw_pairs(cookie_string@),
{
    let v = chars_of(cookie_string);
    let mut pairs: Vec<(&'a str, &'a str)> = Vec::new();
    let ghost mut done: Seq<Seq<char>> = seq![];
    let mut pos: usize = 0;
    let mut finished = false;
    assert(v@.skip(0) =~= v@);
    assert(pairs_view(pairs@) =~= pairs_of(done));
    while !finished
        invariant
            v@ == cookie_string@,
            pos <= v@.len(),
            finished ==> segments(v@) == done,
            !finished ==> segments(v@) == done + segments(v@.skip(pos as int)),
            pairs_view(pairs@) == pairs_of(done),
        decreases
                (if finished {
                    0
                } else {
                    v@.len() - pos + 1
                }),
    {
        let end = find_char(&v, pos, v.len(), ';');
        let ghost rest = v@.skip(pos as int);
        let ghost segment = v@.subrange(pos as int, end as int);
        proof {
            assert(v@.subrange(pos as int, v@.len() as int) =~= rest);
            if end < v@.len() {
                assert(rest.take(end - pos) =~= segment);
                assert(rest.skip(end - pos + 1) =~= v@.skip(end as int + 1));
                assert(done + (seq![segment] + segments(v@.skip(end as int + 1))) =~= done.push(
                    segment,
                ) + segments(v@.skip(end as int + 1)));
            } else {
                assert(segment =~= rest);
                assert(done + seq![rest] =~= done.push(segment));
            }
            assert(done.push(segment).drop_last() =~= done);
        }
        let ghost before = pairs@;
        match pair_bounds(&v, pos, end) {
            Some((a, b, c, d)) => {
                let key = cookie_string.substring_char(a, b);
                let value = cookie_string.substring_char(c, d);
                pairs.push((key, value));
                assert(pairs_view(pairs@) =~= pairs_view(before).push((key@, value@)));
            },
            None => {},
        }
        proof {
            done = done.push(segment);
        }
        if end == v.len() {
            finished = true;
        } else {
            pos = end + 1;
        }
    }
    pairs
}

/// The mapping that the pairs give when they are entered in their order: of
/// two pairs with one key the later one stays.
pub open spec fn map_of(pairs: Seq<(Seq<char>, Seq<char>)>) -> Map<Seq<char>, Seq<char>>
    decreases pairs.len(),
{
    if pairs.len() == 0 {
        Map::empty()
    } else {
        map_of(pairs.drop_last()).insert(pairs.last().0, pairs.last().1)
    }
}

/// The value of the first pair whose key is `name`.
pub open spec fn lookup(pairs: Seq<(Seq<char>, Seq<char>)>, name: Seq<char>) -> Option<Seq<char>>
    decreases pairs.len(),
{
    if pairs.len() == 0 {
        None
    } else if pairs.first().0 == name {
        Some(pairs.first().1)
    } else {
        lookup(pairs.drop_first(), name)
    }
}

/// The characters of each value of a mapping from keys to strings.
pub open spec fn values_view(m: Map<Seq<char>, String>) -> Map<Seq<char>, Seq<char>> {
    m.map_values(|value: String| value@)
}

/// The cookies of a cookie string, each key with its value.
pub struct Cookies {
    map: StringHashMap<String>,
}

impl View for Cookies {
    type V = Map<Seq<char>, Seq<char>>;

    closed spec fn view(&self) -> Map<Seq<char>, Seq<char>> {
        values_view(self.map@)
    }
}

impl Cookies {
    /// No cookies.
    pub fn new() -> (cookies: Self)
        ensures
            cookies@ == Map::<Seq<char>, Seq<char>>::empty(),
    {
        let cookies = Cookies { map: StringHashMap::new() };
        assert(cookies@ =~= Map::<Seq<char>, Seq<char>>::empty());
        cookies
    }

    /// Gives `key` the value `value`, in place of the value it had, if any.
    pub fn insert(&mut self, key: String, value: String)
        ensures
            final(self)@ == old(self)@.insert(key@, value@),
    {
        let ghost before = self.map@;
        let ghost pair = (key@, value@);
        self.map.insert(key, value);
        assert(values_view(self.map@) =~= values_view(before).insert(pair.0, pair.1));
    }

    /// The number of cookies.
    pub fn len(&self) -> (n: usize)
        ensures
            n == self@.len(),
    {
        assert(self@.dom() =~= self.map@.dom());
        self.map.len()
    }

    /// Whether there is no cookie.
    pub fn is_empty(&self) -> (empty: bool)
        ensures
            empty == (self@.len() == 0),
    {
        self.len() == 0
    }

    /// Whether a cookie has the key `key`.
    pub fn contains_key(&self, key: &str) -> (found: bool)
        ensures
            found == self@.contains_key(key@),
    {
        self.map.contains_key(key)
    }

    /// The value of the cookie with the key `key`, if there is one.
    pub fn get(&self, key: &str) -> (value: Option<&String>)
        ensures
            match value {
                Some(text) => self@.contains_key(key@) && self@[key@] == text@,
                None => !self@.contains_key(key@),
            },
    {
        self.map.get(key)
    }
}

/// Returns all cookies of a cookie string, with undecoded keys and values.
/// Of two cookies with one key the later one stays.
pub fn all_raw(cookie_string: &str) -> (cookies: Cookies)
    ensures
        cookies@ == map_of(raw_pairs(cookie_string@)),
{
    let pairs = all_iter_raw(cookie_string);
    let mut cookies = Cookies::new();
    let mut i: usize = 0;
    assert(pairs_view(pairs@).take(0) =~= seq![]);
    while i < pairs.len()
        invariant
            i <= pairs@.len(),
            pairs_view(pairs@) == raw_pairs(cookie_string@),
            cookies@ == map_of(pairs_view(pairs@).take(i as int)),
        decreases pairs@.len() - i,
    {
        let (key, value) = pairs[i];
        cookies.insert(key.to_owned(), value.to_owned());
        proof {
            let all = pairs_view(pairs@);
            assert(all.take(i + 1).drop_last() =~= all.take(i as int));
            assert(all.take(i + 1).last() == (key@, value@));
        }
        i = i + 1;
    }
    assert(pairs_view(pairs@).take(i as int) =~= pairs_view(pairs@));
    cookies
}

/// Returns the undecoded value of the first cookie of a cookie string whose
/// undecoded key is `name`, if there is one.
pub fn get_raw(cookie_string: &str, name: &str) -> (value: Option<String>)
    ensures
        match value {
            Some(text) => lookup(raw_pairs(cookie_string@), name@) == Some(text@),
            None => lookup(raw_pairs(cookie_string@), name@) is None,
        },
{
    match find_raw(cookie_string, name) {
        Some(text) => Some(text.to_owned()),
        None => None,
    }
}

/// The value of the first pair of a cookie string whose key is `name`.
fn find_raw<'a>(cookie_string: &'a str, name: &str) -> (value: Option<&'a str>)
    ensures
        match value {
            Some(text) => lookup(raw_pairs(cookie_string@), name@) == Some(text@),
            None => lookup(raw_pairs(cookie_string@), name@) is None,
        },
{
    let pairs = all_iter_raw(cookie_string);
    let mut i: usize = 0;
    assert(pairs_view(pairs@).skip(0) =~= pairs_view(pairs@));
    while i < pairs.len()
        invariant
            i <= pairs@.len(),
            pairs_view(pairs@) == raw_pairs(cookie_string@),
            lookup(raw_pairs(cookie_string@), name@) == lookup(
                pairs_view(pairs@).skip(i as int),
                name@,
            ),
        decreases pairs@.len() - i,
    {
        let (key, value) = pairs[i];
        proof {
            let rest = pairs_view(pairs@).skip(i as int);
            assert(rest.first() == (key@, value@));
            assert(rest.drop_first() =~= pairs_view(pairs@).skip(i + 1));
        }
        if same_text(key, name) {
            return Some(value);
        }
        i = i + 1;
    }
    None
}

/// Why the pairs of a cookie string could not be decoded: the undecoded key
/// that failed, or the decoded key of the value that failed.
pub enum DecodeFailure {
    /// The key, as it stands in the cookie string, is not decodable.
    Key(Seq<char>),
    /// The value is not decodable; the key is, and is given decoded.
    Value(Seq<char>),
}

/// Decoding error on a key or on a value of a cookie string.
#[derive(Debug)]
pub enum AllDecodeError {
    /// Decoding error on a key: the undecoded key, and the error.
    Key(String, FromUrlEncodingError),
    /// Decoding error on a value: the decoded key that the value belongs to,
    /// and the error.
    Value(String, FromUrlEncodingError),
}

impl View for AllDecodeError {
    type V = DecodeFailure;

    open spec fn view(&self) -> DecodeFailure {
        match self {
            AllDecodeError::Key(key, _) => DecodeFailure::Key(key@),
            AllDecodeError::Value(key, _) => DecodeFailure::Value(key@),
        }
    }
}

/// One pair, decoded: the key first, and the value only where the key is
/// decodable.
pub open spec fn decoded_pair(pair: (Seq<char>, Seq<char>)) -> Result<
    (Seq<char>, Seq<char>),
    DecodeFailure,
> {
    match decoded(pair.0) {
        None => Err(DecodeFailure::Key(pair.0)),
        Some(key) => match decoded(pair.1) {
            None => Err(DecodeFailure::Value(key)),
            Some(value) => Ok((key, value)),
        },
    }
}

/// The pairs, decoded in their order, or the failure of the first pair that
/// is not decodable.
pub open spec fn decoded_pairs(pairs: Seq<(Seq<char>, Seq<char>)>) -> Result<
    Seq<(Seq<char>, Seq<char>)>,
    DecodeFailure,
>
    decreases pairs.len(),
{
    if pairs.len() == 0 {
        Ok(seq![])
    } else {
        match decoded_pairs(pairs.drop_last()) {
            Err(failure) => Err(failure),
            Ok(before) => match decoded_pair(pairs.last()) {
                Err(failure) => Err(failure),
                Ok(pair) => Ok(before.push(pair)),
            },
        }
    }
}

/// The characters of a decoded pair, or its failure.
pub open spec fn outcome_view(outcome: Result<(String, String), AllDecodeError>) -> Result<
    (Seq<char>, Seq<char>),
    DecodeFailure,
> {
    match outcome {
        Ok((key, value)) => Ok((key@, value@)),
        Err(error) => Err(error@),
    }
}

/// What looking up `name` among the decoded cookies of `s` gives: nothing
/// where no key of `s` is the encoded `name`; else the decoded value of the
/// first such key, or nothing in its place where that value is not decodable.
pub open spec fn lookup_decoded(s: Seq<char>, name: Seq<char>) -> Option<Option<Seq<char>>> {
    match lookup(raw_pairs(s), encoded(name)) {
        None => None,
        Some(raw) => Some(decoded(raw)),
    }
}

/// The characters of a value that was looked up and decoded.
pub open spec fn found_view(found: Option<Result<String, FromUrlEncodingError>>) -> Option<
    Option<Seq<char>>,
> {
    match found {
        None => None,
        Some(Ok(text)) => Some(Some(text@)),
        Some(Err(_)) => Some(None),
    }
}

/// Decodes one pair: the key first, and the value where the key decoded.
fn decode_pair(key: &str, value: &str) -> (outcome: Result<(String, String), AllDecodeError>)
    ensures
        outcome_view(outcome) == decoded_pair((key@, value@)),
{
    match urlencoding::decode(key) {
        Ok(key) => match urlencoding::decode(value) {
            Ok(value) => Ok((key, value)),
            Err(error) => Err(AllDecodeError::Value(key, error)),
        },
        Err(error) => Err(AllDecodeError::Key(key.to_owned(), error)),
    }
}

/// Returns the pairs of a cookie string in its order, each with its key and
/// value decoded, or with the error of the one of them that failed.
pub fn all_iter(cookie_string: &str) -> (outcomes: Vec<Result<(String, String), AllDecodeError>>)
    ensures
        outcomes@.len() == raw_pairs(cookie_string@).len(),
        forall|i: int|
            0 <= i < outcomes@.len() ==> outcome_view(#[trigger] outcomes@[i]) == decoded_pair(
                raw_pairs(cookie_string@)[i],
            ),
{
    let pairs = all_iter_raw(cookie_string);
    let mut outcomes: Vec<Result<(String, String), AllDecodeError>> = Vec::new();
    let mut i: usize = 0;
    while i < pairs.len()
        invariant
            i <= pairs@.len(),
            pairs_view(pairs@) == raw_pairs(cookie_string@),
            outcomes@.len() == i,
            forall|j: int|
                0 <= j < i ==> outcome_view(#[trigger] outcomes@[j]) == decoded_pair(
                    raw_pairs(cookie_string@)[j],
                ),
        decreases pairs@.len() - i,
    {
        let (key, value) = pairs[i];
        assert(pairs_view(pairs@)[i as int] == (key@, value@));
        outcomes.push(decode_pair(key, value));
        i = i + 1;
    }
    outcomes
}

/// Returns all cookies of a cookie string, with decoded keys and values, or
/// the error of the first key or value in the string's order that is not
/// decodable. Of two cookies with one decoded key the later one stays.
pub fn all(cookie_string: &str) -> (cookies: Result<Cookies, AllDecodeError>)
    ensures
        match cookies {
            Ok(found) => decoded_pairs(raw_pairs(cookie_string@)) matches Ok(pairs) && found@
                == map_of(pairs),
            Err(error) => decoded_pairs(raw_pairs(cookie_string@)) == Err::<
                Seq<(Seq<char>, Seq<char>)>,
                DecodeFailure,
            >(error@),
        },
{
    let pairs = all_iter_raw(cookie_string);
    let mut cookies = Cookies::new();
    let ghost mut done: Seq<(Seq<char>, Seq<char>)> = seq![];
    let mut i: usize = 0;
    assert(pairs_view(pairs@).take(0) =~= seq![]);
    while i < pairs.len()
        invariant
            i <= pairs@.len(),
            pairs_view(pairs@) == raw_pairs(cookie_string@),
            decoded_pairs(pairs_view(pairs@).take(i as int)) == Ok::<
                Seq<(Seq<char>, Seq<char>)>,
                DecodeFailure,
            >(done),
            cookies@ == map_of(done),
        decreases pairs@.len() - i,
    {
        let (key, value) = pairs[i];
        proof {
            let all = pairs_view(pairs@);
            assert(all.take(i + 1).drop_last() =~= all.take(i as int));
            assert(all.take(i + 1).last() == (key@, value@));
            lemma_decoded_pairs_failure(all, i + 1);
        }
        match decode_pair(key, value) {
            Ok((key, value)) => {
                proof {
                    assert(done.push((key@, value@)).drop_last() =~= done);
                    done = done.push((key@, value@));
                }
                cookies.insert(key, value);
            },
            Err(error) => {
                return Err(error);
            },
        }
        i = i + 1;
    }
    assert(pairs_view(pairs@).take(i as int) =~= pairs_view(pairs@));
    Ok(cookies)
}

/// A failure among the first `n` pairs is the failure of all of them.
pub proof fn lemma_decoded_pairs_failure(pairs: Seq<(Seq<char>, Seq<char>)>, n: int)
    requires
        0 <= n <= pairs.len(),
    ensures
        decoded_pairs(pairs.take(n)) is Err ==> decoded_pairs(pairs) == decoded_pairs(
            pairs.take(n),
        ),
    decreases pairs.len() - n,
{
    if n < pairs.len() {
        assert(pairs.take(n + 1).drop_last() =~= pairs.take(n));
        lemma_decoded_pairs_failure(pairs, n + 1);
    } else {
        assert(pairs.take(n) =~= pairs);
    }
}

/// Returns the decoded value of the first cookie of a cookie string whose
/// undecoded key is the encoded `name`, if there is one, or the error of
/// decoding that value.
pub fn get(cookie_string: &str, name: &str) -> (value: Option<Result<String, FromUrlEncodingError>>)
    ensures
        found_view(value) == lookup_decoded(cookie_string@, name@),
{
    let name = urlencoding::encode(name);
    match find_raw(cookie_string, name.as_str()) {
        Some(raw) => Some(urlencoding::decode(raw)),
        None => None,
    }
}

/// SameSite policy of a cookie: whether it accompanies cross-site requests.
#[derive(Clone, Copy, Debug, PartialEq, Eq, Structural)]
pub enum SameSite {
    /// Sent for same-site requests and top-level navigation.
    Lax,
    /// Never sent in a cross-site context.
    Strict,
    /// Sent in every request; written `none`.
    Unrestricted,
}

impl SameSite {
    /// The lower-case word that stands for the policy in a cookie string.
    pub open spec fn word(self) -> Seq<char> {
        match self {
            SameSite::Lax => "lax"@,
            SameSite::Strict => "strict"@,
            SameSite::Unrestricted => "none"@,
        }
    }

    /// Returns the word of this policy.
    pub fn cookie_string_value(&self) -> (word: &'static str)
        ensures
            word@ == self.word(),
    {
        match self {
            SameSite::Lax => "lax",
            SameSite::Strict => "strict",
            SameSite::Unrestricted => "none",
        }
    }
}

impl Default for SameSite {
    /// The policy of a cookie that names none: `Lax`.
    fn default() -> (policy: Self)
        ensures
            policy == SameSite::Lax,
    {
        SameSite::Lax
    }
}

/// The options a cookie is set with.
#[derive(Clone, Debug)]
pub struct CookieOptions<'a> {
    /// The path of the cookie; the host's current path where there is none.
    pub path: Option<&'a str>,
    /// The domain of the cookie; the host's own where there is none.
    pub domain: Option<&'a str>,
    /// When the cookie expires, as a date in GMT string format; with the
    /// session where there is none.
    pub expires: Option<String>,
    /// Whether the cookie is only sent over a secure protocol.
    pub secure: bool,
    /// Whether the cookie accompanies cross-site requests.
    pub same_site: SameSite,
}

/// The options a cookie is set with, as texts.
pub struct CookieOptionsView {
    pub path: Option<Seq<char>>,
    pub domain: Option<Seq<char>>,
    pub expires: Option<Seq<char>>,
    pub secure: bool,
    pub same_site: SameSite,
}

impl CookieOptionsView {
    /// The options that name nothing: no path, domain or expiry, not secure,
    /// and the policy `Lax`.
    pub open spec fn plain() -> CookieOptionsView {
        CookieOptionsView {
            path: None,
            domain: None,
            expires: None,
            secure: false,
            same_site: SameSite::Lax,
        }
    }

    /// These options with the path `path`.
    pub open spec fn with_path(self, path: Seq<char>) -> CookieOptionsView {
        CookieOptionsView { path: Some(path), ..self }
    }

    /// These options with the domain `domain`.
    pub open spec fn with_domain(self, domain: Seq<char>) -> CookieOptionsView {
        CookieOptionsView { domain: Some(domain), ..self }
    }

    /// These options with the expiry `date`.
    pub open spec fn expires_at_date(self, date: Seq<char>) -> CookieOptionsView {
        CookieOptionsView { expires: Some(date), ..self }
    }

    /// These options, secure.
    pub open spec fn secure(self) -> CookieOptionsView {
        CookieOptionsView { secure: true, ..self }
    }

    /// These options with the policy `same_site`.
    pub open spec fn with_same_site(self, same_site: SameSite) -> CookieOptionsView {
        CookieOptionsView { same_site, ..self }
    }
}

impl<'a> View for CookieOptions<'a> {
    type V = CookieOptionsView;

    open spec fn view(&self) -> CookieOptionsView {
        CookieOptionsView {
            path: match self.path {
                Some(path) => Some(path@),
                None => None,
            },
            domain: match self.domain {
                Some(domain) => Some(domain@),
                None => None,
            },
            expires: match self.expires {
                Some(date) => Some(date@),
                None => None,
            },
            secure: self.secure,
            same_site: self.same_site,
        }
    }
}

impl<'a> Default for CookieOptions<'a> {
    /// The options that name nothing.
    fn default() -> (options: Self)
        ensures
            options@ == CookieOptionsView::plain(),
    {
        CookieOptions {
            path: None,
            domain: None,
            expires: None,
            secure: false,
            same_site: SameSite::Lax,
        }
    }
}

impl<'a> CookieOptions<'a> {
    /// Sets the path, and nothing else.
    pub fn with_path(self, path: &'a str) -> (options: Self)
        ensures
            options@ == self@.with_path(path@),
    {
        let mut options = self;
        options.path = Some(path);
        options
    }

    /// Sets the domain, and nothing else.
    pub fn with_domain(self, domain: &'a str) -> (options: Self)
        ensures
            options@ == self@.with_domain(domain@),
    {
        let mut options = self;
        options.domain = Some(domain);
        options
    }

    /// Lets the cookie expire at `date`, a date in GMT string format, which is
    /// kept as it is; sets nothing else.
    pub fn expires_at_date(self, date: &str) -> (options: Self)
        ensures
            options@ == self@.expires_at_date(date@),
    {
        let mut options = self;
        options.expires = Some(date.to_owned());
        options
    }

    /// Makes the cookie secure, and sets nothing else.
    pub fn secure(self) -> (options: Self)
        ensures
            options@ == self@.secure(),
    {
        let mut options = self;
        options.secure = true;
        options
    }

    /// Sets the SameSite policy, and nothing else.
    pub fn with_same_site(self, same_site: SameSite) -> (options: Self)
        ensures
            options@ == self@.with_same_site(same_site),
    {
        let mut options = self;
        options.same_site = same_site;
        options
    }
}

/// An attribute of a cookie: its label and its value, or nothing where it
/// has no value.
pub open spec fn attribute(label: Seq<char>, value: Option<Seq<char>>) -> Seq<char> {
    match value {
        Some(text) => label + text,
        None => seq![],
    }
}

/// The flag `;secure`, or nothing.
pub open spec fn secure_flag(secure: bool) -> Seq<char> {
    if secure {
        ";secure"@
    } else {
        seq![]
    }
}

/// The attributes of a cookie that is set with `options`: path, domain and
/// expiry where the options name them, then the flag `secure` where they ask
/// for it, then the SameSite policy, always.
pub open spec fn attributes(options: CookieOptionsView) -> Seq<char> {
    attribute(";path="@, options.path) + attribute(";domain="@, options.domain) + attribute(
        ";expires="@,
        options.expires,
    ) + secure_flag(options.secure) + ";samesite="@ + options.same_site.word()
}

/// The string that sets the cookie `name` to `value`: the pair, then the
/// attributes.
pub open spec fn set_directive(
    name: Seq<char>,
    value: Seq<char>,
    options: CookieOptionsView,
) -> Seq<char> {
    name + "="@ + value + attributes(options)
}

/// The string that deletes the cookie `name`: it lets the cookie expire at
/// the start of 1970.
pub open spec fn delete_directive(name: Seq<char>) -> Seq<char> {
    name + "=;expires=Thu, 01 Jan 1970 00:00:00 GMT"@
}

/// Returns the cookie string that sets a cookie, with name and value as they
/// are.
pub fn set_raw(name: &str, value: &str, options: &CookieOptions) -> (cookie_string: String)
    ensures
        cookie_string@ == set_directive(name@, value@, options@),
{
    let mut cookie_string = name.to_owned();
    cookie_string.append("=");
    cookie_string.append(value);
    let ghost pair = cookie_string@;
    let ghost mut written: Seq<char> = seq![];
    assert(cookie_string@ =~= pair + written);

    if let Some(path) = options.path {
        cookie_string.append(";path=");
        cookie_string.append(path);
    }
    proof {
        written = attribute(";path="@, options@.path);
        assert(cookie_string@ =~= pair + written);
    }

    if let Some(domain) = options.domain {
        cookie_string.append(";domain=");
        cookie_string.append(domain);
    }
    proof {
        written = written + attribute(";domain="@, options@.domain);
        assert(cookie_string@ =~= pair + written);
    }

    if let Some(expires_str) = &options.expires {
        cookie_string.append(";expires=");
        cookie_string.append(expires_str.as_str());
    }
    proof {
        written = written + attribute(";expires="@, options@.expires);
        assert(cookie_string@ =~= pair + written);
    }

    if options.secure {
        cookie_string.append(";secure");
    }
    proof {
        written = written + secure_flag(options@.secure);
        assert(cookie_string@ =~= pair + written);
    }

    cookie_string.append(";samesite=");
    cookie_string.append(options.same_site.cookie_string_value());
    assert(cookie_string@ =~= pair + (written + ";samesite="@ + options@.same_site.word()));

    cookie_string
}

/// Returns the cookie string that sets a cookie, with name and value
/// percent-encoded. The options are not encoded.
pub fn set(name: &str, value: &str, options: &CookieOptions) -> (cookie_string: String)
    ensures
        cookie_string@ == set_directive(encoded(name@), encoded(value@), options@),
{
    let name = urlencoding::encode(name);
    let value = urlencoding::encode(value);
    set_raw(name.as_str(), value.as_str(), options)
}

/// Returns the cookie string that deletes a cookie, with the name as it is.
pub fn delete_raw(name: &str) -> (cookie_string: String)
    ensures
        cookie_string@ == delete_directive(name@),
{
    let mut cookie_string = name.to_owned();
    cookie_string.append("=;expires=Thu, 01 Jan 1970 00:00:00 GMT");
    cookie_string
}

/// Returns the cookie string that deletes a cookie, with the name
/// percent-encoded.
pub fn delete(name: &str) -> (cookie_string: String)
    ensures
        cookie_string@ == delete_directive(encoded(name@)),
{
    let name = urlencoding::encode(name);
    delete_raw(name.as_str())
}

} // verus!
