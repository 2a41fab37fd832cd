//! What holds of reading and writing cookie strings, for every cookie string:
//! a written cookie is read back, builders may come in any order, and a key
//! that is absent is told from a value that is corrupt.

use crate::cookies::attribute;
use crate::cookies::attributes;
use crate::cookies::delete_directive;
use crate::cookies::lookup;
use crate::cookies::lookup_decoded;
use crate::cookies::map_of;
use crate::cookies::pairs_of;
use crate::cookies::raw_pairs;
use crate::cookies::secure_flag;
use crate::cookies::segment_pair;
use crate::cookies::segments;
use crate::cookies::set_directive;
use crate::cookies::CookieOptionsView;
use crate::cookies::SameSite;
use crate::percent::encoded;
use crate::percent::is_encoded_char;
use crate::percent::lemma_decoded_encoded;
use crate::percent::lemma_encoded_chars;
use crate::text::is_blank;
use crate::text::is_trimmed;
use crate::text::is_whitespace;
use crate::text::lacks;
use crate::text::lemma_blank_lacks;
use crate::text::lemma_position;
use crate::text::lemma_position_after;
use crate::text::lemma_position_lacking;
use crate::text::lemma_trim_padded;
use crate::text::lemma_trim_trimmed;
use crate::text::position;
use vstd::prelude::*;

verus! {

/// The segments, with a `;` between each two.
pub open spec fn joined(parts: Seq<Seq<char>>) -> Seq<char>
    decreases parts.len(),
{
    if parts.len() == 0 {
        seq![]
    } else if parts.len() == 1 {
        parts.first()
    } else {
        parts.first() + seq![';'] + joined(parts.drop_first())
    }
}

/// A cookie as it stands in a cookie string: its key and its value, and the
/// blanks around each of them.
pub struct WrittenCookie {
    pub key: Seq<char>,
    pub value: Seq<char>,
    pub before_key: Seq<char>,
    pub after_key: Seq<char>,
    pub before_value: Seq<char>,
    pub after_value: Seq<char>,
}

impl WrittenCookie {
    /// The key is trimmed and holds neither `;` nor `=`, the value is trimmed
    /// and holds no `;`, and what stands around them is whitespace.
    pub open spec fn well_formed(self) -> bool {
        &&& is_trimmed(self.key)
        &&& lacks(self.key, ';')
        &&& lacks(self.key, '=')
        &&& is_trimmed(self.value)
        &&& lacks(self.value, ';')
        &&& is_blank(self.before_key)
        &&& is_blank(self.after_key)
        &&& is_blank(self.before_value)
        &&& is_blank(self.after_value)
    }

    /// The segment that holds this cookie.
    pub open spec fn segment(self) -> Seq<char> {
        self.before_key + self.key + self.after_key + seq!['='] + self.before_value + self.value
            + self.after_value
    }

    /// The key and the value.
    pub open spec fn pair(self) -> (Seq<char>, Seq<char>) {
        (self.key, self.value)
    }
}

/// The segments of the written cookies.
pub open spec fn written_segments(cookies: Seq<WrittenCookie>) -> Seq<Seq<char>> {
    cookies.map_values(|cookie: WrittenCookie| cookie.segment())
}

/// The pairs of the written cookies.
pub open spec fn written_pairs(cookies: Seq<WrittenCookie>) -> Seq<(Seq<char>, Seq<char>)> {
    cookies.map_values(|cookie: WrittenCookie| cookie.pair())
}

/// The pairs of a segment and of those that follow it are the pair of the
/// first, if it holds one, and then the pairs of the others.
pub proof fn lemma_pairs_of_first(first: Seq<char>, rest: Seq<Seq<char>>)
    ensures
        pairs_of(seq![first] + rest) == match segment_pair(first) {
            Some(pair) => seq![pair] + pairs_of(rest),
            None => pairs_of(rest),
        },
    decreases rest.len(),
{
    let all = seq![first] + rest;
    if rest.len() == 0 {
        assert(all.drop_last() =~= Seq::<Seq<char>>::empty());
        assert(all.last() == first);
        assert(pairs_of(all.drop_last()) =~= Seq::<(Seq<char>, Seq<char>)>::empty());
        match segment_pair(first) {
            Some(pair) => {
                assert(pairs_of(all) =~= seq![pair] + pairs_of(rest));
            },
            None => {
                assert(pairs_of(all) =~= pairs_of(rest));
            },
        }
    } else {
        lemma_pairs_of_first(first, rest.drop_last());
        assert(all.drop_last() =~= seq![first] + rest.drop_last());
        assert(all.last() == rest.last());
        match segment_pair(first) {
            Some(pair) => {
                match segment_pair(rest.last()) {
                    Some(last) => {
                        assert(pairs_of(all) =~= seq![pair] + pairs_of(rest));
                    },
                    None => {},
                }
            },
            None => {},
        }
    }
}

/// Segments that hold no `;`, joined by `;`, are the segments of what they
/// are joined to.
pub proof fn lemma_segments_of_joined(parts: Seq<Seq<char>>)
    requires
        parts.len() > 0,
        forall|i: int| 0 <= i < parts.len() ==> lacks(#[trigger] parts[i], ';'),
    ensures
        segments(joined(parts)) == parts,
    decreases parts.len(),
{
    let first = parts.first();
    assert(lacks(parts[0], ';'));
    if parts.len() == 1 {
        lemma_position_lacking(first, ';');
        assert(segments(joined(parts)) =~= parts);
    } else {
        let rest = parts.drop_first();
        assert forall|i: int| 0 <= i < rest.len() implies lacks(#[trigger] rest[i], ';') by {
            assert(rest[i] == parts[i + 1]);
        }
        lemma_segments_of_joined(rest);
        lemma_position_after(first, ';', joined(rest));
        assert(segments(joined(parts)) =~= seq![first] + segments(joined(rest)));
        assert(seq![first] + rest =~= parts);
    }
}

/// The segments of a cookie string are at least one, none of them holds a
/// `;`, and joined by `;` they are the cookie string.
pub proof fn lemma_joined_segments(s: Seq<char>)
    ensures
        segments(s).len() > 0,
        forall|i: int| 0 <= i < segments(s).len() ==> lacks(#[trigger] segments(s)[i], ';'),
        joined(segments(s)) == s,
    decreases s.len(),
{
    lemma_position(s, ';');
    let at = position(s, ';');
    if at < s.len() {
        let first = s.take(at);
        let rest = s.skip(at + 1);
        lemma_joined_segments(rest);
        let parts = segments(s);
        assert(parts =~= seq![first] + segments(rest));
        assert(parts.drop_first() =~= segments(rest));
        assert forall|i: int| 0 <= i < parts.len() implies lacks(#[trigger] parts[i], ';') by {
            if i > 0 {
                assert(parts[i] == segments(rest)[i - 1]);
            }
        }
        assert(first + seq![';'] + rest =~= s);
    } else {
        assert(segments(s) =~= seq![s]);
    }
}

/// The pair of a well-formed written cookie is its key and its value.
pub proof fn lemma_written_cookie_pair(cookie: WrittenCookie)
    requires
        cookie.well_formed(),
    ensures
        segment_pair(cookie.segment()) == Some(cookie.pair()),
        lacks(cookie.segment(), ';'),
{
    let left = cookie.before_key + cookie.key + cookie.after_key;
    let right = cookie.before_value + cookie.value + cookie.after_value;
    let segment = cookie.segment();
    assert(!is_whitespace('='));
    assert(!is_whitespace(';'));
    lemma_blank_lacks(cookie.before_key, '=');
    lemma_blank_lacks(cookie.after_key, '=');
    lemma_blank_lacks(cookie.before_key, ';');
    lemma_blank_lacks(cookie.after_key, ';');
    lemma_blank_lacks(cookie.before_value, ';');
    lemma_blank_lacks(cookie.after_value, ';');
    assert(lacks(left, '='));
    assert(lacks(left, ';'));
    assert(lacks(right, ';'));
    assert(segment =~= left + seq!['='] + right);
    lemma_position_after(left, '=', right);
    lemma_trim_padded(cookie.before_key, cookie.key, cookie.after_key);
    lemma_trim_padded(cookie.before_value, cookie.value, cookie.after_value);
    assert forall|i: int| 0 <= i < segment.len() implies #[trigger] segment[i] != ';' by {
        if i < left.len() {
            assert(segment[i] == left[i]);
        } else if i > left.len() {
            assert(segment[i] == right[i - left.len() - 1]);
        }
    }
}

/// Reading what was written: the pairs of a cookie string made of
/// well-formed cookies, joined by `;`, are the keys and values of those
/// cookies, in their order, whatever whitespace stands around them; so the
/// mapping read from it is the one that they give, the later of two cookies
/// with one key staying.
pub proof fn lemma_written_cookies_are_read(cookies: Seq<WrittenCookie>)
    requires
        forall|i: int| 0 <= i < cookies.len() ==> (#[trigger] cookies[i]).well_formed(),
    ensures
        raw_pairs(joined(written_segments(cookies))) == written_pairs(cookies),
        map_of(raw_pairs(joined(written_segments(cookies)))) == map_of(written_pairs(cookies)),
{
    let parts = written_segments(cookies);
    if cookies.len() == 0 {
        let text = joined(parts);
        let only = seq![text];
        assert(text.len() == 0);
        assert(segments(text) == only);
        assert(segment_pair(only.last()) is None);
        assert(pairs_of(only.drop_last()) =~= Seq::<(Seq<char>, Seq<char>)>::empty());
        assert(raw_pairs(text) =~= written_pairs(cookies));
    } else {
        assert forall|i: int| 0 <= i < parts.len() implies lacks(#[trigger] parts[i], ';') by {
            lemma_written_cookie_pair(cookies[i]);
        }
        lemma_segments_of_joined(parts);
        lemma_pairs_of_written(cookies);
    }
}

/// The pairs of the segments of well-formed cookies are their keys and
/// values.
pub proof fn lemma_pairs_of_written(cookies: Seq<WrittenCookie>)
    requires
        forall|i: int| 0 <= i < cookies.len() ==> (#[trigger] cookies[i]).well_formed(),
    ensures
        pairs_of(written_segments(cookies)) == written_pairs(cookies),
    decreases cookies.len(),
{
    if cookies.len() == 0 {
        assert(pairs_of(written_segments(cookies)) =~= written_pairs(cookies));
    } else {
        let before = cookies.drop_last();
        assert forall|i: int| 0 <= i < before.len() implies (#[trigger] before[i]).well_formed() by {
            assert(before[i] == cookies[i]);
        }
        lemma_pairs_of_written(before);
        lemma_written_cookie_pair(cookies.last());
        assert(written_segments(cookies).drop_last() =~= written_segments(before));
        assert(written_segments(cookies).last() == cookies.last().segment());
        assert(written_pairs(before).push(cookies.last().pair()) =~= written_pairs(cookies));
    }
}

/// Of the pairs that have one key the last one stays: the mapping holds a
/// key exactly where a pair has it, and gives it the value of the last such
/// pair.
pub proof fn lemma_map_of_last_wins(pairs: Seq<(Seq<char>, Seq<char>)>)
    ensures
        forall|key: Seq<char>|
            map_of(pairs).contains_key(key) <==> exists|i: int|
                0 <= i < pairs.len() && (#[trigger] pairs[i]).0 == key,
        forall|i: int|
            0 <= i < pairs.len() && (forall|j: int|
                i < j < pairs.len() ==> (#[trigger] pairs[j]).0 != pairs[i].0) ==> map_of(
                pairs,
            )[(#[trigger] pairs[i]).0] == pairs[i].1,
    decreases pairs.len(),
{
    if pairs.len() > 0 {
        let before = pairs.drop_last();
        let last = pairs.last();
        lemma_map_of_last_wins(before);
        assert forall|key: Seq<char>| map_of(pairs).contains_key(key) implies exists|i: int|
            0 <= i < pairs.len() && (#[trigger] pairs[i]).0 == key by {
            if key == last.0 {
                assert(pairs[pairs.len() - 1].0 == key);
            } else {
                assert(map_of(before).contains_key(key));
                let i = choose|i: int| 0 <= i < before.len() && (#[trigger] before[i]).0 == key;
                assert(before[i] == pairs[i]);
                assert(pairs[i].0 == key);
            }
        }
        assert forall|key: Seq<char>|
            (exists|i: int| 0 <= i < pairs.len() && (#[trigger] pairs[i]).0 == key) implies map_of(
            pairs,
        ).contains_key(key) by {
            let i = choose|i: int| 0 <= i < pairs.len() && (#[trigger] pairs[i]).0 == key;
            if i < before.len() {
                assert(before[i] == pairs[i]);
                assert(before[i].0 == key);
                assert(map_of(before).contains_key(key));
            }
        }
        assert forall|i: int|
            0 <= i < pairs.len() && (forall|j: int|
                i < j < pairs.len() ==> (#[trigger] pairs[j]).0 != pairs[i].0) implies map_of(
            pairs,
        )[(#[trigger] pairs[i]).0] == pairs[i].1 by {
            if i < before.len() {
                assert(pairs[pairs.len() - 1].0 != pairs[i].0);
                assert(before[i] == pairs[i]);
                assert forall|j: int| i < j < before.len() implies (#[trigger] before[j]).0
                    != before[i].0 by {
                    assert(before[j] == pairs[j]);
                }
            }
        }
    }
}

/// A lookup finds nothing exactly where no pair has the key.
pub proof fn lemma_lookup_absent(pairs: Seq<(Seq<char>, Seq<char>)>, name: Seq<char>)
    ensures
        lookup(pairs, name) is None <==> forall|i: int|
            0 <= i < pairs.len() ==> (#[trigger] pairs[i]).0 != name,
    decreases pairs.len(),
{
    if pairs.len() > 0 {
        let rest = pairs.drop_first();
        lemma_lookup_absent(rest, name);
        if pairs.first().0 == name {
            assert(pairs[0].0 == name);
        } else {
            if lookup(rest, name) is None {
                assert forall|i: int| 0 <= i < pairs.len() implies (#[trigger] pairs[i]).0
                    != name by {
                    if i > 0 {
                        assert(rest[i - 1] == pairs[i]);
                    }
                }
            } else {
                let i = choose|i: int| 0 <= i < rest.len() && (#[trigger] rest[i]).0 == name;
                assert(pairs[i + 1] == rest[i]);
            }
        }
    }
}

/// A decoded lookup tells a key that is absent from a value that is
/// corrupt: it finds nothing exactly where no undecoded key of the cookie
/// string is the encoded name, and whether the value it finds is decodable
/// plays no part in that.
pub proof fn lemma_absent_is_not_corrupt(s: Seq<char>, name: Seq<char>)
    ensures
        lookup_decoded(s, name) is None <==> forall|i: int|
            0 <= i < raw_pairs(s).len() ==> (#[trigger] raw_pairs(s)[i]).0 != encoded(name),
        lookup_decoded(s, name) is None <==> lookup(raw_pairs(s), encoded(name)) is None,
{
    lemma_lookup_absent(raw_pairs(s), encoded(name));
}

/// The attributes of a cookie start with `;`.
pub proof fn lemma_attributes_start(options: CookieOptionsView)
    ensures
        attributes(options).len() > 0,
        attributes(options).first() == ';',
{
    reveal_strlit(";path=");
    reveal_strlit(";domain=");
    reveal_strlit(";expires=");
    reveal_strlit(";secure");
    reveal_strlit(";samesite=");
    let path = attribute(";path="@, options.path);
    let domain = attribute(";domain="@, options.domain);
    let expires = attribute(";expires="@, options.expires);
    let secure = secure_flag(options.secure);
    let tail = ";samesite="@ + options.same_site.word();
    assert(attributes(options) =~= path + (domain + (expires + (secure + tail))));
    assert(tail.len() > 0 && tail[0] == ';');
    assert(secure.len() > 0 ==> secure[0] == ';');
    assert(expires.len() > 0 ==> expires[0] == ';');
    assert(domain.len() > 0 ==> domain[0] == ';');
    assert(path.len() > 0 ==> path[0] == ';');
}

/// The first pair of a cookie string that starts with a trimmed key without
/// `;` and `=`, then `=`, then a trimmed value without `;`, then nothing or
/// `;` and more, is that key and that value.
pub proof fn lemma_first_pair(key: Seq<char>, value: Seq<char>, rest: Seq<char>)
    requires
        is_trimmed(key),
        lacks(key, ';'),
        lacks(key, '='),
        is_trimmed(value),
        lacks(value, ';'),
        rest.len() > 0 ==> rest.first() == ';',
    ensures
        raw_pairs(key + seq!['='] + value + rest).len() > 0,
        raw_pairs(key + seq!['='] + value + rest).first() == (key, value),
{
    let segment = key + seq!['='] + value;
    let whole = segment + rest;
    lemma_position_after(key, '=', value);
    lemma_trim_trimmed(key);
    lemma_trim_trimmed(value);
    assert(segment_pair(segment) == Some((key, value)));
    assert forall|i: int| 0 <= i < segment.len() implies #[trigger] segment[i] != ';' by {
        if i < key.len() {
            assert(segment[i] == key[i]);
        } else if i > key.len() {
            assert(segment[i] == value[i - key.len() - 1]);
        }
    }
    if rest.len() == 0 {
        assert(whole =~= segment);
        lemma_position_lacking(segment, ';');
        assert(segments(whole) =~= seq![segment] + Seq::<Seq<char>>::empty());
        lemma_pairs_of_first(segment, Seq::<Seq<char>>::empty());
    } else {
        let after = rest.drop_first();
        assert(whole =~= segment + seq![';'] + after);
        lemma_position_after(segment, ';', after);
        assert(segments(whole) =~= seq![segment] + segments(after));
        lemma_pairs_of_first(segment, segments(after));
    }
}

/// Setting a cookie and then looking its name up, undecoded, gives its
/// value back, whatever the options: for a trimmed name without `;` and `=`
/// and a trimmed value without `;`.
pub proof fn lemma_set_raw_then_get_raw(
    name: Seq<char>,
    value: Seq<char>,
    options: CookieOptionsView,
)
    requires
        is_trimmed(name),
        lacks(name, ';'),
        lacks(name, '='),
        is_trimmed(value),
        lacks(value, ';'),
    ensures
        lookup(raw_pairs(set_directive(name, value, options)), name) == Some(value),
{
    reveal_strlit("=");
    assert("="@ =~= seq!['=']);
    lemma_attributes_start(options);
    lemma_first_pair(name, value, attributes(options));
}

/// An encoded text is trimmed and holds neither `;` nor `=`.
pub proof fn lemma_encoded_is_plain(s: Seq<char>)
    ensures
        is_trimmed(encoded(s)),
        lacks(encoded(s), ';'),
        lacks(encoded(s), '='),
{
    lemma_encoded_chars(s);
    let text = encoded(s);
    assert forall|i: int| 0 <= i < text.len() implies #[trigger] text[i] != ';' && text[i]
        != '=' && !is_whitespace(text[i]) by {
        assert(is_encoded_char(text[i]));
    }
    if text.len() > 0 {
        assert(!is_whitespace(text[0]));
        assert(!is_whitespace(text[text.len() - 1]));
    }
}

/// Setting a cookie with encoding and then looking its name up with
/// decoding gives its value back, for every name, value and options.
pub proof fn lemma_set_then_get(name: Seq<char>, value: Seq<char>, options: CookieOptionsView)
    ensures
        lookup_decoded(set_directive(encoded(name), encoded(value), options), name) == Some(
            Some(value),
        ),
{
    lemma_encoded_is_plain(name);
    lemma_encoded_is_plain(value);
    lemma_set_raw_then_get_raw(encoded(name), encoded(value), options);
    lemma_decoded_encoded(value);
}

/// A deleted cookie reads as the empty value.
pub proof fn lemma_delete_then_get(name: Seq<char>)
    ensures
        lookup_decoded(delete_directive(encoded(name)), name) == Some(Some(Seq::<char>::empty())),
{
    reveal_strlit("=;expires=Thu, 01 Jan 1970 00:00:00 GMT");
    let tail = "=;expires=Thu, 01 Jan 1970 00:00:00 GMT"@;
    let rest = tail.skip(1);
    let empty = Seq::<char>::empty();
    lemma_encoded_is_plain(name);
    assert(delete_directive(encoded(name)) =~= encoded(name) + seq!['='] + empty + rest);
    assert(rest[0] == ';');
    lemma_first_pair(encoded(name), empty, rest);
    assert(encoded(empty) =~= empty) by {
        assert(vstd::utf8::encode_utf8(empty) =~= Seq::<u8>::empty());
    }
    lemma_decoded_encoded(empty);
}

/// What the builders set does not depend on their order: any two of them
/// that set different fields may change places.
pub proof fn lemma_builders_commute(
    options: CookieOptionsView,
    path: Seq<char>,
    domain: Seq<char>,
    date: Seq<char>,
    same_site: SameSite,
)
    ensures
        options.with_path(path).with_domain(domain) == options.with_domain(domain).with_path(path),
        options.with_path(path).expires_at_date(date) == options.expires_at_date(date).with_path(
            path,
        ),
        options.with_path(path).secure() == options.secure().with_path(path),
        options.with_path(path).with_same_site(same_site) == options.with_same_site(
            same_site,
        ).with_path(path),
        options.with_domain(domain).expires_at_date(date) == options.expires_at_date(
            date,
        ).with_domain(domain),
        options.with_domain(domain).secure() == options.secure().with_domain(domain),
        options.with_domain(domain).with_same_site(same_site) == options.with_same_site(
            same_site,
        ).with_domain(domain),
        options.expires_at_date(date).secure() == options.secure().expires_at_date(date),
        options.expires_at_date(date).with_same_site(same_site) == options.with_same_site(
            same_site,
        ).expires_at_date(date),
        options.secure().with_same_site(same_site) == options.with_same_site(same_site).secure(),
{
}

} // verus!
