//! Common utilities.

use vstd::prelude::*;

use crate::text;

verus! {

/// A character that may follow the first one of a scheme.
pub open spec fn scheme_char(c: char) -> bool {
    text::ascii_letter(c) || text::ascii_digit(c) || c == '+' || c == '-' || c == '.'
}

/// A scheme: an ASCII letter followed by letters, digits, `+`, `-` or `.`
/// (RFC 3986).
pub open spec fn is_scheme(s: Seq<char>) -> bool {
    &&& s.len() > 0
    &&& text::ascii_letter(s[0])
    &&& forall|i: int| 1 <= i < s.len() ==> scheme_char(#[trigger] s[i])
}

/// `uri` is `scheme`, a colon and something more, and the colon is the first
/// one.
pub open spec fn split_at_colon(uri: Seq<char>, scheme: Seq<char>) -> bool {
    &&& text::begins_with(uri, scheme)
    &&& scheme.len() < uri.len()
    &&& uri[scheme.len() as int] == ':'
    &&& !scheme.contains(':')
}

/// What stands before the first colon of `uri`, if there is one.
pub open spec fn before_colon(uri: Seq<char>) -> Option<Seq<char>>
    decreases uri.len(),
{
    if uri.len() == 0 {
        None
    } else if uri[0] == ':' {
        Some(Seq::empty())
    } else {
        match before_colon(uri.drop_first()) {
            Some(rest) => Some(seq![uri[0]] + rest),
            None => None,
        }
    }
}

/// The scheme of `uri` in lower case, or nothing if it has no valid one.
pub open spec fn scheme_of(uri: Seq<char>) -> Option<Seq<char>> {
    match before_colon(uri) {
        Some(scheme) => if is_scheme(scheme) {
            Some(text::ascii_lowercase(scheme))
        } else {
            None
        },
        None => None,
    }
}

/// `before_colon` is the text that `split_at_colon` speaks of.
proof fn lemma_before_colon(uri: Seq<char>, scheme: Seq<char>)
    ensures
        before_colon(uri) == Some(scheme) <==> split_at_colon(uri, scheme),
    decreases uri.len(),
{
    if uri.len() > 0 {
        if uri[0] == ':' {
            if split_at_colon(uri, scheme) && scheme.len() > 0 {
                assert(uri.subrange(0, scheme.len() as int)[0] == scheme[0]);
            }
            if scheme.len() == 0 {
                assert(uri.subrange(0, 0) =~= scheme);
                assert(scheme =~= Seq::empty());
            }
        } else if 0 < scheme.len() <= uri.len() {
            let tail = scheme.drop_first();
            lemma_before_colon(uri.drop_first(), tail);
            assert(seq![scheme[0]] + tail =~= scheme);
            assert(uri.drop_first().subrange(0, tail.len() as int) =~= uri.subrange(
                1,
                scheme.len() as int,
            ));
            if before_colon(uri) == Some(scheme) {
                let rest = before_colon(uri.drop_first())->0;
                assert((seq![uri[0]] + rest)[0] == scheme[0]);
                assert(tail =~= rest);
                assert(uri.subrange(0, scheme.len() as int) =~= scheme);
                assert(!scheme.contains(':')) by {
                    if scheme.contains(':') {
                        let i = choose|i: int| 0 <= i < scheme.len() && scheme[i] == ':';
                        assert(tail[i - 1] == ':');
                    }
                }
            }
            if split_at_colon(uri, scheme) {
                assert(uri.subrange(0, scheme.len() as int)[0] == scheme[0]);
                assert(uri.subrange(0, scheme.len() as int).drop_first() =~= uri.subrange(
                    1,
                    scheme.len() as int,
                ));
                assert(!tail.contains(':')) by {
                    if tail.contains(':') {
                        let i = choose|i: int| 0 <= i < tail.len() && tail[i] == ':';
                        assert(scheme[i + 1] == ':');
                    }
                }
                assert(uri.drop_first()[tail.len() as int] == ':');
            }
        } else {
            if before_colon(uri) == Some(scheme) {
                let rest = before_colon(uri.drop_first())->0;
                lemma_before_colon(uri.drop_first(), rest);
                assert((seq![uri[0]] + rest).len() == rest.len() + 1);
            }
        }
    }
}

/// Returns the lowercased scheme of `uri`, or None if it has no valid one.
/// A scheme is an ASCII letter followed by letters, digits, '+', '-' or '.'
/// (RFC 3986).
pub fn uri_scheme(uri: &str) -> (r: Option<String>)
    ensures
        text::optional_text(r) == scheme_of(uri@),
{
    let chars = text::chars_of(uri);
    let mut out = String::new();
    let mut i: usize = 0;
    while i < chars.len() && chars[i] != ':'
        invariant
            chars@ == uri@,
            i <= chars@.len(),
            forall|j: int| 0 <= j < i ==> uri@[j] != ':',
            i > 0 ==> is_scheme(uri@.take(i as int)),
            out@ == text::ascii_lowercase(uri@.take(i as int)),
        decreases chars@.len() - i,
    {
        let c = chars[i];
        let letter = ('A' <= c && c <= 'Z') || ('a' <= c && c <= 'z');
        let digit = '0' <= c && c <= '9';
        let fits = letter || (i > 0 && (digit || c == '+' || c == '-' || c == '.'));
        if !fits {
            proof {
                if let Some(scheme) = before_colon(uri@) {
                    lemma_before_colon(uri@, scheme);
                    assert(scheme.len() > i) by {
                        if scheme.len() <= i {
                            assert(uri@[scheme.len() as int] == ':');
                        }
                    }
                    assert(scheme[i as int] == uri@.subrange(0, scheme.len() as int)[i as int]);
                }
            }
            return None;
        }
        out.push(text::to_ascii_lower(c));
        i = i + 1;
        proof {
            assert(uri@.take(i as int) =~= uri@.take(i - 1).push(c));
            assert(out@ =~= text::ascii_lowercase(uri@.take(i as int)));
        }
    }
    if i == 0 || i == chars.len() {
        proof {
            if let Some(scheme) = before_colon(uri@) {
                lemma_before_colon(uri@, scheme);
                if i == 0 && scheme.len() > 0 {
                    assert(uri@.subrange(0, scheme.len() as int)[0] == scheme[0]);
                }
            }
        }
        return None;
    }
    proof {
        let scheme = uri@.take(i as int);
        assert(uri@.subrange(0, scheme.len() as int) =~= scheme);
        lemma_before_colon(uri@, scheme);
    }
    Some(out)
}

/// The scheme does not depend on the case in which it is written, nor on what
/// follows the colon.
pub proof fn law_scheme_ignores_case(a: Seq<char>, b: Seq<char>, x: Seq<char>, y: Seq<char>)
    requires
        !a.contains(':'),
        !b.contains(':'),
        text::ascii_lowercase(a) == text::ascii_lowercase(b),
    ensures
        scheme_of(a + seq![':'] + x) == scheme_of(b + seq![':'] + y),
{
    let u = a + seq![':'] + x;
    let v = b + seq![':'] + y;
    assert(u.subrange(0, a.len() as int) =~= a);
    assert(v.subrange(0, b.len() as int) =~= b);
    lemma_before_colon(u, a);
    lemma_before_colon(v, b);
    assert(text::ascii_lowercase(a).len() == a.len());
    assert(text::ascii_lowercase(b).len() == b.len());
    assert forall|i: int| 0 <= i < a.len() implies text::ascii_lower(#[trigger] a[i])
        == text::ascii_lower(b[i]) by {
        assert(text::ascii_lowercase(a)[i] == text::ascii_lower(a[i]));
        assert(text::ascii_lowercase(b)[i] == text::ascii_lower(b[i]));
    }
    assert(is_scheme(a) == is_scheme(b)) by {
        if is_scheme(a) {
            assert(text::ascii_letter(b[0])) by {
                assert(text::ascii_lower(a[0]) == text::ascii_lower(b[0]));
            }
            assert forall|i: int| 1 <= i < b.len() implies scheme_char(#[trigger] b[i]) by {
                assert(scheme_char(a[i]));
            }
        }
        if is_scheme(b) {
            assert(text::ascii_letter(a[0])) by {
                assert(text::ascii_lower(a[0]) == text::ascii_lower(b[0]));
            }
            assert forall|i: int| 1 <= i < a.len() implies scheme_char(#[trigger] a[i]) by {
                assert(scheme_char(b[i]));
            }
        }
    }
}

/// A scheme that was found is itself found again, unchanged.
pub proof fn law_scheme_is_stable(uri: Seq<char>, rest: Seq<char>)
    requires
        scheme_of(uri) is Some,
    ensures
        scheme_of(scheme_of(uri)->0 + seq![':'] + rest) == scheme_of(uri),
{
    let scheme = before_colon(uri)->0;
    lemma_before_colon(uri, scheme);
    let lower = text::ascii_lowercase(scheme);
    assert(!lower.contains(':')) by {
        if lower.contains(':') {
            let i = choose|i: int| 0 <= i < lower.len() && lower[i] == ':';
            assert(text::ascii_lower(scheme[i]) == ':');
            assert(scheme.contains(scheme[i]));
        }
    }
    assert(text::ascii_lowercase(lower) =~= text::ascii_lowercase(scheme));
    law_scheme_ignores_case(lower, scheme, rest, Seq::empty());
    let again = scheme + seq![':'] + Seq::<char>::empty();
    assert(again.subrange(0, scheme.len() as int) =~= scheme);
    lemma_before_colon(again, scheme);
}

/// The code is that of a letter `a` to `z`, in either case.
pub open spec fn letter_code(code: int) -> bool {
    65 <= code <= 90 || 97 <= code <= 122
}

/// The text can be a scheme, by the codes of its characters: a letter, and then
/// letters, digits, plus, minus and dot.
pub open spec fn scheme_codes(s: Seq<char>) -> bool {
    &&& s.len() > 0
    &&& letter_code(s[0] as int)
    &&& forall|i: int|
        0 < i < s.len() ==> {
            let code = (#[trigger] s[i]) as int;
            letter_code(code) || 48 <= code <= 57 || code == 43 || code == 45 || code == 46
        }
}

/// What is found is what stands before the first colon, with its capitals in lower
/// case, and something is found where that can be a scheme.
pub proof fn law_the_scheme_stands_before_the_colon(uri: &str, found: Option<String>)
    requires
        call_ensures(uri_scheme, (uri,), found),
    ensures
        found matches Some(scheme) ==> {
            let n = scheme@.len() as int;
            &&& n < uri@.len()
            &&& uri@[n] == ':'
            &&& scheme_codes(uri@.take(n))
            &&& forall|i: int|
                0 <= i < n ==> (#[trigger] scheme@[i]) as int == (if 65 <= uri@[i] as int <= 90 {
                    uri@[i] as int + 32
                } else {
                    uri@[i] as int
                })
        },
        found is None ==> forall|n: int|
            0 <= n < uri@.len() && uri@[n] == ':' ==> !scheme_codes(#[trigger] uri@.take(n)),
{
    match found {
        Some(scheme) => {
            let written = before_colon(uri@)->0;
            lemma_before_colon(uri@, written);
            assert(uri@.take(written.len() as int) =~= written);
            assert(scheme@ == text::ascii_lowercase(written));
            assert forall|i: int| 0 <= i < scheme@.len() implies (#[trigger] scheme@[i]) as int == (
            if 65 <= uri@[i] as int <= 90 {
                uri@[i] as int + 32
            } else {
                uri@[i] as int
            }) by {
                text::law_ascii_lower_case_moves_capitals(written, i);
                assert(written[i] == uri@.subrange(0, written.len() as int)[i]);
            }
        },
        None => {
            assert forall|n: int| 0 <= n < uri@.len() && uri@[n] == ':' implies !scheme_codes(
                #[trigger] uri@.take(n),
            ) by {
                let scheme = uri@.take(n);
                if scheme_codes(scheme) {
                    assert(uri@.subrange(0, n) =~= scheme);
                    if scheme.contains(':') {
                        let i = choose|i: int| 0 <= i < scheme.len() && scheme[i] == ':';
                        assert(i == 0 || 0 < i);
                    }
                    lemma_before_colon(uri@, scheme);
                    assert(is_scheme(scheme));
                }
            }
        },
    }
}

} // verus!
