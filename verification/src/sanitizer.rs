//! The sanitizer that the body of a message goes through.

use std::borrow::Cow;
use std::sync::{Arc, Mutex};

use vstd::prelude::*;

use crate::images;
use crate::images::{EncodedImages, InlineImages};
use crate::text;

verus! {

/// What the sanitizer lets through beyond its defaults.
pub struct Settings {
    /// The schemes that an uri may have.
    pub schemes: Vec<&'static str>,
    /// The elements that are kept.
    pub tags: Vec<&'static str>,
    /// The elements that are not dropped along with what is inside them.
    pub content_tags: Vec<&'static str>,
    /// The attributes that every element may have.
    pub attributes: Vec<&'static str>,
}

/// The texts of the settings.
pub struct SettingsView {
    pub schemes: Seq<Seq<char>>,
    pub tags: Seq<Seq<char>>,
    pub content_tags: Seq<Seq<char>>,
    pub attributes: Seq<Seq<char>>,
}

impl View for Settings {
    type V = SettingsView;

    open spec fn view(&self) -> SettingsView {
        SettingsView {
            schemes: text::literals(self.schemes@),
            tags: text::literals(self.tags@),
            content_tags: text::literals(self.content_tags@),
            attributes: text::literals(self.attributes@),
        }
    }
}

/// The settings do not contradict themselves: `rel` is set by the sanitizer
/// alone, and an element that is kept is not dropped along with what is inside.
/// By default `script` and `style` are dropped so.
pub open spec fn coherent(settings: SettingsView) -> bool {
    &&& !settings.attributes.contains("rel"@)
    &&& settings.tags.contains("script"@) ==> settings.content_tags.contains("script"@)
    &&& settings.tags.contains("style"@) ==> settings.content_tags.contains("style"@)
}

/// What happens to the value of each attribute that the sanitizer keeps, by the
/// names of the element and of the attribute: another value, or none.
pub open spec fn rewriting(shown: Map<Seq<char>, images::ImageView>) -> spec_fn(
    Seq<char>,
    Seq<char>,
    Seq<char>,
) -> Option<Seq<char>> {
    |element: Seq<char>, attribute: Seq<char>, value: Seq<char>|
        images::rewritten(shown, element, attribute, value)
}

/// What sanitizing gives: the text, and the values that the filter was asked
/// about on the way.
pub struct Sanitized {
    pub text: Seq<char>,
    pub asked: Seq<images::Asked>,
}

/// What `ammonia::Builder::clean` makes of a body.
pub uninterp spec fn sanitized(
    body: Seq<char>,
    settings: SettingsView,
    filter: spec_fn(Seq<char>, Seq<char>, Seq<char>) -> Option<Seq<char>>,
) -> Sanitized;

/// The most bytes that any part of the body takes once it is read: a NUL
/// becomes a character of three bytes, and a character reference at most one byte
/// more than it was written with.
pub open spec fn grown(body: Seq<char>) -> nat {
    vstd::utf8::encode_utf8(body).len() + 2 * text::count_char(body, '\0') + text::count_char(
        body,
        '&',
    )
}

/// An element that animates an attribute may stand in the body. The name of an
/// element is not case sensitive and is never written with references.
pub open spec fn animated(body: Seq<char>) -> bool {
    ||| text::contains_text(text::ascii_lowercase(body), "<animate"@)
    ||| text::contains_text(text::ascii_lowercase(body), "<set"@)
}

/// The most values that have the scheme `cid:` in the body: it is written there
/// in full, or with a reference.
pub open spec fn mentions(body: Seq<char>) -> nat {
    text::count_text(text::ascii_lowercase(body), "cid:"@) + text::count_char(body, '&')
}

/// Nothing grows longer than the sanitizer can count. It counts in `u32` and
/// doubles what it holds as it reads, so the body and the uri of an image may take
/// half of that. An animation lists values in one attribute, and each of them may
/// become the uri of an image there.
pub open spec fn fits(body: Seq<char>, shown: Map<Seq<char>, images::ImageView>) -> bool {
    &&& grown(body) <= 0x8000_0000
    &&& images::all_fit(shown)
    &&& animated(body) ==> images::all_fit_times(shown, mentions(body), grown(body))
}

/// `fits`.
pub(crate) fn is_fit(body: &str, inline_images: &InlineImages) -> (r: bool)
    ensures
        r == fits(body@, inline_images@),
{
    let chars = text::chars_of(body);
    let references: usize = text::count_of(&chars, '&');
    let bytes: usize = body.as_bytes().len();
    let grown: u128 = bytes as u128 + 2 * text::count_of(&chars, '\0') as u128
        + references as u128;
    if grown > 0x8000_0000 || !inline_images.all_fit() {
        return false;
    }
    let lower = text::lower_chars(&chars);
    if !text::contains(&lower, &text::chars_of("<animate")) && !text::contains(
        &lower,
        &text::chars_of("<set"),
    ) {
        return true;
    }
    let mentions: u128 = text::count_of_text(&lower, &text::chars_of("cid:")) as u128
        + references as u128;
    inline_images.all_fit_times(mentions, grown)
}

/// `ammonia::Builder::clean`, on a default builder with the settings added, the
/// `content_tags` taken out of those that are dropped with their content, and the
/// rewriting of the images as its attribute filter. The text, and the values that
/// the filter is asked about, are a function of the body, the settings and the
/// filter, called `sanitized`; the images that are encoded are those of rewriting
/// these values one after the other. It panics on settings that contradict
/// themselves, and where the body, or the value of an attribute that the filter
/// gave, grows too long to be counted. For an element of svg that animates an
/// attribute it asks the filter about each of the `values`, and joins what it is
/// given. What it drops and keeps of a body follows its own parsing of html and is
/// left unsaid.
#[verifier::external_body]
pub(crate) fn sanitize(
    body: &str,
    settings: &Settings,
    inline_images: &Arc<InlineImages>,
    encoded: EncodedImages,
) -> (r: (String, EncodedImages))
    requires
        coherent(settings@),
        fits(body@, inline_images@),
    ensures
        r.0@ == sanitized(body@, settings@, rewriting(inline_images@)).text,
        r.1@ == images::encoded_after(
            encoded@,
            inline_images@,
            sanitized(body@, settings@, rewriting(inline_images@)).asked,
        ),
{
    let inline_images = Arc::clone(inline_images);
    let encoded = Arc::new(Mutex::new(encoded));
    let shared = Arc::clone(&encoded);
    let text = ammonia::Builder::default()
        .add_url_schemes(&settings.schemes)
        .add_tags(&settings.tags)
        .rm_clean_content_tags(&settings.content_tags)
        .add_generic_attributes(&settings.attributes)
        .attribute_filter(move |element, attribute, value| {
            inline_images.rewrite(&mut shared.lock().unwrap(), element, attribute, value).map(Cow::Owned)
        })
        .clean(body)
        .to_string();
    let encoded = std::mem::take(&mut *encoded.lock().unwrap());
    (text, encoded)
}

/// What a character becomes in text that stands in html.
pub open spec fn escaped_char(c: char) -> Seq<char> {
    if c == '<' {
        "&lt;"@
    } else if c == '>' {
        "&gt;"@
    } else if c == '"' {
        "&quot;"@
    } else if c == '\'' {
        "&apos;"@
    } else if c == '`' {
        "&grave;"@
    } else if c == '/' {
        "&#47;"@
    } else if c == '&' {
        "&amp;"@
    } else if c == '=' {
        "&#61;"@
    } else if c == ' ' {
        "&#32;"@
    } else if c == '\t' {
        "&#9;"@
    } else if c == '\n' {
        "&#10;"@
    } else if c == '\u{c}' {
        "&#12;"@
    } else if c == '\r' {
        "&#13;"@
    } else if c == '\0' {
        "&#65533;"@
    } else {
        seq![c]
    }
}

/// Text as it stands in html, character by character.
pub open spec fn escaped(s: Seq<char>) -> Seq<char>
    decreases s.len(),
{
    if s.len() == 0 {
        Seq::empty()
    } else {
        escaped(s.drop_last()) + escaped_char(s.last())
    }
}

/// `ammonia::clean_text`: each character that has a meaning in html, or that
/// separates words, becomes a character reference; the others stay.
#[verifier::external_body]
pub(crate) fn escape_text(value: &str) -> (r: String)
    ensures
        r@ == escaped(value@),
{
    ammonia::clean_text(value)
}

/// A character that can neither open or close a tag or an attribute, nor part
/// one word from the next.
pub open spec fn inert(c: char) -> bool {
    &&& c != '<' && c != '>' && c != '"' && c != '\'' && c != '`' && c != '/' && c != '='
    &&& c != ' ' && c != '\t' && c != '\n' && c != '\u{c}' && c != '\r' && c != '\0'
}

proof fn lemma_escaped_char_is_inert(c: char)
    ensures
        forall|i: int| 0 <= i < escaped_char(c).len() ==> inert(#[trigger] escaped_char(c)[i]),
{
    reveal_strlit("&lt;");
    reveal_strlit("&gt;");
    reveal_strlit("&quot;");
    reveal_strlit("&apos;");
    reveal_strlit("&grave;");
    reveal_strlit("&#47;");
    reveal_strlit("&amp;");
    reveal_strlit("&#61;");
    reveal_strlit("&#32;");
    reveal_strlit("&#9;");
    reveal_strlit("&#10;");
    reveal_strlit("&#12;");
    reveal_strlit("&#13;");
    reveal_strlit("&#65533;");
}

/// Escaped text opens no tag and ends no attribute, whatever it came from.
pub proof fn law_escaped_text_is_inert(s: Seq<char>)
    ensures
        forall|i: int| 0 <= i < escaped(s).len() ==> inert(#[trigger] escaped(s)[i]),
    decreases s.len(),
{
    if s.len() > 0 {
        law_escaped_text_is_inert(s.drop_last());
        lemma_escaped_char_is_inert(s.last());
        let front = escaped(s.drop_last());
        assert forall|i: int| 0 <= i < escaped(s).len() implies inert(#[trigger] escaped(s)[i]) by {
            if i < front.len() {
                assert(escaped(s)[i] == front[i]);
            } else {
                assert(escaped(s)[i] == escaped_char(s.last())[i - front.len()]);
            }
        }
    }
}

/// Where the first semicolon stands.
pub open spec fn reference_end(s: Seq<char>) -> nat
    decreases s.len(),
{
    if s.len() == 0 || s[0] == ';' {
        0
    } else {
        1 + reference_end(s.skip(1))
    }
}

/// The code of the character that a reference stands for, by what is between its
/// ampersand and its semicolon: a name of html, or a number.
pub open spec fn reference_code(name: Seq<char>) -> int {
    if name == "lt"@ {
        60
    } else if name == "gt"@ {
        62
    } else if name == "quot"@ {
        34
    } else if name == "apos"@ {
        39
    } else if name == "grave"@ {
        96
    } else if name == "amp"@ {
        38
    } else if name.len() > 1 && name[0] == '#' {
        text::number_written(name.skip(1))
    } else {
        -1
    }
}

/// The codes of the characters that text in html is shown as: each reference is
/// resolved once.
pub open spec fn resolved(s: Seq<char>) -> Seq<int>
    decreases s.len(),
{
    if s.len() == 0 {
        Seq::empty()
    } else if s[0] != '&' || reference_end(s) >= s.len() {
        seq![s[0] as int] + resolved(s.skip(1))
    } else {
        seq![reference_code(s.subrange(1, reference_end(s) as int))] + resolved(
            s.skip(reference_end(s) as int + 1),
        )
    }
}

/// The codes of the characters of a text. A NUL is shown as the character that
/// stands for what cannot be shown.
pub open spec fn shown_codes(s: Seq<char>) -> Seq<int> {
    Seq::new(
        s.len(),
        |i: int|
            if s[i] as int == 0 {
                0xfffd
            } else {
                s[i] as int
            },
    )
}

proof fn lemma_reference_end(name: Seq<char>, rest: Seq<char>)
    requires
        forall|i: int| 0 <= i < name.len() ==> #[trigger] name[i] != ';',
    ensures
        reference_end(name + seq![';'] + rest) == name.len(),
    decreases name.len(),
{
    let s = name + seq![';'] + rest;
    if name.len() > 0 {
        let tail = name.skip(1);
        assert(s.skip(1) =~= tail + seq![';'] + rest);
        assert(s[0] == name[0]);
        lemma_reference_end(tail, rest);
    } else {
        assert(s[0] == ';');
    }
}

proof fn lemma_resolved_reference(written: Seq<char>, name: Seq<char>, rest: Seq<char>)
    requires
        written == seq!['&'] + name + seq![';'],
        forall|i: int| 0 <= i < name.len() ==> #[trigger] name[i] != ';',
    ensures
        resolved(written + rest) == seq![reference_code(name)] + resolved(rest),
{
    let s = written + rest;
    let opened = seq!['&'] + name;
    assert(s =~= opened + seq![';'] + rest);
    assert forall|i: int| 0 <= i < opened.len() implies #[trigger] opened[i] != ';' by {
        if i > 0 {
            assert(opened[i] == name[i - 1]);
        }
    }
    lemma_reference_end(opened, rest);
    assert(s.subrange(1, opened.len() as int) =~= name);
    assert(s.skip((opened.len() + 1) as int) =~= rest);
}

proof fn lemma_resolved_number(written: Seq<char>, a: char, b: char, rest: Seq<char>)
    requires
        written == seq!['&', '#', a, b, ';'],
        48 <= a as int <= 57,
        48 <= b as int <= 57,
    ensures
        resolved(written + rest) == seq![(a as int - 48) * 10 + (b as int - 48)] + resolved(rest),
{
    reveal_strlit("lt");
    reveal_strlit("gt");
    reveal_strlit("quot");
    reveal_strlit("apos");
    reveal_strlit("grave");
    reveal_strlit("amp");
    let name = seq!['#', a, b];
    assert(written =~= seq!['&'] + name + seq![';']);
    assert("amp"@[0] != '#');
    lemma_resolved_reference(written, name, rest);
    assert(name.skip(1) =~= seq![a, b]);
    assert(seq![a, b].drop_last() =~= seq![a]);
    assert(seq![a].drop_last() =~= Seq::<char>::empty());
    reveal_with_fuel(text::number_written, 3);
}

proof fn lemma_resolved_char(c: char, rest: Seq<char>)
    ensures
        resolved(escaped_char(c) + rest) == shown_codes(seq![c]) + resolved(rest),
{
    reveal_strlit("&lt;");
    reveal_strlit("&gt;");
    reveal_strlit("&quot;");
    reveal_strlit("&apos;");
    reveal_strlit("&grave;");
    reveal_strlit("&#47;");
    reveal_strlit("&amp;");
    reveal_strlit("&#61;");
    reveal_strlit("&#32;");
    reveal_strlit("&#9;");
    reveal_strlit("&#10;");
    reveal_strlit("&#12;");
    reveal_strlit("&#13;");
    reveal_strlit("&#65533;");
    reveal_strlit("lt");
    reveal_strlit("gt");
    reveal_strlit("quot");
    reveal_strlit("apos");
    reveal_strlit("grave");
    reveal_strlit("amp");
    let written = escaped_char(c);
    assert(shown_codes(seq![c]) =~= seq![if c as int == 0 {
        0xfffdint
    } else {
        c as int
    }]);
    assert("lt"@[0] != "gt"@[0] && "quot"@[0] != "apos"@[0]);
    if c == '<' {
        assert(written =~= seq!['&'] + "lt"@ + seq![';']);
        lemma_resolved_reference(written, "lt"@, rest);
    } else if c == '>' {
        assert(written =~= seq!['&'] + "gt"@ + seq![';']);
        lemma_resolved_reference(written, "gt"@, rest);
    } else if c == '"' {
        assert(written =~= seq!['&'] + "quot"@ + seq![';']);
        lemma_resolved_reference(written, "quot"@, rest);
    } else if c == '\'' {
        assert(written =~= seq!['&'] + "apos"@ + seq![';']);
        lemma_resolved_reference(written, "apos"@, rest);
    } else if c == '`' {
        assert(written =~= seq!['&'] + "grave"@ + seq![';']);
        lemma_resolved_reference(written, "grave"@, rest);
    } else if c == '&' {
        assert(written =~= seq!['&'] + "amp"@ + seq![';']);
        lemma_resolved_reference(written, "amp"@, rest);
    } else if c == '/' {
        assert(written =~= seq!['&', '#', '4', '7', ';']);
        lemma_resolved_number(written, '4', '7', rest);
    } else if c == '=' {
        assert(written =~= seq!['&', '#', '6', '1', ';']);
        lemma_resolved_number(written, '6', '1', rest);
    } else if c == ' ' {
        assert(written =~= seq!['&', '#', '3', '2', ';']);
        lemma_resolved_number(written, '3', '2', rest);
    } else if c == '\n' {
        assert(written =~= seq!['&', '#', '1', '0', ';']);
        lemma_resolved_number(written, '1', '0', rest);
    } else if c == '\u{c}' {
        assert(written =~= seq!['&', '#', '1', '2', ';']);
        lemma_resolved_number(written, '1', '2', rest);
    } else if c == '\r' {
        assert(written =~= seq!['&', '#', '1', '3', ';']);
        lemma_resolved_number(written, '1', '3', rest);
    } else if c == '\t' {
        let name = seq!['#', '9'];
        assert("lt"@[0] != '#' && "gt"@[0] != '#');
        assert(written =~= seq!['&'] + name + seq![';']);
        lemma_resolved_reference(written, name, rest);
        assert(name.skip(1) =~= seq!['9']);
        assert(seq!['9'].drop_last() =~= Seq::<char>::empty());
        reveal_with_fuel(text::number_written, 2);
    } else if c == '\0' {
        let name = seq!['#', '6', '5', '5', '3', '3'];
        assert(written =~= seq!['&'] + name + seq![';']);
        lemma_resolved_reference(written, name, rest);
        let n = name.skip(1);
        assert(n =~= seq!['6', '5', '5', '3', '3']);
        assert(n.drop_last() =~= seq!['6', '5', '5', '3']);
        assert(n.drop_last().drop_last() =~= seq!['6', '5', '5']);
        assert(n.drop_last().drop_last().drop_last() =~= seq!['6', '5']);
        assert(n.drop_last().drop_last().drop_last().drop_last() =~= seq!['6']);
        assert(n.drop_last().drop_last().drop_last().drop_last().drop_last() =~= Seq::<
            char,
        >::empty());
        reveal_with_fuel(text::number_written, 6);
    } else {
        assert((written + rest).skip(1) =~= rest);
        assert((written + rest)[0] == c);
    }
}

proof fn lemma_resolved_escaped(s: Seq<char>, rest: Seq<char>)
    ensures
        resolved(escaped(s) + rest) == shown_codes(s) + resolved(rest),
    decreases s.len(),
{
    if s.len() > 0 {
        let front = s.drop_last();
        let last = s.last();
        assert(escaped(s) + rest =~= escaped(front) + (escaped_char(last) + rest));
        lemma_resolved_escaped(front, escaped_char(last) + rest);
        lemma_resolved_char(last, rest);
        assert(shown_codes(s) =~= shown_codes(front) + shown_codes(seq![last]));
        assert(shown_codes(front) + (shown_codes(seq![last]) + resolved(rest)) =~= shown_codes(s)
            + resolved(rest));
    } else {
        assert(escaped(s) + rest =~= rest);
        assert(shown_codes(s) + resolved(rest) =~= resolved(rest));
    }
}

/// Escaped text is shown as the text that it came from: resolving its references,
/// once, gives every character back. Text that holds nothing to escape stays as it
/// is.
pub proof fn law_escaped_text_is_shown_as_it_was(s: Seq<char>)
    ensures
        resolved(escaped(s)) == shown_codes(s),
        (forall|i: int| 0 <= i < s.len() ==> inert(#[trigger] s[i]) && s[i] != '&') ==> escaped(s)
            == s,
    decreases s.len(),
{
    lemma_resolved_escaped(s, Seq::empty());
    assert(escaped(s) + Seq::<char>::empty() =~= escaped(s));
    assert(shown_codes(s) + resolved(Seq::<char>::empty()) =~= shown_codes(s));
    if s.len() > 0 && forall|i: int|
        0 <= i < s.len() ==> inert(#[trigger] s[i]) && s[i] != '&' {
        let front = s.drop_last();
        assert forall|i: int| 0 <= i < front.len() implies inert(#[trigger] front[i]) && front[i]
            != '&' by {
            assert(front[i] == s[i]);
        }
        law_escaped_text_is_shown_as_it_was(front);
        assert(inert(s[s.len() - 1]));
        assert(escaped(s) =~= s);
    }
}

} // verus!
