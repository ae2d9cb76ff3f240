//! Inline images: the attachments that a `cid:` source of a message points at,
//! and the `data:` uris that such sources are rewritten to.

use std::sync::Arc;

use vstd::hash_map::StringHashMap;
use vstd::prelude::*;

use crate::codec;
use crate::message::attachment;
use crate::message::attachment::Attachment;
use crate::text;

verus! {

/// An attachment that an image of the message may show.
struct InlineImage {
    mime_type: String,
    body: Vec<u8>,
}

/// What an inline image holds.
pub struct ImageView {
    pub mime_type: Seq<char>,
    pub body: Seq<u8>,
}

impl View for InlineImage {
    type V = ImageView;

    closed spec fn view(&self) -> ImageView {
        ImageView { mime_type: self.mime_type@, body: self.body@ }
    }
}

/// The uri that holds the whole image.
pub open spec fn data_uri(image: ImageView) -> Seq<char> {
    "data:"@ + image.mime_type + ";base64,"@ + codec::base64(image.body)
}

/// The bytes that the uri of the image takes. `data:` and `;base64,` are 13 of
/// them.
pub open spec fn uri_len(image: ImageView) -> nat {
    13 + vstd::utf8::encode_utf8(image.mime_type).len() + codec::base64(image.body).len()
}

/// The uri of the image is no longer than an attribute may be: half of what a
/// `u32` counts, in bytes.
pub open spec fn fits(image: ImageView) -> bool {
    &&& image.body.len() <= codec::encodable_len()
    &&& uri_len(image) <= 0x8000_0000
}

/// Every image fits.
pub open spec fn all_fit(images: Map<Seq<char>, ImageView>) -> bool {
    forall|id: Seq<char>| #[trigger] images.contains_key(id) ==> fits(images[id])
}

/// The uri of any of the images can stand `times` times in an attribute, beside
/// `rest` bytes of something else: it is then no longer than a `u32` counts.
pub open spec fn all_fit_times(
    images: Map<Seq<char>, ImageView>,
    times: nat,
    rest: nat,
) -> bool {
    forall|id: Seq<char>| #[trigger]
        images.contains_key(id) ==> times * uri_len(images[id]) + rest <= u32::MAX
}

/// The part after `cid:`, if that is the scheme of `value`. Schemes are not
/// case sensitive, so `CID:` counts too.
pub open spec fn content_id(value: Seq<char>) -> Option<Seq<char>> {
    if value.len() >= 4 && text::ascii_lowercase(value.take(4)) == "cid:"@ {
        Some(value.skip(4))
    } else {
        None
    }
}

/// What becomes of the value of an attribute: anything but a `cid:` stays, and a
/// `cid:` is only good as the source of an image, where it becomes the uri of
/// the attachment that it points at.
pub open spec fn rewritten(
    images: Map<Seq<char>, ImageView>,
    element: Seq<char>,
    attribute: Seq<char>,
    value: Seq<char>,
) -> Option<Seq<char>> {
    match content_id(value) {
        None => Some(value),
        Some(id) => if shown(images, element, attribute, value) {
            Some(data_uri(images[text::lowercase(id)]))
        } else {
            None
        },
    }
}

/// The value is the source of an image, and points at an attachment that is
/// there.
pub open spec fn shown(
    images: Map<Seq<char>, ImageView>,
    element: Seq<char>,
    attribute: Seq<char>,
    value: Seq<char>,
) -> bool {
    &&& element == "img"@
    &&& attribute == "src"@
    &&& content_id(value) is Some
    &&& images.contains_key(text::lowercase(content_id(value)->0))
}

/// The value of an attribute, with the names of its element and its own.
pub struct Asked {
    pub element: Seq<char>,
    pub attribute: Seq<char>,
    pub value: Seq<char>,
}

/// The images that are encoded once the value of an attribute is rewritten, by
/// id: one more, if it shows an image that was not encoded yet.
pub open spec fn encoded_with(
    encoded: Map<Seq<char>, ImageView>,
    images: Map<Seq<char>, ImageView>,
    asked: Asked,
) -> Map<Seq<char>, ImageView> {
    if shown(images, asked.element, asked.attribute, asked.value) {
        let id = text::lowercase(content_id(asked.value)->0);
        encoded.insert(id, images[id])
    } else {
        encoded
    }
}

/// The images that are encoded once the values are rewritten one after the other.
pub open spec fn encoded_after(
    encoded: Map<Seq<char>, ImageView>,
    images: Map<Seq<char>, ImageView>,
    asked: Seq<Asked>,
) -> Map<Seq<char>, ImageView>
    decreases asked.len(),
{
    if asked.len() == 0 {
        encoded
    } else {
        encoded_with(encoded_after(encoded, images, asked.drop_last()), images, asked.last())
    }
}

/// The characters of a content id that an uri takes as they are.
pub open spec fn url_plain(c: char) -> bool {
    ||| text::ascii_letter(c)
    ||| text::ascii_digit(c)
    ||| c == '-' || c == '.' || c == '_' || c == '~'
    ||| c == '@'
    ||| c >= '\u{80}'
}

/// The character of a hexadecimal digit, in upper case.
pub open spec fn upper_hex(d: int) -> char {
    if d < 10 {
        (48 + d) as u8 as char
    } else {
        (55 + d) as u8 as char
    }
}

/// A content id as it stands in an uri: the characters that have a meaning there
/// become `%` and two hexadecimal digits. A NUL ends the id.
pub open spec fn url_encoded(id: Seq<char>) -> Seq<char>
    decreases id.len(),
{
    if id.len() == 0 || id[0] == '\0' {
        Seq::empty()
    } else if url_plain(id[0]) {
        seq![id[0]] + url_encoded(id.drop_first())
    } else {
        seq!['%', upper_hex(id[0] as int / 16), upper_hex(id[0] as int % 16)] + url_encoded(
            id.drop_first(),
        )
    }
}

/// The id under which an attachment with the content id `id` is kept, if `body`
/// mentions it: the id itself, or else the id as it stands in an uri. Both are in
/// lower case.
pub open spec fn mentioned_id(body: Seq<char>, id: Seq<char>) -> Option<Seq<char>> {
    let lower = text::lowercase(id);
    if id.len() == 0 {
        None
    } else if text::contains_text(body, "cid:"@ + lower) {
        Some(lower)
    } else if text::contains_text(body, "cid:"@ + text::lowercase(url_encoded(lower))) {
        Some(text::lowercase(url_encoded(lower)))
    } else {
        None
    }
}

/// The id and the image that an attachment gives a message with the lower case
/// body `body`.
pub open spec fn inlined_as(
    body: Seq<char>,
    a: attachment::AttachmentView,
) -> Option<(Seq<char>, ImageView)> {
    match (mentioned_id(body, a.content_id), a.mime_type) {
        (Some(id), Some(mime_type)) => Some((id, ImageView { mime_type, body: a.body })),
        _ => None,
    }
}

/// The images that the attachments give a message with the lower case body
/// `body`. Of two with the same id the later one counts.
pub open spec fn inlined(
    body: Seq<char>,
    attachments: Seq<attachment::AttachmentView>,
) -> Map<Seq<char>, ImageView>
    decreases attachments.len(),
{
    if attachments.len() == 0 {
        Map::empty()
    } else {
        let earlier = inlined(body, attachments.drop_last());
        match inlined_as(body, attachments.last()) {
            Some((id, image)) => earlier.insert(id, image),
            None => earlier,
        }
    }
}

/// The part after `cid:`, if that is the scheme of `value`. Schemes are not
/// case sensitive, so `CID:` counts too.
pub fn content_id_of(value: &str) -> (r: Option<&str>)
    ensures
        match r {
            Some(id) => content_id(value@) == Some(id@),
            None => content_id(value@) is None,
        },
{
    let len: usize = value.unicode_len();
    if len < 4 {
        return None;
    }
    let scheme = value.substring_char(0, 4);
    proof {
        reveal_strlit("cid:");
        assert(text::ascii_lowercase("cid:"@) =~= "cid:"@);
        assert(scheme@ =~= value@.take(4));
        assert(value@.subrange(4, len as int) =~= value@.skip(4));
    }
    if text::same_ignoring_ascii_case(scheme, "cid:") {
        Some(value.substring_char(4, len))
    } else {
        None
    }
}

/// Percent encodes a content id, but for an `@`.
pub fn url_encode(content_id: &str) -> (r: String)
    ensures
        r@ == url_encoded(content_id@),
{
    let chars = text::chars_of(content_id);
    let mut out = String::new();
    let mut i: usize = 0;
    assert(chars@.skip(0) =~= chars@);
    while i < chars.len() && chars[i] != '\0'
        invariant
            chars@ == content_id@,
            i <= chars@.len(),
            url_encoded(content_id@) == out@ + url_encoded(chars@.skip(i as int)),
        decreases chars@.len() - i,
    {
        let c = chars[i];
        let ghost before = out@;
        let plain = ('A' <= c && c <= 'Z') || ('a' <= c && c <= 'z') || ('0' <= c && c <= '9') || c
            == '-' || c == '.' || c == '_' || c == '~' || c == '@' || c >= '\u{80}';
        if plain {
            out.push(c);
        } else {
            push_percent_encoded(&mut out, c);
        }
        proof {
            let rest = chars@.skip(i as int);
            assert(rest[0] == c);
            assert(rest.drop_first() =~= chars@.skip(i + 1));
            assert(plain == url_plain(c));
            assert(out@ + url_encoded(chars@.skip(i + 1)) =~= before + url_encoded(
                chars@.skip(i as int),
            ));
        }
        i = i + 1;
    }
    assert(out@ =~= url_encoded(content_id@));
    out
}

fn push_percent_encoded(out: &mut String, c: char)
    requires
        c < '\u{80}',
    ensures
        final(out)@ == old(out)@ + seq![
            '%',
            upper_hex(c as int / 16),
            upper_hex(c as int % 16),
        ],
{
    let code: u8 = c as u8;
    out.push('%');
    out.push(hex_char(code / 16));
    out.push(hex_char(code % 16));
}

fn hex_char(d: u8) -> (r: char)
    requires
        d < 16,
    ensures
        r == upper_hex(d as int),
{
    if d < 10 {
        (48 + d) as char
    } else {
        (55 + d) as char
    }
}

impl InlineImage {
    fn same(&self, other: &InlineImage) -> (r: bool)
        ensures
            r == (self@ == other@),
    {
        if self.body.len() != other.body.len() || !text::same_text(
            self.mime_type.as_str(),
            other.mime_type.as_str(),
        ) {
            return false;
        }
        for i in 0..self.body.len()
            invariant
                self.body@.len() == other.body@.len(),
                forall|j: int| 0 <= j < i ==> self.body@[j] == other.body@[j],
        {
            if self.body[i] != other.body[i] {
                return false;
            }
        }
        assert(self.body@ =~= other.body@);
        true
    }

    fn uri_len(&self) -> (r: u128)
        ensures
            r == uri_len(self@),
            r <= 0x4_0000_0000_0000_0000,
    {
        proof {
            codec::lemma_base64_len(self.body@);
        }
        let len: usize = self.body.len();
        let encoded: u128 = (len as u128 + 2) / 3 * 4;
        let mime_type: usize = self.mime_type.as_str().as_bytes().len();
        13 + mime_type as u128 + encoded
    }

    fn fits(&self) -> (r: bool)
        ensures
            r == fits(self@),
    {
        self.body.len() <= usize::MAX / 8 && self.uri_len() <= 0x8000_0000
    }

    fn fits_times(&self, times: u128, rest: u128) -> (r: bool)
        requires
            times <= 0x2_0000_0000_0000_0000,
            rest <= u32::MAX,
        ensures
            r == (times * uri_len(self@) + rest <= u32::MAX),
    {
        let len: u128 = self.uri_len();
        if len > 0xffff_ffff {
            assert(times == 0 || times * len >= len) by (nonlinear_arith);
            assert(0 * len == 0) by (nonlinear_arith);
            return times == 0;
        }
        assert(times * len <= 0x2_0000_0000_0000_0000 * 0xffff_ffff) by (nonlinear_arith)
            requires
                times <= 0x2_0000_0000_0000_0000,
                len <= 0xffff_ffff,
        ;
        times * len + rest <= 0xffff_ffff
    }
}

/// An image and the uri that was made of it.
struct EncodedImage {
    image: Arc<InlineImage>,
    uri: String,
}

impl EncodedImage {
    #[verifier::type_invariant]
    spec fn well_formed(self) -> bool {
        self.uri@ == data_uri(self.image@)
    }

    fn new(image: &Arc<InlineImage>) -> (r: Self)
        requires
            fits(image@),
        ensures
            r.image@ == image@,
    {
        let mut uri = String::new();
        uri.append("data:");
        uri.append(image.mime_type.as_str());
        uri.append(";base64,");
        uri.append(codec::to_base64(&image.body).as_str());
        assert(uri@ =~= data_uri(image@));
        EncodedImage { image: Arc::clone(image), uri }
    }
}

/// The images that were encoded so far, by content id.
pub struct EncodedImages {
    entries: StringHashMap<EncodedImage>,
}

impl View for EncodedImages {
    type V = Map<Seq<char>, ImageView>;

    closed spec fn view(&self) -> Map<Seq<char>, ImageView> {
        self.entries@.map_values(|entry: EncodedImage| entry.image@)
    }
}

impl Default for EncodedImages {
    fn default() -> (r: Self)
        ensures
            r@ == Map::<Seq<char>, ImageView>::empty(),
    {
        Self::new()
    }
}

impl EncodedImages {
    /// No image yet.
    pub fn new() -> (r: Self)
        ensures
            r@ == Map::<Seq<char>, ImageView>::empty(),
    {
        let r = EncodedImages { entries: StringHashMap::new() };
        assert(r@ =~= Map::<Seq<char>, ImageView>::empty());
        r
    }

    /// The number of images.
    pub fn len(&self) -> (r: usize)
        ensures
            r == self@.len(),
    {
        assert(self@.dom() =~= self.entries@.dom());
        self.entries.len()
    }

    /// The uri of an image, made and kept if there is none of this image under
    /// its id.
    fn uri(&mut self, id: String, image: &Arc<InlineImage>) -> (r: String)
        requires
            fits(image@),
        ensures
            final(self)@ == old(self)@.insert(id@, image@),
            r@ == data_uri(image@),
    {
        match self.entries.get(id.as_str()) {
            Some(entry) => {
                if entry.image.same(image) {
                    proof {
                        use_type_invariant(entry);
                        assert(self@.insert(id@, image@) =~= self@);
                    }
                    return entry.uri.clone();
                }
            },
            None => {},
        }
        let entry = EncodedImage::new(image);
        proof {
            use_type_invariant(&entry);
        }
        let uri = entry.uri.clone();
        let ghost before = self@;
        self.entries.insert(id, entry);
        assert(self@ =~= before.insert(id@, image@));
        uri
    }
}

/// `ids` are the ids of the images.
spec fn lists(ids: Seq<String>, images: Map<Seq<char>, Arc<InlineImage>>) -> bool {
    &&& forall|i: int| 0 <= i < ids.len() ==> images.contains_key(#[trigger] ids[i]@)
    &&& forall|id: Seq<char>| #[trigger]
        images.contains_key(id) ==> exists|i: int| 0 <= i < ids.len() && #[trigger] ids[i]@ == id
}

proof fn lemma_lists_push(
    ids: Seq<String>,
    images: Map<Seq<char>, Arc<InlineImage>>,
    id: String,
    image: Arc<InlineImage>,
)
    requires
        lists(ids, images),
    ensures
        lists(ids.push(id), images.insert(id@, image)),
{
    let more = ids.push(id);
    assert forall|key: Seq<char>| #[trigger] images.insert(id@, image).contains_key(key) implies (
    exists|i: int| 0 <= i < more.len() && #[trigger] more[i]@ == key) by {
        if key == id@ {
            assert(more[ids.len() as int]@ == key);
        } else {
            assert(images.contains_key(key));
            let i = choose|i: int| 0 <= i < ids.len() && #[trigger] ids[i]@ == key;
            assert(more[i]@ == key);
        }
    }
    assert forall|i: int| 0 <= i < more.len() implies images.insert(id@, image).contains_key(
        #[trigger] more[i]@,
    ) by {
        if i < ids.len() {
            assert(more[i] == ids[i]);
        }
    }
}

/// The attachments that a `cid:` source can point at, keyed by content id in
/// lower case.
pub struct InlineImages {
    images: StringHashMap<Arc<InlineImage>>,
    ids: Vec<String>,
}

impl View for InlineImages {
    type V = Map<Seq<char>, ImageView>;

    closed spec fn view(&self) -> Map<Seq<char>, ImageView> {
        self.images@.map_values(|image: Arc<InlineImage>| image@)
    }
}

impl InlineImages {
    #[verifier::type_invariant]
    closed spec fn well_formed(self) -> bool {
        lists(self.ids@, self.images@)
    }

    /// No images.
    pub fn none() -> (r: Self)
        ensures
            r@ == Map::<Seq<char>, ImageView>::empty(),
    {
        let images: StringHashMap<Arc<InlineImage>> = StringHashMap::new();
        let ghost view = images@.map_values(|image: Arc<InlineImage>| image@);
        assert(view =~= Map::<Seq<char>, ImageView>::empty());
        Self::over(images, Vec::new())
    }

    fn over(images: StringHashMap<Arc<InlineImage>>, ids: Vec<String>) -> (r: Self)
        requires
            lists(ids@, images@),
        ensures
            r@ == images@.map_values(|image: Arc<InlineImage>| image@),
    {
        let ghost view = images@.map_values(|image: Arc<InlineImage>| image@);
        assert(view.dom() =~= images@.dom());
        InlineImages { images, ids }
    }

    /// The images that the attachments give a message. The body is scanned first
    /// so that an attachment nothing mentions is not even copied here. The scan
    /// is a prefilter and matches a `cid:` anywhere, which is coarser than the
    /// rewriting.
    pub fn of(body: &str, attachments: &[Attachment]) -> (r: Self)
        ensures
            r@ == inlined(
                text::lowercase(body@),
                attachment::attachment_views(attachments@),
            ),
    {
        let lower = text::to_lowercase(body);
        let lower_chars = text::chars_of(lower.as_str());
        let mut images: StringHashMap<Arc<InlineImage>> = StringHashMap::new();
        let mut ids: Vec<String> = Vec::new();
        let ghost all = attachment::attachment_views(attachments@);
        assert(images@.map_values(|image: Arc<InlineImage>| image@) =~= inlined(lower@, all.take(0)));
        for i in 0..attachments.len()
            invariant
                all == attachment::attachment_views(attachments@),
                lower_chars@ == lower@,
                lists(ids@, images@),
                images@.map_values(|image: Arc<InlineImage>| image@) == inlined(
                    lower@,
                    all.take(i as int),
                ),
        {
            let a = &attachments[i];
            let ghost before = images@;
            proof {
                assert(all.take(i + 1).drop_last() =~= all.take(i as int));
                assert(all.take(i + 1).last() == a@);
            }
            match mentioned(&lower_chars, a.content_id.as_str()) {
                Some(id) => match &a.mime_type {
                    Some(mime_type) => {
                        let body = a.body.clone();
                        assert(body@ =~= a.body@);
                        let image = Arc::new(InlineImage { mime_type: mime_type.clone(), body });
                        let ghost listed = ids@;
                        ids.push(id.clone());
                        images.insert(id, image);
                        proof {
                            lemma_lists_push(listed, before, ids@.last(), image);
                            assert(ids@ =~= listed.push(ids@.last()));
                        }
                        assert(images@.map_values(|image: Arc<InlineImage>| image@)
                            =~= before.map_values(|image: Arc<InlineImage>| image@).insert(
                            id@,
                            image@,
                        ));
                    },
                    None => {},
                },
                None => {},
            }
        }
        assert(all.take(attachments@.len() as int) =~= all);
        Self::over(images, ids)
    }

    /// Whether every image fits.
    pub fn all_fit(&self) -> (r: bool)
        ensures
            r == all_fit(self@),
    {
        proof {
            use_type_invariant(self);
        }
        for i in 0..self.ids.len()
            invariant
                lists(self.ids@, self.images@),
                forall|j: int| 0 <= j < i ==> fits(self@[#[trigger] self.ids@[j]@]),
        {
            assert(self.images@.contains_key(self.ids@[i as int]@));
            match self.images.get(self.ids[i].as_str()) {
                Some(image) => {
                    if !image.fits() {
                        assert(self@.contains_key(self.ids@[i as int]@));
                        return false;
                    }
                },
                None => {},
            }
        }
        assert forall|id: Seq<char>| #[trigger] self@.contains_key(id) implies fits(self@[id]) by {
            assert(self.images@.contains_key(id));
            let j = choose|j: int| 0 <= j < self.ids@.len() && #[trigger] self.ids@[j]@ == id;
            assert(fits(self@[self.ids@[j]@]));
        }
        true
    }

    /// Whether the uri of any of the images can stand `times` times in an
    /// attribute, beside `rest` bytes of something else.
    pub(crate) fn all_fit_times(&self, times: u128, rest: u128) -> (r: bool)
        requires
            times <= 0x2_0000_0000_0000_0000,
            rest <= u32::MAX,
        ensures
            r == all_fit_times(self@, times as nat, rest as nat),
    {
        proof {
            use_type_invariant(self);
        }
        for i in 0..self.ids.len()
            invariant
                lists(self.ids@, self.images@),
                times <= 0x2_0000_0000_0000_0000,
                rest <= u32::MAX,
                forall|j: int|
                    0 <= j < i ==> times * uri_len(self@[#[trigger] self.ids@[j]@]) + rest
                        <= u32::MAX,
        {
            assert(self.images@.contains_key(self.ids@[i as int]@));
            match self.images.get(self.ids[i].as_str()) {
                Some(image) => {
                    if !image.fits_times(times, rest) {
                        assert(self@.contains_key(self.ids@[i as int]@));
                        return false;
                    }
                },
                None => {},
            }
        }
        assert forall|id: Seq<char>| #[trigger] self@.contains_key(id) implies times * uri_len(
            self@[id],
        ) + rest <= u32::MAX by {
            assert(self.images@.contains_key(id));
            let j = choose|j: int| 0 <= j < self.ids@.len() && #[trigger] self.ids@[j]@ == id;
            assert(times * uri_len(self@[self.ids@[j]@]) + rest <= u32::MAX);
        }
        true
    }

    /// Rewrites the value of an attribute. An image is encoded here rather than up
    /// front, so that only what an image uses is paid for, and only once: what was
    /// encoded before is used again.
    pub fn rewrite(
        &self,
        encoded: &mut EncodedImages,
        element: &str,
        attribute: &str,
        value: &str,
    ) -> (r: Option<String>)
        requires
            all_fit(self@),
        ensures
            text::optional_text(r) == rewritten(self@, element@, attribute@, value@),
            final(encoded)@ == encoded_with(
                old(encoded)@,
                self@,
                Asked { element: element@, attribute: attribute@, value: value@ },
            ),
    {
        match content_id_of(value) {
            None => Some(value.to_owned()),
            Some(id) => {
                // cid: is allowed through the scheme check only so that it can be
                // turned into the attachment it points at. Anywhere else it means
                // nothing.
                if !text::same_text(element, "img") || !text::same_text(attribute, "src") {
                    return None;
                }
                let id = text::to_lowercase(id);
                match self.images.get(id.as_str()) {
                    None => None,
                    Some(image) => {
                        assert(self@.contains_key(id@) && self@[id@] == image@);
                        Some(encoded.uri(id, image))
                    },
                }
            },
        }
    }
}

/// `mentioned_id`.
fn mentioned(body: &Vec<char>, id: &str) -> (r: Option<String>)
    ensures
        text::optional_text(r) == mentioned_id(body@, id@),
{
    if id.is_empty() {
        return None;
    }
    let lower = text::to_lowercase(id);
    let mut raw = String::new();
    raw.append("cid:");
    raw.append(lower.as_str());
    assert(raw@ =~= "cid:"@ + lower@);
    if text::contains(body, &text::chars_of(raw.as_str())) {
        return Some(lower);
    }
    let encoded = text::to_lowercase(url_encode(lower.as_str()).as_str());
    let mut raw = String::new();
    raw.append("cid:");
    raw.append(encoded.as_str());
    assert(raw@ =~= "cid:"@ + encoded@);
    if text::contains(body, &text::chars_of(raw.as_str())) {
        return Some(encoded);
    }
    None
}

/// No `cid:` survives: what an attribute is rewritten to is never one. Any other
/// value stays as it is.
pub proof fn law_no_cid_survives(
    images: Map<Seq<char>, ImageView>,
    element: Seq<char>,
    attribute: Seq<char>,
    value: Seq<char>,
)
    ensures
        rewritten(images, element, attribute, value) matches Some(new) ==> content_id(new) is None,
        content_id(value) is None ==> rewritten(images, element, attribute, value) == Some(value),
{
    reveal_strlit("cid:");
    reveal_strlit("data:");
    if content_id(value) is Some && shown(images, element, attribute, value) {
        let uri = data_uri(images[text::lowercase(content_id(value)->0)]);
        assert(uri[0] == 'd');
        assert(text::ascii_lowercase(uri.take(4))[0] == 'd');
    }
}

/// A content id is looked up without regard to case: two sources whose ids have
/// the same lower case are rewritten to the same uri.
pub proof fn law_cid_ignores_case(
    images: Map<Seq<char>, ImageView>,
    element: Seq<char>,
    attribute: Seq<char>,
    a: Seq<char>,
    b: Seq<char>,
)
    requires
        content_id(a) is Some,
        content_id(b) is Some,
        text::lowercase(content_id(a)->0) == text::lowercase(content_id(b)->0),
    ensures
        rewritten(images, element, attribute, a) == rewritten(images, element, attribute, b),
{
}

/// The ids of the images that the values show.
pub open spec fn shown_ids(images: Map<Seq<char>, ImageView>, asked: Seq<Asked>) -> Set<Seq<char>> {
    Set::new(
        |id: Seq<char>|
            exists|i: int|
                0 <= i < asked.len() && #[trigger] shows(images, asked[i], id),
    )
}

/// The value shows the image under the id.
pub open spec fn shows(images: Map<Seq<char>, ImageView>, asked: Asked, id: Seq<char>) -> bool {
    shown(images, asked.element, asked.attribute, asked.value) && text::lowercase(
        content_id(asked.value)->0,
    ) == id
}

/// What is encoded is what is shown: after the values are rewritten, the images
/// that are encoded are those that were before, and those that a value shows, each
/// under its id and with its present content. However often an image is shown, it
/// is there once.
pub proof fn law_what_is_shown_is_encoded(
    encoded: Map<Seq<char>, ImageView>,
    images: Map<Seq<char>, ImageView>,
    asked: Seq<Asked>,
)
    ensures
        encoded_after(encoded, images, asked).dom() == encoded.dom().union(
            shown_ids(images, asked),
        ),
        forall|id: Seq<char>| #[trigger]
            encoded_after(encoded, images, asked).contains_key(id) ==> encoded_after(
                encoded,
                images,
                asked,
            )[id] == (if shown_ids(images, asked).contains(id) {
                images[id]
            } else {
                encoded[id]
            }),
    decreases asked.len(),
{
    if asked.len() == 0 {
        assert(encoded.dom().union(shown_ids(images, asked)) =~= encoded.dom());
    } else {
        let front = asked.drop_last();
        law_what_is_shown_is_encoded(encoded, images, front);
        assert forall|id: Seq<char>| #[trigger]
            shown_ids(images, asked).contains(id) == (shown_ids(images, front).contains(id)
                || shows(images, asked.last(), id)) by {
            if shown_ids(images, front).contains(id) {
                let i = choose|i: int|
                    0 <= i < front.len() && #[trigger] shows(images, front[i], id);
                assert(shows(images, asked[i], id));
            }
            if shows(images, asked.last(), id) {
                assert(shows(images, asked[asked.len() - 1], id));
            }
            if shown_ids(images, asked).contains(id) {
                let i = choose|i: int|
                    0 <= i < asked.len() && #[trigger] shows(images, asked[i], id);
                if i < front.len() {
                    assert(shows(images, front[i], id));
                }
            }
        }
        assert(encoded_after(encoded, images, asked).dom() =~= encoded.dom().union(
            shown_ids(images, asked),
        ));
    }
}

/// Rewriting the same values again encodes nothing more.
pub proof fn law_encoded_once(
    encoded: Map<Seq<char>, ImageView>,
    images: Map<Seq<char>, ImageView>,
    asked: Seq<Asked>,
)
    ensures
        ({
            let once = encoded_after(encoded, images, asked);
            encoded_after(once, images, asked) == once
        }),
{
    let once = encoded_after(encoded, images, asked);
    law_what_is_shown_is_encoded(encoded, images, asked);
    law_what_is_shown_is_encoded(once, images, asked);
    assert(encoded_after(once, images, asked) =~= once);
}

/// Only what an image shows is encoded: where no value is the source of an image
/// that points at an attachment, nothing is.
pub proof fn law_only_shown_images_are_encoded(
    encoded: Map<Seq<char>, ImageView>,
    images: Map<Seq<char>, ImageView>,
    asked: Seq<Asked>,
)
    requires
        forall|i: int|
            0 <= i < asked.len() ==> (#[trigger] asked[i]).element != "img"@ || asked[i].attribute
                != "src"@ || content_id(asked[i].value) is None || !images.contains_key(
                text::lowercase(content_id(asked[i].value)->0),
            ),
    ensures
        encoded_after(encoded, images, asked) == encoded,
    decreases asked.len(),
{
    if asked.len() > 0 {
        let front = asked.drop_last();
        assert forall|i: int| 0 <= i < front.len() implies (#[trigger] front[i]).element != "img"@
            || front[i].attribute != "src"@ || content_id(front[i].value) is None
            || !images.contains_key(text::lowercase(content_id(front[i].value)->0)) by {
            assert(front[i] == asked[i]);
        }
        law_only_shown_images_are_encoded(encoded, images, front);
        assert(asked[asked.len() - 1] == asked.last());
    }
}

/// An attachment that the body does not mention is not kept, and what is kept is
/// the content of an attachment.
pub proof fn law_only_mentioned_images_are_kept(
    body: Seq<char>,
    attachments: Seq<attachment::AttachmentView>,
    id: Seq<char>,
)
    requires
        inlined(body, attachments).contains_key(id),
    ensures
        text::contains_text(body, "cid:"@ + id),
        exists|i: int|
            0 <= i < attachments.len() && #[trigger] inlined_as(body, attachments[i]) == Some(
                (id, inlined(body, attachments)[id]),
            ),
    decreases attachments.len(),
{
    if attachments.len() > 0 {
        let front = attachments.drop_last();
        let last = attachments.last();
        match inlined_as(body, last) {
            Some((last_id, image)) => {
                if last_id == id {
                    assert(inlined_as(body, attachments[attachments.len() - 1]) == Some(
                        (id, inlined(body, attachments)[id]),
                    ));
                } else {
                    law_only_mentioned_images_are_kept(body, front, id);
                    let i = choose|i: int|
                        0 <= i < front.len() && #[trigger] inlined_as(body, front[i]) == Some(
                            (id, inlined(body, front)[id]),
                        );
                    assert(attachments[i] == front[i]);
                }
            },
            None => {
                law_only_mentioned_images_are_kept(body, front, id);
                let i = choose|i: int|
                    0 <= i < front.len() && #[trigger] inlined_as(body, front[i]) == Some(
                        (id, inlined(body, front)[id]),
                    );
                assert(attachments[i] == front[i]);
            },
        }
    }
}

/// An attachment that the body mentions, and whose type is known, is kept under
/// its id, unless a later one takes the id.
pub proof fn law_mentioned_images_are_kept(
    body: Seq<char>,
    attachments: Seq<attachment::AttachmentView>,
    i: int,
)
    requires
        0 <= i < attachments.len(),
        inlined_as(body, attachments[i]) is Some,
        forall|j: int|
            i < j < attachments.len() ==> (#[trigger] inlined_as(body, attachments[j]) matches Some(
                other,
            ) ==> other.0 != (inlined_as(body, attachments[i])->0).0),
    ensures
        ({
            let (id, image) = inlined_as(body, attachments[i])->0;
            inlined(body, attachments).contains_key(id) && inlined(body, attachments)[id] == image
        }),
    decreases attachments.len(),
{
    let front = attachments.drop_last();
    if i < front.len() {
        assert(front[i] == attachments[i]);
        assert forall|j: int| i < j < front.len() implies (#[trigger] inlined_as(
            body,
            front[j],
        ) matches Some(other) ==> other.0 != (inlined_as(body, front[i])->0).0) by {
            assert(front[j] == attachments[j]);
        }
        law_mentioned_images_are_kept(body, front, i);
        assert(inlined_as(body, attachments[attachments.len() - 1]) matches Some(other)
            ==> other.0 != (inlined_as(body, attachments[i])->0).0);
    }
}

/// An image source that points at an attachment, without regard to case, shows
/// the content of that attachment.
pub proof fn law_an_inline_image_becomes_a_data_uri(
    body: Seq<char>,
    attachments: Seq<attachment::AttachmentView>,
    i: int,
    value: Seq<char>,
)
    requires
        0 <= i < attachments.len(),
        inlined_as(body, attachments[i]) is Some,
        forall|j: int|
            i < j < attachments.len() ==> (#[trigger] inlined_as(body, attachments[j]) matches Some(
                other,
            ) ==> other.0 != (inlined_as(body, attachments[i])->0).0),
        content_id(value) is Some,
        text::lowercase(content_id(value)->0) == (inlined_as(body, attachments[i])->0).0,
    ensures
        rewritten(inlined(body, attachments), "img"@, "src"@, value) == Some(
            data_uri((inlined_as(body, attachments[i])->0).1),
        ),
{
    law_mentioned_images_are_kept(body, attachments, i);
}

/// A content id in an uri holds nothing that has a meaning there but `%`, and an
/// id that holds nothing of the kind stays as it is.
pub proof fn law_url_encoded_ids_are_plain(id: Seq<char>)
    ensures
        forall|i: int|
            0 <= i < url_encoded(id).len() ==> url_plain(#[trigger] url_encoded(id)[i])
                || url_encoded(id)[i] == '%',
        (forall|i: int| 0 <= i < id.len() ==> url_plain(#[trigger] id[i])) ==> url_encoded(id)
            == id,
    decreases id.len(),
{
    if id.len() > 0 && id[0] != '\0' {
        let tail = id.drop_first();
        law_url_encoded_ids_are_plain(tail);
        let head = if url_plain(id[0]) {
            seq![id[0]]
        } else {
            seq!['%', upper_hex(id[0] as int / 16), upper_hex(id[0] as int % 16)]
        };
        if !url_plain(id[0]) {
            lemma_percent_encoding_is_plain(id[0]);
        }
        assert(url_encoded(id) == head + url_encoded(tail));
        assert forall|i: int| 0 <= i < url_encoded(id).len() implies url_plain(
            #[trigger] url_encoded(id)[i],
        ) || url_encoded(id)[i] == '%' by {
            if i >= head.len() {
                assert(url_encoded(id)[i] == url_encoded(tail)[i - head.len()]);
            }
        }
        if forall|i: int| 0 <= i < id.len() ==> url_plain(#[trigger] id[i]) {
            assert(url_plain(id[0]));
            assert forall|i: int| 0 <= i < tail.len() implies url_plain(#[trigger] tail[i]) by {
                assert(tail[i] == id[i + 1]);
            }
            assert(url_encoded(id) =~= id);
        }
    } else if id.len() > 0 {
        assert(!url_plain(id[0]));
    } else {
        assert(url_encoded(id) =~= id);
    }
}

proof fn lemma_percent_encoding_is_plain(c: char)
    requires
        !url_plain(c),
    ensures
        url_plain(upper_hex(c as int / 16)),
        url_plain(upper_hex(c as int % 16)),
{
    assert(0 <= (c as int) < 0x80);
}

/// The value begins with `cid:`, in any mixture of cases, by the codes of its
/// characters.
pub open spec fn points_at_content(value: Seq<char>) -> bool {
    &&& value.len() >= 4
    &&& value[0] as int == 99 || value[0] as int == 67
    &&& value[1] as int == 105 || value[1] as int == 73
    &&& value[2] as int == 100 || value[2] as int == 68
    &&& value[3] as int == 58
}

proof fn lemma_points_at_content(value: Seq<char>)
    ensures
        points_at_content(value) <==> content_id(value) is Some,
        content_id(value) matches Some(id) ==> id == value.skip(4),
{
    reveal_strlit("cid:");
    if value.len() >= 4 {
        let scheme = value.take(4);
        let lower = text::ascii_lowercase(scheme);
        assert(lower[0] == text::ascii_lower(value[0]));
        assert(lower[1] == text::ascii_lower(value[1]));
        assert(lower[2] == text::ascii_lower(value[2]));
        assert(lower[3] == text::ascii_lower(value[3]));
        if points_at_content(value) {
            assert(lower =~= "cid:"@);
        }
    }
}

/// A source is taken apart at its scheme: what follows `cid:` is the id, and a value
/// of another scheme has none.
pub proof fn law_the_id_follows_the_scheme(value: &str, found: Option<&str>)
    requires
        call_ensures(content_id_of, (value,), found),
    ensures
        found is Some <==> points_at_content(value@),
        found matches Some(id) ==> id@ == value@.skip(4),
{
    lemma_points_at_content(value@);
}

/// What becomes of the value of an attribute. One of another scheme than `cid:`
/// stays. The source of an image becomes the type and the content of the image it
/// points at, if that is there. Any other `cid:` is dropped, whatever the element and
/// the attribute.
pub proof fn law_a_source_becomes_its_image(
    images: Map<Seq<char>, ImageView>,
    element: Seq<char>,
    attribute: Seq<char>,
    value: Seq<char>,
)
    ensures
        !points_at_content(value) ==> rewritten(images, element, attribute, value) == Some(value),
        points_at_content(value) ==> {
            let id = text::lowercase(value.skip(4));
            if element == "img"@ && attribute == "src"@ && images.contains_key(id) {
                rewritten(images, element, attribute, value) == Some(
                    "data:"@ + images[id].mime_type + ";base64,"@ + codec::base64(images[id].body),
                )
            } else {
                rewritten(images, element, attribute, value) is None
            }
        },
{
    lemma_points_at_content(value);
}

/// The source of an image points at the image of the given id.
pub open spec fn source_of(asked: Asked, id: Seq<char>) -> bool {
    &&& asked.element == "img"@
    &&& asked.attribute == "src"@
    &&& points_at_content(asked.value)
    &&& text::lowercase(asked.value.skip(4)) == id
}

/// What is encoded after rendering is what was encoded before, and each image that is
/// there and that the source of an image points at, with its content. Nothing else
/// is encoded.
pub proof fn law_sources_are_encoded(
    encoded: Map<Seq<char>, ImageView>,
    images: Map<Seq<char>, ImageView>,
    asked: Seq<Asked>,
    id: Seq<char>,
)
    ensures
        ({
            let after = encoded_after(encoded, images, asked);
            let sought = images.contains_key(id) && exists|i: int|
                0 <= i < asked.len() && source_of(#[trigger] asked[i], id);
            &&& after.contains_key(id) <==> encoded.contains_key(id) || sought
            &&& sought ==> after[id] == images[id]
            &&& encoded.contains_key(id) && !sought ==> after[id] == encoded[id]
        }),
{
    law_what_is_shown_is_encoded(encoded, images, asked);
    let sought = images.contains_key(id) && exists|i: int|
        0 <= i < asked.len() && source_of(#[trigger] asked[i], id);
    if sought {
        let i = choose|i: int| 0 <= i < asked.len() && source_of(#[trigger] asked[i], id);
        lemma_points_at_content(asked[i].value);
        assert(shows(images, asked[i], id));
    }
    if shown_ids(images, asked).contains(id) {
        let i = choose|i: int| 0 <= i < asked.len() && #[trigger] shows(images, asked[i], id);
        lemma_points_at_content(asked[i].value);
        assert(source_of(asked[i], id));
    }
    assert(shown_ids(images, asked).contains(id) == sought);
    let after = encoded_after(encoded, images, asked);
    assert(after.dom().contains(id) == (encoded.dom().contains(id) || sought));
}

/// The id under which an attachment can be shown in a message with the lower case
/// body `body`: it needs an id and a type. The id stands behind a `cid:` in the body
/// as it is, or else as it is written in an uri, in lower case either way.
pub open spec fn shown_under(body: Seq<char>, a: attachment::AttachmentView) -> Option<Seq<char>> {
    let plain = text::lowercase(a.content_id);
    let encoded = text::lowercase(url_encoded(plain));
    let mentions = |id: Seq<char>|
        exists|before: Seq<char>, after: Seq<char>|
            body == #[trigger] (before + ("cid:"@ + id) + after);
    if a.content_id.len() == 0 || a.mime_type is None {
        None
    } else if mentions(plain) {
        Some(plain)
    } else if mentions(encoded) {
        Some(encoded)
    } else {
        None
    }
}

proof fn lemma_shown_under(body: Seq<char>, a: attachment::AttachmentView)
    ensures
        shown_under(body, a) is Some <==> inlined_as(body, a) is Some,
        inlined_as(body, a) matches Some((id, image)) ==> shown_under(body, a) == Some(id)
            && image.body == a.body && a.mime_type == Some(image.mime_type),
{
    let plain = text::lowercase(a.content_id);
    let encoded = text::lowercase(url_encoded(plain));
    text::law_a_part_stands_between_the_rest(body, "cid:"@ + plain);
    text::law_a_part_stands_between_the_rest(body, "cid:"@ + encoded);
}

/// The images of a message are the attachments that can be shown in it, each under its
/// id, with its type and its content. Of two with one id it is the later one, and
/// nothing else is an image.
pub proof fn law_the_images_are_the_attachments_that_can_be_shown(
    body: Seq<char>,
    attachments: Seq<attachment::AttachmentView>,
    id: Seq<char>,
)
    ensures
        inlined(body, attachments).contains_key(id) <==> exists|i: int|
            0 <= i < attachments.len() && shown_under(body, #[trigger] attachments[i]) == Some(id),
        forall|i: int|
            0 <= i < attachments.len() && shown_under(body, #[trigger] attachments[i]) == Some(id)
                && (forall|j: int|
                i < j < attachments.len() ==> shown_under(body, #[trigger] attachments[j]) != Some(
                    id,
                )) ==> {
                let image = inlined(body, attachments)[id];
                image.body == attachments[i].body && attachments[i].mime_type == Some(
                    image.mime_type,
                )
            },
    decreases attachments.len(),
{
    if attachments.len() > 0 {
        let front = attachments.drop_last();
        let last = attachments.last();
        let at = attachments.len() - 1;
        law_the_images_are_the_attachments_that_can_be_shown(body, front, id);
        lemma_shown_under(body, last);
        assert(attachments[at] == last);
        if exists|i: int|
            0 <= i < front.len() && shown_under(body, #[trigger] front[i]) == Some(id) {
            let i = choose|i: int|
                0 <= i < front.len() && shown_under(body, #[trigger] front[i]) == Some(id);
            assert(attachments[i] == front[i]);
        }
        if exists|i: int|
            0 <= i < attachments.len() && shown_under(body, #[trigger] attachments[i]) == Some(id) {
            let i = choose|i: int|
                0 <= i < attachments.len() && shown_under(body, #[trigger] attachments[i]) == Some(
                    id,
                );
            if i < at {
                assert(front[i] == attachments[i]);
            }
        }
        assert forall|i: int|
            0 <= i < attachments.len() && shown_under(body, #[trigger] attachments[i]) == Some(id)
                && (forall|j: int|
                i < j < attachments.len() ==> shown_under(body, #[trigger] attachments[j]) != Some(
                    id,
                )) implies {
            let image = inlined(body, attachments)[id];
            image.body == attachments[i].body && attachments[i].mime_type == Some(image.mime_type)
        } by {
            if i < at {
                assert(front[i] == attachments[i]);
                assert(shown_under(body, attachments[at]) != Some(id));
                assert forall|j: int| i < j < front.len() implies shown_under(
                    body,
                    #[trigger] front[j],
                ) != Some(id) by {
                    assert(front[j] == attachments[j]);
                }
            }
        }
    }
}

proof fn lemma_url_encoded_of(a: Seq<char>, b: Seq<char>)
    requires
        forall|i: int| 0 <= i < a.len() ==> #[trigger] a[i] != '\0',
    ensures
        url_encoded(a + b) == url_encoded(a) + url_encoded(b),
    decreases a.len(),
{
    if a.len() > 0 {
        let tail = a.drop_first();
        assert forall|i: int| 0 <= i < tail.len() implies #[trigger] tail[i] != '\0' by {
            assert(tail[i] == a[i + 1]);
        }
        lemma_url_encoded_of(tail, b);
        assert((a + b)[0] == a[0]);
        assert((a + b).drop_first() =~= tail + b);
        assert(url_encoded(a + b) =~= url_encoded(a) + url_encoded(b));
    } else {
        assert(a + b =~= b);
        assert(url_encoded(a) + url_encoded(b) =~= url_encoded(b));
    }
}

/// A content id is written in an uri character by character, up to a NUL: letters,
/// digits, `-`, `.`, `_`, `~`, `@` and whatever is not ASCII as they are, and anything
/// else as `%` and its code in two hexadecimal digits, with capitals.
pub proof fn law_an_id_is_written_character_by_character(a: Seq<char>, c: char, b: Seq<char>)
    requires
        forall|i: int| 0 <= i < a.len() ==> #[trigger] a[i] != '\0',
    ensures
        url_encoded(a + b) == url_encoded(a) + url_encoded(b),
        url_encoded(a + seq!['\0'] + b) == url_encoded(a),
        url_encoded(Seq::empty()) == Seq::<char>::empty(),
        c != '\0' ==> {
            let code = c as int;
            let one = url_encoded(seq![c]);
            if 65 <= code <= 90 || 97 <= code <= 122 || 48 <= code <= 57 || code == 45 || code == 46
                || code == 95 || code == 126 || code == 64 || code >= 128 {
                one == seq![c]
            } else {
                let (high, low) = (code / 16, code % 16);
                &&& one.len() == 3
                &&& one[0] == '%'
                &&& one[1] as int == (if high < 10 {
                    48 + high
                } else {
                    55 + high
                })
                &&& one[2] as int == (if low < 10 {
                    48 + low
                } else {
                    55 + low
                })
            }
        },
{
    lemma_url_encoded_of(a, b);
    lemma_url_encoded_of(a, seq!['\0'] + b);
    assert(a + seq!['\0'] + b =~= a + (seq!['\0'] + b));
    assert((seq!['\0'] + b)[0] == '\0');
    assert(url_encoded(a) + Seq::<char>::empty() =~= url_encoded(a));
    reveal_with_fuel(url_encoded, 2);
    assert(seq![c].drop_first() =~= Seq::<char>::empty());
    if c != '\0' {
        if url_plain(c) {
            assert(url_encoded(seq![c]) =~= seq![c]);
        } else {
            assert(url_encoded(seq![c]) =~= seq![
                '%',
                upper_hex(c as int / 16),
                upper_hex(c as int % 16),
            ]);
        }
    }
}

} // verus!
