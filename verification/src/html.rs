//! Turning the html of a message into something safe to render.

use std::sync::Arc;

use vstd::prelude::*;
use vstd::rwlock::{RwLock, RwLockPredicate};

use crate::images;
use crate::images::{EncodedImages, InlineImages};
use crate::message::attachment;
use crate::message::attachment::Attachment;
use crate::sanitizer;
use crate::sanitizer::Settings;
use crate::text;

verus! {

/// The style that replaces the one of the message when the css is forced.
/// There are two, so that forcing it on a dark desktop does not turn the
/// message into a white slab.
pub const CSS_LIGHT: &'static str = r#"
<style>
  * {
    color: black;
    background-color: white;
    font-family: Poppins, Roboto, sans-serif;
    font-size: 20px;
  }
</style>
"#;

/// The style that is forced on a dark desktop.
pub const CSS_DARK: &'static str = r#"
<style>
  * {
    color: #ffffff;
    background-color: #242424;
    font-family: Poppins, Roboto, sans-serif;
    font-size: 20px;
  }
</style>
"#;

/// Removing tags is not enough to keep a message offline: css can reach the
/// network on its own through @import, @font-face and url(). A policy is
/// enforced by the engine, so it covers what the sanitizer cannot see.
/// data: stays allowed, it is what inline (cid) images are rewritten to.
pub const CSP_BLOCK_REMOTE: &'static str = "default-src 'none'; style-src 'unsafe-inline'; img-src data:; media-src data:";

/// The policy of a message that may pull content from the network.
pub const CSP_ALLOW_REMOTE: &'static str = "default-src 'none'; style-src 'unsafe-inline' http: https:; img-src data: http: https:; font-src http: https:; media-src data: http: https:";

/// The page up to the policy.
pub const PAGE_START: &'static str = "<!doctype html><html><head><meta charset=\"utf-8\"><meta http-equiv=\"Content-Security-Policy\" content=\"";

/// What ends the policy.
pub const PAGE_POLICY_END: &'static str = "\">";

/// From the forced css to the message.
pub const PAGE_BODY: &'static str = "</head><body>";

/// The page after the message.
pub const PAGE_END: &'static str = "</body></html>";

/// The printed page up to the policy.
pub const PRINT_START: &'static str = r#"<!doctype html>
      <html>
      <head>
        <meta charset="utf-8">
        <meta http-equiv="Content-Security-Policy" content=""#;

/// From the policy to the sender.
pub const PRINT_FROM: &'static str = r#"">
        <style>
        pre {
            white-space: pre-wrap;
            overflow-wrap: anywhere;
            word-break: break-word;
        }
        th {
            vertical-align: top;
            text-align: left;
        }
        </style>
      </head>
      <body>
        <table class="header">
          <tr><th>From:&nbsp;</th><td>"#;

/// From the sender to the recipients.
pub const PRINT_TO: &'static str = r#"</td></tr>
          <tr><th>To:&nbsp;</th><td>"#;

/// From the recipients to the date.
pub const PRINT_DATE: &'static str = r#"</td></tr>
          <tr><th>Date:&nbsp;</th><td>"#;

/// From the date to the subject.
pub const PRINT_SUBJECT: &'static str = r#"</td></tr>
          <tr><th>Subject:&nbsp;</th><td>"#;

/// From the subject to the message.
pub const PRINT_BODY: &'static str = r#"</td></tr>
        </table>
        <hr />
        <div class="body">
          "#;

/// From the message to its attachments.
pub const PRINT_ATTACHMENTS: &'static str = r#"
        </div>
        <hr />
        <ul>
          "#;

/// The printed page after the attachments.
pub const PRINT_END: &'static str = r#"
        </ul>
      </body>
      </html>"#;

/// The style that is forced, by the colour scheme of the desktop.
pub open spec fn css(dark: bool) -> Seq<char> {
    if dark {
        CSS_DARK@
    } else {
        CSS_LIGHT@
    }
}

/// The policy, by whether the message may reach the network.
pub open spec fn policy_of(allow_remote: bool) -> Seq<char> {
    if allow_remote {
        CSP_ALLOW_REMOTE@
    } else {
        CSP_BLOCK_REMOTE@
    }
}

/// What the sanitizer lets through beyond its defaults. `cid:` is not rendered,
/// it only has to survive long enough to become the uri of an attachment. A
/// style of the message is kept as it is, unless the css is forced.
pub open spec fn settings_of(strip_css: bool) -> sanitizer::SettingsView {
    let (style, attributes) = if strip_css {
        (seq![], seq![])
    } else {
        (seq!["style"@], seq!["style"@, "class"@])
    };
    sanitizer::SettingsView {
        schemes: seq!["data"@, "cid"@],
        tags: style,
        content_tags: style,
        attributes,
    }
}

/// A message that is to be rendered.
pub struct HtmlView {
    pub body: Seq<char>,
    pub strip_css: bool,
    pub allow_remote: bool,
    pub dark: bool,
    pub images: Map<Seq<char>, images::ImageView>,
}

impl HtmlView {
    /// Neither the body, nor what an attribute of it becomes, is longer than the
    /// sanitizer can count.
    pub open spec fn fits(self) -> bool {
        sanitizer::fits(self.body, self.images)
    }

    /// The body without what is not safe to render.
    pub open spec fn clean(self) -> Seq<char> {
        self.sanitized().text
    }

    /// What sanitizing the body gives.
    pub open spec fn sanitized(self) -> sanitizer::Sanitized {
        sanitizer::sanitized(
            self.body,
            settings_of(self.strip_css),
            sanitizer::rewriting(self.images),
        )
    }

    /// The images that are encoded once the message is rendered, by id.
    pub open spec fn encoded_after(
        self,
        encoded: Map<Seq<char>, images::ImageView>,
    ) -> Map<Seq<char>, images::ImageView> {
        images::encoded_after(encoded, self.images, self.sanitized().asked)
    }

    /// The page up to the message.
    pub open spec fn head(self) -> Seq<char> {
        PAGE_START@ + policy_of(self.allow_remote) + PAGE_POLICY_END@ + (if self.strip_css {
            css(self.dark)
        } else {
            Seq::empty()
        }) + PAGE_BODY@
    }

    /// The page around the clean content of the message.
    pub open spec fn page(self, content: Seq<char>) -> Seq<char> {
        self.head() + content + PAGE_END@
    }

    /// The printed page around the clean content of the message.
    pub open spec fn printed(
        self,
        content: Seq<char>,
        from: Seq<char>,
        to: Seq<char>,
        date: Seq<char>,
        subject: Seq<char>,
        attachments: Seq<attachment::AttachmentView>,
    ) -> Seq<char> {
        self.print_head() + sanitizer::escaped(from) + PRINT_TO@ + sanitizer::escaped(to)
            + PRINT_DATE@ + sanitizer::escaped(date) + PRINT_SUBJECT@ + sanitizer::escaped(subject)
            + PRINT_BODY@ + content + PRINT_ATTACHMENTS@ + attachment_list(attachments) + PRINT_END@
    }

    /// The printed page up to the sender.
    pub open spec fn print_head(self) -> Seq<char> {
        PRINT_START@ + policy_of(self.allow_remote) + PRINT_FROM@
    }
}

/// An attachment in the list of the printed page.
pub open spec fn attachment_item(a: attachment::AttachmentView) -> Seq<char> {
    let name = sanitizer::escaped(a.filename);
    match a.mime_type {
        Some(mime_type) if mime_type.len() > 0 => "<li>"@ + name + " ("@ + sanitizer::escaped(
            mime_type,
        ) + ")</li>"@,
        _ => "<li>"@ + name + "</li>"@,
    }
}

/// The attachments in the list of the printed page.
pub open spec fn attachment_list(attachments: Seq<attachment::AttachmentView>) -> Seq<char> {
    text::joined(attachments.map_values(|a| attachment_item(a)), "\n"@)
}

/// The style that is forced, by the colour scheme of the desktop.
pub fn forced_css(dark: bool) -> (r: &'static str)
    ensures
        r@ == css(dark),
{
    if dark {
        CSS_DARK
    } else {
        CSS_LIGHT
    }
}

/// What the lock around the encoded images keeps true of them: they are those that
/// were there before the message was rendered, or those that are there afterwards.
pub struct Rendering {
    pub before: Map<Seq<char>, images::ImageView>,
    pub after: Map<Seq<char>, images::ImageView>,
}

impl RwLockPredicate<EncodedImages> for Rendering {
    open spec fn inv(self, encoded: EncodedImages) -> bool {
        encoded@ == self.before || encoded@ == self.after
    }
}

/// A message that is to be rendered.
pub struct Html {
    body: String,
    strip_css: bool,
    allow_remote: bool,
    dark: bool,
    images: Arc<InlineImages>,
    encoded: RwLock<EncodedImages, Rendering>,
}

impl View for Html {
    type V = HtmlView;

    closed spec fn view(&self) -> HtmlView {
        HtmlView {
            body: self.body@,
            strip_css: self.strip_css,
            allow_remote: self.allow_remote,
            dark: self.dark,
            images: self.images@,
        }
    }
}

impl Html {
    #[verifier::type_invariant]
    spec fn well_formed(self) -> bool {
        self.encoded.pred().after == self@.encoded_after(self.encoded.pred().before)
    }

    /// The images that were encoded when the message was given its images. It is
    /// these that are encoded before the message is rendered, and
    /// `self@.encoded_after(self.encoded_before())` afterwards.
    pub closed spec fn encoded_before(self) -> Map<Seq<char>, images::ImageView> {
        self.encoded.pred().before
    }

    /// A message that may not reach the network, on a light desktop, without
    /// inline images. Whether the css is forced is up to the caller.
    pub fn new(body: &str, strip_css: bool) -> (r: Self)
        ensures
            r@ == (HtmlView {
                body: body@,
                strip_css,
                allow_remote: false,
                dark: false,
                images: Map::empty(),
            }),
            r.encoded_before() == Map::<Seq<char>, images::ImageView>::empty(),
    {
        let images = InlineImages::none();
        let ghost view = HtmlView {
            body: body@,
            strip_css,
            allow_remote: false,
            dark: false,
            images: images@,
        };
        let ghost rendering = Rendering {
            before: Map::empty(),
            after: view.encoded_after(Map::empty()),
        };
        Html {
            body: body.to_owned(),
            strip_css,
            allow_remote: false,
            dark: false,
            images: Arc::new(images),
            encoded: RwLock::new(EncodedImages::new(), Ghost(rendering)),
        }
    }

    /// Whether the message may pull content from the network, i.e. the state of
    /// the "Show remote images" button.
    pub fn allow_remote(self, allow_remote: bool) -> (r: Self)
        ensures
            r@ == (HtmlView { allow_remote, ..self@ }),
            r.encoded_before() == self.encoded_before(),
    {
        proof {
            use_type_invariant(&self);
        }
        Html {
            body: self.body,
            strip_css: self.strip_css,
            allow_remote,
            dark: self.dark,
            images: self.images,
            encoded: self.encoded,
        }
    }

    /// Whether the forced css is the dark one, i.e. the colour scheme of the
    /// desktop. Only used when the css is forced: the style a message brings is
    /// left alone, recolouring it would break as much as it fixes.
    pub fn dark(self, dark: bool) -> (r: Self)
        ensures
            r@ == (HtmlView { dark, ..self@ }),
            r.encoded_before() == self.encoded_before(),
    {
        proof {
            use_type_invariant(&self);
        }
        Html {
            body: self.body,
            strip_css: self.strip_css,
            allow_remote: self.allow_remote,
            dark,
            images: self.images,
            encoded: self.encoded,
        }
    }

    /// The attachments a `cid:` source can point at, keyed by content id in
    /// lower case, since the scheme and the id are matched without case. What was
    /// encoded before stays so.
    pub fn inline_images(self, attachments: &[Attachment]) -> (r: Self)
        ensures
            r@ == (HtmlView {
                images: images::inlined(
                    text::lowercase(self@.body),
                    attachment::attachment_views(attachments@),
                ),
                ..self@
            }),
            r.encoded_before() == self.encoded_before() || r.encoded_before()
                == self@.encoded_after(self.encoded_before()),
    {
        let images = InlineImages::of(self.body.as_str(), attachments);
        proof {
            use_type_invariant(&self);
        }
        let ghost view = HtmlView { images: images@, ..self@ };
        let encoded = self.encoded.into_inner();
        let ghost rendering = Rendering {
            before: encoded@,
            after: view.encoded_after(encoded@),
        };
        Html {
            body: self.body,
            strip_css: self.strip_css,
            allow_remote: self.allow_remote,
            dark: self.dark,
            images: Arc::new(images),
            encoded: RwLock::new(encoded, Ghost(rendering)),
        }
    }

    /// The number of inline images that were encoded so far, each of which counts
    /// once: those that were encoded when the message was given its images, and once
    /// it is rendered those that it shows too. Rendering goes through a shared
    /// reference, so which of the two it is is left unsaid.
    pub fn encoded_image_count(&self) -> (r: usize)
        ensures
            r == self.encoded_before().len() || r == self@.encoded_after(
                self.encoded_before(),
            ).len(),
    {
        proof {
            use_type_invariant(self);
        }
        let handle = self.encoded.acquire_read();
        let encoded = handle.borrow();
        let count = encoded.len();
        assert(self.encoded.inv(*encoded));
        handle.release_read();
        count
    }

    /// Whether neither the body, nor what an attribute of it becomes, is longer
    /// than the sanitizer can count.
    pub fn fits(&self) -> (r: bool)
        ensures
            r == self@.fits(),
    {
        sanitizer::is_fit(self.body.as_str(), &self.images)
    }

    /// Percent encodes a content id, but for an `@`.
    pub fn url_encode(content_id: &str) -> (r: String)
        ensures
            r@ == images::url_encoded(content_id@),
    {
        images::url_encode(content_id)
    }

    /// Text as it stands in html.
    pub fn escape(value: &str) -> (r: String)
        ensures
            r@ == sanitizer::escaped(value@),
    {
        sanitizer::escape_text(value)
    }

    /// The content security policy of the page.
    pub fn policy(&self) -> (r: &str)
        ensures
            r@ == policy_of(self@.allow_remote),
    {
        if self.allow_remote {
            CSP_ALLOW_REMOTE
        } else {
            CSP_BLOCK_REMOTE
        }
    }

    /// The whole page.
    pub fn safe(&self) -> (r: String)
        requires
            self@.fits(),
        ensures
            r@ == self@.page(self@.clean()),
    {
        let content = self.clean();
        self.page(content.as_str())
    }

    /// The page around the clean content of the message. The document is built
    /// here rather than taken from the message, so the head is ours and nothing
    /// of the message is parsed before the policy.
    pub fn page(&self, content: &str) -> (r: String)
        ensures
            r@ == self@.page(content@),
    {
        let mut out = String::new();
        out.append(PAGE_START);
        out.append(self.policy());
        out.append(PAGE_POLICY_END);
        if self.strip_css {
            out.append(forced_css(self.dark));
        }
        out.append(PAGE_BODY);
        assert(out@ =~= self@.head());
        out.append(content);
        out.append(PAGE_END);
        out
    }

    fn clean(&self) -> (r: String)
        requires
            self@.fits(),
        ensures
            r@ == self@.clean(),
    {
        proof {
            use_type_invariant(self);
        }
        let (mut encoded, handle) = self.encoded.acquire_write();
        let content = self.clean_with(&mut encoded);
        proof {
            images::law_encoded_once(
                self.encoded_before(),
                self@.images,
                self@.sanitized().asked,
            );
        }
        handle.release_write(encoded);
        content
    }

    /// The body without what is not safe to render, given the images that were
    /// encoded before. Those that it shows are encoded afterwards too.
    pub fn clean_with(&self, encoded: &mut EncodedImages) -> (r: String)
        requires
            self@.fits(),
        ensures
            r@ == self@.clean(),
            final(encoded)@ == self@.encoded_after(old(encoded)@),
    {
        let settings = if self.strip_css {
            Settings {
                schemes: vec!["data", "cid"],
                tags: vec![],
                content_tags: vec![],
                attributes: vec![],
            }
        } else {
            // A <style> of the message is kept as it is: it cannot script, and
            // the policy is what keeps it from reaching the network.
            Settings {
                schemes: vec!["data", "cid"],
                tags: vec!["style"],
                content_tags: vec!["style"],
                attributes: vec!["style", "class"],
            }
        };
        proof {
            reveal_strlit("rel");
            reveal_strlit("style");
            reveal_strlit("class");
            reveal_strlit("script");
            let expected = settings_of(self@.strip_css);
            assert(settings@.schemes =~= expected.schemes);
            assert(settings@.tags =~= expected.tags);
            assert(settings@.content_tags =~= expected.content_tags);
            assert(settings@.attributes =~= expected.attributes);
            assert("rel"@.len() != "style"@.len());
            assert("rel"@.len() != "class"@.len());
            assert("script"@.len() != "style"@.len());
        }
        let mut before = EncodedImages::new();
        std::mem::swap(&mut before, encoded);
        let (content, after) = sanitizer::sanitize(
            self.body.as_str(),
            &settings,
            &self.images,
            before,
        );
        *encoded = after;
        content
    }

    /// The `<li>` list of attachments for the printed page. Both the file name and
    /// the mime type come from the message, so both are escaped.
    pub fn print_attachment_list(attachments: &[Attachment]) -> (r: String)
        ensures
            r@ == attachment_list(attachment::attachment_views(attachments@)),
    {
        let ghost all = attachment::attachment_views(attachments@);
        let mut items: Vec<String> = Vec::new();
        for i in 0..attachments.len()
            invariant
                all == attachment::attachment_views(attachments@),
                text::texts(items@) == all.take(i as int).map_values(|a| attachment_item(a)),
        {
            let a = &attachments[i];
            let ghost before = items@;
            let mut item = String::new();
            item.append("<li>");
            item.append(Html::escape(a.filename.as_str()).as_str());
            match &a.mime_type {
                Some(mime_type) if !mime_type.as_str().is_empty() => {
                    item.append(" (");
                    item.append(Html::escape(mime_type.as_str()).as_str());
                    item.append(")</li>");
                },
                _ => {
                    item.append("</li>");
                },
            }
            assert(item@ =~= attachment_item(all[i as int]));
            items.push(item);
            assert(text::texts(items@) =~= text::texts(before).push(item@));
            assert(all.take(i + 1) =~= all.take(i as int).push(all[i as int]));
            assert(text::texts(items@) =~= all.take(i + 1).map_values(|a| attachment_item(a)));
        }
        assert(all.take(attachments@.len() as int) =~= all);
        text::join(&items, "\n")
    }

    /// The whole page to print.
    pub fn safe_print(
        &self,
        from: &str,
        to: &str,
        date: &str,
        subject: &str,
        attachments: &[Attachment],
    ) -> (r: String)
        requires
            self@.fits(),
        ensures
            r@ == self@.printed(
                self@.clean(),
                from@,
                to@,
                date@,
                subject@,
                attachment::attachment_views(attachments@),
            ),
    {
        let content = self.clean();
        self.print_page(content.as_str(), from, to, date, subject, attachments)
    }

    /// The printed page around the clean content of the message.
    pub fn print_page(
        &self,
        content: &str,
        from: &str,
        to: &str,
        date: &str,
        subject: &str,
        attachments: &[Attachment],
    ) -> (r: String)
        ensures
            r@ == self@.printed(
                content@,
                from@,
                to@,
                date@,
                subject@,
                attachment::attachment_views(attachments@),
            ),
    {
        let mut out = String::new();
        out.append(PRINT_START);
        out.append(self.policy());
        out.append(PRINT_FROM);
        assert(out@ =~= self@.print_head());
        out.append(Html::escape(from).as_str());
        out.append(PRINT_TO);
        out.append(Html::escape(to).as_str());
        out.append(PRINT_DATE);
        out.append(Html::escape(date).as_str());
        out.append(PRINT_SUBJECT);
        out.append(Html::escape(subject).as_str());
        out.append(PRINT_BODY);
        out.append(content);
        out.append(PRINT_ATTACHMENTS);
        out.append(Html::print_attachment_list(attachments).as_str());
        out.append(PRINT_END);
        out
    }
}

/// The head of the page is ours: two messages that are rendered with the same
/// settings get the same page up to the body, whatever they hold, and it carries
/// the policy.
pub proof fn law_the_head_is_ours(
    a: HtmlView,
    b: HtmlView,
    a_content: Seq<char>,
    b_content: Seq<char>,
)
    requires
        a.strip_css == b.strip_css,
        a.allow_remote == b.allow_remote,
        a.dark == b.dark,
    ensures
        text::begins_with(a.page(a_content), a.head()),
        text::begins_with(b.page(b_content), a.head()),
        text::stands_at(a.head(), policy_of(a.allow_remote), PAGE_START@.len() as int),
{
    assert(a.page(a_content).subrange(0, a.head().len() as int) =~= a.head());
    assert(b.page(b_content).subrange(0, a.head().len() as int) =~= a.head());
    let policy = policy_of(a.allow_remote);
    assert(a.head().subrange(
        PAGE_START@.len() as int,
        (PAGE_START@.len() + policy.len()) as int,
    ) =~= policy);
}

/// The printed page carries the policy in a head that is ours, whatever the
/// message holds.
pub proof fn law_the_printed_head_is_ours(
    a: HtmlView,
    content: Seq<char>,
    from: Seq<char>,
    to: Seq<char>,
    date: Seq<char>,
    subject: Seq<char>,
    attachments: Seq<attachment::AttachmentView>,
)
    ensures
        text::begins_with(
            a.printed(content, from, to, date, subject, attachments),
            PRINT_START@ + policy_of(a.allow_remote) + PRINT_FROM@,
        ),
{
    let page = a.printed(content, from, to, date, subject, attachments);
    assert(page.subrange(0, a.print_head().len() as int) =~= a.print_head());
}

/// The colour scheme of the desktop only counts when the css is forced: the style
/// a message brings is left alone.
pub proof fn law_the_style_of_the_message_is_left_alone(a: HtmlView, dark: bool)
    requires
        !a.strip_css,
    ensures
        (HtmlView { dark, ..a }).page((HtmlView { dark, ..a }).clean()) == a.page(a.clean()),
{
}

/// Whether the message may reach the network changes the policy alone: what is
/// kept of the message is the same.
pub proof fn law_the_policy_does_not_change_the_content(a: HtmlView, allow_remote: bool)
    ensures
        (HtmlView { allow_remote, ..a }).clean() == a.clean(),
{
}

/// A page that may not reach the network has a policy that names no remote
/// source, for css and images as for anything else.
pub proof fn law_a_blocked_page_names_no_remote_source(a: HtmlView)
    requires
        !a.allow_remote,
    ensures
        !text::contains_text(policy_of(a.allow_remote), "http"@),
{
    let policy = policy_of(a.allow_remote);
    reveal_strlit("http");
    reveal_strlit(
        "default-src 'none'; style-src 'unsafe-inline'; img-src data:; media-src data:",
    );
    assert forall|i: int| 0 <= i < policy.len() implies #[trigger] policy[i] != 'h' by {}
    if text::contains_text(policy, "http"@) {
        let at = choose|at: int| text::stands_at(policy, "http"@, at);
        assert(policy.subrange(at, at + 4)[0] == policy[at]);
    }
}

/// What rendering encodes is what the message shows: of a message of which nothing
/// was encoded before, the images that are encoded afterwards are those that a
/// source which reached the sanitizer points at, each once however often it is
/// shown. Rendering again encodes nothing more.
pub proof fn law_rendering_encodes_what_is_shown(a: HtmlView)
    ensures
        a.encoded_after(Map::empty()).dom() == images::shown_ids(a.images, a.sanitized().asked),
        a.encoded_after(Map::empty()).len() == images::shown_ids(
            a.images,
            a.sanitized().asked,
        ).len(),
        a.encoded_after(a.encoded_after(Map::empty())) == a.encoded_after(Map::empty()),
{
    let none = Map::<Seq<char>, images::ImageView>::empty();
    images::law_what_is_shown_is_encoded(none, a.images, a.sanitized().asked);
    images::law_encoded_once(none, a.images, a.sanitized().asked);
    assert(none.dom().union(images::shown_ids(a.images, a.sanitized().asked))
        =~= images::shown_ids(a.images, a.sanitized().asked));
}

/// A message that shows none of its images, because it has none or because no
/// source of an image points at one, costs no encoding.
pub proof fn law_a_message_without_images_encodes_nothing(
    a: HtmlView,
    encoded: Map<Seq<char>, images::ImageView>,
)
    requires
        images::shown_ids(a.images, a.sanitized().asked) == Set::<Seq<char>>::empty() || a.images
            == Map::<Seq<char>, images::ImageView>::empty(),
    ensures
        a.encoded_after(encoded) == encoded,
{
    let asked = a.sanitized().asked;
    images::law_what_is_shown_is_encoded(encoded, a.images, asked);
    assert(images::shown_ids(a.images, asked) =~= Set::empty());
    assert(a.encoded_after(encoded) =~= encoded);
}

/// What the sanitizer lets through of a message, by what it is asked for: inline
/// images always, and the style of the message unless the css is forced.
pub open spec fn lets_through(settings: sanitizer::SettingsView, strip_css: bool) -> bool {
    &&& forall|s: Seq<char>| #[trigger]
        settings.schemes.contains(s) <==> s == "data"@ || s == "cid"@
    &&& forall|s: Seq<char>| #[trigger] settings.tags.contains(s) <==> !strip_css && s == "style"@
    &&& forall|s: Seq<char>| #[trigger]
        settings.content_tags.contains(s) <==> !strip_css && s == "style"@
    &&& forall|s: Seq<char>| #[trigger]
        settings.attributes.contains(s) <==> !strip_css && (s == "style"@ || s == "class"@)
}

/// Forcing the css takes the style of the message away, its elements and its
/// attributes, and nothing else: the schemes are those of inline images whether or
/// not it is forced.
pub proof fn law_forcing_the_css_takes_the_style_alone(strip_css: bool)
    ensures
        lets_through(settings_of(strip_css), strip_css),
        settings_of(strip_css).schemes == settings_of(!strip_css).schemes,
{
    let settings = settings_of(strip_css);
    assert(settings.schemes[0] == "data"@ && settings.schemes[1] == "cid"@);
    if !strip_css {
        assert(settings.tags[0] == "style"@);
        assert(settings.content_tags[0] == "style"@);
        assert(settings.attributes[0] == "style"@ && settings.attributes[1] == "class"@);
    }
}

/// What is kept of a message is what the sanitizer makes of its body and nothing
/// else, with its inline images, letting through what it is asked for.
pub proof fn law_the_body_is_sanitized_with_its_images(a: HtmlView)
    ensures
        exists|settings: sanitizer::SettingsView|
            lets_through(settings, a.strip_css) && a.sanitized() == #[trigger] sanitizer::sanitized(
                a.body,
                settings,
                sanitizer::rewriting(a.images),
            ),
        a.clean() == a.sanitized().text,
        forall|element: Seq<char>, attribute: Seq<char>, value: Seq<char>|
            (#[trigger] (sanitizer::rewriting(a.images))(element, attribute, value))
                == images::rewritten(a.images, element, attribute, value),
{
    law_forcing_the_css_takes_the_style_alone(a.strip_css);
    let settings = settings_of(a.strip_css);
    assert(lets_through(settings, a.strip_css) && a.sanitized() == sanitizer::sanitized(
        a.body,
        settings,
        sanitizer::rewriting(a.images),
    ));
}

/// The page is a head, the sanitized body and an end. In the head stand the policy,
/// by whether the message may reach the network, and after it the forced css, by the
/// colour scheme of the desktop, where it is forced.
pub proof fn law_the_page_shows_the_sanitized_body(html: Html, shown: String)
    requires
        call_ensures(Html::safe, (&html,), shown),
    ensures
        exists|settings: sanitizer::SettingsView|
            lets_through(settings, html@.strip_css) && shown@ == PAGE_START@ + (
            if html@.allow_remote {
                CSP_ALLOW_REMOTE@
            } else {
                CSP_BLOCK_REMOTE@
            }) + PAGE_POLICY_END@ + (if html@.strip_css && html@.dark {
                CSS_DARK@
            } else if html@.strip_css {
                CSS_LIGHT@
            } else {
                Seq::empty()
            }) + PAGE_BODY@ + (#[trigger] sanitizer::sanitized(
                html@.body,
                settings,
                sanitizer::rewriting(html@.images),
            )).text + PAGE_END@,
{
    law_the_body_is_sanitized_with_its_images(html@);
}

/// What stands in the page for a text that came with the message: nothing that html
/// has a meaning for, and it is shown as that text.
pub open spec fn written_as(s: Seq<char>, shown: Seq<char>) -> bool {
    &&& sanitizer::resolved(s) == sanitizer::shown_codes(shown)
    &&& forall|i: int|
        0 <= i < s.len() ==> (#[trigger] s[i]) != '<' && s[i] != '>' && s[i] != '"' && s[i]
            != '\'' && s[i] != '`' && s[i] != '/' && s[i] != '=' && s[i] != ' '
}

/// Escaped text is shown as it was, and opens and closes nothing.
pub proof fn law_an_escaped_text_is_only_text(value: &str, r: String)
    requires
        call_ensures(Html::escape, (value,), r),
    ensures
        written_as(r@, value@),
{
    lemma_written_as(value@);
}

proof fn lemma_written_as(s: Seq<char>)
    ensures
        written_as(sanitizer::escaped(s), s),
{
    sanitizer::law_escaped_text_is_shown_as_it_was(s);
    sanitizer::law_escaped_text_is_inert(s);
    let e = sanitizer::escaped(s);
    assert forall|i: int| 0 <= i < e.len() implies (#[trigger] e[i]) != '<' && e[i] != '>' && e[i]
        != '"' && e[i] != '\'' && e[i] != '`' && e[i] != '/' && e[i] != '=' && e[i] != ' ' by {
        assert(sanitizer::inert(e[i]));
    }
}

/// The printed page has the policy of the message in its head, the sender, the
/// recipients, the date and the subject each in its own row and shown as they are,
/// then the content as it is given, and then the attachments.
pub proof fn law_every_header_is_printed_in_its_row(
    html: Html,
    content: &str,
    from: &str,
    to: &str,
    date: &str,
    subject: &str,
    attachments: &[Attachment],
    list: String,
    page: String,
)
    requires
        call_ensures(Html::print_attachment_list, (attachments,), list),
        call_ensures(
            Html::print_page,
            (&html, content, from, to, date, subject, attachments),
            page,
        ),
    ensures
        exists|f: Seq<char>, t: Seq<char>, d: Seq<char>, s: Seq<char>|
            #[trigger] written_as(f, from@) && #[trigger] written_as(t, to@)
                && #[trigger] written_as(d, date@) && #[trigger] written_as(s, subject@) && page@
                == PRINT_START@ + (if html@.allow_remote {
                CSP_ALLOW_REMOTE@
            } else {
                CSP_BLOCK_REMOTE@
            }) + PRINT_FROM@ + f + PRINT_TO@ + t + PRINT_DATE@ + d + PRINT_SUBJECT@ + s
                + PRINT_BODY@ + content@ + PRINT_ATTACHMENTS@ + list@ + PRINT_END@,
{
    let (f, t) = (sanitizer::escaped(from@), sanitizer::escaped(to@));
    let (d, s) = (sanitizer::escaped(date@), sanitizer::escaped(subject@));
    lemma_written_as(from@);
    lemma_written_as(to@);
    lemma_written_as(date@);
    lemma_written_as(subject@);
    assert(page@ == PRINT_START@ + (if html@.allow_remote {
        CSP_ALLOW_REMOTE@
    } else {
        CSP_BLOCK_REMOTE@
    }) + PRINT_FROM@ + f + PRINT_TO@ + t + PRINT_DATE@ + d + PRINT_SUBJECT@ + s + PRINT_BODY@
        + content@ + PRINT_ATTACHMENTS@ + list@ + PRINT_END@);
}

/// What is printed of a message is its sanitized body, the same that is shown.
pub proof fn law_the_sanitized_body_is_printed(
    html: Html,
    content: &str,
    from: &str,
    to: &str,
    date: &str,
    subject: &str,
    attachments: &[Attachment],
    page: String,
    printed: String,
)
    requires
        content@ == html@.clean(),
        call_ensures(
            Html::print_page,
            (&html, content, from, to, date, subject, attachments),
            page,
        ),
        call_ensures(Html::safe_print, (&html, from, to, date, subject, attachments), printed),
    ensures
        printed@ == page@,
{
}

/// The list of attachments is one item for each, in order and in a line of its own:
/// the name, and in brackets the type where there is one, both shown as they are.
pub proof fn law_every_attachment_is_listed(
    a: Seq<attachment::AttachmentView>,
    b: Seq<attachment::AttachmentView>,
    one: attachment::AttachmentView,
    attachments: &[Attachment],
    list: String,
)
    requires
        call_ensures(Html::print_attachment_list, (attachments,), list),
    ensures
        list@ == attachment_list(Seq::new(attachments@.len(), |i: int| attachments@[i]@)),
        attachment_list(Seq::empty()) == Seq::<char>::empty(),
        a.len() > 0 && b.len() > 0 ==> attachment_list(a + b) == attachment_list(a) + seq!['\n']
            + attachment_list(b),
        one.mime_type is None || one.mime_type->0.len() == 0 ==> exists|name: Seq<char>|
            written_as(name, one.filename) && attachment_list(seq![one]) == #[trigger] ("<li>"@
                + name + "</li>"@),
        one.mime_type is Some && one.mime_type->0.len() > 0 ==> exists|
            name: Seq<char>,
            kind: Seq<char>,
        |
            written_as(name, one.filename) && written_as(kind, one.mime_type->0)
                && attachment_list(seq![one]) == #[trigger] ("<li>"@ + name + " ("@ + kind
                + ")</li>"@),
{
    let item = |x| attachment_item(x);
    assert(attachment::attachment_views(attachments@) =~= Seq::new(
        attachments@.len(),
        |i: int| attachments@[i]@,
    ));
    let none = Seq::<attachment::AttachmentView>::empty();
    assert(none.map_values(item) =~= Seq::<Seq<char>>::empty());
    text::law_joining_puts_separators_between(
        a.map_values(item),
        b.map_values(item),
        attachment_item(one),
        "\n"@,
    );
    assert((a + b).map_values(item) =~= a.map_values(item) + b.map_values(item));
    reveal_strlit("\n");
    assert("\n"@ =~= seq!['\n']);
    assert(seq![one].map_values(item) =~= seq![attachment_item(one)]);
    assert(attachment_list(seq![one]) == attachment_item(one));
    let name = sanitizer::escaped(one.filename);
    lemma_written_as(one.filename);
    match one.mime_type {
        Some(mime_type) if mime_type.len() > 0 => {
            let kind = sanitizer::escaped(mime_type);
            lemma_written_as(mime_type);
            assert(attachment_item(one) == "<li>"@ + name + " ("@ + kind + ")</li>"@);
        },
        _ => {
            assert(attachment_item(one) == "<li>"@ + name + "</li>"@);
        },
    }
}

/// A new message may not reach the network, is shown light, and has no images. Each
/// setting changes nothing but itself, and giving a message its images replaces those
/// that it had.
pub proof fn law_each_setting_changes_itself_alone(
    body: &str,
    strip_css: bool,
    fresh: Html,
    html: Html,
    flag: bool,
    remote: Html,
    dark: Html,
    attachments: &[Attachment],
    inlined: Html,
)
    requires
        call_ensures(Html::new, (body, strip_css), fresh),
        call_ensures(Html::allow_remote, (html, flag), remote),
        call_ensures(Html::dark, (html, flag), dark),
        call_ensures(Html::inline_images, (html, attachments), inlined),
    ensures
        fresh@.body == body@ && fresh@.strip_css == strip_css && !fresh@.allow_remote
            && !fresh@.dark,
        forall|id: Seq<char>| !(#[trigger] fresh@.images.contains_key(id)),
        remote@.allow_remote == flag,
        remote@.body == html@.body && remote@.strip_css == html@.strip_css && remote@.dark
            == html@.dark && remote@.images == html@.images,
        dark@.dark == flag,
        dark@.body == html@.body && dark@.strip_css == html@.strip_css && dark@.allow_remote
            == html@.allow_remote && dark@.images == html@.images,
        inlined@.body == html@.body && inlined@.strip_css == html@.strip_css && inlined@.allow_remote
            == html@.allow_remote && inlined@.dark == html@.dark,
        inlined@.images == images::inlined(
            text::lowercase(html@.body),
            Seq::new(attachments@.len(), |i: int| attachments@[i]@),
        ),
{
    assert(attachment::attachment_views(attachments@) =~= Seq::new(
        attachments@.len(),
        |i: int| attachments@[i]@,
    ));
}

/// The policy of a message is the one that the page carries, and goes by whether the
/// message may reach the network alone.
pub proof fn law_the_policy_goes_by_the_network_alone(html: Html, policy: &str)
    requires
        call_ensures(Html::policy, (&html,), policy),
    ensures
        html@.allow_remote ==> policy@ == CSP_ALLOW_REMOTE@,
        !html@.allow_remote ==> policy@ == CSP_BLOCK_REMOTE@,
{
}

/// A content id is written in an uri as the images look it up.
pub proof fn law_ids_are_written_as_they_are_looked_up(id: &str, a: String, b: String)
    requires
        call_ensures(Html::url_encode, (id,), a),
        call_ensures(images::url_encode, (id,), b),
    ensures
        a@ == b@,
        b@ == images::url_encoded(id@),
{
}

/// Whatever a policy does not name is not loaded, and both let inline images and the
/// style that a message brings be shown. The one of a message that may reach the
/// network lets its style, its images, its fonts and its media come from there.
pub proof fn law_both_policies_allow_nothing_else()
    ensures
        text::begins_with(CSP_BLOCK_REMOTE@, "default-src 'none'; "@),
        text::contains_text(CSP_BLOCK_REMOTE@, "; style-src 'unsafe-inline'; "@),
        text::contains_text(CSP_BLOCK_REMOTE@, "; img-src data:; "@),
        text::stands_at(
            CSP_BLOCK_REMOTE@,
            "; media-src data:"@,
            CSP_BLOCK_REMOTE@.len() - "; media-src data:"@.len(),
        ),
        text::begins_with(CSP_ALLOW_REMOTE@, "default-src 'none'; "@),
        text::contains_text(CSP_ALLOW_REMOTE@, "; style-src 'unsafe-inline' http: https:; "@),
        text::contains_text(CSP_ALLOW_REMOTE@, "; img-src data: http: https:; "@),
        text::contains_text(CSP_ALLOW_REMOTE@, "; font-src http: https:; "@),
        text::stands_at(
            CSP_ALLOW_REMOTE@,
            "; media-src data: http: https:"@,
            CSP_ALLOW_REMOTE@.len() - "; media-src data: http: https:"@.len(),
        ),
        CSP_BLOCK_REMOTE@.len() == "default-src 'none'"@.len() + "; style-src 'unsafe-inline'"@.len()
            + "; img-src data:"@.len() + "; media-src data:"@.len(),
        CSP_ALLOW_REMOTE@.len() == "default-src 'none'"@.len()
            + "; style-src 'unsafe-inline' http: https:"@.len()
            + "; img-src data: http: https:"@.len() + "; font-src http: https:"@.len()
            + "; media-src data: http: https:"@.len(),
{
    reveal_strlit("default-src 'none'");
    reveal_strlit("; style-src 'unsafe-inline'");
    reveal_strlit("; img-src data:");
    reveal_strlit("; style-src 'unsafe-inline' http: https:");
    reveal_strlit("; img-src data: http: https:");
    reveal_strlit("; font-src http: https:");
    reveal_strlit("; font-src http: https:; ");
    reveal_strlit("; img-src data: http: https:; ");
    reveal_strlit("; img-src data:; ");
    reveal_strlit("; media-src data: http: https:");
    reveal_strlit("; media-src data:");
    reveal_strlit("; style-src 'unsafe-inline' http: https:; ");
    reveal_strlit("; style-src 'unsafe-inline'; ");
    reveal_strlit("default-src 'none'; ");
    reveal_strlit("default-src 'none'; style-src 'unsafe-inline' http: https:; img-src data: http: https:; font-src http: https:; media-src data: http: https:");
    reveal_strlit("default-src 'none'; style-src 'unsafe-inline'; img-src data:; media-src data:");
    assert(CSP_BLOCK_REMOTE@.subrange(0, 20) =~= "default-src 'none'; "@);
    assert(text::stands_at(CSP_BLOCK_REMOTE@, "default-src 'none'; "@, 0));
    assert(CSP_BLOCK_REMOTE@.subrange(18, 47) =~= "; style-src 'unsafe-inline'; "@);
    assert(text::stands_at(CSP_BLOCK_REMOTE@, "; style-src 'unsafe-inline'; "@, 18));
    assert(CSP_BLOCK_REMOTE@.subrange(45, 62) =~= "; img-src data:; "@);
    assert(text::stands_at(CSP_BLOCK_REMOTE@, "; img-src data:; "@, 45));
    assert(CSP_BLOCK_REMOTE@.subrange(60, 77) =~= "; media-src data:"@);
    assert(text::stands_at(CSP_BLOCK_REMOTE@, "; media-src data:"@, 60));
    assert(CSP_ALLOW_REMOTE@.subrange(0, 20) =~= "default-src 'none'; "@);
    assert(text::stands_at(CSP_ALLOW_REMOTE@, "default-src 'none'; "@, 0));
    assert(CSP_ALLOW_REMOTE@.subrange(18, 60) =~= "; style-src 'unsafe-inline' http: https:; "@);
    assert(text::stands_at(CSP_ALLOW_REMOTE@, "; style-src 'unsafe-inline' http: https:; "@, 18));
    assert(CSP_ALLOW_REMOTE@.subrange(58, 88) =~= "; img-src data: http: https:; "@);
    assert(text::stands_at(CSP_ALLOW_REMOTE@, "; img-src data: http: https:; "@, 58));
    assert(CSP_ALLOW_REMOTE@.subrange(86, 111) =~= "; font-src http: https:; "@);
    assert(text::stands_at(CSP_ALLOW_REMOTE@, "; font-src http: https:; "@, 86));
    assert(CSP_ALLOW_REMOTE@.subrange(109, 139) =~= "; media-src data: http: https:"@);
    assert(text::stands_at(CSP_ALLOW_REMOTE@, "; media-src data: http: https:"@, 109));
}

/// The forced style is dark on white, or white on dark, for every element.
pub proof fn law_the_forced_styles_are_readable()
    ensures
        text::begins_with(CSS_LIGHT@, "\n<style>\n  * {\n"@),
        text::contains_text(CSS_LIGHT@, " color: black;"@),
        text::contains_text(CSS_LIGHT@, "background-color: white;"@),
        text::stands_at(
            CSS_LIGHT@,
            "}\n</style>\n"@,
            CSS_LIGHT@.len() - "}\n</style>\n"@.len(),
        ),
        text::begins_with(CSS_DARK@, "\n<style>\n  * {\n"@),
        text::contains_text(CSS_DARK@, " color: #ffffff;"@),
        text::contains_text(CSS_DARK@, "background-color: #242424;"@),
        text::stands_at(
            CSS_DARK@,
            "}\n</style>\n"@,
            CSS_DARK@.len() - "}\n</style>\n"@.len(),
        ),
        text::contains_text(CSS_LIGHT@, "font-family: Poppins, Roboto, sans-serif;"@),
        text::contains_text(CSS_LIGHT@, "font-size: 20px;"@),
        text::contains_text(CSS_DARK@, "font-family: Poppins, Roboto, sans-serif;"@),
        text::contains_text(CSS_DARK@, "font-size: 20px;"@),
{
    reveal_strlit("font-size: 20px;");
    reveal_strlit("font-family: Poppins, Roboto, sans-serif;");
    reveal_strlit(" color: #ffffff;");
    reveal_strlit(" color: black;");
    reveal_strlit("\n<style>\n  * {\n");
    reveal_strlit("background-color: #242424;");
    reveal_strlit("background-color: white;");
    reveal_strlit("}\n</style>\n");
    reveal_strlit(r#"
<style>
  * {
    color: #ffffff;
    background-color: #242424;
    font-family: Poppins, Roboto, sans-serif;
    font-size: 20px;
  }
</style>
"#);
    reveal_strlit(r#"
<style>
  * {
    color: black;
    background-color: white;
    font-family: Poppins, Roboto, sans-serif;
    font-size: 20px;
  }
</style>
"#);
    assert(CSS_LIGHT@.subrange(0, 15) =~= "\n<style>\n  * {\n"@);
    assert(text::stands_at(CSS_LIGHT@, "\n<style>\n  * {\n"@, 0));
    assert(CSS_LIGHT@.subrange(18, 32) =~= " color: black;"@);
    assert(text::stands_at(CSS_LIGHT@, " color: black;"@, 18));
    assert(CSS_LIGHT@.subrange(37, 61) =~= "background-color: white;"@);
    assert(text::stands_at(CSS_LIGHT@, "background-color: white;"@, 37));
    assert(CSS_LIGHT@.subrange(131, 142) =~= "}\n</style>\n"@);
    assert(text::stands_at(CSS_LIGHT@, "}\n</style>\n"@, 131));
    assert(CSS_DARK@.subrange(0, 15) =~= "\n<style>\n  * {\n"@);
    assert(text::stands_at(CSS_DARK@, "\n<style>\n  * {\n"@, 0));
    assert(CSS_DARK@.subrange(18, 34) =~= " color: #ffffff;"@);
    assert(text::stands_at(CSS_DARK@, " color: #ffffff;"@, 18));
    assert(CSS_DARK@.subrange(39, 65) =~= "background-color: #242424;"@);
    assert(text::stands_at(CSS_DARK@, "background-color: #242424;"@, 39));
    assert(CSS_DARK@.subrange(135, 146) =~= "}\n</style>\n"@);
    assert(text::stands_at(CSS_DARK@, "}\n</style>\n"@, 135));
    assert(CSS_LIGHT@.subrange(66, 107) =~= "font-family: Poppins, Roboto, sans-serif;"@);
    assert(text::stands_at(CSS_LIGHT@, "font-family: Poppins, Roboto, sans-serif;"@, 66));
    assert(CSS_LIGHT@.subrange(112, 128) =~= "font-size: 20px;"@);
    assert(text::stands_at(CSS_LIGHT@, "font-size: 20px;"@, 112));
    assert(CSS_DARK@.subrange(70, 111) =~= "font-family: Poppins, Roboto, sans-serif;"@);
    assert(text::stands_at(CSS_DARK@, "font-family: Poppins, Roboto, sans-serif;"@, 70));
    assert(CSS_DARK@.subrange(116, 132) =~= "font-size: 20px;"@);
    assert(text::stands_at(CSS_DARK@, "font-size: 20px;"@, 116));
}

/// The head of the page is opened before the policy and closed after it, and so is the
/// attribute that the policy stands in. The body ends the page.
pub proof fn law_the_policy_stands_in_the_head()
    ensures
        text::begins_with(PAGE_START@, "<!doctype html><html><head>"@),
        text::contains_text(PAGE_START@, "<meta charset=\"utf-8\">"@),
        text::stands_at(
            PAGE_START@,
            "<meta http-equiv=\"Content-Security-Policy\" content=\""@,
            PAGE_START@.len() - "<meta http-equiv=\"Content-Security-Policy\" content=\""@.len(),
        ),
        text::begins_with(PAGE_POLICY_END@, "\">"@),
        text::stands_at(
            PAGE_BODY@,
            "</head><body>"@,
            PAGE_BODY@.len() - "</head><body>"@.len(),
        ),
        text::stands_at(
            PAGE_END@,
            "</body></html>"@,
            PAGE_END@.len() - "</body></html>"@.len(),
        ),
        text::begins_with(PRINT_START@, "<!doctype html>"@),
        text::contains_text(PRINT_START@, "<meta charset=\"utf-8\">"@),
        text::stands_at(
            PRINT_START@,
            "<meta http-equiv=\"Content-Security-Policy\" content=\""@,
            PRINT_START@.len() - "<meta http-equiv=\"Content-Security-Policy\" content=\""@.len(),
        ),
        text::begins_with(PRINT_FROM@, "\">"@),
        text::stands_at(
            PRINT_END@,
            "</html>"@,
            PRINT_END@.len() - "</html>"@.len(),
        ),
{
    reveal_strlit("<!doctype html>");
    reveal_strlit("<!doctype html><html><head>");
    reveal_strlit("<!doctype html><html><head><meta charset=\"utf-8\"><meta http-equiv=\"Content-Security-Policy\" content=\"");
    reveal_strlit("</body></html>");
    reveal_strlit("</head><body>");
    reveal_strlit("</html>");
    reveal_strlit("<meta charset=\"utf-8\">");
    reveal_strlit("<meta http-equiv=\"Content-Security-Policy\" content=\"");
    reveal_strlit("\">");
    reveal_strlit(r#"
        </ul>
      </body>
      </html>"#);
    reveal_strlit(r#"">
        <style>
        pre {
            white-space: pre-wrap;
            overflow-wrap: anywhere;
            word-break: break-word;
        }
        th {
            vertical-align: top;
            text-align: left;
        }
        </style>
      </head>
      <body>
        <table class="header">
          <tr><th>From:&nbsp;</th><td>"#);
    reveal_strlit(r#"<!doctype html>
      <html>
      <head>
        <meta charset="utf-8">
        <meta http-equiv="Content-Security-Policy" content=""#);
    assert(PAGE_START@.subrange(0, 27) =~= "<!doctype html><html><head>"@);
    assert(text::stands_at(PAGE_START@, "<!doctype html><html><head>"@, 0));
    assert(PAGE_START@.subrange(27, 49) =~= "<meta charset=\"utf-8\">"@);
    assert(text::stands_at(PAGE_START@, "<meta charset=\"utf-8\">"@, 27));
    assert(PAGE_START@.subrange(49, 101) =~= "<meta http-equiv=\"Content-Security-Policy\" content=\""@);
    assert(text::stands_at(PAGE_START@, "<meta http-equiv=\"Content-Security-Policy\" content=\""@, 49));
    assert(PAGE_POLICY_END@.subrange(0, 2) =~= "\">"@);
    assert(text::stands_at(PAGE_POLICY_END@, "\">"@, 0));
    assert(PAGE_BODY@.subrange(0, 13) =~= "</head><body>"@);
    assert(text::stands_at(PAGE_BODY@, "</head><body>"@, 0));
    assert(PAGE_END@.subrange(0, 14) =~= "</body></html>"@);
    assert(text::stands_at(PAGE_END@, "</body></html>"@, 0));
    assert(PRINT_START@.subrange(0, 15) =~= "<!doctype html>"@);
    assert(text::stands_at(PRINT_START@, "<!doctype html>"@, 0));
    assert(PRINT_START@.subrange(50, 72) =~= "<meta charset=\"utf-8\">"@);
    assert(text::stands_at(PRINT_START@, "<meta charset=\"utf-8\">"@, 50));
    assert(PRINT_START@.subrange(81, 133) =~= "<meta http-equiv=\"Content-Security-Policy\" content=\""@);
    assert(text::stands_at(PRINT_START@, "<meta http-equiv=\"Content-Security-Policy\" content=\""@, 81));
    assert(PRINT_FROM@.subrange(0, 2) =~= "\">"@);
    assert(text::stands_at(PRINT_FROM@, "\">"@, 0));
    assert(PRINT_END@.subrange(35, 42) =~= "</html>"@);
    assert(text::stands_at(PRINT_END@, "</html>"@, 35));
}

/// Each row of the printed page says what it shows, and ends the one before it.
pub proof fn law_every_row_is_labelled()
    ensures
        text::stands_at(
            PRINT_FROM@,
            "<tr><th>From:&nbsp;</th><td>"@,
            PRINT_FROM@.len() - "<tr><th>From:&nbsp;</th><td>"@.len(),
        ),
        text::begins_with(PRINT_TO@, "</td></tr>"@),
        text::stands_at(
            PRINT_TO@,
            "<tr><th>To:&nbsp;</th><td>"@,
            PRINT_TO@.len() - "<tr><th>To:&nbsp;</th><td>"@.len(),
        ),
        text::begins_with(PRINT_DATE@, "</td></tr>"@),
        text::stands_at(
            PRINT_DATE@,
            "<tr><th>Date:&nbsp;</th><td>"@,
            PRINT_DATE@.len() - "<tr><th>Date:&nbsp;</th><td>"@.len(),
        ),
        text::begins_with(PRINT_SUBJECT@, "</td></tr>"@),
        text::stands_at(
            PRINT_SUBJECT@,
            "<tr><th>Subject:&nbsp;</th><td>"@,
            PRINT_SUBJECT@.len() - "<tr><th>Subject:&nbsp;</th><td>"@.len(),
        ),
        text::begins_with(PRINT_BODY@, "</td></tr>"@),
        text::contains_text(PRINT_BODY@, "<div class=\"body\">"@),
        text::contains_text(PRINT_ATTACHMENTS@, "</div>"@),
        text::contains_text(PRINT_ATTACHMENTS@, "<ul>"@),
        text::contains_text(PRINT_END@, "</ul>"@),
        text::contains_text(PRINT_FROM@, "white-space: pre-wrap;"@),
        text::contains_text(PRINT_FROM@, "overflow-wrap: anywhere;"@),
        text::contains_text(PRINT_FROM@, "word-break: break-word;"@),
        text::contains_text(PRINT_FROM@, "vertical-align: top;"@),
        text::contains_text(PRINT_FROM@, "text-align: left;"@),
        text::contains_text(PRINT_FROM@, "<table class=\"header\">"@),
        text::contains_text(PRINT_BODY@, "</table>"@),
        text::contains_text(PRINT_BODY@, "<hr />"@),
        text::contains_text(PRINT_ATTACHMENTS@, "<hr />"@),
{
    reveal_strlit("<hr />");
    reveal_strlit("</table>");
    reveal_strlit("<table class=\"header\">");
    reveal_strlit("text-align: left;");
    reveal_strlit("vertical-align: top;");
    reveal_strlit("word-break: break-word;");
    reveal_strlit("overflow-wrap: anywhere;");
    reveal_strlit("white-space: pre-wrap;");
    reveal_strlit("</div>");
    reveal_strlit("</td></tr>");
    reveal_strlit("</ul>");
    reveal_strlit("<div class=\"body\">");
    reveal_strlit("<tr><th>Date:&nbsp;</th><td>");
    reveal_strlit("<tr><th>From:&nbsp;</th><td>");
    reveal_strlit("<tr><th>Subject:&nbsp;</th><td>");
    reveal_strlit("<tr><th>To:&nbsp;</th><td>");
    reveal_strlit("<ul>");
    reveal_strlit(r#"
        </div>
        <hr />
        <ul>
          "#);
    reveal_strlit(r#"
        </ul>
      </body>
      </html>"#);
    reveal_strlit(r#"">
        <style>
        pre {
            white-space: pre-wrap;
            overflow-wrap: anywhere;
            word-break: break-word;
        }
        th {
            vertical-align: top;
            text-align: left;
        }
        </style>
      </head>
      <body>
        <table class="header">
          <tr><th>From:&nbsp;</th><td>"#);
    reveal_strlit(r#"</td></tr>
          <tr><th>Date:&nbsp;</th><td>"#);
    reveal_strlit(r#"</td></tr>
          <tr><th>Subject:&nbsp;</th><td>"#);
    reveal_strlit(r#"</td></tr>
          <tr><th>To:&nbsp;</th><td>"#);
    reveal_strlit(r#"</td></tr>
        </table>
        <hr />
        <div class="body">
          "#);
    assert(PRINT_FROM@.subrange(322, 350) =~= "<tr><th>From:&nbsp;</th><td>"@);
    assert(text::stands_at(PRINT_FROM@, "<tr><th>From:&nbsp;</th><td>"@, 322));
    assert(PRINT_TO@.subrange(0, 10) =~= "</td></tr>"@);
    assert(text::stands_at(PRINT_TO@, "</td></tr>"@, 0));
    assert(PRINT_TO@.subrange(21, 47) =~= "<tr><th>To:&nbsp;</th><td>"@);
    assert(text::stands_at(PRINT_TO@, "<tr><th>To:&nbsp;</th><td>"@, 21));
    assert(PRINT_DATE@.subrange(0, 10) =~= "</td></tr>"@);
    assert(text::stands_at(PRINT_DATE@, "</td></tr>"@, 0));
    assert(PRINT_DATE@.subrange(21, 49) =~= "<tr><th>Date:&nbsp;</th><td>"@);
    assert(text::stands_at(PRINT_DATE@, "<tr><th>Date:&nbsp;</th><td>"@, 21));
    assert(PRINT_SUBJECT@.subrange(0, 10) =~= "</td></tr>"@);
    assert(text::stands_at(PRINT_SUBJECT@, "</td></tr>"@, 0));
    assert(PRINT_SUBJECT@.subrange(21, 52) =~= "<tr><th>Subject:&nbsp;</th><td>"@);
    assert(text::stands_at(PRINT_SUBJECT@, "<tr><th>Subject:&nbsp;</th><td>"@, 21));
    assert(PRINT_BODY@.subrange(0, 10) =~= "</td></tr>"@);
    assert(text::stands_at(PRINT_BODY@, "</td></tr>"@, 0));
    assert(PRINT_BODY@.subrange(51, 69) =~= "<div class=\"body\">"@);
    assert(text::stands_at(PRINT_BODY@, "<div class=\"body\">"@, 51));
    assert(PRINT_ATTACHMENTS@.subrange(9, 15) =~= "</div>"@);
    assert(text::stands_at(PRINT_ATTACHMENTS@, "</div>"@, 9));
    assert(PRINT_ATTACHMENTS@.subrange(39, 43) =~= "<ul>"@);
    assert(text::stands_at(PRINT_ATTACHMENTS@, "<ul>"@, 39));
    assert(PRINT_END@.subrange(9, 14) =~= "</ul>"@);
    assert(text::stands_at(PRINT_END@, "</ul>"@, 9));
    assert(PRINT_FROM@.subrange(45, 67) =~= "white-space: pre-wrap;"@);
    assert(text::stands_at(PRINT_FROM@, "white-space: pre-wrap;"@, 45));
    assert(PRINT_FROM@.subrange(80, 104) =~= "overflow-wrap: anywhere;"@);
    assert(text::stands_at(PRINT_FROM@, "overflow-wrap: anywhere;"@, 80));
    assert(PRINT_FROM@.subrange(117, 140) =~= "word-break: break-word;"@);
    assert(text::stands_at(PRINT_FROM@, "word-break: break-word;"@, 117));
    assert(PRINT_FROM@.subrange(176, 196) =~= "vertical-align: top;"@);
    assert(text::stands_at(PRINT_FROM@, "vertical-align: top;"@, 176));
    assert(PRINT_FROM@.subrange(209, 226) =~= "text-align: left;"@);
    assert(text::stands_at(PRINT_FROM@, "text-align: left;"@, 209));
    assert(PRINT_FROM@.subrange(289, 311) =~= "<table class=\"header\">"@);
    assert(text::stands_at(PRINT_FROM@, "<table class=\"header\">"@, 289));
    assert(PRINT_BODY@.subrange(19, 27) =~= "</table>"@);
    assert(text::stands_at(PRINT_BODY@, "</table>"@, 19));
    assert(PRINT_BODY@.subrange(36, 42) =~= "<hr />"@);
    assert(text::stands_at(PRINT_BODY@, "<hr />"@, 36));
    assert(PRINT_ATTACHMENTS@.subrange(24, 30) =~= "<hr />"@);
    assert(text::stands_at(PRINT_ATTACHMENTS@, "<hr />"@, 24));
}

/// A message is not refused for its length before it is really long: one whose body
/// is below half of what a `u32` counts, with room for what references and NULs become,
/// fits with whatever images it has, so long as none of them is huge and it does not
/// animate them.
pub proof fn law_ordinary_messages_fit(html: Html, found: bool)
    requires
        call_ensures(Html::fits, (&html,), found),
        vstd::utf8::encode_utf8(html@.body).len() + 2 * html@.body.len() <= 0x8000_0000,
        forall|id: Seq<char>| #[trigger]
            html@.images.contains_key(id) ==> html@.images[id].body.len() <= 0x1000_0000
                && vstd::utf8::encode_utf8(html@.images[id].mime_type).len() <= 0x1000_0000,
        html@.images == Map::<Seq<char>, images::ImageView>::empty() || !text::contains_text(
            text::ascii_lowercase(html@.body),
            "<animate"@,
        ) && !text::contains_text(text::ascii_lowercase(html@.body), "<set"@),
    ensures
        found,
{
    lemma_counts(html@.body);
    assert forall|id: Seq<char>| #[trigger] html@.images.contains_key(id) implies images::fits(
        html@.images[id],
    ) by {
        crate::codec::lemma_base64_len(html@.images[id].body);
    }
}

proof fn lemma_counts(s: Seq<char>)
    ensures
        text::count_char(s, '\0') + text::count_char(s, '&') <= s.len(),
    decreases s.len(),
{
    if s.len() > 0 {
        lemma_counts(s.drop_last());
    }
}

/// A message that fits can be counted: neither the body nor the uri of an image takes
/// more than half of what a `u32` counts, and where the message animates them, all the
/// uris that it mentions together no more than a `u32` counts.
pub proof fn law_what_fits_can_be_counted(html: Html, found: bool, id: Seq<char>)
    requires
        call_ensures(Html::fits, (&html,), found),
        found,
    ensures
        vstd::utf8::encode_utf8(html@.body).len() <= 0x8000_0000,
        html@.images.contains_key(id) ==> {
            let uri = 13 + vstd::utf8::encode_utf8(html@.images[id].mime_type).len()
                + crate::codec::base64(html@.images[id].body).len();
            let lower = text::ascii_lowercase(html@.body);
            &&& uri <= 0x8000_0000
            &&& text::contains_text(lower, "<animate"@) || text::contains_text(lower, "<set"@)
                ==> text::count_text(lower, "cid:"@) * uri <= u32::MAX
        },
{
    if html@.images.contains_key(id) {
        let uri = images::uri_len(html@.images[id]);
        let lower = text::ascii_lowercase(html@.body);
        if text::contains_text(lower, "<animate"@) || text::contains_text(lower, "<set"@) {
            let written = text::count_text(lower, "cid:"@);
            let references = text::count_char(html@.body, '&');
            assert(written * uri <= (written + references) * uri) by (nonlinear_arith);
        }
    }
}

} // verus!
