use mailviewer_core::html::{forced_css, Html};
use mailviewer_core::images::{content_id_of, EncodedImages, InlineImages};
use mailviewer_core::message::attachment::Attachment;

const SHELL: &str = "<!doctype html><html><head><meta charset=\"utf-8\"><meta http-equiv=\"Content-Security-Policy\" content=\"";

#[test]
fn forcing_the_css_follows_the_colour_scheme() {
    let light = Html::new("<p>hi</p>", true).safe();
    let dark = Html::new("<p>hi</p>", true).dark(true).safe();

    assert!(light.contains("background-color: white"));
    assert!(!light.contains("#242424"));
    assert!(dark.contains("background-color: #242424"));
    assert!(!dark.contains("background-color: white"));
}

#[test]
fn the_style_of_the_message_is_left_alone_in_the_dark() {
    // Only the forced css carries our colours; recolouring a message that
    // brings its own style would break as much as it fixes.
    let body = Html::new("<p style=\"color: #333\">hi</p>", false)
        .dark(true)
        .safe();

    assert!(!body.contains("#242424"));
    assert!(body.contains("color: #333"));
}

#[test]
fn the_document_is_ours() {
    let body = Html::new("<p>hello</p>", false).safe();

    assert!(body.starts_with(SHELL), "unexpected shell: {body}");
    assert!(body.ends_with("<p>hello</p></body></html>"));
}

#[test]
fn the_head_of_the_message_is_dropped() {
    // A '>' in an attribute of the head used to swallow the policy back when it
    // was inserted into the html of the message.
    let body = Html::new(
        "<html><head title=\">\"><title>t</title></head><body>hi</body></html>",
        false,
    )
    .safe();

    assert!(body.starts_with(SHELL));
    assert!(!body.contains("title=\">\""));
    assert_eq!(body.matches("Content-Security-Policy").count(), 1);
}

#[test]
fn csp_blocks_remote_content_by_default() {
    let body = Html::new("<p>hello</p>", false).safe();

    assert!(body.contains("img-src data:;"));
    assert!(!body.contains("font-src"));
}

#[test]
fn csp_opens_up_when_remote_content_is_allowed() {
    let body = Html::new("<p>hello</p>", false).allow_remote(true).safe();

    assert!(body.contains("img-src data: http: https:;"));
    assert!(body.contains("font-src http: https:;"));
}

#[test]
fn a_style_of_the_message_is_kept_as_it_is() {
    let message = "<style>td > p { color: red; }</style><p>hi</p>";

    let body = Html::new(message, false).safe();
    assert!(body.contains("<style>td > p { color: red; }</style>"));

    // ... unless the css is forced
    let body = Html::new(message, true).safe();
    assert!(!body.contains("color: red"));
}

#[test]
fn tags_that_are_not_expected_in_a_message_are_dropped() {
    let body = Html::new(
        "<svg><use href=\"http://x/y\"/></svg><base href=\"http://evil/\"><template><img src=\"http://x\"></template>",
        false,
    )
    .safe();

    assert!(!body.contains("<svg"));
    assert!(!body.contains("<base"));
    assert!(!body.contains("<template"));
    assert!(!body.contains("http://"));
}

#[test]
fn a_javascript_link_does_not_survive() {
    let body = Html::new("<a href=\"javascript:alert(1)\">x</a>", false).safe();

    assert!(!body.contains("javascript:"));
}

fn attachment_named(content_id: &str, mime_type: &str) -> Attachment {
    Attachment {
        filename: format!("{content_id}.bin"),
        content_id: content_id.to_string(),
        body: vec![1, 2, 3],
        mime_type: Some(mime_type.to_string()),
    }
}

#[test]
fn an_inline_image_shows_the_bytes_of_its_attachment() {
    let html = Html::new("<img src=\"cid:ii_1\">", false)
        .inline_images(&[attachment_named("ii_1", "image/png")]);
    assert!(html.fits());
    let body = html.safe();

    assert!(!body.contains("cid:"), "a cid: source was left behind");
    assert!(body.contains("<img src=\"data:image/png;base64,AQID\">"));
}

#[test]
fn an_animation_may_list_no_more_images_than_can_be_counted() {
    // An uri of 22 + 4 * 178_944 bytes, 6_000 times, leaves 179_295 bytes.
    let image = Attachment {
        body: vec![0; 3 * 178_944],
        ..attachment_named("big", "image/png")
    };
    let listing = |element: &str, len: usize| {
        let mut body = format!("<svg><{element} values=\"{}\"></svg>", "CID:big;".repeat(6_000));
        body.push_str(&"a".repeat(len - body.len()));
        Html::new(&body, false).inline_images(&[image.clone()])
    };

    assert!(listing("animate", 179_295).fits());
    assert!(!listing("animate", 179_296).fits());
    assert!(!listing("AnimateMotion", 179_296).fits());
    assert!(!listing("set", 179_296).fits());
    assert!(listing("a", 179_296).fits());
    assert!(Html::new(&format!("<set>{}", "cid:big;".repeat(60_000)), false).fits());

    let few = "<svg><animate attributeName=\"src\" values=\"cid:big;cid:big\"></svg>";
    let html = Html::new(few, false).inline_images(&[image.clone()]);
    assert!(html.fits());
    assert!(!html.safe().contains("cid:"));
}

#[test]
fn a_reference_or_a_nul_counts_for_what_it_becomes() {
    // 6_000 references take as much room as 6_000 values, and one byte each.
    let image = Attachment {
        body: vec![0; 3 * 178_944],
        ..attachment_named("big", "image/png")
    };
    let listing = |filler: &str| {
        let body = format!("<set values=\"cid:big\">{}{filler}", "&".repeat(5_999));
        Html::new(&body, false).inline_images(&[image.clone()])
    };
    // The filler may take 179_295 - 22 - 2 * 5_999 bytes.
    assert!(listing(&"a".repeat(167_275)).fits());
    assert!(!listing(&"a".repeat(167_276)).fits());
    assert!(listing(&"\0".repeat(167_275 / 3)).fits());
    assert!(!listing(&"\0".repeat(167_275 / 3 + 1)).fits());
}

#[test]
fn only_the_images_the_message_uses_are_encoded() {
    let used = attachment_named("used", "image/png");
    let unused = attachment_named("unused", "application/pdf");

    let html =
        Html::new("<img src=\"cid:used\">", false).inline_images(&[used.clone(), unused.clone()]);
    let body = html.safe();
    assert!(body.contains("data:image/png;base64,"));
    assert_eq!(html.encoded_image_count(), 1);

    let html = Html::new("<p>no images here</p>", false).inline_images(&[used, unused]);
    html.safe();
    assert_eq!(html.encoded_image_count(), 0);
}

#[test]
fn cid_text_not_encoded() {
    let attachment = Attachment {
        filename: "image.png".to_string(),
        content_id: "ii_m2lqbrhv0".to_string(),
        body: vec![1, 2, 3],
        mime_type: Some("image/png".to_string()),
    };
    let html = Html::new("<pre>cid:ii_m2lqbrhv0</pre>", false).inline_images(&[attachment]);

    assert_eq!(html.encoded_image_count(), 0);
    assert!(html.safe().contains("<pre>cid:ii_m2lqbrhv0</pre>"));
}

#[test]
fn cid_case_insensitive() {
    let attachment = Attachment {
        filename: "image.png".to_string(),
        content_id: "ii_m2lqbrhv0".to_string(),
        body: vec![1, 2, 3],
        mime_type: Some("image/png".to_string()),
    };
    let body = Html::new("<img src=\"CID:II_M2LQBRHV0\">", false)
        .inline_images(&[attachment])
        .safe();

    assert!(body.contains("<img src=\"data:image/png;base64,"));
}

#[test]
fn a_cid_that_is_not_an_image_source_is_never_encoded() {
    // The body scan is coarser than the rewriting on purpose, so a reference
    // from anywhere else must not end up costing an encoding.
    let attachment = attachment_named("thing", "application/pdf");
    let html = Html::new("<a href=\"cid:thing\">link</a>", false).inline_images(&[attachment]);
    let body = html.safe();

    assert_eq!(html.encoded_image_count(), 0);
    assert!(!body.contains("base64,"));
    assert!(!body.contains("cid:"));
}

#[test]
fn the_same_image_twice_is_encoded_once() {
    let attachment = attachment_named("twice", "image/png");
    let html = Html::new("<img src=\"cid:twice\"><img src=\"CID:TWICE\">", false)
        .inline_images(&[attachment]);
    let body = html.safe();

    assert_eq!(html.encoded_image_count(), 1);
    assert_eq!(body.matches("data:image/png;base64,").count(), 2);
}

#[test]
fn a_cid_outside_an_image_source_is_dropped() {
    let body = Html::new("<a href=\"cid:whatever\">link</a>", false).safe();

    assert!(!body.contains("cid:"));
    assert!(!body.contains("href="));
    assert!(body.contains("link"));
}

#[test]
fn an_inline_image_without_its_attachment_is_dropped() {
    let body = Html::new("<img src=\"cid:nothing\">", false).safe();

    assert!(!body.contains("cid:"));
    assert!(!body.contains("src="));
}

fn attachment(filename: &str, mime_type: Option<&str>) -> Attachment {
    Attachment {
        filename: filename.to_string(),
        content_id: String::new(),
        body: vec![],
        mime_type: mime_type.map(String::from),
    }
}

#[test]
fn print_attachment_list_escapes_both_fields() {
    let list = Html::print_attachment_list(&[
        attachment("Deus_Gnome.png", Some("image/png")),
        attachment("a&b<c>.txt", Some("text/plain")),
        attachment("report.pdf", Some("application/pdf\"><img src=x>")),
        attachment("no-mime.bin", None),
        attachment("empty-mime.bin", Some("")),
    ]);

    assert_eq!(
        list,
        "<li>Deus_Gnome.png (image&#47;png)</li>\n\
         <li>a&amp;b&lt;c&gt;.txt (text&#47;plain)</li>\n\
         <li>report.pdf (application&#47;pdf&quot;&gt;&lt;img&#32;src&#61;x&gt;)</li>\n\
         <li>no-mime.bin</li>\n\
         <li>empty-mime.bin</li>"
    );
}

#[test]
fn the_printed_page_carries_the_policy_in_its_own_head() {
    let html = Html::new("<p>hi</p>", false);
    let policy = html.policy().to_string();

    let page = html.safe_print(
        "john@moon.space",
        "lucas@mercure.space",
        "2026-08-18",
        "Lorem ipsum",
        &[],
    );

    let head = page.find("<head>").unwrap();
    let meta = page.find("Content-Security-Policy").unwrap();
    let body = page.find("<body>").unwrap();

    assert!(head < meta && meta < body, "the policy must be in the head");
    assert!(page.contains(&format!("content=\"{policy}\"")));
}

#[test]
fn the_printed_page_is_a_single_document() {
    // The message used to be embedded with safe(), which brought a whole
    // document along, and the policy ended up outside of any head.
    let page = Html::new("<p>hi</p>", false).safe_print("from", "to", "date", "subject", &[]);

    assert_eq!(page.matches("<!doctype").count(), 1);
    assert_eq!(page.matches("<html").count(), 1);
    assert_eq!(page.matches("<head>").count(), 1);
    assert_eq!(page.matches("Content-Security-Policy").count(), 1);
}

// RFC 2392 -> Errata 454
// https://errata.rfc-editor.org/search/?rfc_number=2392&presentation=records
// Content-ID is not url encoded, but a cid: source in a message is url encoded
#[test]
fn test_cid_url_encoded() {
    let attachment = Attachment {
        filename: "image.png".to_string(),
        content_id: "foo4%foo1@bar.net".to_string(),
        body: vec![1, 2, 3],
        mime_type: Some("image/png".to_string()),
    };

    assert_eq!(Html::url_encode("foo4%foo1@bar.net"), "foo4%25foo1@bar.net");

    let body = Html::new(r#"<img src="cid:foo4%25foo1@bar.net">"#, false)
        .inline_images(&[attachment])
        .safe();

    assert!(body.contains("<img src=\"data:image/png;base64,"));
}

#[test]
fn url_encode_keeps_plain_characters() {
    assert_eq!(Html::url_encode("aZ09-._~@"), "aZ09-._~@");
    assert_eq!(Html::url_encode("a b/c?d"), "a%20b%2Fc%3Fd");
    assert_eq!(Html::url_encode("\u{1}\u{7f}"), "%01%7F");
    assert_eq!(Html::url_encode("é"), "é");
    assert_eq!(Html::url_encode("cut\0off"), "cut");
    assert_eq!(Html::url_encode(""), "");
}

#[test]
fn escape_leaves_nothing_that_html_reads() {
    assert_eq!(
        Html::escape("<>\"'`/&= \t\n\u{c}\r\0é-x"),
        "&lt;&gt;&quot;&apos;&grave;&#47;&amp;&#61;&#32;&#9;&#10;&#12;&#13;&#65533;é-x"
    );
}

#[test]
fn the_whole_page() {
    let html = Html::new("<p>hello</p>", false);

    assert_eq!(
        html.safe(),
        "<!doctype html><html><head><meta charset=\"utf-8\"><meta http-equiv=\"Content-Security-Policy\" \
         content=\"default-src 'none'; style-src 'unsafe-inline'; img-src data:; media-src data:\">\
         </head><body><p>hello</p></body></html>"
    );
    assert_eq!(html.page("<p>hello</p>"), html.safe());
}

#[test]
fn the_forced_css_stands_in_the_head() {
    let page = Html::new("x", true).dark(true).allow_remote(true).safe();

    assert_eq!(
        page,
        format!(
            "{SHELL}default-src 'none'; style-src 'unsafe-inline' http: https:; img-src data: http: https:; \
             font-src http: https:; media-src data: http: https:\">{}</head><body>x</body></html>",
            forced_css(true)
        )
    );
}

#[test]
fn the_head_does_not_depend_on_the_message() {
    let a = Html::new("</body></html><head>", true).safe();
    let b = Html::new("<p>quiet</p>", true).safe();
    let end = a.find("<body>").unwrap();

    assert_eq!(a[..end], b[..end]);
}

#[test]
fn the_colour_scheme_only_counts_when_the_css_is_forced() {
    let light = Html::new("<p>hi</p>", false).dark(false).safe();
    let dark = Html::new("<p>hi</p>", false).dark(true).safe();

    assert_eq!(light, dark);
}

#[test]
fn the_printed_page_as_a_whole() {
    let html = Html::new("<b>x</b>", false);
    let page = html.safe_print("A <a@b>", "to", "now", "1=1", &[attachment("f.txt", None)]);

    assert_eq!(
        page,
        r#"<!doctype html>
      <html>
      <head>
        <meta charset="utf-8">
        <meta http-equiv="Content-Security-Policy" content="default-src 'none'; style-src 'unsafe-inline'; img-src data:; media-src data:">
        <style>
        pre {
            white-space: pre-wrap;
            overflow-wrap: anywhere;
            word-break: break-word;
        }
        th {
            vertical-align: top;
            text-align: left;
        }
        </style>
      </head>
      <body>
        <table class="header">
          <tr><th>From:&nbsp;</th><td>A&#32;&lt;a@b&gt;</td></tr>
          <tr><th>To:&nbsp;</th><td>to</td></tr>
          <tr><th>Date:&nbsp;</th><td>now</td></tr>
          <tr><th>Subject:&nbsp;</th><td>1&#61;1</td></tr>
        </table>
        <hr />
        <div class="body">
          <b>x</b>
        </div>
        <hr />
        <ul>
          <li>f.txt</li>
        </ul>
      </body>
      </html>"#
    );
}

#[test]
fn content_ids_are_found_without_case() {
    assert_eq!(content_id_of("cid:abc"), Some("abc"));
    assert_eq!(content_id_of("CiD:Abc"), Some("Abc"));
    assert_eq!(content_id_of("cid:"), Some(""));
    assert_eq!(content_id_of("cid"), None);
    assert_eq!(content_id_of("http://x"), None);
    assert_eq!(content_id_of("éé"), None);
    assert_eq!(content_id_of("ciéd:x"), None);
}

#[test]
fn rewriting_an_attribute_twice_encodes_once() {
    let images = InlineImages::of("<img src=\"cid:a@b\">", &[attachment_named("A@B", "image/gif")]);
    let mut encoded = EncodedImages::new();

    assert_eq!(
        images.rewrite(&mut encoded, "img", "src", "http://x").as_deref(),
        Some("http://x")
    );
    assert_eq!(images.rewrite(&mut encoded, "a", "href", "cid:a@b"), None);
    assert_eq!(images.rewrite(&mut encoded, "img", "src", "cid:other"), None);
    assert_eq!(encoded.len(), 0);

    assert_eq!(
        images.rewrite(&mut encoded, "img", "src", "cid:a@b").as_deref(),
        Some("data:image/gif;base64,AQID")
    );
    assert_eq!(encoded.len(), 1);
    assert_eq!(
        images.rewrite(&mut encoded, "img", "src", "CID:A@B").as_deref(),
        Some("data:image/gif;base64,AQID")
    );
    assert_eq!(encoded.len(), 1);
}

#[test]
fn what_is_shown_is_encoded() {
    let used = attachment_named("used", "image/png");
    let other = attachment_named("other", "image/png");
    let html = Html::new(
        "<img src=\"cid:used\"><img src=\"CID:USED\"><a href=\"cid:other\">x</a><p>cid:other</p>",
        false,
    )
    .inline_images(&[used, other]);
    let mut encoded = EncodedImages::default();

    let once = html.clean_with(&mut encoded);
    assert_eq!(encoded.len(), 1);
    assert_eq!(html.clean_with(&mut encoded), once);
    assert_eq!(encoded.len(), 1);
    // What is encoded here does not count for the message.
    assert_eq!(html.encoded_image_count(), 0);
    assert_eq!(html.page(&once), html.safe());
    assert_eq!(html.encoded_image_count(), 1);

    let plain = Html::new("<p>no images here</p>", false);
    let mut none = EncodedImages::new();
    plain.clean_with(&mut none);
    assert_eq!(none.len(), 0);
}

#[test]
fn what_was_encoded_is_kept() {
    let html = Html::new("<img src=\"cid:x\">", false)
        .inline_images(&[attachment_named("x", "image/png")]);
    html.safe();
    assert_eq!(html.encoded_image_count(), 1);

    let html = html.inline_images(&[]).dark(true).allow_remote(true);
    assert_eq!(html.encoded_image_count(), 1);
    assert!(!html.safe().contains("base64,"));

    let html = html.inline_images(&[attachment_named("x", "image/png")]);
    assert!(html.safe().contains("data:image/png;base64,AQID"));
    assert_eq!(html.encoded_image_count(), 1);

    // Another image under the same id is the one that is shown.
    let mut other = attachment_named("x", "image/png");
    other.body = vec![255];
    let html = html.inline_images(&[other]);
    assert!(html.safe().contains("data:image/png;base64,/w=="));
    assert_eq!(html.encoded_image_count(), 1);
}

#[test]
fn an_encoded_id_is_found_without_case() {
    for source in ["a%2Bb@x.net", "A%2bB@X.net"] {
        let attachment = Attachment {
            filename: "a.png".to_string(),
            content_id: "a+b@x.net".to_string(),
            body: vec![1, 2, 3],
            mime_type: Some("image/png".to_string()),
        };
        let body = Html::new(&format!("<img src=\"cid:{source}\">"), false)
            .inline_images(&[attachment])
            .safe();

        assert!(body.contains("<img src=\"data:image/png;base64,AQID\">"));
    }
}

#[test]
fn the_later_of_two_images_with_the_same_id_counts() {
    let mut second = attachment_named("same", "image/jpeg");
    second.body = vec![255];
    let body = Html::new("<img src=\"cid:same\">", false)
        .inline_images(&[attachment_named("same", "image/png"), second])
        .safe();

    assert!(body.contains("<img src=\"data:image/jpeg;base64,/w==\">"));
}

#[test]
fn an_attachment_without_a_type_or_an_id_is_no_image() {
    let mut untyped = attachment_named("x", "");
    untyped.mime_type = None;
    let unnamed = attachment_named("", "image/png");
    let body = Html::new("<img src=\"cid:x\"><img src=\"cid:\">", false)
        .inline_images(&[untyped, unnamed])
        .safe();

    assert!(!body.contains("base64,"));
    assert!(!body.contains("src="));
}

#[test]
fn the_policy_does_not_change_the_content() {
    let closed = Html::new("<img src=\"http://x/y\">", false).safe();
    let open = Html::new("<img src=\"http://x/y\">", false)
        .allow_remote(true)
        .safe();

    assert_ne!(closed, open);
    assert_eq!(
        closed[closed.find("<body>").unwrap()..],
        open[open.find("<body>").unwrap()..]
    );
}
