use email_cli::{
    extract_part_bytes, parse_message_bytes, render_message_text, sha256_hex,
    text_looks_like_html, HeaderScope, QuoteMode, RenderOptions,
};

const SIMPLE: &[u8] = br#"Message-ID: <root@example.com>
Date: Wed, 27 May 2026 10:00:00 +0000
From: Alice <alice@example.com>
To: Bob <bob@example.com>
Subject: Project update
Content-Type: text/plain; charset=utf-8

Fresh line.

On Tue, Bob wrote:
> quoted line
"#;

const ATTACHMENT: &[u8] = b"Message-ID: <attach@example.com>\r\nDate: Wed, 27 May 2026 10:00:00 +0000\r\nFrom: Alice <alice@example.com>\r\nTo: Bob <bob@example.com>\r\nSubject: Attachment\r\nMIME-Version: 1.0\r\nContent-Type: multipart/mixed; boundary=\"b\"\r\n\r\n--b\r\nContent-Type: text/plain; charset=utf-8\r\n\r\nSee attached.\r\n--b\r\nContent-Type: text/plain; name=\"note.txt\"\r\nContent-Disposition: attachment; filename=\"note.txt\"\r\nContent-Transfer-Encoding: base64\r\n\r\nSGVsbG8K\r\n--b--\r\n";

const OUTLOOK_REPLY: &[u8] = br#"Message-ID: <outlook@example.com>
Date: Wed, 27 May 2026 10:00:00 +0000
From: Bob <bob@example.com>
To: Alice <alice@example.com>
Subject: Re: Project update
Content-Type: text/plain; charset=utf-8

Sounds good, see answers below.

________________________________
From: Alice <alice@example.com>
Sent: Wednesday, 27 May 2026 09:00:00
To: Bob <bob@example.com>
Subject: Project update

Original message text that carries no quote markers.
"#;

#[test]
fn parses_message_with_fresh_and_quoted_fragments() {
    let dto = parse_message_bytes("simple.eml", SIMPLE, RenderOptions::default()).unwrap();
    assert_eq!(dto.message.message_id.as_deref(), Some("root@example.com"));
    assert!(dto.body.text.contains("Fresh line."));
    assert!(dto.body.fragments.iter().any(|f| f.kind == "fresh"));
    assert!(dto.body.fragments.iter().any(|f| f.kind == "quoted"));
    assert!(dto.body.fragments.iter().any(|p| p.part_id == "1"));
}

#[test]
fn renders_quotes_collapsed() {
    let dto = parse_message_bytes("simple.eml", SIMPLE, RenderOptions::default()).unwrap();
    let text = render_message_text(&dto, QuoteMode::Collapse);
    assert!(text.contains("Fresh line."));
    assert!(text.contains("quoted content collapsed"));
}

#[test]
fn text_rendering_does_not_list_body_parts_as_attachments() {
    let dto = parse_message_bytes("simple.eml", SIMPLE, RenderOptions::default()).unwrap();
    let text = render_message_text(&dto, QuoteMode::Keep);
    assert!(!text.contains("Attachments and parts:"));
}

#[test]
fn includes_single_part_root_attachment_metadata() {
    let raw = b"Message-ID: <root-attachment@example.com>\r\nDate: Wed, 27 May 2026 10:00:00 +0000\r\nFrom: Alice <alice@example.com>\r\nTo: Bob <bob@example.com>\r\nSubject: Attachment root\r\nContent-Type: text/plain; name=\"note.txt\"\r\nContent-Disposition: attachment; filename=\"note.txt\"\r\nContent-Transfer-Encoding: base64\r\n\r\nSGVsbG8K\r\n";
    let dto = parse_message_bytes("root-attachment.eml", raw, RenderOptions::default()).unwrap();
    assert_eq!(dto.parts.len(), 1);
    assert_eq!(dto.parts[0].part_id, "1");
    assert_eq!(dto.parts[0].kind, "attachment");
    assert_eq!(extract_part_bytes(raw, "1").unwrap(), b"Hello\n");
}

#[test]
fn extracts_attachment_by_mime_path_id() {
    let dto = parse_message_bytes("attach.eml", ATTACHMENT, RenderOptions::default()).unwrap();
    let attachment = dto
        .parts
        .iter()
        .find(|part| part.kind == "attachment")
        .unwrap();
    assert_eq!(attachment.part_id, "1.2");
    assert_eq!(attachment.filename.as_deref(), Some("note.txt"));
    assert_eq!(extract_part_bytes(ATTACHMENT, "1.2").unwrap(), b"Hello\n");
}

#[test]
fn extracts_nested_rfc822_message_bytes() {
    let raw = b"Message-ID: <outer@example.com>\r\nDate: Wed, 27 May 2026 10:00:00 +0000\r\nFrom: Alice <alice@example.com>\r\nTo: Bob <bob@example.com>\r\nSubject: Forwarded message\r\nMIME-Version: 1.0\r\nContent-Type: multipart/mixed; boundary=\"b\"\r\n\r\n--b\r\nContent-Type: text/plain; charset=utf-8\r\n\r\nForwarded below.\r\n--b\r\nContent-Type: message/rfc822\r\nContent-Disposition: attachment; filename=\"forwarded.eml\"\r\n\r\nMessage-ID: <nested@example.com>\r\nDate: Wed, 27 May 2026 09:00:00 +0000\r\nFrom: Carol <carol@example.com>\r\nTo: Alice <alice@example.com>\r\nSubject: Nested\r\nContent-Type: text/plain; charset=utf-8\r\n\r\nNested body.\r\n--b--\r\n";
    let dto = parse_message_bytes("outer.eml", raw, RenderOptions::default()).unwrap();
    let nested = dto
        .parts
        .iter()
        .find(|part| part.content_type == "message/rfc822")
        .unwrap();
    assert_eq!(nested.part_id, "1.2");
    assert_eq!(nested.kind, "attachment");
    assert!(nested.extractable);
    assert!(nested.decoded_size_bytes > 0);
    let extracted = extract_part_bytes(raw, "1.2").unwrap();
    assert!(String::from_utf8_lossy(&extracted).contains("Message-ID: <nested@example.com>"));
    assert_eq!(
        dto.nested_messages[0].message_id.as_deref(),
        Some("nested@example.com")
    );
}

#[test]
fn html_only_bodies_report_source_and_alternatives() {
    let raw = br#"Message-ID: <html-only@example.com>
Date: Wed, 27 May 2026 10:00:00 +0000
From: Alice <alice@example.com>
To: Bob <bob@example.com>
Subject: HTML only
Content-Type: text/html; charset=utf-8

<html><body><p>Hello <b>Bob</b></p></body></html>
"#;
    let dto = parse_message_bytes("html.eml", raw, RenderOptions::default()).unwrap();
    assert!(dto.body.html_available);
    assert_eq!(dto.body.text_source, "html");
    assert!(dto.body.html.is_none());
    assert!(
        dto.body
            .alternatives
            .iter()
            .any(|alternative| alternative.kind == "html")
    );
    assert!(
        dto.diagnostics
            .iter()
            .any(|diagnostic| diagnostic.code == "HTML_CONVERTED_TO_TEXT")
    );
}

#[test]
fn records_body_truncation() {
    let options = RenderOptions {
        max_body_bytes: 12,
        ..RenderOptions::default()
    };
    let dto = parse_message_bytes("simple.eml", SIMPLE, options).unwrap();
    assert!(dto.body.truncation.truncated);
    assert!(
        dto.diagnostics
            .iter()
            .any(|diagnostic| diagnostic.code == "BODY_TRUNCATED")
    );
    for fragment in dto
        .body
        .fragments
        .iter()
        .filter(|fragment| fragment.truncated)
    {
        let bytes = &dto.body.text.as_bytes()[fragment.byte_range[0]..fragment.byte_range[1]];
        assert_eq!(fragment.sha256, sha256_hex(bytes));
    }
}

#[test]
fn outlook_separator_marks_tail_as_quoted() {
    let dto = parse_message_bytes("outlook.eml", OUTLOOK_REPLY, RenderOptions::default()).unwrap();
    let quoted = dto
        .body
        .fragments
        .iter()
        .filter(|fragment| fragment.kind == "quoted")
        .collect::<Vec<_>>();
    assert_eq!(quoted.len(), 1);
    assert_eq!(quoted[0].byte_range[1], dto.body.text.len());
    let quoted_text = &dto.body.text[quoted[0].byte_range[0]..quoted[0].byte_range[1]];
    assert!(quoted_text.starts_with("________________________________"));
    assert!(quoted_text.contains("Original message text"));

    let rendered = render_message_text(&dto, QuoteMode::Drop);
    assert!(rendered.contains("Sounds good"));
    assert!(!rendered.contains("Original message text"));
}

#[test]
fn original_message_divider_marks_tail_as_quoted() {
    let raw = br#"Message-ID: <divider@example.com>
Date: Wed, 27 May 2026 10:00:00 +0000
From: Bob <bob@example.com>
To: Alice <alice@example.com>
Subject: RE: Project update
Content-Type: text/plain; charset=utf-8

Agreed.

-----Original Message-----
From: Alice <alice@example.com>

Earlier text without markers.
"#;
    let dto = parse_message_bytes("divider.eml", raw, RenderOptions::default()).unwrap();
    let rendered = render_message_text(&dto, QuoteMode::Drop);
    assert!(rendered.contains("Agreed."));
    assert!(!rendered.contains("Earlier text without markers."));
}

#[test]
fn embedded_header_block_marks_tail_as_quoted() {
    let raw = br#"Message-ID: <block@example.com>
Date: Wed, 27 May 2026 10:00:00 +0000
From: Bob <bob@example.com>
To: Alice <alice@example.com>
Subject: RE: Project update
Content-Type: text/plain; charset=utf-8

Works for me.

From: Alice <alice@example.com>
Sent: Wednesday, 27 May 2026 09:00:00
To: Bob <bob@example.com>
Subject: Project update

Earlier text without markers.
"#;
    let dto = parse_message_bytes("block.eml", raw, RenderOptions::default()).unwrap();
    let rendered = render_message_text(&dto, QuoteMode::Drop);
    assert!(rendered.contains("Works for me."));
    assert!(!rendered.contains("Earlier text without markers."));
}

#[test]
fn collapse_marker_counts_lines() {
    let dto = parse_message_bytes("simple.eml", SIMPLE, RenderOptions::default()).unwrap();
    let rendered = render_message_text(&dto, QuoteMode::Collapse);
    assert!(rendered.contains("[quoted content collapsed: 2 lines]"));
}

#[test]
fn text_body_with_markup_gets_diagnostic() {
    let raw = br#"Message-ID: <markup@example.com>
Date: Wed, 27 May 2026 10:00:00 +0000
From: Alice <alice@example.com>
To: Bob <bob@example.com>
Subject: Markup
Content-Type: text/plain; charset=utf-8

Hi Bob,

<p style="font-family: Arial;">Rate us!</p><a href="https://example.com">link</a>
"#;
    let dto = parse_message_bytes("markup.eml", raw, RenderOptions::default()).unwrap();
    assert!(
        dto.diagnostics
            .iter()
            .any(|diagnostic| diagnostic.code == "TEXT_BODY_CONTAINS_HTML")
    );
}

#[test]
fn clean_text_body_gets_no_markup_diagnostic() {
    let dto = parse_message_bytes("simple.eml", SIMPLE, RenderOptions::default()).unwrap();
    assert!(
        dto.diagnostics
            .iter()
            .all(|diagnostic| diagnostic.code != "TEXT_BODY_CONTAINS_HTML")
    );
    assert!(!text_looks_like_html("a<b and c>d hold, even a </ alone"));
    assert!(text_looks_like_html("closing </p> tag"));
}

#[test]
fn body_source_alternative_is_deduplicated() {
    let dto = parse_message_bytes("simple.eml", SIMPLE, RenderOptions::default()).unwrap();
    let alternative = &dto.body.alternatives[0];
    assert_eq!(alternative.same_as.as_deref(), Some("body.text"));
    assert!(alternative.text.is_none());
    assert!(alternative.decoded_size_bytes > 0);
    assert!(!alternative.decoded_sha256.is_empty());
    assert_eq!(dto.body.text_part_id.as_deref(), Some("1"));
}

#[test]
fn html_alternative_dedups_against_body_html() {
    let raw = b"Message-ID: <alt@example.com>\r\nDate: Wed, 27 May 2026 10:00:00 +0000\r\nFrom: Alice <alice@example.com>\r\nTo: Bob <bob@example.com>\r\nSubject: Alternative\r\nMIME-Version: 1.0\r\nContent-Type: multipart/alternative; boundary=\"b\"\r\n\r\n--b\r\nContent-Type: text/plain; charset=utf-8\r\n\r\nPlain body.\r\n--b\r\nContent-Type: text/html; charset=utf-8\r\n\r\n<p>HTML body.</p>\r\n--b--\r\n";
    let options = RenderOptions {
        include_html: true,
        ..RenderOptions::default()
    };
    let dto = parse_message_bytes("alt.eml", raw, options).unwrap();
    assert!(dto.body.html.is_some());
    let html_alternative = dto
        .body
        .alternatives
        .iter()
        .find(|alternative| alternative.kind == "html")
        .unwrap();
    assert_eq!(html_alternative.same_as.as_deref(), Some("body.html"));
    assert!(html_alternative.html.is_none());
    let text_alternative = dto
        .body
        .alternatives
        .iter()
        .find(|alternative| alternative.kind == "text")
        .unwrap();
    assert_eq!(text_alternative.same_as.as_deref(), Some("body.text"));
    assert!(text_alternative.text.is_none());
}

#[test]
fn html_alternative_dedups_even_when_truncated() {
    let raw = b"Message-ID: <alt-trunc@example.com>\r\nDate: Wed, 27 May 2026 10:00:00 +0000\r\nFrom: Alice <alice@example.com>\r\nTo: Bob <bob@example.com>\r\nSubject: Alternative\r\nMIME-Version: 1.0\r\nContent-Type: multipart/alternative; boundary=\"b\"\r\n\r\n--b\r\nContent-Type: text/plain; charset=utf-8\r\n\r\nPlain body.\r\n--b\r\nContent-Type: text/html; charset=utf-8\r\n\r\n<p>HTML body that is long enough to be truncated by the byte limit.</p>\r\n--b--\r\n";
    let options = RenderOptions {
        include_html: true,
        max_body_bytes: 24,
        ..RenderOptions::default()
    };
    let dto = parse_message_bytes("alt-trunc.eml", raw, options).unwrap();
    let body_html = dto.body.html.as_deref().unwrap();
    assert!(body_html.contains("truncated by the byte limit"));
    let html_alternative = dto
        .body
        .alternatives
        .iter()
        .find(|alternative| alternative.kind == "html")
        .unwrap();
    assert_eq!(html_alternative.same_as.as_deref(), Some("body.html"));
    assert!(html_alternative.html.is_none());
    assert!(!html_alternative.truncated);
}

#[test]
fn standard_headers_omit_transport_noise() {
    let raw =
        br#"Received: from mail.example.com by mx.example.com; Wed, 27 May 2026 10:00:01 +0000
DKIM-Signature: v=1; a=rsa-sha256; d=example.com; s=default; b=abc123
X-Custom-Tracker: opaque
Message-ID: <headers@example.com>
Date: Wed, 27 May 2026 10:00:00 +0000
From: Alice <alice@example.com>
To: Bob <bob@example.com>
Subject: Headers
Content-Type: text/plain; charset=utf-8

Body.
"#;
    let dto = parse_message_bytes("headers.eml", raw, RenderOptions::default()).unwrap();
    assert!(
        dto.headers
            .iter()
            .all(|header| !matches!(header.name.as_str(), "Received" | "DKIM-Signature"))
    );
    assert!(dto.headers.iter().any(|header| header.name == "Subject"));
    assert_eq!(dto.headers_omitted, 3);

    let all = parse_message_bytes(
        "headers.eml",
        raw,
        RenderOptions {
            headers: HeaderScope::All,
            ..RenderOptions::default()
        },
    )
    .unwrap();
    assert!(all.headers.iter().any(|header| header.name == "Received"));
    assert!(
        all.headers
            .iter()
            .any(|header| header.name == "X-Custom-Tracker")
    );
    assert_eq!(all.headers_omitted, 0);
}

#[test]
fn quote_depth_counts_spaced_markers() {
    let dto = parse_message_bytes(
        "spaced.eml",
        br#"Message-ID: <spaced@example.com>
Subject: Spaced
Content-Type: text/plain; charset=utf-8

> > nested quote
"#,
        RenderOptions::default(),
    )
    .unwrap();
    assert!(
        dto.body
            .fragments
            .iter()
            .any(|fragment| fragment.kind == "quoted" && fragment.quote_depth == 2)
    );
}

#[test]
fn quoted_tail_gets_a_diagnostic() {
    let dto = parse_message_bytes("outlook.eml", OUTLOOK_REPLY, RenderOptions::default()).unwrap();
    let tail: Vec<_> = dto
        .diagnostics
        .iter()
        .filter(|diagnostic| diagnostic.code == "QUOTED_TAIL_DETECTED")
        .collect();
    assert_eq!(tail.len(), 1);
    assert_eq!(tail[0].severity, "info");
    assert_eq!(tail[0].json_path.as_deref(), Some("$.body"));
    assert_eq!(tail[0].location, None);

    let simple = parse_message_bytes("simple.eml", SIMPLE, RenderOptions::default()).unwrap();
    assert!(
        simple
            .diagnostics
            .iter()
            .all(|diagnostic| diagnostic.code != "QUOTED_TAIL_DETECTED")
    );
}
