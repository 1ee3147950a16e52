use email_cli::{
    add_batch_diagnostics, build_messages_envelope, build_thread_envelope, extract_part_bytes, messages_batch_failed,
    parse_batch, parse_message_bytes, sha256_hex, sort_diagnostics, text_looks_like_html,
    thread_batch_failed, BatchInput, DiagnosticDto, MessageError, RenderOptions,
};

fn message(id: &str, date: &str, subject: &str, extra: &str) -> Vec<u8> {
    format!(
        "Message-ID: <{id}>\r\nDate: {date}\r\nFrom: Alice <alice@example.com>\r\nTo: Bob <bob@example.com>\r\nSubject: {subject}\r\n{extra}Content-Type: text/plain; charset=utf-8\r\n\r\nBody of {id}.\r\n"
    )
    .into_bytes()
}

const MULTIPART: &[u8] = b"Message-ID: <attach@example.com>\r\nDate: Wed, 27 May 2026 10:00:00 +0000\r\nFrom: Alice <alice@example.com>\r\nTo: Bob <bob@example.com>\r\nSubject: Attachment\r\nMIME-Version: 1.0\r\nContent-Type: multipart/mixed; boundary=\"b\"\r\n\r\n--b\r\nContent-Type: text/plain; charset=utf-8\r\n\r\nSee attached.\r\n--b\r\nContent-Type: text/plain; name=\"note.txt\"\r\nContent-Disposition: attachment; filename=\"note.txt\"\r\nContent-Transfer-Encoding: base64\r\n\r\nSGVsbG8K\r\n--b--\r\n";

#[test]
fn sha256_hex_of_known_inputs() {
    assert_eq!(
        sha256_hex(b""),
        "e3b0c44298fc1c149afbf4c8996fb92427ae41e4649b934ca495991b7852b855"
    );
    assert_eq!(
        sha256_hex(b"abc"),
        "ba7816bf8f01cfea414140de5dae2223b00361a396177a9cb410ff61f20015ad"
    );
}

#[test]
fn source_records_size_and_hash_of_the_bytes() {
    let raw = message("a@example.com", "Wed, 27 May 2026 10:00:00 +0000", "Hello", "");
    let dto = parse_message_bytes("a.eml", &raw, RenderOptions::default()).unwrap();
    assert_eq!(dto.source.path, "a.eml");
    assert_eq!(dto.source.size_bytes, raw.len());
    assert_eq!(dto.source.sha256, sha256_hex(&raw));
    assert_eq!(dto.schema_version, "1.1");
}

#[test]
fn empty_input_is_unparseable() {
    assert!(matches!(
        parse_message_bytes("empty.eml", b"", RenderOptions::default()),
        Err(MessageError::Unparseable)
    ));
    assert!(matches!(
        extract_part_bytes(b"", "1"),
        Err(MessageError::Unparseable)
    ));
}

#[test]
fn extract_reports_missing_part_id() {
    match extract_part_bytes(MULTIPART, "9") {
        Err(MessageError::PartNotFound(id)) => assert_eq!(id, "9"),
        other => panic!("unexpected result: {other:?}"),
    }
}

#[test]
fn extract_refuses_multipart_container() {
    match extract_part_bytes(MULTIPART, "1") {
        Err(MessageError::PartIsMultipart(id)) => assert_eq!(id, "1"),
        other => panic!("unexpected result: {other:?}"),
    }
    assert_eq!(extract_part_bytes(MULTIPART, "1.1").unwrap(), b"See attached.");
}

#[test]
fn markup_detection_needs_a_closing_tag() {
    assert!(text_looks_like_html("<p>Hello</p>"));
    assert!(text_looks_like_html("x <DIV>y</DIV>"));
    assert!(!text_looks_like_html("a < b and c > d"));
    assert!(!text_looks_like_html("plain text"));
}

#[test]
fn messages_envelope_numbers_repeated_node_ids() {
    let raw = message("same@example.com", "Wed, 27 May 2026 10:00:00 +0000", "Hello", "");
    let a = parse_message_bytes("a.eml", &raw, RenderOptions::default()).unwrap();
    let b = parse_message_bytes("b.eml", &raw, RenderOptions::default()).unwrap();
    let c = parse_message_bytes("c.eml", &raw, RenderOptions::default()).unwrap();
    let base = a.message.node_id.clone();
    let envelope = build_messages_envelope(vec![a, b, c], Vec::new());
    let ids: Vec<String> = envelope
        .messages
        .iter()
        .map(|m| m.message.node_id.clone())
        .collect();
    assert_eq!(ids, vec![base.clone(), format!("{base}_2"), format!("{base}_3")]);
    assert_eq!(envelope.schema_version, "1.1");
    assert!(envelope.diagnostics.is_empty());
}

#[test]
fn every_message_lands_in_exactly_one_thread() {
    let root = message("root@example.com", "Wed, 27 May 2026 10:00:00 +0000", "Plan", "");
    let reply = message(
        "reply@example.com",
        "Wed, 27 May 2026 11:00:00 +0000",
        "Re: Plan",
        "In-Reply-To: <root@example.com>\r\n",
    );
    let other = message("other@example.com", "Wed, 27 May 2026 12:00:00 +0000", "Lunch", "");
    let msgs = vec![
        parse_message_bytes("reply.eml", &reply, RenderOptions::default()).unwrap(),
        parse_message_bytes("other.eml", &other, RenderOptions::default()).unwrap(),
        parse_message_bytes("root.eml", &root, RenderOptions::default()).unwrap(),
    ];
    let envelope = build_thread_envelope(msgs, false);
    assert_eq!(envelope.threads.len(), 2);
    let mut seen: Vec<String> = envelope
        .threads
        .iter()
        .flat_map(|t| t.nodes.iter().map(|n| n.message_id.clone().unwrap()))
        .collect();
    seen.sort();
    assert_eq!(
        seen,
        vec!["other@example.com", "reply@example.com", "root@example.com"]
    );
    let linked = envelope
        .threads
        .iter()
        .find(|t| t.nodes.len() == 2)
        .unwrap();
    assert_eq!(linked.root_message_id.as_deref(), Some("root@example.com"));
    assert_eq!(envelope.sources.len(), 3);
    assert_eq!(envelope.sources[0].path, "root.eml");
}

#[test]
fn reference_link_either_way_joins_thread() {
    let root = message("root@example.com", "Wed, 27 May 2026 10:00:00 +0000", "Plan", "");
    let reply = message(
        "reply@example.com",
        "Wed, 27 May 2026 09:00:00 +0000",
        "Something else",
        "References: <root@example.com>\r\n",
    );
    let msgs = vec![
        parse_message_bytes("root.eml", &root, RenderOptions::default()).unwrap(),
        parse_message_bytes("reply.eml", &reply, RenderOptions::default()).unwrap(),
    ];
    let envelope = build_thread_envelope(msgs, false);
    assert_eq!(envelope.threads.len(), 1);
    assert_eq!(envelope.threads[0].nodes.len(), 2);
}

#[test]
fn unrelated_messages_stay_apart_without_fallback() {
    let a = message("a@example.com", "Wed, 27 May 2026 10:00:00 +0000", "Plan", "");
    let b = message("b@example.com", "Wed, 27 May 2026 11:00:00 +0000", "plan", "");
    let msgs = || {
        vec![
            parse_message_bytes("a.eml", &a, RenderOptions::default()).unwrap(),
            parse_message_bytes("b.eml", &b, RenderOptions::default()).unwrap(),
        ]
    };
    assert_eq!(build_thread_envelope(msgs(), false).threads.len(), 2);
    assert_eq!(build_thread_envelope(msgs(), true).threads.len(), 1);
}

#[test]
fn thread_output_is_deterministic() {
    let a = message("a@example.com", "Wed, 27 May 2026 10:00:00 +0000", "Plan", "");
    let b = message(
        "b@example.com",
        "Wed, 27 May 2026 10:00:00 +0000",
        "Re: Plan",
        "In-Reply-To: <a@example.com>\r\n",
    );
    let run = |first: &[u8], second: &[u8]| {
        let msgs = vec![
            parse_message_bytes("x.eml", first, RenderOptions::default()).unwrap(),
            parse_message_bytes("y.eml", second, RenderOptions::default()).unwrap(),
        ];
        let env = build_thread_envelope(msgs, false);
        (
            env.threads[0].thread_id.clone(),
            env.threads[0].timeline.clone(),
            env.sources.iter().map(|s| s.path.clone()).collect::<Vec<_>>(),
        )
    };
    assert_eq!(run(&a, &b), run(&a, &b));
}

#[test]
fn diagnostics_sort_by_location_then_code() {
    let ds = vec![
        DiagnosticDto::error("READ_FAILED", "r", None, Some("b.eml")),
        DiagnosticDto::error("PARSE_FAILED", "p", None, Some("b.eml")),
        DiagnosticDto::warning("X", "first", None, None),
        DiagnosticDto::error("PARSE_FAILED", "q", None, Some("a.eml")),
        DiagnosticDto::warning("X", "second", None, None),
    ];
    let sorted = sort_diagnostics(ds);
    let got: Vec<(Option<String>, String, String)> = sorted
        .iter()
        .map(|d| (d.location.clone(), d.code.clone(), d.message.clone()))
        .collect();
    assert_eq!(
        got,
        vec![
            (None, "X".to_string(), "first".to_string()),
            (None, "X".to_string(), "second".to_string()),
            (Some("a.eml".to_string()), "PARSE_FAILED".to_string(), "q".to_string()),
            (Some("b.eml".to_string()), "PARSE_FAILED".to_string(), "p".to_string()),
            (Some("b.eml".to_string()), "READ_FAILED".to_string(), "r".to_string()),
        ]
    );
}

#[test]
fn batch_keeps_going_after_bad_inputs() {
    let good = message("good@example.com", "Wed, 27 May 2026 10:00:00 +0000", "Good", "");
    let inputs = vec![
        BatchInput { location: "z.eml".to_string(), contents: Err("disk on fire".to_string()) },
        BatchInput { location: "good.eml".to_string(), contents: Ok(good) },
        BatchInput { location: "bad.eml".to_string(), contents: Ok(Vec::new()) },
    ];
    let (messages, diagnostics) = parse_batch(&inputs, RenderOptions::default());
    assert_eq!(messages.len(), 1);
    assert_eq!(messages[0].source.path, "good.eml");
    assert_eq!(diagnostics.len(), 2);
    assert_eq!(diagnostics[0].code, "PARSE_FAILED");
    assert_eq!(diagnostics[0].severity, "error");
    assert_eq!(diagnostics[0].location.as_deref(), Some("bad.eml"));
    assert_eq!(
        diagnostics[0].message,
        "Failed to parse bad.eml: input does not contain a parseable RFC 822/RFC 5322 message"
    );
    assert_eq!(diagnostics[1].code, "READ_FAILED");
    assert_eq!(diagnostics[1].message, "Failed to read z.eml: disk on fire");
    assert_eq!(diagnostics[1].json_path, None);

    let envelope = build_messages_envelope(messages, diagnostics);
    assert!(!messages_batch_failed(&envelope));
}

#[test]
fn batch_fails_only_when_every_input_fails() {
    let inputs = vec![BatchInput { location: "bad.eml".to_string(), contents: Ok(Vec::new()) }];
    let (messages, diagnostics) = parse_batch(&inputs, RenderOptions::default());
    let thread_diags = diagnostics.clone();
    let envelope = build_messages_envelope(messages, diagnostics);
    assert!(messages_batch_failed(&envelope));

    let mut threads = build_thread_envelope(Vec::new(), false);
    assert!(threads.threads.is_empty());
    assert!(!thread_batch_failed(&threads));
    add_batch_diagnostics(&mut threads, thread_diags);
    assert!(thread_batch_failed(&threads));
}

#[test]
fn parsed_node_ids_have_fixed_shape() {
    let raw = message("a@example.com", "Wed, 27 May 2026 10:00:00 +0000", "Hello", "");
    let dto = parse_message_bytes("a.eml", &raw, RenderOptions::default()).unwrap();
    let id = &dto.message.node_id;
    assert_eq!(id.len(), 20);
    assert!(id.starts_with("msg_"));
    assert!(id[4..].chars().all(|c| c.is_ascii_hexdigit() && !c.is_ascii_uppercase()));
}

#[test]
fn renaming_keeps_a_supplied_suffixed_id() {
    let raw = message("a@example.com", "Wed, 27 May 2026 10:00:00 +0000", "Hello", "");
    let mut records = Vec::new();
    for id in ["a", "a", "a_2"] {
        let mut dto = parse_message_bytes("a.eml", &raw, RenderOptions::default()).unwrap();
        dto.message.node_id = id.to_string();
        records.push(dto);
    }
    let envelope = build_messages_envelope(records, Vec::new());
    let ids: Vec<&str> = envelope
        .messages
        .iter()
        .map(|m| m.message.node_id.as_str())
        .collect();
    assert_eq!(ids, vec!["a", "a_2", "a_2"]);
}

#[test]
fn dates_are_normalised_to_utc_and_subjects_to_thread_names() {
    let raw = message(
        "d@example.com",
        "Wed, 27 May 2026 12:00:00 +0200",
        "Re: Fwd: Plan",
        "",
    );
    let dto = parse_message_bytes("d.eml", &raw, RenderOptions::default()).unwrap();
    assert_eq!(dto.message.date.as_deref(), Some("2026-05-27T10:00:00Z"));
    assert_eq!(dto.message.date_timestamp, Some(1_779_876_000));
    assert_eq!(dto.message.subject.as_deref(), Some("Re: Fwd: Plan"));
    assert_eq!(dto.thread.base_subject.as_deref(), Some("Plan"));
    assert!(dto.thread.is_reply);
}

#[test]
fn threads_come_in_order_of_their_earliest_message() {
    let late = message("late@example.com", "Wed, 27 May 2026 12:00:00 +0000", "Late", "");
    let early = message("early@example.com", "Wed, 27 May 2026 08:00:00 +0000", "Early", "");
    let undated = format!(
        "Message-ID: <undated@example.com>\r\nSubject: Undated\r\nContent-Type: text/plain\r\n\r\nNo date.\r\n"
    )
    .into_bytes();
    let msgs = vec![
        parse_message_bytes("undated.eml", &undated, RenderOptions::default()).unwrap(),
        parse_message_bytes("late.eml", &late, RenderOptions::default()).unwrap(),
        parse_message_bytes("early.eml", &early, RenderOptions::default()).unwrap(),
    ];
    let envelope = build_thread_envelope(msgs, false);
    let roots: Vec<Option<String>> = envelope
        .threads
        .iter()
        .map(|t| t.root_message_id.clone())
        .collect();
    assert_eq!(
        roots,
        vec![
            Some("early@example.com".to_string()),
            Some("late@example.com".to_string()),
            Some("undated@example.com".to_string()),
        ]
    );
    let paths: Vec<&str> = envelope.sources.iter().map(|s| s.path.as_str()).collect();
    assert_eq!(paths, vec!["early.eml", "late.eml", "undated.eml"]);
}

#[test]
fn batch_diagnostics_follow_the_envelope_ones() {
    let raw = message("same@example.com", "Wed, 27 May 2026 10:00:00 +0000", "Hello", "");
    let msgs = vec![
        parse_message_bytes("a.eml", &raw, RenderOptions::default()).unwrap(),
        parse_message_bytes("b.eml", &raw, RenderOptions::default()).unwrap(),
    ];
    let mut envelope = build_thread_envelope(msgs, false);
    let inputs = vec![BatchInput { location: "bad.eml".to_string(), contents: Ok(Vec::new()) }];
    let (_, diagnostics) = parse_batch(&inputs, RenderOptions::default());
    let threads_before = envelope.threads.len();
    add_batch_diagnostics(&mut envelope, diagnostics);
    let codes: Vec<&str> = envelope.diagnostics.iter().map(|d| d.code.as_str()).collect();
    assert_eq!(codes, vec!["DUPLICATE_MESSAGE_ID", "PARSE_FAILED"]);
    assert_eq!(envelope.threads.len(), threads_before);
    assert!(!thread_batch_failed(&envelope));
}

#[test]
fn listed_parts_extract_to_their_recorded_size_and_hash() {
    let dto = parse_message_bytes("attach.eml", MULTIPART, RenderOptions::default()).unwrap();
    assert!(!dto.parts.is_empty());
    for part in &dto.parts {
        let bytes = extract_part_bytes(MULTIPART, &part.part_id).unwrap();
        assert_eq!(bytes.len(), part.decoded_size_bytes);
        assert_eq!(sha256_hex(&bytes), part.decoded_sha256);
    }
    assert!(matches!(
        extract_part_bytes(MULTIPART, "7"),
        Err(MessageError::PartNotFound(_))
    ));
}

#[test]
fn same_bytes_give_the_same_record_but_for_the_path() {
    let raw = message("same@example.com", "Wed, 27 May 2026 10:00:00 +0000", "Hello", "");
    let a = parse_message_bytes("first.eml", &raw, RenderOptions::default()).unwrap();
    let b = parse_message_bytes("second.eml", &raw, RenderOptions::default()).unwrap();
    assert_eq!(a.source.path, "first.eml");
    assert_eq!(b.source.path, "second.eml");
    assert_eq!(a.message.node_id, b.message.node_id);
    assert_eq!(a.source.sha256, b.source.sha256);
    assert_eq!(a.body.text, b.body.text);
    assert_eq!(a.body.fragments.len(), b.body.fragments.len());
    for (x, y) in a.body.fragments.iter().zip(b.body.fragments.iter()) {
        assert_eq!(x.id, y.id);
        assert_eq!(x.byte_range, y.byte_range);
    }
    assert_eq!(format!("{:?}", a.headers), format!("{:?}", b.headers));
    assert_eq!(format!("{:?}", a.parts), format!("{:?}", b.parts));
    assert_eq!(format!("{:?}", a.diagnostics), format!("{:?}", b.diagnostics));
}
