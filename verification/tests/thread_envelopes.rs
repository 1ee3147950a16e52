use std::collections::BTreeSet;

use email_cli::{build_thread_envelope, parse_message_bytes, RenderOptions};

const SIMPLE: &[u8] = br#"Message-ID: <root@example.com>
Date: Wed, 27 May 2026 10:00:00 +0000
From: Alice <alice@example.com>
To: Bob <bob@example.com>
Subject: Project update
Content-Type: text/plain; charset=utf-8

Fresh line.

On Tue, Bob wrote:
> quoted line
"#;

#[test]
fn builds_thread_timeline() {
    let reply = br#"Message-ID: <reply@example.com>
In-Reply-To: <root@example.com>
References: <root@example.com>
Date: Wed, 27 May 2026 11:00:00 +0000
From: Bob <bob@example.com>
To: Alice <alice@example.com>
Subject: Re: Project update
Content-Type: text/plain; charset=utf-8

Reply text.
"#;
    let root = parse_message_bytes("root.eml", SIMPLE, RenderOptions::default()).unwrap();
    let reply = parse_message_bytes("reply.eml", reply, RenderOptions::default()).unwrap();
    let envelope = build_thread_envelope(vec![reply, root], false);
    assert_eq!(envelope.threads.len(), 1);
    assert_eq!(envelope.threads[0].timeline.len(), 2);
    assert_eq!(envelope.threads[0].nodes.len(), 2);
}

#[test]
fn groups_in_reply_to_without_references() {
    let reply = br#"Message-ID: <reply@example.com>
In-Reply-To: <root@example.com>
Date: Wed, 27 May 2026 11:00:00 +0000
From: Bob <bob@example.com>
To: Alice <alice@example.com>
Subject: Re: Project update
Content-Type: text/plain; charset=utf-8

Reply text.
"#;
    let root = parse_message_bytes("root.eml", SIMPLE, RenderOptions::default()).unwrap();
    let reply = parse_message_bytes("reply.eml", reply, RenderOptions::default()).unwrap();
    let envelope = build_thread_envelope(vec![reply, root], false);
    assert_eq!(envelope.threads.len(), 1);
    assert_eq!(envelope.threads[0].nodes.len(), 2);
    assert!(
        envelope.threads[0]
            .nodes
            .iter()
            .any(|node| node.parent_node_id.is_some())
    );
}

#[test]
fn duplicate_message_ids_have_unique_node_ids() {
    let first = parse_message_bytes("first.eml", SIMPLE, RenderOptions::default()).unwrap();
    let second = parse_message_bytes("second.eml", SIMPLE, RenderOptions::default()).unwrap();
    assert_eq!(first.message.node_id, second.message.node_id);

    let envelope = build_thread_envelope(vec![first, second], false);
    let node_ids = envelope
        .threads
        .iter()
        .flat_map(|thread| thread.nodes.iter().map(|node| node.node_id.clone()))
        .collect::<Vec<_>>();
    let unique_node_ids = node_ids.iter().collect::<BTreeSet<_>>();
    assert_eq!(node_ids.len(), unique_node_ids.len());
    let thread_ids = envelope
        .threads
        .iter()
        .map(|thread| thread.thread_id.clone())
        .collect::<Vec<_>>();
    let unique_thread_ids = thread_ids.iter().collect::<BTreeSet<_>>();
    assert_eq!(thread_ids.len(), unique_thread_ids.len());
    assert!(
        envelope
            .diagnostics
            .iter()
            .any(|diagnostic| diagnostic.code == "DUPLICATE_MESSAGE_ID")
    );
    assert!(
        envelope
            .threads
            .iter()
            .any(|thread| thread.duplicate_message_ids == ["root@example.com"])
    );
}

#[test]
fn timezone_offsets_are_sorted_by_instant() {
    let later_local = br#"Message-ID: <later-local@example.com>
Date: Wed, 27 May 2026 09:30:00 -0700
From: Alice <alice@example.com>
To: Bob <bob@example.com>
Subject: Same subject
Content-Type: text/plain; charset=utf-8

Later by UTC.
"#;
    let earlier_utc = br#"Message-ID: <earlier-utc@example.com>
Date: Wed, 27 May 2026 10:00:00 +0000
From: Bob <bob@example.com>
To: Alice <alice@example.com>
Subject: Re: Same subject
Content-Type: text/plain; charset=utf-8

Earlier by UTC.
"#;
    let later = parse_message_bytes("later.eml", later_local, RenderOptions::default()).unwrap();
    let earlier =
        parse_message_bytes("earlier.eml", earlier_utc, RenderOptions::default()).unwrap();
    let envelope = build_thread_envelope(vec![later, earlier], true);
    assert_eq!(envelope.threads.len(), 1);
    assert_eq!(
        envelope.threads[0].nodes[0]
            .message
            .message
            .message_id
            .as_deref(),
        Some("earlier-utc@example.com")
    );
    assert_eq!(
        envelope.threads[0].time_range.start.as_deref(),
        Some("2026-05-27T10:00:00Z")
    );
    assert_eq!(
        envelope.threads[0].time_range.end.as_deref(),
        Some("2026-05-27T16:30:00Z")
    );
}

#[test]
fn falls_back_to_references_when_in_reply_to_is_unresolved() {
    let reply = br#"Message-ID: <reply@example.com>
In-Reply-To: <missing@example.com>
References: <root@example.com>
Date: Wed, 27 May 2026 11:00:00 +0000
From: Bob <bob@example.com>
To: Alice <alice@example.com>
Subject: Re: Project update
Content-Type: text/plain; charset=utf-8

Reply text.
"#;
    let root = parse_message_bytes("root.eml", SIMPLE, RenderOptions::default()).unwrap();
    let reply = parse_message_bytes("reply.eml", reply, RenderOptions::default()).unwrap();
    let envelope = build_thread_envelope(vec![reply, root], false);
    let thread = &envelope.threads[0];
    let root_node = thread
        .nodes
        .iter()
        .find(|node| node.message_id.as_deref() == Some("root@example.com"))
        .unwrap();
    let reply_node = thread
        .nodes
        .iter()
        .find(|node| node.message_id.as_deref() == Some("reply@example.com"))
        .unwrap();
    assert_eq!(reply_node.parent_node_id.as_ref(), Some(&root_node.node_id));
    assert!(thread.missing_parent_message_ids.is_empty());
}

#[test]
fn timeline_orders_parent_before_earlier_dated_child() {
    let root = br#"Message-ID: <late-root@example.com>
Date: Wed, 27 May 2026 12:00:00 +0000
From: Alice <alice@example.com>
To: Bob <bob@example.com>
Subject: Late root
Content-Type: text/plain; charset=utf-8

Root text.
"#;
    let reply = br#"Message-ID: <early-reply@example.com>
In-Reply-To: <late-root@example.com>
Date: Wed, 27 May 2026 09:00:00 +0000
From: Bob <bob@example.com>
To: Alice <alice@example.com>
Subject: Re: Late root
Content-Type: text/plain; charset=utf-8

Reply text.
"#;
    let root = parse_message_bytes("root.eml", root, RenderOptions::default()).unwrap();
    let reply = parse_message_bytes("reply.eml", reply, RenderOptions::default()).unwrap();
    let envelope = build_thread_envelope(vec![reply, root], false);
    let nodes = &envelope.threads[0].nodes;
    assert_eq!(
        nodes[0].message.message.message_id.as_deref(),
        Some("late-root@example.com")
    );
    assert_eq!(
        nodes[1].message.message.message_id.as_deref(),
        Some("early-reply@example.com")
    );
}

#[test]
fn subject_fallback_groups_unlinked_messages_with_ids() {
    let first = br#"Message-ID: <first@example.com>
Date: Wed, 27 May 2026 10:00:00 +0000
From: Alice <alice@example.com>
To: Bob <bob@example.com>
Subject: Same subject
Content-Type: text/plain; charset=utf-8

First.
"#;
    let second = br#"Message-ID: <second@example.com>
Date: Wed, 27 May 2026 11:00:00 +0000
From: Bob <bob@example.com>
To: Alice <alice@example.com>
Subject: Re: Same subject
Content-Type: text/plain; charset=utf-8

Second.
"#;
    let first = parse_message_bytes("first.eml", first, RenderOptions::default()).unwrap();
    let second = parse_message_bytes("second.eml", second, RenderOptions::default()).unwrap();
    assert_eq!(
        build_thread_envelope(vec![first.clone(), second.clone()], false)
            .threads
            .len(),
        2
    );
    assert_eq!(
        build_thread_envelope(vec![first, second], true)
            .threads
            .len(),
        1
    );
}

#[test]
fn subject_fallback_ignores_empty_subjects() {
    let first = br#"Message-ID: <first-empty-subject@example.com>
Date: Wed, 27 May 2026 10:00:00 +0000
From: Alice <alice@example.com>
To: Bob <bob@example.com>
Content-Type: text/plain; charset=utf-8

First.
"#;
    let second = br#"Message-ID: <second-empty-subject@example.com>
Date: Wed, 27 May 2026 11:00:00 +0000
From: Bob <bob@example.com>
To: Alice <alice@example.com>
Content-Type: text/plain; charset=utf-8

Second.
"#;
    let first = parse_message_bytes("first.eml", first, RenderOptions::default()).unwrap();
    let second = parse_message_bytes("second.eml", second, RenderOptions::default()).unwrap();
    assert_eq!(
        build_thread_envelope(vec![first, second], true)
            .threads
            .len(),
        2
    );
}

#[test]
fn groups_replies_with_shared_missing_root_reference() {
    let first = br#"Message-ID: <first-reply@example.com>
References: <missing-root@example.com>
Date: Wed, 27 May 2026 10:00:00 +0000
From: Alice <alice@example.com>
To: Bob <bob@example.com>
Subject: Re: Shared root
Content-Type: text/plain; charset=utf-8

First reply.
"#;
    let second = br#"Message-ID: <second-reply@example.com>
References: <missing-root@example.com>
Date: Wed, 27 May 2026 11:00:00 +0000
From: Bob <bob@example.com>
To: Alice <alice@example.com>
Subject: Re: Shared root
Content-Type: text/plain; charset=utf-8

Second reply.
"#;
    let first = parse_message_bytes("first.eml", first, RenderOptions::default()).unwrap();
    let second = parse_message_bytes("second.eml", second, RenderOptions::default()).unwrap();
    let envelope = build_thread_envelope(vec![first, second], false);
    assert_eq!(envelope.threads.len(), 1);
    assert_eq!(
        envelope.threads[0].missing_parent_message_ids,
        ["missing-root@example.com"]
    );
    assert!(
        envelope.threads[0]
            .nodes
            .iter()
            .all(|node| node.link_confidence == "orphan")
    );
}
