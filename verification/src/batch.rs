//! A batch of input files: each one read or not, parsed into a record or
//! reported by a diagnostic, with the diagnostics in a stable order.
use vstd::prelude::*;
use crate::dto::{diag_is, DiagnosticDto, MessageDto, MessagesEnvelopeDto, RenderOptions, ThreadEnvelopeDto};
use crate::encode::sha256_hex_spec;
use crate::envelope::{diag_key, diag_keys, sort_diagnostics};
use crate::message::{message_dto_is, parse_message_bytes};
use crate::mime::mime_parses;
use crate::model::mime_spec;
use crate::order::{is_perm, stably_sorted, KeyV};
use crate::text::{push_str, string_of};
use crate::thread::permuted;

verus! {

/// One input file of a batch: the name it was given by, and its bytes or the
/// text of the error that kept it from being read.
pub struct BatchInput {
    pub location: String,
    pub contents: Result<Vec<u8>, String>,
}

/// Message of the diagnostic for an input that holds no message.
pub open spec fn parse_failure_text(location: Seq<char>) -> Seq<char> {
    "Failed to parse "@ + location + ": input does not contain a parseable RFC 822/RFC 5322 message"@
}

/// Message of the diagnostic for an input that could not be read.
pub open spec fn read_failure_text(location: Seq<char>, err: Seq<char>) -> Seq<char> {
    "Failed to read "@ + location + ": "@ + err
}

/// Code and message of the diagnostic an input gets, if it failed.
pub open spec fn input_failure(x: BatchInput) -> Option<(Seq<char>, Seq<char>)> {
    match x.contents {
        Err(e) => Some(("READ_FAILED"@, read_failure_text(x.location@, e@))),
        Ok(raw) => if mime_parses(raw@) {
            None
        } else {
            Some(("PARSE_FAILED"@, parse_failure_text(x.location@)))
        },
    }
}

/// Indexes of the first `n` inputs that were parsed, in order.
pub open spec fn parsed_upto(xs: Seq<BatchInput>, n: int) -> Seq<int>
    decreases n,
{
    if n <= 0 {
        Seq::empty()
    } else if input_failure(xs[n - 1]) is None {
        parsed_upto(xs, n - 1).push(n - 1)
    } else {
        parsed_upto(xs, n - 1)
    }
}

/// Indexes of the first `n` inputs that failed, in order.
pub open spec fn failed_upto(xs: Seq<BatchInput>, n: int) -> Seq<int>
    decreases n,
{
    if n <= 0 {
        Seq::empty()
    } else if input_failure(xs[n - 1]) is Some {
        failed_upto(xs, n - 1).push(n - 1)
    } else {
        failed_upto(xs, n - 1)
    }
}

/// `d` is the error diagnostic of the failed input `x`.
pub open spec fn failure_diag_is(d: DiagnosticDto, x: BatchInput) -> bool {
    let f = input_failure(x)->0;
    diag_is(d, f.0, "error"@, f.1, None, Some(x.location@))
}

/// Sort key of the diagnostic of the failed input `x`.
pub open spec fn failure_key(x: BatchInput) -> KeyV {
    let f = input_failure(x)->0;
    KeyV { depth: 0, missing: true, ts: 0, a: x.location@, b: f.0 }
}

/// `d` is the record parsed from input `x` under `options`.
pub open spec fn record_of(d: MessageDto, x: BatchInput, options: RenderOptions) -> bool {
    x.contents matches Ok(raw) && message_dto_is(
        d,
        mime_spec(raw@),
        x.location@,
        raw@.len() as usize,
        sha256_hex_spec(raw@),
        options,
    )
}

fn failure_diagnostic(x: &BatchInput) -> (d: DiagnosticDto)
    requires
        input_failure(*x) is Some,
    ensures
        failure_diag_is(d, *x),
        diag_key(d) == failure_key(*x),
{
    let mut text: Vec<char> = Vec::new();
    let code = match &x.contents {
        Err(e) => {
            push_str(&mut text, "Failed to read ");
            push_str(&mut text, x.location.as_str());
            push_str(&mut text, ": ");
            push_str(&mut text, e.as_str());
            "READ_FAILED"
        },
        Ok(_) => {
            push_str(&mut text, "Failed to parse ");
            push_str(&mut text, x.location.as_str());
            push_str(
                &mut text,
                ": input does not contain a parseable RFC 822/RFC 5322 message",
            );
            "PARSE_FAILED"
        },
    };
    let message = string_of(text.as_slice());
    DiagnosticDto::error(code, message.as_str(), None, Some(x.location.as_str()))
}

/// Parses each input that was read into a record, in input order, and
/// reports each input that could not be read or parsed by an error
/// diagnostic; the diagnostics come sorted by location, then code.
pub fn parse_batch(inputs: &Vec<BatchInput>, options: RenderOptions) -> (r: (
    Vec<MessageDto>,
    Vec<DiagnosticDto>,
))
    ensures
        ({
            let pi = parsed_upto(inputs@, inputs@.len() as int);
            r.0@.len() == pi.len() && forall|j: int|
                0 <= j < pi.len() ==> record_of(#[trigger] r.0@[j], inputs@[pi[j]], options)
        }),
        ({
            let fi = failed_upto(inputs@, inputs@.len() as int);
            let ks = fi.map_values(|i: int| failure_key(inputs@[i]));
            exists|perm: Seq<usize>|
                is_perm(perm, fi.len()) && stably_sorted(ks, perm) && r.1@.len() == fi.len()
                    && forall|a: int|
                    0 <= a < fi.len() ==> failure_diag_is(#[trigger] r.1@[a], inputs@[fi[perm[a] as int]])
        }),
{
    let ghost xs = inputs@;
    let mut messages: Vec<MessageDto> = Vec::new();
    let mut pre: Vec<DiagnosticDto> = Vec::new();
    let mut i: usize = 0;
    while i < inputs.len()
        invariant
            xs == inputs@,
            i <= xs.len(),
            messages@.len() == parsed_upto(xs, i as int).len(),
            forall|j: int|
                0 <= j < messages@.len() ==> record_of(
                    #[trigger] messages@[j],
                    xs[parsed_upto(xs, i as int)[j]],
                    options,
                ),
            pre@.len() == failed_upto(xs, i as int).len(),
            forall|a: int| 0 <= a < pre@.len() ==> failure_diag_is(#[trigger] pre@[a], xs[failed_upto(xs, i as int)[a]]),
            forall|a: int| 0 <= a < pre@.len() ==> diag_key(#[trigger] pre@[a]) == failure_key(xs[failed_upto(xs, i as int)[a]]),
        decreases inputs.len() - i,
    {
        let x = &inputs[i];
        let ghost ip = i as int + 1;
        assert(parsed_upto(xs, ip) == if input_failure(xs[i as int]) is None {
            parsed_upto(xs, i as int).push(i as int)
        } else {
            parsed_upto(xs, i as int)
        });
        assert(failed_upto(xs, ip) == if input_failure(xs[i as int]) is Some {
            failed_upto(xs, i as int).push(i as int)
        } else {
            failed_upto(xs, i as int)
        });
        match &x.contents {
            Ok(raw) => {
                match parse_message_bytes(x.location.as_str(), raw.as_slice(), options) {
                    Ok(d) => {
                        messages.push(d);
                    },
                    Err(_) => {
                        pre.push(failure_diagnostic(x));
                    },
                }
            },
            Err(_) => {
                pre.push(failure_diagnostic(x));
            },
        }
        i += 1;
    }
    let ghost fi = failed_upto(xs, xs.len() as int);
    let ghost p0 = pre@;
    assert(diag_keys(p0) =~= fi.map_values(|k: int| failure_key(xs[k])));
    let diagnostics = sort_diagnostics(pre);
    proof {
        let perm = choose|perm: Seq<usize>|
            is_perm(perm, p0.len()) && stably_sorted(diag_keys(p0), perm) && permuted(diagnostics@, p0, perm);
        assert forall|a: int| 0 <= a < fi.len() implies failure_diag_is(
            #[trigger] diagnostics@[a],
            xs[fi[perm[a] as int]],
        ) by {
            assert(diagnostics@[a] == p0[perm[a] as int]);
        }
    }
    (messages, diagnostics)
}

/// A messages batch failed as a whole: no record, and some diagnostic.
pub fn messages_batch_failed(env: &MessagesEnvelopeDto) -> (r: bool)
    ensures
        r == (env.messages@.len() == 0 && env.diagnostics@.len() > 0),
{
    env.messages.len() == 0 && env.diagnostics.len() > 0
}

/// A thread batch failed as a whole: no thread, and some diagnostic.
pub fn thread_batch_failed(env: &ThreadEnvelopeDto) -> (r: bool)
    ensures
        r == (env.threads@.len() == 0 && env.diagnostics@.len() > 0),
{
    env.threads.len() == 0 && env.diagnostics.len() > 0
}

/// Adds a batch's diagnostics to a thread envelope, after the envelope's own.
pub fn add_batch_diagnostics(env: &mut ThreadEnvelopeDto, diagnostics: Vec<DiagnosticDto>)
    ensures
        final(env).diagnostics@ == old(env).diagnostics@ + diagnostics@,
        final(env).schema_version == old(env).schema_version,
        final(env).sources == old(env).sources,
        final(env).threads == old(env).threads,
{
    let mut diagnostics = diagnostics;
    env.diagnostics.append(&mut diagnostics);
}

} // verus!
