//! Store-and-forward bundle: a portable, time-bounded container of inbox
//! messages for offline exchange, with a byte-exact codec and round-trip
//! law.
use vstd::prelude::*;

verus! {

use crate::codec::{enc_u64, enc_bytes, enc_str, enc_opt_str, sdec_u8, sdec_u64, sdec_str, lemma_concat_assoc,
    sdec_opt_str, i64_as_u64, u64_as_i64, write_u64, write_str, write_opt_str, read_u8, read_u64,
    read_str, read_opt_str, lemma_sdec_u8_at, lemma_sdec_u64_at, lemma_sdec_str_at,
    lemma_sdec_opt_str_at, lemma_concat_sub, lemma_i64_u64_round_trip, i64_to_u64, u64_to_i64};
use crate::error::MeshError;
use crate::inbox::{Inbox, InboxMessage, InboxMessageView, clone_opt_string};
use crate::protocol::{enc_bool, str_wf, opt_str_wf};
use crate::util::{now_unix, rfc3339_of_unix};

/// The only bundle format version this node reads or writes.
pub const BUNDLE_VERSION: u8 = 1;

/// A portable container of messages with a creation and an expiry instant.
#[derive(Debug, Clone, PartialEq, Eq)]
pub struct MessageBundle {
    pub version: u8,
    pub created_at: i64,
    pub expires_at: i64,
    pub messages: Vec<InboxMessage>,
}

/// Bundle facts for display.
#[derive(Debug, Clone, PartialEq, Eq)]
pub struct BundleInfo {
    pub version: u8,
    pub created_at: String,
    pub expires_at: String,
    pub message_count: usize,
    pub total_bytes: u64,
}

// ---------------------------------------------------------------------------
// the message codec
// ---------------------------------------------------------------------------

/// The byte-exact encoding of one inbox message: the fields in order,
/// written as a right-nested chain so that each parsing step peels one
/// field off the front.
pub open spec fn enc_inbox(v: InboxMessageView) -> Seq<u8> {
    enc_u64(v.seq) + enc_inbox_r1(v)
}

pub open spec fn enc_inbox_r1(v: InboxMessageView) -> Seq<u8> {
    enc_str(v.timestamp) + enc_inbox_r2(v)
}

pub open spec fn enc_inbox_r2(v: InboxMessageView) -> Seq<u8> {
    enc_str(v.direction) + enc_inbox_r3(v)
}

pub open spec fn enc_inbox_r3(v: InboxMessageView) -> Seq<u8> {
    enc_str(v.kind) + enc_inbox_r4(v)
}

pub open spec fn enc_inbox_r4(v: InboxMessageView) -> Seq<u8> {
    enc_str(v.peer) + enc_inbox_r5(v)
}

pub open spec fn enc_inbox_r5(v: InboxMessageView) -> Seq<u8> {
    enc_str(v.from) + enc_inbox_r6(v)
}

pub open spec fn enc_inbox_r6(v: InboxMessageView) -> Seq<u8> {
    enc_opt_str(v.to) + enc_inbox_r7(v)
}

pub open spec fn enc_inbox_r7(v: InboxMessageView) -> Seq<u8> {
    enc_opt_str(v.message_id) + enc_inbox_r8(v)
}

pub open spec fn enc_inbox_r8(v: InboxMessageView) -> Seq<u8> {
    enc_u64(v.bytes as u64) + enc_inbox_r9(v)
}

pub open spec fn enc_inbox_r9(v: InboxMessageView) -> Seq<u8> {
    enc_str(v.preview) + enc_inbox_r10(v)
}

pub open spec fn enc_inbox_r10(v: InboxMessageView) -> Seq<u8> {
    enc_str(v.conversation_id) + enc_inbox_r11(v)
}

pub open spec fn enc_inbox_r11(v: InboxMessageView) -> Seq<u8> {
    enc_opt_str(v.content) + enc_bool(v.delivered)
}

/// The deterministic parse of one inbox message at an offset.
pub open spec fn sdec_inbox(buf: Seq<u8>, i: int) -> Option<(InboxMessageView, int)> {
    match sdec_u64(buf, i) {
        None => None,
        Some((seq, i1)) => match sdec_str(buf, i1) {
            None => None,
            Some((timestamp, i2)) => match sdec_str(buf, i2) {
                None => None,
                Some((direction, i3)) => match sdec_str(buf, i3) {
                    None => None,
                    Some((kind, i4)) => match sdec_str(buf, i4) {
                        None => None,
                        Some((peer, i5)) => match sdec_str(buf, i5) {
                            None => None,
                            Some((from, i6)) => match sdec_opt_str(buf, i6) {
                                None => None,
                                Some((to, i7)) => match sdec_opt_str(buf, i7) {
                                    None => None,
                                    Some((message_id, i8)) => match sdec_u64(buf, i8) {
                                        None => None,
                                        Some((nbytes, i9)) => if nbytes <= usize::MAX as u64 {
                                            match sdec_str(buf, i9) {
                                                None => None,
                                                Some((preview, i10)) => match sdec_str(buf, i10) {
                                                    None => None,
                                                    Some((conversation_id, i11)) => match
                                                        sdec_opt_str(buf, i11) {
                                                        None => None,
                                                        Some((content, i12)) => match sdec_u8(
                                                            buf,
                                                            i12,
                                                        ) {
                                                            None => None,
                                                            Some((db, i13)) => if db <= 1 {
                                                                Some((
                                                                    InboxMessageView {
                                                                        seq,
                                                                        timestamp,
                                                                        direction,
                                                                        kind,
                                                                        peer,
                                                                        from,
                                                                        to,
                                                                        message_id,
                                                                        bytes: nbytes as usize,
                                                                        preview,
                                                                        conversation_id,
                                                                        content,
                                                                        delivered: db == 1,
                                                                    },
                                                                    i13,
                                                                ))
                                                            } else {
                                                                None
                                                            },
                                                        },
                                                    },
                                                },
                                            }
                                        } else {
                                            None
                                        },
                                    },
                                },
                            },
                        },
                    },
                },
            },
        },
    }
}

/// The nested chain laid out flat, level by level, as the writer appends it.
#[verifier::rlimit(100)]
#[verifier::spinoff_prover]
proof fn lemma_flat_r10(v: InboxMessageView)
    ensures
        enc_inbox_r10(v) == enc_str(v.conversation_id) + enc_opt_str(v.content) + enc_bool(v.delivered),
{
    lemma_concat_assoc(enc_str(v.conversation_id), enc_opt_str(v.content), enc_bool(v.delivered));
}

#[verifier::rlimit(100)]
#[verifier::spinoff_prover]
proof fn lemma_flat_r9(v: InboxMessageView)
    ensures
        enc_inbox_r9(v) == enc_str(v.preview) + enc_str(v.conversation_id) + enc_opt_str(v.content) + enc_bool(v.delivered),
{
    lemma_flat_r10(v);
    lemma_concat_assoc(enc_str(v.preview), enc_str(v.conversation_id) + enc_opt_str(v.content), enc_bool(v.delivered));
    lemma_concat_assoc(enc_str(v.preview), enc_str(v.conversation_id), enc_opt_str(v.content));
}

#[verifier::rlimit(100)]
#[verifier::spinoff_prover]
proof fn lemma_flat_r8(v: InboxMessageView)
    ensures
        enc_inbox_r8(v) == enc_u64(v.bytes as u64) + enc_str(v.preview) + enc_str(v.conversation_id) + enc_opt_str(v.content) + enc_bool(v.delivered),
{
    lemma_flat_r9(v);
    lemma_concat_assoc(enc_u64(v.bytes as u64), enc_str(v.preview) + enc_str(v.conversation_id) + enc_opt_str(v.content), enc_bool(v.delivered));
    lemma_concat_assoc(enc_u64(v.bytes as u64), enc_str(v.preview) + enc_str(v.conversation_id), enc_opt_str(v.content));
    lemma_concat_assoc(enc_u64(v.bytes as u64), enc_str(v.preview), enc_str(v.conversation_id));
}

#[verifier::rlimit(100)]
#[verifier::spinoff_prover]
proof fn lemma_flat_r7(v: InboxMessageView)
    ensures
        enc_inbox_r7(v) == enc_opt_str(v.message_id) + enc_u64(v.bytes as u64) + enc_str(v.preview) + enc_str(v.conversation_id) + enc_opt_str(v.content) + enc_bool(v.delivered),
{
    lemma_flat_r8(v);
    lemma_concat_assoc(enc_opt_str(v.message_id), enc_u64(v.bytes as u64) + enc_str(v.preview) + enc_str(v.conversation_id) + enc_opt_str(v.content), enc_bool(v.delivered));
    lemma_concat_assoc(enc_opt_str(v.message_id), enc_u64(v.bytes as u64) + enc_str(v.preview) + enc_str(v.conversation_id), enc_opt_str(v.content));
    lemma_concat_assoc(enc_opt_str(v.message_id), enc_u64(v.bytes as u64) + enc_str(v.preview), enc_str(v.conversation_id));
    lemma_concat_assoc(enc_opt_str(v.message_id), enc_u64(v.bytes as u64), enc_str(v.preview));
}

#[verifier::rlimit(100)]
#[verifier::spinoff_prover]
proof fn lemma_flat_r6(v: InboxMessageView)
    ensures
        enc_inbox_r6(v) == enc_opt_str(v.to) + enc_opt_str(v.message_id) + enc_u64(v.bytes as u64) + enc_str(v.preview) + enc_str(v.conversation_id) + enc_opt_str(v.content) + enc_bool(v.delivered),
{
    lemma_flat_r7(v);
    lemma_concat_assoc(enc_opt_str(v.to), enc_opt_str(v.message_id) + enc_u64(v.bytes as u64) + enc_str(v.preview) + enc_str(v.conversation_id) + enc_opt_str(v.content), enc_bool(v.delivered));
    lemma_concat_assoc(enc_opt_str(v.to), enc_opt_str(v.message_id) + enc_u64(v.bytes as u64) + enc_str(v.preview) + enc_str(v.conversation_id), enc_opt_str(v.content));
    lemma_concat_assoc(enc_opt_str(v.to), enc_opt_str(v.message_id) + enc_u64(v.bytes as u64) + enc_str(v.preview), enc_str(v.conversation_id));
    lemma_concat_assoc(enc_opt_str(v.to), enc_opt_str(v.message_id) + enc_u64(v.bytes as u64), enc_str(v.preview));
    lemma_concat_assoc(enc_opt_str(v.to), enc_opt_str(v.message_id), enc_u64(v.bytes as u64));
}

#[verifier::rlimit(100)]
#[verifier::spinoff_prover]
proof fn lemma_flat_r5(v: InboxMessageView)
    ensures
        enc_inbox_r5(v) == enc_str(v.from) + enc_opt_str(v.to) + enc_opt_str(v.message_id) + enc_u64(v.bytes as u64) + enc_str(v.preview) + enc_str(v.conversation_id) + enc_opt_str(v.content) + enc_bool(v.delivered),
{
    lemma_flat_r6(v);
    lemma_concat_assoc(enc_str(v.from), enc_opt_str(v.to) + enc_opt_str(v.message_id) + enc_u64(v.bytes as u64) + enc_str(v.preview) + enc_str(v.conversation_id) + enc_opt_str(v.content), enc_bool(v.delivered));
    lemma_concat_assoc(enc_str(v.from), enc_opt_str(v.to) + enc_opt_str(v.message_id) + enc_u64(v.bytes as u64) + enc_str(v.preview) + enc_str(v.conversation_id), enc_opt_str(v.content));
    lemma_concat_assoc(enc_str(v.from), enc_opt_str(v.to) + enc_opt_str(v.message_id) + enc_u64(v.bytes as u64) + enc_str(v.preview), enc_str(v.conversation_id));
    lemma_concat_assoc(enc_str(v.from), enc_opt_str(v.to) + enc_opt_str(v.message_id) + enc_u64(v.bytes as u64), enc_str(v.preview));
    lemma_concat_assoc(enc_str(v.from), enc_opt_str(v.to) + enc_opt_str(v.message_id), enc_u64(v.bytes as u64));
    lemma_concat_assoc(enc_str(v.from), enc_opt_str(v.to), enc_opt_str(v.message_id));
}

#[verifier::rlimit(100)]
#[verifier::spinoff_prover]
proof fn lemma_flat_r4(v: InboxMessageView)
    ensures
        enc_inbox_r4(v) == enc_str(v.peer) + enc_str(v.from) + enc_opt_str(v.to) + enc_opt_str(v.message_id) + enc_u64(v.bytes as u64) + enc_str(v.preview) + enc_str(v.conversation_id) + enc_opt_str(v.content) + enc_bool(v.delivered),
{
    lemma_flat_r5(v);
    lemma_concat_assoc(enc_str(v.peer), enc_str(v.from) + enc_opt_str(v.to) + enc_opt_str(v.message_id) + enc_u64(v.bytes as u64) + enc_str(v.preview) + enc_str(v.conversation_id) + enc_opt_str(v.content), enc_bool(v.delivered));
    lemma_concat_assoc(enc_str(v.peer), enc_str(v.from) + enc_opt_str(v.to) + enc_opt_str(v.message_id) + enc_u64(v.bytes as u64) + enc_str(v.preview) + enc_str(v.conversation_id), enc_opt_str(v.content));
    lemma_concat_assoc(enc_str(v.peer), enc_str(v.from) + enc_opt_str(v.to) + enc_opt_str(v.message_id) + enc_u64(v.bytes as u64) + enc_str(v.preview), enc_str(v.conversation_id));
    lemma_concat_assoc(enc_str(v.peer), enc_str(v.from) + enc_opt_str(v.to) + enc_opt_str(v.message_id) + enc_u64(v.bytes as u64), enc_str(v.preview));
    lemma_concat_assoc(enc_str(v.peer), enc_str(v.from) + enc_opt_str(v.to) + enc_opt_str(v.message_id), enc_u64(v.bytes as u64));
    lemma_concat_assoc(enc_str(v.peer), enc_str(v.from) + enc_opt_str(v.to), enc_opt_str(v.message_id));
    lemma_concat_assoc(enc_str(v.peer), enc_str(v.from), enc_opt_str(v.to));
}

#[verifier::rlimit(100)]
#[verifier::spinoff_prover]
proof fn lemma_flat_r3(v: InboxMessageView)
    ensures
        enc_inbox_r3(v) == enc_str(v.kind) + enc_str(v.peer) + enc_str(v.from) + enc_opt_str(v.to) + enc_opt_str(v.message_id) + enc_u64(v.bytes as u64) + enc_str(v.preview) + enc_str(v.conversation_id) + enc_opt_str(v.content) + enc_bool(v.delivered),
{
    lemma_flat_r4(v);
    lemma_concat_assoc(enc_str(v.kind), enc_str(v.peer) + enc_str(v.from) + enc_opt_str(v.to) + enc_opt_str(v.message_id) + enc_u64(v.bytes as u64) + enc_str(v.preview) + enc_str(v.conversation_id) + enc_opt_str(v.content), enc_bool(v.delivered));
    lemma_concat_assoc(enc_str(v.kind), enc_str(v.peer) + enc_str(v.from) + enc_opt_str(v.to) + enc_opt_str(v.message_id) + enc_u64(v.bytes as u64) + enc_str(v.preview) + enc_str(v.conversation_id), enc_opt_str(v.content));
    lemma_concat_assoc(enc_str(v.kind), enc_str(v.peer) + enc_str(v.from) + enc_opt_str(v.to) + enc_opt_str(v.message_id) + enc_u64(v.bytes as u64) + enc_str(v.preview), enc_str(v.conversation_id));
    lemma_concat_assoc(enc_str(v.kind), enc_str(v.peer) + enc_str(v.from) + enc_opt_str(v.to) + enc_opt_str(v.message_id) + enc_u64(v.bytes as u64), enc_str(v.preview));
    lemma_concat_assoc(enc_str(v.kind), enc_str(v.peer) + enc_str(v.from) + enc_opt_str(v.to) + enc_opt_str(v.message_id), enc_u64(v.bytes as u64));
    lemma_concat_assoc(enc_str(v.kind), enc_str(v.peer) + enc_str(v.from) + enc_opt_str(v.to), enc_opt_str(v.message_id));
    lemma_concat_assoc(enc_str(v.kind), enc_str(v.peer) + enc_str(v.from), enc_opt_str(v.to));
    lemma_concat_assoc(enc_str(v.kind), enc_str(v.peer), enc_str(v.from));
}

#[verifier::rlimit(100)]
#[verifier::spinoff_prover]
proof fn lemma_flat_r2(v: InboxMessageView)
    ensures
        enc_inbox_r2(v) == enc_str(v.direction) + enc_str(v.kind) + enc_str(v.peer) + enc_str(v.from) + enc_opt_str(v.to) + enc_opt_str(v.message_id) + enc_u64(v.bytes as u64) + enc_str(v.preview) + enc_str(v.conversation_id) + enc_opt_str(v.content) + enc_bool(v.delivered),
{
    lemma_flat_r3(v);
    lemma_concat_assoc(enc_str(v.direction), enc_str(v.kind) + enc_str(v.peer) + enc_str(v.from) + enc_opt_str(v.to) + enc_opt_str(v.message_id) + enc_u64(v.bytes as u64) + enc_str(v.preview) + enc_str(v.conversation_id) + enc_opt_str(v.content), enc_bool(v.delivered));
    lemma_concat_assoc(enc_str(v.direction), enc_str(v.kind) + enc_str(v.peer) + enc_str(v.from) + enc_opt_str(v.to) + enc_opt_str(v.message_id) + enc_u64(v.bytes as u64) + enc_str(v.preview) + enc_str(v.conversation_id), enc_opt_str(v.content));
    lemma_concat_assoc(enc_str(v.direction), enc_str(v.kind) + enc_str(v.peer) + enc_str(v.from) + enc_opt_str(v.to) + enc_opt_str(v.message_id) + enc_u64(v.bytes as u64) + enc_str(v.preview), enc_str(v.conversation_id));
    lemma_concat_assoc(enc_str(v.direction), enc_str(v.kind) + enc_str(v.peer) + enc_str(v.from) + enc_opt_str(v.to) + enc_opt_str(v.message_id) + enc_u64(v.bytes as u64), enc_str(v.preview));
    lemma_concat_assoc(enc_str(v.direction), enc_str(v.kind) + enc_str(v.peer) + enc_str(v.from) + enc_opt_str(v.to) + enc_opt_str(v.message_id), enc_u64(v.bytes as u64));
    lemma_concat_assoc(enc_str(v.direction), enc_str(v.kind) + enc_str(v.peer) + enc_str(v.from) + enc_opt_str(v.to), enc_opt_str(v.message_id));
    lemma_concat_assoc(enc_str(v.direction), enc_str(v.kind) + enc_str(v.peer) + enc_str(v.from), enc_opt_str(v.to));
    lemma_concat_assoc(enc_str(v.direction), enc_str(v.kind) + enc_str(v.peer), enc_str(v.from));
    lemma_concat_assoc(enc_str(v.direction), enc_str(v.kind), enc_str(v.peer));
}

#[verifier::rlimit(100)]
#[verifier::spinoff_prover]
proof fn lemma_flat_r1(v: InboxMessageView)
    ensures
        enc_inbox_r1(v) == enc_str(v.timestamp) + enc_str(v.direction) + enc_str(v.kind) + enc_str(v.peer) + enc_str(v.from) + enc_opt_str(v.to) + enc_opt_str(v.message_id) + enc_u64(v.bytes as u64) + enc_str(v.preview) + enc_str(v.conversation_id) + enc_opt_str(v.content) + enc_bool(v.delivered),
{
    lemma_flat_r2(v);
    lemma_concat_assoc(enc_str(v.timestamp), enc_str(v.direction) + enc_str(v.kind) + enc_str(v.peer) + enc_str(v.from) + enc_opt_str(v.to) + enc_opt_str(v.message_id) + enc_u64(v.bytes as u64) + enc_str(v.preview) + enc_str(v.conversation_id) + enc_opt_str(v.content), enc_bool(v.delivered));
    lemma_concat_assoc(enc_str(v.timestamp), enc_str(v.direction) + enc_str(v.kind) + enc_str(v.peer) + enc_str(v.from) + enc_opt_str(v.to) + enc_opt_str(v.message_id) + enc_u64(v.bytes as u64) + enc_str(v.preview) + enc_str(v.conversation_id), enc_opt_str(v.content));
    lemma_concat_assoc(enc_str(v.timestamp), enc_str(v.direction) + enc_str(v.kind) + enc_str(v.peer) + enc_str(v.from) + enc_opt_str(v.to) + enc_opt_str(v.message_id) + enc_u64(v.bytes as u64) + enc_str(v.preview), enc_str(v.conversation_id));
    lemma_concat_assoc(enc_str(v.timestamp), enc_str(v.direction) + enc_str(v.kind) + enc_str(v.peer) + enc_str(v.from) + enc_opt_str(v.to) + enc_opt_str(v.message_id) + enc_u64(v.bytes as u64), enc_str(v.preview));
    lemma_concat_assoc(enc_str(v.timestamp), enc_str(v.direction) + enc_str(v.kind) + enc_str(v.peer) + enc_str(v.from) + enc_opt_str(v.to) + enc_opt_str(v.message_id), enc_u64(v.bytes as u64));
    lemma_concat_assoc(enc_str(v.timestamp), enc_str(v.direction) + enc_str(v.kind) + enc_str(v.peer) + enc_str(v.from) + enc_opt_str(v.to), enc_opt_str(v.message_id));
    lemma_concat_assoc(enc_str(v.timestamp), enc_str(v.direction) + enc_str(v.kind) + enc_str(v.peer) + enc_str(v.from), enc_opt_str(v.to));
    lemma_concat_assoc(enc_str(v.timestamp), enc_str(v.direction) + enc_str(v.kind) + enc_str(v.peer), enc_str(v.from));
    lemma_concat_assoc(enc_str(v.timestamp), enc_str(v.direction) + enc_str(v.kind), enc_str(v.peer));
    lemma_concat_assoc(enc_str(v.timestamp), enc_str(v.direction), enc_str(v.kind));
}

#[verifier::rlimit(100)]
#[verifier::spinoff_prover]
pub proof fn lemma_enc_inbox_flat(v: InboxMessageView)
    ensures
        enc_inbox(v) == enc_u64(v.seq) + enc_str(v.timestamp) + enc_str(v.direction) + enc_str(v.kind) + enc_str(v.peer) + enc_str(v.from) + enc_opt_str(v.to) + enc_opt_str(v.message_id) + enc_u64(v.bytes as u64) + enc_str(v.preview) + enc_str(v.conversation_id) + enc_opt_str(v.content) + enc_bool(v.delivered),
{
    lemma_flat_r1(v);
    lemma_concat_assoc(enc_u64(v.seq), enc_str(v.timestamp) + enc_str(v.direction) + enc_str(v.kind) + enc_str(v.peer) + enc_str(v.from) + enc_opt_str(v.to) + enc_opt_str(v.message_id) + enc_u64(v.bytes as u64) + enc_str(v.preview) + enc_str(v.conversation_id) + enc_opt_str(v.content), enc_bool(v.delivered));
    lemma_concat_assoc(enc_u64(v.seq), enc_str(v.timestamp) + enc_str(v.direction) + enc_str(v.kind) + enc_str(v.peer) + enc_str(v.from) + enc_opt_str(v.to) + enc_opt_str(v.message_id) + enc_u64(v.bytes as u64) + enc_str(v.preview) + enc_str(v.conversation_id), enc_opt_str(v.content));
    lemma_concat_assoc(enc_u64(v.seq), enc_str(v.timestamp) + enc_str(v.direction) + enc_str(v.kind) + enc_str(v.peer) + enc_str(v.from) + enc_opt_str(v.to) + enc_opt_str(v.message_id) + enc_u64(v.bytes as u64) + enc_str(v.preview), enc_str(v.conversation_id));
    lemma_concat_assoc(enc_u64(v.seq), enc_str(v.timestamp) + enc_str(v.direction) + enc_str(v.kind) + enc_str(v.peer) + enc_str(v.from) + enc_opt_str(v.to) + enc_opt_str(v.message_id) + enc_u64(v.bytes as u64), enc_str(v.preview));
    lemma_concat_assoc(enc_u64(v.seq), enc_str(v.timestamp) + enc_str(v.direction) + enc_str(v.kind) + enc_str(v.peer) + enc_str(v.from) + enc_opt_str(v.to) + enc_opt_str(v.message_id), enc_u64(v.bytes as u64));
    lemma_concat_assoc(enc_u64(v.seq), enc_str(v.timestamp) + enc_str(v.direction) + enc_str(v.kind) + enc_str(v.peer) + enc_str(v.from) + enc_opt_str(v.to), enc_opt_str(v.message_id));
    lemma_concat_assoc(enc_u64(v.seq), enc_str(v.timestamp) + enc_str(v.direction) + enc_str(v.kind) + enc_str(v.peer) + enc_str(v.from), enc_opt_str(v.to));
    lemma_concat_assoc(enc_u64(v.seq), enc_str(v.timestamp) + enc_str(v.direction) + enc_str(v.kind) + enc_str(v.peer), enc_str(v.from));
    lemma_concat_assoc(enc_u64(v.seq), enc_str(v.timestamp) + enc_str(v.direction) + enc_str(v.kind), enc_str(v.peer));
    lemma_concat_assoc(enc_u64(v.seq), enc_str(v.timestamp) + enc_str(v.direction), enc_str(v.kind));
    lemma_concat_assoc(enc_u64(v.seq), enc_str(v.timestamp), enc_str(v.direction));
}

/// Append one message's encoding.
#[verifier::rlimit(100)]
#[verifier::spinoff_prover]
pub fn write_inbox(out: &mut Vec<u8>, m: &InboxMessage)
    ensures
        final(out)@ == old(out)@ + enc_inbox(m@),
{
    write_u64(out, m.seq);
    write_str(out, m.timestamp.as_str());
    write_str(out, m.direction.as_str());
    write_str(out, m.kind.as_str());
    write_str(out, m.peer.as_str());
    write_str(out, m.from.as_str());
    write_opt_str(out, &m.to);
    write_opt_str(out, &m.message_id);
    write_u64(out, m.bytes as u64);
    write_str(out, m.preview.as_str());
    write_str(out, m.conversation_id.as_str());
    write_opt_str(out, &m.content);
    if m.delivered {
        out.push(1u8);
    } else {
        out.push(0u8);
    }
    proof {
        lemma_enc_inbox_flat(m@);
        assert(out@ =~= old(out)@ + (enc_u64(m@.seq) + enc_str(m@.timestamp) + enc_str(
            m@.direction,
        ) + enc_str(m@.kind) + enc_str(m@.peer) + enc_str(m@.from) + enc_opt_str(m@.to)
            + enc_opt_str(m@.message_id) + enc_u64(m@.bytes as u64) + enc_str(m@.preview)
            + enc_str(m@.conversation_id) + enc_opt_str(m@.content) + enc_bool(m@.delivered)));
    }
}

/// Read one message; the outcome is the deterministic parse at the offset.
#[verifier::rlimit(100)]
#[verifier::spinoff_prover]
pub fn read_inbox(buf: &[u8], i: usize) -> (r: Option<(InboxMessage, usize)>)
    ensures
        match r {
            Some((m, j)) => sdec_inbox(buf@, i as int) == Some((m@, j as int)),
            None => sdec_inbox(buf@, i as int) is None,
        },
{
    let (seq, i1) = match read_u64(buf, i) {
        None => { return None; },
        Some(p) => p,
    };
    let (timestamp, i2) = match read_str(buf, i1) {
        None => { return None; },
        Some(p) => p,
    };
    let (direction, i3) = match read_str(buf, i2) {
        None => { return None; },
        Some(p) => p,
    };
    let (kind, i4) = match read_str(buf, i3) {
        None => { return None; },
        Some(p) => p,
    };
    let (peer, i5) = match read_str(buf, i4) {
        None => { return None; },
        Some(p) => p,
    };
    let (from, i6) = match read_str(buf, i5) {
        None => { return None; },
        Some(p) => p,
    };
    let (to, i7) = match read_opt_str(buf, i6) {
        None => { return None; },
        Some(p) => p,
    };
    let (message_id, i8) = match read_opt_str(buf, i7) {
        None => { return None; },
        Some(p) => p,
    };
    let (nbytes, i9) = match read_u64(buf, i8) {
        None => { return None; },
        Some(p) => p,
    };
    if nbytes > usize::MAX as u64 {
        return None;
    }
    let (preview, i10) = match read_str(buf, i9) {
        None => { return None; },
        Some(p) => p,
    };
    let (conversation_id, i11) = match read_str(buf, i10) {
        None => { return None; },
        Some(p) => p,
    };
    let (content, i12) = match read_opt_str(buf, i11) {
        None => { return None; },
        Some(p) => p,
    };
    let (db, i13) = match read_u8(buf, i12) {
        None => { return None; },
        Some(p) => p,
    };
    if db > 1 {
        return None;
    }
    Some((
        InboxMessage {
            seq,
            timestamp,
            direction,
            kind,
            peer,
            from,
            to,
            message_id,
            bytes: nbytes as usize,
            preview,
            conversation_id,
            content,
            delivered: db == 1,
        },
        i13,
    ))
}

/// Every string field of the entry fits the coding's length prefixes.
pub open spec fn inbox_wf(v: InboxMessageView) -> bool {
    str_wf(v.timestamp) && str_wf(v.direction) && str_wf(v.kind) && str_wf(v.peer) && str_wf(
        v.from,
    ) && opt_str_wf(v.to) && opt_str_wf(v.message_id) && str_wf(v.preview) && str_wf(
        v.conversation_id,
    ) && opt_str_wf(v.content)
}

/// Reading a message back at the offset where it was written yields the
/// written message.
#[verifier::rlimit(100)]
#[verifier::spinoff_prover]
pub proof fn lemma_sdec_inbox_at(buf: Seq<u8>, i: int, v: InboxMessageView)
    requires
        0 <= i,
        i + enc_inbox(v).len() <= buf.len(),
        inbox_wf(v),
        buf.subrange(i, i + enc_inbox(v).len()) == enc_inbox(v),
    ensures
        sdec_inbox(buf, i) == Some((v, i + enc_inbox(v).len())),
{
    lemma_concat_sub(buf, enc_u64(v.seq), enc_inbox_r1(v), i);
    lemma_sdec_u64_at(buf, i, v.seq);
    let o1: int = i + 8;
    lemma_concat_sub(buf, enc_str(v.timestamp), enc_inbox_r2(v), o1);
    lemma_sdec_str_at(buf, o1, v.timestamp);
    let o2: int = o1 + enc_str(v.timestamp).len();
    lemma_concat_sub(buf, enc_str(v.direction), enc_inbox_r3(v), o2);
    lemma_sdec_str_at(buf, o2, v.direction);
    let o3: int = o2 + enc_str(v.direction).len();
    lemma_concat_sub(buf, enc_str(v.kind), enc_inbox_r4(v), o3);
    lemma_sdec_str_at(buf, o3, v.kind);
    let o4: int = o3 + enc_str(v.kind).len();
    lemma_concat_sub(buf, enc_str(v.peer), enc_inbox_r5(v), o4);
    lemma_sdec_str_at(buf, o4, v.peer);
    let o5: int = o4 + enc_str(v.peer).len();
    lemma_concat_sub(buf, enc_str(v.from), enc_inbox_r6(v), o5);
    lemma_sdec_str_at(buf, o5, v.from);
    let o6: int = o5 + enc_str(v.from).len();
    lemma_concat_sub(buf, enc_opt_str(v.to), enc_inbox_r7(v), o6);
    lemma_sdec_opt_str_at(buf, o6, v.to);
    let o7: int = o6 + enc_opt_str(v.to).len();
    lemma_concat_sub(buf, enc_opt_str(v.message_id), enc_inbox_r8(v), o7);
    lemma_sdec_opt_str_at(buf, o7, v.message_id);
    let o8: int = o7 + enc_opt_str(v.message_id).len();
    lemma_concat_sub(buf, enc_u64(v.bytes as u64), enc_inbox_r9(v), o8);
    lemma_sdec_u64_at(buf, o8, v.bytes as u64);
    let o9: int = o8 + 8;
    lemma_concat_sub(buf, enc_str(v.preview), enc_inbox_r10(v), o9);
    lemma_sdec_str_at(buf, o9, v.preview);
    let o10: int = o9 + enc_str(v.preview).len();
    lemma_concat_sub(buf, enc_str(v.conversation_id), enc_inbox_r11(v), o10);
    lemma_sdec_str_at(buf, o10, v.conversation_id);
    let o11: int = o10 + enc_str(v.conversation_id).len();
    lemma_concat_sub(buf, enc_opt_str(v.content), enc_bool(v.delivered), o11);
    lemma_sdec_opt_str_at(buf, o11, v.content);
    let o12: int = o11 + enc_opt_str(v.content).len();
    assert(buf[o12] == buf.subrange(o12, o12 + 1)[0]);
    if v.delivered {
        lemma_sdec_u8_at(buf, o12, 1u8);
    } else {
        lemma_sdec_u8_at(buf, o12, 0u8);
    }
}

// ---------------------------------------------------------------------------
// the bundle codec
// ---------------------------------------------------------------------------

/// The encodings of a message list, in order.
pub open spec fn enc_inbox_seq(l: Seq<InboxMessageView>) -> Seq<u8>
    decreases l.len(),
{
    if l.len() == 0 {
        Seq::<u8>::empty()
    } else {
        enc_inbox(l[0]) + enc_inbox_seq(l.drop_first())
    }
}

/// The deterministic parse of `n` consecutive messages.
pub open spec fn sdec_inbox_seq(buf: Seq<u8>, i: int, n: nat) -> Option<(
    Seq<InboxMessageView>,
    int,
)>
    decreases n,
{
    if n == 0 {
        Some((Seq::empty(), i))
    } else {
        match sdec_inbox(buf, i) {
            None => None,
            Some((m, j)) => match sdec_inbox_seq(buf, j, (n - 1) as nat) {
                None => None,
                Some((rest, k)) => Some((seq![m] + rest, k)),
            },
        }
    }
}

/// The byte-exact encoding of a bundle.
pub open spec fn enc_bundle(
    version: u8,
    created_at: i64,
    expires_at: i64,
    messages: Seq<InboxMessageView>,
) -> Seq<u8> {
    seq![version] + enc_u64(i64_as_u64(created_at)) + enc_u64(i64_as_u64(expires_at)) + enc_u64(
        messages.len() as u64,
    ) + enc_inbox_seq(messages)
}

/// The deterministic whole-buffer parse of a bundle.
pub open spec fn sdec_bundle_full(buf: Seq<u8>) -> Option<(u8, i64, i64, Seq<InboxMessageView>)> {
    match sdec_u8(buf, 0) {
        None => None,
        Some((version, i0)) => match sdec_u64(buf, i0) {
            None => None,
            Some((ca, i1)) => match sdec_u64(buf, i1) {
                None => None,
                Some((ea, i2)) => match sdec_u64(buf, i2) {
                    None => None,
                    Some((n, i3)) => match sdec_inbox_seq(buf, i3, n as nat) {
                        None => None,
                        Some((messages, j)) => if j == buf.len() {
                            Some((version, u64_as_i64(ca), u64_as_i64(ea), messages))
                        } else {
                            None
                        },
                    },
                },
            },
        },
    }
}

#[verifier::rlimit(100)]
#[verifier::spinoff_prover]
proof fn lemma_sdec_inbox_seq_at(buf: Seq<u8>, i: int, l: Seq<InboxMessageView>)
    requires
        0 <= i,
        i + enc_inbox_seq(l).len() <= buf.len(),
        forall|m: int| 0 <= m < l.len() ==> inbox_wf(#[trigger] l[m]),
        buf.subrange(i, i + enc_inbox_seq(l).len()) == enc_inbox_seq(l),
    ensures
        sdec_inbox_seq(buf, i, l.len()) == Some((l, i + enc_inbox_seq(l).len())),
    decreases l.len(),
{
    if l.len() == 0 {
        assert(l =~= Seq::<InboxMessageView>::empty());
    } else {
        let head = enc_inbox(l[0]);
        let tail = enc_inbox_seq(l.drop_first());
        lemma_concat_sub(buf, head, tail, i);
        lemma_sdec_inbox_at(buf, i, l[0]);
        lemma_sdec_inbox_seq_at(buf, i + head.len(), l.drop_first());
        assert(seq![l[0]] + l.drop_first() =~= l);
    }
}

/// Bundle write then read yields the same version, instants and messages,
/// in the same order.
#[verifier::rlimit(100)]
#[verifier::spinoff_prover]
pub proof fn lemma_bundle_round_trip(
    version: u8,
    created_at: i64,
    expires_at: i64,
    messages: Seq<InboxMessageView>,
)
    requires
        messages.len() < 0x10000000000000000,
        forall|m: int| 0 <= m < messages.len() ==> inbox_wf(#[trigger] messages[m]),
    ensures
        sdec_bundle_full(enc_bundle(version, created_at, expires_at, messages)) == Some(
            (version, created_at, expires_at, messages),
        ),
{
    let buf = enc_bundle(version, created_at, expires_at, messages);
    let p0 = seq![version];
    let p1 = enc_u64(i64_as_u64(created_at));
    let p2 = enc_u64(i64_as_u64(expires_at));
    let p3 = enc_u64(messages.len() as u64);
    let p4 = enc_inbox_seq(messages);
    assert(buf.subrange(0, buf.len() as int) =~= buf);
    lemma_concat_sub(buf, p0 + p1 + p2 + p3, p4, 0);
    lemma_concat_sub(buf, p0 + p1 + p2, p3, 0);
    lemma_concat_sub(buf, p0 + p1, p2, 0);
    lemma_concat_sub(buf, p0, p1, 0);
    assert(buf[0] == buf.subrange(0, 1)[0]);
    lemma_sdec_u8_at(buf, 0, version);
    lemma_sdec_u64_at(buf, 1, i64_as_u64(created_at));
    lemma_sdec_u64_at(buf, 9, i64_as_u64(expires_at));
    lemma_sdec_u64_at(buf, 17, messages.len() as u64);
    lemma_i64_u64_round_trip(created_at);
    lemma_i64_u64_round_trip(expires_at);
    lemma_sdec_inbox_seq_at(buf, 25, messages);
}

// ---------------------------------------------------------------------------
// saturating time arithmetic
// ---------------------------------------------------------------------------

/// `a + b` held inside the i64 range.
pub open spec fn spec_sat_add_i64(a: i64, b: i64) -> i64 {
    if a + b > i64::MAX {
        i64::MAX
    } else if a + b < i64::MIN {
        i64::MIN
    } else {
        (a + b) as i64
    }
}

pub fn sat_add_i64(a: i64, b: i64) -> (r: i64)
    ensures
        r == spec_sat_add_i64(a, b),
{
    if b >= 0 {
        if a > i64::MAX - b {
            i64::MAX
        } else {
            a + b
        }
    } else {
        if a < i64::MIN - b {
            i64::MIN
        } else {
            a + b
        }
    }
}

/// `days · 86400` held inside the i64 range.
pub open spec fn spec_sat_mul_day(days: i64) -> i64 {
    if days * 86400 > i64::MAX {
        i64::MAX
    } else if days * 86400 < i64::MIN {
        i64::MIN
    } else {
        (days * 86400) as i64
    }
}

pub fn sat_mul_day(days: i64) -> (r: i64)
    ensures
        r == spec_sat_mul_day(days),
{
    if days > i64::MAX / 86400 {
        i64::MAX
    } else if days < i64::MIN / 86400 {
        i64::MIN
    } else {
        days * 86400
    }
}

// ---------------------------------------------------------------------------
// the bundle itself
// ---------------------------------------------------------------------------

impl MessageBundle {
    /// A new bundle of the given messages, expiring the given number of
    /// days after creation (held inside the clock's range).
    pub fn new(messages: Vec<InboxMessage>, ttl_days: i64) -> (r: MessageBundle)
        ensures
            r.version == BUNDLE_VERSION,
            r.messages@ == messages@,
            r.expires_at == spec_sat_add_i64(r.created_at, spec_sat_mul_day(ttl_days)),
    {
        let now = now_unix();
        let expires = sat_add_i64(now, sat_mul_day(ttl_days));
        MessageBundle { version: BUNDLE_VERSION, created_at: now, expires_at: expires, messages }
    }

    /// Serialize the bundle; the bytes are exactly its encoding.
    pub fn to_bytes(&self) -> (r: Result<Vec<u8>, MeshError>)
        ensures
            r is Ok,
            r matches Ok(v) ==> v@ == enc_bundle(
                self.version,
                self.created_at,
                self.expires_at,
                self.messages.deep_view(),
            ),
    {
        let mut out: Vec<u8> = Vec::new();
        out.push(self.version);
        write_u64(&mut out, i64_to_u64(self.created_at));
        write_u64(&mut out, i64_to_u64(self.expires_at));
        write_u64(&mut out, self.messages.len() as u64);
        let ghost base = out@;
        proof {
            assert(self.messages.deep_view().len() == self.messages@.len());
        }
        let mut k: usize = 0;
        while k < self.messages.len()
            invariant
                k <= self.messages@.len(),
                self.messages.deep_view().len() == self.messages@.len(),
                forall|m: int| 0 <= m < self.messages@.len() ==> self.messages.deep_view()[m]
                    == self.messages@[m]@,
                out@ == base + enc_inbox_seq(self.messages.deep_view().take(k as int)),
            decreases self.messages@.len() - k,
        {
            write_inbox(&mut out, &self.messages[k]);
            proof {
                lemma_enc_inbox_seq_snoc(
                    self.messages.deep_view().take(k as int),
                    self.messages@[k as int]@,
                );
                assert(self.messages.deep_view().take(k + 1 as int) =~= self.messages.deep_view()
                    .take(k as int).push(self.messages.deep_view()[k as int]));
            }
            k = k + 1;
        }
        proof {
            assert(self.messages.deep_view().take(self.messages@.len() as int)
                =~= self.messages.deep_view());
            assert(out@ =~= enc_bundle(
                self.version,
                self.created_at,
                self.expires_at,
                self.messages.deep_view(),
            ));
        }
        Ok(out)
    }

    /// Parse a bundle without judging it: the outcome is the deterministic
    /// whole-buffer parse of the input, whatever its version or expiry.
    #[verifier::rlimit(100)]
    #[verifier::spinoff_prover]
    pub fn parse(data: &[u8]) -> (r: Result<MessageBundle, MeshError>)
        ensures
            r matches Ok(b) ==> sdec_bundle_full(data@) == Some(
                (b.version, b.created_at, b.expires_at, b.messages.deep_view()),
            ),
            r is Err ==> sdec_bundle_full(data@) is None,
            r matches Err(e) ==> e is Serialization,
    {
        let err: MeshError = MeshError::Serialization(String::from_str("invalid bundle"));
        let (version, i0) = match read_u8(data, 0) {
            None => { return Err(err); },
            Some(p) => p,
        };
        let (ca, i1) = match read_u64(data, i0) {
            None => { return Err(err); },
            Some(p) => p,
        };
        let (ea, i2) = match read_u64(data, i1) {
            None => { return Err(err); },
            Some(p) => p,
        };
        let (n, i3) = match read_u64(data, i2) {
            None => { return Err(err); },
            Some(p) => p,
        };
        let mut messages: Vec<InboxMessage> = Vec::new();
        let mut left: u64 = n;
        let mut j: usize = i3;
        proof {
            let ghost s0 = sdec_inbox_seq(data@, i3 as int, n as nat);
            if s0 is Some {
                let ghost (rest, kk) = s0->0;
                assert(messages.deep_view() + rest =~= rest);
            }
        }
        while left > 0
            invariant
                messages.deep_view().len() == messages@.len(),
                forall|m: int| 0 <= m < messages@.len() ==> messages.deep_view()[m]
                    == messages@[m]@,
                sdec_inbox_seq(data@, i3 as int, n as nat) == (match sdec_inbox_seq(
                    data@,
                    j as int,
                    left as nat,
                ) {
                    None => None::<(Seq<InboxMessageView>, int)>,
                    Some((rest, k)) => Some((messages.deep_view() + rest, k)),
                }),
                sdec_u8(data@, 0) == Some((version, i0 as int)),
                sdec_u64(data@, i0 as int) == Some((ca, i1 as int)),
                sdec_u64(data@, i1 as int) == Some((ea, i2 as int)),
                sdec_u64(data@, i2 as int) == Some((n, i3 as int)),
                err is Serialization,
            decreases left,
        {
            let (m, j2) = match read_inbox(data, j) {
                None => {
                    proof {
                        assert(sdec_inbox_seq(data@, j as int, left as nat) is None);
                        assert(sdec_inbox_seq(data@, i3 as int, n as nat) is None);
                        assert(sdec_bundle_full(data@) is None);
                    }
                    return Err(err);
                },
                Some(p) => p,
            };
            proof {
                let ghost rem = sdec_inbox_seq(data@, j2 as int, (left - 1) as nat);
                if rem is Some {
                    let ghost (rest, kk) = rem->0;
                    assert(messages.deep_view().push(m@) + rest =~= messages.deep_view() + (seq![
                        m@,
                    ] + rest));
                }
            }
            let ghost prevm = messages.deep_view();
            messages.push(m);
            proof {
                assert(messages.deep_view() =~= prevm.push(messages@.last()@));
            }
            j = j2;
            left = left - 1;
        }
        proof {
            assert(messages.deep_view() + Seq::<InboxMessageView>::empty()
                =~= messages.deep_view());
        }
        if j != data.len() {
            return Err(err);
        }
        Ok(MessageBundle {
            version,
            created_at: u64_to_i64(ca),
            expires_at: u64_to_i64(ea),
            messages,
        })
    }

    /// Parse a bundle and validate it against the current instant: the
    /// version must be the supported one and the expiry must not be past.
    pub fn from_bytes_at(data: &[u8], now: i64) -> (r: Result<MessageBundle, MeshError>)
        ensures
            r matches Ok(b) ==> sdec_bundle_full(data@) == Some(
                (b.version, b.created_at, b.expires_at, b.messages.deep_view()),
            ) && b.version == BUNDLE_VERSION && b.expires_at >= now,
            r matches Err(e) ==> (match sdec_bundle_full(data@) {
                None => e is Serialization,
                Some((version, ca, ea, ms)) => (version != BUNDLE_VERSION && e is Protocol) || (
                version == BUNDLE_VERSION && ea < now && e is Protocol),
            }),
    {
        let bundle = match Self::parse(data) {
            Ok(b) => b,
            Err(e) => { return Err(e); },
        };
        if bundle.version != BUNDLE_VERSION {
            return Err(MeshError::Protocol(String::from_str("Unsupported bundle version")));
        }
        if bundle.expires_at < now {
            return Err(MeshError::Protocol(String::from_str("Bundle expired")));
        }
        Ok(bundle)
    }

    /// Bundle facts for display.
    pub fn info(&self) -> (r: BundleInfo)
        ensures
            r.version == self.version,
            r.message_count == self.messages@.len(),
            r.total_bytes == spec_total_bytes(self.messages@),
    {
        let mut total: u64 = 0;
        let mut k: usize = 0;
        while k < self.messages.len()
            invariant
                k <= self.messages@.len(),
                total == spec_total_bytes(self.messages@.take(k as int)),
            decreases self.messages@.len() - k,
        {
            proof {
                assert(self.messages@.take(k + 1 as int).drop_last() =~= self.messages@.take(
                    k as int,
                ));
                assert(self.messages@.take(k + 1 as int).last() == self.messages@[k as int]);
            }
            let b: u64 = self.messages[k].bytes as u64;
            if total > u64::MAX - b {
                total = u64::MAX;
            } else {
                total = total + b;
            }
            k = k + 1;
        }
        proof {
            assert(self.messages@.take(self.messages@.len() as int) =~= self.messages@);
        }
        BundleInfo {
            version: self.version,
            created_at: rfc3339_of_unix(self.created_at),
            expires_at: rfc3339_of_unix(self.expires_at),
            message_count: self.messages.len(),
            total_bytes: total,
        }
    }
}

/// The sum of the payload sizes, held inside the u64 range.
pub open spec fn spec_total_bytes(s: Seq<InboxMessage>) -> u64
    decreases s.len(),
{
    if s.len() == 0 {
        0
    } else if spec_total_bytes(s.drop_last()) + s.last().bytes as u64 > u64::MAX {
        u64::MAX
    } else {
        (spec_total_bytes(s.drop_last()) + s.last().bytes as u64) as u64
    }
}

proof fn lemma_enc_inbox_seq_snoc(l: Seq<InboxMessageView>, v: InboxMessageView)
    ensures
        enc_inbox_seq(l.push(v)) == enc_inbox_seq(l) + enc_inbox(v),
    decreases l.len(),
{
    if l.len() == 0 {
        assert(l.push(v)[0] == v);
        assert(l.push(v).drop_first() =~= l);
        assert(enc_inbox_seq(l.push(v)) == enc_inbox(v) + enc_inbox_seq(l));
        assert(enc_inbox(v) + enc_inbox_seq(l) =~= enc_inbox_seq(l) + enc_inbox(v));
    } else {
        assert(l.push(v)[0] == l[0]);
        assert(l.push(v).drop_first() =~= l.drop_first().push(v));
        lemma_enc_inbox_seq_snoc(l.drop_first(), v);
        assert(enc_inbox_seq(l.push(v)) =~= enc_inbox_seq(l) + enc_inbox(v));
    }
}

// ---------------------------------------------------------------------------
// export and import against the inbox
// ---------------------------------------------------------------------------

/// The newest `count` entries of the inbox (all of them when fewer exist),
/// oldest first.
pub fn export_messages(inbox: &Inbox, count: usize) -> (r: Vec<InboxMessage>)
    requires
        inbox.wf(),
    ensures
        r@ == inbox.entries@.skip(
            if count < inbox.entries@.len() {
                inbox.entries@.len() - count as int
            } else {
                0
            },
        ),
{
    let len = inbox.entries.len();
    let start: usize = if count < len {
        len - count
    } else {
        0
    };
    let mut r: Vec<InboxMessage> = Vec::new();
    let mut k: usize = start;
    while k < len
        invariant
            start <= k <= len,
            len == inbox.entries@.len(),
            r@ == inbox.entries@.subrange(start as int, k as int),
        decreases len - k,
    {
        r.push(inbox.entries[k].duplicate());
        proof {
            assert(r@ =~= inbox.entries@.subrange(start as int, k + 1 as int));
        }
        k = k + 1;
    }
    proof {
        assert(inbox.entries@.subrange(start as int, len as int) =~= inbox.entries@.skip(
            start as int,
        ));
    }
    r
}

/// Deliver every message of a bundle into the local inbox. The result is
/// the count delivered, the count forwarded onto the mesh (none, until a
/// re-broadcast policy is decided), and the bundle's total.
pub fn import_bundle(inbox: &mut Inbox, bundle: &MessageBundle) -> (r: (usize, usize, usize))
    requires
        old(inbox).wf(),
        old(inbox).next_seq + bundle.messages@.len() < u64::MAX,
    ensures
        final(inbox).wf(),
        r.0 == bundle.messages@.len(),
        r.1 == 0,
        r.2 == bundle.messages@.len(),
        final(inbox).next_seq == old(inbox).next_seq + bundle.messages@.len(),
{
    let total = bundle.messages.len();
    let mut k: usize = 0;
    while k < total
        invariant
            k <= total,
            total == bundle.messages@.len(),
            inbox.wf(),
            inbox.next_seq == old(inbox).next_seq + k,
            old(inbox).next_seq + bundle.messages@.len() < u64::MAX,
        decreases total - k,
    {
        inbox.push_inbox(bundle.messages[k].duplicate());
        k = k + 1;
    }
    (total, 0, total)
}

} // verus!
