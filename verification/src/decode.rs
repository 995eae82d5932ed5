//! Decoding of stream envelopes.
//!
//! The decoders accept exactly the canonical byte forms produced by the
//! encoders in [`crate::envelope`]: a frame either parses to one
//! envelope value or is malformed, with nothing in between.  Decoding
//! is specified by spec-level parsers; the executable parser is proved
//! to agree with them byte for byte.

use vstd::prelude::*;

use crate::envelope::{
    AccountUpdateEvent, AccountUpdateEventView, InstructionInfo, InstructionView, MessageView,
    MessageWrapper, SlotStatusEvent, SlotStatusEventView, TransactionEvent, TransactionEventView,
    bool_byte, bytes_field, encode_account_update, encode_instruction, encode_instruction_list,
    encode_opt_slot_status, encode_slot_status, encode_transaction, encode_wrapper,
    opt_slot_status_view,
};
use crate::varint::{varint_bytes, varint_decode, read_varint, lemma_varint_round_trip};

verus! {

/// A frame that is not the canonical byte form of any envelope.
#[derive(Clone, Copy, Debug, PartialEq, Eq, Structural)]
pub struct DecodeError;

// --- spec-level parsers --------------------------------------------------

/// The length-prefixed byte string at the front of `s`, with the number
/// of bytes it occupies.
pub open spec fn take_bytes_field(s: Seq<u8>) -> Option<(Seq<u8>, int)> {
    match varint_decode(s) {
        Option::None => None,
        Option::Some((len, n)) => {
            if n + len <= s.len() {
                Some((s.subrange(n, n + len), n + len))
            } else {
                None
            }
        },
    }
}

/// The flag byte at the front of `s`.
pub open spec fn take_bool(s: Seq<u8>) -> Option<(bool, int)> {
    if s.len() == 0 {
        None
    } else if s[0] == 0 {
        Some((false, 1))
    } else if s[0] == 1 {
        Some((true, 1))
    } else {
        None
    }
}

/// The instruction summary at the front of `s`.
pub open spec fn take_instruction(s: Seq<u8>) -> Option<(InstructionView, int)> {
    match varint_decode(s) {
        Option::None => None,
        Option::Some((pi, n1)) => match take_bytes_field(s.skip(n1)) {
            Option::None => None,
            Option::Some((ai, n2)) => match varint_decode(s.skip(n1 + n2)) {
                Option::None => None,
                Option::Some((dl, n3)) => Some(
                    (
                        InstructionView {
                            program_index: pi,
                            account_indexes: ai,
                            data_len: dl,
                        },
                        n1 + n2 + n3,
                    ),
                ),
            },
        },
    }
}

/// The `count` instruction summaries at the front of `s`.
pub open spec fn take_instruction_list(s: Seq<u8>, count: u64) -> Option<
    (Seq<InstructionView>, int),
>
    decreases count,
{
    if count == 0 {
        Some((Seq::empty(), 0))
    } else {
        match take_instruction(s) {
            Option::None => None,
            Option::Some((iv, n)) => match take_instruction_list(s.skip(n), (count - 1) as u64) {
                Option::None => None,
                Option::Some((tl, m)) => Some((seq![iv] + tl, n + m)),
            },
        }
    }
}

/// The transaction event at the front of `s`.
pub open spec fn take_transaction(s: Seq<u8>) -> Option<(TransactionEventView, int)> {
    match take_bytes_field(s) {
        Option::None => None,
        Option::Some((sig, p1)) => match varint_decode(s.skip(p1)) {
            Option::None => None,
            Option::Some((slot, n2)) => match take_bool(s.skip(p1 + n2)) {
                Option::None => None,
                Option::Some((err, n3)) => match varint_decode(s.skip(p1 + n2 + n3)) {
                    Option::None => None,
                    Option::Some((count, n4)) => match take_instruction_list(
                        s.skip(p1 + n2 + n3 + n4),
                        count,
                    ) {
                        Option::None => None,
                        Option::Some((l, m)) => Some(
                            (
                                TransactionEventView {
                                    signature: sig,
                                    slot: slot,
                                    is_status_err: err,
                                    instructions: l,
                                },
                                p1 + n2 + n3 + n4 + m,
                            ),
                        ),
                    },
                },
            },
        },
    }
}

/// The slot status event at the front of `s`.
pub open spec fn take_slot_status(s: Seq<u8>) -> Option<(SlotStatusEventView, int)> {
    match varint_decode(s) {
        Option::None => None,
        Option::Some((slot, p1)) => match varint_decode(s.skip(p1)) {
            Option::None => None,
            Option::Some((parent, n2)) => match varint_decode(s.skip(p1 + n2)) {
                Option::None => None,
                Option::Some((code, n3)) => match take_bytes_field(s.skip(p1 + n2 + n3)) {
                    Option::None => None,
                    Option::Some((hash, n4)) => match varint_decode(s.skip(p1 + n2 + n3 + n4)) {
                        Option::None => None,
                        Option::Some((height, n5)) => Some(
                            (
                                SlotStatusEventView {
                                    slot: slot,
                                    parent: parent,
                                    status_code: code,
                                    block_hash: hash,
                                    block_height: height,
                                },
                                p1 + n2 + n3 + n4 + n5,
                            ),
                        ),
                    },
                },
            },
        },
    }
}

/// The account identity fields at the front of `s`: address, owner,
/// balance, executable flag.
pub open spec fn take_account_head(s: Seq<u8>) -> Option<((Seq<u8>, Seq<u8>, u64, bool), int)> {
    match take_bytes_field(s) {
        Option::None => None,
        Option::Some((pubkey, p1)) => match take_bytes_field(s.skip(p1)) {
            Option::None => None,
            Option::Some((owner, n2)) => match varint_decode(s.skip(p1 + n2)) {
                Option::None => None,
                Option::Some((lamports, n3)) => match take_bool(s.skip(p1 + n2 + n3)) {
                    Option::None => None,
                    Option::Some((exec_flag, n4)) => Some(
                        ((pubkey, owner, lamports, exec_flag), p1 + n2 + n3 + n4),
                    ),
                },
            },
        },
    }
}

/// The account bookkeeping fields at the front of `s`: rent epoch,
/// write version, data length, causing signature, slot.
pub open spec fn take_account_tail(s: Seq<u8>) -> Option<((u64, u64, u64, Seq<u8>, u64), int)> {
    match varint_decode(s) {
        Option::None => None,
        Option::Some((rent, p1)) => match varint_decode(s.skip(p1)) {
            Option::None => None,
            Option::Some((wv, n2)) => match varint_decode(s.skip(p1 + n2)) {
                Option::None => None,
                Option::Some((dl, n3)) => match take_bytes_field(s.skip(p1 + n2 + n3)) {
                    Option::None => None,
                    Option::Some((txsig, n4)) => match varint_decode(s.skip(p1 + n2 + n3 + n4)) {
                        Option::None => None,
                        Option::Some((slot, n5)) => Some(
                            ((rent, wv, dl, txsig, slot), p1 + n2 + n3 + n4 + n5),
                        ),
                    },
                },
            },
        },
    }
}

/// The optional slot status block at the front of `s`: a presence
/// flag, then the block where the flag says so.
pub open spec fn take_opt_slot_status(s: Seq<u8>) -> Option<(Option<SlotStatusEventView>, int)> {
    if s.len() == 0 {
        None
    } else if s[0] == 0 {
        Some((None, 1))
    } else if s[0] == 1 {
        match take_slot_status(s.skip(1)) {
            Option::None => None,
            Option::Some((b, n)) => Some((Some(b), 1 + n)),
        }
    } else {
        None
    }
}

/// The account update event at the front of `s`.
pub open spec fn take_account_update(s: Seq<u8>) -> Option<(AccountUpdateEventView, int)> {
    match take_account_head(s) {
        Option::None => None,
        Option::Some((h, n)) => match take_account_tail(s.skip(n)) {
            Option::None => None,
            Option::Some((t, m)) => match take_opt_slot_status(s.skip(n + m)) {
                Option::None => None,
                Option::Some((b, k)) => Some(
                    (
                        AccountUpdateEventView {
                            pubkey: h.0,
                            owner: h.1,
                            lamports: h.2,
                            executable: h.3,
                            rent_epoch: t.0,
                            write_version: t.1,
                            data_len: t.2,
                            txn_signature: t.3,
                            slot: t.4,
                            slot_status: b,
                        },
                        n + m + k,
                    ),
                ),
            },
        },
    }
}

/// The envelope a whole frame denotes, or `None` when the frame is not
/// the canonical byte form of any envelope.
pub open spec fn decode_wrapper(s: Seq<u8>) -> Option<MessageView> {
    if s.len() == 0 {
        None
    } else if s[0] == 0 {
        if s.len() == 1 {
            Some(MessageView::Unknown)
        } else {
            None
        }
    } else if s[0] == 1 {
        match take_transaction(s.skip(1)) {
            Option::None => None,
            Option::Some((t, n)) => {
                if 1 + n == s.len() {
                    Some(MessageView::Transaction(t))
                } else {
                    None
                }
            },
        }
    } else if s[0] == 2 {
        match take_slot_status(s.skip(1)) {
            Option::None => None,
            Option::Some((t, n)) => {
                if 1 + n == s.len() {
                    Some(MessageView::SlotStatus(t))
                } else {
                    None
                }
            },
        }
    } else if s[0] == 3 {
        match take_account_update(s.skip(1)) {
            Option::None => None,
            Option::Some((t, n)) => {
                if 1 + n == s.len() {
                    Some(MessageView::AccountUpdate(t))
                } else {
                    None
                }
            },
        }
    } else {
        None
    }
}

// --- length bounds -------------------------------------------------------

/// A decoded byte-string field occupies at least one byte and at most
/// the whole buffer.
proof fn lemma_take_bytes_field_len(s: Seq<u8>)
    ensures
        match take_bytes_field(s) {
            Option::Some(bn) => 1 <= bn.1 <= s.len(),
            Option::None => true,
        },
{
    crate::varint::lemma_varint_decode_len(s);
}

/// A decoded instruction summary occupies at least one byte and at
/// most the whole buffer.
proof fn lemma_take_instruction_len(s: Seq<u8>)
    ensures
        match take_instruction(s) {
            Option::Some(bn) => 1 <= bn.1 <= s.len(),
            Option::None => true,
        },
{
    crate::varint::lemma_varint_decode_len(s);
    if varint_decode(s) is Some {
        let (_pi, n1) = varint_decode(s).unwrap();
        lemma_take_bytes_field_len(s.skip(n1));
        if take_bytes_field(s.skip(n1)) is Some {
            let (_ai, n2) = take_bytes_field(s.skip(n1)).unwrap();
            crate::varint::lemma_varint_decode_len(s.skip(n1 + n2));
        }
    }
}

/// Decoded account identity fields occupy at least one byte and at
/// most the whole buffer.
proof fn lemma_take_account_head_len(s: Seq<u8>)
    ensures
        match take_account_head(s) {
            Option::Some(bn) => 1 <= bn.1 <= s.len(),
            Option::None => true,
        },
{
    lemma_take_bytes_field_len(s);
    if take_bytes_field(s) is Some {
        let (_pk, p1) = take_bytes_field(s).unwrap();
        lemma_take_bytes_field_len(s.skip(p1));
        if take_bytes_field(s.skip(p1)) is Some {
            let (_ow, n2) = take_bytes_field(s.skip(p1)).unwrap();
            crate::varint::lemma_varint_decode_len(s.skip(p1 + n2));
        }
    }
}

/// A decoded slot status event occupies at least one byte and at most
/// the whole buffer.
proof fn lemma_take_slot_status_len(s: Seq<u8>)
    ensures
        match take_slot_status(s) {
            Option::Some(bn) => 1 <= bn.1 <= s.len(),
            Option::None => true,
        },
{
    crate::varint::lemma_varint_decode_len(s);
    if varint_decode(s) is Some {
        let (_a, p1) = varint_decode(s).unwrap();
        crate::varint::lemma_varint_decode_len(s.skip(p1));
        if varint_decode(s.skip(p1)) is Some {
            let (_b, n2) = varint_decode(s.skip(p1)).unwrap();
            crate::varint::lemma_varint_decode_len(s.skip(p1 + n2));
            if varint_decode(s.skip(p1 + n2)) is Some {
                let (_c, n3) = varint_decode(s.skip(p1 + n2)).unwrap();
                lemma_take_bytes_field_len(s.skip(p1 + n2 + n3));
                if take_bytes_field(s.skip(p1 + n2 + n3)) is Some {
                    let (_d, n4) = take_bytes_field(s.skip(p1 + n2 + n3)).unwrap();
                    crate::varint::lemma_varint_decode_len(s.skip(p1 + n2 + n3 + n4));
                }
            }
        }
    }
}

/// Decoded account bookkeeping fields occupy at least one byte and at
/// most the whole buffer.
proof fn lemma_take_account_tail_len(s: Seq<u8>)
    ensures
        match take_account_tail(s) {
            Option::Some(bn) => 1 <= bn.1 <= s.len(),
            Option::None => true,
        },
{
    crate::varint::lemma_varint_decode_len(s);
    if varint_decode(s) is Some {
        let (_a, p1) = varint_decode(s).unwrap();
        crate::varint::lemma_varint_decode_len(s.skip(p1));
        if varint_decode(s.skip(p1)) is Some {
            let (_b, n2) = varint_decode(s.skip(p1)).unwrap();
            crate::varint::lemma_varint_decode_len(s.skip(p1 + n2));
            if varint_decode(s.skip(p1 + n2)) is Some {
                let (_c, n3) = varint_decode(s.skip(p1 + n2)).unwrap();
                lemma_take_bytes_field_len(s.skip(p1 + n2 + n3));
                if take_bytes_field(s.skip(p1 + n2 + n3)) is Some {
                    let (_d, n4) = take_bytes_field(s.skip(p1 + n2 + n3)).unwrap();
                    crate::varint::lemma_varint_decode_len(s.skip(p1 + n2 + n3 + n4));
                }
            }
        }
    }
}

// --- executable parsers --------------------------------------------------

/// Parse the length-prefixed byte string at `pos`.
fn parse_bytes_field(data: &[u8], pos: usize) -> (r: Option<(Vec<u8>, usize)>)
    requires
        pos <= data@.len(),
    ensures
        match take_bytes_field(data@.skip(pos as int)) {
            Option::Some(bn) => r matches Some(p) && p.0@ == bn.0 && p.1 == pos + bn.1 && pos + bn.1
                <= data@.len(),
            Option::None => r is None,
        },
{
    let ghost s = data@.skip(pos as int);
    let dlen = data.len();
    match read_varint(data, pos) {
        None => None,
        Some((len, p2)) => {
            proof {
                crate::varint::lemma_varint_decode_len(s);
                let vn = varint_decode(s).unwrap();
                assert(p2 == pos + vn.1);
                assert(p2 <= dlen);
            }
            if len <= (dlen - p2) as u64 {
                let end = p2 + (len as usize);
                let piece = vstd::slice::slice_subrange(data, p2, end);
                let out = vstd::slice::slice_to_vec(piece);
                proof {
                    let vn = varint_decode(s).unwrap();
                    let n = vn.1;
                    assert(n + len <= s.len());
                    assert(s.subrange(n, n + len) =~= data@.subrange(p2 as int, end as int));
                }
                Some((out, end))
            } else {
                None
            }
        },
    }
}

/// Parse the flag byte at `pos`.
fn parse_bool(data: &[u8], pos: usize) -> (r: Option<(bool, usize)>)
    requires
        pos <= data@.len(),
    ensures
        match take_bool(data@.skip(pos as int)) {
            Option::Some(bn) => r matches Some(p) && p.0 == bn.0 && p.1 == pos + bn.1 && pos + bn.1
                <= data@.len(),
            Option::None => r is None,
        },
{
    if pos == data.len() {
        return None;
    }
    let b = data[pos];
    if b == 0 {
        Some((false, pos + 1))
    } else if b == 1 {
        Some((true, pos + 1))
    } else {
        None
    }
}

/// Parse the instruction summary at `pos`.
fn parse_instruction(data: &[u8], pos: usize) -> (r: Option<(InstructionInfo, usize)>)
    requires
        pos <= data@.len(),
    ensures
        match take_instruction(data@.skip(pos as int)) {
            Option::Some(bn) => r matches Some(p) && p.0@ == bn.0 && p.1 == pos + bn.1 && pos + bn.1
                <= data@.len(),
            Option::None => r is None,
        },
{
    let ghost s = data@.skip(pos as int);
    let dlen = data.len();
    match read_varint(data, pos) {
        None => None,
        Some((pi, q1)) => {
            proof {
                crate::varint::lemma_varint_decode_len(s);
                let vn = varint_decode(s).unwrap();
                assert(q1 == pos + vn.1);
                assert(q1 <= dlen);
                assert(s.skip(q1 - pos) =~= data@.skip(q1 as int));
            }
            match parse_bytes_field(data, q1) {
                None => None,
                Some((ai, q2)) => {
                    proof {
                        lemma_take_bytes_field_len(data@.skip(q1 as int));
                        let bn = take_bytes_field(data@.skip(q1 as int)).unwrap();
                        assert(q2 == q1 + bn.1);
                        assert(q2 <= dlen);
                        assert(s.skip(q2 - pos) =~= data@.skip(q2 as int));
                    }
                    match read_varint(data, q2) {
                        None => None,
                        Some((dl, q3)) => Some(
                            (
                                InstructionInfo {
                                    program_index: pi,
                                    account_indexes: ai,
                                    data_len: dl,
                                },
                                q3,
                            ),
                        ),
                    }
                },
            }
        },
    }
}

/// Parse the `count` instruction summaries at `pos`.
fn parse_instruction_list(data: &[u8], pos: usize, count: u64) -> (r: Option<
    (Vec<InstructionInfo>, usize),
>)
    requires
        pos <= data@.len(),
    ensures
        match take_instruction_list(data@.skip(pos as int), count) {
            Option::Some(bn) => r matches Some(p) && p.0@.map_values(|x: InstructionInfo| x@)
                == bn.0 && p.1 == pos + bn.1 && pos + bn.1 <= data@.len(),
            Option::None => r is None,
        },
{
    let ghost s0 = data@.skip(pos as int);
    let mut acc: Vec<InstructionInfo> = Vec::new();
    let mut cur: usize = pos;
    let mut i: u64 = 0;
    proof {
        assert(acc@.map_values(|x: InstructionInfo| x@) =~= Seq::<InstructionView>::empty());
    }
    while i < count
        invariant
            i <= count,
            pos <= cur <= data@.len(),
            s0 == data@.skip(pos as int),
            match take_instruction_list(data@.skip(cur as int), (count - i) as u64) {
                Option::Some(tl) => take_instruction_list(s0, count) == Some::<
                    (Seq<InstructionView>, int),
                >((acc@.map_values(|x: InstructionInfo| x@) + tl.0, (cur - pos) + tl.1)),
                Option::None => take_instruction_list(s0, count) is None,
            },
        decreases count - i,
    {
        let ghost cur_tail = data@.skip(cur as int);
        let ghost accv = acc@.map_values(|x: InstructionInfo| x@);
        proof {
            assert((count - i) as u64 >= 1);
        }
        match parse_instruction(data, cur) {
            None => {
                proof {
                    assert(take_instruction(cur_tail) is None);
                    assert(take_instruction_list(cur_tail, (count - i) as u64) is None);
                }
                return None;
            },
            Some((ins, newpos)) => {
                proof {
                    lemma_take_instruction_len(cur_tail);
                    let bn = take_instruction(cur_tail).unwrap();
                    assert(bn.0 == ins@ && newpos == cur + bn.1);
                    assert(newpos <= data@.len());
                    assert(cur_tail.skip(newpos - cur) =~= data@.skip(newpos as int));
                    assert(((count - i) as u64 - 1) as u64 == (count - i - 1) as u64);
                }
                acc.push(ins);
                proof {
                    assert(acc@.map_values(|x: InstructionInfo| x@) =~= accv + seq![ins@]);
                    let rest = take_instruction_list(
                        data@.skip(newpos as int),
                        (count - i - 1) as u64,
                    );
                    if rest is Some {
                        let (tl2, m2) = rest.unwrap();
                        assert(take_instruction_list(cur_tail, (count - i) as u64)
                            == Some::<(Seq<InstructionView>, int)>(
                            (seq![ins@] + tl2, (newpos - cur) + m2),
                        ));
                        assert(accv + (seq![ins@] + tl2) =~= (accv + seq![ins@]) + tl2);
                    } else {
                        assert(take_instruction_list(cur_tail, (count - i) as u64) is None);
                    }
                }
                cur = newpos;
                i = i + 1;
            },
        }
    }
    proof {
        let accv = acc@.map_values(|x: InstructionInfo| x@);
        assert((count - i) as u64 == 0);
        assert(take_instruction_list(data@.skip(cur as int), (count - i) as u64) == Some::<
            (Seq<InstructionView>, int),
        >((Seq::empty(), 0)));
        assert(accv + Seq::<InstructionView>::empty() =~= accv);
    }
    Some((acc, cur))
}

/// Parse the transaction event at `pos`.
fn parse_transaction(data: &[u8], pos: usize) -> (r: Option<(TransactionEvent, usize)>)
    requires
        pos <= data@.len(),
    ensures
        match take_transaction(data@.skip(pos as int)) {
            Option::Some(bn) => r matches Some(p) && p.0@ == bn.0 && p.1 == pos + bn.1 && pos + bn.1
                <= data@.len(),
            Option::None => r is None,
        },
{
    let ghost s = data@.skip(pos as int);
    match parse_bytes_field(data, pos) {
        None => None,
        Some((sig, q1)) => {
            proof {
                lemma_take_bytes_field_len(s);
                assert(s.skip(q1 - pos) =~= data@.skip(q1 as int));
            }
            match read_varint(data, q1) {
                None => None,
                Some((slot, q2)) => {
                    proof {
                        crate::varint::lemma_varint_decode_len(data@.skip(q1 as int));
                        assert(s.skip(q2 - pos) =~= data@.skip(q2 as int));
                    }
                    match parse_bool(data, q2) {
                        None => None,
                        Some((err, q3)) => {
                            proof {
                                assert(s.skip(q3 - pos) =~= data@.skip(q3 as int));
                            }
                            match read_varint(data, q3) {
                                None => None,
                                Some((count, q4)) => {
                                    proof {
                                        crate::varint::lemma_varint_decode_len(
                                            data@.skip(q3 as int),
                                        );
                                        assert(s.skip(q4 - pos) =~= data@.skip(q4 as int));
                                    }
                                    match parse_instruction_list(data, q4, count) {
                                        None => None,
                                        Some((instrs, q5)) => {
                                            let ev = TransactionEvent {
                                                signature: sig,
                                                slot: slot,
                                                is_status_err: err,
                                                instructions: instrs,
                                            };
                                            Some((ev, q5))
                                        },
                                    }
                                },
                            }
                        },
                    }
                },
            }
        },
    }
}

/// Parse the slot status event at `pos`.
fn parse_slot_status(data: &[u8], pos: usize) -> (r: Option<(SlotStatusEvent, usize)>)
    requires
        pos <= data@.len(),
    ensures
        match take_slot_status(data@.skip(pos as int)) {
            Option::Some(bn) => r matches Some(p) && p.0@ == bn.0 && p.1 == pos + bn.1 && pos + bn.1
                <= data@.len(),
            Option::None => r is None,
        },
{
    let ghost s = data@.skip(pos as int);
    match read_varint(data, pos) {
        None => None,
        Some((slot, q1)) => {
            proof {
                crate::varint::lemma_varint_decode_len(s);
                assert(s.skip(q1 - pos) =~= data@.skip(q1 as int));
            }
            match read_varint(data, q1) {
                None => None,
                Some((parent, q2)) => {
                    proof {
                        crate::varint::lemma_varint_decode_len(data@.skip(q1 as int));
                        assert(s.skip(q2 - pos) =~= data@.skip(q2 as int));
                    }
                    match read_varint(data, q2) {
                        None => None,
                        Some((code, q3)) => {
                            proof {
                                crate::varint::lemma_varint_decode_len(data@.skip(q2 as int));
                                assert(s.skip(q3 - pos) =~= data@.skip(q3 as int));
                            }
                            match parse_bytes_field(data, q3) {
                                None => None,
                                Some((hash, q4)) => {
                                    proof {
                                        lemma_take_bytes_field_len(data@.skip(q3 as int));
                                        assert(s.skip(q4 - pos) =~= data@.skip(q4 as int));
                                    }
                                    match read_varint(data, q4) {
                                        None => None,
                                        Some((height, q5)) => {
                                            let ev = SlotStatusEvent {
                                                slot: slot,
                                                parent: parent,
                                                status_code: code,
                                                block_hash: hash,
                                                block_height: height,
                                            };
                                            Some((ev, q5))
                                        },
                                    }
                                },
                            }
                        },
                    }
                },
            }
        },
    }
}

/// Parse the account identity fields at `pos`.
fn parse_account_head(data: &[u8], pos: usize) -> (r: Option<((Vec<u8>, Vec<u8>, u64, bool), usize)>)
    requires
        pos <= data@.len(),
    ensures
        match take_account_head(data@.skip(pos as int)) {
            Option::Some(bn) => r matches Some(p) && p.0.0@ == bn.0.0 && p.0.1@ == bn.0.1
                && p.0.2 == bn.0.2 && p.0.3 == bn.0.3 && p.1 == pos + bn.1 && pos + bn.1
                <= data@.len(),
            Option::None => r is None,
        },
{
    let ghost s = data@.skip(pos as int);
    match parse_bytes_field(data, pos) {
        None => None,
        Some((pubkey, q1)) => {
            proof {
                lemma_take_bytes_field_len(s);
                assert(s.skip(q1 - pos) =~= data@.skip(q1 as int));
            }
            match parse_bytes_field(data, q1) {
                None => None,
                Some((owner, q2)) => {
                    proof {
                        lemma_take_bytes_field_len(data@.skip(q1 as int));
                        assert(s.skip(q2 - pos) =~= data@.skip(q2 as int));
                    }
                    match read_varint(data, q2) {
                        None => None,
                        Some((lamports, q3)) => {
                            proof {
                                crate::varint::lemma_varint_decode_len(data@.skip(q2 as int));
                                assert(s.skip(q3 - pos) =~= data@.skip(q3 as int));
                            }
                            match parse_bool(data, q3) {
                                None => None,
                                Some((exec_flag, q4)) => Some(
                                    ((pubkey, owner, lamports, exec_flag), q4),
                                ),
                            }
                        },
                    }
                },
            }
        },
    }
}

/// Parse the account bookkeeping fields at `pos`.
fn parse_account_tail(data: &[u8], pos: usize) -> (r: Option<
    ((u64, u64, u64, Vec<u8>, u64), usize),
>)
    requires
        pos <= data@.len(),
    ensures
        match take_account_tail(data@.skip(pos as int)) {
            Option::Some(bn) => r matches Some(p) && p.0.0 == bn.0.0 && p.0.1 == bn.0.1 && p.0.2
                == bn.0.2 && p.0.3@ == bn.0.3 && p.0.4 == bn.0.4 && p.1 == pos + bn.1 && pos + bn.1
                <= data@.len(),
            Option::None => r is None,
        },
{
    let ghost s = data@.skip(pos as int);
    match read_varint(data, pos) {
        None => None,
        Some((rent, q1)) => {
            proof {
                crate::varint::lemma_varint_decode_len(s);
                assert(s.skip(q1 - pos) =~= data@.skip(q1 as int));
            }
            match read_varint(data, q1) {
                None => None,
                Some((wv, q2)) => {
                    proof {
                        crate::varint::lemma_varint_decode_len(data@.skip(q1 as int));
                        assert(s.skip(q2 - pos) =~= data@.skip(q2 as int));
                    }
                    match read_varint(data, q2) {
                        None => None,
                        Some((dl, q3)) => {
                            proof {
                                crate::varint::lemma_varint_decode_len(data@.skip(q2 as int));
                                assert(s.skip(q3 - pos) =~= data@.skip(q3 as int));
                            }
                            match parse_bytes_field(data, q3) {
                                None => None,
                                Some((txsig, q4)) => {
                                    proof {
                                        lemma_take_bytes_field_len(data@.skip(q3 as int));
                                        assert(s.skip(q4 - pos) =~= data@.skip(q4 as int));
                                    }
                                    match read_varint(data, q4) {
                                        None => None,
                                        Some((slot, q5)) => Some(
                                            ((rent, wv, dl, txsig, slot), q5),
                                        ),
                                    }
                                },
                            }
                        },
                    }
                },
            }
        },
    }
}

/// Parse the optional slot status block at `pos`.
fn parse_opt_slot_status(data: &[u8], pos: usize) -> (r: Option<
    (Option<SlotStatusEvent>, usize),
>)
    requires
        pos <= data@.len(),
    ensures
        match take_opt_slot_status(data@.skip(pos as int)) {
            Option::Some(bn) => r matches Some(p) && opt_slot_status_view(p.0) == bn.0 && p.1
                == pos + bn.1 && pos + bn.1 <= data@.len(),
            Option::None => r is None,
        },
{
    let ghost s = data@.skip(pos as int);
    if pos == data.len() {
        return None;
    }
    proof {
        assert(s[0] == data@[pos as int]);
    }
    let flag = data[pos];
    if flag == 0 {
        Some((None, pos + 1))
    } else if flag == 1 {
        proof {
            assert(s.skip(1) =~= data@.skip(pos as int + 1));
        }
        match parse_slot_status(data, pos + 1) {
            None => None,
            Some((b, q)) => Some((Some(b), q)),
        }
    } else {
        None
    }
}

/// Parse the account update event at `pos`.
fn parse_account_update(data: &[u8], pos: usize) -> (r: Option<(AccountUpdateEvent, usize)>)
    requires
        pos <= data@.len(),
    ensures
        match take_account_update(data@.skip(pos as int)) {
            Option::Some(bn) => r matches Some(p) && p.0@ == bn.0 && p.1 == pos + bn.1 && pos + bn.1
                <= data@.len(),
            Option::None => r is None,
        },
{
    let ghost s = data@.skip(pos as int);
    match parse_account_head(data, pos) {
        None => None,
        Some((head, q1)) => {
            proof {
                lemma_take_account_head_len(s);
                assert(s.skip(q1 - pos) =~= data@.skip(q1 as int));
            }
            match parse_account_tail(data, q1) {
                None => None,
                Some((tail, q2)) => {
                    proof {
                        lemma_take_account_tail_len(data@.skip(q1 as int));
                        assert(s.skip(q2 - pos) =~= data@.skip(q2 as int));
                    }
                    match parse_opt_slot_status(data, q2) {
                        None => None,
                        Some((block, q3)) => {
                            let (pubkey, owner, lamports, exec_flag) = head;
                            let (rent, wv, dl, txsig, slot) = tail;
                            let ev = AccountUpdateEvent {
                                pubkey: pubkey,
                                owner: owner,
                                lamports: lamports,
                                executable: exec_flag,
                                rent_epoch: rent,
                                write_version: wv,
                                data_len: dl,
                                txn_signature: txsig,
                                slot: slot,
                                slot_status: block,
                            };
                            Some((ev, q3))
                        },
                    }
                },
            }
        },
    }
}

/// Parse one whole frame into the envelope it denotes.
///
/// A frame that is not the canonical byte form of an envelope, a
/// trailing byte included, is malformed.
pub fn parse_message(data: &[u8]) -> (r: Result<MessageWrapper, DecodeError>)
    ensures
        match decode_wrapper(data@) {
            Option::Some(m) => r matches Ok(w) && w@ == m,
            Option::None => r is Err,
        },
{
    let dlen = data.len();
    if dlen == 0 {
        return Err(DecodeError);
    }
    let tag = data[0];
    if tag == 0 {
        if dlen == 1 {
            Ok(MessageWrapper::Unknown)
        } else {
            Err(DecodeError)
        }
    } else if tag == 1 {
        match parse_transaction(data, 1) {
            None => Err(DecodeError),
            Some((t, end)) => {
                if end == dlen {
                    Ok(MessageWrapper::Transaction(t))
                } else {
                    Err(DecodeError)
                }
            },
        }
    } else if tag == 2 {
        match parse_slot_status(data, 1) {
            None => Err(DecodeError),
            Some((t, end)) => {
                if end == dlen {
                    Ok(MessageWrapper::SlotStatus(t))
                } else {
                    Err(DecodeError)
                }
            },
        }
    } else if tag == 3 {
        match parse_account_update(data, 1) {
            None => Err(DecodeError),
            Some((t, end)) => {
                if end == dlen {
                    Ok(MessageWrapper::AccountUpdate(t))
                } else {
                    Err(DecodeError)
                }
            },
        }
    } else {
        Err(DecodeError)
    }
}

// --- decoding inverts encoding -------------------------------------------

/// Concatenation of byte strings associates.
proof fn lemma_add_assoc(x: Seq<u8>, y: Seq<u8>, z: Seq<u8>)
    ensures
        (x + y) + z == x + (y + z),
{
    assert((x + y) + z =~= x + (y + z));
}

/// Skipping a leading piece of a concatenation leaves the rest.
proof fn lemma_concat_skip(x: Seq<u8>, y: Seq<u8>)
    ensures
        (x + y).skip(x.len() as int) == y,
{
    assert((x + y).skip(x.len() as int) =~= y);
}

/// A flag byte reads back as the flag.
proof fn lemma_bool_round_trip(b: bool, rest: Seq<u8>)
    ensures
        take_bool(bool_byte(b) + rest) == Some::<(bool, int)>((b, 1)),
{
    assert((bool_byte(b) + rest)[0] == bool_byte(b)[0]);
}

/// A length-prefixed byte string reads back as the byte string,
/// whatever follows it.
proof fn lemma_bytes_field_round_trip(b: Seq<u8>, rest: Seq<u8>)
    requires
        b.len() <= u64::MAX,
    ensures
        take_bytes_field(bytes_field(b) + rest) == Some::<(Seq<u8>, int)>(
            (b, bytes_field(b).len() as int),
        ),
{
    let len64: u64 = b.len() as u64;
    lemma_varint_round_trip(len64, b + rest);
    let s = bytes_field(b) + rest;
    assert(s =~= varint_bytes(len64) + (b + rest));
    let n = varint_bytes(len64).len() as int;
    assert(varint_decode(s) == Some::<(u64, int)>((len64, n)));
    assert(n + len64 <= s.len());
    assert(s.subrange(n, n + len64) =~= b);
}

/// An encoded instruction summary reads back as itself, whatever
/// follows it.
proof fn lemma_instruction_round_trip(i: InstructionView, rest: Seq<u8>)
    requires
        crate::envelope::instruction_wf(i),
    ensures
        take_instruction(encode_instruction(i) + rest) == Some::<(InstructionView, int)>(
            (i, encode_instruction(i).len() as int),
        ),
{
    let s = encode_instruction(i) + rest;
    let r1 = bytes_field(i.account_indexes) + (varint_bytes(i.data_len) + rest);
    lemma_varint_round_trip(i.program_index, r1);
    assert(s =~= varint_bytes(i.program_index) + r1);
    let n1 = varint_bytes(i.program_index).len() as int;
    assert(s.skip(n1) =~= r1);
    lemma_bytes_field_round_trip(i.account_indexes, varint_bytes(i.data_len) + rest);
    let n2 = bytes_field(i.account_indexes).len() as int;
    assert(r1.skip(n2) =~= varint_bytes(i.data_len) + rest);
    assert(s.skip(n1 + n2) =~= varint_bytes(i.data_len) + rest);
    lemma_varint_round_trip(i.data_len, rest);
    let n3 = varint_bytes(i.data_len).len() as int;
    assert(n1 + n2 + n3 == encode_instruction(i).len());
}

/// An encoded instruction list reads back as itself, whatever follows
/// it.
proof fn lemma_instruction_list_round_trip(l: Seq<InstructionView>, rest: Seq<u8>)
    requires
        l.len() <= u64::MAX,
        forall|j: int| 0 <= j < l.len() ==> crate::envelope::instruction_wf(#[trigger] l[j]),
    ensures
        take_instruction_list(encode_instruction_list(l) + rest, l.len() as u64) == Some::<
            (Seq<InstructionView>, int),
        >((l, encode_instruction_list(l).len() as int)),
    decreases l.len(),
{
    if l.len() == 0 {
        assert(encode_instruction_list(l) + rest =~= rest);
        assert(l =~= Seq::<InstructionView>::empty());
    } else {
        let s = encode_instruction_list(l) + rest;
        let r1 = encode_instruction_list(l.skip(1)) + rest;
        lemma_instruction_round_trip(l[0], r1);
        assert(s =~= encode_instruction(l[0]) + r1);
        let n = encode_instruction(l[0]).len() as int;
        assert(s.skip(n) =~= r1);
        lemma_instruction_list_round_trip(l.skip(1), rest);
        assert((l.len() as u64 - 1) as u64 == l.skip(1).len() as u64);
        assert(seq![l[0]] + l.skip(1) =~= l);
    }
}

/// An encoded transaction event reads back as itself, whatever follows
/// it.
#[verifier::rlimit(100)]
#[verifier::spinoff_prover]
proof fn lemma_transaction_round_trip(t: TransactionEventView, rest: Seq<u8>)
    requires
        crate::envelope::transaction_wf(t),
    ensures
        take_transaction(encode_transaction(t) + rest) == Some::<(TransactionEventView, int)>(
            (t, encode_transaction(t).len() as int),
        ),
{
    let s = encode_transaction(t) + rest;
    let cnt: u64 = t.instructions.len() as u64;
    let r4 = encode_instruction_list(t.instructions) + rest;
    let r3 = varint_bytes(cnt) + r4;
    let r2 = bool_byte(t.is_status_err) + r3;
    let r1 = varint_bytes(t.slot) + r2;
    lemma_bytes_field_round_trip(t.signature, r1);
    assert(s =~= bytes_field(t.signature) + r1);
    let p1 = bytes_field(t.signature).len() as int;
    assert(take_bytes_field(s) == Some::<(Seq<u8>, int)>((t.signature, p1)));
    lemma_concat_skip(bytes_field(t.signature), r1);
    assert(s.skip(p1) == r1);
    lemma_varint_round_trip(t.slot, r2);
    let n2 = varint_bytes(t.slot).len() as int;
    assert(varint_decode(s.skip(p1)) == Some::<(u64, int)>((t.slot, n2)));
    lemma_concat_skip(varint_bytes(t.slot), r2);
    vstd::seq_lib::lemma_seq_skip_of_skip(s, p1, n2);
    assert(s.skip(p1 + n2) == r2);
    lemma_bool_round_trip(t.is_status_err, r3);
    assert(take_bool(s.skip(p1 + n2)) == Some::<(bool, int)>((t.is_status_err, 1)));
    lemma_concat_skip(bool_byte(t.is_status_err), r3);
    vstd::seq_lib::lemma_seq_skip_of_skip(s, p1 + n2, 1);
    assert(s.skip(p1 + n2 + 1) == r3);
    lemma_varint_round_trip(cnt, r4);
    let n4 = varint_bytes(cnt).len() as int;
    assert(varint_decode(s.skip(p1 + n2 + 1)) == Some::<(u64, int)>((cnt, n4)));
    lemma_concat_skip(varint_bytes(cnt), r4);
    vstd::seq_lib::lemma_seq_skip_of_skip(s, p1 + n2 + 1, n4);
    assert(s.skip(p1 + n2 + 1 + n4) == r4);
    lemma_instruction_list_round_trip(t.instructions, rest);
    let m = encode_instruction_list(t.instructions).len() as int;
    assert(take_instruction_list(s.skip(p1 + n2 + 1 + n4), cnt) == Some::<
        (Seq<InstructionView>, int),
    >((t.instructions, m)));
    assert(p1 + n2 + 1 + n4 + m == encode_transaction(t).len());
}

/// An encoded slot status event reads back as itself, whatever follows
/// it.
#[verifier::rlimit(100)]
#[verifier::spinoff_prover]
proof fn lemma_slot_status_round_trip(v: SlotStatusEventView, rest: Seq<u8>)
    requires
        crate::envelope::slot_status_wf(v),
    ensures
        take_slot_status(encode_slot_status(v) + rest) == Some::<(SlotStatusEventView, int)>(
            (v, encode_slot_status(v).len() as int),
        ),
{
    let s = encode_slot_status(v) + rest;
    let r4 = varint_bytes(v.block_height) + rest;
    let r3 = bytes_field(v.block_hash) + r4;
    let r2 = varint_bytes(v.status_code) + r3;
    let r1 = varint_bytes(v.parent) + r2;
    lemma_varint_round_trip(v.slot, r1);
    assert(s =~= varint_bytes(v.slot) + r1);
    let p1 = varint_bytes(v.slot).len() as int;
    assert(varint_decode(s) == Some::<(u64, int)>((v.slot, p1)));
    lemma_concat_skip(varint_bytes(v.slot), r1);
    assert(s.skip(p1) == r1);
    lemma_varint_round_trip(v.parent, r2);
    let n2 = varint_bytes(v.parent).len() as int;
    assert(varint_decode(s.skip(p1)) == Some::<(u64, int)>((v.parent, n2)));
    lemma_concat_skip(varint_bytes(v.parent), r2);
    vstd::seq_lib::lemma_seq_skip_of_skip(s, p1, n2);
    assert(s.skip(p1 + n2) == r2);
    lemma_varint_round_trip(v.status_code, r3);
    let n3 = varint_bytes(v.status_code).len() as int;
    assert(varint_decode(s.skip(p1 + n2)) == Some::<(u64, int)>((v.status_code, n3)));
    lemma_concat_skip(varint_bytes(v.status_code), r3);
    vstd::seq_lib::lemma_seq_skip_of_skip(s, p1 + n2, n3);
    assert(s.skip(p1 + n2 + n3) == r3);
    lemma_bytes_field_round_trip(v.block_hash, r4);
    let n4 = bytes_field(v.block_hash).len() as int;
    assert(take_bytes_field(s.skip(p1 + n2 + n3)) == Some::<(Seq<u8>, int)>(
        (v.block_hash, n4),
    ));
    lemma_concat_skip(bytes_field(v.block_hash), r4);
    vstd::seq_lib::lemma_seq_skip_of_skip(s, p1 + n2 + n3, n4);
    assert(s.skip(p1 + n2 + n3 + n4) == r4);
    lemma_varint_round_trip(v.block_height, rest);
    let n5 = varint_bytes(v.block_height).len() as int;
    assert(varint_decode(s.skip(p1 + n2 + n3 + n4)) == Some::<(u64, int)>(
        (v.block_height, n5),
    ));
    assert(p1 + n2 + n3 + n4 + n5 == encode_slot_status(v).len());
}

/// The encoded account fields, split between identity, bookkeeping,
/// and the optional slot status block.
proof fn lemma_account_encode_split(v: AccountUpdateEventView)
    ensures
        encode_account_update(v) == (bytes_field(v.pubkey) + bytes_field(v.owner) + varint_bytes(
            v.lamports,
        ) + bool_byte(v.executable)) + (varint_bytes(v.rent_epoch) + varint_bytes(v.write_version)
            + varint_bytes(v.data_len) + bytes_field(v.txn_signature) + varint_bytes(v.slot))
            + encode_opt_slot_status(v.slot_status),
{
    assert(encode_account_update(v) =~= (bytes_field(v.pubkey) + bytes_field(v.owner)
        + varint_bytes(v.lamports) + bool_byte(v.executable)) + (varint_bytes(v.rent_epoch)
        + varint_bytes(v.write_version) + varint_bytes(v.data_len) + bytes_field(v.txn_signature)
        + varint_bytes(v.slot)) + encode_opt_slot_status(v.slot_status));
}

/// Encoded account identity fields read back as themselves, whatever
/// follows them.
#[verifier::rlimit(100)]
#[verifier::spinoff_prover]
proof fn lemma_account_head_round_trip(
    pubkey: Seq<u8>,
    owner: Seq<u8>,
    lamports: u64,
    exec_flag: bool,
    rest: Seq<u8>,
)
    requires
        pubkey.len() <= u64::MAX,
        owner.len() <= u64::MAX,
    ensures
        take_account_head(
            bytes_field(pubkey) + bytes_field(owner) + varint_bytes(lamports) + bool_byte(
                exec_flag,
            ) + rest,
        ) == Some::<((Seq<u8>, Seq<u8>, u64, bool), int)>(
            (
                (pubkey, owner, lamports, exec_flag),
                bytes_field(pubkey).len() + bytes_field(owner).len() + varint_bytes(
                    lamports,
                ).len() + 1 as int,
            ),
        ),
{
    let s = bytes_field(pubkey) + bytes_field(owner) + varint_bytes(lamports) + bool_byte(
        exec_flag,
    ) + rest;
    let r3 = bool_byte(exec_flag) + rest;
    let r2 = varint_bytes(lamports) + r3;
    let r1 = bytes_field(owner) + r2;
    lemma_bytes_field_round_trip(pubkey, r1);
    assert(s =~= bytes_field(pubkey) + r1);
    let p1 = bytes_field(pubkey).len() as int;
    assert(take_bytes_field(s) == Some::<(Seq<u8>, int)>((pubkey, p1)));
    lemma_concat_skip(bytes_field(pubkey), r1);
    assert(s.skip(p1) == r1);
    lemma_bytes_field_round_trip(owner, r2);
    let n2 = bytes_field(owner).len() as int;
    assert(take_bytes_field(s.skip(p1)) == Some::<(Seq<u8>, int)>((owner, n2)));
    lemma_concat_skip(bytes_field(owner), r2);
    vstd::seq_lib::lemma_seq_skip_of_skip(s, p1, n2);
    assert(s.skip(p1 + n2) == r2);
    lemma_varint_round_trip(lamports, r3);
    let n3 = varint_bytes(lamports).len() as int;
    assert(varint_decode(s.skip(p1 + n2)) == Some::<(u64, int)>((lamports, n3)));
    lemma_concat_skip(varint_bytes(lamports), r3);
    vstd::seq_lib::lemma_seq_skip_of_skip(s, p1 + n2, n3);
    assert(s.skip(p1 + n2 + n3) == r3);
    lemma_bool_round_trip(exec_flag, rest);
    assert(take_bool(s.skip(p1 + n2 + n3)) == Some::<(bool, int)>((exec_flag, 1)));
}

/// Encoded account bookkeeping fields read back as themselves,
/// whatever follows them.
#[verifier::rlimit(100)]
#[verifier::spinoff_prover]
proof fn lemma_account_tail_round_trip(
    rent: u64,
    wv: u64,
    dl: u64,
    txsig: Seq<u8>,
    slot: u64,
    rest: Seq<u8>,
)
    requires
        txsig.len() <= u64::MAX,
    ensures
        take_account_tail(
            varint_bytes(rent) + varint_bytes(wv) + varint_bytes(dl) + bytes_field(txsig)
                + varint_bytes(slot) + rest,
        ) == Some::<((u64, u64, u64, Seq<u8>, u64), int)>(
            (
                (rent, wv, dl, txsig, slot),
                (varint_bytes(rent).len() + varint_bytes(wv).len() + varint_bytes(dl).len()
                    + bytes_field(txsig).len() + varint_bytes(slot).len()) as int,
            ),
        ),
{
    let s = varint_bytes(rent) + varint_bytes(wv) + varint_bytes(dl) + bytes_field(txsig)
        + varint_bytes(slot) + rest;
    let r4 = varint_bytes(slot) + rest;
    let r3 = bytes_field(txsig) + r4;
    let r2 = varint_bytes(dl) + r3;
    let r1 = varint_bytes(wv) + r2;
    lemma_varint_round_trip(rent, r1);
    assert(s =~= varint_bytes(rent) + r1);
    let p1 = varint_bytes(rent).len() as int;
    assert(varint_decode(s) == Some::<(u64, int)>((rent, p1)));
    lemma_concat_skip(varint_bytes(rent), r1);
    assert(s.skip(p1) == r1);
    lemma_varint_round_trip(wv, r2);
    let n2 = varint_bytes(wv).len() as int;
    assert(varint_decode(s.skip(p1)) == Some::<(u64, int)>((wv, n2)));
    lemma_concat_skip(varint_bytes(wv), r2);
    vstd::seq_lib::lemma_seq_skip_of_skip(s, p1, n2);
    assert(s.skip(p1 + n2) == r2);
    lemma_varint_round_trip(dl, r3);
    let n3 = varint_bytes(dl).len() as int;
    assert(varint_decode(s.skip(p1 + n2)) == Some::<(u64, int)>((dl, n3)));
    lemma_concat_skip(varint_bytes(dl), r3);
    vstd::seq_lib::lemma_seq_skip_of_skip(s, p1 + n2, n3);
    assert(s.skip(p1 + n2 + n3) == r3);
    lemma_bytes_field_round_trip(txsig, r4);
    let n4 = bytes_field(txsig).len() as int;
    assert(take_bytes_field(s.skip(p1 + n2 + n3)) == Some::<(Seq<u8>, int)>((txsig, n4)));
    lemma_concat_skip(bytes_field(txsig), r4);
    vstd::seq_lib::lemma_seq_skip_of_skip(s, p1 + n2 + n3, n4);
    assert(s.skip(p1 + n2 + n3 + n4) == r4);
    lemma_varint_round_trip(slot, rest);
    let n5 = varint_bytes(slot).len() as int;
    assert(varint_decode(s.skip(p1 + n2 + n3 + n4)) == Some::<(u64, int)>((slot, n5)));
}

/// An encoded optional slot status block reads back as itself,
/// whatever follows it.
proof fn lemma_opt_slot_status_round_trip(o: Option<SlotStatusEventView>, rest: Seq<u8>)
    requires
        match o {
            Option::Some(b) => crate::envelope::slot_status_wf(b),
            Option::None => true,
        },
    ensures
        take_opt_slot_status(encode_opt_slot_status(o) + rest) == Some::<
            (Option<SlotStatusEventView>, int),
        >((o, encode_opt_slot_status(o).len() as int)),
{
    match o {
        Option::None => {
            let s = encode_opt_slot_status(o) + rest;
            assert(s =~= seq![0u8] + rest);
            assert(s[0] == 0);
        },
        Option::Some(b) => {
            lemma_slot_status_round_trip(b, rest);
            let s = encode_opt_slot_status(o) + rest;
            assert(s =~= seq![1u8] + (encode_slot_status(b) + rest));
            assert(s[0] == 1);
            assert(s.skip(1) =~= encode_slot_status(b) + rest);
        },
    }
}

/// An encoded account update event reads back as itself, whatever
/// follows it.
#[verifier::rlimit(100)]
#[verifier::spinoff_prover]
proof fn lemma_account_update_round_trip(v: AccountUpdateEventView, rest: Seq<u8>)
    requires
        crate::envelope::account_update_wf(v),
    ensures
        take_account_update(encode_account_update(v) + rest) == Some::<
            (AccountUpdateEventView, int),
        >((v, encode_account_update(v).len() as int)),
{
    let head = bytes_field(v.pubkey) + bytes_field(v.owner) + varint_bytes(v.lamports)
        + bool_byte(v.executable);
    let tail = varint_bytes(v.rent_epoch) + varint_bytes(v.write_version) + varint_bytes(
        v.data_len,
    ) + bytes_field(v.txn_signature) + varint_bytes(v.slot);
    let block = encode_opt_slot_status(v.slot_status);
    let s = encode_account_update(v) + rest;
    lemma_account_encode_split(v);
    lemma_add_assoc(head + tail, block, rest);
    lemma_add_assoc(head, tail, block + rest);
    assert(s == head + (tail + (block + rest)));
    lemma_account_head_round_trip(
        v.pubkey,
        v.owner,
        v.lamports,
        v.executable,
        tail + (block + rest),
    );
    let nh = head.len() as int;
    assert(take_account_head(s) == Some::<((Seq<u8>, Seq<u8>, u64, bool), int)>(
        ((v.pubkey, v.owner, v.lamports, v.executable), nh),
    ));
    lemma_concat_skip(head, tail + (block + rest));
    assert(s.skip(nh) == tail + (block + rest));
    lemma_account_tail_round_trip(
        v.rent_epoch,
        v.write_version,
        v.data_len,
        v.txn_signature,
        v.slot,
        block + rest,
    );
    let nt = tail.len() as int;
    assert(take_account_tail(s.skip(nh)) == Some::<((u64, u64, u64, Seq<u8>, u64), int)>(
        ((v.rent_epoch, v.write_version, v.data_len, v.txn_signature, v.slot), nt),
    ));
    lemma_concat_skip(tail, block + rest);
    vstd::seq_lib::lemma_seq_skip_of_skip(s, nh, nt);
    assert(s.skip(nh + nt) == block + rest);
    lemma_opt_slot_status_round_trip(v.slot_status, rest);
    let nb = block.len() as int;
    assert(take_opt_slot_status(s.skip(nh + nt)) == Some::<
        (Option<SlotStatusEventView>, int),
    >((v.slot_status, nb)));
    assert(nh + nt + nb == encode_account_update(v).len());
}

/// Decoding inverts encoding: the canonical byte form of any
/// well-formed envelope parses back to that envelope.
pub proof fn lemma_message_round_trip(m: MessageView)
    requires
        crate::envelope::wrapper_wf(m),
    ensures
        decode_wrapper(encode_wrapper(m)) == Some(m),
{
    let s = encode_wrapper(m);
    match m {
        MessageView::Transaction(t) => {
            lemma_transaction_round_trip(t, Seq::<u8>::empty());
            assert(s[0] == 1);
            assert(s.skip(1) =~= encode_transaction(t) + Seq::<u8>::empty());
        },
        MessageView::SlotStatus(v) => {
            lemma_slot_status_round_trip(v, Seq::<u8>::empty());
            assert(s[0] == 2);
            assert(s.skip(1) =~= encode_slot_status(v) + Seq::<u8>::empty());
        },
        MessageView::AccountUpdate(a) => {
            lemma_account_update_round_trip(a, Seq::<u8>::empty());
            assert(s[0] == 3);
            assert(s.skip(1) =~= encode_account_update(a) + Seq::<u8>::empty());
        },
        MessageView::Unknown => {
            assert(s =~= seq![0u8]);
        },
    }
}

// --- decoding is sound ---------------------------------------------------

/// Whatever reads back as a flag was the flag's byte.
proof fn lemma_take_bool_sound(s: Seq<u8>)
    ensures
        match take_bool(s) {
            Option::Some(bn) => bool_byte(bn.0) == s.take(bn.1),
            Option::None => true,
        },
{
    if s.len() > 0 && (s[0] == 0 || s[0] == 1) {
        assert(s.take(1) =~= seq![s[0]]);
    }
}

/// Whatever reads back as a byte string was length-prefixed.
proof fn lemma_take_bytes_field_sound(s: Seq<u8>)
    ensures
        match take_bytes_field(s) {
            Option::Some(bn) => bytes_field(bn.0) == s.take(bn.1) && bn.0.len() <= u64::MAX,
            Option::None => true,
        },
{
    crate::varint::lemma_varint_decode_sound(s);
    crate::varint::lemma_varint_decode_len(s);
    match varint_decode(s) {
        Option::None => {},
        Option::Some((len, n)) => {
            if n + len <= s.len() {
                let b = s.subrange(n, n + len);
                assert(b.len() == len);
                assert(varint_bytes((b.len() as u64)) == s.take(n));
                assert(s.take(n) + s.subrange(n, n + len) =~= s.take(n + len));
            }
        },
    }
}

/// Whatever reads back as an instruction summary was its encoding.
proof fn lemma_take_instruction_sound(s: Seq<u8>)
    ensures
        match take_instruction(s) {
            Option::Some(bn) => encode_instruction(bn.0) == s.take(bn.1)
                && crate::envelope::instruction_wf(bn.0),
            Option::None => true,
        },
{
    crate::varint::lemma_varint_decode_sound(s);
    crate::varint::lemma_varint_decode_len(s);
    match varint_decode(s) {
        Option::None => {},
        Option::Some((_pi, n1)) => {
            lemma_take_bytes_field_sound(s.skip(n1));
            lemma_take_bytes_field_len(s.skip(n1));
            match take_bytes_field(s.skip(n1)) {
                Option::None => {},
                Option::Some((_ai, n2)) => {
                    crate::varint::lemma_varint_decode_sound(s.skip(n1 + n2));
                    crate::varint::lemma_varint_decode_len(s.skip(n1 + n2));
                    match varint_decode(s.skip(n1 + n2)) {
                        Option::None => {},
                        Option::Some((_dl, n3)) => {
                            assert(s.take(n1) + s.skip(n1).take(n2) + s.skip(n1 + n2).take(n3)
                                =~= s.take(n1 + n2 + n3));
                        },
                    }
                },
            }
        },
    }
}

/// Whatever reads back as an instruction list was its encoding, with
/// as many summaries as were asked for.
proof fn lemma_take_instruction_list_sound(s: Seq<u8>, count: u64)
    ensures
        match take_instruction_list(s, count) {
            Option::Some(bn) => encode_instruction_list(bn.0) == s.take(bn.1) && bn.0.len()
                == count && 0 <= bn.1 <= s.len() && (forall|j: int|
                0 <= j < bn.0.len() ==> crate::envelope::instruction_wf(#[trigger] bn.0[j])),
            Option::None => true,
        },
    decreases count,
{
    if count == 0 {
        assert(s.take(0) =~= Seq::<u8>::empty());
        assert(encode_instruction_list(Seq::<InstructionView>::empty()) =~= Seq::<u8>::empty());
    } else {
        lemma_take_instruction_sound(s);
        lemma_take_instruction_len(s);
        match take_instruction(s) {
            Option::None => {},
            Option::Some((iv, n)) => {
                lemma_take_instruction_list_sound(s.skip(n), (count - 1) as u64);
                match take_instruction_list(s.skip(n), (count - 1) as u64) {
                    Option::None => {},
                    Option::Some((tl, m)) => {
                        let l = seq![iv] + tl;
                        assert(l[0] == iv);
                        assert(l.skip(1) =~= tl);
                        assert(encode_instruction_list(l) == encode_instruction(iv)
                            + encode_instruction_list(tl));
                        assert(s.take(n) + s.skip(n).take(m) =~= s.take(n + m));
                        assert(forall|j: int|
                            0 <= j < l.len() ==> crate::envelope::instruction_wf(
                                #[trigger] l[j],
                            )) by {
                            assert(forall|j: int| 1 <= j < l.len() ==> l[j] == tl[j - 1]);
                        };
                    },
                }
            },
        }
    }
}

/// Whatever reads back as a transaction event was its encoding.
#[verifier::rlimit(100)]
#[verifier::spinoff_prover]
proof fn lemma_take_transaction_sound(s: Seq<u8>)
    ensures
        match take_transaction(s) {
            Option::Some(bn) => encode_transaction(bn.0) == s.take(bn.1)
                && crate::envelope::transaction_wf(bn.0),
            Option::None => true,
        },
{
    lemma_take_bytes_field_sound(s);
    lemma_take_bytes_field_len(s);
    match take_bytes_field(s) {
        Option::None => {},
        Option::Some((_sig, p1)) => {
            crate::varint::lemma_varint_decode_sound(s.skip(p1));
            crate::varint::lemma_varint_decode_len(s.skip(p1));
            match varint_decode(s.skip(p1)) {
                Option::None => {},
                Option::Some((_slot, n2)) => {
                    lemma_take_bool_sound(s.skip(p1 + n2));
                    match take_bool(s.skip(p1 + n2)) {
                        Option::None => {},
                        Option::Some((_err, n3)) => {
                            crate::varint::lemma_varint_decode_sound(s.skip(p1 + n2 + n3));
                            crate::varint::lemma_varint_decode_len(s.skip(p1 + n2 + n3));
                            match varint_decode(s.skip(p1 + n2 + n3)) {
                                Option::None => {},
                                Option::Some((count, n4)) => {
                                    lemma_take_instruction_list_sound(
                                        s.skip(p1 + n2 + n3 + n4),
                                        count,
                                    );
                                    match take_instruction_list(
                                        s.skip(p1 + n2 + n3 + n4),
                                        count,
                                    ) {
                                        Option::None => {},
                                        Option::Some((_l, m)) => {
                                            assert(s.take(p1) + s.skip(p1).take(n2) + s.skip(
                                                p1 + n2,
                                            ).take(n3) + s.skip(p1 + n2 + n3).take(n4) + s.skip(
                                                p1 + n2 + n3 + n4,
                                            ).take(m) =~= s.take(p1 + n2 + n3 + n4 + m));
                                        },
                                    }
                                },
                            }
                        },
                    }
                },
            }
        },
    }
}

/// Whatever reads back as a slot status event was its encoding.
#[verifier::rlimit(100)]
#[verifier::spinoff_prover]
proof fn lemma_take_slot_status_sound(s: Seq<u8>)
    ensures
        match take_slot_status(s) {
            Option::Some(bn) => encode_slot_status(bn.0) == s.take(bn.1)
                && crate::envelope::slot_status_wf(bn.0),
            Option::None => true,
        },
{
    crate::varint::lemma_varint_decode_sound(s);
    crate::varint::lemma_varint_decode_len(s);
    match varint_decode(s) {
        Option::None => {},
        Option::Some((_slot, p1)) => {
            crate::varint::lemma_varint_decode_sound(s.skip(p1));
            crate::varint::lemma_varint_decode_len(s.skip(p1));
            match varint_decode(s.skip(p1)) {
                Option::None => {},
                Option::Some((_parent, n2)) => {
                    crate::varint::lemma_varint_decode_sound(s.skip(p1 + n2));
                    crate::varint::lemma_varint_decode_len(s.skip(p1 + n2));
                    match varint_decode(s.skip(p1 + n2)) {
                        Option::None => {},
                        Option::Some((_code, n3)) => {
                            lemma_take_bytes_field_sound(s.skip(p1 + n2 + n3));
                            lemma_take_bytes_field_len(s.skip(p1 + n2 + n3));
                            match take_bytes_field(s.skip(p1 + n2 + n3)) {
                                Option::None => {},
                                Option::Some((_hash, n4)) => {
                                    crate::varint::lemma_varint_decode_sound(
                                        s.skip(p1 + n2 + n3 + n4),
                                    );
                                    crate::varint::lemma_varint_decode_len(
                                        s.skip(p1 + n2 + n3 + n4),
                                    );
                                    match varint_decode(s.skip(p1 + n2 + n3 + n4)) {
                                        Option::None => {},
                                        Option::Some((_height, n5)) => {
                                            assert(s.take(p1) + s.skip(p1).take(n2) + s.skip(
                                                p1 + n2,
                                            ).take(n3) + s.skip(p1 + n2 + n3).take(n4) + s.skip(
                                                p1 + n2 + n3 + n4,
                                            ).take(n5) =~= s.take(p1 + n2 + n3 + n4 + n5));
                                        },
                                    }
                                },
                            }
                        },
                    }
                },
            }
        },
    }
}

/// Whatever reads back as account identity fields was their encoding.
#[verifier::rlimit(100)]
#[verifier::spinoff_prover]
proof fn lemma_take_account_head_sound(s: Seq<u8>)
    ensures
        match take_account_head(s) {
            Option::Some(bn) => bytes_field(bn.0.0) + bytes_field(bn.0.1) + varint_bytes(bn.0.2)
                + bool_byte(bn.0.3) == s.take(bn.1) && bn.0.0.len() <= u64::MAX && bn.0.1.len()
                <= u64::MAX,
            Option::None => true,
        },
{
    lemma_take_bytes_field_sound(s);
    lemma_take_bytes_field_len(s);
    match take_bytes_field(s) {
        Option::None => {},
        Option::Some((_pk, p1)) => {
            lemma_take_bytes_field_sound(s.skip(p1));
            lemma_take_bytes_field_len(s.skip(p1));
            match take_bytes_field(s.skip(p1)) {
                Option::None => {},
                Option::Some((_ow, n2)) => {
                    crate::varint::lemma_varint_decode_sound(s.skip(p1 + n2));
                    crate::varint::lemma_varint_decode_len(s.skip(p1 + n2));
                    match varint_decode(s.skip(p1 + n2)) {
                        Option::None => {},
                        Option::Some((_lam, n3)) => {
                            lemma_take_bool_sound(s.skip(p1 + n2 + n3));
                            match take_bool(s.skip(p1 + n2 + n3)) {
                                Option::None => {},
                                Option::Some((_ex, n4)) => {
                                    assert(s.take(p1) + s.skip(p1).take(n2) + s.skip(
                                        p1 + n2,
                                    ).take(n3) + s.skip(p1 + n2 + n3).take(n4) =~= s.take(
                                        p1 + n2 + n3 + n4,
                                    ));
                                },
                            }
                        },
                    }
                },
            }
        },
    }
}

/// Whatever reads back as account bookkeeping fields was their
/// encoding.
#[verifier::rlimit(100)]
#[verifier::spinoff_prover]
proof fn lemma_take_account_tail_sound(s: Seq<u8>)
    ensures
        match take_account_tail(s) {
            Option::Some(bn) => varint_bytes(bn.0.0) + varint_bytes(bn.0.1) + varint_bytes(
                bn.0.2,
            ) + bytes_field(bn.0.3) + varint_bytes(bn.0.4) == s.take(bn.1) && bn.0.3.len()
                <= u64::MAX && 0 <= bn.1 <= s.len(),
            Option::None => true,
        },
{
    crate::varint::lemma_varint_decode_sound(s);
    crate::varint::lemma_varint_decode_len(s);
    match varint_decode(s) {
        Option::None => {},
        Option::Some((_rent, p1)) => {
            crate::varint::lemma_varint_decode_sound(s.skip(p1));
            crate::varint::lemma_varint_decode_len(s.skip(p1));
            match varint_decode(s.skip(p1)) {
                Option::None => {},
                Option::Some((_wv, n2)) => {
                    crate::varint::lemma_varint_decode_sound(s.skip(p1 + n2));
                    crate::varint::lemma_varint_decode_len(s.skip(p1 + n2));
                    match varint_decode(s.skip(p1 + n2)) {
                        Option::None => {},
                        Option::Some((_dl, n3)) => {
                            lemma_take_bytes_field_sound(s.skip(p1 + n2 + n3));
                            lemma_take_bytes_field_len(s.skip(p1 + n2 + n3));
                            match take_bytes_field(s.skip(p1 + n2 + n3)) {
                                Option::None => {},
                                Option::Some((_sig, n4)) => {
                                    crate::varint::lemma_varint_decode_sound(
                                        s.skip(p1 + n2 + n3 + n4),
                                    );
                                    crate::varint::lemma_varint_decode_len(
                                        s.skip(p1 + n2 + n3 + n4),
                                    );
                                    match varint_decode(s.skip(p1 + n2 + n3 + n4)) {
                                        Option::None => {},
                                        Option::Some((_slot, n5)) => {
                                            assert(s.take(p1) + s.skip(p1).take(n2) + s.skip(
                                                p1 + n2,
                                            ).take(n3) + s.skip(p1 + n2 + n3).take(n4) + s.skip(
                                                p1 + n2 + n3 + n4,
                                            ).take(n5) =~= s.take(p1 + n2 + n3 + n4 + n5));
                                        },
                                    }
                                },
                            }
                        },
                    }
                },
            }
        },
    }
}

/// Whatever reads back as an optional slot status block was its
/// encoding.
proof fn lemma_take_opt_slot_status_sound(s: Seq<u8>)
    ensures
        match take_opt_slot_status(s) {
            Option::Some(bn) => encode_opt_slot_status(bn.0) == s.take(bn.1) && 0 <= bn.1
                <= s.len() && (bn.0 matches Some(b) ==> crate::envelope::slot_status_wf(b)),
            Option::None => true,
        },
{
    if s.len() == 0 {
    } else if s[0] == 0 {
        assert(s.take(1) =~= seq![s[0]]);
    } else if s[0] == 1 {
        lemma_take_slot_status_sound(s.skip(1));
        lemma_take_slot_status_len(s.skip(1));
        match take_slot_status(s.skip(1)) {
            Option::None => {},
            Option::Some((b, n)) => {
                assert(seq![s[0]] + s.skip(1).take(n) =~= s.take(1 + n));
            },
        }
    }
}

/// Whatever reads back as an account update event was its encoding.
proof fn lemma_take_account_update_sound(s: Seq<u8>)
    ensures
        match take_account_update(s) {
            Option::Some(bn) => encode_account_update(bn.0) == s.take(bn.1)
                && crate::envelope::account_update_wf(bn.0),
            Option::None => true,
        },
{
    lemma_take_account_head_sound(s);
    lemma_take_account_head_len(s);
    match take_account_head(s) {
        Option::None => {},
        Option::Some((_h, n)) => {
            lemma_take_account_tail_sound(s.skip(n));
            lemma_take_account_tail_len(s.skip(n));
            match take_account_tail(s.skip(n)) {
                Option::None => {},
                Option::Some((_t, m)) => {
                    lemma_take_opt_slot_status_sound(s.skip(n + m));
                    vstd::seq_lib::lemma_seq_skip_of_skip(s, n, m);
                    match take_opt_slot_status(s.skip(n + m)) {
                        Option::None => {},
                        Option::Some((_b, k)) => {
                            let v = take_account_update(s).unwrap().0;
                            lemma_account_encode_split(v);
                            assert(s.take(n) + s.skip(n).take(m) + s.skip(n + m).take(k)
                                =~= s.take(n + m + k));
                        },
                    }
                },
            }
        },
    }
}

/// Decoding is sound: a frame that parses was exactly the canonical
/// byte form of the envelope it parses to, a well-formed one.
pub proof fn lemma_decode_sound(s: Seq<u8>)
    ensures
        match decode_wrapper(s) {
            Option::Some(m) => encode_wrapper(m) == s && crate::envelope::wrapper_wf(m),
            Option::None => true,
        },
{
    if s.len() == 0 {
    } else if s[0] == 0 {
        if s.len() == 1 {
            assert(encode_wrapper(MessageView::Unknown) =~= s);
        }
    } else if s[0] == 1 {
        lemma_take_transaction_sound(s.skip(1));
        match take_transaction(s.skip(1)) {
            Option::None => {},
            Option::Some((t, n)) => {
                if 1 + n == s.len() {
                    assert(s.skip(1).take(n) =~= s.skip(1));
                    assert(seq![1u8] + s.skip(1) =~= s);
                }
            },
        }
    } else if s[0] == 2 {
        lemma_take_slot_status_sound(s.skip(1));
        match take_slot_status(s.skip(1)) {
            Option::None => {},
            Option::Some((t, n)) => {
                if 1 + n == s.len() {
                    assert(s.skip(1).take(n) =~= s.skip(1));
                    assert(seq![2u8] + s.skip(1) =~= s);
                }
            },
        }
    } else if s[0] == 3 {
        lemma_take_account_update_sound(s.skip(1));
        match take_account_update(s.skip(1)) {
            Option::None => {},
            Option::Some((t, n)) => {
                if 1 + n == s.len() {
                    assert(s.skip(1).take(n) =~= s.skip(1));
                    assert(seq![3u8] + s.skip(1) =~= s);
                }
            },
        }
    }
}

/// A frame is malformed exactly when it is the canonical byte form of
/// no well-formed envelope.
pub proof fn lemma_malformed_iff(s: Seq<u8>)
    ensures
        decode_wrapper(s) is None <==> !(exists|m: MessageView|
            crate::envelope::wrapper_wf(m) && encode_wrapper(m) == s),
{
    if decode_wrapper(s) is Some {
        let m = decode_wrapper(s).unwrap();
        lemma_decode_sound(s);
        assert(crate::envelope::wrapper_wf(m) && encode_wrapper(m) == s);
    }
    if exists|m: MessageView| crate::envelope::wrapper_wf(m) && encode_wrapper(m) == s {
        let m = choose|m: MessageView|
            crate::envelope::wrapper_wf(m) && encode_wrapper(m) == s;
        lemma_message_round_trip(m);
    }
}

} // verus!
