//! Stream envelopes and their binary coding.
//!
//! An envelope carries at most one event.  This module gives the
//! envelope values the library's own canonical byte form: a leading
//! kind tag, then the fields of the tagged event, byte strings
//! length-prefixed with a varint, integers as varints, flags as one
//! byte, and a lone zero tag for an envelope that carries no event
//! (reported as unknown rather than an error).  The coding is
//! canonical: each envelope value has exactly one byte form, proved in
//! [`crate::decode`] in both directions.  A service that publishes its
//! own envelope schema speaks a different byte form; bridging the two
//! is transport work and belongs to the surrounding application.

use vstd::prelude::*;

use crate::varint::{varint_bytes, varint_decode, write_varint, read_varint};

verus! {

/// Compact account of one instruction of a transaction.
#[derive(Clone, Debug)]
pub struct InstructionInfo {
    /// Index of the program account that runs the instruction.
    pub program_index: u64,
    /// Indexes of the accounts the instruction references.
    pub account_indexes: Vec<u8>,
    /// Length of the instruction's opaque data.
    pub data_len: u64,
}

/// Mathematical value of an [`InstructionInfo`].
pub ghost struct InstructionView {
    pub program_index: u64,
    pub account_indexes: Seq<u8>,
    pub data_len: u64,
}

impl View for InstructionInfo {
    type V = InstructionView;

    open spec fn view(&self) -> InstructionView {
        InstructionView {
            program_index: self.program_index,
            account_indexes: self.account_indexes@,
            data_len: self.data_len,
        }
    }
}

/// A confirmed transaction as it arrives on the stream.
#[derive(Clone, Debug)]
pub struct TransactionEvent {
    /// Transaction signature, raw bytes.
    pub signature: Vec<u8>,
    /// Slot the transaction landed in.
    pub slot: u64,
    /// Whether the status metadata marks the transaction as failed.
    pub is_status_err: bool,
    /// Instruction summaries, in order.
    pub instructions: Vec<InstructionInfo>,
}

/// Mathematical value of a [`TransactionEvent`].
pub ghost struct TransactionEventView {
    pub signature: Seq<u8>,
    pub slot: u64,
    pub is_status_err: bool,
    pub instructions: Seq<InstructionView>,
}

impl View for TransactionEvent {
    type V = TransactionEventView;

    open spec fn view(&self) -> TransactionEventView {
        TransactionEventView {
            signature: self.signature@,
            slot: self.slot,
            is_status_err: self.is_status_err,
            instructions: self.instructions@.map_values(|i: InstructionInfo| i@),
        }
    }
}

/// A slot status change as it arrives on the stream.
#[derive(Clone, Debug)]
pub struct SlotStatusEvent {
    /// The slot the status speaks of.
    pub slot: u64,
    /// Its parent slot.
    pub parent: u64,
    /// Wire code of the confirmation level.
    pub status_code: u64,
    /// Hash of the slot's block, raw bytes; empty when not reported.
    pub block_hash: Vec<u8>,
    /// Height of the block.
    pub block_height: u64,
}

/// Mathematical value of a [`SlotStatusEvent`].
pub ghost struct SlotStatusEventView {
    pub slot: u64,
    pub parent: u64,
    pub status_code: u64,
    pub block_hash: Seq<u8>,
    pub block_height: u64,
}

impl View for SlotStatusEvent {
    type V = SlotStatusEventView;

    open spec fn view(&self) -> SlotStatusEventView {
        SlotStatusEventView {
            slot: self.slot,
            parent: self.parent,
            status_code: self.status_code,
            block_hash: self.block_hash@,
            block_height: self.block_height,
        }
    }
}

/// An account update as it arrives on the stream.
#[derive(Clone, Debug)]
pub struct AccountUpdateEvent {
    /// Address of the account, raw bytes.
    pub pubkey: Vec<u8>,
    /// Address of the owning program, raw bytes.
    pub owner: Vec<u8>,
    /// Balance after the update.
    pub lamports: u64,
    /// Whether the account holds a program.
    pub executable: bool,
    /// Rent epoch after the update.
    pub rent_epoch: u64,
    /// Per-account write sequence number.
    pub write_version: u64,
    /// Length of the account's data.
    pub data_len: u64,
    /// Signature of the transaction that caused the update; empty when
    /// none was reported.
    pub txn_signature: Vec<u8>,
    /// Slot the update happened in.
    pub slot: u64,
    /// The slot status block delivered with the update, when one was.
    pub slot_status: Option<SlotStatusEvent>,
}

/// Mathematical value of an [`AccountUpdateEvent`].
pub ghost struct AccountUpdateEventView {
    pub pubkey: Seq<u8>,
    pub owner: Seq<u8>,
    pub lamports: u64,
    pub executable: bool,
    pub rent_epoch: u64,
    pub write_version: u64,
    pub data_len: u64,
    pub txn_signature: Seq<u8>,
    pub slot: u64,
    pub slot_status: Option<SlotStatusEventView>,
}

/// Mathematical value of an optional slot status block.
pub open spec fn opt_slot_status_view(o: Option<SlotStatusEvent>) -> Option<SlotStatusEventView> {
    match o {
        Option::Some(b) => Some(b@),
        Option::None => None,
    }
}

impl View for AccountUpdateEvent {
    type V = AccountUpdateEventView;

    open spec fn view(&self) -> AccountUpdateEventView {
        AccountUpdateEventView {
            pubkey: self.pubkey@,
            owner: self.owner@,
            lamports: self.lamports,
            executable: self.executable,
            rent_epoch: self.rent_epoch,
            write_version: self.write_version,
            data_len: self.data_len,
            txn_signature: self.txn_signature@,
            slot: self.slot,
            slot_status: opt_slot_status_view(self.slot_status),
        }
    }
}

/// One frame of the stream: at most one event, or none at all.
#[derive(Clone, Debug)]
pub enum MessageWrapper {
    Transaction(TransactionEvent),
    SlotStatus(SlotStatusEvent),
    AccountUpdate(AccountUpdateEvent),
    /// A frame whose event slot is empty; logged as unknown.
    Unknown,
}

/// Mathematical value of a [`MessageWrapper`].
pub ghost enum MessageView {
    Transaction(TransactionEventView),
    SlotStatus(SlotStatusEventView),
    AccountUpdate(AccountUpdateEventView),
    Unknown,
}

impl View for MessageWrapper {
    type V = MessageView;

    open spec fn view(&self) -> MessageView {
        match self {
            MessageWrapper::Transaction(t) => MessageView::Transaction(t@),
            MessageWrapper::SlotStatus(s) => MessageView::SlotStatus(s@),
            MessageWrapper::AccountUpdate(a) => MessageView::AccountUpdate(a@),
            MessageWrapper::Unknown => MessageView::Unknown,
        }
    }
}

// --- well-formed views ---------------------------------------------------

/// The byte strings of an instruction summary are short enough to carry
/// a length prefix.  Every value built at run time satisfies this.
pub open spec fn instruction_wf(i: InstructionView) -> bool {
    i.account_indexes.len() <= u64::MAX
}

/// The byte strings and lists of a transaction event are short enough
/// to carry a length prefix.
pub open spec fn transaction_wf(t: TransactionEventView) -> bool {
    &&& t.signature.len() <= u64::MAX
    &&& t.instructions.len() <= u64::MAX
    &&& forall|j: int| 0 <= j < t.instructions.len() ==> instruction_wf(#[trigger] t.instructions[j])
}

/// The byte strings of a slot status event are short enough to carry a
/// length prefix.
pub open spec fn slot_status_wf(s: SlotStatusEventView) -> bool {
    s.block_hash.len() <= u64::MAX
}

/// The byte strings of an account update event are short enough to
/// carry a length prefix.
pub open spec fn account_update_wf(a: AccountUpdateEventView) -> bool {
    &&& a.pubkey.len() <= u64::MAX
    &&& a.owner.len() <= u64::MAX
    &&& a.txn_signature.len() <= u64::MAX
    &&& match a.slot_status {
        Option::Some(b) => slot_status_wf(b),
        Option::None => true,
    }
}

/// The byte strings of an envelope are short enough to carry a length
/// prefix.
pub open spec fn wrapper_wf(m: MessageView) -> bool {
    match m {
        MessageView::Transaction(t) => transaction_wf(t),
        MessageView::SlotStatus(s) => slot_status_wf(s),
        MessageView::AccountUpdate(a) => account_update_wf(a),
        MessageView::Unknown => true,
    }
}

// --- canonical byte form -------------------------------------------------

/// A byte string carried with its length in front.
pub open spec fn bytes_field(b: Seq<u8>) -> Seq<u8> {
    varint_bytes(b.len() as u64) + b
}

/// A flag carried as a single byte.
pub open spec fn bool_byte(b: bool) -> Seq<u8> {
    if b {
        seq![1u8]
    } else {
        seq![0u8]
    }
}

/// Byte form of one instruction summary.
pub open spec fn encode_instruction(i: InstructionView) -> Seq<u8> {
    varint_bytes(i.program_index) + bytes_field(i.account_indexes) + varint_bytes(i.data_len)
}

/// Byte form of a list of instruction summaries, in order.
pub open spec fn encode_instruction_list(l: Seq<InstructionView>) -> Seq<u8>
    decreases l.len(),
{
    if l.len() == 0 {
        Seq::empty()
    } else {
        encode_instruction(l[0]) + encode_instruction_list(l.skip(1))
    }
}

/// Byte form of a transaction event.
pub open spec fn encode_transaction(t: TransactionEventView) -> Seq<u8> {
    bytes_field(t.signature) + varint_bytes(t.slot) + bool_byte(t.is_status_err) + varint_bytes(
        t.instructions.len() as u64,
    ) + encode_instruction_list(t.instructions)
}

/// Byte form of a slot status event.
pub open spec fn encode_slot_status(s: SlotStatusEventView) -> Seq<u8> {
    varint_bytes(s.slot) + varint_bytes(s.parent) + varint_bytes(s.status_code) + bytes_field(
        s.block_hash,
    ) + varint_bytes(s.block_height)
}

/// Byte form of an optional slot status block: a presence flag, then
/// the block where there is one.
pub open spec fn encode_opt_slot_status(o: Option<SlotStatusEventView>) -> Seq<u8> {
    match o {
        Option::Some(b) => seq![1u8] + encode_slot_status(b),
        Option::None => seq![0u8],
    }
}

/// Byte form of an account update event.
pub open spec fn encode_account_update(a: AccountUpdateEventView) -> Seq<u8> {
    bytes_field(a.pubkey) + bytes_field(a.owner) + varint_bytes(a.lamports) + bool_byte(
        a.executable,
    ) + varint_bytes(a.rent_epoch) + varint_bytes(a.write_version) + varint_bytes(a.data_len)
        + bytes_field(a.txn_signature) + varint_bytes(a.slot) + encode_opt_slot_status(
        a.slot_status,
    )
}

/// Byte form of a whole envelope: the kind tag, then the event.
pub open spec fn encode_wrapper(m: MessageView) -> Seq<u8> {
    match m {
        MessageView::Transaction(t) => seq![1u8] + encode_transaction(t),
        MessageView::SlotStatus(s) => seq![2u8] + encode_slot_status(s),
        MessageView::AccountUpdate(a) => seq![3u8] + encode_account_update(a),
        MessageView::Unknown => seq![0u8],
    }
}

// --- verified encoders ---------------------------------------------------

/// Append `b` with its length in front.
fn write_bytes_field(out: &mut Vec<u8>, b: &Vec<u8>)
    ensures
        final(out)@ == old(out)@ + bytes_field(b@),
{
    write_varint(out, b.len() as u64);
    out.extend_from_slice(b.as_slice());
}

/// Append a flag as one byte.
fn write_bool(out: &mut Vec<u8>, b: bool)
    ensures
        final(out)@ == old(out)@ + bool_byte(b),
{
    out.push(if b { 1 } else { 0 });
    proof {
        assert(final(out)@ =~= old(out)@ + bool_byte(b));
    }
}

/// Appending the byte forms of a prefix and of the element after it
/// yields the byte form of the longer prefix.
proof fn lemma_instruction_list_snoc(l: Seq<InstructionView>, i: int)
    requires
        0 <= i < l.len(),
    ensures
        encode_instruction_list(l.take(i + 1)) == encode_instruction_list(l.take(i))
            + encode_instruction(l[i]),
    decreases i,
{
    if i == 0 {
        assert(l.take(1).len() == 1);
        assert(l.take(1)[0] == l[0]);
        assert(l.take(1).skip(1) =~= Seq::<InstructionView>::empty());
        assert(l.take(0) =~= Seq::<InstructionView>::empty());
        assert(encode_instruction_list(Seq::<InstructionView>::empty())
            == Seq::<u8>::empty());
        assert(encode_instruction_list(l.take(1)) == encode_instruction(l[0])
            + Seq::<u8>::empty());
        assert(encode_instruction(l[0]) + Seq::<u8>::empty() =~= encode_instruction(l[0]));
        assert(encode_instruction_list(l.take(0)) + encode_instruction(l[0])
            =~= encode_instruction(l[0]));
    } else {
        lemma_instruction_list_snoc(l.skip(1), i - 1);
        assert(l.take(i + 1)[0] == l[0]);
        assert(l.take(i + 1).skip(1) =~= l.skip(1).take(i));
        assert(l.take(i)[0] == l[0]);
        assert(l.take(i).skip(1) =~= l.skip(1).take(i - 1));
        assert(l.skip(1)[i - 1] == l[i]);
        assert(encode_instruction_list(l.take(i + 1)) == encode_instruction(l[0])
            + encode_instruction_list(l.skip(1).take(i)));
        assert(encode_instruction(l[0]) + (encode_instruction_list(l.skip(1).take(i - 1))
            + encode_instruction(l[i])) =~= (encode_instruction(l[0]) + encode_instruction_list(
            l.skip(1).take(i - 1),
        )) + encode_instruction(l[i]));
    }
}

/// Append the byte form of one instruction summary.
fn write_instruction(out: &mut Vec<u8>, i: &InstructionInfo)
    ensures
        final(out)@ == old(out)@ + encode_instruction(i@),
{
    write_varint(out, i.program_index);
    write_bytes_field(out, &i.account_indexes);
    write_varint(out, i.data_len);
}

/// Append the byte form of a transaction event.
fn write_transaction(out: &mut Vec<u8>, t: &TransactionEvent)
    ensures
        final(out)@ == old(out)@ + encode_transaction(t@),
{
    write_bytes_field(out, &t.signature);
    write_varint(out, t.slot);
    write_bool(out, t.is_status_err);
    write_varint(out, t.instructions.len() as u64);
    let ghost l = t@.instructions;
    let ghost base = out@;
    proof {
        assert(l.take(0) =~= Seq::<InstructionView>::empty());
        assert(base + Seq::<u8>::empty() =~= base);
    }
    let n = t.instructions.len();
    for k in 0..n
        invariant
            n == t.instructions.len(),
            l == t@.instructions,
            l.len() == n,
            base == old(out)@ + bytes_field(t@.signature) + varint_bytes(t@.slot) + bool_byte(
                t@.is_status_err,
            ) + varint_bytes(l.len() as u64),
            out@ == base + encode_instruction_list(l.take(k as int)),
    {
        write_instruction(out, &t.instructions[k]);
        proof {
            lemma_instruction_list_snoc(l, k as int);
            assert(l[k as int] == t.instructions[k as int]@);
            assert((base + encode_instruction_list(l.take(k as int))) + encode_instruction(
                l[k as int],
            ) =~= base + encode_instruction_list(l.take(k as int + 1)));
        }
    }
    proof {
        assert(l.take(l.len() as int) =~= l);
        assert(base + encode_instruction_list(l) =~= old(out)@ + encode_transaction(t@));
    }
}

/// Append the byte form of a slot status event.
fn write_slot_status(out: &mut Vec<u8>, s: &SlotStatusEvent)
    ensures
        final(out)@ == old(out)@ + encode_slot_status(s@),
{
    write_varint(out, s.slot);
    write_varint(out, s.parent);
    write_varint(out, s.status_code);
    write_bytes_field(out, &s.block_hash);
    write_varint(out, s.block_height);
}

/// Append the byte form of an optional slot status block.
fn write_opt_slot_status(out: &mut Vec<u8>, o: &Option<SlotStatusEvent>)
    ensures
        final(out)@ == old(out)@ + encode_opt_slot_status(opt_slot_status_view(*o)),
{
    match o {
        Option::Some(b) => {
            write_bool(out, true);
            write_slot_status(out, b);
            proof {
                assert(old(out)@ + (bool_byte(true) + encode_slot_status(b@)) =~= (old(out)@
                    + bool_byte(true)) + encode_slot_status(b@));
                assert(bool_byte(true) + encode_slot_status(b@) =~= encode_opt_slot_status(
                    opt_slot_status_view(*o),
                ));
            }
        },
        Option::None => {
            write_bool(out, false);
            proof {
                assert(bool_byte(false) =~= encode_opt_slot_status(opt_slot_status_view(*o)));
            }
        },
    }
}

/// Append the byte form of an account update event.
fn write_account_update(out: &mut Vec<u8>, a: &AccountUpdateEvent)
    ensures
        final(out)@ == old(out)@ + encode_account_update(a@),
{
    write_bytes_field(out, &a.pubkey);
    write_bytes_field(out, &a.owner);
    write_varint(out, a.lamports);
    write_bool(out, a.executable);
    write_varint(out, a.rent_epoch);
    write_varint(out, a.write_version);
    write_varint(out, a.data_len);
    write_bytes_field(out, &a.txn_signature);
    write_varint(out, a.slot);
    write_opt_slot_status(out, &a.slot_status);
}

/// Encode an envelope into its canonical byte form.
pub fn encode_message(m: &MessageWrapper) -> (r: Vec<u8>)
    ensures
        r@ == encode_wrapper(m@),
{
    let mut out: Vec<u8> = Vec::new();
    match m {
        MessageWrapper::Transaction(t) => {
            out.push(1);
            proof {
                assert(out@ =~= seq![1u8]);
            }
            write_transaction(&mut out, t);
        },
        MessageWrapper::SlotStatus(s) => {
            out.push(2);
            proof {
                assert(out@ =~= seq![2u8]);
            }
            write_slot_status(&mut out, s);
        },
        MessageWrapper::AccountUpdate(a) => {
            out.push(3);
            proof {
                assert(out@ =~= seq![3u8]);
            }
            write_account_update(&mut out, a);
        },
        MessageWrapper::Unknown => {
            out.push(0);
            proof {
                assert(out@ =~= seq![0u8]);
            }
        },
    }
    out
}

} // verus!
