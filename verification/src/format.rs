//! Event formatting: console text and log records.
//!
//! Each event kind has a console rendering and, for transactions and
//! account updates, a log record whose JSON line goes to the append-only
//! log file.  Both renderings draw every address and signature from the
//! same base-58 function, so the console and the log show the same
//! characters for the same bytes.

use vstd::prelude::*;

use crate::base58::{base58_encode, base58_of};
use crate::envelope::{
    AccountUpdateEvent, InstructionView, SlotStatusEvent, TransactionEvent, TransactionEventView,
};
use crate::status::{status_kind_of, status_name_of, status_from_code};
use crate::text::{decimal_of, json_escape, u64_to_string, append_json_escaped, push_char};

verus! {

/// How many instruction summaries a transaction rendering shows.
pub const INSTRUCTION_PREVIEW: usize = 3;

/// The rendering of a flag.
pub open spec fn bool_text(b: bool) -> Seq<char> {
    if b {
        "true"@
    } else {
        "false"@
    }
}

/// Render a flag.
fn bool_to_string(b: bool) -> (r: String)
    ensures
        r@ == bool_text(b),
{
    if b {
        String::from_str("true")
    } else {
        String::from_str("false")
    }
}

// --- log records ---------------------------------------------------------

/// What goes to the transaction log for one transaction.
#[derive(Clone, Debug)]
pub struct TxLogRecord {
    /// When the event was handled, in seconds.
    pub timestamp: u64,
    /// The signature, base-58.
    pub signature: String,
    /// The slot the transaction landed in.
    pub slot: u64,
    /// Whether the transaction succeeded: the status metadata marks no
    /// error.
    pub success: bool,
}

/// Build the log record of a transaction event.  The record succeeds
/// exactly when the status metadata marks no error.
pub fn transaction_log_record(timestamp: u64, ev: &TransactionEvent) -> (r: TxLogRecord)
    ensures
        r.timestamp == timestamp,
        r.signature@ == base58_of(ev.signature@),
        r.slot == ev.slot,
        r.success == !ev.is_status_err,
{
    TxLogRecord {
        timestamp: timestamp,
        signature: base58_encode(&ev.signature),
        slot: ev.slot,
        success: !ev.is_status_err,
    }
}

/// What goes to the account log for one account update.
#[derive(Clone, Debug)]
pub struct AccountLogRecord {
    /// When the event was handled, in seconds.
    pub timestamp: u64,
    /// The account address, base-58.
    pub pubkey: String,
    /// The owning program, base-58.
    pub owner: String,
    /// Balance after the update.
    pub lamports: u64,
    /// The slot the update happened in.
    pub slot: u64,
    /// Whether the account holds a program.
    pub executable: bool,
}

/// Build the log record of an account update event.
pub fn account_log_record(timestamp: u64, ev: &AccountUpdateEvent) -> (r: AccountLogRecord)
    ensures
        r.timestamp == timestamp,
        r.pubkey@ == base58_of(ev.pubkey@),
        r.owner@ == base58_of(ev.owner@),
        r.lamports == ev.lamports,
        r.slot == ev.slot,
        r.executable == ev.executable,
{
    AccountLogRecord {
        timestamp: timestamp,
        pubkey: base58_encode(&ev.pubkey),
        owner: base58_encode(&ev.owner),
        lamports: ev.lamports,
        slot: ev.slot,
        executable: ev.executable,
    }
}

// --- log lines -----------------------------------------------------------

/// The JSON line of a transaction log record.
pub open spec fn tx_log_line_of(r: TxLogRecord) -> Seq<char> {
    "{\"timestamp\":"@ + decimal_of(r.timestamp as nat) + ",\"signature\":\""@ + json_escape(
        r.signature@,
    ) + "\",\"slot\":"@ + decimal_of(r.slot as nat) + ",\"success\":"@ + bool_text(r.success)
        + "}"@
}

/// Render the JSON line of a transaction log record.
pub fn render_tx_log_line(r: &TxLogRecord) -> (out: String)
    ensures
        out@ == tx_log_line_of(*r),
{
    let mut out = String::from_str("{\"timestamp\":");
    out.append(u64_to_string(r.timestamp).as_str());
    out.append(",\"signature\":\"");
    append_json_escaped(&mut out, r.signature.as_str());
    out.append("\",\"slot\":");
    out.append(u64_to_string(r.slot).as_str());
    out.append(",\"success\":");
    out.append(bool_to_string(r.success).as_str());
    out.append("}");
    out
}

/// The JSON line of an account log record.
pub open spec fn account_log_line_of(r: AccountLogRecord) -> Seq<char> {
    "{\"timestamp\":"@ + decimal_of(r.timestamp as nat) + ",\"pubkey\":\""@ + json_escape(
        r.pubkey@,
    ) + "\",\"owner\":\""@ + json_escape(r.owner@) + "\",\"lamports\":"@ + decimal_of(
        r.lamports as nat,
    ) + ",\"slot\":"@ + decimal_of(r.slot as nat) + ",\"executable\":"@ + bool_text(r.executable)
        + "}"@
}

/// Render the JSON line of an account log record.
pub fn render_account_log_line(r: &AccountLogRecord) -> (out: String)
    ensures
        out@ == account_log_line_of(*r),
{
    let mut out = String::from_str("{\"timestamp\":");
    out.append(u64_to_string(r.timestamp).as_str());
    out.append(",\"pubkey\":\"");
    append_json_escaped(&mut out, r.pubkey.as_str());
    out.append("\",\"owner\":\"");
    append_json_escaped(&mut out, r.owner.as_str());
    out.append("\",\"lamports\":");
    out.append(u64_to_string(r.lamports).as_str());
    out.append(",\"slot\":");
    out.append(u64_to_string(r.slot).as_str());
    out.append(",\"executable\":");
    out.append(bool_to_string(r.executable).as_str());
    out.append("}");
    out
}

// --- console text --------------------------------------------------------

/// The account indexes of an instruction, each with a leading space.
pub open spec fn idx_join(s: Seq<u8>) -> Seq<char>
    decreases s.len(),
{
    if s.len() == 0 {
        Seq::empty()
    } else {
        idx_join(s.drop_last()) + seq![' '] + decimal_of(s.last() as nat)
    }
}

/// The console line of one instruction summary.
pub open spec fn instruction_line_of(i: InstructionView) -> Seq<char> {
    "  instr "@ + decimal_of(i.program_index as nat) + " accounts:"@ + idx_join(
        i.account_indexes,
    ) + " data_len="@ + decimal_of(i.data_len as nat) + "\n"@
}

/// The console lines of the first `k` instruction summaries.
pub open spec fn instruction_lines_of(l: Seq<InstructionView>) -> Seq<char>
    decreases l.len(),
{
    if l.len() == 0 {
        Seq::empty()
    } else {
        instruction_lines_of(l.drop_last()) + instruction_line_of(l.last())
    }
}

/// The console text of a transaction event: the headline, then at most
/// [`INSTRUCTION_PREVIEW`] instruction summaries, then how many were
/// left out.
pub open spec fn tx_console_of(t: TransactionEventView) -> Seq<char> {
    "Transaction sig="@ + base58_of(t.signature) + " slot="@ + decimal_of(t.slot as nat)
        + " success="@ + bool_text(!t.is_status_err) + "\n"@ + instruction_lines_of(
        t.instructions.take(
            if t.instructions.len() <= INSTRUCTION_PREVIEW as int {
                t.instructions.len() as int
            } else {
                INSTRUCTION_PREVIEW as int
            },
        ),
    ) + if t.instructions.len() > INSTRUCTION_PREVIEW as int {
        "  ... and "@ + decimal_of((t.instructions.len() - INSTRUCTION_PREVIEW as int) as nat)
            + " more\n"@
    } else {
        Seq::<char>::empty()
    }
}

/// Append the account indexes of an instruction.
fn append_idx_join(out: &mut String, idxs: &Vec<u8>)
    ensures
        final(out)@ == old(out)@ + idx_join(idxs@),
{
    let n = idxs.len();
    let mut i: usize = 0;
    proof {
        assert(idxs@.take(0) =~= Seq::<u8>::empty());
        assert(old(out)@ + idx_join(idxs@.take(0)) =~= old(out)@);
    }
    while i < n
        invariant
            i <= n,
            n == idxs@.len(),
            out@ == old(out)@ + idx_join(idxs@.take(i as int)),
        decreases n - i,
    {
        push_char(out, ' ');
        out.append(u64_to_string(idxs[i] as u64).as_str());
        proof {
            assert(idxs@.take(i as int + 1).drop_last() =~= idxs@.take(i as int));
            assert(idxs@.take(i as int + 1).last() == idxs@[i as int]);
            assert(out@ =~= old(out)@ + idx_join(idxs@.take(i as int + 1)));
        }
        i = i + 1;
    }
    proof {
        assert(idxs@.take(n as int) =~= idxs@);
    }
}

/// Append the console line of one instruction summary.
fn append_instruction_line(out: &mut String, i: &crate::envelope::InstructionInfo)
    ensures
        final(out)@ == old(out)@ + instruction_line_of(i@),
{
    out.append("  instr ");
    out.append(u64_to_string(i.program_index).as_str());
    out.append(" accounts:");
    append_idx_join(out, &i.account_indexes);
    out.append(" data_len=");
    out.append(u64_to_string(i.data_len).as_str());
    out.append("\n");
}

/// Render the console text of a transaction event.
pub fn format_transaction(ev: &TransactionEvent) -> (out: String)
    ensures
        out@ == tx_console_of(ev@),
{
    let mut out = String::from_str("Transaction sig=");
    out.append(base58_encode(&ev.signature).as_str());
    out.append(" slot=");
    out.append(u64_to_string(ev.slot).as_str());
    out.append(" success=");
    out.append(bool_to_string(!ev.is_status_err).as_str());
    out.append("\n");
    let total = ev.instructions.len();
    let shown = if total <= INSTRUCTION_PREVIEW {
        total
    } else {
        INSTRUCTION_PREVIEW
    };
    let ghost l = ev@.instructions;
    let ghost base = out@;
    proof {
        assert(l.take(0) =~= Seq::<InstructionView>::empty());
        assert(base + instruction_lines_of(l.take(0)) =~= base);
    }
    let mut k: usize = 0;
    while k < shown
        invariant
            k <= shown,
            shown <= total,
            total == ev.instructions.len(),
            l == ev@.instructions,
            out@ == base + instruction_lines_of(l.take(k as int)),
        decreases shown - k,
    {
        append_instruction_line(&mut out, &ev.instructions[k]);
        proof {
            assert(l.take(k as int + 1).drop_last() =~= l.take(k as int));
            assert(l.take(k as int + 1).last() == l[k as int]);
            assert(l[k as int] == ev.instructions[k as int]@);
            assert(out@ =~= base + instruction_lines_of(l.take(k as int + 1)));
        }
        k = k + 1;
    }
    if total > INSTRUCTION_PREVIEW {
        out.append("  ... and ");
        out.append(u64_to_string((total - INSTRUCTION_PREVIEW) as u64).as_str());
        out.append(" more\n");
    }
    proof {
        assert(out@ =~= tx_console_of(ev@));
    }
    out
}

/// The console text of a slot status event.
pub open spec fn slot_console_of(s: crate::envelope::SlotStatusEventView) -> Seq<char> {
    "Slot "@ + decimal_of(s.slot as nat) + " parent="@ + decimal_of(s.parent as nat)
        + " status="@ + status_name_of(status_kind_of(s.status_code)) + (
    if s.block_hash.len() > 0 {
        " hash="@ + base58_of(s.block_hash)
    } else {
        Seq::<char>::empty()
    }) + " height="@ + decimal_of(s.block_height as nat) + "\n"@
}

/// Render the console text of a slot status event.
pub fn format_slot_status(ev: &SlotStatusEvent) -> (out: String)
    ensures
        out@ == slot_console_of(ev@),
{
    let mut out = String::from_str("Slot ");
    out.append(u64_to_string(ev.slot).as_str());
    out.append(" parent=");
    out.append(u64_to_string(ev.parent).as_str());
    out.append(" status=");
    out.append(status_from_code(ev.status_code).name().as_str());
    if ev.block_hash.len() > 0 {
        out.append(" hash=");
        out.append(base58_encode(&ev.block_hash).as_str());
    }
    out.append(" height=");
    out.append(u64_to_string(ev.block_height).as_str());
    out.append("\n");
    proof {
        assert(out@ =~= slot_console_of(ev@));
    }
    out
}

/// The console text of an account update event: the account line,
/// then the embedded slot status block where one was delivered.
pub open spec fn account_console_of(a: crate::envelope::AccountUpdateEventView) -> Seq<char> {
    "Account "@ + base58_of(a.pubkey) + " owner="@ + base58_of(a.owner) + " lamports="@
        + decimal_of(a.lamports as nat) + " executable="@ + bool_text(a.executable)
        + " rent_epoch="@ + decimal_of(a.rent_epoch as nat) + " write_version="@ + decimal_of(
        a.write_version as nat,
    ) + " data_len="@ + decimal_of(a.data_len as nat) + (
    if a.txn_signature.len() > 0 {
        " txsig="@ + base58_of(a.txn_signature)
    } else {
        Seq::<char>::empty()
    }) + " slot="@ + decimal_of(a.slot as nat) + "\n"@ + (match a.slot_status {
        Option::Some(b) => "  with "@ + slot_console_of(b),
        Option::None => Seq::<char>::empty(),
    })
}

/// Render the console text of an account update event.
pub fn format_account_update(ev: &AccountUpdateEvent) -> (out: String)
    ensures
        out@ == account_console_of(ev@),
{
    let mut out = String::from_str("Account ");
    out.append(base58_encode(&ev.pubkey).as_str());
    out.append(" owner=");
    out.append(base58_encode(&ev.owner).as_str());
    out.append(" lamports=");
    out.append(u64_to_string(ev.lamports).as_str());
    out.append(" executable=");
    out.append(bool_to_string(ev.executable).as_str());
    out.append(" rent_epoch=");
    out.append(u64_to_string(ev.rent_epoch).as_str());
    out.append(" write_version=");
    out.append(u64_to_string(ev.write_version).as_str());
    out.append(" data_len=");
    out.append(u64_to_string(ev.data_len).as_str());
    if ev.txn_signature.len() > 0 {
        out.append(" txsig=");
        out.append(base58_encode(&ev.txn_signature).as_str());
    }
    out.append(" slot=");
    out.append(u64_to_string(ev.slot).as_str());
    out.append("\n");
    match &ev.slot_status {
        Option::Some(b) => {
            out.append("  with ");
            out.append(format_slot_status(b).as_str());
        },
        Option::None => {},
    }
    proof {
        assert(out@ =~= account_console_of(ev@));
    }
    out
}

// --- the console and the log agree ---------------------------------------

/// The signature appears in the console text in the same characters
/// the log record carries: both are the base-58 rendering of the same
/// bytes, and the console line holds it right after its opening label.
pub proof fn lemma_console_and_log_share_signature(t: TransactionEventView)
    ensures
        ({
            let label = "Transaction sig="@;
            let sig = base58_of(t.signature);
            tx_console_of(t).subrange(label.len() as int, label.len() + sig.len() as int) == sig
        }),
{
    let label = "Transaction sig="@;
    let sig = base58_of(t.signature);
    assert(tx_console_of(t).subrange(label.len() as int, label.len() + sig.len() as int)
        =~= sig);
}

/// The account address is shown in the same characters on the console
/// and in the log: both are the base-58 rendering of the same bytes,
/// and the console line holds it right after its opening label.
pub proof fn lemma_console_and_log_share_pubkey(a: crate::envelope::AccountUpdateEventView)
    ensures
        ({
            let label = "Account "@;
            let key = base58_of(a.pubkey);
            account_console_of(a).subrange(label.len() as int, label.len() + key.len() as int)
                == key
        }),
{
    let label = "Account "@;
    let key = base58_of(a.pubkey);
    assert(account_console_of(a).subrange(label.len() as int, label.len() + key.len() as int)
        =~= key);
}

} // verus!
