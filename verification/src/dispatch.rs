//! Subscription modes, their validation, and the address lists the
//! operator types in.

use vstd::prelude::*;
use vstd::utf8::encode_utf8;

use crate::text::chars_to_string;
use crate::varint::varint_bytes;

verus! {

/// The four streams the server offers.
#[derive(Clone, Copy, Debug, PartialEq, Eq, Structural)]
pub enum SubscriptionKind {
    /// All transactions.
    Transactions,
    /// Slot status changes.
    Slots,
    /// Transactions touching chosen wallets, filtered by the server.
    WalletTransactions,
    /// Updates of chosen accounts, filtered by the server.
    AccountUpdates,
}

/// The operator's choice: a stream, with its address filters where the
/// stream takes any.
#[derive(Clone, Debug)]
pub enum SubscriptionMode {
    Transactions,
    Slots,
    WalletTransactions { wallets: Vec<String> },
    AccountUpdates { accounts: Vec<String>, owners: Vec<String> },
}

/// A user error found before any network call.
#[derive(Clone, Copy, Debug, PartialEq, Eq, Structural)]
pub enum UserInputError {
    /// The menu choice names no subscription mode.
    InvalidChoice,
    /// An account-update subscription with both address lists empty.
    EmptyAddressFilters,
}

/// The subscription kind each menu number picks, if any.
pub open spec fn kind_of_choice(choice: u64) -> Option<SubscriptionKind> {
    if choice == 1 {
        Some(SubscriptionKind::Transactions)
    } else if choice == 2 {
        Some(SubscriptionKind::Slots)
    } else if choice == 3 {
        Some(SubscriptionKind::WalletTransactions)
    } else if choice == 4 {
        Some(SubscriptionKind::AccountUpdates)
    } else {
        None
    }
}

/// Map a menu number to the subscription kind it picks; any other
/// number is an invalid choice.
pub fn kind_from_choice(choice: u64) -> (r: Result<SubscriptionKind, UserInputError>)
    ensures
        match kind_of_choice(choice) {
            Option::Some(k) => r == Ok::<SubscriptionKind, UserInputError>(k),
            Option::None => r == Err::<SubscriptionKind, UserInputError>(
                UserInputError::InvalidChoice,
            ),
        },
{
    if choice == 1 {
        Ok(SubscriptionKind::Transactions)
    } else if choice == 2 {
        Ok(SubscriptionKind::Slots)
    } else if choice == 3 {
        Ok(SubscriptionKind::WalletTransactions)
    } else if choice == 4 {
        Ok(SubscriptionKind::AccountUpdates)
    } else {
        Err(UserInputError::InvalidChoice)
    }
}

/// The stream a mode subscribes to.
pub open spec fn kind_of_mode_spec(m: SubscriptionMode) -> SubscriptionKind {
    match m {
        SubscriptionMode::Transactions => SubscriptionKind::Transactions,
        SubscriptionMode::Slots => SubscriptionKind::Slots,
        SubscriptionMode::WalletTransactions { .. } => SubscriptionKind::WalletTransactions,
        SubscriptionMode::AccountUpdates { .. } => SubscriptionKind::AccountUpdates,
    }
}

/// The stream a mode subscribes to, and so the event kind its consumer
/// expects.
pub fn kind_of_mode(m: &SubscriptionMode) -> (k: SubscriptionKind)
    ensures
        k == kind_of_mode_spec(*m),
{
    match m {
        SubscriptionMode::Transactions => SubscriptionKind::Transactions,
        SubscriptionMode::Slots => SubscriptionKind::Slots,
        SubscriptionMode::WalletTransactions { .. } => SubscriptionKind::WalletTransactions,
        SubscriptionMode::AccountUpdates { .. } => SubscriptionKind::AccountUpdates,
    }
}

/// A mode may be subscribed: an account-update subscription must name
/// at least one account or owner address, every other mode stands as
/// it is.
pub open spec fn mode_valid(m: SubscriptionMode) -> bool {
    match m {
        SubscriptionMode::AccountUpdates { accounts, owners } => accounts@.len() > 0
            || owners@.len() > 0,
        _ => true,
    }
}

/// Check a mode before any network call: an account-update
/// subscription with both address lists empty is rejected, and nothing
/// else is.
pub fn validate_mode(mode: &SubscriptionMode) -> (r: Result<(), UserInputError>)
    ensures
        r is Ok <==> mode_valid(*mode),
        r is Err ==> r == Err::<(), UserInputError>(UserInputError::EmptyAddressFilters),
{
    match mode {
        SubscriptionMode::AccountUpdates { accounts, owners } => {
            if accounts.len() == 0 && owners.len() == 0 {
                Err(UserInputError::EmptyAddressFilters)
            } else {
                Ok(())
            }
        },
        _ => Ok(()),
    }
}

// --- subscription request bodies -----------------------------------------

/// The protobuf key of a length-delimited field: the tag beside the
/// wire type bits.
pub open spec fn field_key(tag: u32) -> u64 {
    (tag * 8 + 2) as u64
}

/// The protobuf form of one string field: its key, the byte length of
/// the text, and the text itself.
pub open spec fn string_field(tag: u32, v: Seq<char>) -> Seq<u8> {
    varint_bytes(field_key(tag)) + varint_bytes(encode_utf8(v).len() as u64) + encode_utf8(v)
}

/// The protobuf form of a repeated string field, one entry per value,
/// in order.
pub open spec fn repeated_string_field(tag: u32, vs: Seq<Seq<char>>) -> Seq<u8>
    decreases vs.len(),
{
    if vs.len() == 0 {
        Seq::empty()
    } else {
        repeated_string_field(tag, vs.drop_last()) + string_field(tag, vs.last())
    }
}

/// The body of the wallet-filtered transaction subscription request:
/// each wallet address as field 1.
pub open spec fn wallets_request_bytes(wallets: Seq<Seq<char>>) -> Seq<u8> {
    repeated_string_field(1, wallets)
}

/// The body of the account-update subscription request: each account
/// address as field 1, each owner address as field 2.
pub open spec fn accounts_request_bytes(
    accounts: Seq<Seq<char>>,
    owners: Seq<Seq<char>>,
) -> Seq<u8> {
    repeated_string_field(1, accounts) + repeated_string_field(2, owners)
}

/// Relies on prost's `string::encode`: it appends the field key (the
/// tag beside the length-delimited wire type), then the byte length of
/// the text, then its bytes.  Tags outside protobuf's range are left
/// out: there the call may abort.
#[verifier::external_body]
fn prost_string_field(tag: u32, value: &String, out: &mut Vec<u8>)
    requires
        1 <= tag <= 0x1FFFFFFF,
    ensures
        final(out)@ == old(out)@ + string_field(tag, value@),
{
    prost::encoding::string::encode(tag, value, out);
}

/// Append a repeated string field, one entry per value, in order.
fn append_string_fields(out: &mut Vec<u8>, tag: u32, vs: &Vec<String>)
    requires
        1 <= tag <= 0x1FFFFFFF,
    ensures
        final(out)@ == old(out)@ + repeated_string_field(
            tag,
            vs@.map_values(|x: String| x@),
        ),
{
    let ghost l = vs@.map_values(|x: String| x@);
    let n = vs.len();
    let mut i: usize = 0;
    proof {
        assert(l.take(0) =~= Seq::<Seq<char>>::empty());
        assert(old(out)@ + repeated_string_field(tag, l.take(0)) =~= old(out)@);
    }
    while i < n
        invariant
            i <= n,
            n == vs@.len(),
            1 <= tag <= 0x1FFFFFFF,
            l == vs@.map_values(|x: String| x@),
            out@ == old(out)@ + repeated_string_field(tag, l.take(i as int)),
        decreases n - i,
    {
        prost_string_field(tag, &vs[i], out);
        proof {
            assert(l.take(i as int + 1).drop_last() =~= l.take(i as int));
            assert(l.take(i as int + 1).last() == l[i as int]);
            assert(l[i as int] == vs@[i as int]@);
            assert(out@ =~= old(out)@ + repeated_string_field(tag, l.take(i as int + 1)));
        }
        i = i + 1;
    }
    proof {
        assert(l.take(n as int) =~= l);
    }
}

/// Build the body of the wallet-filtered transaction subscription
/// request.
pub fn build_wallets_request(wallets: &Vec<String>) -> (r: Vec<u8>)
    ensures
        r@ == wallets_request_bytes(wallets@.map_values(|x: String| x@)),
{
    let mut out: Vec<u8> = Vec::new();
    append_string_fields(&mut out, 1, wallets);
    proof {
        assert(out@ =~= wallets_request_bytes(wallets@.map_values(|x: String| x@)));
    }
    out
}

/// Build the body of the account-update subscription request.
pub fn build_accounts_request(accounts: &Vec<String>, owners: &Vec<String>) -> (r: Vec<u8>)
    ensures
        r@ == accounts_request_bytes(
            accounts@.map_values(|x: String| x@),
            owners@.map_values(|x: String| x@),
        ),
{
    let mut out: Vec<u8> = Vec::new();
    append_string_fields(&mut out, 1, accounts);
    append_string_fields(&mut out, 2, owners);
    proof {
        assert(out@ =~= accounts_request_bytes(
            accounts@.map_values(|x: String| x@),
            owners@.map_values(|x: String| x@),
        ));
    }
    out
}

// --- address lists -------------------------------------------------------

/// A blank character inside an address list: space or tab.
pub open spec fn blank_char(c: char) -> bool {
    c == ' ' || c == '\t'
}

/// The string with its leading and trailing blanks removed.
pub open spec fn trimmed(s: Seq<char>) -> Seq<char>
    decreases s.len(),
{
    if s.len() == 0 {
        s
    } else if blank_char(s[0]) {
        trimmed(s.skip(1))
    } else if blank_char(s.last()) {
        trimmed(s.drop_last())
    } else {
        s
    }
}

/// The addresses named after `cur` on the rest of a comma-separated
/// line: each piece between commas, blanks trimmed, empty pieces
/// dropped.
pub open spec fn addresses_acc(s: Seq<char>, cur: Seq<char>) -> Seq<Seq<char>>
    decreases s.len(),
{
    if s.len() == 0 {
        if trimmed(cur).len() > 0 {
            seq![trimmed(cur)]
        } else {
            Seq::empty()
        }
    } else if s[0] == ',' {
        (if trimmed(cur).len() > 0 {
            seq![trimmed(cur)]
        } else {
            Seq::empty()
        }) + addresses_acc(s.skip(1), Seq::empty())
    } else {
        addresses_acc(s.skip(1), cur.push(s[0]))
    }
}

/// The addresses a comma-separated line names.
pub open spec fn addresses_of(line: Seq<char>) -> Seq<Seq<char>> {
    addresses_acc(line, Seq::empty())
}

/// Remove leading and trailing blanks.
fn trim_chars(chars: Vec<char>) -> (r: Vec<char>)
    ensures
        r@ == trimmed(chars@),
{
    let ghost orig = chars@;
    let mut v = chars;
    while v.len() > 0 && (v[0] == ' ' || v[0] == '\t')
        invariant
            trimmed(v@) == trimmed(orig),
        decreases v@.len(),
    {
        let ghost before = v@;
        v.remove(0);
        proof {
            assert(v@ =~= before.skip(1));
        }
    }
    while v.len() > 0 && (v[v.len() - 1] == ' ' || v[v.len() - 1] == '\t')
        invariant
            trimmed(v@) == trimmed(orig),
            v@.len() > 0 ==> !blank_char(v@[0]),
        decreases v@.len(),
    {
        v.pop();
    }
    proof {
        if v@.len() > 0 {
            assert(trimmed(v@) == v@);
        }
    }
    v
}

/// Push the piece just read, trimmed, unless nothing is left of it.
fn push_address(out: &mut Vec<String>, piece: Vec<char>)
    ensures
        final(out)@.map_values(|s: String| s@) == old(out)@.map_values(|s: String| s@) + (
        if trimmed(piece@).len() > 0 {
            seq![trimmed(piece@)]
        } else {
            Seq::<Seq<char>>::empty()
        }),
{
    let ghost oldmap = out@.map_values(|s: String| s@);
    let t = trim_chars(piece);
    if t.len() > 0 {
        let s = chars_to_string(&t);
        out.push(s);
        proof {
            assert(out@.map_values(|s: String| s@) =~= oldmap + seq![trimmed(piece@)]);
        }
    } else {
        proof {
            assert(oldmap + Seq::<Seq<char>>::empty() =~= oldmap);
        }
    }
}

/// Split a comma-separated line into the addresses it names: blanks
/// around each address are dropped, and so are empty pieces.
pub fn split_addresses(line: &str) -> (r: Vec<String>)
    ensures
        r@.map_values(|s: String| s@) == addresses_of(line@),
{
    let len = line.unicode_len();
    let mut out: Vec<String> = Vec::new();
    let mut cur: Vec<char> = Vec::new();
    let mut i: usize = 0;
    proof {
        assert(line@.skip(0) =~= line@);
        assert(out@.map_values(|s: String| s@) =~= Seq::<Seq<char>>::empty());
        assert(Seq::<Seq<char>>::empty() + addresses_acc(line@, cur@) =~= addresses_acc(
            line@,
            cur@,
        ));
        assert(cur@ =~= Seq::<char>::empty());
    }
    while i < len
        invariant
            i <= len,
            len == line@.len(),
            addresses_of(line@) == out@.map_values(|s: String| s@) + addresses_acc(
                line@.skip(i as int),
                cur@,
            ),
        decreases len - i,
    {
        let ghost tail = line@.skip(i as int);
        let ghost outmap = out@.map_values(|s: String| s@);
        let ghost curview = cur@;
        proof {
            assert(tail[0] == line@[i as int]);
            assert(tail.skip(1) =~= line@.skip(i as int + 1));
        }
        let c = line.get_char(i);
        if c == ',' {
            let piece = cur;
            cur = Vec::new();
            push_address(&mut out, piece);
            proof {
                let opt = if trimmed(curview).len() > 0 {
                    seq![trimmed(curview)]
                } else {
                    Seq::<Seq<char>>::empty()
                };
                assert(addresses_acc(tail, curview) == opt + addresses_acc(
                    tail.skip(1),
                    Seq::empty(),
                ));
                assert(outmap + (opt + addresses_acc(tail.skip(1), Seq::empty())) =~= (outmap
                    + opt) + addresses_acc(tail.skip(1), Seq::empty()));
                assert(cur@ =~= Seq::<char>::empty());
            }
        } else {
            cur.push(c);
            proof {
                assert(cur@ =~= curview.push(c));
                assert(addresses_acc(tail, curview) == addresses_acc(tail.skip(1), cur@));
            }
        }
        i = i + 1;
    }
    let ghost outmap = out@.map_values(|s: String| s@);
    let ghost curview = cur@;
    proof {
        assert(line@.skip(len as int) =~= Seq::<char>::empty());
    }
    push_address(&mut out, cur);
    proof {
        let opt = if trimmed(curview).len() > 0 {
            seq![trimmed(curview)]
        } else {
            Seq::<Seq<char>>::empty()
        };
        assert(addresses_acc(Seq::<char>::empty(), curview) == opt);
    }
    out
}

} // verus!
