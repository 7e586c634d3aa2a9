//! The command processor: validates a command's fields, drives the ledger
//! and the transaction log as one logical operation, and builds the display
//! response.  If any field is missing or fails validation, no mutation
//! occurs.

use vstd::prelude::*;
use vstd::string::StringExecFns;

use crate::digits::{dec_digits, u64_to_string};
use crate::ledger::{
    apply_debt_spec, apply_split_spec, debt_fits, split_fits, Accounts, LedgerMap,
};
use crate::logging::Log;
use crate::money::{fits_i64, format_money, money_spec_parse, money_string, parse_money};
use crate::transaction::{
    bill_line, owe_line, tag_chars, tag_string, BillTransaction, CommandResult, OweTransaction,
    TransactionType,
};

verus! {

/// A required command field was absent or failed validation.
#[derive(Debug, Clone)]
pub struct HandleCommandError;

impl HandleCommandError {
    /// Human-readable description of the error.
    pub fn message(&self) -> (s: &'static str)
        ensures
            s@ == "could not get content"@,
    {
        "could not get content"
    }
}

/// The shared ledger instance could not be obtained.
#[derive(Debug, Clone)]
pub struct GetLockError;

impl GetLockError {
    /// Human-readable description of the error.
    pub fn message(&self) -> (s: &'static str)
        ensures
            s@ == "could not get lock"@,
    {
        "could not get lock"
    }
}

/// The amount field is present, parses, and fits integer cents.
pub open spec fn amount_ok(amount: Option<&str>) -> bool {
    &&& amount is Some
    &&& money_spec_parse(amount->Some_0@) is Some
    &&& fits_i64(money_spec_parse(amount->Some_0@)->Some_0)
}

/// The cents denoted by a valid amount field.
pub open spec fn amount_cents(amount: Option<&str>) -> int {
    money_spec_parse(amount->Some_0@)->Some_0
}

/// A debt command is accepted: all fields present, the amount parses, and
/// the updated balances stay representable.
pub open spec fn owe_valid(
    m: LedgerMap,
    initiator: u64,
    amount: Option<&str>,
    description: Option<&str>,
    recipient: Option<u64>,
) -> bool {
    &&& amount_ok(amount)
    &&& description is Some
    &&& recipient is Some
    &&& debt_fits(m, recipient->Some_0, initiator, amount_cents(amount))
}

/// A bill command is accepted: amount and description present, the amount
/// parses, and every intermediate balance stays representable.
pub open spec fn bill_valid(
    m: LedgerMap,
    initiator: u64,
    amount: Option<&str>,
    description: Option<&str>,
    recipients: Seq<u64>,
) -> bool {
    &&& amount_ok(amount)
    &&& description is Some
    &&& split_fits(m, initiator, amount_cents(amount), recipients)
}

/// The response to an accepted debt command.
pub open spec fn owe_response_chars(
    initiator: u64,
    amount: int,
    recipient: u64,
    description: Seq<char>,
) -> Seq<char> {
    tag_chars(initiator) + " owes "@ + money_string(amount) + " to "@ + tag_chars(recipient)
        + " for "@ + description
}

/// The response to an accepted bill command.
pub open spec fn bill_response_chars(
    initiator: u64,
    amount: int,
    n_recipients: nat,
    description: Seq<char>,
) -> Seq<char> {
    tag_chars(initiator) + " billed "@ + money_string(amount) + " to "@ + dec_digits(n_recipients)
        + " users for "@ + description
}

/// Registers a debt: `initiator` owes the given amount to `recipient`.
/// On success the ledger is updated, the transaction is logged, and the
/// response and transaction record are returned; on any validation failure
/// nothing changes.
pub fn owe_handler(
    accounts: &mut Accounts,
    log: &mut Log,
    initiator: u64,
    amount: Option<&str>,
    description: Option<&str>,
    recipient: Option<u64>,
) -> (r: Result<CommandResult, HandleCommandError>)
    requires
        old(accounts).wf(),
    ensures
        final(accounts).wf(),
        r is Ok <==> owe_valid(old(accounts)@, initiator, amount, description, recipient),
        r is Err ==> *final(accounts) == *old(accounts) && *final(log) == *old(log),
        r is Ok ==> ({
            let amt = amount_cents(amount);
            let rec = recipient->Some_0;
            let desc = description->Some_0@;
            &&& final(accounts)@ == apply_debt_spec(old(accounts)@, rec, initiator, amt)
            &&& r->Ok_0.response@ == owe_response_chars(initiator, amt, rec, desc)
            &&& (r->Ok_0.transaction matches Some(TransactionType::Owe(t)) && t.initiator
                == initiator && t.amount as int == amt && t.recipient == rec && t.description@
                == desc)
            &&& final(log)@ == old(log)@.push(owe_line(initiator, amt, rec, desc))
        }),
{
    let amount_s = match amount {
        Some(a) => a,
        None => {
            return Err(HandleCommandError);
        },
    };
    let desc = match description {
        Some(d) => d,
        None => {
            return Err(HandleCommandError);
        },
    };
    let rec = match recipient {
        Some(u) => u,
        None => {
            return Err(HandleCommandError);
        },
    };
    let amt = match parse_money(amount_s) {
        Ok(v) => v,
        Err(_) => {
            return Err(HandleCommandError);
        },
    };
    if !accounts.debt_fits_check(rec, initiator, amt) {
        return Err(HandleCommandError);
    }
    accounts.apply_debt(rec, initiator, amt);
    let mut response = tag_string(initiator);
    response.append(" owes ");
    let m = format_money(amt);
    response.append(m.as_str());
    response.append(" to ");
    let rtag = tag_string(rec);
    response.append(rtag.as_str());
    response.append(" for ");
    response.append(desc);
    proof {
        assert(response@ =~= owe_response_chars(initiator, amt as int, rec, desc@));
    }
    let transaction = TransactionType::Owe(
        OweTransaction {
            initiator,
            amount: amt,
            recipient: rec,
            description: desc.to_owned(),
        },
    );
    log.append(&transaction);
    Ok(CommandResult { response, transaction: Some(transaction) })
}

/// Registers a bill: every listed recipient owes the full amount to
/// `initiator`; an empty list changes no balance but is still recorded.
/// On success the ledger is updated, the transaction is logged, and the
/// response and transaction record are returned; on any validation failure
/// nothing changes.
pub fn bill_handler(
    accounts: &mut Accounts,
    log: &mut Log,
    initiator: u64,
    amount: Option<&str>,
    description: Option<&str>,
    recipients: &Vec<u64>,
) -> (r: Result<CommandResult, HandleCommandError>)
    requires
        old(accounts).wf(),
    ensures
        final(accounts).wf(),
        r is Ok <==> bill_valid(old(accounts)@, initiator, amount, description, recipients@),
        r is Err ==> *final(accounts) == *old(accounts) && *final(log) == *old(log),
        r is Ok ==> ({
            let amt = amount_cents(amount);
            let desc = description->Some_0@;
            &&& final(accounts)@ == apply_split_spec(old(accounts)@, initiator, amt, recipients@)
            &&& r->Ok_0.response@ == bill_response_chars(initiator, amt, recipients@.len(), desc)
            &&& (r->Ok_0.transaction matches Some(TransactionType::Bill(t)) && t.initiator
                == initiator && t.amount as int == amt && t.recipients@ == recipients@
                && t.description@ == desc)
            &&& final(log)@ == old(log)@.push(bill_line(initiator, amt, recipients@, desc))
        }),
{
    let amount_s = match amount {
        Some(a) => a,
        None => {
            return Err(HandleCommandError);
        },
    };
    let desc = match description {
        Some(d) => d,
        None => {
            return Err(HandleCommandError);
        },
    };
    let amt = match parse_money(amount_s) {
        Ok(v) => v,
        Err(_) => {
            return Err(HandleCommandError);
        },
    };
    if !accounts.split_fits_check(initiator, amt, recipients) {
        return Err(HandleCommandError);
    }
    accounts.apply_split(initiator, amt, recipients);
    let mut recipients_copy: Vec<u64> = Vec::new();
    let n = recipients.len();
    let mut i: usize = 0;
    while i < n
        invariant
            i <= n,
            n == recipients@.len(),
            recipients_copy@ =~= recipients@.take(i as int),
        decreases n - i,
    {
        recipients_copy.push(recipients[i]);
        i = i + 1;
    }
    proof {
        assert(recipients_copy@ =~= recipients@);
    }
    let mut response = tag_string(initiator);
    response.append(" billed ");
    let m = format_money(amt);
    response.append(m.as_str());
    response.append(" to ");
    let count = u64_to_string(n as u64);
    response.append(count.as_str());
    response.append(" users for ");
    response.append(desc);
    proof {
        assert(response@ =~= bill_response_chars(
            initiator,
            amt as int,
            recipients@.len(),
            desc@,
        ));
    }
    let transaction = TransactionType::Bill(
        BillTransaction {
            initiator,
            amount: amt,
            recipients: recipients_copy,
            description: desc.to_owned(),
        },
    );
    log.append(&transaction);
    Ok(CommandResult { response, transaction: Some(transaction) })
}

/// A run of `n` space characters.
pub open spec fn spaces(n: nat) -> Seq<char>
    decreases n,
{
    if n == 0 {
        Seq::empty()
    } else {
        spaces((n - 1) as nat).push(' ')
    }
}

/// Left-aligns `s` in a field of width `w`.
pub open spec fn pad_right(s: Seq<char>, w: nat) -> Seq<char> {
    if s.len() >= w {
        s
    } else {
        s + spaces((w - s.len()) as nat)
    }
}

/// Right-aligns `s` in a field of width `w`.
pub open spec fn pad_left(s: Seq<char>, w: nat) -> Seq<char> {
    if s.len() >= w {
        s
    } else {
        spaces((w - s.len()) as nat) + s
    }
}

/// One line of a balance response: the counterparty and the balance in
/// fixed-width columns.
pub open spec fn balance_line_chars(id: u64, v: i64) -> Seq<char> {
    "`"@ + pad_right(tag_chars(id), 32) + pad_left(money_string(v as int), 16) + "`\n"@
}

/// The balance lines of a list of stored pairs, in order.
pub open spec fn balance_lines_chars(pairs: Seq<(u64, i64)>) -> Seq<char>
    decreases pairs.len(),
{
    if pairs.len() == 0 {
        Seq::empty()
    } else {
        balance_lines_chars(pairs.drop_last()) + balance_line_chars(
            pairs.last().0,
            pairs.last().1,
        )
    }
}

/// The whole balance response: a heading, then one line per stored
/// counterparty balance.
pub open spec fn balance_response_chars(who: u64, pairs: Seq<(u64, i64)>) -> Seq<char> {
    tag_chars(who) + "'s balance:\n"@ + balance_lines_chars(pairs)
}

/// Appends `count` spaces.
fn push_spaces(s: &mut String, count: usize)
    ensures
        final(s)@ == old(s)@ + spaces(count as nat),
{
    let ghost base = s@;
    let mut k: usize = 0;
    proof {
        assert(base + spaces(0) =~= base);
    }
    while k < count
        invariant
            k <= count,
            s@ == base + spaces(k as nat),
        decreases count - k,
    {
        s.append(" ");
        proof {
            reveal_strlit(" ");
            assert(s@ =~= base + spaces((k + 1) as nat));
        }
        k = k + 1;
    }
}

/// Appends `t` left-aligned in a field of width `w`.
fn append_pad_right(s: &mut String, t: &str, w: usize)
    ensures
        final(s)@ == old(s)@ + pad_right(t@, w as nat),
{
    let len = t.unicode_len();
    s.append(t);
    if len < w {
        push_spaces(s, w - len);
        proof {
            assert(old(s)@ + t@ + spaces((w - len) as nat) =~= old(s)@ + pad_right(
                t@,
                w as nat,
            ));
        }
    }
}

/// Appends `t` right-aligned in a field of width `w`.
fn append_pad_left(s: &mut String, t: &str, w: usize)
    ensures
        final(s)@ == old(s)@ + pad_left(t@, w as nat),
{
    let len = t.unicode_len();
    if len < w {
        push_spaces(s, w - len);
    }
    s.append(t);
    proof {
        assert(final(s)@ =~= old(s)@ + pad_left(t@, w as nat));
    }
}

/// Answers a balance query: a heading for `who`, then one line per stored
/// counterparty balance, in stored order.  Queries never mutate and always
/// succeed.
pub fn balance_handler(accounts: &Accounts, who: u64) -> (r: Result<
    CommandResult,
    HandleCommandError,
>)
    requires
        accounts.wf(),
    ensures
        r is Ok,
        r->Ok_0.response@ == balance_response_chars(who, accounts.balances_of(who)),
        r->Ok_0.transaction is None,
{
    let ghost pairs = accounts.balances_of(who);
    let mut response = tag_string(who);
    response.append("'s balance:\n");
    let bm = accounts.get_balances(who);
    let n = bm.len();
    let mut i: usize = 0;
    let ghost mid = response@;
    proof {
        assert(pairs.take(0) =~= Seq::<(u64, i64)>::empty());
        assert(mid + balance_lines_chars(pairs.take(0)) =~= mid);
    }
    while i < n
        invariant
            i <= n,
            n == pairs.len(),
            pairs == bm.pairs(),
            response@ == mid + balance_lines_chars(pairs.take(i as int)),
        decreases n - i,
    {
        let p = bm.pair_at(i);
        response.append("`");
        let t = tag_string(p.0);
        append_pad_right(&mut response, t.as_str(), 32);
        let m = format_money(p.1);
        append_pad_left(&mut response, m.as_str(), 16);
        response.append("`\n");
        proof {
            assert(pairs.take(i + 1).drop_last() =~= pairs.take(i as int));
            assert(pairs.take(i + 1).last() == pairs[i as int]);
            assert(response@ =~= mid + balance_lines_chars(pairs.take(i + 1)));
        }
        i = i + 1;
    }
    proof {
        assert(pairs.take(n as int) =~= pairs);
        assert(response@ =~= balance_response_chars(who, pairs));
    }
    Ok(CommandResult { response, transaction: None })
}

} // verus!
