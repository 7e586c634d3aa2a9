//! Transactions: immutable records of one completed ledger mutation, and
//! their rendering as one human-readable line each.

use vstd::prelude::*;
use vstd::string::StringExecFns;

use crate::digits::{dec_digits, u64_to_string};
use crate::money::{format_money, money_string};

verus! {

/// An identity rendered for display: its decimal numeral.
pub open spec fn tag_chars(id: u64) -> Seq<char> {
    dec_digits(id as nat)
}

/// Renders an identity for display.
pub fn tag_string(id: u64) -> (s: String)
    ensures
        s@ == tag_chars(id),
{
    u64_to_string(id)
}

/// The log line of a debt: who owes how much to whom, and what for.
pub open spec fn owe_line(
    initiator: u64,
    amount: int,
    recipient: u64,
    description: Seq<char>,
) -> Seq<char> {
    tag_chars(initiator) + " owes "@ + money_string(amount) + " to "@ + tag_chars(recipient)
        + " for \""@ + description + "\""@
}

/// The recipient list of a bill line: one space-prefixed identity per
/// recipient, in order.
pub open spec fn bill_recipients_chars(rs: Seq<u64>) -> Seq<char>
    decreases rs.len(),
{
    if rs.len() == 0 {
        Seq::empty()
    } else {
        bill_recipients_chars(rs.drop_last()) + seq![' '] + tag_chars(rs.last())
    }
}

/// The log line of a bill: who billed how much to whom, and what for.
pub open spec fn bill_line(
    initiator: u64,
    amount: int,
    recipients: Seq<u64>,
    description: Seq<char>,
) -> Seq<char> {
    tag_chars(initiator) + " billed "@ + money_string(amount) + " to"@
        + bill_recipients_chars(recipients) + " for \""@ + description + "\""@
}

/// A completed debt: `initiator` owes `amount` cents to `recipient`.
pub struct OweTransaction {
    pub initiator: u64,
    pub amount: i64,
    pub recipient: u64,
    pub description: String,
}

impl OweTransaction {
    /// The transaction's log line.
    pub open spec fn line(&self) -> Seq<char> {
        owe_line(self.initiator, self.amount as int, self.recipient, self.description@)
    }

    /// Renders the transaction's log line.
    pub fn render(&self) -> (s: String)
        ensures
            s@ == self.line(),
    {
        let mut s = tag_string(self.initiator);
        s.append(" owes ");
        let m = format_money(self.amount);
        s.append(m.as_str());
        s.append(" to ");
        let r = tag_string(self.recipient);
        s.append(r.as_str());
        s.append(" for \"");
        s.append(self.description.as_str());
        s.append("\"");
        proof {
            assert(s@ =~= self.line());
        }
        s
    }
}

/// A completed bill: each of `recipients` owes the full `amount` cents to
/// `initiator`.
pub struct BillTransaction {
    pub initiator: u64,
    pub amount: i64,
    pub recipients: Vec<u64>,
    pub description: String,
}

impl BillTransaction {
    /// The transaction's log line.
    pub open spec fn line(&self) -> Seq<char> {
        bill_line(self.initiator, self.amount as int, self.recipients@, self.description@)
    }

    /// Renders the transaction's log line.
    pub fn render(&self) -> (s: String)
        ensures
            s@ == self.line(),
    {
        let mut s = tag_string(self.initiator);
        s.append(" billed ");
        let m = format_money(self.amount);
        s.append(m.as_str());
        s.append(" to");
        let ghost rs = self.recipients@;
        let n = self.recipients.len();
        let mut i: usize = 0;
        proof {
            assert(rs.take(0) =~= Seq::<u64>::empty());
        }
        let ghost mid = s@;
        while i < n
            invariant
                i <= n,
                n == rs.len(),
                rs == self.recipients@,
                s@ == mid + bill_recipients_chars(rs.take(i as int)),
            decreases n - i,
        {
            s.append(" ");
            let t = tag_string(self.recipients[i]);
            s.append(t.as_str());
            proof {
                reveal_strlit(" ");
                assert(rs.take(i + 1).drop_last() =~= rs.take(i as int));
                assert(rs.take(i + 1).last() == rs[i as int]);
                assert(s@ =~= mid + bill_recipients_chars(rs.take(i + 1)));
            }
            i = i + 1;
        }
        proof {
            assert(rs.take(n as int) =~= rs);
        }
        s.append(" for \"");
        s.append(self.description.as_str());
        s.append("\"");
        proof {
            assert(s@ =~= self.line());
        }
        s
    }
}

/// One completed ledger mutation of either kind.
pub enum TransactionType {
    Owe(OweTransaction),
    Bill(BillTransaction),
}

impl TransactionType {
    /// The transaction's log line.
    pub open spec fn line(&self) -> Seq<char> {
        match self {
            TransactionType::Owe(t) => t.line(),
            TransactionType::Bill(t) => t.line(),
        }
    }

    /// Renders the transaction's log line.
    pub fn render(&self) -> (s: String)
        ensures
            s@ == self.line(),
    {
        match self {
            TransactionType::Owe(t) => t.render(),
            TransactionType::Bill(t) => t.render(),
        }
    }
}

/// What the command processor hands back: the display response and, for a
/// mutation, the transaction record.
pub struct CommandResult {
    pub response: String,
    pub transaction: Option<TransactionType>,
}

} // verus!
