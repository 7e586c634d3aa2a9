//! The snapshot codec: the full ledger state rendered as one nested-object
//! text (identity keys stringified, balances as signed integers) and parsed
//! back.  Parsing a rendered snapshot yields exactly the rendered records:
//! the round-trip law of the durability layer.

use vstd::prelude::*;
use vstd::string::StringExecFns;

use crate::digits::{
    dec_digits, digits_val, is_digit, lemma_dec_digits, parse_digits_u64, scan_digits_end,
    u64_to_string,
};
use crate::ledger::{distinct_keys, records_distinct, Accounts, BalanceMap};

verus! {

/// One ledger record as persisted: an identity and its balance pairs.
pub type SnapshotRecord = (u64, Seq<(u64, i64)>);

// ---------------------------------------------------------------------------
// Rendering
// ---------------------------------------------------------------------------

/// A balance as text: an optional minus sign and a decimal numeral.
pub open spec fn render_i64(v: int) -> Seq<char> {
    if v < 0 {
        seq!['-'] + dec_digits((-v) as nat)
    } else {
        dec_digits(v as nat)
    }
}

/// An identity as text: its decimal numeral in double quotes.
pub open spec fn render_key(k: u64) -> Seq<char> {
    seq!['"'] + dec_digits(k as nat) + seq!['"']
}

/// One balance pair as text: quoted key, colon, balance.
pub open spec fn render_pair(p: (u64, i64)) -> Seq<char> {
    render_key(p.0) + seq![':'] + render_i64(p.1 as int)
}

/// A comma-separated list of balance pairs.
pub open spec fn render_pairs(s: Seq<(u64, i64)>) -> Seq<char>
    decreases s.len(),
{
    if s.len() == 0 {
        Seq::empty()
    } else if s.len() == 1 {
        render_pair(s[0])
    } else {
        render_pairs(s.drop_last()) + seq![','] + render_pair(s.last())
    }
}

/// The braces-wrapped object of one identity's balances.
pub open spec fn render_inner(s: Seq<(u64, i64)>) -> Seq<char> {
    seq!['{'] + render_pairs(s) + seq!['}']
}

/// One record as text: quoted identity, colon, balances object.
pub open spec fn render_record(r: SnapshotRecord) -> Seq<char> {
    render_key(r.0) + seq![':'] + render_inner(r.1)
}

/// A comma-separated list of records.
pub open spec fn render_records(s: Seq<SnapshotRecord>) -> Seq<char>
    decreases s.len(),
{
    if s.len() == 0 {
        Seq::empty()
    } else if s.len() == 1 {
        render_record(s[0])
    } else {
        render_records(s.drop_last()) + seq![','] + render_record(s.last())
    }
}

/// The whole snapshot: a braces-wrapped object of records.
pub open spec fn render_snapshot(s: Seq<SnapshotRecord>) -> Seq<char> {
    seq!['{'] + render_records(s) + seq!['}']
}

// ---------------------------------------------------------------------------
// Parsing
// ---------------------------------------------------------------------------

/// The length of the digit run at the head of `s`.
pub open spec fn digit_run_len(s: Seq<char>) -> nat
    decreases s.len(),
{
    if s.len() == 0 || !is_digit(s[0]) {
        0
    } else {
        1 + digit_run_len(s.drop_first())
    }
}

/// Reads an unsigned numeral: its value and the characters consumed.
/// `None` when there is no digit or the value exceeds `u64`.
pub open spec fn parse_u64_spec(s: Seq<char>) -> Option<(nat, nat)> {
    let k = digit_run_len(s);
    if k == 0 {
        None
    } else {
        let v = digits_val(s.take(k as int));
        if v <= u64::MAX {
            Some((v, k))
        } else {
            None
        }
    }
}

/// Reads a signed numeral: its value and the characters consumed.
/// `None` when there is no digit or the value does not fit an `i64`.
pub open spec fn parse_i64_spec(s: Seq<char>) -> Option<(int, nat)> {
    if s.len() > 0 && s[0] == '-' {
        let k = digit_run_len(s.skip(1));
        if k == 0 {
            None
        } else {
            let v = digits_val(s.skip(1).take(k as int));
            if v <= 0x8000_0000_0000_0000 {
                Some((-(v as int), (k + 1) as nat))
            } else {
                None
            }
        }
    } else {
        let k = digit_run_len(s);
        if k == 0 {
            None
        } else {
            let v = digits_val(s.take(k as int));
            if v <= i64::MAX {
                Some((v as int, k))
            } else {
                None
            }
        }
    }
}

/// Reads a quoted identity key.
pub open spec fn parse_key_spec(s: Seq<char>) -> Option<(u64, nat)> {
    if s.len() >= 1 && s[0] == '"' {
        match parse_u64_spec(s.skip(1)) {
            Some((v, k)) => if 1 + k < s.len() && s[1 + k as int] == '"' {
                Some((v as u64, (k + 2) as nat))
            } else {
                None
            },
            None => None,
        }
    } else {
        None
    }
}

/// Reads one balance pair: quoted key, colon, balance.
pub open spec fn parse_pair_spec(s: Seq<char>) -> Option<((u64, i64), nat)> {
    match parse_key_spec(s) {
        Some((key, k1)) => {
            if k1 < s.len() && s[k1 as int] == ':' {
                match parse_i64_spec(s.skip(k1 + 1 as int)) {
                    Some((v, k2)) => Some(((key, v as i64), (k1 + 1 + k2) as nat)),
                    None => None,
                }
            } else {
                None
            }
        },
        None => None,
    }
}

/// Reads a nonempty pair list up to and including its closing brace.
pub open spec fn parse_pairs_spec(s: Seq<char>) -> Option<(Seq<(u64, i64)>, nat)>
    decreases s.len(),
{
    match parse_pair_spec(s) {
        Some((p, k)) => {
            if k < s.len() {
                if s[k as int] == ',' {
                    match parse_pairs_spec(s.skip(k + 1 as int)) {
                        Some((rest, k2)) => Some((seq![p] + rest, (k + 1 + k2) as nat)),
                        None => None,
                    }
                } else if s[k as int] == '}' {
                    Some((seq![p], (k + 1) as nat))
                } else {
                    None
                }
            } else {
                None
            }
        },
        None => None,
    }
}

/// Reads one identity's balances object.
pub open spec fn parse_inner_spec(s: Seq<char>) -> Option<(Seq<(u64, i64)>, nat)> {
    if s.len() >= 2 && s[0] == '{' {
        if s[1] == '}' {
            Some((Seq::empty(), 2))
        } else {
            match parse_pairs_spec(s.skip(1)) {
                Some((ps, k)) => Some((ps, (k + 1) as nat)),
                None => None,
            }
        }
    } else {
        None
    }
}

/// Reads one record: quoted identity, colon, balances object.
pub open spec fn parse_record_spec(s: Seq<char>) -> Option<(SnapshotRecord, nat)> {
    match parse_key_spec(s) {
        Some((key, k1)) => {
            if k1 < s.len() && s[k1 as int] == ':' {
                match parse_inner_spec(s.skip(k1 + 1 as int)) {
                    Some((ps, k2)) => Some(((key, ps), (k1 + 1 + k2) as nat)),
                    None => None,
                }
            } else {
                None
            }
        },
        None => None,
    }
}

/// Reads a nonempty record list up to and including its closing brace.
pub open spec fn parse_records_spec(s: Seq<char>) -> Option<(Seq<SnapshotRecord>, nat)>
    decreases s.len(),
{
    match parse_record_spec(s) {
        Some((r, k)) => {
            if k < s.len() {
                if s[k as int] == ',' {
                    match parse_records_spec(s.skip(k + 1 as int)) {
                        Some((rest, k2)) => Some((seq![r] + rest, (k + 1 + k2) as nat)),
                        None => None,
                    }
                } else if s[k as int] == '}' {
                    Some((seq![r], (k + 1) as nat))
                } else {
                    None
                }
            } else {
                None
            }
        },
        None => None,
    }
}

/// Reads a whole snapshot text; the entire string must be consumed.
pub open spec fn parse_snapshot_spec(s: Seq<char>) -> Option<Seq<SnapshotRecord>> {
    if s.len() >= 2 && s[0] == '{' {
        if s.len() == 2 && s[1] == '}' {
            Some(Seq::empty())
        } else {
            match parse_records_spec(s.skip(1)) {
                Some((rs, k)) => if 1 + k == s.len() {
                    Some(rs)
                } else {
                    None
                },
                None => None,
            }
        }
    } else {
        None
    }
}

// ---------------------------------------------------------------------------
// The round-trip law: parsing a rendered snapshot yields the records back.
// ---------------------------------------------------------------------------

/// A string whose first `k` characters are digits and whose `k`-th
/// character (if any) is not has a digit run of exactly `k`.
pub proof fn lemma_digit_run_exact(s: Seq<char>, k: int)
    requires
        0 <= k <= s.len(),
        forall|m: int| 0 <= m < k ==> is_digit(#[trigger] s[m]),
        k == s.len() || !is_digit(s[k]),
    ensures
        digit_run_len(s) == k,
    decreases k,
{
    if k == 0 {
    } else {
        assert(is_digit(s[0]));
        let t = s.drop_first();
        assert forall|m: int| 0 <= m < k - 1 implies is_digit(#[trigger] t[m]) by {
            assert(t[m] == s[m + 1]);
        }
        if k - 1 < t.len() {
            assert(t[k - 1] == s[k]);
        }
        lemma_digit_run_exact(t, k - 1);
    }
}

/// Parsing the numeral of `v` followed by a non-digit yields `v`.
proof fn lemma_parse_u64_rt(v: u64, rest: Seq<char>)
    requires
        rest.len() == 0 || !is_digit(rest[0]),
    ensures
        parse_u64_spec(dec_digits(v as nat) + rest) == Some(
            ((v as nat), dec_digits(v as nat).len()),
        ),
{
    let d = dec_digits(v as nat);
    lemma_dec_digits(v as nat);
    let s = d + rest;
    assert forall|m: int| 0 <= m < d.len() implies is_digit(#[trigger] s[m]) by {
        assert(s[m] == d[m]);
    }
    if rest.len() > 0 {
        assert(s[d.len() as int] == rest[0]);
    }
    lemma_digit_run_exact(s, d.len() as int);
    assert(s.take(d.len() as int) =~= d);
}

/// Parsing the rendering of `v` followed by a non-digit yields `v`.
proof fn lemma_parse_i64_rt(v: i64, rest: Seq<char>)
    requires
        rest.len() == 0 || !is_digit(rest[0]),
    ensures
        parse_i64_spec(render_i64(v as int) + rest) == Some(
            (v as int, render_i64(v as int).len()),
        ),
{
    let r = render_i64(v as int);
    let s = r + rest;
    if v < 0 {
        let mag = (-(v as int)) as nat;
        let d = dec_digits(mag);
        lemma_dec_digits(mag);
        assert(s[0] == '-');
        assert(s.skip(1) =~= d + rest);
        assert forall|m: int| 0 <= m < d.len() implies is_digit(#[trigger] s.skip(1)[m]) by {
            assert(s.skip(1)[m] == d[m]);
        }
        if rest.len() > 0 {
            assert(s.skip(1)[d.len() as int] == rest[0]);
        }
        lemma_digit_run_exact(s.skip(1), d.len() as int);
        assert(s.skip(1).take(d.len() as int) =~= d);
        assert(mag <= 0x8000_0000_0000_0000);
    } else {
        let d = dec_digits(v as nat);
        lemma_dec_digits(v as nat);
        assert(s[0] == d[0]);
        assert(is_digit(d[0]));
        assert(s[0] != '-');
        lemma_parse_u64_rt(v as u64, rest);
        assert(d + rest == s);
    }
}

/// Parsing a rendered key yields the key, whatever follows.
proof fn lemma_parse_key_rt(k: u64, rest: Seq<char>)
    ensures
        parse_key_spec(render_key(k) + rest) == Some((k, render_key(k).len())),
{
    let d = dec_digits(k as nat);
    lemma_dec_digits(k as nat);
    let s = render_key(k) + rest;
    assert(s[0] == '"');
    assert(s.skip(1) =~= d + (seq!['"'] + rest));
    lemma_parse_u64_rt(k, seq!['"'] + rest);
    assert(s[1 + d.len() as int] == '"');
    assert(1 + d.len() < s.len());
}

/// Parsing a rendered pair followed by a non-digit yields the pair.
proof fn lemma_parse_pair_rt(p: (u64, i64), rest: Seq<char>)
    requires
        rest.len() > 0,
        !is_digit(rest[0]),
    ensures
        parse_pair_spec(render_pair(p) + rest) == Some((p, render_pair(p).len())),
{
    let s = render_pair(p) + rest;
    let kl = render_key(p.0).len() as int;
    assert(s =~= render_key(p.0) + (seq![':'] + render_i64(p.1 as int) + rest));
    lemma_parse_key_rt(p.0, seq![':'] + render_i64(p.1 as int) + rest);
    assert(s[kl] == ':');
    assert(s.skip(kl + 1) =~= render_i64(p.1 as int) + rest);
    lemma_parse_i64_rt(p.1, rest);
}

/// A pair list of two or more decomposes at the front.
proof fn lemma_render_pairs_front(s: Seq<(u64, i64)>)
    requires
        s.len() >= 2,
    ensures
        render_pairs(s) == render_pair(s[0]) + seq![','] + render_pairs(s.drop_first()),
    decreases s.len(),
{
    if s.len() == 2 {
        assert(s.drop_last().len() == 1);
        assert(s.drop_last()[0] == s[0]);
        assert(s.drop_first().len() == 1);
        assert(s.drop_first()[0] == s[1]);
        assert(render_pairs(s) =~= render_pair(s[0]) + seq![','] + render_pairs(s.drop_first()));
    } else {
        lemma_render_pairs_front(s.drop_last());
        assert(s.drop_last()[0] == s[0]);
        assert(s.drop_last().drop_first() =~= s.drop_first().drop_last());
        assert(s.drop_first().last() == s.last());
        assert(s.drop_first().len() >= 2);
        assert(render_pairs(s) == render_pairs(s.drop_last()) + seq![','] + render_pair(s.last()));
        assert(render_pairs(s.drop_last()) == render_pair(s[0]) + seq![','] + render_pairs(
            s.drop_last().drop_first(),
        ));
        assert(render_pairs(s.drop_first()) == render_pairs(s.drop_first().drop_last())
            + seq![','] + render_pair(s.drop_first().last()));
        assert(render_pairs(s.drop_last().drop_first()) == render_pairs(
            s.drop_first().drop_last(),
        ));
        assert(render_pairs(s) =~= render_pair(s[0]) + seq![','] + render_pairs(s.drop_first()));
    }
}

/// Parsing a rendered pair list up to its closing brace yields the list.
#[verifier::rlimit(100)]
proof fn lemma_parse_pairs_rt(ps: Seq<(u64, i64)>, rest: Seq<char>)
    requires
        ps.len() >= 1,
    ensures
        parse_pairs_spec(render_pairs(ps) + seq!['}'] + rest) == Some(
            (ps, render_pairs(ps).len() + 1),
        ),
    decreases ps.len(),
{
    let s = render_pairs(ps) + seq!['}'] + rest;
    if ps.len() == 1 {
        assert(s =~= render_pair(ps[0]) + (seq!['}'] + rest));
        lemma_parse_pair_rt(ps[0], seq!['}'] + rest);
        let k = render_pair(ps[0]).len() as int;
        assert(s[k] == '}');
        assert(seq![ps[0]] =~= ps);
    } else {
        lemma_render_pairs_front(ps);
        let tail = ps.drop_first();
        assert(s =~= render_pair(ps[0]) + (seq![','] + (render_pairs(tail) + seq!['}'] + rest)));
        lemma_parse_pair_rt(ps[0], seq![','] + (render_pairs(tail) + seq!['}'] + rest));
        let k = render_pair(ps[0]).len() as int;
        assert(s[k] == ',');
        assert(s.skip(k + 1 as int) =~= render_pairs(tail) + seq!['}'] + rest);
        lemma_parse_pairs_rt(tail, rest);
        assert(seq![ps[0]] + tail =~= ps);
    }
}

/// Parsing a rendered balances object yields its pairs, whatever follows.
proof fn lemma_parse_inner_rt(ps: Seq<(u64, i64)>, rest: Seq<char>)
    ensures
        parse_inner_spec(render_inner(ps) + rest) == Some((ps, render_inner(ps).len())),
{
    let s = render_inner(ps) + rest;
    assert(s[0] == '{');
    if ps.len() == 0 {
        assert(s[1] == '}');
        assert(ps =~= Seq::<(u64, i64)>::empty());
    } else {
        if ps.len() == 1 {
            assert(render_pairs(ps)[0] == render_pair(ps[0])[0]);
        } else {
            lemma_render_pairs_front(ps);
            assert(render_pairs(ps)[0] == render_pair(ps[0])[0]);
        }
        assert(render_pair(ps[0])[0] == '"');
        assert(s[1] == '"');
        assert(s.skip(1) =~= render_pairs(ps) + seq!['}'] + rest);
        lemma_parse_pairs_rt(ps, rest);
        assert(s.len() >= 2);
    }
}

/// Parsing a rendered record yields the record, whatever follows.
proof fn lemma_parse_record_rt(r: SnapshotRecord, rest: Seq<char>)
    ensures
        parse_record_spec(render_record(r) + rest) == Some((r, render_record(r).len())),
{
    let s = render_record(r) + rest;
    let kl = render_key(r.0).len() as int;
    assert(s =~= render_key(r.0) + (seq![':'] + render_inner(r.1) + rest));
    lemma_parse_key_rt(r.0, seq![':'] + render_inner(r.1) + rest);
    assert(s[kl] == ':');
    assert(s.skip(kl + 1) =~= render_inner(r.1) + rest);
    lemma_parse_inner_rt(r.1, rest);
}

/// A record list of two or more decomposes at the front.
proof fn lemma_render_records_front(s: Seq<SnapshotRecord>)
    requires
        s.len() >= 2,
    ensures
        render_records(s) == render_record(s[0]) + seq![','] + render_records(s.drop_first()),
    decreases s.len(),
{
    if s.len() == 2 {
        assert(s.drop_last().len() == 1);
        assert(s.drop_last()[0] == s[0]);
        assert(s.drop_first().len() == 1);
        assert(s.drop_first()[0] == s[1]);
        assert(render_records(s) =~= render_record(s[0]) + seq![','] + render_records(
            s.drop_first(),
        ));
    } else {
        lemma_render_records_front(s.drop_last());
        assert(s.drop_last()[0] == s[0]);
        assert(s.drop_last().drop_first() =~= s.drop_first().drop_last());
        assert(s.drop_first().last() == s.last());
        assert(s.drop_first().len() >= 2);
        assert(render_records(s) == render_records(s.drop_last()) + seq![','] + render_record(
            s.last(),
        ));
        assert(render_records(s.drop_last()) == render_record(s[0]) + seq![','] + render_records(
            s.drop_last().drop_first(),
        ));
        assert(render_records(s.drop_first()) == render_records(s.drop_first().drop_last())
            + seq![','] + render_record(s.drop_first().last()));
        assert(render_records(s.drop_last().drop_first()) == render_records(
            s.drop_first().drop_last(),
        ));
        assert(render_records(s) =~= render_record(s[0]) + seq![','] + render_records(
            s.drop_first(),
        ));
    }
}

/// Parsing a rendered record list up to its closing brace yields the list.
#[verifier::rlimit(100)]
proof fn lemma_parse_records_rt(rs: Seq<SnapshotRecord>, rest: Seq<char>)
    requires
        rs.len() >= 1,
    ensures
        parse_records_spec(render_records(rs) + seq!['}'] + rest) == Some(
            (rs, render_records(rs).len() + 1),
        ),
    decreases rs.len(),
{
    let s = render_records(rs) + seq!['}'] + rest;
    let r0 = rs[0];
    let k = render_record(r0).len() as int;
    if rs.len() == 1 {
        let after = seq!['}'] + rest;
        assert(s =~= render_record(r0) + after);
        lemma_parse_record_rt(r0, after);
        assert(parse_record_spec(s) == Some((r0, render_record(r0).len())));
        assert(s[k] == '}') by {
            assert(s[k] == after[0]);
        }
        assert(seq![r0] =~= rs);
        assert(parse_records_spec(s) == Some((rs, render_records(rs).len() + 1)));
    } else {
        let tail = rs.drop_first();
        let after = seq![','] + (render_records(tail) + seq!['}'] + rest);
        assert(s =~= render_record(r0) + after) by {
            lemma_render_records_front(rs);
        }
        lemma_parse_record_rt(r0, after);
        assert(parse_record_spec(s) == Some((r0, render_record(r0).len())));
        assert(s[k] == ',') by {
            assert(s[k] == after[0]);
        }
        assert(s.skip(k + 1 as int) =~= render_records(tail) + seq!['}'] + rest);
        lemma_parse_records_rt(tail, rest);
        assert(parse_records_spec(s.skip(k + 1 as int)) == Some(
            (tail, render_records(tail).len() + 1),
        ));
        assert(seq![r0] + tail =~= rs);
        assert(render_records(rs).len() == k + 1 + render_records(tail).len()) by {
            lemma_render_records_front(rs);
        }
        assert(parse_records_spec(s) == Some((rs, render_records(rs).len() + 1)));
    }
}

/// The snapshot round-trip law: parsing a rendered snapshot yields exactly
/// the records that were rendered, for every record list.
pub proof fn lemma_snapshot_roundtrip(rs: Seq<SnapshotRecord>)
    ensures
        parse_snapshot_spec(render_snapshot(rs)) == Some(rs),
{
    let s = render_snapshot(rs);
    assert(s[0] == '{');
    if rs.len() == 0 {
        assert(s.len() == 2);
        assert(s[1] == '}');
        assert(rs =~= Seq::<SnapshotRecord>::empty());
    } else {
        if rs.len() == 1 {
            assert(render_records(rs)[0] == render_record(rs[0])[0]);
        } else {
            lemma_render_records_front(rs);
            assert(render_records(rs)[0] == render_record(rs[0])[0]);
        }
        assert(render_record(rs[0])[0] == '"');
        assert(s[1] == '"');
        assert(s.len() > 2);
        assert(s.skip(1) =~= render_records(rs) + seq!['}'] + Seq::<char>::empty());
        lemma_parse_records_rt(rs, Seq::empty());
        assert(1 + (render_records(rs).len() + 1) == s.len());
    }
}

/// Saving a well-formed ledger and parsing the result reproduces its exact
/// records, which are distinct; restoring them therefore reproduces the
/// identical ledger mapping.
pub proof fn lemma_save_load_identity(a: &Accounts)
    requires
        a.wf(),
    ensures
        parse_snapshot_spec(render_snapshot(a.records())) == Some(a.records()),
        records_distinct(a.records()),
{
    lemma_snapshot_roundtrip(a.records());
    a.lemma_records_wf();
}

// ---------------------------------------------------------------------------
// The executable renderer
// ---------------------------------------------------------------------------

/// Appends the rendering of a balance.
fn append_i64(out: &mut String, v: i64)
    ensures
        final(out)@ == old(out)@ + render_i64(v as int),
{
    if v < 0 {
        out.append("-");
        let mag: u64 = ((-(v + 1)) as u64) + 1;
        let d = u64_to_string(mag);
        out.append(d.as_str());
        proof {
            reveal_strlit("-");
            assert(mag as nat == (-(v as int)) as nat);
            assert(out@ =~= old(out)@ + render_i64(v as int));
        }
    } else {
        let d = u64_to_string(v as u64);
        out.append(d.as_str());
    }
}

/// Appends the rendering of a quoted identity key.
fn append_key(out: &mut String, k: u64)
    ensures
        final(out)@ == old(out)@ + render_key(k),
{
    out.append("\"");
    let d = u64_to_string(k);
    out.append(d.as_str());
    out.append("\"");
    proof {
        reveal_strlit("\"");
        assert(out@ =~= old(out)@ + render_key(k));
    }
}

/// Appends the rendering of one identity's balances object.
fn append_inner(out: &mut String, bm: &BalanceMap)
    ensures
        final(out)@ == old(out)@ + render_inner(bm.pairs()),
{
    out.append("{");
    let ghost pairs = bm.pairs();
    let ghost base = out@;
    let n = bm.len();
    let mut j: usize = 0;
    proof {
        assert(pairs.take(0) =~= Seq::<(u64, i64)>::empty());
        assert(base + render_pairs(pairs.take(0)) =~= base);
    }
    while j < n
        invariant
            j <= n,
            n == pairs.len(),
            pairs == bm.pairs(),
            out@ == base + render_pairs(pairs.take(j as int)),
        decreases n - j,
    {
        if j > 0 {
            out.append(",");
        }
        let p = bm.pair_at(j);
        append_key(out, p.0);
        out.append(":");
        append_i64(out, p.1);
        proof {
            reveal_strlit(",");
            reveal_strlit(":");
            assert(pairs.take(j + 1).drop_last() =~= pairs.take(j as int));
            assert(pairs.take(j + 1).last() == pairs[j as int]);
            assert(out@ =~= base + render_pairs(pairs.take(j + 1)));
        }
        j = j + 1;
    }
    out.append("}");
    proof {
        reveal_strlit("{");
        reveal_strlit("}");
        assert(pairs.take(n as int) =~= pairs);
        assert(out@ =~= old(out)@ + render_inner(pairs));
    }
}

/// Renders the full ledger state as one snapshot text.
pub fn save_accounts(accounts: &Accounts) -> (out: String)
    requires
        accounts.wf(),
    ensures
        out@ == render_snapshot(accounts.records()),
{
    let mut out = String::new();
    out.append("{");
    let ghost rs = accounts.records();
    let ghost base = out@;
    let n = accounts.len();
    let mut i: usize = 0;
    proof {
        assert(rs.take(0) =~= Seq::<SnapshotRecord>::empty());
        assert(base + render_records(rs.take(0)) =~= base);
    }
    while i < n
        invariant
            accounts.wf(),
            i <= n,
            n == rs.len(),
            rs == accounts.records(),
            out@ == base + render_records(rs.take(i as int)),
        decreases n - i,
    {
        if i > 0 {
            out.append(",");
        }
        let rec = accounts.record_at(i);
        append_key(&mut out, rec.0);
        out.append(":");
        append_inner(&mut out, &rec.1);
        proof {
            reveal_strlit(",");
            reveal_strlit(":");
            assert(rs.take(i + 1).drop_last() =~= rs.take(i as int));
            assert(rs.take(i + 1).last() == rs[i as int]);
            assert(out@ =~= base + render_records(rs.take(i + 1)));
        }
        i = i + 1;
    }
    out.append("}");
    proof {
        reveal_strlit("{");
        reveal_strlit("}");
        assert(rs.take(n as int) =~= rs);
        assert(out@ =~= render_snapshot(rs));
    }
    out
}

// ---------------------------------------------------------------------------
// The executable parser
// ---------------------------------------------------------------------------

/// Reads an unsigned numeral starting at `i`.
fn parse_u64_at(s: &str, n: usize, i: usize) -> (r: Option<(u64, usize)>)
    requires
        n == s@.len(),
        i <= n,
    ensures
        match r {
            Some(p) => i < p.1 <= n && parse_u64_spec(s@.skip(i as int)) == Some(
                (p.0 as nat, (p.1 - i) as nat),
            ),
            None => parse_u64_spec(s@.skip(i as int)) is None,
        },
{
    let ghost t = s@.skip(i as int);
    let j = scan_digits_end(s, n, i);
    proof {
        assert forall|m: int| 0 <= m < j - i implies is_digit(#[trigger] t[m]) by {
            assert(t[m] == s@[i + m]);
        }
        if j < n {
            assert(t[j - i] == s@[j as int]);
        }
        lemma_digit_run_exact(t, j - i);
    }
    if j == i {
        return None;
    }
    proof {
        assert(t.take((j - i) as int) =~= s@.subrange(i as int, j as int));
    }
    match parse_digits_u64(s, i, j) {
        Some(v) => Some((v, j)),
        None => None,
    }
}

/// Reads a signed numeral starting at `i`.
fn parse_i64_at(s: &str, n: usize, i: usize) -> (r: Option<(i64, usize)>)
    requires
        n == s@.len(),
        i <= n,
    ensures
        match r {
            Some(p) => i < p.1 <= n && parse_i64_spec(s@.skip(i as int)) == Some(
                (p.0 as int, (p.1 - i) as nat),
            ),
            None => parse_i64_spec(s@.skip(i as int)) is None,
        },
{
    let ghost t = s@.skip(i as int);
    if i < n && s.get_char(i) == '-' {
        proof {
            assert(t[0] == '-');
            assert(t.skip(1) =~= s@.skip(i + 1 as int));
        }
        let j = scan_digits_end(s, n, i + 1);
        proof {
            assert forall|m: int| 0 <= m < j - (i + 1) implies is_digit(
                #[trigger] t.skip(1)[m],
            ) by {
                assert(t.skip(1)[m] == s@[i + 1 + m]);
            }
            if j < n {
                assert(t.skip(1)[j - (i + 1)] == s@[j as int]);
            }
            lemma_digit_run_exact(t.skip(1), j - (i + 1));
        }
        if j == i + 1 {
            return None;
        }
        proof {
            assert(t.skip(1).take((j - (i + 1)) as int) =~= s@.subrange(i + 1 as int, j as int));
        }
        match parse_digits_u64(s, i + 1, j) {
            Some(v) => {
                let bound: u64 = 0x8000_0000_0000_0000;
                if v > bound {
                    None
                } else if v == bound {
                    Some((i64::MIN, j))
                } else {
                    Some((-(v as i64), j))
                }
            },
            None => None,
        }
    } else {
        proof {
            if t.len() > 0 {
                assert(t[0] == s@[i as int]);
            }
        }
        let j = scan_digits_end(s, n, i);
        proof {
            assert forall|m: int| 0 <= m < j - i implies is_digit(#[trigger] t[m]) by {
                assert(t[m] == s@[i + m]);
            }
            if j < n {
                assert(t[j - i] == s@[j as int]);
            }
            lemma_digit_run_exact(t, j - i);
        }
        if j == i {
            return None;
        }
        proof {
            assert(t.take((j - i) as int) =~= s@.subrange(i as int, j as int));
        }
        match parse_digits_u64(s, i, j) {
            Some(v) => {
                if v > i64::MAX as u64 {
                    None
                } else {
                    Some((v as i64, j))
                }
            },
            None => None,
        }
    }
}

/// Reads a quoted identity key starting at `i`.
fn parse_key_at(s: &str, n: usize, i: usize) -> (r: Option<(u64, usize)>)
    requires
        n == s@.len(),
        i <= n,
    ensures
        match r {
            Some(p) => i < p.1 <= n && parse_key_spec(s@.skip(i as int)) == Some(
                (p.0, (p.1 - i) as nat),
            ),
            None => parse_key_spec(s@.skip(i as int)) is None,
        },
{
    let ghost t = s@.skip(i as int);
    if i >= n || s.get_char(i) != '"' {
        proof {
            if t.len() > 0 {
                assert(t[0] == s@[i as int]);
            }
        }
        return None;
    }
    proof {
        assert(t[0] == '"');
        assert(t.skip(1) =~= s@.skip(i + 1 as int));
    }
    match parse_u64_at(s, n, i + 1) {
        Some((v, j)) => {
            if j < n && s.get_char(j) == '"' {
                proof {
                    assert(t[j - i] == s@[j as int]);
                }
                Some((v, j + 1))
            } else {
                proof {
                    if j < n {
                        assert(t[j - i] == s@[j as int]);
                    }
                }
                None
            }
        },
        None => None,
    }
}

/// Reads one balance pair starting at `i`.
fn parse_pair_at(s: &str, n: usize, i: usize) -> (r: Option<((u64, i64), usize)>)
    requires
        n == s@.len(),
        i <= n,
    ensures
        match r {
            Some(p) => i < p.1 <= n && parse_pair_spec(s@.skip(i as int)) == Some(
                (p.0, (p.1 - i) as nat),
            ),
            None => parse_pair_spec(s@.skip(i as int)) is None,
        },
{
    let ghost t = s@.skip(i as int);
    match parse_key_at(s, n, i) {
        Some((key, j)) => {
            if j < n && s.get_char(j) == ':' {
                proof {
                    assert(t[j - i] == s@[j as int]);
                    assert(t.skip(j - i + 1) =~= s@.skip(j + 1 as int));
                }
                match parse_i64_at(s, n, j + 1) {
                    Some((v, j2)) => Some(((key, v), j2)),
                    None => None,
                }
            } else {
                proof {
                    if j < n {
                        assert(t[j - i] == s@[j as int]);
                    }
                }
                None
            }
        },
        None => None,
    }
}

/// Reads a nonempty pair list up to and including its closing brace,
/// starting at `i`.
fn parse_pairs_at(s: &str, n: usize, i: usize) -> (r: Option<(Vec<(u64, i64)>, usize)>)
    requires
        n == s@.len(),
        i <= n,
    ensures
        match r {
            Some(p) => i < p.1 <= n && parse_pairs_spec(s@.skip(i as int)) == Some(
                (p.0@, (p.1 - i) as nat),
            ),
            None => parse_pairs_spec(s@.skip(i as int)) is None,
        },
    decreases n - i,
{
    let ghost t = s@.skip(i as int);
    match parse_pair_at(s, n, i) {
        Some((p, j)) => {
            if j >= n {
                return None;
            }
            let c = s.get_char(j);
            proof {
                assert(t[j - i] == s@[j as int]);
            }
            if c == ',' {
                proof {
                    assert(t.skip(j - i + 1) =~= s@.skip(j + 1 as int));
                }
                match parse_pairs_at(s, n, j + 1) {
                    Some((rest, j2)) => {
                        let ghost rest_view = rest@;
                        let mut all = rest;
                        all.insert(0, p);
                        proof {
                            assert(all@ =~= seq![p] + rest_view);
                        }
                        Some((all, j2))
                    },
                    None => None,
                }
            } else if c == '}' {
                let mut v: Vec<(u64, i64)> = Vec::new();
                v.push(p);
                proof {
                    assert(v@ =~= seq![p]);
                }
                Some((v, j + 1))
            } else {
                None
            }
        },
        None => None,
    }
}

/// Reads one identity's balances object starting at `i`.
fn parse_inner_at(s: &str, n: usize, i: usize) -> (r: Option<(Vec<(u64, i64)>, usize)>)
    requires
        n == s@.len(),
        i <= n,
    ensures
        match r {
            Some(p) => i < p.1 <= n && parse_inner_spec(s@.skip(i as int)) == Some(
                (p.0@, (p.1 - i) as nat),
            ),
            None => parse_inner_spec(s@.skip(i as int)) is None,
        },
{
    let ghost t = s@.skip(i as int);
    if n - i < 2 {
        return None;
    }
    proof {
        assert(t[0] == s@[i as int]);
        assert(t[1] == s@[i + 1]);
    }
    if s.get_char(i) != '{' {
        return None;
    }
    if s.get_char(i + 1) == '}' {
        let v: Vec<(u64, i64)> = Vec::new();
        proof {
            assert(v@ =~= Seq::<(u64, i64)>::empty());
        }
        return Some((v, i + 2));
    }
    proof {
        assert(t.skip(1) =~= s@.skip(i + 1 as int));
    }
    match parse_pairs_at(s, n, i + 1) {
        Some((v, j)) => Some((v, j)),
        None => None,
    }
}

/// Reads one record starting at `i`.
fn parse_record_at(s: &str, n: usize, i: usize) -> (r: Option<((u64, Vec<(u64, i64)>), usize)>)
    requires
        n == s@.len(),
        i <= n,
    ensures
        match r {
            Some(p) => i < p.1 <= n && parse_record_spec(s@.skip(i as int)) == Some(
                ((p.0.0, p.0.1@), (p.1 - i) as nat),
            ),
            None => parse_record_spec(s@.skip(i as int)) is None,
        },
{
    let ghost t = s@.skip(i as int);
    match parse_key_at(s, n, i) {
        Some((key, j)) => {
            if j < n && s.get_char(j) == ':' {
                proof {
                    assert(t[j - i] == s@[j as int]);
                    assert(t.skip(j - i + 1) =~= s@.skip(j + 1 as int));
                }
                match parse_inner_at(s, n, j + 1) {
                    Some((v, j2)) => Some(((key, v), j2)),
                    None => None,
                }
            } else {
                proof {
                    if j < n {
                        assert(t[j - i] == s@[j as int]);
                    }
                }
                None
            }
        },
        None => None,
    }
}

/// The records denoted by a parsed record vector.
pub open spec fn deep_records(v: Seq<(u64, Vec<(u64, i64)>)>) -> Seq<SnapshotRecord> {
    v.map_values(|p: (u64, Vec<(u64, i64)>)| (p.0, p.1@))
}

/// Reads a nonempty record list up to and including its closing brace,
/// starting at `i`.
fn parse_records_at(s: &str, n: usize, i: usize) -> (r: Option<
    (Vec<(u64, Vec<(u64, i64)>)>, usize),
>)
    requires
        n == s@.len(),
        i <= n,
    ensures
        match r {
            Some(p) => i < p.1 <= n && parse_records_spec(s@.skip(i as int)) == Some(
                (deep_records(p.0@), (p.1 - i) as nat),
            ),
            None => parse_records_spec(s@.skip(i as int)) is None,
        },
    decreases n - i,
{
    let ghost t = s@.skip(i as int);
    match parse_record_at(s, n, i) {
        Some((rec, j)) => {
            if j >= n {
                return None;
            }
            let c = s.get_char(j);
            proof {
                assert(t[j - i] == s@[j as int]);
            }
            if c == ',' {
                proof {
                    assert(t.skip(j - i + 1) =~= s@.skip(j + 1 as int));
                }
                match parse_records_at(s, n, j + 1) {
                    Some((rest, j2)) => {
                        let ghost rec_deep = (rec.0, rec.1@);
                        let ghost rest_deep = deep_records(rest@);
                        let mut all = rest;
                        all.insert(0, rec);
                        proof {
                            assert(deep_records(all@) =~= seq![rec_deep] + rest_deep);
                        }
                        Some((all, j2))
                    },
                    None => None,
                }
            } else if c == '}' {
                let ghost rec_deep = (rec.0, rec.1@);
                let mut v: Vec<(u64, Vec<(u64, i64)>)> = Vec::new();
                v.push(rec);
                proof {
                    assert(deep_records(v@) =~= seq![rec_deep]);
                }
                Some((v, j + 1))
            } else {
                None
            }
        },
        None => None,
    }
}

/// Reads a whole snapshot text; the entire string must be consumed.
fn parse_snapshot_text(s: &str) -> (r: Option<Vec<(u64, Vec<(u64, i64)>)>>)
    ensures
        match r {
            Some(v) => parse_snapshot_spec(s@) == Some(deep_records(v@)),
            None => parse_snapshot_spec(s@) is None,
        },
{
    let n = s.unicode_len();
    if n < 2 {
        return None;
    }
    if s.get_char(0) != '{' {
        return None;
    }
    if n == 2 && s.get_char(1) == '}' {
        let v: Vec<(u64, Vec<(u64, i64)>)> = Vec::new();
        proof {
            assert(deep_records(v@) =~= Seq::<SnapshotRecord>::empty());
        }
        return Some(v);
    }
    proof {
        assert(s@.skip(1) =~= s@.skip(1 as int));
    }
    match parse_records_at(s, n, 1) {
        Some((v, j)) => {
            if j == n {
                Some(v)
            } else {
                None
            }
        },
        None => None,
    }
}

// ---------------------------------------------------------------------------
// Loading: parse, then build a well-formed ledger, rejecting duplicates.
// ---------------------------------------------------------------------------

/// The snapshot text exists but cannot be read back as a ledger.
#[derive(Debug, Clone)]
pub struct CorruptDataError;

impl CorruptDataError {
    /// Human-readable description of the error.
    pub fn message(&self) -> (s: &'static str)
        ensures
            s@ == "corrupt data"@,
    {
        "corrupt data"
    }
}

/// Rebuilds a ledger from a snapshot text.  Succeeds exactly when the text
/// parses and holds no duplicate key at either level; the rebuilt ledger
/// then stores exactly the parsed records.
pub fn load_accounts(s: &str) -> (r: Result<Accounts, CorruptDataError>)
    ensures
        match r {
            Ok(a) => {
                &&& a.wf()
                &&& parse_snapshot_spec(s@) == Some(a.records())
                &&& records_distinct(a.records())
            },
            Err(_) => parse_snapshot_spec(s@) is None || !records_distinct(
                parse_snapshot_spec(s@)->Some_0,
            ),
        },
{
    let parsed = match parse_snapshot_text(s) {
        Some(v) => v,
        None => {
            return Err(CorruptDataError);
        },
    };
    let ghost rs = deep_records(parsed@);
    let mut acc = Accounts::new();
    let n = parsed.len();
    let mut i: usize = 0;
    proof {
        assert(acc.records() =~= rs.take(0));
    }
    while i < n
        invariant
            i <= n,
            n == parsed@.len(),
            rs == deep_records(parsed@),
            parse_snapshot_spec(s@) == Some(rs),
            acc.wf(),
            acc.records() == rs.take(i as int),
            forall|k: u64| acc@.contains_key(k) <==> exists|j: int|
                0 <= j < i && (#[trigger] rs[j]).0 == k,
            forall|p: int, q: int| #![trigger rs[p].0, rs[q].0]
                0 <= p < q < i ==> rs[p].0 != rs[q].0,
            forall|j: int|
                0 <= j < i ==> distinct_keys((#[trigger] rs[j]).1),
        decreases n - i,
    {
        let key = parsed[i].0;
        proof {
            assert(rs[i as int] == (parsed@[i as int].0, parsed@[i as int].1@));
        }
        if acc.has_key(key) {
            proof {
                let j = choose|j: int| 0 <= j < i && (#[trigger] rs[j]).0 == key;
                assert(rs[j].0 == rs[i as int].0);
            }
            return Err(CorruptDataError);
        }
        let mut bm = BalanceMap::new();
        let m = parsed[i].1.len();
        let ghost inner = parsed@[i as int].1@;
        let mut b: usize = 0;
        proof {
            assert(bm.pairs() =~= inner.take(0));
        }
        while b < m
            invariant
                b <= m,
                m == inner.len(),
                inner == parsed@[i as int].1@,
                i < parsed@.len(),
                rs == deep_records(parsed@),
                parse_snapshot_spec(s@) == Some(rs),
                bm.wf(),
                bm.pairs() == inner.take(b as int),
                forall|k: u64| bm@.contains_key(k) <==> exists|j: int|
                    0 <= j < b && (#[trigger] inner[j]).0 == k,
            decreases m - b,
        {
            let pair = parsed[i].1[b];
            if bm.has_key(pair.0) {
                proof {
                    let j = choose|j: int| 0 <= j < b && (#[trigger] inner[j]).0 == pair.0;
                    assert(inner[j].0 == inner[b as int].0);
                    assert(!distinct_keys(inner));
                    assert(rs[i as int] == (parsed@[i as int].0, parsed@[i as int].1@));
                    assert(rs[i as int].1 == inner);
                    assert(!records_distinct(rs));
                }
                return Err(CorruptDataError);
            }
            bm.push_pair(pair.0, pair.1);
            proof {
                assert(inner.take(b + 1).drop_last() =~= inner.take(b as int));
                assert(inner.take(b + 1).last() == inner[b as int]);
                assert(bm.pairs() =~= inner.take(b + 1));
            }
            b = b + 1;
        }
        proof {
            assert(inner.take(m as int) =~= inner);
            bm.lemma_wf_is_distinct();
        }
        acc.push_record(key, bm);
        proof {
            assert(rs.take(i + 1).drop_last() =~= rs.take(i as int));
            assert(rs.take(i + 1).last() == rs[i as int]);
            assert(acc.records() =~= rs.take(i + 1));
        }
        i = i + 1;
    }
    proof {
        assert(rs.take(n as int) =~= rs);
    }
    Ok(acc)
}

} // verus!
