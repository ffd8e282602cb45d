//! The result list's JSON form, written and read by this crate itself so
//! that the round trip is a theorem: parsing a serialized list yields the
//! same list. The writer emits one canonical shape (no optional whitespace,
//! seconds with nine fractional digits); the reader accepts exactly that
//! shape, which is what the writer ever produces.

use vstd::prelude::*;
use vstd::string::StrSliceExecFns;
use vstd::string::StringExecFns;
use crate::error::Error;
use crate::error::ErrorKind;
use crate::run::RequestResult;
use crate::run::Response;
use crate::time::NANOS_PER_SEC;
use crate::time::Seconds;
use crate::request::spec_decimal;
use crate::request::spec_decimal_digit;
use crate::request::decimal_string;

verus! {

// ---------- characters ----------

pub open spec fn is_digit(c: char) -> bool {
    '0' <= c <= '9'
}

pub open spec fn digit_val(c: char) -> nat {
    (c as nat - '0' as nat) as nat
}

pub open spec fn hex_digit(d: nat) -> char {
    if d < 10 {
        spec_decimal_digit(d)
    } else if d == 10 {
        'a'
    } else if d == 11 {
        'b'
    } else if d == 12 {
        'c'
    } else if d == 13 {
        'd'
    } else if d == 14 {
        'e'
    } else {
        'f'
    }
}

pub open spec fn hex_val(c: char) -> nat {
    if is_digit(c) {
        digit_val(c)
    } else {
        (c as nat - 'a' as nat + 10) as nat
    }
}

/// One character of a JSON string: quotes and backslashes are escaped, and
/// control characters take the `\u00XX` form.
pub open spec fn esc_char(c: char) -> Seq<char> {
    if c == '"' {
        seq!['\\', '"']
    } else if c == '\\' {
        seq!['\\', '\\']
    } else if (c as u32) < 0x20 {
        seq![
            '\\',
            'u',
            '0',
            '0',
            hex_digit(((c as u32) / 16) as nat),
            hex_digit(((c as u32) % 16) as nat),
        ]
    } else {
        seq![c]
    }
}

pub open spec fn esc(s: Seq<char>) -> Seq<char>
    decreases s.len(),
{
    if s.len() == 0 {
        Seq::<char>::empty()
    } else {
        esc_char(s.first()) + esc(s.drop_first())
    }
}

pub open spec fn emit_string(s: Seq<char>) -> Seq<char> {
    seq!['"'] + esc(s) + seq!['"']
}

// ---------- numbers and seconds ----------

/// `n` in decimal, zero-padded to exactly `w` digits (modulo `10^w`).
pub open spec fn padded(n: nat, w: nat) -> Seq<char>
    decreases w,
{
    if w == 0 {
        Seq::<char>::empty()
    } else {
        padded(n / 10, (w - 1) as nat).push(spec_decimal_digit(n % 10))
    }
}

/// Seconds as `S.NNNNNNNNN`: the whole seconds in decimal, then always nine
/// fractional digits.
pub open spec fn emit_seconds(s: Seconds) -> Seq<char> {
    spec_decimal(s.nanos as nat / NANOS_PER_SEC as nat) + seq!['.'] + padded(
        s.nanos as nat % NANOS_PER_SEC as nat,
        9,
    )
}

// ---------- the result list ----------

pub open spec fn emit_response(r: Response) -> Seq<char> {
    "{\"status\":"@ + spec_decimal(r.status as nat) + ",\"content_length\":"@ + spec_decimal(
        r.content_length as nat,
    ) + (match r.content {
        Option::Some(c) => ",\"content\":"@ + emit_string(c@),
        Option::None => Seq::<char>::empty(),
    }) + "}"@
}

pub open spec fn emit_kind(k: ErrorKind) -> Seq<char> {
    match k {
        ErrorKind::Timeout => "Timeout"@,
        ErrorKind::Other => "Other"@,
    }
}

pub open spec fn emit_result(r: RequestResult) -> Seq<char> {
    match r {
        RequestResult::Success { seq_no, end_time, elapsed, response } => "{\"result\":\"ok\",\"seq_no\":"@
            + spec_decimal(seq_no as nat) + ",\"end_time\":"@ + emit_seconds(end_time)
            + ",\"elapsed\":"@ + emit_seconds(elapsed) + ",\"response\":"@ + emit_response(response)
            + "}"@,
        RequestResult::Failure { seq_no, end_time, elapsed, error } => "{\"result\":\"error\",\"seq_no\":"@
            + spec_decimal(seq_no as nat) + ",\"end_time\":"@ + emit_seconds(end_time)
            + ",\"elapsed\":"@ + emit_seconds(elapsed) + ",\"error\":{\"kind\":\""@ + emit_kind(
            error.kind,
        ) + "\"}}"@,
    }
}

pub open spec fn emit_items(rs: Seq<RequestResult>) -> Seq<char>
    decreases rs.len(),
{
    if rs.len() == 0 {
        Seq::<char>::empty()
    } else if rs.len() == 1 {
        emit_result(rs.first())
    } else {
        emit_result(rs.first()) + seq![','] + emit_items(rs.drop_first())
    }
}

/// The whole output: the results as one JSON array.
pub open spec fn emit_results(rs: Seq<RequestResult>) -> Seq<char> {
    seq!['['] + emit_items(rs) + seq![']']
}

// ---------- the executable writer ----------

fn escape_into(out: &mut String, s: &str)
    ensures
        final(out)@ == old(out)@ + esc(s@),
{
    let n = s.unicode_len();
    let mut i: usize = 0;
    while i < n
        invariant
            i <= n,
            n == s@.len(),
            out@ == old(out)@ + esc(s@.take(i as int)),
        decreases n - i,
    {
        let ghost prefix = s@.take(i as int);
        let c = s.get_char(i);
        if c == '"' {
            out.append("\\\"");
        } else if c == '\\' {
            out.append("\\\\");
        } else if (c as u32) < 0x20 {
            out.append("\\u00");
            let v = c as u32;
            out.append(hex_digit_str((v / 16) as u8));
            out.append(hex_digit_str((v % 16) as u8));
        } else {
            push_char(out, c);
        }
        proof {
            reveal_strlit("\\\"");
            reveal_strlit("\\\\");
            reveal_strlit("\\u00");
            lemma_esc_step(s@, i as int);
            assert(out@ =~= old(out)@ + esc(s@.take(i as int + 1)));
        }
        i += 1;
    }
    proof {
        assert(s@.take(n as int) =~= s@);
    }
}

/// Relies on String::push: appends exactly the one character.
#[verifier::external_body]
fn push_char(out: &mut String, c: char)
    ensures
        final(out)@ == old(out)@ + seq![c],
{
    out.push(c);
}

/// Escaping a prefix extended by one character appends that character's
/// escape.
proof fn lemma_esc_step(s: Seq<char>, i: int)
    requires
        0 <= i < s.len(),
    ensures
        esc(s.take(i + 1)) == esc(s.take(i)) + esc_char(s[i]),
    decreases i,
{
    if i == 0 {
        assert(s.take(1).len() == 1);
        assert(s.take(1).first() == s[0]);
        assert(s.take(1).drop_first() =~= Seq::<char>::empty());
        assert(esc(Seq::<char>::empty()) == Seq::<char>::empty());
        assert(esc(s.take(1)) == esc_char(s.take(1).first()) + esc(s.take(1).drop_first()));
        assert(s.take(0) =~= Seq::<char>::empty());
        assert(esc(s.take(0)) == Seq::<char>::empty());
        assert(esc(s.take(i + 1)) =~= esc(s.take(i)) + esc_char(s[i]));
    } else {
        lemma_esc_step(s.drop_first(), i - 1);
        assert(s.take(i + 1).first() == s.first());
        assert(s.take(i + 1).drop_first() =~= s.drop_first().take(i));
        assert(s.take(i).first() == s.first());
        assert(s.take(i).drop_first() =~= s.drop_first().take(i - 1));
        assert(s.drop_first()[i - 1] == s[i]);
        assert(esc(s.take(i + 1)) == esc_char(s.first()) + esc(s.drop_first().take(i)));
        assert(esc(s.take(i)) == esc_char(s.first()) + esc(s.drop_first().take(i - 1)));
        assert(esc(s.take(i + 1)) =~= esc(s.take(i)) + esc_char(s[i]));
    }
}

fn hex_digit_str(d: u8) -> (r: &'static str)
    requires
        d < 16,
    ensures
        r@ =~= seq![hex_digit(d as nat)],
{
    proof {
        reveal_strlit("a");
        reveal_strlit("b");
        reveal_strlit("c");
        reveal_strlit("d");
        reveal_strlit("e");
        reveal_strlit("f");
    }
    if d < 10 {
        crate::request::decimal_digit_str(d as u64)
    } else if d == 10 {
        "a"
    } else if d == 11 {
        "b"
    } else if d == 12 {
        "c"
    } else if d == 13 {
        "d"
    } else if d == 14 {
        "e"
    } else {
        "f"
    }
}

fn padded9_into(out: &mut String, n: u64)
    requires
        n < NANOS_PER_SEC,
    ensures
        final(out)@ == old(out)@ + padded(n as nat, 9),
{
    let s = padded_string(n, 9);
    out.append(s.as_str());
}

fn padded_string(n: u64, w: u64) -> (r: String)
    ensures
        r@ == padded(n as nat, w as nat),
    decreases w,
{
    if w == 0 {
        String::new()
    } else {
        let mut s = padded_string(n / 10, w - 1);
        s.append(crate::request::decimal_digit_str(n % 10));
        proof {
            assert(s@ =~= padded(n as nat, w as nat));
        }
        s
    }
}

fn seconds_into(out: &mut String, s: Seconds)
    ensures
        final(out)@ == old(out)@ + emit_seconds(s),
{
    let whole = decimal_string(s.nanos / NANOS_PER_SEC);
    out.append(whole.as_str());
    out.append(".");
    padded9_into(out, s.nanos % NANOS_PER_SEC);
    proof {
        reveal_strlit(".");
        assert(final(out)@ =~= old(out)@ + emit_seconds(s));
    }
}

/// Writes the result list as one JSON array, in the crate's canonical shape.
pub fn results_to_json(results: &Vec<RequestResult>) -> (r: String)
    ensures
        r@ == emit_results(results@),
{
    let mut out = String::new();
    out.append("[");
    let n = results.len();
    let mut i: usize = 0;
    proof {
        reveal_strlit("[");
        assert(results@.take(0) =~= Seq::<RequestResult>::empty());
        assert(emit_items(results@.take(0)) == Seq::<char>::empty());
        assert(out@ =~= seq!['['] + emit_items(results@.take(0)) + Seq::<char>::empty());
    }
    while i < n
        invariant
            i <= n,
            n == results@.len(),
            out@ == seq!['['] + emit_items(results@.take(i as int)) + (if 0 < i < n {
                seq![',']
            } else {
                Seq::<char>::empty()
            }),
        decreases n - i,
    {
        result_into(&mut out, &results[i]);
        proof {
            lemma_emit_items_step(results@, i as int);
        }
        i += 1;
        if i < n {
            out.append(",");
        }
        proof {
            reveal_strlit(",");
            assert(out@ =~= seq!['['] + emit_items(results@.take(i as int)) + (if 0 < i < n {
                seq![',']
            } else {
                Seq::<char>::empty()
            }));
        }
    }
    out.append("]");
    proof {
        reveal_strlit("[");
        reveal_strlit("]");
        assert(results@.take(n as int) =~= results@);
        assert(out@ =~= emit_results(results@));
    }
    out
}

/// Emitting one more item appends a comma (after a first item) and the
/// item's text.
proof fn lemma_emit_items_step(rs: Seq<RequestResult>, i: int)
    requires
        0 <= i < rs.len(),
    ensures
        i == 0 ==> emit_items(rs.take(1)) == emit_result(rs[0]),
        i > 0 ==> emit_items(rs.take(i + 1)) == emit_items(rs.take(i)) + seq![','] + emit_result(
            rs[i],
        ),
    decreases i,
{
    if i == 0 {
        assert(rs.take(1).first() == rs[0]);
        assert(emit_items(rs.take(1)) == emit_result(rs[0]));
    } else {
        lemma_emit_items_step(rs.drop_first(), i - 1);
        assert(rs.take(i + 1).first() == rs.first());
        assert(rs.take(i + 1).drop_first() =~= rs.drop_first().take(i));
        assert(rs.take(i).first() == rs.first());
        assert(rs.take(i).drop_first() =~= rs.drop_first().take(i - 1));
        assert(rs.drop_first()[i - 1] == rs[i]);
        if i == 1 {
            assert(emit_items(rs.take(2)) == emit_result(rs.first()) + seq![','] + emit_items(
                rs.drop_first().take(1),
            ));
            assert(emit_items(rs.take(1)) == emit_result(rs[0]));
            assert(emit_items(rs.take(i + 1)) =~= emit_items(rs.take(i)) + seq![','] + emit_result(
                rs[i],
            ));
        } else {
            assert(emit_items(rs.take(i + 1)) == emit_result(rs.first()) + seq![','] + emit_items(
                rs.drop_first().take(i),
            ));
            assert(emit_items(rs.take(i)) == emit_result(rs.first()) + seq![','] + emit_items(
                rs.drop_first().take(i - 1),
            ));
            assert(emit_items(rs.take(i + 1)) =~= emit_items(rs.take(i)) + seq![','] + emit_result(
                rs[i],
            ));
        }
    }
}

fn result_into(out: &mut String, r: &RequestResult)
    ensures
        final(out)@ == old(out)@ + emit_result(*r),
{
    match r {
        RequestResult::Success { seq_no, end_time, elapsed, response } => {
            out.append("{\"result\":\"ok\",\"seq_no\":");
            let d = decimal_string(*seq_no as u64);
            out.append(d.as_str());
            out.append(",\"end_time\":");
            seconds_into(out, *end_time);
            out.append(",\"elapsed\":");
            seconds_into(out, *elapsed);
            out.append(",\"response\":");
            response_into(out, response);
            out.append("}");
            proof {
                reveal_strlit("}");
                assert(final(out)@ =~= old(out)@ + emit_result(*r));
            }
        }
        RequestResult::Failure { seq_no, end_time, elapsed, error } => {
            out.append("{\"result\":\"error\",\"seq_no\":");
            let d = decimal_string(*seq_no as u64);
            out.append(d.as_str());
            out.append(",\"end_time\":");
            seconds_into(out, *end_time);
            out.append(",\"elapsed\":");
            seconds_into(out, *elapsed);
            out.append(",\"error\":{\"kind\":\"");
            match error.kind {
                ErrorKind::Timeout => out.append("Timeout"),
                ErrorKind::Other => out.append("Other"),
            }
            out.append("\"}}");
            proof {
                assert(final(out)@ =~= old(out)@ + emit_result(*r));
            }
        }
    }
}

fn response_into(out: &mut String, r: &Response)
    ensures
        final(out)@ == old(out)@ + emit_response(*r),
{
    out.append("{\"status\":");
    let d = decimal_string(r.status as u64);
    out.append(d.as_str());
    out.append(",\"content_length\":");
    let d = decimal_string(r.content_length);
    out.append(d.as_str());
    match &r.content {
        Option::Some(c) => {
            out.append(",\"content\":\"");
            escape_into(out, c.as_str());
            out.append("\"");
            proof {
                reveal_strlit("\"");
                reveal_strlit(",\"content\":\"");
                reveal_strlit(",\"content\":");
            }
        }
        Option::None => {}
    }
    out.append("}");
    proof {
        reveal_strlit("}");
        assert(final(out)@ =~= old(out)@ + emit_response(*r));
    }
}


// ---------- the reader: primitives ----------

pub open spec fn is_hex(c: char) -> bool {
    is_digit(c) || 'a' <= c <= 'f'
}

/// Consumes an expected literal prefix.
pub open spec fn expect(s: Seq<char>, lit: Seq<char>) -> Option<Seq<char>> {
    if lit.len() <= s.len() && s.take(lit.len() as int) == lit {
        Option::Some(s.skip(lit.len() as int))
    } else {
        Option::<Seq<char>>::None
    }
}

/// How many digits stand at the front.
pub open spec fn digit_run_len(s: Seq<char>) -> nat
    decreases s.len(),
{
    if s.len() == 0 {
        0
    } else if !is_digit(s.first()) {
        0
    } else {
        1 + digit_run_len(s.drop_first())
    }
}

/// The numeric value of a digit sequence, most significant first.
pub open spec fn val_of(ds: Seq<char>) -> nat
    decreases ds.len(),
{
    if ds.len() == 0 {
        0
    } else {
        val_of(ds.drop_last()) * 10 + digit_val(ds.last())
    }
}

pub open spec fn parse_number(s: Seq<char>) -> Option<(nat, Seq<char>)> {
    let k = digit_run_len(s);
    if k == 0 {
        Option::None
    } else {
        Option::Some((val_of(s.take(k as int)), s.skip(k as int)))
    }
}

/// Exactly nine digits, as the fractional part of a seconds value.
pub open spec fn parse_fixed9(s: Seq<char>) -> Option<(nat, Seq<char>)> {
    if s.len() >= 9 && (forall|j: int| 0 <= j < 9 ==> is_digit(#[trigger] s[j])) {
        Option::Some((val_of(s.take(9)), s.skip(9)))
    } else {
        Option::None
    }
}

pub open spec fn parse_seconds(s: Seq<char>) -> Option<(Seconds, Seq<char>)> {
    match parse_number(s) {
        Option::Some((secs, rest)) => match expect(rest, seq!['.']) {
            Option::Some(rest2) => match parse_fixed9(rest2) {
                Option::Some((frac, rest3)) => if secs * (NANOS_PER_SEC as nat) + frac
                    <= u64::MAX {
                    Option::Some(
                        (Seconds { nanos: (secs * (NANOS_PER_SEC as nat) + frac) as u64 }, rest3),
                    )
                } else {
                    Option::None
                },
                Option::None => Option::None,
            },
            Option::None => Option::None,
        },
        Option::None => Option::None,
    }
}

// ---------- reader lemmas: primitives ----------

/// A consumed literal gives back exactly the rest.
proof fn lemma_expect(lit: Seq<char>, rest: Seq<char>)
    ensures
        expect(lit + rest, lit) == Option::Some(rest),
{
    assert((lit + rest).take(lit.len() as int) =~= lit);
    assert((lit + rest).skip(lit.len() as int) =~= rest);
}

proof fn lemma_decimal_digits(n: nat)
    ensures
        spec_decimal(n).len() >= 1,
        forall|j: int| 0 <= j < spec_decimal(n).len() ==> is_digit(#[trigger] spec_decimal(n)[j]),
    decreases n,
{
    if n < 10 {
    } else {
        lemma_decimal_digits(n / 10);
        assert forall|j: int| 0 <= j < spec_decimal(n).len() implies is_digit(
            #[trigger] spec_decimal(n)[j],
        ) by {
            if j < spec_decimal(n).len() - 1 {
                assert(spec_decimal(n)[j] == spec_decimal(n / 10)[j]);
            } else {
                assert(spec_decimal(n)[j] == spec_decimal_digit(n % 10));
            }
        }
    }
}

/// A run of digits followed by a non-digit is measured exactly.
proof fn lemma_digit_run(ds: Seq<char>, rest: Seq<char>)
    requires
        forall|j: int| 0 <= j < ds.len() ==> is_digit(#[trigger] ds[j]),
        rest.len() > 0 ==> !is_digit(rest.first()),
    ensures
        digit_run_len(ds + rest) == ds.len(),
    decreases ds.len(),
{
    if ds.len() == 0 {
        assert(ds + rest =~= rest);
        if rest.len() > 0 {
            assert(digit_run_len(rest) == 0);
        }
    } else {
        assert((ds + rest).first() == ds.first());
        assert((ds + rest).drop_first() =~= ds.drop_first() + rest);
        assert forall|j: int| 0 <= j < ds.drop_first().len() implies is_digit(
            #[trigger] ds.drop_first()[j],
        ) by {
            assert(ds.drop_first()[j] == ds[j + 1]);
        }
        lemma_digit_run(ds.drop_first(), rest);
    }
}

proof fn lemma_digit_val_inverse(d: nat)
    requires
        d < 10,
    ensures
        digit_val(spec_decimal_digit(d)) == d,
        is_digit(spec_decimal_digit(d)),
{
}

proof fn lemma_val_of_decimal(n: nat)
    ensures
        val_of(spec_decimal(n)) == n,
    decreases n,
{
    lemma_digit_val_inverse(n % 10);
    if n < 10 {
        assert(spec_decimal(n).drop_last() =~= Seq::<char>::empty());
        assert(val_of(Seq::<char>::empty()) == 0);
        assert(spec_decimal(n).last() == spec_decimal_digit(n));
        lemma_digit_val_inverse(n);
    } else {
        lemma_val_of_decimal(n / 10);
        assert(spec_decimal(n).drop_last() =~= spec_decimal(n / 10));
        assert(spec_decimal(n).last() == spec_decimal_digit(n % 10));
        vstd::arithmetic::div_mod::lemma_fundamental_div_mod(n as int, 10);
    }
}

/// An emitted number followed by a non-digit parses back to itself.
proof fn lemma_parse_number(n: nat, rest: Seq<char>)
    requires
        rest.len() > 0 ==> !is_digit(rest.first()),
    ensures
        parse_number(spec_decimal(n) + rest) == Option::Some((n, rest)),
{
    lemma_decimal_digits(n);
    lemma_digit_run(spec_decimal(n), rest);
    lemma_val_of_decimal(n);
    let s = spec_decimal(n) + rest;
    assert(s.take(spec_decimal(n).len() as int) =~= spec_decimal(n));
    assert(s.skip(spec_decimal(n).len() as int) =~= rest);
}

pub open spec fn pow10(w: nat) -> nat
    decreases w,
{
    if w == 0 {
        1
    } else {
        10 * pow10((w - 1) as nat)
    }
}

proof fn lemma_padded_digits(n: nat, w: nat)
    ensures
        padded(n, w).len() == w,
        forall|j: int| 0 <= j < w ==> is_digit(#[trigger] padded(n, w)[j]),
    decreases w,
{
    if w > 0 {
        lemma_padded_digits(n / 10, (w - 1) as nat);
        lemma_digit_val_inverse(n % 10);
        assert forall|j: int| 0 <= j < w implies is_digit(#[trigger] padded(n, w)[j]) by {
            if j < w - 1 {
                assert(padded(n, w)[j] == padded(n / 10, (w - 1) as nat)[j]);
            } else {
                assert(padded(n, w)[j] == spec_decimal_digit(n % 10));
            }
        }
    }
}

proof fn lemma_val_of_padded(n: nat, w: nat)
    requires
        n < pow10(w),
    ensures
        val_of(padded(n, w)) == n,
    decreases w,
{
    if w == 0 {
        assert(padded(n, 0) =~= Seq::<char>::empty());
    } else {
        lemma_padded_digits(n / 10, (w - 1) as nat);
        assert(n / 10 < pow10((w - 1) as nat)) by (nonlinear_arith)
            requires
                n < 10 * pow10((w - 1) as nat),
        ;
        lemma_val_of_padded(n / 10, (w - 1) as nat);
        lemma_digit_val_inverse(n % 10);
        assert(padded(n, w).drop_last() =~= padded(n / 10, (w - 1) as nat));
        assert(padded(n, w).last() == spec_decimal_digit(n % 10));
        vstd::arithmetic::div_mod::lemma_fundamental_div_mod(n as int, 10);
    }
}

proof fn lemma_parse_fixed9(n: nat, rest: Seq<char>)
    requires
        n < NANOS_PER_SEC,
    ensures
        parse_fixed9(padded(n, 9) + rest) == Option::Some((n, rest)),
{
    lemma_padded_digits(n, 9);
    assert(pow10(9) == NANOS_PER_SEC) by {
        reveal_with_fuel(pow10, 10);
    }
    lemma_val_of_padded(n, 9);
    let s = padded(n, 9) + rest;
    assert(s.take(9) =~= padded(n, 9));
    assert(s.skip(9) =~= rest);
    assert forall|j: int| 0 <= j < 9 implies is_digit(#[trigger] s[j]) by {
        assert(s[j] == padded(n, 9)[j]);
    }
}

/// Emitted seconds parse back exactly, whatever follows them.
proof fn lemma_parse_seconds(sec: Seconds, rest: Seq<char>)
    ensures
        parse_seconds(emit_seconds(sec) + rest) == Option::Some((sec, rest)),
{
    let whole = sec.nanos as nat / NANOS_PER_SEC as nat;
    let frac = sec.nanos as nat % NANOS_PER_SEC as nat;
    let tail = seq!['.'] + padded(frac, 9) + rest;
    assert(emit_seconds(sec) + rest =~= spec_decimal(whole) + tail);
    assert(!is_digit(tail.first()));
    lemma_parse_number(whole, tail);
    assert(tail =~= seq!['.'] + (padded(frac, 9) + rest));
    lemma_expect(seq!['.'], padded(frac, 9) + rest);
    lemma_parse_fixed9(frac, rest);
    vstd::arithmetic::div_mod::lemma_fundamental_div_mod(sec.nanos as int, NANOS_PER_SEC as int);
    assert(whole * (NANOS_PER_SEC as nat) + frac == sec.nanos);
}


// ---------- the reader: strings ----------

/// The characters of a JSON string up to its closing quote, with escapes
/// decoded.
pub open spec fn parse_string_body(s: Seq<char>) -> Option<(Seq<char>, Seq<char>)>
    decreases s.len(),
{
    if s.len() == 0 {
        Option::None
    } else if s.first() == '"' {
        Option::Some((Seq::<char>::empty(), s.drop_first()))
    } else if s.first() == '\\' {
        if s.len() >= 2 && (s[1] == '"' || s[1] == '\\') {
            match parse_string_body(s.skip(2)) {
                Option::Some((t, r)) => Option::Some((seq![s[1]] + t, r)),
                Option::None => Option::None,
            }
        } else if s.len() >= 6 && s[1] == 'u' && s[2] == '0' && s[3] == '0' && is_hex(s[4])
            && is_hex(s[5]) {
            match parse_string_body(s.skip(6)) {
                Option::Some(
                    (t, r),
                ) => Option::Some(
                    (seq![((16 * hex_val(s[4]) + hex_val(s[5])) as u32) as char] + t, r),
                ),
                Option::None => Option::None,
            }
        } else {
            Option::None
        }
    } else {
        match parse_string_body(s.drop_first()) {
            Option::Some((t, r)) => Option::Some((seq![s.first()] + t, r)),
            Option::None => Option::None,
        }
    }
}

pub open spec fn parse_string(s: Seq<char>) -> Option<(Seq<char>, Seq<char>)> {
    if s.len() >= 1 && s.first() == '"' {
        parse_string_body(s.drop_first())
    } else {
        Option::None
    }
}

proof fn lemma_hex_val_inverse(d: nat)
    requires
        d < 16,
    ensures
        hex_val(hex_digit(d)) == d,
        is_hex(hex_digit(d)),
{
}

/// An escaped string body followed by its closing quote parses back.
proof fn lemma_parse_string_body(t: Seq<char>, rest: Seq<char>)
    ensures
        parse_string_body(esc(t) + seq!['"'] + rest) == Option::Some((t, rest)),
    decreases t.len(),
{
    let s = esc(t) + seq!['"'] + rest;
    if t.len() == 0 {
        assert(esc(t) == Seq::<char>::empty());
        assert(s =~= seq!['"'] + rest);
        assert(s.first() == '"');
        assert(s.drop_first() =~= rest);
    } else {
        let c = t.first();
        let t2 = t.drop_first();
        lemma_parse_string_body(t2, rest);
        let inner = esc(t2) + seq!['"'] + rest;
        assert(esc(t) == esc_char(c) + esc(t2));
        assert(s =~= (esc_char(c) + esc(t2)) + seq!['"'] + rest);
        if c == '"' {
            assert(s =~= seq!['\\', '"'] + inner);
            assert(s.first() == '\\' && s[1] == '"');
            assert(s.skip(2) =~= inner);
            assert(seq![s[1]] + t2 =~= t);
        } else if c == '\\' {
            assert(s =~= seq!['\\', '\\'] + inner);
            assert(s.first() == '\\' && s[1] == '\\');
            assert(s.skip(2) =~= inner);
            assert(seq![s[1]] + t2 =~= t);
        } else if (c as u32) < 0x20 {
            let h1 = hex_digit(((c as u32) / 16) as nat);
            let h2 = hex_digit(((c as u32) % 16) as nat);
            assert(s =~= seq!['\\', 'u', '0', '0', h1, h2] + inner);
            assert(s.first() == '\\' && s[1] == 'u' && s[2] == '0' && s[3] == '0' && s[4] == h1
                && s[5] == h2);
            lemma_hex_val_inverse(((c as u32) / 16) as nat);
            lemma_hex_val_inverse(((c as u32) % 16) as nat);
            assert(s.len() >= 6);
            assert(s.skip(6) =~= inner);
            vstd::arithmetic::div_mod::lemma_fundamental_div_mod(c as u32 as int, 16);
            assert(16 * hex_val(s[4]) + hex_val(s[5]) == c as u32);
            let u = (16 * hex_val(s[4]) + hex_val(s[5])) as u32;
            assert(u == c as u32);
            vstd::utf8::char_u32_cast(c, u);
            assert(seq![((16 * hex_val(s[4]) + hex_val(s[5])) as u32) as char] + t2 =~= t);
        } else {
            assert(s =~= seq![c] + inner);
            assert(s.first() == c);
            assert(s.drop_first() =~= inner);
            assert(seq![s.first()] + t2 =~= t);
        }
    }
}

/// An emitted string parses back, whatever follows it.
proof fn lemma_parse_string(t: Seq<char>, rest: Seq<char>)
    ensures
        parse_string(emit_string(t) + rest) == Option::Some((t, rest)),
{
    let s = emit_string(t) + rest;
    assert(s.first() == '"');
    assert(s.drop_first() =~= esc(t) + seq!['"'] + rest);
    lemma_parse_string_body(t, rest);
}


// ---------- the reader: results ----------

/// A parsed response: what the JSON carries. String content is read back as
/// its characters.
pub struct ParsedResponse {
    pub status: u16,
    pub content_length: u64,
    pub content: Option<Seq<char>>,
}

/// A parsed result. The error's human-readable message is not serialized,
/// so a failure reads back as its kind alone.
pub enum ParsedResult {
    Success { seq_no: usize, end_time: Seconds, elapsed: Seconds, response: ParsedResponse },
    Failure { seq_no: usize, end_time: Seconds, elapsed: Seconds, kind: ErrorKind },
}

/// What a result looks like after the round trip: every serialized field
/// exactly, string content by its characters, errors by their kind.
pub open spec fn to_parsed(r: RequestResult) -> ParsedResult {
    match r {
        RequestResult::Success { seq_no, end_time, elapsed, response } => ParsedResult::Success {
            seq_no,
            end_time,
            elapsed,
            response: ParsedResponse {
                status: response.status,
                content_length: response.content_length,
                content: match response.content {
                    Option::Some(c) => Option::Some(c@),
                    Option::None => Option::None,
                },
            },
        },
        RequestResult::Failure { seq_no, end_time, elapsed, error } => ParsedResult::Failure {
            seq_no,
            end_time,
            elapsed,
            kind: error.kind,
        },
    }
}

pub open spec fn parse_response(s: Seq<char>) -> Option<(ParsedResponse, Seq<char>)> {
    match expect(s, "{\"status\":"@) {
        Option::Some(r1) => match parse_number(r1) {
            Option::Some((st, r2)) => if st <= u16::MAX {
                match expect(r2, ",\"content_length\":"@) {
                    Option::Some(r3) => match parse_number(r3) {
                        Option::Some((cl, r4)) => if cl <= u64::MAX {
                            if r4.len() > 0 && r4.first() == '}' {
                                Option::Some(
                                    (
                                        ParsedResponse {
                                            status: st as u16,
                                            content_length: cl as u64,
                                            content: Option::None,
                                        },
                                        r4.drop_first(),
                                    ),
                                )
                            } else {
                                match expect(r4, ",\"content\":"@) {
                                    Option::Some(r5) => match parse_string(r5) {
                                        Option::Some((txt, r6)) => match expect(r6, "}"@) {
                                            Option::Some(r7) => Option::Some(
                                                (
                                                    ParsedResponse {
                                                        status: st as u16,
                                                        content_length: cl as u64,
                                                        content: Option::Some(txt),
                                                    },
                                                    r7,
                                                ),
                                            ),
                                            Option::None => Option::None,
                                        },
                                        Option::None => Option::None,
                                    },
                                    Option::None => Option::None,
                                }
                            }
                        } else {
                            Option::None
                        },
                        Option::None => Option::None,
                    },
                    Option::None => Option::None,
                }
            } else {
                Option::None
            },
            Option::None => Option::None,
        },
        Option::None => Option::None,
    }
}

pub open spec fn parse_timing(s: Seq<char>) -> Option<(nat, Seconds, Seconds, Seq<char>)> {
    match parse_number(s) {
        Option::Some((seq_no, r1)) => if seq_no <= usize::MAX {
            match expect(r1, ",\"end_time\":"@) {
                Option::Some(r2) => match parse_seconds(r2) {
                    Option::Some((end_time, r3)) => match expect(r3, ",\"elapsed\":"@) {
                        Option::Some(r4) => match parse_seconds(r4) {
                            Option::Some(
                                (elapsed, r5),
                            ) => Option::Some((seq_no, end_time, elapsed, r5)),
                            Option::None => Option::None,
                        },
                        Option::None => Option::None,
                    },
                    Option::None => Option::None,
                },
                Option::None => Option::None,
            }
        } else {
            Option::None
        },
        Option::None => Option::None,
    }
}

pub open spec fn parse_result(s: Seq<char>) -> Option<(ParsedResult, Seq<char>)> {
    match expect(s, "{\"result\":\""@) {
        Option::Some(r1) => if r1.len() > 0 && r1.first() == 'o' {
            match expect(r1, "ok\",\"seq_no\":"@) {
                Option::Some(r2) => match parse_timing(r2) {
                    Option::Some((seq_no, end_time, elapsed, r3)) => match expect(
                        r3,
                        ",\"response\":"@,
                    ) {
                        Option::Some(r4) => match parse_response(r4) {
                            Option::Some((response, r5)) => match expect(r5, "}"@) {
                                Option::Some(r6) => Option::Some(
                                    (
                                        ParsedResult::Success {
                                            seq_no: seq_no as usize,
                                            end_time,
                                            elapsed,
                                            response,
                                        },
                                        r6,
                                    ),
                                ),
                                Option::None => Option::None,
                            },
                            Option::None => Option::None,
                        },
                        Option::None => Option::None,
                    },
                    Option::None => Option::None,
                },
                Option::None => Option::None,
            }
        } else {
            match expect(r1, "error\",\"seq_no\":"@) {
                Option::Some(r2) => match parse_timing(r2) {
                    Option::Some((seq_no, end_time, elapsed, r3)) => match expect(
                        r3,
                        ",\"error\":{\"kind\":\""@,
                    ) {
                        Option::Some(r4) => if r4.len() > 0 && r4.first() == 'T' {
                            match expect(r4, "Timeout\"}}"@) {
                                Option::Some(r5) => Option::Some(
                                    (
                                        ParsedResult::Failure {
                                            seq_no: seq_no as usize,
                                            end_time,
                                            elapsed,
                                            kind: ErrorKind::Timeout,
                                        },
                                        r5,
                                    ),
                                ),
                                Option::None => Option::None,
                            }
                        } else {
                            match expect(r4, "Other\"}}"@) {
                                Option::Some(r5) => Option::Some(
                                    (
                                        ParsedResult::Failure {
                                            seq_no: seq_no as usize,
                                            end_time,
                                            elapsed,
                                            kind: ErrorKind::Other,
                                        },
                                        r5,
                                    ),
                                ),
                                Option::None => Option::None,
                            }
                        },
                        Option::None => Option::None,
                    },
                    Option::None => Option::None,
                },
                Option::None => Option::None,
            }
        },
        Option::None => Option::None,
    }
}

/// The comma-separated items of a non-empty array; `fuel` bounds the item
/// count, and any count at least the real one reads the same items.
pub open spec fn parse_items(s: Seq<char>, fuel: nat) -> Option<(Seq<ParsedResult>, Seq<char>)>
    decreases fuel,
{
    if fuel == 0 {
        Option::None
    } else {
        match parse_result(s) {
            Option::Some((r, rest)) => if rest.len() > 0 && rest.first() == ',' {
                match parse_items(rest.drop_first(), (fuel - 1) as nat) {
                    Option::Some((more, rest2)) => Option::Some((seq![r] + more, rest2)),
                    Option::None => Option::None,
                }
            } else {
                Option::Some((seq![r], rest))
            },
            Option::None => Option::None,
        }
    }
}

/// The whole text as one result array, in the writer's canonical shape.
pub open spec fn parse_results_text(s: Seq<char>) -> Option<Seq<ParsedResult>> {
    if s.len() == 2 && s[0] == '[' && s[1] == ']' {
        Option::Some(Seq::<ParsedResult>::empty())
    } else if s.len() > 2 && s[0] == '[' {
        match parse_items(s.drop_first(), s.len() as nat) {
            Option::Some((rs, rest)) => if rest == seq![']'] {
                Option::Some(rs)
            } else {
                Option::None
            },
            Option::None => Option::None,
        }
    } else {
        Option::None
    }
}

// ---------- reader lemmas: results ----------

#[verifier::rlimit(100)]
proof fn lemma_parse_response(resp: Response, rest: Seq<char>)
    ensures
        parse_response(emit_response(resp) + rest) == Option::Some(
            (
                ParsedResponse {
                    status: resp.status,
                    content_length: resp.content_length,
                    content: match resp.content {
                        Option::Some(c) => Option::Some(c@),
                        Option::None => Option::<Seq<char>>::None,
                    },
                },
                rest,
            ),
        ),
{
    reveal_strlit("{\"status\":");
    reveal_strlit(",\"content_length\":");
    reveal_strlit(",\"content\":");
    reveal_strlit("}");
    let s = emit_response(resp) + rest;
    let lit1 = "{\"status\":"@;
    let lit2 = ",\"content_length\":"@;
    let lit3 = ",\"content\":"@;
    let dst = spec_decimal(resp.status as nat);
    let dcl = spec_decimal(resp.content_length as nat);
    match resp.content {
        Option::None => {
            let x1 = dst + lit2 + dcl + "}"@ + rest;
            assert(s =~= lit1 + x1);
            lemma_expect(lit1, x1);
            let x2 = lit2 + dcl + "}"@ + rest;
            assert(x1 =~= dst + x2);
            assert(!is_digit(x2.first()));
            lemma_parse_number(resp.status as nat, x2);
            let x3 = dcl + ("}"@ + rest);
            assert(x2 =~= lit2 + x3);
            lemma_expect(lit2, x3);
            assert(("}"@ + rest).first() == '}');
            lemma_parse_number(resp.content_length as nat, "}"@ + rest);
            assert(("}"@ + rest).drop_first() =~= rest);
        }
        Option::Some(c) => {
            let x1 = dst + lit2 + dcl + lit3 + emit_string(c@) + "}"@ + rest;
            assert(s =~= lit1 + x1);
            lemma_expect(lit1, x1);
            let x2 = lit2 + dcl + lit3 + emit_string(c@) + "}"@ + rest;
            assert(x1 =~= dst + x2);
            assert(!is_digit(x2.first()));
            lemma_parse_number(resp.status as nat, x2);
            let x3 = dcl + (lit3 + emit_string(c@) + "}"@ + rest);
            assert(x2 =~= lit2 + x3);
            lemma_expect(lit2, x3);
            let x4 = lit3 + emit_string(c@) + "}"@ + rest;
            assert(!is_digit(x4.first()));
            lemma_parse_number(resp.content_length as nat, x4);
            assert(x4.first() == ',' && x4.first() != '}');
            let x5 = emit_string(c@) + ("}"@ + rest);
            assert(x4 =~= lit3 + x5);
            lemma_expect(lit3, x5);
            lemma_parse_string(c@, "}"@ + rest);
            lemma_expect("}"@, rest);
        }
    }
}

proof fn lemma_parse_timing(seq_no: usize, end_time: Seconds, elapsed: Seconds, rest: Seq<char>)
    requires
        rest.len() > 0 ==> !is_digit(rest.first()),
    ensures
        parse_timing(
            spec_decimal(seq_no as nat) + ",\"end_time\":"@ + emit_seconds(end_time)
                + ",\"elapsed\":"@ + emit_seconds(elapsed) + rest,
        ) == Option::Some((seq_no as nat, end_time, elapsed, rest)),
{
    reveal_strlit(",\"end_time\":");
    reveal_strlit(",\"elapsed\":");
    let lit_end = ",\"end_time\":"@;
    let lit_ela = ",\"elapsed\":"@;
    let s = spec_decimal(seq_no as nat) + lit_end + emit_seconds(end_time) + lit_ela
        + emit_seconds(elapsed) + rest;
    let x1 = lit_end + emit_seconds(end_time) + lit_ela + emit_seconds(elapsed) + rest;
    assert(s =~= spec_decimal(seq_no as nat) + x1);
    assert(!is_digit(x1.first()));
    lemma_parse_number(seq_no as nat, x1);
    let x2 = emit_seconds(end_time) + (lit_ela + emit_seconds(elapsed) + rest);
    assert(x1 =~= lit_end + x2);
    lemma_expect(lit_end, x2);
    lemma_parse_seconds(end_time, lit_ela + emit_seconds(elapsed) + rest);
    let x3 = emit_seconds(elapsed) + rest;
    assert(lit_ela + emit_seconds(elapsed) + rest =~= lit_ela + x3);
    lemma_expect(lit_ela, x3);
    lemma_parse_seconds(elapsed, rest);
}

#[verifier::rlimit(100)]
#[verifier::spinoff_prover]
proof fn lemma_parse_result(r: RequestResult, rest: Seq<char>)
    ensures
        parse_result(emit_result(r) + rest) == Option::Some((to_parsed(r), rest)),
{
    reveal_strlit("{\"result\":\"");
    reveal_strlit("ok\",\"seq_no\":");
    reveal_strlit("error\",\"seq_no\":");
    reveal_strlit("{\"result\":\"ok\",\"seq_no\":");
    reveal_strlit("{\"result\":\"error\",\"seq_no\":");
    reveal_strlit(",\"response\":");
    reveal_strlit(",\"error\":{\"kind\":\"");
    reveal_strlit("Timeout\"}}");
    reveal_strlit("Other\"}}");
    reveal_strlit("Timeout");
    reveal_strlit("Other");
    reveal_strlit("\"}}");
    reveal_strlit("}");
    let head = "{\"result\":\""@;
    match r {
        RequestResult::Success { seq_no, end_time, elapsed, response } => {
            let lit_ok = "ok\",\"seq_no\":"@;
            let timing = spec_decimal(seq_no as nat) + ",\"end_time\":"@ + emit_seconds(end_time)
                + ",\"elapsed\":"@ + emit_seconds(elapsed);
            let tail_resp = ",\"response\":"@ + emit_response(response) + "}"@ + rest;
            let s = emit_result(r) + rest;
            assert(s =~= head + (lit_ok + (timing + tail_resp)));
            lemma_expect(head, lit_ok + (timing + tail_resp));
            assert((lit_ok + (timing + tail_resp)).first() == 'o');
            lemma_expect(lit_ok, timing + tail_resp);
            assert(tail_resp.first() == ',');
            assert(!is_digit(tail_resp.first()));
            assert(timing + tail_resp =~= spec_decimal(seq_no as nat) + ",\"end_time\":"@
                + emit_seconds(end_time) + ",\"elapsed\":"@ + emit_seconds(elapsed) + tail_resp);
            lemma_parse_timing(seq_no, end_time, elapsed, tail_resp);
            let x1 = emit_response(response) + ("}"@ + rest);
            assert(tail_resp =~= ",\"response\":"@ + x1);
            lemma_expect(",\"response\":"@, x1);
            lemma_parse_response(response, "}"@ + rest);
            lemma_expect("}"@, rest);
        }
        RequestResult::Failure { seq_no, end_time, elapsed, error } => {
            let lit_err = "error\",\"seq_no\":"@;
            let timing = spec_decimal(seq_no as nat) + ",\"end_time\":"@ + emit_seconds(end_time)
                + ",\"elapsed\":"@ + emit_seconds(elapsed);
            let tail_err = ",\"error\":{\"kind\":\""@ + emit_kind(error.kind) + "\"}}"@ + rest;
            let s = emit_result(r) + rest;
            assert(s =~= head + (lit_err + (timing + tail_err)));
            lemma_expect(head, lit_err + (timing + tail_err));
            assert((lit_err + (timing + tail_err)).first() == 'e');
            lemma_expect(lit_err, timing + tail_err);
            assert(tail_err.first() == ',');
            assert(!is_digit(tail_err.first()));
            assert(timing + tail_err =~= spec_decimal(seq_no as nat) + ",\"end_time\":"@
                + emit_seconds(end_time) + ",\"elapsed\":"@ + emit_seconds(elapsed) + tail_err);
            lemma_parse_timing(seq_no, end_time, elapsed, tail_err);
            let x1 = emit_kind(error.kind) + "\"}}"@ + rest;
            assert(tail_err =~= ",\"error\":{\"kind\":\""@ + x1);
            lemma_expect(",\"error\":{\"kind\":\""@, x1);
            match error.kind {
                ErrorKind::Timeout => {
                    assert(x1 =~= "Timeout\"}}"@ + rest);
                    assert(x1.first() == 'T');
                    lemma_expect("Timeout\"}}"@, rest);
                }
                ErrorKind::Other => {
                    assert(x1 =~= "Other\"}}"@ + rest);
                    assert(x1.first() == 'O' && x1.first() != 'T');
                    lemma_expect("Other\"}}"@, rest);
                }
            }
        }
    }
}

proof fn lemma_emit_result_len(r: RequestResult)
    ensures
        emit_result(r).len() >= 1,
{
    reveal_strlit("{\"result\":\"ok\",\"seq_no\":");
    reveal_strlit("{\"result\":\"error\",\"seq_no\":");
}

proof fn lemma_emit_items_len(rs: Seq<RequestResult>)
    ensures
        emit_items(rs).len() >= rs.len(),
    decreases rs.len(),
{
    if rs.len() == 0 {
    } else if rs.len() == 1 {
        lemma_emit_result_len(rs.first());
    } else {
        lemma_emit_result_len(rs.first());
        lemma_emit_items_len(rs.drop_first());
    }
}

#[verifier::rlimit(100)]
proof fn lemma_parse_items(rs: Seq<RequestResult>, rest: Seq<char>, fuel: nat)
    requires
        rs.len() > 0,
        fuel >= rs.len(),
        rest.len() > 0 ==> rest.first() != ',',
    ensures
        parse_items(emit_items(rs) + rest, fuel) == Option::Some(
            (rs.map_values(|r: RequestResult| to_parsed(r)), rest),
        ),
    decreases rs.len(),
{
    let mapped = rs.map_values(|r: RequestResult| to_parsed(r));
    if rs.len() == 1 {
        assert(emit_items(rs) + rest =~= emit_result(rs.first()) + rest);
        lemma_parse_result(rs.first(), rest);
        assert(mapped =~= seq![to_parsed(rs.first())]);
    } else {
        let tail = rs.drop_first();
        let inner = emit_items(tail) + rest;
        assert(emit_items(rs) + rest =~= emit_result(rs.first()) + (seq![','] + inner));
        lemma_parse_result(rs.first(), seq![','] + inner);
        assert((seq![','] + inner).first() == ',');
        assert((seq![','] + inner).drop_first() =~= inner);
        lemma_parse_items(tail, rest, (fuel - 1) as nat);
        assert(mapped =~= seq![to_parsed(rs.first())] + tail.map_values(
            |r: RequestResult| to_parsed(r),
        ));
    }
}

/// Law: JSON round trip. Parsing a serialized result list yields the same
/// list, field for field: sequence numbers, times, statuses and lengths
/// exactly, response content by its characters, and errors by their kind
/// (the human-readable message is kept for logging only and is not
/// serialized).
pub proof fn lemma_json_round_trip(rs: Seq<RequestResult>)
    ensures
        parse_results_text(emit_results(rs)) == Option::Some(
            rs.map_values(|r: RequestResult| to_parsed(r)),
        ),
{
    let s = emit_results(rs);
    if rs.len() == 0 {
        assert(s =~= seq!['[', ']']);
        assert(rs.map_values(|r: RequestResult| to_parsed(r)) =~= Seq::<ParsedResult>::empty());
    } else {
        lemma_emit_items_len(rs);
        assert(s.len() > 2);
        assert(s[0] == '[');
        assert(s.drop_first() =~= emit_items(rs) + seq![']']);
        lemma_parse_items(rs, seq![']'], s.len() as nat);
    }
}


// ---------- the executable reader ----------

/// The text's characters, for index-based scanning.
fn str_chars(s: &str) -> (r: Vec<char>)
    ensures
        r@ == s@,
{
    let n = s.unicode_len();
    let mut r: Vec<char> = Vec::new();
    let mut i: usize = 0;
    while i < n
        invariant
            i <= n,
            n == s@.len(),
            r@ =~= s@.take(i as int),
        decreases n - i,
    {
        r.push(s.get_char(i));
        i += 1;
    }
    proof {
        assert(s@.take(n as int) =~= s@);
    }
    r
}

fn exec_expect(s: &Vec<char>, i: usize, lit: &str) -> (r: Option<usize>)
    requires
        i <= s@.len(),
    ensures
        (match r {
            Option::Some(j) => i <= j <= s@.len() && expect(s@.skip(i as int), lit@)
                == Option::Some(s@.skip(j as int)),
            Option::None => expect(s@.skip(i as int), lit@) is None,
        }),
{
    let m = lit.unicode_len();
    let n = s.len();
    if m > n - i {
        proof {
            assert(s@.skip(i as int).len() < lit@.len());
        }
        return Option::None;
    }
    let mut k: usize = 0;
    while k < m
        invariant
            k <= m,
            m == lit@.len(),
            n == s@.len(),
            i <= n,
            m <= n - i,
            forall|j: int| 0 <= j < k ==> s@[i + j] == lit@[j],
        decreases m - k,
    {
        if s[i + k] != lit.get_char(k) {
            proof {
                assert(s@.skip(i as int).take(lit@.len() as int)[k as int] == s@[i + k]);
                assert(s@.skip(i as int).take(lit@.len() as int) != lit@);
            }
            return Option::None;
        }
        k += 1;
    }
    proof {
        assert(s@.skip(i as int).take(lit@.len() as int) =~= lit@);
        assert(s@.skip(i as int).skip(lit@.len() as int) =~= s@.skip(i as int + lit@.len()));
    }
    Option::Some(i + m)
}

fn exec_is_digit(c: char) -> (r: bool)
    ensures
        r == is_digit(c),
{
    '0' <= c && c <= '9'
}

/// Values never exceeding 64 bits are read exactly; a larger value reads as
/// nothing, as every later range check would reject it anyway.
fn exec_number(s: &Vec<char>, i: usize) -> (r: Option<(u64, usize)>)
    requires
        i <= s@.len(),
    ensures
        (match r {
            Option::Some((v, j)) => i < j <= s@.len() && parse_number(s@.skip(i as int))
                == Option::Some((v as nat, s@.skip(j as int))),
            Option::None => (match parse_number(s@.skip(i as int)) {
                Option::Some(p) => p.0 > u64::MAX,
                Option::None => true,
            }),
        }),
{
    let n = s.len();
    let ghost tail = s@.skip(i as int);
    if i >= n || !exec_is_digit(s[i]) {
        proof {
            if i < n {
                assert(tail.first() == s@[i as int]);
            }
            assert(digit_run_len(tail) == 0);
        }
        return Option::None;
    }
    let mut j: usize = i;
    let mut v: u64 = 0;
    let mut overflow = false;
    while j < n && exec_is_digit(s[j])
        invariant
            i <= j <= n,
            n == s@.len(),
            tail == s@.skip(i as int),
            forall|k: int| 0 <= k < j - i ==> is_digit(#[trigger] tail[k]),
            !overflow ==> v == val_of(tail.take(j - i)),
            overflow ==> val_of(tail.take(j - i)) > u64::MAX,
        decreases n - j,
    {
        let c = s[j];
        let d = (c as u32 - '0' as u32) as u64;
        proof {
            assert(tail[j - i] == s@[j as int]);
            assert(d == digit_val(c));
            assert(tail.take(j - i + 1).drop_last() =~= tail.take(j - i));
            assert(tail.take(j - i + 1).last() == tail[j - i]);
        }
        if overflow || v > (u64::MAX - d) / 10 {
            proof {
                if !overflow {
                    assert(val_of(tail.take(j - i + 1)) == v * 10 + d > u64::MAX) by (
                    nonlinear_arith)
                        requires
                            val_of(tail.take(j - i + 1)) == v * 10 + d,
                            v > (u64::MAX - d) / 10,
                            d < 10,
                    ;
                }
            }
            overflow = true;
        } else {
            v = v * 10 + d;
        }
        j += 1;
    }
    proof {
        let k = (j - i) as int;
        assert(tail.take(k).len() == k);
        assert(tail =~= tail.take(k) + tail.skip(k));
        if j < n {
            assert(tail.skip(k).first() == s@[j as int]);
        }
        lemma_digit_run(tail.take(k), tail.skip(k));
        assert(digit_run_len(tail) == k);
        assert(tail.take(k) =~= tail.take(digit_run_len(tail) as int));
        assert(tail.skip(k) =~= s@.skip(j as int));
        if overflow {
            lemma_val_of_take_le(tail.take(digit_run_len(tail) as int), k);
            assert(tail.take(digit_run_len(tail) as int).take(k) =~= tail.take(k));
        }
    }
    if overflow {
        Option::None
    } else {
        Option::Some((v, j))
    }
}

/// A digit prefix never exceeds the whole run's value.
proof fn lemma_val_of_take_le(ds: Seq<char>, j: int)
    requires
        0 <= j <= ds.len(),
    ensures
        val_of(ds.take(j)) <= val_of(ds),
    decreases ds.len() - j,
{
    if j == ds.len() {
        assert(ds.take(j) =~= ds);
    } else {
        lemma_val_of_take_le(ds, j + 1);
        assert(ds.take(j + 1).drop_last() =~= ds.take(j));
        let prefix = val_of(ds.take(j));
        let d = digit_val(ds.take(j + 1).last());
        assert(val_of(ds.take(j + 1)) == prefix * 10 + d);
        assert(prefix * 10 + d >= prefix) by (nonlinear_arith)
            requires
                prefix >= 0,
                d >= 0,
        ;
    }
}

fn exec_fixed9(s: &Vec<char>, i: usize) -> (r: Option<(u64, usize)>)
    requires
        i <= s@.len(),
    ensures
        (match r {
            Option::Some((v, j)) => i <= j <= s@.len() && v < NANOS_PER_SEC && parse_fixed9(
                s@.skip(i as int),
            ) == Option::Some((v as nat, s@.skip(j as int))),
            Option::None => parse_fixed9(s@.skip(i as int)) is None,
        }),
{
    let n = s.len();
    let ghost tail = s@.skip(i as int);
    if n - i < 9 {
        return Option::None;
    }
    let mut k: usize = 0;
    let mut v: u64 = 0;
    while k < 9
        invariant
            k <= 9,
            i + 9 <= n,
            n == s@.len(),
            tail == s@.skip(i as int),
            forall|x: int| 0 <= x < k ==> is_digit(#[trigger] tail[x]),
            v == val_of(tail.take(k as int)),
            v < pow10(k as nat),
        decreases 9 - k,
    {
        let c = s[i + k];
        if !exec_is_digit(c) {
            proof {
                assert(tail[k as int] == s@[i + k]);
            }
            return Option::None;
        }
        let d = (c as u32 - '0' as u32) as u64;
        proof {
            assert(tail[k as int] == s@[i + k]);
            assert(d == digit_val(c));
            assert(tail.take(k as int + 1).drop_last() =~= tail.take(k as int));
            assert(tail.take(k as int + 1).last() == tail[k as int]);
            assert(pow10((k + 1) as nat) == 10 * pow10(k as nat));
            assert(v * 10 + d < pow10((k + 1) as nat)) by (nonlinear_arith)
                requires
                    v < pow10(k as nat),
                    d < 10,
                    pow10((k + 1) as nat) == 10 * pow10(k as nat),
            ;
            assert(pow10(9) == NANOS_PER_SEC) by {
                reveal_with_fuel(pow10, 10);
            }
            assert(pow10(k as nat + 1) <= pow10(9)) by {
                lemma_pow10_le(k as nat + 1, 9);
            }
        }
        v = v * 10 + d;
        k += 1;
    }
    proof {
        assert(pow10(9) == NANOS_PER_SEC) by {
            reveal_with_fuel(pow10, 10);
        }
        assert(tail.len() >= 9);
        assert(tail.skip(9) =~= s@.skip(i as int + 9));
    }
    Option::Some((v, i + 9))
}

proof fn lemma_pow10_le(a: nat, b: nat)
    requires
        a <= b,
    ensures
        pow10(a) <= pow10(b),
    decreases b,
{
    if a < b {
        lemma_pow10_le(a, (b - 1) as nat);
        assert(pow10(b) == 10 * pow10((b - 1) as nat));
        assert(pow10((b - 1) as nat) <= 10 * pow10((b - 1) as nat)) by (nonlinear_arith)
            requires
                pow10((b - 1) as nat) >= 0,
        ;
    }
}

fn exec_seconds(s: &Vec<char>, i: usize) -> (r: Option<(Seconds, usize)>)
    requires
        i <= s@.len(),
    ensures
        (match r {
            Option::Some((sec, j)) => i <= j <= s@.len() && parse_seconds(s@.skip(i as int))
                == Option::Some((sec, s@.skip(j as int))),
            Option::None => parse_seconds(s@.skip(i as int)) is None,
        }),
{
    let ghost tail = s@.skip(i as int);
    match exec_number(s, i) {
        Option::None => {
            proof {
                if parse_number(tail) is Some {
                    let p = parse_number(tail).unwrap();
                    assert(p.0 > u64::MAX);
                    assert(p.0 * (NANOS_PER_SEC as nat) >= p.0) by (nonlinear_arith)
                        requires
                            p.0 >= 0,
                    ;
                }
            }
            Option::None
        }
        Option::Some((secs, j1)) => {
            match exec_expect(s, j1, ".") {
                Option::None => {
                    proof {
                        reveal_strlit(".");
                        assert("."@ =~= seq!['.']);
                    }
                    Option::None
                }
                Option::Some(j2) => {
                    proof {
                        reveal_strlit(".");
                        assert("."@ =~= seq!['.']);
                    }
                    match exec_fixed9(s, j2) {
                        Option::None => Option::None,
                        Option::Some((frac, j3)) => {
                            let nanos128 = secs as u128 * (NANOS_PER_SEC as u128)
                                + frac as u128;
                            proof {
                                assert(secs as nat * (NANOS_PER_SEC as nat) + frac as nat
                                    == nanos128) by (nonlinear_arith)
                                    requires
                                        nanos128 == secs as u128 * (NANOS_PER_SEC as u128)
                                            + frac as u128,
                                ;
                            }
                            if nanos128 <= u64::MAX as u128 {
                                Option::Some((Seconds { nanos: nanos128 as u64 }, j3))
                            } else {
                                Option::None
                            }
                        }
                    }
                }
            }
        }
    }
}


fn exec_is_hex(c: char) -> (r: bool)
    ensures
        r == is_hex(c),
{
    exec_is_digit(c) || ('a' <= c && c <= 'f')
}

fn exec_hex_val(c: char) -> (r: u32)
    requires
        is_hex(c),
    ensures
        r == hex_val(c),
        r < 16,
{
    if exec_is_digit(c) {
        c as u32 - '0' as u32
    } else {
        c as u32 - 'a' as u32 + 10
    }
}

fn exec_string_body(s: &Vec<char>, i: usize) -> (r: Option<(String, usize)>)
    requires
        i <= s@.len(),
    ensures
        (match parse_string_body(s@.skip(i as int)) {
            Option::Some(p) => (match r {
                Option::Some((out, j)) => out@ == p.0 && i < j <= s@.len() && p.1 == s@.skip(
                    j as int,
                ),
                Option::None => false,
            }),
            Option::None => r is None,
        }),
    decreases s@.len() - i,
{
    let n = s.len();
    let ghost tail = s@.skip(i as int);
    if i >= n {
        return Option::None;
    }
    let c = s[i];
    proof {
        assert(tail.first() == s@[i as int]);
    }
    if c == '"' {
        proof {
            assert(tail.drop_first() =~= s@.skip(i as int + 1));
        }
        return Option::Some((String::new(), i + 1));
    }
    if c == '\\' {
        if i + 1 >= n {
            proof {
                assert(tail.len() < 2);
            }
            return Option::None;
        }
        let e = s[i + 1];
        proof {
            assert(tail[1] == s@[i as int + 1]);
        }
        if e == '"' || e == '\\' {
            proof {
                assert(tail.skip(2) =~= s@.skip(i as int + 2));
            }
            match exec_string_body(s, i + 2) {
                Option::Some((t, j)) => {
                    let mut out = String::new();
                    push_char(&mut out, e);
                    out.append(t.as_str());
                    proof {
                        assert(out@ =~= seq![tail[1]] + t@);
                    }
                    Option::Some((out, j))
                }
                Option::None => Option::None,
            }
        } else if e == 'u' {
            if n - i < 6 {
                proof {
                    assert(tail.len() < 6);
                }
                return Option::None;
            }
            proof {
                assert(tail[2] == s@[i as int + 2]);
                assert(tail[3] == s@[i as int + 3]);
                assert(tail[4] == s@[i as int + 4]);
                assert(tail[5] == s@[i as int + 5]);
            }
            if s[i + 2] != '0' || s[i + 3] != '0' {
                return Option::None;
            }
            if !exec_is_hex(s[i + 4]) || !exec_is_hex(s[i + 5]) {
                return Option::None;
            }
            let v = 16 * exec_hex_val(s[i + 4]) + exec_hex_val(s[i + 5]);
            let ch = (v as u8) as char;
            proof {
                assert(ch == (((16 * hex_val(tail[4]) + hex_val(tail[5])) as u32) as char));
                assert(tail.skip(6) =~= s@.skip(i as int + 6));
            }
            match exec_string_body(s, i + 6) {
                Option::Some((t, j)) => {
                    let mut out = String::new();
                    push_char(&mut out, ch);
                    out.append(t.as_str());
                    proof {
                        assert(out@ =~= seq![((16 * hex_val(tail[4]) + hex_val(tail[5])) as u32)
                            as char] + t@);
                    }
                    Option::Some((out, j))
                }
                Option::None => Option::None,
            }
        } else {
            Option::None
        }
    } else {
        proof {
            assert(tail.drop_first() =~= s@.skip(i as int + 1));
        }
        match exec_string_body(s, i + 1) {
            Option::Some((t, j)) => {
                let mut out = String::new();
                push_char(&mut out, c);
                out.append(t.as_str());
                proof {
                    assert(out@ =~= seq![tail.first()] + t@);
                }
                Option::Some((out, j))
            }
            Option::None => Option::None,
        }
    }
}

fn exec_response(s: &Vec<char>, i: usize) -> (r: Option<(Response, usize)>)
    requires
        i <= s@.len(),
    ensures
        (match parse_response(s@.skip(i as int)) {
            Option::Some(p) => (match r {
                Option::Some((resp, j)) => {
                    &&& i <= j <= s@.len()
                    &&& p.1 == s@.skip(j as int)
                    &&& resp.status == p.0.status
                    &&& resp.content_length == p.0.content_length
                    &&& (match (resp.content, p.0.content) {
                        (Option::Some(a), Option::Some(b)) => a@ == b,
                        (Option::None, Option::None) => true,
                        _ => false,
                    })
                },
                Option::None => false,
            }),
            Option::None => r is None,
        }),
{
    let n = s.len();
    let Option::Some(j1) = exec_expect(s, i, "{\"status\":") else { return Option::None };
    let Option::Some((st, j2)) = exec_number(s, j1) else {
        proof {
            let r1 = s@.skip(j1 as int);
            if parse_number(r1) is Some {
                let p = parse_number(r1).unwrap();
                assert(p.0 > u64::MAX && p.0 > u16::MAX);
            }
        }
        return Option::None;
    };
    if st > u16::MAX as u64 {
        return Option::None;
    }
    let Option::Some(j3) = exec_expect(s, j2, ",\"content_length\":") else { return Option::None };
    let Option::Some((cl, j4)) = exec_number(s, j3) else {
        proof {
            let r3 = s@.skip(j3 as int);
            if parse_number(r3) is Some {
                let p = parse_number(r3).unwrap();
                assert(p.0 > u64::MAX);
            }
        }
        return Option::None;
    };
    proof {
        assert(s@.skip(j4 as int).len() > 0 ==> s@.skip(j4 as int).first() == s@[j4 as int]);
    }
    if j4 < n && s[j4] == '}' {
        proof {
            assert(s@.skip(j4 as int).drop_first() =~= s@.skip(j4 as int + 1));
        }
        return Option::Some(
            (Response { status: st as u16, content_length: cl, content: Option::None }, j4 + 1),
        );
    }
    let Option::Some(j5) = exec_expect(s, j4, ",\"content\":") else { return Option::None };
    proof {
        assert(s@.skip(j5 as int).len() > 0 ==> s@.skip(j5 as int).first() == s@[j5 as int]);
    }
    if !(j5 < n && s[j5] == '"') {
        return Option::None;
    }
    proof {
        assert(s@.skip(j5 as int).drop_first() =~= s@.skip(j5 as int + 1));
    }
    let Option::Some((txt, j6)) = exec_string_body(s, j5 + 1) else { return Option::None };
    let Option::Some(j7) = exec_expect(s, j6, "}") else { return Option::None };
    Option::Some(
        (Response { status: st as u16, content_length: cl, content: Option::Some(txt) }, j7),
    )
}

fn exec_timing(s: &Vec<char>, i: usize) -> (r: Option<(usize, Seconds, Seconds, usize)>)
    requires
        i <= s@.len(),
    ensures
        (match parse_timing(s@.skip(i as int)) {
            Option::Some(p) => (match r {
                Option::Some((seq_no, end_time, elapsed, j)) => {
                    &&& i <= j <= s@.len()
                    &&& seq_no == p.0
                    &&& end_time == p.1
                    &&& elapsed == p.2
                    &&& p.3 == s@.skip(j as int)
                },
                Option::None => false,
            }),
            Option::None => r is None,
        }),
{
    let Option::Some((seq_no, j1)) = exec_number(s, i) else {
        proof {
            let r0 = s@.skip(i as int);
            if parse_number(r0) is Some {
                let p = parse_number(r0).unwrap();
                assert(p.0 > u64::MAX && p.0 > usize::MAX);
            }
        }
        return Option::None;
    };
    if seq_no > usize::MAX as u64 {
        return Option::None;
    }
    let Option::Some(j2) = exec_expect(s, j1, ",\"end_time\":") else { return Option::None };
    let Option::Some((end_time, j3)) = exec_seconds(s, j2) else { return Option::None };
    let Option::Some(j4) = exec_expect(s, j3, ",\"elapsed\":") else { return Option::None };
    let Option::Some((elapsed, j5)) = exec_seconds(s, j4) else { return Option::None };
    Option::Some((seq_no as usize, end_time, elapsed, j5))
}

/// Reads one result object. A failure reads back with its kind and an empty
/// message, the only part of an error that is serialized.
fn exec_result(s: &Vec<char>, i: usize) -> (r: Option<(RequestResult, usize)>)
    requires
        i <= s@.len(),
    ensures
        (match parse_result(s@.skip(i as int)) {
            Option::Some(p) => (match r {
                Option::Some((res, j)) => {
                    &&& i < j <= s@.len()
                    &&& to_parsed(res) == p.0
                    &&& p.1 == s@.skip(j as int)
                },
                Option::None => false,
            }),
            Option::None => r is None,
        }),
{
    let n = s.len();
    let Option::Some(j1) = exec_expect(s, i, "{\"result\":\"") else { return Option::None };
    proof {
        reveal_strlit("{\"result\":\"");
        assert(s@.skip(j1 as int).len() > 0 ==> s@.skip(j1 as int).first() == s@[j1 as int]);
    }
    if j1 < n && s[j1] == 'o' {
        let Option::Some(j2) = exec_expect(s, j1, "ok\",\"seq_no\":") else { return Option::None };
        let Option::Some((seq_no, end_time, elapsed, j3)) = exec_timing(s, j2) else {
            return Option::None;
        };
        let Option::Some(j4) = exec_expect(s, j3, ",\"response\":") else { return Option::None };
        let Option::Some((response, j5)) = exec_response(s, j4) else { return Option::None };
        let Option::Some(j6) = exec_expect(s, j5, "}") else { return Option::None };
        Option::Some((RequestResult::Success { seq_no, end_time, elapsed, response }, j6))
    } else {
        let Option::Some(j2) = exec_expect(s, j1, "error\",\"seq_no\":") else {
            return Option::None;
        };
        let Option::Some((seq_no, end_time, elapsed, j3)) = exec_timing(s, j2) else {
            return Option::None;
        };
        let Option::Some(j4) = exec_expect(s, j3, ",\"error\":{\"kind\":\"") else {
            return Option::None;
        };
        proof {
            assert(s@.skip(j4 as int).len() > 0 ==> s@.skip(j4 as int).first() == s@[j4 as int]);
        }
        if j4 < n && s[j4] == 'T' {
            let Option::Some(j5) = exec_expect(s, j4, "Timeout\"}}") else { return Option::None };
            let error = Error::new(ErrorKind::Timeout, String::new());
            Option::Some((RequestResult::Failure { seq_no, end_time, elapsed, error }, j5))
        } else {
            let Option::Some(j5) = exec_expect(s, j4, "Other\"}}") else { return Option::None };
            let error = Error::new(ErrorKind::Other, String::new());
            Option::Some((RequestResult::Failure { seq_no, end_time, elapsed, error }, j5))
        }
    }
}


// ---------- list reading ----------

proof fn lemma_digit_run_le(s: Seq<char>)
    ensures
        digit_run_len(s) <= s.len(),
    decreases s.len(),
{
    if s.len() > 0 && is_digit(s.first()) {
        lemma_digit_run_le(s.drop_first());
    }
}

proof fn lemma_number_consumes(s: Seq<char>)
    ensures
        (match parse_number(s) {
            Option::Some(p) => p.1.len() < s.len(),
            Option::None => true,
        }),
{
    lemma_digit_run_le(s);
}

proof fn lemma_string_body_consumes(s: Seq<char>)
    ensures
        (match parse_string_body(s) {
            Option::Some(p) => p.1.len() < s.len(),
            Option::None => true,
        }),
    decreases s.len(),
{
    if s.len() > 0 && s.first() != '"' {
        if s.first() == '\\' {
            if s.len() >= 2 && (s[1] == '"' || s[1] == '\\') {
                lemma_string_body_consumes(s.skip(2));
            } else if s.len() >= 6 && s[1] == 'u' && s[2] == '0' && s[3] == '0' && is_hex(s[4])
                && is_hex(s[5]) {
                lemma_string_body_consumes(s.skip(6));
            }
        } else {
            lemma_string_body_consumes(s.drop_first());
        }
    }
}

proof fn lemma_seconds_consumes(s: Seq<char>)
    ensures
        (match parse_seconds(s) {
            Option::Some(p) => p.1.len() < s.len(),
            Option::None => true,
        }),
{
    lemma_number_consumes(s);
}

proof fn lemma_response_consumes(s: Seq<char>)
    ensures
        (match parse_response(s) {
            Option::Some(p) => p.1.len() < s.len(),
            Option::None => true,
        }),
{
    reveal_strlit("{\"status\":");
    lemma_number_consumes(s);
    match expect(s, "{\"status\":"@) {
        Option::Some(r1) => {
            lemma_number_consumes(r1);
            match parse_number(r1) {
                Option::Some((st, r2)) => {
                    match expect(r2, ",\"content_length\":"@) {
                        Option::Some(r3) => {
                            lemma_number_consumes(r3);
                            match parse_number(r3) {
                                Option::Some((cl, r4)) => {
                                    match expect(r4, ",\"content\":"@) {
                                        Option::Some(r5) => {
                                            match parse_string(r5) {
                                                Option::Some((txt, r6)) => {
                                                    if r5.len() >= 1 && r5.first() == '"' {
                                                        lemma_string_body_consumes(
                                                            r5.drop_first(),
                                                        );
                                                    }
                                                }
                                                Option::None => {}
                                            }
                                        }
                                        Option::None => {}
                                    }
                                }
                                Option::None => {}
                            }
                        }
                        Option::None => {}
                    }
                }
                Option::None => {}
            }
        }
        Option::None => {}
    }
}

proof fn lemma_timing_consumes(s: Seq<char>)
    ensures
        (match parse_timing(s) {
            Option::Some(p) => p.3.len() < s.len(),
            Option::None => true,
        }),
{
    lemma_number_consumes(s);
    match parse_number(s) {
        Option::Some((seq_no, r1)) => {
            match expect(r1, ",\"end_time\":"@) {
                Option::Some(r2) => {
                    lemma_seconds_consumes(r2);
                    match parse_seconds(r2) {
                        Option::Some((end_time, r3)) => {
                            match expect(r3, ",\"elapsed\":"@) {
                                Option::Some(r4) => {
                                    lemma_seconds_consumes(r4);
                                }
                                Option::None => {}
                            }
                        }
                        Option::None => {}
                    }
                }
                Option::None => {}
            }
        }
        Option::None => {}
    }
}

proof fn lemma_result_consumes(s: Seq<char>)
    ensures
        (match parse_result(s) {
            Option::Some(p) => p.1.len() < s.len(),
            Option::None => true,
        }),
{
    reveal_strlit("{\"result\":\"");
    match expect(s, "{\"result\":\""@) {
        Option::Some(r1) => {
            if r1.len() > 0 && r1.first() == 'o' {
                match expect(r1, "ok\",\"seq_no\":"@) {
                    Option::Some(r2) => {
                        lemma_timing_consumes(r2);
                        match parse_timing(r2) {
                            Option::Some((seq_no, end_time, elapsed, r3)) => {
                                match expect(r3, ",\"response\":"@) {
                                    Option::Some(r4) => {
                                        lemma_response_consumes(r4);
                                    }
                                    Option::None => {}
                                }
                            }
                            Option::None => {}
                        }
                    }
                    Option::None => {}
                }
            } else {
                match expect(r1, "error\",\"seq_no\":"@) {
                    Option::Some(r2) => {
                        lemma_timing_consumes(r2);
                    }
                    Option::None => {}
                }
            }
        }
        Option::None => {}
    }
}

/// Any item-count bound beyond the text's length reads the same items.
proof fn lemma_items_fuel(s: Seq<char>, f1: nat, f2: nat)
    requires
        f1 > s.len(),
        f2 > s.len(),
    ensures
        parse_items(s, f1) == parse_items(s, f2),
    decreases s.len(),
{
    lemma_result_consumes(s);
    match parse_result(s) {
        Option::Some((r, rest)) => {
            if rest.len() > 0 && rest.first() == ',' {
                lemma_items_fuel(rest.drop_first(), (f1 - 1) as nat, (f2 - 1) as nat);
            }
        }
        Option::None => {}
    }
}

fn exec_items(s: &Vec<char>, i: usize) -> (r: Option<(Vec<RequestResult>, usize)>)
    requires
        i <= s@.len(),
    ensures
        (match parse_items(s@.skip(i as int), (s@.len() - i + 1) as nat) {
            Option::Some(p) => (match r {
                Option::Some((v, j)) => {
                    &&& i <= j <= s@.len()
                    &&& p.1 == s@.skip(j as int)
                    &&& v@.len() == p.0.len()
                    &&& forall|k: int|
                        0 <= k < p.0.len() ==> to_parsed(#[trigger] v@[k]) == p.0[k]
                },
                Option::None => false,
            }),
            Option::None => r is None,
        }),
    decreases s@.len() - i,
{
    let n = s.len();
    let ghost fuel = (s@.len() - i + 1) as nat;
    let Option::Some((res, j)) = exec_result(s, i) else { return Option::None };
    proof {
        assert(s@.skip(j as int).len() > 0 ==> s@.skip(j as int).first() == s@[j as int]);
    }
    if j < n && s[j] == ',' {
        proof {
            assert(s@.skip(j as int).drop_first() =~= s@.skip(j as int + 1));
            lemma_items_fuel(s@.skip(j as int + 1), (fuel - 1) as nat, (s@.len() - (j + 1)
                + 1) as nat);
        }
        let Option::Some((tail, j2)) = exec_items(s, j + 1) else { return Option::None };
        let ghost tailview = tail@;
        let mut v = tail;
        v.insert(0, res);
        proof {
            assert(v@ =~= seq![res] + tailview);
            let p = parse_items(s@.skip(i as int), fuel).unwrap();
            assert forall|k: int| 0 <= k < p.0.len() implies to_parsed(#[trigger] v@[k])
                == p.0[k] by {
                if k > 0 {
                    assert(v@[k] == tailview[k - 1]);
                }
            }
        }
        Option::Some((v, j2))
    } else {
        let mut v: Vec<RequestResult> = Vec::new();
        v.push(res);
        proof {
            let p = parse_items(s@.skip(i as int), fuel).unwrap();
            assert(p.0 =~= seq![to_parsed(res)]);
        }
        Option::Some((v, j))
    }
}

/// Reads a whole result list in the writer's canonical shape; anything else
/// is rejected. A failure comes back with an empty message, the only part of
/// an error that is not serialized.
pub fn results_from_json(text: &str) -> (r: Option<Vec<RequestResult>>)
    ensures
        (match parse_results_text(text@) {
            Option::Some(ps) => (match r {
                Option::Some(v) => v@.len() == ps.len() && forall|k: int|
                    0 <= k < ps.len() ==> to_parsed(#[trigger] v@[k]) == ps[k],
                Option::None => false,
            }),
            Option::None => r is None,
        }),
{
    let s = str_chars(text);
    let n = s.len();
    if n == 2 && s[0] == '[' && s[1] == ']' {
        proof {
            assert(text@[0] == '[' && text@[1] == ']');
        }
        return Option::Some(Vec::new());
    }
    if n <= 2 || s[0] != '[' {
        return Option::None;
    }
    proof {
        assert(s@.skip(1) =~= text@.drop_first());
        assert((s@.len() - 1 + 1) as nat == text@.len());
    }
    let Option::Some((v, j)) = exec_items(&s, 1) else { return Option::None };
    if j == n - 1 && s[j] == ']' {
        proof {
            assert(s@.skip(j as int) =~= seq![']']);
        }
        Option::Some(v)
    } else {
        proof {
            let p = parse_items(text@.drop_first(), text@.len());
            if p is Some {
                let rest = p.unwrap().1;
                assert(rest == s@.skip(j as int));
                if rest == seq![']'] {
                    assert(rest.len() == 1);
                    assert(s@[j as int] == rest[0]);
                }
            }
        }
        Option::None
    }
}

} // verus!
