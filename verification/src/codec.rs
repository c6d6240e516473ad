//! Decoding the snapshot format, at the specification level: a parser
//! for the text that `snapshot_json_spec` produces, and the proof that
//! decoding a snapshot yields exactly the records that were encoded.

use crate::json::{
    dec_digits, digit_char, entries_json, entry_json, escape_char, escape_string, hex_char,
    quoted, snapshot_json_spec,
};
use crate::store::UserView;
use vstd::prelude::*;

verus! {

/// The value of a decimal digit character, if it is one.
pub open spec fn digit_val(c: char) -> Option<nat> {
    if c == '0' {
        Some(0 as nat)
    } else if c == '1' {
        Some(1 as nat)
    } else if c == '2' {
        Some(2 as nat)
    } else if c == '3' {
        Some(3 as nat)
    } else if c == '4' {
        Some(4 as nat)
    } else if c == '5' {
        Some(5 as nat)
    } else if c == '6' {
        Some(6 as nat)
    } else if c == '7' {
        Some(7 as nat)
    } else if c == '8' {
        Some(8 as nat)
    } else if c == '9' {
        Some(9 as nat)
    } else {
        None
    }
}

/// The value of a lower-case hexadecimal digit character, if it is one.
pub open spec fn hex_val(c: char) -> Option<nat> {
    if c == 'a' {
        Some(10 as nat)
    } else if c == 'b' {
        Some(11 as nat)
    } else if c == 'c' {
        Some(12 as nat)
    } else if c == 'd' {
        Some(13 as nat)
    } else if c == 'e' {
        Some(14 as nat)
    } else if c == 'f' {
        Some(15 as nat)
    } else {
        digit_val(c)
    }
}

/// Whether `t` begins with `p`.
pub open spec fn starts_with(t: Seq<char>, p: Seq<char>) -> bool {
    p.len() <= t.len() && t.take(p.len() as int) == p
}

/// Consumes `p` from the front of `t`.
pub open spec fn parse_lit(t: Seq<char>, p: Seq<char>) -> Option<Seq<char>> {
    if starts_with(t, p) {
        Some(t.skip(p.len() as int))
    } else {
        None
    }
}

/// Consumes the leading run of decimal digits, accumulating their value.
pub open spec fn parse_dec_rec(t: Seq<char>, acc: nat) -> (nat, Seq<char>)
    decreases t.len(),
{
    if t.len() > 0 && digit_val(t[0]) is Some {
        parse_dec_rec(t.drop_first(), acc * 10 + digit_val(t[0])->Some_0)
    } else {
        (acc, t)
    }
}

/// Consumes a decimal number: at least one digit.
pub open spec fn parse_dec(t: Seq<char>) -> Option<(nat, Seq<char>)> {
    if t.len() > 0 && digit_val(t[0]) is Some {
        Some(parse_dec_rec(t, 0))
    } else {
        None
    }
}

/// Consumes the body and the closing quote of a JSON string, undoing the
/// escapes that `escape_string` introduces.
pub open spec fn parse_str_body(t: Seq<char>) -> Option<(Seq<char>, Seq<char>)>
    decreases t.len(),
{
    if t.len() == 0 {
        None
    } else if t[0] == '"' {
        Some((Seq::empty(), t.drop_first()))
    } else if t[0] == '\\' {
        if t.len() < 2 {
            None
        } else if t[1] == '"' || t[1] == '\\' || t[1] == 'n' || t[1] == 'r' || t[1] == 't' {
            let c = if t[1] == '"' {
                '"'
            } else if t[1] == '\\' {
                '\\'
            } else if t[1] == 'n' {
                '\n'
            } else if t[1] == 'r' {
                '\r'
            } else {
                '\t'
            };
            match parse_str_body(t.skip(2)) {
                Some(p) => Some((seq![c] + p.0, p.1)),
                None => None,
            }
        } else if t[1] == 'u' && t.len() >= 6 && hex_val(t[2]) is Some && hex_val(t[3]) is Some
            && hex_val(t[4]) is Some && hex_val(t[5]) is Some {
            let v = ((hex_val(t[2])->Some_0 * 16 + hex_val(t[3])->Some_0) * 16 + hex_val(
                t[4],
            )->Some_0) * 16 + hex_val(t[5])->Some_0;
            match parse_str_body(t.skip(6)) {
                Some(p) => Some((seq![(v as u32) as char] + p.0, p.1)),
                None => None,
            }
        } else {
            None
        }
    } else {
        match parse_str_body(t.drop_first()) {
            Some(p) => Some((seq![t[0]] + p.0, p.1)),
            None => None,
        }
    }
}

/// Consumes a whole JSON string, quotes included.
pub open spec fn parse_quoted(t: Seq<char>) -> Option<(Seq<char>, Seq<char>)> {
    if t.len() > 0 && t[0] == '"' {
        parse_str_body(t.drop_first())
    } else {
        None
    }
}

/// Consumes one snapshot entry; the id under the key and the id field
/// must agree and fit the id type.
pub open spec fn parse_entry(t: Seq<char>) -> Option<(UserView, Seq<char>)> {
    match parse_lit(t, "  \""@) {
        None => None,
        Some(t1) => match parse_dec(t1) {
            None => None,
            Some((key, t2)) => match parse_lit(t2, "\": {\n    \"id\": "@) {
                None => None,
                Some(t3) => match parse_dec(t3) {
                    None => None,
                    Some((idn, t4)) => if idn != key || idn > u32::MAX {
                        None
                    } else {
                        match parse_lit(t4, ",\n    \"username\": "@) {
                            None => None,
                            Some(t5) => match parse_quoted(t5) {
                                None => None,
                                Some((username, t6)) => match parse_lit(
                                    t6,
                                    ",\n    \"email\": "@,
                                ) {
                                    None => None,
                                    Some(t7) => match parse_quoted(t7) {
                                        None => None,
                                        Some((email, t8)) => match parse_lit(
                                            t8,
                                            ",\n    \"secret\": "@,
                                        ) {
                                            None => None,
                                            Some(t9) => match parse_quoted(t9) {
                                                None => None,
                                                Some((secret, t10)) => match parse_lit(
                                                    t10,
                                                    "\n  }"@,
                                                ) {
                                                    None => None,
                                                    Some(t11) => Some(
                                                        (
                                                            UserView {
                                                                id: idn as u32,
                                                                username,
                                                                email,
                                                                secret,
                                                            },
                                                            t11,
                                                        ),
                                                    ),
                                                },
                                            },
                                        },
                                    },
                                },
                            },
                        }
                    },
                },
            },
        },
    }
}

/// Consumes one or more snapshot entries separated by a comma and a line
/// break.
pub open spec fn parse_entries(t: Seq<char>) -> Option<(Seq<UserView>, Seq<char>)>
    decreases t.len(),
{
    match parse_entry(t) {
        None => None,
        Some((u, rest)) => if starts_with(rest, ",\n"@) {
            let tail = rest.skip(",\n"@.len() as int);
            if tail.len() < t.len() {
                match parse_entries(tail) {
                    Some((us, r)) => Some((seq![u] + us, r)),
                    None => None,
                }
            } else {
                None
            }
        } else {
            Some((seq![u], rest))
        },
    }
}

/// Decodes a full snapshot back to the records it shows, in their order.
pub open spec fn parse_snapshot(t: Seq<char>) -> Option<Seq<UserView>> {
    if t == "{}"@ {
        Some(Seq::empty())
    } else {
        match parse_lit(t, "{\n"@) {
            None => None,
            Some(t1) => match parse_entries(t1) {
                None => None,
                Some((us, rest)) => if rest == "\n}"@ {
                    Some(us)
                } else {
                    None
                },
            },
        }
    }
}

/// A prefix placed before arbitrary text is consumed as that prefix.
proof fn lemma_parse_lit_prefix(p: Seq<char>, x: Seq<char>)
    ensures
        parse_lit(p + x, p) == Some(x),
{
    assert((p + x).take(p.len() as int) =~= p);
    assert((p + x).skip(p.len() as int) =~= x);
}

/// The decimal digit characters carry their digit values.
proof fn lemma_digit_val(d: nat)
    requires
        d < 10,
    ensures
        digit_val(digit_char(d)) == Some(d),
{
}

/// The hexadecimal digit characters carry their digit values.
proof fn lemma_hex_val(d: nat)
    requires
        d < 16,
    ensures
        hex_val(hex_char(d)) == Some(d),
{
}

/// `escape_string` unfolded at the front instead of the back.
proof fn lemma_escape_string_front(s: Seq<char>)
    requires
        s.len() > 0,
    ensures
        escape_string(s) == escape_char(s[0]) + escape_string(s.drop_first()),
    decreases s.len(),
{
    if s.len() == 1 {
        assert(s.drop_last() =~= Seq::<char>::empty());
        assert(s.drop_first() =~= Seq::<char>::empty());
        assert(escape_string(s) =~= escape_char(s[0]) + escape_string(s.drop_first()));
    } else {
        let t = s.drop_last();
        lemma_escape_string_front(t);
        assert(s.drop_first().drop_last() =~= t.drop_first());
        assert(s.drop_first().last() == s.last());
        assert(t[0] == s[0]);
        assert(escape_string(s) =~= escape_char(s[0]) + escape_string(s.drop_first()));
    }
}

/// An escaped text followed by the closing quote parses back to the
/// original text.
proof fn lemma_parse_escaped(s: Seq<char>, rest: Seq<char>)
    ensures
        parse_str_body(escape_string(s) + seq!['"'] + rest) == Some((s, rest)),
    decreases s.len(),
{
    let t = escape_string(s) + seq!['"'] + rest;
    if s.len() == 0 {
        assert(t[0] == '"');
        assert(t.drop_first() =~= rest);
    } else {
        lemma_escape_string_front(s);
        let c = s[0];
        let s1 = s.drop_first();
        let e = escape_char(c);
        let tail = escape_string(s1) + seq!['"'] + rest;
        assert(t =~= e + tail);
        lemma_parse_escaped(s1, rest);
        assert(seq![c] + s1 =~= s);
        if c == '"' || c == '\\' || c == '\n' || c == '\r' || c == '\t' {
            assert(t[0] == '\\');
            assert(t.skip(2) =~= tail);
        } else {
            let code = c as u32;
            if code < 32 {
                assert(t[0] == '\\');
                assert(t[1] == 'u');
                assert(t[2] == '0');
                assert(t[3] == '0');
                assert(t[4] == hex_char((code / 16) as nat));
                assert(t[5] == hex_char((code % 16) as nat));
                lemma_hex_val((code / 16) as nat);
                lemma_hex_val((code % 16) as nat);
                let v = ((hex_val(t[2])->Some_0 * 16 + hex_val(t[3])->Some_0) * 16 + hex_val(
                    t[4],
                )->Some_0) * 16 + hex_val(t[5])->Some_0;
                assert(v == 16 * (code / 16) + code % 16);
                assert(v == code);
                vstd::utf8::char_u32_cast(c, code);
                assert((v as u32) as char == c);
                assert(t.skip(6) =~= tail);
            } else {
                assert(t[0] == c);
                assert(t.drop_first() =~= tail);
            }
        }
    }
}

/// A quoted text parses back to the original text.
proof fn lemma_parse_quoted(s: Seq<char>, rest: Seq<char>)
    ensures
        parse_quoted(quoted(s) + rest) == Some((s, rest)),
{
    let t = quoted(s) + rest;
    assert(t[0] == '"');
    assert(t.drop_first() =~= escape_string(s) + seq!['"'] + rest);
    lemma_parse_escaped(s, rest);
}

/// The weight of the digits of a number: ten to their count.
spec fn pow10_digits(n: nat) -> nat
    decreases n,
{
    if n < 10 {
        10
    } else {
        10 * pow10_digits(n / 10)
    }
}

/// Consuming the digits of `n` multiplies the accumulator by their
/// weight and adds `n`.
proof fn lemma_parse_dec_rec(n: nat, rest: Seq<char>, acc: nat)
    ensures
        parse_dec_rec(dec_digits(n) + rest, acc) == parse_dec_rec(
            rest,
            acc * pow10_digits(n) + n,
        ),
    decreases n,
{
    let t = dec_digits(n) + rest;
    if n < 10 {
        lemma_digit_val(n);
        assert(t[0] == digit_char(n));
        assert(t.drop_first() =~= rest);
        assert(acc * pow10_digits(n) + n == acc * 10 + n);
    } else {
        let q = n / 10;
        let r = n % 10;
        let rest1 = seq![digit_char(r)] + rest;
        assert(t =~= dec_digits(q) + rest1);
        lemma_parse_dec_rec(q, rest1, acc);
        lemma_digit_val(r);
        assert(rest1[0] == digit_char(r));
        assert(rest1.drop_first() =~= rest);
        let a1 = acc * pow10_digits(q) + q;
        assert(parse_dec_rec(rest1, a1) == parse_dec_rec(rest, a1 * 10 + r));
        assert(a1 * 10 + r == acc * pow10_digits(n) + n) by (nonlinear_arith)
            requires
                a1 == acc * pow10_digits(q) + q,
                pow10_digits(n) == 10 * pow10_digits(q),
                q == n / 10,
                r == n % 10,
                n >= 10,
        {
        }
    }
}

/// The digits of a number begin with a digit.
proof fn lemma_dec_first_digit(n: nat)
    ensures
        dec_digits(n).len() >= 1,
        digit_val(dec_digits(n)[0]) is Some,
    decreases n,
{
    if n < 10 {
        lemma_digit_val(n);
    } else {
        lemma_dec_first_digit(n / 10);
        assert(dec_digits(n)[0] == dec_digits(n / 10)[0]);
    }
}

/// The digits of `n`, followed by anything that does not begin with a
/// digit, parse back to `n`.
proof fn lemma_parse_dec(n: nat, rest: Seq<char>)
    requires
        rest.len() == 0 || digit_val(rest[0]) is None,
    ensures
        parse_dec(dec_digits(n) + rest) == Some((n, rest)),
{
    let t = dec_digits(n) + rest;
    lemma_dec_first_digit(n);
    assert(t[0] == dec_digits(n)[0]);
    lemma_parse_dec_rec(n, rest, 0);
    assert(0 * pow10_digits(n) + n == n);
    assert(parse_dec_rec(rest, n) == (n, rest));
}

/// One encoded entry, followed by anything, parses back to the record.
proof fn lemma_parse_entry(u: UserView, rest: Seq<char>)
    ensures
        parse_entry(entry_json(u) + rest) == Some((u, rest)),
{
    reveal_strlit("\": {\n    \"id\": ");
    reveal_strlit(",\n    \"username\": ");
    let a0 = "  \""@;
    let a1 = "\": {\n    \"id\": "@;
    let a2 = ",\n    \"username\": "@;
    let a3 = ",\n    \"email\": "@;
    let a4 = ",\n    \"secret\": "@;
    let a5 = "\n  }"@;
    let d = dec_digits(u.id as nat);
    let t10 = a5 + rest;
    let t9 = quoted(u.secret) + t10;
    let t8 = a4 + t9;
    let t7 = quoted(u.email) + t8;
    let t6 = a3 + t7;
    let t5 = quoted(u.username) + t6;
    let t4 = a2 + t5;
    let t3 = d + t4;
    let t2 = a1 + t3;
    let t1 = d + t2;
    let t0 = a0 + t1;
    assert(entry_json(u) + rest =~= t0);
    lemma_parse_lit_prefix(a0, t1);
    assert(t2[0] == a1[0]);
    assert(digit_val(t2[0]) is None);
    lemma_parse_dec(u.id as nat, t2);
    lemma_parse_lit_prefix(a1, t3);
    assert(t4[0] == a2[0]);
    assert(digit_val(t4[0]) is None);
    lemma_parse_dec(u.id as nat, t4);
    lemma_parse_lit_prefix(a2, t5);
    lemma_parse_quoted(u.username, t6);
    lemma_parse_lit_prefix(a3, t7);
    lemma_parse_quoted(u.email, t8);
    lemma_parse_lit_prefix(a4, t9);
    lemma_parse_quoted(u.secret, t10);
    lemma_parse_lit_prefix(a5, rest);
    assert(parse_entry(entry_json(u) + rest) == Some((u, rest)));
}

/// `entries_json` unfolded at the front instead of the back.
proof fn lemma_entries_json_front(s: Seq<UserView>)
    requires
        s.len() >= 2,
    ensures
        entries_json(s) == entry_json(s[0]) + ",\n"@ + entries_json(s.drop_first()),
    decreases s.len(),
{
    if s.len() == 2 {
        assert(s.drop_last().len() == 1);
        assert(s.drop_last()[0] == s[0]);
        assert(s.drop_first().len() == 1);
        assert(s.drop_first()[0] == s[1]);
        assert(s.last() == s[1]);
        assert(entries_json(s.drop_last()) == entry_json(s[0]));
        assert(entries_json(s.drop_first()) == entry_json(s[1]));
        assert(entries_json(s) == entries_json(s.drop_last()) + ",\n"@ + entry_json(s.last()));
        assert(entries_json(s) =~= entry_json(s[0]) + ",\n"@ + entries_json(s.drop_first()));
    } else {
        let t = s.drop_last();
        lemma_entries_json_front(t);
        assert(s.drop_first().drop_last() =~= t.drop_first());
        assert(s.drop_first().last() == s.last());
        assert(t[0] == s[0]);
        assert(s.drop_first().len() >= 2);
        assert(entries_json(s) == entries_json(t) + ",\n"@ + entry_json(s.last()));
        assert(entries_json(s.drop_first()) == entries_json(t.drop_first()) + ",\n"@ + entry_json(
            s.last(),
        ));
        assert(entries_json(s) =~= entry_json(s[0]) + ",\n"@ + entries_json(s.drop_first()));
    }
}

/// The encoded entries, followed by the closing text, parse back to the
/// records in order.
proof fn lemma_parse_entries(s: Seq<UserView>)
    requires
        s.len() >= 1,
    ensures
        parse_entries(entries_json(s) + "\n}"@) == Some((s, "\n}"@)),
    decreases s.len(),
{
    reveal_strlit(",\n");
    reveal_strlit("\n}");
    let t = entries_json(s) + "\n}"@;
    if s.len() == 1 {
        assert(entries_json(s) == entry_json(s[0]));
        lemma_parse_entry(s[0], "\n}"@);
        assert(!starts_with("\n}"@, ",\n"@)) by {
            assert("\n}"@[0] == '\n');
            assert(",\n"@[0] == ',');
        }
        assert(seq![s[0]] =~= s);
    } else {
        lemma_entries_json_front(s);
        let tail2 = entries_json(s.drop_first()) + "\n}"@;
        let r1 = ",\n"@ + tail2;
        assert(t =~= entry_json(s[0]) + r1);
        lemma_parse_entry(s[0], r1);
        assert(starts_with(r1, ",\n"@)) by {
            assert(r1.take(",\n"@.len() as int) =~= ",\n"@);
        }
        assert(r1.skip(",\n"@.len() as int) =~= tail2);
        assert(tail2.len() < t.len());
        lemma_parse_entries(s.drop_first());
        assert(seq![s[0]] + s.drop_first() =~= s);
    }
}

/// Law: decoding a snapshot yields exactly the records that were
/// encoded, in the store's order — and with them the full mapping from
/// id to record that the store held at export time.
pub proof fn lemma_snapshot_round_trip(s: Seq<UserView>)
    ensures
        parse_snapshot(snapshot_json_spec(s)) == Some(s),
{
    reveal_strlit("{}");
    reveal_strlit("{\n");
    reveal_strlit("\n}");
    let t = snapshot_json_spec(s);
    if s.len() == 0 {
        assert(t == "{}"@);
        assert(s =~= Seq::<UserView>::empty());
    } else {
        let body = entries_json(s) + "\n}"@;
        assert(t =~= "{\n"@ + body);
        assert(t.len() >= 4);
        assert(t != "{}"@) by {
            assert("{}"@.len() == 2);
        }
        lemma_parse_lit_prefix("{\n"@, body);
        assert(parse_lit(t, "{\n"@) == Some(body));
        lemma_parse_entries(s);
    }
}

} // verus!
