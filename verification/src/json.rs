//! The snapshot format: one JSON object mapping each stringified id to an
//! object with the fields `id`, `username`, `email` and `secret`, written
//! with two-space indentation. The functions here state the exact text of
//! a snapshot (`snapshot_json_spec`) and build it; the store's text fields
//! are escaped so that the output is well-formed JSON for every store.

use crate::store::{User, UserDatabase, UserView};
use vstd::prelude::*;
use vstd::string::StrSliceExecFns;
use vstd::string::StringExecFns;

verus! {

/// The character for one decimal digit value.
pub open spec fn digit_char(d: nat) -> char {
    if d == 0 {
        '0'
    } else if d == 1 {
        '1'
    } else if d == 2 {
        '2'
    } else if d == 3 {
        '3'
    } else if d == 4 {
        '4'
    } else if d == 5 {
        '5'
    } else if d == 6 {
        '6'
    } else if d == 7 {
        '7'
    } else if d == 8 {
        '8'
    } else {
        '9'
    }
}

/// The character for one hexadecimal digit value, lower case.
pub open spec fn hex_char(d: nat) -> char {
    if d < 10 {
        digit_char(d)
    } else if d == 10 {
        'a'
    } else if d == 11 {
        'b'
    } else if d == 12 {
        'c'
    } else if d == 13 {
        'd'
    } else if d == 14 {
        'e'
    } else {
        'f'
    }
}

/// The decimal digits of a number, most significant first.
pub open spec fn dec_digits(n: nat) -> Seq<char>
    decreases n,
{
    if n < 10 {
        seq![digit_char(n)]
    } else {
        dec_digits(n / 10) + seq![digit_char(n % 10)]
    }
}

/// The JSON escape of one character: quote, backslash and the named
/// control characters get a two-character escape, the other control
/// characters a `\u00..` escape, and every other character stands as
/// itself.
pub open spec fn escape_char(c: char) -> Seq<char> {
    if c == '"' {
        seq!['\\', '"']
    } else if c == '\\' {
        seq!['\\', '\\']
    } else if c == '\n' {
        seq!['\\', 'n']
    } else if c == '\r' {
        seq!['\\', 'r']
    } else if c == '\t' {
        seq!['\\', 't']
    } else if (c as u32) < 32 {
        seq!['\\', 'u', '0', '0', hex_char((c as u32 / 16) as nat), hex_char((c as u32 % 16) as nat)]
    } else {
        seq![c]
    }
}

/// The body of a JSON string: each character escaped, in order.
pub open spec fn escape_string(s: Seq<char>) -> Seq<char>
    decreases s.len(),
{
    if s.len() == 0 {
        Seq::empty()
    } else {
        escape_string(s.drop_last()) + escape_char(s.last())
    }
}

/// A JSON string: the escaped text between double quotes.
pub open spec fn quoted(s: Seq<char>) -> Seq<char> {
    seq!['"'] + escape_string(s) + seq!['"']
}

/// One snapshot entry: the stringified id as key, then the record as a
/// nested object whose fields come in insertion order.
pub open spec fn entry_json(u: UserView) -> Seq<char> {
    "  \""@ + dec_digits(u.id as nat) + "\": {\n    \"id\": "@ + dec_digits(u.id as nat)
        + ",\n    \"username\": "@ + quoted(u.username) + ",\n    \"email\": "@ + quoted(u.email)
        + ",\n    \"secret\": "@ + quoted(u.secret) + "\n  }"@
}

/// All entries of a snapshot, in the store's iteration order, separated
/// by a comma and a line break.
pub open spec fn entries_json(s: Seq<UserView>) -> Seq<char>
    decreases s.len(),
{
    if s.len() == 0 {
        Seq::empty()
    } else if s.len() == 1 {
        entry_json(s[0])
    } else {
        entries_json(s.drop_last()) + ",\n"@ + entry_json(s.last())
    }
}

/// The full text of a snapshot of the given records.
pub open spec fn snapshot_json_spec(s: Seq<UserView>) -> Seq<char> {
    if s.len() == 0 {
        "{}"@
    } else {
        "{\n"@ + entries_json(s) + "\n}"@
    }
}

/// Relies on `String::push`: appends exactly the given character.
#[verifier::external_body]
fn push_char(out: &mut String, c: char)
    ensures
        final(out)@ == old(out)@.push(c),
{
    out.push(c);
}

/// The character for one decimal digit value.
fn digit_char_exec(d: u32) -> (c: char)
    ensures
        c == digit_char(d as nat),
{
    if d == 0 {
        '0'
    } else if d == 1 {
        '1'
    } else if d == 2 {
        '2'
    } else if d == 3 {
        '3'
    } else if d == 4 {
        '4'
    } else if d == 5 {
        '5'
    } else if d == 6 {
        '6'
    } else if d == 7 {
        '7'
    } else if d == 8 {
        '8'
    } else {
        '9'
    }
}

/// The character for one hexadecimal digit value, lower case.
fn hex_char_exec(d: u32) -> (c: char)
    ensures
        c == hex_char(d as nat),
{
    if d < 10 {
        digit_char_exec(d)
    } else if d == 10 {
        'a'
    } else if d == 11 {
        'b'
    } else if d == 12 {
        'c'
    } else if d == 13 {
        'd'
    } else if d == 14 {
        'e'
    } else {
        'f'
    }
}

/// Appends the decimal digits of `n`.
fn push_dec(out: &mut String, n: u32)
    ensures
        final(out)@ == old(out)@ + dec_digits(n as nat),
    decreases n,
{
    if n < 10 {
        let c = digit_char_exec(n);
        push_char(out, c);
        proof {
            assert(out@ =~= old(out)@ + dec_digits(n as nat));
        }
    } else {
        push_dec(out, n / 10);
        let c = digit_char_exec(n % 10);
        push_char(out, c);
        proof {
            assert(out@ =~= old(out)@ + dec_digits(n as nat));
        }
    }
}

/// Appends the JSON escape of one character.
fn push_escaped_char(out: &mut String, c: char)
    ensures
        final(out)@ == old(out)@ + escape_char(c),
{
    if c == '"' {
        push_char(out, '\\');
        push_char(out, '"');
        proof {
            assert(out@ =~= old(out)@ + escape_char(c));
        }
    } else if c == '\\' {
        push_char(out, '\\');
        push_char(out, '\\');
        proof {
            assert(out@ =~= old(out)@ + escape_char(c));
        }
    } else if c == '\n' {
        push_char(out, '\\');
        push_char(out, 'n');
        proof {
            assert(out@ =~= old(out)@ + escape_char(c));
        }
    } else if c == '\r' {
        push_char(out, '\\');
        push_char(out, 'r');
        proof {
            assert(out@ =~= old(out)@ + escape_char(c));
        }
    } else if c == '\t' {
        push_char(out, '\\');
        push_char(out, 't');
        proof {
            assert(out@ =~= old(out)@ + escape_char(c));
        }
    } else {
        let code: u32 = c as u32;
        if code < 32 {
            push_char(out, '\\');
            push_char(out, 'u');
            push_char(out, '0');
            push_char(out, '0');
            let h = hex_char_exec(code / 16);
            push_char(out, h);
            let l = hex_char_exec(code % 16);
            push_char(out, l);
            proof {
                assert(out@ =~= old(out)@ + escape_char(c));
            }
        } else {
            push_char(out, c);
            proof {
                assert(out@ =~= old(out)@ + escape_char(c));
            }
        }
    }
}

/// Appends the escaped body of a JSON string.
fn push_escaped(out: &mut String, s: &str)
    ensures
        final(out)@ == old(out)@ + escape_string(s@),
{
    let n = s.unicode_len();
    proof {
        assert(s@.take(0) =~= Seq::<char>::empty());
        assert(old(out)@ + escape_string(s@.take(0)) =~= old(out)@);
    }
    let mut i: usize = 0;
    while i < n
        invariant
            n == s@.len(),
            0 <= i <= n,
            out@ == old(out)@ + escape_string(s@.take(i as int)),
        decreases n - i,
    {
        let c = s.get_char(i);
        push_escaped_char(out, c);
        proof {
            assert(s@.take(i as int + 1).drop_last() =~= s@.take(i as int));
            assert(s@.take(i as int + 1).last() == s@[i as int]);
            assert(out@ =~= old(out)@ + escape_string(s@.take(i as int + 1)));
        }
        i += 1;
    }
    proof {
        assert(s@.take(n as int) =~= s@);
    }
}

/// Appends a whole JSON string, quotes included.
fn push_quoted(out: &mut String, s: &str)
    ensures
        final(out)@ == old(out)@ + quoted(s@),
{
    push_char(out, '"');
    push_escaped(out, s);
    push_char(out, '"');
    proof {
        assert(out@ =~= old(out)@ + quoted(s@));
    }
}

/// Appends one snapshot entry for the given record.
fn push_entry(out: &mut String, u: &User)
    ensures
        final(out)@ == old(out)@ + entry_json(u@),
{
    out.append("  \"");
    push_dec(out, u.id);
    out.append("\": {\n    \"id\": ");
    push_dec(out, u.id);
    out.append(",\n    \"username\": ");
    push_quoted(out, u.username.as_str());
    out.append(",\n    \"email\": ");
    push_quoted(out, u.email.as_str());
    out.append(",\n    \"secret\": ");
    push_quoted(out, u.secret.as_str());
    out.append("\n  }");
    proof {
        assert(out@ =~= old(out)@ + entry_json(u@));
    }
}

impl UserDatabase {
    /// Serializes the full mapping from id to record: exactly the text of
    /// `snapshot_json_spec` on the store's records. The store is read, not
    /// changed, and serialization succeeds for every store.
    pub fn snapshot_json(&self) -> (r: String)
        ensures
            r@ == snapshot_json_spec(self@),
    {
        let n = self.len();
        if n == 0 {
            return String::from_str("{}");
        }
        let mut out = String::from_str("{\n");
        let mut i: usize = 0;
        while i < n
            invariant
                n == self@.len(),
                n > 0,
                0 <= i <= n,
                i == 0 ==> out@ == "{\n"@,
                i > 0 ==> out@ == "{\n"@ + entries_json(self@.take(i as int)),
            decreases n - i,
        {
            if i > 0 {
                out.append(",\n");
            }
            push_entry(&mut out, self.record_at(i));
            proof {
                assert(self@.take(i as int + 1).drop_last() =~= self@.take(i as int));
                assert(self@.take(i as int + 1).last() == self@[i as int]);
                if i == 0 {
                    assert(self@.take(1)[0] == self@[0]);
                    assert(out@ =~= "{\n"@ + entries_json(self@.take(1)));
                } else {
                    assert(out@ =~= "{\n"@ + entries_json(self@.take(i as int + 1)));
                }
            }
            i += 1;
        }
        out.append("\n}");
        proof {
            assert(self@.take(n as int) =~= self@);
            assert(out@ =~= snapshot_json_spec(self@));
        }
        out
    }
}

} // verus!
