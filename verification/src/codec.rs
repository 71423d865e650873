//! The lossless textual serialization of a delta: an ordered sequence of op
//! records, each under its operation-kind key (`insert` / `delete` /
//! `retain`), with an `attributes` mapping on insert and retain records.
//!
//! Example: `[{"insert":"Hi","attributes":{"bold":true}},{"delete":2}]`.
//! Strings escape only `"` and `\`; attribute values are `null`, `true`,
//! `false`, a decimal integer, or a string.

use vstd::prelude::*;

use crate::attrs::AttrEntry;
use crate::attrs::AttrEntryV;
use crate::attrs::AttrMap;
use crate::attrs::AttrValue;
use crate::attrs::AttrValueV;
use crate::ops::Delta;
use crate::ops::DeltaError;
use crate::ops::DeltaOps;
use crate::ops::OpV;
use crate::ops::canon;
use crate::ops::op_len;
use crate::ops::sanitize_seq_s;
use crate::ops::total_len_s;
use crate::vocab::Embeds;
use crate::vocab::EmbedsV;
use crate::vocab::embed_tag_s;
use crate::vocab::embed_value_s;

verus! {

// ---------------------------------------------------------------------------
// The printed form
// ---------------------------------------------------------------------------

/// One character as it appears inside a quoted string.
pub open spec fn esc_char(c: char) -> Seq<char> {
    if c == '\\' || c == '"' {
        seq!['\\', c]
    } else {
        seq![c]
    }
}

/// A string's characters, escaped.
pub open spec fn esc_s(s: Seq<char>) -> Seq<char>
    decreases s.len(),
{
    if s.len() == 0 {
        Seq::empty()
    } else {
        esc_char(s[0]) + esc_s(s.drop_first())
    }
}

/// A quoted, escaped string.
pub open spec fn print_str(s: Seq<char>) -> Seq<char> {
    seq!['"'] + esc_s(s) + seq!['"']
}

/// The decimal digit characters.
pub open spec fn digit_char(d: int) -> char {
    if d == 0 {
        '0'
    } else if d == 1 {
        '1'
    } else if d == 2 {
        '2'
    } else if d == 3 {
        '3'
    } else if d == 4 {
        '4'
    } else if d == 5 {
        '5'
    } else if d == 6 {
        '6'
    } else if d == 7 {
        '7'
    } else if d == 8 {
        '8'
    } else {
        '9'
    }
}

/// A non-negative number in decimal, no leading zeros.
pub open spec fn digits_of(n: nat) -> Seq<char>
    decreases n,
{
    if n < 10 {
        seq![digit_char(n as int)]
    } else {
        digits_of(n / 10) + seq![digit_char((n % 10) as int)]
    }
}

/// A signed number in decimal.
pub open spec fn print_int(i: int) -> Seq<char> {
    if i < 0 {
        seq!['-'] + digits_of((-i) as nat)
    } else {
        digits_of(i as nat)
    }
}

/// One attribute value.
pub open spec fn print_value(v: AttrValueV) -> Seq<char> {
    match v {
        AttrValueV::NullV => "null"@,
        AttrValueV::BoolV(b) => if b {
            "true"@
        } else {
            "false"@
        },
        AttrValueV::IntV(n) => print_int(n as int),
        AttrValueV::StrV(s) => print_str(s),
    }
}

/// One attribute entry: `"key":value`.
pub open spec fn print_entry(e: AttrEntryV) -> Seq<char> {
    print_str(e.key) + seq![':'] + print_value(e.value)
}

/// The comma-separated entries of an attribute mapping.
pub open spec fn print_entries(m: Seq<AttrEntryV>) -> Seq<char>
    decreases m.len(),
{
    if m.len() == 0 {
        Seq::empty()
    } else if m.len() == 1 {
        print_entry(m[0])
    } else {
        print_entry(m[0]) + seq![','] + print_entries(m.drop_first())
    }
}

/// An attribute mapping.
pub open spec fn print_attrs(m: Seq<AttrEntryV>) -> Seq<char> {
    seq!['{'] + print_entries(m) + seq!['}']
}

/// An embed payload: `{"tag":"value"}`.
pub open spec fn print_embed(e: EmbedsV) -> Seq<char> {
    seq!['{'] + print_str(embed_tag_s(e)) + seq![':'] + print_str(embed_value_s(e)) + seq!['}']
}

/// One op record.
pub open spec fn print_op(op: OpV) -> Seq<char> {
    match op {
        OpV::InsertV(s, a) => "{\"insert\":"@ + print_str(s) + ",\"attributes\":"@ + print_attrs(
            a,
        ) + seq!['}'],
        OpV::InsertEmbedV(e, a) => "{\"insert\":"@ + print_embed(e) + ",\"attributes\":"@
            + print_attrs(a) + seq!['}'],
        OpV::DeleteV(n) => "{\"delete\":"@ + print_int(n) + seq!['}'],
        OpV::RetainV(n, a) => "{\"retain\":"@ + print_int(n) + ",\"attributes\":"@ + print_attrs(
            a,
        ) + seq!['}'],
    }
}

/// The comma-separated op records.
pub open spec fn print_ops(ops: Seq<OpV>) -> Seq<char>
    decreases ops.len(),
{
    if ops.len() == 0 {
        Seq::empty()
    } else if ops.len() == 1 {
        print_op(ops[0])
    } else {
        print_op(ops[0]) + seq![','] + print_ops(ops.drop_first())
    }
}

/// A whole delta.
pub open spec fn print_delta(ops: Seq<OpV>) -> Seq<char> {
    seq!['['] + print_ops(ops) + seq![']']
}

// ---------------------------------------------------------------------------
// The executable printer
// ---------------------------------------------------------------------------

/// Relies on String::push: appends exactly the one character.
#[verifier::external_body]
fn push_char(out: &mut String, c: char)
    ensures
        final(out)@ == old(out)@.push(c),
{
    out.push(c);
}

fn w_lit(out: &mut String, lit: &str)
    ensures
        final(out)@ == old(out)@ + lit@,
{
    out.append(lit);
}

fn w_esc(out: &mut String, t: &str, i: usize)
    requires
        i <= t@.len(),
    ensures
        final(out)@ == old(out)@ + esc_s(t@.skip(i as int)),
    decreases t@.len() - i,
{
    if i >= t.unicode_len() {
        proof {
            assert(t@.skip(i as int) =~= Seq::<char>::empty());
            assert(old(out)@ + esc_s(t@.skip(i as int)) =~= old(out)@);
        }
        return;
    }
    let c = t.get_char(i);
    proof {
        assert(t@.skip(i as int)[0] == t@[i as int]);
        assert(t@.skip(i as int).drop_first() =~= t@.skip(i as int + 1));
    }
    if c == '\\' || c == '"' {
        push_char(out, '\\');
        push_char(out, c);
    }
    if !(c == '\\' || c == '"') {
        push_char(out, c);
    }
    let ghost mid = out@;
    proof {
        assert(mid =~= old(out)@ + esc_char(t@[i as int]));
    }
    w_esc(out, t, i + 1);
    proof {
        assert(out@ =~= old(out)@ + esc_s(t@.skip(i as int)));
    }
}

fn w_str(out: &mut String, t: &str)
    ensures
        final(out)@ == old(out)@ + print_str(t@),
{
    push_char(out, '"');
    w_esc(out, t, 0);
    push_char(out, '"');
    proof {
        assert(t@.skip(0) =~= t@);
        assert(out@ =~= old(out)@ + print_str(t@));
    }
}

fn digit_of(d: u64) -> (c: char)
    requires
        d < 10,
    ensures
        c == digit_char(d as int),
{
    if d == 0 {
        '0'
    } else if d == 1 {
        '1'
    } else if d == 2 {
        '2'
    } else if d == 3 {
        '3'
    } else if d == 4 {
        '4'
    } else if d == 5 {
        '5'
    } else if d == 6 {
        '6'
    } else if d == 7 {
        '7'
    } else if d == 8 {
        '8'
    } else {
        '9'
    }
}

fn w_digits(out: &mut String, n: u64)
    ensures
        final(out)@ == old(out)@ + digits_of(n as nat),
    decreases n,
{
    if n < 10 {
        push_char(out, digit_of(n));
        proof {
            assert(out@ =~= old(out)@ + digits_of(n as nat));
        }
    } else {
        w_digits(out, n / 10);
        push_char(out, digit_of(n % 10));
        proof {
            assert(out@ =~= old(out)@ + digits_of(n as nat));
        }
    }
}

fn w_usize(out: &mut String, n: usize)
    ensures
        final(out)@ == old(out)@ + print_int(n as int),
{
    w_digits(out, n as u64);
}

fn w_i64(out: &mut String, v: i64)
    ensures
        final(out)@ == old(out)@ + print_int(v as int),
{
    if v < 0 {
        push_char(out, '-');
        let m: u64 = (-(v as i128)) as u64;
        w_digits(out, m);
        proof {
            assert(out@ =~= old(out)@ + print_int(v as int));
        }
    } else {
        w_digits(out, v as u64);
    }
}

fn w_value(out: &mut String, v: &AttrValue)
    ensures
        final(out)@ == old(out)@ + print_value(v@),
{
    match v {
        AttrValue::Null => w_lit(out, "null"),
        AttrValue::Bool(b) => if *b {
            w_lit(out, "true")
        } else {
            w_lit(out, "false")
        },
        AttrValue::Int(n) => w_i64(out, *n),
        AttrValue::Str(s) => w_str(out, s.as_str()),
    }
}

fn w_entries(out: &mut String, m: &AttrMap, i: usize)
    requires
        i <= m@.len(),
    ensures
        final(out)@ == old(out)@ + print_entries(m@.skip(i as int)),
    decreases m@.len() - i,
{
    let n = m.entries.len();
    if i >= n {
        proof {
            assert(m@.skip(i as int) =~= Seq::<AttrEntryV>::empty());
            assert(old(out)@ + print_entries(m@.skip(i as int)) =~= old(out)@);
        }
        return;
    }
    proof {
        assert(m@.skip(i as int)[0] == m@[i as int]);
        assert(m@.skip(i as int).drop_first() =~= m@.skip(i as int + 1));
    }
    w_str(out, m.entries[i].key.as_str());
    push_char(out, ':');
    w_value(out, &m.entries[i].value);
    let ghost mid = out@;
    proof {
        assert(mid =~= old(out)@ + print_entry(m@[i as int]));
    }
    if i + 1 < n {
        push_char(out, ',');
        w_entries(out, m, i + 1);
        proof {
            assert(out@ =~= old(out)@ + print_entries(m@.skip(i as int)));
        }
    } else {
        proof {
            assert(m@.skip(i as int).len() == 1);
            assert(out@ =~= old(out)@ + print_entries(m@.skip(i as int)));
        }
    }
}

fn w_attrs(out: &mut String, m: &AttrMap)
    ensures
        final(out)@ == old(out)@ + print_attrs(m@),
{
    push_char(out, '{');
    w_entries(out, m, 0);
    push_char(out, '}');
    proof {
        assert(m@.skip(0) =~= m@);
        assert(out@ =~= old(out)@ + print_attrs(m@));
    }
}

fn w_embed(out: &mut String, e: &Embeds)
    ensures
        final(out)@ == old(out)@ + print_embed(e@),
{
    push_char(out, '{');
    w_str(out, e.get_type_name());
    push_char(out, ':');
    w_str(out, e.get_value());
    push_char(out, '}');
    proof {
        assert(out@ =~= old(out)@ + print_embed(e@));
    }
}

fn w_op(out: &mut String, op: &DeltaOps)
    ensures
        final(out)@ == old(out)@ + print_op(op@),
{
    match op {
        DeltaOps::Insert(t, a) => {
            w_lit(out, "{\"insert\":");
            w_str(out, t.as_str());
            w_lit(out, ",\"attributes\":");
            w_attrs(out, a);
            push_char(out, '}');
            proof {
                assert(out@ =~= old(out)@ + print_op(op@));
            }
        },
        DeltaOps::InsertEmbed(e, a) => {
            w_lit(out, "{\"insert\":");
            w_embed(out, e);
            w_lit(out, ",\"attributes\":");
            w_attrs(out, a);
            push_char(out, '}');
            proof {
                assert(out@ =~= old(out)@ + print_op(op@));
            }
        },
        DeltaOps::Delete(n) => {
            w_lit(out, "{\"delete\":");
            w_usize(out, *n);
            push_char(out, '}');
            proof {
                assert(out@ =~= old(out)@ + print_op(op@));
            }
        },
        DeltaOps::Retain(n, a) => {
            w_lit(out, "{\"retain\":");
            w_usize(out, *n);
            w_lit(out, ",\"attributes\":");
            w_attrs(out, a);
            push_char(out, '}');
            proof {
                assert(out@ =~= old(out)@ + print_op(op@));
            }
        },
    }
}

fn w_ops(out: &mut String, ops: &Vec<DeltaOps>, i: usize)
    requires
        i <= ops.deep_view().len(),
    ensures
        final(out)@ == old(out)@ + print_ops(ops.deep_view().skip(i as int)),
    decreases ops.deep_view().len() - i,
{
    let n = ops.len();
    if i >= n {
        proof {
            assert(ops.deep_view().skip(i as int) =~= Seq::<OpV>::empty());
            assert(old(out)@ + print_ops(ops.deep_view().skip(i as int)) =~= old(out)@);
        }
        return;
    }
    proof {
        assert(ops.deep_view().skip(i as int)[0] == ops.deep_view()[i as int]);
        assert(ops.deep_view().skip(i as int).drop_first() =~= ops.deep_view().skip(i as int + 1));
    }
    w_op(out, &ops[i]);
    if i + 1 < n {
        push_char(out, ',');
        w_ops(out, ops, i + 1);
        proof {
            assert(out@ =~= old(out)@ + print_ops(ops.deep_view().skip(i as int)));
        }
    } else {
        proof {
            assert(ops.deep_view().skip(i as int).len() == 1);
            assert(out@ =~= old(out)@ + print_ops(ops.deep_view().skip(i as int)));
        }
    }
}

// ---------------------------------------------------------------------------
// The parsed form
// ---------------------------------------------------------------------------

/// Is `c` at position `i`?
pub open spec fn at(s: Seq<char>, i: int, c: char) -> bool {
    0 <= i < s.len() && s[i] == c
}

/// The position after `lit`, when it stands at `i`.
pub open spec fn sp_lit(s: Seq<char>, i: int, lit: Seq<char>) -> Option<int> {
    if 0 <= i && i + lit.len() <= s.len() && s.subrange(i, i + lit.len()) == lit {
        Some(i + lit.len())
    } else {
        None
    }
}

/// The body of a quoted string, from just after the opening quote to just
/// after the closing one, unescaped.
pub open spec fn sp_str_body(s: Seq<char>, i: int) -> Option<(Seq<char>, int)>
    decreases s.len() - i,
{
    if i < 0 || i >= s.len() {
        None
    } else if s[i] == '"' {
        Some((Seq::empty(), i + 1))
    } else if s[i] == '\\' {
        if i + 1 < s.len() && (s[i + 1] == '"' || s[i + 1] == '\\') {
            match sp_str_body(s, i + 2) {
                Some((t, j)) => Some((seq![s[i + 1]] + t, j)),
                None => None,
            }
        } else {
            None
        }
    } else {
        match sp_str_body(s, i + 1) {
            Some((t, j)) => Some((seq![s[i]] + t, j)),
            None => None,
        }
    }
}

/// A quoted string.
pub open spec fn sp_string(s: Seq<char>, i: int) -> Option<(Seq<char>, int)> {
    if at(s, i, '"') {
        sp_str_body(s, i + 1)
    } else {
        None
    }
}

/// Is `c` a decimal digit?
pub open spec fn is_digit_c(c: char) -> bool {
    c == '0' || c == '1' || c == '2' || c == '3' || c == '4' || c == '5' || c == '6' || c == '7'
        || c == '8' || c == '9'
}

/// A digit's value.
pub open spec fn digit_val(c: char) -> int {
    if c == '0' {
        0
    } else if c == '1' {
        1
    } else if c == '2' {
        2
    } else if c == '3' {
        3
    } else if c == '4' {
        4
    } else if c == '5' {
        5
    } else if c == '6' {
        6
    } else if c == '7' {
        7
    } else if c == '8' {
        8
    } else {
        9
    }
}

/// The first position at or after `i` that holds no digit.
pub open spec fn first_nondigit(s: Seq<char>, i: int) -> int
    decreases s.len() - i,
{
    if 0 <= i < s.len() && is_digit_c(s[i]) {
        first_nondigit(s, i + 1)
    } else {
        i
    }
}

/// The value of a digit string.
pub open spec fn num_of(ds: Seq<char>) -> int
    decreases ds.len(),
{
    if ds.len() == 0 {
        0
    } else {
        num_of(ds.drop_last()) * 10 + digit_val(ds.last())
    }
}

/// A non-negative decimal number of at least one digit, rejected above
/// `bound`.
pub open spec fn sp_number(s: Seq<char>, i: int, bound: int) -> Option<(int, int)> {
    let j = first_nondigit(s, i);
    if j == i {
        None
    } else {
        let n = num_of(s.subrange(i, j));
        if n > bound {
            None
        } else {
            Some((n, j))
        }
    }
}

/// A signed decimal number within the signed 64-bit range.
pub open spec fn sp_int(s: Seq<char>, i: int) -> Option<(int, int)> {
    if at(s, i, '-') {
        match sp_number(s, i + 1, 0x8000_0000_0000_0000) {
            Some((n, j)) => Some((-n, j)),
            None => None,
        }
    } else {
        sp_number(s, i, 0x7fff_ffff_ffff_ffff)
    }
}

/// One attribute value.
pub open spec fn sp_value(s: Seq<char>, i: int) -> Option<(AttrValueV, int)> {
    if at(s, i, '"') {
        match sp_string(s, i) {
            Some((t, j)) => Some((AttrValueV::StrV(t), j)),
            None => None,
        }
    } else if at(s, i, 'n') {
        match sp_lit(s, i, "null"@) {
            Some(j) => Some((AttrValueV::NullV, j)),
            None => None,
        }
    } else if at(s, i, 't') {
        match sp_lit(s, i, "true"@) {
            Some(j) => Some((AttrValueV::BoolV(true), j)),
            None => None,
        }
    } else if at(s, i, 'f') {
        match sp_lit(s, i, "false"@) {
            Some(j) => Some((AttrValueV::BoolV(false), j)),
            None => None,
        }
    } else {
        match sp_int(s, i) {
            Some((n, j)) => Some((AttrValueV::IntV(n as i64), j)),
            None => None,
        }
    }
}

/// One `"key":value` entry.
pub open spec fn sp_entry(s: Seq<char>, i: int) -> Option<(AttrEntryV, int)> {
    match sp_string(s, i) {
        Some((k, j)) => if at(s, j, ':') {
            match sp_value(s, j + 1) {
                Some((v, m)) => Some(((AttrEntryV { key: k, value: v }), m)),
                None => None,
            }
        } else {
            None
        },
        None => None,
    }
}

/// The entries after the first, each led by a comma, up to the closing
/// brace.
pub open spec fn sp_attrs_rest(s: Seq<char>, i: int, fuel: nat) -> Option<(Seq<AttrEntryV>, int)>
    decreases fuel,
{
    if at(s, i, '}') {
        Some((Seq::empty(), i + 1))
    } else if at(s, i, ',') && fuel > 0 {
        match sp_entry(s, i + 1) {
            Some((e, j)) => match sp_attrs_rest(s, j, (fuel - 1) as nat) {
                Some((es, k)) => Some((seq![e] + es, k)),
                None => None,
            },
            None => None,
        }
    } else {
        None
    }
}

/// An attribute mapping in braces.
pub open spec fn sp_attrs(s: Seq<char>, i: int, fuel: nat) -> Option<(Seq<AttrEntryV>, int)> {
    if at(s, i, '{') {
        if at(s, i + 1, '}') {
            Some((Seq::empty(), i + 2))
        } else {
            match sp_entry(s, i + 1) {
                Some((e, j)) => match sp_attrs_rest(s, j, fuel) {
                    Some((es, k)) => Some((seq![e] + es, k)),
                    None => None,
                },
                None => None,
            }
        }
    } else {
        None
    }
}

/// An embed payload: a braced `"tag":"value"` pair with a known tag.
pub open spec fn sp_embed(s: Seq<char>, i: int) -> Option<(EmbedsV, int)> {
    if at(s, i, '{') {
        match sp_string(s, i + 1) {
            Some((tag, j)) => if at(s, j, ':') {
                match sp_string(s, j + 1) {
                    Some((v, k)) => if at(s, k, '}') {
                        if tag == "video"@ {
                            Some((EmbedsV::VideoV(v), k + 1))
                        } else if tag == "image"@ {
                            Some((EmbedsV::ImageV(v), k + 1))
                        } else if tag == "formula"@ {
                            Some((EmbedsV::FormulaV(v), k + 1))
                        } else {
                            None
                        }
                    } else {
                        None
                    },
                    None => None,
                }
            } else {
                None
            },
            None => None,
        }
    } else {
        None
    }
}

/// One op record.
pub open spec fn sp_op(s: Seq<char>, i: int, fuel: nat) -> Option<(OpV, int)> {
    if sp_lit(s, i, "{\"insert\":"@) is Some {
        let j = sp_lit(s, i, "{\"insert\":"@)->Some_0;
        if at(s, j, '"') {
            match sp_string(s, j) {
                Some((t, k)) => match sp_lit(s, k, ",\"attributes\":"@) {
                    Some(m) => match sp_attrs(s, m, fuel) {
                        Some((a, q)) => if at(s, q, '}') {
                            Some((OpV::InsertV(t, a), q + 1))
                        } else {
                            None
                        },
                        None => None,
                    },
                    None => None,
                },
                None => None,
            }
        } else {
            match sp_embed(s, j) {
                Some((e, k)) => match sp_lit(s, k, ",\"attributes\":"@) {
                    Some(m) => match sp_attrs(s, m, fuel) {
                        Some((a, q)) => if at(s, q, '}') {
                            Some((OpV::InsertEmbedV(e, a), q + 1))
                        } else {
                            None
                        },
                        None => None,
                    },
                    None => None,
                },
                None => None,
            }
        }
    } else if sp_lit(s, i, "{\"delete\":"@) is Some {
        let j = sp_lit(s, i, "{\"delete\":"@)->Some_0;
        match sp_number(s, j, usize::MAX as int) {
            Some((n, k)) => if at(s, k, '}') {
                Some((OpV::DeleteV(n), k + 1))
            } else {
                None
            },
            None => None,
        }
    } else if sp_lit(s, i, "{\"retain\":"@) is Some {
        let j = sp_lit(s, i, "{\"retain\":"@)->Some_0;
        match sp_number(s, j, usize::MAX as int) {
            Some((n, k)) => match sp_lit(s, k, ",\"attributes\":"@) {
                Some(m) => match sp_attrs(s, m, fuel) {
                    Some((a, q)) => if at(s, q, '}') {
                        Some((OpV::RetainV(n, a), q + 1))
                    } else {
                        None
                    },
                    None => None,
                },
                None => None,
            },
            None => None,
        }
    } else {
        None
    }
}

/// The op records after the first, each led by a comma, up to the closing
/// bracket.
pub open spec fn sp_ops_rest(s: Seq<char>, i: int, fuel: nat) -> Option<(Seq<OpV>, int)>
    decreases fuel,
{
    if at(s, i, ']') {
        Some((Seq::empty(), i + 1))
    } else if at(s, i, ',') && fuel > 0 {
        match sp_op(s, i + 1, fuel) {
            Some((op, j)) => match sp_ops_rest(s, j, (fuel - 1) as nat) {
                Some((ops, k)) => Some((seq![op] + ops, k)),
                None => None,
            },
            None => None,
        }
    } else {
        None
    }
}

/// A whole delta in brackets.
pub open spec fn sp_delta(s: Seq<char>) -> Option<(Seq<OpV>, int)> {
    let fuel = s.len();
    if at(s, 0, '[') {
        if at(s, 1, ']') {
            Some((Seq::empty(), 2))
        } else {
            match sp_op(s, 1, fuel) {
                Some((op, j)) => match sp_ops_rest(s, j, fuel) {
                    Some((ops, k)) => Some((seq![op] + ops, k)),
                    None => None,
                },
                None => None,
            }
        }
    } else {
        None
    }
}

// ---------------------------------------------------------------------------
// The round-trip law: parsing a printed delta gives the delta back
// ---------------------------------------------------------------------------

/// A concatenation standing at `i` splits into its two parts.
proof fn lemma_split(s: Seq<char>, i: int, x: Seq<char>, y: Seq<char>)
    requires
        0 <= i,
        i + x.len() + y.len() <= s.len(),
        s.subrange(i, i + x.len() + y.len()) == x + y,
    ensures
        s.subrange(i, i + x.len()) == x,
        s.subrange(i + x.len(), i + x.len() + y.len()) == y,
{
    assert(s.subrange(i, i + x.len()) =~= x) by {
        assert(forall|k: int|
            0 <= k < x.len() ==> s.subrange(i, i + x.len() + y.len())[k] == (x + y)[k]);
    }
    assert(s.subrange(i + x.len(), i + x.len() + y.len()) =~= y) by {
        assert forall|k: int| 0 <= k < y.len() implies s.subrange(
            i + x.len(),
            i + x.len() + y.len(),
        )[k] == y[k] by {
            assert(s.subrange(i + x.len(), i + x.len() + y.len())[k] == s[i + x.len() + k]);
            assert(s.subrange(i, i + x.len() + y.len())[x.len() + k] == s[i + x.len() + k]);
            assert(s.subrange(i, i + x.len() + y.len())[x.len() + k] == (x + y)[x.len() + k]);
        }
    }
}

/// A literal standing at `i` parses to the position after it.
proof fn lemma_lit_complete(s: Seq<char>, i: int, lit: Seq<char>)
    requires
        0 <= i,
        i + lit.len() <= s.len(),
        s.subrange(i, i + lit.len()) == lit,
    ensures
        sp_lit(s, i, lit) == Some(i + lit.len()),
{
}

/// An escaped string body standing before its closing quote parses back to
/// the raw string.
proof fn lemma_str_body_complete(s: Seq<char>, i: int, v: Seq<char>)
    requires
        0 <= i,
        i + esc_s(v).len() < s.len(),
        s.subrange(i, i + esc_s(v).len()) == esc_s(v),
        s[i + esc_s(v).len()] == '"',
    ensures
        sp_str_body(s, i) == Some((v, i + esc_s(v).len() + 1)),
    decreases v.len(),
{
    if v.len() == 0 {
        assert(esc_s(v).len() == 0);
        assert(s[i] == '"');
    } else {
        let c = v[0];
        let rest = v.drop_first();
        assert(esc_s(v) == esc_char(c) + esc_s(rest));
        lemma_split(s, i, esc_char(c), esc_s(rest));
        let i2 = i + esc_char(c).len();
        assert(s.subrange(i2, i2 + esc_s(rest).len()) == esc_s(rest));
        assert(s[i2 + esc_s(rest).len()] == '"');
        lemma_str_body_complete(s, i2, rest);
        if c == '\\' || c == '"' {
            assert(esc_char(c) == seq!['\\', c]);
            assert(s[i] == '\\' && s[i + 1] == c) by {
                assert(s.subrange(i, i + 2)[0] == '\\');
                assert(s.subrange(i, i + 2)[1] == c);
            }
            assert(seq![s[i + 1]] + rest =~= v);
        } else {
            assert(esc_char(c) == seq![c]);
            assert(s[i] == c) by {
                assert(s.subrange(i, i + 1)[0] == c);
            }
            assert(seq![s[i]] + rest =~= v);
        }
    }
}

/// A printed string parses back to its raw characters.
proof fn lemma_string_complete(s: Seq<char>, i: int, v: Seq<char>)
    requires
        0 <= i,
        i + print_str(v).len() <= s.len(),
        s.subrange(i, i + print_str(v).len()) == print_str(v),
    ensures
        sp_string(s, i) == Some((v, i + print_str(v).len())),
{
    let e = esc_s(v);
    assert(print_str(v) == seq!['"'] + e + seq!['"']);
    assert(print_str(v) =~= seq!['"'] + (e + seq!['"']));
    lemma_split(s, i, seq!['"'], e + seq!['"']);
    assert(s[i] == '"') by {
        assert(s.subrange(i, i + 1)[0] == '"');
    }
    lemma_split(s, i + 1, e, seq!['"']);
    assert(s[i + 1 + e.len()] == '"') by {
        assert(s.subrange(i + 1 + e.len(), i + 2 + e.len())[0] == '"');
    }
    lemma_str_body_complete(s, i + 1, v);
}

/// Decimal digits print as digits.
proof fn lemma_digits_are_digits(n: nat)
    ensures
        digits_of(n).len() >= 1,
        forall|k: int| 0 <= k < digits_of(n).len() ==> is_digit_c(#[trigger] digits_of(n)[k]),
    decreases n,
{
    if n < 10 {
    } else {
        lemma_digits_are_digits(n / 10);
        let d = digits_of(n);
        assert(forall|k: int|
            0 <= k < digits_of(n / 10).len() ==> #[trigger] d[k] == digits_of(n / 10)[k]);
        assert(d[d.len() - 1] == digit_char((n % 10) as int));
    }
}

/// A run of digits ends exactly at its first non-digit.
proof fn lemma_fnd_stops(s: Seq<char>, i: int, j: int)
    requires
        0 <= i <= j <= s.len(),
        forall|k: int| i <= k < j ==> is_digit_c(#[trigger] s[k]),
        j == s.len() || !is_digit_c(s[j]),
    ensures
        first_nondigit(s, i) == j,
    decreases j - i,
{
    if i < j {
        lemma_fnd_stops(s, i + 1, j);
    }
}

/// A digit survives the trip through its character.
proof fn lemma_digit_roundtrip(d: int)
    requires
        0 <= d < 10,
    ensures
        digit_val(digit_char(d)) == d,
{
    if d == 0 {
    } else if d == 1 {
    } else if d == 2 {
    } else if d == 3 {
    } else if d == 4 {
    } else if d == 5 {
    } else if d == 6 {
    } else if d == 7 {
    } else if d == 8 {
    } else {
        assert(digit_char(d) == '9');
    }
}

/// The digits of a number spell that number.
proof fn lemma_num_digits_id(n: nat)
    ensures
        num_of(digits_of(n)) == n,
    decreases n,
{
    if n < 10 {
        assert(digits_of(n) == seq![digit_char(n as int)]);
        assert(digits_of(n).len() == 1);
        assert(digits_of(n).drop_last() =~= Seq::<char>::empty());
        assert(num_of(Seq::<char>::empty()) == 0);
        assert(digits_of(n).last() == digit_char(n as int));
        assert(num_of(digits_of(n)) == num_of(digits_of(n).drop_last()) * 10 + digit_val(
            digits_of(n).last(),
        ));
        lemma_digit_roundtrip(n as int);
    } else {
        lemma_num_digits_id(n / 10);
        let d = digits_of(n);
        assert(d.len() == digits_of(n / 10).len() + 1);
        assert(d.len() > 0);
        assert(d.drop_last() =~= digits_of(n / 10));
        assert(d.last() == digit_char((n % 10) as int));
        assert(num_of(d) == num_of(d.drop_last()) * 10 + digit_val(d.last()));
        lemma_digit_roundtrip((n % 10) as int);
        assert(num_of(d) == (n / 10) * 10 + n % 10);
    }
}

/// A printed non-negative number, followed by no digit, parses back.
proof fn lemma_number_complete(s: Seq<char>, i: int, n: nat, bound: int)
    requires
        0 <= i,
        n <= bound,
        i + digits_of(n).len() <= s.len(),
        s.subrange(i, i + digits_of(n).len()) == digits_of(n),
        i + digits_of(n).len() == s.len() || !is_digit_c(s[i + digits_of(n).len()]),
    ensures
        sp_number(s, i, bound) == Some((n as int, i + digits_of(n).len())),
{
    let d = digits_of(n);
    lemma_digits_are_digits(n);
    assert(forall|k: int| i <= k < i + d.len() ==> is_digit_c(#[trigger] s[k])) by {
        assert(forall|k: int|
            i <= k < i + d.len() ==> #[trigger] s[k] == s.subrange(i, i + d.len())[k - i]);
    }
    lemma_fnd_stops(s, i, i + d.len());
    lemma_num_digits_id(n);
}

/// A printed integer, followed by no digit, parses back.
proof fn lemma_int_complete(s: Seq<char>, i: int, v: int)
    requires
        0 <= i,
        -0x8000_0000_0000_0000 <= v <= 0xffff_ffff_ffff_ffff,
        i + print_int(v).len() <= s.len(),
        s.subrange(i, i + print_int(v).len()) == print_int(v),
        i + print_int(v).len() == s.len() || !is_digit_c(s[i + print_int(v).len()]),
    ensures
        v >= 0 ==> sp_number(s, i, 0xffff_ffff_ffff_ffff) == Some((v, i + print_int(v).len())),
        -0x8000_0000_0000_0000 <= v < 0x8000_0000_0000_0000 ==> sp_int(s, i) == Some(
            (v, i + print_int(v).len()),
        ),
{
    if v >= 0 {
        lemma_number_complete(s, i, v as nat, 0xffff_ffff_ffff_ffff);
        if v < 0x8000_0000_0000_0000 {
            lemma_number_complete(s, i, v as nat, 0x7fff_ffff_ffff_ffff);
            lemma_digits_are_digits(v as nat);
            assert(s[i] == digits_of(v as nat)[0]) by {
                assert(s.subrange(i, i + print_int(v).len())[0] == print_int(v)[0]);
            }
            assert(!at(s, i, '-'));
        }
    } else {
        let m = (-v) as nat;
        assert(print_int(v) == seq!['-'] + digits_of(m));
        lemma_split(s, i, seq!['-'], digits_of(m));
        assert(s[i] == '-') by {
            assert(s.subrange(i, i + 1)[0] == '-');
        }
        lemma_number_complete(s, i + 1, m, 0x8000_0000_0000_0000);
        lemma_digits_are_digits(m);
    }
}

/// A printed attribute value, followed by no digit, parses back.
proof fn lemma_value_complete(s: Seq<char>, i: int, v: AttrValueV)
    requires
        0 <= i,
        i + print_value(v).len() <= s.len(),
        s.subrange(i, i + print_value(v).len()) == print_value(v),
        i + print_value(v).len() == s.len() || !is_digit_c(s[i + print_value(v).len()]),
    ensures
        sp_value(s, i) == Some((v, i + print_value(v).len())),
{
    reveal_strlit("null");
    reveal_strlit("true");
    reveal_strlit("false");
    match v {
        AttrValueV::NullV => {
            assert("null"@.len() == 4);
            assert(s[i] == 'n') by {
                assert(s.subrange(i, i + 4)[0] == "null"@[0]);
            }
            lemma_lit_complete(s, i, "null"@);
            assert(!at(s, i, '"'));
        },
        AttrValueV::BoolV(b) => {
            if b {
                assert("true"@.len() == 4);
                assert(s[i] == 't') by {
                    assert(s.subrange(i, i + 4)[0] == "true"@[0]);
                }
                lemma_lit_complete(s, i, "true"@);
            } else {
                assert("false"@.len() == 5);
                assert(s[i] == 'f') by {
                    assert(s.subrange(i, i + 5)[0] == "false"@[0]);
                }
                lemma_lit_complete(s, i, "false"@);
            }
        },
        AttrValueV::IntV(n) => {
            lemma_int_complete(s, i, n as int);
            lemma_digits_are_digits((if n >= 0 {
                n as int
            } else {
                -(n as int)
            }) as nat);
            if n >= 0 {
                assert(s[i] == digits_of(n as nat)[0]) by {
                    assert(s.subrange(i, i + print_int(n as int).len())[0] == print_int(
                        n as int,
                    )[0]);
                }
                assert(is_digit_c(s[i]));
            } else {
                assert(s[i] == '-') by {
                    assert(s.subrange(i, i + print_int(n as int).len())[0] == print_int(
                        n as int,
                    )[0]);
                }
            }
            assert(!at(s, i, '"') && !at(s, i, 'n') && !at(s, i, 't') && !at(s, i, 'f'));
        },
        AttrValueV::StrV(t) => {
            assert(s[i] == '"') by {
                assert(s.subrange(i, i + print_value(v).len())[0] == print_value(v)[0]);
            }
            lemma_string_complete(s, i, t);
        },
    }
}

/// A printed entry, followed by no digit, parses back.
proof fn lemma_entry_complete(s: Seq<char>, i: int, e: AttrEntryV)
    requires
        0 <= i,
        i + print_entry(e).len() <= s.len(),
        s.subrange(i, i + print_entry(e).len()) == print_entry(e),
        i + print_entry(e).len() == s.len() || !is_digit_c(s[i + print_entry(e).len()]),
    ensures
        sp_entry(s, i) == Some((e, i + print_entry(e).len())),
{
    let pk = print_str(e.key);
    let pv = print_value(e.value);
    assert(print_entry(e) =~= pk + (seq![':'] + pv));
    lemma_split(s, i, pk, seq![':'] + pv);
    lemma_string_complete(s, i, e.key);
    let j = i + pk.len();
    lemma_split(s, j, seq![':'], pv);
    assert(s[j] == ':') by {
        assert(s.subrange(j, j + 1)[0] == ':');
    }
    lemma_value_complete(s, j + 1, e.value);
}

/// The comma-led tail entries of a mapping parse back.
proof fn lemma_attrs_rest_complete(s: Seq<char>, i: int, m: Seq<AttrEntryV>, fuel: nat)
    requires
        0 <= i,
        fuel >= m.len(),
        i + print_entries_rest(m).len() < s.len(),
        s.subrange(i, i + print_entries_rest(m).len()) == print_entries_rest(m),
        s[i + print_entries_rest(m).len()] == '}',
    ensures
        sp_attrs_rest(s, i, fuel) == Some((m, i + print_entries_rest(m).len() + 1)),
    decreases m.len(),
{
    if m.len() == 0 {
        assert(print_entries_rest(m).len() == 0);
        assert(s[i] == '}');
        assert(sp_attrs_rest(s, i, fuel) == Some((Seq::<AttrEntryV>::empty(), i + 1)));
        assert(Seq::<AttrEntryV>::empty() =~= m);
    } else {
        let e = m[0];
        let rest = m.drop_first();
        let pe = print_entry(e);
        let pr = print_entries_rest(rest);
        assert(print_entries_rest(m) == seq![','] + pe + pr);
        assert(print_entries_rest(m) =~= seq![','] + (pe + pr));
        lemma_split(s, i, seq![','], pe + pr);
        assert(s[i] == ',') by {
            assert(s.subrange(i, i + 1)[0] == ',');
        }
        lemma_split(s, i + 1, pe, pr);
        let j = i + 1 + pe.len();
        // the entry ends at a comma or the closing brace, never a digit
        assert(j == i + print_entries_rest(m).len() || s[j] == ',') by {
            if rest.len() > 0 {
                assert(pr[0] == ',') by {
                    assert(print_entries_rest(rest) == seq![','] + print_entry(rest[0])
                        + print_entries_rest(rest.drop_first()));
                }
                assert(s[j] == pr[0]) by {
                    assert(s.subrange(j, j + pr.len())[0] == pr[0]);
                }
            } else {
                assert(pr.len() == 0);
            }
        }
        assert(!is_digit_c(s[j])) by {
            if j == i + print_entries_rest(m).len() {
                assert(s[j] == '}');
            }
        }
        lemma_entry_complete(s, i + 1, e);
        lemma_attrs_rest_complete(s, j, rest, (fuel - 1) as nat);
        assert(s[j + pr.len()] == '}');
        assert(seq![e] + rest =~= m);
        assert(at(s, i, ',') && fuel > 0);
    }
}

/// The comma-led form of an entry sequence: what follows the first entry.
pub open spec fn print_entries_rest(m: Seq<AttrEntryV>) -> Seq<char>
    decreases m.len(),
{
    if m.len() == 0 {
        Seq::empty()
    } else {
        seq![','] + print_entry(m[0]) + print_entries_rest(m.drop_first())
    }
}

/// The one-piece and comma-led entry prints agree.
proof fn lemma_print_entries_shift(m: Seq<AttrEntryV>)
    requires
        m.len() > 0,
    ensures
        print_entries(m) == print_entry(m[0]) + print_entries_rest(m.drop_first()),
    decreases m.len(),
{
    if m.len() == 1 {
        assert(print_entries_rest(m.drop_first()).len() == 0);
        assert(print_entries(m) =~= print_entry(m[0]) + print_entries_rest(m.drop_first()));
    } else {
        lemma_print_entries_shift(m.drop_first());
        assert(m.drop_first()[0] == m[1]);
        assert(print_entries(m) == print_entry(m[0]) + seq![','] + print_entries(
            m.drop_first(),
        ));
        assert(print_entries(m) =~= print_entry(m[0]) + print_entries_rest(m.drop_first()));
    }
}

/// A printed attribute mapping parses back.
proof fn lemma_attrs_complete(s: Seq<char>, i: int, m: Seq<AttrEntryV>, fuel: nat)
    requires
        0 <= i,
        fuel >= m.len(),
        i + print_attrs(m).len() <= s.len(),
        s.subrange(i, i + print_attrs(m).len()) == print_attrs(m),
    ensures
        sp_attrs(s, i, fuel) == Some((m, i + print_attrs(m).len())),
{
    let pe = print_entries(m);
    assert(print_attrs(m) =~= seq!['{'] + (pe + seq!['}']));
    lemma_split(s, i, seq!['{'], pe + seq!['}']);
    assert(s[i] == '{') by {
        assert(s.subrange(i, i + 1)[0] == '{');
    }
    lemma_split(s, i + 1, pe, seq!['}']);
    assert(s[i + 1 + pe.len()] == '}') by {
        assert(s.subrange(i + 1 + pe.len(), i + 2 + pe.len())[0] == '}');
    }
    if m.len() == 0 {
        assert(pe.len() == 0);
        assert(s[i + 1] == '}');
    } else {
        lemma_print_entries_shift(m);
        let e = m[0];
        let rest = m.drop_first();
        let pfirst = print_entry(e);
        let prest = print_entries_rest(rest);
        lemma_split(s, i + 1, pfirst, prest);
        let j = i + 1 + pfirst.len();
        assert(j == i + 1 + pe.len() || s[j] == ',') by {
            if rest.len() > 0 {
                assert(prest[0] == ',') by {
                    assert(print_entries_rest(rest) == seq![','] + print_entry(rest[0])
                        + print_entries_rest(rest.drop_first()));
                }
                assert(s[j] == prest[0]) by {
                    assert(s.subrange(j, j + prest.len())[0] == prest[0]);
                }
            } else {
                assert(prest.len() == 0);
            }
        }
        assert(!is_digit_c(s[j])) by {
            if j == i + 1 + pe.len() {
                assert(s[j] == '}');
            }
        }
        lemma_entry_complete(s, i + 1, e);
        lemma_attrs_rest_complete(s, j, rest, fuel);
        assert(s[j + prest.len()] == '}');
        // the first character of the first entry is a quote, not a brace
        assert(s[i + 1] == '"') by {
            assert(pfirst[0] == '"');
            assert(s.subrange(i + 1, i + 1 + pfirst.len())[0] == pfirst[0]);
        }
        assert(!at(s, i + 1, '}'));
        assert(seq![e] + rest =~= m);
    }
}

/// The comma-led tail entries are at least as long as their count.
proof fn lemma_entries_count(m: Seq<AttrEntryV>)
    ensures
        print_entries_rest(m).len() >= m.len(),
        print_entries(m).len() >= m.len(),
    decreases m.len(),
{
    if m.len() > 0 {
        lemma_entries_count(m.drop_first());
        lemma_print_entries_shift(m);
        assert(print_entry(m[0]).len() >= 0);
    }
}

/// A printed embed parses back.
proof fn lemma_embed_complete(s: Seq<char>, i: int, e: EmbedsV)
    requires
        0 <= i,
        i + print_embed(e).len() <= s.len(),
        s.subrange(i, i + print_embed(e).len()) == print_embed(e),
    ensures
        sp_embed(s, i) == Some((e, i + print_embed(e).len())),
{
    reveal_strlit("video");
    reveal_strlit("image");
    reveal_strlit("formula");
    assert("video"@.len() == 5);
    assert("image"@.len() == 5);
    assert("formula"@.len() == 7);
    assert("video"@ != "image"@) by {
        assert("video"@[0] == 'v' && "image"@[0] == 'i');
    }
    let tag = embed_tag_s(e);
    let value = embed_value_s(e);
    let pt = print_str(tag);
    let pv = print_str(value);
    assert(print_embed(e) =~= seq!['{'] + (pt + (seq![':'] + (pv + seq!['}']))));
    lemma_split(s, i, seq!['{'], pt + (seq![':'] + (pv + seq!['}'])));
    assert(s[i] == '{') by {
        assert(s.subrange(i, i + 1)[0] == '{');
    }
    lemma_split(s, i + 1, pt, seq![':'] + (pv + seq!['}']));
    lemma_string_complete(s, i + 1, tag);
    let j = i + 1 + pt.len();
    lemma_split(s, j, seq![':'], pv + seq!['}']);
    assert(s[j] == ':') by {
        assert(s.subrange(j, j + 1)[0] == ':');
    }
    lemma_split(s, j + 1, pv, seq!['}']);
    lemma_string_complete(s, j + 1, value);
    let k = j + 1 + pv.len();
    assert(s[k] == '}') by {
        assert(s.subrange(k, k + 1)[0] == '}');
    }
}

/// A printed op record parses back.
#[verifier::rlimit(100)]
#[verifier::spinoff_prover]
proof fn lemma_op_complete(s: Seq<char>, i: int, op: OpV, fuel: nat)
    requires
        0 <= i,
        fuel >= print_op(op).len(),
        0 <= op_len(op) <= usize::MAX as int,
        i + print_op(op).len() <= s.len(),
        s.subrange(i, i + print_op(op).len()) == print_op(op),
    ensures
        sp_op(s, i, fuel) == Some((op, i + print_op(op).len())),
{
    reveal_strlit("{\"insert\":");
    reveal_strlit("{\"delete\":");
    reveal_strlit("{\"retain\":");
    let ilit = "{\"insert\":"@;
    let dlit = "{\"delete\":"@;
    let rlit = "{\"retain\":"@;
    assert(ilit.len() == 10 && dlit.len() == 10 && rlit.len() == 10);
    assert(ilit != dlit) by {
        assert(ilit[2] == 'i' && dlit[2] == 'd');
    }
    assert(ilit != rlit) by {
        assert(ilit[2] == 'i' && rlit[2] == 'r');
    }
    assert(dlit != rlit) by {
        assert(dlit[2] == 'd' && rlit[2] == 'r');
    }
    reveal_strlit(",\"attributes\":");
    let alit = ",\"attributes\":"@;
    assert(alit.len() == 14);
    match op {
        OpV::InsertV(t, a) => {
            let pt = print_str(t);
            let pa = print_attrs(a);
            assert(print_op(op) =~= ilit + (pt + (alit + (pa + seq!['}']))));
            lemma_split(s, i, ilit, pt + (alit + (pa + seq!['}'])));
            lemma_lit_complete(s, i, ilit);
            let j = i + 10;
            lemma_split(s, j, pt, alit + (pa + seq!['}']));
            assert(s[j] == '"') by {
                assert(s.subrange(j, j + pt.len())[0] == pt[0]);
            }
            lemma_string_complete(s, j, t);
            let k = j + pt.len();
            lemma_split(s, k, alit, pa + seq!['}']);
            lemma_lit_complete(s, k, alit);
            let m = k + 14;
            lemma_split(s, m, pa, seq!['}']);
            lemma_entries_count(a);
            lemma_attrs_complete(s, m, a, fuel);
            let q = m + pa.len();
            assert(s[q] == '}') by {
                assert(s.subrange(q, q + 1)[0] == '}');
            }
        },
        OpV::InsertEmbedV(e, a) => {
            let pe = print_embed(e);
            let pa = print_attrs(a);
            assert(print_op(op) =~= ilit + (pe + (alit + (pa + seq!['}']))));
            lemma_split(s, i, ilit, pe + (alit + (pa + seq!['}'])));
            lemma_lit_complete(s, i, ilit);
            let j = i + 10;
            lemma_split(s, j, pe, alit + (pa + seq!['}']));
            assert(s[j] == '{') by {
                assert(s.subrange(j, j + pe.len())[0] == pe[0]);
            }
            assert(!at(s, j, '"'));
            lemma_embed_complete(s, j, e);
            let k = j + pe.len();
            lemma_split(s, k, alit, pa + seq!['}']);
            lemma_lit_complete(s, k, alit);
            let m = k + 14;
            lemma_split(s, m, pa, seq!['}']);
            lemma_entries_count(a);
            lemma_attrs_complete(s, m, a, fuel);
            let q = m + pa.len();
            assert(s[q] == '}') by {
                assert(s.subrange(q, q + 1)[0] == '}');
            }
        },
        OpV::DeleteV(n) => {
            let pn = print_int(n);
            assert(print_op(op) =~= dlit + (pn + seq!['}']));
            lemma_split(s, i, dlit, pn + seq!['}']);
            // the insert rule cannot fire: the literals differ
            assert(sp_lit(s, i, ilit) is None) by {
                if sp_lit(s, i, ilit) is Some {
                    assert(s.subrange(i, i + 10) == ilit);
                    assert(s.subrange(i, i + 10) == dlit);
                }
            }
            lemma_lit_complete(s, i, dlit);
            let j = i + 10;
            lemma_split(s, j, pn, seq!['}']);
            let k = j + pn.len();
            assert(s[k] == '}') by {
                assert(s.subrange(k, k + 1)[0] == '}');
            }
            assert(!is_digit_c('}'));
            lemma_int_complete(s, j, n);
        },
        OpV::RetainV(n, a) => {
            let pn = print_int(n);
            let pa = print_attrs(a);
            assert(print_op(op) =~= rlit + (pn + (alit + (pa + seq!['}']))));
            lemma_split(s, i, rlit, pn + (alit + (pa + seq!['}'])));
            assert(sp_lit(s, i, ilit) is None) by {
                if sp_lit(s, i, ilit) is Some {
                    assert(s.subrange(i, i + 10) == ilit);
                    assert(s.subrange(i, i + 10) == rlit);
                }
            }
            assert(sp_lit(s, i, dlit) is None) by {
                if sp_lit(s, i, dlit) is Some {
                    assert(s.subrange(i, i + 10) == dlit);
                    assert(s.subrange(i, i + 10) == rlit);
                }
            }
            lemma_lit_complete(s, i, rlit);
            let j = i + 10;
            lemma_split(s, j, pn, alit + (pa + seq!['}']));
            let k = j + pn.len();
            assert(s[k] == ',') by {
                assert(alit[0] == ',');
                assert(s.subrange(k, k + alit.len() + pa.len() + 1)[0] == (alit + (pa + seq![
                    '}',
                ]))[0]);
            }
            assert(!is_digit_c(','));
            lemma_int_complete(s, j, n);
            lemma_split(s, k, alit, pa + seq!['}']);
            lemma_lit_complete(s, k, alit);
            let m = k + 14;
            lemma_split(s, m, pa, seq!['}']);
            lemma_entries_count(a);
            lemma_attrs_complete(s, m, a, fuel);
            let q = m + pa.len();
            assert(s[q] == '}') by {
                assert(s.subrange(q, q + 1)[0] == '}');
            }
        },
    }
}

/// The comma-led form of an op sequence: what follows the first op.
pub open spec fn print_ops_rest(ops: Seq<OpV>) -> Seq<char>
    decreases ops.len(),
{
    if ops.len() == 0 {
        Seq::empty()
    } else {
        seq![','] + print_op(ops[0]) + print_ops_rest(ops.drop_first())
    }
}

/// The one-piece and comma-led op prints agree.
proof fn lemma_print_ops_shift(ops: Seq<OpV>)
    requires
        ops.len() > 0,
    ensures
        print_ops(ops) == print_op(ops[0]) + print_ops_rest(ops.drop_first()),
    decreases ops.len(),
{
    if ops.len() == 1 {
        assert(print_ops_rest(ops.drop_first()).len() == 0);
        assert(print_ops(ops) =~= print_op(ops[0]) + print_ops_rest(ops.drop_first()));
    } else {
        lemma_print_ops_shift(ops.drop_first());
        assert(ops.drop_first()[0] == ops[1]);
        assert(print_ops(ops) == print_op(ops[0]) + seq![','] + print_ops(ops.drop_first()));
        assert(print_ops(ops) =~= print_op(ops[0]) + print_ops_rest(ops.drop_first()));
    }
}

/// The comma-led op tail is at least as long as its count.
proof fn lemma_ops_count(ops: Seq<OpV>)
    ensures
        print_ops_rest(ops).len() >= ops.len(),
    decreases ops.len(),
{
    if ops.len() > 0 {
        lemma_ops_count(ops.drop_first());
    }
}

/// The comma-led tail ops of a delta parse back.
proof fn lemma_ops_rest_complete(s: Seq<char>, i: int, ops: Seq<OpV>, fuel: nat)
    requires
        0 <= i,
        fuel >= print_ops_rest(ops).len(),
        forall|k: int| 0 <= k < ops.len() ==> 0 <= op_len(#[trigger] ops[k]) <= usize::MAX as int,
        i + print_ops_rest(ops).len() < s.len(),
        s.subrange(i, i + print_ops_rest(ops).len()) == print_ops_rest(ops),
        s[i + print_ops_rest(ops).len()] == ']',
    ensures
        sp_ops_rest(s, i, fuel) == Some((ops, i + print_ops_rest(ops).len() + 1)),
    decreases ops.len(),
{
    if ops.len() == 0 {
        assert(print_ops_rest(ops).len() == 0);
        assert(s[i] == ']');
        assert(sp_ops_rest(s, i, fuel) == Some((Seq::<OpV>::empty(), i + 1)));
        assert(Seq::<OpV>::empty() =~= ops);
    } else {
        let op = ops[0];
        let rest = ops.drop_first();
        let po = print_op(op);
        let pr = print_ops_rest(rest);
        assert(print_ops_rest(ops) == seq![','] + po + pr);
        assert(print_ops_rest(ops) =~= seq![','] + (po + pr));
        lemma_split(s, i, seq![','], po + pr);
        assert(s[i] == ',') by {
            assert(s.subrange(i, i + 1)[0] == ',');
        }
        lemma_split(s, i + 1, po, pr);
        lemma_ops_count(rest);
        lemma_op_complete(s, i + 1, op, fuel);
        let j = i + 1 + po.len();
        assert(forall|k: int|
            0 <= k < rest.len() ==> 0 <= op_len(#[trigger] rest[k]) <= usize::MAX as int) by {
            assert(forall|k: int| 0 <= k < rest.len() ==> #[trigger] rest[k] == ops[k + 1]);
        }
        lemma_ops_rest_complete(s, j, rest, (fuel - 1) as nat);
        assert(s[j + pr.len()] == ']');
        assert(seq![op] + rest =~= ops);
        assert(at(s, i, ',') && fuel > 0);
    }
}

/// Every operation covers at most the whole delta's length.
proof fn lemma_total_each(ops: Seq<OpV>)
    requires
        forall|i: int| 0 <= i < ops.len() ==> op_len(#[trigger] ops[i]) >= 0,
    ensures
        forall|i: int| 0 <= i < ops.len() ==> op_len(#[trigger] ops[i]) <= total_len_s(ops),
    decreases ops.len(),
{
    if ops.len() > 0 {
        let pre = ops.drop_last();
        assert(forall|i: int| 0 <= i < pre.len() ==> #[trigger] pre[i] == ops[i]);
        lemma_total_each(pre);
        crate::ops::lemma_total_nonneg(pre);
        assert(ops[ops.len() - 1] == ops.last());
        crate::ops::lemma_total_nonneg(ops);
        assert forall|i: int|
            0 <= i < pre.len() implies op_len(#[trigger] ops[i]) <= total_len_s(pre) by {
            assert(pre[i] == ops[i]);
        }
    }
}

/// Key-unique attributes survive deduplication unchanged.
proof fn lemma_dedup_id(m: Seq<AttrEntryV>)
    requires
        crate::attrs::unique_keys(m),
    ensures
        crate::attrs::dedup_s(m) == m,
    decreases m.len(),
{
    if m.len() == 0 {
        assert(crate::attrs::dedup_s(m) =~= m);
    } else {
        let pre = m.drop_last();
        assert(forall|i: int| 0 <= i < pre.len() ==> #[trigger] pre[i] == m[i]);
        lemma_dedup_id(pre);
        assert(!crate::attrs::has_key(pre, m.last().key)) by {
            if crate::attrs::has_key(pre, m.last().key) {
                let w = choose|w: int|
                    0 <= w < pre.len() && #[trigger] pre[w].key == m.last().key;
                assert(m[w].key == m[m.len() - 1].key);
            }
        }
        crate::vocab::lemma_remove_absent(pre, m.last().key);
        assert(crate::attrs::dedup_s(m) =~= m);
    }
}

/// Tombstone-free attributes survive tombstone removal unchanged.
proof fn lemma_drop_nulls_id(m: Seq<AttrEntryV>)
    requires
        crate::attrs::no_nulls(m),
    ensures
        crate::attrs::drop_nulls_s(m) == m,
    decreases m.len(),
{
    if m.len() == 0 {
        assert(crate::attrs::drop_nulls_s(m) =~= m);
    } else {
        let pre = m.drop_last();
        assert(forall|i: int| 0 <= i < pre.len() ==> #[trigger] pre[i] == m[i]);
        lemma_drop_nulls_id(pre);
        assert(m[m.len() - 1] == m.last());
        assert(crate::attrs::drop_nulls_s(m) =~= m);
    }
}

/// A canonical delta survives sanitizing unchanged.
proof fn lemma_sanitize_id(ops: Seq<OpV>)
    requires
        crate::ops::canonical(ops),
    ensures
        sanitize_seq_s(ops) == ops,
{
    assert forall|i: int| 0 <= i < ops.len() implies #[trigger] sanitize_seq_s(ops)[i]
        == ops[i] by {
        assert(crate::ops::op_attrs_wf(ops[i]));
        match ops[i] {
            OpV::InsertV(t, a) => {
                lemma_dedup_id(a);
                lemma_drop_nulls_id(a);
            },
            OpV::InsertEmbedV(e, a) => {
                lemma_dedup_id(a);
                lemma_drop_nulls_id(a);
            },
            OpV::DeleteV(_) => {},
            OpV::RetainV(n, a) => {
                lemma_dedup_id(a);
            },
        }
    }
    assert(sanitize_seq_s(ops) =~= ops);
}

/// A canonical delta survives canonicalization unchanged: the canonical
/// form is a fixed point.
pub proof fn lemma_canon_id(ops: Seq<OpV>)
    requires
        crate::ops::canonical(ops),
    ensures
        canon(ops) == ops,
    decreases ops.len(),
{
    if ops.len() == 0 {
    } else {
        let pre = ops.drop_last();
        crate::ops::lemma_canonical_drop_last(ops);
        lemma_canon_id(pre);
        crate::ops::lemma_push_seq_append(Seq::empty(), pre, seq![ops.last()]);
        assert(pre + seq![ops.last()] =~= ops);
        assert(crate::ops::push_seq(Seq::empty(), ops) == crate::ops::push_seq(
            pre,
            seq![ops.last()],
        ));
        assert(crate::ops::push_seq(pre, seq![ops.last()]) == crate::ops::push_seq(
            crate::ops::push_op(pre, ops.last()),
            seq![ops.last()].drop_first(),
        )) by {
            assert(seq![ops.last()][0] == ops.last());
        }
        assert(seq![ops.last()].drop_first() =~= Seq::<OpV>::empty());
        assert(ops[ops.len() - 1] == ops.last());
        assert(op_len(ops.last()) > 0);
        if pre.len() > 0 {
            assert(pre[pre.len() - 1] == ops[ops.len() - 2]);
            assert(!crate::ops::mergeable(pre.last(), ops.last()));
        }
        assert(crate::ops::push_op(pre, ops.last()) == pre.push(ops.last())) by {
            if pre.len() == 0 {
                assert(seq![ops.last()] =~= pre.push(ops.last()));
            }
        }
        assert(pre.push(ops.last()) =~= ops);
    }
}

/// The serialization round-trip law: the printed form of any well-formed
/// delta parses back to exactly that delta, consuming the whole text, and
/// re-canonicalizing it changes nothing.  Together with the contracts of
/// `to_text` and `from_text` this gives `from_text(to_text(d)) == d`.
#[verifier::rlimit(100)]
pub proof fn lemma_text_round_trip(ops: Seq<OpV>)
    requires
        crate::ops::canonical(ops),
        total_len_s(ops) <= usize::MAX as int,
    ensures
        sp_delta(print_delta(ops)) == Some((ops, print_delta(ops).len() as int)),
        canon(sanitize_seq_s(ops)) == ops,
{
    lemma_sanitize_id(ops);
    lemma_canon_id(ops);
    let s = print_delta(ops);
    let po = print_ops(ops);
    assert(s == seq!['['] + po + seq![']']);
    assert(s =~= seq!['['] + (po + seq![']']));
    assert(s.subrange(0, s.len() as int) =~= s);
    lemma_split(s, 0, seq!['['], po + seq![']']);
    assert(s[0] == '[') by {
        assert(s.subrange(0, 1)[0] == '[');
    }
    lemma_split(s, 1, po, seq![']']);
    assert(s[1 + po.len() as int] == ']') by {
        assert(s.subrange(1 + po.len() as int, 2 + po.len() as int)[0] == ']');
    }
    assert(forall|i: int| 0 <= i < ops.len() ==> op_len(#[trigger] ops[i]) >= 0);
    lemma_total_each(ops);
    if ops.len() == 0 {
        assert(po.len() == 0);
        assert(s[1] == ']');
        assert(s.len() == 2);
    } else {
        lemma_print_ops_shift(ops);
        let op = ops[0];
        let rest = ops.drop_first();
        let pfirst = print_op(op);
        let prest = print_ops_rest(rest);
        lemma_split(s, 1, pfirst, prest);
        lemma_ops_count(rest);
        // the first record opens with a brace, so the empty-delta rule
        // cannot fire
        assert(s[1] == '{') by {
            reveal_strlit("{\"insert\":");
            reveal_strlit("{\"delete\":");
            reveal_strlit("{\"retain\":");
            assert(pfirst[0] == '{');
            assert(s.subrange(1, 1 + pfirst.len() as int)[0] == pfirst[0]);
        }
        assert(!at(s, 1, ']'));
        assert(forall|k: int|
            0 <= k < ops.len() ==> 0 <= op_len(#[trigger] ops[k]) <= usize::MAX as int);
        lemma_op_complete(s, 1, op, s.len() as nat);
        let j: int = 1 + pfirst.len() as int;
        assert(forall|k: int|
            0 <= k < rest.len() ==> 0 <= op_len(#[trigger] rest[k]) <= usize::MAX as int) by {
            assert(forall|k: int| 0 <= k < rest.len() ==> #[trigger] rest[k] == ops[k + 1]);
        }
        lemma_ops_rest_complete(s, j, rest, s.len() as nat);
        assert(s[j + prest.len() as int] == ']');
        assert(seq![op] + rest =~= ops);
    }
}

// ---------------------------------------------------------------------------
// The executable parser
// ---------------------------------------------------------------------------

/// The characters of a string slice.
pub fn str_to_chars(s: &str) -> (r: Vec<char>)
    ensures
        r@ == s@,
{
    let n = s.unicode_len();
    let mut out: Vec<char> = Vec::new();
    let mut i: usize = 0;
    while i < n
        invariant
            n == s@.len(),
            i <= n,
            out@ =~= s@.subrange(0, i as int),
        decreases n - i,
    {
        out.push(s.get_char(i));
        i += 1;
    }
    proof {
        assert(out@ =~= s@);
    }
    out
}

/// A string built from characters.
pub fn chars_to_string(v: &Vec<char>) -> (r: String)
    ensures
        r@ == v@,
{
    let mut out = String::new();
    let n = v.len();
    let mut i: usize = 0;
    while i < n
        invariant
            n == v.len(),
            i <= n,
            out@ =~= v@.subrange(0, i as int),
        decreases n - i,
    {
        push_char(&mut out, v[i]);
        i += 1;
    }
    proof {
        assert(out@ =~= v@);
    }
    out
}

/// Do the characters spell the literal?
fn chars_eq_lit(v: &Vec<char>, lit: &str) -> (r: bool)
    ensures
        r == (v@ == lit@),
{
    let n = v.len();
    if n != lit.unicode_len() {
        return false;
    }
    let mut i: usize = 0;
    while i < n
        invariant
            n == v.len(),
            n == lit@.len(),
            i <= n,
            forall|j: int| 0 <= j < i ==> v@[j] == lit@[j],
        decreases n - i,
    {
        if v[i] != lit.get_char(i) {
            return false;
        }
        i += 1;
    }
    proof {
        assert(v@ =~= lit@);
    }
    true
}

fn p_lit(v: &Vec<char>, i: usize, lit: &str) -> (r: Result<usize, DeltaError>)
    requires
        i <= v@.len(),
    ensures
        match r {
            Ok(j) => sp_lit(v@, i as int, lit@) == Some(j as int) && i <= j <= v@.len(),
            Err(_) => sp_lit(v@, i as int, lit@) is None,
        },
{
    let l = lit.unicode_len();
    if l > v.len() - i {
        return Err(DeltaError::InvalidOperation);
    }
    let mut k: usize = 0;
    while k < l
        invariant
            l == lit@.len(),
            i + l <= v@.len(),
            i + l <= usize::MAX as int,
            k <= l,
            forall|j: int| 0 <= j < k ==> v@[i + j] == lit@[j],
        decreases l - k,
    {
        if v[i + k] != lit.get_char(k) {
            proof {
                assert(v@.subrange(i as int, i as int + lit@.len())[k as int] != lit@[k as int]);
            }
            return Err(DeltaError::InvalidOperation);
        }
        k += 1;
    }
    proof {
        assert(v@.subrange(i as int, i as int + lit@.len()) =~= lit@);
    }
    Ok(i + l)
}

fn p_str_body(v: &Vec<char>, i: usize) -> (r: Result<(Vec<char>, usize), DeltaError>)
    ensures
        match r {
            Ok((t, j)) => sp_str_body(v@, i as int) == Some((t@, j as int)) && i < j <= v@.len(),
            Err(_) => sp_str_body(v@, i as int) is None,
        },
    decreases v@.len() - i,
{
    let n = v.len();
    if i >= n {
        return Err(DeltaError::InvalidOperation);
    }
    let c = v[i];
    if c == '"' {
        let t: Vec<char> = Vec::new();
        proof {
            assert(t@ =~= Seq::<char>::empty());
        }
        Ok((t, i + 1))
    } else if c == '\\' {
        if i + 1 < n {
            let c2 = v[i + 1];
            if c2 == '"' || c2 == '\\' {
                match p_str_body(v, i + 2) {
                    Ok((mut t, j)) => {
                        t.insert(0, c2);
                        proof {
                            assert(t@ =~= seq![v@[i as int + 1]] + t@.drop_first());
                        }
                        Ok((t, j))
                    },
                    Err(e) => Err(e),
                }
            } else {
                Err(DeltaError::InvalidOperation)
            }
        } else {
            Err(DeltaError::InvalidOperation)
        }
    } else {
        match p_str_body(v, i + 1) {
            Ok((mut t, j)) => {
                t.insert(0, c);
                proof {
                    assert(t@ =~= seq![v@[i as int]] + t@.drop_first());
                }
                Ok((t, j))
            },
            Err(e) => Err(e),
        }
    }
}

fn p_string(v: &Vec<char>, i: usize) -> (r: Result<(Vec<char>, usize), DeltaError>)
    ensures
        match r {
            Ok((t, j)) => sp_string(v@, i as int) == Some((t@, j as int)) && i < j <= v@.len(),
            Err(_) => sp_string(v@, i as int) is None,
        },
{
    if i < v.len() {
        let c = v[i];
        if c == '"' {
            return p_str_body(v, i + 1);
        }
    }
    Err(DeltaError::InvalidOperation)
}

fn is_digit_e(c: char) -> (r: bool)
    ensures
        r == is_digit_c(c),
{
    c == '0' || c == '1' || c == '2' || c == '3' || c == '4' || c == '5' || c == '6' || c == '7'
        || c == '8' || c == '9'
}

fn digit_val_e(c: char) -> (r: u64)
    requires
        is_digit_c(c),
    ensures
        r as int == digit_val(c),
        r < 10,
{
    if c == '0' {
        0
    } else if c == '1' {
        1
    } else if c == '2' {
        2
    } else if c == '3' {
        3
    } else if c == '4' {
        4
    } else if c == '5' {
        5
    } else if c == '6' {
        6
    } else if c == '7' {
        7
    } else if c == '8' {
        8
    } else {
        9
    }
}

/// The value of a digit string is never negative.
proof fn lemma_num_nonneg(ds: Seq<char>)
    ensures
        num_of(ds) >= 0,
    decreases ds.len(),
{
    if ds.len() > 0 {
        lemma_num_nonneg(ds.drop_last());
        assert(digit_val(ds.last()) >= 0);
    }
}

/// The first non-digit comes at or after `i`, and not past the end.
proof fn lemma_fnd_bounds(s: Seq<char>, i: int)
    requires
        0 <= i <= s.len(),
    ensures
        i <= first_nondigit(s, i) <= s.len(),
    decreases s.len() - i,
{
    if i < s.len() && is_digit_c(s[i]) {
        lemma_fnd_bounds(s, i + 1);
    }
}

/// A digit string's prefixes never exceed its value.
proof fn lemma_num_prefix(ds: Seq<char>, k: int)
    requires
        0 <= k <= ds.len(),
    ensures
        num_of(ds.subrange(0, k)) <= num_of(ds),
    decreases ds.len() - k,
{
    if k == ds.len() {
        assert(ds.subrange(0, k) =~= ds);
    } else {
        lemma_num_prefix(ds, k + 1);
        let p1 = ds.subrange(0, k + 1);
        assert(p1.drop_last() =~= ds.subrange(0, k));
        assert(p1.last() == ds[k]);
        lemma_num_nonneg(ds.subrange(0, k));
        assert(digit_val(ds[k]) >= 0);
    }
}

fn p_number(v: &Vec<char>, i: usize, bound: u64) -> (r: Result<(u64, usize), DeltaError>)
    requires
        i <= v@.len(),
    ensures
        match r {
            Ok((n, j)) => sp_number(v@, i as int, bound as int) == Some((n as int, j as int)) && i
                < j <= v@.len() && n <= bound,
            Err(_) => sp_number(v@, i as int, bound as int) is None,
        },
{
    let n_len = v.len();
    if i >= n_len || !is_digit_e(v[i]) {
        return Err(DeltaError::InvalidOperation);
    }
    let ghost fnd = first_nondigit(v@, i as int);
    let mut j: usize = i;
    let mut acc: u64 = 0;
    proof {
        assert(v@.subrange(i as int, i as int) =~= Seq::<char>::empty());
        lemma_fnd_bounds(v@, i as int);
    }
    loop
        invariant
            i <= j <= n_len,
            n_len == v@.len(),
            i < n_len,
            is_digit_c(v@[i as int]),
            fnd == first_nondigit(v@, i as int),
            i <= fnd <= n_len,
            first_nondigit(v@, j as int) == fnd,
            forall|k: int| i <= k < j ==> is_digit_c(#[trigger] v@[k]),
            acc as int == num_of(v@.subrange(i as int, j as int)),
            acc <= bound,
        ensures
            i < j <= n_len,
            j == fnd,
            acc as int == num_of(v@.subrange(i as int, j as int)),
            acc <= bound,
        decreases n_len - j,
    {
        if j >= n_len || !is_digit_e(v[j]) {
            proof {
                assert(first_nondigit(v@, j as int) == j);
                assert(j > i) by {
                    if j == i {
                        assert(is_digit_c(v@[j as int]));
                    }
                }
            }
            break;
        }
        let d = digit_val_e(v[j]);
        proof {
            assert(v@.subrange(i as int, j as int + 1).drop_last() =~= v@.subrange(
                i as int,
                j as int,
            ));
            assert(v@.subrange(i as int, j as int + 1).last() == v@[j as int]);
            assert(first_nondigit(v@, j as int) == first_nondigit(v@, j as int + 1));
            lemma_fnd_bounds(v@, j as int + 1);
        }
        if d > bound || acc > (bound - d) / 10 {
            proof {
                // the final number can only be larger than this prefix
                let full = v@.subrange(i as int, fnd);
                lemma_num_nonneg(v@.subrange(i as int, j as int));
                assert(acc as int * 10 + d > bound);
                assert(num_of(v@.subrange(i as int, j as int + 1)) > bound);
                assert(j + 1 <= fnd);
                assert(v@.subrange(i as int, j as int + 1) =~= full.subrange(
                    0,
                    j as int + 1 - i,
                ));
                lemma_num_prefix(full, j as int + 1 - i);
                assert(num_of(full) > bound);
            }
            return Err(DeltaError::InvalidOperation);
        }
        acc = acc * 10 + d;
        j += 1;
    }
    Ok((acc, j))
}

fn p_int(v: &Vec<char>, i: usize) -> (r: Result<(i64, usize), DeltaError>)
    requires
        i <= v@.len(),
    ensures
        match r {
            Ok((x, j)) => sp_int(v@, i as int) == Some((x as int, j as int)) && i < j <= v@.len(),
            Err(_) => sp_int(v@, i as int) is None,
        },
{
    if i < v.len() && v[i] == '-' {
        match p_number(v, i + 1, 0x8000_0000_0000_0000u64) {
            Ok((m, j)) => {
                let x: i64 = if m == 0x8000_0000_0000_0000u64 {
                    i64::MIN
                } else {
                    -(m as i64)
                };
                Ok((x, j))
            },
            Err(e) => Err(e),
        }
    } else {
        match p_number(v, i, 0x7fff_ffff_ffff_ffffu64) {
            Ok((m, j)) => Ok((m as i64, j)),
            Err(e) => Err(e),
        }
    }
}

fn p_value(v: &Vec<char>, i: usize) -> (r: Result<(AttrValue, usize), DeltaError>)
    requires
        i <= v@.len(),
    ensures
        match r {
            Ok((x, j)) => sp_value(v@, i as int) == Some((x@, j as int)) && i < j <= v@.len(),
            Err(_) => sp_value(v@, i as int) is None,
        },
{
    if i >= v.len() {
        return Err(DeltaError::InvalidOperation);
    }
    let c = v[i];
    if c == '"' {
        match p_string(v, i) {
            Ok((t, j)) => Ok((AttrValue::Str(chars_to_string(&t)), j)),
            Err(e) => Err(e),
        }
    } else if c == 'n' {
        match p_lit(v, i, "null") {
            Ok(j) => {
                proof {
                    reveal_strlit("null");
                    assert(i < j);
                }
                Ok((AttrValue::Null, j))
            },
            Err(e) => Err(e),
        }
    } else if c == 't' {
        match p_lit(v, i, "true") {
            Ok(j) => {
                proof {
                    reveal_strlit("true");
                    assert(i < j);
                }
                Ok((AttrValue::Bool(true), j))
            },
            Err(e) => Err(e),
        }
    } else if c == 'f' {
        match p_lit(v, i, "false") {
            Ok(j) => {
                proof {
                    reveal_strlit("false");
                    assert(i < j);
                }
                Ok((AttrValue::Bool(false), j))
            },
            Err(e) => Err(e),
        }
    } else {
        match p_int(v, i) {
            Ok((x, j)) => Ok((AttrValue::Int(x), j)),
            Err(e) => Err(e),
        }
    }
}

fn p_entry(v: &Vec<char>, i: usize) -> (r: Result<(AttrEntry, usize), DeltaError>)
    requires
        i <= v@.len(),
    ensures
        match r {
            Ok((e, j)) => sp_entry(v@, i as int) == Some((e@, j as int)) && i < j <= v@.len(),
            Err(_) => sp_entry(v@, i as int) is None,
        },
{
    match p_string(v, i) {
        Ok((k, j)) => {
            if j < v.len() && v[j] == ':' {
                match p_value(v, j + 1) {
                    Ok((val, m)) => Ok((AttrEntry { key: chars_to_string(&k), value: val }, m)),
                    Err(e) => Err(e),
                }
            } else {
                Err(DeltaError::InvalidOperation)
            }
        },
        Err(e) => Err(e),
    }
}

fn p_attrs_rest(v: &Vec<char>, i: usize, fuel: usize) -> (r: Result<
    (Vec<AttrEntry>, usize),
    DeltaError,
>)
    requires
        i <= v@.len(),
    ensures
        match r {
            Ok((es, j)) => sp_attrs_rest(v@, i as int, fuel as nat) == Some(
                (es.deep_view(), j as int),
            ) && i < j <= v@.len(),
            Err(_) => sp_attrs_rest(v@, i as int, fuel as nat) is None,
        },
    decreases fuel,
{
    if i < v.len() && v[i] == '}' {
        let es: Vec<AttrEntry> = Vec::new();
        proof {
            assert(es.deep_view() =~= Seq::<AttrEntryV>::empty());
        }
        return Ok((es, i + 1));
    }
    if i < v.len() && v[i] == ',' && fuel > 0 {
        match p_entry(v, i + 1) {
            Ok((e, j)) => match p_attrs_rest(v, j, fuel - 1) {
                Ok((mut es, k)) => {
                    let ghost pre = es.deep_view();
                    let ghost ev = e@;
                    es.insert(0, e);
                    proof {
                        assert(es.deep_view() =~= seq![ev] + pre);
                    }
                    Ok((es, k))
                },
                Err(er) => Err(er),
            },
            Err(er) => Err(er),
        }
    } else {
        Err(DeltaError::InvalidOperation)
    }
}

fn p_attrs(v: &Vec<char>, i: usize, fuel: usize) -> (r: Result<(AttrMap, usize), DeltaError>)
    requires
        i <= v@.len(),
    ensures
        match r {
            Ok((m, j)) => sp_attrs(v@, i as int, fuel as nat) == Some((m@, j as int)) && i < j
                <= v@.len(),
            Err(_) => sp_attrs(v@, i as int, fuel as nat) is None,
        },
{
    if i < v.len() && v[i] == '{' {
        if i + 1 < v.len() && v[i + 1] == '}' {
            let m = AttrMap { entries: Vec::new() };
            proof {
                assert(m@ =~= Seq::<AttrEntryV>::empty());
            }
            return Ok((m, i + 2));
        }
        match p_entry(v, i + 1) {
            Ok((e, j)) => match p_attrs_rest(v, j, fuel) {
                Ok((mut es, k)) => {
                    let ghost pre = es.deep_view();
                    let ghost ev = e@;
                    es.insert(0, e);
                    proof {
                        assert(es.deep_view() =~= seq![ev] + pre);
                    }
                    Ok((AttrMap { entries: es }, k))
                },
                Err(er) => Err(er),
            },
            Err(er) => Err(er),
        }
    } else {
        Err(DeltaError::InvalidOperation)
    }
}

fn p_embed(v: &Vec<char>, i: usize) -> (r: Result<(Embeds, usize), DeltaError>)
    requires
        i <= v@.len(),
    ensures
        match r {
            Ok((e, j)) => sp_embed(v@, i as int) == Some((e@, j as int)) && i < j <= v@.len(),
            Err(_) => sp_embed(v@, i as int) is None,
        },
{
    if !(i < v.len() && v[i] == '{') {
        return Err(DeltaError::InvalidOperation);
    }
    match p_string(v, i + 1) {
        Ok((tag, j)) => {
            if !(j < v.len() && v[j] == ':') {
                return Err(DeltaError::InvalidOperation);
            }
            match p_string(v, j + 1) {
                Ok((val, k)) => {
                    if !(k < v.len() && v[k] == '}') {
                        return Err(DeltaError::InvalidOperation);
                    }
                    let s = chars_to_string(&val);
                    if chars_eq_lit(&tag, "video") {
                        Ok((Embeds::Video(s), k + 1))
                    } else if chars_eq_lit(&tag, "image") {
                        Ok((Embeds::Image(s), k + 1))
                    } else if chars_eq_lit(&tag, "formula") {
                        Ok((Embeds::Formula(s), k + 1))
                    } else {
                        Err(DeltaError::InvalidOperation)
                    }
                },
                Err(e) => Err(e),
            }
        },
        Err(e) => Err(e),
    }
}

fn p_op(v: &Vec<char>, i: usize, fuel: usize) -> (r: Result<(DeltaOps, usize), DeltaError>)
    requires
        i <= v@.len(),
    ensures
        match r {
            Ok((op, j)) => sp_op(v@, i as int, fuel as nat) == Some((op@, j as int)) && i < j
                <= v@.len(),
            Err(_) => sp_op(v@, i as int, fuel as nat) is None,
        },
{
    if let Ok(j) = p_lit(v, i, "{\"insert\":") {
        proof {
            reveal_strlit("{\"insert\":");
            assert("{\"insert\":"@.len() == 10);
        }
        if j < v.len() && v[j] == '"' {
            match p_string(v, j) {
                Ok((t, k)) => match p_lit(v, k, ",\"attributes\":") {
                    Ok(m) => match p_attrs(v, m, fuel) {
                        Ok((a, q)) => {
                            if q < v.len() && v[q] == '}' {
                                Ok((DeltaOps::Insert(chars_to_string(&t), a), q + 1))
                            } else {
                                Err(DeltaError::InvalidOperation)
                            }
                        },
                        Err(e) => Err(e),
                    },
                    Err(e) => Err(e),
                },
                Err(e) => Err(e),
            }
        } else {
            match p_embed(v, j) {
                Ok((emb, k)) => match p_lit(v, k, ",\"attributes\":") {
                    Ok(m) => match p_attrs(v, m, fuel) {
                        Ok((a, q)) => {
                            if q < v.len() && v[q] == '}' {
                                Ok((DeltaOps::InsertEmbed(emb, a), q + 1))
                            } else {
                                Err(DeltaError::InvalidOperation)
                            }
                        },
                        Err(e) => Err(e),
                    },
                    Err(e) => Err(e),
                },
                Err(e) => Err(e),
            }
        }
    } else if let Ok(j) = p_lit(v, i, "{\"delete\":") {
        proof {
            reveal_strlit("{\"delete\":");
        }
        match p_number(v, j, usize::MAX as u64) {
            Ok((n, k)) => {
                if k < v.len() && v[k] == '}' {
                    Ok((DeltaOps::Delete(n as usize), k + 1))
                } else {
                    Err(DeltaError::InvalidOperation)
                }
            },
            Err(e) => Err(e),
        }
    } else if let Ok(j) = p_lit(v, i, "{\"retain\":") {
        proof {
            reveal_strlit("{\"retain\":");
        }
        match p_number(v, j, usize::MAX as u64) {
            Ok((n, k)) => match p_lit(v, k, ",\"attributes\":") {
                Ok(m) => match p_attrs(v, m, fuel) {
                    Ok((a, q)) => {
                        if q < v.len() && v[q] == '}' {
                            Ok((DeltaOps::Retain(n as usize, a), q + 1))
                        } else {
                            Err(DeltaError::InvalidOperation)
                        }
                    },
                    Err(e) => Err(e),
                },
                Err(e) => Err(e),
            },
            Err(e) => Err(e),
        }
    } else {
        Err(DeltaError::InvalidOperation)
    }
}

fn p_ops_rest(v: &Vec<char>, i: usize, fuel: usize) -> (r: Result<
    (Vec<DeltaOps>, usize),
    DeltaError,
>)
    requires
        i <= v@.len(),
    ensures
        match r {
            Ok((ops, j)) => sp_ops_rest(v@, i as int, fuel as nat) == Some(
                (ops.deep_view(), j as int),
            ) && i < j <= v@.len(),
            Err(_) => sp_ops_rest(v@, i as int, fuel as nat) is None,
        },
    decreases fuel,
{
    if i < v.len() && v[i] == ']' {
        let ops: Vec<DeltaOps> = Vec::new();
        proof {
            assert(ops.deep_view() =~= Seq::<OpV>::empty());
        }
        return Ok((ops, i + 1));
    }
    if i < v.len() && v[i] == ',' && fuel > 0 {
        match p_op(v, i + 1, fuel) {
            Ok((op, j)) => match p_ops_rest(v, j, fuel - 1) {
                Ok((mut ops, k)) => {
                    let ghost pre = ops.deep_view();
                    let ghost opv = op@;
                    ops.insert(0, op);
                    proof {
                        assert(ops.deep_view() =~= seq![opv] + pre);
                    }
                    Ok((ops, k))
                },
                Err(er) => Err(er),
            },
            Err(er) => Err(er),
        }
    } else {
        Err(DeltaError::InvalidOperation)
    }
}

impl Delta {
    /// This delta's textual serialization.
    pub fn to_text(&self) -> (r: String)
        ensures
            r@ == print_delta(self@),
    {
        let mut out = String::new();
        push_char(&mut out, '[');
        w_ops(&mut out, &self.ops, 0);
        push_char(&mut out, ']');
        proof {
            assert(self@.skip(0) =~= self@);
            assert(out@ =~= print_delta(self@));
        }
        out
    }

    /// Parse a textual serialization back into a delta.  The whole input
    /// must be one well-formed delta record; the parsed operations are
    /// canonicalized.  Anything else is an `InvalidOperation`.
    #[verifier::rlimit(100)]
    pub fn from_text(s: &str) -> (r: Result<Delta, DeltaError>)
        ensures
            match r {
                Ok(d) => sp_delta(s@) matches Some((ops, j)) && j == s@.len() && total_len_s(ops)
                    <= usize::MAX as int && d@ == canon(sanitize_seq_s(ops)) && d.wf(),
                Err(e) => e == DeltaError::InvalidOperation && match sp_delta(s@) {
                    Some((ops, j)) => j != s@.len() || total_len_s(ops) > usize::MAX as int,
                    None => true,
                },
            },
    {
        let v = str_to_chars(s);
        let n = v.len();
        if !(0 < n && v[0] == '[') {
            return Err(DeltaError::InvalidOperation);
        }
        if 1 < n && v[1] == ']' {
            if n == 2 {
                let d = Delta::new();
                proof {
                    assert(sanitize_seq_s(Seq::<OpV>::empty()) =~= Seq::<OpV>::empty());
                    assert(canon(Seq::<OpV>::empty()) == Seq::<OpV>::empty());
                }
                return Ok(d);
            } else {
                return Err(DeltaError::InvalidOperation);
            }
        }
        let parsed = match p_op(&v, 1, n) {
            Ok((op, j)) => match p_ops_rest(&v, j, n) {
                Ok((mut ops, k)) => {
                    let ghost pre = ops.deep_view();
                    let ghost opv = op@;
                    ops.insert(0, op);
                    proof {
                        assert(ops.deep_view() =~= seq![opv] + pre);
                        assert(!at(v@, 1, ']'));
                        assert(sp_delta(v@) == Some((ops.deep_view(), k as int)));
                    }
                    Some((ops, k))
                },
                Err(_) => None,
            },
            Err(_) => None,
        };
        match parsed {
            Some((ops, k)) => {
                if k != n {
                    return Err(DeltaError::InvalidOperation);
                }
                // the parsed operations' combined length must fit a machine
                // word before they can form a delta
                let ghost opsv = ops.deep_view();
                let m = ops.len();
                let mut total: usize = 0;
                let mut i: usize = 0;
                proof {
                    assert(total_len_s(opsv.subrange(0, 0)) == 0);
                    assert(forall|q: int|
                        0 <= q < opsv.len() ==> op_len(#[trigger] opsv[q]) >= 0);
                }
                while i < m
                    invariant
                        m == ops.len(),
                        opsv == ops.deep_view(),
                        i <= m,
                        sp_delta(s@) == Some((opsv, s@.len() as int)),
                        forall|q: int| 0 <= q < opsv.len() ==> op_len(#[trigger] opsv[q]) >= 0,
                        total as int == total_len_s(opsv.subrange(0, i as int)),
                    decreases m - i,
                {
                    proof {
                        assert(opsv.subrange(0, i as int + 1).drop_last() =~= opsv.subrange(
                            0,
                            i as int,
                        ));
                        assert(opsv.subrange(0, i as int + 1).last() == opsv[i as int]);
                    }
                    let l: usize = match &ops[i] {
                        DeltaOps::Insert(t, _) => t.as_str().unicode_len(),
                        DeltaOps::InsertEmbed(_, _) => 1,
                        DeltaOps::Delete(k2) => *k2,
                        DeltaOps::Retain(k2, _) => *k2,
                    };
                    proof {
                        assert(l as int == op_len(opsv[i as int]));
                    }
                    if l > usize::MAX - total {
                        proof {
                            crate::ops::lemma_total_prefix(opsv, i as int + 1);
                        }
                        return Err(DeltaError::InvalidOperation);
                    }
                    total += l;
                    i += 1;
                }
                proof {
                    assert(opsv.subrange(0, m as int) =~= opsv);
                }
                Ok(Delta::from_ops(ops))
            },
            None => Err(DeltaError::InvalidOperation),
        }
    }
}

} // verus!
