//! The backing-file format: one flat object per line, in a JSON-style
//! syntax over bytes.
//!
//! A line is `{"name":value,...}` where a value is a fixed-point number
//! (up to six fraction digits), a quoted byte string with the escapes
//! `\" \\ \/ \n \t \r`, `true`, `false`, or `null`. Spaces, tabs and
//! carriage returns may separate tokens. The grammar is defined by the
//! spec functions below; the executable renderer and parser are proved
//! against them.

use vstd::prelude::*;

use crate::snapshot::wf_byte;
use crate::snapshot::wf_record;
use crate::snapshot::wf_text;
use crate::snapshot::wf_val;
use crate::snapshot::FieldVal;
use crate::snapshot::FieldValue;
use crate::snapshot::RecordModel;
use crate::snapshot::SnapshotRecord;

verus! {

/// Largest numeric magnitude, in millionths, that a rendered number may
/// carry: `i64::MAX`.
pub const MAX_NUM_MAGNITUDE: u64 = 0x7fff_ffff_ffff_ffff;

/// Largest value of the integer part of a parsed number: `i64::MAX`
/// divided by the fixed-point scale.
pub const MAX_INT_PART: u64 = 9_223_372_036_854;

// ---------------------------------------------------------------------
// Rendering
// ---------------------------------------------------------------------

/// How one text byte is written: the active bytes and the three escaped
/// control bytes get a two-byte escape; everything else stands as itself.
pub open spec fn esc_seq(b: u8) -> Seq<u8> {
    if b == 0x22 {
        seq![0x5cu8, 0x22u8]
    } else if b == 0x5c {
        seq![0x5cu8, 0x5cu8]
    } else if b == 0x0a {
        seq![0x5cu8, 0x6eu8]
    } else if b == 0x09 {
        seq![0x5cu8, 0x74u8]
    } else if b == 0x0d {
        seq![0x5cu8, 0x72u8]
    } else {
        seq![b]
    }
}

pub open spec fn render_text(t: Seq<u8>) -> Seq<u8>
    decreases t.len(),
{
    if t.len() == 0 {
        Seq::empty()
    } else {
        esc_seq(t[0]) + render_text(t.drop_first())
    }
}

/// A quoted, escaped string.
pub open spec fn render_string(t: Seq<u8>) -> Seq<u8> {
    seq![0x22u8] + render_text(t) + seq![0x22u8]
}

/// Decimal digits of `n` (no sign, no leading zeros; `0` is `"0"`).
pub open spec fn dec_digits(n: int) -> Seq<u8>
    decreases n,
{
    if n <= 9 {
        seq![(0x30 + if n >= 0 { n } else { 0 }) as u8]
    } else {
        dec_digits(n / 10) + seq![(0x30 + n % 10) as u8]
    }
}

/// The lowest `w` decimal digits of `n`, with leading zeros.
pub open spec fn padded_digits(n: int, w: nat) -> Seq<u8>
    decreases w,
{
    if w == 0 {
        Seq::empty()
    } else {
        padded_digits(n / 10, (w - 1) as nat) + seq![(0x30 + n % 10) as u8]
    }
}

/// Drops trailing zero digits.
pub open spec fn strip_zeros(s: Seq<u8>) -> Seq<u8>
    decreases s.len(),
{
    if s.len() > 0 && s.last() == 0x30 {
        strip_zeros(s.drop_last())
    } else {
        s
    }
}

/// A fixed-point number in millionths: optional sign, integer part, and,
/// when the fraction is non-zero, a point and the fraction digits with
/// trailing zeros removed.
pub open spec fn render_num(v: i64) -> Seq<u8> {
    let mag = if v < 0 { -(v as int) } else { v as int };
    let sign: Seq<u8> = if v < 0 { seq![0x2du8] } else { Seq::empty() };
    let ip = mag / 1_000_000;
    let fr = mag % 1_000_000;
    if fr == 0 {
        sign + dec_digits(ip)
    } else {
        sign + dec_digits(ip) + seq![0x2eu8] + strip_zeros(padded_digits(fr, 6))
    }
}

pub open spec fn render_val(v: FieldVal) -> Seq<u8> {
    match v {
        FieldVal::Num(n) => render_num(n),
        FieldVal::Text(t) => render_string(t),
        FieldVal::Flag(b) => if b {
            seq![0x74u8, 0x72u8, 0x75u8, 0x65u8]
        } else {
            seq![0x66u8, 0x61u8, 0x6cu8, 0x73u8, 0x65u8]
        },
        FieldVal::Null => seq![0x6eu8, 0x75u8, 0x6cu8, 0x6cu8],
    }
}

pub open spec fn render_pair(p: (Seq<u8>, FieldVal)) -> Seq<u8> {
    render_string(p.0) + seq![0x3au8] + render_val(p.1)
}

/// The fields of a record, comma separated.
pub open spec fn render_fields(m: RecordModel) -> Seq<u8>
    decreases m.len(),
{
    if m.len() == 0 {
        Seq::empty()
    } else if m.len() == 1 {
        render_pair(m[0])
    } else {
        render_pair(m[0]) + seq![0x2cu8] + render_fields(m.drop_first())
    }
}

/// One whole line (without the terminating newline).
pub open spec fn render_record(m: RecordModel) -> Seq<u8> {
    seq![0x7bu8] + render_fields(m) + seq![0x7du8]
}

// ---------------------------------------------------------------------
// Parsing
// ---------------------------------------------------------------------

pub open spec fn is_ws(b: u8) -> bool {
    b == 0x20 || b == 0x09 || b == 0x0d
}

pub open spec fn is_digit(b: u8) -> bool {
    0x30 <= b <= 0x39
}

/// First position at or after `i` that does not hold whitespace.
pub open spec fn skip_ws(s: Seq<u8>, i: int) -> int
    decreases s.len() - i,
{
    if 0 <= i < s.len() && is_ws(s[i]) {
        skip_ws(s, i + 1)
    } else {
        i
    }
}

/// End of the run of digit bytes that starts at `i`.
pub open spec fn digits_end(s: Seq<u8>, i: int) -> int
    decreases s.len() - i,
{
    if 0 <= i < s.len() && is_digit(s[i]) {
        digits_end(s, i + 1)
    } else {
        i
    }
}

/// Value of the digit run `s[i..j)`, read most significant first.
pub open spec fn digits_val(s: Seq<u8>, i: int, j: int) -> int
    decreases j - i,
{
    if i >= j {
        0
    } else {
        digits_val(s, i, j - 1) * 10 + (s[j - 1] - 0x30)
    }
}

pub open spec fn pow10(w: nat) -> int
    decreases w,
{
    if w == 0 {
        1
    } else {
        10 * pow10((w - 1) as nat)
    }
}

/// Whether `e` may follow a backslash, and what it stands for.
pub open spec fn is_esc(e: u8) -> bool {
    e == 0x22 || e == 0x5c || e == 0x2f || e == 0x6e || e == 0x74 || e == 0x72
}

pub open spec fn esc_val(e: u8) -> u8 {
    if e == 0x6e {
        0x0a
    } else if e == 0x74 {
        0x09
    } else if e == 0x72 {
        0x0d
    } else {
        e
    }
}

/// Body of a quoted string, from just after the opening quote to the
/// closing quote; yields the unescaped bytes and the position after the
/// closing quote.
pub open spec fn parse_str_body(s: Seq<u8>, i: int) -> Option<(Seq<u8>, int)>
    decreases s.len() - i,
{
    if i < 0 || i >= s.len() {
        None
    } else if s[i] == 0x22 {
        Some((Seq::empty(), i + 1))
    } else if s[i] == 0x5c {
        if i + 1 < s.len() && is_esc(s[i + 1]) {
            match parse_str_body(s, i + 2) {
                None => None,
                Some((t, j)) => Some((seq![esc_val(s[i + 1])] + t, j)),
            }
        } else {
            None
        }
    } else if s[i] >= 0x20 {
        match parse_str_body(s, i + 1) {
            None => None,
            Some((t, j)) => Some((seq![s[i]] + t, j)),
        }
    } else {
        None
    }
}

pub open spec fn parse_string(s: Seq<u8>, i: int) -> Option<(Seq<u8>, int)> {
    if 0 <= i < s.len() && s[i] == 0x22 {
        parse_str_body(s, i + 1)
    } else {
        None
    }
}

/// A number starting at `i`: optional minus, integer digits, optionally a
/// point and one to six fraction digits; the magnitude in millionths must
/// fit `i64::MAX`.
pub open spec fn parse_number(s: Seq<u8>, i: int) -> Option<(i64, int)> {
    let neg = 0 <= i < s.len() && s[i] == 0x2d;
    let i0 = if neg { i + 1 } else { i };
    let j = digits_end(s, i0);
    if j == i0 {
        None
    } else {
        let ip = digits_val(s, i0, j);
        if j < s.len() && s[j] == 0x2e {
            let k = digits_end(s, j + 1);
            let fd = k - (j + 1);
            if fd < 1 || fd > 6 {
                None
            } else {
                let mag = ip * 1_000_000 + digits_val(s, j + 1, k) * pow10((6 - fd) as nat);
                if mag > i64::MAX {
                    None
                } else {
                    Some(((if neg { -mag } else { mag }) as i64, k))
                }
            }
        } else {
            let mag = ip * 1_000_000;
            if mag > i64::MAX {
                None
            } else {
                Some(((if neg { -mag } else { mag }) as i64, j))
            }
        }
    }
}

/// Whether the literal bytes of `lit` stand at position `i` of `s`.
pub open spec fn has_lit(s: Seq<u8>, i: int, lit: Seq<u8>) -> bool {
    0 <= i && i + lit.len() <= s.len() && s.subrange(i, i + lit.len()) == lit
}

pub open spec fn lit_true() -> Seq<u8> {
    seq![0x74u8, 0x72u8, 0x75u8, 0x65u8]
}

pub open spec fn lit_false() -> Seq<u8> {
    seq![0x66u8, 0x61u8, 0x6cu8, 0x73u8, 0x65u8]
}

pub open spec fn lit_null() -> Seq<u8> {
    seq![0x6eu8, 0x75u8, 0x6cu8, 0x6cu8]
}

pub open spec fn parse_value(s: Seq<u8>, i: int) -> Option<(FieldVal, int)> {
    if i < 0 || i >= s.len() {
        None
    } else if s[i] == 0x22 {
        match parse_string(s, i) {
            None => None,
            Some((t, j)) => Some((FieldVal::Text(t), j)),
        }
    } else if s[i] == 0x74 {
        if has_lit(s, i, lit_true()) {
            Some((FieldVal::Flag(true), i + 4))
        } else {
            None
        }
    } else if s[i] == 0x66 {
        if has_lit(s, i, lit_false()) {
            Some((FieldVal::Flag(false), i + 5))
        } else {
            None
        }
    } else if s[i] == 0x6e {
        if has_lit(s, i, lit_null()) {
            Some((FieldVal::Null, i + 4))
        } else {
            None
        }
    } else if s[i] == 0x2d || is_digit(s[i]) {
        match parse_number(s, i) {
            None => None,
            Some((v, j)) => Some((FieldVal::Num(v), j)),
        }
    } else {
        None
    }
}

/// `"name" ws* : ws* value`.
pub open spec fn parse_pair(s: Seq<u8>, i: int) -> Option<((Seq<u8>, FieldVal), int)> {
    match parse_string(s, i) {
        None => None,
        Some((name, j)) => {
            let j2 = skip_ws(s, j);
            if j2 < s.len() && s[j2] == 0x3a {
                let j3 = skip_ws(s, j2 + 1);
                match parse_value(s, j3) {
                    None => None,
                    Some((v, k)) => Some(((name, v), k)),
                }
            } else {
                None
            }
        },
    }
}

/// One or more pairs separated by commas; the returned position has any
/// trailing whitespace already skipped.
pub open spec fn parse_members(s: Seq<u8>, i: int) -> Option<(RecordModel, int)>
    decreases s.len() - i,
{
    match parse_pair(s, i) {
        None => None,
        Some((p, j)) => {
            let j2 = skip_ws(s, j);
            if j2 < s.len() && s[j2] == 0x2c {
                let j3 = skip_ws(s, j2 + 1);
                if i < j3 && j3 <= s.len() {
                    match parse_members(s, j3) {
                        None => None,
                        Some((rest, k)) => Some((seq![p] + rest, k)),
                    }
                } else {
                    None
                }
            } else {
                Some((seq![p], j2))
            }
        },
    }
}

/// `{ ws* }` or `{ ws* members }`.
pub open spec fn parse_object(s: Seq<u8>, i: int) -> Option<(RecordModel, int)> {
    if 0 <= i < s.len() && s[i] == 0x7b {
        let j = skip_ws(s, i + 1);
        if j < s.len() && s[j] == 0x7d {
            Some((Seq::empty(), j + 1))
        } else {
            match parse_members(s, j) {
                None => None,
                Some((m, k)) => if k < s.len() && s[k] == 0x7d {
                    Some((m, k + 1))
                } else {
                    None
                },
            }
        }
    } else {
        None
    }
}

/// A whole line: one object, possibly surrounded by whitespace.
pub open spec fn parse_line(s: Seq<u8>) -> Option<RecordModel> {
    let i = skip_ws(s, 0);
    match parse_object(s, i) {
        None => None,
        Some((m, j)) => if skip_ws(s, j) == s.len() {
            Some(m)
        } else {
            None
        },
    }
}

// ---------------------------------------------------------------------
// Executable renderer
// ---------------------------------------------------------------------

/// Appends all of `src` to `out`.
fn append_bytes(out: &mut Vec<u8>, src: &[u8])
    ensures
        final(out)@ == old(out)@ + src@,
{
    let n = src.len();
    let mut i: usize = 0;
    while i < n
        invariant
            n == src@.len(),
            i <= n,
            out@ == old(out)@ + src@.take(i as int),
        decreases n - i,
    {
        out.push(src[i]);
        assert(out@ =~= old(out)@ + src@.take(i + 1));
        i += 1;
    }
    assert(src@.take(n as int) =~= src@);
}

proof fn lemma_render_text_snoc(t: Seq<u8>, b: u8)
    ensures
        render_text(t.push(b)) == render_text(t) + esc_seq(b),
    decreases t.len(),
{
    if t.len() == 0 {
        assert(t.push(b) =~= seq![b]);
        assert(render_text(Seq::<u8>::empty()) == Seq::<u8>::empty());
        assert(seq![b].drop_first() =~= Seq::<u8>::empty());
        assert(seq![b][0] == b);
        assert(render_text(seq![b]) == esc_seq(b) + render_text(Seq::<u8>::empty()));
        assert(render_text(t.push(b)) =~= render_text(t) + esc_seq(b));
    } else {
        assert(t.push(b).drop_first() =~= t.drop_first().push(b));
        lemma_render_text_snoc(t.drop_first(), b);
        assert(render_text(t.push(b)) =~= render_text(t) + esc_seq(b));
    }
}

/// Appends the escaped form of `t` to `out` (no quotes).
fn push_escaped(out: &mut Vec<u8>, t: &[u8])
    ensures
        final(out)@ == old(out)@ + render_text(t@),
{
    let n = t.len();
    let mut i: usize = 0;
    while i < n
        invariant
            n == t@.len(),
            i <= n,
            out@ == old(out)@ + render_text(t@.take(i as int)),
        decreases n - i,
    {
        let b = t[i];
        if b == 0x22 {
            out.push(0x5c);
            out.push(0x22);
        } else if b == 0x5c {
            out.push(0x5c);
            out.push(0x5c);
        } else if b == 0x0a {
            out.push(0x5c);
            out.push(0x6e);
        } else if b == 0x09 {
            out.push(0x5c);
            out.push(0x74);
        } else if b == 0x0d {
            out.push(0x5c);
            out.push(0x72);
        } else {
            out.push(b);
        }
        proof {
            lemma_render_text_snoc(t@.take(i as int), t@[i as int]);
            assert(t@.take(i + 1) =~= t@.take(i as int).push(t@[i as int]));
            assert(out@ =~= old(out)@ + render_text(t@.take(i + 1)));
        }
        i += 1;
    }
    assert(t@.take(n as int) =~= t@);
}

/// Appends `"` escaped-text `"` to `out`.
fn push_string(out: &mut Vec<u8>, t: &[u8])
    ensures
        final(out)@ == old(out)@ + render_string(t@),
{
    out.push(0x22);
    push_escaped(out, t);
    out.push(0x22);
    assert(out@ =~= old(out)@ + render_string(t@));
}

/// Appends the decimal digits of `n`.
pub(crate) fn push_dec(out: &mut Vec<u8>, n: u64)
    ensures
        final(out)@ == old(out)@ + dec_digits(n as int),
    decreases n,
{
    if n <= 9 {
        out.push(0x30 + n as u8);
        assert(out@ =~= old(out)@ + dec_digits(n as int));
    } else {
        push_dec(out, n / 10);
        out.push(0x30 + (n % 10) as u8);
        assert(out@ =~= old(out)@ + dec_digits(n as int));
    }
}

/// Appends the lowest `w` decimal digits of `n`, with leading zeros.
fn push_padded(out: &mut Vec<u8>, n: u64, w: u8)
    ensures
        final(out)@ == old(out)@ + padded_digits(n as int, w as nat),
    decreases w,
{
    if w > 0 {
        push_padded(out, n / 10, w - 1);
        out.push(0x30 + (n % 10) as u8);
        assert(out@ =~= old(out)@ + padded_digits(n as int, w as nat));
    } else {
        assert(out@ =~= old(out)@ + padded_digits(n as int, 0));
    }
}

/// Appends the rendering of the fixed-point number `v`.
fn push_num(out: &mut Vec<u8>, v: i64)
    ensures
        final(out)@ == old(out)@ + render_num(v),
{
    let neg = v < 0;
    let mag: u64 = if neg {
        (-(v as i128)) as u64
    } else {
        v as u64
    };
    assert(mag as int == if v < 0 { -(v as int) } else { v as int });
    if neg {
        out.push(0x2d);
    }
    let ip: u64 = mag / 1_000_000;
    let fr: u64 = mag % 1_000_000;
    push_dec(out, ip);
    if fr != 0 {
        out.push(0x2e);
        let mut buf: Vec<u8> = Vec::new();
        push_padded(&mut buf, fr, 6);
        while buf.len() > 0 && buf[buf.len() - 1] == 0x30
            invariant
                strip_zeros(buf@) == strip_zeros(padded_digits(fr as int, 6)),
            decreases buf@.len(),
        {
            buf.pop();
        }
        assert(buf@ == strip_zeros(padded_digits(fr as int, 6)));
        append_bytes(out, buf.as_slice());
    }
    assert(final(out)@ =~= old(out)@ + render_num(v));
}

/// Appends the rendering of one field value.
fn push_val(out: &mut Vec<u8>, v: &FieldValue)
    ensures
        final(out)@ == old(out)@ + render_val(v@),
{
    match v {
        FieldValue::Num(n) => {
            push_num(out, *n);
        },
        FieldValue::Text(t) => {
            push_string(out, t.as_slice());
        },
        FieldValue::Flag(b) => {
            if *b {
                out.push(0x74);
                out.push(0x72);
                out.push(0x75);
                out.push(0x65);
            } else {
                out.push(0x66);
                out.push(0x61);
                out.push(0x6c);
                out.push(0x73);
                out.push(0x65);
            }
            assert(out@ =~= old(out)@ + render_val(v@));
        },
        FieldValue::Null => {
            out.push(0x6e);
            out.push(0x75);
            out.push(0x6c);
            out.push(0x6c);
            assert(out@ =~= old(out)@ + render_val(v@));
        },
    }
}

proof fn lemma_render_fields_snoc(m: RecordModel, p: (Seq<u8>, FieldVal))
    ensures
        render_fields(m.push(p)) == if m.len() == 0 {
            render_pair(p)
        } else {
            render_fields(m) + seq![0x2cu8] + render_pair(p)
        },
    decreases m.len(),
{
    if m.len() == 0 {
        assert(m.push(p) =~= seq![p]);
        assert(render_fields(seq![p]) == render_pair(p));
    } else {
        assert(m.push(p).drop_first() =~= m.drop_first().push(p));
        lemma_render_fields_snoc(m.drop_first(), p);
        if m.len() == 1 {
            assert(render_fields(m.push(p)) =~= render_fields(m) + seq![0x2cu8] + render_pair(p));
        } else {
            assert(render_fields(m.push(p)) =~= render_fields(m) + seq![0x2cu8] + render_pair(p));
        }
    }
}

/// Renders a record as one line of the backing-file format.
pub fn render_record_bytes(rec: &SnapshotRecord) -> (r: Vec<u8>)
    ensures
        r@ == render_record(rec@),
{
    let mut out: Vec<u8> = Vec::new();
    out.push(0x7b);
    let fields = rec.raw_fields();
    let n = fields.len();
    let mut i: usize = 0;
    while i < n
        invariant
            n == fields@.len(),
            n == rec@.len(),
            forall|k: int| 0 <= k < n ==> (#[trigger] rec@[k]) == (fields@[k].0@, fields@[k].1@),
            i <= n,
            out@ == seq![0x7bu8] + render_fields(rec@.take(i as int)),
        decreases n - i,
    {
        if i > 0 {
            out.push(0x2c);
        }
        push_string(&mut out, fields[i].0.as_slice());
        out.push(0x3a);
        push_val(&mut out, &fields[i].1);
        proof {
            lemma_render_fields_snoc(rec@.take(i as int), rec@[i as int]);
            assert(rec@.take(i + 1) =~= rec@.take(i as int).push(rec@[i as int]));
            assert(out@ =~= seq![0x7bu8] + render_fields(rec@.take(i + 1)));
        }
        i += 1;
    }
    out.push(0x7d);
    assert(rec@.take(n as int) =~= rec@);
    assert(out@ =~= render_record(rec@));
    out
}

// ---------------------------------------------------------------------
// Executable parser
// ---------------------------------------------------------------------

/// Model of a collected field list.
pub open spec fn pairs_model(v: Seq<(Vec<u8>, FieldValue)>) -> RecordModel {
    v.map_values(|p: (Vec<u8>, FieldValue)| (p.0@, p.1@))
}

fn x_skip_ws(s: &[u8], i: usize) -> (r: usize)
    requires
        i <= s@.len(),
    ensures
        i <= r <= s@.len(),
        r as int == skip_ws(s@, i as int),
{
    let mut j: usize = i;
    while j < s.len() && (s[j] == 0x20 || s[j] == 0x09 || s[j] == 0x0d)
        invariant
            i <= j <= s@.len(),
            skip_ws(s@, i as int) == skip_ws(s@, j as int),
        decreases s@.len() - j,
    {
        j += 1;
    }
    j
}

proof fn lemma_digits_val_bounds(s: Seq<u8>, i: int, j: int)
    requires
        0 <= i <= j <= s.len(),
        forall|k: int| i <= k < j ==> is_digit(#[trigger] s[k]),
    ensures
        0 <= digits_val(s, i, j) < pow10((j - i) as nat),
    decreases j - i,
{
    if i < j {
        lemma_digits_val_bounds(s, i, j - 1);
        assert(pow10((j - i) as nat) == 10 * pow10((j - i - 1) as nat));
    }
}

fn x_parse_string(s: &[u8], i: usize) -> (r: Option<(Vec<u8>, usize)>)
    requires
        i <= s@.len(),
    ensures
        match r {
            Some(p) => {
                &&& parse_string(s@, i as int) == Some((p.0@, p.1 as int))
                &&& i < p.1 <= s@.len()
            },
            None => parse_string(s@, i as int) is None,
        },
{
    if i >= s.len() || s[i] != 0x22 {
        return None;
    }
    let mut cur: usize = i + 1;
    let mut out: Vec<u8> = Vec::new();
    loop
        invariant
            i < s@.len(),
            s@[i as int] == 0x22,
            i + 1 <= cur <= s@.len(),
            match parse_str_body(s@, cur as int) {
                None => parse_str_body(s@, i + 1) is None,
                Some((t, j)) => parse_str_body(s@, i + 1) == Some((out@ + t, j)),
            },
        decreases s@.len() - cur,
    {
        if cur >= s.len() {
            return None;
        }
        let b = s[cur];
        if b == 0x22 {
            proof {
                assert(parse_str_body(s@, cur as int) == Some((Seq::<u8>::empty(), cur + 1)));
                assert(out@ + Seq::<u8>::empty() =~= out@);
            }
            return Some((out, cur + 1));
        } else if b == 0x5c {
            if cur + 1 >= s.len() {
                return None;
            }
            let e = s[cur + 1];
            if e == 0x22 || e == 0x5c || e == 0x2f || e == 0x6e || e == 0x74 || e == 0x72 {
                let v: u8 = if e == 0x6e {
                    0x0a
                } else if e == 0x74 {
                    0x09
                } else if e == 0x72 {
                    0x0d
                } else {
                    e
                };
                let ghost out_old = out@;
                out.push(v);
                proof {
                    assert(v == esc_val(s@[cur + 1]));
                    let inner = parse_str_body(s@, cur + 2);
                    match inner {
                        Some((t, j)) => {
                            assert(out_old + (seq![v] + t) =~= out@ + t);
                        },
                        None => {},
                    }
                }
                cur = cur + 2;
            } else {
                return None;
            }
        } else if b >= 0x20 {
            let ghost out_old = out@;
            out.push(b);
            proof {
                let inner = parse_str_body(s@, cur + 1);
                match inner {
                    Some((t, j)) => {
                        assert(out_old + (seq![b] + t) =~= out@ + t);
                    },
                    None => {},
                }
            }
            cur = cur + 1;
        } else {
            return None;
        }
    }
}

fn x_parse_number(s: &[u8], i: usize) -> (r: Option<(i64, usize)>)
    requires
        i <= s@.len(),
    ensures
        match r {
            Some(p) => {
                &&& parse_number(s@, i as int) == Some((p.0, p.1 as int))
                &&& i < p.1 <= s@.len()
            },
            None => parse_number(s@, i as int) is None,
        },
{
    let neg = i < s.len() && s[i] == 0x2d;
    let i0: usize = if neg {
        i + 1
    } else {
        i
    };
    let mut cur: usize = i0;
    let mut acc: u64 = 0;
    let mut over: bool = false;
    while cur < s.len() && s[cur] >= 0x30 && s[cur] <= 0x39
        invariant
            i <= i0 <= cur <= s@.len(),
            digits_end(s@, i0 as int) == digits_end(s@, cur as int),
            forall|k: int| i0 <= k < cur ==> is_digit(#[trigger] s@[k]),
            !over ==> acc as int == digits_val(s@, i0 as int, cur as int) && acc
                <= MAX_INT_PART,
            over ==> digits_val(s@, i0 as int, cur as int) > MAX_INT_PART,
        decreases s@.len() - cur,
    {
        let d: u64 = (s[cur] - 0x30) as u64;
        if !over {
            let next: u64 = acc * 10 + d;
            if next > MAX_INT_PART {
                over = true;
            } else {
                acc = next;
            }
        }
        cur += 1;
    }
    let j = cur;
    if j == i0 {
        return None;
    }
    let ghost ip = digits_val(s@, i0 as int, j as int);
    proof {
        lemma_digits_val_bounds(s@, i0 as int, j as int);
    }
    if j < s.len() && s[j] == 0x2e {
        let fstart: usize = j + 1;
        let mut fcur: usize = fstart;
        let mut facc: u64 = 0;
        while fcur < s.len() && s[fcur] >= 0x30 && s[fcur] <= 0x39
            invariant
                fstart <= fcur <= s@.len(),
                fstart == j + 1,
                digits_end(s@, fstart as int) == digits_end(s@, fcur as int),
                forall|k: int| fstart <= k < fcur ==> is_digit(#[trigger] s@[k]),
                fcur - fstart <= 6 ==> facc as int == digits_val(
                    s@,
                    fstart as int,
                    fcur as int,
                ),
                facc <= 999_999,
            decreases s@.len() - fcur,
        {
            if fcur - fstart < 6 {
                proof {
                    lemma_digits_val_bounds(s@, fstart as int, fcur as int);
                    assert(pow10(0) == 1);
                    assert(pow10(1) == 10);
                    assert(pow10(2) == 100);
                    assert(pow10(3) == 1000);
                    assert(pow10(4) == 10000);
                    assert(pow10(5) == 100000);
                }
                facc = facc * 10 + (s[fcur] - 0x30) as u64;
            }
            fcur += 1;
        }
        let fd: usize = fcur - fstart;
        if fd < 1 || fd > 6 {
            return None;
        }
        let scale: u64 = if fd == 1 {
            100_000
        } else if fd == 2 {
            10_000
        } else if fd == 3 {
            1_000
        } else if fd == 4 {
            100
        } else if fd == 5 {
            10
        } else {
            1
        };
        proof {
            assert(pow10(0) == 1);
            assert(pow10(1) == 10);
            assert(pow10(2) == 100);
            assert(pow10(3) == 1000);
            assert(pow10(4) == 10000);
            assert(pow10(5) == 100000);
            assert(pow10(6) == 1000000);
            assert(scale as int == pow10((6 - fd) as nat));
            lemma_digits_val_bounds(s@, fstart as int, fcur as int);
        }
        let ghost frac_scaled = digits_val(s@, fstart as int, fcur as int) * pow10(
            (6 - fd) as nat,
        );
        assert(0 <= frac_scaled < 1_000_000) by {
            assert(digits_val(s@, fstart as int, fcur as int) < pow10(fd as nat));
            assert(pow10(fd as nat) * pow10((6 - fd) as nat) == 1_000_000) by {
                assert(pow10(1) * pow10(5) == 1_000_000);
                assert(pow10(2) * pow10(4) == 1_000_000);
                assert(pow10(3) * pow10(3) == 1_000_000);
                assert(pow10(4) * pow10(2) == 1_000_000);
                assert(pow10(5) * pow10(1) == 1_000_000);
                assert(pow10(6) * pow10(0) == 1_000_000);
            }
            vstd::arithmetic::mul::lemma_mul_inequality(
                digits_val(s@, fstart as int, fcur as int) + 1,
                pow10(fd as nat),
                pow10((6 - fd) as nat),
            );
            vstd::arithmetic::mul::lemma_mul_is_distributive_add_other_way(
                pow10((6 - fd) as nat),
                digits_val(s@, fstart as int, fcur as int),
                1,
            );
            vstd::arithmetic::mul::lemma_mul_nonnegative(
                digits_val(s@, fstart as int, fcur as int),
                pow10((6 - fd) as nat),
            );
        }
        if over {
            proof {
                assert(ip * 1_000_000 >= (MAX_INT_PART + 1) * 1_000_000) by {
                    vstd::arithmetic::mul::lemma_mul_inequality(
                        MAX_INT_PART + 1,
                        ip,
                        1_000_000,
                    );
                }
            }
            return None;
        }
        let fval: u64 = facc * scale;
        assert(fval as int == frac_scaled);
        let total: u64 = acc * 1_000_000 + fval;
        assert(total as int == ip * 1_000_000 + frac_scaled);
        if total > MAX_NUM_MAGNITUDE {
            return None;
        }
        let val: i64 = if neg {
            -(total as i64)
        } else {
            total as i64
        };
        Some((val, fcur))
    } else {
        if over {
            proof {
                assert(ip * 1_000_000 >= (MAX_INT_PART + 1) * 1_000_000) by {
                    vstd::arithmetic::mul::lemma_mul_inequality(
                        MAX_INT_PART + 1,
                        ip,
                        1_000_000,
                    );
                }
            }
            return None;
        }
        let total: u64 = acc * 1_000_000;
        assert(total as int == ip * 1_000_000);
        if total > MAX_NUM_MAGNITUDE {
            return None;
        }
        let val: i64 = if neg {
            -(total as i64)
        } else {
            total as i64
        };
        Some((val, j))
    }
}

fn lit4_at(s: &[u8], i: usize, a: u8, b: u8, c: u8, d: u8) -> (r: bool)
    requires
        i <= s@.len(),
    ensures
        r == has_lit(s@, i as int, seq![a, b, c, d]),
{
    let ghost lit = seq![a, b, c, d];
    if s.len() - i < 4 {
        assert(!has_lit(s@, i as int, lit));
        return false;
    }
    let ok = s[i] == a && s[i + 1] == b && s[i + 2] == c && s[i + 3] == d;
    proof {
        if ok {
            assert(s@.subrange(i as int, i + 4) =~= lit);
        } else {
            if has_lit(s@, i as int, lit) {
                assert(s@.subrange(i as int, i + 4) == lit);
                assert(s@[i as int] == lit[0] && s@[i + 1] == lit[1] && s@[i + 2] == lit[2]
                    && s@[i + 3] == lit[3]);
            }
        }
    }
    ok
}

fn lit5_at(s: &[u8], i: usize, a: u8, b: u8, c: u8, d: u8, e: u8) -> (r: bool)
    requires
        i <= s@.len(),
    ensures
        r == has_lit(s@, i as int, seq![a, b, c, d, e]),
{
    let ghost lit = seq![a, b, c, d, e];
    if s.len() - i < 5 {
        assert(!has_lit(s@, i as int, lit));
        return false;
    }
    let ok = s[i] == a && s[i + 1] == b && s[i + 2] == c && s[i + 3] == d && s[i + 4] == e;
    proof {
        if ok {
            assert(s@.subrange(i as int, i + 5) =~= lit);
        } else {
            if has_lit(s@, i as int, lit) {
                assert(s@.subrange(i as int, i + 5) == lit);
                assert(s@[i as int] == lit[0] && s@[i + 1] == lit[1] && s@[i + 2] == lit[2]
                    && s@[i + 3] == lit[3] && s@[i + 4] == lit[4]);
            }
        }
    }
    ok
}

fn x_parse_value(s: &[u8], i: usize) -> (r: Option<(FieldValue, usize)>)
    requires
        i <= s@.len(),
    ensures
        match r {
            Some(p) => {
                &&& parse_value(s@, i as int) == Some((p.0@, p.1 as int))
                &&& i < p.1 <= s@.len()
            },
            None => parse_value(s@, i as int) is None,
        },
{
    if i >= s.len() {
        return None;
    }
    let b = s[i];
    if b == 0x22 {
        match x_parse_string(s, i) {
            None => None,
            Some((t, j)) => Some((FieldValue::Text(t), j)),
        }
    } else if b == 0x74 {
        if lit4_at(s, i, 0x74, 0x72, 0x75, 0x65) {
            Some((FieldValue::Flag(true), i + 4))
        } else {
            None
        }
    } else if b == 0x66 {
        if lit5_at(s, i, 0x66, 0x61, 0x6c, 0x73, 0x65) {
            Some((FieldValue::Flag(false), i + 5))
        } else {
            None
        }
    } else if b == 0x6e {
        if lit4_at(s, i, 0x6e, 0x75, 0x6c, 0x6c) {
            Some((FieldValue::Null, i + 4))
        } else {
            None
        }
    } else if b == 0x2d || (b >= 0x30 && b <= 0x39) {
        match x_parse_number(s, i) {
            None => None,
            Some((v, j)) => Some((FieldValue::Num(v), j)),
        }
    } else {
        None
    }
}

fn x_parse_pair(s: &[u8], i: usize) -> (r: Option<((Vec<u8>, FieldValue), usize)>)
    requires
        i <= s@.len(),
    ensures
        match r {
            Some(p) => {
                &&& parse_pair(s@, i as int) == Some(((p.0.0@, p.0.1@), p.1 as int))
                &&& i < p.1 <= s@.len()
            },
            None => parse_pair(s@, i as int) is None,
        },
{
    match x_parse_string(s, i) {
        None => None,
        Some((name, j)) => {
            let j2 = x_skip_ws(s, j);
            if j2 < s.len() && s[j2] == 0x3a {
                let j3 = x_skip_ws(s, j2 + 1);
                match x_parse_value(s, j3) {
                    None => None,
                    Some((v, k)) => Some(((name, v), k)),
                }
            } else {
                None
            }
        },
    }
}

fn x_parse_members(s: &[u8], i: usize) -> (r: Option<(Vec<(Vec<u8>, FieldValue)>, usize)>)
    requires
        i <= s@.len(),
    ensures
        match r {
            Some(p) => {
                &&& parse_members(s@, i as int) == Some((pairs_model(p.0@), p.1 as int))
                &&& i < p.1 <= s@.len()
            },
            None => parse_members(s@, i as int) is None,
        },
{
    let ghost f = |p: (Vec<u8>, FieldValue)| (p.0@, p.1@);
    let mut acc: Vec<(Vec<u8>, FieldValue)> = Vec::new();
    let mut cur: usize = i;
    loop
        invariant
            i <= cur <= s@.len(),
            f == (|p: (Vec<u8>, FieldValue)| (p.0@, p.1@)),
            acc@.len() > 0 ==> cur > i,
            match parse_members(s@, cur as int) {
                None => parse_members(s@, i as int) is None,
                Some((m, k)) => parse_members(s@, i as int) == Some((acc@.map_values(f) + m, k)),
            },
        decreases s@.len() - cur,
    {
        match x_parse_pair(s, cur) {
            None => {
                return None;
            },
            Some((pair, j)) => {
                let j2 = x_skip_ws(s, j);
                let ghost pm = (pair.0@, pair.1@);
                let ghost acc_old = acc@;
                acc.push(pair);
                proof {
                    assert(acc@.map_values(f) =~= acc_old.map_values(f).push(pm));
                }
                if j2 < s.len() && s[j2] == 0x2c {
                    let j3 = x_skip_ws(s, j2 + 1);
                    proof {
                        let inner = parse_members(s@, j3 as int);
                        match inner {
                            Some((rest, k)) => {
                                assert(parse_members(s@, cur as int) == Some(
                                    (seq![pm] + rest, k),
                                ));
                                assert(acc_old.map_values(f) + (seq![pm] + rest)
                                    =~= acc@.map_values(f) + rest);
                            },
                            None => {
                                assert(parse_members(s@, cur as int) is None);
                            },
                        }
                    }
                    cur = j3;
                } else {
                    proof {
                        assert(parse_members(s@, cur as int) == Some((seq![pm], j2 as int)));
                        assert(acc_old.map_values(f) + seq![pm] =~= acc@.map_values(f));
                        assert(pairs_model(acc@) == acc@.map_values(f));
                    }
                    return Some((acc, j2));
                }
            },
        }
    }
}

fn x_parse_object(s: &[u8], i: usize) -> (r: Option<(Vec<(Vec<u8>, FieldValue)>, usize)>)
    requires
        i <= s@.len(),
    ensures
        match r {
            Some(p) => {
                &&& parse_object(s@, i as int) == Some((pairs_model(p.0@), p.1 as int))
                &&& i < p.1 <= s@.len()
            },
            None => parse_object(s@, i as int) is None,
        },
{
    if i >= s.len() || s[i] != 0x7b {
        return None;
    }
    let j = x_skip_ws(s, i + 1);
    if j < s.len() && s[j] == 0x7d {
        let empty_fields: Vec<(Vec<u8>, FieldValue)> = Vec::new();
        proof {
            assert(pairs_model(empty_fields@) =~= Seq::<(Seq<u8>, FieldVal)>::empty());
        }
        return Some((empty_fields, j + 1));
    }
    match x_parse_members(s, j) {
        None => None,
        Some((fields, k)) => {
            if k < s.len() && s[k] == 0x7d {
                Some((fields, k + 1))
            } else {
                None
            }
        },
    }
}

/// Parses one line of the backing-file format; `None` exactly on the
/// lines the grammar rejects.
pub fn parse_record_bytes(line: &[u8]) -> (r: Option<SnapshotRecord>)
    ensures
        match r {
            Some(rec) => parse_line(line@) == Some(rec@),
            None => parse_line(line@) is None,
        },
{
    let i = x_skip_ws(line, 0);
    match x_parse_object(line, i) {
        None => None,
        Some((fields, j)) => {
            let j2 = x_skip_ws(line, j);
            if j2 == line.len() {
                Some(SnapshotRecord::from_fields(fields))
            } else {
                None
            }
        },
    }
}

// ---------------------------------------------------------------------
// Round trip: parsing a rendered record yields the record back
// ---------------------------------------------------------------------

/// The bytes of `frag` stand at position `i` of `s`.
pub open spec fn frag_at(s: Seq<u8>, i: int, frag: Seq<u8>) -> bool {
    &&& 0 <= i
    &&& i + frag.len() <= s.len()
    &&& s.subrange(i, i + frag.len()) == frag
}

proof fn lemma_frag_split(s: Seq<u8>, i: int, x: Seq<u8>, y: Seq<u8>)
    requires
        frag_at(s, i, x + y),
    ensures
        frag_at(s, i, x),
        frag_at(s, i + x.len(), y),
{
    assert(s.subrange(i, i + x.len()) =~= x) by {
        assert forall|k: int| 0 <= k < x.len() implies s.subrange(i, i + x.len())[k] == x[k] by {
            assert(s.subrange(i, i + (x + y).len())[k] == (x + y)[k]);
        }
    }
    assert(s.subrange(i + x.len(), i + x.len() + y.len()) =~= y) by {
        assert forall|k: int| 0 <= k < y.len() implies s.subrange(
            i + x.len(),
            i + x.len() + y.len(),
        )[k] == y[k] by {
            assert(s.subrange(i, i + (x + y).len())[k + x.len()] == (x + y)[k + x.len()]);
        }
    }
}

proof fn lemma_frag_byte(s: Seq<u8>, i: int, frag: Seq<u8>, k: int)
    requires
        frag_at(s, i, frag),
        0 <= k < frag.len(),
    ensures
        s[i + k] == frag[k],
{
    assert(s.subrange(i, i + frag.len())[k] == frag[k]);
}

proof fn lemma_parse_str_body_render(s: Seq<u8>, i: int, t: Seq<u8>)
    requires
        wf_text(t),
        frag_at(s, i, render_text(t)),
        i + render_text(t).len() < s.len(),
        s[i + render_text(t).len()] == 0x22,
    ensures
        parse_str_body(s, i) == Some((t, i + render_text(t).len() + 1)),
    decreases t.len(),
{
    if t.len() == 0 {
        assert(render_text(t).len() == 0);
        assert(s[i] == 0x22);
    } else {
        let b = t[0];
        let e = esc_seq(b);
        let rest = render_text(t.drop_first());
        assert(render_text(t) == e + rest);
        lemma_frag_split(s, i, e, rest);
        assert(wf_byte(b));
        assert(wf_text(t.drop_first()));
        lemma_parse_str_body_render(s, i + e.len(), t.drop_first());
        if b == 0x22 || b == 0x5c || b == 0x0a || b == 0x09 || b == 0x0d {
            // Two-byte escape.
            lemma_frag_byte(s, i, e, 0);
            lemma_frag_byte(s, i, e, 1);
            assert(s[i] == 0x5c);
            assert(is_esc(s[i + 1]));
            assert(esc_val(s[i + 1]) == b);
            assert(seq![b] + t.drop_first() =~= t);
        } else {
            // Raw byte.
            lemma_frag_byte(s, i, e, 0);
            assert(s[i] == b);
            assert(b >= 0x20 && b != 0x22 && b != 0x5c);
            assert(seq![b] + t.drop_first() =~= t);
        }
    }
}

proof fn lemma_dec_digits_all_digits(n: int)
    requires
        n >= 0,
    ensures
        dec_digits(n).len() >= 1,
        forall|k: int| 0 <= k < dec_digits(n).len() ==> is_digit(#[trigger] dec_digits(n)[k]),
    decreases n,
{
    if n > 9 {
        lemma_dec_digits_all_digits(n / 10);
        assert(forall|k: int|
            0 <= k < dec_digits(n).len() - 1 ==> #[trigger] dec_digits(n)[k] == dec_digits(
                n / 10,
            )[k]);
    }
}

proof fn lemma_padded_all_digits(n: int, w: nat)
    requires
        n >= 0,
    ensures
        padded_digits(n, w).len() == w,
        forall|k: int|
            0 <= k < w ==> is_digit(#[trigger] padded_digits(n, w)[k]),
    decreases w,
{
    if w > 0 {
        lemma_padded_all_digits(n / 10, (w - 1) as nat);
        assert(forall|k: int|
            0 <= k < w - 1 ==> #[trigger] padded_digits(n, w)[k] == padded_digits(
                n / 10,
                (w - 1) as nat,
            )[k]);
    }
}

/// A maximal digit run is scanned exactly to its end.
proof fn lemma_digits_end_run(s: Seq<u8>, i: int, j: int)
    requires
        0 <= i <= j <= s.len(),
        forall|k: int| i <= k < j ==> is_digit(#[trigger] s[k]),
        j == s.len() || !is_digit(s[j]),
    ensures
        digits_end(s, i) == j,
    decreases j - i,
{
    if i < j {
        lemma_digits_end_run(s, i + 1, j);
    }
}

/// The value of a digit run is read off the bytes alone.
proof fn lemma_digits_val_transfer(s: Seq<u8>, i: int, d: Seq<u8>)
    requires
        frag_at(s, i, d),
    ensures
        digits_val(s, i, i + d.len()) == digits_val(d, 0, d.len() as int),
    decreases d.len(),
{
    if d.len() > 0 {
        assert(d =~= d.drop_last() + seq![d.last()]);
        lemma_frag_split(s, i, d.drop_last(), seq![d.last()]);
        lemma_digits_val_transfer(s, i, d.drop_last());
        lemma_frag_byte(s, i, d, d.len() - 1);
        assert(digits_val(d.drop_last(), 0, d.len() - 1) == digits_val(d, 0, d.len() - 1)) by {
            lemma_digits_val_prefix(d, d.len() - 1);
        }
        assert(d =~= d.drop_last() + seq![d.last()]);
    }
}

/// `digits_val` over `[0, j)` only looks at the first `j` bytes.
proof fn lemma_digits_val_prefix(d: Seq<u8>, j: int)
    requires
        0 <= j <= d.len(),
    ensures
        digits_val(d.take(j), 0, j) == digits_val(d, 0, j),
    decreases j,
{
    if j > 0 {
        lemma_digits_val_prefix(d, j - 1);
        assert(d.take(j - 1) =~= d.take(j).take(j - 1));
        lemma_digits_val_take_agree(d.take(j), d.take(j - 1), j - 1);
    }
}

/// Two sequences that agree on `[0, j)` give the same digit value there.
proof fn lemma_digits_val_take_agree(a: Seq<u8>, b: Seq<u8>, j: int)
    requires
        0 <= j <= a.len(),
        j <= b.len(),
        forall|k: int| 0 <= k < j ==> a[k] == b[k],
    ensures
        digits_val(a, 0, j) == digits_val(b, 0, j),
    decreases j,
{
    if j > 0 {
        lemma_digits_val_take_agree(a, b, j - 1);
    }
}

/// Reading back the decimal rendering of `n` gives `n`.
proof fn lemma_dec_digits_val(n: int)
    requires
        n >= 0,
    ensures
        digits_val(dec_digits(n), 0, dec_digits(n).len() as int) == n,
    decreases n,
{
    let d = dec_digits(n);
    if n <= 9 {
        assert(digits_val(d, 0, 0) == 0);
        assert(digits_val(d, 0, 1) == d[0] - 0x30);
    } else {
        lemma_dec_digits_val(n / 10);
        let dl = dec_digits(n / 10);
        assert(d == dl + seq![(0x30 + n % 10) as u8]);
        assert(d.last() == (0x30 + n % 10) as u8);
        assert(digits_val(d, 0, d.len() as int) == digits_val(d, 0, d.len() - 1) * 10 + (d.last()
            - 0x30));
        lemma_digits_val_take_agree(d, dl, d.len() - 1);
    }
}

/// Reading back the padded rendering of `n < 10^w` gives `n`.
proof fn lemma_padded_val(n: int, w: nat)
    requires
        0 <= n < pow10(w),
    ensures
        digits_val(padded_digits(n, w), 0, w as int) == n,
    decreases w,
{
    let d = padded_digits(n, w);
    if w == 0 {
        assert(pow10(0) == 1);
    } else {
        assert(pow10(w) == 10 * pow10((w - 1) as nat));
        assert(n / 10 < pow10((w - 1) as nat)) by {
            if n / 10 >= pow10((w - 1) as nat) {
                assert(n >= (n / 10) * 10);
                vstd::arithmetic::mul::lemma_mul_inequality(
                    pow10((w - 1) as nat),
                    n / 10,
                    10,
                );
            }
        }
        lemma_padded_val(n / 10, (w - 1) as nat);
        let dl = padded_digits(n / 10, (w - 1) as nat);
        lemma_padded_all_digits(n / 10, (w - 1) as nat);
        assert(d == dl + seq![(0x30 + n % 10) as u8]);
        assert(digits_val(d, 0, w as int) == digits_val(d, 0, w - 1) * 10 + (d[w - 1] - 0x30));
        lemma_digits_val_take_agree(d, dl, w - 1);
    }
}

/// Stripping trailing zeros divides the digit value by the matching
/// power of ten, exactly.
proof fn lemma_strip_zeros_props(p: Seq<u8>)
    requires
        forall|k: int| 0 <= k < p.len() ==> is_digit(#[trigger] p[k]),
    ensures
        strip_zeros(p).len() <= p.len(),
        forall|k: int|
            0 <= k < strip_zeros(p).len() ==> #[trigger] strip_zeros(p)[k] == p[k],
        strip_zeros(p).len() == 0 || strip_zeros(p).last() != 0x30,
        digits_val(p, 0, p.len() as int) == digits_val(
            strip_zeros(p),
            0,
            strip_zeros(p).len() as int,
        ) * pow10((p.len() - strip_zeros(p).len()) as nat),
    decreases p.len(),
{
    let q = strip_zeros(p);
    if p.len() > 0 && p.last() == 0x30 {
        assert(forall|k: int|
            0 <= k < p.len() - 1 ==> is_digit(#[trigger] p.drop_last()[k]));
        lemma_strip_zeros_props(p.drop_last());
        assert(digits_val(p, 0, p.len() as int) == digits_val(p, 0, p.len() - 1) * 10 + (p.last()
            - 0x30));
        lemma_digits_val_take_agree(p, p.drop_last(), p.len() - 1);
        let k = p.len() - 1 - q.len();
        assert(pow10((k + 1) as nat) == 10 * pow10(k as nat));
        assert(digits_val(q, 0, q.len() as int) * (10 * pow10(k as nat)) == (digits_val(
            q,
            0,
            q.len() as int,
        ) * pow10(k as nat)) * 10) by {
            vstd::arithmetic::mul::lemma_mul_is_associative(
                digits_val(q, 0, q.len() as int),
                10,
                pow10(k as nat),
            );
            vstd::arithmetic::mul::lemma_mul_is_associative(
                digits_val(q, 0, q.len() as int),
                pow10(k as nat),
                10,
            );
            vstd::arithmetic::mul::lemma_mul_is_commutative(10, pow10(k as nat));
        }
    } else {
        assert(pow10(0) == 1);
    }
}

proof fn lemma_parse_number_render(s: Seq<u8>, i: int, v: i64)
    requires
        v != i64::MIN,
        frag_at(s, i, render_num(v)),
        i + render_num(v).len() == s.len() || (!is_digit(s[i + render_num(v).len()]) && s[i
            + render_num(v).len()] != 0x2e),
    ensures
        parse_number(s, i) == Some((v, i + render_num(v).len())),
{
    let mag = if v < 0 {
        -(v as int)
    } else {
        v as int
    };
    let ip = mag / 1_000_000;
    let fr = mag % 1_000_000;
    let sign: Seq<u8> = if v < 0 {
        seq![0x2du8]
    } else {
        Seq::empty()
    };
    let dd = dec_digits(ip);
    lemma_dec_digits_all_digits(ip);
    lemma_dec_digits_val(ip);
    vstd::arithmetic::div_mod::lemma_fundamental_div_mod(mag, 1_000_000);
    let i0 = i + sign.len();
    let rn = render_num(v);
    let after = i + rn.len();

    if fr == 0 {
        assert(rn == sign + dd);
        lemma_frag_split(s, i, sign, dd);
        if v < 0 {
            lemma_frag_byte(s, i, sign, 0);
            assert(s[i] == 0x2d);
        } else {
            lemma_frag_byte(s, i, dd, 0);
            assert(is_digit(s[i]));
            assert(s[i] != 0x2d);
        }
        assert forall|k: int| i0 <= k < i0 + dd.len() implies is_digit(#[trigger] s[k]) by {
            lemma_frag_byte(s, i0, dd, k - i0);
        }
        assert(after == i0 + dd.len());
        lemma_digits_end_run(s, i0, i0 + dd.len());
        lemma_digits_val_transfer(s, i0, dd);
        assert(digits_val(s, i0, i0 + dd.len()) == ip);
        assert(ip * 1_000_000 == mag);
        assert(mag <= i64::MAX);
    } else {
        let pad6 = padded_digits(fr, 6);
        let fseq = strip_zeros(pad6);
        assert(rn == sign + dd + seq![0x2eu8] + fseq);
        assert(rn =~= sign + (dd + (seq![0x2eu8] + fseq)));
        lemma_frag_split(s, i, sign, dd + (seq![0x2eu8] + fseq));
        lemma_frag_split(s, i0, dd, seq![0x2eu8] + fseq);
        lemma_frag_split(s, i0 + dd.len(), seq![0x2eu8], fseq);
        if v < 0 {
            lemma_frag_byte(s, i, sign, 0);
            assert(s[i] == 0x2d);
        } else {
            lemma_frag_byte(s, i, dd, 0);
            assert(is_digit(s[i]));
            assert(s[i] != 0x2d);
        }
        assert forall|k: int| i0 <= k < i0 + dd.len() implies is_digit(#[trigger] s[k]) by {
            lemma_frag_byte(s, i0, dd, k - i0);
        }
        let j = i0 + dd.len();
        lemma_frag_byte(s, j, seq![0x2eu8], 0);
        assert(s[j] == 0x2e);
        assert(!is_digit(s[j]));
        lemma_digits_end_run(s, i0, j);
        lemma_digits_val_transfer(s, i0, dd);
        // Fraction digits.
        lemma_padded_all_digits(fr, 6);
        lemma_strip_zeros_props(pad6);
        assert(pow10(6) == 1_000_000) by {
            assert(pow10(0) == 1);
            assert(pow10(1) == 10);
            assert(pow10(2) == 100);
            assert(pow10(3) == 1000);
            assert(pow10(4) == 10000);
            assert(pow10(5) == 100000);
        }
        lemma_padded_val(fr, 6);
        let fd = fseq.len() as int;
        assert(fd >= 1) by {
            if fd == 0 {
                assert(digits_val(fseq, 0, 0) == 0);
                assert(digits_val(pad6, 0, 6) == 0);
            }
        }
        assert(fd <= 6);
        let fstart = j + 1;
        assert forall|k: int| fstart <= k < fstart + fd implies is_digit(#[trigger] s[k]) by {
            lemma_frag_byte(s, fstart, fseq, k - fstart);
            assert(fseq[k - fstart] == pad6[k - fstart]);
        }
        assert(after == fstart + fd);
        lemma_digits_end_run(s, fstart, fstart + fd);
        lemma_digits_val_transfer(s, fstart, fseq);
        assert(digits_val(s, fstart, fstart + fd) * pow10((6 - fd) as nat) == fr);
        assert(ip * 1_000_000 + fr == mag);
        assert(mag <= i64::MAX);
    }
}

proof fn lemma_parse_string_render(s: Seq<u8>, i: int, t: Seq<u8>)
    requires
        wf_text(t),
        frag_at(s, i, render_string(t)),
    ensures
        parse_string(s, i) == Some((t, i + render_string(t).len())),
{
    let rt = render_text(t);
    assert(render_string(t) == seq![0x22u8] + (rt + seq![0x22u8])) by {
        assert(seq![0x22u8] + rt + seq![0x22u8] =~= seq![0x22u8] + (rt + seq![0x22u8]));
    }
    lemma_frag_split(s, i, seq![0x22u8], rt + seq![0x22u8]);
    lemma_frag_split(s, i + 1, rt, seq![0x22u8]);
    lemma_frag_byte(s, i, seq![0x22u8], 0);
    lemma_frag_byte(s, i + 1 + rt.len(), seq![0x22u8], 0);
    lemma_parse_str_body_render(s, i + 1, t);
}

/// A rendered value begins with a quote, a letter, a minus or a digit —
/// never whitespace.
proof fn lemma_render_val_first(v: FieldVal)
    ensures
        render_val(v).len() >= 1,
        !is_ws(render_val(v)[0]),
{
    match v {
        FieldVal::Num(n) => {
            let mag = if n < 0 {
                -(n as int)
            } else {
                n as int
            };
            let ip = mag / 1_000_000;
            lemma_dec_digits_all_digits(ip);
            if n < 0 {
                assert(render_num(n)[0] == 0x2d);
            } else {
                assert(render_num(n)[0] == dec_digits(ip)[0]);
                assert(is_digit(render_num(n)[0]));
            }
        },
        FieldVal::Text(t) => {
            assert(render_val(v)[0] == 0x22);
        },
        FieldVal::Flag(b) => {},
        FieldVal::Null => {},
    }
}

proof fn lemma_parse_value_render(s: Seq<u8>, i: int, v: FieldVal)
    requires
        wf_val(v),
        frag_at(s, i, render_val(v)),
        i + render_val(v).len() == s.len() || (!is_digit(s[i + render_val(v).len()]) && s[i
            + render_val(v).len()] != 0x2e),
    ensures
        parse_value(s, i) == Some((v, i + render_val(v).len())),
{
    let rv = render_val(v);
    lemma_render_val_first(v);
    match v {
        FieldVal::Text(t) => {
            lemma_frag_byte(s, i, rv, 0);
            assert(s[i] == 0x22);
            lemma_parse_string_render(s, i, t);
        },
        FieldVal::Flag(b) => {
            if b {
                lemma_frag_byte(s, i, rv, 0);
                assert(s[i] == 0x74);
                assert(s.subrange(i, i + 4) == lit_true());
                assert(has_lit(s, i, lit_true()));
            } else {
                lemma_frag_byte(s, i, rv, 0);
                assert(s[i] == 0x66);
                assert(s.subrange(i, i + 5) == lit_false());
                assert(has_lit(s, i, lit_false()));
            }
        },
        FieldVal::Null => {
            lemma_frag_byte(s, i, rv, 0);
            assert(s[i] == 0x6e);
            assert(s.subrange(i, i + 4) == lit_null());
            assert(has_lit(s, i, lit_null()));
        },
        FieldVal::Num(n) => {
            lemma_frag_byte(s, i, rv, 0);
            let mag = if n < 0 {
                -(n as int)
            } else {
                n as int
            };
            let ip = mag / 1_000_000;
            lemma_dec_digits_all_digits(ip);
            if n < 0 {
                assert(s[i] == 0x2d);
            } else {
                assert(s[i] == dec_digits(ip)[0]);
                assert(is_digit(s[i]));
            }
            assert(s[i] != 0x22 && s[i] != 0x74 && s[i] != 0x66 && s[i] != 0x6e);
            lemma_parse_number_render(s, i, n);
        },
    }
}

proof fn lemma_parse_pair_render(s: Seq<u8>, i: int, p: (Seq<u8>, FieldVal))
    requires
        wf_text(p.0),
        wf_val(p.1),
        frag_at(s, i, render_pair(p)),
        i + render_pair(p).len() < s.len(),
        s[i + render_pair(p).len()] == 0x2c || s[i + render_pair(p).len()] == 0x7d,
    ensures
        parse_pair(s, i) == Some((p, i + render_pair(p).len())),
{
    let rs = render_string(p.0);
    let rv = render_val(p.1);
    assert(render_pair(p) =~= rs + (seq![0x3au8] + rv));
    lemma_frag_split(s, i, rs, seq![0x3au8] + rv);
    lemma_frag_split(s, i + rs.len(), seq![0x3au8], rv);
    lemma_parse_string_render(s, i, p.0);
    let j = i + rs.len();
    lemma_frag_byte(s, j, seq![0x3au8], 0);
    assert(s[j] == 0x3a);
    assert(skip_ws(s, j) == j);
    lemma_render_val_first(p.1);
    lemma_frag_byte(s, j + 1, rv, 0);
    assert(skip_ws(s, j + 1) == j + 1);
    lemma_parse_value_render(s, j + 1, p.1);
}

proof fn lemma_parse_members_render(s: Seq<u8>, i: int, m: RecordModel)
    requires
        wf_record(m),
        m.len() >= 1,
        frag_at(s, i, render_fields(m)),
        i + render_fields(m).len() < s.len(),
        s[i + render_fields(m).len()] == 0x7d,
    ensures
        parse_members(s, i) == Some((m, i + render_fields(m).len())),
    decreases m.len(),
{
    let p = m[0];
    assert(wf_text(p.0) && wf_val(p.1));
    if m.len() == 1 {
        assert(render_fields(m) == render_pair(p));
        lemma_parse_pair_render(s, i, p);
        let j = i + render_pair(p).len();
        assert(s[j] == 0x7d);
        assert(skip_ws(s, j) == j);
        assert(seq![p] =~= m);
    } else {
        let rest = m.drop_first();
        let rp = render_pair(p);
        let rf = render_fields(rest);
        assert(render_fields(m) == rp + seq![0x2cu8] + rf);
        assert(render_fields(m) =~= rp + (seq![0x2cu8] + rf));
        lemma_frag_split(s, i, rp, seq![0x2cu8] + rf);
        lemma_frag_split(s, i + rp.len(), seq![0x2cu8], rf);
        let j = i + rp.len();
        lemma_frag_byte(s, j, seq![0x2cu8], 0);
        assert(s[j] == 0x2c);
        lemma_parse_pair_render(s, i, p);
        assert(skip_ws(s, j) == j);
        let j3 = j + 1;
        // The next pair of the rendering begins with a quote.
        assert(rest.len() >= 1);
        assert(wf_record(rest)) by {
            assert(forall|k: int|
                0 <= k < rest.len() ==> #[trigger] rest[k] == m[k + 1]);
        }
        assert(rf == render_pair(rest[0]) + seq![0x2cu8] + render_fields(rest.drop_first())
            || rf == render_pair(rest[0]));
        assert(rf[0] == render_pair(rest[0])[0]);
        assert(render_pair(rest[0])[0] == 0x22);
        lemma_frag_byte(s, j3, rf, 0);
        assert(s[j3] == 0x22);
        assert(skip_ws(s, j3) == j3);
        lemma_parse_members_render(s, j3, rest);
        assert(seq![p] + rest =~= m);
    }
}

proof fn lemma_parse_object_render(s: Seq<u8>, i: int, m: RecordModel)
    requires
        wf_record(m),
        frag_at(s, i, render_record(m)),
    ensures
        parse_object(s, i) == Some((m, i + render_record(m).len())),
{
    let rf = render_fields(m);
    assert(render_record(m) =~= seq![0x7bu8] + (rf + seq![0x7du8]));
    lemma_frag_split(s, i, seq![0x7bu8], rf + seq![0x7du8]);
    lemma_frag_split(s, i + 1, rf, seq![0x7du8]);
    lemma_frag_byte(s, i, seq![0x7bu8], 0);
    assert(s[i] == 0x7b);
    let close = i + 1 + rf.len();
    lemma_frag_byte(s, close, seq![0x7du8], 0);
    assert(s[close] == 0x7d);
    if m.len() == 0 {
        assert(rf.len() == 0);
        assert(skip_ws(s, i + 1) == i + 1);
        assert(m =~= Seq::<(Seq<u8>, FieldVal)>::empty());
    } else {
        assert(rf == render_pair(m[0]) + seq![0x2cu8] + render_fields(m.drop_first()) || rf
            == render_pair(m[0]));
        assert(rf[0] == render_pair(m[0])[0]);
        assert(render_pair(m[0])[0] == 0x22);
        lemma_frag_byte(s, i + 1, rf, 0);
        assert(s[i + 1] == 0x22);
        assert(skip_ws(s, i + 1) == i + 1);
        lemma_parse_members_render(s, i + 1, m);
    }
}

proof fn lemma_parse_str_body_wf(s: Seq<u8>, i: int)
    ensures
        parse_str_body(s, i) matches Some(p) ==> wf_text(p.0),
    decreases s.len() - i,
{
    if 0 <= i < s.len() {
        if s[i] == 0x5c {
            if i + 1 < s.len() && is_esc(s[i + 1]) {
                lemma_parse_str_body_wf(s, i + 2);
                match parse_str_body(s, i + 2) {
                    None => {},
                    Some((t, j)) => {
                        let v = esc_val(s[i + 1]);
                        assert(wf_byte(v));
                        assert(wf_text(seq![v] + t)) by {
                            assert(forall|k: int|
                                1 <= k < (seq![v] + t).len() ==> (seq![v] + t)[k] == t[k - 1]);
                        }
                    },
                }
            }
        } else if s[i] >= 0x20 && s[i] != 0x22 {
            lemma_parse_str_body_wf(s, i + 1);
            match parse_str_body(s, i + 1) {
                None => {},
                Some((t, j)) => {
                    assert(wf_text(seq![s[i]] + t)) by {
                        assert(forall|k: int|
                            1 <= k < (seq![s[i]] + t).len() ==> (seq![s[i]] + t)[k] == t[k - 1]);
                    }
                },
            }
        }
    }
}

proof fn lemma_digits_end_digits(s: Seq<u8>, i: int)
    requires
        0 <= i <= s.len(),
    ensures
        i <= digits_end(s, i) <= s.len(),
        forall|k: int| i <= k < digits_end(s, i) ==> is_digit(#[trigger] s[k]),
    decreases s.len() - i,
{
    if i < s.len() && is_digit(s[i]) {
        lemma_digits_end_digits(s, i + 1);
    }
}

proof fn lemma_pow10_pos(w: nat)
    ensures
        pow10(w) >= 1,
    decreases w,
{
    if w > 0 {
        lemma_pow10_pos((w - 1) as nat);
    }
}

proof fn lemma_parse_value_wf(s: Seq<u8>, i: int)
    ensures
        parse_value(s, i) matches Some(p) ==> wf_val(p.0),
{
    if 0 <= i < s.len() {
        if s[i] == 0x22 {
            lemma_parse_str_body_wf(s, i + 1);
        } else if s[i] == 0x2d || is_digit(s[i]) {
            let neg = s[i] == 0x2d;
            let i0 = if neg {
                i + 1
            } else {
                i
            };
            lemma_digits_end_digits(s, i0);
            let jj = digits_end(s, i0);
            if jj != i0 {
                lemma_digits_val_bounds(s, i0, jj);
                let ip = digits_val(s, i0, jj);
                if jj < s.len() && s[jj] == 0x2e {
                    lemma_digits_end_digits(s, jj + 1);
                    let kk = digits_end(s, jj + 1);
                    let fd = kk - (jj + 1);
                    if 1 <= fd <= 6 {
                        lemma_digits_val_bounds(s, jj + 1, kk);
                        lemma_pow10_pos((6 - fd) as nat);
                        vstd::arithmetic::mul::lemma_mul_nonnegative(
                            digits_val(s, jj + 1, kk),
                            pow10((6 - fd) as nat),
                        );
                        vstd::arithmetic::mul::lemma_mul_nonnegative(ip, 1_000_000);
                    }
                } else {
                    vstd::arithmetic::mul::lemma_mul_nonnegative(ip, 1_000_000);
                }
            }
        }
    }
}

proof fn lemma_parse_members_wf(s: Seq<u8>, i: int)
    ensures
        parse_members(s, i) matches Some(p) ==> wf_record(p.0),
    decreases s.len() - i,
{
    match parse_pair(s, i) {
        None => {},
        Some((pr, j)) => {
            assert(wf_text(pr.0) && wf_val(pr.1)) by {
                match parse_string(s, i) {
                    None => {},
                    Some((name, j1)) => {
                        lemma_parse_str_body_wf(s, i + 1);
                        let j2 = skip_ws(s, j1);
                        if j2 < s.len() && s[j2] == 0x3a {
                            let j3 = skip_ws(s, j2 + 1);
                            lemma_parse_value_wf(s, j3);
                        }
                    },
                }
            }
            let j2 = skip_ws(s, j);
            if j2 < s.len() && s[j2] == 0x2c {
                let j3 = skip_ws(s, j2 + 1);
                if i < j3 && j3 <= s.len() {
                    lemma_parse_members_wf(s, j3);
                    match parse_members(s, j3) {
                        None => {},
                        Some((rest, k)) => {
                            assert(wf_record(seq![pr] + rest)) by {
                                assert(forall|d: int|
                                    1 <= d < (seq![pr] + rest).len() ==> (seq![pr] + rest)[d]
                                        == rest[d - 1]);
                            }
                        },
                    }
                }
            } else {
                assert(wf_record(seq![pr]));
            }
        },
    }
}

/// Whatever the parser accepts is well formed: every record that
/// `parse_line` yields survives the codec unchanged.
pub proof fn lemma_parse_line_wf(s: Seq<u8>)
    ensures
        parse_line(s) matches Some(m) ==> wf_record(m),
{
    let i = skip_ws(s, 0);
    if 0 <= i < s.len() && s[i] == 0x7b {
        let j = skip_ws(s, i + 1);
        if !(j < s.len() && s[j] == 0x7d) {
            lemma_parse_members_wf(s, j);
        }
    }
}

/// Round trip: a line the renderer wrote parses back to exactly the
/// record it was written from, provided every field survives the codec
/// (`wf_record`).
pub proof fn lemma_parse_render_round_trip(m: RecordModel)
    requires
        wf_record(m),
    ensures
        parse_line(render_record(m)) == Some(m),
{
    let s = render_record(m);
    assert(frag_at(s, 0, s)) by {
        assert(s.subrange(0, s.len() as int) =~= s);
    }
    assert(s[0] == 0x7b);
    assert(skip_ws(s, 0) == 0);
    lemma_parse_object_render(s, 0, m);
    assert(skip_ws(s, s.len() as int) == s.len());
}

} // verus!
