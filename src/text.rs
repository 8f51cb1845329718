use vstd::prelude::*;
use crate::value::{Json, JsonV, Number, NumberV};

verus! {

broadcast use vstd::std_specs::vec::axiom_vec_index_decreases;

pub open spec fn digit(d: nat) -> char {
    seq!['0', '1', '2', '3', '4', '5', '6', '7', '8', '9', 'a', 'b', 'c', 'd', 'e', 'f'][d as int]
}

/// Decimal digits of `n`, without leading zeros.
pub open spec fn decimal(n: nat) -> Seq<char>
    decreases n,
{
    if n < 10 {
        seq![digit(n)]
    } else {
        decimal(n / 10).push(digit(n % 10))
    }
}

pub open spec fn number_text(n: NumberV) -> Seq<char> {
    match n {
        NumberV::PosInt(u) => decimal(u as nat),
        NumberV::NegInt(i) => if i < 0 {
            seq!['-'] + decimal((-i) as nat)
        } else {
            decimal(i as nat)
        },
        NumberV::Float(s) => s,
    }
}

/// How one character of a string is written inside JSON quotes.
pub open spec fn escape(c: char) -> Seq<char> {
    if c == '"' {
        seq!['\\', '"']
    } else if c == '\\' {
        seq!['\\', '\\']
    } else if c == '\u{8}' {
        seq!['\\', 'b']
    } else if c == '\t' {
        seq!['\\', 't']
    } else if c == '\n' {
        seq!['\\', 'n']
    } else if c == '\u{c}' {
        seq!['\\', 'f']
    } else if c == '\r' {
        seq!['\\', 'r']
    } else if (c as u32) < 0x20 {
        seq!['\\', 'u', '0', '0', digit((c as u32 / 16) as nat), digit((c as u32 % 16) as nat)]
    } else {
        seq![c]
    }
}

pub open spec fn escaped(s: Seq<char>) -> Seq<char>
    decreases s.len(),
{
    if s.len() == 0 {
        Seq::empty()
    } else {
        escaped(s.drop_last()) + escape(s.last())
    }
}

pub open spec fn quoted(s: Seq<char>) -> Seq<char> {
    seq!['"'] + escaped(s) + seq!['"']
}

pub open spec fn width(v: JsonV) -> nat {
    match v {
        JsonV::Arr(items) => items.len(),
        JsonV::Obj(m) => m.len(),
        _ => 0,
    }
}

/// The compact JSON text of a value: no spaces, members in order.
pub open spec fn text_of(v: JsonV) -> Seq<char>
    decreases v, width(v) + 1,
{
    match v {
        JsonV::Null => seq!['n', 'u', 'l', 'l'],
        JsonV::Bool(b) => if b {
            seq!['t', 'r', 'u', 'e']
        } else {
            seq!['f', 'a', 'l', 's', 'e']
        },
        JsonV::Num(n) => number_text(n),
        JsonV::Str(s) => quoted(s),
        JsonV::Arr(items) => seq!['['] + parts_text(v, items.len()) + seq![']'],
        JsonV::Obj(m) => seq!['{'] + parts_text(v, m.len()) + seq!['}'],
    }
}

/// The text of the first `n` elements, or members, of an array or object,
/// separated by commas.
pub open spec fn parts_text(v: JsonV, n: nat) -> Seq<char>
    decreases v, n,
{
    if n == 0 || n > width(v) {
        Seq::empty()
    } else {
        let last = match v {
            JsonV::Arr(items) => text_of(items[n - 1]),
            JsonV::Obj(m) => quoted(m[n - 1].0) + seq![':'] + text_of(m[n - 1].1),
            _ => Seq::empty(),
        };
        if n == 1 {
            last
        } else {
            parts_text(v, (n - 1) as nat) + seq![','] + last
        }
    }
}

/// Relies on `String::push`: appends one character.
#[verifier::external_body]
pub(crate) fn push_char(s: &mut String, c: char)
    ensures
        final(s)@ == old(s)@.push(c),
{
    s.push(c);
}

/// The decimal digits of `n`.
fn u64_text(n: u64) -> (r: String)
    ensures
        r@ == decimal(n as nat),
{
    let mut m: u64 = n;
    let mut tail: Vec<char> = Vec::new();
    while m >= 10
        invariant
            decimal(n as nat) == decimal(m as nat) + tail@,
        decreases m,
    {
        let c = hex_char((m % 10) as u8);
        let ghost before = tail@;
        tail.insert(0, c);
        assert(decimal(m as nat) == decimal((m / 10) as nat).push(digit((m % 10) as nat)));
        assert(decimal((m / 10) as nat).push(c) + before =~= decimal((m / 10) as nat) + tail@);
        m = m / 10;
    }
    tail.insert(0, hex_char(m as u8));
    assert(decimal(n as nat) =~= tail@);
    let mut out = String::new();
    let mut i: usize = 0;
    while i < tail.len()
        invariant
            i <= tail@.len(),
            out@ == tail@.subrange(0, i as int),
        decreases tail@.len() - i,
    {
        push_char(&mut out, tail[i]);
        assert(tail@.subrange(0, i + 1) =~= tail@.subrange(0, i as int).push(tail@[i as int]));
        i += 1;
    }
    assert(tail@.subrange(0, tail@.len() as int) =~= tail@);
    out
}

fn push_str(out: &mut String, s: &String)
    ensures
        final(out)@ == old(out)@ + s@,
{
    let n = s.as_str().unicode_len();
    let mut i: usize = 0;
    while i < n
        invariant
            n == s@.len(),
            i <= n,
            out@ == old(out)@ + s@.subrange(0, i as int),
        decreases n - i,
    {
        let c = s.as_str().get_char(i);
        push_char(out, c);
        assert(s@.subrange(0, i + 1) =~= s@.subrange(0, i as int).push(c));
        i += 1;
    }
    assert(s@.subrange(0, n as int) =~= s@);
}

fn push_escaped(out: &mut String, c: char)
    ensures
        final(out)@ == old(out)@ + escape(c),
{
    let ghost start = out@;
    if c == '"' {
        push_char(out, '\\');
        push_char(out, '"');
    } else if c == '\\' {
        push_char(out, '\\');
        push_char(out, '\\');
    } else if c == '\u{8}' {
        push_char(out, '\\');
        push_char(out, 'b');
    } else if c == '\t' {
        push_char(out, '\\');
        push_char(out, 't');
    } else if c == '\n' {
        push_char(out, '\\');
        push_char(out, 'n');
    } else if c == '\u{c}' {
        push_char(out, '\\');
        push_char(out, 'f');
    } else if c == '\r' {
        push_char(out, '\\');
        push_char(out, 'r');
    } else if (c as u32) < 0x20 {
        let hi = hex_char((c as u32 / 16) as u8);
        let lo = hex_char((c as u32 % 16) as u8);
        push_char(out, '\\');
        push_char(out, 'u');
        push_char(out, '0');
        push_char(out, '0');
        push_char(out, hi);
        push_char(out, lo);
    } else {
        push_char(out, c);
    }
    assert(out@ =~= start + escape(c));
}

fn hex_char(d: u8) -> (r: char)
    requires
        d < 16,
    ensures
        r == digit(d as nat),
{
    let digits: [char; 16] = ['0', '1', '2', '3', '4', '5', '6', '7', '8', '9', 'a', 'b', 'c', 'd', 'e', 'f'];
    digits[d as usize]
}

fn push_quoted(out: &mut String, s: &String)
    ensures
        final(out)@ == old(out)@ + quoted(s@),
{
    let ghost start = out@;
    push_char(out, '"');
    let n = s.as_str().unicode_len();
    let mut i: usize = 0;
    while i < n
        invariant
            n == s@.len(),
            i <= n,
            out@ == start + seq!['"'] + escaped(s@.subrange(0, i as int)),
        decreases n - i,
    {
        let c = s.as_str().get_char(i);
        push_escaped(out, c);
        assert(s@.subrange(0, i + 1).drop_last() =~= s@.subrange(0, i as int));
        i += 1;
    }
    assert(s@.subrange(0, n as int) =~= s@);
    push_char(out, '"');
    assert(out@ =~= start + quoted(s@));
}

fn push_number(out: &mut String, n: &Number)
    ensures
        final(out)@ == old(out)@ + number_text(n@),
{
    match n {
        Number::PosInt(u) => {
            let t = u64_text(*u);
            push_str(out, &t);
        },
        Number::NegInt(i) => {
            if *i < 0 {
                let ghost start = out@;
                let mag: u64 = ((-(*i + 1)) as u64) + 1;
                push_char(out, '-');
                let t = u64_text(mag);
                push_str(out, &t);
                assert(out@ =~= start + number_text(n@));
            } else {
                let t = u64_text(*i as u64);
                push_str(out, &t);
            }
        },
        Number::Float(s) => push_str(out, s),
    }
}

/// Appends the compact JSON text of `v`.
pub fn push_text(out: &mut String, v: &Json)
    ensures
        final(out)@ == old(out)@ + text_of(v@),
    decreases v,
{
    let ghost start = out@;
    match v {
        Json::Null => {
            push_char(out, 'n');
            push_char(out, 'u');
            push_char(out, 'l');
            push_char(out, 'l');
        },
        Json::Bool(b) => {
            if *b {
                push_char(out, 't');
                push_char(out, 'r');
                push_char(out, 'u');
                push_char(out, 'e');
            } else {
                push_char(out, 'f');
                push_char(out, 'a');
                push_char(out, 'l');
                push_char(out, 's');
                push_char(out, 'e');
            }
        },
        Json::Number(n) => push_number(out, n),
        Json::String(s) => push_quoted(out, s),
        Json::Array(items) => {
            assert(decreases_to!(*v => *items));
            push_char(out, '[');
            let mut i: usize = 0;
            while i < items.len()
                invariant
                    decreases_to!(*v => *items),
                    *v == Json::Array(*items),
                    i <= items@.len(),
                    out@ == start + seq!['['] + parts_text(v@, i as nat),
                decreases items@.len() - i,
            {
                proof {
                    assert(decreases_to!(*items => items[i as int]));
                }
                if i > 0 {
                    push_char(out, ',');
                }
                push_text(out, &items[i]);
                assert(v@->Arr_0[i as int] == items@[i as int]@);
                i += 1;
            }
            push_char(out, ']');
        },
        Json::Object(m) => {
            assert(decreases_to!(*v => *m));
            push_char(out, '{');
            let mut i: usize = 0;
            while i < m.len()
                invariant
                    decreases_to!(*v => *m),
                    *v == Json::Object(*m),
                    i <= m@.len(),
                    out@ == start + seq!['{'] + parts_text(v@, i as nat),
                decreases m@.len() - i,
            {
                proof {
                    assert(decreases_to!(*m => m[i as int]));
                    assert(decreases_to!(m[i as int] => m[i as int].1));
                }
                if i > 0 {
                    push_char(out, ',');
                }
                push_quoted(out, &m[i].0);
                push_char(out, ':');
                push_text(out, &m[i].1);
                assert(v@->Obj_0[i as int] == (m@[i as int].0@, m@[i as int].1@));
                i += 1;
            }
            push_char(out, '}');
        },
    }
    assert(out@ =~= start + text_of(v@));
}

} // verus!
