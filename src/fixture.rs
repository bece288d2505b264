use vstd::prelude::*;

verus! {

pub open spec fn is_digit(b: u8) -> bool {
    48 <= b <= 57
}

/// Number of ASCII digits at the start of `s`.
pub open spec fn digit_run(s: Seq<u8>) -> nat
    decreases s.len(),
{
    if s.len() > 0 && is_digit(s[0]) {
        1 + digit_run(s.drop_first())
    } else {
        0
    }
}

/// Decimal value of the first `k` bytes of `s`, read as digits.
pub open spec fn digits_value(s: Seq<u8>, k: int) -> int
    decreases k,
{
    if k <= 0 {
        0
    } else {
        digits_value(s, k - 1) * 10 + (s[k - 1] - 48)
    }
}

pub open spec fn has_sign(s: Seq<u8>) -> bool {
    s.len() > 0 && (s[0] == 43 || s[0] == 45)
}

/// The number at the start of `s`, as a `u32`: an optional `+` or `-`, then the
/// leading digits, with anything after them ignored. Nothing is read from a text that
/// holds neither sign nor digit there, from a value past `u32::MAX`, or from a
/// nonzero value after `-`.
pub open spec fn leading_u32(s: Seq<u8>) -> Option<u32> {
    let off: int = if has_sign(s) { 1 } else { 0 };
    let body = s.subrange(off, s.len() as int);
    let d = digit_run(body) as int;
    let v = digits_value(body, d);
    if off + d == 0 {
        None
    } else if has_sign(s) && s[0] == 45 {
        if v == 0 { Some(0u32) } else { None }
    } else if v <= u32::MAX {
        Some(v as u32)
    } else {
        None
    }
}

/// Relies on atoi::atoi::<u32>: reads an optional sign and the leading decimal digits,
/// returning `None` when it consumed nothing or the value does not fit.
#[verifier::external_body]
fn parse_u32(text: &[u8]) -> (r: Option<u32>)
    ensures
        r == leading_u32(text@),
{
    atoi::atoi::<u32>(text)
}

/// End of the field that starts at `start`: just past the first `delim` from there on,
/// or the end of `s`.
pub open spec fn field_end(s: Seq<u8>, start: int, delim: u8) -> int
    decreases s.len() - start,
{
    if start >= s.len() {
        s.len() as int
    } else if s[start] == delim {
        start + 1
    } else {
        field_end(s, start + 1, delim)
    }
}

/// The number that the field from `start` to `delim` begins with.
pub open spec fn field_value(s: Seq<u8>, start: int, delim: u8) -> Option<u32> {
    leading_u32(s.subrange(start, field_end(s, start, delim)))
}

/// `count` space-separated weights read from `start` on.
pub open spec fn weights_from(s: Seq<u8>, start: int, count: nat) -> Option<Seq<u32>>
    decreases count,
{
    if count == 0 {
        Some(Seq::<u32>::empty())
    } else {
        match field_value(s, start, 32) {
            None => None,
            Some(x) => match weights_from(s, field_end(s, start, 32), (count - 1) as nat) {
                None => None,
                Some(rest) => Some(seq![x] + rest),
            },
        }
    }
}

/// A question record: `n L U` then `n` weights, or `None` where a number is missing.
pub open spec fn question_of(s: Seq<u8>) -> Option<(u32, u32, Seq<u32>)> {
    let e1 = field_end(s, 0, 32);
    let e2 = field_end(s, e1, 32);
    let e3 = field_end(s, e2, 10);
    match (field_value(s, 0, 32), field_value(s, e1, 32), field_value(s, e2, 10)) {
        (Some(n), Some(l), Some(u)) => match weights_from(s, e3, n as nat) {
            Some(w) => Some((l, u, w)),
            None => None,
        },
        _ => None,
    }
}

/// An answer record: whether the number on its second line is nonzero.
pub open spec fn verdict_of(s: Seq<u8>) -> Option<bool> {
    let e1 = field_end(s, 0, 10);
    match field_value(s, e1, 10) {
        Some(v) => Some(v != 0),
        None => None,
    }
}

fn next_field(text: &[u8], start: usize, delim: u8) -> (end: usize)
    requires
        start <= text@.len(),
    ensures
        end == field_end(text@, start as int, delim),
        start <= end <= text@.len(),
{
    let mut i = start;
    while i < text.len() && text[i] != delim
        invariant
            start <= i <= text@.len(),
            field_end(text@, i as int, delim) == field_end(text@, start as int, delim),
        decreases text@.len() - i,
    {
        i = i + 1;
    }
    if i < text.len() {
        i + 1
    } else {
        i
    }
}

fn read_field(text: &[u8], start: usize, delim: u8) -> (r: (Option<u32>, usize))
    requires
        start <= text@.len(),
    ensures
        r.0 == field_value(text@, start as int, delim),
        r.1 == field_end(text@, start as int, delim),
        start <= r.1 <= text@.len(),
{
    let end = next_field(text, start, delim);
    let x = parse_u32(&text[start..end]);
    (x, end)
}

/// Reads a question record `n L U` followed by `n` space-separated weights.
pub fn parse_question(text: &[u8]) -> (r: Option<(u32, u32, Vec<u32>)>)
    ensures
        r.is_none() <==> question_of(text@).is_none(),
        r.is_some() ==> question_of(text@) == Some((r.unwrap().0, r.unwrap().1, r.unwrap().2@)),
{
    let (n, after_first) = read_field(text, 0, 32);
    let (l, after_l) = read_field(text, after_first, 32);
    let (u, after_u) = read_field(text, after_l, 10);
    if n.is_none() || l.is_none() || u.is_none() {
        return None;
    }
    let n = n.unwrap();
    let mut w: Vec<u32> = Vec::new();
    let mut pos = after_u;
    let mut i: u32 = 0;
    while i < n
        invariant
            pos <= text@.len(),
            i <= n,
            l.is_some() && u.is_some(),
            question_of(text@) == match weights_from(text@, after_u as int, n as nat) {
                Some(ws) => Some((l.unwrap(), u.unwrap(), ws)),
                None => None,
            },
            weights_from(text@, after_u as int, n as nat) == match weights_from(
                text@,
                pos as int,
                (n - i) as nat,
            ) {
                None => None,
                Some(rest) => Some(w@ + rest),
            },
        decreases n - i,
    {
        let (x, next) = read_field(text, pos, 32);
        match x {
            None => {
                proof {
                    assert(weights_from(text@, pos as int, (n - i) as nat).is_none());
                    assert(weights_from(text@, after_u as int, n as nat).is_none());
                }
                return None;
            },
            Some(v) => {
                proof {
                    let rest = weights_from(text@, next as int, (n - i - 1) as nat);
                    if rest.is_some() {
                        assert(w@.push(v) + rest.unwrap() =~= w@ + (seq![v] + rest.unwrap()));
                    }
                }
                w.push(v);
                pos = next;
                i = i + 1;
            },
        }
    }
    proof {
        assert(w@ + Seq::<u32>::empty() =~= w@);
    }
    Some((l.unwrap(), u.unwrap(), w))
}

/// Reads an answer record: `true` when the number on its second line is nonzero.
pub fn parse_verdict(text: &[u8]) -> (r: Option<bool>)
    ensures
        r == verdict_of(text@),
{
    let after_first = next_field(text, 0, 10);
    let (v, _) = read_field(text, after_first, 10);
    match v {
        Some(x) => Some(x != 0),
        None => None,
    }
}

} // verus!
