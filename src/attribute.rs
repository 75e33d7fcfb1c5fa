use vstd::prelude::*;

use crate::error::BacklightError;

verus! {

/// Whether `c` is white space in the sense of Unicode's `White_Space`
/// property, as `char::is_whitespace` decides it.
pub open spec fn is_white(c: char) -> bool {
    let u = c as u32;
    (0x09 <= u <= 0x0d) || u == 0x20 || u == 0x85 || u == 0xa0 || u == 0x1680
        || (0x2000 <= u <= 0x200a) || u == 0x2028 || u == 0x2029 || u == 0x202f
        || u == 0x205f || u == 0x3000
}

/// The run of non-white characters at the start of `s`.
pub open spec fn leading_run(s: Seq<char>) -> Seq<char>
    decreases s.len(),
{
    if s.len() == 0 || is_white(s[0]) {
        seq![]
    } else {
        seq![s[0]] + leading_run(s.drop_first())
    }
}

/// The first white-space separated token of `s`, empty when there is none.
pub open spec fn first_token(s: Seq<char>) -> Seq<char>
    decreases s.len(),
{
    if s.len() == 0 {
        seq![]
    } else if is_white(s[0]) {
        first_token(s.drop_first())
    } else {
        leading_run(s)
    }
}

fn is_white_char(c: char) -> (r: bool)
    ensures
        r == is_white(c),
{
    let u = c as u32;
    (0x09 <= u && u <= 0x0d) || u == 0x20 || u == 0x85 || u == 0xa0 || u == 0x1680
        || (0x2000 <= u && u <= 0x200a) || u == 0x2028 || u == 0x2029 || u == 0x202f
        || u == 0x205f || u == 0x3000
}

fn first_token_of(s: &str) -> (r: Vec<char>)
    ensures
        r@ == first_token(s@),
{
    // 0: before the token, 1: inside it, 2: after it
    let mut phase: u8 = 0;
    let mut tok: Vec<char> = Vec::new();
    assert(s@.subrange(0, s@.len() as int) =~= s@);
    for c in it: s.chars()
        invariant
            it.seq() == s@,
            phase <= 2,
            phase == 0 ==> tok@.len() == 0 && first_token(s@) == first_token(s@.subrange(it.index() as int, s@.len() as int)),
            phase == 1 ==> first_token(s@) == tok@ + leading_run(s@.subrange(it.index() as int, s@.len() as int)),
            phase == 2 ==> first_token(s@) == tok@,
    {
        let ghost k = it.index() as int;
        let ghost rest = s@.subrange(k, s@.len() as int);
        assert(rest.drop_first() =~= s@.subrange(k + 1, s@.len() as int));
        let w = is_white_char(c);
        if phase == 0 {
            if !w {
                phase = 1;
                tok.push(c);
                assert(tok@ =~= seq![c]);
            }
        } else if phase == 1 {
            if w {
                phase = 2;
            } else {
                assert(tok@.push(c) + leading_run(rest.drop_first()) =~= tok@ + (seq![c] + leading_run(rest.drop_first())));
                tok.push(c);
            }
        }
    }
    proof {
        let rest = s@.subrange(s@.len() as int, s@.len() as int);
        assert(rest =~= Seq::<char>::empty());
        if phase == 1 {
            assert(tok@ + leading_run(rest) =~= tok@);
        }
    }
    tok
}

/// Whether `c` is one of the ASCII digits.
pub open spec fn is_digit(c: char) -> bool {
    0x30 <= (c as u32) <= 0x39
}

/// The value of the digit `c`.
pub open spec fn digit_value(c: char) -> nat {
    ((c as u32) - 0x30) as nat
}

/// The value of the decimal numeral `d`, most significant digit first.
pub open spec fn digits_value(d: Seq<char>) -> nat
    decreases d.len(),
{
    if d.len() == 0 {
        0
    } else {
        digits_value(d.drop_last()) * 10 + digit_value(d.last())
    }
}

/// The digits of an unsigned numeral: the token without a leading `+`.
pub open spec fn numeral_digits(t: Seq<char>) -> Seq<char> {
    if t.len() > 0 && t[0] == '+' {
        t.drop_first()
    } else {
        t
    }
}

/// Whether `t` is an unsigned numeral: an optional `+` and one digit or more.
pub open spec fn is_numeral(t: Seq<char>) -> bool {
    let d = numeral_digits(t);
    d.len() > 0 && forall|i: int| 0 <= i < d.len() ==> is_digit(#[trigger] d[i])
}

/// The value held in the text `s` of an attribute file: its first token read
/// as an unsigned integer.
pub open spec fn attribute_value(s: Seq<char>) -> Result<usize, BacklightError> {
    let t = first_token(s);
    if t.len() == 0 {
        Err(BacklightError::Empty)
    } else if is_numeral(t) && digits_value(numeral_digits(t)) <= usize::MAX {
        Ok(digits_value(numeral_digits(t)) as usize)
    } else {
        Err(BacklightError::Unparsable)
    }
}

/// Reads the numeral `t`; `None` where it is no numeral or its value does
/// not fit in a `usize`.
fn parse_numeral(t: &Vec<char>) -> (r: Option<usize>)
    ensures
        r is Some <==> is_numeral(t@) && digits_value(numeral_digits(t@)) <= usize::MAX,
        r matches Some(v) ==> v == digits_value(numeral_digits(t@)),
{
    let start: usize = if t.len() > 0 && t[0] == '+' { 1 } else { 0 };
    let ghost d = numeral_digits(t@);
    assert(d =~= t@.subrange(start as int, t@.len() as int));
    let mut value: usize = 0;
    let mut digits_ok: bool = true;
    let mut overflow: bool = false;
    let mut i: usize = start;
    while i < t.len()
        invariant
            start <= i <= t.len(),
            d == t@.subrange(start as int, t@.len() as int),
            digits_ok <==> forall|j: int| 0 <= j < i - start ==> is_digit(#[trigger] d[j]),
            digits_ok && !overflow ==> value == digits_value(d.subrange(0, i - start)),
            digits_ok && overflow ==> digits_value(d.subrange(0, i - start)) > usize::MAX,
        decreases t.len() - i,
    {
        let c = t[i];
        let ghost pre = d.subrange(0, i - start);
        let ghost next = d.subrange(0, i + 1 - start);
        assert(next.drop_last() =~= pre);
        assert(next.last() == c);
        let u = c as u32;
        if u < 0x30 || u > 0x39 {
            digits_ok = false;
        } else if digits_ok && !overflow {
            let dv = (u - 0x30) as usize;
            if value > (usize::MAX - dv) / 10 {
                overflow = true;
            } else {
                value = value * 10 + dv;
            }
        }
        i = i + 1;
    }
    assert(d.subrange(0, d.len() as int) =~= d);
    if digits_ok && !overflow && i > start {
        Some(value)
    } else {
        None
    }
}

/// Reads the value held in the text of an attribute file (`brightness`,
/// `max_brightness`, `actual_brightness`): its first white-space separated
/// token, read as an unsigned integer. Text with no token is `Empty`; a token
/// that is no unsigned integer, or one too large for a `usize`, is
/// `Unparsable`.
pub fn read_file_to_usize(contents: &str) -> (r: Result<usize, BacklightError>)
    ensures
        r == attribute_value(contents@),
{
    let tok = first_token_of(contents);
    if tok.len() == 0 {
        return Err(BacklightError::Empty);
    }
    match parse_numeral(&tok) {
        Some(v) => Ok(v),
        None => Err(BacklightError::Unparsable),
    }
}

/// The decimal numeral of `v` in ASCII, with no leading zero.
pub open spec fn decimal_bytes(v: nat) -> Seq<u8>
    decreases v,
{
    if v < 10 {
        seq![(0x30 + v) as u8]
    } else {
        decimal_bytes(v / 10).push((0x30 + v % 10) as u8)
    }
}

/// The characters that the ASCII bytes `b` stand for.
pub open spec fn ascii_text(b: Seq<u8>) -> Seq<char> {
    b.map_values(|x: u8| x as char)
}

fn push_decimal(v: usize, out: &mut Vec<u8>)
    ensures
        final(out)@ == old(out)@ + decimal_bytes(v as nat),
    decreases v,
{
    if v >= 10 {
        push_decimal(v / 10, out);
    }
    out.push((0x30 + v % 10) as u8);
    proof {
        if v < 10 {
            assert(old(out)@ + decimal_bytes(v as nat) =~= old(out)@.push((0x30 + v % 10) as u8));
        } else {
            assert(old(out)@ + decimal_bytes(v as nat) =~= (old(out)@ + decimal_bytes((v / 10) as nat)).push((0x30 + v % 10) as u8));
        }
    }
}

/// The text to write to a `brightness` file to ask for the value `value`:
/// its decimal numeral.
pub fn brightness_text(value: usize) -> (r: Vec<u8>)
    ensures
        r@ == decimal_bytes(value as nat),
{
    let mut out: Vec<u8> = Vec::new();
    push_decimal(value, &mut out);
    assert(out@ =~= decimal_bytes(value as nat));
    out
}

proof fn lemma_leading_run_whole(s: Seq<char>)
    requires
        forall|i: int| 0 <= i < s.len() ==> !is_white(#[trigger] s[i]),
    ensures
        leading_run(s) == s,
    decreases s.len(),
{
    if s.len() > 0 {
        let t = s.drop_first();
        assert forall|i: int| 0 <= i < t.len() implies !is_white(#[trigger] t[i]) by {
            assert(t[i] == s[i + 1]);
        }
        lemma_leading_run_whole(t);
        assert(seq![s[0]] + t =~= s);
    }
}

proof fn lemma_decimal_text(v: nat)
    ensures
        ascii_text(decimal_bytes(v)).len() > 0,
        forall|i: int| 0 <= i < ascii_text(decimal_bytes(v)).len()
            ==> is_digit(#[trigger] ascii_text(decimal_bytes(v))[i]),
        digits_value(ascii_text(decimal_bytes(v))) == v,
    decreases v,
{
    let s = ascii_text(decimal_bytes(v));
    if v >= 10 {
        lemma_decimal_text(v / 10);
        let p = ascii_text(decimal_bytes(v / 10));
        let b = (0x30 + v % 10) as u8;
        assert(s =~= p.push(b as char));
        assert(s.drop_last() =~= p);
        assert(digit_value(s.last()) == v % 10);
        assert(digits_value(s) == (v / 10) * 10 + v % 10);
        assert((v / 10) * 10 + v % 10 == v) by (nonlinear_arith);
    } else {
        assert(s.drop_last() =~= Seq::<char>::empty());
        assert(digit_value(s.last()) == v);
        assert(digits_value(s.drop_last()) == 0);
        assert(digits_value(s) == v);
    }
}

/// Writing the text of `brightness_text(v)` to an attribute file and reading
/// that file back gives `v` again.
pub proof fn lemma_brightness_round_trip(v: usize)
    ensures
        attribute_value(ascii_text(decimal_bytes(v as nat))) == Ok::<usize, BacklightError>(v),
{
    let s = ascii_text(decimal_bytes(v as nat));
    lemma_decimal_text(v as nat);
    assert forall|i: int| 0 <= i < s.len() implies !is_white(#[trigger] s[i]) by {
        assert(is_digit(s[i]));
    }
    lemma_leading_run_whole(s);
    assert(is_digit(s[0]));
    assert(numeral_digits(s) == s);
    assert(first_token(s) == s);
}

} // verus!
