//! Building strings character by character.

use vstd::prelude::*;

verus! {

broadcast use vstd::string::axiom_spec_iter;

} // verus!

verus! {

/// Appends one character: `String::push`.
#[verifier::external_body]
pub fn push_char(s: &mut String, c: char)
    ensures
        final(s)@ == old(s)@.push(c),
{
    s.push(c)
}

/// Appends a sequence of characters, in order.
pub fn push_chars(s: &mut String, cs: &Vec<char>)
    ensures
        final(s)@ == old(s)@ + cs@,
{
    let mut i: usize = 0;
    while i < cs.len()
        invariant
            0 <= i <= cs.len(),
            s@ == old(s)@ + cs@.subrange(0, i as int),
        decreases cs.len() - i,
    {
        push_char(s, cs[i]);
        i += 1;
        assert(cs@.subrange(0, i as int) == cs@.subrange(0, i - 1).push(cs@[i - 1]));
    }
    assert(cs@.subrange(0, cs.len() as int) == cs@);
}

/// The decimal digits of `x`, most significant first.
pub open spec fn decimal(x: nat) -> Seq<char>
    decreases x,
{
    if x < 10 {
        seq![(x + 48) as char]
    } else {
        decimal(x / 10).push(((x % 10) + 48) as char)
    }
}

/// Appends the decimal representation of `x`.
pub fn push_decimal(s: &mut String, x: u32)
    ensures
        final(s)@ == old(s)@ + decimal(x as nat),
    decreases x,
{
    if x < 10 {
        push_char(s, ((x as u8) + 48u8) as char);
        assert(decimal(x as nat) == seq![(x + 48) as char]);
    } else {
        push_decimal(s, x / 10);
        push_char(s, (((x % 10) as u8) + 48u8) as char);
    }
}

/// Appends the decimal representation of `x`.
pub fn push_decimal_u64(s: &mut String, x: u64)
    ensures
        final(s)@ == old(s)@ + decimal(x as nat),
    decreases x,
{
    if x < 10 {
        push_char(s, ((x as u8) + 48u8) as char);
        assert(decimal(x as nat) == seq![(x + 48) as char]);
    } else {
        push_decimal_u64(s, x / 10);
        push_char(s, (((x % 10) as u8) + 48u8) as char);
    }
}

/// Appends the characters of `t`.
pub fn push_str(s: &mut String, t: &str)
    ensures
        final(s)@ == old(s)@ + t@,
{
    let cs = chars_of(t);
    push_chars(s, &cs);
}

/// The `Debug` rendering of a string slice, as Rust writes it.
pub uninterp spec fn debug_str_spec(s: Seq<char>) -> Seq<char>;

/// The `Debug` rendering of a character, as Rust writes it.
pub uninterp spec fn debug_char_spec(c: char) -> Seq<char>;

/// `format!("{s:?}")`: the quoted, escaped rendering of `s`.
#[verifier::external_body]
pub fn debug_str(s: &str) -> (r: String)
    ensures
        r@ == debug_str_spec(s@),
{
    format!("{s:?}")
}

/// `format!("{c:?}")`: the quoted, escaped rendering of `c`.
#[verifier::external_body]
pub fn debug_char(c: char) -> (r: String)
    ensures
        r@ == debug_char_spec(c),
{
    format!("{c:?}")
}


/// The characters of `s`, in order.
pub fn chars_of(s: &str) -> (v: Vec<char>)
    ensures
        v@ == s@,
{
    let mut v: Vec<char> = Vec::new();
    for c in it: s.chars()
        invariant
            v@ == it.seq().take(it.index() as int),
            it.seq() == s@,
            v.len() == it.index(),
            it.index() <= it.seq().len(),
    {
        v.push(c);
    }
    v
}

} // verus!
