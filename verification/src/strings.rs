//! Building strings character by character.
use vstd::prelude::*;
use vstd::std_specs::iter::IteratorSpec;

verus! {

/// Calls `String::push`, which appends one character.
#[verifier::external_body]
pub(crate) fn string_push(s: &mut String, c: char)
    ensures
        final(s)@ == old(s)@.push(c),
{
    s.push(c)
}

/// The characters of `s`, in order.
pub fn chars_of(s: &str) -> (v: Vec<char>)
    ensures
        v@ == s@,
{
    let mut v: Vec<char> = Vec::new();
    let ghost t = s@;
    let mut chars = s.chars();
    let ghost mut i: int = 0;
    proof {
        broadcast use vstd::string::axiom_spec_iter;
        assert(chars.remaining() == t);
        assert(t.take(0) =~= Seq::<char>::empty());
    }
    loop
        invariant
            0 <= i <= t.len(),
            chars.remaining() == t.skip(i),
            chars.obeys_prophetic_iter_laws(),
            v@ == t.take(i),
        ensures
            v@ == t,
        decreases t.len() - i,
    {
        let ghost before = chars;
        let next = chars.next();
        proof {
            broadcast use vstd::string::next_postcondition;
            assert(before.remaining() == t.skip(i));
        }
        match next {
            None => {
                proof {
                    assert(t.skip(i).len() == 0);
                    assert(t.take(i) =~= t);
                }
                break;
            },
            Some(c) => {
                proof {
                    assert(c == t[i]);
                    assert(t.take(i + 1) =~= t.take(i).push(c));
                    assert(chars.remaining() =~= t.skip(i + 1));
                }
                v.push(c);
                proof {
                    i = i + 1;
                }
            },
        }
    }
    v
}

/// Appends `cs[from..to]` to `out`.
pub fn push_chars(out: &mut String, cs: &Vec<char>, from: usize, to: usize)
    requires
        from <= to <= cs@.len(),
    ensures
        final(out)@ == old(out)@ + cs@.subrange(from as int, to as int),
{
    let mut k = from;
    proof {
        assert(old(out)@ + cs@.subrange(from as int, from as int) =~= old(out)@);
    }
    while k < to
        invariant
            from <= k <= to <= cs@.len(),
            out@ == old(out)@ + cs@.subrange(from as int, k as int),
        decreases to - k,
    {
        string_push(out, cs[k]);
        proof {
            assert(old(out)@ + cs@.subrange(from as int, k + 1) =~= (old(out)@ + cs@.subrange(from as int, k as int)).push(cs@[k as int]));
        }
        k = k + 1;
    }
}

/// Appends `s` to `out`.
pub fn push_str(out: &mut String, s: &str)
    ensures
        final(out)@ == old(out)@ + s@,
{
    let cs = chars_of(s);
    push_chars(out, &cs, 0, cs.len());
    proof {
        assert(cs@.subrange(0, cs@.len() as int) =~= s@);
    }
}

/// The string `cs[from..to]`.
pub fn string_of(cs: &Vec<char>, from: usize, to: usize) -> (r: String)
    requires
        from <= to <= cs@.len(),
    ensures
        r@ == cs@.subrange(from as int, to as int),
{
    let mut r = String::new();
    push_chars(&mut r, cs, from, to);
    proof {
        assert(Seq::<char>::empty() + cs@.subrange(from as int, to as int) =~= cs@.subrange(from as int, to as int));
    }
    r
}


/// The character of a decimal digit.
pub open spec fn digit_char(d: nat) -> char {
    if d == 0 {
        '0'
    } else if d == 1 {
        '1'
    } else if d == 2 {
        '2'
    } else if d == 3 {
        '3'
    } else if d == 4 {
        '4'
    } else if d == 5 {
        '5'
    } else if d == 6 {
        '6'
    } else if d == 7 {
        '7'
    } else if d == 8 {
        '8'
    } else {
        '9'
    }
}

/// `n` written in decimal, without leading zeros, as `Display` writes an
/// unsigned integer.
pub open spec fn decimal(n: nat) -> Seq<char>
    decreases n,
{
    if n < 10 {
        seq![digit_char(n)]
    } else {
        decimal(n / 10).push(digit_char(n % 10))
    }
}

fn digit(d: u64) -> (c: char)
    requires
        d < 10,
    ensures
        c == digit_char(d as nat),
{
    if d == 0 {
        '0'
    } else if d == 1 {
        '1'
    } else if d == 2 {
        '2'
    } else if d == 3 {
        '3'
    } else if d == 4 {
        '4'
    } else if d == 5 {
        '5'
    } else if d == 6 {
        '6'
    } else if d == 7 {
        '7'
    } else if d == 8 {
        '8'
    } else {
        '9'
    }
}

/// Appends `n` in decimal to `out`.
pub fn push_decimal(out: &mut String, n: u64)
    ensures
        final(out)@ == old(out)@ + decimal(n as nat),
    decreases n,
{
    if n >= 10 {
        push_decimal(out, n / 10);
    }
    string_push(out, digit(n % 10));
    proof {
        if n >= 10 {
            assert(old(out)@ + decimal(n as nat) =~= old(out)@ + decimal((n / 10) as nat) + seq![digit_char((n % 10) as nat)]);
        } else {
            assert(old(out)@ + decimal(n as nat) =~= old(out)@.push(digit_char(n as nat)));
        }
    }
}

} // verus!
