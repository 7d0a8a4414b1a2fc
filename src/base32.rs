//! Decoding of the 32-symbol key alphabet `0-9`, `b-d`, `f-h`, `j-n`, `p-z`
//! (either case), with the least significant bits of each byte first.
use vstd::prelude::*;

verus! {

/// The value of one symbol of the alphabet, or `None` for any other character.
/// Upper-case letters stand for the same values as their lower-case forms.
pub open spec fn digit_value(c: char) -> Option<u32> {
    let l: u32 = if 'A' <= c <= 'Z' { (c as u32 + 32) as u32 } else { c as u32 };
    if '0' as u32 <= l <= '9' as u32 {
        Some((l - '0' as u32) as u32)
    } else if 'b' as u32 <= l <= 'd' as u32 {
        Some((l - 'b' as u32 + 10) as u32)
    } else if 'f' as u32 <= l <= 'h' as u32 {
        Some((l - 'f' as u32 + 13) as u32)
    } else if 'j' as u32 <= l <= 'n' as u32 {
        Some((l - 'j' as u32 + 16) as u32)
    } else if 'p' as u32 <= l <= 'z' as u32 {
        Some((l - 'p' as u32 + 21) as u32)
    } else {
        None
    }
}

/// The scales that the decoder can be at: `2^b` for `b` pending bits, `b < 8`.
pub open spec fn is_scale(scale: nat) -> bool {
    scale == 1 || scale == 2 || scale == 4 || scale == 8 || scale == 16 || scale == 32
        || scale == 64 || scale == 128
}

/// The decoder's state after one more symbol of value `d`: `acc` holds the
/// pending bits (below `scale`), `out` the completed bytes.
pub open spec fn step(acc: nat, scale: nat, out: Seq<u8>, d: nat) -> (nat, nat, Seq<u8>) {
    let a = acc + d * scale;
    let s = scale * 32;
    if s >= 256 {
        (a / 256, s / 256, out.push((a % 256) as u8))
    } else {
        (a, s, out)
    }
}

/// The decoder's state after reading all of `s`, or `None` where `s` holds a
/// character outside the alphabet.
pub open spec fn decode_state(s: Seq<char>) -> Option<(nat, nat, Seq<u8>)>
    decreases s.len(),
{
    if s.len() == 0 {
        Some((0, 1, Seq::empty()))
    } else {
        match (decode_state(s.drop_last()), digit_value(s.last())) {
            (Some((acc, scale, out)), Some(d)) => Some(step(acc, scale, out, d as nat)),
            _ => None,
        }
    }
}

/// The bytes that `s` encodes: every character is a symbol of the alphabet,
/// fewer than five bits are left over at the end, and those are all zero.
pub open spec fn decode_spec(s: Seq<char>) -> Option<Seq<u8>> {
    match decode_state(s) {
        Some((acc, scale, out)) => if scale < 32 && acc == 0 {
            Some(out)
        } else {
            None
        },
        None => None,
    }
}

/// The value of one symbol, or `None` for a character outside the alphabet.
pub fn decode_digit(c: char) -> (r: Option<u32>)
    ensures
        r == digit_value(c),
{
    let l: u32 = if 'A' <= c && c <= 'Z' { c as u32 + 32 } else { c as u32 };
    if '0' as u32 <= l && l <= '9' as u32 {
        Some(l - '0' as u32)
    } else if 'b' as u32 <= l && l <= 'd' as u32 {
        Some(l - 'b' as u32 + 10)
    } else if 'f' as u32 <= l && l <= 'h' as u32 {
        Some(l - 'f' as u32 + 13)
    } else if 'j' as u32 <= l && l <= 'n' as u32 {
        Some(l - 'j' as u32 + 16)
    } else if 'p' as u32 <= l && l <= 'z' as u32 {
        Some(l - 'p' as u32 + 21)
    } else {
        None
    }
}

proof fn lemma_state_bounds(s: Seq<char>)
    ensures
        decode_state(s) matches Some((acc, scale, out)) ==> is_scale(scale) && acc < scale,
    decreases s.len(),
{
    if s.len() > 0 {
        lemma_state_bounds(s.drop_last());
        if let (Some((acc, scale, out)), Some(d)) = (decode_state(s.drop_last()), digit_value(s.last())) {
            assert(d < 32);
            let a = acc + d * scale;
            assert(a < scale * 32) by (nonlinear_arith)
                requires acc < scale, d < 32, a == acc + d * scale;
            if scale * 32 >= 256 {
                let t = scale * 32;
                assert(t % 256 == 0);
                assert(a / 256 < t / 256) by (nonlinear_arith)
                    requires a < t, t % 256 == 0, t >= 256;
            }
        }
    }
}

/// Decodes the characters of `s`; `None` where they encode no bytes.
pub fn decode(s: &str) -> (r: Option<Vec<u8>>)
    ensures
        match r {
            Some(v) => decode_spec(s@) == Some(v@),
            None => decode_spec(s@) is None,
        },
{
    let n = s.unicode_len();
    let mut out: Vec<u8> = Vec::new();
    let mut acc: u32 = 0;
    let mut scale: u32 = 1;
    let mut i: usize = 0;
    while i < n
        invariant
            n == s@.len(),
            i <= n,
            decode_state(s@.take(i as int)) == Some((acc as nat, scale as nat, out@)),
            is_scale(scale as nat),
            acc < scale,
        decreases n - i,
    {
        let c = s.get_char(i);
        proof {
            assert(s@.take(i + 1).drop_last() =~= s@.take(i as int));
            assert(s@.take(i + 1).last() == c);
        }
        let d = match decode_digit(c) {
            Some(d) => d,
            None => {
                proof {
                    lemma_none_extends(s@, i as int + 1);
                }
                return None;
            },
        };
        assert(d < 32);
        assert(acc + d * scale < scale * 32) by (nonlinear_arith)
            requires acc < scale, d < 32;
        let a: u32 = acc + d * scale;
        let t: u32 = scale * 32;
        if t >= 256 {
            out.push((a % 256) as u8);
            acc = a / 256;
            scale = t / 256;
            assert(t % 256 == 0);
            assert(acc < scale) by (nonlinear_arith)
                requires a < t, acc == a / 256, scale == t / 256, t >= 256, t % 256 == 0;
        } else {
            acc = a;
            scale = t;
        }
        i = i + 1;
    }
    assert(s@.take(n as int) =~= s@);
    if scale < 32 && acc == 0 {
        Some(out)
    } else {
        None
    }
}

proof fn lemma_none_extends(s: Seq<char>, k: int)
    requires
        0 <= k <= s.len(),
        decode_state(s.take(k)) is None,
    ensures
        decode_state(s) is None,
    decreases s.len() - k,
{
    if k < s.len() {
        assert(s.take(k + 1).drop_last() =~= s.take(k));
        lemma_none_extends(s, k + 1);
    } else {
        assert(s.take(k) =~= s);
    }
}

} // verus!
