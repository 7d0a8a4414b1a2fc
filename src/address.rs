//! The address bound to a key: the first 128 bits of a double SHA-512 digest,
//! written as eight colon-separated groups of four lower-case hex digits.
use crate::text::push_char;
use sha2::{Digest, Sha512};
use vstd::prelude::*;

verus! {

/// What SHA-512 makes of `data`.
pub uninterp spec fn sha512_of(data: Seq<u8>) -> Seq<u8>;

/// Relies on `sha2::Sha512::digest` (through `digest::Digest`): the 64-byte
/// SHA-512 digest of `data`, which depends on `data` alone.
#[verifier::external_body]
fn sha512(data: &[u8]) -> (r: Vec<u8>)
    ensures
        r@ == sha512_of(data@),
        r@.len() == 64,
{
    Sha512::digest(data).to_vec()
}

/// The lower-case hex digit of `n`, for `n < 16`.
pub open spec fn hex_char(n: u8) -> char {
    if n < 10 {
        ('0' as u8 + n) as char
    } else {
        ('a' as u8 + n - 10) as char
    }
}

/// Whether `c` is a lower-case hex digit.
pub open spec fn is_lower_hex(c: char) -> bool {
    ('0' <= c <= '9') || ('a' <= c <= 'f')
}

/// The four hex digits of bytes `2g` and `2g + 1` of `h`, high nibble first.
pub open spec fn group_text(h: Seq<u8>, g: int) -> Seq<char> {
    seq![
        hex_char(h[2 * g] / 16),
        hex_char(h[2 * g] % 16),
        hex_char(h[2 * g + 1] / 16),
        hex_char(h[2 * g + 1] % 16),
    ]
}

/// The first `n` groups of `h`, separated by colons.
pub open spec fn groups_text(h: Seq<u8>, n: nat) -> Seq<char>
    decreases n,
{
    if n == 0 {
        Seq::empty()
    } else if n == 1 {
        group_text(h, 0)
    } else {
        groups_text(h, (n - 1) as nat) + seq![':'] + group_text(h, n - 1)
    }
}

/// The address text of a digest `h`: its first 16 bytes in eight groups.
pub open spec fn ip6_text(h: Seq<u8>) -> Seq<char> {
    groups_text(h, 8)
}

/// The address of a raw key: SHA-512 applied twice, then written as an address.
pub open spec fn address_of(raw_key: Seq<u8>) -> Seq<char> {
    ip6_text(sha512_of(sha512_of(raw_key)))
}

/// Whether `t` is eight groups of four lower-case hex digits joined by colons.
pub open spec fn is_address_text(t: Seq<char>) -> bool {
    &&& t.len() == 39
    &&& forall|p: int| 0 <= p < 39 ==> if p % 5 == 4 {
        #[trigger] t[p] == ':'
    } else {
        is_lower_hex(t[p])
    }
}

fn hex_digit(n: u8) -> (c: char)
    requires
        n < 16,
    ensures
        c == hex_char(n),
{
    if n < 10 {
        (48u8 + n) as char
    } else {
        (97u8 + n - 10) as char
    }
}

/// Writes the first 16 bytes of a digest as an address.
pub fn digest_to_ip6(digest: &[u8]) -> (r: String)
    requires
        digest@.len() >= 16,
    ensures
        r@ == ip6_text(digest@),
{
    let mut r = String::new();
    let mut g: usize = 0;
    while g < 8
        invariant
            g <= 8,
            digest@.len() >= 16,
            r@ == groups_text(digest@, g as nat),
        decreases 8 - g,
    {
        if g > 0 {
            push_char(&mut r, ':');
        }
        let hi = digest[2 * g];
        let lo = digest[2 * g + 1];
        push_char(&mut r, hex_digit(hi / 16));
        push_char(&mut r, hex_digit(hi % 16));
        push_char(&mut r, hex_digit(lo / 16));
        push_char(&mut r, hex_digit(lo % 16));
        proof {
            if g == 0 {
                assert(r@ =~= groups_text(digest@, 1));
            } else {
                assert(r@ =~= groups_text(digest@, (g + 1) as nat));
            }
        }
        g = g + 1;
    }
    r
}

/// The address bound to `raw_key`.
pub fn raw_key_to_ip6(raw_key: &[u8]) -> (r: String)
    ensures
        r@ == address_of(raw_key@),
        is_address_text(r@),
{
    let first = sha512(raw_key);
    let second = sha512(first.as_slice());
    proof {
        lemma_ip6_text_format(second@);
    }
    digest_to_ip6(second.as_slice())
}

proof fn lemma_groups_format(h: Seq<u8>, n: nat)
    requires
        1 <= n <= 8,
        h.len() >= 16,
    ensures
        groups_text(h, n).len() == 5 * n - 1,
        forall|p: int| 0 <= p < 5 * n - 1 ==> if p % 5 == 4 {
            #[trigger] groups_text(h, n)[p] == ':'
        } else {
            is_lower_hex(groups_text(h, n)[p])
        },
    decreases n,
{
    assert forall|b: u8| is_lower_hex(#[trigger] hex_char(b / 16)) && is_lower_hex(hex_char(b % 16)) by {}
    if n > 1 {
        lemma_groups_format(h, (n - 1) as nat);
    }
}

/// Every digest is written as eight groups of four lower-case hex digits
/// separated by colons.
pub proof fn lemma_ip6_text_format(h: Seq<u8>)
    requires
        h.len() >= 16,
    ensures
        is_address_text(ip6_text(h)),
{
    lemma_groups_format(h, 8);
}

} // verus!
