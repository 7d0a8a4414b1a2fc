//! Turning a key string (`[prefix.]key.k`) into the address bound to the key.
use crate::address::{address_of, is_address_text, raw_key_to_ip6};
use crate::base32::{decode, decode_spec, decode_state, digit_value};
use crate::text::{last_index, lemma_last_index_skip, push_char};
use vstd::prelude::*;
use vstd::string::*;

verus! {

/// Why a key string yields no address.
#[derive(Debug, Clone, Copy, PartialEq, Eq, Structural)]
pub enum KeyError {
    /// The string does not end in `.k`.
    MissingSuffix,
    /// A prefix was asked for and no `.` stands before the key.
    MissingPrefix,
    /// The key is not a valid encoding.
    InvalidKey,
}

impl KeyError {
    /// A description of the error for people.
    pub fn message(&self) -> (r: String)
        ensures
            r@ == match self {
                KeyError::MissingSuffix => "invalid key format: missing \".k\" suffix"@,
                KeyError::MissingPrefix => "expected prefix before key"@,
                KeyError::InvalidKey => "invalid key format: not a valid base32 key"@,
            },
    {
        match self {
            KeyError::MissingSuffix => String::from_str("invalid key format: missing \".k\" suffix"),
            KeyError::MissingPrefix => String::from_str("expected prefix before key"),
            KeyError::InvalidKey => String::from_str("invalid key format: not a valid base32 key"),
        }
    }
}

/// Whether `s` ends in `.k`.
pub open spec fn has_key_suffix(s: Seq<char>) -> bool {
    s.len() >= 2 && s[s.len() - 2] == '.' && s[s.len() - 1] == 'k'
}

/// What a key string `s` derives to: the address of its key, after the prefix
/// and a `.` where `with_prefix` holds, or the reason it derives to none.
pub open spec fn derive_spec(s: Seq<char>, with_prefix: bool) -> Result<Seq<char>, KeyError> {
    if !has_key_suffix(s) {
        Err(KeyError::MissingSuffix)
    } else {
        let rest = s.take(s.len() - 2);
        if with_prefix {
            match last_index(rest, '.') {
                None => Err(KeyError::MissingPrefix),
                Some(d) => match decode_spec(rest.skip(d + 1)) {
                    None => Err(KeyError::InvalidKey),
                    Some(raw) => Ok(rest.take(d) + seq!['.'] + address_of(raw)),
                },
            }
        } else {
            match decode_spec(rest) {
                None => Err(KeyError::InvalidKey),
                Some(raw) => Ok(address_of(raw)),
            }
        }
    }
}

/// Derives the address of the key in `with_key`, keeping the prefix before
/// the key's last `.` where `with_prefix` holds.
pub fn key_to_ip6(with_key: &str, with_prefix: bool) -> (r: Result<String, KeyError>)
    ensures
        match r {
            Ok(t) => derive_spec(with_key@, with_prefix) == Ok::<Seq<char>, KeyError>(t@),
            Err(e) => derive_spec(with_key@, with_prefix) == Err::<Seq<char>, KeyError>(e),
        },
        r matches Ok(t) ==> t@.len() >= 39 && is_address_text(t@.skip(t@.len() - 39)),
{
    let n = with_key.unicode_len();
    if n < 2 || with_key.get_char(n - 2) != '.' || with_key.get_char(n - 1) != 'k' {
        return Err(KeyError::MissingSuffix);
    }
    let rest = with_key.substring_char(0, n - 2);
    let m = n - 2;
    assert(rest@ =~= with_key@.take(with_key@.len() - 2));
    if with_prefix {
        let mut j: usize = m;
        while j > 0 && rest.get_char(j - 1) != '.'
            invariant
                j <= m,
                m == rest@.len(),
                forall|k: int| j <= k < m ==> rest@[k] != '.',
            decreases j,
        {
            j = j - 1;
        }
        proof {
            lemma_last_index_skip(rest@, j as int, '.');
        }
        if j == 0 {
            return Err(KeyError::MissingPrefix);
        }
        proof {
            assert(rest@.take(j as int).drop_last() =~= rest@.take(j - 1));
        }
        let prefix = rest.substring_char(0, j - 1);
        let key = rest.substring_char(j, m);
        assert(key@ =~= rest@.skip(j as int));
        assert(last_index(rest@, '.') == Some(j - 1));
        assert(prefix@ =~= rest@.take(j - 1));
        let raw = match decode(key) {
            Some(raw) => raw,
            None => return Err(KeyError::InvalidKey),
        };
        let ip6 = raw_key_to_ip6(raw.as_slice());
        let mut t = String::from_str(prefix);
        push_char(&mut t, '.');
        t.append(ip6.as_str());
        assert(t@.skip(t@.len() - 39) =~= ip6@);
        assert(t@ =~= rest@.take(j - 1) + seq!['.'] + ip6@);
        Ok(t)
    } else {
        let raw = match decode(rest) {
            Some(raw) => raw,
            None => return Err(KeyError::InvalidKey),
        };
        let ip6 = raw_key_to_ip6(raw.as_slice());
        assert(ip6@.skip(0) =~= ip6@);
        Ok(ip6)
    }
}

/// The key string made of a key and, where `with_prefix` holds, a prefix.
pub open spec fn key_string(prefix: Seq<char>, key: Seq<char>, with_prefix: bool) -> Seq<char> {
    if with_prefix {
        prefix + seq!['.'] + key + seq!['.', 'k']
    } else {
        key + seq!['.', 'k']
    }
}

/// `c` in upper case, where it is a lower-case ASCII letter.
pub open spec fn upper(c: char) -> char {
    if 'a' <= c <= 'z' {
        ((c as u8) - 32) as u8 as char
    } else {
        c
    }
}

proof fn lemma_decodable_symbols(s: Seq<char>)
    requires
        decode_state(s) is Some,
    ensures
        forall|k: int| 0 <= k < s.len() ==> #[trigger] digit_value(s[k]) is Some,
    decreases s.len(),
{
    if s.len() > 0 {
        lemma_decodable_symbols(s.drop_last());
        assert forall|k: int| 0 <= k < s.len() implies #[trigger] digit_value(s[k]) is Some by {
            if k < s.len() - 1 {
                assert(s[k] == s.drop_last()[k]);
            }
        }
    }
}

proof fn lemma_split_at_key(prefix: Seq<char>, key: Seq<char>)
    requires
        forall|k: int| 0 <= k < key.len() ==> key[k] != '.',
    ensures
        last_index(prefix + seq!['.'] + key, '.') == Some(prefix.len() as int),
        (prefix + seq!['.'] + key).take(prefix.len() as int) == prefix,
        (prefix + seq!['.'] + key).skip(prefix.len() + 1int) == key,
{
    let rest = prefix + seq!['.'] + key;
    let j = prefix.len() + 1int;
    lemma_last_index_skip(rest, j, '.');
    assert(rest.take(j).drop_last() =~= prefix);
    assert(rest.take(prefix.len() as int) =~= prefix);
    assert(rest.skip(j) =~= key);
}

proof fn lemma_key_string_parts(prefix: Seq<char>, key: Seq<char>, with_prefix: bool)
    ensures
        has_key_suffix(key_string(prefix, key, with_prefix)),
        ({
            let s = key_string(prefix, key, with_prefix);
            s.take(s.len() - 2) == if with_prefix {
                prefix + seq!['.'] + key
            } else {
                key
            }
        }),
{
    let s = key_string(prefix, key, with_prefix);
    if with_prefix {
        assert(s.take(s.len() - 2) =~= prefix + seq!['.'] + key);
    } else {
        assert(s.take(s.len() - 2) =~= key);
    }
}

/// Derivation depends on the key string alone: two strings with the same
/// characters derive to the same address, or fail for the same reason.
pub proof fn lemma_deterministic(s1: Seq<char>, s2: Seq<char>, with_prefix: bool)
    requires
        s1 == s2,
    ensures
        derive_spec(s1, with_prefix) == derive_spec(s2, with_prefix),
{
}

/// A string that does not end in `.k` derives to no address.
pub proof fn lemma_suffix_required(s: Seq<char>, with_prefix: bool)
    requires
        !has_key_suffix(s),
    ensures
        derive_spec(s, with_prefix) == Err::<Seq<char>, KeyError>(KeyError::MissingSuffix),
{
}

/// A valid key derives to the same address with and without a prefix, and a
/// prefix comes back unchanged in front of it.
pub proof fn lemma_prefix_round_trip(prefix: Seq<char>, key: Seq<char>)
    requires
        decode_spec(key) is Some,
    ensures
        derive_spec(key_string(prefix, key, true), true) == Ok::<Seq<char>, KeyError>(
            prefix + seq!['.'] + address_of(decode_spec(key)->0),
        ),
        derive_spec(key_string(prefix, key, false), false) == Ok::<Seq<char>, KeyError>(
            address_of(decode_spec(key)->0),
        ),
{
    lemma_decodable_symbols(key);
    assert(digit_value('.') is None);
    lemma_split_at_key(prefix, key);
    lemma_key_string_parts(prefix, key, true);
    lemma_key_string_parts(prefix, key, false);
}

proof fn lemma_upper_state(s: Seq<char>)
    ensures
        decode_state(s.map_values(|c: char| upper(c))) == decode_state(s),
    decreases s.len(),
{
    let u = s.map_values(|c: char| upper(c));
    if s.len() > 0 {
        assert(u.drop_last() =~= s.drop_last().map_values(|c: char| upper(c)));
        lemma_upper_state(s.drop_last());
        let c = s.last();
        assert(u.last() == upper(c));
        assert(digit_value(upper(c)) == digit_value(c));
    }
}

/// Upper-casing the key (the part after the prefix) changes nothing in what a
/// key string derives to.
pub proof fn lemma_case_insensitive(prefix: Seq<char>, key: Seq<char>, with_prefix: bool)
    requires
        forall|k: int| 0 <= k < key.len() ==> key[k] != '.',
    ensures
        derive_spec(key_string(prefix, key.map_values(|c: char| upper(c)), with_prefix), with_prefix)
            == derive_spec(key_string(prefix, key, with_prefix), with_prefix),
{
    let u = key.map_values(|c: char| upper(c));
    lemma_upper_state(key);
    assert forall|k: int| 0 <= k < u.len() implies u[k] != '.' by {
        assert(u[k] == upper(key[k]));
    }
    lemma_key_string_parts(prefix, key, with_prefix);
    lemma_key_string_parts(prefix, u, with_prefix);
    if with_prefix {
        lemma_split_at_key(prefix, key);
        lemma_split_at_key(prefix, u);
    }
}

} // verus!
