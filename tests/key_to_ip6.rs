use cjdnstool::address::{digest_to_ip6, raw_key_to_ip6};
use cjdnstool::base32::{decode, decode_digit};
use cjdnstool::key::{key_to_ip6, KeyError};

fn test_key_to_ip6_samples(samples: &[(&str, &str)], with_prefix: bool) {
    for (&ref key, &ref ip6) in samples {
        assert_eq!(key_to_ip6(key, with_prefix).unwrap(), ip6);
    }
}

#[test]
fn test_key_to_ip6() {
    const SAMPLES: &[(&str, &str)] = &[
        (
            "rjndc8rvg194ddf2j5v679cfjcpmsmhv8p022q3lvpym21cqwyh0.k",
            "fc50:47a8:2ef5:1c82:952e:10fc:dbad:dba9",
        ),
        (
            "RJNDC8RVG194DDF2J5V679CFJCPMSMHV8P022Q3LVPYM21CQWYH0.k",
            "fc50:47a8:2ef5:1c82:952e:10fc:dbad:dba9",
        ),
    ];
    test_key_to_ip6_samples(SAMPLES, false)
}

#[test]
fn test_key_to_ip6_with_prefix() {
    const SAMPLES: &[(&str, &str)] = &[
        (
            "v21.0000.0000.0000.001d.08bz912l989nzqc21q9x5qr96ns465nd71f290hb9q40z94jjw60.k",
            "v21.0000.0000.0000.001d.fc8d:56ed:a8f3:237e:e586:2447:9966:9be1",
        ),
        (
            "v20.0000.0000.0000.001b.byxcwmgbhkcgt3vv2820vujbc65szwkn9sj7vk1x3tjdw4q0sc30.k",
            "v20.0000.0000.0000.001b.fcb6:19d6:8d6a:7437:0213:039c:d9fb:e255",
        ),
        (
            "v20.0000.0000.0000.0019.kw0vfw3tmb6u6p21z5jmmymdlumwknlg3x8muk5mcw66tdpqlw30.k",
            "v20.0000.0000.0000.0019.fc02:2735:e595:bb70:8ffc:5293:8af8:c4b7",
        ),
    ];
    test_key_to_ip6_samples(SAMPLES, true)
}

const KEY: &str = "rjndc8rvg194ddf2j5v679cfjcpmsmhv8p022q3lvpym21cqwyh0";
const ADDR: &str = "fc50:47a8:2ef5:1c82:952e:10fc:dbad:dba9";

#[test]
fn missing_suffix_is_rejected() {
    assert_eq!(key_to_ip6("not-ending-in-dot-k", false), Err(KeyError::MissingSuffix));
    assert_eq!(key_to_ip6("not-ending-in-dot-k", true), Err(KeyError::MissingSuffix));
    assert_eq!(key_to_ip6("", false), Err(KeyError::MissingSuffix));
    assert_eq!(key_to_ip6("k", false), Err(KeyError::MissingSuffix));
    assert_eq!(key_to_ip6(KEY, false), Err(KeyError::MissingSuffix));
}

#[test]
fn missing_prefix_is_rejected() {
    assert_eq!(key_to_ip6("onlykey.k", true), Err(KeyError::MissingPrefix));
    assert_eq!(key_to_ip6(&format!("{KEY}.k"), true), Err(KeyError::MissingPrefix));
}

#[test]
fn invalid_key_is_rejected() {
    // 'a' is not in the alphabet
    assert_eq!(key_to_ip6("onlykeya.k", false), Err(KeyError::InvalidKey));
    assert_eq!(key_to_ip6("p.onlykey.k", true), Err(KeyError::InvalidKey));
    // non-zero leftover bits
    assert_eq!(key_to_ip6("0z.k", false), Err(KeyError::InvalidKey));
    assert_eq!(key_to_ip6("é.k", false), Err(KeyError::InvalidKey));
}

#[test]
fn prefix_round_trip() {
    let plain = key_to_ip6(&format!("{KEY}.k"), false).unwrap();
    assert_eq!(plain, ADDR);
    let prefixed = key_to_ip6(&format!("a.b.c.{KEY}.k"), true).unwrap();
    assert_eq!(prefixed, format!("a.b.c.{ADDR}"));
    let empty_prefix = key_to_ip6(&format!(".{KEY}.k"), true).unwrap();
    assert_eq!(empty_prefix, format!(".{ADDR}"));
}

#[test]
fn deterministic_and_case_insensitive() {
    let s = format!("v1.{KEY}.k");
    let u = format!("v1.{}.k", KEY.to_uppercase());
    let mixed = format!("v1.{}{}.k", &KEY[..10].to_uppercase(), &KEY[10..]);
    let a = key_to_ip6(&s, true).unwrap();
    assert_eq!(a, key_to_ip6(&s, true).unwrap());
    assert_eq!(a, key_to_ip6(&u, true).unwrap());
    assert_eq!(a, key_to_ip6(&mixed, true).unwrap());
}

#[test]
fn address_format() {
    let a = key_to_ip6(&format!("{KEY}.k"), false).unwrap();
    assert_eq!(a.len(), 39);
    for (p, c) in a.chars().enumerate() {
        if p % 5 == 4 {
            assert_eq!(c, ':');
        } else {
            assert!(c.is_ascii_digit() || ('a'..='f').contains(&c));
        }
    }
}

#[test]
fn decode_edges() {
    assert_eq!(decode(""), Some(vec![]));
    assert_eq!(decode("0"), None);
    assert_eq!(decode("00"), Some(vec![0]));
    assert_eq!(decode("z7"), Some(vec![0xff]));
    assert_eq!(decode("Z7"), Some(vec![0xff]));
    assert_eq!(decode("z8"), None);
    assert_eq!(decode("0a"), None);
    assert_eq!(decode(KEY).unwrap().len(), 32);
}

#[test]
fn digit_values() {
    assert_eq!(decode_digit('0'), Some(0));
    assert_eq!(decode_digit('9'), Some(9));
    assert_eq!(decode_digit('b'), Some(10));
    assert_eq!(decode_digit('F'), Some(13));
    assert_eq!(decode_digit('j'), Some(16));
    assert_eq!(decode_digit('p'), Some(21));
    assert_eq!(decode_digit('z'), Some(31));
    assert_eq!(decode_digit('a'), None);
    assert_eq!(decode_digit('e'), None);
    assert_eq!(decode_digit('i'), None);
    assert_eq!(decode_digit('o'), None);
    assert_eq!(decode_digit('.'), None);
}

#[test]
fn digest_formatting() {
    let d: Vec<u8> = (0u8..64).map(|i| i.wrapping_mul(17)).collect();
    assert_eq!(digest_to_ip6(&d), "0011:2233:4455:6677:8899:aabb:ccdd:eeff");
}

#[test]
fn raw_key_address() {
    let raw = decode(KEY).unwrap();
    assert_eq!(raw_key_to_ip6(&raw), ADDR);
    // SHA-512 twice over no bytes
    assert_eq!(raw_key_to_ip6(&[]), raw_key_to_ip6(&[]));
    assert_ne!(raw_key_to_ip6(&[]), "0000:0000:0000:0000:0000:0000:0000:0000");
}

#[test]
fn error_messages() {
    assert_eq!(KeyError::MissingSuffix.message(), "invalid key format: missing \".k\" suffix");
    assert_eq!(KeyError::MissingPrefix.message(), "expected prefix before key");
    assert!(KeyError::InvalidKey.message().starts_with("invalid key format: "));
}
