use dns_codec::validation::{check_length, check_token_length};
use rand::{distributions::Alphanumeric, thread_rng, Rng};

#[test]
pub fn too_long_total_length() {
    let v: String = thread_rng()
        .sample_iter(&Alphanumeric)
        .take(256)
        .map(char::from)
        .collect();

    assert!(!check_length(&v))
}

#[test]
pub fn total_length_okey() {
    let v: String = thread_rng()
        .sample_iter(&Alphanumeric)
        .take(255)
        .map(char::from)
        .collect();

    assert!(check_length(&v))
}

#[test]
pub fn token_length_okey() {
    let mut t1: String = thread_rng()
        .sample_iter(&Alphanumeric)
        .take(15)
        .map(char::from)
        .collect();

    let t2: String = thread_rng()
        .sample_iter(&Alphanumeric)
        .take(15)
        .map(char::from)
        .collect();

    t1.push('.');
    t1.push_str(&t2);

    assert_eq!((t1.as_str(), true), check_token_length(&t1))
}

#[test]
pub fn token_length_not_okey() {
    let mut t1: String = thread_rng()
        .sample_iter(&Alphanumeric)
        .take(65)
        .map(char::from)
        .collect();

    let t2: String = thread_rng()
        .sample_iter(&Alphanumeric)
        .take(65)
        .map(char::from)
        .collect();

    let expected = t1.clone();

    t1.push('.');
    t1.push_str(&t2);

    assert_eq!((expected.as_str(), false), check_token_length(&t1))
}

#[test]
fn token_length_reports_first_long_piece() {
    let long = "b".repeat(64);
    let name = format!("ok.{}.{}", long, "c".repeat(70));
    assert_eq!(check_token_length(&name), (long.as_str(), false));
    let last = format!("ok.{}", "d".repeat(64));
    assert_eq!(check_token_length(&last).1, false);
    assert_eq!(check_token_length(&last).0.len(), 64);
}

#[test]
fn limits_are_inclusive() {
    let max = "e".repeat(63);
    assert_eq!(check_token_length(&max), (max.as_str(), true));
    assert!(check_length(&"f".repeat(255)));
    assert!(check_length(&String::new()));
}
