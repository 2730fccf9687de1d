use darkreach::search::block::search_block;

fn is_prime_small(n: u64) -> bool {
    if n < 2 {
        return false;
    }
    let mut d = 2u64;
    while d * d <= n {
        if n % d == 0 {
            return false;
        }
        d += 1;
    }
    true
}

fn reported_expressions(out: &str) -> Vec<String> {
    let v: serde_json::Value = serde_json::from_str(out).unwrap();
    v["primes"]
        .as_array()
        .unwrap()
        .iter()
        .map(|p| p["expression"].as_str().unwrap().to_string())
        .collect()
}

#[test]
fn kbn_block_reports_every_prime() {
    let out = search_block("kbn", r#"{"k":3,"base":2,"sign":-1}"#, 1, 40);
    let got = reported_expressions(&out);
    let expected: Vec<String> = (1..=40u64)
        .filter(|&n| is_prime_small(3 * (1u64 << n) - 1))
        .map(|n| format!("3*2^{}-1", n))
        .collect();
    assert_eq!(got, expected);
}

#[test]
fn twin_block_reports_every_pair() {
    let out = search_block("twin", "{}", 1, 2000);
    let got = reported_expressions(&out);
    let expected: Vec<String> = (5..=2000u64)
        .filter(|&p| is_prime_small(p) && is_prime_small(p + 2))
        .map(|p| format!("({}, {})", p, p + 2))
        .collect();
    assert_eq!(got, expected);
}

#[test]
fn sophie_germain_block_reports_every_prime() {
    let out = search_block("sophie_germain", "{}", 1, 3000);
    let got = reported_expressions(&out);
    let expected: Vec<String> = (1..=3000u64)
        .filter(|&p| is_prime_small(p) && is_prime_small(2 * p + 1))
        .map(|p| p.to_string())
        .collect();
    assert_eq!(got, expected);
}

#[test]
fn cullen_woodall_block_reports_every_prime() {
    let out = search_block("cullen_woodall", "{}", 1, 30);
    let got = reported_expressions(&out);
    let mut expected = Vec::new();
    for n in 1..=30u64 {
        let c = n * (1u64 << n) + 1;
        let w = n * (1u64 << n) - 1;
        if is_prime_small(c) {
            expected.push(format!("{}*2^{}+1", n, n));
        }
        if is_prime_small(w) {
            expected.push(format!("{}*2^{}-1", n, n));
        }
    }
    assert_eq!(got, expected);
}
