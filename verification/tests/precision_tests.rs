use hitbtc::precision::exp;

#[test]
fn exp_powers_of_ten() {
    assert_eq!(exp("1"), Ok(0));
    assert_eq!(exp("10"), Ok(1));
    assert_eq!(exp("100"), Ok(2));
    assert_eq!(exp("0.1"), Ok(-1));
    assert_eq!(exp("0.01"), Ok(-2));
    assert_eq!(exp("0.001"), Ok(-3));
    assert_eq!(exp("0.00000001"), Ok(-8));
}

#[test]
fn exp_rejects_foreign_characters() {
    assert_eq!(exp("2"), Err(()));
    assert_eq!(exp("0.002"), Err(()));
    assert_eq!(exp("1x"), Err(()));
    assert_eq!(exp("-1"), Err(()));
    assert_eq!(exp(" 1"), Err(()));
}

#[test]
fn exp_rejects_second_one() {
    assert_eq!(exp("11"), Err(()));
    assert_eq!(exp("101"), Err(()));
    assert_eq!(exp("0.011"), Err(()));
}

#[test]
fn exp_rejects_dot_after_nonzero_accumulation() {
    // once zeros have counted positions, a dot cannot restart the scan
    assert_eq!(exp("10.1"), Err(()));
    assert_eq!(exp("10."), Err(()));
}

#[test]
fn exp_scanner_quirks() {
    // the scanner's exact acceptance rule, quirks included
    assert_eq!(exp(""), Ok(0));
    assert_eq!(exp("1."), Ok(-1));
    assert_eq!(exp("1.1"), Ok(-1));
    assert_eq!(exp("0.10"), Ok(0));
    assert_eq!(exp("0.0"), Ok(-2));
}

/// The scanner's rule, written out directly as the reference.
fn exp_reference(s: &str) -> Result<i8, ()> {
    let mut x: i32 = 0;
    let mut q: i32 = 0;
    for c in s.as_bytes() {
        match c {
            b'0' => {
                x += q;
            }
            b'.' => {
                if x != 0 {
                    return Err(());
                }
                x = -1;
                q = -1;
            }
            b'1' => {
                if q == 1 {
                    return Err(());
                }
                q = 1;
            }
            _ => return Err(()),
        }
    }
    Ok(x as i8)
}

#[test]
fn exp_exhaustive_over_alphabet() {
    // every string of length up to four over the scanner's alphabet
    let alphabet = ['0', '1', '.'];
    let mut inputs = vec![String::new()];
    let mut layer = vec![String::new()];
    for _ in 0..4 {
        let mut next = Vec::new();
        for s in &layer {
            for c in alphabet {
                let mut t = s.clone();
                t.push(c);
                next.push(t);
            }
        }
        inputs.extend(next.iter().cloned());
        layer = next;
    }
    for s in &inputs {
        assert_eq!(exp(s), exp_reference(s), "input {s:?}");
    }
}
