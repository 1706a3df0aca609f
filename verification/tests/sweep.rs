use spawnado::sweep::{parse_sweep, read_sweep, try_parse_sweep, SweepError};

fn ok(s: &str) -> Vec<usize> {
    parse_sweep(s).unwrap()
}

fn err(s: &str) -> String {
    parse_sweep(s).unwrap_err()
}

/// The same parser written with the string functions of the standard library.
fn reference(s: &str) -> Result<Vec<usize>, String> {
    let mut out: Vec<usize> = Vec::new();
    for raw in s.split(',') {
        let token = raw.trim();
        if token.is_empty() {
            continue;
        }
        if let Some((low, high)) = token.split_once('-') {
            let low: usize = low
                .trim()
                .parse()
                .map_err(|_| format!("invalid number in range: {low:?}"))?;
            let high: usize = high
                .trim()
                .parse()
                .map_err(|_| format!("invalid number in range: {high:?}"))?;
            if low == 0 || high == 0 {
                return Err("thread counts must be >= 1".into());
            }
            if low > high {
                return Err(format!("range {low}-{high} is descending"));
            }
            out.extend(low..=high);
        } else {
            let n: usize = token
                .parse()
                .map_err(|_| format!("invalid thread count: {token:?}"))?;
            if n == 0 {
                return Err("thread counts must be >= 1".into());
            }
            out.push(n);
        }
    }
    if out.is_empty() {
        return Err("sweep specification is empty".into());
    }
    out.sort_unstable();
    out.dedup();
    Ok(out)
}

#[test]
fn sweep_list() {
    assert_eq!(ok("1,2,4,8"), [1, 2, 4, 8]);
}

#[test]
fn sweep_range() {
    assert_eq!(ok("1-8"), [1, 2, 3, 4, 5, 6, 7, 8]);
}

#[test]
fn sweep_list_and_range() {
    assert_eq!(ok("1,2,4-8,16"), [1, 2, 4, 5, 6, 7, 8, 16]);
}

#[test]
fn sweep_sorts_and_drops_repetitions() {
    assert_eq!(ok("8,1,2,2,1-3"), [1, 2, 3, 8]);
    assert_eq!(ok("3-5,4-6,5"), ok("6,5,4,3"));
}

#[test]
fn sweep_ignores_blanks() {
    assert_eq!(ok(" 1 , , 2 - 3 ,"), [1, 2, 3]);
    assert_eq!(ok("\u{2003}7\u{a0}"), [7]);
    assert_eq!(ok("\t2-\n4"), ok("2-4"));
}

#[test]
fn sweep_takes_a_plus_sign() {
    assert_eq!(ok("+5"), [5]);
    assert_eq!(ok("+1-+3"), [1, 2, 3]);
}

#[test]
fn sweep_empty() {
    assert_eq!(err(""), "sweep specification is empty");
    assert_eq!(err(" , ,"), "sweep specification is empty");
    assert!(matches!(read_sweep("").1, Some(SweepError::Empty)));
}

#[test]
fn sweep_zero() {
    assert_eq!(err("0"), "thread counts must be >= 1");
    assert_eq!(err("0-4"), "thread counts must be >= 1");
    assert_eq!(err("4-0"), "thread counts must be >= 1");
    assert!(matches!(read_sweep("0").1, Some(SweepError::ZeroThreads)));
}

#[test]
fn sweep_descending() {
    assert_eq!(err("8-4"), "range 8-4 is descending");
    assert!(matches!(read_sweep("8-4").1, Some(SweepError::Descending(8, 4))));
}

#[test]
fn sweep_bad_range_number() {
    assert_eq!(err("a-4"), "invalid number in range: \"a\"");
    assert_eq!(err("4 - x y"), "invalid number in range: \" x y\"");
    assert_eq!(err("-3"), "invalid number in range: \"\"");
    assert_eq!(err("1--3"), "invalid number in range: \"-3\"");
    assert_eq!(err("\"\t-1"), "invalid number in range: \"\\\"\\t\"");
}

#[test]
fn sweep_bad_thread_count() {
    assert_eq!(err("two"), "invalid thread count: \"two\"");
    assert_eq!(err("1,+"), "invalid thread count: \"+\"");
    assert_eq!(err("18446744073709551616"), "invalid thread count: \"18446744073709551616\"");
    assert_eq!(err("\u{7}"), "invalid thread count: \"\\u{7}\"");
}

#[test]
fn sweep_message_with_a_given_quotation() {
    let e = SweepError::BadThreadCount("x".to_string());
    assert_eq!(e.message_with("<x>"), "invalid thread count: <x>");
    assert_eq!(e.message(), "invalid thread count: \"x\"");
    let e = SweepError::BadRangeNumber("y".to_string());
    assert_eq!(e.message_with("<y>"), "invalid number in range: <y>");
    assert_eq!(SweepError::Empty.message_with("z"), "sweep specification is empty");
}

#[test]
fn sweep_first_fault_decides() {
    assert_eq!(err("1,b,0,9-8"), "invalid thread count: \"b\"");
    assert_eq!(err("1,0,b"), "thread counts must be >= 1");
    assert_eq!(err("9-8,b"), "range 9-8 is descending");
}

#[test]
fn sweep_is_read_up_to_the_first_fault() {
    let (ranges, fault) = read_sweep("7,1-3,,x,9");
    assert_eq!(ranges, [(7, 7), (1, 3)]);
    assert!(matches!(fault, Some(SweepError::BadThreadCount(t)) if t == "x"));
    let (ranges, fault) = read_sweep("7, 1 - 3");
    assert_eq!(ranges, [(7, 7), (1, 3)]);
    assert!(fault.is_none());
}

#[test]
fn sweep_too_long_for_a_vector() {
    assert_eq!(try_parse_sweep("1-18446744073709551615"), None);
    assert_eq!(try_parse_sweep("1-1152921504606846975,7-7"), None);
    assert_eq!(try_parse_sweep("1-18446744073709551615,b"), None);
    assert_eq!(
        try_parse_sweep("b,1-18446744073709551615"),
        Some(Err("invalid thread count: \"b\"".to_string()))
    );
    assert_eq!(try_parse_sweep("2-3"), Some(Ok(vec![2, 3])));
    assert_eq!(try_parse_sweep(""), Some(Err("sweep specification is empty".to_string())));
}

#[test]
fn sweep_agrees_with_the_standard_library() {
    let alphabet = ['1', '0', '9', ',', '-', ' ', '+', 'x', '\u{2028}'];
    let mut word = [0usize; 5];
    loop {
        let text: String = word.iter().map(|&i| alphabet[i]).collect();
        assert_eq!(parse_sweep(&text), reference(&text), "{text:?}");
        let mut i = 0;
        while i < word.len() && word[i] + 1 == alphabet.len() {
            word[i] = 0;
            i += 1;
        }
        if i == word.len() {
            break;
        }
        word[i] += 1;
    }
}

#[test]
fn joined_sweeps_are_the_union() {
    for (a, b, union) in [
        ("1-3", "2,7", vec![1usize, 2, 3, 7]),
        ("9", "8-9, 1", vec![1, 8, 9]),
        ("4,,4", " 4 ", vec![4]),
    ] {
        assert_eq!(parse_sweep(&format!("{a},{b}")), Ok(union.clone()));
        assert_eq!(parse_sweep(&format!("{b},{a}")), Ok(union));
        assert_eq!(parse_sweep(&format!("{a},{a}")), parse_sweep(a));
    }
}
