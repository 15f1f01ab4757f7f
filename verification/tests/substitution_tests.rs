use kickoff::substitutions::fs::{current_dir, current_exe};
use kickoff::substitutions::{apply, Substitution};

fn apply_str(input: &str, subs: &[Substitution]) -> String {
    String::from_utf8(apply(input.as_bytes(), subs)).unwrap()
}

#[test]
fn apply_when_input_not_utf8_then_noop() {
    let input = vec![0xC3, 0x28]; // Invalid UTF-8 sequence.
    let subs = vec![Substitution { token: b"x".to_vec(), value: Vec::new() }];

    assert_eq!(apply(&input, &subs), input);
}

#[test]
fn apply_when_substitutions_not_match_then_noop() {
    let input = "some {var} input";

    let subs = vec![
        Substitution {
            token: b"non-matching-one".to_vec(),
            value: b"interpolated".to_vec(),
        },
        Substitution {
            token: b"non-matching-two".to_vec(),
            value: b"interpolated".to_vec(),
        },
    ];

    assert_eq!(apply_str(input, &subs), "some {var} input")
}

#[test]
fn apply_when_substitutions_match_then_substitutes() {
    let input = "both {some} and {other} are interpolated";

    let subs = vec![
        Substitution { token: b"{some}".to_vec(), value: b"first-value".to_vec() },
        Substitution { token: b"{other}".to_vec(), value: b"second-value".to_vec() },
        Substitution {
            token: b"{non-matching}".to_vec(),
            value: b"third-value".to_vec(),
        },
    ];

    assert_eq!(
        apply_str(input, &subs),
        "both first-value and second-value are interpolated"
    )
}

#[test]
fn current_exe_when_input_contains_pattern_then_substitutes() {
    let path = "/some/path";

    assert_eq!(
        apply_str("{kickoff.self.path}", &[current_exe(path)]),
        "/some/path"
    );

    assert_eq!(
        apply_str("the path is {kickoff.self.path}", &[current_exe(path)]),
        "the path is /some/path"
    );

    assert_eq!(
        apply_str("{do.not.match} {kickoff.self.path}", &[current_exe(path)]),
        "{do.not.match} /some/path"
    );

    assert_eq!(
        apply_str(
            "one: {kickoff.self.path} two: {kickoff.self.path}",
            &[current_exe(path)]
        ),
        "one: /some/path two: /some/path"
    )
}

#[test]
fn current_exe_when_input_not_contains_pattern_then_noop() {
    let path = "/some/path";

    assert_eq!(
        apply_str("does not contain pattern", &[current_exe(path)]),
        "does not contain pattern"
    );
    assert_eq!(apply_str("{do.not.match}", &[current_exe(path)]), "{do.not.match}");
}

#[test]
fn current_dir_when_input_contains_pattern_then_substitutes() {
    let path = "/some/path";

    assert_eq!(
        apply_str("{kickoff.self.dir}", &[current_dir(path)]),
        "/some/path"
    );

    assert_eq!(
        apply_str("the path is {kickoff.self.dir}", &[current_dir(path)]),
        "the path is /some/path"
    );

    assert_eq!(
        apply_str("{do.not.match} {kickoff.self.dir}", &[current_dir(path)]),
        "{do.not.match} /some/path"
    );

    assert_eq!(
        apply_str(
            "one: {kickoff.self.dir} two: {kickoff.self.dir}",
            &[current_dir(path)]
        ),
        "one: /some/path two: /some/path"
    )
}

#[test]
fn current_dir_when_input_not_contains_pattern_then_noop() {
    let path = "/some/path";

    assert_eq!(
        apply_str("does not contain pattern", &[current_dir(path)]),
        "does not contain pattern"
    );
    assert_eq!(apply_str("{do.not.match}", &[current_dir(path)]), "{do.not.match}");
}

#[test]
fn apply_replaces_overlapping_candidates_left_to_right() {
    let subs = vec![Substitution { token: b"aa".to_vec(), value: b"b".to_vec() }];
    assert_eq!(apply_str("aaa", &subs), "ba");
}
