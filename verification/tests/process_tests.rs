use kickoff::process::{merge_argv, merge_env};

#[test]
fn merge_argv_appends_caller_args_after_manifest_argv() {
    let manifest_argv = vec![String::from("foo"), String::from("bar")];
    let caller_args = vec![String::from("baz")];

    let merged = merge_argv(manifest_argv, caller_args);
    assert_eq!(
        merged,
        vec![String::from("foo"), String::from("bar"), String::from("baz")]
    );
}

#[test]
fn merge_env_manifest_value_wins_over_inherited() {
    let base = vec![(String::from("SOME_KEY"), String::from("old"))];
    let overrides = vec![(String::from("SOME_KEY"), String::from("some-value"))];

    let merged = merge_env(base, overrides);
    assert_eq!(
        merged,
        vec![(String::from("SOME_KEY"), String::from("some-value"))]
    );
}

#[test]
fn merge_env_keeps_inherited_and_adds_new_variables() {
    let base = vec![
        (String::from("HOME"), String::from("/home/u")),
        (String::from("SOME_KEY"), String::from("old")),
    ];
    let overrides = vec![
        (String::from("SOME_KEY"), String::from("some-value")),
        (String::from("EXTRA"), String::from("added")),
    ];

    let merged = merge_env(base, overrides);
    assert_eq!(
        merged,
        vec![
            (String::from("HOME"), String::from("/home/u")),
            (String::from("SOME_KEY"), String::from("some-value")),
            (String::from("EXTRA"), String::from("added")),
        ]
    );
}
