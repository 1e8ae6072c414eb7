use stor_age::spectrum_scale::policy_text;

#[test]
fn policy() {
    let ages = vec![90, 365];

    let result = policy_text(&ages);

    let expected = "
define(access_age, (DAYS(CURRENT_TIMESTAMP) - DAYS(ACCESS_TIME)))
define(modify_age, (DAYS(CURRENT_TIMESTAMP) - DAYS(MODIFICATION_TIME)))

RULE EXTERNAL LIST 'total' EXEC ''

RULE EXTERNAL LIST 'access_90' EXEC ''
RULE EXTERNAL LIST 'modify_90' EXEC ''

RULE EXTERNAL LIST 'access_365' EXEC ''
RULE EXTERNAL LIST 'modify_365' EXEC ''

RULE
  LIST 'total'
  SHOW(VARCHAR(FILE_SIZE))

RULE
  LIST 'access_90'
    SHOW(VARCHAR(FILE_SIZE))
    WHERE (access_age < 90)

RULE
  LIST 'modify_90'
    SHOW(VARCHAR(FILE_SIZE))
    WHERE (modify_age < 90)

RULE
  LIST 'access_365'
    SHOW(VARCHAR(FILE_SIZE))
    WHERE (access_age < 365)

RULE
  LIST 'modify_365'
    SHOW(VARCHAR(FILE_SIZE))
    WHERE (modify_age < 365)
";

    assert_eq!(result, expected);
}

#[test]
fn policy_is_deterministic() {
    let ages = vec![90, 365];

    let first = policy_text(&ages);
    let second = policy_text(&ages);

    assert_eq!(first, second);
}

#[test]
fn policy_single_age_renders_digits() {
    let ages = vec![1230];

    let text = policy_text(&ages);

    assert!(text.contains("RULE EXTERNAL LIST 'access_1230' EXEC ''"));
    assert!(text.contains("WHERE (modify_age < 1230)"));
}
