//! Kind tables.
use muxxy::kinds::builtin;

#[test]
fn builtin_has_expected_kinds() {
    let kinds = builtin();
    assert_eq!(kinds.get("python").unwrap(), &vec!["^>>> "]);
    assert!(kinds.contains_key("sbcl"));
    assert!(kinds.get("sbcl").unwrap().iter().any(|p| p == r"^ *[0-9]+(\[[0-9]+\]|\]) ?"));
    assert!(kinds.contains_key("lisp"));
    assert!(kinds.contains_key("bash"));
}

#[test]
fn irb_kind_matches_old_and_new_prompt_formats() {
    let kinds = builtin();
    let patterns = kinds.get("irb").unwrap();
    let re = regex::Regex::new(&patterns[0]).unwrap();
    // Ruby 3.
    assert!(re.is_match("irb(main):001> "));
    // Older irb, with one more field.
    assert!(re.is_match("irb(main):001:0> "));
    // A command typed at the prompt.
    assert!(re.is_match("irb(main):001> [1,2].map { |x| x }"));
}
