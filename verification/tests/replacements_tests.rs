use novel_tools::replace::Replacement;
use novel_tools::replacements::replace_string_reporting;
use novel_tools::json::JsonValue;
use novel_tools::replacements::{
    replace_names, replace_string, verify_rules, ReplaceError, Replacements, Rule, RuleError,
};

fn s(x: &str) -> String {
    x.to_string()
}

fn obj(members: Vec<(&str, JsonValue)>) -> JsonValue {
    JsonValue::Object(members.into_iter().map(|(k, v)| (s(k), v)).collect())
}

fn st(x: &str) -> JsonValue {
    JsonValue::Str(s(x))
}

fn arr(xs: &[&str]) -> JsonValue {
    JsonValue::Array(xs.iter().map(|x| st(x)).collect())
}

fn rule(key: &str, split: bool, honorifics: Option<(bool, bool)>) -> Rule {
    Rule { key: s(key), name: s(key), split, honorifics, description: None }
}

fn honorifics() -> Vec<(String, String)> {
    vec![(s("さん"), s("san")), (s("様"), s("sama"))]
}

#[test]
fn json_lookup_and_shapes() {
    let v = obj(vec![("a", st("x")), ("b", arr(&["p", "q"]))]);
    assert!(matches!(v.get("a"), Some(JsonValue::Str(t)) if t == "x"));
    assert!(v.get("c").is_none());
    assert!(st("x").get("a").is_none());
    assert!(v.as_string_dict().is_none());
    assert!(v.as_names_dict().is_none());
    let d = obj(vec![("k", st("v"))]).as_string_dict().unwrap();
    assert_eq!(d, vec![(s("k"), s("v"))]);
    let n = obj(vec![("Taro Yamada", arr(&["山田", "太郎"]))]).as_names_dict().unwrap();
    assert_eq!(n, vec![(s("Taro Yamada"), vec![s("山田"), s("太郎")])]);
    assert!(obj(vec![("k", JsonValue::Number(s("1")))]).as_string_dict().is_none());
    assert!(JsonValue::Null.as_string_dict().is_none());
    assert_eq!(obj(vec![]).as_names_dict().unwrap(), vec![]);
}

#[test]
fn rules_that_split_plain_dictionaries_are_refused() {
    let rep = Replacements {
        rules: vec![rule("places", true, None)],
        honorifics: honorifics(),
        contents: obj(vec![("places", obj(vec![]))]),
    };
    match verify_rules(&rep) {
        Err(RuleError::SplitNonName { key }) => assert_eq!(key, "places"),
        other => panic!("unexpected {:?}", other),
    }
}

#[test]
fn rules_must_name_a_member() {
    let rep = Replacements {
        rules: vec![rule("places", false, None), rule("people", false, Some((false, false)))],
        honorifics: honorifics(),
        contents: obj(vec![("places", obj(vec![]))]),
    };
    match verify_rules(&rep) {
        Err(RuleError::MissingKey { key }) => assert_eq!(key, "people"),
        other => panic!("unexpected {:?}", other),
    }
    let rep = Replacements { rules: vec![rule("x", false, None)], honorifics: vec![], contents: st("x") };
    assert!(matches!(verify_rules(&rep), Err(RuleError::MissingKey { .. })));
}

#[test]
fn good_rules_pass() {
    let rep = Replacements {
        rules: vec![rule("places", false, None), rule("people", true, Some((false, false)))],
        honorifics: honorifics(),
        contents: obj(vec![("places", obj(vec![])), ("people", obj(vec![]))]),
    };
    assert!(verify_rules(&rep).is_ok());
}

#[test]
fn plain_dictionary_rule() {
    let rep = Replacements {
        rules: vec![rule("places", false, None)],
        honorifics: honorifics(),
        contents: obj(vec![("places", obj(vec![("東京", st("Tokyo")), ("京都", st("Kyoto"))]))]),
    };
    assert_eq!(replace_string(&rep, s("東京と京都"), 0).unwrap(), "TokyoとKyoto");
}

#[test]
fn honorific_rule_without_split() {
    // The dictionary maps the English name to the Japanese one.
    let contents = obj(vec![("people", obj(vec![("Hana", st("花"))]))]);
    let rep = Replacements {
        rules: vec![rule("people", false, Some((true, false)))],
        honorifics: honorifics(),
        contents: obj(vec![("people", obj(vec![("Hana", st("花"))]))]),
    };
    assert_eq!(replace_string(&rep, s("花さん、花様、花、Hana"), 0).unwrap(), "Hana-san、Hana-sama、花、Hana");
    let rep = Replacements { rules: vec![rule("people", false, Some((false, false)))], honorifics: honorifics(), contents };
    assert_eq!(replace_string(&rep, s("花さん、Hana"), 0).unwrap(), "花-san、花");
}

#[test]
fn split_name_rule() {
    let dict = vec![(s("Taro Yamada"), vec![s("山田"), s("太郎")])];
    let text = s("山田太郎さん。山田・太郎。山田太郎。太郎様。山田。太郎。");
    let out = replace_names(text.clone(), &dict, &honorifics(), false, false, 0).unwrap();
    assert_eq!(out, "Taro Yamada-san。Taro Yamada。Taro Yamada。Yamada-sama。Taro。Yamada。");
    // Given names kept alone: the first part stays when it stands alone.
    let out = replace_names(text.clone(), &dict, &honorifics(), true, false, 0).unwrap();
    assert_eq!(out, "Taro Yamada-san。Taro Yamada。Taro Yamada。Yamada-sama。山田。Yamada。");
    // Parts of at most six bytes (two kana) are not replaced alone.
    let out = replace_names(text, &dict, &honorifics(), false, false, 6).unwrap();
    assert_eq!(out, "Taro Yamada-san。Taro Yamada。Taro Yamada。Yamada-sama。山田。太郎。");
}

#[test]
fn split_name_parts_must_pair_up() {
    let dict = vec![(s("Taro"), vec![s("山田"), s("太郎")])];
    match replace_names(s("山田太郎"), &dict, &honorifics(), false, false, 0) {
        Err(ReplaceError::NameLengthMismatch { en_names, jp_names }) => {
            assert_eq!(en_names, vec![s("Taro")]);
            assert_eq!(jp_names, vec![s("山田"), s("太郎")]);
        }
        other => panic!("unexpected {:?}", other),
    }
}

#[test]
fn rule_with_wrong_shape_fails() {
    let rep = Replacements {
        rules: vec![rule("people", true, Some((false, false)))],
        honorifics: honorifics(),
        contents: obj(vec![("people", obj(vec![("Hana", st("花"))]))]),
    };
    match replace_string(&rep, s("花"), 0) {
        Err(ReplaceError::InvalidJson { key }) => assert_eq!(key, "people"),
        other => panic!("unexpected {:?}", other),
    }
}

#[test]
fn rules_apply_in_order() {
    let rep = Replacements {
        rules: vec![rule("a", false, None), rule("b", false, None)],
        honorifics: vec![],
        contents: obj(vec![("a", obj(vec![("x", st("y"))])), ("b", obj(vec![("y", st("z"))]))]),
    };
    assert_eq!(replace_string(&rep, s("xy"), 0).unwrap(), "zz");
}

#[test]
fn honorific_entries_with_the_same_key_keep_the_last() {
    let rep = Replacements {
        rules: vec![rule("people", false, Some((true, true)))],
        honorifics: vec![(s("さん"), s("san"))],
        contents: obj(vec![("people", obj(vec![("Ann", st("花")), ("Hana", st("花"))]))]),
    };
    assert_eq!(replace_string(&rep, s("花さん"), 0).unwrap(), "Hana-san");
}

#[test]
fn report_has_one_group_per_applied_rule() {
    let rep = Replacements {
        rules: vec![rule("a", false, None), rule("bad", true, Some((false, false))), rule("b", false, None)],
        honorifics: vec![],
        contents: obj(vec![
            ("a", obj(vec![("x", st("y")), ("q", st("r"))])),
            ("bad", obj(vec![("Taro", arr(&["山田", "太郎"]))])),
            ("b", obj(vec![("y", st("z"))])),
        ]),
    };
    let (result, groups) = replace_string_reporting(&rep, s("xxy"), 0);
    assert!(matches!(result, Err(ReplaceError::NameLengthMismatch { .. })));
    assert_eq!(groups.len(), 2);
    assert_eq!(groups[0], vec![Replacement { find: s("x"), replace: s("y"), count: 2 }]);
    assert!(groups[1].is_empty());
}

#[test]
fn failed_name_rule_reports_the_steps_it_applied() {
    let rep = Replacements {
        rules: vec![rule("people", true, Some((true, true)))],
        honorifics: vec![],
        contents: obj(vec![("people", obj(vec![("A B", arr(&["甲", "乙"])), ("C", arr(&["丙", "丁"]))]))]),
    };
    let (result, groups) = replace_string_reporting(&rep, s("甲乙"), 0);
    assert!(matches!(result, Err(ReplaceError::NameLengthMismatch { .. })));
    assert_eq!(groups, vec![vec![Replacement { find: s("甲乙"), replace: s("A B"), count: 1 }]]);
}

#[test]
fn rules_in_two_parts() {
    let contents = obj(vec![("a", obj(vec![("x", st("y"))])), ("b", obj(vec![("y", st("z"))]))]);
    let whole = Replacements {
        rules: vec![rule("a", false, None), rule("b", false, None)],
        honorifics: vec![],
        contents: obj(vec![("a", obj(vec![("x", st("y"))])), ("b", obj(vec![("y", st("z"))]))]),
    };
    let first = Replacements {
        rules: vec![rule("a", false, None)],
        honorifics: vec![],
        contents: obj(vec![("a", obj(vec![("x", st("y"))])), ("b", obj(vec![("y", st("z"))]))]),
    };
    let second = Replacements { rules: vec![rule("b", false, None)], honorifics: vec![], contents };
    let middle = replace_string(&first, s("xy"), 0).unwrap();
    assert_eq!(replace_string(&second, middle, 0).unwrap(), replace_string(&whole, s("xy"), 0).unwrap());
}
