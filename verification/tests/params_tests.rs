use mesh_analytics::params::{ParamValue, Params, str_eq};

#[test]
fn get_after_add_returns_the_value() {
    let mut bag = Params::new();
    bag.add_param(String::from("T"), ParamValue::UInt(5));
    assert_eq!(bag.get_u64("T"), Some(&5));
}

#[test]
fn get_with_mismatched_shape_is_absent_though_key_exists() {
    let mut bag = Params::new();
    bag.add_param(String::from("T"), ParamValue::UInt(5));
    assert!(bag.get("T").is_some());
    assert_eq!(bag.get_bool("T"), None);
    assert_eq!(bag.get_i64("T"), None);
    assert!(bag.get_text("T").is_none());
}

#[test]
fn get_missing_key_is_absent() {
    let bag = Params::new();
    assert!(bag.get("missing").is_none());
    assert_eq!(bag.get_u64("missing"), None);
}

#[test]
fn add_overwrites_prior_value() {
    let mut bag = Params::new();
    bag.add_param(String::from("T"), ParamValue::UInt(5));
    bag.add_param(String::from("T"), ParamValue::UInt(9));
    assert_eq!(bag.get_u64("T"), Some(&9));
}

#[test]
fn add_changing_shape_overwrites_too() {
    let mut bag = Params::new();
    bag.add_param(String::from("mode"), ParamValue::UInt(1));
    bag.add_param(String::from("mode"), ParamValue::Bool(true));
    assert_eq!(bag.get_u64("mode"), None);
    assert_eq!(bag.get_bool("mode"), Some(&true));
}

#[test]
fn distinct_keys_live_side_by_side() {
    let mut bag = Params::new();
    bag.add_param(String::from("T"), ParamValue::UInt(3));
    bag.add_param(String::from("offset"), ParamValue::Int(-4));
    bag.add_param(String::from("label"), ParamValue::Text(String::from("alpha")));
    assert_eq!(bag.get_u64("T"), Some(&3));
    assert_eq!(bag.get_i64("offset"), Some(&-4));
    assert_eq!(bag.get_text("label"), Some(&String::from("alpha")));
}

#[test]
fn str_eq_compares_by_characters() {
    assert!(str_eq("alpha", "alpha"));
    assert!(!str_eq("alpha", "alphas"));
    assert!(!str_eq("alpha", "beta"));
    assert!(str_eq("", ""));
}
