use cps_server::api::parameter::{form_is_well_formed, get_map_value, Parameter};
use cps_server::api::response::Response;
use cps_server::api::{answer_post, distribute};

const SIGNED_IP_GET: &str = "method=ip.get&timestamp=1&appid=a&sign=e20b2161e931f7ca7986f4c19ffed74e";

#[test]
fn parameters_of_a_form() {
    let p = Parameter::new("method=ip.get&timestamp=123&AppId=abc&sign=xyz&version=1.0&extra=5");
    assert_eq!(p.method, "ip.get");
    assert_eq!(p.timestamp, "123");
    assert_eq!(p.app_id, "abc");
    assert_eq!(p.sign, "xyz");
    assert_eq!(p.version, "1.0");
    let props = p.properties.as_ref().unwrap();
    assert_eq!(props.len(), 2);
    assert_eq!(props.get("AppId"), Some(&"abc".to_string()));
    assert_eq!(props.get("extra"), Some(&"5".to_string()));
    assert_eq!(props.get("method"), None);
}

#[test]
fn lookup_ignores_case() {
    let p = Parameter::new("Method=ip.get&x=1");
    assert_eq!(p.get_value("METHOD"), "ip.get");
    assert_eq!(p.get_value("method"), "ip.get");
    assert_eq!(p.get_value("missing"), "");
    assert_eq!(p.method, "ip.get");
}

#[test]
fn later_pair_wins() {
    let p = Parameter::new("a=1&b=2&a=3");
    assert_eq!(p.get_value("a"), "3");
    assert_eq!(p.origin.get("a"), Some(&"3".to_string()));
}

#[test]
fn later_key_spelling_wins() {
    let p = Parameter::new("Key=1&KEY=2");
    assert_eq!(p.get_value("key"), "2");
    assert_eq!(p.origin.get("Key"), Some(&"1".to_string()));
    assert_eq!(p.keys.get("key"), Some(&"KEY".to_string()));
}

#[test]
fn value_stops_at_second_equals() {
    let p = Parameter::new("a=1=2&b=");
    assert_eq!(p.get_value("a"), "1");
    assert_eq!(p.get_value("b"), "");
}

#[test]
fn missing_fields_are_empty() {
    let p = Parameter::new("x=1");
    assert_eq!(p.method, "");
    assert_eq!(p.sign, "");
}

#[test]
fn well_formed_forms() {
    assert!(form_is_well_formed("a=1&b=2"));
    assert!(form_is_well_formed("a="));
    assert!(!form_is_well_formed(""));
    assert!(!form_is_well_formed("a=1&b"));
    assert!(!form_is_well_formed("a=1&"));
}

#[test]
fn get_map_value_goes_through_lowercase_keys() {
    let p = Parameter::new("Sign=abc");
    assert_eq!(get_map_value(&p.keys, &p.origin, "SIGN"), "abc");
    assert_eq!(get_map_value(&p.keys, &p.origin, "nothing"), "");
}

#[test]
fn signature_checks_out() {
    let p = Parameter::new(SIGNED_IP_GET);
    assert!(p.verify_sign("react_secret"));
    assert!(!p.verify_sign("other"));
}

#[test]
fn signature_with_another_secret() {
    let p = Parameter::new("method=ip.get&timestamp=1&appid=a&sign=3a69a639a708fb4ccb4a60f91cc2955c");
    assert!(p.verify_sign("other"));
    assert!(!p.verify_sign("react_secret"));
}

#[test]
fn signature_order_is_by_lowercase_key() {
    let p = Parameter::new("B=2&a=1&sign=c88320beae696ea620f08d604690a6a1");
    assert!(p.verify_sign("s"));
    let q = Parameter::new("sign=c88320beae696ea620f08d604690a6a1&a=1&B=2");
    assert!(q.verify_sign("s"));
}

#[test]
fn signature_of_no_other_parameters() {
    let p = Parameter::new("sign=c3af1a9fb0aeeeae1c2bb7b0c2033491");
    assert!(p.verify_sign("k"));
}

#[test]
fn wrong_signature_is_refused() {
    let p = Parameter::new("method=ip.get&timestamp=1&appid=a&sign=00000000000000000000000000000000");
    assert!(!p.verify_sign("react_secret"));
    let unsigned = Parameter::new("method=ip.get");
    assert!(!unsigned.verify_sign("react_secret"));
}

#[test]
fn error_response() {
    let r = Response::get_error("bad");
    assert_eq!(r.code, 4001);
    assert_eq!(r.content, "");
    assert_eq!(r.format, "json");
    assert_eq!(r.message, "bad");
    assert!(!r.success);
}

#[test]
fn success_response() {
    let r = Response::get_success("data");
    assert_eq!(r.code, 0);
    assert_eq!(r.content, "data");
    assert_eq!(r.format, "json");
    assert_eq!(r.message, "");
    assert!(r.success);
}

#[test]
fn distribute_known_methods() {
    let r = distribute(Parameter::new("method=ip.get"));
    assert!(r.success);
    assert_eq!(r.content, "ssd");
    let r = distribute(Parameter::new("method=sms.send"));
    assert!(r.success);
    assert_eq!(r.content, "ok");
}

#[test]
fn distribute_unknown_method() {
    let r = distribute(Parameter::new("method=foo"));
    assert!(!r.success);
    assert_eq!(r.code, 4001);
    assert_eq!(r.message, "请求参数错误,未找到foo接口方法。");
}

#[test]
fn post_with_good_signature() {
    let r = answer_post(SIGNED_IP_GET);
    assert!(r.success);
    assert_eq!(r.content, "ssd");
    let r = answer_post("method=sms.send&timestamp=1&appid=a&sign=776bc800af47dea128773c321dc24bd7");
    assert!(r.success);
    assert_eq!(r.content, "ok");
}

#[test]
fn post_of_unknown_method_with_good_signature() {
    let r = answer_post("method=foo&timestamp=1&appid=a&sign=92ad2b022f9d63aae7f442a0a5cd7e0f");
    assert!(!r.success);
    assert_eq!(r.message, "请求参数错误,未找到foo接口方法。");
}

#[test]
fn post_with_bad_signature() {
    let r = answer_post("method=ip.get&timestamp=1&appid=a&sign=bad");
    assert!(!r.success);
    assert_eq!(r.code, 4001);
    assert_eq!(r.message, "签名错误");
}

#[test]
fn missing_sign_never_passes() {
    let p = Parameter::new("method=ip.get&timestamp=1");
    assert!(!p.verify_sign("react_secret"));
}

#[test]
fn short_sign_is_refused_by_post() {
    let r = answer_post("method=ip.get&sign=bad");
    assert_eq!(r.code, 4001);
    assert_eq!(r.content, "");
    assert_eq!(r.format, "json");
    assert_eq!(r.message, "签名错误");
    assert!(!r.success);
}

#[test]
fn reordered_form_gives_same_parameters() {
    let a = Parameter::new("timestamp=1&sign=e20b2161e931f7ca7986f4c19ffed74e&appid=a&method=ip.get");
    let b = Parameter::new(SIGNED_IP_GET);
    assert!(a.verify_sign("react_secret"));
    assert!(b.verify_sign("react_secret"));
    assert_eq!(a.method, b.method);
    assert_eq!(a.get_value("APPID"), b.get_value("appid"));
}

#[test]
fn lookup_finds_last_pair_with_same_lowercase_key() {
    let p = Parameter::new("x=0&Name=1&other=2&NAME=3&name2=4");
    assert_eq!(p.get_value("name"), "3");
    assert_eq!(p.get_value("nAmE"), "3");
    assert_eq!(p.get_value("name2"), "4");
}
