//! The JSON API: request parameters, answers and dispatch.

pub mod parameter;
pub mod response;

use vstd::prelude::*;
use crate::api::parameter::{
    Parameter, form_well_formed, form_pairs, values_of_pairs, lower_keys_of_pairs, lookup_lower,
    signature_of, signing_text, given_sign, is_hex_digest,
};
use crate::str_map::{sorted_listing, lemma_sorted_listing};
use crate::api::response::{Response, is_success_with, is_error_with};

verus! {

/// The message of the answer to a request for a method that does not exist.
pub open spec fn unknown_method_message(method: Seq<char>) -> Seq<char> {
    "请求参数错误,未找到"@ + method + "接口方法。"@
}

/// Whether `r` is the answer that the API gives to a call of `method`: `ip.get` and
/// `sms.send` succeed, any other method fails naming it.
pub open spec fn answers_method(r: Response, method: Seq<char>) -> bool {
    if method == "ip.get"@ {
        is_success_with(r, "ssd"@)
    } else if method == "sms.send"@ {
        is_success_with(r, "ok"@)
    } else {
        is_error_with(r, unknown_method_message(method))
    }
}

/// Only `ip.get` and `sms.send` are answered with success, `ip.get` with `ssd` and
/// `sms.send` with `ok`; any other method is refused with code 4001 and a message that
/// names it.
pub proof fn law_dispatch(r: Response, method: Seq<char>)
    requires
        answers_method(r, method),
    ensures
        r.success <==> (method == "ip.get"@ || method == "sms.send"@),
        r.success ==> r.code == 0 && r.message@.len() == 0,
        method == "ip.get"@ ==> r.content@ == "ssd"@,
        method == "sms.send"@ ==> r.content@ == "ok"@,
        !r.success ==> r.code == 4001 && r.content@.len() == 0 && r.message@ == "请求参数错误,未找到"@ + method
            + "接口方法。"@,
{
    reveal_strlit("ip.get");
    reveal_strlit("sms.send");
    assert("ip.get"@.len() != "sms.send"@.len());
}

/// Dispatches a request to the method that it names.
pub fn distribute(param: Parameter) -> (r: Response)
    ensures
        answers_method(r, param.method@),
        r.success <==> (param.method@ == "ip.get"@ || param.method@ == "sms.send"@),
        param.method@ != "ip.get"@ && param.method@ != "sms.send"@ ==> r.code == 4001 && r.message@ == "请求参数错误,未找到"@
            + param.method@ + "接口方法。"@,
        param.method@ == "ip.get"@ ==> r.code == 0 && r.content@ == "ssd"@,
        param.method@ == "sms.send"@ ==> r.code == 0 && r.content@ == "ok"@,
{
    proof {
        reveal_strlit("ip.get");
        reveal_strlit("sms.send");
        assert("ip.get"@.len() != "sms.send"@.len());
    }
    if param.method == "ip.get".to_owned() {
        Response::get_success("ssd")
    } else if param.method == "sms.send".to_owned() {
        Response::get_success("ok")
    } else {
        let mut msg = "请求参数错误,未找到".to_owned();
        msg.append(param.method.as_str());
        msg.append("接口方法。");
        Response::get_error(msg.as_str())
    }
}

/// The answer to a POST of the form `body`: when its signature checks out with the
/// secret `react_secret`, the answer of the method it names; otherwise a failure
/// saying that the signature is wrong.
pub fn answer_post(body: &str) -> (r: Response)
    requires
        form_well_formed(body@),
    ensures
        ({
            let pairs = form_pairs(body@);
            let values = values_of_pairs(pairs);
            let keys = lower_keys_of_pairs(pairs);
            let order = sorted_listing(keys);
            &&& if signature_of(signing_text(order, values, "react_secret"@)) == given_sign(order, values) {
                answers_method(r, lookup_lower(keys, values, "method"@))
            } else {
                is_error_with(r, "签名错误"@)
            }
            &&& is_hex_digest(signature_of(signing_text(order, values, "react_secret"@)))
            &&& !is_hex_digest(given_sign(order, values)) ==> is_error_with(r, "签名错误"@)
        }),
{
    let p = Parameter::new(body);
    proof {
        lemma_sorted_listing(p.key_order());
    }
    if p.verify_sign("react_secret") {
        distribute(p)
    } else {
        Response::get_error("签名错误")
    }
}

} // verus!
