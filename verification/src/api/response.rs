//! The body of an answer of the JSON API.

use vstd::prelude::*;

verus! {

/// An answer of the JSON API: a result code, the content, its format, a message,
/// and whether the call succeeded.
pub struct Response {
    pub code: i32,
    pub content: String,
    pub format: String,
    pub message: String,
    pub success: bool,
}

/// Whether `r` is the successful answer carrying `content`.
pub open spec fn is_success_with(r: Response, content: Seq<char>) -> bool {
    &&& r.code == 0
    &&& r.content@ == content
    &&& r.format@ == "json"@
    &&& r.message@ == Seq::<char>::empty()
    &&& r.success
}

/// Whether `r` is the failed answer carrying the message `msg`.
pub open spec fn is_error_with(r: Response, msg: Seq<char>) -> bool {
    &&& r.code == 4001
    &&& r.content@ == Seq::<char>::empty()
    &&& r.format@ == "json"@
    &&& r.message@ == msg
    &&& !r.success
}

impl Response {
    /// A failed answer carrying `msg`: code 4001, no content, JSON format.
    pub fn get_error(msg: &str) -> (r: Self)
        ensures
            is_error_with(r, msg@),
            r.code == 4001,
            r.content@.len() == 0,
            r.format@ == "json"@,
            r.message@ == msg@,
            !r.success,
    {
        Response {
            code: 4001,
            content: String::new(),
            format: "json".to_owned(),
            message: msg.to_owned(),
            success: false,
        }
    }

    /// A successful answer carrying `content`: code 0, JSON format, no message.
    pub fn get_success(content: &str) -> (r: Self)
        ensures
            is_success_with(r, content@),
            r.code == 0,
            r.content@ == content@,
            r.format@ == "json"@,
            r.message@.len() == 0,
            r.success,
    {
        Response {
            code: 0,
            content: content.to_owned(),
            format: "json".to_owned(),
            message: String::new(),
            success: true,
        }
    }
}

} // verus!
