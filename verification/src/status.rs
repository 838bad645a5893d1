//! What is reported to the host: failure texts that a C string can hold.

use vstd::prelude::*;
use vstd::string::StringExecFns;

use crate::text::{char_list, join3};

verus! {

/// The text, or the substitute where the text cannot be a C string.
pub open spec fn reported(text: Seq<char>, substitute: Seq<char>) -> Seq<char> {
    if text.contains('\0') {
        substitute
    } else {
        text
    }
}

/// Picks the text that is reported.
pub fn report_text(text: &str, substitute: &str) -> (report: String)
    ensures
        report@ == reported(text@, substitute@),
        text@.contains('\0') ==> report@ == substitute@,
        !text@.contains('\0') ==> report@ == text@,
{
    let chars: Vec<char> = char_list(text);
    let mut at: usize = 0;
    while at < chars.len()
        invariant
            at <= chars@.len(),
            chars@ == text@,
            forall|i: int| 0 <= i < at ==> chars@[i] != '\0',
        decreases chars@.len() - at,
    {
        if chars[at] == '\0' {
            assert(text@[at as int] == '\0');
            return substitute.to_owned();
        }
        at = at + 1;
    }
    text.to_owned()
}

/// What a caught panic said.
pub open spec fn panic_detail(payload: Option<Seq<char>>) -> Seq<char> {
    match payload {
        Some(text) => text,
        None => "unrecoverable panic (non-string payload)"@,
    }
}

/// What a caught panic said; `None` is a payload that is no text.
pub fn panic_payload_message(payload: Option<&str>) -> (detail: String)
    ensures
        detail@ == panic_detail(
            match payload {
                Some(text) => Some(text@),
                None => None,
            },
        ),
        payload matches Some(text) ==> detail@ == text@,
        payload is None ==> detail@ == "unrecoverable panic (non-string payload)"@,
{
    match payload {
        Some(text) => text.to_owned(),
        None => "unrecoverable panic (non-string payload)".to_owned(),
    }
}

/// The line that is logged of a caught panic.
pub fn panic_log(what: &str, detail: &str) -> (line: String)
    ensures
        line@ == "caught a panic in "@ + what@ + ": "@ + detail@
            + " — returning EP_FAIL; ORT will fall back to the CPU EP (host process protected)."@,
{
    let mut line: String = join3("caught a panic in ", what, ": ");
    line.append(detail);
    line.append(
        " — returning EP_FAIL; ORT will fall back to the CPU EP (host process protected).",
    );
    line
}

/// The failure that the host gets for a caught panic.
pub fn panic_status(what: &str, detail: &str) -> (report: String)
    ensures
        report@ == reported(
            "onnxruntime-mlx: recovered from a panic in "@ + what@ + ": "@ + detail@
                + " (host protected); the operation failed"@,
            "onnxruntime-mlx: recovered from a panic"@,
        ),
{
    let mut text: String = join3("onnxruntime-mlx: recovered from a panic in ", what, ": ");
    text.append(detail);
    text.append(" (host protected); the operation failed");
    report_text(text.as_str(), "onnxruntime-mlx: recovered from a panic")
}

/// Why no factory is made, if it is not: the host is too old, or has no room for one.
pub fn factory_refusal(api_found: bool, max_factories: usize) -> (refusal: Option<&'static str>)
    ensures
        match refusal {
            Some(text) => text@ == (if !api_found {
                "MLXExecutionProvider requires ONNX Runtime with ORT_API_VERSION >= 29"@
            } else {
                "MLXExecutionProvider needs room for one OrtEpFactory"@
            }),
            None => true,
        },
        refusal is None <==> api_found && max_factories >= 1,
{
    if !api_found {
        return Some("MLXExecutionProvider requires ONNX Runtime with ORT_API_VERSION >= 29");
    }
    if max_factories < 1 {
        return Some("MLXExecutionProvider needs room for one OrtEpFactory");
    }
    None
}

/// A text without that character is reported as it is; any other is replaced.
pub proof fn law_report_keeps_text(text: Seq<char>, substitute: Seq<char>)
    ensures
        (forall|i: int| 0 <= i < text.len() ==> #[trigger] text[i] != '\0') ==> reported(
            text,
            substitute,
        ) == text,
        forall|i: int|
            0 <= i < text.len() && #[trigger] text[i] == '\0' ==> reported(text, substitute)
                == substitute,
{
}

/// A report never holds the character that ends a C string, if the substitute does not.
pub proof fn law_report_is_c_text(text: Seq<char>, substitute: Seq<char>)
    requires
        !substitute.contains('\0'),
    ensures
        !reported(text, substitute).contains('\0'),
{
}

} // verus!
