//! Text of a PDF document: what becomes of the extractor's outcome.
//!
//! The extraction itself (`pdf_extract::extract_text_from_mem`) is called by
//! the program around the library: its source panics on some malformed
//! documents, which no precondition here could leave out.
use vstd::prelude::*;
use crate::text::{chars_of, push_all, string_from_chars};

verus! {

/// The message for a failed extraction whose error reads `detail`.
pub open spec fn pdf_failure(detail: Seq<char>) -> Seq<char> {
    "PDF 文本提取失败: "@ + detail
}

/// `pdf_failure(detail)` as a string.
pub fn pdf_failure_message(detail: &str) -> (r: String)
    ensures
        r@ == pdf_failure(detail@),
{
    let mut out = chars_of("PDF 文本提取失败: ");
    let d = chars_of(detail);
    push_all(&mut out, d.as_slice());
    string_from_chars(out.as_slice())
}

/// The text of a PDF document from the extractor's outcome: the extracted text
/// as it is, or, for an error whose text is `detail`, the message
/// `PDF 文本提取失败: <detail>`.
pub fn pdf_text_outcome(extracted: Result<String, String>) -> (r: Result<String, String>)
    ensures
        match extracted {
            Ok(t) => r matches Ok(u) && u@ == t@,
            Err(d) => r matches Err(m) && m@ == pdf_failure(d@),
        },
{
    match extracted {
        Ok(t) => Ok(t),
        Err(d) => Err(pdf_failure_message(d.as_str())),
    }
}

} // verus!
