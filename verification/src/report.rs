//! What the command line shows of a masking run: a readable name for each
//! placeholder kind, and where a restored text first differs from the original.
use vstd::prelude::*;
use crate::text::{chars_of, chars_eq};

verus! {

/// The readable name of a placeholder kind in a scan report; a kind without one
/// is shown as it is.
pub open spec fn scan_kind_label(kind: Seq<char>) -> Seq<char> {
    if kind == "PERSON"@ {
        "人名"@
    } else if kind == "ORG"@ {
        "公司/组织"@
    } else if kind == "PHONE"@ {
        "手机号"@
    } else if kind == "ID_CARD"@ {
        "身份证号"@
    } else if kind == "BANK_CARD"@ {
        "银行卡号"@
    } else if kind == "EMAIL"@ {
        "邮箱"@
    } else if kind == "ADDR"@ {
        "地址"@
    } else if kind == "URL"@ {
        "URL"@
    } else if kind == "IP"@ {
        "IP地址"@
    } else if kind == "MONEY"@ {
        "金额"@
    } else if kind == "PROJECT"@ {
        "项目名"@
    } else {
        kind
    }
}

/// The readable name of a placeholder kind in the self-test report: as in a scan
/// report, except that `PROJECT` is shown as it is.
pub open spec fn test_kind_label(kind: Seq<char>) -> Seq<char> {
    if kind == "PROJECT"@ {
        kind
    } else {
        scan_kind_label(kind)
    }
}

/// Whether the string `s` is the text `lit`.
fn is_text(s: &[char], lit: &str) -> (r: bool)
    ensures
        r == (s@ == lit@),
{
    let l = chars_of(lit);
    chars_eq(s, l.as_slice())
}

/// `scan_kind_label(kind)`.
pub fn scan_label(kind: &str) -> (r: String)
    ensures
        r@ == scan_kind_label(kind@),
{
    let k = chars_of(kind);
    let s = k.as_slice();
    if is_text(s, "PERSON") {
        "人名".to_owned()
    } else if is_text(s, "ORG") {
        "公司/组织".to_owned()
    } else if is_text(s, "PHONE") {
        "手机号".to_owned()
    } else if is_text(s, "ID_CARD") {
        "身份证号".to_owned()
    } else if is_text(s, "BANK_CARD") {
        "银行卡号".to_owned()
    } else if is_text(s, "EMAIL") {
        "邮箱".to_owned()
    } else if is_text(s, "ADDR") {
        "地址".to_owned()
    } else if is_text(s, "URL") {
        "URL".to_owned()
    } else if is_text(s, "IP") {
        "IP地址".to_owned()
    } else if is_text(s, "MONEY") {
        "金额".to_owned()
    } else if is_text(s, "PROJECT") {
        "项目名".to_owned()
    } else {
        kind.to_owned()
    }
}

/// `test_kind_label(kind)`.
pub fn test_label(kind: &str) -> (r: String)
    ensures
        r@ == test_kind_label(kind@),
{
    let k = chars_of(kind);
    if is_text(k.as_slice(), "PROJECT") {
        kind.to_owned()
    } else {
        scan_label(kind)
    }
}

/// The first index below both lengths at which `a` and `b` differ, if any.
pub fn first_difference(a: &[u8], b: &[u8]) -> (r: Option<usize>)
    ensures
        r matches Some(i) ==> {
            &&& i < a@.len()
            &&& i < b@.len()
            &&& a@[i as int] != b@[i as int]
            &&& forall|k: int| 0 <= k < i ==> a@[k] == b@[k]
        },
        r is None ==> forall|k: int| 0 <= k < a@.len() && k < b@.len() ==> a@[k] == b@[k],
{
    let n = if a.len() < b.len() {
        a.len()
    } else {
        b.len()
    };
    let mut i: usize = 0;
    while i < n
        invariant
            i <= n,
            n <= a@.len(),
            n <= b@.len(),
            n == a@.len() || n == b@.len(),
            forall|k: int| 0 <= k < i ==> a@[k] == b@[k],
        decreases n - i,
    {
        if a[i] != b[i] {
            return Some(i);
        }
        i += 1;
    }
    None
}

/// The byte range shown around a difference at `i` in texts of common length
/// `len`: from twenty bytes before it (or the start) to thirty after it (or `len`).
pub fn diff_window(i: usize, len: usize) -> (r: (usize, usize))
    requires
        i < len,
    ensures
        r.0 == (if i > 20 { i - 20 } else { 0 }),
        r.1 == (if i + 30 < len { i + 30 } else { len as int }),
{
    let start = if i > 20 {
        i - 20
    } else {
        0
    };
    let end = if len - i > 30 {
        i + 30
    } else {
        len
    };
    (start, end)
}

} // verus!
