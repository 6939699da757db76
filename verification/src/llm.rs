//! Prompts for the language model that reviews masked data, and its replies.
use vstd::prelude::*;
use crate::text::{chars_of, push_all, string_from_chars};

verus! {

/// A reply of the model.
#[derive(Debug, Clone)]
pub struct LlmReply {
    pub content: String,
}

/// The opening of the system prompt, up to the file information.
pub open spec fn prompt_head() -> Seq<char> {
    "你是审计砖家，一个专业的财务数据审计助手。\n\n当前文件信息：\n"@
}

/// The text between the file information and the matched columns.
pub open spec fn prompt_middle() -> Seq<char> {
    "\n\n敏感字段识别结果：\n"@
}

/// The rules that close the system prompt.
pub open spec fn prompt_tail() -> Seq<char> {
    "\n\n【重要规则】\n1. 你收到的数据已经过脱敏处理，人名、公司名等已被替换为占位符\n2. 回复中请保持占位符不变，不要尝试猜测原始值\n3. 专注于分析数据层面的异常（金额异常、重复支付、科目不匹配等）\n4. 分析结果要用中文回复，清晰分点说明\n\n请开始分析。"@
}

/// The system prompt for a file: its information and the columns recognised as sensitive.
pub fn build_system_prompt(file_info: &str, matched_columns: &str) -> (r: String)
    ensures
        r@ == prompt_head() + file_info@ + prompt_middle() + matched_columns@ + prompt_tail(),
{
    let mut out: Vec<char> = Vec::new();
    let head = chars_of("你是审计砖家，一个专业的财务数据审计助手。\n\n当前文件信息：\n");
    let info = chars_of(file_info);
    let middle = chars_of("\n\n敏感字段识别结果：\n");
    let matched = chars_of(matched_columns);
    let tail = chars_of(
        "\n\n【重要规则】\n1. 你收到的数据已经过脱敏处理，人名、公司名等已被替换为占位符\n2. 回复中请保持占位符不变，不要尝试猜测原始值\n3. 专注于分析数据层面的异常（金额异常、重复支付、科目不匹配等）\n4. 分析结果要用中文回复，清晰分点说明\n\n请开始分析。",
    );
    push_all(&mut out, head.as_slice());
    push_all(&mut out, info.as_slice());
    push_all(&mut out, middle.as_slice());
    push_all(&mut out, matched.as_slice());
    push_all(&mut out, tail.as_slice());
    string_from_chars(out.as_slice())
}

/// The reply made of the first choice's content, or empty when there is none.
pub fn reply_from_choices(contents: Vec<String>) -> (r: LlmReply)
    ensures
        contents@.len() > 0 ==> r.content == contents@[0],
        contents@.len() == 0 ==> r.content@ == Seq::<char>::empty(),
{
    if contents.len() > 0 {
        LlmReply { content: contents[0].clone() }
    } else {
        LlmReply { content: String::new() }
    }
}

} // verus!
