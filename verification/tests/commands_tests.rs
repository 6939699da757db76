use desense::commands::{api_key_error, chat_messages, column_summaries, desensitize_result, file_info_from_data};
use desense::excel::table_from_rows;
use desense::llm::{build_system_prompt, reply_from_choices};
use desense::report::{diff_window, first_difference, scan_label, test_label};

fn s(v: &[&str]) -> Vec<String> {
    v.iter().map(|x| x.to_string()).collect()
}

#[test]
fn opening_a_file_reports_column_kinds() {
    let d = table_from_rows("S".to_string(), &s(&["姓名", "备注"]), &vec![s(&["张三", "x"])]);
    let info = file_info_from_data(&d);
    assert_eq!(info.sheet_name, "");
    assert_eq!(info.total_rows, 0);
    assert_eq!(info.columns.len(), 2);
    assert_eq!(info.columns[0].name, "姓名");
    assert_eq!(info.columns[0].sensitive_type, "PERSON");
    assert_eq!(info.columns[0].sensitive_label, "人名");
    assert_eq!(info.columns[0].sample_values, s(&["张三"]));
    assert_eq!(info.columns[1].sensitive_type, "");
    assert_eq!(info.columns[1].sensitive_label, "");
    assert_eq!(column_summaries(&d).len(), 2);
}

#[test]
fn masked_table_counts_sensitive_columns() {
    let d = table_from_rows(
        "S".to_string(),
        &s(&["姓名", "电话", "备注"]),
        &vec![s(&["张三", "13800138000", "无"]), s(&["李四", "", "-"])],
    );
    let r = desensitize_result(&d).unwrap();
    assert_eq!(r.headers, s(&["姓名", "电话", "备注"]));
    assert_eq!(r.rows, vec![s(&["张某", "138****00", "无"]), s(&["李某", "", "-"])]);
    assert_eq!(r.matched_count, 2);
    assert_eq!(r.columns[1].sensitive_type, "PHONE");
}

#[test]
fn masked_table_refuses_cells_cut_inside_a_character() {
    let d = table_from_rows("S".to_string(), &s(&["邮箱"]), &vec![s(&["张三@x.cn"])]);
    assert!(desensitize_result(&d).is_none());
    assert!(chat_messages("问", "f.xlsx", &d).is_none());
}

#[test]
fn missing_api_key() {
    assert_eq!(api_key_error("").unwrap(), "请先设置 DeepSeek API Key");
    assert!(api_key_error("sk-1").is_none());
}

#[test]
fn chat_messages_carry_prompt_and_sample() {
    let d = table_from_rows("S".to_string(), &s(&["姓名", "备注"]), &vec![s(&["张三", "x"])]);
    let m = chat_messages("有异常吗", "f.xlsx", &d).unwrap();
    assert_eq!(m.len(), 2);
    assert_eq!(m[0].0, "system");
    assert_eq!(m[0].1, build_system_prompt("文件：f.xlsx\n列数：2\n行数：1", "  - 姓名: 人名 (PERSON)"));
    assert_eq!(m[1].0, "user");
    assert_eq!(m[1].1, "有异常吗\n\n数据样本（脱敏后前10行）：\n姓名=张某, 备注=x");
}

#[test]
fn chat_sample_has_at_most_ten_rows() {
    let raw: Vec<Vec<String>> = (0..12).map(|i| vec![i.to_string()]).collect();
    let d = table_from_rows("S".to_string(), &s(&["n"]), &raw);
    let m = chat_messages("q", "p", &d).unwrap();
    let sample = m[1].1.split("：\n").nth(1).unwrap();
    assert_eq!(sample, "n=0\nn=1\nn=2\nn=3\nn=4\nn=5\nn=6\nn=7\nn=8\nn=9");
    assert!(m[0].1.contains("行数：12"));
}

#[test]
fn system_prompt_layout() {
    let p = build_system_prompt("INFO", "COLS");
    assert!(p.starts_with("你是审计砖家，一个专业的财务数据审计助手。\n\n当前文件信息：\nINFO\n\n敏感字段识别结果：\nCOLS\n\n【重要规则】\n"));
    assert!(p.ends_with("请开始分析。"));
}

#[test]
fn reply_takes_the_first_choice() {
    assert_eq!(reply_from_choices(s(&["a", "b"])).content, "a");
    assert_eq!(reply_from_choices(Vec::new()).content, "");
}

#[test]
fn report_labels() {
    assert_eq!(scan_label("PERSON"), "人名");
    assert_eq!(scan_label("BANK_CARD"), "银行卡号");
    assert_eq!(scan_label("PROJECT"), "项目名");
    assert_eq!(scan_label("PARTNER"), "PARTNER");
    assert_eq!(test_label("PROJECT"), "PROJECT");
    assert_eq!(test_label("IP"), "IP地址");
}

#[test]
fn first_difference_and_window() {
    assert_eq!(first_difference(b"abcdef", b"abcxef"), Some(3));
    assert_eq!(first_difference(b"abc", b"abcdef"), None);
    assert_eq!(first_difference(b"", b"x"), None);
    assert_eq!(diff_window(3, 6), (0, 6));
    assert_eq!(diff_window(25, 100), (5, 55));
    assert_eq!(diff_window(90, 100), (70, 100));
}
