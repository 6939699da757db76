use desense::column_matcher::{
    desensitize_data, desensitize_value, match_columns, try_desensitize_data, value_is_supported,
    ColumnSensitiveType,
};
use desense::excel::{excel_file_format, table_from_rows, table_from_sheet, ColumnInfo};
use desense::input::SheetFormat;

fn s(v: &[&str]) -> Vec<String> {
    v.iter().map(|x| x.to_string()).collect()
}

fn col(name: &str) -> ColumnInfo {
    ColumnInfo { name: name.to_string(), sample_values: Vec::new() }
}

#[test]
fn column_prefixes_and_labels() {
    assert_eq!(ColumnSensitiveType::Company.prefix(), "COMPANY");
    assert_eq!(ColumnSensitiveType::BankCard.prefix(), "BANK_CARD");
    assert_eq!(ColumnSensitiveType::Other.prefix(), "");
    assert_eq!(ColumnSensitiveType::Phone.label(), "手机/电话");
    assert_eq!(ColumnSensitiveType::Project.label(), "项目");
    assert_eq!(ColumnSensitiveType::Other.label(), "");
}

#[test]
fn columns_are_matched_by_name() {
    let columns = vec![
        col("客户姓名"),
        col("Phone Number"),
        col("部门"),
        col("备注"),
        col("合同金额"),
        col("NAME"),
        col("开户行"),
        col("回单时间"),
    ];
    let m = match_columns(&columns);
    let kinds: Vec<ColumnSensitiveType> = m.iter().map(|c| c.sensitive_type).collect();
    assert_eq!(
        kinds,
        vec![
            ColumnSensitiveType::Person,
            ColumnSensitiveType::Phone,
            ColumnSensitiveType::Company,
            ColumnSensitiveType::Other,
            ColumnSensitiveType::Money,
            ColumnSensitiveType::Person,
            ColumnSensitiveType::BankCard,
            ColumnSensitiveType::Date,
        ]
    );
    assert_eq!(m[0].column_name, "客户姓名");
}

#[test]
fn matched_columns_keep_samples() {
    let columns = vec![ColumnInfo { name: "电话".to_string(), sample_values: s(&["13800138000"]) }];
    let m = match_columns(&columns);
    assert_eq!(m[0].sample_values, s(&["13800138000"]));
}

#[test]
fn person_values() {
    assert_eq!(desensitize_value("张三", &ColumnSensitiveType::Person), "张某");
    assert_eq!(desensitize_value("欧阳修文", &ColumnSensitiveType::Person), "欧某");
    assert_eq!(desensitize_value("王", &ColumnSensitiveType::Person), "某");
    assert_eq!(desensitize_value("  ", &ColumnSensitiveType::Person), "  ");
}

#[test]
fn company_values() {
    assert_eq!(desensitize_value("深圳华为技术", &ColumnSensitiveType::Company), "深圳**");
    assert_eq!(desensitize_value("AB", &ColumnSensitiveType::Company), "A**");
    assert_eq!(desensitize_value("X", &ColumnSensitiveType::Company), "**");
    assert_eq!(desensitize_value("AB公司", &ColumnSensitiveType::Company), "AB**");
    assert_eq!(desensitize_value("ABé公", &ColumnSensitiveType::Company), "AB**");
    assert_eq!(desensitize_value(" 华为技术有限公司 ", &ColumnSensitiveType::Company), "华为**");
}

#[test]
fn phone_values() {
    assert_eq!(desensitize_value("138-0013-8000", &ColumnSensitiveType::Phone), "138****00");
    assert_eq!(desensitize_value("12345", &ColumnSensitiveType::Phone), "123****");
    assert_eq!(desensitize_value("12", &ColumnSensitiveType::Phone), "****");
}

#[test]
fn id_and_bank_values() {
    assert_eq!(
        desensitize_value("110101199003074477", &ColumnSensitiveType::IdCard),
        "110101********4477"
    );
    assert_eq!(desensitize_value("123", &ColumnSensitiveType::IdCard), "********");
    assert_eq!(
        desensitize_value("6222021234567890123", &ColumnSensitiveType::BankCard),
        "6222****0123"
    );
    assert_eq!(desensitize_value("1234", &ColumnSensitiveType::BankCard), "********");
}

#[test]
fn email_values() {
    assert_eq!(desensitize_value("zhangsan@test.com", &ColumnSensitiveType::Email), "z***@test.com");
    assert_eq!(desensitize_value("ab@x.cn", &ColumnSensitiveType::Email), "***@x.cn");
    assert_eq!(desensitize_value("none", &ColumnSensitiveType::Email), "***");
}

#[test]
fn address_region_and_department_values() {
    assert_eq!(
        desensitize_value("北京市海淀区中关村", &ColumnSensitiveType::Address),
        "北京市海淀区****"
    );
    assert_eq!(desensitize_value("北京", &ColumnSensitiveType::Address), "****");
    assert_eq!(desensitize_value("河北省石家庄市", &ColumnSensitiveType::Region), "某地区");
    assert_eq!(desensitize_value("河北", &ColumnSensitiveType::Region), "某地区");
    assert_eq!(desensitize_value("财政局", &ColumnSensitiveType::GovDept), "某部门");
}

#[test]
fn values_kept_as_they_are() {
    assert_eq!(desensitize_value("5,000.00", &ColumnSensitiveType::Money), "5,000.00");
    assert_eq!(desensitize_value("2024-01-01", &ColumnSensitiveType::Date), "2024-01-01");
    assert_eq!(desensitize_value("宙斯计划", &ColumnSensitiveType::Project), "宙斯计划");
    assert_eq!(desensitize_value("x", &ColumnSensitiveType::Other), "x");
    assert_eq!(desensitize_value("-", &ColumnSensitiveType::Person), "-");
    assert_eq!(desensitize_value("", &ColumnSensitiveType::Phone), "");
}

#[test]
fn unsupported_values_are_reported() {
    assert!(value_is_supported("张三", &ColumnSensitiveType::Person));
    assert!(value_is_supported("深圳华为技术", &ColumnSensitiveType::Company));
    assert!(!value_is_supported("张三@x.cn", &ColumnSensitiveType::Email));
    assert!(!value_is_supported("身份证号码一二三四", &ColumnSensitiveType::IdCard));
    assert!(value_is_supported("A深圳华为", &ColumnSensitiveType::Company));
}

#[test]
fn data_is_masked_by_column() {
    let columns = vec![col("姓名"), col("电话"), col("金额")];
    let rows = vec![s(&["张三", "13800138000", "100", "extra"]), s(&["李四"])];
    let (masked, matched) = desensitize_data(&columns, &rows);
    assert_eq!(matched.len(), 3);
    assert_eq!(masked[0], s(&["张某", "138****00", "100", "extra"]));
    assert_eq!(masked[1], s(&["李某"]));
}

#[test]
fn try_desensitize_refuses_cells_cut_inside_a_character() {
    let columns = vec![col("邮箱")];
    assert!(try_desensitize_data(&columns, &[s(&["张三@x.cn"])]).is_none());
    let ok = try_desensitize_data(&columns, &[s(&["zhangsan@x.cn"])]).unwrap();
    assert_eq!(ok.0[0], s(&["z***@x.cn"]));
}

#[test]
fn table_rows_are_padded_and_sampled() {
    let headers = s(&["a", "b"]);
    let raw = vec![s(&["1"]), s(&["", "2", "3"]), s(&["4", "5"])];
    let d = table_from_rows("S".to_string(), &headers, &raw);
    assert_eq!(d.sheet_name, "S");
    assert_eq!(d.total_rows, 3);
    assert_eq!(d.rows, vec![s(&["1", ""]), s(&["", "2"]), s(&["4", "5"])]);
    assert_eq!(d.columns[0].name, "a");
    assert_eq!(d.columns[0].sample_values, s(&["1", "4"]));
    assert_eq!(d.columns[1].sample_values, s(&["2", "5"]));
}

#[test]
fn at_most_five_samples() {
    let headers = s(&["n"]);
    let raw: Vec<Vec<String>> = (1..=8).map(|i| vec![i.to_string()]).collect();
    let d = table_from_rows("S".to_string(), &headers, &raw);
    assert_eq!(d.columns[0].sample_values, s(&["1", "2", "3", "4", "5"]));
}

#[test]
fn sheet_without_rows_is_an_error() {
    assert_eq!(table_from_sheet("S".to_string(), &Vec::new()).unwrap_err(), "工作表为空");
    let cells = vec![s(&["h1", "h2"]), s(&["x", "y"])];
    let d = table_from_sheet("S".to_string(), &cells).unwrap();
    assert_eq!(d.columns.len(), 2);
    assert_eq!(d.rows, vec![s(&["x", "y"])]);
    assert_eq!(d.total_rows, 1);
}

#[test]
fn excel_formats_by_name() {
    assert_eq!(excel_file_format("/tmp/a.CSV").unwrap(), SheetFormat::Csv);
    assert_eq!(excel_file_format("b.xlsx").unwrap(), SheetFormat::Xlsx);
    assert_eq!(excel_file_format("c.xls").unwrap_err(), "不支持的文件格式: c.xls");
}
