use desense::scanner::{EntityType, MatchResult, Scanner, SensitiveLevel};

fn has_kind(matches: &[MatchResult], kind: &EntityType) -> bool {
    matches.iter().any(|m| &m.entity_type == kind)
}

#[test]
fn test_phone_scan() {
    let scanner = Scanner::new();
    let text = "联系人：张三，电话：13800138000";
    let matches = scanner.scan(text);
    assert!(matches.iter().any(|m| matches!(m.entity_type, EntityType::Phone)));
}

#[test]
fn test_idcard_scan() {
    let scanner = Scanner::new();
    let text = "身份证号：110101199003074477";
    let matches = scanner.scan(text);
    assert!(matches.iter().any(|m| matches!(m.entity_type, EntityType::IdCard)));
}

#[test]
fn test_email_scan() {
    let scanner = Scanner::new();
    let text = "邮箱：zhangsan@company.com";
    let matches = scanner.scan(text);
    assert!(matches.iter().any(|m| matches!(m.entity_type, EntityType::Email)));
}

#[test]
fn province_is_a_region() {
    let scanner = Scanner::new();
    let matches = scanner.scan("地址在河北省");
    assert!(matches.iter().any(|m| m.entity_type == EntityType::Region && m.original == "河北省"), "{:?}", matches);
}

#[test]
fn test_region_scan() {
    let scanner = Scanner::new();
    let text = "审计组对河北省石家庄市新华区财政局开展了延伸审计";
    let matches = scanner.scan(text);
    assert!(
        matches.iter().any(|m| matches!(m.entity_type, EntityType::Region)),
        "应识别出地区名：{:?}",
        matches
    );
}

#[test]
fn longer_overlapping_finding_wins() {
    let scanner = Scanner::new();
    let text = "审计组对河北省石家庄市新华区财政局开展了延伸审计";
    let matches = scanner.scan(text);
    assert_eq!(matches.len(), 1, "{:?}", matches);
    assert_eq!(matches[0].entity_type, EntityType::Region);
    assert_eq!(matches[0].original, "审计组对河北省石家庄市新华区");
    assert_eq!(matches[0].start, 0);
}

#[test]
fn test_govdept_scan() {
    let scanner = Scanner::new();
    let text = "根据财政部和国家税务总局的要求，XX局开展了专项检查";
    let matches = scanner.scan(text);
    assert!(
        matches.iter().any(|m| matches!(m.entity_type, EntityType::GovDept)),
        "应识别出机关部门：{:?}",
        matches
    );
}

#[test]
fn test_money_level() {
    assert_eq!(EntityType::Money.level(), SensitiveLevel::Keep);
    assert_eq!(EntityType::Person.level(), SensitiveLevel::Mask);
}

#[test]
fn entity_prefixes_and_labels() {
    assert_eq!(EntityType::Person.prefix(), "PERSON");
    assert_eq!(EntityType::BankCard.prefix(), "BANK_CARD");
    assert_eq!(EntityType::Address.prefix(), "ADDR");
    assert_eq!(EntityType::GovDept.prefix(), "GOVDEPT");
    assert_eq!(EntityType::Custom("SYSTEM".to_string()).prefix(), "SYSTEM");
    assert_eq!(EntityType::GovDept.label(), "党政机关部门");
    assert_eq!(EntityType::Region.label(), "地区");
    assert_eq!(EntityType::Custom("伙伴".to_string()).label(), "伙伴");
}

#[test]
fn kept_levels() {
    assert_eq!(EntityType::Project.level(), SensitiveLevel::Keep);
    assert_eq!(EntityType::Ip.level(), SensitiveLevel::Keep);
    assert_eq!(EntityType::Phone.level(), SensitiveLevel::Mask);
    assert_eq!(EntityType::Custom("X".to_string()).level(), SensitiveLevel::Mask);
}

#[test]
fn phone_match_has_byte_range() {
    let scanner = Scanner::new();
    let text = "电话：13800138000";
    let matches = scanner.scan(text);
    let m = matches.iter().find(|m| m.entity_type == EntityType::Phone).unwrap();
    assert_eq!(m.original, "13800138000");
    assert_eq!(&text[m.start..m.end], "13800138000");
    assert_eq!(m.start, "电话：".len());
}

#[test]
fn findings_are_ordered_and_disjoint() {
    let scanner = Scanner::new();
    let text = "客户信息：姓名：张三，手机：13800138000，邮箱：zhangsan@company.com.cn，金额¥5,000元";
    let matches = scanner.scan(text);
    assert!(!matches.is_empty());
    for w in matches.windows(2) {
        assert!(w[0].end <= w[1].start, "{:?}", matches);
    }
    for m in &matches {
        assert!(m.start <= m.end);
        assert_eq!(&text[m.start..m.end], m.original);
    }
}

#[test]
fn custom_dictionary_terms_are_found() {
    let mut scanner = Scanner::new();
    scanner.load_custom_dict(vec![("PARTNER".to_string(), vec!["Acme".to_string()])]);
    let text = "合作方 Acme 提供服务";
    let matches = scanner.scan(text);
    let custom = EntityType::Custom("PARTNER".to_string());
    assert!(has_kind(&matches, &custom), "{:?}", matches);
    let m = matches.iter().find(|m| m.entity_type == custom).unwrap();
    assert_eq!(m.original, "Acme");
    assert_eq!(&text[m.start..m.end], "Acme");
}

#[test]
fn custom_term_inside_longer_chinese_word_is_skipped() {
    let mut scanner = Scanner::new();
    scanner.load_custom_dict(vec![("PERSON".to_string(), vec!["张三".to_string()])]);
    let inside = scanner.scan("老张三丰来了");
    assert!(!has_kind(&inside, &EntityType::Custom("PERSON".to_string())));
    let alone = scanner.scan("联系 张三 。");
    assert!(has_kind(&alone, &EntityType::Custom("PERSON".to_string())));
}

#[test]
fn empty_text_has_no_findings() {
    let scanner = Scanner::new();
    assert!(scanner.scan("").is_empty());
}

#[test]
fn custom_term_after_chinese_character_is_skipped() {
    let mut scanner = Scanner::new();
    scanner.load_custom_dict(vec![("PERSON".to_string(), vec!["张三".to_string()])]);
    let custom = EntityType::Custom("PERSON".to_string());
    let inside = scanner.scan("小张三，");
    assert!(!has_kind(&inside, &custom), "{:?}", inside);
    let alone = scanner.scan("张三，");
    let m = alone.iter().find(|m| m.entity_type == custom).unwrap();
    assert_eq!((m.start, m.end, m.original.as_str()), (0, 6, "张三"));
    let after_ascii = scanner.scan("A张三，");
    assert!(has_kind(&after_ascii, &custom));
}

#[test]
fn name_right_after_contact_word() {
    let scanner = Scanner::new();
    let m = scanner.scan("联系人张三，电话");
    let p = m.iter().find(|m| m.entity_type == EntityType::Person).unwrap();
    assert_eq!((p.original.as_str(), p.start, p.end), ("张三", 9, 15));
    let with_colon = scanner.scan("姓名：张三丰");
    assert!(with_colon.iter().any(|m| m.entity_type == EntityType::Person && m.original == "姓名：张三丰"));
    let longer = scanner.scan("负责人也是张三");
    assert!(!longer.iter().any(|m| m.entity_type == EntityType::Person), "{:?}", longer);
}

#[test]
fn long_department_name_is_cut_to_ten_characters() {
    let scanner = Scanner::new();
    let m = scanner.scan("一二三四五六七八九十甲乙局");
    let d = m.iter().find(|m| m.entity_type == EntityType::GovDept).unwrap();
    assert_eq!(d.original, "三四五六七八九十甲乙局");
}
