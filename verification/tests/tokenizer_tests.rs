use desense::scanner::EntityType;
use desense::tokenizer::{TokenMap, Tokenizer};

#[test]
fn test_tokenize_and_restore() {
    let mut tokenizer = Tokenizer::new();
    let text = "张三的电话是13800138000，邮箱是zhangsan@test.com";

    let (sanitized, map) = tokenizer.tokenize(text);

    assert!(!sanitized.contains("13800138000"));
    assert!(!sanitized.contains("张三"));

    let restored = map.restore(&sanitized);
    assert_eq!(restored, text);

    assert!(sanitized.contains("[PERSON_1]"));
    assert!(sanitized.contains("[PHONE_1]"));
    assert!(sanitized.contains("[EMAIL_1]"));

    println!("原文本: {}", text);
    println!("脱敏后: {}", sanitized);
    println!("还原后: {}", restored);
}

#[test]
fn test_dedup_same_value() {
    let mut tokenizer = Tokenizer::new();
    let text = "联系人张三，电话13800138000，负责人也是张三";

    let (sanitized, _) = tokenizer.tokenize(text);

    let count_person = sanitized.matches("[PERSON_1]").count();
    assert_eq!(count_person, 2, "'张三'出现了两次，应使用同一个标记");
}

#[test]
fn same_value_gets_one_placeholder() {
    let mut tokenizer = Tokenizer::new();
    let text = "姓名：张三，电话13800138000，复核姓名：张三";
    let (sanitized, map) = tokenizer.tokenize(text);
    assert_eq!(sanitized.matches("[PERSON_1]").count(), 2, "{}", sanitized);
    assert!(!sanitized.contains("[PERSON_2]"));
    assert_eq!(map.entries.iter().filter(|e| e.entity_type == "PERSON").count(), 1);
    assert_eq!(map.restore(&sanitized), text);
}

#[test]
fn token_map_add_and_restore() {
    let mut map = TokenMap::new();
    map.add("[PERSON_1]".to_string(), "张三".to_string(), &EntityType::Person);
    map.add("[PHONE_1]".to_string(), "13800138000".to_string(), &EntityType::Phone);
    assert_eq!(map.entries.len(), 2);
    assert_eq!(map.entries[0].placeholder, "[PERSON_1]");
    assert_eq!(map.entries[0].original, "张三");
    assert_eq!(map.entries[0].entity_type, "PERSON");
    assert_eq!(map.entries[0].entity_label, "人名");
    assert_eq!(map.restore("[PERSON_1]的电话是[PHONE_1]"), "张三的电话是13800138000");
    assert_eq!(map.restore("没有标记"), "没有标记");
}

#[test]
fn restore_replaces_longer_placeholders_first() {
    let mut map = TokenMap::new();
    map.add("[ORG_1]".to_string(), "甲".to_string(), &EntityType::Org);
    map.add("[ORG_10]".to_string(), "乙".to_string(), &EntityType::Org);
    assert_eq!(map.restore("[ORG_10]和[ORG_1]"), "乙和甲");
}

#[test]
fn stat_counts_entries_per_kind() {
    let mut map = TokenMap::new();
    map.add("[PERSON_1]".to_string(), "张三".to_string(), &EntityType::Person);
    map.add("[PHONE_1]".to_string(), "13800138000".to_string(), &EntityType::Phone);
    map.add("[PERSON_2]".to_string(), "李四".to_string(), &EntityType::Person);
    let stats = map.stat();
    let person = stats.iter().find(|(k, _)| k == "PERSON").map(|(_, n)| *n);
    let phone = stats.iter().find(|(k, _)| k == "PHONE").map(|(_, n)| *n);
    assert_eq!(person, Some(2));
    assert_eq!(phone, Some(1));
    assert_eq!(stats.len(), 2);
    assert_eq!(stats.iter().map(|(_, n)| *n).sum::<usize>(), map.entries.len());
}

#[test]
fn tokenize_numbers_each_kind_from_one() {
    let mut tokenizer = Tokenizer::new();
    let text = "手机：13800138000，备用：13912345678，邮箱：a@b.com";
    let (sanitized, map) = tokenizer.tokenize(text);
    assert!(sanitized.contains("[PHONE_1]"), "{}", sanitized);
    assert!(sanitized.contains("[PHONE_2]"), "{}", sanitized);
    assert!(sanitized.contains("[EMAIL_1]"), "{}", sanitized);
    assert_eq!(map.restore(&sanitized), text);
    assert!(tokenizer.last_map.is_some());
    assert_eq!(tokenizer.last_map.as_ref().unwrap().entries.len(), map.entries.len());
}

#[test]
fn tokenize_text_without_findings_is_unchanged() {
    let mut tokenizer = Tokenizer::new();
    let text = "今天天气很好";
    let (sanitized, map) = tokenizer.tokenize(text);
    assert_eq!(sanitized, text);
    assert!(map.entries.is_empty());
    assert_eq!(map.restore(&sanitized), text);
}

#[test]
fn custom_terms_are_masked_and_restored() {
    let mut tokenizer = Tokenizer::new();
    tokenizer.load_custom_dict(vec![("PARTNER".to_string(), vec!["Acme".to_string()])]);
    let text = "合作方 Acme 提供服务";
    let (sanitized, map) = tokenizer.tokenize(text);
    assert!(sanitized.contains("[PARTNER_1]"), "{}", sanitized);
    assert!(!sanitized.contains("Acme"));
    assert_eq!(map.restore(&sanitized), text);
}

#[test]
fn sample_document_round_trips() {
    let text = "==== 审计测试数据 ====\n\n客户信息：\n- 姓名：张三\n- 手机：13800138000\n- 邮箱：zhangsan@company.com.cn\n- 身份证：110101199003074477\n- 银行卡号：6222021234567890123\n- 地址：北京市海淀区中关村南大街5号院2号楼\n\n供应商：深圳华为技术有限公司（项目负责人：李四，电话：13912345678）\n";
    let mut tokenizer = Tokenizer::new();
    let (sanitized, map) = tokenizer.tokenize(text);
    assert!(!sanitized.contains("13800138000"));
    assert!(!sanitized.contains("110101199003074477"));
    assert_eq!(map.restore(&sanitized), text);
}

#[test]
fn saved_entries_restore_the_text() {
    let mut tokenizer = Tokenizer::new();
    let text = "姓名：张三，手机：13800138000，邮箱：zhangsan@test.com";
    let (sanitized, map) = tokenizer.tokenize(text);
    let saved = TokenMap::from_entries(map.entries.clone());
    assert_eq!(saved.entries.len(), map.entries.len());
    assert_eq!(saved.placeholder_to_original, map.placeholder_to_original);
    assert_eq!(saved.original_to_placeholder, map.original_to_placeholder);
    assert_eq!(saved.restore(&sanitized), text);
}

#[test]
fn brackets_in_text_round_trip() {
    let mut tokenizer = Tokenizer::new();
    let text = "见附件[1]，电话13800138000，[注]";
    let (sanitized, map) = tokenizer.tokenize(text);
    assert!(sanitized.contains("[PHONE_1]"), "{}", sanitized);
    assert!(sanitized.contains("[1]"));
    assert_eq!(map.restore(&sanitized), text);
}
