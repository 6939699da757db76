//! Column matching: sensitive columns are recognised by their names, and their
//! values are masked by kind (keep the surname, keep the first digits, ...).
use vstd::prelude::*;
use vstd::utf8::*;
use vstd::string::StrSliceExecFns;
use crate::excel::{ColumnInfo, strs, rows_view, copy_strings};
use crate::text::{
    trim, contains, lowercase, to_lowercase, chars_of, contains_chars, trim_bounds,
    string_from_chars, push_all,
};

verus! {

/// The kind of a sensitive column.
#[derive(Debug, Clone, Copy, PartialEq, Eq, Hash, Structural)]
pub enum ColumnSensitiveType {
    Person,
    Company,
    Phone,
    IdCard,
    BankCard,
    Email,
    Address,
    Region,
    GovDept,
    Money,
    Date,
    Project,
    Other,
}

pub open spec fn column_prefix_of(t: ColumnSensitiveType) -> Seq<char> {
    match t {
        ColumnSensitiveType::Person => "PERSON"@,
        ColumnSensitiveType::Company => "COMPANY"@,
        ColumnSensitiveType::Phone => "PHONE"@,
        ColumnSensitiveType::IdCard => "ID_CARD"@,
        ColumnSensitiveType::BankCard => "BANK_CARD"@,
        ColumnSensitiveType::Email => "EMAIL"@,
        ColumnSensitiveType::Address => "ADDR"@,
        ColumnSensitiveType::Region => "REGION"@,
        ColumnSensitiveType::GovDept => "GOVDEPT"@,
        ColumnSensitiveType::Money => "MONEY"@,
        ColumnSensitiveType::Date => "DATE"@,
        ColumnSensitiveType::Project => "PROJECT"@,
        ColumnSensitiveType::Other => ""@,
    }
}

pub open spec fn column_label_of(t: ColumnSensitiveType) -> Seq<char> {
    match t {
        ColumnSensitiveType::Person => "人名"@,
        ColumnSensitiveType::Company => "公司/单位"@,
        ColumnSensitiveType::Phone => "手机/电话"@,
        ColumnSensitiveType::IdCard => "身份证号"@,
        ColumnSensitiveType::BankCard => "银行卡号/账号"@,
        ColumnSensitiveType::Email => "邮箱"@,
        ColumnSensitiveType::Address => "地址"@,
        ColumnSensitiveType::Region => "地区"@,
        ColumnSensitiveType::GovDept => "党政机关部门"@,
        ColumnSensitiveType::Money => "金额"@,
        ColumnSensitiveType::Date => "日期"@,
        ColumnSensitiveType::Project => "项目"@,
        ColumnSensitiveType::Other => ""@,
    }
}

impl ColumnSensitiveType {
    pub fn prefix(&self) -> (r: &str)
        ensures
            r@ == column_prefix_of(*self),
    {
        match self {
            ColumnSensitiveType::Person => "PERSON",
            ColumnSensitiveType::Company => "COMPANY",
            ColumnSensitiveType::Phone => "PHONE",
            ColumnSensitiveType::IdCard => "ID_CARD",
            ColumnSensitiveType::BankCard => "BANK_CARD",
            ColumnSensitiveType::Email => "EMAIL",
            ColumnSensitiveType::Address => "ADDR",
            ColumnSensitiveType::Region => "REGION",
            ColumnSensitiveType::GovDept => "GOVDEPT",
            ColumnSensitiveType::Money => "MONEY",
            ColumnSensitiveType::Date => "DATE",
            ColumnSensitiveType::Project => "PROJECT",
            ColumnSensitiveType::Other => "",
        }
    }

    pub fn label(&self) -> (r: &str)
        ensures
            r@ == column_label_of(*self),
    {
        match self {
            ColumnSensitiveType::Person => "人名",
            ColumnSensitiveType::Company => "公司/单位",
            ColumnSensitiveType::Phone => "手机/电话",
            ColumnSensitiveType::IdCard => "身份证号",
            ColumnSensitiveType::BankCard => "银行卡号/账号",
            ColumnSensitiveType::Email => "邮箱",
            ColumnSensitiveType::Address => "地址",
            ColumnSensitiveType::Region => "地区",
            ColumnSensitiveType::GovDept => "党政机关部门",
            ColumnSensitiveType::Money => "金额",
            ColumnSensitiveType::Date => "日期",
            ColumnSensitiveType::Project => "项目",
            ColumnSensitiveType::Other => "",
        }
    }
}

/// A column with the kind recognised from its name.
#[derive(Debug, Clone)]
pub struct MatchedColumn {
    pub column_name: String,
    pub sensitive_type: ColumnSensitiveType,
    pub sample_values: Vec<String>,
}

/// Keywords that mark a column, with the kind they mark.
struct ColumnRule {
    keywords: Vec<&'static str>,
    sens_type: ColumnSensitiveType,
}

/// The keyword rules, in the order they are tried.
pub open spec fn column_rules() -> Seq<(Seq<Seq<char>>, ColumnSensitiveType)> {
    seq![
        (seq!["姓名"@, "名字"@, "名称"@, "录入人"@, "收款人"@, "付款人"@, "联系人"@, "负责人"@, "客户名"@, "name"@, "customer"@, "contact"@, "person"@], ColumnSensitiveType::Person),
        (seq!["单位"@, "公司"@, "企业"@, "部门"@, "供应商"@, "机构"@, "company"@, "org"@, "vendor"@, "dept"@, "department"@, "organization"@], ColumnSensitiveType::Company),
        (seq!["手机"@, "电话"@, "手机号"@, "电话号码"@, "联系电话"@, "phone"@, "tel"@, "mobile"@], ColumnSensitiveType::Phone),
        (seq!["身份证"@, "证件号"@, "idcard"@, "id_card"@, "id_number"@], ColumnSensitiveType::IdCard),
        (seq!["银行卡"@, "账号"@, "卡号"@, "开户行"@, "银行账号"@, "付款人账号"@, "收款人账号"@, "bank"@, "account"@, "card"@], ColumnSensitiveType::BankCard),
        (seq!["邮箱"@, "邮件"@, "email"@, "mail"@], ColumnSensitiveType::Email),
        (seq!["地址"@, "住址"@, "address"@, "location"@], ColumnSensitiveType::Address),
        (seq!["地区"@, "区域"@, "省份"@, "省市"@, "区划"@, "地域"@, "region"@, "district"@], ColumnSensitiveType::Region),
        (seq!["部门"@, "处室"@, "科室"@, "机关"@, "单位名称"@, "机构"@, "dept"@, "department"@, "bureau"@, "office"@], ColumnSensitiveType::GovDept),
        (seq!["金额"@, "总额"@, "总金额"@, "价格"@, "单价"@, "费用"@, "支出"@, "收入"@, "money"@, "amount"@, "price"@, "cost"@, "fee"@, "total"@, "sum"@, "budget"@, "payment"@], ColumnSensitiveType::Money),
        (seq!["日期"@, "时间"@, "年月"@, "date"@, "time"@, "year"@, "month"@, "回单时间"@, "清算时间"@, "录入时间"@], ColumnSensitiveType::Date),
        (seq!["项目"@, "工程"@, "计划"@, "方案"@, "指标"@, "project"@, "mission"@], ColumnSensitiveType::Project),
    ]
}

/// Whether some keyword occurs in `name`.
pub open spec fn any_keyword_in(name: Seq<char>, kws: Seq<Seq<char>>) -> bool {
    exists|k: int| 0 <= k < kws.len() && contains(name, #[trigger] kws[k])
}

/// The kind of the first rule with a keyword in `name`, or `Other`.
pub open spec fn kind_by_rules(name: Seq<char>, rules: Seq<(Seq<Seq<char>>, ColumnSensitiveType)>) -> ColumnSensitiveType
    decreases rules.len(),
{
    if rules.len() == 0 {
        ColumnSensitiveType::Other
    } else if any_keyword_in(name, rules[0].0) {
        rules[0].1
    } else {
        kind_by_rules(name, rules.drop_first())
    }
}

/// The kind recognised for a column named `name`: the rules are tried on its lowercase form.
pub open spec fn column_kind(name: Seq<char>) -> ColumnSensitiveType {
    kind_by_rules(lowercase(name), column_rules())
}

/// The kind of a column by the keywords its lowercase name holds: person words
/// first, then company, phone, ID card, bank card, e-mail, address, region,
/// department, money, date and project words; the first list with a keyword in
/// the name decides, and a name with none of them is `Other`. For instance a name
/// holding `身份证` and no person, company or phone word is an ID card column.
pub proof fn lemma_column_kind_by_keywords(name: Seq<char>)
    ensures
        ({
            let l = lowercase(name);
            let person = seq!["姓名"@, "名字"@, "名称"@, "录入人"@, "收款人"@, "付款人"@, "联系人"@, "负责人"@, "客户名"@, "name"@, "customer"@, "contact"@, "person"@];
            let company = seq!["单位"@, "公司"@, "企业"@, "部门"@, "供应商"@, "机构"@, "company"@, "org"@, "vendor"@, "dept"@, "department"@, "organization"@];
            let phone = seq!["手机"@, "电话"@, "手机号"@, "电话号码"@, "联系电话"@, "phone"@, "tel"@, "mobile"@];
            let id_card = seq!["身份证"@, "证件号"@, "idcard"@, "id_card"@, "id_number"@];
            let bank_card = seq!["银行卡"@, "账号"@, "卡号"@, "开户行"@, "银行账号"@, "付款人账号"@, "收款人账号"@, "bank"@, "account"@, "card"@];
            let email = seq!["邮箱"@, "邮件"@, "email"@, "mail"@];
            let address = seq!["地址"@, "住址"@, "address"@, "location"@];
            let region = seq!["地区"@, "区域"@, "省份"@, "省市"@, "区划"@, "地域"@, "region"@, "district"@];
            let gov_dept = seq!["部门"@, "处室"@, "科室"@, "机关"@, "单位名称"@, "机构"@, "dept"@, "department"@, "bureau"@, "office"@];
            let money = seq!["金额"@, "总额"@, "总金额"@, "价格"@, "单价"@, "费用"@, "支出"@, "收入"@, "money"@, "amount"@, "price"@, "cost"@, "fee"@, "total"@, "sum"@, "budget"@, "payment"@];
            let date = seq!["日期"@, "时间"@, "年月"@, "date"@, "time"@, "year"@, "month"@, "回单时间"@, "清算时间"@, "录入时间"@];
            let project = seq!["项目"@, "工程"@, "计划"@, "方案"@, "指标"@, "project"@, "mission"@];
            &&& any_keyword_in(l, person) ==> column_kind(name) == ColumnSensitiveType::Person
            &&& !any_keyword_in(l, person) && any_keyword_in(l, company) ==> column_kind(name) == ColumnSensitiveType::Company
            &&& !any_keyword_in(l, person) && !any_keyword_in(l, company) && any_keyword_in(l, phone) ==> column_kind(name) == ColumnSensitiveType::Phone
            &&& !any_keyword_in(l, person) && !any_keyword_in(l, company) && !any_keyword_in(l, phone) && any_keyword_in(l, id_card) ==> column_kind(name) == ColumnSensitiveType::IdCard
            &&& !any_keyword_in(l, person) && !any_keyword_in(l, company) && !any_keyword_in(l, phone) && !any_keyword_in(l, id_card) && any_keyword_in(l, bank_card) ==> column_kind(name) == ColumnSensitiveType::BankCard
            &&& !any_keyword_in(l, person) && !any_keyword_in(l, company) && !any_keyword_in(l, phone) && !any_keyword_in(l, id_card) && !any_keyword_in(l, bank_card) && any_keyword_in(l, email) ==> column_kind(name) == ColumnSensitiveType::Email
            &&& !any_keyword_in(l, person) && !any_keyword_in(l, company) && !any_keyword_in(l, phone) && !any_keyword_in(l, id_card) && !any_keyword_in(l, bank_card) && !any_keyword_in(l, email) && any_keyword_in(l, address) ==> column_kind(name) == ColumnSensitiveType::Address
            &&& !any_keyword_in(l, person) && !any_keyword_in(l, company) && !any_keyword_in(l, phone) && !any_keyword_in(l, id_card) && !any_keyword_in(l, bank_card) && !any_keyword_in(l, email) && !any_keyword_in(l, address) && any_keyword_in(l, region) ==> column_kind(name) == ColumnSensitiveType::Region
            &&& !any_keyword_in(l, person) && !any_keyword_in(l, company) && !any_keyword_in(l, phone) && !any_keyword_in(l, id_card) && !any_keyword_in(l, bank_card) && !any_keyword_in(l, email) && !any_keyword_in(l, address) && !any_keyword_in(l, region) && any_keyword_in(l, gov_dept) ==> column_kind(name) == ColumnSensitiveType::GovDept
            &&& !any_keyword_in(l, person) && !any_keyword_in(l, company) && !any_keyword_in(l, phone) && !any_keyword_in(l, id_card) && !any_keyword_in(l, bank_card) && !any_keyword_in(l, email) && !any_keyword_in(l, address) && !any_keyword_in(l, region) && !any_keyword_in(l, gov_dept) && any_keyword_in(l, money) ==> column_kind(name) == ColumnSensitiveType::Money
            &&& !any_keyword_in(l, person) && !any_keyword_in(l, company) && !any_keyword_in(l, phone) && !any_keyword_in(l, id_card) && !any_keyword_in(l, bank_card) && !any_keyword_in(l, email) && !any_keyword_in(l, address) && !any_keyword_in(l, region) && !any_keyword_in(l, gov_dept) && !any_keyword_in(l, money) && any_keyword_in(l, date) ==> column_kind(name) == ColumnSensitiveType::Date
            &&& !any_keyword_in(l, person) && !any_keyword_in(l, company) && !any_keyword_in(l, phone) && !any_keyword_in(l, id_card) && !any_keyword_in(l, bank_card) && !any_keyword_in(l, email) && !any_keyword_in(l, address) && !any_keyword_in(l, region) && !any_keyword_in(l, gov_dept) && !any_keyword_in(l, money) && !any_keyword_in(l, date) && any_keyword_in(l, project) ==> column_kind(name) == ColumnSensitiveType::Project
            &&& !any_keyword_in(l, person) && !any_keyword_in(l, company) && !any_keyword_in(l, phone) && !any_keyword_in(l, id_card) && !any_keyword_in(l, bank_card) && !any_keyword_in(l, email) && !any_keyword_in(l, address) && !any_keyword_in(l, region) && !any_keyword_in(l, gov_dept) && !any_keyword_in(l, money) && !any_keyword_in(l, date) && !any_keyword_in(l, project) ==> column_kind(name) == ColumnSensitiveType::Other
        }),
{
    reveal_with_fuel(kind_by_rules, 13);
    let rs = column_rules();
    assert(rs.drop_first().drop_first().drop_first().drop_first().drop_first().drop_first()
        .drop_first().drop_first().drop_first().drop_first().drop_first().drop_first().len() == 0);
}


spec fn rule_views(v: Seq<ColumnRule>) -> Seq<(Seq<Seq<char>>, ColumnSensitiveType)> {
    v.map_values(|r: ColumnRule| (r.keywords@.map_values(|k: &str| k@), r.sens_type))
}

fn rule(keywords: Vec<&'static str>, sens_type: ColumnSensitiveType) -> (r: ColumnRule)
    ensures
        r.keywords == keywords,
        r.sens_type == sens_type,
{
    ColumnRule { keywords, sens_type }
}

fn build_column_rules() -> (r: Vec<ColumnRule>)
    ensures
        rule_views(r@) == column_rules(),
{
    let r = vec![
        rule(vec!["姓名", "名字", "名称", "录入人", "收款人", "付款人", "联系人",
                  "负责人", "客户名", "name", "customer", "contact", "person"],
            ColumnSensitiveType::Person),
        rule(vec!["单位", "公司", "企业", "部门", "供应商", "机构",
                  "company", "org", "vendor", "dept", "department", "organization"],
            ColumnSensitiveType::Company),
        rule(vec!["手机", "电话", "手机号", "电话号码", "联系电话",
                  "phone", "tel", "mobile"],
            ColumnSensitiveType::Phone),
        rule(vec!["身份证", "证件号", "idcard", "id_card", "id_number"],
            ColumnSensitiveType::IdCard),
        rule(vec!["银行卡", "账号", "卡号", "开户行", "银行账号", "付款人账号", "收款人账号",
                  "bank", "account", "card"],
            ColumnSensitiveType::BankCard),
        rule(vec!["邮箱", "邮件", "email", "mail"], ColumnSensitiveType::Email),
        rule(vec!["地址", "住址", "address", "location"], ColumnSensitiveType::Address),
        rule(vec!["地区", "区域", "省份", "省市", "区划", "地域", "region", "district"],
            ColumnSensitiveType::Region),
        rule(vec!["部门", "处室", "科室", "机关", "单位名称", "机构",
                  "dept", "department", "bureau", "office"],
            ColumnSensitiveType::GovDept),
        rule(vec!["金额", "总额", "总金额", "价格", "单价", "费用", "支出", "收入",
                  "money", "amount", "price", "cost", "fee", "total", "sum",
                  "budget", "payment"],
            ColumnSensitiveType::Money),
        rule(vec!["日期", "时间", "年月", "date", "time", "year", "month",
                  "回单时间", "清算时间", "录入时间"],
            ColumnSensitiveType::Date),
        rule(vec!["项目", "工程", "计划", "方案", "指标", "project", "mission"],
            ColumnSensitiveType::Project),
    ];
    assert(r@.len() == 12);
    assert forall|i: int| 0 <= i < 12 implies #[trigger] rule_views(r@)[i] == column_rules()[i] by {
        assert(rule_views(r@)[i].0 =~= column_rules()[i].0);
    }
    assert(rule_views(r@) =~= column_rules());
    r
}

/// The column view of a matched column: name, kind, samples.
pub open spec fn matched_view(m: MatchedColumn) -> (Seq<char>, ColumnSensitiveType, Seq<Seq<char>>) {
    (m.column_name@, m.sensitive_type, strs(m.sample_values@))
}

/// Whether `r` is what `match_columns` returns for `columns`: one entry per
/// column, in order, with its name, its recognised kind and its samples.
pub open spec fn matches_columns(r: Seq<MatchedColumn>, columns: Seq<ColumnInfo>) -> bool {
    &&& r.len() == columns.len()
    &&& forall|i: int|
        0 <= i < columns.len() ==> matched_view(#[trigger] r[i]) == (
            columns[i].name@,
            column_kind(columns[i].name@),
            strs(columns[i].sample_values@),
        )
}

fn keyword_found(name: &[char], kws: &Vec<&'static str>) -> (r: bool)
    ensures
        r == any_keyword_in(name@, kws@.map_values(|k: &str| k@)),
{
    let ghost kv = kws@.map_values(|k: &str| k@);
    for i in 0..kws.len()
        invariant
            kv == kws@.map_values(|k: &str| k@),
            forall|k: int| 0 <= k < i ==> !contains(name@, #[trigger] kv[k]),
    {
        let kw = chars_of(kws[i]);
        if contains_chars(name, kw.as_slice()) {
            assert(contains(name@, kv[i as int]));
            return true;
        }
    }
    false
}

/// The kind recognised for a column named `name`.
fn kind_of_name(name: &String, rules: &Vec<ColumnRule>) -> (r: ColumnSensitiveType)
    requires
        rule_views(rules@) == column_rules(),
    ensures
        r == column_kind(name@),
{
    let lower = to_lowercase(name.as_str());
    let lc = chars_of(lower.as_str());
    let ghost rv = rule_views(rules@);
    let mut i: usize = 0;
    assert(rv.skip(0) == rv);
    while i < rules.len()
        invariant
            i <= rules@.len(),
            rv == rule_views(rules@),
            rv == column_rules(),
            lc@ == lowercase(name@),
            kind_by_rules(lc@, rv) == kind_by_rules(lc@, rv.skip(i as int)),
        decreases rules.len() - i,
    {
        let ghost rest = rv.skip(i as int);
        assert(rest[0] == rv[i as int]);
        assert(rest.drop_first() == rv.skip(i + 1));
        if keyword_found(lc.as_slice(), &rules[i].keywords) {
            return rules[i].sens_type;
        }
        i += 1;
    }
    ColumnSensitiveType::Other
}

/// A copy of a column.
pub fn copy_column(c: &ColumnInfo) -> (r: ColumnInfo)
    ensures
        r.name@ == c.name@,
        strs(r.sample_values@) == strs(c.sample_values@),
{
    ColumnInfo { name: c.name.clone(), sample_values: copy_strings(&c.sample_values) }
}

/// Recognises each column's kind from its name: the first rule with a keyword in
/// the lowercase name decides, and a column no rule recognises is `Other`.
pub fn match_columns(columns: &[ColumnInfo]) -> (r: Vec<MatchedColumn>)
    ensures
        matches_columns(r@, columns@),
{
    let rules = build_column_rules();
    let mut results: Vec<MatchedColumn> = Vec::new();
    for i in 0..columns.len()
        invariant
            rule_views(rules@) == column_rules(),
            results@.len() == i,
            forall|k: int|
                0 <= k < i ==> matched_view(#[trigger] results@[k]) == (
                    columns@[k].name@,
                    column_kind(columns@[k].name@),
                    strs(columns@[k].sample_values@),
                ),
    {
        let col = &columns[i];
        let kind = kind_of_name(&col.name, &rules);
        results.push(
            MatchedColumn {
                column_name: col.name.clone(),
                sensitive_type: kind,
                sample_values: copy_strings(&col.sample_values),
            },
        );
    }
    results
}

// ---------------------------------------------------------------------------
// Masking one value
// ---------------------------------------------------------------------------

/// The number of bytes of the UTF-8 encoding of `c`.
pub open spec fn char_bytes(c: char) -> nat {
    encode_utf8(seq![c]).len()
}

/// `n` asterisks.
pub open spec fn stars(n: nat) -> Seq<char> {
    Seq::new(n, |i: int| '*')
}

pub open spec fn is_ascii_digit(c: char) -> bool {
    '0' <= c && c <= '9'
}

/// The ASCII digits of `s`, in order.
pub open spec fn ascii_digits(s: Seq<char>) -> Seq<char>
    decreases s.len(),
{
    if s.len() == 0 {
        seq![]
    } else if is_ascii_digit(s.last()) {
        ascii_digits(s.drop_last()).push(s.last())
    } else {
        ascii_digits(s.drop_last())
    }
}

/// The index of the first `@` in `s`, or -1.
pub open spec fn at_index(s: Seq<char>) -> int
    decreases s.len(),
{
    if s.len() == 0 {
        -1
    } else if s[0] == '@' {
        0
    } else if at_index(s.drop_first()) < 0 {
        -1
    } else {
        at_index(s.drop_first()) + 1
    }
}

/// Whether masking `value` as `t` cuts its UTF-8 encoding only between characters.
/// Slicing a string elsewhere panics; these are the inputs that the library leaves out.
pub open spec fn value_supported(value: Seq<char>, t: ColumnSensitiveType) -> bool {
    let v = trim(value);
    let b = encode_utf8(v);
    value.len() == 0 || value == seq!['-'] || match t {
        ColumnSensitiveType::IdCard => b.len() >= 10 ==> is_char_boundary(b, 6)
            && is_char_boundary(b, b.len() - 4),
        ColumnSensitiveType::BankCard => b.len() >= 8 ==> is_char_boundary(b, 4)
            && is_char_boundary(b, b.len() - 4),
        ColumnSensitiveType::Email => (at_index(value) >= 0 && encode_utf8(
            value.take(at_index(value)),
        ).len() >= 3) ==> char_bytes(value[0]) == 1,
        _ => true,
    }
}

/// The masked form of `value` as a column of kind `t`.
pub open spec fn desensitized(value: Seq<char>, t: ColumnSensitiveType) -> Seq<char> {
    let v = trim(value);
    let b = encode_utf8(v);
    if value.len() == 0 || value == seq!['-'] {
        value
    } else {
        match t {
            // the surname stays
            ColumnSensitiveType::Person => if v.len() >= 2 {
                seq![v[0], '某']
            } else if v.len() == 1 {
                seq!['某']
            } else {
                value
            },
            // the first two characters stay
            ColumnSensitiveType::Company => if v.len() >= 4 {
                v.take(2) + stars(2)
            } else if v.len() >= 2 {
                seq![v[0]] + stars(2)
            } else {
                stars(2)
            },
            // the first three and last two digits stay
            ColumnSensitiveType::Phone => {
                let d = ascii_digits(value);
                if d.len() >= 7 {
                    d.take(3) + stars(4) + d.skip(d.len() - 2)
                } else if d.len() >= 4 {
                    d.take(3) + stars(4)
                } else {
                    stars(4)
                }
            },
            // the first six and last four bytes stay
            ColumnSensitiveType::IdCard => if b.len() >= 10 {
                decode_utf8(b.subrange(0, 6)) + stars(8) + decode_utf8(
                    b.subrange(b.len() - 4, b.len() as int),
                )
            } else {
                stars(8)
            },
            // the first four and last four bytes stay
            ColumnSensitiveType::BankCard => if b.len() >= 8 {
                decode_utf8(b.subrange(0, 4)) + stars(4) + decode_utf8(
                    b.subrange(b.len() - 4, b.len() as int),
                )
            } else {
                stars(8)
            },
            // the user name is hidden, the domain stays
            ColumnSensitiveType::Email => {
                let at = at_index(value);
                if at < 0 {
                    stars(3)
                } else if encode_utf8(value.take(at)).len() >= 3 {
                    seq![value[0]] + stars(3) + value.skip(at)
                } else {
                    stars(3) + value.skip(at)
                }
            },
            // the first six characters stay
            ColumnSensitiveType::Address => if v.len() >= 6 {
                v.take(6) + stars(4)
            } else {
                stars(4)
            },
            // amounts are the data under audit: unchanged
            ColumnSensitiveType::Money => value,
            // a region becomes "some region"
            ColumnSensitiveType::Region => seq!['某', '地', '区'],
            ColumnSensitiveType::GovDept => seq!['某', '部', '门'],
            ColumnSensitiveType::Date | ColumnSensitiveType::Project | ColumnSensitiveType::Other => value,
        }
    }
}

/// The number of bytes of the UTF-8 encoding of `c`, as `char::len_utf8` returns it.
fn char_utf8_len(c: char) -> (r: usize)
    ensures
        r == char_bytes(c),
        1 <= r <= 4,
{
    proof {
        char_is_scalar(c);
        assert(seq![c].drop_first() =~= Seq::<char>::empty());
        assert(seq![c][0] == c);
        assert(encode_utf8(seq![c]) == encode_scalar(c as u32) + encode_utf8(Seq::<char>::empty()));
    }
    let u = c as u32;
    if u < 0x80 {
        1
    } else if u < 0x800 {
        2
    } else if u < 0x10000 {
        3
    } else {
        4
    }
}

/// Appends `n` asterisks.
fn push_stars(out: &mut Vec<char>, n: usize)
    ensures
        final(out)@ == old(out)@ + stars(n as nat),
{
    let ghost o = out@;
    for i in 0..n
        invariant
            out@ == o + stars(i as nat),
    {
        out.push('*');
        assert(stars((i + 1) as nat) =~= stars(i as nat).push('*'));
    }
}

/// `s` as a vector of characters, for a slice cut at a character boundary.
proof fn lemma_decode_piece(piece: Seq<char>, bytes: Seq<u8>)
    requires
        encode_utf8(piece) =~= bytes,
    ensures
        piece == decode_utf8(bytes),
{
    encode_utf8_decode_utf8(piece);
}

proof fn lemma_ascii_digits_push(s: Seq<char>, i: int)
    requires
        0 <= i < s.len(),
    ensures
        ascii_digits(s.take(i + 1)) == if is_ascii_digit(s[i]) {
            ascii_digits(s.take(i)).push(s[i])
        } else {
            ascii_digits(s.take(i))
        },
{
    assert(s.take(i + 1).drop_last() == s.take(i));
    assert(s.take(i + 1).last() == s[i]);
}

proof fn lemma_at_index(s: Seq<char>, k: int)
    requires
        0 <= k <= s.len(),
        forall|m: int| 0 <= m < k ==> s[m] != '@',
        k == s.len() || s[k] == '@',
    ensures
        at_index(s) == if k == s.len() {
            -1
        } else {
            k
        },
    decreases k,
{
    if s.len() > 0 && k > 0 {
        lemma_at_index(s.drop_first(), k - 1);
    }
}

/// Masks one value by the kind of its column; empty values and `-` stay as they are.
pub fn desensitize_value(value: &str, sens_type: &ColumnSensitiveType) -> (r: String)
    requires
        value_supported(value@, *sens_type),
    ensures
        r@ == desensitized(value@, *sens_type),
{
    broadcast use encode_utf8_valid_utf8;

    let vc = chars_of(value);
    if vc.len() == 0 {
        return value.to_owned();
    }
    if vc.len() == 1 && vc[0] == '-' {
        assert(value@ =~= seq!['-']);
        return value.to_owned();
    }
    assert(vc@ != seq!['-']) by {
        if vc@ == seq!['-'] {
            assert(vc@[0] == '-');
        }
    }
    let (lo, hi) = trim_bounds(vc.as_slice());
    let ghost v = trim(value@);
    let n = hi - lo;
    let mut out: Vec<char> = Vec::new();
    match sens_type {
        ColumnSensitiveType::Person => {
            if n >= 2 {
                out.push(vc[lo]);
                out.push('某');
                assert(out@ =~= seq![v[0], '某']);
            } else if n == 1 {
                out.push('某');
                assert(out@ =~= seq!['某']);
            } else {
                return value.to_owned();
            }
        },
        ColumnSensitiveType::Company => {
            if n >= 4 {
                out.push(vc[lo]);
                out.push(vc[lo + 1]);
                push_stars(&mut out, 2);
                assert(out@ =~= v.take(2) + stars(2));
            } else if n >= 2 {
                out.push(vc[lo]);
                push_stars(&mut out, 2);
                assert(out@ =~= seq![v[0]] + stars(2));
            } else {
                push_stars(&mut out, 2);
                assert(out@ =~= stars(2));
            }
        },
        ColumnSensitiveType::Phone => {
            let mut digits: Vec<char> = Vec::new();
            for i in 0..vc.len()
                invariant
                    digits@ == ascii_digits(vc@.take(i as int)),
            {
                proof {
                    lemma_ascii_digits_push(vc@, i as int);
                }
                if '0' <= vc[i] && vc[i] <= '9' {
                    digits.push(vc[i]);
                }
            }
            assert(vc@.take(vc@.len() as int) == vc@);
            let d = digits.len();
            if d >= 7 {
                out.push(digits[0]);
                out.push(digits[1]);
                out.push(digits[2]);
                push_stars(&mut out, 4);
                out.push(digits[d - 2]);
                out.push(digits[d - 1]);
                assert(out@ =~= digits@.take(3) + stars(4) + digits@.skip(d - 2));
            } else if d >= 4 {
                out.push(digits[0]);
                out.push(digits[1]);
                out.push(digits[2]);
                push_stars(&mut out, 4);
                assert(out@ =~= digits@.take(3) + stars(4));
            } else {
                push_stars(&mut out, 4);
                assert(out@ =~= stars(4));
            }
        },
        ColumnSensitiveType::IdCard => {
            let t = value.substring_char(lo, hi);
            let bl = t.as_bytes().len();
            if bl >= 10 {
                let (h, _) = t.split_at(6);
                let (_, tl) = t.split_at(bl - 4);
                proof {
                    lemma_decode_piece(h@, encode_utf8(v).subrange(0, 6));
                    lemma_decode_piece(tl@, encode_utf8(v).subrange(bl - 4, bl as int));
                }
                let hc = chars_of(h);
                let tc = chars_of(tl);
                push_all(&mut out, hc.as_slice());
                push_stars(&mut out, 8);
                push_all(&mut out, tc.as_slice());
            } else {
                push_stars(&mut out, 8);
                assert(out@ =~= stars(8));
            }
        },
        ColumnSensitiveType::BankCard => {
            let t = value.substring_char(lo, hi);
            let bl = t.as_bytes().len();
            if bl >= 8 {
                let (h, _) = t.split_at(4);
                let (_, tl) = t.split_at(bl - 4);
                proof {
                    lemma_decode_piece(h@, encode_utf8(v).subrange(0, 4));
                    lemma_decode_piece(tl@, encode_utf8(v).subrange(bl - 4, bl as int));
                }
                let hc = chars_of(h);
                let tc = chars_of(tl);
                push_all(&mut out, hc.as_slice());
                push_stars(&mut out, 4);
                push_all(&mut out, tc.as_slice());
            } else {
                push_stars(&mut out, 8);
                assert(out@ =~= stars(8));
            }
        },
        ColumnSensitiveType::Email => {
            let mut k: usize = 0;
            while k < vc.len() && vc[k] != '@'
                invariant
                    k <= vc@.len(),
                    forall|m: int| 0 <= m < k ==> vc@[m] != '@',
                decreases vc.len() - k,
            {
                k += 1;
            }
            proof {
                lemma_at_index(vc@, k as int);
            }
            if k == vc.len() {
                push_stars(&mut out, 3);
                assert(out@ =~= stars(3));
            } else {
                let local = value.substring_char(0, k);
                assert(local@ == value@.take(k as int));
                if local.as_bytes().len() >= 3 {
                    out.push(vc[0]);
                    push_stars(&mut out, 3);
                } else {
                    push_stars(&mut out, 3);
                }
                let ghost o = out@;
                for m in k..vc.len()
                    invariant
                        k <= vc@.len(),
                        out@ == o + vc@.subrange(k as int, m as int),
                {
                    out.push(vc[m]);
                    assert(vc@.subrange(k as int, m + 1) =~= vc@.subrange(k as int, m as int).push(
                        vc@[m as int],
                    ));
                }
                assert(vc@.subrange(k as int, vc@.len() as int) == value@.skip(k as int));
            }
        },
        ColumnSensitiveType::Address => {
            if n >= 6 {
                for m in 0..6
                    invariant
                        lo + 6 <= hi <= vc@.len(),
                        vc@.subrange(lo as int, hi as int) == v,
                        out@ == v.take(m as int),
                {
                    out.push(vc[lo + m]);
                    assert(v.take(m + 1) =~= v.take(m as int).push(v[m as int]));
                }
                push_stars(&mut out, 4);
            } else {
                push_stars(&mut out, 4);
                assert(out@ =~= stars(4));
            }
        },
        ColumnSensitiveType::Money => {
            return value.to_owned();
        },
        ColumnSensitiveType::Region => {
            out.push('某');
            out.push('地');
            out.push('区');
            assert(out@ =~= seq!['某', '地', '区']);
        },
        ColumnSensitiveType::GovDept => {
            out.push('某');
            out.push('部');
            out.push('门');
            assert(out@ =~= seq!['某', '部', '门']);
        },
        ColumnSensitiveType::Date | ColumnSensitiveType::Project | ColumnSensitiveType::Other => {
            return value.to_owned();
        },
    }
    string_from_chars(out.as_slice())
}

/// Whether `value` can be masked as `t` without cutting a character.
pub fn value_is_supported(value: &str, sens_type: &ColumnSensitiveType) -> (r: bool)
    ensures
        r == value_supported(value@, *sens_type),
{
    broadcast use encode_utf8_valid_utf8;

    let vc = chars_of(value);
    if vc.len() == 0 {
        return true;
    }
    if vc.len() == 1 && vc[0] == '-' {
        assert(value@ =~= seq!['-']);
        return true;
    }
    assert(value@ != seq!['-']) by {
        if value@ == seq!['-'] {
            assert(vc@[0] == '-');
        }
    }
    let (lo, hi) = trim_bounds(vc.as_slice());
    let n = hi - lo;
    match sens_type {
        ColumnSensitiveType::IdCard => {
            let t = value.substring_char(lo, hi);
            let bl = t.as_bytes().len();
            if bl >= 10 {
                t.is_char_boundary(6) && t.is_char_boundary(bl - 4)
            } else {
                true
            }
        },
        ColumnSensitiveType::BankCard => {
            let t = value.substring_char(lo, hi);
            let bl = t.as_bytes().len();
            if bl >= 8 {
                t.is_char_boundary(4) && t.is_char_boundary(bl - 4)
            } else {
                true
            }
        },
        ColumnSensitiveType::Email => {
            let mut k: usize = 0;
            while k < vc.len() && vc[k] != '@'
                invariant
                    k <= vc@.len(),
                    forall|m: int| 0 <= m < k ==> vc@[m] != '@',
                decreases vc.len() - k,
            {
                k += 1;
            }
            proof {
                lemma_at_index(vc@, k as int);
            }
            if k == vc.len() {
                true
            } else {
                let local = value.substring_char(0, k);
                assert(local@ == value@.take(k as int));
                if local.as_bytes().len() >= 3 {
                    char_utf8_len(vc[0]) == 1
                } else {
                    true
                }
            }
        },
        _ => true,
    }
}

/// Amounts, dates, projects and unrecognised columns are never masked, nor are
/// empty cells and `-`, whatever the column.
pub proof fn lemma_kept_values(value: Seq<char>, t: ColumnSensitiveType)
    ensures
        (t == ColumnSensitiveType::Money || t == ColumnSensitiveType::Date || t
            == ColumnSensitiveType::Project || t == ColumnSensitiveType::Other) ==> desensitized(
            value,
            t,
        ) == value,
        (value.len() == 0 || value == seq!['-']) ==> desensitized(value, t) == value,
{
}

/// The kinds recognised for the columns, in order.
pub open spec fn column_kinds(columns: Seq<ColumnInfo>) -> Seq<ColumnSensitiveType> {
    columns.map_values(|c: ColumnInfo| column_kind(c.name@))
}

/// A row with each cell under a recognised column masked by its kind; cells past
/// the last column stay as they are.
pub open spec fn desensitized_row(row: Seq<Seq<char>>, kinds: Seq<ColumnSensitiveType>) -> Seq<Seq<char>> {
    Seq::new(
        row.len(),
        |j: int|
            if j < kinds.len() {
                desensitized(row[j], kinds[j])
            } else {
                row[j]
            },
    )
}

/// Whether every cell under a recognised column can be masked.
pub open spec fn rows_supported(rows: Seq<Seq<Seq<char>>>, kinds: Seq<ColumnSensitiveType>) -> bool {
    forall|i: int, j: int|
        0 <= i < rows.len() && 0 <= j < rows[i].len() && j < kinds.len() ==> value_supported(
            #[trigger] rows[i][j],
            kinds[j],
        )
}

/// The masked rows of a table.
pub open spec fn desensitized_rows(rows: Seq<Seq<Seq<char>>>, kinds: Seq<ColumnSensitiveType>) -> Seq<Seq<Seq<char>>> {
    rows.map_values(|r: Seq<Seq<char>>| desensitized_row(r, kinds))
}

/// Masks every row by the kinds recognised for the columns, and returns the
/// masked rows with the column matches.
pub fn desensitize_data(columns: &[ColumnInfo], rows: &[Vec<String>]) -> (r: (
    Vec<Vec<String>>,
    Vec<MatchedColumn>,
))
    requires
        rows_supported(rows_view(rows@), column_kinds(columns@)),
    ensures
        matches_columns(r.1@, columns@),
        rows_view(r.0@) == desensitized_rows(rows_view(rows@), column_kinds(columns@)),
{
    let matched = match_columns(columns);
    let ghost kinds = column_kinds(columns@);
    assert forall|j: int| 0 <= j < matched@.len() implies #[trigger] matched@[j].sensitive_type
        == kinds[j] by {
        assert(matched_view(matched@[j]).1 == column_kind(columns@[j].name@));
    }
    let mut result: Vec<Vec<String>> = Vec::new();
    for i in 0..rows.len()
        invariant
            matches_columns(matched@, columns@),
            kinds == column_kinds(columns@),
            forall|j: int| 0 <= j < matched@.len() ==> #[trigger] matched@[j].sensitive_type == kinds[j],
            rows_supported(rows_view(rows@), kinds),
            rows_view(result@) == desensitized_rows(rows_view(rows@), kinds).take(i as int),
    {
        let row = &rows[i];
        let ghost rv = strs(row@);
        assert(rows_view(rows@)[i as int] == rv);
        let mut new_row: Vec<String> = Vec::new();
        for j in 0..row.len()
            invariant
                matches_columns(matched@, columns@),
                kinds == column_kinds(columns@),
                forall|j: int| 0 <= j < matched@.len() ==> #[trigger] matched@[j].sensitive_type == kinds[j],
                rows_supported(rows_view(rows@), kinds),
                rows_view(rows@)[i as int] == rv,
                rv == strs(row@),
                0 <= i < rows@.len(),
                strs(new_row@) == desensitized_row(rv, kinds).take(j as int),
        {
            let ghost before = strs(new_row@);
            if j < matched.len() {
                assert(value_supported(rows_view(rows@)[i as int][j as int], kinds[j as int]));
                new_row.push(desensitize_value(row[j].as_str(), &matched[j].sensitive_type));
            } else {
                new_row.push(row[j].clone());
            }
            assert(strs(new_row@) =~= before.push(desensitized_row(rv, kinds)[j as int]));
            assert(desensitized_row(rv, kinds).take(j + 1) =~= desensitized_row(rv, kinds).take(
                j as int,
            ).push(desensitized_row(rv, kinds)[j as int]));
        }
        assert(desensitized_row(rv, kinds).take(row@.len() as int) =~= desensitized_row(rv, kinds));
        let ghost before = rows_view(result@);
        result.push(new_row);
        assert(rows_view(result@) =~= before.push(desensitized_row(rv, kinds)));
        assert(desensitized_rows(rows_view(rows@), kinds).take(i + 1) =~= desensitized_rows(
            rows_view(rows@),
            kinds,
        ).take(i as int).push(desensitized_row(rv, kinds)));
    }
    assert(desensitized_rows(rows_view(rows@), kinds).take(rows@.len() as int) =~= desensitized_rows(
        rows_view(rows@),
        kinds,
    ));
    (result, matched)
}

/// `desensitize_data` where every cell can be masked, `None` where some cell would
/// be cut inside a character.
pub fn try_desensitize_data(columns: &[ColumnInfo], rows: &[Vec<String>]) -> (r: Option<
    (Vec<Vec<String>>, Vec<MatchedColumn>),
>)
    ensures
        r is Some <==> rows_supported(rows_view(rows@), column_kinds(columns@)),
        r matches Some(p) ==> matches_columns(p.1@, columns@) && rows_view(p.0@)
            == desensitized_rows(rows_view(rows@), column_kinds(columns@)),
{
    let matched = match_columns(columns);
    let ghost kinds = column_kinds(columns@);
    assert forall|j: int| 0 <= j < matched@.len() implies #[trigger] matched@[j].sensitive_type
        == kinds[j] by {
        assert(matched_view(matched@[j]).1 == column_kind(columns@[j].name@));
    }
    for i in 0..rows.len()
        invariant
            matches_columns(matched@, columns@),
            kinds == column_kinds(columns@),
            forall|j: int| 0 <= j < matched@.len() ==> #[trigger] matched@[j].sensitive_type == kinds[j],
            forall|a: int, b: int|
                0 <= a < i && 0 <= b < rows_view(rows@)[a].len() && b < kinds.len()
                    ==> value_supported(#[trigger] rows_view(rows@)[a][b], kinds[b]),
    {
        let row = &rows[i];
        assert(rows_view(rows@)[i as int] == strs(row@));
        for j in 0..row.len()
            invariant
                matches_columns(matched@, columns@),
                kinds == column_kinds(columns@),
                forall|j: int| 0 <= j < matched@.len() ==> #[trigger] matched@[j].sensitive_type == kinds[j],
                0 <= i < rows@.len(),
                rows_view(rows@)[i as int] == strs(row@),
                forall|a: int, b: int|
                    0 <= a < i && 0 <= b < rows_view(rows@)[a].len() && b < kinds.len()
                        ==> value_supported(#[trigger] rows_view(rows@)[a][b], kinds[b]),
                forall|b: int|
                    0 <= b < j && b < kinds.len() ==> value_supported(
                        #[trigger] rows_view(rows@)[i as int][b],
                        kinds[b],
                    ),
        {
            if j < matched.len() {
                if !value_is_supported(row[j].as_str(), &matched[j].sensitive_type) {
                    assert(!value_supported(rows_view(rows@)[i as int][j as int], kinds[j as int]));
                    return None;
                }
            }
        }
    }
    Some(desensitize_data(columns, rows))
}

} // verus!
