//! Sensitive-data scanner: entity kinds, the built-in regular expressions, the
//! custom dictionary search, and the merge of overlapping findings.
use vstd::prelude::*;
use vstd::utf8::*;
use vstd::string::*;

verus! {

/// How an entity is treated when text is masked.
#[derive(Debug, Clone, Copy, PartialEq, Eq, Hash, Structural)]
pub enum SensitiveLevel {
    /// Replaced by a placeholder (the default).
    Mask,
    /// Kept as it is; only its kind is recorded.
    Keep,
}

/// The kind of a sensitive entity.
#[derive(Debug, Clone, PartialEq, Eq, Hash)]
pub enum EntityType {
    Person,
    Org,
    Phone,
    IdCard,
    BankCard,
    Email,
    Address,
    Region,
    GovDept,
    Url,
    Ip,
    Money,
    Project,
    Custom(String),
}

/// The placeholder prefix of each kind.
pub open spec fn prefix_of(e: EntityType) -> Seq<char> {
    match e {
        EntityType::Person => "PERSON"@,
        EntityType::Org => "ORG"@,
        EntityType::Phone => "PHONE"@,
        EntityType::IdCard => "ID_CARD"@,
        EntityType::BankCard => "BANK_CARD"@,
        EntityType::Email => "EMAIL"@,
        EntityType::Address => "ADDR"@,
        EntityType::Region => "REGION"@,
        EntityType::GovDept => "GOVDEPT"@,
        EntityType::Url => "URL"@,
        EntityType::Ip => "IP"@,
        EntityType::Money => "MONEY"@,
        EntityType::Project => "PROJECT"@,
        EntityType::Custom(s) => s@,
    }
}

/// The human-readable label of each kind.
pub open spec fn label_of(e: EntityType) -> Seq<char> {
    match e {
        EntityType::Person => "人名"@,
        EntityType::Org => "公司/组织"@,
        EntityType::Phone => "手机号"@,
        EntityType::IdCard => "身份证号"@,
        EntityType::BankCard => "银行卡号"@,
        EntityType::Email => "邮箱"@,
        EntityType::Address => "地址"@,
        EntityType::Region => "地区"@,
        EntityType::GovDept => "党政机关部门"@,
        EntityType::Url => "URL"@,
        EntityType::Ip => "IP地址"@,
        EntityType::Money => "金额"@,
        EntityType::Project => "项目名"@,
        EntityType::Custom(s) => s@,
    }
}

/// Amounts, project names and IP addresses are kept; everything else is masked.
pub open spec fn level_of(e: EntityType) -> SensitiveLevel {
    match e {
        EntityType::Money | EntityType::Project | EntityType::Ip => SensitiveLevel::Keep,
        _ => SensitiveLevel::Mask,
    }
}

impl EntityType {
    pub fn prefix(&self) -> (r: &str)
        ensures
            r@ == prefix_of(*self),
    {
        match self {
            EntityType::Person => "PERSON",
            EntityType::Org => "ORG",
            EntityType::Phone => "PHONE",
            EntityType::IdCard => "ID_CARD",
            EntityType::BankCard => "BANK_CARD",
            EntityType::Email => "EMAIL",
            EntityType::Address => "ADDR",
            EntityType::Region => "REGION",
            EntityType::GovDept => "GOVDEPT",
            EntityType::Url => "URL",
            EntityType::Ip => "IP",
            EntityType::Money => "MONEY",
            EntityType::Project => "PROJECT",
            EntityType::Custom(s) => s.as_str(),
        }
    }

    pub fn label(&self) -> (r: &str)
        ensures
            r@ == label_of(*self),
    {
        match self {
            EntityType::Person => "人名",
            EntityType::Org => "公司/组织",
            EntityType::Phone => "手机号",
            EntityType::IdCard => "身份证号",
            EntityType::BankCard => "银行卡号",
            EntityType::Email => "邮箱",
            EntityType::Address => "地址",
            EntityType::Region => "地区",
            EntityType::GovDept => "党政机关部门",
            EntityType::Url => "URL",
            EntityType::Ip => "IP地址",
            EntityType::Money => "金额",
            EntityType::Project => "项目名",
            EntityType::Custom(s) => s.as_str(),
        }
    }

    /// The masking level of this kind.
    pub fn level(&self) -> (r: SensitiveLevel)
        ensures
            r == level_of(*self),
    {
        match self {
            EntityType::Money | EntityType::Project | EntityType::Ip => SensitiveLevel::Keep,
            _ => SensitiveLevel::Mask,
        }
    }

    /// A copy of this kind.
    pub fn duplicate(&self) -> (r: EntityType)
        ensures
            r == *self,
    {
        match self {
            EntityType::Person => EntityType::Person,
            EntityType::Org => EntityType::Org,
            EntityType::Phone => EntityType::Phone,
            EntityType::IdCard => EntityType::IdCard,
            EntityType::BankCard => EntityType::BankCard,
            EntityType::Email => EntityType::Email,
            EntityType::Address => EntityType::Address,
            EntityType::Region => EntityType::Region,
            EntityType::GovDept => EntityType::GovDept,
            EntityType::Url => EntityType::Url,
            EntityType::Ip => EntityType::Ip,
            EntityType::Money => EntityType::Money,
            EntityType::Project => EntityType::Project,
            EntityType::Custom(s) => EntityType::Custom(s.clone()),
        }
    }
}

/// One finding: the matched text, its byte range in the scanned text, and its kind.
#[derive(Debug, Clone)]
pub struct MatchResult {
    pub original: String,
    pub start: usize,
    pub end: usize,
    pub entity_type: EntityType,
}

/// A finding as a mathematical value: matched characters, byte range, kind.
pub type MatchView = (Seq<char>, int, int, EntityType);

impl View for MatchResult {
    type V = MatchView;

    open spec fn view(&self) -> MatchView {
        (self.original@, self.start as int, self.end as int, self.entity_type)
    }
}

/// The findings held by a vector.
pub open spec fn match_views(v: Seq<MatchResult>) -> Seq<MatchView> {
    v.map_values(|m: MatchResult| m@)
}

impl MatchResult {
    /// A copy of this finding.
    pub fn duplicate(&self) -> (r: MatchResult)
        ensures
            r@ == self@,
    {
        MatchResult {
            original: self.original.clone(),
            start: self.start,
            end: self.end,
            entity_type: self.entity_type.duplicate(),
        }
    }
}

/// The length in bytes of the UTF-8 encoding of `s`, which is what `String::len` returns.
pub open spec fn byte_len(s: Seq<char>) -> nat {
    encode_utf8(s).len()
}

// ---------------------------------------------------------------------------
// Regular expressions
// ---------------------------------------------------------------------------

/// Whether the `regex` crate accepts `pattern` (Unicode mode) as a regular expression.
pub uninterp spec fn regex_accepts(pattern: Seq<char>) -> bool;

/// A span of text: (start byte, end byte, the text between them).
pub type Span = (usize, usize, Seq<char>);

/// The successive non-overlapping leftmost-first matches of `pattern` in `text`,
/// in the order `captures_iter` yields them: each the whole match and, where the
/// pattern's first capture group took part in it, that group's span.
pub uninterp spec fn regex_matches(pattern: Seq<char>, text: Seq<char>) -> Seq<(Span, Option<Span>)>;

/// A span of the exec world as a mathematical span.
pub open spec fn span_view(t: (usize, usize, String)) -> Span {
    (t.0, t.1, t.2@)
}

/// The matches held by a vector.
pub open spec fn capture_views(v: Seq<((usize, usize, String), Option<(usize, usize, String)>)>) -> Seq<(Span, Option<Span>)> {
    v.map_values(|c: ((usize, usize, String), Option<(usize, usize, String)>)| (
        span_view(c.0),
        match c.1 {
            Some(g) => Some(span_view(g)),
            None => None,
        },
    ))
}

/// Whether a span lies in the text whose bytes are `b`.
pub open spec fn span_in(t: (usize, usize, String), b: Seq<u8>) -> bool {
    t.0 <= t.1 && t.1 <= b.len() && encode_utf8(t.2@) == b.subrange(t.0 as int, t.1 as int)
}

/// What a rule reports of a match: its first capture group where the pattern has
/// one and it took part, else the whole match.
pub open spec fn reported(m: (Span, Option<Span>)) -> Span {
    match m.1 {
        Some(g) => g,
        None => m.0,
    }
}

/// Calls `regex::RegexBuilder::build` with Unicode on. The contract claims only
/// that the outcome is a function of the pattern; which patterns compile is not stated.
#[verifier::external_body]
fn regex_compiles(pattern: &str) -> (r: bool)
    ensures
        r == regex_accepts(pattern@),
{
    regex::RegexBuilder::new(pattern).unicode(true).build().is_ok()
}

/// Calls `regex::Regex::captures_iter` on the expression built from `pattern`
/// and gives, for each match, the span of the whole match and that of the first
/// capture group where it took part. The contract names the result (a function
/// of pattern and text) and states what the crate documents of every span:
/// `start <= end <= text.len()`, and its text is the haystack between those byte
/// offsets. Which matches the expression finds is not stated.
#[verifier::external_body]
fn regex_find_all(pattern: &str, text: &str) -> (r: Vec<((usize, usize, String), Option<(usize, usize, String)>)>)
    requires
        regex_accepts(pattern@),
    ensures
        capture_views(r@) == regex_matches(pattern@, text@),
        forall|i: int|
            0 <= i < r@.len() ==> span_in(#[trigger] r@[i].0, text.spec_bytes()) && (r@[i].1 matches Some(g)
                ==> span_in(g, text.spec_bytes())),
{
    let re = regex::RegexBuilder::new(pattern).unicode(true).build().unwrap();
    re.captures_iter(text).map(|c| {
        let whole = c.get(0).unwrap();
        let group = c.get(1).map(|g| (g.start(), g.end(), g.as_str().to_string()));
        ((whole.start(), whole.end(), whole.as_str().to_string()), group)
    }).collect()
}

/// Whether a finding lies in the text whose bytes are `b`: its range is within
/// `b`, and its text is the text between those byte offsets.
pub open spec fn lies_in(m: MatchView, b: Seq<u8>) -> bool {
    0 <= m.1 <= m.2 <= b.len() && encode_utf8(m.0) == b.subrange(m.1, m.2)
}

/// Whether every finding lies in the text whose bytes are `b`.
pub open spec fn all_lie_in(s: Seq<MatchView>, b: Seq<u8>) -> bool {
    forall|i: int| 0 <= i < s.len() ==> lies_in(#[trigger] s[i], b)
}

/// The built-in rules, in the order they are tried: a kind and a regular expression.
///
/// The first department rule takes at most ten characters before its suffix, so
/// that a department named after a place does not swallow the region before it
/// ("河北省石家庄市新华区财政局" keeps its region); a department name with more
/// than ten characters before the suffix is found as its last ten and the suffix.
/// The rule for a name right after a contact word, without a colon, reports only
/// the name (its capture group), so that every occurrence of the name is masked
/// with one placeholder.
pub open spec fn builtin_rules() -> Seq<(EntityType, Seq<char>)> {
    seq![
        (EntityType::Phone, r"1[3-9]\d{9}"@),
        (EntityType::Phone, r"0\d{2,3}[-\s]?\d{7,8}"@),
        (EntityType::Phone, r"(?:\+86)[-\s]?1[3-9]\d{9}"@),
        (EntityType::IdCard, r"[1-9]\d{5}(?:19|20)\d{2}(?:0[1-9]|1[0-2])(?:0[1-9]|[12]\d|3[01])\d{3}[\dXx]"@),
        (EntityType::IdCard, r"[1-9]\d{7}(?:0[1-9]|1[0-2])(?:0[1-9]|[12]\d|3[01])\d{3}"@),
        (EntityType::BankCard, r"[34569]\d{14,18}"@),
        (EntityType::Email, r"[A-Za-z0-9._%+-]+@[A-Za-z0-9.-]+\.[A-Za-z]{2,}"@),
        (EntityType::Ip, r"\d{1,3}\.\d{1,3}\.\d{1,3}\.\d{1,3}"@),
        (EntityType::Url, r"https?://[^\s,，。；;）\)\]】}]+"@),
        (EntityType::Money, r"[¥￥]\s*[\d,]+(?:\.\d+)?(?:\s*[万亿])?"@),
        (EntityType::Money, r"\d+(?:,\d{3})*(?:\.\d+)?\s*(?:元|美元|欧元|英镑|日元|万|亿)"@),
        (EntityType::Money, r"[零壹贰叁肆伍陆柒捌玖拾佰仟万亿]+[元整]"@),
        (EntityType::Person, r"(?:姓名|名字|联系人|负责人|客户名)[：:]\s*[\u4e00-\u9fff]{2,4}"@),
        (EntityType::Person, r"(?:姓名|名字|联系人|负责人|客户名)([\u4e00-\u9fff]{2,3})(?:[^\u4e00-\u9fff]|$)"@),
        (EntityType::Person, r"叫[\u4e00-\u9fff]{2,4}"@),
        (EntityType::Person, r"[\u4e00-\u9fff]{2,4}的电话"@),
        (EntityType::Address, r"(?:北京|天津|上海|重庆|河北|山西|辽宁|吉林|黑龙江|江苏|浙江|安徽|福建|江西|山东|河南|湖北|湖南|广东|海南|四川|贵州|云南|陕西|甘肃|青海|台湾|内蒙古|广西|西藏|宁夏|新疆|香港|澳门)[\u4e00-\u9fff]{2,}(?:省|市|区|县|镇|乡|街道|路|街|巷|大道)[\u4e00-\u9fff\d\-]{0,}(?:号|号院|号楼|室|单元)"@),
        (EntityType::Region, r"(?:北京|天津|上海|重庆|河北|山西|辽宁|吉林|黑龙江|江苏|浙江|安徽|福建|江西|山东|河南|湖北|湖南|广东|海南|四川|贵州|云南|陕西|甘肃|青海|台湾|内蒙古|广西|西藏|宁夏|新疆|香港|澳门)(?:省|市|自治区|特别行政区)"@),
        (EntityType::Region, r"[\u4e00-\u9fff]{2,}(?:市|区|县|镇|乡|街道)(?:办事处)?"@),
        (EntityType::GovDept, r"[\u4e00-\u9fff]{2,10}(?:局|委|办|部|厅|处|中心|所|站|院|队|会|社|集团)"@),
        (EntityType::GovDept, r"(?:中共|国务院|中央|国家|省|市|县|区)[\u4e00-\u9fff]{1,}(?:委员会|办公室|管理局|指挥部|领导小组|工作组)"@),
        (EntityType::Org, r"(?:供应商|客户|甲方|乙方|承包方|采购方|委托方|投标方)[：:]\s*[\u4e00-\u9fff]{2,20}(?:公司|企业|集团|厂)?"@),
        (EntityType::Org, r"[\u4e00-\u9fff]{2,10}(?:有限公司|有限责任公司|股份有限公司|集团有限公司)"@),
        (EntityType::Org, r"[\u4e00-\u9fff]{4,8}(?:公司|集团|企业)"@),
        (EntityType::Org, r"(?:单位|公司名称|企业名称|组织名称)[：:]\s*[\u4e00-\u9fff]{2,20}"@),
        (EntityType::Project, r"项目[：:]\s*[\u4e00-\u9fff]{2,10}"@),
        (EntityType::Project, r"[\u4e00-\u9fff]{2,8}(?:计划|方案|工程|系统)(?:\s+v?[\d.]+)?"@),
    ]
}

/// The rules of `rules` whose expression compiles, in order.
pub open spec fn accepted_rules(rules: Seq<(EntityType, Seq<char>)>) -> Seq<(EntityType, Seq<char>)>
    decreases rules.len(),
{
    if rules.len() == 0 {
        seq![]
    } else if regex_accepts(rules.last().1) {
        accepted_rules(rules.drop_last()).push(rules.last())
    } else {
        accepted_rules(rules.drop_last())
    }
}

/// The findings of the rules, rule by rule, each rule's matches in text order.
pub open spec fn rule_hits(rules: Seq<(EntityType, Seq<char>)>, text: Seq<char>) -> Seq<MatchView>
    decreases rules.len(),
{
    if rules.len() == 0 {
        seq![]
    } else {
        rule_hits(rules.drop_last(), text) + regex_matches(rules.last().1, text).map_values(
            |m: (Span, Option<Span>)| (reported(m).2, reported(m).0 as int, reported(m).1 as int, rules.last().0),
        )
    }
}

/// Whether a byte starts the UTF-8 encoding of a character in U+4000..U+9FFF,
/// the range that holds the common CJK ideographs.
pub open spec fn is_cjk_lead(b: u8) -> bool {
    0xE4 <= b && b <= 0xE9
}

/// Whether `t` occurs in `b` at byte `p`.
pub open spec fn bytes_at(b: Seq<u8>, t: Seq<u8>, p: int) -> bool {
    0 <= p && p + t.len() <= b.len() && b.subrange(p, p + t.len()) == t
}

/// Whether a byte continues the UTF-8 encoding of a character.
pub open spec fn is_continuation(b: u8) -> bool {
    0x80 <= b && b < 0xC0
}

/// The first byte of the character that ends just before byte `p`.
pub open spec fn char_start_before(b: Seq<u8>, p: int) -> int
    decreases p,
{
    if p <= 1 {
        0
    } else if is_continuation(b[p - 1]) {
        char_start_before(b, p - 1)
    } else {
        p - 1
    }
}

/// Whether neither the character just before `start..end` nor the one just after
/// it is a CJK character: a term found there is not part of a longer Chinese word.
pub open spec fn has_boundaries(b: Seq<u8>, start: int, end: int) -> bool {
    &&& (start == 0 || !is_cjk_lead(b[char_start_before(b, start)]))
    &&& (end >= b.len() || !is_cjk_lead(b[end]))
}

/// The positions, at `p` or later, of the non-overlapping occurrences of the
/// non-empty `t` in `b` found from the left, kept where `has_boundaries` holds.
pub open spec fn term_positions(b: Seq<u8>, t: Seq<u8>, p: int) -> Seq<int>
    decreases b.len() - p,
{
    if t.len() == 0 || p < 0 || p + t.len() > b.len() {
        seq![]
    } else if bytes_at(b, t, p) {
        (if has_boundaries(b, p, p + t.len()) {
            seq![p]
        } else {
            seq![]
        }) + term_positions(b, t, p + t.len())
    } else {
        term_positions(b, t, p + 1)
    }
}

/// The findings of one dictionary term.
pub open spec fn term_hits(text: Seq<char>, term: Seq<char>, label: String) -> Seq<MatchView> {
    term_positions(encode_utf8(text), encode_utf8(term), 0).map_values(
        |p: int| (term, p, p + encode_utf8(term).len(), EntityType::Custom(label)),
    )
}

/// The findings of a list of terms filed under one label.
pub open spec fn terms_hits(text: Seq<char>, terms: Seq<Seq<char>>, label: String) -> Seq<MatchView>
    decreases terms.len(),
{
    if terms.len() == 0 {
        seq![]
    } else {
        terms_hits(text, terms.drop_last(), label) + term_hits(text, terms.last(), label)
    }
}

/// The findings of a whole dictionary, entry by entry.
pub open spec fn dict_hits(text: Seq<char>, dict: Seq<(String, Seq<Seq<char>>)>) -> Seq<MatchView>
    decreases dict.len(),
{
    if dict.len() == 0 {
        seq![]
    } else {
        dict_hits(text, dict.drop_last()) + terms_hits(text, dict.last().1, dict.last().0)
    }
}

/// `m` placed into `sorted` after every finding that starts no later than it.
pub open spec fn insert_by_start(sorted: Seq<MatchView>, m: MatchView) -> Seq<MatchView>
    decreases sorted.len(),
{
    if sorted.len() == 0 {
        seq![m]
    } else if sorted.last().1 <= m.1 {
        sorted.push(m)
    } else {
        insert_by_start(sorted.drop_last(), m).push(sorted.last())
    }
}

/// The findings ordered by start, findings with equal starts kept in their order:
/// the stable sort that `sort_by_key` performs.
pub open spec fn sort_by_start(s: Seq<MatchView>) -> Seq<MatchView>
    decreases s.len(),
{
    if s.len() == 0 {
        seq![]
    } else {
        insert_by_start(sort_by_start(s.drop_last()), s.last())
    }
}

/// Whether the findings are ordered by start.
pub open spec fn sorted_by_start(s: Seq<MatchView>) -> bool {
    forall|i: int, j: int| 0 <= i <= j < s.len() ==> s[i].1 <= s[j].1
}

/// Merges, from `cur` on, every finding that starts before the end of the kept one
/// into it, keeping the one with the longer text (the earlier one on a tie).
pub open spec fn absorb(cur: MatchView, rest: Seq<MatchView>) -> Seq<MatchView>
    decreases rest.len(),
{
    if rest.len() == 0 {
        seq![cur]
    } else if rest[0].1 < cur.2 {
        absorb(
            if byte_len(rest[0].0) > byte_len(cur.0) {
                rest[0]
            } else {
                cur
            },
            rest.drop_first(),
        )
    } else {
        seq![cur] + absorb(rest[0], rest.drop_first())
    }
}

/// Sorted findings with overlapping ones merged.
pub open spec fn merge_overlapping(s: Seq<MatchView>) -> Seq<MatchView> {
    if s.len() == 0 {
        seq![]
    } else {
        absorb(s[0], s.drop_first())
    }
}

/// What `Scanner::scan` returns for the given rules, dictionary and text.
pub open spec fn scan_result(
    rules: Seq<(EntityType, Seq<char>)>,
    dict: Seq<(String, Seq<Seq<char>>)>,
    text: Seq<char>,
) -> Seq<MatchView> {
    merge_overlapping(sort_by_start(rule_hits(rules, text) + dict_hits(text, dict)))
}

/// Whether no two entries of a dictionary share a label.
pub open spec fn labels_distinct(dict: Seq<(String, Vec<String>)>) -> bool {
    forall|i: int, j: int| 0 <= i < j < dict.len() ==> dict[i].0@ != dict[j].0@
}

/// The scanner: the built-in rules that compiled, and a custom dictionary of
/// (label, terms) entries.
pub struct Scanner {
    patterns: Vec<(EntityType, String)>,
    custom_dict: Vec<(String, Vec<String>)>,
}

impl Scanner {
    /// The rules in use.
    pub closed spec fn rules(&self) -> Seq<(EntityType, Seq<char>)> {
        self.patterns@.map_values(|r: (EntityType, String)| (r.0, r.1@))
    }

    /// The custom dictionary in use.
    pub closed spec fn dict(&self) -> Seq<(String, Seq<Seq<char>>)> {
        self.custom_dict@.map_values(
            |e: (String, Vec<String>)| (e.0, e.1@.map_values(|t: String| t@)),
        )
    }

    #[verifier::type_invariant]
    closed spec fn inv(&self) -> bool {
        &&& forall|i: int| 0 <= i < self.patterns@.len() ==> regex_accepts(#[trigger] self.patterns@[i].1@)
        &&& forall|i: int| 0 <= i < self.patterns@.len() ==> !((#[trigger] self.patterns@[i]).0 is Custom)
        &&& labels_distinct(self.custom_dict@)
    }
}

/// Appends the `k`-th built-in rule to `compiled` if its expression compiles.
fn add_rule(
    compiled: &mut Vec<(EntityType, String)>,
    et: EntityType,
    pattern: &str,
    Ghost(k): Ghost<int>,
)
    requires
        0 <= k < builtin_rules().len(),
        builtin_rules()[k] == (et, pattern@),
        old(compiled)@.map_values(|r: (EntityType, String)| (r.0, r.1@)) == accepted_rules(
            builtin_rules().take(k),
        ),
        forall|i: int|
            0 <= i < old(compiled)@.len() ==> regex_accepts(#[trigger] old(compiled)@[i].1@),
        forall|i: int| 0 <= i < old(compiled)@.len() ==> !((#[trigger] old(compiled)@[i]).0 is Custom),
        !(et is Custom),
    ensures
        forall|i: int| 0 <= i < final(compiled)@.len() ==> !((#[trigger] final(compiled)@[i]).0 is Custom),
        final(compiled)@.map_values(|r: (EntityType, String)| (r.0, r.1@)) == accepted_rules(
            builtin_rules().take(k + 1),
        ),
        forall|i: int|
            0 <= i < final(compiled)@.len() ==> regex_accepts(#[trigger] final(compiled)@[i].1@),
{
    let ghost t = builtin_rules().take(k + 1);
    assert(t.drop_last() == builtin_rules().take(k));
    assert(t.last() == builtin_rules()[k]);
    if regex_compiles(pattern) {
        let ghost old_view = compiled@.map_values(|r: (EntityType, String)| (r.0, r.1@));
        compiled.push((et, pattern.to_owned()));
        assert(compiled@.map_values(|r: (EntityType, String)| (r.0, r.1@)) == old_view.push(
            (et, pattern@),
        ));
    }
}

/// The built-in rules whose expressions compile, in order.
fn build_builtin_patterns() -> (r: Vec<(EntityType, String)>)
    ensures
        r@.map_values(|r: (EntityType, String)| (r.0, r.1@)) == accepted_rules(builtin_rules()),
        forall|i: int| 0 <= i < r@.len() ==> regex_accepts(#[trigger] r@[i].1@),
        forall|i: int| 0 <= i < r@.len() ==> !((#[trigger] r@[i]).0 is Custom),
{
    let mut compiled: Vec<(EntityType, String)> = Vec::new();
    assert(builtin_rules().take(0) == Seq::<(EntityType, Seq<char>)>::empty());
    assert(compiled@.map_values(|r: (EntityType, String)| (r.0, r.1@)) == Seq::<
        (EntityType, Seq<char>),
    >::empty());
    add_rule(&mut compiled, EntityType::Phone, r"1[3-9]\d{9}", Ghost(0));
    add_rule(&mut compiled, EntityType::Phone, r"0\d{2,3}[-\s]?\d{7,8}", Ghost(1));
    add_rule(&mut compiled, EntityType::Phone, r"(?:\+86)[-\s]?1[3-9]\d{9}", Ghost(2));
    add_rule(&mut compiled, EntityType::IdCard, r"[1-9]\d{5}(?:19|20)\d{2}(?:0[1-9]|1[0-2])(?:0[1-9]|[12]\d|3[01])\d{3}[\dXx]", Ghost(3));
    add_rule(&mut compiled, EntityType::IdCard, r"[1-9]\d{7}(?:0[1-9]|1[0-2])(?:0[1-9]|[12]\d|3[01])\d{3}", Ghost(4));
    add_rule(&mut compiled, EntityType::BankCard, r"[34569]\d{14,18}", Ghost(5));
    add_rule(&mut compiled, EntityType::Email, r"[A-Za-z0-9._%+-]+@[A-Za-z0-9.-]+\.[A-Za-z]{2,}", Ghost(6));
    add_rule(&mut compiled, EntityType::Ip, r"\d{1,3}\.\d{1,3}\.\d{1,3}\.\d{1,3}", Ghost(7));
    add_rule(&mut compiled, EntityType::Url, r"https?://[^\s,，。；;）\)\]】}]+", Ghost(8));
    add_rule(&mut compiled, EntityType::Money, r"[¥￥]\s*[\d,]+(?:\.\d+)?(?:\s*[万亿])?", Ghost(9));
    add_rule(&mut compiled, EntityType::Money, r"\d+(?:,\d{3})*(?:\.\d+)?\s*(?:元|美元|欧元|英镑|日元|万|亿)", Ghost(10));
    add_rule(&mut compiled, EntityType::Money, r"[零壹贰叁肆伍陆柒捌玖拾佰仟万亿]+[元整]", Ghost(11));
    add_rule(&mut compiled, EntityType::Person, r"(?:姓名|名字|联系人|负责人|客户名)[：:]\s*[\u4e00-\u9fff]{2,4}", Ghost(12));
    add_rule(&mut compiled, EntityType::Person, r"(?:姓名|名字|联系人|负责人|客户名)([\u4e00-\u9fff]{2,3})(?:[^\u4e00-\u9fff]|$)", Ghost(13));
    add_rule(&mut compiled, EntityType::Person, r"叫[\u4e00-\u9fff]{2,4}", Ghost(14));
    add_rule(&mut compiled, EntityType::Person, r"[\u4e00-\u9fff]{2,4}的电话", Ghost(15));
    add_rule(&mut compiled, EntityType::Address, r"(?:北京|天津|上海|重庆|河北|山西|辽宁|吉林|黑龙江|江苏|浙江|安徽|福建|江西|山东|河南|湖北|湖南|广东|海南|四川|贵州|云南|陕西|甘肃|青海|台湾|内蒙古|广西|西藏|宁夏|新疆|香港|澳门)[\u4e00-\u9fff]{2,}(?:省|市|区|县|镇|乡|街道|路|街|巷|大道)[\u4e00-\u9fff\d\-]{0,}(?:号|号院|号楼|室|单元)", Ghost(16));
    add_rule(&mut compiled, EntityType::Region, r"(?:北京|天津|上海|重庆|河北|山西|辽宁|吉林|黑龙江|江苏|浙江|安徽|福建|江西|山东|河南|湖北|湖南|广东|海南|四川|贵州|云南|陕西|甘肃|青海|台湾|内蒙古|广西|西藏|宁夏|新疆|香港|澳门)(?:省|市|自治区|特别行政区)", Ghost(17));
    add_rule(&mut compiled, EntityType::Region, r"[\u4e00-\u9fff]{2,}(?:市|区|县|镇|乡|街道)(?:办事处)?", Ghost(18));
    add_rule(&mut compiled, EntityType::GovDept, r"[\u4e00-\u9fff]{2,10}(?:局|委|办|部|厅|处|中心|所|站|院|队|会|社|集团)", Ghost(19));
    add_rule(&mut compiled, EntityType::GovDept, r"(?:中共|国务院|中央|国家|省|市|县|区)[\u4e00-\u9fff]{1,}(?:委员会|办公室|管理局|指挥部|领导小组|工作组)", Ghost(20));
    add_rule(&mut compiled, EntityType::Org, r"(?:供应商|客户|甲方|乙方|承包方|采购方|委托方|投标方)[：:]\s*[\u4e00-\u9fff]{2,20}(?:公司|企业|集团|厂)?", Ghost(21));
    add_rule(&mut compiled, EntityType::Org, r"[\u4e00-\u9fff]{2,10}(?:有限公司|有限责任公司|股份有限公司|集团有限公司)", Ghost(22));
    add_rule(&mut compiled, EntityType::Org, r"[\u4e00-\u9fff]{4,8}(?:公司|集团|企业)", Ghost(23));
    add_rule(&mut compiled, EntityType::Org, r"(?:单位|公司名称|企业名称|组织名称)[：:]\s*[\u4e00-\u9fff]{2,20}", Ghost(24));
    add_rule(&mut compiled, EntityType::Project, r"项目[：:]\s*[\u4e00-\u9fff]{2,10}", Ghost(25));
    add_rule(&mut compiled, EntityType::Project, r"[\u4e00-\u9fff]{2,8}(?:计划|方案|工程|系统)(?:\s+v?[\d.]+)?", Ghost(26));
    assert(builtin_rules().take(27) == builtin_rules());
    compiled
}

/// The findings of every rule, rule by rule.
fn collect_rule_hits(patterns: &Vec<(EntityType, String)>, text: &str) -> (r: Vec<MatchResult>)
    requires
        forall|i: int| 0 <= i < patterns@.len() ==> regex_accepts(#[trigger] patterns@[i].1@),
    ensures
        match_views(r@) == rule_hits(
            patterns@.map_values(|r: (EntityType, String)| (r.0, r.1@)),
            text@,
        ),
        all_lie_in(match_views(r@), encode_utf8(text@)),
{
    let ghost rules = patterns@.map_values(|r: (EntityType, String)| (r.0, r.1@));
    let mut out: Vec<MatchResult> = Vec::new();
    let mut i: usize = 0;
    assert(rules.take(0) == Seq::<(EntityType, Seq<char>)>::empty());
    assert(match_views(out@) == Seq::<MatchView>::empty());
    while i < patterns.len()
        invariant
            i <= patterns@.len(),
            rules == patterns@.map_values(|r: (EntityType, String)| (r.0, r.1@)),
            forall|j: int| 0 <= j < patterns@.len() ==> regex_accepts(#[trigger] patterns@[j].1@),
            match_views(out@) == rule_hits(rules.take(i as int), text@),
            all_lie_in(match_views(out@), encode_utf8(text@)),
        decreases patterns.len() - i,
    {
        let rule = &patterns[i];
        let found = regex_find_all(rule.1.as_str(), text);
        let ghost base = match_views(out@);
        let ghost et = rule.0;
        let ghost ms = regex_matches(rule.1@, text@);
        let mut k: usize = 0;
        while k < found.len()
            invariant
                k <= found@.len(),
                capture_views(found@) == ms,
                match_views(out@) == base + ms.take(k as int).map_values(
                    |m: (Span, Option<Span>)| (reported(m).2, reported(m).0 as int, reported(m).1 as int, et),
                ),
                et == rule.0,
                forall|j: int|
                    0 <= j < found@.len() ==> span_in(#[trigger] found@[j].0, text.spec_bytes()) && (
                    found@[j].1 matches Some(g) ==> span_in(g, text.spec_bytes())),
                all_lie_in(match_views(out@), encode_utf8(text@)),
            decreases found.len() - k,
        {
            let m = &found[k];
            let ghost before = match_views(out@);
            assert(span_in(found@[k as int].0, text.spec_bytes()));
            let (start, end, original) = match &m.1 {
                Some(g) => (g.0, g.1, g.2.clone()),
                None => (m.0.0, m.0.1, m.0.2.clone()),
            };
            assert(ms[k as int] == capture_views(found@)[k as int]);
            assert(reported(ms[k as int]) == (start, end, original@));
            out.push(
                MatchResult {
                    original,
                    start,
                    end,
                    entity_type: rule.0.duplicate(),
                },
            );
            assert(match_views(out@) == before.push(match_views(out@).last()));
            assert(lies_in(match_views(out@).last(), encode_utf8(text@)));
            assert(ms.take(k + 1) == ms.take(k as int).push(ms[k as int]));
            assert(match_views(out@) == base + ms.take(k + 1).map_values(
                |m: (Span, Option<Span>)| (reported(m).2, reported(m).0 as int, reported(m).1 as int, et),
            ));
            k += 1;
        }
        assert(ms.take(found@.len() as int) == ms);
        assert(rules.take(i + 1).drop_last() == rules.take(i as int));
        assert(rules.take(i + 1).last() == (et, rule.1@));
        i += 1;
    }
    assert(rules.take(patterns@.len() as int) == rules);
    out
}

/// Whether `t` occurs in `b` at byte `p`.
fn bytes_at_exec(b: &[u8], t: &[u8], p: usize) -> (r: bool)
    ensures
        r == bytes_at(b@, t@, p as int),
{
    if p > b.len() || t.len() > b.len() - p {
        return false;
    }
    let mut k: usize = 0;
    while k < t.len()
        invariant
            p + t@.len() <= b@.len(),
            p + t.len() <= b.len(),
            k <= t@.len(),
            forall|m: int| 0 <= m < k ==> b@[p + m] == t@[m],
        decreases t.len() - k,
    {
        if b[p + k] != t[k] {
            assert(b@.subrange(p as int, p + t@.len())[k as int] != t@[k as int]);
            return false;
        }
        k += 1;
    }
    assert(b@.subrange(p as int, p + t@.len()) =~= t@);
    true
}

/// Whether a byte starts the encoding of a CJK character (U+4000..U+9FFF).
fn is_chinese_char(b: u8) -> (r: bool)
    ensures
        r == is_cjk_lead(b),
{
    b >= 0xE4 && b <= 0xE9
}

/// `char_start_before(b, p)`.
fn char_start_exec(b: &[u8], p: usize) -> (r: usize)
    requires
        0 < p <= b@.len(),
    ensures
        r == char_start_before(b@, p as int),
        r < p,
{
    let mut q: usize = p - 1;
    while q > 0 && b[q] >= 0x80 && b[q] < 0xC0
        invariant
            q < p <= b@.len(),
            char_start_before(b@, p as int) == char_start_before(b@, q + 1),
        decreases q,
    {
        q -= 1;
    }
    q
}

/// Appends the findings of one dictionary term to `out`.
fn push_term_hits(text: &str, term: &String, label: &String, out: &mut Vec<MatchResult>)
    requires
        all_lie_in(match_views(old(out)@), encode_utf8(text@)),
    ensures
        match_views(final(out)@) == match_views(old(out)@) + term_hits(text@, term@, *label),
        all_lie_in(match_views(final(out)@), encode_utf8(text@)),
{
    let b = text.as_bytes();
    let t = term.as_str().as_bytes();
    let ghost bv = encode_utf8(text@);
    let ghost tv = encode_utf8(term@);
    assert(b@ == bv);
    assert(t@ == tv);
    let ghost f = |p: int| (term@, p, p + tv.len(), EntityType::Custom(*label));
    let ghost base = match_views(out@);
    let tlen = t.len();
    let blen = b.len();
    if tlen == 0 || tlen > blen {
        assert(term_positions(bv, tv, 0) == Seq::<int>::empty());
        assert(term_positions(bv, tv, 0).map_values(f) == Seq::<MatchView>::empty());
        return;
    }
    let ghost mut acc: Seq<int> = seq![];
    let mut p: usize = 0;
    while p <= blen - tlen
        invariant
            0 < tlen <= blen,
            tlen == tv.len(),
            blen == bv.len(),
            b@ == bv,
            t@ == tv,
            p <= blen,
            acc + term_positions(bv, tv, p as int) == term_positions(bv, tv, 0),
            bv == encode_utf8(text@),
            tv == encode_utf8(term@),
            match_views(out@) == base + acc.map_values(f),
            f == (|p: int| (term@, p, p + tv.len(), EntityType::Custom(*label))),
            all_lie_in(match_views(out@), encode_utf8(text@)),
        decreases blen - p,
    {
        if bytes_at_exec(b, t, p) {
            let end = p + tlen;
            let left = p == 0 || !is_chinese_char(b[char_start_exec(b, p)]);
            let right = end >= blen || !is_chinese_char(b[end]);
            if left && right {
                let ghost before = match_views(out@);
                out.push(
                    MatchResult {
                        original: term.clone(),
                        start: p,
                        end: end,
                        entity_type: EntityType::Custom(label.clone()),
                    },
                );
                assert(match_views(out@) == before.push(f(p as int)));
                assert(bytes_at(bv, tv, p as int));
                assert(f(p as int) == (term@, p as int, p + tv.len(), EntityType::Custom(*label)));
                assert(encode_utf8(term@) == bv.subrange(p as int, p + tv.len()));
                assert(lies_in(f(p as int), bv));
                assert(all_lie_in(before, bv));
                assert forall|j: int| 0 <= j < match_views(out@).len() implies lies_in(
                    #[trigger] match_views(out@)[j],
                    bv,
                ) by {
                    if j < before.len() {
                        assert(match_views(out@)[j] == before[j]);
                    }
                }
                assert(acc.push(p as int).map_values(f) == acc.map_values(f).push(f(p as int)));
                proof {
                    acc = acc.push(p as int);
                }
            }
            p = end;
        } else {
            p += 1;
        }
    }
    assert(term_positions(bv, tv, p as int) == Seq::<int>::empty());
    assert(acc + Seq::<int>::empty() == acc);
}

/// Appends the findings of every term filed under `label`.
fn push_terms_hits(text: &str, terms: &Vec<String>, label: &String, out: &mut Vec<MatchResult>)
    requires
        all_lie_in(match_views(old(out)@), encode_utf8(text@)),
    ensures
        match_views(final(out)@) == match_views(old(out)@) + terms_hits(
            text@,
            terms@.map_values(|t: String| t@),
            *label,
        ),
        all_lie_in(match_views(final(out)@), encode_utf8(text@)),
{
    let ghost ts = terms@.map_values(|t: String| t@);
    let ghost base = match_views(out@);
    let mut i: usize = 0;
    assert(ts.take(0) == Seq::<Seq<char>>::empty());
    assert(base + Seq::<MatchView>::empty() == base);
    while i < terms.len()
        invariant
            i <= terms@.len(),
            ts == terms@.map_values(|t: String| t@),
            match_views(out@) == base + terms_hits(text@, ts.take(i as int), *label),
            all_lie_in(match_views(out@), encode_utf8(text@)),
        decreases terms.len() - i,
    {
        push_term_hits(text, &terms[i], label, out);
        assert(ts.take(i + 1).drop_last() == ts.take(i as int));
        assert(ts.take(i + 1).last() == terms@[i as int]@);
        i += 1;
    }
    assert(ts.take(terms@.len() as int) == ts);
}

/// Appends the findings of the whole dictionary.
fn push_dict_hits(text: &str, dict: &Vec<(String, Vec<String>)>, out: &mut Vec<MatchResult>)
    requires
        all_lie_in(match_views(old(out)@), encode_utf8(text@)),
    ensures
        match_views(final(out)@) == match_views(old(out)@) + dict_hits(
            text@,
            dict@.map_values(
                |e: (String, Vec<String>)| (e.0, e.1@.map_values(|t: String| t@)),
            ),
        ),
        all_lie_in(match_views(final(out)@), encode_utf8(text@)),
{
    let ghost d = dict@.map_values(
        |e: (String, Vec<String>)| (e.0, e.1@.map_values(|t: String| t@)),
    );
    let ghost base = match_views(out@);
    let mut i: usize = 0;
    assert(d.take(0) == Seq::<(String, Seq<Seq<char>>)>::empty());
    assert(base + Seq::<MatchView>::empty() == base);
    while i < dict.len()
        invariant
            i <= dict@.len(),
            d == dict@.map_values(
                |e: (String, Vec<String>)| (e.0, e.1@.map_values(|t: String| t@)),
            ),
            match_views(out@) == base + dict_hits(text@, d.take(i as int)),
            all_lie_in(match_views(out@), encode_utf8(text@)),
        decreases dict.len() - i,
    {
        let entry = &dict[i];
        push_terms_hits(text, &entry.1, &entry.0, out);
        assert(d.take(i + 1).drop_last() == d.take(i as int));
        assert(d.take(i + 1).last() == d[i as int]);
        i += 1;
    }
    assert(d.take(dict@.len() as int) == d);
}

/// Whether every finding's range is well formed.
pub open spec fn ranges_well_formed(s: Seq<MatchView>) -> bool {
    forall|i: int| 0 <= i < s.len() ==> #[trigger] s[i].1 <= s[i].2
}

proof fn lemma_insert_at(s: Seq<MatchView>, m: MatchView, j: int)
    requires
        0 <= j <= s.len(),
        forall|k: int| j <= k < s.len() ==> #[trigger] s[k].1 > m.1,
        j == 0 || s[j - 1].1 <= m.1,
    ensures
        insert_by_start(s, m) == s.take(j).push(m) + s.skip(j),
    decreases s.len(),
{
    if s.len() == 0 {
        assert(s.take(j).push(m) + s.skip(j) =~= seq![m]);
    } else if j == s.len() {
        assert(s.take(j) == s);
        assert(s.take(j).push(m) + s.skip(j) =~= s.push(m));
    } else {
        assert(s.last().1 > m.1);
        lemma_insert_at(s.drop_last(), m, j);
        assert(s.drop_last().take(j).push(m) + s.drop_last().skip(j) + seq![s.last()] =~= s.take(
            j,
        ).push(m) + s.skip(j));
    }
}

proof fn lemma_insert_props(s: Seq<MatchView>, m: MatchView)
    requires
        sorted_by_start(s),
        ranges_well_formed(s),
        m.1 <= m.2,
    ensures
        sorted_by_start(insert_by_start(s, m)),
        ranges_well_formed(insert_by_start(s, m)),
        insert_by_start(s, m).len() == s.len() + 1,
    decreases s.len(),
{
    if s.len() > 0 && s.last().1 > m.1 {
        lemma_insert_props(s.drop_last(), m);
        let t = insert_by_start(s.drop_last(), m);
        assert forall|i: int| 0 <= i < t.len() implies #[trigger] t[i].1 <= s.last().1 by {
            lemma_insert_elems(s.drop_last(), m, i);
        }
    }
}

proof fn lemma_insert_elems(s: Seq<MatchView>, m: MatchView, i: int)
    requires
        sorted_by_start(s),
        0 <= i < insert_by_start(s, m).len(),
    ensures
        insert_by_start(s, m)[i] == m || exists|k: int| 0 <= k < s.len() && insert_by_start(s, m)[i] == s[k],
        insert_by_start(s, m).len() == s.len() + 1,
    decreases s.len(),
{
    if s.len() > 0 && s.last().1 > m.1 {
        let t = insert_by_start(s.drop_last(), m);
        if i < t.len() {
            lemma_insert_elems(s.drop_last(), m, i);
            if t[i] != m {
                let k = choose|k: int| 0 <= k < s.drop_last().len() && t[i] == s.drop_last()[k];
                assert(insert_by_start(s, m)[i] == s[k]);
            }
        } else {
            lemma_insert_elems(s.drop_last(), m, 0);
            assert(insert_by_start(s, m)[i] == s[s.len() - 1]);
        }
    }
}

proof fn lemma_sort_props(s: Seq<MatchView>)
    requires
        ranges_well_formed(s),
    ensures
        sorted_by_start(sort_by_start(s)),
        ranges_well_formed(sort_by_start(s)),
        sort_by_start(s).len() == s.len(),
    decreases s.len(),
{
    if s.len() > 0 {
        lemma_sort_props(s.drop_last());
        lemma_insert_props(sort_by_start(s.drop_last()), s.last());
    }
}

/// Sorts the findings by start, keeping the order of findings with equal starts.
fn sort_matches(results: &mut Vec<MatchResult>)
    ensures
        match_views(final(results)@) == sort_by_start(match_views(old(results)@)),
{
    let ghost input = match_views(results@);
    let mut sorted: Vec<MatchResult> = Vec::new();
    let mut i: usize = 0;
    assert(input.take(0) == Seq::<MatchView>::empty());
    while i < results.len()
        invariant
            i <= results@.len(),
            input == match_views(results@),
            match_views(sorted@) == sort_by_start(input.take(i as int)),
        decreases results.len() - i,
    {
        let m = results[i].duplicate();
        let ghost sv = match_views(sorted@);
        let mut j: usize = sorted.len();
        while j > 0 && sorted[j - 1].start > m.start
            invariant
                j <= sorted@.len(),
                sv == match_views(sorted@),
                forall|k: int| j <= k < sv.len() ==> #[trigger] sv[k].1 > m@.1,
            decreases j,
        {
            j -= 1;
        }
        proof {
            lemma_insert_at(sv, m@, j as int);
        }
        sorted.insert(j, m);
        assert(match_views(sorted@) =~= sv.take(j as int).push(m@) + sv.skip(j as int));
        assert(input.take(i + 1).drop_last() == input.take(i as int));
        assert(input.take(i + 1).last() == m@);
        i += 1;
    }
    assert(input.take(results@.len() as int) == input);
    *results = sorted;
}

proof fn lemma_absorb_props(cur: MatchView, rest: Seq<MatchView>)
    requires
        cur.1 <= cur.2,
        ranges_well_formed(rest),
        sorted_by_start(rest),
        forall|i: int| 0 <= i < rest.len() ==> cur.1 <= #[trigger] rest[i].1,
    ensures
        ranges_well_formed(absorb(cur, rest)),
        forall|i: int| 0 <= i < absorb(cur, rest).len() ==> cur.1 <= #[trigger] absorb(cur, rest)[i].1,
        forall|i: int, j: int|
            0 <= i < j < absorb(cur, rest).len() ==> absorb(cur, rest)[i].2 <= absorb(cur, rest)[j].1,
    decreases rest.len(),
{
    if rest.len() > 0 {
        let tail = rest.drop_first();
        assert(ranges_well_formed(tail));
        assert(sorted_by_start(tail));
        assert(rest[0].1 <= rest[0].2);
        if rest[0].1 < cur.2 {
            let c = if byte_len(rest[0].0) > byte_len(cur.0) {
                rest[0]
            } else {
                cur
            };
            assert forall|i: int| 0 <= i < tail.len() implies c.1 <= #[trigger] tail[i].1 by {
                assert(rest[0].1 <= rest[i + 1].1);
            }
            lemma_absorb_props(c, tail);
        } else {
            assert forall|i: int| 0 <= i < tail.len() implies rest[0].1 <= #[trigger] tail[i].1 by {
                assert(rest[0].1 <= rest[i + 1].1);
            }
            lemma_absorb_props(rest[0], tail);
            let o = absorb(rest[0], tail);
            assert(absorb(cur, rest) == seq![cur] + o);
        }
    }
}

/// Whether each finding's text is as long, in bytes, as its range.
pub open spec fn lengths_match(s: Seq<MatchView>) -> bool {
    forall|i: int| 0 <= i < s.len() ==> byte_len((#[trigger] s[i]).0) == s[i].2 - s[i].1
}

proof fn lemma_absorb_longest(cur: MatchView, rest: Seq<MatchView>)
    requires
        cur.1 <= cur.2,
        byte_len(cur.0) == cur.2 - cur.1,
        ranges_well_formed(rest),
        lengths_match(rest),
        sorted_by_start(rest),
        forall|i: int| 0 <= i < rest.len() ==> cur.1 <= #[trigger] rest[i].1,
    ensures
        absorb(cur, rest).len() > 0,
        absorb(cur, rest)[0].1 >= cur.1,
        absorb(cur, rest)[0].2 >= cur.2,
        byte_len(absorb(cur, rest)[0].0) >= byte_len(cur.0),
        forall|k: int|
            1 <= k < absorb(cur, rest).len() ==> #[trigger] absorb(cur, rest)[k].1 >= absorb(
                cur,
                rest,
            )[0].2,
        forall|k: int|
            0 <= k < absorb(cur, rest).len() && #[trigger] absorb(cur, rest)[k].1 <= cur.1 < absorb(
                cur,
                rest,
            )[k].2 ==> byte_len(cur.0) <= byte_len(absorb(cur, rest)[k].0),
        forall|k: int, j: int|
            0 <= k < absorb(cur, rest).len() && 0 <= j < rest.len() && #[trigger] absorb(cur, rest)[k].1
                <= #[trigger] rest[j].1 < absorb(cur, rest)[k].2 ==> byte_len(rest[j].0) <= byte_len(
                absorb(cur, rest)[k].0,
            ),
    decreases rest.len(),
{
    let out = absorb(cur, rest);
    if rest.len() == 0 {
        assert(out == seq![cur]);
    } else {
        let r0 = rest[0];
        let tail = rest.drop_first();
        assert(r0.1 <= r0.2 && byte_len(r0.0) == r0.2 - r0.1);
        assert(ranges_well_formed(tail)) by {
            assert forall|i: int| 0 <= i < tail.len() implies #[trigger] tail[i].1 <= tail[i].2 by {
                assert(tail[i] == rest[i + 1]);
            }
        }
        assert(lengths_match(tail)) by {
            assert forall|i: int| 0 <= i < tail.len() implies byte_len((#[trigger] tail[i]).0)
                == tail[i].2 - tail[i].1 by {
                assert(tail[i] == rest[i + 1]);
            }
        }
        assert(sorted_by_start(tail)) by {
            assert forall|i: int, j: int| 0 <= i <= j < tail.len() implies tail[i].1 <= tail[j].1 by {
                assert(tail[i] == rest[i + 1]);
                assert(tail[j] == rest[j + 1]);
            }
        }
        if r0.1 < cur.2 {
            let next = if byte_len(r0.0) > byte_len(cur.0) {
                r0
            } else {
                cur
            };
            assert forall|i: int| 0 <= i < tail.len() implies next.1 <= #[trigger] tail[i].1 by {
                assert(tail[i] == rest[i + 1]);
                assert(rest[0].1 <= rest[i + 1].1);
            }
            lemma_absorb_longest(next, tail);
            assert(out == absorb(next, tail));
            assert forall|k: int| 0 <= k < out.len() && #[trigger] out[k].1 <= cur.1 < out[k].2 implies byte_len(cur.0) <= byte_len(out[k].0) by {
                if k > 0 {
                    assert(out[k].1 >= out[0].2);
                }
            }
            assert forall|k: int, j: int|
                0 <= k < out.len() && 0 <= j < rest.len() && #[trigger] out[k].1 <= #[trigger] rest[j].1
                    < out[k].2 implies byte_len(rest[j].0) <= byte_len(out[k].0) by {
                if j > 0 {
                    assert(rest[j] == tail[j - 1]);
                } else if k > 0 {
                    assert(out[k].1 >= out[0].2);
                }
            }
        } else {
            lemma_absorb_longest(r0, tail);
            let a = absorb(r0, tail);
            assert(out == seq![cur] + a);
            assert forall|k: int| 1 <= k < out.len() implies #[trigger] out[k].1 >= out[0].2 by {
                assert(out[k] == a[k - 1]);
                if k > 1 {
                    assert(a[k - 1].1 >= a[0].2);
                }
            }
            assert forall|k: int| 0 <= k < out.len() && #[trigger] out[k].1 <= cur.1 < out[k].2 implies byte_len(cur.0) <= byte_len(out[k].0) by {
                if k > 0 {
                    assert(out[k] == a[k - 1]);
                    if k > 1 {
                        assert(a[k - 1].1 >= a[0].2);
                    }
                }
            }
            assert forall|k: int, j: int|
                0 <= k < out.len() && 0 <= j < rest.len() && #[trigger] out[k].1 <= #[trigger] rest[j].1
                    < out[k].2 implies byte_len(rest[j].0) <= byte_len(out[k].0) by {
                assert(rest[0].1 <= rest[j].1);
                if k > 0 {
                    assert(out[k] == a[k - 1]);
                    if j > 0 {
                        assert(rest[j] == tail[j - 1]);
                    }
                }
            }
        }
    }
}

/// Of overlapping findings the merge keeps the longest: a kept finding is at
/// least as long, in bytes, as every finding given to the merge that starts within
/// it.
pub proof fn lemma_merge_keeps_longer(s: Seq<MatchView>)
    requires
        sorted_by_start(s),
        ranges_well_formed(s),
        lengths_match(s),
    ensures
        forall|k: int, j: int|
            0 <= k < merge_overlapping(s).len() && 0 <= j < s.len() && #[trigger] merge_overlapping(s)[k].1
                <= #[trigger] s[j].1 < merge_overlapping(s)[k].2 ==> byte_len(s[j].0) <= byte_len(
                merge_overlapping(s)[k].0,
            ),
{
    if s.len() > 0 {
        let tail = s.drop_first();
        assert(s[0].1 <= s[0].2 && byte_len(s[0].0) == s[0].2 - s[0].1);
        assert(ranges_well_formed(tail)) by {
            assert forall|i: int| 0 <= i < tail.len() implies #[trigger] tail[i].1 <= tail[i].2 by {
                assert(tail[i] == s[i + 1]);
            }
        }
        assert(lengths_match(tail)) by {
            assert forall|i: int| 0 <= i < tail.len() implies byte_len((#[trigger] tail[i]).0)
                == tail[i].2 - tail[i].1 by {
                assert(tail[i] == s[i + 1]);
            }
        }
        assert(sorted_by_start(tail)) by {
            assert forall|i: int, j: int| 0 <= i <= j < tail.len() implies tail[i].1 <= tail[j].1 by {
                assert(tail[i] == s[i + 1]);
                assert(tail[j] == s[j + 1]);
            }
        }
        assert forall|i: int| 0 <= i < tail.len() implies s[0].1 <= #[trigger] tail[i].1 by {
            assert(tail[i] == s[i + 1]);
        }
        lemma_absorb_longest(s[0], tail);
        let out = merge_overlapping(s);
        assert(out == absorb(s[0], tail));
        assert forall|k: int, j: int|
            0 <= k < out.len() && 0 <= j < s.len() && #[trigger] out[k].1 <= #[trigger] s[j].1
                < out[k].2 implies byte_len(s[j].0) <= byte_len(out[k].0) by {
            if j > 0 {
                assert(s[j] == tail[j - 1]);
            }
        }
    }
}

proof fn lemma_insert_members(s: Seq<MatchView>, m: MatchView)
    ensures
        forall|x: MatchView| #[trigger] insert_by_start(s, m).contains(x) <==> (x == m || s.contains(x)),
    decreases s.len(),
{
    let t = insert_by_start(s, m);
    if s.len() == 0 {
        assert(t == seq![m]);
        assert forall|x: MatchView| #[trigger] t.contains(x) <==> (x == m || s.contains(x)) by {
            if t.contains(x) {
                let k = choose|k: int| 0 <= k < t.len() && t[k] == x;
            }
            if x == m {
                assert(t[0] == m);
            }
        }
    } else if s.last().1 <= m.1 {
        assert(t == s.push(m));
        assert forall|x: MatchView| #[trigger] t.contains(x) <==> (x == m || s.contains(x)) by {
            if t.contains(x) {
                let k = choose|k: int| 0 <= k < t.len() && t[k] == x;
                if k < s.len() {
                    assert(s[k] == x);
                }
            }
            if x == m {
                assert(t[s.len() as int] == m);
            }
            if s.contains(x) {
                let k = choose|k: int| 0 <= k < s.len() && s[k] == x;
                assert(t[k] == x);
            }
        }
    } else {
        let d = s.drop_last();
        lemma_insert_members(d, m);
        let u = insert_by_start(d, m);
        assert(t == u.push(s.last()));
        assert forall|x: MatchView| #[trigger] t.contains(x) <==> (x == m || s.contains(x)) by {
            if t.contains(x) {
                let k = choose|k: int| 0 <= k < t.len() && t[k] == x;
                if k < u.len() {
                    assert(u[k] == x);
                    assert(u.contains(x));
                    if x != m {
                        assert(d.contains(x));
                        let q = choose|q: int| 0 <= q < d.len() && d[q] == x;
                        assert(s[q] == x);
                    }
                } else {
                    assert(s[s.len() - 1] == x);
                }
            }
            if x == m {
                assert(u.contains(m));
                let k = choose|k: int| 0 <= k < u.len() && u[k] == m;
                assert(t[k] == m);
            }
            if s.contains(x) {
                let k = choose|k: int| 0 <= k < s.len() && s[k] == x;
                if k < s.len() - 1 {
                    assert(d[k] == x);
                    assert(d.contains(x));
                    assert(u.contains(x));
                    let q = choose|q: int| 0 <= q < u.len() && u[q] == x;
                    assert(t[q] == x);
                } else {
                    assert(t[u.len() as int] == x);
                }
            }
        }
    }
}

proof fn lemma_sort_members(s: Seq<MatchView>)
    ensures
        forall|x: MatchView| #[trigger] sort_by_start(s).contains(x) <==> s.contains(x),
    decreases s.len(),
{
    if s.len() > 0 {
        let d = s.drop_last();
        lemma_sort_members(d);
        lemma_insert_members(sort_by_start(d), s.last());
        assert forall|x: MatchView| #[trigger] sort_by_start(s).contains(x) <==> s.contains(x) by {
            if s.contains(x) && x != s.last() {
                let k = choose|k: int| 0 <= k < s.len() && s[k] == x;
                if k < s.len() - 1 {
                    assert(d[k] == x);
                    assert(d.contains(x));
                } else {
                    assert(s[s.len() - 1] == x);
                }
            }
            if d.contains(x) {
                let k = choose|k: int| 0 <= k < d.len() && d[k] == x;
                assert(s[k] == x);
            }
            if x == s.last() {
                assert(s[s.len() - 1] == x);
            }
        }
    } else {
        assert forall|x: MatchView| #[trigger] sort_by_start(s).contains(x) <==> s.contains(x) by {
            assert(sort_by_start(s) == Seq::<MatchView>::empty());
        }
    }
}

proof fn lemma_absorb_members(cur: MatchView, rest: Seq<MatchView>)
    ensures
        forall|x: MatchView| #[trigger] absorb(cur, rest).contains(x) ==> (x == cur || rest.contains(x)),
    decreases rest.len(),
{
    let out = absorb(cur, rest);
    if rest.len() == 0 {
        assert forall|x: MatchView| #[trigger] out.contains(x) implies (x == cur || rest.contains(x)) by {
            let k = choose|k: int| 0 <= k < out.len() && out[k] == x;
            assert(out == seq![cur]);
        }
    } else {
        let tail = rest.drop_first();
        let next = if byte_len(rest[0].0) > byte_len(cur.0) {
            rest[0]
        } else {
            cur
        };
        lemma_absorb_members(next, tail);
        lemma_absorb_members(rest[0], tail);
        assert forall|x: MatchView| #[trigger] out.contains(x) implies (x == cur || rest.contains(x)) by {
            let k = choose|k: int| 0 <= k < out.len() && out[k] == x;
            let inner = if rest[0].1 < cur.2 {
                absorb(next, tail)
            } else {
                absorb(rest[0], tail)
            };
            if rest[0].1 < cur.2 {
                assert(inner.contains(x));
            } else {
                assert(out == seq![cur] + inner);
                if k > 0 {
                    assert(inner[k - 1] == x);
                    assert(inner.contains(x));
                }
            }
            if x != cur && (k > 0 || rest[0].1 < cur.2) {
                if x == rest[0] {
                    assert(rest.contains(x));
                } else {
                    assert(tail.contains(x));
                    let q = choose|q: int| 0 <= q < tail.len() && tail[q] == x;
                    assert(rest[q + 1] == x);
                }
            }
        }
    }
}

proof fn lemma_merge_members(s: Seq<MatchView>)
    ensures
        forall|x: MatchView| #[trigger] merge_overlapping(s).contains(x) ==> s.contains(x),
{
    if s.len() > 0 {
        let tail = s.drop_first();
        lemma_absorb_members(s[0], tail);
        assert forall|x: MatchView| #[trigger] merge_overlapping(s).contains(x) implies s.contains(x) by {
            assert(merge_overlapping(s) == absorb(s[0], tail));
            if x == s[0] {
                assert(s[0] == x);
            } else {
                let q = choose|q: int| 0 <= q < tail.len() && tail[q] == x;
                assert(s[q + 1] == x);
            }
        }
    }
}

proof fn lemma_rule_hits_kinds(rules: Seq<(EntityType, Seq<char>)>, text: Seq<char>)
    requires
        forall|i: int| 0 <= i < rules.len() ==> !((#[trigger] rules[i]).0 is Custom),
    ensures
        forall|i: int| 0 <= i < rule_hits(rules, text).len() ==> !((#[trigger] rule_hits(rules, text)[i]).3 is Custom),
    decreases rules.len(),
{
    if rules.len() > 0 {
        let d = rules.drop_last();
        assert forall|i: int| 0 <= i < d.len() implies !((#[trigger] d[i]).0 is Custom) by {
            assert(d[i] == rules[i]);
        }
        lemma_rule_hits_kinds(d, text);
        let a = rule_hits(d, text);
        let et = rules.last().0;
        assert(!(rules[rules.len() - 1].0 is Custom));
        let b = regex_matches(rules.last().1, text).map_values(
            |m: (Span, Option<Span>)| (reported(m).2, reported(m).0 as int, reported(m).1 as int, et),
        );
        assert(rule_hits(rules, text) == a + b);
        assert forall|i: int| 0 <= i < (a + b).len() implies !((#[trigger] (a + b)[i]).3 is Custom) by {
            if i >= a.len() {
                assert((a + b)[i] == b[i - a.len()]);
            } else {
                assert((a + b)[i] == a[i]);
            }
        }
    }
}

proof fn lemma_term_positions_bounded(b: Seq<u8>, t: Seq<u8>, p: int)
    ensures
        forall|i: int| 0 <= i < term_positions(b, t, p).len() ==> {
            let q = #[trigger] term_positions(b, t, p)[i];
            0 <= q && q + t.len() <= b.len() && has_boundaries(b, q, q + t.len())
        },
    decreases b.len() - p,
{
    if t.len() == 0 || p < 0 || p + t.len() > b.len() {
        assert(term_positions(b, t, p).len() == 0);
    } else if bytes_at(b, t, p) {
        lemma_term_positions_bounded(b, t, p + t.len());
        let head = if has_boundaries(b, p, p + t.len()) {
            seq![p]
        } else {
            Seq::<int>::empty()
        };
        let r = term_positions(b, t, p + t.len());
        assert(term_positions(b, t, p) == head + r);
        assert forall|i: int| 0 <= i < (head + r).len() implies {
            let q = #[trigger] (head + r)[i];
            0 <= q && q + t.len() <= b.len() && has_boundaries(b, q, q + t.len())
        } by {
            if i >= head.len() {
                assert((head + r)[i] == r[i - head.len()]);
            } else {
                assert((head + r)[i] == p);
            }
        }
    } else {
        lemma_term_positions_bounded(b, t, p + 1);
        assert(term_positions(b, t, p) == term_positions(b, t, p + 1));
    }
}

/// Whether a finding of a dictionary term stands on word boundaries in the text
/// whose bytes are `b`: the character just before it and the one just after it
/// are not CJK characters.
pub open spec fn on_word_boundaries(m: MatchView, b: Seq<u8>) -> bool {
    &&& (m.1 == 0 || !is_cjk_lead(b[char_start_before(b, m.1)]))
    &&& (m.2 == b.len() || !is_cjk_lead(b[m.2]))
}

proof fn lemma_terms_hits_boundaries(text: Seq<char>, terms: Seq<Seq<char>>, label: String)
    ensures
        forall|i: int| 0 <= i < terms_hits(text, terms, label).len() ==> on_word_boundaries(
            #[trigger] terms_hits(text, terms, label)[i],
            encode_utf8(text),
        ),
    decreases terms.len(),
{
    if terms.len() > 0 {
        lemma_terms_hits_boundaries(text, terms.drop_last(), label);
        let a = terms_hits(text, terms.drop_last(), label);
        let term = terms.last();
        let b = encode_utf8(text);
        let tv = encode_utf8(term);
        lemma_term_positions_bounded(b, tv, 0);
        let h = term_hits(text, term, label);
        assert(terms_hits(text, terms, label) == a + h);
        assert forall|i: int| 0 <= i < (a + h).len() implies on_word_boundaries(#[trigger] (a + h)[i], b) by {
            if i >= a.len() {
                let q = term_positions(b, tv, 0)[i - a.len()];
                assert((a + h)[i] == h[i - a.len()]);
                assert(h[i - a.len()] == (term, q, q + tv.len(), EntityType::Custom(label)));
                assert(has_boundaries(b, q, q + tv.len()));
            } else {
                assert((a + h)[i] == a[i]);
            }
        }
    }
}

/// Every finding of a dictionary stands on word boundaries: it is not part of a
/// longer Chinese word.
pub proof fn lemma_dict_hits_boundaries(text: Seq<char>, dict: Seq<(String, Seq<Seq<char>>)>)
    ensures
        forall|i: int| 0 <= i < dict_hits(text, dict).len() ==> on_word_boundaries(
            #[trigger] dict_hits(text, dict)[i],
            encode_utf8(text),
        ),
    decreases dict.len(),
{
    if dict.len() > 0 {
        lemma_dict_hits_boundaries(text, dict.drop_last());
        lemma_terms_hits_boundaries(text, dict.last().1, dict.last().0);
        let a = dict_hits(text, dict.drop_last());
        let h = terms_hits(text, dict.last().1, dict.last().0);
        assert(dict_hits(text, dict) == a + h);
        assert forall|i: int| 0 <= i < (a + h).len() implies on_word_boundaries(
            #[trigger] (a + h)[i],
            encode_utf8(text),
        ) by {
            if i >= a.len() {
                assert((a + h)[i] == h[i - a.len()]);
            } else {
                assert((a + h)[i] == a[i]);
            }
        }
    }
}

/// Findings merged by `merge_overlapping` are ordered and do not overlap.
pub proof fn lemma_merge_disjoint(s: Seq<MatchView>)
    requires
        sorted_by_start(s),
        ranges_well_formed(s),
    ensures
        ranges_well_formed(merge_overlapping(s)),
        forall|i: int, j: int|
            0 <= i < j < merge_overlapping(s).len() ==> merge_overlapping(s)[i].2
                <= merge_overlapping(s)[j].1,
{
    if s.len() > 0 {
        assert(s[0].1 <= s[0].2);
        let tail = s.drop_first();
        assert forall|i: int| 0 <= i < tail.len() implies s[0].1 <= #[trigger] tail[i].1 by {
            assert(s[0].1 <= s[i + 1].1);
        }
        lemma_absorb_props(s[0], tail);
    }
}

proof fn lemma_insert_lie_in(s: Seq<MatchView>, m: MatchView, b: Seq<u8>)
    requires
        all_lie_in(s, b),
        lies_in(m, b),
    ensures
        all_lie_in(insert_by_start(s, m), b),
    decreases s.len(),
{
    if s.len() > 0 && s.last().1 > m.1 {
        lemma_insert_lie_in(s.drop_last(), m, b);
        let t = insert_by_start(s.drop_last(), m);
        assert(lies_in(s[s.len() - 1], b));
        assert forall|i: int| 0 <= i < t.push(s.last()).len() implies lies_in(
            #[trigger] t.push(s.last())[i],
            b,
        ) by {
            if i < t.len() {
                assert(t.push(s.last())[i] == t[i]);
            }
        }
    } else if s.len() > 0 {
        assert forall|i: int| 0 <= i < s.push(m).len() implies lies_in(#[trigger] s.push(m)[i], b) by {
            if i < s.len() {
                assert(s.push(m)[i] == s[i]);
            }
        }
    }
}

proof fn lemma_sort_lie_in(s: Seq<MatchView>, b: Seq<u8>)
    requires
        all_lie_in(s, b),
    ensures
        all_lie_in(sort_by_start(s), b),
    decreases s.len(),
{
    if s.len() > 0 {
        assert forall|i: int| 0 <= i < s.drop_last().len() implies lies_in(
            #[trigger] s.drop_last()[i],
            b,
        ) by {
            assert(s.drop_last()[i] == s[i]);
        }
        lemma_sort_lie_in(s.drop_last(), b);
        assert(lies_in(s[s.len() - 1], b));
        lemma_insert_lie_in(sort_by_start(s.drop_last()), s.last(), b);
    }
}

proof fn lemma_absorb_lie_in(cur: MatchView, rest: Seq<MatchView>, b: Seq<u8>)
    requires
        lies_in(cur, b),
        all_lie_in(rest, b),
    ensures
        all_lie_in(absorb(cur, rest), b),
    decreases rest.len(),
{
    if rest.len() > 0 {
        let tail = rest.drop_first();
        assert forall|i: int| 0 <= i < tail.len() implies lies_in(#[trigger] tail[i], b) by {
            assert(tail[i] == rest[i + 1]);
        }
        assert(lies_in(rest[0], b));
        if rest[0].1 < cur.2 {
            let next = if byte_len(rest[0].0) > byte_len(cur.0) {
                rest[0]
            } else {
                cur
            };
            lemma_absorb_lie_in(next, tail, b);
        } else {
            lemma_absorb_lie_in(rest[0], tail, b);
            let a = absorb(rest[0], tail);
            assert forall|i: int| 0 <= i < (seq![cur] + a).len() implies lies_in(
                #[trigger] (seq![cur] + a)[i],
                b,
            ) by {
                if i > 0 {
                    assert((seq![cur] + a)[i] == a[i - 1]);
                }
            }
        }
    }
}

proof fn lemma_merge_lie_in(s: Seq<MatchView>, b: Seq<u8>)
    requires
        all_lie_in(s, b),
    ensures
        all_lie_in(merge_overlapping(s), b),
{
    if s.len() > 0 {
        let tail = s.drop_first();
        assert forall|i: int| 0 <= i < tail.len() implies lies_in(#[trigger] tail[i], b) by {
            assert(tail[i] == s[i + 1]);
        }
        assert(lies_in(s[0], b));
        lemma_absorb_lie_in(s[0], tail, b);
    }
}

/// Merges overlapping findings of a list sorted by start: of two that overlap,
/// the one with the longer text stays (the earlier one on a tie).
fn dedup_overlapping(results: &mut Vec<MatchResult>)
    requires
        sorted_by_start(match_views(old(results)@)),
    ensures
        match_views(final(results)@) == merge_overlapping(match_views(old(results)@)),
{
    if results.len() == 0 {
        return;
    }
    let ghost s = match_views(results@);
    let mut out: Vec<MatchResult> = Vec::new();
    let mut cur = results[0].duplicate();
    let mut i: usize = 1;
    assert(s.skip(1) == s.drop_first());
    while i < results.len()
        invariant
            1 <= i <= results@.len(),
            s == match_views(results@),
            merge_overlapping(s) == match_views(out@) + absorb(cur@, s.skip(i as int)),
        decreases results.len() - i,
    {
        let ghost rest = s.skip(i as int);
        assert(rest[0] == results@[i as int]@);
        assert(rest.drop_first() == s.skip(i + 1));
        if results[i].start < cur.end {
            let li = results[i].original.as_str().as_bytes().len();
            let lc = cur.original.as_str().as_bytes().len();
            assert(li == byte_len(rest[0].0));
            assert(lc == byte_len(cur@.0));
            if li > lc {
                cur = results[i].duplicate();
            }
        } else {
            let ghost o = match_views(out@);
            out.push(cur);
            assert(match_views(out@) == o.push(out@.last()@));
            assert(o + (seq![out@.last()@] + absorb(results@[i as int]@, rest.drop_first())) == o.push(
                out@.last()@,
            ) + absorb(results@[i as int]@, rest.drop_first()));
            cur = results[i].duplicate();
        }
        i += 1;
    }
    let ghost o = match_views(out@);
    assert(s.skip(i as int) == Seq::<MatchView>::empty());
    out.push(cur);
    assert(match_views(out@) == o.push(out@.last()@));
    *results = out;
}

impl Scanner {
    pub fn new() -> (r: Scanner)
        ensures
            r.rules() == accepted_rules(builtin_rules()),
            r.dict() == Seq::<(String, Seq<Seq<char>>)>::empty(),
    {
        let patterns = build_builtin_patterns();
        let r = Scanner { patterns, custom_dict: Vec::new() };
        assert(r.dict() =~= Seq::<(String, Seq<Seq<char>>)>::empty());
        r
    }

    /// Replaces the custom dictionary; no two entries may share a label.
    pub fn load_custom_dict(&mut self, dict: Vec<(String, Vec<String>)>)
        requires
            labels_distinct(dict@),
        ensures
            final(self).rules() == old(self).rules(),
            final(self).dict() == dict@.map_values(
                |e: (String, Vec<String>)| (e.0, e.1@.map_values(|t: String| t@)),
            ),
    {
        proof {
            use_type_invariant(&*self);
        }
        self.custom_dict = dict;
    }

    /// Every finding in `text`, ordered by start, overlapping findings merged.
    pub fn scan(&self, text: &str) -> (r: Vec<MatchResult>)
        ensures
            match_views(r@) == scan_result(self.rules(), self.dict(), text@),
            forall|i: int| 0 <= i < r@.len() ==> #[trigger] r@[i].start <= r@[i].end,
            all_lie_in(match_views(r@), encode_utf8(text@)),
            forall|i: int, j: int| 0 <= i < j < r@.len() ==> r@[i].end <= r@[j].start,
            // a dictionary finding is not part of a longer Chinese word
            forall|i: int|
                0 <= i < r@.len() && (#[trigger] r@[i]).entity_type is Custom ==> on_word_boundaries(
                    r@[i]@,
                    encode_utf8(text@),
                ),
            // of overlapping findings the longest is kept: every finding of the rules
            // or the dictionary that starts within a kept one is at most as long
            forall|i: int, m: MatchView|
                #![trigger r@[i], (rule_hits(self.rules(), text@) + dict_hits(text@, self.dict())).contains(m)]
                0 <= i < r@.len() && (rule_hits(self.rules(), text@) + dict_hits(
                    text@,
                    self.dict(),
                )).contains(m) && r@[i].start <= m.1 < r@[i].end ==> byte_len(m.0) <= byte_len(
                    r@[i].original@,
                ),
    {
        proof {
            use_type_invariant(self);
        }
        let mut results = collect_rule_hits(&self.patterns, text);
        push_dict_hits(text, &self.custom_dict, &mut results);
        let ghost all = match_views(results@);
        assert(ranges_well_formed(all)) by {
            assert forall|i: int| 0 <= i < all.len() implies #[trigger] all[i].1 <= all[i].2 by {
                assert(lies_in(all[i], encode_utf8(text@)));
            }
        }
        sort_matches(&mut results);
        proof {
            lemma_sort_props(all);
            lemma_sort_lie_in(all, encode_utf8(text@));
            lemma_merge_lie_in(sort_by_start(all), encode_utf8(text@));
        }
        dedup_overlapping(&mut results);
        proof {
            lemma_merge_disjoint(sort_by_start(all));
            let v = match_views(results@);
            assert(v == merge_overlapping(sort_by_start(all)));
            assert(ranges_well_formed(v));
            assert(v.len() == results@.len());
            assert forall|i: int| 0 <= i < results@.len() implies #[trigger] results@[i].start
                <= results@[i].end by {
                assert(v[i] == results@[i]@);
                assert(v[i].1 <= v[i].2);
            }
            assert forall|i: int, j: int| 0 <= i < j < results@.len() implies results@[i].end
                <= results@[j].start by {
                assert(v[i] == results@[i]@);
                assert(v[j] == results@[j]@);
            }
            let b = encode_utf8(text@);
            let srt = sort_by_start(all);
            let rh = rule_hits(self.rules(), text@);
            let dh = dict_hits(text@, self.dict());
            assert(all == rh + dh);
            lemma_sort_members(all);
            lemma_merge_members(srt);
            assert forall|i: int| 0 <= i < self.rules().len() implies !((#[trigger] self.rules()[i]).0 is Custom) by {
                assert(self.rules()[i].0 == self.patterns@[i].0);
            }
            lemma_rule_hits_kinds(self.rules(), text@);
            lemma_dict_hits_boundaries(text@, self.dict());
            assert forall|i: int|
                0 <= i < results@.len() && (#[trigger] results@[i]).entity_type is Custom implies on_word_boundaries(
                results@[i]@,
                b,
            ) by {
                assert(v[i] == results@[i]@);
                assert(v.contains(v[i]));
                assert(srt.contains(v[i]));
                assert(all.contains(v[i]));
                let j = choose|j: int| 0 <= j < all.len() && all[j] == v[i];
                if j < rh.len() {
                    assert(all[j] == rh[j]);
                    assert(!(rh[j].3 is Custom));
                } else {
                    assert(all[j] == dh[j - rh.len()]);
                }
            }
            assert(lengths_match(srt)) by {
                assert forall|x: int| 0 <= x < srt.len() implies byte_len((#[trigger] srt[x]).0)
                    == srt[x].2 - srt[x].1 by {
                    assert(lies_in(srt[x], b));
                }
            }
            lemma_merge_keeps_longer(srt);
            assert forall|i: int, m: MatchView|
                #![trigger results@[i], (rh + dh).contains(m)]
                0 <= i < results@.len() && (rh + dh).contains(m) && results@[i].start <= m.1
                    < results@[i].end implies byte_len(m.0) <= byte_len(results@[i].original@) by {
                assert(v[i] == results@[i]@);
                assert(all.contains(m));
                assert(srt.contains(m));
                let j = choose|j: int| 0 <= j < srt.len() && srt[j] == m;
                assert(v[i].1 <= srt[j].1 < v[i].2);
            }
        }
        results
    }
}

} // verus!
