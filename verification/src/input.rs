//! Input documents: which reader a file name calls for, the text form of a
//! table, and the custom dictionary built from its word lists.
use vstd::prelude::*;
use crate::excel::{ColumnInfo, ExcelData, strs, rows_view};
use crate::scanner::labels_distinct;
use crate::text::{ends_with, join, lowercase, to_lowercase, chars_of, push_all, ends_with_chars,
    join_chars, views, string_from_chars};

verus! {

/// How the text of a document is obtained.
#[derive(Debug, Clone, Copy, PartialEq, Eq, Structural)]
pub enum ContentKind {
    /// `.xlsx`: read as a table, then written as text.
    Workbook,
    /// `.xls` or `.et`: read as a table where possible, else as text.
    LegacyWorkbook,
    /// `.csv`: read as a table, then written as text.
    Csv,
    Pdf,
    Docx,
    /// `.doc`: converted by an outside program.
    Doc,
    /// `.wps`: converted by an outside program.
    Wps,
    /// A picture: its text is recognised by an outside program.
    Image,
    /// Anything else: read as UTF-8 text.
    PlainText,
}

/// The reader that a spreadsheet file calls for.
#[derive(Debug, Clone, Copy, PartialEq, Eq, Structural)]
pub enum SheetFormat {
    Xlsx,
    Xls,
    /// A WPS spreadsheet: read as `.xls`, and as `.xlsx` where that fails.
    Et,
    Csv,
}

/// Whether the (lowercase) file name `lower` names a picture.
pub open spec fn is_image_name(lower: Seq<char>) -> bool {
    ||| ends_with(lower, ".png"@)
    ||| ends_with(lower, ".jpg"@)
    ||| ends_with(lower, ".jpeg"@)
    ||| ends_with(lower, ".bmp"@)
    ||| ends_with(lower, ".tiff"@)
    ||| ends_with(lower, ".tif"@)
    ||| ends_with(lower, ".webp"@)
}

/// The kind of a document by its lowercase name; the first matching ending wins.
pub open spec fn kind_of(lower: Seq<char>) -> ContentKind {
    if ends_with(lower, ".xlsx"@) {
        ContentKind::Workbook
    } else if ends_with(lower, ".xls"@) || ends_with(lower, ".et"@) {
        ContentKind::LegacyWorkbook
    } else if ends_with(lower, ".csv"@) {
        ContentKind::Csv
    } else if ends_with(lower, ".pdf"@) {
        ContentKind::Pdf
    } else if ends_with(lower, ".docx"@) {
        ContentKind::Docx
    } else if ends_with(lower, ".doc"@) {
        ContentKind::Doc
    } else if ends_with(lower, ".wps"@) {
        ContentKind::Wps
    } else if is_image_name(lower) {
        ContentKind::Image
    } else {
        ContentKind::PlainText
    }
}

/// Whether `s` ends with the text `suffix`.
fn ends_with_str(s: &[char], suffix: &str) -> (r: bool)
    ensures
        r == ends_with(s@, suffix@),
{
    let suf = chars_of(suffix);
    ends_with_chars(s, suf.as_slice())
}

/// Whether the lowercase file name `lower` names a picture (`.png`, `.jpg`,
/// `.jpeg`, `.bmp`, `.tiff`, `.tif`, `.webp`).
pub fn is_image_file(lower: &str) -> (r: bool)
    ensures
        r == is_image_name(lower@),
{
    let l = chars_of(lower);
    let s = l.as_slice();
    ends_with_str(s, ".png") || ends_with_str(s, ".jpg") || ends_with_str(s, ".jpeg")
        || ends_with_str(s, ".bmp") || ends_with_str(s, ".tiff") || ends_with_str(s, ".tif")
        || ends_with_str(s, ".webp")
}

/// The kind of the document at `path`, by the lowercase form of its name.
pub fn content_kind(path: &str) -> (r: ContentKind)
    ensures
        r == kind_of(lowercase(path@)),
{
    let lower = to_lowercase(path);
    let l = chars_of(lower.as_str());
    let s = l.as_slice();
    if ends_with_str(s, ".xlsx") {
        ContentKind::Workbook
    } else if ends_with_str(s, ".xls") || ends_with_str(s, ".et") {
        ContentKind::LegacyWorkbook
    } else if ends_with_str(s, ".csv") {
        ContentKind::Csv
    } else if ends_with_str(s, ".pdf") {
        ContentKind::Pdf
    } else if ends_with_str(s, ".docx") {
        ContentKind::Docx
    } else if ends_with_str(s, ".doc") {
        ContentKind::Doc
    } else if ends_with_str(s, ".wps") {
        ContentKind::Wps
    } else if is_image_file(lower.as_str()) {
        ContentKind::Image
    } else {
        ContentKind::PlainText
    }
}

/// The message for a file whose format is not supported.
pub open spec fn unsupported_format(path: Seq<char>) -> Seq<char> {
    "不支持的文件格式: "@ + path
}

/// `unsupported_format(path)` as a string.
pub fn unsupported_format_message(path: &str) -> (r: String)
    ensures
        r@ == unsupported_format(path@),
{
    let mut out = chars_of("不支持的文件格式: ");
    let p = chars_of(path);
    push_all(&mut out, p.as_slice());
    string_from_chars(out.as_slice())
}

/// The spreadsheet reader for a lowercase file name, if any: `.xlsx`, `.xls`,
/// `.et` or `.csv`, tried in that order.
pub open spec fn sheet_format_of(lower: Seq<char>) -> Option<SheetFormat> {
    if ends_with(lower, ".xlsx"@) {
        Some(SheetFormat::Xlsx)
    } else if ends_with(lower, ".xls"@) {
        Some(SheetFormat::Xls)
    } else if ends_with(lower, ".et"@) {
        Some(SheetFormat::Et)
    } else if ends_with(lower, ".csv"@) {
        Some(SheetFormat::Csv)
    } else {
        None
    }
}

/// The spreadsheet reader for the file at `path`, by the lowercase form of its
/// name; for any other name the error `不支持的文件格式: <path>`.
pub fn workbook_format(path: &str) -> (r: Result<SheetFormat, String>)
    ensures
        r is Ok <==> sheet_format_of(lowercase(path@)) is Some,
        r matches Ok(f) ==> sheet_format_of(lowercase(path@)) == Some(f),
        r matches Err(m) ==> m@ == unsupported_format(path@),
{
    let lower = to_lowercase(path);
    let l = chars_of(lower.as_str());
    let s = l.as_slice();
    if ends_with_str(s, ".xlsx") {
        Ok(SheetFormat::Xlsx)
    } else if ends_with_str(s, ".xls") {
        Ok(SheetFormat::Xls)
    } else if ends_with_str(s, ".et") {
        Ok(SheetFormat::Et)
    } else if ends_with_str(s, ".csv") {
        Ok(SheetFormat::Csv)
    } else {
        Err(unsupported_format_message(path))
    }
}

/// One line of tab-separated text.
pub open spec fn tsv_line(cells: Seq<Seq<char>>) -> Seq<char> {
    join(cells, "\t"@) + seq!['\n']
}

/// The lines of `rows`, one after the other.
pub open spec fn tsv_rows(rows: Seq<Seq<Seq<char>>>) -> Seq<char>
    decreases rows.len(),
{
    if rows.len() == 0 {
        seq![]
    } else {
        tsv_rows(rows.drop_last()) + tsv_line(rows.last())
    }
}

/// The column names of a table.
pub open spec fn column_names(columns: Seq<ColumnInfo>) -> Seq<Seq<char>> {
    columns.map_values(|c: ColumnInfo| c.name@)
}

/// A table as text: the header line, then one line per row, cells separated by
/// tabs, each line ended by `'\n'`.
pub open spec fn table_text(d: ExcelData) -> Seq<char> {
    tsv_line(column_names(d.columns@)) + tsv_rows(rows_view(d.rows@))
}

/// Appends the tab-separated line of `cells` to `out`.
fn push_tsv_line(out: &mut Vec<char>, cells: &Vec<Vec<char>>)
    ensures
        final(out)@ == old(out)@ + tsv_line(views(cells@)),
{
    let tab = chars_of("\t");
    let line = join_chars(cells, tab.as_slice());
    push_all(out, line.as_slice());
    out.push('\n');
}

/// The characters of each string.
fn chars_of_all(v: &Vec<String>) -> (r: Vec<Vec<char>>)
    ensures
        views(r@) == strs(v@),
{
    let mut r: Vec<Vec<char>> = Vec::new();
    for i in 0..v.len()
        invariant
            views(r@) == strs(v@).take(i as int),
    {
        let ghost before = views(r@);
        r.push(chars_of(v[i].as_str()));
        assert(views(r@) =~= before.push(v@[i as int]@));
        assert(strs(v@).take(i + 1) =~= strs(v@).take(i as int).push(v@[i as int]@));
    }
    assert(strs(v@).take(v@.len() as int) =~= strs(v@));
    r
}

/// `table_text(data)`: the table as tab-separated lines, header first.
pub fn excel_to_text(data: &ExcelData) -> (r: String)
    ensures
        r@ == table_text(*data),
{
    let mut names: Vec<Vec<char>> = Vec::new();
    for i in 0..data.columns.len()
        invariant
            views(names@) == column_names(data.columns@).take(i as int),
    {
        let ghost before = views(names@);
        names.push(chars_of(data.columns[i].name.as_str()));
        assert(views(names@) =~= before.push(data.columns@[i as int].name@));
        assert(column_names(data.columns@).take(i + 1) =~= column_names(data.columns@).take(
            i as int,
        ).push(data.columns@[i as int].name@));
    }
    assert(column_names(data.columns@).take(data.columns@.len() as int) =~= column_names(
        data.columns@,
    ));
    let mut out: Vec<char> = Vec::new();
    push_tsv_line(&mut out, &names);
    assert(out@ =~= tsv_line(column_names(data.columns@)));
    let ghost rows = rows_view(data.rows@);
    assert(rows.take(0) =~= Seq::<Seq<Seq<char>>>::empty());
    for k in 0..data.rows.len()
        invariant
            rows == rows_view(data.rows@),
            out@ == tsv_line(column_names(data.columns@)) + tsv_rows(rows.take(k as int)),
    {
        let cells = chars_of_all(&data.rows[k]);
        push_tsv_line(&mut out, &cells);
        assert(rows.take(k + 1).drop_last() =~= rows.take(k as int));
        assert(rows.take(k + 1).last() == rows[k as int]);
    }
    assert(rows.take(data.rows@.len() as int) =~= rows);
    string_from_chars(out.as_slice())
}

/// `prefix + detail` as a string.
fn prefixed(prefix: &str, detail: &str) -> (r: String)
    ensures
        r@ == prefix@ + detail@,
{
    let mut out = chars_of(prefix);
    let d = chars_of(detail);
    push_all(&mut out, d.as_slice());
    string_from_chars(out.as_slice())
}

/// The text of a workbook that was read: the table as text, or the reader's
/// error after `读取 Excel 失败: `.
pub fn workbook_content(read: Result<ExcelData, String>) -> (r: Result<String, String>)
    ensures
        match read {
            Ok(d) => r matches Ok(t) && t@ == table_text(d),
            Err(e) => r matches Err(m) && m@ == "读取 Excel 失败: "@ + e@,
        },
{
    match read {
        Ok(d) => Ok(excel_to_text(&d)),
        Err(e) => Err(prefixed("读取 Excel 失败: ", e.as_str())),
    }
}

/// The text of a CSV file that was read: the table as text, or the reader's
/// error after `读取 CSV 失败: `.
pub fn csv_content(read: Result<ExcelData, String>) -> (r: Result<String, String>)
    ensures
        match read {
            Ok(d) => r matches Ok(t) && t@ == table_text(d),
            Err(e) => r matches Err(m) && m@ == "读取 CSV 失败: "@ + e@,
        },
{
    match read {
        Ok(d) => Ok(excel_to_text(&d)),
        Err(e) => Err(prefixed("读取 CSV 失败: ", e.as_str())),
    }
}

/// The dictionary entry for a word list: none where the list is absent or empty.
pub open spec fn list_entry(label: Seq<char>, list: Option<Vec<String>>) -> Seq<(Seq<char>, Seq<Seq<char>>)> {
    match list {
        Some(l) => if l@.len() > 0 {
            seq![(label, strs(l@))]
        } else {
            seq![]
        },
        None => seq![],
    }
}

/// The (label, terms) view of a dictionary.
pub open spec fn dict_view(d: Seq<(String, Vec<String>)>) -> Seq<(Seq<char>, Seq<Seq<char>>)> {
    d.map_values(|e: (String, Vec<String>)| (e.0@, strs(e.1@)))
}

/// Appends `(label, list)` to `out` where the list is present and not empty.
fn push_list(out: &mut Vec<(String, Vec<String>)>, label: &str, list: Option<Vec<String>>)
    ensures
        dict_view(final(out)@) == dict_view(old(out)@) + list_entry(label@, list),
        forall|i: int| 0 <= i < old(out)@.len() ==> #[trigger] final(out)@[i] == old(out)@[i],
        final(out)@.len() == old(out)@.len() + list_entry(label@, list).len(),
        final(out)@.len() > old(out)@.len() ==> final(out)@.last().0@ == label@,
{
    let ghost before = dict_view(out@);
    match list {
        Some(l) => {
            if l.len() > 0 {
                out.push((label.to_owned(), l));
                assert(dict_view(out@) =~= before + list_entry(label@, list));
            } else {
                assert(dict_view(out@) =~= before + list_entry(label@, list));
            }
        },
        None => {
            assert(dict_view(out@) =~= before + list_entry(label@, list));
        },
    }
}

/// The custom dictionary of the word lists of a dictionary file: the non-empty
/// lists under the labels `PERSON`, `ORG`, `PROJECT`, `SYSTEM` and `PARTNER`.
pub fn custom_dict_from_lists(
    persons: Option<Vec<String>>,
    orgs: Option<Vec<String>>,
    projects: Option<Vec<String>>,
    systems: Option<Vec<String>>,
    partners: Option<Vec<String>>,
) -> (r: Vec<(String, Vec<String>)>)
    ensures
        dict_view(r@) == list_entry("PERSON"@, persons) + list_entry("ORG"@, orgs) + list_entry(
            "PROJECT"@,
            projects,
        ) + list_entry("SYSTEM"@, systems) + list_entry("PARTNER"@, partners),
        labels_distinct(r@),
{
    proof {
        reveal_strlit("PERSON");
        reveal_strlit("ORG");
        reveal_strlit("PROJECT");
        reveal_strlit("SYSTEM");
        reveal_strlit("PARTNER");
    }
    let ghost labels: Seq<Seq<char>> = seq!["PERSON"@, "ORG"@, "PROJECT"@, "SYSTEM"@, "PARTNER"@];
    assert(forall|a: int, b: int| 0 <= a < b < 5 ==> #[trigger] labels[a] != #[trigger] labels[b]) by {
        assert(labels[0][0] == 'P' && labels[0][1] == 'E');
        assert(labels[1][0] == 'O');
        assert(labels[2][0] == 'P' && labels[2][1] == 'R');
        assert(labels[3][0] == 'S');
        assert(labels[4][0] == 'P' && labels[4][1] == 'A');
    }
    let mut r: Vec<(String, Vec<String>)> = Vec::new();
    // Each entry's label is the label of the list it came from, in order.
    let ghost mut from: Seq<int> = seq![];
    push_list(&mut r, "PERSON", persons);
    proof { if r@.len() == 1 { from = from.push(0); } }
    let ghost n1 = r@.len();
    push_list(&mut r, "ORG", orgs);
    proof { if r@.len() > n1 { from = from.push(1); } }
    let ghost n2 = r@.len();
    push_list(&mut r, "PROJECT", projects);
    proof { if r@.len() > n2 { from = from.push(2); } }
    let ghost n3 = r@.len();
    push_list(&mut r, "SYSTEM", systems);
    proof { if r@.len() > n3 { from = from.push(3); } }
    let ghost n4 = r@.len();
    push_list(&mut r, "PARTNER", partners);
    proof { if r@.len() > n4 { from = from.push(4); } }
    assert(from.len() == r@.len());
    assert(forall|i: int, j: int| 0 <= i < j < from.len() ==> from[i] < from[j]);
    assert(forall|i: int| 0 <= i < r@.len() ==> 0 <= from[i] < 5 && #[trigger] r@[i].0@ == labels[from[i]]);
    r
}

/// The number of terms in a dictionary.
pub open spec fn term_count(d: Seq<(String, Vec<String>)>) -> nat
    decreases d.len(),
{
    if d.len() == 0 {
        0
    } else {
        term_count(d.drop_last()) + d.last().1@.len()
    }
}

/// `term_count(dict)`.
pub fn dict_term_count(dict: &Vec<(String, Vec<String>)>) -> (r: usize)
    requires
        term_count(dict@) <= usize::MAX,
    ensures
        r == term_count(dict@),
{
    let mut total: usize = 0;
    for i in 0..dict.len()
        invariant
            total == term_count(dict@.take(i as int)),
            term_count(dict@) <= usize::MAX,
    {
        assert(dict@.take(i + 1).drop_last() =~= dict@.take(i as int));
        proof { lemma_term_count_prefix(dict@, i + 1); }
        total = total + dict[i].1.len();
    }
    assert(dict@.take(dict@.len() as int) =~= dict@);
    total
}

proof fn lemma_term_count_prefix(d: Seq<(String, Vec<String>)>, k: int)
    requires
        0 <= k <= d.len(),
    ensures
        term_count(d.take(k)) <= term_count(d),
    decreases d.len() - k,
{
    if k < d.len() {
        lemma_term_count_prefix(d, k + 1);
        assert(d.take(k + 1).drop_last() =~= d.take(k));
    } else {
        assert(d.take(k) =~= d);
    }
}

} // verus!
