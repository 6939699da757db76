//! What the desktop front end asks of the library: column summaries of a file,
//! its masked table, and the messages that send masked data to the model.
use vstd::prelude::*;
use crate::excel::{ExcelData, ColumnInfo, strs, rows_view, copy_strings};
use crate::column_matcher::{
    ColumnSensitiveType, MatchedColumn, match_columns, try_desensitize_data, column_kind,
    column_prefix_of, column_label_of, matched_view, matches_columns, rows_supported,
    column_kinds, desensitized_rows,
};
use crate::llm::{build_system_prompt, prompt_head, prompt_middle, prompt_tail};
use crate::text::{
    chars_of, push_all, string_from_chars, decimal, decimal_chars, join, join_chars, views,
};

verus! {

/// A column as the front end shows it.
#[derive(Debug, Clone)]
pub struct ColumnSummary {
    pub name: String,
    pub sensitive_type: String,
    pub sensitive_label: String,
    pub sample_values: Vec<String>,
}

/// What opening a file reports.
#[derive(Debug, Clone)]
pub struct FileInfo {
    pub sheet_name: String,
    pub total_rows: usize,
    pub columns: Vec<ColumnSummary>,
}

/// A masked table.
#[derive(Debug, Clone)]
pub struct DesensitizeResult {
    pub columns: Vec<ColumnSummary>,
    pub headers: Vec<String>,
    pub rows: Vec<Vec<String>>,
    pub matched_count: usize,
}

/// A reply of the model to a question about a file.
#[derive(Debug, Clone)]
pub struct ChatResult {
    pub reply: String,
}

/// A summary as (name, kind prefix, kind label, samples).
pub open spec fn summary_view(c: ColumnSummary) -> (Seq<char>, Seq<char>, Seq<char>, Seq<Seq<char>>) {
    (c.name@, c.sensitive_type@, c.sensitive_label@, strs(c.sample_values@))
}

/// The summary of a column named `name` with samples `samples`.
pub open spec fn summary_of(name: Seq<char>, samples: Seq<Seq<char>>) -> (Seq<char>, Seq<char>, Seq<char>, Seq<Seq<char>>) {
    (name, column_prefix_of(column_kind(name)), column_label_of(column_kind(name)), samples)
}

/// Whether `r` summarises `columns`, one summary per column in order.
pub open spec fn summarises(r: Seq<ColumnSummary>, columns: Seq<ColumnInfo>) -> bool {
    &&& r.len() == columns.len()
    &&& forall|i: int|
        0 <= i < columns.len() ==> summary_view(#[trigger] r[i]) == summary_of(
            columns[i].name@,
            strs(columns[i].sample_values@),
        )
}

fn string_eq(a: &String, b: &String) -> (r: bool)
    ensures
        r == (a@ == b@),
{
    a.eq(b)
}

/// The summaries of the columns of `data`: each column's kind is that of the
/// first match with the same name.
pub fn column_summaries(data: &ExcelData) -> (r: Vec<ColumnSummary>)
    ensures
        summarises(r@, data.columns@),
{
    let matched = match_columns(data.columns.as_slice());
    let mut out: Vec<ColumnSummary> = Vec::new();
    for i in 0..data.columns.len()
        invariant
            matches_columns(matched@, data.columns@),
            out@.len() == i,
            forall|k: int|
                0 <= k < i ==> summary_view(#[trigger] out@[k]) == summary_of(
                    data.columns@[k].name@,
                    strs(data.columns@[k].sample_values@),
                ),
    {
        let c = &data.columns[i];
        let mut k: usize = 0;
        while k < matched.len() && !string_eq(&matched[k].column_name, &c.name)
            invariant
                matches_columns(matched@, data.columns@),
                k <= matched@.len(),
                i < data.columns@.len(),
                c == data.columns@[i as int],
                forall|m: int| 0 <= m < k ==> #[trigger] matched@[m].column_name@ != c.name@,
            decreases matched.len() - k,
        {
            k += 1;
        }
        if k == matched.len() {
            assert(matched_view(matched@[i as int]).0 == c.name@);
            assert(matched@[i as int].column_name@ == c.name@);
            assert(false);
        }
        assert(matched_view(matched@[k as int]) == (
            data.columns@[k as int].name@,
            column_kind(data.columns@[k as int].name@),
            strs(data.columns@[k as int].sample_values@),
        ));
        let kind = matched[k].sensitive_type;
        out.push(
            ColumnSummary {
                name: c.name.clone(),
                sensitive_type: kind.prefix().to_owned(),
                sensitive_label: kind.label().to_owned(),
                sample_values: copy_strings(&c.sample_values),
            },
        );
    }
    out
}

/// What opening a file reports: the column summaries (sheet name and row count
/// are left empty and zero, as the front end does not use them).
pub fn file_info_from_data(data: &ExcelData) -> (r: FileInfo)
    ensures
        summarises(r.columns@, data.columns@),
        r.sheet_name@ == Seq::<char>::empty(),
        r.total_rows == 0,
{
    FileInfo { sheet_name: String::new(), total_rows: 0, columns: column_summaries(data) }
}

/// The number of columns whose recognised kind has a prefix, that is, that are sensitive.
pub open spec fn sensitive_count(columns: Seq<ColumnInfo>) -> nat
    decreases columns.len(),
{
    if columns.len() == 0 {
        0
    } else {
        sensitive_count(columns.drop_last()) + if column_prefix_of(
            column_kind(columns.last().name@),
        ).len() > 0 {
            1nat
        } else {
            0nat
        }
    }
}

/// The masked table of `data`, or `None` where some cell of a sensitive column
/// would be cut inside a character.
pub fn desensitize_result(data: &ExcelData) -> (r: Option<DesensitizeResult>)
    ensures
        r is Some <==> rows_supported(rows_view(data.rows@), column_kinds(data.columns@)),
        r matches Some(d) ==> {
            &&& summarises(d.columns@, data.columns@)
            &&& strs(d.headers@) == data.columns@.map_values(|c: ColumnInfo| c.name@)
            &&& rows_view(d.rows@) == desensitized_rows(
                rows_view(data.rows@),
                column_kinds(data.columns@),
            )
            &&& d.matched_count == sensitive_count(data.columns@)
        },
{
    let mut headers: Vec<String> = Vec::new();
    for i in 0..data.columns.len()
        invariant
            strs(headers@) == data.columns@.map_values(|c: ColumnInfo| c.name@).take(i as int),
    {
        let ghost before = strs(headers@);
        headers.push(data.columns[i].name.clone());
        assert(strs(headers@) =~= before.push(data.columns@[i as int].name@));
        assert(data.columns@.map_values(|c: ColumnInfo| c.name@).take(i + 1) =~= data.columns@.map_values(
            |c: ColumnInfo| c.name@,
        ).take(i as int).push(data.columns@[i as int].name@));
    }
    assert(data.columns@.map_values(|c: ColumnInfo| c.name@).take(data.columns@.len() as int)
        =~= data.columns@.map_values(|c: ColumnInfo| c.name@));
    let res = try_desensitize_data(data.columns.as_slice(), data.rows.as_slice());
    match res {
        None => None,
        Some((rows, matched)) => {
            let mut count: usize = 0;
            let mut columns: Vec<ColumnSummary> = Vec::new();
            for i in 0..matched.len()
                invariant
                    matches_columns(matched@, data.columns@),
                    count == sensitive_count(data.columns@.take(i as int)),
                    count <= i,
                    columns@.len() == i,
                    forall|k: int|
                        0 <= k < i ==> summary_view(#[trigger] columns@[k]) == summary_of(
                            data.columns@[k].name@,
                            strs(data.columns@[k].sample_values@),
                        ),
            {
                let m = &matched[i];
                assert(data.columns@.take(i + 1).drop_last() == data.columns@.take(i as int));
                assert(matched_view(matched@[i as int]) == (
                    data.columns@[i as int].name@,
                    column_kind(data.columns@[i as int].name@),
                    strs(data.columns@[i as int].sample_values@),
                ));
                if !m.sensitive_type.prefix().is_empty() {
                    count += 1;
                }
                columns.push(
                    ColumnSummary {
                        name: m.column_name.clone(),
                        sensitive_type: m.sensitive_type.prefix().to_owned(),
                        sensitive_label: m.sensitive_type.label().to_owned(),
                        sample_values: copy_strings(&m.sample_values),
                    },
                );
            }
            assert(data.columns@.take(data.columns@.len() as int) == data.columns@);
            Some(DesensitizeResult { columns, headers, rows, matched_count: count })
        },
    }
}

/// The file information given to the model.
pub open spec fn chat_file_info(file_path: Seq<char>, ncols: nat, nrows: nat) -> Seq<char> {
    "文件："@ + file_path + "\n列数："@ + decimal(ncols) + "\n行数："@ + decimal(nrows)
}

/// The line that describes one sensitive column: `  - name: label (PREFIX)`.
pub open spec fn matched_line(name: Seq<char>) -> Seq<char> {
    "  - "@ + name + ": "@ + column_label_of(column_kind(name)) + " ("@ + column_prefix_of(
        column_kind(name),
    ) + ")"@
}

/// The lines of the sensitive columns, in order.
pub open spec fn matched_lines(columns: Seq<ColumnInfo>) -> Seq<Seq<char>>
    decreases columns.len(),
{
    if columns.len() == 0 {
        seq![]
    } else if column_prefix_of(column_kind(columns.last().name@)).len() > 0 {
        matched_lines(columns.drop_last()).push(matched_line(columns.last().name@))
    } else {
        matched_lines(columns.drop_last())
    }
}

/// `header=value` for each cell that has a header.
pub open spec fn cell_pairs(headers: Seq<Seq<char>>, row: Seq<Seq<char>>) -> Seq<Seq<char>> {
    Seq::new(
        if headers.len() <= row.len() {
            headers.len()
        } else {
            row.len()
        },
        |i: int| headers[i] + "="@ + row[i],
    )
}

/// A row for the model: its `header=value` pairs joined by `, `.
pub open spec fn row_line(headers: Seq<Seq<char>>, row: Seq<Seq<char>>) -> Seq<char> {
    join(cell_pairs(headers, row), ", "@)
}

/// The first ten rows.
pub open spec fn first_rows(rows: Seq<Seq<Seq<char>>>) -> Seq<Seq<Seq<char>>> {
    if rows.len() <= 10 {
        rows
    } else {
        rows.take(10)
    }
}

/// The data sample for the model: the first ten rows, one per line.
pub open spec fn data_sample(headers: Seq<Seq<char>>, rows: Seq<Seq<Seq<char>>>) -> Seq<char> {
    join(first_rows(rows).map_values(|r: Seq<Seq<char>>| row_line(headers, r)), "\n"@)
}

/// The messages for a question about a file, its rows masked: the system prompt
/// with the file information and sensitive columns, and the question followed by
/// the data sample.
pub open spec fn chat_messages_for(message: Seq<char>, file_path: Seq<char>, data: ExcelData) -> (
    Seq<char>,
    Seq<char>,
) {
    let headers = data.columns@.map_values(|c: ColumnInfo| c.name@);
    let masked = desensitized_rows(rows_view(data.rows@), column_kinds(data.columns@));
    (
        prompt_head() + chat_file_info(file_path, data.columns@.len(), data.total_rows as nat)
            + prompt_middle() + join(matched_lines(data.columns@), "\n"@) + prompt_tail(),
        message + "\n\n数据样本（脱敏后前10行）：\n"@ + data_sample(headers, masked),
    )
}

/// The error for a missing API key.
pub fn api_key_error(api_key: &str) -> (r: Option<String>)
    ensures
        r is Some <==> api_key@.len() == 0,
        r matches Some(e) ==> e@ == "请先设置 DeepSeek API Key"@,
{
    if api_key.is_empty() {
        Some("请先设置 DeepSeek API Key".to_owned())
    } else {
        None
    }
}

fn push_str(out: &mut Vec<char>, s: &str)
    ensures
        final(out)@ == old(out)@ + s@,
{
    let c = chars_of(s);
    push_all(out, c.as_slice());
}

/// The lines of the sensitive columns.
fn matched_lines_exec(columns: &Vec<ColumnInfo>) -> (r: Vec<Vec<char>>)
    ensures
        views(r@) == matched_lines(columns@),
{
    let rules_matched = match_columns(columns.as_slice());
    let mut out: Vec<Vec<char>> = Vec::new();
    for i in 0..rules_matched.len()
        invariant
            matches_columns(rules_matched@, columns@),
            views(out@) == matched_lines(columns@.take(i as int)),
    {
        let m = &rules_matched[i];
        assert(columns@.take(i + 1).drop_last() == columns@.take(i as int));
        assert(columns@.take(i + 1).last() == columns@[i as int]);
        assert(matched_view(rules_matched@[i as int]) == (
            columns@[i as int].name@,
            column_kind(columns@[i as int].name@),
            strs(columns@[i as int].sample_values@),
        ));
        if !m.sensitive_type.prefix().is_empty() {
            let mut line: Vec<char> = Vec::new();
            push_str(&mut line, "  - ");
            push_str(&mut line, m.column_name.as_str());
            push_str(&mut line, ": ");
            push_str(&mut line, m.sensitive_type.label());
            push_str(&mut line, " (");
            push_str(&mut line, m.sensitive_type.prefix());
            push_str(&mut line, ")");
            let ghost before = views(out@);
            out.push(line);
            assert(views(out@) =~= before.push(out@.last()@));
        }
    }
    assert(columns@.take(rules_matched@.len() as int) == columns@);
    out
}

/// The data sample of masked rows under `headers`.
fn data_sample_exec(headers: &Vec<String>, rows: &Vec<Vec<String>>) -> (r: Vec<char>)
    ensures
        r@ == data_sample(strs(headers@), rows_view(rows@)),
{
    let n = if rows.len() <= 10 { rows.len() } else { 10 };
    let ghost fr = first_rows(rows_view(rows@));
    let ghost lines_spec = fr.map_values(|r: Seq<Seq<char>>| row_line(strs(headers@), r));
    let mut lines: Vec<Vec<char>> = Vec::new();
    for i in 0..n
        invariant
            n == fr.len(),
            n <= rows@.len(),
            fr == first_rows(rows_view(rows@)),
            lines_spec == fr.map_values(|r: Seq<Seq<char>>| row_line(strs(headers@), r)),
            views(lines@) == lines_spec.take(i as int),
    {
        let row = &rows[i];
        assert(fr[i as int] == strs(row@));
        let m = if headers.len() <= row.len() { headers.len() } else { row.len() };
        let ghost pairs = cell_pairs(strs(headers@), strs(row@));
        let mut cells: Vec<Vec<char>> = Vec::new();
        for j in 0..m
            invariant
                m == pairs.len(),
                m <= headers@.len(),
                m <= row@.len(),
                pairs == cell_pairs(strs(headers@), strs(row@)),
                views(cells@) == pairs.take(j as int),
        {
            let mut cell: Vec<char> = Vec::new();
            push_str(&mut cell, headers[j].as_str());
            push_str(&mut cell, "=");
            push_str(&mut cell, row[j].as_str());
            let ghost before = views(cells@);
            cells.push(cell);
            assert(views(cells@) =~= before.push(pairs[j as int]));
            assert(pairs.take(j + 1) =~= pairs.take(j as int).push(pairs[j as int]));
        }
        assert(pairs.take(m as int) == pairs);
        let sep = chars_of(", ");
        let line = join_chars(&cells, sep.as_slice());
        let ghost before = views(lines@);
        lines.push(line);
        assert(views(lines@) =~= before.push(lines_spec[i as int]));
        assert(lines_spec.take(i + 1) =~= lines_spec.take(i as int).push(lines_spec[i as int]));
    }
    assert(lines_spec.take(n as int) == lines_spec);
    let nl = chars_of("\n");
    join_chars(&lines, nl.as_slice())
}

/// The system and user messages for a question about `data`, or `None` where some
/// cell of a sensitive column would be cut inside a character.
pub fn chat_messages(message: &str, file_path: &str, data: &ExcelData) -> (r: Option<
    Vec<(String, String)>,
>)
    ensures
        r is Some <==> rows_supported(rows_view(data.rows@), column_kinds(data.columns@)),
        r matches Some(v) ==> v@.len() == 2 && v@[0].0@ == "system"@ && v@[1].0@ == "user"@ && (
        v@[0].1@, v@[1].1@) == chat_messages_for(message@, file_path@, *data),
{
    let masked = try_desensitize_data(data.columns.as_slice(), data.rows.as_slice());
    match masked {
        None => None,
        Some((rows, _)) => {
            let mut info: Vec<char> = Vec::new();
            push_str(&mut info, "文件：");
            push_str(&mut info, file_path);
            push_str(&mut info, "\n列数：");
            let nc = decimal_chars(data.columns.len());
            push_all(&mut info, nc.as_slice());
            push_str(&mut info, "\n行数：");
            let nr = decimal_chars(data.total_rows);
            push_all(&mut info, nr.as_slice());
            let lines = matched_lines_exec(&data.columns);
            let nl = chars_of("\n");
            let desc = join_chars(&lines, nl.as_slice());
            let info_s = string_from_chars(info.as_slice());
            let desc_s = string_from_chars(desc.as_slice());
            let system = build_system_prompt(info_s.as_str(), desc_s.as_str());
            let mut headers: Vec<String> = Vec::new();
            for i in 0..data.columns.len()
                invariant
                    strs(headers@) == data.columns@.map_values(|c: ColumnInfo| c.name@).take(
                        i as int,
                    ),
            {
                let ghost before = strs(headers@);
                headers.push(data.columns[i].name.clone());
                assert(strs(headers@) =~= before.push(data.columns@[i as int].name@));
                assert(data.columns@.map_values(|c: ColumnInfo| c.name@).take(i + 1)
                    =~= data.columns@.map_values(|c: ColumnInfo| c.name@).take(i as int).push(
                    data.columns@[i as int].name@,
                ));
            }
            assert(data.columns@.map_values(|c: ColumnInfo| c.name@).take(
                data.columns@.len() as int,
            ) =~= data.columns@.map_values(|c: ColumnInfo| c.name@));
            let sample = data_sample_exec(&headers, &rows);
            let mut user: Vec<char> = Vec::new();
            push_str(&mut user, message);
            push_str(&mut user, "\n\n数据样本（脱敏后前10行）：\n");
            push_all(&mut user, sample.as_slice());
            let mut out: Vec<(String, String)> = Vec::new();
            out.push(("system".to_owned(), system));
            out.push(("user".to_owned(), string_from_chars(user.as_slice())));
            Some(out)
        },
    }
}

} // verus!
