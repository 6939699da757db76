//! Tables read from spreadsheets: columns with sample values, and rows padded to
//! the header's width. Reading the file itself happens outside the library; the
//! rows arrive here as strings.
use vstd::prelude::*;
use crate::input::{SheetFormat, unsupported_format, unsupported_format_message};
use crate::text::{
    ends_with, lowercase, to_lowercase, chars_of, ends_with_chars, push_all, string_from_chars,
};

verus! {

/// One column: its name and up to five non-empty sample values.
#[derive(Debug, Clone)]
pub struct ColumnInfo {
    pub name: String,
    pub sample_values: Vec<String>,
}

/// A table: sheet name, columns, data rows (without the header) and their number.
#[derive(Debug, Clone)]
pub struct ExcelData {
    pub sheet_name: String,
    pub columns: Vec<ColumnInfo>,
    pub rows: Vec<Vec<String>>,
    pub total_rows: usize,
}

/// The texts held by a vector of strings.
pub open spec fn strs(v: Seq<String>) -> Seq<Seq<char>> {
    v.map_values(|s: String| s@)
}

/// The texts held by a vector of rows.
pub open spec fn rows_view(v: Seq<Vec<String>>) -> Seq<Seq<Seq<char>>> {
    v.map_values(|r: Vec<String>| strs(r@))
}

/// A column as (name, samples).
pub open spec fn column_view(c: ColumnInfo) -> (Seq<char>, Seq<Seq<char>>) {
    (c.name@, strs(c.sample_values@))
}

pub open spec fn columns_view(v: Seq<ColumnInfo>) -> Seq<(Seq<char>, Seq<Seq<char>>)> {
    v.map_values(|c: ColumnInfo| column_view(c))
}

/// `row` cut or padded with empty cells to `n` cells.
pub open spec fn padded_row(row: Seq<Seq<char>>, n: nat) -> Seq<Seq<char>> {
    Seq::new(n, |i: int| if i < row.len() { row[i] } else { Seq::<char>::empty() })
}

/// The non-empty values of column `i`, in row order.
pub open spec fn nonempty_in_column(rows: Seq<Seq<Seq<char>>>, i: int) -> Seq<Seq<char>>
    decreases rows.len(),
{
    if rows.len() == 0 {
        seq![]
    } else if rows.last()[i].len() > 0 {
        nonempty_in_column(rows.drop_last(), i).push(rows.last()[i])
    } else {
        nonempty_in_column(rows.drop_last(), i)
    }
}

/// The first five non-empty values of column `i`.
pub open spec fn samples_of(rows: Seq<Seq<Seq<char>>>, i: int) -> Seq<Seq<char>> {
    let v = nonempty_in_column(rows, i);
    if v.len() <= 5 {
        v
    } else {
        v.take(5)
    }
}

/// Whether `d` is the table built from `headers` and `raw` rows: one column per
/// header with its samples, every row cut or padded to the header's width.
pub open spec fn is_table(
    d: ExcelData,
    sheet_name: Seq<char>,
    headers: Seq<Seq<char>>,
    raw: Seq<Seq<Seq<char>>>,
) -> bool {
    let rows = raw.map_values(|r: Seq<Seq<char>>| padded_row(r, headers.len()));
    &&& d.sheet_name@ == sheet_name
    &&& rows_view(d.rows@) == rows
    &&& d.total_rows == raw.len()
    &&& d.columns@.len() == headers.len()
    &&& forall|i: int|
        0 <= i < headers.len() ==> column_view(#[trigger] d.columns@[i]) == (
            headers[i],
            samples_of(rows, i),
        )
}

/// A copy of a vector of strings.
pub fn copy_strings(v: &Vec<String>) -> (r: Vec<String>)
    ensures
        strs(r@) == strs(v@),
{
    let mut r: Vec<String> = Vec::new();
    for i in 0..v.len()
        invariant
            strs(r@) == strs(v@).take(i as int),
    {
        let ghost before = strs(r@);
        r.push(v[i].clone());
        assert(strs(r@) =~= before.push(v@[i as int]@));
        assert(strs(v@).take(i + 1) =~= strs(v@).take(i as int).push(v@[i as int]@));
    }
    assert(strs(v@).take(v@.len() as int) == strs(v@));
    r
}

/// `row` cut or padded with empty cells to `n` cells.
fn pad_row(row: &Vec<String>, n: usize) -> (r: Vec<String>)
    ensures
        strs(r@) == padded_row(strs(row@), n as nat),
{
    let mut r: Vec<String> = Vec::new();
    for i in 0..n
        invariant
            strs(r@) == padded_row(strs(row@), n as nat).take(i as int),
    {
        let ghost before = strs(r@);
        let cell = if i < row.len() {
            row[i].clone()
        } else {
            String::new()
        };
        r.push(cell);
        assert(strs(r@) =~= before.push(padded_row(strs(row@), n as nat)[i as int]));
        assert(padded_row(strs(row@), n as nat).take(i + 1) =~= padded_row(
            strs(row@),
            n as nat,
        ).take(i as int).push(padded_row(strs(row@), n as nat)[i as int]));
    }
    assert(padded_row(strs(row@), n as nat).take(n as int) =~= padded_row(strs(row@), n as nat));
    r
}

/// Builds the table of `headers` and `raw` rows: columns named by the headers,
/// rows cut or padded to the header's width, and for each column the first five
/// non-empty values as samples.
pub fn table_from_rows(sheet_name: String, headers: &Vec<String>, raw: &Vec<Vec<String>>) -> (r:
    ExcelData)
    ensures
        is_table(r, sheet_name@, strs(headers@), rows_view(raw@)),
{
    let n = headers.len();
    let ghost hv = strs(headers@);
    let ghost rows_spec = rows_view(raw@).map_values(
        |r: Seq<Seq<char>>| padded_row(r, hv.len()),
    );
    let mut columns: Vec<ColumnInfo> = Vec::new();
    for i in 0..n
        invariant
            n == headers@.len(),
            hv == strs(headers@),
            columns@.len() == i,
            forall|k: int|
                0 <= k < i ==> column_view(#[trigger] columns@[k]) == (
                    hv[k],
                    Seq::<Seq<char>>::empty(),
                ),
    {
        columns.push(ColumnInfo { name: headers[i].clone(), sample_values: Vec::new() });
        assert(column_view(columns@[i as int]).1 =~= Seq::<Seq<char>>::empty());
    }
    let mut rows: Vec<Vec<String>> = Vec::new();
    let mut j: usize = 0;
    while j < raw.len()
        invariant
            n == headers@.len(),
            hv == strs(headers@),
            rows_spec == rows_view(raw@).map_values(|r: Seq<Seq<char>>| padded_row(r, hv.len())),
            j <= raw@.len(),
            rows_view(rows@) == rows_spec.take(j as int),
            columns@.len() == n,
            forall|k: int|
                0 <= k < n ==> column_view(#[trigger] columns@[k]) == (
                    hv[k],
                    samples_of(rows_spec.take(j as int), k),
                ),
        decreases raw.len() - j,
    {
        let values = pad_row(&raw[j], n);
        let ghost prev_cols = columns@;
        let ghost pre = rows_spec.take(j as int);
        let ghost cur = rows_spec.take(j + 1);
        assert(rows_spec.len() == raw@.len());
        assert(cur.drop_last() == pre);
        assert(cur.last() == strs(values@));
        let mut i: usize = 0;
        while i < n
            invariant
                n == headers@.len(),
                values@.len() == n,
                columns@.len() == n,
                i <= n,
                hv == strs(headers@),
                cur.len() == pre.len() + 1,
                cur.drop_last() == pre,
                cur.last() == strs(values@),
                forall|k: int|
                    0 <= k < i ==> column_view(#[trigger] columns@[k]) == (hv[k], samples_of(cur, k)),
                forall|k: int|
                    i <= k < n ==> #[trigger] columns@[k] == prev_cols[k],
                forall|k: int|
                    0 <= k < n ==> column_view(#[trigger] prev_cols[k]) == (hv[k], samples_of(pre, k)),
            decreases n - i,
        {
            let v = &values[i];
            let ghost old_samples = strs(columns@[i as int].sample_values@);
            assert(cur.last()[i as int] == v@);
            proof {
                let a = nonempty_in_column(pre, i as int);
                assert(nonempty_in_column(cur, i as int) == if v@.len() > 0 {
                    a.push(v@)
                } else {
                    a
                });
            }
            if !v.as_str().is_empty() && columns[i].sample_values.len() < 5 {
                let mut col = ColumnInfo {
                    name: columns[i].name.clone(),
                    sample_values: copy_strings(&columns[i].sample_values),
                };
                col.sample_values.push(v.clone());
                assert(strs(col.sample_values@) =~= old_samples.push(v@));
                columns.set(i, col);
                proof {
                    let a = nonempty_in_column(pre, i as int);
                    if a.len() > 5 {
                        assert(false);
                    }
                    assert(samples_of(cur, i as int) =~= old_samples.push(v@));
                }
            } else {
                proof {
                    let a = nonempty_in_column(pre, i as int);
                    if v@.len() > 0 {
                        assert(a.len() >= 5);
                        assert(a.push(v@).take(5) =~= a.take(5));
                    }
                    assert(samples_of(cur, i as int) =~= old_samples) by {
                        if v@.len() == 0 {
                        } else if a.len() > 5 {
                            assert(a.push(v@).take(5) =~= a.take(5));
                        } else {
                            assert(a.push(v@).take(5) =~= a);
                        }
                    }
                }
            }
            i += 1;
        }
        let ghost before = rows_view(rows@);
        rows.push(values);
        assert(rows_view(rows@) =~= before.push(cur.last()));
        assert(rows_spec.take(j + 1) =~= pre.push(cur.last()));
        j += 1;
    }
    assert(rows_spec.take(raw@.len() as int) =~= rows_spec);
    ExcelData { sheet_name, columns, rows, total_rows: raw.len() }
}

/// The table of a sheet's cells, first row as header; the error `工作表为空` for
/// a sheet without rows.
pub fn table_from_sheet(sheet_name: String, cells: &Vec<Vec<String>>) -> (r: Result<ExcelData, String>)
    ensures
        r is Err <==> cells@.len() == 0,
        r matches Err(m) ==> m@ == "工作表为空"@,
        r matches Ok(d) ==> is_table(d, sheet_name@, strs(cells@[0]@), rows_view(cells@).drop_first()),
{
    if cells.len() == 0 {
        return Err("工作表为空".to_owned());
    }
    let mut rest: Vec<Vec<String>> = Vec::new();
    for k in 1..cells.len()
        invariant
            cells@.len() > 0,
            rows_view(rest@) == rows_view(cells@).subrange(1, k as int),
    {
        let ghost before = rows_view(rest@);
        rest.push(copy_strings(&cells[k]));
        assert(rows_view(rest@) =~= before.push(strs(cells@[k as int]@)));
        assert(rows_view(cells@).subrange(1, k + 1) =~= rows_view(cells@).subrange(1, k as int).push(
            strs(cells@[k as int]@),
        ));
    }
    assert(rows_view(cells@).subrange(1, cells@.len() as int) =~= rows_view(cells@).drop_first());
    Ok(table_from_rows(sheet_name, &cells[0], &rest))
}

/// The table reader for a lowercase file name, if any: `.csv`, then `.xlsx`.
pub open spec fn excel_format_of(lower: Seq<char>) -> Option<SheetFormat> {
    if ends_with(lower, ".csv"@) {
        Some(SheetFormat::Csv)
    } else if ends_with(lower, ".xlsx"@) {
        Some(SheetFormat::Xlsx)
    } else {
        None
    }
}

/// The table reader for the file at `path`, by the lowercase form of its name:
/// `.csv` or `.xlsx`; for any other name the error `不支持的文件格式: <path>`.
pub fn excel_file_format(path: &str) -> (r: Result<SheetFormat, String>)
    ensures
        r is Ok <==> excel_format_of(lowercase(path@)) is Some,
        r matches Ok(f) ==> excel_format_of(lowercase(path@)) == Some(f),
        r matches Err(m) ==> m@ == unsupported_format(path@),
{
    let lower = to_lowercase(path);
    let l = chars_of(lower.as_str());
    let csv = chars_of(".csv");
    let xlsx = chars_of(".xlsx");
    if ends_with_chars(l.as_slice(), csv.as_slice()) {
        Ok(SheetFormat::Csv)
    } else if ends_with_chars(l.as_slice(), xlsx.as_slice()) {
        Ok(SheetFormat::Xlsx)
    } else {
        Err(unsupported_format_message(path))
    }
}

/// The first sheet of a workbook for the command line: the first name, or the
/// error `文件 '<path>' 中没有工作表` for a workbook without sheets.
pub fn first_sheet_name(sheet_names: &Vec<String>, path: &str) -> (r: Result<String, String>)
    ensures
        r is Ok <==> sheet_names@.len() > 0,
        r matches Ok(n) ==> n@ == sheet_names@[0]@,
        r matches Err(m) ==> m@ == "文件 '"@ + path@ + "' 中没有工作表"@,
{
    if sheet_names.len() == 0 {
        let mut out = chars_of("文件 '");
        let p = chars_of(path);
        push_all(&mut out, p.as_slice());
        let tail = chars_of("' 中没有工作表");
        push_all(&mut out, tail.as_slice());
        return Err(string_from_chars(out.as_slice()));
    }
    Ok(sheet_names[0].clone())
}

/// The first sheet of a workbook for the desktop application: the first name, or
/// the error `工作簿中没有工作表` for a workbook without sheets.
pub fn first_workbook_sheet(sheet_names: &Vec<String>) -> (r: Result<String, String>)
    ensures
        r is Ok <==> sheet_names@.len() > 0,
        r matches Ok(n) ==> n@ == sheet_names@[0]@,
        r matches Err(m) ==> m@ == "工作簿中没有工作表"@,
{
    if sheet_names.len() == 0 {
        return Err("工作簿中没有工作表".to_owned());
    }
    Ok(sheet_names[0].clone())
}

} // verus!
