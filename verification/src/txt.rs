//! Plain text as a table: one row per paragraph, in a single column.
use vstd::prelude::*;
use crate::excel::{ColumnInfo, ExcelData, strs, rows_view};
use crate::text::{trim, split, split_acc, contains, occurs_at, views, chars_of, split_chars, trim_chars, is_blank, string_from_chars};

verus! {

/// The non-empty texts of `ps`, in order.
pub open spec fn nonempty_texts(ps: Seq<Seq<char>>) -> Seq<Seq<char>>
    decreases ps.len(),
{
    if ps.len() == 0 {
        seq![]
    } else if ps.last().len() > 0 {
        nonempty_texts(ps.drop_last()).push(ps.last())
    } else {
        nonempty_texts(ps.drop_last())
    }
}

/// The paragraphs of `content`: the pieces between blank lines (`"\n\n"`),
/// trimmed, empty ones dropped.
pub open spec fn paragraphs(content: Seq<char>) -> Seq<Seq<char>> {
    nonempty_texts(split(content, seq!['\n', '\n']).map_values(|p: Seq<char>| trim(p)))
}

proof fn lemma_split_without_separator(s: Seq<char>, sep: Seq<char>, cur: Seq<char>)
    requires
        sep.len() > 0,
        !contains(s, sep),
    ensures
        split_acc(s, sep, cur) == seq![cur + s],
    decreases s.len(),
{
    if s.len() >= sep.len() {
        assert(!occurs_at(s, sep, 0));
        let r = s.drop_first();
        assert(!contains(r, sep)) by {
            if contains(r, sep) {
                let i = choose|i: int| occurs_at(r, sep, i);
                assert(s.subrange(i + 1, i + 1 + sep.len()) =~= r.subrange(i, i + sep.len()));
                assert(occurs_at(s, sep, i + 1));
            }
        }
        lemma_split_without_separator(r, sep, cur.push(s[0]));
        assert(cur.push(s[0]) + r =~= cur + s);
    }
}

/// Paragraphs are separated by blank lines only: a text that holds no `"\n\n"`
/// and is not only white space is a single paragraph, the whole text trimmed,
/// single line breaks included.
pub proof fn lemma_single_paragraph(content: Seq<char>)
    requires
        !contains(content, seq!['\n', '\n']),
        trim(content).len() > 0,
    ensures
        paragraphs(content) == seq![trim(content)],
{
    lemma_split_without_separator(content, seq!['\n', '\n'], seq![]);
    assert(seq![] + content =~= content);
    assert(split(content, seq!['\n', '\n']) == seq![content]);
    let ts = split(content, seq!['\n', '\n']).map_values(|p: Seq<char>| trim(p));
    assert(ts =~= seq![trim(content)]);
    assert(ts.drop_last() =~= Seq::<Seq<char>>::empty());
    assert(nonempty_texts(ts.drop_last()) == Seq::<Seq<char>>::empty());
    assert(ts.last() == trim(content));
    assert(nonempty_texts(ts) == nonempty_texts(ts.drop_last()).push(ts.last()));
    assert(Seq::<Seq<char>>::empty().push(trim(content)) =~= seq![trim(content)]);
}

/// The previews of the first five paragraphs: their first fifty characters.
pub open spec fn previews(ps: Seq<Seq<char>>) -> Seq<Seq<char>> {
    let first = if ps.len() <= 5 {
        ps
    } else {
        ps.take(5)
    };
    first.map_values(|p: Seq<char>| if p.len() <= 50 { p } else { p.take(50) })
}

/// Whether `d` is the table of `content`: one column `正文内容` whose samples are
/// the previews, and one single-cell row per paragraph.
pub open spec fn is_text_table(d: ExcelData, content: Seq<char>, sheet_name: Seq<char>) -> bool {
    let ps = paragraphs(content);
    &&& d.sheet_name@ == sheet_name
    &&& d.columns@.len() == 1
    &&& d.columns@[0].name@ == "正文内容"@
    &&& strs(d.columns@[0].sample_values@) == previews(ps)
    &&& rows_view(d.rows@) == ps.map_values(|p: Seq<char>| seq![p])
    &&& d.total_rows == ps.len()
}

/// The pieces of `pieces` trimmed, with the empty ones dropped.
pub fn trimmed_nonempty(pieces: &Vec<Vec<char>>) -> (r: Vec<Vec<char>>)
    ensures
        views(r@) == nonempty_texts(views(pieces@).map_values(|p: Seq<char>| trim(p))),
{
    let ghost trimmed = views(pieces@).map_values(|p: Seq<char>| trim(p));
    let mut out: Vec<Vec<char>> = Vec::new();
    let mut i: usize = 0;
    assert(trimmed.take(0) =~= Seq::<Seq<char>>::empty());
    assert(views(out@) =~= Seq::<Seq<char>>::empty());
    while i < pieces.len()
        invariant
            i <= pieces@.len(),
            trimmed == views(pieces@).map_values(|p: Seq<char>| trim(p)),
            views(out@) == nonempty_texts(trimmed.take(i as int)),
        decreases pieces.len() - i,
    {
        let t = trim_chars(pieces[i].as_slice());
        assert(trimmed.take(i + 1).drop_last() == trimmed.take(i as int));
        assert(trimmed.take(i + 1).last() == t@);
        if t.len() > 0 {
            let ghost before = views(out@);
            out.push(t);
            assert(views(out@) =~= before.push(out@.last()@));
        }
        i += 1;
    }
    assert(trimmed.take(pieces@.len() as int) == trimmed);
    out
}

/// Wraps text content as a table: `Err` for content that is only white space,
/// otherwise one row per paragraph and the previews of the first five as samples.
pub fn content_to_excel(content: &str, sheet_name: &str) -> (r: Result<ExcelData, String>)
    ensures
        r is Err <==> trim(content@).len() == 0,
        r matches Err(e) ==> e@ == "文件内容为空"@,
        r matches Ok(d) ==> is_text_table(d, content@, sheet_name@),
        !contains(content@, seq!['\n', '\n']) ==> (r matches Ok(d) ==> d.total_rows == 1
            && rows_view(d.rows@) == seq![seq![trim(content@)]]),
{
    proof {
        if trim(content@).len() > 0 && !contains(content@, seq!['\n', '\n']) {
            lemma_single_paragraph(content@);
        }
    }
    let cc = chars_of(content);
    if is_blank(cc.as_slice()) {
        return Err("文件内容为空".to_owned());
    }
    let mut sep: Vec<char> = Vec::new();
    sep.push('\n');
    sep.push('\n');
    assert(sep@ =~= seq!['\n', '\n']);
    let pieces = split_chars(cc.as_slice(), sep.as_slice());
    let ghost ps = paragraphs(content@);
    let paras = trimmed_nonempty(&pieces);
    assert(views(paras@) == ps);
    // Samples and rows.
    let mut samples: Vec<String> = Vec::new();
    let mut rows: Vec<Vec<String>> = Vec::new();
    let mut k: usize = 0;
    while k < paras.len()
        invariant
            k <= paras@.len(),
            views(paras@) == ps,
            strs(samples@) == previews(ps.take(k as int)),
            samples@.len() == if k <= 5 { k as int } else { 5 },
            rows_view(rows@) == ps.take(k as int).map_values(|p: Seq<char>| seq![p]),
        decreases paras.len() - k,
    {
        let p = &paras[k];
        assert(ps[k as int] == p@);
        assert(ps.take(k + 1) == ps.take(k as int).push(p@));
        let cell = string_from_chars(p.as_slice());
        let mut row: Vec<String> = Vec::new();
        row.push(cell);
        let ghost rbefore = rows_view(rows@);
        rows.push(row);
        assert(strs(rows@.last()@) =~= seq![p@]);
        assert(rows_view(rows@) =~= rbefore.push(seq![p@]));
        assert(ps.take(k + 1).map_values(|p: Seq<char>| seq![p]) =~= ps.take(k as int).map_values(
            |p: Seq<char>| seq![p],
        ).push(seq![p@]));
        let ghost sbefore = strs(samples@);
        if samples.len() < 5 {
            let mut preview: Vec<char> = Vec::new();
            let m = if p.len() < 50 { p.len() } else { 50 };
            for q in 0..m
                invariant
                    m <= p@.len(),
                    preview@ == p@.take(q as int),
            {
                preview.push(p[q]);
                assert(p@.take(q + 1) == p@.take(q as int).push(p@[q as int]));
            }
            samples.push(string_from_chars(preview.as_slice()));
            assert(strs(samples@) =~= sbefore.push(preview@));
            assert(preview@ == if p@.len() <= 50 { p@ } else { p@.take(50) });
            assert(strs(samples@) == previews(ps.take(k as int)).push(
                if p@.len() <= 50 { p@ } else { p@.take(50) },
            ));
            assert(previews(ps.take(k + 1)) =~= previews(ps.take(k as int)).push(
                if p@.len() <= 50 { p@ } else { p@.take(50) },
            )) by {
                assert(sbefore.len() == previews(ps.take(k as int)).len());
                assert(p@.take(p@.len() as int) == p@);
            }
        } else {
            assert(previews(ps.take(k + 1)) =~= previews(ps.take(k as int))) by {
                assert(ps.take(k + 1).take(5) =~= ps.take(k as int).take(5));
                if k == 5 {
                    assert(ps.take(k as int).take(5) =~= ps.take(k as int));
                }
            }
            assert(strs(samples@) == previews(ps.take(k + 1)));
        }
        k += 1;
    }
    assert(ps.take(paras@.len() as int) == ps);
    let mut columns: Vec<ColumnInfo> = Vec::new();
    columns.push(ColumnInfo { name: "正文内容".to_owned(), sample_values: samples });
    Ok(ExcelData { sheet_name: sheet_name.to_owned(), columns, rows, total_rows: paras.len() })
}

/// Text already extracted from a document, as a table (sheet `解析内容`).
pub fn read_txt_from_str(content: &str) -> (r: Result<ExcelData, String>)
    ensures
        r is Err <==> trim(content@).len() == 0,
        r matches Err(e) ==> e@ == "文件内容为空"@,
        r matches Ok(d) ==> is_text_table(d, content@, "解析内容"@),
{
    content_to_excel(content, "解析内容")
}

} // verus!
