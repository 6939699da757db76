use desense::docx::{docx_body_entry, docx_text_from_events, extract_text_from_docx_xml, XmlEvent};
use desense::excel::{first_sheet_name, first_workbook_sheet, table_from_rows, ColumnInfo, ExcelData};
use desense::input::{
    content_kind, csv_content, custom_dict_from_lists, dict_term_count, excel_to_text,
    is_image_file, workbook_content,
    workbook_format, ContentKind, SheetFormat,
};
use desense::pdf::pdf_text_outcome;
use desense::txt::{content_to_excel, read_txt_from_str};

fn text_from_pdf_bytes(bytes: &[u8]) -> Result<String, String> {
    pdf_text_outcome(pdf_extract::extract_text_from_mem(bytes).map_err(|e| e.to_string()))
}

fn s(v: &[&str]) -> Vec<String> {
    v.iter().map(|x| x.to_string()).collect()
}

const DOC_XML: &str = r#"<?xml version="1.0" encoding="UTF-8" standalone="yes"?>
<w:document xmlns:w="http://schemas.openxmlformats.org/wordprocessingml/2006/main">
  <w:body>
    <w:p><w:r><w:t>测试文档标题</w:t></w:r></w:p>
    <w:p><w:r><w:t>联系人：张三</w:t></w:r></w:p>
    <w:p><w:r><w:t>电话：13800138000</w:t></w:r></w:p>
    <w:p><w:r><w:t>身份证号：110101199003074477</w:t></w:r></w:p>
    <w:p><w:r><w:t>金额：¥500,000.00</w:t></w:r></w:p>
  </w:body>
</w:document>"#;

#[test]
fn docx_xml_text_has_one_line_per_paragraph() {
    let text = extract_text_from_docx_xml(DOC_XML);
    assert!(text.contains("张三"));
    assert!(text.contains("13800138000"));
    assert_eq!(
        text,
        "测试文档标题\n联系人：张三\n电话：13800138000\n身份证号：110101199003074477\n金额：¥500,000.00"
    );
}

#[test]
fn docx_xml_entities_and_breaks() {
    let xml = "<w:body><w:p><w:t>A &amp; B</w:t><w:br/><w:t>C</w:t></w:p><w:t>  </w:t><w:p/><w:r>x</w:r></w:body>";
    assert_eq!(extract_text_from_docx_xml(xml), "A & B\nC");
}

#[test]
fn docx_xml_stops_at_a_syntax_error() {
    let xml = "<w:p><w:t>前</w:t></w:p></w:q><w:p><w:t>后</w:t></w:p>";
    assert_eq!(extract_text_from_docx_xml(xml), "前");
}

#[test]
fn docx_events_to_text() {
    let events = vec![
        XmlEvent::Open("w:p".to_string()),
        XmlEvent::Text("outside".to_string()),
        XmlEvent::Open("w:t".to_string()),
        XmlEvent::Text("  第一行 ".to_string()),
        XmlEvent::Close("w:t".to_string()),
        XmlEvent::Open("w:pPr".to_string()),
        XmlEvent::Open("w:t".to_string()),
        XmlEvent::Text("第二行".to_string()),
        XmlEvent::Open("w:br".to_string()),
        XmlEvent::Open("w:br".to_string()),
        XmlEvent::Text("第三行".to_string()),
        XmlEvent::Other,
    ];
    assert_eq!(docx_text_from_events(&events), "第一行\n第二行\n第三行");
    assert_eq!(docx_text_from_events(&[]), "");
}

#[test]
fn pdf_garbage_is_an_error() {
    let r = text_from_pdf_bytes(b"this is not a pdf");
    let e = r.unwrap_err();
    assert!(e.starts_with("PDF 文本提取失败: "), "{}", e);
    assert!(e.len() > "PDF 文本提取失败: ".len());
}

#[test]
fn content_kinds_by_name() {
    assert_eq!(content_kind("a/B.XLSX"), ContentKind::Workbook);
    assert_eq!(content_kind("b.xls"), ContentKind::LegacyWorkbook);
    assert_eq!(content_kind("b.ET"), ContentKind::LegacyWorkbook);
    assert_eq!(content_kind("c.csv"), ContentKind::Csv);
    assert_eq!(content_kind("d.pdf"), ContentKind::Pdf);
    assert_eq!(content_kind("e.docx"), ContentKind::Docx);
    assert_eq!(content_kind("f.doc"), ContentKind::Doc);
    assert_eq!(content_kind("g.wps"), ContentKind::Wps);
    assert_eq!(content_kind("h.JPEG"), ContentKind::Image);
    assert_eq!(content_kind("notes.txt"), ContentKind::PlainText);
    assert_eq!(content_kind("README"), ContentKind::PlainText);
}

#[test]
fn image_names() {
    for n in ["a.png", "a.jpg", "a.jpeg", "a.bmp", "a.tiff", "a.tif", "a.webp"] {
        assert!(is_image_file(n), "{}", n);
    }
    assert!(!is_image_file("a.gif"));
    assert!(!is_image_file("a.PNG"));
}

#[test]
fn workbook_formats_by_name() {
    assert_eq!(workbook_format("x.XLSX").unwrap(), SheetFormat::Xlsx);
    assert_eq!(workbook_format("x.xls").unwrap(), SheetFormat::Xls);
    assert_eq!(workbook_format("x.et").unwrap(), SheetFormat::Et);
    assert_eq!(workbook_format("x.csv").unwrap(), SheetFormat::Csv);
    assert_eq!(workbook_format("报表.pdf").unwrap_err(), "不支持的文件格式: 报表.pdf");
}

#[test]
fn table_as_tab_separated_text() {
    let d = table_from_rows("S".to_string(), &s(&["姓名", "电话"]), &vec![s(&["张三", "138"]), s(&["李四"])]);
    assert_eq!(excel_to_text(&d), "姓名\t电话\n张三\t138\n李四\t\n");
    let empty = ExcelData { sheet_name: String::new(), columns: Vec::new(), rows: Vec::new(), total_rows: 0 };
    assert_eq!(excel_to_text(&empty), "\n");
    let one = ExcelData {
        sheet_name: String::new(),
        columns: vec![ColumnInfo { name: "h".to_string(), sample_values: Vec::new() }],
        rows: vec![s(&["a", "b"])],
        total_rows: 1,
    };
    assert_eq!(excel_to_text(&one), "h\na\tb\n");
}

#[test]
fn dictionary_from_word_lists() {
    let d = custom_dict_from_lists(
        Some(s(&["张三", "李四"])),
        None,
        Some(Vec::new()),
        Some(s(&["宙斯计划"])),
        None,
    );
    assert_eq!(d.len(), 2);
    assert_eq!(d[0].0, "PERSON");
    assert_eq!(d[0].1, s(&["张三", "李四"]));
    assert_eq!(d[1].0, "SYSTEM");
    assert_eq!(d[1].1, s(&["宙斯计划"]));
    assert_eq!(dict_term_count(&d), 3);
    assert!(custom_dict_from_lists(None, None, None, None, None).is_empty());
}

#[test]
fn blank_text_is_an_error() {
    assert_eq!(content_to_excel(" \n\t ", "正文").unwrap_err(), "文件内容为空");
    assert_eq!(read_txt_from_str("").unwrap_err(), "文件内容为空");
}

#[test]
fn text_paragraphs_become_rows() {
    let d = content_to_excel("第一段\n\n  第二段  \n\n\n\n第三段", "正文").unwrap();
    assert_eq!(d.sheet_name, "正文");
    assert_eq!(d.columns.len(), 1);
    assert_eq!(d.columns[0].name, "正文内容");
    assert_eq!(d.rows, vec![s(&["第一段"]), s(&["第二段"]), s(&["第三段"])]);
    assert_eq!(d.total_rows, 3);
    assert_eq!(d.columns[0].sample_values, s(&["第一段", "第二段", "第三段"]));
    let r = read_txt_from_str("x").unwrap();
    assert_eq!(r.sheet_name, "解析内容");
}

#[test]
fn long_paragraphs_are_previewed() {
    let long: String = std::iter::repeat('字').take(60).collect();
    let text = format!("{}\n\n1\n\n2\n\n3\n\n4\n\n5", long);
    let d = content_to_excel(&text, "正文").unwrap();
    let first: String = std::iter::repeat('字').take(50).collect();
    assert_eq!(d.columns[0].sample_values, vec![first, "1".into(), "2".into(), "3".into(), "4".into()]);
    assert_eq!(d.total_rows, 6);
    assert_eq!(d.rows[0][0], long);
}

/// A one-page PDF that shows `Hello` in Helvetica, with a correct cross-reference table.
fn hello_pdf() -> Vec<u8> {
    let stream = "BT /F1 24 Tf 72 720 Td (Hello) Tj ET";
    let objects = vec![
        "<< /Type /Catalog /Pages 2 0 R >>".to_string(),
        "<< /Type /Pages /Kids [3 0 R] /Count 1 >>".to_string(),
        "<< /Type /Page /Parent 2 0 R /MediaBox [0 0 612 792] /Contents 4 0 R /Resources << /Font << /F1 5 0 R >> >> >>".to_string(),
        format!("<< /Length {} >>\nstream\n{}\nendstream", stream.len(), stream),
        "<< /Type /Font /Subtype /Type1 /BaseFont /Helvetica >>".to_string(),
    ];
    let mut out = String::from("%PDF-1.4\n");
    let mut offsets = Vec::new();
    for (i, o) in objects.iter().enumerate() {
        offsets.push(out.len());
        out.push_str(&format!("{} 0 obj\n{}\nendobj\n", i + 1, o));
    }
    let xref = out.len();
    out.push_str(&format!("xref\n0 {}\n0000000000 65535 f \n", objects.len() + 1));
    for off in offsets {
        out.push_str(&format!("{:010} 00000 n \n", off));
    }
    out.push_str(&format!(
        "trailer\n<< /Size {} /Root 1 0 R >>\nstartxref\n{}\n%%EOF\n",
        objects.len() + 1,
        xref
    ));
    out.into_bytes()
}

#[test]
fn pdf_text_is_extracted() {
    let text = text_from_pdf_bytes(&hello_pdf()).unwrap();
    assert!(text.contains("Hello"), "{:?}", text);
}

#[test]
fn pdf_outcome_is_passed_on_or_reported() {
    assert_eq!(pdf_text_outcome(Ok("正文".to_string())).unwrap(), "正文");
    assert_eq!(pdf_text_outcome(Err("bad".to_string())).unwrap_err(), "PDF 文本提取失败: bad");
}

#[test]
fn docx_body_entry_by_priority() {
    let names = s(&["[Content_Types].xml", "document.xml", "word/document2.xml"]);
    assert_eq!(docx_body_entry(&names).unwrap(), "word/document2.xml");
    let names = s(&["document.xml", "word/document.xml"]);
    assert_eq!(docx_body_entry(&names).unwrap(), "word/document.xml");
    assert_eq!(docx_body_entry(&s(&["mimetype"])).unwrap_err(), "未找到 word/document.xml");
}

#[test]
fn first_sheet_or_error() {
    assert_eq!(first_sheet_name(&s(&["Sheet1", "Sheet2"]), "a.xlsx").unwrap(), "Sheet1");
    assert_eq!(first_sheet_name(&Vec::new(), "a.xlsx").unwrap_err(), "文件 'a.xlsx' 中没有工作表");
    assert_eq!(first_workbook_sheet(&s(&["数据"])).unwrap(), "数据");
    assert_eq!(first_workbook_sheet(&Vec::new()).unwrap_err(), "工作簿中没有工作表");
}

#[test]
fn table_reading_outcomes() {
    let d = table_from_rows("S".to_string(), &s(&["h"]), &vec![s(&["v"])]);
    assert_eq!(workbook_content(Ok(d.clone())).unwrap(), "h\nv\n");
    assert_eq!(csv_content(Ok(d)).unwrap(), "h\nv\n");
    assert_eq!(workbook_content(Err("坏".to_string())).unwrap_err(), "读取 Excel 失败: 坏");
    assert_eq!(csv_content(Err("坏".to_string())).unwrap_err(), "读取 CSV 失败: 坏");
}
