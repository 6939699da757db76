//! Text of a Word document body (`word/document.xml`): the runs of `<w:t>`
//! elements, one line per paragraph, blank lines dropped.
use vstd::prelude::*;
use crate::text::{
    is_ws, trim, trim_start, trim_end, split, split_acc, join, chars_of, chars_eq, push_all,
    split_chars, join_chars, string_from_chars,
};
use crate::txt::{nonempty_texts, trimmed_nonempty};
use quick_xml::events::Event;

verus! {

/// One event of an XML reader that trims the white space around text.
pub enum XmlEvent {
    /// An opening or self-closing tag, by its qualified name.
    Open(String),
    /// Text content, with entities resolved.
    Text(String),
    /// A closing tag, by its qualified name.
    Close(String),
    /// A comment, declaration, CDATA section, processing instruction or doctype.
    Other,
}

/// The text gathered so far and whether a `<w:t>` element is open, after one event.
pub open spec fn docx_step(acc: Seq<char>, in_wt: bool, e: XmlEvent) -> (Seq<char>, bool) {
    match e {
        XmlEvent::Open(n) => if n@ == "w:p"@ || n@ == "w:pPr"@ {
            (if acc.len() > 0 && acc.last() != '\n' { acc.push('\n') } else { acc }, in_wt)
        } else if n@ == "w:t"@ {
            (acc, true)
        } else if n@ == "w:br"@ {
            (acc.push('\n'), in_wt)
        } else {
            (acc, in_wt)
        },
        XmlEvent::Text(t) => if in_wt {
            (acc + t@, in_wt)
        } else {
            (acc, in_wt)
        },
        XmlEvent::Close(n) => if n@ == "w:t"@ {
            (acc, false)
        } else {
            (acc, in_wt)
        },
        _ => (acc, in_wt),
    }
}

/// The raw text and `<w:t>` state after the events `evs`, from an empty text.
pub open spec fn docx_scan(evs: Seq<XmlEvent>) -> (Seq<char>, bool)
    decreases evs.len(),
{
    if evs.len() == 0 {
        (seq![], false)
    } else {
        let p = docx_scan(evs.drop_last());
        docx_step(p.0, p.1, evs.last())
    }
}

/// The lines of `raw`, trimmed, without the empty ones, joined by `'\n'`.
pub open spec fn clean_lines(raw: Seq<char>) -> Seq<char> {
    join(nonempty_texts(split(raw, seq!['\n']).map_values(|l: Seq<char>| trim(l))), seq!['\n'])
}

/// The text of a document body read as the events `evs`.
pub open spec fn docx_text(evs: Seq<XmlEvent>) -> Seq<char> {
    clean_lines(docx_scan(evs).0)
}

/// Whether a text has no blank line: it neither starts nor ends with white
/// space, and each line break stands between two characters that are not.
pub open spec fn without_blank_lines(s: Seq<char>) -> bool {
    &&& s.len() > 0 ==> !is_ws(s[0]) && !is_ws(s.last())
    &&& forall|i: int|
        0 <= i < s.len() && #[trigger] s[i] == '\n' ==> 0 < i < s.len() - 1 && !is_ws(s[i - 1])
            && !is_ws(s[i + 1])
}

/// A line that is not blank: non-empty, no white space at either end, no line break.
spec fn solid_line(l: Seq<char>) -> bool {
    &&& l.len() > 0
    &&& !is_ws(l[0])
    &&& !is_ws(l.last())
    &&& forall|m: int| 0 <= m < l.len() ==> #[trigger] l[m] != '\n'
}

proof fn lemma_split_lines_unbroken(s: Seq<char>, cur: Seq<char>)
    requires
        forall|m: int| 0 <= m < cur.len() ==> #[trigger] cur[m] != '\n',
    ensures
        forall|k: int, m: int|
            0 <= k < split_acc(s, seq!['\n'], cur).len() && 0 <= m < split_acc(
                s,
                seq!['\n'],
                cur,
            )[k].len() ==> #[trigger] split_acc(s, seq!['\n'], cur)[k][m] != '\n',
    decreases s.len(),
{
    let sep = seq!['\n'];
    if s.len() < 1 {
        assert(cur + s =~= cur);
        assert(split_acc(s, sep, cur) == seq![cur]);
    } else if s.subrange(0, 1) == sep {
        let rest = s.subrange(1, s.len() as int);
        lemma_split_lines_unbroken(rest, seq![]);
        let tail = split_acc(rest, sep, seq![]);
        assert(split_acc(s, sep, cur) == seq![cur] + tail);
        assert forall|k: int, m: int|
            0 <= k < split_acc(s, sep, cur).len() && 0 <= m < split_acc(s, sep, cur)[k].len()
            implies #[trigger] split_acc(s, sep, cur)[k][m] != '\n' by {
            if k > 0 {
                assert(split_acc(s, sep, cur)[k] == tail[k - 1]);
            }
        }
    } else {
        assert(s.subrange(0, 1) =~= seq![s[0]]);
        assert(s[0] != '\n') by {
            if s[0] == '\n' {
                assert(seq![s[0]] =~= sep);
            }
        }
        let next = cur.push(s[0]);
        assert forall|m: int| 0 <= m < next.len() implies #[trigger] next[m] != '\n' by {
            if m < cur.len() {
                assert(next[m] == cur[m]);
            }
        }
        lemma_split_lines_unbroken(s.drop_first(), next);
        assert(split_acc(s, sep, cur) == split_acc(s.drop_first(), sep, next));
    }
}

proof fn lemma_trim_start_solid(s: Seq<char>)
    ensures
        trim_start(s).len() > 0 ==> !is_ws(trim_start(s)[0]),
        (forall|m: int| 0 <= m < s.len() ==> #[trigger] s[m] != '\n') ==> forall|m: int|
            0 <= m < trim_start(s).len() ==> #[trigger] trim_start(s)[m] != '\n',
    decreases s.len(),
{
    if s.len() > 0 && is_ws(s[0]) {
        lemma_trim_start_solid(s.drop_first());
        if forall|m: int| 0 <= m < s.len() ==> #[trigger] s[m] != '\n' {
            assert forall|m: int| 0 <= m < s.drop_first().len() implies #[trigger] s.drop_first()[m]
                != '\n' by {
                assert(s.drop_first()[m] == s[m + 1]);
            }
        }
    }
}

proof fn lemma_trim_end_solid(t: Seq<char>)
    ensures
        trim_end(t).len() > 0 ==> !is_ws(trim_end(t).last()) && trim_end(t)[0] == t[0],
        (forall|m: int| 0 <= m < t.len() ==> #[trigger] t[m] != '\n') ==> forall|m: int|
            0 <= m < trim_end(t).len() ==> #[trigger] trim_end(t)[m] != '\n',
    decreases t.len(),
{
    if t.len() > 0 && is_ws(t.last()) {
        lemma_trim_end_solid(t.drop_last());
        if forall|m: int| 0 <= m < t.len() ==> #[trigger] t[m] != '\n' {
            assert forall|m: int| 0 <= m < t.drop_last().len() implies #[trigger] t.drop_last()[m]
                != '\n' by {
                assert(t.drop_last()[m] == t[m]);
            }
        }
    }
}

proof fn lemma_trimmed_solid(l: Seq<char>)
    requires
        forall|m: int| 0 <= m < l.len() ==> #[trigger] l[m] != '\n',
        trim(l).len() > 0,
    ensures
        solid_line(trim(l)),
{
    lemma_trim_start_solid(l);
    lemma_trim_end_solid(trim_start(l));
}

proof fn lemma_nonempty_solid(ps: Seq<Seq<char>>)
    requires
        forall|j: int| 0 <= j < ps.len() && (#[trigger] ps[j]).len() > 0 ==> solid_line(ps[j]),
    ensures
        forall|k: int| 0 <= k < nonempty_texts(ps).len() ==> solid_line(#[trigger] nonempty_texts(ps)[k]),
    decreases ps.len(),
{
    if ps.len() > 0 {
        lemma_nonempty_solid(ps.drop_last());
        let prev = nonempty_texts(ps.drop_last());
        if ps.last().len() > 0 {
            assert(solid_line(ps[ps.len() - 1]));
            assert forall|k: int| 0 <= k < nonempty_texts(ps).len() implies solid_line(
                #[trigger] nonempty_texts(ps)[k],
            ) by {
                if k < prev.len() {
                    assert(nonempty_texts(ps)[k] == prev[k]);
                }
            }
        }
    }
}

proof fn lemma_join_solid(ls: Seq<Seq<char>>)
    requires
        forall|k: int| 0 <= k < ls.len() ==> solid_line(#[trigger] ls[k]),
    ensures
        without_blank_lines(join(ls, seq!['\n'])),
        ls.len() > 0 ==> join(ls, seq!['\n']).len() > 0,
    decreases ls.len(),
{
    let sep = seq!['\n'];
    if ls.len() == 1 {
        assert(solid_line(ls[0]));
    } else if ls.len() > 1 {
        let init = ls.drop_last();
        let last = ls.last();
        assert(solid_line(ls[ls.len() - 1]));
        lemma_join_solid(init);
        let j = join(init, sep);
        let r = join(ls, sep);
        assert(r == j + sep + last);
        assert forall|i: int| 0 <= i < r.len() && #[trigger] r[i] == '\n' implies 0 < i < r.len() - 1
            && !is_ws(r[i - 1]) && !is_ws(r[i + 1]) by {
            if i < j.len() {
                assert(r[i] == j[i]);
                assert(r[i - 1] == j[i - 1]);
                assert(r[i + 1] == j[i + 1]);
            } else if i == j.len() {
                assert(r[i - 1] == j.last());
                assert(r[i + 1] == last[0]);
            } else {
                assert(r[i] == last[i - j.len() - 1]);
            }
        }
        assert(r[0] == j[0]);
        assert(r.last() == last.last());
    }
}

/// The cleaned lines of any text hold no blank line.
pub proof fn lemma_clean_lines_without_blank_lines(raw: Seq<char>)
    ensures
        without_blank_lines(clean_lines(raw)),
{
    let pieces = split(raw, seq!['\n']);
    lemma_split_lines_unbroken(raw, seq![]);
    let trimmed = pieces.map_values(|l: Seq<char>| trim(l));
    assert forall|j: int| 0 <= j < trimmed.len() && (#[trigger] trimmed[j]).len() > 0 implies solid_line(
        trimmed[j],
    ) by {
        assert forall|m: int| 0 <= m < pieces[j].len() implies #[trigger] pieces[j][m] != '\n' by {
            assert(split_acc(raw, seq!['\n'], seq![])[j][m] != '\n');
        }
        lemma_trimmed_solid(pieces[j]);
    }
    lemma_nonempty_solid(trimmed);
    lemma_join_solid(nonempty_texts(trimmed));
}

/// Whether the string `name` is the text `lit`.
fn is_name(name: &String, lit: &str) -> (r: bool)
    ensures
        r == (name@ == lit@),
{
    let a = chars_of(name.as_str());
    let b = chars_of(lit);
    chars_eq(a.as_slice(), b.as_slice())
}

/// The lines of `raw`, trimmed, blank ones dropped, joined by `'\n'`.
pub fn clean_lines_exec(raw: &[char]) -> (r: Vec<char>)
    ensures
        r@ == clean_lines(raw@),
{
    let mut nl: Vec<char> = Vec::new();
    nl.push('\n');
    assert(nl@ =~= seq!['\n']);
    let pieces = split_chars(raw, nl.as_slice());
    let lines = trimmed_nonempty(&pieces);
    join_chars(&lines, nl.as_slice())
}

/// The text of a document body from its XML events: the text inside `<w:t>`
/// elements, a line break before each paragraph (`<w:p>`, `<w:pPr>`) that does
/// not start a line, one for each `<w:br>`; then each line trimmed and blank
/// lines dropped.
pub fn docx_text_from_events(events: &[XmlEvent]) -> (r: String)
    ensures
        r@ == docx_text(events@),
        without_blank_lines(r@),
{
    let mut acc: Vec<char> = Vec::new();
    let mut in_wt = false;
    let mut i: usize = 0;
    assert(events@.take(0) =~= Seq::<XmlEvent>::empty());
    while i < events.len()
        invariant
            i <= events@.len(),
            docx_scan(events@.take(i as int)) == (acc@, in_wt),
        decreases events.len() - i,
    {
        assert(events@.take(i + 1).drop_last() == events@.take(i as int));
        assert(events@.take(i + 1).last() == events@[i as int]);
        match &events[i] {
            XmlEvent::Open(n) => {
                if is_name(n, "w:p") || is_name(n, "w:pPr") {
                    if acc.len() > 0 && acc[acc.len() - 1] != '\n' {
                        acc.push('\n');
                    }
                } else if is_name(n, "w:t") {
                    in_wt = true;
                } else if is_name(n, "w:br") {
                    acc.push('\n');
                }
            },
            XmlEvent::Text(t) => {
                if in_wt {
                    let tc = chars_of(t.as_str());
                    push_all(&mut acc, tc.as_slice());
                }
            },
            XmlEvent::Close(n) => {
                if is_name(n, "w:t") {
                    in_wt = false;
                }
            },
            _ => {},
        }
        i += 1;
    }
    assert(events@.take(events@.len() as int) == events@);
    proof {
        lemma_clean_lines_without_blank_lines(acc@);
    }
    let cleaned = clean_lines_exec(acc.as_slice());
    string_from_chars(cleaned.as_slice())
}

/// The events that `quick_xml::Reader` yields for `xml` with text trimming on,
/// converted as `xml_events_of` converts them, up to the end of the input or the
/// first syntax error: a function of the text alone.
pub uninterp spec fn xml_events(xml: Seq<char>) -> Seq<XmlEvent>;

/// Reads `xml` with `quick_xml::Reader::from_str`, `trim_text(true)` and
/// `read_event` until the end of input or an error, and converts each event:
/// start and empty tags give `Open` with the tag's name, end tags `Close`, text
/// `Text` (entities resolved by `BytesText::unescape`, an empty text where that
/// fails), the others `Other`. The contract names the sequence (`xml_events`);
/// XML syntax itself is not stated.
#[verifier::external_body]
fn xml_events_of(xml: &str) -> (r: Vec<XmlEvent>)
    ensures
        r@ == xml_events(xml@),
{
    let mut reader = quick_xml::Reader::from_str(xml);
    reader.trim_text(true);
    let mut events = Vec::new();
    loop {
        events.push(match reader.read_event() {
            Ok(Event::Start(e) | Event::Empty(e)) => XmlEvent::Open(String::from_utf8_lossy(e.name().as_ref()).into_owned()),
            Ok(Event::End(e)) => XmlEvent::Close(String::from_utf8_lossy(e.name().as_ref()).into_owned()),
            Ok(Event::Text(e)) => XmlEvent::Text(e.unescape().unwrap_or_default().into_owned()),
            Ok(Event::Eof) | Err(_) => return events,
            Ok(_) => XmlEvent::Other,
        });
    }
}

/// The text of `word/document.xml`: the XML read with white space around text
/// trimmed, up to its end or its first syntax error, and the text that
/// `docx_text_from_events` takes from those events.
pub fn extract_text_from_docx_xml(xml: &str) -> (r: String)
    ensures
        r@ == docx_text(xml_events(xml@)),
        without_blank_lines(r@),
{
    let events = xml_events_of(xml);
    docx_text_from_events(events.as_slice())
}

/// The archive entries that may hold a document body, in the order they are tried.
pub open spec fn body_entries() -> Seq<Seq<char>> {
    seq!["word/document.xml"@, "word/document2.xml"@, "document.xml"@]
}

/// Whether the archive holds an entry named `name`.
pub open spec fn has_entry(names: Seq<String>, name: Seq<char>) -> bool {
    exists|i: int| 0 <= i < names.len() && #[trigger] names[i]@ == name
}

/// Whether some entry of `names` is named `name`.
fn has_entry_exec(names: &Vec<String>, name: &str) -> (r: bool)
    ensures
        r == has_entry(names@, name@),
{
    let target = chars_of(name);
    for i in 0..names.len()
        invariant
            target@ == name@,
            forall|k: int| 0 <= k < i ==> #[trigger] names@[k]@ != name@,
    {
        let n = chars_of(names[i].as_str());
        if chars_eq(n.as_slice(), target.as_slice()) {
            return true;
        }
    }
    false
}

/// The entry of a `.docx` archive that holds the document body, given the names
/// of its entries: the first of `word/document.xml`, `word/document2.xml` and
/// `document.xml` that is present, or the error `未找到 word/document.xml`.
pub fn docx_body_entry(names: &Vec<String>) -> (r: Result<String, String>)
    ensures
        r is Ok <==> exists|k: int| 0 <= k < 3 && has_entry(names@, #[trigger] body_entries()[k]),
        r matches Ok(n) ==> exists|k: int|
            0 <= k < 3 && n@ == #[trigger] body_entries()[k] && has_entry(names@, n@) && forall|j: int|
                0 <= j < k ==> !has_entry(names@, #[trigger] body_entries()[j]),
        r matches Err(m) ==> m@ == "未找到 word/document.xml"@,
{
    if has_entry_exec(names, "word/document.xml") {
        assert(body_entries()[0] == "word/document.xml"@);
        return Ok("word/document.xml".to_owned());
    }
    if has_entry_exec(names, "word/document2.xml") {
        assert(body_entries()[1] == "word/document2.xml"@);
        assert(body_entries()[0] == "word/document.xml"@);
        return Ok("word/document2.xml".to_owned());
    }
    if has_entry_exec(names, "document.xml") {
        assert(body_entries()[2] == "document.xml"@);
        assert(body_entries()[1] == "word/document2.xml"@);
        assert(body_entries()[0] == "word/document.xml"@);
        return Ok("document.xml".to_owned());
    }
    assert(body_entries()[2] == "document.xml"@);
    assert(body_entries()[1] == "word/document2.xml"@);
    assert(body_entries()[0] == "word/document.xml"@);
    Err("未找到 word/document.xml".to_owned())
}

} // verus!
