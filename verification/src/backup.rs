//! Backups of the collection file: the rows that a JSON backup lists beside
//! the raw text, what a backup must hold to be restored, and the saved
//! location of the collection file.
use vstd::prelude::*;
use crate::text::{all_ws, trim, chars_of, trimmed, string_of, trim_range, lemma_trim_empty_iff, push_str};
use crate::split::{lines, split_lines, split_char, split_fields, views};
use crate::json::{JsonValue, JsonModel, json_pretty_of, json_to_string_pretty};

verus! {

/// The cells of one TSV row under the headers: for each header, the
/// row's field in the same column, or an empty string past the row's end.
pub open spec fn tsv_row(headers: Seq<Seq<char>>, line: Seq<char>) -> Seq<(Seq<char>, Seq<char>)> {
    let values = split_char(line, '\t');
    Seq::new(
        headers.len(),
        |i: int|
            (headers[i], if i < values.len() {
                values[i]
            } else {
                Seq::<char>::empty()
            }),
    )
}

/// The rows of the lines under the headers, blank lines skipped.
pub open spec fn tsv_rows(headers: Seq<Seq<char>>, ls: Seq<Seq<char>>) -> Seq<Seq<(Seq<char>, Seq<char>)>>
    decreases ls.len(),
{
    if ls.len() == 0 {
        seq![]
    } else {
        let prev = tsv_rows(headers, ls.drop_last());
        if all_ws(ls.last()) {
            prev
        } else {
            prev.push(tsv_row(headers, ls.last()))
        }
    }
}

/// The headers of a TSV text: the fields of its first line, trimmed.
pub open spec fn tsv_headers(raw: Seq<char>) -> Seq<Seq<char>> {
    split_char(lines(raw)[0], '\t').map_values(|h: Seq<char>| trim(h))
}

/// The rows of a TSV text: none when it has no line, else the rows of the
/// lines after the first under its headers.
pub open spec fn parse_tsv_rows_spec(raw: Seq<char>) -> Seq<Seq<(Seq<char>, Seq<char>)>> {
    let ls = lines(raw);
    if ls.len() == 0 {
        seq![]
    } else {
        tsv_rows(tsv_headers(raw), ls.drop_first())
    }
}

/// The cells of a row of strings, as plain values.
pub open spec fn row_view(r: Seq<(String, String)>) -> Seq<(Seq<char>, Seq<char>)> {
    r.map_values(|p: (String, String)| (p.0@, p.1@))
}

/// The rows of strings, as plain values.
pub open spec fn rows_view(r: Seq<Vec<(String, String)>>) -> Seq<Seq<(Seq<char>, Seq<char>)>> {
    r.map_values(|v: Vec<(String, String)>| row_view(v@))
}

/// The rows of a TSV text, each a list of (header, field) cells in column
/// order (the objects of a JSON backup's `rows`).
pub fn parse_tsv_rows(raw: &str) -> (r: Vec<Vec<(String, String)>>)
    ensures
        rows_view(r@) == parse_tsv_rows_spec(raw@),
{
    let cs = chars_of(raw);
    let ls = split_lines(cs.as_slice());
    let mut rows: Vec<Vec<(String, String)>> = Vec::new();
    if ls.len() == 0 {
        assert(rows_view(rows@) =~= Seq::<Seq<(Seq<char>, Seq<char>)>>::empty());
        return rows;
    }
    let ghost lv = views(ls@);
    let header_fields = split_fields(ls[0].as_slice(), '\t');
    let mut headers: Vec<String> = Vec::new();
    let mut h: usize = 0;
    let ghost hs = tsv_headers(raw@);
    while h < header_fields.len()
        invariant
            h <= header_fields.len(),
            views(header_fields@) == split_char(lv[0], '\t'),
            lv == lines(raw@),
            lv == views(ls@),
            hs == tsv_headers(raw@),
            headers.len() == h,
            forall|k: int| 0 <= k < h ==> (#[trigger] headers@[k])@ == hs[k],
        decreases header_fields.len() - h,
    {
        let t = trimmed(header_fields[h].as_slice());
        assert(header_fields@[h as int]@ == views(header_fields@)[h as int]);
        headers.push(string_of(t.as_slice()));
        h = h + 1;
    }
    let ghost rest = lv.drop_first();
    let mut i: usize = 1;
    assert(rest.take(0) =~= Seq::<Seq<char>>::empty());
    assert(rows_view(rows@) =~= Seq::<Seq<(Seq<char>, Seq<char>)>>::empty());
    while i < ls.len()
        invariant
            1 <= i <= ls.len(),
            lv == views(ls@),
            lv == lines(raw@),
            rest == lv.drop_first(),
            hs == tsv_headers(raw@),
            headers.len() == hs.len(),
            forall|k: int| 0 <= k < headers.len() ==> (#[trigger] headers@[k])@ == hs[k],
            rows_view(rows@) == tsv_rows(hs, rest.take(i - 1)),
        decreases ls.len() - i,
    {
        assert(rest.take(i as int).drop_last() == rest.take(i - 1));
        assert(rest.take(i as int).last() == ls@[i as int]@);
        let line = &ls[i];
        let (a, b) = trim_range(line.as_slice());
        proof {
            lemma_trim_empty_iff(line@, a as int, b as int);
        }
        if a != b {
            let values = split_fields(line.as_slice(), '\t');
            let mut row: Vec<(String, String)> = Vec::new();
            let mut k: usize = 0;
            let ghost target = tsv_row(hs, line@);
            while k < headers.len()
                invariant
                    k <= headers.len() == hs.len(),
                    forall|j: int| 0 <= j < headers.len() ==> (#[trigger] headers@[j])@ == hs[j],
                    views(values@) == split_char(line@, '\t'),
                    target == tsv_row(hs, line@),
                    row_view(row@) == target.take(k as int),
                decreases headers.len() - k,
            {
                let value = if k < values.len() {
                    assert(values@[k as int]@ == views(values@)[k as int]);
                    string_of(values[k].as_slice())
                } else {
                    String::new()
                };
                let ghost before = row_view(row@);
                row.push((headers[k].clone(), value));
                assert(row_view(row@) =~= before.push(target[k as int]));
                assert(target.take(k + 1) =~= target.take(k as int).push(target[k as int]));
                k = k + 1;
            }
            assert(target.take(headers.len() as int) =~= target);
            let ghost before_rows = rows_view(rows@);
            rows.push(row);
            assert(rows_view(rows@) =~= before_rows.push(target));
        }
        i = i + 1;
    }
    assert(rest.take(ls.len() - 1) == rest);
    rows
}

/// The name a FlossKeeper backup gives in its `app` field.
pub open spec fn app_name() -> Seq<char> {
    "FlossKeeper"@
}

/// What restoring a backup does with its `app` and `raw_tsv` fields (each
/// present when it is a JSON string): a backup of another program is refused,
/// then one without the raw collection text; else the text is restored.
pub open spec fn backup_raw_tsv_spec(app: Option<Seq<char>>, raw_tsv: Option<Seq<char>>) -> Result<Seq<char>, Seq<char>> {
    if app != Some(app_name()) {
        Err("This does not look like a FlossKeeper backup."@)
    } else {
        match raw_tsv {
            None => Err("Backup is missing raw_tsv data."@),
            Some(t) => Ok(t),
        }
    }
}

/// The characters of an optional string.
pub open spec fn opt_view(o: Option<&str>) -> Option<Seq<char>> {
    match o {
        Some(s) => Some(s@),
        None => None,
    }
}

/// What `serde_json` reads from a backup file's text under `key`: the field's
/// text where the text is a JSON object whose field `key` is a string, none
/// where it is not, or the parser's message where the text is not JSON.
pub uninterp spec fn json_string_field_of(text: Seq<char>, key: Seq<char>) -> Result<Option<Seq<char>>, Seq<char>>;

/// The characters of an optional `String`.
pub open spec fn opt_string_view(o: Option<String>) -> Option<Seq<char>> {
    match o {
        Some(s) => Some(s@),
        None => None,
    }
}

/// `serde_json::from_str` into a `Value`, then `Value::get(key)` and
/// `Value::as_str`: the string field `key` of a JSON text, or the parse
/// error's message.  The result is only named ([`json_string_field_of`]).
#[verifier::external_body]
fn json_string_field(text: &str, key: &str) -> (r: Result<Option<String>, String>)
    ensures
        match r {
            Ok(f) => json_string_field_of(text@, key@) == Ok::<Option<Seq<char>>, Seq<char>>(opt_string_view(f)),
            Err(e) => json_string_field_of(text@, key@) == Err::<Option<Seq<char>>, Seq<char>>(e@),
        },
{
    match serde_json::from_str::<serde_json::Value>(text) {
        Ok(v) => Ok(v.get(key).and_then(|f| f.as_str()).map(|f| f.to_string())),
        Err(e) => Err(e.to_string()),
    }
}

/// The message for a backup file that is not JSON.
pub open spec fn not_json_message(e: Seq<char>) -> Seq<char> {
    "Backup is not valid JSON: "@ + e
}

/// What restoring a backup file's text gives: the collection text it holds,
/// or why it cannot be restored (not JSON, not a FlossKeeper backup, or no
/// raw collection text), in that order.
pub open spec fn restore_backup_spec(text: Seq<char>) -> Result<Seq<char>, Seq<char>> {
    match json_string_field_of(text, "app"@) {
        Err(e) => Err(not_json_message(e)),
        Ok(a) => if a != Some(app_name()) {
            backup_raw_tsv_spec(a, None)
        } else {
            match json_string_field_of(text, "raw_tsv"@) {
                Err(e) => Err(not_json_message(e)),
                Ok(t) => backup_raw_tsv_spec(a, t),
            }
        },
    }
}

fn not_json(e: &str) -> (r: String)
    ensures
        r@ == not_json_message(e@),
{
    let mut m = String::new();
    push_str(&mut m, "Backup is not valid JSON: ");
    push_str(&mut m, e);
    m
}

/// The collection text held by a JSON backup file's text, or why it cannot
/// be restored.
pub fn restore_backup_text(text: &str) -> (r: Result<String, String>)
    ensures
        r matches Ok(t) ==> restore_backup_spec(text@) == Ok::<Seq<char>, Seq<char>>(t@),
        r matches Err(m) ==> restore_backup_spec(text@) == Err::<Seq<char>, Seq<char>>(m@),
{
    proof {
        reveal_strlit("FlossKeeper");
    }
    let app = match json_string_field(text, "app") {
        Err(e) => return Err(not_json(e.as_str())),
        Ok(a) => a,
    };
    let is_ours = match &app {
        Some(a) => crate::text::chars_eq(chars_of(a.as_str()).as_slice(), chars_of("FlossKeeper").as_slice()),
        None => false,
    };
    let app_ref: Option<&str> = match &app {
        Some(a) => Some(a.as_str()),
        None => None,
    };
    if !is_ours {
        return backup_raw_tsv(app_ref, None);
    }
    match json_string_field(text, "raw_tsv") {
        Err(e) => Err(not_json(e.as_str())),
        Ok(t) => {
            let t_ref: Option<&str> = match &t {
                Some(x) => Some(x.as_str()),
                None => None,
            };
            backup_raw_tsv(app_ref, t_ref)
        },
    }
}

/// The collection text that a backup restores, or why it cannot be restored.
pub fn backup_raw_tsv(app: Option<&str>, raw_tsv: Option<&str>) -> (r: Result<String, String>)
    ensures
        r matches Ok(t) ==> backup_raw_tsv_spec(opt_view(app), opt_view(raw_tsv)) == Ok::<Seq<char>, Seq<char>>(t@),
        r matches Err(m) ==> backup_raw_tsv_spec(opt_view(app), opt_view(raw_tsv)) == Err::<Seq<char>, Seq<char>>(m@),
{
    let is_ours = match app {
        Some(a) => {
            let name = "FlossKeeper";
            crate::text::chars_eq(chars_of(a).as_slice(), chars_of(name).as_slice())
        },
        None => false,
    };
    if !is_ours {
        let mut m = String::new();
        push_str(&mut m, "This does not look like a FlossKeeper backup.");
        return Err(m);
    }
    match raw_tsv {
        None => {
            let mut m = String::new();
            push_str(&mut m, "Backup is missing raw_tsv data.");
            Err(m)
        },
        Some(t) => {
            let mut s = String::new();
            push_str(&mut s, t);
            Ok(s)
        },
    }
}

/// The collection file location saved in the stash-path file: its text
/// trimmed, or none when that is blank.
pub fn stash_path_override(raw: &str) -> (r: Option<String>)
    ensures
        r matches Some(p) ==> trim(raw@).len() > 0 && p@ == trim(raw@),
        r is None ==> trim(raw@).len() == 0,
{
    let cs = chars_of(raw);
    let t = trimmed(cs.as_slice());
    if t.len() == 0 {
        None
    } else {
        Some(string_of(t.as_slice()))
    }
}

/// The rows of a backup as JSON: one object per row, each cell a string field.
pub open spec fn rows_json(rows: Seq<Seq<(Seq<char>, Seq<char>)>>) -> Seq<JsonModel> {
    rows.map_values(|row: Seq<(Seq<char>, Seq<char>)>| row_json_spec(row))
}

/// One row of a backup as a JSON object.
pub open spec fn row_json_spec(row: Seq<(Seq<char>, Seq<char>)>) -> JsonModel {
    JsonModel::Obj(row.map_values(|c: (Seq<char>, Seq<char>)| (c.0, JsonModel::Str(c.1))))
}

/// The JSON backup document: the program's name, the backup version (1), when
/// and from which file it was made, its format, the raw collection text and
/// the rows parsed from it.
pub open spec fn backup_doc_spec(created_at: Seq<char>, collection_file: Seq<char>, raw_tsv: Seq<char>) -> JsonModel {
    JsonModel::Obj(
        seq![
            ("app"@, JsonModel::Str(app_name())),
            ("backup_version"@, JsonModel::Int(1)),
            ("created_at"@, JsonModel::Str(created_at)),
            ("collection_file"@, JsonModel::Str(collection_file)),
            ("format"@, JsonModel::Str("raw_tsv_plus_parsed_rows"@)),
            ("raw_tsv"@, JsonModel::Str(raw_tsv)),
            ("rows"@, JsonModel::Arr(rows_json(parse_tsv_rows_spec(raw_tsv)))),
        ],
    )
}

/// The message for a backup document that could not be written.
pub open spec fn backup_error_message(e: Seq<char>) -> Seq<char> {
    "Could not create JSON backup: "@ + e
}

fn text_of(s: &str) -> (r: String)
    ensures
        r@ == s@,
{
    let mut r = String::new();
    push_str(&mut r, s);
    r
}

fn row_json(row: &Vec<(String, String)>) -> (r: JsonValue)
    ensures
        r@ == row_json_spec(row_view(row@)),
{
    let mut fields: Vec<(String, JsonValue)> = Vec::new();
    let mut i: usize = 0;
    while i < row.len()
        invariant
            i <= row.len(),
            fields.len() == i,
            forall|k: int|
                0 <= k < i ==> (#[trigger] fields@[k]).0@ == row@[k].0@ && fields@[k].1@ == JsonModel::Str(
                    row@[k].1@,
                ),
        decreases row.len() - i,
    {
        let k = row[i].0.clone();
        let v = row[i].1.clone();
        fields.push((k, JsonValue::Str(v)));
        i = i + 1;
    }
    let r = JsonValue::Obj(fields);
    assert(r@ == row_json_spec(row_view(row@))) by {
        if let JsonModel::Obj(m) = r@ {
            assert(m =~= row_view(row@).map_values(
                |c: (Seq<char>, Seq<char>)| (c.0, JsonModel::Str(c.1)),
            ));
        }
    }
    r
}

/// The JSON backup of a collection file's text, made at `created_at` from the
/// file `collection_file`, and the number of rows it lists; or why it could not
/// be written.
pub fn backup_json(created_at: &str, collection_file: &str, raw_tsv: &str) -> (r: Result<(String, usize), String>)
    ensures
        match json_pretty_of(backup_doc_spec(created_at@, collection_file@, raw_tsv@)) {
            Ok(t) => r matches Ok((text, n)) && text@ == t && n == parse_tsv_rows_spec(raw_tsv@).len(),
            Err(e) => r matches Err(m) && m@ == backup_error_message(e),
        },
{
    proof {
        reveal_strlit("FlossKeeper");
    }
    let rows = parse_tsv_rows(raw_tsv);
    let mut items: Vec<JsonValue> = Vec::new();
    let mut i: usize = 0;
    while i < rows.len()
        invariant
            i <= rows.len(),
            items.len() == i,
            forall|k: int| 0 <= k < i ==> (#[trigger] items@[k])@ == row_json_spec(row_view(rows@[k]@)),
        decreases rows.len() - i,
    {
        let item = row_json(&rows[i]);
        items.push(item);
        i = i + 1;
    }
    let n = rows.len();
    let rows_value = JsonValue::Arr(items);
    assert(rows_value@ == JsonModel::Arr(rows_json(parse_tsv_rows_spec(raw_tsv@)))) by {
        if let JsonModel::Arr(m) = rows_value@ {
            assert(m =~= rows_json(rows_view(rows@)));
        }
    }
    let f0 = (text_of("app"), JsonValue::Str(text_of("FlossKeeper")));
    assert(f0.1@ == JsonModel::Str(app_name()));
    let f1 = (text_of("backup_version"), JsonValue::Int(1));
    assert(f1.1@ == JsonModel::Int(1));
    let f2 = (text_of("created_at"), JsonValue::Str(text_of(created_at)));
    assert(f2.1@ == JsonModel::Str(created_at@));
    let f3 = (text_of("collection_file"), JsonValue::Str(text_of(collection_file)));
    assert(f3.1@ == JsonModel::Str(collection_file@));
    let f4 = (text_of("format"), JsonValue::Str(text_of("raw_tsv_plus_parsed_rows")));
    assert(f4.1@ == JsonModel::Str("raw_tsv_plus_parsed_rows"@));
    let f5 = (text_of("raw_tsv"), JsonValue::Str(text_of(raw_tsv)));
    assert(f5.1@ == JsonModel::Str(raw_tsv@));
    let f6 = (text_of("rows"), rows_value);
    let fields: Vec<(String, JsonValue)> = vec![f0, f1, f2, f3, f4, f5, f6];
    let doc = JsonValue::Obj(fields);
    assert(doc@ == backup_doc_spec(created_at@, collection_file@, raw_tsv@)) by {
        if let JsonModel::Obj(m) = doc@ {
            assert(fields@.len() == 7);
            assert(m.len() == 7);
            assert(m[0] == ("app"@, JsonModel::Str(app_name())));
            assert(m[1] == ("backup_version"@, JsonModel::Int(1)));
            assert(m[2] == ("created_at"@, JsonModel::Str(created_at@)));
            assert(m[3] == ("collection_file"@, JsonModel::Str(collection_file@)));
            assert(m[4] == ("format"@, JsonModel::Str("raw_tsv_plus_parsed_rows"@)));
            assert(m[5] == ("raw_tsv"@, JsonModel::Str(raw_tsv@)));
            assert(m[6] == ("rows"@, JsonModel::Arr(rows_json(parse_tsv_rows_spec(raw_tsv@)))));
            assert(m =~= seq![
                ("app"@, JsonModel::Str(app_name())),
                ("backup_version"@, JsonModel::Int(1)),
                ("created_at"@, JsonModel::Str(created_at@)),
                ("collection_file"@, JsonModel::Str(collection_file@)),
                ("format"@, JsonModel::Str("raw_tsv_plus_parsed_rows"@)),
                ("raw_tsv"@, JsonModel::Str(raw_tsv@)),
                ("rows"@, JsonModel::Arr(rows_json(parse_tsv_rows_spec(raw_tsv@)))),
            ]);
        }
    }
    match json_to_string_pretty(&doc) {
        Ok(t) => Ok((t, n)),
        Err(e) => {
            let mut m = String::new();
            push_str(&mut m, "Could not create JSON backup: ");
            push_str(&mut m, e.as_str());
            Err(m)
        },
    }
}

} // verus!
