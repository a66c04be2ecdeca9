//! The JSON shape of every result: each `to_json` is its one definition. Keys are in code
//! point order.
use crate::a1::{cell_name, column_name};
use crate::json::{list, object, put, Json};
use crate::ops::{Change, Changes, Check, Found, Read, Report, Sheets, Sorted, Source};
use crate::text::{chars, comes_before};
use vstd::prelude::*;

verus! {

/// A document of fields, some of them left out.
pub open spec fn field_if(
    present: bool,
    key: Seq<char>,
    value: crate::json::JsonView,
) -> Seq<(Seq<char>, crate::json::JsonView)> {
    if present {
        seq![(key, value)]
    } else {
        Seq::empty()
    }
}

/// A text as a document.
pub open spec fn text_doc(text: Seq<char>) -> crate::json::JsonView {
    crate::json::JsonView::Text(text)
}

/// One more field, where there is a value.
fn put_some(fields: &mut Vec<(String, Json)>, key: &str, value: Option<Json>)
    ensures
        crate::json::fields_doc(final(fields)@) == crate::json::fields_doc(old(fields)@)
            + field_if(value is Some, key@, value->0.doc()),
{
    let ghost earlier = crate::json::fields_doc(fields@);
    let ghost more = field_if(value is Some, key@, value->0.doc());
    if let Some(value) = value {
        put(fields, key, value);
    }
    assert(crate::json::fields_doc(fields@) =~= earlier + more);
}

fn text_json(text: &str) -> (r: Json)
    ensures
        r.doc() == text_doc(text@),
{
    Json::Text(text.to_owned())
}

impl Source {
    /// `format`, for workbooks only.
    pub open spec fn format_field(self) -> Seq<(Seq<char>, crate::json::JsonView)> {
        field_if(self.workbook is Some, "format"@, text_doc((self.workbook->0).1@))
    }

    /// `sheet`, for workbooks only.
    pub open spec fn sheet_field(self) -> Seq<(Seq<char>, crate::json::JsonView)> {
        field_if(self.workbook is Some, "sheet"@, text_doc((self.workbook->0).0@))
    }

    /// The path of the source.
    pub open spec fn source_field(self) -> Seq<(Seq<char>, crate::json::JsonView)> {
        seq![("source"@, text_doc(self.path@))]
    }

    fn put_format(&self, fields: &mut Vec<(String, Json)>)
        ensures
            crate::json::fields_doc(final(fields)@) == crate::json::fields_doc(old(fields)@)
                + self.format_field(),
    {
        let ghost earlier = crate::json::fields_doc(fields@);
        if let Some((_, format)) = &self.workbook {
            put(fields, "format", text_json(format.as_str()));
        }
        assert(crate::json::fields_doc(fields@) =~= earlier + self.format_field());
    }

    fn put_sheet(&self, fields: &mut Vec<(String, Json)>)
        ensures
            crate::json::fields_doc(final(fields)@) == crate::json::fields_doc(old(fields)@)
                + self.sheet_field(),
    {
        let ghost earlier = crate::json::fields_doc(fields@);
        if let Some((name, _)) = &self.workbook {
            put(fields, "sheet", text_json(name.as_str()));
        }
        assert(crate::json::fields_doc(fields@) =~= earlier + self.sheet_field());
    }

    fn put_source(&self, fields: &mut Vec<(String, Json)>)
        ensures
            crate::json::fields_doc(final(fields)@) == crate::json::fields_doc(old(fields)@)
                + self.source_field(),
    {
        let ghost earlier = crate::json::fields_doc(fields@);
        put(fields, "source", text_json(self.path.as_str()));
        assert(crate::json::fields_doc(fields@) =~= earlier + self.source_field());
    }

    /// The document that is printed.
    pub fn to_json(&self) -> (r: Json)
        ensures
            r.doc() == crate::json::JsonView::Object(
                self.format_field() + self.sheet_field() + self.source_field(),
            ),
    {
        let mut fields: Vec<(String, Json)> = Vec::new();
        assert(crate::json::fields_doc(fields@) =~= Seq::empty());
        self.put_format(&mut fields);
        self.put_sheet(&mut fields);
        self.put_source(&mut fields);
        assert(crate::json::fields_doc(fields@) =~= self.format_field() + self.sheet_field()
            + self.source_field());
        object(fields)
    }
}

/// A list of texts.
pub open spec fn texts_doc(texts: Seq<Seq<char>>) -> crate::json::JsonView {
    crate::json::JsonView::List(texts.map_values(|t: Seq<char>| text_doc(t)))
}

fn texts_json(texts: &Vec<String>) -> (r: Json)
    ensures
        r.doc() == texts_doc(crate::text::views(texts@)),
{
    let mut items: Vec<Json> = Vec::new();
    let mut i: usize = 0;
    while i < texts.len()
        invariant
            i == items@.len() <= texts@.len(),
            forall|k: int| 0 <= k < i ==> (#[trigger] items@[k]).doc() == text_doc(texts@[k]@),
        decreases texts@.len() - i,
    {
        items.push(text_json(texts[i].as_str()));
        i = i + 1;
    }
    assert(crate::json::list_doc(items@) =~= crate::text::views(texts@).map_values(
        |t: Seq<char>| text_doc(t),
    ));
    list(items)
}

impl Sheets {
    /// The document that is printed.
    pub fn to_json(&self) -> (r: Json)
        ensures
            r.doc() == crate::json::JsonView::Object(
                seq![
                    ("sheets"@, texts_doc(crate::text::views(self.names@))),
                    ("source"@, text_doc(self.source@)),
                ],
            ),
    {
        let mut fields: Vec<(String, Json)> = Vec::new();
        put(&mut fields, "sheets", texts_json(&self.names));
        put(&mut fields, "source", text_json(self.source.as_str()));
        assert(crate::json::fields_doc(fields@) =~= seq![
            ("sheets"@, texts_doc(crate::text::views(self.names@))),
            ("source"@, text_doc(self.source@)),
        ]);
        object(fields)
    }
}

impl Check {
    /// The document that is printed.
    pub fn to_json(&self) -> (r: Json)
        ensures
            r.doc() == crate::json::JsonView::Object(
                seq![
                    ("bytes"@, crate::json::JsonView::Number(self.progress.total_bytes)),
                    ("elapsed_seconds"@, crate::json::JsonView::Real(self.elapsed_seconds@)),
                ] + self.source.format_field() + seq![
                    (
                        "index_bytes"@,
                        crate::json::JsonView::Number(self.progress.index_bytes as u64),
                    ),
                    ("records"@, crate::json::JsonView::Number(self.progress.rows)),
                ] + self.source.sheet_field() + field_if(
                    self.source_bytes is Some,
                    "source_bytes"@,
                    crate::json::JsonView::Number(self.source_bytes->0),
                ),
            ),
    {
        let mut fields: Vec<(String, Json)> = Vec::new();
        put(&mut fields, "bytes", Json::Number(self.progress.total_bytes));
        put(&mut fields, "elapsed_seconds", Json::Real(self.elapsed_seconds.clone()));
        let ghost first = crate::json::fields_doc(fields@);
        self.source.put_format(&mut fields);
        put(&mut fields, "index_bytes", Json::Number(self.progress.index_bytes as u64));
        put(&mut fields, "records", Json::Number(self.progress.rows));
        self.source.put_sheet(&mut fields);
        if let Some(bytes) = self.source_bytes {
            put(&mut fields, "source_bytes", Json::Number(bytes));
        }
        let r = object(fields);
        assert(r.doc()->Object_0 =~= seq![
            ("bytes"@, crate::json::JsonView::Number(self.progress.total_bytes)),
            ("elapsed_seconds"@, crate::json::JsonView::Real(self.elapsed_seconds@)),
        ] + self.source.format_field() + seq![
            ("index_bytes"@, crate::json::JsonView::Number(self.progress.index_bytes as u64)),
            ("records"@, crate::json::JsonView::Number(self.progress.rows)),
        ] + self.source.sheet_field() + field_if(
            self.source_bytes is Some,
            "source_bytes"@,
            crate::json::JsonView::Number(self.source_bytes->0),
        ));
        r
    }
}

impl Change {
    /// The document that is printed.
    pub open spec fn doc(self) -> crate::json::JsonView {
        crate::json::JsonView::Object(
            seq![
                ("after"@, text_doc(self.after@)),
                ("before"@, text_doc(self.before@)),
                ("cell"@, text_doc(crate::a1::name_of(self.cell))),
            ],
        )
    }

    fn to_json(&self) -> (r: Json)
        requires
            self.cell.0 < u64::MAX,
        ensures
            r.doc() == self.doc(),
    {
        let mut fields: Vec<(String, Json)> = Vec::new();
        put(&mut fields, "after", text_json(self.after.as_str()));
        put(&mut fields, "before", text_json(self.before.as_str()));
        put(&mut fields, "cell", Json::Text(cell_name(self.cell)));
        let r = object(fields);
        assert(r.doc()->Object_0 =~= self.doc()->Object_0);
        r
    }
}

impl Changes {
    /// Every changed cell has a name.
    pub open spec fn wf(self) -> bool {
        forall|i: int| 0 <= i < self.0@.len() ==> (#[trigger] self.0@[i]).cell.0 < u64::MAX
    }

    /// The document that is printed.
    pub open spec fn doc(self) -> crate::json::JsonView {
        crate::json::JsonView::List(self.0@.map_values(|c: Change| c.doc()))
    }

    /// The document that is printed.
    pub fn to_json(&self) -> (r: Json)
        requires
            self.wf(),
        ensures
            r.doc() == self.doc(),
    {
        let mut items: Vec<Json> = Vec::new();
        let mut i: usize = 0;
        while i < self.0.len()
            invariant
                self.wf(),
                i == items@.len() <= self.0@.len(),
                forall|k: int| 0 <= k < i ==> (#[trigger] items@[k]).doc() == self.0@[k].doc(),
            decreases self.0@.len() - i,
        {
            assert(self.0@[i as int].cell.0 < u64::MAX);
            items.push(self.0[i].to_json());
            i = i + 1;
        }
        assert(crate::json::list_doc(items@) =~= self.0@.map_values(|c: Change| c.doc()));
        list(items)
    }
}

impl Sorted {
    /// The document that is printed.
    pub open spec fn doc(self) -> crate::json::JsonView {
        crate::json::JsonView::Object(
            seq![
                ("changes_coordinates"@, text_doc("source"@)),
                ("columns"@, text_doc(self.columns@)),
                ("header"@, crate::json::JsonView::Bool(self.header)),
                ("read_coordinates"@, text_doc("sorted_view"@)),
            ],
        )
    }

    /// The document that is printed.
    pub fn to_json(&self) -> (r: Json)
        ensures
            r.doc() == self.doc(),
    {
        let mut fields: Vec<(String, Json)> = Vec::new();
        put(&mut fields, "changes_coordinates", text_json("source"));
        put(&mut fields, "columns", text_json(self.columns.as_str()));
        put(&mut fields, "header", Json::Bool(self.header));
        put(&mut fields, "read_coordinates", text_json("sorted_view"));
        let r = object(fields);
        assert(r.doc()->Object_0 =~= self.doc()->Object_0);
        r
    }
}

/// A text, or null where there is none.
pub open spec fn optional_doc(text: Option<Seq<char>>) -> crate::json::JsonView {
    match text {
        Some(t) => text_doc(t),
        None => crate::json::JsonView::Null,
    }
}

/// A row of values as a document.
pub open spec fn row_doc(row: Seq<Option<String>>) -> crate::json::JsonView {
    crate::json::JsonView::List(
        row.map_values(|v: Option<String>| optional_doc(crate::sheet::text_view(v))),
    )
}

fn row_json(row: &Vec<Option<String>>) -> (r: Json)
    ensures
        r.doc() == row_doc(row@),
{
    let mut items: Vec<Json> = Vec::new();
    let mut i: usize = 0;
    while i < row.len()
        invariant
            i == items@.len() <= row@.len(),
            forall|k: int|
                0 <= k < i ==> (#[trigger] items@[k]).doc() == optional_doc(
                    crate::sheet::text_view(row@[k]),
                ),
        decreases row@.len() - i,
    {
        items.push(
            match &row[i] {
                Some(text) => text_json(text.as_str()),
                None => Json::Null,
            },
        );
        i = i + 1;
    }
    assert(crate::json::list_doc(items@) =~= row@.map_values(
        |v: Option<String>| optional_doc(crate::sheet::text_view(v)),
    ));
    list(items)
}

/// Rows of values as a document.
pub open spec fn rows_doc(rows: Seq<Vec<Option<String>>>) -> crate::json::JsonView {
    crate::json::JsonView::List(rows.map_values(|row: Vec<Option<String>>| row_doc(row@)))
}

fn rows_json(rows: &Vec<Vec<Option<String>>>) -> (r: Json)
    ensures
        r.doc() == rows_doc(rows@),
{
    let mut items: Vec<Json> = Vec::new();
    let mut i: usize = 0;
    while i < rows.len()
        invariant
            i == items@.len() <= rows@.len(),
            forall|k: int| 0 <= k < i ==> (#[trigger] items@[k]).doc() == row_doc(rows@[k]@),
        decreases rows@.len() - i,
    {
        items.push(row_json(&rows[i]));
        i = i + 1;
    }
    assert(crate::json::list_doc(items@) =~= rows@.map_values(
        |row: Vec<Option<String>>| row_doc(row@),
    ));
    list(items)
}

/// Fields in code point order of their keys.
pub open spec fn in_key_order(fields: Seq<(Seq<char>, crate::json::JsonView)>) -> bool {
    forall|i: int, j: int|
        0 <= i < j < fields.len() ==> crate::text::sorts_before(
            (#[trigger] fields[i]).0,
            (#[trigger] fields[j]).0,
        )
}

/// The formulas by cell name, in the order of the names.
pub open spec fn is_formulas_doc(
    formulas: crate::cells::Cells,
    fields: Seq<(Seq<char>, crate::json::JsonView)>,
) -> bool {
    &&& in_key_order(fields)
    &&& fields.len() == formulas.entries@.len()
    &&& forall|i: int|
        0 <= i < formulas.entries@.len() ==> fields.contains(
            (
                crate::a1::name_of((#[trigger] formulas.entries@[i]).0),
                text_doc(formulas.entries@[i].1@),
            ),
        )
}

/// Different cells have different names.
proof fn names_differ(a: crate::a1::Address, b: crate::a1::Address)
    requires
        a != b,
        a.0 < u64::MAX,
        b.0 < u64::MAX,
        a.1 < usize::MAX,
        b.1 < usize::MAX,
    ensures
        crate::a1::name_of(a) != crate::a1::name_of(b),
{
    crate::a1::cell_name_reads_back(a);
    crate::a1::cell_name_reads_back(b);
}

/// Put a field in its place by key.
fn insert_field(fields: &mut Vec<(String, Json)>, key: String, value: Json)
    requires
        in_key_order(crate::json::fields_doc(old(fields)@)),
        forall|i: int|
            0 <= i < old(fields)@.len() ==> (#[trigger] old(fields)@[i]).0@ != key@,
    ensures
        in_key_order(crate::json::fields_doc(final(fields)@)),
        final(fields)@.len() == old(fields)@.len() + 1,
        crate::json::fields_doc(final(fields)@).contains((key@, value.doc())),
        forall|f: (Seq<char>, crate::json::JsonView)|
            crate::json::fields_doc(old(fields)@).contains(f)
                ==> #[trigger] crate::json::fields_doc(final(fields)@).contains(f),
        forall|i: int|
            0 <= i < final(fields)@.len() ==> (#[trigger] final(fields)@[i]).0@ == key@ || exists|
                k: int,
            |
                0 <= k < old(fields)@.len() && (#[trigger] old(fields)@[k]).0@
                    == final(fields)@[i].0@,
{
    let ghost earlier = fields@;
    let ghost docs = crate::json::fields_doc(fields@);
    let ghost entry = (key@, value.doc());
    let name = chars(key.as_str());
    let mut at: usize = 0;
    while at < fields.len() && comes_before(&chars(fields[at].0.as_str()), &name)
        invariant
            at <= fields@.len(),
            fields@ == earlier,
            name@ == key@,
            forall|k: int|
                0 <= k < at ==> crate::text::sorts_before((#[trigger] earlier[k]).0@, key@),
        decreases fields@.len() - at,
    {
        at = at + 1;
    }
    fields.insert(at, (key, value));
    proof {
        let now = crate::json::fields_doc(fields@);
        let i = at as int;
        assert(fields@ =~= earlier.insert(i, (key, value)));
        assert(now =~= docs.insert(i, entry));
        assert(now[i] == entry);
        if at < earlier.len() {
            crate::text::sorts_before_total(earlier[i].0@, key@);
            assert(docs[i].0 == earlier[i].0@);
        }
        assert forall|a: int, b: int| 0 <= a < b < now.len() implies crate::text::sorts_before(
            (#[trigger] now[a]).0,
            (#[trigger] now[b]).0,
        ) by {
            if a < i && b < i {
                assert(now[a] == docs[a] && now[b] == docs[b]);
            } else if a < i && b == i {
                assert(now[a] == docs[a]);
                assert(docs[a].0 == earlier[a].0@);
            } else if a < i {
                assert(now[a] == docs[a] && now[b] == docs[b - 1]);
            } else if a == i {
                assert(now[b] == docs[b - 1]);
                if b - 1 > i {
                    assert(crate::text::sorts_before(docs[i].0, docs[b - 1].0));
                    crate::text::sorts_before_transitive(key@, docs[i].0, docs[b - 1].0);
                }
            } else {
                assert(now[a] == docs[a - 1] && now[b] == docs[b - 1]);
            }
        }
        assert forall|f: (Seq<char>, crate::json::JsonView)| docs.contains(
            f,
        ) implies #[trigger] now.contains(f) by {
            let k = choose|k: int| 0 <= k < docs.len() && docs[k] == f;
            if k < i {
                assert(now[k] == f);
            } else {
                assert(now[k + 1] == f);
            }
        }
        assert forall|k: int| 0 <= k < fields@.len() implies (#[trigger] fields@[k]).0@ == key@
            || exists|l: int|
            0 <= l < earlier.len() && (#[trigger] earlier[l]).0@ == fields@[k].0@ by {
            if k < i {
                assert(fields@[k] == earlier[k]);
            } else if k > i {
                assert(fields@[k] == earlier[k - 1]);
            }
        }
    }
}

/// Every cell of the map has a name of its own.
pub open spec fn all_named(cells: crate::cells::Cells) -> bool {
    forall|i: int|
        0 <= i < cells.entries@.len() ==> (#[trigger] cells.entries@[i]).0.0 < u64::MAX
            && cells.entries@[i].0.1 < usize::MAX
}

fn formulas_json(formulas: &crate::cells::Cells) -> (r: Json)
    requires
        formulas.wf(),
        all_named(*formulas),
    ensures
        r.doc() matches crate::json::JsonView::Object(fields) && is_formulas_doc(*formulas, fields),
{
    let mut fields: Vec<(String, Json)> = Vec::new();
    let mut i: usize = 0;
    while i < formulas.entries.len()
        invariant
            formulas.wf(),
            all_named(*formulas),
            i == fields@.len() <= formulas.entries@.len(),
            in_key_order(crate::json::fields_doc(fields@)),
            forall|k: int|
                0 <= k < i ==> crate::json::fields_doc(fields@).contains(
                    (
                        crate::a1::name_of((#[trigger] formulas.entries@[k]).0),
                        text_doc(formulas.entries@[k].1@),
                    ),
                ),
            forall|j: int|
                0 <= j < fields@.len() ==> exists|k: int|
                    0 <= k < i && crate::a1::name_of((#[trigger] formulas.entries@[k]).0) == (
                    #[trigger] fields@[j]).0@,
        decreases formulas.entries@.len() - i,
    {
        let at = formulas.entries[i].0;
        assert(formulas.entries@[i as int].0 == at);
        let name = cell_name(at);
        let ghost earlier = fields@;
        proof {
            assert forall|j: int| 0 <= j < earlier.len() implies (#[trigger] earlier[j]).0@
                != name@ by {
                let k = choose|k: int|
                    0 <= k < i && crate::a1::name_of((#[trigger] formulas.entries@[k]).0)
                        == earlier[j].0@;
                assert(crate::cells::before(formulas.entries@[k].0, formulas.entries@[i as int].0));
                names_differ(formulas.entries@[k].0, at);
            }
        }
        insert_field(&mut fields, name, text_json(formulas.entries[i].1.as_str()));
        proof {
            assert forall|j: int| 0 <= j < fields@.len() implies exists|k: int|
                0 <= k < i + 1 && crate::a1::name_of((#[trigger] formulas.entries@[k]).0) == (
                #[trigger] fields@[j]).0@ by {
                if fields@[j].0@ == crate::a1::name_of(at) {
                    assert(crate::a1::name_of(formulas.entries@[i as int].0) == fields@[j].0@);
                } else {
                    let l = choose|l: int|
                        0 <= l < earlier.len() && (#[trigger] earlier[l]).0@ == fields@[j].0@;
                    let k = choose|k: int|
                        0 <= k < i && crate::a1::name_of((#[trigger] formulas.entries@[k]).0)
                            == earlier[l].0@;
                    assert(crate::a1::name_of(formulas.entries@[k].0) == fields@[j].0@);
                }
            }
        }
        i = i + 1;
    }
    object(fields)
}

impl Read {
    /// The range and every formula cell have names.
    pub open spec fn wf(self) -> bool {
        &&& self.range.first.0 < u64::MAX
        &&& self.range.last.0 < u64::MAX
        &&& (self.formulas matches Some(formulas) ==> formulas.wf() && all_named(formulas))
    }

    /// `formulas`, for workbooks only.
    fn put_formulas(&self, fields: &mut Vec<(String, Json)>)
        requires
            self.wf(),
        ensures
            match self.formulas {
                None => final(fields)@ == old(fields)@,
                Some(formulas) => exists|f: Seq<(Seq<char>, crate::json::JsonView)>|
                    {
                        &&& #[trigger] is_formulas_doc(formulas, f)
                        &&& crate::json::fields_doc(final(fields)@) == crate::json::fields_doc(
                            old(fields)@,
                        ).push(("formulas"@, crate::json::JsonView::Object(f)))
                    },
            },
    {
        if let Some(formulas) = &self.formulas {
            let value = formulas_json(formulas);
            assert(is_formulas_doc(*formulas, value.doc()->Object_0));
            put(fields, "formulas", value);
        }
    }

    /// The fields of a read: `formulas` for workbooks only, `range` and `rows`.
    pub open spec fn is_doc(self, fields: Seq<(Seq<char>, crate::json::JsonView)>) -> bool {
        let last = seq![("range"@, text_doc(self.range.name())), ("rows"@, rows_doc(self.rows@))];
        match self.formulas {
            None => fields == last,
            Some(formulas) => {
                &&& fields.len() == 3
                &&& fields[0].0 == "formulas"@
                &&& fields[0].1 matches crate::json::JsonView::Object(f) && is_formulas_doc(
                    formulas,
                    f,
                )
                &&& fields.skip(1) == last
            },
        }
    }

    /// The document that is printed.
    pub fn to_json(&self) -> (r: Json)
        requires
            self.wf(),
        ensures
            r.doc() matches crate::json::JsonView::Object(fields) && self.is_doc(fields),
    {
        let mut fields: Vec<(String, Json)> = Vec::new();
        assert(crate::json::fields_doc(fields@) =~= Seq::empty());
        self.put_formulas(&mut fields);
        put(&mut fields, "range", Json::Text(self.range.to_string()));
        put(&mut fields, "rows", rows_json(&self.rows));
        let r = object(fields);
        proof {
            let f = r.doc()->Object_0;
            let last = seq![
                ("range"@, text_doc(self.range.name())),
                ("rows"@, rows_doc(self.rows@)),
            ];
            if self.formulas is None {
                assert(f =~= last);
            } else {
                assert(f.skip(1) =~= last);
            }
        }
        r
    }
}

impl Found {
    /// Every cell it names has a name.
    pub open spec fn wf(self) -> bool {
        &&& self.from.0 < u64::MAX
        &&& self.result.is_named()
        &&& (self.preview matches Some(changes) ==> changes.wf())
    }

    /// The searched columns by their letters, or null for all.
    pub open spec fn columns_doc(self) -> crate::json::JsonView {
        match self.query.columns {
            None => crate::json::JsonView::Null,
            Some(columns) => texts_doc(
                columns@.map_values(|c: usize| crate::a1::letters_of(c as nat)),
            ),
        }
    }

    /// The query as a document.
    pub open spec fn query_doc(self) -> crate::json::JsonView {
        crate::json::JsonView::Object(
            seq![
                ("columns"@, self.columns_doc()),
                ("exact"@, crate::json::JsonView::Bool(self.query.exact)),
                ("from"@, text_doc(crate::a1::name_of(self.from))),
                ("ignore_case"@, crate::json::JsonView::Bool(self.query.ignore_case)),
                ("limit"@, crate::json::JsonView::Number(self.limit as u64)),
                ("text"@, text_doc(self.query.text@)),
            ],
        )
    }

    /// One match as a document.
    pub open spec fn match_doc(m: (crate::a1::Address, String)) -> crate::json::JsonView {
        crate::json::JsonView::Object(
            seq![
                ("cell"@, text_doc(crate::a1::name_of(m.0))),
                ("value"@, text_doc(m.1@)),
            ],
        )
    }

    /// The matches as a document.
    pub open spec fn matches_doc(self) -> crate::json::JsonView {
        crate::json::JsonView::List(
            self.result.matches@.map_values(
                |m: (crate::a1::Address, String)| Self::match_doc(m),
            ),
        )
    }

    /// The document that is printed.
    pub open spec fn doc(self) -> crate::json::JsonView {
        crate::json::JsonView::Object(
            field_if(self.preview is Some, "changes"@, self.preview->0.doc()) + seq![
                (
                    "coordinates"@,
                    text_doc(
                        if self.sort is Some {
                            "sorted_view"@
                        } else {
                            "source"@
                        },
                    ),
                ),
            ] + field_if(
                self.preview is Some,
                "dry_run"@,
                crate::json::JsonView::Bool(true),
            ) + seq![("find"@, self.query_doc())] + self.source.format_field() + seq![
                ("matches"@, self.matches_doc()),
                (
                    "next"@,
                    match self.result.next {
                        Some(at) => text_doc(crate::a1::name_of(at)),
                        None => crate::json::JsonView::Null,
                    },
                ),
                (
                    "records_scanned"@,
                    crate::json::JsonView::Number(self.result.records_scanned),
                ),
            ] + self.source.sheet_field() + field_if(
                self.sort is Some,
                "sort"@,
                self.sort->0.doc(),
            ) + self.source.source_field(),
        )
    }

    fn columns_json(&self) -> (r: Json)
        ensures
            r.doc() == self.columns_doc(),
    {
        match &self.query.columns {
            None => Json::Null,
            Some(columns) => {
                let mut names: Vec<String> = Vec::new();
                let mut i: usize = 0;
                while i < columns.len()
                    invariant
                        i == names@.len() <= columns@.len(),
                        forall|k: int|
                            0 <= k < i ==> (#[trigger] names@[k])@ == crate::a1::letters_of(
                                columns@[k] as nat,
                            ),
                    decreases columns@.len() - i,
                {
                    names.push(column_name(columns[i]));
                    i = i + 1;
                }
                assert(crate::text::views(names@) =~= columns@.map_values(
                    |c: usize| crate::a1::letters_of(c as nat),
                ));
                texts_json(&names)
            },
        }
    }

    fn query_json(&self) -> (r: Json)
        requires
            self.wf(),
        ensures
            r.doc() == self.query_doc(),
    {
        let mut fields: Vec<(String, Json)> = Vec::new();
        put(&mut fields, "columns", self.columns_json());
        put(&mut fields, "exact", Json::Bool(self.query.exact));
        put(&mut fields, "from", Json::Text(cell_name(self.from)));
        put(&mut fields, "ignore_case", Json::Bool(self.query.ignore_case));
        put(&mut fields, "limit", Json::Number(self.limit as u64));
        put(&mut fields, "text", text_json(self.query.text.as_str()));
        let r = object(fields);
        assert(r.doc()->Object_0 =~= self.query_doc()->Object_0);
        r
    }

    fn matches_json(&self) -> (r: Json)
        requires
            self.wf(),
        ensures
            r.doc() == self.matches_doc(),
    {
        let mut items: Vec<Json> = Vec::new();
        let mut i: usize = 0;
        while i < self.result.matches.len()
            invariant
                self.wf(),
                i == items@.len() <= self.result.matches@.len(),
                forall|k: int|
                    0 <= k < i ==> (#[trigger] items@[k]).doc() == Self::match_doc(
                        self.result.matches@[k],
                    ),
            decreases self.result.matches@.len() - i,
        {
            assert(self.result.matches@[i as int].0.0 < u64::MAX);
            let mut fields: Vec<(String, Json)> = Vec::new();
            put(&mut fields, "cell", Json::Text(cell_name(self.result.matches[i].0)));
            put(&mut fields, "value", text_json(self.result.matches[i].1.as_str()));
            let item = object(fields);
            assert(item.doc()->Object_0 =~= Self::match_doc(
                self.result.matches@[i as int],
            )->Object_0);
            items.push(item);
            i = i + 1;
        }
        assert(crate::json::list_doc(items@) =~= self.matches_doc()->List_0);
        list(items)
    }

    /// The document that is printed.
    pub fn to_json(&self) -> (r: Json)
        requires
            self.wf(),
        ensures
            r.doc() == self.doc(),
    {
        let mut fields: Vec<(String, Json)> = Vec::new();
        if let Some(changes) = &self.preview {
            put(&mut fields, "changes", changes.to_json());
        }
        let coordinates = if self.sort.is_some() {
            text_json("sorted_view")
        } else {
            text_json("source")
        };
        put(&mut fields, "coordinates", coordinates);
        if self.preview.is_some() {
            put(&mut fields, "dry_run", Json::Bool(true));
        }
        put(&mut fields, "find", self.query_json());
        self.source.put_format(&mut fields);
        put(&mut fields, "matches", self.matches_json());
        let next = match self.result.next {
            Some(at) => Json::Text(cell_name(at)),
            None => Json::Null,
        };
        put(&mut fields, "next", next);
        put(&mut fields, "records_scanned", Json::Number(self.result.records_scanned));
        self.source.put_sheet(&mut fields);
        if let Some(sort) = &self.sort {
            put(&mut fields, "sort", sort.to_json());
        }
        self.source.put_source(&mut fields);
        let r = object(fields);
        assert(r.doc()->Object_0 =~= self.doc()->Object_0);
        r
    }
}

impl Report {
    /// Every cell it names has a name.
    pub open spec fn wf(self) -> bool {
        self.changes.wf() && (self.read matches Some(read) ==> read.wf())
    }

    /// The fields of a report; `formulas` is what a read of a workbook gives of formulas.
    pub open spec fn fields(self, formulas: Seq<(Seq<char>, crate::json::JsonView)>) -> Seq<
        (Seq<char>, crate::json::JsonView),
    > {
        let workbook = self.source.workbook is Some;
        seq![
            ("changes"@, self.changes.doc()),
            ("dry_run"@, crate::json::JsonView::Bool(self.dry_run)),
        ] + field_if(
            workbook,
            "edit_type"@,
            text_doc("text; XLSX values beginning with = are formulas"@),
        ) + self.source.format_field() + field_if(
            workbook,
            "formula_results"@,
            text_doc(
                "existing results are cached; new formulas are calculated when the saved file opens"@,
            ),
        ) + field_if(
            self.read is Some && self.read->0.formulas is Some,
            "formulas"@,
            crate::json::JsonView::Object(formulas),
        ) + field_if(self.output is Some, "output"@, text_doc(self.output->0@)) + field_if(
            self.read is Some,
            "range"@,
            text_doc(self.read->0.range.name()),
        ) + field_if(self.read is Some, "rows"@, rows_doc(self.read->0.rows@))
            + self.source.sheet_field() + field_if(
            self.sort is Some,
            "sort"@,
            self.sort->0.doc(),
        ) + self.source.source_field()
    }

    /// The document that is printed.
    pub fn to_json(&self) -> (r: Json)
        requires
            self.wf(),
        ensures
            r.doc() matches crate::json::JsonView::Object(fields) && exists|
                f: Seq<(Seq<char>, crate::json::JsonView)>,
            |
                {
                    &&& fields == #[trigger] self.fields(f)
                    &&& self.read is Some && self.read->0.formulas is Some ==> is_formulas_doc(
                        self.read->0.formulas->0,
                        f,
                    )
                },
    {
        let workbook = self.source.workbook.is_some();
        let mut fields: Vec<(String, Json)> = Vec::new();
        put(&mut fields, "changes", self.changes.to_json());
        put(&mut fields, "dry_run", Json::Bool(self.dry_run));
        assert(crate::json::fields_doc(fields@) =~= seq![
            ("changes"@, self.changes.doc()),
            ("dry_run"@, crate::json::JsonView::Bool(self.dry_run)),
        ]);
        let edit_type = if workbook {
            Some(text_json("text; XLSX values beginning with = are formulas"))
        } else {
            None
        };
        put_some(&mut fields, "edit_type", edit_type);
        self.source.put_format(&mut fields);
        let results = if workbook {
            Some(
                text_json(
                    "existing results are cached; new formulas are calculated when the saved file opens",
                ),
            )
        } else {
            None
        };
        put_some(&mut fields, "formula_results", results);
        let (formulas, range, rows) = self.read_parts();
        let ghost found = formulas->0.doc()->Object_0;
        put_some(&mut fields, "formulas", formulas);
        let output = match &self.output {
            Some(output) => Some(text_json(output.as_str())),
            None => None,
        };
        put_some(&mut fields, "output", output);
        put_some(&mut fields, "range", range);
        put_some(&mut fields, "rows", rows);
        self.source.put_sheet(&mut fields);
        let sort = match &self.sort {
            Some(sort) => Some(sort.to_json()),
            None => None,
        };
        put_some(&mut fields, "sort", sort);
        self.source.put_source(&mut fields);
        let r = object(fields);
        assert(r.doc()->Object_0 == self.fields(found));
        r
    }

    /// What a report has of a read.
    fn read_parts(&self) -> (r: (Option<Json>, Option<Json>, Option<Json>))
        requires
            self.wf(),
        ensures
            r.0 is Some == (self.read is Some && self.read->0.formulas is Some),
            r.0 is Some ==> (r.0->0.doc() matches crate::json::JsonView::Object(f)
                && is_formulas_doc(self.read->0.formulas->0, f)),
            r.1 is Some == self.read is Some,
            r.1 is Some ==> r.1->0.doc() == text_doc(self.read->0.range.name()),
            r.2 is Some == self.read is Some,
            r.2 is Some ==> r.2->0.doc() == rows_doc(self.read->0.rows@),
    {
        match &self.read {
            None => (None, None, None),
            Some(read) => {
                let formulas = match &read.formulas {
                    Some(formulas) => Some(formulas_json(formulas)),
                    None => None,
                };
                (
                    formulas,
                    Some(Json::Text(read.range.to_string())),
                    Some(rows_json(&read.rows)),
                )
            },
        }
    }
}

} // verus!
