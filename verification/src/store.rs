//! What the index stores: chunks, their metadata, and run statistics.
use vstd::prelude::*;

use crate::text;

verus! {

/// Metadata stored with a chunk. An empty `scope` is left out when it is stored.
#[derive(Debug, Clone, PartialEq)]
pub struct Meta {
    pub path: String,
    pub line: usize,
    pub lang: String,
    pub node_type: String,
    pub scope: String,
}

/// The metadata of a chunk, as mathematical values.
#[verifier::ext_equal]
pub struct MetaView {
    pub path: Seq<char>,
    pub line: nat,
    pub lang: Seq<char>,
    pub node_type: Seq<char>,
    pub scope: Seq<char>,
}

impl View for Meta {
    type V = MetaView;

    open spec fn view(&self) -> MetaView {
        MetaView {
            path: self.path@,
            line: self.line as nat,
            lang: self.lang@,
            node_type: self.node_type@,
            scope: self.scope@,
        }
    }
}

// ---------------------------------------------------------------------------
// Fields
// ---------------------------------------------------------------------------

/// A value in the metadata of the database.
#[derive(Debug, Clone, PartialEq, Eq)]
pub enum FieldValue {
    Text(String),
    Number(u64),
    /// A value of another kind.
    Other,
}

/// A value in the metadata of the database, as a mathematical value.
pub enum FieldView {
    Text(Seq<char>),
    Number(nat),
    Other,
}

impl View for FieldValue {
    type V = FieldView;

    open spec fn view(&self) -> FieldView {
        match self {
            FieldValue::Text(s) => FieldView::Text(s@),
            FieldValue::Number(n) => FieldView::Number(*n as nat),
            FieldValue::Other => FieldView::Other,
        }
    }
}

/// The views of a list of fields.
pub open spec fn field_views(v: Seq<(String, FieldValue)>) -> Seq<(Seq<char>, FieldView)> {
    Seq::new(v.len(), |i: int| (v[i].0@, v[i].1@))
}

/// The value of the first field of that name.
pub open spec fn field(fields: Seq<(Seq<char>, FieldView)>, key: Seq<char>) -> Option<FieldView>
    decreases fields.len(),
{
    if fields.len() == 0 {
        None
    } else if fields[0].0 == key {
        Some(fields[0].1)
    } else {
        field(fields.drop_first(), key)
    }
}

/// The value of the first field of that name.
pub fn find_field<'a>(fields: &'a Vec<(String, FieldValue)>, key: &str) -> (r: Option<
    &'a FieldValue,
>)
    ensures
        match r {
            Some(v) => field(field_views(fields@), key@) == Some(v@),
            None => field(field_views(fields@), key@) is None,
        },
{
    let ghost all = field_views(fields@);
    let mut i: usize = 0;
    proof {
        assert(all.skip(0) =~= all);
    }
    while i < fields.len()
        invariant
            i <= fields@.len(),
            all == field_views(fields@),
            field(all, key@) == field(all.skip(i as int), key@),
        decreases fields@.len() - i,
    {
        proof {
            assert(all.skip(i as int)[0] == (fields@[i as int].0@, fields@[i as int].1@));
            assert(all.skip(i as int).drop_first() =~= all.skip(i + 1));
        }
        if text::str_eq(fields[i].0.as_str(), key) {
            return Some(&fields[i].1);
        }
        i = i + 1;
    }
    None
}

/// The fields in which the metadata of a chunk is stored. An empty scope has none.
pub open spec fn meta_fields(m: MetaView) -> Seq<(Seq<char>, FieldView)> {
    let fields = seq![
        ("path"@, FieldView::Text(m.path)),
        ("line"@, FieldView::Number(m.line)),
        ("lang"@, FieldView::Text(m.lang)),
        ("type"@, FieldView::Text(m.node_type)),
    ];
    if m.scope.len() > 0 {
        fields.push(("scope"@, FieldView::Text(m.scope)))
    } else {
        fields
    }
}

/// The metadata that fields hold: `None` where one is missing, but for the scope, or
/// where one is of the wrong kind.
pub open spec fn meta_of(fields: Seq<(Seq<char>, FieldView)>) -> Option<MetaView> {
    match (
        field(fields, "path"@),
        field(fields, "line"@),
        field(fields, "lang"@),
        field(fields, "type"@),
        field(fields, "scope"@),
    ) {
        (
            Some(FieldView::Text(path)),
            Some(FieldView::Number(line)),
            Some(FieldView::Text(lang)),
            Some(FieldView::Text(node_type)),
            scope,
        ) => if line > usize::MAX {
            None
        } else {
            match scope {
                Some(FieldView::Text(scope)) => Some(
                    MetaView { path, line, lang, node_type, scope },
                ),
                Some(_) => None,
                None => Some(MetaView { path, line, lang, node_type, scope: Seq::empty() }),
            }
        },
        _ => None,
    }
}

fn text_field(fields: &Vec<(String, FieldValue)>, key: &str) -> (r: Option<String>)
    ensures
        match r {
            Some(s) => field(field_views(fields@), key@) == Some(FieldView::Text(s@)),
            None => !(field(field_views(fields@), key@) matches Some(FieldView::Text(_))),
        },
{
    match find_field(fields, key) {
        Some(FieldValue::Text(s)) => Some(s.clone()),
        _ => None,
    }
}

impl Meta {
    /// The fields in which the metadata is stored.
    pub fn fields(&self) -> (r: Vec<(String, FieldValue)>)
        ensures
            field_views(r@) == meta_fields(self@),
    {
        let mut r: Vec<(String, FieldValue)> = Vec::new();
        r.push(("path".to_string(), FieldValue::Text(self.path.clone())));
        r.push(("line".to_string(), FieldValue::Number(self.line as u64)));
        r.push(("lang".to_string(), FieldValue::Text(self.lang.clone())));
        r.push(("type".to_string(), FieldValue::Text(self.node_type.clone())));
        if !self.scope.as_str().is_empty() {
            r.push(("scope".to_string(), FieldValue::Text(self.scope.clone())));
        }
        proof {
            assert(field_views(r@) =~= meta_fields(self@));
        }
        r
    }

    /// The metadata that fields hold.
    pub fn from_fields(fields: &Vec<(String, FieldValue)>) -> (r: Option<Meta>)
        ensures
            match r {
                Some(m) => meta_of(field_views(fields@)) == Some(m@),
                None => meta_of(field_views(fields@)) is None,
            },
    {
        let path = match text_field(fields, "path") {
            Some(s) => s,
            None => {
                return None;
            },
        };
        let line: u64 = match find_field(fields, "line") {
            Some(FieldValue::Number(n)) => *n,
            _ => {
                return None;
            },
        };
        let lang = match text_field(fields, "lang") {
            Some(s) => s,
            None => {
                return None;
            },
        };
        let node_type = match text_field(fields, "type") {
            Some(s) => s,
            None => {
                return None;
            },
        };
        if line > usize::MAX as u64 {
            return None;
        }
        let scope = match find_field(fields, "scope") {
            Some(FieldValue::Text(s)) => s.clone(),
            Some(_) => {
                return None;
            },
            None => {
                let empty = String::new();
                proof {
                    assert(empty@ =~= Seq::<char>::empty());
                }
                empty
            },
        };
        Some(Meta { path, line: line as usize, lang, node_type, scope })
    }
}

/// The metadata of a chunk is read as it was stored.
pub proof fn law_meta_read_back(m: MetaView)
    requires
        m.line <= usize::MAX,
    ensures
        meta_of(meta_fields(m)) == Some(m),
{
    reveal_strlit("path");
    reveal_strlit("line");
    reveal_strlit("lang");
    reveal_strlit("type");
    reveal_strlit("scope");
    let f = meta_fields(m);
    assert("path"@[0] != "line"@[0]);
    assert("path"@[0] != "lang"@[0]);
    assert("path"@[0] != "type"@[0]);
    assert("line"@[1] != "lang"@[1]);
    assert("line"@[0] != "type"@[0]);
    assert("lang"@[0] != "type"@[0]);
    assert("scope"@.len() == 5);
    reveal_with_fuel(field, 6);
    if m.scope.len() == 0 {
        assert(m.scope =~= Seq::<char>::empty());
    }
    assert(f.drop_first()[0] == f[1]);
    assert(f.drop_first().drop_first()[0] == f[2]);
    assert(f.drop_first().drop_first().drop_first()[0] == f[3]);
    if m.scope.len() > 0 {
        assert(f.drop_first().drop_first().drop_first().drop_first()[0] == f[4]);
    }
}

// ---------------------------------------------------------------------------
// Records
// ---------------------------------------------------------------------------

/// A chunk ready to be sent to the store.
#[derive(Debug, Clone)]
pub struct Record {
    pub id: String,
    pub body: String,
    pub meta: Meta,
}

/// A chunk, as mathematical values.
#[verifier::ext_equal]
pub struct RecordView {
    pub id: Seq<char>,
    pub body: Seq<char>,
    pub meta: MetaView,
}

impl View for Record {
    type V = RecordView;

    open spec fn view(&self) -> RecordView {
        RecordView { id: self.id@, body: self.body@, meta: self.meta@ }
    }
}

/// The views of a list of records.
pub open spec fn record_views(v: Seq<Record>) -> Seq<RecordView> {
    Seq::new(v.len(), |i: int| v[i]@)
}

/// The same metadata again.
pub(crate) fn copy_meta(m: &Meta) -> (c: Meta)
    ensures
        c@ == m@,
{
    Meta {
        path: m.path.clone(),
        line: m.line,
        lang: m.lang.clone(),
        node_type: m.node_type.clone(),
        scope: m.scope.clone(),
    }
}

/// The same record again.
pub(crate) fn copy_record(r: &Record) -> (c: Record)
    ensures
        c@ == r@,
{
    Record { id: r.id.clone(), body: r.body.clone(), meta: copy_meta(&r.meta) }
}

/// What a one-shot scan did.
#[derive(Debug, Clone)]
pub struct Stats {
    pub files: usize,
    pub added: usize,
    pub unchanged: usize,
    pub deleted: usize,
    pub ts_chunks: usize,
    pub win_chunks: usize,
    pub skipped_bin: usize,
}

impl Default for Stats {
    fn default() -> (s: Stats)
        ensures
            s.files == 0,
            s.added == 0,
            s.unchanged == 0,
            s.deleted == 0,
            s.ts_chunks == 0,
            s.win_chunks == 0,
            s.skipped_bin == 0,
    {
        Stats {
            files: 0,
            added: 0,
            unchanged: 0,
            deleted: 0,
            ts_chunks: 0,
            win_chunks: 0,
            skipped_bin: 0,
        }
    }
}

/// A collection of the database, as far as garbage collection looks at it.
#[derive(Debug, Clone)]
pub struct CollectionInfo {
    pub id: String,
    pub name: String,
    /// Whether this indexer owns the collection.
    pub index_repo: bool,
    /// Unix time in seconds of the last index run, if one was recorded.
    pub last_indexed: Option<u64>,
}

/// Metadata is stored under these names: the path, the line, the language, the type
/// and the scope of the chunk, the last only where it has one.
pub proof fn law_meta_field_names(m: MetaView)
    ensures
        field(meta_fields(m), "path"@) == Some(FieldView::Text(m.path)),
        field(meta_fields(m), "line"@) == Some(FieldView::Number(m.line)),
        field(meta_fields(m), "lang"@) == Some(FieldView::Text(m.lang)),
        field(meta_fields(m), "type"@) == Some(FieldView::Text(m.node_type)),
        field(meta_fields(m), "scope"@) == if m.scope.len() > 0 {
            Some(FieldView::Text(m.scope))
        } else {
            None
        },
        meta_fields(m).len() == if m.scope.len() > 0 {
            5nat
        } else {
            4nat
        },
{
    reveal_strlit("path");
    reveal_strlit("line");
    reveal_strlit("lang");
    reveal_strlit("type");
    reveal_strlit("scope");
    let f = meta_fields(m);
    assert("path"@[0] != "line"@[0]);
    assert("path"@[0] != "lang"@[0]);
    assert("path"@[0] != "type"@[0]);
    assert("line"@[1] != "lang"@[1]);
    assert("line"@[0] != "type"@[0]);
    assert("lang"@[0] != "type"@[0]);
    assert("scope"@.len() == 5);
    reveal_with_fuel(field, 6);
    assert(f.drop_first()[0] == f[1]);
    assert(f.drop_first().drop_first()[0] == f[2]);
    assert(f.drop_first().drop_first().drop_first()[0] == f[3]);
    if m.scope.len() > 0 {
        assert(f.drop_first().drop_first().drop_first().drop_first()[0] == f[4]);
    }
}

/// The first field of a name counts, whatever stands under it later.
pub proof fn law_first_field_counts(
    fields: Seq<(Seq<char>, FieldView)>,
    key: Seq<char>,
)
    ensures
        match field(fields, key) {
            Some(v) => exists|i: int|
                0 <= i < fields.len() && (#[trigger] fields[i]).0 == key && fields[i].1 == v && (
                forall|j: int| 0 <= j < i ==> (#[trigger] fields[j]).0 != key),
            None => forall|j: int| 0 <= j < fields.len() ==> (#[trigger] fields[j]).0 != key,
        },
    decreases fields.len(),
{
    if fields.len() > 0 && fields[0].0 != key {
        let rest = fields.drop_first();
        law_first_field_counts(rest, key);
        match field(rest, key) {
            Some(v) => {
                let i = choose|i: int|
                    0 <= i < rest.len() && (#[trigger] rest[i]).0 == key && rest[i].1 == v && (
                    forall|j: int| 0 <= j < i ==> (#[trigger] rest[j]).0 != key);
                assert(fields[i + 1] == rest[i]);
                assert forall|j: int| 0 <= j < i + 1 implies (#[trigger] fields[j]).0 != key by {
                    if j > 0 {
                        assert(fields[j] == rest[j - 1]);
                    }
                }
            },
            None => {
                assert forall|j: int| 0 <= j < fields.len() implies (#[trigger] fields[j]).0
                    != key by {
                    if j > 0 {
                        assert(fields[j] == rest[j - 1]);
                    }
                }
            },
        }
    } else if fields.len() > 0 {
        assert(fields[0].0 == key);
    }
}

/// Metadata is refused where the path, the line, the language or the type is missing or
/// of the wrong kind, where the scope is of the wrong kind, and where the line is too
/// large; a missing scope is an empty one.
pub proof fn law_incomplete_metadata(fields: Seq<(Seq<char>, FieldView)>, m: MetaView)
    ensures
        !(field(fields, "path"@) is Some && field(fields, "path"@).unwrap() is Text) ==> meta_of(
            fields,
        ) is None,
        !(field(fields, "line"@) is Some && field(fields, "line"@).unwrap() is Number) ==> meta_of(
            fields,
        ) is None,
        !(field(fields, "lang"@) is Some && field(fields, "lang"@).unwrap() is Text) ==> meta_of(
            fields,
        ) is None,
        !(field(fields, "type"@) is Some && field(fields, "type"@).unwrap() is Text) ==> meta_of(
            fields,
        ) is None,
        field(fields, "scope"@) is Some && !(field(fields, "scope"@).unwrap() is Text) ==> meta_of(
            fields,
        ) is None,
        field(fields, "path"@) == Some(FieldView::Text(m.path)) && field(fields, "line"@) == Some(
            FieldView::Number(m.line),
        ) && m.line <= usize::MAX && field(fields, "lang"@) == Some(FieldView::Text(m.lang))
            && field(fields, "type"@) == Some(FieldView::Text(m.node_type)) && field(
            fields,
            "scope"@,
        ) is None && m.scope.len() == 0 ==> meta_of(fields) == Some(m),
        field(fields, "line"@) is Some && field(fields, "line"@).unwrap() is Number && field(
            fields,
            "line"@,
        ).unwrap()->Number_0 > usize::MAX ==> meta_of(fields) is None,
{
    if m.scope.len() == 0 {
        assert(m.scope =~= Seq::<char>::empty());
    }
}

} // verus!
