//! From the bytes of a file to the records that are stored for it.
use vstd::prelude::*;
use vstd::utf8::*;

use crate::chunk::{Chunk, ChunkView};
use crate::grammar::UsedGrammars;
use crate::store::{Meta, MetaView, Record, RecordView};
use crate::{chunk, digest, paths, store, text};

verus! {

/// What the id of a chunk is the digest of.
pub open spec fn id_source(rel: Seq<char>, line: nat, body: Seq<char>) -> Seq<char> {
    rel + seq![':'] + text::decimal(line) + seq![':'] + body
}

/// The id of a chunk: the SHA-1 digest of `rel:line:body`, in hexadecimal.
pub open spec fn chunk_id_of(rel: Seq<char>, line: nat, body: Seq<char>) -> Seq<char> {
    digest::sha1_hex(id_source(rel, line, body))
}

/// The id of a chunk: the SHA-1 digest of `rel:line:body`, in hexadecimal.
pub fn chunk_id(rel: &str, line: usize, body: &str) -> (r: String)
    ensures
        r@ == chunk_id_of(rel@, line as nat, body@),
        r@.len() == 40,
{
    let mut s = rel.to_string();
    s.push(':');
    s.append(text::decimal_text(line as u64).as_str());
    s.push(':');
    s.append(body);
    proof {
        assert(s@ =~= id_source(rel@, line as nat, body@));
    }
    digest::sha1_text(s.as_str())
}

/// The `lang` field of a path: its extension in lower case, or its name where it
/// has none.
pub open spec fn lang_of(path: Seq<char>) -> Seq<char> {
    let name = match paths::name_of(path) {
        Some(n) => n,
        None => Seq::empty(),
    };
    match paths::path_extension(path) {
        Some(ext) => if ext.len() > 0 {
            text::lowercase(ext)
        } else {
            name
        },
        None => name,
    }
}

/// The `lang` field of a path: its extension in lower case, or its name where it
/// has none.
pub fn lang_field(path: &str) -> (r: String)
    ensures
        r@ == lang_of(path@),
{
    match paths::extension(path) {
        Some(ext) => {
            if !ext.as_str().is_empty() {
                return text::lowercase_text(ext.as_str());
            }
        },
        None => {},
    }
    match paths::file_name(path) {
        Some(n) => n,
        None => String::new(),
    }
}

/// The metadata of a chunk.
pub fn build_meta(rel: &str, line: usize, lang: &str, node_type: &str, scope: &str) -> (m: Meta)
    ensures
        m@ == (MetaView {
            path: rel@,
            line: line as nat,
            lang: lang@,
            node_type: node_type@,
            scope: scope@,
        }),
{
    Meta {
        path: rel.to_string(),
        line,
        lang: lang.to_string(),
        node_type: node_type.to_string(),
        scope: scope.to_string(),
    }
}

/// The record of a chunk of the file `rel`.
pub open spec fn record_of(rel: Seq<char>, lang: Seq<char>, c: ChunkView) -> RecordView {
    RecordView {
        id: chunk_id_of(rel, c.0, c.1),
        body: c.1,
        meta: MetaView { path: rel, line: c.0, lang, node_type: c.2, scope: c.3 },
    }
}

/// The records of the chunks of the file `rel`, in order.
pub open spec fn records_of(rel: Seq<char>, lang: Seq<char>, chunks: Seq<ChunkView>) -> Seq<
    RecordView,
> {
    Seq::new(chunks.len(), |i: int| record_of(rel, lang, chunks[i]))
}

/// How many of the chunks are windows of a whole file.
pub open spec fn window_count(chunks: Seq<ChunkView>) -> nat
    decreases chunks.len(),
{
    if chunks.len() == 0 {
        0
    } else {
        window_count(chunks.drop_last()) + if chunks.last().2 == "window"@ {
            1nat
        } else {
            0nat
        }
    }
}

/// The path of a file relative to its root; all of it where it lies elsewhere.
pub open spec fn relative_or_whole(path: Seq<char>, root: Seq<char>) -> Seq<char> {
    match paths::relative(path, root) {
        Some(rel) => rel,
        None => path,
    }
}

/// Whether the bytes are no text: not UTF-8, or with a NUL among them.
pub open spec fn binary(bytes: Seq<u8>) -> bool {
    !valid_utf8(bytes) || bytes.contains(0)
}

/// The chunks of a file with these contents; none of one that could not be read or
/// is no text.
pub open spec fn chunks_of(path: Seq<char>, content: Option<Seq<u8>>) -> Seq<ChunkView> {
    match content {
        Some(bytes) => if binary(bytes) {
            Seq::empty()
        } else {
            chunk::file_chunks(decode_utf8(bytes), path)
        },
        None => Seq::empty(),
    }
}

pub open spec fn opt_bytes(v: Option<Vec<u8>>) -> Option<Seq<u8>> {
    match v {
        Some(b) => Some(b@),
        None => None,
    }
}

/// What a file contributes to the index: its relative path, its records, how many
/// of them are semantic and how many are windows, and whether it is text. `content`
/// is what was read of it, or `None` where it could not be read, which counts as
/// empty text.
pub fn chunks_for_file(
    path: &str,
    root: &str,
    content: Option<Vec<u8>>,
    used: &mut UsedGrammars,
) -> (r: (String, Vec<Record>, usize, usize, bool))
    ensures
        r.0@ == relative_or_whole(path@, root@),
        store::record_views(r.1@) == records_of(
            relative_or_whole(path@, root@),
            lang_of(path@),
            chunks_of(path@, opt_bytes(content)),
        ),
        r.3 == window_count(chunks_of(path@, opt_bytes(content))),
        r.2 + r.3 == r.1@.len(),
        r.4 == match opt_bytes(content) {
            Some(bytes) => !binary(bytes),
            None => true,
        },
        final(used).keys() == match (opt_bytes(content), chunk::lang_of_path(path@)) {
            (Some(bytes), Some(lang)) => if binary(bytes) {
                old(used).keys()
            } else {
                old(used).keys().insert(lang)
            },
            _ => old(used).keys(),
        },
{
    let rel = match paths::strip_prefix(path, root) {
        Some(rel) => rel,
        None => path.to_string(),
    };
    let mut records: Vec<Record> = Vec::new();
    let ghost given = opt_bytes(content);
    proof {
        assert(store::record_views(records@) =~= records_of(rel@, lang_of(path@), Seq::empty()));
    }
    let bytes = match content {
        Some(b) => b,
        None => {
            return (rel, records, 0, 0, true);
        },
    };
    let ghost raw = bytes@;
    if has_nul(&bytes) {
        return (rel, records, 0, 0, false);
    }
    let source = match text::utf8_text(bytes) {
        Some(s) => s,
        None => {
            return (rel, records, 0, 0, false);
        },
    };
    proof {
        encode_utf8_decode_utf8(source@);
        assert(decode_utf8(raw) == source@);
    }
    let lang = lang_field(path);
    let chunks = chunk::chunk_file(source.as_str(), path, used);
    let ghost all = chunk::chunk_views(chunks@);
    let mut ts_count: usize = 0;
    let mut win_count: usize = 0;
    let mut i: usize = 0;
    proof {
        assert(store::record_views(records@) =~= records_of(rel@, lang@, all.take(0)));
    }
    while i < chunks.len()
        invariant
            all == chunk::chunk_views(chunks@),
            i <= chunks@.len(),
            store::record_views(records@) == records_of(rel@, lang@, all.take(i as int)),
            records@.len() == i,
            win_count == window_count(all.take(i as int)),
            ts_count + win_count == i,
        decreases chunks@.len() - i,
    {
        let c: &Chunk = &chunks[i];
        let ghost before = records@;
        proof {
            assert(all[i as int] == chunk::chunk_view(*c));
            assert(all.take(i + 1).drop_last() =~= all.take(i as int));
        }
        let id = chunk_id(rel.as_str(), c.0, c.1.as_str());
        let meta = build_meta(rel.as_str(), c.0, lang.as_str(), c.2.as_str(), c.3.as_str());
        if text::str_eq(c.2.as_str(), "window") {
            win_count = win_count + 1;
        } else {
            ts_count = ts_count + 1;
        }
        records.push(Record { id, body: c.1.clone(), meta });
        proof {
            let r = record_of(rel@, lang@, all[i as int]);
            assert(records@.last()@ == r);
            assert(store::record_views(records@) =~= store::record_views(before).push(r));
            assert(records_of(rel@, lang@, all.take(i + 1)) =~= records_of(
                rel@,
                lang@,
                all.take(i as int),
            ).push(r));
        }
        i = i + 1;
    }
    proof {
        assert(all.take(chunks@.len() as int) =~= all);
    }
    (rel, records, ts_count, win_count, true)
}

fn has_nul(bytes: &Vec<u8>) -> (r: bool)
    ensures
        r == bytes@.contains(0),
{
    let mut i: usize = 0;
    while i < bytes.len()
        invariant
            i <= bytes@.len(),
            forall|k: int| 0 <= k < i ==> bytes@[k] != 0,
        decreases bytes@.len() - i,
    {
        if bytes[i] == 0 {
            assert(bytes@[i as int] == 0);
            return true;
        }
        i = i + 1;
    }
    false
}

/// A file that is read, is UTF-8 and holds no NUL is chunked; any other gives nothing.
pub proof fn law_text_files_are_chunked(path: Seq<char>, text: Seq<char>, bytes: Seq<u8>)
    ensures
        !encode_utf8(text).contains(0) ==> chunks_of(path, Some(encode_utf8(text)))
            == chunk::file_chunks(text, path),
        !valid_utf8(bytes) ==> chunks_of(path, Some(bytes)).len() == 0,
        forall|i: int|
            0 <= i < bytes.len() && #[trigger] bytes[i] == 0 ==> chunks_of(path, Some(bytes)).len() == 0,
        chunks_of(path, None).len() == 0,
        binary(bytes) <==> (!valid_utf8(bytes) || exists|i: int|
            0 <= i < bytes.len() && #[trigger] bytes[i] == 0),
{
    broadcast use group_utf8_lib;

    assert forall|i: int| 0 <= i < bytes.len() && #[trigger] bytes[i] == 0 implies bytes.contains(
        0,
    ) by {}
}

/// A file gives one record for each of its chunks, in order. A record holds the text of
/// its chunk and, in its metadata, the path relative to the root, the line, the
/// language, the type and the scope; its id is the digest of path, line and text.
pub proof fn law_records_hold_the_chunks(
    rel: Seq<char>,
    lang: Seq<char>,
    chunks: Seq<ChunkView>,
    i: int,
)
    requires
        0 <= i < chunks.len(),
    ensures
        records_of(rel, lang, chunks).len() == chunks.len(),
        ({
            let r = records_of(rel, lang, chunks)[i];
            let source = rel + ":"@ + text::decimal(chunks[i].0) + ":"@ + chunks[i].1;
            &&& r.id == digest::hex(digest::sha1_digest(encode_utf8(source)))
            &&& r.body == chunks[i].1
            &&& r.meta.path == rel
            &&& r.meta.line == chunks[i].0
            &&& r.meta.lang == lang
            &&& r.meta.node_type == chunks[i].2
            &&& r.meta.scope == chunks[i].3
        }),
{
    reveal_strlit(":");
    let c = chunks[i];
    assert(id_source(rel, c.0, c.1) =~= rel + ":"@ + text::decimal(c.0) + ":"@ + c.1);
}

/// The language of a file is what follows the last dot of its name, in lower case, or
/// the name itself where it has no dot but at its start or nothing follows.
pub proof fn law_lang_is_the_extension(path: Seq<char>, stem: Seq<char>, ext: Seq<char>)
    requires
        !ext.contains('.'),
    ensures
        stem.len() > 0 && ext.len() > 0 && paths::name_of(path) == Some(stem + seq!['.'] + ext)
            ==> lang_of(path) == text::lowercase(ext),
        stem.len() > 0 && paths::name_of(path) == Some(stem + seq!['.']) ==> lang_of(path) == stem
            + seq!['.'],
        paths::name_of(path) == Some(ext) ==> lang_of(path) == ext,
        paths::name_of(path) == Some(seq!['.'] + ext) ==> lang_of(path) == seq!['.'] + ext,
        paths::name_of(path) is None ==> lang_of(path).len() == 0,
{
    if stem.len() > 0 {
        let name = stem + seq!['.'] + ext;
        assert(name.skip(name.len() - ext.len()) =~= ext);
        paths::lemma_extension_is(name, ext);
        let bare = stem + seq!['.'];
        assert(bare.skip(bare.len() as int) =~= Seq::<char>::empty());
        paths::lemma_extension_is(bare, Seq::empty());
    }
    paths::lemma_extension(ext);
    let hidden = seq!['.'] + ext;
    paths::lemma_extension(hidden);
    match paths::extension_of(ext) {
        Some(e) => {
            assert(ext.contains(ext[ext.len() - e.len() - 1]));
        },
        None => {},
    }
    match paths::extension_of(hidden) {
        Some(e) => {
            let k = hidden.len() - e.len() - 1;
            assert(ext[k - 1] == hidden[k]);
            assert(ext.contains(ext[k - 1]));
        },
        None => {},
    }
}

/// The windows of a file are counted one by one.
pub proof fn law_windows_are_counted(chunks: Seq<ChunkView>)
    ensures
        window_count(chunks) == chunks.filter(|c: ChunkView| c.2 == "window"@).len(),
    decreases chunks.len(),
{
    reveal(Seq::filter);
    if chunks.len() > 0 {
        law_windows_are_counted(chunks.drop_last());
    }
}

/// A file is stored under its path below the root: the components that the path has
/// beyond those of the root. One that lies elsewhere is stored under its whole path.
pub proof fn law_stored_paths(path: Seq<char>, root: Seq<char>)
    ensures
        paths::components(root).is_prefix_of(paths::components(path)) && paths::components(root).len()
            > 0 ==> paths::components(path) == paths::components(root) + paths::body(
            relative_or_whole(path, root),
        ),
        !paths::components(root).is_prefix_of(paths::components(path)) ==> relative_or_whole(
            path,
            root,
        ) == path,
{
    paths::lemma_within(path, root);
    if paths::within(path, root) && paths::components(root).len() > 0 {
        paths::law_relative_components(path, root);
    }
}

} // verus!
