//! Helpers shared by the transcript sources.

use vstd::prelude::*;
use vstd::utf8::encode_utf8;
use crate::inventory::EntryType;
use crate::model::Modeled;
use crate::order::{
    kept_one, law_the_first_other_part_decides, lemma_rank_order, rank_before,
    sorted_unique_order, Ranked,
};
use crate::outside::{parse_rfc3339, rfc3339_millis, sha256, sha256_of};
use crate::path::{
    byte_parts, has_jsonl_extension, is_jsonl, last_name, lemma_one_segment,
    lemma_segment_behind, part_of, parts_from, parts_of, parts_rank, FilePath, Part, SLASH,
};
use crate::sorted::Key;
use crate::state::{PendingToolCall, ToolCallModel};
use crate::text::{characters, hex, hex_of};
use crate::walk::DiscoveredEntry;

verus! {

/// The name of the project that lives at a path: its last component, or the whole text where
/// that is no name.
pub open spec fn project_name(path: Seq<char>) -> Seq<char> {
    match last_name(parts_of(path, '/', '.')) {
        Some(name) => name,
        None => path,
    }
}

/// Whether the characters from `start` to `end` are a name, and not `.` or `..`.
fn is_name(units: &Vec<char>, start: usize, end: usize) -> (result: bool)
    requires
        start <= end <= units@.len(),
    ensures
        result ==> part_of(units@.subrange(start as int, end as int), '.', start == 0) == seq![
            Part::Normal(units@.subrange(start as int, end as int)),
        ],
        !result ==> part_of(units@.subrange(start as int, end as int), '.', start == 0).len() == 0
            || !(part_of(units@.subrange(start as int, end as int), '.', start == 0).last() is Normal),
{
    let ghost segment = units@.subrange(start as int, end as int);
    proof {
        assert(seq!['.'].len() == 1 && seq!['.'][0] == '.');
        assert(seq!['.', '.'].len() == 2 && seq!['.', '.'][0] == '.' && seq!['.', '.'][1] == '.');
    }
    if start == end {
        false
    } else if end - start == 1 && units[start] == '.' {
        assert(segment =~= seq!['.']);
        false
    } else if end - start == 2 && units[start] == '.' && units[start + 1] == '.' {
        assert(segment =~= seq!['.', '.']);
        false
    } else {
        assert(segment[0] == units@[start as int]);
        if end - start == 2 {
            assert(segment[1] == units@[start + 1]);
        }
        true
    }
}

/// Whether the characters from `start` to `end` stand for no component at all.
fn is_skipped(units: &Vec<char>, start: usize, end: usize) -> (result: bool)
    requires
        start <= end <= units@.len(),
    ensures
        result == (part_of(units@.subrange(start as int, end as int), '.', start == 0).len() == 0),
{
    let ghost segment = units@.subrange(start as int, end as int);
    proof {
        assert(seq!['.'].len() == 1 && seq!['.'][0] == '.');
        assert(seq!['.', '.'].len() == 2);
    }
    if start == end {
        true
    } else if end - start == 1 && units[start] == '.' {
        assert(segment =~= seq!['.']);
        start != 0
    } else {
        assert(segment[0] == units@[start as int]);
        false
    }
}

/// The name of the project that lives at `path`.
pub fn project_from_path(path: &str) -> (project: String)
    ensures
        project@ == project_name(path@),
{
    let units = characters(path);
    let ghost whole = parts_of(units@, '/', '.');
    let ghost mut seen: Seq<Part<char>> = if units@.len() > 0 && units@[0] == '/' {
        seq![Part::Root]
    } else {
        Seq::empty()
    };
    let mut name: Option<(usize, usize)> = None;
    let mut start: usize = 0;
    let mut i: usize = 0;
    loop
        invariant_except_break
            start <= i <= units@.len(),
            whole == seen + parts_from(units@, '/', '.', start as int, i as int),
            match name {
                Some((from, to)) => from <= to <= units@.len() && last_name(seen) == Some(
                    units@.subrange(from as int, to as int),
                ),
                None => last_name(seen) is None,
            },
        invariant
            units@ == path@,
            whole == parts_of(units@, '/', '.'),
        ensures
            match name {
                Some((from, to)) => from <= to <= units@.len() && last_name(whole) == Some(
                    units@.subrange(from as int, to as int),
                ),
                None => last_name(whole) is None,
            },
        decreases units@.len() - i,
    {
        if i == units.len() || units[i] == '/' {
            let ghost part = part_of(units@.subrange(start as int, i as int), '.', start == 0);
            let ghost before = seen;
            if is_name(&units, start, i) {
                name = Some((start, i));
            } else if !is_skipped(&units, start, i) {
                name = None;
            }
            proof {
                seen = before + part;
                if part.len() == 0 {
                    assert(seen =~= before);
                } else {
                    assert(seen.last() == part.last());
                }
            }
            if i == units.len() {
                break;
            }
            proof {
                assert(whole =~= seen + parts_from(units@, '/', '.', i + 1, i + 1));
            }
            i += 1;
            start = i;
        } else {
            i += 1;
        }
    }
    match name {
        Some((from, to)) => String::from_str(path.substring_char(from, to)),
        None => String::from_str(path),
    }
}

/// The home directory, or the root directory where there is none.
pub fn home_or_root(found: Option<FilePath>) -> (home: FilePath)
    ensures
        home.spelling() == (match found {
            Some(path) => path.spelling(),
            None => seq![SLASH],
        }),
{
    match found {
        Some(path) => path,
        None => {
            let mut root: Vec<u8> = Vec::new();
            root.push(SLASH);
            assert(root@ =~= seq![SLASH]);
            FilePath::new(root)
        },
    }
}

/// A number of milliseconds, or zero where it lies before the epoch.
pub open spec fn not_before_epoch(millis: i64) -> u64 {
    if millis < 0 {
        0
    } else {
        millis as u64
    }
}

/// A number of milliseconds, or zero where it lies before the epoch.
pub fn clamp_to_epoch(millis: i64) -> (clamped: u64)
    ensures
        clamped == not_before_epoch(millis),
{
    if millis < 0 {
        0
    } else {
        millis as u64
    }
}

/// The milliseconds that an RFC 3339 text stands for, but no time before the epoch.
pub open spec fn iso_millis(input: Seq<char>) -> Option<u64> {
    match rfc3339_millis(input) {
        Some(millis) => Some(not_before_epoch(millis)),
        None => None,
    }
}

/// The milliseconds since the epoch of an RFC 3339 text.
pub fn parse_iso_millis(input: &str) -> (millis: Option<u64>)
    ensures
        millis == iso_millis(input@),
{
    match parse_rfc3339(input) {
        Some(millis) => Some(clamp_to_epoch(millis)),
        None => None,
    }
}

/// A JSON value as far as a timestamp can be read from it. A number that is neither unsigned
/// nor signed, such as a fraction, counts among the others.
pub enum Scalar {
    Unsigned(u64),
    Signed(i64),
    Text(String),
    Other,
}

/// The milliseconds since the epoch that a value stands for.
pub open spec fn scalar_millis(value: Scalar) -> u64 {
    match value {
        Scalar::Unsigned(number) => number,
        Scalar::Signed(number) => not_before_epoch(number),
        Scalar::Text(text) => match iso_millis(text@) {
            Some(millis) => millis,
            None => 0,
        },
        Scalar::Other => 0,
    }
}

/// The milliseconds since the epoch that a JSON value stands for, or zero.
pub fn timestamp_millis(value: &Scalar) -> (millis: u64)
    ensures
        millis == scalar_millis(*value),
        millis == (match value {
            Scalar::Unsigned(number) => *number,
            Scalar::Signed(number) => not_before_epoch(*number),
            Scalar::Text(text) => match iso_millis(text@) {
                Some(millis) => millis,
                None => 0,
            },
            Scalar::Other => 0,
        }),
{
    match value {
        Scalar::Unsigned(number) => *number,
        Scalar::Signed(number) => clamp_to_epoch(*number),
        Scalar::Text(text) => match parse_iso_millis(text.as_str()) {
            Some(millis) => millis,
            None => 0,
        },
        Scalar::Other => 0,
    }
}

/// The entry is a file whose extension is `jsonl`.
pub open spec fn is_transcript(entry: (Seq<u8>, usize, EntryType)) -> bool {
    entry.2 == EntryType::File && (last_name(byte_parts(entry.0)) matches Some(name)
        && has_jsonl_extension(name))
}

/// The paths of the transcripts among the first `n` entries.
pub open spec fn transcripts_upto(
    entries: Seq<(Seq<u8>, usize, EntryType)>,
    n: int,
) -> Seq<Seq<u8>>
    decreases n,
{
    if n <= 0 {
        Seq::empty()
    } else if is_transcript(entries[n - 1]) {
        transcripts_upto(entries, n - 1).push(entries[n - 1].0)
    } else {
        transcripts_upto(entries, n - 1)
    }
}

/// The path at position `p` is the first one with its components.
pub open spec fn is_first(paths: Seq<Seq<u8>>, p: int) -> bool {
    forall|q: int| 0 <= q < p ==> byte_parts(#[trigger] paths[q]) != byte_parts(paths[p])
}

/// Some path is spelled like this, and is the first one with its components.
pub open spec fn occurs_first(paths: Seq<Seq<u8>>, file: Seq<u8>) -> bool {
    exists|p: int| 0 <= p < paths.len() && #[trigger] paths[p] == file && is_first(paths, p)
}

/// Some file has the components of the path.
pub open spec fn is_listed(files: Seq<Seq<u8>>, path: Seq<u8>) -> bool {
    exists|x: int| 0 <= x < files.len() && byte_parts(#[trigger] files[x]) == byte_parts(path)
}

/// `files` lists the paths in the order of their components, and of those with the same
/// components the first one.
pub open spec fn sorted_paths(paths: Seq<Seq<u8>>, files: Seq<Seq<u8>>) -> bool {
    &&& forall|x: int, y: int|
        #![trigger files[x], files[y]]
        0 <= x < y < files.len() ==> rank_before(
            parts_rank(byte_parts(files[x])),
            parts_rank(byte_parts(files[y])),
        )
    &&& forall|x: int| 0 <= x < files.len() ==> occurs_first(paths, #[trigger] files[x])
    &&& forall|p: int| 0 <= p < paths.len() ==> is_listed(files, #[trigger] paths[p])
}

/// The spellings of paths.
pub open spec fn path_spellings(paths: Seq<FilePath>) -> Seq<Seq<u8>> {
    paths.map_values(|path: FilePath| path.spelling())
}

/// The transcripts among the entries, sorted, each once.
pub fn jsonl_files(entries: &Vec<DiscoveredEntry>) -> (files: Vec<FilePath>)
    ensures
        sorted_paths(
            transcripts_upto(entries.deep_view(), entries@.len() as int),
            path_spellings(files@),
        ),
{
    let ghost models = entries.deep_view();
    let mut found: Vec<FilePath> = Vec::new();
    let mut i: usize = 0;
    assert(path_spellings(found@) =~= Seq::empty());
    while i < entries.len()
        invariant
            i <= entries@.len(),
            models == entries.deep_view(),
            path_spellings(found@) == transcripts_upto(models, i as int),
        decreases entries@.len() - i,
    {
        let entry = &entries[i];
        let ghost before = found@;
        assert(models[i as int] == entry.deep_view());
        if entry.file_type == EntryType::File && is_jsonl(&entry.path) {
            found.push(entry.path.copy());
            assert(path_spellings(found@) =~= path_spellings(before).push(entry.path.spelling()));
        }
        i += 1;
    }
    let kept = sorted_unique_order(&found);
    let mut files: Vec<FilePath> = Vec::new();
    let mut k: usize = 0;
    while k < kept.len()
        invariant
            k <= kept@.len(),
            files@.len() == k,
            forall|x: int| 0 <= x < kept@.len() ==> 0 <= #[trigger] kept@[x] < found@.len(),
            forall|x: int|
                0 <= x < k ==> #[trigger] files@[x].spelling()
                    == found@[kept@[x] as int].spelling(),
        decreases kept@.len() - k,
    {
        assert(0 <= kept@[k as int] < found@.len());
        files.push(found[kept[k]].copy());
        k += 1;
    }
    proof {
        let paths = path_spellings(found@);
        let chosen = path_spellings(files@);
        assert forall|x: int, y: int|
            #![trigger chosen[x], chosen[y]]
            0 <= x < y < chosen.len() implies rank_before(
            parts_rank(byte_parts(chosen[x])),
            parts_rank(byte_parts(chosen[y])),
        ) by {
            assert(files@[x].spelling() == found@[kept@[x] as int].spelling());
            assert(files@[y].spelling() == found@[kept@[y] as int].spelling());
        }
        assert forall|x: int| 0 <= x < chosen.len() implies occurs_first(
            paths,
            #[trigger] chosen[x],
        ) by {
            let p = kept@[x] as int;
            assert(files@[x].spelling() == found@[p].spelling());
            assert(paths[p] == chosen[x]);
            assert forall|q: int| 0 <= q < p implies byte_parts(#[trigger] paths[q])
                != byte_parts(paths[p]) by {
                if byte_parts(paths[q]) == byte_parts(paths[p]) {
                    assert(kept_one(found@, q, kept@));
                    let z = choose|z: int|
                        0 <= z < kept@.len() && #[trigger] kept@[z] <= q
                            && found@[kept@[z] as int].rank() == found@[q].rank();
                    assert(found@[q].rank() == found@[p].rank());
                    lemma_rank_order(
                        found@[p].rank(),
                        found@[p].rank(),
                        found@[p].rank(),
                    );
                    assert(z != x && kept@[x] == p);
                }
            }
        }
        assert forall|p: int| 0 <= p < paths.len() implies is_listed(
            chosen,
            #[trigger] paths[p],
        ) by {
            assert(kept_one(found@, p, kept@));
            let x = choose|x: int|
                0 <= x < kept@.len() && #[trigger] kept@[x] <= p && found@[kept@[x] as int].rank()
                    == found@[p].rank();
            assert(files@[x].spelling() == found@[kept@[x] as int].spelling());
            FilePath::lemma_injective(found@[kept@[x] as int].deep_view(), found@[p].deep_view());
            assert(byte_parts(chosen[x]) == byte_parts(paths[p]));
        }
    }
    files
}

/// How a record is tied to others.
pub struct RecordLinks {
    pub parent_event_id: Option<String>,
    pub source_tool_use_id: Option<String>,
    pub source_tool_assistant_uuid: Option<String>,
}

/// The call of a tool whose result was not seen yet. Its arguments are kept as their digest and
/// their length in bytes.
pub fn pending_tool_call(
    tool_name: Option<String>,
    event_id: Option<String>,
    doc_id: u64,
    timestamp: u64,
    arguments: Option<&str>,
    links: &RecordLinks,
    session_id: &str,
) -> (call: PendingToolCall)
    ensures
        call.deep_view() == (ToolCallModel {
            tool_name: tool_name.deep_view(),
            tool_use_event_id: event_id.deep_view(),
            tool_use_doc_id: Some(doc_id),
            timestamp,
            argument_sha256: match arguments {
                Some(text) => Some(hex_of(sha256_of(encode_utf8(text@)))),
                None => None,
            },
            argument_bytes: match arguments {
                Some(text) => Some(encode_utf8(text@).len() as u64),
                None => None,
            },
            parent_event_id: links.parent_event_id.deep_view(),
            session_id: Some(session_id@),
            source_tool_use_id: links.source_tool_use_id.deep_view(),
            source_tool_assistant_uuid: links.source_tool_assistant_uuid.deep_view(),
        }),
{
    let (argument_sha256, argument_bytes) = match arguments {
        Some(text) => {
            let bytes = text.as_bytes();
            (Some(hex(sha256(bytes).as_slice())), Some(bytes.len() as u64))
        },
        None => (None, None),
    };
    PendingToolCall {
        tool_name,
        tool_use_event_id: event_id,
        tool_use_doc_id: Some(doc_id),
        timestamp,
        argument_sha256,
        argument_bytes,
        parent_event_id: links.parent_event_id.duplicate(),
        session_id: Some(String::from_str(session_id)),
        source_tool_use_id: links.source_tool_use_id.duplicate(),
        source_tool_assistant_uuid: links.source_tool_assistant_uuid.duplicate(),
    }
}

/// The project of a path is the name behind its last slash, whatever stands before, and a name
/// alone is its own project. Slashes behind a name make no difference.
pub proof fn law_projects_are_named_after_their_directory(path: Seq<char>, name: Seq<char>)
    requires
        name.len() > 0,
        name != seq!['.'],
        name != seq!['.', '.'],
        forall|i: int| 0 <= i < name.len() ==> name[i] != '/',
    ensures
        project_name(name) == name,
        path.len() > 0 ==> project_name(path.push('/') + name) == name,
        project_name(name.push('/')) == name,
        path.len() > 0 ==> project_name((path.push('/') + name).push('/')) == name,
{
    lemma_one_segment(name, '/', '.', 0, 0);
    assert(name.subrange(0, name.len() as int) =~= name);
    assert(name[0] != '/');
    let alone = parts_of(name, '/', '.');
    assert(alone =~= seq![Part::Normal(name)]);
    let empty = Seq::<char>::empty();
    lemma_segment_behind(name, empty, '/', '.', 0, 0);
    assert(name.push('/') + empty =~= name.push('/'));
    assert(name.push('/')[0] == name[0]);
    assert(parts_of(name.push('/'), '/', '.') =~= alone);
    if path.len() > 0 {
        let longer = path.push('/') + name;
        lemma_segment_behind(path, name, '/', '.', 0, 0);
        assert(longer[0] == path[0]);
        let parts = parts_of(longer, '/', '.');
        assert(parts =~= parts_of(path, '/', '.') + seq![Part::Normal(name)]);
        assert(parts.last() == Part::Normal(name));
        lemma_segment_behind(longer, empty, '/', '.', 0, 0);
        assert(longer.push('/') + empty =~= longer.push('/'));
        assert(longer.push('/')[0] == longer[0]);
        assert(parts_of(longer.push('/'), '/', '.') =~= parts);
    }
}

/// Times before the epoch count as the epoch, and any other as it is. A value that stands for no
/// time counts as the epoch too.
pub proof fn law_times_are_not_before_the_epoch(millis: i64, text: Seq<char>, value: Scalar)
    ensures
        millis >= 0 ==> not_before_epoch(millis) == millis,
        millis < 0 ==> not_before_epoch(millis) == 0,
        iso_millis(text) is Some == rfc3339_millis(text) is Some,
        rfc3339_millis(text) is Some && rfc3339_millis(text).unwrap() >= 0 ==> iso_millis(text)
            == Some(rfc3339_millis(text).unwrap() as u64),
        rfc3339_millis(text) is Some && rfc3339_millis(text).unwrap() < 0 ==> iso_millis(text)
            == Some(0u64),
        value matches Scalar::Unsigned(number) ==> scalar_millis(value) == number,
        value matches Scalar::Signed(number) ==> (number >= 0 ==> scalar_millis(value) == number)
            && (number < 0 ==> scalar_millis(value) == 0),
        value matches Scalar::Text(found) ==> (iso_millis(found@) is Some ==> scalar_millis(value)
            == iso_millis(found@).unwrap()) && (iso_millis(found@) is None ==> scalar_millis(value)
            == 0),
        value is Other ==> scalar_millis(value) == 0,
{
}

proof fn lemma_transcripts(entries: Seq<(Seq<u8>, usize, EntryType)>, n: int, i: int)
    requires
        0 <= n <= entries.len(),
        0 <= i < n,
        is_transcript(entries[i]),
    ensures
        transcripts_upto(entries, n).contains(entries[i].0),
    decreases n,
{
    if i < n - 1 {
        lemma_transcripts(entries, n - 1, i);
        let rest = transcripts_upto(entries, n - 1);
        let k = choose|k: int| 0 <= k < rest.len() && rest[k] == entries[i].0;
        assert(transcripts_upto(entries, n)[k] == entries[i].0);
    } else {
        let rest = transcripts_upto(entries, n - 1);
        assert(transcripts_upto(entries, n)[rest.len() as int] == entries[i].0);
    }
}

proof fn lemma_transcripts_are_entries(
    entries: Seq<(Seq<u8>, usize, EntryType)>,
    n: int,
    k: int,
) -> (i: int)
    requires
        0 <= n <= entries.len(),
        0 <= k < transcripts_upto(entries, n).len(),
    ensures
        0 <= i < n,
        is_transcript(entries[i]),
        entries[i].0 == transcripts_upto(entries, n)[k],
    decreases n,
{
    let rest = transcripts_upto(entries, n - 1);
    if is_transcript(entries[n - 1]) && k == rest.len() {
        n - 1
    } else {
        lemma_transcripts_are_entries(entries, n - 1, k)
    }
}

/// Every regular file whose name has the extension of transcripts is found, and nothing else is:
/// each path once, part by part in order.
pub proof fn law_every_transcript_is_found(
    entries: Seq<(Seq<u8>, usize, EntryType)>,
    files: Seq<Seq<u8>>,
    i: int,
    name: Seq<u8>,
    x: int,
    y: int,
)
    requires
        sorted_paths(transcripts_upto(entries, entries.len() as int), files),
    ensures
        0 <= i < entries.len() && entries[i].2 == EntryType::File && last_name(
            byte_parts(entries[i].0),
        ) == Some(name) && has_jsonl_extension(name) ==> exists|k: int|
            0 <= k < files.len() && byte_parts(#[trigger] files[k]) == byte_parts(entries[i].0),
        0 <= x < files.len() ==> exists|k: int|
            0 <= k < entries.len() && (#[trigger] entries[k]).0 == files[x] && entries[k].2
                == EntryType::File && last_name(byte_parts(files[x])) is Some
                && has_jsonl_extension(last_name(byte_parts(files[x])).unwrap()),
        0 <= x < y < files.len() ==> byte_parts(files[x]) != byte_parts(files[y]) && rank_before(
            parts_rank(byte_parts(files[x])),
            parts_rank(byte_parts(files[y])),
        ),
{
    let paths = transcripts_upto(entries, entries.len() as int);
    if 0 <= i < entries.len() && is_transcript(entries[i]) {
        lemma_transcripts(entries, entries.len() as int, i);
        let p = choose|p: int| 0 <= p < paths.len() && paths[p] == entries[i].0;
        assert(is_listed(files, paths[p]));
    }
    if 0 <= x < files.len() {
        assert(occurs_first(paths, files[x]));
        let p = choose|p: int|
            0 <= p < paths.len() && #[trigger] paths[p] == files[x] && is_first(paths, p);
        let k = lemma_transcripts_are_entries(entries, entries.len() as int, p);
        assert(entries[k].0 == files[x]);
    }
    if 0 <= x < y < files.len() {
        let a = parts_rank(byte_parts(files[x]));
        assert(rank_before(a, parts_rank(byte_parts(files[y]))));
        law_the_first_other_part_decides(a, a, a.len() as int);
    }
}

/// Of the paths with the same components the first one is listed, as it is spelled, and no other.
pub proof fn law_the_first_spelling_is_listed(paths: Seq<Seq<u8>>, files: Seq<Seq<u8>>, p: int, x: int)
    requires
        sorted_paths(paths, files),
        0 <= p < paths.len(),
        0 <= x < files.len(),
    ensures
        (forall|q: int| 0 <= q < p ==> byte_parts(#[trigger] paths[q]) != byte_parts(paths[p]))
            ==> files.contains(paths[p]),
        byte_parts(files[x]) == byte_parts(paths[p]) ==> exists|q: int|
            0 <= q <= p && #[trigger] paths[q] == files[x],
{
    if forall|q: int| 0 <= q < p ==> byte_parts(#[trigger] paths[q]) != byte_parts(paths[p]) {
        assert(is_listed(files, paths[p]));
        let y = choose|y: int|
            0 <= y < files.len() && byte_parts(#[trigger] files[y]) == byte_parts(paths[p]);
        assert(occurs_first(paths, files[y]));
        let q = choose|q: int|
            0 <= q < paths.len() && #[trigger] paths[q] == files[y] && is_first(paths, q);
        assert(!(p < q));
        assert(q == p);
        assert(files[y] == paths[p]);
    }
    assert(occurs_first(paths, files[x]));
}

} // verus!
