//! The `edit` tool: exact (then whitespace- and typography-tolerant) replacement of unique,
//! non-overlapping blocks, preserving the file's byte order mark and line endings.

use crate::json;
use crate::json::{no_fields, no_items, parse, put, put_item, sealed, Json};
use crate::strings;
use crate::strings::{number, text_from_utf8};
use crate::tools;
use crate::tools::edits;
use crate::tools::edits::apply_edits;
use crate::tools::errors;
use crate::tools::errors::{code, OsError};
use crate::tools::path;
use crate::tools::path::resolve;
use crate::tools::text;
use crate::tools::text::{detect_line_ending, normalize_to_lf, restore_line_endings, split_bom};
use crate::tools::{property, schema, ToolInfo, ToolOutput};
use vstd::prelude::*;

verus! {

pub struct Edit;

pub open spec fn about() -> Seq<char> {
    "Edit a single file using exact text replacement. Every edits[].oldText must match a unique, non-overlapping region of the original file. If two changes affect the same block or nearby lines, merge them into one edit instead of emitting overlapping edits. Do not include large unchanged regions just to connect distant changes."@
}

/// The schema of one replacement.
pub open spec fn item_schema() -> json::JsonView {
    tools::schema_of(
        seq![
            (
                "oldText"@,
                tools::property_of(
                    "string"@,
                    "Exact text for one targeted replacement. It must be unique in the original file and must not overlap with any other edits[].oldText in the same call."@,
                ),
            ),
            ("newText"@, tools::property_of("string"@, "Replacement text for this targeted edit."@)),
        ],
        seq![json::JsonView::Text("oldText"@), json::JsonView::Text("newText"@)],
    )
}

pub open spec fn list_schema() -> json::JsonView {
    json::JsonView::Object(
        seq![
            ("type"@, json::JsonView::Text("array"@)),
            (
                "description"@,
                json::JsonView::Text(
                    "One or more targeted replacements. Each edit is matched against the original file, not incrementally. Do not include overlapping or nested edits. If two changes touch the same block or nearby lines, merge them into one edit instead."@,
                ),
            ),
            ("items"@, item_schema()),
        ],
    )
}

pub open spec fn parameters_of() -> json::JsonView {
    tools::schema_of(
        seq![
            ("path"@, tools::property_of("string"@, "Path to the file to edit (relative or absolute)"@)),
            ("edits"@, list_schema()),
        ],
        seq![json::JsonView::Text("path"@), json::JsonView::Text("edits"@)],
    )
}

pub open spec fn info_of() -> tools::InfoView {
    tools::InfoView {
        name: "edit"@,
        description: about(),
        parameters: parameters_of(),
        snippet: "Make precise file edits with exact text replacement, including multiple disjoint edits in one call"@,
        guidelines: seq![
            "Use edit for precise changes (edits[].oldText must match exactly)"@,
            "When changing multiple separate locations in one file, use one edit call with multiple entries in edits[] instead of multiple edit calls"@,
            "Each edits[].oldText is matched against the original file, not after earlier edits are applied. Do not emit overlapping or nested edits. Merge nearby changes into one edit."@,
            "Keep edits[].oldText as small as possible while still being unique in the file. Do not pad with large unchanged regions."@,
        ],
    }
}

impl Edit {
    pub fn name(&self) -> (name: &'static str)
        ensures
            name@ == info_of().name,
    {
        "edit"
    }

    pub fn description(&self) -> (description: String)
        ensures
            description@ == info_of().description,
    {
        "Edit a single file using exact text replacement. Every edits[].oldText must match a unique, non-overlapping region of the original file. If two changes affect the same block or nearby lines, merge them into one edit instead of emitting overlapping edits. Do not include large unchanged regions just to connect distant changes.".to_owned()
    }

    fn item_parameters(&self) -> (parameters: Json)
        ensures
            parameters@ == item_schema(),
    {
        let mut properties = no_fields();
        put(
            &mut properties,
            "oldText",
            property(
                "string",
                "Exact text for one targeted replacement. It must be unique in the original file and must not overlap with any other edits[].oldText in the same call.",
            ),
        );
        put(
            &mut properties,
            "newText",
            property("string", "Replacement text for this targeted edit."),
        );
        let mut required = no_items();
        put_item(&mut required, json::text("oldText"));
        put_item(&mut required, json::text("newText"));
        proof {
            let wanted = item_schema()->Object_0;
            assert(json::field_views(properties@) =~= wanted[1].1->Object_0);
            assert(json::views(required@) =~= wanted[2].1->List_0);
        }
        schema(properties, required)
    }

    pub fn parameters(&self) -> (parameters: Json)
        ensures
            parameters@ == info_of().parameters,
    {
        let mut list = no_fields();
        put(&mut list, "type", json::text("array"));
        put(
            &mut list,
            "description",
            json::text(
                "One or more targeted replacements. Each edit is matched against the original file, not incrementally. Do not include overlapping or nested edits. If two changes touch the same block or nearby lines, merge them into one edit instead.",
            ),
        );
        put(&mut list, "items", self.item_parameters());
        assert(json::field_views(list@) =~= list_schema()->Object_0);
        let mut properties = no_fields();
        put(
            &mut properties,
            "path",
            property("string", "Path to the file to edit (relative or absolute)"),
        );
        put(&mut properties, "edits", sealed(list));
        let mut required = no_items();
        put_item(&mut required, json::text("path"));
        put_item(&mut required, json::text("edits"));
        proof {
            let wanted = parameters_of()->Object_0;
            assert(json::field_views(properties@) =~= wanted[1].1->Object_0);
            assert(json::views(required@) =~= wanted[2].1->List_0);
        }
        schema(properties, required)
    }

    pub fn snippet(&self) -> (snippet: &'static str)
        ensures
            snippet@ == info_of().snippet,
    {
        "Make precise file edits with exact text replacement, including multiple disjoint edits in one call"
    }

    pub fn guidelines(&self) -> (guidelines: Vec<String>)
        ensures
            strings::texts(guidelines@) == info_of().guidelines,
    {
        let guidelines: Vec<String> = vec![
            "Use edit for precise changes (edits[].oldText must match exactly)".to_owned(),
            "When changing multiple separate locations in one file, use one edit call with multiple entries in edits[] instead of multiple edit calls".to_owned(),
            "Each edits[].oldText is matched against the original file, not after earlier edits are applied. Do not emit overlapping or nested edits. Merge nearby changes into one edit.".to_owned(),
            "Keep edits[].oldText as small as possible while still being unique in the file. Do not pad with large unchanged regions.".to_owned(),
        ];
        assert(strings::texts(guidelines@) =~= info_of().guidelines);
        guidelines
    }

    pub fn info(&self) -> (info: ToolInfo)
        ensures
            info@ == info_of(),
    {
        ToolInfo {
            name: self.name().to_owned(),
            description: self.description(),
            parameters: self.parameters(),
            snippet: self.snippet().to_owned(),
            guidelines: self.guidelines(),
        }
    }
}

// ---- What a call asks for ----

/// The old and the new text of an edit.
pub open spec fn pair(edit: edits::Edit) -> (Seq<char>, Seq<char>) {
    (edit.old_text@, edit.new_text@)
}

pub open spec fn pairs(edits: Seq<edits::Edit>) -> Seq<(Seq<char>, Seq<char>)> {
    edits.map_values(|edit: edits::Edit| pair(edit))
}

/// One replacement, where a value holds both its texts.
pub open spec fn single_of(value: json::JsonView) -> Option<(Seq<char>, Seq<char>)> {
    match (tools::wanted_text(value, "oldText"@), tools::wanted_text(value, "newText"@)) {
        (Some(old), Some(new)) => Some((old, new)),
        _ => None,
    }
}

/// A replacement is an old text and a new text, each under its own name.
pub proof fn law_a_replacement_names_both_texts(
    value: json::JsonView,
    old: Seq<char>,
    new: Seq<char>,
)
    ensures
        single_of(value) == Some((old, new)) <==> value.get("oldText"@) == Some(
            json::JsonView::Text(old),
        ) && value.get("newText"@) == Some(json::JsonView::Text(new)),
{
}

/// The replacements of a list, where all its items are some.
pub open spec fn all_of(items: Seq<json::JsonView>) -> Option<Seq<(Seq<char>, Seq<char>)>>
    decreases items.len(),
{
    if items.len() == 0 {
        Some(Seq::empty())
    } else {
        match (all_of(items.drop_last()), single_of(items.last())) {
            (Some(before), Some(one)) => Some(before.push(one)),
            _ => None,
        }
    }
}

pub open spec fn at_most_one(value: json::JsonView) -> Seq<(Seq<char>, Seq<char>)> {
    match single_of(value) {
        Some(one) => seq![one],
        None => Seq::empty(),
    }
}

/// The replacements that a value of `edits` holds: a list of them, or one.
pub open spec fn held(value: json::JsonView) -> Option<Seq<(Seq<char>, Seq<char>)>> {
    match value {
        json::JsonView::List(items) => all_of(items),
        _ => Some(at_most_one(value)),
    }
}

/// The replacements in `edits`, which models send as a list, as one object, or as either of
/// them in a JSON text; `inner` is what that text holds. None where an item of a list is no
/// replacement.
pub open spec fn listed(
    edits: Option<json::JsonView>,
    inner: Result<json::JsonView, Seq<char>>,
) -> Option<Seq<(Seq<char>, Seq<char>)>> {
    match edits {
        Some(json::JsonView::Text(_)) => match inner {
            Ok(value) => held(value),
            Err(_) => Some(Seq::empty()),
        },
        Some(value) => held(value),
        None => Some(Seq::empty()),
    }
}

/// What the text in `edits` holds as JSON.
pub open spec fn inner_of(args: json::JsonView) -> Result<json::JsonView, Seq<char>> {
    json::parsed(args.at("edits"@).text_or_empty())
}

/// Every replacement of a call: those in `edits`, then one at the top level.
pub open spec fn requested(
    args: json::JsonView,
    inner: Result<json::JsonView, Seq<char>>,
) -> Option<Seq<(Seq<char>, Seq<char>)>> {
    match listed(args.get("edits"@), inner) {
        Some(before) => if before.len() == 0 && single_of(args) is None {
            None
        } else {
            Some(before + at_most_one(args))
        },
        None => None,
    }
}

/// Every replacement that a call lists is made, in order, and then the one beside the list; a list
/// with an item that is none, and a call with no replacement at all, are refused.
pub proof fn law_every_listed_replacement_is_made(
    args: json::JsonView,
    inner: Result<json::JsonView, Seq<char>>,
    items: Seq<json::JsonView>,
)
    requires
        args.get("edits"@) == Some(json::JsonView::List(items)),
    ensures
        (exists|i: int| 0 <= i < items.len() && single_of(#[trigger] items[i]) is None)
            ==> requested(args, inner) is None,
        (forall|i: int| #![trigger items[i]] 0 <= i < items.len() ==> single_of(items[i]) is Some)
            && items.len() > 0 ==> {
            let wanted = requested(args, inner)->0;
            &&& requested(args, inner) is Some
            &&& wanted.len() == items.len() + if single_of(args) is Some {
                1int
            } else {
                0int
            }
            &&& forall|i: int| #![trigger items[i]]
                0 <= i < items.len() ==> wanted[i] == single_of(items[i])->0
            &&& single_of(args) is Some ==> wanted.last() == single_of(args)->0
        },
        items.len() == 0 && single_of(args) is None ==> requested(args, inner) is None,
{
    lemma_all_listed(items);
}

proof fn lemma_all_listed(items: Seq<json::JsonView>)
    ensures
        all_of(items) is Some <==> forall|i: int| #![trigger items[i]]
            0 <= i < items.len() ==> single_of(items[i]) is Some,
        all_of(items) matches Some(all) ==> all.len() == items.len() && forall|i: int|
            #![trigger items[i]]
            0 <= i < items.len() ==> all[i] == single_of(items[i])->0,
    decreases items.len(),
{
    if items.len() > 0 {
        let rest = items.drop_last();
        lemma_all_listed(rest);
        assert(items.last() == items[items.len() - 1]);
        assert(forall|i: int| #![trigger rest[i]] 0 <= i < rest.len() ==> rest[i] == items[i]);
        assert(forall|i: int| #![trigger items[i]] 0 <= i < rest.len() ==> rest[i] == items[i]);
        if all_of(items) is Some {
            let all = all_of(items)->0;
            let before = all_of(rest)->0;
            assert forall|i: int| #![trigger items[i]] 0 <= i < items.len() implies all[i]
                == single_of(items[i])->0 by {
                if i < rest.len() {
                    assert(rest[i] == items[i]);
                    assert(all[i] == before[i]);
                }
            }
        }
    }
}

/// A list that comes as one replacement, or as a text that holds a list or a replacement, asks for
/// the same.
pub proof fn law_replacements_come_in_several_shapes(
    args: json::JsonView,
    inner: json::JsonView,
    text: Seq<char>,
)
    ensures
        args.get("edits"@) == Some(json::JsonView::Text(text)) ==> listed(
            args.get("edits"@),
            Ok(inner),
        ) == held(inner),
        single_of(inner) is Some && args.get("edits"@) == Some(inner) ==> requested(
            args,
            Err(Seq::empty()),
        ) is Some && requested(args, Err(Seq::empty()))->0[0] == single_of(inner)->0,
        args.get("edits"@) is None ==> requested(args, Ok(inner)) == (match single_of(args) {
            Some(one) => Some(seq![one]),
            None => None,
        }),
{
    match single_of(args) {
        Some(one) => {
            assert(Seq::<(Seq<char>, Seq<char>)>::empty() + seq![one] =~= seq![one]);
        },
        None => {},
    }
}

pub open spec fn invalid_error() -> Seq<char> {
    "Edit tool input is invalid. edits must contain at least one replacement."@
}

fn single(value: &Json) -> (edit: Option<edits::Edit>)
    ensures
        match edit {
            Some(edit) => single_of(value@) == Some(pair(edit)),
            None => single_of(value@) is None,
        },
{
    let old_text = match value.get("oldText") {
        Some(text) => match text.as_str() {
            Some(text) => text.to_owned(),
            None => {
                return None;
            },
        },
        None => {
            return None;
        },
    };
    let new_text = match value.get("newText") {
        Some(text) => match text.as_str() {
            Some(text) => text.to_owned(),
            None => {
                return None;
            },
        },
        None => {
            return None;
        },
    };
    Some(edits::Edit { old_text, new_text })
}

proof fn lemma_all_of_none(items: Seq<json::JsonView>, upto: int)
    requires
        0 <= upto <= items.len(),
        all_of(items.take(upto)) is None,
    ensures
        all_of(items) is None,
    decreases items.len() - upto,
{
    if upto < items.len() {
        assert(items.take(upto + 1).drop_last() =~= items.take(upto));
        lemma_all_of_none(items, upto + 1);
    } else {
        assert(items.take(upto) =~= items);
    }
}

fn every(items: &Vec<Json>) -> (edits: Option<Vec<edits::Edit>>)
    ensures
        match edits {
            Some(edits) => all_of(json::views(items@)) == Some(pairs(edits@)),
            None => all_of(json::views(items@)) is None,
        },
{
    let ghost all = json::views(items@);
    let mut edits: Vec<edits::Edit> = Vec::new();
    let mut at: usize = 0;
    assert(all.take(0) =~= Seq::<json::JsonView>::empty());
    assert(pairs(edits@) =~= Seq::<(Seq<char>, Seq<char>)>::empty());
    while at < items.len()
        invariant
            at <= items@.len(),
            all == json::views(items@),
            all_of(all.take(at as int)) == Some(pairs(edits@)),
        decreases items@.len() - at,
    {
        let ghost now = all.take(at + 1);
        let ghost before = edits@;
        assert(now.drop_last() =~= all.take(at as int));
        assert(now.last() == items@[at as int]@);
        match single(&items[at]) {
            Some(edit) => {
                edits.push(edit);
                assert(pairs(edits@) =~= pairs(before).push(pair(edit)));
            },
            None => {
                proof {
                    lemma_all_of_none(all, at + 1);
                }
                return None;
            },
        }
        at += 1;
    }
    assert(all.take(at as int) =~= all);
    Some(edits)
}

fn one_or_none(value: &Json) -> (edits: Vec<edits::Edit>)
    ensures
        pairs(edits@) == at_most_one(value@),
{
    let mut edits: Vec<edits::Edit> = Vec::new();
    assert(pairs(edits@) =~= Seq::<(Seq<char>, Seq<char>)>::empty());
    match single(value) {
        Some(edit) => {
            edits.push(edit);
            assert(pairs(edits@) =~= seq![pair(edit)]);
        },
        None => {},
    }
    edits
}

fn held_in(value: &Json) -> (edits: Option<Vec<edits::Edit>>)
    ensures
        match edits {
            Some(edits) => held(value@) == Some(pairs(edits@)),
            None => held(value@) is None,
        },
{
    match value.as_array() {
        Some(items) => every(items),
        None => Some(one_or_none(value)),
    }
}

/// The replacements of a call, where the text in `edits`, if it is one, holds `inner` as JSON.
pub fn replacements_with(args: &Json, inner: &Result<Json, String>) -> (result: Result<
    Vec<edits::Edit>,
    String,
>)
    ensures
        ({
            let wanted = requested(
                args@,
                match *inner {
                    Ok(value) => Ok(value@),
                    Err(error) => Err(error@),
                },
            );
            match result {
                Ok(edits) => wanted == Some(pairs(edits@)) && edits@.len() > 0,
                Err(error) => wanted is None && error@ == invalid_error(),
            }
        }),
{
    let found: Option<Vec<edits::Edit>> = match args.get("edits") {
        Some(value) => match value {
            Json::Text(_) => match inner {
                Ok(inner) => held_in(inner),
                Err(_) => Some(Vec::new()),
            },
            _ => held_in(value),
        },
        None => Some(Vec::new()),
    };
    let mut edits = match found {
        Some(edits) => edits,
        None => {
            return Err(
                "Edit tool input is invalid. edits must contain at least one replacement.".to_owned(),
            );
        },
    };
    let ghost before = pairs(edits@);
    assert(edits@.len() == 0 ==> before =~= Seq::<(Seq<char>, Seq<char>)>::empty());
    match single(args) {
        Some(edit) => {
            edits.push(edit);
            assert(pairs(edits@) =~= before + seq![pair(edit)]);
        },
        None => {
            assert(before + Seq::<(Seq<char>, Seq<char>)>::empty() =~= before);
        },
    }
    if edits.len() == 0 {
        Err("Edit tool input is invalid. edits must contain at least one replacement.".to_owned())
    } else {
        Ok(edits)
    }
}

/// The replacements of a call. Models send `edits` as a JSON string, as one object, or as
/// top-level `oldText`/`newText`.
pub fn replacements(args: &Json) -> (result: Result<Vec<edits::Edit>, String>)
    ensures
        match result {
            Ok(edits) => requested(args@, inner_of(args@)) == Some(pairs(edits@)) && edits@.len()
                > 0,
            Err(error) => requested(args@, inner_of(args@)) is None && error@ == invalid_error(),
        },
{
    let text = match args.get("edits") {
        Some(value) => match value.as_str() {
            Some(text) => text,
            None => "",
        },
        None => "",
    };
    proof {
        reveal_strlit("");
        assert(""@ =~= Seq::<char>::empty());
    }
    let inner = parse(text);
    replacements_with(args, &inner)
}

/// A file to edit: what the call named it, where it is, and what to replace in it.
#[derive(Debug, PartialEq, Eq)]
pub struct Plan {
    pub path: String,
    pub absolute: String,
    pub edits: Vec<edits::Edit>,
}

pub open spec fn path_error() -> Seq<char> {
    "Edit tool input is invalid. path must be a string."@
}

pub fn plan(args: &Json, cwd: &str, home: &str) -> (result: Result<Plan, String>)
    ensures
        match (requested(args@, inner_of(args@)), tools::wanted_text(args@, "path"@)) {
            (None, _) => result matches Err(error) && error@ == invalid_error(),
            (Some(_), None) => result matches Err(error) && error@ == path_error(),
            (Some(wanted), Some(path)) => result matches Ok(plan) && plan.path@ == path
                && plan.absolute@ == path::resolved(path, cwd@, home@) && pairs(plan.edits@)
                == wanted,
        },
{
    let edits = match replacements(args) {
        Ok(edits) => edits,
        Err(error) => {
            return Err(error);
        },
    };
    let named = match args.get("path") {
        Some(value) => value.as_str(),
        None => None,
    };
    match named {
        Some(path) => {
            let absolute = resolve(path, cwd, home);
            Ok(Plan { path: path.to_owned(), absolute, edits })
        },
        None => Err("Edit tool input is invalid. path must be a string.".to_owned()),
    }
}

/// What is answered where the file cannot be opened.
pub fn open_error(path: &str, error: &OsError) -> (text: String)
    ensures
        text@ == "Could not edit file: "@ + path@ + ". Error code: "@ + errors::symbol(*error)
            + "."@,
{
    let mut text = "Could not edit file: ".to_owned();
    text.append(path);
    text.append(". Error code: ");
    text.append(code(error).as_str());
    text.append(".");
    text
}

// ---- Editing ----

/// A file before and after its edits, with line feeds, and what to write.
#[derive(Clone, Debug, PartialEq, Eq)]
pub struct Revision {
    pub base: String,
    pub new: String,
    pub output: String,
}

pub open spec fn has_mark(text: Seq<char>) -> bool {
    text.len() > 0 && text[0] == '\u{FEFF}'
}

/// The text of a file after its byte order mark.
pub open spec fn after_mark(text: Seq<char>) -> Seq<char> {
    if has_mark(text) {
        text.skip(1)
    } else {
        text
    }
}

pub open spec fn mark_of(text: Seq<char>) -> Seq<char> {
    if has_mark(text) {
        seq!['\u{FEFF}']
    } else {
        Seq::empty()
    }
}

/// What the edits make of a text with line feeds.
pub open spec fn edited(
    normalized: Seq<char>,
    edits: Seq<edits::Edit>,
    path: Seq<char>,
) -> Result<Seq<char>, Seq<char>> {
    edits::edit_outcome(
        normalized,
        text::fuzzy_form(normalized),
        text::fuzzy_form(text::fuzzy_form(normalized)),
        edits.map_values(|edit: edits::Edit| edits::prepared(edit)),
        path,
    )
}

/// What is written: the byte order mark and the line endings are those of the file.
pub open spec fn written(text: Seq<char>, new: Seq<char>) -> Seq<char> {
    mark_of(text) + text::with_ending(new, text::line_ending(after_mark(text)))
}

/// Applies edits to the text of a file.
pub fn revise_text(raw: &str, edits: &Vec<edits::Edit>, path: &str) -> (result: Result<
    Revision,
    String,
>)
    ensures
        match edited(text::to_lf(after_mark(raw@)), edits@, path@) {
            Ok(new) => result matches Ok(revision) && revision.base@ == text::to_lf(
                after_mark(raw@),
            ) && revision.new@ == new && revision.output@ == written(raw@, new),
            Err(wording) => result matches Err(error) && error@ == wording,
        },
{
    let (mark, content) = split_bom(raw);
    let ending = detect_line_ending(content);
    let normalized = normalize_to_lf(content);
    match apply_edits(normalized.as_str(), edits.as_slice(), path) {
        Ok((base, new)) => {
            let mut output = mark.to_owned();
            output.append(restore_line_endings(new.as_str(), ending).as_str());
            Ok(Revision { base, new, output })
        },
        Err(error) => Err(error),
    }
}

/// Applies edits to the bytes of a file.
pub fn revise(raw: &Vec<u8>, edits: &Vec<edits::Edit>, path: &str) -> (result: Result<
    Revision,
    String,
>)
    ensures
        match edited(text::to_lf(after_mark(strings::lossy(raw@))), edits@, path@) {
            Ok(new) => result matches Ok(revision) && revision.base@ == text::to_lf(
                after_mark(strings::lossy(raw@)),
            ) && revision.new@ == new && revision.output@ == written(strings::lossy(raw@), new),
            Err(wording) => result matches Err(error) && error@ == wording,
        },
{
    let text = text_from_utf8(raw);
    revise_text(text.as_str(), edits, path)
}

/// What edits make of a file is what they make of its text with line feeds.
pub proof fn law_files_are_edited_as_texts(
    normalized: Seq<char>,
    edits: Seq<edits::Edit>,
    path: Seq<char>,
)
    ensures
        edited(normalized, edits, path) == edits::outcome_of(normalized, edits, path),
{
}

/// One edit of a file whose lines end in line feeds, whose old text stands there in one place and in
/// fuzzy form nowhere else, writes the file as it was but for the new text in that place. A byte
/// order mark stays where it is.
pub proof fn law_an_edit_writes_the_new_text_in_its_place(
    mark: bool,
    before: Seq<char>,
    after: Seq<char>,
    edit: edits::Edit,
    path: Seq<char>,
)
    requires
        edit.old_text@.len() > 0,
        edit.old_text@ != edit.new_text@,
        !before.contains('\r') && !after.contains('\r') && !edit.old_text@.contains('\r')
            && !edit.new_text@.contains('\r'),
        !has_mark(before + edit.old_text@ + after),
        forall|k: int| #[trigger]
            strings::stands_at(before + edit.old_text@ + after, edit.old_text@, k) ==> k
                == before.len(),
        strings::occurrences_from(
            text::fuzzy_form(before + edit.old_text@ + after),
            text::fuzzy_form(edit.old_text@),
            0,
        ) <= 1,
    ensures
        ({
            let first = if mark {
                seq!['\u{FEFF}']
            } else {
                Seq::empty()
            };
            let raw = first + before + edit.old_text@ + after;
            let new = before + edit.new_text@ + after;
            &&& edited(text::to_lf(after_mark(raw)), seq![edit], path) == Ok::<
                Seq<char>,
                Seq<char>,
            >(new)
            &&& written(raw, new) == first + before + edit.new_text@ + after
        }),
{
    let first = if mark {
        seq!['\u{FEFF}']
    } else {
        Seq::empty()
    };
    let content = before + edit.old_text@ + after;
    let raw = first + before + edit.old_text@ + after;
    let new = before + edit.new_text@ + after;
    lemma_no_return(before, edit.old_text@, after);
    lemma_no_return(before, edit.new_text@, after);
    assert(raw =~= first + content);
    assert(after_mark(raw) =~= content);
    assert(mark_of(raw) =~= first);
    text::law_each_line_ending_becomes_a_line_feed(content, Seq::empty());
    text::law_each_line_ending_becomes_a_line_feed(edit.old_text@, Seq::empty());
    text::law_each_line_ending_becomes_a_line_feed(edit.new_text@, Seq::empty());
    edits::law_a_new_text_takes_the_place_of_the_old(before, after, edit, path);
    text::law_restored_endings_are_the_files(content, new);
    assert(written(raw, new) =~= first + before + edit.new_text@ + after);
}

proof fn lemma_no_return(before: Seq<char>, middle: Seq<char>, after: Seq<char>)
    requires
        !before.contains('\r') && !after.contains('\r') && !middle.contains('\r'),
    ensures
        !(before + middle + after).contains('\r'),
{
    let all = before + middle + after;
    if all.contains('\r') {
        let i = choose|i: int| 0 <= i < all.len() && all[i] == '\r';
        if i < before.len() {
            assert(before[i] == '\r');
        } else if i < before.len() + middle.len() {
            assert(middle[i - before.len()] == '\r');
        } else {
            assert(after[i - before.len() - middle.len()] == '\r');
        }
    }
}

/// Editing keeps a byte order mark, and adds none.
pub proof fn law_mark_stays(raw: Seq<char>, new: Seq<char>)
    requires
        !has_mark(new),
    ensures
        has_mark(written(raw, new)) == has_mark(raw),
{
    let ending = text::line_ending(after_mark(raw));
    let restored = text::with_ending(new, ending);
    if has_mark(raw) {
        assert(written(raw, new)[0] == '\u{FEFF}');
    } else {
        assert(written(raw, new) =~= restored);
        text::lemma_crlf_head(new);
    }
}

// ---- Answering ----

/// A unified diff of two texts with some lines around each change, under two names.
pub uninterp spec fn patch_text(
    base: Seq<char>,
    new: Seq<char>,
    radius: usize,
    old_name: Seq<char>,
    new_name: Seq<char>,
) -> Seq<char>;

/// `similar`'s `unified_diff` of two texts compared line by line. Nothing is said here of how
/// the diff looks.
#[verifier::external_body]
fn unified_diff(base: &str, new: &str, radius: usize, old_name: &str, new_name: &str) -> (patch:
    String)
    requires
        radius <= usize::MAX / 2,
    ensures
        patch@ == patch_text(base@, new@, radius, old_name@, new_name@),
{
    similar::TextDiff::from_lines(base, new)
        .unified_diff()
        .context_radius(radius)
        .header(old_name, new_name)
        .to_string()
}

/// The steps from one text to another, line by line: whether a step keeps lines, and at which
/// line of the new text it begins.
pub uninterp spec fn diff_steps(base: Seq<char>, new: Seq<char>) -> Seq<(bool, usize)>;

/// `similar`'s `ops` of two texts compared line by line. Nothing is said here of which steps
/// are found.
#[verifier::external_body]
fn diff_ops(base: &str, new: &str) -> (steps: Vec<(bool, usize)>)
    ensures
        steps@ == diff_steps(base@, new@),
{
    similar::TextDiff::from_lines(base, new)
        .ops()
        .iter()
        .map(|op| (op.tag() == similar::DiffTag::Equal, op.new_range().start))
        .collect()
}

/// The line, counted from one, at which the first change begins.
pub open spec fn first_change(steps: Seq<(bool, usize)>, from: int) -> Option<nat>
    decreases steps.len() - from,
{
    if from < 0 || from >= steps.len() {
        None
    } else if !steps[from].0 {
        Some((steps[from].1 + 1) as nat)
    } else {
        first_change(steps, from + 1)
    }
}

/// The first step that keeps nothing is where the first change begins.
pub proof fn law_the_first_change_is_told(
    kept: Seq<(bool, usize)>,
    line: usize,
    after: Seq<(bool, usize)>,
)
    requires
        forall|i: int| #![trigger kept[i]] 0 <= i < kept.len() ==> kept[i].0,
    ensures
        first_change(kept + seq![(false, line)] + after, 0) == Some((line + 1) as nat),
        first_change(kept, 0) is None,
{
    let all = kept + seq![(false, line)] + after;
    lemma_only_kept(kept, kept, 0);
    lemma_only_kept(all, kept, 0);
    assert(all[kept.len() as int] == (false, line));
}

proof fn lemma_only_kept(steps: Seq<(bool, usize)>, kept: Seq<(bool, usize)>, from: int)
    requires
        0 <= from <= kept.len() <= steps.len(),
        forall|i: int| #![trigger kept[i]] 0 <= i < kept.len() ==> kept[i] == steps[i] && kept[i].0,
    ensures
        first_change(steps, from) == first_change(steps, kept.len() as int),
    decreases kept.len() - from,
{
    if from < kept.len() {
        assert(kept[from] == steps[from]);
        lemma_only_kept(steps, kept, from + 1);
    }
}

/// What an edit answers tells how many blocks were replaced and where, and holds the diff and the
/// first changed line for observers.
pub proof fn law_an_edit_tells_what_it_did(
    count: nat,
    path: Seq<char>,
    patch: Seq<char>,
    steps: Seq<(bool, usize)>,
)
    ensures
        ({
            let output = done_output(count, path, patch, steps);
            &&& !output.is_error
            &&& output.content.len() == 1
            &&& output.content[0] == tools::ContentView::Text(
                "Successfully replaced "@ + strings::decimal(count) + " block(s) in "@ + path
                    + "."@,
            )
            &&& output.details.get("patch"@) == Some(json::JsonView::Text(patch))
            &&& first_change(steps, 0) matches Some(line) ==> output.details.get(
                "firstChangedLine"@,
            ) == Some(json::JsonView::Number(strings::decimal(line)))
            &&& first_change(steps, 0) is None ==> output.details.get("firstChangedLine"@) == Some(
                json::JsonView::Null,
            )
        }),
{
    reveal_strlit("patch");
    reveal_strlit("firstChangedLine");
    let fields = done_output(count, path, patch, steps).details->Object_0;
    assert(fields[0].0 == "patch"@);
    assert(fields[1].0 == "firstChangedLine"@);
    json::law_a_field_is_found_under_its_name(fields, "patch"@, 0);
    json::law_a_field_is_found_under_its_name(fields, "firstChangedLine"@, 1);
}

pub open spec fn line_or_null(line: Option<nat>) -> json::JsonView {
    match line {
        Some(line) => json::JsonView::Number(strings::decimal(line)),
        None => json::JsonView::Null,
    }
}

pub open spec fn done_output(
    count: nat,
    path: Seq<char>,
    patch: Seq<char>,
    steps: Seq<(bool, usize)>,
) -> tools::OutputView {
    tools::OutputView {
        details: json::JsonView::Object(
            seq![
                ("patch"@, json::JsonView::Text(patch)),
                ("firstChangedLine"@, line_or_null(first_change(steps, 0))),
            ],
        ),
        ..tools::said(
            "Successfully replaced "@ + strings::decimal(count) + " block(s) in "@ + path + "."@,
            false,
        )
    }
}

/// What an edit answers, from the diff of what it did.
pub fn report(count: usize, path: &str, patch: &str, steps: &Vec<(bool, usize)>) -> (output:
    ToolOutput)
    ensures
        output@ == done_output(count as nat, path@, patch@, steps@),
{
    let mut line = Json::Null;
    let mut at: usize = 0;
    while at < steps.len()
        invariant_except_break
            line@ == json::JsonView::Null,
            first_change(steps@, 0) == first_change(steps@, at as int),
        invariant
            at <= steps@.len(),
        ensures
            line@ == line_or_null(first_change(steps@, 0)),
        decreases steps@.len() - at,
    {
        if !steps[at].0 {
            line = Json::Number(number(steps[at].1 as u128 + 1));
            break;
        }
        at += 1;
    }
    let mut details = no_fields();
    put(&mut details, "patch", json::text(patch));
    put(&mut details, "firstChangedLine", line);
    let mut said = "Successfully replaced ".to_owned();
    said.append(number(count as u128).as_str());
    said.append(" block(s) in ");
    said.append(path);
    said.append(".");
    assert(json::field_views(details@) =~= done_output(
        count as nat,
        path@,
        patch@,
        steps@,
    ).details->Object_0);
    ToolOutput::text(said).with_details(sealed(details))
}

/// What an edit answers.
pub fn done(count: usize, path: &str, revision: &Revision) -> (output: ToolOutput)
    ensures
        output@ == done_output(
            count as nat,
            path@,
            patch_text(revision.base@, revision.new@, 4, path@, path@),
            diff_steps(revision.base@, revision.new@),
        ),
{
    let patch = unified_diff(revision.base.as_str(), revision.new.as_str(), 4, path, path);
    let steps = diff_ops(revision.base.as_str(), revision.new.as_str());
    report(count, path, patch.as_str(), &steps)
}

} // verus!
