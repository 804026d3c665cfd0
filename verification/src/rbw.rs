//! The secret-manager collaborator's item shapes, the namespace
//! resolution over them (note body first, legacy custom fields only as a
//! one-shot fallback), and the exact stdin payloads the collaborator's
//! create and edit operations expect.

use vstd::prelude::*;
use vstd::string::StringExecFns;
use crate::store::{EnvMap, parse, parse_text};
use crate::text::str_eq;

verus! {

/// One entry of the collaborator's item listing.
pub struct ListItem {
    pub name: String,
    pub folder: Option<String>,
    pub item_type: String,
}

/// A fetched item: its note body and its structured custom fields.
pub struct RbwItem {
    pub item_type: Option<String>,
    pub notes: Option<String>,
    pub fields: Option<Vec<RbwField>>,
}

/// One structured custom field of an item.
pub struct RbwField {
    pub name: String,
    pub value: Option<String>,
    pub field_type: String,
}

/// The mapping the note body denotes; empty when there is no note.
pub open spec fn notes_pairs(item: RbwItem) -> Map<Seq<char>, Seq<char>> {
    match item.notes {
        Some(n) => parse_text(n@),
        None => Map::empty(),
    }
}

/// The mapping the custom fields denote: each field of type `text` or
/// `hidden` that carries a value binds its name, later fields overriding
/// earlier ones.
pub open spec fn field_pairs(fs: Seq<RbwField>) -> Map<Seq<char>, Seq<char>>
    decreases fs.len(),
{
    if fs.len() == 0 {
        Map::empty()
    } else {
        let m = field_pairs(fs.drop_last());
        let f = fs.last();
        if f.field_type@ == "text"@ || f.field_type@ == "hidden"@ {
            match f.value {
                Some(v) => m.insert(f.name@, v@),
                None => m,
            }
        } else {
            m
        }
    }
}

/// The mapping the item's custom fields denote; empty when absent.
pub open spec fn item_field_pairs(item: RbwItem) -> Map<Seq<char>, Seq<char>> {
    match item.fields {
        Some(fs) => field_pairs(fs@),
        None => Map::empty(),
    }
}

/// Resolve an item to its key/value pairs.  The note body always takes
/// priority: custom fields are consulted only when the note body yields
/// no pair at all, and then as a whole -- never merged per key.
pub fn load_env_pairs(item: &RbwItem) -> (r: EnvMap)
    ensures
        r.wf(),
        notes_pairs(*item) != Map::<Seq<char>, Seq<char>>::empty() ==> r@ == notes_pairs(*item),
        notes_pairs(*item) == Map::<Seq<char>, Seq<char>>::empty()
            ==> r@ == item_field_pairs(*item),
{
    let mut pairs = match &item.notes {
        Some(n) => parse(n.as_str()),
        None => EnvMap::new(),
    };
    if !pairs.is_empty() {
        return pairs;
    }
    if let Some(fields) = &item.fields {
        let n = fields.len();
        let mut i: usize = 0;
        proof {
            assert(fields@.take(0) =~= Seq::<RbwField>::empty());
        }
        while i < n
            invariant
                i <= n,
                n == fields@.len(),
                pairs.wf(),
                pairs@ == field_pairs(fields@.take(i as int)),
            decreases n - i,
        {
            let f = &fields[i];
            proof {
                assert(fields@.take(i + 1).drop_last() =~= fields@.take(i as int));
                assert(fields@.take(i + 1).last() == fields@[i as int]);
            }
            if str_eq(f.field_type.as_str(), "text") || str_eq(f.field_type.as_str(), "hidden") {
                if let Some(v) = &f.value {
                    pairs.insert(f.name.clone(), v.clone());
                }
            }
            i = i + 1;
        }
        proof {
            assert(fields@.take(n as int) =~= fields@);
        }
    }
    pairs
}

/// The current note text of a possibly missing item: its note body, or
/// the empty string when the item or its note is absent.
pub open spec fn existing_notes_text(item: Option<RbwItem>) -> Seq<char> {
    match item {
        Some(it) => match it.notes {
            Some(n) => n@,
            None => Seq::empty(),
        },
        None => Seq::empty(),
    }
}

/// Note text to run the create-vs-edit decision on: the item's note
/// body, or the empty string when the item does not exist.
pub fn existing_notes(item: &Option<RbwItem>) -> (r: String)
    ensures
        r@ == existing_notes_text(*item),
{
    match item {
        Some(it) => match &it.notes {
            Some(n) => n.clone(),
            None => String::new(),
        },
        None => String::new(),
    }
}

/// The stdin payload for the collaborator's create operation: a leading
/// empty line (the new entry's empty password), then the note text, then
/// a final newline.
pub open spec fn create_payload(notes: Seq<char>) -> Seq<char> {
    seq!['\n'] + notes + seq!['\n']
}

/// The stdin payload for the collaborator's edit operation: as for
/// create, except that a secure-note entry needs no leading empty line.
pub open spec fn edit_payload(notes: Seq<char>, is_secure_note: bool) -> Seq<char> {
    if is_secure_note {
        notes + seq!['\n']
    } else {
        seq!['\n'] + notes + seq!['\n']
    }
}

/// Build the stdin payload that creates an entry holding `notes_content`.
pub fn create_item(notes_content: &str) -> (r: String)
    ensures
        r@ == create_payload(notes_content@),
{
    let mut out = String::new();
    out.append("\n");
    out.append(notes_content);
    out.append("\n");
    proof {
        reveal_strlit("\n");
        assert("\n"@ =~= seq!['\n']);
        assert(out@ =~= create_payload(notes_content@));
    }
    out
}

/// Build the stdin payload that replaces an entry's note content.
pub fn edit_item(notes_content: &str, is_secure_note: bool) -> (r: String)
    ensures
        r@ == edit_payload(notes_content@, is_secure_note),
{
    let mut out = String::new();
    if !is_secure_note {
        out.append("\n");
    }
    out.append(notes_content);
    out.append("\n");
    proof {
        reveal_strlit("\n");
        assert("\n"@ =~= seq!['\n']);
        assert(out@ =~= edit_payload(notes_content@, is_secure_note));
    }
    out
}

/// Which collaborator operation a write-back must use, with the exact
/// stdin payload for it.
pub enum WriteAction {
    Create { payload: String },
    Edit { payload: String },
}

/// Decide the write-back: a namespace whose existing note text was empty
/// is treated as new and created; otherwise its entry is edited.
pub fn write_namespace(notes_content: &str, is_new: bool, is_secure_note: bool) -> (a: WriteAction)
    ensures
        match a {
            WriteAction::Create { payload } => is_new
                && payload@ == create_payload(notes_content@),
            WriteAction::Edit { payload } => !is_new
                && payload@ == edit_payload(notes_content@, is_secure_note),
        },
{
    if is_new {
        WriteAction::Create { payload: create_item(notes_content) }
    } else {
        WriteAction::Edit { payload: edit_item(notes_content, is_secure_note) }
    }
}

} // verus!
