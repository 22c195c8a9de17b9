//! The loader: turns JSON text into a command tree. The generic JSON
//! grammar is read by an outside parser behind one trusted function; the
//! resulting value tree is this module's own `Json` type, and everything
//! after that point — normalizing the two accepted tree shapes into the
//! command model — is verified.
//!
//! Two shapes describe the same logical tree: the system shape, whose
//! `items` field is an object holding an identifier-to-node mapping and
//! an explicit order array; and the user-friendly shape, whose `items`
//! field is a flat array in display order. Both normalize to the arena
//! model, with fresh dense identifiers synthesized per parse.

use vstd::prelude::*;

use crate::commands::ActionKind;
use crate::commands::Command;
use crate::commands::CommandKind;
use crate::commands::CommandKindV;
use crate::commands::CommandV;
use crate::commands::Items;
use crate::commands::ShellProperties;
use crate::commands::models_of;
use crate::commands::lemma_models_of;
use crate::text::str_eq;

verus! {

broadcast use lemma_models_of;

/// Why JSON text yielded no command tree: the text is not valid JSON, or
/// it is valid JSON of the wrong shape (a missing or mistyped field).
#[derive(Debug, PartialEq, Eq)]
pub enum ParseError {
    InvalidSyntax,
    InvalidShape,
}

/// A parsed JSON value. Numbers carry no payload: no field of the
/// command-tree format reads one, and a numeric value in a read field is
/// a shape error.
#[derive(Debug)]
pub enum Json {
    Null,
    Bool(bool),
    Num,
    Str(String),
    Arr(Vec<Json>),
    Obj(Vec<(String, Json)>),
}

/// Model of a `Json` value, over character sequences.
pub enum JsonV {
    Null,
    Bool(bool),
    Num,
    Str(Seq<char>),
    Arr(Seq<JsonV>),
    Obj(Seq<(Seq<char>, JsonV)>),
}

impl Json {
    pub open spec fn model(self) -> JsonV
        decreases self,
    {
        match self {
            Json::Null => JsonV::Null,
            Json::Bool(b) => JsonV::Bool(b),
            Json::Num => JsonV::Num,
            Json::Str(s) => JsonV::Str(s@),
            Json::Arr(v) => JsonV::Arr(json_models_of(v@)),
            Json::Obj(v) => JsonV::Obj(field_models_of(v@)),
        }
    }
}

/// The models of a sequence of JSON values, element for element.
pub open spec fn json_models_of(s: Seq<Json>) -> Seq<JsonV>
    decreases s,
{
    if s.len() == 0 {
        Seq::empty()
    } else {
        json_models_of(s.drop_last()).push(s.last().model())
    }
}

/// The models of a sequence of JSON object fields, element for element.
pub open spec fn field_models_of(s: Seq<(String, Json)>) -> Seq<(Seq<char>, JsonV)>
    decreases s,
{
    if s.len() == 0 {
        Seq::empty()
    } else {
        field_models_of(s.drop_last()).push((s.last().0@, s.last().1.model()))
    }
}

pub broadcast proof fn lemma_json_models_of(s: Seq<Json>)
    ensures
        (#[trigger] json_models_of(s)).len() == s.len(),
        forall|i: int| 0 <= i < s.len() ==> json_models_of(s)[i] == s[i].model(),
    decreases s.len(),
{
    if s.len() > 0 {
        lemma_json_models_of(s.drop_last());
    }
}

pub broadcast proof fn lemma_field_models_of(s: Seq<(String, Json)>)
    ensures
        (#[trigger] field_models_of(s)).len() == s.len(),
        forall|i: int|
            0 <= i < s.len() ==> field_models_of(s)[i] == (s[i].0@, s[i].1.model()),
    decreases s.len(),
{
    if s.len() > 0 {
        lemma_field_models_of(s.drop_last());
    }
}

/// The value under the first field named `key`, if any.
pub open spec fn lookup(fields: Seq<(Seq<char>, JsonV)>, key: Seq<char>) -> Option<JsonV>
    decreases fields.len(),
{
    if fields.len() == 0 {
        None
    } else if fields[0].0 == key {
        Some(fields[0].1)
    } else {
        lookup(fields.drop_first(), key)
    }
}

/// A found field value sits below the field sequence in the
/// decreases-to order, which grounds the loader's recursion through
/// object lookups.
pub proof fn lemma_lookup_decreases(fields: Seq<(Seq<char>, JsonV)>, key: Seq<char>)
    requires
        lookup(fields, key) is Some,
    ensures
        decreases_to!(fields => lookup(fields, key)->0),
    decreases fields.len(),
{
    if fields.len() == 0 {
    } else if fields[0].0 == key {
        assert(decreases_to!(fields => fields[0]));
        assert(decreases_to!(fields[0] => fields[0].1));
    } else {
        lemma_lookup_decreases(fields.drop_first(), key);
        assert(decreases_to!(fields => fields.drop_first()));
    }
}

/// The normalized execution kind for a node's fields, or nothing on a
/// shape error. Either a `kind` or a `shell` key (not both) may give the
/// kind: a string is a shell command line; an object holds the command
/// line under its own `shell` key, and without one means `Initial`; any
/// other value means `Initial`; so does the key's absence.
pub open spec fn spec_kind_of(fields: Seq<(Seq<char>, JsonV)>) -> Option<CommandKindV> {
    if lookup(fields, "kind"@) is Some && lookup(fields, "shell"@) is Some {
        None
    } else {
        let picked = if lookup(fields, "kind"@) is Some {
            lookup(fields, "kind"@)
        } else {
            lookup(fields, "shell"@)
        };
        match picked {
            None => Some(CommandKindV::Initial),
            Some(JsonV::Str(s)) => Some(CommandKindV::Shell(s)),
            Some(JsonV::Obj(fs)) => match lookup(fs, "shell"@) {
                None => Some(CommandKindV::Initial),
                Some(JsonV::Str(c)) => Some(CommandKindV::Shell(c)),
                Some(_) => None,
            },
            Some(_) => Some(CommandKindV::Initial),
        }
    }
}

/// The optional icon hint: absent or null is no icon, a string is the
/// hint, anything else is a shape error.
pub open spec fn spec_icon_of(fields: Seq<(Seq<char>, JsonV)>) -> Option<Option<Seq<char>>> {
    match lookup(fields, "icon"@) {
        None => Some(None),
        Some(JsonV::Null) => Some(None),
        Some(JsonV::Str(s)) => Some(Some(s)),
        Some(_) => None,
    }
}

/// The action policy: absent defaults to `Exit`; the strings `Exit` /
/// `exit` and `Next` / `next` select a policy; anything else is a shape
/// error.
pub open spec fn spec_action_of(fields: Seq<(Seq<char>, JsonV)>) -> Option<ActionKind> {
    match lookup(fields, "action"@) {
        None => Some(ActionKind::Exit),
        Some(JsonV::Str(s)) => if s == "Exit"@ || s == "exit"@ {
            Some(ActionKind::Exit)
        } else if s == "Next"@ || s == "next"@ {
            Some(ActionKind::Next)
        } else {
            None
        },
        Some(_) => None,
    }
}

/// The dense identifier sequence `0, 1, …, n-1`: the fresh identifiers a
/// parse assigns to `n` children, in display order.
pub open spec fn identity_order(n: int) -> Seq<usize> {
    Seq::new(n as nat, |i: int| i as usize)
}

/// The parsed command under the first entry named `key`, if any.
pub open spec fn entry_lookup(entries: Seq<(Seq<char>, CommandV)>, key: Seq<char>) -> Option<
    CommandV,
>
    decreases entries.len(),
{
    if entries.len() == 0 {
        None
    } else if entries[0].0 == key {
        Some(entries[0].1)
    } else {
        entry_lookup(entries.drop_first(), key)
    }
}

/// The command tree a JSON value normalizes to, or nothing on a shape
/// error: the value must be an object with a string `value`; kind, icon,
/// action and items are read as the field helpers above say.
pub open spec fn spec_command_of(j: JsonV) -> Option<CommandV>
    decreases j,
    via check_spec_command_of
{
    match j {
        JsonV::Obj(fields) => match lookup(fields, "value"@) {
            Some(JsonV::Str(value)) => match (
                spec_kind_of(fields),
                spec_icon_of(fields),
                spec_action_of(fields),
            ) {
                (Some(kind), Some(icon), Some(action)) => match spec_items_of(fields) {
                    Some(children) => Some(
                        CommandV {
                            value,
                            kind,
                            icon,
                            action,
                            children,
                            order: identity_order(children.len() as int),
                        },
                    ),
                    None => None,
                },
                _ => None,
            },
            _ => None,
        },
        _ => None,
    }
}

/// The children a node's `items` field describes: absent means none; an
/// array is the user-friendly shape; an object holding a mapping and an
/// order array is the system shape; anything else is a shape error.
pub open spec fn spec_items_of(fields: Seq<(Seq<char>, JsonV)>) -> Option<Seq<CommandV>>
    decreases fields,
    via check_spec_items_of
{
    match lookup(fields, "items"@) {
        None => Some(Seq::empty()),
        Some(JsonV::Arr(elems)) => spec_children_of(elems),
        Some(JsonV::Obj(ifields)) => match (
            lookup(ifields, "items"@),
            lookup(ifields, "order"@),
        ) {
            (Some(JsonV::Obj(m)), Some(JsonV::Arr(ids))) => match spec_entries_of(m) {
                Some(entries) => spec_resolve_order(entries, ids),
                None => None,
            },
            _ => None,
        },
        Some(_) => None,
    }
}

/// The children of a user-friendly items array: every element must
/// itself normalize; their order is the array order.
pub open spec fn spec_children_of(elems: Seq<JsonV>) -> Option<Seq<CommandV>>
    decreases elems,
{
    if elems.len() == 0 {
        Some(Seq::empty())
    } else {
        match (spec_children_of(elems.drop_last()), spec_command_of(elems[elems.len() - 1])) {
            (Some(pre), Some(c)) => Some(pre.push(c)),
            _ => None,
        }
    }
}

/// The parsed entries of a system-shape mapping: every entry's value
/// must normalize; entries keep the mapping's own order and their keys.
pub open spec fn spec_entries_of(m: Seq<(Seq<char>, JsonV)>) -> Option<Seq<(Seq<char>, CommandV)>>
    decreases m,
    via check_spec_entries_of
{
    if m.len() == 0 {
        Some(Seq::empty())
    } else {
        match (spec_entries_of(m.drop_last()), spec_command_of(m[m.len() - 1].1)) {
            (Some(pre), Some(c)) => Some(pre.push((m[m.len() - 1].0, c))),
            _ => None,
        }
    }
}

/// The children a system-shape order array selects from the parsed
/// entries: each element must be a string naming an entry.
pub open spec fn spec_resolve_order(
    entries: Seq<(Seq<char>, CommandV)>,
    ids: Seq<JsonV>,
) -> Option<Seq<CommandV>>
    decreases ids.len(),
{
    if ids.len() == 0 {
        Some(Seq::empty())
    } else {
        match (spec_resolve_order(entries, ids.drop_last()), ids[ids.len() - 1]) {
            (Some(pre), JsonV::Str(key)) => match entry_lookup(entries, key) {
                Some(c) => Some(pre.push(c)),
                None => None,
            },
            _ => None,
        }
    }
}

#[via_fn]
proof fn check_spec_command_of(j: JsonV) {
    if let JsonV::Obj(fields) = j {
        assert(decreases_to!(j => fields));
    }
}

#[via_fn]
proof fn check_spec_items_of(fields: Seq<(Seq<char>, JsonV)>) {
    if let Some(it) = lookup(fields, "items"@) {
        lemma_lookup_decreases(fields, "items"@);
        if let JsonV::Arr(elems) = it {
            assert(decreases_to!(it => elems));
        }
        if let JsonV::Obj(ifields) = it {
            assert(decreases_to!(it => ifields));
            if let Some(im) = lookup(ifields, "items"@) {
                lemma_lookup_decreases(ifields, "items"@);
                if let JsonV::Obj(m) = im {
                    assert(decreases_to!(im => m));
                }
            }
        }
    }
}

#[via_fn]
proof fn check_spec_entries_of(m: Seq<(Seq<char>, JsonV)>) {
    if m.len() > 0 {
        let i = m.len() - 1;
        assert(decreases_to!(m => m[i]));
        assert(decreases_to!(m[i] => m[i].1));
    }
}

/// A lookup behaves like a scan: if the first `i` field names differ
/// from the key, the lookup's result is decided at position `i`.
pub proof fn lemma_lookup_at(fields: Seq<(Seq<char>, JsonV)>, key: Seq<char>, i: int)
    requires
        0 <= i <= fields.len(),
        forall|k: int| 0 <= k < i ==> (#[trigger] fields[k]).0 != key,
    ensures
        i == fields.len() ==> lookup(fields, key) is None,
        i < fields.len() && fields[i].0 == key ==> lookup(fields, key) == Some(fields[i].1),
    decreases fields.len(),
{
    if fields.len() > 0 && i > 0 {
        assert(fields[0].0 != key);
        let rest = fields.drop_first();
        assert forall|k: int| 0 <= k < i - 1 implies (#[trigger] rest[k]).0 != key by {
            assert(rest[k] == fields[k + 1]);
        }
        lemma_lookup_at(rest, key, i - 1);
        if i < fields.len() {
            assert(rest[i - 1] == fields[i]);
        }
    }
}

/// Like `lemma_lookup_at`, for the parsed entries of the system shape.
pub proof fn lemma_entry_lookup_at(entries: Seq<(Seq<char>, CommandV)>, key: Seq<char>, i: int)
    requires
        0 <= i <= entries.len(),
        forall|k: int| 0 <= k < i ==> (#[trigger] entries[k]).0 != key,
    ensures
        i == entries.len() ==> entry_lookup(entries, key) is None,
        i < entries.len() && entries[i].0 == key ==> entry_lookup(entries, key) == Some(
            entries[i].1,
        ),
    decreases entries.len(),
{
    if entries.len() > 0 && i > 0 {
        assert(entries[0].0 != key);
        let rest = entries.drop_first();
        assert forall|k: int| 0 <= k < i - 1 implies (#[trigger] rest[k]).0 != key by {
            assert(rest[k] == entries[k + 1]);
        }
        lemma_entry_lookup_at(rest, key, i - 1);
        if i < entries.len() {
            assert(rest[i - 1] == entries[i]);
        }
    }
}

/// One failing element fails the whole user-friendly children parse.
pub proof fn lemma_children_of_stops(elems: Seq<JsonV>, k: int)
    requires
        0 <= k < elems.len(),
        spec_command_of(elems[k]) is None,
    ensures
        spec_children_of(elems) is None,
    decreases elems.len(),
{
    if k < elems.len() - 1 {
        let pre = elems.drop_last();
        assert(pre[k] == elems[k]);
        lemma_children_of_stops(pre, k);
    }
}

/// One failing entry fails the whole system-shape mapping parse.
pub proof fn lemma_entries_of_stops(m: Seq<(Seq<char>, JsonV)>, k: int)
    requires
        0 <= k < m.len(),
        spec_command_of(m[k].1) is None,
    ensures
        spec_entries_of(m) is None,
    decreases m.len(),
{
    if k < m.len() - 1 {
        let pre = m.drop_last();
        assert(pre[k] == m[k]);
        lemma_entries_of_stops(pre, k);
    }
}

/// One bad order element — not a string, or naming no entry — fails the
/// whole order resolution.
pub proof fn lemma_resolve_order_stops(
    entries: Seq<(Seq<char>, CommandV)>,
    ids: Seq<JsonV>,
    k: int,
)
    requires
        0 <= k < ids.len(),
        match ids[k] {
            JsonV::Str(key) => entry_lookup(entries, key) is None,
            _ => true,
        },
    ensures
        spec_resolve_order(entries, ids) is None,
    decreases ids.len(),
{
    if k < ids.len() - 1 {
        let pre = ids.drop_last();
        assert(pre[k] == ids[k]);
        lemma_resolve_order_stops(entries, pre, k);
    }
}

/// The models of parsed system-shape entries, element for element.
pub open spec fn entry_models_of(s: Seq<(String, Command)>) -> Seq<(Seq<char>, CommandV)>
    decreases s,
{
    if s.len() == 0 {
        Seq::empty()
    } else {
        entry_models_of(s.drop_last()).push((s.last().0@, s.last().1.model()))
    }
}

pub broadcast proof fn lemma_entry_models_of(s: Seq<(String, Command)>)
    ensures
        (#[trigger] entry_models_of(s)).len() == s.len(),
        forall|i: int|
            0 <= i < s.len() ==> entry_models_of(s)[i] == (s[i].0@, s[i].1.model()),
    decreases s.len(),
{
    if s.len() > 0 {
        lemma_entry_models_of(s.drop_last());
    }
}

/// The first field of `fields` named `key`, if any; the returned value
/// is a part of `fields`, which the decreases-to clause records for the
/// loader's termination argument.
#[verifier::loop_isolation(false)]
fn lookup_field<'a>(fields: &'a Vec<(String, Json)>, key: &str) -> (r: Option<&'a Json>)
    ensures
        match r {
            Some(j2) => lookup(field_models_of(fields@), key@) == Some(j2.model()) && (
            decreases_to!(fields@ => *j2)),
            None => lookup(field_models_of(fields@), key@) is None,
        },
{
    proof {
        lemma_field_models_of(fields@);
    }
    let ghost fms = field_models_of(fields@);
    let mut i: usize = 0;
    while i < fields.len()
        invariant
            i <= fields@.len(),
            forall|k: int| 0 <= k < i ==> (#[trigger] fms[k]).0 != key@,
        decreases fields@.len() - i,
    {
        let pair = &fields[i];
        if str_eq(pair.0.as_str(), key) {
            proof {
                lemma_lookup_at(fms, key@, i as int);
                assert(decreases_to!(fields@ => fields@[i as int]));
                assert(decreases_to!(fields@[i as int] => fields@[i as int].1));
            }
            return Some(&pair.1);
        }
        i = i + 1;
    }
    proof {
        lemma_lookup_at(fms, key@, fields@.len() as int);
    }
    None
}

/// The first parsed entry named `key`, if any; the returned command is
/// one of the entries, so its properties carry over.
#[verifier::loop_isolation(false)]
fn lookup_entry<'a>(entries: &'a Vec<(String, Command)>, key: &str) -> (r: Option<&'a Command>)
    ensures
        match r {
            Some(c) => entry_lookup(entry_models_of(entries@), key@) == Some(c.model()) && (
            exists|i: int| 0 <= i < entries@.len() && entries@[i].1 == *c),
            None => entry_lookup(entry_models_of(entries@), key@) is None,
        },
{
    proof {
        lemma_entry_models_of(entries@);
    }
    let ghost ems = entry_models_of(entries@);
    let mut i: usize = 0;
    while i < entries.len()
        invariant
            i <= entries@.len(),
            forall|k: int| 0 <= k < i ==> (#[trigger] ems[k]).0 != key@,
        decreases entries@.len() - i,
    {
        let pair = &entries[i];
        if str_eq(pair.0.as_str(), key) {
            proof {
                lemma_entry_lookup_at(ems, key@, i as int);
                assert(entries@[i as int].1 == *(&pair.1));
            }
            return Some(&pair.1);
        }
        i = i + 1;
    }
    proof {
        lemma_entry_lookup_at(ems, key@, entries@.len() as int);
    }
    None
}


/// The length of a successful children parse is the array's length.
pub proof fn lemma_children_of_len(elems: Seq<JsonV>)
    ensures
        spec_children_of(elems) matches Some(cs) ==> cs.len() == elems.len(),
    decreases elems.len(),
{
    if elems.len() > 0 {
        lemma_children_of_len(elems.drop_last());
    }
}

/// Every successfully parsed node orders its children by the fresh dense
/// identifiers `0 … n-1`, so its order sequence is as long as its child
/// arena.
pub proof fn lemma_parsed_order(j: JsonV, c: CommandV)
    requires
        spec_command_of(j) == Some(c),
    ensures
        c.order == identity_order(c.children.len() as int),
        c.order.len() == c.children.len(),
{
}

/// The fresh identifiers of a parsed node are pairwise distinct.
pub proof fn lemma_parsed_identifiers(j: JsonV, c: CommandV)
    requires
        spec_command_of(j) == Some(c),
        c.children.len() <= usize::MAX,
    ensures
        c.order.len() == c.children.len(),
        forall|a: int, b: int|
            0 <= a < b < c.order.len() ==> c.order[a] != c.order[b],
{
    lemma_parsed_order(j, c);
    assert forall|a: int, b: int| 0 <= a < b < c.order.len() implies c.order[a] != c.order[b] by {
        assert(c.order[a] == identity_order(c.children.len() as int)[a]);
        assert(c.order[b] == identity_order(c.children.len() as int)[b]);
    }
}

/// A tree parsed from an N-element user-friendly items array has exactly
/// N children and an order sequence of length N.
pub proof fn lemma_user_friendly_count(j: JsonV, c: CommandV, elems: Seq<JsonV>)
    requires
        spec_command_of(j) == Some(c),
        j matches JsonV::Obj(fields) && lookup(fields, "items"@) == Some(JsonV::Arr(elems)),
    ensures
        c.children.len() == elems.len(),
        c.order.len() == elems.len(),
{
    lemma_children_of_len(elems);
    lemma_parsed_order(j, c);
}

/// What the outside JSON parser yields for a given text: the model of
/// the value tree for valid JSON, nothing for invalid text.
pub uninterp spec fn parsed_json_of(s: Seq<char>) -> Option<JsonV>;

#[verifier::external_type_specification]
#[verifier::external_body]
pub struct ExValue(serde_json::Value);

/// Relies on serde_json::Value, the parsed JSON enum: moves one value
/// into the library's own `Json` type, arm for arm; a number drops its
/// payload, which no reader of the command-tree format uses.
#[verifier::external_body]
fn json_of_value(v: serde_json::Value) -> Json {
    match v {
        serde_json::Value::Null => Json::Null,
        serde_json::Value::Bool(b) => Json::Bool(b),
        serde_json::Value::Number(_) => Json::Num,
        serde_json::Value::String(s) => Json::Str(s),
        serde_json::Value::Array(a) => Json::Arr(a.into_iter().map(json_of_value).collect()),
        serde_json::Value::Object(m) => Json::Obj(
            m.into_iter().map(|p| (p.0, json_of_value(p.1))).collect(),
        ),
    }
}

/// Relies on serde_json::from_str: whether JSON text parses, and to what
/// value tree, is decided by the text alone; that function of the text
/// is named `parsed_json_of`, and invalid text parses to nothing.
#[verifier::external_body]
fn parse_json_text(s: &str) -> (r: Option<Json>)
    ensures
        match r {
            Some(j) => parsed_json_of(s@) == Some(j.model()),
            None => parsed_json_of(s@) is None,
        },
{
    match serde_json::from_str::<serde_json::Value>(s) {
        Ok(v) => Some(json_of_value(v)),
        Err(_) => None,
    }
}

/// The command tree a JSON value normalizes to, or nothing on a shape
/// error; the executable mirror of `spec_command_of`.
#[verifier::loop_isolation(false)]
#[verifier::rlimit(100)]
pub fn command_of_json(j: &Json) -> (r: Option<Command>)
    ensures
        match r {
            Some(c) => spec_command_of(j.model()) == Some(c.model()) && c.wf(),
            None => spec_command_of(j.model()) is None,
        },
    decreases *j,
{
    let fields = match j {
        Json::Obj(fields) => fields,
        _ => {
            return None;
        },
    };
    proof {
        assert(decreases_to!(*j => j->Obj_0));
        assert(decreases_to!(*fields => fields@));
        lemma_field_models_of(fields@);
    }
    let ghost fms = field_models_of(fields@);
    let value: String = match lookup_field(fields, "value") {
        Some(vj) => match vj {
            Json::Str(s) => s.clone(),
            _ => {
                return None;
            },
        },
        None => {
            return None;
        },
    };
    proof {
        assert(lookup(fms, "value"@) == Some(JsonV::Str(value@)));
    }
    let kind_opt = lookup_field(fields, "kind");
    let shell_opt = lookup_field(fields, "shell");
    if kind_opt.is_some() && shell_opt.is_some() {
        return None;
    }
    let picked = if kind_opt.is_some() {
        kind_opt
    } else {
        shell_opt
    };
    let kind: CommandKind = match picked {
        None => CommandKind::Initial,
        Some(Json::Str(s)) => CommandKind::Shell(ShellProperties { command: s.clone() }),
        Some(Json::Obj(fs)) => {
            proof {
                lemma_field_models_of(fs@);
            }
            match lookup_field(fs, "shell") {
                None => CommandKind::Initial,
                Some(Json::Str(cl)) => CommandKind::Shell(ShellProperties { command: cl.clone() }),
                Some(_) => {
                    return None;
                },
            }
        },
        Some(_) => CommandKind::Initial,
    };
    proof {
        assert(spec_kind_of(fms) == Some(kind.model()));
    }
    let icon: Option<String> = match lookup_field(fields, "icon") {
        None => None,
        Some(Json::Null) => None,
        Some(Json::Str(s)) => Some(s.clone()),
        Some(_) => {
            return None;
        },
    };
    proof {
        assert(spec_icon_of(fms) == Some(
            match icon {
                Some(s) => Some(s@),
                None => None,
            },
        ));
    }
    let action: ActionKind = match lookup_field(fields, "action") {
        None => ActionKind::Exit,
        Some(Json::Str(s)) => {
            if str_eq(s.as_str(), "Exit") || str_eq(s.as_str(), "exit") {
                ActionKind::Exit
            } else if str_eq(s.as_str(), "Next") || str_eq(s.as_str(), "next") {
                ActionKind::Next
            } else {
                return None;
            }
        },
        Some(_) => {
            return None;
        },
    };
    proof {
        assert(spec_action_of(fms) == Some(action));
    }
    let kids: Vec<Command> = match lookup_field(fields, "items") {
        None => Vec::new(),
        Some(it) => {
            match it {
                Json::Arr(elems) => {
                    proof {
                        assert(decreases_to!(*it => it->Arr_0));
                        assert(decreases_to!(*elems => elems@));
                        lemma_json_models_of(elems@);
                    }
                    let ghost jm = json_models_of(elems@);
                    let mut kids: Vec<Command> = Vec::new();
                    let mut k: usize = 0;
                    proof {
                        assert(jm.subrange(0, 0) =~= Seq::<JsonV>::empty());
                    }
                    while k < elems.len()
                        invariant
                            k <= elems@.len(),
                            spec_children_of(jm.subrange(0, k as int)) == Some(models_of(kids@)),
                            forall|t: int| 0 <= t < kids@.len() ==> (#[trigger] kids@[t]).wf(),
                        decreases elems@.len() - k,
                    {
                        proof {
                            assert(decreases_to!(elems@ => elems@[k as int]));
                        }
                        let ghost prev = models_of(kids@);
                        let elem = &elems[k];
                        match command_of_json(elem) {
                            Some(c) => {
                                proof {
                                    assert((models_of(kids@.push(c))) == prev.push(c.model())) by {
                                        assert(kids@.push(c).drop_last() =~= kids@);
                                    }
                                    let sub = jm.subrange(0, k + 1);
                                    assert(sub.drop_last() =~= jm.subrange(0, k as int));
                                    assert(sub[sub.len() - 1] == elems@[k as int].model());
                                }
                                kids.push(c);
                            },
                            None => {
                                proof {
                                    lemma_children_of_stops(jm, k as int);
                                }
                                return None;
                            },
                        }
                        k = k + 1;
                    }
                    proof {
                        assert(jm.subrange(0, jm.len() as int) =~= jm);
                    }
                    kids
                },
                Json::Obj(ifields) => {
                    proof {
                        assert(decreases_to!(*it => it->Obj_0));
                        assert(decreases_to!(*ifields => ifields@));
                        lemma_field_models_of(ifields@);
                    }
                    let ghost ifms = field_models_of(ifields@);
                    let m_opt = lookup_field(ifields, "items");
                    let order_opt = lookup_field(ifields, "order");
                    let (m_vec, ids_vec) = match (m_opt, order_opt) {
                        (Some(Json::Obj(m)), Some(Json::Arr(ids))) => (m, ids),
                        _ => {
                            return None;
                        },
                    };
                    proof {
                        let im = lookup(ifms, "items"@)->0;
                        assert(decreases_to!(im => im->Obj_0));
                        assert(decreases_to!(*m_vec => m_vec@));
                        lemma_field_models_of(m_vec@);
                        lemma_json_models_of(ids_vec@);
                    }
                    let ghost mms = field_models_of(m_vec@);
                    let ghost idsm = json_models_of(ids_vec@);
                    let mut entries: Vec<(String, Command)> = Vec::new();
                    let mut k: usize = 0;
                    proof {
                        assert(mms.subrange(0, 0) =~= Seq::<(Seq<char>, JsonV)>::empty());
                        assert(entry_models_of(entries@) =~= Seq::<(Seq<char>, CommandV)>::empty());
                    }
                    while k < m_vec.len()
                        invariant
                            k <= m_vec@.len(),
                            spec_entries_of(mms.subrange(0, k as int)) == Some(
                                entry_models_of(entries@),
                            ),
                            forall|t: int|
                                0 <= t < entries@.len() ==> (#[trigger] entries@[t]).1.wf(),
                        decreases m_vec@.len() - k,
                    {
                        proof {
                            assert(decreases_to!(m_vec@ => m_vec@[k as int]));
                            assert(decreases_to!(m_vec@[k as int] => m_vec@[k as int].1));
                        }
                        let ghost preve = entry_models_of(entries@);
                        let pair = &m_vec[k];
                        match command_of_json(&pair.1) {
                            Some(c) => {
                                let key = pair.0.clone();
                                proof {
                                    let ghost p = (key, c);
                                    assert(entry_models_of(entries@.push(p)) == preve.push(
                                        (p.0@, p.1.model()),
                                    )) by {
                                        assert(entries@.push(p).drop_last() =~= entries@);
                                    }
                                    let sub = mms.subrange(0, k + 1);
                                    assert(sub.drop_last() =~= mms.subrange(0, k as int));
                                    assert(sub[sub.len() - 1] == (
                                        m_vec@[k as int].0@,
                                        m_vec@[k as int].1.model(),
                                    ));
                                }
                                entries.push((key, c));
                            },
                            None => {
                                proof {
                                    lemma_entries_of_stops(mms, k as int);
                                }
                                return None;
                            },
                        }
                        k = k + 1;
                    }
                    proof {
                        assert(mms.subrange(0, mms.len() as int) =~= mms);
                    }
                    let ghost ems = entry_models_of(entries@);
                    let mut kids: Vec<Command> = Vec::new();
                    let mut k2: usize = 0;
                    proof {
                        assert(idsm.subrange(0, 0) =~= Seq::<JsonV>::empty());
                    }
                    while k2 < ids_vec.len()
                        invariant
                            k2 <= ids_vec@.len(),
                            ems == entry_models_of(entries@),
                            spec_resolve_order(ems, idsm.subrange(0, k2 as int)) == Some(
                                models_of(kids@),
                            ),
                            forall|t: int| 0 <= t < kids@.len() ==> (#[trigger] kids@[t]).wf(),
                        decreases ids_vec@.len() - k2,
                    {
                        let ghost prev = models_of(kids@);
                        let idj = &ids_vec[k2];
                        let keystr = match idj {
                            Json::Str(ks) => ks,
                            _ => {
                                proof {
                                    lemma_resolve_order_stops(ems, idsm, k2 as int);
                                }
                                return None;
                            },
                        };
                        match lookup_entry(&entries, keystr.as_str()) {
                            Some(found) => {
                                let c = found.clone();
                                proof {
                                    assert((models_of(kids@.push(c))) == prev.push(c.model())) by {
                                        assert(kids@.push(c).drop_last() =~= kids@);
                                    }
                                    let sub = idsm.subrange(0, k2 + 1);
                                    assert(sub.drop_last() =~= idsm.subrange(0, k2 as int));
                                    assert(sub[sub.len() - 1] == ids_vec@[k2 as int].model());
                                }
                                kids.push(c);
                            },
                            None => {
                                proof {
                                    lemma_resolve_order_stops(ems, idsm, k2 as int);
                                }
                                return None;
                            },
                        }
                        k2 = k2 + 1;
                    }
                    proof {
                        assert(idsm.subrange(0, idsm.len() as int) =~= idsm);
                    }
                    kids
                },
                _ => {
                    return None;
                },
            }
        },
    };
    proof {
        assert(spec_items_of(fms) == Some(models_of(kids@)));
    }
    let n = kids.len();
    let mut ord: Vec<usize> = Vec::new();
    let mut k3: usize = 0;
    while k3 < n
        invariant
            k3 <= n,
            ord@.len() == k3 as int,
            forall|t: int| 0 <= t < k3 ==> (#[trigger] ord@[t]) == t as usize,
        decreases n - k3,
    {
        ord.push(k3);
        k3 = k3 + 1;
    }
    proof {
        assert(ord@ =~= identity_order(n as int));
    }
    let c = Command { value, kind, icon, action, items: Items { items: kids, order: ord } };
    proof {
        assert(c.wf());
        assert(spec_command_of(j.model())->0 =~= c.model());
    }
    Some(c)
}

/// The command tree described by JSON text, or the reason there is none:
/// the text must be valid JSON and must normalize as `spec_command_of`
/// says; failure of the first is a syntax error, of the second a shape
/// error.
pub fn load(text: &str) -> (r: Result<Command, ParseError>)
    ensures
        match r {
            Ok(c) => {
                &&& parsed_json_of(text@) is Some
                &&& spec_command_of(parsed_json_of(text@)->0) == Some(c.model())
                &&& c.wf()
            },
            Err(e) => match e {
                ParseError::InvalidSyntax => parsed_json_of(text@) is None,
                ParseError::InvalidShape => parsed_json_of(text@) is Some && spec_command_of(
                    parsed_json_of(text@)->0,
                ) is None,
            },
        },
{
    match parse_json_text(text) {
        None => Err(ParseError::InvalidSyntax),
        Some(j) => match command_of_json(&j) {
            Some(c) => Ok(c),
            None => Err(ParseError::InvalidShape),
        },
    }
}

} // verus!
