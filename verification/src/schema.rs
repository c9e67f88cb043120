//! The schema of `runsteps.toml`: every field of `[metadata]` and
//! `[[steps]]` with its type, whether it is required, what it means and when
//! it appeared; how a field's type maps to JSON Schema; and how descriptions
//! are wrapped in the readable listing.
use vstd::prelude::*;
use vstd::string::*;
use crate::text::{is_ws, is_ws_exec, chars_of, string_from_chars, push_str, push_chars, str_eq};

verus! {

/// One field of a TOML table.
#[derive(Debug, Clone, Copy)]
pub struct FieldSpec {
    /// The key as written in `runsteps.toml`.
    pub name: &'static str,
    /// The type: `string`, `bool` or `array<string>`.
    pub ty: &'static str,
    /// Whether the field must be present.
    pub required: bool,
    /// What the field is for.
    pub description: &'static str,
    /// The version that introduced the field.
    pub added_in: &'static str,
}

/// A field, every string taken by view.
pub struct FieldView {
    pub name: Seq<char>,
    pub ty: Seq<char>,
    pub required: bool,
    pub description: Seq<char>,
    pub added_in: Seq<char>,
}

impl View for FieldSpec {
    type V = FieldView;

    open spec fn view(&self) -> FieldView {
        FieldView {
            name: self.name@,
            ty: self.ty@,
            required: self.required,
            description: self.description@,
            added_in: self.added_in@,
        }
    }
}

/// The views of a list of fields.
pub open spec fn field_views(fs: Seq<FieldSpec>) -> Seq<FieldView> {
    fs.map_values(|f: FieldSpec| f@)
}

/// A TOML table and its fields.
#[derive(Debug)]
pub struct TableSpec {
    /// The table's name as written in `runsteps.toml`.
    pub name: &'static str,
    /// Its fields.
    pub fields: Vec<FieldSpec>,
}

/// The fields of `[metadata]`.
pub open spec fn metadata_field_views() -> Seq<FieldView> {
    seq![
        FieldView { name: "name"@, ty: "string"@, required: true, description: "Human-readable project name displayed in the picker header."@, added_in: "v0.1.0"@ },
        FieldView { name: "description"@, ty: "string"@, required: false, description: "Optional one-line description shown below the project name."@, added_in: "v0.1.0"@ },
        FieldView { name: "justfile"@, ty: "string"@, required: false, description: "Path to the justfile used for just_recipe steps. Relative paths are resolved from working_directory."@, added_in: "v0.1.0"@ },
        FieldView { name: "working_directory"@, ty: "string"@, required: false, description: "Working directory for all step execution. Relative to the location of runsteps.toml."@, added_in: "v0.1.0"@ },
    ]
}

/// The fields of `[[steps]]`.
pub open spec fn step_field_views() -> Seq<FieldView> {
    seq![
        FieldView { name: "name"@, ty: "string"@, required: true, description: "Unique identifier for the step. Used in depends_on references and history replay."@, added_in: "v0.1.0"@ },
        FieldView { name: "description"@, ty: "string"@, required: true, description: "One-line description shown in the interactive picker."@, added_in: "v0.1.0"@ },
        FieldView { name: "command"@, ty: "string"@, required: false, description: "Shell command executed via sh -c. Mutually exclusive with just_recipe."@, added_in: "v0.1.0"@ },
        FieldView { name: "just_recipe"@, ty: "string"@, required: false, description: "Name of a just recipe to invoke. Mutually exclusive with command."@, added_in: "v0.1.0"@ },
        FieldView { name: "just_no_deps"@, ty: "bool"@, required: false, description: "When true, passes --no-deps to just, skipping the recipe's prerequisites. Has no effect on command steps."@, added_in: "v0.2.0"@ },
        FieldView { name: "group"@, ty: "string"@, required: false, description: "Logical grouping label. Used with --group filtering."@, added_in: "v0.1.0"@ },
        FieldView { name: "confirm"@, ty: "bool"@, required: false, description: "When true, prompts for confirmation before executing the step."@, added_in: "v0.1.0"@ },
        FieldView { name: "depends_on"@, ty: "array<string>"@, required: false, description: "Names of steps that must also be selected."@, added_in: "v0.1.0"@ },
    ]
}

/// The fields of `[metadata]`.
pub fn metadata_fields() -> (r: Vec<FieldSpec>)
    ensures
        field_views(r@) == metadata_field_views(),
{
    let mut r: Vec<FieldSpec> = Vec::new();
    r.push(FieldSpec {
        name: "name",
        ty: "string",
        required: true,
        description: "Human-readable project name displayed in the picker header.",
        added_in: "v0.1.0",
    });
    r.push(FieldSpec {
        name: "description",
        ty: "string",
        required: false,
        description: "Optional one-line description shown below the project name.",
        added_in: "v0.1.0",
    });
    r.push(FieldSpec {
        name: "justfile",
        ty: "string",
        required: false,
        description: "Path to the justfile used for just_recipe steps. Relative paths are resolved from working_directory.",
        added_in: "v0.1.0",
    });
    r.push(FieldSpec {
        name: "working_directory",
        ty: "string",
        required: false,
        description: "Working directory for all step execution. Relative to the location of runsteps.toml.",
        added_in: "v0.1.0",
    });
    assert(field_views(r@) =~= metadata_field_views());
    r
}

/// The fields of `[[steps]]`.
pub fn step_fields() -> (r: Vec<FieldSpec>)
    ensures
        field_views(r@) == step_field_views(),
{
    let mut r: Vec<FieldSpec> = Vec::new();
    r.push(FieldSpec {
        name: "name",
        ty: "string",
        required: true,
        description: "Unique identifier for the step. Used in depends_on references and history replay.",
        added_in: "v0.1.0",
    });
    r.push(FieldSpec {
        name: "description",
        ty: "string",
        required: true,
        description: "One-line description shown in the interactive picker.",
        added_in: "v0.1.0",
    });
    r.push(FieldSpec {
        name: "command",
        ty: "string",
        required: false,
        description: "Shell command executed via sh -c. Mutually exclusive with just_recipe.",
        added_in: "v0.1.0",
    });
    r.push(FieldSpec {
        name: "just_recipe",
        ty: "string",
        required: false,
        description: "Name of a just recipe to invoke. Mutually exclusive with command.",
        added_in: "v0.1.0",
    });
    r.push(FieldSpec {
        name: "just_no_deps",
        ty: "bool",
        required: false,
        description: "When true, passes --no-deps to just, skipping the recipe's prerequisites. Has no effect on command steps.",
        added_in: "v0.2.0",
    });
    r.push(FieldSpec {
        name: "group",
        ty: "string",
        required: false,
        description: "Logical grouping label. Used with --group filtering.",
        added_in: "v0.1.0",
    });
    r.push(FieldSpec {
        name: "confirm",
        ty: "bool",
        required: false,
        description: "When true, prompts for confirmation before executing the step.",
        added_in: "v0.1.0",
    });
    r.push(FieldSpec {
        name: "depends_on",
        ty: "array<string>",
        required: false,
        description: "Names of steps that must also be selected.",
        added_in: "v0.1.0",
    });
    assert(field_views(r@) =~= step_field_views());
    r
}

/// The whole schema: `metadata`, then `steps`.
pub fn schema() -> (r: Vec<TableSpec>)
    ensures
        r@.len() == 2,
        r@[0].name@ == "metadata"@,
        field_views(r@[0].fields@) == metadata_field_views(),
        r@[1].name@ == "steps"@,
        field_views(r@[1].fields@) == step_field_views(),
{
    let mut r: Vec<TableSpec> = Vec::new();
    r.push(TableSpec { name: "metadata", fields: metadata_fields() });
    r.push(TableSpec { name: "steps", fields: step_fields() });
    r
}

// ---------------------------------------------------------------------------
// JSON Schema
// ---------------------------------------------------------------------------

/// The JSON Schema type of a field.
#[derive(Debug, Clone, Copy, PartialEq, Eq, Structural)]
pub enum JsonType {
    /// `{"type": "boolean"}`.
    Boolean,
    /// `{"type": "array", "items": {"type": "string"}}`.
    StringArray,
    /// `{"type": "string"}`.
    Str,
}

/// `bool` fields are booleans, `array<string>` fields arrays of strings,
/// every other field a string.
pub open spec fn json_type_of(ty: Seq<char>) -> JsonType {
    if ty == "bool"@ {
        JsonType::Boolean
    } else if ty == "array<string>"@ {
        JsonType::StringArray
    } else {
        JsonType::Str
    }
}

/// The JSON Schema type of `field`.
pub fn json_type(field: &FieldSpec) -> (r: JsonType)
    ensures
        r == json_type_of(field.ty@),
{
    if str_eq(field.ty, "bool") {
        JsonType::Boolean
    } else if str_eq(field.ty, "array<string>") {
        JsonType::StringArray
    } else {
        JsonType::Str
    }
}

/// The names of the required fields, in order.
pub open spec fn required_of(fs: Seq<FieldView>) -> Seq<Seq<char>>
    decreases fs.len(),
{
    if fs.len() == 0 {
        seq![]
    } else {
        let p = required_of(fs.drop_last());
        if fs.last().required { p.push(fs.last().name) } else { p }
    }
}

/// The names of the required fields of a table, in order.
pub fn required_names(fields: &Vec<FieldSpec>) -> (r: Vec<&'static str>)
    ensures
        r@.map_values(|s: &'static str| s@) == required_of(field_views(fields@)),
{
    let ghost fv = field_views(fields@);
    let mut r: Vec<&'static str> = Vec::new();
    let mut i: usize = 0;
    assert(fv.take(0) =~= Seq::<FieldView>::empty());
    while i < fields.len()
        invariant
            fv == field_views(fields@),
            i <= fields@.len(),
            r@.map_values(|s: &'static str| s@) == required_of(fv.take(i as int)),
        decreases fields@.len() - i,
    {
        let ghost t = fv.take(i + 1);
        assert(t.drop_last() =~= fv.take(i as int));
        assert(t.last() == fields@[i as int]@);
        let ghost before = r@.map_values(|s: &'static str| s@);
        if fields[i].required {
            r.push(fields[i].name);
            assert(r@.map_values(|s: &'static str| s@) =~= before.push(fields@[i as int].name@));
        }
        i = i + 1;
    }
    assert(fv.take(i as int) =~= fv);
    r
}

// ---------------------------------------------------------------------------
// Wrapping descriptions
// ---------------------------------------------------------------------------

/// The width, in bytes, a description line may reach.
pub const WRAP_WIDTH: usize = 68;

/// The words of `s` (maximal runs of non-white-space characters) scanned so
/// far, and the word being read.
pub open spec fn words_scan(s: Seq<char>) -> (Seq<Seq<char>>, Seq<char>)
    decreases s.len(),
{
    if s.len() == 0 {
        (seq![], seq![])
    } else {
        let (ws, cur) = words_scan(s.drop_last());
        if is_ws(s.last()) {
            if cur.len() > 0 { (ws.push(cur), seq![]) } else { (ws, seq![]) }
        } else {
            (ws, cur.push(s.last()))
        }
    }
}

/// The words of `s`, as `split_whitespace` yields them.
pub open spec fn words(s: Seq<char>) -> Seq<Seq<char>> {
    let (ws, cur) = words_scan(s);
    if cur.len() > 0 { ws.push(cur) } else { ws }
}

/// The length of `s` in UTF-8 bytes.
pub open spec fn byte_len(s: Seq<char>) -> nat {
    vstd::utf8::encode_utf8(s).len()
}

/// Greedy filling of lines with `ws`: the finished lines and the open one.
/// A word that would take the open line past the width starts a new line.
pub open spec fn fill_scan(ws: Seq<Seq<char>>) -> (Seq<Seq<char>>, Seq<char>)
    decreases ws.len(),
{
    if ws.len() == 0 {
        (seq![], seq![])
    } else {
        let (lines, line) = fill_scan(ws.drop_last());
        let w = ws.last();
        if line.len() > 0 && byte_len(line) + 1 + byte_len(w) > WRAP_WIDTH {
            (lines.push(line), w)
        } else if line.len() > 0 {
            (lines, line + " "@ + w)
        } else {
            (lines, w)
        }
    }
}

/// The lines a description is shown in: the description itself when it
/// fits, else its words filled greedily into lines of the width.
pub open spec fn wrapped(desc: Seq<char>) -> Seq<Seq<char>> {
    if byte_len(desc) <= WRAP_WIDTH {
        seq![desc]
    } else {
        let (lines, line) = fill_scan(words(desc));
        if line.len() > 0 { lines.push(line) } else { lines }
    }
}

/// The words of `s`.
pub fn split_words(s: &str) -> (r: Vec<String>)
    ensures
        r@.map_values(|w: String| w@) == words(s@),
{
    let c = chars_of(s);
    let mut ws: Vec<String> = Vec::new();
    let mut cur: Vec<char> = Vec::new();
    let mut i: usize = 0;
    assert(s@.take(0) =~= Seq::<char>::empty());
    while i < c.len()
        invariant
            c@ == s@,
            i <= c@.len(),
            (ws@.map_values(|w: String| w@), cur@) == words_scan(s@.take(i as int)),
        decreases c@.len() - i,
    {
        let ghost t = s@.take(i + 1);
        assert(t.drop_last() =~= s@.take(i as int));
        assert(t.last() == c@[i as int]);
        let ghost wb = ws@.map_values(|w: String| w@);
        let ghost cb = cur@;
        if is_ws_exec(c[i]) {
            if cur.len() > 0 {
                let w = string_from_chars(&cur);
                ws.push(w);
                assert(ws@.map_values(|w: String| w@) =~= wb.push(cb));
                cur = Vec::new();
                assert(cur@ =~= Seq::<char>::empty());
            } else {
                cur = Vec::new();
                assert(cur@ =~= Seq::<char>::empty());
            }
        } else {
            cur.push(c[i]);
        }
        i = i + 1;
    }
    assert(s@.take(i as int) =~= s@);
    if cur.len() > 0 {
        let ghost wb = ws@.map_values(|w: String| w@);
        let w = string_from_chars(&cur);
        ws.push(w);
        assert(ws@.map_values(|w: String| w@) =~= wb.push(cur@));
    }
    ws
}

/// The lines of a field description in the readable schema listing.
pub fn wrap_description(desc: &str) -> (r: Vec<String>)
    ensures
        r@.map_values(|l: String| l@) == wrapped(desc@),
{
    let mut r: Vec<String> = Vec::new();
    let dl: usize = desc.as_bytes().len();
    assert(dl == byte_len(desc@));
    if dl <= WRAP_WIDTH {
        let mut out: Vec<char> = Vec::new();
        push_str(&mut out, desc);
        let l = string_from_chars(&out);
        r.push(l);
        assert(r@.map_values(|l: String| l@) =~= seq![desc@]);
        return r;
    }
    let ws = split_words(desc);
    let ghost wv = ws@.map_values(|w: String| w@);
    let mut line: String = String::new();
    let mut i: usize = 0;
    assert(wv.take(0) =~= Seq::<Seq<char>>::empty());
    while i < ws.len()
        invariant
            wv == ws@.map_values(|w: String| w@),
            i <= ws@.len(),
            (r@.map_values(|l: String| l@), line@) == fill_scan(wv.take(i as int)),
        decreases ws@.len() - i,
    {
        let ghost t = wv.take(i + 1);
        assert(t.drop_last() =~= wv.take(i as int));
        assert(t.last() == ws@[i as int]@);
        let ghost rb = r@.map_values(|l: String| l@);
        let ghost lb = line@;
        let w = ws[i].as_str();
        let ll: usize = line.as_str().as_bytes().len();
        let wl: usize = w.as_bytes().len();
        assert(ll == byte_len(lb));
        assert(wl == byte_len(t.last()));
        if line.unicode_len() > 0 && ll as u128 + 1 + wl as u128 > WRAP_WIDTH as u128 {
            let mut out: Vec<char> = Vec::new();
            push_str(&mut out, line.as_str());
            let finished = string_from_chars(&out);
            r.push(finished);
            assert(r@.map_values(|l: String| l@) =~= rb.push(lb));
            let mut nw: Vec<char> = Vec::new();
            push_str(&mut nw, w);
            line = string_from_chars(&nw);
        } else if line.unicode_len() > 0 {
            let mut nw: Vec<char> = Vec::new();
            push_str(&mut nw, line.as_str());
            push_str(&mut nw, " ");
            push_str(&mut nw, w);
            line = string_from_chars(&nw);
        } else {
            let mut nw: Vec<char> = Vec::new();
            push_str(&mut nw, w);
            line = string_from_chars(&nw);
        }
        i = i + 1;
    }
    assert(wv.take(i as int) =~= wv);
    if line.unicode_len() > 0 {
        let ghost rb = r@.map_values(|l: String| l@);
        r.push(line);
        assert(r@.map_values(|l: String| l@) =~= rb.push(fill_scan(wv).1));
    }
    r
}

} // verus!
