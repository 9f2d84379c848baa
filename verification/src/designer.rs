//! The card designer's choices: which template is selected, what a change
//! of layout keeps, how saved or previous field and colour values carry
//! over to a newly detected template, and a few labels.
use vstd::prelude::*;
use crate::card::{CardConfig, CardLayout};
use crate::history::{SavedColor, SavedField, SavedTemplateState};
use crate::lang::{lower_case, to_lower, Lang};
use crate::render::str_eq;
use crate::template::{BuiltinTemplate, RemoteTemplate, TemplateColor, TemplateField};
use crate::text::{chars_of, find_first, push_char, push_chars, push_str};

verus! {

// ─── Template selection ──────────────────────────────────────────────────────

/// Where the selected template comes from. The selection is an index: 0
/// for none, then the built-in templates, then the custom file, then the
/// remote templates.
#[derive(Clone, Copy, PartialEq, Eq, Debug, Structural)]
pub enum TemplateSource {
    NoTemplate,
    Builtin(usize),
    Custom,
    Remote(usize),
}

/// The source of selection `idx` with `n` built-in templates.
pub open spec fn template_source_spec(idx: nat, n: nat) -> TemplateSource {
    if idx == 0 {
        TemplateSource::NoTemplate
    } else if idx <= n {
        TemplateSource::Builtin((idx - 1) as usize)
    } else if idx == n + 1 {
        TemplateSource::Custom
    } else {
        TemplateSource::Remote((idx - n - 2) as usize)
    }
}

/// The source of selection `idx` with `builtin_count` built-in templates.
pub fn template_source(idx: usize, builtin_count: usize) -> (s: TemplateSource)
    requires
        builtin_count < usize::MAX,
    ensures
        s == template_source_spec(idx as nat, builtin_count as nat),
{
    if idx == 0 {
        TemplateSource::NoTemplate
    } else if idx <= builtin_count {
        TemplateSource::Builtin(idx - 1)
    } else if idx == builtin_count + 1 {
        TemplateSource::Custom
    } else {
        TemplateSource::Remote(idx - builtin_count - 2)
    }
}

/// The SVG of the selected template: the built-in one, the custom file,
/// or the remote one once downloaded.
pub open spec fn selected_svg_spec(
    idx: nat,
    builtins: Seq<BuiltinTemplate>,
    custom: Option<String>,
    remotes: Seq<RemoteTemplate>,
) -> Option<Seq<char>> {
    match template_source_spec(idx, builtins.len()) {
        TemplateSource::NoTemplate => None,
        TemplateSource::Builtin(i) => Some(builtins[i as int].svg@),
        TemplateSource::Custom => match custom {
            Some(s) => Some(s@),
            None => None,
        },
        TemplateSource::Remote(i) => if i < remotes.len() {
            match remotes[i as int].svg {
                Some(s) => Some(s@),
                None => None,
            }
        } else {
            None
        },
    }
}

/// The SVG of the selected template, if there is one to render.
pub fn selected_template_svg(
    idx: usize,
    builtins: &[BuiltinTemplate],
    custom: &Option<String>,
    remotes: &[RemoteTemplate],
) -> (r: Option<String>)
    requires
        builtins@.len() < usize::MAX,
    ensures
        match selected_svg_spec(idx as nat, builtins@, *custom, remotes@) {
            Some(s) => r matches Some(x) && x@ == s,
            None => r is None,
        },
{
    match template_source(idx, builtins.len()) {
        TemplateSource::NoTemplate => None,
        TemplateSource::Builtin(i) => Some(builtins[i].svg.to_owned()),
        TemplateSource::Custom => match custom {
            Some(s) => Some(s.clone()),
            None => None,
        },
        TemplateSource::Remote(i) => if i < remotes.len() {
            match &remotes[i].svg {
                Some(s) => Some(s.clone()),
                None => None,
            }
        } else {
            None
        },
    }
}

/// The name shown for the selected template.
pub open spec fn selected_label_spec(idx: nat, builtins: Seq<BuiltinTemplate>, remotes: Seq<RemoteTemplate>) -> Seq<char> {
    match template_source_spec(idx, builtins.len()) {
        TemplateSource::NoTemplate => "Aucun"@,
        TemplateSource::Builtin(i) => builtins[i as int].name@,
        TemplateSource::Custom => "Personnalisé"@,
        TemplateSource::Remote(i) => if i < remotes.len() {
            remotes[i as int].name@
        } else {
            Seq::empty()
        },
    }
}

/// The name shown for the selected template.
pub fn selected_template_label(idx: usize, builtins: &[BuiltinTemplate], remotes: &[RemoteTemplate]) -> (r: String)
    requires
        builtins@.len() < usize::MAX,
    ensures
        r@ == selected_label_spec(idx as nat, builtins@, remotes@),
{
    match template_source(idx, builtins.len()) {
        TemplateSource::NoTemplate => "Aucun".to_owned(),
        TemplateSource::Builtin(i) => builtins[i].name.to_owned(),
        TemplateSource::Custom => "Personnalisé".to_owned(),
        TemplateSource::Remote(i) => if i < remotes.len() {
            remotes[i].name.clone()
        } else {
            let r = String::new();
            r
        },
    }
}

/// The selection index of the built-in template `id`: its position plus
/// one, or 0 when there is none.
pub open spec fn builtin_index_from(builtins: Seq<BuiltinTemplate>, id: Seq<char>, i: int) -> nat
    decreases builtins.len() - i,
{
    if i < 0 || i >= builtins.len() {
        0
    } else if builtins[i].id@ == id {
        (i + 1) as nat
    } else {
        builtin_index_from(builtins, id, i + 1)
    }
}

/// The selection index that restores a saved template state: its
/// built-in template, else the custom file, else none.
pub open spec fn restored_index_spec(state: SavedTemplateState, builtins: Seq<BuiltinTemplate>) -> nat {
    match state.builtin_id {
        Some(id) => builtin_index_from(builtins, id@, 0),
        None => if state.custom_svg is Some {
            builtins.len() + 1
        } else {
            0
        },
    }
}

/// The selection index that restores a saved template state.
pub fn restored_template_index(state: &SavedTemplateState, builtins: &[BuiltinTemplate]) -> (r: usize)
    requires
        builtins@.len() < usize::MAX,
    ensures
        r == restored_index_spec(*state, builtins@),
{
    match &state.builtin_id {
        Some(id) => {
            let mut i: usize = 0;
            while i < builtins.len()
                invariant
                    i <= builtins@.len(),
                    builtins@.len() < usize::MAX,
                    restored_index_spec(*state, builtins@) == builtin_index_from(builtins@, id@, 0),
                    builtin_index_from(builtins@, id@, 0) == builtin_index_from(builtins@, id@, i as int),
                decreases builtins@.len() - i,
            {
                if str_eq(builtins[i].id, id.as_str()) {
                    return i + 1;
                }
                i = i + 1;
            }
            0
        },
        None => if state.custom_svg.is_some() {
            builtins.len() + 1
        } else {
            0
        },
    }
}

/// Whether a built-in template has identifier `id`.
pub open spec fn is_builtin_spec(builtins: Seq<BuiltinTemplate>, id: Seq<char>) -> bool {
    exists|i: int| 0 <= i < builtins.len() && (#[trigger] builtins[i]).id@ == id
}

fn is_builtin(builtins: &[BuiltinTemplate], id: &str) -> (r: bool)
    ensures
        r == is_builtin_spec(builtins@, id@),
{
    let mut i: usize = 0;
    while i < builtins.len()
        invariant
            i <= builtins@.len(),
            forall|k: int| 0 <= k < i ==> (#[trigger] builtins@[k]).id@ != id@,
        decreases builtins@.len() - i,
    {
        if str_eq(builtins[i].id, id) {
            return true;
        }
        i = i + 1;
    }
    false
}

/// The remote templates that are not built in, in the order listed.
pub fn extra_remote_templates(list: Vec<RemoteTemplate>, builtins: &[BuiltinTemplate]) -> (r: Vec<RemoteTemplate>)
    ensures
        r@ == list@.filter(|t: RemoteTemplate| !is_builtin_spec(builtins@, t.id@)),
{
    let ghost orig = list@;
    let ghost n = orig.len();
    let mut kept: Vec<RemoteTemplate> = Vec::new();
    let mut rest = list;
    proof {
        assert(orig.subrange(0, 0) =~= Seq::<RemoteTemplate>::empty());
        reveal(Seq::filter);
        assert(orig.subrange(0, n as int) =~= orig);
    }
    while rest.len() > 0
        invariant
            n == orig.len(),
            rest@.len() <= n,
            rest@ == orig.subrange(n - rest@.len(), n as int),
            kept@ == orig.subrange(0, n - rest@.len()).filter(|t: RemoteTemplate| !is_builtin_spec(builtins@, t.id@)),
        decreases rest@.len(),
    {
        let ghost i = n - rest@.len();
        let t = rest.remove(0);
        proof {
            assert(orig.subrange(0, i + 1).drop_last() =~= orig.subrange(0, i));
            assert(rest@ =~= orig.subrange(n - rest@.len(), n as int));
            reveal(Seq::filter);
        }
        if !is_builtin(builtins, t.id.as_str()) {
            kept.push(t);
        }
    }
    kept
}

// ─── Carrying values over ────────────────────────────────────────────────────

/// The view of a template field: (variable, label, default, value, shown).
pub open spec fn tfield_view(f: TemplateField) -> (Seq<char>, Seq<char>, Seq<char>, Seq<char>, bool) {
    (f.var@, f.label@, f.default@, f.value@, f.visible)
}

/// The value and visibility of the first field named `var` from `i` on.
pub open spec fn first_state(fs: Seq<(Seq<char>, Seq<char>, bool)>, var: Seq<char>, i: int) -> Option<(Seq<char>, bool)>
    decreases fs.len() - i,
{
    if i < 0 || i >= fs.len() {
        None
    } else if fs[i].0 == var {
        Some((fs[i].1, fs[i].2))
    } else {
        first_state(fs, var, i + 1)
    }
}

/// A detected field with the value and visibility of the first earlier
/// field of the same name, when there is one.
pub open spec fn carried_field(
    f: (Seq<char>, Seq<char>, Seq<char>, Seq<char>, bool),
    states: Seq<(Seq<char>, Seq<char>, bool)>,
) -> (Seq<char>, Seq<char>, Seq<char>, Seq<char>, bool) {
    match first_state(states, f.0, 0) {
        Some(s) => (f.0, f.1, f.2, s.0, s.1),
        None => f,
    }
}

/// The (variable, value, shown) states of saved fields.
pub open spec fn saved_states(fs: Seq<SavedField>) -> Seq<(Seq<char>, Seq<char>, bool)> {
    Seq::new(fs.len(), |i: int| (fs[i].var@, fs[i].value@, fs[i].visible))
}

/// The (variable, value, shown) states of template fields.
pub open spec fn field_states(fs: Seq<TemplateField>) -> Seq<(Seq<char>, Seq<char>, bool)> {
    Seq::new(fs.len(), |i: int| (fs[i].var@, fs[i].value@, fs[i].visible))
}

/// The (variable, value, shown) states held in a list of strings.
pub open spec fn state_list(v: Seq<(String, String, bool)>) -> Seq<(Seq<char>, Seq<char>, bool)> {
    Seq::new(v.len(), |i: int| (v[i].0@, v[i].1@, v[i].2))
}

fn find_state(states: &Vec<(String, String, bool)>, var: &str) -> (r: Option<(String, bool)>)
    ensures
        match first_state(state_list(states@), var@, 0) {
            Some(s) => r matches Some(x) && x.0@ == s.0 && x.1 == s.1,
            None => r is None,
        },
{
    let ghost sv = state_list(states@);
    let mut i: usize = 0;
    while i < states.len()
        invariant
            sv == state_list(states@),
            i <= states@.len(),
            first_state(sv, var@, 0) == first_state(sv, var@, i as int),
        decreases states@.len() - i,
    {
        if str_eq(states[i].0.as_str(), var) {
            return Some((states[i].1.clone(), states[i].2));
        }
        i = i + 1;
    }
    None
}

fn carry_fields(detected: Vec<TemplateField>, states: &Vec<(String, String, bool)>) -> (r: Vec<TemplateField>)
    ensures
        r@.len() == detected@.len(),
        forall|k: int|
            0 <= k < r@.len() ==> tfield_view(#[trigger] r@[k]) == carried_field(tfield_view(detected@[k]), state_list(states@)),
{
    let ghost sv = state_list(states@);
    let ghost orig = detected@;
    let mut rest = detected;
    let mut out: Vec<TemplateField> = Vec::new();
    while rest.len() > 0
        invariant
            sv == state_list(states@),
            out@.len() + rest@.len() == orig.len(),
            rest@ == orig.subrange(out@.len() as int, orig.len() as int),
            forall|k: int| 0 <= k < out@.len() ==> tfield_view(#[trigger] out@[k]) == carried_field(tfield_view(orig[k]), sv),
        decreases rest@.len(),
    {
        let ghost k = out@.len() as int;
        let f = rest.remove(0);
        assert(f == orig[k]);
        let found = find_state(states, f.var.as_str());
        let g = match found {
            Some((value, visible)) => TemplateField { var: f.var, label: f.label, default: f.default, value, visible },
            None => f,
        };
        out.push(g);
        assert(rest@ =~= orig.subrange(out@.len() as int, orig.len() as int));
    }
    out
}

/// Gives the detected fields of a template the values and visibility
/// saved in a library entry, matching by variable.
pub fn restore_fields(detected: Vec<TemplateField>, saved: &[SavedField]) -> (r: Vec<TemplateField>)
    ensures
        r@.len() == detected@.len(),
        forall|k: int| 0 <= k < r@.len() ==> tfield_view(#[trigger] r@[k]) == carried_field(tfield_view(detected@[k]), saved_states(saved@)),
{
    let mut states: Vec<(String, String, bool)> = Vec::new();
    let mut i: usize = 0;
    while i < saved.len()
        invariant
            i <= saved@.len(),
            states@.len() == i,
            state_list(states@) == saved_states(saved@).subrange(0, i as int),
        decreases saved@.len() - i,
    {
        let ghost before = states@;
        states.push((saved[i].var.clone(), saved[i].value.clone(), saved[i].visible));
        assert forall|j: int| 0 <= j < i implies #[trigger] state_list(states@)[j] == state_list(before)[j] by {
            assert(states@[j] == before[j]);
        }
        assert(state_list(states@) =~= saved_states(saved@).subrange(0, i + 1));
        i = i + 1;
    }
    assert(saved_states(saved@).subrange(0, i as int) =~= saved_states(saved@));
    carry_fields(detected, &states)
}

/// Keeps, in the fields newly detected in a template, the values and
/// visibility the fields of the same name had before.
pub fn keep_field_state(detected: Vec<TemplateField>, previous: &[TemplateField]) -> (r: Vec<TemplateField>)
    ensures
        r@.len() == detected@.len(),
        forall|k: int| 0 <= k < r@.len() ==> tfield_view(#[trigger] r@[k]) == carried_field(tfield_view(detected@[k]), field_states(previous@)),
{
    let mut states: Vec<(String, String, bool)> = Vec::new();
    let mut i: usize = 0;
    while i < previous.len()
        invariant
            i <= previous@.len(),
            states@.len() == i,
            state_list(states@) == field_states(previous@).subrange(0, i as int),
        decreases previous@.len() - i,
    {
        let ghost before = states@;
        states.push((previous[i].var.clone(), previous[i].value.clone(), previous[i].visible));
        assert forall|j: int| 0 <= j < i implies #[trigger] state_list(states@)[j] == state_list(before)[j] by {
            assert(states@[j] == before[j]);
        }
        assert(state_list(states@) =~= field_states(previous@).subrange(0, i + 1));
        i = i + 1;
    }
    assert(field_states(previous@).subrange(0, i as int) =~= field_states(previous@));
    carry_fields(detected, &states)
}

/// The view of a template colour: (variable, label, default, value).
pub open spec fn tcolor_view(c: TemplateColor) -> (Seq<char>, Seq<char>, Seq<u8>, Seq<u8>) {
    (c.var@, c.label@, c.default@, c.value@)
}

/// The value of the first colour named `var` from `i` on.
pub open spec fn first_color(cs: Seq<(Seq<char>, Seq<u8>)>, var: Seq<char>, i: int) -> Option<Seq<u8>>
    decreases cs.len() - i,
{
    if i < 0 || i >= cs.len() {
        None
    } else if cs[i].0 == var {
        Some(cs[i].1)
    } else {
        first_color(cs, var, i + 1)
    }
}

/// A detected colour with the value of the first earlier colour of the
/// same name, when there is one.
pub open spec fn carried_color(c: (Seq<char>, Seq<char>, Seq<u8>, Seq<u8>), values: Seq<(Seq<char>, Seq<u8>)>) -> (
    Seq<char>,
    Seq<char>,
    Seq<u8>,
    Seq<u8>,
) {
    match first_color(values, c.0, 0) {
        Some(v) => (c.0, c.1, c.2, v),
        None => c,
    }
}

/// The (variable, colour) values held in a list.
pub open spec fn value_list(v: Seq<(String, [u8; 3])>) -> Seq<(Seq<char>, Seq<u8>)> {
    Seq::new(v.len(), |i: int| (v[i].0@, v[i].1@))
}

fn find_color(values: &Vec<(String, [u8; 3])>, var: &str) -> (r: Option<[u8; 3]>)
    ensures
        match first_color(value_list(values@), var@, 0) {
            Some(v) => r matches Some(x) && x@ == v,
            None => r is None,
        },
{
    let ghost vs = value_list(values@);
    let mut j: usize = 0;
    while j < values.len()
        invariant
            vs == value_list(values@),
            j <= values@.len(),
            first_color(vs, var@, 0) == first_color(vs, var@, j as int),
        decreases values@.len() - j,
    {
        if str_eq(values[j].0.as_str(), var) {
            return Some(values[j].1);
        }
        j = j + 1;
    }
    None
}

fn carry_colors(detected: Vec<TemplateColor>, values: &Vec<(String, [u8; 3])>) -> (r: Vec<TemplateColor>)
    ensures
        r@.len() == detected@.len(),
        forall|k: int|
            0 <= k < r@.len() ==> tcolor_view(#[trigger] r@[k]) == carried_color(tcolor_view(detected@[k]), value_list(values@)),
{
    let ghost vs = value_list(values@);
    let ghost orig = detected@;
    let mut rest = detected;
    let mut out: Vec<TemplateColor> = Vec::new();
    while rest.len() > 0
        invariant
            vs == value_list(values@),
            out@.len() + rest@.len() == orig.len(),
            rest@ == orig.subrange(out@.len() as int, orig.len() as int),
            forall|k: int| 0 <= k < out@.len() ==> tcolor_view(#[trigger] out@[k]) == carried_color(tcolor_view(orig[k]), vs),
        decreases rest@.len(),
    {
        let ghost k = out@.len() as int;
        let c = rest.remove(0);
        assert(c == orig[k]);
        let found = find_color(values, c.var.as_str());
        let d = match found {
            Some(v) => TemplateColor { var: c.var, label: c.label, default: c.default, value: v },
            None => c,
        };
        out.push(d);
        assert(rest@ =~= orig.subrange(out@.len() as int, orig.len() as int));
    }
    out
}

/// The (variable, colour) values of saved colours.
pub open spec fn saved_colors(cs: Seq<SavedColor>) -> Seq<(Seq<char>, Seq<u8>)> {
    Seq::new(cs.len(), |i: int| (cs[i].var@, cs[i].value@))
}

/// The (variable, colour) values of template colours.
pub open spec fn color_values(cs: Seq<TemplateColor>) -> Seq<(Seq<char>, Seq<u8>)> {
    Seq::new(cs.len(), |i: int| (cs[i].var@, cs[i].value@))
}

/// Gives the detected colours of a template the values saved in a library
/// entry, matching by variable.
pub fn restore_colors(detected: Vec<TemplateColor>, saved: &[SavedColor]) -> (r: Vec<TemplateColor>)
    ensures
        r@.len() == detected@.len(),
        forall|k: int| 0 <= k < r@.len() ==> tcolor_view(#[trigger] r@[k]) == carried_color(tcolor_view(detected@[k]), saved_colors(saved@)),
{
    let mut values: Vec<(String, [u8; 3])> = Vec::new();
    let mut i: usize = 0;
    while i < saved.len()
        invariant
            i <= saved@.len(),
            values@.len() == i,
            value_list(values@) == saved_colors(saved@).subrange(0, i as int),
        decreases saved@.len() - i,
    {
        let ghost before = values@;
        values.push((saved[i].var.clone(), saved[i].value));
        assert forall|j: int| 0 <= j < i implies #[trigger] value_list(values@)[j] == value_list(before)[j] by {
            assert(values@[j] == before[j]);
        }
        assert(value_list(values@) =~= saved_colors(saved@).subrange(0, i + 1));
        i = i + 1;
    }
    assert(saved_colors(saved@).subrange(0, i as int) =~= saved_colors(saved@));
    carry_colors(detected, &values)
}

/// Keeps, in the colours newly detected in a template, the values the
/// colours of the same name had before.
pub fn keep_color_state(detected: Vec<TemplateColor>, previous: &[TemplateColor]) -> (r: Vec<TemplateColor>)
    ensures
        r@.len() == detected@.len(),
        forall|k: int| 0 <= k < r@.len() ==> tcolor_view(#[trigger] r@[k]) == carried_color(tcolor_view(detected@[k]), color_values(previous@)),
{
    let mut values: Vec<(String, [u8; 3])> = Vec::new();
    let mut i: usize = 0;
    while i < previous.len()
        invariant
            i <= previous@.len(),
            values@.len() == i,
            value_list(values@) == color_values(previous@).subrange(0, i as int),
        decreases previous@.len() - i,
    {
        let ghost before = values@;
        values.push((previous[i].var.clone(), previous[i].value));
        assert forall|j: int| 0 <= j < i implies #[trigger] value_list(values@)[j] == value_list(before)[j] by {
            assert(values@[j] == before[j]);
        }
        assert(value_list(values@) =~= color_values(previous@).subrange(0, i + 1));
        i = i + 1;
    }
    assert(color_values(previous@).subrange(0, i as int) =~= color_values(previous@));
    carry_colors(detected, &values)
}

// ─── Saving the designer's state ─────────────────────────────────────────────

/// Whether a saved state records selection `idx`: the identifier of the
/// built-in template, or the SVG of the custom or remote one.
pub open spec fn records_selection(
    s: SavedTemplateState,
    idx: nat,
    builtins: Seq<BuiltinTemplate>,
    custom: Option<String>,
    remotes: Seq<RemoteTemplate>,
) -> bool {
    &&& match template_source_spec(idx, builtins.len()) {
        TemplateSource::Builtin(i) => s.builtin_id matches Some(b) && b@ == builtins[i as int].id@,
        _ => s.builtin_id is None,
    }
    &&& match selected_svg_spec(idx, builtins, custom, remotes) {
        Some(svg) => match template_source_spec(idx, builtins.len()) {
            TemplateSource::Builtin(_) => s.custom_svg is None,
            _ => s.custom_svg matches Some(c) && c@ == svg,
        },
        None => s.custom_svg is None,
    }
}

fn saved_fields_of(fields: &[TemplateField]) -> (r: Vec<SavedField>)
    ensures
        saved_states(r@) == field_states(fields@),
{
    let mut out: Vec<SavedField> = Vec::new();
    let mut i: usize = 0;
    while i < fields.len()
        invariant
            i <= fields@.len(),
            out@.len() == i,
            forall|k: int| 0 <= k < i ==> #[trigger] saved_states(out@)[k] == field_states(fields@)[k],
        decreases fields@.len() - i,
    {
        let ghost before = out@;
        out.push(SavedField { var: fields[i].var.clone(), value: fields[i].value.clone(), visible: fields[i].visible });
        assert forall|k: int| 0 <= k < i implies #[trigger] saved_states(out@)[k] == saved_states(before)[k] by {
            assert(out@[k] == before[k]);
        }
        i = i + 1;
    }
    assert(saved_states(out@) =~= field_states(fields@));
    out
}

fn saved_colors_of(colors: &[TemplateColor]) -> (r: Vec<SavedColor>)
    ensures
        saved_colors(r@) == color_values(colors@),
{
    let mut out: Vec<SavedColor> = Vec::new();
    let mut i: usize = 0;
    while i < colors.len()
        invariant
            i <= colors@.len(),
            out@.len() == i,
            forall|k: int| 0 <= k < i ==> #[trigger] saved_colors(out@)[k] == color_values(colors@)[k],
        decreases colors@.len() - i,
    {
        let ghost before = out@;
        out.push(SavedColor { var: colors[i].var.clone(), value: colors[i].value });
        assert forall|k: int| 0 <= k < i implies #[trigger] saved_colors(out@)[k] == saved_colors(before)[k] by {
            assert(out@[k] == before[k]);
        }
        i = i + 1;
    }
    assert(saved_colors(out@) =~= color_values(colors@));
    out
}

/// The designer's state as a library entry keeps it: the selected
/// template (built-in by identifier, custom or remote by its SVG), the
/// template's field and colour values, and the card.
pub fn template_state(
    idx: usize,
    builtins: &[BuiltinTemplate],
    custom: &Option<String>,
    remotes: &[RemoteTemplate],
    fields: &[TemplateField],
    colors: &[TemplateColor],
    card: CardConfig,
) -> (s: SavedTemplateState)
    requires
        builtins@.len() < usize::MAX,
    ensures
        records_selection(s, idx as nat, builtins@, *custom, remotes@),
        saved_states(s.fields@) == field_states(fields@),
        saved_colors(s.colors@) == color_values(colors@),
        s.card == Some(card),
{
    let builtin_id = match template_source(idx, builtins.len()) {
        TemplateSource::Builtin(i) => Some(builtins[i].id.to_owned()),
        _ => None,
    };
    let custom_svg = match template_source(idx, builtins.len()) {
        TemplateSource::Builtin(_) => None,
        _ => selected_template_svg(idx, builtins, custom, remotes),
    };
    SavedTemplateState {
        builtin_id,
        custom_svg,
        fields: saved_fields_of(fields),
        colors: saved_colors_of(colors),
        card: Some(card),
    }
}

/// Whether no two built-in templates share an identifier.
pub open spec fn builtin_ids_unique(builtins: Seq<BuiltinTemplate>) -> bool {
    forall|i: int, j: int| 0 <= i < j < builtins.len() ==> builtins[i].id@ != builtins[j].id@
}

proof fn lemma_builtin_index_found(builtins: Seq<BuiltinTemplate>, id: Seq<char>, i: int, k: int)
    requires
        builtin_ids_unique(builtins),
        0 <= i <= k < builtins.len(),
        builtins[k].id@ == id,
    ensures
        builtin_index_from(builtins, id, i) == k + 1,
    decreases k - i,
{
    if i < k {
        assert(builtins[i].id@ != builtins[k].id@);
        lemma_builtin_index_found(builtins, id, i + 1, k);
    }
}

/// Reloading a saved entry selects the template that was selected when it
/// was saved: none, a built-in template (their identifiers being distinct),
/// or the custom file. A remote template comes back as the custom file,
/// since only its SVG is kept.
pub proof fn law_saved_selection_restores(
    s: SavedTemplateState,
    idx: nat,
    builtins: Seq<BuiltinTemplate>,
    custom: Option<String>,
    remotes: Seq<RemoteTemplate>,
)
    requires
        records_selection(s, idx, builtins, custom, remotes),
        builtin_ids_unique(builtins),
        builtins.len() < usize::MAX,
    ensures
        idx <= builtins.len() ==> restored_index_spec(s, builtins) == idx,
        idx == builtins.len() + 1 && custom is Some ==> restored_index_spec(s, builtins) == idx,
        idx > builtins.len() + 1 && selected_svg_spec(idx, builtins, custom, remotes) is Some ==> restored_index_spec(s, builtins)
            == builtins.len() + 1,
{
    if 1 <= idx <= builtins.len() {
        let i = idx - 1;
        assert(((idx - 1) as usize) as int == i);
        lemma_builtin_index_found(builtins, builtins[i as int].id@, 0, i as int);
    }
}

// ─── Layout change ───────────────────────────────────────────────────────────

/// The fields after a change of layout: the new layout's empty fields,
/// each filled with the old field at the same position, if any.
pub open spec fn relaid_fields(old: Seq<Seq<char>>, n: nat) -> Seq<Seq<char>> {
    Seq::new(n, |i: int| if i < old.len() { old[i] } else { Seq::empty() })
}

/// Switches the card to another layout: default colours, and the old
/// field texts kept in the new layout's fields.
pub fn change_layout(card: &mut CardConfig, layout: CardLayout)
    ensures
        final(card).layout == layout,
        final(card).bg_color@ == seq![255u8, 255, 255],
        final(card).text_color@ == seq![30u8, 30, 30],
        final(card).accent_color@ == seq![50u8, 100, 200],
        crate::card::fields_view(*final(card)) == relaid_fields(crate::card::fields_view(*old(card)), layout.field_labels_spec().len()),
{
    let ghost old_fields = crate::card::fields_view(*card);
    let mut fresh = CardConfig::new(layout);
    let n = fresh.fields.len();
    let mut old_list: Vec<String> = Vec::new();
    std::mem::swap(&mut old_list, &mut card.fields);
    assert(Seq::new(old_list@.len(), |i: int| old_list@[i]@) == old_fields);
    let mut fields: Vec<String> = Vec::new();
    let mut i: usize = 0;
    while i < n
        invariant
            n == layout.field_labels_spec().len(),
            i <= n,
            Seq::new(old_list@.len(), |j: int| old_list@[j]@) == old_fields,
            fields@.len() == i,
            forall|j: int| 0 <= j < i ==> (#[trigger] fields@[j])@ == relaid_fields(old_fields, n as nat)[j],
        decreases n - i,
    {
        if i < old_list.len() {
            fields.push(old_list[i].clone());
        } else {
            fields.push(String::new());
        }
        i = i + 1;
    }
    fresh.fields = fields;
    *card = fresh;
    assert(crate::card::fields_view(*card) =~= relaid_fields(old_fields, n as nat));
}

// ─── Labels ──────────────────────────────────────────────────────────────────

/// The first 60 characters of an encoded text followed by `…` when it is
/// longer, the text itself otherwise.
pub open spec fn preview_text_spec(s: Seq<char>) -> Seq<char> {
    if s.len() > 60 {
        s.subrange(0, 60).push('…')
    } else {
        s
    }
}

/// The preview of an encoded text shown in the library.
pub fn preview_text(s: &str) -> (r: String)
    ensures
        r@ == preview_text_spec(s@),
{
    let v = chars_of(s);
    let mut out = String::new();
    if v.len() > 60 {
        push_chars(&mut out, v.as_slice(), 0, 60);
        push_char(&mut out, '…');
    } else {
        push_chars(&mut out, v.as_slice(), 0, v.len());
        assert(v@.subrange(0, v@.len() as int) =~= v@);
    }
    out
}

/// Whether a download error means the machine is offline: its lower case
/// mentions DNS, a connection, a timeout, the network or a refusal.
pub open spec fn is_offline_spec(e: Seq<char>) -> bool {
    let l = lower_case(e);
    ||| find_first(l, "dns"@) is Some
    ||| find_first(l, "connect"@) is Some
    ||| find_first(l, "timeout"@) is Some
    ||| find_first(l, "network"@) is Some
    ||| find_first(l, "refused"@) is Some
}

fn contains_chars(v: &Vec<char>, pat: &str) -> (r: bool)
    ensures
        r == (find_first(v@, pat@) is Some),
{
    let p = chars_of(pat);
    let len = v.len();
    assert(v@.subrange(0, len as int) =~= v@);
    crate::text::find_chars(v.as_slice(), 0, len, p.as_slice()).is_some()
}

/// Whether a download error means the machine is offline.
pub fn is_offline_error(e: &str) -> (r: bool)
    ensures
        r == is_offline_spec(e@),
{
    let l = to_lower(e);
    let v = chars_of(l.as_str());
    contains_chars(&v, "dns") || contains_chars(&v, "connect") || contains_chars(&v, "timeout") || contains_chars(&v, "network")
        || contains_chars(&v, "refused")
}

/// The profile in use: the selected one, else the first, else none.
pub open spec fn profile_index_spec(selected: nat, count: nat) -> Option<nat> {
    if selected < count {
        Some(selected)
    } else if count > 0 {
        Some(0)
    } else {
        None
    }
}

/// The index of the profile in use.
pub fn profile_index(selected: usize, count: usize) -> (r: Option<usize>)
    ensures
        match profile_index_spec(selected as nat, count as nat) {
            Some(i) => r == Some(i as usize),
            None => r is None,
        },
{
    if selected < count {
        Some(selected)
    } else if count > 0 {
        Some(0)
    } else {
        None
    }
}

/// The selection after a profile is removed: kept when still valid, the
/// last profile otherwise (0 when none is left).
pub fn selection_after_removal(selected: usize, count: usize) -> (r: usize)
    ensures
        r as int == (if selected >= count {
            if count > 0 {
                count - 1
            } else {
                0
            }
        } else {
            selected as int
        }),
{
    if selected >= count {
        if count > 0 {
            count - 1
        } else {
            0
        }
    } else {
        selected
    }
}

} // verus!
