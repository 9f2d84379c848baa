//! Template rendering: colour and default-text slots, `{{NAME}}` variable
//! substitution, and the variables of a card.
use vstd::prelude::*;
use crate::card::{canvas_h, canvas_w, fields_view, lemma_canvas_bounds, raster_ok, raster_png, CardConfig, CardLayout};
use crate::raster::{png_data_uri, png_rgba, push_png_data_uri, RgbaRaster};
use crate::scale::{f32_scale, f32_scale_exec, lemma_scale_below_one};
use crate::template::{
    accent_rect_spec, calc_accent_rect, calc_qr_sz, calc_qr_x, calc_qr_y, calc_text_geometry, qr_sz_spec, qr_x_spec,
    qr_y_spec, text_geometry_spec, TemplateColor, TemplateField,
};
use crate::text::{
    chars_of, decimal, hex_color, hex_digit_char, int_decimal, push_decimal, push_hex_color, push_int,
    push_xml_escaped, find_chars, find_first, lemma_find_from_none, lemma_find_from_some, push_char, push_chars, push_str,
    xml_escape_char, xml_escaped, has_infix, lemma_infix_extend, law_xml_escaped_is_safe,
};

verus! {

// ─── Counting `{` ─────────────────────────────────────────────────────────────

/// The number of `{` in `s`.
pub open spec fn count_open(s: Seq<char>) -> nat
    decreases s.len(),
{
    if s.len() == 0 {
        0
    } else {
        count_open(s.drop_last()) + if s.last() == '{' {
            1nat
        } else {
            0nat
        }
    }
}

pub proof fn lemma_count_open_add(a: Seq<char>, b: Seq<char>)
    ensures
        count_open(a + b) == count_open(a) + count_open(b),
    decreases b.len(),
{
    if b.len() > 0 {
        assert((a + b).drop_last() =~= a + b.drop_last());
        lemma_count_open_add(a, b.drop_last());
    } else {
        assert(a + b =~= a);
    }
}

pub proof fn lemma_count_open_sub(s: Seq<char>, i: int, j: int, k: int)
    requires
        0 <= i <= j <= k <= s.len(),
    ensures
        count_open(s.subrange(i, k)) == count_open(s.subrange(i, j)) + count_open(s.subrange(j, k)),
{
    assert(s.subrange(i, k) =~= s.subrange(i, j) + s.subrange(j, k));
    lemma_count_open_add(s.subrange(i, j), s.subrange(j, k));
}

/// Escaping for XML leaves the `{` of a text as they are.
pub proof fn lemma_count_open_escaped(s: Seq<char>)
    ensures
        count_open(xml_escaped(s)) == count_open(s),
    decreases s.len(),
{
    if s.len() > 0 {
        lemma_count_open_escaped(s.drop_last());
        let c = s.last();
        lemma_count_open_add(xml_escaped(s.drop_last()), xml_escape_char(c));
        reveal_strlit("&amp;");
        reveal_strlit("&lt;");
        reveal_strlit("&gt;");
        reveal_strlit("&quot;");
        assert(count_open(seq![c]) == if c == '{' { 1nat } else { 0nat }) by {
            assert(seq![c].drop_last() =~= Seq::<char>::empty());
            reveal_with_fuel(count_open, 2);
        }
        if c == '&' {
            assert(count_open("&amp;"@) == 0) by {
                reveal_with_fuel(count_open, 6);
            }
        } else if c == '<' {
            assert(count_open("&lt;"@) == 0) by {
                reveal_with_fuel(count_open, 5);
            }
        } else if c == '>' {
            assert(count_open("&gt;"@) == 0) by {
                reveal_with_fuel(count_open, 5);
            }
        } else if c == '"' {
            assert(count_open("&quot;"@) == 0) by {
                reveal_with_fuel(count_open, 7);
            }
        }
    }
}

// ─── Replacing every `{{NAME}}` ───────────────────────────────────────────────

/// `s` with every occurrence of `pat` replaced by `rep`, left to right
/// (what `str::replace` does).
pub open spec fn replace_all(s: Seq<char>, pat: Seq<char>, rep: Seq<char>) -> Seq<char>
    decreases s.len(),
{
    if pat.len() == 0 {
        s
    } else {
        match find_first(s, pat) {
            None => s,
            Some(i) => if 0 <= i && i + pat.len() <= s.len() {
                s.subrange(0, i) + rep + replace_all(s.subrange(i + pat.len(), s.len() as int), pat, rep)
            } else {
                s
            },
        }
    }
}

/// Replaces every occurrence of `pat` in `s` by `rep`.
pub fn replace_all_exec(s: &[char], pat: &[char], rep: &str) -> (r: String)
    requires
        pat@.len() > 0,
    ensures
        r@ == replace_all(s@, pat@, rep@),
{
    let mut out = String::new();
    let len = s.len();
    let mut i: usize = 0;
    assert(s@.subrange(0, len as int) =~= s@);
    while i <= len
        invariant_except_break
            i <= len,
            len == s@.len(),
            pat@.len() > 0,
            out@ + replace_all(s@.subrange(i as int, len as int), pat@, rep@) == replace_all(s@, pat@, rep@),
        ensures
            out@ == replace_all(s@, pat@, rep@),
        decreases len + 1 - i,
    {
        let ghost rest = s@.subrange(i as int, len as int);
        match find_chars(s, i, len, pat) {
            None => {
                push_chars(&mut out, s, i, len);
                break;
            },
            Some(p) => {
                proof {
                    let k = find_first(rest, pat@)->0;
                    assert(rest.subrange(0, k) =~= s@.subrange(i as int, p as int));
                    assert(rest.subrange(k + pat@.len(), rest.len() as int) =~= s@.subrange(p + pat@.len(), len as int));
                }
                let ghost before = out@;
                push_chars(&mut out, s, i, p);
                push_str(&mut out, rep);
                proof {
                    let tail = replace_all(s@.subrange(p + pat@.len(), len as int), pat@, rep@);
                    assert(before + (s@.subrange(i as int, p as int) + rep@ + tail) =~= out@ + tail);
                }
                i = p + pat.len();
            },
        }
    }
    out
}

/// The pattern `{{name}}`.
pub open spec fn var_pattern(name: Seq<char>) -> Seq<char> {
    "{{"@ + name + "}}"@
}

/// The template with the variables substituted one after the other, in
/// the order of `vars`.
pub open spec fn substitute_spec(s: Seq<char>, vars: Seq<(Seq<char>, Seq<char>)>) -> Seq<char>
    decreases vars.len(),
{
    if vars.len() == 0 {
        s
    } else {
        substitute_spec(replace_all(s, var_pattern(vars[0].0), vars[0].1), vars.drop_first())
    }
}

/// A list of variables: (name, value) pairs.
pub type VarList = Vec<(String, String)>;

/// The view of a variable list.
pub open spec fn vars_view(v: &VarList) -> Seq<(Seq<char>, Seq<char>)> {
    Seq::new(v@.len(), |i: int| (v@[i].0@, v@[i].1@))
}

/// The characters of `{{name}}`.
fn var_pattern_exec(name: &str) -> (p: Vec<char>)
    ensures
        p@ == var_pattern(name@),
{
    let mut s = String::new();
    push_str(&mut s, "{{");
    push_str(&mut s, name);
    push_str(&mut s, "}}");
    chars_of(s.as_str())
}

/// Replaces every `{{name}}` by its value, variable after variable.
pub fn substitute(template: &str, vars: &VarList) -> (r: String)
    ensures
        r@ == substitute_spec(template@, vars_view(vars)),
{
    let mut out = template.to_owned();
    let mut i: usize = 0;
    proof {
        reveal_strlit("{{");
        assert(vars_view(vars).subrange(0, vars@.len() as int) =~= vars_view(vars));
    }
    while i < vars.len()
        invariant
            i <= vars@.len(),
            substitute_spec(out@, vars_view(vars).subrange(i as int, vars@.len() as int)) == substitute_spec(
                template@,
                vars_view(vars),
            ),
        decreases vars@.len() - i,
    {
        let ghost rest = vars_view(vars).subrange(i as int, vars@.len() as int);
        let pat = var_pattern_exec(vars[i].0.as_str());
        proof {
            reveal_strlit("{{");
            assert(pat@.len() > 0);
        }
        let cur = chars_of(out.as_str());
        out = replace_all_exec(cur.as_slice(), pat.as_slice(), vars[i].1.as_str());
        proof {
            assert(rest.drop_first() =~= vars_view(vars).subrange(i + 1, vars@.len() as int));
        }
        i = i + 1;
    }
    proof {
        assert(vars_view(vars).subrange(i as int, vars@.len() as int) =~= Seq::<(Seq<char>, Seq<char>)>::empty());
    }
    out
}

// ─── Slots `{{PREFIX...}}` ────────────────────────────────────────────────────

/// What replaces a slot: a fixed text, a field's text, or the slot's own
/// default text (escaped).
pub enum SlotRep {
    Fixed(Seq<char>),
    Field(bool, Seq<char>),
    Default,
}

/// What a slot with inside `inner` becomes: a fixed text; for a field,
/// nothing when hidden, its escaped value, or the escaped default when its
/// value is empty; the escaped default when there is no field.
pub open spec fn slot_text(k: SlotRep, inner: Seq<char>) -> Seq<char> {
    match k {
        SlotRep::Fixed(t) => t,
        SlotRep::Field(visible, value) => if !visible {
            Seq::empty()
        } else if value.len() > 0 {
            xml_escaped(value)
        } else {
            xml_escaped(inner)
        },
        SlotRep::Default => xml_escaped(inner),
    }
}

/// The first slot `prefix ... }}` of `s`: where it starts and where its
/// inside ends.
pub open spec fn slot_at(s: Seq<char>, prefix: Seq<char>) -> Option<(int, int)> {
    match find_first(s, prefix) {
        None => None,
        Some(st) => if 0 <= st && st + prefix.len() <= s.len() {
            match find_first(s.subrange(st + prefix.len(), s.len() as int), "}}"@) {
                None => None,
                Some(e) => if 0 <= e && st + prefix.len() + e + 2 <= s.len() {
                    Some((st, st + prefix.len() + e))
                } else {
                    None
                },
            }
        } else {
            None
        },
    }
}

/// `s` with its first slot replaced.
pub open spec fn replace_first_slot(s: Seq<char>, prefix: Seq<char>, k: SlotRep, p: (int, int)) -> Seq<char> {
    s.subrange(0, p.0) + slot_text(k, s.subrange(p.0 + prefix.len(), p.1)) + s.subrange(p.1 + 2, s.len() as int)
}

/// `s` with its slots replaced one at a time, each time the first one, as
/// long as one is left (the replacement may itself complete a new slot).
pub open spec fn replace_slots(s: Seq<char>, prefix: Seq<char>, k: SlotRep) -> Seq<char>
    decreases count_open(s),
{
    match slot_at(s, prefix) {
        None => s,
        Some(p) => {
            let next = replace_first_slot(s, prefix, k, p);
            if count_open(next) < count_open(s) {
                replace_slots(next, prefix, k)
            } else {
                next
            }
        },
    }
}

/// Whether replacing the slots removes at least one `{` each time, so that
/// the replacement ends: the prefix holds a `{` and what replaces a slot
/// holds fewer than the prefix.
pub open spec fn slot_rep_shrinks(prefix: Seq<char>, k: SlotRep) -> bool {
    &&& count_open(prefix) >= 1
    &&& match k {
        SlotRep::Fixed(t) => count_open(t) < count_open(prefix),
        SlotRep::Field(visible, value) => visible ==> count_open(value) < count_open(prefix),
        SlotRep::Default => true,
    }
}

/// What replaces a slot, in executable form.
pub enum SlotSource<'a> {
    Fixed(&'a str),
    Field(bool, &'a str),
    Default,
}

pub open spec fn source_view(k: SlotSource) -> SlotRep {
    match k {
        SlotSource::Fixed(t) => SlotRep::Fixed(t@),
        SlotSource::Field(v, t) => SlotRep::Field(v, t@),
        SlotSource::Default => SlotRep::Default,
    }
}

/// A string of the characters `v[a..e]`.
fn string_of(v: &[char], a: usize, e: usize) -> (r: String)
    requires
        a <= e <= v@.len(),
    ensures
        r@ == v@.subrange(a as int, e as int),
{
    let mut r = String::new();
    push_chars(&mut r, v, a, e);
    r
}

fn slot_text_exec(k: &SlotSource, inner: &str) -> (r: String)
    ensures
        r@ == slot_text(source_view(*k), inner@),
{
    match k {
        SlotSource::Fixed(t) => (*t).to_owned(),
        SlotSource::Field(visible, value) => if !*visible {
            String::new()
        } else if !value.is_empty() {
            crate::text::xml_escape(value)
        } else {
            crate::text::xml_escape(inner)
        },
        SlotSource::Default => crate::text::xml_escape(inner),
    }
}

proof fn lemma_slot_shrinks(s: Seq<char>, prefix: Seq<char>, k: SlotRep, p: (int, int))
    requires
        slot_rep_shrinks(prefix, k),
        0 <= p.0,
        p.0 + prefix.len() <= p.1,
        p.1 + 2 <= s.len(),
        s.subrange(p.0, p.0 + prefix.len()) == prefix,
    ensures
        count_open(replace_first_slot(s, prefix, k, p)) < count_open(s),
{
    let inner = s.subrange(p.0 + prefix.len(), p.1);
    let a = s.subrange(0, p.0);
    let z = s.subrange(p.1 + 2, s.len() as int);
    let t = slot_text(k, inner);
    lemma_count_open_add(a + t, z);
    lemma_count_open_add(a, t);
    lemma_count_open_sub(s, 0, p.0, s.len() as int);
    lemma_count_open_sub(s, p.0, p.0 + prefix.len(), s.len() as int);
    lemma_count_open_sub(s, p.0 + prefix.len(), p.1, s.len() as int);
    lemma_count_open_sub(s, p.1, p.1 + 2, s.len() as int);
    assert(s.subrange(0, s.len() as int) =~= s);
    lemma_count_open_escaped(inner);
    match k {
        SlotRep::Field(visible, value) => {
            if visible && value.len() > 0 {
                lemma_count_open_escaped(value);
            } else if !visible {
                assert(count_open(Seq::<char>::empty()) == 0);
            }
        },
        _ => {},
    }
}

/// Replaces the slots `prefix ... }}` of `s`, one at a time.
pub fn replace_slots_exec(s: &str, prefix: &[char], k: &SlotSource) -> (r: String)
    requires
        slot_rep_shrinks(prefix@, source_view(*k)),
    ensures
        r@ == replace_slots(s@, prefix@, source_view(*k)),
{
    let close: [char; 2] = ['}', '}'];
    proof {
        reveal_strlit("}}");
        assert(close@ =~= "}}"@);
    }
    let mut cur: Vec<char> = chars_of(s);
    loop
        invariant
            slot_rep_shrinks(prefix@, source_view(*k)),
            close@ == "}}"@,
            replace_slots(cur@, prefix@, source_view(*k)) == replace_slots(s@, prefix@, source_view(*k)),
        ensures
            cur@ == replace_slots(s@, prefix@, source_view(*k)),
        decreases count_open(cur@),
    {
        let len = cur.len();
        assert(cur@.subrange(0, len as int) =~= cur@);
        let st = match find_chars(cur.as_slice(), 0, len, prefix) {
            Some(st) => st,
            None => {
                assert(slot_at(cur@, prefix@) is None);
                break;
            },
        };
        let ist = st + prefix.len();
        let en = match find_chars(cur.as_slice(), ist, len, close.as_slice()) {
            Some(en) => en,
            None => {
                assert(slot_at(cur@, prefix@) is None);
                break;
            },
        };
        let ghost p = (st as int, en as int);
        assert(slot_at(cur@, prefix@) == Some(p));
        let inner = string_of(cur.as_slice(), ist, en);
        let rep = slot_text_exec(k, inner.as_str());
        let mut next = String::new();
        push_chars(&mut next, cur.as_slice(), 0, st);
        push_str(&mut next, rep.as_str());
        push_chars(&mut next, cur.as_slice(), en + 2, len);
        proof {
            assert(next@ =~= replace_first_slot(cur@, prefix@, source_view(*k), p));
            lemma_slot_shrinks(cur@, prefix@, source_view(*k), p);
        }
        cur = chars_of(next.as_str());
    }
    assert(cur@.subrange(0, cur@.len() as int) =~= cur@);
    string_of(cur.as_slice(), 0, cur.len())
}

/// `s` with each of its slots `prefix ... }}` replaced once, from left to
/// right; the replacing text is not searched again.
pub open spec fn replace_slots_once(s: Seq<char>, prefix: Seq<char>, k: SlotRep) -> Seq<char>
    decreases s.len(),
{
    match slot_at(s, prefix) {
        None => s,
        Some(p) => if 0 <= p.0 && p.0 + prefix.len() <= p.1 && p.1 + 2 <= s.len() {
            s.subrange(0, p.0) + slot_text(k, s.subrange(p.0 + prefix.len(), p.1)) + replace_slots_once(
                s.subrange(p.1 + 2, s.len() as int),
                prefix,
                k,
            )
        } else {
            s
        },
    }
}

/// Replaces each slot `prefix ... }}` of `s` once.
pub fn replace_slots_once_exec(s: &str, prefix: &[char], k: &SlotSource) -> (r: String)
    ensures
        r@ == replace_slots_once(s@, prefix@, source_view(*k)),
{
    let close: [char; 2] = ['}', '}'];
    proof {
        reveal_strlit("}}");
        assert(close@ =~= "}}"@);
    }
    let v: Vec<char> = chars_of(s);
    let len = v.len();
    let mut out = String::new();
    let mut i: usize = 0;
    assert(v@.subrange(0, len as int) =~= v@);
    loop
        invariant
            close@ == "}}"@,
            v@ == s@,
            len == v@.len(),
            i <= len,
            out@ + replace_slots_once(v@.subrange(i as int, len as int), prefix@, source_view(*k))
                == replace_slots_once(s@, prefix@, source_view(*k)),
        ensures
            out@ == replace_slots_once(s@, prefix@, source_view(*k)),
        decreases len - i,
    {
        let ghost rest = v@.subrange(i as int, len as int);
        let st = match find_chars(v.as_slice(), i, len, prefix) {
            Some(st) => st,
            None => {
                assert(slot_at(rest, prefix@) is None);
                push_chars(&mut out, v.as_slice(), i, len);
                i = len;
                assert(slot_at(v@.subrange(len as int, len as int), prefix@) is None) by {
                    assert(v@.subrange(len as int, len as int) =~= Seq::<char>::empty());
                }
                break;
            },
        };
        let ist = st + prefix.len();
        assert(rest.subrange((st - i) + prefix@.len(), rest.len() as int) =~= v@.subrange(ist as int, len as int));
        let en = match find_chars(v.as_slice(), ist, len, close.as_slice()) {
            Some(en) => en,
            None => {
                assert(slot_at(rest, prefix@) is None);
                push_chars(&mut out, v.as_slice(), i, len);
                i = len;
                assert(slot_at(v@.subrange(len as int, len as int), prefix@) is None) by {
                    assert(v@.subrange(len as int, len as int) =~= Seq::<char>::empty());
                }
                break;
            },
        };
        let ghost p = ((st - i) as int, (en - i) as int);
        assert(slot_at(rest, prefix@) == Some(p));
        assert(rest.subrange(0, p.0) =~= v@.subrange(i as int, st as int));
        assert(rest.subrange(p.0 + prefix@.len(), p.1) =~= v@.subrange(ist as int, en as int));
        assert(rest.subrange(p.1 + 2, rest.len() as int) =~= v@.subrange(en + 2, len as int));
        let inner = string_of(v.as_slice(), ist, en);
        let rep = slot_text_exec(k, inner.as_str());
        let ghost before = out@;
        push_chars(&mut out, v.as_slice(), i, st);
        push_str(&mut out, rep.as_str());
        proof {
            assert(out@ + replace_slots_once(v@.subrange(en + 2, len as int), prefix@, source_view(*k)) =~= before
                + replace_slots_once(rest, prefix@, source_view(*k)));
        }
        i = en + 2;
    }
    out
}

/// A text without `{` counts none.
pub proof fn lemma_count_open_none(s: Seq<char>)
    requires
        forall|i: int| 0 <= i < s.len() ==> s[i] != '{',
    ensures
        count_open(s) == 0,
    decreases s.len(),
{
    if s.len() > 0 {
        lemma_count_open_none(s.drop_last());
    }
}

/// Whether two strings are equal.
pub fn str_eq(a: &str, b: &str) -> (r: bool)
    ensures
        r == (a@ == b@),
{
    let x = chars_of(a);
    let y = chars_of(b);
    if x.len() != y.len() {
        return false;
    }
    let mut i: usize = 0;
    while i < x.len()
        invariant
            x@ == a@,
            y@ == b@,
            x@.len() == y@.len(),
            i <= x@.len(),
            forall|j: int| 0 <= j < i ==> x@[j] == y@[j],
        decreases x@.len() - i,
    {
        if x[i] != y[i] {
            return false;
        }
        i = i + 1;
    }
    assert(x@ =~= y@);
    true
}

// ─── Colour and default-text slots ───────────────────────────────────────────

/// The prefix `{{VAR:#` of a colour slot.
pub open spec fn color_slot_prefix(var: Seq<char>) -> Seq<char> {
    "{{"@ + var + ":#"@
}

/// The (variable, colour) pairs of template colours.
pub open spec fn colors_tv(colors: Seq<TemplateColor>) -> Seq<(Seq<char>, Seq<u8>)> {
    Seq::new(colors.len(), |i: int| (colors[i].var@, colors[i].value@))
}

/// The template with the slots of each colour, in order, replaced by the
/// colour's current value as `#RRGGBB`.
pub open spec fn colors_applied(s: Seq<char>, cs: Seq<(Seq<char>, Seq<u8>)>) -> Seq<char>
    decreases cs.len(),
{
    if cs.len() == 0 {
        s
    } else {
        colors_applied(replace_slots(s, color_slot_prefix(cs[0].0), SlotRep::Fixed(hex_color(cs[0].1))), cs.drop_first())
    }
}

proof fn lemma_hex_color_no_open(c: Seq<u8>)
    requires
        c.len() == 3,
    ensures
        count_open(hex_color(c)) == 0,
{
    let h = hex_color(c);
    assert forall|i: int| 0 <= i < h.len() implies h[i] != '{' by {
        assert(h.len() == 7);
        if i > 0 {
            let k = (i - 1) / 2;
            let b = c[k];
            assert(h[i] == hex_digit_char((b / 16) as nat) || h[i] == hex_digit_char((b % 16) as nat));
        }
    }
    lemma_count_open_none(h);
}

proof fn lemma_prefix_opens(var: Seq<char>, tail: Seq<char>)
    ensures
        count_open("{{"@ + var + tail) >= 2,
{
    reveal_strlit("{{");
    lemma_count_open_add("{{"@ + var, tail);
    lemma_count_open_add("{{"@, var);
    assert(count_open("{{"@) == 2) by {
        reveal_with_fuel(count_open, 3);
    }
}

/// Replaces the colour slots `{{Cx:#RRGGBB|Label}}` by each colour's
/// current value.
pub fn preprocess_colors(template: &str, colors: &[TemplateColor]) -> (r: String)
    ensures
        r@ == colors_applied(template@, colors_tv(colors@)),
{
    let mut out = template.to_owned();
    let ghost cs = colors_tv(colors@);
    let mut i: usize = 0;
    assert(cs.subrange(0, cs.len() as int) =~= cs);
    while i < colors.len()
        invariant
            cs == colors_tv(colors@),
            i <= colors@.len(),
            colors_applied(out@, cs.subrange(i as int, cs.len() as int)) == colors_applied(template@, cs),
        decreases colors@.len() - i,
    {
        let c = &colors[i];
        let mut p = String::new();
        push_str(&mut p, "{{");
        push_str(&mut p, c.var.as_str());
        push_str(&mut p, ":#");
        let prefix = chars_of(p.as_str());
        let hx = crate::text::hex(c.value);
        let k = SlotSource::Fixed(hx.as_str());
        proof {
            lemma_prefix_opens(c.var@, ":#"@);
            lemma_hex_color_no_open(c.value@);
            assert(prefix@ == color_slot_prefix(c.var@));
        }
        out = replace_slots_exec(out.as_str(), prefix.as_slice(), &k);
        proof {
            assert(cs.subrange(i as int, cs.len() as int).drop_first() =~= cs.subrange(i + 1, cs.len() as int));
        }
        i = i + 1;
    }
    proof {
        assert(cs.subrange(i as int, cs.len() as int) =~= Seq::<(Seq<char>, Seq<u8>)>::empty());
    }
    out
}

/// The (variable, shown, value) triples of template fields.
pub open spec fn fields_tv(fields: Seq<TemplateField>) -> Seq<(Seq<char>, bool, Seq<char>)> {
    Seq::new(fields.len(), |i: int| (fields[i].var@, fields[i].visible, fields[i].value@))
}

/// The first field named `var`: whether it is shown, and its value.
pub open spec fn first_field(fs: Seq<(Seq<char>, bool, Seq<char>)>, var: Seq<char>) -> Option<(bool, Seq<char>)>
    decreases fs.len(),
{
    if fs.len() == 0 {
        None
    } else if fs[0].0 == var {
        Some((fs[0].1, fs[0].2))
    } else {
        first_field(fs.drop_first(), var)
    }
}

/// The name `Fi` of field `i`.
pub open spec fn field_var(i: nat) -> Seq<char> {
    "F"@ + decimal(i)
}

/// What replaces the default slots of field `i`.
pub open spec fn field_slot_rep(fs: Seq<(Seq<char>, bool, Seq<char>)>, i: nat) -> SlotRep {
    match first_field(fs, field_var(i)) {
        Some(f) => SlotRep::Field(f.0, f.1),
        None => SlotRep::Default,
    }
}

/// The prefix `{{Fi:` of a default slot.
pub open spec fn default_slot_prefix(i: nat) -> Seq<char> {
    "{{"@ + field_var(i) + ":"@
}

/// The template with the default slots of fields `i..5` replaced.
pub open spec fn defaults_applied(s: Seq<char>, fs: Seq<(Seq<char>, bool, Seq<char>)>, i: nat) -> Seq<char>
    decreases 5 - i,
{
    if i >= 5 {
        s
    } else {
        defaults_applied(replace_slots_once(s, default_slot_prefix(i), field_slot_rep(fs, i)), fs, i + 1)
    }
}

fn find_field<'a>(fields: &'a [TemplateField], var: &str) -> (r: Option<&'a TemplateField>)
    ensures
        match first_field(fields_tv(fields@), var@) {
            Some(f) => r matches Some(x) && x.visible == f.0 && x.value@ == f.1,
            None => r is None,
        },
{
    let ghost fs = fields_tv(fields@);
    let mut i: usize = 0;
    assert(fs.subrange(0, fs.len() as int) =~= fs);
    while i < fields.len()
        invariant
            fs == fields_tv(fields@),
            i <= fields@.len(),
            first_field(fs.subrange(i as int, fs.len() as int), var@) == first_field(fs, var@),
        decreases fields@.len() - i,
    {
        let ghost rest = fs.subrange(i as int, fs.len() as int);
        if str_eq(fields[i].var.as_str(), var) {
            return Some(&fields[i]);
        }
        assert(rest.drop_first() =~= fs.subrange(i + 1, fs.len() as int));
        i = i + 1;
    }
    None
}

/// Replaces each `{{F0:default}}`..`{{F4:default}}`: by nothing when the
/// field is hidden, by its value when it has one, by the default text
/// otherwise (escaped for XML). Each slot is replaced once.
pub fn preprocess_defaults(template: &str, fields: &[TemplateField]) -> (r: String)
    ensures
        r@ == defaults_applied(template@, fields_tv(fields@), 0),
{
    let ghost fs = fields_tv(fields@);
    let mut out = template.to_owned();
    let mut i: u64 = 0;
    while i < 5
        invariant
            fs == fields_tv(fields@),
            i <= 5,
            defaults_applied(out@, fs, i as nat) == defaults_applied(template@, fs, 0),
        decreases 5 - i,
    {
        let mut v = String::new();
        push_str(&mut v, "F");
        push_decimal(&mut v, i);
        let mut p = String::new();
        push_str(&mut p, "{{");
        push_str(&mut p, v.as_str());
        push_str(&mut p, ":");
        let prefix = chars_of(p.as_str());
        proof {
            reveal_strlit("{{");
            reveal_strlit(":");
            assert(prefix@ == default_slot_prefix(i as nat));
        }
        let field = find_field(fields, v.as_str());
        out = match field {
            Some(f) => {
                let k = SlotSource::Field(f.visible, f.value.as_str());
                replace_slots_once_exec(out.as_str(), prefix.as_slice(), &k)
            },
            None => {
                let k = SlotSource::Default;
                replace_slots_once_exec(out.as_str(), prefix.as_slice(), &k)
            },
        };
        i = i + 1;
    }
    out
}

// ─── Blocks of SVG ───────────────────────────────────────────────────────────

/// The grey placeholder of the QR code.
pub open spec fn template_placeholder(x: nat, y: nat, sz: nat) -> Seq<char> {
    "  <rect x=\""@ + decimal(x) + "\" y=\""@ + decimal(y) + "\" width=\""@ + decimal(sz) + "\" height=\""@ + decimal(sz)
        + "\" fill=\"#D0D0D0\" rx=\"4\"/>\n  <text x=\""@ + decimal(x + sz / 2) + "\" y=\""@ + decimal(y + sz / 2)
        + "\" text-anchor=\"middle\" dominant-baseline=\"middle\" fill=\"#888\" font-family=\"Arial,sans-serif\" font-size=\"14\">QR</text>"@
}

/// The QR code as an `<image>` holding its PNG.
pub open spec fn template_image(x: nat, y: nat, sz: nat, png: Seq<u8>) -> Seq<char> {
    "  <image x=\""@ + decimal(x) + "\" y=\""@ + decimal(y) + "\" width=\""@ + decimal(sz) + "\" height=\""@ + decimal(sz)
        + "\" href=\""@ + png_data_uri(png) + "\"/>"@
}

fn qr_placeholder(qr_x: u32, qr_y: u32, qr_sz: u32) -> (r: String)
    requires
        qr_x <= 1184,
        qr_y <= 1184,
        qr_sz <= 1184,
    ensures
        r@ == template_placeholder(qr_x as nat, qr_y as nat, qr_sz as nat),
{
    let mut out = String::new();
    push_str(&mut out, "  <rect x=\"");
    push_decimal(&mut out, qr_x as u64);
    push_str(&mut out, "\" y=\"");
    push_decimal(&mut out, qr_y as u64);
    push_str(&mut out, "\" width=\"");
    push_decimal(&mut out, qr_sz as u64);
    push_str(&mut out, "\" height=\"");
    push_decimal(&mut out, qr_sz as u64);
    push_str(&mut out, "\" fill=\"#D0D0D0\" rx=\"4\"/>\n  <text x=\"");
    push_decimal(&mut out, (qr_x + qr_sz / 2) as u64);
    push_str(&mut out, "\" y=\"");
    push_decimal(&mut out, (qr_y + qr_sz / 2) as u64);
    push_str(&mut out, "\" text-anchor=\"middle\" dominant-baseline=\"middle\" fill=\"#888\" font-family=\"Arial,sans-serif\" font-size=\"14\">QR</text>");
    assert(out@ =~= template_placeholder(qr_x as nat, qr_y as nat, qr_sz as nat));
    out
}

fn embed_rgba_image(img: &RgbaRaster, qr_x: u32, qr_y: u32, qr_sz: u32) -> (r: String)
    requires
        img.pixels@.len() == img.width * img.height * 4,
    ensures
        r@ == template_image(qr_x as nat, qr_y as nat, qr_sz as nat, png_rgba(img.pixels@, img.width, img.height)),
{
    let mut out = String::new();
    push_str(&mut out, "  <image x=\"");
    push_decimal(&mut out, qr_x as u64);
    push_str(&mut out, "\" y=\"");
    push_decimal(&mut out, qr_y as u64);
    push_str(&mut out, "\" width=\"");
    push_decimal(&mut out, qr_sz as u64);
    push_str(&mut out, "\" height=\"");
    push_decimal(&mut out, qr_sz as u64);
    push_str(&mut out, "\" href=\"");
    push_png_data_uri(&mut out, img);
    push_str(&mut out, "\"/>");
    assert(out@ =~= template_image(qr_x as nat, qr_y as nat, qr_sz as nat, png_rgba(img.pixels@, img.width, img.height)));
    out
}

/// The accent decoration: a bar left of the text of a business card, a
/// header strip on a badge, nothing otherwise.
pub open spec fn accent_block_spec(l: CardLayout, acc: Seq<char>, w: nat, h: nat, qx: nat, qy: nat, qsz: nat) -> Seq<char> {
    match l {
        CardLayout::BusinessCard => "  <rect x=\""@ + int_decimal(qx + qsz + f32_scale(h, 9395241, 27) - 6) + "\" y=\""@
            + decimal(qy) + "\" width=\"3\" height=\""@ + decimal(qsz) + "\" fill=\""@ + acc + "\" rx=\"1\"/>"@,
        CardLayout::Badge => "  <rect x=\"0\" y=\"0\" width=\""@ + decimal(w) + "\" height=\"12\" fill=\""@ + acc + "\"/>"@,
        _ => Seq::empty(),
    }
}

fn build_accent_block(config: &CardConfig, w: u32, h: u32, qr_x: u32, qr_y: u32, qr_sz: u32) -> (r: String)
    requires
        w <= 1184,
        h <= 1184,
        qr_x <= 1184,
        qr_y <= 1184,
        qr_sz <= 1184,
    ensures
        r@ == accent_block_spec(config.layout, hex_color(config.accent_color@), w as nat, h as nat, qr_x as nat, qr_y as nat, qr_sz as nat),
{
    let mut out = String::new();
    match config.layout {
        CardLayout::BusinessCard => {
            proof {
                vstd::arithmetic::power2::lemma2_to64();
                lemma_scale_below_one(h as nat, 9395241, 27);
            }
            let tx = (qr_x as i64) + (qr_sz as i64) + (f32_scale_exec(h, 9395241, 27) as i64);
            push_str(&mut out, "  <rect x=\"");
            push_int(&mut out, tx - 6);
            push_str(&mut out, "\" y=\"");
            push_decimal(&mut out, qr_y as u64);
            push_str(&mut out, "\" width=\"3\" height=\"");
            push_decimal(&mut out, qr_sz as u64);
            push_str(&mut out, "\" fill=\"");
            push_hex_color(&mut out, config.accent_color);
            push_str(&mut out, "\" rx=\"1\"/>");
        },
        CardLayout::Badge => {
            push_str(&mut out, "  <rect x=\"0\" y=\"0\" width=\"");
            push_decimal(&mut out, w as u64);
            push_str(&mut out, "\" height=\"12\" fill=\"");
            push_hex_color(&mut out, config.accent_color);
            push_str(&mut out, "\"/>");
        },
        _ => {},
    }
    assert(out@ =~= accent_block_spec(config.layout, hex_color(config.accent_color@), w as nat, h as nat, qr_x as nat, qr_y as nat, qr_sz as nat));
    out
}

/// Font size and boldness of the text of field `i` in the text block.
pub open spec fn block_font(l: CardLayout, i: int) -> (nat, bool) {
    if i >= 5 {
        (9, false)
    } else {
        match l {
            CardLayout::BusinessCard => if i == 0 {
                (14, true)
            } else if i == 1 {
                (10, false)
            } else {
                (9, false)
            },
            CardLayout::Label => if i == 0 {
                (13, false)
            } else {
                (9, false)
            },
            CardLayout::Badge => if i == 0 {
                (16, true)
            } else if i == 1 {
                (10, false)
            } else {
                (8, false)
            },
            CardLayout::Flyer => if i == 0 {
                (18, true)
            } else if i == 1 {
                (12, true)
            } else {
                (10, false)
            },
        }
    }
}

/// The `<text>` element of field `i` in the text block.
pub open spec fn block_line(l: CardLayout, i: int, field: Seq<char>, fg: Seq<char>, acc: Seq<char>, tx: nat, ta: Seq<char>, tys: Seq<nat>) -> Seq<char> {
    let f = block_font(l, i);
    block_text(
        tx,
        if i < 4 {
            tys[i]
        } else {
            tys[4]
        },
        ta,
        f.0,
        if f.1 {
            "bold"@
        } else {
            "normal"@
        },
        if i == 1 {
            acc
        } else {
            fg
        },
        field,
    )
}

/// The text elements of the non-empty fields among the first `n`.
pub open spec fn text_block_spec(
    l: CardLayout,
    fields: Seq<Seq<char>>,
    n: nat,
    fg: Seq<char>,
    acc: Seq<char>,
    tx: nat,
    ta: Seq<char>,
    tys: Seq<nat>,
) -> Seq<char>
    decreases n,
{
    if n == 0 {
        Seq::empty()
    } else {
        text_block_spec(l, fields, (n - 1) as nat, fg, acc, tx, ta, tys) + if fields[n - 1].len() == 0 {
            Seq::empty()
        } else {
            block_line(l, n - 1, fields[n - 1], fg, acc, tx, ta, tys)
        }
    }
}

fn block_font_exec(l: CardLayout, i: usize) -> (r: (u64, bool))
    ensures
        (r.0 as nat, r.1) == block_font(l, i as int),
{
    if i >= 5 {
        (9, false)
    } else {
        match l {
            CardLayout::BusinessCard => if i == 0 {
                (14, true)
            } else if i == 1 {
                (10, false)
            } else {
                (9, false)
            },
            CardLayout::Label => if i == 0 {
                (13, false)
            } else {
                (9, false)
            },
            CardLayout::Badge => if i == 0 {
                (16, true)
            } else if i == 1 {
                (10, false)
            } else {
                (8, false)
            },
            CardLayout::Flyer => if i == 0 {
                (18, true)
            } else if i == 1 {
                (12, true)
            } else {
                (10, false)
            },
        }
    }
}

/// The `<text>` element of the text block with its parts computed.
pub open spec fn block_text(tx: nat, ty: nat, ta: Seq<char>, fs: nat, weight: Seq<char>, color: Seq<char>, field: Seq<char>) -> Seq<char> {
    "  <text x=\""@ + decimal(tx) + "\" y=\""@ + decimal(ty) + "\" text-anchor=\""@ + ta
        + "\" dominant-baseline=\"auto\" font-family=\"Arial,sans-serif\" font-size=\""@ + decimal(fs) + "\" font-weight=\""@
        + weight + "\" fill=\""@ + color + "\">"@ + xml_escaped(field) + "</text>\n"@
}

fn push_block_text(out: &mut String, tx: u32, ty: u32, ta: &str, fs: u64, weight: &str, color: &str, field: &str)
    ensures
        final(out)@ == old(out)@ + block_text(tx as nat, ty as nat, ta@, fs as nat, weight@, color@, field@),
{
    let ghost start = out@;
    push_str(out, "  <text x=\"");
    push_decimal(out, tx as u64);
    push_str(out, "\" y=\"");
    push_decimal(out, ty as u64);
    push_str(out, "\" text-anchor=\"");
    push_str(out, ta);
    push_str(out, "\" dominant-baseline=\"auto\" font-family=\"Arial,sans-serif\" font-size=\"");
    push_decimal(out, fs);
    push_str(out, "\" font-weight=\"");
    push_str(out, weight);
    push_str(out, "\" fill=\"");
    push_str(out, color);
    push_str(out, "\">");
    push_xml_escaped(out, field);
    push_str(out, "</text>\n");
    assert(out@ =~= start + block_text(tx as nat, ty as nat, ta@, fs as nat, weight@, color@, field@));
}

fn push_block_line(out: &mut String, l: CardLayout, i: usize, field: &str, fg: &str, acc: &str, tx: u32, ta: &str, tys: &[u32; 5])
    ensures
        final(out)@ == old(out)@ + block_line(l, i as int, field@, fg@, acc@, tx as nat, ta@, Seq::new(5, |k: int| tys@[k] as nat)),
{
    let (fs, bold) = block_font_exec(l, i);
    let ty = if i < 4 {
        tys[i]
    } else {
        tys[4]
    };
    let weight = if bold {
        "bold"
    } else {
        "normal"
    };
    let color = if i == 1 {
        acc
    } else {
        fg
    };
    push_block_text(out, tx, ty, ta, fs, weight, color, field);
    proof {
        let tv = Seq::new(5, |k: int| tys@[k] as nat);
        assert(ty as nat == (if i < 4 { tv[i as int] } else { tv[4] }));
    }
}

fn build_text_block(config: &CardConfig, tx: u32, ta: &str, tys: &[u32; 5]) -> (r: String)
    ensures
        r@ == text_block_spec(
            config.layout,
            fields_view(*config),
            config.fields@.len() as nat,
            hex_color(config.text_color@),
            hex_color(config.accent_color@),
            tx as nat,
            ta@,
            Seq::new(5, |k: int| tys@[k] as nat),
        ),
{
    let fg = crate::text::hex(config.text_color);
    let acc = crate::text::hex(config.accent_color);
    let ghost fv = fields_view(*config);
    let ghost tv = Seq::new(5, |k: int| tys@[k] as nat);
    let mut out = String::new();
    let mut i: usize = 0;
    while i < config.fields.len()
        invariant
            i <= config.fields@.len(),
            fv == fields_view(*config),
            tv == Seq::new(5, |k: int| tys@[k] as nat),
            fg@ == hex_color(config.text_color@),
            acc@ == hex_color(config.accent_color@),
            out@ == text_block_spec(config.layout, fv, i as nat, fg@, acc@, tx as nat, ta@, tv),
        decreases config.fields@.len() - i,
    {
        let field = &config.fields[i];
        assert(field@ == fv[i as int]);
        if !field.as_str().is_empty() {
            push_block_line(&mut out, config.layout, i, field.as_str(), fg.as_str(), acc.as_str(), tx, ta, tys);
        }
        assert(text_block_spec(config.layout, fv, (i + 1) as nat, fg@, acc@, tx as nat, ta@, tv)
            == text_block_spec(config.layout, fv, i as nat, fg@, acc@, tx as nat, ta@, tv) + if fv[i as int].len() == 0 {
            Seq::<char>::empty()
        } else {
            block_line(config.layout, i as int, fv[i as int], fg@, acc@, tx as nat, ta@, tv)
        });
        proof {
            if fv[i as int].len() == 0 {
                assert(out@ + Seq::<char>::empty() =~= out@);
            }
        }
        i = i + 1;
    }
    out
}

// ─── What the text block holds ──────────────────────────────────────────────

/// The number of times `c` occurs in `s`.
pub open spec fn count_char(s: Seq<char>, c: char) -> nat
    decreases s.len(),
{
    if s.len() == 0 {
        0
    } else {
        count_char(s.drop_last(), c) + if s.last() == c {
            1nat
        } else {
            0nat
        }
    }
}

/// Whether `c` does not occur in `s`.
pub open spec fn lacks_char(s: Seq<char>, c: char) -> bool {
    forall|i: int| 0 <= i < s.len() ==> s[i] != c
}

/// The number of non-empty texts among the first `n`.
pub open spec fn filled_count(fields: Seq<Seq<char>>, n: nat) -> nat
    decreases n,
{
    if n == 0 {
        0
    } else {
        filled_count(fields, (n - 1) as nat) + if fields[n - 1].len() > 0 {
            1nat
        } else {
            0nat
        }
    }
}

proof fn lemma_count_char_add(a: Seq<char>, b: Seq<char>, c: char)
    ensures
        count_char(a + b, c) == count_char(a, c) + count_char(b, c),
    decreases b.len(),
{
    if b.len() > 0 {
        assert((a + b).drop_last() =~= a + b.drop_last());
        lemma_count_char_add(a, b.drop_last(), c);
    } else {
        assert(a + b =~= a);
    }
}

proof fn lemma_count_char_none(s: Seq<char>, c: char)
    requires
        lacks_char(s, c),
    ensures
        count_char(s, c) == 0,
    decreases s.len(),
{
    if s.len() > 0 {
        lemma_count_char_none(s.drop_last(), c);
    }
}

proof fn lemma_decimal_lacks_lt(n: nat)
    ensures
        lacks_char(decimal(n), '<'),
    decreases n,
{
    if n >= 10 {
        lemma_decimal_lacks_lt(n / 10);
    }
}

proof fn lemma_infix_prepend<T>(a: Seq<T>, s: Seq<T>, t: Seq<T>)
    requires
        has_infix(s, t),
    ensures
        has_infix(a + s, t),
{
    let p = choose|p: int| 0 <= p && p + t.len() <= s.len() && #[trigger] s.subrange(p, p + t.len()) == t;
    assert((a + s).subrange(a.len() + p, a.len() + p + t.len()) =~= s.subrange(p, p + t.len()));
}

proof fn lemma_lacks_add(a: Seq<char>, b: Seq<char>, c: char)
    requires
        lacks_char(a, c),
        lacks_char(b, c),
    ensures
        lacks_char(a + b, c),
{
    assert forall|i: int| 0 <= i < (a + b).len() implies (a + b)[i] != c by {
        if i >= a.len() {
            assert((a + b)[i] == b[i - a.len()]);
        }
    }
}

proof fn lemma_block_literals()
    ensures
        count_char("  <text x=\""@, '<') == 1,
        count_char("</text>\n"@, '<') == 1,
        lacks_char("\" y=\""@, '<'),
        lacks_char("\" text-anchor=\""@, '<'),
        lacks_char("\" dominant-baseline=\"auto\" font-family=\"Arial,sans-serif\" font-size=\""@, '<'),
        lacks_char("\" font-weight=\""@, '<'),
        lacks_char("\" fill=\""@, '<'),
        lacks_char("\">"@, '<'),
        "\">"@ == seq!['"', '>'],
{
    reveal_strlit("  <text x=\"");
    reveal_strlit("\" y=\"");
    reveal_strlit("\" text-anchor=\"");
    reveal_strlit("\" dominant-baseline=\"auto\" font-family=\"Arial,sans-serif\" font-size=\"");
    reveal_strlit("\" font-weight=\"");
    reveal_strlit("\" fill=\"");
    reveal_strlit("\">");
    reveal_strlit("</text>\n");
    assert(count_char("  <text x=\""@, '<') == 1) by {
        reveal_with_fuel(count_char, 12);
    }
    assert(count_char("</text>\n"@, '<') == 1) by {
        reveal_with_fuel(count_char, 9);
    }
}

/// One text element: two `<`, and the escaped field between `>` and
/// `</text>` and a line break.
proof fn lemma_block_text_shape(tx: nat, ty: nat, ta: Seq<char>, fs: nat, weight: Seq<char>, color: Seq<char>, field: Seq<char>)
    requires
        lacks_char(ta, '<'),
        lacks_char(weight, '<'),
        lacks_char(color, '<'),
    ensures
        count_char(block_text(tx, ty, ta, fs, weight, color, field), '<') == 2,
        has_infix(block_text(tx, ty, ta, fs, weight, color, field), ">"@ + xml_escaped(field) + "</text>\n"@),
{
    let l1 = "  <text x=\""@;
    let l2 = "\" y=\""@;
    let l3 = "\" text-anchor=\""@;
    let l4 = "\" dominant-baseline=\"auto\" font-family=\"Arial,sans-serif\" font-size=\""@;
    let l5 = "\" font-weight=\""@;
    let l6 = "\" fill=\""@;
    let l7 = "\">"@;
    let l8 = "</text>\n"@;
    lemma_block_literals();
    let esc = xml_escaped(field);
    law_xml_escaped_is_safe(field);
    assert(lacks_char(esc, '<'));
    lemma_decimal_lacks_lt(tx);
    lemma_decimal_lacks_lt(ty);
    lemma_decimal_lacks_lt(fs);
    let m1 = decimal(tx) + l2;
    lemma_lacks_add(decimal(tx), l2, '<');
    let m2 = m1 + decimal(ty);
    lemma_lacks_add(m1, decimal(ty), '<');
    let m3 = m2 + l3;
    lemma_lacks_add(m2, l3, '<');
    let m4 = m3 + ta;
    lemma_lacks_add(m3, ta, '<');
    let m5 = m4 + l4;
    lemma_lacks_add(m4, l4, '<');
    let m6 = m5 + decimal(fs);
    lemma_lacks_add(m5, decimal(fs), '<');
    let m7 = m6 + l5;
    lemma_lacks_add(m6, l5, '<');
    let m8 = m7 + weight;
    lemma_lacks_add(m7, weight, '<');
    let m9 = m8 + l6;
    lemma_lacks_add(m8, l6, '<');
    let m10 = m9 + color;
    lemma_lacks_add(m9, color, '<');
    let m11 = m10 + l7;
    lemma_lacks_add(m10, l7, '<');
    let mid = m11 + esc;
    lemma_lacks_add(m11, esc, '<');
    let b = block_text(tx, ty, ta, fs, weight, color, field);
    assert(b =~= l1 + mid + l8);
    lemma_count_char_none(mid, '<');
    lemma_count_char_add(l1, mid, '<');
    lemma_count_char_add(l1 + mid, l8, '<');
    let head = l1 + m11;
    assert(b =~= head + esc + l8);
    let q = head.len() - 1;
    assert(head[q] == '>');
    reveal_strlit(">");
    assert(b.subrange(q, q + (">"@ + esc + l8).len()) =~= ">"@ + esc + l8);
}

/// The text block holds one text element per field that is filled in: it
/// has two `<` for each of them (its colours and anchor holding none), and
/// each filled field's escaped text stands in it between `>` and
/// `</text>`.
pub proof fn law_text_block_lines(
    l: CardLayout,
    fields: Seq<Seq<char>>,
    n: nat,
    fg: Seq<char>,
    acc: Seq<char>,
    tx: nat,
    ta: Seq<char>,
    tys: Seq<nat>,
)
    requires
        n <= fields.len(),
        lacks_char(fg, '<'),
        lacks_char(acc, '<'),
        lacks_char(ta, '<'),
    ensures
        count_char(text_block_spec(l, fields, n, fg, acc, tx, ta, tys), '<') == 2 * filled_count(fields, n),
        forall|i: int|
            0 <= i < n && fields[i].len() > 0 ==> has_infix(
                text_block_spec(l, fields, n, fg, acc, tx, ta, tys),
                ">"@ + xml_escaped(#[trigger] fields[i]) + "</text>\n"@,
            ),
    decreases n,
{
    if n > 0 {
        let m = (n - 1) as nat;
        law_text_block_lines(l, fields, m, fg, acc, tx, ta, tys);
        let prev = text_block_spec(l, fields, m, fg, acc, tx, ta, tys);
        let f = fields[m as int];
        reveal_strlit("bold");
        reveal_strlit("normal");
        let line = if f.len() == 0 {
            Seq::<char>::empty()
        } else {
            block_line(l, m as int, f, fg, acc, tx, ta, tys)
        };
        assert(text_block_spec(l, fields, n, fg, acc, tx, ta, tys) == prev + line);
        if f.len() > 0 {
            let fo = block_font(l, m as int);
            lemma_block_text_shape(
                tx,
                if m < 4 { tys[m as int] } else { tys[4] },
                ta,
                fo.0,
                if fo.1 { "bold"@ } else { "normal"@ },
                if m == 1 { acc } else { fg },
                f,
            );
        } else {
            lemma_count_char_none(line, '<');
        }
        lemma_count_char_add(prev, line, '<');
        assert forall|i: int| 0 <= i < n && fields[i].len() > 0 implies has_infix(
            prev + line,
            ">"@ + xml_escaped(#[trigger] fields[i]) + "</text>\n"@,
        ) by {
            if i < m {
                lemma_infix_extend(prev, line, ">"@ + xml_escaped(fields[i]) + "</text>\n"@);
            } else {
                lemma_infix_prepend(prev, line, ">"@ + xml_escaped(fields[i]) + "</text>\n"@);
            }
        }
    }
}

// ─── Variables ───────────────────────────────────────────────────────────────

/// The first index at or after `i` of the variable named `k`.
pub open spec fn key_index_from(vars: Seq<(Seq<char>, Seq<char>)>, k: Seq<char>, i: int) -> Option<int>
    decreases vars.len() - i,
{
    if i < 0 || i >= vars.len() {
        None
    } else if vars[i].0 == k {
        Some(i)
    } else {
        key_index_from(vars, k, i + 1)
    }
}

/// Sets variable `k` to `v`: in place if it is there, appended otherwise.
pub open spec fn var_insert(vars: Seq<(Seq<char>, Seq<char>)>, k: Seq<char>, v: Seq<char>) -> Seq<(Seq<char>, Seq<char>)> {
    match key_index_from(vars, k, 0) {
        Some(i) => vars.update(i, (k, v)),
        None => vars.push((k, v)),
    }
}

/// Adds variable `k` with an empty value unless it is there.
pub open spec fn var_insert_default(vars: Seq<(Seq<char>, Seq<char>)>, k: Seq<char>) -> Seq<(Seq<char>, Seq<char>)> {
    match key_index_from(vars, k, 0) {
        Some(i) => vars,
        None => vars.push((k, Seq::empty())),
    }
}

proof fn lemma_key_index_from(vars: Seq<(Seq<char>, Seq<char>)>, k: Seq<char>, i: int)
    requires
        0 <= i <= vars.len(),
    ensures
        key_index_from(vars, k, i) matches Some(j) ==> i <= j < vars.len() && vars[j].0 == k,
        key_index_from(vars, k, i) is None ==> forall|j: int| i <= j < vars.len() ==> vars[j].0 != k,
    decreases vars.len() - i,
{
    if i < vars.len() && vars[i].0 != k {
        lemma_key_index_from(vars, k, i + 1);
    }
}

/// Sets a variable of the list.
pub fn vars_insert(vars: &mut VarList, k: String, v: String)
    ensures
        vars_view(final(vars)) == var_insert(vars_view(old(vars)), k@, v@),
{
    let ghost vv = vars_view(vars);
    let mut i: usize = 0;
    while i < vars.len()
        invariant
            vv == vars_view(vars),
            vv == vars_view(old(vars)),
            i <= vars@.len(),
            key_index_from(vv, k@, 0) == key_index_from(vv, k@, i as int),
        decreases vars@.len() - i,
    {
        if str_eq(vars[i].0.as_str(), k.as_str()) {
            assert(vv[i as int].0 == k@);
            assert(key_index_from(vv, k@, i as int) == Some(i as int));
            let ghost kv = k@;
            let ghost vw = v@;
            vars.set(i, (k, v));
            assert(vars_view(vars) =~= vv.update(i as int, (kv, vw)));
            assert(key_index_from(vv, kv, 0) == Some(i as int));
            assert(vars_view(vars) == var_insert(vv, kv, vw));
            return;
        }
        i = i + 1;
    }
    vars.push((k, v));
    proof {
        assert(vars_view(vars) =~= vv.push((k@, v@)));
    }
}

/// Adds a variable with an empty value unless the list has it.
pub fn vars_insert_default(vars: &mut VarList, k: String)
    ensures
        vars_view(final(vars)) == var_insert_default(vars_view(old(vars)), k@),
{
    let ghost vv = vars_view(vars);
    let mut i: usize = 0;
    while i < vars.len()
        invariant
            vv == vars_view(vars),
            vv == vars_view(old(vars)),
            i <= vars@.len(),
            key_index_from(vv, k@, 0) == key_index_from(vv, k@, i as int),
        decreases vars@.len() - i,
    {
        if str_eq(vars[i].0.as_str(), k.as_str()) {
            return;
        }
        i = i + 1;
    }
    vars.push((k, String::new()));
    proof {
        assert(vars_view(vars) =~= vv.push((k@, Seq::<char>::empty())));
    }
}

/// The geometry of a card in a template: canvas, QR position and side.
pub open spec fn template_geometry(l: CardLayout) -> (nat, nat, nat, nat, nat) {
    let w = canvas_w(l);
    let h = canvas_h(l);
    let qsz = qr_sz_spec(l, w, h);
    (w, h, qr_x_spec(l, w, h, qsz), qr_y_spec(l, h, qsz), qsz)
}

/// The `QR_IMAGE` block: the QR code's PNG, or the placeholder.
pub open spec fn qr_image_block(l: CardLayout, png: Option<Seq<u8>>) -> Seq<char> {
    let g = template_geometry(l);
    match png {
        Some(p) => template_image(g.2, g.3, g.4, p),
        None => template_placeholder(g.2, g.3, g.4),
    }
}

/// The canvas, colour and geometry variables of a card, in order.
pub open spec fn geometry_vars(c: CardConfig) -> Seq<(Seq<char>, Seq<char>)> {
    let l = c.layout;
    let g = template_geometry(l);
    let tg = text_geometry_spec(l, g.0, g.1, g.2, g.3, g.4);
    let ar = accent_rect_spec(l, g.0, g.3, g.4, tg.0);
    seq![
        ("W"@, decimal(g.0)),
        ("H"@, decimal(g.1)),
        ("BG"@, hex_color(c.bg_color@)),
        ("FG"@, hex_color(c.text_color@)),
        ("AC"@, hex_color(c.accent_color@)),
        ("QR_X"@, decimal(g.2)),
        ("QR_Y"@, decimal(g.3)),
        ("QR_SZ"@, decimal(g.4)),
        ("TX"@, decimal(tg.0)),
        ("TA"@, tg.1),
        ("TY0"@, decimal(tg.2[0])),
        ("TY1"@, decimal(tg.2[1])),
        ("TY2"@, decimal(tg.2[2])),
        ("TY3"@, decimal(tg.2[3])),
        ("TY4"@, decimal(tg.2[4])),
        ("AX"@, int_decimal(ar.0)),
        ("AY"@, decimal(ar.1)),
        ("AW"@, decimal(ar.2)),
        ("AH"@, decimal(ar.3)),
    ]
}

/// The block variables of a card: the QR image, the accent block and the
/// text block.
pub open spec fn block_vars(c: CardConfig, png: Option<Seq<u8>>) -> Seq<(Seq<char>, Seq<char>)> {
    let l = c.layout;
    let g = template_geometry(l);
    let tg = text_geometry_spec(l, g.0, g.1, g.2, g.3, g.4);
    let fg = hex_color(c.text_color@);
    let acc = hex_color(c.accent_color@);
    seq![
        ("QR_IMAGE"@, qr_image_block(l, png)),
        ("ACCENT_BLOCK"@, accent_block_spec(l, acc, g.0, g.1, g.2, g.3, g.4)),
        ("TEXT_BLOCK"@, text_block_spec(l, fields_view(c), c.fields@.len() as nat, fg, acc, tg.0, tg.1, tg.2)),
    ]
}

/// The variables of a card that do not depend on its fields, in order.
pub open spec fn base_vars(c: CardConfig, png: Option<Seq<u8>>) -> Seq<(Seq<char>, Seq<char>)> {
    geometry_vars(c) + block_vars(c, png)
}

/// Sets `Fi` to the escaped text of each card field from `i` on.
pub open spec fn card_field_vars(vars: Seq<(Seq<char>, Seq<char>)>, fields: Seq<Seq<char>>, i: nat) -> Seq<(Seq<char>, Seq<char>)>
    decreases fields.len() - i,
{
    if i >= fields.len() {
        vars
    } else {
        card_field_vars(var_insert(vars, field_var(i), xml_escaped(fields[i as int])), fields, i + 1)
    }
}

/// Sets `Fi` to nothing for each `i` from `i` to 4.
pub open spec fn blank_field_vars(vars: Seq<(Seq<char>, Seq<char>)>, i: nat) -> Seq<(Seq<char>, Seq<char>)>
    decreases 5 - i,
{
    if i >= 5 {
        vars
    } else {
        blank_field_vars(var_insert(vars, field_var(i), Seq::empty()), i + 1)
    }
}

/// Sets each template field's variable (from `i` on) to its escaped value,
/// or to nothing when hidden.
pub open spec fn template_field_vars(vars: Seq<(Seq<char>, Seq<char>)>, fs: Seq<(Seq<char>, bool, Seq<char>)>, i: nat) -> Seq<(Seq<char>, Seq<char>)>
    decreases fs.len() - i,
{
    if i >= fs.len() {
        vars
    } else {
        template_field_vars(
            var_insert(
                vars,
                fs[i as int].0,
                if fs[i as int].1 {
                    xml_escaped(fs[i as int].2)
                } else {
                    Seq::empty()
                },
            ),
            fs,
            i + 1,
        )
    }
}

/// Adds the missing `Fi` among `Fi`..`F4`, empty.
pub open spec fn default_field_vars(vars: Seq<(Seq<char>, Seq<char>)>, i: nat) -> Seq<(Seq<char>, Seq<char>)>
    decreases 5 - i,
{
    if i >= 5 {
        vars
    } else {
        default_field_vars(var_insert_default(vars, field_var(i)), i + 1)
    }
}

/// All the variables of a card: without template fields, the card's own
/// fields (and empty ones up to `F4`); with them, the template fields.
pub open spec fn vars_spec(c: CardConfig, png: Option<Seq<u8>>, fs: Seq<(Seq<char>, bool, Seq<char>)>) -> Seq<(Seq<char>, Seq<char>)> {
    if fs.len() == 0 {
        blank_field_vars(card_field_vars(base_vars(c, png), fields_view(c), 0), c.fields@.len() as nat)
    } else {
        default_field_vars(template_field_vars(base_vars(c, png), fs, 0), 0)
    }
}

fn field_var_exec(i: u64) -> (s: String)
    ensures
        s@ == field_var(i as nat),
{
    let mut s = String::new();
    push_str(&mut s, "F");
    push_decimal(&mut s, i);
    s
}

fn decimal_string(n: u64) -> (s: String)
    ensures
        s@ == decimal(n as nat),
{
    let mut s = String::new();
    push_decimal(&mut s, n);
    s
}

fn var_pair(k: &str, v: String) -> (r: (String, String))
    ensures
        r.0@ == k@,
        r.1@ == v@,
{
    (k.to_owned(), v)
}

fn template_geometry_exec(l: CardLayout, config: &CardConfig) -> (r: (u32, u32, u32, u32, u32))
    requires
        config.layout == l,
    ensures
        (r.0 as nat, r.1 as nat, r.2 as nat, r.3 as nat, r.4 as nat) == template_geometry(l),
        r.0 <= 1184,
        r.1 <= 1184,
        r.2 <= 1184,
        r.3 <= 1184,
        r.4 <= 1184,
{
    let (w, h) = l.canvas_px();
    proof {
        lemma_canvas_bounds(l);
        vstd::arithmetic::power2::lemma2_to64();
        lemma_scale_below_one(h as nat, 13757317, 24);
        lemma_scale_below_one(w as nat, 9730785, 24);
        lemma_scale_below_one(h as nat, 12582912, 24);
        lemma_scale_below_one(w as nat, 13421773, 25);
        lemma_scale_below_one(h as nat, 12079596, 27);
        lemma_scale_below_one(h as nat, 16106127, 28);
    }
    let qsz = calc_qr_sz(config, w, h);
    let qx = calc_qr_x(config, w, h, qsz);
    let qy = calc_qr_y(config, h, qsz);
    (w, h, qx, qy, qsz)
}

/// The variables of a card: canvas, colours, QR and text geometry, the QR
/// image (the raster given, or a placeholder), the accent and text blocks,
/// and the field texts.
fn geometry_vars_exec(config: &CardConfig, vars: &mut VarList)
    requires
        old(vars)@.len() == 0,
    ensures
        vars_view(final(vars)) == geometry_vars(*config),
{
    let l = config.layout;
    let (w, h, qx, qy, qsz) = template_geometry_exec(l, config);
    let (tx, ta, tys) = calc_text_geometry(config, w, h, qx, qy, qsz);
    proof {
        vstd::arithmetic::power2::lemma2_to64();
        lemma_scale_below_one(h as nat, 9395241, 27);
        lemma_scale_below_one(h as nat, 10737418, 25);
    }
    assert(tx <= 5000);
    let (ax, ay, aw, ah) = calc_accent_rect(config, w, h, qx, qy, qsz, tx);
    vars.push(var_pair("W", decimal_string(w as u64)));
    vars.push(var_pair("H", decimal_string(h as u64)));
    vars.push(var_pair("BG", crate::text::hex(config.bg_color)));
    vars.push(var_pair("FG", crate::text::hex(config.text_color)));
    vars.push(var_pair("AC", crate::text::hex(config.accent_color)));
    vars.push(var_pair("QR_X", decimal_string(qx as u64)));
    vars.push(var_pair("QR_Y", decimal_string(qy as u64)));
    vars.push(var_pair("QR_SZ", decimal_string(qsz as u64)));
    vars.push(var_pair("TX", decimal_string(tx as u64)));
    vars.push(var_pair("TA", ta.to_owned()));
    vars.push(var_pair("TY0", decimal_string(tys[0] as u64)));
    vars.push(var_pair("TY1", decimal_string(tys[1] as u64)));
    vars.push(var_pair("TY2", decimal_string(tys[2] as u64)));
    vars.push(var_pair("TY3", decimal_string(tys[3] as u64)));
    vars.push(var_pair("TY4", decimal_string(tys[4] as u64)));
    let mut ax_s = String::new();
    push_int(&mut ax_s, ax as i64);
    vars.push(var_pair("AX", ax_s));
    vars.push(var_pair("AY", decimal_string(ay as u64)));
    vars.push(var_pair("AW", decimal_string(aw as u64)));
    vars.push(var_pair("AH", decimal_string(ah as u64)));
    assert(vars_view(vars) =~= geometry_vars(*config));
}

#[verifier::rlimit(50)]
fn block_vars_exec(config: &CardConfig, qr: Option<&RgbaRaster>) -> (vars: VarList)
    requires
        raster_ok(qr),
    ensures
        vars_view(&vars) == block_vars(*config, raster_png(qr)),
{
    let l = config.layout;
    let (w, h, qx, qy, qsz) = template_geometry_exec(l, config);
    let (tx, ta, tys) = calc_text_geometry(config, w, h, qx, qy, qsz);
    let ghost tg = text_geometry_spec(l, w as nat, h as nat, qx as nat, qy as nat, qsz as nat);
    let qr_image = match qr {
        Some(img) => embed_rgba_image(img, qx, qy, qsz),
        None => qr_placeholder(qx, qy, qsz),
    };
    let accent = build_accent_block(config, w, h, qx, qy, qsz);
    let text = build_text_block(config, tx, ta, &tys);
    proof {
        assert(Seq::new(5, |k: int| tys@[k] as nat) =~= tg.2);
    }
    let mut vars: VarList = Vec::new();
    vars.push(var_pair("QR_IMAGE", qr_image));
    vars.push(var_pair("ACCENT_BLOCK", accent));
    vars.push(var_pair("TEXT_BLOCK", text));
    assert(vars_view(&vars) =~= block_vars(*config, raster_png(qr)));
    vars
}

fn base_vars_exec(config: &CardConfig, qr: Option<&RgbaRaster>) -> (vars: VarList)
    requires
        raster_ok(qr),
    ensures
        vars_view(&vars) == base_vars(*config, raster_png(qr)),
{
    let mut vars: VarList = Vec::new();
    geometry_vars_exec(config, &mut vars);
    let mut blocks = block_vars_exec(config, qr);
    let ghost a = vars_view(&vars);
    let ghost b = vars_view(&blocks);
    vars.append(&mut blocks);
    assert(vars_view(&vars) =~= a + b);
    vars
}

fn add_card_field_vars(vars: &mut VarList, config: &CardConfig)
    ensures
        vars_view(final(vars)) == blank_field_vars(
            card_field_vars(vars_view(old(vars)), fields_view(*config), 0),
            config.fields@.len() as nat,
        ),
{
    let ghost base = vars_view(vars);
    let ghost fv = fields_view(*config);
    let n = config.fields.len();
    let mut i: usize = 0;
    while i < n
        invariant
            n == config.fields@.len(),
            fv == fields_view(*config),
            i <= n,
            card_field_vars(vars_view(vars), fv, i as nat) == card_field_vars(base, fv, 0),
        decreases n - i,
    {
        let val = crate::text::xml_escape(config.fields[i].as_str());
        vars_insert(vars, field_var_exec(i as u64), val);
        i = i + 1;
    }
    let mut j: usize = n;
    while j < 5
        invariant
            n <= j,
            n == config.fields@.len(),
            blank_field_vars(vars_view(vars), j as nat) == blank_field_vars(card_field_vars(base, fv, 0), n as nat),
        decreases 5 - j,
    {
        vars_insert(vars, field_var_exec(j as u64), String::new());
        j = j + 1;
    }
}

fn add_template_field_vars(vars: &mut VarList, fields: &[TemplateField])
    ensures
        vars_view(final(vars)) == default_field_vars(template_field_vars(vars_view(old(vars)), fields_tv(fields@), 0), 0),
{
    let ghost base = vars_view(vars);
    let ghost fs = fields_tv(fields@);
    let mut i: usize = 0;
    while i < fields.len()
        invariant
            fs == fields_tv(fields@),
            i <= fields@.len(),
            template_field_vars(vars_view(vars), fs, i as nat) == template_field_vars(base, fs, 0),
        decreases fields@.len() - i,
    {
        let tf = &fields[i];
        let val = if !tf.visible {
            String::new()
        } else {
            crate::text::xml_escape(tf.value.as_str())
        };
        vars_insert(vars, tf.var.clone(), val);
        i = i + 1;
    }
    let mut j: u64 = 0;
    while j < 5
        invariant
            j <= 5,
            default_field_vars(vars_view(vars), j as nat) == default_field_vars(template_field_vars(base, fs, 0), 0),
        decreases 5 - j,
    {
        vars_insert_default(vars, field_var_exec(j));
        j = j + 1;
    }
}

/// The variables of a card: canvas, colours, QR and text geometry, the QR
/// image (the raster given, or a placeholder), the accent and text blocks,
/// and the field texts.
pub fn build_vars(config: &CardConfig, qr: Option<&RgbaRaster>, fields: &[TemplateField]) -> (vars: VarList)
    requires
        raster_ok(qr),
    ensures
        vars_view(&vars) == vars_spec(*config, raster_png(qr), fields_tv(fields@)),
{
    let mut vars = base_vars_exec(config, qr);
    if fields.len() == 0 {
        add_card_field_vars(&mut vars, config);
    } else {
        add_template_field_vars(&mut vars, fields);
    }
    vars
}

/// A template rendered for a card: colour slots, default-text slots, then
/// every variable substituted.
pub open spec fn render_spec(
    template: Seq<char>,
    c: CardConfig,
    png: Option<Seq<u8>>,
    fields: Seq<TemplateField>,
    colors: Seq<TemplateColor>,
) -> Seq<char> {
    let t = defaults_applied(colors_applied(template, colors_tv(colors)), fields_tv(fields), 0);
    substitute_spec(t, vars_spec(c, png, fields_tv(fields)))
}

/// Renders `template` for the card with every variable substituted; the
/// QR code is the raster given, embedded as PNG, or a placeholder.
pub fn render(
    template: &str,
    config: &CardConfig,
    qr: Option<&RgbaRaster>,
    fields: &[TemplateField],
    colors: &[TemplateColor],
) -> (r: String)
    requires
        raster_ok(qr),
    ensures
        r@ == render_spec(template@, *config, raster_png(qr), fields@, colors@),
{
    let t1 = preprocess_colors(template, colors);
    let t2 = preprocess_defaults(t1.as_str(), fields);
    let vars = build_vars(config, qr, fields);
    substitute(t2.as_str(), &vars)
}

/// Renders `template` for the live preview: the QR code already shown in
/// the sidebar when there is one, a placeholder otherwise.
pub fn render_preview(
    template: &str,
    config: &CardConfig,
    fields: &[TemplateField],
    colors: &[TemplateColor],
    qr_image: Option<&RgbaRaster>,
) -> (r: String)
    requires
        raster_ok(qr_image),
    ensures
        r@ == render_spec(template@, *config, raster_png(qr_image), fields@, colors@),
{
    render(template, config, qr_image, fields, colors)
}

} // verus!
