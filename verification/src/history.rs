//! Library of saved QR configurations: entries with an identifier, a name,
//! a date, the form and the card designer's state.
use vstd::prelude::*;
use crate::card::CardConfig;
use crate::qr::types::QrForm;
use crate::text::{decimal, push_padded, push_str, zero_padded};

verus! {

// ─── Template state ──────────────────────────────────────────────────────────

/// A saved text field of a template.
#[derive(Clone)]
pub struct SavedField {
    pub var: String,
    pub value: String,
    pub visible: bool,
}

/// A saved colour of a template.
#[derive(Clone)]
pub struct SavedColor {
    pub var: String,
    pub value: [u8; 3],
}

/// The whole state of the card designer, saved with each library entry.
#[derive(Clone)]
pub struct SavedTemplateState {
    /// The built-in template's identifier, if one is chosen.
    pub builtin_id: Option<String>,
    /// The template's SVG when it is custom or remote.
    pub custom_svg: Option<String>,
    /// The values of the text fields `{{F0}}`..`{{F4}}`.
    pub fields: Vec<SavedField>,
    /// The values of the colours `{{C0}}`..`{{C4}}`.
    pub colors: Vec<SavedColor>,
    /// The card's configuration.
    pub card: Option<CardConfig>,
}

impl Default for SavedTemplateState {
    fn default() -> (s: Self)
        ensures
            s.builtin_id is None,
            s.custom_svg is None,
            s.fields@.len() == 0,
            s.colors@.len() == 0,
            s.card is None,
    {
        SavedTemplateState { builtin_id: None, custom_svg: None, fields: Vec::new(), colors: Vec::new(), card: None }
    }
}

impl Default for SavedField {
    fn default() -> (s: Self)
        ensures
            s.var@.len() == 0,
            s.value@.len() == 0,
            !s.visible,
    {
        SavedField { var: String::new(), value: String::new(), visible: false }
    }
}

// ─── Library entry ───────────────────────────────────────────────────────────

/// A saved configuration.
#[derive(Clone)]
pub struct LibraryEntry {
    pub id: u64,
    pub name: String,
    /// When it was saved: `YYYY-MM-DD HH:MM`.
    pub date: String,
    pub form: QrForm,
    pub template: SavedTemplateState,
}

// ─── Dates ───────────────────────────────────────────────────────────────────

/// Whether `y` is a leap year of the Gregorian calendar.
pub open spec fn is_leap_spec(y: int) -> bool {
    (y % 4 == 0 && y % 100 != 0) || y % 400 == 0
}

/// Whether `y` is a leap year.
pub fn is_leap(y: u64) -> (r: bool)
    ensures
        r == is_leap_spec(y as int),
{
    (y % 4 == 0 && y % 100 != 0) || y % 400 == 0
}

/// The number of days of year `y`.
pub open spec fn year_len(y: int) -> nat {
    if is_leap_spec(y) {
        366
    } else {
        365
    }
}

/// The number of days of month `m` (1 to 12).
pub open spec fn month_len(leap: bool, m: int) -> nat {
    if m == 2 {
        if leap {
            29
        } else {
            28
        }
    } else if m == 4 || m == 6 || m == 9 || m == 11 {
        30
    } else {
        31
    }
}

/// The year holding day `d` counted from the start of year `y`, and the
/// day within it.
pub open spec fn year_and_day(d: nat, y: nat) -> (nat, nat)
    decreases d,
{
    if d < year_len(y as int) {
        (y, d)
    } else {
        year_and_day((d - year_len(y as int)) as nat, y + 1)
    }
}

/// The month holding day `d` of the year counted from the start of month
/// `m`, and the day within it.
pub open spec fn month_and_day(d: nat, leap: bool, m: nat) -> (nat, nat)
    decreases 13 - m,
{
    if m >= 13 {
        (m, d)
    } else if d < month_len(leap, m as int) {
        (m, d)
    } else {
        month_and_day((d - month_len(leap, m as int)) as nat, leap, m + 1)
    }
}

/// The date (year, month, day) of day `d` after 1970-01-01.
pub open spec fn ymd(d: nat) -> (nat, nat, nat) {
    let yd = year_and_day(d, 1970);
    let md = month_and_day(yd.1, is_leap_spec(yd.0 as int), 1);
    (yd.0, md.0, md.1 + 1)
}

proof fn lemma_year_and_day(d: nat, y: nat)
    ensures
        year_and_day(d, y).1 < year_len(year_and_day(d, y).0 as int),
        y <= year_and_day(d, y).0 <= y + d,
    decreases d,
{
    if d >= year_len(y as int) {
        lemma_year_and_day((d - year_len(y as int)) as nat, y + 1);
    }
}

proof fn lemma_month_and_day(d: nat, leap: bool)
    requires
        d < if leap {
            366nat
        } else {
            365nat
        },
    ensures
        1 <= month_and_day(d, leap, 1).0 <= 12,
        month_and_day(d, leap, 1).1 < month_len(leap, month_and_day(d, leap, 1).0 as int),
{
    reveal_with_fuel(month_and_day, 13);
}

/// The date (year, month, day) of day `d` after 1970-01-01: a month from 1
/// to 12 and a day of that month.
pub fn days_to_ymd(d: u64) -> (r: (u64, u64, u64))
    ensures
        (r.0 as nat, r.1 as nat, r.2 as nat) == ymd(d as nat),
        1 <= r.1 <= 12,
        1 <= r.2 <= month_len(is_leap_spec(r.0 as int), r.1 as int),
{
    proof {
        lemma_year_and_day(d as nat, 1970);
    }
    let mut d = d;
    let ghost d0 = d as nat;
    let mut y: u64 = 1970;
    loop
        invariant
            year_and_day(d as nat, y as nat) == year_and_day(d0, 1970),
            (y - 1970) * 365 + d <= d0,
            y >= 1970,
            d0 <= u64::MAX,
        ensures
            year_and_day(d as nat, y as nat) == year_and_day(d0, 1970),
            d < year_len(y as int),
        decreases d,
    {
        let dy: u64 = if is_leap(y) {
            366
        } else {
            365
        };
        if d < dy {
            break;
        }
        assert(y < u64::MAX) by (nonlinear_arith)
            requires
                (y - 1970) * 365 + d <= d0,
                d0 <= u64::MAX,
                y >= 1970,
        ;
        d = d - dy;
        y = y + 1;
    }
    let leap = is_leap(y);
    proof {
        lemma_month_and_day(d as nat, leap);
    }
    let mut mo: u64 = 1;
    loop
        invariant
            1 <= mo <= 12,
            month_and_day(d as nat, leap, mo as nat) == month_and_day(year_and_day(d0, 1970).1, leap, 1),
            leap == is_leap_spec(y as int),
            month_and_day(d as nat, leap, mo as nat).0 <= 12,
        ensures
            month_and_day(d as nat, leap, mo as nat) == month_and_day(year_and_day(d0, 1970).1, leap, 1),
            d < month_len(leap, mo as int),
            1 <= mo <= 12,
        decreases 13 - mo,
    {
        let dm: u64 = if mo == 2 {
            if leap {
                29
            } else {
                28
            }
        } else if mo == 4 || mo == 6 || mo == 9 || mo == 11 {
            30
        } else {
            31
        };
        assert(dm == month_len(leap, mo as int));
        if d < dm {
            break;
        }
        let ghost old_d = d;
        d = d - dm;
        assert(month_and_day(old_d as nat, leap, mo as nat) == month_and_day(d as nat, leap, (mo + 1) as nat));
        mo = mo + 1;
    }
    (y, mo, d + 1)
}

/// Days of the Gregorian calendar before month `m` (1 to 13) of a year:
/// 31 in January, 28 or 29 in February, 31, 30, 31, 30, 31, 31, 30, 31,
/// 30, 31.
pub open spec fn days_before_month(leap: bool, m: int) -> int {
    let base: int = if m <= 1 {
        0
    } else if m == 2 {
        31
    } else if m == 3 {
        59
    } else if m == 4 {
        90
    } else if m == 5 {
        120
    } else if m == 6 {
        151
    } else if m == 7 {
        181
    } else if m == 8 {
        212
    } else if m == 9 {
        243
    } else if m == 10 {
        273
    } else if m == 11 {
        304
    } else if m == 12 {
        334
    } else {
        365
    };
    base + if leap && m > 2 {
        1int
    } else {
        0int
    }
}

/// Days from 1970-01-01 to the first of January of year `y`.
pub open spec fn days_before_year(y: nat) -> nat
    decreases y,
{
    if y <= 1970 {
        0
    } else {
        days_before_year((y - 1) as nat) + if is_leap_spec(y - 1) {
            366nat
        } else {
            365nat
        }
    }
}

proof fn lemma_year_count(d: nat, y: nat)
    requires
        y >= 1970,
    ensures
        year_and_day(d, y).0 >= y,
        days_before_year(year_and_day(d, y).0) + year_and_day(d, y).1 == days_before_year(y) + d,
    decreases d,
{
    if d >= year_len(y as int) {
        lemma_year_count((d - year_len(y as int)) as nat, y + 1);
    }
}

proof fn lemma_month_count(d: nat, leap: bool, m: nat)
    requires
        1 <= m <= 13,
    ensures
        m <= month_and_day(d, leap, m).0 <= 13,
        days_before_month(leap, month_and_day(d, leap, m).0 as int) + month_and_day(d, leap, m).1
            == days_before_month(leap, m as int) + d,
    decreases 13 - m,
{
    if m < 13 && d >= month_len(leap, m as int) {
        lemma_month_count((d - month_len(leap, m as int)) as nat, leap, m + 1);
    }
}

/// The date of day `d` after 1970-01-01 is the Gregorian one: a month of
/// the year, a day within that month's length, and counting the days of
/// the years and months before it, plus the day, gives `d` back.
pub proof fn law_ymd_is_gregorian(d: nat)
    ensures
        ({
            let (y, m, day) = ymd(d);
            let leap = is_leap_spec(y as int);
            &&& y >= 1970
            &&& 1 <= m <= 12
            &&& 1 <= day
            &&& day <= days_before_month(leap, m + 1int) - days_before_month(leap, m as int)
            &&& days_before_year(y) + days_before_month(leap, m as int) + day - 1 == d
        }),
{
    let yd = year_and_day(d, 1970);
    lemma_year_and_day(d, 1970);
    lemma_year_count(d, 1970);
    let leap = is_leap_spec(yd.0 as int);
    lemma_month_and_day(yd.1, leap);
    lemma_month_count(yd.1, leap, 1);
    let md = month_and_day(yd.1, leap, 1);
    assert(month_len(leap, md.0 as int) == days_before_month(leap, md.0 + 1int) - days_before_month(leap, md.0 as int));
}

/// The date and time of `secs` seconds after the Unix epoch (UTC), as
/// `YYYY-MM-DD HH:MM`.
pub open spec fn date_time_text(secs: nat) -> Seq<char> {
    let min = (secs / 60) % 60;
    let hour = (secs / 3600) % 24;
    let date = ymd(secs / 86400);
    zero_padded(date.0, 4) + "-"@ + zero_padded(date.1, 2) + "-"@ + zero_padded(date.2, 2) + " "@ + zero_padded(hour, 2)
        + ":"@ + zero_padded(min, 2)
}

/// Formats a time, `secs` seconds after the Unix epoch, as the library
/// writes dates.
pub fn date_string(secs: u64) -> (r: String)
    ensures
        r@ == date_time_text(secs as nat),
{
    let min = (secs / 60) % 60;
    let hour = (secs / 3600) % 24;
    let days = secs / 86400;
    let (y, mo, d) = days_to_ymd(days);
    let mut s = String::new();
    push_padded(&mut s, y, 4);
    push_str(&mut s, "-");
    push_padded(&mut s, mo, 2);
    push_str(&mut s, "-");
    push_padded(&mut s, d, 2);
    push_str(&mut s, " ");
    push_padded(&mut s, hour, 2);
    push_str(&mut s, ":");
    push_padded(&mut s, min, 2);
    s
}

// ─── Entries ─────────────────────────────────────────────────────────────────

/// The largest identifier among the entries, 0 when there is none.
pub open spec fn max_id(entries: Seq<LibraryEntry>) -> nat
    decreases entries.len(),
{
    if entries.len() == 0 {
        0
    } else {
        let m = max_id(entries.drop_last());
        if entries.last().id > m {
            entries.last().id as nat
        } else {
            m
        }
    }
}

proof fn lemma_max_id(entries: Seq<LibraryEntry>)
    ensures
        forall|k: int| 0 <= k < entries.len() ==> (#[trigger] entries[k]).id <= max_id(entries),
        max_id(entries) <= u64::MAX,
    decreases entries.len(),
{
    if entries.len() > 0 {
        lemma_max_id(entries.drop_last());
        assert forall|k: int| 0 <= k < entries.len() implies (#[trigger] entries[k]).id <= max_id(entries) by {
            if k < entries.len() - 1 {
                assert(entries[k] == entries.drop_last()[k]);
            }
        }
    }
}

/// The largest identifier of the entries, 0 when there is none.
fn largest_id(entries: &[LibraryEntry]) -> (m: u64)
    ensures
        m == max_id(entries@),
{
    let mut m: u64 = 0;
    let mut i: usize = 0;
    while i < entries.len()
        invariant
            i <= entries@.len(),
            m == max_id(entries@.subrange(0, i as int)),
        decreases entries@.len() - i,
    {
        proof {
            assert(entries@.subrange(0, i + 1).drop_last() =~= entries@.subrange(0, i as int));
        }
        if entries[i].id > m {
            m = entries[i].id;
        }
        i = i + 1;
    }
    assert(entries@.subrange(0, entries@.len() as int) =~= entries@);
    m
}

/// Whether a new entry can get an identifier: the largest one is below
/// `u64::MAX`.
pub fn has_free_id(entries: &[LibraryEntry]) -> (r: bool)
    ensures
        r == (max_id(entries@) < u64::MAX),
{
    largest_id(entries) < u64::MAX
}

/// The identifier for a new entry: one more than the largest.
fn next_id(entries: &[LibraryEntry]) -> (id: u64)
    requires
        max_id(entries@) < u64::MAX,
    ensures
        id == max_id(entries@) + 1,
{
    largest_id(entries) + 1
}

/// Saves a configuration at the top of the library, with a new identifier
/// (one more than the largest) and the date given.
pub fn add_entry(entries: &mut Vec<LibraryEntry>, name: String, form: QrForm, template: SavedTemplateState, date: String)
    requires
        max_id(old(entries)@) < u64::MAX,
    ensures
        final(entries)@ == old(entries)@.insert(
            0,
            LibraryEntry { id: (max_id(old(entries)@) + 1) as u64, name, date, form, template },
        ),
{
    let id = next_id(entries.as_slice());
    entries.insert(0, LibraryEntry { id, name, date, form, template });
}

/// The entries whose identifier is not `id`, in order.
pub open spec fn kept_entries(entries: Seq<LibraryEntry>, id: u64) -> Seq<LibraryEntry> {
    entries.filter(|e: LibraryEntry| e.id != id)
}

/// Removes the entries with identifier `id`, keeping the others in order.
pub fn remove_entry(entries: &mut Vec<LibraryEntry>, id: u64)
    ensures
        final(entries)@ == kept_entries(old(entries)@, id),
{
    let ghost orig = entries@;
    let ghost n = orig.len();
    let mut kept: Vec<LibraryEntry> = Vec::new();
    let mut rest: Vec<LibraryEntry> = Vec::new();
    std::mem::swap(&mut rest, entries);
    proof {
        assert(orig.subrange(0, 0) =~= Seq::<LibraryEntry>::empty());
        reveal(Seq::filter);
        assert(orig.subrange(0, n as int) =~= orig);
    }
    while rest.len() > 0
        invariant
            n == orig.len(),
            rest@.len() <= n,
            rest@ == orig.subrange(n - rest@.len(), n as int),
            kept@ == orig.subrange(0, n - rest@.len()).filter(|e: LibraryEntry| e.id != id),
        decreases rest@.len(),
    {
        let ghost i = n - rest@.len();
        let e = rest.remove(0);
        proof {
            assert(orig.subrange(0, i + 1).drop_last() =~= orig.subrange(0, i));
            assert(rest@ =~= orig.subrange(n - rest@.len(), n as int));
            reveal(Seq::filter);
        }
        if e.id != id {
            kept.push(e);
        }
    }
    *entries = kept;
}

/// Whether no two entries share an identifier.
pub open spec fn ids_unique(es: Seq<LibraryEntry>) -> bool {
    forall|i: int, j: int| 0 <= i < j < es.len() ==> es[i].id != es[j].id
}

/// Saving an entry gives it an identifier larger than every saved one, so
/// identifiers that were unique stay unique.
pub proof fn law_add_keeps_ids_unique(entries: Seq<LibraryEntry>, e: LibraryEntry)
    requires
        ids_unique(entries),
        max_id(entries) < u64::MAX,
        e.id == max_id(entries) + 1,
    ensures
        ids_unique(entries.insert(0, e)),
        forall|k: int| 0 <= k < entries.len() ==> (#[trigger] entries[k]).id < e.id,
{
    lemma_max_id(entries);
    let s = entries.insert(0, e);
    assert forall|i: int, j: int| 0 <= i < j < s.len() implies s[i].id != s[j].id by {
        if i == 0 {
            assert(s[j] == entries[j - 1]);
        } else {
            assert(s[i] == entries[i - 1]);
            assert(s[j] == entries[j - 1]);
        }
    }
}

/// Removing an identifier leaves no entry with it and keeps every other
/// entry.
pub proof fn law_remove_exact(entries: Seq<LibraryEntry>, id: u64)
    ensures
        forall|k: int| 0 <= k < kept_entries(entries, id).len() ==> (#[trigger] kept_entries(entries, id)[k]).id != id,
        forall|k: int| 0 <= k < entries.len() && (#[trigger] entries[k]).id != id ==> kept_entries(entries, id).contains(entries[k]),
{
    broadcast use vstd::seq_lib::group_filter_ensures;
    let p = |e: LibraryEntry| e.id != id;
    assert forall|k: int| 0 <= k < entries.filter(p).len() implies (#[trigger] entries.filter(p)[k]).id != id by {
        assert(p(entries.filter(p)[k]));
    }
    assert forall|k: int| 0 <= k < entries.len() && (#[trigger] entries[k]).id != id implies entries.filter(p).contains(entries[k]) by {
        assert(p(entries[k]));
    }
}

proof fn lemma_filter_all_kept(entries: Seq<LibraryEntry>, id: u64)
    requires
        forall|k: int| 0 <= k < entries.len() ==> (#[trigger] entries[k]).id != id,
    ensures
        kept_entries(entries, id) == entries,
    decreases entries.len(),
{
    reveal(Seq::filter);
    if entries.len() > 0 {
        lemma_filter_all_kept(entries.drop_last(), id);
        assert(entries.drop_last().push(entries.last()) =~= entries);
    }
}

/// Removing the entry just saved gives back the library as it was.
pub proof fn law_remove_undoes_add(entries: Seq<LibraryEntry>, e: LibraryEntry)
    requires
        max_id(entries) < u64::MAX,
        e.id == max_id(entries) + 1,
    ensures
        kept_entries(entries.insert(0, e), e.id) == entries,
{
    lemma_max_id(entries);
    let p = |x: LibraryEntry| x.id != e.id;
    assert(entries.insert(0, e) =~= seq![e] + entries);
    entries.lemma_filter_prepend(e, p);
    lemma_filter_all_kept(entries, e.id);
    assert(Seq::<LibraryEntry>::empty() + entries =~= entries);
}

} // verus!
