//! Translations: a table of keys and texts read from a TOML language file,
//! the choice of that file from the system locale, and the lookup.
use vstd::prelude::*;
use crate::render::str_eq;
use crate::text::{chars_of, find_chars, find_first, push_char, push_chars, push_str};

verus! {

/// A translation table: each key occurs at most once.
pub struct Lang {
    strings: Vec<(String, String)>,
}

/// The keys and texts of a table, in order.
pub open spec fn pairs_view(v: Seq<(String, String)>) -> Seq<(Seq<char>, Seq<char>)> {
    Seq::new(v.len(), |i: int| (v[i].0@, v[i].1@))
}

/// Whether no key occurs twice.
pub open spec fn keys_unique(p: Seq<(Seq<char>, Seq<char>)>) -> bool {
    forall|i: int, j: int| 0 <= i < j < p.len() ==> p[i].0 != p[j].0
}

/// The map of a list of pairs with unique keys.
pub open spec fn pairs_map(p: Seq<(Seq<char>, Seq<char>)>) -> Map<Seq<char>, Seq<char>>
    decreases p.len(),
{
    if p.len() == 0 {
        Map::empty()
    } else {
        pairs_map(p.drop_last()).insert(p.last().0, p.last().1)
    }
}

impl View for Lang {
    type V = Map<Seq<char>, Seq<char>>;

    closed spec fn view(&self) -> Map<Seq<char>, Seq<char>> {
        pairs_map(pairs_view(self.strings@))
    }
}

impl Lang {
    /// The table is well formed: no key occurs twice.
    pub closed spec fn wf(&self) -> bool {
        keys_unique(pairs_view(self.strings@))
    }

    /// An empty table.
    pub fn new() -> (l: Lang)
        ensures
            l.wf(),
            l@ == Map::<Seq<char>, Seq<char>>::empty(),
    {
        let l = Lang { strings: Vec::new() };
        assert(pairs_view(l.strings@) =~= Seq::<(Seq<char>, Seq<char>)>::empty());
        l
    }

    /// The translation of `key`, or `key` itself when the table lacks it.
    pub fn t(&self, key: &str) -> (r: String)
        requires
            self.wf(),
        ensures
            r@ == (if self@.contains_key(key@) {
                self@[key@]
            } else {
                key@
            }),
    {
        let ghost p = pairs_view(self.strings@);
        let mut i: usize = 0;
        while i < self.strings.len()
            invariant
                p == pairs_view(self.strings@),
                keys_unique(p),
                i <= self.strings@.len(),
                forall|j: int| 0 <= j < i ==> p[j].0 != key@,
            decreases self.strings@.len() - i,
        {
            if str_eq(self.strings[i].0.as_str(), key) {
                proof {
                    lemma_pairs_map_at(p, i as int);
                }
                return self.strings[i].1.clone();
            }
            i = i + 1;
        }
        proof {
            lemma_pairs_map_absent(p, key@);
        }
        key.to_owned()
    }

    /// Sets the text of `key`, replacing an earlier one.
    pub fn insert(&mut self, key: String, value: String)
        requires
            old(self).wf(),
        ensures
            final(self).wf(),
            final(self)@ == old(self)@.insert(key@, value@),
    {
        let ghost p = pairs_view(self.strings@);
        let ghost kv = key@;
        let ghost vv = value@;
        let mut i: usize = 0;
        while i < self.strings.len()
            invariant
                p == pairs_view(self.strings@),
                p == pairs_view(old(self).strings@),
                keys_unique(p),
                kv == key@,
                vv == value@,
                i <= self.strings@.len(),
                forall|j: int| 0 <= j < i ==> p[j].0 != kv,
            decreases self.strings@.len() - i,
        {
            if str_eq(self.strings[i].0.as_str(), key.as_str()) {
                self.strings.set(i, (key, value));
                proof {
                    let q = pairs_view(self.strings@);
                    assert(q =~= p.update(i as int, (kv, vv)));
                    lemma_pairs_map_update(p, i as int, vv);
                }
                return;
            }
            i = i + 1;
        }
        self.strings.push((key, value));
        proof {
            let q = pairs_view(self.strings@);
            assert(q =~= p.push((kv, vv)));
            assert(q.drop_last() =~= p);
        }
    }
}

proof fn lemma_pairs_map_absent(p: Seq<(Seq<char>, Seq<char>)>, k: Seq<char>)
    requires
        forall|j: int| 0 <= j < p.len() ==> p[j].0 != k,
    ensures
        !pairs_map(p).contains_key(k),
    decreases p.len(),
{
    if p.len() > 0 {
        lemma_pairs_map_absent(p.drop_last(), k);
    }
}

proof fn lemma_pairs_map_at(p: Seq<(Seq<char>, Seq<char>)>, i: int)
    requires
        keys_unique(p),
        0 <= i < p.len(),
    ensures
        pairs_map(p).contains_key(p[i].0),
        pairs_map(p)[p[i].0] == p[i].1,
    decreases p.len(),
{
    if i < p.len() - 1 {
        lemma_pairs_map_at(p.drop_last(), i);
    }
}

proof fn lemma_pairs_map_update(p: Seq<(Seq<char>, Seq<char>)>, i: int, v: Seq<char>)
    requires
        keys_unique(p),
        0 <= i < p.len(),
    ensures
        keys_unique(p.update(i, (p[i].0, v))),
        pairs_map(p.update(i, (p[i].0, v))) == pairs_map(p).insert(p[i].0, v),
    decreases p.len(),
{
    let q = p.update(i, (p[i].0, v));
    if i < p.len() - 1 {
        assert(q.drop_last() =~= p.drop_last().update(i, (p[i].0, v)));
        lemma_pairs_map_update(p.drop_last(), i, v);
        assert(pairs_map(q) =~= pairs_map(p).insert(p[i].0, v));
    } else {
        assert(q.drop_last() =~= p.drop_last());
        lemma_pairs_map_absent(p.drop_last(), p[i].0);
        assert(pairs_map(q) =~= pairs_map(p).insert(p[i].0, v));
    }
}

impl Default for Lang {
    fn default() -> (l: Self)
        ensures
            l.wf(),
            l@ == Map::<Seq<char>, Seq<char>>::empty(),
    {
        Lang::new()
    }
}

// ─── Language files ──────────────────────────────────────────────────────────

/// A value of a TOML table: a string, a table, or another value in its
/// TOML form.
pub enum TomlItem {
    Str(String),
    Other(String),
    Table(Vec<(String, TomlItem)>),
}

/// What a `TomlItem` stands for: its texts, and the entries of a table.
pub enum TomlItemView {
    Str(Seq<char>),
    Other(Seq<char>),
    Table(Seq<(Seq<char>, TomlItemView)>),
}

/// The view of one value.
pub open spec fn item_view(v: TomlItem) -> TomlItemView
    decreases v,
{
    match v {
        TomlItem::Str(s) => TomlItemView::Str(s@),
        TomlItem::Other(s) => TomlItemView::Other(s@),
        TomlItem::Table(t) => TomlItemView::Table(items_view(t@)),
    }
}

/// The view of the entries of a table, in order.
pub open spec fn items_view(s: Seq<(String, TomlItem)>) -> Seq<(Seq<char>, TomlItemView)>
    decreases s,
{
    if s.len() == 0 {
        Seq::empty()
    } else {
        proof {
            assert(decreases_to!(s => s[0]));
            assert(decreases_to!(s => s.subrange(1, s.len() as int)));
        }
        seq![(s[0].0@, item_view(s[0].1))] + items_view(s.subrange(1, s.len() as int))
    }
}

proof fn lemma_items_view(s: Seq<(String, TomlItem)>)
    ensures
        items_view(s).len() == s.len(),
        forall|i: int| 0 <= i < s.len() ==> #[trigger] items_view(s)[i] == (s[i].0@, item_view(s[i].1)),
    decreases s.len(),
{
    if s.len() > 0 {
        let r = s.subrange(1, s.len() as int);
        lemma_items_view(r);
        assert forall|i: int| 0 <= i < s.len() implies #[trigger] items_view(s)[i] == (s[i].0@, item_view(s[i].1)) by {
            if i > 0 {
                assert(r[i - 1] == s[i]);
            }
        }
    }
}

/// The key of `k` under `prefix`: `prefix.k`, or `k` at the top.
pub open spec fn nested_key(prefix: Seq<char>, k: Seq<char>) -> Seq<char> {
    if prefix.len() == 0 {
        k
    } else {
        prefix + "."@ + k
    }
}

/// The texts of a TOML table added to `m`, entry after entry: nested
/// tables under dotted keys, other values as their TOML form.
pub open spec fn flatten_spec(
    prefix: Seq<char>,
    items: Seq<(Seq<char>, TomlItemView)>,
    m: Map<Seq<char>, Seq<char>>,
) -> Map<Seq<char>, Seq<char>>
    decreases items,
{
    if items.len() == 0 {
        m
    } else {
        let key = nested_key(prefix, items[0].0);
        let m1 = match items[0].1 {
            TomlItemView::Table(t) => {
                proof {
                    assert(decreases_to!(items => items[0]));
                }
                flatten_spec(key, t, m)
            },
            TomlItemView::Str(s) => m.insert(key, s),
            TomlItemView::Other(s) => m.insert(key, s),
        };
        flatten_spec(prefix, items.drop_first(), m1)
    }
}

fn nested_key_exec(prefix: &str, k: &str) -> (r: String)
    ensures
        r@ == nested_key(prefix@, k@),
{
    if prefix.is_empty() {
        k.to_owned()
    } else {
        let mut s = prefix.to_owned();
        push_str(&mut s, ".");
        push_str(&mut s, k);
        s
    }
}

impl Lang {
    /// Adds the texts of a TOML table under `prefix`.
    pub fn flatten_table(&mut self, prefix: &str, table: &Vec<(String, TomlItem)>)
        requires
            old(self).wf(),
        ensures
            final(self).wf(),
            final(self)@ == flatten_spec(prefix@, items_view(table@), old(self)@),
        decreases table@,
    {
        let ghost v = items_view(table@);
        proof {
            lemma_items_view(table@);
        }
        let mut i: usize = 0;
        assert(v.subrange(0, v.len() as int) =~= v);
        while i < table.len()
            invariant
                self.wf(),
                v == items_view(table@),
                v.len() == table@.len(),
                forall|j: int| 0 <= j < table@.len() ==> #[trigger] v[j] == (table@[j].0@, item_view(table@[j].1)),
                i <= table@.len(),
                flatten_spec(prefix@, v.subrange(i as int, v.len() as int), self@) == flatten_spec(
                    prefix@,
                    v,
                    old(self)@,
                ),
            decreases table@.len() - i,
        {
            let ghost rest = v.subrange(i as int, v.len() as int);
            let key = nested_key_exec(prefix, table[i].0.as_str());
            proof {
                assert(rest[0] == v[i as int]);
                assert(rest.drop_first() =~= v.subrange(i + 1, v.len() as int));
            }
            match &table[i].1 {
                TomlItem::Table(t) => {
                    proof {
                        assert(decreases_to!(table@ => table@[i as int]));
                    }
                    self.flatten_table(key.as_str(), t);
                },
                TomlItem::Str(s) => {
                    self.insert(key, s.clone());
                },
                TomlItem::Other(s) => {
                    self.insert(key, s.clone());
                },
            }
            i = i + 1;
        }
    }

    /// The translations of a language file's top-level table.
    pub fn from_table(table: &Vec<(String, TomlItem)>) -> (l: Lang)
        ensures
            l.wf(),
            l@ == flatten_spec(Seq::empty(), items_view(table@), Map::empty()),
    {
        let mut l = Lang::new();
        let empty = "";
        proof {
            reveal_strlit("");
            assert(empty@ =~= Seq::<char>::empty());
        }
        l.flatten_table(empty, table);
        l
    }
}

// ─── Reading a language file ─────────────────────────────────────────────────

#[verifier::external_type_specification]
#[verifier::external_body]
#[verifier::reject_recursive_types(K)]
#[verifier::reject_recursive_types(V)]
pub struct ExTomlMap<K, V>(toml::map::Map<K, V>);

#[verifier::external_type_specification]
#[verifier::external_body]
pub struct ExTomlValue(toml::Value);

/// The entries of the top-level table of a TOML text, as `toml::from_str`
/// reads them into a `toml::Table`; none where the text is not valid TOML.
pub uninterp spec fn toml_table(text: Seq<char>) -> Option<Seq<(Seq<char>, TomlItemView)>>;

/// What a `toml::Table` holds, in the order it walks its entries (by key):
/// each key with its value, a string as its text, a table as its entries,
/// any other value as its TOML form.
pub uninterp spec fn table_entries_view(t: toml::Table) -> Seq<(Seq<char>, TomlItemView)>;

/// `toml::from_str::<toml::Table>`: parses a TOML text. Claimed: it succeeds
/// exactly where `toml_table` has a table, and the table it gives holds those
/// entries. The text of the error message is not stated.
#[verifier::external_body]
fn read_toml_table(text: &str) -> (r: Result<toml::Table, String>)
    ensures
        (r is Ok) <==> toml_table(text@) is Some,
        r matches Ok(t) ==> toml_table(text@) == Some(table_entries_view(t)),
{
    toml::from_str::<toml::Table>(text).map_err(|e| e.to_string())
}

/// Walks a `toml::Table` (its `IntoIterator`, nested tables likewise) and
/// hands out each entry as a plain value: a `toml::Value::String` as `Str`,
/// a `toml::Value::Table` as `Table`, any other value as its `Display` form.
/// Claimed: the result is what the table holds.
#[verifier::external_body]
fn table_entries(t: &toml::Table) -> (r: Vec<(String, TomlItem)>)
    ensures
        items_view(r@) == table_entries_view(*t),
{
    let mut r = Vec::new();
    for (k, v) in t {
        let item = match v {
            toml::Value::String(s) => TomlItem::Str(s.clone()),
            toml::Value::Table(u) => TomlItem::Table(table_entries(u)),
            other => TomlItem::Other(other.to_string()),
        };
        r.push((k.clone(), item));
    }
    r
}

/// Reads a language file's text: fails where the text is not valid TOML,
/// else gives the translations of its top-level table.
pub fn parse_lang(text: &str) -> (r: Result<Lang, String>)
    ensures
        (r is Ok) <==> toml_table(text@) is Some,
        r matches Ok(l) ==> l.wf() && l@ == flatten_spec(Seq::empty(), toml_table(text@).unwrap(), Map::empty()),
{
    match read_toml_table(text) {
        Ok(t) => {
            let items = table_entries(&t);
            Ok(Lang::from_table(&items))
        },
        Err(e) => Err(e),
    }
}

// ─── Choosing the language file ──────────────────────────────────────────────

/// The ASCII lower case of a character; other characters are kept.
pub open spec fn ascii_lower(c: char) -> char {
    if 'A' <= c <= 'Z' {
        ((c as u32) + 32) as char
    } else {
        c
    }
}

/// Whether two texts are equal ignoring ASCII case.
pub open spec fn eq_ignore_ascii_case(a: Seq<char>, b: Seq<char>) -> bool {
    a.len() == b.len() && forall|i: int| 0 <= i < a.len() ==> ascii_lower(#[trigger] a[i]) == ascii_lower(b[i])
}

fn ascii_lower_exec(c: char) -> (r: char)
    ensures
        r == ascii_lower(c),
{
    if 'A' <= c && c <= 'Z' {
        ((c as u8) + 32) as char
    } else {
        c
    }
}

/// Whether two strings are equal ignoring ASCII case.
pub fn eq_ignore_ascii_case_exec(a: &str, b: &str) -> (r: bool)
    ensures
        r == eq_ignore_ascii_case(a@, b@),
{
    let x = chars_of(a);
    let y = chars_of(b);
    if x.len() != y.len() {
        return false;
    }
    let mut i: usize = 0;
    while i < x.len()
        invariant
            x@ == a@,
            y@ == b@,
            x@.len() == y@.len(),
            i <= x@.len(),
            forall|j: int| 0 <= j < i ==> ascii_lower(#[trigger] x@[j]) == ascii_lower(y@[j]),
        decreases x@.len() - i,
    {
        if ascii_lower_exec(x[i]) != ascii_lower_exec(y[i]) {
            return false;
        }
        i = i + 1;
    }
    true
}

/// The upper case of a text, as `str::to_uppercase` maps it (Unicode).
pub uninterp spec fn upper_case(s: Seq<char>) -> Seq<char>;

/// The lower case of a text, as `str::to_lowercase` maps it (Unicode).
pub uninterp spec fn lower_case(s: Seq<char>) -> Seq<char>;

/// `str::to_uppercase`: the Unicode upper case of each character; named by
/// `upper_case`, which depends on the text alone.
#[verifier::external_body]
fn to_upper(s: &str) -> (r: String)
    ensures
        r@ == upper_case(s@),
{
    s.to_uppercase()
}

/// `str::to_lowercase`: the Unicode lower case of the text; named by
/// `lower_case`, which depends on the text alone.
#[verifier::external_body]
pub(crate) fn to_lower(s: &str) -> (r: String)
    ensures
        r@ == lower_case(s@),
{
    s.to_lowercase()
}

/// The locale with each `-` read as `_`.
pub open spec fn normalized_locale(s: Seq<char>) -> Seq<char> {
    Seq::new(s.len(), |i: int| if s[i] == '-' { '_' } else { s[i] })
}

/// `fr_CH` or `fr-CH` as (language, country): the text before the first
/// `_` (or `-`) and the text after it, `US` when there is none.
pub open spec fn locale_parts(locale: Seq<char>) -> (Seq<char>, Seq<char>) {
    let n = normalized_locale(locale);
    match find_first(n, seq!['_']) {
        Some(i) => (n.subrange(0, i), n.subrange(i + 1, n.len() as int)),
        None => (n, "US"@),
    }
}

/// Splits a locale into its language and country.
pub fn parse_locale(locale: &str) -> (r: (String, String))
    ensures
        (r.0@, r.1@) == locale_parts(locale@),
{
    let v = chars_of(locale);
    let mut n: Vec<char> = Vec::new();
    let mut i: usize = 0;
    while i < v.len()
        invariant
            v@ == locale@,
            i <= v@.len(),
            n@ == normalized_locale(v@).subrange(0, i as int),
        decreases v@.len() - i,
    {
        n.push(if v[i] == '-' {
            '_'
        } else {
            v[i]
        });
        assert(n@ =~= normalized_locale(v@).subrange(0, i + 1));
        i = i + 1;
    }
    assert(n@ =~= normalized_locale(locale@));
    let us: [char; 1] = ['_'];
    assert(us@ =~= seq!['_']);
    let len = n.len();
    assert(n@.subrange(0, len as int) =~= n@);
    match find_chars(n.as_slice(), 0, len, us.as_slice()) {
        Some(p) => {
            let mut a = String::new();
            push_chars(&mut a, n.as_slice(), 0, p);
            let mut b = String::new();
            push_chars(&mut b, n.as_slice(), p + 1, len);
            (a, b)
        },
        None => {
            let mut a = String::new();
            push_chars(&mut a, n.as_slice(), 0, len);
            (a, "US".to_owned())
        },
    }
}

/// The file stem wanted for a locale: `COUNTRY_language`, e.g. `CH_fr`.
pub open spec fn wanted_stem(lang: Seq<char>, country: Seq<char>) -> Seq<char> {
    upper_case(country) + "_"@ + lower_case(lang)
}

/// The stem wanted for a language and country.
pub fn wanted_stem_exec(lang: &str, country: &str) -> (r: String)
    ensures
        r@ == wanted_stem(lang@, country@),
{
    let mut s = to_upper(country);
    push_str(&mut s, "_");
    let l = to_lower(lang);
    push_str(&mut s, l.as_str());
    s
}

/// Whether `s` ends with `.default`.
pub open spec fn is_default_stem(s: Seq<char>) -> bool {
    s.len() >= 8 && s.subrange(s.len() - 8, s.len() as int) == ".default"@
}

/// The language part of a stem: between its first `_` and the next `_`,
/// cut at the first `.`; none without `_`.
pub open spec fn stem_language(s: Seq<char>) -> Option<Seq<char>> {
    match find_first(s, seq!['_']) {
        None => None,
        Some(i) => {
            let rest = s.subrange(i + 1, s.len() as int);
            let seg = match find_first(rest, seq!['_']) {
                Some(j) => rest.subrange(0, j),
                None => rest,
            };
            Some(
                match find_first(seg, seq!['.']) {
                    Some(k) => seg.subrange(0, k),
                    None => seg,
                },
            )
        },
    }
}

/// The first index from `i` on whose stem matches the wanted one.
pub open spec fn first_exact(stems: Seq<Seq<char>>, wanted: Seq<char>, i: int) -> Option<int>
    decreases stems.len() - i,
{
    if i < 0 || i >= stems.len() {
        None
    } else if eq_ignore_ascii_case(stems[i], wanted) {
        Some(i)
    } else {
        first_exact(stems, wanted, i + 1)
    }
}

/// The first index from `i` on of a stem, not a default one, in the
/// language wanted.
pub open spec fn first_same_language(stems: Seq<Seq<char>>, lang: Seq<char>, i: int) -> Option<int>
    decreases stems.len() - i,
{
    if i < 0 || i >= stems.len() {
        None
    } else if !is_default_stem(stems[i]) && (match stem_language(stems[i]) {
        Some(l) => eq_ignore_ascii_case(l, lang),
        None => false,
    }) {
        Some(i)
    } else {
        first_same_language(stems, lang, i + 1)
    }
}

/// The first index from `i` on of a default stem.
pub open spec fn first_default(stems: Seq<Seq<char>>, i: int) -> Option<int>
    decreases stems.len() - i,
{
    if i < 0 || i >= stems.len() {
        None
    } else if is_default_stem(stems[i]) {
        Some(i)
    } else {
        first_default(stems, i + 1)
    }
}

/// Which language file to read: the exact locale, else the same language
/// in any country (not a default file), else a default file, else the
/// first file.
pub open spec fn chosen_file(stems: Seq<Seq<char>>, lang: Seq<char>, country: Seq<char>) -> Option<int> {
    match first_exact(stems, wanted_stem(lang, country), 0) {
        Some(i) => Some(i),
        None => match first_same_language(stems, lang, 0) {
            Some(i) => Some(i),
            None => match first_default(stems, 0) {
                Some(i) => Some(i),
                None => if stems.len() > 0 {
                    Some(0)
                } else {
                    None
                },
            },
        },
    }
}

/// The texts of a list of strings.
pub open spec fn strings_view(v: Seq<String>) -> Seq<Seq<char>> {
    Seq::new(v.len(), |i: int| v[i]@)
}

fn is_default_stem_exec(s: &str) -> (r: bool)
    ensures
        r == is_default_stem(s@),
{
    let v = chars_of(s);
    let suffix = chars_of(".default");
    let len = v.len();
    if len < 8 {
        return false;
    }
    proof {
        reveal_strlit(".default");
    }
    let mut k: usize = 0;
    while k < 8
        invariant
            v@ == s@,
            suffix@ == ".default"@,
            suffix@.len() == 8,
            len == v@.len(),
            len >= 8,
            k <= 8,
            forall|j: int| 0 <= j < k ==> v@[len - 8 + j] == suffix@[j],
        decreases 8 - k,
    {
        if v[len - 8 + k] != suffix[k] {
            assert(v@.subrange(len - 8, len as int)[k as int] != (".default"@)[k as int]);
            return false;
        }
        k = k + 1;
    }
    assert(v@.subrange(len - 8, len as int) =~= ".default"@);
    true
}

fn stem_language_exec(s: &str) -> (r: Option<String>)
    ensures
        match stem_language(s@) {
            Some(l) => r matches Some(x) && x@ == l,
            None => r is None,
        },
{
    let v = chars_of(s);
    let len = v.len();
    let us: [char; 1] = ['_'];
    assert(us@ =~= seq!['_']);
    let dot: [char; 1] = ['.'];
    assert(dot@ =~= seq!['.']);
    assert(v@.subrange(0, len as int) =~= v@);
    let i = match find_chars(v.as_slice(), 0, len, us.as_slice()) {
        Some(i) => i,
        None => {
            return None;
        },
    };
    let ghost rest = v@.subrange(i + 1, len as int);
    let seg_end = match find_chars(v.as_slice(), i + 1, len, us.as_slice()) {
        Some(j) => j,
        None => len,
    };
    let ghost seg = v@.subrange(i + 1, seg_end as int);
    proof {
        assert(seg =~= match find_first(rest, seq!['_']) {
            Some(j) => rest.subrange(0, j),
            None => rest,
        });
    }
    let end = match find_chars(v.as_slice(), i + 1, seg_end, dot.as_slice()) {
        Some(k) => k,
        None => seg_end,
    };
    let mut out = String::new();
    push_chars(&mut out, v.as_slice(), i + 1, end);
    proof {
        assert(v@.subrange(i + 1, end as int) =~= match find_first(seg, seq!['.']) {
            Some(k) => seg.subrange(0, k),
            None => seg,
        });
    }
    Some(out)
}

/// Which of the language files (given by their stems) to read for the
/// language and country of the locale.
pub fn choose_lang_file(stems: &[String], lang: &str, country: &str) -> (r: Option<usize>)
    ensures
        match chosen_file(strings_view(stems@), lang@, country@) {
            Some(i) => r is Some && r->0 == i,
            None => r is None,
        },
{
    let ghost sv = strings_view(stems@);
    let wanted = wanted_stem_exec(lang, country);
    let n = stems.len();
    let mut i: usize = 0;
    while i < n
        invariant
            n == stems@.len(),
            sv == strings_view(stems@),
            wanted@ == wanted_stem(lang@, country@),
            i <= n,
            first_exact(sv, wanted@, 0) == first_exact(sv, wanted@, i as int),
        decreases n - i,
    {
        assert(sv[i as int] == stems@[i as int]@);
        if eq_ignore_ascii_case_exec(stems[i].as_str(), wanted.as_str()) {
            return Some(i);
        }
        i = i + 1;
    }
    let mut i: usize = 0;
    while i < n
        invariant
            n == stems@.len(),
            sv == strings_view(stems@),
            wanted@ == wanted_stem(lang@, country@),
            i <= n,
            first_exact(sv, wanted@, 0) is None,
            first_same_language(sv, lang@, 0) == first_same_language(sv, lang@, i as int),
        decreases n - i,
    {
        assert(sv[i as int] == stems@[i as int]@);
        if !is_default_stem_exec(stems[i].as_str()) {
            match stem_language_exec(stems[i].as_str()) {
                Some(l) => {
                    if eq_ignore_ascii_case_exec(l.as_str(), lang) {
                        return Some(i);
                    }
                },
                None => {},
            }
        }
        i = i + 1;
    }
    let mut i: usize = 0;
    while i < n
        invariant
            n == stems@.len(),
            sv == strings_view(stems@),
            wanted@ == wanted_stem(lang@, country@),
            i <= n,
            first_exact(sv, wanted@, 0) is None,
            first_same_language(sv, lang@, 0) is None,
            first_default(sv, 0) == first_default(sv, i as int),
        decreases n - i,
    {
        assert(sv[i as int] == stems@[i as int]@);
        if is_default_stem_exec(stems[i].as_str()) {
            return Some(i);
        }
        i = i + 1;
    }
    if n > 0 {
        Some(0)
    } else {
        None
    }
}

/// Whether `c` has the Unicode `White_Space` property (what
/// `char::is_whitespace` tests).
pub open spec fn is_white_space(c: char) -> bool {
    let v = c as u32;
    ||| 0x9 <= v <= 0xD
    ||| v == 0x20
    ||| v == 0x85
    ||| v == 0xA0
    ||| v == 0x1680
    ||| 0x2000 <= v <= 0x200A
    ||| v == 0x2028
    ||| v == 0x2029
    ||| v == 0x202F
    ||| v == 0x205F
    ||| v == 0x3000
}

/// `s` without its leading white space.
pub open spec fn trim_start_spec(s: Seq<char>) -> Seq<char>
    decreases s.len(),
{
    if s.len() > 0 && is_white_space(s[0]) {
        trim_start_spec(s.drop_first())
    } else {
        s
    }
}

/// `s` without its trailing white space.
pub open spec fn trim_end_spec(s: Seq<char>) -> Seq<char>
    decreases s.len(),
{
    if s.len() > 0 && is_white_space(s.last()) {
        trim_end_spec(s.drop_last())
    } else {
        s
    }
}

/// A text without its leading and trailing white space.
pub open spec fn trimmed(s: Seq<char>) -> Seq<char> {
    trim_end_spec(trim_start_spec(s))
}

fn is_white_space_exec(c: char) -> (r: bool)
    ensures
        r == is_white_space(c),
{
    let v = c as u32;
    (0x9 <= v && v <= 0xD) || v == 0x20 || v == 0x85 || v == 0xA0 || v == 0x1680 || (0x2000 <= v && v <= 0x200A)
        || v == 0x2028 || v == 0x2029 || v == 0x202F || v == 0x205F || v == 0x3000
}

/// The text without its leading and trailing white space (what `str::trim`
/// gives).
fn trim(s: &str) -> (r: String)
    ensures
        r@ == trimmed(s@),
{
    let c = chars_of(s);
    let n = c.len();
    let mut a: usize = 0;
    assert(c@.subrange(0, n as int) =~= c@);
    loop
        invariant
            n == c@.len(),
            a <= n,
            trim_start_spec(c@) == trim_start_spec(c@.subrange(a as int, n as int)),
        ensures
            a == n || !is_white_space(c@[a as int]),
        decreases n - a,
    {
        if a == n || !is_white_space_exec(c[a]) {
            break;
        }
        assert(c@.subrange(a as int, n as int).drop_first() =~= c@.subrange(a + 1, n as int));
        a = a + 1;
    }
    let ghost front = c@.subrange(a as int, n as int);
    assert(trim_start_spec(c@) == front);
    let mut e: usize = n;
    loop
        invariant
            n == c@.len(),
            a <= e <= n,
            front == c@.subrange(a as int, n as int),
            trim_end_spec(front) == trim_end_spec(c@.subrange(a as int, e as int)),
        ensures
            e == a || !is_white_space(c@[e - 1]),
        decreases e,
    {
        if e == a || !is_white_space_exec(c[e - 1]) {
            break;
        }
        assert(c@.subrange(a as int, e as int).drop_last() =~= c@.subrange(a as int, e - 1));
        e = e - 1;
    }
    let mut r = String::new();
    push_chars(&mut r, c.as_slice(), a, e);
    assert(r@ =~= c@.subrange(a as int, e as int));
    r
}

/// The locale given by the value of a locale variable: the trimmed value
/// up to its first `.` (`fr_FR.UTF-8` gives `fr_FR`), unless it is empty,
/// `C` or `POSIX`.
pub open spec fn locale_of_value(v: Seq<char>) -> Option<Seq<char>> {
    let t = trimmed(v);
    if t.len() == 0 || t == "C"@ || t == "POSIX"@ {
        None
    } else {
        Some(
            match find_first(t, seq!['.']) {
                Some(k) => t.subrange(0, k),
                None => t,
            },
        )
    }
}

/// The locale given by a variable's value, if it names one.
pub fn locale_from_value(v: &str) -> (r: Option<String>)
    ensures
        match locale_of_value(v@) {
            Some(l) => r matches Some(x) && x@ == l,
            None => r is None,
        },
{
    let trimmed_value = trim(v);
    let t = trimmed_value.as_str();
    if t.is_empty() || crate::render::str_eq(t, "C") || crate::render::str_eq(t, "POSIX") {
        return None;
    }
    let c = chars_of(t);
    let len = c.len();
    let dot: [char; 1] = ['.'];
    assert(dot@ =~= seq!['.']);
    assert(c@.subrange(0, len as int) =~= c@);
    let end = match find_chars(c.as_slice(), 0, len, dot.as_slice()) {
        Some(k) => k,
        None => len,
    };
    let mut out = String::new();
    push_chars(&mut out, c.as_slice(), 0, end);
    Some(out)
}

/// The system locale from the values of `LANG`, `LANGUAGE`, `LC_ALL` and
/// `LC_MESSAGES` from `i` on, in that order: the first that names one,
/// `en_US` otherwise.
pub open spec fn detected_locale(values: Seq<Option<Seq<char>>>, i: int) -> Seq<char>
    decreases values.len() - i,
{
    if i < 0 || i >= values.len() {
        "en_US"@
    } else {
        match values[i] {
            Some(v) => match locale_of_value(v) {
                Some(l) => l,
                None => detected_locale(values, i + 1),
            },
            None => detected_locale(values, i + 1),
        }
    }
}

/// The views of optional strings.
pub open spec fn opt_strings_view(v: Seq<Option<String>>) -> Seq<Option<Seq<char>>> {
    Seq::new(v.len(), |i: int| match v[i] {
        Some(s) => Some(s@),
        None => None,
    })
}

/// The system locale from the values of the locale variables (`None` for
/// an unset variable), in the order `LANG`, `LANGUAGE`, `LC_ALL`,
/// `LC_MESSAGES`.
pub fn detect_locale(values: &[Option<String>]) -> (r: String)
    ensures
        r@ == detected_locale(opt_strings_view(values@), 0),
{
    let ghost vs = opt_strings_view(values@);
    let mut i: usize = 0;
    while i < values.len()
        invariant
            vs == opt_strings_view(values@),
            i <= values@.len(),
            detected_locale(vs, 0) == detected_locale(vs, i as int),
        decreases values@.len() - i,
    {
        match &values[i] {
            Some(v) => {
                if let Some(l) = locale_from_value(v.as_str()) {
                    return l;
                }
            },
            None => {},
        }
        i = i + 1;
    }
    "en_US".to_owned()
}

/// After setting a key's text, looking the key up gives that text; other
/// keys keep theirs.
pub proof fn law_lookup_after_insert(m: Map<Seq<char>, Seq<char>>, k: Seq<char>, v: Seq<char>, other: Seq<char>)
    requires
        other != k,
    ensures
        m.insert(k, v).contains_key(k) && m.insert(k, v)[k] == v,
        m.insert(k, v).contains_key(other) == m.contains_key(other),
        m.contains_key(other) ==> m.insert(k, v)[other] == m[other],
{
}

} // verus!
