//! The QR content form and its payload string.
use vstd::prelude::*;
use crate::text::{has_infix, lemma_infix_extend, lemma_line_after_break, push_char, push_str};

verus! {

/// The kinds of content a QR code can carry.
#[derive(Clone, Copy, PartialEq, Eq, Debug, Structural)]
pub enum QrContentType {
    Url,
    Wifi,
    Sms,
    Tel,
    Email,
    Vcard,
    Mecard,
    Geo,
    Gs1,
    TwoDoc,
    Text,
}

impl QrContentType {
    /// Every content type, in menu order.
    pub fn all() -> (v: Vec<QrContentType>)
        ensures
            v@ == seq![
                QrContentType::Url,
                QrContentType::Wifi,
                QrContentType::Sms,
                QrContentType::Tel,
                QrContentType::Email,
                QrContentType::Vcard,
                QrContentType::Mecard,
                QrContentType::Geo,
                QrContentType::Gs1,
                QrContentType::TwoDoc,
                QrContentType::Text,
            ],
    {
        let v = vec![
            QrContentType::Url,
            QrContentType::Wifi,
            QrContentType::Sms,
            QrContentType::Tel,
            QrContentType::Email,
            QrContentType::Vcard,
            QrContentType::Mecard,
            QrContentType::Geo,
            QrContentType::Gs1,
            QrContentType::TwoDoc,
            QrContentType::Text,
        ];
        assert(v@ =~= seq![
            QrContentType::Url,
            QrContentType::Wifi,
            QrContentType::Sms,
            QrContentType::Tel,
            QrContentType::Email,
            QrContentType::Vcard,
            QrContentType::Mecard,
            QrContentType::Geo,
            QrContentType::Gs1,
            QrContentType::TwoDoc,
            QrContentType::Text,
        ]);
        v
    }

    /// The display label of a content type.
    pub open spec fn label_spec(self) -> Seq<char> {
        match self {
            QrContentType::Url => "URL"@,
            QrContentType::Wifi => "WiFi"@,
            QrContentType::Sms => "SMS"@,
            QrContentType::Tel => "Téléphone (TEL)"@,
            QrContentType::Email => "Email (MAILTO)"@,
            QrContentType::Vcard => "vCard / MECARD"@,
            QrContentType::Mecard => "MECARD"@,
            QrContentType::Geo => "GEO (coordonnées)"@,
            QrContentType::Gs1 => "GS1 / FNC1"@,
            QrContentType::TwoDoc => "2D-Doc"@,
            QrContentType::Text => "Texte libre"@,
        }
    }

    pub fn label(&self) -> (s: &'static str)
        ensures
            s@ == self.label_spec(),
    {
        match self {
            QrContentType::Url => "URL",
            QrContentType::Wifi => "WiFi",
            QrContentType::Sms => "SMS",
            QrContentType::Tel => "Téléphone (TEL)",
            QrContentType::Email => "Email (MAILTO)",
            QrContentType::Vcard => "vCard / MECARD",
            QrContentType::Mecard => "MECARD",
            QrContentType::Geo => "GEO (coordonnées)",
            QrContentType::Gs1 => "GS1 / FNC1",
            QrContentType::TwoDoc => "2D-Doc",
            QrContentType::Text => "Texte libre",
        }
    }
}

/// WiFi network security.
#[derive(Clone, Copy, PartialEq, Eq, Debug, Structural)]
pub enum WifiSecurity {
    Wpa,
    Wep,
    Unsecured,
}

impl WifiSecurity {
    pub open spec fn label_spec(self) -> Seq<char> {
        match self {
            WifiSecurity::Wpa => "WPA/WPA2"@,
            WifiSecurity::Wep => "WEP"@,
            WifiSecurity::Unsecured => "Aucune"@,
        }
    }

    pub fn label(&self) -> (s: &'static str)
        ensures
            s@ == self.label_spec(),
    {
        match self {
            WifiSecurity::Wpa => "WPA/WPA2",
            WifiSecurity::Wep => "WEP",
            WifiSecurity::Unsecured => "Aucune",
        }
    }
}

/// QR error-correction level.
#[derive(Clone, Copy, PartialEq, Eq, Debug, Structural)]
pub enum EcLevel {
    L,
    M,
    Q,
    H,
}

impl EcLevel {
    pub open spec fn label_spec(self) -> Seq<char> {
        match self {
            EcLevel::L => "L — 7%"@,
            EcLevel::M => "M — 15%"@,
            EcLevel::Q => "Q — 25%"@,
            EcLevel::H => "H — 30%"@,
        }
    }

    pub fn label(&self) -> (s: &'static str)
        ensures
            s@ == self.label_spec(),
    {
        match self {
            EcLevel::L => "L — 7%",
            EcLevel::M => "M — 15%",
            EcLevel::Q => "Q — 25%",
            EcLevel::H => "H — 30%",
        }
    }
}


/// The fields of the QR creation form.
#[derive(Clone, PartialEq)]
pub struct QrForm {
    pub content_type: QrContentType,
    pub ec_level: EcLevel,
    pub use_micro_qr: bool,
    pub url: String,
    pub text: String,
    pub wifi_ssid: String,
    pub wifi_password: String,
    pub wifi_security: WifiSecurity,
    pub wifi_hidden: bool,
    pub sms_number: String,
    pub sms_message: String,
    pub tel_number: String,
    pub email_to: String,
    pub email_subject: String,
    pub email_body: String,
    pub vcard_name: String,
    pub vcard_org: String,
    pub vcard_phone: String,
    pub vcard_email: String,
    pub vcard_url: String,
    pub vcard_address: String,
    pub vcard_note: String,
    pub mecard_name: String,
    pub mecard_phone: String,
    pub mecard_email: String,
    pub mecard_url: String,
    pub geo_lat: String,
    pub geo_lon: String,
    pub geo_alt: String,
    pub gs1_data: String,
    pub twod_c40: String,
    pub twod_cert_id: String,
}

/// Whether every text field of the form is empty.
pub open spec fn all_text_empty(f: QrForm) -> bool {
    &&& f.url@.len() == 0
    &&& f.text@.len() == 0
    &&& f.wifi_ssid@.len() == 0
    &&& f.wifi_password@.len() == 0
    &&& f.sms_number@.len() == 0
    &&& f.sms_message@.len() == 0
    &&& f.tel_number@.len() == 0
    &&& f.email_to@.len() == 0
    &&& f.email_subject@.len() == 0
    &&& f.email_body@.len() == 0
    &&& f.vcard_name@.len() == 0
    &&& f.vcard_org@.len() == 0
    &&& f.vcard_phone@.len() == 0
    &&& f.vcard_email@.len() == 0
    &&& f.vcard_url@.len() == 0
    &&& f.vcard_address@.len() == 0
    &&& f.vcard_note@.len() == 0
    &&& f.mecard_name@.len() == 0
    &&& f.mecard_phone@.len() == 0
    &&& f.mecard_email@.len() == 0
    &&& f.mecard_url@.len() == 0
    &&& f.geo_lat@.len() == 0
    &&& f.geo_lon@.len() == 0
    &&& f.geo_alt@.len() == 0
    &&& f.gs1_data@.len() == 0
    &&& f.twod_c40@.len() == 0
    &&& f.twod_cert_id@.len() == 0
}

impl Default for QrForm {
    fn default() -> (f: Self)
        ensures
            f.content_type == QrContentType::Url,
            f.ec_level == EcLevel::M,
            !f.use_micro_qr,
            f.wifi_security == WifiSecurity::Wpa,
            !f.wifi_hidden,
            all_text_empty(f),
    {
        QrForm {
            content_type: QrContentType::Url,
            ec_level: EcLevel::M,
            use_micro_qr: false,
            url: String::new(),
            text: String::new(),
            wifi_ssid: String::new(),
            wifi_password: String::new(),
            wifi_security: WifiSecurity::Wpa,
            wifi_hidden: false,
            sms_number: String::new(),
            sms_message: String::new(),
            tel_number: String::new(),
            email_to: String::new(),
            email_subject: String::new(),
            email_body: String::new(),
            vcard_name: String::new(),
            vcard_org: String::new(),
            vcard_phone: String::new(),
            vcard_email: String::new(),
            vcard_url: String::new(),
            vcard_address: String::new(),
            vcard_note: String::new(),
            mecard_name: String::new(),
            mecard_phone: String::new(),
            mecard_email: String::new(),
            mecard_url: String::new(),
            geo_lat: String::new(),
            geo_lon: String::new(),
            geo_alt: String::new(),
            gs1_data: String::new(),
            twod_c40: String::new(),
            twod_cert_id: String::new(),
        }
    }
}

/// The escape of one character in a mailto parameter: space and line
/// feed become `%20` and `%0A`, every other character stays.
pub open spec fn url_escape_char(c: char) -> Seq<char> {
    if c == ' ' {
        "%20"@
    } else if c == '\n' {
        "%0A"@
    } else {
        seq![c]
    }
}

/// `s` with each character escaped by `url_escape_char`.
pub open spec fn url_escape(s: Seq<char>) -> Seq<char>
    decreases s.len(),
{
    if s.len() == 0 {
        Seq::empty()
    } else {
        url_escape(s.drop_last()) + url_escape_char(s.last())
    }
}

/// Escapes spaces and line feeds for a mailto parameter.
fn urlencoded(s: &str) -> (r: String)
    ensures
        r@ == url_escape(s@),
{
    let mut out = String::new();
    let ghost all = s@;
    for c in it: s.chars()
        invariant
            it.seq() == all,
            out@ == url_escape(all.subrange(0, it.index() as int)),
    {
        proof {
            assert(all.subrange(0, it.index() + 1).drop_last() =~= all.subrange(0, it.index() as int));
        }
        if c == ' ' {
            push_str(&mut out, "%20");
        } else if c == '\n' {
            push_str(&mut out, "%0A");
        } else {
            push_char(&mut out, c);
        }
    }
    assert(all.subrange(0, all.len() as int) =~= all);
    out
}


/// `prefix value suffix` when `value` is not empty, nothing otherwise.
pub open spec fn optional_line(prefix: Seq<char>, value: Seq<char>, suffix: Seq<char>) -> Seq<char> {
    if value.len() == 0 {
        Seq::empty()
    } else {
        prefix + value + suffix
    }
}

/// The WiFi payload `WIFI:T:<sec>;S:<ssid>;P:<password>;H:<hidden>;;`.
pub open spec fn wifi_payload(f: QrForm) -> Seq<char> {
    let sec = match f.wifi_security {
        WifiSecurity::Wpa => "WPA"@,
        WifiSecurity::Wep => "WEP"@,
        WifiSecurity::Unsecured => "nopass"@,
    };
    let hidden = if f.wifi_hidden {
        "true"@
    } else {
        "false"@
    };
    "WIFI:T:"@ + sec + ";S:"@ + f.wifi_ssid@ + ";P:"@ + f.wifi_password@ + ";H:"@ + hidden + ";;"@
}

/// The mailto payload: `mailto:<to>`, then `?subject=` (escaped subject)
/// when there is a subject, then `body=` (escaped body) after `&` or `?`
/// when there is a body.
pub open spec fn email_payload(f: QrForm) -> Seq<char> {
    let with_subject = if f.email_subject@.len() == 0 {
        Seq::empty()
    } else {
        seq!['?'] + "subject="@ + url_escape(f.email_subject@)
    };
    let sep = if f.email_subject@.len() == 0 {
        '?'
    } else {
        '&'
    };
    let with_body = if f.email_body@.len() == 0 {
        Seq::empty()
    } else {
        seq![sep] + "body="@ + url_escape(f.email_body@)
    };
    "mailto:"@ + f.email_to@ + with_subject + with_body
}

/// The vCard 3.0 payload with one line per non-empty field.
pub open spec fn vcard_payload(f: QrForm) -> Seq<char> {
    "BEGIN:VCARD\nVERSION:3.0\n"@ + optional_line("FN:"@, f.vcard_name@, "\n"@) + optional_line(
        "ORG:"@,
        f.vcard_org@,
        "\n"@,
    ) + optional_line("TEL:"@, f.vcard_phone@, "\n"@) + optional_line(
        "EMAIL:"@,
        f.vcard_email@,
        "\n"@,
    ) + optional_line("URL:"@, f.vcard_url@, "\n"@) + optional_line(
        "ADR:;;"@,
        f.vcard_address@,
        ";;;;;\n"@,
    ) + optional_line("NOTE:"@, f.vcard_note@, "\n"@) + "END:VCARD"@
}

proof fn lemma_break_kept(a: Seq<char>, l: Seq<char>)
    requires
        a.len() > 0,
        a.last() == '\n',
        l.len() == 0 || l.last() == '\n',
    ensures
        (a + l).len() > 0,
        (a + l).last() == '\n',
{
    if l.len() == 0 {
        assert(a + l =~= a);
    }
}

/// Lines after a header that ends a line, each one empty or ending a line,
/// and a trailer: each line follows a line break in the whole.
/// A header, lines and a trailer: the whole begins with the header and
/// ends with the trailer.
proof fn lemma_framed(
    h: Seq<char>,
    l1: Seq<char>,
    l2: Seq<char>,
    l3: Seq<char>,
    l4: Seq<char>,
    l5: Seq<char>,
    l6: Seq<char>,
    l7: Seq<char>,
    e: Seq<char>,
)
    ensures
        h.is_prefix_of(h + l1 + l2 + l3 + l4 + l5 + l6 + l7 + e),
        e.is_suffix_of(h + l1 + l2 + l3 + l4 + l5 + l6 + l7 + e),
{
    let p = h + l1 + l2 + l3 + l4 + l5 + l6 + l7 + e;
    let mid = l1 + l2 + l3 + l4 + l5 + l6 + l7;
    assert(p =~= h + mid + e);
    assert(p.subrange(0, h.len() as int) =~= h);
    assert(p.subrange(p.len() - e.len(), p.len() as int) =~= e);
}

#[verifier::spinoff_prover]
#[verifier::rlimit(40)]
proof fn lemma_lines_follow_breaks(
    h: Seq<char>,
    l1: Seq<char>,
    l2: Seq<char>,
    l3: Seq<char>,
    l4: Seq<char>,
    l5: Seq<char>,
    l6: Seq<char>,
    l7: Seq<char>,
    e: Seq<char>,
)
    requires
        h.len() > 0,
        h.last() == '\n',
        l1.len() == 0 || l1.last() == '\n',
        l2.len() == 0 || l2.last() == '\n',
        l3.len() == 0 || l3.last() == '\n',
        l4.len() == 0 || l4.last() == '\n',
        l5.len() == 0 || l5.last() == '\n',
        l6.len() == 0 || l6.last() == '\n',
    ensures
        ({
            let p = h + l1 + l2 + l3 + l4 + l5 + l6 + l7 + e;
            &&& has_infix(p, seq!['\n'] + l1)
            &&& has_infix(p, seq!['\n'] + l2)
            &&& has_infix(p, seq!['\n'] + l3)
            &&& has_infix(p, seq!['\n'] + l4)
            &&& has_infix(p, seq!['\n'] + l5)
            &&& has_infix(p, seq!['\n'] + l6)
            &&& has_infix(p, seq!['\n'] + l7)
        }),
{
    let a2 = h + l1;
    let a3 = a2 + l2;
    let a4 = a3 + l3;
    let a5 = a4 + l4;
    let a6 = a5 + l5;
    let a7 = a6 + l6;
    let a8 = a7 + l7;
    let p = a8 + e;
    lemma_break_kept(h, l1);
    lemma_break_kept(a2, l2);
    lemma_break_kept(a3, l3);
    lemma_break_kept(a4, l4);
    lemma_break_kept(a5, l5);
    lemma_break_kept(a6, l6);
    assert(has_infix(p, seq!['\n'] + l1)) by {
        lemma_line_after_break(h, l1, Seq::empty());
        assert(h + l1 + Seq::<char>::empty() =~= a2);
        lemma_infix_extend(a2, l2, seq!['\n'] + l1);
        lemma_infix_extend(a3, l3, seq!['\n'] + l1);
        lemma_infix_extend(a4, l4, seq!['\n'] + l1);
        lemma_infix_extend(a5, l5, seq!['\n'] + l1);
        lemma_infix_extend(a6, l6, seq!['\n'] + l1);
        lemma_infix_extend(a7, l7, seq!['\n'] + l1);
        lemma_infix_extend(a8, e, seq!['\n'] + l1);
    }
    assert(has_infix(p, seq!['\n'] + l2)) by {
        lemma_line_after_break(a2, l2, Seq::empty());
        assert(a2 + l2 + Seq::<char>::empty() =~= a3);
        lemma_infix_extend(a3, l3, seq!['\n'] + l2);
        lemma_infix_extend(a4, l4, seq!['\n'] + l2);
        lemma_infix_extend(a5, l5, seq!['\n'] + l2);
        lemma_infix_extend(a6, l6, seq!['\n'] + l2);
        lemma_infix_extend(a7, l7, seq!['\n'] + l2);
        lemma_infix_extend(a8, e, seq!['\n'] + l2);
    }
    assert(has_infix(p, seq!['\n'] + l3)) by {
        lemma_line_after_break(a3, l3, Seq::empty());
        assert(a3 + l3 + Seq::<char>::empty() =~= a4);
        lemma_infix_extend(a4, l4, seq!['\n'] + l3);
        lemma_infix_extend(a5, l5, seq!['\n'] + l3);
        lemma_infix_extend(a6, l6, seq!['\n'] + l3);
        lemma_infix_extend(a7, l7, seq!['\n'] + l3);
        lemma_infix_extend(a8, e, seq!['\n'] + l3);
    }
    assert(has_infix(p, seq!['\n'] + l4)) by {
        lemma_line_after_break(a4, l4, Seq::empty());
        assert(a4 + l4 + Seq::<char>::empty() =~= a5);
        lemma_infix_extend(a5, l5, seq!['\n'] + l4);
        lemma_infix_extend(a6, l6, seq!['\n'] + l4);
        lemma_infix_extend(a7, l7, seq!['\n'] + l4);
        lemma_infix_extend(a8, e, seq!['\n'] + l4);
    }
    assert(has_infix(p, seq!['\n'] + l5)) by {
        lemma_line_after_break(a5, l5, Seq::empty());
        assert(a5 + l5 + Seq::<char>::empty() =~= a6);
        lemma_infix_extend(a6, l6, seq!['\n'] + l5);
        lemma_infix_extend(a7, l7, seq!['\n'] + l5);
        lemma_infix_extend(a8, e, seq!['\n'] + l5);
    }
    assert(has_infix(p, seq!['\n'] + l6)) by {
        lemma_line_after_break(a6, l6, Seq::empty());
        assert(a6 + l6 + Seq::<char>::empty() =~= a7);
        lemma_infix_extend(a7, l7, seq!['\n'] + l6);
        lemma_infix_extend(a8, e, seq!['\n'] + l6);
    }
    assert(has_infix(p, seq!['\n'] + l7)) by {
        lemma_line_after_break(a7, l7, Seq::empty());
        assert(a7 + l7 + Seq::<char>::empty() =~= a8);
        lemma_infix_extend(a8, e, seq!['\n'] + l7);
    }
}

/// A vCard payload begins with `BEGIN:VCARD` and `VERSION:3.0`, ends with
/// `END:VCARD`, and holds every field that is filled in on a line of its
/// own: `FN:` name, `ORG:`, `TEL:` phone, `EMAIL:`, `URL:`, the address as
/// `ADR:;;street;;;;;`, and `NOTE:`.
#[verifier::spinoff_prover]
#[verifier::rlimit(40)]
pub proof fn law_vcard_lines(f: QrForm)
    requires
        f.content_type == QrContentType::Vcard,
    ensures
        ({
            let p = qr_payload(f);
            &&& "BEGIN:VCARD\nVERSION:3.0\n"@.is_prefix_of(p)
            &&& "END:VCARD"@.is_suffix_of(p)
            &&& f.vcard_name@.len() > 0 ==> has_infix(p, seq!['\n'] + ("FN:"@ + f.vcard_name@ + "\n"@))
            &&& f.vcard_org@.len() > 0 ==> has_infix(p, seq!['\n'] + ("ORG:"@ + f.vcard_org@ + "\n"@))
            &&& f.vcard_phone@.len() > 0 ==> has_infix(p, seq!['\n'] + ("TEL:"@ + f.vcard_phone@ + "\n"@))
            &&& f.vcard_email@.len() > 0 ==> has_infix(p, seq!['\n'] + ("EMAIL:"@ + f.vcard_email@ + "\n"@))
            &&& f.vcard_url@.len() > 0 ==> has_infix(p, seq!['\n'] + ("URL:"@ + f.vcard_url@ + "\n"@))
            &&& f.vcard_address@.len() > 0 ==> has_infix(p, seq!['\n'] + ("ADR:;;"@ + f.vcard_address@ + ";;;;;\n"@))
            &&& f.vcard_note@.len() > 0 ==> has_infix(p, seq!['\n'] + ("NOTE:"@ + f.vcard_note@ + "\n"@))
        }),
{
    reveal_strlit("BEGIN:VCARD\nVERSION:3.0\n");
    reveal_strlit("\n");
    reveal_strlit(";;;;;\n");
    let p = qr_payload(f);
    let h = "BEGIN:VCARD\nVERSION:3.0\n"@;
    let l1 = optional_line("FN:"@, f.vcard_name@, "\n"@);
    let l2 = optional_line("ORG:"@, f.vcard_org@, "\n"@);
    let l3 = optional_line("TEL:"@, f.vcard_phone@, "\n"@);
    let l4 = optional_line("EMAIL:"@, f.vcard_email@, "\n"@);
    let l5 = optional_line("URL:"@, f.vcard_url@, "\n"@);
    let l6 = optional_line("ADR:;;"@, f.vcard_address@, ";;;;;\n"@);
    let l7 = optional_line("NOTE:"@, f.vcard_note@, "\n"@);
    let e = "END:VCARD"@;
    assert(p == h + l1 + l2 + l3 + l4 + l5 + l6 + l7 + e);
    lemma_framed(h, l1, l2, l3, l4, l5, l6, l7, e);
    lemma_lines_follow_breaks(h, l1, l2, l3, l4, l5, l6, l7, e);
}

/// The MECARD payload: the name, then each non-empty field, then `;`.
pub open spec fn mecard_payload(f: QrForm) -> Seq<char> {
    "MECARD:N:"@ + f.mecard_name@ + ";"@ + optional_line("TEL:"@, f.mecard_phone@, ";"@)
        + optional_line("EMAIL:"@, f.mecard_email@, ";"@) + optional_line(
        "URL:"@,
        f.mecard_url@,
        ";"@,
    ) + seq![';']
}

/// The geo payload `geo:<lat>,<lon>` with `,<alt>` when there is an altitude.
pub open spec fn geo_payload(f: QrForm) -> Seq<char> {
    if f.geo_alt@.len() == 0 {
        "geo:"@ + f.geo_lat@ + ","@ + f.geo_lon@
    } else {
        "geo:"@ + f.geo_lat@ + ","@ + f.geo_lon@ + ","@ + f.geo_alt@
    }
}

/// The string a form encodes, per content type.
pub open spec fn qr_payload(f: QrForm) -> Seq<char> {
    match f.content_type {
        QrContentType::Url => f.url@,
        QrContentType::Text => f.text@,
        QrContentType::Wifi => wifi_payload(f),
        QrContentType::Sms => "SMSTO:"@ + f.sms_number@ + ":"@ + f.sms_message@,
        QrContentType::Tel => "tel:"@ + f.tel_number@,
        QrContentType::Email => email_payload(f),
        QrContentType::Vcard => vcard_payload(f),
        QrContentType::Mecard => mecard_payload(f),
        QrContentType::Geo => geo_payload(f),
        QrContentType::Gs1 => seq!['\u{1d}'] + f.gs1_data@,
        QrContentType::TwoDoc => "DC04"@ + f.twod_cert_id@ + f.twod_c40@,
    }
}

fn push_optional_line(out: &mut String, prefix: &str, value: &String, suffix: &str)
    ensures
        final(out)@ == old(out)@ + optional_line(prefix@, value@, suffix@),
{
    if value.as_str().is_empty() {
        assert(old(out)@ + Seq::<char>::empty() =~= old(out)@);
    } else {
        push_str(out, prefix);
        push_str(out, value.as_str());
        push_str(out, suffix);
        assert(final(out)@ =~= old(out)@ + optional_line(prefix@, value@, suffix@));
    }
}

impl QrForm {
    /// The string this form encodes into the QR code.
    pub fn to_qr_string(&self) -> (s: String)
        ensures
            s@ == qr_payload(*self),
    {
        match self.content_type {
            QrContentType::Url => self.url.clone(),
            QrContentType::Text => self.text.clone(),
            QrContentType::Wifi => {
                let sec = match self.wifi_security {
                    WifiSecurity::Wpa => "WPA",
                    WifiSecurity::Wep => "WEP",
                    WifiSecurity::Unsecured => "nopass",
                };
                let hidden = if self.wifi_hidden {
                    "true"
                } else {
                    "false"
                };
                let mut s = String::new();
                push_str(&mut s, "WIFI:T:");
                push_str(&mut s, sec);
                push_str(&mut s, ";S:");
                push_str(&mut s, self.wifi_ssid.as_str());
                push_str(&mut s, ";P:");
                push_str(&mut s, self.wifi_password.as_str());
                push_str(&mut s, ";H:");
                push_str(&mut s, hidden);
                push_str(&mut s, ";;");
                assert(s@ =~= wifi_payload(*self));
                s
            },
            QrContentType::Sms => {
                let mut s = String::new();
                push_str(&mut s, "SMSTO:");
                push_str(&mut s, self.sms_number.as_str());
                push_str(&mut s, ":");
                push_str(&mut s, self.sms_message.as_str());
                assert(s@ =~= qr_payload(*self));
                s
            },
            QrContentType::Tel => {
                let mut s = String::new();
                push_str(&mut s, "tel:");
                push_str(&mut s, self.tel_number.as_str());
                assert(s@ =~= qr_payload(*self));
                s
            },
            QrContentType::Email => {
                let mut s = String::new();
                push_str(&mut s, "mailto:");
                push_str(&mut s, self.email_to.as_str());
                let mut sep = '?';
                if !self.email_subject.as_str().is_empty() {
                    push_char(&mut s, sep);
                    push_str(&mut s, "subject=");
                    let enc = urlencoded(self.email_subject.as_str());
                    push_str(&mut s, enc.as_str());
                    sep = '&';
                }
                if !self.email_body.as_str().is_empty() {
                    push_char(&mut s, sep);
                    push_str(&mut s, "body=");
                    let enc = urlencoded(self.email_body.as_str());
                    push_str(&mut s, enc.as_str());
                }
                assert(s@ =~= email_payload(*self));
                s
            },
            QrContentType::Vcard => {
                let mut v = String::new();
                push_str(&mut v, "BEGIN:VCARD\nVERSION:3.0\n");
                push_optional_line(&mut v, "FN:", &self.vcard_name, "\n");
                push_optional_line(&mut v, "ORG:", &self.vcard_org, "\n");
                push_optional_line(&mut v, "TEL:", &self.vcard_phone, "\n");
                push_optional_line(&mut v, "EMAIL:", &self.vcard_email, "\n");
                push_optional_line(&mut v, "URL:", &self.vcard_url, "\n");
                push_optional_line(&mut v, "ADR:;;", &self.vcard_address, ";;;;;\n");
                push_optional_line(&mut v, "NOTE:", &self.vcard_note, "\n");
                push_str(&mut v, "END:VCARD");
                assert(v@ =~= vcard_payload(*self));
                v
            },
            QrContentType::Mecard => {
                let mut m = String::new();
                push_str(&mut m, "MECARD:N:");
                push_str(&mut m, self.mecard_name.as_str());
                push_str(&mut m, ";");
                push_optional_line(&mut m, "TEL:", &self.mecard_phone, ";");
                push_optional_line(&mut m, "EMAIL:", &self.mecard_email, ";");
                push_optional_line(&mut m, "URL:", &self.mecard_url, ";");
                push_char(&mut m, ';');
                assert(m@ =~= mecard_payload(*self));
                m
            },
            QrContentType::Geo => {
                let mut g = String::new();
                push_str(&mut g, "geo:");
                push_str(&mut g, self.geo_lat.as_str());
                push_str(&mut g, ",");
                push_str(&mut g, self.geo_lon.as_str());
                if !self.geo_alt.as_str().is_empty() {
                    push_str(&mut g, ",");
                    push_str(&mut g, self.geo_alt.as_str());
                }
                assert(g@ =~= geo_payload(*self));
                g
            },
            QrContentType::Gs1 => {
                let mut g = String::new();
                push_char(&mut g, '\u{1d}');
                push_str(&mut g, self.gs1_data.as_str());
                assert(g@ =~= qr_payload(*self));
                g
            },
            QrContentType::TwoDoc => {
                let mut d = String::new();
                push_str(&mut d, "DC04");
                push_str(&mut d, self.twod_cert_id.as_str());
                push_str(&mut d, self.twod_c40.as_str());
                assert(d@ =~= qr_payload(*self));
                d
            },
        }
    }
}

} // verus!
