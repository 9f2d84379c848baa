use rusty_qr::qr::encoder::{encode, modules_to_matrix};
use rusty_qr::qr::gf::{gf_exp, gf_mul, rs_ec_codewords, rs_generator};
use rusty_qr::qr::micro_qr;
use rusty_qr::qr::types::{EcLevel, QrContentType, QrForm, WifiSecurity};

fn table_mul(a: u8, b: u8) -> u8 {
    // Log / antilog tables of GF(256) with polynomial 0x11D.
    let mut exp = [0u8; 512];
    let mut log = [0u8; 256];
    let mut x: u16 = 1;
    for i in 0..255 {
        exp[i] = x as u8;
        log[x as usize] = i as u8;
        x <<= 1;
        if x & 0x100 != 0 {
            x ^= 0x11D;
        }
    }
    for i in 255..512 {
        exp[i] = exp[i - 255];
    }
    if a == 0 || b == 0 {
        0
    } else {
        exp[log[a as usize] as usize + log[b as usize] as usize]
    }
}

#[test]
fn gf_mul_matches_log_tables() {
    for a in 0..=255u8 {
        for b in 0..=255u8 {
            assert_eq!(gf_mul(a, b), table_mul(a, b), "{a} * {b}");
        }
    }
}

#[test]
fn gf_exp_powers_of_two() {
    assert_eq!(gf_exp(0), 1);
    assert_eq!(gf_exp(1), 2);
    assert_eq!(gf_exp(8), 0x1D);
    assert_eq!(gf_exp(255), 1);
}

#[test]
fn rs_generator_degree_two() {
    // (x - 1)(x - 2) = x^2 + 3x + 2 in GF(256).
    assert_eq!(rs_generator(2), vec![1, 3, 2]);
}

#[test]
fn rs_ec_codewords_known_vector() {
    // Version 1-M example of ISO/IEC 18004 (HELLO WORLD data codewords).
    let data = [32u8, 91, 11, 120, 209, 114, 220, 77, 67, 64, 236, 17, 236, 17, 236, 17];
    let ec = rs_ec_codewords(&data, 10);
    assert_eq!(ec, vec![196, 35, 39, 119, 235, 215, 231, 226, 93, 23]);
}

fn form_with(ct: QrContentType) -> QrForm {
    let mut f = QrForm::default();
    f.content_type = ct;
    f
}

#[test]
fn wifi_payload() {
    let mut f = form_with(QrContentType::Wifi);
    f.wifi_ssid = "Maison".to_string();
    f.wifi_password = "secret".to_string();
    f.wifi_security = WifiSecurity::Wpa;
    assert_eq!(f.to_qr_string(), "WIFI:T:WPA;S:Maison;P:secret;H:false;;");
    f.wifi_security = WifiSecurity::Unsecured;
    f.wifi_hidden = true;
    assert_eq!(f.to_qr_string(), "WIFI:T:nopass;S:Maison;P:secret;H:true;;");
}

#[test]
fn email_payload_escapes_spaces_and_lines() {
    let mut f = form_with(QrContentType::Email);
    f.email_to = "a@b.fr".to_string();
    assert_eq!(f.to_qr_string(), "mailto:a@b.fr");
    f.email_subject = "Bonjour toi".to_string();
    f.email_body = "l1\nl2".to_string();
    assert_eq!(f.to_qr_string(), "mailto:a@b.fr?subject=Bonjour%20toi&body=l1%0Al2");
    f.email_subject = String::new();
    assert_eq!(f.to_qr_string(), "mailto:a@b.fr?body=l1%0Al2");
}

#[test]
fn vcard_and_mecard_payloads() {
    let mut f = form_with(QrContentType::Vcard);
    f.vcard_name = "Ada".to_string();
    f.vcard_address = "1 rue".to_string();
    assert_eq!(f.to_qr_string(), "BEGIN:VCARD\nVERSION:3.0\nFN:Ada\nADR:;;1 rue;;;;;\nEND:VCARD");
    let mut m = form_with(QrContentType::Mecard);
    m.mecard_name = "Ada".to_string();
    m.mecard_email = "a@b".to_string();
    assert_eq!(m.to_qr_string(), "MECARD:N:Ada;EMAIL:a@b;;");
}

#[test]
fn other_payloads() {
    let mut f = form_with(QrContentType::Sms);
    f.sms_number = "123".to_string();
    f.sms_message = "hi".to_string();
    assert_eq!(f.to_qr_string(), "SMSTO:123:hi");
    let mut t = form_with(QrContentType::Tel);
    t.tel_number = "+33".to_string();
    assert_eq!(t.to_qr_string(), "tel:+33");
    let mut g = form_with(QrContentType::Geo);
    g.geo_lat = "1.5".to_string();
    g.geo_lon = "2".to_string();
    assert_eq!(g.to_qr_string(), "geo:1.5,2");
    g.geo_alt = "30".to_string();
    assert_eq!(g.to_qr_string(), "geo:1.5,2,30");
    let mut s = form_with(QrContentType::Gs1);
    s.gs1_data = "01".to_string();
    assert_eq!(s.to_qr_string(), "\u{1d}01");
    let mut d = form_with(QrContentType::TwoDoc);
    d.twod_cert_id = "FR01".to_string();
    d.twod_c40 = "XYZ".to_string();
    assert_eq!(d.to_qr_string(), "DC04FR01XYZ");
    let mut u = form_with(QrContentType::Url);
    u.url = "https://x".to_string();
    assert_eq!(u.to_qr_string(), "https://x");
}

#[test]
fn labels() {
    assert_eq!(QrContentType::Tel.label(), "Téléphone (TEL)");
    assert_eq!(QrContentType::Text.label(), "Texte libre");
    assert_eq!(WifiSecurity::Unsecured.label(), "Aucune");
    assert_eq!(EcLevel::Q.label(), "Q — 25%");
    assert_eq!(QrContentType::all().len(), 11);
}

#[test]
fn standard_encode_matches_qrcode_crate() {
    let mut f = form_with(QrContentType::Url);
    f.url = "https://example.org".to_string();
    f.ec_level = EcLevel::M;
    let m = encode(&f).ok().expect("encodes");
    let code = qrcode::QrCode::with_error_correction_level(b"https://example.org", qrcode::EcLevel::M).unwrap();
    let w = code.width();
    assert_eq!(m.len(), w);
    let colors = code.to_colors();
    for r in 0..w {
        assert_eq!(m[r].len(), w);
        for c in 0..w {
            assert_eq!(m[r][c], colors[r * w + c] == qrcode::Color::Dark);
        }
    }
}

#[test]
fn empty_data_is_refused() {
    let f = form_with(QrContentType::Url);
    match encode(&f) {
        Err(e) => assert_eq!(e.message(), "Données vides"),
        Ok(_) => panic!("empty data encoded"),
    }
}

#[test]
fn too_long_data_is_reported() {
    let mut f = form_with(QrContentType::Text);
    f.text = "x".repeat(8000);
    f.ec_level = EcLevel::H;
    match encode(&f) {
        Err(e) => assert_eq!(e.message(), "QR encode: data too long"),
        Ok(_) => panic!("oversized data encoded"),
    }
}

fn check_patterns(m: &Vec<Vec<bool>>, side: usize) {
    assert_eq!(m.len(), side);
    for row in m {
        assert_eq!(row.len(), side);
    }
    for r in 0..7 {
        for c in 0..7 {
            let ring = r == 0 || r == 6 || c == 0 || c == 6;
            let centre = (2..=4).contains(&r) && (2..=4).contains(&c);
            assert_eq!(m[r][c], ring || centre);
        }
    }
    for k in 8..side {
        assert_eq!(m[0][k], k % 2 == 0);
        assert_eq!(m[k][0], k % 2 == 0);
    }
    assert!(m[8][8]);
}

#[test]
fn micro_qr_sizes_and_patterns() {
    // Bytes outside the alphanumeric set: byte mode, M3-L at least.
    for (len, side) in [(0usize, 15usize), (1, 15), (9, 15), (10, 17), (15, 17)] {
        let data = vec![b'a'; len];
        let m = micro_qr::encode(&data).ok().expect("fits");
        check_patterns(&m, side);
    }
}

#[test]
fn micro_qr_numeric_mode_from_m1() {
    let m = micro_qr::encode(b"12345").ok().expect("fits");
    check_patterns(&m, 11);
    for (len, side) in [(1usize, 11usize), (6, 13), (10, 13), (11, 15), (23, 15), (24, 17), (35, 17)] {
        let data = vec![b'7'; len];
        let m = micro_qr::encode(&data).ok().expect("fits");
        check_patterns(&m, side);
    }
    match micro_qr::encode(&[b'1'; 36]) {
        Err(e) => assert_eq!(e.message(), "Données trop longues pour Micro QR (36 octets, max 35). Utilisez le QR standard."),
        Ok(_) => panic!("36 digits encoded"),
    }
}

#[test]
fn micro_qr_alphanumeric_mode_from_m2() {
    let m = micro_qr::encode(b"HELLO").ok().expect("fits");
    check_patterns(&m, 13);
    for (len, side) in [(6usize, 13usize), (7, 15), (14, 15), (15, 17), (21, 17)] {
        let data = vec![b'$'; len];
        let m = micro_qr::encode(&data).ok().expect("fits");
        check_patterns(&m, side);
    }
    assert!(micro_qr::encode(&[b'A'; 22]).is_err());
}

#[test]
fn micro_qr_numeric_and_byte_symbols_differ() {
    let a = micro_qr::encode(b"0").ok().expect("fits");
    let b = micro_qr::encode(b"1").ok().expect("fits");
    assert_eq!(a.len(), 11);
    assert_ne!(a, b);
}

#[test]
fn micro_qr_refuses_sixteen_bytes() {
    match micro_qr::encode(&[0u8; 16]) {
        Err(e) => assert_eq!(e.message(), "Données trop longues pour Micro QR (16 octets, max 15). Utilisez le QR standard."),
        Ok(_) => panic!("16 bytes encoded"),
    }
}

#[test]
fn micro_form_error_is_prefixed() {
    let mut f = form_with(QrContentType::Text);
    f.use_micro_qr = true;
    f.text = "0123456789abcdefg".to_string();
    match encode(&f) {
        Err(e) => assert!(e.message().starts_with("Micro QR: Données trop longues")),
        Ok(_) => panic!("too long for Micro QR"),
    }
}

#[test]
fn modules_to_matrix_rows() {
    let colors = vec![true, false, false, true];
    assert_eq!(modules_to_matrix(&colors, 2), vec![vec![true, false], vec![false, true]]);
}

#[test]
fn codeword_vanishes_at_generator_roots() {
    let data: Vec<u8> = (0u8..26).map(|i| i.wrapping_mul(37).wrapping_add(5)).collect();
    for n in [2usize, 5, 10] {
        let ec = rs_ec_codewords(&data, n);
        let codeword: Vec<u8> = data.iter().chain(ec.iter()).copied().collect();
        for j in 0..n {
            let x = gf_exp(j);
            let value = codeword.iter().fold(0u8, |acc, &c| gf_mul(acc, x) ^ c);
            assert_eq!(value, 0, "n = {n}, root 2^{j}");
        }
        let x = gf_exp(n);
        let value = codeword.iter().fold(0u8, |acc, &c| gf_mul(acc, x) ^ c);
        assert_ne!(value, 0, "2^{n} is not a root for this data");
    }
}
