//! Names of the files that cache downloaded logos.
use vstd::prelude::*;
use vstd::string::StringSliceAdditionalSpecFns;
use crate::lang::{lower_case, to_lower};
use crate::render::str_eq;
use crate::text::{chars_of, find_first, hex_digit_char, push_char, push_chars, push_str};

verus! {

/// The hash of a URL: each byte folded in as `h * 31 + b`, wrapping.
pub open spec fn url_hash_from(b: Seq<u8>, n: nat, h: u64) -> u64
    decreases n,
{
    if n == 0 {
        h
    } else {
        let prev = url_hash_from(b, (n - 1) as nat, h);
        ((prev * 31 + b[n - 1]) % 0x1_0000_0000_0000_0000) as u64
    }
}

/// The hash of the URL's bytes.
pub open spec fn url_hash(b: Seq<u8>) -> u64 {
    url_hash_from(b, b.len(), 0)
}

/// Hashes the bytes of a URL.
pub fn hash_url(url: &str) -> (h: u64)
    ensures
        h == url_hash(url.spec_bytes()),
{
    let b = url.as_bytes();
    let mut h: u64 = 0;
    let mut i: usize = 0;
    while i < b.len()
        invariant
            i <= b@.len(),
            b@ == url.spec_bytes(),
            h == url_hash_from(b@, i as nat, 0),
        decreases b@.len() - i,
    {
        h = h.wrapping_mul(31).wrapping_add(b[i] as u64);
        proof {
            assert(h == ((url_hash_from(b@, i as nat, 0) * 31 + b@[i as int]) % 0x1_0000_0000_0000_0000) as u64) by {
                let p = url_hash_from(b@, i as nat, 0);
                assert(((p * 31) % 0x1_0000_0000_0000_0000 + b@[i as int]) % 0x1_0000_0000_0000_0000 == (p * 31 + b@[i as int]) % 0x1_0000_0000_0000_0000) by {
                    vstd::arithmetic::div_mod::lemma_add_mod_noop((p * 31) as int, b@[i as int] as int, 0x1_0000_0000_0000_0000);
                    vstd::arithmetic::div_mod::lemma_mod_twice((p * 31) as int, 0x1_0000_0000_0000_0000);
                    vstd::arithmetic::div_mod::lemma_mod_bound(b@[i as int] as int, 0x1_0000_0000_0000_0000);
                    vstd::arithmetic::div_mod::lemma_small_mod(b@[i as int] as nat, 0x1_0000_0000_0000_0000);
                }
            }
        }
        i = i + 1;
    }
    h
}

/// Sixteen upper-case hexadecimal digits of `h`, most significant first.
pub open spec fn hex16(h: u64) -> Seq<char> {
    Seq::new(16, |i: int| hex_digit_char((((h as int) / vstd::arithmetic::power::pow(16, (15 - i) as nat)) % 16) as nat))
}

/// The extension of a cached logo: from the content type when it names
/// PNG, JPEG, WebP or BMP, otherwise the URL's text after its last `.`.
pub open spec fn logo_extension(url: Seq<char>, content_type: Seq<char>) -> Seq<char> {
    let ct = lower_case(content_type);
    if contains(ct, "png"@) {
        "png"@
    } else if contains(ct, "jpeg"@) || contains(ct, "jpg"@) {
        "jpg"@
    } else if contains(ct, "webp"@) {
        "webp"@
    } else if contains(ct, "bmp"@) {
        "bmp"@
    } else {
        after_last_dot(url)
    }
}

/// Whether `pat` occurs in `s`.
pub open spec fn contains(s: Seq<char>, pat: Seq<char>) -> bool {
    find_first(s, pat) is Some
}

/// The text after the last `.` of `s`, or `s` without one.
pub open spec fn after_last_dot(s: Seq<char>) -> Seq<char>
    decreases s.len(),
{
    if s.len() == 0 {
        s
    } else if s.last() == '.' {
        Seq::empty()
    } else {
        after_last_dot(s.drop_last()).push(s.last())
    }
}

/// The cache file name of a logo: the URL's hash in 16 hexadecimal digits,
/// a dot and the extension.
pub open spec fn logo_cache_name_spec(url: Seq<char>, url_bytes: Seq<u8>, content_type: Seq<char>) -> Seq<char> {
    hex16(url_hash(url_bytes)) + "."@ + logo_extension(url, content_type)
}

fn contains_exec(s: &str, pat: &str) -> (r: bool)
    ensures
        r == contains(s@, pat@),
{
    let v = chars_of(s);
    let p = chars_of(pat);
    let len = v.len();
    assert(v@.subrange(0, len as int) =~= v@);
    crate::text::find_chars(v.as_slice(), 0, len, p.as_slice()).is_some()
}

fn after_last_dot_exec(s: &str) -> (r: String)
    ensures
        r@ == after_last_dot(s@),
{
    let v = chars_of(s);
    let len = v.len();
    let mut k = len;
    proof {
        assert(v@.subrange(0, len as int) =~= v@);
        assert(v@ + v@.subrange(len as int, len as int) =~= v@);
    }
    while k > 0 && v[k - 1] != '.'
        invariant
            v@ == s@,
            len == v@.len(),
            k <= len,
            after_last_dot(v@) == after_last_dot(v@.subrange(0, k as int)) + v@.subrange(k as int, len as int),
        decreases k,
    {
        proof {
            let a = v@.subrange(0, k as int);
            assert(a.drop_last() =~= v@.subrange(0, k - 1));
            assert(after_last_dot(a) == after_last_dot(a.drop_last()).push(a.last()));
            assert(v@.subrange(k - 1, len as int) =~= seq![a.last()] + v@.subrange(k as int, len as int));
        }
        k = k - 1;
    }
    proof {
        assert(v@.subrange(0, len as int) =~= v@);
        if k > 0 {
            let a = v@.subrange(0, k as int);
            assert(a.last() == '.');
        } else {
            assert(v@.subrange(0, 0) =~= Seq::<char>::empty());
        }
        assert(Seq::<char>::empty() + v@.subrange(k as int, len as int) =~= v@.subrange(k as int, len as int));
    }
    let mut out = String::new();
    push_chars(&mut out, v.as_slice(), k, len);
    out
}

fn push_hex16(out: &mut String, h: u64)
    ensures
        final(out)@ == old(out)@ + hex16(h),
{
    let ghost start = out@;
    let mut i: u64 = 0;
    while i < 16
        invariant
            i <= 16,
            out@ == start + hex16(h).subrange(0, i as int),
        decreases 16 - i,
    {
        let shift = (15 - i) * 4;
        let d = (h >> shift) & 15;
        proof {
            assert(d == ((h as int) / vstd::arithmetic::power::pow(16, (15 - i) as nat)) % 16) by {
                lemma_nibble(h, (15 - i) as u64);
            }
        }
        let c = if d < 10 {
            ((48 + d) as u8) as char
        } else {
            ((55 + d) as u8) as char
        };
        push_char(out, c);
        assert(out@ =~= start + hex16(h).subrange(0, i + 1));
        i = i + 1;
    }
    assert(hex16(h).subrange(0, 16) =~= hex16(h));
}

proof fn lemma_nibble(h: u64, k: u64)
    requires
        k < 16,
    ensures
        (h >> (k * 4)) & 15 == ((h as int) / vstd::arithmetic::power::pow(16, k as nat)) % 16,
{
    assert(vstd::arithmetic::power::pow(16, k as nat) == vstd::arithmetic::power2::pow2((k * 4) as nat)) by {
        lemma_pow16(k as nat);
    }
    vstd::bits::lemma_u64_shr_is_div(h, (k * 4) as u64);
    let q = h >> (k * 4);
    assert(q & 15 == q % 16) by (bit_vector);
}

proof fn lemma_pow16(k: nat)
    ensures
        vstd::arithmetic::power::pow(16, k) == vstd::arithmetic::power2::pow2(k * 4),
    decreases k,
{
    vstd::arithmetic::power::lemma_pow0(16);
    vstd::arithmetic::power2::lemma2_to64();
    if k > 0 {
        lemma_pow16((k - 1) as nat);
        vstd::arithmetic::power::lemma_pow_adds(16, (k - 1) as nat, 1);
        vstd::arithmetic::power::lemma_pow1(16);
        vstd::arithmetic::power2::lemma_pow2_adds(((k - 1) * 4) as nat, 4);
        assert((k - 1) * 4 + 4 == k * 4);
    }
}

/// The name of the cache file of a logo downloaded from `url` with the
/// given content type.
pub fn logo_cache_name(url: &str, content_type: &str) -> (r: String)
    ensures
        r@ == logo_cache_name_spec(url@, url.spec_bytes(), content_type@),
{
    let ct = to_lower(content_type);
    let ext: String = if contains_exec(ct.as_str(), "png") {
        "png".to_owned()
    } else if contains_exec(ct.as_str(), "jpeg") || contains_exec(ct.as_str(), "jpg") {
        "jpg".to_owned()
    } else if contains_exec(ct.as_str(), "webp") {
        "webp".to_owned()
    } else if contains_exec(ct.as_str(), "bmp") {
        "bmp".to_owned()
    } else {
        after_last_dot_exec(url)
    };
    let mut name = String::new();
    push_hex16(&mut name, hash_url(url));
    push_str(&mut name, ".");
    push_str(&mut name, ext.as_str());
    name
}

} // verus!
