//! Encoding of the QR form into a module matrix.
use vstd::prelude::*;
use vstd::string::StringSliceAdditionalSpecFns;
use crate::qr::micro_qr::{self, micro_qr_symbol, micro_selection, mode_of, too_long_message};
use crate::qr::types::{EcLevel, QrForm, qr_payload};
use crate::text::push_str;

verus! {

/// A module matrix, row by row; `true` is a dark module.
pub type QrMatrix = Vec<Vec<bool>>;

/// The rows of a module matrix as sequences.
pub open spec fn matrix_view(m: &QrMatrix) -> Seq<Seq<bool>> {
    Seq::new(m@.len(), |r: int| m@[r]@)
}

/// An encoding failure, with its message.
pub struct EncoderError(pub String);

impl EncoderError {
    /// The message of this error.
    pub fn message(&self) -> (m: String)
        ensures
            m@ == self.0@,
    {
        self.0.clone()
    }
}

/// Why the `qrcode` crate refused to build a symbol.
#[derive(Clone, Copy, PartialEq, Eq, Debug, Structural)]
pub enum QrCodeFailure {
    DataTooLong,
    InvalidVersion,
    UnsupportedCharacterSet,
    InvalidEciDesignator,
    InvalidCharacter,
}

impl QrCodeFailure {
    /// The message the `qrcode` crate displays for this failure.
    pub open spec fn message_spec(self) -> Seq<char> {
        match self {
            QrCodeFailure::DataTooLong => "data too long"@,
            QrCodeFailure::InvalidVersion => "invalid version"@,
            QrCodeFailure::UnsupportedCharacterSet => "unsupported character set"@,
            QrCodeFailure::InvalidEciDesignator => "invalid ECI designator"@,
            QrCodeFailure::InvalidCharacter => "invalid character"@,
        }
    }

    pub fn message(&self) -> (s: &'static str)
        ensures
            s@ == self.message_spec(),
    {
        match self {
            QrCodeFailure::DataTooLong => "data too long",
            QrCodeFailure::InvalidVersion => "invalid version",
            QrCodeFailure::UnsupportedCharacterSet => "unsupported character set",
            QrCodeFailure::InvalidEciDesignator => "invalid ECI designator",
            QrCodeFailure::InvalidCharacter => "invalid character",
        }
    }
}

/// The symbol the `qrcode` crate builds for `data` at `level` (smallest
/// normal version that fits): its modules row by row (`true` dark) and
/// its width; or the reason it fails.
pub uninterp spec fn qrcode_symbol(data: Seq<u8>, level: EcLevel) -> Result<(Seq<bool>, nat), QrCodeFailure>;

/// Calls `qrcode::QrCode::with_error_correction_level`, then reads the
/// symbol's `width()` and `to_colors()`. The result is the value named
/// `qrcode_symbol`; the width of a normal symbol (versions 1 to 40) is
/// between 21 and 177 and the colours number width * width, as the
/// crate's source shows.
#[verifier::external_body]
fn qrcode_build(data: &[u8], level: EcLevel) -> (r: Result<(Vec<bool>, usize), QrCodeFailure>)
    ensures
        match r {
            Ok((colors, width)) => {
                &&& qrcode_symbol(data@, level) == Ok::<(Seq<bool>, nat), QrCodeFailure>((colors@, width as nat))
                &&& 21 <= width <= 177
                &&& colors@.len() == width * width
            },
            Err(e) => qrcode_symbol(data@, level) == Err::<(Seq<bool>, nat), QrCodeFailure>(e),
        },
{
    let ec = match level {
        EcLevel::L => qrcode::EcLevel::L,
        EcLevel::M => qrcode::EcLevel::M,
        EcLevel::Q => qrcode::EcLevel::Q,
        EcLevel::H => qrcode::EcLevel::H,
    };
    match qrcode::QrCode::with_error_correction_level(data, ec) {
        Ok(code) => Ok((code.to_colors().iter().map(|c| *c == qrcode::Color::Dark).collect(), code.width())),
        Err(qrcode::types::QrError::DataTooLong) => Err(QrCodeFailure::DataTooLong),
        Err(qrcode::types::QrError::InvalidVersion) => Err(QrCodeFailure::InvalidVersion),
        Err(qrcode::types::QrError::UnsupportedCharacterSet) => Err(QrCodeFailure::UnsupportedCharacterSet),
        Err(qrcode::types::QrError::InvalidEciDesignator) => Err(QrCodeFailure::InvalidEciDesignator),
        Err(qrcode::types::QrError::InvalidCharacter) => Err(QrCodeFailure::InvalidCharacter),
    }
}

/// Row `r` of `colors` cut into rows of `width` (the last row possibly shorter).
pub open spec fn chunk_row(colors: Seq<bool>, width: nat, r: int) -> Seq<bool> {
    let end = if (r + 1) * width <= colors.len() {
        (r + 1) * width
    } else {
        colors.len() as int
    };
    colors.subrange(r * width, end)
}

/// `colors` cut into consecutive rows of `width` modules.
pub open spec fn chunk_rows(colors: Seq<bool>, width: nat) -> Seq<Seq<bool>> {
    let rows = if colors.len() % width == 0 {
        colors.len() / width
    } else {
        colors.len() / width + 1
    };
    Seq::new(rows, |r: int| chunk_row(colors, width, r))
}

/// Cuts the symbol's colours into rows of `width` modules.
pub fn modules_to_matrix(colors: &Vec<bool>, width: usize) -> (m: QrMatrix)
    requires
        width > 0,
    ensures
        matrix_view(&m) == chunk_rows(colors@, width as nat),
{
    let len = colors.len();
    let rows = if len % width == 0 {
        len / width
    } else {
        assert(width >= 2);
        assert(len / width < usize::MAX) by (nonlinear_arith)
            requires
                width >= 2,
        ;
        len / width + 1
    };
    assert(rows == chunk_rows(colors@, width as nat).len());
    let mut m: QrMatrix = Vec::new();
    let mut r: usize = 0;
    while r < rows
        invariant
            width > 0,
            len == colors@.len(),
            rows == (if len % width == 0 {
                (len / width) as int
            } else {
                len / width + 1
            }),
            r <= rows,
            m@.len() == r,
            forall|q: int| 0 <= q < r ==> (#[trigger] m@[q])@ == chunk_row(colors@, width as nat, q),
        decreases rows - r,
    {
        proof {
            vstd::arithmetic::div_mod::lemma_fundamental_div_mod(len as int, width as int);
            assert(r * width < len) by (nonlinear_arith)
                requires
                    width > 0,
                    r < rows,
                    len == width * (len / width) + len % width,
                    0 <= len % width < width,
                    rows == (if len % width == 0 {
                        (len / width) as int
                    } else {
                        len / width + 1
                    }),
            ;
            assert((r + 1) * width == r * width + width) by (nonlinear_arith);
        }
        let start = r * width;
        let end = if len - start >= width {
            start + width
        } else {
            len
        };
        let mut row: Vec<bool> = Vec::new();
        let mut k: usize = start;
        while k < end
            invariant
                start <= k <= end,
                end <= len,
                len == colors@.len(),
                row@ == colors@.subrange(start as int, k as int),
            decreases end - k,
        {
            row.push(colors[k]);
            k = k + 1;
            assert(row@ =~= colors@.subrange(start as int, k as int));
        }
        assert(row@ == chunk_row(colors@, width as nat, r as int));
        m.push(row);
        r = r + 1;
    }
    assert(matrix_view(&m) =~= chunk_rows(colors@, width as nat));
    m
}


/// The message given when the form encodes to an empty string.
pub open spec fn empty_data_message() -> Seq<char> {
    "Données vides"@
}

/// What `encode` gives for a form: the module rows, or the error message.
pub open spec fn encode_spec(form: QrForm) -> Result<Seq<Seq<bool>>, Seq<char>> {
    let payload = qr_payload(form);
    let bytes = vstd::utf8::encode_utf8(payload);
    if payload.len() == 0 {
        Err(empty_data_message())
    } else if form.use_micro_qr {
        match micro_selection(bytes) {
            Some(_) => Ok(micro_qr_symbol(bytes)),
            None => Err("Micro QR: "@ + too_long_message(bytes.len(), mode_of(bytes))),
        }
    } else {
        match qrcode_symbol(bytes, form.ec_level) {
            Ok(sym) => Ok(chunk_rows(sym.0, sym.1)),
            Err(e) => Err("QR encode: "@ + e.message_spec()),
        }
    }
}

fn empty_data_error() -> (e: EncoderError)
    ensures
        e.0@ == empty_data_message(),
{
    let mut msg = String::new();
    push_str(&mut msg, "Données vides");
    EncoderError(msg)
}

fn encode_standard(form: &QrForm) -> (r: Result<QrMatrix, EncoderError>)
    requires
        !form.use_micro_qr,
    ensures
        match r {
            Ok(m) => encode_spec(*form) == Ok::<Seq<Seq<bool>>, Seq<char>>(matrix_view(&m)),
            Err(e) => encode_spec(*form) == Err::<Seq<Seq<bool>>, Seq<char>>(e.0@),
        },
{
    let data = form.to_qr_string();
    if data.as_str().is_empty() {
        return Err(empty_data_error());
    }
    let bytes = data.as_str().as_bytes();
    match qrcode_build(bytes, form.ec_level) {
        Ok((colors, width)) => Ok(modules_to_matrix(&colors, width)),
        Err(e) => {
            let mut msg = String::new();
            push_str(&mut msg, "QR encode: ");
            push_str(&mut msg, e.message());
            Err(EncoderError(msg))
        },
    }
}

fn encode_micro(form: &QrForm) -> (r: Result<QrMatrix, EncoderError>)
    requires
        form.use_micro_qr,
    ensures
        match r {
            Ok(m) => encode_spec(*form) == Ok::<Seq<Seq<bool>>, Seq<char>>(matrix_view(&m)),
            Err(e) => encode_spec(*form) == Err::<Seq<Seq<bool>>, Seq<char>>(e.0@),
        },
{
    let data = form.to_qr_string();
    if data.as_str().is_empty() {
        return Err(empty_data_error());
    }
    let bytes = data.as_str().as_bytes();
    match micro_qr::encode(bytes) {
        Ok(m) => Ok(m),
        Err(e) => {
            let mut msg = String::new();
            push_str(&mut msg, "Micro QR: ");
            push_str(&mut msg, e.0.as_str());
            Err(EncoderError(msg))
        },
    }
}

/// Encodes the form's content into a module matrix (`true` = dark module),
/// as a Micro QR symbol when the form asks for one, else with the `qrcode` crate.
pub fn encode(form: &QrForm) -> (r: Result<QrMatrix, EncoderError>)
    ensures
        match r {
            Ok(m) => encode_spec(*form) == Ok::<Seq<Seq<bool>>, Seq<char>>(matrix_view(&m)),
            Err(e) => encode_spec(*form) == Err::<Seq<Seq<bool>>, Seq<char>>(e.0@),
        },
{
    if form.use_micro_qr {
        return encode_micro(form);
    }
    encode_standard(form)
}

} // verus!
