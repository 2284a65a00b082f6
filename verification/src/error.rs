use vstd::prelude::*;

verus! {

/// What was being read when the data ran out.
#[derive(Clone, Copy, Debug, PartialEq, Eq, Structural)]
pub enum ValueKind {
    Uleb128,
    I8,
    U8,
    U16,
    I32,
    I64,
    F32,
}

/// Why a `.phirarec` file, or a part of one, could not be read.
#[derive(Clone, Copy, Debug, PartialEq, Eq, Structural)]
pub enum RecordError {
    /// Fewer bytes than the 13-byte header.
    TooSmall,
    /// The first eight bytes are not `PHIRAREC`.
    BadMagic,
    /// A Phira client recording, whose payload is encrypted.
    Encrypted,
    /// The header is neither a readable tphira-mp header nor an encrypted one.
    UnknownFormat,
    /// The compression byte names no known algorithm.
    UnsupportedCompression(u8),
    /// The payload is not a valid Zstandard frame.
    ZstdFailed,
    /// The payload is not a valid DEFLATE stream.
    DeflateFailed,
    /// The data ended in the middle of a value of the given kind.
    UnexpectedEnd(ValueKind),
    /// An unsigned LEB128 number runs on for more than ten bytes.
    UlebTooLarge,
    /// A string's declared length (carried) is longer than the rest of the data.
    StringTooLong(u64),
}

/// The name under which a kind of value is reported.
pub open spec fn kind_name(kind: ValueKind) -> Seq<char> {
    match kind {
        ValueKind::Uleb128 => "ULEB128"@,
        ValueKind::I8 => "i8"@,
        ValueKind::U8 => "u8"@,
        ValueKind::U16 => "u16"@,
        ValueKind::I32 => "i32"@,
        ValueKind::I64 => "i64"@,
        ValueKind::F32 => "f32"@,
    }
}

/// The decimal digit `d` (below ten) as a character.
pub open spec fn digit_char(d: nat) -> char {
    (48 + d) as char
}

/// The decimal numeral of `n`, without leading zeros.
pub open spec fn decimal(n: nat) -> Seq<char>
    decreases n,
{
    if n < 10 {
        seq![digit_char(n)]
    } else {
        decimal(n / 10).push(digit_char(n % 10))
    }
}

/// The number that a string of decimal digits names.
pub open spec fn numeral_value(digits: Seq<char>) -> int
    decreases digits.len(),
{
    if digits.len() == 0 {
        0
    } else {
        numeral_value(digits.drop_last()) * 10 + (digits.last() as int - 48)
    }
}

/// The numeral of every number is a nonempty string of the digits `0`..`9` with no leading
/// zero, and it names that number.
pub proof fn lemma_decimal_names_its_number(n: nat)
    ensures
        decimal(n).len() >= 1,
        forall|i: int| 0 <= i < decimal(n).len() ==> 48 <= #[trigger] decimal(n)[i] as int <= 57,
        decimal(n).len() > 1 ==> decimal(n)[0] != '0',
        numeral_value(decimal(n)) == n,
    decreases n,
{
    if n < 10 {
        assert(digit_char(n) as int == 48 + n);
        assert(seq![digit_char(n)].drop_last() =~= Seq::<char>::empty());
        assert(numeral_value(Seq::<char>::empty()) == 0);
        assert(numeral_value(decimal(n)) == n);
    } else {
        lemma_decimal_names_its_number(n / 10);
        let d = n % 10;
        let head = decimal(n / 10);
        assert(digit_char(d) as int == 48 + d);
        assert(decimal(n).drop_last() =~= head);
        assert forall|i: int| 0 <= i < decimal(n).len() implies 48 <= #[trigger] decimal(
            n,
        )[i] as int <= 57 by {
            if i < head.len() {
                assert(decimal(n)[i] == head[i]);
            }
        }
        assert(decimal(n)[0] == head[0]);
        assert(decimal(n).last() == digit_char(d));
        assert('0' as int == 48);
        vstd::arithmetic::div_mod::lemma_fundamental_div_mod(n as int, 10);
        assert(numeral_value(decimal(n)) == numeral_value(head) * 10 + d);
        if n / 10 < 10 {
            assert(head =~= seq![digit_char(n / 10)]);
            assert(digit_char(n / 10) as int == 48 + n / 10);
        } else {
            lemma_decimal_names_its_number(n / 100);
            assert(head == decimal(n / 10 / 10).push(digit_char(n / 10 % 10)));
        }
    }
}

/// The texts of the errors that carry a value name that value: the byte of an unknown
/// compression and the length of an overlong string in decimal, the kind of an unfinished
/// value by its name.
pub proof fn lemma_error_texts_name_their_values(b: u8, len: u64, kind: ValueKind)
    ensures
        error_text(RecordError::UnsupportedCompression(b)) == "unsupported compression algorithm: "@
            + decimal(b as nat),
        error_text(RecordError::StringTooLong(len)) == "string length "@ + decimal(len as nat)
            + " exceeds remaining data"@,
        error_text(RecordError::UnexpectedEnd(kind)) == "unexpected end of data while reading "@
            + kind_name(kind),
{
}

/// The text that reports an error, with the value it carries where it carries one.
pub open spec fn error_text(e: RecordError) -> Seq<char> {
    match e {
        RecordError::TooSmall => "file too small for .phirarec header (need at least 13 bytes)"@,
        RecordError::BadMagic => "not a valid .phirarec file (missing PHIRAREC magic)"@,
        RecordError::Encrypted => "此文件已加密，需要 Phira 客户端才能解密。"@,
        RecordError::UnknownFormat => "unknown .phirarec format — file may be corrupted or from an unsupported version"@,
        RecordError::UnsupportedCompression(b) => "unsupported compression algorithm: "@ + decimal(
            b as nat,
        ),
        RecordError::ZstdFailed => "ZSTD decompression failed"@,
        RecordError::DeflateFailed => "DEFLATE decompression failed"@,
        RecordError::UnexpectedEnd(kind) => "unexpected end of data while reading "@ + kind_name(
            kind,
        ),
        RecordError::UlebTooLarge => "ULEB128 value too large"@,
        RecordError::StringTooLong(len) => "string length "@ + decimal(len as nat)
            + " exceeds remaining data"@,
    }
}

/// The decimal digit `d` as a one-character string.
fn digit_text(d: u64) -> (text: &'static str)
    requires
        d < 10,
    ensures
        text@ == seq![digit_char(d as nat)],
{
    proof {
        reveal_strlit("0");
        reveal_strlit("1");
        reveal_strlit("2");
        reveal_strlit("3");
        reveal_strlit("4");
        reveal_strlit("5");
        reveal_strlit("6");
        reveal_strlit("7");
        reveal_strlit("8");
        reveal_strlit("9");
    }
    match d {
        0 => "0",
        1 => "1",
        2 => "2",
        3 => "3",
        4 => "4",
        5 => "5",
        6 => "6",
        7 => "7",
        8 => "8",
        _ => "9",
    }
}

/// Writes the decimal numeral of `n`.
pub fn decimal_text(n: u64) -> (text: String)
    ensures
        text@ == decimal(n as nat),
    decreases n,
{
    if n < 10 {
        String::from_str(digit_text(n))
    } else {
        let mut text = decimal_text(n / 10);
        text.append(digit_text(n % 10));
        text
    }
}

impl ValueKind {
    /// The name under which this kind of value is reported.
    pub fn name(&self) -> (text: &'static str)
        ensures
            text@ == kind_name(*self),
    {
        match self {
            ValueKind::Uleb128 => "ULEB128",
            ValueKind::I8 => "i8",
            ValueKind::U8 => "u8",
            ValueKind::U16 => "u16",
            ValueKind::I32 => "i32",
            ValueKind::I64 => "i64",
            ValueKind::F32 => "f32",
        }
    }
}

impl RecordError {
    /// The text that reports this error, with the value it carries where it carries one.
    pub fn message(&self) -> (text: String)
        ensures
            text@ == error_text(*self),
    {
        match self {
            RecordError::TooSmall => String::from_str(
                "file too small for .phirarec header (need at least 13 bytes)",
            ),
            RecordError::BadMagic => String::from_str(
                "not a valid .phirarec file (missing PHIRAREC magic)",
            ),
            RecordError::Encrypted => String::from_str("此文件已加密，需要 Phira 客户端才能解密。"),
            RecordError::UnknownFormat => String::from_str(
                "unknown .phirarec format — file may be corrupted or from an unsupported version",
            ),
            RecordError::UnsupportedCompression(b) => {
                let mut text = String::from_str("unsupported compression algorithm: ");
                let number = decimal_text(*b as u64);
                text.append(number.as_str());
                text
            },
            RecordError::ZstdFailed => String::from_str("ZSTD decompression failed"),
            RecordError::DeflateFailed => String::from_str("DEFLATE decompression failed"),
            RecordError::UnexpectedEnd(kind) => {
                let mut text = String::from_str("unexpected end of data while reading ");
                text.append(kind.name());
                text
            },
            RecordError::UlebTooLarge => String::from_str("ULEB128 value too large"),
            RecordError::StringTooLong(len) => {
                let mut text = String::from_str("string length ");
                let number = decimal_text(*len);
                text.append(number.as_str());
                text.append(" exceeds remaining data");
                text
            },
        }
    }
}

} // verus!
