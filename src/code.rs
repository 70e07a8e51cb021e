//! Referral codes: 1 to 20 bytes, compared in lowercase, made of `a-z`,
//! `0-9`, `_` and `-`.
use vstd::prelude::*;
use vstd::string::StrSliceExecFns;

verus! {

/// Fewest bytes in a code.
pub const MIN_CODE_LENGTH: usize = 1;

/// Most bytes in a code.
pub const MAX_CODE_LENGTH: usize = 20;

/// Why a code is refused.
#[derive(Clone, Copy, Debug, PartialEq, Eq, Structural)]
pub enum CodeError {
    EmptyCode,
    InvalidCodeLength,
    InvalidCodeCharacters,
}

/// The payload that asks to register a code.
#[derive(Debug)]
pub struct RegisterCodeMsg {
    pub code: String,
}

/// The codes held by one owner.
#[derive(Debug)]
pub struct CodesResponse {
    pub codes: Vec<String>,
}

/// The lowercase form of a string, as std's `to_lowercase` gives it.
pub uninterp spec fn lower_of(s: Seq<char>) -> Seq<char>;

/// Relies on str::to_lowercase: the result depends on the characters alone.
#[verifier::external_body]
pub(crate) fn lowercase(s: &str) -> (r: String)
    ensures
        r@ == lower_of(s@),
{
    s.to_lowercase()
}

/// A character allowed in a normalized code.
pub open spec fn is_code_char(c: char) -> bool {
    ('a' <= c && c <= 'z') || ('0' <= c && c <= '9') || c == '_' || c == '-'
}

/// Every character is allowed in a normalized code.
pub open spec fn all_code_chars(s: Seq<char>) -> bool {
    forall|i: int| 0 <= i < s.len() ==> is_code_char(#[trigger] s[i])
}

/// A code of `byte_len` bytes whose lowercase form is `lower` is well
/// formed.
pub open spec fn valid_code_format(byte_len: nat, lower: Seq<char>) -> bool {
    MIN_CODE_LENGTH <= byte_len <= MAX_CODE_LENGTH && all_code_chars(lower)
}

/// Whether every character of an already lowercased code is allowed.
pub fn has_only_code_chars(normalized: &str) -> (r: bool)
    ensures
        r == all_code_chars(normalized@),
{
    let n = normalized.unicode_len();
    let mut i: usize = 0;
    while i < n
        invariant
            n == normalized@.len(),
            i <= n,
            forall|j: int| 0 <= j < i ==> is_code_char(#[trigger] normalized@[j]),
        decreases n - i,
    {
        let c = normalized.get_char(i);
        if !(('a' <= c && c <= 'z') || ('0' <= c && c <= '9') || c == '_' || c == '-') {
            return false;
        }
        i = i + 1;
    }
    true
}

/// Whether `code` is well formed (registration is not checked). Case does
/// not matter: the code is judged by its lowercase form.
pub fn is_valid_code_format(code: &str) -> (r: bool)
    ensures
        r == valid_code_format(code.len() as nat, lower_of(code@)),
{
    if code.len() == 0 || code.len() < MIN_CODE_LENGTH || code.len() > MAX_CODE_LENGTH {
        return false;
    }
    let normalized = lowercase(code);
    has_only_code_chars(normalized.as_str())
}

/// The lowercase form of a well-formed code, or why it is refused: no
/// bytes, more than `MAX_CODE_LENGTH` bytes, or a character outside the
/// allowed set after lowercasing.
pub fn validate_and_normalize_code(code: &str) -> (r: Result<String, CodeError>)
    ensures
        code.len() == 0 ==> r == Err::<String, CodeError>(CodeError::EmptyCode),
        code.len() > MAX_CODE_LENGTH ==> r == Err::<String, CodeError>(
            CodeError::InvalidCodeLength,
        ),
        MIN_CODE_LENGTH <= code.len() <= MAX_CODE_LENGTH ==> {
            if all_code_chars(lower_of(code@)) {
                r matches Ok(s) && s@ == lower_of(code@)
            } else {
                r == Err::<String, CodeError>(CodeError::InvalidCodeCharacters)
            }
        },
{
    if code.len() == 0 {
        return Err(CodeError::EmptyCode);
    }
    if code.len() < MIN_CODE_LENGTH || code.len() > MAX_CODE_LENGTH {
        return Err(CodeError::InvalidCodeLength);
    }
    let normalized = lowercase(code);
    if !has_only_code_chars(normalized.as_str()) {
        return Err(CodeError::InvalidCodeCharacters);
    }
    Ok(normalized)
}

} // verus!
