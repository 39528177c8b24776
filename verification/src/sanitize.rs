//! Reduces a source text to its Brainfuck commands and checks that its
//! brackets balance.
use vstd::prelude::*;
use vstd::string::StringSliceAdditionalSpecFns;

verus! {

/// Whether `c` is one of the eight Brainfuck commands.
pub open spec fn is_command(c: char) -> bool {
    c == '+' || c == '-' || c == '>' || c == '<' || c == ',' || c == '.' || c == '[' || c == ']'
}

/// The commands among the bytes of a text, each byte read as the character
/// with that code, in order.
pub open spec fn commands(bytes: Seq<u8>) -> Seq<char> {
    bytes.filter_map(
        |b: u8|
            if is_command(b as char) {
                Some(b as char)
            } else {
                None
            },
    )
}

/// The number of `[` bytes minus the number of `]` bytes.
pub open spec fn bracket_balance(bytes: Seq<u8>) -> int
    decreases bytes.len(),
{
    if bytes.len() == 0 {
        0
    } else {
        bracket_balance(bytes.drop_last()) + if bytes.last() == 0x5bu8 {
            1int
        } else if bytes.last() == 0x5du8 {
            -1int
        } else {
            0int
        }
    }
}

/// Why a text was refused.
#[derive(Debug, Clone, Copy, PartialEq, Eq)]
pub enum BracketError {
    /// More `[` than `]`.
    TooManyOpening,
    /// More `]` than `[`.
    TooFewClosing,
}

/// The commands of `code`, provided it holds as many `[` as `]`. The count of
/// open brackets is kept in an `i32`, which every prefix must fit.
pub fn sanitize(code: &str) -> (r: Result<Vec<char>, BracketError>)
    requires
        forall|k: int|
            0 <= k <= code.spec_bytes().len() ==> i32::MIN <= #[trigger] bracket_balance(
                code.spec_bytes().take(k),
            ) <= i32::MAX,
    ensures
        r is Ok <==> bracket_balance(code.spec_bytes()) == 0,
        r matches Ok(v) ==> v@ == commands(code.spec_bytes()),
        r == Err::<Vec<char>, BracketError>(BracketError::TooManyOpening) <==> bracket_balance(
            code.spec_bytes(),
        ) > 0,
        r == Err::<Vec<char>, BracketError>(BracketError::TooFewClosing) <==> bracket_balance(
            code.spec_bytes(),
        ) < 0,
{
    let bytes = code.as_bytes();
    let mut brackets: i32 = 0;
    let mut sanitized: Vec<char> = Vec::new();
    for i in 0..bytes.len()
        invariant
            bytes@ == code.spec_bytes(),
            forall|k: int|
                0 <= k <= bytes@.len() ==> i32::MIN <= #[trigger] bracket_balance(bytes@.take(k))
                    <= i32::MAX,
            brackets == bracket_balance(bytes@.take(i as int)),
            sanitized@ == commands(bytes@.take(i as int)),
    {
        let keyword = bytes[i] as char;
        proof {
            assert(i32::MIN <= bracket_balance(bytes@.take(i + 1)) <= i32::MAX);
            assert(bytes@.take(i + 1).drop_last() =~= bytes@.take(i as int));
            assert(bytes@.take(i + 1).last() == bytes@[i as int]);
        }
        if keyword == '+' || keyword == '-' || keyword == '>' || keyword == '<' || keyword == ','
            || keyword == '.' {
            sanitized.push(keyword);
        } else if keyword == '[' {
            brackets += 1;
            sanitized.push(keyword);
        } else if keyword == ']' {
            brackets -= 1;
            sanitized.push(keyword);
        }
    }
    assert(bytes@.take(bytes.len() as int) =~= bytes@);
    if brackets != 0 {
        if brackets > 0 {
            return Err(BracketError::TooManyOpening);
        } else {
            return Err(BracketError::TooFewClosing);
        }
    }
    Ok(sanitized)
}

} // verus!
