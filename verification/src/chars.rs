//! Character classes the engine relies on.
//!
//! Whitespace is background and never revealed; control characters are never
//! forwarded to the terminal. Both classes are fixed by the Unicode standard,
//! so they are stated here as explicit code-point sets.

use vstd::prelude::*;

verus! {

/// The Unicode `White_Space` property: the code points that read as blank.
pub open spec fn spec_is_whitespace(c: char) -> bool {
    let n = c as u32;
    ||| 0x9 <= n <= 0xD
    ||| n == 0x20
    ||| n == 0x85
    ||| n == 0xA0
    ||| n == 0x1680
    ||| 0x2000 <= n <= 0x200A
    ||| n == 0x2028
    ||| n == 0x2029
    ||| n == 0x202F
    ||| n == 0x205F
    ||| n == 0x3000
}

/// The Unicode general category `Cc`: the C0 and C1 control codes and DEL.
pub open spec fn spec_is_control(c: char) -> bool {
    let n = c as u32;
    n <= 0x1F || 0x7F <= n <= 0x9F
}

/// True when `c` is Unicode whitespace.
pub fn is_whitespace(c: char) -> (b: bool)
    ensures
        b == spec_is_whitespace(c),
{
    let n = c as u32;
    (0x9 <= n && n <= 0xD) || n == 0x20 || n == 0x85 || n == 0xA0 || n == 0x1680 || (0x2000
        <= n && n <= 0x200A) || n == 0x2028 || n == 0x2029 || n == 0x202F || n == 0x205F || n
        == 0x3000
}

/// True when `c` is a control character.
pub fn is_control(c: char) -> (b: bool)
    ensures
        b == spec_is_control(c),
{
    let n = c as u32;
    n <= 0x1F || (0x7F <= n && n <= 0x9F)
}

} // verus!
