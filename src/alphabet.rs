use vstd::prelude::*;

use crate::error::CvError;

verus! {

/// Number of residue symbols in the alphabet.
pub const AA_NUMBER: u64 = 20;

/// The code of an upper-case letter, or `None` for a letter outside the alphabet.
pub open spec fn code_of_letter(ch: u8) -> Option<u8> {
    if ch == 65 { Some(0u8) }        // A
    else if ch == 66 { Some(2u8) }   // B
    else if ch == 67 { Some(1u8) }   // C
    else if ch == 68 { Some(2u8) }   // D
    else if ch == 69 { Some(3u8) }   // E
    else if ch == 70 { Some(4u8) }   // F
    else if ch == 71 { Some(5u8) }   // G
    else if ch == 72 { Some(6u8) }   // H
    else if ch == 73 { Some(7u8) }   // I
    else if ch == 75 { Some(8u8) }   // K
    else if ch == 76 { Some(9u8) }   // L
    else if ch == 77 { Some(10u8) }  // M
    else if ch == 78 { Some(11u8) }  // N
    else if ch == 80 { Some(12u8) }  // P
    else if ch == 81 { Some(13u8) }  // Q
    else if ch == 82 { Some(14u8) }  // R
    else if ch == 83 { Some(15u8) }  // S
    else if ch == 84 { Some(16u8) }  // T
    else if ch == 85 { Some(1u8) }   // U
    else if ch == 86 { Some(17u8) }  // V
    else if ch == 87 { Some(18u8) }  // W
    else if ch == 88 { Some(5u8) }   // X
    else if ch == 89 { Some(19u8) }  // Y
    else if ch == 90 { Some(3u8) }   // Z
    else { None }
}

/// Maps a residue symbol to its code in `[0, AA_NUMBER)`; any other byte is
/// an invalid residue.
pub fn encode(ch: u8) -> (r: Result<u8, CvError>)
    ensures
        r is Ok <==> code_of_letter(ch) is Some,
        r matches Ok(c) ==> code_of_letter(ch) == Some(c) && (c as u64) < AA_NUMBER,
        r matches Err(e) ==> e == CvError::InvalidResidue,
{
    let table: [i8; 26] = [
        0, 2, 1, 2, 3, 4, 5, 6, 7, -1, 8, 9, 10, 11, -1, 12, 13, 14, 15, 16, 1, 17, 18, 5, 19, 3,
    ];
    if ch < 65 || ch > 90 {
        return Err(CvError::InvalidResidue);
    }
    let c = table[(ch - 65) as usize];
    if c < 0 {
        Err(CvError::InvalidResidue)
    } else {
        Ok(c as u8)
    }
}

} // verus!
