//! The names of the operators.
use vstd::prelude::*;
use crate::interp::{operator_of, Operator};

verus! {

/// Two texts that differ in length or at a place are not the same.
proof fn spelled()
    ensures
        "q"@.len() == 1,
        "q"@[0] == 'q',
        "Q"@.len() == 1,
        "Q"@[0] == 'Q',
        "cm"@.len() == 2,
        "cm"@[0] == 'c',
        "cm"@[1] == 'm',
        "w"@.len() == 1,
        "w"@[0] == 'w',
        "m"@.len() == 1,
        "m"@[0] == 'm',
        "l"@.len() == 1,
        "l"@[0] == 'l',
        "c"@.len() == 1,
        "c"@[0] == 'c',
        "v"@.len() == 1,
        "v"@[0] == 'v',
        "y"@.len() == 1,
        "y"@[0] == 'y',
        "h"@.len() == 1,
        "h"@[0] == 'h',
        "re"@.len() == 2,
        "re"@[0] == 'r',
        "re"@[1] == 'e',
        "W"@.len() == 1,
        "W"@[0] == 'W',
        "W*"@.len() == 2,
        "W*"@[0] == 'W',
        "W*"@[1] == '*',
        "S"@.len() == 1,
        "S"@[0] == 'S',
        "s"@.len() == 1,
        "s"@[0] == 's',
        "f"@.len() == 1,
        "f"@[0] == 'f',
        "F"@.len() == 1,
        "F"@[0] == 'F',
        "f*"@.len() == 2,
        "f*"@[0] == 'f',
        "f*"@[1] == '*',
        "B"@.len() == 1,
        "B"@[0] == 'B',
        "B*"@.len() == 2,
        "B*"@[0] == 'B',
        "B*"@[1] == '*',
        "b"@.len() == 1,
        "b"@[0] == 'b',
        "b*"@.len() == 2,
        "b*"@[0] == 'b',
        "b*"@[1] == '*',
        "n"@.len() == 1,
        "n"@[0] == 'n',
        "g"@.len() == 1,
        "g"@[0] == 'g',
        "G"@.len() == 1,
        "G"@[0] == 'G',
        "rg"@.len() == 2,
        "rg"@[0] == 'r',
        "rg"@[1] == 'g',
        "RG"@.len() == 2,
        "RG"@[0] == 'R',
        "RG"@[1] == 'G',
        "k"@.len() == 1,
        "k"@[0] == 'k',
        "K"@.len() == 1,
        "K"@[0] == 'K',
        "sc"@.len() == 2,
        "sc"@[0] == 's',
        "sc"@[1] == 'c',
        "scn"@.len() == 3,
        "scn"@[0] == 's',
        "scn"@[1] == 'c',
        "scn"@[2] == 'n',
        "SC"@.len() == 2,
        "SC"@[0] == 'S',
        "SC"@[1] == 'C',
        "SCN"@.len() == 3,
        "SCN"@[0] == 'S',
        "SCN"@[1] == 'C',
        "SCN"@[2] == 'N',
        "gs"@.len() == 2,
        "gs"@[0] == 'g',
        "gs"@[1] == 's',
        "BT"@.len() == 2,
        "BT"@[0] == 'B',
        "BT"@[1] == 'T',
        "Tf"@.len() == 2,
        "Tf"@[0] == 'T',
        "Tf"@[1] == 'f',
        "Tc"@.len() == 2,
        "Tc"@[0] == 'T',
        "Tc"@[1] == 'c',
        "Tw"@.len() == 2,
        "Tw"@[0] == 'T',
        "Tw"@[1] == 'w',
        "Tz"@.len() == 2,
        "Tz"@[0] == 'T',
        "Tz"@[1] == 'z',
        "TL"@.len() == 2,
        "TL"@[0] == 'T',
        "TL"@[1] == 'L',
        "Ts"@.len() == 2,
        "Ts"@[0] == 'T',
        "Ts"@[1] == 's',
        "Td"@.len() == 2,
        "Td"@[0] == 'T',
        "Td"@[1] == 'd',
        "TD"@.len() == 2,
        "TD"@[0] == 'T',
        "TD"@[1] == 'D',
        "Tm"@.len() == 2,
        "Tm"@[0] == 'T',
        "Tm"@[1] == 'm',
        "T*"@.len() == 2,
        "T*"@[0] == 'T',
        "T*"@[1] == '*',
        "Tj"@.len() == 2,
        "Tj"@[0] == 'T',
        "Tj"@[1] == 'j',
        "'"@.len() == 1,
        "'"@[0] == '\'',
        "\""@.len() == 1,
        "\""@[0] == '"',
        "TJ"@.len() == 2,
        "TJ"@[0] == 'T',
        "TJ"@[1] == 'J',
        "Do"@.len() == 2,
        "Do"@[0] == 'D',
        "Do"@[1] == 'o',
{
    reveal_strlit("q");
    reveal_strlit("Q");
    reveal_strlit("cm");
    reveal_strlit("w");
    reveal_strlit("m");
    reveal_strlit("l");
    reveal_strlit("c");
    reveal_strlit("v");
    reveal_strlit("y");
    reveal_strlit("h");
    reveal_strlit("re");
    reveal_strlit("W");
    reveal_strlit("W*");
    reveal_strlit("S");
    reveal_strlit("s");
    reveal_strlit("f");
    reveal_strlit("F");
    reveal_strlit("f*");
    reveal_strlit("B");
    reveal_strlit("B*");
    reveal_strlit("b");
    reveal_strlit("b*");
    reveal_strlit("n");
    reveal_strlit("g");
    reveal_strlit("G");
    reveal_strlit("rg");
    reveal_strlit("RG");
    reveal_strlit("k");
    reveal_strlit("K");
    reveal_strlit("sc");
    reveal_strlit("scn");
    reveal_strlit("SC");
    reveal_strlit("SCN");
    reveal_strlit("gs");
    reveal_strlit("BT");
    reveal_strlit("Tf");
    reveal_strlit("Tc");
    reveal_strlit("Tw");
    reveal_strlit("Tz");
    reveal_strlit("TL");
    reveal_strlit("Ts");
    reveal_strlit("Td");
    reveal_strlit("TD");
    reveal_strlit("Tm");
    reveal_strlit("T*");
    reveal_strlit("Tj");
    reveal_strlit("'");
    reveal_strlit("\"");
    reveal_strlit("TJ");
    reveal_strlit("Do");
}

/// Each operator has its name.
#[verifier::rlimit(50)]
pub proof fn operators_have_their_names()
    ensures
        operator_of("q"@) == Operator::Save,
        operator_of("Q"@) == Operator::Restore,
        operator_of("cm"@) == Operator::Concat,
        operator_of("w"@) == Operator::LineWidth,
        operator_of("m"@) == Operator::MoveTo,
        operator_of("l"@) == Operator::LineTo,
        operator_of("c"@) == Operator::CurveTo,
        operator_of("v"@) == Operator::CurveFromPoint,
        operator_of("y"@) == Operator::CurveIntoPoint,
        operator_of("h"@) == Operator::Close,
        operator_of("re"@) == Operator::Rectangle,
        operator_of("W"@) == Operator::Clip,
        operator_of("W*"@) == Operator::ClipEvenOdd,
        operator_of("S"@) == Operator::Stroke,
        operator_of("s"@) == Operator::CloseStroke,
        operator_of("f"@) == Operator::Fill,
        operator_of("F"@) == Operator::Fill,
        operator_of("f*"@) == Operator::FillEvenOdd,
        operator_of("B"@) == Operator::FillStroke,
        operator_of("B*"@) == Operator::FillStrokeEvenOdd,
        operator_of("b"@) == Operator::CloseFillStroke,
        operator_of("b*"@) == Operator::CloseFillStrokeEvenOdd,
        operator_of("n"@) == Operator::EndPath,
        operator_of("g"@) == Operator::FillGray,
        operator_of("G"@) == Operator::StrokeGray,
        operator_of("rg"@) == Operator::FillRgb,
        operator_of("RG"@) == Operator::StrokeRgb,
        operator_of("k"@) == Operator::FillCmyk,
        operator_of("K"@) == Operator::StrokeCmyk,
        operator_of("sc"@) == Operator::FillColor,
        operator_of("scn"@) == Operator::FillColor,
        operator_of("SC"@) == Operator::StrokeColor,
        operator_of("SCN"@) == Operator::StrokeColor,
        operator_of("gs"@) == Operator::ExtState,
        operator_of("BT"@) == Operator::BeginText,
        operator_of("Tf"@) == Operator::TextFont,
        operator_of("Tc"@) == Operator::CharSpacing,
        operator_of("Tw"@) == Operator::WordSpacing,
        operator_of("Tz"@) == Operator::TextScale,
        operator_of("TL"@) == Operator::Leading,
        operator_of("Ts"@) == Operator::Rise,
        operator_of("Td"@) == Operator::TextMove,
        operator_of("TD"@) == Operator::TextMoveLeading,
        operator_of("Tm"@) == Operator::TextMatrix,
        operator_of("T*"@) == Operator::NextLine,
        operator_of("Tj"@) == Operator::Show,
        operator_of("'"@) == Operator::ShowOnNextLine,
        operator_of("\""@) == Operator::ShowSpaced,
        operator_of("TJ"@) == Operator::ShowArray,
        operator_of("Do"@) == Operator::XObject,
{
    spelled();
}

} // verus!
