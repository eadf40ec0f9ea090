//! The classes of characters by scripts and kinds.
use vstd::prelude::*;

use crate::tables::{
    class_of, east_asian_class, latin_class, middle_eastern_class, south_asian_class,
    supplementary_class, symbols_class, BidiClass,
};

verus! {

/// Letters of Arabic, Syriac and Thaana, and what is kept free for such scripts.
pub open spec fn arabic_letter(x: u32) -> bool {
    x == 0x0608 || x == 0x060B || x == 0x060D || 0x061B <= x <= 0x064A || 0x066D <= x <= 0x066F ||
        0x0671 <= x <= 0x06D5 || 0x06E5 <= x <= 0x06E6 || 0x06EE <= x <= 0x06EF ||
        0x06FA <= x <= 0x0710 || 0x0712 <= x <= 0x072F || 0x074B <= x <= 0x07A5 ||
        0x07B1 <= x <= 0x07BF || 0x0860 <= x <= 0x088F || 0x0892 <= x <= 0x0897 ||
        0x08A0 <= x <= 0x08C9 || 0xFB50 <= x <= 0xFD3D || 0xFD50 <= x <= 0xFDCE ||
        0xFDF0 <= x <= 0xFDFC || 0xFE70 <= x <= 0xFEFE || 0x10D00 <= x <= 0x10D23 ||
        0x10D28 <= x <= 0x10D2F || 0x10D3A <= x <= 0x10D3F || 0x10F30 <= x <= 0x10F45 ||
        0x10F51 <= x <= 0x10F6F || 0x1EC70 <= x <= 0x1ECBF || 0x1ED00 <= x <= 0x1ED4F ||
        0x1EE00 <= x <= 0x1EEEF || 0x1EEF2 <= x <= 0x1EEFF
}

/// Arabic-Indic digits, their separators, and signs that go with Arabic numbers.
pub open spec fn arabic_number(x: u32) -> bool {
    0x0600 <= x <= 0x0605 || 0x0660 <= x <= 0x0669 || 0x066B <= x <= 0x066C || x == 0x06DD ||
        0x0890 <= x <= 0x0891 || x == 0x08E2 || 0x10D30 <= x <= 0x10D39 || 0x10E60 <= x <= 0x10E7E
}

/// What ends a paragraph.
pub open spec fn paragraph_separator(x: u32) -> bool {
    x == 0x000A || x == 0x000D || 0x001C <= x <= 0x001E || x == 0x0085 || x == 0x2029
}

/// Controls, invisible characters, and code points that are no characters.
pub open spec fn boundary_neutral(x: u32) -> bool {
    0x0000 <= x <= 0x0008 || 0x000E <= x <= 0x001B || 0x007F <= x <= 0x0084 ||
        0x0086 <= x <= 0x009F || x == 0x00AD || x == 0x180E || 0x200B <= x <= 0x200D ||
        0x2060 <= x <= 0x2065 || 0x206A <= x <= 0x206F || 0xFDD0 <= x <= 0xFDEF || x == 0xFEFF ||
        0xFFF0 <= x <= 0xFFF8 || 0xFFFE <= x <= 0xFFFF || 0x1BCA0 <= x <= 0x1BCA3 ||
        0x1D173 <= x <= 0x1D17A || 0x1FFFE <= x <= 0x1FFFF || 0x2FFFE <= x <= 0x2FFFF ||
        0x3FFFE <= x <= 0x3FFFF || 0x4FFFE <= x <= 0x4FFFF || 0x5FFFE <= x <= 0x5FFFF ||
        0x6FFFE <= x <= 0x6FFFF || 0x7FFFE <= x <= 0x7FFFF || 0x8FFFE <= x <= 0x8FFFF ||
        0x9FFFE <= x <= 0x9FFFF || 0xAFFFE <= x <= 0xAFFFF || 0xBFFFE <= x <= 0xBFFFF ||
        0xCFFFE <= x <= 0xCFFFF || 0xDFFFE <= x <= 0xE00FF || 0xE01F0 <= x <= 0xE0FFF ||
        0xEFFFE <= x <= 0xEFFFF || 0xFFFFE <= x <= 0xFFFFF || 0x10FFFE <= x <= 0x10FFFF
}

/// Separators in numbers of all kinds.
pub open spec fn common_separator(x: u32) -> bool {
    x == 0x002C || 0x002E <= x <= 0x002F || x == 0x003A || x == 0x00A0 || x == 0x060C ||
        x == 0x202F || x == 0x2044 || x == 0xFE50 || x == 0xFE52 || x == 0xFE55 || x == 0xFF0C ||
        0xFF0E <= x <= 0xFF0F || x == 0xFF1A
}

/// European digits, also as superscripts and subscripts, and those of Persian and Urdu.
pub open spec fn european_number(x: u32) -> bool {
    0x0030 <= x <= 0x0039 || 0x00B2 <= x <= 0x00B3 || x == 0x00B9 || 0x06F0 <= x <= 0x06F9 ||
        x == 0x2070 || 0x2074 <= x <= 0x2079 || 0x2080 <= x <= 0x2089 || 0x2488 <= x <= 0x249B ||
        0xFF10 <= x <= 0xFF19 || 0x102E1 <= x <= 0x102FB || 0x1D7CE <= x <= 0x1D7FF ||
        0x1F100 <= x <= 0x1F10A || 0x1FBF0 <= x <= 0x1FBF9
}

/// Plus and minus signs.
pub open spec fn european_separator(x: u32) -> bool {
    x == 0x002B || x == 0x002D || 0x207A <= x <= 0x207B || 0x208A <= x <= 0x208B || x == 0x2212 ||
        x == 0xFB29 || 0xFE62 <= x <= 0xFE63 || x == 0xFF0B || x == 0xFF0D
}

/// Currency signs, percent signs, degree signs and the like.
pub open spec fn european_terminator(x: u32) -> bool {
    0x0023 <= x <= 0x0025 || 0x00A2 <= x <= 0x00A5 || 0x00B0 <= x <= 0x00B1 || x == 0x058F ||
        0x0609 <= x <= 0x060A || x == 0x066A || 0x09F2 <= x <= 0x09F3 || x == 0x09FB ||
        x == 0x0AF1 || x == 0x0BF9 || x == 0x0E3F || x == 0x17DB || 0x2030 <= x <= 0x2034 ||
        0x20A0 <= x <= 0x20CF || x == 0x212E || x == 0x2213 || 0xA838 <= x <= 0xA839 ||
        x == 0xFE5F || 0xFE69 <= x <= 0xFE6A || 0xFF03 <= x <= 0xFF05 || 0xFFE0 <= x <= 0xFFE1 ||
        0xFFE5 <= x <= 0xFFE6 || 0x11FDD <= x <= 0x11FE0 || x == 0x1E2FF
}

/// Marks that combine with the character before them.
pub open spec fn nonspacing_mark(x: u32) -> bool {
    0x0300 <= x <= 0x036F || 0x0483 <= x <= 0x0489 || 0x0591 <= x <= 0x05BD || x == 0x05BF ||
        0x05C1 <= x <= 0x05C2 || 0x05C4 <= x <= 0x05C5 || x == 0x05C7 || 0x0610 <= x <= 0x061A ||
        0x064B <= x <= 0x065F || x == 0x0670 || 0x06D6 <= x <= 0x06DC || 0x06DF <= x <= 0x06E4 ||
        0x06E7 <= x <= 0x06E8 || 0x06EA <= x <= 0x06ED || x == 0x0711 || 0x0730 <= x <= 0x074A ||
        0x07A6 <= x <= 0x07B0 || 0x07EB <= x <= 0x07F3 || x == 0x07FD || 0x0816 <= x <= 0x0819 ||
        0x081B <= x <= 0x0823 || 0x0825 <= x <= 0x0827 || 0x0829 <= x <= 0x082D ||
        0x0859 <= x <= 0x085B || 0x0898 <= x <= 0x089F || 0x08CA <= x <= 0x08E1 ||
        0x08E3 <= x <= 0x0902 || x == 0x093A || x == 0x093C || 0x0941 <= x <= 0x0948 ||
        x == 0x094D || 0x0951 <= x <= 0x0957 || 0x0962 <= x <= 0x0963 || x == 0x0981 ||
        x == 0x09BC || 0x09C1 <= x <= 0x09C4 || x == 0x09CD || 0x09E2 <= x <= 0x09E3 ||
        x == 0x09FE || 0x0A01 <= x <= 0x0A02 || x == 0x0A3C || 0x0A41 <= x <= 0x0A42 ||
        0x0A47 <= x <= 0x0A48 || 0x0A4B <= x <= 0x0A4D || x == 0x0A51 || 0x0A70 <= x <= 0x0A71 ||
        x == 0x0A75 || 0x0A81 <= x <= 0x0A82 || x == 0x0ABC || 0x0AC1 <= x <= 0x0AC5 ||
        0x0AC7 <= x <= 0x0AC8 || x == 0x0ACD || 0x0AE2 <= x <= 0x0AE3 || 0x0AFA <= x <= 0x0AFF ||
        x == 0x0B01 || x == 0x0B3C || x == 0x0B3F || 0x0B41 <= x <= 0x0B44 || x == 0x0B4D ||
        0x0B55 <= x <= 0x0B56 || 0x0B62 <= x <= 0x0B63 || x == 0x0B82 || x == 0x0BC0 ||
        x == 0x0BCD || x == 0x0C00 || x == 0x0C04 || x == 0x0C3C || 0x0C3E <= x <= 0x0C40 ||
        0x0C46 <= x <= 0x0C48 || 0x0C4A <= x <= 0x0C4D || 0x0C55 <= x <= 0x0C56 ||
        0x0C62 <= x <= 0x0C63 || x == 0x0C81 || x == 0x0CBC || 0x0CCC <= x <= 0x0CCD ||
        0x0CE2 <= x <= 0x0CE3 || 0x0D00 <= x <= 0x0D01 || 0x0D3B <= x <= 0x0D3C ||
        0x0D41 <= x <= 0x0D44 || x == 0x0D4D || 0x0D62 <= x <= 0x0D63 || x == 0x0D81 ||
        x == 0x0DCA || 0x0DD2 <= x <= 0x0DD4 || x == 0x0DD6 || x == 0x0E31 ||
        0x0E34 <= x <= 0x0E3A || 0x0E47 <= x <= 0x0E4E || x == 0x0EB1 || 0x0EB4 <= x <= 0x0EBC ||
        0x0EC8 <= x <= 0x0ECD || 0x0F18 <= x <= 0x0F19 || x == 0x0F35 || x == 0x0F37 ||
        x == 0x0F39 || 0x0F71 <= x <= 0x0F7E || 0x0F80 <= x <= 0x0F84 || 0x0F86 <= x <= 0x0F87 ||
        0x0F8D <= x <= 0x0F97 || 0x0F99 <= x <= 0x0FBC || x == 0x0FC6 || 0x102D <= x <= 0x1030 ||
        0x1032 <= x <= 0x1037 || 0x1039 <= x <= 0x103A || 0x103D <= x <= 0x103E ||
        0x1058 <= x <= 0x1059 || 0x105E <= x <= 0x1060 || 0x1071 <= x <= 0x1074 || x == 0x1082 ||
        0x1085 <= x <= 0x1086 || x == 0x108D || x == 0x109D || 0x135D <= x <= 0x135F ||
        0x1712 <= x <= 0x1714 || 0x1732 <= x <= 0x1733 || 0x1752 <= x <= 0x1753 ||
        0x1772 <= x <= 0x1773 || 0x17B4 <= x <= 0x17B5 || 0x17B7 <= x <= 0x17BD || x == 0x17C6 ||
        0x17C9 <= x <= 0x17D3 || x == 0x17DD || 0x180B <= x <= 0x180D || x == 0x180F ||
        0x1885 <= x <= 0x1886 || x == 0x18A9 || 0x1920 <= x <= 0x1922 || 0x1927 <= x <= 0x1928 ||
        x == 0x1932 || 0x1939 <= x <= 0x193B || 0x1A17 <= x <= 0x1A18 || x == 0x1A1B ||
        x == 0x1A56 || 0x1A58 <= x <= 0x1A5E || x == 0x1A60 || x == 0x1A62 ||
        0x1A65 <= x <= 0x1A6C || 0x1A73 <= x <= 0x1A7C || x == 0x1A7F || 0x1AB0 <= x <= 0x1ACE ||
        0x1B00 <= x <= 0x1B03 || x == 0x1B34 || 0x1B36 <= x <= 0x1B3A || x == 0x1B3C ||
        x == 0x1B42 || 0x1B6B <= x <= 0x1B73 || 0x1B80 <= x <= 0x1B81 || 0x1BA2 <= x <= 0x1BA5 ||
        0x1BA8 <= x <= 0x1BA9 || 0x1BAB <= x <= 0x1BAD || x == 0x1BE6 || 0x1BE8 <= x <= 0x1BE9 ||
        x == 0x1BED || 0x1BEF <= x <= 0x1BF1 || 0x1C2C <= x <= 0x1C33 || 0x1C36 <= x <= 0x1C37 ||
        0x1CD0 <= x <= 0x1CD2 || 0x1CD4 <= x <= 0x1CE0 || 0x1CE2 <= x <= 0x1CE8 || x == 0x1CED ||
        x == 0x1CF4 || 0x1CF8 <= x <= 0x1CF9 || 0x1DC0 <= x <= 0x1DFF || 0x20D0 <= x <= 0x20F0 ||
        0x2CEF <= x <= 0x2CF1 || x == 0x2D7F || 0x2DE0 <= x <= 0x2DFF || 0x302A <= x <= 0x302D ||
        0x3099 <= x <= 0x309A || 0xA66F <= x <= 0xA672 || 0xA674 <= x <= 0xA67D ||
        0xA69E <= x <= 0xA69F || 0xA6F0 <= x <= 0xA6F1 || x == 0xA802 || x == 0xA806 ||
        x == 0xA80B || 0xA825 <= x <= 0xA826 || x == 0xA82C || 0xA8C4 <= x <= 0xA8C5 ||
        0xA8E0 <= x <= 0xA8F1 || x == 0xA8FF || 0xA926 <= x <= 0xA92D || 0xA947 <= x <= 0xA951 ||
        0xA980 <= x <= 0xA982 || x == 0xA9B3 || 0xA9B6 <= x <= 0xA9B9 || 0xA9BC <= x <= 0xA9BD ||
        x == 0xA9E5 || 0xAA29 <= x <= 0xAA2E || 0xAA31 <= x <= 0xAA32 || 0xAA35 <= x <= 0xAA36 ||
        x == 0xAA43 || x == 0xAA4C || x == 0xAA7C || x == 0xAAB0 || 0xAAB2 <= x <= 0xAAB4 ||
        0xAAB7 <= x <= 0xAAB8 || 0xAABE <= x <= 0xAABF || x == 0xAAC1 || 0xAAEC <= x <= 0xAAED ||
        x == 0xAAF6 || x == 0xABE5 || x == 0xABE8 || x == 0xABED || x == 0xFB1E ||
        0xFE00 <= x <= 0xFE0F || 0xFE20 <= x <= 0xFE2F || x == 0x101FD || x == 0x102E0 ||
        0x10376 <= x <= 0x1037A || 0x10A01 <= x <= 0x10A03 || 0x10A05 <= x <= 0x10A06 ||
        0x10A0C <= x <= 0x10A0F || 0x10A38 <= x <= 0x10A3A || x == 0x10A3F ||
        0x10AE5 <= x <= 0x10AE6 || 0x10D24 <= x <= 0x10D27 || 0x10EAB <= x <= 0x10EAC ||
        0x10F46 <= x <= 0x10F50 || 0x10F82 <= x <= 0x10F85 || x == 0x11001 ||
        0x11038 <= x <= 0x11046 || x == 0x11070 || 0x11073 <= x <= 0x11074 ||
        0x1107F <= x <= 0x11081 || 0x110B3 <= x <= 0x110B6 || 0x110B9 <= x <= 0x110BA ||
        x == 0x110C2 || 0x11100 <= x <= 0x11102 || 0x11127 <= x <= 0x1112B ||
        0x1112D <= x <= 0x11134 || x == 0x11173 || 0x11180 <= x <= 0x11181 ||
        0x111B6 <= x <= 0x111BE || 0x111C9 <= x <= 0x111CC || x == 0x111CF ||
        0x1122F <= x <= 0x11231 || x == 0x11234 || 0x11236 <= x <= 0x11237 || x == 0x1123E ||
        x == 0x112DF || 0x112E3 <= x <= 0x112EA || 0x11300 <= x <= 0x11301 ||
        0x1133B <= x <= 0x1133C || x == 0x11340 || 0x11366 <= x <= 0x1136C ||
        0x11370 <= x <= 0x11374 || 0x11438 <= x <= 0x1143F || 0x11442 <= x <= 0x11444 ||
        x == 0x11446 || x == 0x1145E || 0x114B3 <= x <= 0x114B8 || x == 0x114BA ||
        0x114BF <= x <= 0x114C0 || 0x114C2 <= x <= 0x114C3 || 0x115B2 <= x <= 0x115B5 ||
        0x115BC <= x <= 0x115BD || 0x115BF <= x <= 0x115C0 || 0x115DC <= x <= 0x115DD ||
        0x11633 <= x <= 0x1163A || x == 0x1163D || 0x1163F <= x <= 0x11640 || x == 0x116AB ||
        x == 0x116AD || 0x116B0 <= x <= 0x116B5 || x == 0x116B7 || 0x1171D <= x <= 0x1171F ||
        0x11722 <= x <= 0x11725 || 0x11727 <= x <= 0x1172B || 0x1182F <= x <= 0x11837 ||
        0x11839 <= x <= 0x1183A || 0x1193B <= x <= 0x1193C || x == 0x1193E || x == 0x11943 ||
        0x119D4 <= x <= 0x119D7 || 0x119DA <= x <= 0x119DB || x == 0x119E0 ||
        0x11A01 <= x <= 0x11A06 || 0x11A09 <= x <= 0x11A0A || 0x11A33 <= x <= 0x11A38 ||
        0x11A3B <= x <= 0x11A3E || x == 0x11A47 || 0x11A51 <= x <= 0x11A56 ||
        0x11A59 <= x <= 0x11A5B || 0x11A8A <= x <= 0x11A96 || 0x11A98 <= x <= 0x11A99 ||
        0x11C30 <= x <= 0x11C36 || 0x11C38 <= x <= 0x11C3D || 0x11C92 <= x <= 0x11CA7 ||
        0x11CAA <= x <= 0x11CB0 || 0x11CB2 <= x <= 0x11CB3 || 0x11CB5 <= x <= 0x11CB6 ||
        0x11D31 <= x <= 0x11D36 || x == 0x11D3A || 0x11D3C <= x <= 0x11D3D ||
        0x11D3F <= x <= 0x11D45 || x == 0x11D47 || 0x11D90 <= x <= 0x11D91 || x == 0x11D95 ||
        x == 0x11D97 || 0x11EF3 <= x <= 0x11EF4 || 0x16AF0 <= x <= 0x16AF4 ||
        0x16B30 <= x <= 0x16B36 || x == 0x16F4F || 0x16F8F <= x <= 0x16F92 || x == 0x16FE4 ||
        0x1BC9D <= x <= 0x1BC9E || 0x1CF00 <= x <= 0x1CF2D || 0x1CF30 <= x <= 0x1CF46 ||
        0x1D167 <= x <= 0x1D169 || 0x1D17B <= x <= 0x1D182 || 0x1D185 <= x <= 0x1D18B ||
        0x1D1AA <= x <= 0x1D1AD || 0x1D242 <= x <= 0x1D244 || 0x1DA00 <= x <= 0x1DA36 ||
        0x1DA3B <= x <= 0x1DA6C || x == 0x1DA75 || x == 0x1DA84 || 0x1DA9B <= x <= 0x1DA9F ||
        0x1DAA1 <= x <= 0x1DAAF || 0x1E000 <= x <= 0x1E006 || 0x1E008 <= x <= 0x1E018 ||
        0x1E01B <= x <= 0x1E021 || 0x1E023 <= x <= 0x1E024 || 0x1E026 <= x <= 0x1E02A ||
        0x1E130 <= x <= 0x1E136 || x == 0x1E2AE || 0x1E2EC <= x <= 0x1E2EF ||
        0x1E8D0 <= x <= 0x1E8D6 || 0x1E944 <= x <= 0x1E94A || 0xE0100 <= x <= 0xE01EF
}

/// Punctuation and symbols without a direction.
pub open spec fn other_neutral(x: u32) -> bool {
    0x0021 <= x <= 0x0022 || 0x0026 <= x <= 0x002A || 0x003B <= x <= 0x0040 ||
        0x005B <= x <= 0x0060 || 0x007B <= x <= 0x007E || x == 0x00A1 || 0x00A6 <= x <= 0x00A9 ||
        0x00AB <= x <= 0x00AC || 0x00AE <= x <= 0x00AF || x == 0x00B4 || 0x00B6 <= x <= 0x00B8 ||
        0x00BB <= x <= 0x00BF || x == 0x00D7 || x == 0x00F7 || 0x02B9 <= x <= 0x02BA ||
        0x02C2 <= x <= 0x02CF || 0x02D2 <= x <= 0x02DF || 0x02E5 <= x <= 0x02ED ||
        0x02EF <= x <= 0x02FF || 0x0374 <= x <= 0x0375 || x == 0x037E || 0x0384 <= x <= 0x0385 ||
        x == 0x0387 || x == 0x03F6 || x == 0x058A || 0x058D <= x <= 0x058E ||
        0x0606 <= x <= 0x0607 || 0x060E <= x <= 0x060F || x == 0x06DE || x == 0x06E9 ||
        0x07F6 <= x <= 0x07F9 || 0x0BF3 <= x <= 0x0BF8 || x == 0x0BFA || 0x0C78 <= x <= 0x0C7E ||
        0x0F3A <= x <= 0x0F3D || 0x1390 <= x <= 0x1399 || x == 0x1400 || 0x169B <= x <= 0x169C ||
        0x17F0 <= x <= 0x17F9 || 0x1800 <= x <= 0x180A || x == 0x1940 || 0x1944 <= x <= 0x1945 ||
        0x19DE <= x <= 0x19FF || x == 0x1FBD || 0x1FBF <= x <= 0x1FC1 || 0x1FCD <= x <= 0x1FCF ||
        0x1FDD <= x <= 0x1FDF || 0x1FED <= x <= 0x1FEF || 0x1FFD <= x <= 0x1FFE ||
        0x2010 <= x <= 0x2027 || 0x2035 <= x <= 0x2043 || 0x2045 <= x <= 0x205E ||
        0x207C <= x <= 0x207E || 0x208C <= x <= 0x208E || 0x2100 <= x <= 0x2101 ||
        0x2103 <= x <= 0x2106 || 0x2108 <= x <= 0x2109 || x == 0x2114 || 0x2116 <= x <= 0x2118 ||
        0x211E <= x <= 0x2123 || x == 0x2125 || x == 0x2127 || x == 0x2129 ||
        0x213A <= x <= 0x213B || 0x2140 <= x <= 0x2144 || 0x214A <= x <= 0x214D ||
        0x2150 <= x <= 0x215F || 0x2189 <= x <= 0x218B || 0x2190 <= x <= 0x2211 ||
        0x2214 <= x <= 0x2335 || 0x237B <= x <= 0x2394 || 0x2396 <= x <= 0x2426 ||
        0x2440 <= x <= 0x244A || 0x2460 <= x <= 0x2487 || 0x24EA <= x <= 0x26AB ||
        0x26AD <= x <= 0x27FF || 0x2900 <= x <= 0x2B73 || 0x2B76 <= x <= 0x2B95 ||
        0x2B97 <= x <= 0x2BFF || 0x2CE5 <= x <= 0x2CEA || 0x2CF9 <= x <= 0x2CFF ||
        0x2E00 <= x <= 0x2E5D || 0x2E80 <= x <= 0x2E99 || 0x2E9B <= x <= 0x2EF3 ||
        0x2F00 <= x <= 0x2FD5 || 0x2FF0 <= x <= 0x2FFB || 0x3001 <= x <= 0x3004 ||
        0x3008 <= x <= 0x3020 || x == 0x3030 || 0x3036 <= x <= 0x3037 || 0x303D <= x <= 0x303F ||
        0x309B <= x <= 0x309C || x == 0x30A0 || x == 0x30FB || 0x31C0 <= x <= 0x31E3 ||
        0x321D <= x <= 0x321E || 0x3250 <= x <= 0x325F || 0x327C <= x <= 0x327E ||
        0x32B1 <= x <= 0x32BF || 0x32CC <= x <= 0x32CF || 0x3377 <= x <= 0x337A ||
        0x33DE <= x <= 0x33DF || x == 0x33FF || 0x4DC0 <= x <= 0x4DFF || 0xA490 <= x <= 0xA4C6 ||
        0xA60D <= x <= 0xA60F || x == 0xA673 || 0xA67E <= x <= 0xA67F || 0xA700 <= x <= 0xA721 ||
        x == 0xA788 || 0xA828 <= x <= 0xA82B || 0xA874 <= x <= 0xA877 || 0xAB6A <= x <= 0xAB6B ||
        0xFD3E <= x <= 0xFD4F || x == 0xFDCF || 0xFDFD <= x <= 0xFDFF || 0xFE10 <= x <= 0xFE19 ||
        0xFE30 <= x <= 0xFE4F || x == 0xFE51 || x == 0xFE54 || 0xFE56 <= x <= 0xFE5E ||
        0xFE60 <= x <= 0xFE61 || 0xFE64 <= x <= 0xFE66 || x == 0xFE68 || x == 0xFE6B ||
        0xFF01 <= x <= 0xFF02 || 0xFF06 <= x <= 0xFF0A || 0xFF1B <= x <= 0xFF20 ||
        0xFF3B <= x <= 0xFF40 || 0xFF5B <= x <= 0xFF65 || 0xFFE2 <= x <= 0xFFE4 ||
        0xFFE8 <= x <= 0xFFEE || 0xFFF9 <= x <= 0xFFFD || x == 0x10101 ||
        0x10140 <= x <= 0x1018C || 0x10190 <= x <= 0x1019C || x == 0x101A0 || x == 0x1091F ||
        0x10B39 <= x <= 0x10B3F || 0x11052 <= x <= 0x11065 || 0x11660 <= x <= 0x1166C ||
        0x11FD5 <= x <= 0x11FDC || 0x11FE1 <= x <= 0x11FF1 || x == 0x16FE2 ||
        0x1D1E9 <= x <= 0x1D1EA || 0x1D200 <= x <= 0x1D241 || x == 0x1D245 ||
        0x1D300 <= x <= 0x1D356 || x == 0x1D6DB || x == 0x1D715 || x == 0x1D74F || x == 0x1D789 ||
        x == 0x1D7C3 || 0x1EEF0 <= x <= 0x1EEF1 || 0x1F000 <= x <= 0x1F02B ||
        0x1F030 <= x <= 0x1F093 || 0x1F0A0 <= x <= 0x1F0AE || 0x1F0B1 <= x <= 0x1F0BF ||
        0x1F0C1 <= x <= 0x1F0CF || 0x1F0D1 <= x <= 0x1F0F5 || 0x1F10B <= x <= 0x1F10F ||
        x == 0x1F12F || 0x1F16A <= x <= 0x1F16F || x == 0x1F1AD || 0x1F260 <= x <= 0x1F265 ||
        0x1F300 <= x <= 0x1F6D7 || 0x1F6DD <= x <= 0x1F6EC || 0x1F6F0 <= x <= 0x1F6FC ||
        0x1F700 <= x <= 0x1F773 || 0x1F780 <= x <= 0x1F7D8 || 0x1F7E0 <= x <= 0x1F7EB ||
        x == 0x1F7F0 || 0x1F800 <= x <= 0x1F80B || 0x1F810 <= x <= 0x1F847 ||
        0x1F850 <= x <= 0x1F859 || 0x1F860 <= x <= 0x1F887 || 0x1F890 <= x <= 0x1F8AD ||
        0x1F8B0 <= x <= 0x1F8B1 || 0x1F900 <= x <= 0x1FA53 || 0x1FA60 <= x <= 0x1FA6D ||
        0x1FA70 <= x <= 0x1FA74 || 0x1FA78 <= x <= 0x1FA7C || 0x1FA80 <= x <= 0x1FA86 ||
        0x1FA90 <= x <= 0x1FAAC || 0x1FAB0 <= x <= 0x1FABA || 0x1FAC0 <= x <= 0x1FAC5 ||
        0x1FAD0 <= x <= 0x1FAD9 || 0x1FAE0 <= x <= 0x1FAE7 || 0x1FAF0 <= x <= 0x1FAF6 ||
        0x1FB00 <= x <= 0x1FB92 || 0x1FB94 <= x <= 0x1FBCA
}

/// Hebrew letters, those of other right-to-left scripts, and what is kept free for such scripts.
pub open spec fn right_to_left_letter(x: u32) -> bool {
    x == 0x0590 || x == 0x05BE || x == 0x05C0 || x == 0x05C3 || x == 0x05C6 ||
        0x05C8 <= x <= 0x05FF || 0x07C0 <= x <= 0x07EA || 0x07F4 <= x <= 0x07F5 ||
        0x07FA <= x <= 0x07FC || 0x07FE <= x <= 0x0815 || x == 0x081A || x == 0x0824 ||
        x == 0x0828 || 0x082E <= x <= 0x0858 || 0x085C <= x <= 0x085F || x == 0x200F ||
        x == 0xFB1D || 0xFB1F <= x <= 0xFB28 || 0xFB2A <= x <= 0xFB4F || 0x10800 <= x <= 0x1091E ||
        0x10920 <= x <= 0x10A00 || x == 0x10A04 || 0x10A07 <= x <= 0x10A0B ||
        0x10A10 <= x <= 0x10A37 || 0x10A3B <= x <= 0x10A3E || 0x10A40 <= x <= 0x10AE4 ||
        0x10AE7 <= x <= 0x10B38 || 0x10B40 <= x <= 0x10CFF || 0x10D40 <= x <= 0x10E5F ||
        0x10E7F <= x <= 0x10EAA || 0x10EAD <= x <= 0x10F2F || 0x10F70 <= x <= 0x10F81 ||
        0x10F86 <= x <= 0x10FFF || 0x1E800 <= x <= 0x1E8CF || 0x1E8D7 <= x <= 0x1E943 ||
        0x1E94B <= x <= 0x1EC6F || 0x1ECC0 <= x <= 0x1ECFF || 0x1ED50 <= x <= 0x1EDFF ||
        0x1EF00 <= x <= 0x1EFFF
}

/// Tabs and the unit separator.
pub open spec fn segment_separator(x: u32) -> bool {
    x == 0x0009 || x == 0x000B || x == 0x001F
}

/// Spaces.
pub open spec fn whitespace(x: u32) -> bool {
    x == 0x000C || x == 0x0020 || x == 0x1680 || 0x2000 <= x <= 0x200A || x == 0x2028 ||
        x == 0x205F || x == 0x3000
}

/// The letters and digits of some scripts: Latin letters are L, Hebrew letters R and Arabic letters
/// AL. European digits are EN and Arabic-Indic digits AN. Combining diacritics are NSM.
pub proof fn letters_and_digits(c: char)
    ensures
        'a' <= c <= 'z' || 'A' <= c <= 'Z' ==> class_of(c) == BidiClass::L,
        '\u{0391}' <= c <= '\u{03C9}' && c != '\u{03A2}' ==> class_of(c) == BidiClass::L,
        '\u{0410}' <= c <= '\u{044F}' ==> class_of(c) == BidiClass::L,
        '\u{05D0}' <= c <= '\u{05EA}' ==> class_of(c) == BidiClass::R,
        '\u{0620}' <= c <= '\u{064A}' ==> class_of(c) == BidiClass::AL,
        '\u{0712}' <= c <= '\u{072F}' ==> class_of(c) == BidiClass::AL,
        '\u{07CA}' <= c <= '\u{07EA}' ==> class_of(c) == BidiClass::R,
        '\u{0904}' <= c <= '\u{0939}' ==> class_of(c) == BidiClass::L,
        '\u{0E01}' <= c <= '\u{0E30}' ==> class_of(c) == BidiClass::L,
        '\u{3041}' <= c <= '\u{3096}' ==> class_of(c) == BidiClass::L,
        '\u{4E00}' <= c <= '\u{9FFF}' ==> class_of(c) == BidiClass::L,
        '\u{AC00}' <= c <= '\u{D7A3}' ==> class_of(c) == BidiClass::L,
        '0' <= c <= '9' ==> class_of(c) == BidiClass::EN,
        '\u{06F0}' <= c <= '\u{06F9}' ==> class_of(c) == BidiClass::EN,
        '\u{0660}' <= c <= '\u{0669}' ==> class_of(c) == BidiClass::AN,
        '\u{0300}' <= c <= '\u{036F}' ==> class_of(c) == BidiClass::NSM,
        '\u{064B}' <= c <= '\u{065F}' ==> class_of(c) == BidiClass::NSM,
{
    let x = c as u32;
    if x <= 0x058F {
        reveal(latin_class);
    } else if x <= 0x08FF {
        reveal(middle_eastern_class);
    } else if x <= 0x1FFF {
        reveal(south_asian_class);
    } else if x <= 0x2FFF {
        reveal(symbols_class);
    } else if x <= 0xFFFF {
        reveal(east_asian_class);
    } else {
        reveal(supplementary_class);
    }
}

/// Each directional formatting character has a class of its own, and shares it with no other.
pub proof fn formatting_characters(c: char)
    ensures
        class_of(c) == BidiClass::LRE <==> c == '\u{202A}',
        class_of(c) == BidiClass::RLE <==> c == '\u{202B}',
        class_of(c) == BidiClass::PDF <==> c == '\u{202C}',
        class_of(c) == BidiClass::LRO <==> c == '\u{202D}',
        class_of(c) == BidiClass::RLO <==> c == '\u{202E}',
        class_of(c) == BidiClass::LRI <==> c == '\u{2066}',
        class_of(c) == BidiClass::RLI <==> c == '\u{2067}',
        class_of(c) == BidiClass::FSI <==> c == '\u{2068}',
        class_of(c) == BidiClass::PDI <==> c == '\u{2069}',
{
    let x = c as u32;
    if x <= 0x058F {
        reveal(latin_class);
    } else if x <= 0x08FF {
        reveal(middle_eastern_class);
    } else if x <= 0x1FFF {
        reveal(south_asian_class);
    } else if x <= 0x2FFF {
        reveal(symbols_class);
    } else if x <= 0xFFFF {
        reveal(east_asian_class);
    } else {
        reveal(supplementary_class);
    }
}

/// AL is the class of Arabic letters, and of nothing else.
pub proof fn arabic_letters(c: char)
    ensures
        class_of(c) == BidiClass::AL <==> arabic_letter(c as u32),
{
    let x = c as u32;
    if x <= 0x058F {
        reveal(latin_class);
    } else if x <= 0x08FF {
        reveal(middle_eastern_class);
    } else if x <= 0x1FFF {
        reveal(south_asian_class);
    } else if x <= 0x2FFF {
        reveal(symbols_class);
    } else if x <= 0xFFFF {
        reveal(east_asian_class);
    } else {
        reveal(supplementary_class);
    }
}

/// AN is the class of Arabic numbers, and of nothing else.
pub proof fn arabic_numbers(c: char)
    ensures
        class_of(c) == BidiClass::AN <==> arabic_number(c as u32),
{
    let x = c as u32;
    if x <= 0x058F {
        reveal(latin_class);
    } else if x <= 0x08FF {
        reveal(middle_eastern_class);
    } else if x <= 0x1FFF {
        reveal(south_asian_class);
    } else if x <= 0x2FFF {
        reveal(symbols_class);
    } else if x <= 0xFFFF {
        reveal(east_asian_class);
    } else {
        reveal(supplementary_class);
    }
}

/// B is the class of paragraph separators, and of nothing else.
pub proof fn paragraph_separators(c: char)
    ensures
        class_of(c) == BidiClass::B <==> paragraph_separator(c as u32),
{
    let x = c as u32;
    if x <= 0x058F {
        reveal(latin_class);
    } else if x <= 0x08FF {
        reveal(middle_eastern_class);
    } else if x <= 0x1FFF {
        reveal(south_asian_class);
    } else if x <= 0x2FFF {
        reveal(symbols_class);
    } else if x <= 0xFFFF {
        reveal(east_asian_class);
    } else {
        reveal(supplementary_class);
    }
}

/// BN is the class of boundary neutrals, and of nothing else.
pub proof fn boundary_neutrals(c: char)
    ensures
        class_of(c) == BidiClass::BN <==> boundary_neutral(c as u32),
{
    let x = c as u32;
    if x <= 0x058F {
        reveal(latin_class);
    } else if x <= 0x08FF {
        reveal(middle_eastern_class);
    } else if x <= 0x1FFF {
        reveal(south_asian_class);
    } else if x <= 0x2FFF {
        reveal(symbols_class);
    } else if x <= 0xFFFF {
        reveal(east_asian_class);
    } else {
        reveal(supplementary_class);
    }
}

/// CS is the class of common separators, and of nothing else.
pub proof fn common_separators(c: char)
    ensures
        class_of(c) == BidiClass::CS <==> common_separator(c as u32),
{
    let x = c as u32;
    if x <= 0x058F {
        reveal(latin_class);
    } else if x <= 0x08FF {
        reveal(middle_eastern_class);
    } else if x <= 0x1FFF {
        reveal(south_asian_class);
    } else if x <= 0x2FFF {
        reveal(symbols_class);
    } else if x <= 0xFFFF {
        reveal(east_asian_class);
    } else {
        reveal(supplementary_class);
    }
}

/// EN is the class of European numbers, and of nothing else.
pub proof fn european_numbers(c: char)
    ensures
        class_of(c) == BidiClass::EN <==> european_number(c as u32),
{
    let x = c as u32;
    if x <= 0x058F {
        reveal(latin_class);
    } else if x <= 0x08FF {
        reveal(middle_eastern_class);
    } else if x <= 0x1FFF {
        reveal(south_asian_class);
    } else if x <= 0x2FFF {
        reveal(symbols_class);
    } else if x <= 0xFFFF {
        reveal(east_asian_class);
    } else {
        reveal(supplementary_class);
    }
}

/// ES is the class of European separators, and of nothing else.
pub proof fn european_separators(c: char)
    ensures
        class_of(c) == BidiClass::ES <==> european_separator(c as u32),
{
    let x = c as u32;
    if x <= 0x058F {
        reveal(latin_class);
    } else if x <= 0x08FF {
        reveal(middle_eastern_class);
    } else if x <= 0x1FFF {
        reveal(south_asian_class);
    } else if x <= 0x2FFF {
        reveal(symbols_class);
    } else if x <= 0xFFFF {
        reveal(east_asian_class);
    } else {
        reveal(supplementary_class);
    }
}

/// ET is the class of European terminators, and of nothing else.
pub proof fn european_terminators(c: char)
    ensures
        class_of(c) == BidiClass::ET <==> european_terminator(c as u32),
{
    let x = c as u32;
    if x <= 0x058F {
        reveal(latin_class);
    } else if x <= 0x08FF {
        reveal(middle_eastern_class);
    } else if x <= 0x1FFF {
        reveal(south_asian_class);
    } else if x <= 0x2FFF {
        reveal(symbols_class);
    } else if x <= 0xFFFF {
        reveal(east_asian_class);
    } else {
        reveal(supplementary_class);
    }
}

/// NSM is the class of nonspacing marks, and of nothing else.
pub proof fn nonspacing_marks(c: char)
    ensures
        class_of(c) == BidiClass::NSM <==> nonspacing_mark(c as u32),
{
    let x = c as u32;
    if x <= 0x058F {
        reveal(latin_class);
    } else if x <= 0x08FF {
        reveal(middle_eastern_class);
    } else if x <= 0x1FFF {
        reveal(south_asian_class);
    } else if x <= 0x2FFF {
        reveal(symbols_class);
    } else if x <= 0xFFFF {
        reveal(east_asian_class);
    } else {
        reveal(supplementary_class);
    }
}

/// ON is the class of other neutrals, and of nothing else.
pub proof fn other_neutrals(c: char)
    ensures
        class_of(c) == BidiClass::ON <==> other_neutral(c as u32),
{
    let x = c as u32;
    if x <= 0x058F {
        reveal(latin_class);
    } else if x <= 0x08FF {
        reveal(middle_eastern_class);
    } else if x <= 0x1FFF {
        reveal(south_asian_class);
    } else if x <= 0x2FFF {
        reveal(symbols_class);
    } else if x <= 0xFFFF {
        reveal(east_asian_class);
    } else {
        reveal(supplementary_class);
    }
}

/// R is the class of right-to-left letters, and of nothing else.
pub proof fn right_to_left_letters(c: char)
    ensures
        class_of(c) == BidiClass::R <==> right_to_left_letter(c as u32),
{
    let x = c as u32;
    if x <= 0x058F {
        reveal(latin_class);
    } else if x <= 0x08FF {
        reveal(middle_eastern_class);
    } else if x <= 0x1FFF {
        reveal(south_asian_class);
    } else if x <= 0x2FFF {
        reveal(symbols_class);
    } else if x <= 0xFFFF {
        reveal(east_asian_class);
    } else {
        reveal(supplementary_class);
    }
}

/// S is the class of segment separators, and of nothing else.
pub proof fn segment_separators(c: char)
    ensures
        class_of(c) == BidiClass::S <==> segment_separator(c as u32),
{
    let x = c as u32;
    if x <= 0x058F {
        reveal(latin_class);
    } else if x <= 0x08FF {
        reveal(middle_eastern_class);
    } else if x <= 0x1FFF {
        reveal(south_asian_class);
    } else if x <= 0x2FFF {
        reveal(symbols_class);
    } else if x <= 0xFFFF {
        reveal(east_asian_class);
    } else {
        reveal(supplementary_class);
    }
}

/// WS is the class of whitespace, and of nothing else.
pub proof fn spaces(c: char)
    ensures
        class_of(c) == BidiClass::WS <==> whitespace(c as u32),
{
    let x = c as u32;
    if x <= 0x058F {
        reveal(latin_class);
    } else if x <= 0x08FF {
        reveal(middle_eastern_class);
    } else if x <= 0x1FFF {
        reveal(south_asian_class);
    } else if x <= 0x2FFF {
        reveal(symbols_class);
    } else if x <= 0xFFFF {
        reveal(east_asian_class);
    } else {
        reveal(supplementary_class);
    }
}

/// L is the class of all characters that are of no other kind.
pub proof fn left_to_right_characters(c: char)
    ensures
        class_of(c) == BidiClass::L <==> {
            let x = c as u32;
            &&& !arabic_letter(x)
            &&& !arabic_number(x)
            &&& !paragraph_separator(x)
            &&& !boundary_neutral(x)
            &&& !common_separator(x)
            &&& !european_number(x)
            &&& !european_separator(x)
            &&& !european_terminator(x)
            &&& !nonspacing_mark(x)
            &&& !other_neutral(x)
            &&& !right_to_left_letter(x)
            &&& !segment_separator(x)
            &&& !whitespace(x)
            &&& !(0x202A <= x <= 0x202E)
            &&& !(0x2066 <= x <= 0x2069)
        },
{
    formatting_characters(c);
    arabic_letters(c);
    arabic_numbers(c);
    paragraph_separators(c);
    boundary_neutrals(c);
    common_separators(c);
    european_numbers(c);
    european_separators(c);
    european_terminators(c);
    nonspacing_marks(c);
    other_neutrals(c);
    right_to_left_letters(c);
    segment_separators(c);
    spaces(c);
}

} // verus!
