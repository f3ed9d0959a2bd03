//! Text as sequences of characters: classes of characters, trimming, splitting,
//! joining and decimal numbers.
//!
//! Every function here is stated over `Seq<char>`, the view of `str` and `String`.

use vstd::prelude::*;
use vstd::slice::slice_subrange;

verus! {

/// `String::push` appends the given character to the end of the string.
pub assume_specification[ String::push ](s: &mut String, c: char)
    ensures
        final(s)@ == old(s)@.push(c),
;

// --- classes of characters -------------------------------------------------

/// The characters with the Unicode property `White_Space`.
pub open spec fn is_space(c: char) -> bool {
    let n = c as u32;
    ||| 0x09 <= n <= 0x0d
    ||| n == 0x20
    ||| n == 0x85
    ||| n == 0xa0
    ||| n == 0x1680
    ||| 0x2000 <= n <= 0x200a
    ||| n == 0x2028
    ||| n == 0x2029
    ||| n == 0x202f
    ||| n == 0x205f
    ||| n == 0x3000
}

/// The control characters: the Unicode general category `Cc`.
pub open spec fn is_control(c: char) -> bool {
    let n = c as u32;
    n <= 0x1f || 0x7f <= n <= 0x9f
}

/// The ASCII punctuation characters.
pub open spec fn is_punctuation(c: char) -> bool {
    let n = c as u32;
    0x21 <= n <= 0x2f || 0x3a <= n <= 0x40 || 0x5b <= n <= 0x60 || 0x7b <= n <= 0x7e
}

/// The punctuation of any script: the ASCII punctuation characters, and beyond ASCII
/// those of the Unicode general categories `Pc`, `Pd`, `Ps`, `Pe`, `Pi`, `Pf` and `Po`,
/// as of Unicode 18.0.
pub open spec fn is_any_punctuation(c: char) -> bool {
    let n = c as u32;
    if n < 0x80 {
        is_punctuation(c)
    } else if n < 0x800 {
        ||| n == 0xa1
        ||| n == 0xa7
        ||| n == 0xab
        ||| 0xb6 <= n <= 0xb7
        ||| n == 0xbb
        ||| n == 0xbf
        ||| n == 0x37e
        ||| n == 0x387
        ||| 0x55a <= n <= 0x55f
        ||| 0x589 <= n <= 0x58a
        ||| n == 0x5be
        ||| n == 0x5c0
        ||| n == 0x5c3
        ||| n == 0x5c6
        ||| 0x5f3 <= n <= 0x5f4
        ||| 0x609 <= n <= 0x60a
        ||| 0x60c <= n <= 0x60d
        ||| n == 0x61b
        ||| 0x61d <= n <= 0x61f
        ||| 0x66a <= n <= 0x66d
        ||| n == 0x6d4
        ||| 0x700 <= n <= 0x70d
        ||| 0x7f7 <= n <= 0x7f9
    } else if n < 0x1000 {
        ||| 0x830 <= n <= 0x83e
        ||| n == 0x85e
        ||| 0x964 <= n <= 0x965
        ||| n == 0x970
        ||| n == 0x9fd
        ||| n == 0xa76
        ||| n == 0xaf0
        ||| n == 0xc77
        ||| n == 0xc84
        ||| n == 0xdf4
        ||| n == 0xe4f
        ||| 0xe5a <= n <= 0xe5b
        ||| 0xf04 <= n <= 0xf12
        ||| n == 0xf14
        ||| 0xf3a <= n <= 0xf3d
        ||| n == 0xf85
        ||| 0xfd0 <= n <= 0xfd4
        ||| 0xfd9 <= n <= 0xfda
    } else if n < 0x2000 {
        ||| 0x104a <= n <= 0x104f
        ||| n == 0x10fb
        ||| 0x1360 <= n <= 0x1368
        ||| n == 0x1400
        ||| n == 0x166e
        ||| 0x169b <= n <= 0x169c
        ||| 0x16eb <= n <= 0x16ed
        ||| 0x1735 <= n <= 0x1736
        ||| 0x17d4 <= n <= 0x17d6
        ||| 0x17d8 <= n <= 0x17da
        ||| 0x1800 <= n <= 0x180a
        ||| 0x1944 <= n <= 0x1945
        ||| 0x1a1e <= n <= 0x1a1f
        ||| 0x1aa0 <= n <= 0x1aa6
        ||| 0x1aa8 <= n <= 0x1aad
        ||| 0x1b4e <= n <= 0x1b4f
        ||| 0x1b5a <= n <= 0x1b60
        ||| 0x1b7d <= n <= 0x1b7f
        ||| 0x1bfc <= n <= 0x1bff
        ||| 0x1c3b <= n <= 0x1c3f
        ||| 0x1c7e <= n <= 0x1c7f
        ||| 0x1cc0 <= n <= 0x1cc7
        ||| n == 0x1cd3
    } else if n < 0x3000 {
        ||| 0x2010 <= n <= 0x2027
        ||| 0x2030 <= n <= 0x2043
        ||| 0x2045 <= n <= 0x2051
        ||| 0x2053 <= n <= 0x205e
        ||| 0x207d <= n <= 0x207e
        ||| 0x208d <= n <= 0x208e
        ||| 0x2308 <= n <= 0x230b
        ||| 0x2329 <= n <= 0x232a
        ||| 0x2768 <= n <= 0x2775
        ||| 0x27c5 <= n <= 0x27c6
        ||| 0x27e6 <= n <= 0x27ef
        ||| 0x2983 <= n <= 0x2998
        ||| 0x29d8 <= n <= 0x29db
        ||| 0x29fc <= n <= 0x29fd
        ||| 0x2cf9 <= n <= 0x2cfc
        ||| 0x2cfe <= n <= 0x2cff
        ||| n == 0x2d70
        ||| 0x2e00 <= n <= 0x2e2e
        ||| 0x2e30 <= n <= 0x2e4f
        ||| 0x2e52 <= n <= 0x2e5d
        ||| 0x2e60 <= n <= 0x2e63
    } else if n < 0x10000 {
        ||| 0x3001 <= n <= 0x3003
        ||| 0x3008 <= n <= 0x3011
        ||| 0x3014 <= n <= 0x301f
        ||| n == 0x3030
        ||| n == 0x303d
        ||| n == 0x30a0
        ||| n == 0x30fb
        ||| 0xa4fe <= n <= 0xa4ff
        ||| 0xa60d <= n <= 0xa60f
        ||| n == 0xa673
        ||| n == 0xa67e
        ||| 0xa6f2 <= n <= 0xa6f7
        ||| 0xa874 <= n <= 0xa877
        ||| 0xa8ce <= n <= 0xa8cf
        ||| 0xa8f8 <= n <= 0xa8fa
        ||| n == 0xa8fc
        ||| 0xa92e <= n <= 0xa92f
        ||| n == 0xa95f
        ||| 0xa9c1 <= n <= 0xa9cd
        ||| 0xa9de <= n <= 0xa9df
        ||| 0xaa5c <= n <= 0xaa5f
        ||| 0xaade <= n <= 0xaadf
        ||| 0xaaf0 <= n <= 0xaaf1
        ||| n == 0xabeb
        ||| 0xfd3e <= n <= 0xfd3f
        ||| 0xfe10 <= n <= 0xfe19
        ||| 0xfe30 <= n <= 0xfe52
        ||| 0xfe54 <= n <= 0xfe61
        ||| n == 0xfe63
        ||| n == 0xfe68
        ||| 0xfe6a <= n <= 0xfe6b
        ||| 0xff01 <= n <= 0xff03
        ||| 0xff05 <= n <= 0xff0a
        ||| 0xff0c <= n <= 0xff0f
        ||| 0xff1a <= n <= 0xff1b
        ||| 0xff1f <= n <= 0xff20
        ||| 0xff3b <= n <= 0xff3d
        ||| n == 0xff3f
        ||| n == 0xff5b
        ||| n == 0xff5d
        ||| 0xff5f <= n <= 0xff65
    } else if n < 0x11000 {
        ||| 0x10100 <= n <= 0x10102
        ||| n == 0x1039f
        ||| n == 0x103d0
        ||| n == 0x1056f
        ||| n == 0x10857
        ||| n == 0x1091f
        ||| n == 0x1093f
        ||| 0x10a50 <= n <= 0x10a58
        ||| n == 0x10a7f
        ||| 0x10af0 <= n <= 0x10af6
        ||| 0x10b39 <= n <= 0x10b3f
        ||| 0x10b99 <= n <= 0x10b9c
        ||| n == 0x10d6e
        ||| n == 0x10ead
        ||| n == 0x10ed0
        ||| 0x10f55 <= n <= 0x10f59
        ||| 0x10f86 <= n <= 0x10f89
    } else if n < 0x12000 {
        ||| 0x11047 <= n <= 0x1104d
        ||| 0x110bb <= n <= 0x110bc
        ||| 0x110be <= n <= 0x110c1
        ||| 0x11140 <= n <= 0x11143
        ||| 0x11174 <= n <= 0x11175
        ||| 0x111c5 <= n <= 0x111c8
        ||| n == 0x111cd
        ||| n == 0x111db
        ||| 0x111dd <= n <= 0x111df
        ||| 0x11238 <= n <= 0x1123d
        ||| n == 0x112a9
        ||| 0x113d4 <= n <= 0x113d5
        ||| 0x113d7 <= n <= 0x113d8
        ||| 0x1144b <= n <= 0x1144f
        ||| 0x1145a <= n <= 0x1145b
        ||| n == 0x1145d
        ||| n == 0x114c6
        ||| 0x115c1 <= n <= 0x115d7
        ||| 0x11641 <= n <= 0x11643
        ||| 0x11660 <= n <= 0x1166c
        ||| n == 0x116b9
        ||| 0x1173c <= n <= 0x1173e
        ||| n == 0x1183b
        ||| 0x11944 <= n <= 0x11946
        ||| n == 0x119e2
        ||| 0x11a3f <= n <= 0x11a46
        ||| 0x11a9a <= n <= 0x11a9c
        ||| 0x11a9e <= n <= 0x11aa2
        ||| 0x11b00 <= n <= 0x11b09
        ||| n == 0x11be1
        ||| 0x11c41 <= n <= 0x11c45
        ||| 0x11c70 <= n <= 0x11c71
        ||| 0x11ef7 <= n <= 0x11ef8
        ||| 0x11f43 <= n <= 0x11f4f
        ||| n == 0x11fff
    } else {
        ||| 0x12470 <= n <= 0x12474
        ||| 0x12ff1 <= n <= 0x12ff2
        ||| 0x16a6e <= n <= 0x16a6f
        ||| n == 0x16af5
        ||| 0x16b37 <= n <= 0x16b3b
        ||| n == 0x16b44
        ||| 0x16d6d <= n <= 0x16d6f
        ||| 0x16e97 <= n <= 0x16e9a
        ||| n == 0x16fe2
        ||| n == 0x1bc9f
        ||| 0x1da87 <= n <= 0x1da8b
        ||| n == 0x1e5ff
        ||| 0x1e95e <= n <= 0x1e95f
    }
}

/// White space is the blanks and line ends of ASCII, the next line and the no-break space
/// of Latin-1, and the spaces and separators of other scripts: twenty-five characters.
pub proof fn white_space_is_these_characters(c: char)
    ensures
        (c as u32) < 0x80 ==> (is_space(c) <==> c == ' ' || c == '\t' || c == '\n' || c == '\r' || c
            == '\u{b}' || c == '\u{c}'),
        0x80 <= c as u32 && (c as u32) < 0x2000 ==> (is_space(c) <==> c == '\u{85}' || c
            == '\u{a0}' || c == '\u{1680}'),
        0x2000 <= c as u32 ==> (is_space(c) <==> (c as u32) <= 0x200a || c == '\u{2028}' || c
            == '\u{2029}' || c == '\u{202f}' || c == '\u{205f}' || c == '\u{3000}'),
{
}

/// Every ASCII character is of one kind and of no other: a control character, the blank, a
/// letter or digit, or punctuation. Punctuation of any script takes in that of ASCII and
/// neither white space nor control characters; and of the control characters outside
/// ASCII there are thirty-two, right behind it.
pub proof fn characters_are_of_one_kind(c: char)
    ensures
        ({
            let word = '0' <= c <= '9' || 'A' <= c <= 'Z' || 'a' <= c <= 'z';
            &&& (c as u32) < 0x80 ==> (is_punctuation(c) <==> !is_control(c) && c != ' ' && !word)
            &&& (c as u32) < 0x80 ==> is_any_punctuation(c) == is_punctuation(c)
            &&& is_control(c) <==> c < ' ' || '\u{7f}' <= c < '\u{a0}'
            &&& is_any_punctuation(c) ==> !is_space(c) && !is_control(c)
            &&& is_punctuation(c) ==> c < '\u{7f}'
        }),
{
}

/// The code of `c` once an ASCII capital is turned into its small letter.
pub open spec fn folded(c: char) -> u32 {
    let n = c as u32;
    if 0x41 <= n <= 0x5a {
        (n + 0x20) as u32
    } else {
        n
    }
}

/// The letters of the word print are the same, small or capital, and a bracket is only
/// itself.
pub proof fn case_is_ignored(c: char)
    ensures
        folded(c) == folded('p') <==> c == 'p' || c == 'P',
        folded(c) == folded('r') <==> c == 'r' || c == 'R',
        folded(c) == folded('i') <==> c == 'i' || c == 'I',
        folded(c) == folded('n') <==> c == 'n' || c == 'N',
        folded(c) == folded('t') <==> c == 't' || c == 'T',
        folded(c) == folded('[') <==> c == '[',
        folded(c) == folded(']') <==> c == ']',
{
}

/// Whether two texts are the same when the case of ASCII letters is ignored.
pub open spec fn same_ignoring_case(a: Seq<char>, b: Seq<char>) -> bool {
    a.len() == b.len() && forall|i: int| 0 <= i < a.len() ==> folded(#[trigger] a[i]) == folded(b[i])
}

/// Whether `c` has the Unicode property `White_Space`.
pub fn white_space(c: char) -> (r: bool)
    ensures
        r == is_space(c),
{
    let n: u32 = c as u32;
    (0x09 <= n && n <= 0x0d) || n == 0x20 || n == 0x85 || n == 0xa0 || n == 0x1680 || (0x2000 <= n
        && n <= 0x200a) || n == 0x2028 || n == 0x2029 || n == 0x202f || n == 0x205f || n == 0x3000
}

/// Whether `c` is a control character.
pub fn control(c: char) -> (r: bool)
    ensures
        r == is_control(c),
{
    let n: u32 = c as u32;
    n <= 0x1f || (0x7f <= n && n <= 0x9f)
}

/// Whether `c` is ASCII punctuation.
pub fn punctuation(c: char) -> (r: bool)
    ensures
        r == is_punctuation(c),
{
    let n: u32 = c as u32;
    (0x21 <= n && n <= 0x2f) || (0x3a <= n && n <= 0x40) || (0x5b <= n && n <= 0x60) || (0x7b <= n
        && n <= 0x7e)
}

/// Whether `c` is punctuation, of any script.
pub fn any_punctuation(c: char) -> (r: bool)
    ensures
        r == is_any_punctuation(c),
{
    let n: u32 = c as u32;
    if n < 0x80 {
        punctuation(c)
    } else if n < 0x800 {
        n == 0xa1 || n == 0xa7 || n == 0xab || (0xb6 <= n && n <= 0xb7) || n == 0xbb
            || n == 0xbf || n == 0x37e || n == 0x387 || (0x55a <= n && n <= 0x55f)
            || (0x589 <= n && n <= 0x58a) || n == 0x5be || n == 0x5c0 || n == 0x5c3
            || n == 0x5c6 || (0x5f3 <= n && n <= 0x5f4) || (0x609 <= n && n <= 0x60a)
            || (0x60c <= n && n <= 0x60d) || n == 0x61b || (0x61d <= n && n <= 0x61f)
            || (0x66a <= n && n <= 0x66d) || n == 0x6d4 || (0x700 <= n && n <= 0x70d)
            || (0x7f7 <= n && n <= 0x7f9)
    } else if n < 0x1000 {
        (0x830 <= n && n <= 0x83e) || n == 0x85e || (0x964 <= n && n <= 0x965) || n == 0x970
            || n == 0x9fd || n == 0xa76 || n == 0xaf0 || n == 0xc77 || n == 0xc84 || n == 0xdf4
            || n == 0xe4f || (0xe5a <= n && n <= 0xe5b) || (0xf04 <= n && n <= 0xf12)
            || n == 0xf14 || (0xf3a <= n && n <= 0xf3d) || n == 0xf85
            || (0xfd0 <= n && n <= 0xfd4) || (0xfd9 <= n && n <= 0xfda)
    } else if n < 0x2000 {
        (0x104a <= n && n <= 0x104f) || n == 0x10fb || (0x1360 <= n && n <= 0x1368)
            || n == 0x1400 || n == 0x166e || (0x169b <= n && n <= 0x169c)
            || (0x16eb <= n && n <= 0x16ed) || (0x1735 <= n && n <= 0x1736)
            || (0x17d4 <= n && n <= 0x17d6) || (0x17d8 <= n && n <= 0x17da)
            || (0x1800 <= n && n <= 0x180a) || (0x1944 <= n && n <= 0x1945)
            || (0x1a1e <= n && n <= 0x1a1f) || (0x1aa0 <= n && n <= 0x1aa6)
            || (0x1aa8 <= n && n <= 0x1aad) || (0x1b4e <= n && n <= 0x1b4f)
            || (0x1b5a <= n && n <= 0x1b60) || (0x1b7d <= n && n <= 0x1b7f)
            || (0x1bfc <= n && n <= 0x1bff) || (0x1c3b <= n && n <= 0x1c3f)
            || (0x1c7e <= n && n <= 0x1c7f) || (0x1cc0 <= n && n <= 0x1cc7) || n == 0x1cd3
    } else if n < 0x3000 {
        (0x2010 <= n && n <= 0x2027) || (0x2030 <= n && n <= 0x2043)
            || (0x2045 <= n && n <= 0x2051) || (0x2053 <= n && n <= 0x205e)
            || (0x207d <= n && n <= 0x207e) || (0x208d <= n && n <= 0x208e)
            || (0x2308 <= n && n <= 0x230b) || (0x2329 <= n && n <= 0x232a)
            || (0x2768 <= n && n <= 0x2775) || (0x27c5 <= n && n <= 0x27c6)
            || (0x27e6 <= n && n <= 0x27ef) || (0x2983 <= n && n <= 0x2998)
            || (0x29d8 <= n && n <= 0x29db) || (0x29fc <= n && n <= 0x29fd)
            || (0x2cf9 <= n && n <= 0x2cfc) || (0x2cfe <= n && n <= 0x2cff) || n == 0x2d70
            || (0x2e00 <= n && n <= 0x2e2e) || (0x2e30 <= n && n <= 0x2e4f)
            || (0x2e52 <= n && n <= 0x2e5d) || (0x2e60 <= n && n <= 0x2e63)
    } else if n < 0x10000 {
        (0x3001 <= n && n <= 0x3003) || (0x3008 <= n && n <= 0x3011)
            || (0x3014 <= n && n <= 0x301f) || n == 0x3030 || n == 0x303d || n == 0x30a0
            || n == 0x30fb || (0xa4fe <= n && n <= 0xa4ff) || (0xa60d <= n && n <= 0xa60f)
            || n == 0xa673 || n == 0xa67e || (0xa6f2 <= n && n <= 0xa6f7)
            || (0xa874 <= n && n <= 0xa877) || (0xa8ce <= n && n <= 0xa8cf)
            || (0xa8f8 <= n && n <= 0xa8fa) || n == 0xa8fc || (0xa92e <= n && n <= 0xa92f)
            || n == 0xa95f || (0xa9c1 <= n && n <= 0xa9cd) || (0xa9de <= n && n <= 0xa9df)
            || (0xaa5c <= n && n <= 0xaa5f) || (0xaade <= n && n <= 0xaadf)
            || (0xaaf0 <= n && n <= 0xaaf1) || n == 0xabeb || (0xfd3e <= n && n <= 0xfd3f)
            || (0xfe10 <= n && n <= 0xfe19) || (0xfe30 <= n && n <= 0xfe52)
            || (0xfe54 <= n && n <= 0xfe61) || n == 0xfe63 || n == 0xfe68
            || (0xfe6a <= n && n <= 0xfe6b) || (0xff01 <= n && n <= 0xff03)
            || (0xff05 <= n && n <= 0xff0a) || (0xff0c <= n && n <= 0xff0f)
            || (0xff1a <= n && n <= 0xff1b) || (0xff1f <= n && n <= 0xff20)
            || (0xff3b <= n && n <= 0xff3d) || n == 0xff3f || n == 0xff5b || n == 0xff5d
            || (0xff5f <= n && n <= 0xff65)
    } else if n < 0x11000 {
        (0x10100 <= n && n <= 0x10102) || n == 0x1039f || n == 0x103d0 || n == 0x1056f
            || n == 0x10857 || n == 0x1091f || n == 0x1093f || (0x10a50 <= n && n <= 0x10a58)
            || n == 0x10a7f || (0x10af0 <= n && n <= 0x10af6) || (0x10b39 <= n && n <= 0x10b3f)
            || (0x10b99 <= n && n <= 0x10b9c) || n == 0x10d6e || n == 0x10ead || n == 0x10ed0
            || (0x10f55 <= n && n <= 0x10f59) || (0x10f86 <= n && n <= 0x10f89)
    } else if n < 0x12000 {
        (0x11047 <= n && n <= 0x1104d) || (0x110bb <= n && n <= 0x110bc)
            || (0x110be <= n && n <= 0x110c1) || (0x11140 <= n && n <= 0x11143)
            || (0x11174 <= n && n <= 0x11175) || (0x111c5 <= n && n <= 0x111c8) || n == 0x111cd
            || n == 0x111db || (0x111dd <= n && n <= 0x111df) || (0x11238 <= n && n <= 0x1123d)
            || n == 0x112a9 || (0x113d4 <= n && n <= 0x113d5) || (0x113d7 <= n && n <= 0x113d8)
            || (0x1144b <= n && n <= 0x1144f) || (0x1145a <= n && n <= 0x1145b) || n == 0x1145d
            || n == 0x114c6 || (0x115c1 <= n && n <= 0x115d7) || (0x11641 <= n && n <= 0x11643)
            || (0x11660 <= n && n <= 0x1166c) || n == 0x116b9 || (0x1173c <= n && n <= 0x1173e)
            || n == 0x1183b || (0x11944 <= n && n <= 0x11946) || n == 0x119e2
            || (0x11a3f <= n && n <= 0x11a46) || (0x11a9a <= n && n <= 0x11a9c)
            || (0x11a9e <= n && n <= 0x11aa2) || (0x11b00 <= n && n <= 0x11b09) || n == 0x11be1
            || (0x11c41 <= n && n <= 0x11c45) || (0x11c70 <= n && n <= 0x11c71)
            || (0x11ef7 <= n && n <= 0x11ef8) || (0x11f43 <= n && n <= 0x11f4f) || n == 0x11fff
    } else {
        (0x12470 <= n && n <= 0x12474) || (0x12ff1 <= n && n <= 0x12ff2)
            || (0x16a6e <= n && n <= 0x16a6f) || n == 0x16af5 || (0x16b37 <= n && n <= 0x16b3b)
            || n == 0x16b44 || (0x16d6d <= n && n <= 0x16d6f) || (0x16e97 <= n && n <= 0x16e9a)
            || n == 0x16fe2 || n == 0x1bc9f || (0x1da87 <= n && n <= 0x1da8b) || n == 0x1e5ff
            || (0x1e95e <= n && n <= 0x1e95f)
    }
}

/// The code of `c`, an ASCII capital turned into its small letter.
pub fn fold(c: char) -> (r: u32)
    ensures
        r == folded(c),
{
    let n: u32 = c as u32;
    if 0x41 <= n && n <= 0x5a {
        n + 0x20
    } else {
        n
    }
}

// --- strings and their characters ------------------------------------------

/// The characters of each string of a list.
pub open spec fn views(list: Seq<String>) -> Seq<Seq<char>> {
    list.map_values(|s: String| s@)
}

/// The characters of a string, if there is one.
pub open spec fn view_of(s: Option<String>) -> Option<Seq<char>> {
    match s {
        Some(s) => Some(s@),
        None => None,
    }
}

/// The contents of each piece of a list of pieces.
pub open spec fn pieces(list: Seq<Vec<char>>) -> Seq<Seq<char>> {
    list.map_values(|v: Vec<char>| v@)
}

/// The characters of `s`, in order.
pub fn chars_of(s: &str) -> (out: Vec<char>)
    ensures
        out@ == s@,
{
    let mut out: Vec<char> = Vec::new();
    for c in it: s.chars()
        invariant
            out@ == it.seq().take(it.index() as int),
            it.seq() == s@,
    {
        out.push(c);
    }
    out
}

/// The string made of `cs`, in order.
pub fn string_of(cs: &[char]) -> (out: String)
    ensures
        out@ == cs@,
{
    let mut out = String::new();
    for i in 0..cs.len()
        invariant
            out@ == cs@.take(i as int),
    {
        out.push(cs[i]);
    }
    out
}

/// Whether two strings hold the same characters.
pub fn same(a: &str, b: &str) -> (r: bool)
    ensures
        r == (a@ == b@),
{
    let x = chars_of(a);
    let y = chars_of(b);
    if x.len() != y.len() {
        return false;
    }
    for i in 0..x.len()
        invariant
            x@ == a@,
            y@ == b@,
            x@.len() == y@.len(),
            forall|k: int| 0 <= k < i ==> x@[k] == y@[k],
    {
        if x[i] != y[i] {
            return false;
        }
    }
    assert(a@ =~= b@);
    true
}

/// Whether two strings are the same but for the case of ASCII letters.
pub fn same_but_for_case(a: &[char], b: &[char]) -> (r: bool)
    ensures
        r == same_ignoring_case(a@, b@),
{
    if a.len() != b.len() {
        return false;
    }
    for i in 0..a.len()
        invariant
            a@.len() == b@.len(),
            forall|k: int| 0 <= k < i ==> folded(#[trigger] a@[k]) == folded(b@[k]),
    {
        if fold(a[i]) != fold(b[i]) {
            return false;
        }
    }
    true
}

/// `count` copies of `c`.
pub open spec fn repeated(c: char, count: nat) -> Seq<char> {
    Seq::new(count, |i: int| c)
}

/// The string of `count` copies of `c`.
pub fn repeat(c: char, count: usize) -> (out: String)
    ensures
        out@ == repeated(c, count as nat),
{
    let mut out = String::new();
    for i in 0..count
        invariant
            out@ == repeated(c, i as nat),
    {
        out.push(c);
        assert(repeated(c, (i + 1) as nat) =~= repeated(c, i as nat).push(c));
    }
    out
}

// --- trimming --------------------------------------------------------------

/// What a trim takes off.
#[derive(Clone, Copy)]
pub enum Class {
    Space,
    SpaceOrPunctuation,
    Newline,
}

impl Class {
    pub open spec fn has(self, c: char) -> bool {
        match self {
            Class::Space => is_space(c),
            Class::SpaceOrPunctuation => is_space(c) || is_any_punctuation(c),
            Class::Newline => c == '\n',
        }
    }

    pub fn holds(self, c: char) -> (r: bool)
        ensures
            r == self.has(c),
    {
        match self {
            Class::Space => white_space(c),
            Class::SpaceOrPunctuation => white_space(c) || any_punctuation(c),
            Class::Newline => c == '\n',
        }
    }
}

/// How many characters at the start of `s` are of the class.
pub open spec fn lead(s: Seq<char>, class: Class) -> nat
    decreases s.len(),
{
    if s.len() > 0 && class.has(s[0]) {
        1 + lead(s.skip(1), class)
    } else {
        0
    }
}

/// How many characters at the end of `s` are of the class.
pub open spec fn tail(s: Seq<char>, class: Class) -> nat
    decreases s.len(),
{
    if s.len() > 0 && class.has(s.last()) {
        1 + tail(s.drop_last(), class)
    } else {
        0
    }
}

pub open spec fn trimmed_start(s: Seq<char>, class: Class) -> Seq<char> {
    s.skip(lead(s, class) as int)
}

pub open spec fn trimmed_end(s: Seq<char>, class: Class) -> Seq<char> {
    s.take(s.len() - tail(s, class))
}

/// `s` without the white space at either end.
pub open spec fn trimmed(s: Seq<char>) -> Seq<char> {
    trimmed_end(trimmed_start(s, Class::Space), Class::Space)
}

/// The counts that trimming takes off never pass the length, and what is left
/// does not begin, or end, with a character of the class.
pub proof fn trims_are_maximal(s: Seq<char>, class: Class)
    ensures
        lead(s, class) <= s.len(),
        tail(s, class) <= s.len(),
        forall|i: int| 0 <= i < lead(s, class) ==> class.has(#[trigger] s[i]),
        forall|i: int| s.len() - tail(s, class) <= i < s.len() ==> class.has(#[trigger] s[i]),
        trimmed_start(s, class).len() > 0 ==> !class.has(trimmed_start(s, class)[0]),
        trimmed_end(s, class).len() > 0 ==> !class.has(trimmed_end(s, class).last()),
    decreases s.len(),
{
    if s.len() > 0 {
        trims_are_maximal(s.skip(1), class);
        trims_are_maximal(s.drop_last(), class);
        if class.has(s[0]) {
            assert(s.skip(1).skip(lead(s.skip(1), class) as int) =~= trimmed_start(s, class));
            assert forall|i: int| 0 <= i < lead(s, class) implies class.has(#[trigger] s[i]) by {
                if i > 0 {
                    assert(s[i] == s.skip(1)[i - 1]);
                }
            }
        }
        if class.has(s.last()) {
            assert(s.drop_last().take(s.len() - 1 - tail(s.drop_last(), class)) =~= trimmed_end(
                s,
                class,
            ));
            assert forall|i: int| s.len() - tail(s, class) <= i < s.len() implies class.has(
                #[trigger] s[i],
            ) by {
                if i < s.len() - 1 {
                    assert(s[i] == s.drop_last()[i]);
                }
            }
        }
    }
}

/// What stands before the first character that is not of the class is what trimming
/// takes off the start.
pub proof fn lead_is_known(s: Seq<char>, class: Class, count: int)
    requires
        0 <= count <= s.len(),
        forall|i: int| 0 <= i < count ==> class.has(#[trigger] s[i]),
        count < s.len() ==> !class.has(s[count]),
    ensures
        lead(s, class) == count,
        trimmed_start(s, class) == s.skip(count),
{
    trims_are_maximal(s, class);
    let found = lead(s, class) as int;
    if found < count {
        assert(trimmed_start(s, class)[0] == s[found]);
    } else if found > count {
        assert(class.has(s[count]));
    }
}

/// What stands after the last character that is not of the class is what trimming
/// takes off the end.
pub proof fn tail_is_known(s: Seq<char>, class: Class, count: int)
    requires
        0 <= count <= s.len(),
        forall|i: int| s.len() - count <= i < s.len() ==> class.has(#[trigger] s[i]),
        count < s.len() ==> !class.has(s[s.len() - count - 1]),
    ensures
        tail(s, class) == count,
        trimmed_end(s, class) == s.take(s.len() - count),
{
    trims_are_maximal(s, class);
    let found = tail(s, class) as int;
    if found < count {
        assert(trimmed_end(s, class).last() == s[s.len() - found - 1]);
    } else if found > count {
        assert(class.has(s[s.len() - count - 1]));
    }
}

/// White space around a text that neither begins nor ends in any is trimmed off.
pub proof fn trimming_finds_the_text(before: Seq<char>, inner: Seq<char>, after: Seq<char>)
    requires
        forall|i: int| 0 <= i < before.len() ==> is_space(#[trigger] before[i]),
        forall|i: int| 0 <= i < after.len() ==> is_space(#[trigger] after[i]),
        inner.len() > 0 ==> !is_space(inner[0]) && !is_space(inner.last()),
    ensures
        trimmed(before + inner + after) == inner,
{
    let s = before + inner + after;
    if inner.len() > 0 {
        assert(s[before.len() as int] == inner[0]);
        assert forall|i: int| 0 <= i < before.len() implies Class::Space.has(#[trigger] s[i]) by {
            assert(s[i] == before[i]);
        }
        lead_is_known(s, Class::Space, before.len() as int);
        let rest = s.skip(before.len() as int);
        assert(rest =~= inner + after);
        assert forall|i: int| rest.len() - after.len() <= i < rest.len() implies Class::Space.has(
            #[trigger] rest[i],
        ) by {
            assert(rest[i] == after[i - inner.len()]);
        }
        tail_is_known(rest, Class::Space, after.len() as int);
        assert(rest.take(inner.len() as int) =~= inner);
    } else {
        assert forall|i: int| 0 <= i < s.len() implies Class::Space.has(#[trigger] s[i]) by {
            if i < before.len() {
                assert(s[i] == before[i]);
            } else {
                assert(s[i] == after[i - before.len()]);
            }
        }
        lead_is_known(s, Class::Space, s.len() as int);
        assert(s.skip(s.len() as int) =~= inner);
        assert(trimmed(s) =~= inner);
    }
}

/// Nothing is left of a text when it is trimmed exactly where it is all white space.
pub proof fn white_space_alone_trims_to_nothing(s: Seq<char>)
    ensures
        trimmed(s).len() == 0 <==> forall|i: int| 0 <= i < s.len() ==> is_space(#[trigger] s[i]),
{
    let started = trimmed_start(s, Class::Space);
    trims_are_maximal(s, Class::Space);
    trims_are_maximal(started, Class::Space);
    if forall|i: int| 0 <= i < s.len() ==> is_space(#[trigger] s[i]) {
        lead_is_known(s, Class::Space, s.len() as int);
    } else {
        let i = choose|i: int| 0 <= i < s.len() && !is_space(#[trigger] s[i]);
        if i < lead(s, Class::Space) {
            assert(Class::Space.has(s[i]));
        }
        assert(started.len() > 0);
        if tail(started, Class::Space) == started.len() {
            assert(Class::Space.has(started[0]));
        }
    }
}

/// The part of `cs` that is left when the class is trimmed off its start.
pub fn trim_start_of(cs: &[char], class: Class) -> (out: &[char])
    ensures
        out@ == trimmed_start(cs@, class),
        lead(cs@, class) <= cs@.len(),
{
    let mut i: usize = 0;
    assert(cs@.skip(0) =~= cs@);
    while i < cs.len() && class.holds(cs[i])
        invariant
            i <= cs@.len(),
            lead(cs@, class) == i + lead(cs@.skip(i as int), class),
        decreases cs@.len() - i,
    {
        assert(cs@.skip(i as int).skip(1) =~= cs@.skip(i + 1));
        i += 1;
    }
    assert(lead(cs@.skip(i as int), class) == 0);
    slice_subrange(cs, i, cs.len())
}

/// The part of `cs` that is left when the class is trimmed off its end.
pub fn trim_end_of(cs: &[char], class: Class) -> (out: &[char])
    ensures
        out@ == trimmed_end(cs@, class),
        tail(cs@, class) <= cs@.len(),
{
    let mut i: usize = cs.len();
    assert(cs@.take(i as int) =~= cs@);
    while i > 0 && class.holds(cs[i - 1])
        invariant
            i <= cs@.len(),
            tail(cs@, class) == cs@.len() - i + tail(cs@.take(i as int), class),
        decreases i,
    {
        assert(cs@.take(i as int).drop_last() =~= cs@.take(i - 1));
        i -= 1;
    }
    assert(tail(cs@.take(i as int), class) == 0);
    slice_subrange(cs, 0, i)
}

/// The part of `cs` that is left when white space is trimmed off both ends.
pub fn trim_of(cs: &[char]) -> (out: &[char])
    ensures
        out@ == trimmed(cs@),
{
    let start = trim_start_of(cs, Class::Space);
    trim_end_of(start, Class::Space)
}

/// `s` without the white space at either end.
pub fn trim(s: &str) -> (out: String)
    ensures
        out@ == trimmed(s@),
{
    let cs = chars_of(s);
    string_of(trim_of(cs.as_slice()))
}

/// Whether there is nothing but white space in `s`.
pub fn is_blank(s: &str) -> (r: bool)
    ensures
        r == (trimmed(s@).len() == 0),
{
    let cs = chars_of(s);
    trim_of(cs.as_slice()).len() == 0
}

// --- splitting and joining -------------------------------------------------

/// The pieces of `s` between the separators; one more piece than separators.
pub open spec fn split(s: Seq<char>, sep: char) -> Seq<Seq<char>>
    decreases s.len(),
{
    if s.len() == 0 {
        seq![Seq::<char>::empty()]
    } else {
        let before = split(s.drop_last(), sep);
        if s.last() == sep {
            before.push(Seq::<char>::empty())
        } else {
            before.drop_last().push(before.last().push(s.last()))
        }
    }
}

/// The parts one after the other, `sep` between each two.
pub open spec fn joined(parts: Seq<Seq<char>>, sep: Seq<char>) -> Seq<char>
    decreases parts.len(),
{
    if parts.len() == 0 {
        Seq::empty()
    } else if parts.len() == 1 {
        parts[0]
    } else {
        joined(parts.drop_last(), sep) + sep + parts.last()
    }
}

/// Joining two lists of parts one after the other puts the separator between the two,
/// as between any two parts; one part alone is itself, and no parts are nothing.
pub proof fn joining_goes_on(a: Seq<Seq<char>>, b: Seq<Seq<char>>, sep: Seq<char>)
    requires
        a.len() > 0,
        b.len() > 0,
    ensures
        joined(a + b, sep) == joined(a, sep) + sep + joined(b, sep),
        a.len() == 1 ==> joined(a, sep) == a[0],
        joined(Seq::empty(), sep) == Seq::<char>::empty(),
    decreases b.len(),
{
    let both = a + b;
    assert(both.last() == b.last());
    if b.len() == 1 {
        assert(both.drop_last() =~= a);
    } else {
        joining_goes_on(a, b.drop_last(), sep);
        assert(both.drop_last() =~= a + b.drop_last());
        assert(joined(both, sep) =~= joined(a, sep) + sep + joined(b, sep));
    }
}

/// Splitting takes out the separators and nothing else: no piece holds one, and
/// the pieces joined by it are the text again.
pub proof fn split_pieces_rejoin(s: Seq<char>, sep: char)
    ensures
        split(s, sep).len() > 0,
        forall|i: int|
            0 <= i < split(s, sep).len() ==> !(#[trigger] split(s, sep)[i]).contains(sep),
        joined(split(s, sep), seq![sep]) == s,
    decreases s.len(),
{
    if s.len() > 0 {
        let init = s.drop_last();
        let before = split(init, sep);
        split_pieces_rejoin(init, sep);
        let now = split(s, sep);
        assert(s =~= init.push(s.last()));
        if s.last() == sep {
            assert(now.drop_last() =~= before);
            assert(joined(now, seq![sep]) =~= joined(before, seq![sep]) + seq![sep]
                + Seq::<char>::empty());
        } else {
            assert(now.drop_last() =~= before.drop_last());
            assert(now.last() == before.last().push(s.last()));
            assert(!before[before.len() - 1].contains(sep));
            assert forall|i: int| 0 <= i < now.len() implies !(#[trigger] now[i]).contains(sep) by {
                if i == now.len() - 1 {
                    let piece = before.last();
                    if now[i].contains(sep) {
                        let k = choose|k: int| 0 <= k < now[i].len() && now[i][k] == sep;
                        assert(k < piece.len() ==> piece[k] == sep);
                    }
                } else {
                    assert(now[i] == before[i]);
                }
            }
            assert(joined(now, seq![sep]) =~= joined(before, seq![sep]).push(s.last()));
        }
    } else {
        assert(joined(split(s, sep), seq![sep]) =~= s);
    }
}

/// Whether `part` stands unbroken somewhere in `s`.
pub open spec fn holds(s: Seq<char>, part: Seq<char>) -> bool {
    exists|at: int| stands_at(s, part, at)
}

/// Whether `part` stands in `s` at that place.
pub open spec fn stands_at(s: Seq<char>, part: Seq<char>, at: int) -> bool {
    0 <= at && at + part.len() <= s.len() && s.subrange(at, at + part.len()) == part
}

/// Every piece of a text stands unbroken in it, so it is made of the characters of the
/// text; and of those, none is the separator.
pub proof fn split_pieces_are_stretches(s: Seq<char>, sep: char)
    ensures
        split(s, sep).len() > 0,
        forall|k: int| 0 <= k < split(s, sep).len() ==> holds(s, #[trigger] split(s, sep)[k]),
        forall|k: int, i: int|
            0 <= k < split(s, sep).len() && 0 <= i < split(s, sep)[k].len() ==> s.contains(
                #[trigger] split(s, sep)[k][i],
            ) && split(s, sep)[k][i] != sep,
{
    let all = split(s, sep);
    lemma_stretches(s, sep);
    split_pieces_rejoin(s, sep);
    assert forall|k: int, i: int|
        0 <= k < all.len() && 0 <= i < all[k].len() implies s.contains(#[trigger] all[k][i])
        && all[k][i] != sep by {
        assert(holds(s, all[k]));
        let at = choose|at: int| stands_at(s, all[k], at);
        assert(s[at + i] == s.subrange(at, at + all[k].len())[i]);
        assert(!all[k].contains(sep));
    }
}

proof fn lemma_stretches(s: Seq<char>, sep: char)
    ensures
        split(s, sep).len() > 0,
        split(s, sep).last().len() <= s.len(),
        stands_at(s, split(s, sep).last(), s.len() - split(s, sep).last().len()),
        forall|k: int| 0 <= k < split(s, sep).len() ==> holds(s, #[trigger] split(s, sep)[k]),
    decreases s.len(),
{
    let now = split(s, sep);
    if s.len() == 0 {
        assert(s.subrange(0, 0) =~= now[0]);
        assert(stands_at(s, now[0], 0));
    } else {
        let init = s.drop_last();
        let before = split(init, sep);
        lemma_stretches(init, sep);
        assert forall|k: int| 0 <= k < before.len() implies holds(s, #[trigger] before[k]) by {
            let at = choose|at: int| stands_at(init, before[k], at);
            assert(s.subrange(at, at + before[k].len()) =~= init.subrange(
                at,
                at + before[k].len(),
            ));
            assert(stands_at(s, before[k], at));
        }
        if s.last() == sep {
            assert(s.subrange(s.len() as int, s.len() as int) =~= now.last());
        } else {
            let at = init.len() - before.last().len();
            assert(s.subrange(at, s.len() as int) =~= init.subrange(at, init.len() as int).push(
                s.last(),
            ));
        }
        assert(stands_at(s, now.last(), s.len() - now.last().len()));
        assert forall|k: int| 0 <= k < now.len() implies holds(s, #[trigger] now[k]) by {
            if k < now.len() - 1 {
                assert(now[k] == before[k]);
            }
        }
    }
}

/// A text without separators is one piece.
pub proof fn a_text_without_separators_is_one_piece(s: Seq<char>, sep: char)
    requires
        !s.contains(sep),
    ensures
        split(s, sep) == seq![s],
    decreases s.len(),
{
    if s.len() > 0 {
        let init = s.drop_last();
        assert forall|i: int| 0 <= i < init.len() implies init[i] != sep by {
            assert(s.contains(s[i]));
        }
        a_text_without_separators_is_one_piece(init, sep);
        assert(s.contains(s.last()));
        assert(init.push(s.last()) =~= s);
        assert(split(s, sep) =~= seq![s]);
    } else {
        assert(s =~= Seq::<char>::empty());
    }
}

/// Each separator parts a text: the pieces are those before it and those behind it.
pub proof fn a_separator_parts_a_text(a: Seq<char>, b: Seq<char>, sep: char)
    ensures
        split(a.push(sep) + b, sep) == split(a, sep) + split(b, sep),
    decreases b.len(),
{
    let s = a.push(sep) + b;
    split_pieces_rejoin(a, sep);
    if b.len() == 0 {
        assert(s.drop_last() =~= a);
        assert(split(s, sep) =~= split(a, sep) + split(b, sep));
    } else {
        let init = b.drop_last();
        a_separator_parts_a_text(a, init, sep);
        split_pieces_rejoin(init, sep);
        assert(s.drop_last() =~= a.push(sep) + init);
        assert(s.last() == b.last());
        let (x, y) = (split(a, sep), split(init, sep));
        assert((x + y).drop_last() =~= x + y.drop_last());
        assert((x + y).last() == y.last());
        assert(split(s, sep) =~= x + split(b, sep));
    }
}

/// Splitting undoes joining: parts that do not hold the separator come apart again.
pub proof fn splitting_undoes_joining(parts: Seq<Seq<char>>, sep: char)
    requires
        parts.len() > 0,
        forall|i: int| 0 <= i < parts.len() ==> !(#[trigger] parts[i]).contains(sep),
    ensures
        split(joined(parts, seq![sep]), sep) == parts,
    decreases parts.len(),
{
    assert(!parts[parts.len() - 1].contains(sep));
    a_text_without_separators_is_one_piece(parts.last(), sep);
    if parts.len() == 1 {
        assert(parts =~= seq![parts[0]]);
    } else {
        let before = parts.drop_last();
        assert(forall|i: int| 0 <= i < before.len() ==> #[trigger] before[i] == parts[i]);
        splitting_undoes_joining(before, sep);
        let start = joined(before, seq![sep]);
        assert(start + seq![sep] + parts.last() =~= start.push(sep) + parts.last());
        a_separator_parts_a_text(start, parts.last(), sep);
        assert(before + seq![parts.last()] =~= parts);
    }
}

/// A text of nothing but separators has nothing but empty pieces.
pub proof fn separators_alone_make_empty_pieces(s: Seq<char>, sep: char)
    requires
        forall|i: int| 0 <= i < s.len() ==> #[trigger] s[i] == sep,
    ensures
        forall|k: int| 0 <= k < split(s, sep).len() ==> (#[trigger] split(s, sep)[k]).len() == 0,
{
    split_pieces_are_stretches(s, sep);
    assert forall|k: int| 0 <= k < split(s, sep).len() implies (#[trigger] split(s, sep)[k]).len()
        == 0 by {
        if split(s, sep)[k].len() > 0 {
            assert(s.contains(split(s, sep)[k][0]));
        }
    }
}

/// The pieces of `cs` between the separators.
pub fn split_on(cs: &[char], sep: char) -> (out: Vec<Vec<char>>)
    ensures
        pieces(out@) == split(cs@, sep),
        out@.len() > 0,
{
    let mut done: Vec<Vec<char>> = Vec::new();
    let mut current: Vec<char> = Vec::new();
    assert(pieces(done@).push(current@) =~= split(cs@.take(0), sep));
    for i in 0..cs.len()
        invariant
            pieces(done@).push(current@) == split(cs@.take(i as int), sep),
    {
        assert(cs@.take(i + 1).drop_last() =~= cs@.take(i as int));
        let ghost before = split(cs@.take(i as int), sep);
        assert(before.drop_last() =~= pieces(done@));
        assert(before.last() == current@);
        if cs[i] == sep {
            let ghost done_before = done@;
            let ghost piece = current@;
            done.push(current);
            current = Vec::new();
            assert(pieces(done@) =~= pieces(done_before).push(piece));
            assert(current@ =~= Seq::<char>::empty());
        } else {
            current.push(cs[i]);
        }
    }
    assert(cs@.take(cs@.len() as int) =~= cs@);
    let ghost done_before = done@;
    let ghost piece = current@;
    done.push(current);
    assert(pieces(done@) =~= pieces(done_before).push(piece));
    done
}

/// The strings one after the other, `sep` between each two.
pub fn join(parts: &[String], sep: &str) -> (out: String)
    ensures
        out@ == joined(views(parts@), sep@),
{
    let mut out = String::new();
    assert(views(parts@).take(0) =~= Seq::<Seq<char>>::empty());
    for i in 0..parts.len()
        invariant
            out@ == joined(views(parts@).take(i as int), sep@),
    {
        let ghost so_far = views(parts@).take(i + 1);
        assert(so_far.drop_last() =~= views(parts@).take(i as int));
        if i > 0 {
            out.append(sep);
        }
        out.append(parts[i].as_str());
        assert(i == 0 ==> out@ =~= so_far[0]);
    }
    assert(views(parts@).take(parts@.len() as int) =~= views(parts@));
    out
}

/// A line without the carriage return that may end it.
pub open spec fn without_return(line: Seq<char>) -> Seq<char> {
    if line.len() > 0 && line.last() == '\r' {
        line.drop_last()
    } else {
        line
    }
}

/// The lines of `s`. A line ends in a newline, or in a carriage return and a
/// newline; the last one need not.
pub open spec fn lines(s: Seq<char>) -> Seq<Seq<char>> {
    let parts = split(s, '\n');
    let ended = parts.drop_last().map_values(|line: Seq<char>| without_return(line));
    if parts.last().len() == 0 {
        ended
    } else {
        ended.push(parts.last())
    }
}

/// The first line of a text ends at its first newline, a carriage return before that
/// taken off, and the other lines are those of what follows. A text without a newline is
/// one line as it stands, and one with nothing in it has no line.
pub proof fn lines_end_at_newlines(line: Seq<char>, rest: Seq<char>)
    requires
        !line.contains('\n'),
    ensures
        lines(line.push('\n') + rest) == seq![
            if line.len() > 0 && line.last() == '\r' {
                line.drop_last()
            } else {
                line
            },
        ] + lines(rest),
        line.len() > 0 ==> lines(line) == seq![line],
        lines(Seq::empty()) == Seq::<Seq<char>>::empty(),
{
    let s = line.push('\n') + rest;
    a_text_without_separators_is_one_piece(line, '\n');
    a_separator_parts_a_text(line, rest, '\n');
    split_pieces_rejoin(rest, '\n');
    let parts = split(rest, '\n');
    assert((seq![line] + parts).drop_last() =~= seq![line] + parts.drop_last());
    assert((seq![line] + parts).last() == parts.last());
    assert(lines(s) =~= seq![without_return(line)] + lines(rest));
    assert(lines(line) =~= if line.len() > 0 {
        seq![line]
    } else {
        Seq::empty()
    });
    assert(lines(Seq::empty()) =~= Seq::<Seq<char>>::empty());
}

/// The lines of `cs`.
pub fn lines_of(cs: &[char]) -> (out: Vec<Vec<char>>)
    ensures
        pieces(out@) == lines(cs@),
{
    let parts = split_on(cs, '\n');
    let count: usize = parts.len();
    let ghost all = split(cs@, '\n');
    let ghost ended = all.drop_last().map_values(|line: Seq<char>| without_return(line));
    let mut out: Vec<Vec<char>> = Vec::new();
    for i in 0..count - 1
        invariant
            count == parts@.len(),
            count > 0,
            all == pieces(parts@),
            ended == all.drop_last().map_values(|line: Seq<char>| without_return(line)),
            pieces(out@) == ended.take(i as int),
    {
        let part = parts[i].as_slice();
        assert(all[i as int] == part@);
        let end: usize = if part.len() > 0 && part[part.len() - 1] == '\r' {
            part.len() - 1
        } else {
            part.len()
        };
        let mut line: Vec<char> = Vec::new();
        line.extend_from_slice(slice_subrange(part, 0, end));
        assert(line@ =~= without_return(part@));
        let ghost before = out@;
        let ghost view = line@;
        out.push(line);
        assert(pieces(out@) =~= pieces(before).push(view));
        assert(ended.take(i + 1) =~= ended.take(i as int).push(ended[i as int]));
    }
    assert(ended.take(count - 1) =~= ended);
    assert(all.last() == parts@[count - 1]@);
    if parts[count - 1].len() > 0 {
        let mut line: Vec<char> = Vec::new();
        line.extend_from_slice(parts[count - 1].as_slice());
        assert(line@ =~= all.last());
        let ghost before = out@;
        let ghost view = line@;
        out.push(line);
        assert(pieces(out@) =~= pieces(before).push(view));
    }
    out
}

// --- numbers ---------------------------------------------------------------

/// The decimal digit `d`.
pub open spec fn digit(d: nat) -> char {
    (0x30 + d) as char
}

/// `n` in decimal, without leading zeros.
pub open spec fn decimal(n: nat) -> Seq<char>
    decreases n,
{
    if n < 10 {
        seq![digit(n)]
    } else {
        decimal(n / 10).push(digit(n % 10))
    }
}

/// The number that decimal digits write.
pub open spec fn number(digits: Seq<char>) -> int
    decreases digits.len(),
{
    if digits.len() == 0 {
        0
    } else {
        10 * number(digits.drop_last()) + (digits.last() as int - '0' as int)
    }
}

/// A number in decimal reads as that number: it is made of the digits 0 to 9 alone,
/// and begins with a zero only where it is zero.
pub proof fn decimals_read_back(n: nat)
    ensures
        decimal(n).len() > 0,
        number(decimal(n)) == n,
        forall|i: int| 0 <= i < decimal(n).len() ==> '0' <= #[trigger] decimal(n)[i] <= '9',
        n > 0 ==> decimal(n)[0] != '0',
        n == 0 ==> decimal(n) == seq!['0'],
    decreases n,
{
    if n < 10 {
        assert(decimal(n).drop_last() =~= Seq::<char>::empty());
        assert(number(decimal(n).drop_last()) == 0);
    } else {
        decimals_read_back(n / 10);
        assert(decimal(n).drop_last() =~= decimal(n / 10));
    }
}

fn digit_of(d: u128) -> (c: char)
    requires
        d < 10,
    ensures
        c == digit(d as nat),
{
    let code: u8 = 0x30 + d as u8;
    code as char
}

/// `n` in decimal.
pub fn decimal_of(n: u128) -> (out: String)
    ensures
        out@ == decimal(n as nat),
    decreases n,
{
    if n < 10 {
        let mut out = String::new();
        out.push(digit_of(n));
        assert(out@ =~= decimal(n as nat));
        out
    } else {
        let mut out = decimal_of(n / 10);
        out.push(digit_of(n % 10));
        out
    }
}

} // verus!
