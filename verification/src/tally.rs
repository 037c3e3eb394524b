//! Line, word, byte and character tally over a byte stream.
//!
//! A single forward pass counts the newline-delimited records, the maximal
//! runs of non-whitespace bytes, the raw bytes, and the decoded characters
//! (one per byte that does not continue a multi-byte encoded character).
//! All four counts are always computed; choosing which to print is the
//! caller's concern, handled by `format_field`.

use vstd::prelude::*;

use crate::lines::{lines_of, LINE_FEED};
use crate::text::field_text;

verus! {

/// Width of a printed tally column.
pub const TALLY_FIELD_WIDTH: usize = 8;

/// The four counts of one input source, fully populated before it is returned.
#[derive(Debug, PartialEq, Eq, Structural)]
pub struct FileInfo {
    pub num_lines: usize,
    pub num_words: usize,
    pub num_bytes: usize,
    pub num_chars: usize,
}

/// Whitespace for word splitting: space, horizontal tab, line feed, vertical
/// tab, form feed and carriage return.
pub open spec fn is_whitespace_byte(b: u8) -> bool {
    b == 32 || (9 <= b && b <= 13)
}

/// A byte that starts or continues a word: anything but whitespace.
pub open spec fn is_word_byte(b: u8) -> bool {
    !is_whitespace_byte(b)
}

/// A byte that begins a decoded character: anything but a continuation byte
/// of a multi-byte encoded character.
pub open spec fn is_char_start(b: u8) -> bool {
    !(128 <= b && b < 192)
}

/// Number of line feeds in `s`.
pub open spec fn newline_count(s: Seq<u8>) -> nat
    decreases s.len(),
{
    if s.len() == 0 {
        0
    } else {
        newline_count(s.drop_last()) + if s.last() == LINE_FEED {
            1nat
        } else {
            0nat
        }
    }
}

/// Number of newline-delimited records in `s`, a final record without its
/// terminator included.
pub open spec fn line_count(s: Seq<u8>) -> nat {
    newline_count(s) + if s.len() > 0 && s.last() != LINE_FEED {
        1nat
    } else {
        0nat
    }
}

/// Number of maximal runs of non-whitespace bytes in `s`, counted at the
/// position where each run starts.
pub open spec fn word_count(s: Seq<u8>) -> nat
    decreases s.len(),
{
    if s.len() == 0 {
        0
    } else {
        word_count(s.drop_last()) + if is_word_byte(s.last()) && (s.len() == 1
            || is_whitespace_byte(s[s.len() - 2])) {
            1nat
        } else {
            0nat
        }
    }
}

/// Number of decoded characters in `s`: the bytes that start one.
pub open spec fn char_count(s: Seq<u8>) -> nat
    decreases s.len(),
{
    if s.len() == 0 {
        0
    } else {
        char_count(s.drop_last()) + if is_char_start(s.last()) {
            1nat
        } else {
            0nat
        }
    }
}

fn is_whitespace(b: u8) -> (r: bool)
    ensures
        r == is_whitespace_byte(b),
{
    b == 32 || (9 <= b && b <= 13)
}

/// Tallies lines, words, bytes and characters of `input` in one pass.
///
/// An empty input is valid and yields all-zero counts.
pub fn count(input: &[u8]) -> (info: FileInfo)
    ensures
        info.num_lines == line_count(input@),
        info.num_words == word_count(input@),
        info.num_bytes == input@.len(),
        info.num_chars == char_count(input@),
        info.num_chars <= info.num_bytes,
{
    let n = input.len();
    let mut newlines: usize = 0;
    let mut words: usize = 0;
    let mut chars: usize = 0;
    let mut prev_ws = true;
    let mut i: usize = 0;
    proof {
        assert(input@.take(0) =~= Seq::<u8>::empty());
    }
    while i < n
        invariant
            i <= n,
            newlines == newline_count(input@.take(i as int)),
            words == word_count(input@.take(i as int)),
            chars == char_count(input@.take(i as int)),
            newlines <= i,
            words <= i,
            chars <= i,
            i > 0 ==> prev_ws == is_whitespace_byte(input@[i - 1]),
        decreases n - i,
    {
        let b = *vstd::slice::slice_index_get(input, i);
        proof {
            assert(input@.take(i + 1).drop_last() =~= input@.take(i as int));
            assert(input@.take(i + 1).last() == input@[i as int]);
            if i > 0 {
                assert(input@.take(i + 1)[i - 1] == input@[i - 1]);
            }
        }
        if b == LINE_FEED {
            newlines = newlines + 1;
        }
        let ws = is_whitespace(b);
        if !ws && (i == 0 || prev_ws) {
            words = words + 1;
        }
        if !(128 <= b && b < 192) {
            chars = chars + 1;
        }
        prev_ws = ws;
        i = i + 1;
    }
    proof {
        assert(input@.take(n as int) =~= input@);
        lemma_char_count_le_len(input@);
    }
    let mut num_lines = newlines;
    if n > 0 && *vstd::slice::slice_index_get(input, n - 1) != LINE_FEED {
        proof {
            lemma_newline_count_le_len(input@.drop_last());
            assert(input@.last() == input@[n - 1]);
        }
        num_lines = num_lines + 1;
    }
    FileInfo { num_lines, num_words: words, num_bytes: n, num_chars: chars }
}

/// There are at most as many characters as bytes.
pub proof fn lemma_char_count_le_len(s: Seq<u8>)
    ensures
        char_count(s) <= s.len(),
    decreases s.len(),
{
    if s.len() > 0 {
        lemma_char_count_le_len(s.drop_last());
    }
}

/// There are at most as many line feeds as bytes.
proof fn lemma_newline_count_le_len(s: Seq<u8>)
    ensures
        newline_count(s) <= s.len(),
    decreases s.len(),
{
    if s.len() > 0 {
        lemma_newline_count_le_len(s.drop_last());
    }
}

/// Line feeds distribute over concatenation.
proof fn lemma_newline_count_concat(a: Seq<u8>, b: Seq<u8>)
    ensures
        newline_count(a + b) == newline_count(a) + newline_count(b),
    decreases b.len(),
{
    if b.len() == 0 {
        assert(a + b =~= a);
    } else {
        assert((a + b).drop_last() =~= a + b.drop_last());
        assert((a + b).last() == b.last());
        lemma_newline_count_concat(a, b.drop_last());
    }
}

/// A segment without line feeds contributes none.
proof fn lemma_newline_count_zero(s: Seq<u8>)
    requires
        forall|j: int| 0 <= j < s.len() ==> s[j] != LINE_FEED,
    ensures
        newline_count(s) == 0,
    decreases s.len(),
{
    if s.len() > 0 {
        lemma_newline_count_zero(s.drop_last());
    }
}

/// The tallied line count is the number of newline-delimited records.
pub proof fn lemma_line_count_is_record_count(s: Seq<u8>)
    ensures
        line_count(s) == lines_of(s).len(),
    decreases s.len(),
{
    crate::lines::lemma_first_break(s);
    if s.len() > 0 {
        let k = crate::lines::first_break(s) as int;
        if k < s.len() {
            let head = s.take(k + 1);
            let rest = s.skip(k + 1);
            assert(s =~= head + rest);
            lemma_newline_count_concat(head, rest);
            lemma_newline_count_zero(head.drop_last());
            assert(head.last() == s[k]);
            assert(newline_count(head) == 1);
            lemma_line_count_is_record_count(rest);
            if rest.len() == 0 {
                assert(s.last() == LINE_FEED);
                assert(lines_of(s) == seq![head] + lines_of(rest));
                assert(lines_of(rest) =~= Seq::<Seq<u8>>::empty());
            } else {
                assert(s.last() == rest.last());
            }
        } else {
            lemma_newline_count_zero(s);
            assert(s.last() != LINE_FEED);
        }
    }
}

/// The tally is a function of the input alone: two results that both satisfy
/// the counting contract for the same byte sequence are equal.
pub proof fn lemma_tally_deterministic(s: Seq<u8>, a: FileInfo, b: FileInfo)
    requires
        a.num_lines == line_count(s),
        a.num_words == word_count(s),
        a.num_bytes == s.len(),
        a.num_chars == char_count(s),
        b.num_lines == line_count(s),
        b.num_words == word_count(s),
        b.num_bytes == s.len(),
        b.num_chars == char_count(s),
    ensures
        a == b,
{
}

/// Which tally columns to print.
#[derive(Debug, PartialEq, Eq, Structural, Clone, Copy)]
pub struct Selection {
    pub lines: bool,
    pub words: bool,
    pub bytes: bool,
    pub chars: bool,
}

/// Resolves the requested columns before the engine is invoked: with nothing
/// requested, lines, words and bytes are shown; requesting both bytes and
/// characters is a configuration error.
pub fn normalize_selection(lines: bool, words: bool, bytes: bool, chars: bool) -> (r: Option<
    Selection,
>)
    ensures
        r is Some <==> !(bytes && chars),
        (r is Some && !lines && !words && !bytes && !chars) ==> r->0 == (Selection {
            lines: true,
            words: true,
            bytes: true,
            chars: false,
        }),
        (r is Some && (lines || words || bytes || chars)) ==> r->0 == (Selection {
            lines,
            words,
            bytes,
            chars,
        }),
{
    if bytes && chars {
        None
    } else if !lines && !words && !bytes && !chars {
        Some(Selection { lines: true, words: true, bytes: true, chars: false })
    } else {
        Some(Selection { lines, words, bytes, chars })
    }
}

/// One printed tally column, as characters: empty when not selected.
pub open spec fn field_of(v: nat, show: bool) -> Seq<char> {
    if show {
        field_text(v, TALLY_FIELD_WIDTH as nat).map_values(|b: u8| b as char)
    } else {
        Seq::<char>::empty()
    }
}

/// The printed line for one tallied source: the selected columns in the fixed
/// order lines, words, bytes, characters, then a space and the source's name
/// when it has one.
pub open spec fn tally_line_spec(info: FileInfo, sel: Selection, name: Option<Seq<char>>) -> Seq<
    char,
> {
    field_of(info.num_lines as nat, sel.lines) + field_of(info.num_words as nat, sel.words)
        + field_of(info.num_bytes as nat, sel.bytes) + field_of(info.num_chars as nat, sel.chars)
        + match name {
        Option::Some(n) => seq![' '] + n,
        Option::None => Seq::<char>::empty(),
    }
}

/// Renders the printed line for one tallied source.
pub fn tally_line(info: &FileInfo, sel: &Selection, name: Option<&str>) -> (r: String)
    ensures
        r@ == tally_line_spec(*info, *sel, match name {
            Option::Some(n) => Option::Some(n@),
            Option::None => Option::None,
        }),
{
    let mut r = format_field(info.num_lines, sel.lines);
    let w = format_field(info.num_words, sel.words);
    r.append(w.as_str());
    let b = format_field(info.num_bytes, sel.bytes);
    r.append(b.as_str());
    let c = format_field(info.num_chars, sel.chars);
    r.append(c.as_str());
    if let Some(n) = name {
        r.append(" ");
        proof {
            reveal_strlit(" ");
            assert(" "@ =~= seq![' ']);
        }
        r.append(n);
    }
    proof {
        assert(r@ =~= tally_line_spec(*info, *sel, match name {
            Option::Some(n) => Option::Some(n@),
            Option::None => Option::None,
        }));
    }
    r
}

/// Renders one tally column: the value right-justified in a fixed-width
/// field when selected, nothing when not.
pub fn format_field(value: usize, show: bool) -> (r: String)
    ensures
        show ==> r@ == field_text(value as nat, TALLY_FIELD_WIDTH as nat).map_values(
            |b: u8| b as char,
        ),
        !show ==> r@ == Seq::<char>::empty(),
{
    if show {
        crate::text::field_string(value, TALLY_FIELD_WIDTH)
    } else {
        String::new()
    }
}

} // verus!
