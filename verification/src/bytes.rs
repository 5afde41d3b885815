//! Byte classes of the genders format and the scanning of runs of bytes.

use vstd::prelude::*;

verus! {

/// Line feed: ends a host entry and a comment.
pub const LINE_FEED: u8 = 0x0a;

/// `#`: starts a comment that runs to the end of the line.
pub const HASH: u8 = 0x23;

/// `,`: separates the attributes of one host.
pub const COMMA: u8 = 0x2c;

/// `=`: separates an attribute's name from its value.
pub const EQUALS: u8 = 0x3d;

/// The decimal digits `0` to `9`.
pub open spec fn is_digit(b: u8) -> bool {
    0x30 <= b <= 0x39
}

/// The bytes of an identifier: ASCII letters, decimal digits, `_`, `-` and `.`.
pub open spec fn is_ident_byte(b: u8) -> bool {
    is_digit(b) || 0x41 <= b <= 0x5a || 0x61 <= b <= 0x7a || b == 0x5f || b == 0x2d || b == 0x2e
}

/// White space inside a line: space, horizontal tab and carriage return.
pub open spec fn is_blank(b: u8) -> bool {
    b == 0x20 || b == 0x09 || b == 0x0d
}

/// The bytes of an attribute value: every byte but white space, line feed,
/// `,` and `#`. Bytes above 0x7f are value bytes, so a value may hold any
/// non-ASCII text.
pub open spec fn is_value_byte(b: u8) -> bool {
    !is_blank(b) && b != LINE_FEED && b != COMMA && b != HASH
}

/// A class of bytes that a token or a gap is made of.
#[derive(Clone, Copy, Debug, PartialEq, Eq, Structural)]
pub enum ByteClass {
    Ident,
    Value,
    Blank,
    Digit,
}

impl ByteClass {
    /// Whether `b` belongs to the class.
    pub open spec fn holds(self, b: u8) -> bool {
        match self {
            ByteClass::Ident => is_ident_byte(b),
            ByteClass::Value => is_value_byte(b),
            ByteClass::Blank => is_blank(b),
            ByteClass::Digit => is_digit(b),
        }
    }

    /// Tests whether `b` belongs to the class.
    pub fn contains(self, b: u8) -> (r: bool)
        ensures
            r == self.holds(b),
    {
        match self {
            ByteClass::Ident => {
                (0x30 <= b && b <= 0x39) || (0x41 <= b && b <= 0x5a) || (0x61 <= b && b <= 0x7a)
                    || b == 0x5f || b == 0x2d || b == 0x2e
            },
            ByteClass::Value => {
                b != 0x20 && b != 0x09 && b != 0x0d && b != LINE_FEED && b != COMMA && b != HASH
            },
            ByteClass::Blank => b == 0x20 || b == 0x09 || b == 0x0d,
            ByteClass::Digit => 0x30 <= b && b <= 0x39,
        }
    }
}

/// Where the longest run of bytes of `class` that starts at `from` ends:
/// the first position at or after `from` that is the end of `s` or holds a
/// byte outside the class.
pub open spec fn run_end(s: Seq<u8>, from: int, class: ByteClass) -> int
    decreases s.len() - from,
{
    if 0 <= from < s.len() && class.holds(s[from]) {
        run_end(s, from + 1, class)
    } else {
        from
    }
}

/// A run lies inside the text, holds only bytes of its class, and cannot be
/// extended.
pub proof fn lemma_run_end(s: Seq<u8>, from: int, class: ByteClass)
    requires
        0 <= from <= s.len(),
    ensures
        from <= run_end(s, from, class) <= s.len(),
        forall|i: int| from <= i < run_end(s, from, class) ==> class.holds(#[trigger] s[i]),
        run_end(s, from, class) < s.len() ==> !class.holds(s[run_end(s, from, class)]),
    decreases s.len() - from,
{
    if from < s.len() && class.holds(s[from]) {
        lemma_run_end(s, from + 1, class);
    }
}

/// The end of a run is the only position that a run can end at.
pub proof fn lemma_run_end_unique(s: Seq<u8>, from: int, class: ByteClass, end: int)
    requires
        0 <= from <= end <= s.len(),
        forall|i: int| from <= i < end ==> class.holds(#[trigger] s[i]),
        end < s.len() ==> !class.holds(s[end]),
    ensures
        run_end(s, from, class) == end,
    decreases end - from,
{
    if from < end {
        lemma_run_end_unique(s, from + 1, class, end);
    }
}

/// Scans the longest run of bytes of `class` that starts at `from`.
pub fn scan(bytes: &[u8], from: usize, class: ByteClass) -> (end: usize)
    requires
        from <= bytes@.len(),
    ensures
        end == run_end(bytes@, from as int, class),
        from <= end <= bytes@.len(),
{
    let mut end: usize = from;
    while end < bytes.len() && class.contains(bytes[end])
        invariant
            from <= end <= bytes@.len(),
            forall|i: int| from <= i < end ==> class.holds(#[trigger] bytes@[i]),
        decreases bytes@.len() - end,
    {
        end += 1;
    }
    proof {
        lemma_run_end_unique(bytes@, from as int, class, end as int);
    }
    end
}

/// Where the gap between two host entries that starts at `from` ends. A gap
/// is made of white space, line feeds and comments; `in_comment` says
/// whether `from` lies inside a comment.
pub open spec fn gap_end(s: Seq<u8>, from: int, in_comment: bool) -> int
    decreases s.len() - from,
{
    if from < 0 || from >= s.len() {
        from
    } else if in_comment {
        gap_end(s, from + 1, s[from] != LINE_FEED)
    } else if is_blank(s[from]) || s[from] == LINE_FEED {
        gap_end(s, from + 1, false)
    } else if s[from] == HASH {
        gap_end(s, from + 1, true)
    } else {
        from
    }
}

/// A gap lies inside the text; outside a comment it ends at the end of the
/// text or before a byte that starts no gap.
pub proof fn lemma_gap_end(s: Seq<u8>, from: int, in_comment: bool)
    requires
        0 <= from <= s.len(),
    ensures
        from <= gap_end(s, from, in_comment) <= s.len(),
        gap_end(s, from, in_comment) < s.len() ==> {
            let b = s[gap_end(s, from, in_comment)];
            !is_blank(b) && b != LINE_FEED && b != HASH
        },
    decreases s.len() - from,
{
    if from < s.len() {
        if in_comment {
            lemma_gap_end(s, from + 1, s[from] != LINE_FEED);
        } else if is_blank(s[from]) || s[from] == LINE_FEED {
            lemma_gap_end(s, from + 1, false);
        } else if s[from] == HASH {
            lemma_gap_end(s, from + 1, true);
        }
    }
}

/// Skips the gap between two host entries that starts at `from`.
pub fn skip_gap(bytes: &[u8], from: usize) -> (end: usize)
    requires
        from <= bytes@.len(),
    ensures
        end == gap_end(bytes@, from as int, false),
        from <= end <= bytes@.len(),
{
    let mut end: usize = from;
    let mut in_comment = false;
    loop
        invariant
            from <= end <= bytes@.len(),
            gap_end(bytes@, from as int, false) == gap_end(bytes@, end as int, in_comment),
        ensures
            gap_end(bytes@, from as int, false) == end,
        decreases bytes@.len() - end,
    {
        if end >= bytes.len() {
            break;
        }
        let b = bytes[end];
        if in_comment {
            in_comment = b != LINE_FEED;
        } else if b == HASH {
            in_comment = true;
        } else if !(ByteClass::Blank.contains(b) || b == LINE_FEED) {
            break;
        }
        end += 1;
    }
    end
}

/// How many line feeds stand before position `upto`.
pub open spec fn line_feeds_before(s: Seq<u8>, upto: int) -> nat
    decreases upto,
{
    if upto <= 0 || upto > s.len() {
        0
    } else {
        line_feeds_before(s, upto - 1) + if s[upto - 1] == LINE_FEED { 1nat } else { 0nat }
    }
}

/// The number of the line that holds position `offset`; the first line has
/// the number 1, and a line feed belongs to the line that it ends.
pub open spec fn line_of(s: Seq<u8>, offset: int) -> nat {
    line_feeds_before(s, offset) + 1
}

/// There are no more line feeds before a position than bytes, and fewer
/// where one of the bytes is no line feed.
pub proof fn lemma_line_feeds_bound(s: Seq<u8>, upto: int, other: int)
    requires
        0 <= upto <= s.len(),
    ensures
        line_feeds_before(s, upto) <= upto,
        0 <= other < upto && s[other] != LINE_FEED ==> line_feeds_before(s, upto) < upto,
    decreases upto,
{
    if upto > 0 {
        lemma_line_feeds_bound(s, upto - 1, other);
    }
}

} // verus!
