//! The decoder's diagnostic: pick the offending line out of a malformed
//! payload and cut a bounded excerpt around the failure's column, never
//! splitting a character.

use vstd::prelude::*;
use vstd::string::StrSliceExecFns;

verus! {

/// The position of the first line break at or after `from`; the text's length
/// when there is none.
pub open spec fn first_newline_at(s: Seq<char>, from: int) -> int
    decreases s.len() - from,
{
    if from >= s.len() || from < 0 {
        s.len() as int
    } else if s[from] == '\n' {
        from
    } else {
        first_newline_at(s, from + 1)
    }
}

/// The position where the `n`-th line starts; one past the text's length when
/// the text has fewer lines.
pub open spec fn line_start(s: Seq<char>, n: nat) -> int
    decreases n,
{
    if n == 0 {
        0
    } else {
        let prev = line_start(s, (n - 1) as nat);
        if prev > s.len() {
            s.len() as int + 1
        } else {
            let nl = first_newline_at(s, prev);
            if nl >= s.len() {
                s.len() as int + 1
            } else {
                nl + 1
            }
        }
    }
}

/// Whether the text has an `n`-th line.
pub open spec fn has_line(s: Seq<char>, n: nat) -> bool {
    line_start(s, n) <= s.len()
}

/// The `n`-th line: the characters from its start up to the next line break
/// or the end of the text.
pub open spec fn line_at(s: Seq<char>, n: nat) -> Seq<char> {
    s.subrange(line_start(s, n), first_newline_at(s, line_start(s, n)))
}

proof fn lemma_no_more_lines(s: Seq<char>, m: nat, n: nat)
    requires
        line_start(s, m) == s.len() as int + 1,
        m <= n,
    ensures
        line_start(s, n) == s.len() as int + 1,
    decreases n - m,
{
    if m < n {
        lemma_no_more_lines(s, (m + 1) as nat, n);
    }
}

/// Find the first line break at or after `from`.
fn find_newline(s: &str, from: usize) -> (r: usize)
    requires
        from <= s@.len(),
    ensures
        r == first_newline_at(s@, from as int),
        from <= r <= s@.len(),
{
    let len = s.unicode_len();
    let mut j = from;
    while j < len
        invariant
            from <= j <= len,
            len == s@.len(),
            first_newline_at(s@, from as int) == first_newline_at(s@, j as int),
        decreases len - j,
    {
        if s.get_char(j) == '\n' {
            return j;
        }
        j += 1;
    }
    j
}

/// The `n`-th line of a text, counting from zero, lines being separated by
/// `'\n'`; nothing when the text has fewer lines.
pub fn nth_line(s: &str, n: usize) -> (r: Option<String>)
    ensures
        has_line(s@, n as nat) ==> (r matches Some(l) && l@ == line_at(s@, n as nat)),
        !has_line(s@, n as nat) ==> r is None,
{
    let len = s.unicode_len();
    let mut start: usize = 0;
    let mut k: usize = 0;
    while k < n
        invariant
            k <= n,
            start <= len,
            len == s@.len(),
            line_start(s@, k as nat) == start as int,
        decreases n - k,
    {
        let nl = find_newline(s, start);
        if nl == len {
            proof {
                lemma_no_more_lines(s@, (k + 1) as nat, n as nat);
            }
            return None;
        }
        start = nl + 1;
        k += 1;
    }
    let endpos = find_newline(s, start);
    let line = s.substring_char(start, endpos);
    Some(String::from_str(line))
}

/// A bounded excerpt of `line` around column `col`: from five characters
/// before the column to five hundred past it, clamped to the line's own
/// boundaries.
pub open spec fn excerpt_of(l: Seq<char>, col: int) -> Seq<char> {
    let endpos = if col + 500 < l.len() {
        col + 500
    } else {
        l.len() as int
    };
    let start0 = if col >= 5 {
        col - 5
    } else {
        0
    };
    let start = if start0 > endpos {
        endpos
    } else {
        start0
    };
    l.subrange(start, endpos)
}

/// Cut the diagnostic excerpt around the failing column of one line. Working
/// in characters, the cut can never split a multi-byte character.
pub fn error_excerpt(line: &str, col: usize) -> (r: String)
    ensures
        r@ == excerpt_of(line@, col as int),
{
    let len = line.unicode_len();
    let endpos = if col < len && len - col > 500 {
        col + 500
    } else {
        len
    };
    let start0 = if col >= 5 {
        col - 5
    } else {
        0
    };
    let start = if start0 > endpos {
        endpos
    } else {
        start0
    };
    let sub = line.substring_char(start, endpos);
    String::from_str(sub)
}

} // verus!
