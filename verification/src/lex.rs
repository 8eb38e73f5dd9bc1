//! Character-level scanning: whitespace, separators, identifier runs,
//! digit runs, keywords and number values.
//!
//! The token scanners work on ASCII text; each is specified over the
//! character sequence and implemented over constant-time byte reads.
//! `ascii_run_end` is the one scanner that asks nothing of its input:
//! it finds where the ASCII text itself ends.
use vstd::prelude::*;
use vstd::string::StrSliceExecFns;

verus! {

pub open spec fn is_space_char(c: char) -> bool {
    c == ' ' || c == '\t' || c == '\n' || c == '\r'
}

/// Statement separators: whitespace or `;`.
pub open spec fn is_sep_char(c: char) -> bool {
    is_space_char(c) || c == ';'
}

pub open spec fn is_digit_char(c: char) -> bool {
    48 <= c as u32 <= 57
}

pub open spec fn is_alpha_char(c: char) -> bool {
    (65 <= c as u32 <= 90) || (97 <= c as u32 <= 122)
}

/// Identifier characters: ASCII letters and digits, nothing else.
pub open spec fn is_alnum_char(c: char) -> bool {
    is_digit_char(c) || is_alpha_char(c)
}

/// The reserved words, which never name a variable or a function.
pub open spec fn is_keyword(n: Seq<char>) -> bool {
    n == seq!['f', 'n'] || n == seq!['i', 'f'] || n == seq!['e', 'l', 's', 'e'] || n == seq![
        'w',
        'h',
        'i',
        'l',
        'e',
    ]
}

/// The first position at or after `pos` that does not hold whitespace.
pub open spec fn skip_ws(t: Seq<char>, pos: int) -> int
    decreases t.len() - pos,
{
    if 0 <= pos < t.len() && is_space_char(t[pos]) {
        skip_ws(t, pos + 1)
    } else {
        pos
    }
}

/// The first position at or after `pos` holding neither whitespace nor `;`.
pub open spec fn skip_seps(t: Seq<char>, pos: int) -> int
    decreases t.len() - pos,
{
    if 0 <= pos < t.len() && is_sep_char(t[pos]) {
        skip_seps(t, pos + 1)
    } else {
        pos
    }
}

/// The end of the identifier-character run starting at `pos`.
pub open spec fn scan_alnum(t: Seq<char>, pos: int) -> int
    decreases t.len() - pos,
{
    if 0 <= pos < t.len() && is_alnum_char(t[pos]) {
        scan_alnum(t, pos + 1)
    } else {
        pos
    }
}

/// The end of the digit run starting at `pos`.
pub open spec fn scan_digits(t: Seq<char>, pos: int) -> int
    decreases t.len() - pos,
{
    if 0 <= pos < t.len() && is_digit_char(t[pos]) {
        scan_digits(t, pos + 1)
    } else {
        pos
    }
}

/// An ASCII character.
pub open spec fn is_ascii_char(c: char) -> bool {
    '\0' <= c <= '\u{7f}'
}

/// The end of the ASCII run starting at `pos`: where the first character
/// outside ASCII stands, or the end of the text.
pub open spec fn scan_ascii(t: Seq<char>, pos: int) -> int
    decreases t.len() - pos,
{
    if 0 <= pos < t.len() && is_ascii_char(t[pos]) {
        scan_ascii(t, pos + 1)
    } else {
        pos
    }
}

/// The value of the digit run `t[pos .. end]`, read in base ten.
pub open spec fn num_val(t: Seq<char>, pos: int, end: int) -> nat
    decreases end - pos,
{
    if pos >= end {
        0
    } else {
        (num_val(t, pos, end - 1) * 10 + (t[end - 1] as u32) - 48) as nat
    }
}

/// Where an identifier starts and ends, if one stands at `pos` after
/// whitespace: a run of letters and digits that starts with a letter and
/// is not a keyword.
pub open spec fn ident_at(t: Seq<char>, pos: int) -> Option<(int, int)> {
    let q = skip_ws(t, pos);
    let e = scan_alnum(t, q);
    if q < t.len() && is_alpha_char(t[q]) && !is_keyword(t.subrange(q, e)) {
        Some((q, e))
    } else {
        None
    }
}

/// Where the keyword `kw` ends, if it stands at `pos` after whitespace
/// and is not merely the start of a longer name.
pub open spec fn kw_end(t: Seq<char>, pos: int, kw: Seq<char>) -> Option<int> {
    let q = skip_ws(t, pos);
    let e = q + kw.len();
    if e <= t.len() && t.subrange(q, e) == kw && (e == t.len() || !is_alnum_char(t[e])) {
        Some(e)
    } else {
        None
    }
}

pub proof fn lemma_skip_ws(t: Seq<char>, pos: int)
    requires
        0 <= pos <= t.len(),
    ensures
        pos <= skip_ws(t, pos) <= t.len(),
        skip_ws(t, pos) < t.len() ==> !is_space_char(t[skip_ws(t, pos)]),
        forall|i: int| pos <= i < skip_ws(t, pos) ==> is_space_char(#[trigger] t[i]),
    decreases t.len() - pos,
{
    if pos < t.len() && is_space_char(t[pos]) {
        lemma_skip_ws(t, pos + 1);
    }
}

pub proof fn lemma_skip_seps(t: Seq<char>, pos: int)
    requires
        0 <= pos <= t.len(),
    ensures
        pos <= skip_seps(t, pos) <= t.len(),
        skip_seps(t, pos) < t.len() ==> !is_sep_char(t[skip_seps(t, pos)]),
        forall|i: int| pos <= i < skip_seps(t, pos) ==> is_sep_char(#[trigger] t[i]),
    decreases t.len() - pos,
{
    if pos < t.len() && is_sep_char(t[pos]) {
        lemma_skip_seps(t, pos + 1);
    }
}

pub proof fn lemma_scan_alnum(t: Seq<char>, pos: int)
    requires
        0 <= pos <= t.len(),
    ensures
        pos <= scan_alnum(t, pos) <= t.len(),
        scan_alnum(t, pos) < t.len() ==> !is_alnum_char(t[scan_alnum(t, pos)]),
        forall|i: int| pos <= i < scan_alnum(t, pos) ==> is_alnum_char(#[trigger] t[i]),
    decreases t.len() - pos,
{
    if pos < t.len() && is_alnum_char(t[pos]) {
        lemma_scan_alnum(t, pos + 1);
    }
}

pub proof fn lemma_scan_digits(t: Seq<char>, pos: int)
    requires
        0 <= pos <= t.len(),
    ensures
        pos <= scan_digits(t, pos) <= t.len(),
        scan_digits(t, pos) < t.len() ==> !is_digit_char(t[scan_digits(t, pos)]),
        forall|i: int| pos <= i < scan_digits(t, pos) ==> is_digit_char(#[trigger] t[i]),
    decreases t.len() - pos,
{
    if pos < t.len() && is_digit_char(t[pos]) {
        lemma_scan_digits(t, pos + 1);
    }
}

pub proof fn lemma_scan_ascii(t: Seq<char>, pos: int)
    requires
        0 <= pos <= t.len(),
    ensures
        pos <= scan_ascii(t, pos) <= t.len(),
        scan_ascii(t, pos) < t.len() ==> !is_ascii_char(t[scan_ascii(t, pos)]),
        forall|i: int| pos <= i < scan_ascii(t, pos) ==> is_ascii_char(#[trigger] t[i]),
    decreases t.len() - pos,
{
    if pos < t.len() && is_ascii_char(t[pos]) {
        lemma_scan_ascii(t, pos + 1);
    }
}

/// A longer digit run never has a smaller value.
pub proof fn lemma_num_val_grows(t: Seq<char>, pos: int, i: int, end: int)
    requires
        pos <= i <= end,
        forall|j: int| pos <= j < end ==> is_digit_char(#[trigger] t[j]),
    ensures
        num_val(t, pos, i) <= num_val(t, pos, end),
    decreases end - i,
{
    if i < end {
        lemma_num_val_grows(t, pos, i + 1, end);
        assert(num_val(t, pos, i + 1) == (num_val(t, pos, i) * 10 + (t[i] as u32) - 48) as nat);
        assert(is_digit_char(t[i]));
    }
}

/// The length of the text, in characters.
pub(crate) fn char_len(s: &str) -> (n: usize)
    requires
        s.is_ascii(),
    ensures
        n == s@.len(),
{
    s.unicode_len()
}

/// Scans to the end of the whitespace starting at `pos`.
pub(crate) fn ws_end(s: &str, pos: usize) -> (r: usize)
    requires
        s.is_ascii(),
        pos as int <= s@.len(),
    ensures
        r as int == skip_ws(s@, pos as int),
        pos <= r,
        r as int <= s@.len(),
{
    proof {
        lemma_skip_ws(s@, pos as int);
    }
    let n = char_len(s);
    let mut i = pos;
    while i < n
        invariant
            s.is_ascii(),
            n == s@.len(),
            pos <= i <= n,
            skip_ws(s@, pos as int) == skip_ws(s@, i as int),
        decreases n - i,
    {
        let b = s.get_ascii(i);
        if b == 32 || b == 9 || b == 10 || b == 13 {
            proof {
                assert(is_space_char(s@[i as int]));
            }
            i += 1;
        } else {
            proof {
                assert(!is_space_char(s@[i as int]));
            }
            return i;
        }
    }
    i
}

/// Scans to the end of the whitespace and `;` run starting at `pos`.
pub(crate) fn seps_end(s: &str, pos: usize) -> (r: usize)
    requires
        s.is_ascii(),
        pos as int <= s@.len(),
    ensures
        r as int == skip_seps(s@, pos as int),
        pos <= r,
        r as int <= s@.len(),
{
    proof {
        lemma_skip_seps(s@, pos as int);
    }
    let n = char_len(s);
    let mut i = pos;
    while i < n
        invariant
            s.is_ascii(),
            n == s@.len(),
            pos <= i <= n,
            skip_seps(s@, pos as int) == skip_seps(s@, i as int),
        decreases n - i,
    {
        let b = s.get_ascii(i);
        if b == 32 || b == 9 || b == 10 || b == 13 || b == 59 {
            proof {
                assert(is_sep_char(s@[i as int]));
            }
            i += 1;
        } else {
            proof {
                assert(!is_sep_char(s@[i as int]));
            }
            return i;
        }
    }
    i
}

/// Scans to the end of the identifier-character run starting at `pos`.
pub(crate) fn alnum_end(s: &str, pos: usize) -> (r: usize)
    requires
        s.is_ascii(),
        pos as int <= s@.len(),
    ensures
        r as int == scan_alnum(s@, pos as int),
        pos <= r,
        r as int <= s@.len(),
{
    proof {
        lemma_scan_alnum(s@, pos as int);
    }
    let n = char_len(s);
    let mut i = pos;
    while i < n
        invariant
            s.is_ascii(),
            n == s@.len(),
            pos <= i <= n,
            scan_alnum(s@, pos as int) == scan_alnum(s@, i as int),
        decreases n - i,
    {
        let b = s.get_ascii(i);
        if (48 <= b && b <= 57) || (65 <= b && b <= 90) || (97 <= b && b <= 122) {
            proof {
                assert(is_alnum_char(s@[i as int]));
            }
            i += 1;
        } else {
            proof {
                assert(!is_alnum_char(s@[i as int]));
            }
            return i;
        }
    }
    i
}

/// Scans to the end of the digit run starting at `pos`.
pub(crate) fn digits_end(s: &str, pos: usize) -> (r: usize)
    requires
        s.is_ascii(),
        pos as int <= s@.len(),
    ensures
        r as int == scan_digits(s@, pos as int),
        pos <= r,
        r as int <= s@.len(),
{
    proof {
        lemma_scan_digits(s@, pos as int);
    }
    let n = char_len(s);
    let mut i = pos;
    while i < n
        invariant
            s.is_ascii(),
            n == s@.len(),
            pos <= i <= n,
            scan_digits(s@, pos as int) == scan_digits(s@, i as int),
        decreases n - i,
    {
        let b = s.get_ascii(i);
        if 48 <= b && b <= 57 {
            proof {
                assert(is_digit_char(s@[i as int]));
            }
            i += 1;
        } else {
            proof {
                assert(!is_digit_char(s@[i as int]));
            }
            return i;
        }
    }
    i
}

/// Scans to the end of the ASCII run at the start of the text.  Unlike
/// the scanners above, this one asks nothing of its input.
pub(crate) fn ascii_run_end(s: &str) -> (r: usize)
    ensures
        r as int == scan_ascii(s@, 0),
        r as int <= s@.len(),
{
    proof {
        lemma_scan_ascii(s@, 0);
    }
    let n = s.unicode_len();
    let mut i: usize = 0;
    while i < n
        invariant
            n == s@.len(),
            i <= n,
            scan_ascii(s@, 0) == scan_ascii(s@, i as int),
        decreases n - i,
    {
        let c = s.get_char(i);
        if (c as u32) < 128 {
            proof {
                assert('\0' <= c <= '\u{7f}');
                assert(is_ascii_char(s@[i as int]));
            }
            i += 1;
        } else {
            proof {
                assert(!(c <= '\u{7f}'));
                assert(!is_ascii_char(s@[i as int]));
            }
            return i;
        }
    }
    i
}

/// Tests whether `kw` (given again as its bytes) stands at `pos` after
/// whitespace, not merely opening a longer name.
pub(crate) fn kw_match<const N: usize>(
    s: &str,
    pos: usize,
    bytes: &[u8; N],
    Ghost(kw): Ghost<Seq<char>>,
) -> (r: Option<usize>)
    requires
        s.is_ascii(),
        pos as int <= s@.len(),
        N >= 1,
        kw.len() == N,
        forall|i: int|
            0 <= i < N ==> (#[trigger] kw[i]) as u32 == bytes@[i] as u32 && bytes@[i] < 128 && '\0'
                <= kw[i] <= '\u{7f}',
    ensures
        (match r {
            Some(p) => kw_end(s@, pos as int, kw) == Some(p as int) && pos < p && p as int
                <= s@.len(),
            None => kw_end(s@, pos as int, kw) is None,
        }),
{
    let n = char_len(s);
    let q = ws_end(s, pos);
    if n - q < N {
        proof {
            assert(kw_end(s@, pos as int, kw) is None);
        }
        return None;
    }
    let ghost sub = s@.subrange(q as int, q as int + N);
    let mut i: usize = 0;
    while i < N
        invariant
            s.is_ascii(),
            n == s@.len(),
            pos <= q,
            q as int == skip_ws(s@, pos as int),
            q + N <= n,
            i <= N,
            sub == s@.subrange(q as int, q as int + N),
            kw.len() == N,
            forall|j: int|
                0 <= j < N ==> (#[trigger] kw[j]) as u32 == bytes@[j] as u32 && bytes@[j] < 128
                    && '\0' <= kw[j] <= '\u{7f}',
            forall|j: int| 0 <= j < i ==> #[trigger] sub[j] == kw[j],
        decreases N - i,
    {
        let b = s.get_ascii(q + i);
        proof {
            assert(sub[i as int] == s@[q as int + i]);
            assert('\0' <= s@[q as int + i] <= '\u{7f}');
        }
        if b != bytes[i] {
            proof {
                assert(s@[q as int + i] as u32 != bytes@[i as int] as u32);
                assert(sub[i as int] != kw[i as int]);
                assert(sub != kw);
            }
            return None;
        }
        proof {
            assert(s@[q as int + i] as u32 == bytes@[i as int] as u32);
            assert(sub[i as int] as u32 == kw[i as int] as u32);
            assert(sub[i as int] == kw[i as int]);
        }
        i += 1;
    }
    proof {
        assert(sub =~= kw);
    }
    if q + N < n {
        let b2 = s.get_ascii(q + N);
        if (48 <= b2 && b2 <= 57) || (65 <= b2 && b2 <= 90) || (97 <= b2 && b2 <= 122) {
            proof {
                assert(is_alnum_char(s@[q as int + N]));
            }
            return None;
        }
        proof {
            assert(!is_alnum_char(s@[q as int + N]));
        }
    }
    Some(q + N)
}

/// Finds the identifier at `pos`, if one stands there: its start and end.
pub(crate) fn ident_bounds(s: &str, pos: usize) -> (r: Option<(usize, usize)>)
    requires
        s.is_ascii(),
        pos as int <= s@.len(),
    ensures
        (match r {
            Some(ae) => ident_at(s@, pos as int) == Some((ae.0 as int, ae.1 as int)) && pos <= ae.0
                < ae.1 && ae.1 as int <= s@.len(),
            None => ident_at(s@, pos as int) is None,
        }),
{
    let n = char_len(s);
    let q = ws_end(s, pos);
    let e = alnum_end(s, q);
    if q >= n {
        return None;
    }
    let b = s.get_ascii(q);
    if !((65 <= b && b <= 90) || (97 <= b && b <= 122)) {
        proof {
            assert(!is_alpha_char(s@[q as int]));
        }
        return None;
    }
    proof {
        assert(is_alpha_char(s@[q as int]));
        lemma_scan_alnum(s@, q as int);
        assert(is_alnum_char(s@[q as int]));
        assert(scan_alnum(s@, q as int) == scan_alnum(s@, q as int + 1));
        lemma_scan_alnum(s@, q as int + 1);
    }
    let ghost sub = s@.subrange(q as int, e as int);
    proof {
        assert(forall|j: int| 0 <= j < sub.len() ==> #[trigger] sub[j] == s@[q + j]);
        assert(forall|j: int|
            0 <= j < sub.len() ==> '\0' <= #[trigger] s@[q + j] <= '\u{7f}');
        assert(seq!['f', 'n'].len() == 2);
        assert(seq!['i', 'f'].len() == 2);
        assert(seq!['e', 'l', 's', 'e'].len() == 4);
        assert(seq!['w', 'h', 'i', 'l', 'e'].len() == 5);
    }
    let klen = e - q;
    let kw = if klen == 2 {
        let b0 = s.get_ascii(q);
        let b1 = s.get_ascii(q + 1);
        let hit = (b0 == 102 && b1 == 110) || (b0 == 105 && b1 == 102);
        proof {
            if hit {
                if b0 == 102 {
                    assert(sub =~= seq!['f', 'n']);
                } else {
                    assert(sub =~= seq!['i', 'f']);
                }
            } else {
                assert(sub != seq!['f', 'n'] && sub != seq!['i', 'f']) by {
                    assert(sub[0] == s@[q as int] && sub[1] == s@[q as int + 1]);
                }
            }
        }
        hit
    } else if klen == 4 {
        let b0 = s.get_ascii(q);
        let b1 = s.get_ascii(q + 1);
        let b2 = s.get_ascii(q + 2);
        let b3 = s.get_ascii(q + 3);
        let hit = b0 == 101 && b1 == 108 && b2 == 115 && b3 == 101;
        proof {
            if hit {
                assert(sub =~= seq!['e', 'l', 's', 'e']);
            } else {
                assert(sub != seq!['e', 'l', 's', 'e']) by {
                    assert(sub[0] == s@[q as int] && sub[1] == s@[q as int + 1] && sub[2] == s@[
                        q as int + 2] && sub[3] == s@[q as int + 3]);
                }
            }
        }
        hit
    } else if klen == 5 {
        let b0 = s.get_ascii(q);
        let b1 = s.get_ascii(q + 1);
        let b2 = s.get_ascii(q + 2);
        let b3 = s.get_ascii(q + 3);
        let b4 = s.get_ascii(q + 4);
        let hit = b0 == 119 && b1 == 104 && b2 == 105 && b3 == 108 && b4 == 101;
        proof {
            if hit {
                assert(sub =~= seq!['w', 'h', 'i', 'l', 'e']);
            } else {
                assert(sub != seq!['w', 'h', 'i', 'l', 'e']) by {
                    assert(sub[0] == s@[q as int] && sub[1] == s@[q as int + 1] && sub[2] == s@[
                        q as int + 2] && sub[3] == s@[q as int + 3] && sub[4] == s@[q as int + 4]);
                }
            }
        }
        hit
    } else {
        proof {
            assert(sub.len() != 2 && sub.len() != 4 && sub.len() != 5);
        }
        false
    };
    if kw {
        None
    } else {
        Some((q, e))
    }
}

} // verus!
