//! The phone scanner: detection of maximal runs of phone-like characters,
//! validation by digit count, and masking of all digits but the last four.
//!
//! A run opens at a digit, `+` or `(` and extends over digits, spaces, `-`,
//! `(`, `)` and `+`.  A run with at least five digits is right-trimmed to
//! its final digit and masked; a shorter run is left untouched and the scan
//! resumes after the whole run.

use vstd::prelude::*;

use crate::chars::digit_char;
use crate::chars::is_digit_char;
use crate::chars::is_phone_run_char;
use crate::chars::is_phone_start_char;
use crate::chars::phone_run_char;
use crate::chars::phone_start_char;
use crate::text::chars_of;
use crate::text::push_range;
use crate::text::string_from_chars;

verus! {

/// End of the maximal run of phone characters starting at `from`.
pub open spec fn phone_run_end(s: Seq<char>, from: int) -> int
    decreases s.len() - from when 0 <= from <= s.len()
{
    if from < s.len() && is_phone_run_char(s[from]) {
        phone_run_end(s, from + 1)
    } else {
        from
    }
}

/// Number of digit characters among `s[..k]`.
pub open spec fn digits_in(s: Seq<char>, k: int) -> int
    decreases k
{
    if k <= 0 {
        0
    } else {
        digits_in(s, k - 1) + if is_digit_char(s[k - 1]) {
            1int
        } else {
            0int
        }
    }
}

/// Number of digit characters in `s`.
pub open spec fn digit_count(s: Seq<char>) -> int {
    digits_in(s, s.len() as int)
}

/// Index of the last digit among `s[..k]`, or `-1` if there is none.
pub open spec fn last_digit_upto(s: Seq<char>, k: int) -> int
    decreases k
{
    if k <= 0 {
        -1
    } else if is_digit_char(s[k - 1]) {
        k - 1
    } else {
        last_digit_upto(s, k - 1)
    }
}

/// The masked form of a phone candidate: a digit is replaced by the mask
/// character iff the candidate holds more than four digits and the digit is
/// not among the last four; every other character is kept.
pub open spec fn masked_phone(c: Seq<char>, mc: char) -> Seq<char> {
    Seq::new(
        c.len(),
        |j: int|
            if is_digit_char(c[j]) && digit_count(c) > 4 && digits_in(c, j + 1) <= digit_count(c)
                - 4 {
                mc
            } else {
                c[j]
            },
    )
}

/// One phone pass over `s[last..]`, scanning at position `i`: every run of
/// phone characters holding at least five digits is trimmed to its final
/// digit and masked; shorter runs and everything else are copied verbatim.
pub open spec fn phone_scan(s: Seq<char>, mc: char, last: int, i: int) -> Seq<char>
    decreases s.len() - i when 0 <= last <= i <= s.len()
{
    if i >= s.len() {
        s.subrange(last, s.len() as int)
    } else if is_phone_start_char(s[i]) {
        let end = phone_run_end(s, i);
        let run = s.subrange(i, end);
        let ld = last_digit_upto(run, run.len() as int);
        let ce = i + ld + 1;
        if digit_count(run) >= 5 && 0 <= ld && ce <= s.len() {
            s.subrange(last, i) + masked_phone(s.subrange(i, ce), mc) + phone_scan(s, mc, ce, ce)
        } else {
            let adv = if i < end && end <= s.len() {
                end
            } else {
                i + 1
            };
            phone_scan(s, mc, last, adv)
        }
    } else {
        phone_scan(s, mc, last, i + 1)
    }
}

/// The phone pass over a whole text.
pub open spec fn masked_phones(s: Seq<char>, mc: char) -> Seq<char> {
    phone_scan(s, mc, 0, 0)
}

proof fn lemma_last_digit_upto_bounds(s: Seq<char>, k: int)
    requires
        0 <= k,
    ensures
        -1 <= last_digit_upto(s, k) < k,
    decreases k,
{
    if k > 0 && !is_digit_char(s[k - 1]) {
        lemma_last_digit_upto_bounds(s, k - 1);
    }
}

/// Length-count invariant of the phone pass: the output has exactly one
/// character for each input character in `s[last..]`.
pub proof fn lemma_phone_scan_len(s: Seq<char>, mc: char, last: int, i: int)
    requires
        0 <= last <= i <= s.len(),
    ensures
        phone_scan(s, mc, last, i).len() == s.len() - last,
    decreases s.len() - i,
{
    if i >= s.len() {
    } else if is_phone_start_char(s[i]) {
        let end = phone_run_end(s, i);
        let run = s.subrange(i, end);
        let ld = last_digit_upto(run, run.len() as int);
        let ce = i + ld + 1;
        lemma_last_digit_upto_bounds(run, run.len() as int);
        if digit_count(run) >= 5 && 0 <= ld && ce <= s.len() {
            lemma_phone_scan_len(s, mc, ce, ce);
        } else {
            let adv = if i < end && end <= s.len() {
                end
            } else {
                i + 1
            };
            lemma_phone_scan_len(s, mc, last, adv);
        }
    } else {
        lemma_phone_scan_len(s, mc, last, i + 1);
    }
}

proof fn lemma_phone_scan_no_start(s: Seq<char>, mc: char, last: int, i: int)
    requires
        0 <= last <= i <= s.len(),
        forall|k: int| i <= k < s.len() ==> !is_phone_start_char(#[trigger] s[k]),
    ensures
        phone_scan(s, mc, last, i) == s.subrange(last, s.len() as int),
    decreases s.len() - i,
{
    if i < s.len() {
        lemma_phone_scan_no_start(s, mc, last, i + 1);
    }
}

/// The phone pass substitutes one for one: the output character at any
/// position is the input character there, or the mask character standing in
/// for a digit.  Non-digit characters are never touched.
pub proof fn lemma_phone_scan_pointwise(s: Seq<char>, mc: char, last: int, i: int, j: int)
    requires
        0 <= last <= i <= s.len(),
        last <= j < s.len(),
    ensures
        phone_scan(s, mc, last, i)[j - last] == s[j] || (is_digit_char(s[j]) && phone_scan(
            s,
            mc,
            last,
            i,
        )[j - last] == mc),
    decreases s.len() - i,
{
    lemma_phone_scan_len(s, mc, last, i);
    if i >= s.len() {
    } else if is_phone_start_char(s[i]) {
        let end = phone_run_end(s, i);
        let run = s.subrange(i, end);
        let ld = last_digit_upto(run, run.len() as int);
        let ce = i + ld + 1;
        lemma_last_digit_upto_bounds(run, run.len() as int);
        if digit_count(run) >= 5 && 0 <= ld && ce <= s.len() {
            lemma_phone_scan_len(s, mc, ce, ce);
            if j >= ce {
                lemma_phone_scan_pointwise(s, mc, ce, ce, j);
            }
        } else {
            let adv = if i < end && end <= s.len() {
                end
            } else {
                i + 1
            };
            lemma_phone_scan_pointwise(s, mc, last, adv, j);
        }
    } else {
        lemma_phone_scan_pointwise(s, mc, last, i + 1, j);
    }
}

/// Text with no phone-opening character passes through the phone pass
/// unchanged.
pub proof fn lemma_masked_phones_passthrough(s: Seq<char>, mc: char)
    requires
        forall|k: int| 0 <= k < s.len() ==> !is_phone_start_char(#[trigger] s[k]),
    ensures
        masked_phones(s, mc) == s,
{
    lemma_phone_scan_no_start(s, mc, 0, 0);
    assert(s.subrange(0, s.len() as int) =~= s);
}

/// A text in which every phone-like run holds fewer than five digits
/// passes through the phone pass unchanged: short numeric fragments are
/// never partially masked.
pub proof fn lemma_phone_scan_short_runs(s: Seq<char>, mc: char, last: int, i: int)
    requires
        0 <= last <= i <= s.len(),
        forall|p: int|
            0 <= p < s.len() && is_phone_start_char(#[trigger] s[p]) ==> digit_count(
                s.subrange(p, phone_run_end(s, p)),
            ) < 5,
    ensures
        phone_scan(s, mc, last, i) == s.subrange(last, s.len() as int),
    decreases s.len() - i,
{
    if i < s.len() {
        if is_phone_start_char(s[i]) {
            let end = phone_run_end(s, i);
            let adv = if i < end && end <= s.len() {
                end
            } else {
                i + 1
            };
            lemma_phone_scan_short_runs(s, mc, last, adv);
        } else {
            lemma_phone_scan_short_runs(s, mc, last, i + 1);
        }
    }
}

/// In a masked candidate, the digits among the first `k` characters are
/// those of the original beyond the first `digit_count - 4`, provided the
/// mask character is not itself a digit.
proof fn lemma_digits_in_masked(c: Seq<char>, mc: char, k: int)
    requires
        !is_digit_char(mc),
        digit_count(c) > 4,
        0 <= k <= c.len(),
    ensures
        digits_in(masked_phone(c, mc), k) == if digits_in(c, k) <= digit_count(c) - 4 {
            0int
        } else {
            digits_in(c, k) - (digit_count(c) - 4)
        },
    decreases k,
{
    if k > 0 {
        lemma_digits_in_masked(c, mc, k - 1);
    }
}

/// Masking a phone candidate is idempotent: when the mask character is not
/// a digit, applying the masking policy to an already-masked candidate
/// yields it unchanged, because only the last four digits remain.
pub proof fn lemma_masked_phone_stable(c: Seq<char>, mc: char)
    requires
        !is_digit_char(mc),
    ensures
        masked_phone(masked_phone(c, mc), mc) == masked_phone(c, mc),
{
    let m = masked_phone(c, mc);
    if digit_count(c) > 4 {
        assert forall|k: int| 0 <= k <= c.len() implies digits_in(m, k) == if digits_in(c, k)
            <= digit_count(c) - 4 {
            0int
        } else {
            digits_in(c, k) - (digit_count(c) - 4)
        } by {
            lemma_digits_in_masked(c, mc, k);
        }
        assert(digit_count(m) == 4);
        assert(masked_phone(m, mc) =~= m);
    } else {
        assert(m =~= c);
        assert(masked_phone(m, mc) == masked_phone(c, mc));
    }
}

/// Mask the characters `s[lo..hi]` as one phone candidate.
pub(crate) fn mask_phone_chars(s: &Vec<char>, lo: usize, hi: usize, mc: char) -> (out: Vec<char>)
    requires
        lo <= hi <= s.len(),
    ensures
        out@ == masked_phone(s@.subrange(lo as int, hi as int), mc),
{
    let ghost c = s@.subrange(lo as int, hi as int);
    let n = hi - lo;
    let mut cnt: usize = 0;
    let mut j: usize = 0;
    while j < n
        invariant
            lo <= hi <= s.len(),
            n == hi - lo,
            c == s@.subrange(lo as int, hi as int),
            j <= n,
            cnt <= j,
            cnt == digits_in(c, j as int),
        decreases n - j,
    {
        if digit_char(s[lo + j]) {
            cnt = cnt + 1;
        }
        j = j + 1;
    }
    let mut out: Vec<char> = Vec::new();
    let mut run: usize = 0;
    j = 0;
    while j < n
        invariant
            lo <= hi <= s.len(),
            n == hi - lo,
            c == s@.subrange(lo as int, hi as int),
            j <= n,
            run <= j,
            run == digits_in(c, j as int),
            cnt == digit_count(c),
            out@.len() == j,
            forall|t: int| 0 <= t < j ==> out@[t] == masked_phone(c, mc)[t],
        decreases n - j,
    {
        let ch = s[lo + j];
        if digit_char(ch) {
            run = run + 1;
            if cnt > 4 && run <= cnt - 4 {
                out.push(mc);
            } else {
                out.push(ch);
            }
        } else {
            out.push(ch);
        }
        j = j + 1;
    }
    proof {
        assert(out@ =~= masked_phone(c, mc));
    }
    out
}

/// Mask one phone candidate: every digit but the last four is replaced by
/// `mask_char`; separators keep their position and value.
pub fn mask_phone_candidate(candidate: &str, mask_char: char) -> (r: String)
    ensures
        r@ == masked_phone(candidate@, mask_char),
        r@.len() == candidate@.len(),
        forall|j: int|
            0 <= j < candidate@.len() && !is_digit_char(candidate@[j]) ==> r@[j] == candidate@[j],
        forall|j: int|
            0 <= j < candidate@.len() && is_digit_char(candidate@[j]) && digits_in(candidate@, j + 1)
                > digit_count(candidate@) - 4 ==> r@[j] == candidate@[j],
{
    let v = chars_of(candidate);
    let out = mask_phone_chars(&v, 0, v.len(), mask_char);
    proof {
        assert(v@.subrange(0, v@.len() as int) =~= candidate@);
    }
    string_from_chars(&out)
}

/// Mask every phone number found in `input`: a maximal run of phone
/// characters with at least five digits, trimmed to its final digit, has
/// all digits but the last four replaced by `mask_char`.
pub fn mask_phones_in_text(input: &str, mask_char: char) -> (r: String)
    ensures
        r@ == masked_phones(input@, mask_char),
        r@.len() == input@.len(),
{
    let s = chars_of(input);
    let n = s.len();
    let mut out: Vec<char> = Vec::new();
    let mut last: usize = 0;
    let mut i: usize = 0;
    while i < n
        invariant
            n == s.len(),
            s@ == input@,
            last <= i <= n,
            out@.len() == last,
            out@ + phone_scan(s@, mask_char, last as int, i as int) == phone_scan(
                s@,
                mask_char,
                0,
                0,
            ),
        decreases n - i,
    {
        let ghost last0 = last as int;
        let ghost i0 = i as int;
        if phone_start_char(s[i]) {
            let mut end = i;
            while end < n && phone_run_char(s[end])
                invariant
                    i <= end <= n,
                    n == s.len(),
                    phone_run_end(s@, i as int) == phone_run_end(s@, end as int),
                decreases n - end,
            {
                end = end + 1;
            }
            proof {
                assert(phone_run_end(s@, i as int) == end);
            }
            let ghost run = s@.subrange(i0, end as int);
            let mut cnt: usize = 0;
            let mut ldig: usize = 0;
            let mut has_digit = false;
            let mut j = i;
            while j < end
                invariant
                    i <= j <= end <= n,
                    n == s.len(),
                    run == s@.subrange(i as int, end as int),
                    cnt <= j - i,
                    cnt == digits_in(run, j - i),
                    has_digit ==> i <= ldig < j && last_digit_upto(run, j - i) == ldig - i,
                    !has_digit ==> last_digit_upto(run, j - i) == -1,
                decreases end - j,
            {
                if digit_char(s[j]) {
                    cnt = cnt + 1;
                    ldig = j;
                    has_digit = true;
                }
                j = j + 1;
            }
            if has_digit && cnt >= 5 {
                let ce = ldig + 1;
                let ghost out0 = out@;
                push_range(&mut out, &s, last, i);
                let mut masked = mask_phone_chars(&s, i, ce, mask_char);
                out.append(&mut masked);
                proof {
                    assert(out@ =~= out0 + s@.subrange(last0, i0) + masked_phone(
                        s@.subrange(i0, ce as int),
                        mask_char,
                    ));
                    assert(phone_scan(s@, mask_char, last0, i0) == s@.subrange(last0, i0)
                        + masked_phone(s@.subrange(i0, ce as int), mask_char) + phone_scan(
                        s@,
                        mask_char,
                        ce as int,
                        ce as int,
                    ));
                    assert(out@ + phone_scan(s@, mask_char, ce as int, ce as int) =~= out0
                        + phone_scan(s@, mask_char, last0, i0));
                }
                last = ce;
                i = ce;
            } else {
                proof {
                    assert(phone_scan(s@, mask_char, last0, i0) == phone_scan(
                        s@,
                        mask_char,
                        last0,
                        end as int,
                    ));
                }
                i = end;
            }
        } else {
            i = i + 1;
        }
    }
    push_range(&mut out, &s, last, n);
    proof {
        assert(out@ == phone_scan(s@, mask_char, 0, 0));
        lemma_phone_scan_len(s@, mask_char, 0, 0);
    }
    string_from_chars(&out)
}

} // verus!
