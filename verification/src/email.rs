//! The email scanner: anchor-and-expand detection of `local@domain` spans,
//! with backtracking domain validation, and masking of the local part.
//!
//! For every `@` in document order the scanner extends a local part backward
//! and a domain forward, shrinks the domain candidate from its right edge
//! until it validates, and on success emits the masked local part, the `@`,
//! and the domain verbatim.  On failure it leaves the text untouched and
//! continues one character past the `@`.

use vstd::prelude::*;

use crate::chars::alpha_char;
use crate::chars::domain_char;
use crate::chars::is_alpha_char;
use crate::chars::is_domain_char;
use crate::chars::is_local_char;
use crate::chars::local_char;
use crate::text::chars_of;
use crate::text::push_range;
use crate::text::push_repeat;
use crate::text::string_from_chars;

verus! {

/// Start of the maximal run of local-part characters ending at `at`,
/// never reaching back before `floor`.
pub open spec fn local_run_start(s: Seq<char>, at: int, floor: int) -> int
    decreases at - floor when 0 <= floor <= at
{
    if at > floor && is_local_char(s[at - 1]) {
        local_run_start(s, at - 1, floor)
    } else {
        at
    }
}

/// End of the maximal run of domain characters starting at `from`.
pub open spec fn domain_run_end(s: Seq<char>, from: int) -> int
    decreases s.len() - from when 0 <= from <= s.len()
{
    if from < s.len() && is_domain_char(s[from]) {
        domain_run_end(s, from + 1)
    } else {
        from
    }
}

/// Index of the last `.` among `d[..k]`, or `-1` if there is none.
pub open spec fn last_dot_upto(d: Seq<char>, k: int) -> int
    decreases k
{
    if k <= 0 {
        -1
    } else if d[k - 1] == '.' {
        k - 1
    } else {
        last_dot_upto(d, k - 1)
    }
}

/// Index of the last `.` in `d`, or `-1` if there is none.
pub open spec fn last_dot(d: Seq<char>) -> int {
    last_dot_upto(d, d.len() as int)
}

/// Position `k` of a domain respects the label rules: the character is a
/// letter, digit, `-` or `.`; no label is empty (no `.` directly followed by
/// another `.`); and no label starts or ends with `-`.
pub open spec fn domain_char_ok(d: Seq<char>, k: int) -> bool {
    &&& is_domain_char(d[k])
    &&& (d[k] == '.' && k + 1 < d.len() ==> d[k + 1] != '.')
    &&& (d[k] == '-' ==> 0 < k && k + 1 < d.len() && d[k - 1] != '.' && d[k + 1] != '.')
}

/// The final label (after the last dot) is purely alphabetic and at least
/// two characters long.
pub open spec fn tld_ok(d: Seq<char>) -> bool {
    &&& d.len() - (last_dot(d) + 1) >= 2
    &&& forall|k: int| last_dot(d) < k < d.len() ==> is_alpha_char(#[trigger] d[k])
}

/// A domain is valid iff it neither starts nor ends with `.`, splitting on
/// `.` yields at least two labels, every label is non-empty, consists of
/// letters, digits and `-`, and neither starts nor ends with `-`, and the
/// final label is alphabetic with length at least two.
pub open spec fn valid_domain(d: Seq<char>) -> bool {
    &&& d.len() > 0
    &&& d[0] != '.'
    &&& d[d.len() - 1] != '.'
    &&& last_dot(d) >= 0
    &&& (forall|k: int| 0 <= k < d.len() ==> #[trigger] domain_char_ok(d, k))
    &&& tld_ok(d)
}

/// Largest end position `v` with `ds < v <= e` such that `s[ds..v]` is a
/// valid domain; `ds` if there is none.
pub open spec fn best_domain_end(s: Seq<char>, ds: int, e: int) -> int
    decreases e - ds when ds <= e
{
    if e <= ds {
        ds
    } else if valid_domain(s.subrange(ds, e)) {
        e
    } else {
        best_domain_end(s, ds, e - 1)
    }
}

/// The masked form of a local part: the first character is kept and the
/// rest are replaced, one for one, by the mask character; a local part of a
/// single character becomes the mask character alone.
pub open spec fn masked_local(l: Seq<char>, mc: char) -> Seq<char> {
    if l.len() > 1 {
        Seq::new(l.len(), |j: int| if j == 0 { l[0] } else { mc })
    } else {
        seq![mc]
    }
}

/// One email pass over `s[last..]`, scanning at position `i`: every matched
/// email span is replaced by its masked form and everything else is copied
/// verbatim.  A match never reaches back before `last`, the end of the
/// previously emitted span.
pub open spec fn email_scan(s: Seq<char>, mc: char, last: int, i: int) -> Seq<char>
    decreases s.len() - i when 0 <= last <= i <= s.len()
{
    if i >= s.len() {
        s.subrange(last, s.len() as int)
    } else if s[i] == '@' {
        let ls = local_run_start(s, i, last);
        let ve = best_domain_end(s, i + 1, domain_run_end(s, i + 1));
        if ls < i && i + 1 < ve && ve <= s.len() {
            s.subrange(last, ls) + masked_local(s.subrange(ls, i), mc) + seq!['@']
                + s.subrange(i + 1, ve) + email_scan(s, mc, ve, ve)
        } else {
            email_scan(s, mc, last, i + 1)
        }
    } else {
        email_scan(s, mc, last, i + 1)
    }
}

/// The email pass over a whole text.
pub open spec fn masked_emails(s: Seq<char>, mc: char) -> Seq<char> {
    email_scan(s, mc, 0, 0)
}

proof fn lemma_local_run_start_bounds(s: Seq<char>, at: int, floor: int)
    requires
        0 <= floor <= at,
    ensures
        floor <= local_run_start(s, at, floor) <= at,
    decreases at - floor,
{
    if at > floor && is_local_char(s[at - 1]) {
        lemma_local_run_start_bounds(s, at - 1, floor);
    }
}

proof fn lemma_domain_run_end_bounds(s: Seq<char>, from: int)
    requires
        0 <= from <= s.len(),
    ensures
        from <= domain_run_end(s, from) <= s.len(),
    decreases s.len() - from,
{
    if from < s.len() && is_domain_char(s[from]) {
        lemma_domain_run_end_bounds(s, from + 1);
    }
}

proof fn lemma_best_domain_end_bounds(s: Seq<char>, ds: int, e: int)
    requires
        ds <= e,
    ensures
        ds <= best_domain_end(s, ds, e) <= e,
    decreases e - ds,
{
    if e > ds && !valid_domain(s.subrange(ds, e)) {
        lemma_best_domain_end_bounds(s, ds, e - 1);
    }
}

/// Length-count invariant of the email pass: the output has exactly one
/// character for each input character in `s[last..]`.
pub proof fn lemma_email_scan_len(s: Seq<char>, mc: char, last: int, i: int)
    requires
        0 <= last <= i <= s.len(),
    ensures
        email_scan(s, mc, last, i).len() == s.len() - last,
    decreases s.len() - i,
{
    if i >= s.len() {
    } else if s[i] == '@' {
        let ls = local_run_start(s, i, last);
        lemma_local_run_start_bounds(s, i, last);
        lemma_domain_run_end_bounds(s, i + 1);
        lemma_best_domain_end_bounds(s, i + 1, domain_run_end(s, i + 1));
        let ve = best_domain_end(s, i + 1, domain_run_end(s, i + 1));
        if ls < i && i + 1 < ve && ve <= s.len() {
            lemma_email_scan_len(s, mc, ve, ve);
        } else {
            lemma_email_scan_len(s, mc, last, i + 1);
        }
    } else {
        lemma_email_scan_len(s, mc, last, i + 1);
    }
}

proof fn lemma_local_run_chars(s: Seq<char>, at: int, floor: int)
    requires
        0 <= floor <= at,
    ensures
        forall|j: int| local_run_start(s, at, floor) <= j < at ==> is_local_char(#[trigger] s[j]),
    decreases at - floor,
{
    if at > floor && is_local_char(s[at - 1]) {
        lemma_local_run_chars(s, at - 1, floor);
    }
}

/// The email pass substitutes one for one: the output character at any
/// position is the input character there, or the mask character standing in
/// for a local-part character.  Characters outside the local-part class are
/// never touched.
pub proof fn lemma_email_scan_pointwise(s: Seq<char>, mc: char, last: int, i: int, j: int)
    requires
        0 <= last <= i <= s.len(),
        last <= j < s.len(),
    ensures
        email_scan(s, mc, last, i)[j - last] == s[j] || (is_local_char(s[j]) && email_scan(
            s,
            mc,
            last,
            i,
        )[j - last] == mc),
    decreases s.len() - i,
{
    lemma_email_scan_len(s, mc, last, i);
    if i >= s.len() {
    } else if s[i] == '@' {
        let ls = local_run_start(s, i, last);
        lemma_local_run_start_bounds(s, i, last);
        lemma_domain_run_end_bounds(s, i + 1);
        lemma_best_domain_end_bounds(s, i + 1, domain_run_end(s, i + 1));
        let ve = best_domain_end(s, i + 1, domain_run_end(s, i + 1));
        if ls < i && i + 1 < ve && ve <= s.len() {
            lemma_email_scan_len(s, mc, ve, ve);
            lemma_local_run_chars(s, i, last);
            if j >= ve {
                lemma_email_scan_pointwise(s, mc, ve, ve, j);
            }
        } else {
            lemma_email_scan_pointwise(s, mc, last, i + 1, j);
        }
    } else {
        lemma_email_scan_pointwise(s, mc, last, i + 1, j);
    }
}

/// Masking a local part is idempotent: applying the masking policy to an
/// already-masked local part yields it unchanged, whatever the mask
/// character.
pub proof fn lemma_masked_local_stable(l: Seq<char>, mc: char)
    ensures
        masked_local(masked_local(l, mc), mc) == masked_local(l, mc),
{
    if l.len() > 1 {
        assert(masked_local(masked_local(l, mc), mc) =~= masked_local(l, mc));
    } else {
        assert(masked_local(l, mc) == seq![mc]);
        assert(masked_local(seq![mc], mc) =~= seq![mc]);
    }
}

/// Mask a local part: the first character is kept and every remaining
/// character is replaced by `mask_char`; a local part of a single character
/// becomes the mask character alone.
pub fn mask_local(local: &str, mask_char: char) -> (r: String)
    ensures
        r@ == masked_local(local@, mask_char),
        local@.len() > 1 ==> r@.len() == local@.len() && r@[0] == local@[0],
{
    let v = chars_of(local);
    let mut out: Vec<char> = Vec::new();
    if v.len() > 1 {
        out.push(v[0]);
        push_repeat(&mut out, mask_char, v.len() - 1);
        proof {
            assert(out@ =~= masked_local(local@, mask_char));
        }
    } else {
        out.push(mask_char);
        proof {
            assert(out@ =~= masked_local(local@, mask_char));
        }
    }
    string_from_chars(&out)
}

/// Decide `valid_domain` for the characters `s[lo..hi]`.
pub(crate) fn valid_domain_range(s: &Vec<char>, lo: usize, hi: usize) -> (r: bool)
    requires
        lo <= hi <= s.len(),
    ensures
        r == valid_domain(s@.subrange(lo as int, hi as int)),
{
    let ghost d = s@.subrange(lo as int, hi as int);
    let n = hi - lo;
    if n == 0 {
        return false;
    }
    if s[lo] == '.' || s[hi - 1] == '.' {
        return false;
    }
    let mut k: usize = 0;
    let mut has_dot = false;
    let mut ld: usize = 0;
    while k < n
        invariant
            lo <= hi <= s.len(),
            n == hi - lo,
            d == s@.subrange(lo as int, hi as int),
            k <= n,
            forall|t: int| 0 <= t < k ==> #[trigger] domain_char_ok(d, t),
            has_dot ==> ld < k && last_dot_upto(d, k as int) == ld,
            !has_dot ==> last_dot_upto(d, k as int) == -1,
        decreases n - k,
    {
        let c = s[lo + k];
        let mut cok = domain_char(c);
        if c == '.' {
            if k + 1 < n && s[lo + k + 1] == '.' {
                cok = false;
            }
        } else if c == '-' {
            if k == 0 || k + 1 >= n {
                cok = false;
            } else if s[lo + k - 1] == '.' || s[lo + k + 1] == '.' {
                cok = false;
            }
        }
        proof {
            assert(cok == domain_char_ok(d, k as int));
        }
        if !cok {
            return false;
        }
        if c == '.' {
            has_dot = true;
            ld = k;
        }
        k = k + 1;
    }
    if !has_dot {
        return false;
    }
    if n - (ld + 1) < 2 {
        return false;
    }
    let mut k2 = ld + 1;
    while k2 < n
        invariant
            lo <= hi <= s.len(),
            n == hi - lo,
            d == s@.subrange(lo as int, hi as int),
            ld < k2 <= n,
            last_dot(d) == ld,
            forall|t: int| ld < t < k2 ==> is_alpha_char(#[trigger] d[t]),
        decreases n - k2,
    {
        if !alpha_char(s[lo + k2]) {
            proof {
                assert(!is_alpha_char(d[k2 as int]));
                assert(!tld_ok(d));
            }
            return false;
        }
        k2 = k2 + 1;
    }
    true
}

/// Whether a domain string is valid: at least two dot-separated non-empty
/// labels of letters, digits and `-`, none starting or ending with `-`, and
/// a purely alphabetic final label of length at least two.
pub fn is_valid_domain(domain: &str) -> (r: bool)
    ensures
        r == valid_domain(domain@),
{
    let v = chars_of(domain);
    let r = valid_domain_range(&v, 0, v.len());
    proof {
        assert(v@.subrange(0, v@.len() as int) =~= domain@);
    }
    r
}

/// Mask every email address found in `input`, replacing all but the first
/// character of each local part with `mask_char` and keeping domains
/// verbatim.
pub fn mask_emails_in_text(input: &str, mask_char: char) -> (r: String)
    ensures
        r@ == masked_emails(input@, mask_char),
        r@.len() == input@.len(),
{
    let s = chars_of(input);
    let n = s.len();
    let mut out: Vec<char> = Vec::new();
    let mut last: usize = 0;
    let mut i: usize = 0;
    while i < n
        invariant
            n == s.len(),
            s@ == input@,
            last <= i <= n,
            out@.len() == last,
            out@ + email_scan(s@, mask_char, last as int, i as int) == email_scan(
                s@,
                mask_char,
                0,
                0,
            ),
        decreases n - i,
    {
        let ghost last0 = last as int;
        let ghost i0 = i as int;
        if s[i] == '@' {
            let mut ls = i;
            while ls > last && local_char(s[ls - 1])
                invariant
                    last <= ls <= i,
                    i < n,
                    n == s.len(),
                    local_run_start(s@, i as int, last as int) == local_run_start(
                        s@,
                        ls as int,
                        last as int,
                    ),
                decreases ls,
            {
                ls = ls - 1;
            }
            proof {
                assert(local_run_start(s@, i as int, last as int) == ls);
            }
            let mut de = i + 1;
            while de < n && domain_char(s[de])
                invariant
                    i + 1 <= de <= n,
                    n == s.len(),
                    domain_run_end(s@, (i + 1) as int) == domain_run_end(s@, de as int),
                decreases n - de,
            {
                de = de + 1;
            }
            proof {
                assert(domain_run_end(s@, (i + 1) as int) == de);
            }
            let ghost sde = domain_run_end(s@, (i + 1) as int);
            let ghost sve = best_domain_end(s@, (i + 1) as int, sde);
            if ls < i && i + 1 < de {
                let mut ce = de;
                let mut ve: usize = i + 1;
                let mut found = false;
                while ce > i + 1 && !found
                    invariant
                        i + 1 <= ce <= de <= n,
                        n == s.len(),
                        !found ==> sve == best_domain_end(s@, (i + 1) as int, ce as int),
                        found ==> ve == ce && sve == ve && i + 1 < ve <= n,
                        sde == de,
                        sve == best_domain_end(s@, (i + 1) as int, sde),
                    decreases (if found { 0int } else { 1int }), ce,
                {
                    if valid_domain_range(&s, i + 1, ce) {
                        found = true;
                        ve = ce;
                        proof {
                            assert(best_domain_end(s@, (i + 1) as int, ce as int) == ce);
                        }
                    } else {
                        proof {
                            assert(best_domain_end(s@, (i + 1) as int, ce as int)
                                == best_domain_end(s@, (i + 1) as int, ce - 1));
                        }
                        ce = ce - 1;
                    }
                }
                if found {
                    let ghost out0 = out@;
                    push_range(&mut out, &s, last, ls);
                    if i - ls > 1 {
                        out.push(s[ls]);
                        push_repeat(&mut out, mask_char, i - ls - 1);
                    } else {
                        out.push(mask_char);
                    }
                    out.push('@');
                    push_range(&mut out, &s, i + 1, ve);
                    proof {
                        assert(out@ =~= out0 + s@.subrange(last0, ls as int) + masked_local(
                            s@.subrange(ls as int, i0),
                            mask_char,
                        ) + seq!['@'] + s@.subrange(i0 + 1, ve as int));
                        assert(email_scan(s@, mask_char, last0, i0) == s@.subrange(last0, ls as int)
                            + masked_local(s@.subrange(ls as int, i0), mask_char) + seq!['@']
                            + s@.subrange(i0 + 1, ve as int) + email_scan(
                            s@,
                            mask_char,
                            ve as int,
                            ve as int,
                        ));
                        assert(out@ + email_scan(s@, mask_char, ve as int, ve as int) =~= out0
                            + email_scan(s@, mask_char, last0, i0));
                    }
                    last = ve;
                    i = ve;
                } else {
                    proof {
                        assert(sve == i0 + 1);
                        assert(email_scan(s@, mask_char, last0, i0) == email_scan(
                            s@,
                            mask_char,
                            last0,
                            i0 + 1,
                        ));
                    }
                    i = i + 1;
                }
            } else {
                proof {
                    if !(ls < i) {
                        assert(email_scan(s@, mask_char, last0, i0) == email_scan(
                            s@,
                            mask_char,
                            last0,
                            i0 + 1,
                        ));
                    } else {
                        assert(sde == i0 + 1);
                        assert(sve == i0 + 1);
                        assert(email_scan(s@, mask_char, last0, i0) == email_scan(
                            s@,
                            mask_char,
                            last0,
                            i0 + 1,
                        ));
                    }
                }
                i = i + 1;
            }
        } else {
            i = i + 1;
        }
    }
    push_range(&mut out, &s, last, n);
    proof {
        assert(out@ == email_scan(s@, mask_char, 0, 0));
        lemma_email_scan_len(s@, mask_char, 0, 0);
    }
    string_from_chars(&out)
}

proof fn lemma_email_scan_no_at(s: Seq<char>, mc: char, last: int, i: int)
    requires
        0 <= last <= i <= s.len(),
        forall|k: int| i <= k < s.len() ==> s[k] != '@',
    ensures
        email_scan(s, mc, last, i) == s.subrange(last, s.len() as int),
    decreases s.len() - i,
{
    if i < s.len() {
        lemma_email_scan_no_at(s, mc, last, i + 1);
    }
}

/// A text in which no `@` has both a non-empty local part and a valid
/// domain passes through the email pass unchanged, the `@`s included.
pub proof fn lemma_email_scan_no_match(s: Seq<char>, mc: char, last: int, i: int)
    requires
        0 <= last <= i <= s.len(),
        forall|p: int|
            0 <= p < s.len() && s[p] == '@' ==> ((p == 0 || !is_local_char(#[trigger] s[p - 1]))
                || best_domain_end(s, p + 1, domain_run_end(s, p + 1)) <= p + 1),
    ensures
        email_scan(s, mc, last, i) == s.subrange(last, s.len() as int),
    decreases s.len() - i,
{
    if i < s.len() {
        if s[i] == '@' {
            assert(local_run_start(s, i, last) == i || best_domain_end(
                s,
                i + 1,
                domain_run_end(s, i + 1),
            ) <= i + 1);
        }
        lemma_email_scan_no_match(s, mc, last, i + 1);
    }
}

/// Text with no `@` passes through the email pass unchanged.
pub proof fn lemma_masked_emails_passthrough(s: Seq<char>, mc: char)
    requires
        forall|k: int| 0 <= k < s.len() ==> s[k] != '@',
    ensures
        masked_emails(s, mc) == s,
{
    lemma_email_scan_no_at(s, mc, 0, 0);
    assert(s.subrange(0, s.len() as int) =~= s);
}

} // verus!
