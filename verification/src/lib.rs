//! Masking of personally identifiable information — email addresses and
//! phone numbers — embedded in free-form text.  All other characters are
//! passed through unchanged, one for one.

use vstd::prelude::*;

mod chars;
mod email;
mod phone;
mod text;

pub use crate::chars::is_domain_byte;
pub use crate::chars::is_local_byte;
pub use crate::chars::is_phone_char;
pub use crate::chars::is_phone_start;
pub use crate::email::is_valid_domain;
pub use crate::email::mask_emails_in_text;
pub use crate::email::mask_local;
pub use crate::email::masked_emails;
pub use crate::phone::mask_phone_candidate;
pub use crate::phone::mask_phones_in_text;
pub use crate::phone::masked_phones;

verus! {

/// A configurable masker for common PII such as emails and phone numbers.
///
/// Built once through the fluent methods below, then shared freely: a
/// `Masker` is never mutated after construction.
pub struct Masker {
    mask_email: bool,
    mask_phone: bool,
    mask_char: char,
}

impl Masker {
    /// Whether email masking is enabled.
    pub closed spec fn spec_mask_email(&self) -> bool {
        self.mask_email
    }

    /// Whether phone masking is enabled.
    pub closed spec fn spec_mask_phone(&self) -> bool {
        self.mask_phone
    }

    /// The configured substitution character.
    pub closed spec fn spec_mask_char(&self) -> char {
        self.mask_char
    }

    /// What `process` returns: the email pass if enabled, then the phone
    /// pass if enabled, over the input characters.
    pub open spec fn process_spec(&self, s: Seq<char>) -> Seq<char> {
        let e = if self.spec_mask_email() {
            masked_emails(s, self.spec_mask_char())
        } else {
            s
        };
        if self.spec_mask_phone() {
            masked_phones(e, self.spec_mask_char())
        } else {
            e
        }
    }

    /// Create a new masker with all masks disabled by default.
    pub fn new() -> (r: Self)
        ensures
            !r.spec_mask_email(),
            !r.spec_mask_phone(),
            r.spec_mask_char() == '*',
    {
        Masker { mask_email: false, mask_phone: false, mask_char: '*' }
    }

    /// Enable email address masking.
    pub fn mask_emails(self) -> (r: Self)
        ensures
            r.spec_mask_email(),
            r.spec_mask_phone() == self.spec_mask_phone(),
            r.spec_mask_char() == self.spec_mask_char(),
    {
        Masker { mask_email: true, mask_phone: self.mask_phone, mask_char: self.mask_char }
    }

    /// Enable phone number masking.
    pub fn mask_phones(self) -> (r: Self)
        ensures
            r.spec_mask_phone(),
            r.spec_mask_email() == self.spec_mask_email(),
            r.spec_mask_char() == self.spec_mask_char(),
    {
        Masker { mask_email: self.mask_email, mask_phone: true, mask_char: self.mask_char }
    }

    /// Set the character used for masking.  Any character is accepted and
    /// used literally.
    pub fn with_mask_char(self, c: char) -> (r: Self)
        ensures
            r.spec_mask_email() == self.spec_mask_email(),
            r.spec_mask_phone() == self.spec_mask_phone(),
            r.spec_mask_char() == c,
    {
        Masker { mask_email: self.mask_email, mask_phone: self.mask_phone, mask_char: c }
    }

    /// Process input text and mask enabled PII patterns.  The output always
    /// has exactly as many characters as the input, every output character
    /// is the input character at the same position or the mask character,
    /// and with both masks disabled the output is the input itself.
    pub fn process(&self, input: &str) -> (r: String)
        ensures
            r@ == self.process_spec(input@),
            r@.len() == input@.len(),
            forall|j: int|
                0 <= j < input@.len() ==> r@[j] == input@[j] || r@[j] == self.spec_mask_char(),
            !self.spec_mask_email() && !self.spec_mask_phone() ==> r@ == input@,
    {
        let mut result = input.to_owned();
        if self.mask_email {
            result = mask_emails_in_text(result.as_str(), self.mask_char);
        }
        if self.mask_phone {
            result = mask_phones_in_text(result.as_str(), self.mask_char);
        }
        proof {
            let s = input@;
            let mc = self.spec_mask_char();
            let e = if self.spec_mask_email() {
                masked_emails(s, mc)
            } else {
                s
            };
            if self.spec_mask_email() {
                crate::email::lemma_email_scan_len(s, mc, 0, 0);
            }
            assert forall|j: int| 0 <= j < s.len() implies result@[j] == s[j] || result@[j] == mc by {
                if self.spec_mask_email() {
                    crate::email::lemma_email_scan_pointwise(s, mc, 0, 0, j);
                }
                if self.spec_mask_phone() {
                    crate::phone::lemma_phone_scan_pointwise(e, mc, 0, 0, j);
                }
            }
        }
        result
    }
}

impl Default for Masker {
    /// Same configuration as `Masker::new`.
    fn default() -> (r: Self)
        ensures
            !r.spec_mask_email(),
            !r.spec_mask_phone(),
            r.spec_mask_char() == '*',
    {
        Masker::new()
    }
}

} // verus!
