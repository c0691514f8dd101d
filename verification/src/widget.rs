//! The desktop widget's view of the main application.
use crate::text::{
    ascii_lower_seq, ascii_lowercase, chars_of, contains_chars, contains_seq, decimal, decimal_of,
    string_of,
};
use vstd::prelude::*;

verus! {

/// Whether `tasklist /FI "IMAGENAME eq llama-switcher.exe"` output lists the
/// main application: its image name appears, ignoring ASCII case.
pub fn lists_switcher(tasklist_output: &str) -> (r: bool)
    ensures
        r == contains_seq(ascii_lower_seq(tasklist_output@), "llama-switcher.exe"@),
{
    let lower = ascii_lowercase(&chars_of(tasklist_output));
    contains_chars(&lower, &chars_of("llama-switcher.exe"))
}

/// Why a request to the main application failed: an HTTP error status with
/// the body it came with, or no answer at all (the application is not
/// running).
pub fn request_error(status: Option<u16>, detail: &str) -> (r: String)
    ensures
        match status {
            Some(code) => r@ == "Llama Switcher returned HTTP "@ + decimal(code as nat) + ": "@
                + detail@,
            None => r@ == "Llama Switcher is not running. Start the main app to enable live telemetry."@,
        },
{
    match status {
        Some(code) => {
            let mut t = chars_of("Llama Switcher returned HTTP ");
            let mut n = decimal_of(code as u64);
            t.append(&mut n);
            let mut sep = chars_of(": ");
            t.append(&mut sep);
            let mut d = chars_of(detail);
            t.append(&mut d);
            string_of(&t)
        },
        None => String::from_str(
            "Llama Switcher is not running. Start the main app to enable live telemetry.",
        ),
    }
}

} // verus!
