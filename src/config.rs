//! Directory-level settings.

use crate::hrid::DEFAULT_DIGITS;
use vstd::prelude::*;

verus! {

/// Settings of a requirements directory.
#[derive(Debug, Clone)]
pub struct Config {
    /// The kinds that may be added; empty means any kind.
    pub allowed_kinds: Vec<String>,
    /// The width to which HRID ids are zero-padded.
    pub digits: usize,
    /// Whether files whose name or content cannot be read as a requirement
    /// are skipped on load rather than failing it.
    pub allow_unrecognised: bool,
}

impl Default for Config {
    fn default() -> (r: Config)
        ensures
            r.allowed_kinds@.len() == 0,
            r.digits == DEFAULT_DIGITS,
            !r.allow_unrecognised,
    {
        Config { allowed_kinds: Vec::new(), digits: DEFAULT_DIGITS, allow_unrecognised: false }
    }
}

/// `kind` may be added under `allowed`.
pub open spec fn kind_allowed(allowed: Seq<String>, kind: Seq<char>) -> bool {
    allowed.len() == 0 || exists|i: int| 0 <= i < allowed.len() && (#[trigger] allowed[i])@ == kind
}

impl Config {
    /// Whether `kind` may be added: any kind when the list is empty.
    pub fn allows_kind(&self, kind: &String) -> (r: bool)
        ensures
            r == kind_allowed(self.allowed_kinds@, kind@),
    {
        if self.allowed_kinds.len() == 0 {
            return true;
        }
        let mut i: usize = 0;
        while i < self.allowed_kinds.len()
            invariant
                i <= self.allowed_kinds@.len(),
                forall|k: int| 0 <= k < i ==> (#[trigger] self.allowed_kinds@[k])@ != kind@,
            decreases self.allowed_kinds@.len() - i,
        {
            if self.allowed_kinds[i] == *kind {
                return true;
            }
            i = i + 1;
        }
        false
    }
}

} // verus!
