//! The Unicode emoji specification version that introduced a sequence.

use vstd::prelude::*;

verus! {

/// A Unicode version: a `(major, minor)` pair, totally ordered
/// lexicographically by major and then minor.
#[derive(Debug, Clone, Copy, PartialEq, Eq, Hash, Structural)]
pub struct UnicodeVersion {
    pub major: u32,
    pub minor: u32,
}

/// The lexicographic order on versions: compare majors, then minors.
pub open spec fn spec_version_cmp(a: UnicodeVersion, b: UnicodeVersion) -> core::cmp::Ordering {
    if a.major < b.major {
        core::cmp::Ordering::Less
    } else if a.major > b.major {
        core::cmp::Ordering::Greater
    } else if a.minor < b.minor {
        core::cmp::Ordering::Less
    } else if a.minor > b.minor {
        core::cmp::Ordering::Greater
    } else {
        core::cmp::Ordering::Equal
    }
}

impl UnicodeVersion {
    /// Construct a new version.
    pub fn new(major: u32, minor: u32) -> (v: Self)
        ensures
            v == (UnicodeVersion { major, minor }),
    {
        UnicodeVersion { major, minor }
    }

    pub fn major(self) -> (r: u32)
        ensures
            r == self.major,
    {
        self.major
    }

    pub fn minor(self) -> (r: u32)
        ensures
            r == self.minor,
    {
        self.minor
    }
}

impl core::cmp::PartialOrd for UnicodeVersion {
    fn partial_cmp(&self, other: &Self) -> (r: Option<core::cmp::Ordering>) {
        if self.major < other.major {
            Some(core::cmp::Ordering::Less)
        } else if self.major > other.major {
            Some(core::cmp::Ordering::Greater)
        } else if self.minor < other.minor {
            Some(core::cmp::Ordering::Less)
        } else if self.minor > other.minor {
            Some(core::cmp::Ordering::Greater)
        } else {
            Some(core::cmp::Ordering::Equal)
        }
    }
}

impl vstd::std_specs::cmp::PartialOrdSpecImpl for UnicodeVersion {
    open spec fn obeys_partial_cmp_spec() -> bool {
        true
    }

    open spec fn partial_cmp_spec(&self, other: &Self) -> Option<core::cmp::Ordering> {
        Some(spec_version_cmp(*self, *other))
    }
}

} // verus!
