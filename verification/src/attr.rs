use vstd::prelude::*;

verus! {

/// Mask that selects the file-type bits of a mode word.
pub const S_IFMT: u32 = 0o170000;

/// File-type bits of a character-special file.
pub const S_IFCHR: u32 = 0o020000;

/// The attributes of one path that the merge reads: the mode word and the
/// device number of a special file.
#[derive(Clone, Copy, Debug, PartialEq, Eq, Structural)]
pub struct FileAttr {
    pub mode: u32,
    pub rdev: u64,
}

impl FileAttr {
    /// The file-type bits of the mode word say "character-special".
    pub open spec fn spec_is_char_device(&self) -> bool {
        self.mode & S_IFMT == S_IFCHR
    }

    /// A deletion marker: a character-special file whose device number is 0.
    pub open spec fn spec_is_whiteout(&self) -> bool {
        self.spec_is_char_device() && self.rdev == 0
    }

    /// Whether the attributes are those of a character-special file.
    #[verifier::when_used_as_spec(spec_is_char_device)]
    pub fn is_char_device(&self) -> (r: bool)
        ensures
            r == self.spec_is_char_device(),
    {
        self.mode & S_IFMT == S_IFCHR
    }

    /// Whether the attributes are those of a deletion marker.
    #[verifier::when_used_as_spec(spec_is_whiteout)]
    pub fn is_whiteout(&self) -> (r: bool)
        ensures
            r == self.spec_is_whiteout(),
    {
        self.is_char_device() && self.rdev == 0
    }
}

} // verus!
