use vstd::prelude::*;
use vstd::string::StringExecFns;
use crate::types::OperationError;

verus! {

/// The kinds of entry that a tar archive can hold.
#[derive(Clone, Copy, Debug, PartialEq, Eq, Structural)]
pub enum EntryKind {
    Regular,
    Link,
    Symlink,
    Char,
    Block,
    Directory,
    Fifo,
    Continuous,
    GNULongName,
    GNULongLink,
    GNUSparse,
    XGlobalHeader,
    XHeader,
    /// A type flag that stands for none of the kinds above.
    Other(u8),
}

impl EntryKind {
    /// The kind that a type flag stands for.
    pub open spec fn spec_from_byte(flag: u8) -> EntryKind {
        if flag == 0 || flag == 48 {
            EntryKind::Regular
        } else if flag == 49 {
            EntryKind::Link
        } else if flag == 50 {
            EntryKind::Symlink
        } else if flag == 51 {
            EntryKind::Char
        } else if flag == 52 {
            EntryKind::Block
        } else if flag == 53 {
            EntryKind::Directory
        } else if flag == 54 {
            EntryKind::Fifo
        } else if flag == 55 {
            EntryKind::Continuous
        } else if flag == 120 {
            EntryKind::XHeader
        } else if flag == 103 {
            EntryKind::XGlobalHeader
        } else if flag == 76 {
            EntryKind::GNULongName
        } else if flag == 75 {
            EntryKind::GNULongLink
        } else if flag == 83 {
            EntryKind::GNUSparse
        } else {
            EntryKind::Other(flag)
        }
    }

    pub fn from_byte(flag: u8) -> (r: EntryKind)
        ensures
            r == Self::spec_from_byte(flag),
    {
        if flag == 0 || flag == 48 {
            EntryKind::Regular
        } else if flag == 49 {
            EntryKind::Link
        } else if flag == 50 {
            EntryKind::Symlink
        } else if flag == 51 {
            EntryKind::Char
        } else if flag == 52 {
            EntryKind::Block
        } else if flag == 53 {
            EntryKind::Directory
        } else if flag == 54 {
            EntryKind::Fifo
        } else if flag == 55 {
            EntryKind::Continuous
        } else if flag == 120 {
            EntryKind::XHeader
        } else if flag == 103 {
            EntryKind::XGlobalHeader
        } else if flag == 76 {
            EntryKind::GNULongName
        } else if flag == 75 {
            EntryKind::GNULongLink
        } else if flag == 83 {
            EntryKind::GNUSparse
        } else {
            EntryKind::Other(flag)
        }
    }

    /// A snapshot holds regular files and directories, nothing else.
    pub open spec fn spec_is_allowed(self) -> bool {
        self == EntryKind::Regular || self == EntryKind::Directory
    }

    pub fn is_allowed(&self) -> (r: bool)
        ensures
            r == self.spec_is_allowed(),
    {
        match self {
            EntryKind::Regular => true,
            EntryKind::Directory => true,
            _ => false,
        }
    }

    /// The name of the kind as error messages give it.
    pub open spec fn spec_name(self) -> Seq<char> {
        match self {
            EntryKind::Regular => "Regular"@,
            EntryKind::Link => "Link"@,
            EntryKind::Symlink => "Symlink"@,
            EntryKind::Char => "Char"@,
            EntryKind::Block => "Block"@,
            EntryKind::Directory => "Directory"@,
            EntryKind::Fifo => "Fifo"@,
            EntryKind::Continuous => "Continuous"@,
            EntryKind::GNULongName => "GNULongName"@,
            EntryKind::GNULongLink => "GNULongLink"@,
            EntryKind::GNUSparse => "GNUSparse"@,
            EntryKind::XGlobalHeader => "XGlobalHeader"@,
            EntryKind::XHeader => "XHeader"@,
            EntryKind::Other(_) => "unknown"@,
        }
    }

    pub fn name(&self) -> (r: &'static str)
        ensures
            r@ == self.spec_name(),
    {
        match self {
            EntryKind::Regular => "Regular",
            EntryKind::Link => "Link",
            EntryKind::Symlink => "Symlink",
            EntryKind::Char => "Char",
            EntryKind::Block => "Block",
            EntryKind::Directory => "Directory",
            EntryKind::Fifo => "Fifo",
            EntryKind::Continuous => "Continuous",
            EntryKind::GNULongName => "GNULongName",
            EntryKind::GNULongLink => "GNULongLink",
            EntryKind::GNUSparse => "GNUSparse",
            EntryKind::XGlobalHeader => "XGlobalHeader",
            EntryKind::XHeader => "XHeader",
            EntryKind::Other(_) => "unknown",
        }
    }
}

/// True when the entry can be read and is a regular file or a directory.
pub open spec fn entry_is_fine(entry: Option<u8>) -> bool {
    entry matches Some(flag) && EntryKind::spec_from_byte(flag).spec_is_allowed()
}

/// Position of the first entry from `from` on that is not fine, or the
/// number of entries where all are.
pub open spec fn first_offence(entries: Seq<Option<u8>>, from: int) -> int
    decreases entries.len() - from,
{
    if from < 0 || from >= entries.len() {
        entries.len() as int
    } else if !entry_is_fine(entries[from]) {
        from
    } else {
        first_offence(entries, from + 1)
    }
}

/// The message for an entry of a kind that a snapshot may not hold.
pub open spec fn offence_text(kind: EntryKind) -> Seq<char> {
    "Malformed snapshot, tar archive contains "@ + kind.spec_name() + " entry"@
}

/// The verdict says what the entries deserve: all fine, or the first
/// offence, which is an entry that cannot be read or one of a kind that a
/// snapshot may not hold.
pub open spec fn verdict_fits(verdict: Result<(), OperationError>, entries: Seq<Option<u8>>) -> bool {
    let at = first_offence(entries, 0);
    if at >= entries.len() {
        verdict is Ok
    } else {
        match entries[at] {
            None => verdict matches Err(OperationError::ServiceError { description })
                && description@ == "Failed to open snapshot archive, malformed format"@,
            Some(flag) => verdict matches Err(OperationError::ValidationError { description })
                && description@ == offence_text(EntryKind::spec_from_byte(flag)),
        }
    }
}

/// Judges the entries of a snapshot archive. What is wrong with an entry
/// that cannot be read is not told: it could give away what the file holds.
pub fn check_entry_types(entries: &Vec<Option<u8>>) -> (r: Result<(), OperationError>)
    ensures
        verdict_fits(r, entries@),
{
    let mut i: usize = 0;
    while i < entries.len()
        invariant
            i <= entries.len(),
            first_offence(entries@, 0) == first_offence(entries@, i as int),
        decreases entries.len() - i,
    {
        match entries[i] {
            None => {
                return Err(
                    OperationError::ServiceError {
                        description: "Failed to open snapshot archive, malformed format".to_string(),
                    },
                );
            },
            Some(flag) => {
                let kind: EntryKind = EntryKind::from_byte(flag);
                if !kind.is_allowed() {
                    let text: String = String::from_str(
                        "Malformed snapshot, tar archive contains ",
                    ).concat(kind.name()).concat(" entry");
                    return Err(OperationError::ValidationError { description: text });
                }
            },
        }
        i = i + 1;
    }
    Ok(())
}

} // verus!
