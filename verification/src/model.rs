use vstd::prelude::*;

verus! {

pub type EntryId = u64;

pub type FieldId = u32;

/// A field's purpose, with fixed matching rules and ranking priority.
///
/// Use one of the built-in constants; roles cannot be customized.
#[derive(Clone, Copy, Debug, PartialEq, Eq, Structural, Hash)]
pub enum Role {
    PrimaryName,
    LocalizedName,
    Alias,
    Keyword,
    Identifier,
}

/// The entry's main display name.
pub const PRIMARY_NAME: Role = Role::PrimaryName;

/// An alternate localized name.
pub const LOCALIZED_NAME: Role = Role::LocalizedName;

/// An alternate name or synonym.
pub const ALIAS: Role = Role::Alias;

/// Keywords or descriptive text; excluded from dictionary correction.
pub const KEYWORD: Role = Role::Keyword;

/// A technical identifier, matched by prefixes and whole-token correction.
pub const IDENTIFIER: Role = Role::Identifier;

impl Role {
    /// Ranking priority: a lower value ranks first.
    pub open spec fn spec_priority(self) -> u8 {
        match self {
            Role::PrimaryName => 0,
            Role::LocalizedName => 1,
            Role::Alias => 2,
            Role::Keyword => 3,
            Role::Identifier => 5,
        }
    }

    /// The fewest query characters for which the role can match.
    pub open spec fn spec_min_query_chars(self) -> u8 {
        match self {
            Role::PrimaryName | Role::LocalizedName => 1,
            Role::Alias | Role::Keyword => 2,
            Role::Identifier => 3,
        }
    }

    /// Whether a query may match inside the text or as a subsequence.
    pub open spec fn spec_allow_substring(self) -> bool {
        match self {
            Role::Keyword | Role::Identifier => false,
            _ => true,
        }
    }

    /// Whether a query with edits may match.
    pub open spec fn spec_allow_fuzzy(self) -> bool {
        match self {
            Role::Identifier => false,
            _ => true,
        }
    }

    /// Whether a dictionary correction may match.
    pub open spec fn spec_allow_correction(self) -> bool {
        match self {
            Role::Keyword => false,
            _ => true,
        }
    }

    /// Ranking priority: a lower value ranks first.
    pub fn priority(&self) -> (r: u8)
        ensures
            r == self.spec_priority(),
    {
        match self {
            Role::PrimaryName => 0,
            Role::LocalizedName => 1,
            Role::Alias => 2,
            Role::Keyword => 3,
            Role::Identifier => 5,
        }
    }

    /// The fewest query characters for which the role can match.
    pub fn min_query_chars(&self) -> (r: u8)
        ensures
            r == self.spec_min_query_chars(),
    {
        match self {
            Role::PrimaryName | Role::LocalizedName => 1,
            Role::Alias | Role::Keyword => 2,
            Role::Identifier => 3,
        }
    }

    /// Whether a query may match inside the text or as a subsequence.
    pub fn allow_substring(&self) -> (r: bool)
        ensures
            r == self.spec_allow_substring(),
    {
        match self {
            Role::Keyword | Role::Identifier => false,
            _ => true,
        }
    }

    /// Whether a query with edits may match.
    pub fn allow_fuzzy(&self) -> (r: bool)
        ensures
            r == self.spec_allow_fuzzy(),
    {
        match self {
            Role::Identifier => false,
            _ => true,
        }
    }

    /// Whether a dictionary correction may match.
    pub fn allow_correction(&self) -> (r: bool)
        ensures
            r == self.spec_allow_correction(),
    {
        match self {
            Role::Keyword => false,
            _ => true,
        }
    }
}

/// A searchable text of an entry, with its id and role.
#[derive(Clone, Debug)]
pub struct Field {
    pub id: FieldId,
    pub role: Role,
    pub text: String,
}

/// A searchable item: its id and its fields.
#[derive(Clone, Debug)]
pub struct Entry {
    pub id: EntryId,
    pub fields: Vec<Field>,
}

} // verus!
