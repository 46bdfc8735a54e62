use vstd::prelude::*;
use vstd::string::*;

verus! {

/// The urgency class of a note.
#[derive(Debug, Clone, Copy, PartialEq, Eq, Structural)]
pub enum Priority {
    Low,
    Medium,
    High,
    Urgent,
}

/// Canonical lowercase name of a priority.
pub open spec fn priority_name(p: Priority) -> Seq<char> {
    match p {
        Priority::Low => seq!['l', 'o', 'w'],
        Priority::Medium => seq!['m', 'e', 'd', 'i', 'u', 'm'],
        Priority::High => seq!['h', 'i', 'g', 'h'],
        Priority::Urgent => seq!['u', 'r', 'g', 'e', 'n', 't'],
    }
}

/// The priority that an already lowercased word denotes: a full name or one
/// of the short aliases (l, m, med, h, u).
pub open spec fn priority_from_name(t: Seq<char>) -> Option<Priority> {
    if t == seq!['l', 'o', 'w'] || t == seq!['l'] {
        Some(Priority::Low)
    } else if t == seq!['m', 'e', 'd', 'i', 'u', 'm'] || t == seq!['m', 'e', 'd'] || t == seq!['m'] {
        Some(Priority::Medium)
    } else if t == seq!['h', 'i', 'g', 'h'] || t == seq!['h'] {
        Some(Priority::High)
    } else if t == seq!['u', 'r', 'g', 'e', 'n', 't'] || t == seq!['u'] {
        Some(Priority::Urgent)
    } else {
        None
    }
}

/// What `str::to_lowercase` makes of a text.
pub uninterp spec fn lower_of(s: Seq<char>) -> Seq<char>;

/// Relies on `str::to_lowercase`: the lowercase form depends on the characters alone.
#[verifier::external_body]
fn lowercase(s: &str) -> (r: String)
    ensures
        r@ == lower_of(s@),
{
    s.to_lowercase()
}

/// Whether two texts hold the same characters.
fn same_text(a: &str, b: &str) -> (r: bool)
    ensures
        r == (a@ == b@),
{
    let n = a.unicode_len();
    if n != b.unicode_len() {
        return false;
    }
    let mut i: usize = 0;
    while i < n
        invariant
            n == a@.len(),
            n == b@.len(),
            i <= n,
            forall|k: int| 0 <= k < i ==> a@[k] == b@[k],
        decreases n - i,
    {
        if a.get_char(i) != b.get_char(i) {
            return false;
        }
        i += 1;
    }
    assert(a@ =~= b@);
    true
}

/// Errors reported by the note repository and its validation rules.
#[derive(Debug, Clone, PartialEq, Eq)]
pub enum NoteError {
    /// A note's content was empty.
    EmptyContent,
    /// A priority word was none of the accepted names; holds the word as given.
    InvalidPriority(String),
    /// No note has the given identity.
    NotFound(i64),
    /// Every identity a note could receive has been handed out.
    IdsExhausted,
    /// A stored record cannot stand in the repository (missing, repeated or
    /// out-of-order identity); holds the record's identity, or 0 when it has none.
    CorruptRecord(i64),
}

/// The text that describes an error.
pub open spec fn error_text(e: NoteError) -> Seq<char> {
    match e {
        NoteError::EmptyContent => "Note content cannot be empty"@,
        NoteError::InvalidPriority(w) => "Invalid priority: "@ + w@ + ". Use: low, medium, high, urgent"@,
        NoteError::NotFound(_) => "Note not found"@,
        NoteError::IdsExhausted => "No note identity is left to assign"@,
        NoteError::CorruptRecord(_) => "A stored note record is malformed"@,
    }
}

impl NoteError {
    /// A human-readable description of the error; for an unknown priority
    /// it names the accepted ones.
    pub fn message(&self) -> (r: String)
        ensures
            r@ == error_text(*self),
    {
        match self {
            NoteError::EmptyContent => String::from_str("Note content cannot be empty"),
            NoteError::InvalidPriority(w) => {
                let mut r = String::from_str("Invalid priority: ");
                r.append(w.as_str());
                r.append(". Use: low, medium, high, urgent");
                r
            },
            NoteError::NotFound(_) => String::from_str("Note not found"),
            NoteError::IdsExhausted => String::from_str("No note identity is left to assign"),
            NoteError::CorruptRecord(_) => String::from_str("A stored note record is malformed"),
        }
    }
}

impl Priority {
    /// Parses a priority word that is already lowercase.
    pub fn from_lowercase(t: &str) -> (r: Option<Priority>)
        ensures
            r == priority_from_name(t@),
    {
        proof {
            reveal_strlit("low");
            reveal_strlit("l");
            reveal_strlit("medium");
            reveal_strlit("med");
            reveal_strlit("m");
            reveal_strlit("high");
            reveal_strlit("h");
            reveal_strlit("urgent");
            reveal_strlit("u");
            assert("low"@ =~= seq!['l', 'o', 'w']);
            assert("l"@ =~= seq!['l']);
            assert("medium"@ =~= seq!['m', 'e', 'd', 'i', 'u', 'm']);
            assert("med"@ =~= seq!['m', 'e', 'd']);
            assert("m"@ =~= seq!['m']);
            assert("high"@ =~= seq!['h', 'i', 'g', 'h']);
            assert("h"@ =~= seq!['h']);
            assert("urgent"@ =~= seq!['u', 'r', 'g', 'e', 'n', 't']);
            assert("u"@ =~= seq!['u']);
        }
        if same_text(t, "low") || same_text(t, "l") {
            Some(Priority::Low)
        } else if same_text(t, "medium") || same_text(t, "med") || same_text(t, "m") {
            Some(Priority::Medium)
        } else if same_text(t, "high") || same_text(t, "h") {
            Some(Priority::High)
        } else if same_text(t, "urgent") || same_text(t, "u") {
            Some(Priority::Urgent)
        } else {
            None
        }
    }

    /// Parses a priority word, ignoring case; an unknown word is rejected with
    /// an error that lists the accepted names.
    pub fn from_str(s: &str) -> (r: Result<Priority, NoteError>)
        ensures
            match priority_from_name(lower_of(s@)) {
                Some(p) => r == Ok::<Priority, NoteError>(p),
                None => r matches Err(NoteError::InvalidPriority(w)) && w@ == s@,
            },
    {
        let lower = lowercase(s);
        match Priority::from_lowercase(lower.as_str()) {
            Some(p) => Ok(p),
            None => Err(NoteError::InvalidPriority(String::from_str(s))),
        }
    }

    /// Canonical lowercase name, used both for storage and display.
    pub fn to_string(&self) -> (r: &'static str)
        ensures
            r@ == priority_name(*self),
    {
        proof {
            reveal_strlit("low");
            reveal_strlit("medium");
            reveal_strlit("high");
            reveal_strlit("urgent");
        }
        match self {
            Priority::Low => "low",
            Priority::Medium => "medium",
            Priority::High => "high",
            Priority::Urgent => "urgent",
        }
    }
}

/// Every accepted word, full name or alias, denotes the priority whose
/// canonical name denotes it too, and a canonical name parses back to its
/// own priority.
pub proof fn lemma_aliases_agree_with_names(t: Seq<char>)
    ensures
        priority_from_name(t) matches Some(p) ==> priority_from_name(priority_name(p)) == Some(p),
        forall|p: Priority| priority_from_name(#[trigger] priority_name(p)) == Some(p),
{
}

/// A persisted text entry. Timestamps count microseconds since the Unix
/// epoch, in UTC. `id` is absent only before the repository assigns one.
#[derive(Debug, Clone)]
pub struct Note {
    pub id: Option<i64>,
    pub content: String,
    pub priority: Priority,
    pub created_at: i64,
    pub updated_at: i64,
    pub is_archived: bool,
    pub tags: Vec<String>,
}

/// The texts of a list of strings.
pub open spec fn names(v: Seq<String>) -> Seq<Seq<char>> {
    v.map_values(|s: String| s@)
}

/// A note as plain values: texts as character sequences, tags as their texts.
pub struct NoteView {
    pub id: Option<i64>,
    pub content: Seq<char>,
    pub priority: Priority,
    pub created_at: i64,
    pub updated_at: i64,
    pub is_archived: bool,
    pub tags: Seq<Seq<char>>,
}

impl View for Note {
    type V = NoteView;

    open spec fn view(&self) -> NoteView {
        NoteView {
            id: self.id,
            content: self.content@,
            priority: self.priority,
            created_at: self.created_at,
            updated_at: self.updated_at,
            is_archived: self.is_archived,
            tags: names(self.tags@),
        }
    }
}

/// Counts over the notes that are not archived, taken at one moment.
#[derive(Debug, Clone, Copy, PartialEq, Eq, Structural)]
pub struct Stats {
    pub total: usize,
    pub today: usize,
    pub week: usize,
    pub month: usize,
    pub urgent: usize,
    pub high: usize,
    pub medium: usize,
    pub low: usize,
}

} // verus!
