//! Choices that a command makes from its arguments and configuration.

use vstd::prelude::*;

verus! {

/// Which entry a command reads: the one named on the command line, else the
/// configured one, else `AUDIT_TRAIL`.
pub fn entry_name_or_default(given: Option<String>, configured: Option<String>) -> (r: String)
    ensures
        given is Some ==> r@ == given->0@,
        given is None && configured is Some ==> r@ == configured->0@,
        given is None && configured is None ==> r@ == "AUDIT_TRAIL"@,
{
    match given {
        Some(name) => name,
        None => match configured {
            Some(name) => name,
            None => "AUDIT_TRAIL".to_owned(),
        },
    }
}

/// The configured ignore value, or the empty string where none is set.
pub fn ignored_value_or_default(configured: Option<String>) -> (r: String)
    ensures
        configured is Some ==> r@ == configured->0@,
        configured is None ==> r@ == Seq::<char>::empty(),
{
    match configured {
        Some(value) => value,
        None => {
            proof {
                reveal_strlit("");
            }
            "".to_owned()
        },
    }
}

/// What an edit session came to.
#[derive(PartialEq, Eq, Structural, Debug, Clone, Copy)]
pub enum EditOutcome {
    Unchanged,
    Changed,
}

/// Compares the text before and after an edit.
pub fn edit_outcome(original: &String, edited: &String) -> (r: EditOutcome)
    ensures
        r == EditOutcome::Unchanged <==> original@ == edited@,
{
    if *original == *edited {
        EditOutcome::Unchanged
    } else {
        EditOutcome::Changed
    }
}

} // verus!
