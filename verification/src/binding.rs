//! The declaration of a matcher: which of the options written on it names the
//! needle set, and the table that the named set gets.
use vstd::prelude::*;

verus! {

/// One option of a matcher's declaration.
#[derive(Debug)]
pub enum BindingOption {
    /// `set` with a string literal: the bytes of the literal.
    Needles(Vec<u8>),
    /// `set` with a value that is no string literal.
    NotText,
    /// An option under any other name.
    Unknown,
}

/// Why a declaration names no needle set.
#[derive(Debug, Clone, Copy, PartialEq, Eq)]
pub enum BindingError {
    /// The value of `set` is no string literal.
    ExpectedText,
    /// An option has a name other than `set`.
    UnknownOption,
    /// No option list holds an option.
    MissingSet,
}

/// Whether `i` is the first option list that holds an option: that list
/// decides.
pub open spec fn is_deciding(lists: Seq<Vec<BindingOption>>, i: int) -> bool {
    &&& 0 <= i < lists.len()
    &&& lists[i]@.len() > 0
    &&& forall|k: int| 0 <= k < i ==> (#[trigger] lists[k])@.len() == 0
}

/// Whether `j` is the first option of the list that is no `set` with a string
/// literal.
pub open spec fn is_first_bad(options: Seq<BindingOption>, j: int) -> bool {
    &&& 0 <= j < options.len()
    &&& !(options[j] is Needles)
    &&& forall|k: int| 0 <= k < j ==> #[trigger] options[k] is Needles
}

/// Whether every option of the list is a `set` with a string literal.
pub open spec fn all_set(options: Seq<BindingOption>) -> bool {
    forall|k: int| 0 <= k < options.len() ==> #[trigger] options[k] is Needles
}

/// Whether `r` is what the option lists of a declaration name. The first list
/// that holds an option decides: its first option that is no `set` with a
/// string literal is the error; where it has none, its last `set` is the
/// needle set. Where every list is empty the set is missing.
pub open spec fn names_set(lists: Seq<Vec<BindingOption>>, r: Result<Seq<u8>, BindingError>) -> bool {
    match r {
        Ok(bytes) => exists|i: int| #[trigger]
            is_deciding(lists, i) && all_set(lists[i]@) && lists[i]@.last()->Needles_0@ == bytes,
        Err(BindingError::MissingSet) => forall|k: int|
            0 <= k < lists.len() ==> (#[trigger] lists[k])@.len() == 0,
        Err(BindingError::UnknownOption) => exists|i: int, j: int|
            is_deciding(lists, i) && #[trigger] is_first_bad(lists[i]@, j)
                && lists[i]@[j] is Unknown,
        Err(BindingError::ExpectedText) => exists|i: int, j: int|
            is_deciding(lists, i) && #[trigger] is_first_bad(lists[i]@, j)
                && lists[i]@[j] is NotText,
    }
}

/// Picks the needle set that a declaration names out of its option lists,
/// taken in the order in which they were written.
pub fn select_set(lists: &Vec<Vec<BindingOption>>) -> (r: Result<&Vec<u8>, BindingError>)
    ensures
        names_set(
            lists@,
            match r {
                Ok(bytes) => Ok(bytes@),
                Err(e) => Err(e),
            },
        ),
{
    let mut i: usize = 0;
    while i < lists.len()
        invariant
            i <= lists@.len(),
            forall|k: int| 0 <= k < i ==> (#[trigger] lists@[k])@.len() == 0,
        decreases lists@.len() - i,
    {
        let options = &lists[i];
        let mut found: Option<&Vec<u8>> = None;
        let mut j: usize = 0;
        while j < options.len()
            invariant
                j <= options@.len(),
                i < lists@.len(),
                options@ == lists@[i as int]@,
                forall|k: int| 0 <= k < i ==> (#[trigger] lists@[k])@.len() == 0,
                forall|k: int| 0 <= k < j ==> #[trigger] options@[k] is Needles,
                found is None <==> j == 0,
                j > 0 ==> found->Some_0@ == options@[j - 1]->Needles_0@,
            decreases options@.len() - j,
        {
            match &options[j] {
                BindingOption::Needles(bytes) => {
                    found = Some(bytes);
                },
                BindingOption::NotText => {
                    assert(is_first_bad(lists@[i as int]@, j as int));
                    assert(is_deciding(lists@, i as int));
                    return Err(BindingError::ExpectedText);
                },
                BindingOption::Unknown => {
                    assert(is_first_bad(lists@[i as int]@, j as int));
                    assert(is_deciding(lists@, i as int));
                    return Err(BindingError::UnknownOption);
                },
            }
            j += 1;
        }
        if let Some(bytes) = found {
            assert(is_deciding(lists@, i as int));
            assert(all_set(lists@[i as int]@));
            return Ok(bytes);
        }
        i += 1;
    }
    Err(BindingError::MissingSet)
}

} // verus!
