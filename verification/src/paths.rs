//! Choice of input source and output sink, classified from plain values.
//! The filesystem facts that a classification needs (does the path exist,
//! is it a regular file) are handed in by the caller, which owns all I/O.

use vstd::prelude::*;

verus! {

/// What the filesystem reports about a path.
#[derive(Clone, Copy, PartialEq, Eq, Structural, Debug)]
pub enum PathState {
    Missing,
    NotRegular,
    RegularFile,
}

/// Why an input or output name was rejected.
#[derive(Clone, Copy, PartialEq, Eq, Structural, Debug)]
pub enum PathError {
    DoesNotExist,
    NotAFile,
    AlreadyExists,
}

/// Where input comes from: standard input, selected by `-`, or a named
/// file, which must exist and be regular.
#[derive(Debug)]
pub enum InputType {
    Stdin,
    File(Vec<u8>),
}

/// Where output goes: standard output, selected by `-`, or a named file,
/// which must not exist yet.
#[derive(Debug)]
pub enum OutputType {
    Stdout,
    File(Vec<u8>),
}

/// Is the name the single dash that selects a standard stream?
pub open spec fn is_dash(name: Seq<u8>) -> bool {
    name.len() == 1 && name[0] == 45
}

impl InputType {
    /// Classifies an input name: `-` selects standard input; any other
    /// name must be an existing regular file.
    pub fn from_name(name: Vec<u8>, state: PathState) -> (r: Result<InputType, PathError>)
        ensures
            is_dash(name@) ==> (r matches Ok(t) && t is Stdin),
            !is_dash(name@) && state is RegularFile ==> (r matches Ok(InputType::File(p)) && p@
                == name@),
            !is_dash(name@) && state is Missing ==> r == Err::<InputType, PathError>(
                PathError::DoesNotExist,
            ),
            !is_dash(name@) && state is NotRegular ==> r == Err::<InputType, PathError>(
                PathError::NotAFile,
            ),
    {
        if name.len() == 1 && name[0] == 45 {
            Ok(InputType::Stdin)
        } else {
            match state {
                PathState::RegularFile => Ok(InputType::File(name)),
                PathState::Missing => Err(PathError::DoesNotExist),
                PathState::NotRegular => Err(PathError::NotAFile),
            }
        }
    }

    /// The argument-validation hook: accepts exactly the names that
    /// classify, with the same error otherwise.
    pub fn validate(name: Vec<u8>, state: PathState) -> (r: Result<(), PathError>)
        ensures
            r is Ok <==> is_dash(name@) || state is RegularFile,
            !is_dash(name@) && state is Missing ==> r == Err::<(), PathError>(
                PathError::DoesNotExist,
            ),
            !is_dash(name@) && state is NotRegular ==> r == Err::<(), PathError>(
                PathError::NotAFile,
            ),
    {
        match Self::from_name(name, state) {
            Ok(_) => Ok(()),
            Err(e) => Err(e),
        }
    }
}

impl OutputType {
    /// Classifies an output name: `-` selects standard output; any other
    /// name must not exist yet.
    pub fn from_name(name: Vec<u8>, exists: bool) -> (r: Result<OutputType, PathError>)
        ensures
            is_dash(name@) ==> (r matches Ok(t) && t is Stdout),
            !is_dash(name@) && !exists ==> (r matches Ok(OutputType::File(p)) && p@ == name@),
            !is_dash(name@) && exists ==> r == Err::<OutputType, PathError>(
                PathError::AlreadyExists,
            ),
    {
        if name.len() == 1 && name[0] == 45 {
            Ok(OutputType::Stdout)
        } else if exists {
            Err(PathError::AlreadyExists)
        } else {
            Ok(OutputType::File(name))
        }
    }

    /// The argument-validation hook: accepts exactly the names that
    /// classify, with the same error otherwise.
    pub fn validate(name: Vec<u8>, exists: bool) -> (r: Result<(), PathError>)
        ensures
            r is Ok <==> is_dash(name@) || !exists,
            !is_dash(name@) && exists ==> r == Err::<(), PathError>(PathError::AlreadyExists),
    {
        match Self::from_name(name, exists) {
            Ok(_) => Ok(()),
            Err(e) => Err(e),
        }
    }
}

} // verus!
