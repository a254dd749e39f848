use vstd::prelude::*;

verus! {

/// What the filesystem says of one path.
pub struct PathFacts {
    pub exists: bool,
    pub is_file: bool,
    pub is_dir: bool,
    /// The file name's extension, if it has one that is valid text.
    pub extension: Option<String>,
}

/// Why the command-line paths are refused.
#[derive(PartialEq, Eq, Structural, Debug, Clone, Copy)]
pub enum PathError {
    DbcMissing,
    DbcNotFile,
    DbcWrongExtension,
    InputMissing,
    InputNotDir,
    OutputNotDir,
}

/// Whether an extension is exactly `dbc`.
pub open spec fn is_dbc_extension(ext: Option<String>) -> bool {
    match ext {
        Some(e) => e@ == "dbc"@,
        None => false,
    }
}

/// The first rule, in order, that the three paths break, if any.
pub open spec fn path_verdict(dbc: PathFacts, input: PathFacts, output: PathFacts) -> Result<(), PathError> {
    if !dbc.exists {
        Err(PathError::DbcMissing)
    } else if !dbc.is_file {
        Err(PathError::DbcNotFile)
    } else if !is_dbc_extension(dbc.extension) {
        Err(PathError::DbcWrongExtension)
    } else if !input.exists {
        Err(PathError::InputMissing)
    } else if !input.is_dir {
        Err(PathError::InputNotDir)
    } else if output.exists && !output.is_dir {
        Err(PathError::OutputNotDir)
    } else {
        Ok(())
    }
}

/// Checks the database file (exists, is a file, has the `dbc` extension),
/// the input folder (exists, is a folder) and the output folder (a folder if
/// it exists), in that order.
pub fn validate_paths(dbc: &PathFacts, input: &PathFacts, output: &PathFacts) -> (r: Result<(), PathError>)
    ensures
        r == path_verdict(*dbc, *input, *output),
{
    let dbc_ext = match &dbc.extension {
        Some(e) => *e == "dbc".to_owned(),
        None => false,
    };
    if !dbc.exists {
        Err(PathError::DbcMissing)
    } else if !dbc.is_file {
        Err(PathError::DbcNotFile)
    } else if !dbc_ext {
        Err(PathError::DbcWrongExtension)
    } else if !input.exists {
        Err(PathError::InputMissing)
    } else if !input.is_dir {
        Err(PathError::InputNotDir)
    } else if output.exists && !output.is_dir {
        Err(PathError::OutputNotDir)
    } else {
        Ok(())
    }
}

} // verus!
