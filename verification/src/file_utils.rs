use crate::text::decimal;
use crate::text::decimal_digits;
use crate::text::join;
use vstd::prelude::*;

verus! {

/// The name of the file for a program that is saved at the second `now`.
pub fn program_file_name(now: usize) -> (name: String)
    ensures
        name@ == "program_"@ + decimal_digits(now as nat) + ".yaml"@,
{
    let digits = decimal(now);
    let head = join("program_", digits.as_str());
    join(head.as_str(), ".yaml")
}

/// The name of the file for the snapshot of the heap that belongs to
/// the program at `test_path`.
pub fn snapshot_file_name(test_path: &str) -> (name: String)
    ensures
        name@ == test_path@ + "_snapshot.yaml"@,
{
    join(test_path, "_snapshot.yaml")
}

/// Where the program `file_name` lies below the directory `dir`.
pub fn program_path(dir: &str, file_name: &str) -> (path: String)
    ensures
        path@ == dir@ + "/tests/"@ + file_name@ + ".yaml"@,
{
    let head = join(dir, "/tests/");
    let named = join(head.as_str(), file_name);
    join(named.as_str(), ".yaml")
}

/// Where the snapshot of the heap for the program `file_name` lies
/// below the directory `dir`.
pub fn snapshot_path(dir: &str, file_name: &str) -> (path: String)
    ensures
        path@ == dir@ + "/tests/"@ + file_name@ + "_snapshot.yaml"@,
{
    let head = join(dir, "/tests/");
    let named = join(head.as_str(), file_name);
    join(named.as_str(), "_snapshot.yaml")
}

} // verus!
