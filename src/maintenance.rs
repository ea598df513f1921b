//! Error wrapping and the names of dataset backups.
use vstd::prelude::*;
use vstd::string::*;

verus! {

/// The name of a backup of the dataset taken at the time `stamp`.
pub open spec fn backup_name_of(kind: Seq<char>, stamp: Seq<char>) -> Seq<char> {
    kind + "_"@ + stamp + ".json"@
}

/// Passes a success through; prefixes a failure's message with the name of
/// the operation that failed, as `name: message`.
pub fn safe_file_operation<T>(outcome: Result<T, String>, operation_name: &str) -> (r: Result<
    T,
    String,
>)
    ensures
        outcome is Ok ==> r == outcome,
        outcome is Err ==> r is Err && r->Err_0@ == operation_name@ + ": "@ + outcome->Err_0@,
{
    match outcome {
        Ok(v) => Ok(v),
        Err(e) => {
            let mut msg = String::from_str(operation_name);
            msg.append(": ");
            msg.append(e.as_str());
            Err(msg)
        },
    }
}

/// The file name of a backup of kind `kind` taken at the time `stamp`.
pub fn backup_file_name(kind: &str, stamp: &str) -> (r: String)
    ensures
        r@ == backup_name_of(kind@, stamp@),
{
    let mut name = String::from_str(kind);
    name.append("_");
    name.append(stamp);
    name.append(".json");
    name
}

} // verus!
