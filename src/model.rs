use vstd::prelude::*;
use vstd::string::StringExecFns;

verus! {

/// The directory that holds downloaded embedding models.
pub open spec fn model_dir() -> Seq<char> {
    "./models"@
}

/// Where the model `name` is kept: the model directory, a slash, the name.
pub fn model_path(model_name: &str) -> (r: String)
    ensures
        r@ == model_dir() + "/"@ + model_name@,
{
    let mut p = String::from_str("./models");
    p.append("/");
    p.append(model_name);
    p
}

/// Whether the model `model_name` is among `entries`, the names found in the model
/// directory.
pub fn model_exists(model_name: &str, entries: &Vec<String>) -> (r: bool)
    ensures
        r <==> exists|i: int| 0 <= i < entries@.len() && (#[trigger] entries@[i])@ == model_name@,
{
    let name = model_name.to_owned();
    let mut i: usize = 0;
    while i < entries.len()
        invariant
            i <= entries@.len(),
            name@ == model_name@,
            forall|j: int| 0 <= j < i ==> (#[trigger] entries@[j])@ != model_name@,
        decreases entries@.len() - i,
    {
        if entries[i] == name {
            return true;
        }
        i = i + 1;
    }
    false
}

} // verus!
