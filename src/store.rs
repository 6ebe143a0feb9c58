//! Naming rules of the blueprint store: which files are blueprints, and the
//! name a blueprint is saved under.

use vstd::prelude::*;
use vstd::string::StringExecFns;

verus! {

/// The extension of a blueprint file.
pub open spec fn blueprint_extension() -> Seq<char> {
    seq!['t', 'x', 't']
}

/// A file is a blueprint when its extension is `txt`.
pub fn is_blueprint_extension(ext: &str) -> (r: bool)
    ensures
        r == (ext@ == blueprint_extension()),
{
    proof {
        reveal_strlit("txt");
    }
    let expected = "txt".to_owned();
    let given = ext.to_owned();
    assert(expected@ =~= blueprint_extension());
    given == expected
}

/// The file name a blueprint is stored under: the chosen name with the
/// blueprint extension, or else the source file's own name.
pub fn stored_file_name(custom: Option<&str>, source_name: &str) -> (r: String)
    ensures
        r@ == match custom {
            Some(v) => v@ + seq!['.'] + blueprint_extension(),
            None => source_name@,
        },
{
    match custom {
        Some(v) => {
            proof {
                reveal_strlit(".txt");
            }
            let mut name = v.to_owned();
            name.append(".txt");
            assert(name@ =~= v@ + seq!['.'] + blueprint_extension());
            name
        },
        None => source_name.to_owned(),
    }
}

} // verus!
