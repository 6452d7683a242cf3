//! Naming the video that a recording is encoded into: `output.mp4`, or
//! `output1.mp4`, `output2.mp4` and so on, the first name not yet taken in
//! the output directory.

use vstd::prelude::*;
use crate::text::{decimal, decimal_string};

verus! {

/// The name of the `index`-th candidate output file.
pub open spec fn output_name_spec(index: nat) -> Seq<char> {
    if index == 0 {
        "output.mp4"@
    } else {
        "output"@ + decimal(index) + ".mp4"@
    }
}

/// The name of the `index`-th candidate output file.
pub fn output_file_name(index: u64) -> (r: String)
    ensures
        r@ == output_name_spec(index as nat),
{
    if index == 0 {
        String::from_str("output.mp4")
    } else {
        let mut name = String::from_str("output");
        let number = decimal_string(index);
        name.append(number.as_str());
        name.append(".mp4");
        name
    }
}

/// A path on the file system, as std holds it.
#[verifier::external_type_specification]
#[verifier::external_body]
pub struct ExPathBuf(std::path::PathBuf);

/// The path of `file_name` in directory `dir`:
/// `std::path::Path::new(dir).join(file_name)`.  How the two are joined
/// depends on the platform's separator, so nothing is claimed of it.
#[verifier::external_body]
fn join_path(dir: &str, file_name: &str) -> (r: std::path::PathBuf) {
    std::path::Path::new(dir).join(file_name)
}

/// Whether something exists at `path`: `std::path::Path::exists`.  What it
/// answers depends on the disk at the moment of the call, so nothing is
/// claimed of it.
#[verifier::external_body]
fn path_exists(path: &std::path::PathBuf) -> (r: bool) {
    path.exists()
}

/// `taken`, asked about the `index`-th candidate output name, answered
/// `answer`.
pub open spec fn answered<F: Fn(&str) -> bool>(taken: F, index: nat, answer: bool) -> bool {
    exists|name: &str| name@ == output_name_spec(index) && #[trigger] taken.ensures((name,), answer)
}

/// The first candidate output name that `taken` does not report as taken,
/// asking about the candidates in turn.  Should every candidate up to the
/// last `u64` be taken, that last one is returned.
pub fn first_free_output_name<F: Fn(&str) -> bool>(taken: F) -> (r: String)
    requires
        forall|name: &str| #[trigger] taken.requires((name,)),
    ensures
        exists|k: nat|
            {
                &&& r@ == output_name_spec(k)
                &&& k <= u64::MAX
                &&& k < u64::MAX ==> answered(taken, k, false)
                &&& forall|j: nat| j < k ==> #[trigger] answered(taken, j, true)
            },
{
    let mut index: u64 = 0;
    while index < u64::MAX
        invariant
            index <= u64::MAX,
            forall|name: &str| #[trigger] taken.requires((name,)),
            forall|j: nat| j < index ==> #[trigger] answered(taken, j, true),
        decreases u64::MAX - index,
    {
        let file_name = output_file_name(index);
        let name = file_name.as_str();
        let is_taken = taken(name);
        if !is_taken {
            assert(answered(taken, index as nat, false));
            return file_name;
        }
        assert(answered(taken, index as nat, true));
        index = index + 1;
    }
    output_file_name(index)
}

/// The first candidate output name that does not exist in `output_dir`,
/// asking the disk about the candidates in turn.  Should every candidate up
/// to the last `u64` be taken, that last one is returned.
pub fn find_next_output_filename(output_dir: &str) -> (r: String)
    ensures
        exists|k: nat| r@ == output_name_spec(k),
{
    first_free_output_name(|name: &str| path_exists(&join_path(output_dir, name)))
}

} // verus!
