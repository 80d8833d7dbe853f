//! Agent images are plain directory trees, unpacked from an image tarball with its ownership
//! intact.

use crate::strings;
use vstd::prelude::*;

verus! {

/// How an image is unpacked. Device nodes cannot be created in a user namespace; sandboxes mount
/// their own `/dev`.
pub open spec fn unpacking(dir: Seq<char>) -> Seq<Seq<char>> {
    seq![
        "-x"@,
        "-p"@,
        "--numeric-owner"@,
        "--exclude=dev/*"@,
        "--exclude=.dockerenv"@,
        "-C"@,
        dir,
    ]
}

/// An image is unpacked into the directory that is given, with its permissions and its owners as
/// numbers, and without its devices.
pub proof fn law_an_image_is_unpacked_where_it_belongs(dir: Seq<char>)
    ensures
        unpacking(dir).contains("-x"@),
        unpacking(dir).contains("-p"@),
        unpacking(dir).contains("--numeric-owner"@),
        unpacking(dir).contains("--exclude=dev/*"@),
        unpacking(dir).contains("--exclude=.dockerenv"@),
        unpacking(dir).len() == 7,
        unpacking(dir)[5] == "-C"@,
        unpacking(dir)[6] == dir,
{
    let all = unpacking(dir);
    assert(all[0] == "-x"@);
    assert(all[1] == "-p"@);
    assert(all[2] == "--numeric-owner"@);
    assert(all[3] == "--exclude=dev/*"@);
    assert(all[4] == "--exclude=.dockerenv"@);
}

/// The arguments of `tar` that unpack an image into a directory.
pub fn import_arguments(dir: &str) -> (arguments: Vec<String>)
    ensures
        strings::texts(arguments@) == unpacking(dir@),
{
    let arguments: Vec<String> = vec![
        "-x".to_owned(),
        "-p".to_owned(),
        "--numeric-owner".to_owned(),
        "--exclude=dev/*".to_owned(),
        "--exclude=.dockerenv".to_owned(),
        "-C".to_owned(),
        dir.to_owned(),
    ];
    assert(strings::texts(arguments@) =~= unpacking(dir@));
    arguments
}

} // verus!
