use vstd::prelude::*;
use vstd::string::{StrSliceExecFns, StringExecFns};

verus! {

/// The path of the file that stores the index `tree_name` under
/// `bin_directory`: the name with a `.bin` extension, joined to the
/// directory as a path is joined. A separator is added unless the
/// directory is empty or already ends in one, and an absolute name stands
/// alone.
pub open spec fn bin_file_path(bin_directory: Seq<char>, tree_name: Seq<char>) -> Seq<char> {
    let file = tree_name + seq!['.', 'b', 'i', 'n'];
    if bin_directory.len() == 0 || (tree_name.len() > 0 && tree_name[0] == '/') {
        file
    } else if bin_directory.last() == '/' {
        bin_directory + file
    } else {
        bin_directory + seq!['/'] + file
    }
}

/// The file that stores the index `tree_name` under `bin_directory`.
pub fn get_bin_file_path(bin_directory: &str, tree_name: &str) -> (r: String)
    ensures
        r@ == bin_file_path(bin_directory@, tree_name@),
{
    proof {
        reveal_strlit("/");
        reveal_strlit(".bin");
    }
    let dir_len = bin_directory.unicode_len();
    let absolute = tree_name.unicode_len() > 0 && tree_name.get_char(0) == '/';
    let mut r = if dir_len == 0 || absolute {
        String::new()
    } else if bin_directory.get_char(dir_len - 1) == '/' {
        String::from_str(bin_directory)
    } else {
        let mut d = String::from_str(bin_directory);
        d.append("/");
        d
    };
    r.append(tree_name);
    r.append(".bin");
    assert(r@ =~= bin_file_path(bin_directory@, tree_name@));
    r
}

} // verus!
