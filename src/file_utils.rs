//! Where the stores live inside the application's data directory.
use vstd::prelude::*;
use vstd::string::*;

verus! {

/// `dir` joined with the relative name `name`, with one `/` between them
/// unless `dir` is empty or already ends in one.
pub open spec fn join_spec(dir: Seq<char>, name: Seq<char>) -> Seq<char> {
    if dir.len() == 0 {
        name
    } else if dir.last() == '/' {
        dir + name
    } else {
        dir + "/"@ + name
    }
}

/// The file of the metadata store inside the data directory `data_dir`.
pub fn metadata_db_path(data_dir: &str) -> (r: String)
    ensures
        r@ == join_spec(data_dir@, "md.db"@),
{
    let mut r = data_dir.to_owned();
    let n = data_dir.unicode_len();
    if n > 0 && data_dir.get_char(n - 1) != '/' {
        r.append("/");
    }
    r.append("md.db");
    r
}

} // verus!
