//! The names of the files that the compiler writes, derived from the name
//! of the BF source file.
use crate::bfir::collect_chars;
use vstd::prelude::*;
use vstd::string::{StrSliceExecFns, StringExecFns};

verus! {

/// The index of the last `.` among the first `n` characters, if any.
pub open spec fn last_dot(s: Seq<char>, n: int) -> Option<int>
    decreases n,
{
    if n <= 0 || n > s.len() {
        None
    } else if s[n - 1] == '.' {
        Some(n - 1)
    } else {
        last_dot(s, n - 1)
    }
}

/// The name without its last extension: everything before the last `.`,
/// or the whole name if it has no `.`.
pub open spec fn without_extension(s: Seq<char>) -> Seq<char> {
    match last_dot(s, s.len() as int) {
        Some(i) => s.take(i),
        None => s,
    }
}

proof fn lemma_last_dot_bounds(s: Seq<char>, n: int)
    ensures
        last_dot(s, n) matches Some(i) ==> 0 <= i < n && i < s.len(),
    decreases n,
{
    if n > 0 {
        lemma_last_dot_bounds(s, n - 1);
    }
}

/// The length of `file_name` once its last extension is gone.
fn stem_length(file_name: &str) -> (r: usize)
    ensures
        r <= file_name@.len(),
        file_name@.take(r as int) == without_extension(file_name@),
{
    let chars = collect_chars(file_name);
    let mut i: usize = chars.len();
    while i > 0 && chars[i - 1] != '.'
        invariant
            i <= chars@.len(),
            chars@ == file_name@,
            last_dot(file_name@, file_name@.len() as int) == last_dot(file_name@, i as int),
        decreases i,
    {
        i -= 1;
    }
    proof { lemma_last_dot_bounds(file_name@, file_name@.len() as int); }
    if i == 0 {
        assert(file_name@.take(chars.len() as int) =~= file_name@);
        chars.len()
    } else {
        i - 1
    }
}

/// The name of the executable for a BF source file: the file name without
/// its extension, so `foo.bf` gives `foo`.
pub fn executable_name(bf_file_name: &str) -> (r: String)
    ensures
        r@ == without_extension(bf_file_name@),
{
    let n = stem_length(bf_file_name);
    String::from_str(bf_file_name.substring_char(0, n))
}

/// The name of the LLVM IR file for a BF source file: its extension
/// replaced by `ll`, or `.ll` added where it has none.
pub fn ll_file_name(bf_file_name: &str) -> (r: String)
    ensures
        r@ == without_extension(bf_file_name@) + ".ll"@,
{
    let n = stem_length(bf_file_name);
    let stem = String::from_str(bf_file_name.substring_char(0, n));
    stem.concat(".ll")
}

} // verus!
