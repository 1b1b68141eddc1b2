//! Splitting text at every occurrence of a delimiter.
use vstd::prelude::*;

verus! {

/// The first position at or after `i` where `d` occurs in `s`, if any.
pub open spec fn find_from(s: Seq<char>, d: Seq<char>, i: int) -> Option<int>
    decreases s.len() - i,
{
    if i < 0 || i >= s.len() || i + d.len() > s.len() {
        None
    } else if s.subrange(i, i + d.len()) == d {
        Some(i)
    } else {
        find_from(s, d, i + 1)
    }
}

/// The pieces of `s` between the non-overlapping occurrences of `d`, found
/// from the left. An empty delimiter occurs at every character boundary, so
/// the pieces are then the characters, between two empty pieces.
pub open spec fn split_of(s: Seq<char>, d: Seq<char>) -> Seq<Seq<char>>
    decreases s.len(),
{
    if d.len() == 0 {
        seq![Seq::<char>::empty()] + s.map_values(|c: char| seq![c]) + seq![Seq::<char>::empty()]
    } else {
        match find_from(s, d, 0) {
            Some(k) => if 0 <= k && k + d.len() <= s.len() {
                seq![s.subrange(0, k)] + split_of(s.subrange(k + d.len(), s.len() as int), d)
            } else {
                seq![s]
            },
            None => seq![s],
        }
    }
}

pub open spec fn strings_view(v: Seq<String>) -> Seq<Seq<char>> {
    v.map_values(|x: String| x@)
}

/// Relies on `str::split` with a `&str` pattern: the pieces between the
/// occurrences of the delimiter, as `split_of` describes them.
#[verifier::external_body]
fn split_text(input: &str, delimiter: &str) -> (r: Vec<String>)
    ensures
        strings_view(r@) == split_of(input@, delimiter@),
{
    input.split(delimiter).map(|p| p.to_string()).collect()
}

pub struct Splitter<'a, 'b> {
    pub input: &'a str,
    pub delimiter: &'b str,
}

impl<'a, 'b> Splitter<'a, 'b> {
    pub fn new(input: &'a str, delim: &'b str) -> (r: Self)
        ensures
            r.input@ == input@,
            r.delimiter@ == delim@,
    {
        Self { input, delimiter: delim }
    }

    pub fn split(&self) -> (r: Vec<String>)
        ensures
            strings_view(r@) == split_of(self.input@, self.delimiter@),
    {
        split_text(self.input, self.delimiter)
    }
}

/// The pieces of `input` between the occurrences of `delim`.
pub fn do_it(input: &str, delim: &str) -> (r: Vec<String>)
    ensures
        strings_view(r@) == split_of(input@, delim@),
{
    let s = Splitter::new(input, delim);
    s.split()
}

} // verus!
