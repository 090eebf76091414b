use vstd::prelude::*;
use crate::text::{split_seq, split_str};

verus! {

/// A lowercase letter, fit to start a name segment.
pub open spec fn is_name_start(c: char) -> bool {
    'a' as int <= c as int <= 'z' as int
}

/// A character allowed after the first of a name segment.
pub open spec fn is_name_char(c: char) -> bool {
    is_name_start(c) || '0' as int <= c as int <= '9' as int || c == '_'
}

/// One segment of a dotted color name: a lowercase letter followed by
/// lowercase letters, digits or underscores.
pub open spec fn valid_segment(t: Seq<char>) -> bool {
    &&& t.len() >= 1
    &&& is_name_start(t[0])
    &&& forall|i: int| 1 <= i < t.len() ==> is_name_char(#[trigger] t[i])
}

/// A dotted path of valid segments, as a configuration document may use
/// to reference a color by name.
pub open spec fn valid_reference(s: Seq<char>) -> bool {
    forall|k: int|
        0 <= k < split_seq(s, '.').len() ==> valid_segment(#[trigger] split_seq(s, '.')[k])
}

/// A validated dotted color reference.
#[derive(Debug, PartialEq)]
pub struct Reference {
    string: String,
}

impl View for Reference {
    type V = Seq<char>;

    closed spec fn view(&self) -> Seq<char> {
        self.string@
    }
}

/// Whether one segment is well formed, checked character by character.
fn valid_segment_exec(t: &str) -> (r: bool)
    ensures
        r == valid_segment(t@),
{
    let n = t.unicode_len();
    if n == 0 {
        return false;
    }
    let c0 = t.get_char(0) as u32;
    if !(97 <= c0 && c0 <= 122) {
        return false;
    }
    for i in 1..n
        invariant
            n == t@.len(),
            is_name_start(t@[0]),
            forall|j: int| 1 <= j < i ==> is_name_char(#[trigger] t@[j]),
    {
        let c = t.get_char(i) as u32;
        if !(97 <= c && c <= 122 || 48 <= c && c <= 57 || c == 95) {
            return false;
        }
        proof {
            assert(t@[i as int] as u32 == c);
            assert(c == 95 ==> t@[i as int] == '_');
        }
    }
    true
}

impl Reference {
    /// The reference is a well-formed dotted path; constructors establish
    /// this and it never changes.
    pub closed spec fn wf(&self) -> bool {
        valid_reference(self.string@)
    }

    /// Accepts exactly the well-formed dotted lowercase names.
    pub fn new(s: &str) -> (r: Option<Reference>)
        ensures
            (r is Some) == valid_reference(s@),
            r matches Some(rf) ==> rf@ == s@ && rf.wf(),
    {
        let parts = split_str(s, '.');
        let n = parts.len();
        for i in 0..n
            invariant
                n == parts@.len() == split_seq(s@, '.').len(),
                forall|k: int|
                    0 <= k < n ==> (#[trigger] parts@[k])@ == split_seq(s@, '.')[k],
                forall|k: int| 0 <= k < i ==> valid_segment(#[trigger] split_seq(s@, '.')[k]),
        {
            if !valid_segment_exec(parts[i].as_str()) {
                return None;
            }
        }
        Some(Reference { string: String::from_str(s) })
    }

    /// The dotted path's segments, in order.
    pub fn key_iter(&self) -> (r: Vec<String>)
        ensures
            r@.len() == split_seq(self@, '.').len(),
            forall|k: int| 0 <= k < r@.len() ==> (#[trigger] r@[k])@ == split_seq(self@, '.')[k],
    {
        split_str(self.string.as_str(), '.')
    }
}

/// A color entry of a configuration document: one of the palette's own
/// computed colors, a reference to another entry by dotted path, or a
/// named group of further entries.
#[derive(Debug, PartialEq)]
pub enum ColorNames {
    BuiltIn,
    Reference(Reference),
    Mapping(Vec<(String, ColorNames)>),
}

} // verus!
