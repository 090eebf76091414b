use vstd::prelude::*;

verus! {

broadcast use vstd::seq_lib::group_seq_properties;

/// Index of the first occurrence of `sep`, or the length if absent.
pub open spec fn first_sep(s: Seq<char>, sep: char) -> int
    decreases s.len(),
{
    if s.len() == 0 {
        0
    } else if s[0] == sep {
        0
    } else {
        1 + first_sep(s.drop_first(), sep)
    }
}

pub proof fn lemma_first_sep_range(s: Seq<char>, sep: char)
    ensures
        0 <= first_sep(s, sep) <= s.len(),
        forall|j: int| 0 <= j < first_sep(s, sep) ==> s[j] != sep,
        first_sep(s, sep) < s.len() ==> s[first_sep(s, sep)] == sep,
    decreases s.len(),
{
    if s.len() > 0 && s[0] != sep {
        lemma_first_sep_range(s.drop_first(), sep);
        assert forall|j: int| 0 <= j < first_sep(s, sep) implies s[j] != sep by {
            if j > 0 {
                assert(s.drop_first()[j - 1] == s[j]);
            }
        }
    }
}

/// The first separator is where the first separator character stands.
pub proof fn lemma_first_sep_at(s: Seq<char>, sep: char, k: int)
    requires
        0 <= k <= s.len(),
        forall|j: int| 0 <= j < k ==> s[j] != sep,
        k < s.len() ==> s[k] == sep,
    ensures
        first_sep(s, sep) == if k < s.len() {
            k
        } else {
            s.len() as int
        },
    decreases k,
{
    if k > 0 {
        assert(s[0] != sep);
        assert forall|j: int| 0 <= j < k - 1 implies s.drop_first()[j] != sep by {
            assert(s.drop_first()[j] == s[j + 1]);
        }
        if k - 1 < s.drop_first().len() {
            assert(s.drop_first()[k - 1] == s[k]);
        }
        lemma_first_sep_at(s.drop_first(), sep, k - 1);
    } else {
        if s.len() > 0 && s[0] != sep {
            lemma_first_sep_range(s.drop_first(), sep);
        }
    }
}

/// The pieces of s between occurrences of `sep`: always one more piece
/// than separators, pieces may be empty.
pub open spec fn split_seq(s: Seq<char>, sep: char) -> Seq<Seq<char>>
    decreases s.len(),
{
    let i = first_sep(s, sep);
    if 0 <= i && i < s.len() {
        seq![s.take(i)] + split_seq(s.skip(i + 1), sep)
    } else {
        seq![s]
    }
}

/// Splitting never yields an empty piece list.
pub proof fn lemma_split_len(s: Seq<char>, sep: char)
    ensures
        split_seq(s, sep).len() >= 1,
    decreases s.len(),
{
    lemma_first_sep_range(s, sep);
    let i = first_sep(s, sep);
    if i < s.len() {
        lemma_split_len(s.skip(i + 1), sep);
    }
}

/// Splits a string at a separator character, as `split_seq` describes.
pub fn split_str(s: &str, sep: char) -> (r: Vec<String>)
    ensures
        r@.len() == split_seq(s@, sep).len(),
        forall|k: int| 0 <= k < r@.len() ==> (#[trigger] r@[k])@ == split_seq(s@, sep)[k],
{
    let mut out: Vec<String> = Vec::new();
    let n = s.unicode_len();
    let mut start: usize = 0;
    let mut i: usize = 0;
    let ghost whole = s@;
    proof {
        assert(whole.skip(0) =~= whole);
        assert(split_seq(whole, sep).skip(0) =~= split_seq(whole, sep));
    }
    while i < n
        invariant
            whole == s@,
            n == s@.len(),
            0 <= start <= i <= n,
            forall|j: int| start <= j < i ==> whole[j] != sep,
            out@.len() + 1 + split_seq(whole.skip(start as int), sep).len() == split_seq(
                whole,
                sep,
            ).len() + 1,
            forall|k: int|
                0 <= k < out@.len() ==> (#[trigger] out@[k])@ == split_seq(whole, sep)[k],
            split_seq(whole, sep).skip(out@.len() as int) == split_seq(
                whole.skip(start as int),
                sep,
            ),
        decreases n - i,
    {
        if s.get_char(i) == sep {
            let piece = String::from_str(s.substring_char(start, i));
            proof {
                let rest = whole.skip(start as int);
                assert forall|j: int| 0 <= j < i - start implies rest[j] != sep by {
                    vstd::seq_lib::lemma_seq_skip_index::<char>(whole, start as int, j);
                }
                vstd::seq_lib::lemma_seq_skip_index::<char>(whole, start as int, i - start);
                assert(rest[i - start] == whole[i as int]);
                lemma_first_sep_at(rest, sep, i - start);
                assert(rest.take(i - start) =~= whole.subrange(start as int, i as int));
                assert(rest.skip(i - start + 1) =~= whole.skip(i + 1));
                assert(split_seq(rest, sep) == seq![whole.subrange(start as int, i as int)]
                    + split_seq(whole.skip(i + 1), sep));
                assert(split_seq(whole, sep)[out@.len() as int] == whole.subrange(
                    start as int,
                    i as int,
                ));
                assert(split_seq(whole, sep).skip(out@.len() as int + 1) =~= split_seq(
                    whole.skip(i + 1),
                    sep,
                ));
            }
            out.push(piece);
            start = i + 1;
        } else {
            proof {
                assert(whole[i as int] != sep);
            }
        }
        i = i + 1;
    }
    let piece = String::from_str(s.substring_char(start, n));
    proof {
        let rest = whole.skip(start as int);
        assert forall|j: int| 0 <= j < rest.len() implies rest[j] != sep by {
            vstd::seq_lib::lemma_seq_skip_index::<char>(whole, start as int, j);
        }
        lemma_first_sep_at(rest, sep, rest.len() as int);
        assert(split_seq(rest, sep) == seq![rest]);
        assert(rest =~= whole.subrange(start as int, n as int));
        assert(split_seq(whole, sep)[out@.len() as int] == rest);
        lemma_split_len(whole, sep);
    }
    out.push(piece);
    proof {
        assert(out@.len() == split_seq(whole, sep).len());
    }
    out
}

} // verus!
