//! Small string helpers shared by the other modules.
use vstd::prelude::*;

verus! {

/// Appends one character to a string: `String::push`.
///
/// Trusted: the contract claims only what the standard library documents,
/// that the character is appended at the end and nothing else changes.
#[verifier::external_body]
pub(crate) fn push_char(s: &mut String, c: char)
    ensures
        final(s)@ == old(s)@.push(c),
{
    s.push(c);
}

/// Whether `s` begins with `prefix`.
pub open spec fn starts_with(s: Seq<char>, prefix: Seq<char>) -> bool {
    prefix.len() <= s.len() && s.take(prefix.len() as int) == prefix
}

/// The index of the first occurrence of `c` in `s`, if any.
pub open spec fn first_index_of(s: Seq<char>, c: char) -> Option<int>
    decreases s.len(),
{
    if s.len() == 0 {
        None
    } else if s[0] == c {
        Some(0)
    } else {
        match first_index_of(s.drop_first(), c) {
            Some(i) => Some(i + 1),
            None => None,
        }
    }
}

/// `first_index_of` is the smallest index that holds `c`.
pub proof fn lemma_first_index_of(s: Seq<char>, c: char, i: int)
    requires
        0 <= i <= s.len(),
        forall|j: int| 0 <= j < i ==> s[j] != c,
    ensures
        i < s.len() && s[i] == c ==> first_index_of(s, c) == Some(i),
        i == s.len() ==> first_index_of(s, c) is None,
    decreases i,
{
    if i > 0 {
        lemma_first_index_of(s.drop_first(), c, i - 1);
    } else if s.len() > 0 {
    }
}

/// What `first_index_of` gives: the first index that holds `c`, or none when
/// no index does.
pub proof fn lemma_first_index_of_cases(s: Seq<char>, c: char)
    ensures
        match first_index_of(s, c) {
            Some(i) => 0 <= i < s.len() && s[i] == c && forall|j: int| 0 <= j < i ==> s[j] != c,
            None => forall|j: int| 0 <= j < s.len() ==> s[j] != c,
        },
    decreases s.len(),
{
    if s.len() > 0 && s[0] != c {
        lemma_first_index_of_cases(s.drop_first(), c);
        assert forall|j: int| 0 < j < s.len() implies s[j] == s.drop_first()[j - 1] by {}
    }
}

/// Returns whether `s` begins with `prefix`.
pub(crate) fn str_starts_with(s: &str, prefix: &str) -> (res: bool)
    ensures
        res == starts_with(s@, prefix@),
{
    let prefix_len = prefix.unicode_len();
    if prefix_len > s.unicode_len() {
        false
    } else {
        let head = s.substring_char(0, prefix_len).to_owned();
        head == prefix.to_owned()
    }
}

/// Returns the index, counted in characters, of the first `c` in `s`.
pub(crate) fn find_char(s: &str, c: char) -> (res: Option<usize>)
    ensures
        match res {
            Some(i) => {
                &&& first_index_of(s@, c) == Some(i as int)
                &&& i < s@.len()
                &&& s@[i as int] == c
                &&& forall|j: int| 0 <= j < i ==> s@[j] != c
            },
            None => first_index_of(s@, c) is None,
        },
{
    let len = s.unicode_len();
    let mut index: usize = 0;
    for ch in it: s.chars()
        invariant
            it.seq() == s@,
            len == s@.len(),
            index == it.index(),
            forall|j: int| 0 <= j < index ==> s@[j] != c,
    {
        if ch == c {
            proof {
                lemma_first_index_of(s@, c, index as int);
            }
            return Some(index);
        }
        index = index + 1;
    }
    proof {
        lemma_first_index_of(s@, c, index as int);
    }
    None
}

/// The pieces of `s` between occurrences of `sep`, the first one continuing
/// the piece `current` that was read before `s`; empty pieces are kept.
pub open spec fn split_from(s: Seq<char>, sep: char, current: Seq<char>) -> Seq<Seq<char>>
    decreases s.len(),
{
    if s.len() == 0 {
        seq![current]
    } else if s[0] == sep {
        seq![current] + split_from(s.drop_first(), sep, seq![])
    } else {
        split_from(s.drop_first(), sep, current.push(s[0]))
    }
}

/// The pieces of `s` between occurrences of `sep`, as `str::split` gives them.
pub open spec fn spec_split(s: Seq<char>, sep: char) -> Seq<Seq<char>> {
    split_from(s, sep, seq![])
}

/// The views of a list of strings.
pub open spec fn views(v: Seq<String>) -> Seq<Seq<char>> {
    v.map_values(|t: String| t@)
}

/// Splits `input` at every `sep`.
pub(crate) fn split_char(input: &str, sep: char) -> (res: Vec<String>)
    ensures
        views(res@) == spec_split(input@, sep),
{
    let mut pieces: Vec<String> = Vec::new();
    let mut current = String::new();
    proof {
        assert(input@.skip(0) =~= input@);
        assert(views(pieces@) =~= Seq::<Seq<char>>::empty());
        assert(current@ =~= Seq::<char>::empty());
        assert(Seq::<Seq<char>>::empty() + spec_split(input@, sep) =~= spec_split(input@, sep));
    }
    for ch in it: input.chars()
        invariant
            it.seq() == input@,
            views(pieces@) + split_from(input@.skip(it.index()), sep, current@) == spec_split(
                input@,
                sep,
            ),
    {
        let ghost i = it.index();
        let ghost rest = input@.skip(i);
        proof {
            assert(rest[0] == ch);
            assert(rest.drop_first() =~= input@.skip(i + 1));
        }
        if ch == sep {
            let ghost before = pieces@;
            let piece = current;
            current = String::new();
            pieces.push(piece);
            proof {
                assert(views(pieces@) =~= views(before) + seq![piece@]);
                assert(views(pieces@) + split_from(input@.skip(i + 1), sep, current@) =~= views(
                    before,
                ) + (seq![piece@] + split_from(input@.skip(i + 1), sep, seq![])));
            }
        } else {
            push_char(&mut current, ch);
        }
    }
    proof {
        assert(input@.skip(input@.len() as int) =~= Seq::<char>::empty());
    }
    let ghost before = pieces@;
    pieces.push(current);
    proof {
        assert(views(pieces@) =~= views(before) + seq![pieces@.last()@]);
    }
    pieces
}

} // verus!
