//! Searching in names.
use vstd::prelude::*;

verus! {

/// An ASCII capital as its small letter, any other character as it is.
pub open spec fn lower(c: char) -> char {
    if 'A' <= c <= 'Z' {
        ((c as u8) + 32) as char
    } else {
        c
    }
}

/// A name with its ASCII capitals made small.
pub open spec fn lowered(s: Seq<char>) -> Seq<char> {
    Seq::new(s.len(), |i: int| lower(s[i]))
}

/// `needle` stands in `hay` from position `at` on.
pub open spec fn stands_at(hay: Seq<char>, needle: Seq<char>, at: int) -> bool {
    &&& 0 <= at
    &&& at + needle.len() <= hay.len()
    &&& forall|j: int| 0 <= j < needle.len() ==> hay[at + j] == #[trigger] needle[j]
}

/// `needle` stands somewhere in `hay`.
pub open spec fn contains(hay: Seq<char>, needle: Seq<char>) -> bool {
    exists|at: int| #[trigger] stands_at(hay, needle, at)
}

fn chars_of(s: &str) -> (r: Vec<char>)
    ensures
        r@ == s@,
{
    let mut r: Vec<char> = Vec::new();
    let n = s.unicode_len();
    let mut i: usize = 0;
    while i < n
        invariant
            i <= n == s@.len(),
            r@ =~= s@.take(i as int),
        decreases n - i,
    {
        r.push(s.get_char(i));
        i = i + 1;
    }
    r
}

/// Whether two texts are the same.
pub fn same(a: &str, b: &str) -> (equal: bool)
    ensures
        equal == (a@ == b@),
{
    let x = chars_of(a);
    let y = chars_of(b);
    if x.len() != y.len() {
        return false;
    }
    let mut i: usize = 0;
    while i < x.len()
        invariant
            x@ == a@,
            y@ == b@,
            x.len() == y.len(),
            i <= x.len(),
            forall|j: int| 0 <= j < i ==> x@[j] == y@[j],
        decreases x.len() - i,
    {
        if x[i] != y[i] {
            return false;
        }
        i = i + 1;
    }
    proof {
        assert(a@ =~= b@);
    }
    true
}

/// A name with its ASCII capitals made small.
pub fn ascii_lowercase(s: &str) -> (r: Vec<char>)
    ensures
        r@ == lowered(s@),
{
    let all = chars_of(s);
    let mut r: Vec<char> = Vec::new();
    let mut i: usize = 0;
    while i < all.len()
        invariant
            i <= all.len(),
            all@ == s@,
            r@ =~= lowered(s@).take(i as int),
        decreases all.len() - i,
    {
        let c = all[i];
        if 'A' <= c && c <= 'Z' {
            r.push((c as u8 + 32) as char);
        } else {
            r.push(c);
        }
        i = i + 1;
    }
    r
}

/// Whether `needle` stands somewhere in `hay`.
pub fn has(hay: &Vec<char>, needle: &str) -> (found: bool)
    ensures
        found == contains(hay@, needle@),
{
    let word = chars_of(needle);
    if word.len() == 0 {
        proof {
            assert(stands_at(hay@, needle@, 0));
        }
        return true;
    }
    if word.len() > hay.len() {
        return false;
    }
    let ends: usize = hay.len() - word.len() + 1;
    let mut at: usize = 0;
    while at < ends
        invariant
            word@ == needle@,
            word.len() > 0,
            at <= ends,
            ends + word.len() == hay.len() + 1,
            forall|k: int| 0 <= k < at ==> !#[trigger] stands_at(hay@, needle@, k),
        decreases ends - at,
    {
        let mut j: usize = 0;
        while j < word.len() && hay[at + j] == word[j]
            invariant
                word@ == needle@,
                j <= word.len(),
                at + word.len() <= hay.len(),
                forall|k: int| 0 <= k < j ==> hay@[at + k] == #[trigger] needle@[k],
            decreases word.len() - j,
        {
            j = j + 1;
        }
        if j == word.len() {
            proof {
                assert(stands_at(hay@, needle@, at as int));
            }
            return true;
        }
        proof {
            assert(hay@[at + j] != needle@[j as int]);
        }
        at = at + 1;
    }
    false
}

/// Law: one text stands in another exactly where the other is made of something,
/// the one, and something more.
pub proof fn law_contained_text_can_be_cut_out(hay: Seq<char>, needle: Seq<char>)
    ensures
        contains(hay, needle) <==> exists|before: Seq<char>, after: Seq<char>|
            hay == #[trigger] (before + needle + after),
{
    if contains(hay, needle) {
        let at = choose|at: int| #[trigger] stands_at(hay, needle, at);
        let before = hay.take(at);
        let after = hay.skip(at + needle.len());
        assert(hay =~= before + needle + after) by {
            assert forall|i: int| 0 <= i < hay.len() implies hay[i] == (before + needle
                + after)[i] by {
                if at <= i < at + needle.len() {
                    assert(hay[at + (i - at)] == needle[i - at]);
                }
            }
        }
    }
    if exists|before: Seq<char>, after: Seq<char>| hay == #[trigger] (before + needle + after) {
        let (before, after) = choose|before: Seq<char>, after: Seq<char>|
            hay == #[trigger] (before + needle + after);
        assert(stands_at(hay, needle, before.len() as int));
    }
}

/// Law: making a name small changes its ASCII capitals alone, each into the letter
/// 32 places on.
pub proof fn law_lowering_changes_capitals_alone(s: Seq<char>)
    ensures
        lowered(s).len() == s.len(),
        forall|i: int|
            0 <= i < s.len() ==> {
                let (a, b) = (s[i], #[trigger] lowered(s)[i]);
                &&& 'A' <= a <= 'Z' ==> b as int == a as int + 32
                &&& !('A' <= a <= 'Z') ==> b == a
            },
{
}

} // verus!
