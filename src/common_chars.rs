//! The characters that a list of strings have in common.

use vstd::prelude::*;

verus! {

/// Each string of `others` holds `c`.
pub open spec fn in_all(others: Seq<Seq<char>>, c: char) -> bool {
    forall|x: int| 0 <= x < others.len() ==> #[trigger] others[x].contains(c)
}

/// The characters of `s` that every string of `others` holds, each once, in
/// the order of their first occurrence in `s`.
pub open spec fn common_of(s: Seq<char>, others: Seq<Seq<char>>) -> Seq<char>
    decreases s.len(),
{
    if s.len() == 0 {
        Seq::empty()
    } else {
        let c = common_of(s.drop_last(), others);
        let ch = s.last();
        if c.contains(ch) || !in_all(others, ch) {
            c
        } else {
            c.push(ch)
        }
    }
}

/// The strings of `arr` after the first, as sequences.
pub open spec fn tail_views(arr: Seq<Vec<char>>) -> Seq<Seq<char>> {
    Seq::new((arr.len() - 1) as nat, |x: int| arr[x + 1]@)
}

/// Whether `v` holds `c`.
fn has_char(v: &Vec<char>, c: char) -> (r: bool)
    ensures
        r == v@.contains(c),
{
    let mut i: usize = 0;
    while i < v.len()
        invariant
            i <= v@.len(),
            forall|j: int| 0 <= j < i ==> v@[j] != c,
        decreases v@.len() - i,
    {
        if v[i] == c {
            return true;
        }
        i = i + 1;
    }
    false
}

/// The characters of the first string that every other string holds, each
/// once, in the order of their first occurrence, and their number.
pub fn common_chars(arr: &Vec<Vec<char>>) -> (r: (Vec<char>, usize))
    requires
        arr@.len() > 0,
    ensures
        r.0@ == common_of(arr@[0]@, tail_views(arr@)),
        r.1 == r.0@.len(),
{
    let first = &arr[0];
    let ghost others = tail_views(arr@);
    let mut common: Vec<char> = Vec::new();
    let mut i: usize = 0;
    while i < first.len()
        invariant
            arr@.len() > 0,
            first@ == arr@[0]@,
            others == tail_views(arr@),
            i <= first@.len(),
            common@ == common_of(first@.subrange(0, i as int), others),
            common@.len() <= i,
        decreases first@.len() - i,
    {
        let character = first[i];
        proof {
            assert(first@.subrange(0, i as int + 1).drop_last() =~= first@.subrange(0, i as int));
        }
        if !has_char(&common, character) {
            let mut x: usize = 1;
            let mut everywhere = true;
            while x < arr.len()
                invariant
                    1 <= x <= arr@.len(),
                    others == tail_views(arr@),
                    everywhere == forall|y: int| 0 <= y < x - 1 ==> #[trigger] others[y].contains(character),
                decreases arr@.len() - x,
            {
                proof {
                    assert(others[x as int - 1] == arr@[x as int]@);
                }
                if !has_char(&arr[x], character) {
                    everywhere = false;
                }
                x = x + 1;
            }
            proof {
                assert(everywhere == in_all(others, character));
            }
            if everywhere {
                common.push(character);
            }
        }
        i = i + 1;
    }
    proof {
        assert(first@.subrange(0, first@.len() as int) =~= first@);
    }
    let l: usize = common.len();
    (common, l)
}

} // verus!
