//! Membership of points in a region, both given as codes.
//!
//! A point lies in a cell of the region if its code starts with the code of
//! that cell, and a coarse point covers a cell whose code starts with the
//! code of the point. Either way the shorter code is a prefix of the longer.
use vstd::prelude::*;
use vstd::string::*;

verus! {

/// Whether one of the two codes is a prefix of the other.
pub open spec fn related(a: Seq<char>, b: Seq<char>) -> bool {
    a.is_prefix_of(b) || b.is_prefix_of(a)
}

/// Whether `point` and one of the codes of `region` are related.
pub open spec fn is_inside(point: Seq<char>, region: Seq<Seq<char>>) -> bool {
    exists|j: int| 0 <= j < region.len() && related(point, #[trigger] region[j])
}

/// The characters of `s`.
fn to_chars(s: &str) -> (chars: Vec<char>)
    ensures
        chars@ == s@,
{
    let mut chars: Vec<char> = Vec::new();
    for c in it: s.chars()
        invariant
            chars@ == it.seq().take(it.index() as int),
            it.seq() == s@,
    {
        chars.push(c);
    }
    chars
}

/// Whether `a` is a prefix of `b`.
fn is_prefix(a: &Vec<char>, b: &Vec<char>) -> (r: bool)
    ensures
        r == a@.is_prefix_of(b@),
{
    if a.len() > b.len() {
        return false;
    }
    let mut i: usize = 0;
    while i < a.len()
        invariant
            i <= a.len() <= b.len(),
            forall|j: int| 0 <= j < i ==> a[j] == b[j],
        decreases a.len() - i,
    {
        if a[i] != b[i] {
            proof {
                assert(b@.subrange(0, a@.len() as int)[i as int] == b[i as int]);
            }
            return false;
        }
        i += 1;
    }
    proof {
        assert(a@ =~= b@.subrange(0, a@.len() as int));
    }
    true
}

/// For each of `poi`, whether it and one of `codes` are related: whether one
/// of the two is a prefix of the other. Nothing is asked of the strings.
pub fn isin(poi: &Vec<String>, codes: &Vec<String>) -> (r: Vec<bool>)
    ensures
        r.len() == poi.len(),
        forall|i: int| 0 <= i < r.len() ==> r[i] == is_inside(poi[i]@, codes.deep_view()),
{
    let mut region: Vec<Vec<char>> = Vec::new();
    let mut j: usize = 0;
    while j < codes.len()
        invariant
            j <= codes.len(),
            region.len() == j,
            forall|k: int| 0 <= k < j ==> (#[trigger] region[k])@ == codes[k]@,
        decreases codes.len() - j,
    {
        region.push(to_chars(codes[j].as_str()));
        j += 1;
    }
    let mut r: Vec<bool> = Vec::new();
    let mut i: usize = 0;
    while i < poi.len()
        invariant
            i <= poi.len(),
            r.len() == i,
            region.len() == codes.len(),
            forall|k: int| 0 <= k < region.len() ==> (#[trigger] region[k])@ == codes[k]@,
            forall|k: int| 0 <= k < i ==> r[k] == is_inside(poi[k]@, codes.deep_view()),
        decreases poi.len() - i,
    {
        let point = to_chars(poi[i].as_str());
        let mut found = false;
        let mut j: usize = 0;
        while j < region.len() && !found
            invariant
                j <= region.len(),
                region.len() == codes.len(),
                point@ == poi[i as int]@,
                forall|k: int| 0 <= k < region.len() ==> (#[trigger] region[k])@ == codes[k]@,
                found ==> is_inside(point@, codes.deep_view()),
                !found ==> forall|k: int|
                    0 <= k < j ==> !related(point@, #[trigger] codes.deep_view()[k]),
            decreases region.len() - j + if found { 0int } else { 1int },
        {
            if is_prefix(&region[j], &point) || is_prefix(&point, &region[j]) {
                proof {
                    assert(codes.deep_view()[j as int] == region[j as int]@);
                    assert(related(point@, codes.deep_view()[j as int]));
                }
                found = true;
            } else {
                proof {
                    assert(codes.deep_view()[j as int] == region[j as int]@);
                }
                j += 1;
            }
        }
        r.push(found);
        i += 1;
    }
    r
}

} // verus!
