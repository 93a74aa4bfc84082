//! The order in which icon files are looked for. Whether a file exists is
//! the file system's answer: the caller asks it for each path this probe
//! names, in turn, and reports back, until a file is found or the candidates
//! run out.
use vstd::prelude::*;

verus! {

/// The first of `candidates` that `found` holds of.
pub open spec fn first_existing(
    candidates: Seq<Seq<char>>,
    found: spec_fn(Seq<char>) -> bool,
) -> Option<Seq<char>>
    decreases candidates.len(),
{
    if candidates.len() == 0 {
        None
    } else if found(candidates[0]) {
        Some(candidates[0])
    } else {
        first_existing(candidates.drop_first(), found)
    }
}

/// The views of a sequence of strings.
pub open spec fn strings_view(s: Seq<String>) -> Seq<Seq<char>> {
    s.map_values(|x: String| x@)
}

/// A search for the first existing file among a list of candidate paths.
pub struct IconProbe {
    candidates: Vec<String>,
    next: usize,
}

impl IconProbe {
    /// The candidate paths, in the order they are tried.
    pub closed spec fn candidates(&self) -> Seq<Seq<char>> {
        strings_view(self.candidates@)
    }

    /// How many candidates were reported missing so far.
    pub closed spec fn position(&self) -> int {
        self.next as int
    }

    /// The candidates not yet tried.
    pub open spec fn remaining(&self) -> Seq<Seq<char>> {
        self.candidates().skip(self.position())
    }

    /// The position lies within the candidates.
    #[verifier::type_invariant]
    spec fn inv(&self) -> bool {
        self.next <= self.candidates@.len()
    }

    /// A search that will try `candidates` in order.
    pub fn new(candidates: Vec<String>) -> (r: IconProbe)
        ensures
            r.candidates() == strings_view(candidates@),
            r.position() == 0,
    {
        IconProbe { candidates, next: 0 }
    }

    /// This search followed by `other`, for when this one finds nothing.
    pub fn chain(self, other: IconProbe) -> (r: IconProbe)
        requires
            self.position() == 0,
            other.position() == 0,
        ensures
            r.candidates() == self.candidates() + other.candidates(),
            r.position() == 0,
    {
        let mut candidates = self.candidates;
        let mut rest = other.candidates;
        let ghost a = candidates@;
        let ghost b = rest@;
        candidates.append(&mut rest);
        assert(strings_view(candidates@) =~= strings_view(a) + strings_view(b));
        IconProbe { candidates, next: 0 }
    }

    /// All candidate paths, in the order they are tried.
    pub fn candidate_paths(&self) -> (r: &Vec<String>)
        ensures
            strings_view(r@) == self.candidates(),
    {
        &self.candidates
    }

    /// The path to look for next, or `None` when every candidate was missing.
    pub fn current(&self) -> (r: Option<&String>)
        ensures
            r is None <==> self.position() == self.candidates().len(),
            r matches Some(s) ==> self.position() < self.candidates().len() && s@
                == self.candidates()[self.position()],
    {
        proof {
            use_type_invariant(self);
        }
        if self.next < self.candidates.len() {
            Some(&self.candidates[self.next])
        } else {
            None
        }
    }

    /// Reports whether the current path exists: the path itself where it
    /// does, and `None` where it does not, moving on to the next candidate.
    pub fn report(&mut self, found: bool) -> (r: Option<String>)
        requires
            old(self).position() < old(self).candidates().len(),
        ensures
            final(self).candidates() == old(self).candidates(),
            found ==> (r matches Some(s) && s@ == old(self).candidates()[old(self).position()]),
            found ==> final(self).position() == old(self).position(),
            !found ==> r is None && final(self).position() == old(self).position() + 1,
    {
        let n = self.candidates.len();
        assert(self.candidates().len() == n);
        if found {
            Some(self.candidates[self.next].clone())
        } else {
            self.next = self.next + 1;
            None
        }
    }
}

/// A report keeps the answer of the search: the first existing remaining
/// candidate is the current one where it exists, and otherwise the first
/// existing candidate after it.
pub proof fn law_report_keeps_answer(
    candidates: Seq<Seq<char>>,
    position: int,
    found: spec_fn(Seq<char>) -> bool,
)
    requires
        0 <= position < candidates.len(),
    ensures
        first_existing(candidates.skip(position), found) == (if found(candidates[position]) {
            Some(candidates[position])
        } else {
            first_existing(candidates.skip(position + 1), found)
        }),
{
    assert(candidates.skip(position).drop_first() =~= candidates.skip(position + 1));
}

/// Searching `a` and then `b` finds what searching `a` finds, and where that
/// is nothing, what searching `b` finds.
pub proof fn law_chain_searches_in_order(
    a: Seq<Seq<char>>,
    b: Seq<Seq<char>>,
    found: spec_fn(Seq<char>) -> bool,
)
    ensures
        first_existing(a + b, found) == (match first_existing(a, found) {
            Some(p) => Some(p),
            None => first_existing(b, found),
        }),
    decreases a.len(),
{
    if a.len() > 0 {
        assert((a + b)[0] == a[0]);
        assert((a + b).drop_first() =~= a.drop_first() + b);
        law_chain_searches_in_order(a.drop_first(), b, found);
    } else {
        assert(a + b =~= b);
    }
}

/// The first existing candidate, if there is one, is a candidate and exists,
/// and no candidate before it exists.
pub proof fn law_first_existing_is_first(
    candidates: Seq<Seq<char>>,
    found: spec_fn(Seq<char>) -> bool,
)
    ensures
        first_existing(candidates, found) matches Some(p) ==> (found(p) && exists|i: int|
            0 <= i < candidates.len() && candidates[i] == p && forall|j: int|
                0 <= j < i ==> !found(#[trigger] candidates[j])),
        first_existing(candidates, found) is None ==> forall|j: int|
            0 <= j < candidates.len() ==> !found(#[trigger] candidates[j]),
    decreases candidates.len(),
{
    if candidates.len() > 0 {
        let rest = candidates.drop_first();
        law_first_existing_is_first(rest, found);
        if !found(candidates[0]) {
            if let Some(p) = first_existing(rest, found) {
                let i = choose|i: int|
                    0 <= i < rest.len() && rest[i] == p && forall|j: int|
                        0 <= j < i ==> !found(#[trigger] rest[j]);
                assert(candidates[i + 1] == p);
                assert forall|j: int| 0 <= j < i + 1 implies !found(#[trigger] candidates[j]) by {
                    if j > 0 {
                        assert(candidates[j] == rest[j - 1]);
                    }
                }
            } else {
                assert forall|j: int| 0 <= j < candidates.len() implies !found(
                    #[trigger] candidates[j],
                ) by {
                    if j > 0 {
                        assert(candidates[j] == rest[j - 1]);
                    }
                }
            }
        }
    }
}

} // verus!
