//! Interning of strings into small integer ids.

use vstd::prelude::*;

verus! {

/// The error for an id that no string was interned under.
#[derive(Debug, Clone, Copy, PartialEq, Eq, Structural)]
pub enum InternError {
    UnknownId,
}

/// A table of distinct strings; a string's id is its position.
pub struct InternedStrings {
    strings: Vec<String>,
}

impl View for InternedStrings {
    type V = Seq<Seq<char>>;

    closed spec fn view(&self) -> Seq<Seq<char>> {
        self.strings@.map_values(|s: String| s@)
    }
}

/// No string occurs twice.
pub open spec fn distinct_strings(v: Seq<Seq<char>>) -> bool {
    forall|i: int, j: int| 0 <= i < j < v.len() ==> v[i] != v[j]
}

impl InternedStrings {
    /// The table holds no string twice.
    pub open spec fn wf(&self) -> bool {
        distinct_strings(self@)
    }

    pub fn new(capacity: usize) -> (t: Self)
        ensures
            t@ == Seq::<Seq<char>>::empty(),
            t.wf(),
    {
        let t = InternedStrings { strings: Vec::with_capacity(capacity) };
        assert(t@ =~= Seq::<Seq<char>>::empty());
        t
    }

    /// The id of `s`, adding it to the table when it is new.
    pub fn to_id(&mut self, s: &str) -> (id: usize)
        requires
            old(self).wf(),
        ensures
            final(self).wf(),
            id < final(self)@.len() && final(self)@[id as int] == s@,
            old(self)@.contains(s@) ==> final(self)@ == old(self)@ && id < old(self)@.len() && old(self)@[id as int] == s@,
            !old(self)@.contains(s@) ==> final(self)@ == old(self)@.push(s@) && id == old(self)@.len(),
    {
        let owned: String = s.to_owned();
        let mut i: usize = 0;
        while i < self.strings.len()
            invariant
                i <= self.strings@.len(),
                owned@ == s@,
                self@ == old(self)@,
                distinct_strings(old(self)@),
                self@.len() == self.strings@.len(),
                forall|k: int| 0 <= k < i ==> self@[k] != s@,
            decreases self.strings.len() - i,
        {
            if self.strings[i] == owned {
                assert(self@[i as int] == s@);
                assert(old(self)@.contains(s@));
                return i;
            }
            i = i + 1;
        }
        let ghost before = self@;
        self.strings.push(owned);
        assert(self@ =~= before.push(s@));
        assert(!before.contains(s@)) by {
            if before.contains(s@) {
                let k = choose|k: int| 0 <= k < before.len() && before[k] == s@;
                assert(before[k] != s@);
            }
        }
        i
    }

    /// The string interned under `id`.
    pub fn from_id(&self, id: usize) -> (r: Result<&str, InternError>)
        ensures
            id < self@.len() ==> (r matches Ok(s) && s@ == self@[id as int]),
            id >= self@.len() ==> r == Err::<&str, InternError>(InternError::UnknownId),
    {
        if id < self.strings.len() {
            Ok(self.strings[id].as_str())
        } else {
            Err(InternError::UnknownId)
        }
    }

    pub fn len(&self) -> (n: usize)
        ensures
            n == self@.len(),
    {
        self.strings.len()
    }
}

/// In a table of distinct strings a string has one id, so interning it
/// again gives the id it got the first time, and `from_id` of that id gives
/// the string back.
pub proof fn lemma_interned_id_unique(t: Seq<Seq<char>>, s: Seq<char>, i: int, j: int)
    requires
        distinct_strings(t),
        0 <= i < t.len(),
        0 <= j < t.len(),
        t[i] == s,
        t[j] == s,
    ensures
        i == j,
{
    if i < j {
        assert(t[i] != t[j]);
    } else if j < i {
        assert(t[j] != t[i]);
    }
}

} // verus!
