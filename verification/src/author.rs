//! Author names interned as small integers: the first name registered
//! gets id 0, each new name the next id, and no id changes hands.

use crate::order::str_same;
use vstd::prelude::*;

verus! {

/// The name that stands for content older than the first commit looked at.
pub const OLDER_CODE: &'static str = "Older Code";

/// The name that stands in for a commit without an author name.
pub const UNKNOWN_AUTHOR: &'static str = "<Unknown>";

/// No name occurs twice.
pub open spec fn names_unique(names: Seq<Seq<char>>) -> bool {
    forall|i: int, j: int| 0 <= i < j < names.len() ==> names[i] != names[j]
}

/// The place of `name` among `names`, if it is there.
fn position(names: &Vec<String>, name: &str) -> (r: Option<usize>)
    ensures
        match r {
            Some(i) => i < names@.len() && names@[i as int]@ == name@,
            None => forall|i: int| 0 <= i < names@.len() ==> (#[trigger] names@[i])@ != name@,
        },
{
    let mut i: usize = 0;
    while i < names.len()
        invariant
            i <= names@.len(),
            forall|j: int| 0 <= j < i ==> (#[trigger] names@[j])@ != name@,
        decreases names.len() - i,
    {
        if str_same(names[i].as_str(), name) {
            return Some(i);
        }
        i += 1;
    }
    None
}

/// The characters of each name.
pub open spec fn name_views(names: Seq<String>) -> Seq<Seq<char>> {
    Seq::new(names.len(), |i: int| names[i]@)
}

/// A registry of authors with 32-bit ids.
pub struct AuthorCollection {
    id_name_map: Vec<String>,
}

impl View for AuthorCollection {
    type V = Seq<Seq<char>>;

    /// The registered names; a name's id is its place.
    closed spec fn view(&self) -> Seq<Seq<char>> {
        name_views(self.id_name_map@)
    }
}

impl AuthorCollection {
    /// No name is registered twice, and every id fits 32 bits.
    pub open spec fn wf(&self) -> bool {
        names_unique(self@) && self@.len() <= u32::MAX as nat + 1
    }

    /// A registry without names.
    pub fn new() -> (r: AuthorCollection)
        ensures
            r@ == Seq::<Seq<char>>::empty(),
            r.wf(),
    {
        let r = AuthorCollection { id_name_map: Vec::new() };
        assert(r@ =~= Seq::<Seq<char>>::empty());
        r
    }

    /// The number of registered names.
    pub fn len(&self) -> (n: usize)
        ensures
            n == self@.len(),
    {
        self.id_name_map.len()
    }

    /// The id of `name`, registered under the next free id if it was not
    /// registered yet. The registry must have a free id left for a new
    /// name.
    pub fn query_id(&mut self, name: &str) -> (id: u32)
        requires
            old(self).wf(),
            old(self)@.contains(name@) || old(self)@.len() <= u32::MAX,
        ensures
            final(self).wf(),
            final(self)@[id as int] == name@,
            id < final(self)@.len(),
            old(self)@.contains(name@) ==> final(self)@ == old(self)@,
            !old(self)@.contains(name@) ==> final(self)@ == old(self)@.push(name@) && id == old(self)@.len(),
    {
        match position(&self.id_name_map, name) {
            Some(i) => {
                assert(self@[i as int] == name@);
                i as u32
            },
            None => {
                let ret = self.id_name_map.len();
                assert forall|i: int| 0 <= i < self@.len() implies self@[i] != name@ by {
                    assert(self.id_name_map@[i]@ != name@);
                }
                let ghost before = self@;
                self.id_name_map.push(name.to_owned());
                assert(self@ =~= before.push(name@));
                ret as u32
            },
        }
    }

    /// The id of `name`, registered under the next free id if it was not
    /// registered yet; `None`, and nothing registered, if the name is new
    /// and no id is free.
    pub fn try_query_id(&mut self, name: &str) -> (r: Option<u32>)
        requires
            old(self).wf(),
        ensures
            final(self).wf(),
            r is None <==> !old(self)@.contains(name@) && old(self)@.len() > u32::MAX,
            r is None ==> final(self)@ == old(self)@,
            r matches Some(id) ==> id < final(self)@.len() && final(self)@[id as int] == name@,
            old(self)@.contains(name@) ==> final(self)@ == old(self)@,
            r is Some && !old(self)@.contains(name@) ==> final(self)@ == old(self)@.push(name@),
    {
        match position(&self.id_name_map, name) {
            Some(i) => {
                assert(self@[i as int] == name@);
                Some(i as u32)
            },
            None => {
                assert forall|i: int| 0 <= i < self@.len() implies self@[i] != name@ by {
                    assert(self.id_name_map@[i]@ != name@);
                }
                if self.id_name_map.len() > u32::MAX as usize {
                    None
                } else {
                    Some(self.query_id(name))
                }
            },
        }
    }

    /// The name registered under `id`.
    pub fn query_name(&self, id: u32) -> (r: Option<&str>)
        ensures
            match r {
                Some(name) => id < self@.len() && name@ == self@[id as int],
                None => id >= self@.len(),
            },
    {
        if (id as usize) < self.id_name_map.len() {
            Some(self.id_name_map[id as usize].as_str())
        } else {
            None
        }
    }
}

/// A registry of authors with 16-bit ids.
pub struct AuthorIndex {
    id2name: Vec<String>,
}

impl View for AuthorIndex {
    type V = Seq<Seq<char>>;

    /// The registered names; a name's id is its place.
    closed spec fn view(&self) -> Seq<Seq<char>> {
        name_views(self.id2name@)
    }
}

impl AuthorIndex {
    /// No name is registered twice, and every id fits 16 bits.
    pub open spec fn wf(&self) -> bool {
        names_unique(self@) && self@.len() <= u16::MAX as nat + 1
    }

    /// A registry without names.
    pub fn new() -> (r: AuthorIndex)
        ensures
            r@ == Seq::<Seq<char>>::empty(),
            r.wf(),
    {
        let r = AuthorIndex { id2name: Vec::new() };
        assert(r@ =~= Seq::<Seq<char>>::empty());
        r
    }

    /// The id of `name`, registered under the next free id if it was not
    /// registered yet. The registry must have a free id left for a new
    /// name.
    pub fn get_id_by_name(&mut self, name: &str) -> (id: u16)
        requires
            old(self).wf(),
            old(self)@.contains(name@) || old(self)@.len() <= u16::MAX,
        ensures
            final(self).wf(),
            final(self)@[id as int] == name@,
            id < final(self)@.len(),
            old(self)@.contains(name@) ==> final(self)@ == old(self)@,
            !old(self)@.contains(name@) ==> final(self)@ == old(self)@.push(name@) && id == old(self)@.len(),
    {
        match position(&self.id2name, name) {
            Some(i) => {
                assert(self@[i as int] == name@);
                i as u16
            },
            None => {
                let idx = self.id2name.len();
                assert forall|i: int| 0 <= i < self@.len() implies self@[i] != name@ by {
                    assert(self.id2name@[i]@ != name@);
                }
                let ghost before = self@;
                self.id2name.push(name.to_owned());
                assert(self@ =~= before.push(name@));
                idx as u16
            },
        }
    }

    /// The name registered under `idx`.
    pub fn get_name_by_id(&self, idx: u16) -> (r: Option<&str>)
        ensures
            match r {
                Some(name) => idx < self@.len() && name@ == self@[idx as int],
                None => idx >= self@.len(),
            },
    {
        if idx as usize >= self.id2name.len() {
            return None;
        }
        Some(self.id2name[idx as usize].as_str())
    }

    /// The number of registered names.
    pub fn num_authors(&self) -> (n: usize)
        ensures
            n == self@.len(),
    {
        self.id2name.len()
    }
}

/// Registering a name never changes the id of a name registered before.
pub proof fn lemma_ids_stable(before: Seq<Seq<char>>, name: Seq<char>, id: int)
    requires
        0 <= id < before.len(),
    ensures
        before.push(name)[id] == before[id],
{
}

/// A count of lines for each author id.
pub struct AuthorStat(pub Vec<usize>);

/// The counts, extended by zeros so that `author` has one.
pub open spec fn counts_for(counts: Seq<usize>, author: int) -> Seq<usize> {
    if author < counts.len() {
        counts
    } else {
        counts + Seq::new((author + 1 - counts.len()) as nat, |i: int| 0usize)
    }
}

impl AuthorStat {
    /// No counts yet.
    pub fn new() -> (r: AuthorStat)
        ensures
            r.0@ == Seq::<usize>::empty(),
    {
        AuthorStat(Vec::new())
    }

    /// A copy of the counts.
    pub fn duplicate(&self) -> (r: AuthorStat)
        ensures
            r.0@ == self.0@,
    {
        let counts = self.0.clone();
        assert(counts@ =~= self.0@);
        AuthorStat(counts)
    }

    /// The counts, by author id.
    pub fn stats(&self) -> (r: &[usize])
        ensures
            r@ == self.0@,
    {
        self.0.as_slice()
    }

    /// Counts one line more for `author` if `delta` is positive, one line
    /// less otherwise. The count must stay within the range of a machine
    /// word.
    pub fn incrment_author(&mut self, author: u16, delta: i32)
        requires
            delta > 0 ==> counts_for(old(self).0@, author as int)[author as int] < usize::MAX,
            delta <= 0 ==> counts_for(old(self).0@, author as int)[author as int] > 0,
        ensures
            final(self).0@ == counts_for(old(self).0@, author as int).update(
                author as int,
                if delta > 0 {
                    (counts_for(old(self).0@, author as int)[author as int] + 1) as usize
                } else {
                    (counts_for(old(self).0@, author as int)[author as int] - 1) as usize
                },
            ),
    {
        let ghost before = self.0@;
        while self.0.len() <= author as usize
            invariant
                self.0@.len() >= before.len(),
                self.0@.len() <= author + 1 || self.0@.len() == before.len(),
                forall|i: int| 0 <= i < before.len() ==> self.0@[i] == before[i],
                forall|i: int| before.len() <= i < self.0@.len() ==> self.0@[i] == 0,
            decreases author + 1 - self.0.len(),
        {
            self.0.push(0);
        }
        assert(self.0@ =~= counts_for(before, author as int));
        let count = self.0[author as usize];
        if delta > 0 {
            self.0[author as usize] = count + 1;
        } else {
            self.0[author as usize] = count - 1;
        }
    }
}

} // verus!
