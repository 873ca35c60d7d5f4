//! The label table: label names mapped to code offsets, where a later
//! declaration of a name replaces an earlier one.
use vstd::prelude::*;

verus! {

/// The map that declarations `s`, made in order, leave behind.
pub open spec fn entries_map(s: Seq<(Vec<u8>, usize)>) -> Map<Seq<u8>, usize>
    decreases s.len(),
{
    if s.len() == 0 {
        Map::empty()
    } else {
        entries_map(s.drop_last()).insert(s.last().0@, s.last().1)
    }
}

/// Label names and their offsets.
pub struct LabelTable {
    entries: Vec<(Vec<u8>, usize)>,
}

impl View for LabelTable {
    type V = Map<Seq<u8>, usize>;

    closed spec fn view(&self) -> Map<Seq<u8>, usize> {
        entries_map(self.entries@)
    }
}

/// Byte strings compared element by element.
pub fn bytes_eq(a: &Vec<u8>, b: &Vec<u8>) -> (r: bool)
    ensures
        r == (a@ == b@),
{
    if a.len() != b.len() {
        return false;
    }
    let mut i: usize = 0;
    while i < a.len()
        invariant
            a@.len() == b@.len(),
            i <= a@.len(),
            forall|j: int| 0 <= j < i ==> a@[j] == b@[j],
        decreases a@.len() - i,
    {
        if a[i] != b[i] {
            return false;
        }
        i = i + 1;
    }
    assert(a@ =~= b@);
    true
}

/// Declarations after position `i` that do not name `name` leave its entry
/// as the first `i` declarations made it.
proof fn lemma_entries_suffix(s: Seq<(Vec<u8>, usize)>, i: int, name: Seq<u8>)
    requires
        0 <= i <= s.len(),
        forall|j: int| i <= j < s.len() ==> (#[trigger] s[j]).0@ != name,
    ensures
        entries_map(s).contains_key(name) == entries_map(s.take(i)).contains_key(name),
        entries_map(s).contains_key(name) ==> entries_map(s)[name] == entries_map(s.take(i))[name],
    decreases s.len(),
{
    if s.len() > i {
        assert(s.drop_last().take(i) =~= s.take(i));
        lemma_entries_suffix(s.drop_last(), i, name);
    } else {
        assert(s.take(i) =~= s);
    }
}

impl LabelTable {
    /// An empty table.
    pub fn new() -> (r: LabelTable)
        ensures
            r@ == Map::<Seq<u8>, usize>::empty(),
    {
        LabelTable { entries: Vec::new() }
    }

    /// Declares `name` at `offset`, replacing an earlier declaration.
    pub fn insert(&mut self, name: Vec<u8>, offset: usize)
        ensures
            final(self)@ == old(self)@.insert(name@, offset),
    {
        let ghost before = self.entries@;
        self.entries.push((name, offset));
        assert(self.entries@.drop_last() =~= before);
    }

    /// The offset of `name`, if it is declared.
    pub fn get(&self, name: &Vec<u8>) -> (r: Option<usize>)
        ensures
            r == (if self@.contains_key(name@) { Some(self@[name@]) } else { None::<usize> }),
    {
        let mut i: usize = self.entries.len();
        while i > 0
            invariant
                i <= self.entries@.len(),
                forall|j: int| i <= j < self.entries@.len() ==> (#[trigger] self.entries@[j]).0@ != name@,
            decreases i,
        {
            let e = &self.entries[i - 1];
            if bytes_eq(&e.0, name) {
                proof {
                    lemma_entries_suffix(self.entries@, i as int, name@);
                    assert(self.entries@.take(i as int).drop_last() =~= self.entries@.take(i - 1));
                }
                return Some(e.1);
            }
            i = i - 1;
        }
        proof {
            lemma_entries_suffix(self.entries@, 0, name@);
        }
        None
    }
}

} // verus!
