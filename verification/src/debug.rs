//! Remembers the last line shown in each slot so that only changes are
//! shown again.
use vstd::prelude::*;

verus! {

/// The last line shown per slot.
#[derive(Debug)]
pub struct ChangePrinter {
    prev: Vec<String>,
}

impl ChangePrinter {
    /// The remembered lines, slot by slot.
    pub closed spec fn lines(&self) -> Seq<Seq<char>> {
        self.prev@.map_values(|s: String| s@)
    }

    /// A printer that remembers nothing yet.
    pub fn new() -> (p: Self)
        ensures
            p.lines() == Seq::<Seq<char>>::empty(),
    {
        let p = ChangePrinter { prev: Vec::new() };
        proof {
            assert(p.lines() =~= Seq::<Seq<char>>::empty());
        }
        p
    }

    /// Offers `new` for `slot` and returns whether it is to be shown: a slot
    /// not seen before remembers it at the end of the list, a slot whose
    /// line differs takes it, and a slot with the same line stays quiet.
    pub fn print(&mut self, slot: u8, new: String) -> (shown: bool)
        ensures
            slot >= old(self).lines().len() ==> shown && final(self).lines() == old(self).lines().push(
                new@,
            ),
            slot < old(self).lines().len() ==> {
                &&& shown == (old(self).lines()[slot as int] != new@)
                &&& final(self).lines() == old(self).lines().update(slot as int, new@)
            },
    {
        let i = slot as usize;
        let ghost old_lines = self.lines();
        if self.prev.len() <= i {
            self.prev.push(new);
            proof {
                assert(self.lines() =~= old_lines.push(new@));
            }
            true
        } else {
            if !(self.prev[i] == new) {
                self.prev.set(i, new);
                proof {
                    assert(self.lines() =~= old_lines.update(i as int, new@));
                }
                true
            } else {
                proof {
                    assert(self.lines() =~= old_lines.update(i as int, new@));
                }
                false
            }
        }
    }
}

} // verus!
