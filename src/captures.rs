use vstd::prelude::*;

verus! {

/// The texts of the participating groups, in group order, with the
/// groups that did not take part left out.
pub open spec fn participating(groups: Seq<Option<Seq<char>>>) -> Seq<Seq<char>>
    decreases groups.len(),
{
    if groups.len() == 0 {
        Seq::empty()
    } else {
        let rest = participating(groups.drop_last());
        match groups.last() {
            Some(text) => rest.push(text),
            None => rest,
        }
    }
}

/// What a stored group slot holds, as text.
pub open spec fn slot_text(g: Option<String>) -> Option<Seq<char>> {
    match g {
        Some(s) => Some(s@),
        None => None,
    }
}

/// What a borrowed group holds, as text.
pub open spec fn found_text(r: Option<&str>) -> Option<Seq<char>> {
    match r {
        Some(t) => Some(t@),
        None => None,
    }
}

/// The text of group `number` (counted from 1), or `None` where there is
/// no such group or it did not take part.
pub open spec fn numbered_group(groups: Seq<Option<Seq<char>>>, number: int) -> Option<Seq<char>> {
    if 1 <= number <= groups.len() {
        groups[number - 1]
    } else {
        None
    }
}

/// The groups that took part in a prefix of the slots come first, in the
/// same order, among those that took part in all of them.
pub proof fn lemma_participating_prefix(groups: Seq<Option<Seq<char>>>, k: int)
    requires
        0 <= k <= groups.len(),
    ensures
        participating(groups.take(k)).len() <= participating(groups).len(),
        forall|m: int|
            0 <= m < participating(groups.take(k)).len() ==> #[trigger] participating(
                groups.take(k),
            )[m] == participating(groups)[m],
    decreases groups.len(),
{
    if k == groups.len() {
        assert(groups.take(k) =~= groups);
    } else {
        let shorter = groups.drop_last();
        assert(groups.take(k) =~= shorter.take(k));
        lemma_participating_prefix(shorter, k);
    }
}

/// Where every slot took part, each of them is kept.
pub proof fn lemma_all_participating_len(groups: Seq<Option<Seq<char>>>)
    requires
        forall|k: int| 0 <= k < groups.len() ==> (#[trigger] groups[k]) is Some,
    ensures
        participating(groups).len() == groups.len(),
    decreases groups.len(),
{
    if groups.len() > 0 {
        let shorter = groups.drop_last();
        assert forall|k: int| 0 <= k < shorter.len() implies (#[trigger] shorter[k]) is Some by {
            assert(shorter[k] == groups[k]);
        }
        lemma_all_participating_len(shorter);
    }
}

/// Lookup by group number and positional lookup agree on a group when
/// every group before it took part: then group `number` is the
/// participating group at position `number - 1`.
pub proof fn lemma_number_agrees_with_position(groups: Seq<Option<Seq<char>>>, number: int)
    requires
        1 <= number <= groups.len(),
        forall|k: int| 0 <= k < number ==> (#[trigger] groups[k]) is Some,
    ensures
        numbered_group(groups, number) == Some(participating(groups)[number - 1]),
{
    let prefix = groups.take(number);
    let before = groups.take(number - 1);
    assert(prefix.drop_last() =~= before);
    assert forall|k: int| 0 <= k < before.len() implies (#[trigger] before[k]) is Some by {
        assert(before[k] == groups[k]);
    }
    lemma_all_participating_len(before);
    lemma_participating_prefix(groups, number);
    assert(participating(prefix)[number - 1] == groups[number - 1]->Some_0);
}

/// The capture groups of one successful match.
///
/// Groups are kept by number: entry `k` holds group `k + 1` (group 0, the
/// whole match, is not kept), or `None` where that group did not take
/// part. Positional access walks only the groups that took part, while a
/// lookup by group number (as a name resolves to) reads the group itself,
/// so a group that did not take part never shifts the one a name denotes.
pub struct Captures {
    groups: Vec<Option<String>>,
}

impl View for Captures {
    type V = Seq<Option<Seq<char>>>;

    closed spec fn view(&self) -> Seq<Option<Seq<char>>> {
        self.groups@.map_values(|g: Option<String>| slot_text(g))
    }
}

impl Captures {
    /// Builds the captures from the groups `1..=groups.len()`, by number.
    pub fn from_groups(groups: Vec<Option<String>>) -> (r: Captures)
        ensures
            r@ == groups@.map_values(|g: Option<String>| slot_text(g)),
    {
        Captures { groups }
    }

    /// Number of group slots, participating or not.
    pub fn group_slots(&self) -> (r: usize)
        ensures
            r == self@.len(),
    {
        self.groups.len()
    }

    /// Number of groups that took part in the match.
    pub fn len(&self) -> (r: usize)
        ensures
            r == participating(self@).len(),
    {
        let mut count: usize = 0;
        let mut k: usize = 0;
        while k < self.groups.len()
            invariant
                k <= self.groups@.len(),
                count == participating(self@.take(k as int)).len(),
                count <= k,
            decreases self.groups@.len() - k,
        {
            proof {
                assert(self@.take(k as int + 1).drop_last() =~= self@.take(k as int));
            }
            if self.groups[k].is_some() {
                count = count + 1;
            }
            k = k + 1;
        }
        proof {
            assert(self@.take(k as int) =~= self@);
        }
        count
    }

    /// The text of the `i`-th group that took part in the match, counted
    /// from 0 among those groups only.
    pub fn index(&self, i: usize) -> (r: &str)
        requires
            i < participating(self@).len(),
        ensures
            r@ == participating(self@)[i as int],
    {
        let n = self.groups.len();
        let mut count: usize = 0;
        let mut k: usize = 0;
        proof {
            assert(self@.take(0) =~= Seq::<Option<Seq<char>>>::empty());
        }
        loop
            invariant
                n == self.groups@.len(),
                k < n,
                count == participating(self@.take(k as int)).len(),
                count <= i,
                i < participating(self@).len(),
            decreases self.groups@.len() - k,
        {
            proof {
                assert(self@.take(k as int + 1).drop_last() =~= self@.take(k as int));
                lemma_participating_prefix(self@, k as int + 1);
            }
            match &self.groups[k] {
                Some(text) => {
                    proof {
                        let prefix = self@.take(k as int + 1);
                        assert(prefix.last() == Some(text@));
                        assert(participating(prefix) == participating(self@.take(k as int)).push(
                            text@,
                        ));
                    }
                    if count == i {
                        proof {
                            assert(participating(self@.take(k as int + 1))[i as int] == text@);
                        }
                        return text.as_str();
                    }
                    count = count + 1;
                },
                None => {},
            }
            k = k + 1;
            proof {
                if k == self.groups@.len() {
                    assert(self@.take(k as int) =~= self@);
                }
            }
        }
    }

    /// The text of group `number` (counted from 1, as a group name
    /// resolves to), or `None` where there is no such group or it did not
    /// take part.
    pub fn group(&self, number: libc::c_int) -> (r: Option<&str>)
        ensures
            found_text(r) == numbered_group(self@, number as int),
    {
        if number >= 1 && (number as usize) <= self.groups.len() {
            match &self.groups[(number - 1) as usize] {
                Some(text) => Some(text.as_str()),
                None => None,
            }
        } else {
            None
        }
    }

    /// The texts of the groups that took part in the match, in group order.
    pub fn substrings(&self) -> (r: Vec<&str>)
        ensures
            r@.map_values(|t: &str| t@) == participating(self@),
    {
        let mut texts: Vec<&str> = Vec::new();
        let mut k: usize = 0;
        while k < self.groups.len()
            invariant
                k <= self.groups@.len(),
                texts@.map_values(|t: &str| t@) == participating(self@.take(k as int)),
            decreases self.groups@.len() - k,
        {
            proof {
                assert(self@.take(k as int + 1).drop_last() =~= self@.take(k as int));
            }
            let ghost before = texts@;
            match &self.groups[k] {
                Some(text) => {
                    texts.push(text.as_str());
                    proof {
                        assert(texts@.map_values(|t: &str| t@) =~= before.map_values(
                            |t: &str| t@,
                        ).push(text@));
                    }
                },
                None => {},
            }
            k = k + 1;
        }
        proof {
            assert(self@.take(k as int) =~= self@);
        }
        texts
    }

    /// Whether no group took part in the match.
    pub fn is_empty(&self) -> (r: bool)
        ensures
            r == (participating(self@).len() == 0),
    {
        self.len() == 0
    }
}

} // verus!
