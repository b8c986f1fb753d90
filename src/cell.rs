//! One square of the grid: a digit (0 while empty) and the candidate digits
//! that are still possible for it, kept as a bitset over bits 1 to 9.
use std::collections::HashSet;
use vstd::prelude::*;
use vstd::string::StringExecFns;

verus! {

broadcast use vstd::std_specs::hash::group_hash_axioms;

/// A digit that may stand in a filled cell or in a candidate set.
pub open spec fn is_digit(v: u32) -> bool {
    1 <= v <= 9
}

/// The text of a digit as the grid shows it: a space for an empty cell.
pub open spec fn digit_text(v: u32) -> Seq<char> {
    if v == 0 {
        seq![' ']
    } else if v == 1 {
        seq!['1']
    } else if v == 2 {
        seq!['2']
    } else if v == 3 {
        seq!['3']
    } else if v == 4 {
        seq!['4']
    } else if v == 5 {
        seq!['5']
    } else if v == 6 {
        seq!['6']
    } else if v == 7 {
        seq!['7']
    } else if v == 8 {
        seq!['8']
    } else {
        seq!['9']
    }
}

pub open spec fn bit_set(bits: u32, v: u32) -> bool {
    (bits >> v) & 1u32 == 1u32
}

proof fn lemma_bit_insert(bits: u32, v: u32, w: u32)
    requires
        v < 32,
        w < 32,
    ensures
        ((bits | (1u32 << v)) >> w) & 1u32 == 1u32 <==> (v == w || (bits >> w) & 1u32 == 1u32),
{
    assert(((bits | (1u32 << v)) >> w) & 1u32 == 1u32 <==> (v == w || (bits >> w) & 1u32 == 1u32))
        by (bit_vector)
        requires
            v < 32,
            w < 32,
    ;
}

proof fn lemma_bit_remove(bits: u32, v: u32, w: u32)
    requires
        v < 32,
        w < 32,
    ensures
        ((bits & !(1u32 << v)) >> w) & 1u32 == 1u32 <==> (v != w && (bits >> w) & 1u32 == 1u32),
{
    assert(((bits & !(1u32 << v)) >> w) & 1u32 == 1u32 <==> (v != w && (bits >> w) & 1u32
        == 1u32)) by (bit_vector)
        requires
            v < 32,
            w < 32,
    ;
}

proof fn lemma_bit_empty(w: u32)
    ensures
        (0u32 >> w) & 1u32 == 0u32,
{
    assert((0u32 >> w) & 1u32 == 0u32) by (bit_vector);
}

/// A square of the grid. `annotations` has bit `v` set when digit `v` is a
/// candidate.
#[derive(Clone, Copy, PartialEq, Eq, Structural, Debug)]
pub struct Cell {
    contents: u32,
    annotations: u32,
}

impl Cell {
    /// The digit held, 0 while the cell is empty.
    pub closed spec fn value(&self) -> u32 {
        self.contents
    }

    /// The candidate digits still possible for the cell.
    pub closed spec fn cands(&self) -> Set<u32> {
        Set::new(|v: u32| is_digit(v) && bit_set(self.annotations, v))
    }

    proof fn lemma_cands_empty(&self)
        requires
            self.annotations == 0,
        ensures
            self.cands() == Set::<u32>::empty(),
    {
        assert forall|v: u32| !#[trigger] bit_set(self.annotations, v) by {
            lemma_bit_empty(v);
        }
        assert(self.cands() =~= Set::<u32>::empty());
    }

    pub fn new_blank() -> (r: Self)
        ensures
            r.value() == 0,
            r.cands() == Set::<u32>::empty(),
    {
        let r = Self { contents: 0, annotations: 0 };
        proof {
            r.lemma_cands_empty();
        }
        r
    }

    pub fn new_from_number(num: u32) -> (r: Self)
        ensures
            r.value() == num,
            r.cands() == Set::<u32>::empty(),
    {
        let r = Self { contents: num, annotations: 0 };
        proof {
            r.lemma_cands_empty();
        }
        r
    }

    pub fn set(&mut self, num: u32)
        ensures
            final(self).value() == num,
            final(self).cands() == old(self).cands(),
    {
        self.contents = num;
    }

    pub fn get(&self) -> (r: u32)
        ensures
            r == self.value(),
    {
        self.contents
    }

    /// A one-character rendering: a space when empty, else the digit.
    pub fn to_str_unannotated(&self) -> (r: String)
        requires
            self.value() <= 9,
        ensures
            r@ == digit_text(self.value()),
    {
        let text = match self.contents {
            0 => " ",
            1 => "1",
            2 => "2",
            3 => "3",
            4 => "4",
            5 => "5",
            6 => "6",
            7 => "7",
            8 => "8",
            _ => "9",
        };
        proof {
            reveal_strlit(" ");
            reveal_strlit("1");
            reveal_strlit("2");
            reveal_strlit("3");
            reveal_strlit("4");
            reveal_strlit("5");
            reveal_strlit("6");
            reveal_strlit("7");
            reveal_strlit("8");
            reveal_strlit("9");
        }
        String::from_str(text)
    }

    /// Whether `num` is among the candidates.
    pub fn has_annotation(&self, num: u32) -> (r: bool)
        ensures
            r == self.cands().contains(num),
    {
        if num < 1 || num > 9 {
            false
        } else {
            (self.annotations >> num) & 1u32 == 1u32
        }
    }

    /// Adds a candidate; tells whether it was new.
    pub fn add_annotation(&mut self, num: u32) -> (r: bool)
        requires
            is_digit(num),
        ensures
            final(self).value() == old(self).value(),
            final(self).cands() == old(self).cands().insert(num),
            r == !old(self).cands().contains(num),
    {
        let r = !self.has_annotation(num);
        let ghost before = *self;
        self.annotations = self.annotations | (1u32 << num);
        proof {
            assert forall|w: u32| is_digit(w) implies #[trigger] bit_set(self.annotations, w) == (w
                == num || bit_set(before.annotations, w)) by {
                lemma_bit_insert(before.annotations, num, w);
            }
            assert(self.cands() =~= before.cands().insert(num));
        }
        r
    }

    /// Removes a candidate; tells whether it was there. Removing one that is
    /// absent changes nothing.
    pub fn remove_annotation(&mut self, num: u32) -> (r: bool)
        ensures
            final(self).value() == old(self).value(),
            final(self).cands() == old(self).cands().remove(num),
            r == old(self).cands().contains(num),
            !r ==> *final(self) == *old(self),
    {
        if !self.has_annotation(num) {
            proof {
                assert(self.cands() =~= self.cands().remove(num));
            }
            return false;
        }
        let ghost before = *self;
        self.annotations = self.annotations & !(1u32 << num);
        proof {
            assert forall|w: u32| is_digit(w) implies #[trigger] bit_set(self.annotations, w) == (w
                != num && bit_set(before.annotations, w)) by {
                lemma_bit_remove(before.annotations, num, w);
            }
            assert(self.cands() =~= before.cands().remove(num));
        }
        true
    }

    /// Replaces the candidate set by the digits of `annotations`.
    pub fn set_annotations(&mut self, annotations: HashSet<u32>)
        requires
            forall|v: u32| annotations@.contains(v) ==> is_digit(v),
        ensures
            final(self).value() == old(self).value(),
            final(self).cands() == annotations@,
    {
        self.clear_annotations();
        let mut num: u32 = 1;
        while num <= 9
            invariant
                1 <= num <= 10,
                self.value() == old(self).value(),
                forall|v: u32|
                    #[trigger] self.cands().contains(v) <==> (1 <= v < num
                        && annotations@.contains(v)),
            decreases 10 - num,
        {
            if annotations.contains(&num) {
                self.add_annotation(num);
            }
            num = num + 1;
        }
        assert(self.cands() =~= annotations@);
    }

    /// A copy of the candidate set.
    pub fn get_annotations(&mut self) -> (r: HashSet<u32>)
        ensures
            *final(self) == *old(self),
            r@ == old(self).cands(),
    {
        let mut r: HashSet<u32> = HashSet::new();
        let mut num: u32 = 1;
        while num <= 9
            invariant
                1 <= num <= 10,
                forall|v: u32|
                    #[trigger] r@.contains(v) <==> (1 <= v < num && self.cands().contains(v)),
            decreases 10 - num,
        {
            if self.has_annotation(num) {
                r.insert(num);
            }
            num = num + 1;
        }
        assert(r@ =~= self.cands());
        r
    }

    pub fn clear_annotations(&mut self)
        ensures
            final(self).value() == old(self).value(),
            final(self).cands() == Set::<u32>::empty(),
    {
        self.annotations = 0;
        proof {
            self.lemma_cands_empty();
        }
    }

    /// The one candidate, when the candidate set holds exactly one digit.
    pub fn single_annotation(&self) -> (r: Option<u32>)
        ensures
            r matches Some(v) ==> self.cands() == set![v],
            r is None ==> forall|v: u32| self.cands() != set![v],
    {
        let mut found: Option<u32> = None;
        let mut num: u32 = 1;
        while num <= 9
            invariant
                1 <= num <= 10,
                found matches Some(f) ==> 1 <= f < num && forall|v: u32|
                    1 <= v < num ==> (#[trigger] self.cands().contains(v) <==> v == f),
                found is None ==> forall|v: u32| 1 <= v < num ==> !#[trigger] self.cands().contains(v),
            decreases 10 - num,
        {
            if self.has_annotation(num) {
                if found.is_some() {
                    let ghost f = found->Some_0;
                    proof {
                        assert forall|v: u32| self.cands() != set![v] by {
                            if self.cands() == set![v] {
                                assert(self.cands().contains(f));
                                assert(self.cands().contains(num));
                            }
                        }
                    }
                    return None;
                }
                found = Some(num);
            }
            num = num + 1;
        }
        match found {
            Some(f) => {
                assert(self.cands() =~= set![f]);
            },
            None => {
                assert forall|v: u32| self.cands() != set![v] by {
                    if self.cands() == set![v] {
                        assert(self.cands().contains(v));
                    }
                }
            },
        }
        found
    }
}

} // verus!
