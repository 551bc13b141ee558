//! The set of input names currently held down, and what a frame's input
//! events do to it.
use vstd::prelude::*;
use crate::input::{Action, Movement, Turn, action_of, classify};

verus! {

/// The views of a sequence of names.
pub open spec fn names_of(v: Seq<String>) -> Seq<Seq<char>> {
    v.map_values(|s: String| s@)
}

/// `name` joins the held names unless it is already there.
pub open spec fn press_one(held: Seq<Seq<char>>, name: Seq<char>) -> Seq<Seq<char>> {
    if held.contains(name) {
        held
    } else {
        held.push(name)
    }
}

/// Each of `names` pressed in turn.
pub open spec fn press_all(held: Seq<Seq<char>>, names: Seq<Seq<char>>) -> Seq<Seq<char>>
    decreases names.len(),
{
    if names.len() == 0 {
        held
    } else {
        press_one(press_all(held, names.drop_last()), names.last())
    }
}

/// Each of `names` released in turn: its first occurrence leaves, if it is held.
pub open spec fn release_all(held: Seq<Seq<char>>, names: Seq<Seq<char>>) -> Seq<Seq<char>>
    decreases names.len(),
{
    if names.len() == 0 {
        held
    } else {
        release_all(held, names.drop_last()).remove_value(names.last())
    }
}

/// The held names after one report of pressed and released names.
pub open spec fn after_inputs(
    held: Seq<Seq<char>>,
    pressed: Seq<Seq<char>>,
    released: Seq<Seq<char>>,
) -> Seq<Seq<char>> {
    release_all(press_all(held, pressed), released)
}

/// The rotations that `names` call for, in order.
pub open spec fn turns_of(names: Seq<Seq<char>>) -> Seq<Turn>
    decreases names.len(),
{
    if names.len() == 0 {
        Seq::empty()
    } else {
        let rest = turns_of(names.drop_last());
        match action_of(names.last()) {
            Action::Turn(t) => rest.push(t),
            _ => rest,
        }
    }
}

/// The translation steps that `names` call for, in order.
pub open spec fn movements_of(names: Seq<Seq<char>>) -> Seq<Movement>
    decreases names.len(),
{
    if names.len() == 0 {
        Seq::empty()
    } else {
        let rest = movements_of(names.drop_last());
        match action_of(names.last()) {
            Action::Move(m) => rest.push(m),
            _ => rest,
        }
    }
}

proof fn lemma_remove_value(s: Seq<Seq<char>>, v: Seq<char>, x: Seq<char>)
    requires
        s.no_duplicates(),
    ensures
        s.remove_value(v).no_duplicates(),
        s.remove_value(v).contains(x) <==> (s.contains(x) && x != v),
{
    s.index_of_first_ensures(v);
    match s.index_of_first(v) {
        Some(i) => {
            let t = s.remove(i);
            assert(t.no_duplicates()) by {
                assert forall|a: int, b: int| 0 <= a < t.len() && 0 <= b < t.len() && a != b implies t[a]
                    != t[b] by {
                    let a0 = if a < i { a } else { a + 1 };
                    let b0 = if b < i { b } else { b + 1 };
                    assert(t[a] == s[a0] && t[b] == s[b0]);
                }
            }
            if t.contains(x) {
                let j = choose|j: int| 0 <= j < t.len() && t[j] == x;
                let j0 = if j < i { j } else { j + 1 };
                assert(s[j0] == x);
            }
            if s.contains(x) && x != v {
                let j = choose|j: int| 0 <= j < s.len() && s[j] == x;
                if j < i {
                    assert(t[j] == x);
                } else {
                    assert(t[j - 1] == x);
                }
            }
        },
        None => {},
    }
}

proof fn lemma_release_all_valid(held: Seq<Seq<char>>, names: Seq<Seq<char>>)
    requires
        held.no_duplicates(),
    ensures
        release_all(held, names).no_duplicates(),
    decreases names.len(),
{
    if names.len() > 0 {
        lemma_release_all_valid(held, names.drop_last());
        lemma_remove_value(release_all(held, names.drop_last()), names.last(), names.last());
    }
}

proof fn lemma_release_all_contains(held: Seq<Seq<char>>, names: Seq<Seq<char>>, x: Seq<char>)
    requires
        held.no_duplicates(),
    ensures
        release_all(held, names).contains(x) <==> (held.contains(x) && !names.contains(x)),
    decreases names.len(),
{
    if names.len() > 0 {
        let rest = names.drop_last();
        lemma_release_all_contains(held, rest, x);
        lemma_release_all_valid(held, rest);
        lemma_remove_value(release_all(held, rest), names.last(), x);
        if names.contains(x) && names.last() != x {
            let j = choose|j: int| 0 <= j < names.len() && names[j] == x;
            assert(rest[j] == x);
        }
        if rest.contains(x) {
            let j = choose|j: int| 0 <= j < rest.len() && rest[j] == x;
            assert(names[j] == x);
        }
        assert(names[names.len() - 1] == names.last());
    }
}

proof fn lemma_press_all_contains(held: Seq<Seq<char>>, names: Seq<Seq<char>>, x: Seq<char>)
    requires
        held.no_duplicates(),
    ensures
        press_all(held, names).no_duplicates(),
        press_all(held, names).contains(x) <==> (held.contains(x) || names.contains(x)),
    decreases names.len(),
{
    if names.len() > 0 {
        let rest = names.drop_last();
        let before = press_all(held, rest);
        let v = names.last();
        lemma_press_all_contains(held, rest, x);
        lemma_press_all_contains(held, rest, v);
        if !before.contains(v) {
            let after = before.push(v);
            assert forall|a: int, b: int|
                0 <= a < after.len() && 0 <= b < after.len() && a != b implies after[a] != after[b] by {
                if a == before.len() {
                    assert(before[b] != v);
                } else if b == before.len() {
                    assert(before[a] != v);
                }
            }
            if after.contains(x) && x != v {
                let j = choose|j: int| 0 <= j < after.len() && after[j] == x;
                assert(before[j] == x);
            }
            if before.contains(x) {
                let j = choose|j: int| 0 <= j < before.len() && before[j] == x;
                assert(after[j] == x);
            }
            assert(after[before.len() as int] == v);
        }
        if names.contains(x) && v != x {
            let j = choose|j: int| 0 <= j < names.len() && names[j] == x;
            assert(rest[j] == x);
        }
        if rest.contains(x) {
            let j = choose|j: int| 0 <= j < rest.len() && rest[j] == x;
            assert(names[j] == x);
        }
        assert(names[names.len() - 1] == v);
    }
}

/// A name pressed in one report and released in the next is held after the
/// first report and no longer held after the second, whatever else the two
/// reports hold.
pub proof fn lemma_press_then_release(
    held: Seq<Seq<char>>,
    pressed1: Seq<Seq<char>>,
    released1: Seq<Seq<char>>,
    pressed2: Seq<Seq<char>>,
    released2: Seq<Seq<char>>,
    name: Seq<char>,
)
    requires
        held.no_duplicates(),
        pressed1.contains(name),
        !released1.contains(name),
        released2.contains(name),
    ensures
        after_inputs(held, pressed1, released1).contains(name),
        !after_inputs(after_inputs(held, pressed1, released1), pressed2, released2).contains(name),
{
    lemma_press_all_contains(held, pressed1, name);
    lemma_release_all_contains(press_all(held, pressed1), released1, name);
    let mid = after_inputs(held, pressed1, released1);
    lemma_release_all_valid(press_all(held, pressed1), released1);
    lemma_press_all_contains(mid, pressed2, name);
    lemma_release_all_contains(press_all(mid, pressed2), released2, name);
}

/// Releasing names that are not held changes nothing.
pub proof fn lemma_release_unheld(held: Seq<Seq<char>>, released: Seq<Seq<char>>)
    requires
        forall|i: int| 0 <= i < released.len() ==> !held.contains(#[trigger] released[i]),
    ensures
        release_all(held, released) == held,
    decreases released.len(),
{
    if released.len() > 0 {
        let rest = released.drop_last();
        assert forall|i: int| 0 <= i < rest.len() implies !held.contains(#[trigger] rest[i]) by {
            assert(rest[i] == released[i]);
        }
        lemma_release_unheld(held, rest);
        assert(!held.contains(released[released.len() - 1]));
        held.index_of_first_ensures(released.last());
    }
}

proof fn lemma_no_movements(names: Seq<Seq<char>>)
    requires
        forall|i: int| 0 <= i < names.len() ==> !(action_of(#[trigger] names[i]) is Move),
    ensures
        movements_of(names) == Seq::<Movement>::empty(),
    decreases names.len(),
{
    if names.len() > 0 {
        let rest = names.drop_last();
        assert forall|i: int| 0 <= i < rest.len() implies !(action_of(#[trigger] rest[i]) is Move) by {
            assert(rest[i] == names[i]);
        }
        lemma_no_movements(rest);
        assert(!(action_of(names[names.len() - 1]) is Move));
    }
}

/// When the one held name that calls for movement is `name`, a frame takes
/// exactly one step, the one `name` calls for, whatever else is held.
pub proof fn lemma_single_movement(held: Seq<Seq<char>>, name: Seq<char>, step: Movement)
    requires
        held.no_duplicates(),
        held.contains(name),
        action_of(name) == Action::Move(step),
        forall|i: int|
            0 <= i < held.len() && held[i] != name ==> !(action_of(#[trigger] held[i]) is Move),
    ensures
        movements_of(held) == seq![step],
    decreases held.len(),
{
    let rest = held.drop_last();
    let last = held[held.len() - 1];
    assert forall|i: int| 0 <= i < rest.len() implies #[trigger] rest[i] == held[i] by {}
    if last == name {
        assert forall|i: int| 0 <= i < rest.len() implies !(action_of(#[trigger] rest[i]) is Move) by {
            assert(held[i] != held[held.len() - 1]);
        }
        lemma_no_movements(rest);
        assert(movements_of(rest).push(step) =~= seq![step]);
    } else {
        let j = choose|j: int| 0 <= j < held.len() && held[j] == name;
        assert(rest[j] == name);
        assert forall|a: int, b: int|
            0 <= a < rest.len() && 0 <= b < rest.len() && a != b implies rest[a] != rest[b] by {
            assert(held[a] != held[b]);
        }
        lemma_single_movement(rest, name, step);
    }
}

/// The input names currently held, in the order they were first pressed.
pub struct HeldInputs {
    names: Vec<String>,
}

impl View for HeldInputs {
    type V = Seq<Seq<char>>;

    closed spec fn view(&self) -> Seq<Seq<char>> {
        names_of(self.names@)
    }
}

impl HeldInputs {
    /// No name is held twice.
    pub open spec fn wf(&self) -> bool {
        self@.no_duplicates()
    }

    /// Nothing held.
    pub fn new() -> (r: HeldInputs)
        ensures
            r.wf(),
            r@ == Seq::<Seq<char>>::empty(),
    {
        let r = HeldInputs { names: Vec::new() };
        assert(r@ =~= Seq::<Seq<char>>::empty());
        r
    }

    /// How many names are held.
    pub fn len(&self) -> (n: usize)
        ensures
            n == self@.len(),
    {
        self.names.len()
    }

    /// The place of the first held name equal to `name`.
    fn position(&self, name: &String) -> (r: Option<usize>)
        ensures
            match r {
                Some(i) => self@.index_of_first(name@) == Some(i as int),
                None => self@.index_of_first(name@) is None,
            },
    {
        proof {
            self@.index_of_first_ensures(name@);
        }
        let mut i: usize = 0;
        while i < self.names.len()
            invariant
                i <= self.names@.len(),
                self@.len() == self.names@.len(),
                forall|j: int| 0 <= j < i ==> #[trigger] self@[j] != name@,
            decreases self.names.len() - i,
        {
            assert(self@[i as int] == self.names@[i as int]@);
            if self.names[i] == *name {
                proof {
                    assert(self@.contains(name@));
                    self@.index_of_first_ensures(name@);
                    let k = self@.index_of_first(name@).unwrap();
                    assert(k == i) by {
                        if k < i {
                            assert(self@[k] != name@);
                        }
                    }
                }
                return Some(i);
            }
            i = i + 1;
        }
        proof {
            if self@.contains(name@) {
                let k = choose|k: int| 0 <= k < self@.len() && self@[k] == name@;
                assert(self@[k] != name@);
            }
        }
        None
    }

    /// Whether `name` is held.
    pub fn contains(&self, name: &String) -> (r: bool)
        ensures
            r == self@.contains(name@),
    {
        proof {
            self@.index_of_first_ensures(name@);
        }
        self.position(name).is_some()
    }

    /// Holds `name`, unless it is already held.
    pub fn press(&mut self, name: &String)
        requires
            old(self).wf(),
        ensures
            final(self).wf(),
            final(self)@ == press_one(old(self)@, name@),
    {
        if self.position(name).is_none() {
            proof {
                old(self)@.index_of_first_ensures(name@);
            }
            self.names.push(name.clone());
            assert(self@ =~= old(self)@.push(name@));
            assert(self@.no_duplicates()) by {
                assert forall|i: int, j: int|
                    0 <= i < self@.len() && 0 <= j < self@.len() && i != j implies self@[i]
                    != self@[j] by {
                    if j == old(self)@.len() {
                        assert(old(self)@[i] != name@);
                    } else if i == old(self)@.len() {
                        assert(old(self)@[j] != name@);
                    }
                }
            }
        } else {
            proof {
                old(self)@.index_of_first_ensures(name@);
            }
        }
    }

    /// Lets go of the first held occurrence of `name`, if any.
    pub fn release(&mut self, name: &String)
        requires
            old(self).wf(),
        ensures
            final(self).wf(),
            final(self)@ == old(self)@.remove_value(name@),
    {
        proof {
            old(self)@.index_of_first_ensures(name@);
        }
        match self.position(name) {
            Some(i) => {
                self.names.remove(i);
                assert(self@ =~= old(self)@.remove(i as int));
                assert(self@.no_duplicates()) by {
                    assert forall|a: int, b: int|
                        0 <= a < self@.len() && 0 <= b < self@.len() && a != b implies self@[a]
                        != self@[b] by {
                        let a0 = if a < i { a } else { a + 1 };
                        let b0 = if b < i { b } else { b + 1 };
                        assert(self@[a] == old(self)@[a0]);
                        assert(self@[b] == old(self)@[b0]);
                    }
                }
            },
            None => {},
        }
    }
    /// Takes one report of input events. Each pressed name joins the held
    /// names unless already held, and each released name then leaves them
    /// (its first occurrence, if held). Returns the rotations that the pressed
    /// names call for, in the order pressed.
    pub fn set_inputs(&mut self, pressed: &Vec<String>, released: &Vec<String>) -> (turns: Vec<
        Turn,
    >)
        requires
            old(self).wf(),
        ensures
            final(self).wf(),
            final(self)@ == after_inputs(old(self)@, names_of(pressed@), names_of(released@)),
            turns@ == turns_of(names_of(pressed@)),
    {
        let ghost start = self@;
        let ghost p = names_of(pressed@);
        let ghost r = names_of(released@);
        let mut turns: Vec<Turn> = Vec::new();
        let mut i: usize = 0;
        assert(p.subrange(0, 0) =~= Seq::<Seq<char>>::empty());
        while i < pressed.len()
            invariant
                self.wf(),
                i <= pressed@.len(),
                p == names_of(pressed@),
                self@ == press_all(start, p.subrange(0, i as int)),
                turns@ == turns_of(p.subrange(0, i as int)),
            decreases pressed.len() - i,
        {
            let name = &pressed[i];
            assert(p.subrange(0, i + 1).drop_last() =~= p.subrange(0, i as int));
            assert(p.subrange(0, i + 1).last() == name@);
            self.press(name);
            match classify(name.as_str()) {
                Action::Turn(t) => turns.push(t),
                _ => {},
            }
            i = i + 1;
        }
        assert(p.subrange(0, i as int) =~= p);
        let ghost mid = self@;
        let mut k: usize = 0;
        assert(r.subrange(0, 0) =~= Seq::<Seq<char>>::empty());
        while k < released.len()
            invariant
                self.wf(),
                k <= released@.len(),
                r == names_of(released@),
                self@ == release_all(mid, r.subrange(0, k as int)),
            decreases released.len() - k,
        {
            let name = &released[k];
            assert(r.subrange(0, k + 1).drop_last() =~= r.subrange(0, k as int));
            assert(r.subrange(0, k + 1).last() == name@);
            self.release(name);
            k = k + 1;
        }
        assert(r.subrange(0, k as int) =~= r);
        turns
    }

    /// The translation steps that the held names call for, in the order they
    /// are held.
    pub fn movements(&self) -> (steps: Vec<Movement>)
        ensures
            steps@ == movements_of(self@),
    {
        let mut steps: Vec<Movement> = Vec::new();
        let mut i: usize = 0;
        assert(self@.subrange(0, 0) =~= Seq::<Seq<char>>::empty());
        while i < self.names.len()
            invariant
                i <= self.names@.len(),
                self@.len() == self.names@.len(),
                steps@ == movements_of(self@.subrange(0, i as int)),
            decreases self.names.len() - i,
        {
            let name = &self.names[i];
            assert(self@.subrange(0, i + 1).drop_last() =~= self@.subrange(0, i as int));
            assert(self@.subrange(0, i + 1).last() == name@);
            match classify(name.as_str()) {
                Action::Move(m) => steps.push(m),
                _ => {},
            }
            i = i + 1;
        }
        assert(self@.subrange(0, i as int) =~= self@);
        steps
    }
}

} // verus!
