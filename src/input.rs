//! The vocabulary of input names that steer the camera.
use vstd::prelude::*;

verus! {

/// A one-shot rotation, applied at the moment its key is reported pressed.
#[derive(Clone, Copy, Debug, PartialEq, Eq, Structural)]
pub enum Turn {
    /// "Up": direction and up rotate about `direction x up`.
    PitchUp,
    /// "Down": direction and up rotate about `up x direction`.
    PitchDown,
    /// "Left": direction rotates about `-up`.
    YawLeft,
    /// "Right": direction rotates about `up`.
    YawRight,
}

/// A fixed step of translation, applied every frame while its key is held.
#[derive(Clone, Copy, Debug, PartialEq, Eq, Structural)]
pub enum Movement {
    /// "W": along `direction`.
    Forward,
    /// "S": against `direction`.
    Backward,
    /// "A": along `direction x up`.
    StrafeLeft,
    /// "D": against `direction x up`.
    StrafeRight,
    /// "E": along `up`, plus an extra lift on the vertical axis.
    Rise,
    /// "Q": against `up`.
    Sink,
}

/// The axis that a rotation turns about.
#[derive(Clone, Copy, Debug, PartialEq, Eq, Structural)]
pub enum Axis {
    /// `direction x up`
    DirectionCrossUp,
    /// `up x direction`
    UpCrossDirection,
    /// `-up`
    NegatedUp,
    /// `up`
    Up,
}

/// The vector that a translation step runs along.
#[derive(Clone, Copy, Debug, PartialEq, Eq, Structural)]
pub enum Basis {
    /// `direction`
    Direction,
    /// `direction x up`
    Side,
    /// `up`
    Up,
}

impl Turn {
    pub open spec fn spec_axis(self) -> Axis {
        match self {
            Turn::PitchUp => Axis::DirectionCrossUp,
            Turn::PitchDown => Axis::UpCrossDirection,
            Turn::YawLeft => Axis::NegatedUp,
            Turn::YawRight => Axis::Up,
        }
    }

    /// The axis this rotation turns about.
    pub fn axis(self) -> (a: Axis)
        ensures
            a == self.spec_axis(),
    {
        match self {
            Turn::PitchUp => Axis::DirectionCrossUp,
            Turn::PitchDown => Axis::UpCrossDirection,
            Turn::YawLeft => Axis::NegatedUp,
            Turn::YawRight => Axis::Up,
        }
    }

    /// Whether the up vector turns along with the direction; a yaw leaves it.
    pub fn turns_up(self) -> (r: bool)
        ensures
            r == (self is PitchUp || self is PitchDown),
    {
        match self {
            Turn::PitchUp | Turn::PitchDown => true,
            Turn::YawLeft | Turn::YawRight => false,
        }
    }
}

impl Movement {
    pub open spec fn spec_basis(self) -> Basis {
        match self {
            Movement::Forward | Movement::Backward => Basis::Direction,
            Movement::StrafeLeft | Movement::StrafeRight => Basis::Side,
            Movement::Rise | Movement::Sink => Basis::Up,
        }
    }

    /// The vector this step runs along.
    pub fn basis(self) -> (b: Basis)
        ensures
            b == self.spec_basis(),
    {
        match self {
            Movement::Forward | Movement::Backward => Basis::Direction,
            Movement::StrafeLeft | Movement::StrafeRight => Basis::Side,
            Movement::Rise | Movement::Sink => Basis::Up,
        }
    }

    /// Whether the step runs against its vector rather than along it.
    pub fn reversed(self) -> (r: bool)
        ensures
            r == (self is Backward || self is StrafeRight || self is Sink),
    {
        match self {
            Movement::Backward | Movement::StrafeRight | Movement::Sink => true,
            _ => false,
        }
    }

    /// Whether the step adds the extra lift on the vertical axis, once.
    pub fn lifts(self) -> (r: bool)
        ensures
            r == (self is Rise),
    {
        match self {
            Movement::Rise => true,
            _ => false,
        }
    }
}

/// What an input name means to the camera.
#[derive(Clone, Copy, Debug, PartialEq, Eq, Structural)]
pub enum Action {
    Turn(Turn),
    Move(Movement),
    /// Any other name: tracked while held, but inert.
    Other,
}

pub open spec fn action_of(name: Seq<char>) -> Action {
    if name == "Up"@ {
        Action::Turn(Turn::PitchUp)
    } else if name == "Down"@ {
        Action::Turn(Turn::PitchDown)
    } else if name == "Left"@ {
        Action::Turn(Turn::YawLeft)
    } else if name == "Right"@ {
        Action::Turn(Turn::YawRight)
    } else if name == "W"@ {
        Action::Move(Movement::Forward)
    } else if name == "S"@ {
        Action::Move(Movement::Backward)
    } else if name == "A"@ {
        Action::Move(Movement::StrafeLeft)
    } else if name == "D"@ {
        Action::Move(Movement::StrafeRight)
    } else if name == "E"@ {
        Action::Move(Movement::Rise)
    } else if name == "Q"@ {
        Action::Move(Movement::Sink)
    } else {
        Action::Other
    }
}

fn same_text(a: &str, b: &str) -> (r: bool)
    ensures
        r == (a@ == b@),
{
    let n = a.unicode_len();
    if n != b.unicode_len() {
        return false;
    }
    let mut i: usize = 0;
    while i < n
        invariant
            n == a@.len() == b@.len(),
            i <= n,
            forall|j: int| 0 <= j < i ==> #[trigger] a@[j] == b@[j],
        decreases n - i,
    {
        if a.get_char(i) != b.get_char(i) {
            return false;
        }
        i = i + 1;
    }
    assert(a@ =~= b@);
    true
}

/// The meaning of an input name.
pub fn classify(name: &str) -> (a: Action)
    ensures
        a == action_of(name@),
{
    if same_text(name, "Up") {
        Action::Turn(Turn::PitchUp)
    } else if same_text(name, "Down") {
        Action::Turn(Turn::PitchDown)
    } else if same_text(name, "Left") {
        Action::Turn(Turn::YawLeft)
    } else if same_text(name, "Right") {
        Action::Turn(Turn::YawRight)
    } else if same_text(name, "W") {
        Action::Move(Movement::Forward)
    } else if same_text(name, "S") {
        Action::Move(Movement::Backward)
    } else if same_text(name, "A") {
        Action::Move(Movement::StrafeLeft)
    } else if same_text(name, "D") {
        Action::Move(Movement::StrafeRight)
    } else if same_text(name, "E") {
        Action::Move(Movement::Rise)
    } else if same_text(name, "Q") {
        Action::Move(Movement::Sink)
    } else {
        Action::Other
    }
}

} // verus!
